use vstd::prelude::*;

use crate::error::{failed_with, EngineError};
use crate::text::text_eq;

verus! {

/// Identity of a node, assigned in creation order and unique within a graph.
#[derive(Debug, Clone, Copy, PartialEq, Eq, Hash, Structural)]
pub struct NodeId(pub u32);

/// Identity of a port, assigned in creation order and unique within a graph.
#[derive(Debug, Clone, Copy, PartialEq, Eq, Hash, Structural)]
pub struct PortId(pub u32);

#[derive(Debug, Clone, Copy, PartialEq, Eq, Hash, Structural)]
pub enum PortDir {
    In,
    Out,
}

/// One end of an edge: a port of a node, with the direction it is used in.
#[derive(Debug, Clone, Copy, PartialEq, Eq, Hash, Structural)]
pub struct Endpoint {
    pub node: NodeId,
    pub port: PortId,
    pub dir: PortDir,
}

/// A directed connection from an `Out` endpoint to an `In` endpoint.
#[derive(Debug, Clone, Copy)]
pub struct Edge {
    pub from: Endpoint,
    pub to: Endpoint,
}

/// High-level class of a node in the patch.
#[derive(Debug, Clone, Copy, PartialEq, Eq, Hash, Structural)]
pub enum NodeClass {
    Source,
    Processor,
    Mixer,
    Output,
}

/// The closed set of node kinds, each belonging to one class.
#[derive(Debug, Clone, Copy, PartialEq, Eq, Hash, Structural)]
pub enum NodeKind {
    // Sources
    ShaderSource,
    NoiseSource,
    PreviousFrame,
    /// Host-provided image source (the image is supplied through the parameter store).
    TextureInputPass,
    VideoDecodeSource,
    // Processors
    ShaderPass,
    ColorCorrect,
    Blur,
    Keyer,
    Feedback,
    // Mixers
    Crossfade,
    Add,
    Multiply,
    KeyMix,
    /// Weighted sum of up to four inputs; ports in0, in1, in2, in3, out.
    MatrixMix4,
    // Outputs
    Window,
    TextureOut,
    PixelsOut,
    Syphon,
    Spout,
    Recorder,
    Ndi,
    Rtsp,
}

pub open spec fn kind_class(kind: NodeKind) -> NodeClass {
    match kind {
        NodeKind::ShaderSource | NodeKind::NoiseSource | NodeKind::PreviousFrame
        | NodeKind::TextureInputPass | NodeKind::VideoDecodeSource => NodeClass::Source,
        NodeKind::ShaderPass | NodeKind::ColorCorrect | NodeKind::Blur | NodeKind::Keyer
        | NodeKind::Feedback => NodeClass::Processor,
        NodeKind::Crossfade | NodeKind::Add | NodeKind::Multiply | NodeKind::KeyMix
        | NodeKind::MatrixMix4 => NodeClass::Mixer,
        _ => NodeClass::Output,
    }
}

impl NodeKind {
    pub fn class(&self) -> (r: NodeClass)
        ensures
            r == kind_class(*self),
    {
        match self {
            NodeKind::ShaderSource | NodeKind::NoiseSource | NodeKind::PreviousFrame
            | NodeKind::TextureInputPass | NodeKind::VideoDecodeSource => NodeClass::Source,
            NodeKind::ShaderPass | NodeKind::ColorCorrect | NodeKind::Blur | NodeKind::Keyer
            | NodeKind::Feedback => NodeClass::Processor,
            NodeKind::Crossfade | NodeKind::Add | NodeKind::Multiply | NodeKind::KeyMix
            | NodeKind::MatrixMix4 => NodeClass::Mixer,
            NodeKind::Window | NodeKind::TextureOut | NodeKind::PixelsOut | NodeKind::Syphon
            | NodeKind::Spout | NodeKind::Recorder | NodeKind::Ndi | NodeKind::Rtsp => {
                NodeClass::Output
            },
        }
    }
}

/// The names and directions of the ports that a node of `kind` is created with, in order.
pub open spec fn port_layout(kind: NodeKind) -> Seq<(Seq<char>, PortDir)> {
    if kind == NodeKind::MatrixMix4 {
        seq![
            ("in0"@, PortDir::In),
            ("in1"@, PortDir::In),
            ("in2"@, PortDir::In),
            ("in3"@, PortDir::In),
            ("out"@, PortDir::Out),
        ]
    } else {
        match kind_class(kind) {
            NodeClass::Source => seq![("out"@, PortDir::Out)],
            NodeClass::Processor => seq![("in"@, PortDir::In), ("out"@, PortDir::Out)],
            NodeClass::Mixer => seq![("a"@, PortDir::In), ("b"@, PortDir::In), ("out"@, PortDir::Out)],
            NodeClass::Output => seq![("in"@, PortDir::In)],
        }
    }
}

#[derive(Debug, Clone)]
pub struct Port {
    pub id: PortId,
    pub name: &'static str,
    pub dir: PortDir,
}

#[derive(Debug, Clone)]
pub struct Node {
    pub id: NodeId,
    pub kind: NodeKind,
    pub ports: Vec<Port>,
}

/// The id of a node's first port; its other ports follow in order.
pub open spec fn port_base(n: Node) -> int {
    n.ports@[0].id.0 as int
}

/// `ports` carry the names and directions of `layout`, in order, numbered from `base`.
pub open spec fn ports_follow(ports: Seq<Port>, layout: Seq<(Seq<char>, PortDir)>, base: int) -> bool {
    &&& ports.len() == layout.len()
    &&& forall|k: int|
        0 <= k < ports.len() ==> {
            &&& (#[trigger] ports[k]).name@ == layout[k].0
            &&& ports[k].dir == layout[k].1
            &&& ports[k].id.0 == base + k
        }
}

/// The id of the first `In` port of `ports`, if any.
pub open spec fn first_in_port(ports: Seq<Port>) -> Option<PortId>
    decreases ports.len(),
{
    if ports.len() == 0 {
        None
    } else if ports[0].dir == PortDir::In {
        Some(ports[0].id)
    } else {
        first_in_port(ports.drop_first())
    }
}

/// The id of the first port of `ports` with the given name and direction, if any.
pub open spec fn first_port_named(ports: Seq<Port>, name: Seq<char>, dir: PortDir) -> Option<PortId>
    decreases ports.len(),
{
    if ports.len() == 0 {
        None
    } else if ports[0].dir == dir && ports[0].name@ == name {
        Some(ports[0].id)
    } else {
        first_port_named(ports.drop_first(), name, dir)
    }
}

/// Whether `edges` holds an edge that ends at `to`.
pub open spec fn driven_in(edges: Seq<Edge>, to: Endpoint) -> bool {
    exists|k: int| 0 <= k < edges.len() && (#[trigger] edges[k]).to == to
}

/// Mutable container of nodes and edges.
#[derive(Debug)]
pub struct Graph {
    next_node: u32,
    next_port: u32,
    nodes: Vec<Node>,
    edges: Vec<Edge>,
}

/// A compiled graph: node ids in ascending order and a snapshot of the edges.
#[derive(Debug, Clone)]
pub struct Plan {
    pub nodes: Vec<NodeId>,
    pub edges: Vec<Edge>,
}

impl Graph {
    /// The nodes, in creation order.
    pub closed spec fn spec_nodes(self) -> Seq<Node> {
        self.nodes@
    }

    /// The edges, in insertion order.
    pub closed spec fn spec_edges(self) -> Seq<Edge> {
        self.edges@
    }

    /// The id that the next port will get.
    pub closed spec fn spec_next_port(self) -> int {
        self.next_port as int
    }

    /// The number of nodes created so far.
    pub closed spec fn spec_next_node(self) -> int {
        self.next_node as int
    }

    /// The graph's invariant: node `i` has id `i` and carries its kind's port layout; port ids
    /// are numbered node after node, all below the next port id; every edge joins existing nodes.
    pub open spec fn wf(self) -> bool {
        &&& self.spec_next_node() == self.spec_nodes().len()
        &&& forall|i: int|
            0 <= i < self.spec_nodes().len() ==> {
                &&& (#[trigger] self.spec_nodes()[i]).id == NodeId(i as u32)
                &&& ports_follow(
                    self.spec_nodes()[i].ports@,
                    port_layout(self.spec_nodes()[i].kind),
                    port_base(self.spec_nodes()[i]),
                )
                &&& port_base(self.spec_nodes()[i]) + self.spec_nodes()[i].ports@.len() <= self.spec_next_port()
            }
        &&& forall|i: int, j: int|
            0 <= i < j < self.spec_nodes().len() ==> port_base(#[trigger] self.spec_nodes()[i])
                + self.spec_nodes()[i].ports@.len() <= port_base(#[trigger] self.spec_nodes()[j])
        &&& forall|k: int|
            0 <= k < self.spec_edges().len() ==> self.has_node((#[trigger] self.spec_edges()[k]).from.node)
                && self.has_node(self.spec_edges()[k].to.node)
    }

    pub open spec fn has_node(self, n: NodeId) -> bool {
        (n.0 as int) < self.spec_nodes().len()
    }

    pub open spec fn node_at(self, n: NodeId) -> Node {
        self.spec_nodes()[n.0 as int]
    }

    /// Node `n` exists and owns a port `p` with direction `dir`.
    pub open spec fn owns_port(self, n: NodeId, p: PortId, dir: PortDir) -> bool {
        &&& self.has_node(n)
        &&& exists|k: int|
            0 <= k < self.node_at(n).ports@.len() && (#[trigger] self.node_at(n).ports@[k]).id == p
                && self.node_at(n).ports@[k].dir == dir
    }

    pub open spec fn is_driven(self, to: Endpoint) -> bool {
        driven_in(self.spec_edges(), to)
    }

    /// The message of the first check that `connect(from, to)` fails, if any.
    pub open spec fn connect_error(self, from: Endpoint, to: Endpoint) -> Option<Seq<char>> {
        if from.dir != PortDir::Out {
            Some("connect: from endpoint must be Out"@)
        } else if to.dir != PortDir::In {
            Some("connect: to endpoint must be In"@)
        } else if !self.has_node(from.node) || !self.has_node(to.node) {
            Some("connect: node not found"@)
        } else if !self.owns_port(from.node, from.port, PortDir::Out) {
            Some("connect: from port not found on node"@)
        } else if !self.owns_port(to.node, to.port, PortDir::In) {
            Some("connect: to port not found on node"@)
        } else if self.is_driven(to) {
            Some("connect: input already connected"@)
        } else {
            None
        }
    }

    /// Node `i` is of the Output class and its input is not driven by any edge.
    pub open spec fn output_undriven(self, i: int) -> bool {
        let n = self.spec_nodes()[i];
        &&& kind_class(n.kind) == NodeClass::Output
        &&& first_in_port(n.ports@) is Some
        &&& !self.is_driven(
            Endpoint { node: n.id, port: first_in_port(n.ports@)->Some_0, dir: PortDir::In },
        )
    }

    pub open spec fn has_undriven_output(self) -> bool {
        exists|i: int| 0 <= i < self.spec_nodes().len() && #[trigger] self.output_undriven(i)
    }

    /// The node ids in creation order.
    pub open spec fn node_ids(self) -> Seq<NodeId> {
        self.spec_nodes().map_values(|n: Node| n.id)
    }

    /// `p` is the plan that compiling this graph yields.
    pub open spec fn plan_of(self, p: Plan) -> bool {
        &&& p.nodes@ == self.node_ids()
        &&& p.edges@ == self.spec_edges()
    }

    pub fn new() -> (g: Graph)
        ensures
            g.wf(),
            g.spec_nodes().len() == 0,
            g.spec_edges().len() == 0,
            g.spec_next_port() == 0,
    {
        Graph { next_node: 0, next_port: 0, nodes: Vec::new(), edges: Vec::new() }
    }

    /// The nodes, in creation (and id) order.
    pub fn nodes(&self) -> (r: &[Node])
        ensures
            r@ == self.spec_nodes(),
    {
        self.nodes.as_slice()
    }

    pub fn edges(&self) -> (r: &[Edge])
        ensures
            r@ == self.spec_edges(),
    {
        self.edges.as_slice()
    }

    pub fn node(&self, id: NodeId) -> (r: Option<&Node>)
        requires
            self.wf(),
        ensures
            self.has_node(id) ==> r == Some(&self.node_at(id)),
            !self.has_node(id) ==> r is None,
    {
        let i = id.0 as usize;
        if i < self.nodes.len() {
            Some(&self.nodes[i])
        } else {
            None
        }
    }

    fn new_port(&mut self, name: &'static str, dir: PortDir) -> (p: Port)
        requires
            old(self).next_port < u32::MAX,
        ensures
            p.id == PortId(old(self).next_port),
            p.name@ == name@,
            p.dir == dir,
            final(self).next_port == old(self).next_port + 1,
            final(self).next_node == old(self).next_node,
            final(self).nodes@ == old(self).nodes@,
            final(self).edges@ == old(self).edges@,
    {
        let id = PortId(self.next_port);
        self.next_port = self.next_port + 1;
        Port { id, name, dir }
    }

    /// Adds a node of `kind` with the port set of its class and returns its id.
    pub fn add_node(&mut self, kind: NodeKind) -> (id: NodeId)
        requires
            old(self).wf(),
            old(self).spec_nodes().len() < u32::MAX,
            old(self).spec_next_port() + 5 <= u32::MAX,
        ensures
            final(self).wf(),
            id == NodeId(old(self).spec_nodes().len() as u32),
            final(self).spec_nodes().len() == old(self).spec_nodes().len() + 1,
            forall|i: int|
                0 <= i < old(self).spec_nodes().len() ==> final(self).spec_nodes()[i]
                    == old(self).spec_nodes()[i],
            final(self).node_at(id).id == id,
            final(self).node_at(id).kind == kind,
            ports_follow(
                final(self).node_at(id).ports@,
                port_layout(kind),
                old(self).spec_next_port(),
            ),
            final(self).spec_next_port() == old(self).spec_next_port() + port_layout(
                kind,
            ).len(),
            final(self).spec_edges() == old(self).spec_edges(),
    {
        let id = NodeId(self.next_node);
        let base = Ghost(self.next_port as int);
        let mut ports: Vec<Port> = Vec::new();
        if kind == NodeKind::MatrixMix4 {
            ports.push(self.new_port("in0", PortDir::In));
            ports.push(self.new_port("in1", PortDir::In));
            ports.push(self.new_port("in2", PortDir::In));
            ports.push(self.new_port("in3", PortDir::In));
            ports.push(self.new_port("out", PortDir::Out));
        } else {
            match kind.class() {
                NodeClass::Source => {
                    ports.push(self.new_port("out", PortDir::Out));
                },
                NodeClass::Processor => {
                    ports.push(self.new_port("in", PortDir::In));
                    ports.push(self.new_port("out", PortDir::Out));
                },
                NodeClass::Mixer => {
                    ports.push(self.new_port("a", PortDir::In));
                    ports.push(self.new_port("b", PortDir::In));
                    ports.push(self.new_port("out", PortDir::Out));
                },
                NodeClass::Output => {
                    ports.push(self.new_port("in", PortDir::In));
                },
            }
        }
        assert(ports_follow(ports@, port_layout(kind), base@));
        let ghost old_nodes = self.nodes@;
        self.nodes.push(Node { id, kind, ports });
        proof {
            assert(self.nodes@[old_nodes.len() as int].ports@[0].id.0 == base@);
            assert forall|i: int| 0 <= i < old_nodes.len() implies #[trigger] self.nodes@[i] == old_nodes[i] by {}
        }
        self.next_node = self.next_node + 1;
        id
    }

    /// The first port of `node` with this name and direction.
    pub fn find_port(&self, node: NodeId, name: &str, dir: PortDir) -> (r: Option<PortId>)
        requires
            self.wf(),
        ensures
            self.has_node(node) ==> r == first_port_named(self.node_at(node).ports@, name@, dir),
            !self.has_node(node) ==> r is None,
    {
        match self.node(node) {
            None => None,
            Some(n) => {
                let mut k: usize = 0;
                assert(n.ports@.subrange(0, n.ports@.len() as int) =~= n.ports@);
                while k < n.ports.len()
                    invariant
                        0 <= k <= n.ports@.len(),
                        self.has_node(node),
                        *n == self.node_at(node),
                        first_port_named(n.ports@, name@, dir) == first_port_named(
                            n.ports@.subrange(k as int, n.ports@.len() as int),
                            name@,
                            dir,
                        ),
                    decreases n.ports@.len() - k,
                {
                    let p = &n.ports[k];
                    proof {
                        let rest = n.ports@.subrange(k as int, n.ports@.len() as int);
                        assert(rest.drop_first() =~= n.ports@.subrange(
                            k + 1,
                            n.ports@.len() as int,
                        ));
                    }
                    if p.dir == dir && text_eq(p.name, name) {
                        return Some(p.id);
                    }
                    k = k + 1;
                }
                None
            },
        }
    }

    /// Whether node `n` owns a port with id `p` and direction `dir`.
    fn owns_port_exec(&self, n: NodeId, p: PortId, dir: PortDir) -> (r: bool)
        requires
            self.wf(),
        ensures
            r == self.owns_port(n, p, dir),
    {
        match self.node(n) {
            None => false,
            Some(node) => {
                let mut k: usize = 0;
                while k < node.ports.len()
                    invariant
                        0 <= k <= node.ports@.len(),
                        self.has_node(n),
                        *node == self.node_at(n),
                        forall|j: int|
                            0 <= j < k ==> !((#[trigger] node.ports@[j]).id == p
                                && node.ports@[j].dir == dir),
                    decreases node.ports@.len() - k,
                {
                    if node.ports[k].id == p && node.ports[k].dir == dir {
                        return true;
                    }
                    k = k + 1;
                }
                false
            },
        }
    }

    /// Whether some edge already ends at `to`.
    fn is_driven_exec(&self, to: Endpoint) -> (r: bool)
        ensures
            r == self.is_driven(to),
    {
        let mut k: usize = 0;
        while k < self.edges.len()
            invariant
                0 <= k <= self.edges@.len(),
                forall|j: int| 0 <= j < k ==> (#[trigger] self.edges@[j]).to != to,
            decreases self.edges@.len() - k,
        {
            if self.edges[k].to == to {
                return true;
            }
            k = k + 1;
        }
        false
    }

    /// Connects `from` (an `Out` endpoint) to `to` (an `In` endpoint).
    pub fn connect(&mut self, from: Endpoint, to: Endpoint) -> (r: Result<(), EngineError>)
        requires
            old(self).wf(),
        ensures
            final(self).wf(),
            final(self).spec_nodes() == old(self).spec_nodes(),
            final(self).spec_next_port() == old(self).spec_next_port(),
            match old(self).connect_error(from, to) {
                Some(msg) => failed_with(r, msg) && final(self).spec_edges() == old(
                    self,
                ).spec_edges(),
                None => r is Ok && final(self).spec_edges() == old(self).spec_edges().push(
                    Edge { from, to },
                ),
            },
            old(self).is_driven(to) ==> r is Err && final(self).spec_edges() == old(
                self,
            ).spec_edges(),
    {
        if from.dir != PortDir::Out {
            return Err(EngineError::other("connect: from endpoint must be Out"));
        }
        if to.dir != PortDir::In {
            return Err(EngineError::other("connect: to endpoint must be In"));
        }
        if (from.node.0 as usize) >= self.nodes.len() || (to.node.0 as usize) >= self.nodes.len() {
            return Err(EngineError::other("connect: node not found"));
        }
        if !self.owns_port_exec(from.node, from.port, PortDir::Out) {
            return Err(EngineError::other("connect: from port not found on node"));
        }
        if !self.owns_port_exec(to.node, to.port, PortDir::In) {
            return Err(EngineError::other("connect: to port not found on node"));
        }
        if self.is_driven_exec(to) {
            return Err(EngineError::other("connect: input already connected"));
        }
        self.edges.push(Edge { from, to });
        Ok(())
    }
}

impl Graph {
    /// The port that `connect_named` picks on node `n`: the first with this name and direction.
    pub open spec fn named_port(self, n: NodeId, name: Seq<char>, dir: PortDir) -> Option<PortId> {
        if self.has_node(n) {
            first_port_named(self.node_at(n).ports@, name, dir)
        } else {
            None
        }
    }

    /// Connects two ports given by node and name: an `Out` port of `from_node` to an `In` port
    /// of `to_node`.
    pub fn connect_named(&mut self, from_node: NodeId, from_port: &str, to_node: NodeId, to_port: &str) -> (r: Result<(), EngineError>)
        requires
            old(self).wf(),
        ensures
            final(self).wf(),
            final(self).spec_nodes() == old(self).spec_nodes(),
            final(self).spec_next_port() == old(self).spec_next_port(),
            ({
                let fp = old(self).named_port(from_node, from_port@, PortDir::Out);
                let tp = old(self).named_port(to_node, to_port@, PortDir::In);
                if fp is None {
                    failed_with(r, "connect_named: from port not found"@)
                        && final(self).spec_edges() == old(self).spec_edges()
                } else if tp is None {
                    failed_with(r, "connect_named: to port not found"@)
                        && final(self).spec_edges() == old(self).spec_edges()
                } else {
                    let from = Endpoint { node: from_node, port: fp->Some_0, dir: PortDir::Out };
                    let to = Endpoint { node: to_node, port: tp->Some_0, dir: PortDir::In };
                    match old(self).connect_error(from, to) {
                        Some(msg) => failed_with(r, msg) && final(self).spec_edges() == old(
                            self,
                        ).spec_edges(),
                        None => r is Ok && final(self).spec_edges() == old(
                            self,
                        ).spec_edges().push(Edge { from, to }),
                    }
                }
            }),
    {
        let from_pid = match self.find_port(from_node, from_port, PortDir::Out) {
            Some(p) => p,
            None => {
                return Err(EngineError::other("connect_named: from port not found"));
            },
        };
        let to_pid = match self.find_port(to_node, to_port, PortDir::In) {
            Some(p) => p,
            None => {
                return Err(EngineError::other("connect_named: to port not found"));
            },
        };
        self.connect(
            Endpoint { node: from_node, port: from_pid, dir: PortDir::Out },
            Endpoint { node: to_node, port: to_pid, dir: PortDir::In },
        )
    }

    /// Validates that every Output-class node has its input driven, then returns the node
    /// ids in ascending order together with a snapshot of the edges.
    pub fn compile(&self) -> (r: Result<Plan, EngineError>)
        requires
            self.wf(),
        ensures
            r is Ok <==> !self.has_undriven_output(),
            r is Ok ==> self.plan_of(r->Ok_0),
            r is Err ==> failed_with(r, "compile: output input not connected"@),
    {
        let mut i: usize = 0;
        while i < self.nodes.len()
            invariant
                0 <= i <= self.nodes@.len(),
                forall|j: int| 0 <= j < i ==> !#[trigger] self.output_undriven(j),
            decreases self.nodes@.len() - i,
        {
            let n = &self.nodes[i];
            if n.kind.class() == NodeClass::Output {
                let in_port = first_in_port_exec(&n.ports);
                if let Some(pid) = in_port {
                    let to = Endpoint { node: n.id, port: pid, dir: PortDir::In };
                    if !self.is_driven_exec(to) {
                        assert(self.output_undriven(i as int));
                        return Err(EngineError::other("compile: output input not connected"));
                    }
                }
            }
            i = i + 1;
        }
        let mut nodes: Vec<NodeId> = Vec::new();
        let mut k: usize = 0;
        while k < self.nodes.len()
            invariant
                0 <= k <= self.nodes@.len(),
                nodes@ =~= self.nodes@.subrange(0, k as int).map_values(|n: Node| n.id),
            decreases self.nodes@.len() - k,
        {
            nodes.push(self.nodes[k].id);
            k = k + 1;
        }
        assert(self.nodes@.subrange(0, self.nodes@.len() as int) =~= self.nodes@);
        assert(nodes@ =~= self.node_ids());
        let mut edges: Vec<Edge> = Vec::new();
        let mut e: usize = 0;
        while e < self.edges.len()
            invariant
                0 <= e <= self.edges@.len(),
                edges@ =~= self.edges@.subrange(0, e as int),
            decreases self.edges@.len() - e,
        {
            edges.push(self.edges[e]);
            e = e + 1;
        }
        assert(edges@ =~= self.edges@);
        Ok(Plan { nodes, edges })
    }
}

/// The id of the first `In` port of `ports`.
fn first_in_port_exec(ports: &Vec<Port>) -> (r: Option<PortId>)
    ensures
        r == first_in_port(ports@),
{
    let mut k: usize = 0;
    assert(ports@.subrange(0, ports@.len() as int) =~= ports@);
    while k < ports.len()
        invariant
            0 <= k <= ports@.len(),
            first_in_port(ports@) == first_in_port(ports@.subrange(k as int, ports@.len() as int)),
        decreases ports@.len() - k,
    {
        proof {
            let rest = ports@.subrange(k as int, ports@.len() as int);
            assert(rest.drop_first() =~= ports@.subrange(k + 1, ports@.len() as int));
        }
        if ports[k].dir == PortDir::In {
            return Some(ports[k].id);
        }
        k = k + 1;
    }
    None
}

/// Compiling the same graph twice yields the same node order and the same number of edges.
pub proof fn lemma_compile_deterministic(g: Graph, first: Plan, second: Plan)
    requires
        g.wf(),
        g.plan_of(first),
        g.plan_of(second),
    ensures
        first.nodes@ == second.nodes@,
        first.edges@.len() == second.edges@.len(),
{
}

/// Port ids are unique across the graph.
pub proof fn lemma_port_ids_distinct(g: Graph, i: int, a: int, j: int, b: int)
    requires
        g.wf(),
        0 <= i < g.spec_nodes().len(),
        0 <= j < g.spec_nodes().len(),
        0 <= a < g.spec_nodes()[i].ports@.len(),
        0 <= b < g.spec_nodes()[j].ports@.len(),
        i != j || a != b,
    ensures
        g.spec_nodes()[i].ports@[a].id != g.spec_nodes()[j].ports@[b].id,
{
    let ni = g.spec_nodes()[i];
    let nj = g.spec_nodes()[j];
    assert(ni.ports@[a].id.0 == port_base(ni) + a);
    assert(nj.ports@[b].id.0 == port_base(nj) + b);
    if i < j {
        assert(port_base(ni) + ni.ports@.len() <= port_base(nj));
    } else if j < i {
        assert(port_base(nj) + nj.ports@.len() <= port_base(ni));
    }
}

/// A compiled plan lists the node ids in strictly ascending order.
pub proof fn lemma_plan_ascending(g: Graph, p: Plan)
    requires
        g.wf(),
        g.plan_of(p),
    ensures
        forall|i: int, j: int| 0 <= i < j < p.nodes@.len() ==> p.nodes@[i].0 < p.nodes@[j].0,
{
    assert forall|i: int, j: int| 0 <= i < j < p.nodes@.len() implies p.nodes@[i].0 < p.nodes@[j].0 by {
        assert(g.spec_nodes()[i].id == NodeId(i as u32));
        assert(g.spec_nodes()[j].id == NodeId(j as u32));
    }
}

} // verus!
