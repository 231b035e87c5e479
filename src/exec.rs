use vstd::prelude::*;
use vstd::string::StringExecFns;

use crate::contract::{bad_at, lemma_bad_has_first, lemma_named_entries_distinct, channel_for_name, entries_view, input_channel_for, names_outcome, plan_output_names};
use crate::engine::{
    builtin_mixer_frag, clamp_size, entry_for, find_entry, key_of, mixer_frag, mixer_op_name,
    mixer_op_name_text, renders, DrawCall, ExecOutput, FrameCtx, FrameWork, GpuCommand, ImageRef,
    InputBinding, NodeProps, ProgramId, ProgramKey, RenderTarget, RuntimeState, ShaderSource,
    FULLSCREEN_VERT, lemma_cache_functional, lemma_room_monotone,
};
use crate::error::{failed_with, EngineError};
use crate::graph::{Edge, Graph, NodeClass, NodeId, NodeKind, Plan, Port, PortDir, PortId};
use crate::runtime::{spec_standard_op, standard_op_for, StandardOp};
use crate::text::text_eq;

verus! {

/// The first edge in `edges` that drives an input of node `n`.
pub open spec fn first_incoming(edges: Seq<Edge>, n: NodeId) -> Option<Edge>
    decreases edges.len(),
{
    if edges.len() == 0 {
        None
    } else if edges[0].to.node == n && edges[0].to.dir == PortDir::In {
        Some(edges[0])
    } else {
        first_incoming(edges.drop_first(), n)
    }
}

fn first_incoming_exec(edges: &[Edge], n: NodeId) -> (r: Option<Edge>)
    ensures
        r == first_incoming(edges@, n),
{
    let mut k: usize = 0;
    assert(edges@.subrange(0, edges@.len() as int) =~= edges@);
    while k < edges.len()
        invariant
            0 <= k <= edges@.len(),
            first_incoming(edges@, n) == first_incoming(edges@.subrange(k as int, edges@.len() as int), n),
        decreases edges@.len() - k,
    {
        proof {
            let rest = edges@.subrange(k as int, edges@.len() as int);
            assert(rest.drop_first() =~= edges@.subrange(k + 1, edges@.len() as int));
        }
        if edges[k].to.node == n && edges[k].to.dir == PortDir::In {
            return Some(edges[k]);
        }
        k = k + 1;
    }
    None
}

/// Who drives the input of `node` in a plan: the source node of its first incoming edge.
pub fn find_single_input(plan: &Plan, node: NodeId) -> (r: Option<NodeId>)
    ensures
        r == match first_incoming(plan.edges@, node) {
            Some(e) => Some(e.from.node),
            None => None,
        },
{
    match first_incoming_exec(plan.edges.as_slice(), node) {
        Some(e) => Some(e.from.node),
        None => None,
    }
}

/// The first node of `nodes` that is a `PixelsOut` node of `g`.
pub open spec fn first_pixels_out(g: Graph, nodes: Seq<NodeId>) -> Option<NodeId>
    decreases nodes.len(),
{
    if nodes.len() == 0 {
        None
    } else if g.has_node(nodes[0]) && g.node_at(nodes[0]).kind == NodeKind::PixelsOut {
        Some(nodes[0])
    } else {
        first_pixels_out(g, nodes.drop_first())
    }
}

fn first_pixels_out_exec(g: &Graph, nodes: &Vec<NodeId>) -> (r: Option<NodeId>)
    requires
        g.wf(),
    ensures
        r == first_pixels_out(*g, nodes@),
{
    let mut k: usize = 0;
    assert(nodes@.subrange(0, nodes@.len() as int) =~= nodes@);
    while k < nodes.len()
        invariant
            0 <= k <= nodes@.len(),
            g.wf(),
            first_pixels_out(*g, nodes@) == first_pixels_out(*g, nodes@.subrange(k as int, nodes@.len() as int)),
        decreases nodes@.len() - k,
    {
        proof {
            let rest = nodes@.subrange(k as int, nodes@.len() as int);
            assert(rest.drop_first() =~= nodes@.subrange(k + 1, nodes@.len() as int));
        }
        match g.node(nodes[k]) {
            Some(n) => {
                if n.kind == NodeKind::PixelsOut {
                    return Some(nodes[k]);
                }
            },
            None => {},
        }
        k = k + 1;
    }
    None
}

pub open spec fn missing_shader_message() -> Seq<char> {
    "execute_plan: missing shader source (provide NodeProps for pass node, or connect ShaderSource -> ShaderPass)"@
}

/// The shader of render-pass node `n`: the parameter store's override first, else the
/// built-in operation of its kind, else the text of a `ShaderSource` node feeding its first
/// input.
pub open spec fn shader_for(g: Graph, props: NodeProps, n: NodeId) -> Result<
    (Seq<char>, Seq<char>, Option<Seq<char>>),
    Seq<char>,
> {
    match entry_for(props.shader_sources@, n) {
        Some(s) => Ok(s@),
        None => if !g.has_node(n) {
            Err("execute_plan: resolve_shader missing node"@)
        } else {
            match spec_standard_op(g.node_at(n).kind) {
                Some(StandardOp::Mixer(op)) => Ok(
                    (FULLSCREEN_VERT@, mixer_frag(op), Some("builtin:"@ + mixer_op_name(op))),
                ),
                None => match first_incoming(g.spec_edges(), n) {
                    Some(e) => if !g.has_node(e.from.node) {
                        Err("execute_plan: edge references missing node"@)
                    } else if g.node_at(e.from.node).kind == NodeKind::ShaderSource {
                        match entry_for(props.shader_sources@, e.from.node) {
                            Some(s) => Ok(s@),
                            None => Err("execute_plan: missing ShaderSource in NodeProps"@),
                        }
                    } else {
                        Err(missing_shader_message())
                    },
                    None => Err(missing_shader_message()),
                },
            }
        },
    }
}

/// Resolves the shader of a render-pass node.
pub fn resolve_shader(g: &Graph, props: &NodeProps, n: NodeId) -> (r: Result<ShaderSource, EngineError>)
    requires
        g.wf(),
    ensures
        match shader_for(*g, *props, n) {
            Ok(s) => r is Ok && r->Ok_0@ == s,
            Err(m) => failed_with(r, m),
        },
{
    if let Some(s) = find_entry(&props.shader_sources, n) {
        return Ok(s.duplicate());
    }
    let pass = match g.node(n) {
        Some(p) => p,
        None => {
            return Err(EngineError::other("execute_plan: resolve_shader missing node"));
        },
    };
    if let Some(StandardOp::Mixer(op)) = standard_op_for(pass.kind) {
        let mut origin = String::from_str("builtin:");
        origin.append(mixer_op_name_text(op));
        return Ok(
            ShaderSource {
                vert: String::from_str(FULLSCREEN_VERT),
                frag: String::from_str(builtin_mixer_frag(op)),
                origin: Some(origin),
            },
        );
    }
    if let Some(e) = first_incoming_exec(g.edges(), n) {
        let from = match g.node(e.from.node) {
            Some(f) => f,
            None => {
                return Err(EngineError::other("execute_plan: edge references missing node"));
            },
        };
        if from.kind == NodeKind::ShaderSource {
            return match find_entry(&props.shader_sources, e.from.node) {
                Some(s) => Ok(s.duplicate()),
                None => Err(EngineError::other("execute_plan: missing ShaderSource in NodeProps")),
            };
        }
    }
    Err(
        EngineError::other(
            "execute_plan: missing shader source (provide NodeProps for pass node, or connect ShaderSource -> ShaderPass)",
        ),
    )
}

/// The name of the first `In` port of `ports` with id `p`.
pub open spec fn in_port_name(ports: Seq<Port>, p: PortId) -> Option<Seq<char>>
    decreases ports.len(),
{
    if ports.len() == 0 {
        None
    } else if ports[0].id == p && ports[0].dir == PortDir::In {
        Some(ports[0].name@)
    } else {
        in_port_name(ports.drop_first(), p)
    }
}

/// The channel that port `p` of node `n` binds its image to.
pub open spec fn port_channel(g: Graph, n: NodeId, p: PortId) -> Option<u32> {
    if !g.has_node(n) {
        None
    } else {
        match in_port_name(g.node_at(n).ports@, p) {
            Some(name) => channel_for_name(name),
            None => None,
        }
    }
}

fn port_channel_exec(g: &Graph, n: NodeId, p: PortId) -> (r: Option<u32>)
    requires
        g.wf(),
    ensures
        r == port_channel(*g, n, p),
{
    let node = match g.node(n) {
        Some(x) => x,
        None => {
            return None;
        },
    };
    let mut k: usize = 0;
    assert(node.ports@.subrange(0, node.ports@.len() as int) =~= node.ports@);
    while k < node.ports.len()
        invariant
            0 <= k <= node.ports@.len(),
            g.has_node(n),
            *node == g.node_at(n),
            in_port_name(node.ports@, p) == in_port_name(node.ports@.subrange(k as int, node.ports@.len() as int), p),
        decreases node.ports@.len() - k,
    {
        proof {
            let rest = node.ports@.subrange(k as int, node.ports@.len() as int);
            assert(rest.drop_first() =~= node.ports@.subrange(k + 1, node.ports@.len() as int));
        }
        if node.ports[k].id == p && node.ports[k].dir == PortDir::In {
            return input_channel_for(node.kind, node.ports[k].name);
        }
        k = k + 1;
    }
    None
}

/// The current target of every node in `st`.
pub open spec fn currents(st: RuntimeState) -> spec_fn(NodeId) -> Option<RenderTarget> {
    |u: NodeId| st.current(u)
}

/// What edge `e` contributes to the inputs of node `n`: nothing, a binding, or an error.
/// A render-pass upstream gives its current image (for a node feeding itself, the image it drew
/// the frame before); a host-image source gives the image that the parameter store holds.
pub open spec fn edge_binding(g: Graph, props: NodeProps, cur: spec_fn(NodeId) -> Option<RenderTarget>, n: NodeId, e: Edge) -> Result<
    Option<InputBinding>,
    Seq<char>,
> {
    if !(e.to.node == n && e.to.dir == PortDir::In) {
        Ok(None)
    } else {
        match port_channel(g, n, e.to.port) {
            None => Ok(None),
            Some(ch) => if !g.has_node(e.from.node) {
                Err("execute_plan: edge references missing node"@)
            } else if renders(g.node_at(e.from.node).kind) {
                match cur(e.from.node) {
                    Some(t) => Ok(Some(InputBinding { channel: ch, image: ImageRef::Target(t.id) })),
                    None => Ok(None),
                }
            } else if g.node_at(e.from.node).kind == NodeKind::TextureInputPass {
                match entry_for(props.texture_inputs@, e.from.node) {
                    Some(h) => Ok(Some(InputBinding { channel: ch, image: ImageRef::Host(h) })),
                    None => Err("TextureInputPass missing source texture"@),
                }
            } else if g.node_at(e.from.node).kind == NodeKind::VideoDecodeSource {
                match entry_for(props.stream_images@, e.from.node) {
                    Some(h) => Ok(Some(InputBinding { channel: ch, image: ImageRef::Host(h.image) })),
                    None => Err("VideoDecodeSource missing decoded texture"@),
                }
            } else {
                Ok(None)
            },
        }
    }
}

/// The bindings of node `n` from `edges`, in edge order, or the first error.
pub open spec fn edge_bindings(g: Graph, props: NodeProps, cur: spec_fn(NodeId) -> Option<RenderTarget>, n: NodeId, edges: Seq<Edge>) -> Result<
    Seq<InputBinding>,
    Seq<char>,
>
    decreases edges.len(),
{
    if edges.len() == 0 {
        Ok(seq![])
    } else {
        match edge_bindings(g, props, cur, n, edges.drop_last()) {
            Err(m) => Err(m),
            Ok(prev) => match edge_binding(g, props, cur, n, edges.last()) {
                Err(m) => Err(m),
                Ok(None) => Ok(prev),
                Ok(Some(b)) => Ok(prev.push(b)),
            },
        }
    }
}

proof fn lemma_edge_bindings_err(g: Graph, props: NodeProps, cur: spec_fn(NodeId) -> Option<RenderTarget>, n: NodeId, edges: Seq<Edge>, k: int)
    requires
        0 <= k <= edges.len(),
        edge_bindings(g, props, cur, n, edges.subrange(0, k)) is Err,
    ensures
        edge_bindings(g, props, cur, n, edges) == edge_bindings(g, props, cur, n, edges.subrange(0, k)),
    decreases edges.len() - k,
{
    if k < edges.len() {
        assert(edges.subrange(0, k + 1).drop_last() =~= edges.subrange(0, k));
        lemma_edge_bindings_err(g, props, cur, n, edges, k + 1);
    } else {
        assert(edges.subrange(0, k) =~= edges);
    }
}

/// The error that edge `e` raises when node `n` collects its inputs, if any; it does not depend
/// on the runtime state.
pub open spec fn edge_error(g: Graph, props: NodeProps, n: NodeId, e: Edge) -> Option<Seq<char>> {
    if !(e.to.node == n && e.to.dir == PortDir::In) {
        None
    } else if port_channel(g, n, e.to.port) is None {
        None
    } else if !g.has_node(e.from.node) {
        Some("execute_plan: edge references missing node"@)
    } else if renders(g.node_at(e.from.node).kind) {
        None
    } else if g.node_at(e.from.node).kind == NodeKind::TextureInputPass {
        if entry_for(props.texture_inputs@, e.from.node) is None {
            Some("TextureInputPass missing source texture"@)
        } else {
            None
        }
    } else if g.node_at(e.from.node).kind == NodeKind::VideoDecodeSource {
        if entry_for(props.stream_images@, e.from.node) is None {
            Some("VideoDecodeSource missing decoded texture"@)
        } else {
            None
        }
    } else {
        None
    }
}

/// The first error among `edges` when node `n` collects its inputs.
pub open spec fn bindings_error(g: Graph, props: NodeProps, n: NodeId, edges: Seq<Edge>) -> Option<Seq<char>>
    decreases edges.len(),
{
    if edges.len() == 0 {
        None
    } else {
        match bindings_error(g, props, n, edges.drop_last()) {
            Some(m) => Some(m),
            None => edge_error(g, props, n, edges.last()),
        }
    }
}

proof fn lemma_bindings_error(g: Graph, props: NodeProps, cur: spec_fn(NodeId) -> Option<RenderTarget>, n: NodeId, edges: Seq<Edge>)
    ensures
        match bindings_error(g, props, n, edges) {
            Some(m) => edge_bindings(g, props, cur, n, edges) == Err::<Seq<InputBinding>, Seq<char>>(m),
            None => edge_bindings(g, props, cur, n, edges) is Ok,
        },
    decreases edges.len(),
{
    if edges.len() > 0 {
        lemma_bindings_error(g, props, cur, n, edges.drop_last());
    }
}

/// Collects the input bindings of node `n` from the graph's edges, in edge order.
pub fn collect_inputs(g: &Graph, props: &NodeProps, st: &RuntimeState, n: NodeId) -> (r: Result<Vec<InputBinding>, EngineError>)
    requires
        g.wf(),
        st.wf(),
    ensures
        match edge_bindings(*g, *props, currents(*st), n, g.spec_edges()) {
            Ok(v) => r is Ok && r->Ok_0@ == v,
            Err(m) => failed_with(r, m),
        },
        r is Ok ==> forall|i: int| 0 <= i < r->Ok_0@.len() ==> (#[trigger] r->Ok_0@[i]).channel < 4,
{
    let edges = g.edges();
    let ghost es = edges@;
    let mut out: Vec<InputBinding> = Vec::new();
    let mut k: usize = 0;
    assert(es.subrange(0, 0) =~= Seq::<Edge>::empty());
    while k < edges.len()
        invariant
            0 <= k <= es.len(),
            es == edges@,
            es == g.spec_edges(),
            g.wf(),
            st.wf(),
            edge_bindings(*g, *props, currents(*st), n, es.subrange(0, k as int)) == Ok::<Seq<InputBinding>, Seq<char>>(out@),
            forall|i: int| 0 <= i < out@.len() ==> (#[trigger] out@[i]).channel < 4,
        decreases es.len() - k,
    {
        assert(es.subrange(0, k + 1).drop_last() =~= es.subrange(0, k as int));
        assert(es.subrange(0, k + 1).last() == es[k as int]);
        let e = edges[k];
        if e.to.node == n && e.to.dir == PortDir::In {
            if let Some(ch) = port_channel_exec(g, n, e.to.port) {
                let from = match g.node(e.from.node) {
                    Some(f) => f,
                    None => {
                        proof {
                            lemma_edge_bindings_err(*g, *props, currents(*st), n, es, k + 1);
                            assert(es.subrange(0, es.len() as int) =~= es);
                        }
                        return Err(EngineError::other("execute_plan: edge references missing node"));
                    },
                };
                let kind = from.kind;
                let c = kind.class();
                if c == NodeClass::Processor || c == NodeClass::Mixer {
                    if let Some(t) = st.current_target(e.from.node) {
                        out.push(InputBinding { channel: ch, image: ImageRef::Target(t.id) });
                    }
                } else if kind == NodeKind::TextureInputPass {
                    match find_entry(&props.texture_inputs, e.from.node) {
                        Some(h) => {
                            out.push(InputBinding { channel: ch, image: ImageRef::Host(*h) });
                        },
                        None => {
                            proof {
                                lemma_edge_bindings_err(*g, *props, currents(*st), n, es, k + 1);
                                assert(es.subrange(0, es.len() as int) =~= es);
                            }
                            return Err(EngineError::other("TextureInputPass missing source texture"));
                        },
                    }
                } else if kind == NodeKind::VideoDecodeSource {
                    match find_entry(&props.stream_images, e.from.node) {
                        Some(h) => {
                            out.push(InputBinding { channel: ch, image: ImageRef::Host(h.image) });
                        },
                        None => {
                            proof {
                                lemma_edge_bindings_err(*g, *props, currents(*st), n, es, k + 1);
                                assert(es.subrange(0, es.len() as int) =~= es);
                            }
                            return Err(EngineError::other("VideoDecodeSource missing decoded texture"));
                        },
                    }
                }
            }
        }
        k = k + 1;
    }
    assert(es.subrange(0, es.len() as int) =~= es);
    Ok(out)
}

/// The bindings of `raw` on channel `c`, in order.
pub open spec fn on_channel(raw: Seq<InputBinding>, c: u32) -> Seq<InputBinding>
    decreases raw.len(),
{
    if raw.len() == 0 {
        seq![]
    } else if raw.last().channel == c {
        on_channel(raw.drop_last(), c).push(raw.last())
    } else {
        on_channel(raw.drop_last(), c)
    }
}

/// The bindings of `raw` on channels below `c`, grouped by ascending channel.
pub open spec fn channels_below(raw: Seq<InputBinding>, c: nat) -> Seq<InputBinding>
    decreases c,
{
    if c == 0 {
        seq![]
    } else {
        channels_below(raw, (c - 1) as nat) + on_channel(raw, (c - 1) as u32)
    }
}

/// The bindings of `raw` ordered by ascending channel; ties keep their order.
pub open spec fn channel_order(raw: Seq<InputBinding>) -> Seq<InputBinding> {
    channels_below(raw, 4)
}

pub open spec fn ascending(b: Seq<InputBinding>) -> bool {
    forall|i: int, j: int| 0 <= i < j < b.len() ==> b[i].channel <= b[j].channel
}

/// Orders bindings by ascending channel, keeping the order of equal channels.
pub fn order_by_channel(raw: &Vec<InputBinding>) -> (r: Vec<InputBinding>)
    ensures
        r@ == channel_order(raw@),
        ascending(r@),
{
    let mut out: Vec<InputBinding> = Vec::new();
    let mut c: u32 = 0;
    while c < 4
        invariant
            0 <= c <= 4,
            out@ == channels_below(raw@, c as nat),
            ascending(out@),
            forall|i: int| 0 <= i < out@.len() ==> (#[trigger] out@[i]).channel < c,
        decreases 4 - c,
    {
        let ghost base = out@;
        let mut k: usize = 0;
        assert(raw@.subrange(0, 0) =~= Seq::<InputBinding>::empty());
        assert(base + on_channel(raw@.subrange(0, 0), c) =~= base);
        while k < raw.len()
            invariant
                0 <= k <= raw@.len(),
                c < 4,
                base == channels_below(raw@, c as nat),
                forall|i: int| 0 <= i < base.len() ==> (#[trigger] base[i]).channel < c,
                out@ == base + on_channel(raw@.subrange(0, k as int), c),
                ascending(out@),
                forall|i: int| 0 <= i < out@.len() ==> (#[trigger] out@[i]).channel <= c,
            decreases raw@.len() - k,
        {
            assert(raw@.subrange(0, k + 1).drop_last() =~= raw@.subrange(0, k as int));
            if raw[k].channel == c {
                out.push(raw[k]);
                assert(out@ =~= base + on_channel(raw@.subrange(0, k + 1), c));
            } else {
                assert(out@ =~= base + on_channel(raw@.subrange(0, k + 1), c));
            }
            k = k + 1;
        }
        assert(raw@.subrange(0, raw@.len() as int) =~= raw@);
        proof {
            assert(channels_below(raw@, (c + 1) as nat) == base + on_channel(raw@, c));
            assert forall|i: int| 0 <= i < out@.len() implies (#[trigger] out@[i]).channel < c + 1 by {}
        }
        c = c + 1;
    }
    out
}

pub open spec fn output_of(t: RenderTarget) -> ExecOutput {
    ExecOutput { image: ImageRef::Target(t.id), target: t.id, width: t.w, height: t.h }
}

/// The output that node `o` shows: the current image of the render pass feeding its input.
pub open spec fn output_resolution(g: Graph, st: RuntimeState, o: NodeId) -> Result<ExecOutput, Seq<char>> {
    match first_incoming(g.spec_edges(), o) {
        None => Err("execute_plan: PixelsOut has no input edge"@),
        Some(e) => if !g.has_node(e.from.node) {
            Err("execute_plan: output edge references missing node"@)
        } else if !renders(g.node_at(e.from.node).kind) {
            Err("execute_plan: PixelsOut input must come from a render pass"@)
        } else {
            match st.current(e.from.node) {
                None => Err("execute_plan: missing output texture for final pass"@),
                Some(t) => Ok(output_of(t)),
            }
        },
    }
}

/// Resolves the output shown by node `o` from the targets of the state.
pub fn resolve_output(g: &Graph, st: &RuntimeState, o: NodeId) -> (r: Result<ExecOutput, EngineError>)
    requires
        g.wf(),
        st.wf(),
    ensures
        match output_resolution(*g, *st, o) {
            Ok(x) => r == Ok::<ExecOutput, EngineError>(x),
            Err(m) => failed_with(r, m),
        },
{
    let e = match first_incoming_exec(g.edges(), o) {
        Some(e) => e,
        None => {
            return Err(EngineError::other("execute_plan: PixelsOut has no input edge"));
        },
    };
    let from = match g.node(e.from.node) {
        Some(f) => f,
        None => {
            return Err(EngineError::other("execute_plan: output edge references missing node"));
        },
    };
    let c = from.kind.class();
    if !(c == NodeClass::Processor || c == NodeClass::Mixer) {
        return Err(EngineError::other("execute_plan: PixelsOut input must come from a render pass"));
    }
    match st.current_target(e.from.node) {
        None => Err(EngineError::other("execute_plan: missing output texture for final pass")),
        Some(t) => Ok(ExecOutput { image: ImageRef::Target(t.id), target: t.id, width: t.w, height: t.h }),
    }
}

/// The error that visiting node `n` raises in a frame, if any: a missing node, a host-image
/// source without its image, or a render pass whose inputs or shader do not resolve.
pub open spec fn node_error(g: Graph, props: NodeProps, n: NodeId) -> Option<Seq<char>> {
    if !g.has_node(n) {
        Some("execute_plan: plan references missing node"@)
    } else if g.node_at(n).kind == NodeKind::TextureInputPass {
        if entry_for(props.texture_inputs@, n) is None {
            Some("execute_plan: TextureInputPass missing host texture"@)
        } else {
            None
        }
    } else if g.node_at(n).kind == NodeKind::VideoDecodeSource {
        if entry_for(props.stream_images@, n) is None {
            Some("execute_plan: VideoDecodeSource missing stream image"@)
        } else {
            None
        }
    } else if renders(g.node_at(n).kind) {
        match bindings_error(g, props, n, g.spec_edges()) {
            Some(m) => Some(m),
            None => match shader_for(g, props, n) {
                Err(m) => Some(m),
                Ok(_) => None,
            },
        }
    } else {
        None
    }
}

/// The first error of a frame's walk over `nodes`, in plan order.
pub open spec fn frame_error(g: Graph, props: NodeProps, nodes: Seq<NodeId>) -> Option<Seq<char>>
    decreases nodes.len(),
{
    if nodes.len() == 0 {
        None
    } else {
        match frame_error(g, props, nodes.drop_last()) {
            Some(m) => Some(m),
            None => node_error(g, props, nodes.last()),
        }
    }
}

proof fn lemma_frame_error_prefix(g: Graph, props: NodeProps, nodes: Seq<NodeId>, k: int)
    requires
        0 <= k <= nodes.len(),
        frame_error(g, props, nodes.subrange(0, k)) is Some,
    ensures
        frame_error(g, props, nodes) == frame_error(g, props, nodes.subrange(0, k)),
    decreases nodes.len() - k,
{
    if k < nodes.len() {
        assert(nodes.subrange(0, k + 1).drop_last() =~= nodes.subrange(0, k));
        lemma_frame_error_prefix(g, props, nodes, k + 1);
    } else {
        assert(nodes.subrange(0, k) =~= nodes);
    }
}

/// What a draw of a frame promises: ascending channels, the frame's size, the program that
/// the cache holds for the key of the node's shader.
pub open spec fn draw_ok(d: DrawCall, g: Graph, props: NodeProps, st: RuntimeState, frame: FrameCtx) -> bool {
    &&& ascending(d.inputs@)
    &&& d.width == clamp_size(frame.width)
    &&& d.height == clamp_size(frame.height)
    &&& st.cached(d.key, d.program)
    &&& shader_for(g, props, d.node) is Ok
    &&& d.key == key_of(shader_for(g, props, d.node)->Ok_0.0, shader_for(g, props, d.node)->Ok_0.1)
}

pub open spec fn draws_ok(cmds: Seq<GpuCommand>, g: Graph, props: NodeProps, st: RuntimeState, frame: FrameCtx) -> bool {
    forall|i: int| 0 <= i < cmds.len() && (#[trigger] cmds[i]) is Draw ==> draw_ok(cmds[i]->Draw_0, g, props, st, frame)
}

/// Node `u` is among the first `j` nodes of `nodes`.
pub open spec fn visited(nodes: Seq<NodeId>, j: int, u: NodeId) -> bool {
    exists|t: int| 0 <= t < j && nodes[t] == u
}

/// No node occurs twice.
pub open spec fn distinct_nodes(nodes: Seq<NodeId>) -> bool {
    forall|a: int, b: int| 0 <= a < b < nodes.len() ==> nodes[a] != nodes[b]
}

/// The targets that `nodes[j]` reads when it collects its inputs in a frame that turns `before`
/// into `after`: for itself, the target it drew into the frame before; for a node visited
/// earlier in the frame, that node's image of this frame; for any other node, its target from
/// before the frame.
pub open spec fn frame_view(nodes: Seq<NodeId>, j: int, before: RuntimeState, after: RuntimeState) -> spec_fn(NodeId) -> Option<RenderTarget> {
    |u: NodeId|
        if u == nodes[j] {
            after.previous(u)
        } else if visited(nodes, j, u) {
            after.current(u)
        } else {
            before.current(u)
        }
}

/// Each draw binds, in channel order, what the incoming edges of its node give in the frame's
/// view of the targets.
pub open spec fn inputs_as_bound(cmds: Seq<GpuCommand>, g: Graph, props: NodeProps, nodes: Seq<NodeId>, before: RuntimeState, after: RuntimeState) -> bool {
    forall|k: int|
        0 <= k < cmds.len() && (#[trigger] cmds[k]) is Draw ==> exists|j: int|
            0 <= j < nodes.len() && nodes[j] == cmds[k]->Draw_0.node && edge_bindings(
                g,
                props,
                frame_view(nodes, j, before, after),
                cmds[k]->Draw_0.node,
                g.spec_edges(),
            ) is Ok && cmds[k]->Draw_0.inputs@ == channel_order(
                edge_bindings(g, props, frame_view(nodes, j, before, after), cmds[k]->Draw_0.node, g.spec_edges())->Ok_0,
            )
}

/// A compiled plan names each node once.
pub proof fn lemma_plan_distinct(g: Graph, p: Plan)
    requires
        g.wf(),
        g.plan_of(p),
    ensures
        distinct_nodes(p.nodes@),
{
    crate::graph::lemma_plan_ascending(g, p);
}

/// Each compile command of a frame is for a key that the cache did not hold when the frame
/// began, that it holds afterwards, and that no other compile command of the frame repeats.
pub open spec fn compiles_once(cmds: Seq<GpuCommand>, before: RuntimeState, after: RuntimeState) -> bool {
    &&& forall|i: int|
        0 <= i < cmds.len() && (#[trigger] cmds[i]) is CompileProgram ==> {
            &&& forall|p: ProgramId| !before.cached(cmds[i]->CompileProgram_key, p)
            &&& after.cached(cmds[i]->CompileProgram_key, cmds[i]->CompileProgram_program)
        }
    &&& forall|i: int, j: int|
        0 <= i < j < cmds.len() && (#[trigger] cmds[i]) is CompileProgram && (#[trigger] cmds[j]) is CompileProgram
            ==> cmds[i]->CompileProgram_key != cmds[j]->CompileProgram_key
}

/// The commands hold a draw of node `n` into the target that is its current one in `st`.
pub open spec fn drawn(cmds: Seq<GpuCommand>, st: RuntimeState, n: NodeId) -> bool {
    exists|k: int|
        0 <= k < cmds.len() && (#[trigger] cmds[k]) is Draw && cmds[k]->Draw_0.node == n
            && st.current(n) is Some && cmds[k]->Draw_0.target == st.current(n)->Some_0.id
}

/// Node `n` holds a current target of the frame's size.
pub open spec fn sized_for(st: RuntimeState, n: NodeId, frame: FrameCtx) -> bool {
    &&& st.current(n) is Some
    &&& st.current(n)->Some_0.w == clamp_size(frame.width)
    &&& st.current(n)->Some_0.h == clamp_size(frame.height)
}

/// Runs one frame: walks the plan in order, draws every render pass into its ping-pong pair,
/// and resolves the first `PixelsOut` node's image. The GPU work is returned as commands.
#[verifier::rlimit(100)]
pub fn execute_plan(
    graph: &Graph,
    plan: &Plan,
    state: &mut RuntimeState,
    props: &NodeProps,
    frame: FrameCtx,
) -> (r: Result<FrameWork, EngineError>)
    requires
        graph.wf(),
        old(state).wf(),
    ensures
        final(state).wf(),
        old(state).cache_grows(*final(state)),
        first_pixels_out(*graph, plan.nodes@) is None ==> failed_with(r, "execute_plan: missing PixelsOut node in plan"@),
        r is Ok || (first_pixels_out(*graph, plan.nodes@) is Some && old(state).has_room(plan.nodes@.len() as int)
            && frame_error(*graph, *props, plan.nodes@) is None) ==> forall|j: int|
            0 <= j < plan.nodes@.len() && graph.has_node(#[trigger] plan.nodes@[j]) && renders(graph.node_at(plan.nodes@[j]).kind)
                ==> sized_for(*final(state), plan.nodes@[j], frame),
        first_pixels_out(*graph, plan.nodes@) is Some && old(state).has_room(plan.nodes@.len() as int) ==> match frame_error(*graph, *props, plan.nodes@) {
            Some(m) => failed_with(r, m),
            None => match output_resolution(*graph, *final(state), first_pixels_out(*graph, plan.nodes@)->Some_0) {
                Ok(x) => r is Ok && r->Ok_0.output == x,
                Err(m) => failed_with(r, m),
            },
        },
        r is Ok ==> {
            &&& first_pixels_out(*graph, plan.nodes@) is Some
            &&& output_resolution(*graph, *final(state), first_pixels_out(*graph, plan.nodes@)->Some_0) == Ok::<ExecOutput, Seq<char>>(r->Ok_0.output)
            &&& draws_ok(r->Ok_0.commands@, *graph, *props, *final(state), frame)
            &&& compiles_once(r->Ok_0.commands@, *old(state), *final(state))
            &&& (distinct_nodes(plan.nodes@) ==> inputs_as_bound(r->Ok_0.commands@, *graph, *props, plan.nodes@, *old(state), *final(state)))
            &&& (distinct_nodes(plan.nodes@) ==> forall|j: int| 0 <= j < plan.nodes@.len() && graph.has_node(#[trigger] plan.nodes@[j])
                && renders(graph.node_at(plan.nodes@[j]).kind) && old(state).current(plan.nodes@[j]) is Some
                ==> final(state).previous(plan.nodes@[j]) is Some
                    && final(state).previous(plan.nodes@[j])->Some_0.id == old(state).current(plan.nodes@[j])->Some_0.id)
            &&& forall|j: int| 0 <= j < plan.nodes@.len() && graph.has_node(#[trigger] plan.nodes@[j]) && renders(graph.node_at(plan.nodes@[j]).kind) ==> drawn(r->Ok_0.commands@, *final(state), plan.nodes@[j])
        },
{
    let out_node = match first_pixels_out_exec(graph, &plan.nodes) {
        Some(o) => o,
        None => {
            return Err(EngineError::other("execute_plan: missing PixelsOut node in plan"));
        },
    };
    let mut cmds: Vec<GpuCommand> = Vec::new();
    let mut i: usize = 0;
    while i < plan.nodes.len()
        invariant
            0 <= i <= plan.nodes@.len(),
            graph.wf(),
            state.wf(),
            old(state).cache_grows(*state),
            first_pixels_out(*graph, plan.nodes@) == Some(out_node),
            frame_error(*graph, *props, plan.nodes@.subrange(0, i as int)) is None,
            old(state).has_room(plan.nodes@.len() as int) ==> state.has_room(plan.nodes@.len() - i),
            draws_ok(cmds@, *graph, *props, *state, frame),
            compiles_once(cmds@, *old(state), *state),
            forall|u: NodeId| !(visited(plan.nodes@, i as int, u) && graph.has_node(u) && renders(graph.node_at(u).kind))
                ==> #[trigger] state.current(u) == old(state).current(u) && state.previous(u) == old(state).previous(u),
            distinct_nodes(plan.nodes@) ==> inputs_as_bound(cmds@, *graph, *props, plan.nodes@, *old(state), *state),
            forall|k: int| 0 <= k < cmds@.len() && (#[trigger] cmds@[k]) is Draw ==> visited(plan.nodes@, i as int, cmds@[k]->Draw_0.node),
            distinct_nodes(plan.nodes@) ==> forall|j: int| 0 <= j < i && graph.has_node(#[trigger] plan.nodes@[j])
                && renders(graph.node_at(plan.nodes@[j]).kind) && old(state).current(plan.nodes@[j]) is Some
                ==> state.previous(plan.nodes@[j]) is Some
                    && state.previous(plan.nodes@[j])->Some_0.id == old(state).current(plan.nodes@[j])->Some_0.id,
            forall|j: int| 0 <= j < i && graph.has_node(#[trigger] plan.nodes@[j]) && renders(graph.node_at(plan.nodes@[j]).kind) ==> sized_for(*state, plan.nodes@[j], frame),
            forall|j: int| 0 <= j < i && graph.has_node(#[trigger] plan.nodes@[j]) && renders(graph.node_at(plan.nodes@[j]).kind) ==> drawn(cmds@, *state, plan.nodes@[j]),
        decreases plan.nodes@.len() - i,
    {
        let nid = plan.nodes[i];
        proof {
            assert(plan.nodes@.subrange(0, i + 1).drop_last() =~= plan.nodes@.subrange(0, i as int));
            assert(plan.nodes@.subrange(0, i + 1).last() == nid);
        }
        let node = match graph.node(nid) {
            Some(n) => n,
            None => {
                proof {
                    lemma_frame_error_prefix(*graph, *props, plan.nodes@, i + 1);
                }
                return Err(EngineError::other("execute_plan: plan references missing node"));
            },
        };
        let kind = node.kind;
        if kind == NodeKind::TextureInputPass {
            if find_entry(&props.texture_inputs, nid).is_none() {
                proof {
                    lemma_frame_error_prefix(*graph, *props, plan.nodes@, i + 1);
                }
                return Err(EngineError::other("execute_plan: TextureInputPass missing host texture"));
            }
        } else if kind == NodeKind::VideoDecodeSource {
            if find_entry(&props.stream_images, nid).is_none() {
                proof {
                    lemma_frame_error_prefix(*graph, *props, plan.nodes@, i + 1);
                }
                return Err(EngineError::other("execute_plan: VideoDecodeSource missing stream image"));
            }
        } else {
            let c = kind.class();
            if c == NodeClass::Processor || c == NodeClass::Mixer {
                let ghost st0 = *state;
                let ghost cmds0 = cmds@;
                let ghost rem = plan.nodes@.len() - i;
                proof {
                    if old(state).has_room(plan.nodes@.len() as int) {
                        lemma_room_monotone(*state, 1, rem);
                    }
                }
                if let Err(e) = state.ensure_targets(nid, frame.width, frame.height, &mut cmds) {
                    return Err(e);
                }
                proof {
                    assert forall|k: int| 0 <= k < cmds@.len() && (#[trigger] cmds@[k]) is Draw implies draw_ok(cmds@[k]->Draw_0, *graph, *props, *state, frame) by {
                        assert(cmds@[k] == cmds0[k]);
                    }
                    assert forall|k: int| 0 <= k < cmds@.len() && (#[trigger] cmds@[k]) is CompileProgram implies cmds@[k] == cmds0[k] && k < cmds0.len() by {}
                    assert forall|k: ProgramKey, q: ProgramId| st0.cached(k, q) implies #[trigger] state.cached(k, q) by {}
                    if old(state).has_room(plan.nodes@.len() as int) {
                        assert(st0.target_room(rem));
                        assert(state.target_room(rem - 1));
                        assert(state.program_room(rem));
                    }
                }
                proof {
                    lemma_bindings_error(*graph, *props, currents(*state), nid, graph.spec_edges());
                }
                let raw = match collect_inputs(graph, props, state, nid) {
                    Ok(v) => v,
                    Err(e) => {
                        proof {
                            lemma_frame_error_prefix(*graph, *props, plan.nodes@, i + 1);
                        }
                        return Err(e);
                    },
                };
                let inputs = order_by_channel(&raw);
                let shader = match resolve_shader(graph, props, nid) {
                    Ok(s) => s,
                    Err(e) => {
                        proof {
                            lemma_frame_error_prefix(*graph, *props, plan.nodes@, i + 1);
                        }
                        return Err(e);
                    },
                };
                let ghost st1 = *state;
                let ghost cmds1 = cmds@;
                proof {
                    if old(state).has_room(plan.nodes@.len() as int) {
                        lemma_room_monotone(*state, 1, rem);
                    }
                }
                let (program, key) = match state.program_for(&shader, &mut cmds) {
                    Ok(pk) => pk,
                    Err(e) => {
                        return Err(e);
                    },
                };
                proof {
                    assert forall|k: int| 0 <= k < cmds@.len() && (#[trigger] cmds@[k]) is Draw implies draw_ok(cmds@[k]->Draw_0, *graph, *props, *state, frame) by {
                        assert(cmds@[k] == cmds1[k]);
                        let d = cmds@[k]->Draw_0;
                        assert(st1.cached(d.key, d.program));
                    }
                    assert forall|k: int| 0 <= k < cmds@.len() && (#[trigger] cmds@[k]) is CompileProgram implies {
                        &&& forall|q: ProgramId| !old(state).cached(cmds@[k]->CompileProgram_key, q)
                        &&& state.cached(cmds@[k]->CompileProgram_key, cmds@[k]->CompileProgram_program)
                    } by {
                        if k < cmds1.len() {
                            assert(cmds@[k] == cmds1[k]);
                            assert(st1.cached(cmds1[k]->CompileProgram_key, cmds1[k]->CompileProgram_program));
                        } else {
                            assert forall|q: ProgramId| !old(state).cached(cmds@[k]->CompileProgram_key, q) by {
                                if old(state).cached(cmds@[k]->CompileProgram_key, q) {
                                    assert(st1.cached(cmds@[k]->CompileProgram_key, q));
                                }
                            }
                        }
                    }
                    assert forall|a: int, b: int| 0 <= a < b < cmds@.len() && (#[trigger] cmds@[a]) is CompileProgram && (#[trigger] cmds@[b]) is CompileProgram implies cmds@[a]->CompileProgram_key != cmds@[b]->CompileProgram_key by {
                        if b < cmds1.len() {
                            assert(cmds@[a] == cmds1[a]);
                            assert(cmds@[b] == cmds1[b]);
                        } else if a < cmds1.len() {
                            assert(cmds@[a] == cmds1[a]);
                            assert(st1.cached(cmds1[a]->CompileProgram_key, cmds1[a]->CompileProgram_program));
                            assert(cmds@[b]->CompileProgram_key == key);
                            assert(!st1.cached(key, cmds1[a]->CompileProgram_program));
                        }
                    }
                    if old(state).has_room(plan.nodes@.len() as int) {
                        assert(st1.program_room(rem));
                        assert(state.program_room(rem - 1));
                        assert(state.target_room(rem - 1));
                    }
                }
                let ghost st2 = *state;
                state.bind_program(nid, key, program);
                let ghost st3 = *state;
                let tgt = state.begin_render(nid);
                proof {
                    if old(state).has_room(plan.nodes@.len() as int) {
                        assert(st2.program_room(rem - 1));
                        assert(st2.target_room(rem - 1));
                        assert(st3.program_room(rem - 1));
                        assert(st3.target_room(rem - 1));
                        assert(state.program_room(rem - 1));
                        assert(state.target_room(rem - 1));
                    }
                }
                let draw = DrawCall {
                    node: nid,
                    kind,
                    program,
                    key,
                    target: tgt.id,
                    width: tgt.w,
                    height: tgt.h,
                    inputs,
                };
                let ghost cmds2 = cmds@;
                cmds.push(GpuCommand::Draw(draw));
                proof {
                    if distinct_nodes(plan.nodes@) {
                        let nodes = plan.nodes@;
                        assert forall|j: int| 0 <= j < i + 1 && graph.has_node(#[trigger] nodes[j])
                            && renders(graph.node_at(nodes[j]).kind) && old(state).current(nodes[j]) is Some
                            implies state.previous(nodes[j]) is Some
                                && state.previous(nodes[j])->Some_0.id == old(state).current(nodes[j])->Some_0.id by {
                            if j < i {
                                assert(nodes[j] != nodes[i as int]);
                                assert(st1.current(nodes[j]) == st0.current(nodes[j]));
                                assert(st1.previous(nodes[j]) == st0.previous(nodes[j]));
                                assert(st2.current(nodes[j]) == st1.current(nodes[j]));
                                assert(st2.previous(nodes[j]) == st1.previous(nodes[j]));
                                assert(st3.current(nodes[j]) == st2.current(nodes[j]));
                                assert(st3.previous(nodes[j]) == st2.previous(nodes[j]));
                                assert(state.current(nodes[j]) == st3.current(nodes[j]));
                                assert(state.previous(nodes[j]) == st3.previous(nodes[j]));
                            } else {
                                assert(!visited(nodes, i as int, nid)) by {
                                    if visited(nodes, i as int, nid) {
                                        let t = choose|t: int| 0 <= t < i && nodes[t] == nid;
                                        assert(nodes[t] != nodes[i as int]);
                                    }
                                }
                                assert(st0.current(nid) == old(state).current(nid));
                                assert(st2.current(nid) == st1.current(nid));
                                assert(st3.current(nid) == st2.current(nid));
                            }
                        }
                        let fv = frame_view(nodes, i as int, *old(state), *state);
                        assert(st1.current(nid) == st2.current(nid));
                        assert(st2.current(nid) == st3.current(nid));
                        assert(currents(st1) =~= fv) by {
                            assert forall|u: NodeId| #[trigger] currents(st1)(u) == fv(u) by {
                                if u == nid {
                                } else {
                                    assert(st2.current(u) == st1.current(u));
                                    assert(st3.current(u) == st2.current(u));
                                    assert(state.current(u) == st3.current(u));
                                    if !visited(nodes, i as int, u) {
                                        assert(st0.current(u) == old(state).current(u));
                                        assert(st1.current(u) == st0.current(u));
                                    }
                                }
                            }
                        }
                        assert forall|k: int| 0 <= k < cmds@.len() && (#[trigger] cmds@[k]) is Draw implies exists|j: int|
                            0 <= j < nodes.len() && nodes[j] == cmds@[k]->Draw_0.node && edge_bindings(
                                *graph,
                                *props,
                                frame_view(nodes, j, *old(state), *state),
                                cmds@[k]->Draw_0.node,
                                graph.spec_edges(),
                            ) is Ok && cmds@[k]->Draw_0.inputs@ == channel_order(
                                edge_bindings(*graph, *props, frame_view(nodes, j, *old(state), *state), cmds@[k]->Draw_0.node, graph.spec_edges())->Ok_0,
                            ) by {
                            if k < cmds2.len() {
                                assert(cmds@[k] == cmds2[k]);
                                let d = cmds2[k]->Draw_0;
                                assert(cmds2[k] == cmds1[k] && cmds1[k] == cmds0[k]);
                                let j = choose|j: int|
                                    0 <= j < nodes.len() && nodes[j] == d.node && edge_bindings(
                                        *graph,
                                        *props,
                                        frame_view(nodes, j, *old(state), st0),
                                        d.node,
                                        graph.spec_edges(),
                                    ) is Ok && d.inputs@ == channel_order(
                                        edge_bindings(*graph, *props, frame_view(nodes, j, *old(state), st0), d.node, graph.spec_edges())->Ok_0,
                                    );
                                assert(visited(nodes, i as int, d.node));
                                let t0 = choose|t: int| 0 <= t < i && nodes[t] == d.node;
                                assert(j == t0) by {
                                    if j != t0 {
                                        if j < t0 {
                                            assert(nodes[j] != nodes[t0]);
                                        } else {
                                            assert(nodes[t0] != nodes[j]);
                                        }
                                    }
                                }
                                assert(nodes[j] != nid) by {
                                    assert(nodes[j] != nodes[i as int]);
                                }
                                assert(frame_view(nodes, j, *old(state), st0) =~= frame_view(nodes, j, *old(state), *state)) by {
                                    assert forall|u: NodeId| #[trigger] frame_view(nodes, j, *old(state), st0)(u) == frame_view(nodes, j, *old(state), *state)(u) by {
                                        if u == nodes[j] {
                                            assert(u != nid);
                                            assert(st1.previous(u) == st0.previous(u));
                                            assert(st2.previous(u) == st1.previous(u));
                                            assert(st3.previous(u) == st2.previous(u));
                                            assert(state.previous(u) == st3.previous(u));
                                        } else if visited(nodes, j, u) {
                                            let t = choose|t: int| 0 <= t < j && nodes[t] == u;
                                            assert(nodes[t] != nodes[i as int]);
                                            assert(st1.current(u) == st0.current(u));
                                            assert(st2.current(u) == st1.current(u));
                                            assert(st3.current(u) == st2.current(u));
                                            assert(state.current(u) == st3.current(u));
                                        }
                                    }
                                }
                            } else {
                                assert(cmds@[k]->Draw_0.node == nid);
                                assert(nodes[i as int] == nid);
                            }
                        }
                    }
                    assert forall|k: int| 0 <= k < cmds@.len() && (#[trigger] cmds@[k]) is Draw implies draw_ok(cmds@[k]->Draw_0, *graph, *props, *state, frame) by {
                        let d = cmds@[k]->Draw_0;
                        if k < cmds2.len() {
                            assert(cmds@[k] == cmds2[k]);
                            assert(st2.cached(d.key, d.program));
                            assert(st3.cached(d.key, d.program));
                        } else {
                            assert(st2.cached(key, program));
                            assert(st3.cached(key, program));
                        }
                    }
                    assert forall|k: int| 0 <= k < cmds@.len() && (#[trigger] cmds@[k]) is CompileProgram implies state.cached(cmds@[k]->CompileProgram_key, cmds@[k]->CompileProgram_program) by {
                        assert(k < cmds2.len());
                        assert(cmds@[k] == cmds2[k]);
                        assert(st2.cached(cmds2[k]->CompileProgram_key, cmds2[k]->CompileProgram_program));
                        assert(st3.cached(cmds2[k]->CompileProgram_key, cmds2[k]->CompileProgram_program));
                    }
                    assert forall|a: int, b: int| 0 <= a < b < cmds@.len() && (#[trigger] cmds@[a]) is CompileProgram && (#[trigger] cmds@[b]) is CompileProgram implies cmds@[a]->CompileProgram_key != cmds@[b]->CompileProgram_key by {
                        assert(cmds@[a] == cmds2[a]);
                        assert(cmds@[b] == cmds2[b]);
                    }
                    assert forall|k: ProgramKey, p: ProgramId| old(state).cached(k, p) implies #[trigger] state.cached(k, p) by {
                        assert(st0.cached(k, p));
                        assert(st1.cached(k, p));
                        assert(st2.cached(k, p));
                        assert(st3.cached(k, p));
                    }
                    assert forall|j: int| 0 <= j < i + 1 && graph.has_node(#[trigger] plan.nodes@[j]) && renders(graph.node_at(plan.nodes@[j]).kind) implies sized_for(*state, plan.nodes@[j], frame) by {
                        if plan.nodes@[j] != nid {
                            assert(sized_for(st0, plan.nodes@[j], frame));
                        }
                    }
                    assert forall|j: int| 0 <= j < i + 1 && graph.has_node(#[trigger] plan.nodes@[j]) && renders(graph.node_at(plan.nodes@[j]).kind) implies drawn(cmds@, *state, plan.nodes@[j]) by {
                        if plan.nodes@[j] == nid {
                            assert(cmds@[cmds2.len() as int] is Draw);
                        } else {
                            assert(drawn(cmds0, st0, plan.nodes@[j]));
                            let w = choose|w: int|
                                0 <= w < cmds0.len() && (#[trigger] cmds0[w]) is Draw && cmds0[w]->Draw_0.node == plan.nodes@[j]
                                    && st0.current(plan.nodes@[j]) is Some && cmds0[w]->Draw_0.target == st0.current(plan.nodes@[j])->Some_0.id;
                            assert(cmds1[w] == cmds0[w]);
                            assert(cmds2[w] == cmds1[w]);
                            assert(cmds@[w] == cmds2[w]);
                        }
                    }
                }
            }
        }
        proof {
            let rem = plan.nodes@.len() - i;
            if old(state).has_room(plan.nodes@.len() as int) && !renders(kind) {
                lemma_room_monotone(*state, rem - 1, rem);
            }
        }
        i = i + 1;
    }
    assert(plan.nodes@.subrange(0, plan.nodes@.len() as int) =~= plan.nodes@);
    let output = match resolve_output(graph, state, out_node) {
        Ok(o) => o,
        Err(e) => {
            return Err(e);
        },
    };
    Ok(FrameWork { output, commands: cmds })
}

/// The `PixelsOut` nodes of `nodes`, in order, with the explicit names the parameter store gives.
pub open spec fn output_entries(g: Graph, props: NodeProps, nodes: Seq<NodeId>) -> Seq<(NodeId, Option<Seq<char>>)>
    decreases nodes.len(),
{
    if nodes.len() == 0 {
        seq![]
    } else {
        let prev = output_entries(g, props, nodes.drop_last());
        let n = nodes.last();
        if g.has_node(n) && g.node_at(n).kind == NodeKind::PixelsOut {
            prev.push(
                (
                    n,
                    match entry_for(props.output_names@, n) {
                        Some(s) => Some(s@),
                        None => None,
                    },
                ),
            )
        } else {
            prev
        }
    }
}

proof fn lemma_entries_have_pixels_out(g: Graph, props: NodeProps, nodes: Seq<NodeId>)
    requires
        output_entries(g, props, nodes).len() > 0,
    ensures
        exists|j: int| 0 <= j < nodes.len() && g.has_node(#[trigger] nodes[j]) && g.node_at(nodes[j]).kind == NodeKind::PixelsOut,
    decreases nodes.len(),
{
    let n = nodes.last();
    if g.has_node(n) && g.node_at(n).kind == NodeKind::PixelsOut {
        assert(nodes[nodes.len() - 1] == n);
    } else {
        lemma_entries_have_pixels_out(g, props, nodes.drop_last());
        let j = choose|j: int| 0 <= j < nodes.drop_last().len() && g.has_node(#[trigger] nodes.drop_last()[j]) && g.node_at(nodes.drop_last()[j]).kind == NodeKind::PixelsOut;
        assert(nodes[j] == nodes.drop_last()[j]);
    }
}

proof fn lemma_first_pixels_out_found(g: Graph, nodes: Seq<NodeId>, j: int)
    requires
        0 <= j < nodes.len(),
        g.has_node(nodes[j]),
        g.node_at(nodes[j]).kind == NodeKind::PixelsOut,
    ensures
        first_pixels_out(g, nodes) is Some,
    decreases j,
{
    if j > 0 && !(g.has_node(nodes[0]) && g.node_at(nodes[0]).kind == NodeKind::PixelsOut) {
        assert(nodes.drop_first()[j - 1] == nodes[j]);
        lemma_first_pixels_out_found(g, nodes.drop_first(), j - 1);
    }
}

/// The output of the first entry named `name`.
pub open spec fn named_output(named: Seq<(Seq<char>, ExecOutput)>, name: Seq<char>) -> Option<ExecOutput>
    decreases named.len(),
{
    if named.len() == 0 {
        None
    } else if named[0].0 == name {
        Some(named[0].1)
    } else {
        named_output(named.drop_first(), name)
    }
}

/// The outputs of one frame: the primary one, and every output by name ("main" first).
#[derive(Debug, Clone)]
pub struct ExecOutputs {
    pub primary: ExecOutput,
    pub named: Vec<(String, ExecOutput)>,
}

impl ExecOutputs {
    pub open spec fn spec_named(self) -> Seq<(Seq<char>, ExecOutput)> {
        self.named@.map_values(|e: (String, ExecOutput)| (e.0@, e.1))
    }

    /// The output with this name (e.g. "main"); the first entry of that name.
    pub fn get(&self, name: &str) -> (r: Option<ExecOutput>)
        ensures
            r == named_output(self.spec_named(), name@),
    {
        let ghost all = self.spec_named();
        let mut k: usize = 0;
        assert(all.subrange(0, all.len() as int) =~= all);
        while k < self.named.len()
            invariant
                0 <= k <= self.named@.len(),
                all == self.spec_named(),
                named_output(all, name@) == named_output(all.subrange(k as int, all.len() as int), name@),
            decreases self.named@.len() - k,
        {
            proof {
                let rest = all.subrange(k as int, all.len() as int);
                assert(rest.drop_first() =~= all.subrange(k + 1, all.len() as int));
            }
            if text_eq(self.named[k].0.as_str(), name) {
                return Some(self.named[k].1);
            }
            k = k + 1;
        }
        None
    }

    /// The primary output (also available as "main").
    pub fn primary(&self) -> (r: &ExecOutput)
        ensures
            *r == self.primary,
    {
        &self.primary
    }

    /// The named outputs, "main" first.
    pub fn iter(&self) -> (r: &[(String, ExecOutput)])
        ensures
            r@ == self.named@,
    {
        self.named.as_slice()
    }
}

/// The GPU work of one frame and all of its outputs.
#[derive(Debug, Clone)]
pub struct FrameOutputs {
    pub commands: Vec<GpuCommand>,
    pub outputs: ExecOutputs,
}

/// Every named entry resolves, and `outs` holds the resolved outputs in the same order.
pub open spec fn resolves_to(g: Graph, st: RuntimeState, named: Seq<(Seq<char>, NodeId)>, outs: Seq<(Seq<char>, ExecOutput)>) -> bool {
    &&& outs.len() == named.len()
    &&& forall|i: int| 0 <= i < named.len() ==> {
        &&& (#[trigger] outs[i]).0 == named[i].0
        &&& output_resolution(g, st, named[i].1) == Ok::<ExecOutput, Seq<char>>(outs[i].1)
    }
}

/// Runs one frame and resolves every output: the single unnamed `PixelsOut` node is the primary
/// output "main", the others are exposed under their explicit names. The naming is checked
/// before any work is done; resolution reuses the frame's targets and renders nothing twice.
pub fn execute_plan_outputs(
    graph: &Graph,
    plan: &Plan,
    state: &mut RuntimeState,
    props: &NodeProps,
    frame: FrameCtx,
) -> (r: Result<FrameOutputs, EngineError>)
    requires
        graph.wf(),
        old(state).wf(),
    ensures
        final(state).wf(),
        old(state).cache_grows(*final(state)),
        match names_outcome(output_entries(*graph, *props, plan.nodes@)) {
            Err(m) => failed_with(r, m) && *final(state) == *old(state),
            Ok((p, named)) => {
                &&& r is Ok ==> {
                    &&& output_resolution(*graph, *final(state), p) == Ok::<ExecOutput, Seq<char>>(r->Ok_0.outputs.primary)
                    &&& r->Ok_0.outputs.spec_named()[0] == ("main"@, r->Ok_0.outputs.primary)
                    &&& forall|a: int, b: int| 0 <= a < b < r->Ok_0.outputs.spec_named().len() ==> (#[trigger] r->Ok_0.outputs.spec_named()[a]).0 != (#[trigger] r->Ok_0.outputs.spec_named()[b]).0
                    &&& resolves_to(*graph, *final(state), named, r->Ok_0.outputs.spec_named().drop_first())
                    &&& draws_ok(r->Ok_0.commands@, *graph, *props, *final(state), frame)
                    &&& compiles_once(r->Ok_0.commands@, *old(state), *final(state))
                    &&& (distinct_nodes(plan.nodes@) ==> inputs_as_bound(r->Ok_0.commands@, *graph, *props, plan.nodes@, *old(state), *final(state)))
                    &&& forall|j: int| 0 <= j < plan.nodes@.len() && graph.has_node(#[trigger] plan.nodes@[j]) && renders(graph.node_at(plan.nodes@[j]).kind)
                        ==> sized_for(*final(state), plan.nodes@[j], frame) && drawn(r->Ok_0.commands@, *final(state), plan.nodes@[j])
                }
                &&& first_pixels_out(*graph, plan.nodes@) is Some
                &&& ({
                    &&& old(state).has_room(plan.nodes@.len() as int)
                    &&& frame_error(*graph, *props, plan.nodes@) is None
                    &&& output_resolution(*graph, *final(state), first_pixels_out(*graph, plan.nodes@)->Some_0) is Ok
                    &&& output_resolution(*graph, *final(state), p) is Ok
                    &&& forall|i: int| 0 <= i < named.len() ==> (#[trigger] output_resolution(*graph, *final(state), named[i].1)) is Ok
                } ==> r is Ok)
            },
        },
{
    let mut entries: Vec<(NodeId, Option<&str>)> = Vec::new();
    let mut i: usize = 0;
    assert(plan.nodes@.subrange(0, 0) =~= Seq::<NodeId>::empty());
    assert(entries_view(entries@) =~= Seq::<(NodeId, Option<Seq<char>>)>::empty());
    while i < plan.nodes.len()
        invariant
            0 <= i <= plan.nodes@.len(),
            graph.wf(),
            entries_view(entries@) == output_entries(*graph, *props, plan.nodes@.subrange(0, i as int)),
            *state == *old(state),
        decreases plan.nodes@.len() - i,
    {
        assert(plan.nodes@.subrange(0, i + 1).drop_last() =~= plan.nodes@.subrange(0, i as int));
        let nid = plan.nodes[i];
        if let Some(node) = graph.node(nid) {
            if node.kind == NodeKind::PixelsOut {
                let name: Option<&str> = match find_entry(&props.output_names, nid) {
                    Some(s) => Some(s.as_str()),
                    None => None,
                };
                entries.push((nid, name));
                assert(entries_view(entries@) =~= output_entries(*graph, *props, plan.nodes@.subrange(0, i + 1)));
            }
        }
        i = i + 1;
    }
    assert(plan.nodes@.subrange(0, plan.nodes@.len() as int) =~= plan.nodes@);
    let names = match plan_output_names(entries.as_slice()) {
        Ok(n) => n,
        Err(m) => {
            return Err(EngineError::Other(m));
        },
    };
    proof {
        let vs = output_entries(*graph, *props, plan.nodes@);
        lemma_entries_have_pixels_out(*graph, *props, plan.nodes@);
        let j = choose|j: int| 0 <= j < plan.nodes@.len() && graph.has_node(#[trigger] plan.nodes@[j]) && graph.node_at(plan.nodes@[j]).kind == NodeKind::PixelsOut;
        lemma_first_pixels_out_found(*graph, plan.nodes@, j);
    }
    let work = match execute_plan(graph, plan, state, props, frame) {
        Ok(w) => w,
        Err(e) => {
            return Err(e);
        },
    };
    let primary = match resolve_output(graph, state, names.primary) {
        Ok(o) => o,
        Err(e) => {
            return Err(e);
        },
    };
    let mut named: Vec<(String, ExecOutput)> = Vec::new();
    named.push((String::from_str("main"), primary));
    let ghost want = names.spec_named();
    let mut k: usize = 0;
    assert(named@.map_values(|e: (String, ExecOutput)| (e.0@, e.1)).drop_first() =~= Seq::<(Seq<char>, ExecOutput)>::empty());
    while k < names.named.len()
        invariant
            0 <= k <= names.named@.len(),
            want == names.spec_named(),
            graph.wf(),
            state.wf(),
            old(state).cache_grows(*state),
            names_outcome(output_entries(*graph, *props, plan.nodes@)) == Ok::<(NodeId, Seq<(Seq<char>, NodeId)>), Seq<char>>((names.primary, want)),
            first_pixels_out(*graph, plan.nodes@) is Some,
            distinct_nodes(plan.nodes@) ==> inputs_as_bound(work.commands@, *graph, *props, plan.nodes@, *old(state), *state),
            named@.len() == k + 1,
            named@.map_values(|e: (String, ExecOutput)| (e.0@, e.1))[0] == ("main"@, primary),
            resolves_to(*graph, *state, want.subrange(0, k as int), named@.map_values(|e: (String, ExecOutput)| (e.0@, e.1)).drop_first()),
        decreases names.named@.len() - k,
    {
        let out = match resolve_output(graph, state, names.named[k].1) {
            Ok(o) => o,
            Err(e) => {
                proof {
                    assert(want.len() == names.named@.len());
                    assert(want[k as int].1 == names.named@[k as int].1);
                    assert(output_resolution(*graph, *state, want[k as int].1) is Err);
                    let nm = names_outcome(output_entries(*graph, *props, plan.nodes@))->Ok_0.1;
                    assert(nm == want);
                    assert(output_resolution(*graph, *state, nm[k as int].1) is Err);
                    assert(!(forall|t: int| 0 <= t < nm.len() ==> (#[trigger] output_resolution(*graph, *state, nm[t].1)) is Ok));
                }
                return Err(e);
            },
        };
        let ghost before = named@.map_values(|e: (String, ExecOutput)| (e.0@, e.1));
        named.push((names.named[k].0.clone(), out));
        proof {
            let now = named@.map_values(|e: (String, ExecOutput)| (e.0@, e.1));
            assert(now.drop_first() =~= before.drop_first().push((want[k as int].0, out)));
            assert forall|t: int| 0 <= t < k + 1 implies {
                &&& (#[trigger] now.drop_first()[t]).0 == want.subrange(0, k + 1)[t].0
                &&& output_resolution(*graph, *state, want.subrange(0, k + 1)[t].1) == Ok::<ExecOutput, Seq<char>>(now.drop_first()[t].1)
            } by {
                if t < k {
                    assert(now.drop_first()[t] == before.drop_first()[t]);
                    assert(want.subrange(0, k + 1)[t] == want.subrange(0, k as int)[t]);
                }
            }
        }
        k = k + 1;
    }
    assert(want.subrange(0, want.len() as int) =~= want);
    proof {
        let vs = output_entries(*graph, *props, plan.nodes@);
        assert forall|j: int| 0 <= j < vs.len() implies !#[trigger] bad_at(vs, j) by {
            if bad_at(vs, j) {
                lemma_bad_has_first(vs, j);
            }
        }
        lemma_named_entries_distinct(vs);
        let all = named@.map_values(|e: (String, ExecOutput)| (e.0@, e.1));
        let rest = all.drop_first();
        assert forall|a: int, b: int| 0 <= a < b < all.len() implies (#[trigger] all[a]).0 != (#[trigger] all[b]).0 by {
            assert(all[b] == rest[b - 1]);
            assert(rest[b - 1].0 == want[b - 1].0);
            if a > 0 {
                assert(all[a] == rest[a - 1]);
                assert(rest[a - 1].0 == want[a - 1].0);
            }
        }
    }
    let outputs = ExecOutputs { primary, named };
    Ok(FrameOutputs { commands: work.commands, outputs })
}

proof fn lemma_on_channel_only(raw: Seq<InputBinding>, c: u32)
    ensures
        forall|i: int| 0 <= i < on_channel(raw, c).len() ==> (#[trigger] on_channel(raw, c)[i]).channel == c,
    decreases raw.len(),
{
    if raw.len() > 0 {
        lemma_on_channel_only(raw.drop_last(), c);
    }
}

proof fn lemma_channels_below(raw: Seq<InputBinding>, c: nat)
    requires
        c <= 4,
    ensures
        ascending(channels_below(raw, c)),
        forall|i: int| 0 <= i < channels_below(raw, c).len() ==> (#[trigger] channels_below(raw, c)[i]).channel < c,
    decreases c,
{
    if c > 0 {
        let prev = channels_below(raw, (c - 1) as nat);
        let here = on_channel(raw, (c - 1) as u32);
        lemma_channels_below(raw, (c - 1) as nat);
        lemma_on_channel_only(raw, (c - 1) as u32);
        let all = prev + here;
        assert(channels_below(raw, c) == all);
        assert forall|i: int| 0 <= i < all.len() implies (#[trigger] all[i]).channel < c by {
            if i >= prev.len() {
                assert(all[i] == here[i - prev.len()]);
            }
        }
        assert forall|i: int, j: int| 0 <= i < j < all.len() implies all[i].channel <= all[j].channel by {
            if j >= prev.len() {
                assert(all[j] == here[j - prev.len()]);
                if i >= prev.len() {
                    assert(all[i] == here[i - prev.len()]);
                }
            }
        }
    }
}

/// Whatever order the edges were inserted in, the bindings of a draw come in ascending order
/// of channel.
pub proof fn lemma_channel_order_ascending(raw: Seq<InputBinding>)
    ensures
        ascending(channel_order(raw)),
{
    lemma_channels_below(raw, 4);
}

/// No two bindings share a channel.
pub open spec fn distinct_channels(s: Seq<InputBinding>) -> bool {
    forall|i: int, j: int| 0 <= i < j < s.len() ==> s[i].channel != s[j].channel
}

proof fn lemma_on_channel_single(s: Seq<InputBinding>, c: u32)
    requires
        distinct_channels(s),
    ensures
        forall|i: int| 0 <= i < s.len() && (#[trigger] s[i]).channel == c ==> on_channel(s, c) == seq![s[i]],
        (forall|i: int| 0 <= i < s.len() ==> (#[trigger] s[i]).channel != c) ==> on_channel(s, c) == Seq::<InputBinding>::empty(),
    decreases s.len(),
{
    if s.len() > 0 {
        let d = s.drop_last();
        assert forall|i: int, j: int| 0 <= i < j < d.len() implies d[i].channel != d[j].channel by {
            assert(d[i] == s[i] && d[j] == s[j]);
        }
        lemma_on_channel_single(d, c);
        assert forall|i: int| 0 <= i < d.len() implies (#[trigger] d[i]) == s[i] by {}
        if s.last().channel == c {
            assert forall|i: int| 0 <= i < d.len() implies (#[trigger] d[i]).channel != c by {
                assert(s[i].channel != s[s.len() - 1].channel);
            }
            assert(on_channel(d, c) == Seq::<InputBinding>::empty());
            assert(on_channel(s, c) =~= seq![s.last()]);
            assert forall|i: int| 0 <= i < s.len() && (#[trigger] s[i]).channel == c implies on_channel(s, c) == seq![s[i]] by {
                if i < s.len() - 1 {
                    assert(s[i].channel != s[s.len() - 1].channel);
                }
            }
        } else {
            assert forall|i: int| 0 <= i < s.len() && (#[trigger] s[i]).channel == c implies on_channel(s, c) == seq![s[i]] by {
                assert(i < s.len() - 1);
                assert(d[i] == s[i]);
            }
        }
    }
}

proof fn lemma_on_channel_same(a: Seq<InputBinding>, b: Seq<InputBinding>, c: u32)
    requires
        a.to_multiset() == b.to_multiset(),
        distinct_channels(a),
        distinct_channels(b),
    ensures
        on_channel(a, c) == on_channel(b, c),
{
    a.to_multiset_ensures();
    b.to_multiset_ensures();
    lemma_on_channel_single(a, c);
    lemma_on_channel_single(b, c);
    if exists|i: int| 0 <= i < a.len() && (#[trigger] a[i]).channel == c {
        let i = choose|i: int| 0 <= i < a.len() && (#[trigger] a[i]).channel == c;
        assert(a.contains(a[i]));
        assert(a.to_multiset().count(a[i]) > 0);
        assert(b.contains(a[i]));
        let j = choose|j: int| 0 <= j < b.len() && b[j] == a[i];
        assert(b[j].channel == c);
    } else if exists|j: int| 0 <= j < b.len() && (#[trigger] b[j]).channel == c {
        let j = choose|j: int| 0 <= j < b.len() && (#[trigger] b[j]).channel == c;
        assert(b.contains(b[j]));
        assert(b.to_multiset().count(b[j]) > 0);
        assert(a.contains(b[j]));
        let i = choose|i: int| 0 <= i < a.len() && a[i] == b[j];
        assert(a[i].channel == c);
    }
}

/// Bindings on distinct channels come out in the same order whatever order their edges were
/// inserted in: the result depends only on which bindings there are.
pub proof fn lemma_channel_order_independent(a: Seq<InputBinding>, b: Seq<InputBinding>)
    requires
        a.to_multiset() == b.to_multiset(),
        distinct_channels(a),
        distinct_channels(b),
    ensures
        channel_order(a) == channel_order(b),
{
    lemma_on_channel_same(a, b, 0);
    lemma_on_channel_same(a, b, 1);
    lemma_on_channel_same(a, b, 2);
    lemma_on_channel_same(a, b, 3);
    assert(channels_below(a, 4) == channels_below(b, 4)) by {
        assert(channels_below(a, 0) == channels_below(b, 0));
        assert(channels_below(a, 1) == channels_below(a, 0) + on_channel(a, 0));
        assert(channels_below(b, 1) == channels_below(b, 0) + on_channel(b, 0));
        assert(channels_below(a, 1) == channels_below(b, 1));
        assert(channels_below(a, 2) == channels_below(a, 1) + on_channel(a, 1));
        assert(channels_below(b, 2) == channels_below(b, 1) + on_channel(b, 1));
        assert(channels_below(a, 3) == channels_below(a, 2) + on_channel(a, 2));
        assert(channels_below(b, 3) == channels_below(b, 2) + on_channel(b, 2));
        assert(channels_below(a, 4) == channels_below(a, 3) + on_channel(a, 3));
        assert(channels_below(b, 4) == channels_below(b, 3) + on_channel(b, 3));
        assert(channels_below(a, 2) == channels_below(b, 2));
        assert(channels_below(a, 3) == channels_below(b, 3));
    }
}

/// A render pass that feeds itself binds the image held by its current target, which is the
/// image it drew on the previous frame: `begin_render` makes the drawn target current, and
/// `ensure_targets` keeps it before the next frame's inputs are collected.
pub proof fn lemma_self_feedback_reads_last_image(g: Graph, props: NodeProps, cur: spec_fn(NodeId) -> Option<RenderTarget>, n: NodeId, e: Edge, t: RenderTarget)
    requires
        g.has_node(n),
        renders(g.node_at(n).kind),
        e.from.node == n,
        e.to.node == n,
        e.to.dir == PortDir::In,
        port_channel(g, n, e.to.port) is Some,
        cur(n) == Some(t),
    ensures
        edge_binding(g, props, cur, n, e) == Ok::<Option<InputBinding>, Seq<char>>(
            Some(InputBinding { channel: port_channel(g, n, e.to.port)->Some_0, image: ImageRef::Target(t.id) }),
        ),
{
}

/// Within a frame, a render pass that feeds itself binds the target it drew into on the frame
/// before: its previous target once the frame is done, which `execute_plan` states to be the
/// target that was current before the frame.
pub proof fn lemma_history_is_last_frame(
    g: Graph,
    props: NodeProps,
    nodes: Seq<NodeId>,
    j: int,
    before: RuntimeState,
    after: RuntimeState,
    e: Edge,
    t: RenderTarget,
)
    requires
        0 <= j < nodes.len(),
        g.has_node(nodes[j]),
        renders(g.node_at(nodes[j]).kind),
        e.from.node == nodes[j],
        e.to.node == nodes[j],
        e.to.dir == PortDir::In,
        port_channel(g, nodes[j], e.to.port) is Some,
        after.previous(nodes[j]) == Some(t),
    ensures
        edge_binding(g, props, frame_view(nodes, j, before, after), nodes[j], e) == Ok::<Option<InputBinding>, Seq<char>>(
            Some(InputBinding { channel: port_channel(g, nodes[j], e.to.port)->Some_0, image: ImageRef::Target(t.id) }),
        ),
{
    lemma_self_feedback_reads_last_image(g, props, frame_view(nodes, j, before, after), nodes[j], e, t);
}

/// Two draws of a frame whose nodes resolve to identical vertex and fragment text use the same
/// cached program.
pub proof fn lemma_identical_source_shares_program(
    g: Graph,
    props: NodeProps,
    st: RuntimeState,
    frame: FrameCtx,
    d1: DrawCall,
    d2: DrawCall,
)
    requires
        st.wf(),
        draw_ok(d1, g, props, st, frame),
        draw_ok(d2, g, props, st, frame),
        shader_for(g, props, d1.node)->Ok_0.0 == shader_for(g, props, d2.node)->Ok_0.0,
        shader_for(g, props, d1.node)->Ok_0.1 == shader_for(g, props, d2.node)->Ok_0.1,
    ensures
        d1.program == d2.program,
{
    lemma_cache_functional(st, d1.key, d1.program, d2.program);
}

} // verus!
