use scheng::error::EngineError;
use scheng::graph::{Endpoint, Graph, NodeClass, NodeKind, PortDir};

fn message(e: EngineError) -> String {
    e.message()
}

#[test]
fn build_simple_chain() {
    let mut g = Graph::new();
    let src = g.add_node(NodeKind::ShaderSource);
    let pass = g.add_node(NodeKind::ShaderPass);
    let out = g.add_node(NodeKind::PixelsOut);

    g.connect_named(src, "out", pass, "in").unwrap();
    g.connect_named(pass, "out", out, "in").unwrap();

    let plan = g.compile().unwrap();
    assert!(plan.nodes.len() >= 3);
    assert_eq!(plan.edges.len(), 2);
}

#[test]
fn graph_compile_is_deterministic_for_same_graph() {
    let mut g = Graph::new();

    let src = g.add_node(NodeKind::ShaderSource);
    let pass = g.add_node(NodeKind::ShaderPass);
    let out = g.add_node(NodeKind::PixelsOut);

    g.connect_named(src, "out", pass, "in")
        .expect("connect_named src.out -> pass.in");
    g.connect_named(pass, "out", out, "in")
        .expect("connect_named pass.out -> out.in");

    let first = g.compile().expect("compile 1");
    let second = g.compile().expect("compile 2");

    assert_eq!(first.nodes, second.nodes, "plan nodes order must be stable");
    assert_eq!(first.edges.len(), second.edges.len(), "edge count must be stable");
}

#[test]
fn plan_lists_nodes_in_ascending_id_order() {
    let mut g = Graph::new();
    let a = g.add_node(NodeKind::PixelsOut);
    let b = g.add_node(NodeKind::ShaderPass);
    let c = g.add_node(NodeKind::ShaderSource);
    g.connect_named(c, "out", b, "in").unwrap();
    g.connect_named(b, "out", a, "in").unwrap();
    let plan = g.compile().unwrap();
    assert_eq!(plan.nodes, vec![a, b, c]);
    assert_eq!(a.0, 0);
    assert_eq!(c.0, 2);
}

#[test]
fn ports_follow_the_class_convention() {
    let mut g = Graph::new();
    let s = g.add_node(NodeKind::NoiseSource);
    let p = g.add_node(NodeKind::Blur);
    let m = g.add_node(NodeKind::Crossfade);
    let q = g.add_node(NodeKind::MatrixMix4);
    let o = g.add_node(NodeKind::Window);
    let names = |id| -> Vec<(&'static str, PortDir)> {
        g.node(id).unwrap().ports.iter().map(|p| (p.name, p.dir)).collect()
    };
    assert_eq!(names(s), vec![("out", PortDir::Out)]);
    assert_eq!(names(p), vec![("in", PortDir::In), ("out", PortDir::Out)]);
    assert_eq!(names(m), vec![("a", PortDir::In), ("b", PortDir::In), ("out", PortDir::Out)]);
    assert_eq!(
        names(q),
        vec![
            ("in0", PortDir::In),
            ("in1", PortDir::In),
            ("in2", PortDir::In),
            ("in3", PortDir::In),
            ("out", PortDir::Out)
        ]
    );
    assert_eq!(names(o), vec![("in", PortDir::In)]);
    // Port ids are handed out in creation order across the graph.
    let ids: Vec<u32> = g.nodes().iter().flat_map(|n| n.ports.iter().map(|p| p.id.0)).collect();
    assert_eq!(ids, (0..12).collect::<Vec<u32>>());
    assert_eq!(NodeKind::Rtsp.class(), NodeClass::Output);
    assert_eq!(NodeKind::KeyMix.class(), NodeClass::Mixer);
    assert_eq!(NodeKind::Feedback.class(), NodeClass::Processor);
    assert_eq!(NodeKind::VideoDecodeSource.class(), NodeClass::Source);
}

#[test]
fn find_port_by_name_and_direction() {
    let mut g = Graph::new();
    let m = g.add_node(NodeKind::Crossfade);
    assert_eq!(g.find_port(m, "b", PortDir::In).map(|p| p.0), Some(1));
    assert_eq!(g.find_port(m, "b", PortDir::Out), None);
    assert_eq!(g.find_port(m, "out", PortDir::Out).map(|p| p.0), Some(2));
    assert_eq!(g.find_port(scheng::graph::NodeId(7), "out", PortDir::Out), None);
}

#[test]
fn second_driver_is_rejected_and_edges_unchanged() {
    let mut g = Graph::new();
    let s1 = g.add_node(NodeKind::ShaderSource);
    let s2 = g.add_node(NodeKind::ShaderSource);
    let pass = g.add_node(NodeKind::ShaderPass);
    g.connect_named(s1, "out", pass, "in").unwrap();
    let before: Vec<(u32, u32)> = g.edges().iter().map(|e| (e.from.port.0, e.to.port.0)).collect();
    let err = g.connect_named(s2, "out", pass, "in").unwrap_err();
    assert_eq!(message(err), "connect: input already connected");
    let after: Vec<(u32, u32)> = g.edges().iter().map(|e| (e.from.port.0, e.to.port.0)).collect();
    assert_eq!(before, after);
    assert_eq!(g.edges().len(), 1);
}

#[test]
fn connect_checks_directions_nodes_and_ports() {
    let mut g = Graph::new();
    let src = g.add_node(NodeKind::ShaderSource);
    let pass = g.add_node(NodeKind::ShaderPass);
    let src_out = g.find_port(src, "out", PortDir::Out).unwrap();
    let pass_in = g.find_port(pass, "in", PortDir::In).unwrap();
    let pass_out = g.find_port(pass, "out", PortDir::Out).unwrap();
    let from = Endpoint { node: src, port: src_out, dir: PortDir::Out };
    let to = Endpoint { node: pass, port: pass_in, dir: PortDir::In };

    let e = g.connect(Endpoint { dir: PortDir::In, ..from }, to).unwrap_err();
    assert_eq!(message(e), "connect: from endpoint must be Out");
    let e = g.connect(from, Endpoint { dir: PortDir::Out, ..to }).unwrap_err();
    assert_eq!(message(e), "connect: to endpoint must be In");
    let e = g
        .connect(from, Endpoint { node: scheng::graph::NodeId(9), ..to })
        .unwrap_err();
    assert_eq!(message(e), "connect: node not found");
    // The source node does not own the pass's out port.
    let e = g.connect(Endpoint { port: pass_out, ..from }, to).unwrap_err();
    assert_eq!(message(e), "connect: from port not found on node");
    // An Out port used as the target of an edge does not belong to the node as an input.
    let e = g.connect(from, Endpoint { port: pass_out, ..to }).unwrap_err();
    assert_eq!(message(e), "connect: to port not found on node");
    assert_eq!(g.edges().len(), 0);
    g.connect(from, to).unwrap();
    assert_eq!(g.edges().len(), 1);
}

#[test]
fn connect_named_reports_missing_ports() {
    let mut g = Graph::new();
    let src = g.add_node(NodeKind::ShaderSource);
    let pass = g.add_node(NodeKind::ShaderPass);
    let e = g.connect_named(src, "in", pass, "in").unwrap_err();
    assert_eq!(message(e), "connect_named: from port not found");
    let e = g.connect_named(src, "out", pass, "c").unwrap_err();
    assert_eq!(message(e), "connect_named: to port not found");
    assert_eq!(g.edges().len(), 0);
}

#[test]
fn compile_fails_iff_an_output_is_undriven() {
    let mut g = Graph::new();
    let src = g.add_node(NodeKind::ShaderSource);
    let pass = g.add_node(NodeKind::ShaderPass);
    let out1 = g.add_node(NodeKind::PixelsOut);
    let out2 = g.add_node(NodeKind::Syphon);
    g.connect_named(src, "out", pass, "in").unwrap();
    g.connect_named(pass, "out", out1, "in").unwrap();
    let err = g.compile().unwrap_err();
    assert_eq!(message(err), "compile: output input not connected");
    g.connect_named(pass, "out", out2, "in").unwrap();
    assert!(g.compile().is_ok());

    // A graph without outputs compiles, even with unconnected inputs elsewhere.
    let mut h = Graph::new();
    h.add_node(NodeKind::Crossfade);
    let plan = h.compile().unwrap();
    assert_eq!(plan.nodes.len(), 1);
    assert_eq!(plan.edges.len(), 0);
}

#[test]
fn engine_error_messages() {
    assert_eq!(EngineError::other("boom").message(), "boom");
    assert_eq!(EngineError::VertexCompile("l1".to_string()).message(), "vertex shader compile error: l1");
    assert_eq!(EngineError::FragmentCompile("l2".to_string()).message(), "fragment shader compile error: l2");
    assert_eq!(EngineError::Link("l3".to_string()).message(), "program link error: l3");
    assert_eq!(EngineError::GlCreate("x".to_string()).message(), "backend object creation failed: x");
    assert_eq!(
        EngineError::InvalidConfig { path: "a.json".to_string(), msg: "bad".to_string() }.message(),
        "invalid config at a.json: bad"
    );
    assert_eq!(
        EngineError::AssetsNotFound { start_dir: "/tmp".to_string() }.message(),
        "assets not found (starting at /tmp)"
    );
}
