use scheng::engine::{
    hash_str, DrawCall, FrameCtx, GpuCommand, HostImage, ImageRef, InputBinding, NodeProps, ProgramId,
    RuntimeState, ShaderSource, TargetId, CROSSFADE_FRAG, FULLSCREEN_VERT, MATRIXMIX4_FRAG,
};
use scheng::exec::{execute_plan, execute_plan_outputs, find_single_input, order_by_channel, resolve_shader};
use scheng::graph::{Graph, NodeId, NodeKind, Plan};

fn source(frag: &str) -> ShaderSource {
    ShaderSource { vert: "void main() {}".to_string(), frag: frag.to_string(), origin: None }
}

fn frame(width: i32, height: i32, n: u64) -> FrameCtx {
    FrameCtx { width, height, frame: n }
}

fn draws(cmds: &[GpuCommand]) -> Vec<DrawCall> {
    cmds.iter()
        .filter_map(|c| match c {
            GpuCommand::Draw(d) => Some(d.clone()),
            _ => None,
        })
        .collect()
}

fn draw_of(cmds: &[GpuCommand], node: NodeId) -> DrawCall {
    draws(cmds).into_iter().find(|d| d.node == node).expect("node was drawn")
}

fn chain() -> (Graph, Plan, NodeId, NodeId, NodeId) {
    let mut g = Graph::new();
    let src = g.add_node(NodeKind::ShaderSource);
    let pass = g.add_node(NodeKind::ShaderPass);
    let out = g.add_node(NodeKind::PixelsOut);
    g.connect_named(src, "out", pass, "in").unwrap();
    g.connect_named(pass, "out", out, "in").unwrap();
    let plan = g.compile().unwrap();
    (g, plan, src, pass, out)
}

#[test]
fn source_pass_output_chain_renders_one_frame_at_requested_size() {
    let (g, plan, src, pass, _out) = chain();
    let mut props = NodeProps::new();
    props.shader_sources.push((src, source("void main() { red(); }")));
    let mut state = RuntimeState::new();
    let work = execute_plan(&g, &plan, &mut state, &props, frame(640, 360, 0)).unwrap();
    assert_eq!(work.output.width, 640);
    assert_eq!(work.output.height, 360);
    let ds = draws(&work.commands);
    assert_eq!(ds.len(), 1);
    assert_eq!(ds[0].node, pass);
    assert_eq!(ds[0].target, work.output.target);
    assert_eq!(work.output.image, ImageRef::Target(work.output.target));
    // Two targets are created for the pass, one program is compiled, then the draw.
    let compiles = work
        .commands
        .iter()
        .filter(|c| matches!(c, GpuCommand::CompileProgram { .. }))
        .count();
    let creates = work
        .commands
        .iter()
        .filter(|c| matches!(c, GpuCommand::CreateTarget { width: 640, height: 360, .. }))
        .count();
    assert_eq!(compiles, 1);
    assert_eq!(creates, 2);
    assert!(matches!(work.commands.last(), Some(GpuCommand::Draw(_))));
}

#[test]
fn pass_override_wins_and_resize_reallocates() {
    let (g, plan, src, pass, _out) = chain();
    let mut props = NodeProps::new();
    props.shader_sources.push((src, source("from source")));
    props.shader_sources.push((pass, source("override")));
    let mut state = RuntimeState::new();
    let w1 = execute_plan(&g, &plan, &mut state, &props, frame(64, 32, 0)).unwrap();
    let compiled: Vec<String> = w1
        .commands
        .iter()
        .filter_map(|c| match c {
            GpuCommand::CompileProgram { frag, .. } => Some(frag.clone()),
            _ => None,
        })
        .collect();
    assert_eq!(compiled, vec!["override".to_string()]);
    let w2 = execute_plan(&g, &plan, &mut state, &props, frame(128, 0, 1)).unwrap();
    // The pair is resized, nothing is recompiled, and sizes are at least one pixel.
    let resizes = w2
        .commands
        .iter()
        .filter(|c| matches!(c, GpuCommand::ResizeTarget { width: 128, height: 1, .. }))
        .count();
    assert_eq!(resizes, 2);
    assert!(!w2.commands.iter().any(|c| matches!(c, GpuCommand::CompileProgram { .. })));
    assert_eq!((w2.output.width, w2.output.height), (128, 1));
}

#[test]
fn mixer_binds_a_to_channel_0_and_b_to_channel_1() {
    let mut g = Graph::new();
    let left = g.add_node(NodeKind::ShaderPass);
    let right = g.add_node(NodeKind::ShaderPass);
    let mix = g.add_node(NodeKind::Crossfade);
    let out = g.add_node(NodeKind::PixelsOut);
    // Insert the "b" edge first: binding order must not depend on it.
    g.connect_named(right, "out", mix, "b").unwrap();
    g.connect_named(left, "out", mix, "a").unwrap();
    g.connect_named(mix, "out", out, "in").unwrap();
    let plan = g.compile().unwrap();
    let mut props = NodeProps::new();
    props.shader_sources.push((left, source("one")));
    props.shader_sources.push((right, source("two")));
    let mut state = RuntimeState::new();
    let work = execute_plan(&g, &plan, &mut state, &props, frame(320, 240, 0)).unwrap();
    let d1 = draw_of(&work.commands, left);
    let d2 = draw_of(&work.commands, right);
    let dm = draw_of(&work.commands, mix);
    assert_eq!(
        dm.inputs,
        vec![
            InputBinding { channel: 0, image: ImageRef::Target(d1.target) },
            InputBinding { channel: 1, image: ImageRef::Target(d2.target) },
        ]
    );
    assert_eq!(work.output.target, dm.target);
    // The mixer renders with its built-in crossfade shader.
    let frag: Vec<(String, String)> = work
        .commands
        .iter()
        .filter_map(|c| match c {
            GpuCommand::CompileProgram { vert, frag, .. } => Some((vert.clone(), frag.clone())),
            _ => None,
        })
        .collect();
    assert!(frag.contains(&(FULLSCREEN_VERT.to_string(), CROSSFADE_FRAG.to_string())));
}

#[test]
fn matrix_mixer_orders_inputs_by_channel_whatever_the_insertion_order() {
    let mut g = Graph::new();
    let p: Vec<NodeId> = (0..4).map(|_| g.add_node(NodeKind::ShaderPass)).collect();
    let mix = g.add_node(NodeKind::MatrixMix4);
    let out = g.add_node(NodeKind::PixelsOut);
    for (i, port) in [(3, "in3"), (1, "in1"), (0, "in0"), (2, "in2")] {
        g.connect_named(p[i], "out", mix, port).unwrap();
    }
    g.connect_named(mix, "out", out, "in").unwrap();
    let plan = g.compile().unwrap();
    let mut props = NodeProps::new();
    for (i, id) in p.iter().enumerate() {
        props.shader_sources.push((*id, source(&format!("pass {i}"))));
    }
    let mut state = RuntimeState::new();
    let work = execute_plan(&g, &plan, &mut state, &props, frame(16, 16, 0)).unwrap();
    let dm = draw_of(&work.commands, mix);
    let channels: Vec<u32> = dm.inputs.iter().map(|b| b.channel).collect();
    assert_eq!(channels, vec![0, 1, 2, 3]);
    for (i, b) in dm.inputs.iter().enumerate() {
        assert_eq!(b.image, ImageRef::Target(draw_of(&work.commands, p[i]).target));
    }
    let frags: Vec<String> = work
        .commands
        .iter()
        .filter_map(|c| match c {
            GpuCommand::CompileProgram { frag, .. } => Some(frag.clone()),
            _ => None,
        })
        .collect();
    assert!(frags.contains(&MATRIXMIX4_FRAG.to_string()));
}

#[test]
fn order_by_channel_is_stable_and_ascending() {
    let raw = vec![
        InputBinding { channel: 2, image: ImageRef::Host(5) },
        InputBinding { channel: 0, image: ImageRef::Host(6) },
        InputBinding { channel: 2, image: ImageRef::Host(7) },
        InputBinding { channel: 1, image: ImageRef::Host(8) },
    ];
    let sorted = order_by_channel(&raw);
    let got: Vec<(u32, ImageRef)> = sorted.iter().map(|b| (b.channel, b.image)).collect();
    assert_eq!(
        got,
        vec![
            (0, ImageRef::Host(6)),
            (1, ImageRef::Host(8)),
            (2, ImageRef::Host(5)),
            (2, ImageRef::Host(7)),
        ]
    );
}

#[test]
fn self_fed_pass_samples_what_it_drew_the_frame_before() {
    let mut g = Graph::new();
    let pass = g.add_node(NodeKind::ShaderPass);
    let out = g.add_node(NodeKind::PixelsOut);
    g.connect_named(pass, "out", pass, "in").unwrap();
    g.connect_named(pass, "out", out, "in").unwrap();
    let plan = g.compile().unwrap();
    let mut props = NodeProps::new();
    props.shader_sources.push((pass, source("feedback")));
    let mut state = RuntimeState::new();
    let mut previous: Option<TargetId> = None;
    for n in 0..6u64 {
        let work = execute_plan(&g, &plan, &mut state, &props, frame(8, 8, n)).unwrap();
        let d = draw_of(&work.commands, pass);
        assert_eq!(d.inputs.len(), 1);
        assert_eq!(d.inputs[0].channel, 0);
        let ImageRef::Target(history) = d.inputs[0].image else { panic!("history is a target") };
        if let Some(prev) = previous {
            assert_eq!(history, prev, "frame {n} must sample the image of frame {}", n - 1);
        }
        assert_ne!(history, d.target);
        assert_eq!(work.output.target, d.target);
        previous = Some(d.target);
    }
}

#[test]
fn identical_sources_share_one_program() {
    let mut g = Graph::new();
    let a = g.add_node(NodeKind::ShaderPass);
    let b = g.add_node(NodeKind::ColorCorrect);
    let c = g.add_node(NodeKind::ShaderPass);
    let mix = g.add_node(NodeKind::Add);
    let out = g.add_node(NodeKind::PixelsOut);
    g.connect_named(a, "out", mix, "a").unwrap();
    g.connect_named(b, "out", mix, "b").unwrap();
    g.connect_named(mix, "out", out, "in").unwrap();
    let plan = g.compile().unwrap();
    let mut props = NodeProps::new();
    props.shader_sources.push((a, source("same text")));
    props.shader_sources.push((b, source("same text")));
    props.shader_sources.push((c, source("other text")));
    let mut state = RuntimeState::new();
    let work = execute_plan(&g, &plan, &mut state, &props, frame(4, 4, 0)).unwrap();
    let (da, db, dc) = (draw_of(&work.commands, a), draw_of(&work.commands, b), draw_of(&work.commands, c));
    assert_eq!(da.program, db.program);
    assert_eq!(da.key, db.key);
    assert_ne!(da.program, dc.program);
    // Three distinct programs: the shared one, the other one, and the built-in mixer.
    let compiles = work
        .commands
        .iter()
        .filter(|c| matches!(c, GpuCommand::CompileProgram { .. }))
        .count();
    assert_eq!(compiles, 3);
    assert_eq!(da.key.vert_hash, hash_str("void main() {}"));
    assert_eq!(da.key.frag_hash, hash_str("same text"));
    assert_ne!(hash_str("same text"), hash_str("other text"));
}

#[test]
fn missing_output_and_missing_shader_are_errors() {
    let mut g = Graph::new();
    let pass = g.add_node(NodeKind::ShaderPass);
    let plan = g.compile().unwrap();
    let mut state = RuntimeState::new();
    let props = NodeProps::new();
    let err = execute_plan(&g, &plan, &mut state, &props, frame(4, 4, 0)).unwrap_err();
    assert_eq!(err.message(), "execute_plan: missing PixelsOut node in plan");

    let out = g.add_node(NodeKind::PixelsOut);
    g.connect_named(pass, "out", out, "in").unwrap();
    let plan = g.compile().unwrap();
    let err = execute_plan(&g, &plan, &mut state, &props, frame(4, 4, 0)).unwrap_err();
    assert!(err.message().starts_with("execute_plan: missing shader source"));
}

#[test]
fn output_fed_by_a_source_is_rejected() {
    let mut g = Graph::new();
    let src = g.add_node(NodeKind::TextureInputPass);
    let out = g.add_node(NodeKind::PixelsOut);
    g.connect_named(src, "out", out, "in").unwrap();
    let plan = g.compile().unwrap();
    let mut state = RuntimeState::new();
    let mut props = NodeProps::new();
    let err = execute_plan(&g, &plan, &mut state, &props, frame(4, 4, 0)).unwrap_err();
    assert_eq!(err.message(), "execute_plan: TextureInputPass missing host texture");
    props.texture_inputs.push((src, 42));
    let err = execute_plan(&g, &plan, &mut state, &props, frame(4, 4, 0)).unwrap_err();
    assert_eq!(err.message(), "execute_plan: PixelsOut input must come from a render pass");
}

#[test]
fn host_images_feed_passes() {
    let mut g = Graph::new();
    let tex = g.add_node(NodeKind::TextureInputPass);
    let vid = g.add_node(NodeKind::VideoDecodeSource);
    let mix = g.add_node(NodeKind::Multiply);
    let out = g.add_node(NodeKind::PixelsOut);
    g.connect_named(tex, "out", mix, "a").unwrap();
    g.connect_named(vid, "out", mix, "b").unwrap();
    g.connect_named(mix, "out", out, "in").unwrap();
    let plan = g.compile().unwrap();
    let mut props = NodeProps::new();
    props.texture_inputs.push((tex, 11));
    props.stream_images.push((vid, HostImage { image: 12, width: 640, height: 360 }));
    let mut state = RuntimeState::new();
    let work = execute_plan(&g, &plan, &mut state, &props, frame(4, 4, 0)).unwrap();
    let dm = draw_of(&work.commands, mix);
    assert_eq!(
        dm.inputs,
        vec![
            InputBinding { channel: 0, image: ImageRef::Host(11) },
            InputBinding { channel: 1, image: ImageRef::Host(12) },
        ]
    );
}

#[test]
fn named_outputs_resolve_from_the_same_frame() {
    let mut g = Graph::new();
    let a = g.add_node(NodeKind::ShaderPass);
    let b = g.add_node(NodeKind::ShaderPass);
    let main_out = g.add_node(NodeKind::PixelsOut);
    let preview = g.add_node(NodeKind::PixelsOut);
    g.connect_named(a, "out", main_out, "in").unwrap();
    g.connect_named(b, "out", preview, "in").unwrap();
    let plan = g.compile().unwrap();
    let mut props = NodeProps::new();
    props.shader_sources.push((a, source("a")));
    props.shader_sources.push((b, source("b")));
    props.output_names.push((preview, "preview".to_string()));
    let mut state = RuntimeState::new();
    let fo = execute_plan_outputs(&g, &plan, &mut state, &props, frame(10, 20, 0)).unwrap();
    let da = draw_of(&fo.commands, a);
    let db = draw_of(&fo.commands, b);
    assert_eq!(fo.outputs.primary().target, da.target);
    assert_eq!(fo.outputs.get("main").unwrap().target, da.target);
    assert_eq!(fo.outputs.get("preview").unwrap().target, db.target);
    assert_eq!(fo.outputs.get("other"), None);
    let names: Vec<&str> = fo.outputs.iter().iter().map(|(n, _)| n.as_str()).collect();
    assert_eq!(names, vec!["main", "preview"]);
    assert_eq!(draws(&fo.commands).len(), 2);

    props.output_names.push((main_out, "main".to_string()));
    let mut fresh = RuntimeState::new();
    let err = execute_plan_outputs(&g, &plan, &mut fresh, &props, frame(10, 20, 0)).unwrap_err();
    assert_eq!(err.message(), "output name 'main' is reserved");
}

#[test]
fn find_single_input_names_the_driver() {
    let (_g, plan, src, pass, out) = chain();
    assert_eq!(find_single_input(&plan, pass), Some(src));
    assert_eq!(find_single_input(&plan, out), Some(pass));
    assert_eq!(find_single_input(&plan, src), None);
}

#[test]
fn teardown_hands_back_every_resource() {
    let (g, plan, src, _pass, _out) = chain();
    let mut props = NodeProps::new();
    props.shader_sources.push((src, source("x")));
    let mut state = RuntimeState::new();
    execute_plan(&g, &plan, &mut state, &props, frame(2, 2, 0)).unwrap();
    let (targets, programs) = state.destroy();
    let mut ids: Vec<u32> = targets.iter().map(|t| t.0).collect();
    ids.sort();
    assert_eq!(ids, vec![0, 1]);
    assert_eq!(programs.len(), 1);
    let again = execute_plan(&g, &plan, &mut state, &props, frame(2, 2, 1)).unwrap();
    let creates = again
        .commands
        .iter()
        .filter(|c| matches!(c, GpuCommand::CreateTarget { .. }))
        .count();
    assert_eq!(creates, 2);
}

#[test]
fn legacy_source_edge_needs_its_text() {
    let (g, plan, _src, _pass, _out) = chain();
    let mut state = RuntimeState::new();
    let props = NodeProps::new();
    let err = execute_plan(&g, &plan, &mut state, &props, frame(4, 4, 0)).unwrap_err();
    assert_eq!(err.message(), "execute_plan: missing ShaderSource in NodeProps");
}

#[test]
fn resolved_shader_origin_names_the_builtin() {
    let mut g = Graph::new();
    let m = g.add_node(NodeKind::MatrixMix4);
    let props = NodeProps::new();
    let s = resolve_shader(&g, &props, m).unwrap();
    assert_eq!(s.origin.as_deref(), Some("builtin:MatrixMix4"));
    assert_eq!(s.vert, FULLSCREEN_VERT);
    assert_eq!(s.frag, MATRIXMIX4_FRAG);
    let err = resolve_shader(&g, &props, NodeId(9)).unwrap_err();
    assert_eq!(err.message(), "execute_plan: resolve_shader missing node");
}

#[test]
fn failed_compile_is_asked_for_again() {
    let (g, plan, src, _pass, _out) = chain();
    let mut props = NodeProps::new();
    props.set_shader_source(src, source("broken"));
    let mut state = RuntimeState::new();
    let w1 = execute_plan(&g, &plan, &mut state, &props, frame(2, 2, 0)).unwrap();
    let failed = w1
        .commands
        .iter()
        .find_map(|c| match c {
            GpuCommand::CompileProgram { program, .. } => Some(*program),
            _ => None,
        })
        .unwrap();
    let w2 = execute_plan(&g, &plan, &mut state, &props, frame(2, 2, 1)).unwrap();
    assert!(!w2.commands.iter().any(|c| matches!(c, GpuCommand::CompileProgram { .. })));
    state.compile_failed(failed);
    let w3 = execute_plan(&g, &plan, &mut state, &props, frame(2, 2, 2)).unwrap();
    let again: Vec<ProgramId> = w3
        .commands
        .iter()
        .filter_map(|c| match c {
            GpuCommand::CompileProgram { program, .. } => Some(*program),
            _ => None,
        })
        .collect();
    assert_eq!(again.len(), 1);
    assert_ne!(again[0], failed);
    assert_eq!(draws(&w3.commands)[0].program, again[0]);
}

#[test]
fn setters_keep_one_entry_per_node() {
    let mut props = NodeProps::new();
    props.set_shader_source(NodeId(1), source("a"));
    props.set_shader_source(NodeId(2), source("b"));
    props.set_shader_source(NodeId(1), source("c"));
    assert_eq!(props.shader_sources.len(), 2);
    assert_eq!(props.shader_sources[0].1.frag, "c");
    props.set_output_name(NodeId(3), "x".to_string());
    props.set_output_name(NodeId(3), "y".to_string());
    assert_eq!(props.output_names, vec![(NodeId(3), "y".to_string())]);
    props.set_texture_input(NodeId(4), 9);
    props.set_stream_image(NodeId(5), HostImage { image: 1, width: 2, height: 3 });
    assert_eq!(props.texture_inputs, vec![(NodeId(4), 9)]);
    assert_eq!(props.stream_images.len(), 1);
}
