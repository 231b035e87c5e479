use scheng::contract::{
    builtin_shader_for, input_channel_for, is_render_pass, plan_output_names, uniform_name_is_known,
    BUILTIN_VERT, NOISE_FRAG, PASSTHROUGH_FRAG,
};
use scheng::graph::{NodeId, NodeKind};
use scheng::runtime::{preset_from_str, standard_op_for, MatrixPreset, MixerOp, StandardOp};
use scheng::text::decimal_text;

#[test]
fn outputs_rejects_zero_pixels_out() {
    let err = plan_output_names(&[]).expect_err("must reject graphs with no PixelsOut");
    assert!(
        err.to_lowercase().contains("no pixelsout"),
        "unexpected err: {err}"
    );
}

#[test]
fn outputs_rejects_two_unnamed_pixels_out() {
    let err = plan_output_names(&[(NodeId(1), None), (NodeId(2), None)])
        .expect_err("must reject 2 unnamed PixelsOut (ambiguous primary)");
    assert!(
        err.to_lowercase().contains("exactly 1 unnamed"),
        "unexpected err: {err}"
    );
}

#[test]
fn outputs_rejects_reserved_main_name() {
    let err = plan_output_names(&[(NodeId(1), None), (NodeId(2), Some("main"))])
        .expect_err("must reject explicit name 'main'");
    assert!(
        err.to_lowercase().contains("reserved"),
        "unexpected err: {err}"
    );
}

#[test]
fn outputs_rejects_duplicate_named_outputs() {
    let err = plan_output_names(&[
        (NodeId(1), None),
        (NodeId(2), Some("program")),
        (NodeId(3), Some("program")),
    ])
    .expect_err("must reject duplicate explicit output names");
    assert!(
        err.to_lowercase().contains("duplicate output name"),
        "unexpected err: {err}"
    );
}

#[test]
fn outputs_accepts_one_unnamed_plus_two_named() {
    let plan = plan_output_names(&[
        (NodeId(10), None),
        (NodeId(11), Some("program")),
        (NodeId(12), Some("preview")),
    ])
    .expect("should accept 1 unnamed + N named");

    assert_eq!(plan.primary, NodeId(10));
    assert_eq!(plan.get("program"), Some(NodeId(11)));
    assert_eq!(plan.get("preview"), Some(NodeId(12)));
}

#[test]
fn output_naming_messages_are_exact() {
    assert_eq!(plan_output_names(&[]).unwrap_err(), "no PixelsOut nodes in graph");
    assert_eq!(
        plan_output_names(&[(NodeId(1), Some("a")), (NodeId(2), Some("b"))]).unwrap_err(),
        "expected exactly 1 unnamed PixelsOut (primary), found 0"
    );
    let three: Vec<(NodeId, Option<&str>)> = (0..12).map(|i| (NodeId(i), None)).collect();
    assert_eq!(
        plan_output_names(&three).unwrap_err(),
        "expected exactly 1 unnamed PixelsOut (primary), found 12"
    );
    assert_eq!(
        plan_output_names(&[(NodeId(1), Some("x")), (NodeId(2), None), (NodeId(3), Some("x"))])
            .unwrap_err(),
        "duplicate output name 'x'"
    );
    // The first broken rule in entry order decides the message.
    assert_eq!(
        plan_output_names(&[(NodeId(1), Some("main")), (NodeId(2), None), (NodeId(3), None)])
            .unwrap_err(),
        "output name 'main' is reserved"
    );
    let only = plan_output_names(&[(NodeId(4), None)]).unwrap();
    assert_eq!(only.primary, NodeId(4));
    assert!(only.named.is_empty());
    assert_eq!(only.get("main"), None);
}

#[test]
fn decimal_text_writes_numbers() {
    assert_eq!(decimal_text(0), "0");
    assert_eq!(decimal_text(7), "7");
    assert_eq!(decimal_text(10), "10");
    assert_eq!(decimal_text(4096), "4096");
}

#[test]
fn input_channels_follow_port_names() {
    let k = NodeKind::ShaderPass;
    for (name, ch) in [
        ("in", 0),
        ("in0", 0),
        ("a", 0),
        ("src", 0),
        ("in1", 1),
        ("b", 1),
        ("src1", 1),
        ("in2", 2),
        ("c", 2),
        ("src2", 2),
        ("in3", 3),
        ("d", 3),
        ("src3", 3),
    ] {
        assert_eq!(input_channel_for(k, name), Some(ch), "{name}");
    }
    assert_eq!(input_channel_for(k, "history"), None);
    assert_eq!(input_channel_for(NodeKind::Crossfade, "out"), None);
}

#[test]
fn known_uniforms_and_render_pass_kinds() {
    assert!(uniform_name_is_known("uTime"));
    assert!(uniform_name_is_known("uParam3"));
    assert!(!uniform_name_is_known("uParam4"));
    assert!(!uniform_name_is_known("utime"));
    assert!(is_render_pass(NodeKind::ShaderPass));
    assert!(is_render_pass(NodeKind::Blur));
    assert!(is_render_pass(NodeKind::Crossfade));
    assert!(is_render_pass(NodeKind::MatrixMix4));
    assert!(!is_render_pass(NodeKind::ShaderSource));
    assert!(!is_render_pass(NodeKind::PixelsOut));
}

#[test]
fn builtin_shaders_by_kind() {
    let (v, f) = builtin_shader_for(NodeKind::ShaderPass).unwrap();
    assert_eq!(v, BUILTIN_VERT);
    assert_eq!(f, NOISE_FRAG);
    let (v, f) = builtin_shader_for(NodeKind::Blur).unwrap();
    assert_eq!(v, BUILTIN_VERT);
    assert_eq!(f, PASSTHROUGH_FRAG);
    assert!(f.contains("uTex0"));
    assert!(builtin_shader_for(NodeKind::Crossfade).is_none());
    assert!(builtin_shader_for(NodeKind::PixelsOut).is_none());
}

#[test]
fn standard_ops_and_presets() {
    assert_eq!(standard_op_for(NodeKind::Crossfade), Some(StandardOp::Mixer(MixerOp::Crossfade)));
    assert_eq!(standard_op_for(NodeKind::MatrixMix4), Some(StandardOp::Mixer(MixerOp::MatrixMix4)));
    assert_eq!(standard_op_for(NodeKind::KeyMix), None);
    assert_eq!(standard_op_for(NodeKind::ShaderPass), None);
    assert_eq!(preset_from_str("solo_2"), Some(MatrixPreset::Solo2));
    assert_eq!(preset_from_str("Quad"), Some(MatrixPreset::Quad));
    assert_eq!(preset_from_str("sum_01"), None);
    assert_eq!(MatrixPreset::Sum23.name(), "sum23");
    assert_eq!(preset_from_str(MatrixPreset::Solo1.name()), Some(MatrixPreset::Solo1));
}
