use scheng::graph::{Graph, NodeKind};
use scheng::runtime::{
    standard_op_for, BankDef, BankEntry, BankFile, BankSet, MatrixPreset, SceneDef, SceneEntry,
};

fn entry(name: &str, scenes: &[(&str, &str)]) -> BankEntry {
    BankEntry {
        name: name.to_string(),
        scenes: scenes
            .iter()
            .map(|(n, p)| SceneEntry { name: n.to_string(), preset: p.to_string() })
            .collect(),
    }
}

#[test]
fn builtin_banks_have_scenes() {
    let banks = BankSet::builtin_matrix_banks();
    assert_eq!(banks.banks.len(), 2);
    assert!(banks.banks.iter().any(|b| !b.scenes.is_empty()));
    assert_eq!(banks.banks[0].name, "Basic");
    assert_eq!(banks.banks[1].name, "DJ Cuts");
    assert_eq!(banks.banks[1].scenes[6].name, "ALL");
    assert_eq!(banks.banks[1].scenes[6].preset, MatrixPreset::Quad);
    assert_eq!(banks.banks[0].scenes.len(), 7);
}

#[test]
fn bank_file_with_empty_banks_is_rejected() {
    let err = BankSet::from_bank_file(&BankFile { banks: Some(vec![]) }).unwrap_err();
    assert!(err.to_lowercase().contains("banks") || err.to_lowercase().contains("empty"));
    assert_eq!(err, "json has no banks");
}

#[test]
fn bank_file_without_banks_key_is_rejected() {
    let err = BankSet::from_bank_file(&BankFile { banks: None }).unwrap_err();
    assert!(err.to_lowercase().contains("missing") || err.to_lowercase().contains("key"));
}

#[test]
fn bank_file_with_unknown_preset_is_rejected() {
    let file = BankFile {
        banks: Some(vec![entry("A", &[("one", "solo0"), ("two", "sideways")])]),
    };
    let err = BankSet::from_bank_file(&file).unwrap_err();
    assert!(err.to_lowercase().contains("unknown preset"));
    assert_eq!(err, "unknown preset 'sideways' in scene 'two'");
}

#[test]
fn bank_file_drops_banks_without_scenes() {
    let file = BankFile {
        banks: Some(vec![
            entry("Empty", &[]),
            entry("Live", &[("a", "Solo0"), ("all", "quad")]),
        ]),
    };
    let set = BankSet::from_bank_file(&file).unwrap();
    assert_eq!(set.banks.len(), 1);
    assert_eq!(set.banks[0].name, "Live");
    assert_eq!(set.banks[0].scenes.len(), 2);
    assert_eq!(set.banks[0].scenes[1].preset, MatrixPreset::Quad);
    let none_left = BankFile { banks: Some(vec![entry("Empty", &[])]) };
    assert_eq!(BankSet::from_bank_file(&none_left).unwrap_err(), "json banks had no valid scenes");
}

#[test]
fn compile_witness() {
    let mut g = Graph::new();
    let src = g.add_node(NodeKind::ShaderSource);
    let pass = g.add_node(NodeKind::ShaderPass);
    let out = g.add_node(NodeKind::PixelsOut);
    let _ = (src, pass, out);
    let _op = standard_op_for(NodeKind::ShaderPass);
    let _banks = BankSet::builtin_matrix_banks();
    let scene = SceneDef { name: "solo_0".to_string(), preset: MatrixPreset::Solo0 };
    let bank = BankDef { name: "Basic".to_string(), scenes: vec![scene] };
    assert_eq!(bank.scenes.len(), 1);
}
