use vstd::prelude::*;
use vstd::string::StringExecFns;

use crate::graph::NodeKind;
use crate::text::text_eq;

verus! {

#[derive(Debug, Clone, Copy, PartialEq, Eq, Hash, Structural)]
pub enum MixerOp {
    /// 2-input crossfade.
    Crossfade,
    /// 2-input additive blend.
    Add,
    /// 2-input multiplicative blend.
    Multiply,
    /// Weighted sum of up to 4 inputs.
    MatrixMix4,
}

#[derive(Debug, Clone, Copy, PartialEq, Eq, Hash, Structural)]
pub enum StandardOp {
    Mixer(MixerOp),
}

/// The built-in operation that stands behind a node kind, if any.
pub open spec fn spec_standard_op(kind: NodeKind) -> Option<StandardOp> {
    match kind {
        NodeKind::Crossfade => Some(StandardOp::Mixer(MixerOp::Crossfade)),
        NodeKind::Add => Some(StandardOp::Mixer(MixerOp::Add)),
        NodeKind::Multiply => Some(StandardOp::Mixer(MixerOp::Multiply)),
        NodeKind::MatrixMix4 => Some(StandardOp::Mixer(MixerOp::MatrixMix4)),
        _ => None,
    }
}

/// Maps a node kind to the built-in operation that renders it when no shader is given.
pub fn standard_op_for(kind: NodeKind) -> (r: Option<StandardOp>)
    ensures
        r == spec_standard_op(kind),
{
    match kind {
        NodeKind::Crossfade => Some(StandardOp::Mixer(MixerOp::Crossfade)),
        NodeKind::Add => Some(StandardOp::Mixer(MixerOp::Add)),
        NodeKind::Multiply => Some(StandardOp::Mixer(MixerOp::Multiply)),
        NodeKind::MatrixMix4 => Some(StandardOp::Mixer(MixerOp::MatrixMix4)),
        _ => None,
    }
}

/// Named weightings of the four inputs of a `MatrixMix4` node.
#[derive(Debug, Clone, Copy, PartialEq, Eq, Hash, Structural)]
pub enum MatrixPreset {
    Solo0,
    Solo1,
    Solo2,
    Solo3,
    /// Equal weights across all 4 inputs.
    Quad,
    /// Inputs 0 and 1 at half weight.
    Sum01,
    /// Inputs 2 and 3 at half weight.
    Sum23,
}

pub open spec fn preset_name(p: MatrixPreset) -> Seq<char> {
    match p {
        MatrixPreset::Solo0 => "solo0"@,
        MatrixPreset::Solo1 => "solo1"@,
        MatrixPreset::Solo2 => "solo2"@,
        MatrixPreset::Solo3 => "solo3"@,
        MatrixPreset::Quad => "quad"@,
        MatrixPreset::Sum01 => "sum01"@,
        MatrixPreset::Sum23 => "sum23"@,
    }
}

impl MatrixPreset {
    pub fn name(self) -> (r: &'static str)
        ensures
            r@ == preset_name(self),
    {
        match self {
            MatrixPreset::Solo0 => "solo0",
            MatrixPreset::Solo1 => "solo1",
            MatrixPreset::Solo2 => "solo2",
            MatrixPreset::Solo3 => "solo3",
            MatrixPreset::Quad => "quad",
            MatrixPreset::Sum01 => "sum01",
            MatrixPreset::Sum23 => "sum23",
        }
    }
}

/// The preset that a user-facing name stands for, accepting the common aliases.
pub open spec fn spec_preset_from(s: Seq<char>) -> Option<MatrixPreset> {
    if s == "solo0"@ || s == "solo_0"@ || s == "Solo0"@ {
        Some(MatrixPreset::Solo0)
    } else if s == "solo1"@ || s == "solo_1"@ || s == "Solo1"@ {
        Some(MatrixPreset::Solo1)
    } else if s == "solo2"@ || s == "solo_2"@ || s == "Solo2"@ {
        Some(MatrixPreset::Solo2)
    } else if s == "solo3"@ || s == "solo_3"@ || s == "Solo3"@ {
        Some(MatrixPreset::Solo3)
    } else if s == "quad"@ || s == "Quad"@ {
        Some(MatrixPreset::Quad)
    } else if s == "sum01"@ || s == "Sum01"@ {
        Some(MatrixPreset::Sum01)
    } else if s == "sum23"@ || s == "Sum23"@ {
        Some(MatrixPreset::Sum23)
    } else {
        None
    }
}

/// Converts a user-facing string to a known preset.
pub fn preset_from_str(s: &str) -> (r: Option<MatrixPreset>)
    ensures
        r == spec_preset_from(s@),
{
    if text_eq(s, "solo0") || text_eq(s, "solo_0") || text_eq(s, "Solo0") {
        Some(MatrixPreset::Solo0)
    } else if text_eq(s, "solo1") || text_eq(s, "solo_1") || text_eq(s, "Solo1") {
        Some(MatrixPreset::Solo1)
    } else if text_eq(s, "solo2") || text_eq(s, "solo_2") || text_eq(s, "Solo2") {
        Some(MatrixPreset::Solo2)
    } else if text_eq(s, "solo3") || text_eq(s, "solo_3") || text_eq(s, "Solo3") {
        Some(MatrixPreset::Solo3)
    } else if text_eq(s, "quad") || text_eq(s, "Quad") {
        Some(MatrixPreset::Quad)
    } else if text_eq(s, "sum01") || text_eq(s, "Sum01") {
        Some(MatrixPreset::Sum01)
    } else if text_eq(s, "sum23") || text_eq(s, "Sum23") {
        Some(MatrixPreset::Sum23)
    } else {
        None
    }
}

/// A named scene that selects a preset.
#[derive(Debug, Clone)]
pub struct SceneDef {
    pub name: String,
    pub preset: MatrixPreset,
}

/// A named bank (collection of scenes).
#[derive(Debug, Clone)]
pub struct BankDef {
    pub name: String,
    pub scenes: Vec<SceneDef>,
}

/// A collection of banks.
#[derive(Debug, Clone)]
pub struct BankSet {
    pub banks: Vec<BankDef>,
}

impl View for SceneDef {
    type V = (Seq<char>, MatrixPreset);

    open spec fn view(&self) -> (Seq<char>, MatrixPreset) {
        (self.name@, self.preset)
    }
}

impl View for BankDef {
    type V = (Seq<char>, Seq<(Seq<char>, MatrixPreset)>);

    open spec fn view(&self) -> (Seq<char>, Seq<(Seq<char>, MatrixPreset)>) {
        (self.name@, self.scenes@.map_values(|s: SceneDef| s@))
    }
}

impl View for BankSet {
    type V = Seq<(Seq<char>, Seq<(Seq<char>, MatrixPreset)>)>;

    open spec fn view(&self) -> Seq<(Seq<char>, Seq<(Seq<char>, MatrixPreset)>)> {
        self.banks@.map_values(|b: BankDef| b@)
    }
}

/// One scene as written in a bank file: the preset is still a string.
#[derive(Debug, Clone)]
pub struct SceneEntry {
    pub name: String,
    pub preset: String,
}

/// One bank as written in a bank file.
#[derive(Debug, Clone)]
pub struct BankEntry {
    pub name: String,
    pub scenes: Vec<SceneEntry>,
}

/// The content of a bank file; `banks` is `None` where the file has no `banks` key.
#[derive(Debug, Clone)]
pub struct BankFile {
    pub banks: Option<Vec<BankEntry>>,
}

pub open spec fn scene_entry_view(s: SceneEntry) -> (Seq<char>, Seq<char>) {
    (s.name@, s.preset@)
}

pub open spec fn unknown_preset_message(scene: (Seq<char>, Seq<char>)) -> Seq<char> {
    "unknown preset '"@ + scene.1 + "' in scene '"@ + scene.0 + "'"@
}

/// The scenes of a bank with their presets resolved, or the message for the first unknown one.
pub open spec fn resolve_scenes(scenes: Seq<(Seq<char>, Seq<char>)>) -> Result<
    Seq<(Seq<char>, MatrixPreset)>,
    Seq<char>,
>
    decreases scenes.len(),
{
    if scenes.len() == 0 {
        Ok(seq![])
    } else {
        match resolve_scenes(scenes.drop_last()) {
            Err(m) => Err(m),
            Ok(prev) => match spec_preset_from(scenes.last().1) {
                None => Err(unknown_preset_message(scenes.last())),
                Some(p) => Ok(prev.push((scenes.last().0, p))),
            },
        }
    }
}

pub open spec fn bank_entry_view(b: BankEntry) -> (Seq<char>, Seq<(Seq<char>, Seq<char>)>) {
    (b.name@, b.scenes@.map_values(|s: SceneEntry| scene_entry_view(s)))
}

/// The banks with at least one scene, resolved, or the message for the first unknown preset.
pub open spec fn resolve_banks(banks: Seq<(Seq<char>, Seq<(Seq<char>, Seq<char>)>)>) -> Result<
    Seq<(Seq<char>, Seq<(Seq<char>, MatrixPreset)>)>,
    Seq<char>,
>
    decreases banks.len(),
{
    if banks.len() == 0 {
        Ok(seq![])
    } else {
        match resolve_banks(banks.drop_last()) {
            Err(m) => Err(m),
            Ok(prev) => if banks.last().1.len() == 0 {
                Ok(prev)
            } else {
                match resolve_scenes(banks.last().1) {
                    Err(m) => Err(m),
                    Ok(scenes) => Ok(prev.push((banks.last().0, scenes))),
                }
            },
        }
    }
}

/// What loading a bank file yields: the bank set, or the message of the error.
pub open spec fn load_banks(file: Option<Seq<(Seq<char>, Seq<(Seq<char>, Seq<char>)>)>>) -> Result<
    Seq<(Seq<char>, Seq<(Seq<char>, MatrixPreset)>)>,
    Seq<char>,
> {
    match file {
        None => Err("missing key 'banks'"@),
        Some(banks) => if banks.len() == 0 {
            Err("json has no banks"@)
        } else {
            match resolve_banks(banks) {
                Err(m) => Err(m),
                Ok(r) => if r.len() == 0 {
                    Err("json banks had no valid scenes"@)
                } else {
                    Ok(r)
                },
            }
        },
    }
}

impl BankFile {
    pub open spec fn spec_banks(self) -> Option<Seq<(Seq<char>, Seq<(Seq<char>, Seq<char>)>)>> {
        match self.banks {
            None => None,
            Some(v) => Some(v@.map_values(|b: BankEntry| bank_entry_view(b))),
        }
    }
}

fn scene_from_entry(s: &SceneEntry) -> (r: Result<SceneDef, String>)
    ensures
        match spec_preset_from(s.preset@) {
            None => r is Err && r->Err_0@ == unknown_preset_message(scene_entry_view(*s)),
            Some(p) => r is Ok && r->Ok_0@ == (s.name@, p),
        },
{
    match preset_from_str(s.preset.as_str()) {
        None => {
            let mut m = String::from_str("unknown preset '");
            m.append(s.preset.as_str());
            m.append("' in scene '");
            m.append(s.name.as_str());
            m.append("'");
            Err(m)
        },
        Some(p) => Ok(SceneDef { name: s.name.clone(), preset: p }),
    }
}

fn bank_from_entry(b: &BankEntry) -> (r: Result<BankDef, String>)
    ensures
        match resolve_scenes(bank_entry_view(*b).1) {
            Err(m) => r is Err && r->Err_0@ == m,
            Ok(sc) => r is Ok && r->Ok_0@ == (b.name@, sc),
        },
{
    let ghost views = bank_entry_view(*b).1;
    let mut scenes: Vec<SceneDef> = Vec::new();
    let mut k: usize = 0;
    assert(views.subrange(0, 0) =~= Seq::<(Seq<char>, Seq<char>)>::empty());
    assert(scenes@.map_values(|s: SceneDef| s@) =~= Seq::<(Seq<char>, MatrixPreset)>::empty());
    while k < b.scenes.len()
        invariant
            0 <= k <= b.scenes@.len(),
            views == b.scenes@.map_values(|s: SceneEntry| scene_entry_view(s)),
            resolve_scenes(views.subrange(0, k as int)) == Ok::<
                Seq<(Seq<char>, MatrixPreset)>,
                Seq<char>,
            >(scenes@.map_values(|s: SceneDef| s@)),
        decreases b.scenes@.len() - k,
    {
        assert(views.subrange(0, k + 1).drop_last() =~= views.subrange(0, k as int));
        match scene_from_entry(&b.scenes[k]) {
            Err(m) => {
                proof {
                    assert(resolve_scenes(views.subrange(0, k + 1)) is Err);
                    lemma_resolve_scenes_err_prefix(views, k + 1);
                    assert(views.subrange(0, views.len() as int) =~= views);
                }
                return Err(m);
            },
            Ok(s) => {
                scenes.push(s);
                assert(scenes@.map_values(|s: SceneDef| s@) =~= resolve_scenes(
                    views.subrange(0, k + 1),
                )->Ok_0);
            },
        }
        k = k + 1;
    }
    assert(views.subrange(0, views.len() as int) =~= views);
    let r = BankDef { name: b.name.clone(), scenes };
    Ok(r)
}

/// Once a prefix of the scenes fails to resolve, every longer prefix fails with that message.
proof fn lemma_resolve_scenes_err_prefix(scenes: Seq<(Seq<char>, Seq<char>)>, k: int)
    requires
        0 <= k <= scenes.len(),
        resolve_scenes(scenes.subrange(0, k)) is Err,
    ensures
        resolve_scenes(scenes) == resolve_scenes(scenes.subrange(0, k)),
    decreases scenes.len() - k,
{
    if k < scenes.len() {
        assert(scenes.subrange(0, k + 1).drop_last() =~= scenes.subrange(0, k));
        lemma_resolve_scenes_err_prefix(scenes, k + 1);
    } else {
        assert(scenes.subrange(0, k) =~= scenes);
    }
}

/// Once a prefix of the banks fails to resolve, every longer prefix fails with that message.
proof fn lemma_resolve_banks_err_prefix(banks: Seq<(Seq<char>, Seq<(Seq<char>, Seq<char>)>)>, k: int)
    requires
        0 <= k <= banks.len(),
        resolve_banks(banks.subrange(0, k)) is Err,
    ensures
        resolve_banks(banks) == resolve_banks(banks.subrange(0, k)),
    decreases banks.len() - k,
{
    if k < banks.len() {
        assert(banks.subrange(0, k + 1).drop_last() =~= banks.subrange(0, k));
        lemma_resolve_banks_err_prefix(banks, k + 1);
    } else {
        assert(banks.subrange(0, k) =~= banks);
    }
}

pub open spec fn builtin_banks_view() -> Seq<(Seq<char>, Seq<(Seq<char>, MatrixPreset)>)> {
    seq![
        (
            "Basic"@,
            seq![
                ("solo_0"@, MatrixPreset::Solo0),
                ("solo_1"@, MatrixPreset::Solo1),
                ("solo_2"@, MatrixPreset::Solo2),
                ("solo_3"@, MatrixPreset::Solo3),
                ("quad"@, MatrixPreset::Quad),
                ("sum01"@, MatrixPreset::Sum01),
                ("sum23"@, MatrixPreset::Sum23),
            ],
        ),
        (
            "DJ Cuts"@,
            seq![
                ("A"@, MatrixPreset::Solo0),
                ("B"@, MatrixPreset::Solo1),
                ("C"@, MatrixPreset::Solo2),
                ("D"@, MatrixPreset::Solo3),
                ("AB"@, MatrixPreset::Sum01),
                ("CD"@, MatrixPreset::Sum23),
                ("ALL"@, MatrixPreset::Quad),
            ],
        ),
    ]
}

fn scene(name: &str, preset: MatrixPreset) -> (r: SceneDef)
    ensures
        r@ == (name@, preset),
{
    SceneDef { name: String::from_str(name), preset }
}

impl BankSet {
    /// Built-in banks for the matrix mixer (the fallback when no bank file is given).
    pub fn builtin_matrix_banks() -> (r: BankSet)
        ensures
            r@ == builtin_banks_view(),
    {
        let mut basic_scenes: Vec<SceneDef> = Vec::new();
        basic_scenes.push(scene("solo_0", MatrixPreset::Solo0));
        basic_scenes.push(scene("solo_1", MatrixPreset::Solo1));
        basic_scenes.push(scene("solo_2", MatrixPreset::Solo2));
        basic_scenes.push(scene("solo_3", MatrixPreset::Solo3));
        basic_scenes.push(scene("quad", MatrixPreset::Quad));
        basic_scenes.push(scene("sum01", MatrixPreset::Sum01));
        basic_scenes.push(scene("sum23", MatrixPreset::Sum23));
        let basic = BankDef { name: String::from_str("Basic"), scenes: basic_scenes };
        let mut dj_scenes: Vec<SceneDef> = Vec::new();
        dj_scenes.push(scene("A", MatrixPreset::Solo0));
        dj_scenes.push(scene("B", MatrixPreset::Solo1));
        dj_scenes.push(scene("C", MatrixPreset::Solo2));
        dj_scenes.push(scene("D", MatrixPreset::Solo3));
        dj_scenes.push(scene("AB", MatrixPreset::Sum01));
        dj_scenes.push(scene("CD", MatrixPreset::Sum23));
        dj_scenes.push(scene("ALL", MatrixPreset::Quad));
        let dj_cuts = BankDef { name: String::from_str("DJ Cuts"), scenes: dj_scenes };
        assert(basic@.1 =~= builtin_banks_view()[0].1);
        assert(dj_cuts@.1 =~= builtin_banks_view()[1].1);
        let mut banks: Vec<BankDef> = Vec::new();
        banks.push(basic);
        banks.push(dj_cuts);
        let r = BankSet { banks };
        assert(r@ =~= builtin_banks_view());
        r
    }

    /// Builds a bank set from the content of a bank file. Banks without scenes are dropped;
    /// a file without the `banks` key, with no banks, with an unknown preset, or with no bank
    /// left is rejected with a message that says so.
    pub fn from_bank_file(file: &BankFile) -> (r: Result<BankSet, String>)
        ensures
            match load_banks(file.spec_banks()) {
                Err(m) => r is Err && r->Err_0@ == m,
                Ok(b) => r is Ok && r->Ok_0@ == b,
            },
    {
        let entries = match &file.banks {
            None => {
                return Err(String::from_str("missing key 'banks'"));
            },
            Some(v) => v,
        };
        if entries.len() == 0 {
            return Err(String::from_str("json has no banks"));
        }
        let ghost views = entries@.map_values(|b: BankEntry| bank_entry_view(b));
        assert(file.spec_banks()->Some_0 =~= views);
        let mut banks: Vec<BankDef> = Vec::new();
        let mut k: usize = 0;
        assert(views.subrange(0, 0) =~= Seq::<(Seq<char>, Seq<(Seq<char>, Seq<char>)>)>::empty());
        assert(banks@.map_values(|b: BankDef| b@) =~= Seq::<
            (Seq<char>, Seq<(Seq<char>, MatrixPreset)>),
        >::empty());
        while k < entries.len()
            invariant
                0 <= k <= entries@.len(),
                views == entries@.map_values(|b: BankEntry| bank_entry_view(b)),
                file.spec_banks() == Some(views),
                views.len() > 0,
                resolve_banks(views.subrange(0, k as int)) == Ok::<
                    Seq<(Seq<char>, Seq<(Seq<char>, MatrixPreset)>)>,
                    Seq<char>,
                >(banks@.map_values(|b: BankDef| b@)),
            decreases entries@.len() - k,
        {
            assert(views.subrange(0, k + 1).drop_last() =~= views.subrange(0, k as int));
            let b = &entries[k];
            if b.scenes.len() > 0 {
                match bank_from_entry(b) {
                    Err(m) => {
                        proof {
                            assert(views.subrange(0, k + 1).last() == bank_entry_view(*b));
                            assert(resolve_banks(views.subrange(0, k + 1)) == Err::<
                                Seq<(Seq<char>, Seq<(Seq<char>, MatrixPreset)>)>,
                                Seq<char>,
                            >(m@));
                            lemma_resolve_banks_err_prefix(views, k + 1);
                            assert(views.subrange(0, views.len() as int) =~= views);
                        }
                        return Err(m);
                    },
                    Ok(def) => {
                        banks.push(def);
                        assert(banks@.map_values(|b: BankDef| b@) =~= resolve_banks(
                            views.subrange(0, k + 1),
                        )->Ok_0);
                    },
                }
            }
            k = k + 1;
        }
        assert(views.subrange(0, views.len() as int) =~= views);
        if banks.len() == 0 {
            return Err(String::from_str("json banks had no valid scenes"));
        }
        Ok(BankSet { banks })
    }
}

} // verus!
