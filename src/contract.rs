use vstd::prelude::*;
use vstd::string::StringExecFns;

use crate::engine::renders;
use crate::graph::{NodeClass, NodeId, NodeKind};
use crate::text::{decimal, decimal_text, text_eq};

verus! {

/// Whether nodes of this kind run a shader of their own: the Processor and Mixer nodes.
pub fn is_render_pass(kind: NodeKind) -> (r: bool)
    ensures
        r == renders(kind),
{
    let c = kind.class();
    c == NodeClass::Processor || c == NodeClass::Mixer
}

/// The texture channel that an input port of this name is bound to.
pub open spec fn channel_for_name(name: Seq<char>) -> Option<u32> {
    if name == "in"@ || name == "in0"@ || name == "a"@ || name == "src"@ {
        Some(0)
    } else if name == "in1"@ || name == "b"@ || name == "src1"@ {
        Some(1)
    } else if name == "in2"@ || name == "c"@ || name == "src2"@ {
        Some(2)
    } else if name == "in3"@ || name == "d"@ || name == "src3"@ {
        Some(3)
    } else {
        None
    }
}

/// Maps an input port name to the texture channel its image is bound to; the same map holds
/// for every kind.
pub fn input_channel_for(kind: NodeKind, port_name: &str) -> (r: Option<u32>)
    ensures
        r == channel_for_name(port_name@),
{
    if text_eq(port_name, "in") || text_eq(port_name, "in0") || text_eq(port_name, "a")
        || text_eq(port_name, "src") {
        Some(0)
    } else if text_eq(port_name, "in1") || text_eq(port_name, "b") || text_eq(port_name, "src1") {
        Some(1)
    } else if text_eq(port_name, "in2") || text_eq(port_name, "c") || text_eq(port_name, "src2") {
        Some(2)
    } else if text_eq(port_name, "in3") || text_eq(port_name, "d") || text_eq(port_name, "src3") {
        Some(3)
    } else {
        None
    }
}

pub open spec fn known_uniform(name: Seq<char>) -> bool {
    name == "uTime"@ || name == "uResolution"@ || name == "uMouse"@ || name == "uSeed"@
        || name == "uParam0"@ || name == "uParam1"@ || name == "uParam2"@ || name == "uParam3"@
}

/// Whether a uniform name belongs to the set that backends bind by name.
pub fn uniform_name_is_known(name: &str) -> (r: bool)
    ensures
        r == known_uniform(name@),
{
    text_eq(name, "uTime") || text_eq(name, "uResolution") || text_eq(name, "uMouse")
        || text_eq(name, "uSeed") || text_eq(name, "uParam0") || text_eq(name, "uParam1")
        || text_eq(name, "uParam2") || text_eq(name, "uParam3")
}

pub const BUILTIN_VERT: &'static str = "
        #version 330 core
        layout(location = 0) in vec2 aPos;
        out vec2 vUV;
        void main() {
            vec2 pos = aPos;
            vUV = 0.5 * (pos + 1.0);
            gl_Position = vec4(pos, 0.0, 1.0);
        }
    ";

pub const NOISE_FRAG: &'static str = "
                #version 330 core
                in vec2 vUV;
                out vec4 oColor;
                uniform float uTime;
                void main() {
                    float n = fract(sin(dot(vUV * 123.4 + uTime, vec2(127.1, 311.7))) * 43758.5453);
                    oColor = vec4(vec3(n), 1.0);
                }
            ";

pub const PASSTHROUGH_FRAG: &'static str = "
                #version 330 core
                in vec2 vUV;
                out vec4 oColor;
                uniform sampler2D uTex0;
                void main() {
                    oColor = texture(uTex0, vUV);
                }
            ";

/// A vertex and fragment shader pair.
#[derive(Debug, Clone)]
pub struct BuiltinShader {
    pub vert: String,
    pub frag: String,
}

/// The built-in (vertex, fragment) shader of a kind: a noise pattern for `ShaderPass`, a
/// passthrough of channel 0 for `ColorCorrect`, `Blur` and `Keyer`.
pub open spec fn builtin_shader(kind: NodeKind) -> Option<(Seq<char>, Seq<char>)> {
    match kind {
        NodeKind::ShaderPass => Some((BUILTIN_VERT@, NOISE_FRAG@)),
        NodeKind::ColorCorrect | NodeKind::Blur | NodeKind::Keyer => Some((BUILTIN_VERT@, PASSTHROUGH_FRAG@)),
        _ => None,
    }
}

fn passthrough(vert: &str) -> (r: BuiltinShader)
    ensures
        r.vert@ == vert@,
        r.frag@ == PASSTHROUGH_FRAG@,
{
    BuiltinShader { vert: String::from_str(vert), frag: String::from_str(PASSTHROUGH_FRAG) }
}

pub fn builtin_shader_for(kind: NodeKind) -> (r: Option<(String, String)>)
    ensures
        match builtin_shader(kind) {
            Some((v, f)) => r is Some && r->Some_0.0@ == v && r->Some_0.1@ == f,
            None => r is None,
        },
{
    let vert = String::from_str(BUILTIN_VERT);
    match kind {
        NodeKind::ShaderPass => Some((vert, String::from_str(NOISE_FRAG))),
        NodeKind::ColorCorrect | NodeKind::Blur | NodeKind::Keyer => {
            let s = passthrough(vert.as_str());
            Some((s.vert, s.frag))
        },
        _ => None,
    }
}

/// How the outputs of a graph are addressed: the single unnamed one is the primary ("main"),
/// the others by their explicit names.
#[derive(Debug, Clone)]
pub struct OutputNamePlan {
    pub primary: NodeId,
    /// Explicit outputs: (name, node), in the order they were given.
    pub named: Vec<(String, NodeId)>,
}

pub open spec fn name_of(e: (NodeId, Option<&str>)) -> Option<Seq<char>> {
    match e.1 {
        Some(s) => Some(s@),
        None => None,
    }
}

/// The entries with their names as character sequences.
pub open spec fn entries_view(es: Seq<(NodeId, Option<&str>)>) -> Seq<(NodeId, Option<Seq<char>>)> {
    es.map_values(|e: (NodeId, Option<&str>)| (e.0, name_of(e)))
}

/// Entry `i` asks for the reserved name "main".
pub open spec fn reserved_at(vs: Seq<(NodeId, Option<Seq<char>>)>, i: int) -> bool {
    vs[i].1 == Some("main"@)
}

/// Entry `i` repeats the name of an earlier entry.
pub open spec fn duplicate_at(vs: Seq<(NodeId, Option<Seq<char>>)>, i: int) -> bool {
    &&& vs[i].1 is Some
    &&& exists|j: int| 0 <= j < i && (#[trigger] vs[j]).1 == vs[i].1
}

pub open spec fn bad_at(vs: Seq<(NodeId, Option<Seq<char>>)>, i: int) -> bool {
    reserved_at(vs, i) || duplicate_at(vs, i)
}

/// Entry `i` is the first one whose name is rejected.
pub open spec fn first_bad(vs: Seq<(NodeId, Option<Seq<char>>)>, i: int) -> bool {
    &&& 0 <= i < vs.len()
    &&& bad_at(vs, i)
    &&& forall|j: int| 0 <= j < i ==> !#[trigger] bad_at(vs, j)
}

pub open spec fn count_unnamed(vs: Seq<(NodeId, Option<Seq<char>>)>) -> nat
    decreases vs.len(),
{
    if vs.len() == 0 {
        0
    } else {
        count_unnamed(vs.drop_last()) + if vs.last().1 is None {
            1nat
        } else {
            0nat
        }
    }
}

pub open spec fn first_unnamed(vs: Seq<(NodeId, Option<Seq<char>>)>) -> Option<NodeId>
    decreases vs.len(),
{
    if vs.len() == 0 {
        None
    } else {
        match first_unnamed(vs.drop_last()) {
            Some(n) => Some(n),
            None => if vs.last().1 is None {
                Some(vs.last().0)
            } else {
                None
            },
        }
    }
}

/// The explicitly named entries, in order, as (name, node).
pub open spec fn named_entries(vs: Seq<(NodeId, Option<Seq<char>>)>) -> Seq<(Seq<char>, NodeId)>
    decreases vs.len(),
{
    if vs.len() == 0 {
        seq![]
    } else {
        match vs.last().1 {
            Some(s) => named_entries(vs.drop_last()).push((s, vs.last().0)),
            None => named_entries(vs.drop_last()),
        }
    }
}

/// What naming the outputs yields: the primary node and the named entries, or the message of
/// the first rule that the entries break.
pub open spec fn names_outcome(vs: Seq<(NodeId, Option<Seq<char>>)>) -> Result<
    (NodeId, Seq<(Seq<char>, NodeId)>),
    Seq<char>,
> {
    if vs.len() == 0 {
        Err("no PixelsOut nodes in graph"@)
    } else if exists|i: int| first_bad(vs, i) {
        let i = choose|i: int| first_bad(vs, i);
        if reserved_at(vs, i) {
            Err("output name 'main' is reserved"@)
        } else {
            Err("duplicate output name '"@ + vs[i].1->Some_0 + "'"@)
        }
    } else if count_unnamed(vs) != 1 {
        Err("expected exactly 1 unnamed PixelsOut (primary), found "@ + decimal(count_unnamed(vs)))
    } else {
        Ok((first_unnamed(vs)->Some_0, named_entries(vs)))
    }
}

/// The node that the first entry named `name` points at.
pub open spec fn lookup_named(named: Seq<(Seq<char>, NodeId)>, name: Seq<char>) -> Option<NodeId>
    decreases named.len(),
{
    if named.len() == 0 {
        None
    } else if named[0].0 == name {
        Some(named[0].1)
    } else {
        lookup_named(named.drop_first(), name)
    }
}

proof fn lemma_first_bad_unique(vs: Seq<(NodeId, Option<Seq<char>>)>, i: int)
    requires
        first_bad(vs, i),
    ensures
        (choose|j: int| first_bad(vs, j)) == i,
{
    let j = choose|j: int| first_bad(vs, j);
    if j < i {
        assert(!bad_at(vs, j));
    } else if i < j {
        assert(!bad_at(vs, i));
    }
}

proof fn lemma_count_first(vs: Seq<(NodeId, Option<Seq<char>>)>)
    ensures
        (count_unnamed(vs) > 0) == (first_unnamed(vs) is Some),
    decreases vs.len(),
{
    if vs.len() > 0 {
        lemma_count_first(vs.drop_last());
    }
}

proof fn lemma_named_entries_from(vs: Seq<(NodeId, Option<Seq<char>>)>, a: int)
    requires
        0 <= a < named_entries(vs).len(),
    ensures
        exists|j: int| 0 <= j < vs.len() && vs[j].1 == Some(#[trigger] named_entries(vs)[a].0),
    decreases vs.len(),
{
    let prev = named_entries(vs.drop_last());
    match vs.last().1 {
        Some(s) => {
            if a < prev.len() {
                lemma_named_entries_from(vs.drop_last(), a);
                let j = choose|j: int| 0 <= j < vs.drop_last().len() && vs.drop_last()[j].1 == Some(#[trigger] prev[a].0);
                assert(vs[j] == vs.drop_last()[j]);
            } else {
                assert(vs[vs.len() - 1].1 == Some(named_entries(vs)[a].0));
            }
        },
        None => {
            lemma_named_entries_from(vs.drop_last(), a);
            let j = choose|j: int| 0 <= j < vs.drop_last().len() && vs.drop_last()[j].1 == Some(#[trigger] prev[a].0);
            assert(vs[j] == vs.drop_last()[j]);
        },
    }
}

/// Where some entry breaks a naming rule, a first one does.
pub proof fn lemma_bad_has_first(vs: Seq<(NodeId, Option<Seq<char>>)>, i: int)
    requires
        0 <= i < vs.len(),
        bad_at(vs, i),
    ensures
        exists|f: int| first_bad(vs, f),
    decreases i,
{
    if exists|j: int| 0 <= j < i && #[trigger] bad_at(vs, j) {
        let j = choose|j: int| 0 <= j < i && #[trigger] bad_at(vs, j);
        lemma_bad_has_first(vs, j);
    } else {
        assert(first_bad(vs, i));
    }
}

/// Entries that break no naming rule give distinct names, none of them "main".
pub proof fn lemma_named_entries_distinct(vs: Seq<(NodeId, Option<Seq<char>>)>)
    requires
        forall|j: int| 0 <= j < vs.len() ==> !#[trigger] bad_at(vs, j),
    ensures
        forall|a: int| 0 <= a < named_entries(vs).len() ==> (#[trigger] named_entries(vs)[a]).0 != "main"@,
        forall|a: int, b: int| 0 <= a < b < named_entries(vs).len() ==> (#[trigger] named_entries(vs)[a]).0 != (#[trigger] named_entries(vs)[b]).0,
    decreases vs.len(),
{
    if vs.len() > 0 {
        let d = vs.drop_last();
        assert forall|j: int| 0 <= j < d.len() implies !#[trigger] bad_at(d, j) by {
            assert(!bad_at(vs, j));
            assert(d[j] == vs[j]);
            if duplicate_at(d, j) {
                let t = choose|t: int| 0 <= t < j && (#[trigger] d[t]).1 == d[j].1;
                assert(d[t] == vs[t]);
            }
        }
        lemma_named_entries_distinct(d);
        let prev = named_entries(d);
        let last = vs.len() - 1;
        assert(!bad_at(vs, last));
        match vs.last().1 {
            Some(s) => {
                let all = named_entries(vs);
                assert(all == prev.push((s, vs.last().0)));
                assert forall|a: int| 0 <= a < prev.len() implies (#[trigger] prev[a]).0 != s by {
                    lemma_named_entries_from(d, a);
                    let j = choose|j: int| 0 <= j < d.len() && d[j].1 == Some(#[trigger] prev[a].0);
                    assert(d[j] == vs[j]);
                    if prev[a].0 == s {
                        assert(vs[j].1 == vs[last].1);
                        assert(duplicate_at(vs, last));
                    }
                }
                assert forall|a: int, b: int| 0 <= a < b < all.len() implies (#[trigger] all[a]).0 != (#[trigger] all[b]).0 by {
                    if b == prev.len() {
                        assert(all[a] == prev[a]);
                    } else {
                        assert(all[a] == prev[a] && all[b] == prev[b]);
                    }
                }
                assert forall|a: int| 0 <= a < all.len() implies (#[trigger] all[a]).0 != "main"@ by {
                    if a < prev.len() {
                        assert(all[a] == prev[a]);
                    }
                }
            },
            None => {},
        }
    }
}

impl OutputNamePlan {
    pub open spec fn spec_named(self) -> Seq<(Seq<char>, NodeId)> {
        self.named@.map_values(|e: (String, NodeId)| (e.0@, e.1))
    }

    /// The node of the output with this explicit name.
    pub fn get(&self, name: &str) -> (r: Option<NodeId>)
        ensures
            r == lookup_named(self.spec_named(), name@),
    {
        let ghost all = self.spec_named();
        let mut k: usize = 0;
        assert(all.subrange(0, all.len() as int) =~= all);
        while k < self.named.len()
            invariant
                0 <= k <= self.named@.len(),
                all == self.spec_named(),
                lookup_named(all, name@) == lookup_named(
                    all.subrange(k as int, all.len() as int),
                    name@,
                ),
            decreases self.named@.len() - k,
        {
            proof {
                let rest = all.subrange(k as int, all.len() as int);
                assert(rest.drop_first() =~= all.subrange(k + 1, all.len() as int));
            }
            if text_eq(self.named[k].0.as_str(), name) {
                return Some(self.named[k].1);
            }
            k = k + 1;
        }
        None
    }
}

/// Whether an entry before `i` carries the name `n`.
fn name_seen_before(es: &[(NodeId, Option<&str>)], i: usize, n: &str) -> (r: bool)
    requires
        i <= es@.len(),
    ensures
        r == exists|j: int| 0 <= j < i && (#[trigger] entries_view(es@)[j]).1 == Some(n@),
{
    let mut j: usize = 0;
    while j < i
        invariant
            0 <= j <= i <= es@.len(),
            forall|k: int| 0 <= k < j ==> (#[trigger] entries_view(es@)[k]).1 != Some(n@),
        decreases i - j,
    {
        if let Some(m) = es[j].1 {
            if text_eq(m, n) {
                assert(entries_view(es@)[j as int].1 == Some(n@));
                return true;
            }
        }
        j = j + 1;
    }
    false
}

/// Checks the naming of a graph's outputs: there must be at least one, exactly one without a
/// name (the primary), none named "main", and no name used twice.
pub fn plan_output_names(pixels_out: &[(NodeId, Option<&str>)]) -> (r: Result<OutputNamePlan, String>)
    ensures
        match names_outcome(entries_view(pixels_out@)) {
            Ok((p, named)) => r is Ok && r->Ok_0.primary == p && r->Ok_0.spec_named() == named,
            Err(m) => r is Err && r->Err_0@ == m,
        },
{
    let ghost vs = entries_view(pixels_out@);
    if pixels_out.len() == 0 {
        return Err(String::from_str("no PixelsOut nodes in graph"));
    }
    let mut count: usize = 0;
    let mut primary: Option<NodeId> = None;
    let mut named: Vec<(String, NodeId)> = Vec::new();
    let mut i: usize = 0;
    assert(vs.subrange(0, 0) =~= Seq::<(NodeId, Option<Seq<char>>)>::empty());
    assert(named@.map_values(|e: (String, NodeId)| (e.0@, e.1)) =~= Seq::<
        (Seq<char>, NodeId),
    >::empty());
    while i < pixels_out.len()
        invariant
            0 <= i <= vs.len(),
            vs == entries_view(pixels_out@),
            vs.len() > 0,
            forall|j: int| 0 <= j < i ==> !#[trigger] bad_at(vs, j),
            count as nat == count_unnamed(vs.subrange(0, i as int)),
            count <= i,
            primary == first_unnamed(vs.subrange(0, i as int)),
            named@.map_values(|e: (String, NodeId)| (e.0@, e.1)) == named_entries(
                vs.subrange(0, i as int),
            ),
        decreases vs.len() - i,
    {
        assert(vs.subrange(0, i + 1).drop_last() =~= vs.subrange(0, i as int));
        assert(vs.subrange(0, i + 1).last() == vs[i as int]);
        let (id, name) = pixels_out[i];
        match name {
            None => {
                count = count + 1;
                if primary.is_none() {
                    primary = Some(id);
                }
            },
            Some(n) => {
                if text_eq(n, "main") {
                    proof {
                        assert(first_bad(vs, i as int));
                        lemma_first_bad_unique(vs, i as int);
                    }
                    return Err(String::from_str("output name 'main' is reserved"));
                }
                if name_seen_before(pixels_out, i, n) {
                    proof {
                        assert(first_bad(vs, i as int));
                        lemma_first_bad_unique(vs, i as int);
                    }
                    let mut m = String::from_str("duplicate output name '");
                    m.append(n);
                    m.append("'");
                    return Err(m);
                }
                assert(!bad_at(vs, i as int));
                named.push((String::from_str(n), id));
                assert(named@.map_values(|e: (String, NodeId)| (e.0@, e.1)) =~= named_entries(
                    vs.subrange(0, i + 1),
                ));
            },
        }
        i = i + 1;
    }
    assert(vs.subrange(0, vs.len() as int) =~= vs);
    assert(!exists|i: int| first_bad(vs, i));
    if count != 1 {
        let mut m = String::from_str("expected exactly 1 unnamed PixelsOut (primary), found ");
        let d = decimal_text(count);
        m.append(d.as_str());
        return Err(m);
    }
    proof {
        lemma_count_first(vs);
    }
    let primary = match primary {
        Some(p) => p,
        None => {
            return Err(String::from_str("no PixelsOut nodes in graph"));
        },
    };
    Ok(OutputNamePlan { primary, named })
}

} // verus!
