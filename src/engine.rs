use vstd::prelude::*;
use vstd::std_specs::hash::DefaultHasherAdditionalSpecFns;
use vstd::string::StringExecFns;
use vstd::utf8::encode_utf8;

use std::collections::hash_map::DefaultHasher;
use std::hash::Hasher;

use crate::error::{failed_with, EngineError};
use crate::graph::{kind_class, NodeClass, NodeId, NodeKind};
use crate::runtime::MixerOp;

verus! {

pub const FULLSCREEN_VERT: &'static str = "#version 330 core
layout (location = 0) in vec2 a_pos;
layout (location = 1) in vec2 a_uv;
out vec2 v_uv;
void main() {
    v_uv = a_uv;
    gl_Position = vec4(a_pos, 0.0, 1.0);
}
";

pub const TEX_INPUT_FRAG: &'static str = "#version 330 core
in vec2 v_uv;
out vec4 o;
uniform sampler2D iChannel0;
void main(){ o = texture(iChannel0, v_uv); }
";

pub const CROSSFADE_FRAG: &'static str = "#version 330 core
in vec2 v_uv;
out vec4 FragColor;

uniform sampler2D uInput0;
uniform sampler2D uInput1;
uniform float uMix;

void main() {
    vec4 a = texture(uInput0, v_uv);
    vec4 b = texture(uInput1, v_uv);
    FragColor = mix(a, b, uMix);
}
";

pub const MATRIXMIX4_FRAG: &'static str = "#version 330 core
in vec2 v_uv;
out vec4 FragColor;

uniform sampler2D uInput0;
uniform sampler2D uInput1;
uniform sampler2D uInput2;
uniform sampler2D uInput3;
uniform vec4 uWeights;

void main() {
    vec4 a = texture(uInput0, v_uv);
    vec4 b = texture(uInput1, v_uv);
    vec4 c = texture(uInput2, v_uv);
    vec4 d = texture(uInput3, v_uv);
    FragColor = a * uWeights.x + b * uWeights.y + c * uWeights.z + d * uWeights.w;
}
";

/// The fragment shader of a built-in mixer operation.
pub open spec fn mixer_frag(op: MixerOp) -> Seq<char> {
    match op {
        MixerOp::MatrixMix4 => MATRIXMIX4_FRAG@,
        _ => CROSSFADE_FRAG@,
    }
}

pub fn builtin_mixer_frag(op: MixerOp) -> (r: &'static str)
    ensures
        r@ == mixer_frag(op),
{
    match op {
        MixerOp::Crossfade => CROSSFADE_FRAG,
        MixerOp::MatrixMix4 => MATRIXMIX4_FRAG,
        _ => CROSSFADE_FRAG,
    }
}

pub open spec fn mixer_op_name(op: MixerOp) -> Seq<char> {
    match op {
        MixerOp::Crossfade => "Crossfade"@,
        MixerOp::Add => "Add"@,
        MixerOp::Multiply => "Multiply"@,
        MixerOp::MatrixMix4 => "MatrixMix4"@,
    }
}

pub(crate) fn mixer_op_name_text(op: MixerOp) -> (r: &'static str)
    ensures
        r@ == mixer_op_name(op),
{
    match op {
        MixerOp::Crossfade => "Crossfade",
        MixerOp::Add => "Add",
        MixerOp::Multiply => "Multiply",
        MixerOp::MatrixMix4 => "MatrixMix4",
    }
}

/// Vertex and fragment source of one shader program.
#[derive(Debug, Clone)]
pub struct ShaderSource {
    pub vert: String,
    pub frag: String,
    /// Optional human-friendly origin (path or label) for logs.
    pub origin: Option<String>,
}

impl View for ShaderSource {
    type V = (Seq<char>, Seq<char>, Option<Seq<char>>);

    open spec fn view(&self) -> (Seq<char>, Seq<char>, Option<Seq<char>>) {
        (
            self.vert@,
            self.frag@,
            match self.origin {
                Some(o) => Some(o@),
                None => None,
            },
        )
    }
}

impl ShaderSource {
    /// A copy of this source.
    pub fn duplicate(&self) -> (r: ShaderSource)
        ensures
            r@ == self@,
    {
        let origin = match &self.origin {
            Some(o) => Some(o.clone()),
            None => None,
        };
        ShaderSource { vert: self.vert.clone(), frag: self.frag.clone(), origin }
    }
}

/// The integer part of the per-frame context: the requested resolution and the frame counter.
#[derive(Debug, Clone, Copy)]
pub struct FrameCtx {
    pub width: i32,
    pub height: i32,
    pub frame: u64,
}

/// A render target (framebuffer with a sampleable image) owned by the runtime state.
#[derive(Debug, Clone, Copy, PartialEq, Eq, Hash, Structural)]
pub struct TargetId(pub u32);

/// A compiled shader program owned by the runtime state.
#[derive(Debug, Clone, Copy, PartialEq, Eq, Hash, Structural)]
pub struct ProgramId(pub u32);

/// An image that a pass can sample: the image of a render target, or one the host supplies.
#[derive(Debug, Clone, Copy, PartialEq, Eq, Hash, Structural)]
pub enum ImageRef {
    Target(TargetId),
    Host(u32),
}

/// A stream image supplied by the host for a streaming source node.
#[derive(Debug, Clone, Copy, PartialEq, Eq, Hash, Structural)]
pub struct HostImage {
    pub image: u32,
    pub width: i32,
    pub height: i32,
}

/// Per-node runtime configuration that the engine reads; rebuilt by the host each frame.
#[derive(Debug, Clone)]
pub struct NodeProps {
    /// Shader overrides for render-pass nodes, and shader text for `ShaderSource` nodes.
    pub shader_sources: Vec<(NodeId, ShaderSource)>,
    /// Explicit names of `PixelsOut` nodes.
    pub output_names: Vec<(NodeId, String)>,
    /// Host images for `TextureInputPass` nodes.
    pub texture_inputs: Vec<(NodeId, u32)>,
    /// Latest decoded images of `VideoDecodeSource` nodes.
    pub stream_images: Vec<(NodeId, HostImage)>,
}

/// The value of the first entry for node `n`.
pub open spec fn entry_for<T>(entries: Seq<(NodeId, T)>, n: NodeId) -> Option<T>
    decreases entries.len(),
{
    if entries.len() == 0 {
        None
    } else if entries[0].0 == n {
        Some(entries[0].1)
    } else {
        entry_for(entries.drop_first(), n)
    }
}

/// The first entry for node `n`.
pub fn find_entry<T>(entries: &Vec<(NodeId, T)>, n: NodeId) -> (r: Option<&T>)
    ensures
        match entry_for(entries@, n) {
            Some(v) => r is Some && *r->Some_0 == v,
            None => r is None,
        },
{
    let mut k: usize = 0;
    assert(entries@.subrange(0, entries@.len() as int) =~= entries@);
    while k < entries.len()
        invariant
            0 <= k <= entries@.len(),
            entry_for(entries@, n) == entry_for(entries@.subrange(k as int, entries@.len() as int), n),
        decreases entries@.len() - k,
    {
        proof {
            let rest = entries@.subrange(k as int, entries@.len() as int);
            assert(rest.drop_first() =~= entries@.subrange(k + 1, entries@.len() as int));
        }
        if entries[k].0 == n {
            return Some(&entries[k].1);
        }
        k = k + 1;
    }
    None
}

/// Each node has at most one entry.
pub open spec fn keys_unique<T>(entries: Seq<(NodeId, T)>) -> bool {
    forall|a: int, b: int| 0 <= a < b < entries.len() ==> entries[a].0 != entries[b].0
}

proof fn lemma_entry_for_update<T>(s: Seq<(NodeId, T)>, i: int, v: (NodeId, T), m: NodeId)
    requires
        0 <= i < s.len(),
        s[i].0 == v.0,
        forall|j: int| 0 <= j < i ==> s[j].0 != v.0,
    ensures
        m == v.0 ==> entry_for(s.update(i, v), m) == Some(v.1),
        m != v.0 ==> entry_for(s.update(i, v), m) == entry_for(s, m),
    decreases i,
{
    if i > 0 {
        assert(s.update(i, v)[0] == s[0]);
        assert(s.update(i, v).drop_first() =~= s.drop_first().update(i - 1, v));
        lemma_entry_for_update(s.drop_first(), i - 1, v, m);
    } else {
        assert(s.update(0, v)[0] == v);
        assert(s.update(0, v).drop_first() =~= s.drop_first());
    }
}

proof fn lemma_entry_for_push<T>(s: Seq<(NodeId, T)>, v: (NodeId, T), m: NodeId)
    requires
        forall|j: int| 0 <= j < s.len() ==> s[j].0 != v.0,
    ensures
        m == v.0 ==> entry_for(s.push(v), m) == Some(v.1),
        m != v.0 ==> entry_for(s.push(v), m) == entry_for(s, m),
    decreases s.len(),
{
    if s.len() > 0 {
        assert(s.push(v)[0] == s[0]);
        assert(s.push(v).drop_first() =~= s.drop_first().push(v));
        lemma_entry_for_push(s.drop_first(), v, m);
    } else {
        assert(s.push(v)[0] == v);
        assert(s.push(v).drop_first() =~= Seq::<(NodeId, T)>::empty());
        assert(entry_for(s.push(v).drop_first(), m) is None);
        assert(entry_for(s, m) is None);
    }
}

/// Sets the entry of node `n` to `v`, replacing the one it had.
pub fn put_entry<T>(entries: &mut Vec<(NodeId, T)>, n: NodeId, v: T)
    ensures
        entry_for(final(entries)@, n) == Some(v),
        forall|m: NodeId| m != n ==> #[trigger] entry_for(final(entries)@, m) == entry_for(old(entries)@, m),
        keys_unique(old(entries)@) ==> keys_unique(final(entries)@),
{
    let mut k: usize = 0;
    while k < entries.len()
        invariant
            0 <= k <= entries@.len(),
            *entries == *old(entries),
            forall|j: int| 0 <= j < k ==> (#[trigger] entries@[j]).0 != n,
        decreases entries@.len() - k,
    {
        if entries[k].0 == n {
            let ghost before = entries@;
            let ghost pair = (n, v);
            entries.set(k, (n, v));
            proof {
                assert(entries@ == before.update(k as int, pair));
                assert forall|m: NodeId| #[trigger] entry_for(entries@, m) == if m == n { Some(v) } else { entry_for(before, m) } by {
                    lemma_entry_for_update(before, k as int, pair, m);
                }
                assert(entry_for(entries@, n) == Some(v));
            }
            return;
        }
        k = k + 1;
    }
    let ghost before = entries@;
    entries.push((n, v));
    proof {
        assert forall|m: NodeId| #[trigger] entry_for(entries@, m) == if m == n { Some(v) } else { entry_for(before, m) } by {
            lemma_entry_for_push(before, (n, v), m);
        }
        assert(entry_for(entries@, n) == Some(v));
    }
}

impl NodeProps {
    /// Every table has at most one entry per node, as the setters keep it.
    pub open spec fn wf(self) -> bool {
        &&& keys_unique(self.shader_sources@)
        &&& keys_unique(self.output_names@)
        &&& keys_unique(self.texture_inputs@)
        &&& keys_unique(self.stream_images@)
    }

    /// Sets the shader of node `n` (an override for a render pass, or a source's text).
    pub fn set_shader_source(&mut self, n: NodeId, s: ShaderSource)
        ensures
            entry_for(final(self).shader_sources@, n) == Some(s),
            forall|m: NodeId| m != n ==> #[trigger] entry_for(final(self).shader_sources@, m) == entry_for(old(self).shader_sources@, m),
            final(self).output_names@ == old(self).output_names@,
            final(self).texture_inputs@ == old(self).texture_inputs@,
            final(self).stream_images@ == old(self).stream_images@,
            old(self).wf() ==> final(self).wf(),
    {
        put_entry(&mut self.shader_sources, n, s);
    }

    /// Sets the explicit output name of node `n`.
    pub fn set_output_name(&mut self, n: NodeId, name: String)
        ensures
            entry_for(final(self).output_names@, n) == Some(name),
            forall|m: NodeId| m != n ==> #[trigger] entry_for(final(self).output_names@, m) == entry_for(old(self).output_names@, m),
            final(self).shader_sources@ == old(self).shader_sources@,
            final(self).texture_inputs@ == old(self).texture_inputs@,
            final(self).stream_images@ == old(self).stream_images@,
            old(self).wf() ==> final(self).wf(),
    {
        put_entry(&mut self.output_names, n, name);
    }

    /// Sets the host image of a `TextureInputPass` node.
    pub fn set_texture_input(&mut self, n: NodeId, image: u32)
        ensures
            entry_for(final(self).texture_inputs@, n) == Some(image),
            forall|m: NodeId| m != n ==> #[trigger] entry_for(final(self).texture_inputs@, m) == entry_for(old(self).texture_inputs@, m),
            final(self).shader_sources@ == old(self).shader_sources@,
            final(self).output_names@ == old(self).output_names@,
            final(self).stream_images@ == old(self).stream_images@,
            old(self).wf() ==> final(self).wf(),
    {
        put_entry(&mut self.texture_inputs, n, image);
    }

    /// Sets the latest image of a `VideoDecodeSource` node.
    pub fn set_stream_image(&mut self, n: NodeId, image: HostImage)
        ensures
            entry_for(final(self).stream_images@, n) == Some(image),
            forall|m: NodeId| m != n ==> #[trigger] entry_for(final(self).stream_images@, m) == entry_for(old(self).stream_images@, m),
            final(self).shader_sources@ == old(self).shader_sources@,
            final(self).output_names@ == old(self).output_names@,
            final(self).texture_inputs@ == old(self).texture_inputs@,
            old(self).wf() ==> final(self).wf(),
    {
        put_entry(&mut self.stream_images, n, image);
    }

    pub fn new() -> (r: NodeProps)
        ensures
            r.shader_sources@.len() == 0,
            r.output_names@.len() == 0,
            r.texture_inputs@.len() == 0,
            r.stream_images@.len() == 0,
            r.wf(),
    {
        NodeProps {
            shader_sources: Vec::new(),
            output_names: Vec::new(),
            texture_inputs: Vec::new(),
            stream_images: Vec::new(),
        }
    }
}

/// Render passes are the Processor and Mixer nodes: they draw into targets of their own.
pub open spec fn renders(kind: NodeKind) -> bool {
    kind_class(kind) == NodeClass::Processor || kind_class(kind) == NodeClass::Mixer
}

fn renders_exec(kind: NodeKind) -> (r: bool)
    ensures
        r == renders(kind),
{
    let c = kind.class();
    c == NodeClass::Processor || c == NodeClass::Mixer
}

/// A hash of a text: the default hasher fed with its UTF-8 bytes.
pub open spec fn text_hash(s: Seq<char>) -> u64 {
    DefaultHasher::spec_finish(seq![encode_utf8(s)])
}

pub fn hash_str(s: &str) -> (r: u64)
    ensures
        r == text_hash(s@),
{
    let mut h = DefaultHasher::new();
    h.write(s.as_bytes());
    h.finish()
}

/// Cache key of a program: the hashes of its vertex and fragment text.
#[derive(Debug, Clone, Copy, PartialEq, Eq, Hash, Structural)]
pub struct ProgramKey {
    pub vert_hash: u64,
    pub frag_hash: u64,
}

pub open spec fn key_of(vert: Seq<char>, frag: Seq<char>) -> ProgramKey {
    ProgramKey { vert_hash: text_hash(vert), frag_hash: text_hash(frag) }
}

/// One image bound to a texture channel of a draw.
#[derive(Debug, Clone, Copy, PartialEq, Eq, Hash, Structural)]
pub struct InputBinding {
    pub channel: u32,
    pub image: ImageRef,
}

/// One full-screen draw of a render-pass node.
#[derive(Debug, Clone)]
pub struct DrawCall {
    pub node: NodeId,
    pub kind: NodeKind,
    pub program: ProgramId,
    pub key: ProgramKey,
    pub target: TargetId,
    pub width: i32,
    pub height: i32,
    /// Images to bind, in ascending channel order.
    pub inputs: Vec<InputBinding>,
}

/// GPU work that the host performs, in order, for one frame.
#[derive(Debug, Clone)]
pub enum GpuCommand {
    CreateTarget { target: TargetId, width: i32, height: i32 },
    ResizeTarget { target: TargetId, width: i32, height: i32 },
    CompileProgram { program: ProgramId, key: ProgramKey, vert: String, frag: String },
    Draw(DrawCall),
}

/// A resolved output: the image, its backing target and its size.
#[derive(Debug, Clone, Copy, PartialEq, Eq, Hash, Structural)]
pub struct ExecOutput {
    pub image: ImageRef,
    pub target: TargetId,
    pub width: i32,
    pub height: i32,
}

/// The GPU work of one frame and the frame's primary output.
#[derive(Debug, Clone)]
pub struct FrameWork {
    pub output: ExecOutput,
    pub commands: Vec<GpuCommand>,
}

#[derive(Debug, Clone, Copy)]
pub struct RenderTarget {
    pub id: TargetId,
    pub w: i32,
    pub h: i32,
}

#[derive(Debug, Clone, Copy)]
struct PingPong {
    node: NodeId,
    curr: RenderTarget,
    prev: RenderTarget,
}

#[derive(Debug, Clone, Copy)]
struct ProgramEntry {
    node: NodeId,
    program: ProgramId,
    key: ProgramKey,
}

#[derive(Debug, Clone, Copy)]
struct CachedProgram {
    key: ProgramKey,
    program: ProgramId,
}

/// State that persists across frames: the program cache, each node's bound program, and each
/// render pass's ping-pong pair of targets.
#[derive(Debug)]
pub struct RuntimeState {
    programs: Vec<ProgramEntry>,
    program_cache: Vec<CachedProgram>,
    targets: Vec<PingPong>,
    next_target: u32,
    next_program: u32,
}

/// Sizes are at least one pixel.
pub open spec fn clamp_size(v: i32) -> i32 {
    if v < 1 {
        1
    } else {
        v
    }
}

fn clamp_size_exec(v: i32) -> (r: i32)
    ensures
        r == clamp_size(v),
{
    if v < 1 {
        1
    } else {
        v
    }
}

impl RuntimeState {
    pub closed spec fn wf(self) -> bool {
        &&& forall|i: int, j: int|
            0 <= i < j < self.program_cache@.len() ==> (#[trigger] self.program_cache@[i]).key
                != (#[trigger] self.program_cache@[j]).key
        &&& forall|i: int|
            0 <= i < self.programs@.len() ==> self.cached(
                (#[trigger] self.programs@[i]).key,
                self.programs@[i].program,
            )
        &&& forall|i: int, j: int|
            0 <= i < j < self.targets@.len() ==> (#[trigger] self.targets@[i]).node
                != (#[trigger] self.targets@[j]).node
        &&& forall|i: int, j: int|
            0 <= i < j < self.programs@.len() ==> (#[trigger] self.programs@[i]).node
                != (#[trigger] self.programs@[j]).node
    }

    /// The cache maps `key` to `program`.
    pub closed spec fn cached(self, key: ProgramKey, program: ProgramId) -> bool {
        exists|i: int|
            0 <= i < self.program_cache@.len() && (#[trigger] self.program_cache@[i]).key == key
                && self.program_cache@[i].program == program
    }

    /// The program that node `n` is bound to, with its key.
    pub closed spec fn bound(self, n: NodeId, key: ProgramKey, program: ProgramId) -> bool {
        exists|i: int|
            0 <= i < self.programs@.len() && (#[trigger] self.programs@[i]).node == n
                && self.programs@[i].key == key && self.programs@[i].program == program
    }

    /// The current target of node `n`, which holds the last image it drew.
    pub closed spec fn current(self, n: NodeId) -> Option<RenderTarget> {
        match self.target_index(n) {
            Some(i) => Some(self.targets@[i].curr),
            None => None,
        }
    }

    closed spec fn target_index(self, n: NodeId) -> Option<int> {
        if exists|i: int| 0 <= i < self.targets@.len() && (#[trigger] self.targets@[i]).node == n {
            Some(choose|i: int| 0 <= i < self.targets@.len() && (#[trigger] self.targets@[i]).node == n)
        } else {
            None
        }
    }

    /// Creates empty state: no programs, no targets.
    pub fn new() -> (r: RuntimeState)
        ensures
            r.wf(),
            forall|n: NodeId| r.current(n) is None,
            forall|k: ProgramKey, p: ProgramId| !r.cached(k, p),
            forall|n: int| 0 <= n <= 0x7fff_ffff ==> #[trigger] r.has_room(n),
    {
        RuntimeState {
            programs: Vec::new(),
            program_cache: Vec::new(),
            targets: Vec::new(),
            next_target: 0,
            next_program: 0,
        }
    }
}

impl RuntimeState {
    /// The target that node `n` drew into the frame before its current one.
    pub closed spec fn previous(self, n: NodeId) -> Option<RenderTarget> {
        match self.target_index(n) {
            Some(i) => Some(self.targets@[i].prev),
            None => None,
        }
    }

    /// Handles for `n` more render passes are left: two targets and one program each.
    pub open spec fn has_room(self, n: int) -> bool {
        self.target_room(n) && self.program_room(n)
    }

    /// Target handles for `n` more ping-pong pairs are left.
    pub closed spec fn target_room(self, n: int) -> bool {
        self.next_target as int + 2 * n <= u32::MAX as int
    }

    /// Program handles for `n` more programs are left.
    pub closed spec fn program_room(self, n: int) -> bool {
        self.next_program as int + n <= u32::MAX as int
    }

    /// The cache only grows: what it held before, it still holds.
    pub open spec fn cache_grows(self, next: RuntimeState) -> bool {
        forall|k: ProgramKey, p: ProgramId| self.cached(k, p) ==> #[trigger] next.cached(k, p)
    }

    proof fn lemma_same_cache(self, next: RuntimeState)
        requires
            next.program_cache@ == self.program_cache@,
        ensures
            forall|k: ProgramKey, p: ProgramId| #[trigger] next.cached(k, p) == self.cached(k, p),
    {
        assert forall|k: ProgramKey, p: ProgramId| #[trigger] next.cached(k, p) == self.cached(k, p) by {
            if self.cached(k, p) {
                let j = choose|j: int| 0 <= j < self.program_cache@.len() && (#[trigger] self.program_cache@[j]).key == k && self.program_cache@[j].program == p;
                assert(next.program_cache@[j] == self.program_cache@[j]);
            }
            if next.cached(k, p) {
                let j = choose|j: int| 0 <= j < next.program_cache@.len() && (#[trigger] next.program_cache@[j]).key == k && next.program_cache@[j].program == p;
                assert(next.program_cache@[j] == self.program_cache@[j]);
            }
        }
    }

    proof fn lemma_same_programs(self, next: RuntimeState)
        requires
            next.programs@ == self.programs@,
        ensures
            forall|m: NodeId, k: ProgramKey, p: ProgramId| #[trigger] next.bound(m, k, p) == self.bound(m, k, p),
    {
    }

    proof fn lemma_same_targets(self, next: RuntimeState)
        requires
            next.targets@ == self.targets@,
        ensures
            forall|m: NodeId| #[trigger] next.current(m) == self.current(m) && next.previous(m) == self.previous(m),
    {
    }

    /// Changing only the targets keeps the invariant, the cache and the bindings.
    proof fn lemma_targets_only(self, next: RuntimeState)
        requires
            self.wf(),
            next.program_cache@ == self.program_cache@,
            next.programs@ == self.programs@,
            forall|a: int, b: int|
                0 <= a < b < next.targets@.len() ==> (#[trigger] next.targets@[a]).node
                    != (#[trigger] next.targets@[b]).node,
        ensures
            next.wf(),
            forall|k: ProgramKey, p: ProgramId| #[trigger] next.cached(k, p) == self.cached(k, p),
            forall|m: NodeId, k: ProgramKey, p: ProgramId| #[trigger] next.bound(m, k, p) == self.bound(m, k, p),
    {
        assert forall|i: int| 0 <= i < next.programs@.len() implies next.cached(
            (#[trigger] next.programs@[i]).key,
            next.programs@[i].program,
        ) by {
            assert(self.cached(self.programs@[i].key, self.programs@[i].program));
        }
    }

    proof fn lemma_target_index(self, n: NodeId, i: int)
        requires
            forall|a: int, b: int|
                0 <= a < b < self.targets@.len() ==> (#[trigger] self.targets@[a]).node
                    != (#[trigger] self.targets@[b]).node,
            0 <= i < self.targets@.len(),
            self.targets@[i].node == n,
        ensures
            self.target_index(n) == Some(i),
    {
        let j = choose|j: int| 0 <= j < self.targets@.len() && (#[trigger] self.targets@[j]).node == n;
        if j < i {
            assert(self.targets@[j].node != self.targets@[i].node);
        } else if i < j {
            assert(self.targets@[i].node != self.targets@[j].node);
        }
    }

    fn find_target(&self, n: NodeId) -> (r: Option<usize>)
        requires
            self.wf(),
        ensures
            match r {
                Some(i) => i < self.targets@.len() && self.targets@[i as int].node == n
                    && self.target_index(n) == Some(i as int),
                None => self.target_index(n) is None,
            },
    {
        let mut k: usize = 0;
        while k < self.targets.len()
            invariant
                0 <= k <= self.targets@.len(),
                self.wf(),
                forall|j: int| 0 <= j < k ==> (#[trigger] self.targets@[j]).node != n,
            decreases self.targets@.len() - k,
        {
            if self.targets[k].node == n {
                proof {
                    self.lemma_target_index(n, k as int);
                }
                return Some(k);
            }
            k = k + 1;
        }
        None
    }

    /// The current target of node `n`.
    pub fn current_target(&self, n: NodeId) -> (r: Option<RenderTarget>)
        requires
            self.wf(),
        ensures
            r == self.current(n),
    {
        match self.find_target(n) {
            Some(i) => Some(self.targets[i].curr),
            None => None,
        }
    }

    /// Makes sure node `n` has a pair of targets sized `w` by `h` (at least one pixel each),
    /// creating or resizing them, and returns the current target: the one that holds the
    /// node's image of the previous frame.
    pub fn ensure_targets(&mut self, n: NodeId, w: i32, h: i32, cmds: &mut Vec<GpuCommand>) -> (r: Result<TargetId, EngineError>)
        requires
            old(self).wf(),
        ensures
            final(self).wf(),
            old(self).cache_grows(*final(self)),
            forall|k: ProgramKey, p: ProgramId| #[trigger] final(self).cached(k, p) == old(self).cached(k, p),
            forall|m: NodeId, k: ProgramKey, p: ProgramId| #[trigger] final(self).bound(m, k, p) == old(self).bound(m, k, p),
            forall|m: NodeId| m != n ==> #[trigger] final(self).current(m) == old(self).current(m) && final(self).previous(m) == old(self).previous(m),
            final(cmds)@.len() >= old(cmds)@.len(),
            forall|i: int| 0 <= i < old(cmds)@.len() ==> #[trigger] final(cmds)@[i] == old(cmds)@[i],
            forall|i: int| old(cmds)@.len() <= i < final(cmds)@.len() ==> !(#[trigger] final(cmds)@[i] is Draw) && !(final(cmds)@[i] is CompileProgram),
            r is Ok ==> {
                &&& final(self).current(n) is Some
                &&& final(self).previous(n) is Some
                &&& final(self).current(n)->Some_0.id == r->Ok_0
                &&& final(self).current(n)->Some_0.w == clamp_size(w)
                &&& final(self).current(n)->Some_0.h == clamp_size(h)
                &&& final(self).previous(n)->Some_0.w == clamp_size(w)
                &&& final(self).previous(n)->Some_0.h == clamp_size(h)
                &&& (old(self).current(n) is Some ==> old(self).current(n)->Some_0.id == r->Ok_0)
                &&& (old(self).previous(n) is Some ==> old(self).previous(n)->Some_0.id == final(self).previous(n)->Some_0.id)
            },
            r is Err ==> failed_with(r, "execute_plan: render target ids exhausted"@),
            old(self).target_room(1) ==> r is Ok,
            forall|n: int| n >= 1 && #[trigger] old(self).target_room(n) ==> final(self).target_room(n - 1),
            forall|n: int| #[trigger] final(self).program_room(n) == old(self).program_room(n),
    {
        let cw = clamp_size_exec(w);
        let ch = clamp_size_exec(h);
        match self.find_target(n) {
            None => {
                if self.next_target > u32::MAX - 2 {
                    return Err(EngineError::other("execute_plan: render target ids exhausted"));
                }
                let curr = RenderTarget { id: TargetId(self.next_target), w: cw, h: ch };
                let prev = RenderTarget { id: TargetId(self.next_target + 1), w: cw, h: ch };
                self.next_target = self.next_target + 2;
                cmds.push(GpuCommand::CreateTarget { target: curr.id, width: cw, height: ch });
                cmds.push(GpuCommand::CreateTarget { target: prev.id, width: cw, height: ch });
                let ghost old_targets = self.targets@;
                self.targets.push(PingPong { node: n, curr, prev });
                proof {
                    assert forall|i: int, j: int| 0 <= i < j < self.targets@.len() implies (#[trigger] self.targets@[i]).node != (#[trigger] self.targets@[j]).node by {
                        if j == old_targets.len() {
                            assert(self.targets@[i] == old_targets[i]);
                        } else {
                            assert(self.targets@[i] == old_targets[i]);
                            assert(self.targets@[j] == old_targets[j]);
                        }
                    }
                    old(self).lemma_targets_only(*self);
                    self.lemma_target_index(n, old_targets.len() as int);
                    assert forall|m: NodeId| m != n implies #[trigger] self.current(m) == old(self).current(m) && self.previous(m) == old(self).previous(m) by {
                        if exists|i: int| 0 <= i < old_targets.len() && (#[trigger] old_targets[i]).node == m {
                            let i = choose|i: int| 0 <= i < old_targets.len() && (#[trigger] old_targets[i]).node == m;
                            old(self).lemma_target_index(m, i);
                            assert(self.targets@[i] == old_targets[i]);
                            self.lemma_target_index(m, i);
                        } else {
                            assert(!exists|i: int| 0 <= i < self.targets@.len() && (#[trigger] self.targets@[i]).node == m) by {
                                if exists|i: int| 0 <= i < self.targets@.len() && (#[trigger] self.targets@[i]).node == m {
                                    let i = choose|i: int| 0 <= i < self.targets@.len() && (#[trigger] self.targets@[i]).node == m;
                                    if i < old_targets.len() {
                                        assert(old_targets[i] == self.targets@[i]);
                                    }
                                }
                            }
                        }
                    }
                }
                Ok(curr.id)
            },
            Some(i) => {
                let mut pp = self.targets[i];
                if pp.curr.w != cw || pp.curr.h != ch {
                    pp.curr.w = cw;
                    pp.curr.h = ch;
                    cmds.push(GpuCommand::ResizeTarget { target: pp.curr.id, width: cw, height: ch });
                }
                if pp.prev.w != cw || pp.prev.h != ch {
                    pp.prev.w = cw;
                    pp.prev.h = ch;
                    cmds.push(GpuCommand::ResizeTarget { target: pp.prev.id, width: cw, height: ch });
                }
                let ghost old_targets = self.targets@;
                self.targets.set(i, pp);
                proof {
                    assert forall|a: int, b: int| 0 <= a < b < self.targets@.len() implies (#[trigger] self.targets@[a]).node != (#[trigger] self.targets@[b]).node by {
                        assert(self.targets@[a].node == old_targets[a].node);
                        assert(self.targets@[b].node == old_targets[b].node);
                    }
                    old(self).lemma_targets_only(*self);
                    self.lemma_target_index(n, i as int);
                    assert forall|m: NodeId| m != n implies #[trigger] self.current(m) == old(self).current(m) && self.previous(m) == old(self).previous(m) by {
                        if exists|j: int| 0 <= j < old_targets.len() && (#[trigger] old_targets[j]).node == m {
                            let j = choose|j: int| 0 <= j < old_targets.len() && (#[trigger] old_targets[j]).node == m;
                            old(self).lemma_target_index(m, j);
                            assert(self.targets@[j] == old_targets[j]);
                            self.lemma_target_index(m, j);
                        } else {
                            assert(!exists|j: int| 0 <= j < self.targets@.len() && (#[trigger] self.targets@[j]).node == m) by {
                                if exists|j: int| 0 <= j < self.targets@.len() && (#[trigger] self.targets@[j]).node == m {
                                    let j = choose|j: int| 0 <= j < self.targets@.len() && (#[trigger] self.targets@[j]).node == m;
                                    assert(old_targets[j].node == self.targets@[j].node);
                                }
                            }
                        }
                    }
                }
                Ok(pp.curr.id)
            },
        }
    }

    /// Swaps the pair of node `n` and returns the target to draw into; the target that was
    /// current stays readable as the previous one.
    pub fn begin_render(&mut self, n: NodeId) -> (r: RenderTarget)
        requires
            old(self).wf(),
            old(self).current(n) is Some,
        ensures
            final(self).wf(),
            forall|k: ProgramKey, p: ProgramId| #[trigger] final(self).cached(k, p) == old(self).cached(k, p),
            forall|m: NodeId, k: ProgramKey, p: ProgramId| #[trigger] final(self).bound(m, k, p) == old(self).bound(m, k, p),
            forall|m: NodeId| m != n ==> #[trigger] final(self).current(m) == old(self).current(m) && final(self).previous(m) == old(self).previous(m),
            old(self).previous(n) is Some,
            r == old(self).previous(n)->Some_0,
            final(self).current(n) == Some(r),
            forall|k: int| #[trigger] final(self).target_room(k) == old(self).target_room(k),
            forall|k: int| #[trigger] final(self).program_room(k) == old(self).program_room(k),
            final(self).previous(n) == old(self).current(n),
    {
        let i = match self.find_target(n) {
            Some(i) => i,
            None => {
                proof {
                    assert(false);
                }
                0
            },
        };
        let pp = self.targets[i];
        let swapped = PingPong { node: n, curr: pp.prev, prev: pp.curr };
        let ghost old_targets = self.targets@;
        self.targets.set(i, swapped);
        proof {
            assert forall|a: int, b: int| 0 <= a < b < self.targets@.len() implies (#[trigger] self.targets@[a]).node != (#[trigger] self.targets@[b]).node by {
                assert(self.targets@[a].node == old_targets[a].node);
                assert(self.targets@[b].node == old_targets[b].node);
            }
            old(self).lemma_targets_only(*self);
            self.lemma_target_index(n, i as int);
            assert forall|m: NodeId| m != n implies #[trigger] self.current(m) == old(self).current(m) && self.previous(m) == old(self).previous(m) by {
                if exists|j: int| 0 <= j < old_targets.len() && (#[trigger] old_targets[j]).node == m {
                    let j = choose|j: int| 0 <= j < old_targets.len() && (#[trigger] old_targets[j]).node == m;
                    old(self).lemma_target_index(m, j);
                    assert(self.targets@[j] == old_targets[j]);
                    self.lemma_target_index(m, j);
                } else {
                    assert(!exists|j: int| 0 <= j < self.targets@.len() && (#[trigger] self.targets@[j]).node == m) by {
                        if exists|j: int| 0 <= j < self.targets@.len() && (#[trigger] self.targets@[j]).node == m {
                            let j = choose|j: int| 0 <= j < self.targets@.len() && (#[trigger] self.targets@[j]).node == m;
                            assert(old_targets[j].node == self.targets@[j].node);
                        }
                    }
                }
            }
        }
        pp.prev
    }
}

impl RuntimeState {
    fn find_cached(&self, key: ProgramKey) -> (r: Option<ProgramId>)
        requires
            self.wf(),
        ensures
            match r {
                Some(p) => self.cached(key, p),
                None => forall|p: ProgramId| !self.cached(key, p),
            },
    {
        let mut k: usize = 0;
        while k < self.program_cache.len()
            invariant
                0 <= k <= self.program_cache@.len(),
                forall|j: int| 0 <= j < k ==> (#[trigger] self.program_cache@[j]).key != key,
            decreases self.program_cache@.len() - k,
        {
            if self.program_cache[k].key == key {
                return Some(self.program_cache[k].program);
            }
            k = k + 1;
        }
        None
    }

    /// The cached program for the shader `src`, compiling it (as a command) on a cache miss.
    pub fn program_for(&mut self, src: &ShaderSource, cmds: &mut Vec<GpuCommand>) -> (r: Result<(ProgramId, ProgramKey), EngineError>)
        requires
            old(self).wf(),
        ensures
            final(self).wf(),
            old(self).cache_grows(*final(self)),
            forall|m: NodeId, k: ProgramKey, p: ProgramId| #[trigger] final(self).bound(m, k, p) == old(self).bound(m, k, p),
            forall|m: NodeId| #[trigger] final(self).current(m) == old(self).current(m) && final(self).previous(m) == old(self).previous(m),
            final(cmds)@.len() >= old(cmds)@.len(),
            forall|i: int| 0 <= i < old(cmds)@.len() ==> #[trigger] final(cmds)@[i] == old(cmds)@[i],
            forall|i: int| old(cmds)@.len() <= i < final(cmds)@.len() ==> !(#[trigger] final(cmds)@[i] is Draw),
            r is Ok ==> r->Ok_0.1 == key_of(src.vert@, src.frag@) && final(self).cached(r->Ok_0.1, r->Ok_0.0),
            forall|p: ProgramId| old(self).cached(key_of(src.vert@, src.frag@), p) ==> r == Ok::<(ProgramId, ProgramKey), EngineError>((p, key_of(src.vert@, src.frag@))) && final(cmds)@ == old(cmds)@,
            r is Err ==> failed_with(r, "execute_plan: program ids exhausted"@),
            final(cmds)@.len() <= old(cmds)@.len() + 1,
            forall|i: int| old(cmds)@.len() <= i < final(cmds)@.len() && (#[trigger] final(cmds)@[i]) is CompileProgram ==> {
                &&& r is Ok
                &&& final(cmds)@[i]->CompileProgram_key == r->Ok_0.1
                &&& final(cmds)@[i]->CompileProgram_program == r->Ok_0.0
                &&& forall|p: ProgramId| !old(self).cached(r->Ok_0.1, p)
            },
            old(self).program_room(1) ==> r is Ok,
            forall|n: int| n >= 1 && #[trigger] old(self).program_room(n) ==> final(self).program_room(n - 1),
            forall|n: int| #[trigger] final(self).target_room(n) == old(self).target_room(n),
    {
        let key = ProgramKey { vert_hash: hash_str(src.vert.as_str()), frag_hash: hash_str(src.frag.as_str()) };
        match self.find_cached(key) {
            Some(p) => {
                proof {
                    assert forall|q: ProgramId| self.cached(key, q) implies q == p by {
                        lemma_cache_functional(*self, key, p, q);
                    }
                    old(self).lemma_same_targets(*self);
                }
                Ok((p, key))
            },
            None => {
                if self.next_program == u32::MAX {
                    return Err(EngineError::other("execute_plan: program ids exhausted"));
                }
                let p = ProgramId(self.next_program);
                self.next_program = self.next_program + 1;
                cmds.push(GpuCommand::CompileProgram { program: p, key, vert: src.vert.clone(), frag: src.frag.clone() });
                let ghost old_cache = self.program_cache@;
                self.program_cache.push(CachedProgram { key, program: p });
                proof {
                    assert(self.program_cache@[old_cache.len() as int].key == key);
                    assert forall|k: ProgramKey, q: ProgramId| old(self).cached(k, q) implies #[trigger] self.cached(k, q) by {
                        let j = choose|j: int| 0 <= j < old_cache.len() && (#[trigger] old_cache[j]).key == k && old_cache[j].program == q;
                        assert(self.program_cache@[j] == old_cache[j]);
                    }
                    assert forall|a: int, b: int| 0 <= a < b < self.program_cache@.len() implies (#[trigger] self.program_cache@[a]).key != (#[trigger] self.program_cache@[b]).key by {
                        if b == old_cache.len() {
                            assert(self.program_cache@[a] == old_cache[a]);
                            assert(!old(self).cached(key, old_cache[a].program));
                        } else {
                            assert(self.program_cache@[a] == old_cache[a]);
                            assert(self.program_cache@[b] == old_cache[b]);
                        }
                    }
                    assert forall|i: int| 0 <= i < self.programs@.len() implies self.cached((#[trigger] self.programs@[i]).key, self.programs@[i].program) by {
                        assert(old(self).cached(self.programs@[i].key, self.programs@[i].program));
                    }
                    assert(self.cached(key, p));
                    old(self).lemma_same_targets(*self);
                }
                Ok((p, key))
            },
        }
    }

    /// Binds node `n` to `program`; the binding changes only when the key changes.
    pub fn bind_program(&mut self, n: NodeId, key: ProgramKey, program: ProgramId)
        requires
            old(self).wf(),
            old(self).cached(key, program),
        ensures
            final(self).wf(),
            final(self).bound(n, key, program),
            (exists|p: ProgramId| old(self).bound(n, key, p)) ==> *final(self) == *old(self),
            forall|k: int| #[trigger] final(self).target_room(k) == old(self).target_room(k),
            forall|k: int| #[trigger] final(self).program_room(k) == old(self).program_room(k),
            forall|k: ProgramKey, p: ProgramId| #[trigger] final(self).cached(k, p) == old(self).cached(k, p),
            forall|m: NodeId| #[trigger] final(self).current(m) == old(self).current(m) && final(self).previous(m) == old(self).previous(m),
    {
        let mut k: usize = 0;
        while k < self.programs.len()
            invariant
                0 <= k <= self.programs@.len(),
                self.wf(),
                self.cached(key, program),
                *self == *old(self),
                forall|j: int| 0 <= j < k ==> (#[trigger] self.programs@[j]).node != n,
            decreases self.programs@.len() - k,
        {
            if self.programs[k].node == n {
                if self.programs[k].key == key {
                    proof {
                        assert(self.cached(self.programs@[k as int].key, self.programs@[k as int].program));
                        lemma_cache_functional(*self, key, program, self.programs@[k as int].program);
                    }
                    return;
                }
                proof {
                    if exists|p: ProgramId| old(self).bound(n, key, p) {
                        let p = choose|p: ProgramId| old(self).bound(n, key, p);
                        let i = choose|i: int| 0 <= i < self.programs@.len() && (#[trigger] self.programs@[i]).node == n && self.programs@[i].key == key && self.programs@[i].program == p;
                        if i < k {
                        } else if i > k {
                            assert(self.programs@[k as int].node != self.programs@[i].node);
                        }
                    }
                }
                let ghost old_programs = self.programs@;
                self.programs.set(k, ProgramEntry { node: n, program, key });
                proof {
                    old(self).lemma_same_cache(*self);
                    old(self).lemma_same_targets(*self);
                    assert forall|a: int, b: int| 0 <= a < b < self.programs@.len() implies (#[trigger] self.programs@[a]).node != (#[trigger] self.programs@[b]).node by {
                        assert(self.programs@[a].node == old_programs[a].node);
                        assert(self.programs@[b].node == old_programs[b].node);
                    }
                    assert forall|i: int| 0 <= i < self.programs@.len() implies self.cached((#[trigger] self.programs@[i]).key, self.programs@[i].program) by {
                        if i != k {
                            assert(self.programs@[i] == old_programs[i]);
                            assert(old(self).cached(old_programs[i].key, old_programs[i].program));
                        }
                    }
                    assert(self.programs@[k as int].node == n);
                }
                return;
            }
            k = k + 1;
        }
        proof {
            if exists|p: ProgramId| old(self).bound(n, key, p) {
                let p = choose|p: ProgramId| old(self).bound(n, key, p);
                let i = choose|i: int| 0 <= i < self.programs@.len() && (#[trigger] self.programs@[i]).node == n && self.programs@[i].key == key && self.programs@[i].program == p;
            }
        }
        let ghost old_programs = self.programs@;
        self.programs.push(ProgramEntry { node: n, program, key });
        proof {
            old(self).lemma_same_cache(*self);
            old(self).lemma_same_targets(*self);
            assert forall|a: int, b: int| 0 <= a < b < self.programs@.len() implies (#[trigger] self.programs@[a]).node != (#[trigger] self.programs@[b]).node by {
                assert(self.programs@[a] == old_programs[a]);
                if b < old_programs.len() {
                    assert(self.programs@[b] == old_programs[b]);
                }
            }
            assert forall|i: int| 0 <= i < self.programs@.len() implies self.cached((#[trigger] self.programs@[i]).key, self.programs@[i].program) by {
                if i < old_programs.len() {
                    assert(self.programs@[i] == old_programs[i]);
                    assert(old(self).cached(old_programs[i].key, old_programs[i].program));
                }
            }
            assert(self.programs@[old_programs.len() as int].node == n);
        }
    }
}

impl RuntimeState {
    /// Teardown: returns every target and program the state owns, for the host to delete, and
    /// forgets them all.
    pub fn destroy(&mut self) -> (r: (Vec<TargetId>, Vec<ProgramId>))
        requires
            old(self).wf(),
        ensures
            final(self).wf(),
            forall|n: NodeId| #[trigger] final(self).current(n) is None && final(self).previous(n) is None,
            forall|k: ProgramKey, p: ProgramId| !#[trigger] final(self).cached(k, p),
            forall|n: NodeId| #[trigger] old(self).current(n) is Some ==> r.0@.contains(old(self).current(n)->Some_0.id) && r.0@.contains(old(self).previous(n)->Some_0.id),
            forall|k: ProgramKey, p: ProgramId| #[trigger] old(self).cached(k, p) ==> r.1@.contains(p),
    {
        let mut targets: Vec<TargetId> = Vec::new();
        let mut k: usize = 0;
        while k < self.targets.len()
            invariant
                0 <= k <= self.targets@.len(),
                *self == *old(self),
                forall|j: int| 0 <= j < k ==> targets@.contains((#[trigger] self.targets@[j]).curr.id) && targets@.contains(self.targets@[j].prev.id),
            decreases self.targets@.len() - k,
        {
            let ghost before = targets@;
            targets.push(self.targets[k].curr.id);
            targets.push(self.targets[k].prev.id);
            proof {
                assert forall|j: int| 0 <= j < k + 1 implies targets@.contains((#[trigger] self.targets@[j]).curr.id) && targets@.contains(self.targets@[j].prev.id) by {
                    if j < k {
                        let a = choose|a: int| 0 <= a < before.len() && before[a] == self.targets@[j].curr.id;
                        let b = choose|b: int| 0 <= b < before.len() && before[b] == self.targets@[j].prev.id;
                        assert(targets@[a] == before[a]);
                        assert(targets@[b] == before[b]);
                    } else {
                        assert(targets@[before.len() as int] == self.targets@[j].curr.id);
                        assert(targets@[before.len() as int + 1] == self.targets@[j].prev.id);
                    }
                }
            }
            k = k + 1;
        }
        let mut programs: Vec<ProgramId> = Vec::new();
        let mut k: usize = 0;
        while k < self.program_cache.len()
            invariant
                0 <= k <= self.program_cache@.len(),
                *self == *old(self),
                forall|j: int| 0 <= j < k ==> programs@.contains((#[trigger] self.program_cache@[j]).program),
            decreases self.program_cache@.len() - k,
        {
            let ghost before = programs@;
            programs.push(self.program_cache[k].program);
            proof {
                assert forall|j: int| 0 <= j < k + 1 implies programs@.contains((#[trigger] self.program_cache@[j]).program) by {
                    if j < k {
                        let a = choose|a: int| 0 <= a < before.len() && before[a] == self.program_cache@[j].program;
                        assert(programs@[a] == before[a]);
                    } else {
                        assert(programs@[before.len() as int] == self.program_cache@[j].program);
                    }
                }
            }
            k = k + 1;
        }
        proof {
            assert forall|n: NodeId| #[trigger] old(self).current(n) is Some implies targets@.contains(old(self).current(n)->Some_0.id) && targets@.contains(old(self).previous(n)->Some_0.id) by {
                let i = old(self).target_index(n)->Some_0;
                assert(0 <= i < self.targets@.len());
            }
            assert forall|kk: ProgramKey, p: ProgramId| #[trigger] old(self).cached(kk, p) implies programs@.contains(p) by {
                let j = choose|j: int| 0 <= j < self.program_cache@.len() && (#[trigger] self.program_cache@[j]).key == kk && self.program_cache@[j].program == p;
            }
        }
        self.targets = Vec::new();
        self.program_cache = Vec::new();
        self.programs = Vec::new();
        (targets, programs)
    }
}

impl RuntimeState {
    /// The host reports that `program` failed to compile: the bindings and the cache entries
    /// that name it are dropped, so that a later frame asks for it to be compiled again.
    pub fn compile_failed(&mut self, program: ProgramId)
        requires
            old(self).wf(),
        ensures
            final(self).wf(),
            forall|k: ProgramKey| !#[trigger] final(self).cached(k, program),
            forall|k: ProgramKey, p: ProgramId| p != program ==> #[trigger] final(self).cached(k, p) == old(self).cached(k, p),
            forall|m: NodeId, k: ProgramKey, p: ProgramId| p != program ==> #[trigger] final(self).bound(m, k, p) == old(self).bound(m, k, p),
            forall|m: NodeId| #[trigger] final(self).current(m) == old(self).current(m) && final(self).previous(m) == old(self).previous(m),
            forall|n: int| #[trigger] final(self).has_room(n) == old(self).has_room(n),
    {
        let mut k: usize = 0;
        while k < self.programs.len()
            invariant
                0 <= k <= self.programs@.len(),
                self.wf(),
                self.program_cache@ == old(self).program_cache@,
                self.targets@ == old(self).targets@,
                self.next_target == old(self).next_target,
                self.next_program == old(self).next_program,
                forall|j: int| 0 <= j < k ==> (#[trigger] self.programs@[j]).program != program,
                forall|m: NodeId, kk: ProgramKey, p: ProgramId| p != program ==> #[trigger] self.bound(m, kk, p) == old(self).bound(m, kk, p),
            decreases self.programs@.len() - k,
        {
            if self.programs[k].program == program {
                let ghost before = *self;
                self.programs.remove(k);
                proof {
                    before.lemma_same_cache(*self);
                    let bp = before.programs@;
                    assert forall|j: int| 0 <= j < self.programs@.len() implies #[trigger] self.programs@[j] == (if j < k { bp[j] } else { bp[j + 1] }) by {}
                    assert forall|a: int, b: int| 0 <= a < b < self.programs@.len() implies (#[trigger] self.programs@[a]).node != (#[trigger] self.programs@[b]).node by {
                        let a0 = if a < k { a } else { a + 1 };
                        let b0 = if b < k { b } else { b + 1 };
                        assert(bp[a0].node != bp[b0].node);
                    }
                    assert forall|j: int| 0 <= j < self.programs@.len() implies self.cached((#[trigger] self.programs@[j]).key, self.programs@[j].program) by {
                        let j0 = if j < k { j } else { j + 1 };
                        assert(before.cached(bp[j0].key, bp[j0].program));
                    }
                    assert forall|m: NodeId, kk: ProgramKey, p: ProgramId| p != program implies #[trigger] self.bound(m, kk, p) == before.bound(m, kk, p) by {
                        if before.bound(m, kk, p) {
                            let w = choose|w: int| 0 <= w < bp.len() && (#[trigger] bp[w]).node == m && bp[w].key == kk && bp[w].program == p;
                            assert(w != k);
                            let w1 = if w < k { w } else { w - 1 };
                            assert(self.programs@[w1] == bp[w]);
                        }
                        if self.bound(m, kk, p) {
                            let w = choose|w: int| 0 <= w < self.programs@.len() && (#[trigger] self.programs@[w]).node == m && self.programs@[w].key == kk && self.programs@[w].program == p;
                            let w0 = if w < k { w } else { w + 1 };
                            assert(bp[w0] == self.programs@[w]);
                        }
                    }
                    before.lemma_same_targets(*self);
                }
            } else {
                k = k + 1;
            }
        }
        let mut k: usize = 0;
        while k < self.program_cache.len()
            invariant
                0 <= k <= self.program_cache@.len(),
                self.wf(),
                self.programs@.len() == 0 || forall|j: int| 0 <= j < self.programs@.len() ==> (#[trigger] self.programs@[j]).program != program,
                self.targets@ == old(self).targets@,
                self.next_target == old(self).next_target,
                self.next_program == old(self).next_program,
                forall|j: int| 0 <= j < k ==> (#[trigger] self.program_cache@[j]).program != program,
                forall|kk: ProgramKey, p: ProgramId| p != program ==> #[trigger] self.cached(kk, p) == old(self).cached(kk, p),
                forall|m: NodeId, kk: ProgramKey, p: ProgramId| p != program ==> #[trigger] self.bound(m, kk, p) == old(self).bound(m, kk, p),
            decreases self.program_cache@.len() - k,
        {
            if self.program_cache[k].program == program {
                let ghost before = *self;
                self.program_cache.remove(k);
                proof {
                    assert(self.programs@ == before.programs@);
                    before.lemma_same_programs(*self);
                    let bc = before.program_cache@;
                    assert forall|j: int| 0 <= j < self.program_cache@.len() implies #[trigger] self.program_cache@[j] == (if j < k { bc[j] } else { bc[j + 1] }) by {}
                    assert forall|a: int, b: int| 0 <= a < b < self.program_cache@.len() implies (#[trigger] self.program_cache@[a]).key != (#[trigger] self.program_cache@[b]).key by {
                        let a0 = if a < k { a } else { a + 1 };
                        let b0 = if b < k { b } else { b + 1 };
                        assert(bc[a0].key != bc[b0].key);
                    }
                    assert forall|kk: ProgramKey, p: ProgramId| p != program implies #[trigger] self.cached(kk, p) == before.cached(kk, p) by {
                        if before.cached(kk, p) {
                            let w = choose|w: int| 0 <= w < bc.len() && (#[trigger] bc[w]).key == kk && bc[w].program == p;
                            assert(w != k);
                            let w1 = if w < k { w } else { w - 1 };
                            assert(self.program_cache@[w1] == bc[w]);
                        }
                        if self.cached(kk, p) {
                            let w = choose|w: int| 0 <= w < self.program_cache@.len() && (#[trigger] self.program_cache@[w]).key == kk && self.program_cache@[w].program == p;
                            let w0 = if w < k { w } else { w + 1 };
                            assert(bc[w0] == self.program_cache@[w]);
                        }
                    }
                    assert forall|j: int| 0 <= j < self.programs@.len() implies self.cached((#[trigger] self.programs@[j]).key, self.programs@[j].program) by {
                        assert(before.cached(self.programs@[j].key, self.programs@[j].program));
                    }
                    before.lemma_same_targets(*self);
                }
            } else {
                k = k + 1;
            }
        }
        proof {
            assert forall|kk: ProgramKey| !#[trigger] self.cached(kk, program) by {
                if self.cached(kk, program) {
                    let w = choose|w: int| 0 <= w < self.program_cache@.len() && (#[trigger] self.program_cache@[w]).key == kk && self.program_cache@[w].program == program;
                }
            }
            old(self).lemma_same_targets(*self);
        }
    }
}

/// Room for more passes is room for fewer.
pub proof fn lemma_room_monotone(st: RuntimeState, a: int, b: int)
    requires
        0 <= a <= b,
    ensures
        st.target_room(b) ==> st.target_room(a),
        st.program_room(b) ==> st.program_room(a),
{
}

/// A cached key names a single program.
pub proof fn lemma_cache_functional(s: RuntimeState, key: ProgramKey, prog_a: ProgramId, prog_b: ProgramId)
    requires
        s.wf(),
        s.cached(key, prog_a),
        s.cached(key, prog_b),
    ensures
        prog_a == prog_b,
{
    let i = choose|i: int|
        0 <= i < s.program_cache@.len() && (#[trigger] s.program_cache@[i]).key == key
            && s.program_cache@[i].program == prog_a;
    let j = choose|j: int|
        0 <= j < s.program_cache@.len() && (#[trigger] s.program_cache@[j]).key == key
            && s.program_cache@[j].program == prog_b;
    if i < j {
        assert(s.program_cache@[i].key != s.program_cache@[j].key);
    } else if j < i {
        assert(s.program_cache@[j].key != s.program_cache@[i].key);
    }
}

/// Two nodes whose shaders have identical vertex and fragment text are bound to the same
/// cached program.
pub proof fn lemma_same_source_same_program(
    s: RuntimeState,
    n1: NodeId,
    n2: NodeId,
    src1: ShaderSource,
    src2: ShaderSource,
    prog_a: ProgramId,
    prog_b: ProgramId,
)
    requires
        s.wf(),
        s.bound(n1, key_of(src1.vert@, src1.frag@), prog_a),
        s.bound(n2, key_of(src2.vert@, src2.frag@), prog_b),
        src1.vert@ == src2.vert@,
        src1.frag@ == src2.frag@,
    ensures
        prog_a == prog_b,
{
    let key = key_of(src1.vert@, src1.frag@);
    let i = choose|i: int|
        0 <= i < s.programs@.len() && (#[trigger] s.programs@[i]).node == n1
            && s.programs@[i].key == key && s.programs@[i].program == prog_a;
    let j = choose|j: int|
        0 <= j < s.programs@.len() && (#[trigger] s.programs@[j]).node == n2
            && s.programs@[j].key == key && s.programs@[j].program == prog_b;
    assert(s.cached(s.programs@[i].key, s.programs@[i].program));
    assert(s.cached(s.programs@[j].key, s.programs@[j].program));
    lemma_cache_functional(s, key, prog_a, prog_b);
}

} // verus!
