use vstd::prelude::*;
use vstd::string::StringExecFns;

use crate::engine::{ExecOutput, RenderTarget};
use crate::error::{failed_with, EngineError};
use crate::exec::{named_output, ExecOutputs};
use crate::text::text_eq;
use vstd::arithmetic::div_mod::{lemma_mod_add_multiples_vanish, lemma_mod_self_0, lemma_small_mod};

verus! {

/// A consumer of a frame's output image. A sink must not free resources it does not own.
pub trait OutputSink: Sized {
    /// `after` is the sink `before` once it has received `out`.
    spec fn receives(before: Self, after: Self, out: ExecOutput) -> bool;

    fn consume(&mut self, out: &ExecOutput)
        ensures
            Self::receives(*old(self), *final(self), *out),
    ;
}

/// A sink that does nothing.
pub struct NoopSink;

impl OutputSink for NoopSink {
    open spec fn receives(before: Self, after: Self, out: ExecOutput) -> bool {
        true
    }

    fn consume(&mut self, out: &ExecOutput) {
    }
}

/// Hands the same output to two sinks, `a` first; nest it to build trees.
pub struct FanoutSink<A, B> {
    pub a: A,
    pub b: B,
}

impl<A: OutputSink, B: OutputSink> OutputSink for FanoutSink<A, B> {
    /// Both `a` and `b` receive the output.
    open spec fn receives(before: Self, after: Self, out: ExecOutput) -> bool {
        A::receives(before.a, after.a, out) && B::receives(before.b, after.b, out)
    }

    fn consume(&mut self, out: &ExecOutput) {
        self.a.consume(out);
        self.b.consume(out);
    }
}

/// Whether `outs` holds an output named `name`.
pub open spec fn produced(outs: ExecOutputs, name: Seq<char>) -> bool {
    named_output(outs.spec_named(), name) is Some
}

/// Routes each named output to zero or more sinks.
pub struct PatchbaySink<S> {
    routes: Vec<(String, Vec<S>)>,
}

impl<S: OutputSink> PatchbaySink<S> {
    /// The route names, in the order they were first added.
    pub closed spec fn route_names(self) -> Seq<Seq<char>> {
        self.routes@.map_values(|r: (String, Vec<S>)| r.0@)
    }

    /// The sinks of each route.
    pub closed spec fn route_sinks(self) -> Seq<Seq<S>> {
        self.routes@.map_values(|r: (String, Vec<S>)| r.1@)
    }

    /// The number of sinks on each route.
    pub closed spec fn route_sizes(self) -> Seq<int> {
        self.routes@.map_values(|r: (String, Vec<S>)| r.1@.len() as int)
    }

    /// The first route name that `outs` does not produce.
    pub open spec fn first_missing(self, outs: ExecOutputs) -> Option<Seq<char>> {
        if exists|i: int| 0 <= i < self.route_names().len() && !produced(outs, #[trigger] self.route_names()[i]) {
            let i = choose|i: int|
                0 <= i < self.route_names().len() && !produced(outs, #[trigger] self.route_names()[i])
                    && forall|j: int| 0 <= j < i ==> produced(outs, #[trigger] self.route_names()[j]);
            Some(self.route_names()[i])
        } else {
            None
        }
    }

    pub fn new() -> (r: PatchbaySink<S>)
        ensures
            r.route_names().len() == 0,
    {
        PatchbaySink { routes: Vec::new() }
    }

    /// Adds `sink` to the route of `name`, opening the route if it is new.
    pub fn add_route(&mut self, name: &str, sink: S)
        ensures
            ({
                let names = old(self).route_names();
                if exists|i: int| 0 <= i < names.len() && names[i] == name@ {
                    &&& final(self).route_names() == names
                    &&& forall|i: int| 0 <= i < names.len() ==> #[trigger] final(self).route_sizes()[i] == old(self).route_sizes()[i] + if names[i] == name@ && forall|j: int| 0 <= j < i ==> names[j] != name@ { 1int } else { 0int }
                } else {
                    &&& final(self).route_names() == names.push(name@)
                    &&& final(self).route_sizes() == old(self).route_sizes().push(1)
                }
            }),
    {
        let ghost names = self.route_names();
        let mut k: usize = 0;
        while k < self.routes.len()
            invariant
                0 <= k <= self.routes@.len(),
                names == self.route_names(),
                *self == *old(self),
                forall|j: int| 0 <= j < k ==> names[j] != name@,
            decreases self.routes@.len() - k,
        {
            if text_eq(self.routes[k].0.as_str(), name) {
                assert(names[k as int] == name@);
                let ghost before = self.routes@;
                let mut route = self.routes.remove(k);
                route.1.push(sink);
                self.routes.insert(k, route);
                assert forall|i: int| 0 <= i < before.len() implies #[trigger] self.routes@[i].0 == before[i].0 by {
                    if i != k {
                        assert(self.routes@[i] == before[i]);
                    }
                }
                assert(self.route_names() =~= names);
                assert forall|i: int| 0 <= i < names.len() implies #[trigger] self.route_sizes()[i] == old(self).route_sizes()[i] + if names[i] == name@ && forall|j: int| 0 <= j < i ==> names[j] != name@ { 1int } else { 0int } by {
                    if i != k {
                        assert(self.routes@[i] == old(self).routes@[i]);
                        if i > k {
                            assert(names[k as int] == name@);
                        }
                    }
                }
                return;
            }
            k = k + 1;
        }
        let mut sinks: Vec<S> = Vec::new();
        sinks.push(sink);
        self.routes.push((String::from_str(name), sinks));
        assert(self.route_names() =~= names.push(name@));
        assert(self.route_sizes() =~= old(self).route_sizes().push(1));
    }

    /// Hands each routed output to its sinks, route by route. Fails, before any sink is called,
    /// if a route names an output that the frame did not produce.
    pub fn consume_named(&mut self, outs: &ExecOutputs) -> (r: Result<(), EngineError>)
        ensures
            final(self).route_names() == old(self).route_names(),
            final(self).route_sizes() == old(self).route_sizes(),
            match old(self).first_missing(*outs) {
                Some(name) => failed_with(r, "PatchbaySink: missing named output '"@ + name + "'"@)
                    && *final(self) == *old(self),
                None => {
                    &&& r is Ok
                    &&& final(self).route_sinks().len() == old(self).route_sinks().len()
                    &&& forall|i: int, j: int|
                        0 <= i < old(self).route_sinks().len() && 0 <= j < old(self).route_sinks()[i].len()
                            ==> S::receives(
                            #[trigger] old(self).route_sinks()[i][j],
                            final(self).route_sinks()[i][j],
                            named_output(outs.spec_named(), old(self).route_names()[i])->Some_0,
                        )
                },
            },
    {
        let ghost names = self.route_names();
        let mut k: usize = 0;
        while k < self.routes.len()
            invariant
                0 <= k <= self.routes@.len(),
                names == self.route_names(),
                *self == *old(self),
                forall|j: int| 0 <= j < k ==> produced(*outs, #[trigger] names[j]),
            decreases self.routes@.len() - k,
        {
            if outs.get(self.routes[k].0.as_str()).is_none() {
                proof {
                    assert(!produced(*outs, names[k as int]));
                    let i = choose|i: int|
                        0 <= i < names.len() && !produced(*outs, #[trigger] names[i])
                            && forall|j: int| 0 <= j < i ==> produced(*outs, #[trigger] names[j]);
                    if i < k {
                        assert(produced(*outs, names[i]));
                    } else if i > k {
                        assert(produced(*outs, names[k as int]));
                    }
                }
                let mut m = String::from_str("PatchbaySink: missing named output '");
                m.append(self.routes[k].0.as_str());
                m.append("'");
                return Err(EngineError::Other(m));
            }
            k = k + 1;
        }
        let ghost sizes = self.route_sizes();
        let ghost sinks0 = self.route_sinks();
        let mut k: usize = 0;
        while k < self.routes.len()
            invariant
                0 <= k <= self.routes@.len(),
                names == self.route_names(),
                names == old(self).route_names(),
                sizes == self.route_sizes(),
                sinks0 == old(self).route_sinks(),
                self.routes@.len() == sinks0.len(),
                forall|j: int| 0 <= j < names.len() ==> produced(*outs, #[trigger] names[j]),
                forall|i: int| k <= i < sinks0.len() ==> #[trigger] self.route_sinks()[i] == sinks0[i],
                self.route_sinks().len() == sinks0.len(),
                forall|i: int| 0 <= i < k ==> (#[trigger] self.route_sinks()[i]).len() == sinks0[i].len(),
                forall|i: int, j: int|
                    0 <= i < k && 0 <= j < sinks0[i].len() ==> S::receives(#[trigger] sinks0[i][j], self.route_sinks()[i][j], named_output(outs.spec_named(), names[i])->Some_0),
            decreases self.routes@.len() - k,
        {
            let out = match outs.get(self.routes[k].0.as_str()) {
                Some(o) => o,
                None => {
                    proof {
                        assert(self.route_names()[k as int] == self.routes@[k as int].0@);
                        assert(produced(*outs, names[k as int]));
                    }
                    k = k + 1;
                    continue;
                },
            };
            assert(self.route_names()[k as int] == self.routes@[k as int].0@);
            assert(out == named_output(outs.spec_named(), names[k as int])->Some_0);
            let ghost rs_before = self.route_sinks();

            assert(rs_before[k as int] == self.routes@[k as int].1@);
            let ghost before = self.routes@;
            let mut route = self.routes.remove(k);
            let ghost name0 = route.0;
            let ghost orig = route.1@;
            assert(orig == sinks0[k as int]);
            let mut done: Vec<S> = Vec::new();
            let ghost n = route.1@.len();
            while route.1.len() > 0
                invariant
                    done@.len() + route.1@.len() == n,
                    n == orig.len(),
                    route.0 == name0,
                    route.1@ == orig.subrange(done@.len() as int, n as int),
                    forall|t: int| 0 <= t < done@.len() ==> S::receives(#[trigger] orig[t], done@[t], out),
                decreases route.1@.len(),
            {
                let ghost d = done@.len();
                let mut s = route.1.remove(0);
                assert(s == orig[d as int]);
                s.consume(&out);
                done.push(s);
                assert(route.1@ =~= orig.subrange(d as int + 1, n as int));
            }
            let ghost done_v = done@;
            assert(done_v.len() == n);
            route.1 = done;
            assert(route.1@ == done_v);
            assert(route.0 == name0);
            self.routes.insert(k, route);
            assert forall|i: int| 0 <= i < before.len() implies #[trigger] self.routes@[i].0 == before[i].0 && self.routes@[i].1@.len() == before[i].1@.len() by {
                if i != k {
                    assert(self.routes@[i] == before[i]);
                }
            }
            assert forall|i: int| 0 <= i < before.len() && i != k implies #[trigger] self.routes@[i] == before[i] by {}
            assert(self.route_sinks()[k as int] == self.routes@[k as int].1@);
            assert forall|i: int| 0 <= i < before.len() && i != k implies #[trigger] self.route_sinks()[i] == rs_before[i] by {
                assert(self.routes@[i] == before[i]);
            }
            assert forall|i: int| 0 <= i < k + 1 implies (#[trigger] self.route_sinks()[i]).len() == sinks0[i].len() by {
                if i < k {
                    assert(self.route_sinks()[i] == rs_before[i]);
                } else {
                    assert(self.route_sinks()[i] == done_v);
                }
            }
            assert forall|i: int, j: int|
                0 <= i < k + 1 && 0 <= j < sinks0[i].len() implies S::receives(#[trigger] sinks0[i][j], self.route_sinks()[i][j], named_output(outs.spec_named(), names[i])->Some_0) by {
                if i < k {
                    assert(self.route_sinks()[i] == rs_before[i]);
                } else {
                    assert(i == k);
                    assert(self.route_sinks()[i] == done_v);
                    assert(orig[j] == sinks0[i][j]);
                    assert(S::receives(orig[j], done_v[j], out));
                }
            }
            assert(self.route_names() =~= names);
            assert(self.route_sizes() =~= sizes);
            k = k + 1;
        }
        Ok(())
    }
}

/// Reads the output back to host memory every `stride` frames while enabled; keeps the last
/// capture.
#[derive(Debug, Clone)]
pub struct ReadbackSink {
    enabled: bool,
    stride: u64,
    frame_counter: u64,
    last_w: i32,
    last_h: i32,
    last_rgba: Vec<u8>,
}

impl ReadbackSink {
    pub closed spec fn spec_enabled(self) -> bool {
        self.enabled
    }

    pub closed spec fn spec_stride(self) -> u64 {
        self.stride
    }

    pub closed spec fn spec_counter(self) -> u64 {
        self.frame_counter
    }

    /// The last capture as (width, height, RGBA bytes), if there is one.
    pub closed spec fn spec_last(self) -> Option<(i32, i32, Seq<u8>)> {
        if self.last_w > 0 && self.last_h > 0 && self.last_rgba@.len() > 0 {
            Some((self.last_w, self.last_h, self.last_rgba@))
        } else {
            None
        }
    }

    /// A sink that reads back every `stride` frames (a stride of 0 counts as 1).
    pub fn new(stride: u64) -> (r: ReadbackSink)
        ensures
            r.spec_enabled(),
            r.spec_stride() == if stride == 0 { 1 } else { stride },
            r.spec_counter() == 0,
            r.spec_last() is None,
    {
        ReadbackSink {
            enabled: true,
            stride: if stride == 0 { 1 } else { stride },
            frame_counter: 0,
            last_w: 0,
            last_h: 0,
            last_rgba: Vec::new(),
        }
    }

    pub fn set_enabled(&mut self, enabled: bool)
        ensures
            final(self).spec_enabled() == enabled,
            final(self).spec_stride() == old(self).spec_stride(),
            final(self).spec_counter() == old(self).spec_counter(),
            final(self).spec_last() == old(self).spec_last(),
    {
        self.enabled = enabled;
    }

    pub fn set_stride(&mut self, stride: u64)
        ensures
            final(self).spec_stride() == if stride == 0 { 1 } else { stride },
            final(self).spec_enabled() == old(self).spec_enabled(),
            final(self).spec_counter() == old(self).spec_counter(),
            final(self).spec_last() == old(self).spec_last(),
    {
        self.stride = if stride == 0 { 1 } else { stride };
    }

    /// The last capture as (width, height, RGBA bytes), if any.
    pub fn last(&self) -> (r: Option<(i32, i32, &[u8])>)
        ensures
            match self.spec_last() {
                Some((w, h, px)) => r is Some && r->Some_0.0 == w && r->Some_0.1 == h && r->Some_0.2@ == px,
                None => r is None,
            },
    {
        if self.last_w > 0 && self.last_h > 0 && self.last_rgba.len() > 0 {
            Some((self.last_w, self.last_h, self.last_rgba.as_slice()))
        } else {
            None
        }
    }

    /// Forgets the last capture.
    pub fn clear(&mut self)
        ensures
            final(self).spec_last() is None,
            final(self).spec_enabled() == old(self).spec_enabled(),
            final(self).spec_stride() == old(self).spec_stride(),
            final(self).spec_counter() == old(self).spec_counter(),
    {
        self.last_w = 0;
        self.last_h = 0;
        self.last_rgba.clear();
    }

    /// Counts a frame and says whether it is to be read back: while enabled, every frame whose
    /// count is a multiple of the stride.
    pub fn begin_frame(&mut self) -> (r: bool)
        requires
            old(self).spec_stride() > 0,
        ensures
            final(self).spec_stride() == old(self).spec_stride(),
            final(self).spec_enabled() == old(self).spec_enabled(),
            final(self).spec_last() == old(self).spec_last(),
            !old(self).spec_enabled() ==> !r && final(self).spec_counter() == old(self).spec_counter(),
            old(self).spec_enabled() ==> final(self).spec_counter() == (old(self).spec_counter() + 1) % 0x1_0000_0000_0000_0000
                && r == (final(self).spec_counter() % old(self).spec_stride() == 0),
    {
        if !self.enabled {
            return false;
        }
        self.frame_counter = self.frame_counter.wrapping_add(1);
        self.frame_counter % self.stride == 0
    }

    /// Keeps a capture of `w` by `h` pixels.
    pub fn store(&mut self, w: i32, h: i32, rgba: Vec<u8>)
        ensures
            final(self).spec_last() == if w > 0 && h > 0 && rgba@.len() > 0 { Some((w, h, rgba@)) } else { None::<(i32, i32, Seq<u8>)> },
            final(self).spec_enabled() == old(self).spec_enabled(),
            final(self).spec_stride() == old(self).spec_stride(),
            final(self).spec_counter() == old(self).spec_counter(),
    {
        self.last_w = w;
        self.last_h = h;
        self.last_rgba = rgba;
    }
}

/// A pair of targets for internal feedback: one is sampled as the previous frame while the
/// other is drawn into; `swap` exchanges their roles after a frame.
#[derive(Debug, Clone, Copy)]
pub struct PingPongTarget {
    a: RenderTarget,
    b: RenderTarget,
    a_is_prev: bool,
    width: i32,
    height: i32,
}

impl PingPongTarget {
    pub closed spec fn spec_a(self) -> RenderTarget {
        self.a
    }

    pub closed spec fn spec_b(self) -> RenderTarget {
        self.b
    }

    pub closed spec fn spec_a_is_prev(self) -> bool {
        self.a_is_prev
    }

    pub closed spec fn spec_size(self) -> (i32, i32) {
        (self.width, self.height)
    }

    /// A pair over two targets of `width` by `height`; `a` is sampled first.
    pub fn new(a: RenderTarget, b: RenderTarget, width: i32, height: i32) -> (r: PingPongTarget)
        ensures
            r.spec_a() == a,
            r.spec_b() == b,
            r.spec_a_is_prev(),
            r.spec_size() == (width, height),
    {
        PingPongTarget { a, b, a_is_prev: true, width, height }
    }

    pub fn size(&self) -> (r: (i32, i32))
        ensures
            r == self.spec_size(),
    {
        (self.width, self.height)
    }

    /// The target to sample as the previous frame.
    pub fn prev_target(&self) -> (r: RenderTarget)
        ensures
            r == if self.spec_a_is_prev() { self.spec_a() } else { self.spec_b() },
    {
        if self.a_is_prev {
            self.a
        } else {
            self.b
        }
    }

    /// The target to draw this frame into.
    pub fn next_target(&self) -> (r: RenderTarget)
        ensures
            r == if self.spec_a_is_prev() { self.spec_b() } else { self.spec_a() },
    {
        if self.a_is_prev {
            self.b
        } else {
            self.a
        }
    }

    /// Exchanges the roles after a frame: what was drawn becomes the previous frame.
    pub fn swap(&mut self)
        ensures
            final(self).spec_a_is_prev() == !old(self).spec_a_is_prev(),
            final(self).spec_a() == old(self).spec_a(),
            final(self).spec_b() == old(self).spec_b(),
            final(self).spec_size() == old(self).spec_size(),
    {
        self.a_is_prev = !self.a_is_prev;
    }

    /// Replaces both targets with new ones of a new size; `a` is sampled first again.
    pub fn resize(&mut self, a: RenderTarget, b: RenderTarget, width: i32, height: i32)
        ensures
            final(self).spec_a() == a,
            final(self).spec_b() == b,
            final(self).spec_a_is_prev(),
            final(self).spec_size() == (width, height),
    {
        self.a = a;
        self.b = b;
        self.a_is_prev = true;
        self.width = width;
        self.height = height;
    }
}

/// After a swap, the target drawn into becomes the one sampled as the previous frame.
pub proof fn lemma_swap_exposes_drawn_target(before: PingPongTarget, after: PingPongTarget)
    requires
        after.spec_a_is_prev() == !before.spec_a_is_prev(),
        after.spec_a() == before.spec_a(),
        after.spec_b() == before.spec_b(),
    ensures
        (if after.spec_a_is_prev() { after.spec_a() } else { after.spec_b() }) == (if before.spec_a_is_prev() { before.spec_b() } else { before.spec_a() }),
{
}

/// A temporal ring: `capacity` slots that the host writes in turn, the oldest overwritten first,
/// with lookups by age.
#[derive(Debug, Clone)]
pub struct TemporalRing {
    w: i32,
    h: i32,
    capacity: usize,
    head: usize,
}

impl TemporalRing {
    pub closed spec fn spec_capacity(self) -> int {
        self.capacity as int
    }

    /// The slot that the next push writes.
    pub closed spec fn spec_head(self) -> int {
        self.head as int
    }

    pub closed spec fn wf(self) -> bool {
        0 < self.capacity && self.head < self.capacity
    }

    /// The slot holding the image pushed `age` pushes ago (0 = newest); ages wrap at the capacity.
    pub open spec fn slot_of_age(self, age: int) -> int {
        (self.spec_head() + self.spec_capacity() - 1 - (age % self.spec_capacity())) % self.spec_capacity()
    }

    /// A ring of `capacity` slots (at least one) of `w` by `h` images.
    pub fn new(w: i32, h: i32, capacity: usize) -> (r: TemporalRing)
        ensures
            r.wf(),
            r.spec_capacity() == if capacity == 0 { 1 } else { capacity as int },
            r.spec_head() == 0,
            r.spec_size() == (w, h),
    {
        let cap = if capacity == 0 { 1 } else { capacity };
        TemporalRing { w, h, capacity: cap, head: 0 }
    }

    pub fn capacity(&self) -> (r: usize)
        ensures
            r as int == self.spec_capacity(),
    {
        self.capacity
    }

    pub fn head(&self) -> (r: usize)
        ensures
            r as int == self.spec_head(),
    {
        self.head
    }

    pub closed spec fn spec_size(self) -> (i32, i32) {
        (self.w, self.h)
    }

    pub fn size(&self) -> (r: (i32, i32))
        ensures
            r == self.spec_size(),
    {
        (self.w, self.h)
    }

    /// Whether this ring is what `new(w, h, capacity)` would allocate: same capacity and size.
    /// A ring that does not fit is allocated anew.
    pub fn fits(&self, capacity: usize, w: i32, h: i32) -> (r: bool)
        ensures
            r == (self.spec_capacity() == (if capacity == 0 { 1 } else { capacity as int }) && self.spec_size() == (w, h)),
    {
        let cap = if capacity == 0 { 1 } else { capacity };
        self.capacity == cap && self.w == w && self.h == h
    }

    /// Records a push: returns the slot to write, and moves the head on.
    pub fn push(&mut self) -> (slot: usize)
        requires
            old(self).wf(),
        ensures
            final(self).wf(),
            slot as int == old(self).spec_head(),
            final(self).spec_capacity() == old(self).spec_capacity(),
            final(self).spec_head() == (old(self).spec_head() + 1) % old(self).spec_capacity(),
    {
        let slot = self.head;
        proof {
            if self.head + 1 < self.capacity {
                lemma_small_mod((self.head + 1) as nat, self.capacity as nat);
            } else {
                lemma_mod_self_0(self.capacity as int);
            }
        }
        self.head = if self.head + 1 == self.capacity { 0 } else { self.head + 1 };
        slot
    }

    /// The slot holding the image pushed `frames_ago` pushes ago (0 = newest).
    pub fn slot_for_frames_ago(&self, frames_ago: usize) -> (r: usize)
        requires
            self.wf(),
        ensures
            r as int == self.slot_of_age(frames_ago as int),
            r < self.spec_capacity(),
    {
        let n = self.capacity;
        let back = frames_ago % n;
        let d = n - 1 - back;
        proof {
            let t = self.head + d;
            if t >= n {
                lemma_mod_add_multiples_vanish(t - n, n as int);
                lemma_small_mod((t - n) as nat, n as nat);
            } else {
                lemma_small_mod(t as nat, n as nat);
            }
        }
        if self.head >= n - d {
            self.head - (n - d)
        } else {
            self.head + d
        }
    }
}

/// A push writes the slot that held the oldest image, and afterwards that slot holds the
/// newest one.
pub proof fn lemma_push_overwrites_oldest(before: TemporalRing, after: TemporalRing, slot: int)
    requires
        before.wf(),
        slot == before.spec_head(),
        after.spec_capacity() == before.spec_capacity(),
        after.spec_head() == (before.spec_head() + 1) % before.spec_capacity(),
    ensures
        slot == before.slot_of_age(before.spec_capacity() - 1),
        slot == after.slot_of_age(0),
{
    let n = before.spec_capacity();
    let h = before.spec_head();
    lemma_small_mod((n - 1) as nat, n as nat);
    lemma_small_mod(h as nat, n as nat);
    lemma_small_mod(0, n as nat);
    if h + 1 < n {
        lemma_small_mod((h + 1) as nat, n as nat);
        lemma_mod_add_multiples_vanish(h, n);
        assert(h + 1 + n - 1 - 0 == n + h);
    } else {
        lemma_mod_self_0(n);
    }
}

} // verus!
