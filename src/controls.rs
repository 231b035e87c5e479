use vstd::prelude::*;

use crate::text::text_eq;

verus! {

/// Actions that an OSC address can be bound to; most read one numeric argument.
#[derive(Debug, Clone, Copy, PartialEq, Eq, Structural)]
pub enum OscActionKind {
    TogglePause,
    Pause,
    Play,
    SetSpeedFromArg,
    NudgeSpeedFromArg,
    JumpNormFromArg,
    ScrubDeltaFromArg,
    BrightnessDeltaFromArg,
    ContrastDeltaFromArg,
    SaturationDeltaFromArg,
}

/// Configuration of a single OSC binding.
#[derive(Debug, Clone)]
pub struct OscBindingConfig {
    /// OSC address, e.g. "/transport/speed".
    pub addr: String,
    pub kind: OscActionKind,
}

/// The action bound to `addr`: the last binding for it wins.
pub open spec fn bound_kind(bindings: Seq<(Seq<char>, OscActionKind)>, addr: Seq<char>) -> Option<OscActionKind>
    decreases bindings.len(),
{
    if bindings.len() == 0 {
        None
    } else if bindings.last().0 == addr {
        Some(bindings.last().1)
    } else {
        bound_kind(bindings.drop_last(), addr)
    }
}

/// Maps OSC addresses to actions.
#[derive(Debug, Clone)]
pub struct Oscmap {
    bindings: Vec<OscBindingConfig>,
}

impl Oscmap {
    pub closed spec fn spec_bindings(self) -> Seq<(Seq<char>, OscActionKind)> {
        self.bindings@.map_values(|b: OscBindingConfig| (b.addr@, b.kind))
    }

    pub fn from_config(cfgs: &[OscBindingConfig]) -> (r: Oscmap)
        ensures
            r.spec_bindings() == cfgs@.map_values(|b: OscBindingConfig| (b.addr@, b.kind)),
    {
        let mut bindings: Vec<OscBindingConfig> = Vec::new();
        let mut k: usize = 0;
        while k < cfgs.len()
            invariant
                0 <= k <= cfgs@.len(),
                bindings@.len() == k,
                forall|i: int| 0 <= i < k ==> (#[trigger] bindings@[i]).addr@ == cfgs@[i].addr@ && bindings@[i].kind == cfgs@[i].kind,
            decreases cfgs@.len() - k,
        {
            let addr = cfgs[k].addr.clone();
            bindings.push(OscBindingConfig { addr, kind: cfgs[k].kind });
            k = k + 1;
        }
        assert(bindings@.map_values(|b: OscBindingConfig| (b.addr@, b.kind)) =~= cfgs@.map_values(|b: OscBindingConfig| (b.addr@, b.kind)));
        Oscmap { bindings }
    }

    /// The action bound to an OSC address.
    pub fn kind_for(&self, addr: &str) -> (r: Option<OscActionKind>)
        ensures
            r == bound_kind(self.spec_bindings(), addr@),
    {
        let ghost all = self.spec_bindings();
        let mut k: usize = self.bindings.len();
        assert(all.subrange(0, all.len() as int) =~= all);
        while k > 0
            invariant
                0 <= k <= all.len(),
                all == self.spec_bindings(),
                bound_kind(all, addr@) == bound_kind(all.subrange(0, k as int), addr@),
            decreases k,
        {
            assert(all.subrange(0, k as int).drop_last() =~= all.subrange(0, k - 1));
            if text_eq(self.bindings[k - 1].addr.as_str(), addr) {
                return Some(self.bindings[k - 1].kind);
            }
            k = k - 1;
        }
        None
    }
}

} // verus!
