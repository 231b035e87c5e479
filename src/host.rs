use vstd::prelude::*;

verus! {

/// Host glue: window and GPU-context creation happen outside the library.
#[derive(Debug, Clone, Copy)]
pub struct Host;

impl Host {
    pub fn new() -> (r: Host) {
        Host
    }
}

} // verus!
