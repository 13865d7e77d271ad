//! Hook-target bookkeeping: inert scaffolding for function detours.
//!
//! No hooks are currently active; the scan has nothing to resolve and the
//! structure records nothing.  The type is kept so that a host with active
//! detours has a place to cache the addresses it finds, scanned up front
//! together with the patch signatures.

use vstd::prelude::*;

verus! {

/// Cached addresses of hookable functions, found by signature scanning
/// before any patch is applied.
pub struct HookAddresses {}

impl HookAddresses {
    /// Scan for all hook target signatures.  With no hooks defined there
    /// is nothing to look for, so the scan touches nothing and records
    /// nothing.
    pub fn scan(_base: usize) -> (r: HookAddresses)
        ensures
            (r == (HookAddresses {  })),
    {
        HookAddresses {  }
    }
}

} // verus!
