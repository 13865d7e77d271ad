//! A signature scan-and-patch engine.
//!
//! The engine locates byte patterns (with wildcard positions) inside the
//! memory image of a loaded module and overwrites specific bytes relative to
//! each match, toggling page protection around every write.  All of its logic
//! operates on an explicit in-memory model of the address space
//! ([`region::MemorySpace`]): a host adapter snapshots the live process into
//! that model, lets the engine resolve and plan every patch, and then carries
//! the planned writes back out.  Modelling memory as plain data is what makes
//! the scanner, the protected writer and the patch orchestrator verifiable.

pub mod hooks;
pub mod memory;
pub mod patches;
pub mod region;
pub mod sigscan;
