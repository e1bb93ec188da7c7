//! A dual-width bridge for columnar data exchanged through a C-data-interface
//! style schema/array tree between a host process and a sandboxed guest that
//! only understands offsets into its own bounded linear memory.
//!
//! The bridge translates schema and array trees between the host-width
//! representation (full 64-bit addresses, owned recursive values) and the
//! sandbox-width representation (32-bit offsets into the guest's linear
//! memory, modelled here as an arena of node slots with exact allocation
//! accounting).  Paired release entry points tear down both representations
//! of a translated tree exactly once, bottom-up, and are idempotent.
use vstd::prelude::*;

pub mod addr;
pub mod model;
pub mod host;
pub mod sandbox;
pub mod bridge;
pub mod release;
pub mod session;
pub mod types;
pub mod laws;

verus! {

/// Errors of the bridge, as they propagate to the callers of the
/// translation entry points.
#[derive(Debug, Clone, Copy, PartialEq, Eq, Structural)]
pub enum CoreError {
    /// The destination-side arena cannot serve an allocation.
    AllocationFailure,
    /// A host address cannot be represented as a sandbox-width offset,
    /// or a sandbox offset does not map back into the host range.
    AddressRangeViolation,
    /// A node's child or dictionary references do not form a tree that the
    /// release protocol could walk (out-of-range or non-well-founded links).
    MalformedStructure,
}

/// Packed width of a sandbox-width schema node.
pub const SCHEMA32_NODE_BYTES: u64 = 44;

/// Packed width of a sandbox-width array node.
pub const ARRAY32_NODE_BYTES: u64 = 60;

/// Width of the private bookkeeping record of a translated sandbox schema.
pub const SCHEMA32_PRIV_BYTES: u64 = 24;

/// Width of the private bookkeeping record of a translated sandbox array.
pub const ARRAY32_PRIV_BYTES: u64 = 32;

/// Width of one sandbox-width pointer cell in an auxiliary array.
pub const CELL32_BYTES: u64 = 4;

/// Width of one host-width pointer cell in an auxiliary array.
pub const CELL64_BYTES: u64 = 8;

/// Width of the private bookkeeping record of a translated host schema.
pub const SCHEMA64_PRIV_BYTES: u64 = 24;

/// Width of the private bookkeeping record of a translated host array.
pub const ARRAY64_PRIV_BYTES: u64 = 40;

/// Largest child or buffer count a single node may carry; keeps every
/// auxiliary array size representable in a sandbox-width integer.
pub const MAX_FANOUT: usize = 0x0FFF_FFFF;

} // verus!
