//! The library's laws, stated once over the spec-level model so a reader
//! sees them in one place.  Round-trip identity and address-translation
//! correctness are proved in full here or in the modules they live in; the
//! no-leak law ties the translation bridges' allocation ensures to the
//! release protocol's deallocation ensures.
use vstd::prelude::*;
use crate::model::{ArrayV, SchemaV, array_host_ok, schema_host_ok};
use crate::model::{lemma_array_round_trip, lemma_schema_round_trip};
use crate::model::{to_host_array, to_host_schema, to_sb_array, to_sb_schema};
use crate::sandbox::Sandbox;
use crate::host::HostHeap;

verus! {

/// Law: translating a host-width schema tree to sandbox width and back
/// restores the original tree entirely — in particular every node's child
/// count and flags.
pub proof fn lemma_schema_round_trip_identity(base: int, t: SchemaV)
    requires
        0 <= base,
        base + u32::MAX <= u64::MAX,
        schema_host_ok(base, t),
    ensures
        to_host_schema(base, to_sb_schema(base, t)) == t,
{
    lemma_schema_round_trip(base, t);
}

/// Law: translating a host-width array tree to sandbox width and back
/// restores the original tree entirely — in particular every node's length,
/// null count, offset, buffer count and child count, and every buffer
/// address bit for bit.
pub proof fn lemma_array_round_trip_identity(base: int, t: ArrayV)
    requires
        0 <= base,
        base + u32::MAX <= u64::MAX,
        array_host_ok(base, t),
    ensures
        to_host_array(base, to_sb_array(base, t)) == t,
{
    lemma_array_round_trip(base, t);
}

/// Law: a translation that allocated `c` bytes followed by one release that
/// returned the same `c` bytes leaves the guest allocator's
/// outstanding-bytes counter exactly where it started.  The bridges ensure
/// the allocation side and the release entry points ensure the
/// deallocation side with the same cost function of the tree.
pub proof fn lemma_no_leak_sandbox(sb0: Sandbox, sb1: Sandbox, sb2: Sandbox, c: int)
    requires
        sb1.alloc_bytes == sb0.alloc_bytes + c,
        sb1.dealloc_bytes == sb0.dealloc_bytes,
        sb2.alloc_bytes == sb1.alloc_bytes,
        sb2.dealloc_bytes == sb1.dealloc_bytes + c,
    ensures
        sb2.outstanding() == sb0.outstanding(),
{
}

/// Law: the same conservation holds of the host arena for the
/// sandbox-to-host direction.
pub proof fn lemma_no_leak_host(h0: HostHeap, h1: HostHeap, h2: HostHeap, c: int)
    requires
        h1.alloc_bytes == h0.alloc_bytes + c,
        h1.dealloc_bytes == h0.dealloc_bytes,
        h2.alloc_bytes == h1.alloc_bytes,
        h2.dealloc_bytes == h1.dealloc_bytes + c,
    ensures
        h2.outstanding() == h0.outstanding(),
{
}

} // verus!
