//! Pure address translation between sandbox-relative offsets and
//! host-absolute addresses.  `0` is the null sentinel on both sides and maps
//! to `0` in either direction without arithmetic.
use vstd::prelude::*;

verus! {

/// Host address corresponding to the sandbox offset `p`.
pub open spec fn spec_to64(base: int, p: int) -> int {
    if p == 0 {
        0
    } else {
        base + p
    }
}

/// Sandbox offset corresponding to the host address `p`.
pub open spec fn spec_to32(base: int, p: int) -> int {
    if p == 0 {
        0
    } else {
        p - base
    }
}

/// The host address `p` is either null or translates to a representable,
/// non-null sandbox offset.
pub open spec fn host_addr_ok(base: int, p: int) -> bool {
    p == 0 || (base < p && p - base <= u32::MAX)
}

/// The sandbox offset `p` is either null or translates to a representable
/// host address.
pub open spec fn sandbox_off_ok(base: int, p: int) -> bool {
    0 <= p <= u32::MAX && (p == 0 || base + p <= u64::MAX)
}

/// Widen a sandbox offset to the host address it denotes.
pub fn to64(base: u64, p: u32) -> (r: u64)
    requires
        p == 0 || base + p <= u64::MAX,
    ensures
        r == spec_to64(base as int, p as int),
{
    if p == 0 {
        0
    } else {
        base + p as u64
    }
}

/// Narrow a host address to the sandbox offset it denotes.  Callers must
/// have checked the range first: silent truncation would corrupt unrelated
/// sandbox memory on the next translation.
pub fn to32(base: u64, p: u64) -> (r: u32)
    requires
        host_addr_ok(base as int, p as int),
    ensures
        r == spec_to32(base as int, p as int),
{
    if p == 0 {
        0
    } else {
        (p - base) as u32
    }
}

/// Range check performed before any narrowing translation.
pub fn host_addr_in_range(base: u64, p: u64) -> (b: bool)
    ensures
        b == host_addr_ok(base as int, p as int),
{
    p == 0 || (p > base && p - base <= 0xFFFF_FFFFu64)
}

/// Widening then narrowing restores the offset; null stays null, and the
/// widened address is itself in range for the narrowing direction.
pub proof fn lemma_to64_then_to32(base: int, off: int)
    requires
        0 <= base,
        0 <= off <= u32::MAX,
        base + off <= u64::MAX,
    ensures
        spec_to32(base, spec_to64(base, off)) == off,
        host_addr_ok(base, spec_to64(base, off)),
        spec_to64(base, 0) == 0,
{
}

/// Narrowing then widening restores the address; null stays null, and the
/// narrowed offset is itself in range for the widening direction.
pub proof fn lemma_to32_then_to64(base: int, p: int)
    requires
        0 <= base,
        p <= u64::MAX,
        host_addr_ok(base, p),
    ensures
        spec_to64(base, spec_to32(base, p)) == p,
        sandbox_off_ok(base, spec_to32(base, p)),
        spec_to32(base, 0) == 0,
{
}

} // verus!
