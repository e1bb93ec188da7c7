//! Mathematical model of the two entity kinds exchanged through the bridge:
//! schema trees and array trees.  One spec-level tree type per kind serves
//! both physical widths; a host-width tree stores full addresses in its
//! address-valued fields, a sandbox-width tree stores offsets (as values
//! below the sandbox-width bound) in the same fields.
use vstd::prelude::*;
use crate::addr::{host_addr_ok, sandbox_off_ok, spec_to32, spec_to64};
use crate::{
    ARRAY32_NODE_BYTES, ARRAY32_PRIV_BYTES, ARRAY64_PRIV_BYTES, CELL32_BYTES, CELL64_BYTES,
    MAX_FANOUT, SCHEMA32_NODE_BYTES, SCHEMA32_PRIV_BYTES, SCHEMA64_PRIV_BYTES,
};

verus! {

/// Abstract schema node: format/name/metadata are address-valued, flags is
/// copied verbatim, and the child list and optional dictionary are owned
/// subtrees.  The child count of the physical layouts is `children.len()`.
#[verifier::ext_equal]
pub struct SchemaV {
    pub format: u64,
    pub name: u64,
    pub metadata: u64,
    pub flags: i64,
    pub children: Seq<SchemaV>,
    pub dictionary: Option<Box<SchemaV>>,
}

/// Abstract array node: length/null_count/offset are copied verbatim,
/// buffers holds address-valued raw buffer locations (payloads are shared,
/// never copied), and children/dictionary are owned subtrees.
#[verifier::ext_equal]
pub struct ArrayV {
    pub length: i64,
    pub null_count: i64,
    pub offset: i64,
    pub buffers: Seq<u64>,
    pub children: Seq<ArrayV>,
    pub dictionary: Option<Box<ArrayV>>,
}

/// The view of an entirely null schema node.
pub open spec fn empty_schema_v() -> SchemaV {
    SchemaV {
        format: 0,
        name: 0,
        metadata: 0,
        flags: 0,
        children: Seq::empty(),
        dictionary: None,
    }
}

/// The view of an entirely null array node.
pub open spec fn empty_array_v() -> ArrayV {
    ArrayV {
        length: 0,
        null_count: 0,
        offset: 0,
        buffers: Seq::empty(),
        children: Seq::empty(),
        dictionary: None,
    }
}

// ---------------------------------------------------------------------
// Validity of a tree with respect to one translation direction.
// ---------------------------------------------------------------------

/// Every address in the host-width schema tree can be narrowed, and every
/// fan-out is small enough for its auxiliary array size to stay
/// representable.
pub open spec fn schema_host_ok(base: int, t: SchemaV) -> bool
    decreases t,
{
    &&& host_addr_ok(base, t.format as int)
    &&& host_addr_ok(base, t.name as int)
    &&& host_addr_ok(base, t.metadata as int)
    &&& t.children.len() <= MAX_FANOUT
    &&& (forall|i: int| 0 <= i < t.children.len() ==> schema_host_ok(base, #[trigger] t.children[i]))
    &&& match t.dictionary {
        Some(d) => schema_host_ok(base, *d),
        None => true,
    }
}

/// Every address in the host-width array tree can be narrowed.
pub open spec fn array_host_ok(base: int, t: ArrayV) -> bool
    decreases t,
{
    &&& t.buffers.len() <= MAX_FANOUT
    &&& t.children.len() <= MAX_FANOUT
    &&& (forall|i: int| 0 <= i < t.buffers.len() ==> host_addr_ok(base, #[trigger] t.buffers[i] as int))
    &&& (forall|i: int| 0 <= i < t.children.len() ==> array_host_ok(base, #[trigger] t.children[i]))
    &&& match t.dictionary {
        Some(d) => array_host_ok(base, *d),
        None => true,
    }
}

/// Every offset in the sandbox-width schema tree can be widened.
pub open spec fn schema_sb_ok(base: int, t: SchemaV) -> bool
    decreases t,
{
    &&& sandbox_off_ok(base, t.format as int)
    &&& sandbox_off_ok(base, t.name as int)
    &&& sandbox_off_ok(base, t.metadata as int)
    &&& t.children.len() <= MAX_FANOUT
    &&& (forall|i: int| 0 <= i < t.children.len() ==> schema_sb_ok(base, #[trigger] t.children[i]))
    &&& match t.dictionary {
        Some(d) => schema_sb_ok(base, *d),
        None => true,
    }
}

/// Every offset in the sandbox-width array tree can be widened.
pub open spec fn array_sb_ok(base: int, t: ArrayV) -> bool
    decreases t,
{
    &&& t.buffers.len() <= MAX_FANOUT
    &&& t.children.len() <= MAX_FANOUT
    &&& (forall|i: int| 0 <= i < t.buffers.len() ==> sandbox_off_ok(base, #[trigger] t.buffers[i] as int))
    &&& (forall|i: int| 0 <= i < t.children.len() ==> array_sb_ok(base, #[trigger] t.children[i]))
    &&& match t.dictionary {
        Some(d) => array_sb_ok(base, *d),
        None => true,
    }
}

// ---------------------------------------------------------------------
// The translation itself, as a pure map over trees.
// ---------------------------------------------------------------------

/// Narrow a host-width schema tree to its sandbox-width counterpart.
pub open spec fn to_sb_schema(base: int, t: SchemaV) -> SchemaV
    decreases t,
{
    SchemaV {
        format: spec_to32(base, t.format as int) as u64,
        name: spec_to32(base, t.name as int) as u64,
        metadata: spec_to32(base, t.metadata as int) as u64,
        flags: t.flags,
        children: to_sb_schemas(base, t.children),
        dictionary: match t.dictionary {
            Some(d) => Some(Box::new(to_sb_schema(base, *d))),
            None => None,
        },
    }
}

pub open spec fn to_sb_schemas(base: int, s: Seq<SchemaV>) -> Seq<SchemaV>
    decreases s,
{
    if s.len() == 0 {
        Seq::empty()
    } else {
        to_sb_schemas(base, s.drop_last()).push(to_sb_schema(base, s.last()))
    }
}

/// Widen a sandbox-width schema tree to its host-width counterpart.
pub open spec fn to_host_schema(base: int, t: SchemaV) -> SchemaV
    decreases t,
{
    SchemaV {
        format: spec_to64(base, t.format as int) as u64,
        name: spec_to64(base, t.name as int) as u64,
        metadata: spec_to64(base, t.metadata as int) as u64,
        flags: t.flags,
        children: to_host_schemas(base, t.children),
        dictionary: match t.dictionary {
            Some(d) => Some(Box::new(to_host_schema(base, *d))),
            None => None,
        },
    }
}

pub open spec fn to_host_schemas(base: int, s: Seq<SchemaV>) -> Seq<SchemaV>
    decreases s,
{
    if s.len() == 0 {
        Seq::empty()
    } else {
        to_host_schemas(base, s.drop_last()).push(to_host_schema(base, s.last()))
    }
}

/// Narrow every buffer address of a host-width array.
pub open spec fn to_sb_bufs(base: int, s: Seq<u64>) -> Seq<u64>
    decreases s,
{
    if s.len() == 0 {
        Seq::empty()
    } else {
        to_sb_bufs(base, s.drop_last()).push(spec_to32(base, s.last() as int) as u64)
    }
}

/// Widen every buffer offset of a sandbox-width array.
pub open spec fn to_host_bufs(base: int, s: Seq<u64>) -> Seq<u64>
    decreases s,
{
    if s.len() == 0 {
        Seq::empty()
    } else {
        to_host_bufs(base, s.drop_last()).push(spec_to64(base, s.last() as int) as u64)
    }
}

/// Narrow a host-width array tree to its sandbox-width counterpart.
pub open spec fn to_sb_array(base: int, t: ArrayV) -> ArrayV
    decreases t,
{
    ArrayV {
        length: t.length,
        null_count: t.null_count,
        offset: t.offset,
        buffers: to_sb_bufs(base, t.buffers),
        children: to_sb_arrays(base, t.children),
        dictionary: match t.dictionary {
            Some(d) => Some(Box::new(to_sb_array(base, *d))),
            None => None,
        },
    }
}

pub open spec fn to_sb_arrays(base: int, s: Seq<ArrayV>) -> Seq<ArrayV>
    decreases s,
{
    if s.len() == 0 {
        Seq::empty()
    } else {
        to_sb_arrays(base, s.drop_last()).push(to_sb_array(base, s.last()))
    }
}

/// Widen a sandbox-width array tree to its host-width counterpart.
pub open spec fn to_host_array(base: int, t: ArrayV) -> ArrayV
    decreases t,
{
    ArrayV {
        length: t.length,
        null_count: t.null_count,
        offset: t.offset,
        buffers: to_host_bufs(base, t.buffers),
        children: to_host_arrays(base, t.children),
        dictionary: match t.dictionary {
            Some(d) => Some(Box::new(to_host_array(base, *d))),
            None => None,
        },
    }
}

pub open spec fn to_host_arrays(base: int, s: Seq<ArrayV>) -> Seq<ArrayV>
    decreases s,
{
    if s.len() == 0 {
        Seq::empty()
    } else {
        to_host_arrays(base, s.drop_last()).push(to_host_array(base, s.last()))
    }
}

// ---------------------------------------------------------------------
// Indexing lemmas for the sequence-level maps.
// ---------------------------------------------------------------------

pub proof fn lemma_to_sb_schemas_index(base: int, s: Seq<SchemaV>, i: int)
    requires
        0 <= i < s.len(),
    ensures
        to_sb_schemas(base, s).len() == s.len(),
        to_sb_schemas(base, s)[i] == to_sb_schema(base, s[i]),
    decreases s.len(),
{
    if i < s.len() - 1 {
        lemma_to_sb_schemas_index(base, s.drop_last(), i);
    } else {
        lemma_to_sb_schemas_len(base, s.drop_last());
    }
}

pub proof fn lemma_to_sb_schemas_len(base: int, s: Seq<SchemaV>)
    ensures
        to_sb_schemas(base, s).len() == s.len(),
    decreases s.len(),
{
    if s.len() > 0 {
        lemma_to_sb_schemas_len(base, s.drop_last());
    }
}

pub proof fn lemma_to_host_schemas_index(base: int, s: Seq<SchemaV>, i: int)
    requires
        0 <= i < s.len(),
    ensures
        to_host_schemas(base, s).len() == s.len(),
        to_host_schemas(base, s)[i] == to_host_schema(base, s[i]),
    decreases s.len(),
{
    if i < s.len() - 1 {
        lemma_to_host_schemas_index(base, s.drop_last(), i);
    } else {
        lemma_to_host_schemas_len(base, s.drop_last());
    }
}

pub proof fn lemma_to_host_schemas_len(base: int, s: Seq<SchemaV>)
    ensures
        to_host_schemas(base, s).len() == s.len(),
    decreases s.len(),
{
    if s.len() > 0 {
        lemma_to_host_schemas_len(base, s.drop_last());
    }
}

pub proof fn lemma_to_sb_arrays_index(base: int, s: Seq<ArrayV>, i: int)
    requires
        0 <= i < s.len(),
    ensures
        to_sb_arrays(base, s).len() == s.len(),
        to_sb_arrays(base, s)[i] == to_sb_array(base, s[i]),
    decreases s.len(),
{
    if i < s.len() - 1 {
        lemma_to_sb_arrays_index(base, s.drop_last(), i);
    } else {
        lemma_to_sb_arrays_len(base, s.drop_last());
    }
}

pub proof fn lemma_to_sb_arrays_len(base: int, s: Seq<ArrayV>)
    ensures
        to_sb_arrays(base, s).len() == s.len(),
    decreases s.len(),
{
    if s.len() > 0 {
        lemma_to_sb_arrays_len(base, s.drop_last());
    }
}

pub proof fn lemma_to_host_arrays_index(base: int, s: Seq<ArrayV>, i: int)
    requires
        0 <= i < s.len(),
    ensures
        to_host_arrays(base, s).len() == s.len(),
        to_host_arrays(base, s)[i] == to_host_array(base, s[i]),
    decreases s.len(),
{
    if i < s.len() - 1 {
        lemma_to_host_arrays_index(base, s.drop_last(), i);
    } else {
        lemma_to_host_arrays_len(base, s.drop_last());
    }
}

pub proof fn lemma_to_host_arrays_len(base: int, s: Seq<ArrayV>)
    ensures
        to_host_arrays(base, s).len() == s.len(),
    decreases s.len(),
{
    if s.len() > 0 {
        lemma_to_host_arrays_len(base, s.drop_last());
    }
}

pub proof fn lemma_to_sb_bufs_index(base: int, s: Seq<u64>, i: int)
    requires
        0 <= i < s.len(),
    ensures
        to_sb_bufs(base, s).len() == s.len(),
        to_sb_bufs(base, s)[i] == spec_to32(base, s[i] as int) as u64,
    decreases s.len(),
{
    if i < s.len() - 1 {
        lemma_to_sb_bufs_index(base, s.drop_last(), i);
    } else {
        lemma_to_sb_bufs_len(base, s.drop_last());
    }
}

pub proof fn lemma_to_sb_bufs_len(base: int, s: Seq<u64>)
    ensures
        to_sb_bufs(base, s).len() == s.len(),
    decreases s.len(),
{
    if s.len() > 0 {
        lemma_to_sb_bufs_len(base, s.drop_last());
    }
}

pub proof fn lemma_to_host_bufs_index(base: int, s: Seq<u64>, i: int)
    requires
        0 <= i < s.len(),
    ensures
        to_host_bufs(base, s).len() == s.len(),
        to_host_bufs(base, s)[i] == spec_to64(base, s[i] as int) as u64,
    decreases s.len(),
{
    if i < s.len() - 1 {
        lemma_to_host_bufs_index(base, s.drop_last(), i);
    } else {
        lemma_to_host_bufs_len(base, s.drop_last());
    }
}

pub proof fn lemma_to_host_bufs_len(base: int, s: Seq<u64>)
    ensures
        to_host_bufs(base, s).len() == s.len(),
    decreases s.len(),
{
    if s.len() > 0 {
        lemma_to_host_bufs_len(base, s.drop_last());
    }
}

// ---------------------------------------------------------------------
// Round-trip identity: narrowing then widening restores the whole tree.
// ---------------------------------------------------------------------

/// Law: translating a host-width schema tree to sandbox-width and back
/// yields the original tree, node for node and field for field.
pub proof fn lemma_schema_round_trip(base: int, t: SchemaV)
    requires
        0 <= base,
        base + u32::MAX <= u64::MAX,
        schema_host_ok(base, t),
    ensures
        schema_sb_ok(base, to_sb_schema(base, t)),
        to_host_schema(base, to_sb_schema(base, t)) == t,
    decreases t,
{
    crate::addr::lemma_to32_then_to64(base, t.format as int);
    crate::addr::lemma_to32_then_to64(base, t.name as int);
    crate::addr::lemma_to32_then_to64(base, t.metadata as int);
    let sb = to_sb_schema(base, t);
    let back = to_host_schema(base, sb);
    lemma_to_sb_schemas_len(base, t.children);
    lemma_to_host_schemas_len(base, sb.children);
    assert forall|i: int| 0 <= i < sb.children.len() implies schema_sb_ok(
        base,
        #[trigger] sb.children[i],
    ) by {
        lemma_to_sb_schemas_index(base, t.children, i);
        lemma_schema_round_trip(base, t.children[i]);
    }
    assert forall|i: int| 0 <= i < t.children.len() implies #[trigger] back.children[i]
        == t.children[i] by {
        lemma_to_sb_schemas_index(base, t.children, i);
        lemma_to_host_schemas_index(base, sb.children, i);
        lemma_schema_round_trip(base, t.children[i]);
    }
    match t.dictionary {
        Some(d) => {
            lemma_schema_round_trip(base, *d);
        },
        None => {},
    }
    assert(back.children =~= t.children);
    assert(back =~= t);
}

/// Law: translating a host-width array tree to sandbox-width and back
/// yields the original tree, buffer addresses restored bit for bit.
pub proof fn lemma_array_round_trip(base: int, t: ArrayV)
    requires
        0 <= base,
        base + u32::MAX <= u64::MAX,
        array_host_ok(base, t),
    ensures
        array_sb_ok(base, to_sb_array(base, t)),
        to_host_array(base, to_sb_array(base, t)) == t,
    decreases t,
{
    let sb = to_sb_array(base, t);
    let back = to_host_array(base, sb);
    lemma_to_sb_bufs_len(base, t.buffers);
    lemma_to_host_bufs_len(base, sb.buffers);
    lemma_to_sb_arrays_len(base, t.children);
    lemma_to_host_arrays_len(base, sb.children);
    assert forall|i: int| 0 <= i < sb.buffers.len() implies sandbox_off_ok(
        base,
        #[trigger] sb.buffers[i] as int,
    ) by {
        lemma_to_sb_bufs_index(base, t.buffers, i);
        crate::addr::lemma_to32_then_to64(base, t.buffers[i] as int);
    }
    assert forall|i: int| 0 <= i < t.buffers.len() implies #[trigger] back.buffers[i]
        == t.buffers[i] by {
        lemma_to_sb_bufs_index(base, t.buffers, i);
        lemma_to_host_bufs_index(base, sb.buffers, i);
        crate::addr::lemma_to32_then_to64(base, t.buffers[i] as int);
    }
    assert forall|i: int| 0 <= i < sb.children.len() implies array_sb_ok(
        base,
        #[trigger] sb.children[i],
    ) by {
        lemma_to_sb_arrays_index(base, t.children, i);
        lemma_array_round_trip(base, t.children[i]);
    }
    assert forall|i: int| 0 <= i < t.children.len() implies #[trigger] back.children[i]
        == t.children[i] by {
        lemma_to_sb_arrays_index(base, t.children, i);
        lemma_to_host_arrays_index(base, sb.children, i);
        lemma_array_round_trip(base, t.children[i]);
    }
    match t.dictionary {
        Some(d) => {
            lemma_array_round_trip(base, *d);
        },
        None => {},
    }
    assert(back.buffers =~= t.buffers);
    assert(back.children =~= t.children);
    assert(back =~= t);
}

// ---------------------------------------------------------------------
// Allocation cost of a translated tree, per destination side.
// ---------------------------------------------------------------------

/// Bytes the host-to-sandbox translation allocates in the sandbox for a
/// schema tree: per node its own storage, its private record, and one
/// offset cell per child, plus the subtrees.
pub open spec fn sb_schema_cost(t: SchemaV) -> int
    decreases t,
{
    SCHEMA32_NODE_BYTES as int + SCHEMA32_PRIV_BYTES as int + (if t.children.len() > 0 {
        CELL32_BYTES as int * t.children.len()
    } else {
        0
    }) + sb_schemas_cost(t.children) + (match t.dictionary {
        Some(d) => sb_schema_cost(*d),
        None => 0,
    })
}

pub open spec fn sb_schemas_cost(s: Seq<SchemaV>) -> int
    decreases s,
{
    if s.len() == 0 {
        0
    } else {
        sb_schemas_cost(s.drop_last()) + sb_schema_cost(s.last())
    }
}

/// Bytes the host-to-sandbox translation allocates in the sandbox for an
/// array tree; arrays also carry one offset cell per raw buffer.
pub open spec fn sb_array_cost(t: ArrayV) -> int
    decreases t,
{
    ARRAY32_NODE_BYTES as int + ARRAY32_PRIV_BYTES as int + (if t.buffers.len() > 0 {
        CELL32_BYTES as int * t.buffers.len()
    } else {
        0
    }) + (if t.children.len() > 0 {
        CELL32_BYTES as int * t.children.len()
    } else {
        0
    }) + sb_arrays_cost(t.children) + (match t.dictionary {
        Some(d) => sb_array_cost(*d),
        None => 0,
    })
}

pub open spec fn sb_arrays_cost(s: Seq<ArrayV>) -> int
    decreases s,
{
    if s.len() == 0 {
        0
    } else {
        sb_arrays_cost(s.drop_last()) + sb_array_cost(s.last())
    }
}

/// Bytes the sandbox-to-host translation allocates on the host for a schema
/// tree: per node its private record and one pointer cell per child.
pub open spec fn host_schema_cost(t: SchemaV) -> int
    decreases t,
{
    SCHEMA64_PRIV_BYTES as int + (if t.children.len() > 0 {
        CELL64_BYTES as int * t.children.len()
    } else {
        0
    }) + host_schemas_cost(t.children) + (match t.dictionary {
        Some(d) => host_schema_cost(*d),
        None => 0,
    })
}

pub open spec fn host_schemas_cost(s: Seq<SchemaV>) -> int
    decreases s,
{
    if s.len() == 0 {
        0
    } else {
        host_schemas_cost(s.drop_last()) + host_schema_cost(s.last())
    }
}

/// Bytes the sandbox-to-host translation allocates on the host for an
/// array tree.
pub open spec fn host_array_cost(t: ArrayV) -> int
    decreases t,
{
    ARRAY64_PRIV_BYTES as int + (if t.buffers.len() > 0 {
        CELL64_BYTES as int * t.buffers.len()
    } else {
        0
    }) + (if t.children.len() > 0 {
        CELL64_BYTES as int * t.children.len()
    } else {
        0
    }) + host_arrays_cost(t.children) + (match t.dictionary {
        Some(d) => host_array_cost(*d),
        None => 0,
    })
}

pub open spec fn host_arrays_cost(s: Seq<ArrayV>) -> int
    decreases s,
{
    if s.len() == 0 {
        0
    } else {
        host_arrays_cost(s.drop_last()) + host_array_cost(s.last())
    }
}

// ---------------------------------------------------------------------
// Arithmetic facts about costs.
// ---------------------------------------------------------------------

pub proof fn lemma_sb_schema_cost_pos(t: SchemaV)
    ensures
        sb_schema_cost(t) >= SCHEMA32_NODE_BYTES,
    decreases t,
{
    lemma_sb_schemas_cost_nonneg(t.children);
    match t.dictionary {
        Some(d) => lemma_sb_schema_cost_pos(*d),
        None => {},
    }
}

pub proof fn lemma_sb_schemas_cost_nonneg(s: Seq<SchemaV>)
    ensures
        sb_schemas_cost(s) >= 0,
    decreases s,
{
    if s.len() > 0 {
        lemma_sb_schemas_cost_nonneg(s.drop_last());
        lemma_sb_schema_cost_pos(s.last());
    }
}

pub proof fn lemma_sb_schemas_cost_take(s: Seq<SchemaV>, i: int)
    requires
        0 <= i < s.len(),
    ensures
        sb_schemas_cost(s.take(i + 1)) == sb_schemas_cost(s.take(i)) + sb_schema_cost(s[i]),
{
    assert(s.take(i + 1).drop_last() =~= s.take(i));
    assert(s.take(i + 1).last() == s[i]);
}

pub proof fn lemma_sb_schemas_cost_prefix_bound(s: Seq<SchemaV>, j: int)
    requires
        0 <= j <= s.len(),
    ensures
        sb_schemas_cost(s) >= sb_schemas_cost(s.take(j)),
    decreases s.len() - j,
{
    if j == s.len() {
        assert(s.take(j) =~= s);
    } else {
        lemma_sb_schemas_cost_prefix_bound(s, j + 1);
        lemma_sb_schemas_cost_take(s, j);
        lemma_sb_schema_cost_pos(s[j]);
    }
}

pub proof fn lemma_sb_array_cost_pos(t: ArrayV)
    ensures
        sb_array_cost(t) >= ARRAY32_NODE_BYTES,
    decreases t,
{
    lemma_sb_arrays_cost_nonneg(t.children);
    match t.dictionary {
        Some(d) => lemma_sb_array_cost_pos(*d),
        None => {},
    }
}

pub proof fn lemma_sb_arrays_cost_nonneg(s: Seq<ArrayV>)
    ensures
        sb_arrays_cost(s) >= 0,
    decreases s,
{
    if s.len() > 0 {
        lemma_sb_arrays_cost_nonneg(s.drop_last());
        lemma_sb_array_cost_pos(s.last());
    }
}

pub proof fn lemma_sb_arrays_cost_take(s: Seq<ArrayV>, i: int)
    requires
        0 <= i < s.len(),
    ensures
        sb_arrays_cost(s.take(i + 1)) == sb_arrays_cost(s.take(i)) + sb_array_cost(s[i]),
{
    assert(s.take(i + 1).drop_last() =~= s.take(i));
    assert(s.take(i + 1).last() == s[i]);
}

pub proof fn lemma_sb_arrays_cost_prefix_bound(s: Seq<ArrayV>, j: int)
    requires
        0 <= j <= s.len(),
    ensures
        sb_arrays_cost(s) >= sb_arrays_cost(s.take(j)),
    decreases s.len() - j,
{
    if j == s.len() {
        assert(s.take(j) =~= s);
    } else {
        lemma_sb_arrays_cost_prefix_bound(s, j + 1);
        lemma_sb_arrays_cost_take(s, j);
        lemma_sb_array_cost_pos(s[j]);
    }
}

pub proof fn lemma_host_schema_cost_nonneg(t: SchemaV)
    ensures
        host_schema_cost(t) >= 0,
    decreases t,
{
    lemma_host_schemas_cost_nonneg(t.children);
    match t.dictionary {
        Some(d) => lemma_host_schema_cost_nonneg(*d),
        None => {},
    }
}

pub proof fn lemma_host_schemas_cost_nonneg(s: Seq<SchemaV>)
    ensures
        host_schemas_cost(s) >= 0,
    decreases s,
{
    if s.len() > 0 {
        lemma_host_schemas_cost_nonneg(s.drop_last());
        lemma_host_schema_cost_nonneg(s.last());
    }
}

pub proof fn lemma_host_schemas_cost_take(s: Seq<SchemaV>, i: int)
    requires
        0 <= i < s.len(),
    ensures
        host_schemas_cost(s.take(i + 1)) == host_schemas_cost(s.take(i)) + host_schema_cost(s[i]),
{
    assert(s.take(i + 1).drop_last() =~= s.take(i));
    assert(s.take(i + 1).last() == s[i]);
}

pub proof fn lemma_host_schemas_cost_prefix_bound(s: Seq<SchemaV>, j: int)
    requires
        0 <= j <= s.len(),
    ensures
        host_schemas_cost(s) >= host_schemas_cost(s.take(j)),
    decreases s.len() - j,
{
    if j == s.len() {
        assert(s.take(j) =~= s);
    } else {
        lemma_host_schemas_cost_prefix_bound(s, j + 1);
        lemma_host_schemas_cost_take(s, j);
        lemma_host_schema_cost_nonneg(s[j]);
    }
}

pub proof fn lemma_host_array_cost_nonneg(t: ArrayV)
    ensures
        host_array_cost(t) >= 0,
    decreases t,
{
    lemma_host_arrays_cost_nonneg(t.children);
    match t.dictionary {
        Some(d) => lemma_host_array_cost_nonneg(*d),
        None => {},
    }
}

pub proof fn lemma_host_arrays_cost_nonneg(s: Seq<ArrayV>)
    ensures
        host_arrays_cost(s) >= 0,
    decreases s,
{
    if s.len() > 0 {
        lemma_host_arrays_cost_nonneg(s.drop_last());
        lemma_host_array_cost_nonneg(s.last());
    }
}

pub proof fn lemma_host_arrays_cost_take(s: Seq<ArrayV>, i: int)
    requires
        0 <= i < s.len(),
    ensures
        host_arrays_cost(s.take(i + 1)) == host_arrays_cost(s.take(i)) + host_array_cost(s[i]),
{
    assert(s.take(i + 1).drop_last() =~= s.take(i));
    assert(s.take(i + 1).last() == s[i]);
}

pub proof fn lemma_host_arrays_cost_prefix_bound(s: Seq<ArrayV>, j: int)
    requires
        0 <= j <= s.len(),
    ensures
        host_arrays_cost(s) >= host_arrays_cost(s.take(j)),
    decreases s.len() - j,
{
    if j == s.len() {
        assert(s.take(j) =~= s);
    } else {
        lemma_host_arrays_cost_prefix_bound(s, j + 1);
        lemma_host_arrays_cost_take(s, j);
        lemma_host_array_cost_nonneg(s[j]);
    }
}

/// Widening a tree does not change what its host-side copy costs: the cost
/// depends on fan-outs alone.
pub proof fn lemma_host_schema_cost_to_host(base: int, t: SchemaV)
    ensures
        host_schema_cost(to_host_schema(base, t)) == host_schema_cost(t),
    decreases t,
{
    lemma_to_host_schemas_len(base, t.children);
    lemma_host_schemas_cost_to_host(base, t.children);
    match t.dictionary {
        Some(d) => lemma_host_schema_cost_to_host(base, *d),
        None => {},
    }
}

pub proof fn lemma_host_schemas_cost_to_host(base: int, s: Seq<SchemaV>)
    ensures
        host_schemas_cost(to_host_schemas(base, s)) == host_schemas_cost(s),
    decreases s,
{
    if s.len() > 0 {
        lemma_host_schemas_cost_to_host(base, s.drop_last());
        lemma_host_schema_cost_to_host(base, s.last());
        lemma_to_host_schemas_len(base, s);
        assert(to_host_schemas(base, s).drop_last() == to_host_schemas(base, s.drop_last()));
        assert(to_host_schemas(base, s).last() == to_host_schema(base, s.last()));
    }
}

/// Widening an array tree does not change its host-side cost.
pub proof fn lemma_host_array_cost_to_host(base: int, t: ArrayV)
    ensures
        host_array_cost(to_host_array(base, t)) == host_array_cost(t),
    decreases t,
{
    lemma_to_host_arrays_len(base, t.children);
    lemma_to_host_bufs_len(base, t.buffers);
    lemma_host_arrays_cost_to_host(base, t.children);
    match t.dictionary {
        Some(d) => lemma_host_array_cost_to_host(base, *d),
        None => {},
    }
}

pub proof fn lemma_host_arrays_cost_to_host(base: int, s: Seq<ArrayV>)
    ensures
        host_arrays_cost(to_host_arrays(base, s)) == host_arrays_cost(s),
    decreases s,
{
    if s.len() > 0 {
        lemma_host_arrays_cost_to_host(base, s.drop_last());
        lemma_host_array_cost_to_host(base, s.last());
        lemma_to_host_arrays_len(base, s);
        assert(to_host_arrays(base, s).drop_last() == to_host_arrays(base, s.drop_last()));
        assert(to_host_arrays(base, s).last() == to_host_array(base, s.last()));
    }
}

} // verus!
