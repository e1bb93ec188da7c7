//! Host-width representation of the two entity kinds, and the host-side
//! allocation accounting.  Host-width nodes are owned recursive values whose
//! child lists and optional dictionaries own their subtrees; the recorded
//! child count of the physical layout is the length of the child list, so
//! that count and list can never disagree.
use vstd::prelude::*;
use crate::model::{ArrayV, SchemaV, array_host_ok, empty_array_v, empty_schema_v, schema_host_ok};
use crate::addr::host_addr_ok;
use crate::MAX_FANOUT;

verus! {

/// State of a node's release slot.  A non-empty slot names who tears the
/// node down: the opposite-width owner of an original tree, the bridge's
/// own release entry point for a translated copy, or the guest's internal
/// teardown for a guest-built sandbox tree.
#[derive(Debug, Clone, Copy, PartialEq, Eq, Structural)]
pub enum ReleaseSlot {
    /// The node (and everything reachable from it) has been torn down.
    Empty,
    /// The original owner's teardown callback.
    Owner,
    /// The bridge's release entry point for a translated copy.
    Bridge,
    /// The guest runtime's internal teardown.
    Guest,
}

/// Private bookkeeping record attached to a host-width schema node built by
/// the sandbox-to-host bridge.
pub struct SchemaPrivate64 {
    /// Sandbox handle of this node's paired sandbox-width twin.
    pub inner: u32,
    /// Bytes of the child-pointer array allocated for this node.
    pub children_size: u32,
}

/// Private bookkeeping record attached to a host-width array node built by
/// the sandbox-to-host bridge.
pub struct ArrayPrivate64 {
    /// Sandbox handle of this node's paired sandbox-width twin.
    pub inner: u32,
    /// Bytes of the buffer-pointer array allocated for this node.
    pub buffers_size: u32,
    /// Bytes of the child-pointer array allocated for this node.
    pub children_size: u32,
}

/// Host-width schema node.
#[allow(non_camel_case_types)]
pub struct FFI64_ArrowSchema {
    pub format: u64,
    pub name: u64,
    pub metadata: u64,
    pub flags: i64,
    pub children: Vec<FFI64_ArrowSchema>,
    pub dictionary: Option<Box<FFI64_ArrowSchema>>,
    pub release: ReleaseSlot,
    pub private_data: Option<SchemaPrivate64>,
}

/// Host-width array node.
#[allow(non_camel_case_types)]
pub struct FFI64_ArrowArray {
    pub length: i64,
    pub null_count: i64,
    pub offset: i64,
    pub buffers: Vec<u64>,
    pub children: Vec<FFI64_ArrowArray>,
    pub dictionary: Option<Box<FFI64_ArrowArray>>,
    pub release: ReleaseSlot,
    pub private_data: Option<ArrayPrivate64>,
}

// ---------------------------------------------------------------------
// Structural views into the abstract tree model.
// ---------------------------------------------------------------------

pub open spec fn view_schema64(s: FFI64_ArrowSchema) -> SchemaV
    decreases s,
{
    SchemaV {
        format: s.format,
        name: s.name,
        metadata: s.metadata,
        flags: s.flags,
        children: view_schemas64(s.children@),
        dictionary: match s.dictionary {
            Some(d) => Some(Box::new(view_schema64(*d))),
            None => None,
        },
    }
}

pub open spec fn view_schemas64(s: Seq<FFI64_ArrowSchema>) -> Seq<SchemaV>
    decreases s,
{
    if s.len() == 0 {
        Seq::empty()
    } else {
        view_schemas64(s.drop_last()).push(view_schema64(s.last()))
    }
}

pub open spec fn view_array64(s: FFI64_ArrowArray) -> ArrayV
    decreases s,
{
    ArrayV {
        length: s.length,
        null_count: s.null_count,
        offset: s.offset,
        buffers: s.buffers@,
        children: view_arrays64(s.children@),
        dictionary: match s.dictionary {
            Some(d) => Some(Box::new(view_array64(*d))),
            None => None,
        },
    }
}

pub open spec fn view_arrays64(s: Seq<FFI64_ArrowArray>) -> Seq<ArrayV>
    decreases s,
{
    if s.len() == 0 {
        Seq::empty()
    } else {
        view_arrays64(s.drop_last()).push(view_array64(s.last()))
    }
}

pub proof fn lemma_view_schemas64_index(s: Seq<FFI64_ArrowSchema>, i: int)
    requires
        0 <= i < s.len(),
    ensures
        view_schemas64(s).len() == s.len(),
        view_schemas64(s)[i] == view_schema64(s[i]),
    decreases s.len(),
{
    if i < s.len() - 1 {
        lemma_view_schemas64_index(s.drop_last(), i);
    } else {
        lemma_view_schemas64_len(s.drop_last());
    }
}

pub proof fn lemma_view_schemas64_len(s: Seq<FFI64_ArrowSchema>)
    ensures
        view_schemas64(s).len() == s.len(),
    decreases s.len(),
{
    if s.len() > 0 {
        lemma_view_schemas64_len(s.drop_last());
    }
}

pub proof fn lemma_view_arrays64_index(s: Seq<FFI64_ArrowArray>, i: int)
    requires
        0 <= i < s.len(),
    ensures
        view_arrays64(s).len() == s.len(),
        view_arrays64(s)[i] == view_array64(s[i]),
    decreases s.len(),
{
    if i < s.len() - 1 {
        lemma_view_arrays64_index(s.drop_last(), i);
    } else {
        lemma_view_arrays64_len(s.drop_last());
    }
}

pub proof fn lemma_view_arrays64_len(s: Seq<FFI64_ArrowArray>)
    ensures
        view_arrays64(s).len() == s.len(),
    decreases s.len(),
{
    if s.len() > 0 {
        lemma_view_arrays64_len(s.drop_last());
    }
}

// ---------------------------------------------------------------------
// Release state of a host-width tree.
// ---------------------------------------------------------------------

/// The whole tree has been torn down: every release slot is empty and every
/// private record has been destroyed.
pub open spec fn schema64_released(s: FFI64_ArrowSchema) -> bool
    decreases s,
{
    &&& s.release == ReleaseSlot::Empty
    &&& s.private_data is None
    &&& (forall|i: int|
        0 <= i < s.children@.len() ==> schema64_released(#[trigger] s.children@[i]))
    &&& match s.dictionary {
        Some(d) => schema64_released(*d),
        None => true,
    }
}

/// The whole array tree has been torn down.
pub open spec fn array64_released(s: FFI64_ArrowArray) -> bool
    decreases s,
{
    &&& s.release == ReleaseSlot::Empty
    &&& s.private_data is None
    &&& (forall|i: int| 0 <= i < s.children@.len() ==> array64_released(#[trigger] s.children@[i]))
    &&& match s.dictionary {
        Some(d) => array64_released(*d),
        None => true,
    }
}

impl FFI64_ArrowSchema {
    /// Fresh empty host-width schema node; all fields null, slot empty.
    pub fn new() -> (r: Self)
        ensures
            view_schema64(r) == empty_schema_v(),
            r.release == ReleaseSlot::Empty,
            r.private_data is None,
            schema64_released(r),
    {
        let r = FFI64_ArrowSchema {
            format: 0,
            name: 0,
            metadata: 0,
            flags: 0,
            children: Vec::new(),
            dictionary: None,
            release: ReleaseSlot::Empty,
            private_data: None,
        };
        proof {
            assert(r.children@.len() == 0);
            assert(view_schemas64(r.children@) =~~= Seq::<SchemaV>::empty());
            assert(view_schema64(r) =~~= empty_schema_v());
        }
        r
    }

    /// Synonym constructor used on the guest-facing side of the lifecycle.
    pub fn empty() -> (r: Self)
        ensures
            view_schema64(r) == empty_schema_v(),
            r.release == ReleaseSlot::Empty,
            r.private_data is None,
            schema64_released(r),
    {
        Self::new()
    }
}

impl FFI64_ArrowArray {
    /// Fresh empty host-width array node; all fields null, slot empty.
    pub fn new() -> (r: Self)
        ensures
            view_array64(r) == empty_array_v(),
            r.release == ReleaseSlot::Empty,
            r.private_data is None,
            array64_released(r),
    {
        let r = FFI64_ArrowArray {
            length: 0,
            null_count: 0,
            offset: 0,
            buffers: Vec::new(),
            children: Vec::new(),
            dictionary: None,
            release: ReleaseSlot::Empty,
            private_data: None,
        };
        proof {
            assert(r.children@.len() == 0);
            assert(r.buffers@.len() == 0);
            assert(view_arrays64(r.children@) =~~= Seq::<ArrayV>::empty());
            assert(r.buffers@ =~~= Seq::<u64>::empty());
            assert(view_array64(r) =~~= empty_array_v());
        }
        r
    }

    /// Synonym constructor used on the guest-facing side of the lifecycle.
    pub fn empty() -> (r: Self)
        ensures
            view_array64(r) == empty_array_v(),
            r.release == ReleaseSlot::Empty,
            r.private_data is None,
            array64_released(r),
    {
        Self::new()
    }
}

// ---------------------------------------------------------------------
// Host-side allocation accounting.
// ---------------------------------------------------------------------

/// Accounting view of the host arena the bridge allocates auxiliary arrays
/// and private records from.  Only sizes are modelled; payload bytes live
/// outside the model.
pub struct HostHeap {
    /// Upper bound on bytes that may ever be handed out.
    pub capacity: u64,
    /// Total bytes handed out so far.
    pub alloc_bytes: u64,
    /// Total bytes returned so far.
    pub dealloc_bytes: u64,
}

impl HostHeap {
    pub open spec fn wf(self) -> bool {
        self.dealloc_bytes <= self.alloc_bytes <= self.capacity < u64::MAX
    }

    /// Bytes currently held by live allocations.
    pub open spec fn outstanding(self) -> int {
        self.alloc_bytes - self.dealloc_bytes
    }

    pub fn new(capacity: u64) -> (r: Self)
        requires
            capacity < u64::MAX,
        ensures
            r.wf(),
            r.capacity == capacity,
            r.alloc_bytes == 0,
            r.dealloc_bytes == 0,
    {
        HostHeap { capacity, alloc_bytes: 0, dealloc_bytes: 0 }
    }

    /// Bytes currently held, as the observable counter of the allocator.
    pub fn outstanding_bytes(&self) -> (r: u64)
        requires
            self.wf(),
        ensures
            r == self.outstanding(),
    {
        self.alloc_bytes - self.dealloc_bytes
    }
}

/// Hand out `len` bytes of host memory and return a non-null address token
/// for them.  The host arena is exhausted exactly when the request exceeds
/// its remaining capacity.
pub fn allocate_buffer(heap: &mut HostHeap, len: u32) -> (r: Option<u64>)
    requires
        old(heap).wf(),
    ensures
        final(heap).wf(),
        final(heap).capacity == old(heap).capacity,
        final(heap).dealloc_bytes == old(heap).dealloc_bytes,
        r is Some <==> old(heap).alloc_bytes + len <= old(heap).capacity,
        r is Some ==> final(heap).alloc_bytes == old(heap).alloc_bytes + len && r->0 != 0,
        r is None ==> *final(heap) == *old(heap),
{
    if len as u64 <= heap.capacity - heap.alloc_bytes {
        let addr = heap.alloc_bytes + 1;
        heap.alloc_bytes = heap.alloc_bytes + len as u64;
        Some(addr)
    } else {
        None
    }
}

/// Return `size` bytes of host memory.  A caller may never return more than
/// is outstanding; the release protocol guarantees this by returning each
/// allocation exactly once.
pub fn deallocate_buffer(heap: &mut HostHeap, ptr: u64, size: u32)
    requires
        old(heap).wf(),
        old(heap).dealloc_bytes + size <= old(heap).alloc_bytes,
    ensures
        final(heap).wf(),
        final(heap).capacity == old(heap).capacity,
        final(heap).alloc_bytes == old(heap).alloc_bytes,
        final(heap).dealloc_bytes == old(heap).dealloc_bytes + size,
{
    let _ = ptr;
    heap.dealloc_bytes = heap.dealloc_bytes + size as u64;
}

// ---------------------------------------------------------------------
// Validation: reject a malformed or out-of-range tree before translating.
// ---------------------------------------------------------------------

/// Check that every address of the host-width schema tree can be narrowed
/// against `base` and every fan-out is representable.
pub fn validate_schema64(base: u64, s: &FFI64_ArrowSchema) -> (b: bool)
    ensures
        b == schema_host_ok(base as int, view_schema64(*s)),
    decreases *s,
{
    let v = Ghost(view_schema64(*s));
    proof {
        lemma_view_schemas64_len(s.children@);
    }
    let mut ok = crate::addr::host_addr_in_range(base, s.format)
        && crate::addr::host_addr_in_range(base, s.name)
        && crate::addr::host_addr_in_range(base, s.metadata) && s.children.len() <= MAX_FANOUT;
    let mut i: usize = 0;
    while i < s.children.len() && ok
        invariant
            v@ == view_schema64(*s),
            0 <= i <= s.children@.len(),
            v@.children.len() == s.children@.len(),
            ok ==> forall|j: int| 0 <= j < i ==> schema_host_ok(base as int, #[trigger] v@.children[j]),
            ok == (host_addr_ok(base as int, s.format as int) && host_addr_ok(
                base as int,
                s.name as int,
            ) && host_addr_ok(base as int, s.metadata as int) && s.children@.len() <= MAX_FANOUT
                && (forall|j: int|
                0 <= j < i ==> schema_host_ok(base as int, #[trigger] v@.children[j]))),
        decreases s.children@.len() - i,
    {
        let c_ok = validate_schema64(base, &s.children[i]);
        proof {
            lemma_view_schemas64_index(s.children@, i as int);
        }
        ok = ok && c_ok;
        i = i + 1;
    }
    proof {
        lemma_view_schemas64_len(s.children@);
    }
    if ok {
        match &s.dictionary {
            Some(d) => validate_schema64(base, d),
            None => true,
        }
    } else {
        false
    }
}

/// Check that every buffer address of the host-width array tree can be
/// narrowed against `base` and every fan-out is representable.
pub fn validate_array64(base: u64, s: &FFI64_ArrowArray) -> (b: bool)
    ensures
        b == array_host_ok(base as int, view_array64(*s)),
    decreases *s,
{
    let v = Ghost(view_array64(*s));
    proof {
        lemma_view_arrays64_len(s.children@);
    }
    let mut ok = s.buffers.len() <= MAX_FANOUT && s.children.len() <= MAX_FANOUT;
    let mut i: usize = 0;
    while i < s.buffers.len() && ok
        invariant
            0 <= i <= s.buffers@.len(),
            ok == (s.buffers@.len() <= MAX_FANOUT && s.children@.len() <= MAX_FANOUT && (
            forall|j: int| 0 <= j < i ==> host_addr_ok(base as int, #[trigger] s.buffers@[j] as int))),
        decreases s.buffers@.len() - i,
    {
        ok = ok && crate::addr::host_addr_in_range(base, s.buffers[i]);
        i = i + 1;
    }
    let mut k: usize = 0;
    while k < s.children.len() && ok
        invariant
            v@ == view_array64(*s),
            0 <= k <= s.children@.len(),
            v@.children.len() == s.children@.len(),
            v@.buffers == s.buffers@,
            ok == (s.buffers@.len() <= MAX_FANOUT && s.children@.len() <= MAX_FANOUT && (
            forall|j: int| 0 <= j < s.buffers@.len() ==> host_addr_ok(base as int, #[trigger] s.buffers@[j] as int))
                && (forall|j: int|
                0 <= j < k ==> array_host_ok(base as int, #[trigger] v@.children[j]))),
        decreases s.children@.len() - k,
    {
        let c_ok = validate_array64(base, &s.children[k]);
        proof {
            lemma_view_arrays64_index(s.children@, k as int);
        }
        ok = ok && c_ok;
        k = k + 1;
    }
    proof {
        lemma_view_arrays64_len(s.children@);
    }
    if ok {
        match &s.dictionary {
            Some(d) => validate_array64(base, d),
            None => true,
        }
    } else {
        false
    }
}

/// A fully live host-width schema tree built by the sandbox-to-host bridge:
/// every node's slot names the bridge and its private record holds the
/// paired sandbox handle (a valid handle among `n`) and the size of its
/// child-pointer array.
pub open spec fn schema64_all_live(s: FFI64_ArrowSchema, n: int) -> bool
    decreases s,
{
    &&& s.release == ReleaseSlot::Bridge
    &&& match s.private_data {
        Some(p) => 1 <= p.inner <= n && p.children_size as int == (if s.children@.len() > 0 {
            crate::CELL64_BYTES as int * s.children@.len()
        } else {
            0
        }),
        None => false,
    }
    &&& (forall|i: int|
        0 <= i < s.children@.len() ==> schema64_all_live(#[trigger] s.children@[i], n))
    &&& match s.dictionary {
        Some(d) => schema64_all_live(*d, n),
        None => true,
    }
}

/// A fully live host-width array tree built by the sandbox-to-host bridge.
pub open spec fn array64_all_live(s: FFI64_ArrowArray, n: int) -> bool
    decreases s,
{
    &&& s.release == ReleaseSlot::Bridge
    &&& match s.private_data {
        Some(p) => 1 <= p.inner <= n && p.children_size as int == (if s.children@.len() > 0 {
            crate::CELL64_BYTES as int * s.children@.len()
        } else {
            0
        }) && p.buffers_size as int == (if s.buffers@.len() > 0 {
            crate::CELL64_BYTES as int * s.buffers@.len()
        } else {
            0
        }),
        None => false,
    }
    &&& (forall|i: int| 0 <= i < s.children@.len() ==> array64_all_live(#[trigger] s.children@[i], n))
    &&& match s.dictionary {
        Some(d) => array64_all_live(*d, n),
        None => true,
    }
}

} // verus!
