//! Model of the guest's bounded linear memory and of the sandbox-width
//! nodes that live in it.  Nodes are held in one arena per entity kind; a
//! sandbox-width "address" of a node is its handle, a positive index into
//! its arena, with `0` reserved for null.  The allocator is modelled by
//! exact byte accounting: a capacity, a running total of bytes handed out
//! and a running total of bytes returned.
//!
//! A translated subtree always occupies a half-open handle interval
//! `(lo, h]` with its root at `h` and every child subtree in an earlier
//! sub-interval.  This ordering is a structural witness that child links
//! are acyclic and unshared, which is what lets the release protocol walk a
//! tree exactly once and lets a validator reject malformed structures
//! before any recursion.
use vstd::prelude::*;
use crate::host::ReleaseSlot;
use crate::model::SchemaV;
use crate::model::ArrayV;
use crate::{
    ARRAY32_NODE_BYTES, ARRAY32_PRIV_BYTES, CELL32_BYTES, MAX_FANOUT, SCHEMA32_NODE_BYTES,
    SCHEMA32_PRIV_BYTES,
};

verus! {

/// Private bookkeeping record of a translated sandbox-width schema node.
/// The back-reference to the host-width original cannot be stored in
/// sandbox memory (it would not fit a sandbox-width field), so the release
/// entry point receives the original as an argument instead.
pub struct SchemaPrivate32 {
    /// Bytes of the child-offset array allocated for this node.
    pub children_buffer_size: u32,
}

/// Private bookkeeping record of a translated sandbox-width array node.
pub struct ArrayPrivate32 {
    /// Bytes of the buffer-offset array allocated for this node.
    pub buffers_size: u32,
    /// Bytes of the child-offset array allocated for this node.
    pub children_buffer_size: u32,
}

/// Sandbox-width schema node.  `children` is the child-offset array: its
/// i-th cell holds the handle of the i-th translated child, so the
/// recorded child count and the cell array can never disagree.
#[allow(non_camel_case_types)]
pub struct FFI32_ArrowSchema {
    pub format: u32,
    pub name: u32,
    pub metadata: u32,
    pub flags: i64,
    pub children: Vec<u32>,
    pub dictionary: u32,
    pub release: ReleaseSlot,
    pub private_data: Option<SchemaPrivate32>,
}

/// Sandbox-width array node; buffer addresses are kept as offsets.
#[allow(non_camel_case_types)]
pub struct FFI32_ArrowArray {
    pub length: i64,
    pub null_count: i64,
    pub offset: i64,
    pub buffers: Vec<u32>,
    pub children: Vec<u32>,
    pub dictionary: u32,
    pub release: ReleaseSlot,
    pub private_data: Option<ArrayPrivate32>,
}

/// The two entity kinds, used to tag entries of the release log.
#[derive(Debug, Clone, Copy, PartialEq, Eq, Structural)]
pub enum NodeKind {
    Schema,
    Array,
}

/// One observed teardown: the node of the given kind and handle had its
/// storage retired.  A node's entry is appended after its children's, so
/// the log shows leaves before parents.
#[derive(Debug, Clone, Copy, PartialEq, Eq, Structural)]
pub struct LogEntry {
    pub kind: NodeKind,
    pub handle: u32,
}

/// The guest's linear memory: base address, byte accounting of its arena,
/// the node pools, and the observable release log.
pub struct Sandbox {
    /// Host address at which the linear memory starts.
    pub base: u64,
    /// Bytes the arena may hand out in total.
    pub capacity: u64,
    /// Bytes handed out so far.
    pub alloc_bytes: u64,
    /// Bytes returned so far.
    pub dealloc_bytes: u64,
    pub schemas: Vec<FFI32_ArrowSchema>,
    pub arrays: Vec<FFI32_ArrowArray>,
    pub release_log: Vec<LogEntry>,
}

impl Sandbox {
    /// Accounting invariant: returned bytes never exceed handed-out bytes,
    /// the arena stays within its sandbox-width capacity, and every node
    /// slot is backed by at least its own storage bytes, which keeps every
    /// handle representable.
    pub open spec fn wf(self) -> bool {
        &&& self.dealloc_bytes <= self.alloc_bytes <= self.capacity <= u32::MAX
        &&& self.base + u32::MAX <= u64::MAX
        &&& SCHEMA32_NODE_BYTES * self.schemas@.len() + ARRAY32_NODE_BYTES * self.arrays@.len()
            <= self.alloc_bytes
    }

    /// Bytes currently held by live allocations: the observable counter of
    /// the guest allocator.
    pub open spec fn outstanding(self) -> int {
        self.alloc_bytes - self.dealloc_bytes
    }

    pub fn new(base: u64, capacity: u64) -> (r: Self)
        requires
            capacity <= u32::MAX,
            base + u32::MAX <= u64::MAX,
        ensures
            r.wf(),
            r.base == base,
            r.capacity == capacity,
            r.alloc_bytes == 0,
            r.dealloc_bytes == 0,
            r.schemas@.len() == 0,
            r.arrays@.len() == 0,
            r.release_log@.len() == 0,
    {
        Sandbox {
            base,
            capacity,
            alloc_bytes: 0,
            dealloc_bytes: 0,
            schemas: Vec::new(),
            arrays: Vec::new(),
            release_log: Vec::new(),
        }
    }

    /// Observable outstanding-bytes counter of the guest allocator.
    pub fn outstanding_bytes(&self) -> (r: u64)
        requires
            self.wf(),
        ensures
            r == self.outstanding(),
    {
        self.alloc_bytes - self.dealloc_bytes
    }

    /// Guest arena allocation: hand out `size` bytes and return a non-null
    /// offset token.  Fails exactly when the request exceeds the remaining
    /// capacity.
    pub fn allocate_buffer(&mut self, size: u32) -> (r: Option<u32>)
        requires
            old(self).wf(),
        ensures
            final(self).wf(),
            r is Some <==> old(self).alloc_bytes + size <= old(self).capacity,
            r is Some ==> *final(self) == (Sandbox {
                alloc_bytes: (old(self).alloc_bytes + size) as u64,
                ..*old(self)
            }) && r->0 != 0,
            r is None ==> *final(self) == *old(self),
    {
        if size as u64 <= self.capacity - self.alloc_bytes {
            let off: u32 = if self.alloc_bytes < 0xFFFF_FFFFu64 {
                (self.alloc_bytes + 1) as u32
            } else {
                1
            };
            self.alloc_bytes = self.alloc_bytes + size as u64;
            Some(off)
        } else {
            None
        }
    }

    /// Guest arena deallocation of `size` bytes.  The offset is part of the
    /// guest's calling convention; the model accounts sizes only.  A caller
    /// may never return more than is outstanding; the release protocol
    /// guarantees this by returning each allocation exactly once.
    pub fn deallocate_buffer(&mut self, offset: u32, size: u32)
        requires
            old(self).wf(),
            old(self).dealloc_bytes + size <= old(self).alloc_bytes,
        ensures
            final(self).wf(),
            *final(self) == (Sandbox {
                dealloc_bytes: (old(self).dealloc_bytes + size) as u64,
                ..*old(self)
            }),
    {
        let _ = offset;
        self.dealloc_bytes = self.dealloc_bytes + size as u32 as u64;
    }

    /// Place a fully formed schema node into the arena, charging its own
    /// storage plus `extra` auxiliary bytes (cell arrays, private record)
    /// in one step.  Returns the new node's handle.
    pub(crate) fn alloc_schema_slot(&mut self, slot: FFI32_ArrowSchema, extra: u64) -> (r:
        Option<u32>)
        requires
            old(self).wf(),
            extra <= u32::MAX,
        ensures
            final(self).wf(),
            r is Some <==> old(self).alloc_bytes + SCHEMA32_NODE_BYTES + extra <= old(self).capacity,
            r is Some ==> *final(self) == (Sandbox {
                alloc_bytes: (old(self).alloc_bytes + SCHEMA32_NODE_BYTES + extra) as u64,
                schemas: final(self).schemas,
                ..*old(self)
            }) && final(self).schemas@ == old(self).schemas@.push(slot) && r->0
                == old(self).schemas@.len() + 1,
            r is None ==> *final(self) == *old(self),
    {
        let need = SCHEMA32_NODE_BYTES + extra;
        if need <= self.capacity - self.alloc_bytes {
            self.alloc_bytes = self.alloc_bytes + need;
            self.schemas.push(slot);
            Some(self.schemas.len() as u32)
        } else {
            None
        }
    }

    /// Place a fully formed array node into the arena, charging its own
    /// storage plus `extra` auxiliary bytes in one step.
    pub(crate) fn alloc_array_slot(&mut self, slot: FFI32_ArrowArray, extra: u64) -> (r:
        Option<u32>)
        requires
            old(self).wf(),
            extra <= 2 * (u32::MAX as u64),
        ensures
            final(self).wf(),
            r is Some <==> old(self).alloc_bytes + ARRAY32_NODE_BYTES + extra <= old(self).capacity,
            r is Some ==> *final(self) == (Sandbox {
                alloc_bytes: (old(self).alloc_bytes + ARRAY32_NODE_BYTES + extra) as u64,
                arrays: final(self).arrays,
                ..*old(self)
            }) && final(self).arrays@ == old(self).arrays@.push(slot) && r->0
                == old(self).arrays@.len() + 1,
            r is None ==> *final(self) == *old(self),
    {
        let need = ARRAY32_NODE_BYTES + extra;
        if need <= self.capacity - self.alloc_bytes {
            self.alloc_bytes = self.alloc_bytes + need;
            self.arrays.push(slot);
            Some(self.arrays.len() as u32)
        } else {
            None
        }
    }

    /// Guest export that allocates one empty sandbox-width schema node.
    pub fn new_ffi_schema(&mut self) -> (r: Option<u32>)
        requires
            old(self).wf(),
        ensures
            final(self).wf(),
            r is Some <==> old(self).alloc_bytes + SCHEMA32_NODE_BYTES <= old(self).capacity,
            r is Some ==> final(self).schemas@.len() == old(self).schemas@.len() + 1
                && final(self).schemas@.drop_last() == old(self).schemas@ && r->0 == old(self).schemas@.len() + 1 && schema32_is_empty(final(self).schemas@.last()) && final(self).arrays@ == old(self).arrays@ && final(self).base == old(self).base
                && final(self).alloc_bytes == old(self).alloc_bytes + SCHEMA32_NODE_BYTES
                && final(self).capacity == old(self).capacity && final(self).dealloc_bytes == old(
                self,
            ).dealloc_bytes && final(self).release_log@ == old(self).release_log@,
            r is None ==> *final(self) == *old(self),
    {
        self.alloc_schema_slot(
            FFI32_ArrowSchema {
                format: 0,
                name: 0,
                metadata: 0,
                flags: 0,
                children: Vec::new(),
                dictionary: 0,
                release: ReleaseSlot::Empty,
                private_data: None,
            },
            0,
        )
    }

    /// Guest export that allocates one empty sandbox-width array node.
    pub fn new_ffi_array(&mut self) -> (r: Option<u32>)
        requires
            old(self).wf(),
        ensures
            final(self).wf(),
            r is Some <==> old(self).alloc_bytes + ARRAY32_NODE_BYTES <= old(self).capacity,
            r is Some ==> final(self).arrays@.len() == old(self).arrays@.len() + 1
                && final(self).arrays@.drop_last() == old(self).arrays@ && r->0 == old(self).arrays@.len() + 1 && array32_is_empty(final(self).arrays@.last()) && final(self).schemas@ == old(self).schemas@ && final(self).base == old(self).base
                && final(self).alloc_bytes == old(self).alloc_bytes + ARRAY32_NODE_BYTES
                && final(self).capacity == old(self).capacity && final(self).dealloc_bytes == old(
                self,
            ).dealloc_bytes && final(self).release_log@ == old(self).release_log@,
            r is None ==> *final(self) == *old(self),
    {
        self.alloc_array_slot(
            FFI32_ArrowArray {
                length: 0,
                null_count: 0,
                offset: 0,
                buffers: Vec::new(),
                children: Vec::new(),
                dictionary: 0,
                release: ReleaseSlot::Empty,
                private_data: None,
            },
            0,
        )
    }
}

/// A freshly allocated, unfilled schema node: all fields null, slot empty.
pub open spec fn schema32_is_empty(n: FFI32_ArrowSchema) -> bool {
    &&& n.format == 0
    &&& n.name == 0
    &&& n.metadata == 0
    &&& n.flags == 0
    &&& n.children@.len() == 0
    &&& n.dictionary == 0
    &&& n.release == ReleaseSlot::Empty
    &&& n.private_data is None
}

/// A freshly allocated, unfilled array node: all fields null, slot empty.
pub open spec fn array32_is_empty(n: FFI32_ArrowArray) -> bool {
    &&& n.length == 0
    &&& n.null_count == 0
    &&& n.offset == 0
    &&& n.buffers@.len() == 0
    &&& n.children@.len() == 0
    &&& n.dictionary == 0
    &&& n.release == ReleaseSlot::Empty
    &&& n.private_data is None
}

// ---------------------------------------------------------------------
// Shape of a translated schema tree in the arena.
// ---------------------------------------------------------------------

/// The subtree rooted at handle `h` is a well-founded tree occupying the
/// handle interval `(lo, h]`: its children's subtrees sit in consecutive
/// earlier sub-intervals and the optional dictionary follows them.  The
/// interval discipline rules out cycles and sharing, so a release walk
/// visits every node exactly once.
pub open spec fn s32_tree(ss: Seq<FFI32_ArrowSchema>, lo: int, h: int) -> bool
    decreases h, 0int,
{
    &&& 0 <= lo
    &&& lo < h <= ss.len()
    &&& {
        let n = ss[h - 1];
        let dlo = if n.children@.len() > 0 {
            n.children@.last() as int
        } else {
            lo
        };
        &&& n.children@.len() <= MAX_FANOUT
        &&& s32_forest(ss, lo, n.children@, h - 1)
        &&& (n.dictionary != 0 ==> dlo < n.dictionary as int && n.dictionary as int <= h - 1
            && s32_tree(ss, dlo, n.dictionary as int))
    }
}

/// The cells hold strictly increasing handles above `lo`, each rooting a
/// tree in the interval that starts after its left neighbour and ends at
/// itself, all bounded by `b`.
pub open spec fn s32_forest(ss: Seq<FFI32_ArrowSchema>, lo: int, cells: Seq<u32>, b: int) -> bool
    decreases b, cells.len() + 1,
{
    if cells.len() == 0 {
        true
    } else {
        let c = cells.last() as int;
        let prev = if cells.len() >= 2 {
            cells[cells.len() - 2] as int
        } else {
            lo
        };
        &&& s32_forest(ss, lo, cells.drop_last(), b)
        &&& prev < c
        &&& c <= b
        &&& s32_tree(ss, prev, c)
    }
}

/// Structural view of the schema subtree rooted at `h`.
pub open spec fn s32_view(ss: Seq<FFI32_ArrowSchema>, h: int) -> SchemaV
    decreases h, 0int,
{
    if 1 <= h <= ss.len() {
        let n = ss[h - 1];
        SchemaV {
            format: n.format as u64,
            name: n.name as u64,
            metadata: n.metadata as u64,
            flags: n.flags,
            children: s32_views(ss, n.children@, h - 1),
            dictionary: if n.dictionary != 0 && n.dictionary as int <= h - 1 {
                Some(Box::new(s32_view(ss, n.dictionary as int)))
            } else {
                None
            },
        }
    } else {
        crate::model::empty_schema_v()
    }
}

pub open spec fn s32_views(ss: Seq<FFI32_ArrowSchema>, cells: Seq<u32>, b: int) -> Seq<SchemaV>
    decreases b, cells.len() + 1,
{
    if cells.len() == 0 {
        Seq::empty()
    } else {
        s32_views(ss, cells.drop_last(), b).push(
            if 0 < cells.last() as int <= b {
                s32_view(ss, cells.last() as int)
            } else {
                crate::model::empty_schema_v()
            },
        )
    }
}

/// A live translated schema node: its release slot names the bridge and its
/// private record matches the auxiliary child-offset array it allocated.
pub open spec fn schema32_live(n: FFI32_ArrowSchema) -> bool {
    &&& n.release == ReleaseSlot::Bridge
    &&& match n.private_data {
        Some(p) => p.children_buffer_size as int == (if n.children@.len() > 0 {
            CELL32_BYTES as int * n.children@.len()
        } else {
            0
        }),
        None => false,
    }
}

/// A torn-down node: slot empty, private record destroyed.
pub open spec fn schema32_empty_state(n: FFI32_ArrowSchema) -> bool {
    &&& n.release == ReleaseSlot::Empty
    &&& n.private_data is None
}

/// The whole schema subtree rooted at `h` has been torn down.
pub open spec fn s32_dead(ss: Seq<FFI32_ArrowSchema>, h: int) -> bool
    decreases h, 0int,
{
    1 <= h <= ss.len() && {
        let n = ss[h - 1];
        &&& schema32_empty_state(n)
        &&& s32_dead_cells(ss, n.children@, h - 1)
        &&& (n.dictionary != 0 && n.dictionary as int <= h - 1 ==> s32_dead(
            ss,
            n.dictionary as int,
        ))
    }
}

pub open spec fn s32_dead_cells(ss: Seq<FFI32_ArrowSchema>, cells: Seq<u32>, b: int) -> bool
    decreases b, cells.len() + 1,
{
    if cells.len() == 0 {
        true
    } else {
        &&& s32_dead_cells(ss, cells.drop_last(), b)
        &&& (0 < cells.last() as int <= b ==> s32_dead(ss, cells.last() as int))
    }
}

/// Bookkeeping invariant of a translated schema tree: every node is either
/// live and consistent or fully torn down, and a torn-down node's whole
/// subtree is torn down.
pub open spec fn s32_bridge_ok(ss: Seq<FFI32_ArrowSchema>, h: int) -> bool
    decreases h, 0int,
{
    1 <= h <= ss.len() && {
        let n = ss[h - 1];
        &&& (schema32_live(n) || schema32_empty_state(n))
        &&& (n.release == ReleaseSlot::Empty ==> s32_dead(ss, h))
        &&& s32_bridge_ok_cells(ss, n.children@, h - 1)
        &&& (n.dictionary != 0 && n.dictionary as int <= h - 1 ==> s32_bridge_ok(
            ss,
            n.dictionary as int,
        ))
    }
}

pub open spec fn s32_bridge_ok_cells(ss: Seq<FFI32_ArrowSchema>, cells: Seq<u32>, b: int) -> bool
    decreases b, cells.len() + 1,
{
    if cells.len() == 0 {
        true
    } else {
        &&& s32_bridge_ok_cells(ss, cells.drop_last(), b)
        &&& (0 < cells.last() as int <= b ==> s32_bridge_ok(ss, cells.last() as int))
    }
}

/// Sandbox bytes a live translated schema node holds: its own storage, its
/// private record, and its child-offset array.
pub open spec fn schema32_own_cost(n: FFI32_ArrowSchema) -> int {
    SCHEMA32_NODE_BYTES as int + SCHEMA32_PRIV_BYTES as int + (if n.children@.len() > 0 {
        CELL32_BYTES as int * n.children@.len()
    } else {
        0
    })
}

/// Sandbox bytes still held by the live nodes of the schema subtree at `h`:
/// exactly what one release of the subtree returns to the arena.
pub open spec fn s32_live_cost(ss: Seq<FFI32_ArrowSchema>, h: int) -> int
    decreases h, 0int,
{
    if 1 <= h <= ss.len() {
        let n = ss[h - 1];
        (if n.release != ReleaseSlot::Empty {
            schema32_own_cost(n)
        } else {
            0
        }) + s32_live_cost_cells(ss, n.children@, h - 1) + (if n.dictionary != 0
            && n.dictionary as int <= h - 1 {
            s32_live_cost(ss, n.dictionary as int)
        } else {
            0
        })
    } else {
        0
    }
}

pub open spec fn s32_live_cost_cells(ss: Seq<FFI32_ArrowSchema>, cells: Seq<u32>, b: int) -> int
    decreases b, cells.len() + 1,
{
    if cells.len() == 0 {
        0
    } else {
        s32_live_cost_cells(ss, cells.drop_last(), b) + (if 0 < cells.last() as int <= b {
            s32_live_cost(ss, cells.last() as int)
        } else {
            0
        })
    }
}

// ---------------------------------------------------------------------
// Facts about forests, framing, and pointwise aggregation (schemas).
// ---------------------------------------------------------------------

/// Each cell of a forest roots a tree in its own interval, above `lo` and
/// bounded by `b`, with strictly increasing handles.
pub proof fn lemma_s32_forest_facts(
    ss: Seq<FFI32_ArrowSchema>,
    lo: int,
    cells: Seq<u32>,
    b: int,
    i: int,
)
    requires
        s32_forest(ss, lo, cells, b),
        0 <= i < cells.len(),
    ensures
        ({
            let prev = if i == 0 {
                lo
            } else {
                cells[i - 1] as int
            };
            lo <= prev && prev < cells[i] as int && cells[i] as int <= b && s32_tree(
                ss,
                prev,
                cells[i] as int,
            )
        }),
    decreases cells.len(),
{
    if i + 1 < cells.len() {
        lemma_s32_forest_facts(ss, lo, cells.drop_last(), b, i);
    } else {
        if i > 0 {
            lemma_s32_forest_facts(ss, lo, cells.drop_last(), b, i - 1);
        }
    }
}


/// Framing: everything the subtree at `h` states depends only on the slots
/// of its own interval `(lo, h]`, so it survives any change outside it,
/// including appends to the arena.
pub proof fn lemma_s32_frame(
    ss1: Seq<FFI32_ArrowSchema>,
    ss2: Seq<FFI32_ArrowSchema>,
    lo: int,
    h: int,
)
    requires
        s32_tree(ss1, lo, h),
        h <= ss2.len(),
        forall|j: int| lo < j <= h ==> #[trigger] ss2[j - 1] == ss1[j - 1],
    ensures
        s32_tree(ss2, lo, h),
        s32_view(ss2, h) == s32_view(ss1, h),
        s32_dead(ss2, h) == s32_dead(ss1, h),
        s32_bridge_ok(ss2, h) == s32_bridge_ok(ss1, h),
        s32_live_cost(ss2, h) == s32_live_cost(ss1, h),
    decreases h, 0int,
{
    let n = ss1[h - 1];
    assert(ss2[h - 1] == n);
    lemma_s32_frame_cells(ss1, ss2, lo, n.children@, h - 1);
    if n.dictionary != 0 {
        let dlo = if n.children@.len() > 0 {
            n.children@.last() as int
        } else {
            lo
        };
        if n.children@.len() > 0 {
            lemma_s32_forest_facts(ss1, lo, n.children@, h - 1, n.children@.len() - 1);
        }
        lemma_s32_frame(ss1, ss2, dlo, n.dictionary as int);
    }
}

pub proof fn lemma_s32_frame_cells(
    ss1: Seq<FFI32_ArrowSchema>,
    ss2: Seq<FFI32_ArrowSchema>,
    lo: int,
    cells: Seq<u32>,
    b: int,
)
    requires
        s32_forest(ss1, lo, cells, b),
        0 <= lo,
        b <= ss2.len(),
        forall|j: int| lo < j <= b ==> #[trigger] ss2[j - 1] == ss1[j - 1],
    ensures
        s32_forest(ss2, lo, cells, b),
        s32_views(ss2, cells, b) == s32_views(ss1, cells, b),
        s32_dead_cells(ss2, cells, b) == s32_dead_cells(ss1, cells, b),
        s32_bridge_ok_cells(ss2, cells, b) == s32_bridge_ok_cells(ss1, cells, b),
        s32_live_cost_cells(ss2, cells, b) == s32_live_cost_cells(ss1, cells, b),
    decreases b, cells.len() + 1,
{
    if cells.len() > 0 {
        lemma_s32_frame_cells(ss1, ss2, lo, cells.drop_last(), b);
        let c = cells.last() as int;
        let prev = if cells.len() >= 2 {
            cells[cells.len() - 2] as int
        } else {
            lo
        };
        if cells.len() >= 2 {
            lemma_s32_forest_facts(ss1, lo, cells, b, cells.len() - 2);
        }
        lemma_s32_frame(ss1, ss2, prev, c);
    }
}

/// A torn-down subtree holds no live bytes.
pub proof fn lemma_s32_dead_cost_zero(ss: Seq<FFI32_ArrowSchema>, h: int)
    requires
        s32_dead(ss, h),
    ensures
        s32_live_cost(ss, h) == 0,
    decreases h, 0int,
{
    let n = ss[h - 1];
    lemma_s32_dead_cost_zero_cells(ss, n.children@, h - 1);
    if n.dictionary != 0 && n.dictionary as int <= h - 1 {
        lemma_s32_dead_cost_zero(ss, n.dictionary as int);
    }
}

pub proof fn lemma_s32_dead_cost_zero_cells(ss: Seq<FFI32_ArrowSchema>, cells: Seq<u32>, b: int)
    requires
        s32_dead_cells(ss, cells, b),
    ensures
        s32_live_cost_cells(ss, cells, b) == 0,
    decreases b, cells.len() + 1,
{
    if cells.len() > 0 {
        lemma_s32_dead_cost_zero_cells(ss, cells.drop_last(), b);
        if 0 < cells.last() as int <= b {
            lemma_s32_dead_cost_zero(ss, cells.last() as int);
        }
    }
}

/// If every cell roots a live subtree whose cost matches its model tree,
/// the forest's cost is the model sum.
pub proof fn lemma_s32_cells_cost(
    ss: Seq<FFI32_ArrowSchema>,
    cells: Seq<u32>,
    b: int,
    ts: Seq<SchemaV>,
)
    requires
        cells.len() == ts.len(),
        forall|i: int|
            0 <= i < cells.len() ==> 0 < #[trigger] cells[i] as int <= b && s32_live_cost(
                ss,
                cells[i] as int,
            ) == crate::model::sb_schema_cost(ts[i]),
    ensures
        s32_live_cost_cells(ss, cells, b) == crate::model::sb_schemas_cost(ts),
    decreases cells.len(),
{
    if cells.len() > 0 {
        lemma_s32_cells_cost(ss, cells.drop_last(), b, ts.drop_last());
    }
}

/// If every cell's view matches the corresponding model tree, the forest's
/// view is that sequence of trees.
pub proof fn lemma_s32_cells_views(
    ss: Seq<FFI32_ArrowSchema>,
    cells: Seq<u32>,
    b: int,
    ts: Seq<SchemaV>,
)
    requires
        cells.len() == ts.len(),
        forall|i: int|
            0 <= i < cells.len() ==> 0 < #[trigger] cells[i] as int <= b && s32_view(
                ss,
                cells[i] as int,
            ) == ts[i],
    ensures
        s32_views(ss, cells, b) == ts,
    decreases cells.len(),
{
    if cells.len() > 0 {
        lemma_s32_cells_views(ss, cells.drop_last(), b, ts.drop_last());
        assert(s32_views(ss, cells, b) =~= ts);
    } else {
        assert(s32_views(ss, cells, b) =~= ts);
    }
}

/// If every cell roots a consistent subtree, the forest is consistent.
pub proof fn lemma_s32_cells_ok(ss: Seq<FFI32_ArrowSchema>, cells: Seq<u32>, b: int)
    requires
        forall|i: int|
            0 <= i < cells.len() ==> 0 < #[trigger] cells[i] as int <= b && s32_bridge_ok(
                ss,
                cells[i] as int,
            ),
    ensures
        s32_bridge_ok_cells(ss, cells, b),
    decreases cells.len(),
{
    if cells.len() > 0 {
        lemma_s32_cells_ok(ss, cells.drop_last(), b);
    }
}

/// If every cell roots a torn-down subtree, the forest is torn down.
pub proof fn lemma_s32_cells_dead(ss: Seq<FFI32_ArrowSchema>, cells: Seq<u32>, b: int)
    requires
        forall|i: int|
            0 <= i < cells.len() ==> (0 < #[trigger] cells[i] as int <= b ==> s32_dead(
                ss,
                cells[i] as int,
            )),
    ensures
        s32_dead_cells(ss, cells, b),
    decreases cells.len(),
{
    if cells.len() > 0 {
        lemma_s32_cells_dead(ss, cells.drop_last(), b);
    }
}

pub proof fn lemma_s32_views_index(ss: Seq<FFI32_ArrowSchema>, cells: Seq<u32>, b: int, i: int)
    requires
        0 <= i < cells.len(),
    ensures
        s32_views(ss, cells, b).len() == cells.len(),
        0 < cells[i] as int <= b ==> s32_views(ss, cells, b)[i] == s32_view(ss, cells[i] as int),
    decreases cells.len(),
{
    if i < cells.len() - 1 {
        lemma_s32_views_index(ss, cells.drop_last(), b, i);
    } else {
        lemma_s32_views_len(ss, cells.drop_last(), b);
    }
}

pub proof fn lemma_s32_views_len(ss: Seq<FFI32_ArrowSchema>, cells: Seq<u32>, b: int)
    ensures
        s32_views(ss, cells, b).len() == cells.len(),
    decreases cells.len(),
{
    if cells.len() > 0 {
        lemma_s32_views_len(ss, cells.drop_last(), b);
    }
}

// ---------------------------------------------------------------------
// Shape of a translated array tree in the arena.
// ---------------------------------------------------------------------

/// The subtree rooted at handle `h` is a well-founded tree occupying the
/// handle interval `(lo, h]`: its children's subtrees sit in consecutive
/// earlier sub-intervals and the optional dictionary follows them.  The
/// interval discipline rules out cycles and sharing, so a release walk
/// visits every node exactly once.
pub open spec fn a32_tree(ss: Seq<FFI32_ArrowArray>, lo: int, h: int) -> bool
    decreases h, 0int,
{
    &&& 0 <= lo
    &&& lo < h <= ss.len()
    &&& {
        let n = ss[h - 1];
        let dlo = if n.children@.len() > 0 {
            n.children@.last() as int
        } else {
            lo
        };
        &&& n.buffers@.len() <= MAX_FANOUT
        &&& n.children@.len() <= MAX_FANOUT
        &&& a32_forest(ss, lo, n.children@, h - 1)
        &&& (n.dictionary != 0 ==> dlo < n.dictionary as int && n.dictionary as int <= h - 1
            && a32_tree(ss, dlo, n.dictionary as int))
    }
}

/// The cells hold strictly increasing handles above `lo`, each rooting a
/// tree in the interval that starts after its left neighbour and ends at
/// itself, all bounded by `b`.
pub open spec fn a32_forest(ss: Seq<FFI32_ArrowArray>, lo: int, cells: Seq<u32>, b: int) -> bool
    decreases b, cells.len() + 1,
{
    if cells.len() == 0 {
        true
    } else {
        let c = cells.last() as int;
        let prev = if cells.len() >= 2 {
            cells[cells.len() - 2] as int
        } else {
            lo
        };
        &&& a32_forest(ss, lo, cells.drop_last(), b)
        &&& prev < c
        &&& c <= b
        &&& a32_tree(ss, prev, c)
    }
}

/// Structural view of the array subtree rooted at `h`.
pub open spec fn a32_view(ss: Seq<FFI32_ArrowArray>, h: int) -> ArrayV
    decreases h, 0int,
{
    if 1 <= h <= ss.len() {
        let n = ss[h - 1];
        ArrayV {
            length: n.length,
            null_count: n.null_count,
            offset: n.offset,
            buffers: Seq::new(n.buffers@.len(), |i: int| n.buffers@[i] as u64),
            children: a32_views(ss, n.children@, h - 1),
            dictionary: if n.dictionary != 0 && n.dictionary as int <= h - 1 {
                Some(Box::new(a32_view(ss, n.dictionary as int)))
            } else {
                None
            },
        }
    } else {
        crate::model::empty_array_v()
    }
}

pub open spec fn a32_views(ss: Seq<FFI32_ArrowArray>, cells: Seq<u32>, b: int) -> Seq<ArrayV>
    decreases b, cells.len() + 1,
{
    if cells.len() == 0 {
        Seq::empty()
    } else {
        a32_views(ss, cells.drop_last(), b).push(
            if 0 < cells.last() as int <= b {
                a32_view(ss, cells.last() as int)
            } else {
                crate::model::empty_array_v()
            },
        )
    }
}

/// A live translated array node: its release slot names the bridge and its
/// private record matches the auxiliary buffer-offset and child-offset
/// arrays it allocated.
pub open spec fn array32_live(n: FFI32_ArrowArray) -> bool {
    &&& n.release == ReleaseSlot::Bridge
    &&& match n.private_data {
        Some(p) => p.children_buffer_size as int == (if n.children@.len() > 0 {
            CELL32_BYTES as int * n.children@.len()
        } else {
            0
        }) && p.buffers_size as int == (if n.buffers@.len() > 0 {
            CELL32_BYTES as int * n.buffers@.len()
        } else {
            0
        }),
        None => false,
    }
}

/// A torn-down node: slot empty, private record destroyed.
pub open spec fn array32_empty_state(n: FFI32_ArrowArray) -> bool {
    &&& n.release == ReleaseSlot::Empty
    &&& n.private_data is None
}

/// The whole array subtree rooted at `h` has been torn down.
pub open spec fn a32_dead(ss: Seq<FFI32_ArrowArray>, h: int) -> bool
    decreases h, 0int,
{
    1 <= h <= ss.len() && {
        let n = ss[h - 1];
        &&& array32_empty_state(n)
        &&& a32_dead_cells(ss, n.children@, h - 1)
        &&& (n.dictionary != 0 && n.dictionary as int <= h - 1 ==> a32_dead(
            ss,
            n.dictionary as int,
        ))
    }
}

pub open spec fn a32_dead_cells(ss: Seq<FFI32_ArrowArray>, cells: Seq<u32>, b: int) -> bool
    decreases b, cells.len() + 1,
{
    if cells.len() == 0 {
        true
    } else {
        &&& a32_dead_cells(ss, cells.drop_last(), b)
        &&& (0 < cells.last() as int <= b ==> a32_dead(ss, cells.last() as int))
    }
}

/// Bookkeeping invariant of a translated array tree: every node is either
/// live and consistent or fully torn down, and a torn-down node's whole
/// subtree is torn down.
pub open spec fn a32_bridge_ok(ss: Seq<FFI32_ArrowArray>, h: int) -> bool
    decreases h, 0int,
{
    1 <= h <= ss.len() && {
        let n = ss[h - 1];
        &&& (array32_live(n) || array32_empty_state(n))
        &&& (n.release == ReleaseSlot::Empty ==> a32_dead(ss, h))
        &&& a32_bridge_ok_cells(ss, n.children@, h - 1)
        &&& (n.dictionary != 0 && n.dictionary as int <= h - 1 ==> a32_bridge_ok(
            ss,
            n.dictionary as int,
        ))
    }
}

pub open spec fn a32_bridge_ok_cells(ss: Seq<FFI32_ArrowArray>, cells: Seq<u32>, b: int) -> bool
    decreases b, cells.len() + 1,
{
    if cells.len() == 0 {
        true
    } else {
        &&& a32_bridge_ok_cells(ss, cells.drop_last(), b)
        &&& (0 < cells.last() as int <= b ==> a32_bridge_ok(ss, cells.last() as int))
    }
}

/// Sandbox bytes a live translated array node holds: its own storage, its
/// private record, its buffer-offset array and its child-offset array.
pub open spec fn array32_own_cost(n: FFI32_ArrowArray) -> int {
    ARRAY32_NODE_BYTES as int + ARRAY32_PRIV_BYTES as int + (if n.buffers@.len() > 0 {
        CELL32_BYTES as int * n.buffers@.len()
    } else {
        0
    }) + (if n.children@.len() > 0 {
        CELL32_BYTES as int * n.children@.len()
    } else {
        0
    })
}

/// Sandbox bytes still held by the live nodes of the array subtree at `h`:
/// exactly what one release of the subtree returns to the arena.
pub open spec fn a32_live_cost(ss: Seq<FFI32_ArrowArray>, h: int) -> int
    decreases h, 0int,
{
    if 1 <= h <= ss.len() {
        let n = ss[h - 1];
        (if n.release != ReleaseSlot::Empty {
            array32_own_cost(n)
        } else {
            0
        }) + a32_live_cost_cells(ss, n.children@, h - 1) + (if n.dictionary != 0
            && n.dictionary as int <= h - 1 {
            a32_live_cost(ss, n.dictionary as int)
        } else {
            0
        })
    } else {
        0
    }
}

pub open spec fn a32_live_cost_cells(ss: Seq<FFI32_ArrowArray>, cells: Seq<u32>, b: int) -> int
    decreases b, cells.len() + 1,
{
    if cells.len() == 0 {
        0
    } else {
        a32_live_cost_cells(ss, cells.drop_last(), b) + (if 0 < cells.last() as int <= b {
            a32_live_cost(ss, cells.last() as int)
        } else {
            0
        })
    }
}

// ---------------------------------------------------------------------
// Facts about forests, framing, and pointwise aggregation (arrays).
// ---------------------------------------------------------------------

/// Each cell of a forest roots a tree in its own interval, above `lo` and
/// bounded by `b`, with strictly increasing handles.
pub proof fn lemma_a32_forest_facts(
    ss: Seq<FFI32_ArrowArray>,
    lo: int,
    cells: Seq<u32>,
    b: int,
    i: int,
)
    requires
        a32_forest(ss, lo, cells, b),
        0 <= i < cells.len(),
    ensures
        ({
            let prev = if i == 0 {
                lo
            } else {
                cells[i - 1] as int
            };
            lo <= prev && prev < cells[i] as int && cells[i] as int <= b && a32_tree(
                ss,
                prev,
                cells[i] as int,
            )
        }),
    decreases cells.len(),
{
    if i + 1 < cells.len() {
        lemma_a32_forest_facts(ss, lo, cells.drop_last(), b, i);
    } else {
        if i > 0 {
            lemma_a32_forest_facts(ss, lo, cells.drop_last(), b, i - 1);
        }
    }
}


/// Framing: everything the subtree at `h` states depends only on the slots
/// of its own interval `(lo, h]`, so it survives any change outside it,
/// including appends to the arena.
pub proof fn lemma_a32_frame(
    ss1: Seq<FFI32_ArrowArray>,
    ss2: Seq<FFI32_ArrowArray>,
    lo: int,
    h: int,
)
    requires
        a32_tree(ss1, lo, h),
        h <= ss2.len(),
        forall|j: int| lo < j <= h ==> #[trigger] ss2[j - 1] == ss1[j - 1],
    ensures
        a32_tree(ss2, lo, h),
        a32_view(ss2, h) == a32_view(ss1, h),
        a32_dead(ss2, h) == a32_dead(ss1, h),
        a32_bridge_ok(ss2, h) == a32_bridge_ok(ss1, h),
        a32_live_cost(ss2, h) == a32_live_cost(ss1, h),
    decreases h, 0int,
{
    let n = ss1[h - 1];
    assert(ss2[h - 1] == n);
    lemma_a32_frame_cells(ss1, ss2, lo, n.children@, h - 1);
    if n.dictionary != 0 {
        let dlo = if n.children@.len() > 0 {
            n.children@.last() as int
        } else {
            lo
        };
        if n.children@.len() > 0 {
            lemma_a32_forest_facts(ss1, lo, n.children@, h - 1, n.children@.len() - 1);
        }
        lemma_a32_frame(ss1, ss2, dlo, n.dictionary as int);
    }
}

pub proof fn lemma_a32_frame_cells(
    ss1: Seq<FFI32_ArrowArray>,
    ss2: Seq<FFI32_ArrowArray>,
    lo: int,
    cells: Seq<u32>,
    b: int,
)
    requires
        a32_forest(ss1, lo, cells, b),
        0 <= lo,
        b <= ss2.len(),
        forall|j: int| lo < j <= b ==> #[trigger] ss2[j - 1] == ss1[j - 1],
    ensures
        a32_forest(ss2, lo, cells, b),
        a32_views(ss2, cells, b) == a32_views(ss1, cells, b),
        a32_dead_cells(ss2, cells, b) == a32_dead_cells(ss1, cells, b),
        a32_bridge_ok_cells(ss2, cells, b) == a32_bridge_ok_cells(ss1, cells, b),
        a32_live_cost_cells(ss2, cells, b) == a32_live_cost_cells(ss1, cells, b),
    decreases b, cells.len() + 1,
{
    if cells.len() > 0 {
        lemma_a32_frame_cells(ss1, ss2, lo, cells.drop_last(), b);
        let c = cells.last() as int;
        let prev = if cells.len() >= 2 {
            cells[cells.len() - 2] as int
        } else {
            lo
        };
        if cells.len() >= 2 {
            lemma_a32_forest_facts(ss1, lo, cells, b, cells.len() - 2);
        }
        lemma_a32_frame(ss1, ss2, prev, c);
    }
}

/// A torn-down subtree holds no live bytes.
pub proof fn lemma_a32_dead_cost_zero(ss: Seq<FFI32_ArrowArray>, h: int)
    requires
        a32_dead(ss, h),
    ensures
        a32_live_cost(ss, h) == 0,
    decreases h, 0int,
{
    let n = ss[h - 1];
    lemma_a32_dead_cost_zero_cells(ss, n.children@, h - 1);
    if n.dictionary != 0 && n.dictionary as int <= h - 1 {
        lemma_a32_dead_cost_zero(ss, n.dictionary as int);
    }
}

pub proof fn lemma_a32_dead_cost_zero_cells(ss: Seq<FFI32_ArrowArray>, cells: Seq<u32>, b: int)
    requires
        a32_dead_cells(ss, cells, b),
    ensures
        a32_live_cost_cells(ss, cells, b) == 0,
    decreases b, cells.len() + 1,
{
    if cells.len() > 0 {
        lemma_a32_dead_cost_zero_cells(ss, cells.drop_last(), b);
        if 0 < cells.last() as int <= b {
            lemma_a32_dead_cost_zero(ss, cells.last() as int);
        }
    }
}

/// If every cell roots a live subtree whose cost matches its model tree,
/// the forest's cost is the model sum.
pub proof fn lemma_a32_cells_cost(
    ss: Seq<FFI32_ArrowArray>,
    cells: Seq<u32>,
    b: int,
    ts: Seq<ArrayV>,
)
    requires
        cells.len() == ts.len(),
        forall|i: int|
            0 <= i < cells.len() ==> 0 < #[trigger] cells[i] as int <= b && a32_live_cost(
                ss,
                cells[i] as int,
            ) == crate::model::sb_array_cost(ts[i]),
    ensures
        a32_live_cost_cells(ss, cells, b) == crate::model::sb_arrays_cost(ts),
    decreases cells.len(),
{
    if cells.len() > 0 {
        lemma_a32_cells_cost(ss, cells.drop_last(), b, ts.drop_last());
    }
}

/// If every cell's view matches the corresponding model tree, the forest's
/// view is that sequence of trees.
pub proof fn lemma_a32_cells_views(
    ss: Seq<FFI32_ArrowArray>,
    cells: Seq<u32>,
    b: int,
    ts: Seq<ArrayV>,
)
    requires
        cells.len() == ts.len(),
        forall|i: int|
            0 <= i < cells.len() ==> 0 < #[trigger] cells[i] as int <= b && a32_view(
                ss,
                cells[i] as int,
            ) == ts[i],
    ensures
        a32_views(ss, cells, b) == ts,
    decreases cells.len(),
{
    if cells.len() > 0 {
        lemma_a32_cells_views(ss, cells.drop_last(), b, ts.drop_last());
        assert(a32_views(ss, cells, b) =~= ts);
    } else {
        assert(a32_views(ss, cells, b) =~= ts);
    }
}

/// If every cell roots a consistent subtree, the forest is consistent.
pub proof fn lemma_a32_cells_ok(ss: Seq<FFI32_ArrowArray>, cells: Seq<u32>, b: int)
    requires
        forall|i: int|
            0 <= i < cells.len() ==> 0 < #[trigger] cells[i] as int <= b && a32_bridge_ok(
                ss,
                cells[i] as int,
            ),
    ensures
        a32_bridge_ok_cells(ss, cells, b),
    decreases cells.len(),
{
    if cells.len() > 0 {
        lemma_a32_cells_ok(ss, cells.drop_last(), b);
    }
}

/// If every cell roots a torn-down subtree, the forest is torn down.
pub proof fn lemma_a32_cells_dead(ss: Seq<FFI32_ArrowArray>, cells: Seq<u32>, b: int)
    requires
        forall|i: int|
            0 <= i < cells.len() ==> (0 < #[trigger] cells[i] as int <= b ==> a32_dead(
                ss,
                cells[i] as int,
            )),
    ensures
        a32_dead_cells(ss, cells, b),
    decreases cells.len(),
{
    if cells.len() > 0 {
        lemma_a32_cells_dead(ss, cells.drop_last(), b);
    }
}

pub proof fn lemma_a32_views_index(ss: Seq<FFI32_ArrowArray>, cells: Seq<u32>, b: int, i: int)
    requires
        0 <= i < cells.len(),
    ensures
        a32_views(ss, cells, b).len() == cells.len(),
        0 < cells[i] as int <= b ==> a32_views(ss, cells, b)[i] == a32_view(ss, cells[i] as int),
    decreases cells.len(),
{
    if i < cells.len() - 1 {
        lemma_a32_views_index(ss, cells.drop_last(), b, i);
    } else {
        lemma_a32_views_len(ss, cells.drop_last(), b);
    }
}

pub proof fn lemma_a32_views_len(ss: Seq<FFI32_ArrowArray>, cells: Seq<u32>, b: int)
    ensures
        a32_views(ss, cells, b).len() == cells.len(),
    decreases cells.len(),
{
    if cells.len() > 0 {
        lemma_a32_views_len(ss, cells.drop_last(), b);
    }
}

/// A forest property holds of every prefix of its cells.
pub proof fn lemma_s32_forest_prefix(
    ss: Seq<FFI32_ArrowSchema>,
    lo: int,
    cells: Seq<u32>,
    b: int,
    i: int,
)
    requires
        s32_forest(ss, lo, cells, b),
        0 <= i <= cells.len(),
    ensures
        s32_forest(ss, lo, cells.take(i), b),
    decreases cells.len(),
{
    if i < cells.len() {
        lemma_s32_forest_prefix(ss, lo, cells.drop_last(), b, i);
        assert(cells.drop_last().take(i) =~= cells.take(i));
    } else {
        assert(cells.take(i) =~= cells);
    }
}

/// A forest property holds of every prefix of its cells.
pub proof fn lemma_a32_forest_prefix(
    ss: Seq<FFI32_ArrowArray>,
    lo: int,
    cells: Seq<u32>,
    b: int,
    i: int,
)
    requires
        a32_forest(ss, lo, cells, b),
        0 <= i <= cells.len(),
    ensures
        a32_forest(ss, lo, cells.take(i), b),
    decreases cells.len(),
{
    if i < cells.len() {
        lemma_a32_forest_prefix(ss, lo, cells.drop_last(), b, i);
        assert(cells.drop_last().take(i) =~= cells.take(i));
    } else {
        assert(cells.take(i) =~= cells);
    }
}

// ---------------------------------------------------------------------
// Validation and guest-built trees.
// ---------------------------------------------------------------------

impl Sandbox {
    /// Check, before any recursion, that the schema subtree rooted at `h`
    /// is a well-founded tree over the interval `(lo, h]`.  A `false`
    /// answer is the malformed-structure rejection of the bridge.
    pub fn validate_schema32(&self, lo: u32, h: u32) -> (b: bool)
        ensures
            b == s32_tree(self.schemas@, lo as int, h as int),
        decreases h,
    {
        let ss = Ghost(self.schemas@);
        if !(lo < h && h as usize <= self.schemas.len()) {
            return false;
        }
        let n = &self.schemas[h as usize - 1];
        if n.children.len() > MAX_FANOUT {
            return false;
        }
        let b_bound: u32 = h - 1;
        let mut i: usize = 0;
        let mut ok = true;
        while i < n.children.len() && ok
            invariant
                0 <= i <= n.children@.len(),
                *n == ss@[h - 1],
                ss@ == self.schemas@,
                lo < h,
                h as int <= ss@.len(),
                b_bound == h - 1,
                ok == s32_forest(ss@, lo as int, n.children@.take(i as int), b_bound as int),
            decreases n.children@.len() - i,
        {
            let c = n.children[i];
            let prev: u32 = if i == 0 {
                lo
            } else {
                n.children[i - 1]
            };
            let step = prev < c && c <= b_bound && self.validate_schema32(prev, c);
            proof {
                assert(n.children@.take(i + 1).drop_last() =~= n.children@.take(i as int));
                assert(n.children@.take(i + 1).last() == c);
            }
            ok = ok && step;
            i = i + 1;
        }
        proof {
            assert(n.children@.take(n.children@.len() as int) =~= n.children@);
        }
        if !ok {
            proof {
                if s32_tree(ss@, lo as int, h as int) {
                    lemma_s32_forest_prefix(
                        ss@,
                        lo as int,
                        n.children@,
                        b_bound as int,
                        i as int,
                    );
                }
            }
            return false;
        }
        if n.dictionary != 0 {
            let dlo: u32 = if n.children.len() > 0 {
                n.children[n.children.len() - 1]
            } else {
                lo
            };
            dlo < n.dictionary && n.dictionary <= h - 1 && self.validate_schema32(
                dlo,
                n.dictionary,
            )
        } else {
            true
        }
    }

    /// Check that the array subtree rooted at `h` is a well-founded tree
    /// over the interval `(lo, h]`.
    pub fn validate_array32(&self, lo: u32, h: u32) -> (b: bool)
        ensures
            b == a32_tree(self.arrays@, lo as int, h as int),
        decreases h,
    {
        let ss = Ghost(self.arrays@);
        if !(lo < h && h as usize <= self.arrays.len()) {
            return false;
        }
        let n = &self.arrays[h as usize - 1];
        if n.buffers.len() > MAX_FANOUT || n.children.len() > MAX_FANOUT {
            return false;
        }
        let b_bound: u32 = h - 1;
        let mut i: usize = 0;
        let mut ok = true;
        while i < n.children.len() && ok
            invariant
                0 <= i <= n.children@.len(),
                *n == ss@[h - 1],
                ss@ == self.arrays@,
                lo < h,
                h as int <= ss@.len(),
                b_bound == h - 1,
                ok == a32_forest(ss@, lo as int, n.children@.take(i as int), b_bound as int),
            decreases n.children@.len() - i,
        {
            let c = n.children[i];
            let prev: u32 = if i == 0 {
                lo
            } else {
                n.children[i - 1]
            };
            let step = prev < c && c <= b_bound && self.validate_array32(prev, c);
            proof {
                assert(n.children@.take(i + 1).drop_last() =~= n.children@.take(i as int));
                assert(n.children@.take(i + 1).last() == c);
            }
            ok = ok && step;
            i = i + 1;
        }
        proof {
            assert(n.children@.take(n.children@.len() as int) =~= n.children@);
        }
        if !ok {
            proof {
                if a32_tree(ss@, lo as int, h as int) {
                    lemma_a32_forest_prefix(
                        ss@,
                        lo as int,
                        n.children@,
                        b_bound as int,
                        i as int,
                    );
                }
            }
            return false;
        }
        if n.dictionary != 0 {
            let dlo: u32 = if n.children.len() > 0 {
                n.children[n.children.len() - 1]
            } else {
                lo
            };
            dlo < n.dictionary && n.dictionary <= h - 1 && self.validate_array32(dlo, n.dictionary)
        } else {
            true
        }
    }

    /// A schema node created inside the guest (for the output of a
    /// transform): its release slot names the guest's own teardown and it
    /// carries no bridge bookkeeping.  Charges the node and its cell array.
    pub fn guest_schema_node(
        &mut self,
        format: u32,
        name: u32,
        metadata: u32,
        flags: i64,
        children: Vec<u32>,
        dictionary: u32,
    ) -> (r: Option<u32>)
        requires
            old(self).wf(),
            children@.len() <= MAX_FANOUT,
        ensures
            final(self).wf(),
            final(self).base == old(self).base,
            final(self).capacity == old(self).capacity,
            final(self).arrays@ == old(self).arrays@,
            final(self).release_log@ == old(self).release_log@,
            final(self).dealloc_bytes == old(self).dealloc_bytes,
            r is Some ==> final(self).alloc_bytes as int == old(self).alloc_bytes
                + SCHEMA32_NODE_BYTES + (if children@.len() > 0 {
                CELL32_BYTES as int * children@.len()
            } else {
                0
            }),
            r is Some ==> final(self).schemas@.len() == old(self).schemas@.len() + 1
                && final(self).schemas@.drop_last() == old(self).schemas@ && r->0 == old(self).schemas@.len() + 1 && (final(self).schemas@.last() == (FFI32_ArrowSchema {
                format,
                name,
                metadata,
                flags,
                children: final(self).schemas@.last().children,
                dictionary,
                release: ReleaseSlot::Guest,
                private_data: None,
            })) && final(self).schemas@.last().children@ == children@,
            r is None ==> *final(self) == *old(self),
    {
        let extra: u64 = if children.len() > 0 {
            CELL32_BYTES * (children.len() as u64)
        } else {
            0
        };
        self.alloc_schema_slot(
            FFI32_ArrowSchema {
                format,
                name,
                metadata,
                flags,
                children,
                dictionary,
                release: ReleaseSlot::Guest,
                private_data: None,
            },
            extra,
        )
    }

    /// An array node created inside the guest; charges the node, its
    /// buffer-offset array and its cell array.
    pub fn guest_array_node(
        &mut self,
        length: i64,
        null_count: i64,
        offset: i64,
        buffers: Vec<u32>,
        children: Vec<u32>,
        dictionary: u32,
    ) -> (r: Option<u32>)
        requires
            old(self).wf(),
            buffers@.len() <= MAX_FANOUT,
            children@.len() <= MAX_FANOUT,
        ensures
            final(self).wf(),
            final(self).base == old(self).base,
            final(self).capacity == old(self).capacity,
            final(self).schemas@ == old(self).schemas@,
            final(self).release_log@ == old(self).release_log@,
            final(self).dealloc_bytes == old(self).dealloc_bytes,
            r is Some ==> final(self).alloc_bytes as int == old(self).alloc_bytes
                + ARRAY32_NODE_BYTES + (if buffers@.len() > 0 {
                CELL32_BYTES as int * buffers@.len()
            } else {
                0
            }) + (if children@.len() > 0 {
                CELL32_BYTES as int * children@.len()
            } else {
                0
            }),
            r is Some ==> final(self).arrays@.len() == old(self).arrays@.len() + 1
                && final(self).arrays@.drop_last() == old(self).arrays@ && r->0 == old(self).arrays@.len() + 1 && (final(self).arrays@.last() == (FFI32_ArrowArray {
                length,
                null_count,
                offset,
                buffers: final(self).arrays@.last().buffers,
                children: final(self).arrays@.last().children,
                dictionary,
                release: ReleaseSlot::Guest,
                private_data: None,
            })) && final(self).arrays@.last().buffers@ == buffers@ && final(self).arrays@.last().children@ == children@,
            r is None ==> *final(self) == *old(self),
    {
        let extra_b: u64 = if buffers.len() > 0 {
            CELL32_BYTES * (buffers.len() as u64)
        } else {
            0
        };
        let extra_c: u64 = if children.len() > 0 {
            CELL32_BYTES * (children.len() as u64)
        } else {
            0
        };
        self.alloc_array_slot(
            FFI32_ArrowArray {
                length,
                null_count,
                offset,
                buffers,
                children,
                dictionary,
                release: ReleaseSlot::Guest,
                private_data: None,
            },
            extra_b + extra_c,
        )
    }
}

/// `s2` keeps every element of `s1` in place and may append more.
pub open spec fn seq_extends<T>(s2: Seq<T>, s1: Seq<T>) -> bool {
    s2.len() >= s1.len() && forall|j: int| 0 <= j < s1.len() ==> #[trigger] s2[j] == s1[j]
}

/// The left end of a tree's interval may be moved further left.
pub proof fn lemma_s32_tree_lo_mono(ss: Seq<FFI32_ArrowSchema>, lo1: int, lo2: int, h: int)
    requires
        s32_tree(ss, lo1, h),
        0 <= lo2 <= lo1,
    ensures
        s32_tree(ss, lo2, h),
    decreases h, 0int,
{
    let n = ss[h - 1];
    lemma_s32_forest_lo_mono(ss, lo1, lo2, n.children@, h - 1);
    if n.dictionary != 0 && n.children@.len() == 0 {
        lemma_s32_tree_lo_mono(ss, lo1, lo2, n.dictionary as int);
    }
}

pub proof fn lemma_s32_forest_lo_mono(
    ss: Seq<FFI32_ArrowSchema>,
    lo1: int,
    lo2: int,
    cells: Seq<u32>,
    b: int,
)
    requires
        s32_forest(ss, lo1, cells, b),
        0 <= lo2 <= lo1,
    ensures
        s32_forest(ss, lo2, cells, b),
    decreases b, cells.len() + 1,
{
    if cells.len() > 0 {
        lemma_s32_forest_lo_mono(ss, lo1, lo2, cells.drop_last(), b);
        if cells.len() == 1 {
            lemma_s32_tree_lo_mono(ss, lo1, lo2, cells.last() as int);
        }
    }
}

/// Build a forest from per-cell facts: consecutive intervals, each rooting
/// a tree.
pub proof fn lemma_s32_forest_build(ss: Seq<FFI32_ArrowSchema>, lo: int, cells: Seq<u32>, b: int)
    requires
        0 <= lo,
        forall|j: int|
            0 <= j < cells.len() ==> {
                let c = #[trigger] cells[j] as int;
                let prev = if j == 0 {
                    lo
                } else {
                    cells[j - 1] as int
                };
                prev < c <= b && s32_tree(ss, prev, c)
            },
    ensures
        s32_forest(ss, lo, cells, b),
    decreases cells.len(),
{
    if cells.len() > 0 {
        assert forall|j: int| 0 <= j < cells.drop_last().len() implies {
            let c = #[trigger] cells.drop_last()[j] as int;
            let prev = if j == 0 {
                lo
            } else {
                cells.drop_last()[j - 1] as int
            };
            prev < c <= b && s32_tree(ss, prev, c)
        } by {
            assert(cells.drop_last()[j] == cells[j]);
            if j > 0 {
                assert(cells.drop_last()[j - 1] == cells[j - 1]);
            }
        }
        lemma_s32_forest_build(ss, lo, cells.drop_last(), b);
        assert(cells[cells.len() - 1] == cells.last());
    }
}

/// The left end of a tree's interval may be moved further left.
pub proof fn lemma_a32_tree_lo_mono(ss: Seq<FFI32_ArrowArray>, lo1: int, lo2: int, h: int)
    requires
        a32_tree(ss, lo1, h),
        0 <= lo2 <= lo1,
    ensures
        a32_tree(ss, lo2, h),
    decreases h, 0int,
{
    let n = ss[h - 1];
    lemma_a32_forest_lo_mono(ss, lo1, lo2, n.children@, h - 1);
    if n.dictionary != 0 && n.children@.len() == 0 {
        lemma_a32_tree_lo_mono(ss, lo1, lo2, n.dictionary as int);
    }
}

pub proof fn lemma_a32_forest_lo_mono(
    ss: Seq<FFI32_ArrowArray>,
    lo1: int,
    lo2: int,
    cells: Seq<u32>,
    b: int,
)
    requires
        a32_forest(ss, lo1, cells, b),
        0 <= lo2 <= lo1,
    ensures
        a32_forest(ss, lo2, cells, b),
    decreases b, cells.len() + 1,
{
    if cells.len() > 0 {
        lemma_a32_forest_lo_mono(ss, lo1, lo2, cells.drop_last(), b);
        if cells.len() == 1 {
            lemma_a32_tree_lo_mono(ss, lo1, lo2, cells.last() as int);
        }
    }
}

/// Build a forest from per-cell facts.
pub proof fn lemma_a32_forest_build(ss: Seq<FFI32_ArrowArray>, lo: int, cells: Seq<u32>, b: int)
    requires
        0 <= lo,
        forall|j: int|
            0 <= j < cells.len() ==> {
                let c = #[trigger] cells[j] as int;
                let prev = if j == 0 {
                    lo
                } else {
                    cells[j - 1] as int
                };
                prev < c <= b && a32_tree(ss, prev, c)
            },
    ensures
        a32_forest(ss, lo, cells, b),
    decreases cells.len(),
{
    if cells.len() > 0 {
        assert forall|j: int| 0 <= j < cells.drop_last().len() implies {
            let c = #[trigger] cells.drop_last()[j] as int;
            let prev = if j == 0 {
                lo
            } else {
                cells.drop_last()[j - 1] as int
            };
            prev < c <= b && a32_tree(ss, prev, c)
        } by {
            assert(cells.drop_last()[j] == cells[j]);
            if j > 0 {
                assert(cells.drop_last()[j - 1] == cells[j - 1]);
            }
        }
        lemma_a32_forest_build(ss, lo, cells.drop_last(), b);
        assert(cells[cells.len() - 1] == cells.last());
    }
}

/// The value a slot takes when its node is torn down: the release slot is
/// emptied and the private record destroyed; all structural fields stay, so
/// views of the arena are stable across releases.
pub open spec fn schema32_released_of(n: FFI32_ArrowSchema) -> FFI32_ArrowSchema {
    FFI32_ArrowSchema { release: ReleaseSlot::Empty, private_data: None, ..n }
}

/// The released value of an array slot.
pub open spec fn array32_released_of(n: FFI32_ArrowArray) -> FFI32_ArrowArray {
    FFI32_ArrowArray { release: ReleaseSlot::Empty, private_data: None, ..n }
}

/// Shape framing: a tree and its view survive changes that keep every
/// structural field of the slots in its interval (release slots and private
/// records may differ).
pub proof fn lemma_s32_same_shape(
    ss1: Seq<FFI32_ArrowSchema>,
    ss2: Seq<FFI32_ArrowSchema>,
    lo: int,
    h: int,
)
    requires
        s32_tree(ss1, lo, h),
        h <= ss2.len(),
        forall|j: int|
            lo < j <= h ==> {
                let n1 = ss1[j - 1];
                let n2 = #[trigger] ss2[j - 1];
                n2.children@ == n1.children@ && n2.dictionary == n1.dictionary && n2.format
                    == n1.format && n2.name == n1.name && n2.metadata == n1.metadata && n2.flags
                    == n1.flags
            },
    ensures
        s32_tree(ss2, lo, h),
        s32_view(ss2, h) == s32_view(ss1, h),
    decreases h, 0int,
{
    let n = ss1[h - 1];
    lemma_s32_same_shape_cells(ss1, ss2, lo, n.children@, h - 1);
    if n.dictionary != 0 {
        let dlo = if n.children@.len() > 0 {
            n.children@.last() as int
        } else {
            lo
        };
        if n.children@.len() > 0 {
            lemma_s32_forest_facts(ss1, lo, n.children@, h - 1, n.children@.len() - 1);
        }
        lemma_s32_same_shape(ss1, ss2, dlo, n.dictionary as int);
    }
}

pub proof fn lemma_s32_same_shape_cells(
    ss1: Seq<FFI32_ArrowSchema>,
    ss2: Seq<FFI32_ArrowSchema>,
    lo: int,
    cells: Seq<u32>,
    b: int,
)
    requires
        s32_forest(ss1, lo, cells, b),
        0 <= lo,
        b <= ss2.len(),
        forall|j: int|
            lo < j <= b ==> {
                let n1 = ss1[j - 1];
                let n2 = #[trigger] ss2[j - 1];
                n2.children@ == n1.children@ && n2.dictionary == n1.dictionary && n2.format
                    == n1.format && n2.name == n1.name && n2.metadata == n1.metadata && n2.flags
                    == n1.flags
            },
    ensures
        s32_forest(ss2, lo, cells, b),
        s32_views(ss2, cells, b) == s32_views(ss1, cells, b),
    decreases b, cells.len() + 1,
{
    if cells.len() > 0 {
        lemma_s32_same_shape_cells(ss1, ss2, lo, cells.drop_last(), b);
        let c = cells.last() as int;
        let prev = if cells.len() >= 2 {
            cells[cells.len() - 2] as int
        } else {
            lo
        };
        if cells.len() >= 2 {
            lemma_s32_forest_facts(ss1, lo, cells, b, cells.len() - 2);
        }
        lemma_s32_same_shape(ss1, ss2, prev, c);
    }
}

/// Each cell of a consistent forest roots a consistent subtree.
pub proof fn lemma_s32_ok_cells_index(ss: Seq<FFI32_ArrowSchema>, cells: Seq<u32>, b: int, i: int)
    requires
        s32_bridge_ok_cells(ss, cells, b),
        0 <= i < cells.len(),
        0 < cells[i] as int <= b,
    ensures
        s32_bridge_ok(ss, cells[i] as int),
    decreases cells.len(),
{
    if i < cells.len() - 1 {
        lemma_s32_ok_cells_index(ss, cells.drop_last(), b, i);
    }
}

/// Live cost of a forest, prefix by prefix.
pub proof fn lemma_s32_cost_cells_take(ss: Seq<FFI32_ArrowSchema>, cells: Seq<u32>, b: int, i: int)
    requires
        0 <= i < cells.len(),
    ensures
        s32_live_cost_cells(ss, cells.take(i + 1), b) == s32_live_cost_cells(ss, cells.take(i), b)
            + (if 0 < cells[i] as int <= b {
            s32_live_cost(ss, cells[i] as int)
        } else {
            0
        }),
{
    assert(cells.take(i + 1).drop_last() =~= cells.take(i));
    assert(cells.take(i + 1).last() == cells[i]);
}

/// No subtree holds a negative number of live bytes.
pub proof fn lemma_s32_live_cost_nonneg(ss: Seq<FFI32_ArrowSchema>, h: int)
    ensures
        s32_live_cost(ss, h) >= 0,
    decreases h, 0int,
{
    if 1 <= h <= ss.len() {
        let n = ss[h - 1];
        lemma_s32_live_cost_cells_nonneg(ss, n.children@, h - 1);
        if n.dictionary != 0 && n.dictionary as int <= h - 1 {
            lemma_s32_live_cost_nonneg(ss, n.dictionary as int);
        }
    }
}

pub proof fn lemma_s32_live_cost_cells_nonneg(ss: Seq<FFI32_ArrowSchema>, cells: Seq<u32>, b: int)
    ensures
        s32_live_cost_cells(ss, cells, b) >= 0,
    decreases b, cells.len() + 1,
{
    if cells.len() > 0 {
        lemma_s32_live_cost_cells_nonneg(ss, cells.drop_last(), b);
        if 0 < cells.last() as int <= b {
            lemma_s32_live_cost_nonneg(ss, cells.last() as int);
        }
    }
}

pub proof fn lemma_s32_cost_cells_prefix_bound(
    ss: Seq<FFI32_ArrowSchema>,
    cells: Seq<u32>,
    b: int,
    j: int,
)
    requires
        0 <= j <= cells.len(),
    ensures
        s32_live_cost_cells(ss, cells, b) >= s32_live_cost_cells(ss, cells.take(j), b),
    decreases cells.len() - j,
{
    if j == cells.len() {
        assert(cells.take(j) =~= cells);
    } else {
        lemma_s32_cost_cells_prefix_bound(ss, cells, b, j + 1);
        lemma_s32_cost_cells_take(ss, cells, b, j);
        if 0 < cells[j] as int <= b {
            lemma_s32_live_cost_nonneg(ss, cells[j] as int);
        }
    }
}

/// Shape framing: a tree and its view survive changes that keep every
/// structural field of the slots in its interval (release slots and private
/// records may differ).
pub proof fn lemma_a32_same_shape(
    ss1: Seq<FFI32_ArrowArray>,
    ss2: Seq<FFI32_ArrowArray>,
    lo: int,
    h: int,
)
    requires
        a32_tree(ss1, lo, h),
        h <= ss2.len(),
        forall|j: int|
            lo < j <= h ==> {
                let n1 = ss1[j - 1];
                let n2 = #[trigger] ss2[j - 1];
                n2.children@ == n1.children@ && n2.dictionary == n1.dictionary && n2.length
                    == n1.length && n2.null_count == n1.null_count && n2.offset == n1.offset
                    && n2.buffers@ == n1.buffers@
            },
    ensures
        a32_tree(ss2, lo, h),
        a32_view(ss2, h) == a32_view(ss1, h),
    decreases h, 0int,
{
    let n = ss1[h - 1];
    lemma_a32_same_shape_cells(ss1, ss2, lo, n.children@, h - 1);
    if n.dictionary != 0 {
        let dlo = if n.children@.len() > 0 {
            n.children@.last() as int
        } else {
            lo
        };
        if n.children@.len() > 0 {
            lemma_a32_forest_facts(ss1, lo, n.children@, h - 1, n.children@.len() - 1);
        }
        lemma_a32_same_shape(ss1, ss2, dlo, n.dictionary as int);
    }
}

pub proof fn lemma_a32_same_shape_cells(
    ss1: Seq<FFI32_ArrowArray>,
    ss2: Seq<FFI32_ArrowArray>,
    lo: int,
    cells: Seq<u32>,
    b: int,
)
    requires
        a32_forest(ss1, lo, cells, b),
        0 <= lo,
        b <= ss2.len(),
        forall|j: int|
            lo < j <= b ==> {
                let n1 = ss1[j - 1];
                let n2 = #[trigger] ss2[j - 1];
                n2.children@ == n1.children@ && n2.dictionary == n1.dictionary && n2.length
                    == n1.length && n2.null_count == n1.null_count && n2.offset == n1.offset
                    && n2.buffers@ == n1.buffers@
            },
    ensures
        a32_forest(ss2, lo, cells, b),
        a32_views(ss2, cells, b) == a32_views(ss1, cells, b),
    decreases b, cells.len() + 1,
{
    if cells.len() > 0 {
        lemma_a32_same_shape_cells(ss1, ss2, lo, cells.drop_last(), b);
        let c = cells.last() as int;
        let prev = if cells.len() >= 2 {
            cells[cells.len() - 2] as int
        } else {
            lo
        };
        if cells.len() >= 2 {
            lemma_a32_forest_facts(ss1, lo, cells, b, cells.len() - 2);
        }
        lemma_a32_same_shape(ss1, ss2, prev, c);
    }
}

/// Each cell of a consistent forest roots a consistent subtree.
pub proof fn lemma_a32_ok_cells_index(ss: Seq<FFI32_ArrowArray>, cells: Seq<u32>, b: int, i: int)
    requires
        a32_bridge_ok_cells(ss, cells, b),
        0 <= i < cells.len(),
        0 < cells[i] as int <= b,
    ensures
        a32_bridge_ok(ss, cells[i] as int),
    decreases cells.len(),
{
    if i < cells.len() - 1 {
        lemma_a32_ok_cells_index(ss, cells.drop_last(), b, i);
    }
}

/// Live cost of a forest, prefix by prefix.
pub proof fn lemma_a32_cost_cells_take(ss: Seq<FFI32_ArrowArray>, cells: Seq<u32>, b: int, i: int)
    requires
        0 <= i < cells.len(),
    ensures
        a32_live_cost_cells(ss, cells.take(i + 1), b) == a32_live_cost_cells(ss, cells.take(i), b)
            + (if 0 < cells[i] as int <= b {
            a32_live_cost(ss, cells[i] as int)
        } else {
            0
        }),
{
    assert(cells.take(i + 1).drop_last() =~= cells.take(i));
    assert(cells.take(i + 1).last() == cells[i]);
}

/// No subtree holds a negative number of live bytes.
pub proof fn lemma_a32_live_cost_nonneg(ss: Seq<FFI32_ArrowArray>, h: int)
    ensures
        a32_live_cost(ss, h) >= 0,
    decreases h, 0int,
{
    if 1 <= h <= ss.len() {
        let n = ss[h - 1];
        lemma_a32_live_cost_cells_nonneg(ss, n.children@, h - 1);
        if n.dictionary != 0 && n.dictionary as int <= h - 1 {
            lemma_a32_live_cost_nonneg(ss, n.dictionary as int);
        }
    }
}

pub proof fn lemma_a32_live_cost_cells_nonneg(ss: Seq<FFI32_ArrowArray>, cells: Seq<u32>, b: int)
    ensures
        a32_live_cost_cells(ss, cells, b) >= 0,
    decreases b, cells.len() + 1,
{
    if cells.len() > 0 {
        lemma_a32_live_cost_cells_nonneg(ss, cells.drop_last(), b);
        if 0 < cells.last() as int <= b {
            lemma_a32_live_cost_nonneg(ss, cells.last() as int);
        }
    }
}

pub proof fn lemma_a32_cost_cells_prefix_bound(
    ss: Seq<FFI32_ArrowArray>,
    cells: Seq<u32>,
    b: int,
    j: int,
)
    requires
        0 <= j <= cells.len(),
    ensures
        a32_live_cost_cells(ss, cells, b) >= a32_live_cost_cells(ss, cells.take(j), b),
    decreases cells.len() - j,
{
    if j == cells.len() {
        assert(cells.take(j) =~= cells);
    } else {
        lemma_a32_cost_cells_prefix_bound(ss, cells, b, j + 1);
        lemma_a32_cost_cells_take(ss, cells, b, j);
        if 0 < cells[j] as int <= b {
            lemma_a32_live_cost_nonneg(ss, cells[j] as int);
        }
    }
}

/// Handles of a forest are sorted.
pub proof fn lemma_s32_forest_sorted(
    ss: Seq<FFI32_ArrowSchema>,
    lo: int,
    cells: Seq<u32>,
    b: int,
    j1: int,
    j2: int,
)
    requires
        s32_forest(ss, lo, cells, b),
        0 <= j1 <= j2 < cells.len(),
    ensures
        cells[j1] as int <= cells[j2] as int,
    decreases j2 - j1,
{
    if j1 < j2 {
        lemma_s32_forest_sorted(ss, lo, cells, b, j1, j2 - 1);
        lemma_s32_forest_facts(ss, lo, cells, b, j2);
    }
}

/// Handles of a forest are sorted.
pub proof fn lemma_a32_forest_sorted(
    ss: Seq<FFI32_ArrowArray>,
    lo: int,
    cells: Seq<u32>,
    b: int,
    j1: int,
    j2: int,
)
    requires
        a32_forest(ss, lo, cells, b),
        0 <= j1 <= j2 < cells.len(),
    ensures
        cells[j1] as int <= cells[j2] as int,
    decreases j2 - j1,
{
    if j1 < j2 {
        lemma_a32_forest_sorted(ss, lo, cells, b, j1, j2 - 1);
        lemma_a32_forest_facts(ss, lo, cells, b, j2);
    }
}

impl Sandbox {
    /// Guest export: invoke the release slot of the sandbox-width schema
    /// node at `h`, if any.  What a guest-internal teardown frees inside the
    /// guest is outside this model; the observable effect is that the slot
    /// is emptied.  A null or out-of-range handle and an already-empty slot
    /// are no-ops.  Nodes whose slot designates the bridge are released
    /// through the imported entry point instead, which also needs the
    /// paired host-width original.
    pub fn release_schema32(&mut self, h: u32)
        requires
            old(self).wf(),
        ensures
            final(self).wf(),
            *final(self) == (Sandbox { schemas: final(self).schemas, ..*old(self) }),
            final(self).schemas@.len() == old(self).schemas@.len(),
            forall|j: int|
                0 <= j < old(self).schemas@.len() ==> #[trigger] final(self).schemas@[j] == old(self).schemas@[j] || final(self).schemas@[j] == schema32_released_of(
                    old(self).schemas@[j],
                ),
            1 <= h <= old(self).schemas@.len() && old(self).schemas@[h - 1].release
                != ReleaseSlot::Bridge ==> final(self).schemas@[h - 1] == schema32_released_of(
                old(self).schemas@[h - 1],
            ),
            1 <= h <= old(self).schemas@.len() && old(self).schemas@[h - 1].release
                == ReleaseSlot::Bridge ==> *final(self) == *old(self),
            forall|j: int|
                0 <= j < old(self).schemas@.len() && j != h - 1 ==> #[trigger] final(self).schemas@[j] == old(self).schemas@[j],
    {
        if h >= 1 && h as usize <= self.schemas.len() {
            let idx = (h - 1) as usize;
            if !(self.schemas[idx].release == ReleaseSlot::Bridge) {
                self.schemas[idx].release = ReleaseSlot::Empty;
                self.schemas[idx].private_data = None;
                proof {
                    assert(self.schemas@[h - 1] == schema32_released_of(
                        old(self).schemas@[h - 1],
                    ));
                }
            }
        }
    }

    /// Guest export: invoke the release slot of the sandbox-width array
    /// node at `h`, if any.
    pub fn release_array32(&mut self, h: u32)
        requires
            old(self).wf(),
        ensures
            final(self).wf(),
            *final(self) == (Sandbox { arrays: final(self).arrays, ..*old(self) }),
            final(self).arrays@.len() == old(self).arrays@.len(),
            forall|j: int|
                0 <= j < old(self).arrays@.len() ==> #[trigger] final(self).arrays@[j] == old(self).arrays@[j] || final(self).arrays@[j] == array32_released_of(
                    old(self).arrays@[j],
                ),
            1 <= h <= old(self).arrays@.len() && old(self).arrays@[h - 1].release
                != ReleaseSlot::Bridge ==> final(self).arrays@[h - 1] == array32_released_of(
                old(self).arrays@[h - 1],
            ),
            1 <= h <= old(self).arrays@.len() && old(self).arrays@[h - 1].release
                == ReleaseSlot::Bridge ==> *final(self) == *old(self),
            forall|j: int|
                0 <= j < old(self).arrays@.len() && j != h - 1 ==> #[trigger] final(self).arrays@[j] == old(self).arrays@[j],
    {
        if h >= 1 && h as usize <= self.arrays.len() {
            let idx = (h - 1) as usize;
            if !(self.arrays[idx].release == ReleaseSlot::Bridge) {
                self.arrays[idx].release = ReleaseSlot::Empty;
                self.arrays[idx].private_data = None;
                proof {
                    assert(self.arrays@[h - 1] == array32_released_of(old(self).arrays@[h - 1]));
                }
            }
        }
    }
}

} // verus!
