//! The release protocol: the paired teardown of a translated tree.  One
//! entry point exists per entity kind and direction; each walks its tree
//! bottom-up, invokes the paired opposite-width release once, returns every
//! auxiliary allocation of the translation exactly once, and empties the
//! release slots.  A node whose slot is already empty is left entirely
//! alone, so a second release of the same logical node performs no further
//! deallocation.
use vstd::prelude::*;
use crate::host::{
    FFI64_ArrowArray, FFI64_ArrowSchema, HostHeap, ReleaseSlot, array64_released,
    lemma_view_arrays64_index, lemma_view_arrays64_len, lemma_view_schemas64_index,
    lemma_view_schemas64_len, schema64_released, view_array64, view_arrays64, view_schema64,
    view_schemas64,
};
use crate::model::{to_sb_array, to_sb_schema};
use crate::sandbox::{
    FFI32_ArrowArray, FFI32_ArrowSchema, LogEntry, NodeKind, Sandbox, a32_bridge_ok, a32_dead,
    a32_forest, a32_live_cost, a32_live_cost_cells, a32_tree, a32_view, array32_released_of,
    lemma_a32_cells_dead, lemma_a32_cells_ok, lemma_a32_cost_cells_prefix_bound,
    lemma_a32_cost_cells_take, lemma_a32_dead_cost_zero, lemma_a32_forest_facts,
    lemma_a32_forest_sorted, lemma_a32_frame, lemma_a32_live_cost_cells_nonneg,
    lemma_a32_live_cost_nonneg, lemma_a32_ok_cells_index, lemma_a32_same_shape,
    lemma_s32_cells_dead, lemma_s32_cells_ok, lemma_s32_cost_cells_prefix_bound,
    lemma_s32_cost_cells_take, lemma_s32_dead_cost_zero, lemma_s32_forest_facts,
    lemma_s32_forest_sorted, lemma_s32_frame, lemma_s32_live_cost_cells_nonneg,
    lemma_s32_live_cost_nonneg, lemma_s32_ok_cells_index, lemma_s32_same_shape, s32_bridge_ok,
    s32_dead, s32_forest, s32_live_cost, s32_live_cost_cells, s32_tree, s32_view,
    schema32_released_of, seq_extends,
};
use crate::{ARRAY32_NODE_BYTES, ARRAY32_PRIV_BYTES, ARRAY64_PRIV_BYTES, CELL32_BYTES, SCHEMA32_NODE_BYTES, SCHEMA32_PRIV_BYTES, SCHEMA64_PRIV_BYTES};

verus! {

/// The single-slot handoff register.  The guest's release imports cannot
/// carry a host-width pointer in their argument, so the caller stores the
/// target of a sandbox-width release here immediately before invoking the
/// entry point, which ignores its nominal argument.  One register exists
/// per sandbox instance; it must never stay live across any other call.
pub struct ReleaseHandoff {
    /// Handle of the sandbox-width schema node about to be released.
    pub schema32: u32,
    /// Handle of the sandbox-width array node about to be released.
    pub array32: u32,
}

impl ReleaseHandoff {
    pub fn new() -> (r: Self)
        ensures
            r.schema32 == 0,
            r.array32 == 0,
    {
        ReleaseHandoff { schema32: 0, array32: 0 }
    }
}

/// Unconditional teardown of a host-width schema tree: clears every release
/// slot and destroys every private record, keeping all structural fields.
/// This models what the owner's release callback does to the nodes it owns,
/// whatever their individual slots said.
fn host_clear_schema(s: &FFI64_ArrowSchema) -> (r: FFI64_ArrowSchema)
    ensures
        view_schema64(r) == view_schema64(*s),
        schema64_released(r),
    decreases *s,
{
    let mut out: Vec<FFI64_ArrowSchema> = Vec::new();
    let mut i: usize = 0;
    while i < s.children.len()
        invariant
            0 <= i <= s.children@.len(),
            out@.len() == i,
            forall|j: int|
                0 <= j < i ==> view_schema64(#[trigger] out@[j]) == view_schema64(s.children@[j])
                    && schema64_released(out@[j]),
        decreases s.children@.len() - i,
    {
        let rc = host_clear_schema(&s.children[i]);
        out.push(rc);
        i = i + 1;
    }
    let new_dict = match &s.dictionary {
        Option::Some(d) => Option::Some(Box::new(host_clear_schema(d))),
        Option::None => Option::None,
    };
    let r = FFI64_ArrowSchema {
        format: s.format,
        name: s.name,
        metadata: s.metadata,
        flags: s.flags,
        children: out,
        dictionary: new_dict,
        release: ReleaseSlot::Empty,
        private_data: None,
    };
    proof {
        lemma_view_schemas64_len(s.children@);
        lemma_view_schemas64_len(r.children@);
        assert forall|j: int| 0 <= j < s.children@.len() implies #[trigger] view_schemas64(
            r.children@,
        )[j] == view_schemas64(s.children@)[j] by {
            lemma_view_schemas64_index(s.children@, j);
            lemma_view_schemas64_index(r.children@, j);
        }
        assert(view_schemas64(r.children@) =~= view_schemas64(s.children@));
        assert(view_schema64(r) == view_schema64(*s));
    }
    r
}

/// The host-width original's own release callback: invoked once when the
/// translated copy is torn down first, it tears down the whole host-width
/// tree, leaving every structural field in place.  A callback whose slot is
/// already empty does nothing.
pub fn host_release_schema(s: FFI64_ArrowSchema) -> (r: FFI64_ArrowSchema)
    ensures
        view_schema64(r) == view_schema64(s),
        s.release != ReleaseSlot::Empty ==> schema64_released(r),
        s.release == ReleaseSlot::Empty ==> r == s,
{
    if s.release == ReleaseSlot::Empty {
        return s;
    }
    host_clear_schema(&s)
}

/// Slots outside `(lo, h]` are untouched.
pub open spec fn schema_slots_unchanged_outside(
    ss1: Seq<FFI32_ArrowSchema>,
    ss2: Seq<FFI32_ArrowSchema>,
    lo: int,
    h: int,
) -> bool {
    &&& ss2.len() == ss1.len()
    &&& forall|j: int| 0 <= j < ss1.len() && !(lo < j + 1 <= h) ==> #[trigger] ss2[j] == ss1[j]
}

/// Slots outside `(lo, h]` are untouched; slots inside either kept their
/// value or were emptied.
pub open spec fn schema_slots_release_step(
    ss1: Seq<FFI32_ArrowSchema>,
    ss2: Seq<FFI32_ArrowSchema>,
    lo: int,
    h: int,
) -> bool {
    &&& schema_slots_unchanged_outside(ss1, ss2, lo, h)
    &&& forall|j: int|
        lo < j + 1 <= h && 0 <= j < ss1.len() ==> #[trigger] ss2[j] == ss1[j] || ss2[j]
            == schema32_released_of(ss1[j])
}

/// Release steps over consecutive regions compose.
proof fn lemma_schema_step_compose(
    ss0: Seq<FFI32_ArrowSchema>,
    ss1: Seq<FFI32_ArrowSchema>,
    ss2: Seq<FFI32_ArrowSchema>,
    lo: int,
    m1: int,
    m2: int,
    hi: int,
)
    requires
        lo <= m1 <= m2 <= hi,
        schema_slots_release_step(ss0, ss1, lo, m1),
        schema_slots_release_step(ss1, ss2, m2, hi),
    ensures
        schema_slots_release_step(ss0, ss2, lo, hi),
{
    assert forall|j: int| 0 <= j < ss0.len() && !(lo < j + 1 <= hi) implies #[trigger] ss2[j]
        == ss0[j] by {
        assert(ss1[j] == ss0[j]);
        assert(ss2[j] == ss1[j]);
    }
    assert forall|j: int| lo < j + 1 <= hi && 0 <= j < ss0.len() implies (#[trigger] ss2[j]
        == ss0[j] || ss2[j] == schema32_released_of(ss0[j])) by {
        if j + 1 <= m1 {
            assert(ss2[j] == ss1[j]);
        } else if j + 1 <= m2 {
            assert(ss1[j] == ss0[j]);
            assert(ss2[j] == ss1[j]);
        } else {
            assert(ss1[j] == ss0[j]);
        }
    }
}

/// What holds of the first `upto` children once they are torn down: each
/// still roots a tree above `lo`, consistent and fully dead.
pub open spec fn schema_children_released(
    ss: Seq<FFI32_ArrowSchema>,
    cells: Seq<u32>,
    lo: int,
    upto: int,
) -> bool {
    forall|j: int|
        0 <= j < upto ==> {
            let cj = #[trigger] cells[j] as int;
            lo < cj <= ss.len() && s32_tree(ss, lo, cj) && s32_dead(ss, cj) && s32_bridge_ok(
                ss,
                cj,
            )
        }
}

/// Facts about torn-down children survive a release step confined to a
/// region above all of them.
proof fn lemma_schema_lift_children(
    cur: Seq<FFI32_ArrowSchema>,
    cur2: Seq<FFI32_ArrowSchema>,
    cells: Seq<u32>,
    lo: int,
    upto: int,
    plo: int,
    phi: int,
)
    requires
        0 <= upto <= cells.len(),
        0 <= lo <= plo,
        forall|j: int| 0 <= j < upto ==> lo < #[trigger] cells[j] as int <= plo,
        schema_children_released(cur, cells, lo, upto),
        schema_slots_unchanged_outside(cur, cur2, plo, phi),
    ensures
        schema_children_released(cur2, cells, lo, upto),
{
    assert forall|j: int| 0 <= j < upto implies {
        let cj = #[trigger] cells[j] as int;
        lo < cj <= cur2.len() && s32_tree(cur2, lo, cj) && s32_dead(cur2, cj) && s32_bridge_ok(
            cur2,
            cj,
        )
    } by {
        let cj = cells[j] as int;
        assert(lo < cj <= cur.len() && s32_tree(cur, lo, cj) && s32_dead(cur, cj)
            && s32_bridge_ok(cur, cj));
        assert forall|k: int| lo < k <= cj implies #[trigger] cur2[k - 1] == cur[k - 1] by {
            assert(!(plo < k <= phi));
        }
        lemma_s32_frame(cur, cur2, lo, cj);
    }
}

/// Assembling the torn-down node: with all children and the dictionary
/// dead and the node's own slot emptied, the subtree is dead, consistent,
/// and keeps its shape and view.
#[verifier::rlimit(100)]
proof fn lemma_schema_release_assemble(
    ss0: Seq<FFI32_ArrowSchema>,
    ss_fin: Seq<FFI32_ArrowSchema>,
    lo: int,
    h: int,
)
    requires
        s32_tree(ss0, lo, h),
        ss_fin.len() == ss0.len(),
        schema_slots_release_step(ss0, ss_fin, lo, h),
        ss_fin[h - 1] == schema32_released_of(ss0[h - 1]),
        schema_children_released(ss_fin, ss0[h - 1].children@, lo, ss0[h - 1].children@.len() as int),
        ss0[h - 1].dictionary != 0 ==> s32_dead(ss_fin, ss0[h - 1].dictionary as int)
            && s32_bridge_ok(ss_fin, ss0[h - 1].dictionary as int),
    ensures
        s32_tree(ss_fin, lo, h),
        s32_view(ss_fin, h) == s32_view(ss0, h),
        s32_bridge_ok(ss_fin, h),
        s32_dead(ss_fin, h),
{
    let n0 = ss0[h - 1];
    let cells = n0.children@;
    assert forall|j: int| lo < j <= h implies {
        let n1 = ss0[j - 1];
        let n2 = #[trigger] ss_fin[j - 1];
        n2.children@ == n1.children@ && n2.dictionary == n1.dictionary && n2.format == n1.format
            && n2.name == n1.name && n2.metadata == n1.metadata && n2.flags == n1.flags
    } by {
        assert(ss_fin[j - 1] == ss0[j - 1] || ss_fin[j - 1] == schema32_released_of(ss0[j - 1]));
    }
    lemma_s32_same_shape(ss0, ss_fin, lo, h);
    assert forall|j: int| 0 <= j < cells.len() implies (0 < #[trigger] cells[j] as int <= h - 1
        ==> s32_dead(ss_fin, cells[j] as int)) by {
        lemma_s32_forest_facts(ss0, lo, cells, h - 1, j);
    }
    lemma_s32_cells_dead(ss_fin, cells, h - 1);
    assert forall|j: int| 0 <= j < cells.len() implies 0 < #[trigger] cells[j] as int <= h - 1
        && s32_bridge_ok(ss_fin, cells[j] as int) by {
        lemma_s32_forest_facts(ss0, lo, cells, h - 1, j);
    }
    lemma_s32_cells_ok(ss_fin, cells, h - 1);
    assert(s32_dead(ss_fin, h));
    assert(s32_bridge_ok(ss_fin, h));
}

/// Before releasing the i-th child: its subtree is still intact in the
/// current arena, consistent, and its cost fits the remaining budget
/// arithmetic.
#[verifier::rlimit(100)]
proof fn lemma_schema_walk_child_pre(
    ss0: Seq<FFI32_ArrowSchema>,
    cur: Seq<FFI32_ArrowSchema>,
    lo: int,
    h: int,
    i: int,
)
    requires
        0 <= lo,
        s32_tree(ss0, lo, h),
        s32_bridge_ok(ss0, h),
        0 <= i < ss0[h - 1].children@.len(),
        schema_slots_release_step(ss0, cur, lo, (if i == 0 {
            lo
        } else {
            ss0[h - 1].children@[i - 1] as int
        })),
    ensures
        ({
            let cells = ss0[h - 1].children@;
            let c = cells[i] as int;
            let prev = if i == 0 {
                lo
            } else {
                cells[i - 1] as int
            };
            &&& lo <= prev < c <= h - 1
            &&& s32_tree(cur, prev, c)
            &&& s32_bridge_ok(cur, c)
            &&& s32_live_cost(cur, c) == s32_live_cost(ss0, c)
            &&& s32_live_cost_cells(ss0, cells.take(i + 1), h - 1) == s32_live_cost_cells(
                ss0,
                cells.take(i),
                h - 1,
            ) + s32_live_cost(ss0, c)
            &&& s32_live_cost_cells(ss0, cells.take(i), h - 1) + s32_live_cost(ss0, c)
                <= s32_live_cost(ss0, h)
        }),
{
    let cells = ss0[h - 1].children@;
    let c = cells[i] as int;
    let prev = if i == 0 {
        lo
    } else {
        cells[i - 1] as int
    };
    lemma_s32_forest_facts(ss0, lo, cells, h - 1, i);
    assert forall|k: int| prev < k <= c implies #[trigger] cur[k - 1] == ss0[k - 1] by {}
    lemma_s32_frame(ss0, cur, prev, c);
    lemma_s32_ok_cells_index(ss0, cells, h - 1, i);
    lemma_s32_cost_cells_take(ss0, cells, h - 1, i);
    lemma_s32_cost_cells_prefix_bound(ss0, cells, h - 1, i + 1);
    lemma_s32_live_cost_nonneg(ss0, ss0[h - 1].dictionary as int);
    lemma_s32_live_cost_cells_nonneg(ss0, cells, h - 1);
    assert(s32_live_cost(ss0, h) >= s32_live_cost_cells(ss0, cells, h - 1));
}

/// Every earlier cell sits at or below the left end of the i-th child's
/// interval.
proof fn lemma_schema_cells_below(
    ss0: Seq<FFI32_ArrowSchema>,
    lo: int,
    cells: Seq<u32>,
    b: int,
    i: int,
)
    requires
        s32_forest(ss0, lo, cells, b),
        0 <= i < cells.len(),
    ensures
        forall|j: int|
            0 <= j < i ==> lo < #[trigger] cells[j] as int <= (if i == 0 {
                lo
            } else {
                cells[i - 1] as int
            }),
{
    assert forall|j: int| 0 <= j < i implies lo < #[trigger] cells[j] as int <= (if i == 0 {
        lo
    } else {
        cells[i - 1] as int
    }) by {
        lemma_s32_forest_facts(ss0, lo, cells, b, j);
        lemma_s32_forest_sorted(ss0, lo, cells, b, j, i - 1);
    }
}

/// After releasing the i-th child, the first `i + 1` children are all torn
/// down.
#[verifier::rlimit(100)]
proof fn lemma_schema_children_extend(
    cur: Seq<FFI32_ArrowSchema>,
    cur2: Seq<FFI32_ArrowSchema>,
    lo: int,
    cells: Seq<u32>,
    i: int,
)
    requires
        0 <= lo,
        0 <= i < cells.len(),
        forall|j: int|
            0 <= j < i ==> lo < #[trigger] cells[j] as int <= (if i == 0 {
                lo
            } else {
                cells[i - 1] as int
            }),
        lo <= (if i == 0 {
            lo
        } else {
            cells[i - 1] as int
        }),
        schema_children_released(cur, cells, lo, i),
        schema_slots_unchanged_outside(cur, cur2, (if i == 0 {
            lo
        } else {
            cells[i - 1] as int
        }), cells[i] as int),
        s32_tree(cur2, (if i == 0 {
            lo
        } else {
            cells[i - 1] as int
        }), cells[i] as int),
        s32_dead(cur2, cells[i] as int),
        s32_bridge_ok(cur2, cells[i] as int),
    ensures
        schema_children_released(cur2, cells, lo, i + 1),
{
    let c = cells[i] as int;
    let prev = if i == 0 {
        lo
    } else {
        cells[i - 1] as int
    };
    lemma_schema_lift_children(cur, cur2, cells, lo, i, prev, c);
    crate::sandbox::lemma_s32_tree_lo_mono(cur2, prev, lo, c);
    assert forall|j: int| 0 <= j < i + 1 implies {
        let cj = #[trigger] cells[j] as int;
        lo < cj <= cur2.len() && s32_tree(cur2, lo, cj) && s32_dead(cur2, cj) && s32_bridge_ok(
            cur2,
            cj,
        )
    } by {
        if j < i {
            assert(schema_children_released(cur2, cells, lo, i));
        }
    }
}

/// Before releasing the dictionary: its subtree is intact in the current
/// arena and its cost fits the remaining budget.
#[verifier::rlimit(100)]
proof fn lemma_schema_walk_dict_pre(
    ss0: Seq<FFI32_ArrowSchema>,
    cur: Seq<FFI32_ArrowSchema>,
    lo: int,
    h: int,
)
    requires
        0 <= lo,
        s32_tree(ss0, lo, h),
        s32_bridge_ok(ss0, h),
        ss0[h - 1].dictionary != 0,
        schema_slots_release_step(ss0, cur, lo, (if ss0[h - 1].children@.len() > 0 {
            ss0[h - 1].children@.last() as int
        } else {
            lo
        })),
    ensures
        ({
            let cells = ss0[h - 1].children@;
            let d = ss0[h - 1].dictionary as int;
            let dlo = if cells.len() > 0 {
                cells.last() as int
            } else {
                lo
            };
            &&& lo <= dlo < d <= h - 1
            &&& s32_tree(cur, dlo, d)
            &&& s32_bridge_ok(cur, d)
            &&& s32_live_cost(cur, d) == s32_live_cost(ss0, d)
            &&& s32_live_cost_cells(ss0, cells, h - 1) + s32_live_cost(ss0, d) <= s32_live_cost(
                ss0,
                h,
            )
        }),
{
    let cells = ss0[h - 1].children@;
    let d = ss0[h - 1].dictionary as int;
    let dlo = if cells.len() > 0 {
        cells.last() as int
    } else {
        lo
    };
    if cells.len() > 0 {
        lemma_s32_forest_facts(ss0, lo, cells, h - 1, cells.len() - 1);
    }
    assert forall|k: int| dlo < k <= d implies #[trigger] cur[k - 1] == ss0[k - 1] by {}
    lemma_s32_frame(ss0, cur, dlo, d);
    lemma_s32_live_cost_cells_nonneg(ss0, cells, h - 1);
    lemma_s32_live_cost_nonneg(ss0, d);
}

/// After releasing the dictionary: the children stay torn down and the
/// combined step relation reaches the dictionary's handle.
#[verifier::rlimit(100)]
proof fn lemma_schema_walk_dict_post(
    ss0: Seq<FFI32_ArrowSchema>,
    cur: Seq<FFI32_ArrowSchema>,
    cur2: Seq<FFI32_ArrowSchema>,
    lo: int,
    h: int,
)
    requires
        0 <= lo,
        s32_tree(ss0, lo, h),
        ss0[h - 1].dictionary != 0,
        schema_slots_release_step(ss0, cur, lo, (if ss0[h - 1].children@.len() > 0 {
            ss0[h - 1].children@.last() as int
        } else {
            lo
        })),
        schema_children_released(
            cur,
            ss0[h - 1].children@,
            lo,
            ss0[h - 1].children@.len() as int,
        ),
        schema_slots_release_step(cur, cur2, (if ss0[h - 1].children@.len() > 0 {
            ss0[h - 1].children@.last() as int
        } else {
            lo
        }), ss0[h - 1].dictionary as int),
    ensures
        schema_children_released(
            cur2,
            ss0[h - 1].children@,
            lo,
            ss0[h - 1].children@.len() as int,
        ),
        schema_slots_release_step(ss0, cur2, lo, ss0[h - 1].dictionary as int),
{
    let cells = ss0[h - 1].children@;
    let d = ss0[h - 1].dictionary as int;
    let dlo = if cells.len() > 0 {
        cells.last() as int
    } else {
        lo
    };
    if cells.len() > 0 {
        lemma_s32_forest_facts(ss0, lo, cells, h - 1, cells.len() - 1);
    }
    assert forall|j: int| 0 <= j < cells.len() implies lo < #[trigger] cells[j] as int <= dlo by {
        lemma_s32_forest_facts(ss0, lo, cells, h - 1, j);
        lemma_s32_forest_sorted(ss0, lo, cells, h - 1, j, cells.len() - 1);
    }
    lemma_schema_lift_children(cur, cur2, cells, lo, cells.len() as int, dlo, d);
    lemma_schema_step_compose(ss0, cur, cur2, lo, dlo, dlo, d);
}

/// Recursive sandbox-side walk of one translated schema subtree: tears down
/// every live node exactly once, bottom-up, returning exactly the bytes the
/// translation allocated for the still-live nodes.
#[verifier::rlimit(100)]
pub(crate) fn release_schema_walk(sb: &mut Sandbox, h: u32, Ghost(lo): Ghost<int>)
    requires
        old(sb).wf(),
        0 <= lo,
        s32_tree(old(sb).schemas@, lo, h as int),
        s32_bridge_ok(old(sb).schemas@, h as int),
        s32_live_cost(old(sb).schemas@, h as int) <= old(sb).outstanding(),
    ensures
        final(sb).wf(),
        final(sb).base == old(sb).base,
        final(sb).capacity == old(sb).capacity,
        final(sb).alloc_bytes == old(sb).alloc_bytes,
        final(sb).arrays@ == old(sb).arrays@,
        final(sb).dealloc_bytes == old(sb).dealloc_bytes + s32_live_cost(
            old(sb).schemas@,
            h as int,
        ),
        schema_slots_release_step(old(sb).schemas@, final(sb).schemas@, lo, h as int),
        s32_tree(final(sb).schemas@, lo, h as int),
        s32_view(final(sb).schemas@, h as int) == s32_view(old(sb).schemas@, h as int),
        s32_bridge_ok(final(sb).schemas@, h as int),
        s32_dead(final(sb).schemas@, h as int),
        seq_extends(final(sb).release_log@, old(sb).release_log@),
        old(sb).schemas@[h - 1].release == ReleaseSlot::Empty ==> *final(sb) == *old(sb),
        old(sb).schemas@[h - 1].release != ReleaseSlot::Empty ==> final(sb).release_log@.len()
            > old(sb).release_log@.len() && final(sb).release_log@.last() == (LogEntry {
            kind: NodeKind::Schema,
            handle: h,
        }),
    decreases h,
{
    let ghost ss0 = old(sb).schemas@;
    let ghost d0 = old(sb).dealloc_bytes as int;
    let ghost log0 = old(sb).release_log@;
    let idx = (h - 1) as usize;
    if sb.schemas[idx].release == ReleaseSlot::Empty {
        proof {
            lemma_s32_dead_cost_zero(ss0, h as int);
        }
        return ;
    }
    let ghost cells = ss0[h as int - 1].children@;
    let n_children = sb.schemas[idx].children.len();
    let dict = sb.schemas[idx].dictionary;
    let cbs = match &sb.schemas[idx].private_data {
        Option::Some(p) => p.children_buffer_size,
        Option::None => 0,
    };
    proof {
        assert(cbs as int == (if cells.len() > 0 {
            CELL32_BYTES as int * cells.len()
        } else {
            0
        }));
        lemma_s32_live_cost_nonneg(ss0, ss0[h as int - 1].dictionary as int);
        lemma_s32_live_cost_cells_nonneg(ss0, cells, h as int - 1);
    }
    let mut i: usize = 0;
    while i < n_children
        invariant
            sb.wf(),
            sb.base == old(sb).base,
            sb.capacity == old(sb).capacity,
            sb.alloc_bytes == old(sb).alloc_bytes,
            sb.arrays@ == old(sb).arrays@,
            ss0 == old(sb).schemas@,
            d0 == old(sb).dealloc_bytes,
            log0 == old(sb).release_log@,
            0 <= lo,
            s32_tree(ss0, lo, h as int),
            s32_bridge_ok(ss0, h as int),
            s32_live_cost(ss0, h as int) <= old(sb).alloc_bytes - d0,
            ss0[h - 1].release != ReleaseSlot::Empty,
            cells == ss0[h as int - 1].children@,
            n_children == cells.len(),
            dict == ss0[h as int - 1].dictionary,
            cbs as int == (if cells.len() > 0 {
                CELL32_BYTES as int * cells.len()
            } else {
                0
            }),
            idx == h as int - 1,
            1 <= h as int <= ss0.len(),
            0 <= i <= n_children,
            sb.dealloc_bytes == d0 + s32_live_cost_cells(ss0, cells.take(i as int), h as int - 1),
            schema_slots_release_step(ss0, sb.schemas@, lo, (if i == 0 {
                lo
            } else {
                cells[i - 1] as int
            })),
            schema_children_released(sb.schemas@, cells, lo, i as int),
            seq_extends(sb.release_log@, log0),
        decreases n_children - i,
    {
        let ghost cur = sb.schemas@;
        let ghost prev_i = if i == 0 {
            lo
        } else {
            cells[i - 1] as int
        };
        let c = sb.schemas[idx].children[i];
        proof {
            lemma_schema_walk_child_pre(ss0, cur, lo, h as int, i as int);
        }
        release_schema_walk(sb, c, Ghost(prev_i));
        proof {
            assert(s32_forest(ss0, lo, cells, h as int - 1));
            lemma_schema_cells_below(ss0, lo, cells, h as int - 1, i as int);
            lemma_schema_children_extend(cur, sb.schemas@, lo, cells, i as int);
            lemma_schema_step_compose(ss0, cur, sb.schemas@, lo, prev_i, prev_i, c as int);
        }
        i = i + 1;
    }
    proof {
        assert(cells.take(n_children as int) =~= cells);
    }
    let ghost cur_c = sb.schemas@;
    let ghost dlo = if cells.len() > 0 {
        cells.last() as int
    } else {
        lo
    };
    if dict != 0 {
        proof {
            lemma_schema_walk_dict_pre(ss0, cur_c, lo, h as int);
        }
        release_schema_walk(sb, dict, Ghost(dlo));
        proof {
            lemma_schema_walk_dict_post(ss0, cur_c, sb.schemas@, lo, h as int);
        }
    }
    let ghost cur_d = sb.schemas@;
    // return the auxiliary child-offset array, the private record, and the
    // node's own storage
    if n_children > 0 {
        sb.deallocate_buffer(0, cbs);
    }
    sb.deallocate_buffer(0, SCHEMA32_PRIV_BYTES as u32);
    sb.deallocate_buffer(0, SCHEMA32_NODE_BYTES as u32);
    // empty the slot and destroy the private record
    sb.schemas[idx].release = ReleaseSlot::Empty;
    sb.schemas[idx].private_data = None;
    sb.release_log.push(LogEntry { kind: NodeKind::Schema, handle: h });
    proof {
        lemma_schema_walk_finish(ss0, cur_d, sb.schemas@, lo, h as int);
    }
}

/// The last step of a walk: after the children and the dictionary are torn
/// down and the node's own slot is emptied, the whole subtree is dead,
/// consistent, and keeps its shape and view.
#[verifier::rlimit(100)]
proof fn lemma_schema_walk_finish(
    ss0: Seq<FFI32_ArrowSchema>,
    cur_d: Seq<FFI32_ArrowSchema>,
    ss_fin: Seq<FFI32_ArrowSchema>,
    lo: int,
    h: int,
)
    requires
        0 <= lo,
        s32_tree(ss0, lo, h),
        s32_bridge_ok(ss0, h),
        schema_slots_release_step(ss0, cur_d, lo, (if ss0[h - 1].dictionary != 0 {
            ss0[h - 1].dictionary as int
        } else if ss0[h - 1].children@.len() > 0 {
            ss0[h - 1].children@.last() as int
        } else {
            lo
        })),
        schema_children_released(
            cur_d,
            ss0[h - 1].children@,
            lo,
            ss0[h - 1].children@.len() as int,
        ),
        ss0[h - 1].dictionary != 0 ==> s32_tree(
            cur_d,
            (if ss0[h - 1].children@.len() > 0 {
                ss0[h - 1].children@.last() as int
            } else {
                lo
            }),
            ss0[h - 1].dictionary as int,
        ) && s32_dead(cur_d, ss0[h - 1].dictionary as int) && s32_bridge_ok(
            cur_d,
            ss0[h - 1].dictionary as int,
        ),
        ss_fin.len() == cur_d.len(),
        ss_fin[h - 1] == schema32_released_of(ss0[h - 1]),
        forall|j: int| 0 <= j < cur_d.len() && j != h - 1 ==> #[trigger] ss_fin[j] == cur_d[j],
    ensures
        schema_slots_release_step(ss0, ss_fin, lo, h),
        s32_tree(ss_fin, lo, h),
        s32_view(ss_fin, h) == s32_view(ss0, h),
        s32_bridge_ok(ss_fin, h),
        s32_dead(ss_fin, h),
{
    let cells = ss0[h - 1].children@;
    let dict = ss0[h - 1].dictionary;
    let dlo = if cells.len() > 0 {
        cells.last() as int
    } else {
        lo
    };
    let dmax = if dict != 0 {
        dict as int
    } else {
        dlo
    };
    if cells.len() > 0 {
        lemma_s32_forest_facts(ss0, lo, cells, h - 1, cells.len() - 1);
    }
    assert(lo <= dmax <= h - 1);
    assert(schema_slots_release_step(cur_d, ss_fin, h - 1, h));
    lemma_schema_step_compose(ss0, cur_d, ss_fin, lo, dmax, h - 1, h);
    assert forall|j: int| 0 <= j < cells.len() implies lo < #[trigger] cells[j] as int <= h - 1
        by {
        lemma_s32_forest_facts(ss0, lo, cells, h - 1, j);
    }
    lemma_schema_lift_children(cur_d, ss_fin, cells, lo, cells.len() as int, h - 1, h);
    if dict != 0 {
        assert forall|k: int| dlo < k <= dict as int implies #[trigger] ss_fin[k - 1] == cur_d[k
            - 1] by {}
        lemma_s32_frame(cur_d, ss_fin, dlo, dict as int);
    }
    lemma_schema_release_assemble(ss0, ss_fin, lo, h);
}

/// Sandbox-width schema release entry point, imported by the guest.  The
/// nominal argument is ignored; the node to release is the one the caller
/// stored in the handoff register, and the paired host-width original is
/// passed alongside, since a sandbox-width record cannot hold a host-width
/// back-reference.  Releasing an already-released node changes nothing.
/// The host-width original's release runs before any sandbox-side teardown.
pub fn release_exported_schema(
    sb: &mut Sandbox,
    handoff: &ReleaseHandoff,
    inner: FFI64_ArrowSchema,
    _nominal: u32,
) -> (r: FFI64_ArrowSchema)
    requires
        old(sb).wf(),
        s32_tree(old(sb).schemas@, 0, handoff.schema32 as int),
        s32_bridge_ok(old(sb).schemas@, handoff.schema32 as int),
        s32_view(old(sb).schemas@, handoff.schema32 as int) == to_sb_schema(
            old(sb).base as int,
            view_schema64(inner),
        ),
        old(sb).schemas@[handoff.schema32 - 1].release != ReleaseSlot::Empty ==> inner.release
            != ReleaseSlot::Empty,
        s32_live_cost(old(sb).schemas@, handoff.schema32 as int) <= old(sb).outstanding(),
    ensures
        final(sb).wf(),
        final(sb).base == old(sb).base,
        final(sb).capacity == old(sb).capacity,
        final(sb).alloc_bytes == old(sb).alloc_bytes,
        final(sb).arrays@ == old(sb).arrays@,
        final(sb).dealloc_bytes == old(sb).dealloc_bytes + s32_live_cost(
            old(sb).schemas@,
            handoff.schema32 as int,
        ),
        schema_slots_release_step(
            old(sb).schemas@,
            final(sb).schemas@,
            0,
            handoff.schema32 as int,
        ),
        s32_tree(final(sb).schemas@, 0, handoff.schema32 as int),
        s32_view(final(sb).schemas@, handoff.schema32 as int) == s32_view(
            old(sb).schemas@,
            handoff.schema32 as int,
        ),
        s32_bridge_ok(final(sb).schemas@, handoff.schema32 as int),
        s32_dead(final(sb).schemas@, handoff.schema32 as int),
        s32_live_cost(final(sb).schemas@, handoff.schema32 as int) == 0,
        view_schema64(r) == view_schema64(inner),
        seq_extends(final(sb).release_log@, old(sb).release_log@),
        old(sb).schemas@[handoff.schema32 - 1].release == ReleaseSlot::Empty ==> *final(sb)
            == *old(sb) && r == inner,
        old(sb).schemas@[handoff.schema32 - 1].release != ReleaseSlot::Empty ==> (
        schema64_released(r) && final(sb).release_log@.last() == (LogEntry {
            kind: NodeKind::Schema,
            handle: handoff.schema32,
        })),
{
    let h = handoff.schema32;
    let idx = (h - 1) as usize;
    if sb.schemas[idx].release == ReleaseSlot::Empty {
        proof {
            lemma_s32_dead_cost_zero(sb.schemas@, h as int);
        }
        return inner;
    }
    // the opposite-width release runs first
    let cleared = host_release_schema(inner);
    release_schema_walk(sb, h, Ghost(0));
    proof {
        lemma_s32_dead_cost_zero(sb.schemas@, h as int);
    }
    cleared
}

/// Unconditional teardown of a host-width array tree: clears every release
/// slot and destroys every private record, keeping all structural fields.
/// This models what the owner's release callback does to the nodes it owns,
/// whatever their individual slots said.
fn host_clear_array(s: &FFI64_ArrowArray) -> (r: FFI64_ArrowArray)
    ensures
        view_array64(r) == view_array64(*s),
        array64_released(r),
    decreases *s,
{
    let mut out: Vec<FFI64_ArrowArray> = Vec::new();
    let mut i: usize = 0;
    while i < s.children.len()
        invariant
            0 <= i <= s.children@.len(),
            out@.len() == i,
            forall|j: int|
                0 <= j < i ==> view_array64(#[trigger] out@[j]) == view_array64(s.children@[j])
                    && array64_released(out@[j]),
        decreases s.children@.len() - i,
    {
        let rc = host_clear_array(&s.children[i]);
        out.push(rc);
        i = i + 1;
    }
    let mut bufs: Vec<u64> = Vec::new();
    let mut k: usize = 0;
    while k < s.buffers.len()
        invariant
            0 <= k <= s.buffers@.len(),
            bufs@ == s.buffers@.take(k as int),
        decreases s.buffers@.len() - k,
    {
        let b = s.buffers[k];
        bufs.push(b);
        proof {
            assert(bufs@ =~= s.buffers@.take(k + 1));
        }
        k = k + 1;
    }
    proof {
        assert(bufs@ =~= s.buffers@);
    }
    let new_dict = match &s.dictionary {
        Option::Some(d) => Option::Some(Box::new(host_clear_array(d))),
        Option::None => Option::None,
    };
    let r = FFI64_ArrowArray {
        length: s.length,
        null_count: s.null_count,
        offset: s.offset,
        buffers: bufs,
        children: out,
        dictionary: new_dict,
        release: ReleaseSlot::Empty,
        private_data: None,
    };
    proof {
        lemma_view_arrays64_len(s.children@);
        lemma_view_arrays64_len(r.children@);
        assert forall|j: int| 0 <= j < s.children@.len() implies #[trigger] view_arrays64(
            r.children@,
        )[j] == view_arrays64(s.children@)[j] by {
            lemma_view_arrays64_index(s.children@, j);
            lemma_view_arrays64_index(r.children@, j);
        }
        assert(view_arrays64(r.children@) =~= view_arrays64(s.children@));
        assert(view_array64(r) == view_array64(*s));
    }
    r
}

/// The host-width original's own release callback: invoked once when the
/// translated copy is torn down first, it tears down the whole host-width
/// tree, leaving every structural field in place.  A callback whose slot is
/// already empty does nothing.
pub fn host_release_array(s: FFI64_ArrowArray) -> (r: FFI64_ArrowArray)
    ensures
        view_array64(r) == view_array64(s),
        s.release != ReleaseSlot::Empty ==> array64_released(r),
        s.release == ReleaseSlot::Empty ==> r == s,
{
    if s.release == ReleaseSlot::Empty {
        return s;
    }
    host_clear_array(&s)
}

/// Slots outside `(lo, h]` are untouched.
pub open spec fn array_slots_unchanged_outside(
    ss1: Seq<FFI32_ArrowArray>,
    ss2: Seq<FFI32_ArrowArray>,
    lo: int,
    h: int,
) -> bool {
    &&& ss2.len() == ss1.len()
    &&& forall|j: int| 0 <= j < ss1.len() && !(lo < j + 1 <= h) ==> #[trigger] ss2[j] == ss1[j]
}

/// Slots outside `(lo, h]` are untouched; slots inside either kept their
/// value or were emptied.
pub open spec fn array_slots_release_step(
    ss1: Seq<FFI32_ArrowArray>,
    ss2: Seq<FFI32_ArrowArray>,
    lo: int,
    h: int,
) -> bool {
    &&& array_slots_unchanged_outside(ss1, ss2, lo, h)
    &&& forall|j: int|
        lo < j + 1 <= h && 0 <= j < ss1.len() ==> #[trigger] ss2[j] == ss1[j] || ss2[j]
            == array32_released_of(ss1[j])
}

/// Release steps over consecutive regions compose.
proof fn lemma_array_step_compose(
    ss0: Seq<FFI32_ArrowArray>,
    ss1: Seq<FFI32_ArrowArray>,
    ss2: Seq<FFI32_ArrowArray>,
    lo: int,
    m1: int,
    m2: int,
    hi: int,
)
    requires
        lo <= m1 <= m2 <= hi,
        array_slots_release_step(ss0, ss1, lo, m1),
        array_slots_release_step(ss1, ss2, m2, hi),
    ensures
        array_slots_release_step(ss0, ss2, lo, hi),
{
    assert forall|j: int| 0 <= j < ss0.len() && !(lo < j + 1 <= hi) implies #[trigger] ss2[j]
        == ss0[j] by {
        assert(ss1[j] == ss0[j]);
        assert(ss2[j] == ss1[j]);
    }
    assert forall|j: int| lo < j + 1 <= hi && 0 <= j < ss0.len() implies (#[trigger] ss2[j]
        == ss0[j] || ss2[j] == array32_released_of(ss0[j])) by {
        if j + 1 <= m1 {
            assert(ss2[j] == ss1[j]);
        } else if j + 1 <= m2 {
            assert(ss1[j] == ss0[j]);
            assert(ss2[j] == ss1[j]);
        } else {
            assert(ss1[j] == ss0[j]);
        }
    }
}

/// What holds of the first `upto` children once they are torn down: each
/// still roots a tree above `lo`, consistent and fully dead.
pub open spec fn array_children_released(
    ss: Seq<FFI32_ArrowArray>,
    cells: Seq<u32>,
    lo: int,
    upto: int,
) -> bool {
    forall|j: int|
        0 <= j < upto ==> {
            let cj = #[trigger] cells[j] as int;
            lo < cj <= ss.len() && a32_tree(ss, lo, cj) && a32_dead(ss, cj) && a32_bridge_ok(
                ss,
                cj,
            )
        }
}

/// Facts about torn-down children survive a release step confined to a
/// region above all of them.
proof fn lemma_array_lift_children(
    cur: Seq<FFI32_ArrowArray>,
    cur2: Seq<FFI32_ArrowArray>,
    cells: Seq<u32>,
    lo: int,
    upto: int,
    plo: int,
    phi: int,
)
    requires
        0 <= upto <= cells.len(),
        0 <= lo <= plo,
        forall|j: int| 0 <= j < upto ==> lo < #[trigger] cells[j] as int <= plo,
        array_children_released(cur, cells, lo, upto),
        array_slots_unchanged_outside(cur, cur2, plo, phi),
    ensures
        array_children_released(cur2, cells, lo, upto),
{
    assert forall|j: int| 0 <= j < upto implies {
        let cj = #[trigger] cells[j] as int;
        lo < cj <= cur2.len() && a32_tree(cur2, lo, cj) && a32_dead(cur2, cj) && a32_bridge_ok(
            cur2,
            cj,
        )
    } by {
        let cj = cells[j] as int;
        assert(lo < cj <= cur.len() && a32_tree(cur, lo, cj) && a32_dead(cur, cj)
            && a32_bridge_ok(cur, cj));
        assert forall|k: int| lo < k <= cj implies #[trigger] cur2[k - 1] == cur[k - 1] by {
            assert(!(plo < k <= phi));
        }
        lemma_a32_frame(cur, cur2, lo, cj);
    }
}

/// Assembling the torn-down node: with all children and the dictionary
/// dead and the node's own slot emptied, the subtree is dead, consistent,
/// and keeps its shape and view.
#[verifier::rlimit(100)]
proof fn lemma_array_release_assemble(
    ss0: Seq<FFI32_ArrowArray>,
    ss_fin: Seq<FFI32_ArrowArray>,
    lo: int,
    h: int,
)
    requires
        a32_tree(ss0, lo, h),
        ss_fin.len() == ss0.len(),
        array_slots_release_step(ss0, ss_fin, lo, h),
        ss_fin[h - 1] == array32_released_of(ss0[h - 1]),
        array_children_released(ss_fin, ss0[h - 1].children@, lo, ss0[h - 1].children@.len() as int),
        ss0[h - 1].dictionary != 0 ==> a32_dead(ss_fin, ss0[h - 1].dictionary as int)
            && a32_bridge_ok(ss_fin, ss0[h - 1].dictionary as int),
    ensures
        a32_tree(ss_fin, lo, h),
        a32_view(ss_fin, h) == a32_view(ss0, h),
        a32_bridge_ok(ss_fin, h),
        a32_dead(ss_fin, h),
{
    let n0 = ss0[h - 1];
    let cells = n0.children@;
    assert forall|j: int| lo < j <= h implies {
        let n1 = ss0[j - 1];
        let n2 = #[trigger] ss_fin[j - 1];
        n2.children@ == n1.children@ && n2.dictionary == n1.dictionary && n2.length == n1.length
            && n2.null_count == n1.null_count && n2.offset == n1.offset && n2.buffers@
            == n1.buffers@
    } by {
        assert(ss_fin[j - 1] == ss0[j - 1] || ss_fin[j - 1] == array32_released_of(ss0[j - 1]));
    }
    lemma_a32_same_shape(ss0, ss_fin, lo, h);
    assert forall|j: int| 0 <= j < cells.len() implies (0 < #[trigger] cells[j] as int <= h - 1
        ==> a32_dead(ss_fin, cells[j] as int)) by {
        lemma_a32_forest_facts(ss0, lo, cells, h - 1, j);
    }
    lemma_a32_cells_dead(ss_fin, cells, h - 1);
    assert forall|j: int| 0 <= j < cells.len() implies 0 < #[trigger] cells[j] as int <= h - 1
        && a32_bridge_ok(ss_fin, cells[j] as int) by {
        lemma_a32_forest_facts(ss0, lo, cells, h - 1, j);
    }
    lemma_a32_cells_ok(ss_fin, cells, h - 1);
    assert(a32_dead(ss_fin, h));
    assert(a32_bridge_ok(ss_fin, h));
}

/// Before releasing the i-th child: its subtree is still intact in the
/// current arena, consistent, and its cost fits the remaining budget
/// arithmetic.
#[verifier::rlimit(100)]
proof fn lemma_array_walk_child_pre(
    ss0: Seq<FFI32_ArrowArray>,
    cur: Seq<FFI32_ArrowArray>,
    lo: int,
    h: int,
    i: int,
)
    requires
        0 <= lo,
        a32_tree(ss0, lo, h),
        a32_bridge_ok(ss0, h),
        0 <= i < ss0[h - 1].children@.len(),
        array_slots_release_step(ss0, cur, lo, (if i == 0 {
            lo
        } else {
            ss0[h - 1].children@[i - 1] as int
        })),
    ensures
        ({
            let cells = ss0[h - 1].children@;
            let c = cells[i] as int;
            let prev = if i == 0 {
                lo
            } else {
                cells[i - 1] as int
            };
            &&& lo <= prev < c <= h - 1
            &&& a32_tree(cur, prev, c)
            &&& a32_bridge_ok(cur, c)
            &&& a32_live_cost(cur, c) == a32_live_cost(ss0, c)
            &&& a32_live_cost_cells(ss0, cells.take(i + 1), h - 1) == a32_live_cost_cells(
                ss0,
                cells.take(i),
                h - 1,
            ) + a32_live_cost(ss0, c)
            &&& a32_live_cost_cells(ss0, cells.take(i), h - 1) + a32_live_cost(ss0, c)
                <= a32_live_cost(ss0, h)
        }),
{
    let cells = ss0[h - 1].children@;
    let c = cells[i] as int;
    let prev = if i == 0 {
        lo
    } else {
        cells[i - 1] as int
    };
    lemma_a32_forest_facts(ss0, lo, cells, h - 1, i);
    assert forall|k: int| prev < k <= c implies #[trigger] cur[k - 1] == ss0[k - 1] by {}
    lemma_a32_frame(ss0, cur, prev, c);
    lemma_a32_ok_cells_index(ss0, cells, h - 1, i);
    lemma_a32_cost_cells_take(ss0, cells, h - 1, i);
    lemma_a32_cost_cells_prefix_bound(ss0, cells, h - 1, i + 1);
    lemma_a32_live_cost_nonneg(ss0, ss0[h - 1].dictionary as int);
    lemma_a32_live_cost_cells_nonneg(ss0, cells, h - 1);
    assert(a32_live_cost(ss0, h) >= a32_live_cost_cells(ss0, cells, h - 1));
}

/// Every earlier cell sits at or below the left end of the i-th child's
/// interval.
proof fn lemma_array_cells_below(
    ss0: Seq<FFI32_ArrowArray>,
    lo: int,
    cells: Seq<u32>,
    b: int,
    i: int,
)
    requires
        a32_forest(ss0, lo, cells, b),
        0 <= i < cells.len(),
    ensures
        forall|j: int|
            0 <= j < i ==> lo < #[trigger] cells[j] as int <= (if i == 0 {
                lo
            } else {
                cells[i - 1] as int
            }),
{
    assert forall|j: int| 0 <= j < i implies lo < #[trigger] cells[j] as int <= (if i == 0 {
        lo
    } else {
        cells[i - 1] as int
    }) by {
        lemma_a32_forest_facts(ss0, lo, cells, b, j);
        lemma_a32_forest_sorted(ss0, lo, cells, b, j, i - 1);
    }
}

/// After releasing the i-th child, the first `i + 1` children are all torn
/// down.
#[verifier::rlimit(100)]
proof fn lemma_array_children_extend(
    cur: Seq<FFI32_ArrowArray>,
    cur2: Seq<FFI32_ArrowArray>,
    lo: int,
    cells: Seq<u32>,
    i: int,
)
    requires
        0 <= lo,
        0 <= i < cells.len(),
        forall|j: int|
            0 <= j < i ==> lo < #[trigger] cells[j] as int <= (if i == 0 {
                lo
            } else {
                cells[i - 1] as int
            }),
        lo <= (if i == 0 {
            lo
        } else {
            cells[i - 1] as int
        }),
        array_children_released(cur, cells, lo, i),
        array_slots_unchanged_outside(cur, cur2, (if i == 0 {
            lo
        } else {
            cells[i - 1] as int
        }), cells[i] as int),
        a32_tree(cur2, (if i == 0 {
            lo
        } else {
            cells[i - 1] as int
        }), cells[i] as int),
        a32_dead(cur2, cells[i] as int),
        a32_bridge_ok(cur2, cells[i] as int),
    ensures
        array_children_released(cur2, cells, lo, i + 1),
{
    let c = cells[i] as int;
    let prev = if i == 0 {
        lo
    } else {
        cells[i - 1] as int
    };
    lemma_array_lift_children(cur, cur2, cells, lo, i, prev, c);
    crate::sandbox::lemma_a32_tree_lo_mono(cur2, prev, lo, c);
    assert forall|j: int| 0 <= j < i + 1 implies {
        let cj = #[trigger] cells[j] as int;
        lo < cj <= cur2.len() && a32_tree(cur2, lo, cj) && a32_dead(cur2, cj) && a32_bridge_ok(
            cur2,
            cj,
        )
    } by {
        if j < i {
            assert(array_children_released(cur2, cells, lo, i));
        }
    }
}

/// Before releasing the dictionary: its subtree is intact in the current
/// arena and its cost fits the remaining budget.
#[verifier::rlimit(100)]
proof fn lemma_array_walk_dict_pre(
    ss0: Seq<FFI32_ArrowArray>,
    cur: Seq<FFI32_ArrowArray>,
    lo: int,
    h: int,
)
    requires
        0 <= lo,
        a32_tree(ss0, lo, h),
        a32_bridge_ok(ss0, h),
        ss0[h - 1].dictionary != 0,
        array_slots_release_step(ss0, cur, lo, (if ss0[h - 1].children@.len() > 0 {
            ss0[h - 1].children@.last() as int
        } else {
            lo
        })),
    ensures
        ({
            let cells = ss0[h - 1].children@;
            let d = ss0[h - 1].dictionary as int;
            let dlo = if cells.len() > 0 {
                cells.last() as int
            } else {
                lo
            };
            &&& lo <= dlo < d <= h - 1
            &&& a32_tree(cur, dlo, d)
            &&& a32_bridge_ok(cur, d)
            &&& a32_live_cost(cur, d) == a32_live_cost(ss0, d)
            &&& a32_live_cost_cells(ss0, cells, h - 1) + a32_live_cost(ss0, d) <= a32_live_cost(
                ss0,
                h,
            )
        }),
{
    let cells = ss0[h - 1].children@;
    let d = ss0[h - 1].dictionary as int;
    let dlo = if cells.len() > 0 {
        cells.last() as int
    } else {
        lo
    };
    if cells.len() > 0 {
        lemma_a32_forest_facts(ss0, lo, cells, h - 1, cells.len() - 1);
    }
    assert forall|k: int| dlo < k <= d implies #[trigger] cur[k - 1] == ss0[k - 1] by {}
    lemma_a32_frame(ss0, cur, dlo, d);
    lemma_a32_live_cost_cells_nonneg(ss0, cells, h - 1);
    lemma_a32_live_cost_nonneg(ss0, d);
}

/// After releasing the dictionary: the children stay torn down and the
/// combined step relation reaches the dictionary's handle.
#[verifier::rlimit(100)]
proof fn lemma_array_walk_dict_post(
    ss0: Seq<FFI32_ArrowArray>,
    cur: Seq<FFI32_ArrowArray>,
    cur2: Seq<FFI32_ArrowArray>,
    lo: int,
    h: int,
)
    requires
        0 <= lo,
        a32_tree(ss0, lo, h),
        ss0[h - 1].dictionary != 0,
        array_slots_release_step(ss0, cur, lo, (if ss0[h - 1].children@.len() > 0 {
            ss0[h - 1].children@.last() as int
        } else {
            lo
        })),
        array_children_released(
            cur,
            ss0[h - 1].children@,
            lo,
            ss0[h - 1].children@.len() as int,
        ),
        array_slots_release_step(cur, cur2, (if ss0[h - 1].children@.len() > 0 {
            ss0[h - 1].children@.last() as int
        } else {
            lo
        }), ss0[h - 1].dictionary as int),
    ensures
        array_children_released(
            cur2,
            ss0[h - 1].children@,
            lo,
            ss0[h - 1].children@.len() as int,
        ),
        array_slots_release_step(ss0, cur2, lo, ss0[h - 1].dictionary as int),
{
    let cells = ss0[h - 1].children@;
    let d = ss0[h - 1].dictionary as int;
    let dlo = if cells.len() > 0 {
        cells.last() as int
    } else {
        lo
    };
    if cells.len() > 0 {
        lemma_a32_forest_facts(ss0, lo, cells, h - 1, cells.len() - 1);
    }
    assert forall|j: int| 0 <= j < cells.len() implies lo < #[trigger] cells[j] as int <= dlo by {
        lemma_a32_forest_facts(ss0, lo, cells, h - 1, j);
        lemma_a32_forest_sorted(ss0, lo, cells, h - 1, j, cells.len() - 1);
    }
    lemma_array_lift_children(cur, cur2, cells, lo, cells.len() as int, dlo, d);
    lemma_array_step_compose(ss0, cur, cur2, lo, dlo, dlo, d);
}

/// Recursive sandbox-side walk of one translated array subtree: tears down
/// every live node exactly once, bottom-up, returning exactly the bytes the
/// translation allocated for the still-live nodes.
#[verifier::rlimit(100)]
pub(crate) fn release_array_walk(sb: &mut Sandbox, h: u32, Ghost(lo): Ghost<int>)
    requires
        old(sb).wf(),
        0 <= lo,
        a32_tree(old(sb).arrays@, lo, h as int),
        a32_bridge_ok(old(sb).arrays@, h as int),
        a32_live_cost(old(sb).arrays@, h as int) <= old(sb).outstanding(),
    ensures
        final(sb).wf(),
        final(sb).base == old(sb).base,
        final(sb).capacity == old(sb).capacity,
        final(sb).alloc_bytes == old(sb).alloc_bytes,
        final(sb).schemas@ == old(sb).schemas@,
        final(sb).dealloc_bytes == old(sb).dealloc_bytes + a32_live_cost(
            old(sb).arrays@,
            h as int,
        ),
        array_slots_release_step(old(sb).arrays@, final(sb).arrays@, lo, h as int),
        a32_tree(final(sb).arrays@, lo, h as int),
        a32_view(final(sb).arrays@, h as int) == a32_view(old(sb).arrays@, h as int),
        a32_bridge_ok(final(sb).arrays@, h as int),
        a32_dead(final(sb).arrays@, h as int),
        seq_extends(final(sb).release_log@, old(sb).release_log@),
        old(sb).arrays@[h - 1].release == ReleaseSlot::Empty ==> *final(sb) == *old(sb),
        old(sb).arrays@[h - 1].release != ReleaseSlot::Empty ==> final(sb).release_log@.len()
            > old(sb).release_log@.len() && final(sb).release_log@.last() == (LogEntry {
            kind: NodeKind::Array,
            handle: h,
        }),
    decreases h,
{
    let ghost ss0 = old(sb).arrays@;
    let ghost d0 = old(sb).dealloc_bytes as int;
    let ghost log0 = old(sb).release_log@;
    let idx = (h - 1) as usize;
    if sb.arrays[idx].release == ReleaseSlot::Empty {
        proof {
            lemma_a32_dead_cost_zero(ss0, h as int);
        }
        return ;
    }
    let ghost cells = ss0[h as int - 1].children@;
    let n_children = sb.arrays[idx].children.len();
    let dict = sb.arrays[idx].dictionary;
    let cbs = match &sb.arrays[idx].private_data {
        Option::Some(p) => p.children_buffer_size,
        Option::None => 0,
    };
    let bfs = match &sb.arrays[idx].private_data {
        Option::Some(p) => p.buffers_size,
        Option::None => 0,
    };
    let n_buffers = sb.arrays[idx].buffers.len();
    proof {
        assert(cbs as int == (if cells.len() > 0 {
            CELL32_BYTES as int * cells.len()
        } else {
            0
        }));
        assert(bfs as int == (if ss0[h as int - 1].buffers@.len() > 0 {
            CELL32_BYTES as int * ss0[h as int - 1].buffers@.len()
        } else {
            0
        }));
        lemma_a32_live_cost_nonneg(ss0, ss0[h as int - 1].dictionary as int);
        lemma_a32_live_cost_cells_nonneg(ss0, cells, h as int - 1);
    }
    let mut i: usize = 0;
    while i < n_children
        invariant
            sb.wf(),
            sb.base == old(sb).base,
            sb.capacity == old(sb).capacity,
            sb.alloc_bytes == old(sb).alloc_bytes,
            sb.schemas@ == old(sb).schemas@,
            ss0 == old(sb).arrays@,
            d0 == old(sb).dealloc_bytes,
            log0 == old(sb).release_log@,
            0 <= lo,
            a32_tree(ss0, lo, h as int),
            a32_bridge_ok(ss0, h as int),
            a32_live_cost(ss0, h as int) <= old(sb).alloc_bytes - d0,
            ss0[h - 1].release != ReleaseSlot::Empty,
            cells == ss0[h as int - 1].children@,
            n_children == cells.len(),
            dict == ss0[h as int - 1].dictionary,
            cbs as int == (if cells.len() > 0 {
                CELL32_BYTES as int * cells.len()
            } else {
                0
            }),
            bfs as int == (if ss0[h as int - 1].buffers@.len() > 0 {
                CELL32_BYTES as int * ss0[h as int - 1].buffers@.len()
            } else {
                0
            }),
            n_buffers == ss0[h as int - 1].buffers@.len(),
            idx == h as int - 1,
            1 <= h as int <= ss0.len(),
            0 <= i <= n_children,
            sb.dealloc_bytes == d0 + a32_live_cost_cells(ss0, cells.take(i as int), h as int - 1),
            array_slots_release_step(ss0, sb.arrays@, lo, (if i == 0 {
                lo
            } else {
                cells[i - 1] as int
            })),
            array_children_released(sb.arrays@, cells, lo, i as int),
            seq_extends(sb.release_log@, log0),
        decreases n_children - i,
    {
        let ghost cur = sb.arrays@;
        let ghost prev_i = if i == 0 {
            lo
        } else {
            cells[i - 1] as int
        };
        let c = sb.arrays[idx].children[i];
        proof {
            lemma_array_walk_child_pre(ss0, cur, lo, h as int, i as int);
        }
        release_array_walk(sb, c, Ghost(prev_i));
        proof {
            assert(a32_forest(ss0, lo, cells, h as int - 1));
            lemma_array_cells_below(ss0, lo, cells, h as int - 1, i as int);
            lemma_array_children_extend(cur, sb.arrays@, lo, cells, i as int);
            lemma_array_step_compose(ss0, cur, sb.arrays@, lo, prev_i, prev_i, c as int);
        }
        i = i + 1;
    }
    proof {
        assert(cells.take(n_children as int) =~= cells);
    }
    let ghost cur_c = sb.arrays@;
    let ghost dlo = if cells.len() > 0 {
        cells.last() as int
    } else {
        lo
    };
    if dict != 0 {
        proof {
            lemma_array_walk_dict_pre(ss0, cur_c, lo, h as int);
        }
        release_array_walk(sb, dict, Ghost(dlo));
        proof {
            lemma_array_walk_dict_post(ss0, cur_c, sb.arrays@, lo, h as int);
        }
    }
    let ghost cur_d = sb.arrays@;
    // return the auxiliary child-offset and buffer-offset arrays, the
    // private record, and the node's own storage
    if n_children > 0 {
        sb.deallocate_buffer(0, cbs);
    }
    if n_buffers > 0 {
        sb.deallocate_buffer(0, bfs);
    }
    sb.deallocate_buffer(0, ARRAY32_PRIV_BYTES as u32);
    sb.deallocate_buffer(0, ARRAY32_NODE_BYTES as u32);
    // empty the slot and destroy the private record
    sb.arrays[idx].release = ReleaseSlot::Empty;
    sb.arrays[idx].private_data = None;
    sb.release_log.push(LogEntry { kind: NodeKind::Array, handle: h });
    proof {
        lemma_array_walk_finish(ss0, cur_d, sb.arrays@, lo, h as int);
    }
}

/// The last step of a walk: after the children and the dictionary are torn
/// down and the node's own slot is emptied, the whole subtree is dead,
/// consistent, and keeps its shape and view.
#[verifier::rlimit(100)]
proof fn lemma_array_walk_finish(
    ss0: Seq<FFI32_ArrowArray>,
    cur_d: Seq<FFI32_ArrowArray>,
    ss_fin: Seq<FFI32_ArrowArray>,
    lo: int,
    h: int,
)
    requires
        0 <= lo,
        a32_tree(ss0, lo, h),
        a32_bridge_ok(ss0, h),
        array_slots_release_step(ss0, cur_d, lo, (if ss0[h - 1].dictionary != 0 {
            ss0[h - 1].dictionary as int
        } else if ss0[h - 1].children@.len() > 0 {
            ss0[h - 1].children@.last() as int
        } else {
            lo
        })),
        array_children_released(
            cur_d,
            ss0[h - 1].children@,
            lo,
            ss0[h - 1].children@.len() as int,
        ),
        ss0[h - 1].dictionary != 0 ==> a32_tree(
            cur_d,
            (if ss0[h - 1].children@.len() > 0 {
                ss0[h - 1].children@.last() as int
            } else {
                lo
            }),
            ss0[h - 1].dictionary as int,
        ) && a32_dead(cur_d, ss0[h - 1].dictionary as int) && a32_bridge_ok(
            cur_d,
            ss0[h - 1].dictionary as int,
        ),
        ss_fin.len() == cur_d.len(),
        ss_fin[h - 1] == array32_released_of(ss0[h - 1]),
        forall|j: int| 0 <= j < cur_d.len() && j != h - 1 ==> #[trigger] ss_fin[j] == cur_d[j],
    ensures
        array_slots_release_step(ss0, ss_fin, lo, h),
        a32_tree(ss_fin, lo, h),
        a32_view(ss_fin, h) == a32_view(ss0, h),
        a32_bridge_ok(ss_fin, h),
        a32_dead(ss_fin, h),
{
    let cells = ss0[h - 1].children@;
    let dict = ss0[h - 1].dictionary;
    let dlo = if cells.len() > 0 {
        cells.last() as int
    } else {
        lo
    };
    let dmax = if dict != 0 {
        dict as int
    } else {
        dlo
    };
    if cells.len() > 0 {
        lemma_a32_forest_facts(ss0, lo, cells, h - 1, cells.len() - 1);
    }
    assert(lo <= dmax <= h - 1);
    assert(array_slots_release_step(cur_d, ss_fin, h - 1, h));
    lemma_array_step_compose(ss0, cur_d, ss_fin, lo, dmax, h - 1, h);
    assert forall|j: int| 0 <= j < cells.len() implies lo < #[trigger] cells[j] as int <= h - 1
        by {
        lemma_a32_forest_facts(ss0, lo, cells, h - 1, j);
    }
    lemma_array_lift_children(cur_d, ss_fin, cells, lo, cells.len() as int, h - 1, h);
    if dict != 0 {
        assert forall|k: int| dlo < k <= dict as int implies #[trigger] ss_fin[k - 1] == cur_d[k
            - 1] by {}
        lemma_a32_frame(cur_d, ss_fin, dlo, dict as int);
    }
    lemma_array_release_assemble(ss0, ss_fin, lo, h);
}

/// Sandbox-width array release entry point, imported by the guest.  The
/// nominal argument is ignored; the node to release is the one the caller
/// stored in the handoff register, and the paired host-width original is
/// passed alongside, since a sandbox-width record cannot hold a host-width
/// back-reference.  Releasing an already-released node changes nothing.
/// The host-width original's release runs before any sandbox-side teardown.
pub fn release_exported_array(
    sb: &mut Sandbox,
    handoff: &ReleaseHandoff,
    inner: FFI64_ArrowArray,
    _nominal: u32,
) -> (r: FFI64_ArrowArray)
    requires
        old(sb).wf(),
        a32_tree(old(sb).arrays@, 0, handoff.array32 as int),
        a32_bridge_ok(old(sb).arrays@, handoff.array32 as int),
        a32_view(old(sb).arrays@, handoff.array32 as int) == to_sb_array(
            old(sb).base as int,
            view_array64(inner),
        ),
        old(sb).arrays@[handoff.array32 - 1].release != ReleaseSlot::Empty ==> inner.release
            != ReleaseSlot::Empty,
        a32_live_cost(old(sb).arrays@, handoff.array32 as int) <= old(sb).outstanding(),
    ensures
        final(sb).wf(),
        final(sb).base == old(sb).base,
        final(sb).capacity == old(sb).capacity,
        final(sb).alloc_bytes == old(sb).alloc_bytes,
        final(sb).schemas@ == old(sb).schemas@,
        final(sb).dealloc_bytes == old(sb).dealloc_bytes + a32_live_cost(
            old(sb).arrays@,
            handoff.array32 as int,
        ),
        array_slots_release_step(
            old(sb).arrays@,
            final(sb).arrays@,
            0,
            handoff.array32 as int,
        ),
        a32_tree(final(sb).arrays@, 0, handoff.array32 as int),
        a32_view(final(sb).arrays@, handoff.array32 as int) == a32_view(
            old(sb).arrays@,
            handoff.array32 as int,
        ),
        a32_bridge_ok(final(sb).arrays@, handoff.array32 as int),
        a32_dead(final(sb).arrays@, handoff.array32 as int),
        a32_live_cost(final(sb).arrays@, handoff.array32 as int) == 0,
        view_array64(r) == view_array64(inner),
        seq_extends(final(sb).release_log@, old(sb).release_log@),
        old(sb).arrays@[handoff.array32 - 1].release == ReleaseSlot::Empty ==> *final(sb)
            == *old(sb) && r == inner,
        old(sb).arrays@[handoff.array32 - 1].release != ReleaseSlot::Empty ==> (
        array64_released(r) && final(sb).release_log@.last() == (LogEntry {
            kind: NodeKind::Array,
            handle: handoff.array32,
        })),
{
    let h = handoff.array32;
    let idx = (h - 1) as usize;
    if sb.arrays[idx].release == ReleaseSlot::Empty {
        proof {
            lemma_a32_dead_cost_zero(sb.arrays@, h as int);
        }
        return inner;
    }
    // the opposite-width release runs first
    let cleared = host_release_array(inner);
    release_array_walk(sb, h, Ghost(0));
    proof {
        lemma_a32_dead_cost_zero(sb.arrays@, h as int);
    }
    cleared
}

// ---------------------------------------------------------------------
// Host-width releases: teardown of the sandbox-to-host direction.
// ---------------------------------------------------------------------

/// Every schema slot either kept its value or was emptied; nothing else of
/// the sandbox changed.
pub open spec fn sandbox_schemas_weakened(sb1: Sandbox, sb2: Sandbox) -> bool {
    &&& sb2 == (Sandbox { schemas: sb2.schemas, ..sb1 })
    &&& sb2.schemas@.len() == sb1.schemas@.len()
    &&& forall|j: int|
        0 <= j < sb1.schemas@.len() ==> #[trigger] sb2.schemas@[j] == sb1.schemas@[j]
            || sb2.schemas@[j] == schema32_released_of(sb1.schemas@[j])
}

/// Every array slot either kept its value or was emptied; nothing else of
/// the sandbox changed.
pub open spec fn sandbox_arrays_weakened(sb1: Sandbox, sb2: Sandbox) -> bool {
    &&& sb2 == (Sandbox { arrays: sb2.arrays, ..sb1 })
    &&& sb2.arrays@.len() == sb1.arrays@.len()
    &&& forall|j: int|
        0 <= j < sb1.arrays@.len() ==> #[trigger] sb2.arrays@[j] == sb1.arrays@[j]
            || sb2.arrays@[j] == array32_released_of(sb1.arrays@[j])
}

/// No node of the host-width tree is paired with a bridge-owned sandbox
/// slot: the sandbox-width originals of an output tree are the guest's own,
/// and bridge-owned slots are released through the imported entry points
/// instead.
pub open spec fn schema64_inners_not_bridge(
    x: FFI64_ArrowSchema,
    ss: Seq<FFI32_ArrowSchema>,
) -> bool
    decreases x,
{
    &&& match x.private_data {
        Some(p) => 1 <= p.inner <= ss.len() ==> ss[p.inner - 1].release != ReleaseSlot::Bridge,
        None => true,
    }
    &&& (forall|i: int|
        0 <= i < x.children@.len() ==> schema64_inners_not_bridge(#[trigger] x.children@[i], ss))
    &&& match x.dictionary {
        Some(d) => schema64_inners_not_bridge(*d, ss),
        None => true,
    }
}

/// Every node's paired sandbox slot has been emptied: the observable effect
/// of the protocol step that invokes the opposite-width release.
pub open spec fn schema64_inners_empty(x: FFI64_ArrowSchema, ss: Seq<FFI32_ArrowSchema>) -> bool
    decreases x,
{
    &&& match x.private_data {
        Some(p) => 1 <= p.inner <= ss.len() && ss[p.inner - 1].release == ReleaseSlot::Empty,
        None => true,
    }
    &&& (forall|i: int|
        0 <= i < x.children@.len() ==> schema64_inners_empty(#[trigger] x.children@[i], ss))
    &&& match x.dictionary {
        Some(d) => schema64_inners_empty(*d, ss),
        None => true,
    }
}

/// Both pairing facts survive a step that only keeps or empties slots.
proof fn lemma_schema64_inners_step(
    x: FFI64_ArrowSchema,
    ss1: Seq<FFI32_ArrowSchema>,
    ss2: Seq<FFI32_ArrowSchema>,
)
    requires
        ss2.len() == ss1.len(),
        forall|j: int|
            0 <= j < ss1.len() ==> #[trigger] ss2[j] == ss1[j] || ss2[j]
                == schema32_released_of(ss1[j]),
    ensures
        schema64_inners_not_bridge(x, ss1) ==> schema64_inners_not_bridge(x, ss2),
        schema64_inners_empty(x, ss1) ==> schema64_inners_empty(x, ss2),
    decreases x,
{
    assert forall|i: int| 0 <= i < x.children@.len() implies ((schema64_inners_not_bridge(
        #[trigger] x.children@[i],
        ss1,
    ) ==> schema64_inners_not_bridge(x.children@[i], ss2)) && (schema64_inners_empty(
        x.children@[i],
        ss1,
    ) ==> schema64_inners_empty(x.children@[i], ss2))) by {
        lemma_schema64_inners_step(x.children@[i], ss1, ss2);
    }
    match x.dictionary {
        Some(d) => lemma_schema64_inners_step(*d, ss1, ss2),
        None => {},
    }
}

/// No node of the host-width array tree is paired with a bridge-owned
/// sandbox slot.
pub open spec fn array64_inners_not_bridge(
    x: FFI64_ArrowArray,
    ss: Seq<FFI32_ArrowArray>,
) -> bool
    decreases x,
{
    &&& match x.private_data {
        Some(p) => 1 <= p.inner <= ss.len() ==> ss[p.inner - 1].release != ReleaseSlot::Bridge,
        None => true,
    }
    &&& (forall|i: int|
        0 <= i < x.children@.len() ==> array64_inners_not_bridge(#[trigger] x.children@[i], ss))
    &&& match x.dictionary {
        Some(d) => array64_inners_not_bridge(*d, ss),
        None => true,
    }
}

/// Every array node's paired sandbox slot has been emptied.
pub open spec fn array64_inners_empty(x: FFI64_ArrowArray, ss: Seq<FFI32_ArrowArray>) -> bool
    decreases x,
{
    &&& match x.private_data {
        Some(p) => 1 <= p.inner <= ss.len() && ss[p.inner - 1].release == ReleaseSlot::Empty,
        None => true,
    }
    &&& (forall|i: int|
        0 <= i < x.children@.len() ==> array64_inners_empty(#[trigger] x.children@[i], ss))
    &&& match x.dictionary {
        Some(d) => array64_inners_empty(*d, ss),
        None => true,
    }
}

/// Both pairing facts survive a step that only keeps or empties slots.
proof fn lemma_array64_inners_step(
    x: FFI64_ArrowArray,
    ss1: Seq<FFI32_ArrowArray>,
    ss2: Seq<FFI32_ArrowArray>,
)
    requires
        ss2.len() == ss1.len(),
        forall|j: int|
            0 <= j < ss1.len() ==> #[trigger] ss2[j] == ss1[j] || ss2[j] == array32_released_of(
                ss1[j],
            ),
    ensures
        array64_inners_not_bridge(x, ss1) ==> array64_inners_not_bridge(x, ss2),
        array64_inners_empty(x, ss1) ==> array64_inners_empty(x, ss2),
    decreases x,
{
    assert forall|i: int| 0 <= i < x.children@.len() implies ((array64_inners_not_bridge(
        #[trigger] x.children@[i],
        ss1,
    ) ==> array64_inners_not_bridge(x.children@[i], ss2)) && (array64_inners_empty(
        x.children@[i],
        ss1,
    ) ==> array64_inners_empty(x.children@[i], ss2))) by {
        lemma_array64_inners_step(x.children@[i], ss1, ss2);
    }
    match x.dictionary {
        Some(d) => lemma_array64_inners_step(*d, ss1, ss2),
        None => {},
    }
}

/// Host-side walk of a fully live translated schema tree: per node, invoke
/// the guest release of the paired sandbox node, tear down the children and
/// the dictionary, return the child-pointer array and the private record to
/// the host arena, and empty the slot.
#[verifier::rlimit(100)]
fn release64_schema_walk(sb: &mut Sandbox, heap: &mut HostHeap, x: &FFI64_ArrowSchema) -> (r:
    FFI64_ArrowSchema)
    requires
        old(sb).wf(),
        old(heap).wf(),
        crate::host::schema64_all_live(*x, old(sb).schemas@.len() as int),
        schema64_inners_not_bridge(*x, old(sb).schemas@),
        crate::model::host_schema_cost(view_schema64(*x)) <= old(heap).outstanding(),
    ensures
        final(sb).wf(),
        final(heap).wf(),
        final(heap).capacity == old(heap).capacity,
        final(heap).alloc_bytes == old(heap).alloc_bytes,
        final(heap).dealloc_bytes == old(heap).dealloc_bytes + crate::model::host_schema_cost(
            view_schema64(*x),
        ),
        sandbox_schemas_weakened(*old(sb), *final(sb)),
        schema64_inners_empty(*x, final(sb).schemas@),
        view_schema64(r) == view_schema64(*x),
        schema64_released(r),
    decreases *x,
{
    let ghost sb0 = *old(sb);
    let ghost u = view_schema64(*x);
    let ghost d0 = old(heap).dealloc_bytes as int;
    proof {
        lemma_view_schemas64_len(x.children@);
        crate::model::lemma_host_schemas_cost_nonneg(u.children);
        match u.dictionary {
            Some(dv) => crate::model::lemma_host_schema_cost_nonneg(*dv),
            None => {},
        }
        assert(u.children.take(0) =~= Seq::<crate::model::SchemaV>::empty());
    }
    // the guest release of this node's paired sandbox-width twin
    let inner = match &x.private_data {
        Option::Some(p) => p.inner,
        Option::None => 0,
    };
    sb.release_schema32(inner);
    proof {
        lemma_schema64_inners_step(*x, sb0.schemas@, sb.schemas@);
    }
    // children, bottom-up
    let mut out: Vec<FFI64_ArrowSchema> = Vec::new();
    let mut i: usize = 0;
    while i < x.children.len()
        invariant
            sb.wf(),
            heap.wf(),
            heap.capacity == old(heap).capacity,
            heap.alloc_bytes == old(heap).alloc_bytes,
            sb0 == *old(sb),
            sandbox_schemas_weakened(sb0, *sb),
            crate::host::schema64_all_live(*x, sb0.schemas@.len() as int),
            u == view_schema64(*x),
            u.children.len() == x.children@.len(),
            d0 == old(heap).dealloc_bytes,
            crate::model::host_schema_cost(u) <= old(heap).alloc_bytes - d0,
            0 <= i <= x.children@.len(),
            out@.len() == i,
            heap.dealloc_bytes == d0 + crate::model::host_schemas_cost(u.children.take(i as int)),
            schema64_inners_not_bridge(*x, sb.schemas@),
            (match x.private_data {
                Some(p) => 1 <= p.inner <= sb.schemas@.len() && sb.schemas@[p.inner - 1].release
                    == ReleaseSlot::Empty,
                None => true,
            }),
            forall|j: int|
                0 <= j < i ==> schema64_inners_empty(#[trigger] x.children@[j], sb.schemas@),
            forall|j: int|
                0 <= j < i ==> view_schema64(#[trigger] out@[j]) == view_schema64(x.children@[j])
                    && schema64_released(out@[j]),
        decreases x.children@.len() - i,
    {
        let ghost sb_pre = *sb;
        proof {
            lemma_view_schemas64_index(x.children@, i as int);
            crate::model::lemma_host_schemas_cost_take(u.children, i as int);
            crate::model::lemma_host_schemas_cost_prefix_bound(u.children, i + 1);
            crate::model::lemma_host_schemas_cost_nonneg(u.children);
            match u.dictionary {
                Some(dv) => crate::model::lemma_host_schema_cost_nonneg(*dv),
                None => {},
            }
        }
        let rc = release64_schema_walk(sb, heap, &x.children[i]);
        proof {
            assert forall|j: int| 0 <= j < sb0.schemas@.len() implies (#[trigger] sb.schemas@[j]
                == sb0.schemas@[j] || sb.schemas@[j] == schema32_released_of(sb0.schemas@[j]))
                by {
                if sb_pre.schemas@[j] == schema32_released_of(sb0.schemas@[j]) {
                    assert(schema32_released_of(sb_pre.schemas@[j]) == schema32_released_of(
                        sb0.schemas@[j],
                    ));
                }
            }
            // the pairing facts carry over the child's step
            lemma_schema64_inners_step(*x, sb_pre.schemas@, sb.schemas@);
            assert forall|j: int| 0 <= j < i + 1 implies schema64_inners_empty(
                #[trigger] x.children@[j],
                sb.schemas@,
            ) by {
                if j < i {
                    lemma_schema64_inners_step(x.children@[j], sb_pre.schemas@, sb.schemas@);
                }
            }
        }
        out.push(rc);
        i = i + 1;
    }
    proof {
        assert(u.children.take(x.children@.len() as int) =~= u.children);
    }
    // dictionary
    let ghost sb_c = *sb;
    let new_dict = match &x.dictionary {
        Option::Some(d) => {
            let rd = Option::Some(Box::new(release64_schema_walk(sb, heap, d)));
            proof {
                assert forall|j: int| 0 <= j < sb0.schemas@.len() implies (
                #[trigger] sb.schemas@[j] == sb0.schemas@[j] || sb.schemas@[j]
                    == schema32_released_of(sb0.schemas@[j])) by {
                    if sb_c.schemas@[j] == schema32_released_of(sb0.schemas@[j]) {
                        assert(schema32_released_of(sb_c.schemas@[j]) == schema32_released_of(
                            sb0.schemas@[j],
                        ));
                    }
                }
                lemma_schema64_inners_step(*x, sb_c.schemas@, sb.schemas@);
                assert forall|j: int| 0 <= j < x.children@.len() implies schema64_inners_empty(
                    #[trigger] x.children@[j],
                    sb.schemas@,
                ) by {
                    lemma_schema64_inners_step(x.children@[j], sb_c.schemas@, sb.schemas@);
                }
            }
            rd
        },
        Option::None => Option::None,
    };
    // return the auxiliary child-pointer array and the private record
    let csize = match &x.private_data {
        Option::Some(p) => p.children_size,
        Option::None => 0,
    };
    if x.children.len() > 0 {
        crate::host::deallocate_buffer(heap, 0, csize);
    }
    crate::host::deallocate_buffer(heap, 0, SCHEMA64_PRIV_BYTES as u32);
    let r = FFI64_ArrowSchema {
        format: x.format,
        name: x.name,
        metadata: x.metadata,
        flags: x.flags,
        children: out,
        dictionary: new_dict,
        release: ReleaseSlot::Empty,
        private_data: None,
    };
    proof {
        lemma_view_schemas64_len(x.children@);
        lemma_view_schemas64_len(r.children@);
        assert forall|j: int| 0 <= j < x.children@.len() implies #[trigger] view_schemas64(
            r.children@,
        )[j] == view_schemas64(x.children@)[j] by {
            lemma_view_schemas64_index(x.children@, j);
            lemma_view_schemas64_index(r.children@, j);
        }
        assert(view_schemas64(r.children@) =~= view_schemas64(x.children@));
        assert(view_schema64(r) == view_schema64(*x));
    }
    r
}

/// Host-width schema release entry point.  Releasing a node whose slot is
/// already empty changes nothing, so a second release performs no further
/// deallocation.
pub fn release_exported_schema64(
    sb: &mut Sandbox,
    heap: &mut HostHeap,
    x: FFI64_ArrowSchema,
    _nominal: u64,
) -> (r: FFI64_ArrowSchema)
    requires
        old(sb).wf(),
        old(heap).wf(),
        x.release != ReleaseSlot::Empty ==> crate::host::schema64_all_live(
            x,
            old(sb).schemas@.len() as int,
        ) && schema64_inners_not_bridge(x, old(sb).schemas@) && crate::model::host_schema_cost(
            view_schema64(x),
        ) <= old(heap).outstanding(),
    ensures
        final(sb).wf(),
        final(heap).wf(),
        final(heap).capacity == old(heap).capacity,
        final(heap).alloc_bytes == old(heap).alloc_bytes,
        view_schema64(r) == view_schema64(x),
        x.release == ReleaseSlot::Empty ==> *final(sb) == *old(sb) && *final(heap) == *old(heap)
            && r == x,
        x.release != ReleaseSlot::Empty ==> final(heap).dealloc_bytes == old(heap).dealloc_bytes
            + crate::model::host_schema_cost(view_schema64(x)) && schema64_released(r)
            && sandbox_schemas_weakened(*old(sb), *final(sb)) && schema64_inners_empty(
            x,
            final(sb).schemas@,
        ),
{
    if x.release == ReleaseSlot::Empty {
        return x;
    }
    release64_schema_walk(sb, heap, &x)
}

/// Host-side walk of a fully live translated array tree: per node, invoke
/// the guest release of the paired sandbox node, tear down the children and
/// the dictionary, return the child-pointer array and the private record to
/// the host arena, and empty the slot.
#[verifier::rlimit(100)]
fn release64_array_walk(sb: &mut Sandbox, heap: &mut HostHeap, x: &FFI64_ArrowArray) -> (r:
    FFI64_ArrowArray)
    requires
        old(sb).wf(),
        old(heap).wf(),
        crate::host::array64_all_live(*x, old(sb).arrays@.len() as int),
        array64_inners_not_bridge(*x, old(sb).arrays@),
        crate::model::host_array_cost(view_array64(*x)) <= old(heap).outstanding(),
    ensures
        final(sb).wf(),
        final(heap).wf(),
        final(heap).capacity == old(heap).capacity,
        final(heap).alloc_bytes == old(heap).alloc_bytes,
        final(heap).dealloc_bytes == old(heap).dealloc_bytes + crate::model::host_array_cost(
            view_array64(*x),
        ),
        sandbox_arrays_weakened(*old(sb), *final(sb)),
        array64_inners_empty(*x, final(sb).arrays@),
        view_array64(r) == view_array64(*x),
        array64_released(r),
    decreases *x,
{
    let ghost sb0 = *old(sb);
    let ghost u = view_array64(*x);
    let ghost d0 = old(heap).dealloc_bytes as int;
    proof {
        lemma_view_arrays64_len(x.children@);
        crate::model::lemma_host_arrays_cost_nonneg(u.children);
        match u.dictionary {
            Some(dv) => crate::model::lemma_host_array_cost_nonneg(*dv),
            None => {},
        }
        assert(u.children.take(0) =~= Seq::<crate::model::ArrayV>::empty());
    }
    // the guest release of this node's paired sandbox-width twin
    let inner = match &x.private_data {
        Option::Some(p) => p.inner,
        Option::None => 0,
    };
    sb.release_array32(inner);
    proof {
        lemma_array64_inners_step(*x, sb0.arrays@, sb.arrays@);
    }
    // children, bottom-up
    let mut out: Vec<FFI64_ArrowArray> = Vec::new();
    let mut i: usize = 0;
    while i < x.children.len()
        invariant
            sb.wf(),
            heap.wf(),
            heap.capacity == old(heap).capacity,
            heap.alloc_bytes == old(heap).alloc_bytes,
            sb0 == *old(sb),
            sandbox_arrays_weakened(sb0, *sb),
            crate::host::array64_all_live(*x, sb0.arrays@.len() as int),
            u == view_array64(*x),
            u.children.len() == x.children@.len(),
            d0 == old(heap).dealloc_bytes,
            crate::model::host_array_cost(u) <= old(heap).alloc_bytes - d0,
            0 <= i <= x.children@.len(),
            out@.len() == i,
            heap.dealloc_bytes == d0 + crate::model::host_arrays_cost(u.children.take(i as int)),
            array64_inners_not_bridge(*x, sb.arrays@),
            (match x.private_data {
                Some(p) => 1 <= p.inner <= sb.arrays@.len() && sb.arrays@[p.inner - 1].release
                    == ReleaseSlot::Empty,
                None => true,
            }),
            forall|j: int|
                0 <= j < i ==> array64_inners_empty(#[trigger] x.children@[j], sb.arrays@),
            forall|j: int|
                0 <= j < i ==> view_array64(#[trigger] out@[j]) == view_array64(x.children@[j])
                    && array64_released(out@[j]),
        decreases x.children@.len() - i,
    {
        let ghost sb_pre = *sb;
        proof {
            lemma_view_arrays64_index(x.children@, i as int);
            crate::model::lemma_host_arrays_cost_take(u.children, i as int);
            crate::model::lemma_host_arrays_cost_prefix_bound(u.children, i + 1);
            crate::model::lemma_host_arrays_cost_nonneg(u.children);
            match u.dictionary {
                Some(dv) => crate::model::lemma_host_array_cost_nonneg(*dv),
                None => {},
            }
        }
        let rc = release64_array_walk(sb, heap, &x.children[i]);
        proof {
            assert forall|j: int| 0 <= j < sb0.arrays@.len() implies (#[trigger] sb.arrays@[j]
                == sb0.arrays@[j] || sb.arrays@[j] == array32_released_of(sb0.arrays@[j]))
                by {
                if sb_pre.arrays@[j] == array32_released_of(sb0.arrays@[j]) {
                    assert(array32_released_of(sb_pre.arrays@[j]) == array32_released_of(
                        sb0.arrays@[j],
                    ));
                }
            }
            // the pairing facts carry over the child's step
            lemma_array64_inners_step(*x, sb_pre.arrays@, sb.arrays@);
            assert forall|j: int| 0 <= j < i + 1 implies array64_inners_empty(
                #[trigger] x.children@[j],
                sb.arrays@,
            ) by {
                if j < i {
                    lemma_array64_inners_step(x.children@[j], sb_pre.arrays@, sb.arrays@);
                }
            }
        }
        out.push(rc);
        i = i + 1;
    }
    proof {
        assert(u.children.take(x.children@.len() as int) =~= u.children);
    }
    // dictionary
    let ghost sb_c = *sb;
    let new_dict = match &x.dictionary {
        Option::Some(d) => {
            let rd = Option::Some(Box::new(release64_array_walk(sb, heap, d)));
            proof {
                assert forall|j: int| 0 <= j < sb0.arrays@.len() implies (
                #[trigger] sb.arrays@[j] == sb0.arrays@[j] || sb.arrays@[j]
                    == array32_released_of(sb0.arrays@[j])) by {
                    if sb_c.arrays@[j] == array32_released_of(sb0.arrays@[j]) {
                        assert(array32_released_of(sb_c.arrays@[j]) == array32_released_of(
                            sb0.arrays@[j],
                        ));
                    }
                }
                lemma_array64_inners_step(*x, sb_c.arrays@, sb.arrays@);
                assert forall|j: int| 0 <= j < x.children@.len() implies array64_inners_empty(
                    #[trigger] x.children@[j],
                    sb.arrays@,
                ) by {
                    lemma_array64_inners_step(x.children@[j], sb_c.arrays@, sb.arrays@);
                }
            }
            rd
        },
        Option::None => Option::None,
    };
    // return the auxiliary buffer-pointer and child-pointer arrays and the
    // private record
    let csize = match &x.private_data {
        Option::Some(p) => p.children_size,
        Option::None => 0,
    };
    let bsize = match &x.private_data {
        Option::Some(p) => p.buffers_size,
        Option::None => 0,
    };
    if x.children.len() > 0 {
        crate::host::deallocate_buffer(heap, 0, csize);
    }
    if x.buffers.len() > 0 {
        crate::host::deallocate_buffer(heap, 0, bsize);
    }
    crate::host::deallocate_buffer(heap, 0, ARRAY64_PRIV_BYTES as u32);
    let mut bufs: Vec<u64> = Vec::new();
    let mut k: usize = 0;
    while k < x.buffers.len()
        invariant
            0 <= k <= x.buffers@.len(),
            bufs@ == x.buffers@.take(k as int),
        decreases x.buffers@.len() - k,
    {
        let b = x.buffers[k];
        bufs.push(b);
        proof {
            assert(bufs@ =~= x.buffers@.take(k + 1));
        }
        k = k + 1;
    }
    proof {
        assert(bufs@ =~= x.buffers@);
    }
    let r = FFI64_ArrowArray {
        length: x.length,
        null_count: x.null_count,
        offset: x.offset,
        buffers: bufs,
        children: out,
        dictionary: new_dict,
        release: ReleaseSlot::Empty,
        private_data: None,
    };
    proof {
        lemma_view_arrays64_len(x.children@);
        lemma_view_arrays64_len(r.children@);
        assert forall|j: int| 0 <= j < x.children@.len() implies #[trigger] view_arrays64(
            r.children@,
        )[j] == view_arrays64(x.children@)[j] by {
            lemma_view_arrays64_index(x.children@, j);
            lemma_view_arrays64_index(r.children@, j);
        }
        assert(view_arrays64(r.children@) =~= view_arrays64(x.children@));
        assert(view_array64(r) == view_array64(*x));
    }
    r
}

/// Host-width array release entry point.  Releasing a node whose slot is
/// already empty changes nothing, so a second release performs no further
/// deallocation.
pub fn release_exported_array64(
    sb: &mut Sandbox,
    heap: &mut HostHeap,
    x: FFI64_ArrowArray,
    _nominal: u64,
) -> (r: FFI64_ArrowArray)
    requires
        old(sb).wf(),
        old(heap).wf(),
        x.release != ReleaseSlot::Empty ==> crate::host::array64_all_live(
            x,
            old(sb).arrays@.len() as int,
        ) && array64_inners_not_bridge(x, old(sb).arrays@) && crate::model::host_array_cost(
            view_array64(x),
        ) <= old(heap).outstanding(),
    ensures
        final(sb).wf(),
        final(heap).wf(),
        final(heap).capacity == old(heap).capacity,
        final(heap).alloc_bytes == old(heap).alloc_bytes,
        view_array64(r) == view_array64(x),
        x.release == ReleaseSlot::Empty ==> *final(sb) == *old(sb) && *final(heap) == *old(heap)
            && r == x,
        x.release != ReleaseSlot::Empty ==> final(heap).dealloc_bytes == old(heap).dealloc_bytes
            + crate::model::host_array_cost(view_array64(x)) && array64_released(r)
            && sandbox_arrays_weakened(*old(sb), *final(sb)) && array64_inners_empty(
            x,
            final(sb).arrays@,
        ),
{
    if x.release == ReleaseSlot::Empty {
        return x;
    }
    release64_array_walk(sb, heap, &x)
}

} // verus!
