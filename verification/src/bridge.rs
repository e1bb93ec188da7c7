//! The bridges: recursive translation of schema and array trees between
//! the host-width and sandbox-width representations.  A translation
//! materialises the destination copy child-subtree by child-subtree, then
//! the dictionary, then the node itself, allocating on the destination side
//! and attaching the private bookkeeping record the release protocol needs.
//! On allocation failure the translation aborts hard: a half-built tree is
//! never handed to the release protocol, and nothing is rolled back.
use vstd::prelude::*;
use crate::CoreError;
use crate::addr::to32;
use crate::host::{
    FFI64_ArrowArray, FFI64_ArrowSchema, HostHeap, ReleaseSlot, lemma_view_arrays64_index,
    lemma_view_arrays64_len, lemma_view_schemas64_index, lemma_view_schemas64_len, view_array64,
    view_arrays64, view_schema64, view_schemas64,
};
use crate::model::{
    ArrayV, SchemaV, array_host_ok, lemma_sb_array_cost_pos, lemma_sb_arrays_cost_nonneg,
    lemma_sb_arrays_cost_prefix_bound, lemma_sb_arrays_cost_take, lemma_sb_schema_cost_pos,
    lemma_sb_schemas_cost_nonneg, lemma_sb_schemas_cost_prefix_bound, lemma_sb_schemas_cost_take,
    lemma_to_sb_arrays_index, lemma_to_sb_arrays_len, lemma_to_sb_schemas_index,
    lemma_to_sb_schemas_len, sb_array_cost, sb_arrays_cost, sb_schema_cost, sb_schemas_cost,
    schema_host_ok, to_sb_array, to_sb_arrays, to_sb_schema, to_sb_schemas,
};
use crate::sandbox::{
    ArrayPrivate32, FFI32_ArrowArray, FFI32_ArrowSchema, Sandbox, SchemaPrivate32, array32_live,
    lemma_a32_cells_cost, lemma_a32_cells_ok, lemma_a32_cells_views, lemma_a32_forest_build,
    lemma_a32_frame, lemma_a32_tree_lo_mono, lemma_s32_cells_cost, lemma_s32_cells_ok,
    lemma_s32_cells_views, lemma_s32_forest_build, lemma_s32_frame, lemma_s32_tree_lo_mono,
    a32_bridge_ok, a32_live_cost, a32_tree, a32_view, s32_bridge_ok, s32_live_cost, s32_tree,
    s32_view, schema32_live, seq_extends,
};
use crate::{ARRAY32_NODE_BYTES, ARRAY32_PRIV_BYTES, ARRAY64_PRIV_BYTES, CELL32_BYTES, CELL64_BYTES, MAX_FANOUT, SCHEMA32_NODE_BYTES, SCHEMA32_PRIV_BYTES, SCHEMA64_PRIV_BYTES};

verus! {

/// What holds of the j-th already translated child: its handle roots a
/// consistent translated subtree in the interval after its left neighbour.
pub open spec fn schema_child_ok(
    ss: Seq<FFI32_ArrowSchema>,
    cells: Seq<u32>,
    lo: int,
    base: int,
    ts: Seq<SchemaV>,
    j: int,
) -> bool {
    let c = cells[j] as int;
    let prev = if j == 0 {
        lo
    } else {
        cells[j - 1] as int
    };
    &&& lo <= prev
    &&& prev < c <= ss.len()
    &&& s32_tree(ss, prev, c)
    &&& s32_view(ss, c) == to_sb_schema(base, ts[j])
    &&& s32_bridge_ok(ss, c)
    &&& s32_live_cost(ss, c) == sb_schema_cost(ts[j])
}


/// Assembling one translated node: if the destination arena ends with the
/// translated children (in consecutive intervals) and the translated
/// dictionary, then pushing the node's own slot yields a consistent
/// translated subtree whose view and live cost match the source tree.
pub proof fn lemma_assemble_schema_node(
    ss_dict: Seq<FFI32_ArrowSchema>,
    slot: FFI32_ArrowSchema,
    lo: int,
    base: int,
    t: SchemaV,
    dmid: int,
)
    requires
        0 <= lo <= dmid <= ss_dict.len(),
        slot.children@.len() == t.children.len(),
        t.children.len() <= MAX_FANOUT,
        forall|j: int|
            0 <= j < slot.children@.len() ==> #[trigger] schema_child_ok(
                ss_dict,
                slot.children@,
                lo,
                base,
                t.children,
                j,
            ),
        forall|j: int|
            0 <= j < slot.children@.len() ==> #[trigger] slot.children@[j] as int <= dmid,
        slot.release == ReleaseSlot::Bridge,
        (match slot.private_data {
            Some(p) => p.children_buffer_size as int == (if slot.children@.len() > 0 {
                CELL32_BYTES as int * slot.children@.len()
            } else {
                0
            }),
            None => false,
        }),
        slot.format as u64 == to_sb_schema(base, t).format,
        slot.name as u64 == to_sb_schema(base, t).name,
        slot.metadata as u64 == to_sb_schema(base, t).metadata,
        slot.flags == t.flags,
        (match t.dictionary {
            Some(dv) => dmid < slot.dictionary as int <= ss_dict.len() && s32_tree(
                ss_dict,
                dmid,
                slot.dictionary as int,
            ) && s32_view(ss_dict, slot.dictionary as int) == to_sb_schema(base, *dv)
                && s32_bridge_ok(ss_dict, slot.dictionary as int) && s32_live_cost(
                ss_dict,
                slot.dictionary as int,
            ) == sb_schema_cost(*dv),
            None => slot.dictionary == 0,
        }),
    ensures
        ({
            let ss_fin = ss_dict.push(slot);
            let hh = ss_dict.len() as int + 1;
            &&& s32_tree(ss_fin, lo, hh)
            &&& s32_view(ss_fin, hh) == to_sb_schema(base, t)
            &&& s32_bridge_ok(ss_fin, hh)
            &&& s32_live_cost(ss_fin, hh) == sb_schema_cost(t)
        }),
{
    let ss_fin = ss_dict.push(slot);
    let hh = ss_dict.len() as int + 1;
    assert(ss_fin[hh - 1] == slot);
    // lift the per-child facts across the final push
    assert forall|j: int| 0 <= j < slot.children@.len() implies schema_child_ok(
        ss_fin,
        slot.children@,
        lo,
        base,
        t.children,
        j,
    ) by {
        assert(schema_child_ok(ss_dict, slot.children@, lo, base, t.children, j));
        let cj = slot.children@[j] as int;
        let prev = if j == 0 {
            lo
        } else {
            slot.children@[j - 1] as int
        };
        lemma_s32_frame(ss_dict, ss_fin, prev, cj);
    }
    // shape
    assert forall|j: int| 0 <= j < slot.children@.len() implies {
        let c = #[trigger] slot.children@[j] as int;
        let prev = if j == 0 {
            lo
        } else {
            slot.children@[j - 1] as int
        };
        prev < c <= hh - 1 && s32_tree(ss_fin, prev, c)
    } by {
        assert(schema_child_ok(ss_dict, slot.children@, lo, base, t.children, j));
        assert(schema_child_ok(ss_fin, slot.children@, lo, base, t.children, j));
    }
    lemma_s32_forest_build(ss_fin, lo, slot.children@, hh - 1);
    let dlo = if slot.children@.len() > 0 {
        slot.children@.last() as int
    } else {
        lo
    };
    assert(0 <= dlo <= dmid);
    if t.dictionary is Some {
        lemma_s32_frame(ss_dict, ss_fin, dmid, slot.dictionary as int);
        lemma_s32_tree_lo_mono(ss_fin, dmid, dlo, slot.dictionary as int);
    }
    assert(s32_tree(ss_fin, lo, hh));
    // view
    lemma_to_sb_schemas_len(base, t.children);
    assert forall|j: int| 0 <= j < slot.children@.len() implies 0 < #[trigger] slot.children@[j] as int
        <= hh - 1 && s32_view(ss_fin, slot.children@[j] as int) == to_sb_schemas(
        base,
        t.children,
    )[j] by {
        assert(schema_child_ok(ss_fin, slot.children@, lo, base, t.children, j));
        lemma_to_sb_schemas_index(base, t.children, j);
    }
    lemma_s32_cells_views(ss_fin, slot.children@, hh - 1, to_sb_schemas(base, t.children));
    assert(s32_view(ss_fin, hh) == to_sb_schema(base, t));
    // bookkeeping consistency and live cost
    assert(schema32_live(slot));
    assert forall|j: int| 0 <= j < slot.children@.len() implies 0 < #[trigger] slot.children@[j] as int
        <= hh - 1 && s32_bridge_ok(ss_fin, slot.children@[j] as int) && s32_live_cost(
        ss_fin,
        slot.children@[j] as int,
    ) == sb_schema_cost(t.children[j]) by {
        assert(schema_child_ok(ss_fin, slot.children@, lo, base, t.children, j));
    }
    lemma_s32_cells_ok(ss_fin, slot.children@, hh - 1);
    lemma_s32_cells_cost(ss_fin, slot.children@, hh - 1, t.children);
    assert(s32_bridge_ok(ss_fin, hh));
    assert(s32_live_cost(ss_fin, hh) == sb_schema_cost(t));
}

/// Translate a host-width schema tree into the sandbox, returning the
/// handle of the sandbox-width copy.  Succeeds exactly when the arena can
/// hold the tree's allocation cost; on failure the partial allocations
/// stay, as the protocol forbids releasing a half-built tree.
#[verifier::rlimit(100)]
pub fn schema_to_sandbox(sb: &mut Sandbox, s: &FFI64_ArrowSchema) -> (r: Result<u32, CoreError>)
    requires
        old(sb).wf(),
        schema_host_ok(old(sb).base as int, view_schema64(*s)),
    ensures
        final(sb).wf(),
        final(sb).base == old(sb).base,
        final(sb).capacity == old(sb).capacity,
        final(sb).dealloc_bytes == old(sb).dealloc_bytes,
        final(sb).arrays@ == old(sb).arrays@,
        final(sb).release_log@ == old(sb).release_log@,
        final(sb).alloc_bytes >= old(sb).alloc_bytes,
        seq_extends(final(sb).schemas@, old(sb).schemas@),
        (r is Ok) <==> old(sb).alloc_bytes + sb_schema_cost(view_schema64(*s)) <= old(
            sb,
        ).capacity,
        r is Ok ==> ({
            let h = r->Ok_0 as int;
            &&& 0 < h == final(sb).schemas@.len()
            &&& s32_tree(final(sb).schemas@, old(sb).schemas@.len() as int, h)
            &&& s32_view(final(sb).schemas@, h) == to_sb_schema(
                old(sb).base as int,
                view_schema64(*s),
            )
            &&& s32_bridge_ok(final(sb).schemas@, h)
            &&& s32_live_cost(final(sb).schemas@, h) == sb_schema_cost(view_schema64(*s))
            &&& final(sb).alloc_bytes == old(sb).alloc_bytes + sb_schema_cost(view_schema64(*s))
        }),
        r is Err ==> r->Err_0 == CoreError::AllocationFailure,
    decreases *s,
{
    let ghost base = old(sb).base as int;
    let ghost t = view_schema64(*s);
    let ghost lo = old(sb).schemas@.len() as int;
    let ghost a0 = old(sb).alloc_bytes as int;
    proof {
        lemma_view_schemas64_len(s.children@);
        assert(t.children.take(0) =~= Seq::<SchemaV>::empty());
    }
    let mut handles: Vec<u32> = Vec::new();
    let mut i: usize = 0;
    while i < s.children.len()
        invariant
            sb.wf(),
            base == old(sb).base as int,
            sb.base as int == base,
            sb.capacity == old(sb).capacity,
            sb.dealloc_bytes == old(sb).dealloc_bytes,
            sb.arrays@ == old(sb).arrays@,
            sb.release_log@ == old(sb).release_log@,
            seq_extends(sb.schemas@, old(sb).schemas@),
            lo == old(sb).schemas@.len(),
            a0 == old(sb).alloc_bytes,
            t == view_schema64(*s),
            schema_host_ok(base, t),
            t.children.len() == s.children@.len(),
            0 <= i <= s.children@.len(),
            handles@.len() == i,
            sb.alloc_bytes == a0 + sb_schemas_cost(t.children.take(i as int)),
            forall|j: int|
                0 <= j < i ==> schema_child_ok(sb.schemas@, handles@, lo, base, t.children, j),
        decreases s.children@.len() - i,
    {
        proof {
            lemma_view_schemas64_index(s.children@, i as int);
            lemma_sb_schemas_cost_take(t.children, i as int);
        }
        let ghost ss_pre = sb.schemas@;
        let ghost handles_pre = handles@;
        let r = schema_to_sandbox(sb, &s.children[i]);
        match r {
            Result::Err(e) => {
                proof {
                    lemma_sb_schemas_cost_prefix_bound(t.children, i + 1);
                    lemma_sb_schemas_cost_nonneg(t.children);
                    lemma_sb_schemas_cost_nonneg(t.children.take(i as int));
                    match t.dictionary {
                        Some(d) => lemma_sb_schema_cost_pos(*d),
                        None => {},
                    }
                }
                return Result::Err(e);
            },
            Result::Ok(c) => {
                proof {
                    assert forall|j: int| 0 <= j < i implies schema_child_ok(
                        sb.schemas@,
                        handles_pre.push(c),
                        lo,
                        base,
                        t.children,
                        j,
                    ) by {
                        assert(schema_child_ok(ss_pre, handles_pre, lo, base, t.children, j));
                        assert(handles_pre.push(c)[j] == handles_pre[j]);
                        if j > 0 {
                            assert(handles_pre.push(c)[j - 1] == handles_pre[j - 1]);
                        }
                        let cj = handles_pre[j] as int;
                        let prev = if j == 0 {
                            lo
                        } else {
                            handles_pre[j - 1] as int
                        };
                        lemma_s32_frame(ss_pre, sb.schemas@, prev, cj);
                    }
                    // the fresh child's own fact
                    if i > 0 {
                        assert(schema_child_ok(
                            ss_pre,
                            handles_pre,
                            lo,
                            base,
                            t.children,
                            i - 1,
                        ));
                    }
                    let prev_i = if i == 0 {
                        lo
                    } else {
                        handles_pre[i - 1] as int
                    };
                    lemma_s32_tree_lo_mono(sb.schemas@, ss_pre.len() as int, prev_i, c as int);
                    assert(schema_child_ok(
                        sb.schemas@,
                        handles_pre.push(c),
                        lo,
                        base,
                        t.children,
                        i as int,
                    ));
                }
                handles.push(c);
                i = i + 1;
            },
        }
    }
    proof {
        assert(t.children.take(i as int) =~= t.children);
    }
    // dictionary, translated after the children
    let mut dict_handle: u32 = 0;
    let ghost ss_mid = sb.schemas@;
    match &s.dictionary {
        Option::Some(d) => {
            let ghost ss_pre = sb.schemas@;
            let rd = schema_to_sandbox(sb, &**d);
            match rd {
                Result::Err(e) => {
                    proof {
                        lemma_sb_schemas_cost_nonneg(t.children);
                    }
                    return Result::Err(e);
                },
                Result::Ok(dh) => {
                    proof {
                        assert(t.dictionary == Some(Box::new(view_schema64(**d))));
                        assert forall|j: int| 0 <= j < handles@.len() implies schema_child_ok(
                            sb.schemas@,
                            handles@,
                            lo,
                            base,
                            t.children,
                            j,
                        ) by {
                            assert(schema_child_ok(ss_pre, handles@, lo, base, t.children, j));
                            let cj = handles@[j] as int;
                            let prev = if j == 0 {
                                lo
                            } else {
                                handles@[j - 1] as int
                            };
                            lemma_s32_frame(ss_pre, sb.schemas@, prev, cj);
                        }
                    }
                    dict_handle = dh;
                },
            }
        },
        Option::None => {},
    }
    let ghost ss_dict = sb.schemas@;
    let ghost a_dict = sb.alloc_bytes as int;
    let ghost dict_cost: int = match t.dictionary {
        Some(dv) => sb_schema_cost(*dv),
        None => 0,
    };
    proof {
        assert(a_dict == a0 + sb_schemas_cost(t.children) + dict_cost);
        assert(t.children.len() <= MAX_FANOUT);
    }
    // translate the node's own fields and attach the private record
    let n_children = s.children.len();
    let cells_bytes: u64 = if n_children > 0 {
        CELL32_BYTES * (n_children as u64)
    } else {
        0
    };
    let base_ex = sb.base;
    let fmt32 = to32(base_ex, s.format);
    let n32 = to32(base_ex, s.name);
    let m32 = to32(base_ex, s.metadata);
    let slot = FFI32_ArrowSchema {
        format: fmt32,
        name: n32,
        metadata: m32,
        flags: s.flags,
        children: handles,
        dictionary: dict_handle,
        release: ReleaseSlot::Bridge,
        private_data: Some(SchemaPrivate32 { children_buffer_size: cells_bytes as u32 }),
    };
    let ghost slot_g = slot;
    let extra: u64 = SCHEMA32_PRIV_BYTES + cells_bytes;
    let ra = sb.alloc_schema_slot(slot, extra);
    match ra {
        Option::None => {
            proof {
                lemma_sb_schemas_cost_nonneg(t.children);
                match t.dictionary {
                    Some(dv) => lemma_sb_schema_cost_pos(*dv),
                    None => {},
                }
                assert(dict_cost >= 0);
                // the node's own storage was exactly what was still missing
                assert(sb_schema_cost(t) == SCHEMA32_NODE_BYTES + SCHEMA32_PRIV_BYTES
                    + cells_bytes + sb_schemas_cost(t.children) + dict_cost);
            }
            Result::Err(CoreError::AllocationFailure)
        },
        Option::Some(h) => {
            proof {
                lemma_sb_schema_cost_pos(t);
                let ss_fin = sb.schemas@;
                let hh = h as int;
                assert(ss_fin == ss_dict.push(slot_g));
                assert forall|j: int| 0 <= j < slot_g.children@.len() implies #[trigger] schema_child_ok(
                    ss_dict,
                    slot_g.children@,
                    lo,
                    base,
                    t.children,
                    j,
                ) by {
                    assert(schema_child_ok(ss_mid, slot_g.children@, lo, base, t.children, j));
                }
                assert forall|j: int| 0 <= j < slot_g.children@.len() implies #[trigger] slot_g.children@[j] as int
                    <= ss_mid.len() by {
                    assert(schema_child_ok(ss_mid, slot_g.children@, lo, base, t.children, j));
                }
                lemma_assemble_schema_node(ss_dict, slot_g, lo, base, t, ss_mid.len() as int);
            }
            Result::Ok(h)
        },
    }
}

/// What holds of the j-th already translated child: its handle roots a
/// consistent translated subtree in the interval after its left neighbour.
pub open spec fn array_child_ok(
    ss: Seq<FFI32_ArrowArray>,
    cells: Seq<u32>,
    lo: int,
    base: int,
    ts: Seq<ArrayV>,
    j: int,
) -> bool {
    let c = cells[j] as int;
    let prev = if j == 0 {
        lo
    } else {
        cells[j - 1] as int
    };
    &&& lo <= prev
    &&& prev < c <= ss.len()
    &&& a32_tree(ss, prev, c)
    &&& a32_view(ss, c) == to_sb_array(base, ts[j])
    &&& a32_bridge_ok(ss, c)
    &&& a32_live_cost(ss, c) == sb_array_cost(ts[j])
}


/// Assembling one translated node: if the destination arena ends with the
/// translated children (in consecutive intervals) and the translated
/// dictionary, then pushing the node's own slot yields a consistent
/// translated subtree whose view and live cost match the source tree.
pub proof fn lemma_assemble_array_node(
    ss_dict: Seq<FFI32_ArrowArray>,
    slot: FFI32_ArrowArray,
    lo: int,
    base: int,
    t: ArrayV,
    dmid: int,
)
    requires
        0 <= lo <= dmid <= ss_dict.len(),
        slot.children@.len() == t.children.len(),
        t.children.len() <= MAX_FANOUT,
        t.buffers.len() <= MAX_FANOUT,
        forall|j: int|
            0 <= j < slot.children@.len() ==> #[trigger] array_child_ok(
                ss_dict,
                slot.children@,
                lo,
                base,
                t.children,
                j,
            ),
        forall|j: int|
            0 <= j < slot.children@.len() ==> #[trigger] slot.children@[j] as int <= dmid,
        slot.release == ReleaseSlot::Bridge,
        (match slot.private_data {
            Some(p) => p.children_buffer_size as int == (if slot.children@.len() > 0 {
                CELL32_BYTES as int * slot.children@.len()
            } else {
                0
            }) && p.buffers_size as int == (if slot.buffers@.len() > 0 {
                CELL32_BYTES as int * slot.buffers@.len()
            } else {
                0
            }),
            None => false,
        }),
        slot.length == t.length,
        slot.null_count == t.null_count,
        slot.offset == t.offset,
        slot.buffers@.len() == t.buffers.len(),
        forall|k: int|
            0 <= k < slot.buffers@.len() ==> #[trigger] slot.buffers@[k] as u64 == to_sb_array(
                base,
                t,
            ).buffers[k],
        (match t.dictionary {
            Some(dv) => dmid < slot.dictionary as int <= ss_dict.len() && a32_tree(
                ss_dict,
                dmid,
                slot.dictionary as int,
            ) && a32_view(ss_dict, slot.dictionary as int) == to_sb_array(base, *dv)
                && a32_bridge_ok(ss_dict, slot.dictionary as int) && a32_live_cost(
                ss_dict,
                slot.dictionary as int,
            ) == sb_array_cost(*dv),
            None => slot.dictionary == 0,
        }),
    ensures
        ({
            let ss_fin = ss_dict.push(slot);
            let hh = ss_dict.len() as int + 1;
            &&& a32_tree(ss_fin, lo, hh)
            &&& a32_view(ss_fin, hh) == to_sb_array(base, t)
            &&& a32_bridge_ok(ss_fin, hh)
            &&& a32_live_cost(ss_fin, hh) == sb_array_cost(t)
        }),
{
    let ss_fin = ss_dict.push(slot);
    let hh = ss_dict.len() as int + 1;
    assert(ss_fin[hh - 1] == slot);
    // lift the per-child facts across the final push
    assert forall|j: int| 0 <= j < slot.children@.len() implies array_child_ok(
        ss_fin,
        slot.children@,
        lo,
        base,
        t.children,
        j,
    ) by {
        assert(array_child_ok(ss_dict, slot.children@, lo, base, t.children, j));
        let cj = slot.children@[j] as int;
        let prev = if j == 0 {
            lo
        } else {
            slot.children@[j - 1] as int
        };
        lemma_a32_frame(ss_dict, ss_fin, prev, cj);
    }
    // shape
    assert forall|j: int| 0 <= j < slot.children@.len() implies {
        let c = #[trigger] slot.children@[j] as int;
        let prev = if j == 0 {
            lo
        } else {
            slot.children@[j - 1] as int
        };
        prev < c <= hh - 1 && a32_tree(ss_fin, prev, c)
    } by {
        assert(array_child_ok(ss_dict, slot.children@, lo, base, t.children, j));
        assert(array_child_ok(ss_fin, slot.children@, lo, base, t.children, j));
    }
    lemma_a32_forest_build(ss_fin, lo, slot.children@, hh - 1);
    let dlo = if slot.children@.len() > 0 {
        slot.children@.last() as int
    } else {
        lo
    };
    assert(0 <= dlo <= dmid);
    if t.dictionary is Some {
        lemma_a32_frame(ss_dict, ss_fin, dmid, slot.dictionary as int);
        lemma_a32_tree_lo_mono(ss_fin, dmid, dlo, slot.dictionary as int);
    }
    assert(a32_tree(ss_fin, lo, hh));
    // view
    lemma_to_sb_arrays_len(base, t.children);
    assert forall|j: int| 0 <= j < slot.children@.len() implies 0 < #[trigger] slot.children@[j] as int
        <= hh - 1 && a32_view(ss_fin, slot.children@[j] as int) == to_sb_arrays(
        base,
        t.children,
    )[j] by {
        assert(array_child_ok(ss_fin, slot.children@, lo, base, t.children, j));
        lemma_to_sb_arrays_index(base, t.children, j);
    }
    lemma_a32_cells_views(ss_fin, slot.children@, hh - 1, to_sb_arrays(base, t.children));
    crate::model::lemma_to_sb_bufs_len(base, t.buffers);
    assert(Seq::new(slot.buffers@.len(), |k: int| slot.buffers@[k] as u64) =~= to_sb_array(
        base,
        t,
    ).buffers);
    assert(a32_view(ss_fin, hh) == to_sb_array(base, t));
    // bookkeeping consistency and live cost
    assert(array32_live(slot));
    assert forall|j: int| 0 <= j < slot.children@.len() implies 0 < #[trigger] slot.children@[j] as int
        <= hh - 1 && a32_bridge_ok(ss_fin, slot.children@[j] as int) && a32_live_cost(
        ss_fin,
        slot.children@[j] as int,
    ) == sb_array_cost(t.children[j]) by {
        assert(array_child_ok(ss_fin, slot.children@, lo, base, t.children, j));
    }
    lemma_a32_cells_ok(ss_fin, slot.children@, hh - 1);
    lemma_a32_cells_cost(ss_fin, slot.children@, hh - 1, t.children);
    assert(a32_bridge_ok(ss_fin, hh));
    assert(a32_live_cost(ss_fin, hh) == sb_array_cost(t));
}

/// Translate a host-width array tree into the sandbox, returning the
/// handle of the sandbox-width copy.  Succeeds exactly when the arena can
/// hold the tree's allocation cost; on failure the partial allocations
/// stay, as the protocol forbids releasing a half-built tree.
#[verifier::rlimit(100)]
pub fn array_to_sandbox(sb: &mut Sandbox, s: &FFI64_ArrowArray) -> (r: Result<u32, CoreError>)
    requires
        old(sb).wf(),
        array_host_ok(old(sb).base as int, view_array64(*s)),
    ensures
        final(sb).wf(),
        final(sb).base == old(sb).base,
        final(sb).capacity == old(sb).capacity,
        final(sb).dealloc_bytes == old(sb).dealloc_bytes,
        final(sb).schemas@ == old(sb).schemas@,
        final(sb).release_log@ == old(sb).release_log@,
        final(sb).alloc_bytes >= old(sb).alloc_bytes,
        seq_extends(final(sb).arrays@, old(sb).arrays@),
        (r is Ok) <==> old(sb).alloc_bytes + sb_array_cost(view_array64(*s)) <= old(
            sb,
        ).capacity,
        r is Ok ==> ({
            let h = r->Ok_0 as int;
            &&& 0 < h == final(sb).arrays@.len()
            &&& a32_tree(final(sb).arrays@, old(sb).arrays@.len() as int, h)
            &&& a32_view(final(sb).arrays@, h) == to_sb_array(
                old(sb).base as int,
                view_array64(*s),
            )
            &&& a32_bridge_ok(final(sb).arrays@, h)
            &&& a32_live_cost(final(sb).arrays@, h) == sb_array_cost(view_array64(*s))
            &&& final(sb).alloc_bytes == old(sb).alloc_bytes + sb_array_cost(view_array64(*s))
        }),
        r is Err ==> r->Err_0 == CoreError::AllocationFailure,
    decreases *s,
{
    let ghost base = old(sb).base as int;
    let ghost t = view_array64(*s);
    let ghost lo = old(sb).arrays@.len() as int;
    let ghost a0 = old(sb).alloc_bytes as int;
    proof {
        lemma_view_arrays64_len(s.children@);
        assert(t.children.take(0) =~= Seq::<ArrayV>::empty());
    }
    let mut bufs: Vec<u32> = Vec::new();
    let mut k: usize = 0;
    while k < s.buffers.len()
        invariant
            sb.wf(),
            base == old(sb).base as int,
            sb.base as int == base,
            t == view_array64(*s),
            crate::model::array_host_ok(base, t),
            t.buffers == s.buffers@,
            0 <= k <= s.buffers@.len(),
            bufs@.len() == k,
            *sb == *old(sb),
            forall|j: int|
                0 <= j < k ==> #[trigger] bufs@[j] as u64 == crate::model::to_sb_bufs(
                    base,
                    t.buffers,
                )[j],
        decreases s.buffers@.len() - k,
    {
        proof {
            crate::model::lemma_to_sb_bufs_index(base, t.buffers, k as int);
        }
        let b32 = to32(sb.base, s.buffers[k]);
        bufs.push(b32);
        k = k + 1;
    }
    let mut handles: Vec<u32> = Vec::new();
    let mut i: usize = 0;
    while i < s.children.len()
        invariant
            sb.wf(),
            base == old(sb).base as int,
            sb.base as int == base,
            sb.capacity == old(sb).capacity,
            sb.dealloc_bytes == old(sb).dealloc_bytes,
            sb.schemas@ == old(sb).schemas@,
            sb.release_log@ == old(sb).release_log@,
            seq_extends(sb.arrays@, old(sb).arrays@),
            lo == old(sb).arrays@.len(),
            a0 == old(sb).alloc_bytes,
            t == view_array64(*s),
            array_host_ok(base, t),
            t.children.len() == s.children@.len(),
            0 <= i <= s.children@.len(),
            handles@.len() == i,
            sb.alloc_bytes == a0 + sb_arrays_cost(t.children.take(i as int)),
            forall|j: int|
                0 <= j < i ==> array_child_ok(sb.arrays@, handles@, lo, base, t.children, j),
        decreases s.children@.len() - i,
    {
        proof {
            lemma_view_arrays64_index(s.children@, i as int);
            lemma_sb_arrays_cost_take(t.children, i as int);
        }
        let ghost ss_pre = sb.arrays@;
        let ghost handles_pre = handles@;
        let r = array_to_sandbox(sb, &s.children[i]);
        match r {
            Result::Err(e) => {
                proof {
                    lemma_sb_arrays_cost_prefix_bound(t.children, i + 1);
                    lemma_sb_arrays_cost_nonneg(t.children);
                    lemma_sb_arrays_cost_nonneg(t.children.take(i as int));
                    match t.dictionary {
                        Some(d) => lemma_sb_array_cost_pos(*d),
                        None => {},
                    }
                }
                return Result::Err(e);
            },
            Result::Ok(c) => {
                proof {
                    assert forall|j: int| 0 <= j < i implies array_child_ok(
                        sb.arrays@,
                        handles_pre.push(c),
                        lo,
                        base,
                        t.children,
                        j,
                    ) by {
                        assert(array_child_ok(ss_pre, handles_pre, lo, base, t.children, j));
                        assert(handles_pre.push(c)[j] == handles_pre[j]);
                        if j > 0 {
                            assert(handles_pre.push(c)[j - 1] == handles_pre[j - 1]);
                        }
                        let cj = handles_pre[j] as int;
                        let prev = if j == 0 {
                            lo
                        } else {
                            handles_pre[j - 1] as int
                        };
                        lemma_a32_frame(ss_pre, sb.arrays@, prev, cj);
                    }
                    // the fresh child's own fact
                    if i > 0 {
                        assert(array_child_ok(
                            ss_pre,
                            handles_pre,
                            lo,
                            base,
                            t.children,
                            i - 1,
                        ));
                    }
                    let prev_i = if i == 0 {
                        lo
                    } else {
                        handles_pre[i - 1] as int
                    };
                    lemma_a32_tree_lo_mono(sb.arrays@, ss_pre.len() as int, prev_i, c as int);
                    assert(array_child_ok(
                        sb.arrays@,
                        handles_pre.push(c),
                        lo,
                        base,
                        t.children,
                        i as int,
                    ));
                }
                handles.push(c);
                i = i + 1;
            },
        }
    }
    proof {
        assert(t.children.take(i as int) =~= t.children);
    }
    // dictionary, translated after the children
    let mut dict_handle: u32 = 0;
    let ghost ss_mid = sb.arrays@;
    match &s.dictionary {
        Option::Some(d) => {
            let ghost ss_pre = sb.arrays@;
            let rd = array_to_sandbox(sb, &**d);
            match rd {
                Result::Err(e) => {
                    proof {
                        lemma_sb_arrays_cost_nonneg(t.children);
                    }
                    return Result::Err(e);
                },
                Result::Ok(dh) => {
                    proof {
                        assert(t.dictionary == Some(Box::new(view_array64(**d))));
                        assert forall|j: int| 0 <= j < handles@.len() implies array_child_ok(
                            sb.arrays@,
                            handles@,
                            lo,
                            base,
                            t.children,
                            j,
                        ) by {
                            assert(array_child_ok(ss_pre, handles@, lo, base, t.children, j));
                            let cj = handles@[j] as int;
                            let prev = if j == 0 {
                                lo
                            } else {
                                handles@[j - 1] as int
                            };
                            lemma_a32_frame(ss_pre, sb.arrays@, prev, cj);
                        }
                    }
                    dict_handle = dh;
                },
            }
        },
        Option::None => {},
    }
    let ghost ss_dict = sb.arrays@;
    let ghost a_dict = sb.alloc_bytes as int;
    let ghost dict_cost: int = match t.dictionary {
        Some(dv) => sb_array_cost(*dv),
        None => 0,
    };
    proof {
        assert(a_dict == a0 + sb_arrays_cost(t.children) + dict_cost);
        assert(t.children.len() <= MAX_FANOUT);
    }
    // translate the node's own fields and attach the private record
    let n_children = s.children.len();
    let cells_bytes: u64 = if n_children > 0 {
        CELL32_BYTES * (n_children as u64)
    } else {
        0
    };
    let n_buffers = s.buffers.len();
    let buf_bytes: u64 = if n_buffers > 0 {
        CELL32_BYTES * (n_buffers as u64)
    } else {
        0
    };
    proof {
        assert(t.buffers.len() <= MAX_FANOUT);
    }
    let slot = FFI32_ArrowArray {
        length: s.length,
        null_count: s.null_count,
        offset: s.offset,
        buffers: bufs,
        children: handles,
        dictionary: dict_handle,
        release: ReleaseSlot::Bridge,
        private_data: Some(
            ArrayPrivate32 {
                buffers_size: buf_bytes as u32,
                children_buffer_size: cells_bytes as u32,
            },
        ),
    };
    let ghost slot_g = slot;
    let extra: u64 = ARRAY32_PRIV_BYTES + buf_bytes + cells_bytes;
    let ra = sb.alloc_array_slot(slot, extra);
    match ra {
        Option::None => {
            proof {
                lemma_sb_arrays_cost_nonneg(t.children);
                match t.dictionary {
                    Some(dv) => lemma_sb_array_cost_pos(*dv),
                    None => {},
                }
                assert(dict_cost >= 0);
                // the node's own storage was exactly what was still missing
                assert(sb_array_cost(t) == ARRAY32_NODE_BYTES + ARRAY32_PRIV_BYTES + buf_bytes
                    + cells_bytes + sb_arrays_cost(t.children) + dict_cost);
            }
            Result::Err(CoreError::AllocationFailure)
        },
        Option::Some(h) => {
            proof {
                lemma_sb_array_cost_pos(t);
                let ss_fin = sb.arrays@;
                let hh = h as int;
                assert(ss_fin == ss_dict.push(slot_g));
                assert forall|j: int| 0 <= j < slot_g.children@.len() implies #[trigger] array_child_ok(
                    ss_dict,
                    slot_g.children@,
                    lo,
                    base,
                    t.children,
                    j,
                ) by {
                    assert(array_child_ok(ss_mid, slot_g.children@, lo, base, t.children, j));
                }
                assert forall|j: int| 0 <= j < slot_g.children@.len() implies #[trigger] slot_g.children@[j] as int
                    <= ss_mid.len() by {
                    assert(array_child_ok(ss_mid, slot_g.children@, lo, base, t.children, j));
                }
                lemma_assemble_array_node(ss_dict, slot_g, lo, base, t, ss_mid.len() as int);
            }
            Result::Ok(h)
        },
    }
}

// ---------------------------------------------------------------------
// Sandbox-to-host translation.
// ---------------------------------------------------------------------

/// Translate a sandbox-width schema tree into a host-width copy, allocating
/// the auxiliary child-pointer array and the private record on the host.
/// Succeeds exactly when the host arena can hold the tree's allocation
/// cost; each node's private record holds the handle of its paired
/// sandbox-width node.
#[verifier::rlimit(100)]
pub fn schema_to_host(sb: &Sandbox, heap: &mut HostHeap, h: u32) -> (r: Result<
    FFI64_ArrowSchema,
    CoreError,
>)
    requires
        sb.wf(),
        old(heap).wf(),
        s32_tree(sb.schemas@, 0, h as int),
    ensures
        final(heap).wf(),
        final(heap).capacity == old(heap).capacity,
        final(heap).dealloc_bytes == old(heap).dealloc_bytes,
        final(heap).alloc_bytes >= old(heap).alloc_bytes,
        (r is Ok) <==> old(heap).alloc_bytes + crate::model::host_schema_cost(
            s32_view(sb.schemas@, h as int),
        ) <= old(heap).capacity,
        r is Ok ==> ({
            let out = r->Ok_0;
            &&& view_schema64(out) == crate::model::to_host_schema(
                sb.base as int,
                s32_view(sb.schemas@, h as int),
            )
            &&& crate::host::schema64_all_live(out, sb.schemas@.len() as int)
            &&& (match out.private_data {
                Some(p) => p.inner == h,
                None => false,
            })
            &&& final(heap).alloc_bytes == old(heap).alloc_bytes
                + crate::model::host_schema_cost(s32_view(sb.schemas@, h as int))
        }),
        r is Err ==> r->Err_0 == CoreError::AllocationFailure,
    decreases h,
{
    let ghost ss = sb.schemas@;
    let ghost u = s32_view(ss, h as int);
    let ghost a0 = old(heap).alloc_bytes as int;
    let idx = (h - 1) as usize;
    let n_children = sb.schemas[idx].children.len();
    let ghost cells = ss[h as int - 1].children@;
    proof {
        crate::sandbox::lemma_s32_views_len(ss, cells, h as int - 1);
    }
    let mut kids: Vec<FFI64_ArrowSchema> = Vec::new();
    let mut i: usize = 0;
    while i < n_children
        invariant
            sb.wf(),
            heap.wf(),
            heap.capacity == old(heap).capacity,
            heap.dealloc_bytes == old(heap).dealloc_bytes,
            ss == sb.schemas@,
            a0 == old(heap).alloc_bytes,
            s32_tree(ss, 0, h as int),
            u == s32_view(ss, h as int),
            idx == h as int - 1,
            1 <= h as int <= ss.len(),
            cells == ss[h as int - 1].children@,
            n_children == cells.len(),
            u.children.len() == cells.len(),
            0 <= i <= n_children,
            kids@.len() == i,
            heap.alloc_bytes == a0 + crate::model::host_schemas_cost(u.children.take(i as int)),
            forall|j: int|
                0 <= j < i ==> view_schema64(#[trigger] kids@[j])
                    == crate::model::to_host_schema(sb.base as int, u.children[j])
                    && crate::host::schema64_all_live(kids@[j], ss.len() as int),
        decreases n_children - i,
    {
        let c = sb.schemas[idx].children[i];
        proof {
            crate::sandbox::lemma_s32_forest_facts(ss, 0, cells, h as int - 1, i as int);
            lemma_s32_tree_lo_mono(ss, (if i == 0 {
                0
            } else {
                cells[i - 1] as int
            }), 0, c as int);
            crate::sandbox::lemma_s32_views_index(ss, cells, h as int - 1, i as int);
            crate::model::lemma_host_schemas_cost_take(u.children, i as int);
            crate::model::lemma_host_schemas_cost_prefix_bound(u.children, i + 1);
            crate::model::lemma_host_schemas_cost_nonneg(u.children);
            crate::model::lemma_host_schemas_cost_nonneg(u.children.take(i as int));
            crate::model::lemma_host_schema_cost_nonneg(u);
            match u.dictionary {
                Some(dv) => crate::model::lemma_host_schema_cost_nonneg(*dv),
                None => {},
            }
        }
        let rc = schema_to_host(sb, heap, c);
        match rc {
            Result::Err(e) => {
                return Result::Err(e);
            },
            Result::Ok(k) => {
                kids.push(k);
                i = i + 1;
            },
        }
    }
    proof {
        assert(u.children.take(n_children as int) =~= u.children);
    }
    // dictionary
    let dict = sb.schemas[idx].dictionary;
    let mut new_dict: Option<Box<FFI64_ArrowSchema>> = None;
    if dict != 0 {
        proof {
            let dlo = if cells.len() > 0 {
                cells.last() as int
            } else {
                0
            };
            if cells.len() > 0 {
                crate::sandbox::lemma_s32_forest_facts(ss, 0, cells, h as int - 1, cells.len() - 1);
            }
            lemma_s32_tree_lo_mono(ss, dlo, 0, dict as int);
            crate::model::lemma_host_schemas_cost_nonneg(u.children);
        }
        let rd = schema_to_host(sb, heap, dict);
        match rd {
            Result::Err(e) => {
                return Result::Err(e);
            },
            Result::Ok(k) => {
                new_dict = Some(Box::new(k));
            },
        }
    }
    let ghost a_dict = heap.alloc_bytes as int;
    let ghost dict_cost: int = match u.dictionary {
        Some(dv) => crate::model::host_schema_cost(*dv),
        None => 0,
    };
    proof {
        assert(a_dict == a0 + crate::model::host_schemas_cost(u.children) + dict_cost);
        assert(cells.len() <= MAX_FANOUT);
    }
    // auxiliary child-pointer array
    let cells_bytes: u64 = if n_children > 0 {
        CELL64_BYTES * (n_children as u64)
    } else {
        0
    };
    if n_children > 0 {
        let ra = crate::host::allocate_buffer(heap, cells_bytes as u32);
        if ra.is_none() {
            proof {
                crate::model::lemma_host_schemas_cost_nonneg(u.children);
                match u.dictionary {
                    Some(dv) => crate::model::lemma_host_schema_cost_nonneg(*dv),
                    None => {},
                }
            }
            return Result::Err(CoreError::AllocationFailure);
        }
    }
    // private record
    let rp = crate::host::allocate_buffer(heap, SCHEMA64_PRIV_BYTES as u32);
    if rp.is_none() {
        proof {
            crate::model::lemma_host_schemas_cost_nonneg(u.children);
            match u.dictionary {
                Some(dv) => crate::model::lemma_host_schema_cost_nonneg(*dv),
                None => {},
            }
        }
        return Result::Err(CoreError::AllocationFailure);
    }
    let base_ex = sb.base;
    let f64v = crate::addr::to64(base_ex, sb.schemas[idx].format);
    let n64v = crate::addr::to64(base_ex, sb.schemas[idx].name);
    let m64v = crate::addr::to64(base_ex, sb.schemas[idx].metadata);
    let out = FFI64_ArrowSchema {
        format: f64v,
        name: n64v,
        metadata: m64v,
        flags: sb.schemas[idx].flags,
        children: kids,
        dictionary: new_dict,
        release: ReleaseSlot::Bridge,
        private_data: Some(
            crate::host::SchemaPrivate64 { inner: h, children_size: cells_bytes as u32 },
        ),
    };
    proof {
        crate::model::lemma_host_schema_cost_nonneg(u);
        crate::model::lemma_to_host_schemas_len(sb.base as int, u.children);
        lemma_view_schemas64_len(out.children@);
        assert forall|j: int| 0 <= j < cells.len() implies #[trigger] view_schemas64(
            out.children@,
        )[j] == crate::model::to_host_schemas(sb.base as int, u.children)[j] by {
            lemma_view_schemas64_index(out.children@, j);
            crate::model::lemma_to_host_schemas_index(sb.base as int, u.children, j);
        }
        assert(view_schemas64(out.children@) =~= crate::model::to_host_schemas(
            sb.base as int,
            u.children,
        ));
        assert(view_schema64(out) == crate::model::to_host_schema(sb.base as int, u));
        assert(crate::host::schema64_all_live(out, ss.len() as int));
    }
    Result::Ok(out)
}

/// Translate a sandbox-width array tree into a host-width copy, allocating
/// the auxiliary child-pointer array and the private record on the host.
/// Succeeds exactly when the host arena can hold the tree's allocation
/// cost; each node's private record holds the handle of its paired
/// sandbox-width node.
#[verifier::rlimit(100)]
pub fn array_to_host(sb: &Sandbox, heap: &mut HostHeap, h: u32) -> (r: Result<
    FFI64_ArrowArray,
    CoreError,
>)
    requires
        sb.wf(),
        old(heap).wf(),
        a32_tree(sb.arrays@, 0, h as int),
    ensures
        final(heap).wf(),
        final(heap).capacity == old(heap).capacity,
        final(heap).dealloc_bytes == old(heap).dealloc_bytes,
        final(heap).alloc_bytes >= old(heap).alloc_bytes,
        (r is Ok) <==> old(heap).alloc_bytes + crate::model::host_array_cost(
            a32_view(sb.arrays@, h as int),
        ) <= old(heap).capacity,
        r is Ok ==> ({
            let out = r->Ok_0;
            &&& view_array64(out) == crate::model::to_host_array(
                sb.base as int,
                a32_view(sb.arrays@, h as int),
            )
            &&& crate::host::array64_all_live(out, sb.arrays@.len() as int)
            &&& (match out.private_data {
                Some(p) => p.inner == h,
                None => false,
            })
            &&& final(heap).alloc_bytes == old(heap).alloc_bytes
                + crate::model::host_array_cost(a32_view(sb.arrays@, h as int))
        }),
        r is Err ==> r->Err_0 == CoreError::AllocationFailure,
    decreases h,
{
    let ghost ss = sb.arrays@;
    let ghost u = a32_view(ss, h as int);
    let ghost a0 = old(heap).alloc_bytes as int;
    let idx = (h - 1) as usize;
    let n_children = sb.arrays[idx].children.len();
    let ghost cells = ss[h as int - 1].children@;
    proof {
        crate::sandbox::lemma_a32_views_len(ss, cells, h as int - 1);
    }
    let mut kids: Vec<FFI64_ArrowArray> = Vec::new();
    let mut i: usize = 0;
    while i < n_children
        invariant
            sb.wf(),
            heap.wf(),
            heap.capacity == old(heap).capacity,
            heap.dealloc_bytes == old(heap).dealloc_bytes,
            ss == sb.arrays@,
            a0 == old(heap).alloc_bytes,
            a32_tree(ss, 0, h as int),
            u == a32_view(ss, h as int),
            idx == h as int - 1,
            1 <= h as int <= ss.len(),
            cells == ss[h as int - 1].children@,
            n_children == cells.len(),
            u.children.len() == cells.len(),
            0 <= i <= n_children,
            kids@.len() == i,
            heap.alloc_bytes == a0 + crate::model::host_arrays_cost(u.children.take(i as int)),
            forall|j: int|
                0 <= j < i ==> view_array64(#[trigger] kids@[j])
                    == crate::model::to_host_array(sb.base as int, u.children[j])
                    && crate::host::array64_all_live(kids@[j], ss.len() as int),
        decreases n_children - i,
    {
        let c = sb.arrays[idx].children[i];
        proof {
            crate::sandbox::lemma_a32_forest_facts(ss, 0, cells, h as int - 1, i as int);
            lemma_a32_tree_lo_mono(ss, (if i == 0 {
                0
            } else {
                cells[i - 1] as int
            }), 0, c as int);
            crate::sandbox::lemma_a32_views_index(ss, cells, h as int - 1, i as int);
            crate::model::lemma_host_arrays_cost_take(u.children, i as int);
            crate::model::lemma_host_arrays_cost_prefix_bound(u.children, i + 1);
            crate::model::lemma_host_arrays_cost_nonneg(u.children);
            crate::model::lemma_host_arrays_cost_nonneg(u.children.take(i as int));
            crate::model::lemma_host_array_cost_nonneg(u);
            match u.dictionary {
                Some(dv) => crate::model::lemma_host_array_cost_nonneg(*dv),
                None => {},
            }
        }
        let rc = array_to_host(sb, heap, c);
        match rc {
            Result::Err(e) => {
                return Result::Err(e);
            },
            Result::Ok(k) => {
                kids.push(k);
                i = i + 1;
            },
        }
    }
    proof {
        assert(u.children.take(n_children as int) =~= u.children);
    }
    // dictionary
    let dict = sb.arrays[idx].dictionary;
    let mut new_dict: Option<Box<FFI64_ArrowArray>> = None;
    if dict != 0 {
        proof {
            let dlo = if cells.len() > 0 {
                cells.last() as int
            } else {
                0
            };
            if cells.len() > 0 {
                crate::sandbox::lemma_a32_forest_facts(ss, 0, cells, h as int - 1, cells.len() - 1);
            }
            lemma_a32_tree_lo_mono(ss, dlo, 0, dict as int);
            crate::model::lemma_host_arrays_cost_nonneg(u.children);
        }
        let rd = array_to_host(sb, heap, dict);
        match rd {
            Result::Err(e) => {
                return Result::Err(e);
            },
            Result::Ok(k) => {
                new_dict = Some(Box::new(k));
            },
        }
    }
    let ghost a_dict = heap.alloc_bytes as int;
    let ghost dict_cost: int = match u.dictionary {
        Some(dv) => crate::model::host_array_cost(*dv),
        None => 0,
    };
    proof {
        assert(a_dict == a0 + crate::model::host_arrays_cost(u.children) + dict_cost);
        assert(cells.len() <= MAX_FANOUT);
    }
    // auxiliary child-pointer array
    let cells_bytes: u64 = if n_children > 0 {
        CELL64_BYTES * (n_children as u64)
    } else {
        0
    };
    if n_children > 0 {
        let ra = crate::host::allocate_buffer(heap, cells_bytes as u32);
        if ra.is_none() {
            proof {
                crate::model::lemma_host_arrays_cost_nonneg(u.children);
                match u.dictionary {
                    Some(dv) => crate::model::lemma_host_array_cost_nonneg(*dv),
                    None => {},
                }
            }
            return Result::Err(CoreError::AllocationFailure);
        }
    }
    // private record
    let rp = crate::host::allocate_buffer(heap, ARRAY64_PRIV_BYTES as u32);
    if rp.is_none() {
        proof {
            crate::model::lemma_host_arrays_cost_nonneg(u.children);
            match u.dictionary {
                Some(dv) => crate::model::lemma_host_array_cost_nonneg(*dv),
                None => {},
            }
        }
        return Result::Err(CoreError::AllocationFailure);
    }
    let n_buffers = sb.arrays[idx].buffers.len();
    proof {
        assert(u.buffers.len() == ss[h as int - 1].buffers@.len());
        assert(ss[h as int - 1].buffers@.len() <= MAX_FANOUT);
        crate::model::lemma_to_host_bufs_len(sb.base as int, u.buffers);
    }
    let buf_bytes: u64 = if n_buffers > 0 {
        CELL64_BYTES * (n_buffers as u64)
    } else {
        0
    };
    if n_buffers > 0 {
        let rb = crate::host::allocate_buffer(heap, buf_bytes as u32);
        if rb.is_none() {
            proof {
                crate::model::lemma_host_arrays_cost_nonneg(u.children);
                match u.dictionary {
                    Some(dv) => crate::model::lemma_host_array_cost_nonneg(*dv),
                    None => {},
                }
            }
            return Result::Err(CoreError::AllocationFailure);
        }
    }
    let base_ex = sb.base;
    let mut bufs: Vec<u64> = Vec::new();
    let mut k: usize = 0;
    while k < n_buffers
        invariant
            sb.wf(),
            ss == sb.arrays@,
            idx == h as int - 1,
            1 <= h as int <= ss.len(),
            n_buffers == ss[h as int - 1].buffers@.len(),
            base_ex == sb.base,
            u == a32_view(ss, h as int),
            u.buffers.len() == n_buffers,
            crate::model::to_host_bufs(sb.base as int, u.buffers).len() == n_buffers,
            0 <= k <= n_buffers,
            bufs@.len() == k,
            forall|j: int|
                0 <= j < k ==> #[trigger] bufs@[j] == crate::model::to_host_bufs(
                    sb.base as int,
                    u.buffers,
                )[j],
        decreases n_buffers - k,
    {
        proof {
            crate::model::lemma_to_host_bufs_index(sb.base as int, u.buffers, k as int);
            assert(u.buffers[k as int] == ss[h as int - 1].buffers@[k as int] as u64);
        }
        let b = crate::addr::to64(base_ex, sb.arrays[idx].buffers[k]);
        bufs.push(b);
        k = k + 1;
    }
    let out = FFI64_ArrowArray {
        length: sb.arrays[idx].length,
        null_count: sb.arrays[idx].null_count,
        offset: sb.arrays[idx].offset,
        buffers: bufs,
        children: kids,
        dictionary: new_dict,
        release: ReleaseSlot::Bridge,
        private_data: Some(
            crate::host::ArrayPrivate64 {
                inner: h,
                buffers_size: buf_bytes as u32,
                children_size: cells_bytes as u32,
            },
        ),
    };
    proof {
        crate::model::lemma_host_array_cost_nonneg(u);
        crate::model::lemma_to_host_arrays_len(sb.base as int, u.children);
        lemma_view_arrays64_len(out.children@);
        assert forall|j: int| 0 <= j < cells.len() implies #[trigger] view_arrays64(
            out.children@,
        )[j] == crate::model::to_host_arrays(sb.base as int, u.children)[j] by {
            lemma_view_arrays64_index(out.children@, j);
            crate::model::lemma_to_host_arrays_index(sb.base as int, u.children, j);
        }
        assert(view_arrays64(out.children@) =~= crate::model::to_host_arrays(
            sb.base as int,
            u.children,
        ));
        crate::model::lemma_to_host_bufs_len(sb.base as int, u.buffers);
        assert(out.buffers@ =~= crate::model::to_host_bufs(sb.base as int, u.buffers));
        assert(view_array64(out) == crate::model::to_host_array(sb.base as int, u));
        assert(crate::host::array64_all_live(out, ss.len() as int));
    }
    Result::Ok(out)
}

} // verus!
