//! One end-to-end transform: translate the host-width input pair into the
//! sandbox, hand the context to the guest transform, accept the
//! sandbox-width output pair it produced, translate it back to host width,
//! and finally tear both generations down.  Only one session may be in
//! flight per sandbox instance; the guest transform itself is an external
//! collaborator whose output enters through `set_output`.
use vstd::prelude::*;
use crate::CoreError;
use crate::bridge::{array_to_host, array_to_sandbox, schema_to_host, schema_to_sandbox};
use crate::host::{FFI64_ArrowArray, FFI64_ArrowSchema, HostHeap, ReleaseSlot};
use crate::model::{
    array_host_ok, host_array_cost, host_schema_cost, sb_array_cost, sb_schema_cost,
    schema_host_ok, to_host_array, to_host_schema, to_sb_array, to_sb_schema,
};
use crate::host::{array64_all_live, array64_released, schema64_all_live, schema64_released};
use crate::host::{view_array64, view_schema64};
use crate::release::{release_exported_array64, release_exported_schema64};
use crate::sandbox::{Sandbox, a32_tree, a32_view, s32_tree, s32_view};

verus! {

/// The context of one transform call, shared with the guest: the sandbox
/// base address and the handles of the input and output pairs.
#[derive(Debug, Clone, Copy, PartialEq, Eq, Structural)]
#[allow(non_camel_case_types)]
pub struct FFI_TransformContext {
    pub base: u64,
    pub in_schema: u32,
    pub in_array: u32,
    pub out_schema: u32,
    pub out_array: u32,
}

/// Open a transform context against the sandbox's current base address.
pub fn prepare_transform(sb: &Sandbox) -> (ctx: FFI_TransformContext)
    ensures
        ctx.base == sb.base,
        ctx.in_schema == 0,
        ctx.in_array == 0,
        ctx.out_schema == 0,
        ctx.out_array == 0,
{
    FFI_TransformContext { base: sb.base, in_schema: 0, in_array: 0, out_schema: 0, out_array: 0 }
}

/// Reject a host-width input whose addresses cannot be narrowed, then
/// translate both trees of the input pair into the sandbox and install
/// their handles in the context.  Succeeds exactly when the input is in
/// range and the arena can hold both trees.
pub fn translate_in(
    sb: &mut Sandbox,
    ctx: &mut FFI_TransformContext,
    s: &FFI64_ArrowSchema,
    a: &FFI64_ArrowArray,
) -> (r: Result<(), CoreError>)
    requires
        old(sb).wf(),
    ensures
        final(sb).wf(),
        final(sb).base == old(sb).base,
        final(sb).capacity == old(sb).capacity,
        final(sb).dealloc_bytes == old(sb).dealloc_bytes,
        final(ctx).base == old(ctx).base,
        final(ctx).out_schema == old(ctx).out_schema,
        final(ctx).out_array == old(ctx).out_array,
        (r is Ok) <==> schema_host_ok(old(sb).base as int, view_schema64(*s)) && array_host_ok(
            old(sb).base as int,
            view_array64(*a),
        ) && old(sb).alloc_bytes + sb_schema_cost(view_schema64(*s)) + sb_array_cost(
            view_array64(*a),
        ) <= old(sb).capacity,
        r is Err && r->Err_0 == CoreError::AddressRangeViolation <==> !(schema_host_ok(
            old(sb).base as int,
            view_schema64(*s),
        ) && array_host_ok(old(sb).base as int, view_array64(*a))),
        r is Err && r->Err_0 == CoreError::AllocationFailure <==> schema_host_ok(
            old(sb).base as int,
            view_schema64(*s),
        ) && array_host_ok(old(sb).base as int, view_array64(*a)) && !(old(sb).alloc_bytes
            + sb_schema_cost(view_schema64(*s)) + sb_array_cost(view_array64(*a)) <= old(
            sb,
        ).capacity),
        r is Ok ==> ({
            let hs = final(ctx).in_schema as int;
            let ha = final(ctx).in_array as int;
            &&& s32_tree(final(sb).schemas@, old(sb).schemas@.len() as int, hs)
            &&& a32_tree(final(sb).arrays@, old(sb).arrays@.len() as int, ha)
            &&& s32_view(final(sb).schemas@, hs) == to_sb_schema(
                old(sb).base as int,
                view_schema64(*s),
            )
            &&& a32_view(final(sb).arrays@, ha) == to_sb_array(
                old(sb).base as int,
                view_array64(*a),
            )
            &&& crate::sandbox::s32_bridge_ok(final(sb).schemas@, hs)
            &&& crate::sandbox::a32_bridge_ok(final(sb).arrays@, ha)
            &&& crate::sandbox::s32_live_cost(final(sb).schemas@, hs) == sb_schema_cost(
                view_schema64(*s),
            )
            &&& crate::sandbox::a32_live_cost(final(sb).arrays@, ha) == sb_array_cost(
                view_array64(*a),
            )
            &&& final(sb).alloc_bytes == old(sb).alloc_bytes + sb_schema_cost(view_schema64(*s))
                + sb_array_cost(view_array64(*a))
        }),
{
    let sv = Ghost(view_schema64(*s));
    let av = Ghost(view_array64(*a));
    if !crate::host::validate_schema64(sb.base, s) || !crate::host::validate_array64(sb.base, a) {
        return Result::Err(CoreError::AddressRangeViolation);
    }
    proof {
        crate::model::lemma_sb_array_cost_pos(av@);
        crate::model::lemma_sb_schema_cost_pos(sv@);
    }
    let rs = schema_to_sandbox(sb, s);
    let hs = match rs {
        Result::Err(e) => {
            return Result::Err(e);
        },
        Result::Ok(x) => x,
    };
    let ghost sb_mid = *sb;
    let ra = array_to_sandbox(sb, a);
    let ha = match ra {
        Result::Err(e) => {
            proof {
                crate::model::lemma_sb_schema_cost_pos(sv@);
            }
            return Result::Err(e);
        },
        Result::Ok(x) => x,
    };
    proof {
        // the array translation does not touch the schema pool
        crate::sandbox::lemma_s32_frame(
            sb_mid.schemas@,
            sb.schemas@,
            old(sb).schemas@.len() as int,
            hs as int,
        );
    }
    ctx.in_schema = hs;
    ctx.in_array = ha;
    Result::Ok(())
}

/// Record the sandbox-width output pair the guest transform produced.
pub fn set_output(ctx: &mut FFI_TransformContext, out_schema: u32, out_array: u32)
    ensures
        *final(ctx) == (FFI_TransformContext { out_schema, out_array, ..*old(ctx) }),
{
    ctx.out_schema = out_schema;
    ctx.out_array = out_array;
}

/// Reject a malformed guest output, then translate the sandbox-width output
/// pair into host-width copies.  Succeeds exactly when both output trees
/// are well-founded and the host arena can hold both copies.
pub fn translate_out(sb: &Sandbox, heap: &mut HostHeap, ctx: &FFI_TransformContext) -> (r: Result<
    (FFI64_ArrowSchema, FFI64_ArrowArray),
    CoreError,
>)
    requires
        sb.wf(),
        old(heap).wf(),
    ensures
        final(heap).wf(),
        final(heap).capacity == old(heap).capacity,
        final(heap).dealloc_bytes == old(heap).dealloc_bytes,
        r is Err && r->Err_0 == CoreError::MalformedStructure <==> !(s32_tree(
            sb.schemas@,
            0,
            ctx.out_schema as int,
        ) && a32_tree(sb.arrays@, 0, ctx.out_array as int)),
        (r is Ok) <==> s32_tree(sb.schemas@, 0, ctx.out_schema as int) && a32_tree(
            sb.arrays@,
            0,
            ctx.out_array as int,
        ) && old(heap).alloc_bytes + host_schema_cost(s32_view(sb.schemas@, ctx.out_schema as int))
            + host_array_cost(a32_view(sb.arrays@, ctx.out_array as int)) <= old(heap).capacity,
        r is Err && r->Err_0 == CoreError::AllocationFailure <==> s32_tree(
            sb.schemas@,
            0,
            ctx.out_schema as int,
        ) && a32_tree(sb.arrays@, 0, ctx.out_array as int) && !(old(heap).alloc_bytes
            + host_schema_cost(s32_view(sb.schemas@, ctx.out_schema as int)) + host_array_cost(
            a32_view(sb.arrays@, ctx.out_array as int),
        ) <= old(heap).capacity),
        r is Ok ==> ({
            let out = r->Ok_0;
            &&& view_schema64(out.0) == to_host_schema(
                sb.base as int,
                s32_view(sb.schemas@, ctx.out_schema as int),
            )
            &&& view_array64(out.1) == to_host_array(
                sb.base as int,
                a32_view(sb.arrays@, ctx.out_array as int),
            )
            &&& schema64_all_live(out.0, sb.schemas@.len() as int)
            &&& array64_all_live(out.1, sb.arrays@.len() as int)
            &&& host_schema_cost(view_schema64(out.0)) == host_schema_cost(
                s32_view(sb.schemas@, ctx.out_schema as int),
            )
            &&& host_array_cost(view_array64(out.1)) == host_array_cost(
                a32_view(sb.arrays@, ctx.out_array as int),
            )
            &&& final(heap).alloc_bytes == old(heap).alloc_bytes + host_schema_cost(
                s32_view(sb.schemas@, ctx.out_schema as int),
            ) + host_array_cost(a32_view(sb.arrays@, ctx.out_array as int))
        }),
{
    if !sb.validate_schema32(0, ctx.out_schema) || !sb.validate_array32(0, ctx.out_array) {
        return Result::Err(CoreError::MalformedStructure);
    }
    proof {
        crate::model::lemma_host_array_cost_nonneg(a32_view(sb.arrays@, ctx.out_array as int));
        crate::model::lemma_host_schema_cost_nonneg(s32_view(sb.schemas@, ctx.out_schema as int));
    }
    let rs = schema_to_host(sb, heap, ctx.out_schema);
    let s64 = match rs {
        Result::Err(e) => {
            return Result::Err(e);
        },
        Result::Ok(x) => x,
    };
    let ra = array_to_host(sb, heap, ctx.out_array);
    let a64 = match ra {
        Result::Err(e) => {
            proof {
                crate::model::lemma_host_schema_cost_nonneg(
                    s32_view(sb.schemas@, ctx.out_schema as int),
                );
            }
            return Result::Err(e);
        },
        Result::Ok(x) => x,
    };
    proof {
        crate::model::lemma_host_schema_cost_to_host(
            sb.base as int,
            s32_view(sb.schemas@, ctx.out_schema as int),
        );
        crate::model::lemma_host_array_cost_to_host(
            sb.base as int,
            a32_view(sb.arrays@, ctx.out_array as int),
        );
    }
    Result::Ok((s64, a64))
}

/// Finalize one transform: tear down the host-width output pair, which also
/// releases the paired sandbox-width originals through the guest's exported
/// release entry points.  Tearing down an already-finalized pair changes
/// nothing further.
pub fn finalize_tansform(
    sb: &mut Sandbox,
    heap: &mut HostHeap,
    out_schema: FFI64_ArrowSchema,
    out_array: FFI64_ArrowArray,
) -> (r: (FFI64_ArrowSchema, FFI64_ArrowArray))
    requires
        old(sb).wf(),
        old(heap).wf(),
        out_schema.release != ReleaseSlot::Empty ==> schema64_all_live(
            out_schema,
            old(sb).schemas@.len() as int,
        ) && crate::release::schema64_inners_not_bridge(out_schema, old(sb).schemas@)
            && host_schema_cost(view_schema64(out_schema)) <= old(heap).outstanding(),
        out_array.release != ReleaseSlot::Empty ==> array64_all_live(
            out_array,
            old(sb).arrays@.len() as int,
        ) && crate::release::array64_inners_not_bridge(out_array, old(sb).arrays@)
            && host_schema_cost(view_schema64(out_schema)) + host_array_cost(
            view_array64(out_array),
        ) <= old(heap).outstanding(),
    ensures
        final(sb).wf(),
        final(heap).wf(),
        final(heap).capacity == old(heap).capacity,
        final(heap).alloc_bytes == old(heap).alloc_bytes,
        view_schema64(r.0) == view_schema64(out_schema),
        view_array64(r.1) == view_array64(out_array),
        out_schema.release != ReleaseSlot::Empty && out_array.release != ReleaseSlot::Empty
            ==> final(heap).dealloc_bytes == old(heap).dealloc_bytes + host_schema_cost(
            view_schema64(out_schema),
        ) + host_array_cost(view_array64(out_array)) && schema64_released(r.0)
            && array64_released(r.1) && crate::release::schema64_inners_empty(
            out_schema,
            final(sb).schemas@,
        ) && crate::release::array64_inners_empty(out_array, final(sb).arrays@),
        out_schema.release == ReleaseSlot::Empty && out_array.release == ReleaseSlot::Empty
            ==> *final(sb) == *old(sb) && *final(heap) == *old(heap),
{
    proof {
        crate::model::lemma_host_schema_cost_nonneg(view_schema64(out_schema));
        crate::model::lemma_host_array_cost_nonneg(view_array64(out_array));
    }
    let rs = release_exported_schema64(sb, heap, out_schema, 0);
    let ra = release_exported_array64(sb, heap, out_array, 0);
    (rs, ra)
}

/// One transform call, end to end around the guest's own computation: the
/// host-width input pair is translated into the sandbox and installed in
/// the context, the guest transform runs outside this model, and the
/// sandbox-width output pair it reported is translated back into host-width
/// copies for the caller.  The two handles are the event the guest hands
/// back.
pub fn transform(
    sb: &mut Sandbox,
    heap: &mut HostHeap,
    ctx: &mut FFI_TransformContext,
    s: &FFI64_ArrowSchema,
    a: &FFI64_ArrowArray,
    guest_out_schema: u32,
    guest_out_array: u32,
) -> (r: Result<(FFI64_ArrowSchema, FFI64_ArrowArray), CoreError>)
    requires
        old(sb).wf(),
        old(heap).wf(),
    ensures
        final(sb).wf(),
        final(heap).wf(),
        final(ctx).base == old(ctx).base,
        (r is Ok) <==> schema_host_ok(old(sb).base as int, view_schema64(*s)) && array_host_ok(
            old(sb).base as int,
            view_array64(*a),
        ) && old(sb).alloc_bytes + sb_schema_cost(view_schema64(*s)) + sb_array_cost(
            view_array64(*a),
        ) <= old(sb).capacity && s32_tree(final(sb).schemas@, 0, guest_out_schema as int)
            && a32_tree(final(sb).arrays@, 0, guest_out_array as int) && old(heap).alloc_bytes
            + host_schema_cost(s32_view(final(sb).schemas@, guest_out_schema as int))
            + host_array_cost(a32_view(final(sb).arrays@, guest_out_array as int)) <= old(
            heap,
        ).capacity,
        r is Err && r->Err_0 == CoreError::AddressRangeViolation <==> !(schema_host_ok(
            old(sb).base as int,
            view_schema64(*s),
        ) && array_host_ok(old(sb).base as int, view_array64(*a))),
        r is Err && r->Err_0 == CoreError::MalformedStructure <==> schema_host_ok(
            old(sb).base as int,
            view_schema64(*s),
        ) && array_host_ok(old(sb).base as int, view_array64(*a)) && old(sb).alloc_bytes
            + sb_schema_cost(view_schema64(*s)) + sb_array_cost(view_array64(*a)) <= old(
            sb,
        ).capacity && !(s32_tree(final(sb).schemas@, 0, guest_out_schema as int) && a32_tree(
            final(sb).arrays@,
            0,
            guest_out_array as int,
        )),
        r is Ok ==> ({
            let out = r->Ok_0;
            &&& final(ctx).out_schema == guest_out_schema
            &&& final(ctx).out_array == guest_out_array
            &&& view_schema64(out.0) == to_host_schema(
                final(sb).base as int,
                s32_view(final(sb).schemas@, guest_out_schema as int),
            )
            &&& view_array64(out.1) == to_host_array(
                final(sb).base as int,
                a32_view(final(sb).arrays@, guest_out_array as int),
            )
            &&& schema64_all_live(out.0, final(sb).schemas@.len() as int)
            &&& array64_all_live(out.1, final(sb).arrays@.len() as int)
            &&& s32_view(final(sb).schemas@, final(ctx).in_schema as int) == to_sb_schema(
                old(sb).base as int,
                view_schema64(*s),
            )
            &&& a32_view(final(sb).arrays@, final(ctx).in_array as int) == to_sb_array(
                old(sb).base as int,
                view_array64(*a),
            )
        }),
{
    let ri = translate_in(sb, ctx, s, a);
    match ri {
        Result::Err(e) => {
            return Result::Err(e);
        },
        Result::Ok(()) => {},
    }
    // the guest transform itself runs in the collaborator; it reports the
    // output pair's handles, which are recorded in the context
    set_output(ctx, guest_out_schema, guest_out_array);
    let ro = translate_out(sb, heap, ctx);
    match ro {
        Result::Err(e) => Result::Err(e),
        Result::Ok(pair) => Result::Ok(pair),
    }
}

} // verus!
