use adp_core::CoreError;
use adp_core::host::{FFI64_ArrowArray, FFI64_ArrowSchema, HostHeap, ReleaseSlot, allocate_buffer, deallocate_buffer};
use adp_core::release::{ReleaseHandoff, release_exported_array, release_exported_schema};
use adp_core::sandbox::{NodeKind, Sandbox};
use adp_core::session::{finalize_tansform, prepare_transform, set_output, translate_in, translate_out};

const BASE: u64 = 0x10_0000;

fn plain_schema(children: Vec<FFI64_ArrowSchema>) -> FFI64_ArrowSchema {
    FFI64_ArrowSchema {
        format: BASE + 8,
        name: 0,
        metadata: 0,
        flags: 0,
        children,
        dictionary: None,
        release: ReleaseSlot::Owner,
        private_data: None,
    }
}

fn plain_array(children: Vec<FFI64_ArrowArray>, buffers: Vec<u64>) -> FFI64_ArrowArray {
    FFI64_ArrowArray {
        length: 3,
        null_count: 0,
        offset: 0,
        buffers,
        children,
        dictionary: None,
        release: ReleaseSlot::Owner,
        private_data: None,
    }
}

#[test]
fn no_leak_after_release() {
    // every byte the translation allocated comes back with one release
    let mut sb = Sandbox::new(BASE, 1 << 20);
    let mut ctx = prepare_transform(&sb);
    let before = sb.outstanding_bytes();
    let schema = plain_schema(vec![plain_schema(Vec::new()), plain_schema(Vec::new())]);
    let array = plain_array(vec![plain_array(Vec::new(), vec![BASE + 512])], Vec::new());
    translate_in(&mut sb, &mut ctx, &schema, &array).unwrap();
    assert!(sb.outstanding_bytes() > before);
    let handoff = ReleaseHandoff { schema32: ctx.in_schema, array32: ctx.in_array };
    let schema_back = release_exported_schema(&mut sb, &handoff, schema, 0);
    let _array_back = release_exported_array(&mut sb, &handoff, array, 0);
    assert_eq!(sb.outstanding_bytes(), before);
    // the host-width original was released through its own callback
    assert!(matches!(schema_back.release, ReleaseSlot::Empty));
}

#[test]
fn release_is_idempotent() {
    // the second release of the same logical node deallocates nothing
    let mut sb = Sandbox::new(BASE, 1 << 20);
    let mut ctx = prepare_transform(&sb);
    let schema = plain_schema(vec![plain_schema(Vec::new())]);
    let array = plain_array(Vec::new(), Vec::new());
    translate_in(&mut sb, &mut ctx, &schema, &array).unwrap();
    let handoff = ReleaseHandoff { schema32: ctx.in_schema, array32: ctx.in_array };
    let schema1 = release_exported_schema(&mut sb, &handoff, schema, 0);
    let outstanding_after_first = sb.outstanding_bytes();
    let log_len_after_first = sb.release_log.len();
    let schema2 = release_exported_schema(&mut sb, &handoff, schema1, 0);
    assert_eq!(sb.outstanding_bytes(), outstanding_after_first);
    assert_eq!(sb.release_log.len(), log_len_after_first);
    assert!(matches!(schema2.release, ReleaseSlot::Empty));
}

#[test]
fn release_ordering_three_levels() {
    // releasing a 3-level-deep tree's root: the leaf's teardown is observed
    // before its parent's, and the parent's before the root's
    let mut sb = Sandbox::new(BASE, 1 << 20);
    let mut ctx = prepare_transform(&sb);
    let leaf = plain_schema(Vec::new());
    let mid = plain_schema(vec![leaf]);
    let root = plain_schema(vec![mid]);
    let array = plain_array(Vec::new(), Vec::new());
    translate_in(&mut sb, &mut ctx, &root, &array).unwrap();
    let root_h = ctx.in_schema;
    let mid_h = sb.schemas[root_h as usize - 1].children[0];
    let leaf_h = sb.schemas[mid_h as usize - 1].children[0];
    let handoff = ReleaseHandoff { schema32: root_h, array32: ctx.in_array };
    release_exported_schema(&mut sb, &handoff, root, 0);
    let order: Vec<u32> = sb
        .release_log
        .iter()
        .filter(|e| matches!(e.kind, NodeKind::Schema))
        .map(|e| e.handle)
        .collect();
    let pos = |h: u32| order.iter().position(|&x| x == h).unwrap();
    assert!(pos(leaf_h) < pos(mid_h));
    assert!(pos(mid_h) < pos(root_h));
}

#[test]
fn finalize_restores_host_outstanding() {
    // the sandbox-to-host direction: translating the guest's output pair
    // out and finalizing returns every host byte the translation took
    let mut sb = Sandbox::new(BASE, 1 << 20);
    // fabricate a guest-built output pair: one schema with a child, one array
    let s_child = sb.guest_schema_node(8, 0, 0, 0, Vec::new(), 0).unwrap();
    let s_root = sb.guest_schema_node(16, 24, 0, 1, vec![s_child], 0).unwrap();
    let a_root = sb.guest_array_node(4, 0, 0, vec![256, 0], Vec::new(), 0).unwrap();
    let mut ctx = prepare_transform(&sb);
    set_output(&mut ctx, s_root, a_root);
    let mut heap = HostHeap::new(1 << 20);
    let before = heap.outstanding_bytes();
    let (s64, a64) = translate_out(&sb, &mut heap, &ctx).unwrap();
    assert!(heap.outstanding_bytes() > before);
    assert_eq!(s64.children.len(), 1);
    assert_eq!(a64.buffers, vec![BASE + 256, 0]);
    let (s_done, a_done) = finalize_tansform(&mut sb, &mut heap, s64, a64);
    assert_eq!(heap.outstanding_bytes(), before);
    assert!(matches!(s_done.release, ReleaseSlot::Empty));
    assert!(matches!(a_done.release, ReleaseSlot::Empty));
    // the guest's own release emptied the paired sandbox slots
    assert!(matches!(sb.schemas[s_root as usize - 1].release, ReleaseSlot::Empty));
    assert!(matches!(sb.arrays[a_root as usize - 1].release, ReleaseSlot::Empty));
    // finalizing again performs no further deallocation
    let d0 = heap.outstanding_bytes();
    let _ = finalize_tansform(&mut sb, &mut heap, s_done, a_done);
    assert_eq!(heap.outstanding_bytes(), d0);
}

#[test]
fn address_range_violation_is_rejected() {
    // a host address below the sandbox base cannot be narrowed
    let mut sb = Sandbox::new(BASE, 1 << 20);
    let mut ctx = prepare_transform(&sb);
    let mut schema = plain_schema(Vec::new());
    schema.format = 5;
    let array = plain_array(Vec::new(), Vec::new());
    let r = translate_in(&mut sb, &mut ctx, &schema, &array);
    assert_eq!(r, Err(CoreError::AddressRangeViolation));
    // a buffer address below the base is rejected too
    let schema2 = plain_schema(Vec::new());
    let array2 = plain_array(Vec::new(), vec![17]);
    let r2 = translate_in(&mut sb, &mut ctx, &schema2, &array2);
    assert_eq!(r2, Err(CoreError::AddressRangeViolation));
}

#[test]
fn allocation_failure_when_arena_full() {
    // the guest arena is exhausted: the translation aborts hard
    let mut sb = Sandbox::new(BASE, 16);
    let mut ctx = prepare_transform(&sb);
    let schema = plain_schema(Vec::new());
    let array = plain_array(Vec::new(), Vec::new());
    let r = translate_in(&mut sb, &mut ctx, &schema, &array);
    assert_eq!(r, Err(CoreError::AllocationFailure));
}

#[test]
fn malformed_structure_is_rejected() {
    // a guest output whose child link points forward cannot be walked
    let mut sb = Sandbox::new(BASE, 1 << 20);
    let bad = sb.guest_schema_node(8, 0, 0, 0, vec![2], 0).unwrap();
    let ok_array = sb.guest_array_node(0, 0, 0, Vec::new(), Vec::new(), 0).unwrap();
    let mut ctx = prepare_transform(&sb);
    set_output(&mut ctx, bad, ok_array);
    let mut heap = HostHeap::new(1 << 20);
    let r = translate_out(&sb, &mut heap, &ctx);
    assert_eq!(r.err(), Some(CoreError::MalformedStructure));
    // a self-referential child link is rejected the same way
    let selfy = sb.guest_schema_node(8, 0, 0, 0, vec![2], 0).unwrap();
    assert_eq!(selfy, 2);
    set_output(&mut ctx, selfy, ok_array);
    let r2 = translate_out(&sb, &mut heap, &ctx);
    assert_eq!(r2.err(), Some(CoreError::MalformedStructure));
}

#[test]
fn guest_allocator_accounting() {
    // allocate and deallocate move the outstanding counter exactly
    let mut sb = Sandbox::new(BASE, 4096);
    let off = sb.allocate_buffer(100).unwrap();
    assert!(off != 0);
    assert_eq!(sb.outstanding_bytes(), 100);
    sb.deallocate_buffer(off, 100);
    assert_eq!(sb.outstanding_bytes(), 0);
    // exhaustion fails exactly at the capacity
    assert!(sb.allocate_buffer(3996).is_some());
    assert!(sb.allocate_buffer(1).is_none());
    // the empty-node guest exports allocate the node's own storage
    let h = sb.new_ffi_schema();
    assert!(h.is_none());
    let mut sb2 = Sandbox::new(BASE, 4096);
    let h2 = sb2.new_ffi_schema().unwrap();
    assert_eq!(h2, 1);
    let h3 = sb2.new_ffi_array().unwrap();
    assert_eq!(h3, 1);
}

#[test]
fn host_allocator_accounting() {
    let mut heap = HostHeap::new(1000);
    let a = allocate_buffer(&mut heap, 400).unwrap();
    assert!(a != 0);
    let b = allocate_buffer(&mut heap, 600).unwrap();
    assert!(b != 0);
    assert!(allocate_buffer(&mut heap, 1).is_none());
    assert_eq!(heap.outstanding_bytes(), 1000);
    deallocate_buffer(&mut heap, a, 400);
    deallocate_buffer(&mut heap, b, 600);
    assert_eq!(heap.outstanding_bytes(), 0);
}
