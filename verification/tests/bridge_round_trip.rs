use adp_core::addr::{host_addr_in_range, to32, to64};
use adp_core::host::{FFI64_ArrowArray, FFI64_ArrowSchema, ReleaseSlot};
use adp_core::sandbox::Sandbox;
use adp_core::session::{prepare_transform, set_output, translate_in, translate_out};
use adp_core::host::HostHeap;
use adp_core::types::{Pointer, Tuple, create_tuple_ptr, drop_tuple, get_first_of_tuple, get_second_of_tuple};

const BASE: u64 = 0x10_0000;

fn leaf_schema(format: u64, flags: i64) -> FFI64_ArrowSchema {
    FFI64_ArrowSchema {
        format,
        name: 0,
        metadata: 0,
        flags,
        children: Vec::new(),
        dictionary: None,
        release: ReleaseSlot::Owner,
        private_data: None,
    }
}

fn parent_schema(children: Vec<FFI64_ArrowSchema>) -> FFI64_ArrowSchema {
    FFI64_ArrowSchema {
        format: BASE + 64,
        name: BASE + 96,
        metadata: 0,
        flags: 2,
        children,
        dictionary: None,
        release: ReleaseSlot::Owner,
        private_data: None,
    }
}

fn leaf_array(length: i64, buffers: Vec<u64>) -> FFI64_ArrowArray {
    FFI64_ArrowArray {
        length,
        null_count: 0,
        offset: 0,
        buffers,
        children: Vec::new(),
        dictionary: None,
        release: ReleaseSlot::Owner,
        private_data: None,
    }
}

fn deep_schema(d: u32) -> FFI64_ArrowSchema {
    if d == 0 {
        leaf_schema(BASE + 8, 0)
    } else {
        let mut p = parent_schema(vec![deep_schema(d - 1), deep_schema(d - 1)]);
        p.flags = d as i64;
        p
    }
}

fn same_schema_shape(a: &FFI64_ArrowSchema, b: &FFI64_ArrowSchema) -> bool {
    if a.format != b.format || a.name != b.name || a.metadata != b.metadata || a.flags != b.flags {
        return false;
    }
    if a.children.len() != b.children.len() {
        return false;
    }
    for i in 0..a.children.len() {
        if !same_schema_shape(&a.children[i], &b.children[i]) {
            return false;
        }
    }
    match (&a.dictionary, &b.dictionary) {
        (None, None) => true,
        (Some(x), Some(y)) => same_schema_shape(x, y),
        _ => false,
    }
}

fn same_array_shape(a: &FFI64_ArrowArray, b: &FFI64_ArrowArray) -> bool {
    if a.length != b.length || a.null_count != b.null_count || a.offset != b.offset {
        return false;
    }
    if a.buffers != b.buffers || a.children.len() != b.children.len() {
        return false;
    }
    for i in 0..a.children.len() {
        if !same_array_shape(&a.children[i], &b.children[i]) {
            return false;
        }
    }
    match (&a.dictionary, &b.dictionary) {
        (None, None) => true,
        (Some(x), Some(y)) => same_array_shape(x, y),
        _ => false,
    }
}

#[test]
fn address_translation_round_trip() {
    // null maps to null in both directions, without arithmetic
    assert_eq!(to64(BASE, 0), 0);
    assert_eq!(to32(BASE, 0), 0);
    // offset -> address -> offset
    for off in [1u32, 7, 4096, u32::MAX] {
        let addr = to64(BASE, off);
        assert_eq!(addr, BASE + off as u64);
        assert!(host_addr_in_range(BASE, addr));
        assert_eq!(to32(BASE, addr), off);
    }
    // address -> offset -> address
    for addr in [BASE + 1, BASE + 123456, BASE + u32::MAX as u64] {
        assert!(host_addr_in_range(BASE, addr));
        let off = to32(BASE, addr);
        assert_eq!(to64(BASE, off), addr);
    }
    // below-base and overflowing addresses are out of range
    assert!(!host_addr_in_range(BASE, BASE - 1));
    assert!(!host_addr_in_range(BASE, 5));
    assert!(!host_addr_in_range(BASE, BASE));
    assert!(!host_addr_in_range(BASE, BASE + u32::MAX as u64 + 1));
}

#[test]
fn scalar_batch_scenario() {
    // a schema of 2 primitive (no-child) fields and an array with matching
    // buffers translates to a sandbox tree with the same counts, and back
    // to the original buffer addresses bit for bit
    let mut sb = Sandbox::new(BASE, 1 << 20);
    let mut ctx = prepare_transform(&sb);
    let schema = parent_schema(vec![leaf_schema(BASE + 8, 1), leaf_schema(BASE + 16, 0)]);
    let array = FFI64_ArrowArray {
        length: 5,
        null_count: 1,
        offset: 0,
        buffers: Vec::new(),
        children: vec![
            leaf_array(5, vec![BASE + 1024, BASE + 2048]),
            leaf_array(5, vec![0, BASE + 4096]),
        ],
        dictionary: None,
        release: ReleaseSlot::Owner,
        private_data: None,
    };
    translate_in(&mut sb, &mut ctx, &schema, &array).unwrap();
    let hs = ctx.in_schema as usize;
    let ha = ctx.in_array as usize;
    // sandbox-width schema: 2 children, each with no children of its own
    assert_eq!(sb.schemas[hs - 1].children.len(), 2);
    for c in sb.schemas[hs - 1].children.clone() {
        assert_eq!(sb.schemas[c as usize - 1].children.len(), 0);
    }
    // sandbox-width array: buffer counts match the source exactly
    assert_eq!(sb.arrays[ha - 1].children.len(), 2);
    let c0 = sb.arrays[ha - 1].children[0] as usize;
    let c1 = sb.arrays[ha - 1].children[1] as usize;
    assert_eq!(sb.arrays[c0 - 1].buffers.len(), 2);
    assert_eq!(sb.arrays[c1 - 1].buffers.len(), 2);
    // buffer addresses became offsets
    assert_eq!(sb.arrays[c0 - 1].buffers[0], 1024);
    assert_eq!(sb.arrays[c1 - 1].buffers[0], 0);
    // translating back restores the original pair bit for bit
    let mut heap = HostHeap::new(1 << 20);
    set_output(&mut ctx, hs as u32, ha as u32);
    let (s64, a64) = translate_out(&sb, &mut heap, &ctx).unwrap();
    assert!(same_schema_shape(&s64, &schema));
    assert!(same_array_shape(&a64, &array));
    assert_eq!(a64.children[0].buffers, vec![BASE + 1024, BASE + 2048]);
    assert_eq!(a64.children[1].buffers, vec![0, BASE + 4096]);
}

#[test]
fn nested_struct_scenario() {
    // a schema node with one struct-typed child that itself has two
    // children round-trips with the same parent/child wiring
    let mut sb = Sandbox::new(BASE, 1 << 20);
    let mut ctx = prepare_transform(&sb);
    let inner = parent_schema(vec![leaf_schema(BASE + 8, 0), leaf_schema(BASE + 16, 0)]);
    let schema = parent_schema(vec![inner]);
    let array = leaf_array(0, Vec::new());
    translate_in(&mut sb, &mut ctx, &schema, &array).unwrap();
    let hs = ctx.in_schema;
    // three non-root schema nodes were materialised
    assert_eq!(sb.schemas.len(), 4);
    assert_eq!(sb.schemas[hs as usize - 1].children.len(), 1);
    let mid = sb.schemas[hs as usize - 1].children[0] as usize;
    assert_eq!(sb.schemas[mid - 1].children.len(), 2);
    let mut heap = HostHeap::new(1 << 20);
    let (ihs, iha) = (ctx.in_schema, ctx.in_array);
    set_output(&mut ctx, ihs, iha);
    let (s64, _a64) = translate_out(&sb, &mut heap, &ctx).unwrap();
    assert!(same_schema_shape(&s64, &schema));
    assert_eq!(s64.children.len(), 1);
    assert_eq!(s64.children[0].children.len(), 2);
}

#[test]
fn dictionary_nodes_round_trip() {
    // dictionary nodes follow the same recursive rule as children
    let mut sb = Sandbox::new(BASE, 1 << 20);
    let mut ctx = prepare_transform(&sb);
    let mut schema = leaf_schema(BASE + 8, 3);
    schema.dictionary = Some(Box::new(leaf_schema(BASE + 32, 7)));
    let array = leaf_array(2, vec![BASE + 64]);
    translate_in(&mut sb, &mut ctx, &schema, &array).unwrap();
    let hs = ctx.in_schema as usize;
    assert!(sb.schemas[hs - 1].dictionary != 0);
    let mut heap = HostHeap::new(1 << 20);
    let (ihs, iha) = (ctx.in_schema, ctx.in_array);
    set_output(&mut ctx, ihs, iha);
    let (s64, _) = translate_out(&sb, &mut heap, &ctx).unwrap();
    assert!(same_schema_shape(&s64, &schema));
}

#[test]
fn empty_trees_translate() {
    // zero-child, zero-buffer leaves are fine at depth 0
    let mut sb = Sandbox::new(BASE, 1 << 20);
    let mut ctx = prepare_transform(&sb);
    let schema = FFI64_ArrowSchema::new();
    let array = FFI64_ArrowArray::empty();
    translate_in(&mut sb, &mut ctx, &schema, &array).unwrap();
    assert_eq!(sb.schemas[ctx.in_schema as usize - 1].children.len(), 0);
    assert_eq!(sb.arrays[ctx.in_array as usize - 1].buffers.len(), 0);
}

#[test]
fn deep_tree_round_trips() {
    // depth five, branching factor shrinking to zero at the leaves
    let mut sb = Sandbox::new(BASE, 1 << 22);
    let mut ctx = prepare_transform(&sb);
    let node = deep_schema(5);
    let array = leaf_array(1, Vec::new());
    translate_in(&mut sb, &mut ctx, &node, &array).unwrap();
    let mut heap = HostHeap::new(1 << 22);
    let (ihs, iha) = (ctx.in_schema, ctx.in_array);
    set_output(&mut ctx, ihs, iha);
    let (s64, _) = translate_out(&sb, &mut heap, &ctx).unwrap();
    assert!(same_schema_shape(&s64, &node));
}

#[test]
fn pointer_and_tuple_helpers() {
    let p = Pointer::new(41u32);
    assert_eq!(*p.borrow(), 41);
    assert_eq!(p.take(), 41);
    let t = create_tuple_ptr(7, 9);
    assert_eq!(get_first_of_tuple(&t), 7);
    assert_eq!(get_second_of_tuple(&t), 9);
    assert_eq!(t, Tuple(7, 9));
    drop_tuple(t);
}
