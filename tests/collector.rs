use std::cell::Cell;
use std::rc::Rc;

use zerogc::{
    Gc, GcError, GcType, GcVisitor, SimpleCollector, SimpleCollectorContext,
    INITIAL_COLLECTION_THRESHOLD,
};

fn context<V>(id: u64) -> SimpleCollectorContext<V> {
    SimpleCollector::<V>::create(id).into_context()
}

fn leaf_type() -> GcType {
    GcType::new(8, 8, false, false)
}

fn node_type() -> GcType {
    GcType::new(8, 8, true, false)
}

struct Counted {
    drops: Rc<Cell<usize>>,
}

impl Drop for Counted {
    fn drop(&mut self) {
        self.drops.set(self.drops.get() + 1);
    }
}

fn build_tree(ctx: &mut SimpleCollectorContext<u64>, depth: u32, item: u64) -> Gc {
    if depth == 0 {
        ctx.allocate(node_type(), item, vec![]).unwrap()
    } else {
        let left = build_tree(ctx, depth - 1, 2 * item);
        let right = build_tree(ctx, depth - 1, 2 * item + 1);
        ctx.allocate(node_type(), item, vec![left, right]).unwrap()
    }
}

fn count_nodes(ctx: &SimpleCollectorContext<u64>, node: &Gc) -> usize {
    let mut total = 1;
    for child in ctx.fields_of(node).unwrap() {
        total += count_nodes(ctx, &child);
    }
    total
}

fn item_check(ctx: &SimpleCollectorContext<u64>, node: &Gc) -> i64 {
    let item = *ctx.get(node).unwrap() as i64;
    let children = ctx.fields_of(node).unwrap();
    if children.is_empty() {
        item
    } else {
        item + item_check(ctx, &children[0]) - item_check(ctx, &children[1])
    }
}

#[test]
fn thousand_leaves_without_roots_are_reclaimed() {
    let mut ctx = context::<u64>(1);
    for i in 0..1000u64 {
        ctx.allocate(leaf_type(), i, vec![]).unwrap();
    }
    assert_eq!(ctx.live_bytes(), 1000 * 24);
    let root = ctx.safepoint(vec![]).unwrap();
    assert!(root.is_empty());
    assert_eq!(ctx.live_bytes(), 0);
    assert_eq!(ctx.threshold(), 0);
}

#[test]
fn binary_tree_survives_safepoint() {
    let mut ctx = context::<u64>(2);
    let tree = build_tree(&mut ctx, 10, 1);
    let before = item_check(&ctx, &tree);
    assert_eq!(count_nodes(&ctx, &tree), 2047);
    let garbage = build_tree(&mut ctx, 4, 1);
    assert_eq!(count_nodes(&ctx, &garbage), 31);
    let bytes_before = ctx.live_bytes();
    let root = ctx.safepoint(vec![tree]).unwrap();
    let tree = root[0];
    assert_eq!(count_nodes(&ctx, &tree), (1 << 11) - 1);
    assert_eq!(item_check(&ctx, &tree), before);
    assert_eq!(ctx.live_bytes(), bytes_before - 31 * 24);
    assert_eq!(ctx.live_bytes(), 2047 * 24);
}

#[test]
fn unreachable_destructor_runs_once() {
    let drops = Rc::new(Cell::new(0));
    let mut ctx = context::<Counted>(3);
    let big = GcType::new(4096, 8, false, true);
    ctx.allocate(big, Counted { drops: drops.clone() }, vec![]).unwrap();
    assert_eq!(drops.get(), 0);
    ctx.safepoint(vec![]).unwrap();
    assert_eq!(drops.get(), 1);
    ctx.safepoint(vec![]).unwrap();
    assert_eq!(drops.get(), 1);
}

#[test]
fn surviving_object_is_not_dropped() {
    let drops = Rc::new(Cell::new(0));
    let mut ctx = context::<Counted>(4);
    let big = GcType::new(4096, 8, false, true);
    let kept = ctx.allocate(big, Counted { drops: drops.clone() }, vec![]).unwrap();
    ctx.allocate(big, Counted { drops: drops.clone() }, vec![]).unwrap();
    let token = ctx.enter_context(vec![kept]).unwrap();
    assert_eq!(ctx.stack_depth(), 1);
    let dropped = ctx.perform_collection();
    assert_eq!(dropped.len(), 1);
    assert_ne!(dropped[0], kept.index());
    assert_eq!(drops.get(), 1);
    let root = ctx.exit_context(token).unwrap();
    assert_eq!(ctx.stack_depth(), 0);
    assert!(ctx.is_valid(&root[0]));
    assert_eq!(drops.get(), 1);
}

#[test]
fn nested_context_result_survives_outer_safepoint() {
    let mut ctx = context::<u64>(5);
    let big = GcType::new(4096, 8, false, false);
    let a = ctx.allocate(big, 1, vec![]).unwrap();
    let token = ctx.enter_context(vec![]).unwrap();
    let b = ctx.allocate(leaf_type(), 2, vec![]).unwrap();
    let root = ctx.exit_context(token).unwrap();
    assert!(root.is_empty());
    assert_eq!(ctx.get(&b), Some(&2));
    let kept = ctx.safepoint(vec![b]).unwrap();
    let b2 = kept[0];
    assert_eq!(ctx.get(&b2), Some(&2));
    assert_eq!(ctx.get(&a), None);
    assert_eq!(ctx.get(&b), None);
    assert_eq!(ctx.live_bytes(), 24);
}

#[test]
fn threshold_grows_to_one_and_a_half_surviving() {
    let mut ctx = context::<u64>(6);
    assert_eq!(ctx.threshold(), INITIAL_COLLECTION_THRESHOLD);
    assert_eq!(ctx.threshold(), 2048);
    let ty = GcType::new(9976, 8, false, false);
    assert_eq!(ty.total_size(), 10_000);
    let obj = ctx.allocate(ty, 7, vec![]).unwrap();
    ctx.safepoint(vec![obj]).unwrap();
    assert_eq!(ctx.live_bytes(), 10_000);
    assert_eq!(ctx.threshold(), 15_000);
}

#[test]
fn large_object_listed_then_reclaimed() {
    let drops = Rc::new(Cell::new(0));
    let mut ctx = context::<Counted>(7);
    let big = GcType::new(4096, 8, false, true);
    assert!(!big.is_small());
    let obj = ctx.allocate(big, Counted { drops: drops.clone() }, vec![]).unwrap();
    assert!(ctx.in_large_list(&obj));
    assert_eq!(ctx.large_object_count(), 1);
    ctx.safepoint(vec![]).unwrap();
    assert_eq!(ctx.large_object_count(), 0);
    assert!(!ctx.in_large_list(&obj));
    assert_eq!(drops.get(), 1);
}

#[test]
fn visitor_records_references_of_its_collector() {
    let mut a = context::<u64>(10);
    let mut b = context::<u64>(11);
    let gc = a.allocate(leaf_type(), 5, vec![]).unwrap();
    let foreign = b.allocate(leaf_type(), 6, vec![]).unwrap();
    let mut own = GcVisitor::new(a.collector_id());
    own.visit_gc(&gc);
    let visited = own.into_visited();
    assert_eq!(visited.len(), 1);
    assert_eq!(visited[0].index(), gc.index());
    let mut recorder = GcVisitor::recorder();
    recorder.visit_gc(&gc);
    recorder.visit_gc(&foreign);
    let recorded = recorder.into_visited();
    assert_eq!(recorded.len(), 2);
    assert_eq!(recorded[1].collector_id(), 11);
}

#[test]
fn foreign_references_are_refused() {
    let mut a = context::<u64>(12);
    let mut b = context::<u64>(13);
    let gc = a.allocate(leaf_type(), 5, vec![]).unwrap();
    assert_eq!(b.allocate(node_type(), 1, vec![gc]).err(), Some(GcError::WrongCollector));
    assert_eq!(b.safepoint(vec![gc]).err(), Some(GcError::WrongCollector));
    assert_eq!(b.enter_context(vec![gc]).err(), Some(GcError::WrongCollector));
    assert_eq!(b.live_bytes(), 0);
}

#[test]
fn stale_reference_is_refused() {
    let mut ctx = context::<u64>(14);
    let old = ctx.allocate(leaf_type(), 5, vec![]).unwrap();
    let kept = ctx.safepoint(vec![old]).unwrap();
    assert!(!ctx.is_valid(&old));
    assert!(ctx.is_valid(&kept[0]));
    assert_eq!(kept[0].epoch(), ctx.epoch());
    assert_eq!(ctx.allocate(node_type(), 1, vec![old]).err(), Some(GcError::InvalidReference));
    assert_eq!(ctx.safepoint(vec![old]).err(), Some(GcError::InvalidReference));
}

#[test]
fn untraced_type_with_fields_is_refused() {
    let mut ctx = context::<u64>(15);
    let child = ctx.allocate(leaf_type(), 5, vec![]).unwrap();
    assert_eq!(ctx.allocate(leaf_type(), 1, vec![child]).err(), Some(GcError::UntracedReference));
}

#[test]
fn allocation_beyond_heap_limit_is_refused() {
    let mut ctx = context::<u64>(16);
    let huge = GcType::new(usize::MAX / 8, 8, false, false);
    ctx.allocate(huge, 0, vec![]).unwrap();
    assert_eq!(ctx.allocate(huge, 0, vec![]).err(), Some(GcError::OutOfMemory));
    assert_eq!(ctx.live_bytes(), huge.total_size());
}

#[test]
fn live_bytes_are_those_of_reachable_objects() {
    let mut ctx = context::<u64>(17);
    let leaf = ctx.allocate(leaf_type(), 1, vec![]).unwrap();
    let node = ctx.allocate(node_type(), 2, vec![leaf]).unwrap();
    let big = GcType::new(4000, 8, false, false);
    ctx.allocate(big, 3, vec![]).unwrap();
    ctx.allocate(leaf_type(), 4, vec![]).unwrap();
    let root = ctx.safepoint(vec![node]).unwrap();
    assert_eq!(ctx.live_bytes(), 48);
    let children = ctx.fields_of(&root[0]).unwrap();
    assert_eq!(ctx.get(&children[0]), Some(&1));
}

#[test]
fn collection_without_roots_frees_everything() {
    let mut ctx = context::<u64>(18);
    let leaf = ctx.allocate(leaf_type(), 1, vec![]).unwrap();
    ctx.allocate(node_type(), 2, vec![leaf]).unwrap();
    let dropped = ctx.perform_collection();
    assert!(dropped.is_empty());
    assert_eq!(ctx.live_bytes(), 0);
    assert_eq!(ctx.threshold(), 0);
}

#[test]
fn root_keeps_its_address() {
    let mut ctx = context::<u64>(19);
    let keep = ctx.allocate(leaf_type(), 1, vec![]).unwrap();
    for i in 0..200u64 {
        ctx.allocate(leaf_type(), i, vec![]).unwrap();
    }
    let kept = ctx.safepoint(vec![keep]).unwrap();
    assert_eq!(kept[0].address(), keep.address());
    assert_eq!(ctx.get(&kept[0]), Some(&1));
}

#[test]
fn header_precedes_payload_by_value_offset() {
    let mut ctx = context::<u64>(20);
    let small = ctx.allocate(leaf_type(), 1, vec![]).unwrap();
    let big_type = GcType::new(4096, 64, false, false);
    let big = ctx.allocate(big_type, 2, vec![]).unwrap();
    let h = ctx.header_address(&small).unwrap();
    assert_eq!(h + leaf_type().value_offset() as u64, small.address());
    assert_eq!(leaf_type().value_offset(), 16);
    let h2 = ctx.header_address(&big).unwrap();
    assert_eq!(h2 + big_type.value_offset() as u64, big.address());
    assert_eq!(big_type.value_offset(), 64);
}

#[test]
fn freed_small_slot_is_reused() {
    let mut ctx = context::<u64>(21);
    let first = ctx.allocate(leaf_type(), 1, vec![]).unwrap();
    let first_address = first.address();
    ctx.perform_collection();
    let second = ctx.allocate(leaf_type(), 2, vec![]).unwrap();
    assert_eq!(second.address(), first_address);
    assert_eq!(second.index(), first.index());
    assert!(!ctx.is_valid(&first));
    assert_eq!(ctx.get(&second), Some(&2));
}

#[test]
fn safepoint_below_threshold_keeps_garbage() {
    let mut ctx = context::<u64>(22);
    let a = ctx.allocate(leaf_type(), 1, vec![]).unwrap();
    ctx.safepoint(vec![]).unwrap();
    assert_eq!(ctx.live_bytes(), 24);
    assert!(!ctx.is_valid(&a));
}

#[test]
fn shared_children_are_collected_when_unreachable() {
    let mut ctx = context::<u64>(23);
    let a = ctx.allocate(node_type(), 1, vec![]).unwrap();
    let b = ctx.allocate(node_type(), 2, vec![a, a]).unwrap();
    let c = ctx.allocate(node_type(), 3, vec![b, a]).unwrap();
    let root = ctx.safepoint(vec![]).unwrap();
    assert!(root.is_empty());
    ctx.perform_collection();
    assert_eq!(ctx.live_bytes(), 0);
    assert!(!ctx.is_valid(&c));
}

#[test]
fn shadow_stack_pops_in_push_order() {
    let mut ctx = context::<u64>(24);
    let a = ctx.allocate(leaf_type(), 1, vec![]).unwrap();
    let mut stack = zerogc::ShadowStack::new();
    assert_eq!(stack.len(), 0);
    let t0 = stack.push(vec![a]);
    let t1 = stack.push(vec![]);
    assert_eq!((t0, t1), (0, 1));
    let (p1, r1) = stack.pop().unwrap();
    assert_eq!(p1, t1);
    assert!(r1.is_empty());
    let (p0, r0) = stack.pop().unwrap();
    assert_eq!(p0, t0);
    assert_eq!(r0[0].index(), a.index());
    assert!(stack.pop().is_none());
}

#[test]
fn contexts_must_be_left_innermost_first() {
    let mut ctx = context::<u64>(25);
    let a = ctx.allocate(leaf_type(), 1, vec![]).unwrap();
    let outer = ctx.enter_context(vec![a]).unwrap();
    let inner = ctx.enter_context(vec![]).unwrap();
    assert_eq!(ctx.stack_depth(), 2);
    assert_eq!(ctx.exit_context(outer).err(), Some(GcError::ShadowStackMismatch));
    assert_eq!(ctx.stack_depth(), 2);
    assert!(ctx.exit_context(inner).unwrap().is_empty());
    let root = ctx.exit_context(outer).unwrap();
    assert_eq!(root[0].address(), a.address());
    assert_eq!(ctx.exit_context(outer).err(), Some(GcError::ShadowStackMismatch));
    assert_eq!(ctx.stack_depth(), 0);
}

#[test]
fn roots_of_outer_context_survive_inner_safepoint() {
    let mut ctx = context::<u64>(26);
    let big = GcType::new(4096, 8, false, false);
    let a = ctx.allocate(leaf_type(), 1, vec![]).unwrap();
    let token = ctx.enter_context(vec![a]).unwrap();
    ctx.allocate(big, 2, vec![]).unwrap();
    ctx.safepoint(vec![]).unwrap();
    assert_eq!(ctx.live_bytes(), 24);
    assert!(!ctx.is_valid(&a));
    let root = ctx.exit_context(token).unwrap();
    assert_eq!(ctx.get(&root[0]), Some(&1));
}

type Node = (u64, Vec<Gc>);

fn build_traced_tree(ctx: &mut SimpleCollectorContext<Node>, depth: u32) -> Gc {
    if depth == 0 {
        ctx.alloc_value((1, vec![])).unwrap()
    } else {
        let left = build_traced_tree(ctx, depth - 1);
        let right = build_traced_tree(ctx, depth - 1);
        ctx.alloc_value((1, vec![left, right])).unwrap()
    }
}

fn count_traced(ctx: &SimpleCollectorContext<Node>, node: &Gc) -> u64 {
    let value = ctx.get(node).unwrap();
    let mut total = value.0;
    for child in ctx.fields_of(node).unwrap() {
        total += count_traced(ctx, &child);
    }
    total
}

#[test]
fn traced_values_without_roots_are_all_dropped() {
    let mut ctx = context::<Node>(27);
    let tree = build_traced_tree(&mut ctx, 6);
    build_traced_tree(&mut ctx, 5);
    assert_eq!(count_traced(&ctx, &tree), 127);
    let node_size = ctx.live_bytes() / (127 + 63);
    assert_eq!(ctx.live_bytes(), node_size * 190);
    let dropped = ctx.perform_collection();
    assert_eq!(dropped.len(), 190);
    assert!(dropped.contains(&tree.index()));
    assert_eq!(ctx.live_bytes(), 0);
}

#[test]
fn traced_tree_survives_safepoint_as_root() {
    let mut ctx = context::<Node>(28);
    let tree = build_traced_tree(&mut ctx, 6);
    build_traced_tree(&mut ctx, 5);
    let before = ctx.live_bytes();
    let root = ctx.safepoint(vec![tree]).unwrap();
    assert_eq!(count_traced(&ctx, &root[0]), 127);
    assert_eq!(ctx.live_bytes(), before / 190 * 127);
}

#[test]
fn traced_value_with_foreign_reference_is_refused() {
    let mut a = context::<Node>(29);
    let mut b = context::<Node>(30);
    let foreign = a.alloc_value((1, vec![])).unwrap();
    assert_eq!(b.alloc_value((2, vec![foreign])).err(), Some(GcError::WrongCollector));
    let own = b.alloc_value((3, vec![])).unwrap();
    b.safepoint(vec![]).unwrap();
    assert_eq!(b.alloc_value((4, vec![own])).err(), Some(GcError::InvalidReference));
}

#[test]
fn unreachable_cycle_is_reclaimed() {
    let mut ctx = context::<u64>(31);
    let a = ctx.allocate(node_type(), 1, vec![]).unwrap();
    let b = ctx.allocate(node_type(), 2, vec![a]).unwrap();
    let a = ctx.allocate(node_type(), 3, vec![b]).unwrap();
    ctx.set_field(&b, 0, &a).unwrap();
    assert_eq!(ctx.fields_of(&b).unwrap()[0].index(), a.index());
    let keep = ctx.allocate(leaf_type(), 4, vec![]).unwrap();
    let token = ctx.enter_context(vec![keep]).unwrap();
    ctx.perform_collection();
    assert_eq!(ctx.live_bytes(), 24);
    let root = ctx.exit_context(token).unwrap();
    assert_eq!(ctx.get(&root[0]), Some(&4));
}

#[test]
fn reachable_cycle_survives() {
    let mut ctx = context::<u64>(32);
    let first = ctx.allocate(node_type(), 1, vec![]).unwrap();
    let second = ctx.allocate(node_type(), 2, vec![first]).unwrap();
    let head = ctx.allocate(node_type(), 3, vec![second]).unwrap();
    ctx.set_field(&second, 0, &head).unwrap();
    ctx.allocate(GcType::new(4096, 8, false, false), 0, vec![]).unwrap();
    let root = ctx.safepoint(vec![second]).unwrap();
    assert_eq!(ctx.live_bytes(), 48);
    let next = ctx.fields_of(&root[0]).unwrap();
    assert_eq!(ctx.get(&next[0]), Some(&3));
    let back = ctx.fields_of(&next[0]).unwrap();
    assert_eq!(back[0].address(), second.address());
}

#[test]
fn set_field_checks_its_arguments() {
    let mut ctx = context::<u64>(33);
    let mut other = context::<u64>(34);
    let leaf = ctx.allocate(leaf_type(), 1, vec![]).unwrap();
    let node = ctx.allocate(node_type(), 2, vec![leaf]).unwrap();
    let foreign = other.allocate(leaf_type(), 3, vec![]).unwrap();
    assert_eq!(ctx.set_field(&node, 1, &leaf).err(), Some(GcError::NoSuchField));
    assert_eq!(ctx.set_field(&leaf, 0, &node).err(), Some(GcError::NoSuchField));
    assert_eq!(ctx.set_field(&node, 0, &foreign).err(), Some(GcError::WrongCollector));
    ctx.set_field(&node, 0, &node).unwrap();
    assert_eq!(ctx.fields_of(&node).unwrap()[0].index(), node.index());
    ctx.safepoint(vec![]).unwrap();
    assert_eq!(ctx.set_field(&node, 0, &node).err(), Some(GcError::InvalidReference));
}

#[test]
fn references_compare_by_payload() {
    let mut ctx = context::<u64>(35);
    let a = ctx.allocate(leaf_type(), 7, vec![]).unwrap();
    let b = ctx.allocate(leaf_type(), 7, vec![]).unwrap();
    let c = ctx.allocate(leaf_type(), 8, vec![]).unwrap();
    assert_ne!(a.address(), b.address());
    assert_eq!(ctx.payload_eq(&a, &b), Some(true));
    assert_eq!(ctx.payload_eq(&a, &c), Some(false));
    ctx.safepoint(vec![]).unwrap();
    assert_eq!(ctx.payload_eq(&a, &b), None);
}

#[test]
fn live_payload_addresses_are_distinct() {
    let mut ctx = context::<u64>(36);
    let mut seen = Vec::new();
    for i in 0..50u64 {
        let ty = if i % 5 == 0 { GcType::new(300, 8, false, false) } else { leaf_type() };
        let gc = ctx.allocate(ty, i, vec![]).unwrap();
        assert!(!seen.contains(&gc.address()));
        seen.push(gc.address());
    }
}
