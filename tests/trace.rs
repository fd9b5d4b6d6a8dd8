use zerogc::{
    assert_copy, derived_needs_trace, type_info, AssumeNotTraced, Gc, GcArray, GcSafe, GcString,
    GcVisitor, SimpleCollector, SimpleCollectorContext, Trace,
};

#[test]
fn derived_needs_trace_is_or_of_fields() {
    assert!(!derived_needs_trace(&vec![]));
    assert!(!derived_needs_trace(&vec![false, false]));
    assert!(derived_needs_trace(&vec![false, true, false]));
    assert!(derived_needs_trace(&vec![true]));
}

#[test]
fn composite_types_need_trace_when_a_field_does() {
    assert!(!<u64 as Trace>::needs_trace());
    assert!(<Gc as Trace>::needs_trace());
    assert!(<(u64, Gc) as Trace>::needs_trace());
    assert!(!<(u64, bool) as Trace>::needs_trace());
    assert!(<Vec<Gc> as Trace>::needs_trace());
    assert!(!<Option<u32> as Trace>::needs_trace());
    assert!(!<AssumeNotTraced<Gc> as Trace>::needs_trace());
}

#[test]
fn drop_needs_of_primitives_and_wrappers() {
    assert!(!<u64 as GcSafe>::needs_drop());
    assert!(<Vec<u8> as GcSafe>::needs_drop());
    assert!(<AssumeNotTraced<String> as GcSafe>::needs_drop());
    assert!(<AssumeNotTraced<u64> as GcSafe>::needs_drop());
    assert!(<(u64, Vec<u8>) as GcSafe>::needs_drop());
    assert!(!<(u64, Gc) as GcSafe>::needs_drop());
}

#[test]
fn type_info_follows_declared_needs() {
    let ty = type_info::<(u64, Gc)>().unwrap();
    assert!(ty.needs_trace());
    let leaf = type_info::<u64>().unwrap();
    assert!(!leaf.needs_trace());
    assert_eq!(leaf.total_size(), 24);
}

#[test]
fn visiting_a_composite_visits_its_references() {
    let mut ctx: SimpleCollectorContext<u64> = SimpleCollector::create(30).into_context();
    let a = ctx.allocate(type_info::<u64>().unwrap(), 1, vec![]).unwrap();
    let b = ctx.allocate(type_info::<u64>().unwrap(), 2, vec![]).unwrap();
    let value = (7u64, vec![a, b]);
    let mut visitor = GcVisitor::new(30);
    value.visit(&mut visitor);
    let visited = visitor.into_visited();
    assert_eq!(visited.len(), 2);
    assert_eq!((visited[0].index(), visited[1].index()), (a.index(), b.index()));
    let mut recorder = GcVisitor::recorder();
    value.visit(&mut recorder);
    assert_eq!(recorder.into_visited().len(), 2);
}

#[test]
fn assume_not_traced_wraps_value() {
    let wrapped = AssumeNotTraced::new(41u32);
    assert_eq!(*wrapped.get(), 41);
    assert_eq!(wrapped.into_inner(), 41);
    assert_copy::<u64>();
}

#[test]
fn array_accessors() {
    let array = GcArray::from_raw_ptr(3, 0x4000, vec![1u32, 2, 3]);
    assert_eq!(array.as_slice(), &[1, 2, 3]);
    assert_eq!(array.len(), 3);
    assert!(!array.is_empty());
    assert_eq!(array.collector_id(), 3);
    assert_eq!(array.as_raw_ptr(), 0x4000);
    let empty: GcArray<u8> = GcArray::from_raw_ptr(3, 0x5000, vec![]);
    assert!(empty.is_empty());
    let _repr = array.as_raw_repr();
}

#[test]
fn string_from_valid_utf8() {
    let bytes = GcArray::from_raw_ptr(1, 0x100, "héllo".as_bytes().to_vec());
    let s = GcString::from_utf8(bytes).unwrap();
    assert_eq!(s.as_str(), "héllo");
    assert_eq!(s.len(), 6);
    assert_eq!(s.as_bytes().as_slice(), "héllo".as_bytes());
}

#[test]
fn string_from_invalid_utf8_is_refused() {
    let bytes = GcArray::from_raw_ptr(1, 0x100, vec![0xffu8, 0xfe]);
    assert!(GcString::from_utf8(bytes).is_none());
}
