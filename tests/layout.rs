use zerogc::{
    find_class, is_small_layout, is_small_object, padding_needed_for, size_class,
    small_layout_size, small_object_size, GcHeader, GcType, MarkState, SmallArenaList,
};

#[test]
fn padding_reaches_alignment() {
    assert_eq!(padding_needed_for(16, 8), 0);
    assert_eq!(padding_needed_for(17, 8), 7);
    assert_eq!(padding_needed_for(24, 64), 40);
    assert_eq!(padding_needed_for(0, 1), 0);
}

#[test]
fn small_objects_fit_the_largest_class() {
    assert!(is_small_object::<u64>());
    assert_eq!(small_object_size::<u64>(), 24);
    assert!(is_small_layout(112, 8));
    assert!(!is_small_layout(113, 8));
    assert_eq!(small_layout_size(8, 32), 40);
    assert!(!is_small_object::<[u8; 200]>());
}

#[test]
fn size_classes_grow() {
    assert_eq!(size_class(0), 16);
    assert_eq!(size_class(7), 128);
    assert_eq!(find_class(24), Some(1));
    assert_eq!(find_class(25), Some(2));
    assert_eq!(find_class(1), Some(0));
    assert_eq!(find_class(128), Some(7));
    assert_eq!(find_class(129), None);
}

#[test]
fn arena_list_finds_class_of_small_types() {
    let arenas = SmallArenaList::new();
    assert_eq!(arenas.find(&GcType::new(8, 8, false, false)), Some(1));
    assert_eq!(arenas.find(&GcType::new(40, 8, false, false)), Some(4));
    assert_eq!(arenas.find(&GcType::new(4096, 8, false, false)), None);
}

#[test]
fn type_descriptor_offsets_and_sizes() {
    let small = GcType::new(8, 8, true, false);
    assert!(small.is_small());
    assert_eq!(small.value_offset(), 16);
    assert_eq!(small.total_size(), 24);
    assert!(small.needs_trace());
    assert!(!small.needs_drop());
    let large = GcType::new(1000, 16, false, true);
    assert!(!large.is_small());
    assert_eq!(large.value_offset(), 32);
    assert_eq!(large.total_size(), 1032);
    assert_eq!(large.value_size(), 1000);
    let of = GcType::of::<u32>(false, false).unwrap();
    assert_eq!(of.value_size(), 4);
    assert_eq!(of.total_size(), 20);
}

#[test]
fn header_and_payload_addresses_invert() {
    let ty = GcType::new(8, 8, false, false);
    let header = GcHeader { type_info: ty, state: MarkState::White };
    let payload = header.value(0x2000);
    assert_eq!(payload, 0x2010);
    assert_eq!(GcHeader::from_value_ptr(&ty, payload), 0x2000);
}

#[test]
fn large_array_type_has_a_descriptor() {
    let ty = GcType::of::<[u8; 0x1000_0000]>(false, false).unwrap();
    assert!(!ty.is_small());
    assert_eq!(ty.total_size(), 0x1000_0000 + 24);
}
