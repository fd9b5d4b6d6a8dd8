//! Object layout: the per-type descriptor, the object header, the
//! header-to-payload offset and the small-object size classes.
use vstd::prelude::*;

verus! {

/// Size in bytes of the object header (a type descriptor pointer and a
/// state byte, padded to pointer alignment).
pub const HEADER_SIZE: usize = 16;

/// Size in bytes of the prefix of a large-object box: the header followed
/// by the link to the previous large object.
pub const LARGE_HEADER_SIZE: usize = 24;

/// The largest alignment a payload type may ask for.
pub const MAX_ALIGN: usize = 4096;

/// The largest payload size a type descriptor may record.
pub const MAX_VALUE_SIZE: usize = usize::MAX / 8;

/// Number of small-object size classes.
pub const SIZE_CLASS_COUNT: usize = 8;

/// The largest small-object size class; bigger objects take the large path.
pub const LARGEST_SMALL_CLASS: usize = 128;

/// The size of the `i`-th small-object size class, in bytes.
pub open spec fn class_size(i: int) -> nat {
    if i == 0 { 16 }
    else if i == 1 { 24 }
    else if i == 2 { 32 }
    else if i == 3 { 48 }
    else if i == 4 { 64 }
    else if i == 5 { 80 }
    else if i == 6 { 96 }
    else { 128 }
}

/// Bytes of padding needed after `size` bytes so that the next byte is
/// aligned to `align`.
pub open spec fn spec_padding(size: nat, align: nat) -> nat
    recommends align > 0,
{
    ((align - size % align) % align as int) as nat
}

/// Header-to-payload offset of a small object whose payload has the
/// given alignment.
pub open spec fn spec_small_offset(align: nat) -> nat {
    (HEADER_SIZE + spec_padding(HEADER_SIZE as nat, align)) as nat
}

/// Header-to-payload offset of a large object whose payload has the given
/// alignment.
pub open spec fn spec_large_offset(align: nat) -> nat {
    (LARGE_HEADER_SIZE + spec_padding(LARGE_HEADER_SIZE as nat, align)) as nat
}

/// Bytes a small object takes: header, padding and payload.
pub open spec fn spec_small_size(size: nat, align: nat) -> nat {
    (spec_small_offset(align) + size) as nat
}

/// Bytes an object whose payload has this size and alignment takes.
pub open spec fn spec_total_for(size: nat, align: nat) -> nat {
    (if spec_is_small(size, align) {
        spec_small_offset(align)
    } else {
        spec_large_offset(align)
    } + size) as nat
}

/// A payload of this size and alignment fits in the largest size class.
pub open spec fn spec_is_small(size: nat, align: nat) -> bool {
    spec_small_size(size, align) <= LARGEST_SMALL_CLASS
}

/// A payload layout that a type descriptor accepts.
pub open spec fn valid_layout(size: nat, align: nat) -> bool {
    0 < align <= MAX_ALIGN && size <= MAX_VALUE_SIZE
}

/// Returns the padding needed after `size` bytes to reach alignment `align`.
pub fn padding_needed_for(size: usize, align: usize) -> (r: usize)
    requires
        0 < align <= MAX_ALIGN,
    ensures
        r == spec_padding(size as nat, align as nat),
        r < align,
{
    let rem = size % align;
    let r = (align - rem) % align;
    r
}

/// The tri-color mark state of a managed object.
#[derive(PartialEq, Eq, Structural, Clone, Copy, Debug)]
pub enum MarkState {
    /// Not yet shown reachable; freed by the sweep if it stays white.
    White,
    /// Shown reachable, interior not yet scanned.
    Grey,
    /// Shown reachable and fully scanned.
    Black,
}

/// The descriptor shared by every object of one payload type.
///
/// It records the payload size, the header-to-payload offset (which
/// depends on whether the object takes the small or the large path),
/// whether the payload can hold managed references, and whether it has a
/// destructor.
#[derive(Clone, Copy, Debug)]
pub struct GcType {
    value_size: usize,
    value_align: usize,
    value_offset: usize,
    small: bool,
    needs_trace: bool,
    needs_drop: bool,
}

impl GcType {
    pub closed spec fn spec_value_size(&self) -> nat {
        self.value_size as nat
    }

    pub closed spec fn spec_value_align(&self) -> nat {
        self.value_align as nat
    }

    pub closed spec fn spec_value_offset(&self) -> nat {
        self.value_offset as nat
    }

    pub closed spec fn spec_is_small(&self) -> bool {
        self.small
    }

    pub closed spec fn spec_needs_trace(&self) -> bool {
        self.needs_trace
    }

    pub closed spec fn spec_needs_drop(&self) -> bool {
        self.needs_drop
    }

    /// Bytes an object of this type takes: offset plus payload.
    pub open spec fn spec_total_size(&self) -> nat {
        (self.spec_value_offset() + self.spec_value_size()) as nat
    }

    /// The descriptor is internally consistent.
    pub open spec fn wf(&self) -> bool {
        &&& valid_layout(self.spec_value_size(), self.spec_value_align())
        &&& self.spec_is_small() == spec_is_small(self.spec_value_size(), self.spec_value_align())
        &&& self.spec_value_offset() == if self.spec_is_small() {
            spec_small_offset(self.spec_value_align())
        } else {
            spec_large_offset(self.spec_value_align())
        }
    }

    /// Builds the descriptor of a payload with the given size and alignment.
    pub fn new(value_size: usize, value_align: usize, needs_trace: bool, needs_drop: bool) -> (r:
        GcType)
        requires
            valid_layout(value_size as nat, value_align as nat),
        ensures
            r.wf(),
            r.spec_value_size() == value_size,
            r.spec_value_align() == value_align,
            r.spec_needs_trace() == needs_trace,
            r.spec_needs_drop() == needs_drop,
    {
        let small = is_small_layout(value_size, value_align);
        let value_offset = if small {
            HEADER_SIZE + padding_needed_for(HEADER_SIZE, value_align)
        } else {
            LARGE_HEADER_SIZE + padding_needed_for(LARGE_HEADER_SIZE, value_align)
        };
        GcType { value_size, value_align, value_offset, small, needs_trace, needs_drop }
    }

    /// Builds the descriptor of the payload type `T`, or `None` when its
    /// layout is beyond what a descriptor accepts.
    pub fn of<T>(needs_trace: bool, needs_drop: bool) -> (r: Option<GcType>)
        ensures
            r is Some <==> valid_layout(vstd::layout::size_of::<T>(), vstd::layout::align_of::<T>()),
            r matches Some(ty) ==> {
                &&& ty.wf()
                &&& ty.spec_value_size() == vstd::layout::size_of::<T>()
                &&& ty.spec_value_align() == vstd::layout::align_of::<T>()
                &&& ty.spec_needs_trace() == needs_trace
                &&& ty.spec_needs_drop() == needs_drop
            },
    {
        let size = core::mem::size_of::<T>();
        let align = core::mem::align_of::<T>();
        if 0 < align && align <= MAX_ALIGN && size <= MAX_VALUE_SIZE {
            Some(GcType::new(size, align, needs_trace, needs_drop))
        } else {
            None
        }
    }

    pub fn value_size(&self) -> (r: usize)
        ensures
            r == self.spec_value_size(),
    {
        self.value_size
    }

    pub fn value_offset(&self) -> (r: usize)
        ensures
            r == self.spec_value_offset(),
    {
        self.value_offset
    }

    pub fn is_small(&self) -> (r: bool)
        ensures
            r == self.spec_is_small(),
    {
        self.small
    }

    pub fn needs_trace(&self) -> (r: bool)
        ensures
            r == self.spec_needs_trace(),
    {
        self.needs_trace
    }

    pub fn needs_drop(&self) -> (r: bool)
        ensures
            r == self.spec_needs_drop(),
    {
        self.needs_drop
    }

    /// Bytes an object of this type takes: offset plus payload.
    pub fn total_size(&self) -> (r: usize)
        requires
            self.wf(),
        ensures
            r == self.spec_total_size(),
    {
        self.value_offset + self.value_size
    }
}

/// The header laid out before every managed payload.
#[derive(Clone, Copy, Debug)]
pub struct GcHeader {
    pub type_info: GcType,
    pub state: MarkState,
}

impl GcHeader {
    /// The payload address of the object whose header is at `header_address`.
    pub fn value(&self, header_address: u64) -> (r: u64)
        requires
            header_address + self.type_info.spec_value_offset() <= u64::MAX,
        ensures
            r == header_address + self.type_info.spec_value_offset(),
    {
        header_address + self.type_info.value_offset() as u64
    }

    /// The header address of the object of type `ty` whose payload is at
    /// `value_address`.
    pub fn from_value_ptr(ty: &GcType, value_address: u64) -> (r: u64)
        requires
            value_address >= ty.spec_value_offset(),
        ensures
            r + ty.spec_value_offset() == value_address,
    {
        value_address - ty.value_offset() as u64
    }
}

/// The size of the `i`-th small-object size class, in bytes.
pub fn size_class(i: usize) -> (r: usize)
    requires
        i < SIZE_CLASS_COUNT,
    ensures
        r == class_size(i as int),
{
    if i == 0 { 16 }
    else if i == 1 { 24 }
    else if i == 2 { 32 }
    else if i == 3 { 48 }
    else if i == 4 { 64 }
    else if i == 5 { 80 }
    else if i == 6 { 96 }
    else { 128 }
}

/// The index of the smallest size class that holds `total` bytes, or
/// `None` when `total` exceeds the largest class.
pub fn find_class(total: usize) -> (r: Option<usize>)
    ensures
        r is None <==> total > LARGEST_SMALL_CLASS,
        r matches Some(i) ==> i < SIZE_CLASS_COUNT && class_size(i as int) >= total
            && forall|j: int| 0 <= j < i ==> class_size(j) < total,
{
    let mut i: usize = 0;
    while i < SIZE_CLASS_COUNT
        invariant
            i <= SIZE_CLASS_COUNT,
            forall|j: int| 0 <= j < i ==> class_size(j) < total,
        decreases SIZE_CLASS_COUNT - i,
    {
        if size_class(i) >= total {
            return Some(i);
        }
        i = i + 1;
    }
    assert(class_size(7) == LARGEST_SMALL_CLASS);
    None
}

/// Payloads of this size and alignment take the small-object path.
pub fn is_small_layout(size: usize, align: usize) -> (r: bool)
    requires
        valid_layout(size as nat, align as nat),
    ensures
        r == spec_is_small(size as nat, align as nat),
{
    small_layout_size(size, align) <= LARGEST_SMALL_CLASS
}

/// Bytes a small object with this payload layout takes.
pub fn small_layout_size(size: usize, align: usize) -> (r: usize)
    requires
        valid_layout(size as nat, align as nat),
    ensures
        r == spec_small_size(size as nat, align as nat),
{
    HEADER_SIZE + padding_needed_for(HEADER_SIZE, align) + size
}

/// A payload aligned to more than the largest size class never fits one.
proof fn lemma_large_align_not_small(size: nat, align: nat)
    requires
        align > LARGEST_SMALL_CLASS,
    ensures
        !spec_is_small(size, align),
{
    vstd::arithmetic::div_mod::lemma_small_mod(HEADER_SIZE as nat, align);
    vstd::arithmetic::div_mod::lemma_small_mod((align - HEADER_SIZE) as nat, align);
}

/// Values of type `T` take the small-object path.
pub fn is_small_object<T>() -> (r: bool)
    ensures
        r == spec_is_small(vstd::layout::size_of::<T>(), vstd::layout::align_of::<T>()),
{
    vstd::layout::layout_for_type_is_valid::<T>();
    let size = core::mem::size_of::<T>();
    let align = core::mem::align_of::<T>();
    if align > LARGEST_SMALL_CLASS {
        proof {
            lemma_large_align_not_small(size as nat, align as nat);
        }
        false
    } else if size > LARGEST_SMALL_CLASS {
        false
    } else {
        is_small_layout(size, align)
    }
}

/// Bytes a small object holding a `T` takes.
pub fn small_object_size<T>() -> (r: usize)
    requires
        spec_is_small(vstd::layout::size_of::<T>(), vstd::layout::align_of::<T>()),
    ensures
        r == spec_small_size(vstd::layout::size_of::<T>(), vstd::layout::align_of::<T>()),
{
    vstd::layout::layout_for_type_is_valid::<T>();
    let size = core::mem::size_of::<T>();
    let align = core::mem::align_of::<T>();
    proof {
        if align > LARGEST_SMALL_CLASS {
            lemma_large_align_not_small(size as nat, align as nat);
        }
    }
    small_layout_size(size, align)
}

} // verus!
