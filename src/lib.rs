//! A single-threaded mark-sweep garbage collector whose heap, shadow stack
//! and collection engine are specified and proved with Verus.
//!
//! Managed objects live in a heap of slots. Each object carries a header
//! (its type descriptor and a tri-color mark state), a payload, and the list
//! of managed references its payload holds. Roots are declared on a shadow
//! stack; a safepoint may run a collection that marks everything reachable
//! from the shadow stack and sweeps the rest. References carry the epoch
//! they were issued in, and a safepoint starts a new epoch, so a reference
//! that was not carried across a safepoint as a root can no longer be used.
use vstd::prelude::*;

pub mod layout;
pub mod heap;
pub mod mark;
pub mod collector;
pub mod trace;
pub mod array;

pub use layout::{
    MarkState, GcType, GcHeader, is_small_object, small_object_size, is_small_layout,
    small_layout_size, padding_needed_for, find_class, size_class, HEADER_SIZE, LARGE_HEADER_SIZE,
    LARGEST_SMALL_CLASS, SIZE_CLASS_COUNT,
};
pub use heap::{SimpleAlloc, SmallArenaList, HEAP_LIMIT};
pub use mark::MarkVisitor;
pub use collector::{
    Gc, GcError, GcVisitor, ShadowStack, GcHeap, RawSimpleCollector, SimpleCollector,
    SimpleCollectorContext, INITIAL_COLLECTION_THRESHOLD,
};
pub use trace::{
    Trace, TraceImmutable, NullTrace, GcSafe, GcBrand, GcSystem, AssumeNotTraced, assert_copy,
    derived_needs_trace, type_info,
};
pub use array::{GcArray, GcArrayRepr, GcString};

verus! {

} // verus!
