//! Managed references, the shadow stack, and the mutator context with its
//! allocation, safepoint and nested-context operations.
use vstd::prelude::*;
use crate::heap::{SimpleAlloc, HEAP_LIMIT, live_sum, swept};
use crate::layout::{GcType, GcHeader, MarkState, valid_layout, spec_total_for};
use crate::trace::{Trace, GcSafe, type_info};
use crate::mark::{MarkVisitor, reachable, reach_within, index_set};

verus! {

/// The collection threshold of a fresh collector, in bytes.
pub const INITIAL_COLLECTION_THRESHOLD: usize = 2048;

/// A managed reference: the collector it belongs to, the slot and payload
/// address of its object, and the epoch it was issued in. Every safepoint
/// and every collection starts a new epoch, and a reference is usable only
/// in the epoch it was issued in.
#[derive(Clone, Copy, Debug)]
pub struct Gc {
    collector: u64,
    index: usize,
    address: u64,
    epoch: u64,
}

impl Gc {
    pub closed spec fn spec_collector(&self) -> u64 {
        self.collector
    }

    pub closed spec fn spec_index(&self) -> usize {
        self.index
    }

    pub closed spec fn spec_address(&self) -> u64 {
        self.address
    }

    pub closed spec fn spec_epoch(&self) -> u64 {
        self.epoch
    }

    /// The identity of the collector this reference belongs to.
    pub fn collector_id(&self) -> (r: u64)
        ensures
            r == self.spec_collector(),
    {
        self.collector
    }

    /// The address of the payload.
    pub fn address(&self) -> (r: u64)
        ensures
            r == self.spec_address(),
    {
        self.address
    }

    /// The heap slot of the object.
    pub fn index(&self) -> (r: usize)
        ensures
            r == self.spec_index(),
    {
        self.index
    }

    /// The epoch this reference was issued in.
    pub fn epoch(&self) -> (r: u64)
        ensures
            r == self.spec_epoch(),
    {
        self.epoch
    }

    /// The same reference, issued in `epoch`.
    pub fn rebrand(&self, epoch: u64) -> (r: Gc)
        ensures
            r.spec_collector() == self.spec_collector(),
            r.spec_index() == self.spec_index(),
            r.spec_address() == self.spec_address(),
            r.spec_epoch() == epoch,
    {
        Gc { collector: self.collector, index: self.index, address: self.address, epoch }
    }
}

/// The slots that the references in `s` point to.
pub open spec fn gc_indices(s: Seq<Gc>) -> Seq<usize> {
    s.map_values(|g: Gc| g.spec_index())
}

/// The slots that the references on a shadow stack point to.
pub open spec fn stack_roots(s: Seq<Seq<Gc>>) -> Set<int> {
    Set::new(
        |i: int|
            exists|e: int, k: int|
                0 <= e < s.len() && 0 <= k < s[e].len() && #[trigger] s[e][k].spec_index() as int == i,
    )
}

/// What goes wrong in an operation of the collector.
#[derive(PartialEq, Eq, Structural, Clone, Copy, Debug)]
pub enum GcError {
    /// A reference belongs to another collector.
    WrongCollector,
    /// A reference was issued before the last safepoint, or names no live
    /// object.
    InvalidReference,
    /// A type that declares no managed references was given some.
    UntracedReference,
    /// The heap's byte or address limit would be exceeded.
    OutOfMemory,
    /// A nested context was left out of order.
    ShadowStackMismatch,
    /// An object has no field at the given position.
    NoSuchField,
    /// A payload type's size or alignment is beyond what a descriptor
    /// accepts.
    UnsupportedLayout,
}

/// The roots of the mutator: one entry per safepoint or nested context in
/// progress, each the managed references of its root value.
pub struct ShadowStack {
    entries: Vec<Vec<Gc>>,
}

impl ShadowStack {
    pub closed spec fn view(&self) -> Seq<Seq<Gc>> {
        self.entries@.map_values(|e: Vec<Gc>| e@)
    }

    /// An empty shadow stack.
    pub fn new() -> (r: ShadowStack)
        ensures
            r@ == Seq::<Seq<Gc>>::empty(),
    {
        let r = ShadowStack { entries: Vec::new() };
        assert(r@ =~= Seq::<Seq<Gc>>::empty());
        r
    }

    /// The number of entries.
    pub fn len(&self) -> (r: usize)
        ensures
            r == self@.len(),
    {
        self.entries.len()
    }

    /// Pushes a root and returns its token, the depth it was pushed at.
    pub fn push(&mut self, root: Vec<Gc>) -> (token: usize)
        ensures
            token == old(self)@.len(),
            final(self)@ == old(self)@.push(root@),
    {
        let token = self.entries.len();
        self.entries.push(root);
        assert(self@ =~= old(self)@.push(root@));
        token
    }

    /// Removes the last entry and returns its token and root.
    pub fn pop(&mut self) -> (r: Option<(usize, Vec<Gc>)>)
        ensures
            old(self)@.len() == 0 ==> r is None && final(self)@ == old(self)@,
            old(self)@.len() > 0 ==> (r matches Some((token, root)) && token == old(self)@.len() - 1
                && root@ == old(self)@.last() && final(self)@ == old(self)@.drop_last()),
    {
        let token = self.entries.len();
        match self.entries.pop() {
            Some(root) => {
                assert(self@ =~= old(self)@.drop_last());
                Some((token - 1, root))
            },
            None => None,
        }
    }
}

/// Pushing a root and then popping gives back the token of the push and
/// the stack as it was: pushes and pops pair up in last-in first-out order.
pub proof fn lemma_shadow_stack_balanced(s: Seq<Seq<Gc>>, root: Seq<Gc>)
    ensures
        s.push(root).len() > 0,
        s.push(root).len() - 1 == s.len(),
        s.push(root).last() == root,
        s.push(root).drop_last() == s,
{
    assert(s.push(root).drop_last() =~= s);
}

/// The heap: the allocator and the threshold of live bytes at which a
/// safepoint collects.
pub struct GcHeap<V> {
    threshold: usize,
    allocator: SimpleAlloc<V>,
}

impl<V> GcHeap<V> {
    pub closed spec fn spec_threshold(&self) -> nat {
        self.threshold as nat
    }

    pub closed spec fn spec_allocator(&self) -> SimpleAlloc<V> {
        self.allocator
    }

    /// The live bytes have reached the threshold.
    pub fn should_collect(&self) -> (r: bool)
        ensures
            r == (self.spec_allocator().allocated_size >= self.spec_threshold()),
    {
        self.allocator.allocated_size() >= self.threshold
    }
}

/// The state a collector's contexts share.
pub struct RawSimpleCollector<V> {
    id: u64,
    epoch: u64,
    shadow_stack: ShadowStack,
    heap: GcHeap<V>,
}

/// The epoch after `e`.
pub open spec fn next_epoch(e: u64) -> u64 {
    if e == u64::MAX {
        0
    } else {
        (e + 1) as u64
    }
}

impl<V> RawSimpleCollector<V> {
    pub closed spec fn spec_id(&self) -> u64 {
        self.id
    }

    pub closed spec fn spec_epoch(&self) -> u64 {
        self.epoch
    }

    pub closed spec fn spec_threshold(&self) -> nat {
        self.heap.threshold as nat
    }

    /// The allocator state.
    pub closed spec fn spec_heap(&self) -> SimpleAlloc<V> {
        self.heap.allocator
    }

    pub closed spec fn spec_stack(&self) -> Seq<Seq<Gc>> {
        self.shadow_stack@
    }

    /// The reference names a live object of this collector at its address.
    pub open spec fn names_live(&self, gc: Gc) -> bool {
        &&& gc.spec_collector() == self.spec_id()
        &&& self.spec_heap().live(gc.spec_index() as int)
        &&& self.spec_heap().payload_address(gc.spec_index() as int) == gc.spec_address()
    }

    /// The reference is usable: it names a live object of this collector
    /// and was issued in the current epoch.
    pub open spec fn valid(&self, gc: Gc) -> bool {
        self.names_live(gc) && gc.spec_epoch() == self.spec_epoch()
    }

    /// The collector's invariant: the heap is at rest, and every root on
    /// the shadow stack names a live object of this collector.
    pub open spec fn wf(&self) -> bool {
        &&& self.spec_heap().at_rest()
        &&& forall|e: int, k: int|
            0 <= e < self.spec_stack().len() && 0 <= k < self.spec_stack()[e].len() ==> self.names_live(
                #[trigger] self.spec_stack()[e][k],
            )
    }

    /// The live bytes.
    pub open spec fn spec_live_bytes(&self) -> nat {
        self.spec_heap().allocated_size as nat
    }

    /// The slots the shadow stack's roots point to.
    pub open spec fn spec_roots(&self) -> Set<int> {
        stack_roots(self.spec_stack())
    }

    /// Collects everything the shadow stack's roots do not reach.
    ///
    /// Marks from the roots, sweeps, sets the threshold to one and a half
    /// times the surviving bytes, and starts a new epoch. Returns the slots
    /// whose payload had a destructor, which ran when the payload was
    /// reclaimed.
    pub fn perform_collection(&mut self) -> (dropped: Vec<usize>)
        requires
            old(self).wf(),
        ensures
            final(self).wf(),
            final(self).spec_id() == old(self).spec_id(),
            final(self).spec_stack() == old(self).spec_stack(),
            final(self).spec_epoch() == next_epoch(old(self).spec_epoch()),
            final(self).spec_heap().len() == old(self).spec_heap().len(),
            final(self).spec_heap().next_address == old(self).spec_heap().next_address,
            forall|i: int| 0 <= i < old(self).spec_heap().len() ==> #[trigger] final(self).spec_heap().slots@[i]
                == if old(self).spec_heap().live(i) && reachable(old(self).spec_heap(), old(self).spec_roots(), i) {
                old(self).spec_heap().slots@[i]
            } else {
                swept(old(self).spec_heap().slots@[i])
            },
            forall|i: int| 0 <= i < old(self).spec_heap().len() ==> (#[trigger] final(self).spec_heap().live(i)
                <==> old(self).spec_heap().live(i) && reachable(old(self).spec_heap(), old(self).spec_roots(), i)),
            forall|i: usize| dropped@.contains(i) <==> (i < old(self).spec_heap().len() && old(self).spec_heap().live(
                i as int,
            ) && !reachable(old(self).spec_heap(), old(self).spec_roots(), i as int) && old(self).spec_heap().obj(
                i as int,
            ).header.type_info.spec_needs_drop()),
            dropped@.no_duplicates(),
            final(self).spec_threshold() == final(self).spec_live_bytes() + final(self).spec_live_bytes() / 2,
            final(self).spec_live_bytes() == reachable_bytes(old(self).spec_heap(), old(self).spec_roots(), old(
                self,
            ).spec_heap().len()),
    {
        let ghost g = self.heap.allocator;
        let roots = self.root_slots();
        MarkVisitor::run(&mut self.heap.allocator, &roots);
        let ghost marked = self.heap.allocator;
        let dropped = self.heap.allocator.sweep();
        let updated_size = self.heap.allocator.allocated_size();
        self.heap.threshold = updated_size + updated_size / 2;
        self.epoch = if self.epoch == u64::MAX {
            0
        } else {
            self.epoch + 1
        };
        proof {
            assert(index_set(roots@) == self.spec_roots());
            crate::mark::lemma_same_but_marks_wf(marked, g);
            assert forall|i: int| 0 <= i < g.len() implies #[trigger] self.spec_heap().slots@[i]
                == if g.live(i) && reachable(g, index_set(roots@), i) {
                g.slots@[i]
            } else {
                swept(g.slots@[i])
            } by {
                assert(marked.slots@[i] == crate::heap::with_state(g.slots@[i], marked.state(i)));
                if g.live(i) {
                    assert(marked.live(i));
                    assert(marked.state(i) != MarkState::Grey);
                    assert(g.state(i) == MarkState::White);
                }
            }
            assert forall|i: int| 0 <= i < g.len() implies (#[trigger] self.spec_heap().live(i) <==> g.live(i)
                && reachable(g, index_set(roots@), i)) by {
                if g.live(i) {
                    assert(marked.live(i));
                }
            }
            assert forall|i: usize| dropped@.contains(i) <==> (i < g.len() && g.live(i as int) && !reachable(
                g,
                index_set(roots@),
                i as int,
            ) && g.obj(i as int).header.type_info.spec_needs_drop()) by {
                if i < g.len() {
                    assert(marked.slots@[i as int] == crate::heap::with_state(g.slots@[i as int], marked.state(i as int)));
                    if g.live(i as int) {
                        assert(marked.live(i as int));
                        assert(marked.state(i as int) != MarkState::Grey);
                    }
                }
            }
            assert forall|e: int, k: int|
                0 <= e < self.spec_stack().len() && 0 <= k < self.spec_stack()[e].len() implies self.names_live(
                #[trigger] self.spec_stack()[e][k],
            ) by {
                let gc = self.spec_stack()[e][k];
                let i = gc.spec_index() as int;
                assert(old(self).names_live(gc));
                assert(self.spec_roots().contains(i));
                assert(crate::mark::reach_within(g, index_set(roots@), 0).contains(i));
                assert(marked.live(i));
                assert(marked.slots@[i] == crate::heap::with_state(g.slots@[i], marked.state(i)));
            }
            lemma_collection_keeps_reachable(g, index_set(roots@), self.spec_heap());
        }
        dropped
    }

    /// Collects if the live bytes have reached the threshold, and reports
    /// whether it did.
    pub fn maybe_collect(&mut self) -> (did: bool)
        requires
            old(self).wf(),
        ensures
            final(self).wf(),
            did == (old(self).spec_live_bytes() >= old(self).spec_threshold()),
            final(self).spec_id() == old(self).spec_id(),
            final(self).spec_stack() == old(self).spec_stack(),
            final(self).spec_heap().next_address == old(self).spec_heap().next_address,
            did ==> collected(old(self).spec_heap(), old(self).spec_roots(), final(self).spec_heap())
                && final(self).spec_epoch() == next_epoch(old(self).spec_epoch())
                && final(self).spec_threshold() == final(self).spec_live_bytes() + final(self).spec_live_bytes() / 2,
            !did ==> *final(self) == *old(self),
    {
        if self.heap.should_collect() {
            let _ = self.perform_collection();
            true
        } else {
            false
        }
    }

    /// The slots of all roots on the shadow stack.
    fn root_slots(&self) -> (r: Vec<usize>)
        requires
            self.wf(),
        ensures
            index_set(r@) == self.spec_roots(),
            forall|q: int| 0 <= q < r@.len() ==> self.spec_heap().live(#[trigger] r@[q] as int),
    {
        let mut r: Vec<usize> = Vec::new();
        let mut e: usize = 0;
        let n = self.shadow_stack.entries.len();
        while e < n
            invariant
                self.wf(),
                n == self.spec_stack().len(),
                0 <= e <= n,
                forall|q: int| 0 <= q < r@.len() ==> self.spec_heap().live(#[trigger] r@[q] as int),
                forall|i: int| #[trigger] index_set(r@).contains(i) <==> exists|e2: int, k: int|
                    0 <= e2 < e && 0 <= k < self.spec_stack()[e2].len() && #[trigger] self.spec_stack()[e2][k].spec_index() as int == i,
            decreases n - e,
        {
            let entry = &self.shadow_stack.entries[e];
            assert(entry@ == self.spec_stack()[e as int]);
            let mut k: usize = 0;
            while k < entry.len()
                invariant
                    self.wf(),
                    n == self.spec_stack().len(),
                    0 <= e < n,
                    entry@ == self.spec_stack()[e as int],
                    0 <= k <= entry@.len(),
                    forall|q: int| 0 <= q < r@.len() ==> self.spec_heap().live(#[trigger] r@[q] as int),
                    forall|i: int| #[trigger] index_set(r@).contains(i) <==> (exists|e2: int, k2: int|
                        0 <= e2 < e && 0 <= k2 < self.spec_stack()[e2].len() && #[trigger] self.spec_stack()[e2][k2].spec_index() as int == i)
                        || (exists|k2: int| 0 <= k2 < k && #[trigger] entry@[k2].spec_index() as int == i),
                decreases entry@.len() - k,
            {
                let ghost r0 = r@;
                r.push(entry[k].index);
                proof {
                    assert(self.names_live(self.spec_stack()[e as int][k as int]));
                    assert forall|i: int| #[trigger] index_set(r@).contains(i) <==> (exists|e2: int, k2: int|
                        0 <= e2 < e && 0 <= k2 < self.spec_stack()[e2].len() && #[trigger] self.spec_stack()[e2][k2].spec_index() as int == i)
                        || (exists|k2: int| 0 <= k2 < k + 1 && #[trigger] entry@[k2].spec_index() as int == i) by {
                        if index_set(r@).contains(i) {
                            let q = choose|q: int| 0 <= q < r@.len() && r@[q] as int == i;
                            if q < r0.len() {
                                assert(index_set(r0).contains(i));
                            } else {
                                assert(entry@[k as int].spec_index() as int == i);
                            }
                        }
                        if index_set(r0).contains(i) {
                            let q = choose|q: int| 0 <= q < r0.len() && r0[q] as int == i;
                            assert(r@[q] == r0[q]);
                        }
                        if exists|k2: int| 0 <= k2 < k + 1 && #[trigger] entry@[k2].spec_index() as int == i {
                            let k2 = choose|k2: int| 0 <= k2 < k + 1 && #[trigger] entry@[k2].spec_index() as int == i;
                            if k2 == k {
                                assert(r@[r0.len() as int] as int == i);
                            } else {
                                assert(index_set(r0).contains(i));
                                let q = choose|q: int| 0 <= q < r0.len() && r0[q] as int == i;
                                assert(r@[q] == r0[q]);
                            }
                        }
                    }
                }
                k = k + 1;
            }
            proof {
                assert forall|i: int| #[trigger] index_set(r@).contains(i) <==> exists|e2: int, k2: int|
                    0 <= e2 < e + 1 && 0 <= k2 < self.spec_stack()[e2].len() && #[trigger] self.spec_stack()[e2][k2].spec_index() as int == i by {
                    if exists|k2: int| 0 <= k2 < k && #[trigger] entry@[k2].spec_index() as int == i {
                        let k2 = choose|k2: int| 0 <= k2 < k && #[trigger] entry@[k2].spec_index() as int == i;
                        assert(self.spec_stack()[e as int][k2].spec_index() as int == i);
                    }
                    if exists|e2: int, k2: int|
                        0 <= e2 < e + 1 && 0 <= k2 < self.spec_stack()[e2].len() && #[trigger] self.spec_stack()[e2][k2].spec_index() as int == i {
                        let (e2, k2) = choose|e2: int, k2: int|
                            0 <= e2 < e + 1 && 0 <= k2 < self.spec_stack()[e2].len() && #[trigger] self.spec_stack()[e2][k2].spec_index() as int == i;
                        if e2 == e {
                            assert(entry@[k2].spec_index() as int == i);
                        }
                    }
                }
            }
            e = e + 1;
        }
        proof {
            assert(index_set(r@) =~= self.spec_roots());
        }
        r
    }
}

/// The heap `after` is what collecting `before` from the slots `roots`
/// leaves: every reachable object stays as it was, every other slot is
/// emptied.
pub open spec fn collected<V>(before: SimpleAlloc<V>, roots: Set<int>, after: SimpleAlloc<V>) -> bool {
    &&& after.len() == before.len()
    &&& forall|i: int| 0 <= i < before.len() ==> #[trigger] after.slots@[i] == if before.live(i) && reachable(
        before,
        roots,
        i,
    ) {
        before.slots@[i]
    } else {
        swept(before.slots@[i])
    }
}

/// Visits managed references and records them. A visitor made for one
/// collector may only be handed references of that collector; a reference
/// of another collector is a programming error that callers must rule out.
/// A recording visitor, made for no collector, takes any reference.
pub struct GcVisitor {
    expected_collector: Option<u64>,
    visited: Vec<Gc>,
}

impl GcVisitor {
    pub closed spec fn spec_expected(&self) -> Option<u64> {
        self.expected_collector
    }

    pub closed spec fn spec_visited(&self) -> Seq<Gc> {
        self.visited@
    }

    /// A visitor for the collector with identity `id`.
    pub fn new(id: u64) -> (r: GcVisitor)
        ensures
            r.spec_expected() == Some(id),
            r.spec_visited() == Seq::<Gc>::empty(),
    {
        GcVisitor { expected_collector: Some(id), visited: Vec::new() }
    }

    /// A visitor that records references of any collector.
    pub fn recorder() -> (r: GcVisitor)
        ensures
            r.spec_expected() is None,
            r.spec_visited() == Seq::<Gc>::empty(),
    {
        GcVisitor { expected_collector: None, visited: Vec::new() }
    }

    /// Visits a managed reference, which must belong to the visitor's
    /// collector, and records it.
    pub fn visit_gc(&mut self, gc: &Gc)
        requires
            old(self).spec_expected() matches Some(id) ==> gc.spec_collector() == id,
        ensures
            final(self).spec_expected() == old(self).spec_expected(),
            final(self).spec_visited() == old(self).spec_visited().push(*gc),
    {
        self.visited.push(*gc);
    }

    /// The references visited so far.
    pub fn into_visited(self) -> (r: Vec<Gc>)
        ensures
            r@ == self.spec_visited(),
    {
        self.visited
    }
}

/// A collector, before any context uses it.
pub struct SimpleCollector<V> {
    raw: RawSimpleCollector<V>,
}

impl<V> SimpleCollector<V> {
    pub closed spec fn spec_raw(&self) -> RawSimpleCollector<V> {
        self.raw
    }

    /// Creates a collector with identity `id`, an empty heap, an empty
    /// shadow stack and the initial threshold.
    pub fn create(id: u64) -> (r: SimpleCollector<V>)
        ensures
            r.spec_raw().wf(),
            r.spec_raw().spec_id() == id,
            r.spec_raw().spec_epoch() == 0,
            r.spec_raw().spec_stack().len() == 0,
            r.spec_raw().spec_heap().len() == 0,
            r.spec_raw().spec_live_bytes() == 0,
            r.spec_raw().spec_heap().next_address == crate::heap::HEAP_BASE,
            r.spec_raw().spec_threshold() == INITIAL_COLLECTION_THRESHOLD,
    {
        let raw = RawSimpleCollector {
            id,
            epoch: 0,
            shadow_stack: ShadowStack::new(),
            heap: GcHeap { threshold: INITIAL_COLLECTION_THRESHOLD, allocator: SimpleAlloc::new() },
        };
        SimpleCollector { raw }
    }

    /// The context that uses this collector.
    pub fn into_context(self) -> (r: SimpleCollectorContext<V>)
        ensures
            r.spec_raw() == self.spec_raw(),
    {
        SimpleCollectorContext { collector: self.raw }
    }
}

/// The handle through which the mutator allocates, reads managed objects,
/// and reaches safepoints.
pub struct SimpleCollectorContext<V> {
    collector: RawSimpleCollector<V>,
}

impl<V> SimpleCollectorContext<V> {
    pub closed spec fn spec_raw(&self) -> RawSimpleCollector<V> {
        self.collector
    }

    pub open spec fn wf(&self) -> bool {
        self.spec_raw().wf()
    }

    /// The error that references handed to this collector meet, if any:
    /// one of another collector, else one that is not valid.
    pub open spec fn refs_error(&self, refs: Seq<Gc>) -> Option<GcError> {
        if exists|k: int| 0 <= k < refs.len() && #[trigger] refs[k].spec_collector() != self.spec_raw().spec_id() {
            Some(GcError::WrongCollector)
        } else if exists|k: int| 0 <= k < refs.len() && !self.spec_raw().valid(#[trigger] refs[k]) {
            Some(GcError::InvalidReference)
        } else {
            None
        }
    }

    /// The error an allocation of type `ty` whose payload holds `fields`
    /// meets, if any.
    pub open spec fn alloc_error(&self, ty: GcType, fields: Seq<Gc>) -> Option<GcError> {
        if self.refs_error(fields) is Some {
            self.refs_error(fields)
        } else if !ty.spec_needs_trace() && fields.len() > 0 {
            Some(GcError::UntracedReference)
        } else if !self.spec_raw().spec_heap().fits(ty) {
            Some(GcError::OutOfMemory)
        } else {
            None
        }
    }

    /// Returns the first error that `refs` meet, and otherwise their slots.
    fn check_refs(&self, refs: &Vec<Gc>) -> (r: Result<Vec<usize>, GcError>)
        requires
            self.wf(),
        ensures
            match r {
                Ok(slots) => self.refs_error(refs@) is None && slots@ == gc_indices(refs@),
                Err(e) => self.refs_error(refs@) == Some(e),
            },
    {
        let mut k: usize = 0;
        while k < refs.len()
            invariant
                0 <= k <= refs@.len(),
                forall|q: int| 0 <= q < k ==> #[trigger] refs@[q].spec_collector() == self.spec_raw().spec_id(),
            decreases refs@.len() - k,
        {
            if refs[k].collector != self.collector.id {
                assert(refs@[k as int].spec_collector() != self.spec_raw().spec_id());
                return Err(GcError::WrongCollector);
            }
            k = k + 1;
        }
        let mut q: usize = 0;
        while q < refs.len()
            invariant
                self.wf(),
                0 <= q <= refs@.len(),
                forall|j: int| 0 <= j < refs@.len() ==> #[trigger] refs@[j].spec_collector() == self.spec_raw().spec_id(),
                forall|j: int| 0 <= j < q ==> self.spec_raw().valid(#[trigger] refs@[j]),
            decreases refs@.len() - q,
        {
            if !self.is_valid(&refs[q]) {
                return Err(GcError::InvalidReference);
            }
            q = q + 1;
        }
        let mut slots: Vec<usize> = Vec::new();
        let mut i: usize = 0;
        while i < refs.len()
            invariant
                0 <= i <= refs@.len(),
                slots@ == gc_indices(refs@).subrange(0, i as int),
            decreases refs@.len() - i,
        {
            slots.push(refs[i].index);
            assert(slots@ =~= gc_indices(refs@).subrange(0, i + 1));
            i = i + 1;
        }
        assert(gc_indices(refs@).subrange(0, refs@.len() as int) =~= gc_indices(refs@));
        Ok(slots)
    }

    /// The reference is usable in this context: it belongs to this
    /// collector, was issued since the last safepoint, and names a live
    /// object.
    pub fn is_valid(&self, gc: &Gc) -> (r: bool)
        requires
            self.wf(),
        ensures
            r == self.spec_raw().valid(*gc),
    {
        if gc.collector != self.collector.id || gc.epoch != self.collector.epoch {
            return false;
        }
        let slots = &self.collector.heap.allocator.slots;
        if gc.index >= slots.len() {
            return false;
        }
        match &slots[gc.index].object {
            Some(o) => {
                proof {
                    assert(self.spec_raw().spec_heap().slots_wf());
                }
                o.header.value(slots[gc.index].header_address) == gc.address
            },
            None => false,
        }
    }

    /// Dereferences a managed reference: the payload, if the reference is
    /// valid.
    pub fn get(&self, gc: &Gc) -> (r: Option<&V>)
        requires
            self.wf(),
        ensures
            r is Some <==> self.spec_raw().valid(*gc),
            r matches Some(v) ==> *v == self.spec_raw().spec_heap().obj(gc.spec_index() as int).value,
    {
        if !self.is_valid(gc) {
            return None;
        }
        match &self.collector.heap.allocator.slots[gc.index].object {
            Some(o) => Some(&o.value),
            None => None,
        }
    }

    /// The reference to the object in live slot `i`, issued now.
    fn reference_to(&self, i: usize) -> (r: Gc)
        requires
            self.wf(),
            self.spec_raw().spec_heap().live(i as int),
        ensures
            self.spec_raw().valid(r),
            r.spec_index() == i,
    {
        let slot = &self.collector.heap.allocator.slots[i];
        proof {
            assert(self.spec_raw().spec_heap().slots_wf());
        }
        let address = match &slot.object {
            Some(o) => o.header.value(slot.header_address),
            None => 0,
        };
        Gc { collector: self.collector.id, index: i, address, epoch: self.collector.epoch }
    }

    /// The managed references the payload of `gc` holds, issued now, if
    /// `gc` is valid.
    pub fn fields_of(&self, gc: &Gc) -> (r: Option<Vec<Gc>>)
        requires
            self.wf(),
        ensures
            r is Some <==> self.spec_raw().valid(*gc),
            r matches Some(refs) ==> gc_indices(refs@) == self.spec_raw().spec_heap().fields(gc.spec_index() as int)
                && forall|k: int| 0 <= k < refs@.len() ==> self.spec_raw().valid(#[trigger] refs@[k]),
    {
        if !self.is_valid(gc) {
            return None;
        }
        let mut refs: Vec<Gc> = Vec::new();
        let n = match &self.collector.heap.allocator.slots[gc.index].object {
            Some(o) => o.fields.len(),
            None => 0,
        };
        let ghost fields = self.spec_raw().spec_heap().fields(gc.spec_index() as int);
        let mut k: usize = 0;
        while k < n
            invariant
                self.wf(),
                self.spec_raw().valid(*gc),
                fields == self.spec_raw().spec_heap().fields(gc.spec_index() as int),
                n == fields.len(),
                0 <= k <= n,
                gc_indices(refs@) == fields.subrange(0, k as int),
                forall|q: int| 0 <= q < refs@.len() ==> self.spec_raw().valid(#[trigger] refs@[q]),
            decreases n - k,
        {
            let j = match &self.collector.heap.allocator.slots[gc.index].object {
                Some(o) => o.fields[k],
                None => 0,
            };
            proof {
                assert(self.spec_raw().spec_heap().fields_closed());
                assert(self.spec_raw().spec_heap().live(fields[k as int] as int));
            }
            assert(j == fields[k as int]);
            let r = self.reference_to(j);
            let ghost refs0 = refs@;
            refs.push(r);
            assert(gc_indices(refs@) =~= gc_indices(refs0).push(j));
            assert(gc_indices(refs@) =~= fields.subrange(0, k + 1));
            k = k + 1;
        }
        assert(fields.subrange(0, n as int) =~= fields);
        Some(refs)
    }

    /// The header address of the object `gc` refers to, if `gc` is valid.
    /// The header lies the type's value offset before the payload.
    pub fn header_address(&self, gc: &Gc) -> (r: Option<u64>)
        requires
            self.wf(),
        ensures
            r is Some <==> self.spec_raw().valid(*gc),
            r matches Some(h) ==> h == self.spec_raw().spec_heap().slots@[gc.spec_index() as int].header_address
                && h + self.spec_raw().spec_heap().obj(gc.spec_index() as int).header.type_info.spec_value_offset()
                == gc.spec_address(),
    {
        if !self.is_valid(gc) {
            return None;
        }
        match &self.collector.heap.allocator.slots[gc.index].object {
            Some(o) => Some(GcHeader::from_value_ptr(&o.header.type_info, gc.address)),
            None => None,
        }
    }

    /// Allocates an object of type `ty` holding `value`, whose payload
    /// holds the managed references `fields`.
    ///
    /// Fails, changing nothing, when a field belongs to another collector
    /// or is not valid, when a type that declares no managed references is
    /// given some, or when the heap's limits would be exceeded. Allocation
    /// never collects.
    pub fn allocate(&mut self, ty: GcType, value: V, fields: Vec<Gc>) -> (r: Result<Gc, GcError>)
        requires
            old(self).wf(),
            ty.wf(),
        ensures
            final(self).wf(),
            final(self).spec_raw().spec_id() == old(self).spec_raw().spec_id(),
            final(self).spec_raw().spec_epoch() == old(self).spec_raw().spec_epoch(),
            final(self).spec_raw().spec_stack() == old(self).spec_raw().spec_stack(),
            final(self).spec_raw().spec_threshold() == old(self).spec_raw().spec_threshold(),
            forall|g: Gc| #[trigger] old(self).spec_raw().valid(g) ==> final(self).spec_raw().valid(g),
            old(self).spec_raw().spec_heap().next_address <= final(self).spec_raw().spec_heap().next_address
                <= old(self).spec_raw().spec_heap().next_address + if ty.spec_is_small() {
                crate::layout::LARGEST_SMALL_CLASS as nat
            } else {
                ty.spec_total_size()
            },
            match r {
                Err(e) => old(self).alloc_error(ty, fields@) == Some(e) && final(self).spec_raw() == old(
                    self,
                ).spec_raw(),
                Ok(gc) => {
                    let h = final(self).spec_raw().spec_heap();
                    let i = gc.spec_index() as int;
                    &&& old(self).alloc_error(ty, fields@) is None
                    &&& final(self).spec_raw().valid(gc)
                    &&& !old(self).spec_raw().spec_heap().live(i)
                    &&& h.obj(i).value == value
                    &&& h.obj(i).header.type_info == ty
                    &&& h.fields(i) == gc_indices(fields@)
                    &&& gc.spec_address() == h.slots@[i].header_address + ty.spec_value_offset()
                    &&& forall|j: int| j != i && #[trigger] h.live(j) ==> h.payload_address(j) != gc.spec_address()
                    &&& final(self).spec_raw().spec_live_bytes() == old(self).spec_raw().spec_live_bytes()
                        + ty.spec_total_size()
                    &&& h.large@ == if ty.spec_is_small() {
                        old(self).spec_raw().spec_heap().large@
                    } else {
                        old(self).spec_raw().spec_heap().large@.push(gc.spec_index())
                    }
                    &&& forall|j: int| j != i && old(self).spec_raw().spec_heap().live(j) ==> #[trigger] h.obj(j)
                        == old(self).spec_raw().spec_heap().obj(j)
                },
            },
    {
        let slots = match self.check_refs(&fields) {
            Ok(slots) => slots,
            Err(e) => {
                return Err(e);
            },
        };
        if !ty.needs_trace() && fields.len() > 0 {
            return Err(GcError::UntracedReference);
        }
        let total = ty.total_size();
        let allocator = &self.collector.heap.allocator;
        if allocator.allocated_size > HEAP_LIMIT - total || allocator.next_address
            > crate::heap::ADDRESS_LIMIT - 128 - total as u64 {
            return Err(GcError::OutOfMemory);
        }
        proof {
            assert forall|k: int| 0 <= k < slots@.len() implies self.spec_raw().spec_heap().live(
                #[trigger] slots@[k] as int,
            ) by {
                assert(self.spec_raw().valid(fields@[k]));
            }
        }
        let ghost old_heap = self.spec_raw().spec_heap();
        let i = self.collector.heap.allocator.allocate(ty, value, slots);
        proof {
            assert(self.spec_raw().spec_stack() == old(self).spec_raw().spec_stack());
            assert(old(self).spec_raw().wf());
            assert forall|e: int, k: int|
                0 <= e < self.spec_raw().spec_stack().len() && 0 <= k < self.spec_raw().spec_stack()[e].len()
                implies self.spec_raw().names_live(#[trigger] self.spec_raw().spec_stack()[e][k]) by {
                let g = old(self).spec_raw().spec_stack()[e][k];
                assert(old(self).spec_raw().names_live(g));
            }
            assert forall|g: Gc| #[trigger] old(self).spec_raw().valid(g) implies self.spec_raw().valid(g) by {
                assert(g.spec_index() != i);
            }
        }
        let gc = self.reference_to(i);
        Ok(gc)
    }

    /// Pushes `root`, collects if the live bytes have reached the
    /// threshold, pops `root` again and starts a new epoch. Returns the
    /// root.
    pub fn basic_safepoint(&mut self, root: Vec<Gc>) -> (r: Vec<Gc>)
        requires
            old(self).wf(),
            forall|k: int| 0 <= k < root@.len() ==> old(self).spec_raw().names_live(#[trigger] root@[k]),
        ensures
            final(self).wf(),
            r@ == root@,
            forall|k: int| 0 <= k < r@.len() ==> final(self).spec_raw().names_live(#[trigger] r@[k]),
            final(self).spec_raw().spec_id() == old(self).spec_raw().spec_id(),
            final(self).spec_raw().spec_stack() == old(self).spec_raw().spec_stack(),
            final(self).spec_raw().spec_heap().next_address == old(self).spec_raw().spec_heap().next_address,
            final(self).spec_raw().spec_epoch() == next_epoch(old(self).spec_raw().spec_epoch()),
            if old(self).spec_raw().spec_live_bytes() >= old(self).spec_raw().spec_threshold() {
                &&& collected(
                    old(self).spec_raw().spec_heap(),
                    stack_roots(old(self).spec_raw().spec_stack().push(root@)),
                    final(self).spec_raw().spec_heap(),
                )
                &&& final(self).spec_raw().spec_threshold() == final(self).spec_raw().spec_live_bytes()
                    + final(self).spec_raw().spec_live_bytes() / 2
            } else {
                &&& final(self).spec_raw().spec_heap() == old(self).spec_raw().spec_heap()
                &&& final(self).spec_raw().spec_threshold() == old(self).spec_raw().spec_threshold()
            },
    {
        let token = self.collector.shadow_stack.push(root);
        proof {
            lemma_shadow_stack_balanced(old(self).spec_raw().spec_stack(), root@);
            assert forall|e: int, k: int|
                0 <= e < self.spec_raw().spec_stack().len() && 0 <= k < self.spec_raw().spec_stack()[e].len()
                implies self.spec_raw().names_live(#[trigger] self.spec_raw().spec_stack()[e][k]) by {
                if e < old(self).spec_raw().spec_stack().len() {
                    assert(self.spec_raw().spec_stack()[e] == old(self).spec_raw().spec_stack()[e]);
                }
            }
        }
        let ghost pushed = self.spec_raw().spec_stack();
        let did = self.collector.maybe_collect();
        if !did {
            self.collector.epoch = if self.collector.epoch == u64::MAX {
                0
            } else {
                self.collector.epoch + 1
            };
        }
        let popped = self.collector.shadow_stack.pop();
        let r = match popped {
            Some((t, r)) => {
                proof {
                    assert(t == token);
                }
                r
            },
            None => Vec::new(),
        };
        proof {
            assert(pushed.last() == root@);
            assert forall|k: int| 0 <= k < r@.len() implies self.spec_raw().names_live(#[trigger] r@[k]) by {
                assert(pushed[pushed.len() - 1] == root@);
                assert(self.spec_raw().names_live(pushed[pushed.len() - 1][k]));
            }
            assert forall|e: int, k: int|
                0 <= e < self.spec_raw().spec_stack().len() && 0 <= k < self.spec_raw().spec_stack()[e].len()
                implies self.spec_raw().names_live(#[trigger] self.spec_raw().spec_stack()[e][k]) by {
                assert(self.spec_raw().spec_stack()[e] == pushed[e]);
            }
        }
        r
    }

    /// The safepoint: declares `root` live, lets a collection run if the
    /// live bytes have reached the threshold, and returns `root` issued in
    /// the new epoch. Every other reference issued before the safepoint is
    /// no longer valid.
    pub fn safepoint(&mut self, root: Vec<Gc>) -> (r: Result<Vec<Gc>, GcError>)
        requires
            old(self).wf(),
        ensures
            final(self).wf(),
            final(self).spec_raw().spec_id() == old(self).spec_raw().spec_id(),
            final(self).spec_raw().spec_stack() == old(self).spec_raw().spec_stack(),
            final(self).spec_raw().spec_heap().next_address == old(self).spec_raw().spec_heap().next_address,
            match r {
                Err(e) => old(self).refs_error(root@) == Some(e) && final(self).spec_raw() == old(self).spec_raw(),
                Ok(new_root) => {
                    &&& old(self).refs_error(root@) is None
                    &&& final(self).spec_raw().spec_epoch() == next_epoch(old(self).spec_raw().spec_epoch())
                    &&& new_root@.len() == root@.len()
                    &&& forall|k: int| 0 <= k < root@.len() ==> {
                        &&& (#[trigger] new_root@[k]).spec_index() == root@[k].spec_index()
                        &&& new_root@[k].spec_address() == root@[k].spec_address()
                        &&& new_root@[k].spec_collector() == root@[k].spec_collector()
                        &&& new_root@[k].spec_epoch() == final(self).spec_raw().spec_epoch()
                        &&& final(self).spec_raw().valid(new_root@[k])
                    }
                    &&& if old(self).spec_raw().spec_live_bytes() >= old(self).spec_raw().spec_threshold() {
                        &&& collected(
                            old(self).spec_raw().spec_heap(),
                            stack_roots(old(self).spec_raw().spec_stack().push(root@)),
                            final(self).spec_raw().spec_heap(),
                        )
                        &&& final(self).spec_raw().spec_threshold() == final(self).spec_raw().spec_live_bytes()
                            + final(self).spec_raw().spec_live_bytes() / 2
                    } else {
                        &&& final(self).spec_raw().spec_heap() == old(self).spec_raw().spec_heap()
                        &&& final(self).spec_raw().spec_threshold() == old(self).spec_raw().spec_threshold()
                    }
                },
            },
    {
        match self.check_refs(&root) {
            Ok(_) => {},
            Err(e) => {
                return Err(e);
            },
        }
        proof {
            assert forall|k: int| 0 <= k < root@.len() implies self.spec_raw().names_live(#[trigger] root@[k]) by {
                assert(self.spec_raw().valid(root@[k]));
            }
        }
        let kept = self.basic_safepoint(root);
        let new_root = self.rebrand_all(&kept);
        Ok(new_root)
    }

    /// The references in `refs`, issued in the current epoch.
    fn rebrand_all(&self, refs: &Vec<Gc>) -> (r: Vec<Gc>)
        requires
            forall|k: int| 0 <= k < refs@.len() ==> self.spec_raw().names_live(#[trigger] refs@[k]),
        ensures
            r@.len() == refs@.len(),
            forall|k: int| 0 <= k < refs@.len() ==> {
                &&& (#[trigger] r@[k]).spec_index() == refs@[k].spec_index()
                &&& r@[k].spec_address() == refs@[k].spec_address()
                &&& r@[k].spec_collector() == refs@[k].spec_collector()
                &&& r@[k].spec_epoch() == self.spec_raw().spec_epoch()
                &&& self.spec_raw().valid(r@[k])
            },
    {
        let mut r: Vec<Gc> = Vec::new();
        let mut k: usize = 0;
        while k < refs.len()
            invariant
                0 <= k <= refs@.len(),
                r@.len() == k,
                forall|q: int| 0 <= q < refs@.len() ==> self.spec_raw().names_live(#[trigger] refs@[q]),
                forall|q: int| 0 <= q < k ==> {
                    &&& (#[trigger] r@[q]).spec_index() == refs@[q].spec_index()
                    &&& r@[q].spec_address() == refs@[q].spec_address()
                    &&& r@[q].spec_collector() == refs@[q].spec_collector()
                    &&& r@[q].spec_epoch() == self.spec_raw().spec_epoch()
                    &&& self.spec_raw().valid(r@[q])
                },
            decreases refs@.len() - k,
        {
            r.push(refs[k].rebrand(self.collector.epoch));
            k = k + 1;
        }
        r
    }

    /// Enters a nested context: pushes `root`, which stays a root until
    /// the matching `exit_context`, and returns the token to leave with.
    /// No collection happens here.
    pub fn enter_context(&mut self, root: Vec<Gc>) -> (r: Result<usize, GcError>)
        requires
            old(self).wf(),
        ensures
            final(self).wf(),
            final(self).spec_raw().spec_id() == old(self).spec_raw().spec_id(),
            final(self).spec_raw().spec_epoch() == old(self).spec_raw().spec_epoch(),
            final(self).spec_raw().spec_heap() == old(self).spec_raw().spec_heap(),
            final(self).spec_raw().spec_threshold() == old(self).spec_raw().spec_threshold(),
            match r {
                Err(e) => old(self).refs_error(root@) == Some(e) && final(self).spec_raw() == old(self).spec_raw(),
                Ok(token) => old(self).refs_error(root@) is None && token == old(self).spec_raw().spec_stack().len()
                    && final(self).spec_raw().spec_stack() == old(self).spec_raw().spec_stack().push(root@),
            },
    {
        match self.check_refs(&root) {
            Ok(_) => {},
            Err(e) => {
                return Err(e);
            },
        }
        let ghost root_view = root@;
        let token = self.collector.shadow_stack.push(root);
        proof {
            assert forall|e: int, k: int|
                0 <= e < self.spec_raw().spec_stack().len() && 0 <= k < self.spec_raw().spec_stack()[e].len()
                implies self.spec_raw().names_live(#[trigger] self.spec_raw().spec_stack()[e][k]) by {
                if e < old(self).spec_raw().spec_stack().len() {
                    assert(self.spec_raw().spec_stack()[e] == old(self).spec_raw().spec_stack()[e]);
                } else {
                    assert(self.spec_raw().spec_stack()[e] == root_view);
                    assert(old(self).spec_raw().valid(root_view[k]));
                }
            }
        }
        Ok(token)
    }

    /// Leaves the nested context entered with `token`: pops its root and
    /// returns it issued in the current epoch. Fails, changing nothing,
    /// unless `token` is that of the innermost context.
    pub fn exit_context(&mut self, token: usize) -> (r: Result<Vec<Gc>, GcError>)
        requires
            old(self).wf(),
        ensures
            final(self).wf(),
            final(self).spec_raw().spec_id() == old(self).spec_raw().spec_id(),
            final(self).spec_raw().spec_epoch() == old(self).spec_raw().spec_epoch(),
            final(self).spec_raw().spec_heap() == old(self).spec_raw().spec_heap(),
            final(self).spec_raw().spec_threshold() == old(self).spec_raw().spec_threshold(),
            (r is Ok) <==> (old(self).spec_raw().spec_stack().len() > 0 && token == old(self).spec_raw().spec_stack().len() - 1),
            match r {
                Err(e) => e == GcError::ShadowStackMismatch && final(self).spec_raw() == old(self).spec_raw(),
                Ok(root) => {
                    let last = old(self).spec_raw().spec_stack().last();
                    &&& final(self).spec_raw().spec_stack() == old(self).spec_raw().spec_stack().drop_last()
                    &&& root@.len() == last.len()
                    &&& forall|k: int| 0 <= k < last.len() ==> {
                        &&& (#[trigger] root@[k]).spec_index() == last[k].spec_index()
                        &&& root@[k].spec_address() == last[k].spec_address()
                        &&& final(self).spec_raw().valid(root@[k])
                    }
                },
            },
    {
        let depth = self.collector.shadow_stack.len();
        if depth == 0 || token != depth - 1 {
            return Err(GcError::ShadowStackMismatch);
        }
        let ghost stack0 = self.spec_raw().spec_stack();
        let root = match self.collector.shadow_stack.pop() {
            Some((_, root)) => root,
            None => Vec::new(),
        };
        proof {
            assert forall|k: int| 0 <= k < root@.len() implies self.spec_raw().names_live(#[trigger] root@[k]) by {
                assert(old(self).spec_raw().names_live(stack0[stack0.len() - 1][k]));
            }
            assert forall|e: int, k: int|
                0 <= e < self.spec_raw().spec_stack().len() && 0 <= k < self.spec_raw().spec_stack()[e].len()
                implies self.spec_raw().names_live(#[trigger] self.spec_raw().spec_stack()[e][k]) by {
                assert(self.spec_raw().spec_stack()[e] == stack0[e]);
            }
        }
        Ok(self.rebrand_all(&root))
    }

    /// Makes field `k` of the object `obj` refer to `target`: the write of a
    /// managed cell inside the payload. Fails, changing nothing, when either
    /// reference belongs to another collector or is not valid, or when the
    /// object has no field `k`.
    pub fn set_field(&mut self, obj: &Gc, k: usize, target: &Gc) -> (r: Result<(), GcError>)
        requires
            old(self).wf(),
        ensures
            final(self).wf(),
            final(self).spec_raw().spec_id() == old(self).spec_raw().spec_id(),
            final(self).spec_raw().spec_epoch() == old(self).spec_raw().spec_epoch(),
            final(self).spec_raw().spec_stack() == old(self).spec_raw().spec_stack(),
            final(self).spec_raw().spec_heap().next_address == old(self).spec_raw().spec_heap().next_address,
            final(self).spec_raw().spec_threshold() == old(self).spec_raw().spec_threshold(),
            final(self).spec_raw().spec_live_bytes() == old(self).spec_raw().spec_live_bytes(),
            forall|g: Gc| #[trigger] old(self).spec_raw().valid(g) ==> final(self).spec_raw().valid(g),
            r is Ok <==> old(self).refs_error(seq![*obj, *target]) is None && k < old(self).spec_raw().spec_heap().fields(
                obj.spec_index() as int,
            ).len(),
            match r {
                Err(e) => final(self).spec_raw() == old(self).spec_raw() && if old(self).refs_error(
                    seq![*obj, *target],
                ) is Some {
                    old(self).refs_error(seq![*obj, *target]) == Some(e)
                } else {
                    e == GcError::NoSuchField
                },
                Ok(()) => {
                    let before = old(self).spec_raw().spec_heap();
                    let after = final(self).spec_raw().spec_heap();
                    let i = obj.spec_index() as int;
                    &&& after.fields(i) == before.fields(i).update(k as int, target.spec_index())
                    &&& after.obj(i).value == before.obj(i).value
                    &&& after.obj(i).header == before.obj(i).header
                    &&& forall|a: int| 0 <= a < before.len() && a != i ==> #[trigger] after.slots@[a]
                        == before.slots@[a]
                },
            },
    {
        let pair = vec![*obj, *target];
        assert(pair@ =~= seq![*obj, *target]);
        match self.check_refs(&pair) {
            Ok(_) => {},
            Err(e) => {
                return Err(e);
            },
        }
        proof {
            assert(self.spec_raw().valid(pair@[0]));
            assert(self.spec_raw().valid(pair@[1]));
        }
        let n = match &self.collector.heap.allocator.slots[obj.index].object {
            Some(o) => o.fields.len(),
            None => 0,
        };
        if k >= n {
            return Err(GcError::NoSuchField);
        }
        let ghost old_heap = self.spec_raw().spec_heap();
        self.collector.heap.allocator.set_field(obj.index, k, target.index);
        proof {
            let h = self.spec_raw().spec_heap();
            assert forall|g: Gc| #[trigger] old(self).spec_raw().valid(g) implies self.spec_raw().valid(g) by {
                let a = g.spec_index() as int;
                if a != obj.spec_index() as int {
                    assert(h.slots@[a] == old_heap.slots@[a]);
                }
            }
            assert forall|e: int, q: int|
                0 <= e < self.spec_raw().spec_stack().len() && 0 <= q < self.spec_raw().spec_stack()[e].len()
                implies self.spec_raw().names_live(#[trigger] self.spec_raw().spec_stack()[e][q]) by {
                assert(self.spec_raw().spec_stack() == old(self).spec_raw().spec_stack());
                assert(old(self).spec_raw().wf());
                let g = old(self).spec_raw().spec_stack()[e][q];
                assert(old(self).spec_raw().names_live(g));
                let a = g.spec_index() as int;
                if a != obj.spec_index() as int {
                    assert(h.slots@[a] == old_heap.slots@[a]);
                }
            }
        }
        Ok(())
    }

    /// Collects now, whatever the live bytes: see
    /// `RawSimpleCollector::perform_collection`. References issued before
    /// are no longer valid.
    pub fn perform_collection(&mut self) -> (dropped: Vec<usize>)
        requires
            old(self).wf(),
        ensures
            final(self).wf(),
            final(self).spec_raw().spec_id() == old(self).spec_raw().spec_id(),
            final(self).spec_raw().spec_stack() == old(self).spec_raw().spec_stack(),
            final(self).spec_raw().spec_heap().next_address == old(self).spec_raw().spec_heap().next_address,
            final(self).spec_raw().spec_epoch() == next_epoch(old(self).spec_raw().spec_epoch()),
            collected(old(self).spec_raw().spec_heap(), old(self).spec_raw().spec_roots(), final(self).spec_raw().spec_heap()),
            forall|i: usize| dropped@.contains(i) <==> (i < old(self).spec_raw().spec_heap().len()
                && old(self).spec_raw().spec_heap().live(i as int)
                && !reachable(old(self).spec_raw().spec_heap(), old(self).spec_raw().spec_roots(), i as int)
                && old(self).spec_raw().spec_heap().obj(i as int).header.type_info.spec_needs_drop()),
            dropped@.no_duplicates(),
            final(self).spec_raw().spec_threshold() == final(self).spec_raw().spec_live_bytes()
                + final(self).spec_raw().spec_live_bytes() / 2,
            final(self).spec_raw().spec_live_bytes() == reachable_bytes(
                old(self).spec_raw().spec_heap(),
                old(self).spec_raw().spec_roots(),
                old(self).spec_raw().spec_heap().len(),
            ),
    {
        self.collector.perform_collection()
    }

    /// The identity of this context's collector.
    pub fn collector_id(&self) -> (r: u64)
        ensures
            r == self.spec_raw().spec_id(),
    {
        self.collector.id
    }

    /// The current epoch.
    pub fn epoch(&self) -> (r: u64)
        ensures
            r == self.spec_raw().spec_epoch(),
    {
        self.collector.epoch
    }

    /// The bytes held by live objects.
    pub fn live_bytes(&self) -> (r: usize)
        ensures
            r == self.spec_raw().spec_live_bytes(),
    {
        self.collector.heap.allocator.allocated_size()
    }

    /// The live bytes at which the next safepoint collects.
    pub fn threshold(&self) -> (r: usize)
        ensures
            r == self.spec_raw().spec_threshold(),
    {
        self.collector.heap.threshold
    }

    /// The number of entries on the shadow stack.
    pub fn stack_depth(&self) -> (r: usize)
        ensures
            r == self.spec_raw().spec_stack().len(),
    {
        self.collector.shadow_stack.len()
    }

    /// The number of live large objects.
    pub fn large_object_count(&self) -> (r: usize)
        ensures
            r == self.spec_raw().spec_heap().large@.len(),
    {
        self.collector.heap.allocator.large.len()
    }

    /// The object `gc` names is on the large-object list.
    pub fn in_large_list(&self, gc: &Gc) -> (r: bool)
        ensures
            r == self.spec_raw().spec_heap().large@.contains(gc.spec_index()),
    {
        let large = &self.collector.heap.allocator.large;
        let mut k: usize = 0;
        while k < large.len()
            invariant
                0 <= k <= large@.len(),
                large@ == self.spec_raw().spec_heap().large@,
                forall|q: int| 0 <= q < k ==> large@[q] != gc.spec_index(),
            decreases large@.len() - k,
        {
            if large[k] == gc.index {
                return true;
            }
            k = k + 1;
        }
        false
    }
}

impl<V: GcSafe> SimpleCollectorContext<V> {
    /// Allocates `value` with the descriptor of `V`; the managed references
    /// of the new object are those found by tracing `value`.
    ///
    /// Fails, changing nothing, when the layout of `V` is beyond what a
    /// descriptor accepts, when a reference in `value` belongs to another
    /// collector or is not valid, or when the heap's limits would be
    /// exceeded.
    pub fn alloc_value(&mut self, value: V) -> (r: Result<Gc, GcError>)
        requires
            old(self).wf(),
        ensures
            final(self).wf(),
            final(self).spec_raw().spec_id() == old(self).spec_raw().spec_id(),
            final(self).spec_raw().spec_epoch() == old(self).spec_raw().spec_epoch(),
            final(self).spec_raw().spec_stack() == old(self).spec_raw().spec_stack(),
            final(self).spec_raw().spec_threshold() == old(self).spec_raw().spec_threshold(),
            forall|g: Gc| #[trigger] old(self).spec_raw().valid(g) ==> final(self).spec_raw().valid(g),
            old(self).spec_raw().spec_heap().next_address <= final(self).spec_raw().spec_heap().next_address
                <= old(self).spec_raw().spec_heap().next_address + crate::layout::LARGEST_SMALL_CLASS
                + spec_total_for(vstd::layout::size_of::<V>(), vstd::layout::align_of::<V>()),
            r is Ok <==> valid_layout(vstd::layout::size_of::<V>(), vstd::layout::align_of::<V>())
                && old(self).refs_error(value.spec_refs()) is None && old(self).spec_raw().spec_heap().fits_bytes(
                spec_total_for(vstd::layout::size_of::<V>(), vstd::layout::align_of::<V>()),
            ),
            match r {
                Err(e) => final(self).spec_raw() == old(self).spec_raw() && if !valid_layout(
                    vstd::layout::size_of::<V>(),
                    vstd::layout::align_of::<V>(),
                ) {
                    e == GcError::UnsupportedLayout
                } else if old(self).refs_error(value.spec_refs()) is Some {
                    old(self).refs_error(value.spec_refs()) == Some(e)
                } else {
                    e == GcError::OutOfMemory
                },
                Ok(gc) => {
                    let h = final(self).spec_raw().spec_heap();
                    let i = gc.spec_index() as int;
                    &&& final(self).spec_raw().valid(gc)
                    &&& !old(self).spec_raw().spec_heap().live(i)
                    &&& h.obj(i).value == value
                    &&& h.fields(i) == gc_indices(value.spec_refs())
                    &&& h.obj(i).header.type_info.spec_needs_trace() == V::spec_needs_trace()
                    &&& h.obj(i).header.type_info.spec_needs_drop() == V::spec_needs_drop()
                    &&& forall|j: int| j != i && #[trigger] h.live(j) ==> h.payload_address(j) != gc.spec_address()
                    &&& forall|j: int| j != i && old(self).spec_raw().spec_heap().live(j) ==> #[trigger] h.obj(j)
                        == old(self).spec_raw().spec_heap().obj(j)
                    &&& h.obj(i).header.type_info.spec_value_size() == vstd::layout::size_of::<V>()
                    &&& final(self).spec_raw().spec_live_bytes() == old(self).spec_raw().spec_live_bytes()
                        + spec_total_for(vstd::layout::size_of::<V>(), vstd::layout::align_of::<V>())
                },
            },
    {
        let ty = match type_info::<V>() {
            Some(ty) => ty,
            None => {
                return Err(GcError::UnsupportedLayout);
            },
        };
        let mut visitor = GcVisitor::recorder();
        value.visit(&mut visitor);
        let refs = visitor.into_visited();
        proof {
            assert(refs@ =~= value.spec_refs());
            if !V::spec_needs_trace() {
                value.lemma_untraced_has_no_refs();
            }
        }
        self.allocate(ty, value, refs)
    }
}

impl<V: PartialEq> SimpleCollectorContext<V> {
    /// Compares the payloads of two managed references: references are
    /// equal when the values they point to are. `None` unless both are
    /// valid.
    pub fn payload_eq(&self, a: &Gc, b: &Gc) -> (r: Option<bool>)
        requires
            self.wf(),
        ensures
            r is Some <==> self.spec_raw().valid(*a) && self.spec_raw().valid(*b),
            r matches Some(e) ==> (<V as vstd::std_specs::cmp::PartialEqSpec>::obeys_eq_spec() ==> e
                == <V as vstd::std_specs::cmp::PartialEqSpec>::eq_spec(
                &self.spec_raw().spec_heap().obj(a.spec_index() as int).value,
                &self.spec_raw().spec_heap().obj(b.spec_index() as int).value,
            )),
    {
        match (self.get(a), self.get(b)) {
            (Some(x), Some(y)) => Some(x.eq(y)),
            _ => None,
        }
    }
}

/// Total bytes of the objects in the first `n` slots of `h` that are
/// reachable from `roots`.
pub open spec fn reachable_bytes<V>(h: SimpleAlloc<V>, roots: Set<int>, n: int) -> nat
    decreases n,
{
    if n <= 0 || n > h.len() {
        0
    } else {
        reachable_bytes(h, roots, n - 1) + if h.live(n - 1) && reachable(h, roots, n - 1) {
            crate::heap::slot_size(h.slots@[n - 1])
        } else {
            0
        }
    }
}

proof fn lemma_live_sum_collected<V>(before: SimpleAlloc<V>, roots: Set<int>, after: SimpleAlloc<V>, n: int)
    requires
        collected(before, roots, after),
        before.all_white(),
        0 <= n <= before.len(),
    ensures
        live_sum(after.slots@, n) == reachable_bytes(before, roots, n),
    decreases n,
{
    if n > 0 {
        lemma_live_sum_collected(before, roots, after, n - 1);
        if before.live(n - 1) {
            assert(before.state(n - 1) == MarkState::White);
        }
        assert(after.slots@[n - 1] == if before.live(n - 1) && reachable(before, roots, n - 1) {
            before.slots@[n - 1]
        } else {
            swept(before.slots@[n - 1])
        });
    }
}

/// After a collection from `roots`, the objects left are exactly those
/// reachable from `roots`, every one of them is white, and the live bytes
/// are their total size.
pub proof fn lemma_collection_keeps_reachable<V>(before: SimpleAlloc<V>, roots: Set<int>, after: SimpleAlloc<V>)
    requires
        before.at_rest(),
        after.wf(),
        collected(before, roots, after),
    ensures
        forall|i: int| 0 <= i < before.len() ==> (#[trigger] after.live(i) <==> before.live(i) && reachable(
            before,
            roots,
            i,
        )),
        forall|i: int| #[trigger] after.live(i) ==> after.state(i) == MarkState::White,
        after.allocated_size == reachable_bytes(before, roots, before.len()),
{
    lemma_live_sum_collected(before, roots, after, before.len());
    assert forall|i: int| #[trigger] after.live(i) implies after.state(i) == MarkState::White by {
        assert(after.slots@[i] == if before.live(i) && reachable(before, roots, i) {
            before.slots@[i]
        } else {
            swept(before.slots@[i])
        });
        if before.live(i) {
            assert(before.state(i) == MarkState::White);
        }
    }
    assert forall|i: int| 0 <= i < before.len() implies (#[trigger] after.live(i) <==> before.live(i)
        && reachable(before, roots, i)) by {
        assert(after.slots@[i] == if before.live(i) && reachable(before, roots, i) {
            before.slots@[i]
        } else {
            swept(before.slots@[i])
        });
        if before.live(i) {
            assert(before.state(i) == MarkState::White);
        }
    }
}

proof fn lemma_nothing_reachable_from_no_roots<V>(h: SimpleAlloc<V>, n: nat)
    ensures
        reach_within(h, Set::empty(), n) == Set::<int>::empty(),
    decreases n,
{
    if n > 0 {
        lemma_nothing_reachable_from_no_roots(h, (n - 1) as nat);
        assert(reach_within(h, Set::empty(), n) =~= Set::<int>::empty());
    }
}

proof fn lemma_reachable_bytes_none<V>(h: SimpleAlloc<V>, n: int)
    requires
        0 <= n <= h.len(),
    ensures
        reachable_bytes(h, Set::empty(), n) == 0,
    decreases n,
{
    if n > 0 {
        lemma_reachable_bytes_none(h, n - 1);
        if reachable(h, Set::empty(), n - 1) {
            let m = choose|m: nat| #[trigger] reach_within(h, Set::empty(), m).contains(n - 1);
            lemma_nothing_reachable_from_no_roots(h, m);
        }
    }
}

/// A collection with no roots frees every object and leaves no live bytes.
pub proof fn lemma_collection_without_roots<V>(before: SimpleAlloc<V>, after: SimpleAlloc<V>)
    requires
        before.at_rest(),
        after.wf(),
        collected(before, Set::empty(), after),
    ensures
        forall|i: int| !#[trigger] after.live(i),
        after.allocated_size == 0,
{
    lemma_collection_keeps_reachable(before, Set::empty(), after);
    lemma_reachable_bytes_none(before, before.len());
    assert forall|i: int| !#[trigger] after.live(i) by {
        if after.live(i) {
            assert(reachable(before, Set::empty(), i));
            let m = choose|m: nat| #[trigger] reach_within(before, Set::empty(), m).contains(i);
            lemma_nothing_reachable_from_no_roots(before, m);
        }
    }
}

/// An object reachable from the roots survives a collection unchanged, at
/// the same payload address: objects never move.
pub proof fn lemma_collection_keeps_addresses<V>(
    before: SimpleAlloc<V>,
    roots: Set<int>,
    after: SimpleAlloc<V>,
    i: int,
)
    requires
        collected(before, roots, after),
        before.live(i),
        reachable(before, roots, i),
    ensures
        after.live(i),
        after.obj(i) == before.obj(i),
        after.payload_address(i) == before.payload_address(i),
{
    assert(after.slots@[i] == before.slots@[i]);
}

/// The threshold a collection sets, one and a half times the surviving
/// bytes, is not below the initial threshold once 1366 bytes or more
/// survive.
pub proof fn lemma_threshold_not_below_initial(surviving: nat)
    requires
        surviving >= 1366,
    ensures
        surviving + surviving / 2 >= INITIAL_COLLECTION_THRESHOLD,
{
}

} // verus!
