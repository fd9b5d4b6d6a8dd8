//! The allocator: small-object arenas with free lists, the large-object
//! list, the live-byte accounting, and the sweep that reclaims white
//! objects.
use vstd::prelude::*;
use crate::layout::{
    LARGEST_SMALL_CLASS, GcType, GcHeader, MarkState, SIZE_CLASS_COUNT, class_size, find_class, size_class,
};

verus! {

/// The largest number of live bytes the heap accepts.
pub const HEAP_LIMIT: usize = usize::MAX / 4;

/// The first address handed to an object header.
pub const HEAP_BASE: u64 = 0x1000;

/// The end of the address range that object headers are placed in.
pub const ADDRESS_LIMIT: u64 = 0x8000_0000_0000_0000;

/// A live managed object: header, payload, and the slots of the objects
/// its payload refers to.
pub struct GcObject<V> {
    pub header: GcHeader,
    pub value: V,
    pub fields: Vec<usize>,
}

/// A place an object can occupy: a slot of a small arena (`class` is the
/// size class) or a large box (`class` is `None`).
pub struct Slot<V> {
    pub header_address: u64,
    pub class: Option<usize>,
    pub object: Option<GcObject<V>>,
}

/// The free lists of the small-object arenas, one per size class.
pub struct SmallArenaList {
    pub free: Vec<Vec<usize>>,
}

/// The allocator state.
pub struct SimpleAlloc<V> {
    pub slots: Vec<Slot<V>>,
    pub small_arenas: SmallArenaList,
    /// Live large objects, most recently allocated last.
    pub large: Vec<usize>,
    pub allocated_size: usize,
    pub next_address: u64,
}

/// Bytes the object in this slot accounts for (zero when the slot is free).
pub open spec fn slot_size<V>(s: Slot<V>) -> nat {
    match s.object {
        Some(o) => o.header.type_info.spec_total_size(),
        None => 0,
    }
}

/// Total bytes of the objects in the first `n` slots.
pub open spec fn live_sum<V>(s: Seq<Slot<V>>, n: int) -> nat
    decreases n,
{
    if n <= 0 || n > s.len() {
        0
    } else {
        live_sum(s, n - 1) + slot_size(s[n - 1])
    }
}

pub proof fn lemma_live_sum_same<V>(s1: Seq<Slot<V>>, s2: Seq<Slot<V>>, n: int)
    requires
        0 <= n <= s1.len(),
        n <= s2.len(),
        forall|i: int| 0 <= i < n ==> slot_size(#[trigger] s1[i]) == slot_size(s2[i]),
    ensures
        live_sum(s1, n) == live_sum(s2, n),
    decreases n,
{
    if n > 0 {
        lemma_live_sum_same(s1, s2, n - 1);
    }
}

pub proof fn lemma_live_sum_update<V>(s: Seq<Slot<V>>, i: int, x: Slot<V>, n: int)
    requires
        0 <= i < n <= s.len(),
    ensures
        live_sum(s.update(i, x), n) == live_sum(s, n) - slot_size(s[i]) + slot_size(x),
    decreases n,
{
    if n - 1 > i {
        lemma_live_sum_update(s, i, x, n - 1);
    } else {
        lemma_live_sum_same(s.update(i, x), s, n - 1);
    }
}

pub proof fn lemma_live_sum_push<V>(s: Seq<Slot<V>>, x: Slot<V>)
    ensures
        live_sum(s.push(x), s.len() + 1int) == live_sum(s, s.len() as int) + slot_size(x),
{
    lemma_live_sum_same(s.push(x), s, s.len() as int);
}

/// The bytes of address space a slot holds on to: its size class, or the
/// size of the large object in it.
pub open spec fn reserved<V>(s: Slot<V>) -> nat {
    match s.class {
        Some(c) => class_size(c as int),
        None => match s.object {
            Some(o) => o.header.type_info.spec_total_size(),
            None => 0,
        },
    }
}

/// The end of the address range a slot holds on to.
pub open spec fn slot_end<V>(s: Slot<V>) -> int {
    s.header_address + reserved(s)
}

/// A slot on its own is consistent: its range ends by `next_address`, its
/// class is a size class, and a live object's type fits where it is.
pub open spec fn slot_ok<V>(s: Slot<V>, next_address: u64) -> bool {
    &&& slot_end(s) <= next_address
    &&& match s.class {
        Some(c) => c < SIZE_CLASS_COUNT,
        None => true,
    }
    &&& match s.object {
        Some(o) => {
            &&& o.header.type_info.wf()
            &&& match s.class {
                Some(c) => o.header.type_info.spec_is_small() && o.header.type_info.spec_total_size()
                    <= class_size(c as int),
                None => !o.header.type_info.spec_is_small(),
            }
        },
        None => true,
    }
}

/// Bytes the payload of this object starts after its header.
pub open spec fn object_offset<V>(o: GcObject<V>) -> nat {
    o.header.type_info.spec_value_offset()
}

/// A live object earlier in the slots has the lower payload address.
proof fn lemma_payload_before<V>(h: SimpleAlloc<V>, i: int, j: int)
    requires
        h.wf(),
        h.live(i),
        h.live(j),
        i < j,
    ensures
        h.payload_address(i) < h.payload_address(j),
{
    assert(slot_ok(h.slots@[i], h.next_address));
    assert(slot_ok(h.slots@[j], h.next_address));
    assert(slot_end(h.slots@[i]) <= h.slots@[j].header_address);
}

/// Distinct live objects have distinct payload addresses.
pub proof fn lemma_payloads_distinct<V>(h: SimpleAlloc<V>, i: int, j: int)
    requires
        h.wf(),
        h.live(i),
        h.live(j),
        i != j,
    ensures
        h.payload_address(i) != h.payload_address(j),
{
    if i < j {
        lemma_payload_before(h, i, j);
    } else {
        lemma_payload_before(h, j, i);
    }
}

/// Changing or adding the object in one slot, white and with fields that
/// name objects live before, keeps fields closed, tracing consistent and
/// every object white.
proof fn lemma_one_slot_changed<V>(before: SimpleAlloc<V>, after: SimpleAlloc<V>, i: int)
    requires
        before.at_rest(),
        after.len() == before.len() || (after.len() == before.len() + 1 && i == before.len()),
        0 <= i < after.len(),
        forall|j: int| 0 <= j < before.len() && j != i ==> #[trigger] after.slots@[j] == before.slots@[j],
        after.live(i),
        after.state(i) == MarkState::White,
        forall|k: int| 0 <= k < after.fields(i).len() ==> before.live(#[trigger] after.fields(i)[k] as int),
        !after.obj(i).header.type_info.spec_needs_trace() ==> after.fields(i).len() == 0,
    ensures
        after.fields_closed(),
        after.trace_consistent(),
        after.all_white(),
{
    assert forall|j: int, k: int| after.live(j) && 0 <= k < after.fields(j).len() implies after.live(
        #[trigger] after.fields(j)[k] as int,
    ) by {
        let f = after.fields(j)[k] as int;
        if j != i {
            assert(after.slots@[j] == before.slots@[j]);
            assert(before.live(before.fields(j)[k] as int));
        }
        assert(before.live(f));
        if f != i {
            assert(after.slots@[f] == before.slots@[f]);
        }
    }
    assert forall|j: int| after.live(j) && !(#[trigger] after.obj(j)).header.type_info.spec_needs_trace()
        implies after.fields(j).len() == 0 by {
        if j != i {
            assert(after.slots@[j] == before.slots@[j]);
            assert(before.live(j));
            assert(before.obj(j) == after.obj(j));
        }
    }
    assert forall|j: int| after.live(j) implies #[trigger] after.state(j) == MarkState::White by {
        if j != i {
            assert(after.slots@[j] == before.slots@[j]);
            assert(before.live(j));
            assert(before.state(j) == MarkState::White);
        }
    }
}

impl SmallArenaList {
    /// One empty free list per size class.
    pub fn new() -> (r: SmallArenaList)
        ensures
            r.free@.len() == SIZE_CLASS_COUNT,
            forall|c: int| 0 <= c < SIZE_CLASS_COUNT ==> (#[trigger] r.free@[c])@.len() == 0,
    {
        let mut free: Vec<Vec<usize>> = Vec::new();
        let mut c: usize = 0;
        while c < SIZE_CLASS_COUNT
            invariant
                c <= SIZE_CLASS_COUNT,
                free@.len() == c,
                forall|d: int| 0 <= d < c ==> (#[trigger] free@[d])@.len() == 0,
            decreases SIZE_CLASS_COUNT - c,
        {
            free.push(Vec::new());
            c = c + 1;
        }
        SmallArenaList { free }
    }

    /// The size class of the arena that objects of type `ty` go in, or
    /// `None` for a type that takes the large path.
    pub fn find(&self, ty: &GcType) -> (r: Option<usize>)
        requires
            ty.wf(),
        ensures
            r is Some <==> ty.spec_is_small(),
            r matches Some(c) ==> c < SIZE_CLASS_COUNT && ty.spec_total_size() <= class_size(c as int)
                && forall|d: int| 0 <= d < c ==> class_size(d) < ty.spec_total_size(),
    {
        if ty.is_small() {
            find_class(ty.total_size())
        } else {
            None
        }
    }
}

impl<V> SimpleAlloc<V> {
    pub open spec fn len(&self) -> int {
        self.slots@.len() as int
    }

    pub open spec fn live(&self, i: int) -> bool {
        0 <= i < self.len() && self.slots@[i].object is Some
    }

    pub open spec fn obj(&self, i: int) -> GcObject<V> {
        self.slots@[i].object->Some_0
    }

    pub open spec fn state(&self, i: int) -> MarkState {
        self.obj(i).header.state
    }

    pub open spec fn fields(&self, i: int) -> Seq<usize> {
        self.obj(i).fields@
    }

    /// The payload address of the object in slot `i`.
    pub open spec fn payload_address(&self, i: int) -> int {
        self.slots@[i].header_address + object_offset(self.obj(i))
    }

    /// The object in slot `i` refers to the object in slot `j`.
    pub open spec fn edge(&self, i: int, j: int) -> bool {
        self.live(i) && exists|k: int| 0 <= k < self.fields(i).len() && self.fields(i)[k] == j
    }

    /// Every field of every live object names a live object.
    pub open spec fn fields_closed(&self) -> bool {
        forall|i: int, k: int|
            self.live(i) && 0 <= k < self.fields(i).len() ==> self.live(#[trigger] self.fields(
                i,
            )[k] as int)
    }

    /// Live objects whose type declares no managed references hold none.
    pub open spec fn trace_consistent(&self) -> bool {
        forall|i: int|
            self.live(i) && !(#[trigger] self.obj(i)).header.type_info.spec_needs_trace()
                ==> self.fields(i).len() == 0
    }

    /// The free lists of the arenas hold free slots of their class, once each.
    pub open spec fn arenas_wf(&self) -> bool {
        &&& self.small_arenas.free@.len() == SIZE_CLASS_COUNT
        &&& forall|c: int, k: int|
            0 <= c < SIZE_CLASS_COUNT && 0 <= k < self.small_arenas.free@[c]@.len() ==> {
                let i = #[trigger] self.small_arenas.free@[c]@[k] as int;
                &&& 0 <= i < self.len()
                &&& self.slots@[i].object is None
                &&& self.slots@[i].class == Some(c as usize)
            }
        &&& forall|c: int, k1: int, k2: int|
            0 <= c < SIZE_CLASS_COUNT && 0 <= k1 < k2 < self.small_arenas.free@[c]@.len()
                ==> #[trigger] self.small_arenas.free@[c]@[k1] != #[trigger] self.small_arenas.free@[c]@[k2]
    }

    /// The large list holds exactly the live large objects, once each.
    pub open spec fn large_wf(&self) -> bool {
        &&& forall|k: int|
            0 <= k < self.large@.len() ==> {
                let i = #[trigger] self.large@[k] as int;
                &&& self.live(i)
                &&& self.slots@[i].class is None
            }
        &&& forall|i: int|
            self.live(i) && self.slots@[i].class is None ==> #[trigger] self.large@.contains(
                i as usize,
            )
        &&& self.large@.no_duplicates()
    }

    /// Each slot's header address, and each live object's type and class,
    /// are consistent.
    pub open spec fn slots_wf(&self) -> bool {
        &&& HEAP_BASE <= self.next_address <= ADDRESS_LIMIT
        &&& forall|i: int| 0 <= i < self.len() ==> slot_ok(#[trigger] self.slots@[i], self.next_address)
        &&& forall|i: int, j: int|
            #![trigger self.slots@[i], self.slots@[j]]
            0 <= i < j < self.len() ==> slot_end(self.slots@[i]) <= self.slots@[j].header_address
    }

    /// The allocator's invariant.
    pub open spec fn wf(&self) -> bool {
        &&& self.slots_wf()
        &&& self.arenas_wf()
        &&& self.large_wf()
        &&& self.fields_closed()
        &&& self.trace_consistent()
        &&& self.allocated_size == live_sum(self.slots@, self.len())
        &&& self.allocated_size <= HEAP_LIMIT
    }

    /// Every live object is white.
    pub open spec fn all_white(&self) -> bool {
        forall|i: int| self.live(i) ==> #[trigger] self.state(i) == MarkState::White
    }

    /// The allocator's invariant between collections.
    pub open spec fn at_rest(&self) -> bool {
        self.wf() && self.all_white()
    }

    /// An allocation of this type with these fields fits the heap's limits.
    pub open spec fn fits(&self, ty: GcType) -> bool {
        self.fits_bytes(ty.spec_total_size())
    }

    /// An allocation of `total` bytes fits the heap's limits.
    pub open spec fn fits_bytes(&self, total: nat) -> bool {
        &&& self.allocated_size + total <= HEAP_LIMIT
        &&& self.next_address + total + 128 <= ADDRESS_LIMIT
    }

    /// A fresh, empty allocator.
    pub fn new() -> (r: SimpleAlloc<V>)
        ensures
            r.at_rest(),
            r.len() == 0,
            r.allocated_size == 0,
            r.large@.len() == 0,
            r.next_address == HEAP_BASE,
    {
        SimpleAlloc {
            slots: Vec::new(),
            small_arenas: SmallArenaList::new(),
            large: Vec::new(),
            allocated_size: 0,
            next_address: HEAP_BASE,
        }
    }

    /// Bytes currently held by live objects.
    pub fn allocated_size(&self) -> (r: usize)
        ensures
            r == self.allocated_size,
    {
        self.allocated_size
    }

    /// Allocates an object of type `ty` holding `value`, whose payload
    /// refers to the objects in the slots `fields`. Small types take a
    /// free slot of their size class when one exists.
    pub fn allocate(&mut self, ty: GcType, value: V, fields: Vec<usize>) -> (r: usize)
        requires
            old(self).at_rest(),
            ty.wf(),
            old(self).fits(ty),
            forall|k: int| 0 <= k < fields@.len() ==> old(self).live(#[trigger] fields@[k] as int),
            !ty.spec_needs_trace() ==> fields@.len() == 0,
        ensures
            final(self).at_rest(),
            !old(self).live(r as int),
            final(self).live(r as int),
            final(self).obj(r as int).header.type_info == ty,
            final(self).obj(r as int).value == value,
            final(self).fields(r as int) == fields@,
            final(self).allocated_size == old(self).allocated_size + ty.spec_total_size(),
            final(self).len() >= old(self).len(),
            old(self).next_address <= final(self).next_address <= old(self).next_address + if ty.spec_is_small() {
                LARGEST_SMALL_CLASS as nat
            } else {
                ty.spec_total_size()
            },
            forall|i: int| i != r && old(self).live(i) ==> final(self).live(i)
                && #[trigger] final(self).obj(i) == old(self).obj(i)
                && final(self).payload_address(i) == old(self).payload_address(i),
            forall|i: int| i != r && 0 <= i < final(self).len() ==> (final(self).live(i)
                <==> old(self).live(i)),
            final(self).payload_address(r as int) == final(self).slots@[r as int].header_address
                + ty.spec_value_offset(),
            forall|i: int| i != r && #[trigger] final(self).live(i) ==> final(self).payload_address(i)
                != final(self).payload_address(r as int),
            ty.spec_is_small() <==> final(self).slots@[r as int].class is Some,
            final(self).large@ == if ty.spec_is_small() { old(self).large@ } else {
                old(self).large@.push(r)
            },
    {
        let object = GcObject {
            header: GcHeader { type_info: ty, state: MarkState::White },
            value,
            fields,
        };
        let total = ty.total_size();
        if let Some(c) = self.small_arenas.find(&ty) {
            let n = self.small_arenas.free[c].len();
            if n > 0 {
                let ghost old_slots = self.slots@;
                let i = self.small_arenas.free[c][n - 1];
                let ghost old_free = self.small_arenas.free@;
                let mut list = self.small_arenas.free.remove(c);
                list.pop();
                self.small_arenas.free.insert(c, list);
                assert(self.small_arenas.free@ =~= old_free.update(c as int, list));
                let header_address = self.slots[i].header_address;
                let slot = Slot { header_address, class: Some(c), object: Some(object) };
                self.slots.set(i, slot);
                proof {
                    lemma_live_sum_update(old_slots, i as int, self.slots@[i as int], old_slots.len() as int);
                }
                self.allocated_size = self.allocated_size + total;
                proof {
                    assert forall|k: int| 0 <= k < self.large@.len() implies ({
                        let j = #[trigger] self.large@[k] as int;
                        &&& self.live(j)
                        &&& self.slots@[j].class is None
                    }) by {
                        assert(old(self).live(self.large@[k] as int));
                    }
                    assert forall|cc: int, k: int|
                        0 <= cc < SIZE_CLASS_COUNT && 0 <= k < self.small_arenas.free@[cc]@.len() implies ({
                            let j = #[trigger] self.small_arenas.free@[cc]@[k] as int;
                            &&& 0 <= j < self.len()
                            &&& self.slots@[j].object is None
                            &&& self.slots@[j].class == Some(cc as usize)
                        }) by {
                        if cc == c {
                            assert(self.small_arenas.free@[cc]@[k] == old(self).small_arenas.free@[cc]@[k]);
                            assert(old(self).small_arenas.free@[cc]@[k] != old(self).small_arenas.free@[cc]@[n - 1]);
                        } else {
                            assert(self.small_arenas.free@[cc] == old(self).small_arenas.free@[cc]);
                        }
                    }
                    assert forall|cc: int, k1: int, k2: int|
                        0 <= cc < SIZE_CLASS_COUNT && 0 <= k1 < k2 < self.small_arenas.free@[cc]@.len()
                        implies #[trigger] self.small_arenas.free@[cc]@[k1] != #[trigger] self.small_arenas.free@[cc]@[k2] by {
                        if cc == c {
                            assert(self.small_arenas.free@[cc]@[k1] == old(self).small_arenas.free@[cc]@[k1]);
                            assert(self.small_arenas.free@[cc]@[k2] == old(self).small_arenas.free@[cc]@[k2]);
                        } else {
                            assert(self.small_arenas.free@[cc] == old(self).small_arenas.free@[cc]);
                        }
                    }
                    
                    
            
                    lemma_one_slot_changed(*old(self), *self, i as int);
                    assert(self.slots_wf());
                }
                i
            } else {
                let i = self.slots.len();
                let header_address = self.next_address;
                let ghost old_slots = self.slots@;
                self.slots.push(Slot { header_address, class: Some(c), object: Some(object) });
                self.next_address = self.next_address + size_class(c) as u64;
                proof {
                    lemma_live_sum_push(old_slots, self.slots@[i as int]);
                }
                self.allocated_size = self.allocated_size + total;
                proof {
                    assert(self.slots@[i as int].header_address < self.next_address);
                    
                    assert forall|k: int| 0 <= k < self.large@.len() implies ({
                        let j = #[trigger] self.large@[k] as int;
                        &&& self.live(j)
                        &&& self.slots@[j].class is None
                    }) by {
                        assert(old(self).live(self.large@[k] as int));
                    }
                    
            
                    lemma_one_slot_changed(*old(self), *self, i as int);
                    assert(self.slots_wf());
                }
                i
            }
        } else {
            self.alloc_big(object)
        }
    }

    /// Makes field `k` of the object in slot `i` refer to the object in
    /// slot `j`.
    pub fn set_field(&mut self, i: usize, k: usize, j: usize)
        requires
            old(self).at_rest(),
            old(self).live(i as int),
            old(self).live(j as int),
            k < old(self).fields(i as int).len(),
        ensures
            final(self).at_rest(),
            final(self).len() == old(self).len(),
            final(self).live(i as int),
            final(self).fields(i as int) == old(self).fields(i as int).update(k as int, j),
            final(self).obj(i as int).value == old(self).obj(i as int).value,
            final(self).obj(i as int).header == old(self).obj(i as int).header,
            final(self).slots@[i as int].header_address == old(self).slots@[i as int].header_address,
            final(self).slots@[i as int].class == old(self).slots@[i as int].class,
            forall|a: int| 0 <= a < old(self).len() && a != i ==> #[trigger] final(self).slots@[a] == old(
                self,
            ).slots@[a],
            final(self).allocated_size == old(self).allocated_size,
            final(self).large == old(self).large,
            final(self).next_address == old(self).next_address,
    {
        let header_address = self.slots[i].header_address;
        let class = self.slots[i].class;
        let ghost old_slots = self.slots@;
        let old_slot = replace_slot(&mut self.slots, i, Slot { header_address, class, object: None });
        let new_slot = match old_slot.object {
            Some(o) => {
                let GcObject { header, value, fields } = o;
                let mut fields = fields;
                fields.set(k, j);
                Slot { header_address, class, object: Some(GcObject { header, value, fields }) }
            },
            None => Slot { header_address, class, object: None },
        };
        let _ = replace_slot(&mut self.slots, i, new_slot);
        proof {
            lemma_live_sum_update(old_slots, i as int, self.slots@[i as int], old_slots.len() as int);
            assert(self.slots@ =~= old_slots.update(i as int, self.slots@[i as int]));
            assert forall|q: int| 0 <= q < self.large@.len() implies ({
                let a = #[trigger] self.large@[q] as int;
                &&& self.live(a)
                &&& self.slots@[a].class is None
            }) by {
                assert(old(self).live(self.large@[q] as int));
            }
            assert forall|c: int, q: int|
                0 <= c < SIZE_CLASS_COUNT && 0 <= q < self.small_arenas.free@[c]@.len() implies ({
                    let a = #[trigger] self.small_arenas.free@[c]@[q] as int;
                    &&& 0 <= a < self.len()
                    &&& self.slots@[a].object is None
                    &&& self.slots@[a].class == Some(c as usize)
                }) by {
                let a = self.small_arenas.free@[c]@[q] as int;
                assert(old(self).slots@[a].object is None);
            }
            assert(old(self).state(i as int) == MarkState::White);
            lemma_one_slot_changed(*old(self), *self, i as int);
            assert(self.slots_wf());
        }
    }

    /// Marking has finished: no object is grey, and black objects refer
    /// only to black objects.
    pub open spec fn marked(&self) -> bool {
        &&& forall|i: int| self.live(i) ==> #[trigger] self.state(i) != MarkState::Grey
        &&& forall|i: int, k: int|
            self.live(i) && self.state(i) == MarkState::Black && 0 <= k < self.fields(i).len()
                ==> self.state(#[trigger] self.fields(i)[k] as int) == MarkState::Black
    }

    /// Reclaims every white object and resets every black one to white.
    ///
    /// Small objects are found by walking the arenas' slots, and a freed
    /// slot goes on its arena's free list; large objects are found by
    /// walking the large-object list, which keeps only the survivors.
    /// Returns the slots whose payload had a destructor, which ran when the
    /// payload was dropped.
    pub fn sweep(&mut self) -> (dropped: Vec<usize>)
        requires
            old(self).wf(),
            old(self).marked(),
        ensures
            final(self).at_rest(),
            final(self).slots@ == old(self).slots@.map_values(|s: Slot<V>| swept(s)),
            final(self).next_address == old(self).next_address,
            forall|i: int| 0 <= i < old(self).len() ==> (final(self).live(i) <==> old(self).live(i)
                && old(self).state(i) == MarkState::Black),
            forall|i: usize| dropped@.contains(i) <==> (i < old(self).len() && drops_in_sweep(
                old(self).slots@[i as int],
            )),
            dropped@.no_duplicates(),
            forall|i: usize, c: int|
                i < old(self).len() && 0 <= c < SIZE_CLASS_COUNT && #[trigger] freed_small(old(self).slots@[i as int], c)
                    ==> final(self).small_arenas.free@[c]@.contains(i),
    {
        let ghost old_slots = self.slots@;
        let ghost target = old_slots.map_values(|s: Slot<V>| swept(s));
        let mut expected: usize = self.allocated_size;
        let mut dropped: Vec<usize> = Vec::new();
        let n = self.slots.len();
        let mut i: usize = 0;
        while i < n
            invariant
                n == old_slots.len(),
                self.slots@.len() == n,
                self.next_address == old(self).next_address,
                self.large == old(self).large,
                old_slots == old(self).slots@,
                old(self).wf(),
                old(self).marked(),
                target == old_slots.map_values(|s: Slot<V>| swept(s)),
                0 <= i <= n,
                forall|j: int| 0 <= j < n ==> #[trigger] self.slots@[j] == if j < i && old_slots[j].class is Some {
                    target[j]
                } else {
                    old_slots[j]
                },
                expected == live_sum(self.slots@, n as int),
                expected <= old(self).allocated_size,
                self.small_arenas.free@.len() == SIZE_CLASS_COUNT,
                forall|c: int, k: int|
                    0 <= c < SIZE_CLASS_COUNT && 0 <= k < self.small_arenas.free@[c]@.len() ==> {
                        let j = #[trigger] self.small_arenas.free@[c]@[k] as int;
                        &&& 0 <= j < n
                        &&& self.slots@[j].object is None
                        &&& self.slots@[j].class == Some(c as usize)
                        &&& (j < i || old_slots[j].object is None)
                    },
                forall|c: int, k1: int, k2: int|
                    0 <= c < SIZE_CLASS_COUNT && 0 <= k1 < k2 < self.small_arenas.free@[c]@.len()
                        ==> #[trigger] self.small_arenas.free@[c]@[k1] != #[trigger] self.small_arenas.free@[c]@[k2],
                forall|j: usize, c: int|
                    j < i && 0 <= c < SIZE_CLASS_COUNT && #[trigger] freed_small(old_slots[j as int], c)
                        ==> self.small_arenas.free@[c]@.contains(j),
                forall|j: usize| #[trigger] dropped@.contains(j) <==> (j < i && old_slots[j as int].class is Some
                    && drops_in_sweep(old_slots[j as int])),
                forall|k: int| 0 <= k < dropped@.len() ==> #[trigger] dropped@[k] < i,
                dropped@.no_duplicates(),
            decreases n - i,
        {
            let ghost before = self.slots@;
            let ghost dropped_before = dropped@;
            let is_small = self.slots[i].class.is_some();
            let state = match &self.slots[i].object {
                Some(o) => Some(o.header.state),
                None => None,
            };
            assert(before[i as int] == old_slots[i as int]);
            assert(old(self).slots@[i as int] == old_slots[i as int]);
            assert(old(self).slots_wf());
            if is_small && state == Some(MarkState::White) {
                let c = match self.slots[i].class {
                    Some(c) => c,
                    None => 0,
                };
                let size = match &self.slots[i].object {
                    Some(o) => o.header.type_info.total_size(),
                    None => 0,
                };
                let has_drop = free_slot(&mut self.slots, i);
                proof {
                    lemma_live_sum_update(before, i as int, swept(before[i as int]), n as int);
                    assert(self.slots@[i as int] == target[i as int]);
                    assert(self.slots@ =~= before.update(i as int, target[i as int]));
                }
                expected = expected - size;
                let ghost free_before = self.small_arenas.free@;
                let mut list = self.small_arenas.free.remove(c);
                list.push(i);
                self.small_arenas.free.insert(c, list);
                assert(self.small_arenas.free@ =~= free_before.update(c as int, list));
                proof {
                    assert forall|j: usize, c2: int|
                        j < i + 1 && 0 <= c2 < SIZE_CLASS_COUNT && #[trigger] freed_small(old_slots[j as int], c2)
                        implies self.small_arenas.free@[c2]@.contains(j) by {
                        if c2 == c as int {
                            crate::heap::lemma_push_contains(free_before[c2]@, i, j);
                        }
                    }
                }
                if has_drop {
                    dropped.push(i);
                }
                proof {
                    assert forall|c2: int, k: int|
                        0 <= c2 < SIZE_CLASS_COUNT && 0 <= k < self.small_arenas.free@[c2]@.len() implies {
                            let j = #[trigger] self.small_arenas.free@[c2]@[k] as int;
                            &&& 0 <= j < n
                            &&& self.slots@[j].object is None
                            &&& self.slots@[j].class == Some(c2 as usize)
                            &&& (j < i + 1 || old_slots[j].object is None)
                        } by {
                        if c2 != c as int || k < free_before[c2]@.len() {
                            assert(self.small_arenas.free@[c2]@[k] == free_before[c2]@[k]);
                        }
                    }
                    assert forall|c2: int, k1: int, k2: int|
                        0 <= c2 < SIZE_CLASS_COUNT && 0 <= k1 < k2 < self.small_arenas.free@[c2]@.len()
                        implies #[trigger] self.small_arenas.free@[c2]@[k1] != #[trigger] self.small_arenas.free@[c2]@[k2] by {
                        if c2 != c as int || k2 < free_before[c2]@.len() {
                            assert(self.small_arenas.free@[c2]@[k1] == free_before[c2]@[k1]);
                            assert(self.small_arenas.free@[c2]@[k2] == free_before[c2]@[k2]);
                        } else {
                            assert(self.small_arenas.free@[c2]@[k1] == free_before[c2]@[k1]);
                            let j = free_before[c2]@[k1] as int;
                            assert(before[j].object is None);
                        }
                    }
                    assert forall|j: usize| #[trigger] dropped@.contains(j) <==> (j < i + 1 && old_slots[j as int].class is Some
                        && drops_in_sweep(old_slots[j as int])) by {
                        if j == i && has_drop {
                            assert(dropped@[dropped@.len() - 1] == i);
                        }
                        if j < i && dropped_before.contains(j) {
                            let k = choose|k: int| 0 <= k < dropped_before.len() && dropped_before[k] == j;
                            assert(dropped@[k] == j);
                        }
                        if dropped@.contains(j) && j != i {
                            let k = choose|k: int| 0 <= k < dropped@.len() && dropped@[k] == j;
                            if has_drop && k == dropped_before.len() {
                            } else {
                                assert(dropped_before[k] == j);
                            }
                        }
                    }
                }
            } else if is_small && state == Some(MarkState::Black) {
                set_state(&mut self.slots, i, MarkState::White);
                proof {
                    lemma_live_sum_update(before, i as int, whitened(before[i as int]), n as int);
                    assert(self.slots@[i as int] == target[i as int]);
                }
            } else {
                proof {
                    if is_small {
                        if state is Some {
                            assert(old(self).live(i as int));
                            assert(old(self).state(i as int) != MarkState::Grey);
                        }
                        assert(self.slots@[i as int] == target[i as int]);
                    }
                }
            }
            i = i + 1;
        }
        let mut survivors: Vec<usize> = Vec::new();
        let m = self.large.len();
        let mut k: usize = 0;
        while k < m
            invariant
                n == old_slots.len(),
                self.slots@.len() == n,
                self.next_address == old(self).next_address,
                self.large == old(self).large,
                old_slots == old(self).slots@,
                old(self).wf(),
                old(self).marked(),
                target == old_slots.map_values(|s: Slot<V>| swept(s)),
                m == self.large@.len(),
                0 <= k <= m,
                forall|j: int| 0 <= j < n ==> #[trigger] self.slots@[j] == if old_slots[j].class is Some
                    || self.large@.subrange(0, k as int).contains(j as usize) {
                    target[j]
                } else {
                    old_slots[j]
                },
                expected == live_sum(self.slots@, n as int),
                expected <= old(self).allocated_size,
                self.small_arenas.free@.len() == SIZE_CLASS_COUNT,
                forall|c: int, k1: int|
                    0 <= c < SIZE_CLASS_COUNT && 0 <= k1 < self.small_arenas.free@[c]@.len() ==> {
                        let j = #[trigger] self.small_arenas.free@[c]@[k1] as int;
                        &&& 0 <= j < n
                        &&& self.slots@[j].object is None
                        &&& self.slots@[j].class == Some(c as usize)
                    },
                forall|c: int, k1: int, k2: int|
                    0 <= c < SIZE_CLASS_COUNT && 0 <= k1 < k2 < self.small_arenas.free@[c]@.len()
                        ==> #[trigger] self.small_arenas.free@[c]@[k1] != #[trigger] self.small_arenas.free@[c]@[k2],
                forall|j: usize, c: int|
                    j < n && 0 <= c < SIZE_CLASS_COUNT && #[trigger] freed_small(old_slots[j as int], c)
                        ==> self.small_arenas.free@[c]@.contains(j),
                forall|j: usize| #[trigger] dropped@.contains(j) <==> (j < n && drops_in_sweep(old_slots[j as int])
                    && (old_slots[j as int].class is Some || self.large@.subrange(0, k as int).contains(j))),
                dropped@.no_duplicates(),
                forall|j: usize| #[trigger] survivors@.contains(j) <==> (self.large@.subrange(0, k as int).contains(j)
                    && old_slots[j as int].object is Some
                    && old_slots[j as int].object->Some_0.header.state == MarkState::Black),
                survivors@.no_duplicates(),
            decreases m - k,
        {
            let idx = self.large[k];
            let ghost before = self.slots@;
            let ghost dropped_before = dropped@;
            let ghost survivors_before = survivors@;
            proof {
                assert(old(self).large@[k as int] == idx);
                assert(old(self).live(idx as int));
                assert(self.large@.subrange(0, k + 1) =~= self.large@.subrange(0, k as int).push(idx));
                assert(!self.large@.subrange(0, k as int).contains(idx)) by {
                    if self.large@.subrange(0, k as int).contains(idx) {
                        let k2 = choose|k2: int| 0 <= k2 < k && self.large@.subrange(0, k as int)[k2] == idx;
                        assert(self.large@[k2] == self.large@[k as int]);
                    }
                }
                assert(before[idx as int] == old_slots[idx as int]);
                assert(old(self).slots_wf());
                assert(old(self).state(idx as int) != MarkState::Grey);
            }
            let white = match &self.slots[idx].object {
                Some(o) => o.header.state == MarkState::White,
                None => false,
            };
            if white {
                let size = match &self.slots[idx].object {
                    Some(o) => o.header.type_info.total_size(),
                    None => 0,
                };
                let has_drop = free_slot(&mut self.slots, idx);
                proof {
                    lemma_live_sum_update(before, idx as int, swept(before[idx as int]), n as int);
                }
                expected = expected - size;
                if has_drop {
                    dropped.push(idx);
                }
            } else {
                set_state(&mut self.slots, idx, MarkState::White);
                proof {
                    lemma_live_sum_update(before, idx as int, whitened(before[idx as int]), n as int);
                }
                survivors.push(idx);
            }
            proof {
                let sub = self.large@.subrange(0, k as int);
                assert(self.slots@[idx as int] == target[idx as int]);
                assert forall|j: int| 0 <= j < n implies #[trigger] self.slots@[j] == (if old_slots[j].class is Some
                    || self.large@.subrange(0, k + 1).contains(j as usize) {
                    target[j]
                } else {
                    old_slots[j]
                }) by {
                    lemma_push_contains(sub, idx, j as usize);
                    if j != idx as int {
                        assert(self.slots@[j] == before[j]);
                    }
                }
                assert forall|j: usize| #[trigger] dropped@.contains(j) <==> (j < n && drops_in_sweep(old_slots[j as int])
                    && (old_slots[j as int].class is Some || self.large@.subrange(0, k + 1).contains(j))) by {
                    lemma_push_contains(sub, idx, j);
                    if white && drops_in_sweep(old_slots[idx as int]) {
                        lemma_push_contains(dropped_before, idx, j);
                    }
                }
                if white && drops_in_sweep(old_slots[idx as int]) {
                    lemma_push_no_duplicates(dropped_before, idx);
                }
                assert forall|j: usize| #[trigger] survivors@.contains(j) <==> (self.large@.subrange(0, k + 1).contains(j)
                    && old_slots[j as int].object is Some
                    && old_slots[j as int].object->Some_0.header.state == MarkState::Black) by {
                    lemma_push_contains(sub, idx, j);
                    if !white {
                        lemma_push_contains(survivors_before, idx, j);
                    }
                }
                if !white {
                    lemma_push_no_duplicates(survivors_before, idx);
                }
            }
            k = k + 1;
        }
        self.large = survivors;
        self.allocated_size = expected;
        proof {
            assert(old(self).large@.subrange(0, m as int) =~= old(self).large@);
            assert forall|j: int| 0 <= j < n implies #[trigger] self.slots@[j] == target[j] by {
                if old_slots[j].class is None && old_slots[j].object is Some {
                    assert(old(self).live(j));
                    assert(old(self).large@.contains(j as usize));
                }
            }
            assert(self.slots@ =~= target);
            assert forall|j: usize| #[trigger] dropped@.contains(j) <==> (j < old(self).len() && drops_in_sweep(
                old_slots[j as int])) by {
                if j < n && drops_in_sweep(old_slots[j as int]) && old_slots[j as int].class is None {
                    assert(old(self).live(j as int));
                    assert(old(self).large_wf());
                    assert(old(self).large@.contains((j as int) as usize));
                    assert(old(self).large@.subrange(0, m as int).contains(j));
                }
            }
            assert forall|j: int| 0 <= j < n implies (self.live(j) <==> old(self).live(j)
                && old(self).state(j) == MarkState::Black) by {
                assert(self.slots@[j] == swept(old_slots[j]));
                if old(self).live(j) {
                    assert(old(self).state(j) != MarkState::Grey);
                }
            }
            assert(self.slots_wf()) by {
                assert forall|j: int| 0 <= j < self.len() implies slot_ok(
                    #[trigger] self.slots@[j],
                    self.next_address,
                ) by {
                    assert(self.slots@[j] == swept(old_slots[j]));
                    assert(old(self).slots_wf());
                    assert(slot_ok(old_slots[j], old(self).next_address));
                }
                assert forall|a: int, b: int| 0 <= a < b < self.len() implies slot_end(self.slots@[a])
                    <= self.slots@[b].header_address by {
                    assert(self.slots@[a] == swept(old_slots[a]));
                    assert(self.slots@[b] == swept(old_slots[b]));
                    assert(slot_end(old_slots[a]) <= old_slots[b].header_address);
                }
            }
            assert(self.large_wf()) by {
                assert forall|q: int| 0 <= q < self.large@.len() implies {
                    let j = #[trigger] self.large@[q] as int;
                    &&& self.live(j)
                    &&& self.slots@[j].class is None
                } by {
                    let j = self.large@[q];
                    assert(survivors@.contains(j));
                    let q2 = choose|q2: int| 0 <= q2 < old(self).large@.len() && old(self).large@[q2] == j;
                    assert(old(self).live(j as int));
                    assert(self.slots@[j as int] == swept(old_slots[j as int]));
                }
                assert forall|j: int| self.live(j) && self.slots@[j].class is None
                    implies #[trigger] self.large@.contains(j as usize) by {
                    assert(self.slots@[j] == swept(old_slots[j]));
                    assert(old(self).live(j));
                    assert(old(self).large@.contains(j as usize));
                }
            }
            assert(self.fields_closed()) by {
                assert forall|a: int, q: int|
                    self.live(a) && 0 <= q < self.fields(a).len() implies self.live(#[trigger] self.fields(a)[q] as int) by {
                    assert(self.slots@[a] == swept(old_slots[a]));
                    assert(old(self).live(a));
                    assert(old(self).fields(a)[q] == self.fields(a)[q]);
                    let b = self.fields(a)[q] as int;
                    assert(old(self).live(b));
                    assert(old(self).state(b) == MarkState::Black);
                    assert(self.slots@[b] == swept(old_slots[b]));
                }
            }
            assert(self.trace_consistent()) by {
                assert forall|a: int| self.live(a) && !(#[trigger] self.obj(a)).header.type_info.spec_needs_trace()
                    implies self.fields(a).len() == 0 by {
                    assert(self.slots@[a] == swept(old_slots[a]));
                    assert(old(self).live(a));
                    assert(old(self).obj(a).header.type_info == self.obj(a).header.type_info);
                }
            }
            assert(self.all_white()) by {
                assert forall|a: int| self.live(a) implies #[trigger] self.state(a) == MarkState::White by {
                    assert(self.slots@[a] == swept(old_slots[a]));
                }
            }
            assert(self.arenas_wf());
        }
        dropped
    }

    /// Allocates a large object: a fresh box linked at the head of the
    /// large-object list.
    pub fn alloc_big(&mut self, object: GcObject<V>) -> (r: usize)
        requires
            old(self).at_rest(),
            object.header.type_info.wf(),
            !object.header.type_info.spec_is_small(),
            object.header.state == MarkState::White,
            old(self).fits(object.header.type_info),
            forall|k: int| 0 <= k < object.fields@.len() ==> old(self).live(#[trigger] object.fields@[k] as int),
            !object.header.type_info.spec_needs_trace() ==> object.fields@.len() == 0,
        ensures
            final(self).at_rest(),
            r == old(self).len(),
            final(self).len() == old(self).len() + 1,
            final(self).slots@ == old(self).slots@.push(Slot {
                header_address: old(self).next_address,
                class: None,
                object: Some(object),
            }),
            final(self).allocated_size == old(self).allocated_size
                + object.header.type_info.spec_total_size(),
            final(self).large@ == old(self).large@.push(r),
            final(self).next_address == old(self).next_address + object.header.type_info.spec_total_size(),
    {
        let total = object.header.type_info.total_size();
        let i = self.slots.len();
        let header_address = self.next_address;
        let ghost old_slots = self.slots@;
        self.slots.push(Slot { header_address, class: None, object: Some(object) });
        self.next_address = self.next_address + total as u64;
        self.large.push(i);
        proof {
            lemma_live_sum_push(old_slots, self.slots@[i as int]);
        }
        self.allocated_size = self.allocated_size + total;
        proof {
            assert(self.slots@[i as int].header_address < self.next_address);
            
            assert forall|k: int| 0 <= k < self.large@.len() implies ({
                let j = #[trigger] self.large@[k] as int;
                &&& self.live(j)
                &&& self.slots@[j].class is None
            }) by {
                if k < old(self).large@.len() {
                    assert(old(self).live(self.large@[k] as int));
                }
            }
            assert forall|j: int| self.live(j) && self.slots@[j].class is None
                implies #[trigger] self.large@.contains(j as usize) by {
                if j != i {
                    assert(old(self).large@.contains(j as usize));
                    let k = choose|k: int| 0 <= k < old(self).large@.len() && old(self).large@[k] == j as usize;
                    assert(self.large@[k] == j as usize);
                } else {
                    assert(self.large@[old(self).large@.len() as int] == j as usize);
                }
            }
            assert(!old(self).large@.contains(i)) by {
                if old(self).large@.contains(i) {
                    let k = choose|k: int| 0 <= k < old(self).large@.len() && old(self).large@[k] == i;
                    assert(old(self).live(i as int));
                }
            }
            
            
            lemma_one_slot_changed(*old(self), *self, i as int);
                    assert(self.slots_wf());
        }
        i
    }
}

pub proof fn lemma_push_contains(s: Seq<usize>, x: usize, y: usize)
    ensures
        s.push(x).contains(y) <==> (s.contains(y) || y == x),
{
    if s.contains(y) {
        let q = choose|q: int| 0 <= q < s.len() && s[q] == y;
        assert(s.push(x)[q] == y);
    }
    if y == x {
        assert(s.push(x)[s.len() as int] == y);
    }
    if s.push(x).contains(y) && y != x {
        let q = choose|q: int| 0 <= q < s.len() + 1 && s.push(x)[q] == y;
        assert(s[q] == y);
    }
}

pub proof fn lemma_push_no_duplicates(s: Seq<usize>, x: usize)
    requires
        s.no_duplicates(),
        !s.contains(x),
    ensures
        s.push(x).no_duplicates(),
{
    assert forall|a: int, b: int| 0 <= a < s.len() + 1 && 0 <= b < s.len() + 1 && a != b implies s.push(x)[a] != s.push(x)[b] by {
        if a == s.len() {
            assert(s[b] == s.push(x)[b]);
        } else if b == s.len() {
            assert(s[a] == s.push(x)[a]);
        }
    }
}

/// The slot with its object, if any, reset to white.
pub open spec fn whitened<V>(s: Slot<V>) -> Slot<V> {
    with_state(s, MarkState::White)
}

/// The slot after the sweep: a white object is freed, any other is reset
/// to white.
pub open spec fn swept<V>(s: Slot<V>) -> Slot<V> {
    match s.object {
        Some(o) => if o.header.state == MarkState::White {
            Slot { header_address: s.header_address, class: s.class, object: None }
        } else {
            whitened(s)
        },
        None => s,
    }
}

/// The slot holds a white object of size class `c`: the sweep frees it
/// into that class's arena.
pub open spec fn freed_small<V>(s: Slot<V>, c: int) -> bool {
    &&& s.class == Some(c as usize)
    &&& s.object is Some
    &&& s.object->Some_0.header.state == MarkState::White
}

/// The object in this slot is reclaimed by the sweep and has a destructor.
pub open spec fn drops_in_sweep<V>(s: Slot<V>) -> bool {
    match s.object {
        Some(o) => o.header.state == MarkState::White && o.header.type_info.spec_needs_drop(),
        None => false,
    }
}

/// Frees the object in slot `i`, dropping its payload, and reports whether
/// its type has a destructor.
fn free_slot<V>(slots: &mut Vec<Slot<V>>, i: usize) -> (has_drop: bool)
    requires
        i < old(slots)@.len(),
        old(slots)@[i as int].object is Some,
        old(slots)@[i as int].object->Some_0.header.state == MarkState::White,
    ensures
        final(slots)@ == old(slots)@.update(i as int, swept(old(slots)@[i as int])),
        has_drop == drops_in_sweep(old(slots)@[i as int]),
{
    let header_address = slots[i].header_address;
    let class = slots[i].class;
    let old_slot = replace_slot(slots, i, Slot { header_address, class, object: None });
    match old_slot.object {
        Some(o) => o.header.type_info.needs_drop(),
        None => false,
    }
}

/// The slot with its object's mark state set to `state`.
pub open spec fn with_state<V>(s: Slot<V>, state: MarkState) -> Slot<V> {
    match s.object {
        Some(o) => Slot {
            header_address: s.header_address,
            class: s.class,
            object: Some(
                GcObject {
                    header: GcHeader { type_info: o.header.type_info, state },
                    value: o.value,
                    fields: o.fields,
                },
            ),
        },
        None => s,
    }
}

/// Sets the mark state of the object in slot `i`.
pub fn set_state<V>(slots: &mut Vec<Slot<V>>, i: usize, state: MarkState)
    requires
        i < old(slots)@.len(),
    ensures
        final(slots)@ == old(slots)@.update(i as int, with_state(old(slots)@[i as int], state)),
{
    let header_address = slots[i].header_address;
    let class = slots[i].class;
    let old_slot = replace_slot(slots, i, Slot { header_address, class, object: None });
    let new_slot = match old_slot.object {
        Some(o) => {
            let GcObject { header, value, fields } = o;
            Slot {
                header_address,
                class,
                object: Some(GcObject { header: GcHeader { type_info: header.type_info, state }, value, fields }),
            }
        },
        None => Slot { header_address, class, object: None },
    };
    let _ = replace_slot(slots, i, new_slot);
}

/// Puts `slot` at position `i` and returns what was there.
fn replace_slot<V>(slots: &mut Vec<Slot<V>>, i: usize, slot: Slot<V>) -> (r: Slot<V>)
    requires
        i < old(slots)@.len(),
    ensures
        r == old(slots)@[i as int],
        final(slots)@ == old(slots)@.update(i as int, slot),
{
    let mut tmp = slot;
    std::mem::swap(&mut slots[i], &mut tmp);
    tmp
}

} // verus!
