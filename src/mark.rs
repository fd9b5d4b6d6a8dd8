//! Tri-color marking with an explicit grey stack, and the reachability
//! model it is proved against.
use vstd::prelude::*;
use crate::heap::{SimpleAlloc, Slot, with_state, set_state};
use crate::layout::MarkState;

verus! {

/// The objects reachable from `roots` in at most `n` steps along fields.
pub open spec fn reach_within<V>(g: SimpleAlloc<V>, roots: Set<int>, n: nat) -> Set<int>
    decreases n,
{
    if n == 0 {
        roots
    } else {
        let prev = reach_within(g, roots, (n - 1) as nat);
        prev.union(Set::new(|j: int| exists|i: int| prev.contains(i) && g.edge(i, j)))
    }
}

/// Slot `j` is reachable from `roots` along the fields of the objects of `g`.
pub open spec fn reachable<V>(g: SimpleAlloc<V>, roots: Set<int>, j: int) -> bool {
    exists|n: nat| #[trigger] reach_within(g, roots, n).contains(j)
}

/// The slots named in `s`.
pub open spec fn index_set(s: Seq<usize>) -> Set<int> {
    Set::new(|r: int| exists|q: int| 0 <= q < s.len() && s[q] as int == r)
}

/// `h` equals `g` but for the mark states of the objects.
pub open spec fn same_but_marks<V>(h: SimpleAlloc<V>, g: SimpleAlloc<V>) -> bool {
    &&& h.slots@.len() == g.slots@.len()
    &&& forall|i: int| 0 <= i < h.len() ==> #[trigger] h.slots@[i] == with_state(g.slots@[i], h.state(i))
    &&& h.small_arenas == g.small_arenas
    &&& h.large == g.large
    &&& h.allocated_size == g.allocated_size
    &&& h.next_address == g.next_address
}

/// The marking work left in this slot: two for white, one for grey.
pub open spec fn slot_weight<V>(s: Slot<V>) -> nat {
    match s.object {
        Some(o) => match o.header.state {
            MarkState::White => 2,
            MarkState::Grey => 1,
            MarkState::Black => 0,
        },
        None => 0,
    }
}

/// The marking work left in the first `n` slots.
pub open spec fn weight<V>(s: Seq<Slot<V>>, n: int) -> nat
    decreases n,
{
    if n <= 0 || n > s.len() {
        0
    } else {
        weight(s, n - 1) + slot_weight(s[n - 1])
    }
}

proof fn lemma_weight_same<V>(s1: Seq<Slot<V>>, s2: Seq<Slot<V>>, n: int)
    requires
        0 <= n <= s1.len(),
        n <= s2.len(),
        forall|i: int| 0 <= i < n ==> slot_weight(#[trigger] s1[i]) == slot_weight(s2[i]),
    ensures
        weight(s1, n) == weight(s2, n),
    decreases n,
{
    if n > 0 {
        lemma_weight_same(s1, s2, n - 1);
    }
}

proof fn lemma_weight_update<V>(s: Seq<Slot<V>>, i: int, x: Slot<V>, n: int)
    requires
        0 <= i < n <= s.len(),
    ensures
        weight(s.update(i, x), n) == weight(s, n) - slot_weight(s[i]) + slot_weight(x),
    decreases n,
{
    if n - 1 > i {
        lemma_weight_update(s, i, x, n - 1);
    } else {
        lemma_weight_same(s.update(i, x), s, n - 1);
    }
}

/// Allocator facts that do not depend on mark states carry over.
pub proof fn lemma_same_but_marks_wf<V>(h: SimpleAlloc<V>, g: SimpleAlloc<V>)
    requires
        g.wf(),
        same_but_marks(h, g),
    ensures
        h.wf(),
        forall|i: int| #[trigger] h.live(i) == g.live(i),
        forall|i: int| h.live(i) ==> #[trigger] h.fields(i) == g.fields(i),
        forall|i: int, j: int| #[trigger] h.edge(i, j) == g.edge(i, j),
{
    assert forall|i: int| #[trigger] h.live(i) == g.live(i) by {
        if 0 <= i < h.len() {
            assert(h.slots@[i] == with_state(g.slots@[i], h.state(i)));
        }
    }
    assert forall|i: int| h.live(i) implies #[trigger] h.fields(i) == g.fields(i) by {
        assert(h.slots@[i] == with_state(g.slots@[i], h.state(i)));
    }
    assert forall|i: int, j: int| #[trigger] h.edge(i, j) == g.edge(i, j) by {
        if h.live(i) {
            assert(h.fields(i) == g.fields(i));
        }
    }
    assert forall|i: int| 0 <= i < h.len() implies #[trigger] crate::heap::slot_size(h.slots@[i])
        == crate::heap::slot_size(g.slots@[i]) by {
        assert(h.slots@[i] == with_state(g.slots@[i], h.state(i)));
    }
    crate::heap::lemma_live_sum_same(h.slots@, g.slots@, h.len());
    assert(h.slots_wf()) by {
        assert forall|i: int| 0 <= i < h.len() implies crate::heap::slot_ok(#[trigger] h.slots@[i], h.next_address) by {
            assert(h.slots@[i] == with_state(g.slots@[i], h.state(i)));
            assert(crate::heap::slot_ok(g.slots@[i], g.next_address));
        }
        assert forall|a: int, b: int| 0 <= a < b < h.len() implies crate::heap::slot_end(h.slots@[a])
            <= h.slots@[b].header_address by {
            assert(h.slots@[a] == with_state(g.slots@[a], h.state(a)));
            assert(h.slots@[b] == with_state(g.slots@[b], h.state(b)));
            assert(crate::heap::slot_end(g.slots@[a]) <= g.slots@[b].header_address);
        }
    }
    assert(h.arenas_wf()) by {
        assert forall|c: int, k: int|
            0 <= c < crate::layout::SIZE_CLASS_COUNT && 0 <= k < h.small_arenas.free@[c]@.len() implies {
                let i = #[trigger] h.small_arenas.free@[c]@[k] as int;
                &&& 0 <= i < h.len()
                &&& h.slots@[i].object is None
                &&& h.slots@[i].class == Some(c as usize)
            } by {
            let i = h.small_arenas.free@[c]@[k] as int;
            assert(g.small_arenas.free@[c]@[k] as int == i);
            assert(h.slots@[i] == with_state(g.slots@[i], h.state(i)));
        }
    }
    assert(h.large_wf()) by {
        assert forall|k: int| 0 <= k < h.large@.len() implies {
            let i = #[trigger] h.large@[k] as int;
            &&& h.live(i)
            &&& h.slots@[i].class is None
        } by {
            let i = h.large@[k] as int;
            assert(g.large@[k] as int == i);
            assert(h.slots@[i] == with_state(g.slots@[i], h.state(i)));
        }
        assert forall|i: int| h.live(i) && h.slots@[i].class is None implies #[trigger] h.large@.contains(
            i as usize,
        ) by {
            assert(h.slots@[i] == with_state(g.slots@[i], h.state(i)));
            assert(g.live(i));
        }
    }
    assert(h.fields_closed()) by {
        assert forall|i: int, k: int| h.live(i) && 0 <= k < h.fields(i).len() implies h.live(
            #[trigger] h.fields(i)[k] as int,
        ) by {
            assert(g.live(g.fields(i)[k] as int));
        }
    }
    assert(h.trace_consistent()) by {
        assert forall|i: int|
            h.live(i) && !(#[trigger] h.obj(i)).header.type_info.spec_needs_trace() implies h.fields(i).len()
                == 0 by {
            assert(h.slots@[i] == with_state(g.slots@[i], h.state(i)));
            assert(g.live(i));
        }
    }
}

/// A set of live, non-white objects that contains the roots and is closed
/// under fields contains everything reachable from the roots.
proof fn lemma_reachable_marked<V>(h: SimpleAlloc<V>, g: SimpleAlloc<V>, roots: Set<int>, n: nat)
    requires
        forall|i: int| #[trigger] h.live(i) == g.live(i),
        forall|i: int| h.live(i) ==> #[trigger] h.fields(i) == g.fields(i),
        forall|r: int| #[trigger] roots.contains(r) ==> h.live(r) && h.state(r) != MarkState::White,
        forall|i: int, k: int|
            h.live(i) && h.state(i) != MarkState::White && 0 <= k < h.fields(i).len() ==> h.live(
                #[trigger] h.fields(i)[k] as int,
            ) && h.state(h.fields(i)[k] as int) != MarkState::White,
    ensures
        forall|j: int| #[trigger] reach_within(g, roots, n).contains(j) ==> h.live(j) && h.state(j)
            != MarkState::White,
    decreases n,
{
    if n > 0 {
        lemma_reachable_marked(h, g, roots, (n - 1) as nat);
        let prev = reach_within(g, roots, (n - 1) as nat);
        assert forall|j: int| #[trigger] reach_within(g, roots, n).contains(j) implies h.live(j) && h.state(j)
            != MarkState::White by {
            if !prev.contains(j) {
                let i = choose|i: int| prev.contains(i) && g.edge(i, j);
                let k = choose|k: int| 0 <= k < g.fields(i).len() && g.fields(i)[k] == j;
                assert(h.fields(i)[k] == j);
            }
        }
    }
}

/// The child `j` of a reachable object `i` is reachable.
proof fn lemma_reachable_step<V>(g: SimpleAlloc<V>, roots: Set<int>, i: int, k: int)
    requires
        reachable(g, roots, i),
        g.live(i),
        0 <= k < g.fields(i).len(),
    ensures
        reachable(g, roots, g.fields(i)[k] as int),
{
    let n = choose|n: nat| #[trigger] reach_within(g, roots, n).contains(i);
    let j = g.fields(i)[k] as int;
    assert(g.edge(i, j));
    assert(reach_within(g, roots, n + 1).contains(j));
}

/// The state of marking: the grey stack of objects whose fields are still
/// to be scanned.
pub struct MarkVisitor {
    pub grey_stack: Vec<usize>,
}

impl MarkVisitor {
    /// The marking invariant, relative to the heap `g` that marking started
    /// from. `cur` is the object being scanned, grey but off the stack.
    pub open spec fn inv<V>(
        &self,
        h: SimpleAlloc<V>,
        g: SimpleAlloc<V>,
        roots: Set<int>,
        cur: Option<int>,
    ) -> bool {
        &&& g.wf()
        &&& same_but_marks(h, g)
        &&& self.grey_stack@.no_duplicates()
        &&& forall|q: int|
            0 <= q < self.grey_stack@.len() ==> h.live(#[trigger] self.grey_stack@[q] as int) && h.state(
                self.grey_stack@[q] as int,
            ) == MarkState::Grey && cur != Some(self.grey_stack@[q] as int)
        &&& forall|i: int|
            h.live(i) && #[trigger] h.state(i) == MarkState::Grey && cur != Some(i)
                ==> self.grey_stack@.contains(i as usize)
        &&& forall|i: int| h.live(i) && #[trigger] h.state(i) != MarkState::White ==> reachable(g, roots, i)
        &&& forall|i: int, k: int|
            h.live(i) && h.state(i) == MarkState::Black && 0 <= k < h.fields(i).len() ==> h.state(
                #[trigger] h.fields(i)[k] as int,
            ) != MarkState::White
        &&& match cur {
            Some(c) => h.live(c) && h.state(c) == MarkState::Grey,
            None => true,
        }
    }

    /// The marking work left.
    pub open spec fn measure<V>(&self, h: SimpleAlloc<V>) -> nat {
        weight(h.slots@, h.len()) + self.grey_stack@.len()
    }

    /// Marks the object in slot `j`: a white object with no managed
    /// references turns black at once; any other white object turns grey
    /// and goes on the grey stack. Grey and black objects are left alone.
    fn mark_slot<V>(
        &mut self,
        h: &mut SimpleAlloc<V>,
        j: usize,
        Ghost(g): Ghost<SimpleAlloc<V>>,
        Ghost(roots): Ghost<Set<int>>,
        Ghost(cur): Ghost<Option<int>>,
    )
        requires
            old(self).inv(*old(h), g, roots, cur),
            old(h).live(j as int),
            reachable(g, roots, j as int),
        ensures
            final(self).inv(*final(h), g, roots, cur),
            final(h).state(j as int) != MarkState::White,
            final(self).measure(*final(h)) <= old(self).measure(*old(h)),
            forall|i: int| 0 <= i < old(h).len() && i != j ==> #[trigger] final(h).slots@[i] == old(h).slots@[i],
            final(h).len() == old(h).len(),
            old(h).state(j as int) != MarkState::White ==> final(h).slots@ == old(h).slots@,
            final(h).state(j as int) == MarkState::Black ==> old(h).state(j as int) != MarkState::Grey,
            old(h).state(j as int) == MarkState::White && !old(h).obj(j as int).header.type_info.spec_needs_trace()
                ==> final(h).state(j as int) == MarkState::Black && final(self).grey_stack@ == old(
                self,
            ).grey_stack@,
            old(h).state(j as int) == MarkState::White && old(h).obj(j as int).header.type_info.spec_needs_trace()
                ==> final(h).state(j as int) == MarkState::Grey && final(self).grey_stack@ == old(
                self,
            ).grey_stack@.push(j),
            old(h).state(j as int) != MarkState::White ==> final(self).grey_stack@ == old(self).grey_stack@,
    {
        let ghost h0 = *h;
        proof {
            lemma_same_but_marks_wf(h0, g);
        }
        let (state, needs_trace) = match &h.slots[j].object {
            Some(o) => (o.header.state, o.header.type_info.needs_trace()),
            None => (MarkState::Black, false),
        };
        if state == MarkState::White {
            if !needs_trace {
                set_state(&mut h.slots, j, MarkState::Black);
                proof {
                    lemma_weight_update(h0.slots@, j as int, h.slots@[j as int], h0.len());
                    assert(g.fields(j as int).len() == 0);
                }
            } else {
                set_state(&mut h.slots, j, MarkState::Grey);
                let ghost stack0 = self.grey_stack@;
                self.grey_stack.push(j);
                proof {
                    lemma_weight_update(h0.slots@, j as int, h.slots@[j as int], h0.len());
                    assert(!stack0.contains(j)) by {
                        if stack0.contains(j) {
                            let q = choose|q: int| 0 <= q < stack0.len() && stack0[q] == j;
                            assert(h0.state(stack0[q] as int) == MarkState::Grey);
                        }
                    }
                    crate::heap::lemma_push_no_duplicates(stack0, j);
                    assert forall|i: int| h.live(i) && #[trigger] h.state(i) == MarkState::Grey && cur != Some(i)
                        implies self.grey_stack@.contains(i as usize) by {
                        crate::heap::lemma_push_contains(stack0, j, i as usize);
                        if i != j as int {
                            assert(h.slots@[i] == h0.slots@[i]);
                        }
                    }
                }
            }
            proof {
                let h1 = *h;
                assert(same_but_marks(h1, g)) by {
                    assert forall|i: int| 0 <= i < h1.len() implies #[trigger] h1.slots@[i] == with_state(
                        g.slots@[i],
                        h1.state(i),
                    ) by {
                        assert(h0.slots@[i] == with_state(g.slots@[i], h0.state(i)));
                    }
                }
                assert forall|q: int| 0 <= q < self.grey_stack@.len() implies h1.live(
                    #[trigger] self.grey_stack@[q] as int,
                ) && h1.state(self.grey_stack@[q] as int) == MarkState::Grey && cur != Some(
                    self.grey_stack@[q] as int,
                ) by {
                    let e = self.grey_stack@[q] as int;
                    if e != j as int {
                        assert(h1.slots@[e] == h0.slots@[e]);
                    } else {
                        assert(cur != Some(j as int)) by {
                            if cur == Some(j as int) {
                                assert(h0.state(j as int) == MarkState::Grey);
                            }
                        }
                    }
                }
                assert forall|i: int| h1.live(i) && #[trigger] h1.state(i) == MarkState::Grey && cur != Some(i)
                    implies self.grey_stack@.contains(i as usize) by {
                    if i != j as int {
                        assert(h1.slots@[i] == h0.slots@[i]);
                    }
                }
                assert forall|i: int| h1.live(i) && #[trigger] h1.state(i) != MarkState::White implies reachable(
                    g,
                    roots,
                    i,
                ) by {
                    if i != j as int {
                        assert(h1.slots@[i] == h0.slots@[i]);
                    }
                }
                assert forall|i: int, k: int|
                    h1.live(i) && h1.state(i) == MarkState::Black && 0 <= k < h1.fields(i).len() implies h1.state(
                        #[trigger] h1.fields(i)[k] as int,
                    ) != MarkState::White by {
                    if i != j as int {
                        assert(h1.slots@[i] == h0.slots@[i]);
                        assert(h0.live(i));
                        let f = h1.fields(i)[k] as int;
                        assert(h0.fields(i)[k] as int == f);
                        assert(h0.live(f));
                        assert(h0.state(f) != MarkState::White);
                        if f != j as int {
                            assert(h1.slots@[f] == h0.slots@[f]);
                        }
                    } else {
                        assert(h1.fields(i) == g.fields(i));
                    }
                }
                match cur {
                    Some(c) => {
                        if c != j as int {
                            assert(h1.slots@[c] == h0.slots@[c]);
                        }
                    },
                    None => {},
                }
            }
        }
    }

    /// Marks everything reachable from the objects in the slots `roots`:
    /// each root is marked, then grey objects are popped, their fields
    /// marked, and the objects turned black, until no grey object is left.
    pub fn run<V>(h: &mut SimpleAlloc<V>, roots: &Vec<usize>)
        requires
            old(h).at_rest(),
            forall|q: int| 0 <= q < roots@.len() ==> old(h).live(#[trigger] roots@[q] as int),
        ensures
            final(h).wf(),
            final(h).marked(),
            same_but_marks(*final(h), *old(h)),
            forall|i: int| #[trigger] final(h).live(i) ==> (final(h).state(i) == MarkState::Black <==> reachable(
                *old(h),
                index_set(roots@),
                i,
            )),
    {
        let ghost g = *h;
        let ghost root_set = index_set(roots@);
        let mut visitor = MarkVisitor { grey_stack: Vec::with_capacity(64) };
        proof {
            assert(same_but_marks(*h, g)) by {
                assert forall|i: int| 0 <= i < h.len() implies #[trigger] h.slots@[i] == with_state(
                    g.slots@[i],
                    h.state(i),
                ) by {
                    if h.live(i) {
                        assert(h.state(i) == MarkState::White);
                    }
                }
            }
        }
        let mut r: usize = 0;
        while r < roots.len()
            invariant
                visitor.inv(*h, g, root_set, None),
                g == *old(h),
                root_set == index_set(roots@),
                forall|q: int| 0 <= q < roots@.len() ==> g.live(#[trigger] roots@[q] as int),
                0 <= r <= roots@.len(),
                forall|q: int| 0 <= q < r ==> h.state(#[trigger] roots@[q] as int) != MarkState::White,
            decreases roots@.len() - r,
        {
            let ghost h0 = *h;
            proof {
                lemma_same_but_marks_wf(h0, g);
                assert(root_set.contains(roots@[r as int] as int));
                assert(reach_within(g, root_set, 0).contains(roots@[r as int] as int));
            }
            visitor.mark_slot(h, roots[r], Ghost(g), Ghost(root_set), Ghost(None));
            proof {
                assert forall|q: int| 0 <= q < r + 1 implies h.state(#[trigger] roots@[q] as int)
                    != MarkState::White by {
                    let e = roots@[q] as int;
                    if e != roots@[r as int] as int {
                        assert(h.slots@[e] == h0.slots@[e]);
                    }
                }
            }
            r = r + 1;
        }
        while visitor.grey_stack.len() > 0
            invariant
                visitor.inv(*h, g, root_set, None),
                g == *old(h),
                root_set == index_set(roots@),
                forall|q: int| 0 <= q < roots@.len() ==> h.state(#[trigger] roots@[q] as int) != MarkState::White,
                forall|q: int| 0 <= q < roots@.len() ==> g.live(#[trigger] roots@[q] as int),
            decreases visitor.measure(*h),
        {
            let ghost h0 = *h;
            let ghost m0 = visitor.measure(*h);
            let ghost stack0 = visitor.grey_stack@;
            let slot_count = h.slots.len();
            let cur = match visitor.grey_stack.pop() {
                Some(c) => c,
                None => 0,
            };
            proof {
                lemma_same_but_marks_wf(h0, g);
                assert(stack0 == visitor.grey_stack@.push(cur));
                assert(stack0[stack0.len() - 1] == cur);
                assert(h0.state(cur as int) == MarkState::Grey);
                assert forall|q: int| 0 <= q < visitor.grey_stack@.len() implies h.live(
                    #[trigger] visitor.grey_stack@[q] as int,
                ) && h.state(visitor.grey_stack@[q] as int) == MarkState::Grey && Some(cur as int) != Some(
                    visitor.grey_stack@[q] as int,
                ) by {
                    assert(stack0[q] == visitor.grey_stack@[q]);
                }
                assert forall|i: int| h.live(i) && #[trigger] h.state(i) == MarkState::Grey && Some(cur as int)
                    != Some(i) implies visitor.grey_stack@.contains(i as usize) by {
                    assert(h0.state(i) == MarkState::Grey);
                    assert(stack0.contains(i as usize));
                    assert(i < slot_count);
                    crate::heap::lemma_push_contains(visitor.grey_stack@, cur, i as usize);
                }
                assert(visitor.grey_stack@.no_duplicates()) by {
                    assert forall|a: int, b: int|
                        0 <= a < visitor.grey_stack@.len() && 0 <= b < visitor.grey_stack@.len() && a != b
                        implies visitor.grey_stack@[a] != visitor.grey_stack@[b] by {
                        assert(stack0[a] == visitor.grey_stack@[a]);
                        assert(stack0[b] == visitor.grey_stack@[b]);
                    }
                }
                assert(visitor.inv(*h, g, root_set, Some(cur as int)));
            }
            let n = match &h.slots[cur].object {
                Some(o) => o.fields.len(),
                None => 0,
            };
            let mut k: usize = 0;
            while k < n
                invariant
                    visitor.inv(*h, g, root_set, Some(cur as int)),
                    g == *old(h),
                    n == g.fields(cur as int).len(),
                    g.live(cur as int),
                    0 <= k <= n,
                    forall|q: int| 0 <= q < k ==> h.state(#[trigger] g.fields(cur as int)[q] as int)
                        != MarkState::White,
                    forall|q: int| 0 <= q < roots@.len() ==> h.state(#[trigger] roots@[q] as int)
                        != MarkState::White,
                    visitor.measure(*h) + 1 <= m0,
                    forall|q: int| 0 <= q < roots@.len() ==> g.live(#[trigger] roots@[q] as int),
                decreases n - k,
            {
                let ghost h1 = *h;
                proof {
                    lemma_same_but_marks_wf(h1, g);
                }
                let f = match &h.slots[cur].object {
                    Some(o) => o.fields[k],
                    None => 0,
                };
                proof {
                    assert(f == g.fields(cur as int)[k as int]);
                    assert(g.live(f as int));
                    lemma_reachable_step(g, root_set, cur as int, k as int);
                }
                visitor.mark_slot(h, f, Ghost(g), Ghost(root_set), Ghost(Some(cur as int)));
                proof {
                    assert forall|q: int| 0 <= q < k + 1 implies h.state(#[trigger] g.fields(cur as int)[q] as int)
                        != MarkState::White by {
                        let e = g.fields(cur as int)[q] as int;
                        assert(g.live(e));
                        assert(h1.len() == g.len());
                        assert(h.len() == g.len());
                        if e != f as int {
                            assert(h.slots@[e] == h1.slots@[e]);
                        }
                    }
                    assert forall|q: int| 0 <= q < roots@.len() implies h.state(#[trigger] roots@[q] as int)
                        != MarkState::White by {
                        let e = roots@[q] as int;
                        if e != f as int {
                            assert(h.slots@[e] == h1.slots@[e]);
                        }
                    }
                }
                k = k + 1;
            }
            let ghost h2 = *h;
            set_state(&mut h.slots, cur, MarkState::Black);
            proof {
                lemma_same_but_marks_wf(h2, g);
                lemma_weight_update(h2.slots@, cur as int, h.slots@[cur as int], h2.len());
                let h3 = *h;
                assert(same_but_marks(h3, g)) by {
                    assert forall|i: int| 0 <= i < h3.len() implies #[trigger] h3.slots@[i] == with_state(
                        g.slots@[i],
                        h3.state(i),
                    ) by {
                        assert(h2.slots@[i] == with_state(g.slots@[i], h2.state(i)));
                    }
                }
                assert forall|q: int| 0 <= q < visitor.grey_stack@.len() implies h3.live(
                    #[trigger] visitor.grey_stack@[q] as int,
                ) && h3.state(visitor.grey_stack@[q] as int) == MarkState::Grey && None::<int> != Some(
                    visitor.grey_stack@[q] as int,
                ) by {
                    let e = visitor.grey_stack@[q] as int;
                    assert(h3.slots@[e] == h2.slots@[e]);
                }
                assert forall|i: int| h3.live(i) && #[trigger] h3.state(i) == MarkState::Grey && None::<int> != Some(i)
                    implies visitor.grey_stack@.contains(i as usize) by {
                    assert(h3.slots@[i] == h2.slots@[i]);
                }
                assert forall|i: int| h3.live(i) && #[trigger] h3.state(i) != MarkState::White implies reachable(
                    g,
                    root_set,
                    i,
                ) by {
                    if i != cur as int {
                        assert(h3.slots@[i] == h2.slots@[i]);
                    }
                }
                assert forall|i: int, q: int|
                    h3.live(i) && h3.state(i) == MarkState::Black && 0 <= q < h3.fields(i).len() implies h3.state(
                        #[trigger] h3.fields(i)[q] as int,
                    ) != MarkState::White by {
                    assert(h3.slots@[i] == with_state(h2.slots@[i], h3.state(i)));
                    assert(h3.fields(i) == h2.fields(i));
                    assert(h2.live(i));
                    let e = h3.fields(i)[q] as int;
                    assert(h2.fields(i)[q] as int == e);
                    assert(h2.live(e));
                    if e != cur as int {
                        assert(h3.slots@[e] == h2.slots@[e]);
                    }
                    if i != cur as int {
                        assert(h3.slots@[i] == h2.slots@[i]);
                    } else {
                        assert(h2.fields(i) == g.fields(i));
                    }
                }
                assert forall|q: int| 0 <= q < roots@.len() implies h3.state(#[trigger] roots@[q] as int)
                    != MarkState::White by {
                    let e = roots@[q] as int;
                    if e != cur as int {
                        assert(h3.slots@[e] == h2.slots@[e]);
                    }
                }
            }
        }
        proof {
            let hf = *h;
            lemma_same_but_marks_wf(hf, g);
            assert forall|i: int| hf.live(i) implies #[trigger] hf.state(i) != MarkState::Grey by {
                if hf.state(i) == MarkState::Grey {
                    assert(visitor.grey_stack@.contains(i as usize));
                }
            }
            assert forall|r: int| #[trigger] root_set.contains(r) implies hf.live(r) && hf.state(r)
                != MarkState::White by {
                let q = choose|q: int| 0 <= q < roots@.len() && roots@[q] as int == r;
                assert(hf.state(roots@[q] as int) != MarkState::White);
            }
            assert forall|i: int| #[trigger] hf.live(i) implies (hf.state(i) == MarkState::Black <==> reachable(
                g,
                root_set,
                i,
            )) by {
                if reachable(g, root_set, i) {
                    let n = choose|n: nat| #[trigger] reach_within(g, root_set, n).contains(i);
                    lemma_reachable_marked(hf, g, root_set, n);
                }
            }
        }
    }
}

} // verus!
