//! The trace protocol: what a payload type declares so that the collector
//! can find the managed references inside it.
use vstd::prelude::*;
use crate::collector::{Gc, GcVisitor, SimpleCollector};
use crate::layout::{GcType, valid_layout};

verus! {

/// Every reference in `refs` belongs to the collector `id`.
pub open spec fn all_belong(refs: Seq<Gc>, id: u64) -> bool {
    forall|k: int| 0 <= k < refs.len() ==> (#[trigger] refs[k]).spec_collector() == id
}

/// What visiting a value whose references are `refs` does to a visitor:
/// they are recorded in order.
pub open spec fn visits(refs: Seq<Gc>, before: GcVisitor, after: GcVisitor) -> bool {
    &&& after.spec_expected() == before.spec_expected()
    &&& after.spec_visited() == before.spec_visited() + refs
}

/// The visitor may be handed the references `refs`: they all belong to its
/// collector, if it has one.
pub open spec fn admits(visitor: GcVisitor, refs: Seq<Gc>) -> bool {
    match visitor.spec_expected() {
        Some(id) => all_belong(refs, id),
        None => true,
    }
}

/// A type whose values the collector can scan for managed references.
pub trait Trace: Sized {
    /// Values of this type can hold managed references. A false negative
    /// would let the collector free a live object; a false positive only
    /// costs scanning work.
    spec fn spec_needs_trace() -> bool;

    /// The managed references this value holds, in visiting order.
    spec fn spec_refs(&self) -> Seq<Gc>;

    fn needs_trace() -> (r: bool)
        ensures
            r == Self::spec_needs_trace(),
    ;

    /// A value of a type that declares no managed references holds none.
    proof fn lemma_untraced_has_no_refs(&self)
        requires
            !Self::spec_needs_trace(),
        ensures
            self.spec_refs().len() == 0,
    ;

    /// Hands every managed reference this value holds to `visitor`, which
    /// must admit them.
    fn visit(&self, visitor: &mut GcVisitor)
        requires
            admits(*old(visitor), self.spec_refs()),
        ensures
            visits(self.spec_refs(), *old(visitor), *final(visitor)),
    ;
}

/// A type that can be scanned through a shared borrow.
pub trait TraceImmutable: Trace {
    fn visit_immutable(&self, visitor: &mut GcVisitor)
        requires
            admits(*old(visitor), self.spec_refs()),
        ensures
            visits(self.spec_refs(), *old(visitor), *final(visitor)),
    ;
}

/// A type statically known to hold no managed references.
pub trait NullTrace: Trace {
    proof fn lemma_null_trace()
        ensures
            !Self::spec_needs_trace(),
    ;
}

/// A type that may be allocated in the collector: its destructor, if any,
/// never reads another managed object.
pub trait GcSafe: Trace {
    /// Values of this type need their destructor run when reclaimed.
    spec fn spec_needs_drop() -> bool;

    fn needs_drop() -> (r: bool)
        ensures
            r == Self::spec_needs_drop(),
    ;
}

/// A type re-expressed for the epoch after a safepoint. References carry
/// their epoch as a value, so the re-expressed type is the type itself.
pub trait GcBrand: Trace {
    type Branded: Trace;
}

/// A garbage collection system.
pub trait GcSystem {
}

impl<V> GcSystem for SimpleCollector<V> {
}

/// `NEEDS_TRACE` of a composite type derived from its fields: true when
/// any field needs tracing.
pub fn derived_needs_trace(fields: &Vec<bool>) -> (r: bool)
    ensures
        r == exists|k: int| 0 <= k < fields@.len() && #[trigger] fields@[k],
{
    let mut k: usize = 0;
    while k < fields.len()
        invariant
            0 <= k <= fields@.len(),
            forall|q: int| 0 <= q < k ==> !#[trigger] fields@[q],
        decreases fields@.len() - k,
    {
        if fields[k] {
            return true;
        }
        k = k + 1;
    }
    false
}

/// The descriptor of the payload type `T`, with the tracing and drop
/// needs that `T` declares, or `None` when its layout is beyond what a
/// descriptor accepts.
pub fn type_info<T: GcSafe>() -> (r: Option<GcType>)
    ensures
        r is Some <==> valid_layout(vstd::layout::size_of::<T>(), vstd::layout::align_of::<T>()),
        r matches Some(ty) ==> {
            &&& ty.wf()
            &&& ty.spec_value_size() == vstd::layout::size_of::<T>()
            &&& ty.spec_value_align() == vstd::layout::align_of::<T>()
            &&& ty.spec_needs_trace() == T::spec_needs_trace()
            &&& ty.spec_needs_drop() == T::spec_needs_drop()
        },
{
    GcType::of::<T>(T::needs_trace(), T::needs_drop())
}

impl Trace for u8 {
    open spec fn spec_needs_trace() -> bool {
        false
    }

    open spec fn spec_refs(&self) -> Seq<Gc> {
        Seq::empty()
    }

    fn needs_trace() -> (r: bool) {
        false
    }

    proof fn lemma_untraced_has_no_refs(&self) {
    }

    fn visit(&self, visitor: &mut GcVisitor) {
        assert(visitor.spec_visited() + Seq::<Gc>::empty() =~= visitor.spec_visited());
    }
}

impl Trace for u32 {
    open spec fn spec_needs_trace() -> bool {
        false
    }

    open spec fn spec_refs(&self) -> Seq<Gc> {
        Seq::empty()
    }

    fn needs_trace() -> (r: bool) {
        false
    }

    proof fn lemma_untraced_has_no_refs(&self) {
    }

    fn visit(&self, visitor: &mut GcVisitor) {
        assert(visitor.spec_visited() + Seq::<Gc>::empty() =~= visitor.spec_visited());
    }
}

impl Trace for u64 {
    open spec fn spec_needs_trace() -> bool {
        false
    }

    open spec fn spec_refs(&self) -> Seq<Gc> {
        Seq::empty()
    }

    fn needs_trace() -> (r: bool) {
        false
    }

    proof fn lemma_untraced_has_no_refs(&self) {
    }

    fn visit(&self, visitor: &mut GcVisitor) {
        assert(visitor.spec_visited() + Seq::<Gc>::empty() =~= visitor.spec_visited());
    }
}

impl Trace for i64 {
    open spec fn spec_needs_trace() -> bool {
        false
    }

    open spec fn spec_refs(&self) -> Seq<Gc> {
        Seq::empty()
    }

    fn needs_trace() -> (r: bool) {
        false
    }

    proof fn lemma_untraced_has_no_refs(&self) {
    }

    fn visit(&self, visitor: &mut GcVisitor) {
        assert(visitor.spec_visited() + Seq::<Gc>::empty() =~= visitor.spec_visited());
    }
}

impl Trace for usize {
    open spec fn spec_needs_trace() -> bool {
        false
    }

    open spec fn spec_refs(&self) -> Seq<Gc> {
        Seq::empty()
    }

    fn needs_trace() -> (r: bool) {
        false
    }

    proof fn lemma_untraced_has_no_refs(&self) {
    }

    fn visit(&self, visitor: &mut GcVisitor) {
        assert(visitor.spec_visited() + Seq::<Gc>::empty() =~= visitor.spec_visited());
    }
}

impl Trace for bool {
    open spec fn spec_needs_trace() -> bool {
        false
    }

    open spec fn spec_refs(&self) -> Seq<Gc> {
        Seq::empty()
    }

    fn needs_trace() -> (r: bool) {
        false
    }

    proof fn lemma_untraced_has_no_refs(&self) {
    }

    fn visit(&self, visitor: &mut GcVisitor) {
        assert(visitor.spec_visited() + Seq::<Gc>::empty() =~= visitor.spec_visited());
    }
}

impl NullTrace for u8 {
    proof fn lemma_null_trace() {
    }
}

impl NullTrace for u32 {
    proof fn lemma_null_trace() {
    }
}

impl NullTrace for u64 {
    proof fn lemma_null_trace() {
    }
}

impl NullTrace for i64 {
    proof fn lemma_null_trace() {
    }
}

impl NullTrace for usize {
    proof fn lemma_null_trace() {
    }
}

impl NullTrace for bool {
    proof fn lemma_null_trace() {
    }
}

impl GcSafe for u8 {
    open spec fn spec_needs_drop() -> bool {
        false
    }

    fn needs_drop() -> (r: bool) {
        false
    }
}

impl GcSafe for u32 {
    open spec fn spec_needs_drop() -> bool {
        false
    }

    fn needs_drop() -> (r: bool) {
        false
    }
}

impl GcSafe for u64 {
    open spec fn spec_needs_drop() -> bool {
        false
    }

    fn needs_drop() -> (r: bool) {
        false
    }
}

impl GcSafe for i64 {
    open spec fn spec_needs_drop() -> bool {
        false
    }

    fn needs_drop() -> (r: bool) {
        false
    }
}

impl GcSafe for usize {
    open spec fn spec_needs_drop() -> bool {
        false
    }

    fn needs_drop() -> (r: bool) {
        false
    }
}

impl GcSafe for bool {
    open spec fn spec_needs_drop() -> bool {
        false
    }

    fn needs_drop() -> (r: bool) {
        false
    }
}

impl Trace for Gc {
    open spec fn spec_needs_trace() -> bool {
        true
    }

    open spec fn spec_refs(&self) -> Seq<Gc> {
        seq![*self]
    }

    fn needs_trace() -> (r: bool) {
        true
    }

    proof fn lemma_untraced_has_no_refs(&self) {
    }

    fn visit(&self, visitor: &mut GcVisitor) {
        let ghost before = visitor.spec_visited();
        proof {
            assert(seq![*self][0] == *self);
        }
        visitor.visit_gc(self);
        assert(before.push(*self) =~= before + seq![*self]);
    }
}

impl TraceImmutable for Gc {
    fn visit_immutable(&self, visitor: &mut GcVisitor) {
        self.visit(visitor)
    }
}

impl GcSafe for Gc {
    open spec fn spec_needs_drop() -> bool {
        false
    }

    fn needs_drop() -> (r: bool) {
        false
    }
}

impl GcBrand for Gc {
    type Branded = Gc;
}

impl<T: Trace> Trace for Option<T> {
    open spec fn spec_needs_trace() -> bool {
        T::spec_needs_trace()
    }

    open spec fn spec_refs(&self) -> Seq<Gc> {
        match self {
            Some(v) => v.spec_refs(),
            None => Seq::empty(),
        }
    }

    fn needs_trace() -> (r: bool) {
        T::needs_trace()
    }

    proof fn lemma_untraced_has_no_refs(&self) {
        match self {
            Some(v) => v.lemma_untraced_has_no_refs(),
            None => {},
        }
    }

    fn visit(&self, visitor: &mut GcVisitor) {
        match self {
            Some(v) => v.visit(visitor),
            None => {
                assert(visitor.spec_visited() + Seq::<Gc>::empty() =~= visitor.spec_visited());
            },
        }
    }
}

/// The references held by the elements of `s`, element by element.
pub open spec fn flat_refs<T: Trace>(s: Seq<T>) -> Seq<Gc>
    decreases s.len(),
{
    if s.len() == 0 {
        Seq::empty()
    } else {
        flat_refs(s.drop_last()) + s.last().spec_refs()
    }
}

proof fn lemma_flat_refs_untraced<T: Trace>(s: Seq<T>)
    requires
        !T::spec_needs_trace(),
    ensures
        flat_refs(s).len() == 0,
    decreases s.len(),
{
    if s.len() > 0 {
        lemma_flat_refs_untraced(s.drop_last());
        s.last().lemma_untraced_has_no_refs();
    }
}

proof fn lemma_all_belong_concat(a: Seq<Gc>, b: Seq<Gc>, id: u64)
    ensures
        all_belong(a + b, id) <==> all_belong(a, id) && all_belong(b, id),
{
    if all_belong(a + b, id) {
        assert forall|k: int| 0 <= k < a.len() implies (#[trigger] a[k]).spec_collector() == id by {
            assert((a + b)[k] == a[k]);
        }
        assert forall|k: int| 0 <= k < b.len() implies (#[trigger] b[k]).spec_collector() == id by {
            assert((a + b)[a.len() + k] == b[k]);
        }
    }
    if all_belong(a, id) && all_belong(b, id) {
        assert forall|k: int| 0 <= k < (a + b).len() implies (#[trigger] (a + b)[k]).spec_collector() == id by {
            if k < a.len() {
                assert((a + b)[k] == a[k]);
            } else {
                assert((a + b)[k] == b[k - a.len()]);
            }
        }
    }
}

/// The references of a prefix come first among those of the whole.
proof fn lemma_flat_refs_prefix<T: Trace>(s: Seq<T>, k: int)
    requires
        0 <= k <= s.len(),
    ensures
        flat_refs(s) == flat_refs(s.subrange(0, k)) + flat_refs(s.subrange(k, s.len() as int)),
    decreases s.len() - k,
{
    if k == s.len() {
        assert(s.subrange(0, k) =~= s);
        assert(flat_refs(s.subrange(k, s.len() as int)) =~= Seq::<Gc>::empty()) by {
            assert(s.subrange(k, s.len() as int).len() == 0);
        }
        assert(flat_refs(s) + Seq::<Gc>::empty() =~= flat_refs(s));
    } else {
        lemma_flat_refs_prefix(s, k + 1);
        let a = s.subrange(0, k);
        let a1 = s.subrange(0, k + 1);
        let b = s.subrange(k, s.len() as int);
        let b1 = s.subrange(k + 1, s.len() as int);
        assert(a1.drop_last() =~= a);
        assert(a1.last() == s[k]);
        assert(flat_refs(a1) == flat_refs(a) + s[k].spec_refs());
        lemma_flat_refs_front(b);
        assert(b.subrange(1, b.len() as int) =~= b1);
        assert(b[0] == s[k]);
        assert(flat_refs(s) == flat_refs(a) + s[k].spec_refs() + flat_refs(b1));
        assert(flat_refs(a) + s[k].spec_refs() + flat_refs(b1) =~= flat_refs(a) + (s[k].spec_refs() + flat_refs(b1)));
    }
}

/// The references of a non-empty sequence are those of its first element
/// followed by those of the rest.
proof fn lemma_flat_refs_front<T: Trace>(s: Seq<T>)
    requires
        s.len() > 0,
    ensures
        flat_refs(s) == s[0].spec_refs() + flat_refs(s.subrange(1, s.len() as int)),
    decreases s.len(),
{
    if s.len() == 1 {
        assert(s.drop_last() =~= Seq::<T>::empty());
        assert(s.subrange(1, 1) =~= Seq::<T>::empty());
        assert(Seq::<Gc>::empty() + s[0].spec_refs() =~= s[0].spec_refs());
        assert(s[0].spec_refs() + Seq::<Gc>::empty() =~= s[0].spec_refs());
    } else {
        let d = s.drop_last();
        lemma_flat_refs_front(d);
        let rest = s.subrange(1, s.len() as int);
        assert(d.subrange(1, d.len() as int) =~= rest.drop_last());
        assert(rest.last() == s.last());
        assert(d[0] == s[0]);
        assert(flat_refs(rest) == flat_refs(rest.drop_last()) + rest.last().spec_refs());
        assert(s[0].spec_refs() + flat_refs(d.subrange(1, d.len() as int)) + s.last().spec_refs()
            =~= s[0].spec_refs() + (flat_refs(rest.drop_last()) + rest.last().spec_refs()));
    }
}

impl<T: Trace> Trace for Vec<T> {
    open spec fn spec_needs_trace() -> bool {
        T::spec_needs_trace()
    }

    open spec fn spec_refs(&self) -> Seq<Gc> {
        flat_refs(self@)
    }

    fn needs_trace() -> (r: bool) {
        T::needs_trace()
    }

    proof fn lemma_untraced_has_no_refs(&self) {
        lemma_flat_refs_untraced(self@);
    }

    fn visit(&self, visitor: &mut GcVisitor) {
        let ghost before = visitor.spec_visited();
        let ghost expected = visitor.spec_expected();
        if !T::needs_trace() {
            proof {
                lemma_flat_refs_untraced(self@);
                assert(flat_refs(self@) =~= Seq::<Gc>::empty());
                assert(before + Seq::<Gc>::empty() =~= before);
            }
            return;
        }
        let mut k: usize = 0;
        while k < self.len()
            invariant
                0 <= k <= self@.len(),
                visitor.spec_expected() == expected,
                expected == old(visitor).spec_expected(),
                before == old(visitor).spec_visited(),
                admits(*old(visitor), flat_refs(self@)),
                visitor.spec_visited() == before + flat_refs(self@.subrange(0, k as int)),
            decreases self@.len() - k,
        {
            let ghost prefix = self@.subrange(0, k as int);
            proof {
                let next = self@.subrange(0, k + 1);
                assert(next.drop_last() =~= prefix);
                assert(next.last() == self@[k as int]);
                assert(flat_refs(next) == flat_refs(prefix) + self@[k as int].spec_refs());
                lemma_flat_refs_prefix(self@, k + 1);
                if let Some(id) = expected {
                    lemma_all_belong_concat(flat_refs(next), flat_refs(self@.subrange(k + 1, self@.len() as int)), id);
                    lemma_all_belong_concat(flat_refs(prefix), self@[k as int].spec_refs(), id);
                }
            }
            self[k].visit(visitor);
            proof {
                assert(before + flat_refs(prefix) + self@[k as int].spec_refs()
                    =~= before + (flat_refs(prefix) + self@[k as int].spec_refs()));
            }
            k = k + 1;
        }
        proof {
            assert(self@.subrange(0, self@.len() as int) =~= self@);
        }
    }
}

impl<T: GcSafe> GcSafe for Vec<T> {
    open spec fn spec_needs_drop() -> bool {
        true
    }

    fn needs_drop() -> (r: bool) {
        true
    }
}

impl<A: Trace, B: Trace> Trace for (A, B) {
    open spec fn spec_needs_trace() -> bool {
        A::spec_needs_trace() || B::spec_needs_trace()
    }

    open spec fn spec_refs(&self) -> Seq<Gc> {
        self.0.spec_refs() + self.1.spec_refs()
    }

    fn needs_trace() -> (r: bool) {
        A::needs_trace() || B::needs_trace()
    }

    proof fn lemma_untraced_has_no_refs(&self) {
        self.0.lemma_untraced_has_no_refs();
        self.1.lemma_untraced_has_no_refs();
    }

    fn visit(&self, visitor: &mut GcVisitor) {
        let ghost before = visitor.spec_visited();
        proof {
            if let Some(id) = visitor.spec_expected() {
                lemma_all_belong_concat(self.0.spec_refs(), self.1.spec_refs(), id);
            }
        }
        self.0.visit(visitor);
        self.1.visit(visitor);
        assert(before + self.0.spec_refs() + self.1.spec_refs() =~= before + (self.0.spec_refs()
            + self.1.spec_refs()));
    }
}

impl<A: GcSafe, B: GcSafe> GcSafe for (A, B) {
    open spec fn spec_needs_drop() -> bool {
        A::spec_needs_drop() || B::spec_needs_drop()
    }

    fn needs_drop() -> (r: bool) {
        A::needs_drop() || B::needs_drop()
    }
}

/// A pair needs tracing exactly when one of its fields does.
pub proof fn lemma_pair_needs_trace<A: Trace, B: Trace>()
    ensures
        <(A, B) as Trace>::spec_needs_trace() == (A::spec_needs_trace() || B::spec_needs_trace()),
{
}

/// A wrapper whose contents are assumed to hold no managed references.
#[derive(Clone, Copy, Debug)]
pub struct AssumeNotTraced<T>(T);

impl<T> AssumeNotTraced<T> {
    /// Wraps `value`; the caller vouches that it holds no managed
    /// references.
    pub fn new(value: T) -> (r: AssumeNotTraced<T>)
        ensures
            r.spec_inner() == value,
    {
        AssumeNotTraced(value)
    }

    pub closed spec fn spec_inner(&self) -> T {
        self.0
    }

    /// The wrapped value.
    pub fn into_inner(self) -> (r: T)
        ensures
            r == self.spec_inner(),
    {
        self.0
    }

    /// A shared borrow of the wrapped value.
    pub fn get(&self) -> (r: &T)
        ensures
            *r == self.spec_inner(),
    {
        &self.0
    }
}

impl<T> Trace for AssumeNotTraced<T> {
    open spec fn spec_needs_trace() -> bool {
        false
    }

    open spec fn spec_refs(&self) -> Seq<Gc> {
        Seq::empty()
    }

    fn needs_trace() -> (r: bool) {
        false
    }

    proof fn lemma_untraced_has_no_refs(&self) {
    }

    fn visit(&self, visitor: &mut GcVisitor) {
        assert(visitor.spec_visited() + Seq::<Gc>::empty() =~= visitor.spec_visited());
    }
}

impl<T> TraceImmutable for AssumeNotTraced<T> {
    fn visit_immutable(&self, visitor: &mut GcVisitor) {
        self.visit(visitor)
    }
}

impl<T> NullTrace for AssumeNotTraced<T> {
    proof fn lemma_null_trace() {
    }
}

/// The wrapped value may own resources, so its destructor is always run
/// and reported when the object is reclaimed.
impl<T> GcSafe for AssumeNotTraced<T> {
    open spec fn spec_needs_drop() -> bool {
        true
    }

    fn needs_drop() -> (r: bool) {
        true
    }
}

impl<T> GcBrand for AssumeNotTraced<T> {
    type Branded = AssumeNotTraced<T>;
}

/// Compiles only for `Copy` types; derived code uses it to check a type.
pub fn assert_copy<T: Copy>() {
}

} // verus!
