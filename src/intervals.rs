use vstd::prelude::*;
use rangemap::RangeInclusiveSet;

verus! {

#[verifier::external_type_specification]
#[verifier::external_body]
#[verifier::reject_recursive_types(T)]
#[verifier::reject_recursive_types(StepFnsT)]
pub struct ExRangeInclusiveSet<T, StepFnsT>(RangeInclusiveSet<T, StepFnsT>);

/// The addresses that a rangemap set of `u64` ranges covers.
pub uninterp spec fn covered(s: RangeInclusiveSet<u64, u64>) -> Set<u64>;

/// The closed interval `[lo, hi]` as a set of addresses.
pub open spec fn span(lo: u64, hi: u64) -> Set<u64> {
    Set::new(|x: u64| lo <= x && x <= hi)
}

/// Relies on rangemap's `RangeInclusiveSet::new`: the new set covers nothing.
#[verifier::external_body]
fn range_set_new() -> (r: RangeInclusiveSet<u64, u64>)
    ensures
        covered(r) == Set::<u64>::empty(),
{
    RangeInclusiveSet::new()
}

/// Relies on rangemap's `RangeInclusiveSet::insert`: afterwards the set covers what it
/// covered before and every address of `lo..=hi` (it panics when `lo > hi`).
#[verifier::external_body]
fn range_set_insert(s: &mut RangeInclusiveSet<u64, u64>, lo: u64, hi: u64)
    requires
        lo <= hi,
    ensures
        covered(*final(s)) == covered(*old(s)).union(span(lo, hi)),
{
    s.insert(lo..=hi)
}

/// Relies on rangemap's `RangeInclusiveSet::iter`: the stored ranges in ascending order,
/// each non-empty, and with neither overlap nor adjacency between neighbours (the set
/// coalesces them on insertion); together they cover exactly the set's addresses.
#[verifier::external_body]
fn range_set_ranges(s: &RangeInclusiveSet<u64, u64>) -> (r: Vec<(u64, u64)>)
    ensures
        coalesced(r@),
        covered_by(r@) == covered(*s),
{
    s.iter().map(|range| (*range.start(), *range.end())).collect()
}

/// Each interval is non-empty, and each lies strictly above its predecessor with at
/// least one address between them.
pub open spec fn coalesced(r: Seq<(u64, u64)>) -> bool {
    &&& forall|i: int| 0 <= i < r.len() ==> #[trigger] r[i].0 <= r[i].1
    &&& forall|i: int| 0 < i < r.len() ==> r[i - 1].1 + 1 < #[trigger] r[i].0
}

/// The addresses that a sequence of closed intervals covers.
pub open spec fn covered_by(r: Seq<(u64, u64)>) -> Set<u64> {
    Set::new(|x: u64| exists|i: int| 0 <= i < r.len() && r[i].0 <= x && x <= #[trigger] r[i].1)
}

/// A set of addresses kept as disjoint, coalesced closed intervals. It only grows.
pub struct IntervalSet {
    inner: RangeInclusiveSet<u64, u64>,
}

impl View for IntervalSet {
    type V = Set<u64>;

    closed spec fn view(&self) -> Set<u64> {
        covered(self.inner)
    }
}

impl IntervalSet {
    /// The empty set.
    pub fn new() -> (r: IntervalSet)
        ensures
            r@ == Set::<u64>::empty(),
    {
        IntervalSet { inner: range_set_new() }
    }

    /// Adds every address of `[lo, hi]`.
    pub fn insert(&mut self, lo: u64, hi: u64)
        requires
            lo <= hi,
        ensures
            final(self)@ == old(self)@.union(span(lo, hi)),
    {
        range_set_insert(&mut self.inner, lo, hi);
    }

    /// The set as ascending, disjoint, non-adjacent closed intervals.
    pub fn ranges(&self) -> (r: Vec<(u64, u64)>)
        ensures
            coalesced(r@),
            covered_by(r@) == self@,
    {
        range_set_ranges(&self.inner)
    }

    /// Adds every address of `other` (the union of the two sets).
    pub fn merge(&mut self, other: &IntervalSet)
        ensures
            final(self)@ == old(self)@.union(other@),
    {
        let rs = other.ranges();
        let mut i: usize = 0;
        while i < rs.len()
            invariant
                0 <= i <= rs.len(),
                coalesced(rs@),
                covered_by(rs@) == other@,
                self@ == old(self)@.union(covered_by(rs@.subrange(0, i as int))),
            decreases rs.len() - i,
        {
            let (lo, hi) = rs[i];
            self.insert(lo, hi);
            proof {
                let pre = rs@.subrange(0, i as int);
                let post = rs@.subrange(0, i + 1);
                assert(covered_by(post) =~= covered_by(pre).union(span(lo, hi))) by {
                    assert forall|x: u64| #[trigger] covered_by(post).contains(x) implies covered_by(pre).union(span(lo, hi)).contains(x) by {
                        let j = choose|j: int| 0 <= j < post.len() && post[j].0 <= x && x <= #[trigger] post[j].1;
                        if j < i {
                            assert(pre[j] == post[j]);
                        }
                    }
                    assert forall|x: u64| #[trigger] covered_by(pre).union(span(lo, hi)).contains(x) implies covered_by(post).contains(x) by {
                        if covered_by(pre).contains(x) {
                            let j = choose|j: int| 0 <= j < pre.len() && pre[j].0 <= x && x <= #[trigger] pre[j].1;
                            assert(post[j] == pre[j]);
                        } else {
                            assert(post[i as int] == (lo, hi));
                        }
                    }
                }
                assert(self@ =~= old(self)@.union(covered_by(post)));
            }
            i = i + 1;
        }
        assert(rs@.subrange(0, rs.len() as int) =~= rs@);
    }

    /// Whether `x` lies in the set.
    pub fn contains(&self, x: u64) -> (r: bool)
        ensures
            r == self@.contains(x),
    {
        let rs = self.ranges();
        let mut i: usize = 0;
        while i < rs.len()
            invariant
                0 <= i <= rs.len(),
                covered_by(rs@) == self@,
                forall|j: int| 0 <= j < i ==> !(rs@[j].0 <= x && x <= #[trigger] rs@[j].1),
            decreases rs.len() - i,
        {
            if rs[i].0 <= x && x <= rs[i].1 {
                assert(covered_by(rs@).contains(x));
                return true;
            }
            i = i + 1;
        }
        assert(!covered_by(rs@).contains(x));
        false
    }
}

/// The addresses that a sequence of interval insertions adds to `s`.
pub open spec fn insert_all(s: Set<u64>, ivs: Seq<(u64, u64)>) -> Set<u64>
    decreases ivs.len(),
{
    if ivs.len() == 0 {
        s
    } else {
        insert_all(s, ivs.drop_last()).union(span(ivs.last().0, ivs.last().1))
    }
}

proof fn lemma_insert_all_is_union(s: Set<u64>, ivs: Seq<(u64, u64)>)
    ensures
        insert_all(s, ivs) == s.union(insert_all(Set::empty(), ivs)),
    decreases ivs.len(),
{
    if ivs.len() > 0 {
        lemma_insert_all_is_union(s, ivs.drop_last());
        assert(insert_all(s, ivs) =~= s.union(insert_all(Set::empty(), ivs)));
    }
}

/// Merging interval insertions is commutative: inserting the intervals of `a` and then
/// those of `b` covers the same addresses as inserting `b` first and then `a`.
pub proof fn lemma_insert_commutes(s: Set<u64>, a: Seq<(u64, u64)>, b: Seq<(u64, u64)>)
    ensures
        insert_all(insert_all(s, a), b) == insert_all(insert_all(s, b), a),
{
    lemma_insert_all_is_union(insert_all(s, a), b);
    lemma_insert_all_is_union(insert_all(s, b), a);
    lemma_insert_all_is_union(s, a);
    lemma_insert_all_is_union(s, b);
    assert(insert_all(insert_all(s, a), b) =~= insert_all(insert_all(s, b), a));
}

/// Merging interval insertions is associative: inserting the concatenation `a + b` covers
/// the same addresses as inserting `a` and then `b`, whatever the grouping.
pub proof fn lemma_insert_associates(s: Set<u64>, a: Seq<(u64, u64)>, b: Seq<(u64, u64)>)
    ensures
        insert_all(s, a + b) == insert_all(insert_all(s, a), b),
    decreases b.len(),
{
    if b.len() == 0 {
        assert(a + b =~= a);
    } else {
        lemma_insert_associates(s, a, b.drop_last());
        assert((a + b).drop_last() =~= a + b.drop_last());
        assert((a + b).last() == b.last());
    }
}

/// The shared set after merging each worker's per-file set into `s`, in the order given.
pub open spec fn merged(s: Set<u64>, parts: Seq<Set<u64>>) -> Set<u64>
    decreases parts.len(),
{
    if parts.len() == 0 {
        s
    } else {
        merged(s, parts.drop_last()).union(parts.last())
    }
}

proof fn lemma_merged_members(s: Set<u64>, parts: Seq<Set<u64>>)
    ensures
        merged(s, parts) == s.union(Set::new(|x: u64| exists|i: int| 0 <= i < parts.len() && #[trigger] parts[i].contains(x))),
    decreases parts.len(),
{
    let all = Set::new(|x: u64| exists|i: int| 0 <= i < parts.len() && #[trigger] parts[i].contains(x));
    if parts.len() == 0 {
        assert(s.union(all) =~= s);
    } else {
        let pre = parts.drop_last();
        lemma_merged_members(s, pre);
        assert forall|x: u64| #[trigger] merged(s, parts).contains(x) == s.union(all).contains(x) by {
            if exists|i: int| 0 <= i < pre.len() && #[trigger] pre[i].contains(x) {
                let i = choose|i: int| 0 <= i < pre.len() && #[trigger] pre[i].contains(x);
                assert(parts[i] == pre[i]);
            }
            if exists|i: int| 0 <= i < parts.len() && #[trigger] parts[i].contains(x) {
                let i = choose|i: int| 0 <= i < parts.len() && #[trigger] parts[i].contains(x);
                if i < pre.len() {
                    assert(pre[i] == parts[i]);
                }
            }
        }
        assert(merged(s, parts) =~= s.union(all));
    }
}

/// The merged result does not depend on the order in which the per-file sets arrive:
/// two merge orders over the same per-file sets (as the workers of any pool size
/// produce) give the same shared set.
pub proof fn lemma_merge_order_free(s: Set<u64>, a: Seq<Set<u64>>, b: Seq<Set<u64>>)
    requires
        a.to_set() == b.to_set(),
    ensures
        merged(s, a) == merged(s, b),
{
    lemma_merged_members(s, a);
    lemma_merged_members(s, b);
    assert forall|x: u64| #[trigger] merged(s, a).contains(x) == merged(s, b).contains(x) by {
        if exists|i: int| 0 <= i < a.len() && #[trigger] a[i].contains(x) {
            let i = choose|i: int| 0 <= i < a.len() && #[trigger] a[i].contains(x);
            assert(a.to_set().contains(a[i]));
            assert(b.contains(a[i]));
            let j = choose|j: int| 0 <= j < b.len() && b[j] == a[i];
            assert(b[j].contains(x));
        }
        if exists|i: int| 0 <= i < b.len() && #[trigger] b[i].contains(x) {
            let i = choose|i: int| 0 <= i < b.len() && #[trigger] b[i].contains(x);
            assert(b.to_set().contains(b[i]));
            assert(a.contains(b[i]));
            let j = choose|j: int| 0 <= j < a.len() && a[j] == b[i];
            assert(a[j].contains(x));
        }
    }
    assert(merged(s, a) =~= merged(s, b));
}

} // verus!
