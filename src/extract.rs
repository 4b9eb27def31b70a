use vstd::prelude::*;
use crate::intervals::{IntervalSet, span};
use crate::trace::Edge;

verus! {

/// Whether some function name occurs in all three lists.
pub open spec fn shares_function(a: Seq<String>, b: Seq<String>, wanted: Seq<String>) -> bool {
    exists|i: int, j: int, k: int|
        0 <= i < a.len() && 0 <= j < b.len() && 0 <= k < wanted.len()
        && #[trigger] a[i]@ == #[trigger] b[j]@ && b[j]@ == #[trigger] wanted[k]@
}

/// Whether the inline-frame functions at two addresses have a function in common that
/// also occurs among the functions named by the findings.
pub fn shares_finding_function(a: &Vec<String>, b: &Vec<String>, wanted: &Vec<String>) -> (r: bool)
    ensures
        r == shares_function(a@, b@, wanted@),
{
    let mut i: usize = 0;
    while i < a.len()
        invariant
            i <= a@.len(),
            forall|i0: int, j: int, k: int|
                0 <= i0 < i && 0 <= j < b@.len() && 0 <= k < wanted@.len()
                ==> !(#[trigger] a@[i0]@ == #[trigger] b@[j]@ && b@[j]@ == #[trigger] wanted@[k]@),
        decreases a.len() - i,
    {
        let mut j: usize = 0;
        while j < b.len()
            invariant
                i < a@.len(),
                j <= b@.len(),
                forall|i0: int, j0: int, k: int|
                    0 <= i0 < i && 0 <= j0 < b@.len() && 0 <= k < wanted@.len()
                    ==> !(#[trigger] a@[i0]@ == #[trigger] b@[j0]@ && b@[j0]@ == #[trigger] wanted@[k]@),
                forall|j0: int, k: int|
                    0 <= j0 < j && 0 <= k < wanted@.len()
                    ==> !(a@[i as int]@ == #[trigger] b@[j0]@ && b@[j0]@ == #[trigger] wanted@[k]@),
            decreases b.len() - j,
        {
            if a[i] == b[j] {
                let mut k: usize = 0;
                while k < wanted.len()
                    invariant
                        i < a@.len(),
                        j < b@.len(),
                        k <= wanted@.len(),
                        a@[i as int]@ == b@[j as int]@,
                        forall|k0: int| 0 <= k0 < k ==> b@[j as int]@ != #[trigger] wanted@[k0]@,
                    decreases wanted.len() - k,
                {
                    if b[j] == wanted[k] {
                        assert(a@[i as int]@ == b@[j as int]@ && b@[j as int]@ == wanted@[k as int]@);
                        return true;
                    }
                    k = k + 1;
                }
            }
            j = j + 1;
        }
        i = i + 1;
    }
    false
}

/// Whether the gap before edge `i` (from the previous edge's destination to this edge's
/// source) counts as executed: it runs forward and both ends lie in a common function
/// of interest.
pub open spec fn gap_taken(
    edges: Seq<Edge>,
    dst_funcs: Seq<Vec<String>>,
    src_funcs: Seq<Vec<String>>,
    wanted: Seq<String>,
    i: int,
) -> bool {
    0 < i < edges.len() && edges[i - 1].1 <= edges[i].0
        && shares_function(dst_funcs[i - 1]@, src_funcs[i]@, wanted)
}

/// The addresses believed executed: every edge's two endpoints, and every gap taken.
pub open spec fn executed(
    edges: Seq<Edge>,
    dst_funcs: Seq<Vec<String>>,
    src_funcs: Seq<Vec<String>>,
    wanted: Seq<String>,
) -> Set<u64> {
    Set::new(|x: u64| exists|i: int| 0 <= i < edges.len() && #[trigger] in_edge(edges, dst_funcs, src_funcs, wanted, i, x))
}

/// Whether edge `i` accounts for address `x`.
pub open spec fn in_edge(
    edges: Seq<Edge>,
    dst_funcs: Seq<Vec<String>>,
    src_funcs: Seq<Vec<String>>,
    wanted: Seq<String>,
    i: int,
    x: u64,
) -> bool {
    x == edges[i].0 || x == edges[i].1
        || (gap_taken(edges, dst_funcs, src_funcs, wanted, i) && edges[i - 1].1 <= x && x <= edges[i].0)
}

/// The address ranges executed in one trace. `dst_funcs[i]` and `src_funcs[i]` are the
/// inline-frame function names at the destination and at the source of `edges[i]`;
/// `wanted` are the function names of the findings.
pub fn extract_ranges(
    edges: &Vec<Edge>,
    dst_funcs: &Vec<Vec<String>>,
    src_funcs: &Vec<Vec<String>>,
    wanted: &Vec<String>,
) -> (r: IntervalSet)
    requires
        dst_funcs@.len() == edges@.len(),
        src_funcs@.len() == edges@.len(),
    ensures
        r@ == executed(edges@, dst_funcs@, src_funcs@, wanted@),
{
    let mut ranges = IntervalSet::new();
    let mut i: usize = 0;
    while i < edges.len()
        invariant
            i <= edges@.len(),
            dst_funcs@.len() == edges@.len(),
            src_funcs@.len() == edges@.len(),
            ranges@ == executed(edges@.subrange(0, i as int), dst_funcs@, src_funcs@, wanted@),
        decreases edges.len() - i,
    {
        let (src, dst) = edges[i];
        let ghost before = ranges@;
        let mut taken = false;
        if i > 0 {
            let prev_dst = edges[i - 1].1;
            if prev_dst <= src && shares_finding_function(&dst_funcs[i - 1], &src_funcs[i], wanted) {
                ranges.insert(prev_dst, src);
                taken = true;
            }
        }
        ranges.insert(src, src);
        ranges.insert(dst, dst);
        proof {
            let e = edges@;
            let pre = e.subrange(0, i as int);
            let post = e.subrange(0, i + 1);
            assert(taken == gap_taken(post, dst_funcs@, src_funcs@, wanted@, i as int));
            assert forall|x: u64| #[trigger] executed(post, dst_funcs@, src_funcs@, wanted@).contains(x)
                == ranges@.contains(x) by {
                assert forall|j: int| 0 <= j < i implies
                    #[trigger] in_edge(post, dst_funcs@, src_funcs@, wanted@, j, x)
                    == in_edge(pre, dst_funcs@, src_funcs@, wanted@, j, x) by {
                    assert(post[j] == pre[j]);
                    if j > 0 {
                        assert(post[j - 1] == pre[j - 1]);
                    }
                }
                if executed(post, dst_funcs@, src_funcs@, wanted@).contains(x) {
                    let j = choose|j: int| 0 <= j < post.len() && #[trigger] in_edge(post, dst_funcs@, src_funcs@, wanted@, j, x);
                    if j < i {
                        assert(executed(pre, dst_funcs@, src_funcs@, wanted@).contains(x));
                    }
                }
                if before.contains(x) {
                    let j = choose|j: int| 0 <= j < pre.len() && #[trigger] in_edge(pre, dst_funcs@, src_funcs@, wanted@, j, x);
                    assert(in_edge(post, dst_funcs@, src_funcs@, wanted@, j, x));
                } else if ranges@.contains(x) {
                    assert(in_edge(post, dst_funcs@, src_funcs@, wanted@, i as int, x));
                }
            }
            assert(ranges@ =~= executed(post, dst_funcs@, src_funcs@, wanted@));
        }
        i = i + 1;
    }
    assert(edges@.subrange(0, edges@.len() as int) =~= edges@);
    ranges
}

/// For edges `(a, b)` then `(b, c)` with `a <= b <= c`, where the gap between them lies in
/// a common function of interest, the executed addresses are `a` and the whole of
/// `[b, c]`. The gap taken runs from `b` to the second edge's source, `b` itself, so this
/// holds where `c` is `b` or follows it directly.
pub proof fn lemma_forward_gap_filled(
    a: u64,
    b: u64,
    c: u64,
    dst_funcs: Seq<Vec<String>>,
    src_funcs: Seq<Vec<String>>,
    wanted: Seq<String>,
)
    requires
        a <= b <= c,
        c <= b + 1,
        dst_funcs.len() == 2,
        src_funcs.len() == 2,
        shares_function(dst_funcs[0]@, src_funcs[1]@, wanted),
    ensures
        executed(seq![(a, b), (b, c)], dst_funcs, src_funcs, wanted)
            == Set::<u64>::empty().insert(a).union(span(b, c)),
{
    let e = seq![(a, b), (b, c)];
    assert(e[0] == (a, b) && e[1] == (b, c));
    assert(gap_taken(e, dst_funcs, src_funcs, wanted, 1));
    assert forall|x: u64| #[trigger] executed(e, dst_funcs, src_funcs, wanted).contains(x)
        == Set::<u64>::empty().insert(a).union(span(b, c)).contains(x) by {
        if a == x {
            assert(in_edge(e, dst_funcs, src_funcs, wanted, 0, x));
        }
        if b <= x && x <= c {
            if x == b {
                assert(in_edge(e, dst_funcs, src_funcs, wanted, 0, x));
            } else {
                assert(in_edge(e, dst_funcs, src_funcs, wanted, 1, x));
            }
        }
    }
    assert(executed(e, dst_funcs, src_funcs, wanted) =~= Set::<u64>::empty().insert(a).union(span(b, c)));
}

} // verus!
