//! Stable ordering: the one arrangement of `0..n` that a comparison and the
//! positions themselves decide.
use vstd::prelude::*;

verus! {

/// "Not after": the comparison a sort goes by.
pub type NotAfter = spec_fn(int, int) -> bool;

/// A total preorder on `0..n`.
pub open spec fn is_preorder(n: int, le: NotAfter) -> bool {
    &&& forall|a: int, b: int|
        0 <= a < n && 0 <= b < n ==> #[trigger] le(a, b) || le(b, a)
    &&& forall|a: int, b: int, c: int|
        0 <= a < n && 0 <= b < n && 0 <= c < n && #[trigger] le(a, b) && #[trigger] le(b, c)
            ==> le(a, c)
}

/// `a` stands before `b`: it compares lower, or equal and came first.
pub open spec fn before(le: NotAfter, a: int, b: int) -> bool {
    le(a, b) && (le(b, a) ==> a < b)
}

/// Every number of `lo..hi` stands in `p` exactly once.
pub open spec fn arranges(p: Seq<usize>, lo: int, hi: int) -> bool {
    &&& p.len() == hi - lo
    &&& forall|i: int| 0 <= i < p.len() ==> lo <= #[trigger] p[i] < hi
    &&& forall|i: int, j: int| 0 <= i < j < p.len() ==> #[trigger] p[i] != #[trigger] p[j]
}

/// Each element stands before all that follow it.
pub open spec fn in_order(p: Seq<usize>, le: NotAfter) -> bool {
    forall|i: int, j: int|
        0 <= i < j < p.len() ==> before(le, #[trigger] p[i] as int, #[trigger] p[j] as int)
}

/// `p` is the stable arrangement of `0..n`.
pub open spec fn is_stable_order(p: Seq<usize>, n: int, le: NotAfter) -> bool {
    arranges(p, 0, n) && in_order(p, le)
}

/// The stable arrangement of `0..n`.
pub open spec fn stable_order_of(n: int, le: NotAfter) -> Seq<usize> {
    choose|p: Seq<usize>| is_stable_order(p, n, le)
}

/// What is arranged holds every number.
pub proof fn lemma_arranges_all(p: Seq<usize>, lo: int, hi: int, x: int)
    requires
        arranges(p, lo, hi),
        lo <= x < hi,
    ensures
        exists|i: int| 0 <= i < p.len() && p[i] == x,
    decreases hi - lo,
{
    // Without the largest number, the rest is arranged one shorter.
    let top = hi - 1;
    if !(exists|i: int| 0 <= i < p.len() && p[i] == top) {
        // p maps its positions into lo..top injectively: too many of them.
        assert forall|i: int| 0 <= i < p.len() implies lo <= #[trigger] p[i] < top by {
            assert(p[i] != top);
        }
        lemma_distinct_fit(p, lo, top);
    } else {
        let k = choose|i: int| 0 <= i < p.len() && p[i] == top;
        if x != top {
            let q = p.remove(k);
            assert forall|i: int| 0 <= i < q.len() implies lo <= #[trigger] q[i] < top by {
                let o = if i < k {
                    i
                } else {
                    i + 1
                };
                assert(q[i] == p[o]);
                assert(p[o] != p[k]);
            }
            assert forall|i: int, j: int| 0 <= i < j < q.len() implies #[trigger] q[i]
                != #[trigger] q[j] by {
                let oi = if i < k {
                    i
                } else {
                    i + 1
                };
                let oj = if j < k {
                    j
                } else {
                    j + 1
                };
                assert(q[i] == p[oi] && q[j] == p[oj]);
            }
            lemma_arranges_all(q, lo, top, x);
            let i = choose|i: int| 0 <= i < q.len() && q[i] == x;
            let o = if i < k {
                i
            } else {
                i + 1
            };
            assert(p[o] == x);
        }
    }
}

/// Distinct numbers of a range are no more than the range holds.
proof fn lemma_distinct_fit(p: Seq<usize>, lo: int, hi: int)
    requires
        lo <= hi,
        forall|i: int| 0 <= i < p.len() ==> lo <= #[trigger] p[i] < hi,
        forall|i: int, j: int| 0 <= i < j < p.len() ==> #[trigger] p[i] != #[trigger] p[j],
    ensures
        p.len() <= hi - lo,
    decreases hi - lo,
{
    if hi == lo {
        if p.len() > 0 {
            assert(lo <= p[0] < hi);
        }
    } else {
        let top = hi - 1;
        if exists|i: int| 0 <= i < p.len() && p[i] == top {
            let k = choose|i: int| 0 <= i < p.len() && p[i] == top;
            let q = p.remove(k);
            assert forall|i: int| 0 <= i < q.len() implies lo <= #[trigger] q[i] < top by {
                let o = if i < k {
                    i
                } else {
                    i + 1
                };
                assert(q[i] == p[o]);
                assert(p[o] != p[k]);
            }
            assert forall|i: int, j: int| 0 <= i < j < q.len() implies #[trigger] q[i]
                != #[trigger] q[j] by {
                let oi = if i < k {
                    i
                } else {
                    i + 1
                };
                let oj = if j < k {
                    j
                } else {
                    j + 1
                };
                assert(q[i] == p[oi] && q[j] == p[oj]);
            }
            lemma_distinct_fit(q, lo, top);
        } else {
            assert forall|i: int| 0 <= i < p.len() implies lo <= #[trigger] p[i] < top by {
                assert(p[i] != top);
            }
            lemma_distinct_fit(p, lo, top);
        }
    }
}

/// There is only one stable arrangement.
pub proof fn lemma_stable_order_unique(p: Seq<usize>, q: Seq<usize>, n: int, le: NotAfter)
    requires
        is_stable_order(p, n, le),
        is_stable_order(q, n, le),
    ensures
        p == q,
{
    assert forall|k: int| 0 <= k < n implies p[k] == q[k] by {
        lemma_same_prefix(p, q, n, le, k);
    }
    assert(p =~= q);
}

proof fn lemma_same_prefix(p: Seq<usize>, q: Seq<usize>, n: int, le: NotAfter, k: int)
    requires
        is_stable_order(p, n, le),
        is_stable_order(q, n, le),
        0 <= k < n,
    ensures
        p[k] == q[k],
    decreases k,
{
    assert forall|j: int| 0 <= j < k implies p[j] == q[j] by {
        lemma_same_prefix(p, q, n, le, j);
    }
    if p[k] != q[k] {
        lemma_arranges_all(q, 0, n, p[k] as int);
        lemma_arranges_all(p, 0, n, q[k] as int);
        let i = choose|i: int| 0 <= i < q.len() && q[i] == p[k];
        let j = choose|j: int| 0 <= j < p.len() && p[j] == q[k];
        assert(i > k) by {
            if i < k {
                assert(p[i] == q[i]);
            }
        }
        assert(j > k) by {
            if j < k {
                assert(p[j] == q[j]);
            }
        }
        assert(before(le, p[k] as int, p[j] as int));
        assert(before(le, q[k] as int, q[i] as int));
    }
}

/// A stable arrangement that was found is the one that is meant.
pub proof fn lemma_is_the_order(p: Seq<usize>, n: int, le: NotAfter)
    requires
        is_stable_order(p, n, le),
    ensures
        p == stable_order_of(n, le),
{
    lemma_stable_order_unique(p, stable_order_of(n, le), n, le);
}

/// The numbers `lo..hi`, stably arranged by `not_after` (a merge sort).
pub(crate) fn sort_range<F: Fn(usize, usize) -> bool>(
    lo: usize,
    hi: usize,
    not_after: &F,
    Ghost(n): Ghost<int>,
    Ghost(le): Ghost<NotAfter>,
) -> (p: Vec<usize>)
    requires
        lo <= hi <= n,
        is_preorder(n, le),
        forall|a: usize, b: usize| a < n && b < n ==> call_requires(*not_after, (a, b)),
        forall|a: usize, b: usize, r: bool|
            a < n && b < n && call_ensures(*not_after, (a, b), r) ==> r == le(a as int, b as int),
    ensures
        arranges(p@, lo as int, hi as int),
        in_order(p@, le),
    decreases hi - lo,
{
    if hi - lo == 0 {
        return Vec::new();
    }
    if hi - lo == 1 {
        let mut one: Vec<usize> = Vec::new();
        one.push(lo);
        return one;
    }
    let mid: usize = lo + (hi - lo) / 2;
    let left = sort_range(lo, mid, not_after, Ghost(n), Ghost(le));
    let right = sort_range(mid, hi, not_after, Ghost(n), Ghost(le));
    let mut out: Vec<usize> = Vec::new();
    let mut i: usize = 0;
    let mut j: usize = 0;
    while i < left.len() || j < right.len()
        invariant
            lo < mid < hi <= n,
            is_preorder(n, le),
            forall|a: usize, b: usize| a < n && b < n ==> call_requires(*not_after, (a, b)),
            forall|a: usize, b: usize, r: bool|
                a < n && b < n && call_ensures(*not_after, (a, b), r) ==> r == le(
                    a as int,
                    b as int,
                ),
            arranges(left@, lo as int, mid as int),
            arranges(right@, mid as int, hi as int),
            in_order(left@, le),
            in_order(right@, le),
            i <= left@.len(),
            j <= right@.len(),
            out@.len() == i + j,
            forall|k: int| 0 <= k < out@.len() ==> lo <= #[trigger] out@[k] < hi,
            forall|a: int, b: int|
                0 <= a < b < out@.len() ==> #[trigger] out@[a] != #[trigger] out@[b],
            in_order(out@, le),
            // What is out stands before what is still in.
            forall|k: int, l: int|
                0 <= k < out@.len() && i <= l < left@.len() ==> before(
                    le,
                    #[trigger] out@[k] as int,
                    #[trigger] left@[l] as int,
                ),
            forall|k: int, l: int|
                0 <= k < out@.len() && j <= l < right@.len() ==> before(
                    le,
                    #[trigger] out@[k] as int,
                    #[trigger] right@[l] as int,
                ),
        decreases left@.len() - i + right@.len() - j,
    {
        let take_left: bool = if i < left.len() {
            if j < right.len() {
                not_after(left[i], right[j])
            } else {
                true
            }
        } else {
            false
        };
        let ghost had = out@;
        if take_left {
            let x: usize = left[i];
            proof {
                assert forall|l: int| j <= l < right@.len() implies before(
                    le,
                    x as int,
                    #[trigger] right@[l] as int,
                ) by {
                    if l > j {
                        assert(before(le, right@[j as int] as int, right@[l] as int));
                    }
                }
                assert forall|l: int| i < l < left@.len() implies before(
                    le,
                    x as int,
                    #[trigger] left@[l] as int,
                ) by {
                    assert(before(le, left@[i as int] as int, left@[l] as int));
                }
                assert forall|k: int| 0 <= k < had.len() implies #[trigger] had[k] != x by {
                    assert(before(le, had[k] as int, left@[i as int] as int));
                }
            }
            out.push(x);
            i = i + 1;
        } else {
            let x: usize = right[j];
            proof {
                assert forall|l: int| i <= l < left@.len() implies before(
                    le,
                    x as int,
                    #[trigger] left@[l] as int,
                ) by {
                    assert(le(x as int, left@[i as int] as int));
                    assert(!le(left@[i as int] as int, x as int));
                    if l > i {
                        assert(before(le, left@[i as int] as int, left@[l] as int));
                        assert(le(x as int, left@[l] as int));
                        if le(left@[l] as int, x as int) {
                            assert(le(left@[i as int] as int, x as int));
                        }
                    }
                }
                assert forall|l: int| j < l < right@.len() implies before(
                    le,
                    x as int,
                    #[trigger] right@[l] as int,
                ) by {
                    assert(before(le, right@[j as int] as int, right@[l] as int));
                }
                assert forall|k: int| 0 <= k < had.len() implies #[trigger] had[k] != x by {
                    assert(before(le, had[k] as int, right@[j as int] as int));
                }
            }
            out.push(x);
            j = j + 1;
        }
    }
    out
}

/// The stable arrangement of `0..n` by `not_after`.
pub(crate) fn stable_order<F: Fn(usize, usize) -> bool>(
    n: usize,
    not_after: &F,
    Ghost(le): Ghost<NotAfter>,
) -> (p: Vec<usize>)
    requires
        is_preorder(n as int, le),
        forall|a: usize, b: usize| a < n && b < n ==> call_requires(*not_after, (a, b)),
        forall|a: usize, b: usize, r: bool|
            a < n && b < n && call_ensures(*not_after, (a, b), r) ==> r == le(a as int, b as int),
    ensures
        is_stable_order(p@, n as int, le),
        p@ == stable_order_of(n as int, le),
{
    let p = sort_range(0, n, not_after, Ghost(n as int), Ghost(le));
    proof {
        lemma_is_the_order(p@, n as int, le);
    }
    p
}

/// The first element of `p`, from position `i` on, that compares above `x`.
spec fn first_above(p: Seq<usize>, le: NotAfter, x: int, i: int) -> int
    decreases p.len() - i,
{
    if i >= p.len() || !le(p[i] as int, x) {
        i
    } else {
        first_above(p, le, x, i + 1)
    }
}

proof fn lemma_first_above(p: Seq<usize>, le: NotAfter, x: int, i: int)
    requires
        0 <= i <= p.len(),
        forall|j: int| 0 <= j < i ==> le(#[trigger] p[j] as int, x),
    ensures
        ({
            let k = first_above(p, le, x, i);
            &&& i <= k <= p.len()
            &&& forall|j: int| 0 <= j < k ==> le(#[trigger] p[j] as int, x)
            &&& k < p.len() ==> !le(p[k] as int, x)
        }),
    decreases p.len() - i,
{
    if i < p.len() && le(p[i] as int, x) {
        lemma_first_above(p, le, x, i + 1);
    }
}

/// Numbers that a total preorder compares have a stable arrangement.
pub proof fn lemma_has_stable_order(n: int, le: NotAfter)
    requires
        0 <= n <= usize::MAX + 1,
        is_preorder(n, le),
    ensures
        is_stable_order(stable_order_of(n, le), n, le),
    decreases n,
{
    if n == 0 {
        assert(is_stable_order(Seq::empty(), 0, le));
    } else {
        let top = n - 1;
        lemma_has_stable_order(top, le);
        let q = stable_order_of(top, le);
        lemma_first_above(q, le, top, 0);
        let k = first_above(q, le, top, 0);
        let p = q.insert(k, top as usize);
        assert forall|j: int| k <= j < q.len() implies !le(#[trigger] q[j] as int, top) by {
            if j > k {
                assert(before(le, q[k] as int, q[j] as int));
                if le(q[j] as int, top) {
                    assert(le(q[k] as int, top));
                }
            }
        }
        assert(arranges(p, 0, n)) by {
            assert forall|i: int| 0 <= i < p.len() implies 0 <= #[trigger] p[i] < n by {
                if i < k {
                    assert(p[i] == q[i]);
                } else if i > k {
                    assert(p[i] == q[i - 1]);
                }
            }
            assert forall|i: int, j: int| 0 <= i < j < p.len() implies #[trigger] p[i]
                != #[trigger] p[j] by {
                let x = if i < k {
                    q[i]
                } else if i > k {
                    q[i - 1]
                } else {
                    top as usize
                };
                let y = if j < k {
                    q[j]
                } else if j > k {
                    q[j - 1]
                } else {
                    top as usize
                };
                assert(p[i] == x && p[j] == y);
            }
        }
        assert forall|i: int, j: int| 0 <= i < j < p.len() implies before(
            le,
            #[trigger] p[i] as int,
            #[trigger] p[j] as int,
        ) by {
            if j < k {
                assert(p[i] == q[i] && p[j] == q[j]);
            } else if j == k {
                assert(p[i] == q[i] && p[j] == top);
            } else if i < k {
                assert(p[i] == q[i] && p[j] == q[j - 1]);
            } else if i == k {
                assert(p[i] == top && p[j] == q[j - 1]);
                assert(!le(q[j - 1] as int, top));
                assert(le(top, q[j - 1] as int) || le(q[j - 1] as int, top));
            } else {
                assert(p[i] == q[i - 1] && p[j] == q[j - 1]);
            }
        }
        assert(is_stable_order(p, n, le));
    }
}

// ---------------------------------------------------------------- counting
/// How many of `0..n` a test holds of.
pub open spec fn tally(n: int, test: spec_fn(int) -> bool) -> nat
    decreases n,
{
    if n <= 0 {
        0
    } else {
        tally(n - 1, test) + if test(n - 1) {
            1nat
        } else {
            0nat
        }
    }
}

/// A test that holds wherever another does holds at least as often.
pub proof fn lemma_tally_grows(n: int, few: spec_fn(int) -> bool, many: spec_fn(int) -> bool)
    requires
        forall|i: int| 0 <= i < n && few(i) ==> #[trigger] many(i),
    ensures
        tally(n, few) <= tally(n, many),
    decreases n,
{
    if n > 0 {
        lemma_tally_grows(n - 1, few, many);
        assert(few(n - 1) ==> many(n - 1));
    }
}

/// Tests that agree on `0..n` hold equally often.
pub proof fn lemma_tally_same(n: int, a: spec_fn(int) -> bool, b: spec_fn(int) -> bool)
    requires
        forall|i: int| 0 <= i < n ==> #[trigger] a(i) == b(i),
    ensures
        tally(n, a) == tally(n, b),
    decreases n,
{
    if n > 0 {
        lemma_tally_same(n - 1, a, b);
        assert(a(n - 1) == b(n - 1));
    }
}

/// What never holds is counted never, what always holds every time.
pub proof fn lemma_tally_of_all(n: int, test: spec_fn(int) -> bool)
    requires
        0 <= n,
    ensures
        tally(n, test) <= n,
        (forall|i: int| 0 <= i < n ==> #[trigger] test(i)) ==> tally(n, test) == n,
        (forall|i: int| 0 <= i < n ==> !#[trigger] test(i)) ==> tally(n, test) == 0,
        tally(n, test) > 0 ==> exists|i: int| 0 <= i < n && #[trigger] test(i),
    decreases n,
{
    if n > 0 {
        lemma_tally_of_all(n - 1, test);
        if tally(n, test) > 0 && !test(n - 1) {
            let i = choose|i: int| 0 <= i < n - 1 && #[trigger] test(i);
            assert(test(i));
        }
    }
}

/// A test that fails from `lo` on, or before `hi`, holds at most as often as
/// what is left of `0..n`.
pub proof fn lemma_tally_outside(n: int, test: spec_fn(int) -> bool, lo: int, hi: int)
    requires
        0 <= lo <= n,
        0 <= hi <= n,
    ensures
        (forall|i: int| lo <= i < n ==> !#[trigger] test(i)) ==> tally(n, test) <= lo,
        (forall|i: int| 0 <= i < hi ==> !#[trigger] test(i)) ==> tally(n, test) <= n - hi,
    decreases n,
{
    if n > 0 {
        lemma_tally_of_all(n, test);
        if lo < n {
            lemma_tally_outside(n - 1, test, lo, 0);
        }
        if hi < n {
            lemma_tally_outside(n - 1, test, 0, hi);
        }
    }
}

/// Three tests of which always exactly one holds share `0..n` among them.
pub proof fn lemma_tally_of_three(
    n: int,
    a: spec_fn(int) -> bool,
    b: spec_fn(int) -> bool,
    c: spec_fn(int) -> bool,
    all: spec_fn(int) -> bool,
)
    requires
        forall|i: int|
            0 <= i < n ==> {
                &&& #[trigger] all(i) <==> a(i) || b(i) || c(i)
                &&& !(a(i) && b(i)) && !(a(i) && c(i)) && !(b(i) && c(i))
            },
    ensures
        tally(n, a) + tally(n, b) + tally(n, c) == tally(n, all),
    decreases n,
{
    if n > 0 {
        lemma_tally_of_three(n - 1, a, b, c, all);
        assert(all(n - 1) <==> a(n - 1) || b(n - 1) || c(n - 1));
    }
}

/// Of a prefix that ends before a place where the test holds, the count is
/// lower.
pub proof fn lemma_tally_is_short(test: spec_fn(int) -> bool, k: int, n: int)
    requires
        0 <= k < n,
        test(k),
    ensures
        tally(k, test) < tally(n, test),
    decreases n,
{
    if k < n - 1 {
        lemma_tally_is_short(test, k, n - 1);
    }
}

/// Taking one position out of an arrangement takes its own test out of the
/// count.
proof fn lemma_tally_without(p: Seq<usize>, k: int, test: spec_fn(int) -> bool, upto: int)
    requires
        0 <= k < p.len(),
        0 <= upto <= p.len(),
    ensures
        upto <= k ==> tally(upto, |j: int| test(p.remove(k)[j] as int)) == tally(
            upto,
            |j: int| test(p[j] as int),
        ),
        upto > k ==> tally(upto - 1, |j: int| test(p.remove(k)[j] as int)) + (if test(p[k] as int) {
            1int
        } else {
            0
        }) == tally(upto, |j: int| test(p[j] as int)),
    decreases upto,
{
    if upto > 0 {
        lemma_tally_without(p, k, test, upto - 1);
        let q = p.remove(k);
        if upto - 1 < k {
            assert(q[upto - 1] == p[upto - 1]);
        } else if upto - 1 > k {
            assert(q[upto - 2] == p[upto - 1]);
        }
    }
}

/// A test holds as often in any arrangement of `0..n`.
pub proof fn lemma_tally_arranged(p: Seq<usize>, n: int, test: spec_fn(int) -> bool)
    requires
        0 <= n,
        arranges(p, 0, n),
    ensures
        tally(n, |j: int| test(p[j] as int)) == tally(n, test),
    decreases n,
{
    if n > 0 {
        lemma_arranges_all(p, 0, n, n - 1);
        let k = choose|i: int| 0 <= i < p.len() && p[i] == n - 1;
        let q = p.remove(k);
        assert forall|i: int| 0 <= i < q.len() implies 0 <= #[trigger] q[i] < n - 1 by {
            let o = if i < k {
                i
            } else {
                i + 1
            };
            assert(q[i] == p[o]);
            assert(p[o] != p[k]);
        }
        assert forall|i: int, j: int| 0 <= i < j < q.len() implies #[trigger] q[i]
            != #[trigger] q[j] by {
            let oi = if i < k {
                i
            } else {
                i + 1
            };
            let oj = if j < k {
                j
            } else {
                j + 1
            };
            assert(q[i] == p[oi] && q[j] == p[oj]);
        }
        lemma_tally_arranged(q, n - 1, test);
        lemma_tally_without(p, k, test, n);
    }
}

} // verus!
