//! Counting the integers of a range that satisfy a predicate.
//!
//! `count_range` is the recursive count; `filter_range` is the set of the
//! integers counted, whose cardinality the count is. The lemmas are the
//! counting arguments that the totient function is proved with.
use crate::divisibility::divides;
use vstd::arithmetic::div_mod::lemma_fundamental_div_mod_converse;
use vstd::prelude::*;

verus! {

/// How many `v` with `lo <= v < hi` satisfy `f`.
pub open spec fn count_range(f: spec_fn(int) -> bool, lo: int, hi: int) -> nat
    decreases hi - lo,
{
    if hi <= lo {
        0
    } else {
        count_range(f, lo, hi - 1) + if f(hi - 1) {
            1nat
        } else {
            0nat
        }
    }
}

/// The set of the `v` with `lo <= v < hi` that satisfy `f`.
pub open spec fn filter_range(f: spec_fn(int) -> bool, lo: int, hi: int) -> Set<int> {
    Set::new(|v: int| lo <= v < hi && f(v))
}

/// The set of a range is finite, and the count is its cardinality.
pub proof fn lemma_filter_range_len(f: spec_fn(int) -> bool, lo: int, hi: int)
    ensures
        filter_range(f, lo, hi).finite(),
        filter_range(f, lo, hi).len() == count_range(f, lo, hi),
        count_range(f, lo, hi) <= hi - lo || hi <= lo,
    decreases hi - lo,
{
    if hi <= lo {
        assert(filter_range(f, lo, hi) =~= Set::<int>::empty());
    } else {
        lemma_filter_range_len(f, lo, hi - 1);
        let prev = filter_range(f, lo, hi - 1);
        if f(hi - 1) {
            assert(filter_range(f, lo, hi) =~= prev.insert(hi - 1));
            assert(!prev.contains(hi - 1));
        } else {
            assert(filter_range(f, lo, hi) =~= prev);
        }
    }
}

/// Predicates that agree on a range have the same count there.
pub proof fn lemma_count_agree(
    f: spec_fn(int) -> bool,
    g: spec_fn(int) -> bool,
    lo: int,
    hi: int,
)
    requires
        forall|v: int| lo <= v < hi ==> #[trigger] f(v) == g(v),
    ensures
        count_range(f, lo, hi) == count_range(g, lo, hi),
    decreases hi - lo,
{
    if hi > lo {
        lemma_count_agree(f, g, lo, hi - 1);
        assert(f(hi - 1) == g(hi - 1));
    }
}

/// A predicate that holds nowhere in a range counts zero there.
pub proof fn lemma_count_none(f: spec_fn(int) -> bool, lo: int, hi: int)
    requires
        forall|v: int| lo <= v < hi ==> !#[trigger] f(v),
    ensures
        count_range(f, lo, hi) == 0,
    decreases hi - lo,
{
    if hi > lo {
        lemma_count_none(f, lo, hi - 1);
        assert(!f(hi - 1));
    }
}

/// The count over a range is the sum of the counts over its two parts.
pub proof fn lemma_count_split(f: spec_fn(int) -> bool, lo: int, mid: int, hi: int)
    requires
        lo <= mid <= hi,
    ensures
        count_range(f, lo, hi) == count_range(f, lo, mid) + count_range(f, mid, hi),
    decreases hi - mid,
{
    if hi > mid {
        lemma_count_split(f, lo, mid, hi - 1);
    }
}

/// Moving a range and the predicate together leaves the count unchanged.
pub proof fn lemma_count_shift(
    f: spec_fn(int) -> bool,
    g: spec_fn(int) -> bool,
    lo: int,
    hi: int,
    d: int,
)
    requires
        forall|v: int| lo <= v < hi ==> #[trigger] f(v) == g(v + d),
    ensures
        count_range(g, lo + d, hi + d) == count_range(f, lo, hi),
    decreases hi - lo,
{
    if hi > lo {
        lemma_count_shift(f, g, lo, hi - 1, d);
        assert(f(hi - 1) == g((hi - 1) + d));
    }
}

/// A predicate of period `m` counts `j` times as much over `j` periods as
/// over one.
pub proof fn lemma_count_periodic(f: spec_fn(int) -> bool, m: int, j: int)
    requires
        m > 0,
        j >= 0,
        forall|v: int| #[trigger] f(v) == f(v + m),
    ensures
        count_range(f, 0, j * m) == j * count_range(f, 0, m),
    decreases j,
{
    if j == 0 {
        assert(j * m == 0 && j * count_range(f, 0, m) == 0) by (nonlinear_arith)
            requires
                j == 0,
        ;
    } else {
        lemma_count_periodic(f, m, j - 1);
        let base = (j - 1) * m;
        assert(j * m == base + m && base >= 0 && j * count_range(f, 0, m) == (j - 1) * count_range(
            f,
            0,
            m,
        ) + count_range(f, 0, m)) by (nonlinear_arith)
            requires
                base == (j - 1) * m,
                j >= 1,
                m > 0,
        ;
        lemma_count_split(f, 0, base, base + m);
        lemma_count_offset(f, m, j - 1);
    }
}

/// A predicate of period `m` counts the same over any period that starts at a
/// multiple of `m`.
proof fn lemma_count_offset(f: spec_fn(int) -> bool, m: int, k: int)
    requires
        m > 0,
        k >= 0,
        forall|v: int| #[trigger] f(v) == f(v + m),
    ensures
        count_range(f, k * m, k * m + m) == count_range(f, 0, m),
    decreases k,
{
    if k == 0 {
        assert(k * m == 0) by (nonlinear_arith)
            requires
                k == 0,
        ;
    } else {
        lemma_count_offset(f, m, k - 1);
        let base = (k - 1) * m;
        assert(k * m == base + m) by (nonlinear_arith)
            requires
                base == (k - 1) * m,
        ;
        assert forall|v: int| base <= v < base + m implies #[trigger] f(v) == f(v + m) by {}
        lemma_count_shift(f, f, base, base + m, m);
    }
}

/// A count splits into the counts of two predicates that share it out.
pub proof fn lemma_count_partition(
    f: spec_fn(int) -> bool,
    g: spec_fn(int) -> bool,
    h: spec_fn(int) -> bool,
    lo: int,
    hi: int,
)
    requires
        forall|v: int|
            lo <= v < hi ==> (#[trigger] f(v) == (g(v) || h(v))) && !(g(v) && h(v)),
    ensures
        count_range(f, lo, hi) == count_range(g, lo, hi) + count_range(h, lo, hi),
    decreases hi - lo,
{
    if hi > lo {
        lemma_count_partition(f, g, h, lo, hi - 1);
        assert(f(hi - 1) == (g(hi - 1) || h(hi - 1)));
    }
}

/// Counting a predicate that holds only at multiples of `p` is counting over
/// the quotients: `f` over `[0, p * m)` counts what `g(w) == f(p * w)` counts
/// over `[0, m)`.
pub proof fn lemma_count_multiples(
    f: spec_fn(int) -> bool,
    g: spec_fn(int) -> bool,
    p: int,
    m: int,
)
    requires
        p > 0,
        m >= 0,
        forall|v: int| #[trigger] f(v) ==> divides(p, v),
        forall|w: int| #[trigger] g(w) == f(p * w),
    ensures
        count_range(f, 0, p * m) == count_range(g, 0, m),
    decreases m,
{
    if m == 0 {
        assert(p * m == 0) by (nonlinear_arith)
            requires
                m == 0,
        ;
    } else {
        lemma_count_multiples(f, g, p, m - 1);
        let base = p * (m - 1);
        assert(p * m == base + p && base >= 0) by (nonlinear_arith)
            requires
                base == p * (m - 1),
                p > 0,
                m >= 1,
        ;
        lemma_count_split(f, 0, base, base + p);
        lemma_count_split(f, base, base + 1, base + p);
        assert forall|v: int| base + 1 <= v < base + p implies !#[trigger] f(v) by {
            assert(v == (m - 1) * p + (v - base)) by (nonlinear_arith)
                requires
                    base == p * (m - 1),
            ;
            lemma_fundamental_div_mod_converse(v, p, m - 1, v - base);
        }
        lemma_count_none(f, base + 1, base + p);
        assert(count_range(f, base, base) == 0);
        assert(g(m - 1) == f(p * (m - 1)));
    }
}

} // verus!
