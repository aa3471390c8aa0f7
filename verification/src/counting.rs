use vstd::prelude::*;

verus! {

/// How many points of `0 <= p < n` satisfy `f`.
pub open spec fn count_when(f: spec_fn(int) -> bool, n: int) -> int
    decreases n,
{
    if n <= 0 {
        0
    } else {
        count_when(f, n - 1) + if f(n - 1) {
            1int
        } else {
            0int
        }
    }
}

/// Sum of `f` over the points `0 <= p < n`.
pub open spec fn sum_over(f: spec_fn(int) -> int, n: int) -> int
    decreases n,
{
    if n <= 0 {
        0
    } else {
        sum_over(f, n - 1) + f(n - 1)
    }
}

pub proof fn lemma_count_nonneg(f: spec_fn(int) -> bool, n: int)
    ensures
        0 <= count_when(f, n),
    decreases n,
{
    if n > 0 {
        lemma_count_nonneg(f, n - 1);
    }
}

/// Two predicates that agree on `0..n` are counted alike.
pub proof fn lemma_count_same(f: spec_fn(int) -> bool, g: spec_fn(int) -> bool, n: int)
    requires
        forall|p: int| 0 <= p < n ==> #[trigger] f(p) == g(p),
    ensures
        count_when(f, n) == count_when(g, n),
    decreases n,
{
    if n > 0 {
        lemma_count_same(f, g, n - 1);
    }
}

/// Changing a predicate at a single point changes the count by that point's
/// contribution alone.
pub proof fn lemma_count_update(f: spec_fn(int) -> bool, g: spec_fn(int) -> bool, n: int, p0: int)
    requires
        0 <= p0 < n,
        forall|p: int| 0 <= p < n && p != p0 ==> #[trigger] f(p) == g(p),
    ensures
        count_when(f, n) - count_when(g, n) == (if f(p0) {
            1int
        } else {
            0int
        }) - (if g(p0) {
            1int
        } else {
            0int
        }),
    decreases n,
{
    if p0 == n - 1 {
        lemma_count_same(f, g, n - 1);
    } else {
        lemma_count_update(f, g, n - 1, p0);
    }
}

/// A satisfied point forces a positive count.
pub proof fn lemma_count_at_least_one(f: spec_fn(int) -> bool, n: int, p0: int)
    requires
        0 <= p0 < n,
        f(p0),
    ensures
        count_when(f, n) >= 1,
    decreases n,
{
    lemma_count_nonneg(f, n - 1);
    if p0 < n - 1 {
        lemma_count_at_least_one(f, n - 1, p0);
    }
}

/// A positive count has a witness.
pub proof fn lemma_count_witness(f: spec_fn(int) -> bool, n: int) -> (p: int)
    requires
        count_when(f, n) >= 1,
    ensures
        0 <= p < n && f(p),
    decreases n,
{
    if n > 0 && f(n - 1) {
        n - 1
    } else {
        lemma_count_witness(f, n - 1)
    }
}

/// A predicate with no satisfied point counts to zero.
pub proof fn lemma_count_zero(f: spec_fn(int) -> bool, n: int)
    requires
        forall|p: int| 0 <= p < n ==> !(#[trigger] f(p)),
    ensures
        count_when(f, n) == 0,
    decreases n,
{
    if n > 0 {
        lemma_count_zero(f, n - 1);
    }
}

/// A predicate satisfied everywhere counts to the whole range.
pub proof fn lemma_count_full(f: spec_fn(int) -> bool, n: int)
    requires
        0 <= n,
        forall|p: int| 0 <= p < n ==> #[trigger] f(p),
    ensures
        count_when(f, n) == n,
    decreases n,
{
    if n > 0 {
        lemma_count_full(f, n - 1);
    }
}

/// An unsatisfied point keeps the count below the range's size.
pub proof fn lemma_count_missing(f: spec_fn(int) -> bool, n: int, p0: int)
    requires
        0 <= p0 < n,
        !f(p0),
    ensures
        count_when(f, n) <= n - 1,
    decreases n,
{
    lemma_count_upper(f, n - 1);
    if p0 < n - 1 {
        lemma_count_missing(f, n - 1, p0);
    }
}

/// Counting over a longer range never shrinks.
pub proof fn lemma_count_mono(f: spec_fn(int) -> bool, a: int, b: int)
    requires
        a <= b,
    ensures
        count_when(f, a) <= count_when(f, b),
    decreases b - a,
{
    if a < b {
        lemma_count_mono(f, a, b - 1);
    }
}

/// A function that is zero everywhere sums to zero.
pub proof fn lemma_sum_zero(f: spec_fn(int) -> int, n: int)
    requires
        forall|p: int| 0 <= p < n ==> #[trigger] f(p) == 0,
    ensures
        sum_over(f, n) == 0,
    decreases n,
{
    if n > 0 {
        lemma_sum_zero(f, n - 1);
    }
}

/// Two functions that agree on `0..n` sum alike.
pub proof fn lemma_sum_same(f: spec_fn(int) -> int, g: spec_fn(int) -> int, n: int)
    requires
        forall|p: int| 0 <= p < n ==> #[trigger] f(p) == g(p),
    ensures
        sum_over(f, n) == sum_over(g, n),
    decreases n,
{
    if n > 0 {
        lemma_sum_same(f, g, n - 1);
    }
}

/// Changing a function at a single point changes the sum by the difference
/// at that point alone.
pub proof fn lemma_sum_update(f: spec_fn(int) -> int, g: spec_fn(int) -> int, n: int, p0: int)
    requires
        0 <= p0 < n,
        forall|p: int| 0 <= p < n && p != p0 ==> #[trigger] f(p) == g(p),
    ensures
        sum_over(f, n) - sum_over(g, n) == f(p0) - g(p0),
    decreases n,
{
    if p0 == n - 1 {
        lemma_sum_same(f, g, n - 1);
    } else {
        lemma_sum_update(f, g, n - 1, p0);
    }
}

/// A count over `0..n` never exceeds `n`.
pub proof fn lemma_count_upper(f: spec_fn(int) -> bool, n: int)
    requires
        0 <= n,
    ensures
        count_when(f, n) <= n,
    decreases n,
{
    if n > 0 {
        lemma_count_upper(f, n - 1);
    }
}

/// Occurrences of `x` in `s`.
pub open spec fn occ_count(s: Seq<usize>, x: usize) -> int
    decreases s.len(),
{
    if s.len() == 0 {
        0
    } else {
        (if s[0] == x {
            1int
        } else {
            0int
        }) + occ_count(s.drop_first(), x)
    }
}

pub proof fn lemma_occ_nonneg(s: Seq<usize>, x: usize)
    ensures
        0 <= occ_count(s, x),
    decreases s.len(),
{
    if s.len() > 0 {
        lemma_occ_nonneg(s.drop_first(), x);
    }
}

/// An element of `s` occurs at least once.
pub proof fn lemma_occ_contains(s: Seq<usize>, x: usize)
    ensures
        s.contains(x) <==> occ_count(s, x) >= 1,
    decreases s.len(),
{
    lemma_occ_nonneg(s, x);
    if s.len() > 0 {
        lemma_occ_contains(s.drop_first(), x);
        lemma_occ_nonneg(s.drop_first(), x);
        if s.contains(x) && s[0] != x {
            let i = choose|i: int| 0 <= i < s.len() && s[i] == x;
            assert(s.drop_first()[i - 1] == x);
        }
        if s.drop_first().contains(x) {
            let i = choose|i: int| 0 <= i < s.drop_first().len() && s.drop_first()[i] == x;
            assert(s[i + 1] == x);
        }
    }
}

/// In a duplicate-free sequence an element occurs at most once.
pub proof fn lemma_occ_distinct(s: Seq<usize>, x: usize)
    requires
        forall|j1: int, j2: int| 0 <= j1 < j2 < s.len() ==> s[j1] != s[j2],
    ensures
        occ_count(s, x) == if s.contains(x) {
            1int
        } else {
            0int
        },
    decreases s.len(),
{
    lemma_occ_contains(s, x);
    if s.len() > 0 {
        let rest = s.drop_first();
        assert forall|j1: int, j2: int| 0 <= j1 < j2 < rest.len() implies rest[j1] != rest[j2] by {
            assert(rest[j1] == s[j1 + 1]);
            assert(rest[j2] == s[j2 + 1]);
        }
        lemma_occ_distinct(rest, x);
        if s[0] == x {
            if rest.contains(x) {
                let j = choose|j: int| 0 <= j < rest.len() && rest[j] == x;
                assert(s[j + 1] == x);
                assert(s[0] == s[j + 1]);
            }
        } else {
            if s.contains(x) {
                let j = choose|j: int| 0 <= j < s.len() && s[j] == x;
                assert(rest[j - 1] == x);
            }
            if rest.contains(x) {
                let j = choose|j: int| 0 <= j < rest.len() && rest[j] == x;
                assert(s[j + 1] == x);
            }
        }
    }
}

} // verus!
