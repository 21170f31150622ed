use vstd::prelude::*;

verus! {

/// Number of indices `i` in `[0, n)` at which `p` holds.
pub open spec fn count_upto(n: nat, p: spec_fn(int) -> bool) -> nat
    decreases n,
{
    if n == 0 {
        0
    } else {
        count_upto((n - 1) as nat, p) + if p(n - 1) {
            1nat
        } else {
            0nat
        }
    }
}

pub proof fn lemma_count_bounded(n: nat, p: spec_fn(int) -> bool)
    ensures
        count_upto(n, p) <= n,
    decreases n,
{
    if n > 0 {
        lemma_count_bounded((n - 1) as nat, p);
    }
}

pub proof fn lemma_count_same(n: nat, p: spec_fn(int) -> bool, q: spec_fn(int) -> bool)
    requires
        forall|i: int| 0 <= i < n ==> #[trigger] p(i) == q(i),
    ensures
        count_upto(n, p) == count_upto(n, q),
    decreases n,
{
    if n > 0 {
        lemma_count_same((n - 1) as nat, p, q);
    }
}

/// Changing `p` at the single index `k` moves the count by the change at `k`.
pub proof fn lemma_count_update(n: nat, p: spec_fn(int) -> bool, q: spec_fn(int) -> bool, k: int)
    requires
        0 <= k < n,
        forall|i: int| 0 <= i < n && i != k ==> #[trigger] p(i) == q(i),
    ensures
        count_upto(n, q) + (if p(k) {
            1int
        } else {
            0int
        }) == count_upto(n, p) + (if q(k) {
            1int
        } else {
            0int
        }),
    decreases n,
{
    if n - 1 == k {
        lemma_count_same((n - 1) as nat, p, q);
    } else {
        lemma_count_update((n - 1) as nat, p, q, k);
    }
}

/// A count that reaches `n` means that `p` holds everywhere in `[0, n)`.
pub proof fn lemma_count_full(n: nat, p: spec_fn(int) -> bool)
    requires
        count_upto(n, p) == n,
    ensures
        forall|i: int| 0 <= i < n ==> #[trigger] p(i),
    decreases n,
{
    if n > 0 {
        lemma_count_bounded((n - 1) as nat, p);
        lemma_count_full((n - 1) as nat, p);
    }
}

/// A count of `n` is reached when `p` holds everywhere in `[0, n)`.
pub proof fn lemma_count_all(n: nat, p: spec_fn(int) -> bool)
    requires
        forall|i: int| 0 <= i < n ==> #[trigger] p(i),
    ensures
        count_upto(n, p) == n,
    decreases n,
{
    if n > 0 {
        lemma_count_all((n - 1) as nat, p);
    }
}

/// A positive count has an index at which `p` holds.
pub proof fn lemma_count_witness(n: nat, p: spec_fn(int) -> bool)
    requires
        count_upto(n, p) > 0,
    ensures
        exists|i: int| 0 <= i < n && #[trigger] p(i),
    decreases n,
{
    if n > 0 {
        if !p(n - 1) {
            lemma_count_witness((n - 1) as nat, p);
        }
    }
}

/// An index at which `p` holds is counted.
pub proof fn lemma_count_positive(n: nat, p: spec_fn(int) -> bool, k: int)
    requires
        0 <= k < n,
        p(k),
    ensures
        count_upto(n, p) >= 1,
{
    let q = |i: int| p(i) && i != k;
    lemma_count_update(n, p, q, k);
}

/// `b` to the power `e`.
pub open spec fn weight(b: int, e: nat) -> int
    decreases e,
{
    if e == 0 {
        1
    } else {
        b * weight(b, (e - 1) as nat)
    }
}

/// The digits `s`, most significant first, read in base `b` as a number of `w` places
/// (missing low places count as zero).
pub open spec fn lex_value(s: Seq<int>, w: nat, b: int) -> int
    decreases s.len(),
{
    if s.len() == 0 {
        0
    } else {
        s[0] * weight(b, (w - 1) as nat) + lex_value(s.drop_first(), (w - 1) as nat, b)
    }
}

pub open spec fn digits_in(s: Seq<int>, b: int) -> bool {
    forall|i: int| 0 <= i < s.len() ==> 0 <= #[trigger] s[i] < b
}

pub proof fn lemma_weight_positive(b: int, e: nat)
    requires
        b >= 1,
    ensures
        weight(b, e) >= 1,
    decreases e,
{
    if e > 0 {
        lemma_weight_positive(b, (e - 1) as nat);
        assert(b * weight(b, (e - 1) as nat) >= 1) by (nonlinear_arith)
            requires
                b >= 1,
                weight(b, (e - 1) as nat) >= 1,
        ;
    }
}

pub proof fn lemma_lex_bounds(s: Seq<int>, w: nat, b: int)
    requires
        b >= 1,
        s.len() <= w,
        digits_in(s, b),
    ensures
        0 <= lex_value(s, w, b) < weight(b, w),
    decreases s.len(),
{
    lemma_weight_positive(b, w);
    if s.len() > 0 {
        let t = s.drop_first();
        assert(digits_in(t, b)) by {
            assert forall|i: int| 0 <= i < t.len() implies 0 <= #[trigger] t[i] < b by {
                assert(t[i] == s[i + 1]);
            }
        }
        lemma_lex_bounds(t, (w - 1) as nat, b);
        let p = weight(b, (w - 1) as nat);
        let r = lex_value(t, (w - 1) as nat, b);
        let d = s[0];
        assert(0 <= d < b);
        assert(weight(b, w) == b * p);
        assert(0 <= d * p + r < b * p) by (nonlinear_arith)
            requires
                0 <= d < b,
                0 <= r < p,
        ;
    }
}

/// Raising one digit, with all digits before it kept, raises the number.
pub proof fn lemma_lex_increase(s: Seq<int>, t: Seq<int>, w: nat, b: int, i: int)
    requires
        b >= 1,
        s.len() <= w,
        t.len() <= w,
        digits_in(s, b),
        digits_in(t, b),
        0 <= i < s.len(),
        i < t.len(),
        forall|j: int| 0 <= j < i ==> s[j] == t[j],
        s[i] < t[i],
    ensures
        lex_value(s, w, b) < lex_value(t, w, b),
    decreases i,
{
    let s1 = s.drop_first();
    let t1 = t.drop_first();
    assert(digits_in(s1, b)) by {
        assert forall|k: int| 0 <= k < s1.len() implies 0 <= #[trigger] s1[k] < b by {
            assert(s1[k] == s[k + 1]);
        }
    }
    assert(digits_in(t1, b)) by {
        assert forall|k: int| 0 <= k < t1.len() implies 0 <= #[trigger] t1[k] < b by {
            assert(t1[k] == t[k + 1]);
        }
    }
    if i == 0 {
        lemma_lex_bounds(s1, (w - 1) as nat, b);
        lemma_lex_bounds(t1, (w - 1) as nat, b);
        let p = weight(b, (w - 1) as nat);
        let rs = lex_value(s1, (w - 1) as nat, b);
        let rt = lex_value(t1, (w - 1) as nat, b);
        assert(s[0] * p + rs < t[0] * p + rt) by (nonlinear_arith)
            requires
                s[0] < t[0],
                0 <= rs < p,
                0 <= rt,
        ;
    } else {
        assert forall|j: int| 0 <= j < i - 1 implies s1[j] == t1[j] by {
            assert(s1[j] == s[j + 1]);
            assert(t1[j] == t[j + 1]);
        }
        lemma_lex_increase(s1, t1, (w - 1) as nat, b, i - 1);
    }
}

} // verus!
