//! The first moments of a list of numbers, and what they tell: the count,
//! the sum and the sum of squares satisfy `count * squares >= sum * sum`,
//! with equality only for a list of one number repeated.

use crate::liberties::pw;
use vstd::prelude::*;

verus! {

/// The `k`-th moment of the first `n` numbers of `s`.
pub open spec fn moment(s: Seq<int>, n: int, k: int) -> int
    decreases n,
{
    if n <= 0 {
        0
    } else {
        moment(s, n - 1, k) + pw(s[n - 1], k)
    }
}

/// Sum of the squares of the distances of the first `n` numbers of `s` from
/// `x`.
pub open spec fn spread(s: Seq<int>, n: int, x: int) -> int
    decreases n,
{
    if n <= 0 {
        0
    } else {
        spread(s, n - 1, x) + (s[n - 1] - x) * (s[n - 1] - x)
    }
}

/// The spread in terms of the moments; it vanishes only if every number is
/// `x`.
pub proof fn lemma_spread(s: Seq<int>, n: int, x: int)
    requires
        0 <= n <= s.len(),
    ensures
        spread(s, n, x) == moment(s, n, 2) - 2 * x * moment(s, n, 1) + moment(s, n, 0) * (x * x),
        spread(s, n, x) >= 0,
        spread(s, n, x) == 0 ==> forall|i: int| 0 <= i < n ==> #[trigger] s[i] == x,
        moment(s, n, 0) == n,
    decreases n,
{
    if n > 0 {
        lemma_spread(s, n - 1, x);
        let y = s[n - 1];
        let m0 = moment(s, n - 1, 0);
        let m1 = moment(s, n - 1, 1);
        let m2 = moment(s, n - 1, 2);
        assert((y - x) * (y - x) >= 0) by (nonlinear_arith);
        assert((y - x) * (y - x) == 0 ==> y == x) by (nonlinear_arith);
        assert(m2 - 2 * x * m1 + m0 * (x * x) + (y - x) * (y - x) == (m2 + y * y) - 2 * x * (m1 + y)
            + (m0 + 1) * (x * x)) by (nonlinear_arith);
        assert(pw(y, 0) == 1 && pw(y, 1) == y && pw(y, 2) == y * y);
    } else {
        assert(0 * (x * x) == 0) by (nonlinear_arith);
        assert(2 * x * 0 == 0) by (nonlinear_arith);
    }
}

/// The moments of a list of one number repeated.
pub proof fn lemma_constant(s: Seq<int>, n: int, x: int)
    requires
        0 <= n <= s.len(),
        forall|i: int| 0 <= i < n ==> #[trigger] s[i] == x,
    ensures
        moment(s, n, 0) == n,
        moment(s, n, 1) == n * x,
        moment(s, n, 2) == n * (x * x),
    decreases n,
{
    if n > 0 {
        lemma_constant(s, n - 1, x);
        assert((n - 1) * x + x == n * x) by (nonlinear_arith);
        assert((n - 1) * (x * x) + x * x == n * (x * x)) by (nonlinear_arith);
    } else {
        assert(0 * x == 0) by (nonlinear_arith);
        assert(0 * (x * x) == 0) by (nonlinear_arith);
    }
}

/// The count times the sum of squares is at least the square of the sum,
/// and equal only if all the numbers are the same.
pub proof fn lemma_moments(s: Seq<int>, n: int)
    requires
        0 <= n <= s.len(),
    ensures
        moment(s, n, 0) * moment(s, n, 2) >= moment(s, n, 1) * moment(s, n, 1),
        moment(s, n, 0) * moment(s, n, 2) == moment(s, n, 1) * moment(s, n, 1) && n >= 1
            ==> forall|i: int| 0 <= i < n ==> #[trigger] s[i] == s[n - 1],
    decreases n,
{
    if n > 0 {
        lemma_moments(s, n - 1);
        let x = s[n - 1];
        lemma_spread(s, n - 1, x);
        let m0 = moment(s, n - 1, 0);
        let m1 = moment(s, n - 1, 1);
        let m2 = moment(s, n - 1, 2);
        let d = spread(s, n - 1, x);
        assert(pw(x, 0) == 1 && pw(x, 1) == x && pw(x, 2) == x * x);
        assert((m0 + 1) * (m2 + x * x) - (m1 + x) * (m1 + x) == (m0 * m2 - m1 * m1) + (m2 - 2 * x
            * m1 + m0 * (x * x))) by (nonlinear_arith);
        assert(moment(s, n, 0) * moment(s, n, 2) - moment(s, n, 1) * moment(s, n, 1) == (m0 * m2
            - m1 * m1) + d);
    } else {
        assert(0 * 0 == 0) by (nonlinear_arith);
    }
}

/// Moments of numbers below 443 that satisfy the equation with a count of
/// at least one are those of one number: the sum is a multiple of the
/// count, and the quotient is that number.
pub proof fn lemma_single_liberty(s: Seq<int>, cnt: int, sum: int, sum2: int)
    requires
        cnt >= 1,
        cnt == moment(s, s.len() as int, 0),
        sum == moment(s, s.len() as int, 1),
        sum2 == moment(s, s.len() as int, 2),
        cnt * sum2 == sum * sum,
        forall|i: int| 0 <= i < s.len() ==> 0 <= #[trigger] s[i] < 443,
    ensures
        s.len() == cnt,
        sum % cnt == 0,
        0 <= sum / cnt < 443,
        forall|i: int| 0 <= i < s.len() ==> #[trigger] s[i] == sum / cnt,
{
    let n = s.len() as int;
    lemma_spread(s, n, 0);
    lemma_moments(s, n);
    let x = s[n - 1];
    assert forall|i: int| 0 <= i < n implies s[i] == x by {}
    lemma_constant(s, n, x);
    assert(sum == n * x);
    assert(0 <= x < 443);
    vstd::arithmetic::div_mod::lemma_fundamental_div_mod_converse(sum, n, x, 0);
}

/// The moments after one more number.
pub proof fn lemma_moment_push(s: Seq<int>, x: int, k: int)
    ensures
        moment(s.push(x), s.len() as int + 1, k) == moment(s, s.len() as int, k) + pw(x, k),
{
    lemma_moment_prefix(s, s.push(x), s.len() as int, k);
}

/// The moments of a list go by its numbers.
pub proof fn lemma_moment_prefix(s: Seq<int>, t: Seq<int>, n: int, k: int)
    requires
        0 <= n <= s.len(),
        n <= t.len(),
        forall|i: int| 0 <= i < n ==> #[trigger] s[i] == t[i],
    ensures
        moment(s, n, k) == moment(t, n, k),
    decreases n,
{
    if n > 0 {
        lemma_moment_prefix(s, t, n - 1, k);
    }
}

/// The moments of two lists, one after the other.
pub proof fn lemma_moment_add(s: Seq<int>, t: Seq<int>, n: int, k: int)
    requires
        0 <= n <= t.len(),
    ensures
        moment(s + t, s.len() as int + n, k) == moment(s, s.len() as int, k) + moment(t, n, k),
    decreases n,
{
    if n > 0 {
        lemma_moment_add(s, t, n - 1, k);
        assert((s + t)[s.len() + n - 1] == t[n - 1]);
    } else {
        lemma_moment_prefix(s, s + t, s.len() as int, k);
    }
}

} // verus!
