//! Splitting a pool of whole units over weights, in proportion and in full:
//! each part is its exact proportional share rounded down, and the units left
//! over go, one each, to the parts with the largest remainders. Weights may
//! be negative, as long as they add up to more than zero.

use vstd::prelude::*;

verus! {

/// `a * b = q * t + r` with `0 <= r < t`, computed without forming the product.
pub fn mul_div(a: u128, b: u64, t: u128) -> (res: (u64, u128))
    requires
        0 < t,
        a <= t,
    ensures
        a * b == res.0 * t + res.1,
        res.1 < t,
        res.0 <= b,
{
    let ghost mut low: int = 0;
    let ghost mut pw: int = 1;
    let mut rest: u64 = b;
    let mut q: u128 = 0;
    let mut r: u128 = 0;
    let (mut xq, mut x): (u128, u128) = if a == t {
        (1, 0)
    } else {
        (0, a)
    };
    while rest > 0
        invariant
            0 < t,
            a <= t,
            pw >= 1,
            0 <= low < pw,
            b == low + rest * pw,
            a * low == q * t + r,
            r < t,
            q <= low,
            a * pw == xq * t + x,
            x < t,
            xq <= pw,
        decreases rest,
    {
        proof {
            assert(rest * pw >= pw) by (nonlinear_arith)
                requires
                    rest >= 1,
                    pw >= 1,
            ;
            assert(pw <= u64::MAX);
        }
        let ghost (low0, pw0, rest0) = (low, pw, rest as int);
        proof {
            assert(rest0 * pw0 == (rest0 / 2) * (2 * pw0) + (rest0 % 2) * pw0) by (nonlinear_arith);
            if rest0 % 2 == 1 {
                assert((rest0 % 2) * pw0 == pw0);
            } else {
                assert(rest0 % 2 == 0);
                assert((rest0 % 2) * pw0 == 0) by (nonlinear_arith)
                    requires
                        rest0 % 2 == 0,
                ;
            }
        }
        if rest % 2 == 1 {
            let ghost (q0, r0) = (q as int, r as int);
            if r >= t - x {
                r = r - (t - x);
                q = q + xq + 1;
            } else {
                r = r + x;
                q = q + xq;
            }
            proof {
                assert((q0 + xq + 1) * t == q0 * t + xq * t + t) by (nonlinear_arith);
                assert((q0 + xq) * t == q0 * t + xq * t) by (nonlinear_arith);
                assert(a * (low + pw) == a * low + a * pw) by (nonlinear_arith);
                low = low + pw;
                assert(q * t <= a * low) by (nonlinear_arith)
                    requires
                        a * low == q * t + r,
                        r >= 0,
                ;
                assert(q <= low) by (nonlinear_arith)
                    requires
                        q * t <= a * low,
                        a <= t,
                        t > 0,
                        low >= 0,
                ;
            }
        }
        let ghost xq0 = xq as int;
        if x >= t - x {
            x = x - (t - x);
            xq = 2 * xq + 1;
        } else {
            x = x + x;
            xq = 2 * xq;
        }
        proof {
            assert((2 * xq0 + 1) * t == 2 * (xq0 * t) + t) by (nonlinear_arith);
            assert((2 * xq0) * t == 2 * (xq0 * t)) by (nonlinear_arith);
            assert(a * (2 * pw) == 2 * (a * pw)) by (nonlinear_arith);
            pw = 2 * pw;
            assert(b == low + (rest0 / 2) * pw);
            assert(xq * t <= a * pw) by (nonlinear_arith)
                requires
                    a * pw == xq * t + x,
                    x >= 0,
            ;
            assert(xq <= pw) by (nonlinear_arith)
                requires
                    xq * t <= a * pw,
                    a <= t,
                    t > 0,
                    pw >= 0,
            ;
        }
        rest = rest / 2;
    }
    (q as u64, r)
}

/// The sum of `weights`.
pub open spec fn weight_sum(weights: Seq<i128>) -> int
    decreases weights.len(),
{
    if weights.len() == 0 {
        0
    } else {
        weight_sum(weights.drop_last()) + weights.last()
    }
}

/// The sum of the sizes of `weights`, whatever their signs.
pub open spec fn abs_sum(weights: Seq<i128>) -> int
    decreases weights.len(),
{
    if weights.len() == 0 {
        0
    } else {
        abs_sum(weights.drop_last()) + if weights.last() < 0 {
            -weights.last()
        } else {
            weights.last() as int
        }
    }
}

/// The sum of the remainders `rems`.
pub open spec fn rem_sum(rems: Seq<u128>) -> int
    decreases rems.len(),
{
    if rems.len() == 0 {
        0
    } else {
        rem_sum(rems.drop_last()) + rems.last()
    }
}

/// The sum of `parts`.
pub open spec fn part_sum(parts: Seq<i128>) -> int
    decreases parts.len(),
{
    if parts.len() == 0 {
        0
    } else {
        part_sum(parts.drop_last()) + parts.last()
    }
}

/// The exact share of `pool` for weight `w` out of `total`, rounded down.
pub open spec fn floor_share(w: int, total: int, pool: int) -> int {
    w * pool / total
}

/// What rounding down leaves of the exact share, in units of `1 / total`.
pub open spec fn share_remainder(w: int, total: int, pool: int) -> int {
    (w * pool) % total
}

/// Every exact share of `pool` over `weights`, rounded down, lies strictly
/// between the least and the greatest `i128`, so that it and the next
/// integer up fit.
pub open spec fn parts_fit(weights: Seq<i128>, pool: u64) -> bool {
    forall|i: int|
        0 <= i < weights.len() ==> i128::MIN < #[trigger] floor_share(
            weights[i] as int,
            weight_sum(weights),
            pool as int,
        ) < i128::MAX
}

/// `parts` splits `pool` over `weights` by largest remainders: every part is
/// its exact share rounded down or, where that share is not whole, rounded
/// up; the parts add up to the whole pool; and a part rounded up has a larger
/// remainder than every part rounded down, or an equal one and an earlier
/// place. Together these fix every part.
pub open spec fn is_split(weights: Seq<i128>, pool: u64, parts: Seq<i128>) -> bool {
    let t = weight_sum(weights);
    &&& parts.len() == weights.len()
    &&& forall|i: int|
        0 <= i < parts.len() ==> #[trigger] parts[i] == floor_share(weights[i] as int, t, pool as int)
            || (parts[i] == floor_share(weights[i] as int, t, pool as int) + 1 && share_remainder(
            weights[i] as int,
            t,
            pool as int,
        ) != 0)
    &&& part_sum(parts) == pool
    &&& forall|i: int, j: int|
        0 <= i < parts.len() && 0 <= j < parts.len() && #[trigger] parts[i] == floor_share(
            weights[i] as int,
            t,
            pool as int,
        ) + 1 && #[trigger] parts[j] == floor_share(weights[j] as int, t, pool as int)
            ==> share_remainder(weights[i] as int, t, pool as int) > share_remainder(
            weights[j] as int,
            t,
            pool as int,
        ) || (share_remainder(weights[i] as int, t, pool as int) == share_remainder(
            weights[j] as int,
            t,
            pool as int,
        ) && i < j)
}

/// How many entries of `marks` are set.
pub open spec fn count_marked(marks: Seq<bool>) -> int
    decreases marks.len(),
{
    if marks.len() == 0 {
        0
    } else {
        count_marked(marks.drop_last()) + if marks.last() {
            1int
        } else {
            0int
        }
    }
}

proof fn lemma_abs_sum_nonneg(w: Seq<i128>)
    ensures
        abs_sum(w) >= 0,
        -abs_sum(w) <= weight_sum(w) <= abs_sum(w),
    decreases w.len(),
{
    if w.len() > 0 {
        lemma_abs_sum_nonneg(w.drop_last());
    }
}

proof fn lemma_weight_sum_prefix(w: Seq<i128>, i: int)
    requires
        0 <= i <= w.len(),
    ensures
        -abs_sum(w) <= weight_sum(w.take(i)) <= abs_sum(w),
        abs_sum(w.take(i)) <= abs_sum(w),
        i < w.len() ==> weight_sum(w.take(i + 1)) == weight_sum(w.take(i)) + w[i],
        i < w.len() ==> -abs_sum(w) <= w[i] <= abs_sum(w),
    decreases w.len() - i,
{
    lemma_abs_sum_nonneg(w.take(i));
    if i < w.len() {
        assert(w.take(i + 1).drop_last() =~= w.take(i));
        lemma_weight_sum_prefix(w, i + 1);
    } else {
        assert(w.take(i) =~= w);
    }
}

/// A list of weights that begins with `prefix` has at least its sum of sizes.
pub proof fn lemma_abs_sum_grows(w: Seq<i128>, prefix: Seq<i128>)
    requires
        prefix.len() <= w.len(),
        forall|k: int| 0 <= k < prefix.len() ==> prefix[k] == w[k],
    ensures
        abs_sum(prefix) <= abs_sum(w),
{
    assert(w.take(prefix.len() as int) =~= prefix);
    lemma_weight_sum_prefix(w, prefix.len() as int);
}

proof fn lemma_rem_sum_nonneg(r: Seq<u128>)
    ensures
        rem_sum(r) >= 0,
    decreases r.len(),
{
    if r.len() > 0 {
        lemma_rem_sum_nonneg(r.drop_last());
    }
}

proof fn lemma_count_marked_set(marks: Seq<bool>, i: int)
    requires
        0 <= i < marks.len(),
        !marks[i],
    ensures
        count_marked(marks.update(i, true)) == count_marked(marks) + 1,
    decreases marks.len(),
{
    if i < marks.len() - 1 {
        lemma_count_marked_set(marks.drop_last(), i);
        assert(marks.update(i, true).drop_last() =~= marks.drop_last().update(i, true));
    } else {
        assert(marks.update(i, true).drop_last() =~= marks.drop_last());
    }
}

/// Remainders left only on marked entries add up to less than one unit of
/// `t` per marked entry.
proof fn lemma_remainders_on_marked(rems: Seq<u128>, marks: Seq<bool>, t: int)
    requires
        rems.len() == marks.len(),
        t > 0,
        forall|i: int| 0 <= i < rems.len() ==> rems[i] < t,
        forall|i: int| 0 <= i < rems.len() && !marks[i] ==> rems[i] == 0,
    ensures
        rem_sum(rems) <= count_marked(marks) * (t - 1),
    decreases rems.len(),
{
    if rems.len() > 0 {
        lemma_remainders_on_marked(rems.drop_last(), marks.drop_last(), t);
        let c = count_marked(marks.drop_last());
        if marks.last() {
            assert((c + 1) * (t - 1) == c * (t - 1) + (t - 1)) by (nonlinear_arith);
        } else {
            assert(rems.last() == rems[rems.len() - 1]);
        }
    }
}

proof fn lemma_count_marked_bounds(marks: Seq<bool>)
    ensures
        0 <= count_marked(marks) <= marks.len(),
    decreases marks.len(),
{
    if marks.len() > 0 {
        lemma_count_marked_bounds(marks.drop_last());
    }
}

/// The first unmarked entry with the largest remainder.
fn largest_unmarked(rems: &Vec<u128>, marks: &Vec<bool>) -> (r: Option<usize>)
    requires
        rems@.len() == marks@.len(),
    ensures
        match r {
            Some(b) => b < rems@.len() && !marks@[b as int] && forall|j: int|
                0 <= j < rems@.len() && !marks@[j] ==> rems@[j] < rems@[b as int] || (rems@[j]
                    == rems@[b as int] && b <= j),
            None => forall|j: int| 0 <= j < marks@.len() ==> marks@[j],
        },
{
    let mut best: Option<usize> = None;
    let mut i: usize = 0;
    while i < rems.len()
        invariant
            i <= rems@.len(),
            rems@.len() == marks@.len(),
            match best {
                Some(b) => b < i && !marks@[b as int] && forall|j: int|
                    0 <= j < i && !marks@[j] ==> rems@[j] < rems@[b as int] || (rems@[j]
                        == rems@[b as int] && b <= j),
                None => forall|j: int| 0 <= j < i ==> marks@[j],
            },
        decreases rems@.len() - i,
    {
        if !marks[i] {
            match best {
                Some(b) => {
                    if rems[i] > rems[b] {
                        best = Some(i);
                    }
                },
                None => {
                    best = Some(i);
                },
            }
        }
        i += 1;
    }
    best
}


/// `a * b = q * t + r` with `0 <= r < t`, for any `a`; `None` where the
/// quotient does not fit 128 bits.
pub fn mul_div_wide(a: u128, b: u64, t: u128) -> (res: Option<(u128, u128)>)
    requires
        0 < t,
    ensures
        match res {
            Some((q, r)) => a * b == q * t + r && r < t,
            None => (a * b) / (t as int) > u128::MAX,
        },
{
    let qa = a / t;
    let ra = a % t;
    let (q1, r) = mul_div(ra, b, t);
    proof {
        vstd::arithmetic::div_mod::lemma_fundamental_div_mod(a as int, t as int);
        assert(a == qa * t + ra);
        assert(a * b == (qa * b + q1) * t + r) by (nonlinear_arith)
            requires
                a == qa * t + ra,
                ra * b == q1 * t + r,
        ;
        vstd::arithmetic::div_mod::lemma_fundamental_div_mod_converse(
            a * b,
            t as int,
            qa * b + q1,
            r as int,
        );
    }
    match qa.checked_mul(b as u128) {
        Some(m) => match m.checked_add(q1 as u128) {
            Some(q) => Some((q, r)),
            None => None,
        },
        None => {
            proof {
                assert(qa * b + q1 >= qa * b);
            }
            None
        },
    }
}

/// Dividing a negated product: from `a * pool = q * t + r` with `a = -w`.
proof fn lemma_negated_division(w: int, a: int, pool: int, q: int, r: int, t: int)
    requires
        a == -w,
        a * pool == q * t + r,
        0 <= r < t,
    ensures
        r == 0 ==> w * pool == (-q) * t,
        r > 0 ==> w * pool == (-q - 1) * t + (t - r),
{
    assert(w * pool == -(a * pool)) by (nonlinear_arith)
        requires
            a == -w,
    ;
    assert((-q) * t == -(q * t)) by (nonlinear_arith);
    assert((-q - 1) * t == -(q * t) - t) by (nonlinear_arith);
}

/// The share of `pool` for weight `w` out of `t`, rounded down, and what the
/// rounding leaves; `None` where that share does not lie strictly between the
/// least and the greatest `i128`.
pub fn floor_of(w: i128, pool: u64, t: i128) -> (res: Option<(i128, u128)>)
    requires
        t > 0,
        w > i128::MIN,
    ensures
        match res {
            Some((f, r)) => f == floor_share(w as int, t as int, pool as int) && r == share_remainder(
                w as int,
                t as int,
                pool as int,
            ) && i128::MIN < f < i128::MAX,
            None => !(i128::MIN < floor_share(w as int, t as int, pool as int) < i128::MAX),
        },
{
    let tu = t as u128;
    if w >= 0 {
        match mul_div_wide(w as u128, pool, tu) {
            Some((q, r)) => {
                proof {
                    vstd::arithmetic::div_mod::lemma_fundamental_div_mod_converse(
                        w * pool,
                        t as int,
                        q as int,
                        r as int,
                    );
                }
                if q < i128::MAX as u128 {
                    Some((q as i128, r))
                } else {
                    None
                }
            },
            None => {
                proof {
                    vstd::arithmetic::div_mod::lemma_fundamental_div_mod(w * pool, t as int);
                }
                None
            },
        }
    } else {
        let a: u128 = (-w) as u128;
        match mul_div_wide(a, pool, tu) {
            Some((q, r)) => {
                proof {
                    lemma_negated_division(w as int, a as int, pool as int, q as int, r as int, t as int);
                    if r == 0 {
                        vstd::arithmetic::div_mod::lemma_fundamental_div_mod_converse(
                            w * pool,
                            t as int,
                            -q,
                            0,
                        );
                    } else {
                        vstd::arithmetic::div_mod::lemma_fundamental_div_mod_converse(
                            w * pool,
                            t as int,
                            -q - 1,
                            t - r,
                        );
                    }
                }
                if r == 0 {
                    if q <= i128::MAX as u128 {
                        Some((-(q as i128), 0))
                    } else {
                        None
                    }
                } else if q < i128::MAX as u128 {
                    Some((-(q as i128) - 1, tu - r))
                } else {
                    None
                }
            },
            None => {
                proof {
                    assert(w * pool == -(a * pool)) by (nonlinear_arith)
                        requires
                            a == -w,
                    ;
                    vstd::arithmetic::div_mod::lemma_fundamental_div_mod(a * pool, t as int);
                    vstd::arithmetic::div_mod::lemma_fundamental_div_mod(w * pool, t as int);
                    let qq = (a * pool) / (t as int);
                    let rr = (a * pool) % (t as int);
                    lemma_negated_division(w as int, a as int, pool as int, qq, rr, t as int);
                    if rr == 0 {
                        vstd::arithmetic::div_mod::lemma_fundamental_div_mod_converse(
                            w * pool,
                            t as int,
                            -qq,
                            0,
                        );
                    } else {
                        vstd::arithmetic::div_mod::lemma_fundamental_div_mod_converse(
                            w * pool,
                            t as int,
                            -qq - 1,
                            t - rr,
                        );
                    }
                }
                None
            },
        }
    }
}

/// Whether every share of `pool` over `weights`, rounded down, fits the
/// parts that `split_pool` computes.
pub fn split_fits(weights: &Vec<i128>, pool: u64) -> (r: bool)
    requires
        0 < weight_sum(weights@),
        abs_sum(weights@) <= i128::MAX,
    ensures
        r == parts_fit(weights@, pool),
{
    let t = sum_weights(weights);
    let mut i: usize = 0;
    while i < weights.len()
        invariant
            i <= weights@.len(),
            t == weight_sum(weights@),
            t > 0,
            abs_sum(weights@) <= i128::MAX,
            forall|k: int|
                0 <= k < i ==> i128::MIN < #[trigger] floor_share(
                    weights@[k] as int,
                    t as int,
                    pool as int,
                ) < i128::MAX,
        decreases weights@.len() - i,
    {
        proof {
            lemma_weight_sum_prefix(weights@, i as int);
        }
        if floor_of(weights[i], pool, t).is_none() {
            return false;
        }
        i += 1;
    }
    true
}

/// The sum of `weights`.
pub fn sum_weights(weights: &Vec<i128>) -> (t: i128)
    requires
        abs_sum(weights@) <= i128::MAX,
    ensures
        t == weight_sum(weights@),
{
    let mut total: i128 = 0;
    let mut i: usize = 0;
    while i < weights.len()
        invariant
            i <= weights@.len(),
            abs_sum(weights@) <= i128::MAX,
            total == weight_sum(weights@.take(i as int)),
        decreases weights@.len() - i,
    {
        proof {
            lemma_weight_sum_prefix(weights@, i as int);
            lemma_weight_sum_prefix(weights@, i as int + 1);
            lemma_abs_sum_nonneg(weights@);
        }
        total = total + weights[i];
        i += 1;
    }
    proof {
        assert(weights@.take(i as int) =~= weights@);
    }
    total
}

proof fn lemma_split_step(wsum: int, w: int, pool: int, t: int, fsum: int, rsum: int, q: int, r: int)
    requires
        wsum * pool == t * fsum + rsum,
        w * pool == q * t + r,
    ensures
        (wsum + w) * pool == t * (fsum + q) + (rsum + r),
{
    assert((wsum + w) * pool == wsum * pool + w * pool) by (nonlinear_arith);
    assert(t * (fsum + q) == t * fsum + q * t) by (nonlinear_arith);
}

/// Splits `pool` over `weights` by largest remainders (ties go to the
/// earlier weight). The weights, which may be negative, must add up to more
/// than zero; their sizes must add up to an `i128`, and every share must fit.
pub fn split_pool(weights: &Vec<i128>, pool: u64) -> (parts: Vec<i128>)
    requires
        0 < weight_sum(weights@),
        abs_sum(weights@) <= i128::MAX,
        parts_fit(weights@, pool),
    ensures
        is_split(weights@, pool, parts@),
{
    let n = weights.len();
    let total = sum_weights(weights);
    let ghost t = total as int;
    // each share rounded down, and what the rounding leaves
    let mut floors: Vec<i128> = Vec::new();
    let mut rems: Vec<u128> = Vec::new();
    let ghost mut fsum: int = 0;
    let mut left: usize = 0;
    let mut carry: u128 = 0;
    let mut j: usize = 0;
    while j < n
        invariant
            n == weights@.len(),
            j <= n,
            t == total,
            t == weight_sum(weights@),
            t > 0,
            t <= i128::MAX,
            abs_sum(weights@) <= i128::MAX,
            parts_fit(weights@, pool),
            floors@.len() == j,
            rems@.len() == j,
            fsum == part_sum(floors@),
            weight_sum(weights@.take(j as int)) * pool == t * fsum + rem_sum(rems@),
            rem_sum(rems@) == left * t + carry,
            carry < t,
            left <= j,
            forall|k: int|
                0 <= k < j ==> #[trigger] floors@[k] == floor_share(weights@[k] as int, t, pool as int)
                    && rems@[k] == share_remainder(weights@[k] as int, t, pool as int) && rems@[k]
                    < t && floors@[k] < i128::MAX,
        decreases n - j,
    {
        proof {
            lemma_weight_sum_prefix(weights@, j as int);
            lemma_weight_sum_prefix(weights@, j as int + 1);
            assert(i128::MIN < floor_share(weights@[j as int] as int, t, pool as int) < i128::MAX);
        }
        let (q, r) = floor_of(weights[j], pool, total).unwrap();
        proof {
            vstd::arithmetic::div_mod::lemma_fundamental_div_mod(weights@[j as int] * pool, t);
            lemma_split_step(
                weight_sum(weights@.take(j as int)),
                weights@[j as int] as int,
                pool as int,
                t,
                fsum,
                rem_sum(rems@),
                q as int,
                r as int,
            );
        }
        let ghost (f0, r0) = (floors@, rems@);
        floors.push(q);
        rems.push(r);
        proof {
            fsum = fsum + q;
        }
        let ghost left0 = left as int;
        if carry >= total as u128 - r {
            carry = carry - (total as u128 - r);
            left = left + 1;
            proof {
                assert((left0 + 1) * t == left0 * t + t) by (nonlinear_arith);
            }
        } else {
            carry = carry + r;
        }
        proof {
            assert(floors@.drop_last() =~= f0);
            assert(rems@.drop_last() =~= r0);
            assert forall|k: int| 0 <= k < j + 1 implies #[trigger] floors@[k] == floor_share(
                weights@[k] as int,
                t,
                pool as int,
            ) && rems@[k] == share_remainder(weights@[k] as int, t, pool as int) && rems@[k] < t
                && floors@[k] < i128::MAX by {
                if k < j {
                    assert(floors@[k] == f0[k] && rems@[k] == r0[k]);
                } else {
                    assert(floors@[k] == q && rems@[k] == r);
                }
            }
        }
        j += 1;
    }
    proof {
        assert(weights@.take(n as int) =~= weights@);
        lemma_rem_sum_nonneg(rems@);
        // t * pool == t * (fsum + left) + carry with 0 <= carry < t
        assert(t * pool == t * (fsum + left) + carry) by (nonlinear_arith)
            requires
                t * pool == t * fsum + rem_sum(rems@),
                rem_sum(rems@) == left * t + carry,
        ;
        assert(carry == 0 && fsum + left == pool) by (nonlinear_arith)
            requires
                t * pool == t * (fsum + left) + carry,
                0 <= carry < t,
        ;
        assert(rem_sum(rems@) == t * left) by (nonlinear_arith)
            requires
                rem_sum(rems@) == left * t + carry,
                carry == 0,
        ;
    }
    proof {
        assert forall|k: int| 0 <= k < n implies rems@[k] < t by {
            assert(floors@[k] == floor_share(weights@[k] as int, t, pool as int));
        }
    }
    // the units left over go to the largest remainders
    let mut marks: Vec<bool> = Vec::new();
    let mut z: usize = 0;
    while z < n
        invariant
            z <= n,
            marks@.len() == z,
            forall|k: int| 0 <= k < z ==> !marks@[k],
            count_marked(marks@) == 0,
        decreases n - z,
    {
        let ghost m0 = marks@;
        marks.push(false);
        proof {
            assert(marks@.drop_last() =~= m0);
        }
        z += 1;
    }
    let mut m: usize = 0;
    while m < left
        invariant
            marks@.len() == n,
            rems@.len() == n,
            t > 0,
            m <= left,
            rem_sum(rems@) == t * left,
            forall|k: int| 0 <= k < n ==> rems@[k] < t,
            count_marked(marks@) == m,
            forall|k: int| 0 <= k < n && #[trigger] marks@[k] ==> rems@[k] > 0,
            forall|a: int, b: int|
                0 <= a < n && 0 <= b < n && #[trigger] marks@[a] && !#[trigger] marks@[b]
                    ==> rems@[a] > rems@[b] || (rems@[a] == rems@[b] && a < b),
        decreases left - m,
    {
        let pick = largest_unmarked(&rems, &marks);
        proof {
            lemma_count_marked_bounds(marks@);
            if pick is None || rems@[pick->0 as int] == 0 {
                assert forall|i: int| 0 <= i < rems@.len() && !marks@[i] implies rems@[i] == 0 by {
                    if pick is Some {
                        assert(rems@[i] <= rems@[pick->0 as int]);
                    }
                }
                lemma_remainders_on_marked(rems@, marks@, t);
                assert(m * (t - 1) < left * t) by (nonlinear_arith)
                    requires
                        m < left,
                        t > 0,
                ;
                assert(false);
            }
        }
        let b = pick.unwrap();
        let ghost before = marks@;
        marks.set(b, true);
        proof {
            lemma_count_marked_set(before, b as int);
        }
        m = m + 1;
    }
    // the parts
    let mut parts: Vec<i128> = Vec::new();
    let mut p: usize = 0;
    while p < n
        invariant
            n == weights@.len(),
            p <= n,
            floors@.len() == n,
            rems@.len() == n,
            marks@.len() == n,
            t > 0,
            t == weight_sum(weights@),
            fsum == part_sum(floors@),
            count_marked(marks@) == left,
            parts@.len() == p,
            part_sum(parts@) == part_sum(floors@.take(p as int)) + count_marked(marks@.take(p as int)),
            forall|k: int|
                0 <= k < n ==> #[trigger] floors@[k] == floor_share(weights@[k] as int, t, pool as int)
                    && rems@[k] == share_remainder(weights@[k] as int, t, pool as int)
                    && floors@[k] < i128::MAX,
            forall|k: int| 0 <= k < n && #[trigger] marks@[k] ==> rems@[k] > 0,
            forall|a: int, b: int|
                0 <= a < n && 0 <= b < n && #[trigger] marks@[a] && !#[trigger] marks@[b]
                    ==> rems@[a] > rems@[b] || (rems@[a] == rems@[b] && a < b),
            fsum + left == pool,
            forall|k: int|
                0 <= k < p ==> #[trigger] parts@[k] == floors@[k] + if marks@[k] {
                    1int
                } else {
                    0int
                },
        decreases n - p,
    {
        proof {
            assert(floors@.take(p as int + 1).drop_last() =~= floors@.take(p as int));
            assert(marks@.take(p as int + 1).drop_last() =~= marks@.take(p as int));
            assert(floors@[p as int] < i128::MAX);
        }
        let part = if marks[p] {
            floors[p] + 1
        } else {
            floors[p]
        };
        let ghost before = parts@;
        parts.push(part);
        proof {
            assert(parts@.drop_last() =~= before);
        }
        p += 1;
    }
    proof {
        assert(floors@.take(n as int) =~= floors@);
        assert(marks@.take(n as int) =~= marks@);
        assert forall|i: int| 0 <= i < n implies #[trigger] parts@[i] == floor_share(
            weights@[i] as int,
            t,
            pool as int,
        ) + if marks@[i] {
            1int
        } else {
            0int
        } by {
            assert(floors@[i] == floor_share(weights@[i] as int, t, pool as int));
        }
        assert forall|i: int, j: int|
            0 <= i < n && 0 <= j < n && #[trigger] parts@[i] == floor_share(
                weights@[i] as int,
                t,
                pool as int,
            ) + 1 && #[trigger] parts@[j] == floor_share(weights@[j] as int, t, pool as int)
                implies share_remainder(weights@[i] as int, t, pool as int) > share_remainder(
            weights@[j] as int,
            t,
            pool as int,
        ) || (share_remainder(weights@[i] as int, t, pool as int) == share_remainder(
            weights@[j] as int,
            t,
            pool as int,
        ) && i < j) by {
            assert(floors@[i] == floor_share(weights@[i] as int, t, pool as int));
            assert(floors@[j] == floor_share(weights@[j] as int, t, pool as int));
            assert(marks@[i] && !marks@[j]);
        }
        assert forall|i: int| 0 <= i < n implies #[trigger] parts@[i] == floor_share(
            weights@[i] as int,
            t,
            pool as int,
        ) || (parts@[i] == floor_share(weights@[i] as int, t, pool as int) + 1 && share_remainder(
            weights@[i] as int,
            t,
            pool as int,
        ) != 0) by {
            assert(floors@[i] == floor_share(weights@[i] as int, t, pool as int));
        }
    }
    parts
}

/// Law: every part is within one unit of its exact proportional share
/// `weights[i] * pool / total`.
pub proof fn lemma_split_within_one_unit(weights: Seq<i128>, pool: u64, parts: Seq<i128>, i: int)
    requires
        weight_sum(weights) > 0,
        is_split(weights, pool, parts),
        0 <= i < parts.len(),
    ensures
        (parts[i] - 1) * weight_sum(weights) < weights[i] * pool,
        weights[i] * pool < (parts[i] + 1) * weight_sum(weights),
{
    let t = weight_sum(weights);
    let wp = weights[i] * pool;
    let f = floor_share(weights[i] as int, t, pool as int);
    let r = share_remainder(weights[i] as int, t, pool as int);
    vstd::arithmetic::div_mod::lemma_fundamental_div_mod(wp, t);
    assert(wp == t * f + r && 0 <= r < t);
    let p = parts[i] as int;
    if p == f {
        assert((p - 1) * t < wp && wp < (p + 1) * t) by (nonlinear_arith)
            requires
                wp == t * f + r,
                0 <= r < t,
                p == f,
        ;
    } else {
        assert(p == f + 1 && r != 0);
        assert((p - 1) * t < wp && wp < (p + 1) * t) by (nonlinear_arith)
            requires
                wp == t * f + r,
                0 < r < t,
                p == f + 1,
        ;
    }
}

/// Law: a heavier weight never gets the smaller part; equal weights get
/// parts at most one unit apart, the earlier one the larger.
pub proof fn lemma_split_order(weights: Seq<i128>, pool: u64, parts: Seq<i128>, a: int, b: int)
    requires
        weight_sum(weights) > 0,
        is_split(weights, pool, parts),
        0 <= a < parts.len(),
        0 <= b < parts.len(),
    ensures
        weights[a] < weights[b] ==> parts[a] <= parts[b],
        weights[a] == weights[b] ==> parts[a] <= parts[b] + 1 && parts[b] <= parts[a] + 1,
        weights[a] == weights[b] && a < b ==> parts[a] >= parts[b],
{
    let t = weight_sum(weights);
    let fa = floor_share(weights[a] as int, t, pool as int);
    let fb = floor_share(weights[b] as int, t, pool as int);
    let ra = share_remainder(weights[a] as int, t, pool as int);
    let rb = share_remainder(weights[b] as int, t, pool as int);
    assert(parts[a] == fa || (parts[a] == fa + 1 && ra != 0));
    assert(parts[b] == fb || (parts[b] == fb + 1 && rb != 0));
    if weights[a] <= weights[b] {
        let wa = weights[a] * pool;
        let wb = weights[b] * pool;
        assert(wa <= wb) by (nonlinear_arith)
            requires
                weights[a] <= weights[b],
                pool >= 0,
                wa == weights[a] * pool,
                wb == weights[b] * pool,
        ;
        vstd::arithmetic::div_mod::lemma_div_is_ordered(wa, wb, t);
        vstd::arithmetic::div_mod::lemma_fundamental_div_mod(wa, t);
        vstd::arithmetic::div_mod::lemma_fundamental_div_mod(wb, t);
        if weights[a] < weights[b] && fa == fb {
            if pool == 0 {
                assert(wa == 0 && wb == 0) by (nonlinear_arith)
                    requires
                        pool == 0,
                        wa == weights[a] * pool,
                        wb == weights[b] * pool,
                ;
                assert(ra == 0);
            } else {
                assert(wa < wb) by (nonlinear_arith)
                    requires
                        weights[a] < weights[b],
                        pool > 0,
                        wa == weights[a] * pool,
                        wb == weights[b] * pool,
                ;
                assert(ra < rb);
            }
            if parts[a] == fa + 1 && parts[b] == fb {
                assert(ra > rb || (ra == rb && a < b));
            }
        }
        if weights[a] == weights[b] && a < b && parts[b] == fb + 1 && parts[a] == fa {
            assert(rb > ra || (rb == ra && b < a));
        }
    }
}

} // verus!
