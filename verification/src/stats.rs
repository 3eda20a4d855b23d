//! Running statistics of one scope: call count, duration extremes and a
//! streaming mean and sum of squared deviations, all in whole nanoseconds.
//!
//! Mean and sum of squared deviations are updated in constant space, one
//! sample at a time, and are exact: each is held as a whole part and a
//! remainder in parts of the number of samples, so that no rounding error
//! is carried from one sample to the next.

use crate::figures::{isqrt, lemma_sqrt_exists, sqrt_floor};
use vstd::arithmetic::div_mod::{
    lemma_div_denominator, lemma_fundamental_div_mod, lemma_fundamental_div_mod_converse,
    lemma_mod_bound,
};
use vstd::prelude::*;

verus! {

/// What a `Stats` value stands for.
pub ghost struct StatsModel {
    pub calls: nat,
    pub sum: nat,
    pub min: nat,
    pub max: nat,
    pub last: nat,
    pub mean: nat,
    pub rem: nat,
    pub m2: nat,
    pub m2_rem: nat,
}

/// The smaller of two naturals.
pub open spec fn least(a: nat, b: nat) -> nat {
    if a <= b { a } else { b }
}

/// The larger of two naturals.
pub open spec fn greatest(a: nat, b: nat) -> nat {
    if a >= b { a } else { b }
}

/// One step of the streaming mean. Before it, `mean` and `rem` are the
/// quotient and the remainder of the sum of `n - 1` samples by their
/// number; the mean moves by the `n`-th part of what the sample `d` and the
/// old remainder add to it, rounded down.
pub open spec fn stepped_mean(mean: nat, rem: nat, d: nat, n: nat) -> nat
    recommends
        n >= 1,
{
    (mean + (rem + d - mean) / (n as int)) as nat
}

/// The remainder that one step of the streaming mean leaves.
pub open spec fn stepped_rem(mean: nat, rem: nat, d: nat, n: nat) -> nat
    recommends
        n >= 1,
{
    ((rem + d - mean) % (n as int)) as nat
}

/// `n` times the distance of the sample `d` from the exact mean of `n`
/// samples, whose sum divided by `n` is `mean` and leaves `rem`.
pub open spec fn lead(mean: nat, rem: nat, d: nat, n: nat) -> int {
    n * d - (mean * n + rem)
}

/// What one more sample adds to `n + 1` times the sum of squared
/// deviations, beyond `n + 1` times its whole part. The sum of squared
/// deviations of `n` samples is a whole part and `m2_rem` `n`-th parts; the
/// sample `d` adds the square of its distance from the exact mean, times
/// `n` and divided by `n + 1`.
pub open spec fn carried(mean: nat, rem: nat, m2_rem: nat, d: nat, n: nat) -> int {
    if n == 0 {
        0
    } else {
        ((n + 1) * m2_rem + lead(mean, rem, d, n) * lead(mean, rem, d, n)) / (n as int)
    }
}

impl StatsModel {
    /// The statistics of a scope that no call has completed in.
    pub open spec fn initial() -> StatsModel {
        StatsModel {
            calls: 0,
            sum: 0,
            min: u64::MAX as nat,
            max: 0,
            last: 0,
            mean: 0,
            rem: 0,
            m2: 0,
            m2_rem: 0,
        }
    }

    /// The statistics after one more call of `d` nanoseconds. The count and
    /// the sum stop at the largest `u64`. The mean is the exact mean rounded
    /// down, with its remainder; the sum of squared deviations is the sum
    /// of the squared distances from the exact mean, rounded down, with its
    /// remainder in parts of the count, and stops at the largest `u128`.
    /// Once the count is full, mean and deviations stay as they are.
    pub open spec fn recorded(self, d: nat) -> StatsModel {
        let n = self.calls;
        let sum = least(self.sum + d, u64::MAX as nat);
        let min = least(self.min, d);
        let max = greatest(self.max, d);
        if n >= u64::MAX {
            StatsModel { sum, min, max, last: d, ..self }
        } else {
            let w = carried(self.mean, self.rem, self.m2_rem, d, n);
            StatsModel {
                calls: n + 1,
                sum,
                min,
                max,
                last: d,
                mean: stepped_mean(self.mean, self.rem, d, n + 1),
                rem: stepped_rem(self.mean, self.rem, d, n + 1),
                m2: least((self.m2 + w / (n as int + 1)) as nat, u128::MAX as nat),
                m2_rem: (w % (n as int + 1)) as nat,
            }
        }
    }

    /// Once a call has completed, the mean and the last duration lie
    /// between the smallest and the largest duration, and the remainders
    /// are below the count.
    pub open spec fn wf(self) -> bool {
        &&& self.calls <= u64::MAX
        &&& self.sum <= u64::MAX
        &&& self.min <= u64::MAX
        &&& self.max <= u64::MAX
        &&& self.last <= u64::MAX
        &&& self.mean <= u64::MAX
        &&& self.m2 <= u128::MAX
        &&& self.calls == 0 ==> self == StatsModel::initial()
        &&& self.calls >= 1 ==> self.min <= self.mean <= self.max && self.min <= self.last
            <= self.max && self.rem < self.calls && self.m2_rem < self.calls
    }

    /// The statistics after the calls `samples`, in that order.
    pub open spec fn after(samples: Seq<nat>) -> StatsModel
        decreases samples.len(),
    {
        if samples.len() == 0 {
            StatsModel::initial()
        } else {
            StatsModel::after(samples.drop_last()).recorded(samples.last())
        }
    }
}

/// The running statistics of one scope.
#[derive(Debug, Clone, Copy)]
pub struct Stats {
    calls: u64,
    sum: u64,
    min: u64,
    max: u64,
    last: u64,
    mean: u64,
    rem: u64,
    m2: u128,
    m2_rem: u64,
}

impl View for Stats {
    type V = StatsModel;

    closed spec fn view(&self) -> StatsModel {
        StatsModel {
            calls: self.calls as nat,
            sum: self.sum as nat,
            min: self.min as nat,
            max: self.max as nat,
            last: self.last as nat,
            mean: self.mean as nat,
            rem: self.rem as nat,
            m2: self.m2 as nat,
            m2_rem: self.m2_rem as nat,
        }
    }
}

/// The mean stays between the old mean and the sample, and the remainder
/// below the number of samples.
pub proof fn lemma_stepped_mean_between(mean: nat, rem: nat, d: nat, n: nat)
    requires
        n >= 1,
        rem < n,
    ensures
        least(mean, d) <= mean + (rem + d - mean) / (n as int) <= greatest(mean, d),
        least(mean, d) <= stepped_mean(mean, rem, d, n) <= greatest(mean, d),
        0 <= (rem + d - mean) % (n as int) < n,
        stepped_rem(mean, rem, d, n) < n,
        stepped_mean(mean, rem, d, n) * n + stepped_rem(mean, rem, d, n) == mean * n + rem + d
            - mean,
        n == 1 ==> stepped_mean(mean, rem, d, n) == d,
{
    let t: int = rem + d - mean;
    let m: int = n as int;
    let q: int = t / m;
    let r: int = t % m;
    lemma_fundamental_div_mod(t, m);
    lemma_mod_bound(t, m);
    assert(d >= mean ==> 0 <= q <= d - mean) by (nonlinear_arith)
        requires
            t == m * q + r,
            0 <= r < m,
            0 <= rem < m,
            t == rem + d - mean,
    ;
    assert(d < mean ==> d - mean <= q <= 0) by (nonlinear_arith)
        requires
            t == m * q + r,
            0 <= r < m,
            0 <= rem < m,
            t == rem + d - mean,
    ;
    assert((mean + q) * m + r == mean * m + t) by (nonlinear_arith)
        requires
            t == m * q + r,
    ;
    assert(m == 1 ==> q == t) by (nonlinear_arith)
        requires
            t == m * q + r,
            0 <= r < m,
    ;
}

/// What a sample adds to the sum of squared deviations is not negative.
pub proof fn lemma_carried_sign(mean: nat, rem: nat, m2_rem: nat, d: nat, n: nat)
    ensures
        carried(mean, rem, m2_rem, d, n) >= 0,
        carried(mean, rem, m2_rem, d, n) / (n as int + 1) >= 0,
        0 <= carried(mean, rem, m2_rem, d, n) % (n as int + 1) < n + 1,
{
    let w = carried(mean, rem, m2_rem, d, n);
    let big = lead(mean, rem, d, n);
    if n > 0 {
        let top: int = (n + 1) * m2_rem + big * big;
        assert(top >= 0) by (nonlinear_arith)
            requires
                top == (n + 1) * m2_rem + big * big,
                n >= 0,
                m2_rem >= 0,
        ;
        lemma_fundamental_div_mod(top, n as int);
        lemma_mod_bound(top, n as int);
        assert(top / (n as int) >= 0) by (nonlinear_arith)
            requires
                top == (n as int) * (top / (n as int)) + top % (n as int),
                0 <= top % (n as int) < n,
                top >= 0,
                n > 0,
        ;
    }
    let m: int = n as int + 1;
    lemma_fundamental_div_mod(w, m);
    lemma_mod_bound(w, m);
    assert(w / m >= 0) by (nonlinear_arith)
        requires
            w == m * (w / m) + w % m,
            0 <= w % m < m,
            w >= 0,
            m > 0,
    ;
}

/// Recording a call keeps the statistics well formed.
pub proof fn lemma_recorded_wf(s: StatsModel, d: nat)
    requires
        s.wf(),
        d <= u64::MAX,
    ensures
        s.recorded(d).wf(),
        s.recorded(d).calls >= 1,
{
    if s.calls < u64::MAX {
        lemma_stepped_mean_between(s.mean, s.rem, d, s.calls + 1);
        lemma_carried_sign(s.mean, s.rem, s.m2_rem, d, s.calls);
    }
}

/// The sum of `samples`.
pub open spec fn total(samples: Seq<nat>) -> nat
    decreases samples.len(),
{
    if samples.len() == 0 {
        0
    } else {
        total(samples.drop_last()) + samples.last()
    }
}

/// The sum of the squares of `samples`.
pub open spec fn squares(samples: Seq<nat>) -> nat
    decreases samples.len(),
{
    if samples.len() == 0 {
        0
    } else {
        squares(samples.drop_last()) + samples.last() * samples.last()
    }
}

/// The square of the number of `samples` times their population variance:
/// their number times the sum of their squares, less the square of their
/// sum. Divided by their number it is the sum of their squared distances
/// from their exact mean.
pub open spec fn spread(samples: Seq<nat>) -> int {
    samples.len() * squares(samples) - total(samples) * total(samples)
}

/// The streaming mean is the arithmetic mean. After any samples, fewer
/// than the count can hold, the count is their number, the mean is their
/// sum divided by their number, rounded down, the remainder is what that
/// division leaves, and the sum is their sum as far as 64 bits hold it.
pub proof fn mean_is_arithmetic_mean(samples: Seq<nat>)
    requires
        0 < samples.len() <= u64::MAX,
        forall|k: int| 0 <= k < samples.len() ==> #[trigger] samples[k] <= u64::MAX,
    ensures
        StatsModel::after(samples).wf(),
        StatsModel::after(samples).calls == samples.len(),
        StatsModel::after(samples).mean == total(samples) / samples.len(),
        StatsModel::after(samples).rem == total(samples) % samples.len(),
        StatsModel::after(samples).mean * samples.len() + StatsModel::after(samples).rem == total(
            samples,
        ),
        StatsModel::after(samples).sum == least(total(samples), u64::MAX as nat),
        StatsModel::after(samples).last == samples.last(),
    decreases samples.len(),
{
    let init = samples.drop_last();
    let d = samples.last();
    let n = samples.len();
    let before = StatsModel::after(init);
    let now = StatsModel::after(samples);
    if init.len() > 0 {
        mean_is_arithmetic_mean(init);
    } else {
        assert(total(init) == 0);
    }
    lemma_recorded_wf(before, d);
    lemma_stepped_mean_between(before.mean, before.rem, d, n);
    assert(now.mean * n + now.rem == total(samples)) by (nonlinear_arith)
        requires
            now.mean * n + now.rem == before.mean * n + before.rem + d - before.mean,
            before.mean * (n - 1) + before.rem == total(init),
            total(samples) == total(init) + d,
    ;
    lemma_fundamental_div_mod_converse(total(samples) as int, n as int, now.mean as int, now.rem as int);
}

/// One more sample `d` after `n` samples with sum `sum` and sum of squares
/// `sq`: `n` times the new spread is `n + 1` times the old spread and the
/// square of `n` times the distance of the sample from the old mean.
pub proof fn lemma_spread_step(n: int, sum: int, sq: int, d: int)
    ensures
        n * ((n + 1) * (sq + d * d) - (sum + d) * (sum + d)) == (n + 1) * (n * sq - sum * sum) + (n
            * d - sum) * (n * d - sum),
{
    let b = sum * sum;
    let c = d * d;
    let e = sum * d;
    let moved = (sum + d) * (sum + d);
    let led = (n * d - sum) * (n * d - sum);
    assert(moved == b + 2 * e + c) by (nonlinear_arith)
        requires
            moved == (sum + d) * (sum + d),
            b == sum * sum,
            c == d * d,
            e == sum * d,
    ;
    assert(led == n * n * c - 2 * n * e + b) by (nonlinear_arith)
        requires
            led == (n * d - sum) * (n * d - sum),
            b == sum * sum,
            c == d * d,
            e == sum * d,
    ;
    assert(n * ((n + 1) * (sq + c) - moved) == (n + 1) * (n * sq - b) + led) by (nonlinear_arith)
        requires
            moved == b + 2 * e + c,
            led == n * n * c - 2 * n * e + b,
    ;
}

/// The streaming sum of squared deviations is the exact one. After any
/// samples, fewer than the count can hold, the sum of squared deviations is
/// the sum of the squared distances of the samples from their exact mean,
/// rounded down to whole squared nanoseconds, as far as 128 bits hold it;
/// below that limit the remainder is what the division of the spread by
/// the number of samples leaves. So the standard deviation that `std_dev`
/// gives is the rounded-down root of the population variance, itself
/// rounded down.
pub proof fn m2_is_sum_of_squared_deviations(samples: Seq<nat>)
    requires
        0 < samples.len() <= u64::MAX,
        forall|k: int| 0 <= k < samples.len() ==> #[trigger] samples[k] <= u64::MAX,
    ensures
        spread(samples) >= 0,
        StatsModel::after(samples).m2 == if spread(samples) / (samples.len() as int)
            <= u128::MAX {
            spread(samples) / (samples.len() as int)
        } else {
            u128::MAX as int
        },
        spread(samples) / (samples.len() as int) < u128::MAX ==> StatsModel::after(samples).m2_rem
            == spread(samples) % (samples.len() as int),
        spread(samples) / (samples.len() as int) <= u128::MAX ==> StatsModel::after(samples).m2
            as int / (samples.len() as int) == spread(samples) / ((samples.len() * samples.len())
            as int),
    decreases samples.len(),
{
    let init = samples.drop_last();
    let d = samples.last();
    let big: int = samples.len() as int;
    let n: int = big - 1;
    let before = StatsModel::after(init);
    let now = StatsModel::after(samples);
    let v = spread(init);
    let v2 = spread(samples);
    mean_is_arithmetic_mean(samples);
    if n == 0 {
        assert(squares(init) == 0);
        assert(total(init) == 0);
        assert(before == StatsModel::initial());
        assert(v2 == 0) by (nonlinear_arith)
            requires
                v2 == 1 * (0 + d * d) - (0 + d) * (0 + d),
        ;
        assert(now.m2 == 0);
        assert(now.m2_rem == 0);
    } else {
        m2_is_sum_of_squared_deviations(init);
        mean_is_arithmetic_mean(init);
        let sum = total(init) as int;
        let sq = squares(init) as int;
        let lead_d = lead(before.mean, before.rem, d, n as nat);
        let w = carried(before.mean, before.rem, before.m2_rem, d, n as nat);
        lemma_carried_sign(before.mean, before.rem, before.m2_rem, d, n as nat);
        lemma_spread_step(n, sum, sq, d as int);
        assert(lead_d == n * d - sum);
        assert(n * v2 == big * v + lead_d * lead_d);
        assert(lead_d * lead_d >= 0) by (nonlinear_arith);
        assert(v2 >= 0) by (nonlinear_arith)
            requires
                n * v2 == big * v + lead_d * lead_d,
                lead_d * lead_d >= 0,
                v >= 0,
                n >= 1,
                big == n + 1,
        ;
        lemma_fundamental_div_mod(v, n);
        lemma_mod_bound(v, n);
        lemma_fundamental_div_mod(v2, big);
        lemma_mod_bound(v2, big);
        if before.m2 < u128::MAX {
            let m2 = before.m2 as int;
            let r = before.m2_rem as int;
            assert(v == n * m2 + r);
            assert(big * r + lead_d * lead_d == (v2 - big * m2) * n + 0) by (nonlinear_arith)
                requires
                    n * v2 == big * v + lead_d * lead_d,
                    v == n * m2 + r,
            ;
            lemma_fundamental_div_mod_converse(
                big * r + lead_d * lead_d,
                n,
                v2 - big * m2,
                0,
            );
            assert(w == v2 - big * m2);
            lemma_fundamental_div_mod(w, big);
            lemma_mod_bound(w, big);
            assert(v2 == (m2 + w / big) * big + w % big) by (nonlinear_arith)
                requires
                    w == v2 - big * m2,
                    w == big * (w / big) + w % big,
            ;
            lemma_fundamental_div_mod_converse(v2, big, m2 + w / big, w % big);
        } else {
            assert(v / n >= u128::MAX);
            assert(v2 / big >= v / n) by (nonlinear_arith)
                requires
                    n * v2 == big * v + lead_d * lead_d,
                    lead_d * lead_d >= 0,
                    v == n * (v / n) + v % n,
                    0 <= v % n < n,
                    v2 == big * (v2 / big) + v2 % big,
                    0 <= v2 % big < big,
                    n >= 1,
                    big == n + 1,
            ;
        }
    }
    if v2 / big <= u128::MAX {
        lemma_div_denominator(v2, big, big);
    }
}

/// The standard deviation is the population standard deviation. After any
/// samples, fewer than the count can hold, whose sum of squared deviations
/// 128 bits can hold, the root that `std_dev` gives is the population
/// standard deviation rounded down: its square is at most the population
/// variance, the spread divided by the square of the number of samples, and
/// the square of the next number is above it.
pub proof fn deviation_is_population_deviation(samples: Seq<nat>)
    requires
        0 < samples.len() <= u64::MAX,
        forall|k: int| 0 <= k < samples.len() ==> #[trigger] samples[k] <= u64::MAX,
        spread(samples) / (samples.len() as int) <= u128::MAX,
    ensures
        ({
            let s = StatsModel::after(samples);
            let r = sqrt_floor(s.m2 / s.calls);
            let n = samples.len();
            r * r * (n * n) <= spread(samples) < (r + 1) * (r + 1) * (n * n)
        }),
{
    let s = StatsModel::after(samples);
    let n: int = samples.len() as int;
    let v = spread(samples);
    m2_is_sum_of_squared_deviations(samples);
    mean_is_arithmetic_mean(samples);
    let var: int = v / (n * n);
    assert(n * n >= 1) by (nonlinear_arith)
        requires
            n >= 1,
    ;
    assert(s.m2 as int / n == var);
    lemma_fundamental_div_mod(v, n * n);
    lemma_mod_bound(v, n * n);
    lemma_sqrt_exists(var as nat);
    let r: int = sqrt_floor(var as nat) as int;
    assert(r * r * (n * n) <= v < (r + 1) * (r + 1) * (n * n)) by (nonlinear_arith)
        requires
            r * r <= var < (r + 1) * (r + 1),
            v == (n * n) * var + v % (n * n),
            0 <= v % (n * n) < n * n,
    ;
}

/// One step of the streaming mean on machine integers.
fn mean_step(mean: u64, rem: u64, d: u64, count: u64) -> (out: (u64, u64))
    requires
        count >= 1,
        rem < count,
    ensures
        out.0 == stepped_mean(mean as nat, rem as nat, d as nat, count as nat),
        out.1 == stepped_rem(mean as nat, rem as nat, d as nat, count as nat),
{
    let n: u128 = count as u128;
    let ghost t: int = rem + d - mean;
    proof {
        lemma_stepped_mean_between(mean as nat, rem as nat, d as nat, count as nat);
    }
    let up: u128 = rem as u128 + d as u128;
    if up >= mean as u128 {
        let q: u128 = (up - mean as u128) / n;
        let r: u128 = (up - mean as u128) % n;
        ((mean as u128 + q) as u64, r as u64)
    } else {
        let down: u128 = mean as u128 - up;
        let a: u128 = down / n;
        let r: u128 = down % n;
        proof {
            lemma_fundamental_div_mod(down as int, n as int);
            if r == 0 {
                assert(t == (-(a as int)) * n + 0) by (nonlinear_arith)
                    requires
                        down == n * a + r,
                        r == 0,
                        t == -(down as int),
                ;
                lemma_fundamental_div_mod_converse(t, n as int, -(a as int), 0);
            } else {
                assert(t == (-(a as int) - 1) * n + (n - r)) by (nonlinear_arith)
                    requires
                        down == n * a + r,
                        t == -(down as int),
                ;
                lemma_fundamental_div_mod_converse(t, n as int, -(a as int) - 1, n - r);
            }
        }
        if r == 0 {
            ((mean as u128 - a) as u64, 0u64)
        } else {
            ((mean as u128 - a - 1) as u64, (n - r) as u64)
        }
    }
}

/// What a sample adds to the sum of squared deviations, split into the
/// product of its distances from the old and the new rounded mean and what
/// the remainders carry: with `a` and `b` those distances, signed, and `k`
/// the whole `n`-th parts in the old remainder and the square of the old
/// mean's remainder, it is `n + 1` times `a * b` and
/// `m2_rem + k - a * (rem + new_rem)`.
pub proof fn lemma_carried_split(
    mean: nat,
    rem: nat,
    m2_rem: nat,
    d: nat,
    n: nat,
    new_mean: nat,
    new_rem: nat,
    k: int,
    kr: int,
)
    requires
        n >= 1,
        new_mean * (n + 1) + new_rem == mean * n + rem + d,
        m2_rem + rem * rem == n * k + kr,
        0 <= kr < n,
    ensures
        carried(mean, rem, m2_rem, d, n) == (n + 1) * ((d - mean) * (d - new_mean)) + (m2_rem + k
            - (d - mean) * (rem + new_rem)),
{
    let a: int = d - mean;
    let b: int = d - new_mean;
    let m: int = n as int;
    let big = lead(mean, rem, d, n);
    let y: int = m2_rem + k - a * (rem + new_rem);
    let target: int = (m + 1) * (a * b) + y;
    assert(big == m * a - rem) by (nonlinear_arith)
        requires
            big == m * d - (mean * m + rem),
            a == d - mean,
    ;
    assert((m + 1) * b == big + new_rem) by (nonlinear_arith)
        requires
            new_mean * (m + 1) + new_rem == mean * m + rem + d,
            b == d - new_mean,
            big == m * d - (mean * m + rem),
    ;
    assert((m + 1) * (a * b) == a * (big + new_rem)) by (nonlinear_arith)
        requires
            (m + 1) * b == big + new_rem,
    ;
    assert(m * target == m * (a * big) + m * m2_rem + m * k - m * (a * rem)) by (nonlinear_arith)
        requires
            target == (m + 1) * (a * b) + y,
            (m + 1) * (a * b) == a * (big + new_rem),
            y == m2_rem + k - a * (rem + new_rem),
    ;
    assert(m * (a * big) - m * (a * rem) == big * big - rem * rem) by (nonlinear_arith)
        requires
            big == m * a - rem,
    ;
    assert((m + 1) * m2_rem + big * big == target * m + kr) by (nonlinear_arith)
        requires
            m * target == m * (a * big) + m * m2_rem + m * k - m * (a * rem),
            m * (a * big) - m * (a * rem) == big * big - rem * rem,
            m2_rem + rem * rem == m * k + kr,
    ;
    lemma_fundamental_div_mod_converse((m + 1) * m2_rem + big * big, m, target, kr);
}

/// The quotient and the remainder of a product of two 64-bit numbers by a
/// divisor above the second.
fn split_product(g: u64, r: u64, big: u128) -> (out: (u128, u128))
    requires
        r < big,
        big <= u64::MAX,
    ensures
        g * r == big * out.0 + out.1,
        out.1 < big,
        out.0 <= g,
{
    assert(g * r <= u128::MAX) by (nonlinear_arith)
        requires
            g <= 0xFFFF_FFFF_FFFF_FFFF,
            r <= 0xFFFF_FFFF_FFFF_FFFF,
    ;
    let p: u128 = g as u128 * r as u128;
    let u: u128 = p / big;
    let v: u128 = p % big;
    proof {
        lemma_fundamental_div_mod(p as int, big as int);
        assert(u <= g) by (nonlinear_arith)
            requires
                p == big * u + v,
                p == g * r,
                r < big,
                v >= 0,
                big > 0,
                g >= 0,
                u >= 0,
        ;
    }
    (u, v)
}

/// What the sample `d` adds to the sum of squared deviations of `n`
/// samples, in whole squared nanoseconds, unless 128 bits cannot hold it,
/// and the remainder that it leaves in parts of `n + 1`.
fn deviation_step(
    mean: u64,
    rem: u64,
    m2_rem: u64,
    d: u64,
    n: u64,
    new_mean: u64,
    new_rem: u64,
) -> (out: (Option<u128>, u64))
    requires
        1 <= n < u64::MAX,
        rem < n,
        m2_rem < n,
        new_mean == stepped_mean(mean as nat, rem as nat, d as nat, (n + 1) as nat),
        new_rem == stepped_rem(mean as nat, rem as nat, d as nat, (n + 1) as nat),
    ensures
        out.1 == carried(mean as nat, rem as nat, m2_rem as nat, d as nat, n as nat) % (n + 1),
        match out.0 {
            Some(inc) => inc == carried(mean as nat, rem as nat, m2_rem as nat, d as nat, n as nat)
                / (n + 1),
            None => carried(mean as nat, rem as nat, m2_rem as nat, d as nat, n as nat) / (n + 1)
                > u128::MAX,
        },
{
    let ghost w = carried(mean as nat, rem as nat, m2_rem as nat, d as nat, n as nat);
    let nn: u128 = n as u128;
    let big: u128 = nn + 1;
    let r: u128 = rem as u128;
    assert(m2_rem + r * r <= (n - 1) * n) by (nonlinear_arith)
        requires
            0 <= r <= n - 1,
            0 <= m2_rem <= n - 1,
            n >= 1,
    ;
    assert((n - 1) * n <= u128::MAX) by (nonlinear_arith)
        requires
            1 <= n <= 0xFFFF_FFFF_FFFF_FFFF,
    ;
    let sq: u128 = m2_rem as u128 + r * r;
    let k: u128 = sq / nn;
    let ghost kr: int = (sq % nn) as int;
    proof {
        lemma_fundamental_div_mod(sq as int, nn as int);
        assert(k <= n - 1) by (nonlinear_arith)
            requires
                sq == nn * k + kr,
                kr >= 0,
                sq <= (n - 1) * n,
                nn == n,
                n >= 1,
        ;
        lemma_stepped_mean_between(mean as nat, rem as nat, d as nat, (n + 1) as nat);
        assert(new_mean * (n + 1) + new_rem == mean * n + rem + d) by (nonlinear_arith)
            requires
                new_mean * ((n + 1) as nat) + new_rem == mean * ((n + 1) as nat) + rem + d - mean,
        ;
        lemma_carried_split(
            mean as nat,
            rem as nat,
            m2_rem as nat,
            d as nat,
            n as nat,
            new_mean as nat,
            new_rem as nat,
            k as int,
            kr,
        );
        lemma_carried_sign(mean as nat, rem as nat, m2_rem as nat, d as nat, n as nat);
    }
    let lo: u128 = m2_rem as u128 + k;
    let g: u64 = if d >= mean { d - mean } else { mean - d };
    let g2: u64 = if d >= new_mean { d - new_mean } else { new_mean - d };
    assert(g * g2 <= u128::MAX) by (nonlinear_arith)
        requires
            g <= 0xFFFF_FFFF_FFFF_FFFF,
            g2 <= 0xFFFF_FFFF_FFFF_FFFF,
    ;
    let base: u128 = g as u128 * g2 as u128;
    let (u1, v1): (u128, u128) = split_product(g, rem, big);
    let (u2, v2): (u128, u128) = split_product(g, new_rem, big);
    let ghost a: int = d - mean;
    let ghost b: int = d - new_mean;
    let ghost y: int = m2_rem + k - a * (rem + new_rem);
    assert(a * b == base) by (nonlinear_arith)
        requires
            base == g * g2,
            (a == g && b == g2) || (a == -g && b == -g2) || (a == 0 && g == 0) || (b == 0 && g2
                == 0),
    ;
    assert(w == big * base + y);
    if d >= mean {
        assert(y == lo - (v1 + v2) - big * (u1 + u2)) by (nonlinear_arith)
            requires
                y == m2_rem + k - a * (rem + new_rem),
                lo == m2_rem + k,
                a == g,
                g * rem == big * u1 + v1,
                g * new_rem == big * u2 + v2,
        ;
        let hi: u128 = v1 + v2;
        let (up, down, left): (u128, u128, u128) = if lo >= hi {
            ((lo - hi) / big, u1 + u2, (lo - hi) % big)
        } else {
            let lack: u128 = hi - lo;
            if lack % big == 0 {
                (0u128, u1 + u2 + lack / big, 0u128)
            } else {
                (0u128, u1 + u2 + lack / big + 1, big - lack % big)
            }
        };
        proof {
            let e: int = up - (down - (u1 + u2));
            if lo >= hi {
                lemma_fundamental_div_mod((lo - hi) as int, big as int);
                assert(e == (lo - hi) as int / (big as int));
                assert(lo - hi == big * e + left);
            } else {
                let lack: int = hi - lo;
                let q: int = lack / (big as int);
                let m: int = lack % (big as int);
                lemma_fundamental_div_mod(lack, big as int);
                if m == 0 {
                    assert(e == -q);
                    assert(lo - hi == big * e + left) by (nonlinear_arith)
                        requires
                            lack == big * q + m,
                            m == 0,
                            left == 0,
                            e == -q,
                            lo - hi == -lack,
                    ;
                } else {
                    assert(e == -q - 1);
                    assert(lo - hi == big * e + left) by (nonlinear_arith)
                        requires
                            lack == big * q + m,
                            left == big - m,
                            e == -q - 1,
                            lo - hi == -lack,
                    ;
                }
            }
            assert(w == (base + up - down) * big + left) by (nonlinear_arith)
                requires
                    w == big * base + y,
                    y == lo - hi - big * (u1 + u2),
                    lo - hi == big * e + left,
                    e == up - (down - (u1 + u2)),
            ;
            lemma_fundamental_div_mod_converse(w, big as int, base + up - down, left as int);
        }
        if base >= down {
            ((base - down).checked_add(up), left as u64)
        } else {
            (Some(up - (down - base)), left as u64)
        }
    } else {
        assert(y == lo + (v1 + v2) + big * (u1 + u2)) by (nonlinear_arith)
            requires
                y == m2_rem + k - a * (rem + new_rem),
                lo == m2_rem + k,
                a == -g,
                g * rem == big * u1 + v1,
                g * new_rem == big * u2 + v2,
        ;
        let tot: u128 = lo + v1 + v2;
        let up: u128 = u1 + u2 + tot / big;
        let left: u128 = tot % big;
        proof {
            lemma_fundamental_div_mod(tot as int, big as int);
            assert(w == (base + up) * big + left) by (nonlinear_arith)
                requires
                    w == big * base + y,
                    y == tot + big * (u1 + u2),
                    tot == big * (up - (u1 + u2)) + left,
            ;
            lemma_fundamental_div_mod_converse(w, big as int, base + up, left as int);
        }
        (base.checked_add(up), left as u64)
    }
}

impl Stats {
    /// The statistics of a scope that no call has completed in.
    pub fn new() -> (stats: Stats)
        ensures
            stats@ == StatsModel::initial(),
            stats@.wf(),
    {
        Stats {
            calls: 0,
            sum: 0,
            min: u64::MAX,
            max: 0,
            last: 0,
            mean: 0,
            rem: 0,
            m2: 0,
            m2_rem: 0,
        }
    }

    /// Records one completed call of `d` nanoseconds.
    pub fn record(&mut self, d: u64)
        requires
            old(self)@.wf(),
        ensures
            final(self)@ == old(self)@.recorded(d as nat),
            final(self)@.wf(),
    {
        proof {
            lemma_recorded_wf(self@, d as nat);
        }
        let n: u64 = self.calls;
        self.sum = self.sum.saturating_add(d);
        self.min = if d < self.min { d } else { self.min };
        self.max = if d > self.max { d } else { self.max };
        self.last = d;
        if n < u64::MAX {
            let (new_mean, new_rem): (u64, u64) = mean_step(self.mean, self.rem, d, n + 1);
            if n >= 1 {
                let (grown, left): (Option<u128>, u64) = deviation_step(
                    self.mean,
                    self.rem,
                    self.m2_rem,
                    d,
                    n,
                    new_mean,
                    new_rem,
                );
                self.m2 = match grown {
                    Some(inc) => self.m2.saturating_add(inc),
                    None => u128::MAX,
                };
                self.m2_rem = left;
            }
            self.calls = n + 1;
            self.mean = new_mean;
            self.rem = new_rem;
        }
    }

    /// The number of completed calls.
    pub fn num_calls(&self) -> (n: u64)
        ensures
            n == self@.calls,
    {
        self.calls
    }

    /// The sum of all durations, stopping at the largest `u64`.
    pub fn dur_sum(&self) -> (d: u64)
        ensures
            d == self@.sum,
    {
        self.sum
    }

    /// The smallest duration, the largest `u64` before the first call.
    pub fn dur_min(&self) -> (d: u64)
        ensures
            d == self@.min,
    {
        self.min
    }

    /// The largest duration.
    pub fn dur_max(&self) -> (d: u64)
        ensures
            d == self@.max,
    {
        self.max
    }

    /// The duration of the most recent call.
    pub fn dur_last(&self) -> (d: u64)
        ensures
            d == self@.last,
    {
        self.last
    }

    /// What the division of the sum of the durations by their number leaves
    /// beside the streaming mean.
    pub fn dur_rem(&self) -> (r: u64)
        ensures
            r == self@.rem,
    {
        self.rem
    }

    /// The streaming mean of the durations.
    pub fn dur_mean(&self) -> (d: u64)
        ensures
            d == self@.mean,
    {
        self.mean
    }

    /// The standard deviation of the durations, rounded down: the square
    /// root of the mean squared deviation. Zero before the first call.
    pub fn std_dev(&self) -> (d: u64)
        ensures
            d as nat == if self@.calls == 0 {
                0
            } else {
                sqrt_floor(self@.m2 / self@.calls)
            },
    {
        if self.calls == 0 {
            0
        } else {
            isqrt(self.m2 / self.calls as u128)
        }
    }

    /// The sum of the squared distances of the durations from their exact
    /// mean, rounded down, stopping at the largest `u128`.
    pub fn dur_m2(&self) -> (m: u128)
        ensures
            m == self@.m2,
    {
        self.m2
    }

    /// What the sum of squared deviations leaves beside its whole part, in
    /// parts of the number of calls.
    pub fn dur_m2_rem(&self) -> (r: u64)
        ensures
            r == self@.m2_rem,
    {
        self.m2_rem
    }
}

} // verus!
