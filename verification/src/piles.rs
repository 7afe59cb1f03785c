//! How far rounding carries a sum of many copies of one number.
//!
//! Every addition moves the sum by at most half the distance of its neighbors, so
//! the error of a sum grows with its square. It does not grow as fast as that
//! allows: all sums within an octave are moved alike, by the distance of the number
//! from the multiples of that octave's spacing. Where that distance carries the sums
//! of one octave up most, those of the octave below it are held back, by as much as
//! the sums of all octaves before were carried up.
use vstd::prelude::*;

use crate::rounding::OCTAVE;
use crate::scalar::{scalar, zero, Scalar};

verus! {

/// The sum of `k` copies of a number, added one after the other.
pub open spec fn pile(c: Scalar, k: nat) -> Scalar
    decreases k,
{
    if k == 0 {
        zero()
    } else {
        pile(c, (k - 1) as nat).add(c)
    }
}

/// A number whose piles of up to `most_copies` neither overflow nor lose digits.
pub open spec fn pilable(c: Scalar) -> bool {
    &&& scalar(OCTAVE).le(c)
    &&& c.le(scalar(0x7180_0000))  // 1267650600228229401496703205376.0
}

pub open spec fn most_copies() -> int {
    0x40_0000
}

/// The octave of a number.
spec fn octave(x: Scalar) -> int {
    x.magnitude() / OCTAVE as int
}

/// The distance of the numbers in an octave.
spec fn step_of(octave: int) -> int {
    crate::rounding::p2(octave - 1)
}

/// The first number of an octave.
spec fn bottom(octave: int) -> int {
    OCTAVE * step_of(octave)
}

proof fn lemma_octave_of(x: Scalar) -> (m: int)
    requires
        x.finite(),
        !x.negative(),
        x.magnitude() >= OCTAVE,
    ensures
        octave(x) >= 1,
        step_of(octave(x)) > 0,
        x.units() == m * step_of(octave(x)),
        bottom(octave(x)) <= x.units() < 2 * bottom(octave(x)),
        OCTAVE <= m < 2 * OCTAVE,
{
    let code = x.magnitude();
    let o = code / OCTAVE as int;
    let m = code % OCTAVE as int + OCTAVE;
    crate::rounding::lemma_p2_pos(o - 1);
    let p = step_of(o);
    assert(OCTAVE * p <= m * p < 2 * (OCTAVE * p)) by (nonlinear_arith)
        requires
            OCTAVE <= m < 2 * OCTAVE,
            p > 0,
    ;
    m
}

/// A later octave starts higher and has larger steps.
proof fn lemma_octaves_grow(a: int, b: int)
    requires
        1 <= a < b,
    ensures
        step_of(a) > 0,
        2 * step_of(a) <= step_of(b),
        2 * bottom(a) <= bottom(b),
{
    crate::rounding::lemma_p2_pos(a - 1);
    crate::rounding::lemma_p2_step(a - 1);
    crate::rounding::lemma_p2_monotone(a, b - 1);
}

proof fn lemma_octave_order(x: Scalar, y: Scalar)
    requires
        x.finite(),
        y.finite(),
        !x.negative(),
        !y.negative(),
        x.magnitude() >= OCTAVE,
        x.units() <= y.units(),
    ensures
        y.magnitude() >= OCTAVE,
        octave(x) <= octave(y),
{
    crate::order::lemma_order_of_values(x, y);
}

/// One addition.
spec fn steps(x: Scalar, c: Scalar, y: Scalar) -> bool {
    &&& x.finite()
    &&& c.finite()
    &&& y.finite()
    &&& !x.negative()
    &&& !c.negative()
    &&& !y.negative()
    &&& x.magnitude() >= OCTAVE
    &&& c.magnitude() >= OCTAVE
    &&& y == x.add(c)
}

proof fn lemma_step_order(x: Scalar, c: Scalar, y: Scalar)
    requires
        steps(x, c, y),
    ensures
        x.units() > 0,
        c.units() > 0,
        x.units() <= y.units(),
        y.magnitude() >= OCTAVE,
        octave(x) <= octave(y),
        0x100_0000 * (y.units() - x.units() - c.units()) <= x.units() + c.units(),
        y.magnitude() == crate::rounding::nearest(x.units() + c.units(), 1),
        crate::rounding::rounds_to(x.units() + c.units(), 1, y.magnitude()),
{
    crate::rounding::lemma_grid_monotone(1, x.magnitude());
    crate::rounding::lemma_grid_monotone(1, c.magnitude());
    crate::order::lemma_sum_bounds(x, c, x);
    crate::order::lemma_order_of_values(x, y);
    lemma_octave_order(x, y);
    crate::order::lemma_sum_error(x, c);
    crate::rounding::lemma_nearest_exists(x.units() + c.units(), 1);
}

/// An addition is off by at most half a step of the octave it ends in.
proof fn lemma_half_step(x: Scalar, c: Scalar, y: Scalar)
    requires
        steps(x, c, y),
    ensures
        2 * (y.units() - x.units() - c.units()) <= step_of(octave(y)),
{
    let code = y.magnitude();
    let o = octave(y);
    lemma_step_order(x, c, y);
    let m = lemma_octave_of(y);
    let p = step_of(o);
    let down = crate::rounding::grid(code - 1);
    assert(y.units() - p <= down) by {
        if code % OCTAVE as int == 0 {
            if code > OCTAVE {
                crate::rounding::lemma_p2_pos(o - 2);
                crate::rounding::lemma_p2_step(o - 2);
                let half = step_of(o - 1);
                assert((code - 1) / OCTAVE as int == o - 1 && (code - 1) % OCTAVE as int == OCTAVE - 1);
                assert(down == (2 * OCTAVE - 1) * half);
                assert(y.units() == OCTAVE * (2 * half));
            } else {
                crate::rounding::lemma_p2_values();
            }
        } else {
            assert((code - 1) / OCTAVE as int == o && (code - 1) % OCTAVE as int == code % OCTAVE as int - 1);
            let mantissa = code % OCTAVE as int + OCTAVE;
            assert(down == (mantissa - 1) * p);
            assert(y.units() == mantissa * p);
            assert((mantissa - 1) * p == mantissa * p - p) by (nonlinear_arith);
        }
    }
    assert((down + y.units()) * 1 == down + y.units());
}

/// What an addition within an octave adds at most: the nearest multiple of the
/// octave's step, the larger one of two.
spec fn increment(c: int, o: int) -> int {
    (2 * c + step_of(o)) / (2 * step_of(o)) * step_of(o)
}

proof fn lemma_increment(c: int, o: int)
    requires
        o >= 1,
    ensures
        2 * (increment(c, o) - c) <= step_of(o),
        2 * (c - increment(c, o)) < step_of(o),
{
    let p = step_of(o);
    let n = (2 * c + p) / (2 * p);
    crate::rounding::lemma_p2_pos(o - 1);
    vstd::arithmetic::div_mod::lemma_fundamental_div_mod(2 * c + p, 2 * p);
    vstd::arithmetic::div_mod::lemma_mod_bound(2 * c + p, 2 * p);
    assert((2 * p) * n == 2 * (n * p)) by (nonlinear_arith);
}

/// Within an octave, an addition adds at most the increment.
proof fn lemma_same_octave(x: Scalar, c: Scalar, y: Scalar)
    requires
        steps(x, c, y),
        octave(x) == octave(y),
    ensures
        y.units() - x.units() <= increment(c.units(), octave(x)),
{
    let o = octave(x);
    let p = step_of(o);
    lemma_step_order(x, c, y);
    lemma_half_step(x, c, y);
    let m = lemma_octave_of(x);
    let n = lemma_octave_of(y);
    let d = n - m;
    let v = c.units();
    assert(d * p == n * p - m * p) by (nonlinear_arith)
        requires
            d == n - m,
    ;
    let q = (2 * v + p) / (2 * p);
    vstd::arithmetic::div_mod::lemma_fundamental_div_mod(2 * v + p, 2 * p);
    vstd::arithmetic::div_mod::lemma_mod_bound(2 * v + p, 2 * p);
    assert(d <= q) by (nonlinear_arith)
        requires
            2 * (d * p) <= 2 * v + p,
            2 * v + p < (2 * p) * q + 2 * p,
            p > 0,
    ;
    assert(d * p <= q * p) by (nonlinear_arith)
        requires
            d <= q,
            p > 0,
    ;
}

/// Where an octave carries sums up, and farther than the one below it, the one
/// below does not carry them up.
proof fn lemma_trade(c: int, o: int)
    requires
        o >= 1,
        increment(c, o) < increment(c, o + 1),
    ensures
        increment(c, o) <= c,
{
    let p = step_of(o);
    crate::rounding::lemma_p2_pos(o - 1);
    crate::rounding::lemma_p2_step(o - 1);
    lemma_increment(c, o + 1);
    let (a, b) = ((2 * c + p) / (2 * p), (2 * c + 2 * p) / (2 * (2 * p)));
    assert(increment(c, o) == a * p && increment(c, o + 1) == b * (2 * p));
    assert(a < 2 * b) by (nonlinear_arith)
        requires
            a * p < b * (2 * p),
            p > 0,
    ;
    assert(a * p <= b * (2 * p) - p) by (nonlinear_arith)
        requires
            a <= 2 * b - 1,
            p > 0,
    ;
}

/// The octave whose sums are carried up most, out of those from a number's own up
/// to `top`, and by how much: below it, sums are not carried up.
spec fn steepest(c: int, own: int, top: int, j: int, most: int) -> bool {
    &&& own <= j <= top
    &&& c <= most
    &&& 2 * (most - c) <= step_of(j)
    &&& forall|i: int| own <= i <= top ==> #[trigger] increment(c, i) <= most
    &&& j > own ==> increment(c, j - 1) <= c
}

proof fn lemma_steepest(c: Scalar, top: int) -> (r: (int, int))
    requires
        c.finite(),
        !c.negative(),
        c.magnitude() >= OCTAVE,
        octave(c) <= top,
    ensures
        steepest(c.units(), octave(c), top, r.0, r.1),
    decreases top,
{
    let (v, own) = (c.units(), octave(c));
    let m = lemma_octave_of(c);
    if top == own {
        let p = step_of(own);
        lemma_increment(v, own);
        let n = (2 * v + p) / (2 * p);
        let d = n - m;
        assert(d * p == n * p - m * p) by (nonlinear_arith)
            requires
                d == n - m,
        ;
        assert(d == 0) by (nonlinear_arith)
            requires
                2 * (d * p) <= p,
                -2 * (d * p) < p,
                p > 0,
        ;
        assert(increment(v, own) == v);
        (own, v)
    } else {
        let (j, most) = lemma_steepest(c, top - 1);
        let last = increment(v, top);
        if last <= most {
            (j, most)
        } else {
            assert(increment(v, top - 1) <= most);
            lemma_trade(v, top - 1);
            lemma_increment(v, top);
            (top, last)
        }
    }
}

/// The piles do not overflow.
proof fn lemma_pile_finite(c: Scalar, k: nat)
    requires
        pilable(c),
        1 <= k <= most_copies(),
    ensures
        c.finite(),
        !c.negative(),
        c.magnitude() >= OCTAVE,
        pile(c, k).finite(),
        !pile(c, k).negative(),
        pile(c, k).magnitude() >= OCTAVE,
        c.units() <= pile(c, k).units(),
        0x100_0000 * pile(c, k).units() <= c.units() * (0x100_0000 * k + k * k),
        k > 1 ==> steps(pile(c, (k - 1) as nat), c, pile(c, k)),
    decreases k,
{
    let v = c.units();
    assert(c.finite() && !c.negative() && c.magnitude() >= OCTAVE);
    crate::rounding::lemma_grid_monotone(1, c.magnitude());
    if k == 1 {
        assert(pile(c, 1) == zero().add(c)) by {
            assert(pile(c, 0) == zero());
        }
        crate::scalar::lemma_self_rounding(c);
        assert(zero().add(c) == c) by {
            assert(v * 1 == v);
        }
        assert(v * (0x100_0000 * 1 + 1 * 1) >= 0x100_0000 * v) by (nonlinear_arith)
            requires
                v > 0,
        ;
    } else {
        let n = (k - 1) as nat;
        lemma_pile_finite(c, n);
        lemma_pile_bounded(c, pile(c, n), n as int);
        crate::order::lemma_sum_error(pile(c, n), c);
        lemma_quadratic(v, n as int, pile(c, n).units(), pile(c, k).units());
    }
}

proof fn lemma_pile_bounded(c: Scalar, x: Scalar, n: int)
    requires
        pilable(c),
        1 <= n < most_copies(),
        x.finite(),
        !x.negative(),
        x.magnitude() >= OCTAVE,
        0x100_0000 * x.units() <= c.units() * (0x100_0000 * n + n * n),
        c.units() <= x.units(),
    ensures
        x.add(c).finite(),
        !x.add(c).negative(),
        x.add(c).magnitude() >= OCTAVE,
        x.units() <= x.add(c).units(),
{
    let v = c.units();
    let (high, far) = (scalar(0x7180_0000), scalar(0x7e80_0000));  // 1267650600228229401496703205376.0, 85070591730234615865843651857942052864.0
    crate::order::lemma_order_of_values(c, high);
    crate::order::lemma_power_of_two(100);
    crate::order::lemma_power_of_two(126);
    crate::rounding::lemma_p2_adds(26, 100);
    crate::rounding::lemma_p2_pos(149);
    crate::rounding::lemma_p2_pos(100);
    vstd::arithmetic::power2::lemma2_to64();
    let h = high.units();
    let unit = crate::scalar::one_units();
    assert(far.units() == 0x400_0000 * h) by {
        let q = crate::rounding::p2(100);
        assert((0x400_0000 * q) * unit == 0x400_0000 * (q * unit)) by (nonlinear_arith);
    }
    crate::rounding::lemma_grid_monotone(1, c.magnitude());
    assert(v * (0x100_0000 * n + n * n) <= v * (0x100_0000 * 0x80_0000)) by (nonlinear_arith)
        requires
            1 <= n < 0x40_0000,
            v > 0,
    ;
    assert(v * (0x100_0000 * 0x80_0000) == 0x100_0000 * (0x80_0000 * v)) by (nonlinear_arith);
    assert(x.units() <= 0x80_0000 * v);
    crate::order::lemma_sum_bounds(x, c, far);
    crate::order::lemma_sum_bounds(x, c, x);
    crate::order::lemma_order_of_values(x.add(c), far);
    crate::order::lemma_order_of_values(x, x.add(c));
}

proof fn lemma_quadratic(v: int, n: int, x: int, y: int)
    requires
        v > 0,
        1 <= n < most_copies(),
        0x100_0000 * x <= v * (0x100_0000 * n + n * n),
        0x100_0000 * crate::order::gap(y, x + v) <= crate::order::gap(x + v, 0),
        x >= 0,
    ensures
        0x100_0000 * y <= v * (0x100_0000 * (n + 1) + (n + 1) * (n + 1)),
{
    let big = 0x100_0000int;
    let k = n + 1;
    let a = v * (big * n + n * n) + big * v;
    // Both the sum and its error are bounded by the same.
    assert(big * (x + v) <= a);
    assert(big * (big * y) <= (big + 1) * a);
    let b = v * (big * k + k * k);
    assert(a == v * (big * k + n * n)) by (nonlinear_arith)
        requires
            a == v * (big * n + n * n) + big * v,
            k == n + 1,
    ;
    let (nn, kk) = (n * n, k * k);
    assert(kk == nn + 2 * n + 1) by (nonlinear_arith)
        requires
            kk == k * k,
            nn == n * n,
            k == n + 1,
    ;
    assert(nn <= 0x40_0000 * n) by (nonlinear_arith)
        requires
            nn == n * n,
            0 <= n < 0x40_0000,
    ;
    assert((big + 1) * (big * k + nn) <= big * (big * k + kk));
    assert((big + 1) * a <= big * b) by (nonlinear_arith)
        requires
            a == v * (big * k + nn),
            b == v * (big * k + kk),
            (big + 1) * (big * k + nn) <= big * (big * k + kk),
            v > 0,
    ;
}

/// By how much the octave below the steepest one holds sums back, each time.
spec fn held_back(v: int, j: int) -> int {
    v - increment(v, j - 1)
}

/// Far below the steepest octave, sums are carried up by no more than the octave
/// right below it holds them back.
proof fn lemma_low_increment(v: int, i: int, j: int)
    requires
        1 <= i <= j - 2,
        increment(v, j - 1) <= v,
    ensures
        increment(v, i) <= v + held_back(v, j),
{
    let (p, q) = (step_of(i), step_of(j - 1));
    let up = crate::rounding::p2(j - 1 - i);
    crate::rounding::lemma_p2_pos(i - 1);
    crate::rounding::lemma_p2_adds(j - 1 - i, i - 1);
    lemma_increment(v, i);
    let (n, m) = ((2 * v + p) / (2 * p), (2 * v + q) / (2 * q));
    let all = m * up;
    assert(m * q == all * p) by (nonlinear_arith)
        requires
            q == up * p,
            all == m * up,
    ;
    if n * p > v {
        assert(n > all) by (nonlinear_arith)
            requires
                n * p > all * p,
                p > 0,
        ;
        assert(n * p >= all * p + p) by (nonlinear_arith)
            requires
                n >= all + 1,
                p > 0,
        ;
    }
}

/// How far ahead of its copies a pile is, less one step.
spec fn ahead(v: int, t: int, k: int, o: int) -> int {
    t - k * v - step_of(o)
}

/// How far a pile is ahead, below the steepest octave and from there on.
spec fn tamed(c: Scalar, k: nat, j: int) -> bool {
    let (v, t, o) = (c.units(), pile(c, k).units(), octave(pile(c, k)));
    let (p, b, s) = (step_of(j), bottom(j), step_of(o));
    &&& o <= j - 2 ==> v * ahead(v, t, k as int, o) <= held_back(v, j) * t
    &&& o == j - 1 ==> v * ahead(v, t, k as int, o) <= held_back(v, j) * (b - t + 2 * v)
    &&& o >= j ==> 2 * (v * (t - s - p)) <= k * (v * (2 * v + p)) - b * p + p * (s + p)
}

/// What stays the same along all piles up to octave `top`.
spec fn setting(c: Scalar, top: int, j: int, most: int) -> bool {
    &&& pilable(c)
    &&& steepest(c.units(), octave(c), top, j, most)
    &&& step_of(top) <= c.units()
}

proof fn lemma_setting(c: Scalar, top: int, j: int, most: int)
    requires
        setting(c, top, j, most),
    ensures
        c.finite(),
        !c.negative(),
        c.magnitude() >= OCTAVE,
        octave(c) >= 1,
        c.units() > 0,
        step_of(j) > 0,
        step_of(j) <= c.units(),
        bottom(j) > 0,
        j > octave(c) ==> held_back(c.units(), j) >= 0 && 4 * held_back(c.units(), j) <= step_of(j),
{
    lemma_octave_of(c);
    crate::rounding::lemma_grid_monotone(1, c.magnitude());
    crate::rounding::lemma_p2_pos(j - 1);
    if j < top {
        lemma_octaves_grow(j, top);
    }
    if j > octave(c) {
        lemma_increment(c.units(), j - 1);
        crate::rounding::lemma_p2_step(j - 2);
    }
}

/// One more copy: what was added, and the step of where it ends.
spec fn added(c: Scalar, n: nat) -> int {
    pile(c, n + 1).units() - pile(c, n).units() - c.units()
}

proof fn lemma_next_pile(c: Scalar, n: nat)
    requires
        pilable(c),
        1 <= n < most_copies(),
    ensures
        steps(pile(c, n), c, pile(c, n + 1)),
        0 < c.units() <= pile(c, n).units() <= pile(c, n + 1).units(),
        1 <= octave(pile(c, n)) <= octave(pile(c, n + 1)),
        2 * added(c, n) <= step_of(octave(pile(c, n + 1))),
        octave(pile(c, n)) == octave(pile(c, n + 1)) ==> added(c, n) + c.units() <= increment(
            c.units(),
            octave(pile(c, n)),
        ),
        octave(pile(c, n)) < octave(pile(c, n + 1)) ==> 2 * step_of(octave(pile(c, n))) <= step_of(
            octave(pile(c, n + 1)),
        ),
        ({
            let k = (n + 1) as int;
            let (v, x, y) = (c.units(), pile(c, n).units(), pile(c, n + 1).units());
            let (i, o) = (octave(pile(c, n)), octave(pile(c, n + 1)));
            &&& i == o ==> ahead(v, y, k, o) == ahead(v, x, n as int, i) + added(c, n)
            &&& i < o ==> ahead(v, y, k, o) <= ahead(v, x, n as int, i)
        }),
{
    let (x, y) = (pile(c, n), pile(c, n + 1));
    lemma_pile_finite(c, n);
    lemma_pile_finite(c, n + 1);
    lemma_step_order(x, c, y);
    lemma_half_step(x, c, y);
    lemma_octave_of(x);
    if octave(x) == octave(y) {
        lemma_same_octave(x, c, y);
    } else {
        lemma_octaves_grow(octave(x), octave(y));
    }
    let (k, v) = (n + 1, c.units());
    assert(k * v == n * v + v) by (nonlinear_arith)
        requires
            k == n + 1,
    ;
}

/// A pile within its octave.
proof fn lemma_pile_place(c: Scalar, k: nat)
    requires
        pilable(c),
        1 <= k <= most_copies(),
    ensures
        bottom(octave(pile(c, k))) <= pile(c, k).units() < 2 * bottom(octave(pile(c, k))),
        step_of(octave(pile(c, k))) > 0,
{
    lemma_pile_finite(c, k);
    lemma_octave_of(pile(c, k));
}

/// Two or more octaves below the steepest one.
proof fn lemma_tamed_low(c: Scalar, n: nat, top: int, j: int, most: int)
    requires
        setting(c, top, j, most),
        1 <= n < most_copies(),
        j > octave(c),
        octave(pile(c, n + 1)) <= j - 2,
        tamed(c, n, j),
    ensures
        tamed(c, n + 1, j),
{
    let (v, x, y) = (c.units(), pile(c, n).units(), pile(c, n + 1).units());
    let (i, o) = (octave(pile(c, n)), octave(pile(c, n + 1)));
    let (d, e) = (held_back(v, j), added(c, n));
    lemma_setting(c, top, j, most);
    lemma_next_pile(c, n);
    let (before, after) = (ahead(v, x, n as int, i), ahead(v, y, n as int + 1, o));
    assert(d * x <= d * y) by (nonlinear_arith)
        requires
            d >= 0,
            x <= y,
    ;
    if i == o {
        lemma_low_increment(v, i, j);
        assert(v * after == v * before + v * e) by (nonlinear_arith)
            requires
                after == before + e,
        ;
        assert(d * y == d * x + d * (v + e)) by (nonlinear_arith)
            requires
                y == x + v + e,
        ;
        assert(v * e <= d * (v + e)) by (nonlinear_arith)
            requires
                v > 0,
                e <= d,
                d >= 0,
                v + e >= 0,
        ;
    } else {
        lemma_scaled(v, after, before);
    }
}

proof fn lemma_scaled(v: int, a: int, b: int)
    requires
        v >= 0,
        a <= b,
    ensures
        v * a <= v * b,
{
    assert(v * a <= v * b) by (nonlinear_arith)
        requires
            v >= 0,
            a <= b,
    ;
}

/// In the octave below the steepest one.
proof fn lemma_tamed_below(c: Scalar, n: nat, top: int, j: int, most: int)
    requires
        setting(c, top, j, most),
        1 <= n < most_copies(),
        j > octave(c),
        octave(pile(c, n + 1)) == j - 1,
        tamed(c, n, j),
    ensures
        tamed(c, n + 1, j),
{
    let (v, x, y) = (c.units(), pile(c, n).units(), pile(c, n + 1).units());
    let (i, o) = (octave(pile(c, n)), octave(pile(c, n + 1)));
    let (d, e, b) = (held_back(v, j), added(c, n), bottom(j));
    lemma_setting(c, top, j, most);
    lemma_next_pile(c, n);
    let (before, after) = (ahead(v, x, n as int, i), ahead(v, y, n as int + 1, o));
    if i == o {
        assert(v * after == v * before + v * e) by (nonlinear_arith)
            requires
                after == before + e,
        ;
        assert(d * (b - y + 2 * v) == d * (b - x + 2 * v) - d * (v + e)) by (nonlinear_arith)
            requires
                y == x + v + e,
        ;
        assert(v * e <= -(d * (v + e))) by (nonlinear_arith)
            requires
                v > 0,
                e <= -d,
                d >= 0,
                v + e >= 0,
        ;
    } else {
        lemma_pile_place(c, n);
        lemma_octaves_grow(i, j - 1);
        crate::rounding::lemma_p2_step(j - 2);
        assert(2 * bottom(j - 1) == b);
        assert(x + y <= b + 2 * v);
        lemma_scaled(v, after, before);
        assert(d * x <= d * (b - y + 2 * v)) by (nonlinear_arith)
            requires
                d >= 0,
                x <= b - y + 2 * v,
        ;
    }
}

/// From below into the steepest octave or past it.
proof fn lemma_tamed_entry(c: Scalar, n: nat, top: int, j: int, most: int)
    requires
        setting(c, top, j, most),
        1 <= n < most_copies(),
        octave(c) <= octave(pile(c, n)) < j,
        j <= octave(pile(c, n + 1)) <= top,
        tamed(c, n, j),
    ensures
        tamed(c, n + 1, j),
{
    let k = n + 1;
    let (v, x, y) = (c.units(), pile(c, n).units(), pile(c, k).units());
    let (i, o) = (octave(pile(c, n)), octave(pile(c, k)));
    let (d, p, b, s) = (held_back(v, j), step_of(j), bottom(j), step_of(o));
    lemma_setting(c, top, j, most);
    lemma_next_pile(c, n);
    lemma_pile_place(c, n);
    lemma_pile_place(c, k);
    if o < top {
        lemma_octaves_grow(o, top);
    }
    if j < o {
        lemma_octaves_grow(j, o);
    }
    let (before, after) = (ahead(v, x, n as int, i), ahead(v, y, k as int, o));
    lemma_scaled(v, after, before);
    assert(2 * (b - x) <= 2 * v + s);
    assert(v * before <= d * (4 * v)) by {
        if i == j - 1 {
            assert(d * (b - x + 2 * v) <= d * (4 * v)) by (nonlinear_arith)
                requires
                    d >= 0,
                    b - x + 2 * v <= 4 * v,
            ;
        } else {
            lemma_octaves_grow(i, j - 1);
            crate::rounding::lemma_p2_step(j - 2);
            assert(2 * bottom(j - 1) == b);
            assert(x <= 4 * v);
            assert(d * x <= d * (4 * v)) by (nonlinear_arith)
                requires
                    d >= 0,
                    x <= 4 * v,
            ;
        }
    }
    assert(after <= p) by (nonlinear_arith)
        requires
            v * after <= d * (4 * v),
            4 * d <= p,
            v > 0,
    ;
    let kv = k * v;
    assert(y - s - p <= kv && b - s - p <= kv);
    assert(2 * (v * (y - s - p)) <= 2 * (v * kv)) by (nonlinear_arith)
        requires
            y - s - p <= kv,
            v > 0,
    ;
    assert(k * (v * (2 * v + p)) == 2 * (v * kv) + p * kv) by (nonlinear_arith)
        requires
            kv == k * v,
    ;
    assert(p * kv - b * p + p * (s + p) >= 0) by (nonlinear_arith)
        requires
            b - s - p <= kv,
            p > 0,
    ;
}

/// In the steepest octave and past it.
proof fn lemma_tamed_high(c: Scalar, n: nat, top: int, j: int, most: int)
    requires
        setting(c, top, j, most),
        1 <= n < most_copies(),
        j <= octave(pile(c, n)),
        octave(c) <= octave(pile(c, n)),
        octave(pile(c, n + 1)) <= top,
        tamed(c, n, j),
    ensures
        tamed(c, n + 1, j),
{
    let k = n + 1;
    let (v, x, y) = (c.units(), pile(c, n).units(), pile(c, k).units());
    let (i, o) = (octave(pile(c, n)), octave(pile(c, k)));
    let (p, b, e) = (step_of(j), bottom(j), added(c, n));
    let (q, s) = (step_of(i), step_of(o));
    lemma_setting(c, top, j, most);
    lemma_next_pile(c, n);
    let (l, m) = (x - q - p, y - s - p);
    assert(k * (v * (2 * v + p)) == n * (v * (2 * v + p)) + 2 * (v * v) + v * p) by (nonlinear_arith)
        requires
            k == n + 1,
    ;
    assert(v * p >= 0) by (nonlinear_arith)
        requires
            v > 0,
            p > 0,
    ;
    if i == o {
        assert(increment(v, i) <= most);
        assert(v * m == v * l + v * v + v * e) by (nonlinear_arith)
            requires
                m == l + v + e,
        ;
        assert(2 * (v * e) <= v * p) by (nonlinear_arith)
            requires
                2 * e <= p,
                v > 0,
        ;
    } else {
        assert(v * m <= v * l + v * v) by (nonlinear_arith)
            requires
                m <= l + v,
                v > 0,
        ;
        assert(p * (q + p) <= p * (s + p)) by (nonlinear_arith)
            requires
                q <= s,
                p > 0,
        ;
    }
}

proof fn lemma_tamed(c: Scalar, k: nat, top: int, j: int, most: int)
    requires
        setting(c, top, j, most),
        1 <= k <= most_copies(),
        octave(pile(c, k)) <= top,
    ensures
        tamed(c, k, j),
        octave(c) <= octave(pile(c, k)),
    decreases k,
{
    let v = c.units();
    lemma_setting(c, top, j, most);
    lemma_pile_finite(c, k);
    lemma_octave_order(c, pile(c, k));
    if k == 1 {
        assert(pile(c, 1) == c) by {
            assert(pile(c, 0) == zero());
            crate::scalar::lemma_self_rounding(c);
            assert(v * 1 == v);
        }
        lemma_tamed_first(c, top, j, most);
    } else {
        let n = (k - 1) as nat;
        let (i, o) = (octave(pile(c, n)), octave(pile(c, k)));
        lemma_next_pile(c, n);
        lemma_tamed(c, n, top, j, most);
        if o <= j - 2 {
            lemma_tamed_low(c, n, top, j, most);
        } else if o == j - 1 {
            lemma_tamed_below(c, n, top, j, most);
        } else if i < j {
            lemma_tamed_entry(c, n, top, j, most);
        } else {
            lemma_tamed_high(c, n, top, j, most);
        }
    }
}

proof fn lemma_tamed_first(c: Scalar, top: int, j: int, most: int)
    requires
        setting(c, top, j, most),
        pile(c, 1) == c,
    ensures
        tamed(c, 1, j),
{
    let (v, o) = (c.units(), octave(c));
    let (p, b, s) = (step_of(j), bottom(j), step_of(o));
    lemma_setting(c, top, j, most);
    lemma_octave_of(c);
    assert(1 * v == v && 1 * (v * (2 * v + p)) == v * (2 * v + p));
    assert(v * (v - 1 * v - s) <= 0) by (nonlinear_arith)
        requires
            v > 0,
            s > 0,
    ;
    if o < j {
        let d = held_back(v, j);
        lemma_octaves_grow(o, j);
        assert(d * v >= 0 && d * (b - v + 2 * v) >= 0) by (nonlinear_arith)
            requires
                d >= 0,
                v > 0,
                b > 0,
        ;
    } else {
        assert(b * p <= v * p) by (nonlinear_arith)
            requires
                p > 0,
                b <= v,
        ;
        assert(v * (v - s - p) <= v * v) by (nonlinear_arith)
            requires
                s > 0,
                p > 0,
                v > 0,
        ;
        assert(v * (2 * v + p) == 2 * (v * v) + v * p) by (nonlinear_arith);
        assert(p * (s + p) >= 0) by (nonlinear_arith)
            requires
                s > 0,
                p > 0,
        ;
    }
}

/// A pile of `k` copies is ahead of them by at most `k` parts in 2^26, and a little.
proof fn lemma_pile_bound(c: Scalar, k: nat)
    requires
        pilable(c),
        1 <= k <= most_copies(),
    ensures
        (0x400_0000 - 24) * pile(c, k).units() <= (k * c.units()) * (0x400_0000 + k),
{
    let (v, t, o) = (c.units(), pile(c, k).units(), octave(pile(c, k)));
    let s = step_of(o);
    lemma_pile_finite(c, k);
    lemma_pile_place(c, k);
    lemma_octave_order(c, pile(c, k));
    lemma_octave_of(c);
    crate::rounding::lemma_grid_monotone(1, c.magnitude());
    assert(t <= 0x80_0000 * v) by (nonlinear_arith)
        requires
            0x100_0000 * t <= v * (0x100_0000 * k + k * k),
            1 <= k <= 0x40_0000,
            v > 0,
    ;
    let (j, most) = lemma_steepest(c, o);
    lemma_tamed(c, k, o, j, most);
    lemma_setting(c, o, j, most);
    let p = step_of(j);
    if j < o {
        lemma_octaves_grow(j, o);
    }
    lemma_best_octave(v, t, k as int, s, p);
}

proof fn lemma_best_octave(v: int, t: int, k: int, s: int, p: int)
    requires
        0 < p <= s,
        s <= v,
        k >= 1,
        OCTAVE * s <= t,
        2 * (v * (t - s - p)) <= k * (v * (2 * v + p)) - (OCTAVE * p) * p + p * (s + p),
    ensures
        (0x400_0000 - 24) * t <= (k * v) * (0x400_0000 + k),
{
    let big = 0x200_0000int;
    let (kv, pp) = (k * v, p * p);
    let square = 0x100_0000 * p - kv;
    assert(square * square == big * (0x80_0000 * pp) - big * (kv * p) + kv * kv) by (nonlinear_arith)
        requires
            square == 0x100_0000 * p - kv,
            pp == p * p,
            big == 0x200_0000,
    ;
    assert(square * square >= 0) by (nonlinear_arith);
    assert((OCTAVE * p) * p == 0x80_0000 * pp) by (nonlinear_arith)
        requires
            pp == p * p,
            OCTAVE == 0x80_0000,
    ;
    assert(k * (v * (2 * v + p)) == 2 * (v * kv) + kv * p) by (nonlinear_arith)
        requires
            kv == k * v,
    ;
    assert(2 * (v * (t - s - p)) == 2 * (v * t) - 2 * (v * (s + p))) by (nonlinear_arith);
    assert(2 * (v * (s + p)) + p * (s + p) <= 6 * (v * s)) by (nonlinear_arith)
        requires
            0 < p <= s,
            s <= v,
    ;
    assert(kv * kv == v * (k * kv)) by (nonlinear_arith)
        requires
            kv == k * v,
    ;
    // All terms now have the factor of one copy.
    let rest = 2 * big * kv + k * kv + 6 * (big * s);
    assert(v * (2 * (big * t)) <= v * rest) by {
        assert(v * (2 * (big * t)) == big * (2 * (v * t))) by (nonlinear_arith);
        assert(v * rest == big * (2 * (v * kv)) + v * (k * kv) + big * (6 * (v * s))) by (nonlinear_arith)
            requires
                rest == 2 * big * kv + k * kv + 6 * (big * s),
        ;
    }
    assert(2 * (big * t) <= rest) by (nonlinear_arith)
        requires
            v * (2 * (big * t)) <= v * rest,
            v > 0,
    ;
    assert(kv * (0x400_0000 + k) == 0x400_0000 * kv + k * kv) by (nonlinear_arith);
}

/// Doubling a number doubles its piles.
proof fn lemma_pile_doubles(c: Scalar, x: Scalar, k: nat)
    requires
        crate::doubling::twice(c, x),
        c.units() >= 0,
    ensures
        pile(x, k) == Scalar::signed_infinity(false) || crate::doubling::twice(pile(c, k), pile(x, k)) && pile(
            c,
            k,
        ).units() >= 0,
    decreases k,
{
    if k > 0 {
        let n = (k - 1) as nat;
        lemma_pile_doubles(c, x, n);
        if pile(x, n) != Scalar::signed_infinity(false) {
            crate::doubling::lemma_twice_sum(pile(c, n), c, pile(x, n), x);
        }
    }
}

/// A pile of up to 2^22 copies of a number up to 2^100 is ahead of them by at most
/// as many parts in 2^26 as there are copies, and 24 more.
pub proof fn lemma_pile_ahead(c: Scalar, k: nat)
    requires
        zero().lt(c),
        c.le(scalar(0x7180_0000)),  // 1267650600228229401496703205376.0
        1 <= k <= most_copies(),
    ensures
        c.finite(),
        pile(c, k).finite(),
        pile(c, k).units() >= 0,
        (0x400_0000 - 24) * pile(c, k).units() <= (k * c.units()) * (0x400_0000 + k),
    decreases 2 * OCTAVE - c.magnitude(),
{
    assert(c.finite() && !c.negative());
    crate::scalar::lemma_self_rounding(c);
    if c.magnitude() >= OCTAVE {
        lemma_pile_finite(c, k);
        lemma_pile_bound(c, k);
        crate::scalar::lemma_self_rounding(pile(c, k));
    } else {
        let x = Scalar { bits: (2 * c.magnitude()) as u32 };
        crate::rounding::lemma_p2_values();
        if 2 * c.magnitude() >= OCTAVE {
            crate::rounding::lemma_grid_code(0, 2 * c.magnitude());
        }
        assert(crate::doubling::twice(c, x));
        crate::order::lemma_order_of_values(c, x);
        lemma_pile_ahead(x, k);
        lemma_pile_doubles(c, x, k);
        let (v, t) = (c.units(), pile(c, k).units());
        let m = 0x400_0000 + k;
        assert((k * (2 * v)) * m == 2 * ((k * v) * m)) by (nonlinear_arith);
    }
}

/// A sum of `k` terms, none smaller than `c`, is two thirds of them or more, less a
/// part of a step; or so large that further terms may be lost.
pub closed spec fn keeps_up(t: Scalar, k: int, c: Scalar) -> bool {
    ||| t == Scalar::signed_infinity(false)
    ||| {
        &&& t.finite()
        &&& !t.negative()
        &&& t.magnitude() >= OCTAVE
        &&& 2 * (k * c.units()) <= 3 * t.units() + step_of(octave(t)) || 0x100_0000 * c.units() <= t.units()
    }
}

/// What a sum that keeps up comes to.
pub proof fn lemma_kept_up(t: Scalar, k: int, c: Scalar)
    requires
        keeps_up(t, k, c),
        t.finite(),
    ensures
        0x80_0000 * (2 * (k * c.units())) <= 0x180_0001 * t.units() || 0x100_0000 * c.units() <= t.units(),
        t.units() > 0,
{
    lemma_octave_of(t);
    crate::rounding::lemma_grid_monotone(1, t.magnitude());
}

/// The first term keeps up.
pub proof fn lemma_first_term(x: Scalar, c: Scalar)
    requires
        scalar(OCTAVE).le(c),
        c.le(x),
        x.finite(),
    ensures
        keeps_up(zero().add(x), 1, c),
{
    crate::order::lemma_order_of_values(c, x);
    crate::scalar::lemma_self_rounding(x);
    crate::rounding::lemma_grid_monotone(1, x.magnitude());
    assert(zero().add(x) == x) by {
        assert(x.units() * 1 == x.units());
    }
    lemma_octave_of(x);
    assert(1 * c.units() == c.units());
}

/// Another term keeps a sum up.
pub proof fn lemma_next_term(t: Scalar, x: Scalar, k: int, c: Scalar)
    requires
        scalar(OCTAVE).le(c),
        c.le(x),
        x.finite(),
        keeps_up(t, k, c),
    ensures
        keeps_up(t.add(x), k + 1, c),
{
    let v = c.units();
    crate::order::lemma_order_of_values(c, x);
    assert((k + 1) * v == k * v + v) by (nonlinear_arith);
    if t.finite() {
        let (low, y) = (t.add(c), t.add(x));
        crate::rounding::lemma_grid_monotone(1, c.magnitude());
        crate::order::lemma_add_commutes(c, t);
        crate::order::lemma_add_commutes(x, t);
        crate::order::lemma_sum_monotone(c, x, t);
        crate::order::lemma_sum_bounds(t, c, t);
        crate::order::lemma_sum_bounds(t, x, t);
        if y.finite() {
            crate::order::lemma_order_of_values(t, low);
            crate::order::lemma_order_of_values(low, y);
            assert(low.finite());
            if 0x100_0000 * v > t.units() {
                lemma_gains(t, c, low);
                lemma_octave_order(low, y);
                lemma_octave_of(low);
                if octave(low) < octave(y) {
                    lemma_octaves_grow(octave(low), octave(y));
                }
            }
        }
    }
}

/// What one copy adds to a sum that is not too large for it, in thirds.
proof fn lemma_gains(x: Scalar, c: Scalar, y: Scalar)
    requires
        steps(x, c, y),
        x.units() < 0x100_0000 * c.units(),
    ensures
        3 * x.units() + step_of(octave(x)) + 2 * c.units() <= 3 * y.units() + step_of(octave(y)),
{
    let (v, i, o) = (c.units(), octave(x), octave(y));
    let (q, p) = (step_of(i), step_of(o));
    lemma_step_order(x, c, y);
    let m = lemma_octave_of(x);
    let n = lemma_octave_of(y);
    lemma_lost_step(x, c, y);
    let gain = y.units() - x.units();
    if i == o {
        // Less than half a step would be too small a number.
        assert(q < 2 * v);
        let d = n - m;
        assert(gain == d * p) by (nonlinear_arith)
            requires
                d == n - m,
                gain == n * p - m * p,
        ;
        assert(d >= 1) by (nonlinear_arith)
            requires
                2 * (d * p) >= 2 * v - p,
                p < 2 * v,
                p > 0,
        ;
        assert(gain >= p) by (nonlinear_arith)
            requires
                gain == d * p,
                d >= 1,
                p > 0,
        ;
        assert(3 * gain >= 2 * v);
    } else {
        lemma_octaves_grow(i, o);
        if p > v {
            if i < o - 1 {
                lemma_octaves_grow(i, o - 1);
                crate::rounding::lemma_p2_step(o - 2);
                assert(x.units() < bottom(o - 1) && 2 * bottom(o - 1) == bottom(o));
            }
            assert(i == o - 1);
            crate::rounding::lemma_p2_step(o - 2);
            let d = 2 * n - m;
            assert(gain == d * q) by (nonlinear_arith)
                requires
                    gain == n * p - m * q,
                    p == 2 * q,
                    d == 2 * n - m,
            ;
            assert(d >= 1) by (nonlinear_arith)
                requires
                    d * q > 0,
                    q > 0,
            ;
            assert(gain >= q) by (nonlinear_arith)
                requires
                    gain == d * q,
                    d >= 1,
                    q > 0,
            ;
        }
    }
}

/// An addition falls short by at most half a step of the octave it ends in.
proof fn lemma_lost_step(x: Scalar, c: Scalar, y: Scalar)
    requires
        steps(x, c, y),
    ensures
        2 * (x.units() + c.units() - y.units()) <= step_of(octave(y)),
{
    let code = y.magnitude();
    let o = octave(y);
    lemma_step_order(x, c, y);
    let p = step_of(o);
    let mantissa = code % OCTAVE as int + OCTAVE;
    let up = crate::rounding::grid(code + 1);
    crate::rounding::lemma_grid_code(o - 1, mantissa);
    crate::rounding::lemma_grid_code(o - 1, mantissa + 1);
    assert((o - 1) * OCTAVE + mantissa == code);
    assert((mantissa + 1) * p == mantissa * p + p) by (nonlinear_arith);
    assert(up == y.units() + p);
    assert((y.units() + up) * 1 == y.units() + up);
}

} // verus!
