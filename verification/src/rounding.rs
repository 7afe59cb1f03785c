//! Rounding of exact values to single-precision magnitudes.
//!
//! A magnitude is numbered by its bit pattern without the sign: the codes from
//! zero up to infinity stand for ever larger numbers. Every finite one is a whole
//! multiple of 2^-149, so exact values are ratios of integer counts of such units.
use vstd::prelude::*;

verus! {

/// The sign bit.
pub const SIGN: u32 = 0x8000_0000;

/// The magnitude code of an infinity; finite codes lie below it, NaN codes above.
pub const INFINITE: u32 = 0x7f80_0000;

/// Distance between the codes of x and 2x for normal numbers.
pub const OCTAVE: u32 = 0x0080_0000;

/// Two to the power `n`.
pub open spec fn p2(n: int) -> int {
    vstd::arithmetic::power2::pow2(n as nat) as int
}

/// The value of a magnitude code in units of 2^-149. The code of an infinity
/// stands for the power of two that would come after the largest finite number.
pub open spec fn grid(code: int) -> int {
    if code < OCTAVE {
        code
    } else {
        (code % OCTAVE as int + OCTAVE) * p2(code / OCTAVE as int - 1)
    }
}

/// `code` is the magnitude code nearest to `num / den` units; a value midway
/// between two codes belongs to the even one.
pub open spec fn rounds_to(num: int, den: int, code: int) -> bool {
    &&& 0 <= code <= INFINITE
    &&& code > 0 ==> {
        let midpoint = (grid(code - 1) + grid(code)) * den;
        midpoint < 2 * num || (midpoint == 2 * num && code % 2 == 0)
    }
    &&& code < INFINITE ==> {
        let midpoint = (grid(code) + grid(code + 1)) * den;
        2 * num < midpoint || (midpoint == 2 * num && code % 2 == 0)
    }
}

/// The magnitude code nearest to `num / den` units.
pub open spec fn nearest(num: int, den: int) -> int {
    choose|code: int| rounds_to(num, den, code)
}

pub(crate) proof fn lemma_p2_pos(n: int)
    ensures
        p2(n) > 0,
{
    vstd::arithmetic::power2::lemma_pow2_pos(n as nat);
}

pub(crate) proof fn lemma_p2_adds(a: int, b: int)
    requires
        a >= 0,
        b >= 0,
    ensures
        p2(a + b) == p2(a) * p2(b),
{
    vstd::arithmetic::power2::lemma_pow2_adds(a as nat, b as nat);
}

pub(crate) proof fn lemma_p2_step(n: int)
    requires
        n >= 0,
    ensures
        p2(n + 1) == 2 * p2(n),
{
    vstd::arithmetic::power2::lemma_pow2_unfold((n + 1) as nat);
}

pub(crate) proof fn lemma_p2_values()
    ensures
        p2(0) == 1,
        p2(1) == 2,
        p2(23) == 0x80_0000,
        p2(24) == 0x100_0000,
        p2(31) == 0x8000_0000,
        p2(32) == 0x1_0000_0000,
{
    vstd::arithmetic::power2::lemma2_to64();
}

/// Powers that bound the significands of 128 bits.
pub(crate) proof fn lemma_p2_u128()
    ensures
        p2(40) == 0x100_0000_0000,
        p2(80) == 0x1_0000_0000_0000_0000_0000,
        p2(123) == 0x800_0000_0000_0000_0000_0000_0000_0000,
        p2(124) == 0x1000_0000_0000_0000_0000_0000_0000_0000,
        p2(127) == 0x8000_0000_0000_0000_0000_0000_0000_0000,
{
    vstd::arithmetic::power2::lemma2_to64();
    vstd::arithmetic::power2::lemma2_to64_rest();
    lemma_p2_adds(40, 40);
    lemma_p2_adds(64, 59);
    lemma_p2_adds(64, 60);
    lemma_p2_adds(64, 63);
    assert(p2(40) * p2(40) == 0x1_0000_0000_0000_0000_0000) by (nonlinear_arith)
        requires
            p2(40) == 0x100_0000_0000,
    ;
    assert(p2(64) * p2(59) == 0x800_0000_0000_0000_0000_0000_0000_0000) by (nonlinear_arith)
        requires
            p2(64) == 0x1_0000_0000_0000_0000,
            p2(59) == 0x800_0000_0000_0000,
    ;
    assert(p2(64) * p2(60) == 0x1000_0000_0000_0000_0000_0000_0000_0000) by (nonlinear_arith)
        requires
            p2(64) == 0x1_0000_0000_0000_0000,
            p2(60) == 0x1000_0000_0000_0000,
    ;
    assert(p2(64) * p2(63) == 0x8000_0000_0000_0000_0000_0000_0000_0000) by (nonlinear_arith)
        requires
            p2(64) == 0x1_0000_0000_0000_0000,
            p2(63) == 0x8000_0000_0000_0000,
    ;
}

pub(crate) proof fn lemma_p2_monotone(a: int, b: int)
    requires
        0 <= a <= b,
    ensures
        p2(a) <= p2(b),
{
    if a < b {
        vstd::arithmetic::power2::lemma_pow2_strictly_increases(a as nat, b as nat);
    }
}

/// The code of a mantissa and an octave stands for their product.
pub(crate) proof fn lemma_grid_code(octave: int, mantissa: int)
    requires
        octave >= 0,
        0 <= mantissa <= 2 * OCTAVE,
        octave > 0 ==> mantissa >= OCTAVE,
    ensures
        grid(octave * OCTAVE + mantissa) == mantissa * p2(octave),
{
    lemma_p2_values();
    let code = octave * OCTAVE + mantissa;
    if mantissa < OCTAVE {
    } else if mantissa < 2 * OCTAVE {
        assert(code == (octave + 1) * OCTAVE + (mantissa - OCTAVE));
        assert(code / OCTAVE as int == octave + 1 && code % OCTAVE as int == mantissa - OCTAVE);
    } else {
        assert(code == (octave + 2) * OCTAVE);
        assert(code / OCTAVE as int == octave + 2 && code % OCTAVE as int == 0);
        lemma_p2_step(octave);
        assert(grid(code) == OCTAVE * p2(octave + 1));
        assert(mantissa * p2(octave) == OCTAVE * (2 * p2(octave))) by (nonlinear_arith)
            requires
                mantissa == 2 * OCTAVE,
        ;
    }
}

/// The grid grows strictly with the code.
pub(crate) proof fn lemma_grid_step(code: int)
    requires
        code >= 0,
    ensures
        grid(code) < grid(code + 1),
        grid(code) >= 0,
{
    lemma_p2_values();
    if code >= OCTAVE {
        let octave = code / OCTAVE as int - 1;
        let mantissa = code % OCTAVE as int + OCTAVE;
        lemma_grid_code(octave, mantissa);
        lemma_grid_code(octave, mantissa + 1);
        lemma_p2_pos(octave);
        assert(octave * OCTAVE + mantissa == code);
        assert(mantissa * p2(octave) < (mantissa + 1) * p2(octave)) by (nonlinear_arith)
            requires
                p2(octave) > 0,
        ;
        assert(mantissa * p2(octave) >= 0) by (nonlinear_arith)
            requires
                p2(octave) > 0,
                mantissa >= 0,
        ;
    } else if code == OCTAVE - 1 {
        lemma_grid_code(0, OCTAVE as int);
    }
}

pub(crate) proof fn lemma_grid_monotone(a: int, b: int)
    requires
        0 <= a <= b,
    ensures
        grid(a) <= grid(b),
        a < b ==> grid(a) < grid(b),
        grid(a) >= 0,
    decreases b - a,
{
    lemma_grid_step(a);
    if a < b {
        lemma_grid_monotone(a + 1, b);
    }
}

/// Rounding preserves order: a larger value has a code at least as large.
pub proof fn lemma_rounding_monotone(num1: int, den1: int, code1: int, num2: int, den2: int, code2: int)
    requires
        den1 > 0,
        den2 > 0,
        num1 * den2 <= num2 * den1,
        rounds_to(num1, den1, code1),
        rounds_to(num2, den2, code2),
    ensures
        code1 <= code2,
{
    if code2 < code1 {
        let low = grid(code2) + grid(code2 + 1);
        let high = grid(code1 - 1) + grid(code1);
        lemma_grid_monotone(code2, code1 - 1);
        lemma_grid_monotone(code2 + 1, code1);
        assert(low <= high);
        // 2 num2 <= low den2 and high den1 <= 2 num1
        assert(2 * num2 * den1 <= low * den2 * den1) by (nonlinear_arith)
            requires
                2 * num2 <= low * den2,
                den1 > 0,
        ;
        assert(high * den1 * den2 <= 2 * num1 * den2) by (nonlinear_arith)
            requires
                high * den1 <= 2 * num1,
                den2 > 0,
        ;
        assert(low * den2 * den1 <= high * den1 * den2) by (nonlinear_arith)
            requires
                low <= high,
                den1 > 0,
                den2 > 0,
        ;
        assert(2 * num1 * den2 == 2 * (num1 * den2)) by (nonlinear_arith);
        assert(2 * num2 * den1 == 2 * (num2 * den1)) by (nonlinear_arith);
        // All three are equal, so the midpoints coincide and both codes are even.
        assert(low * den2 == 2 * num2) by (nonlinear_arith)
            requires
                low * den2 * den1 == 2 * num2 * den1,
                den1 > 0,
        ;
        assert(high * den1 == 2 * num1) by (nonlinear_arith)
            requires
                high * den1 * den2 == 2 * num1 * den2,
                den2 > 0,
        ;
        assert(low == high) by (nonlinear_arith)
            requires
                low * den2 * den1 == high * den1 * den2,
                den1 > 0,
                den2 > 0,
        ;
        assert(code1 == code2 + 1) by {
            if code2 < code1 - 1 {
                lemma_grid_monotone(code2, code1 - 1);
            }
        }
        assert(false);
    }
}

/// A value has at most one nearest code.
pub proof fn lemma_nearest_unique(num: int, den: int, code: int)
    requires
        den > 0,
        rounds_to(num, den, code),
    ensures
        nearest(num, den) == code,
{
    let other = nearest(num, den);
    lemma_rounding_monotone(num, den, code, num, den, other);
    lemma_rounding_monotone(num, den, other, num, den, code);
}

/// Every value has a nearest code.
pub proof fn lemma_nearest_exists(num: int, den: int)
    requires
        num >= 0,
        den > 0,
    ensures
        rounds_to(num, den, nearest(num, den)),
{
    let code = lemma_search_down(num, den, INFINITE as int);
    assert(rounds_to(num, den, code));
}

proof fn lemma_search_down(num: int, den: int, top: int) -> (code: int)
    requires
        num >= 0,
        den > 0,
        0 <= top <= INFINITE,
        top < INFINITE ==> {
            let midpoint = (grid(top) + grid(top + 1)) * den;
            2 * num < midpoint || (midpoint == 2 * num && top % 2 == 0)
        },
    ensures
        rounds_to(num, den, code),
    decreases top,
{
    if rounds_to(num, den, top) {
        top
    } else {
        lemma_search_down(num, den, top - 1)
    }
}

/// A value on the grid rounds to itself.
pub proof fn lemma_grid_exact(code: int, den: int)
    requires
        0 <= code <= INFINITE,
        den > 0,
    ensures
        rounds_to(grid(code) * den, den, code),
        nearest(grid(code) * den, den) == code,
{
    if code > 0 {
        lemma_grid_step(code - 1);
        assert((grid(code - 1) + grid(code)) * den < 2 * (grid(code) * den)) by (nonlinear_arith)
            requires
                grid(code - 1) < grid(code),
                den > 0,
        ;
    }
    lemma_grid_step(code);
    assert(2 * (grid(code) * den) < (grid(code) + grid(code + 1)) * den) by (nonlinear_arith)
        requires
            grid(code) < grid(code + 1),
            den > 0,
    ;
    lemma_nearest_unique(grid(code) * den, den, code);
}

/// Rounding a mantissa up or down by comparing the value with the midpoint.
proof fn lemma_round_mantissa(num: int, den: int, octave: int, mantissa: int, up: bool)
    requires
        den > 0,
        octave >= 0,
        0 <= mantissa < 2 * OCTAVE,
        octave > 0 ==> mantissa >= OCTAVE,
        mantissa * p2(octave) * den <= num < (mantissa + 1) * p2(octave) * den,
        up ==> (2 * mantissa + 1) * p2(octave) * den < 2 * num || ((2 * mantissa + 1) * p2(octave)
            * den == 2 * num && mantissa % 2 == 1),
        !up ==> (2 * mantissa + 1) * p2(octave) * den > 2 * num || ((2 * mantissa + 1) * p2(octave)
            * den == 2 * num && mantissa % 2 == 0),
    ensures
        ({
            let code = octave * OCTAVE + mantissa + if up { 1int } else { 0int };
            nearest(num, den) == if code < INFINITE { code } else { INFINITE as int }
        }),
{
    let floor = octave * OCTAVE + mantissa;
    let code = floor + if up { 1int } else { 0int };
    let scale = p2(octave);
    lemma_grid_code(octave, mantissa);
    lemma_grid_code(octave, mantissa + 1);
    assert(floor + 1 == octave * OCTAVE + (mantissa + 1));
    let midpoint = (grid(floor) + grid(floor + 1)) * den;
    assert(midpoint == (2 * mantissa + 1) * scale * den) by (nonlinear_arith)
        requires
            midpoint == (mantissa * scale + (mantissa + 1) * scale) * den,
    ;
    assert(floor % 2 == mantissa % 2) by (nonlinear_arith)
        requires
            floor == octave * 0x80_0000 + mantissa,
    ;
    if code >= INFINITE {
        let top = INFINITE as int;
        // The value is at least the midpoint below the top code.
        lemma_grid_step(top - 1);
        if floor >= top {
            lemma_grid_monotone(top, floor);
            assert((grid(top - 1) + grid(top)) * den < 2 * num) by (nonlinear_arith)
                requires
                    grid(top - 1) < grid(top),
                    grid(top) <= grid(floor),
                    grid(floor) * den <= num,
                    den > 0,
            ;
        }
        assert(rounds_to(num, den, top));
        lemma_nearest_unique(num, den, top);
    } else if up {
        lemma_grid_step(floor + 1);
        assert(2 * num < (grid(floor + 1) + grid(floor + 2)) * den) by (nonlinear_arith)
            requires
                num < grid(floor + 1) * den,
                grid(floor + 1) < grid(floor + 2),
                den > 0,
        ;
        assert(rounds_to(num, den, code));
        lemma_nearest_unique(num, den, code);
    } else {
        if floor > 0 {
            lemma_grid_step(floor - 1);
            assert((grid(floor - 1) + grid(floor)) * den < 2 * num) by (nonlinear_arith)
                requires
                    grid(floor) * den <= num,
                    grid(floor - 1) < grid(floor),
                    den > 0,
            ;
        }
        assert(rounds_to(num, den, code));
        lemma_nearest_unique(num, den, code);
    }
}

proof fn lemma_shift(n: u32)
    requires
        n < 128,
    ensures
        1u128 << n == p2(n as int),
    decreases n,
{
    lemma_p2_values();
    if n == 0 {
        assert(1u128 << 0u32 == 1) by (bit_vector);
    } else {
        let m = (n - 1) as u32;
        lemma_shift(m);
        lemma_p2_step(m as int);
        assert((1u128 << n) == 2 * (1u128 << m)) by (bit_vector)
            requires
                n == m + 1,
                n < 128,
        ;
    }
}

/// Two to the power `n`.
pub(crate) fn power(n: u32) -> (r: u128)
    requires
        n < 128,
    ensures
        r == p2(n as int),
        r > 0,
{
    proof {
        lemma_shift(n);
        lemma_p2_pos(n as int);
    }
    1u128 << n
}

/// Number of binary digits.
fn length(n: u128) -> (len: u32)
    requires
        n > 0,
    ensures
        1 <= len <= 128,
        p2(len - 1) <= n < p2(len as int),
{
    let mut len: u32 = 1;
    let mut top: u128 = n;
    proof {
        lemma_p2_values();
    }
    assert(top * p2(len - 1) <= n < (top + 1) * p2(len - 1)) by (nonlinear_arith)
        requires
            top == n,
            p2(len - 1) == 1,
    ;
    while top > 1
        invariant
            1 <= top <= n,
            1 <= len,
            len <= 128,
            top * p2(len - 1) <= n < (top + 1) * p2(len - 1),
        decreases top,
    {
        let ghost scale = p2(len - 1);
        proof {
            lemma_p2_step(len - 1);
            lemma_p2_pos(len - 1);
            lemma_length_bound(n as int, top as int, len as int);
        }
        let half: u128 = top / 2;
        assert(half * (2 * scale) <= n < (half + 1) * (2 * scale)) by (nonlinear_arith)
            requires
                top * scale <= n < (top + 1) * scale,
                2 * half <= top < 2 * half + 2,
                scale > 0,
        ;
        top = half;
        len = len + 1;
    }
    proof {
        lemma_p2_step(len - 1);
        lemma_p2_pos(len - 1);
        assert(p2(len - 1) <= n < 2 * p2(len - 1)) by (nonlinear_arith)
            requires
                top == 1,
                top * p2(len - 1) <= n < (top + 1) * p2(len - 1),
        ;
        lemma_length_bound(n as int, 1, len as int);
    }
    len
}

/// A 128-bit number has no digit beyond the 128th.
proof fn lemma_length_bound(n: int, top: int, len: int)
    requires
        0 <= n <= u128::MAX,
        top * p2(len - 1) <= n,
        top >= 1,
        len >= 1,
    ensures
        len < 128 || (len == 128 && top == 1),
{
    if len > 128 || (len == 128 && top >= 2) {
        lemma_p2_u128();
        lemma_p2_step(127);
        lemma_p2_monotone(127, len - 1);
        if len > 128 {
            lemma_p2_monotone(128, len - 1);
        }
        assert(n > u128::MAX) by (nonlinear_arith)
            requires
                top * p2(len - 1) <= n,
                top >= 1,
                p2(127) == 0x8000_0000_0000_0000_0000_0000_0000_0000,
                p2(len - 1) >= p2(127),
                top >= 2 || p2(len - 1) >= 2 * p2(127),
        ;
    }
}

/// `num / den` is `sig` times two to the power `exponent`, or, if `inexact`,
/// lies strictly between that and the next multiple.
pub(crate) open spec fn approximates(num: int, den: int, sig: int, exponent: int, inexact: bool) -> bool {
    let up = p2(if exponent > 0 { exponent } else { 0 });
    let down = p2(if exponent < 0 { -exponent } else { 0 });
    if inexact {
        sig * (up * den) < num * down < (sig + 1) * (up * den)
    } else {
        num * down == sig * (up * den)
    }
}

/// Splitting the significand at `shift` digits brackets the value by two
/// neighbouring mantissas and places it against their midpoint.
proof fn lemma_split(num: int, den: int, sig: int, exponent: int, inexact: bool, shift: int, mantissa: int, rest: int)
    requires
        den > 0,
        shift > 0,
        shift + exponent >= 0,
        approximates(num, den, sig, exponent, inexact),
        sig == mantissa * p2(shift) + rest,
        0 <= rest < p2(shift),
    ensures
        ({
            let scale = p2(shift + exponent) * den;
            let half = p2(shift - 1);
            &&& mantissa * scale <= num < (mantissa + 1) * scale
            &&& rest > half || (rest == half && inexact) ==> (2 * mantissa + 1) * scale < 2 * num
            &&& rest == half && !inexact ==> (2 * mantissa + 1) * scale == 2 * num
            &&& rest < half ==> (2 * mantissa + 1) * scale > 2 * num
        }),
{
    let up = p2(if exponent > 0 { exponent } else { 0 });
    let down = p2(if exponent < 0 { -exponent } else { 0 });
    let octave = shift + exponent;
    let scale = p2(octave) * den;
    let half = p2(shift - 1);
    let part = p2(shift);
    let weight = up * den;
    lemma_p2_values();
    lemma_p2_step(shift - 1);
    lemma_p2_pos(shift - 1);
    lemma_p2_pos(if exponent > 0 { exponent } else { 0 });
    lemma_p2_pos(if exponent < 0 { -exponent } else { 0 });
    assert(p2(octave) * down == part * up) by {
        if exponent >= 0 {
            lemma_p2_adds(exponent, shift);
            assert(p2(octave) * 1 == part * p2(exponent)) by (nonlinear_arith)
                requires
                    p2(octave) == p2(exponent) * part,
            ;
        } else {
            lemma_p2_adds(octave, -exponent);
            assert(p2(octave) * down == part * 1);
        }
    }
    assert(scale * down == part * weight) by (nonlinear_arith)
        requires
            scale == p2(octave) * den,
            weight == up * den,
            p2(octave) * down == part * up,
    ;
    assert(weight > 0) by (nonlinear_arith)
        requires
            weight == up * den,
            up > 0,
            den > 0,
    ;
    let value = num * down;
    assert(sig * weight <= value < (sig + 1) * weight) by (nonlinear_arith)
        requires
            inexact ==> sig * weight < value < (sig + 1) * weight,
            !inexact ==> value == sig * weight,
            weight > 0,
    ;
    // Everything is compared after multiplying by `down`.
    assert(mantissa * scale * down == mantissa * part * weight) by (nonlinear_arith)
        requires
            scale * down == part * weight,
    ;
    assert((mantissa + 1) * scale * down == (mantissa + 1) * part * weight) by (nonlinear_arith)
        requires
            scale * down == part * weight,
    ;
    assert((2 * mantissa + 1) * scale * down == (2 * mantissa + 1) * part * weight) by (nonlinear_arith)
        requires
            scale * down == part * weight,
    ;
    assert(mantissa * scale <= num) by (nonlinear_arith)
        requires
            mantissa * scale * down == mantissa * part * weight,
            mantissa * part <= sig,
            sig * weight <= num * down,
            weight > 0,
            down > 0,
    ;
    assert((mantissa + 1) * part >= sig + 1) by (nonlinear_arith)
        requires
            sig == mantissa * part + rest,
            rest < part,
    ;
    assert(num < (mantissa + 1) * scale) by (nonlinear_arith)
        requires
            (mantissa + 1) * scale * down == (mantissa + 1) * part * weight,
            (mantissa + 1) * part >= sig + 1,
            num * down < (sig + 1) * weight,
            weight > 0,
            down > 0,
    ;
    assert((2 * mantissa + 1) * part == 2 * (sig - rest) + 2 * half) by (nonlinear_arith)
        requires
            sig == mantissa * part + rest,
            part == 2 * half,
    ;
    let mid = (2 * mantissa + 1) * part;
    if rest > half || (rest == half && inexact) {
        assert(mid * weight < 2 * value) by (nonlinear_arith)
            requires
                mid == 2 * (sig - rest) + 2 * half,
                rest > half || (rest == half && sig * weight < value),
                sig * weight <= value,
                weight > 0,
        ;
        assert((2 * mantissa + 1) * scale < 2 * num) by (nonlinear_arith)
            requires
                (2 * mantissa + 1) * scale * down == mid * weight,
                mid * weight < 2 * (num * down),
                down > 0,
        ;
    } else if rest == half {
        assert((2 * mantissa + 1) * scale == 2 * num) by (nonlinear_arith)
            requires
                (2 * mantissa + 1) * scale * down == mid * weight,
                mid == 2 * sig,
                num * down == sig * weight,
                down > 0,
        ;
    } else {
        assert(mid * weight > 2 * value) by (nonlinear_arith)
            requires
                mid == 2 * (sig - rest) + 2 * half,
                rest < half,
                value < (sig + 1) * weight,
                weight > 0,
        ;
        assert((2 * mantissa + 1) * scale > 2 * num) by (nonlinear_arith)
            requires
                (2 * mantissa + 1) * scale * down == mid * weight,
                mid * weight > 2 * (num * down),
                down > 0,
        ;
    }
}

/// A significand short enough to be a mantissa is on the grid.
proof fn lemma_exact(num: int, den: int, sig: int, exponent: int, octave: int, raise: int)
    requires
        den > 0,
        sig >= 0,
        exponent >= 0,
        octave >= 0,
        raise >= 0,
        octave + raise == exponent,
        approximates(num, den, sig, exponent, false),
        sig * p2(raise) < 2 * OCTAVE,
        octave > 0 ==> sig * p2(raise) >= OCTAVE,
    ensures
        ({
            let code = octave * OCTAVE + sig * p2(raise);
            nearest(num, den) == if code < INFINITE { code } else { INFINITE as int }
        }),
{
    lemma_p2_values();
    lemma_p2_adds(octave, raise);
    lemma_p2_pos(octave);
    lemma_p2_pos(raise);
    let mantissa = sig * p2(raise);
    let scale = p2(octave);
    assert(num == mantissa * scale * den) by (nonlinear_arith)
        requires
            num * 1 == sig * (p2(exponent) * den),
            p2(exponent) == scale * p2(raise),
            mantissa == sig * p2(raise),
    ;
    assert(mantissa >= 0) by (nonlinear_arith)
        requires
            mantissa == sig * p2(raise),
            sig >= 0,
            p2(raise) > 0,
    ;
    assert(num < (mantissa + 1) * scale * den && (2 * mantissa + 1) * scale * den > 2 * num)
        by (nonlinear_arith)
        requires
            num == mantissa * scale * den,
            scale > 0,
            den > 0,
    ;
    lemma_round_mantissa(num, den, octave, mantissa, false);
}

/// Rounds a significand to the nearest magnitude code.
pub(crate) fn pack(
    sig: u128,
    exponent: i32,
    inexact: bool,
    Ghost(num): Ghost<int>,
    Ghost(den): Ghost<int>,
) -> (code: u32)
    requires
        0 < sig < p2(124),
        -1000 <= exponent <= 1000,
        den > 0,
        inexact ==> sig >= 0x4000_0000,
        approximates(num, den, sig as int, exponent as int, inexact),
    ensures
        code == nearest(num, den),
        code <= INFINITE,
{
    let len: i32 = length(sig) as i32;
    proof {
        lemma_p2_values();
        if len > 124 {
            lemma_p2_monotone(124, len - 1);
        }
        if inexact && len <= 30 {
            lemma_p2_monotone(len as int, 30);
            vstd::arithmetic::power2::lemma2_to64();
        }
    }
    let octave: i32 = if len + exponent > 24 {
        len + exponent - 24
    } else {
        0
    };
    let shift: i32 = octave - exponent;
    let mut code: i64;
    if shift <= 0 {
        let raise: u32 = (-shift) as u32;
        proof {
            assert(len <= 24);
            lemma_p2_adds(len as int, raise as int);
            lemma_p2_adds(len - 1, raise as int);
            lemma_p2_pos(raise as int);
            lemma_p2_monotone(len + raise, 24);
            assert(sig * p2(raise as int) < p2(24)) by (nonlinear_arith)
                requires
                    sig < p2(len as int),
                    p2(len as int) * p2(raise as int) <= p2(24),
                    p2(raise as int) > 0,
            ;
            if octave > 0 {
                assert(len + raise == 24);
                assert(sig * p2(raise as int) >= p2(23)) by (nonlinear_arith)
                    requires
                        sig >= p2(len - 1),
                        p2(len - 1) * p2(raise as int) == p2(23),
                        p2(raise as int) > 0,
                ;
            }
            lemma_exact(num, den, sig as int, exponent as int, octave as int, raise as int);
        }
        let mantissa: u128 = sig * power(raise);
        code = octave as i64 * OCTAVE as i64 + mantissa as i64;
    } else if shift >= 127 {
        assert(octave == 0);
        proof {
            assert(sig == 0 * p2(shift as int) + sig) by (nonlinear_arith);
            lemma_p2_monotone(124, shift - 1);
            lemma_p2_step(shift - 1);
            lemma_p2_pos(shift - 1);
            lemma_split(
                num,
                den,
                sig as int,
                exponent as int,
                inexact,
                shift as int,
                0,
                sig as int,
            );
            lemma_round_mantissa(num, den, 0, 0, false);
        }
        code = 0;
    } else {
        let part: u128 = power(shift as u32);
        let half: u128 = power((shift - 1) as u32);
        let mantissa: u128 = sig / part;
        let rest: u128 = sig % part;
        proof {
            lemma_p2_step(shift - 1);
            lemma_p2_pos(shift - 1);
            assert(sig == mantissa * part + rest) by (nonlinear_arith)
                requires
                    mantissa == sig / part,
                    rest == sig % part,
                    part > 0,
            ;
            // The mantissa has at most 24 digits, and exactly 24 above the first octave.
            lemma_p2_adds(24, shift as int);
            lemma_p2_monotone(len as int, 24 + shift);
            assert(mantissa < p2(24)) by (nonlinear_arith)
                requires
                    mantissa * part <= sig,
                    sig < p2(24) * part,
                    part > 0,
            ;
            if octave > 0 {
                assert(len == 24 + shift);
                lemma_p2_adds(23, shift as int);
                assert(mantissa >= p2(23)) by (nonlinear_arith)
                    requires
                        sig == mantissa * part + rest,
                        rest < part,
                        sig >= p2(23) * part,
                        part > 0,
                ;
            }
            lemma_split(
                num,
                den,
                sig as int,
                exponent as int,
                inexact,
                shift as int,
                mantissa as int,
                rest as int,
            );
        }
        let up: bool = rest > half || (rest == half && (inexact || mantissa % 2 == 1));
        proof {
            let scale = p2(octave as int);
            assert(forall|k: int| #[trigger] (k * (scale * den)) == k * scale * den) by (nonlinear_arith);
            lemma_round_mantissa(num, den, octave as int, mantissa as int, up);
        }
        code = octave as i64 * OCTAVE as i64 + mantissa as i64;
        if up {
            code = code + 1;
        }
    }
    if code >= INFINITE as i64 {
        code = INFINITE as i64;
    }
    code as u32
}

/// `code` is the magnitude code nearest to the square root of `n`, in units.
pub open spec fn root_rounds_to(n: int, code: int) -> bool {
    &&& 0 <= code <= INFINITE
    &&& code > 0 ==> {
        let midpoint = grid(code - 1) + grid(code);
        midpoint * midpoint < 4 * n || (midpoint * midpoint == 4 * n && code % 2 == 0)
    }
    &&& code < INFINITE ==> {
        let midpoint = grid(code) + grid(code + 1);
        4 * n < midpoint * midpoint || (midpoint * midpoint == 4 * n && code % 2 == 0)
    }
}

/// The magnitude code nearest to the square root of `n`.
pub open spec fn nearest_root(n: int) -> int {
    choose|code: int| root_rounds_to(n, code)
}

proof fn lemma_root_order(n: int, low: int, high: int)
    requires
        root_rounds_to(n, low),
        root_rounds_to(n, high),
    ensures
        high <= low,
{
    if low < high {
        let a = grid(low) + grid(low + 1);
        let b = grid(high - 1) + grid(high);
        lemma_grid_monotone(low, high - 1);
        lemma_grid_monotone(low + 1, high);
        assert(a * a <= b * b) by (nonlinear_arith)
            requires
                0 <= a <= b,
        ;
        if low < high - 1 {
            assert(a * a < b * b) by (nonlinear_arith)
                requires
                    0 <= a < b,
            ;
        }
    }
}

/// A value has at most one nearest root.
pub proof fn lemma_root_unique(n: int, code: int)
    requires
        root_rounds_to(n, code),
    ensures
        nearest_root(n) == code,
{
    lemma_root_order(n, code, nearest_root(n));
    lemma_root_order(n, nearest_root(n), code);
}

/// Every value has a nearest root.
pub proof fn lemma_root_exists(n: int)
    requires
        n >= 0,
    ensures
        root_rounds_to(n, nearest_root(n)),
{
    let code = lemma_search_root(n, INFINITE as int);
    assert(root_rounds_to(n, code));
}

proof fn lemma_search_root(n: int, top: int) -> (code: int)
    requires
        n >= 0,
        0 <= top <= INFINITE,
        top < INFINITE ==> {
            let midpoint = grid(top) + grid(top + 1);
            4 * n < midpoint * midpoint || (midpoint * midpoint == 4 * n && top % 2 == 0)
        },
    ensures
        root_rounds_to(n, code),
    decreases top,
{
    if root_rounds_to(n, top) {
        top
    } else {
        lemma_search_root(n, top - 1)
    }
}

/// The whole part of a square root.
fn whole_root(n: u64) -> (r: u64)
    requires
        n < 0x4000_0000_0000_0000,
    ensures
        r * r <= n < (r + 1) * (r + 1),
        r < 0x8000_0000,
{
    let mut root: u64 = 0;
    let mut digit: u32 = 31;
    proof {
        lemma_p2_values();
        assert((root + p2(31)) * (root + p2(31)) == 0x4000_0000_0000_0000) by (nonlinear_arith)
            requires
                root == 0,
                p2(31) == 0x8000_0000,
        ;
    }
    while digit > 0
        invariant
            digit <= 31,
            root * root <= n < (root + p2(digit as int)) * (root + p2(digit as int)),
            root + p2(digit as int) <= 0x8000_0000,
        decreases digit,
    {
        proof {
            lemma_p2_step(digit - 1);
            lemma_p2_pos(digit - 1);
        }
        digit = digit - 1;
        let bit: u64 = power(digit) as u64;
        let next: u64 = root + bit;
        assert(next * next <= 0x4000_0000_0000_0000) by (nonlinear_arith)
            requires
                next <= 0x8000_0000,
        ;
        if next * next <= n {
            root = next;
        }
    }
    proof {
        lemma_p2_values();
    }
    root
}

/// The magnitude code nearest to the square root of `m` times two to the power
/// `exponent`.
pub(crate) fn pack_root(m: u32, exponent: u32) -> (code: u32)
    requires
        0 < m < 0x100_0000,
        149 <= exponent <= 402,
    ensures
        code == nearest_root(m * p2(exponent as int)),
        code < INFINITE,
{
    let ghost n = m * p2(exponent as int);
    let len: u32 = length(m as u128);
    proof {
        lemma_p2_values();
        if len > 24 {
            lemma_p2_monotone(24, len - 1);
        }
    }
    // Pad to 61 or 62 digits so that an even exponent is left and the root has 31.
    let pad: u32 = if (61 - len + exponent) % 2 == 0 {
        61 - len
    } else {
        62 - len
    };
    let step: u64 = {
        proof {
            lemma_p2_monotone(pad as int, 61);
            vstd::arithmetic::power2::lemma2_to64();
            vstd::arithmetic::power2::lemma2_to64_rest();
        }
        power(pad) as u64
    };
    proof {
        lemma_p2_adds(len as int, pad as int);
        lemma_p2_adds(len - 1, pad as int);
        lemma_p2_monotone(len + pad, 62);
        lemma_p2_monotone(60, len - 1 + pad);
        assert(p2(60) <= m * step < p2(62)) by (nonlinear_arith)
            requires
                p2(len - 1) <= m < p2(len as int),
                step == p2(pad as int),
                p2(len as int) * p2(pad as int) <= p2(62),
                p2(60) <= p2(len - 1) * p2(pad as int),
                step > 0,
        ;
    }
    let sig: u64 = m as u64 * step;
    let root: u64 = whole_root(sig);
    let inexact: bool = root * root != sig;
    let half: u32 = (exponent - pad) / 2;
    let ghost scale = p2(half as int);
    proof {
        lemma_p2_pos(half as int);
        lemma_p2_adds(half as int, half as int);
        lemma_p2_adds(pad as int, exponent - pad);
        assert(half + half == exponent - pad);
        assert(n == sig * (scale * scale)) by (nonlinear_arith)
            requires
                n == m * p2(exponent as int),
                p2(exponent as int) == step * (scale * scale),
                sig == m * step,
        ;
        assert(root >= 0x4000_0000) by (nonlinear_arith)
            requires
                sig < (root + 1) * (root + 1),
                sig >= 0x1000_0000_0000_0000,
                root >= 0,
        ;
    }
    let mantissa: u64 = root / 128;
    let rest: u64 = root % 128;
    let octave: u32 = half + 7;
    let up: bool = rest > 64 || (rest == 64 && (inexact || mantissa % 2 == 1));
    let floor: u32 = octave * OCTAVE + mantissa as u32;
    proof {
        let q = p2(octave as int);
        lemma_p2_adds(half as int, 7);
        assert(p2(7) == 128);
        lemma_grid_code(octave as int, mantissa as int);
        lemma_grid_code(octave as int, mantissa + 1);
        assert(floor + 1 == octave * OCTAVE + (mantissa + 1));
        let low = grid(floor as int);
        let high = grid(floor + 1);
        let mid = low + high;
        assert(low == (128 * mantissa) * scale && high == (128 * mantissa + 128) * scale && mid == (256
            * mantissa + 128) * scale) by (nonlinear_arith)
            requires
                low == mantissa * q,
                high == (mantissa + 1) * q,
                mid == low + high,
                q == scale * 128,
        ;
        let a = 128 * mantissa;
        let square = scale * scale;
        assert(square > 0) by (nonlinear_arith)
            requires
                square == scale * scale,
                scale > 0,
        ;
        // The root lies between the two mantissas.
        assert(low * low <= n) by (nonlinear_arith)
            requires
                low == a * scale,
                0 <= a <= root,
                root * root <= sig,
                n == sig * square,
                square == scale * scale,
                square > 0,
        ;
        assert(n < high * high) by (nonlinear_arith)
            requires
                high == (a + 128) * scale,
                root + 1 <= a + 128,
                0 <= root,
                sig < (root + 1) * (root + 1),
                n == sig * square,
                square == scale * scale,
                square > 0,
        ;
        // And on the side of the midpoint that the dropped digits tell.
        let c = a + 64;
        assert(mid * mid == 4 * (c * c) * square) by (nonlinear_arith)
            requires
                mid == (2 * c) * scale,
                square == scale * scale,
        ;
        if rest > 64 {
            assert(c * c < sig) by (nonlinear_arith)
                requires
                    0 <= c < root,
                    root * root <= sig,
            ;
        } else if rest < 64 {
            assert(sig < c * c) by (nonlinear_arith)
                requires
                    0 <= root,
                    root + 1 <= c,
                    sig < (root + 1) * (root + 1),
            ;
        }
        assert(c * c < sig ==> mid * mid < 4 * n) by (nonlinear_arith)
            requires
                mid * mid == 4 * (c * c) * square,
                n == sig * square,
                square > 0,
        ;
        assert(c * c == sig ==> mid * mid == 4 * n) by (nonlinear_arith)
            requires
                mid * mid == 4 * (c * c) * square,
                n == sig * square,
        ;
        assert(c * c > sig ==> mid * mid > 4 * n) by (nonlinear_arith)
            requires
                mid * mid == 4 * (c * c) * square,
                n == sig * square,
                square > 0,
        ;
        assert(floor % 2 == mantissa % 2) by (nonlinear_arith)
            requires
                floor == octave * 0x80_0000 + mantissa,
        ;
        lemma_grid_step(floor - 1);
        lemma_grid_step(floor as int);
        lemma_grid_step(floor + 1);
        let below = grid(floor - 1) + low;
        assert(0 <= below < 2 * low);
        assert(below * below < 4 * n) by (nonlinear_arith)
            requires
                0 <= below < 2 * low,
                low * low <= n,
        ;
        let above = high + grid(floor + 2);
        assert(4 * n < above * above) by (nonlinear_arith)
            requires
                2 * high < above,
                0 <= high,
                n < high * high,
        ;
        let code = if up { floor + 1 } else { floor as int };
        assert(root_rounds_to(n, code));
        lemma_root_unique(n, code);
    }
    if up {
        floor + 1
    } else {
        floor
    }
}

} // verus!
