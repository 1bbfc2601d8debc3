//! How amounts are shown to the player: sizes, counts, shares and colours.

use vstd::prelude::*;
use crate::big_nat::BigNat;
use crate::text;

verus! {

// ---------------------------------------------------------------------------
// Rounding
// ---------------------------------------------------------------------------

/// The integer nearest to a fraction; of two that are equally near, the even one.
pub open spec fn nearest(num: nat, den: nat) -> nat {
    let q = num / den;
    let rest = num % den;
    if 2 * rest < den || 2 * rest == den && q % 2 == 0 {
        q
    } else {
        q + 1
    }
}

/// The integer nearest to a fraction; of two that are equally near, the larger one.
pub open spec fn nearest_up(num: nat, den: nat) -> nat {
    (2 * num + den) / (2 * den)
}

/// Where a remainder stands to half of what it is a remainder of.
#[derive(Debug, Clone, Copy, PartialEq, Eq, Structural)]
pub enum Rest {
    Less,
    Half,
    More,
}

/// Where the remainder of a division stands to half of the divisor.
pub open spec fn rest_of(num: nat, den: nat) -> Rest {
    if 2 * (num % den) < den {
        Rest::Less
    } else if 2 * (num % den) == den {
        Rest::Half
    } else {
        Rest::More
    }
}

/// Quotient and remainder are unique.
proof fn lemma_divided(num: nat, den: nat, q: nat, rest: nat)
    requires
        num == q * den + rest,
        rest < den,
    ensures
        num / den == q,
        num % den == rest,
{
    vstd::arithmetic::div_mod::lemma_fundamental_div_mod_converse(
        num as int,
        den as int,
        q as int,
        rest as int,
    );
}

/// The nearest integer, by quotient and remainder.
proof fn lemma_nearest_up(num: nat, den: nat)
    requires
        den > 0,
    ensures
        nearest_up(num, den) == num / den + if rest_of(num, den) == Rest::Less {
            0nat
        } else {
            1nat
        },
{
    let q = num / den;
    let rest = num % den;
    vstd::arithmetic::div_mod::lemma_fundamental_div_mod(num as int, den as int);
    assert(num == q * den + rest) by (nonlinear_arith)
        requires
            num == den * q + rest,
    ;
    if rest_of(num, den) == Rest::Less {
        assert(2 * num + den == q * (2 * den) + (2 * rest + den)) by (nonlinear_arith)
            requires
                num == q * den + rest,
        ;
        lemma_divided(2 * num + den, 2 * den, q, 2 * rest + den);
    } else {
        assert(2 * num + den == (q + 1) * (2 * den) + (2 * rest - den)) by (nonlinear_arith)
            requires
                num == q * den + rest,
        ;
        lemma_divided(2 * num + den, 2 * den, q + 1, (2 * rest - den) as nat);
    }
}

/// Divides two numbers whose quotient is small: the quotient, and where the remainder
/// stands to half of the divisor.
fn divide(num: &BigNat, den: &BigNat, most: u64) -> (result: (u64, Rest))
    requires
        num.wf(),
        den.wf(),
        den@ > 0,
        most < 0x1000_0000,
        num@ <= most * den@,
    ensures
        result.0 == num@ / den@,
        result.0 <= most,
        result.1 == rest_of(num@, den@),
{
    let mut low: u64 = 0;
    let mut high: u64 = most;
    proof {
        assert(0 * den@ == 0) by (nonlinear_arith);
        assert((most + 1) * den@ == most * den@ + den@) by (nonlinear_arith);
    }
    while low < high
        invariant
            num.wf(),
            den.wf(),
            den@ > 0,
            low <= high <= most,
            most < 0x1000_0000,
            low * den@ <= num@,
            num@ < (high + 1) * den@,
        decreases high - low,
    {
        let mid: u64 = low + (high - low + 1) / 2;
        if den.times_small(mid).exceeds(num) {
            high = mid - 1;
            assert(mid * den@ == den@ * mid) by (nonlinear_arith);
        } else {
            low = mid;
            assert(mid * den@ == den@ * mid) by (nonlinear_arith);
        }
    }
    let twice: BigNat = num.times_small(2);
    let middle: BigNat = den.times_small(2 * low + 1);
    proof {
        let q = low as nat;
        let (n, d) = (num@, den@);
        assert((q + 1) * d == q * d + d) by (nonlinear_arith);
        lemma_divided(n, d, q, (n - q * d) as nat);
        assert(d * (2 * q + 1) == 2 * (q * d) + d) by (nonlinear_arith);
        assert(n * 2 == 2 * n) by (nonlinear_arith);
    }
    let rest: Rest = if twice.exceeds(&middle) {
        Rest::More
    } else if middle.exceeds(&twice) {
        Rest::Less
    } else {
        Rest::Half
    };
    (low, rest)
}

/// The integer nearest to a fraction that is not large.
fn rounded(num: &BigNat, den: &BigNat, most: u64) -> (near: u64)
    requires
        num.wf(),
        den.wf(),
        den@ > 0,
        most < 0x1000_0000,
        num@ <= most * den@,
    ensures
        near == nearest(num@, den@),
        near <= most + 1,
{
    let (q, rest): (u64, Rest) = divide(num, den, most);
    match rest {
        Rest::Less => q,
        Rest::Half => if q % 2 == 0 {
            q
        } else {
            q + 1
        },
        Rest::More => q + 1,
    }
}

// ---------------------------------------------------------------------------
// Shares
// ---------------------------------------------------------------------------

/// A part, but no more than the whole.
pub open spec fn at_most(part: nat, whole: nat) -> nat {
    if part <= whole {
        part
    } else {
        whole
    }
}

/// The smaller of two numbers.
fn lesser(part: &BigNat, whole: &BigNat) -> (less: BigNat)
    requires
        part.wf(),
        whole.wf(),
    ensures
        less.wf(),
        less@ == at_most(part@, whole@),
{
    if part.exceeds(whole) {
        whole.copy()
    } else {
        part.copy()
    }
}

/// A share in whole percent.
pub open spec fn percent(part: nat, whole: nat) -> nat {
    nearest(at_most(part, whole) * 100, whole)
}

/// A share in whole percent, as text.
pub fn percent_text(part: &BigNat, whole: &BigNat) -> (out: String)
    requires
        part.wf(),
        whole.wf(),
        whole@ > 0,
    ensures
        out@ == text::decimal(percent(part@, whole@)) + "%"@,
{
    let share: BigNat = lesser(part, whole);
    assert(share@ * 100 <= 100 * whole@) by (nonlinear_arith)
        requires
            share@ <= whole@,
    ;
    let near: u64 = rounded(&share.times_small(100), whole, 100);
    let mut out: String = String::new();
    text::append_decimal(&mut out, near);
    text::append_text(&mut out, "%");
    assert(out@ =~= text::decimal(percent(part@, whole@)) + "%"@);
    out
}

/// A number of tenths as text: a decimal number with one place behind the point.
pub open spec fn tenths(n: nat) -> Seq<char> {
    text::decimal(n / 10) + "."@ + text::decimal(n % 10)
}

/// Appends a number of tenths.
fn append_tenths(out: &mut String, n: u64)
    ensures
        final(out)@ == old(out)@ + tenths(n as nat),
{
    let ghost before = out@;
    text::append_decimal(out, n / 10);
    text::append_text(out, ".");
    text::append_decimal(out, n % 10);
    assert(out@ =~= before + tenths(n as nat));
}

/// A share in tenths of a percent.
pub open spec fn per_mille(part: nat, whole: nat) -> nat {
    nearest(at_most(part, whole) * 1000, whole)
}

/// A share in percent with one place behind the point, as text.
pub fn fine_percent_text(part: &BigNat, whole: &BigNat) -> (out: String)
    requires
        part.wf(),
        whole.wf(),
        whole@ > 0,
    ensures
        out@ == tenths(per_mille(part@, whole@)) + "%"@,
{
    let share: BigNat = lesser(part, whole);
    assert(share@ * 1000 <= 1000 * whole@) by (nonlinear_arith)
        requires
            share@ <= whole@,
    ;
    let near: u64 = rounded(&share.times_small(1000), whole, 1000);
    let mut out: String = String::new();
    append_tenths(&mut out, near);
    text::append_text(&mut out, "%");
    assert(out@ =~= tenths(per_mille(part@, whole@)) + "%"@);
    out
}

/// The red part of the colour of a share: 204 for none, 255 for all.
pub open spec fn red(part: nat, whole: nat) -> nat {
    nearest_up(204 * whole + 51 * at_most(part, whole), whole)
}

/// The green and the blue part: 204 for none, 0 for all.
pub open spec fn green(part: nat, whole: nat) -> nat {
    nearest_up((204 * (whole - at_most(part, whole))) as nat, whole)
}

/// The colour of a share, from grey to red: the red part, and the green and blue part.
pub fn tint(part: &BigNat, whole: &BigNat) -> (colour: (u8, u8))
    requires
        part.wf(),
        whole.wf(),
        whole@ > 0,
    ensures
        colour.0 == red(part@, whole@),
        colour.1 == green(part@, whole@),
{
    let share: BigNat = lesser(part, whole);
    let ghost (p, w) = (share@, whole@);
    assert(p * 51 <= 51 * w && p * 204 <= 204 * w) by (nonlinear_arith)
        requires
            p <= w,
    ;
    let (up, rest): (u64, Rest) = divide(&share.times_small(51), whole, 51);
    let red: u64 = 204 + up + match rest {
        Rest::Less => 0,
        _ => 1,
    };
    let (down, fall): (u64, Rest) = divide(&share.times_small(204), whole, 204);
    let lost: u64 = down + match fall {
        Rest::More => 1,
        _ => 0,
    };
    proof {
        lemma_red(p, w);
        lemma_green(p, w);
    }
    (red as u8, (204 - lost) as u8)
}

proof fn lemma_red(part: nat, whole: nat)
    requires
        whole > 0,
        part <= whole,
    ensures
        red(part, whole) == 204 + nearest_up(part * 51, whole),
        red(part, whole) <= 255,
        nearest_up(part * 51, whole) == part * 51 / whole + if rest_of(part * 51, whole)
            == Rest::Less {
            0nat
        } else {
            1nat
        },
{
    let n = part * 51;
    let x = 2 * n + whole;
    vstd::arithmetic::div_mod::lemma_fundamental_div_mod(x as int, (2 * whole) as int);
    let q = x / (2 * whole);
    let r = x % (2 * whole);
    assert(2 * (204 * whole + 51 * part) + whole == (204 + q) * (2 * whole) + r)
        by (nonlinear_arith)
        requires
            x == (2 * whole) * q + r,
            x == 2 * (part * 51) + whole,
    ;
    lemma_divided(2 * (204 * whole + 51 * part) + whole, 2 * whole, 204 + q, r);
    lemma_nearest_up(n, whole);
    assert(q <= 51) by (nonlinear_arith)
        requires
            x == (2 * whole) * q + r,
            x == 2 * (part * 51) + whole,
            part <= whole,
            whole > 0,
            r >= 0,
    ;
}

proof fn lemma_green(part: nat, whole: nat)
    requires
        whole > 0,
        part <= whole,
    ensures
        green(part, whole) == 204 - part * 204 / whole - if rest_of(part * 204, whole)
            == Rest::More {
            1int
        } else {
            0int
        },
        0 <= green(part, whole) <= 204,
{
    let n = part * 204;
    vstd::arithmetic::div_mod::lemma_fundamental_div_mod(n as int, whole as int);
    let q = n / whole;
    let r = n % whole;
    let left = (204 * (whole - part)) as nat;
    assert(left == 204 * whole - (q * whole + r)) by (nonlinear_arith)
        requires
            n == whole * q + r,
            n == part * 204,
            left == 204 * (whole - part),
    ;
    assert(q <= 204) by (nonlinear_arith)
        requires
            n == whole * q + r,
            n == part * 204,
            part <= whole,
            whole > 0,
            r >= 0,
    ;
    if rest_of(n, whole) == Rest::More {
        assert(q < 204) by (nonlinear_arith)
            requires
                n == whole * q + r,
                n == part * 204,
                part <= whole,
                r > 0,
        ;
        let g = (203 - q) as nat;
        assert(2 * left + whole == g * (2 * whole) + (3 * whole - 2 * r)) by (nonlinear_arith)
            requires
                left == 204 * whole - (q * whole + r),
                g == 203 - q,
        ;
        lemma_divided(2 * left + whole, 2 * whole, g, (3 * whole - 2 * r) as nat);
    } else {
        let g = (204 - q) as nat;
        assert(2 * left + whole == g * (2 * whole) + (whole - 2 * r)) by (nonlinear_arith)
            requires
                left == 204 * whole - (q * whole + r),
                g == 204 - q,
        ;
        lemma_divided(2 * left + whole, 2 * whole, g, (whole - 2 * r) as nat);
    }
}

/// The nearest integer is at most half away.
proof fn lemma_half_away(num: nat, den: nat)
    requires
        den > 0,
    ensures
        2 * num - den <= 2 * (nearest(num, den) * den) <= 2 * num + den,
        2 * num - den <= 2 * (nearest_up(num, den) * den) <= 2 * num + den,
{
    let q = num / den;
    let rest = num % den;
    vstd::arithmetic::div_mod::lemma_fundamental_div_mod(num as int, den as int);
    assert(num == q * den + rest) by (nonlinear_arith)
        requires
            num == den * q + rest,
    ;
    assert((q + 1) * den == q * den + den) by (nonlinear_arith);
    lemma_nearest_up(num, den);
}

/// What is shown of a share is the nearest there is: in percent, in tenths of a percent, in
/// the red part that rises from 204 to 255, and in the green part that falls from 204 to 0,
/// it is at most half a step away.
pub proof fn law_shares_are_shown_to_the_nearest(part: nat, whole: nat)
    requires
        whole > 0,
        part <= whole,
    ensures
        200 * part - whole <= 2 * (percent(part, whole) * whole) <= 200 * part + whole,
        percent(part, whole) <= 100,
        2000 * part - whole <= 2 * (per_mille(part, whole) * whole) <= 2000 * part + whole,
        per_mille(part, whole) <= 1000,
        102 * part - whole <= 2 * ((red(part, whole) - 204) * whole) <= 102 * part + whole,
        204 <= red(part, whole) <= 255,
        408 * (whole - part) - whole <= 2 * (green(part, whole) * whole) <= 408 * (whole - part)
            + whole,
        green(part, whole) <= 204,
{
    lemma_half_away(part * 100, whole);
    lemma_half_away(part * 1000, whole);
    lemma_half_away(part * 51, whole);
    lemma_half_away((204 * (whole - part)) as nat, whole);
    lemma_red(part, whole);
    lemma_green(part, whole);
    let p = percent(part, whole);
    assert(p <= 100) by (nonlinear_arith)
        requires
            2 * (p * whole) <= 200 * part + whole,
            part <= whole,
            whole > 0,
    ;
    let m = per_mille(part, whole);
    assert(m <= 1000) by (nonlinear_arith)
        requires
            2 * (m * whole) <= 2000 * part + whole,
            part <= whole,
            whole > 0,
    ;
}

/// More of a mine is never less red, nor more green.
pub proof fn law_colour_follows_the_share(a: nat, b: nat, whole: nat)
    requires
        whole > 0,
        a <= b <= whole,
    ensures
        red(a, whole) <= red(b, whole),
        green(a, whole) >= green(b, whole),
        red(0, whole) == 204,
        green(0, whole) == 204,
        red(whole, whole) == 255,
        green(whole, whole) == 0,
{
    vstd::arithmetic::div_mod::lemma_div_is_ordered(
        (2 * (204 * whole + 51 * a) + whole) as int,
        (2 * (204 * whole + 51 * b) + whole) as int,
        (2 * whole) as int,
    );
    vstd::arithmetic::div_mod::lemma_div_is_ordered(
        2 * (204 * (whole - b)) + whole,
        2 * (204 * (whole - a)) + whole,
        (2 * whole) as int,
    );
    assert(2 * (204 * whole) + whole == 204 * (2 * whole) + whole) by (nonlinear_arith);
    lemma_divided(2 * (204 * whole) + whole, 2 * whole, 204, whole);
    assert(2 * (204 * whole + 51 * whole) + whole == 255 * (2 * whole) + whole)
        by (nonlinear_arith);
    lemma_divided(2 * (204 * whole + 51 * whole) + whole, 2 * whole, 255, whole);
    assert(0 * (2 * whole) == 0) by (nonlinear_arith);
    lemma_divided(whole, 2 * whole, 0, whole);
}

/// A colour in hexadecimal notation; green and blue are the same.
pub open spec fn hex_colour(colour: (u8, u8)) -> Seq<char> {
    "#"@ + text::hex_byte(colour.0) + text::hex_byte(colour.1) + text::hex_byte(colour.1)
}

/// Writes a colour in hexadecimal notation.
pub fn hex_colour_text(colour: (u8, u8)) -> (out: String)
    ensures
        out@ == hex_colour(colour),
{
    let mut out: String = String::new();
    text::append_text(&mut out, "#");
    text::append_hex_byte(&mut out, colour.0);
    text::append_hex_byte(&mut out, colour.1);
    text::append_hex_byte(&mut out, colour.1);
    assert(out@ =~= hex_colour(colour));
    out
}

/// A colour as three decimal numbers.
pub open spec fn rgb_colour(colour: (u8, u8)) -> Seq<char> {
    "rgb("@ + text::decimal(colour.0 as nat) + ","@ + text::decimal(colour.1 as nat) + ","@
        + text::decimal(colour.1 as nat) + ")"@
}

/// Writes a colour as three decimal numbers.
pub fn rgb_colour_text(colour: (u8, u8)) -> (out: String)
    ensures
        out@ == rgb_colour(colour),
{
    let mut out: String = String::new();
    text::append_text(&mut out, "rgb(");
    text::append_decimal(&mut out, colour.0 as u64);
    text::append_text(&mut out, ",");
    text::append_decimal(&mut out, colour.1 as u64);
    text::append_text(&mut out, ",");
    text::append_decimal(&mut out, colour.1 as u64);
    text::append_text(&mut out, ")");
    assert(out@ =~= rgb_colour(colour));
    out
}

// ---------------------------------------------------------------------------
// Sizes
// ---------------------------------------------------------------------------

/// A memory size: in bytes, or in tenths of a larger unit.
pub open spec fn memory_words(bytes: nat) -> Seq<char> {
    if bytes < 1024 {
        text::decimal(bytes) + " B"@
    } else if bytes < 1048576 {
        tenths(nearest(bytes * 10, 1024)) + " KB"@
    } else {
        tenths(nearest(bytes * 10, 1048576)) + " MB"@
    }
}

/// Rounds to tenths of a unit.
fn in_tenths(bytes: u64, unit: u64) -> (n: u64)
    requires
        1024 <= unit <= 1048576,
    ensures
        n == nearest(bytes as nat * 10, unit as nat),
{
    let q: u64 = bytes / unit;
    let rest: u64 = bytes % unit;
    proof {
        let (b, u) = (bytes as int, unit as int);
        vstd::arithmetic::div_mod::lemma_fundamental_div_mod(b, u);
        assert(q * 1024 <= b) by (nonlinear_arith)
            requires
                b == u * q + rest,
                u >= 1024,
                q >= 0,
                rest >= 0,
        ;
    }
    let part: u64 = rest * 10 / unit;
    let over: u64 = rest * 10 % unit;
    let low: u64 = q * 10 + part;
    proof {
        let (b, u) = (bytes as nat, unit as nat);
        let (q0, r0, p0, o0) = (q as nat, rest as nat, part as nat, over as nat);
        vstd::arithmetic::div_mod::lemma_fundamental_div_mod((r0 * 10) as int, u as int);
        assert(b * 10 == (q0 * 10 + p0) * u + o0) by (nonlinear_arith)
            requires
                b == u * q0 + r0,
                r0 * 10 == u * p0 + o0,
        ;
        lemma_divided(b * 10, u, low as nat, o0);
        assert(p0 <= 10) by (nonlinear_arith)
            requires
                r0 * 10 == u * p0 + o0,
                r0 < u,
                o0 >= 0,
        ;
    }
    if 2 * over < unit || 2 * over == unit && low % 2 == 0 {
        low
    } else {
        low + 1
    }
}

/// Human-readable memory size (B / KB / MB).
pub fn fmt_memory(bytes: usize) -> (out: String)
    ensures
        out@ == memory_words(bytes as nat),
{
    let mut out: String = String::new();
    if bytes < 1024 {
        text::append_decimal(&mut out, bytes as u64);
        text::append_text(&mut out, " B");
    } else if bytes < 1048576 {
        append_tenths(&mut out, in_tenths(bytes as u64, 1024));
        text::append_text(&mut out, " KB");
    } else {
        append_tenths(&mut out, in_tenths(bytes as u64, 1048576));
        text::append_text(&mut out, " MB");
    }
    assert(out@ =~= memory_words(bytes as nat));
    out
}

// ---------------------------------------------------------------------------
// Counts
// ---------------------------------------------------------------------------

/// A power of ten.
pub open spec fn ten_to(k: nat) -> nat
    decreases k,
{
    if k == 0 {
        1
    } else {
        10 * ten_to((k - 1) as nat)
    }
}

/// The power of ten that a number starts with.
pub open spec fn magnitude(v: nat) -> nat
    decreases v,
{
    if v < 10 {
        0
    } else {
        1 + magnitude(v / 10)
    }
}

/// A number of hundredths below ten, and a power of ten.
pub open spec fn power_words(hundredths: nat, e: nat) -> Seq<char> {
    text::decimal(hundredths / 100) + "."@ + text::decimal(hundredths / 10 % 10) + text::decimal(
        hundredths % 10,
    ) + "e"@ + text::decimal(e)
}

/// A number in scientific notation, with two places behind the point.
pub open spec fn scientific(v: nat) -> Seq<char> {
    let e = magnitude(v);
    let near = nearest(v, ten_to((e - 2) as nat));
    if near < 1000 {
        power_words(near, e)
    } else {
        power_words(100, e + 1)
    }
}

/// Two to a power.
pub open spec fn two_to(k: nat) -> nat
    decreases k,
{
    if k == 0 {
        1
    } else {
        2 * two_to((k - 1) as nat)
    }
}

/// The power of two that the first binary digit of a quotient stands for; the quotient is
/// at least one.
pub open spec fn leading(num: nat, den: nat) -> nat
    decreases num - den,
{
    if den == 0 || num < 2 * den {
        0
    } else {
        1 + leading(num, 2 * den)
    }
}

/// How many binary places a quotient keeps when it is held in 53 binary digits.
pub open spec fn places(num: nat, den: nat) -> nat {
    (52 - leading(num, den)) as nat
}

/// A quotient held in 53 binary digits, in units of the last of them.
pub open spec fn held(num: nat, den: nat) -> nat {
    nearest(num * two_to(places(num, den)), den)
}

/// The tenths of a quotient that is held in 53 binary digits. Where the quotient itself
/// lies in the middle between two tenths, it is what is held that decides.
pub open spec fn held_tenths(num: nat, den: nat) -> nat {
    nearest(10 * held(num, den), two_to(places(num, den)))
}

/// A count: in full, in thousands, millions, billions or trillions, or in scientific
/// notation.
pub open spec fn count_words(v: nat) -> Seq<char> {
    if v < 1_000 {
        text::decimal(v)
    } else if v < 1_000_000 {
        tenths(held_tenths(v, 1_000)) + "K"@
    } else if v < 1_000_000_000 {
        tenths(held_tenths(v, 1_000_000)) + "M"@
    } else if v < 1_000_000_000_000 {
        tenths(held_tenths(v, 1_000_000_000)) + "B"@
    } else if v < 1_000_000_000_000_000 {
        tenths(held_tenths(v, 1_000_000_000_000)) + "T"@
    } else {
        scientific(v)
    }
}

/// Rounds a quotient of machine integers.
fn rounded_wide(num: u128, den: u128) -> (near: u128)
    requires
        1 < den < 0x1_0000_0000_0000_0000,
    ensures
        near == nearest(num as nat, den as nat),
{
    let q: u128 = num / den;
    let rest: u128 = num % den;
    proof {
        vstd::arithmetic::div_mod::lemma_fundamental_div_mod(num as int, den as int);
        assert(2 * q <= num) by (nonlinear_arith)
            requires
                num == den * q + rest,
                den > 1,
                q >= 0,
                rest >= 0,
        ;
    }
    if 2 * rest < den || 2 * rest == den && q % 2 == 0 {
        q
    } else {
        q + 1
    }
}

/// Computes the tenths of a quotient, as 53 binary digits hold it.
fn tenths_held(v: u64, unit: u64) -> (near: u64)
    requires
        1_000 <= unit <= 1_000_000_000_000,
        unit <= v < 1_000 * unit,
    ensures
        near == held_tenths(v as nat, unit as nat),
{
    let wide: u128 = v as u128;
    let mut top: u128 = unit as u128;
    let mut scale: u128 = 0x10_0000_0000_0000;
    let ghost mut e: nat = 0;
    proof {
        lemma_powers_of_two();
        assert(unit * two_to(0) == unit);
    }
    while 2 * top <= wide
        invariant
            wide == v,
            1_000 <= unit <= 1_000_000_000_000,
            unit <= v < 1_000 * unit,
            e <= 9,
            top == unit * two_to(e),
            unit <= top <= wide,
            scale == two_to((52 - e) as nat),
            0x800_0000_0000 <= scale <= 0x10_0000_0000_0000,
            leading(v as nat, unit as nat) == e + leading(v as nat, top as nat),
        decreases wide - top,
    {
        proof {
            lemma_powers_of_two();
            let here = two_to(e);
            let next = two_to(e + 1);
            assert(next == 2 * here);
            assert(2 * (unit * here) == unit * next) by (nonlinear_arith)
                requires
                    next == 2 * here,
            ;
            assert(e < 9) by {
                if e == 9 {
                    assert(unit * next == unit * 1024);
                }
            }
            assert(two_to((52 - e) as nat) == 2 * two_to((51 - e) as nat));
            lemma_two_to_grows(43, (51 - e) as nat);
            e = e + 1;
        }
        top = 2 * top;
        scale = scale / 2;
    }
    proof {
        assert(wide * scale <= 0x7_1AFD_498D_0000 * 0x10_0000_0000_0000) by (nonlinear_arith)
            requires
                wide < 1_000_000_000_000_000,
                scale <= 0x10_0000_0000_0000,
                wide >= 0,
                scale >= 0,
        ;
    }
    let num: u128 = wide * scale;
    let mantissa: u128 = rounded_wide(num, unit as u128);
    proof {
        let q = num as int / unit as int;
        vstd::arithmetic::div_mod::lemma_fundamental_div_mod(num as int, unit as int);
        assert(q < 1_000 * scale) by (nonlinear_arith)
            requires
                num == unit * q + num % (unit as u128),
                num == v * scale,
                v < 1_000 * unit,
                unit > 0,
                scale > 0,
                num % (unit as u128) >= 0,
        ;
        let m = 10 * mantissa as int;
        let t = m / scale as int;
        vstd::arithmetic::div_mod::lemma_fundamental_div_mod(m, scale as int);
        vstd::arithmetic::div_mod::lemma_mod_bound(m, scale as int);
        assert(t <= 10_010) by (nonlinear_arith)
            requires
                m == scale * t + m % (scale as int),
                m <= 10_000 * scale + 10,
                m % (scale as int) >= 0,
                scale > 10,
        ;
    }
    let near: u128 = rounded_wide(10 * mantissa, scale);
    near as u64
}

/// Some powers of two.
proof fn lemma_powers_of_two()
    ensures
        two_to(0) == 1,
        two_to(10) == 1024,
        two_to(43) == 0x800_0000_0000,
        two_to(52) == 0x10_0000_0000_0000,
{
    reveal_with_fuel(two_to, 11);
    assert(two_to(10) == 1024);
    assert(two_to(20) == 0x10_0000);
    assert(two_to(30) == 0x4000_0000);
    assert(two_to(40) == 0x100_0000_0000);
    assert(two_to(43) == 0x800_0000_0000);
    assert(two_to(50) == 0x4_0000_0000_0000);
}

/// A larger power of two.
proof fn lemma_two_to_grows(a: nat, b: nat)
    requires
        a <= b,
    ensures
        two_to(a) <= two_to(b),
    decreases b,
{
    if a < b {
        lemma_two_to_grows(a, (b - 1) as nat);
    }
}

/// Ten to the number of digits that were cut off, and one digit more.
proof fn lemma_cut(v: nat, k: nat, q: nat, low: nat)
    requires
        v == q * ten_to(k) + low,
        low < ten_to(k),
    ensures
        v == (q / 10) * ten_to(k + 1) + ((q % 10) * ten_to(k) + low),
        (q % 10) * ten_to(k) + low < ten_to(k + 1),
        q >= 10 ==> magnitude(v) == k + magnitude(q),
{
    let t = ten_to(k);
    let d = q % 10;
    let h = q / 10;
    assert(q == 10 * h + d);
    assert(v == h * (10 * t) + (d * t + low)) by (nonlinear_arith)
        requires
            v == (10 * h + d) * t + low,
    ;
    assert(d * t + low < 10 * t) by (nonlinear_arith)
        requires
            d <= 9,
            low < t,
    ;
    lemma_magnitude(v, k, q, low);
}

proof fn lemma_magnitude(v: nat, k: nat, q: nat, low: nat)
    requires
        v == q * ten_to(k) + low,
        low < ten_to(k),
    ensures
        q > 0 ==> magnitude(v) == k + magnitude(q),
    decreases k,
{
    if k == 0 {
        assert(q * 1 == q) by (nonlinear_arith);
    } else if q > 0 {
        let t = ten_to((k - 1) as nat);
        let l = low / 10;
        assert(low == 10 * l + low % 10);
        assert(v == 10 * (q * t + l) + low % 10) by (nonlinear_arith)
            requires
                v == q * (10 * t) + low,
                low == 10 * l + low % 10,
        ;
        assert(v / 10 == q * t + l);
        assert(q * t >= t) by (nonlinear_arith)
            requires
                q >= 1,
        ;
        lemma_ten_to((k - 1) as nat);
        assert(v >= 10) by (nonlinear_arith)
            requires
                v == 10 * (q * t + l) + low % 10,
                q * t >= 1,
                l >= 0,
                low % 10 >= 0,
        ;
        lemma_magnitude(v / 10, (k - 1) as nat, q, l);
    }
}

proof fn lemma_ten_to(k: nat)
    ensures
        ten_to(k) >= 1,
        k >= 1 ==> ten_to(k) % 2 == 0 && ten_to(k) >= 10,
    decreases k,
{
    if k > 0 {
        lemma_ten_to((k - 1) as nat);
    }
}

/// Appends a number of any size in decimal notation.
fn append_big(out: &mut String, n: &BigNat)
    requires
        n.wf(),
    ensures
        final(out)@ == old(out)@ + text::decimal(n@),
    decreases n@,
{
    let ghost before = out@;
    let (next, rest): (BigNat, u64) = n.divided_by(10);
    proof {
        lemma_divided(n@, 10, next@, rest as nat);
    }
    if next.is_zero() {
        text::append_decimal(out, rest);
        assert(n@ == rest);
    } else {
        append_big(out, &next);
        text::append_decimal(out, rest);
        assert(out@ =~= before + text::decimal(n@));
    }
}

/// A number cut down to its first three digits.
struct Cut {
    /// The first three digits.
    digits: u64,
    /// How many digits were cut off, and two more.
    power: BigNat,
    /// Where what was cut off stands to half of the last digit that was kept.
    rest: Rest,
}

/// Cuts a number of at least a thousand down to its first three digits.
fn cut(v: &BigNat) -> (result: Cut)
    requires
        v.wf(),
        v@ >= 1000,
    ensures
        100 <= result.digits < 1000,
        result.power.wf(),
        result.power@ == magnitude(v@),
        result.power@ > 2,
        result.digits == v@ / ten_to((result.power@ - 2) as nat),
        result.rest == rest_of(v@, ten_to((result.power@ - 2) as nat)),
{
    let mut q: BigNat = v.copy();
    let mut power: BigNat = BigNat::from_u64(2);
    let mut digit: u64 = 0;
    let mut below: bool = false;
    let ghost mut k: nat = 0;
    let ghost mut low: nat = 0;
    let thousand: BigNat = BigNat::from_u64(1000);
    let one: BigNat = BigNat::from_u64(1);
    proof {
        assert(v@ * 1 == v@) by (nonlinear_arith);
    }
    while !thousand.exceeds(&q)
        invariant
            v.wf(),
            q.wf(),
            power.wf(),
            one.wf(),
            one@ == 1,
            thousand.wf(),
            thousand@ == 1000,
            q@ >= 100,
            power@ == k + 2,
            v@ == q@ * ten_to(k) + low,
            low < ten_to(k),
            digit < 10,
            k == 0 ==> digit == 0 && !below && low == 0 && q@ >= 1000,
            k > 0 ==> cut_off(low, k, digit as nat, below),
        decreases q@,
    {
        let (next, rest): (BigNat, u64) = q.divided_by(10);
        proof {
            lemma_divided(q@, 10, next@, rest as nat);
            lemma_cut(v@, k, q@, low);
            lemma_cut_off(low, k, digit as nat, below, rest as nat);
            low = rest as nat * ten_to(k) + low;
            k = k + 1;
        }
        below = below || digit != 0;
        digit = rest;
        q = next;
        power = power.plus(&one);
    }
    let rest: Rest = if digit < 5 {
        Rest::Less
    } else if digit == 5 && !below {
        Rest::Half
    } else {
        Rest::More
    };
    proof {
        lemma_divided(v@, ten_to(k), q@, low);
        lemma_magnitude(v@, k, q@, low);
        assert(magnitude(q@) == 2) by {
            reveal_with_fuel(magnitude, 4);
        }
        lemma_half(low, k, digit as nat, below);
    }
    let digits: u64 = match q.to_u64() {
        Some(digits) => digits,
        None => 0,
    };
    Cut { digits, power, rest }
}

/// Of `k` digits that were cut off, the first one, and whether any other is not zero.
spec fn cut_off(low: nat, k: nat, digit: nat, below: bool) -> bool {
    let t = ten_to((k - 1) as nat);
    &&& digit * t <= low < (digit + 1) * t
    &&& below == (low > digit * t)
}

proof fn lemma_cut_off(low: nat, k: nat, digit: nat, below: bool, rest: nat)
    requires
        low < ten_to(k),
        k == 0 ==> digit == 0 && !below && low == 0,
        k > 0 ==> cut_off(low, k, digit, below),
    ensures
        cut_off(rest * ten_to(k) + low, k + 1, rest, below || digit != 0),
{
    let t = ten_to(k);
    assert((rest + 1) * t == rest * t + t) by (nonlinear_arith);
    if k > 0 {
        let s = ten_to((k - 1) as nat);
        lemma_ten_to((k - 1) as nat);
        if digit != 0 {
            assert(digit * s >= 1) by (nonlinear_arith)
                requires
                    digit >= 1,
                    s >= 1,
            ;
        } else {
            assert(0 * s == 0) by (nonlinear_arith);
        }
    }
}

proof fn lemma_half(low: nat, k: nat, digit: nat, below: bool)
    requires
        k > 0,
        low < ten_to(k),
        digit < 10,
        cut_off(low, k, digit, below),
    ensures
        2 * low < ten_to(k) <==> digit < 5,
        2 * low == ten_to(k) <==> digit == 5 && !below,
{
    let t = ten_to((k - 1) as nat);
    lemma_ten_to((k - 1) as nat);
    if digit < 5 {
        assert((digit + 1) * t <= 5 * t) by (nonlinear_arith)
            requires
                digit + 1 <= 5,
        ;
    } else if digit > 5 {
        assert(digit * t >= 6 * t) by (nonlinear_arith)
            requires
                digit >= 6,
        ;
    }
}

/// Writes a number of at least a thousand in scientific notation.
fn append_scientific(out: &mut String, v: &BigNat)
    requires
        v.wf(),
        v@ >= 1000,
    ensures
        final(out)@ == old(out)@ + scientific(v@),
{
    let ghost before = out@;
    let short: Cut = cut(v);
    let mut digits: u64 = match short.rest {
        Rest::Less => short.digits,
        Rest::Half => short.digits + short.digits % 2,
        Rest::More => short.digits + 1,
    };
    let mut power: BigNat = short.power;
    if digits >= 1000 {
        digits = 100;
        power = power.plus(&BigNat::from_u64(1));
    }
    text::append_decimal(out, digits / 100);
    text::append_text(out, ".");
    text::append_decimal(out, digits / 10 % 10);
    text::append_decimal(out, digits % 10);
    text::append_text(out, "e");
    append_big(out, &power);
    assert(out@ =~= before + power_words(digits as nat, power@));
}

/// Human-readable count (K / M / B / T / scientific).
pub fn fmt_count(v: &BigNat) -> (out: String)
    requires
        v.wf(),
    ensures
        out@ == count_words(v@),
{
    let mut out: String = String::new();
    match v.to_u64() {
        Some(small) => {
            if small < 1_000 {
                text::append_decimal(&mut out, small);
            } else if small < 1_000_000 {
                append_tenths(&mut out, tenths_held(small, 1_000));
                text::append_text(&mut out, "K");
            } else if small < 1_000_000_000 {
                append_tenths(&mut out, tenths_held(small, 1_000_000));
                text::append_text(&mut out, "M");
            } else if small < 1_000_000_000_000 {
                append_tenths(&mut out, tenths_held(small, 1_000_000_000));
                text::append_text(&mut out, "B");
            } else if small < 1_000_000_000_000_000 {
                append_tenths(&mut out, tenths_held(small, 1_000_000_000_000));
                text::append_text(&mut out, "T");
            } else {
                append_scientific(&mut out, v);
            }
        },
        None => append_scientific(&mut out, v),
    }
    assert(out@ =~= count_words(v@));
    out
}

/// A size is shown to the byte below a kilobyte, and above to the nearest tenth of a kilobyte
/// or, from a megabyte on, of a megabyte.
pub proof fn law_sizes_are_shown_to_the_nearest(bytes: nat)
    ensures
        bytes < 1024 ==> memory_words(bytes) == text::decimal(bytes) + " B"@,
        1024 <= bytes < 1048576 ==> exists|t: nat|
            memory_words(bytes) == #[trigger] tenths(t) + " KB"@ && 20 * bytes - 1024 <= 2048 * t
                <= 20 * bytes + 1024,
        1048576 <= bytes ==> exists|t: nat|
            memory_words(bytes) == #[trigger] tenths(t) + " MB"@ && 20 * bytes - 1048576 <= 2097152
                * t <= 20 * bytes + 1048576,
{
    if bytes >= 1048576 {
        let t = nearest(bytes * 10, 1048576);
        lemma_half_away(bytes * 10, 1048576);
        assert(memory_words(bytes) == tenths(t) + " MB"@);
    } else if bytes >= 1024 {
        let t = nearest(bytes * 10, 1024);
        lemma_half_away(bytes * 10, 1024);
        assert(memory_words(bytes) == tenths(t) + " KB"@);
    }
}

/// A number of tenths is read as the number: what stands before the point are the ones, and
/// behind it is one digit.
pub proof fn law_tenths_read_as_written(n: nat)
    ensures
        text::number_read(text::decimal(n / 10)) * 10 + text::number_read(text::decimal(n % 10))
            == n,
        text::decimal(n % 10).len() == 1,
        tenths(n) == text::decimal(n / 10) + "."@ + text::decimal(n % 10),
{
    text::law_numbers_read_as_written(n / 10);
    text::law_numbers_read_as_written(n % 10);
}

/// A quotient below `1024` has its first binary digit at most nine places before the point.
proof fn lemma_leading(num: nat, den: nat, k: nat)
    requires
        den > 0,
        num < two_to(k + 1) * den,
    ensures
        leading(num, den) <= k,
    decreases k,
{
    if num >= 2 * den {
        if k == 0 {
            assert(two_to(1) == 2 * two_to(0));
        } else {
            let here = two_to(k);
            assert(two_to(k + 1) == 2 * here);
            assert(2 * here * den == here * (2 * den)) by (nonlinear_arith);
            lemma_leading(num, 2 * den, (k - 1) as nat);
        }
    }
}

/// What is held of a quotient gives its tenths to the nearest, but for one part in twenty of
/// the last unit.
proof fn lemma_held_tenths(num: nat, den: nat)
    requires
        0 < den <= 1_000_000_000_000,
        num < 1000 * den,
    ensures
        20 * num - den - 1 <= 2 * (held_tenths(num, den) * den) <= 20 * num + den + 1,
{
    lemma_powers_of_two();
    assert(num < 1024 * den) by (nonlinear_arith)
        requires
            num < 1000 * den,
            den > 0,
    ;
    lemma_leading(num, den, 9);
    let place = places(num, den);
    let scale = two_to(place);
    lemma_two_to_grows(43, place);
    let h = held(num, den);
    let t = held_tenths(num, den);
    lemma_half_away(num * scale, den);
    lemma_half_away(10 * h, scale);
    assert(2 * (num * scale) - den <= 2 * (h * den) <= 2 * (num * scale) + den);
    assert(20 * h - scale <= 2 * (t * scale) <= 20 * h + scale);
    let (n, d, s, x, y) = (num as int, den as int, scale as int, h as int, t as int);
    assert((2 * (y * d) - 20 * n - d - 2) * s < 0) by (nonlinear_arith)
        requires
            2 * (y * s) <= 20 * x + s,
            2 * (x * d) <= 2 * (n * s) + d,
            10 * d < 2 * s,
            d > 0,
            s > 0,
    ;
    assert((20 * n - d - 2 - 2 * (y * d)) * s < 0) by (nonlinear_arith)
        requires
            20 * x - s <= 2 * (y * s),
            2 * (n * s) - d <= 2 * (x * d),
            10 * d < 2 * s,
            d > 0,
            s > 0,
    ;
    assert(2 * (y * d) - 20 * n - d - 2 < 0) by (nonlinear_arith)
        requires
            (2 * (y * d) - 20 * n - d - 2) * s < 0,
            s > 0,
    ;
    assert(20 * n - d - 2 - 2 * (y * d) < 0) by (nonlinear_arith)
        requires
            (20 * n - d - 2 - 2 * (y * d)) * s < 0,
            s > 0,
    ;
}

/// Whether a text is a number of tenths of a unit, to the nearest of them, with a letter for
/// the unit. One part in twenty of the smallest amount may be lost on the way.
pub open spec fn tells_tenths(words: Seq<char>, v: nat, unit: nat, letter: Seq<char>) -> bool {
    exists|t: nat| #[trigger]
        tenths(t) + letter == words && 20 * v - unit - 1 <= 2 * (t * unit) <= 20 * v + unit + 1
}

/// A count is shown in full below a thousand, and above to the nearest tenth of a thousand, a
/// million, a billion or a trillion.
pub proof fn law_counts_are_shown_to_the_nearest(v: nat)
    ensures
        v < 1_000 ==> count_words(v) == text::decimal(v),
        1_000 <= v < 1_000_000 ==> tells_tenths(count_words(v), v, 1_000, "K"@),
        1_000_000 <= v < 1_000_000_000 ==> tells_tenths(count_words(v), v, 1_000_000, "M"@),
        1_000_000_000 <= v < 1_000_000_000_000 ==> tells_tenths(
            count_words(v),
            v,
            1_000_000_000,
            "B"@,
        ),
        1_000_000_000_000 <= v < 1_000_000_000_000_000 ==> tells_tenths(
            count_words(v),
            v,
            1_000_000_000_000,
            "T"@,
        ),
{
    if 1_000 <= v < 1_000_000 {
        lemma_held_tenths(v, 1_000);
        assert(tenths(held_tenths(v, 1_000)) + "K"@ == count_words(v));
    } else if 1_000_000 <= v < 1_000_000_000 {
        lemma_held_tenths(v, 1_000_000);
        assert(tenths(held_tenths(v, 1_000_000)) + "M"@ == count_words(v));
    } else if 1_000_000_000 <= v < 1_000_000_000_000 {
        lemma_held_tenths(v, 1_000_000_000);
        assert(tenths(held_tenths(v, 1_000_000_000)) + "B"@ == count_words(v));
    } else if 1_000_000_000_000 <= v < 1_000_000_000_000_000 {
        lemma_held_tenths(v, 1_000_000_000_000);
        assert(tenths(held_tenths(v, 1_000_000_000_000)) + "T"@ == count_words(v));
    }
}

/// A number has one digit more than its magnitude.
proof fn lemma_magnitude_bounds(v: nat)
    requires
        v > 0,
    ensures
        ten_to(magnitude(v)) <= v < ten_to(magnitude(v) + 1),
    decreases v,
{
    if v >= 10 {
        lemma_magnitude_bounds(v / 10);
        let t = ten_to(magnitude(v / 10));
        assert(ten_to(magnitude(v)) == 10 * t);
        assert(ten_to(magnitude(v) + 1) == 10 * (10 * t));
    } else {
        assert(ten_to(0) == 1);
        assert(ten_to(1) == 10 * ten_to(0));
    }
}

/// A larger count is shown in scientific notation: three digits, to the nearest, and the
/// power of ten of the first.
pub proof fn law_large_counts_are_shown_to_three_digits(v: nat)
    requires
        v >= 1_000_000_000_000_000,
    ensures
        exists|digits: nat, e: nat|
            {
                &&& #[trigger] power_words(digits, e) == count_words(v)
                &&& 100 <= digits < 1000
                &&& e >= 2
                &&& 2 * v - ten_to((e - 2) as nat) <= 2 * (digits * ten_to((e - 2) as nat)) <= 2 * v
                    + ten_to((e - 2) as nat)
            },
{
    let e = magnitude(v);
    lemma_magnitude_bounds(v);
    assert(e >= 2) by {
        if e == 0 {
            assert(ten_to(1) == 10 * ten_to(0));
        } else if e == 1 {
            assert(ten_to(1) == 10 * ten_to(0));
            assert(ten_to(2) == 10 * ten_to(1));
        }
    }
    let t = ten_to((e - 2) as nat);
    lemma_ten_to((e - 2) as nat);
    assert(ten_to((e - 1) as nat) == 10 * t);
    assert(ten_to(e) == 10 * ten_to((e - 1) as nat));
    assert(ten_to(e + 1) == 10 * ten_to(e));
    let near = nearest(v, t);
    lemma_half_away(v, t);
    assert(100 <= near) by (nonlinear_arith)
        requires
            2 * v - t <= 2 * (near * t),
            v >= 100 * t,
            t > 0,
    ;
    assert(near <= 1000) by (nonlinear_arith)
        requires
            2 * (near * t) <= 2 * v + t,
            v < 1000 * t,
            t > 0,
    ;
    if near < 1000 {
        assert(power_words(near, e) == count_words(v));
    } else {
        assert(power_words(100, e + 1) == count_words(v));
        assert(ten_to((e + 1 - 2) as nat) == 10 * t);
        assert(near * t == 100 * (10 * t)) by (nonlinear_arith)
            requires
                near == 1000,
        ;
    }
}

} // verus!
