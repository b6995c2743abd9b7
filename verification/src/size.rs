//! Sizes in bytes: how they are shown, and how they are read.
use crate::numbers;
use crate::text;
use vstd::arithmetic::power2::lemma2_to64;
use vstd::arithmetic::power2::lemma_pow2_pos;
use vstd::arithmetic::power2::lemma_pow2_unfold;
use vstd::arithmetic::power2;
use vstd::prelude::*;

verus! {

/// 2^53: whole numbers below it are kept exactly by double precision.
pub const EXACT_LIMIT: u64 = 0x20_0000_0000_0000;

/// `n / d` rounded to the nearest whole number, ties to the even one.
pub open spec fn half_even(n: int, d: int) -> int {
    let q = n / d;
    let r = n % d;
    if 2 * r > d || (2 * r == d && q % 2 == 1) {
        q + 1
    } else {
        q
    }
}

/// The spacing of double-precision numbers around `n`: the smallest of `u`,
/// `2 * u`, `4 * u`, ... by which `n` has at most 53 bits.
pub open spec fn spacing(n: int, u: int) -> int
    decreases
        (if u > n {
            0
        } else {
            n - u + 1
        }),
{
    if u <= 0 || u > n || n / u < EXACT_LIMIT {
        u
    } else {
        spacing(n, 2 * u)
    }
}

/// The double-precision number nearest to `n`.
pub open spec fn as_double(n: int) -> int {
    let u = spacing(n, 1);
    half_even(n, u) * u
}

/// `hundredths` as a decimal number with two places.
pub open spec fn two_places(hundredths: int) -> Seq<char> {
    numbers::decimal(hundredths / 100).push('.').push(
        numbers::digit_char(hundredths / 10 % 10),
    ).push(numbers::digit_char(hundredths % 10))
}

/// How a size is shown: in the largest of the units GiB, MiB and KiB that it
/// reaches, with two places, or else as a number of bytes.
pub open spec fn shown(bytes: u64) -> Seq<char> {
    let b = as_double(bytes as int);
    if b >= 0x4000_0000 {
        two_places(half_even(b * 100, 0x4000_0000)) + " GiB"@
    } else if b >= 0x10_0000 {
        two_places(half_even(b * 100, 0x10_0000)) + " MiB"@
    } else if b >= 1024 {
        two_places(half_even(b * 100, 1024)) + " KiB"@
    } else {
        numbers::decimal(bytes as int) + " bytes"@
    }
}

/// Append a decimal number with two places.
fn push_two_places(s: &mut String, hundredths: u64)
    ensures
        final(s)@ == old(s)@ + two_places(hundredths as int),
{
    let ghost start = s@;
    numbers::push_decimal(s, hundredths / 100);
    s.push('.');
    s.push(numbers::digit(hundredths / 10 % 10));
    s.push(numbers::digit(hundredths % 10));
    assert(s@ =~= start + two_places(hundredths as int));
}

/// `n / d` rounded to the nearest whole number, ties to the even one.
fn round_half_even(n: u128, d: u128) -> (r: u128)
    requires
        0 < d <= 0x1_0000_0000,
        n <= 0x1_0000_0000_0000_0000_0000,
    ensures
        r == half_even(n as int, d as int),
        r <= n + 1,
{
    let q: u128 = n / d;
    let r: u128 = n % d;
    assert(n as int / d as int <= n) by (nonlinear_arith)
        requires
            d > 0,
            n >= 0,
    ;
    if 2 * r > d || (2 * r == d && q % 2 == 1) {
        q + 1
    } else {
        q
    }
}

/// The double-precision number nearest to `n`.
fn nearest_double(n: u64) -> (r: u128)
    ensures
        r == as_double(n as int),
        r <= 0x1_0000_0000_0000_0000,
{
    let mut u: u64 = 1;
    while n / u >= EXACT_LIMIT
        invariant
            is_small_power(u as int),
            spacing(n as int, u as int) == spacing(n as int, 1),
        decreases 4096 - u,
    {
        proof {
            assert(u * EXACT_LIMIT <= n) by (nonlinear_arith)
                requires
                    n / u >= EXACT_LIMIT,
                    u >= 1,
            ;
            assert(n as int / u as int >= EXACT_LIMIT);
        }
        u = u * 2;
    }
    proof {
        assert(n as int / u as int == (n / u) as int);
        assert((n / u) * u <= n) by (nonlinear_arith)
            requires
                u >= 1,
        ;
        lemma_round_bound(n as int, u as int);
    }
    let q: u128 = round_half_even(n as u128, u as u128);
    q * (u as u128)
}

/// A power of two up to 2048.
spec fn is_small_power(u: int) -> bool {
    u == 1 || u == 2 || u == 4 || u == 8 || u == 16 || u == 32 || u == 64 || u == 128 || u == 256
        || u == 512 || u == 1024 || u == 2048
}

proof fn lemma_round_bound(n: int, u: int)
    requires
        0 <= n <= u64::MAX,
        is_small_power(u),
    ensures
        half_even(n, u) * u <= 0x1_0000_0000_0000_0000,
{
    if u == 1 {
        assert(half_even(n, 1) * 1 <= 0x1_0000_0000_0000_0000);
    } else if u == 2 {
        assert(half_even(n, 2) * 2 <= 0x1_0000_0000_0000_0000);
    } else if u == 4 {
        assert(half_even(n, 4) * 4 <= 0x1_0000_0000_0000_0000);
    } else if u == 8 {
        assert(half_even(n, 8) * 8 <= 0x1_0000_0000_0000_0000);
    } else if u == 16 {
        assert(half_even(n, 16) * 16 <= 0x1_0000_0000_0000_0000);
    } else if u == 32 {
        assert(half_even(n, 32) * 32 <= 0x1_0000_0000_0000_0000);
    } else if u == 64 {
        assert(half_even(n, 64) * 64 <= 0x1_0000_0000_0000_0000);
    } else if u == 128 {
        assert(half_even(n, 128) * 128 <= 0x1_0000_0000_0000_0000);
    } else if u == 256 {
        assert(half_even(n, 256) * 256 <= 0x1_0000_0000_0000_0000);
    } else if u == 512 {
        assert(half_even(n, 512) * 512 <= 0x1_0000_0000_0000_0000);
    } else if u == 1024 {
        assert(half_even(n, 1024) * 1024 <= 0x1_0000_0000_0000_0000);
    } else {
        assert(half_even(n, 2048) * 2048 <= 0x1_0000_0000_0000_0000);
    }
}

/// Show a size.
pub fn format_size(bytes: u64) -> (r: String)
    ensures
        r@ == shown(bytes),
{
    let b: u128 = nearest_double(bytes);
    let mut s = String::new();
    if b >= 0x4000_0000 {
        push_two_places(&mut s, round_half_even(b * 100, 0x4000_0000) as u64);
        s.append(" GiB");
    } else if b >= 0x10_0000 {
        push_two_places(&mut s, round_half_even(b * 100, 0x10_0000) as u64);
        s.append(" MiB");
    } else if b >= 1024 {
        push_two_places(&mut s, round_half_even(b * 100, 1024) as u64);
        s.append(" KiB");
    } else {
        numbers::push_decimal(&mut s, bytes);
        s.append(" bytes");
    }
    assert(s@ =~= shown(bytes));
    s
}

/// A law on small sizes: below the limit of exactness nothing is rounded before
/// the two places are.
pub proof fn law_small_sizes_are_exact(bytes: u64)
    requires
        bytes < EXACT_LIMIT,
    ensures
        as_double(bytes as int) == bytes,
{
    assert(bytes as int / 1 == bytes as int);
    assert(bytes as int % 1 == 0);
    assert(spacing(bytes as int, 1) == 1);
}

/// The unit of a size: a letter at the end stands for a power of 1024.
pub open spec fn unit_exponent(s: Seq<char>) -> nat {
    if s.len() == 0 {
        0
    } else {
        match s.last() {
            'K' => 10,
            'k' => 10,
            'M' => 20,
            'm' => 20,
            'G' => 30,
            'g' => 30,
            'T' => 40,
            't' => 40,
            _ => 0,
        }
    }
}

/// A size taken apart: the number, still as text, and the power of two that it
/// is multiplied by.
pub struct SizeParts {
    pub number: String,
    pub exponent: u32,
}

/// Take a size like "50G", "512M", "1024K", or plain bytes apart.
pub fn split_size(s: &str) -> (r: SizeParts)
    ensures
        ({
            let t = text::trimmed(s@);
            &&& r.exponent == unit_exponent(t)
            &&& r.number@ == if unit_exponent(t) > 0 {
                t.drop_last()
            } else {
                t
            }
        }),
{
    let t = text::trim(s);
    let x = text::chars_of(t.as_str());
    if x.len() == 0 {
        return SizeParts { number: t, exponent: 0 };
    }
    let exponent: u32 = match x[x.len() - 1] {
        'K' => 10,
        'k' => 10,
        'M' => 20,
        'm' => 20,
        'G' => 30,
        'g' => 30,
        'T' => 40,
        't' => 40,
        _ => 0,
    };
    if exponent == 0 {
        SizeParts { number: t, exponent }
    } else {
        let number = text::text_of(&x, 0, x.len() - 1);
        assert(number@ =~= t@.drop_last());
        SizeParts { number, exponent }
    }
}

/// The sign bit of a double-precision number.
pub open spec fn is_signed(bits: u64) -> bool {
    bits >= 0x8000_0000_0000_0000
}

/// The exponent field of a double-precision number.
pub open spec fn exponent_field(bits: u64) -> int {
    (bits as int / 0x10_0000_0000_0000) % 2048
}

/// The significand of a finite double-precision number, a whole number.
pub open spec fn significand(bits: u64) -> int {
    let fraction = bits as int % 0x10_0000_0000_0000;
    if exponent_field(bits) == 0 {
        fraction
    } else {
        0x10_0000_0000_0000 + fraction
    }
}

/// The power of two that the significand is multiplied by.
pub open spec fn scale(bits: u64) -> int {
    if exponent_field(bits) == 0 {
        -1074
    } else {
        exponent_field(bits) - 1075
    }
}

/// `m * 2^e` without its fraction.
pub open spec fn scaled(m: int, e: int) -> int {
    if e >= 0 {
        m * power2::pow2(e as nat)
    } else {
        m / power2::pow2((-e) as nat) as int
    }
}

/// The bytes that a double-precision number, given by its bits, and a power of
/// two stand for. Infinite and negative numbers and more than 2^64 bytes are
/// out of range.
pub open spec fn bytes_of(bits: u64, exponent: nat) -> Option<u64> {
    let m = significand(bits);
    let v = scaled(m, scale(bits) + exponent);
    if exponent_field(bits) == 2047 || (is_signed(bits) && m != 0) || v
        > 0x1_0000_0000_0000_0000 {
        None
    } else if v > u64::MAX {
        Some(u64::MAX)
    } else {
        Some(v as u64)
    }
}

proof fn lemma_halve(m: int, k: nat)
    requires
        0 <= m,
    ensures
        m / power2::pow2(k + 1) as int == (m / 2) / power2::pow2(k) as int,
{
    lemma_pow2_unfold(k + 1);
    lemma_pow2_pos(k);
    let p = power2::pow2(k) as int;
    assert(power2::pow2(k + 1) == 2 * p);
    vstd::arithmetic::div_mod::lemma_div_denominator(m, 2, p);
}

proof fn lemma_double(m: int, k: nat)
    requires
        0 <= m,
    ensures
        m * power2::pow2(k + 1) == (2 * m) * power2::pow2(k),
        m * power2::pow2(k) >= m,
{
    lemma_pow2_unfold(k + 1);
    lemma_pow2_pos(k);
    let p = power2::pow2(k) as int;
    assert(m * (2 * p) == (2 * m) * p) by (nonlinear_arith);
    assert(m * p >= m) by (nonlinear_arith)
        requires
            m >= 0,
            p >= 1,
    ;
}

/// The bytes that a double-precision number, given by its bits, and a power of
/// two stand for.
pub fn scale_size(bits: u64, exponent: u32) -> (r: Option<u64>)
    requires
        exponent <= 40,
    ensures
        r == bytes_of(bits, exponent as nat),
{
    let field: u64 = (bits / 0x10_0000_0000_0000) % 2048;
    let fraction: u64 = bits % 0x10_0000_0000_0000;
    if field == 2047 {
        return None;
    }
    let m: u64 = if field == 0 {
        fraction
    } else {
        0x10_0000_0000_0000 + fraction
    };
    let e: i64 = if field == 0 {
        -1074 + exponent as i64
    } else {
        field as i64 - 1075 + exponent as i64
    };
    if bits >= 0x8000_0000_0000_0000 && m != 0 {
        return None;
    }
    let ghost want = scaled(significand(bits), scale(bits) + exponent);
    assert(m == significand(bits));
    assert(e == scale(bits) + exponent);
    if e < 0 {
        let mut v: u64 = m;
        let mut k: i64 = -e;
        while k > 0
            invariant
                0 <= k,
                v <= m,
                v as int / power2::pow2(k as nat) as int == want,
            decreases k,
        {
            proof {
                lemma_halve(v as int, (k - 1) as nat);
            }
            v = v / 2;
            k -= 1;
        }
        proof {
            lemma2_to64();
            assert(v as int / 1 == v as int);
        }
        Some(v)
    } else {
        let mut v: u128 = m as u128;
        let mut k: i64 = e;
        proof {
            assert(want == v * power2::pow2(k as nat));
        }
        while k > 0
            invariant
                0 <= k,
                v <= 0x1_0000_0000_0000_0000,
                v * power2::pow2(k as nat) == want,
                field == exponent_field(bits),
                field != 2047,
                want == scaled(significand(bits), scale(bits) + exponent),
            decreases k,
        {
            proof {
                lemma_double(v as int, (k - 1) as nat);
                lemma_double(2 * v as int, (k - 1) as nat);
            }
            v = v * 2;
            if v > 0x1_0000_0000_0000_0000 {
                return None;
            }
            k -= 1;
        }
        proof {
            lemma2_to64();
            assert(v * 1 == want);
        }
        if v > u64::MAX as u128 {
            Some(u64::MAX)
        } else {
            Some(v as u64)
        }
    }
}

/// Rounding gives the nearest whole number, and of two that are equally near
/// the even one.
pub proof fn law_rounding_is_nearest(n: int, d: int)
    requires
        d > 0,
    ensures
        -d <= 2 * (half_even(n, d) * d - n) <= d,
        2 * (half_even(n, d) * d - n) == d || 2 * (half_even(n, d) * d - n) == -d ==> half_even(
            n,
            d,
        ) % 2 == 0,
{
    let q = n / d;
    let r = n % d;
    vstd::arithmetic::div_mod::lemma_fundamental_div_mod(n, d);
    vstd::arithmetic::div_mod::lemma_mod_bound(n, d);
    assert(d * q == q * d) by (nonlinear_arith);
    assert((q + 1) * d == q * d + d) by (nonlinear_arith);
}

proof fn lemma_spacing(n: int, u: int)
    requires
        0 < u,
        0 <= n,
        u == 1 || u * 0x10_0000_0000_0000 <= n,
    ensures
        spacing(n, u) >= 1,
        spacing(n, u) == 1 || spacing(n, u) * 0x10_0000_0000_0000 <= n,
        n < spacing(n, u) * EXACT_LIMIT,
    decreases
            (if u > n {
                0
            } else {
                n - u + 1
            }),
{
    if u > n {
        assert(n < u * EXACT_LIMIT) by (nonlinear_arith)
            requires
                u > n,
                n >= 0,
        ;
    } else if n / u < EXACT_LIMIT {
        vstd::arithmetic::div_mod::lemma_fundamental_div_mod(n, u);
        vstd::arithmetic::div_mod::lemma_mod_bound(n, u);
        let q = n / u;
        assert(u * q + u <= u * EXACT_LIMIT) by (nonlinear_arith)
            requires
                q + 1 <= EXACT_LIMIT,
                u > 0,
        ;
        assert(u * EXACT_LIMIT == EXACT_LIMIT * u) by (nonlinear_arith);
    } else {
        vstd::arithmetic::div_mod::lemma_fundamental_div_mod(n, u);
        vstd::arithmetic::div_mod::lemma_mod_bound(n, u);
        let q = n / u;
        assert(u * q >= u * EXACT_LIMIT) by (nonlinear_arith)
            requires
                q >= EXACT_LIMIT,
                u > 0,
        ;
        assert((2 * u) * 0x10_0000_0000_0000 == u * EXACT_LIMIT) by (nonlinear_arith)
            requires
                EXACT_LIMIT == 0x20_0000_0000_0000,
        ;
        lemma_spacing(n, 2 * u);
    }
}

/// A size as double precision holds it is off by no more than one part in 2^53,
/// and not at all where it has no more than 53 bits.
pub proof fn law_doubles_are_near(bytes: u64)
    ensures
        -bytes <= (as_double(bytes as int) - bytes) * 0x20_0000_0000_0000 <= bytes,
        bytes < 0x20_0000_0000_0000 ==> as_double(bytes as int) == bytes,
{
    let n = bytes as int;
    let u = spacing(n, 1);
    lemma_spacing(n, 1);
    if bytes < EXACT_LIMIT {
        law_small_sizes_are_exact(bytes);
    } else {
        law_rounding_is_nearest(n, u);
        let off = half_even(n, u) * u - n;
        assert(u > 1);
        assert(-n <= off * 0x20_0000_0000_0000 <= n) by (nonlinear_arith)
            requires
                -u <= 2 * off <= u,
                u * 0x10_0000_0000_0000 <= n,
        ;
    }
}

/// A size below 2^53 is shown in the largest unit that it reaches, where a KiB
/// has 1024 bytes, a MiB 1024 KiB and a GiB 1024 MiB, by the hundredths of the
/// unit that are nearest to it, and in bytes if it reaches none.
pub proof fn law_sizes_are_shown_to_two_places(bytes: u64)
    requires
        bytes < 0x20_0000_0000_0000,
    ensures
        bytes < 1024 ==> shown(bytes) == numbers::decimal(bytes as int) + " bytes"@,
        1024 <= bytes < 1024 * 1024 ==> exists|h: int| #[trigger]
            is_hundredths(bytes as int, 1024, h) && shown(bytes) == two_places(h) + " KiB"@,
        1024 * 1024 <= bytes < 1024 * 1024 * 1024 ==> exists|h: int| #[trigger]
            is_hundredths(bytes as int, 1024int * 1024, h) && shown(bytes) == two_places(h) + " MiB"@,
        1024 * 1024 * 1024 <= bytes ==> exists|h: int| #[trigger]
            is_hundredths(bytes as int, 1024int * 1024 * 1024, h) && shown(bytes) == two_places(h)
                + " GiB"@,
{
    law_small_sizes_are_exact(bytes);
    let b = bytes as int;
    law_rounding_is_nearest(b * 100, 1024);
    law_rounding_is_nearest(b * 100, 0x10_0000);
    law_rounding_is_nearest(b * 100, 0x4000_0000);
    if bytes >= 0x4000_0000 {
        let h = half_even(b * 100, 0x4000_0000);
        assert(is_hundredths(b, 1024int * 1024 * 1024, h));
    } else if bytes >= 0x10_0000 {
        let h = half_even(b * 100, 0x10_0000);
        assert(is_hundredths(b, 1024int * 1024, h));
    } else if bytes >= 1024 {
        let h = half_even(b * 100, 1024);
        assert(is_hundredths(b, 1024, h));
    }
}

/// `bytes` are nearest to `h` hundredths of a unit.
pub open spec fn is_hundredths(bytes: int, unit: int, h: int) -> bool {
    -unit <= 2 * (h * unit - 100 * bytes) <= unit && (2 * (h * unit - 100 * bytes) == unit || 2 * (h
        * unit - 100 * bytes) == -unit ==> h % 2 == 0)
}

/// A number with two places is its digits with a point before the last two.
pub proof fn law_two_places_are_digits(hundredths: int)
    requires
        0 <= hundredths,
    ensures
        ({
            let s = two_places(hundredths);
            let n = s.len();
            &&& n >= 4
            &&& s[n - 3] == '.'
            &&& numbers::all_digits(s.take(n - 3) + s.skip(n - 2))
            &&& numbers::dec_value(s.take(n - 3) + s.skip(n - 2)) == hundredths
            &&& s.take(n - 3) == numbers::decimal(hundredths / 100)
        }),
{
    let whole = numbers::decimal(hundredths / 100);
    let a = numbers::digit_char(hundredths / 10 % 10);
    let b = numbers::digit_char(hundredths % 10);
    let s = two_places(hundredths);
    let n = s.len();
    numbers::lemma_decimal(hundredths / 100);
    assert(s.take(n - 3) =~= whole);
    let digits = s.take(n - 3) + s.skip(n - 2);
    assert(digits =~= whole.push(a).push(b));
    assert(digits.drop_last() =~= whole.push(a));
    assert(digits.drop_last().drop_last() =~= whole);
    assert(numbers::dec_value(whole.push(a)) == hundredths / 100 * 10 + hundredths / 10 % 10);
    assert(numbers::dec_value(digits) == numbers::dec_value(whole.push(a)) * 10 + hundredths % 10);
    assert(hundredths / 100 == hundredths / 10 / 10);
    assert forall|i: int| 0 <= i < digits.len() implies '0' <= #[trigger] digits[i] <= '9' by {
        if i < whole.len() {
            assert(digits[i] == whole[i]);
        }
    }
}

/// Each unit of a size is 1024 times the one before, in either case, and no
/// other letter is a unit.
pub proof fn law_units_of_size(s: Seq<char>, c: char)
    ensures
        power2::pow2(unit_exponent(s.push('K'))) == 1024,
        power2::pow2(unit_exponent(s.push('M'))) == 1024 * 1024,
        power2::pow2(unit_exponent(s.push('G'))) == 1024 * 1024 * 1024,
        power2::pow2(unit_exponent(s.push('T'))) == 1024 * 1024 * 1024 * 1024,
        unit_exponent(s.push('k')) == unit_exponent(s.push('K')),
        unit_exponent(s.push('m')) == unit_exponent(s.push('M')),
        unit_exponent(s.push('g')) == unit_exponent(s.push('G')),
        unit_exponent(s.push('t')) == unit_exponent(s.push('T')),
        !seq!['K', 'M', 'G', 'T', 'k', 'm', 'g', 't'].contains(c) ==> unit_exponent(s.push(c)) == 0,
        unit_exponent(Seq::empty()) == 0,
{
    lemma2_to64();
    power2::lemma_pow2_adds(20, 20);
    let units = seq!['K', 'M', 'G', 'T', 'k', 'm', 'g', 't'];
    assert(units[0] == 'K' && units[1] == 'M' && units[2] == 'G' && units[3] == 'T');
    assert(units[4] == 'k' && units[5] == 'm' && units[6] == 'g' && units[7] == 't');
    if !units.contains(c) {
        assert(c != 'K' && c != 'M' && c != 'G' && c != 'T');
        assert(c != 'k' && c != 'm' && c != 'g' && c != 't');
    }
}

/// A whole number that double precision holds is read as itself, times the power
/// of two. 2^64 bytes, which just do not fit into 64 bits, are read as the most
/// that does, and more than that is rejected. `shift` is by how much the number
/// must be shifted to have 53 bits.
pub proof fn law_whole_sizes_are_read_exactly(n: u64, shift: nat, exponent: nat, bits: u64)
    requires
        shift <= 52,
        0x10_0000_0000_0000 <= n * power2::pow2(shift) < 0x20_0000_0000_0000,
        bits == (1075 - shift) * 0x10_0000_0000_0000 + (n * power2::pow2(shift)
            - 0x10_0000_0000_0000),
    ensures
        n * power2::pow2(exponent) <= u64::MAX ==> bytes_of(bits, exponent) == Some(
            (n * power2::pow2(exponent)) as u64,
        ),
        n * power2::pow2(exponent) == 0x1_0000_0000_0000_0000 ==> bytes_of(bits, exponent) == Some(
            u64::MAX,
        ),
        n * power2::pow2(exponent) > 0x1_0000_0000_0000_0000 ==> bytes_of(bits, exponent) is None,
        bytes_of(0, exponent) == Some(0u64),
{
    let m = n * power2::pow2(shift);
    let f = 1075 - shift;
    let rest = m - 0x10_0000_0000_0000;
    assert(bits as int / 0x10_0000_0000_0000 == f && bits as int % 0x10_0000_0000_0000 == rest) by {
        vstd::arithmetic::div_mod::lemma_fundamental_div_mod_converse(
            bits as int,
            0x10_0000_0000_0000,
            f,
            rest,
        );
    }
    assert(exponent_field(bits) == f);
    assert(significand(bits) == m);
    assert(scale(bits) == -shift);
    let e = exponent - shift;
    if e >= 0 {
        power2::lemma_pow2_adds(shift, e as nat);
        let p = power2::pow2(shift) as int;
        let q = power2::pow2(e as nat) as int;
        assert((n * p) * q == n * (p * q)) by (nonlinear_arith);
    } else {
        let k = (-e) as nat;
        power2::lemma_pow2_adds(exponent, k);
        lemma_pow2_pos(k);
        let p = power2::pow2(exponent) as int;
        let q = power2::pow2(k) as int;
        assert(n * (p * q) == (n * p) * q) by (nonlinear_arith);
        vstd::arithmetic::div_mod::lemma_div_multiples_vanish(n * p, q);
        assert((n * p) * q == q * (n * p)) by (nonlinear_arith);
    }
    assert(!is_signed(bits));
    lemma_zero_size(exponent);
}

proof fn lemma_zero_size(exponent: nat)
    ensures
        bytes_of(0, exponent) == Some(0u64),
{
    assert(significand(0) == 0);
    let e = scale(0) + exponent;
    if e >= 0 {
        assert(0 * power2::pow2(e as nat) == 0) by (nonlinear_arith);
    } else {
        lemma_pow2_pos((-e) as nat);
        let p = power2::pow2((-e) as nat) as int;
        assert(0int / p == 0) by (nonlinear_arith)
            requires
                p > 0,
        ;
    }
}

/// Only the fraction is dropped from a size. Numbers below zero, infinities and
/// what is no number are rejected.
pub proof fn law_fractions_are_dropped(bits: u64, exponent: nat, k: nat, m: int)
    requires
        0 <= m,
    ensures
        scaled(m, -(k as int)) * power2::pow2(k) <= m < (scaled(m, -(k as int)) + 1)
            * power2::pow2(k),
        scaled(m, k as int) == m * power2::pow2(k),
        bits > 0x8000_0000_0000_0000 ==> bytes_of(bits, exponent) is None,
        0x7ff0_0000_0000_0000 <= bits ==> bits == 0x8000_0000_0000_0000 || bytes_of(
            bits,
            exponent,
        ) is None,
{
    lemma_pow2_pos(k);
    let p = power2::pow2(k) as int;
    vstd::arithmetic::div_mod::lemma_fundamental_div_mod(m, p);
    vstd::arithmetic::div_mod::lemma_mod_bound(m, p);
    let q = m / p;
    assert((q + 1) * p == p * q + p) by (nonlinear_arith);
    assert(q * p == p * q) by (nonlinear_arith);
    if k == 0 {
        lemma2_to64();
        assert(m * 1 == m && m / 1 == m);
    }
    if 0x7ff0_0000_0000_0000 <= bits < 0x8000_0000_0000_0000 {
        assert(bits as int / 0x10_0000_0000_0000 == 2047);
        assert(exponent_field(bits) == 2047);
    }
    if bits > 0x8000_0000_0000_0000 {
        let fraction = bits as int % 0x10_0000_0000_0000;
        if exponent_field(bits) == 0 {
            assert(bits as int / 0x10_0000_0000_0000 == 2048);
            assert(fraction != 0);
        }
        assert(significand(bits) != 0);
    }
}

} // verus!
