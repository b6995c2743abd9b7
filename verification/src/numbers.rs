//! Unsigned numbers in decimal notation.
use crate::text;
use vstd::prelude::*;

verus! {

/// Every character is a decimal digit.
pub open spec fn all_digits(s: Seq<char>) -> bool {
    forall|i: int| 0 <= i < s.len() ==> '0' <= #[trigger] s[i] <= '9'
}

/// The number that decimal digits stand for.
pub open spec fn dec_value(s: Seq<char>) -> int
    decreases s.len(),
{
    if s.len() == 0 {
        0
    } else {
        dec_value(s.drop_last()) * 10 + (s.last() as int - '0' as int)
    }
}

/// The digits of a number: what follows an optional plus sign.
pub open spec fn digits_of(s: Seq<char>) -> Seq<char> {
    if s.len() > 0 && s[0] == '+' {
        s.drop_first()
    } else {
        s
    }
}

/// The unsigned number that `s` stands for: an optional plus sign and digits
/// only, within 64 bits.
pub open spec fn number(s: Seq<char>) -> Option<u64> {
    let digits = digits_of(s);
    if digits.len() > 0 && all_digits(digits) && dec_value(digits) <= u64::MAX {
        Some(dec_value(digits) as u64)
    } else {
        None
    }
}

proof fn lemma_dec_grows(s: Seq<char>, k: int)
    requires
        all_digits(s),
        0 <= k <= s.len(),
    ensures
        0 <= dec_value(s.take(k)) <= dec_value(s),
    decreases s.len(),
{
    if s.len() == 0 {
        assert(s.take(k) =~= s);
    } else if k == s.len() {
        assert(s.take(k) =~= s);
        let init = s.drop_last();
        assert(all_digits(init)) by {
            assert forall|i: int| 0 <= i < init.len() implies '0' <= #[trigger] init[i]
                <= '9' by {
                assert(init[i] == s[i]);
            }
        }
        lemma_dec_grows(init, init.len() as int);
        assert(init.take(init.len() as int) =~= init);
        assert('0' <= s[s.len() - 1] <= '9');
    } else {
        let init = s.drop_last();
        assert(all_digits(init)) by {
            assert forall|i: int| 0 <= i < init.len() implies '0' <= #[trigger] init[i]
                <= '9' by {
                assert(init[i] == s[i]);
            }
        }
        lemma_dec_grows(init, k);
        assert(init.take(k) =~= s.take(k));
        assert('0' <= s[s.len() - 1] <= '9');
    }
}

/// The unsigned number that the characters stand for.
fn number_of_chars(x: &[char]) -> (r: Option<u64>)
    ensures
        r == number(x@),
{
    let n: usize = x.len();
    let start: usize = if n > 0 && x[0] == '+' {
        1
    } else {
        0
    };
    let ghost digits = digits_of(x@);
    assert(digits =~= x@.skip(start as int));
    if start == n {
        return None;
    }
    let mut value: u64 = 0;
    let mut fits = true;
    let mut i: usize = start;
    assert(digits.take(0) =~= Seq::empty());
    while i < n
        invariant
            n == x@.len(),
            start <= i <= n,
            digits == x@.skip(start as int),
            digits == digits_of(x@),
            forall|j: int| 0 <= j < i - start ==> '0' <= #[trigger] digits[j] <= '9',
            fits ==> value == dec_value(digits.take(i - start)),
            !fits ==> exists|k: int|
                0 <= k <= i - start && #[trigger] dec_value(digits.take(k)) > u64::MAX,
        decreases n - i,
    {
        let c: char = x[i];
        assert(digits[i - start] == c);
        if !('0' <= c && c <= '9') {
            assert(!all_digits(digits));
            return None;
        }
        let d: u64 = c as u64 - '0' as u64;
        assert(digits.take(i - start + 1).drop_last() =~= digits.take(i - start));
        if fits {
            match value.checked_mul(10) {
                Some(v) => match v.checked_add(d) {
                    Some(w) => {
                        value = w;
                    },
                    None => {
                        fits = false;
                        assert(dec_value(digits.take(i - start + 1)) > u64::MAX);
                    },
                },
                None => {
                    fits = false;
                    assert(dec_value(digits.take(i - start + 1)) > u64::MAX);
                },
            }
        }
        i += 1;
    }
    assert(digits.take(i - start) =~= digits);
    assert(all_digits(digits));
    if fits {
        Some(value)
    } else {
        proof {
            let k = choose|k: int|
                0 <= k <= i - start && #[trigger] dec_value(digits.take(k)) > u64::MAX;
            lemma_dec_grows(digits, k);
        }
        None
    }
}

/// The unsigned number that `s` stands for.
pub fn parse_u64(s: &str) -> (r: Option<u64>)
    ensures
        r == number(s@),
{
    let x = text::chars_of(s);
    number_of_chars(&x)
}

/// The character of a decimal digit.
pub open spec fn digit_char(d: int) -> char {
    ('0' as int + d) as char
}

/// The decimal notation of `n`.
pub open spec fn decimal(n: int) -> Seq<char>
    decreases n,
{
    if n < 10 {
        seq![digit_char(n)]
    } else {
        decimal(n / 10).push(digit_char(n % 10))
    }
}

/// The character of a decimal digit.
pub fn digit(d: u64) -> (c: char)
    requires
        d < 10,
    ensures
        c == digit_char(d as int),
{
    match d {
        0 => '0',
        1 => '1',
        2 => '2',
        3 => '3',
        4 => '4',
        5 => '5',
        6 => '6',
        7 => '7',
        8 => '8',
        _ => '9',
    }
}

/// Append the decimal notation of `n`.
pub fn push_decimal(s: &mut String, n: u64)
    ensures
        final(s)@ == old(s)@ + decimal(n as int),
    decreases n,
{
    if n >= 10 {
        push_decimal(s, n / 10);
    }
    let ghost before = s@;
    s.push(digit(n % 10));
    proof {
        if n < 10 {
            assert(s@ =~= before + decimal(n as int));
        } else {
            assert(s@ =~= old(s)@ + decimal(n as int));
        }
    }
}

/// The decimal notation of a number holds digits that stand for it.
pub proof fn lemma_decimal(n: int)
    requires
        0 <= n,
    ensures
        decimal(n).len() > 0,
        all_digits(decimal(n)),
        dec_value(decimal(n)) == n,
    decreases n,
{
    if n < 10 {
        let s = decimal(n);
        assert(s.drop_last() =~= Seq::empty());
        assert(dec_value(s.drop_last()) == 0);
    } else {
        lemma_decimal(n / 10);
        let s = decimal(n);
        assert(s.drop_last() =~= decimal(n / 10));
        assert forall|i: int| 0 <= i < s.len() implies '0' <= #[trigger] s[i] <= '9' by {
            if i < s.len() - 1 {
                assert(s[i] == decimal(n / 10)[i]);
            }
        }
    }
}

/// Reading the decimal notation of a number gives the number back.
pub proof fn law_decimal_reads_back(n: u64)
    ensures
        number(decimal(n as int)) == Some(n),
{
    lemma_decimal(n as int);
    let s = decimal(n as int);
    assert('0' <= s[0] <= '9');
}

/// One more digit behind a number multiplies it by ten and adds the digit, as
/// long as the result fits into 64 bits. One digit stands for itself.
pub proof fn law_digits_add_up(s: Seq<char>, c: char)
    requires
        '0' <= c <= '9',
    ensures
        number(seq![c]) == Some((c as int - '0' as int) as u64),
        number(s) matches Some(v) ==> number(s.push(c)) == if v * 10 + (c as int - '0' as int)
            <= u64::MAX {
            Some((v * 10 + (c as int - '0' as int)) as u64)
        } else {
            None
        },
        number(s) matches Some(v) ==> (s[0] != '+' ==> number(seq!['0'] + s) == Some(v) && number(
            seq!['+'] + s,
        ) == Some(v)),
{
    let one = seq![c];
    assert(one.drop_last() =~= Seq::empty());
    assert(dec_value(one.drop_last()) == 0);
    if number(s) is Some {
        let digits = digits_of(s);
        let more = s.push(c);
        assert(digits_of(more) =~= digits.push(c));
        lemma_dec_grows(digits, digits.len() as int);
        assert(digits.take(digits.len() as int) =~= digits);
        assert(digits.push(c).drop_last() =~= digits);
        assert(all_digits(digits.push(c))) by {
            assert forall|i: int| 0 <= i < digits.push(c).len() implies '0'
                <= #[trigger] digits.push(c)[i] <= '9' by {
                if i < digits.len() {
                    assert(digits.push(c)[i] == digits[i]);
                }
            }
        }
        if s[0] != '+' {
            let padded = seq!['0'] + s;
            lemma_leading_zero(s);
            assert forall|i: int| 0 <= i < padded.len() implies '0' <= #[trigger] padded[i]
                <= '9' by {
                if i > 0 {
                    assert(padded[i] == s[i - 1]);
                }
            }
            assert((seq!['+'] + s).drop_first() =~= s);
        }
    }
}

proof fn lemma_leading_zero(s: Seq<char>)
    ensures
        dec_value(seq!['0'] + s) == dec_value(s),
    decreases s.len(),
{
    let padded = seq!['0'] + s;
    if s.len() == 0 {
        assert(padded.drop_last() =~= Seq::empty());
        assert(dec_value(padded.drop_last()) == 0);
    } else {
        assert(padded.drop_last() =~= seq!['0'] + s.drop_last());
        lemma_leading_zero(s.drop_last());
    }
}

/// Nothing but digits behind an optional plus sign is a number, and there must
/// be a digit.
pub proof fn law_only_digits_are_numbers(s: Seq<char>, i: int)
    ensures
        s.len() == 0 ==> number(s) is None,
        s == seq!['+'] ==> number(s) is None,
        0 <= i < s.len() && !('0' <= s[i] <= '9') && (i > 0 || s[i] != '+') ==> number(s) is None,
{
    if 0 <= i < s.len() && !('0' <= s[i] <= '9') && (i > 0 || s[i] != '+') {
        let digits = digits_of(s);
        if s[0] == '+' {
            assert(digits[i - 1] == s[i]);
        } else {
            assert(digits[i] == s[i]);
        }
    }
}

/// The decimal notation of a number holds digits only, begins with a zero only
/// for zero, and differs from that of every other number.
pub proof fn law_decimal_is_plain(n: u64, m: u64)
    ensures
        decimal(n as int).len() > 0,
        forall|i: int|
            0 <= i < decimal(n as int).len() ==> '0' <= #[trigger] decimal(n as int)[i] <= '9',
        n > 0 ==> decimal(n as int)[0] != '0',
        decimal(n as int) == decimal(m as int) ==> n == m,
{
    lemma_decimal(n as int);
    law_decimal_reads_back(n);
    law_decimal_reads_back(m);
    lemma_no_leading_zero(n as int);
}

proof fn lemma_no_leading_zero(n: int)
    requires
        0 <= n,
    ensures
        decimal(n).len() > 0,
        n > 0 ==> decimal(n)[0] != '0',
    decreases n,
{
    if n >= 10 {
        lemma_no_leading_zero(n / 10);
        assert(decimal(n)[0] == decimal(n / 10)[0]);
    }
}

} // verus!
