//! Unsigned numerals: what a digit string stands for and how a number is
//! written.

use crate::text::chars_of;
use crate::text::text_of;
use vstd::prelude::*;

verus! {

/// Value of one digit, upper or lower case, if it is one in `radix`.
pub open spec fn digit_value(c: char, radix: nat) -> Option<nat> {
    let v: nat = if '0' <= c <= '9' {
        (c as nat - '0' as nat) as nat
    } else if 'a' <= c <= 'z' {
        (c as nat - 'a' as nat + 10) as nat
    } else if 'A' <= c <= 'Z' {
        (c as nat - 'A' as nat + 10) as nat
    } else {
        radix
    };
    if v < radix {
        Some(v)
    } else {
        None
    }
}

/// Value of a string of digits, most significant first.
pub open spec fn digits_value(s: Seq<char>, radix: nat) -> Option<nat>
    decreases s.len(),
{
    if s.len() == 0 {
        Some(0)
    } else {
        match (digits_value(s.drop_last(), radix), digit_value(s.last(), radix)) {
            (Some(high), Some(low)) => Some(high * radix + low),
            _ => None,
        }
    }
}

/// The digits of a numeral: an optional plus sign may stand before them.
pub open spec fn numeral_digits(s: Seq<char>) -> Seq<char> {
    if s.len() > 0 && s[0] == '+' {
        s.drop_first()
    } else {
        s
    }
}

/// The number that `s` writes in `radix`: digits, at least one, with an
/// optional plus sign before them, of value at most `max`.
pub open spec fn numeral_value(s: Seq<char>, radix: nat, max: nat) -> Option<nat> {
    let digits = numeral_digits(s);
    if digits.len() == 0 {
        None
    } else {
        match digits_value(digits, radix) {
            Some(v) => if v <= max {
                Some(v)
            } else {
                None
            },
            None => None,
        }
    }
}

/// A prefix of digits stands for no more than the whole.
proof fn lemma_prefix_value(s: Seq<char>, i: int, radix: nat)
    requires
        0 <= i <= s.len(),
        digits_value(s, radix) is Some,
        radix >= 1,
    ensures
        digits_value(s.take(i), radix) is Some,
        digits_value(s.take(i), radix)->0 <= digits_value(s, radix)->0,
    decreases s.len(),
{
    if i == s.len() {
        assert(s.take(i) =~= s);
    } else {
        lemma_prefix_value(s.drop_last(), i, radix);
        assert(s.drop_last().take(i) =~= s.take(i));
        let high = digits_value(s.drop_last(), radix)->0;
        assert(high <= high * radix) by (nonlinear_arith)
            requires
                radix >= 1,
        ;
    }
}

/// The digit that `c` is in `radix`, or `radix` where it is none.
fn digit_of(c: char, radix: u32) -> (r: u32)
    requires
        2 <= radix <= 36,
    ensures
        r <= radix,
        digit_value(c, radix as nat) == if r < radix {
            Some(r as nat)
        } else {
            None::<nat>
        },
{
    let code: u32 = c as u32;
    let v: u32 = if '0' <= c && c <= '9' {
        code - 48
    } else if 'a' <= c && c <= 'z' {
        code - 97 + 10
    } else if 'A' <= c && c <= 'Z' {
        code - 65 + 10
    } else {
        radix
    };
    if v < radix {
        v
    } else {
        radix
    }
}

/// Reads a numeral of at most 128 bits in `radix`, no greater than `max`.
pub fn parse_numeral(s: &str, radix: u32, max: u128) -> (r: Option<u128>)
    requires
        2 <= radix <= 36,
    ensures
        match (r, numeral_value(s@, radix as nat, max as nat)) {
            (Some(v), Some(want)) => v as nat == want,
            (None, None) => true,
            _ => false,
        },
{
    let chars = chars_of(s);
    let start: usize = if chars.len() > 0 && chars[0] == '+' {
        1
    } else {
        0
    };
    let ghost digits = numeral_digits(s@);
    assert(digits =~= s@.skip(start as int));
    if start == chars.len() {
        return None;
    }
    let mut acc: u128 = 0;
    let mut i: usize = start;
    while i < chars.len()
        invariant
            2 <= radix <= 36,
            chars@ == s@,
            start <= i <= chars.len(),
            start < chars.len(),
            digits == s@.skip(start as int),
            digits == numeral_digits(s@),
            acc <= max,
            digits_value(digits.take(i - start), radix as nat) == Some(acc as nat),
        decreases chars.len() - i,
    {
        let d: u32 = digit_of(chars[i], radix);
        let ghost upto = digits.take(i - start + 1);
        proof {
            assert(upto.drop_last() =~= digits.take(i - start));
            assert(upto.last() == s@[i as int]);
            if digits_value(digits, radix as nat) is Some {
                lemma_prefix_value(digits, i - start + 1, radix as nat);
            }
        }
        if d >= radix {
            return None;
        }
        let high: u128 = match acc.checked_mul(radix as u128) {
            Some(v) => v,
            None => {
                return None;
            },
        };
        let sum: u128 = match high.checked_add(d as u128) {
            Some(v) => v,
            None => {
                return None;
            },
        };
        if sum > max {
            return None;
        }
        acc = sum;
        i += 1;
    }
    assert(digits.take(i - start) =~= digits);
    Some(acc)
}

/// The character that writes digit `d`, in lower case.
pub open spec fn digit_char(d: nat) -> char {
    if d < 10 {
        ('0' as nat + d) as char
    } else {
        ('a' as nat + d - 10) as char
    }
}

/// `n` written in `radix`, without leading zeros.
pub open spec fn numeral(n: nat, radix: nat) -> Seq<char>
    decreases n,
    when radix >= 2
{
    if n < radix {
        seq![digit_char(n)]
    } else {
        proof {
            lemma_quotient_smaller(n, radix);
        }
        numeral(n / radix, radix).push(digit_char(n % radix))
    }
}

/// Dividing by a radix makes a number smaller.
pub proof fn lemma_quotient_smaller(n: nat, radix: nat)
    requires
        radix >= 2,
        n >= radix,
    ensures
        n / radix < n,
{
    assert(n / radix < n) by (nonlinear_arith)
        requires
            radix >= 2,
            n >= radix,
    ;
}

/// Reading back what was written gives the number again.
pub proof fn lemma_numeral_round_trip(n: nat, radix: nat, max: nat)
    requires
        2 <= radix <= 36,
        n <= max,
    ensures
        numeral_value(numeral(n, radix), radix, max) == Some(n),
        digits_value(numeral(n, radix), radix) == Some(n),
        numeral(n, radix).len() > 0,
        numeral(n, radix)[0] != '+',
        n > 0 ==> numeral(n, radix)[0] != '0',
        forall|i: int|
            0 <= i < numeral(n, radix).len() ==> digit_value(
                #[trigger] numeral(n, radix)[i],
                radix,
            ) is Some,
    decreases n,
{
    let s = numeral(n, radix);
    if n < radix {
        assert(s.drop_last() =~= Seq::<char>::empty());
        assert(digits_value(Seq::<char>::empty(), radix) == Some(0nat));
        assert(digit_value(s.last(), radix) == Some(n));
        assert(0 * radix == 0) by (nonlinear_arith);
    } else {
        lemma_quotient_smaller(n, radix);
        let q = n / radix;
        let low = n % radix;
        lemma_numeral_round_trip(q, radix, max);
        assert(s.drop_last() =~= numeral(q, radix));
        assert(low < radix) by (nonlinear_arith)
            requires
                low == n % radix,
                radix >= 2,
        ;
        assert(digit_value(s.last(), radix) == Some(low));
        assert(q * radix + low == n) by (nonlinear_arith)
            requires
                q == n / radix,
                low == n % radix,
                radix >= 2,
        ;
        assert(q > 0) by (nonlinear_arith)
            requires
                q == n / radix,
                n >= radix,
                radix >= 2,
        ;
        assert(s[0] == numeral(q, radix)[0]);
        assert forall|i: int| 0 <= i < s.len() implies digit_value(
            #[trigger] s[i],
            radix,
        ) is Some by {
            if i < s.len() - 1 {
                assert(s[i] == numeral(q, radix)[i]);
            }
        }
    }
    assert(numeral_digits(s) == s);
}

/// The character that writes digit `d`.
pub fn digit_letter(d: u8) -> (r: char)
    requires
        d < 36,
    ensures
        r == digit_char(d as nat),
{
    let code: u8 = if d < 10 {
        48 + d
    } else {
        97 + (d - 10)
    };
    code as char
}

/// `n` written in `radix`.
pub fn write_numeral(n: u128, radix: u128) -> (r: String)
    requires
        2 <= radix <= 36,
    ensures
        r@ == numeral(n as nat, radix as nat),
{
    let mut rest: u128 = n;
    let mut reversed: Vec<char> = Vec::new();
    while rest >= radix
        invariant
            2 <= radix <= 36,
            numeral(n as nat, radix as nat) == numeral(rest as nat, radix as nat)
                + reversed@.reverse(),
        decreases rest,
    {
        let low: u8 = (rest % radix) as u8;
        let ghost before = reversed@;
        reversed.push(digit_letter(low));
        proof {
            lemma_quotient_smaller(rest as nat, radix as nat);
            assert(numeral(rest as nat, radix as nat) + before.reverse() =~= numeral(
                rest as nat / radix as nat,
                radix as nat,
            ) + reversed@.reverse());
        }
        rest = rest / radix;
    }
    let ghost before = reversed@;
    reversed.push(digit_letter(rest as u8));
    assert(numeral(rest as nat, radix as nat) + before.reverse() =~= reversed@.reverse());
    let mut out: Vec<char> = Vec::new();
    let mut i: usize = reversed.len();
    while i > 0
        invariant
            i <= reversed.len(),
            out@ == reversed@.reverse().take(reversed.len() - i),
        decreases i,
    {
        i -= 1;
        out.push(reversed[i]);
        assert(out@ =~= reversed@.reverse().take(reversed.len() - i));
    }
    assert(out@ =~= reversed@.reverse());
    text_of(out.as_slice())
}

/// `n` in decimal.
pub fn decimal(n: u64) -> (r: String)
    ensures
        r@ == numeral(n as nat, 10),
{
    write_numeral(n as u128, 10)
}

/// A digit, or a letter in lower case.
pub open spec fn is_written_digit(c: char) -> bool {
    '0' <= c <= '9' || 'a' <= c <= 'z'
}

/// Numbers are written in digits and letters in lower case.
pub proof fn lemma_numerals_are_lower_case(n: nat, radix: nat, i: int)
    requires
        2 <= radix <= 36,
        0 <= i < numeral(n, radix).len(),
    ensures
        is_written_digit(numeral(n, radix)[i]),
    decreases n,
{
    if n >= radix {
        lemma_quotient_smaller(n, radix);
        let low = n % radix;
        assert(low < radix) by (nonlinear_arith)
            requires
                low == n % radix,
                radix >= 2,
        ;
        if i < numeral(n / radix, radix).len() {
            lemma_numerals_are_lower_case(n / radix, radix, i);
        }
    }
}

/// A letter is one digit in either case, each one more than the letter before it;
/// a sign in front of a number and zeros in front of its digits change nothing.
pub proof fn lemma_ways_to_write_a_number(s: Seq<char>, k: nat, radix: nat, max: nat)
    requires
        2 <= radix <= 36,
    ensures
        k < 10 && k < radix ==> digit_value((48 + k) as char, radix) == Some(k),
        10 <= k < radix ==> digit_value((87 + k) as char, radix) == Some(k) && digit_value(
            (55 + k) as char,
            radix,
        ) == Some(k),
        s.len() > 0 && s[0] != '+' ==> numeral_value(seq!['+'] + s, radix, max) == numeral_value(
            s,
            radix,
            max,
        ) && numeral_value(seq!['0'] + s, radix, max) == numeral_value(s, radix, max),
{
    if s.len() > 0 && s[0] != '+' {
        assert((seq!['+'] + s).drop_first() =~= s);
        lemma_leading_zero(s, radix);
    }
}

proof fn lemma_leading_zero(s: Seq<char>, radix: nat)
    requires
        2 <= radix <= 36,
    ensures
        digits_value(seq!['0'] + s, radix) == digits_value(s, radix),
    decreases s.len(),
{
    let longer = seq!['0'] + s;
    if s.len() == 0 {
        assert(longer.drop_last() =~= s);
        assert(0 * radix == 0) by (nonlinear_arith);
    } else {
        assert(longer.drop_last() =~= seq!['0'] + s.drop_last());
        assert(longer.last() == s.last());
        lemma_leading_zero(s.drop_last(), radix);
    }
}

} // verus!
