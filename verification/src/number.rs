//! Numbers written in decimal or hexadecimal digits.
//!
//! The value of a run of digits is defined on the run as a whole. The
//! decoders compute it from left to right and check every multiplication
//! and every addition against the width of the result, so that a run whose
//! value does not fit is rejected rather than wrapped.

use crate::core_rules::digit_class;
use crate::core_rules::hexdig_class;
use crate::core_rules::is_digit;
use crate::core_rules::is_hexdig;
use crate::grammar::lemma_run_len_bounds;
use crate::grammar::lemma_run_len_is;
use crate::grammar::lemma_run_len_stable;
use crate::grammar::run_len;
use crate::grammar::OctetClass;
use crate::outcome::settled;
use crate::outcome::MatchOutcome;
use crate::outcome::Parsed;
use crate::parse::token::TokenError;
use vstd::prelude::*;

verus! {

/// The value of a hexadecimal digit in either case, and so of a decimal
/// digit. Zero for any other octet.
pub open spec fn digit_value(ch: u8) -> nat {
    if 0x30 <= ch <= 0x39 {
        (ch - 0x30) as nat
    } else if 0x41 <= ch <= 0x46 {
        (ch - 0x41 + 10) as nat
    } else if 0x61 <= ch <= 0x66 {
        (ch - 0x61 + 10) as nat
    } else {
        0
    }
}

/// The octet is a digit of the given radix.
pub open spec fn is_digit_of(ch: u8, radix: nat) -> bool {
    is_hexdig(ch) && digit_value(ch) < radix
}

/// All octets of `s` are digits of the given radix.
pub open spec fn all_digits_of(s: Seq<u8>, radix: nat) -> bool {
    forall|i: int| 0 <= i < s.len() ==> is_digit_of(#[trigger] s[i], radix)
}

/// The number that the digits of `s` denote in the given radix, the most
/// significant digit first. The empty run denotes zero.
pub open spec fn numeral(s: Seq<u8>, radix: nat) -> nat
    decreases s.len(),
{
    if s.len() == 0 {
        0
    } else {
        numeral(s.drop_last(), radix) * radix + digit_value(s.last())
    }
}

/// One more digit multiplies the value by the radix and adds the digit.
pub proof fn lemma_numeral_step(s: Seq<u8>, i: int, radix: nat)
    requires
        0 <= i < s.len(),
    ensures
        numeral(s.take(i + 1), radix) == numeral(s.take(i), radix) * radix + digit_value(s[i]),
{
    assert(s.take(i + 1).drop_last() =~= s.take(i));
}

/// The value of a run is at least that of each of its prefixes.
pub proof fn lemma_numeral_prefix(s: Seq<u8>, i: int, radix: nat)
    requires
        0 <= i <= s.len(),
        radix >= 1,
    ensures
        numeral(s.take(i), radix) <= numeral(s, radix),
    decreases s.len() - i,
{
    if i == s.len() {
        assert(s.take(i) =~= s);
    } else {
        lemma_numeral_step(s, i, radix);
        lemma_numeral_prefix(s, i + 1, radix);
        let v = numeral(s.take(i), radix);
        assert(v * radix >= v) by (nonlinear_arith)
            requires
                radix >= 1,
                v >= 0,
        ;
    }
}

/// One more digit leaves the value below the next power of the radix.
pub proof fn lemma_numeral_below(s: Seq<u8>, radix: nat, bound: nat)
    requires
        radix >= 1,
        all_digits_of(s, radix),
        s.len() > 0,
        numeral(s.drop_last(), radix) < bound,
    ensures
        numeral(s, radix) < bound * radix,
{
    let head = numeral(s.drop_last(), radix);
    assert(is_digit_of(s[s.len() - 1], radix));
    assert(head * radix + radix <= bound * radix) by (nonlinear_arith)
        requires
            head + 1 <= bound,
    ;
}

/// Up to four hexadecimal digits denote a number of 16 bits.
pub proof fn lemma_four_hex_digits_fit(s: Seq<u8>)
    requires
        all_digits_of(s, 16),
        s.len() <= 4,
    ensures
        numeral(s, 16) <= 0xFFFF,
{
    if s.len() >= 1 {
        let a = s.take(1);
        assert(a.drop_last() =~= Seq::<u8>::empty());
        assert(all_digits_of(a, 16)) by {
            assert forall|i: int| 0 <= i < a.len() implies is_digit_of(#[trigger] a[i], 16) by {
                assert(a[i] == s[i]);
            }
        }
        lemma_numeral_below(a, 16, 1);
    }
    if s.len() >= 2 {
        let a = s.take(2);
        assert(a.drop_last() =~= s.take(1));
        assert(all_digits_of(a, 16)) by {
            assert forall|i: int| 0 <= i < a.len() implies is_digit_of(#[trigger] a[i], 16) by {
                assert(a[i] == s[i]);
            }
        }
        lemma_numeral_below(a, 16, 16);
    }
    if s.len() >= 3 {
        let a = s.take(3);
        assert(a.drop_last() =~= s.take(2));
        assert(all_digits_of(a, 16)) by {
            assert forall|i: int| 0 <= i < a.len() implies is_digit_of(#[trigger] a[i], 16) by {
                assert(a[i] == s[i]);
            }
        }
        lemma_numeral_below(a, 16, 256);
    }
    if s.len() >= 4 {
        let a = s.take(4);
        assert(a.drop_last() =~= s.take(3));
        assert(all_digits_of(a, 16)) by {
            assert forall|i: int| 0 <= i < a.len() implies is_digit_of(#[trigger] a[i], 16) by {
                assert(a[i] == s[i]);
            }
        }
        lemma_numeral_below(a, 16, 4096);
    }
    assert(s.take(s.len() as int) =~= s);
}

/// The value of one digit.
pub fn digit_of(ch: u8) -> (value: u8)
    requires
        is_hexdig(ch),
    ensures
        value == digit_value(ch),
        value < 16,
        is_digit(ch) ==> value < 10,
{
    if ch <= 0x39 {
        ch - 0x30
    } else if ch <= 0x46 {
        ch - 0x41 + 10
    } else {
        ch - 0x61 + 10
    }
}

/// The value of a run of digits as a `u8`, or an error if it does not
/// fit.
pub fn fold_u8(digits: &[u8], radix: u8) -> (res: Result<u8, TokenError>)
    requires
        radix == 10 || radix == 16,
        all_digits_of(digits@, radix as nat),
    ensures
        res == if numeral(digits@, radix as nat) <= u8::MAX {
            Ok::<u8, TokenError>(numeral(digits@, radix as nat) as u8)
        } else {
            Err::<u8, TokenError>(TokenError)
        },
{
    let mut res: u8 = 0;
    let mut i: usize = 0;
    while i < digits.len()
        invariant
            i <= digits@.len(),
            radix == 10 || radix == 16,
            all_digits_of(digits@, radix as nat),
            res == numeral(digits@.take(i as int), radix as nat),
        decreases digits@.len() - i,
    {
        proof {
            lemma_numeral_step(digits@, i as int, radix as nat);
            lemma_numeral_prefix(digits@, i + 1, radix as nat);
        }
        let x = digit_of(digits[i]) as u8;
        res = match res.checked_mul(radix) {
            Some(scaled) => scaled,
            None => {
                return Err(TokenError);
            },
        };
        res = match res.checked_add(x) {
            Some(sum) => sum,
            None => {
                return Err(TokenError);
            },
        };
        i = i + 1;
    }
    proof {
        assert(digits@.take(i as int) =~= digits@);
    }
    Ok(res)
}

/// The value of a run of digits as a `u16`, or an error if it does not
/// fit.
pub fn fold_u16(digits: &[u8], radix: u16) -> (res: Result<u16, TokenError>)
    requires
        radix == 10 || radix == 16,
        all_digits_of(digits@, radix as nat),
    ensures
        res == if numeral(digits@, radix as nat) <= u16::MAX {
            Ok::<u16, TokenError>(numeral(digits@, radix as nat) as u16)
        } else {
            Err::<u16, TokenError>(TokenError)
        },
{
    let mut res: u16 = 0;
    let mut i: usize = 0;
    while i < digits.len()
        invariant
            i <= digits@.len(),
            radix == 10 || radix == 16,
            all_digits_of(digits@, radix as nat),
            res == numeral(digits@.take(i as int), radix as nat),
        decreases digits@.len() - i,
    {
        proof {
            lemma_numeral_step(digits@, i as int, radix as nat);
            lemma_numeral_prefix(digits@, i + 1, radix as nat);
        }
        let x = digit_of(digits[i]) as u16;
        res = match res.checked_mul(radix) {
            Some(scaled) => scaled,
            None => {
                return Err(TokenError);
            },
        };
        res = match res.checked_add(x) {
            Some(sum) => sum,
            None => {
                return Err(TokenError);
            },
        };
        i = i + 1;
    }
    proof {
        assert(digits@.take(i as int) =~= digits@);
    }
    Ok(res)
}

/// The value of a run of digits as a `u32`, or an error if it does not
/// fit.
pub fn fold_u32(digits: &[u8], radix: u32) -> (res: Result<u32, TokenError>)
    requires
        radix == 10 || radix == 16,
        all_digits_of(digits@, radix as nat),
    ensures
        res == if numeral(digits@, radix as nat) <= u32::MAX {
            Ok::<u32, TokenError>(numeral(digits@, radix as nat) as u32)
        } else {
            Err::<u32, TokenError>(TokenError)
        },
{
    let mut res: u32 = 0;
    let mut i: usize = 0;
    while i < digits.len()
        invariant
            i <= digits@.len(),
            radix == 10 || radix == 16,
            all_digits_of(digits@, radix as nat),
            res == numeral(digits@.take(i as int), radix as nat),
        decreases digits@.len() - i,
    {
        proof {
            lemma_numeral_step(digits@, i as int, radix as nat);
            lemma_numeral_prefix(digits@, i + 1, radix as nat);
        }
        let x = digit_of(digits[i]) as u32;
        res = match res.checked_mul(radix) {
            Some(scaled) => scaled,
            None => {
                return Err(TokenError);
            },
        };
        res = match res.checked_add(x) {
            Some(sum) => sum,
            None => {
                return Err(TokenError);
            },
        };
        i = i + 1;
    }
    proof {
        assert(digits@.take(i as int) =~= digits@);
    }
    Ok(res)
}

/// The value of a run of digits as a `u64`, or an error if it does not
/// fit.
pub fn fold_u64(digits: &[u8], radix: u64) -> (res: Result<u64, TokenError>)
    requires
        radix == 10 || radix == 16,
        all_digits_of(digits@, radix as nat),
    ensures
        res == if numeral(digits@, radix as nat) <= u64::MAX {
            Ok::<u64, TokenError>(numeral(digits@, radix as nat) as u64)
        } else {
            Err::<u64, TokenError>(TokenError)
        },
{
    let mut res: u64 = 0;
    let mut i: usize = 0;
    while i < digits.len()
        invariant
            i <= digits@.len(),
            radix == 10 || radix == 16,
            all_digits_of(digits@, radix as nat),
            res == numeral(digits@.take(i as int), radix as nat),
        decreases digits@.len() - i,
    {
        proof {
            lemma_numeral_step(digits@, i as int, radix as nat);
            lemma_numeral_prefix(digits@, i + 1, radix as nat);
        }
        let x = digit_of(digits[i]) as u64;
        res = match res.checked_mul(radix) {
            Some(scaled) => scaled,
            None => {
                return Err(TokenError);
            },
        };
        res = match res.checked_add(x) {
            Some(sum) => sum,
            None => {
                return Err(TokenError);
            },
        };
        i = i + 1;
    }
    proof {
        assert(digits@.take(i as int) =~= digits@);
    }
    Ok(res)
}

/// The model of a rule for a number: a run of at least one digit, ended
/// by an octet of another class, gives the value of the run.
pub open spec fn number(s: Seq<u8>, class: OctetClass, radix: nat) -> Parsed<nat, TokenError> {
    let n = run_len(s, class);
    if n == s.len() {
        MatchOutcome::Pending
    } else if n == 0 {
        MatchOutcome::Failed(TokenError)
    } else {
        MatchOutcome::Complete((numeral(s.take(n as int), radix), n))
    }
}

/// As `number`, for a `u8`: a value that does not fit is an error.
pub open spec fn u8_number(s: Seq<u8>, class: OctetClass, radix: nat) -> Parsed<u8, TokenError> {
    match number(s, class, radix) {
        MatchOutcome::Complete((v, n)) => if v <= u8::MAX {
            MatchOutcome::Complete((v as u8, n))
        } else {
            MatchOutcome::Failed(TokenError)
        },
        MatchOutcome::Pending => MatchOutcome::Pending,
        MatchOutcome::Failed(e) => MatchOutcome::Failed(e),
    }
}

/// As `number`, for a `u16`: a value that does not fit is an error.
pub open spec fn u16_number(s: Seq<u8>, class: OctetClass, radix: nat) -> Parsed<u16, TokenError> {
    match number(s, class, radix) {
        MatchOutcome::Complete((v, n)) => if v <= u16::MAX {
            MatchOutcome::Complete((v as u16, n))
        } else {
            MatchOutcome::Failed(TokenError)
        },
        MatchOutcome::Pending => MatchOutcome::Pending,
        MatchOutcome::Failed(e) => MatchOutcome::Failed(e),
    }
}

/// As `number`, for a `u32`: a value that does not fit is an error.
pub open spec fn u32_number(s: Seq<u8>, class: OctetClass, radix: nat) -> Parsed<u32, TokenError> {
    match number(s, class, radix) {
        MatchOutcome::Complete((v, n)) => if v <= u32::MAX {
            MatchOutcome::Complete((v as u32, n))
        } else {
            MatchOutcome::Failed(TokenError)
        },
        MatchOutcome::Pending => MatchOutcome::Pending,
        MatchOutcome::Failed(e) => MatchOutcome::Failed(e),
    }
}

/// As `number`, for a `u64`: a value that does not fit is an error.
pub open spec fn u64_number(s: Seq<u8>, class: OctetClass, radix: nat) -> Parsed<u64, TokenError> {
    match number(s, class, radix) {
        MatchOutcome::Complete((v, n)) => if v <= u64::MAX {
            MatchOutcome::Complete((v as u64, n))
        } else {
            MatchOutcome::Failed(TokenError)
        },
        MatchOutcome::Pending => MatchOutcome::Pending,
        MatchOutcome::Failed(e) => MatchOutcome::Failed(e),
    }
}

/// A number is settled by the octet that ends its digits.
pub proof fn lemma_number_settled(s: Seq<u8>, more: Seq<u8>, class: OctetClass, radix: nat)
    ensures
        settled(number(s, class, radix), number(s + more, class, radix)),
        settled(u8_number(s, class, radix), u8_number(s + more, class, radix)),
        settled(u16_number(s, class, radix), u16_number(s + more, class, radix)),
        settled(u32_number(s, class, radix), u32_number(s + more, class, radix)),
        settled(u64_number(s, class, radix), u64_number(s + more, class, radix)),
{
    lemma_run_len_bounds(s, class);
    let n = run_len(s, class);
    if n < s.len() {
        lemma_run_len_stable(s, more, class);
        assert((s + more).take(n as int) =~= s.take(n as int));
    }
}

/// The octet that stands for the digit `d`: `0` to `9`, then `A` to `F`
/// or `a` to `f`.
pub open spec fn digit_octet(d: nat, upper: bool) -> u8 {
    if d < 10 {
        (0x30 + d) as u8
    } else if upper {
        (0x41 + d - 10) as u8
    } else {
        (0x61 + d - 10) as u8
    }
}

/// The number `n` written in the given radix, without leading zeros.
pub open spec fn text_of(n: nat, radix: nat, upper: bool) -> Seq<u8>
    decreases n,
{
    if radix < 2 || n < radix {
        seq![digit_octet(n, upper)]
    } else {
        proof {
            assert(n / radix < n) by (nonlinear_arith)
                requires
                    radix >= 2,
                    n >= radix,
            ;
        }
        text_of(n / radix, radix, upper).push(digit_octet(n % radix, upper))
    }
}

/// The text of a number consists of digits of the radix and denotes the
/// number.
pub proof fn lemma_text_of(n: nat, radix: nat, upper: bool)
    requires
        radix == 10 || radix == 16,
    ensures
        text_of(n, radix, upper).len() >= 1,
        all_digits_of(text_of(n, radix, upper), radix),
        radix == 10 ==> forall|i: int|
            0 <= i < text_of(n, radix, upper).len() ==> is_digit(
                #[trigger] text_of(n, radix, upper)[i],
            ),
        numeral(text_of(n, radix, upper), radix) == n,
    decreases n,
{
    let t = text_of(n, radix, upper);
    if n < radix {
        assert(t.drop_last() =~= Seq::<u8>::empty());
        assert(numeral(t.drop_last(), radix) == 0);
        assert(digit_value(t.last()) == n);
    } else {
        let head = text_of(n / radix, radix, upper);
        let d = digit_octet(n % radix, upper);
        lemma_text_of(n / radix, radix, upper);
        assert(t.drop_last() =~= head);
        assert(t.last() == d);
        assert(digit_value(d) == n % radix);
        assert((n / radix) * radix + n % radix == n) by (nonlinear_arith)
            requires
                radix > 0,
        ;
        assert forall|i: int| 0 <= i < t.len() implies is_digit_of(#[trigger] t[i], radix) by {
            if i < head.len() {
                assert(t[i] == head[i]);
            }
        }
        if radix == 10 {
            assert forall|i: int| 0 <= i < t.len() implies is_digit(#[trigger] t[i]) by {
                if i < head.len() {
                    assert(t[i] == head[i]);
                }
            }
        }
    }
}

/// Decoding the decimal text of a number gives the number.
///
/// The text of `n`, followed by an octet that is no digit, is decoded as
/// an unsigned 64-bit value to `n` itself as long as `n` is less than
/// 2^64, and fails from there on.
pub proof fn lemma_decimal_round_trip(n: nat, delimiter: u8, rest: Seq<u8>)
    requires
        !is_digit(delimiter),
    ensures
        n <= u64::MAX ==> u64_number(
            text_of(n, 10, false) + seq![delimiter] + rest,
            digit_class(),
            10,
        ) == MatchOutcome::<(u64, nat), TokenError>::Complete(
            (n as u64, text_of(n, 10, false).len()),
        ),
        n > u64::MAX ==> u64_number(
            text_of(n, 10, false) + seq![delimiter] + rest,
            digit_class(),
            10,
        ) == MatchOutcome::<(u64, nat), TokenError>::Failed(TokenError),
{
    let text = text_of(n, 10, false);
    let s = text + seq![delimiter] + rest;
    lemma_text_of(n, 10, false);
    assert forall|i: int| 0 <= i < text.len() implies digit_class()(#[trigger] s[i]) by {
        assert(s[i] == text[i]);
    }
    assert(s[text.len() as int] == delimiter);
    lemma_run_len_is(s, digit_class(), text.len());
    assert(s.take(text.len() as int) =~= text);
}

/// Decoding the hexadecimal text of a number gives the number.
///
/// The text of `n` in capital or in small letters, followed by an octet
/// that is no hexadecimal digit, is decoded as an unsigned 16-bit value
/// to `n` itself as long as `n` is at most `0xFFFF`, and fails from there
/// on.
pub proof fn lemma_hexadecimal_round_trip(n: nat, upper: bool, delimiter: u8, rest: Seq<u8>)
    requires
        !is_hexdig(delimiter),
    ensures
        n <= 0xFFFF ==> u16_number(
            text_of(n, 16, upper) + seq![delimiter] + rest,
            hexdig_class(),
            16,
        ) == MatchOutcome::<(u16, nat), TokenError>::Complete(
            (n as u16, text_of(n, 16, upper).len()),
        ),
        n > 0xFFFF ==> u16_number(
            text_of(n, 16, upper) + seq![delimiter] + rest,
            hexdig_class(),
            16,
        ) == MatchOutcome::<(u16, nat), TokenError>::Failed(TokenError),
{
    let text = text_of(n, 16, upper);
    let s = text + seq![delimiter] + rest;
    lemma_text_of(n, 16, upper);
    assert forall|i: int| 0 <= i < text.len() implies hexdig_class()(#[trigger] s[i]) by {
        assert(s[i] == text[i]);
    }
    assert(s[text.len() as int] == delimiter);
    lemma_run_len_is(s, hexdig_class(), text.len());
    assert(s.take(text.len() as int) =~= text);
}

} // verus!
