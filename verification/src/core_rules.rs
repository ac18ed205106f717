//! Core rules.
//!
//! These are defined in RFC 5234, appendix B.1. Each octet class comes as
//! a predicate, as a test on one octet, as a rule for one octet of the
//! class and, where the grammar asks for it, as a rule for a run of them.

use crate::buffer::buffered;
use crate::buffer::frozen;
use crate::grammar::any_of;
use crate::grammar::decides;
use crate::grammar::lemma_run_len_bounds;
use crate::grammar::one_of;
use crate::grammar::some_of;
use crate::grammar::OctetClass;
use crate::number::all_digits_of;
use crate::number::fold_u16;
use crate::number::fold_u32;
use crate::number::fold_u64;
use crate::number::fold_u8;
use crate::number::numeral;
use crate::number::u16_number;
use crate::number::u32_number;
use crate::number::u64_number;
use crate::number::u8_number;
use crate::outcome::consumed;
use crate::outcome::settled;
use crate::outcome::MatchOutcome;
use crate::outcome::Parsed;
use crate::parse::token;
use crate::parse::token::lemma_skip_nothing;
use crate::parse::token::taken;
use crate::parse::token::Token;
use crate::parse::token::TokenError;
use bytes::Bytes;
use bytes::BytesMut;
use vstd::prelude::*;

verus! {

//------------ ALPHA -------------------------------------------------------------

/// ALPHA: a letter, `A` to `Z` or `a` to `z`.
pub open spec fn is_alpha(ch: u8) -> bool {
    (0x41 <= ch <= 0x5A) || (0x61 <= ch <= 0x7A)
}

/// The class ALPHA.
pub open spec fn alpha_class() -> OctetClass {
    |ch: u8| is_alpha(ch)
}

/// Whether `ch` is ALPHA.
pub fn test_alpha(ch: u8) -> (b: bool)
    ensures
        b == is_alpha(ch),
{
    (ch >= 0x41 && ch <= 0x5A) || (ch >= 0x61 && ch <= 0x7A)
}

/// One octet of ALPHA.
pub fn alpha(token: &mut Token) -> (res: MatchOutcome<(), TokenError>)
    requires
        old(token).wf(),
    ensures
        final(token).stepped(old(token), one_of(old(token).rest(), alpha_class(), TokenError), res),
{
    assert(decides(test_alpha, alpha_class()));
    token::cat(token, test_alpha)
}

/// A run of at least one octet of ALPHA, ended by an octet of another
/// class.
pub fn alphas(token: &mut Token) -> (res: MatchOutcome<(), TokenError>)
    requires
        old(token).wf(),
    ensures
        final(token).advanced(old(token), some_of(old(token).rest(), alpha_class(), TokenError), res),
        res is Failed ==> final(token).offset() == old(token).offset(),
{
    assert(decides(test_alpha, alpha_class()));
    token::cats(token, test_alpha)
}

//------------ BIT ---------------------------------------------------------------

/// BIT: `0` or `1`.
pub open spec fn is_bit(ch: u8) -> bool {
    ch == 0x30 || ch == 0x31
}

/// The class BIT.
pub open spec fn bit_class() -> OctetClass {
    |ch: u8| is_bit(ch)
}

/// Whether `ch` is BIT.
pub fn test_bit(ch: u8) -> (b: bool)
    ensures
        b == is_bit(ch),
{
    ch == 0x30 || ch == 0x31
}

/// One octet of BIT.
pub fn bit(token: &mut Token) -> (res: MatchOutcome<(), TokenError>)
    requires
        old(token).wf(),
    ensures
        final(token).stepped(old(token), one_of(old(token).rest(), bit_class(), TokenError), res),
{
    assert(decides(test_bit, bit_class()));
    token::cat(token, test_bit)
}

/// A run of at least one octet of BIT, ended by an octet of another
/// class.
pub fn bits(token: &mut Token) -> (res: MatchOutcome<(), TokenError>)
    requires
        old(token).wf(),
    ensures
        final(token).advanced(old(token), some_of(old(token).rest(), bit_class(), TokenError), res),
        res is Failed ==> final(token).offset() == old(token).offset(),
{
    assert(decides(test_bit, bit_class()));
    token::cats(token, test_bit)
}

//------------ CHAR --------------------------------------------------------------

/// CHAR: any 7-bit US-ASCII character but NUL.
pub open spec fn is_char(ch: u8) -> bool {
    0 < ch < 0x80
}

/// The class CHAR.
pub open spec fn char_class() -> OctetClass {
    |ch: u8| is_char(ch)
}

/// Whether `ch` is CHAR.
pub fn test_char(ch: u8) -> (b: bool)
    ensures
        b == is_char(ch),
{
    ch > 0 && ch < 0x80
}

/// One octet of CHAR.
pub fn char(token: &mut Token) -> (res: MatchOutcome<(), TokenError>)
    requires
        old(token).wf(),
    ensures
        final(token).stepped(old(token), one_of(old(token).rest(), char_class(), TokenError), res),
{
    assert(decides(test_char, char_class()));
    token::cat(token, test_char)
}

/// A run of at least one octet of CHAR, ended by an octet of another
/// class.
pub fn chars(token: &mut Token) -> (res: MatchOutcome<(), TokenError>)
    requires
        old(token).wf(),
    ensures
        final(token).advanced(old(token), some_of(old(token).rest(), char_class(), TokenError), res),
        res is Failed ==> final(token).offset() == old(token).offset(),
{
    assert(decides(test_char, char_class()));
    token::cats(token, test_char)
}

//------------ CR ----------------------------------------------------------------

/// CR: carriage return.
pub open spec fn is_cr(ch: u8) -> bool {
    ch == 0x0D
}

/// The class CR.
pub open spec fn cr_class() -> OctetClass {
    |ch: u8| is_cr(ch)
}

/// Whether `ch` is CR.
pub fn test_cr(ch: u8) -> (b: bool)
    ensures
        b == is_cr(ch),
{
    ch == 0x0D
}

/// One octet of CR.
pub fn cr(token: &mut Token) -> (res: MatchOutcome<(), TokenError>)
    requires
        old(token).wf(),
    ensures
        final(token).stepped(old(token), one_of(old(token).rest(), cr_class(), TokenError), res),
{
    assert(decides(test_cr, cr_class()));
    token::cat(token, test_cr)
}

//------------ CTL ---------------------------------------------------------------

/// CTL: a control character.
pub open spec fn is_ctl(ch: u8) -> bool {
    ch < 0x20 || ch == 0x7F
}

/// The class CTL.
pub open spec fn ctl_class() -> OctetClass {
    |ch: u8| is_ctl(ch)
}

/// Whether `ch` is CTL.
pub fn test_ctl(ch: u8) -> (b: bool)
    ensures
        b == is_ctl(ch),
{
    ch < 0x20 || ch == 0x7F
}

/// One octet of CTL.
pub fn ctl(token: &mut Token) -> (res: MatchOutcome<(), TokenError>)
    requires
        old(token).wf(),
    ensures
        final(token).stepped(old(token), one_of(old(token).rest(), ctl_class(), TokenError), res),
{
    assert(decides(test_ctl, ctl_class()));
    token::cat(token, test_ctl)
}

/// A run of at least one octet of CTL, ended by an octet of another
/// class.
pub fn ctls(token: &mut Token) -> (res: MatchOutcome<(), TokenError>)
    requires
        old(token).wf(),
    ensures
        final(token).advanced(old(token), some_of(old(token).rest(), ctl_class(), TokenError), res),
        res is Failed ==> final(token).offset() == old(token).offset(),
{
    assert(decides(test_ctl, ctl_class()));
    token::cats(token, test_ctl)
}

//------------ DIGIT -------------------------------------------------------------

/// DIGIT: a decimal digit, `0` to `9`.
pub open spec fn is_digit(ch: u8) -> bool {
    0x30 <= ch <= 0x39
}

/// The class DIGIT.
pub open spec fn digit_class() -> OctetClass {
    |ch: u8| is_digit(ch)
}

/// Whether `ch` is DIGIT.
pub fn test_digit(ch: u8) -> (b: bool)
    ensures
        b == is_digit(ch),
{
    ch >= 0x30 && ch <= 0x39
}

/// One octet of DIGIT.
pub fn digit(token: &mut Token) -> (res: MatchOutcome<(), TokenError>)
    requires
        old(token).wf(),
    ensures
        final(token).stepped(old(token), one_of(old(token).rest(), digit_class(), TokenError), res),
{
    assert(decides(test_digit, digit_class()));
    token::cat(token, test_digit)
}

/// A run of at least one octet of DIGIT, ended by an octet of another
/// class.
pub fn digits(token: &mut Token) -> (res: MatchOutcome<(), TokenError>)
    requires
        old(token).wf(),
    ensures
        final(token).advanced(old(token), some_of(old(token).rest(), digit_class(), TokenError), res),
        res is Failed ==> final(token).offset() == old(token).offset(),
{
    assert(decides(test_digit, digit_class()));
    token::cats(token, test_digit)
}

//------------ DQUOTE ------------------------------------------------------------

/// DQUOTE: a double quote.
pub open spec fn is_dquote(ch: u8) -> bool {
    ch == 0x22
}

/// The class DQUOTE.
pub open spec fn dquote_class() -> OctetClass {
    |ch: u8| is_dquote(ch)
}

/// Whether `ch` is DQUOTE.
pub fn test_dquote(ch: u8) -> (b: bool)
    ensures
        b == is_dquote(ch),
{
    ch == 0x22
}

/// One octet of DQUOTE.
pub fn dquote(token: &mut Token) -> (res: MatchOutcome<(), TokenError>)
    requires
        old(token).wf(),
    ensures
        final(token).stepped(old(token), one_of(old(token).rest(), dquote_class(), TokenError), res),
{
    assert(decides(test_dquote, dquote_class()));
    token::cat(token, test_dquote)
}

//------------ HEXDIG ------------------------------------------------------------

/// HEXDIG: a hexadecimal digit in either case.
pub open spec fn is_hexdig(ch: u8) -> bool {
    (0x30 <= ch <= 0x39) || (0x41 <= ch <= 0x46) || (0x61 <= ch <= 0x66)
}

/// The class HEXDIG.
pub open spec fn hexdig_class() -> OctetClass {
    |ch: u8| is_hexdig(ch)
}

/// Whether `ch` is HEXDIG.
pub fn test_hexdig(ch: u8) -> (b: bool)
    ensures
        b == is_hexdig(ch),
{
    (ch >= 0x30 && ch <= 0x39) || (ch >= 0x41 && ch <= 0x46) || (ch >= 0x61 && ch <= 0x66)
}

/// One octet of HEXDIG.
pub fn hexdig(token: &mut Token) -> (res: MatchOutcome<(), TokenError>)
    requires
        old(token).wf(),
    ensures
        final(token).stepped(old(token), one_of(old(token).rest(), hexdig_class(), TokenError), res),
{
    assert(decides(test_hexdig, hexdig_class()));
    token::cat(token, test_hexdig)
}

/// A run of at least one octet of HEXDIG, ended by an octet of another
/// class.
pub fn hexdigs(token: &mut Token) -> (res: MatchOutcome<(), TokenError>)
    requires
        old(token).wf(),
    ensures
        final(token).advanced(old(token), some_of(old(token).rest(), hexdig_class(), TokenError), res),
        res is Failed ==> final(token).offset() == old(token).offset(),
{
    assert(decides(test_hexdig, hexdig_class()));
    token::cats(token, test_hexdig)
}

//------------ HTAB --------------------------------------------------------------

/// HTAB: horizontal tab.
pub open spec fn is_htab(ch: u8) -> bool {
    ch == 0x09
}

/// The class HTAB.
pub open spec fn htab_class() -> OctetClass {
    |ch: u8| is_htab(ch)
}

/// Whether `ch` is HTAB.
pub fn test_htab(ch: u8) -> (b: bool)
    ensures
        b == is_htab(ch),
{
    ch == 0x09
}

/// One octet of HTAB.
pub fn htab(token: &mut Token) -> (res: MatchOutcome<(), TokenError>)
    requires
        old(token).wf(),
    ensures
        final(token).stepped(old(token), one_of(old(token).rest(), htab_class(), TokenError), res),
{
    assert(decides(test_htab, htab_class()));
    token::cat(token, test_htab)
}

//------------ LF ----------------------------------------------------------------

/// LF: line feed.
pub open spec fn is_lf(ch: u8) -> bool {
    ch == 0x0A
}

/// The class LF.
pub open spec fn lf_class() -> OctetClass {
    |ch: u8| is_lf(ch)
}

/// Whether `ch` is LF.
pub fn test_lf(ch: u8) -> (b: bool)
    ensures
        b == is_lf(ch),
{
    ch == 0x0A
}

/// One octet of LF.
pub fn lf(token: &mut Token) -> (res: MatchOutcome<(), TokenError>)
    requires
        old(token).wf(),
    ensures
        final(token).stepped(old(token), one_of(old(token).rest(), lf_class(), TokenError), res),
{
    assert(decides(test_lf, lf_class()));
    token::cat(token, test_lf)
}

//------------ SP ----------------------------------------------------------------

/// SP: space.
pub open spec fn is_sp(ch: u8) -> bool {
    ch == 0x20
}

/// The class SP.
pub open spec fn sp_class() -> OctetClass {
    |ch: u8| is_sp(ch)
}

/// Whether `ch` is SP.
pub fn test_sp(ch: u8) -> (b: bool)
    ensures
        b == is_sp(ch),
{
    ch == 0x20
}

/// One octet of SP.
pub fn sp(token: &mut Token) -> (res: MatchOutcome<(), TokenError>)
    requires
        old(token).wf(),
    ensures
        final(token).stepped(old(token), one_of(old(token).rest(), sp_class(), TokenError), res),
{
    assert(decides(test_sp, sp_class()));
    token::cat(token, test_sp)
}

/// A run of at least one octet of SP, ended by an octet of another
/// class.
pub fn sps(token: &mut Token) -> (res: MatchOutcome<(), TokenError>)
    requires
        old(token).wf(),
    ensures
        final(token).advanced(old(token), some_of(old(token).rest(), sp_class(), TokenError), res),
        res is Failed ==> final(token).offset() == old(token).offset(),
{
    assert(decides(test_sp, sp_class()));
    token::cats(token, test_sp)
}

//------------ VCHAR -------------------------------------------------------------

/// VCHAR: a visible (printing) character.
pub open spec fn is_vchar(ch: u8) -> bool {
    0x21 <= ch <= 0x7E
}

/// The class VCHAR.
pub open spec fn vchar_class() -> OctetClass {
    |ch: u8| is_vchar(ch)
}

/// Whether `ch` is VCHAR.
pub fn test_vchar(ch: u8) -> (b: bool)
    ensures
        b == is_vchar(ch),
{
    ch >= 0x21 && ch <= 0x7E
}

/// One octet of VCHAR.
pub fn vchar(token: &mut Token) -> (res: MatchOutcome<(), TokenError>)
    requires
        old(token).wf(),
    ensures
        final(token).stepped(old(token), one_of(old(token).rest(), vchar_class(), TokenError), res),
{
    assert(decides(test_vchar, vchar_class()));
    token::cat(token, test_vchar)
}

/// A run of at least one octet of VCHAR, ended by an octet of another
/// class.
pub fn vchars(token: &mut Token) -> (res: MatchOutcome<(), TokenError>)
    requires
        old(token).wf(),
    ensures
        final(token).advanced(old(token), some_of(old(token).rest(), vchar_class(), TokenError), res),
        res is Failed ==> final(token).offset() == old(token).offset(),
{
    assert(decides(test_vchar, vchar_class()));
    token::cats(token, test_vchar)
}

//------------ WSP ---------------------------------------------------------------

/// WSP: white space: space or horizontal tab.
pub open spec fn is_wsp(ch: u8) -> bool {
    ch == 0x20 || ch == 0x09
}

/// The class WSP.
pub open spec fn wsp_class() -> OctetClass {
    |ch: u8| is_wsp(ch)
}

/// Whether `ch` is WSP.
pub fn test_wsp(ch: u8) -> (b: bool)
    ensures
        b == is_wsp(ch),
{
    ch == 0x20 || ch == 0x09
}

/// One octet of WSP.
pub fn wsp(token: &mut Token) -> (res: MatchOutcome<(), TokenError>)
    requires
        old(token).wf(),
    ensures
        final(token).stepped(old(token), one_of(old(token).rest(), wsp_class(), TokenError), res),
{
    assert(decides(test_wsp, wsp_class()));
    token::cat(token, test_wsp)
}

/// A run of at least one octet of WSP, ended by an octet of another
/// class.
pub fn wsps(token: &mut Token) -> (res: MatchOutcome<(), TokenError>)
    requires
        old(token).wf(),
    ensures
        final(token).advanced(old(token), some_of(old(token).rest(), wsp_class(), TokenError), res),
        res is Failed ==> final(token).offset() == old(token).offset(),
{
    assert(decides(test_wsp, wsp_class()));
    token::cats(token, test_wsp)
}

//------------ CRLF and lines terminated by CRLF -----------------------------

/// The model of `crlf`: a carriage return and then a line feed.
pub open spec fn line_break(s: Seq<u8>) -> Parsed<(), TokenError> {
    if s.len() == 0 {
        MatchOutcome::Pending
    } else if s[0] != 0x0D {
        MatchOutcome::Failed(TokenError)
    } else if s.len() == 1 {
        MatchOutcome::Pending
    } else if s[1] != 0x0A {
        MatchOutcome::Failed(TokenError)
    } else {
        MatchOutcome::Complete(((), 2))
    }
}

/// How far `crlf` has advanced when it fails: over the carriage return if
/// there was one.
pub open spec fn line_break_stopped(s: Seq<u8>) -> nat {
    if s.len() > 0 && s[0] == 0x0D {
        1
    } else {
        0
    }
}

/// CRLF: the Internet standard newline.
///
/// When it fails after a carriage return, the token stays behind the
/// carriage return.
pub fn crlf(token: &mut Token) -> (res: MatchOutcome<(), TokenError>)
    requires
        old(token).wf(),
    ensures
        final(token).advanced(old(token), line_break(old(token).rest()), res),
        res is Failed ==> final(token).offset() == old(token).offset() + line_break_stopped(
            old(token).rest(),
        ),
{
    let ghost start = *token;
    let fail = || -> (e: TokenError) { TokenError };
    match token.expect(test_cr, fail) {
        MatchOutcome::Complete(()) => {},
        MatchOutcome::Pending => {
            return MatchOutcome::Pending;
        },
        MatchOutcome::Failed(e) => {
            return MatchOutcome::Failed(e);
        },
    }
    assert(token.rest() =~= start.rest().skip(1));
    let fail = || -> (e: TokenError) { TokenError };
    match token.expect(test_lf, fail) {
        MatchOutcome::Complete(()) => MatchOutcome::Complete(()),
        MatchOutcome::Pending => MatchOutcome::Pending,
        MatchOutcome::Failed(e) => MatchOutcome::Failed(e),
    }
}

/// Skips over a CRLF at the front of the buffer.
pub fn skip_crlf(buf: &mut BytesMut) -> (res: MatchOutcome<(), TokenError>)
    ensures
        consumed(buffered(old(buf)), buffered(final(buf)), line_break(buffered(old(buf))), res),
{
    proof {
        lemma_skip_nothing(buffered(buf));
    }
    token::skip(buf, crlf)
}

/// A CRLF stands at place `at` of `s`.
pub open spec fn line_ends_at(s: Seq<u8>, at: int) -> bool {
    0 <= at && at + 1 < s.len() && s[at] == 0x0D && s[at + 1] == 0x0A
}

/// The first CRLF of `s` stands at place `at`.
pub open spec fn first_line_ends_at(s: Seq<u8>, at: int) -> bool {
    &&& line_ends_at(s, at)
    &&& forall|before: int| 0 <= before < at ==> !#[trigger] line_ends_at(s, before)
}

/// There is at most one first CRLF.
pub proof fn lemma_first_line_end_unique(s: Seq<u8>, at: int, other: int)
    requires
        first_line_ends_at(s, at),
        first_line_ends_at(s, other),
    ensures
        at == other,
{
    if at < other {
        assert(line_ends_at(s, at));
    } else if other < at {
        assert(line_ends_at(s, other));
    }
}

/// The model of `line`: everything up to the first CRLF, which is
/// included. Pending as long as there is no CRLF.
pub open spec fn first_line(s: Seq<u8>) -> Parsed<(), TokenError> {
    if exists|at: int| first_line_ends_at(s, at) {
        MatchOutcome::Complete(((), ((choose|at: int| first_line_ends_at(s, at)) + 2) as nat))
    } else {
        MatchOutcome::Pending
    }
}

/// A line: everything up to and including the first CRLF.
///
/// Pending as long as there is no CRLF. Never fails.
pub fn line(token: &mut Token) -> (res: MatchOutcome<(), TokenError>)
    requires
        old(token).wf(),
    ensures
        final(token).stepped(old(token), first_line(old(token).rest()), res),
{
    let rest = token.remaining();
    let len = rest.len();
    let mut i: usize = 0;
    let mut pos: Option<usize> = None;
    while len - i > 1
        invariant_except_break
            pos is None,
        invariant
            len == rest@.len(),
            i <= len,
            forall|before: int| 0 <= before < i ==> !#[trigger] line_ends_at(rest@, before),
        ensures
            match pos {
                Some(at) => first_line_ends_at(rest@, at as int),
                None => forall|at: int| !#[trigger] line_ends_at(rest@, at),
            },
        decreases len - i,
    {
        if rest[i] == 0x0D && rest[i + 1] == 0x0A {
            pos = Some(i);
            break ;
        }
        i = i + 1;
    }
    match pos {
        Some(at) => {
            proof {
                let chosen = choose|at: int| first_line_ends_at(rest@, at);
                lemma_first_line_end_unique(rest@, at as int, chosen);
            }
            token.advance(at + 2);
            MatchOutcome::Complete(())
        },
        None => MatchOutcome::Pending,
    }
}

/// Takes a line, its CRLF included, from the front of the buffer.
pub fn parse_line(buf: &mut BytesMut) -> (res: MatchOutcome<Bytes, TokenError>)
    ensures
        taken(buffered(old(buf)), buffered(final(buf)), first_line(buffered(old(buf))), res),
{
    proof {
        lemma_skip_nothing(buffered(buf));
    }
    token::parse(buf, line)
}

//------------ DQUOTE, continued ---------------------------------------------

/// Skips over a double quote at the front of the buffer.
pub fn skip_dquote(buf: &mut BytesMut) -> (res: MatchOutcome<(), TokenError>)
    ensures
        consumed(
            buffered(old(buf)),
            buffered(final(buf)),
            one_of(buffered(old(buf)), dquote_class(), TokenError),
            res,
        ),
{
    proof {
        lemma_skip_nothing(buffered(buf));
    }
    token::skip(buf, dquote)
}

//------------ LWSP ----------------------------------------------------------

/// The model of `lwsp`: white space and CRLF in turn, for as long as they
/// come. The match ends where the turn is broken, and takes along the
/// white space or carriage return that came before the break.
pub open spec fn linear_white_space(s: Seq<u8>) -> Parsed<(), TokenError>
    decreases s.len(),
{
    if s.len() == 0 {
        MatchOutcome::Pending
    } else if !is_wsp(s[0]) {
        MatchOutcome::Complete(((), 0))
    } else if s.len() == 1 {
        MatchOutcome::Pending
    } else if s[1] != 0x0D {
        MatchOutcome::Complete(((), 1))
    } else if s.len() == 2 {
        MatchOutcome::Pending
    } else if s[2] != 0x0A {
        MatchOutcome::Complete(((), 2))
    } else {
        match linear_white_space(s.skip(3)) {
            MatchOutcome::Complete((_, n)) => MatchOutcome::Complete(((), n + 3)),
            MatchOutcome::Pending => MatchOutcome::Pending,
            MatchOutcome::Failed(e) => MatchOutcome::Failed(e),
        }
    }
}

/// LWSP never fails.
pub proof fn lemma_linear_white_space_total(s: Seq<u8>)
    ensures
        !(linear_white_space(s) is Failed),
        linear_white_space(s) matches MatchOutcome::Complete((v, n)) ==> v == () && n <= s.len(),
    decreases s.len(),
{
    if s.len() > 2 && is_wsp(s[0]) && s[1] == 0x0D && s[2] == 0x0A {
        lemma_linear_white_space_total(s.skip(3));
    }
}

/// LWSP: white space, each followed by a CRLF, until one of the two is
/// missing. Never fails.
pub fn lwsp(token: &mut Token) -> (res: MatchOutcome<(), TokenError>)
    requires
        old(token).wf(),
    ensures
        final(token).advanced(old(token), linear_white_space(old(token).rest()), res),
{
    let ghost start = *token;
    proof {
        lemma_linear_white_space_total(start.rest());
    }
    loop
        invariant
            start == *old(token),
            token.follows(&start),
            linear_white_space(start.rest()) matches MatchOutcome::Complete((v, _)) ==> v == (),
            match linear_white_space(token.rest()) {
                MatchOutcome::Complete((_, n)) => {
                    &&& linear_white_space(start.rest()) matches MatchOutcome::Complete((_, m))
                    &&& m == n + token.offset() - start.offset()
                },
                MatchOutcome::Pending => linear_white_space(start.rest()) is Pending,
                MatchOutcome::Failed(_) => false,
            },
        decreases token.input().len() - token.offset(),
    {
        let ghost before = *token;
        match wsp(token) {
            MatchOutcome::Complete(()) => {},
            MatchOutcome::Pending => {
                return MatchOutcome::Pending;
            },
            MatchOutcome::Failed(_) => {
                return MatchOutcome::Complete(());
            },
        }
        let ghost middle = *token;
        assert(middle.rest() =~= before.rest().skip(1));
        match crlf(token) {
            MatchOutcome::Complete(()) => {},
            MatchOutcome::Pending => {
                return MatchOutcome::Pending;
            },
            MatchOutcome::Failed(_) => {
                proof {
                    let s = before.rest();
                    assert(middle.rest().len() == s.len() - 1);
                    assert(middle.rest()[0] == s[1]);
                    if s[1] == 0x0D {
                        assert(middle.rest()[1] == s[2]);
                        assert(linear_white_space(s) matches MatchOutcome::Complete((_, n)) && n == 2);
                    } else {
                        assert(linear_white_space(s) matches MatchOutcome::Complete((_, n)) && n == 1);
                    }
                }
                return MatchOutcome::Complete(());
            },
        }
        assert(token.rest() =~= before.rest().skip(3));
        proof {
            lemma_linear_white_space_total(token.rest());
        }
    }
}

/// Skips over LWSP at the front of the buffer.
pub fn skip_lwsp(buf: &mut BytesMut) -> (res: MatchOutcome<(), TokenError>)
    ensures
        consumed(
            buffered(old(buf)),
            buffered(final(buf)),
            linear_white_space(buffered(old(buf))),
            res,
        ),
{
    proof {
        lemma_skip_nothing(buffered(buf));
    }
    token::skip(buf, lwsp)
}

//------------ WSP, continued ------------------------------------------------

/// A possibly empty run of white space, ended by an octet of another
/// class. Returns whether the run holds any octet.
pub fn opt_wsps(token: &mut Token) -> (res: MatchOutcome<bool, TokenError>)
    requires
        old(token).wf(),
    ensures
        final(token).advanced(old(token), any_of(old(token).rest(), wsp_class()), res),
{
    assert(decides(test_wsp, wsp_class()));
    token::opt_cats(token, test_wsp)
}

/// Skips over a run of at least one octet of white space.
pub fn skip_wsps(buf: &mut BytesMut) -> (res: MatchOutcome<(), TokenError>)
    ensures
        consumed(
            buffered(old(buf)),
            buffered(final(buf)),
            some_of(buffered(old(buf)), wsp_class(), TokenError),
            res,
        ),
{
    proof {
        lemma_skip_nothing(buffered(buf));
    }
    token::skip(buf, wsps)
}

/// Skips over a run of white space if there is one. Returns whether there
/// was.
pub fn skip_opt_wsps(buf: &mut BytesMut) -> (res: MatchOutcome<bool, TokenError>)
    ensures
        consumed(
            buffered(old(buf)),
            buffered(final(buf)),
            any_of(buffered(old(buf)), wsp_class()),
            res,
        ),
{
    proof {
        lemma_skip_nothing(buffered(buf));
    }
    token::skip_opt(buf, wsps)
}

//------------ Numbers -------------------------------------------------------

/// Takes a run of decimal digits from the front of the buffer and
/// returns its value as a `u8`. A run whose value does not fit fails and
/// stays in the buffer.
pub fn u8_digits(buf: &mut BytesMut) -> (res: MatchOutcome<u8, TokenError>)
    ensures
        consumed(
            buffered(old(buf)),
            buffered(final(buf)),
            u8_number(buffered(old(buf)), digit_class(), 10),
            res,
        ),
{
    let decode = |found: Result<&[u8], TokenError>| -> (made: Result<u8, TokenError>)
        requires
            found matches Ok(span) ==> all_digits_of(span@, 10),
        ensures
            made == match found {
                Ok(span) => if numeral(span@, 10) <= u8::MAX {
                    Ok::<u8, TokenError>(numeral(span@, 10) as u8)
                } else {
                    Err::<u8, TokenError>(TokenError)
                },
                Err(e) => Err::<u8, TokenError>(e),
            },
        {
            match found {
                Ok(span) => fold_u8(span, 10),
                Err(e) => Err(e),
            }
        };
    proof {
        lemma_skip_nothing(buffered(buf));
        assert forall|t: &mut Token, r: MatchOutcome<(), TokenError>, span: &[u8]|
            {
                &&& t.offset() == 0
                &&& t.input() == buffered(buf)
                &&& #[trigger] call_ensures(digits, (t,), r)
                &&& r is Complete
                &&& span@ == final(t).matched()
            } implies #[trigger] call_requires(decode, (Ok::<&[u8], TokenError>(span),)) by {
            lemma_run_len_bounds(t.rest(), digit_class());
        }
    }
    token::convert(buf, digits, decode)
}

/// Takes a run of decimal digits from the front of the buffer and
/// returns its value as a `u16`. A run whose value does not fit fails and
/// stays in the buffer.
pub fn u16_digits(buf: &mut BytesMut) -> (res: MatchOutcome<u16, TokenError>)
    ensures
        consumed(
            buffered(old(buf)),
            buffered(final(buf)),
            u16_number(buffered(old(buf)), digit_class(), 10),
            res,
        ),
{
    let decode = |found: Result<&[u8], TokenError>| -> (made: Result<u16, TokenError>)
        requires
            found matches Ok(span) ==> all_digits_of(span@, 10),
        ensures
            made == match found {
                Ok(span) => if numeral(span@, 10) <= u16::MAX {
                    Ok::<u16, TokenError>(numeral(span@, 10) as u16)
                } else {
                    Err::<u16, TokenError>(TokenError)
                },
                Err(e) => Err::<u16, TokenError>(e),
            },
        {
            match found {
                Ok(span) => fold_u16(span, 10),
                Err(e) => Err(e),
            }
        };
    proof {
        lemma_skip_nothing(buffered(buf));
        assert forall|t: &mut Token, r: MatchOutcome<(), TokenError>, span: &[u8]|
            {
                &&& t.offset() == 0
                &&& t.input() == buffered(buf)
                &&& #[trigger] call_ensures(digits, (t,), r)
                &&& r is Complete
                &&& span@ == final(t).matched()
            } implies #[trigger] call_requires(decode, (Ok::<&[u8], TokenError>(span),)) by {
            lemma_run_len_bounds(t.rest(), digit_class());
        }
    }
    token::convert(buf, digits, decode)
}

/// Takes a run of decimal digits from the front of the buffer and
/// returns its value as a `u32`. A run whose value does not fit fails and
/// stays in the buffer.
pub fn u32_digits(buf: &mut BytesMut) -> (res: MatchOutcome<u32, TokenError>)
    ensures
        consumed(
            buffered(old(buf)),
            buffered(final(buf)),
            u32_number(buffered(old(buf)), digit_class(), 10),
            res,
        ),
{
    let decode = |found: Result<&[u8], TokenError>| -> (made: Result<u32, TokenError>)
        requires
            found matches Ok(span) ==> all_digits_of(span@, 10),
        ensures
            made == match found {
                Ok(span) => if numeral(span@, 10) <= u32::MAX {
                    Ok::<u32, TokenError>(numeral(span@, 10) as u32)
                } else {
                    Err::<u32, TokenError>(TokenError)
                },
                Err(e) => Err::<u32, TokenError>(e),
            },
        {
            match found {
                Ok(span) => fold_u32(span, 10),
                Err(e) => Err(e),
            }
        };
    proof {
        lemma_skip_nothing(buffered(buf));
        assert forall|t: &mut Token, r: MatchOutcome<(), TokenError>, span: &[u8]|
            {
                &&& t.offset() == 0
                &&& t.input() == buffered(buf)
                &&& #[trigger] call_ensures(digits, (t,), r)
                &&& r is Complete
                &&& span@ == final(t).matched()
            } implies #[trigger] call_requires(decode, (Ok::<&[u8], TokenError>(span),)) by {
            lemma_run_len_bounds(t.rest(), digit_class());
        }
    }
    token::convert(buf, digits, decode)
}

/// Takes a run of decimal digits from the front of the buffer and
/// returns its value as a `u64`. A run whose value does not fit fails and
/// stays in the buffer.
pub fn u64_digits(buf: &mut BytesMut) -> (res: MatchOutcome<u64, TokenError>)
    ensures
        consumed(
            buffered(old(buf)),
            buffered(final(buf)),
            u64_number(buffered(old(buf)), digit_class(), 10),
            res,
        ),
{
    let decode = |found: Result<&[u8], TokenError>| -> (made: Result<u64, TokenError>)
        requires
            found matches Ok(span) ==> all_digits_of(span@, 10),
        ensures
            made == match found {
                Ok(span) => if numeral(span@, 10) <= u64::MAX {
                    Ok::<u64, TokenError>(numeral(span@, 10) as u64)
                } else {
                    Err::<u64, TokenError>(TokenError)
                },
                Err(e) => Err::<u64, TokenError>(e),
            },
        {
            match found {
                Ok(span) => fold_u64(span, 10),
                Err(e) => Err(e),
            }
        };
    proof {
        lemma_skip_nothing(buffered(buf));
        assert forall|t: &mut Token, r: MatchOutcome<(), TokenError>, span: &[u8]|
            {
                &&& t.offset() == 0
                &&& t.input() == buffered(buf)
                &&& #[trigger] call_ensures(digits, (t,), r)
                &&& r is Complete
                &&& span@ == final(t).matched()
            } implies #[trigger] call_requires(decode, (Ok::<&[u8], TokenError>(span),)) by {
            lemma_run_len_bounds(t.rest(), digit_class());
        }
    }
    token::convert(buf, digits, decode)
}

/// Takes a run of hexadecimal digits from the front of the buffer and
/// returns its value as a `u8`. A run whose value does not fit fails and
/// stays in the buffer.
pub fn u8_hexdigs(buf: &mut BytesMut) -> (res: MatchOutcome<u8, TokenError>)
    ensures
        consumed(
            buffered(old(buf)),
            buffered(final(buf)),
            u8_number(buffered(old(buf)), hexdig_class(), 16),
            res,
        ),
{
    let decode = |found: Result<&[u8], TokenError>| -> (made: Result<u8, TokenError>)
        requires
            found matches Ok(span) ==> all_digits_of(span@, 16),
        ensures
            made == match found {
                Ok(span) => if numeral(span@, 16) <= u8::MAX {
                    Ok::<u8, TokenError>(numeral(span@, 16) as u8)
                } else {
                    Err::<u8, TokenError>(TokenError)
                },
                Err(e) => Err::<u8, TokenError>(e),
            },
        {
            match found {
                Ok(span) => fold_u8(span, 16),
                Err(e) => Err(e),
            }
        };
    proof {
        lemma_skip_nothing(buffered(buf));
        assert forall|t: &mut Token, r: MatchOutcome<(), TokenError>, span: &[u8]|
            {
                &&& t.offset() == 0
                &&& t.input() == buffered(buf)
                &&& #[trigger] call_ensures(hexdigs, (t,), r)
                &&& r is Complete
                &&& span@ == final(t).matched()
            } implies #[trigger] call_requires(decode, (Ok::<&[u8], TokenError>(span),)) by {
            lemma_run_len_bounds(t.rest(), hexdig_class());
        }
    }
    token::convert(buf, hexdigs, decode)
}

/// Takes a run of hexadecimal digits from the front of the buffer and
/// returns its value as a `u16`. A run whose value does not fit fails and
/// stays in the buffer.
pub fn u16_hexdigs(buf: &mut BytesMut) -> (res: MatchOutcome<u16, TokenError>)
    ensures
        consumed(
            buffered(old(buf)),
            buffered(final(buf)),
            u16_number(buffered(old(buf)), hexdig_class(), 16),
            res,
        ),
{
    let decode = |found: Result<&[u8], TokenError>| -> (made: Result<u16, TokenError>)
        requires
            found matches Ok(span) ==> all_digits_of(span@, 16),
        ensures
            made == match found {
                Ok(span) => if numeral(span@, 16) <= u16::MAX {
                    Ok::<u16, TokenError>(numeral(span@, 16) as u16)
                } else {
                    Err::<u16, TokenError>(TokenError)
                },
                Err(e) => Err::<u16, TokenError>(e),
            },
        {
            match found {
                Ok(span) => fold_u16(span, 16),
                Err(e) => Err(e),
            }
        };
    proof {
        lemma_skip_nothing(buffered(buf));
        assert forall|t: &mut Token, r: MatchOutcome<(), TokenError>, span: &[u8]|
            {
                &&& t.offset() == 0
                &&& t.input() == buffered(buf)
                &&& #[trigger] call_ensures(hexdigs, (t,), r)
                &&& r is Complete
                &&& span@ == final(t).matched()
            } implies #[trigger] call_requires(decode, (Ok::<&[u8], TokenError>(span),)) by {
            lemma_run_len_bounds(t.rest(), hexdig_class());
        }
    }
    token::convert(buf, hexdigs, decode)
}

/// Takes a run of hexadecimal digits from the front of the buffer and
/// returns its value as a `u32`. A run whose value does not fit fails and
/// stays in the buffer.
pub fn u32_hexdigs(buf: &mut BytesMut) -> (res: MatchOutcome<u32, TokenError>)
    ensures
        consumed(
            buffered(old(buf)),
            buffered(final(buf)),
            u32_number(buffered(old(buf)), hexdig_class(), 16),
            res,
        ),
{
    let decode = |found: Result<&[u8], TokenError>| -> (made: Result<u32, TokenError>)
        requires
            found matches Ok(span) ==> all_digits_of(span@, 16),
        ensures
            made == match found {
                Ok(span) => if numeral(span@, 16) <= u32::MAX {
                    Ok::<u32, TokenError>(numeral(span@, 16) as u32)
                } else {
                    Err::<u32, TokenError>(TokenError)
                },
                Err(e) => Err::<u32, TokenError>(e),
            },
        {
            match found {
                Ok(span) => fold_u32(span, 16),
                Err(e) => Err(e),
            }
        };
    proof {
        lemma_skip_nothing(buffered(buf));
        assert forall|t: &mut Token, r: MatchOutcome<(), TokenError>, span: &[u8]|
            {
                &&& t.offset() == 0
                &&& t.input() == buffered(buf)
                &&& #[trigger] call_ensures(hexdigs, (t,), r)
                &&& r is Complete
                &&& span@ == final(t).matched()
            } implies #[trigger] call_requires(decode, (Ok::<&[u8], TokenError>(span),)) by {
            lemma_run_len_bounds(t.rest(), hexdig_class());
        }
    }
    token::convert(buf, hexdigs, decode)
}

/// Takes a run of hexadecimal digits from the front of the buffer and
/// returns its value as a `u64`. A run whose value does not fit fails and
/// stays in the buffer.
pub fn u64_hexdigs(buf: &mut BytesMut) -> (res: MatchOutcome<u64, TokenError>)
    ensures
        consumed(
            buffered(old(buf)),
            buffered(final(buf)),
            u64_number(buffered(old(buf)), hexdig_class(), 16),
            res,
        ),
{
    let decode = |found: Result<&[u8], TokenError>| -> (made: Result<u64, TokenError>)
        requires
            found matches Ok(span) ==> all_digits_of(span@, 16),
        ensures
            made == match found {
                Ok(span) => if numeral(span@, 16) <= u64::MAX {
                    Ok::<u64, TokenError>(numeral(span@, 16) as u64)
                } else {
                    Err::<u64, TokenError>(TokenError)
                },
                Err(e) => Err::<u64, TokenError>(e),
            },
        {
            match found {
                Ok(span) => fold_u64(span, 16),
                Err(e) => Err(e),
            }
        };
    proof {
        lemma_skip_nothing(buffered(buf));
        assert forall|t: &mut Token, r: MatchOutcome<(), TokenError>, span: &[u8]|
            {
                &&& t.offset() == 0
                &&& t.input() == buffered(buf)
                &&& #[trigger] call_ensures(hexdigs, (t,), r)
                &&& r is Complete
                &&& span@ == final(t).matched()
            } implies #[trigger] call_requires(decode, (Ok::<&[u8], TokenError>(span),)) by {
            lemma_run_len_bounds(t.rest(), hexdig_class());
        }
    }
    token::convert(buf, hexdigs, decode)
}

//------------ Input that arrives in parts ------------------------------------

/// A CRLF is settled by its two octets, or by the first that is wrong.
pub proof fn lemma_line_break_settled(s: Seq<u8>, more: Seq<u8>)
    ensures
        settled(line_break(s), line_break(s + more)),
{
    if s.len() > 0 {
        assert((s + more)[0] == s[0]);
    }
    if s.len() > 1 {
        assert((s + more)[1] == s[1]);
    }
}

/// A line is settled by its CRLF.
pub proof fn lemma_first_line_settled(s: Seq<u8>, more: Seq<u8>)
    ensures
        settled(first_line(s), first_line(s + more)),
{
    if exists|at: int| first_line_ends_at(s, at) {
        let at = choose|at: int| first_line_ends_at(s, at);
        let t = s + more;
        assert(t[at] == s[at]);
        assert(t[at + 1] == s[at + 1]);
        assert forall|before: int| 0 <= before < at implies !#[trigger] line_ends_at(
            t,
            before,
        ) by {
            assert(t[before] == s[before]);
            assert(t[before + 1] == s[before + 1]);
            assert(!line_ends_at(s, before));
        }
        assert(first_line_ends_at(t, at));
        let later = choose|at: int| first_line_ends_at(t, at);
        lemma_first_line_end_unique(t, at, later);
    }
}

/// LWSP is settled by the octet that breaks the turn of white space and
/// CRLF.
pub proof fn lemma_linear_white_space_settled(s: Seq<u8>, more: Seq<u8>)
    ensures
        settled(linear_white_space(s), linear_white_space(s + more)),
    decreases s.len(),
{
    let t = s + more;
    if s.len() > 0 {
        assert(t[0] == s[0]);
    }
    if s.len() > 1 {
        assert(t[1] == s[1]);
    }
    if s.len() > 2 {
        assert(t[2] == s[2]);
        if is_wsp(s[0]) && s[1] == 0x0D && s[2] == 0x0A {
            lemma_linear_white_space_settled(s.skip(3), more);
            assert(t.skip(3) =~= s.skip(3) + more);
        }
    }
}

} // verus!
