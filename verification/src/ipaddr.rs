//! IP addresses in their textual forms.
//!
//! An IPv4 address is four decimal octets separated by dots. An IPv6
//! address is eight groups of hexadecimal digits separated by colons, in
//! which one run of zero groups may be left out and written `::`, and in
//! which the last two groups may be written as an IPv4 address.

use crate::buffer::buffered;
use crate::core_rules::digit_class;
use crate::core_rules::digits;
use crate::core_rules::hexdig_class;
use crate::core_rules::hexdigs;
use crate::core_rules::is_hexdig;
use crate::core_rules::test_hexdig;
use crate::grammar::lemma_one_of_settled;
use crate::grammar::lemma_repeated_steady;
use crate::grammar::lemma_run_len_bounds;
use crate::grammar::lemma_run_len_stable;
use crate::grammar::steady;
use crate::grammar::one_of;
use crate::grammar::only;
use crate::grammar::repeated;
use crate::grammar::run_len;
use crate::grammar::Rule;
use crate::number::all_digits_of;
use crate::number::fold_u16;
use crate::number::fold_u8;
use crate::number::lemma_four_hex_digits_fit;
use crate::number::numeral;
use crate::outcome::consumed;
use crate::outcome::consumed_or_left;
use crate::outcome::lemma_prefixed_nothing;
use crate::outcome::lemma_prefixed_twice;
use crate::outcome::prefixed;
use crate::outcome::settled;
use crate::outcome::within;
use crate::outcome::viewed;
use crate::outcome::MatchOutcome;
use crate::outcome::Parsed;
use crate::parse::rule::group;
use crate::parse::token;
use crate::parse::token::lemma_skip_nothing;
use crate::parse::token::Token;
use crate::parse::token::TokenError;
use bytes::BytesMut;
use vstd::prelude::*;

verus! {

//------------ Addresses -----------------------------------------------------

/// An IPv4 address: four octets, the most significant first.
#[derive(Clone, Copy, Debug, PartialEq, Eq)]
pub struct Ipv4Addr {
    octets: [u8; 4],
}

impl View for Ipv4Addr {
    type V = Seq<u8>;

    closed spec fn view(&self) -> Seq<u8> {
        self.octets@
    }
}

impl Ipv4Addr {
    /// The address `a.b.c.d`.
    pub fn new(a: u8, b: u8, c: u8, d: u8) -> (addr: Ipv4Addr)
        ensures
            addr@ == seq![a, b, c, d],
    {
        let addr = Ipv4Addr { octets: [a, b, c, d] };
        assert(addr.octets@ =~= seq![a, b, c, d]);
        addr
    }

    /// The four octets of the address.
    pub fn octets(&self) -> (octets: [u8; 4])
        ensures
            octets@ == self@,
    {
        self.octets
    }

    /// An address has four octets, and is known by them.
    pub proof fn lemma_view(self, other: Ipv4Addr)
        ensures
            self@.len() == 4,
            self@ == other@ ==> self == other,
    {
        if self@ == other@ {
            assert(self.octets =~= other.octets);
        }
    }
}

/// An IPv6 address: eight groups of 16 bits, the most significant first.
#[derive(Clone, Copy, Debug, PartialEq, Eq)]
pub struct Ipv6Addr {
    segments: [u16; 8],
}

impl View for Ipv6Addr {
    type V = Seq<u16>;

    closed spec fn view(&self) -> Seq<u16> {
        self.segments@
    }
}

impl Ipv6Addr {
    /// The address `a:b:c:d:e:f:g:h`.
    pub fn new(a: u16, b: u16, c: u16, d: u16, e: u16, f: u16, g: u16, h: u16) -> (addr: Ipv6Addr)
        ensures
            addr@ == seq![a, b, c, d, e, f, g, h],
    {
        let addr = Ipv6Addr { segments: [a, b, c, d, e, f, g, h] };
        assert(addr.segments@ =~= seq![a, b, c, d, e, f, g, h]);
        addr
    }

    /// The eight groups of the address.
    pub fn segments(&self) -> (segments: [u16; 8])
        ensures
            segments@ == self@,
    {
        self.segments
    }

    /// An address has eight groups, and is known by them.
    pub proof fn lemma_view(self, other: Ipv6Addr)
        ensures
            self@.len() == 8,
            self@ == other@ ==> self == other,
    {
        if self@ == other@ {
            assert(self.segments =~= other.segments);
        }
    }
}

//------------ IPv4 ----------------------------------------------------------

/// A match of `head`, followed by the one octet `value`.
pub open spec fn followed_by<T>(s: Seq<u8>, head: Parsed<T, TokenError>, value: u8) -> Parsed<
    T,
    TokenError,
> {
    match head {
        MatchOutcome::Complete((v, n)) => match one_of(s.skip(n as int), only(value), TokenError) {
            MatchOutcome::Complete((_, m)) => MatchOutcome::Complete((v, n + m)),
            MatchOutcome::Pending => MatchOutcome::Pending,
            MatchOutcome::Failed(e) => MatchOutcome::Failed(e),
        },
        MatchOutcome::Pending => MatchOutcome::Pending,
        MatchOutcome::Failed(e) => MatchOutcome::Failed(e),
    }
}

/// One octet of a dotted IPv4 address: one to three decimal digits, ended
/// by an octet that is no digit, with a value of at most 255.
pub open spec fn decimal_octet(s: Seq<u8>) -> Parsed<u8, TokenError> {
    let n = run_len(s, digit_class());
    if n == s.len() {
        MatchOutcome::Pending
    } else if n == 0 || n > 3 || numeral(s.take(n as int), 10) > 255 {
        MatchOutcome::Failed(TokenError)
    } else {
        MatchOutcome::Complete((numeral(s.take(n as int), 10) as u8, n))
    }
}

/// An octet of an IPv4 address and the dot behind it.
pub open spec fn octet_dot(s: Seq<u8>) -> Parsed<u8, TokenError> {
    followed_by(s, decimal_octet(s), 0x2E)
}

/// `octet_dot` as a rule.
pub open spec fn octet_dot_rule() -> Rule<u8, TokenError> {
    |s: Seq<u8>| octet_dot(s)
}

/// A dotted IPv4 address: three octets with their dots and a fourth.
pub open spec fn dotted_quad(s: Seq<u8>) -> Parsed<Seq<u8>, TokenError> {
    match repeated(s, octet_dot_rule(), 3) {
        MatchOutcome::Complete((head, n)) => match decimal_octet(s.skip(n as int)) {
            MatchOutcome::Complete((last, m)) => MatchOutcome::Complete((head.push(last), n + m)),
            MatchOutcome::Pending => MatchOutcome::Pending,
            MatchOutcome::Failed(e) => MatchOutcome::Failed(e),
        },
        MatchOutcome::Pending => MatchOutcome::Pending,
        MatchOutcome::Failed(e) => MatchOutcome::Failed(e),
    }
}

/// Takes one octet of a dotted IPv4 address from the front of the buffer.
pub fn ipv4_octet(buf: &mut BytesMut) -> (res: MatchOutcome<u8, TokenError>)
    ensures
        consumed(buffered(old(buf)), buffered(final(buf)), decimal_octet(buffered(old(buf))), res),
{
    let decode = |found: Result<&[u8], TokenError>| -> (made: Result<u8, TokenError>)
        requires
            found matches Ok(span) ==> all_digits_of(span@, 10),
        ensures
            made == match found {
                Ok(span) => if span@.len() <= 3 && numeral(span@, 10) <= 255 {
                    Ok::<u8, TokenError>(numeral(span@, 10) as u8)
                } else {
                    Err::<u8, TokenError>(TokenError)
                },
                Err(e) => Err::<u8, TokenError>(e),
            },
        {
            match found {
                Ok(span) => if span.len() > 3 {
                    Err(TokenError)
                } else {
                    fold_u8(span, 10)
                },
                Err(e) => Err(e),
            }
        };
    proof {
        lemma_skip_nothing(buffered(buf));
        assert forall|t: &mut Token, r: MatchOutcome<(), TokenError>, span: &[u8]|
            {
                &&& t.offset() == 0
                &&& t.input() == buffered(buf)
                &&& #[trigger] call_ensures(digits, (t,), r)
                &&& r is Complete
                &&& span@ == final(t).matched()
            } implies #[trigger] call_requires(decode, (Ok::<&[u8], TokenError>(span),)) by {
            lemma_run_len_bounds(t.rest(), digit_class());
        }
    }
    token::convert(buf, digits, decode)
}

/// Takes an octet of an IPv4 address and the dot behind it. A failure
/// may leave the buffer without the octet.
fn octet_then_dot(buf: &mut BytesMut) -> (res: MatchOutcome<u8, TokenError>)
    ensures
        consumed_or_left(buffered(old(buf)), buffered(final(buf)), octet_dot(buffered(old(buf))), res),
{
    let value = match ipv4_octet(buf) {
        MatchOutcome::Complete(value) => value,
        MatchOutcome::Pending => {
            return MatchOutcome::Pending;
        },
        MatchOutcome::Failed(e) => {
            return MatchOutcome::Failed(e);
        },
    };
    let ghost n = decimal_octet(buffered(old(buf)))->Complete_0.1;
    match token::skip_octet(buf, 0x2E) {
        MatchOutcome::Complete(()) => {
            assert(buffered(buf) =~= buffered(old(buf)).skip((n + 1) as int));
            MatchOutcome::Complete(value)
        },
        MatchOutcome::Pending => MatchOutcome::Pending,
        MatchOutcome::Failed(e) => MatchOutcome::Failed(e),
    }
}

/// A dotted IPv4 address. A failure may leave the buffer without the
/// octets that came before it.
fn dotted_quad_unguarded(buf: &mut BytesMut) -> (res: MatchOutcome<Ipv4Addr, TokenError>)
    ensures
        consumed_or_left(
            buffered(old(buf)),
            buffered(final(buf)),
            dotted_quad(buffered(old(buf))),
            viewed(res),
        ),
{
    let ghost s0 = buffered(buf);
    proof {
        reveal_with_fuel(repeated, 4);
    }
    let a = match octet_then_dot(buf) {
        MatchOutcome::Complete(value) => value,
        MatchOutcome::Pending => {
            return MatchOutcome::Pending;
        },
        MatchOutcome::Failed(e) => {
            return MatchOutcome::Failed(e);
        },
    };
    let ghost s1 = buffered(buf);
    let b = match octet_then_dot(buf) {
        MatchOutcome::Complete(value) => value,
        MatchOutcome::Pending => {
            return MatchOutcome::Pending;
        },
        MatchOutcome::Failed(e) => {
            return MatchOutcome::Failed(e);
        },
    };
    let ghost s2 = buffered(buf);
    let c = match octet_then_dot(buf) {
        MatchOutcome::Complete(value) => value,
        MatchOutcome::Pending => {
            return MatchOutcome::Pending;
        },
        MatchOutcome::Failed(e) => {
            return MatchOutcome::Failed(e);
        },
    };
    let ghost s3 = buffered(buf);
    proof {
        let n1 = octet_dot(s0)->Complete_0.1;
        let n2 = octet_dot(s1)->Complete_0.1;
        let n3 = octet_dot(s2)->Complete_0.1;
        assert(s2 =~= s0.skip((n1 + n2) as int));
        assert(s3 =~= s0.skip((n1 + n2 + n3) as int));
        assert(repeated(s0, octet_dot_rule(), 3) == MatchOutcome::<
            (Seq<u8>, nat),
            TokenError,
        >::Complete((seq![a] + (seq![b] + (seq![c] + Seq::<u8>::empty())), n1 + n2 + n3)));
    }
    let d = match ipv4_octet(buf) {
        MatchOutcome::Complete(value) => value,
        MatchOutcome::Pending => {
            return MatchOutcome::Pending;
        },
        MatchOutcome::Failed(e) => {
            return MatchOutcome::Failed(e);
        },
    };
    proof {
        let n1 = octet_dot(s0)->Complete_0.1;
        let n2 = octet_dot(s1)->Complete_0.1;
        let n3 = octet_dot(s2)->Complete_0.1;
        let n4 = decimal_octet(s3)->Complete_0.1;
        assert(s2 =~= s0.skip((n1 + n2) as int));
        assert(s3 =~= s0.skip((n1 + n2 + n3) as int));
        assert(buffered(buf) =~= s0.skip((n1 + n2 + n3 + n4) as int));
        assert((seq![a] + (seq![b] + (seq![c] + Seq::<u8>::empty()))).push(d) =~= seq![a, b, c, d]);
    }
    MatchOutcome::Complete(Ipv4Addr::new(a, b, c, d))
}

/// Parses an IPv4 address.
///
/// The address is four decimal octets of one to three digits and a value
/// of at most 255 each, separated by dots. The octet that ends the last
/// run of digits stays in the buffer; without it the address is pending.
pub fn parse_ipv4_addr(buf: &mut BytesMut) -> (res: MatchOutcome<Ipv4Addr, TokenError>)
    ensures
        consumed(
            buffered(old(buf)),
            buffered(final(buf)),
            dotted_quad(buffered(old(buf))),
            viewed(res),
        ),
{
    group(buf, dotted_quad_unguarded)
}

//------------ IPv6: groups --------------------------------------------------

/// One group of an IPv6 address: one to four hexadecimal digits, ended by
/// an octet that is no hexadecimal digit. A run that is ended by a dot is
/// no group: it is the first octet of an IPv4 address.
pub open spec fn hex_group(s: Seq<u8>) -> Parsed<u16, TokenError> {
    let n = run_len(s, hexdig_class());
    if n == s.len() {
        MatchOutcome::Pending
    } else if n == 0 || n > 4 || s[n as int] == 0x2E {
        MatchOutcome::Failed(TokenError)
    } else {
        MatchOutcome::Complete((numeral(s.take(n as int), 16) as u16, n))
    }
}

/// A group and the colon behind it.
pub open spec fn hex_colon(s: Seq<u8>) -> Parsed<u16, TokenError> {
    followed_by(s, hex_group(s), 0x3A)
}

/// `hex_colon` as a rule.
pub open spec fn hex_colon_rule() -> Rule<u16, TokenError> {
    |s: Seq<u8>| hex_colon(s)
}

/// The digits of a group, without their value: a run of hexadecimal
/// digits that is not ended by a dot.
pub open spec fn hex_run(s: Seq<u8>) -> Parsed<(), TokenError> {
    let n = run_len(s, hexdig_class());
    if n == s.len() {
        MatchOutcome::Pending
    } else if n == 0 || s[n as int] == 0x2E {
        MatchOutcome::Failed(TokenError)
    } else {
        MatchOutcome::Complete(((), n))
    }
}

/// Advances over the digits of a group.
fn hex_digits(token: &mut Token) -> (res: MatchOutcome<(), TokenError>)
    requires
        old(token).wf(),
    ensures
        final(token).advanced(old(token), hex_run(old(token).rest()), res),
{
    let ghost start = *token;
    match hexdigs(token) {
        MatchOutcome::Complete(()) => {},
        MatchOutcome::Pending => {
            return MatchOutcome::Pending;
        },
        MatchOutcome::Failed(e) => {
            return MatchOutcome::Failed(e);
        },
    }
    proof {
        let n = run_len(start.rest(), hexdig_class());
        assert(token.rest() =~= start.rest().skip(n as int));
        assert(token.rest()[0] == start.rest()[n as int]);
    }
    match token.first::<TokenError>() {
        MatchOutcome::Complete(ch) => {
            if ch == 0x2E {
                MatchOutcome::Failed(TokenError)
            } else {
                MatchOutcome::Complete(())
            }
        },
        MatchOutcome::Pending => MatchOutcome::Pending,
        MatchOutcome::Failed(e) => MatchOutcome::Failed(e),
    }
}

/// Takes one group of an IPv6 address from the front of the buffer.
pub fn ipv6_hex(buf: &mut BytesMut) -> (res: MatchOutcome<u16, TokenError>)
    ensures
        consumed(buffered(old(buf)), buffered(final(buf)), hex_group(buffered(old(buf))), res),
{
    let decode = |found: Result<&[u8], TokenError>| -> (made: Result<u16, TokenError>)
        requires
            found matches Ok(span) ==> all_digits_of(span@, 16),
        ensures
            made == match found {
                Ok(span) => if span@.len() <= 4 && numeral(span@, 16) <= 0xFFFF {
                    Ok::<u16, TokenError>(numeral(span@, 16) as u16)
                } else {
                    Err::<u16, TokenError>(TokenError)
                },
                Err(e) => Err::<u16, TokenError>(e),
            },
        {
            match found {
                Ok(span) => if span.len() > 4 {
                    Err(TokenError)
                } else {
                    fold_u16(span, 16)
                },
                Err(e) => Err(e),
            }
        };
    proof {
        lemma_skip_nothing(buffered(buf));
        let n = run_len(buffered(buf), hexdig_class());
        lemma_run_len_bounds(buffered(buf), hexdig_class());
        if n <= 4 {
            lemma_four_hex_digits_fit(buffered(buf).take(n as int));
        }
        assert forall|t: &mut Token, r: MatchOutcome<(), TokenError>, span: &[u8]|
            {
                &&& t.offset() == 0
                &&& t.input() == buffered(buf)
                &&& #[trigger] call_ensures(hex_digits, (t,), r)
                &&& r is Complete
                &&& span@ == final(t).matched()
            } implies #[trigger] call_requires(decode, (Ok::<&[u8], TokenError>(span),)) by {
            lemma_run_len_bounds(t.rest(), hexdig_class());
        }
    }
    token::convert(buf, hex_digits, decode)
}

/// Takes a group and the colon behind it. A failure may leave the buffer
/// without the group.
fn hex_then_colon(buf: &mut BytesMut) -> (res: MatchOutcome<u16, TokenError>)
    ensures
        consumed_or_left(buffered(old(buf)), buffered(final(buf)), hex_colon(buffered(old(buf))), res),
{
    let value = match ipv6_hex(buf) {
        MatchOutcome::Complete(value) => value,
        MatchOutcome::Pending => {
            return MatchOutcome::Pending;
        },
        MatchOutcome::Failed(e) => {
            return MatchOutcome::Failed(e);
        },
    };
    let ghost n = hex_group(buffered(old(buf)))->Complete_0.1;
    match token::skip_octet(buf, 0x3A) {
        MatchOutcome::Complete(()) => {
            assert(buffered(buf) =~= buffered(old(buf)).skip((n + 1) as int));
            MatchOutcome::Complete(value)
        },
        MatchOutcome::Pending => MatchOutcome::Pending,
        MatchOutcome::Failed(e) => MatchOutcome::Failed(e),
    }
}

/// Takes `count` groups, each with the colon behind it. A failure may
/// leave the buffer without the groups that came before it.
fn hex_colons(buf: &mut BytesMut, count: usize) -> (res: MatchOutcome<Vec<u16>, TokenError>)
    ensures
        consumed_or_left(
            buffered(old(buf)),
            buffered(final(buf)),
            repeated(buffered(old(buf)), hex_colon_rule(), count as nat),
            viewed(res),
        ),
{
    let ghost s0 = buffered(buf);
    let ghost mut used: nat = 0;
    let mut groups: Vec<u16> = Vec::new();
    let mut i: usize = 0;
    proof {
        lemma_skip_nothing(s0);
        lemma_prefixed_nothing(repeated(s0, hex_colon_rule(), count as nat));
    }
    while i < count
        invariant
            i <= count,
            s0 == buffered(old(buf)),
            used <= s0.len(),
            buffered(buf) == s0.skip(used as int),
            repeated(s0, hex_colon_rule(), count as nat) == prefixed(
                groups@,
                used,
                repeated(buffered(buf), hex_colon_rule(), (count - i) as nat),
            ),
        decreases count - i,
    {
        let ghost cur = buffered(buf);
        let value = match hex_then_colon(buf) {
            MatchOutcome::Complete(value) => value,
            MatchOutcome::Pending => {
                return MatchOutcome::Pending;
            },
            MatchOutcome::Failed(e) => {
                return MatchOutcome::Failed(e);
            },
        };
        proof {
            let n = hex_colon(cur)->Complete_0.1;
            let tail = repeated(cur.skip(n as int), hex_colon_rule(), (count - i - 1) as nat);
            lemma_prefixed_twice(groups@, used, seq![value], n, tail);
            assert(groups@.push(value) =~= groups@ + seq![value]);
            assert(cur.skip(n as int) =~= s0.skip((used + n) as int));
            used = used + n;
        }
        groups.push(value);
        i = i + 1;
    }
    proof {
        assert(groups@ + Seq::<u16>::empty() =~= groups@);
    }
    MatchOutcome::Complete(groups)
}

//------------ IPv6: the halves of a compressed address ----------------------

/// The groups in front of the `::` of a compressed address, with the
/// `::` itself: up to `budget` groups, each with a colon behind it, of
/// which the last has a second colon behind it. Without a `::` behind one
/// of the first `budget` groups there is no match.
pub open spec fn groups_to_gap(s: Seq<u8>, budget: nat) -> Parsed<Seq<u16>, TokenError>
    decreases budget,
{
    if budget == 0 {
        MatchOutcome::Failed(TokenError)
    } else {
        match hex_colon(s) {
            MatchOutcome::Complete((group, n)) => {
                let rest = s.skip(n as int);
                if rest.len() == 0 {
                    MatchOutcome::Pending
                } else if rest[0] == 0x3A {
                    MatchOutcome::Complete((seq![group], n + 1))
                } else {
                    prefixed(seq![group], n, groups_to_gap(rest, (budget - 1) as nat))
                }
            },
            MatchOutcome::Pending => MatchOutcome::Pending,
            MatchOutcome::Failed(e) => MatchOutcome::Failed(e),
        }
    }
}

/// The left half of a compressed address: the `::` alone, or the groups
/// in front of it.
pub open spec fn left_half(s: Seq<u8>, budget: nat) -> Parsed<Seq<u16>, TokenError> {
    if s.len() == 0 {
        MatchOutcome::Pending
    } else if s[0] == 0x3A {
        if s.len() == 1 {
            MatchOutcome::Pending
        } else if s[1] == 0x3A {
            MatchOutcome::Complete((Seq::empty(), 2))
        } else {
            MatchOutcome::Failed(TokenError)
        }
    } else {
        groups_to_gap(s, budget)
    }
}

/// At least one and at most `budget` groups with colons between them. A
/// colon behind a group that is not the last of the budget asks for
/// another group.
pub open spec fn groups_after_gap(s: Seq<u8>, budget: nat) -> Parsed<Seq<u16>, TokenError>
    decreases budget,
{
    if budget == 0 {
        MatchOutcome::Complete((Seq::empty(), 0))
    } else {
        match hex_group(s) {
            MatchOutcome::Complete((group, n)) => if budget == 1 || s[n as int] != 0x3A {
                MatchOutcome::Complete((seq![group], n))
            } else {
                prefixed(
                    seq![group],
                    n + 1,
                    groups_after_gap(s.skip((n + 1) as int), (budget - 1) as nat),
                )
            },
            MatchOutcome::Pending => MatchOutcome::Pending,
            MatchOutcome::Failed(e) => MatchOutcome::Failed(e),
        }
    }
}

/// The right half of a compressed address: no group at all where the next
/// octet is no hexadecimal digit or the budget is used up, and else up to
/// `budget` groups with colons between them.
pub open spec fn right_half(s: Seq<u8>, budget: nat) -> Parsed<Seq<u16>, TokenError> {
    if budget == 0 {
        MatchOutcome::Complete((Seq::empty(), 0))
    } else if s.len() == 0 {
        MatchOutcome::Pending
    } else if !is_hexdig(s[0]) {
        MatchOutcome::Complete((Seq::empty(), 0))
    } else {
        groups_after_gap(s, budget)
    }
}

/// The groups between the `::` and the IPv4 address of a compressed
/// address that ends in one: up to `budget` groups, each with a colon
/// behind it, for as long as they come.
pub open spec fn colon_groups(s: Seq<u8>, budget: nat) -> Parsed<Seq<u16>, TokenError>
    decreases budget,
{
    if budget == 0 {
        MatchOutcome::Complete((Seq::empty(), 0))
    } else {
        match hex_colon(s) {
            MatchOutcome::Complete((group, n)) => prefixed(
                seq![group],
                n,
                colon_groups(s.skip(n as int), (budget - 1) as nat),
            ),
            MatchOutcome::Pending => MatchOutcome::Pending,
            MatchOutcome::Failed(_) => MatchOutcome::Complete((Seq::empty(), 0)),
        }
    }
}

/// Parses the left hand side of a compressed IPv6 address, the `::`
/// included, and returns its groups, of which there are at most `max`.
/// A failure may leave the buffer without the groups that came before
/// it.
fn ipv6_comp_left(buf: &mut BytesMut, max: usize) -> (res: MatchOutcome<Vec<u16>, TokenError>)
    ensures
        consumed_or_left(
            buffered(old(buf)),
            buffered(final(buf)),
            left_half(buffered(old(buf)), max as nat),
            viewed(res),
        ),
        res matches MatchOutcome::Complete(groups) ==> groups@.len() <= max,
{
    let ghost s0 = buffered(buf);
    let len = buf.len();
    if len == 0 {
        return MatchOutcome::Pending;
    }
    let front: &[u8] = &*buf;
    let first = front[0];
    if first == 0x3A {
        if len == 1 {
            return MatchOutcome::Pending;
        }
        let second = front[1];
        if second == 0x3A {
            let _ = buf.split_to(2);
            return MatchOutcome::Complete(Vec::new());
        }
        return MatchOutcome::Failed(TokenError);
    }
    let ghost mut used: nat = 0;
    let mut groups: Vec<u16> = Vec::new();
    let mut i: usize = 0;
    proof {
        lemma_skip_nothing(s0);
        lemma_prefixed_nothing(groups_to_gap(s0, max as nat));
    }
    while i < max
        invariant
            i <= max,
            groups@.len() == i,
            s0 == buffered(old(buf)),
            left_half(s0, max as nat) == groups_to_gap(s0, max as nat),
            used <= s0.len(),
            buffered(buf) == s0.skip(used as int),
            groups_to_gap(s0, max as nat) == prefixed(
                groups@,
                used,
                groups_to_gap(buffered(buf), (max - i) as nat),
            ),
        decreases max - i,
    {
        let ghost cur = buffered(buf);
        let value = match hex_then_colon(buf) {
            MatchOutcome::Complete(value) => value,
            MatchOutcome::Pending => {
                return MatchOutcome::Pending;
            },
            MatchOutcome::Failed(e) => {
                return MatchOutcome::Failed(e);
            },
        };
        let ghost n = hex_colon(cur)->Complete_0.1;
        let ghost earlier = groups@;
        proof {
            assert(groups@.push(value) =~= groups@ + seq![value]);
            assert(cur.skip(n as int) =~= s0.skip((used + n) as int));
            lemma_skip_nothing(cur.skip(n as int));
        }
        groups.push(value);
        match token::skip_opt_octet(buf, 0x3A) {
            MatchOutcome::Complete(true) => {
                proof {
                    assert(buffered(buf) =~= s0.skip((used + n + 1) as int));
                }
                return MatchOutcome::Complete(groups);
            },
            MatchOutcome::Complete(false) => {},
            MatchOutcome::Pending => {
                return MatchOutcome::Pending;
            },
            MatchOutcome::Failed(e) => {
                return MatchOutcome::Failed(e);
            },
        }
        proof {
            let tail = groups_to_gap(cur.skip(n as int), (max - i - 1) as nat);
            lemma_prefixed_twice(earlier, used, seq![value], n, tail);
            used = used + n;
        }
        i = i + 1;
    }
    MatchOutcome::Failed(TokenError)
}

/// Parses the right hand side of a compressed IPv6 address and returns
/// its groups, of which there are at most `max`. A failure may leave the
/// buffer without the groups that came before it.
fn ipv6_comp_right(buf: &mut BytesMut, max: usize) -> (res: MatchOutcome<Vec<u16>, TokenError>)
    ensures
        consumed_or_left(
            buffered(old(buf)),
            buffered(final(buf)),
            right_half(buffered(old(buf)), max as nat),
            viewed(res),
        ),
        res matches MatchOutcome::Complete(groups) ==> groups@.len() <= max,
{
    let ghost s0 = buffered(buf);
    proof {
        lemma_skip_nothing(s0);
    }
    if max == 0 {
        return MatchOutcome::Complete(Vec::new());
    }
    if buf.len() == 0 {
        return MatchOutcome::Pending;
    }
    let front: &[u8] = &*buf;
    if !test_hexdig(front[0]) {
        return MatchOutcome::Complete(Vec::new());
    }
    let ghost mut used: nat = 0;
    let mut groups: Vec<u16> = Vec::new();
    let mut i: usize = 0;
    proof {
        lemma_prefixed_nothing(groups_after_gap(s0, max as nat));
    }
    loop
        invariant
            i < max,
            groups@.len() == i,
            s0 == buffered(old(buf)),
            right_half(s0, max as nat) == groups_after_gap(s0, max as nat),
            used <= s0.len(),
            buffered(buf) == s0.skip(used as int),
            groups_after_gap(s0, max as nat) == prefixed(
                groups@,
                used,
                groups_after_gap(buffered(buf), (max - i) as nat),
            ),
        decreases max - i,
    {
        let ghost cur = buffered(buf);
        let value = match ipv6_hex(buf) {
            MatchOutcome::Complete(value) => value,
            MatchOutcome::Pending => {
                return MatchOutcome::Pending;
            },
            MatchOutcome::Failed(e) => {
                return MatchOutcome::Failed(e);
            },
        };
        let ghost n = hex_group(cur)->Complete_0.1;
        let ghost earlier = groups@;
        proof {
            assert(groups@.push(value) =~= groups@ + seq![value]);
            assert(cur.skip(n as int) =~= s0.skip((used + n) as int));
            assert(cur.skip(n as int)[0] == cur[n as int]);
            lemma_skip_nothing(cur.skip(n as int));
        }
        groups.push(value);
        if i + 1 == max {
            return MatchOutcome::Complete(groups);
        }
        match token::skip_opt_octet(buf, 0x3A) {
            MatchOutcome::Complete(true) => {},
            MatchOutcome::Complete(false) => {
                return MatchOutcome::Complete(groups);
            },
            MatchOutcome::Pending => {
                return MatchOutcome::Pending;
            },
            MatchOutcome::Failed(e) => {
                return MatchOutcome::Failed(e);
            },
        }
        proof {
            let tail = groups_after_gap(cur.skip((n + 1) as int), (max - i - 1) as nat);
            lemma_prefixed_twice(earlier, used, seq![value], n + 1, tail);
            assert(buffered(buf) =~= s0.skip((used + n + 1) as int));
            assert(cur.skip((n + 1) as int) =~= buffered(buf));
            used = used + n + 1;
        }
        i = i + 1;
    }
}

/// Parses the groups between the `::` and the IPv4 address of a
/// compressed address that ends in one, and returns them. There are at
/// most `max`. A group without a colon behind it stays in the buffer.
fn ipv6v4_comp_right(buf: &mut BytesMut, max: usize) -> (res: MatchOutcome<Vec<u16>, TokenError>)
    ensures
        consumed_or_left(
            buffered(old(buf)),
            buffered(final(buf)),
            colon_groups(buffered(old(buf)), max as nat),
            viewed(res),
        ),
        res matches MatchOutcome::Complete(groups) ==> groups@.len() <= max,
{
    let ghost s0 = buffered(buf);
    let ghost mut used: nat = 0;
    let mut groups: Vec<u16> = Vec::new();
    let mut i: usize = 0;
    proof {
        lemma_skip_nothing(s0);
        lemma_prefixed_nothing(colon_groups(s0, max as nat));
    }
    while i < max
        invariant
            i <= max,
            groups@.len() == i,
            s0 == buffered(old(buf)),
            used <= s0.len(),
            buffered(buf) == s0.skip(used as int),
            colon_groups(s0, max as nat) == prefixed(
                groups@,
                used,
                colon_groups(buffered(buf), (max - i) as nat),
            ),
        decreases max - i,
    {
        let ghost cur = buffered(buf);
        let value = match group(buf, hex_then_colon) {
            MatchOutcome::Complete(value) => value,
            MatchOutcome::Pending => {
                return MatchOutcome::Pending;
            },
            MatchOutcome::Failed(_) => {
                proof {
                    assert(groups@ + Seq::<u16>::empty() =~= groups@);
                }
                return MatchOutcome::Complete(groups);
            },
        };
        proof {
            let n = hex_colon(cur)->Complete_0.1;
            let tail = colon_groups(cur.skip(n as int), (max - i - 1) as nat);
            lemma_prefixed_twice(groups@, used, seq![value], n, tail);
            assert(groups@.push(value) =~= groups@ + seq![value]);
            assert(cur.skip(n as int) =~= s0.skip((used + n) as int));
            used = used + n;
        }
        groups.push(value);
        i = i + 1;
    }
    proof {
        assert(groups@ + Seq::<u16>::empty() =~= groups@);
    }
    MatchOutcome::Complete(groups)
}

//------------ IPv6: the four forms ------------------------------------------

/// `n` groups of zero.
pub open spec fn zeros(n: nat) -> Seq<u16> {
    Seq::new(n, |i: int| 0u16)
}

/// The groups of a compressed address of `total` groups: those in front
/// of the `::`, zeros for those left out, and those behind the `::` as
/// the last ones.
pub open spec fn expanded(left: Seq<u16>, right: Seq<u16>, total: nat) -> Seq<u16> {
    left + zeros((total - left.len() - right.len()) as nat) + right
}

/// The two groups that hold an IPv4 address: its first two octets and
/// its last two, the first of each pair as the upper half of the group.
pub open spec fn embedded(quad: Seq<u8>) -> Seq<u16> {
    seq![(quad[0] * 256 + quad[1]) as u16, (quad[2] * 256 + quad[3]) as u16]
}

/// The groups of `head` and one more group behind them.
pub open spec fn then_group(s: Seq<u8>, head: Parsed<Seq<u16>, TokenError>) -> Parsed<
    Seq<u16>,
    TokenError,
> {
    match head {
        MatchOutcome::Complete((groups, n)) => match hex_group(s.skip(n as int)) {
            MatchOutcome::Complete((last, m)) => MatchOutcome::Complete((groups.push(last), n + m)),
            MatchOutcome::Pending => MatchOutcome::Pending,
            MatchOutcome::Failed(e) => MatchOutcome::Failed(e),
        },
        MatchOutcome::Pending => MatchOutcome::Pending,
        MatchOutcome::Failed(e) => MatchOutcome::Failed(e),
    }
}

/// The groups of `head` and, behind them, a dotted IPv4 address as two
/// more groups.
pub open spec fn then_quad(s: Seq<u8>, head: Parsed<Seq<u16>, TokenError>) -> Parsed<
    Seq<u16>,
    TokenError,
> {
    match head {
        MatchOutcome::Complete((groups, n)) => match dotted_quad(s.skip(n as int)) {
            MatchOutcome::Complete((quad, m)) => MatchOutcome::Complete(
                (groups + embedded(quad), n + m),
            ),
            MatchOutcome::Pending => MatchOutcome::Pending,
            MatchOutcome::Failed(e) => MatchOutcome::Failed(e),
        },
        MatchOutcome::Pending => MatchOutcome::Pending,
        MatchOutcome::Failed(e) => MatchOutcome::Failed(e),
    }
}

/// The full form: eight groups with colons between them.
pub open spec fn full_form(s: Seq<u8>) -> Parsed<Seq<u16>, TokenError> {
    then_group(s, repeated(s, hex_colon_rule(), 7))
}

/// The compressed form: up to six groups in all around a `::`, which
/// stands for the groups of zero that make them eight.
pub open spec fn comp_form(s: Seq<u8>) -> Parsed<Seq<u16>, TokenError> {
    match left_half(s, 6) {
        MatchOutcome::Complete((left, n)) => match right_half(
            s.skip(n as int),
            (6 - left.len()) as nat,
        ) {
            MatchOutcome::Complete((right, m)) => MatchOutcome::Complete(
                (expanded(left, right, 8), n + m),
            ),
            MatchOutcome::Pending => MatchOutcome::Pending,
            MatchOutcome::Failed(e) => MatchOutcome::Failed(e),
        },
        MatchOutcome::Pending => MatchOutcome::Pending,
        MatchOutcome::Failed(e) => MatchOutcome::Failed(e),
    }
}

/// The full form that ends in an IPv4 address: six groups, each with a
/// colon behind it, and a dotted IPv4 address.
pub open spec fn v4_full_form(s: Seq<u8>) -> Parsed<Seq<u16>, TokenError> {
    then_quad(s, repeated(s, hex_colon_rule(), 6))
}

/// The groups in front of the IPv4 address of the compressed form that
/// ends in one: up to four groups in all around a `::`, which stands for
/// the groups of zero that make them six.
pub open spec fn v4_comp_head(s: Seq<u8>) -> Parsed<Seq<u16>, TokenError> {
    match left_half(s, 4) {
        MatchOutcome::Complete((left, n)) => match colon_groups(
            s.skip(n as int),
            (4 - left.len()) as nat,
        ) {
            MatchOutcome::Complete((right, m)) => MatchOutcome::Complete(
                (expanded(left, right, 6), n + m),
            ),
            MatchOutcome::Pending => MatchOutcome::Pending,
            MatchOutcome::Failed(e) => MatchOutcome::Failed(e),
        },
        MatchOutcome::Pending => MatchOutcome::Pending,
        MatchOutcome::Failed(e) => MatchOutcome::Failed(e),
    }
}

/// The compressed form that ends in an IPv4 address.
pub open spec fn v4_comp_form(s: Seq<u8>) -> Parsed<Seq<u16>, TokenError> {
    then_quad(s, v4_comp_head(s))
}

/// An IPv6 address: the first of the four forms that does not fail, in
/// the order full, compressed, full with IPv4, compressed with IPv4. A
/// form that is pending leaves the address pending.
pub open spec fn ipv6_addr(s: Seq<u8>) -> Parsed<Seq<u16>, TokenError> {
    if !(full_form(s) is Failed) {
        full_form(s)
    } else if !(comp_form(s) is Failed) {
        comp_form(s)
    } else if !(v4_full_form(s) is Failed) {
        v4_full_form(s)
    } else if !(v4_comp_form(s) is Failed) {
        v4_comp_form(s)
    } else {
        MatchOutcome::Failed(TokenError)
    }
}

/// The groups of a compressed address of `total` groups.
fn expand(left: &Vec<u16>, right: &Vec<u16>, total: usize) -> (all: Vec<u16>)
    requires
        left@.len() + right@.len() <= total,
    ensures
        all@ == expanded(left@, right@, total as nat),
{
    let mut all: Vec<u16> = Vec::new();
    let mut i: usize = 0;
    while i < left.len()
        invariant
            i <= left@.len(),
            all@ == left@.take(i as int),
        decreases left@.len() - i,
    {
        all.push(left[i]);
        assert(all@ =~= left@.take(i + 1));
        i = i + 1;
    }
    assert(left@.take(i as int) =~= left@);
    let gap = total - left.len() - right.len();
    let mut i: usize = 0;
    while i < gap
        invariant
            i <= gap,
            all@ == left@ + zeros(i as nat),
        decreases gap - i,
    {
        all.push(0);
        assert(all@ =~= left@ + zeros((i + 1) as nat));
        i = i + 1;
    }
    let mut i: usize = 0;
    while i < right.len()
        invariant
            i <= right@.len(),
            all@ == left@ + zeros(gap as nat) + right@.take(i as int),
        decreases right@.len() - i,
    {
        all.push(right[i]);
        assert(all@ =~= left@ + zeros(gap as nat) + right@.take(i + 1));
        i = i + 1;
    }
    assert(right@.take(i as int) =~= right@);
    all
}

/// The address of eight groups.
fn address(groups: &Vec<u16>) -> (addr: Ipv6Addr)
    requires
        groups@.len() == 8,
    ensures
        addr@ == groups@,
{
    let addr = Ipv6Addr::new(
        groups[0],
        groups[1],
        groups[2],
        groups[3],
        groups[4],
        groups[5],
        groups[6],
        groups[7],
    );
    assert(addr@ =~= groups@);
    addr
}

/// The two groups that hold an IPv4 address, put behind `groups`.
fn embed(groups: &mut Vec<u16>, quad: Ipv4Addr)
    ensures
        final(groups)@ == old(groups)@ + embedded(quad@),
{
    let octets = quad.octets();
    proof {
        quad.lemma_view(quad);
    }
    let upper: u16 = octets[0] as u16 * 256 + octets[1] as u16;
    let lower: u16 = octets[2] as u16 * 256 + octets[3] as u16;
    groups.push(upper);
    groups.push(lower);
    assert(groups@ =~= old(groups)@ + embedded(quad@));
}

/// The length of `count` matches in a row is the number of matches.
pub proof fn lemma_repeated_len<T>(s: Seq<u8>, unit: Rule<T, TokenError>, count: nat)
    ensures
        repeated(s, unit, count) matches MatchOutcome::Complete((values, n)) ==> values.len()
            == count,
    decreases count,
{
    if count > 0 {
        match unit(s) {
            MatchOutcome::Complete((v, n)) => {
                lemma_repeated_len(s.skip(n as int), unit, (count - 1) as nat);
            },
            _ => {},
        }
    }
}

/// IPv6-full. A failure may leave the buffer without what came before it.
fn full_unguarded(buf: &mut BytesMut) -> (res: MatchOutcome<Ipv6Addr, TokenError>)
    ensures
        consumed_or_left(
            buffered(old(buf)),
            buffered(final(buf)),
            full_form(buffered(old(buf))),
            viewed(res),
        ),
{
    let ghost s0 = buffered(buf);
    proof {
        lemma_repeated_len(s0, hex_colon_rule(), 7);
    }
    let mut groups = match hex_colons(buf, 7) {
        MatchOutcome::Complete(value) => value,
        MatchOutcome::Pending => {
            return MatchOutcome::Pending;
        },
        MatchOutcome::Failed(e) => {
            return MatchOutcome::Failed(e);
        },
    };
    let ghost n = repeated(s0, hex_colon_rule(), 7)->Complete_0.1;
    let last = match ipv6_hex(buf) {
        MatchOutcome::Complete(value) => value,
        MatchOutcome::Pending => {
            return MatchOutcome::Pending;
        },
        MatchOutcome::Failed(e) => {
            return MatchOutcome::Failed(e);
        },
    };
    proof {
        let m = hex_group(s0.skip(n as int))->Complete_0.1;
        assert(buffered(buf) =~= s0.skip((n + m) as int));
    }
    groups.push(last);
    MatchOutcome::Complete(address(&groups))
}

/// IPv6-full: a group and seven times a colon and a group.
pub fn ipv6_full(buf: &mut BytesMut) -> (res: MatchOutcome<Ipv6Addr, TokenError>)
    ensures
        consumed(
            buffered(old(buf)),
            buffered(final(buf)),
            full_form(buffered(old(buf))),
            viewed(res),
        ),
{
    group(buf, full_unguarded)
}

/// IPv6-comp. A failure may leave the buffer without what came before
/// it.
fn comp_unguarded(buf: &mut BytesMut) -> (res: MatchOutcome<Ipv6Addr, TokenError>)
    ensures
        consumed_or_left(
            buffered(old(buf)),
            buffered(final(buf)),
            comp_form(buffered(old(buf))),
            viewed(res),
        ),
{
    let ghost s0 = buffered(buf);
    let left = match ipv6_comp_left(buf, 6) {
        MatchOutcome::Complete(value) => value,
        MatchOutcome::Pending => {
            return MatchOutcome::Pending;
        },
        MatchOutcome::Failed(e) => {
            return MatchOutcome::Failed(e);
        },
    };
    let ghost n = left_half(s0, 6)->Complete_0.1;
    let right = match ipv6_comp_right(buf, 6 - left.len()) {
        MatchOutcome::Complete(value) => value,
        MatchOutcome::Pending => {
            return MatchOutcome::Pending;
        },
        MatchOutcome::Failed(e) => {
            return MatchOutcome::Failed(e);
        },
    };
    proof {
        let m = right_half(s0.skip(n as int), (6 - left@.len()) as nat)->Complete_0.1;
        assert(buffered(buf) =~= s0.skip((n + m) as int));
    }
    let groups = expand(&left, &right, 8);
    MatchOutcome::Complete(address(&groups))
}

/// IPv6-comp: up to six groups around a `::`.
pub fn ipv6_comp(buf: &mut BytesMut) -> (res: MatchOutcome<Ipv6Addr, TokenError>)
    ensures
        consumed(
            buffered(old(buf)),
            buffered(final(buf)),
            comp_form(buffered(old(buf))),
            viewed(res),
        ),
{
    group(buf, comp_unguarded)
}

/// IPv6v4-full. A failure may leave the buffer without what came before
/// it.
fn v4_full_unguarded(buf: &mut BytesMut) -> (res: MatchOutcome<Ipv6Addr, TokenError>)
    ensures
        consumed_or_left(
            buffered(old(buf)),
            buffered(final(buf)),
            v4_full_form(buffered(old(buf))),
            viewed(res),
        ),
{
    let ghost s0 = buffered(buf);
    proof {
        lemma_repeated_len(s0, hex_colon_rule(), 6);
    }
    let mut groups = match hex_colons(buf, 6) {
        MatchOutcome::Complete(value) => value,
        MatchOutcome::Pending => {
            return MatchOutcome::Pending;
        },
        MatchOutcome::Failed(e) => {
            return MatchOutcome::Failed(e);
        },
    };
    let ghost n = repeated(s0, hex_colon_rule(), 6)->Complete_0.1;
    let quad = match parse_ipv4_addr(buf) {
        MatchOutcome::Complete(value) => value,
        MatchOutcome::Pending => {
            return MatchOutcome::Pending;
        },
        MatchOutcome::Failed(e) => {
            return MatchOutcome::Failed(e);
        },
    };
    proof {
        let m = dotted_quad(s0.skip(n as int))->Complete_0.1;
        assert(buffered(buf) =~= s0.skip((n + m) as int));
        quad.lemma_view(quad);
    }
    embed(&mut groups, quad);
    MatchOutcome::Complete(address(&groups))
}

/// IPv6v4-full: six groups, each with a colon behind it, and an IPv4
/// address.
pub fn ipv6v4_full(buf: &mut BytesMut) -> (res: MatchOutcome<Ipv6Addr, TokenError>)
    ensures
        consumed(
            buffered(old(buf)),
            buffered(final(buf)),
            v4_full_form(buffered(old(buf))),
            viewed(res),
        ),
{
    group(buf, v4_full_unguarded)
}

/// IPv6v4-comp. A failure may leave the buffer without what came before
/// it.
fn v4_comp_unguarded(buf: &mut BytesMut) -> (res: MatchOutcome<Ipv6Addr, TokenError>)
    ensures
        consumed_or_left(
            buffered(old(buf)),
            buffered(final(buf)),
            v4_comp_form(buffered(old(buf))),
            viewed(res),
        ),
{
    let ghost s0 = buffered(buf);
    let left = match ipv6_comp_left(buf, 4) {
        MatchOutcome::Complete(value) => value,
        MatchOutcome::Pending => {
            return MatchOutcome::Pending;
        },
        MatchOutcome::Failed(e) => {
            return MatchOutcome::Failed(e);
        },
    };
    let ghost n = left_half(s0, 4)->Complete_0.1;
    let right = match ipv6v4_comp_right(buf, 4 - left.len()) {
        MatchOutcome::Complete(value) => value,
        MatchOutcome::Pending => {
            return MatchOutcome::Pending;
        },
        MatchOutcome::Failed(e) => {
            return MatchOutcome::Failed(e);
        },
    };
    let ghost m = colon_groups(s0.skip(n as int), (4 - left@.len()) as nat)->Complete_0.1;
    proof {
        assert(buffered(buf) =~= s0.skip((n + m) as int));
    }
    let mut groups = expand(&left, &right, 6);
    let quad = match parse_ipv4_addr(buf) {
        MatchOutcome::Complete(value) => value,
        MatchOutcome::Pending => {
            return MatchOutcome::Pending;
        },
        MatchOutcome::Failed(e) => {
            return MatchOutcome::Failed(e);
        },
    };
    proof {
        let k = dotted_quad(s0.skip((n + m) as int))->Complete_0.1;
        assert(buffered(buf) =~= s0.skip((n + m + k) as int));
        quad.lemma_view(quad);
    }
    embed(&mut groups, quad);
    MatchOutcome::Complete(address(&groups))
}

/// IPv6v4-comp: up to four groups around a `::`, and an IPv4 address.
pub fn ipv6v4_comp(buf: &mut BytesMut) -> (res: MatchOutcome<Ipv6Addr, TokenError>)
    ensures
        consumed(
            buffered(old(buf)),
            buffered(final(buf)),
            v4_comp_form(buffered(old(buf))),
            viewed(res),
        ),
{
    group(buf, v4_comp_unguarded)
}

/// Parses an IPv6 address.
///
/// The four forms are tried in turn: full, compressed, full with an IPv4
/// address at its end, compressed with an IPv4 address at its end. The
/// first that matches gives the address. A form that is pending leaves
/// the address pending; the next form is tried only when a form fails.
pub fn parse_ipv6_addr(buf: &mut BytesMut) -> (res: MatchOutcome<Ipv6Addr, TokenError>)
    ensures
        consumed(
            buffered(old(buf)),
            buffered(final(buf)),
            ipv6_addr(buffered(old(buf))),
            viewed(res),
        ),
{
    match ipv6_full(buf) {
        MatchOutcome::Failed(_) => {},
        decided => {
            return decided;
        },
    }
    match ipv6_comp(buf) {
        MatchOutcome::Failed(_) => {},
        decided => {
            return decided;
        },
    }
    match ipv6v4_full(buf) {
        MatchOutcome::Failed(_) => {},
        decided => {
            return decided;
        },
    }
    match ipv6v4_comp(buf) {
        MatchOutcome::Failed(_) => {},
        decided => {
            return decided;
        },
    }
    MatchOutcome::Failed(TokenError)
}

//------------ Input that arrives in parts ------------------------------------

/// An octet of an IPv4 address is settled by the octet that ends its
/// digits.
pub proof fn lemma_decimal_octet_steady(s: Seq<u8>, more: Seq<u8>)
    ensures
        within(s, decimal_octet(s)),
        settled(decimal_octet(s), decimal_octet(s + more)),
{
    lemma_run_len_bounds(s, digit_class());
    let n = run_len(s, digit_class());
    if n < s.len() {
        lemma_run_len_stable(s, more, digit_class());
        assert((s + more).take(n as int) =~= s.take(n as int));
    }
}

/// A group of an IPv6 address is settled by the octet that ends its
/// digits.
pub proof fn lemma_hex_group_steady(s: Seq<u8>, more: Seq<u8>)
    ensures
        hex_group(s) matches MatchOutcome::Complete((_, n)) ==> n < s.len(),
        within(s, hex_group(s)),
        settled(hex_group(s), hex_group(s + more)),
{
    lemma_run_len_bounds(s, hexdig_class());
    let n = run_len(s, hexdig_class());
    if n < s.len() {
        lemma_run_len_stable(s, more, hexdig_class());
        assert((s + more).take(n as int) =~= s.take(n as int));
        assert((s + more)[n as int] == s[n as int]);
    }
}

/// What is steady stays so with an octet behind it.
pub proof fn lemma_followed_by_steady<T>(
    s: Seq<u8>,
    more: Seq<u8>,
    head: Parsed<T, TokenError>,
    head_later: Parsed<T, TokenError>,
    value: u8,
)
    requires
        within(s, head),
        settled(head, head_later),
    ensures
        within(s, followed_by(s, head, value)),
        settled(followed_by(s, head, value), followed_by(s + more, head_later, value)),
{
    match head {
        MatchOutcome::Complete((v, n)) => {
            assert((s + more).skip(n as int) =~= s.skip(n as int) + more);
            lemma_one_of_settled(s.skip(n as int), more, only(value), TokenError);
        },
        _ => {},
    }
}

/// An octet with its dot and a group with its colon are steady.
pub proof fn lemma_units_steady()
    ensures
        forall|x: Seq<u8>, y: Seq<u8>| #[trigger] steady(octet_dot_rule(), x, y),
        forall|x: Seq<u8>, y: Seq<u8>| #[trigger] steady(hex_colon_rule(), x, y),
{
    assert forall|x: Seq<u8>, y: Seq<u8>| #[trigger] steady(octet_dot_rule(), x, y) by {
        lemma_decimal_octet_steady(x, y);
        lemma_followed_by_steady(x, y, decimal_octet(x), decimal_octet(x + y), 0x2E);
    }
    assert forall|x: Seq<u8>, y: Seq<u8>| #[trigger] steady(hex_colon_rule(), x, y) by {
        lemma_hex_group_steady(x, y);
        lemma_followed_by_steady(x, y, hex_group(x), hex_group(x + y), 0x3A);
    }
}

/// A dotted IPv4 address is settled by the octet that ends the digits of
/// its last octet.
pub proof fn lemma_dotted_quad_steady(s: Seq<u8>, more: Seq<u8>)
    ensures
        within(s, dotted_quad(s)),
        settled(dotted_quad(s), dotted_quad(s + more)),
{
    lemma_units_steady();
    lemma_repeated_steady(s, more, octet_dot_rule(), 3);
    match repeated(s, octet_dot_rule(), 3) {
        MatchOutcome::Complete((head, n)) => {
            lemma_decimal_octet_steady(s.skip(n as int), more);
            assert((s + more).skip(n as int) =~= s.skip(n as int) + more);
        },
        _ => {},
    }
}

/// What is steady stays so with a group behind it.
pub proof fn lemma_then_group_steady(
    s: Seq<u8>,
    more: Seq<u8>,
    head: Parsed<Seq<u16>, TokenError>,
    head_later: Parsed<Seq<u16>, TokenError>,
)
    requires
        within(s, head),
        settled(head, head_later),
    ensures
        within(s, then_group(s, head)),
        settled(then_group(s, head), then_group(s + more, head_later)),
{
    match head {
        MatchOutcome::Complete((groups, n)) => {
            lemma_hex_group_steady(s.skip(n as int), more);
            assert((s + more).skip(n as int) =~= s.skip(n as int) + more);
        },
        _ => {},
    }
}

/// What is steady stays so with a dotted IPv4 address behind it.
pub proof fn lemma_then_quad_steady(
    s: Seq<u8>,
    more: Seq<u8>,
    head: Parsed<Seq<u16>, TokenError>,
    head_later: Parsed<Seq<u16>, TokenError>,
)
    requires
        within(s, head),
        settled(head, head_later),
    ensures
        within(s, then_quad(s, head)),
        settled(then_quad(s, head), then_quad(s + more, head_later)),
{
    match head {
        MatchOutcome::Complete((groups, n)) => {
            lemma_dotted_quad_steady(s.skip(n as int), more);
            assert((s + more).skip(n as int) =~= s.skip(n as int) + more);
        },
        _ => {},
    }
}

/// The left half of a compressed address is settled by its `::`.
pub proof fn lemma_left_half_steady(s: Seq<u8>, more: Seq<u8>, budget: nat)
    ensures
        within(s, groups_to_gap(s, budget)),
        settled(groups_to_gap(s, budget), groups_to_gap(s + more, budget)),
        groups_to_gap(s, budget) matches MatchOutcome::Complete((groups, _)) ==> groups.len()
            <= budget,
        within(s, left_half(s, budget)),
        settled(left_half(s, budget), left_half(s + more, budget)),
        left_half(s, budget) matches MatchOutcome::Complete((groups, _)) ==> groups.len()
            <= budget,
    decreases budget,
{
    let t = s + more;
    if s.len() > 0 {
        assert(t[0] == s[0]);
    }
    if s.len() > 1 {
        assert(t[1] == s[1]);
    }
    if budget > 0 {
        lemma_units_steady();
        assert(steady(hex_colon_rule(), s, more));
        match hex_colon(s) {
            MatchOutcome::Complete((group, n)) => {
                let rest = s.skip(n as int);
                assert(t.skip(n as int) =~= rest + more);
                if rest.len() > 0 {
                    assert((rest + more)[0] == rest[0]);
                    lemma_left_half_steady(rest, more, (budget - 1) as nat);
                }
            },
            _ => {},
        }
    }
}

/// The right half of a compressed address is settled by the octet
/// behind its last group.
pub proof fn lemma_right_half_steady(s: Seq<u8>, more: Seq<u8>, budget: nat)
    ensures
        within(s, groups_after_gap(s, budget)),
        settled(groups_after_gap(s, budget), groups_after_gap(s + more, budget)),
        groups_after_gap(s, budget) matches MatchOutcome::Complete((groups, _)) ==> groups.len()
            <= budget,
        within(s, right_half(s, budget)),
        settled(right_half(s, budget), right_half(s + more, budget)),
        right_half(s, budget) matches MatchOutcome::Complete((groups, _)) ==> groups.len()
            <= budget,
    decreases budget,
{
    let t = s + more;
    if s.len() > 0 {
        assert(t[0] == s[0]);
    }
    if budget > 0 {
        lemma_hex_group_steady(s, more);
        match hex_group(s) {
            MatchOutcome::Complete((group, n)) => {
                assert(t[n as int] == s[n as int]);
                let rest = s.skip((n + 1) as int);
                assert(t.skip((n + 1) as int) =~= rest + more);
                lemma_right_half_steady(rest, more, (budget - 1) as nat);
            },
            _ => {},
        }
    }
}

/// The groups in front of the IPv4 address of a compressed address are
/// settled by the first group that has no colon behind it.
pub proof fn lemma_colon_groups_steady(s: Seq<u8>, more: Seq<u8>, budget: nat)
    ensures
        within(s, colon_groups(s, budget)),
        settled(colon_groups(s, budget), colon_groups(s + more, budget)),
        colon_groups(s, budget) matches MatchOutcome::Complete((groups, _)) ==> groups.len()
            <= budget,
    decreases budget,
{
    if budget > 0 {
        lemma_units_steady();
        assert(steady(hex_colon_rule(), s, more));
        match hex_colon(s) {
            MatchOutcome::Complete((group, n)) => {
                let rest = s.skip(n as int);
                assert((s + more).skip(n as int) =~= rest + more);
                lemma_colon_groups_steady(rest, more, (budget - 1) as nat);
            },
            _ => {},
        }
    }
}

/// The full form is settled by the octet behind its last group.
pub proof fn lemma_full_form_steady(s: Seq<u8>, more: Seq<u8>)
    ensures
        within(s, full_form(s)),
        settled(full_form(s), full_form(s + more)),
{
    lemma_units_steady();
    lemma_repeated_steady(s, more, hex_colon_rule(), 7);
    lemma_then_group_steady(
        s,
        more,
        repeated(s, hex_colon_rule(), 7),
        repeated(s + more, hex_colon_rule(), 7),
    );
}

/// The full form that ends in an IPv4 address is settled by the octet
/// behind that address.
pub proof fn lemma_v4_full_form_steady(s: Seq<u8>, more: Seq<u8>)
    ensures
        within(s, v4_full_form(s)),
        settled(v4_full_form(s), v4_full_form(s + more)),
{
    lemma_units_steady();
    lemma_repeated_steady(s, more, hex_colon_rule(), 6);
    lemma_then_quad_steady(
        s,
        more,
        repeated(s, hex_colon_rule(), 6),
        repeated(s + more, hex_colon_rule(), 6),
    );
}

/// The compressed form is settled by the octet behind its last group.
pub proof fn lemma_comp_form_steady(s: Seq<u8>, more: Seq<u8>)
    ensures
        within(s, comp_form(s)),
        settled(comp_form(s), comp_form(s + more)),
{
    lemma_left_half_steady(s, more, 6);
    match left_half(s, 6) {
        MatchOutcome::Complete((left, n)) => {
            assert((s + more).skip(n as int) =~= s.skip(n as int) + more);
            lemma_right_half_steady(s.skip(n as int), more, (6 - left.len()) as nat);
        },
        _ => {},
    }
}

/// The compressed form that ends in an IPv4 address is settled by the
/// octet behind that address.
pub proof fn lemma_v4_comp_form_steady(s: Seq<u8>, more: Seq<u8>)
    ensures
        within(s, v4_comp_form(s)),
        settled(v4_comp_form(s), v4_comp_form(s + more)),
{
    lemma_left_half_steady(s, more, 4);
    match left_half(s, 4) {
        MatchOutcome::Complete((left, n)) => {
            assert((s + more).skip(n as int) =~= s.skip(n as int) + more);
            lemma_colon_groups_steady(s.skip(n as int), more, (4 - left.len()) as nat);
        },
        _ => {},
    }
    lemma_then_quad_steady(s, more, v4_comp_head(s), v4_comp_head(s + more));
}

/// An IPv6 address is settled once one of its forms matches or all have
/// failed.
pub proof fn lemma_ipv6_addr_steady(s: Seq<u8>, more: Seq<u8>)
    ensures
        within(s, ipv6_addr(s)),
        settled(ipv6_addr(s), ipv6_addr(s + more)),
{
    lemma_full_form_steady(s, more);
    lemma_comp_form_steady(s, more);
    lemma_v4_full_form_steady(s, more);
    lemma_v4_comp_form_steady(s, more);
}

} // verus!
