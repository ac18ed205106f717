//! Token parsing.
//!
//! A `Token` advances over the front of a buffer without changing it. The
//! functions that take a token are meant to be combined into functions
//! that find the end of a token; those that take a buffer apply such a
//! function to the front of the buffer and take the token out of it if
//! one was found.

use crate::buffer::buffered;
use crate::buffer::frozen;
use crate::grammar::agree;
use crate::grammar::any_of;
use crate::grammar::decides;
use crate::grammar::fold_case;
use crate::grammar::folded;
use crate::grammar::lemma_literally_settled;
use crate::grammar::lemma_run_len_is;
use crate::grammar::literally;
use crate::grammar::maybe_one_of;
use crate::grammar::one_of;
use crate::grammar::only;
use crate::grammar::some_of;
use crate::grammar::total;
use crate::grammar::OctetClass;
use crate::outcome::consumed;
use crate::outcome::settled;
use crate::outcome::MatchOutcome;
use crate::outcome::Parsed;
use bytes::Bytes;
use bytes::BytesMut;
use vstd::prelude::*;

verus! {

/// The error of the token rules: the input does not match.
#[derive(Clone, Copy, Debug, PartialEq, Eq)]
pub struct TokenError;

/// A token in the process of being parsed.
///
/// It stands at the front of a buffer and remembers how many octets it has
/// advanced over. The buffer itself changes only when the token is taken
/// out of it by `split` or `skip`.
pub struct Token<'a> {
    bytes: &'a mut BytesMut,
    end: usize,
}

impl<'a> Token<'a> {
    /// The buffer that the token stands on.
    pub closed spec fn source(&self) -> &'a mut BytesMut {
        self.bytes
    }

    /// The content of the buffer that the token stands on.
    pub closed spec fn input(&self) -> Seq<u8> {
        buffered(&*self.bytes)
    }

    /// The number of octets advanced over so far.
    pub closed spec fn offset(&self) -> nat {
        self.end as nat
    }

    /// The token ends within its buffer.
    pub open spec fn wf(&self) -> bool {
        self.offset() <= self.input().len()
    }

    /// The octets advanced over so far.
    pub open spec fn matched(&self) -> Seq<u8> {
        self.input().take(self.offset() as int)
    }

    /// The octets not advanced over yet.
    pub open spec fn rest(&self) -> Seq<u8> {
        self.input().skip(self.offset() as int)
    }

    /// This token is `earlier` after some advancing: it stands on the same
    /// unchanged buffer, no further back, and still within it.
    pub open spec fn follows(&self, earlier: &Token<'a>) -> bool {
        &&& self.source() == earlier.source()
        &&& self.input() == earlier.input()
        &&& earlier.offset() <= self.offset()
        &&& self.wf()
    }

    /// What a rule did to the token, given its model on the octets that
    /// were left: the token has only advanced, and by the length of the
    /// match where there is one.
    pub open spec fn advanced<T, E>(
        &self,
        earlier: &Token<'a>,
        model: Parsed<T, E>,
        res: MatchOutcome<T, E>,
    ) -> bool {
        &&& self.follows(earlier)
        &&& match model {
            MatchOutcome::Complete((v, n)) => {
                &&& res == MatchOutcome::<T, E>::Complete(v)
                &&& self.offset() == earlier.offset() + n
            },
            MatchOutcome::Pending => res is Pending,
            MatchOutcome::Failed(e) => res == MatchOutcome::<T, E>::Failed(e),
        }
    }

    /// As `advanced`, for a rule that leaves the token where it was unless
    /// it matches.
    pub open spec fn stepped<T, E>(
        &self,
        earlier: &Token<'a>,
        model: Parsed<T, E>,
        res: MatchOutcome<T, E>,
    ) -> bool {
        &&& self.advanced(earlier, model, res)
        &&& !(res is Complete) ==> self.offset() == earlier.offset()
    }

    /// Creates a new token atop the given buffer.
    pub fn new(bytes: &'a mut BytesMut) -> (token: Self)
        ensures
            token.offset() == 0,
            token.input() == buffered(old(bytes)),
            *final(token.source()) == *final(bytes),
    {
        Token { bytes: bytes, end: 0 }
    }

    /// Returns a bytes slice of what hasn't been advanced over yet.
    pub fn remaining(&self) -> (s: &[u8])
        requires
            self.wf(),
        ensures
            s@ == self.rest(),
    {
        let all: &[u8] = &*self.bytes;
        &all[self.end..all.len()]
    }

    /// Advances the token by `count` octets, which must not lead beyond
    /// the end of the underlying buffer.
    pub fn advance(&mut self, count: usize)
        requires
            old(self).offset() + count <= old(self).input().len(),
        ensures
            final(self).follows(old(self)),
            final(self).offset() == old(self).offset() + count,
    {
        let _len = self.bytes.len();
        self.end = self.end + count;
    }

    /// Advances one octet if `test` returned `true` for it.
    ///
    /// Returns the answer of `test` for the first remaining octet, pending
    /// if there is none. Never fails.
    pub fn advance_if<F, E>(&mut self, test: F) -> (res: MatchOutcome<bool, E>)
        where F: FnOnce(u8) -> bool
        requires
            old(self).wf(),
            total(test),
        ensures
            final(self).follows(old(self)),
            old(self).rest().len() == 0 ==> res is Pending && final(self).offset() == old(self).offset(),
            old(self).rest().len() > 0 ==> {
                &&& res matches MatchOutcome::Complete(b)
                &&& call_ensures(test, (old(self).rest()[0],), b)
                &&& final(self).offset() == old(self).offset() + if b { 1nat } else { 0nat }
            },
    {
        match self.first::<E>() {
            MatchOutcome::Complete(ch) => {
                let res = test(ch);
                if res {
                    self.advance(1);
                }
                MatchOutcome::Complete(res)
            },
            MatchOutcome::Pending => MatchOutcome::Pending,
            MatchOutcome::Failed(e) => MatchOutcome::Failed(e),
        }
    }

    /// Advances one octet if `test` succeeds, producing an error otherwise.
    ///
    /// This behaves like `advance_if()` except that if `test` returns
    /// false, the closure `error` is called and its result returned.
    pub fn expect<P, Q, E>(&mut self, test: P, error: Q) -> (res: MatchOutcome<(), E>)
        where P: FnOnce(u8) -> bool, Q: FnOnce() -> E
        requires
            old(self).wf(),
            total(test),
            call_requires(error, ()),
        ensures
            final(self).follows(old(self)),
            old(self).rest().len() == 0 ==> res is Pending && final(self).offset() == old(self).offset(),
            old(self).rest().len() > 0 ==> {
                ||| {
                    &&& res is Complete
                    &&& call_ensures(test, (old(self).rest()[0],), true)
                    &&& final(self).offset() == old(self).offset() + 1
                }
                ||| {
                    &&& res matches MatchOutcome::Failed(e)
                    &&& call_ensures(test, (old(self).rest()[0],), false)
                    &&& call_ensures(error, (), e)
                    &&& final(self).offset() == old(self).offset()
                }
            },
    {
        match self.first::<E>() {
            MatchOutcome::Complete(ch) => {
                let res = test(ch);
                if res {
                    self.advance(1);
                    MatchOutcome::Complete(())
                } else {
                    MatchOutcome::Failed(error())
                }
            },
            MatchOutcome::Pending => MatchOutcome::Pending,
            MatchOutcome::Failed(e) => MatchOutcome::Failed(e),
        }
    }

    /// Returns the first remaining octet of the buffer if available.
    pub fn first<E>(&self) -> (res: MatchOutcome<u8, E>)
        requires
            self.wf(),
        ensures
            res == if self.rest().len() == 0 {
                MatchOutcome::<u8, E>::Pending
            } else {
                MatchOutcome::<u8, E>::Complete(self.rest()[0])
            },
    {
        let all: &[u8] = &*self.bytes;
        if self.end < all.len() {
            MatchOutcome::Complete(all[self.end])
        } else {
            MatchOutcome::Pending
        }
    }

    /// Drains the token from the underlying buffer.
    pub fn split(self) -> (span: Bytes)
        requires
            self.wf(),
        ensures
            frozen(&span) == self.matched(),
            buffered(final(self.source())) == self.rest(),
    {
        self.bytes.split_to(self.end).freeze()
    }

    /// Drops the token from the underlying buffer.
    pub fn skip(self)
        requires
            self.wf(),
        ensures
            buffered(final(self.source())) == self.rest(),
    {
        let _ = self.bytes.split_to(self.end);
    }
}

/// How a rule that hands out the matched octets relates the buffer before
/// and after a call to its model: a match is taken from the front of the
/// buffer and handed out, anything else leaves the buffer as it was.
pub open spec fn taken<E>(
    before: Seq<u8>,
    after: Seq<u8>,
    model: Parsed<(), E>,
    res: MatchOutcome<Bytes, E>,
) -> bool {
    match model {
        MatchOutcome::Complete((_, n)) => {
            &&& res matches MatchOutcome::Complete(span)
            &&& n <= before.len()
            &&& frozen(&span) == before.take(n as int)
            &&& after == before.skip(n as int)
        },
        MatchOutcome::Pending => res is Pending && after == before,
        MatchOutcome::Failed(e) => res == MatchOutcome::<Bytes, E>::Failed(e) && after == before,
    }
}

/// Parses a token from the beginning of a buffer.
///
/// The closure `parseop` is given a token atop `bytes`. If it matches, the
/// octets that it advanced over are drained from the buffer and returned.
/// Otherwise its outcome is returned and the buffer stays as it was.
///
/// The closure must accept a fresh token and may do nothing to it but
/// advance it.
pub fn parse<P, E>(bytes: &mut BytesMut, parseop: P) -> (res: MatchOutcome<Bytes, E>)
    where P: FnOnce(&mut Token) -> MatchOutcome<(), E>
    requires
        forall|t: &mut Token|
            t.offset() == 0 && t.input() == buffered(old(bytes)) ==> #[trigger] call_requires(
                parseop,
                (t,),
            ),
        forall|t: &mut Token, r: MatchOutcome<(), E>|
            t.wf() && #[trigger] call_ensures(parseop, (t,), r) ==> final(t).follows(&*t),
    ensures
        exists|t: &mut Token, r: MatchOutcome<(), E>|
            {
                &&& t.offset() == 0
                &&& t.input() == buffered(old(bytes))
                &&& #[trigger] call_ensures(parseop, (t,), r)
                &&& match r {
                    MatchOutcome::Complete(_) => {
                        &&& res matches MatchOutcome::Complete(span)
                        &&& frozen(&span) == final(t).matched()
                        &&& buffered(final(bytes)) == final(t).rest()
                    },
                    MatchOutcome::Pending => {
                        &&& res is Pending
                        &&& buffered(final(bytes)) == buffered(old(bytes))
                    },
                    MatchOutcome::Failed(e) => {
                        &&& res == MatchOutcome::<Bytes, E>::Failed(e)
                        &&& buffered(final(bytes)) == buffered(old(bytes))
                    },
                }
            },
{
    let mut token = Token::new(bytes);
    match parseop(&mut token) {
        MatchOutcome::Complete(()) => MatchOutcome::Complete(token.split()),
        MatchOutcome::Pending => MatchOutcome::Pending,
        MatchOutcome::Failed(e) => MatchOutcome::Failed(e),
    }
}

/// Parses a token from a buffer and then converts it.
///
/// This starts out as `parse()`. Unless that is pending, its result, the
/// matched octets or the error, is given to the closure `convertop`, which
/// makes of it what it likes. The token is drained from the buffer only if
/// it was found and `convertop` accepted it.
pub fn convert<P, E, C, R, F>(bytes: &mut BytesMut, parseop: P, convertop: C) -> (res:
    MatchOutcome<R, F>)
    where P: FnOnce(&mut Token) -> MatchOutcome<(), E>, C: FnOnce(Result<&[u8], E>) -> Result<R, F>
    requires
        forall|t: &mut Token|
            t.offset() == 0 && t.input() == buffered(old(bytes)) ==> #[trigger] call_requires(
                parseop,
                (t,),
            ),
        forall|t: &mut Token, r: MatchOutcome<(), E>|
            t.wf() && #[trigger] call_ensures(parseop, (t,), r) ==> final(t).follows(&*t),
        forall|t: &mut Token, r: MatchOutcome<(), E>, span: &[u8]|
            {
                &&& t.offset() == 0
                &&& t.input() == buffered(old(bytes))
                &&& #[trigger] call_ensures(parseop, (t,), r)
                &&& r is Complete
                &&& span@ == final(t).matched()
            } ==> #[trigger] call_requires(convertop, (Ok::<&[u8], E>(span),)),
        forall|t: &mut Token, e: E|
            {
                &&& t.offset() == 0
                &&& t.input() == buffered(old(bytes))
                &&& #[trigger] call_ensures(parseop, (t,), MatchOutcome::<(), E>::Failed(e))
            } ==> call_requires(convertop, (Err::<&[u8], E>(e),)),
    ensures
        exists|t: &mut Token, r: MatchOutcome<(), E>|
            {
                &&& t.offset() == 0
                &&& t.input() == buffered(old(bytes))
                &&& #[trigger] call_ensures(parseop, (t,), r)
                &&& match r {
                    MatchOutcome::Complete(_) => exists|span: &[u8], made: Result<R, F>|
                        {
                            &&& span@ == final(t).matched()
                            &&& #[trigger] call_ensures(
                                convertop,
                                (Ok::<&[u8], E>(span),),
                                made,
                            )
                            &&& match made {
                                Ok(v) => {
                                    &&& res == MatchOutcome::<R, F>::Complete(v)
                                    &&& buffered(final(bytes)) == final(t).rest()
                                },
                                Err(f) => {
                                    &&& res == MatchOutcome::<R, F>::Failed(f)
                                    &&& buffered(final(bytes)) == buffered(old(bytes))
                                },
                            }
                        },
                    MatchOutcome::Pending => {
                        &&& res is Pending
                        &&& buffered(final(bytes)) == buffered(old(bytes))
                    },
                    MatchOutcome::Failed(e) => exists|made: Result<R, F>|
                        {
                            &&& #[trigger] call_ensures(convertop, (Err::<&[u8], E>(e),), made)
                            &&& res == match made {
                                Ok(v) => MatchOutcome::<R, F>::Complete(v),
                                Err(f) => MatchOutcome::<R, F>::Failed(f),
                            }
                            &&& buffered(final(bytes)) == buffered(old(bytes))
                        },
                }
            },
{
    let mut token = Token::new(bytes);
    match parseop(&mut token) {
        MatchOutcome::Complete(()) => {
            let all: &[u8] = &*token.bytes;
            let made = convertop(Ok(&all[0..token.end]));
            match made {
                Ok(v) => {
                    token.skip();
                    MatchOutcome::Complete(v)
                },
                Err(f) => MatchOutcome::Failed(f),
            }
        },
        MatchOutcome::Pending => MatchOutcome::Pending,
        MatchOutcome::Failed(e) => match convertop(Err(e)) {
            Ok(v) => MatchOutcome::Complete(v),
            Err(f) => MatchOutcome::Failed(f),
        },
    }
}

/// Skips over a token.
pub fn skip<P, E>(bytes: &mut BytesMut, parsef: P) -> (res: MatchOutcome<(), E>)
    where P: FnOnce(&mut Token) -> MatchOutcome<(), E>
    requires
        forall|t: &mut Token|
            t.offset() == 0 && t.input() == buffered(old(bytes)) ==> #[trigger] call_requires(
                parsef,
                (t,),
            ),
        forall|t: &mut Token, r: MatchOutcome<(), E>|
            t.wf() && #[trigger] call_ensures(parsef, (t,), r) ==> final(t).follows(&*t),
    ensures
        exists|t: &mut Token, r: MatchOutcome<(), E>|
            {
                &&& t.offset() == 0
                &&& t.input() == buffered(old(bytes))
                &&& #[trigger] call_ensures(parsef, (t,), r)
                &&& match r {
                    MatchOutcome::Complete(_) => {
                        &&& res == MatchOutcome::<(), E>::Complete(())
                        &&& buffered(final(bytes)) == final(t).rest()
                    },
                    MatchOutcome::Pending => {
                        &&& res is Pending
                        &&& buffered(final(bytes)) == buffered(old(bytes))
                    },
                    MatchOutcome::Failed(e) => {
                        &&& res == MatchOutcome::<(), E>::Failed(e)
                        &&& buffered(final(bytes)) == buffered(old(bytes))
                    },
                }
            },
{
    let mut token = Token::new(bytes);
    match parsef(&mut token) {
        MatchOutcome::Complete(()) => {
            token.skip();
            MatchOutcome::Complete(())
        },
        MatchOutcome::Pending => MatchOutcome::Pending,
        MatchOutcome::Failed(e) => MatchOutcome::Failed(e),
    }
}

/// Skips over an optional token.
///
/// If successful, returns whether there was a token or not.
pub fn skip_opt<P, E>(bytes: &mut BytesMut, parsef: P) -> (res: MatchOutcome<bool, E>)
    where P: FnOnce(&mut Token) -> MatchOutcome<(), E>
    requires
        forall|t: &mut Token|
            t.offset() == 0 && t.input() == buffered(old(bytes)) ==> #[trigger] call_requires(
                parsef,
                (t,),
            ),
        forall|t: &mut Token, r: MatchOutcome<(), E>|
            t.wf() && #[trigger] call_ensures(parsef, (t,), r) ==> final(t).follows(&*t),
    ensures
        exists|t: &mut Token, r: MatchOutcome<(), E>|
            {
                &&& t.offset() == 0
                &&& t.input() == buffered(old(bytes))
                &&& #[trigger] call_ensures(parsef, (t,), r)
                &&& match r {
                    MatchOutcome::Complete(_) => {
                        &&& res == MatchOutcome::<bool, E>::Complete(true)
                        &&& buffered(final(bytes)) == final(t).rest()
                    },
                    MatchOutcome::Pending => {
                        &&& res is Pending
                        &&& buffered(final(bytes)) == buffered(old(bytes))
                    },
                    MatchOutcome::Failed(_) => {
                        &&& res == MatchOutcome::<bool, E>::Complete(false)
                        &&& buffered(final(bytes)) == buffered(old(bytes))
                    },
                }
            },
{
    match skip(bytes, parsef) {
        MatchOutcome::Complete(()) => MatchOutcome::Complete(true),
        MatchOutcome::Pending => MatchOutcome::Pending,
        MatchOutcome::Failed(_) => MatchOutcome::Complete(false),
    }
}

/// Expects the first octet of the token to be `value`.
///
/// If it is, advances over it. If it isn't, returns an error.
pub fn octet(token: &mut Token, value: u8) -> (res: MatchOutcome<(), TokenError>)
    requires
        old(token).wf(),
    ensures
        final(token).stepped(old(token), one_of(old(token).rest(), only(value), TokenError), res),
{
    match token.first::<TokenError>() {
        MatchOutcome::Complete(first) => {
            if first == value {
                token.advance(1);
                MatchOutcome::Complete(())
            } else {
                MatchOutcome::Failed(TokenError)
            }
        },
        MatchOutcome::Pending => MatchOutcome::Pending,
        MatchOutcome::Failed(e) => MatchOutcome::Failed(e),
    }
}

/// Advances the token if the first octet is `value`.
///
/// Returns whether it advanced or not.
pub fn opt_octet<E>(token: &mut Token, value: u8) -> (res: MatchOutcome<bool, E>)
    requires
        old(token).wf(),
    ensures
        final(token).stepped(old(token), maybe_one_of(old(token).rest(), only(value)), res),
{
    match token.first::<E>() {
        MatchOutcome::Complete(first) => {
            if first == value {
                token.advance(1);
                MatchOutcome::Complete(true)
            } else {
                MatchOutcome::Complete(false)
            }
        },
        MatchOutcome::Pending => MatchOutcome::Pending,
        MatchOutcome::Failed(e) => MatchOutcome::Failed(e),
    }
}

/// Skips over the first octet in `bytes` which must be `value`.
///
/// Returns an error if the first octet is anything else.
pub fn skip_octet(bytes: &mut BytesMut, value: u8) -> (res: MatchOutcome<(), TokenError>)
    ensures
        consumed(
            buffered(old(bytes)),
            buffered(final(bytes)),
            one_of(buffered(old(bytes)), only(value), TokenError),
            res,
        ),
{
    proof {
        lemma_skip_nothing(buffered(bytes));
    }
    let rule = |token: &mut Token| -> (r: MatchOutcome<(), TokenError>)
        requires
            old(token).wf(),
        ensures
            final(token).advanced(
                old(token),
                one_of(old(token).rest(), only(value), TokenError),
                r,
            ),
        {
            octet(token, value)
        };
    skip(bytes, rule)
}

/// Skips over the first octet in `bytes` if it is `value`.
///
/// On success, returns whether it skipped an octet or not.
pub fn skip_opt_octet(bytes: &mut BytesMut, value: u8) -> (res: MatchOutcome<bool, TokenError>)
    ensures
        consumed(
            buffered(old(bytes)),
            buffered(final(bytes)),
            maybe_one_of(buffered(old(bytes)), only(value)),
            res,
        ),
{
    proof {
        lemma_skip_nothing(buffered(bytes));
    }
    match skip_octet(bytes, value) {
        MatchOutcome::Complete(()) => MatchOutcome::Complete(true),
        MatchOutcome::Pending => MatchOutcome::Pending,
        MatchOutcome::Failed(_) => MatchOutcome::Complete(false),
    }
}

/// Expects the first octet in `token` to meet `test`.
///
/// If the token is empty, returns pending. If `test` returns `true` for the
/// first octet in the token, advances over the octet and matches. If
/// `test` returns `false`, returns an error.
pub fn cat<O>(token: &mut Token, test: O) -> (res: MatchOutcome<(), TokenError>)
    where O: FnOnce(u8) -> bool
    requires
        old(token).wf(),
        total(test),
    ensures
        final(token).follows(old(token)),
        !(res is Complete) ==> final(token).offset() == old(token).offset(),
        forall|class: OctetClass| #[trigger]
            decides(test, class) ==> final(token).stepped(
                old(token),
                one_of(old(token).rest(), class, TokenError),
                res,
            ),
{
    match token.advance_if::<O, TokenError>(test) {
        MatchOutcome::Complete(true) => MatchOutcome::Complete(()),
        MatchOutcome::Complete(false) => MatchOutcome::Failed(TokenError),
        MatchOutcome::Pending => MatchOutcome::Pending,
        MatchOutcome::Failed(e) => MatchOutcome::Failed(e),
    }
}

/// Advances over a non-empty sequence of octets that meet `test`.
///
/// In order to decide whether the sequence is complete, this function
/// always needs at least one octet that does not meet `test`. It is
/// pending as long as there is none.
pub fn cats<O>(token: &mut Token, test: O) -> (res: MatchOutcome<(), TokenError>)
    where O: Fn(u8) -> bool
    requires
        old(token).wf(),
        total(test),
    ensures
        final(token).follows(old(token)),
        forall|class: OctetClass| #[trigger]
            decides(test, class) ==> final(token).advanced(
                old(token),
                some_of(old(token).rest(), class, TokenError),
                res,
            ),
        res is Failed ==> final(token).offset() == old(token).offset(),
{
    let ghost start = *token;
    let head = cat(token, &test);
    let ghost middle = *token;
    let res = match head {
        MatchOutcome::Complete(()) => match opt_cats(token, &test) {
            MatchOutcome::Complete(_) => MatchOutcome::Complete(()),
            MatchOutcome::Pending => MatchOutcome::Pending,
            MatchOutcome::Failed(e) => MatchOutcome::Failed(e),
        },
        MatchOutcome::Pending => MatchOutcome::Pending,
        MatchOutcome::Failed(e) => MatchOutcome::Failed(e),
    };
    proof {
        assert forall|class: OctetClass| #[trigger] decides(test, class) implies token.advanced(
            &start,
            some_of(start.rest(), class, TokenError),
            res,
        ) by {
            assert(decides(&test, class));
            if head is Complete {
                assert(middle.rest() =~= start.rest().skip(1));
            }
        }
    }
    res
}

/// Advances over a possibly empty sequence of octets that meet `test`.
///
/// In order to decide whether the sequence is complete, this function
/// always needs at least one octet that does not meet `test`. It is
/// pending as long as there is none. Upon success, returns whether the
/// sequence was non-empty.
pub fn opt_cats<O>(token: &mut Token, test: O) -> (res: MatchOutcome<bool, TokenError>)
    where O: Fn(u8) -> bool
    requires
        old(token).wf(),
        total(test),
    ensures
        final(token).follows(old(token)),
        !(res is Failed),
        forall|class: OctetClass| #[trigger]
            decides(test, class) ==> final(token).advanced(
                old(token),
                any_of(old(token).rest(), class),
                res,
            ),
{
    let ghost start = *token;
    let ghost rest = token.rest();
    let mut count: usize = 0;
    loop
        invariant
            start == *old(token),
            start.wf(),
            rest == start.rest(),
            token.follows(&start),
            token.offset() == start.offset() + count,
            total(test),
            forall|i: int| 0 <= i < count ==> call_ensures(test, (#[trigger] rest[i],), true),
        decreases token.input().len() - token.offset(),
    {
        let ghost before = *token;
        match token.advance_if::<_, TokenError>(&test) {
            MatchOutcome::Complete(true) => {
                proof {
                    assert(before.rest()[0] == rest[count as int]);
                }
                count = count + 1;
            },
            MatchOutcome::Complete(false) => {
                proof {
                    assert(before.rest()[0] == rest[count as int]);
                    assert forall|class: OctetClass| #[trigger]
                        decides(test, class) implies token.advanced(
                        &start,
                        any_of(rest, class),
                        MatchOutcome::<bool, TokenError>::Complete(count > 0),
                    ) by {
                        lemma_run_len_is(rest, class, count as nat);
                    }
                }
                return MatchOutcome::Complete(count > 0);
            },
            MatchOutcome::Pending => {
                proof {
                    assert forall|class: OctetClass| #[trigger]
                        decides(test, class) implies token.advanced(
                        &start,
                        any_of(rest, class),
                        MatchOutcome::<bool, TokenError>::Pending,
                    ) by {
                        lemma_run_len_is(rest, class, count as nat);
                    }
                }
                return MatchOutcome::Pending;
            },
            MatchOutcome::Failed(e) => {
                return MatchOutcome::Failed(e);
            },
        }
    }
}

/// Advances a token over a literal.
///
/// In ABNF, literals are not case-sensitive: the literal `b"foo"` is
/// matched also by `b"FoO"`.
///
/// If the token begins with the literal, the function advances the token
/// by as many octets as `lit` has and matches. Unlike `cats()` and
/// friends, it does not wait for one more octet but succeeds right away
/// when it finds the literal, and fails at the first octet that differs.
pub fn literal(token: &mut Token, lit: &[u8]) -> (res: MatchOutcome<(), TokenError>)
    requires
        old(token).wf(),
    ensures
        final(token).stepped(old(token), literally(old(token).rest(), lit@, TokenError), res),
{
    let rest = token.remaining();
    let litlen = lit.len();
    let minlen = if rest.len() < litlen {
        rest.len()
    } else {
        litlen
    };
    let mut i: usize = 0;
    while i < minlen
        invariant
            i <= minlen,
            minlen <= rest@.len(),
            minlen <= lit@.len(),
            agree(rest@, lit@, i as int),
            rest@ == old(token).rest(),
            *token == *old(token),
            token.wf(),
            minlen == if rest@.len() < lit@.len() { rest@.len() } else { lit@.len() },
        decreases minlen - i,
    {
        if fold_case(rest[i]) != fold_case(lit[i]) {
            assert(!agree(rest@, lit@, minlen as int)) by {
                assert(folded(rest@[i as int]) != folded(lit@[i as int]));
            }
            return MatchOutcome::Failed(TokenError);
        }
        i = i + 1;
    }
    if minlen < litlen {
        return MatchOutcome::Pending;
    }
    token.advance(litlen);
    MatchOutcome::Complete(())
}

/// Parse a literal from a buffer.
pub fn parse_literal(bytes: &mut BytesMut, lit: &[u8]) -> (res: MatchOutcome<Bytes, TokenError>)
    ensures
        taken(
            buffered(old(bytes)),
            buffered(final(bytes)),
            literally(buffered(old(bytes)), lit@, TokenError),
            res,
        ),
{
    proof {
        lemma_skip_nothing(buffered(bytes));
    }
    let rule = |token: &mut Token| -> (r: MatchOutcome<(), TokenError>)
        requires
            old(token).wf(),
        ensures
            final(token).advanced(old(token), literally(old(token).rest(), lit@, TokenError), r),
        {
            literal(token, lit)
        };
    parse(bytes, rule)
}

/// Skip over a literal in a buffer.
pub fn skip_literal(bytes: &mut BytesMut, lit: &[u8]) -> (res: MatchOutcome<(), TokenError>)
    ensures
        consumed(
            buffered(old(bytes)),
            buffered(final(bytes)),
            literally(buffered(old(bytes)), lit@, TokenError),
            res,
        ),
{
    proof {
        lemma_skip_nothing(buffered(bytes));
    }
    let rule = |token: &mut Token| -> (r: MatchOutcome<(), TokenError>)
        requires
            old(token).wf(),
        ensures
            final(token).advanced(old(token), literally(old(token).rest(), lit@, TokenError), r),
        {
            literal(token, lit)
        };
    skip(bytes, rule)
}

/// The model of `translate_literal`: the literal gives the value, a
/// mismatch gives nothing and takes nothing.
pub open spec fn translated<T, E>(s: Seq<u8>, lit: Seq<u8>, value: T) -> Parsed<Option<T>, E> {
    match literally(s, lit, TokenError) {
        MatchOutcome::Complete((_, n)) => MatchOutcome::Complete((Some(value), n)),
        MatchOutcome::Pending => MatchOutcome::Pending,
        MatchOutcome::Failed(_) => MatchOutcome::Complete((None, 0)),
    }
}

/// A literal that is translated is settled as the literal is.
pub proof fn lemma_translated_settled<T, E>(s: Seq<u8>, more: Seq<u8>, lit: Seq<u8>, value: T)
    ensures
        settled(translated::<T, E>(s, lit, value), translated::<T, E>(s + more, lit, value)),
{
    lemma_literally_settled(s, more, lit, TokenError);
}

/// If the buffer starts with `lit`, return `res`.
///
/// If there isn't enough data to decide, returns pending. If the buffer
/// definitely doesn't start with `lit`, returns `None`, so that the next
/// literal of a list can be tried on the same buffer.
pub fn translate_literal<T, E>(bytes: &mut BytesMut, lit: &[u8], res: T) -> (out: MatchOutcome<
    Option<T>,
    E,
>)
    ensures
        consumed(
            buffered(old(bytes)),
            buffered(final(bytes)),
            translated(buffered(old(bytes)), lit@, res),
            out,
        ),
{
    proof {
        lemma_skip_nothing(buffered(bytes));
    }
    match skip_literal(bytes, lit) {
        MatchOutcome::Pending => MatchOutcome::Pending,
        MatchOutcome::Complete(()) => MatchOutcome::Complete(Some(res)),
        MatchOutcome::Failed(_) => MatchOutcome::Complete(None),
    }
}

/// Skipping no octets gives the sequence itself.
pub proof fn lemma_skip_nothing(s: Seq<u8>)
    ensures
        s.skip(0) == s,
        s.take(s.len() as int) == s,
{
    assert(s.skip(0) =~= s);
    assert(s.take(s.len() as int) =~= s);
}

} // verus!
