//! Parsing.
//!
//! ABNF defines rules without saying what becomes of the octets they
//! match. Here a *token* is a run of octets taken from the front of the
//! input buffer, and a *rule* combines tokens and other rules into
//! something larger. Tokens are found by advancing over the buffer until
//! their end is known and are only then taken out of it; rules take what
//! they match out of the buffer as they go and put it back if they fail.
//!
//! The functions of this module itself work on the buffer directly and
//! hand out the octets they match.

pub mod rule;
pub mod token;

use crate::buffer::buffered;
use crate::grammar::agree;
use crate::grammar::any_of;
use crate::grammar::decides;
use crate::grammar::fold_case;
use crate::grammar::folded;
use crate::grammar::lemma_run_len_bounds;
use crate::grammar::lemma_run_len_is;
use crate::grammar::lemma_run_len_stable;
use crate::grammar::literally;
use crate::grammar::one_of;
use crate::grammar::only;
use crate::grammar::run_len;
use crate::grammar::some_of;
use crate::grammar::total;
use crate::grammar::OctetClass;
use crate::outcome::consumed;
use crate::outcome::settled;
use crate::outcome::MatchOutcome;
use crate::outcome::Parsed;
use crate::parse::token::lemma_skip_nothing;
use bytes::BytesMut;
use vstd::prelude::*;

verus! {

/// The error of the rules of this module: the input does not match.
#[derive(Clone, Copy, Debug, Eq, Ord, PartialEq, PartialOrd)]
pub struct Error;

//------------ Combinator-y Things -------------------------------------------

/// Runs `op` on the buffer and puts the buffer back unless `op` matches.
pub fn attempt<F, T>(buf: &mut BytesMut, op: F) -> (res: MatchOutcome<T, Error>)
    where F: FnOnce(&mut BytesMut) -> MatchOutcome<T, Error>
    requires
        forall|b: &mut BytesMut| *b == *old(buf) ==> #[trigger] call_requires(op, (b,)),
    ensures
        exists|b: &mut BytesMut|
            {
                &&& *b == *old(buf)
                &&& #[trigger] call_ensures(op, (b,), res)
                &&& buffered(final(buf)) == if res is Complete {
                    buffered(final(b))
                } else {
                    buffered(old(buf))
                }
            },
{
    rule::group(buf, op)
}

//------------ Various Parsing -----------------------------------------------

/// How a rule that hands out the matched octets as a buffer of their own
/// relates the buffer before and after a call to its model.
pub open spec fn drained<E>(
    before: Seq<u8>,
    after: Seq<u8>,
    model: Parsed<(), E>,
    res: MatchOutcome<BytesMut, E>,
) -> bool {
    match model {
        MatchOutcome::Complete((_, n)) => {
            &&& res matches MatchOutcome::Complete(head)
            &&& n <= before.len()
            &&& buffered(&head) == before.take(n as int)
            &&& after == before.skip(n as int)
        },
        MatchOutcome::Pending => res is Pending && after == before,
        MatchOutcome::Failed(e) => res == MatchOutcome::<BytesMut, E>::Failed(e) && after == before,
    }
}

/// Takes the octet `value` from the front of the buffer.
pub fn octet(buf: &mut BytesMut, value: u8) -> (res: MatchOutcome<(), Error>)
    ensures
        consumed(
            buffered(old(buf)),
            buffered(final(buf)),
            one_of(buffered(old(buf)), only(value), Error),
            res,
        ),
{
    if buf.len() == 0 {
        MatchOutcome::Pending
    } else {
        let front: &[u8] = &*buf;
        if front[0] == value {
            let _ = buf.split_to(1);
            MatchOutcome::Complete(())
        } else {
            MatchOutcome::Failed(Error)
        }
    }
}

/// Parses a literal sequence of octets.
///
/// If the start of `buf` matches `lit` case-insensitively, drains the
/// length of `lit` from the buffer and matches. If `buf` starts
/// with an incomplete match, is pending. Otherwise returns an error.
pub fn literal(buf: &mut BytesMut, lit: &[u8]) -> (res: MatchOutcome<(), Error>)
    ensures
        consumed(
            buffered(old(buf)),
            buffered(final(buf)),
            literally(buffered(old(buf)), lit@, Error),
            res,
        ),
{
    let front: &[u8] = &*buf;
    let litlen = lit.len();
    let minlen = if front.len() < litlen {
        front.len()
    } else {
        litlen
    };
    let mut i: usize = 0;
    while i < minlen
        invariant
            i <= minlen,
            minlen <= front@.len(),
            minlen <= lit@.len(),
            agree(front@, lit@, i as int),
            front@ == buffered(old(buf)),
            *buf == *old(buf),
            minlen == if front@.len() < lit@.len() {
                front@.len()
            } else {
                lit@.len()
            },
        decreases minlen - i,
    {
        if fold_case(front[i]) != fold_case(lit[i]) {
            assert(!agree(front@, lit@, minlen as int)) by {
                assert(folded(front@[i as int]) != folded(lit@[i as int]));
            }
            return MatchOutcome::Failed(Error);
        }
        i = i + 1;
    }
    if minlen < litlen {
        return MatchOutcome::Pending;
    }
    let _ = buf.split_to(litlen);
    MatchOutcome::Complete(())
}

//------------ Category Octet Parsing ----------------------------------------

/// The place of the first octet of `s` for which `test` answers no, or
/// the length of `s` if there is none.
fn scan<F>(s: &[u8], test: &F) -> (end: usize)
    where F: Fn(u8) -> bool
    requires
        total(*test),
    ensures
        end <= s@.len(),
        forall|class: OctetClass| #[trigger] decides(*test, class) ==> end == run_len(s@, class),
{
    let mut i: usize = 0;
    while i < s.len()
        invariant
            i <= s@.len(),
            total(*test),
            forall|k: int| 0 <= k < i ==> call_ensures(*test, (#[trigger] s@[k],), true),
        decreases s@.len() - i,
    {
        if !test(s[i]) {
            proof {
                assert forall|class: OctetClass| #[trigger] decides(*test, class) implies i
                    == run_len(s@, class) by {
                    lemma_run_len_is(s@, class, i as nat);
                }
            }
            return i;
        }
        i = i + 1;
    }
    proof {
        assert forall|class: OctetClass| #[trigger] decides(*test, class) implies i == run_len(
            s@,
            class,
        ) by {
            lemma_run_len_is(s@, class, i as nat);
        }
    }
    i
}

/// The model of `cat`: one octet of a class, which is the value.
pub open spec fn one_octet_of(s: Seq<u8>, class: OctetClass) -> Parsed<u8, Error> {
    if s.len() == 0 {
        MatchOutcome::Pending
    } else if class(s[0]) {
        MatchOutcome::Complete((s[0], 1))
    } else {
        MatchOutcome::Failed(Error)
    }
}

/// Parses a single octet that matches a function.
///
/// If `test` returns `true` for the first octet in `buf`, drains that
/// octet from `buf` and returns it. If `buf` is empty, is pending. If
/// there is a first octet but `test` returns `false`, returns an error.
pub fn cat<F>(buf: &mut BytesMut, test: F) -> (res: MatchOutcome<u8, Error>)
    where F: FnOnce(u8) -> bool
    requires
        total(test),
    ensures
        !(res is Complete) ==> buffered(final(buf)) == buffered(old(buf)),
        forall|class: OctetClass| #[trigger]
            decides(test, class) ==> consumed(
                buffered(old(buf)),
                buffered(final(buf)),
                one_octet_of(buffered(old(buf)), class),
                res,
            ),
{
    if buf.len() < 1 {
        MatchOutcome::Pending
    } else {
        let front: &[u8] = &*buf;
        let ch = front[0];
        if test(ch) {
            let _ = buf.split_to(1);
            MatchOutcome::Complete(ch)
        } else {
            MatchOutcome::Failed(Error)
        }
    }
}

/// Parses a non-empty sequence of octets matched by a function.
///
/// If `buf` starts with a sequence of at least one octet for which `test`
/// returns `true` which is followed by an octet for which `test` returns
/// `false`, drains the sequence from `buf` and returns it. If there is a
/// sequence but no following octet, is pending. If the first octet in
/// `buf` is not matched by `test`, returns an error.
///
/// This function is used for parsing sequences in the middle of a
/// message. If the message can end with the sequence, use `final_cats()`
/// instead.
pub fn cats<F>(buf: &mut BytesMut, test: F) -> (res: MatchOutcome<BytesMut, Error>)
    where F: Fn(u8) -> bool
    requires
        total(test),
    ensures
        !(res is Complete) ==> buffered(final(buf)) == buffered(old(buf)),
        forall|class: OctetClass| #[trigger]
            decides(test, class) ==> drained(
                buffered(old(buf)),
                buffered(final(buf)),
                some_of(buffered(old(buf)), class, Error),
                res,
            ),
{
    let len = buf.len();
    let end = scan(&*buf, &test);
    if end == len {
        MatchOutcome::Pending
    } else if end == 0 {
        MatchOutcome::Failed(Error)
    } else {
        MatchOutcome::Complete(buf.split_to(end))
    }
}

/// The length of a non-empty sequence of octets matched by a function at
/// the front of `slice`, under the rules of `cats()`.
pub fn cats_len<F>(slice: &[u8], test: F) -> (res: MatchOutcome<usize, Error>)
    where F: Fn(u8) -> bool
    requires
        total(test),
    ensures
        forall|class: OctetClass| #[trigger]
            decides(test, class) ==> match some_of(slice@, class, Error) {
                MatchOutcome::Complete((_, n)) => res == MatchOutcome::<usize, Error>::Complete(
                    n as usize,
                ),
                MatchOutcome::Pending => res is Pending,
                MatchOutcome::Failed(e) => res == MatchOutcome::<usize, Error>::Failed(e),
            },
{
    let end = scan(slice, &test);
    if end == slice.len() {
        MatchOutcome::Pending
    } else if end == 0 {
        MatchOutcome::Failed(Error)
    } else {
        MatchOutcome::Complete(end)
    }
}

/// Parses a final non-empty sequence of octets matched by a function.
///
/// If `buf` consists entirely of a non-empty sequence of octets matched
/// by `test`, drains and returns all of it. Otherwise returns an error
/// and leaves the buffer as it is.
pub fn final_cats<F>(buf: &mut BytesMut, test: F) -> (res: Result<BytesMut, Error>)
    where F: Fn(u8) -> bool
    requires
        total(test),
    ensures
        res is Err ==> buffered(final(buf)) == buffered(old(buf)),
        forall|class: OctetClass| #[trigger]
            decides(test, class) ==> {
                let before = buffered(old(buf));
                if before.len() > 0 && run_len(before, class) == before.len() {
                    &&& res matches Ok(all)
                    &&& buffered(&all) == before
                    &&& buffered(final(buf)) == Seq::<u8>::empty()
                } else {
                    res == Err::<BytesMut, Error>(Error)
                }
            },
{
    let len = buf.len();
    if len == 0 {
        return Err(Error);
    }
    let end = scan(&*buf, &test);
    if end != len {
        return Err(Error);
    }
    proof {
        lemma_skip_nothing(buffered(buf));
        assert(buffered(buf).skip(len as int) =~= Seq::<u8>::empty());
    }
    Ok(buf.split_to(len))
}

/// How a rule that hands out the matched octets if there are any relates
/// the buffer before and after a call to its model, whose value says
/// whether there are any.
pub open spec fn drained_if_any<E>(
    before: Seq<u8>,
    after: Seq<u8>,
    model: Parsed<bool, E>,
    res: MatchOutcome<Option<BytesMut>, E>,
) -> bool {
    match model {
        MatchOutcome::Complete((some, n)) => {
            &&& n <= before.len()
            &&& after == before.skip(n as int)
            &&& if some {
                &&& res matches MatchOutcome::Complete(Some(head))
                &&& buffered(&head) == before.take(n as int)
            } else {
                res == MatchOutcome::<Option<BytesMut>, E>::Complete(None)
            }
        },
        MatchOutcome::Pending => res is Pending && after == before,
        MatchOutcome::Failed(e) => res == MatchOutcome::<Option<BytesMut>, E>::Failed(e) && after
            == before,
    }
}

/// Parses an optional sequence of octets matched by a function.
///
/// As `cats()`, but a sequence of no octets is a match of nothing. A
/// sequence that reaches the end of the buffer is pending, whether it
/// holds an octet or not.
pub fn opt_cats<F>(buf: &mut BytesMut, test: F) -> (res: MatchOutcome<Option<BytesMut>, Error>)
    where F: Fn(u8) -> bool
    requires
        total(test),
    ensures
        !(res is Failed),
        forall|class: OctetClass| #[trigger]
            decides(test, class) ==> drained_if_any(
                buffered(old(buf)),
                buffered(final(buf)),
                any_of::<Error>(buffered(old(buf)), class),
                res,
            ),
{
    proof {
        lemma_skip_nothing(buffered(buf));
    }
    let len = buf.len();
    let end = scan(&*buf, &test);
    if end == len {
        MatchOutcome::Pending
    } else if end == 0 {
        MatchOutcome::Complete(None)
    } else {
        MatchOutcome::Complete(Some(buf.split_to(end)))
    }
}

/// The model of `nm_cats`: a run of at least `n` and less than `m` octets
/// of a class, ended by an octet of another class.
pub open spec fn between(s: Seq<u8>, class: OctetClass, n: nat, m: nat) -> Parsed<(), Error> {
    let len = run_len(s, class);
    if len == s.len() {
        MatchOutcome::Pending
    } else if len < n || len >= m {
        MatchOutcome::Failed(Error)
    } else {
        MatchOutcome::Complete(((), len))
    }
}

/// Parses a sequence of at least `n` and less than `m` octets matched by
/// `test`, where `m` must be greater than `n`.
pub fn nm_cats<F>(buf: &mut BytesMut, n: usize, m: usize, test: F) -> (res: MatchOutcome<
    BytesMut,
    Error,
>)
    where F: Fn(u8) -> bool
    requires
        m > n,
        total(test),
    ensures
        !(res is Complete) ==> buffered(final(buf)) == buffered(old(buf)),
        forall|class: OctetClass| #[trigger]
            decides(test, class) ==> drained(
                buffered(old(buf)),
                buffered(final(buf)),
                between(buffered(old(buf)), class, n as nat, m as nat),
                res,
            ),
{
    let len = buf.len();
    let end = scan(&*buf, &test);
    if end == len {
        MatchOutcome::Pending
    } else if end < n || end >= m {
        MatchOutcome::Failed(Error)
    } else {
        MatchOutcome::Complete(buf.split_to(end))
    }
}

/// The class of the octets that are in `word` and not in `delim`.
pub open spec fn word_octets(word: OctetClass, delim: OctetClass) -> OctetClass {
    |ch: u8| !delim(ch) && word(ch)
}

/// The model of `cats_cat`: a possibly empty word and the delimiter that
/// ends it. The value is the length of the word. An input of less than
/// two octets is pending.
pub open spec fn word_and_delimiter(s: Seq<u8>, word: OctetClass, delim: OctetClass) -> Parsed<
    nat,
    Error,
> {
    let n = run_len(s, word_octets(word, delim));
    if s.len() < 2 || n == s.len() {
        MatchOutcome::Pending
    } else if delim(s[n as int]) {
        MatchOutcome::Complete((n, n + 1))
    } else {
        MatchOutcome::Failed(Error)
    }
}

/// How `cats_cat` relates the buffer before and after a call to its
/// model: the word is handed out, and its delimiter goes with it.
pub open spec fn drained_word(
    before: Seq<u8>,
    after: Seq<u8>,
    model: Parsed<nat, Error>,
    res: MatchOutcome<BytesMut, Error>,
) -> bool {
    match model {
        MatchOutcome::Complete((word_len, n)) => {
            &&& res matches MatchOutcome::Complete(head)
            &&& word_len <= n <= before.len()
            &&& buffered(&head) == before.take(word_len as int)
            &&& after == before.skip(n as int)
        },
        MatchOutcome::Pending => res is Pending && after == before,
        MatchOutcome::Failed(e) => res == MatchOutcome::<BytesMut, Error>::Failed(e) && after
            == before,
    }
}

/// Parses a possibly empty sequence of octets matched by `word` that is
/// ended by an octet matched by `delim`, and returns the sequence. The
/// delimiter is drained with it. An octet that is matched by neither is
/// an error. A buffer of less than two octets is pending.
pub fn cats_cat<F>(buf: &mut BytesMut, word: F, delim: F) -> (res: MatchOutcome<BytesMut, Error>)
    where F: Fn(u8) -> bool
    requires
        total(word),
        total(delim),
    ensures
        !(res is Complete) ==> buffered(final(buf)) == buffered(old(buf)),
        forall|in_word: OctetClass, in_delim: OctetClass|
            #[trigger] decides(word, in_word) && #[trigger] decides(delim, in_delim)
                ==> drained_word(
                buffered(old(buf)),
                buffered(final(buf)),
                word_and_delimiter(buffered(old(buf)), in_word, in_delim),
                res,
            ),
{
    let len = buf.len();
    if len < 2 {
        return MatchOutcome::Pending;
    }
    let front: &[u8] = &*buf;
    let mut i: usize = 0;
    let mut end: Option<usize> = None;
    while i < len
        invariant_except_break
            end is None,
        invariant
            i <= len,
            len >= 2,
            len == front@.len(),
            front@ == buffered(old(buf)),
            *buf == *old(buf),
            total(word),
            total(delim),
            forall|k: int|
                0 <= k < i ==> call_ensures(delim, (#[trigger] front@[k],), false) && call_ensures(
                    word,
                    (front@[k],),
                    true,
                ),
        ensures
            i <= len,
            end matches Some(at) ==> at == i && i < len && call_ensures(
                delim,
                (front@[i as int],),
                true,
            ),
            end is None ==> i == len,
        decreases len - i,
    {
        if delim(front[i]) {
            end = Some(i);
            break ;
        } else if !word(front[i]) {
            proof {
                assert forall|in_word: OctetClass, in_delim: OctetClass|
                    #[trigger] decides(word, in_word) && #[trigger] decides(
                        delim,
                        in_delim,
                    ) implies run_len(front@, word_octets(in_word, in_delim)) == i && !in_delim(
                    front@[i as int],
                ) by {
                    lemma_run_len_is(front@, word_octets(in_word, in_delim), i as nat);
                }
            }
            return MatchOutcome::Failed(Error);
        }
        i = i + 1;
    }
    proof {
        assert forall|in_word: OctetClass, in_delim: OctetClass|
            #[trigger] decides(word, in_word) && #[trigger] decides(
                delim,
                in_delim,
            ) implies run_len(front@, word_octets(in_word, in_delim)) == i && (i < len
            ==> in_delim(front@[i as int])) by {
            lemma_run_len_is(front@, word_octets(in_word, in_delim), i as nat);
        }
    }
    match end {
        None => MatchOutcome::Pending,
        Some(end) => {
            let res = buf.split_to(end);
            let _ = buf.split_to(1);
            assert(buffered(buf) =~= buffered(old(buf)).skip(end + 1));
            MatchOutcome::Complete(res)
        },
    }
}

/// A word is settled by the octet that ends it.
pub proof fn lemma_word_settled(s: Seq<u8>, more: Seq<u8>, word: OctetClass, delim: OctetClass)
    ensures
        settled(word_and_delimiter(s, word, delim), word_and_delimiter(s + more, word, delim)),
{
    let class = word_octets(word, delim);
    lemma_run_len_bounds(s, class);
    let n = run_len(s, class);
    if n < s.len() {
        lemma_run_len_stable(s, more, class);
        assert((s + more)[n as int] == s[n as int]);
    }
}

/// One octet of a class and a bounded run are settled as the rules of the
/// grammar module are.
pub proof fn lemma_octets_settled(s: Seq<u8>, more: Seq<u8>, class: OctetClass, n: nat, m: nat)
    ensures
        settled(one_octet_of(s, class), one_octet_of(s + more, class)),
        settled(between(s, class, n, m), between(s + more, class, n, m)),
{
    if s.len() > 0 {
        assert((s + more)[0] == s[0]);
    }
    lemma_run_len_bounds(s, class);
    if run_len(s, class) < s.len() {
        lemma_run_len_stable(s, more, class);
    }
}

//------------ Repetition ----------------------------------------------------

/// The steps of `repeat_len`: from the place `from` of `s` on, `op` may
/// be asked `steps` times or less for the length of the next element and
/// answer so that the repetition ends with `res`.
pub open spec fn repeat_steps<F>(
    op: F,
    s: Seq<u8>,
    from: nat,
    res: MatchOutcome<usize, Error>,
    steps: nat,
) -> bool
    where F: Fn(&[u8]) -> MatchOutcome<Option<usize>, Error>
    decreases steps,
{
    exists|part: &[u8], out: MatchOutcome<Option<usize>, Error>|
        {
            &&& part@ == s.skip(from as int)
            &&& #[trigger] call_ensures(op, (part,), out)
            &&& match out {
                MatchOutcome::Complete(None) => res == MatchOutcome::<usize, Error>::Complete(
                    from as usize,
                ),
                MatchOutcome::Complete(Some(add)) => steps > 0 && repeat_steps(
                    op,
                    s,
                    (from + add) as nat,
                    res,
                    (steps - 1) as nat,
                ),
                MatchOutcome::Pending => res is Pending,
                MatchOutcome::Failed(e) => res == MatchOutcome::<usize, Error>::Failed(e),
            }
        }
}

/// The length of a repetition at the front of `slice`.
///
/// The closure `op` is given what is left of the slice and returns the
/// length of the next element, or `None` if there is none. The lengths
/// add up to the result. If `op` is pending or fails, so does the
/// repetition.
///
/// An element must hold at least one octet, and no more than `op` was
/// given.
pub fn repeat_len<F>(slice: &[u8], op: F) -> (res: MatchOutcome<usize, Error>)
    where F: Fn(&[u8]) -> MatchOutcome<Option<usize>, Error>
    requires
        forall|part: &[u8]| call_requires(op, (part,)),
        forall|part: &[u8], add: usize| #[trigger]
            call_ensures(op, (part,), MatchOutcome::<Option<usize>, Error>::Complete(Some(add)))
                ==> 0 < add <= part@.len(),
    ensures
        res matches MatchOutcome::Complete(n) ==> n <= slice@.len(),
        exists|steps: nat| repeat_steps(op, slice@, 0, res, steps),
{
    let mut len: usize = 0;
    let ghost mut done: nat = 0;
    loop
        invariant
            len <= slice@.len(),
            forall|part: &[u8]| call_requires(op, (part,)),
            forall|part: &[u8], add: usize| #[trigger]
                call_ensures(
                    op,
                    (part,),
                    MatchOutcome::<Option<usize>, Error>::Complete(Some(add)),
                ) ==> 0 < add <= part@.len(),
            forall|r: MatchOutcome<usize, Error>, k: nat| #[trigger]
                repeat_steps(op, slice@, len as nat, r, k) ==> repeat_steps(
                    op,
                    slice@,
                    0,
                    r,
                    k + done,
                ),
        decreases slice@.len() - len,
    {
        let part = &slice[len..slice.len()];
        let out = op(part);
        match out {
            MatchOutcome::Complete(Some(add)) => {
                proof {
                    assert forall|r: MatchOutcome<usize, Error>, k: nat| #[trigger]
                        repeat_steps(op, slice@, (len + add) as nat, r, k) implies repeat_steps(
                        op,
                        slice@,
                        0,
                        r,
                        k + done + 1,
                    ) by {
                        assert(repeat_steps(op, slice@, len as nat, r, k + 1));
                    }
                    done = done + 1;
                }
                len = len + add;
            },
            MatchOutcome::Complete(None) => {
                proof {
                    assert(repeat_steps(
                        op,
                        slice@,
                        len as nat,
                        MatchOutcome::<usize, Error>::Complete(len),
                        0,
                    ));
                }
                return MatchOutcome::Complete(len);
            },
            MatchOutcome::Pending => {
                proof {
                    assert(repeat_steps(
                        op,
                        slice@,
                        len as nat,
                        MatchOutcome::<usize, Error>::Pending,
                        0,
                    ));
                }
                return MatchOutcome::Pending;
            },
            MatchOutcome::Failed(e) => {
                proof {
                    assert(repeat_steps(
                        op,
                        slice@,
                        len as nat,
                        MatchOutcome::<usize, Error>::Failed(e),
                        0,
                    ));
                }
                return MatchOutcome::Failed(e);
            },
        }
    }
}

/// Parses a repetition from the front of the buffer and returns its
/// octets. The closure `op` and the length of the repetition are as in
/// `repeat_len()`.
pub fn repeat<F>(buf: &mut BytesMut, op: F) -> (res: MatchOutcome<BytesMut, Error>)
    where F: Fn(&[u8]) -> MatchOutcome<Option<usize>, Error>
    requires
        forall|part: &[u8]| call_requires(op, (part,)),
        forall|part: &[u8], add: usize| #[trigger]
            call_ensures(op, (part,), MatchOutcome::<Option<usize>, Error>::Complete(Some(add)))
                ==> 0 < add <= part@.len(),
    ensures
        exists|steps: nat, len: MatchOutcome<usize, Error>|
            {
                &&& #[trigger] repeat_steps(op, buffered(old(buf)), 0, len, steps)
                &&& match len {
                    MatchOutcome::Complete(n) => {
                        &&& res matches MatchOutcome::Complete(head)
                        &&& n <= buffered(old(buf)).len()
                        &&& buffered(&head) == buffered(old(buf)).take(n as int)
                        &&& buffered(final(buf)) == buffered(old(buf)).skip(n as int)
                    },
                    MatchOutcome::Pending => {
                        &&& res is Pending
                        &&& buffered(final(buf)) == buffered(old(buf))
                    },
                    MatchOutcome::Failed(e) => {
                        &&& res == MatchOutcome::<BytesMut, Error>::Failed(e)
                        &&& buffered(final(buf)) == buffered(old(buf))
                    },
                }
            },
{
    match repeat_len(&*buf, op) {
        MatchOutcome::Complete(len) => MatchOutcome::Complete(buf.split_to(len)),
        MatchOutcome::Pending => MatchOutcome::Pending,
        MatchOutcome::Failed(e) => MatchOutcome::Failed(e),
    }
}

//------------ Escaped Sequences ---------------------------------------------

/// The steps of `escaped`: from the place `from` of `s` on, `test` may be
/// asked `steps` times or less for the length of the next character and
/// answer so that the sequence ends at `res`. The sequence is pending
/// where `s` ends, and ends where `test` fails, unless that is at the
/// front of `s`.
pub open spec fn escape_steps<F>(
    test: F,
    s: Seq<u8>,
    from: nat,
    res: MatchOutcome<usize, Error>,
    steps: nat,
) -> bool
    where F: Fn(&[u8]) -> MatchOutcome<usize, Error>
    decreases steps,
{
    if from >= s.len() {
        res is Pending
    } else {
        exists|part: &[u8], out: MatchOutcome<usize, Error>|
            {
                &&& part@ == s.skip(from as int)
                &&& #[trigger] call_ensures(test, (part,), out)
                &&& match out {
                    MatchOutcome::Complete(count) => steps > 0 && escape_steps(
                        test,
                        s,
                        (from + count) as nat,
                        res,
                        (steps - 1) as nat,
                    ),
                    MatchOutcome::Pending => res is Pending,
                    MatchOutcome::Failed(e) => res == if from > 0 {
                        MatchOutcome::<usize, Error>::Complete(from as usize)
                    } else {
                        MatchOutcome::<usize, Error>::Failed(e)
                    },
                }
            }
    }
}

/// Parses an escaped sequence of octets.
///
/// The closure `test` is given what is left of the buffer and returns
/// the number of octets at its front that form a single, possibly
/// escaped, character. The sequence ends in front of the first octet at
/// which `test` fails, and is drained from the buffer and returned. If
/// `test` fails at the front of the buffer, so does the sequence. As long
/// as `test` does not fail, the sequence is pending.
///
/// A character must hold at least one octet, and no more than `test` was
/// given.
pub fn escaped<F>(buf: &mut BytesMut, test: F) -> (res: MatchOutcome<BytesMut, Error>)
    where F: Fn(&[u8]) -> MatchOutcome<usize, Error>
    requires
        forall|part: &[u8]| call_requires(test, (part,)),
        forall|part: &[u8], count: usize| #[trigger]
            call_ensures(test, (part,), MatchOutcome::<usize, Error>::Complete(count)) ==> 0 < count
                <= part@.len(),
    ensures
        exists|steps: nat, end: MatchOutcome<usize, Error>|
            {
                &&& #[trigger] escape_steps(test, buffered(old(buf)), 0, end, steps)
                &&& match end {
                    MatchOutcome::Complete(n) => {
                        &&& res matches MatchOutcome::Complete(head)
                        &&& n <= buffered(old(buf)).len()
                        &&& buffered(&head) == buffered(old(buf)).take(n as int)
                        &&& buffered(final(buf)) == buffered(old(buf)).skip(n as int)
                    },
                    MatchOutcome::Pending => {
                        &&& res is Pending
                        &&& buffered(final(buf)) == buffered(old(buf))
                    },
                    MatchOutcome::Failed(e) => {
                        &&& res == MatchOutcome::<BytesMut, Error>::Failed(e)
                        &&& buffered(final(buf)) == buffered(old(buf))
                    },
                }
            },
{
    let ghost s = buffered(buf);
    let len = buf.len();
    let mut i: usize = 0;
    let ghost mut done: nat = 0;
    while i < len
        invariant
            i <= len,
            len == s.len(),
            s == buffered(old(buf)),
            *buf == *old(buf),
            forall|part: &[u8]| call_requires(test, (part,)),
            forall|part: &[u8], count: usize| #[trigger]
                call_ensures(test, (part,), MatchOutcome::<usize, Error>::Complete(count)) ==> 0
                    < count <= part@.len(),
            forall|r: MatchOutcome<usize, Error>, k: nat| #[trigger]
                escape_steps(test, s, i as nat, r, k) ==> escape_steps(test, s, 0, r, k + done),
        decreases len - i,
    {
        let front: &[u8] = &*buf;
        let out = test(&front[i..len]);
        match out {
            MatchOutcome::Pending => {
                proof {
                    assert(escape_steps(
                        test,
                        s,
                        i as nat,
                        MatchOutcome::<usize, Error>::Pending,
                        0,
                    ));
                }
                return MatchOutcome::Pending;
            },
            MatchOutcome::Complete(count) => {
                proof {
                    assert forall|r: MatchOutcome<usize, Error>, k: nat| #[trigger]
                        escape_steps(test, s, (i + count) as nat, r, k) implies escape_steps(
                        test,
                        s,
                        0,
                        r,
                        k + done + 1,
                    ) by {
                        assert(escape_steps(test, s, i as nat, r, k + 1));
                    }
                    done = done + 1;
                }
                i = i + count;
            },
            MatchOutcome::Failed(err) => {
                if i > 0 {
                    proof {
                        assert(escape_steps(
                            test,
                            s,
                            i as nat,
                            MatchOutcome::<usize, Error>::Complete(i),
                            0,
                        ));
                    }
                    return MatchOutcome::Complete(buf.split_to(i));
                } else {
                    proof {
                        assert(escape_steps(
                            test,
                            s,
                            i as nat,
                            MatchOutcome::<usize, Error>::Failed(err),
                            0,
                        ));
                    }
                    return MatchOutcome::Failed(err);
                }
            },
        }
    }
    proof {
        assert(escape_steps(test, s, i as nat, MatchOutcome::<usize, Error>::Pending, 0));
    }
    MatchOutcome::Pending
}

} // verus!
