//! Rule parsing.
//!
//! A rule is a function that tries to parse a value from the beginning of
//! a buffer. It can match, fail, or be undecided. If it matches, it has
//! drained from the buffer what it matched. If it fails or is undecided,
//! the buffer holds what it held before.
//!
//! A rule that applies several rules one after another can be left with a
//! buffer from which the first ones have drained their matches when a
//! later one fails. Wrapping it in `group()` puts the buffer back.
//!
//! The combinators of this module implement the operators of ABNF:
//! `group()` for concatenation, `repeat()` for `*rule`, `at_least_once()`
//! for `1*rule` and `optional()` for `[rule]`. Alternatives are tried one
//! after another for as long as they fail.

use crate::buffer::buffered;
use crate::outcome::MatchOutcome;
use bytes::BytesMut;
use vstd::prelude::*;

verus! {

/// Succeeds if parsing within `parse` succeeds or rewinds.
///
/// The outcome is that of `parse` on the buffer as it is. If that is a
/// match, the buffer is left as `parse` left it. Otherwise it holds again
/// what it held before the call.
pub fn group<P, T, E>(buf: &mut BytesMut, parse: P) -> (res: MatchOutcome<T, E>)
    where P: FnOnce(&mut BytesMut) -> MatchOutcome<T, E>
    requires
        forall|b: &mut BytesMut| *b == *old(buf) ==> #[trigger] call_requires(parse, (b,)),
    ensures
        exists|b: &mut BytesMut|
            {
                &&& *b == *old(buf)
                &&& #[trigger] call_ensures(parse, (b,), res)
                &&& buffered(final(buf)) == if res is Complete {
                    buffered(final(b))
                } else {
                    buffered(old(buf))
                }
            },
{
    let orig_buf = buf.clone();
    let res = parse(buf);
    match res {
        MatchOutcome::Complete(_) => {},
        _ => {
            *buf = orig_buf;
        },
    }
    res
}

/// An optional rule.
///
/// A match of `parse` gives its value, a failure gives `None`. Never
/// fails itself, and leaves the buffer as `parse` left it. The error of
/// `parse` is dropped.
pub fn optional<P, R, E, F>(buf: &mut BytesMut, parse: P) -> (res: MatchOutcome<Option<R>, F>)
    where P: FnOnce(&mut BytesMut) -> MatchOutcome<R, E>
    requires
        forall|b: &mut BytesMut| *b == *old(buf) ==> #[trigger] call_requires(parse, (b,)),
    ensures
        exists|b: &mut BytesMut, r: MatchOutcome<R, E>|
            {
                &&& *b == *old(buf)
                &&& #[trigger] call_ensures(parse, (b,), r)
                &&& *final(buf) == *final(b)
                &&& res == match r {
                    MatchOutcome::Complete(v) => MatchOutcome::<Option<R>, F>::Complete(Some(v)),
                    MatchOutcome::Pending => MatchOutcome::<Option<R>, F>::Pending,
                    MatchOutcome::Failed(_) => MatchOutcome::<Option<R>, F>::Complete(None),
                }
            },
{
    match parse(buf) {
        MatchOutcome::Pending => MatchOutcome::Pending,
        MatchOutcome::Complete(some) => MatchOutcome::Complete(Some(some)),
        MatchOutcome::Failed(_) => MatchOutcome::Complete(None),
    }
}

/// The item that `repeat()` hands to its `combine` closure for an outcome
/// of its `parse` closure that is not pending.
pub open spec fn item<R, E>(outcome: MatchOutcome<R, E>) -> Result<R, E> {
    match outcome {
        MatchOutcome::Complete(v) => Ok(v),
        MatchOutcome::Failed(e) => Err(e),
        MatchOutcome::Pending => arbitrary(),
    }
}

/// The number `i` is that of one of `len` steps.
pub open spec fn step(i: int, len: nat) -> bool {
    0 <= i < len
}

/// A record of a repetition: the content of the buffer before the first
/// step and after each step, and the outcome of the element rule in each
/// step, of which there is at least one.
pub open spec fn traced<R, E>(inputs: Seq<Seq<u8>>, outcomes: Seq<MatchOutcome<R, E>>) -> bool {
    outcomes.len() >= 1 && inputs.len() == outcomes.len() + 1
}

/// Repetition.
///
/// This combinator is driven by two closures.
///
/// The first one, `parse`, parses an element at a time from the beginning
/// of the buffer given. If it is pending, the whole repetition rewinds and
/// is pending.
///
/// Otherwise, the outcome of `parse` is given to the closure `combine`,
/// which decides what to do next. If it fails, the whole repetition
/// rewinds and fails with that error. If it returns a value, the
/// repetition is over and produces this value. If it is pending, another
/// iteration is done.
///
/// For the repetition to end, a match of `parse` must take at least one
/// octet, and `combine` must not ask for another iteration when `parse`
/// has failed.
pub fn repeat<P, R, E, C, S, F>(buf: &mut BytesMut, parse: P, combine: C) -> (res:
    MatchOutcome<S, F>)
    where P: Fn(&mut BytesMut) -> MatchOutcome<R, E>, C: FnMut(Result<R, E>) -> MatchOutcome<S, F>
    requires
        forall|b: &mut BytesMut| #[trigger] call_requires(parse, (b,)),
        forall|b: &mut BytesMut, v: R| #[trigger]
            call_ensures(parse, (b,), MatchOutcome::<R, E>::Complete(v)) ==> buffered(final(b)).len()
                < buffered(&*b).len(),
        forall|found: Result<R, E>| call_requires(combine, (found,)),
        forall|e: E, out: MatchOutcome<S, F>| #[trigger]
            call_ensures(combine, (Err::<R, E>(e),), out) ==> !(out is Pending),
    ensures
        !(res is Complete) ==> buffered(final(buf)) == buffered(old(buf)),
        exists|inputs: Seq<Seq<u8>>, outcomes: Seq<MatchOutcome<R, E>>|
            {
                &&& #[trigger] traced(inputs, outcomes)
                &&& inputs[0] == buffered(old(buf))
                &&& forall|i: int|
                    #![trigger step(i, outcomes.len())]
                    step(i, outcomes.len()) ==> exists|b: &mut BytesMut|
                        #![trigger call_ensures(parse, (b,), outcomes[i])]
                        {
                            &&& buffered(&*b) == inputs[i]
                            &&& call_ensures(parse, (b,), outcomes[i])
                            &&& buffered(final(b)) == inputs[i + 1]
                        }
                &&& forall|i: int| #[trigger]
                    step(i, (outcomes.len() - 1) as nat) ==> {
                        &&& !(outcomes[i] is Pending)
                        &&& call_ensures(
                            combine,
                            (item(outcomes[i]),),
                            MatchOutcome::<S, F>::Pending,
                        )
                    }
                &&& if outcomes.last() is Pending {
                    res is Pending
                } else {
                    &&& !(res is Pending)
                    &&& call_ensures(combine, (item(outcomes.last()),), res)
                    &&& res is Complete ==> buffered(final(buf)) == inputs.last()
                }
            },
{
    let orig_buf = buf.clone();
    let mut combiner = combine;
    let ghost mut inputs: Seq<Seq<u8>> = seq![buffered(buf)];
    let ghost mut outcomes: Seq<MatchOutcome<R, E>> = Seq::empty();
    loop
        invariant
            combiner == combine,
            buffered(&orig_buf) == buffered(old(buf)),
            inputs.len() == outcomes.len() + 1,
            inputs[0] == buffered(old(buf)),
            inputs.last() == buffered(buf),
            forall|i: int|
                #![trigger step(i, outcomes.len())]
                step(i, outcomes.len()) ==> exists|b: &mut BytesMut|
                    #![trigger call_ensures(parse, (b,), outcomes[i])]
                    {
                        &&& buffered(&*b) == inputs[i]
                        &&& call_ensures(parse, (b,), outcomes[i])
                        &&& buffered(final(b)) == inputs[i + 1]
                    },
            forall|i: int| #[trigger]
                step(i, outcomes.len()) ==> {
                    &&& !(outcomes[i] is Pending)
                    &&& call_ensures(combine, (item(outcomes[i]),), MatchOutcome::<S, F>::Pending)
                },
            forall|b: &mut BytesMut| #[trigger] call_requires(parse, (b,)),
            forall|b: &mut BytesMut, v: R| #[trigger]
                call_ensures(parse, (b,), MatchOutcome::<R, E>::Complete(v)) ==> buffered(
                    final(b),
                ).len() < buffered(&*b).len(),
            forall|found: Result<R, E>| call_requires(combine, (found,)),
            forall|e: E, out: MatchOutcome<S, F>| #[trigger]
                call_ensures(combine, (Err::<R, E>(e),), out) ==> !(out is Pending),
        decreases buffered(buf).len(),
    {
        let ghost earlier_inputs = inputs;
        let ghost earlier_outcomes = outcomes;
        let outcome = parse(buf);
        proof {
            inputs = inputs.push(buffered(buf));
            outcomes = outcomes.push(outcome);
            assert forall|i: int| #![trigger step(i, outcomes.len())] step(
                i,
                outcomes.len(),
            ) implies exists|
                b: &mut BytesMut,
            |
                #![trigger call_ensures(parse, (b,), outcomes[i])]
                {
                    &&& buffered(&*b) == inputs[i]
                    &&& call_ensures(parse, (b,), outcomes[i])
                    &&& buffered(final(b)) == inputs[i + 1]
                } by {
                if i < earlier_outcomes.len() {
                    assert(step(i, earlier_outcomes.len()));
                    assert(outcomes[i] == earlier_outcomes[i]);
                    assert(inputs[i] == earlier_inputs[i]);
                    assert(inputs[i + 1] == earlier_inputs[i + 1]);
                    assert(exists|b: &mut BytesMut|
                        #![trigger call_ensures(parse, (b,), earlier_outcomes[i])]
                        {
                            &&& buffered(&*b) == earlier_inputs[i]
                            &&& call_ensures(parse, (b,), earlier_outcomes[i])
                            &&& buffered(final(b)) == earlier_inputs[i + 1]
                        });
                } else {
                    assert(outcomes[i] == outcome);
                    assert(inputs[i] == earlier_inputs.last());
                    assert(inputs[i + 1] == buffered(buf));
                    assert(exists|b: &mut BytesMut|
                        #![trigger call_ensures(parse, (b,), outcome)]
                        {
                            &&& buffered(&*b) == earlier_inputs.last()
                            &&& call_ensures(parse, (b,), outcome)
                            &&& buffered(final(b)) == buffered(buf)
                        });
                }
            }
        }
        proof {
            assert(traced(inputs, outcomes));
            assert forall|i: int| #[trigger]
                step(i, (outcomes.len() - 1) as nat) implies !(outcomes[i] is Pending)
                && call_ensures(combine, (item(outcomes[i]),), MatchOutcome::<S, F>::Pending) by {
                assert(step(i, earlier_outcomes.len()));
                assert(outcomes[i] == earlier_outcomes[i]);
            }
        }
        let found = match outcome {
            MatchOutcome::Complete(v) => Ok(v),
            MatchOutcome::Failed(e) => Err(e),
            MatchOutcome::Pending => {
                *buf = orig_buf;
                return MatchOutcome::Pending;
            },
        };
        assert(found == item(outcome));
        match combiner(found) {
            MatchOutcome::Complete(res) => {
                return MatchOutcome::Complete(res);
            },
            MatchOutcome::Failed(err) => {
                *buf = orig_buf;
                return MatchOutcome::Failed(err);
            },
            MatchOutcome::Pending => {},
        }
        proof {
            assert forall|i: int| #[trigger] step(i, outcomes.len()) implies !(outcomes[i]
                is Pending) && call_ensures(
                combine,
                (item(outcomes[i]),),
                MatchOutcome::<S, F>::Pending,
            ) by {
                if i < earlier_outcomes.len() {
                    assert(step(i, earlier_outcomes.len()));
                    assert(outcomes[i] == earlier_outcomes[i]);
                }
            }
        }
    }
}

/// Repeat at least once.
///
/// This is like `repeat()`, but if `parse` fails already on the first
/// time, `combine` isn't called at all: the repetition fails with what
/// `error` makes of the error of `parse`.
pub fn at_least_once<P, R, E, C, S, F, D>(buf: &mut BytesMut, parse: P, combine: C, error: D) -> (res:
    MatchOutcome<S, F>)
    where
        P: Fn(&mut BytesMut) -> MatchOutcome<R, E>,
        C: FnMut(Result<R, E>) -> MatchOutcome<S, F>,
        D: FnOnce(E) -> F,
    requires
        forall|b: &mut BytesMut| #[trigger] call_requires(parse, (b,)),
        forall|b: &mut BytesMut, v: R| #[trigger]
            call_ensures(parse, (b,), MatchOutcome::<R, E>::Complete(v)) ==> buffered(final(b)).len()
                < buffered(&*b).len(),
        forall|found: Result<R, E>| call_requires(combine, (found,)),
        forall|e: E, out: MatchOutcome<S, F>| #[trigger]
            call_ensures(combine, (Err::<R, E>(e),), out) ==> !(out is Pending),
        forall|e: E| call_requires(error, (e,)),
    ensures
        !(res is Complete) ==> buffered(final(buf)) == buffered(old(buf)),
        exists|inputs: Seq<Seq<u8>>, outcomes: Seq<MatchOutcome<R, E>>|
            {
                &&& #[trigger] traced(inputs, outcomes)
                &&& inputs[0] == buffered(old(buf))
                &&& forall|i: int|
                    #![trigger step(i, outcomes.len())]
                    step(i, outcomes.len()) ==> exists|b: &mut BytesMut|
                        #![trigger call_ensures(parse, (b,), outcomes[i])]
                        {
                            &&& buffered(&*b) == inputs[i]
                            &&& call_ensures(parse, (b,), outcomes[i])
                            &&& buffered(final(b)) == inputs[i + 1]
                        }
                &&& forall|i: int| #[trigger]
                    step(i, (outcomes.len() - 1) as nat) ==> {
                        &&& !(outcomes[i] is Pending)
                        &&& call_ensures(
                            combine,
                            (item(outcomes[i]),),
                            MatchOutcome::<S, F>::Pending,
                        )
                    }
                &&& match outcomes.last() {
                    MatchOutcome::Pending => res is Pending,
                    MatchOutcome::Failed(e) if outcomes.len() == 1 => {
                        &&& res matches MatchOutcome::Failed(f)
                        &&& call_ensures(error, (e,), f)
                    },
                    _ => {
                        &&& !(res is Pending)
                        &&& call_ensures(combine, (item(outcomes.last()),), res)
                        &&& res is Complete ==> buffered(final(buf)) == inputs.last()
                    },
                }
            },
{
    let orig_buf = buf.clone();
    let mut combiner = combine;
    let ghost start = buffered(buf);
    let first = parse(buf);
    let ghost mut inputs: Seq<Seq<u8>> = seq![start, buffered(buf)];
    let ghost mut outcomes: Seq<MatchOutcome<R, E>> = seq![first];
    proof {
        assert(traced(inputs, outcomes));
        assert forall|i: int| #![trigger step(i, outcomes.len())] step(
            i,
            outcomes.len(),
        ) implies exists|b: &mut BytesMut|
            #![trigger call_ensures(parse, (b,), outcomes[i])]
            {
                &&& buffered(&*b) == inputs[i]
                &&& call_ensures(parse, (b,), outcomes[i])
                &&& buffered(final(b)) == inputs[i + 1]
            } by {
            assert(outcomes[i] == first);
            assert(inputs[i] == start);
            assert(inputs[i + 1] == buffered(buf));
            assert(exists|b: &mut BytesMut|
                #![trigger call_ensures(parse, (b,), first)]
                {
                    &&& buffered(&*b) == start
                    &&& call_ensures(parse, (b,), first)
                    &&& buffered(final(b)) == buffered(buf)
                });
        }
    }
    match first {
        MatchOutcome::Complete(v) => {
            assert(Ok::<R, E>(v) == item(first));
            match combiner(Ok(v)) {
                MatchOutcome::Complete(res) => {
                    return MatchOutcome::Complete(res);
                },
                MatchOutcome::Failed(err) => {
                    *buf = orig_buf;
                    return MatchOutcome::Failed(err);
                },
                MatchOutcome::Pending => {},
            }
        },
        MatchOutcome::Failed(e) => {
            *buf = orig_buf;
            return MatchOutcome::Failed(error(e));
        },
        MatchOutcome::Pending => {
            *buf = orig_buf;
            return MatchOutcome::Pending;
        },
    }
    loop
        invariant
            combiner == combine,
            buffered(&orig_buf) == buffered(old(buf)),
            outcomes.len() >= 1,
            inputs.len() == outcomes.len() + 1,
            inputs[0] == buffered(old(buf)),
            inputs.last() == buffered(buf),
            forall|i: int|
                #![trigger step(i, outcomes.len())]
                step(i, outcomes.len()) ==> exists|b: &mut BytesMut|
                    #![trigger call_ensures(parse, (b,), outcomes[i])]
                    {
                        &&& buffered(&*b) == inputs[i]
                        &&& call_ensures(parse, (b,), outcomes[i])
                        &&& buffered(final(b)) == inputs[i + 1]
                    },
            forall|i: int| #[trigger]
                step(i, outcomes.len()) ==> {
                    &&& !(outcomes[i] is Pending)
                    &&& call_ensures(combine, (item(outcomes[i]),), MatchOutcome::<S, F>::Pending)
                },
            forall|b: &mut BytesMut| #[trigger] call_requires(parse, (b,)),
            forall|b: &mut BytesMut, v: R| #[trigger]
                call_ensures(parse, (b,), MatchOutcome::<R, E>::Complete(v)) ==> buffered(
                    final(b),
                ).len() < buffered(&*b).len(),
            forall|found: Result<R, E>| call_requires(combine, (found,)),
            forall|e: E, out: MatchOutcome<S, F>| #[trigger]
                call_ensures(combine, (Err::<R, E>(e),), out) ==> !(out is Pending),
        decreases buffered(buf).len(),
    {
        let ghost earlier_inputs = inputs;
        let ghost earlier_outcomes = outcomes;
        let outcome = parse(buf);
        proof {
            inputs = inputs.push(buffered(buf));
            outcomes = outcomes.push(outcome);
            assert forall|i: int| #![trigger step(i, outcomes.len())] step(
                i,
                outcomes.len(),
            ) implies exists|b: &mut BytesMut|
                #![trigger call_ensures(parse, (b,), outcomes[i])]
                {
                    &&& buffered(&*b) == inputs[i]
                    &&& call_ensures(parse, (b,), outcomes[i])
                    &&& buffered(final(b)) == inputs[i + 1]
                } by {
                if i < earlier_outcomes.len() {
                    assert(step(i, earlier_outcomes.len()));
                    assert(outcomes[i] == earlier_outcomes[i]);
                    assert(inputs[i] == earlier_inputs[i]);
                    assert(inputs[i + 1] == earlier_inputs[i + 1]);
                    assert(exists|b: &mut BytesMut|
                        #![trigger call_ensures(parse, (b,), earlier_outcomes[i])]
                        {
                            &&& buffered(&*b) == earlier_inputs[i]
                            &&& call_ensures(parse, (b,), earlier_outcomes[i])
                            &&& buffered(final(b)) == earlier_inputs[i + 1]
                        });
                } else {
                    assert(outcomes[i] == outcome);
                    assert(inputs[i] == earlier_inputs.last());
                    assert(inputs[i + 1] == buffered(buf));
                    assert(exists|b: &mut BytesMut|
                        #![trigger call_ensures(parse, (b,), outcome)]
                        {
                            &&& buffered(&*b) == earlier_inputs.last()
                            &&& call_ensures(parse, (b,), outcome)
                            &&& buffered(final(b)) == buffered(buf)
                        });
                }
            }
            assert(traced(inputs, outcomes));
            assert forall|i: int| #[trigger]
                step(i, (outcomes.len() - 1) as nat) implies !(outcomes[i] is Pending)
                && call_ensures(combine, (item(outcomes[i]),), MatchOutcome::<S, F>::Pending) by {
                assert(step(i, earlier_outcomes.len()));
                assert(outcomes[i] == earlier_outcomes[i]);
            }
        }
        let found = match outcome {
            MatchOutcome::Complete(v) => Ok(v),
            MatchOutcome::Failed(e) => Err(e),
            MatchOutcome::Pending => {
                *buf = orig_buf;
                return MatchOutcome::Pending;
            },
        };
        assert(found == item(outcome));
        match combiner(found) {
            MatchOutcome::Complete(res) => {
                return MatchOutcome::Complete(res);
            },
            MatchOutcome::Failed(err) => {
                *buf = orig_buf;
                return MatchOutcome::Failed(err);
            },
            MatchOutcome::Pending => {},
        }
        proof {
            assert forall|i: int| #[trigger] step(i, outcomes.len()) implies !(outcomes[i]
                is Pending) && call_ensures(
                combine,
                (item(outcomes[i]),),
                MatchOutcome::<S, F>::Pending,
            ) by {
                if i < earlier_outcomes.len() {
                    assert(step(i, earlier_outcomes.len()));
                    assert(outcomes[i] == earlier_outcomes[i]);
                }
            }
        }
    }
}

} // verus!
