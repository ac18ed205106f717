//! The three-way result that every rule returns.

use vstd::prelude::*;

verus! {

/// What a rule made of the input it was given.
///
/// `Complete` carries the value of a match whose bytes have been consumed.
/// `Pending` says that the bytes seen so far do not decide the matter and
/// that the rule should be tried again once more input has arrived.
/// `Failed` says that the input cannot match, whatever follows.
#[derive(Debug, PartialEq, Eq)]
pub enum MatchOutcome<T, E> {
    Complete(T),
    Pending,
    Failed(E),
}

impl<T: Clone, E: Clone> Clone for MatchOutcome<T, E> {
    fn clone(&self) -> (copy: Self)
        ensures
            match (*self, copy) {
                (MatchOutcome::Complete(v), MatchOutcome::Complete(w)) => cloned(v, w),
                (MatchOutcome::Pending, MatchOutcome::Pending) => true,
                (MatchOutcome::Failed(e), MatchOutcome::Failed(f)) => cloned(e, f),
                _ => false,
            },
    {
        match self {
            MatchOutcome::Complete(v) => MatchOutcome::Complete(v.clone()),
            MatchOutcome::Pending => MatchOutcome::Pending,
            MatchOutcome::Failed(e) => MatchOutcome::Failed(e.clone()),
        }
    }
}

/// The model of a rule on a given input: the outcome together with the
/// number of bytes that a match takes from the front of the input.
pub type Parsed<T, E> = MatchOutcome<(T, nat), E>;

impl<T, E> MatchOutcome<T, E> {
    /// Whether the rule matched.
    pub fn is_complete(&self) -> (b: bool)
        ensures
            b == (*self is Complete),
    {
        match self {
            MatchOutcome::Complete(_) => true,
            _ => false,
        }
    }

    /// Whether the rule needs more input to decide.
    pub fn is_pending(&self) -> (b: bool)
        ensures
            b == (*self is Pending),
    {
        match self {
            MatchOutcome::Pending => true,
            _ => false,
        }
    }

    /// Whether the rule rejected the input.
    pub fn is_failed(&self) -> (b: bool)
        ensures
            b == (*self is Failed),
    {
        match self {
            MatchOutcome::Failed(_) => true,
            _ => false,
        }
    }

    /// The matched value, if there is one.
    pub fn complete(self) -> (v: Option<T>)
        ensures
            v == match self {
                MatchOutcome::Complete(t) => Some(t),
                _ => None::<T>,
            },
    {
        match self {
            MatchOutcome::Complete(t) => Some(t),
            _ => None,
        }
    }
}

/// How a rule that works on the buffer itself relates the buffer before
/// and after a call to its model: a match takes its bytes from the front,
/// anything else leaves the buffer as it was.
pub open spec fn consumed<T, E>(
    before: Seq<u8>,
    after: Seq<u8>,
    model: Parsed<T, E>,
    res: MatchOutcome<T, E>,
) -> bool {
    match model {
        MatchOutcome::Complete((v, n)) => {
            &&& res == MatchOutcome::<T, E>::Complete(v)
            &&& n <= before.len()
            &&& after == before.skip(n as int)
        },
        MatchOutcome::Pending => res is Pending && after == before,
        MatchOutcome::Failed(e) => res == MatchOutcome::<T, E>::Failed(e) && after == before,
    }
}

/// As `consumed`, for a step inside a group: a match takes its bytes from
/// the front, and nothing is said of the buffer otherwise, since the group
/// around the step puts it back.
pub open spec fn consumed_or_left<T, E>(
    before: Seq<u8>,
    after: Seq<u8>,
    model: Parsed<T, E>,
    res: MatchOutcome<T, E>,
) -> bool {
    match model {
        MatchOutcome::Complete((v, n)) => {
            &&& res == MatchOutcome::<T, E>::Complete(v)
            &&& n <= before.len()
            &&& after == before.skip(n as int)
        },
        MatchOutcome::Pending => res is Pending,
        MatchOutcome::Failed(e) => res == MatchOutcome::<T, E>::Failed(e),
    }
}

/// An outcome with the view of the matched value in place of the value.
pub open spec fn viewed<T: View, E>(res: MatchOutcome<T, E>) -> MatchOutcome<T::V, E> {
    match res {
        MatchOutcome::Complete(v) => MatchOutcome::Complete(v@),
        MatchOutcome::Pending => MatchOutcome::Pending,
        MatchOutcome::Failed(e) => MatchOutcome::Failed(e),
    }
}

/// A model of values in a row, with `head` and its `used` octets put in
/// front of what `tail` adds.
pub open spec fn prefixed<T, E>(head: Seq<T>, used: nat, tail: Parsed<Seq<T>, E>) -> Parsed<
    Seq<T>,
    E,
> {
    match tail {
        MatchOutcome::Complete((vs, n)) => MatchOutcome::Complete((head + vs, used + n)),
        MatchOutcome::Pending => MatchOutcome::Pending,
        MatchOutcome::Failed(e) => MatchOutcome::Failed(e),
    }
}

/// Putting two heads in front, one after the other, is putting both in
/// front at once.
pub proof fn lemma_prefixed_twice<T, E>(
    a: Seq<T>,
    used_a: nat,
    b: Seq<T>,
    used_b: nat,
    tail: Parsed<Seq<T>, E>,
)
    ensures
        prefixed(a, used_a, prefixed(b, used_b, tail)) == prefixed(a + b, used_a + used_b, tail),
{
    match tail {
        MatchOutcome::Complete((vs, n)) => {
            assert(a + (b + vs) =~= (a + b) + vs);
        },
        _ => {},
    }
}

/// Putting nothing in front changes nothing.
pub proof fn lemma_prefixed_nothing<T, E>(tail: Parsed<Seq<T>, E>)
    ensures
        prefixed(Seq::<T>::empty(), 0, tail) == tail,
{
    match tail {
        MatchOutcome::Complete((vs, n)) => {
            assert(Seq::<T>::empty() + vs =~= vs);
        },
        _ => {},
    }
}

/// A rule that did not match has left the buffer as it found it.
pub proof fn lemma_unmatched_leaves_buffer<T, E>(
    before: Seq<u8>,
    after: Seq<u8>,
    model: Parsed<T, E>,
    res: MatchOutcome<T, E>,
)
    requires
        consumed(before, after, model, res),
        !(res is Complete),
    ensures
        after == before,
        after.len() == before.len(),
{
}

/// What a rule makes of an input stands when more input arrives: unless
/// it is pending on the shorter input, it gives the same on the longer.
pub open spec fn settled<T, E>(on_short: Parsed<T, E>, on_long: Parsed<T, E>) -> bool {
    on_short is Pending || on_long == on_short
}

/// A match takes no more octets than the input holds.
pub open spec fn within<T, E>(s: Seq<u8>, model: Parsed<T, E>) -> bool {
    model matches MatchOutcome::Complete((_, n)) ==> n <= s.len()
}

/// Feeding a rule its input in two parts gives what feeding it at once
/// gives.
///
/// A rule whose model is settled is called on the first part of the input
/// and, for comparison, on all of it. If the call on the first part is
/// pending, it has left the buffer as it was, so that a second call after
/// the rest has arrived is the call on all of the input. If it is not
/// pending, the call on all of the input gives the same outcome, and
/// leaves in the buffer what the call on the first part left, with the
/// rest behind it.
pub proof fn lemma_resumable<T, E>(
    first: Seq<u8>,
    rest: Seq<u8>,
    on_first: Parsed<T, E>,
    on_all: Parsed<T, E>,
    after_first: Seq<u8>,
    res_first: MatchOutcome<T, E>,
    after_all: Seq<u8>,
    res_all: MatchOutcome<T, E>,
)
    requires
        settled(on_first, on_all),
        consumed(first, after_first, on_first, res_first),
        consumed(first + rest, after_all, on_all, res_all),
    ensures
        res_first is Pending ==> after_first == first,
        !(res_first is Pending) ==> res_all == res_first && after_all == after_first + rest,
{
    match on_first {
        MatchOutcome::Complete((v, n)) => {
            assert((first + rest).skip(n as int) =~= first.skip(n as int) + rest);
        },
        MatchOutcome::Pending => {},
        MatchOutcome::Failed(e) => {
            assert(after_first + rest =~= first + rest);
        },
    }
}

} // verus!
