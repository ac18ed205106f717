//! The vocabulary in which the rules' contracts are written: octet
//! classes as predicates, runs of octets of a class, and the models of the
//! primitive rules on a given input.

use crate::outcome::prefixed;
use crate::outcome::settled;
use crate::outcome::within;
use crate::outcome::MatchOutcome;
use crate::outcome::Parsed;
use vstd::prelude::*;

verus! {

/// An octet class, as a predicate on octets.
pub type OctetClass = spec_fn(u8) -> bool;

/// The test `test` can be applied to every octet.
pub open spec fn total<O: FnOnce(u8) -> bool>(test: O) -> bool {
    forall|ch: u8| call_requires(test, (ch,))
}

/// The test `test` computes the class `class`: whatever it answers for an
/// octet is what the class says of that octet.
pub open spec fn decides<O: FnOnce(u8) -> bool>(test: O, class: OctetClass) -> bool {
    forall|ch: u8, b: bool| #[trigger] call_ensures(test, (ch,), b) ==> b == class(ch)
}

/// The length of the longest prefix of `s` whose octets are all in `class`.
pub open spec fn run_len(s: Seq<u8>, class: OctetClass) -> nat
    decreases s.len(),
{
    if s.len() == 0 || !class(s[0]) {
        0
    } else {
        1 + run_len(s.skip(1), class)
    }
}

/// A run is as long as the place of the first octet outside the class, or
/// as long as the input where there is no such octet.
pub proof fn lemma_run_len_is(s: Seq<u8>, class: OctetClass, n: nat)
    requires
        n <= s.len(),
        forall|i: int| 0 <= i < n ==> class(#[trigger] s[i]),
        n == s.len() || !class(s[n as int]),
    ensures
        run_len(s, class) == n,
    decreases n,
{
    if n > 0 {
        let t = s.skip(1);
        assert forall|i: int| 0 <= i < n - 1 implies class(#[trigger] t[i]) by {
            assert(t[i] == s[i + 1]);
        }
        lemma_run_len_is(t, class, (n - 1) as nat);
    }
}

/// What `lemma_run_len_is` asks for holds of every run.
pub proof fn lemma_run_len_bounds(s: Seq<u8>, class: OctetClass)
    ensures
        run_len(s, class) <= s.len(),
        forall|i: int| 0 <= i < run_len(s, class) ==> class(#[trigger] s[i]),
        run_len(s, class) == s.len() || !class(s[run_len(s, class) as int]),
    decreases s.len(),
{
    if s.len() > 0 && class(s[0]) {
        let t = s.skip(1);
        lemma_run_len_bounds(t, class);
        assert forall|i: int| 0 <= i < run_len(s, class) implies class(#[trigger] s[i]) by {
            if i > 0 {
                assert(s[i] == t[i - 1]);
            }
        }
    }
}

/// A run that ends before the end of the input is not changed by input
/// that arrives later.
pub proof fn lemma_run_len_stable(s: Seq<u8>, more: Seq<u8>, class: OctetClass)
    requires
        run_len(s, class) < s.len(),
    ensures
        run_len(s + more, class) == run_len(s, class),
{
    lemma_run_len_bounds(s, class);
    let n = run_len(s, class);
    let t = s + more;
    assert forall|i: int| 0 <= i < n implies class(#[trigger] t[i]) by {
        assert(t[i] == s[i]);
    }
    assert(t[n as int] == s[n as int]);
    lemma_run_len_is(t, class, n);
}

/// One octet of a class: pending on empty input, failed on an octet
/// outside the class.
pub open spec fn one_of<E>(s: Seq<u8>, class: OctetClass, err: E) -> Parsed<(), E> {
    if s.len() == 0 {
        MatchOutcome::Pending
    } else if class(s[0]) {
        MatchOutcome::Complete(((), 1))
    } else {
        MatchOutcome::Failed(err)
    }
}

/// One octet of a class if there is one: the value says whether there
/// was, and nothing is taken otherwise. Pending on empty input.
pub open spec fn maybe_one_of<E>(s: Seq<u8>, class: OctetClass) -> Parsed<bool, E> {
    if s.len() == 0 {
        MatchOutcome::Pending
    } else if class(s[0]) {
        MatchOutcome::Complete((true, 1))
    } else {
        MatchOutcome::Complete((false, 0))
    }
}

/// A possibly empty run of octets of a class, which is known to be over
/// only once an octet outside the class has been seen. The value says
/// whether the run holds any octet.
pub open spec fn any_of<E>(s: Seq<u8>, class: OctetClass) -> Parsed<bool, E> {
    let n = run_len(s, class);
    if n == s.len() {
        MatchOutcome::Pending
    } else {
        MatchOutcome::Complete((n > 0, n))
    }
}

/// A run of at least one octet of a class, which is known to be over only
/// once an octet outside the class has been seen.
pub open spec fn some_of<E>(s: Seq<u8>, class: OctetClass, err: E) -> Parsed<(), E> {
    let n = run_len(s, class);
    if n == s.len() {
        MatchOutcome::Pending
    } else if n == 0 {
        MatchOutcome::Failed(err)
    } else {
        MatchOutcome::Complete(((), n))
    }
}

/// The class that holds the one octet `value`.
pub open spec fn only(value: u8) -> OctetClass {
    |ch: u8| ch == value
}

/// An octet with an ASCII capital letter replaced by its small letter.
pub open spec fn folded(ch: u8) -> u8 {
    if 0x41 <= ch <= 0x5A {
        (ch + 0x20) as u8
    } else {
        ch
    }
}

/// An octet with an ASCII capital letter replaced by its small letter.
pub fn fold_case(ch: u8) -> (folded_ch: u8)
    ensures
        folded_ch == folded(ch),
{
    if ch >= 0x41 && ch <= 0x5A {
        ch + 0x20
    } else {
        ch
    }
}

/// The first `n` octets of `s` are those of `lit`, letter case aside.
pub open spec fn agree(s: Seq<u8>, lit: Seq<u8>, n: int) -> bool {
    forall|i: int| 0 <= i < n ==> folded(#[trigger] s[i]) == folded(lit[i])
}

/// A literal, matched without regard to letter case: failed as soon as
/// an octet differs, pending while the input is a proper prefix of the
/// literal.
pub open spec fn literally<E>(s: Seq<u8>, lit: Seq<u8>, err: E) -> Parsed<(), E> {
    let n = if s.len() < lit.len() { s.len() } else { lit.len() };
    if !agree(s, lit, n as int) {
        MatchOutcome::Failed(err)
    } else if n < lit.len() {
        MatchOutcome::Pending
    } else {
        MatchOutcome::Complete(((), lit.len()))
    }
}

/// One octet of a class is settled by the first octet.
pub proof fn lemma_one_of_settled<E>(s: Seq<u8>, more: Seq<u8>, class: OctetClass, err: E)
    ensures
        settled(one_of(s, class, err), one_of(s + more, class, err)),
        settled(maybe_one_of::<E>(s, class), maybe_one_of::<E>(s + more, class)),
{
    if s.len() > 0 {
        assert((s + more)[0] == s[0]);
    }
}

/// A run is settled by the octet that ends it.
pub proof fn lemma_runs_settled<E>(s: Seq<u8>, more: Seq<u8>, class: OctetClass, err: E)
    ensures
        settled(any_of::<E>(s, class), any_of::<E>(s + more, class)),
        settled(some_of(s, class, err), some_of(s + more, class, err)),
{
    lemma_run_len_bounds(s, class);
    if run_len(s, class) < s.len() {
        lemma_run_len_stable(s, more, class);
    }
}

/// A literal is settled by the first octet that differs, or by its last
/// octet.
pub proof fn lemma_literally_settled<E>(s: Seq<u8>, more: Seq<u8>, lit: Seq<u8>, err: E)
    ensures
        settled(literally(s, lit, err), literally(s + more, lit, err)),
{
    let t = s + more;
    let n = if s.len() < lit.len() {
        s.len()
    } else {
        lit.len()
    };
    let m = if t.len() < lit.len() {
        t.len()
    } else {
        lit.len()
    };
    if !agree(s, lit, n as int) {
        let i = choose|i: int| 0 <= i < n && folded(#[trigger] s[i]) != folded(lit[i]);
        assert(t[i] == s[i]);
    } else if n == lit.len() {
        assert forall|i: int| 0 <= i < m implies folded(#[trigger] t[i]) == folded(lit[i]) by {
            assert(t[i] == s[i]);
        }
    }
}

/// A rule, as the function that gives its model on each input.
pub type Rule<T, E> = spec_fn(Seq<u8>) -> Parsed<T, E>;

/// `count` matches of `unit`, one after the other.
pub open spec fn repeated<T, E>(s: Seq<u8>, unit: Rule<T, E>, count: nat) -> Parsed<Seq<T>, E>
    decreases count,
{
    if count == 0 {
        MatchOutcome::Complete((Seq::empty(), 0))
    } else {
        match unit(s) {
            MatchOutcome::Complete((v, n)) => prefixed(
                seq![v],
                n,
                repeated(s.skip(n as int), unit, (count - 1) as nat),
            ),
            MatchOutcome::Pending => MatchOutcome::Pending,
            MatchOutcome::Failed(e) => MatchOutcome::Failed(e),
        }
    }
}

/// The rule `unit` stays within its input `s`, and what it makes of `s`
/// stands when `more` arrives.
pub open spec fn steady<T, E>(unit: Rule<T, E>, s: Seq<u8>, more: Seq<u8>) -> bool {
    within(s, unit(s)) && settled(unit(s), unit(s + more))
}

/// Matches in a row of a steady rule are steady.
pub proof fn lemma_repeated_steady<T, E>(s: Seq<u8>, more: Seq<u8>, unit: Rule<T, E>, count: nat)
    requires
        forall|x: Seq<u8>, y: Seq<u8>| #[trigger] steady(unit, x, y),
    ensures
        within(s, repeated(s, unit, count)),
        settled(repeated(s, unit, count), repeated(s + more, unit, count)),
    decreases count,
{
    if count > 0 {
        assert(steady(unit, s, more));
        match unit(s) {
            MatchOutcome::Complete((v, n)) => {
                lemma_repeated_steady(s.skip(n as int), more, unit, (count - 1) as nat);
                assert((s + more).skip(n as int) =~= s.skip(n as int) + more);
            },
            _ => {},
        }
    }
}

} // verus!
