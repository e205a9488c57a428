//! Folds over caller-supplied kernels.
//!
//! A kernel is an executable function of which only its `call_ensures` relation is known.
//! [`reaches`] lifts such a one-step relation to a sequence of events, which lets a
//! contract say exactly which steps were taken, and in which order.

use vstd::prelude::*;

verus! {

/// `states` holds the states before and after each of the steps `events`.
pub open spec fn is_run<S, E>(
    step: spec_fn(S, E, S) -> bool,
    events: Seq<E>,
    states: Seq<S>,
) -> bool {
    &&& states.len() == events.len() + 1
    &&& forall|i: int|
        #![trigger states[i], events[i]]
        0 <= i < events.len() ==> step(states[i], events[i], states[i + 1])
}

/// `s1` can be the state after the steps `events`, taken in order from the state `s0`.
pub open spec fn reaches<S, E>(
    step: spec_fn(S, E, S) -> bool,
    events: Seq<E>,
    s0: S,
    s1: S,
) -> bool {
    exists|states: Seq<S>| #[trigger]
        is_run(step, events, states) && states[0] == s0 && states.last() == s1
}

/// No event leaves the state as it is.
pub proof fn lemma_reaches_nothing<S, E>(step: spec_fn(S, E, S) -> bool, s0: S, s1: S)
    ensures
        reaches(step, Seq::<E>::empty(), s0, s1) <==> s0 == s1,
{
    if s0 == s1 {
        assert(is_run(step, Seq::<E>::empty(), seq![s0]));
    }
}

/// One more event extends a fold by one step.
pub proof fn lemma_reaches_push<S, E>(
    step: spec_fn(S, E, S) -> bool,
    events: Seq<E>,
    s0: S,
    m: S,
    e: E,
    s1: S,
)
    requires
        reaches(step, events, s0, m),
        step(m, e, s1),
    ensures
        reaches(step, events.push(e), s0, s1),
{
    let states = choose|states: Seq<S>| #[trigger]
        is_run(step, events, states) && states[0] == s0 && states.last() == m;
    let longer = states.push(s1);
    assert forall|i: int|
        #![trigger longer[i], events.push(e)[i]]
        0 <= i < events.push(e).len() implies step(longer[i], events.push(e)[i], longer[i + 1]) by {
        if i < events.len() {
            assert(step(states[i], events[i], states[i + 1]));
        }
    }
    assert(is_run(step, events.push(e), longer));
}

/// A fold over one more event ends with a step from where the shorter fold ended.
pub proof fn lemma_reaches_last<S, E>(
    step: spec_fn(S, E, S) -> bool,
    events: Seq<E>,
    s0: S,
    s1: S,
) -> (m: S)
    requires
        events.len() > 0,
        reaches(step, events, s0, s1),
    ensures
        reaches(step, events.drop_last(), s0, m),
        step(m, events.last(), s1),
{
    let states = choose|states: Seq<S>| #[trigger]
        is_run(step, events, states) && states[0] == s0 && states.last() == s1;
    let shorter = states.drop_last();
    let fewer = events.drop_last();
    assert forall|i: int|
        #![trigger shorter[i], fewer[i]]
        0 <= i < fewer.len() implies step(shorter[i], fewer[i], shorter[i + 1]) by {
        assert(step(states[i], events[i], states[i + 1]));
    }
    assert(is_run(step, fewer, shorter));
    let n = events.len() - 1;
    assert(step(states[n], events[n], states[n + 1]));
    shorter.last()
}

/// Two folds in a row are one fold over the joined events.
pub proof fn lemma_reaches_append<S, E>(
    step: spec_fn(S, E, S) -> bool,
    first: Seq<E>,
    second: Seq<E>,
    s0: S,
    m: S,
    s1: S,
)
    requires
        reaches(step, first, s0, m),
        reaches(step, second, m, s1),
    ensures
        reaches(step, first + second, s0, s1),
    decreases second.len(),
{
    if second.len() == 0 {
        assert(second =~= Seq::<E>::empty());
        lemma_reaches_nothing(step, m, s1);
        assert(first + second =~= first);
    } else {
        let n = lemma_reaches_last(step, second, m, s1);
        lemma_reaches_append(step, first, second.drop_last(), s0, m, n);
        lemma_reaches_push(step, first + second.drop_last(), s0, n, second.last(), s1);
        assert((first + second.drop_last()).push(second.last()) =~= first + second);
    }
}

/// `0, 1, .., n - 1`.
pub open spec fn upto(n: nat) -> Seq<int> {
    Seq::new(n, |i: int| i)
}

pub proof fn lemma_upto_push(n: nat)
    ensures
        upto(n).push(n as int) == upto(n + 1),
{
    assert(upto(n).push(n as int) =~= upto(n + 1));
}

} // verus!
