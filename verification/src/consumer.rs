//! What takes the solutions that a search finds.
//!
//! A search hands every solution it finds to a consumer, which answers
//! `Continue` or `Abort`. After an `Abort` the search hands out nothing more.

use crate::exact_cover::SolvingState;
use vstd::prelude::*;

verus! {

/// One solution as it was handed out, with the answer that came back.
pub struct Handed<T> {
    pub solution: T,
    pub verdict: SolvingState,
}

/// The receiving end of a search.
pub(crate) trait Consumer {
    /// Everything this consumer was handed so far, first to last.
    spec fn seen(&self) -> Seq<Handed<Vec<usize>>>;

    /// This consumer may be handed `rows`.
    spec fn accepts(&self, rows: Vec<usize>) -> bool;

    /// `verdict` is an answer that this consumer may give when handed `rows`.
    spec fn answers(&self, rows: Vec<usize>, verdict: SolvingState) -> bool;

    spec fn wf(&self) -> bool;

    fn consume(&mut self, rows: Vec<usize>) -> (verdict: SolvingState)
        requires
            old(self).wf(),
            old(self).accepts(rows),
        ensures
            final(self).wf(),
            final(self).seen() == old(self).seen().push(Handed { solution: rows, verdict }),
            old(self).answers(rows, verdict),
            forall|r: Vec<usize>| final(self).accepts(r) == old(self).accepts(r),
            forall|r: Vec<usize>, v: SolvingState|
                final(self).answers(r, v) == old(self).answers(r, v),
    ;
}

/// Row numbers as integers.
pub open spec fn as_rows(rows: Seq<usize>) -> Seq<int> {
    rows.map_values(|r: usize| r as int)
}

/// `fresh` is what a search hands out that is to find `expected`, when the
/// flag is `before` at its start and `after` at its end: nothing under
/// `Abort`; else the solutions of `expected` in order, up to and with the
/// first that is answered by `Abort`, which sets the flag.
pub open spec fn obeys(
    expected: Seq<Seq<int>>,
    fresh: Seq<Handed<Vec<usize>>>,
    before: SolvingState,
    after: SolvingState,
) -> bool {
    if before is Abort {
        fresh.len() == 0 && after is Abort
    } else {
        &&& fresh.len() <= expected.len()
        &&& forall|i: int|
            0 <= i < fresh.len() ==> as_rows((#[trigger] fresh[i]).solution@) == expected[i]
        &&& forall|i: int| 0 <= i < fresh.len() - 1 ==> (#[trigger] fresh[i]).verdict is Continue
        &&& after == if fresh.len() > 0 {
            fresh.last().verdict
        } else {
            SolvingState::Continue
        }
        &&& after is Continue ==> fresh.len() == expected.len()
    }
}

/// Two searches in a row hand out what one search for both would.
pub proof fn lemma_obeys_concat(
    expected1: Seq<Seq<int>>,
    fresh1: Seq<Handed<Vec<usize>>>,
    expected2: Seq<Seq<int>>,
    fresh2: Seq<Handed<Vec<usize>>>,
    before: SolvingState,
    between: SolvingState,
    after: SolvingState,
)
    requires
        obeys(expected1, fresh1, before, between),
        obeys(expected2, fresh2, between, after),
    ensures
        obeys(expected1 + expected2, fresh1 + fresh2, before, after),
{
    let expected = expected1 + expected2;
    let fresh = fresh1 + fresh2;
    if before is Continue {
        if between is Abort {
            assert(fresh =~= fresh1);
        }
        assert forall|i: int| 0 <= i < fresh.len() implies as_rows(
            (#[trigger] fresh[i]).solution@,
        ) == expected[i] by {
            if i < fresh1.len() {
                assert(fresh[i] == fresh1[i]);
            } else {
                assert(fresh[i] == fresh2[i - fresh1.len()]);
            }
        }
        assert forall|i: int| 0 <= i < fresh.len() - 1 implies (
        #[trigger] fresh[i]).verdict is Continue by {
            if i < fresh1.len() {
                assert(fresh[i] == fresh1[i]);
            } else {
                assert(fresh[i] == fresh2[i - fresh1.len()]);
            }
        }
    } else {
        assert(fresh =~= fresh1);
    }
}

/// What `after` has been handed since it was `before`.
pub(crate) open spec fn fresh<C: Consumer>(before: C, after: C) -> Seq<Handed<Vec<usize>>> {
    after.seen().skip(before.seen().len() as int)
}

/// `after` is the consumer `before` at a later time: it has seen what
/// `before` had seen and then some more, to each of which it gave an answer
/// that it may give.
pub(crate) open spec fn handed_on<C: Consumer>(before: C, after: C) -> bool {
    &&& after.wf()
    &&& before.seen().len() <= after.seen().len()
    &&& after.seen().take(before.seen().len() as int) == before.seen()
    &&& forall|r: Vec<usize>| after.accepts(r) == before.accepts(r)
    &&& forall|r: Vec<usize>, v: SolvingState| after.answers(r, v) == before.answers(r, v)
    &&& forall|i: int|
        before.seen().len() <= i < after.seen().len() ==> before.answers(
            (#[trigger] after.seen()[i]).solution,
            after.seen()[i].verdict,
        )
}

/// A consumer that has been handed nothing is as it was.
pub(crate) proof fn lemma_handed_on_none<C: Consumer>(consumer: C)
    requires
        consumer.wf(),
    ensures
        handed_on(consumer, consumer),
        fresh(consumer, consumer) == Seq::<Handed<Vec<usize>>>::empty(),
{
    assert(consumer.seen().take(consumer.seen().len() as int) =~= consumer.seen());
    assert(fresh(consumer, consumer) =~= Seq::<Handed<Vec<usize>>>::empty());
}

/// What a consumer is handed in two stretches of time.
pub(crate) proof fn lemma_handed_on_then<C: Consumer>(before: C, between: C, after: C)
    requires
        handed_on(before, between),
        handed_on(between, after),
    ensures
        handed_on(before, after),
        fresh(before, after) == fresh(before, between) + fresh(between, after),
{
    let n = before.seen().len() as int;
    let m = between.seen().len() as int;
    assert(after.seen().take(n) =~= before.seen()) by {
        assert forall|i: int| 0 <= i < n implies after.seen().take(n)[i] == before.seen()[i] by {
            assert(after.seen().take(m)[i] == between.seen()[i]);
            assert(between.seen().take(n)[i] == before.seen()[i]);
        }
    }
    assert forall|i: int| n <= i < after.seen().len() implies before.answers(
        (#[trigger] after.seen()[i]).solution,
        after.seen()[i].verdict,
    ) by {
        if i < m {
            assert(after.seen().take(m)[i] == between.seen()[i]);
            assert(before.answers(between.seen()[i].solution, between.seen()[i].verdict));
        } else {
            assert(between.answers(after.seen()[i].solution, after.seen()[i].verdict));
        }
    }
    assert(fresh(before, after) =~= fresh(before, between) + fresh(between, after)) by {
        assert forall|i: int| 0 <= i < m - n implies fresh(before, after)[i] == fresh(
            before,
            between,
        )[i] by {
            assert(after.seen().take(m)[n + i] == between.seen()[n + i]);
        }
    }
}

/// A consumer that hands every solution on to a function.
pub(crate) struct Callback<F> {
    pub(crate) callback: F,
    pub(crate) log: Ghost<Seq<Handed<Vec<usize>>>>,
}

impl<F: FnMut(Vec<usize>) -> SolvingState> Consumer for Callback<F> {
    open spec fn seen(&self) -> Seq<Handed<Vec<usize>>> {
        self.log@
    }

    open spec fn accepts(&self, rows: Vec<usize>) -> bool {
        call_requires(self.callback, (rows,))
    }

    open spec fn answers(&self, rows: Vec<usize>, verdict: SolvingState) -> bool {
        call_ensures(self.callback, (rows,), verdict)
    }

    open spec fn wf(&self) -> bool {
        true
    }

    fn consume(&mut self, rows: Vec<usize>) -> (verdict: SolvingState) {
        let ghost handed = rows;
        let verdict = (self.callback)(rows);
        proof {
            self.log@ = self.log@.push(Handed { solution: handed, verdict });
        }
        verdict
    }
}

} // verus!
