//! Backing stores: what the cache asks of them.

use crate::envelope::{views, CultCacheEnvelope, EnvelopeView};
use crate::error::{outcome, CultCacheError, FailureView};
use crate::rows::rows_outcome;
use vstd::prelude::*;

verus! {

/// How all rows of a store are to be replaced.
#[derive(Clone, Copy, Debug, PartialEq, Eq, Structural)]
pub struct PushAllOptions {
    pub soft: bool,
}

impl Default for PushAllOptions {
    fn default() -> (options: Self)
        ensures
            !options.soft,
    {
        PushAllOptions { soft: false }
    }
}

/// What a store is taken to hold.
pub type StoreState = Seq<EnvelopeView>;

/// How a store may answer, and what each answer leaves it holding.
pub struct StoreRules {
    /// Holding this, the store may answer a request for its rows like this.
    pub pulls: spec_fn(StoreState, Result<Seq<EnvelopeView>, FailureView>) -> bool,
    /// Holding this, the store may answer the push of a row like this and then hold that.
    pub pushes: spec_fn(StoreState, EnvelopeView, Result<(), FailureView>, StoreState) -> bool,
    /// Holding this, the store may answer the deletion of a row like this and then hold that.
    pub deletes: spec_fn(StoreState, EnvelopeView, Result<(), FailureView>, StoreState) -> bool,
    /// Holding this, the store may answer the replacement of all rows like this and then hold
    /// that.
    pub replaces: spec_fn(
        StoreState,
        Seq<EnvelopeView>,
        PushAllOptions,
        Result<(), FailureView>,
        StoreState,
    ) -> bool,
}

/// The rules of a store of which nothing is known.
pub open spec fn any_rules() -> StoreRules {
    StoreRules {
        pulls: |held: StoreState, rows: Result<Seq<EnvelopeView>, FailureView>| true,
        pushes: |
            held: StoreState,
            entry: EnvelopeView,
            answer: Result<(), FailureView>,
            after: StoreState,
        | true,
        deletes: |
            held: StoreState,
            entry: EnvelopeView,
            answer: Result<(), FailureView>,
            after: StoreState,
        | true,
        replaces: |
            held: StoreState,
            entries: Seq<EnvelopeView>,
            options: PushAllOptions,
            answer: Result<(), FailureView>,
            after: StoreState,
        | true,
    }
}

/// The step at `i` where all rows are replaced one by one: first the rows at hand are deleted, then
/// the new ones pushed.
pub open spec fn replacing_step(
    rules: StoreRules,
    pulled: Seq<EnvelopeView>,
    entries: Seq<EnvelopeView>,
    i: int,
    before: StoreState,
    answer: Result<(), FailureView>,
    after: StoreState,
) -> bool {
    if i < pulled.len() {
        (rules.deletes)(before, pulled[i], answer, after)
    } else {
        (rules.pushes)(before, entries[i - pulled.len()], answer, after)
    }
}

/// The first steps were carried out; `states` are what the store held before and after each.
pub open spec fn steps_done(
    rules: StoreRules,
    pulled: Seq<EnvelopeView>,
    entries: Seq<EnvelopeView>,
    states: Seq<StoreState>,
) -> bool {
    &&& states.len() > 0
    &&& forall|i: int|
        #![trigger states[i]]
        0 <= i < states.len() - 1 ==> replacing_step(
            rules,
            pulled,
            entries,
            i,
            states[i],
            Ok(()),
            states[i + 1],
        )
}

/// All rows were replaced one by one, up to the first step that failed.
pub open spec fn replaces_stepwise(
    rules: StoreRules,
    before: StoreState,
    pulled: Seq<EnvelopeView>,
    entries: Seq<EnvelopeView>,
    answer: Result<(), FailureView>,
    after: StoreState,
) -> bool {
    exists|states: Seq<StoreState>|
        {
            &&& #[trigger] steps_done(rules, pulled, entries, states)
            &&& states[0] == before
            &&& match answer {
                Ok(_) => states.len() == pulled.len() + entries.len() + 1 && states.last() == after,
                Err(_) => states.len() <= pulled.len() + entries.len() && replacing_step(
                    rules,
                    pulled,
                    entries,
                    states.len() - 1,
                    states.last(),
                    answer,
                    after,
                ),
            }
        }
}

/// The rows at hand were pulled and all rows replaced one by one; or they could not be pulled.
pub open spec fn replaces_row_by_row(
    rules: StoreRules,
    before: StoreState,
    entries: Seq<EnvelopeView>,
    answer: Result<(), FailureView>,
    after: StoreState,
) -> bool {
    ||| exists|pulled: Seq<EnvelopeView>| #[trigger]
        replaces_stepwise(rules, before, pulled, entries, answer, after) && (rules.pulls)(
            before,
            Ok(pulled),
        )
    ||| answer is Err && (rules.pulls)(before, Err(answer->Err_0)) && after == before
}

/// One more step.
proof fn lemma_one_more_step(
    rules: StoreRules,
    pulled: Seq<EnvelopeView>,
    entries: Seq<EnvelopeView>,
    states: Seq<StoreState>,
    next: StoreState,
)
    requires
        steps_done(rules, pulled, entries, states),
        replacing_step(
            rules,
            pulled,
            entries,
            states.len() - 1,
            states.last(),
            Ok(()),
            next,
        ),
    ensures
        steps_done(rules, pulled, entries, states.push(next)),
{
    let more = states.push(next);
    assert forall|i: int| #![trigger more[i]] 0 <= i < more.len() - 1 implies replacing_step(
        rules,
        pulled,
        entries,
        i,
        more[i],
        Ok(()),
        more[i + 1],
    ) by {
        assert(more[i] == states[i]);
        if i < states.len() - 1 {
            assert(more[i + 1] == states[i + 1]);
        }
    }
}

/// Where a cache keeps its rows. What a store promises beyond the types is in its rules; a store
/// that says nothing of them promises nothing.
pub trait CacheBackingStore: Send {
    /// How the store may answer.
    open spec fn rules(&self) -> StoreRules {
        any_rules()
    }

    /// What the store is taken to hold.
    open spec fn held(&self) -> StoreState {
        Seq::empty()
    }

    /// The store's rows.
    fn pull_all(&self) -> (rows: Result<Vec<CultCacheEnvelope>, CultCacheError>)
        ensures
            (self.rules().pulls)(self.held(), rows_outcome(rows)),
    ;

    /// Stores one row in the place of the row of its identity.
    fn push(&mut self, entry: &CultCacheEnvelope) -> (done: Result<(), CultCacheError>)
        ensures
            final(self).rules() == old(self).rules(),
            (old(self).rules().pushes)(
                old(self).held(),
                entry@,
                outcome(done),
                final(self).held(),
            ),
    ;

    /// Deletes the row of an identity.
    fn delete(&mut self, entry: &CultCacheEnvelope) -> (done: Result<(), CultCacheError>)
        ensures
            final(self).rules() == old(self).rules(),
            (old(self).rules().deletes)(
                old(self).held(),
                entry@,
                outcome(done),
                final(self).held(),
            ),
    ;

    /// Replaces all rows by `entries`. A store that has no way of its own to do this goes
    /// [row by row](replace_row_by_row).
    fn push_all(&mut self, entries: &[CultCacheEnvelope], options: PushAllOptions) -> (done: Result<
        (),
        CultCacheError,
    >)
        ensures
            final(self).rules() == old(self).rules(),
            (old(self).rules().replaces)(
                old(self).held(),
                views(entries@),
                options,
                outcome(done),
                final(self).held(),
            ),
    ;
}

/// Replaces all rows of a store one by one: deletes the rows it has, then pushes `entries`, up to
/// the first request that fails.
pub fn replace_row_by_row<S: CacheBackingStore>(store: &mut S, entries: &[CultCacheEnvelope]) -> (
    done: Result<(), CultCacheError>)
    ensures
        final(store).rules() == old(store).rules(),
        replaces_row_by_row(
            old(store).rules(),
            old(store).held(),
            views(entries@),
            outcome(done),
            final(store).held(),
        ),
{
    let ghost rules = store.rules();
    let ghost before = store.held();
    let ghost all = views(entries@);
    let existing = match store.pull_all() {
        Ok(rows) => rows,
        Err(e) => {
            return Err(e);
        },
    };
    let ghost pulled = views(existing@);
    let ghost mut states: Seq<StoreState> = seq![before];
    let mut i: usize = 0;
    while i < existing.len()
        invariant
            i <= existing.len(),
            pulled == views(existing@),
            all == views(entries@),
            rules == old(store).rules(),
            store.rules() == rules,
            before == old(store).held(),
            (rules.pulls)(before, Ok(pulled)),
            states.len() == i + 1,
            states[0] == before,
            states.last() == store.held(),
            steps_done(rules, pulled, all, states),
        decreases existing.len() - i,
    {
        let done = store.delete(&existing[i]);
        match done {
            Ok(_) => {
                proof {
                    lemma_one_more_step(rules, pulled, all, states, store.held());
                    states = states.push(store.held());
                }
            },
            Err(e) => {
                assert(replaces_stepwise(
                    rules,
                    before,
                    pulled,
                    all,
                    Err::<(), FailureView>(e@),
                    store.held(),
                ));
                return Err(e);
            },
        }
        i = i + 1;
    }
    let mut j: usize = 0;
    while j < entries.len()
        invariant
            j <= entries.len(),
            all == views(entries@),
            rules == old(store).rules(),
            store.rules() == rules,
            before == old(store).held(),
            (rules.pulls)(before, Ok(pulled)),
            states.len() == pulled.len() + j + 1,
            states[0] == before,
            states.last() == store.held(),
            steps_done(rules, pulled, all, states),
        decreases entries.len() - j,
    {
        let done = store.push(&entries[j]);
        match done {
            Ok(_) => {
                proof {
                    lemma_one_more_step(rules, pulled, all, states, store.held());
                    states = states.push(store.held());
                }
            },
            Err(e) => {
                assert(replaces_stepwise(
                    rules,
                    before,
                    pulled,
                    all,
                    Err::<(), FailureView>(e@),
                    store.held(),
                ));
                return Err(e);
            },
        }
        j = j + 1;
    }
    assert(replaces_stepwise(rules, before, pulled, all, Ok(()), store.held()));
    Ok(())
}

} // verus!
