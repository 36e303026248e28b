//! Driving a record stream through the router, and the run's summary.
//!
//! The record source is the caller's: it pulls records one at a time, hands
//! each record's identifier to the router, and tells the driver the outcome.
//! The driver only counts — totals have no effect on routing — and, at the
//! end of the stream, assembles the summary with every bucket's leftover
//! count. `run_ids` drives a whole in-memory identifier stream through a
//! router in one call and ties the result to the step-by-step model.

use vstd::prelude::*;
use crate::ident_set::id_views;
use crate::routing::BucketRouter;
use crate::routing::RouteOutcome;
use crate::routing::outcome_index;
use crate::routing::spec_first_match;
use crate::routing::spec_step;

verus! {

/// The buckets' sets after a whole identifier stream has been routed,
/// first record first.
pub open spec fn run_sets(sets: Seq<Set<Seq<char>>>, ids: Seq<Seq<char>>) -> Seq<Set<Seq<char>>>
    decreases ids.len(),
{
    if ids.len() == 0 {
        sets
    } else {
        run_sets(spec_step(sets, ids[0]), ids.skip(1))
    }
}

/// The outcome of every record of the stream, in arrival order.
pub open spec fn run_outcomes(sets: Seq<Set<Seq<char>>>, ids: Seq<Seq<char>>) -> Seq<Option<int>>
    decreases ids.len(),
{
    if ids.len() == 0 {
        Seq::empty()
    } else {
        seq![spec_first_match(sets, ids[0])] + run_outcomes(spec_step(sets, ids[0]), ids.skip(1))
    }
}

/// How many records of the stream were routed to the given bucket.
pub open spec fn count_routed_to(outcomes: Seq<Option<int>>, i: int) -> int
    decreases outcomes.len(),
{
    if outcomes.len() == 0 {
        0
    } else {
        (if outcomes[0] == Some(i) {
            1int
        } else {
            0int
        }) + count_routed_to(outcomes.skip(1), i)
    }
}

/// A run processes a stream one record at a time: routing a stream and one
/// more record is routing the stream, then the record against the sets the
/// stream left behind.
pub proof fn lemma_run_snoc(sets: Seq<Set<Seq<char>>>, ids: Seq<Seq<char>>, id: Seq<char>)
    ensures
        run_sets(sets, ids.push(id)) == spec_step(run_sets(sets, ids), id),
        run_outcomes(sets, ids.push(id)) == run_outcomes(sets, ids).push(
            spec_first_match(run_sets(sets, ids), id),
        ),
    decreases ids.len(),
{
    let snoc = ids.push(id);
    if ids.len() == 0 {
        assert(snoc[0] == id);
        assert(snoc.skip(1) =~= Seq::<Seq<char>>::empty());
        assert(run_sets(spec_step(sets, id), Seq::<Seq<char>>::empty()) == spec_step(sets, id));
        assert(run_outcomes(spec_step(sets, id), Seq::<Seq<char>>::empty())
            =~= Seq::<Option<int>>::empty());
        assert(run_outcomes(sets, snoc) =~= run_outcomes(sets, ids).push(
            spec_first_match(run_sets(sets, ids), id),
        ));
    } else {
        assert(snoc[0] == ids[0]);
        let stepped = spec_step(sets, ids[0]);
        lemma_run_snoc(stepped, ids.skip(1), id);
        assert(snoc.skip(1) =~= ids.skip(1).push(id));
        assert(run_outcomes(sets, snoc) =~= run_outcomes(sets, ids).push(
            spec_first_match(run_sets(sets, ids), id),
        ));
    }
}

/// A run produces one outcome per record.
pub proof fn lemma_run_outcomes_len(sets: Seq<Set<Seq<char>>>, ids: Seq<Seq<char>>)
    ensures
        run_outcomes(sets, ids).len() == ids.len(),
    decreases ids.len(),
{
    if ids.len() > 0 {
        lemma_run_outcomes_len(spec_step(sets, ids[0]), ids.skip(1));
    }
}

/// A run neither adds nor drops buckets.
pub proof fn lemma_run_sets_len(sets: Seq<Set<Seq<char>>>, ids: Seq<Seq<char>>)
    ensures
        run_sets(sets, ids).len() == sets.len(),
    decreases ids.len(),
{
    if ids.len() > 0 {
        crate::routing::lemma_first_match_spec(sets, ids[0]);
        lemma_run_sets_len(spec_step(sets, ids[0]), ids.skip(1));
    }
}

/// The outcome of the record at a position is the first match of its
/// identifier against the sets as the records before it left them.
pub proof fn lemma_run_outcome_at(sets: Seq<Set<Seq<char>>>, ids: Seq<Seq<char>>, j: int)
    requires
        0 <= j < ids.len(),
    ensures
        run_outcomes(sets, ids)[j] == spec_first_match(run_sets(sets, ids.take(j)), ids[j]),
    decreases j,
{
    lemma_run_outcomes_len(sets, ids);
    if j == 0 {
        assert(ids.take(0) =~= Seq::<Seq<char>>::empty());
    } else {
        let stepped = spec_step(sets, ids[0]);
        lemma_run_outcome_at(stepped, ids.skip(1), j - 1);
        assert(run_outcomes(sets, ids)[j] == run_outcomes(stepped, ids.skip(1))[j - 1]);
        assert(ids.skip(1).take(j - 1) =~= ids.take(j).skip(1));
        assert(ids.skip(1)[j - 1] == ids[j]);
        assert(run_sets(sets, ids.take(j)) == run_sets(
            spec_step(sets, ids.take(j)[0]),
            ids.take(j).skip(1),
        ));
    }
}

/// What a finished run reports: the stream's size, how many records found a
/// bucket, how many found none, and every bucket's leftover count in
/// priority order.
pub struct Summary {
    pub total: usize,
    pub matched: usize,
    pub unmatched: usize,
    pub leftovers: Vec<usize>,
}

/// The per-run counters the driver keeps while the stream is consumed.
pub struct StreamDriver {
    total: usize,
    matched: usize,
    unmatched: usize,
}

impl StreamDriver {
    /// The total number of records observed so far.
    pub closed spec fn spec_total(&self) -> int {
        self.total as int
    }

    /// The number of observed records that found a bucket.
    pub closed spec fn spec_matched(&self) -> int {
        self.matched as int
    }

    /// The number of observed records that found none.
    pub closed spec fn spec_unmatched(&self) -> int {
        self.unmatched as int
    }

    /// Every observed record either found a bucket or did not.
    pub open spec fn wf(&self) -> bool {
        self.spec_total() == self.spec_matched() + self.spec_unmatched()
    }

    /// A driver that has seen no records.
    pub fn new() -> (d: Self)
        ensures
            d.wf(),
            d.spec_total() == 0,
            d.spec_matched() == 0,
            d.spec_unmatched() == 0,
    {
        StreamDriver { total: 0, matched: 0, unmatched: 0 }
    }

    /// Counts one routed record. Counting is observability only: it never
    /// feeds back into routing.
    pub fn observe(&mut self, outcome: RouteOutcome)
        requires
            old(self).spec_total() < usize::MAX,
            old(self).wf(),
        ensures
            final(self).wf(),
            final(self).spec_total() == old(self).spec_total() + 1,
            final(self).spec_matched() == old(self).spec_matched() + (
            if outcome_index(outcome) is Some {
                1int
            } else {
                0int
            }),
            final(self).spec_unmatched() == old(self).spec_unmatched() + (
            if outcome_index(outcome) is Some {
                0int
            } else {
                1int
            }),
    {
        self.total = self.total + 1;
        match outcome {
            RouteOutcome::Matched(_) => {
                self.matched = self.matched + 1;
            },
            RouteOutcome::Unmatched => {
                self.unmatched = self.unmatched + 1;
            },
        }
    }

    /// The total number of records observed so far.
    pub fn total(&self) -> (n: usize)
        ensures
            n == self.spec_total(),
    {
        self.total
    }

    /// How many observed records found a bucket.
    pub fn matched(&self) -> (n: usize)
        ensures
            n == self.spec_matched(),
    {
        self.matched
    }

    /// How many observed records found none.
    pub fn unmatched(&self) -> (n: usize)
        ensures
            n == self.spec_unmatched(),
    {
        self.unmatched
    }

    /// Ends the run: reports the counters and every bucket's leftover count.
    pub fn finalize(&self, router: &BucketRouter) -> (s: Summary)
        ensures
            s.total == self.spec_total(),
            s.matched == self.spec_matched(),
            s.unmatched == self.spec_unmatched(),
            s.leftovers@.len() == router@.len(),
            forall|i: int| 0 <= i < router@.len() ==> s.leftovers@[i] == (#[trigger] router@[i]).len(),
    {
        Summary {
            total: self.total,
            matched: self.matched,
            unmatched: self.unmatched,
            leftovers: router.leftover_counts(),
        }
    }
}

/// Routes a whole identifier stream, first record first, and returns every
/// record's outcome in arrival order. The router's sets end exactly as the
/// step-by-step model says, and each outcome is the model's outcome for its
/// position.
pub fn run_ids(router: &mut BucketRouter, ids: &Vec<String>) -> (outcomes: Vec<RouteOutcome>)
    ensures
        final(router)@ == run_sets(old(router)@, id_views(ids@)),
        outcomes@.len() == ids@.len(),
        outcomes@.map_values(|o: RouteOutcome| outcome_index(o)) == run_outcomes(
            old(router)@,
            id_views(ids@),
        ),
{
    let ghost views = id_views(ids@);
    let n: usize = ids.len();
    let mut outcomes: Vec<RouteOutcome> = Vec::new();
    let mut i: usize = 0;
    proof {
        assert(views.take(0) =~= Seq::<Seq<char>>::empty());
        assert(outcomes@.map_values(|o: RouteOutcome| outcome_index(o)) =~= run_outcomes(
            router@,
            views.take(0),
        ));
    }
    while i < n
        invariant
            n == ids@.len(),
            i <= n,
            router@ == run_sets(old(router)@, views.take(i as int)),
            outcomes@.len() == i,
            outcomes@.map_values(|o: RouteOutcome| outcome_index(o)) == run_outcomes(
                old(router)@,
                views.take(i as int),
            ),
            views == id_views(ids@),
        decreases n - i,
    {
        let ghost prefix = views.take(i as int);
        let outcome = router.route(ids[i].as_str());
        outcomes.push(outcome);
        proof {
            lemma_run_snoc(old(router)@, prefix, views[i as int]);
            assert(prefix.push(views[i as int]) =~= views.take(i + 1));
            assert(outcomes@.map_values(|o: RouteOutcome| outcome_index(o)) =~= run_outcomes(
                old(router)@,
                prefix,
            ).push(outcome_index(outcome)));
        }
        i += 1;
    }
    proof {
        assert(views.take(n as int) =~= views);
    }
    outcomes
}

} // verus!
