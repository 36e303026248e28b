//! First-match routing of records over an ordered sequence of buckets.
//!
//! A router owns the buckets' identifier sets in priority order (the order
//! the text sources were supplied). Routing a record scans the buckets in
//! that order; the first bucket whose set still holds the record's identifier
//! claims the record and loses the identifier, so a later record with the
//! same identifier falls through to the next bucket that holds it.

use vstd::prelude::*;
use crate::ident_set::IdSet;

verus! {

/// The index of the first set that contains the identifier, in priority
/// order, or `None` when no set contains it.
pub open spec fn spec_first_match(sets: Seq<Set<Seq<char>>>, id: Seq<char>) -> Option<int>
    decreases sets.len(),
{
    if sets.len() == 0 {
        None
    } else if sets[0].contains(id) {
        Some(0int)
    } else {
        match spec_first_match(sets.skip(1), id) {
            Some(i) => Some(i + 1),
            None => None,
        }
    }
}

/// The buckets' sets after one record is routed: the first matching set
/// loses the identifier, every other set is untouched; on no match nothing
/// changes.
pub open spec fn spec_step(sets: Seq<Set<Seq<char>>>, id: Seq<char>) -> Seq<Set<Seq<char>>> {
    match spec_first_match(sets, id) {
        Some(i) => sets.update(i, sets[i].remove(id)),
        None => sets,
    }
}

/// Every bucket's set is finite.
pub open spec fn all_finite(sets: Seq<Set<Seq<char>>>) -> bool {
    forall|i: int| 0 <= i < sets.len() ==> (#[trigger] sets[i]).finite()
}

/// What `spec_first_match` returns: the matched index is in range, its set
/// contains the identifier, and no earlier set does; on `None` no set at all
/// contains the identifier.
pub proof fn lemma_first_match_spec(sets: Seq<Set<Seq<char>>>, id: Seq<char>)
    ensures
        match spec_first_match(sets, id) {
            Some(i) => 0 <= i < sets.len() && sets[i].contains(id) && (forall|j: int|
                0 <= j < i ==> !(#[trigger] sets[j]).contains(id)),
            None => forall|j: int| 0 <= j < sets.len() ==> !(#[trigger] sets[j]).contains(id),
        },
    decreases sets.len(),
{
    if sets.len() > 0 && !sets[0].contains(id) {
        let rest = sets.skip(1);
        lemma_first_match_spec(rest, id);
        assert(forall|j: int| 0 <= j < rest.len() ==> #[trigger] rest[j] == sets[j + 1]);
        match spec_first_match(rest, id) {
            Some(i) => {
                assert(spec_first_match(sets, id) == Some(i + 1));
                assert(sets[i + 1] == rest[i]);
                assert forall|j: int| 0 <= j < i + 1 implies !(#[trigger] sets[j]).contains(id) by {
                    if j > 0 {
                        assert(sets[j] == rest[j - 1]);
                        assert(!rest[j - 1].contains(id));
                    }
                }
            },
            None => {
                assert forall|j: int| 0 <= j < sets.len() implies !(#[trigger] sets[j]).contains(
                    id,
                ) by {
                    if j > 0 {
                        assert(sets[j] == rest[j - 1]);
                        assert(!rest[j - 1].contains(id));
                    }
                }
            },
        }
    }
}

/// Converse of `lemma_first_match_spec`: an in-range index whose set contains
/// the identifier, with no earlier set containing it, is the first match.
pub proof fn lemma_first_match_is(sets: Seq<Set<Seq<char>>>, id: Seq<char>, i: int)
    requires
        0 <= i < sets.len(),
        sets[i].contains(id),
        forall|j: int| 0 <= j < i ==> !(#[trigger] sets[j]).contains(id),
    ensures
        spec_first_match(sets, id) == Some(i),
    decreases sets.len(),
{
    if i > 0 {
        lemma_first_match_is(sets.skip(1), id, i - 1);
    }
}

/// No in-range set contains the identifier, so there is no match.
pub proof fn lemma_first_match_none(sets: Seq<Set<Seq<char>>>, id: Seq<char>)
    requires
        forall|j: int| 0 <= j < sets.len() ==> !(#[trigger] sets[j]).contains(id),
    ensures
        spec_first_match(sets, id) is None,
{
    lemma_first_match_spec(sets, id);
    if spec_first_match(sets, id) is Some {
        let i: int = spec_first_match(sets, id)->Some_0;
        assert(!sets[i].contains(id));
    }
}

/// One routing step keeps every set finite.
pub proof fn lemma_step_finite(sets: Seq<Set<Seq<char>>>, id: Seq<char>)
    requires
        all_finite(sets),
    ensures
        all_finite(spec_step(sets, id)),
        spec_step(sets, id).len() == sets.len(),
{
    lemma_first_match_spec(sets, id);
}

/// The outcome of routing one record: the index of the bucket that received
/// it, or nothing.
#[derive(Clone, Copy, Debug, PartialEq, Eq, Structural)]
pub enum RouteOutcome {
    Matched(usize),
    Unmatched,
}

/// The outcome as the model sees it.
pub open spec fn outcome_index(outcome: RouteOutcome) -> Option<int> {
    match outcome {
        RouteOutcome::Matched(i) => Some(i as int),
        RouteOutcome::Unmatched => None,
    }
}

impl RouteOutcome {
    /// Whether the record found a bucket.
    pub fn is_matched(&self) -> (b: bool)
        ensures
            b == (outcome_index(*self) is Some),
    {
        match self {
            RouteOutcome::Matched(_) => true,
            RouteOutcome::Unmatched => false,
        }
    }
}

/// The ordered buckets of one run: identifier sets in priority order.
pub struct BucketRouter {
    buckets: Vec<IdSet>,
}

impl View for BucketRouter {
    type V = Seq<Set<Seq<char>>>;

    closed spec fn view(&self) -> Seq<Set<Seq<char>>> {
        self.buckets@.map_values(|b: IdSet| b@)
    }
}

impl BucketRouter {
    /// A router with no buckets yet.
    pub fn new() -> (r: Self)
        ensures
            r@ == Seq::<Set<Seq<char>>>::empty(),
    {
        let r = BucketRouter { buckets: Vec::new() };
        proof {
            assert(r@ =~= Seq::<Set<Seq<char>>>::empty());
        }
        r
    }

    /// Appends one bucket; it gets the lowest priority so far, matching the
    /// order in which its text source was supplied.
    pub fn add_bucket(&mut self, set: IdSet)
        ensures
            final(self)@ == old(self)@.push(set@),
    {
        let ghost prev = self@;
        let ghost added = set@;
        self.buckets.push(set);
        proof {
            assert(self@ =~= prev.push(added));
        }
    }

    /// Builds the whole routing table at once: one bucket per text source,
    /// in the order the sources are given, which becomes the routing
    /// priority. Each source is its sequence of raw lines.
    pub fn from_sources(sources: &Vec<Vec<String>>) -> (r: Self)
        ensures
            r@.len() == sources@.len(),
            forall|i: int|
                0 <= i < sources@.len() ==> (#[trigger] r@[i]) == crate::ident_set::lines_to_ids(
                    crate::ident_set::id_views(sources@[i]@),
                ),
            all_finite(r@),
    {
        let mut r = BucketRouter::new();
        let n: usize = sources.len();
        let mut i: usize = 0;
        while i < n
            invariant
                n == sources@.len(),
                i <= n,
                r@.len() == i,
                forall|j: int|
                    0 <= j < i ==> (#[trigger] r@[j]) == crate::ident_set::lines_to_ids(
                        crate::ident_set::id_views(sources@[j]@),
                    ),
                all_finite(r@),
            decreases n - i,
        {
            let set = IdSet::from_lines(&sources[i]);
            r.add_bucket(set);
            i += 1;
        }
        r
    }

    /// The number of buckets.
    pub fn num_buckets(&self) -> (n: usize)
        ensures
            n == self@.len(),
    {
        self.buckets.len()
    }

    /// Routes one record by its identifier: scans the buckets in priority
    /// order, removes the identifier from the first set that holds it and
    /// reports that bucket's index; reports `Unmatched`, touching nothing,
    /// when no set holds it. The caller writes the record to the reported
    /// bucket's output, or drops it.
    pub fn route(&mut self, id: &str) -> (outcome: RouteOutcome)
        ensures
            outcome_index(outcome) == spec_first_match(old(self)@, id@),
            final(self)@ == spec_step(old(self)@, id@),
            match outcome {
                RouteOutcome::Matched(i) => i < old(self)@.len()
                    && old(self)@[i as int].contains(id@)
                    && (forall|j: int| 0 <= j < i ==> !(#[trigger] old(self)@[j]).contains(id@))
                    && final(self)@ == old(self)@.update(
                    i as int,
                    old(self)@[i as int].remove(id@),
                ),
                RouteOutcome::Unmatched => (forall|j: int|
                    0 <= j < old(self)@.len() ==> !(#[trigger] old(self)@[j]).contains(id@))
                    && final(self)@ == old(self)@,
            },
    {
        let n: usize = self.buckets.len();
        let mut i: usize = 0;
        while i < n
            invariant
                n == self.buckets@.len(),
                i <= n,
                self@ == old(self)@,
                forall|j: int| 0 <= j < i ==> !(#[trigger] old(self)@[j]).contains(id@),
            decreases n - i,
        {
            let ghost before = self@;
            let removed = self.buckets[i].remove(id);
            proof {
                assert(self@ =~= before.update(i as int, before[i as int].remove(id@)));
            }
            if removed {
                proof {
                    lemma_first_match_is(old(self)@, id@, i as int);
                }
                return RouteOutcome::Matched(i);
            }
            proof {
                assert(before[i as int].remove(id@) =~= before[i as int]);
                assert(self@ =~= old(self)@);
            }
            i += 1;
        }
        proof {
            lemma_first_match_none(old(self)@, id@);
        }
        RouteOutcome::Unmatched
    }

    /// The leftover count of every bucket, in priority order: how many of the
    /// bucket's requested identifiers no record ever satisfied.
    pub fn leftover_counts(&self) -> (counts: Vec<usize>)
        ensures
            counts@.len() == self@.len(),
            forall|i: int| 0 <= i < self@.len() ==> counts@[i] == (#[trigger] self@[i]).len(),
    {
        let n: usize = self.buckets.len();
        let mut counts: Vec<usize> = Vec::new();
        let mut i: usize = 0;
        while i < n
            invariant
                n == self.buckets@.len(),
                i <= n,
                counts@.len() == i,
                forall|j: int| 0 <= j < i ==> counts@[j] == (#[trigger] self@[j]).len(),
            decreases n - i,
        {
            counts.push(self.buckets[i].len());
            i += 1;
        }
        counts
    }
}

} // verus!
