//! The routing guarantees, stated and proved over the run model.
//!
//! Each public proof function here states one guarantee of a whole run in
//! terms of the same spec functions that the executable functions' contracts
//! use, so a caller can carry a contract of `route`, `run_ids` or
//! `from_lines` to the stream-level statement it needs.

use vstd::prelude::*;
use crate::ident_set::IdSet;
use crate::ident_set::lines_to_ids;
use crate::routing::all_finite;
use crate::routing::lemma_first_match_spec;
use crate::routing::lemma_step_finite;
use crate::routing::spec_first_match;
use crate::routing::spec_step;
use crate::driver::count_routed_to;
use crate::driver::lemma_run_outcome_at;
use crate::driver::lemma_run_outcomes_len;
use crate::driver::run_outcomes;
use crate::driver::run_sets;

verus! {

/// A record goes to some bucket exactly when its identifier sits in some
/// bucket's set at the moment the record is evaluated — that is, in the sets
/// as the records before it left them — and the bucket it goes to is the
/// first one that then holds the identifier. A record whose identifier sits
/// in no set at that moment goes to no bucket at all.
pub proof fn lemma_written_iff_requested(sets: Seq<Set<Seq<char>>>, ids: Seq<Seq<char>>, j: int)
    requires
        0 <= j < ids.len(),
    ensures
        ({
            let outcomes = run_outcomes(sets, ids);
            let sets_then = run_sets(sets, ids.take(j));
            &&& outcomes.len() == ids.len()
            &&& ((outcomes[j] is Some) <==> exists|i: int|
                0 <= i < sets_then.len() && (#[trigger] sets_then[i]).contains(ids[j]))
            &&& match outcomes[j] {
                Some(i) => 0 <= i < sets_then.len() && sets_then[i].contains(ids[j]) && (forall|
                    k: int,
                |
                    0 <= k < i ==> !(#[trigger] sets_then[k]).contains(ids[j])),
                None => forall|k: int|
                    0 <= k < sets_then.len() ==> !(#[trigger] sets_then[k]).contains(ids[j]),
            }
        }),
{
    let outcomes = run_outcomes(sets, ids);
    let sets_then = run_sets(sets, ids.take(j));
    lemma_run_outcomes_len(sets, ids);
    lemma_run_outcome_at(sets, ids, j);
    lemma_first_match_spec(sets_then, ids[j]);
    match outcomes[j] {
        Some(i) => {
            assert(0 <= i < sets_then.len() && sets_then[i].contains(ids[j]));
        },
        None => {},
    }
}

/// First-match priority: when an identifier sits in both of two buckets'
/// sets and two records with that identifier arrive in sequence, the first
/// record goes to the first bucket, whose set loses the identifier, and the
/// second record therefore goes to the second bucket.
pub proof fn lemma_first_match_priority(s1: Set<Seq<char>>, s2: Set<Seq<char>>, id: Seq<char>)
    requires
        s1.contains(id),
        s2.contains(id),
    ensures
        run_outcomes(seq![s1, s2], seq![id, id]) == seq![Some(0int), Some(1int)],
        run_sets(seq![s1, s2], seq![id, id]) == seq![s1.remove(id), s2.remove(id)],
{
    let sets = seq![s1, s2];
    let ids = seq![id, id];
    assert(spec_first_match(sets, id) == Some(0int));
    let sets1 = spec_step(sets, id);
    assert(sets1 == sets.update(0, s1.remove(id)));
    assert(sets1[0] == s1.remove(id));
    assert(!sets1[0].contains(id));
    let rest = sets1.skip(1);
    assert(rest.len() == 1);
    assert(rest[0] == s2);
    assert(spec_first_match(rest, id) == Some(0int));
    assert(spec_first_match(sets1, id) == Some(1int));
    let sets2 = spec_step(sets1, id);
    assert(sets2 == sets1.update(1, s2.remove(id)));
    let ids1 = ids.skip(1);
    assert(ids1 =~= seq![id]);
    assert(ids[0] == id);
    assert(ids1[0] == id);
    let none_left = ids1.skip(1);
    assert(none_left =~= Seq::<Seq<char>>::empty());
    assert(run_sets(sets, ids) == run_sets(sets1, ids1));
    assert(run_sets(sets1, ids1) == run_sets(sets2, none_left));
    assert(run_sets(sets2, none_left) == sets2);
    assert(sets2 =~= seq![s1.remove(id), s2.remove(id)]);
    assert(run_outcomes(sets, ids) == seq![Some(0int)] + run_outcomes(sets1, ids1));
    assert(run_outcomes(sets1, ids1) == seq![Some(1int)] + run_outcomes(sets2, none_left));
    assert(run_outcomes(sets2, none_left) == Seq::<Option<int>>::empty());
    assert(run_outcomes(sets, ids) =~= seq![Some(0int), Some(1int)]);
}

/// A bucket's leftover count after a run is the size its set started with,
/// minus the number of records the run routed to that bucket: every routed
/// record consumes exactly one requested identifier of its bucket.
pub proof fn lemma_leftover_count(sets: Seq<Set<Seq<char>>>, ids: Seq<Seq<char>>, i: int)
    requires
        0 <= i < sets.len(),
        all_finite(sets),
    ensures
        run_sets(sets, ids)[i].finite(),
        run_sets(sets, ids)[i].len() == sets[i].len() - count_routed_to(
            run_outcomes(sets, ids),
            i,
        ),
    decreases ids.len(),
{
    if ids.len() > 0 {
        let id = ids[0];
        let stepped = spec_step(sets, id);
        lemma_first_match_spec(sets, id);
        lemma_step_finite(sets, id);
        lemma_leftover_count(stepped, ids.skip(1), i);
        let outcomes = run_outcomes(sets, ids);
        assert(outcomes[0] == spec_first_match(sets, id));
        assert(outcomes.skip(1) =~= run_outcomes(stepped, ids.skip(1)));
        match spec_first_match(sets, id) {
            Some(k) => {
                if k == i {
                    assert(sets[i].contains(id));
                    assert(stepped[i] == sets[i].remove(id));
                    assert(sets[i].len() == sets[i].remove(id).len() + 1);
                } else {
                    assert(stepped[i] == sets[i]);
                }
            },
            None => {
                assert(stepped == sets);
            },
        }
    }
}

/// Loading the same text source twice, in two separate runs, yields
/// identical sets: the loaded set is a function of the source's lines alone,
/// with no dependence on load order or timing.
pub proof fn lemma_load_idempotent(first: IdSet, second: IdSet, lines: Seq<Seq<char>>)
    requires
        first@ == lines_to_ids(lines),
        second@ == lines_to_ids(lines),
    ensures
        first@ == second@,
{
}

/// `a` can be read off `b` left to right without reordering: `b` with some
/// elements dropped.
pub open spec fn is_subsequence_of(a: Seq<Seq<char>>, b: Seq<Seq<char>>) -> bool
    decreases b.len(),
{
    if a.len() == 0 {
        true
    } else if b.len() == 0 {
        false
    } else if a[0] == b[0] {
        is_subsequence_of(a.skip(1), b.skip(1))
    } else {
        is_subsequence_of(a, b.skip(1))
    }
}

/// Dropping the first element of a subsequence leaves a subsequence.
proof fn lemma_subsequence_drop_head(a: Seq<Seq<char>>, b: Seq<Seq<char>>)
    requires
        a.len() > 0,
        is_subsequence_of(a, b),
    ensures
        is_subsequence_of(a.skip(1), b),
    decreases a.len() + b.len(),
{
    if b.len() > 0 {
        if a[0] == b[0] {
            lemma_subsequence_weaken(a.skip(1), b);
        } else {
            lemma_subsequence_drop_head(a, b.skip(1));
            lemma_subsequence_weaken(a.skip(1), b);
        }
    }
}

/// A subsequence of a sequence without its first element is a subsequence of
/// the whole sequence.
proof fn lemma_subsequence_weaken(a: Seq<Seq<char>>, b: Seq<Seq<char>>)
    requires
        b.len() > 0,
        is_subsequence_of(a, b.skip(1)),
    ensures
        is_subsequence_of(a, b),
    decreases a.len() + b.len(),
{
    if a.len() > 0 && a[0] == b[0] {
        lemma_subsequence_drop_head(a, b.skip(1));
    }
}

/// The identifiers of the records a run wrote to one bucket, in the order
/// they were written: the input identifiers at the positions whose outcome
/// named that bucket.
pub open spec fn bucket_written(
    ids: Seq<Seq<char>>,
    outcomes: Seq<Option<int>>,
    i: int,
) -> Seq<Seq<char>>
    decreases ids.len(),
{
    if ids.len() == 0 {
        Seq::empty()
    } else {
        let rest = bucket_written(ids.skip(1), outcomes.skip(1), i);
        if outcomes[0] == Some(i) {
            seq![ids[0]] + rest
        } else {
            rest
        }
    }
}

/// Selecting the positions routed to one bucket keeps the input's relative
/// order.
proof fn lemma_bucket_written_subsequence(ids: Seq<Seq<char>>, outcomes: Seq<Option<int>>, i: int)
    requires
        outcomes.len() == ids.len(),
    ensures
        is_subsequence_of(bucket_written(ids, outcomes, i), ids),
    decreases ids.len(),
{
    if ids.len() > 0 {
        lemma_bucket_written_subsequence(ids.skip(1), outcomes.skip(1), i);
        let rest = bucket_written(ids.skip(1), outcomes.skip(1), i);
        if outcomes[0] == Some(i) {
            let whole = seq![ids[0]] + rest;
            assert(whole[0] == ids[0]);
            assert(whole.skip(1) =~= rest);
        } else {
            lemma_subsequence_weaken(rest, ids);
        }
    }
}

/// Every identifier a run writes to a bucket sat in that bucket's set when
/// the run began: a bucket only receives records it asked for.
pub proof fn lemma_written_were_requested(sets: Seq<Set<Seq<char>>>, ids: Seq<Seq<char>>, i: int)
    requires
        0 <= i < sets.len(),
    ensures
        bucket_written(ids, run_outcomes(sets, ids), i).to_set().subset_of(sets[i]),
    decreases ids.len(),
{
    let outs = run_outcomes(sets, ids);
    let written = bucket_written(ids, outs, i);
    lemma_run_outcomes_len(sets, ids);
    if ids.len() > 0 {
        let id = ids[0];
        let stepped = spec_step(sets, id);
        lemma_first_match_spec(sets, id);
        assert(stepped.len() == sets.len());
        assert(outs[0] == spec_first_match(sets, id));
        assert(outs.skip(1) =~= run_outcomes(stepped, ids.skip(1)));
        lemma_written_were_requested(stepped, ids.skip(1), i);
        let rest = bucket_written(ids.skip(1), outs.skip(1), i);
        assert(forall|x: Seq<char>| stepped[i].contains(x) ==> sets[i].contains(x));
        assert forall|x: Seq<char>| written.contains(x) implies sets[i].contains(x) by {
            if outs[0] == Some(i) {
                assert(written == seq![id] + rest);
                let k = choose|k: int| 0 <= k < written.len() && written[k] == x;
                if k == 0 {
                    assert(x == id);
                    assert(sets[i].contains(id));
                } else {
                    assert(rest[k - 1] == x);
                    assert(rest.contains(x));
                    assert(rest.to_set().contains(x));
                }
            } else {
                assert(written == rest);
                assert(rest.to_set().contains(x));
            }
        }
    }
}

/// A run writes, per bucket, at most one record per identifier: the record
/// that claims an identifier removes it from the bucket's set, so no later
/// record with the same identifier reaches the same bucket. (It may still
/// reach a different bucket whose own set lists the identifier.)
pub proof fn lemma_identifier_claimed_once(sets: Seq<Set<Seq<char>>>, ids: Seq<Seq<char>>, i: int)
    requires
        0 <= i < sets.len(),
    ensures
        bucket_written(ids, run_outcomes(sets, ids), i).no_duplicates(),
    decreases ids.len(),
{
    let outs = run_outcomes(sets, ids);
    let written = bucket_written(ids, outs, i);
    lemma_run_outcomes_len(sets, ids);
    if ids.len() > 0 {
        let id = ids[0];
        let stepped = spec_step(sets, id);
        lemma_first_match_spec(sets, id);
        assert(stepped.len() == sets.len());
        assert(outs[0] == spec_first_match(sets, id));
        assert(outs.skip(1) =~= run_outcomes(stepped, ids.skip(1)));
        lemma_identifier_claimed_once(stepped, ids.skip(1), i);
        let rest = bucket_written(ids.skip(1), outs.skip(1), i);
        if outs[0] == Some(i) {
            assert(written == seq![id] + rest);
            lemma_written_were_requested(stepped, ids.skip(1), i);
            assert(stepped[i] == sets[i].remove(id));
            assert(!stepped[i].contains(id));
            assert forall|a: int, b: int| 0 <= a < b < written.len() implies written[a]
                != written[b] by {
                if a == 0 {
                    assert(written[b] == rest[b - 1]);
                    assert(rest.contains(rest[b - 1]));
                    assert(rest.to_set().contains(rest[b - 1]));
                    assert(stepped[i].contains(rest[b - 1]));
                } else {
                    assert(written[a] == rest[a - 1]);
                    assert(written[b] == rest[b - 1]);
                }
            }
        } else {
            assert(written == rest);
        }
    }
}

/// Output order preservation: for any bucket, the sequence of identifiers of
/// the records a run writes to it is a subsequence of the input stream's
/// identifier sequence — same relative order, nothing reordered.
pub proof fn lemma_output_order_preserved(sets: Seq<Set<Seq<char>>>, ids: Seq<Seq<char>>, i: int)
    ensures
        is_subsequence_of(bucket_written(ids, run_outcomes(sets, ids), i), ids),
{
    lemma_run_outcomes_len(sets, ids);
    lemma_bucket_written_subsequence(ids, run_outcomes(sets, ids), i);
}

} // verus!
