//! What holds of every search, whatever the store, the filter and the similarities are.

use vstd::prelude::*;
use crate::error::SearchError;
use crate::index::{
    first_failure, judged, lemma_matching, lemma_outcome_when_failing, matching, paired, reached,
    results, search_outcome, EntryView, ScoredView,
};
use crate::metadata::satisfies;
use crate::ranking::{
    leading, lemma_leading_are_given, lemma_ranked_descending, lemma_ranked_len,
    lemma_ranked_ties, lower, ranked, Hit,
};
use crate::score::{is_finite, ordinal};

verus! {

/// What the caller of a query sees of an outcome: the results where the search succeeded, and
/// nothing where it failed.
pub open spec fn opened(outcome: Result<Seq<ScoredView>, SearchError>) -> Seq<ScoredView> {
    match outcome {
        Ok(found) => found,
        Err(_) => Seq::empty(),
    }
}

/// Where some comparison fails, one of them is the first to fail.
pub proof fn lemma_failure_has_first(
    store: Seq<EntryView>,
    dimension: usize,
    candidates: Seq<usize>,
    similarities: Seq<u32>,
    j: int,
)
    requires
        0 <= j < candidates.len(),
        judged(store, dimension, candidates, similarities, j) is Err,
    ensures
        exists|first: int|
            0 <= first <= j && first_failure(store, dimension, candidates, similarities, first),
    decreases j,
{
    if reached(store, dimension, candidates, similarities, j) {
        assert(first_failure(store, dimension, candidates, similarities, j));
    } else {
        let i = choose|i: int|
            0 <= i < j && (#[trigger] judged(store, dimension, candidates, similarities, i)) is Err;
        lemma_failure_has_first(store, dimension, candidates, similarities, i);
    }
}

/// A search succeeds exactly where every candidate has the length of the probe and a finite
/// similarity.
pub proof fn lemma_success_iff_all_scored(
    store: Seq<EntryView>,
    dimension: usize,
    k: usize,
    filter: Map<Seq<char>, Seq<char>>,
    similarities: Seq<u32>,
)
    ensures
        ({
            let candidates = matching(store, filter);
            search_outcome(store, dimension, k, filter, similarities) is Ok <==> forall|j: int|
                0 <= j < candidates.len() ==> store[(#[trigger] candidates[j]) as int].vector.len()
                    == dimension && is_finite(similarities[j])
        }),
{
    let candidates = matching(store, filter);
    if search_outcome(store, dimension, k, filter, similarities) is Ok {
        assert forall|j: int| 0 <= j < candidates.len() implies store[(#[trigger] candidates[j])
            as int].vector.len() == dimension && is_finite(similarities[j]) by {
            if judged(store, dimension, candidates, similarities, j) is Err {
                lemma_failure_has_first(store, dimension, candidates, similarities, j);
            }
        }
    } else {
        let j = choose|j: int| first_failure(store, dimension, candidates, similarities, j);
        let at = candidates[j] as int;
        assert(!(store[at].vector.len() == dimension && is_finite(similarities[j])));
    }
}

/// A search that fails names the first candidate, in the order of the store, whose comparison
/// fails: a mismatch of dimensions with the length of the probe and the length of that
/// candidate, or numerical instability where the lengths agree and the similarity is not finite.
pub proof fn lemma_failure_names_first(
    store: Seq<EntryView>,
    dimension: usize,
    k: usize,
    filter: Map<Seq<char>, Seq<char>>,
    similarities: Seq<u32>,
)
    requires
        search_outcome(store, dimension, k, filter, similarities) is Err,
    ensures
        ({
            let candidates = matching(store, filter);
            let error = search_outcome(store, dimension, k, filter, similarities)->Err_0;
            exists|j: int|
                #![trigger first_failure(store, dimension, candidates, similarities, j)]
                first_failure(store, dimension, candidates, similarities, j) && {
                    let got = store[candidates[j] as int].vector.len();
                    if got != dimension {
                        error == (SearchError::DimensionMismatch {
                            expected: dimension,
                            got: got as usize,
                        })
                    } else {
                        error == SearchError::NumericalInstability && !is_finite(similarities[j])
                    }
                }
        }),
{
    let candidates = matching(store, filter);
    let j = choose|j: int| first_failure(store, dimension, candidates, similarities, j);
    assert(first_failure(store, dimension, candidates, similarities, j));
}

/// A search over the empty store succeeds and finds nothing, whatever it is asked.
pub proof fn lemma_empty_store_finds_nothing(
    dimension: usize,
    k: usize,
    filter: Map<Seq<char>, Seq<char>>,
    similarities: Seq<u32>,
)
    ensures
        search_outcome(Seq::<EntryView>::empty(), dimension, k, filter, similarities) == Ok::<
            Seq<ScoredView>,
            SearchError,
        >(Seq::empty()),
{
    let store = Seq::<EntryView>::empty();
    let candidates = matching(store, filter);
    assert(candidates =~= Seq::<usize>::empty());
    assert(paired(candidates, similarities) =~= Seq::<Hit>::empty());
    assert(results(store, leading(ranked(paired(candidates, similarities)), k as int))
        =~= Seq::<ScoredView>::empty());
}

/// A search that succeeds returns `k` results, or one for each entry that satisfies the filter
/// where these are fewer. So a query never returns more than `k` results, nor more than there are
/// entries that satisfy the filter.
pub proof fn lemma_result_count(
    store: Seq<EntryView>,
    dimension: usize,
    k: usize,
    filter: Map<Seq<char>, Seq<char>>,
    similarities: Seq<u32>,
)
    ensures
        ({
            let outcome = search_outcome(store, dimension, k, filter, similarities);
            let candidates = matching(store, filter);
            &&& outcome is Ok ==> outcome->Ok_0.len() == if k <= candidates.len() {
                k as int
            } else {
                candidates.len() as int
            }
            &&& opened(outcome).len() <= k
            &&& opened(outcome).len() <= candidates.len()
        }),
{
    lemma_ranked_len(paired(matching(store, filter), similarities));
}

/// With `k` zero a query returns nothing, whatever the store holds.
pub proof fn lemma_zero_k_finds_nothing(
    store: Seq<EntryView>,
    dimension: usize,
    filter: Map<Seq<char>, Seq<char>>,
    similarities: Seq<u32>,
)
    ensures
        opened(search_outcome(store, dimension, 0, filter, similarities)).len() == 0,
{
    lemma_result_count(store, dimension, 0, filter, similarities);
}

/// The results come best first: no result has a lower score than one behind it.
pub proof fn lemma_results_descend(
    store: Seq<EntryView>,
    dimension: usize,
    k: usize,
    filter: Map<Seq<char>, Seq<char>>,
    similarities: Seq<u32>,
)
    ensures
        ({
            let found = opened(search_outcome(store, dimension, k, filter, similarities));
            forall|i: int, j: int|
                0 <= i < j < found.len() ==> ordinal(found[i].score) >= ordinal(found[j].score)
        }),
{
    let hits = paired(matching(store, filter), similarities);
    let row = ranked(hits);
    let found = opened(search_outcome(store, dimension, k, filter, similarities));
    lemma_ranked_descending(hits);
    lemma_ranked_len(hits);
    assert forall|i: int, j: int| 0 <= i < j < found.len() implies ordinal(found[i].score)
        >= ordinal(found[j].score) by {
        assert(leading(row, k as int)[i] == row[i]);
        assert(leading(row, k as int)[j] == row[j]);
        assert(found[i].score == row[i].score);
        assert(found[j].score == row[j].score);
        assert(!lower(row[i], row[j]));
    }
}

/// Every result is an entry of the store that satisfies the filter, with its identifier, its
/// metadata and a finite score.
pub proof fn lemma_results_are_candidates(
    store: Seq<EntryView>,
    dimension: usize,
    k: usize,
    filter: Map<Seq<char>, Seq<char>>,
    similarities: Seq<u32>,
    i: int,
)
    requires
        store.len() <= usize::MAX,
        0 <= i < opened(search_outcome(store, dimension, k, filter, similarities)).len(),
    ensures
        ({
            let result = opened(search_outcome(store, dimension, k, filter, similarities))[i];
            &&& is_finite(result.score)
            &&& exists|at: int|
                0 <= at < store.len() && satisfies(#[trigger] store[at].metadata, filter)
                    && store[at].id == result.id && store[at].metadata == result.metadata
        }),
{
    let candidates = matching(store, filter);
    let hits = paired(candidates, similarities);
    lemma_matching(store, filter);
    lemma_ranked_len(hits);
    lemma_success_iff_all_scored(store, dimension, k, filter, similarities);
    lemma_leading_are_given(hits, k as int, i);
    let hit = leading(ranked(hits), k as int)[i];
    let j = choose|j: int| 0 <= j < hits.len() && hits[j] == hit;
    let at = candidates[j] as int;
    assert(satisfies(store[at].metadata, filter));
}

/// Candidates of one score are ranked in the order of the store: of two of them, the one that
/// stands earlier in the store stands earlier in the ranking.
pub proof fn lemma_ties_keep_store_order(
    store: Seq<EntryView>,
    filter: Map<Seq<char>, Seq<char>>,
    similarities: Seq<u32>,
)
    requires
        store.len() <= usize::MAX,
    ensures
        ({
            let row = ranked(paired(matching(store, filter), similarities));
            forall|i: int, j: int|
                0 <= i < j < row.len() && ordinal(row[i].score) == ordinal(row[j].score)
                    ==> row[i].entry < row[j].entry
        }),
{
    let hits = paired(matching(store, filter), similarities);
    lemma_matching(store, filter);
    lemma_ranked_ties(hits);
}

/// An entry that satisfies the filter and whose vector has another length than the probe fails
/// the search, so that the query returns nothing.
pub proof fn lemma_mismatch_finds_nothing(
    store: Seq<EntryView>,
    dimension: usize,
    k: usize,
    filter: Map<Seq<char>, Seq<char>>,
    similarities: Seq<u32>,
    at: int,
)
    requires
        store.len() <= usize::MAX,
        0 <= at < store.len(),
        satisfies(store[at].metadata, filter),
        store[at].vector.len() != dimension,
    ensures
        search_outcome(store, dimension, k, filter, similarities) is Err,
        opened(search_outcome(store, dimension, k, filter, similarities)).len() == 0,
{
    let candidates = matching(store, filter);
    lemma_matching(store, filter);
    assert(candidates.contains(at as usize));
    let j = choose|j: int| 0 <= j < candidates.len() && candidates[j] == at as usize;
    lemma_failure_has_first(store, dimension, candidates, similarities, j);
    let first = choose|first: int|
        0 <= first <= j && first_failure(store, dimension, candidates, similarities, first);
    lemma_outcome_when_failing(store, dimension, k, filter, similarities, first);
}

} // verus!
