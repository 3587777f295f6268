//! The engine: the store together with the assignment of identifiers and the policy on failed
//! searches.

use vstd::prelude::*;
use crate::error::SearchError;
use crate::guarantees::{
    lemma_empty_store_finds_nothing, lemma_mismatch_finds_nothing, lemma_result_count,
    lemma_results_descend, opened,
};
use crate::ident::{holds_id, ids_differ, is_random_uuid, lemma_new_id_keeps_ids_apart, random_uuid};
use crate::index::{
    matching, outcome_view, scored_views, search_outcome, EntryView, InMemoryIndex, ScoredVector,
    VectorEntry,
};
use crate::metadata::{satisfies, Metadata};
use crate::score::ordinal;

verus! {

/// The policy on a search that failed: the caller gets no results, and no error. A search that
/// succeeded hands its results through.
pub fn fail_open(outcome: Result<Vec<ScoredVector>, SearchError>) -> (out: Vec<ScoredVector>)
    ensures
        scored_views(out@) == opened(outcome_view(outcome)),
        match outcome {
            Ok(found) => out == found,
            Err(_) => out@.len() == 0,
        },
{
    match outcome {
        Ok(found) => found,
        Err(_) => {
            let out: Vec<ScoredVector> = Vec::new();
            assert(scored_views(out@) =~= Seq::empty());
            out
        },
    }
}

/// The engine owns the store. Ingestion takes it exclusively, a query shares it.
pub struct Engine {
    index: InMemoryIndex,
}

impl View for Engine {
    type V = Seq<EntryView>;

    open spec fn view(&self) -> Seq<EntryView> {
        self.store()@
    }
}

impl Engine {
    /// The store that the engine owns.
    pub closed spec fn store(&self) -> InMemoryIndex {
        self.index
    }

    /// An engine with an empty store.
    pub fn new() -> (out: Engine)
        ensures
            out@ == Seq::<EntryView>::empty(),
    {
        Engine { index: InMemoryIndex::new() }
    }

    /// The store, to read.
    pub fn index(&self) -> (out: &InMemoryIndex)
        ensures
            *out == self.store(),
    {
        &self.index
    }

    /// The number of entries ingested so far.
    pub fn len(&self) -> (out: usize)
        ensures
            out == self@.len(),
    {
        self.index.len()
    }

    /// Whether nothing was ingested so far.
    pub fn is_empty(&self) -> (out: bool)
        ensures
            out == (self@.len() == 0),
    {
        self.index.is_empty()
    }

    /// Appends an entry under the identifier `id`. Nothing is asked of `id`: an identifier that
    /// the store holds already is stored a second time.
    pub fn ingest_as(&mut self, id: String, vector: Vec<u32>, metadata: Metadata)
        ensures
            final(self)@ == old(self)@.push(
                EntryView { id: id@, vector: vector@, metadata: metadata@ },
            ),
            final(self).store().entries() == old(self).store().entries().push(
                VectorEntry { id, vector, metadata },
            ),
            ids_differ(old(self)@) && !holds_id(old(self)@, id@) ==> ids_differ(final(self)@),
    {
        proof {
            if ids_differ(self@) && !holds_id(self@, id@) {
                lemma_new_id_keeps_ids_apart(
                    self@,
                    EntryView { id: id@, vector: vector@, metadata: metadata@ },
                );
            }
        }
        self.index.insert(VectorEntry { id, vector, metadata });
    }

    /// Ingests a vector with its metadata: appends it to the store under a newly drawn random
    /// identifier, and returns that identifier. This never fails; neither the vector nor the
    /// metadata is examined.
    ///
    /// The identifier is drawn at random and not compared with those in the store: that it is
    /// new is overwhelmingly likely, and not promised. Where it is new, the identifiers of the
    /// store stay pairwise different.
    pub fn ingest(&mut self, vector: Vec<u32>, metadata: Metadata) -> (id: String)
        ensures
            is_random_uuid(id@),
            final(self)@ == old(self)@.push(
                EntryView { id: id@, vector: vector@, metadata: metadata@ },
            ),
            ids_differ(old(self)@) && !holds_id(old(self)@, id@) ==> ids_differ(final(self)@),
    {
        let id = random_uuid();
        self.ingest_as(id.clone(), vector, metadata);
        id
    }

    /// Answers a query: the `k` entries most similar to `probe` among those whose metadata
    /// satisfies `filter`, best first. Where the search fails the answer is empty.
    ///
    /// `similarity` is called as in [`InMemoryIndex::search`].
    pub fn query<F>(&self, probe: Vec<u32>, k: usize, filter: Metadata, similarity: F) -> (out: Vec<
        ScoredVector,
    >) where F: Fn(&Vec<u32>, &Vec<u32>) -> u32
        requires
            forall|left: &Vec<u32>, right: &Vec<u32>|
                left@.len() == right@.len() ==> #[trigger] call_requires(similarity, (left, right)),
        ensures
            exists|similarities: Seq<u32>|
                #![trigger self.store().computed_by(&probe, filter@, similarity, similarities)]
                self.store().computed_by(&probe, filter@, similarity, similarities) && scored_views(
                    out@,
                ) == opened(search_outcome(self@, probe.len(), k, filter@, similarities)),
            out.len() <= k,
            out.len() <= matching(self@, filter@).len(),
            self@.len() == 0 ==> out.len() == 0,
            forall|i: int, j: int|
                0 <= i < j < out.len() ==> ordinal(out[i].score) >= ordinal(out[j].score),
            forall|at: int|
                0 <= at < self@.len() && satisfies((#[trigger] self@[at]).metadata, filter@)
                    && self@[at].vector.len() != probe.len() ==> out.len() == 0,
    {
        let outcome = self.index.search(&probe, k, filter, similarity);
        let out = fail_open(outcome);
        proof {
            let similarities = choose|similarities: Seq<u32>|
                #![trigger self.store().computed_by(&probe, filter@, similarity, similarities)]
                self.store().computed_by(&probe, filter@, similarity, similarities) && outcome_view(
                    outcome,
                ) == search_outcome(self@, probe.len(), k, filter@, similarities);
            lemma_result_count(self@, probe.len(), k, filter@, similarities);
            lemma_results_descend(self@, probe.len(), k, filter@, similarities);
            if self@.len() == 0 {
                assert(self@ =~= Seq::<EntryView>::empty());
                lemma_empty_store_finds_nothing(probe.len(), k, filter@, similarities);
            }
            let found = opened(search_outcome(self@, probe.len(), k, filter@, similarities));
            self.index.lemma_len_fits();
            assert forall|at: int|
                0 <= at < self@.len() && satisfies((#[trigger] self@[at]).metadata, filter@)
                    && self@[at].vector.len() != probe.len() implies found.len() == 0 by {
                lemma_mismatch_finds_nothing(self@, probe.len(), k, filter@, similarities, at);
            }
            assert(scored_views(out@) == found);
            assert(out@.len() == found.len());
            assert forall|i: int, j: int| 0 <= i < j < out.len() implies ordinal(out[i].score)
                >= ordinal(out[j].score) by {
                assert(scored_views(out@)[i].score == out[i].score);
                assert(scored_views(out@)[j].score == out[j].score);
            }
        }
        out
    }
}

impl Default for Engine {
    fn default() -> (out: Engine)
        ensures
            out@ == Seq::<EntryView>::empty(),
    {
        Engine::new()
    }
}

} // verus!
