//! The store of entries, and the exhaustive search over it.

use vstd::prelude::*;
use crate::error::SearchError;
use crate::metadata::{satisfies, Metadata};
use crate::ranking::{leading, lemma_leading_are_given, lemma_ranked_len, rank, ranked, Hit};
use crate::score::{judge, verdict};

verus! {

/// An ingested point: its identifier, its vector as binary32 bit patterns, and its metadata.
#[derive(Debug)]
pub struct VectorEntry {
    pub id: String,
    pub vector: Vec<u32>,
    pub metadata: Metadata,
}

/// What an entry holds, as mathematical values.
pub struct EntryView {
    pub id: Seq<char>,
    pub vector: Seq<u32>,
    pub metadata: Map<Seq<char>, Seq<char>>,
}

impl View for VectorEntry {
    type V = EntryView;

    open spec fn view(&self) -> EntryView {
        EntryView { id: self.id@, vector: self.vector@, metadata: self.metadata@ }
    }
}

/// One result of a query: identifier and metadata of the entry found, and its score as a
/// binary32 bit pattern. A higher score means a closer match.
#[derive(Debug)]
pub struct ScoredVector {
    pub id: String,
    pub score: u32,
    pub metadata: Metadata,
}

/// What a result holds, as mathematical values.
pub struct ScoredView {
    pub id: Seq<char>,
    pub score: u32,
    pub metadata: Map<Seq<char>, Seq<char>>,
}

impl View for ScoredVector {
    type V = ScoredView;

    open spec fn view(&self) -> ScoredView {
        ScoredView { id: self.id@, score: self.score, metadata: self.metadata@ }
    }
}

impl Clone for VectorEntry {
    fn clone(&self) -> (out: Self)
        ensures
            out@ == self@,
    {
        let vector = self.vector.clone();
        assert(vector@ =~= self.vector@);
        VectorEntry { id: self.id.clone(), vector, metadata: self.metadata.clone() }
    }
}

impl Clone for ScoredVector {
    fn clone(&self) -> (out: Self)
        ensures
            out@ == self@,
    {
        ScoredVector { id: self.id.clone(), score: self.score, metadata: self.metadata.clone() }
    }
}

/// The views of a list of results.
pub open spec fn scored_views(found: Seq<ScoredVector>) -> Seq<ScoredView> {
    found.map_values(|result: ScoredVector| result@)
}

/// The view of what a search returns.
pub open spec fn outcome_view(out: Result<Vec<ScoredVector>, SearchError>) -> Result<
    Seq<ScoredView>,
    SearchError,
> {
    match out {
        Ok(found) => Ok(scored_views(found@)),
        Err(error) => Err(error),
    }
}

/// The positions of the entries whose metadata satisfies `filter`, in ascending order.
pub open spec fn matching(store: Seq<EntryView>, filter: Map<Seq<char>, Seq<char>>) -> Seq<usize>
    decreases store.len(),
{
    if store.len() == 0 {
        Seq::empty()
    } else {
        let earlier = matching(store.drop_last(), filter);
        if satisfies(store.last().metadata, filter) {
            earlier.push((store.len() - 1) as usize)
        } else {
            earlier
        }
    }
}

/// The judgement on the `j`-th candidate: its score, or the reason why the comparison failed.
pub open spec fn judged(
    store: Seq<EntryView>,
    dimension: usize,
    candidates: Seq<usize>,
    similarities: Seq<u32>,
    j: int,
) -> Result<u32, SearchError> {
    let got = store[candidates[j] as int].vector.len();
    if got != dimension {
        Err(SearchError::DimensionMismatch { expected: dimension, got: got as usize })
    } else {
        verdict(dimension, dimension, similarities[j])
    }
}

/// Whether every candidate before the `j`-th was judged a score.
pub open spec fn reached(
    store: Seq<EntryView>,
    dimension: usize,
    candidates: Seq<usize>,
    similarities: Seq<u32>,
    j: int,
) -> bool {
    forall|i: int|
        0 <= i < j ==> (#[trigger] judged(store, dimension, candidates, similarities, i)) is Ok
}

/// Whether the `j`-th candidate is the first whose comparison fails.
pub open spec fn first_failure(
    store: Seq<EntryView>,
    dimension: usize,
    candidates: Seq<usize>,
    similarities: Seq<u32>,
    j: int,
) -> bool {
    &&& 0 <= j < candidates.len()
    &&& reached(store, dimension, candidates, similarities, j)
    &&& judged(store, dimension, candidates, similarities, j) is Err
}

/// The candidates, each with the similarity computed for it.
pub open spec fn paired(candidates: Seq<usize>, similarities: Seq<u32>) -> Seq<Hit> {
    Seq::new(candidates.len(), |j: int| Hit { entry: candidates[j], score: similarities[j] })
}

/// The results that a list of hits stands for.
pub open spec fn results(store: Seq<EntryView>, hits: Seq<Hit>) -> Seq<ScoredView> {
    Seq::new(
        hits.len(),
        |j: int|
            ScoredView {
                id: store[hits[j].entry as int].id,
                score: hits[j].score,
                metadata: store[hits[j].entry as int].metadata,
            },
    )
}

/// What a search over `store` returns for a probe of length `dimension`, where `similarities`
/// holds, for each entry that satisfies `filter`, the similarity of the probe with it.
///
/// The first comparison that fails, in the order of the store, fails the search with its reason.
/// Where none fails, the candidates are ranked by score and the first `k` are returned.
pub open spec fn search_outcome(
    store: Seq<EntryView>,
    dimension: usize,
    k: usize,
    filter: Map<Seq<char>, Seq<char>>,
    similarities: Seq<u32>,
) -> Result<Seq<ScoredView>, SearchError> {
    let candidates = matching(store, filter);
    if exists|j: int| first_failure(store, dimension, candidates, similarities, j) {
        let j = choose|j: int| first_failure(store, dimension, candidates, similarities, j);
        Err(judged(store, dimension, candidates, similarities, j)->Err_0)
    } else {
        Ok(results(store, leading(ranked(paired(candidates, similarities)), k as int)))
    }
}

/// The similarities `given`, filled up with zeros to the length `len`.
spec fn filled(given: Seq<u32>, len: nat) -> Seq<u32> {
    Seq::new(
        len,
        |j: int|
            if j < given.len() {
                given[j]
            } else {
                0u32
            },
    )
}

/// The candidates lie in the store, satisfy the filter and ascend; no entry that satisfies the
/// filter is left out.
pub proof fn lemma_matching(store: Seq<EntryView>, filter: Map<Seq<char>, Seq<char>>)
    requires
        store.len() <= usize::MAX,
    ensures
        matching(store, filter).len() <= store.len(),
        forall|j: int|
            0 <= j < matching(store, filter).len() ==> (#[trigger] matching(store, filter)[j])
                < store.len() && satisfies(
                store[matching(store, filter)[j] as int].metadata,
                filter,
            ),
        forall|i: int, j: int|
            0 <= i < j < matching(store, filter).len() ==> matching(store, filter)[i] < matching(
                store,
                filter,
            )[j],
        forall|at: int|
            0 <= at < store.len() && satisfies(#[trigger] store[at].metadata, filter)
                ==> matching(store, filter).contains(at as usize),
    decreases store.len(),
{
    if store.len() > 0 {
        let shorter = store.drop_last();
        let earlier = matching(shorter, filter);
        let all = matching(store, filter);
        lemma_matching(shorter, filter);
        assert forall|j: int| 0 <= j < all.len() implies (#[trigger] all[j]) < store.len()
            && satisfies(store[all[j] as int].metadata, filter) by {
            if j < earlier.len() {
                assert(all[j] == earlier[j]);
                assert(store[earlier[j] as int] == shorter[earlier[j] as int]);
            }
        }
        assert forall|i: int, j: int| 0 <= i < j < all.len() implies all[i] < all[j] by {
            assert(all[i] == earlier[i]);
            if j < earlier.len() {
                assert(all[j] == earlier[j]);
            }
        }
        assert forall|at: int|
            0 <= at < store.len() && satisfies(
                #[trigger] store[at].metadata,
                filter,
            ) implies all.contains(at as usize) by {
            if at < shorter.len() {
                assert(shorter[at] == store[at]);
                assert(earlier.contains(at as usize));
                let j = choose|j: int| 0 <= j < earlier.len() && earlier[j] == at as usize;
                assert(all[j] == at as usize);
            } else {
                assert(all[all.len() - 1] == at as usize);
            }
        }
    }
}

/// Only one candidate can be the first to fail.
pub proof fn lemma_first_failure_is_one(
    store: Seq<EntryView>,
    dimension: usize,
    candidates: Seq<usize>,
    similarities: Seq<u32>,
    a: int,
    b: int,
)
    requires
        first_failure(store, dimension, candidates, similarities, a),
        first_failure(store, dimension, candidates, similarities, b),
    ensures
        a == b,
{
    if a < b {
        assert(judged(store, dimension, candidates, similarities, a) is Ok);
    } else if b < a {
        assert(judged(store, dimension, candidates, similarities, b) is Ok);
    }
}

/// A search in which the `j`-th candidate is the first to fail returns its reason.
pub proof fn lemma_outcome_when_failing(
    store: Seq<EntryView>,
    dimension: usize,
    k: usize,
    filter: Map<Seq<char>, Seq<char>>,
    similarities: Seq<u32>,
    j: int,
)
    requires
        first_failure(store, dimension, matching(store, filter), similarities, j),
    ensures
        search_outcome(store, dimension, k, filter, similarities) == Err::<
            Seq<ScoredView>,
            SearchError,
        >(judged(store, dimension, matching(store, filter), similarities, j)->Err_0),
{
    let candidates = matching(store, filter);
    let chosen = choose|j: int| first_failure(store, dimension, candidates, similarities, j);
    lemma_first_failure_is_one(store, dimension, candidates, similarities, j, chosen);
}

/// A search in which no comparison fails returns the first `k` of the ranked candidates.
pub proof fn lemma_outcome_when_scored(
    store: Seq<EntryView>,
    dimension: usize,
    k: usize,
    filter: Map<Seq<char>, Seq<char>>,
    similarities: Seq<u32>,
)
    requires
        reached(
            store,
            dimension,
            matching(store, filter),
            similarities,
            matching(store, filter).len() as int,
        ),
    ensures
        search_outcome(store, dimension, k, filter, similarities) == Ok::<
            Seq<ScoredView>,
            SearchError,
        >(results(store, leading(ranked(paired(matching(store, filter), similarities)), k as int))),
{
    let candidates = matching(store, filter);
    assert forall|j: int| !first_failure(store, dimension, candidates, similarities, j) by {
        if 0 <= j < candidates.len() {
            assert(judged(store, dimension, candidates, similarities, j) is Ok);
        }
    }
}

/// The store of all ingested entries, in the order of their ingestion.
pub struct InMemoryIndex {
    store: Vec<VectorEntry>,
}

impl View for InMemoryIndex {
    type V = Seq<EntryView>;

    open spec fn view(&self) -> Seq<EntryView> {
        self.entries().map_values(|entry: VectorEntry| entry@)
    }
}

impl InMemoryIndex {
    /// The stored entries themselves.
    pub closed spec fn entries(&self) -> Seq<VectorEntry> {
        self.store@
    }

    /// Whether `similarities` holds, for every candidate that the scan compared with the probe,
    /// a value that `similarity` returned for the two vectors. A candidate is compared where
    /// no candidate before it failed and its vector has the length of the probe.
    pub open spec fn computed_by<F: Fn(&Vec<u32>, &Vec<u32>) -> u32>(
        &self,
        probe: &Vec<u32>,
        filter: Map<Seq<char>, Seq<char>>,
        similarity: F,
        similarities: Seq<u32>,
    ) -> bool {
        let candidates = matching(self@, filter);
        &&& similarities.len() == candidates.len()
        &&& forall|j: int|
            #![trigger similarities[j]]
            0 <= j < candidates.len() && reached(
                self@,
                probe.len(),
                candidates,
                similarities,
                j,
            ) && self@[candidates[j] as int].vector.len() == probe.len() ==> call_ensures(
                similarity,
                (probe, &self.entries()[candidates[j] as int].vector),
                similarities[j],
            )
    }

    /// The number of entries fits the machine's word.
    pub proof fn lemma_len_fits(&self)
        ensures
            self@.len() <= usize::MAX,
    {
        assert(self@.len() == self.store.len());
    }

    /// The index without any entry.
    pub fn new() -> (out: InMemoryIndex)
        ensures
            out@ == Seq::<EntryView>::empty(),
    {
        let out = InMemoryIndex { store: Vec::new() };
        assert(out@ =~= Seq::<EntryView>::empty());
        out
    }

    /// The number of entries.
    pub fn len(&self) -> (out: usize)
        ensures
            out == self@.len(),
    {
        self.store.len()
    }

    /// Whether the index holds no entry.
    pub fn is_empty(&self) -> (out: bool)
        ensures
            out == (self@.len() == 0),
    {
        self.store.len() == 0
    }

    /// The entry at position `at`, if there is one.
    pub fn get(&self, at: usize) -> (out: Option<&VectorEntry>)
        ensures
            match out {
                Some(entry) => at < self@.len() && *entry == self.entries()[at as int] && entry@
                    == self@[at as int],
                None => at >= self@.len(),
            },
    {
        if at < self.store.len() {
            Some(&self.store[at])
        } else {
            None
        }
    }

    /// Appends `entry` behind the entries that are there. Nothing is asked of the entry: neither
    /// of the length of its vector nor of its identifier.
    pub fn insert(&mut self, entry: VectorEntry)
        ensures
            final(self)@ == old(self)@.push(entry@),
            final(self).entries() == old(self).entries().push(entry),
    {
        self.store.push(entry);
        assert(self@ =~= old(self)@.push(entry@));
    }

    /// The positions of the entries whose metadata satisfies `filter`, in ascending order.
    pub fn candidates(&self, filter: &Metadata) -> (out: Vec<usize>)
        ensures
            out@ == matching(self@, filter@),
    {
        let mut out: Vec<usize> = Vec::new();
        let mut at: usize = 0;
        assert(self@.take(0) =~= Seq::<EntryView>::empty());
        while at < self.store.len()
            invariant
                at <= self.store.len(),
                self.store@.len() == self@.len(),
                out@ == matching(self@.take(at as int), filter@),
            decreases self.store.len() - at,
        {
            proof {
                assert(self@.take(at + 1).drop_last() =~= self@.take(at as int));
                assert(self@.take(at + 1).last() == self.store[at as int]@);
            }
            if self.store[at].metadata.matches(filter) {
                out.push(at);
            }
            at += 1;
        }
        assert(self@.take(self.store.len() as int) =~= self@);
        out
    }

    /// The results that `hits` stand for: each with the identifier and the metadata of its entry.
    fn collect(&self, hits: &Vec<Hit>) -> (out: Vec<ScoredVector>)
        requires
            forall|j: int| 0 <= j < hits.len() ==> (#[trigger] hits[j]).entry < self@.len(),
        ensures
            scored_views(out@) == results(self@, hits@),
    {
        let mut out: Vec<ScoredVector> = Vec::new();
        let mut j: usize = 0;
        while j < hits.len()
            invariant
                j <= hits.len(),
                self.store@.len() == self@.len(),
                forall|i: int| 0 <= i < hits.len() ==> (#[trigger] hits[i]).entry < self@.len(),
                out@.len() == j,
                scored_views(out@) == results(self@, hits@.take(j as int)),
            decreases hits.len() - j,
        {
            let hit = hits[j];
            let entry = &self.store[hit.entry];
            let result = ScoredVector {
                id: entry.id.clone(),
                score: hit.score,
                metadata: entry.metadata.clone(),
            };
            let ghost before = out@;
            out.push(result);
            proof {
                let shorter = results(self@, hits@.take(j as int));
                let longer = results(self@, hits@.take(j + 1));
                assert(result@ == longer[j as int]);
                assert forall|i: int| 0 <= i < j + 1 implies scored_views(out@)[i] == longer[i] by {
                    if i < j {
                        assert(out@[i] == before[i]);
                        assert(scored_views(before)[i] == shorter[i]);
                        assert(hits@.take(j as int)[i] == hits@.take(j + 1)[i]);
                    }
                }
                assert(scored_views(out@) =~= longer);
            }
            j += 1;
        }
        assert(hits@.take(hits.len() as int) =~= hits@);
        out
    }

    /// Without candidates nothing is compared, and the search finds nothing.
    proof fn lemma_no_candidates<F: Fn(&Vec<u32>, &Vec<u32>) -> u32>(
        &self,
        probe: &Vec<u32>,
        k: usize,
        filter: Map<Seq<char>, Seq<char>>,
        similarity: F,
    )
        requires
            matching(self@, filter).len() == 0,
        ensures
            self.computed_by(probe, filter, similarity, Seq::empty()),
            search_outcome(self@, probe.len(), k, filter, Seq::empty()) == Ok::<
                Seq<ScoredView>,
                SearchError,
            >(Seq::empty()),
    {
        let none = Seq::<u32>::empty();
        lemma_outcome_when_scored(self@, probe.len(), k, filter, none);
        assert(paired(matching(self@, filter), none) =~= Seq::<Hit>::empty());
        assert(results(self@, leading(ranked(Seq::<Hit>::empty()), k as int)) =~= Seq::<
            ScoredView,
        >::empty());
    }

    /// A scan that stops at a candidate whose comparison fails: with the similarities seen so
    /// far, the one that failed, and any values for the candidates that were not compared, the
    /// search has failed at that candidate.
    proof fn lemma_scan_stops<F: Fn(&Vec<u32>, &Vec<u32>) -> u32>(
        &self,
        probe: &Vec<u32>,
        k: usize,
        filter: Map<Seq<char>, Seq<char>>,
        similarity: F,
        seen: Seq<u32>,
        last: u32,
    )
        requires
            seen.len() < matching(self@, filter).len(),
            reached(self@, probe.len(), matching(self@, filter), seen, seen.len() as int),
            forall|i: int|
                0 <= i < seen.len() ==> call_ensures(
                    similarity,
                    (probe, &self.entries()[matching(self@, filter)[i] as int].vector),
                    #[trigger] seen[i],
                ),
            self@[matching(self@, filter)[seen.len() as int] as int].vector.len() == probe.len()
                ==> call_ensures(
                similarity,
                (probe, &self.entries()[matching(self@, filter)[seen.len() as int] as int].vector),
                last,
            ),
            judged(
                self@,
                probe.len(),
                matching(self@, filter),
                seen.push(last),
                seen.len() as int,
            ) is Err,
        ensures
            ({
                let candidates = matching(self@, filter);
                let all = filled(seen.push(last), candidates.len());
                &&& self.computed_by(probe, filter, similarity, all)
                &&& search_outcome(self@, probe.len(), k, filter, all) == Err::<
                    Seq<ScoredView>,
                    SearchError,
                >(
                    judged(
                        self@,
                        probe.len(),
                        candidates,
                        seen.push(last),
                        seen.len() as int,
                    )->Err_0,
                )
            }),
    {
        let candidates = matching(self@, filter);
        let at = seen.len() as int;
        let all = filled(seen.push(last), candidates.len());
        assert(all[at] == last);
        assert forall|i: int| 0 <= i < at implies (#[trigger] judged(
            self@,
            probe.len(),
            candidates,
            all,
            i,
        )) is Ok by {
            assert(all[i] == seen[i]);
            assert(judged(self@, probe.len(), candidates, seen, i) is Ok);
        }
        assert(first_failure(self@, probe.len(), candidates, all, at));
        lemma_outcome_when_failing(self@, probe.len(), k, filter, all, at);
        assert forall|i: int|
            #![trigger all[i]]
            0 <= i < candidates.len() && reached(self@, probe.len(), candidates, all, i)
                && self@[candidates[i] as int].vector.len() == probe.len() implies call_ensures(
            similarity,
            (probe, &self.entries()[candidates[i] as int].vector),
            all[i],
        ) by {
            if i < at {
                assert(all[i] == seen[i]);
            } else if i > at {
                assert(judged(self@, probe.len(), candidates, all, at) is Ok);
            }
        }
    }

    /// Finds the `k` entries that are most similar to `probe` among those whose metadata
    /// satisfies `filter`, best first; entries of equal score come in the order of the store.
    ///
    /// `similarity` computes the similarity of two vectors of one length as a binary32 bit
    /// pattern. It is called for the candidates in the order of the store, each with `probe`
    /// first and the candidate's vector second. The first comparison that fails ends the search
    /// with its reason: a candidate of another length than the probe, for which `similarity` is
    /// not called, or a similarity that is no finite number.
    pub fn search<F>(&self, probe: &Vec<u32>, k: usize, filter: Metadata, similarity: F) -> (out:
        Result<Vec<ScoredVector>, SearchError>) where F: Fn(&Vec<u32>, &Vec<u32>) -> u32
        requires
            forall|left: &Vec<u32>, right: &Vec<u32>|
                left@.len() == right@.len() ==> #[trigger] call_requires(similarity, (left, right)),
        ensures
            exists|similarities: Seq<u32>|
                #![trigger self.computed_by(probe, filter@, similarity, similarities)]
                self.computed_by(probe, filter@, similarity, similarities) && outcome_view(out)
                    == search_outcome(self@, probe.len(), k, filter@, similarities),
            match out {
                Ok(found) => found.len() == if k <= matching(self@, filter@).len() {
                    k as int
                } else {
                    matching(self@, filter@).len() as int
                },
                Err(_) => matching(self@, filter@).len() > 0,
            },
    {
        if self.store.is_empty() {
            let found: Vec<ScoredVector> = Vec::new();
            proof {
                assert(matching(self@, filter@) =~= Seq::<usize>::empty());
                self.lemma_no_candidates(probe, k, filter@, similarity);
                assert(scored_views(found@) =~= Seq::<ScoredView>::empty());
            }
            return Ok(found);
        }
        let candidates = self.candidates(&filter);
        if candidates.is_empty() {
            let found: Vec<ScoredVector> = Vec::new();
            proof {
                self.lemma_no_candidates(probe, k, filter@, similarity);
                assert(scored_views(found@) =~= Seq::<ScoredView>::empty());
            }
            return Ok(found);
        }
        proof {
            self.lemma_len_fits();
            lemma_matching(self@, filter@);
        }
        let count = candidates.len();
        let mut hits: Vec<Hit> = Vec::new();
        let ghost mut seen = Seq::<u32>::empty();
        let mut j: usize = 0;
        while j < count
            invariant
                j <= count,
                count == candidates.len(),
                candidates@ == matching(self@, filter@),
                self.store@ == self.entries(),
                self.store@.len() == self@.len(),
                forall|i: int| 0 <= i < count ==> (#[trigger] candidates[i]) < self@.len(),
                forall|left: &Vec<u32>, right: &Vec<u32>|
                    left@.len() == right@.len() ==> #[trigger] call_requires(
                        similarity,
                        (left, right),
                    ),
                seen.len() == j,
                hits@ == paired(candidates@.take(j as int), seen),
                reached(self@, probe.len(), candidates@, seen, j as int),
                forall|i: int|
                    0 <= i < j ==> call_ensures(
                        similarity,
                        (probe, &self.entries()[candidates[i] as int].vector),
                        #[trigger] seen[i],
                    ),
            decreases count - j,
        {
            let entry = &self.store[candidates[j]];
            let got = entry.vector.len();
            assert(self@[candidates[j as int] as int].vector.len() == got);
            if probe.len() != got {
                proof {
                    self.lemma_scan_stops(probe, k, filter@, similarity, seen, 0u32);
                }
                return Err(SearchError::DimensionMismatch { expected: probe.len(), got });
            }
            let computed = similarity(probe, &entry.vector);
            match judge(probe.len(), got, computed) {
                Ok(score) => {
                    hits.push(Hit { entry: candidates[j], score });
                    proof {
                        let longer = seen.push(computed);
                        assert forall|i: int| 0 <= i < j + 1 implies (#[trigger] judged(
                            self@,
                            probe.len(),
                            candidates@,
                            longer,
                            i,
                        )) is Ok by {
                            if i < j {
                                assert(longer[i] == seen[i]);
                                assert(judged(self@, probe.len(), candidates@, seen, i) is Ok);
                            }
                        }
                        assert(hits@ =~= paired(candidates@.take(j + 1), longer));
                        seen = longer;
                    }
                },
                Err(error) => {
                    proof {
                        self.lemma_scan_stops(probe, k, filter@, similarity, seen, computed);
                    }
                    return Err(error);
                },
            }
            j += 1;
        }
        let best = rank(&hits, k);
        proof {
            assert(candidates@.take(count as int) =~= candidates@);
            assert forall|i: int| 0 <= i < best.len() implies (#[trigger] best[i]).entry
                < self@.len() by {
                lemma_leading_are_given(hits@, k as int, i);
                let at = choose|at: int| 0 <= at < hits@.len() && hits@[at] == best[i];
                assert(hits@[at].entry == candidates[at]);
            }
            lemma_ranked_len(hits@);
        }
        let found = self.collect(&best);
        proof {
            lemma_outcome_when_scored(self@, probe.len(), k, filter@, seen);
            assert(self.computed_by(probe, filter@, similarity, seen));
            assert(scored_views(found@).len() == found@.len());
        }
        Ok(found)
    }
}

impl Default for InMemoryIndex {
    fn default() -> (out: InMemoryIndex)
        ensures
            out@ == Seq::<EntryView>::empty(),
    {
        InMemoryIndex::new()
    }
}

} // verus!
