//! Ranking of scored candidates: best score first, ties in the order in which they were scanned.

use vstd::prelude::*;
use crate::score::{ordinal, scores_lower};

verus! {

/// A candidate that was scored: the position of its entry in the store, and its score.
#[derive(Debug, Clone, Copy, PartialEq, Eq, Structural)]
pub struct Hit {
    pub entry: usize,
    pub score: u32,
}

/// Whether `left` scores strictly lower than `right`.
pub open spec fn lower(left: Hit, right: Hit) -> bool {
    ordinal(left.score) < ordinal(right.score)
}

/// Where `hit` goes into `row`: before the first hit that scores lower, and so behind every hit
/// that scores as high or higher; at the end where no hit scores lower.
pub open spec fn slot(row: Seq<Hit>, hit: Hit) -> int
    decreases row.len(),
{
    if row.len() == 0 || lower(row[0], hit) {
        0
    } else {
        1 + slot(row.drop_first(), hit)
    }
}

/// The hits in ranking order: each hit, in the order given, goes to its slot among those before
/// it.
pub open spec fn ranked(hits: Seq<Hit>) -> Seq<Hit>
    decreases hits.len(),
{
    if hits.len() == 0 {
        hits
    } else {
        let row = ranked(hits.drop_last());
        row.insert(slot(row, hits.last()), hits.last())
    }
}

/// The first `k` hits of `row`, or all of them where there are fewer.
pub open spec fn leading(row: Seq<Hit>, k: int) -> Seq<Hit> {
    if 0 <= k < row.len() {
        row.take(k)
    } else {
        row
    }
}

/// Whether no hit of `row` scores lower than one behind it.
pub open spec fn descending(row: Seq<Hit>) -> bool {
    forall|i: int, j: int| 0 <= i < j < row.len() ==> !lower(row[i], row[j])
}

/// The hits of `row` whose score has the ordinal `level`, in the order of `row`.
pub open spec fn at_level(row: Seq<Hit>, level: int) -> Seq<Hit> {
    row.filter(|hit: Hit| ordinal(hit.score) == level)
}

/// The slot lies within the row, no hit before it scores lower, and the hit at it does.
pub proof fn lemma_slot_divides(row: Seq<Hit>, hit: Hit)
    ensures
        0 <= slot(row, hit) <= row.len(),
        forall|i: int| 0 <= i < slot(row, hit) ==> !lower(#[trigger] row[i], hit),
        slot(row, hit) < row.len() ==> lower(row[slot(row, hit)], hit),
    decreases row.len(),
{
    if row.len() == 0 || lower(row[0], hit) {
    } else {
        let rest = row.drop_first();
        lemma_slot_divides(rest, hit);
        assert forall|i: int| 0 <= i < slot(row, hit) implies !lower(#[trigger] row[i], hit) by {
            if i > 0 {
                assert(row[i] == rest[i - 1]);
            }
        }
        if slot(row, hit) < row.len() {
            assert(row[slot(row, hit)] == rest[slot(rest, hit)]);
        }
    }
}

/// A position that divides the row as the slot does is the slot.
pub proof fn lemma_slot_is(row: Seq<Hit>, hit: Hit, at: int)
    requires
        0 <= at <= row.len(),
        forall|i: int| 0 <= i < at ==> !lower(#[trigger] row[i], hit),
        at < row.len() ==> lower(row[at], hit),
    ensures
        slot(row, hit) == at,
{
    lemma_slot_divides(row, hit);
    let found = slot(row, hit);
    if found < at {
        assert(!lower(row[found], hit));
    } else if at < found {
        assert(!lower(row[at], hit));
    }
}

/// Ranking keeps the number of hits.
pub proof fn lemma_ranked_len(hits: Seq<Hit>)
    ensures
        ranked(hits).len() == hits.len(),
    decreases hits.len(),
{
    if hits.len() > 0 {
        lemma_ranked_len(hits.drop_last());
        lemma_slot_divides(ranked(hits.drop_last()), hits.last());
    }
}

/// Ranking rearranges: every hit occurs in the ranking as often as it was given.
pub proof fn lemma_ranked_rearranges(hits: Seq<Hit>)
    ensures
        ranked(hits).to_multiset() == hits.to_multiset(),
    decreases hits.len(),
{
    broadcast use vstd::seq_lib::group_to_multiset_ensures;

    if hits.len() > 0 {
        let before = hits.drop_last();
        let hit = hits.last();
        let row = ranked(before);
        lemma_ranked_rearranges(before);
        lemma_slot_divides(row, hit);
        let at = slot(row, hit);
        let head = row.take(at);
        let tail = row.skip(at);
        assert(row.insert(at, hit) =~= head.push(hit) + tail);
        assert(row =~= head + tail);
        vstd::seq_lib::lemma_multiset_commutative(head.push(hit), tail);
        vstd::seq_lib::lemma_multiset_commutative(head, tail);
        assert(head.push(hit).to_multiset() =~= head.to_multiset().insert(hit));
        assert(ranked(hits).to_multiset() =~= row.to_multiset().insert(hit));
        assert(hits =~= before.push(hit));
        assert(hits.to_multiset() =~= before.to_multiset().insert(hit));
    }
}

/// Every hit among the first `k` of a ranking is one of the hits that were ranked.
pub proof fn lemma_leading_are_given(hits: Seq<Hit>, k: int, j: int)
    requires
        0 <= j < leading(ranked(hits), k).len(),
    ensures
        hits.contains(leading(ranked(hits), k)[j]),
{
    broadcast use vstd::seq_lib::group_to_multiset_ensures;

    lemma_ranked_rearranges(hits);
    let row = ranked(hits);
    assert(row[j] == leading(row, k)[j]);
    assert(row.contains(row[j]));
    assert(row.to_multiset().count(row[j]) > 0);
    assert(hits.to_multiset().count(row[j]) > 0);
}

/// In a ranking no hit scores lower than one behind it.
pub proof fn lemma_ranked_descending(hits: Seq<Hit>)
    ensures
        descending(ranked(hits)),
    decreases hits.len(),
{
    if hits.len() > 0 {
        let hit = hits.last();
        let row = ranked(hits.drop_last());
        lemma_ranked_descending(hits.drop_last());
        lemma_slot_divides(row, hit);
        let at = slot(row, hit);
        let out = row.insert(at, hit);
        assert forall|i: int, j: int| 0 <= i < j < out.len() implies !lower(out[i], out[j]) by {
            if j < at {
                assert(out[i] == row[i] && out[j] == row[j]);
            } else if j == at {
                assert(out[i] == row[i]);
            } else if i < at {
                assert(out[i] == row[i] && out[j] == row[j - 1]);
            } else if i == at {
                assert(out[j] == row[j - 1]);
                if at < j - 1 {
                    assert(!lower(row[at], row[j - 1]));
                }
            } else {
                assert(out[i] == row[i - 1] && out[j] == row[j - 1]);
            }
        }
    }
}

/// Ranking is stable: the hits of one score stand in the ranking in the order in which they were
/// given.
pub proof fn lemma_ranked_stable(hits: Seq<Hit>, level: int)
    ensures
        at_level(ranked(hits), level) == at_level(hits, level),
    decreases hits.len(),
{
    broadcast use vstd::seq_lib::group_filter_ensures;

    let keep = |hit: Hit| ordinal(hit.score) == level;
    if hits.len() > 0 {
        let before = hits.drop_last();
        let hit = hits.last();
        let row = ranked(before);
        lemma_ranked_stable(before, level);
        lemma_ranked_descending(before);
        lemma_slot_divides(row, hit);
        let at = slot(row, hit);
        let head = row.take(at);
        let tail = row.skip(at);
        assert(row.insert(at, hit) =~= head + seq![hit] + tail);
        assert(row =~= head + tail);
        assert(hits =~= before + seq![hit]);
        assert(seq![hit].filter(keep) =~= if keep(hit) {
            seq![hit]
        } else {
            Seq::<Hit>::empty()
        }) by {
            reveal_with_fuel(Seq::filter, 2);
            assert(seq![hit].drop_last() =~= Seq::<Hit>::empty());
        }
        if keep(hit) {
            assert(tail.filter(keep) =~= Seq::<Hit>::empty()) by {
                assert forall|i: int| 0 <= i < tail.len() implies !keep(#[trigger] tail[i]) by {
                    assert(tail[i] == row[at + i]);
                    if i > 0 {
                        assert(!lower(row[at], row[at + i]));
                    }
                }
                lemma_filter_none(tail, keep);
            }
        }
        assert((head + seq![hit] + tail).filter(keep) =~= head.filter(keep) + seq![hit].filter(
            keep,
        ) + tail.filter(keep));
        assert((head + tail).filter(keep) =~= head.filter(keep) + tail.filter(keep));
        assert((before + seq![hit]).filter(keep) =~= before.filter(keep) + seq![hit].filter(keep));
    }
}

/// Where the hits are given with ascending entries, hits of one score stand in the ranking with
/// ascending entries too.
pub proof fn lemma_ranked_ties(hits: Seq<Hit>)
    requires
        forall|i: int, j: int| 0 <= i < j < hits.len() ==> hits[i].entry < hits[j].entry,
    ensures
        forall|i: int, j: int|
            0 <= i < j < ranked(hits).len() && ordinal(ranked(hits)[i].score) == ordinal(
                ranked(hits)[j].score,
            ) ==> ranked(hits)[i].entry < ranked(hits)[j].entry,
    decreases hits.len(),
{
    broadcast use vstd::seq_lib::group_to_multiset_ensures;

    if hits.len() > 0 {
        let before = hits.drop_last();
        let hit = hits.last();
        let row = ranked(before);
        assert forall|i: int, j: int| 0 <= i < j < before.len() implies before[i].entry
            < before[j].entry by {
            assert(before[i] == hits[i] && before[j] == hits[j]);
        }
        lemma_ranked_ties(before);
        lemma_ranked_rearranges(before);
        lemma_ranked_len(before);
        lemma_slot_divides(row, hit);
        let at = slot(row, hit);
        let out = row.insert(at, hit);
        assert forall|i: int| 0 <= i < row.len() implies (#[trigger] row[i]).entry < hit.entry by {
            assert(row.contains(row[i]));
            assert(row.to_multiset().count(row[i]) > 0);
            assert(before.contains(row[i]));
            let from = choose|from: int| 0 <= from < before.len() && before[from] == row[i];
            assert(hits[from] == before[from]);
        }
        assert forall|i: int, j: int|
            0 <= i < j < out.len() && ordinal(out[i].score) == ordinal(
                out[j].score,
            ) implies out[i].entry < out[j].entry by {
            if j < at {
                assert(out[i] == row[i] && out[j] == row[j]);
            } else if j == at {
                assert(out[i] == row[i]);
            } else if i < at {
                assert(out[i] == row[i] && out[j] == row[j - 1]);
            } else if i == at {
                assert(out[j] == row[j - 1]);
                lemma_ranked_descending(before);
                if at < j - 1 {
                    assert(!lower(row[at], row[j - 1]));
                }
            } else {
                assert(out[i] == row[i - 1] && out[j] == row[j - 1]);
            }
        }
    }
}

/// A filter that no element passes leaves nothing.
proof fn lemma_filter_none(row: Seq<Hit>, keep: spec_fn(Hit) -> bool)
    requires
        forall|i: int| 0 <= i < row.len() ==> !keep(#[trigger] row[i]),
    ensures
        row.filter(keep) == Seq::<Hit>::empty(),
    decreases row.len(),
{
    reveal(Seq::filter);
    if row.len() > 0 {
        lemma_filter_none(row.drop_last(), keep);
    }
}

/// The leading hits after one more hit went to its slot are found from the leading hits before:
/// the hit goes to the same slot among them, unless its slot lies behind the first `k`.
pub proof fn lemma_leading_insert(row: Seq<Hit>, hit: Hit, k: int)
    requires
        0 <= k,
    ensures
        slot(leading(row, k), hit) == if slot(row, hit) < leading(row, k).len() {
            slot(row, hit)
        } else {
            leading(row, k).len() as int
        },
        leading(row.insert(slot(row, hit), hit), k) == if slot(row, hit) < k {
            leading(leading(row, k).insert(slot(leading(row, k), hit), hit), k)
        } else {
            leading(row, k)
        },
{
    lemma_slot_divides(row, hit);
    let at = slot(row, hit);
    let front = leading(row, k);
    let short = if at < front.len() {
        at
    } else {
        front.len() as int
    };
    assert forall|i: int| 0 <= i < short implies !lower(#[trigger] front[i], hit) by {
        assert(front[i] == row[i]);
    }
    if short < front.len() {
        assert(front[short] == row[at]);
    }
    lemma_slot_is(front, hit, short);
    if at < k {
        assert(short == at);
        assert(leading(row.insert(at, hit), k) =~= leading(front.insert(at, hit), k));
    } else {
        assert(leading(row.insert(at, hit), k) =~= front);
    }
}

/// Finds the slot of `hit` in a row that descends, from the end of the row: a hit that does not
/// make it into the row is found out at once.
fn find_slot(row: &Vec<Hit>, hit: Hit) -> (at: usize)
    requires
        descending(row@),
    ensures
        at == slot(row@, hit),
{
    let mut at: usize = row.len();
    while at > 0 && scores_lower(row[at - 1].score, hit.score)
        invariant
            at <= row.len(),
            forall|i: int| at <= i < row.len() ==> lower(#[trigger] row[i], hit),
        decreases at,
    {
        at -= 1;
    }
    proof {
        assert forall|i: int| 0 <= i < at implies !lower(#[trigger] row[i], hit) by {
            if i < at - 1 {
                assert(!lower(row[i], row[at - 1]));
            }
        }
        lemma_slot_is(row@, hit, at as int);
    }
    at
}

/// Ranks `hits` and keeps the first `k` of the ranking.
///
/// Only the `k` best hits seen so far are held while the hits are gone through, so the work is
/// proportional to the number of hits times `k` at most, and to the number of hits where few of
/// them make it among the best.
pub fn rank(hits: &Vec<Hit>, k: usize) -> (out: Vec<Hit>)
    ensures
        out@ == leading(ranked(hits@), k as int),
{
    let mut best: Vec<Hit> = Vec::new();
    let mut i: usize = 0;
    assert(hits@.take(0) =~= Seq::<Hit>::empty());
    while i < hits.len()
        invariant
            i <= hits.len(),
            best@ == leading(ranked(hits@.take(i as int)), k as int),
        decreases hits.len() - i,
    {
        let hit = hits[i];
        let ghost row = ranked(hits@.take(i as int));
        proof {
            assert(hits@.take(i + 1).drop_last() =~= hits@.take(i as int));
            assert(hits@.take(i + 1).last() == hit);
            lemma_leading_insert(row, hit, k as int);
            lemma_ranked_len(hits@.take(i as int));
            lemma_ranked_descending(hits@.take(i as int));
            assert forall|a: int, b: int| 0 <= a < b < best@.len() implies !lower(
                best@[a],
                best@[b],
            ) by {
                assert(best@[a] == row[a] && best@[b] == row[b]);
            }
        }
        let at = find_slot(&best, hit);
        if at < k {
            best.insert(at, hit);
            if best.len() > k {
                best.truncate(k);
            }
        }
        i += 1;
    }
    assert(hits@.take(hits.len() as int) =~= hits@);
    best
}

} // verus!
