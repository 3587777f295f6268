//! String-keyed attributes: the metadata carried by an entry, and the shape of a filter.

use vstd::prelude::*;

verus! {

/// Whether some pair of `pairs` carries `key`.
spec fn has_key(pairs: Seq<(String, String)>, key: Seq<char>) -> bool {
    exists|i: int| 0 <= i < pairs.len() && pairs[i].0@ == key
}

/// A position of `key` among `pairs`, where it occurs.
spec fn key_index(pairs: Seq<(String, String)>, key: Seq<char>) -> int {
    choose|i: int| 0 <= i < pairs.len() && pairs[i].0@ == key
}

/// The mapping that a list of pairs with pairwise different keys stands for.
spec fn pairs_map(pairs: Seq<(String, String)>) -> Map<Seq<char>, Seq<char>> {
    Map::new(
        |key: Seq<char>| has_key(pairs, key),
        |key: Seq<char>| pairs[key_index(pairs, key)].1@,
    )
}

spec fn keys_differ(pairs: Seq<(String, String)>) -> bool {
    forall|i: int, j: int| 0 <= i < j < pairs.len() ==> pairs[i].0@ != pairs[j].0@
}

/// With pairwise different keys, the pair at position `i` is what the mapping holds for its key.
proof fn lemma_pair_is_mapped(pairs: Seq<(String, String)>, i: int)
    requires
        keys_differ(pairs),
        0 <= i < pairs.len(),
    ensures
        pairs_map(pairs).contains_key(pairs[i].0@),
        pairs_map(pairs)[pairs[i].0@] == pairs[i].1@,
        key_index(pairs, pairs[i].0@) == i,
{
    let key = pairs[i].0@;
    assert(has_key(pairs, key));
    let j = key_index(pairs, key);
    assert(0 <= j < pairs.len() && pairs[j].0@ == key);
    assert(j == i);
}

/// Appending a pair with a new key inserts it into the mapping.
proof fn lemma_push_inserts(pairs: Seq<(String, String)>, pair: (String, String))
    requires
        keys_differ(pairs),
        !has_key(pairs, pair.0@),
    ensures
        keys_differ(pairs.push(pair)),
        pairs_map(pairs.push(pair)) == pairs_map(pairs).insert(pair.0@, pair.1@),
{
    let longer = pairs.push(pair);
    assert(keys_differ(longer)) by {
        assert forall|i: int, j: int| 0 <= i < j < longer.len() implies longer[i].0@
            != longer[j].0@ by {
            if j == pairs.len() {
                assert(pairs[i].0@ == longer[i].0@);
            }
        }
    }
    assert forall|key: Seq<char>| has_key(longer, key) == (has_key(pairs, key) || key
        == pair.0@) by {
        if has_key(pairs, key) {
            let i = key_index(pairs, key);
            assert(longer[i].0@ == key);
        }
        if key == pair.0@ {
            assert(longer[pairs.len() as int].0@ == key);
        }
        if has_key(longer, key) {
            let i = key_index(longer, key);
            if i < pairs.len() {
                assert(pairs[i].0@ == key);
            }
        }
    }
    assert forall|key: Seq<char>| has_key(longer, key) implies #[trigger] pairs_map(longer)[key]
        == pairs_map(pairs).insert(pair.0@, pair.1@)[key] by {
        let i = key_index(longer, key);
        lemma_pair_is_mapped(longer, i);
        if i < pairs.len() {
            lemma_pair_is_mapped(pairs, i);
        }
    }
    assert(pairs_map(longer) =~= pairs_map(pairs).insert(pair.0@, pair.1@));
}

/// Replacing the pair at position `i` by one with the same key overwrites the value.
proof fn lemma_update_overwrites(pairs: Seq<(String, String)>, i: int, pair: (String, String))
    requires
        keys_differ(pairs),
        0 <= i < pairs.len(),
        pairs[i].0@ == pair.0@,
    ensures
        keys_differ(pairs.update(i, pair)),
        pairs_map(pairs.update(i, pair)) == pairs_map(pairs).insert(pair.0@, pair.1@),
{
    let changed = pairs.update(i, pair);
    assert(keys_differ(changed)) by {
        assert forall|a: int, b: int| 0 <= a < b < changed.len() implies changed[a].0@
            != changed[b].0@ by {
            assert(changed[a].0@ == pairs[a].0@);
            assert(changed[b].0@ == pairs[b].0@);
        }
    }
    assert forall|key: Seq<char>| has_key(changed, key) == has_key(pairs, key) by {
        if has_key(pairs, key) {
            let a = key_index(pairs, key);
            assert(changed[a].0@ == key);
        }
        if has_key(changed, key) {
            let a = key_index(changed, key);
            assert(pairs[a].0@ == key);
        }
    }
    assert(has_key(pairs, pair.0@)) by {
        assert(pairs[i].0@ == pair.0@);
    }
    assert forall|key: Seq<char>| has_key(changed, key) implies #[trigger] pairs_map(changed)[key]
        == pairs_map(pairs).insert(pair.0@, pair.1@)[key] by {
        let a = key_index(changed, key);
        lemma_pair_is_mapped(changed, a);
        lemma_pair_is_mapped(pairs, a);
    }
    assert(pairs_map(changed) =~= pairs_map(pairs).insert(pair.0@, pair.1@));
}

/// Whether `metadata` holds every pair that `filter` asks for, under the same key and with the
/// same value. Keys that the filter does not name are free.
pub open spec fn satisfies(
    metadata: Map<Seq<char>, Seq<char>>,
    filter: Map<Seq<char>, Seq<char>>,
) -> bool {
    forall|key: Seq<char>| #[trigger]
        filter.contains_key(key) ==> metadata.contains_key(key) && metadata[key] == filter[key]
}

/// A finite mapping from string keys to string values, with no key twice.
///
/// It serves both as the metadata of a stored entry and as a filter: a filter is the set of
/// key-value pairs that an entry's metadata must hold.
#[derive(Debug)]
pub struct Metadata {
    pairs: Vec<(String, String)>,
}

impl View for Metadata {
    type V = Map<Seq<char>, Seq<char>>;

    closed spec fn view(&self) -> Map<Seq<char>, Seq<char>> {
        pairs_map(self.pairs@)
    }
}

impl Metadata {
    #[verifier::type_invariant]
    spec fn well_formed(&self) -> bool {
        keys_differ(self.pairs@)
    }

    /// The mapping without any key.
    pub fn new() -> (out: Metadata)
        ensures
            out@ == Map::<Seq<char>, Seq<char>>::empty(),
    {
        let out = Metadata { pairs: Vec::new() };
        assert(out@ =~= Map::<Seq<char>, Seq<char>>::empty());
        out
    }

    /// The position of `key` among the pairs, if it is there.
    fn position(&self, key: &String) -> (out: Option<usize>)
        ensures
            match out {
                Some(i) => i < self.pairs.len() && self.pairs[i as int].0@ == key@,
                None => !has_key(self.pairs@, key@),
            },
    {
        let mut i: usize = 0;
        while i < self.pairs.len()
            invariant
                i <= self.pairs.len(),
                forall|j: int| 0 <= j < i ==> self.pairs[j].0@ != key@,
            decreases self.pairs.len() - i,
        {
            if self.pairs[i].0 == *key {
                return Some(i);
            }
            i += 1;
        }
        None
    }

    /// The value stored under `key`, if there is one.
    pub fn get(&self, key: &String) -> (out: Option<&String>)
        ensures
            match out {
                Some(value) => self@.contains_key(key@) && self@[key@] == value@,
                None => !self@.contains_key(key@),
            },
    {
        proof {
            use_type_invariant(self);
        }
        match self.position(key) {
            Some(i) => {
                proof {
                    lemma_pair_is_mapped(self.pairs@, i as int);
                }
                Some(&self.pairs[i].1)
            },
            None => None,
        }
    }

    /// Stores `value` under `key`, and hands back the value that `key` had before, if any.
    pub fn insert(&mut self, key: String, value: String) -> (out: Option<String>)
        ensures
            final(self)@ == old(self)@.insert(key@, value@),
            match out {
                Some(before) => old(self)@.contains_key(key@) && old(self)@[key@] == before@,
                None => !old(self)@.contains_key(key@),
            },
    {
        proof {
            use_type_invariant(&*self);
        }
        match self.position(&key) {
            Some(i) => {
                let ghost before_pairs = self.pairs@;
                let ghost pair = (key, value);
                proof {
                    lemma_pair_is_mapped(before_pairs, i as int);
                    lemma_update_overwrites(before_pairs, i as int, pair);
                }
                let mut pairs: Vec<(String, String)> = Vec::new();
                core::mem::swap(&mut self.pairs, &mut pairs);
                pairs.push((key, value));
                let before = pairs.swap_remove(i);
                assert(pairs@ =~= before_pairs.update(i as int, pair));
                core::mem::swap(&mut self.pairs, &mut pairs);
                Some(before.1)
            },
            None => {
                let ghost before_pairs = self.pairs@;
                let ghost pair = (key, value);
                proof {
                    lemma_push_inserts(before_pairs, pair);
                }
                let mut pairs: Vec<(String, String)> = Vec::new();
                core::mem::swap(&mut self.pairs, &mut pairs);
                pairs.push((key, value));
                assert(pairs@ =~= before_pairs.push(pair));
                core::mem::swap(&mut self.pairs, &mut pairs);
                None
            },
        }
    }

    /// Whether this metadata holds every pair of `filter`. The empty filter is satisfied by all.
    pub fn matches(&self, filter: &Metadata) -> (out: bool)
        ensures
            out == satisfies(self@, filter@),
    {
        proof {
            use_type_invariant(filter);
        }
        let mut i: usize = 0;
        while i < filter.pairs.len()
            invariant
                i <= filter.pairs.len(),
                keys_differ(filter.pairs@),
                forall|j: int|
                    0 <= j < i ==> self@.contains_key(#[trigger] filter.pairs[j].0@)
                        && self@[filter.pairs[j].0@] == filter.pairs[j].1@,
            decreases filter.pairs.len() - i,
        {
            proof {
                lemma_pair_is_mapped(filter.pairs@, i as int);
            }
            match self.get(&filter.pairs[i].0) {
                Some(value) => {
                    if !(*value == filter.pairs[i].1) {
                        return false;
                    }
                },
                None => {
                    return false;
                },
            }
            i += 1;
        }
        proof {
            assert forall|key: Seq<char>| #[trigger]
                filter@.contains_key(key) implies self@.contains_key(key) && self@[key]
                == filter@[key] by {
                let j = key_index(filter.pairs@, key);
                lemma_pair_is_mapped(filter.pairs@, j);
            }
        }
        true
    }

    /// The pairs of the mapping, each key once, in no promised order.
    pub fn to_pairs(&self) -> (out: Vec<(String, String)>)
        ensures
            forall|i: int, j: int| 0 <= i < j < out.len() ==> out[i].0@ != out[j].0@,
            forall|i: int|
                0 <= i < out.len() ==> self@.contains_key(#[trigger] out[i].0@) && self@[out[i].0@]
                    == out[i].1@,
            forall|key: Seq<char>| #[trigger]
                self@.contains_key(key) ==> exists|i: int| 0 <= i < out.len() && out[i].0@ == key,
    {
        proof {
            use_type_invariant(self);
        }
        let mut out: Vec<(String, String)> = Vec::new();
        let mut i: usize = 0;
        while i < self.pairs.len()
            invariant
                i <= self.pairs.len(),
                out@ == self.pairs@.take(i as int),
            decreases self.pairs.len() - i,
        {
            let pair = (self.pairs[i].0.clone(), self.pairs[i].1.clone());
            assert(pair == self.pairs[i as int]);
            out.push(pair);
            assert(out@ =~= self.pairs@.take(i + 1));
            i += 1;
        }
        proof {
            assert(out@ =~= self.pairs@);
            assert forall|j: int| 0 <= j < out.len() implies self@.contains_key(
                #[trigger] out[j].0@,
            ) && self@[out[j].0@] == out[j].1@ by {
                lemma_pair_is_mapped(self.pairs@, j);
            }
        }
        out
    }
}

impl Clone for Metadata {
    fn clone(&self) -> (out: Self)
        ensures
            out@ == self@,
    {
        proof {
            use_type_invariant(self);
        }
        let mut pairs: Vec<(String, String)> = Vec::new();
        let mut i: usize = 0;
        while i < self.pairs.len()
            invariant
                i <= self.pairs.len(),
                pairs@ == self.pairs@.take(i as int),
            decreases self.pairs.len() - i,
        {
            let pair = (self.pairs[i].0.clone(), self.pairs[i].1.clone());
            assert(pair == self.pairs[i as int]);
            pairs.push(pair);
            assert(pairs@ =~= self.pairs@.take(i + 1));
            i += 1;
        }
        assert(pairs@ =~= self.pairs@);
        Metadata { pairs }
    }
}

} // verus!
