//! Identifiers for ingested entries: random UUIDs in their usual text form.

use vstd::prelude::*;
use crate::index::EntryView;

verus! {

/// Whether `c` is a digit of lower-case hexadecimal notation.
pub open spec fn is_hex_digit(c: char) -> bool {
    ('0' <= c && c <= '9') || ('a' <= c && c <= 'f')
}

/// Whether `text` has the form of a random (version 4) UUID in hyphenated lower-case notation:
/// 36 characters in groups of 8, 4, 4, 4 and 12 hexadecimal digits with hyphens between them,
/// the third group starting with the version digit `4`, the fourth with one of `8`, `9`, `a`, `b`.
pub open spec fn is_random_uuid(text: Seq<char>) -> bool {
    &&& text.len() == 36
    &&& forall|i: int|
        0 <= i < 36 ==> if i == 8 || i == 13 || i == 18 || i == 23 {
            #[trigger] text[i] == '-'
        } else {
            is_hex_digit(text[i])
        }
    &&& text[14] == '4'
    &&& (text[19] == '8' || text[19] == '9' || text[19] == 'a' || text[19] == 'b')
}

/// Whether some entry of `store` carries the identifier `id`.
pub open spec fn holds_id(store: Seq<EntryView>, id: Seq<char>) -> bool {
    exists|at: int| 0 <= at < store.len() && (#[trigger] store[at]).id == id
}

/// Whether no two entries of `store` carry the same identifier.
pub open spec fn ids_differ(store: Seq<EntryView>) -> bool {
    forall|i: int, j: int|
        0 <= i < j < store.len() ==> (#[trigger] store[i]).id != (#[trigger] store[j]).id
}

/// Draws a new identifier.
///
/// This calls `uuid::Uuid::new_v4`, which takes 128 random bits from the operating system and
/// overwrites six of them with the version and the variant, and renders the result with
/// `to_string`, which writes the hyphenated lower-case form. Assumed, not proved: the text has
/// that form. Nothing is assumed of the random digits; in particular two draws may give the
/// same text. The call panics where the operating system cannot supply random bytes.
#[verifier::external_body]
pub(crate) fn random_uuid() -> (id: String)
    ensures
        is_random_uuid(id@),
{
    uuid::Uuid::new_v4().to_string()
}

/// An entry that comes with a new identifier leaves the identifiers of the store pairwise
/// different.
pub proof fn lemma_new_id_keeps_ids_apart(store: Seq<EntryView>, entry: EntryView)
    requires
        ids_differ(store),
        !holds_id(store, entry.id),
    ensures
        ids_differ(store.push(entry)),
{
    let longer = store.push(entry);
    assert forall|i: int, j: int| 0 <= i < j < longer.len() implies (#[trigger] longer[i]).id
        != (#[trigger] longer[j]).id by {
        assert(longer[i] == store[i]);
        if j < store.len() {
            assert(longer[j] == store[j]);
        }
    }
}

/// Two ingestions return different identifiers, provided that the second identifier was new
/// when it was drawn: `first` was appended to `store`, then the entries of `between`, and
/// `second` carries an identifier that none of these holds.
pub proof fn lemma_new_ids_differ(
    store: Seq<EntryView>,
    first: EntryView,
    between: Seq<EntryView>,
    second: EntryView,
)
    requires
        !holds_id(store.push(first) + between, second.id),
    ensures
        first.id != second.id,
{
    let earlier = store.push(first) + between;
    assert(earlier[store.len() as int] == first);
}

} // verus!
