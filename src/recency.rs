//! The order in which glyphs were last used, kept in an `IndexMap` from
//! glyph key to the frame of its last use, most recent first.
use crate::key::GlyphKey;
use vstd::prelude::*;

verus! {

#[verifier::external_type_specification]
#[verifier::external_body]
#[verifier::reject_recursive_types(K)]
#[verifier::reject_recursive_types(V)]
#[verifier::reject_recursive_types(S)]
pub struct ExIndexMap<K, V, S>(indexmap::IndexMap<K, V, S>);

/// The entries of a recency map, in the map's order.
pub uninterp spec fn recency_entries(m: indexmap::IndexMap<GlyphKey, usize>) -> Seq<(GlyphKey, usize)>;

/// No key occurs twice.
pub open spec fn keys_unique(s: Seq<(GlyphKey, usize)>) -> bool {
    forall|i: int, j: int| 0 <= i < s.len() && 0 <= j < s.len() && i != j ==> #[trigger] s[i].0 != #[trigger] s[j].0
}

/// Relies on IndexMap::new: an empty map.
#[verifier::external_body]
pub(crate) fn recency_new() -> (m: indexmap::IndexMap<GlyphKey, usize>)
    ensures
        recency_entries(m).len() == 0,
{
    indexmap::IndexMap::new()
}

/// Relies on IndexMap::len: the number of entries.
#[verifier::external_body]
pub(crate) fn recency_len(m: &indexmap::IndexMap<GlyphKey, usize>) -> (n: usize)
    ensures
        n == recency_entries(*m).len(),
{
    m.len()
}

/// Relies on IndexMap::get_index: the entry at a position.
#[verifier::external_body]
pub(crate) fn recency_get(m: &indexmap::IndexMap<GlyphKey, usize>, i: usize) -> (e: (GlyphKey, usize))
    requires
        i < recency_entries(*m).len(),
    ensures
        e == recency_entries(*m)[i as int],
{
    let (k, v) = m.get_index(i).unwrap();
    (*k, *v)
}

/// Relies on IndexMap::insert_before at index 0: a new key is put first; a
/// key already present is moved first and gets the new value; the other
/// entries keep their order.
#[verifier::external_body]
pub(crate) fn recency_touch(m: &mut indexmap::IndexMap<GlyphKey, usize>, key: GlyphKey, value: usize)
    requires
        keys_unique(recency_entries(*old(m))),
    ensures
        forall|p: int|
            0 <= p < recency_entries(*old(m)).len() && (#[trigger] recency_entries(*old(m))[p]).0 == key
                ==> recency_entries(*final(m)) == seq![(key, value)] + recency_entries(
                *old(m),
            ).remove(p),
        (forall|p: int|
            0 <= p < recency_entries(*old(m)).len() ==> (#[trigger] recency_entries(*old(m))[p]).0
                != key) ==> recency_entries(*final(m)) == seq![(key, value)] + recency_entries(
            *old(m),
        ),
{
    m.insert_before(0, key, value);
}

/// Relies on IndexMap::drain over `i..`: the entries from position `i` on
/// leave the map, and their keys are returned in order.
#[verifier::external_body]
pub(crate) fn recency_drain_from(m: &mut indexmap::IndexMap<GlyphKey, usize>, i: usize) -> (keys: Vec<
    GlyphKey,
>)
    requires
        i <= recency_entries(*old(m)).len(),
    ensures
        recency_entries(*final(m)) == recency_entries(*old(m)).subrange(0, i as int),
        keys@ == recency_entries(*old(m)).subrange(
            i as int,
            recency_entries(*old(m)).len() as int,
        ).map_values(|e: (GlyphKey, usize)| e.0),
{
    m.drain(i..).map(|(k, _)| k).collect()
}

} // verus!
