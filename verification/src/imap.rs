//! Trusted declarations for the `indexmap` maps the scorers accumulate into.
//! Each wrapper's contract states what `indexmap`'s documentation promises of
//! the call, over the named entry sequences below; nothing else is assumed.
use vstd::prelude::*;

verus! {

/// `indexmap::IndexMap`, declared so that verified code can hold one.
/// Values of the type are opaque here; the wrappers below say what the
/// methods the library calls do to the named entry sequences.
#[verifier::external_type_specification]
#[verifier::external_body]
#[verifier::reject_recursive_types(K)]
#[verifier::reject_recursive_types(V)]
#[verifier::reject_recursive_types(S)]
pub struct ExIndexMap<K, V, S>(indexmap::IndexMap<K, V, S>);

/// The entries a word-score map holds, as (word, score) in insertion order.
pub uninterp spec fn word_map_entries(m: indexmap::IndexMap<String, i64>) -> Seq<(Seq<char>, int)>;

/// Relies on `indexmap::IndexMap::new`: the new map is empty.
#[verifier::external_body]
pub(crate) fn word_map_new() -> (m: indexmap::IndexMap<String, i64>)
    ensures
        word_map_entries(m) == Seq::<(Seq<char>, int)>::empty(),
{
    indexmap::IndexMap::new()
}

/// Relies on `indexmap::IndexMap::len`: the number of entries.
#[verifier::external_body]
pub(crate) fn word_map_len(m: &indexmap::IndexMap<String, i64>) -> (n: usize)
    ensures
        n == word_map_entries(*m).len(),
{
    m.len()
}

/// Relies on `indexmap::IndexMap::insert`: an equivalent key keeps its place
/// in the order and takes the new value; a new key is appended last. `String`
/// keys are equivalent exactly when their characters are equal.
#[verifier::external_body]
pub(crate) fn word_map_insert(m: &mut indexmap::IndexMap<String, i64>, key: String, value: i64)
    ensures
        forall|i: int|
            0 <= i < word_map_entries(*old(m)).len() && (#[trigger] word_map_entries(*old(m))[i]).0
                != key@ ==> word_map_entries(*final (m))[i] === word_map_entries(*old(m))[i],
        (exists|i: int|
            0 <= i < word_map_entries(*old(m)).len() && (#[trigger] word_map_entries(*old(m))[i]).0
                == key@) ==> word_map_entries(*final (m)).len() == word_map_entries(*old(m)).len()
            && (forall|i: int|
            0 <= i < word_map_entries(*old(m)).len() && (#[trigger] word_map_entries(*old(m))[i]).0
                == key@ ==> word_map_entries(*final (m))[i] === (key@, value as int)),
        !(exists|i: int|
            0 <= i < word_map_entries(*old(m)).len() && (#[trigger] word_map_entries(*old(m))[i]).0
                == key@) ==> word_map_entries(*final (m)) === word_map_entries(*old(m)).push(
            (key@, value as int),
        ),
{
    m.insert(key, value);
}

/// Relies on `indexmap::IndexMap::get_index`: the entry at a valid position,
/// in insertion order.
#[verifier::external_body]
pub(crate) fn word_map_entry_at(m: &indexmap::IndexMap<String, i64>, i: usize) -> (r: (String, i64))
    requires
        i < word_map_entries(*m).len(),
    ensures
        (r.0@, r.1 as int) === word_map_entries(*m)[i as int],
{
    let (k, v) = m.get_index(i).unwrap();
    (k.clone(), *v)
}

/// The entries a pair-score map holds, as ((word1, word2), score) in
/// insertion order.
pub uninterp spec fn pair_map_entries(m: indexmap::IndexMap<(String, String), i64>) -> Seq<
    ((Seq<char>, Seq<char>), int),
>;

/// Relies on `indexmap::IndexMap::new`: the new map is empty.
#[verifier::external_body]
pub(crate) fn pair_map_new() -> (m: indexmap::IndexMap<(String, String), i64>)
    ensures
        pair_map_entries(m) == Seq::<((Seq<char>, Seq<char>), int)>::empty(),
{
    indexmap::IndexMap::new()
}

/// Relies on `indexmap::IndexMap::len`: the number of entries.
#[verifier::external_body]
pub(crate) fn pair_map_len(m: &indexmap::IndexMap<(String, String), i64>) -> (n: usize)
    ensures
        n == pair_map_entries(*m).len(),
{
    m.len()
}

/// Relies on `indexmap::IndexMap::insert`: an equivalent key keeps its place
/// in the order and takes the new value; a new key is appended last. Keys are
/// pairs of `String`s, equivalent exactly when both components' characters
/// are equal.
#[verifier::external_body]
pub(crate) fn pair_map_insert(
    m: &mut indexmap::IndexMap<(String, String), i64>,
    key: (String, String),
    value: i64,
)
    ensures
        forall|i: int|
            0 <= i < pair_map_entries(*old(m)).len() && (#[trigger] pair_map_entries(*old(m))[i]).0
                != (key.0@, key.1@) ==> pair_map_entries(*final (m))[i] === pair_map_entries(
                *old(m),
            )[i],
        (exists|i: int|
            0 <= i < pair_map_entries(*old(m)).len() && (#[trigger] pair_map_entries(*old(m))[i]).0
                == (key.0@, key.1@)) ==> pair_map_entries(*final (m)).len() == pair_map_entries(
            *old(m),
        ).len() && (forall|i: int|
            0 <= i < pair_map_entries(*old(m)).len() && (#[trigger] pair_map_entries(*old(m))[i]).0
                == (key.0@, key.1@) ==> pair_map_entries(*final (m))[i] === (
            (key.0@, key.1@),
            value as int,
        )),
        !(exists|i: int|
            0 <= i < pair_map_entries(*old(m)).len() && (#[trigger] pair_map_entries(*old(m))[i]).0
                == (key.0@, key.1@)) ==> pair_map_entries(*final (m)) === pair_map_entries(
            *old(m),
        ).push(((key.0@, key.1@), value as int)),
{
    m.insert(key, value);
}

/// Relies on `indexmap::IndexMap::get_index`: the entry at a valid position,
/// in insertion order.
#[verifier::external_body]
pub(crate) fn pair_map_entry_at(m: &indexmap::IndexMap<(String, String), i64>, i: usize) -> (r: (
    (String, String),
    i64,
))
    requires
        i < pair_map_entries(*m).len(),
    ensures
        ((r.0.0@, r.0.1@), r.1 as int) === pair_map_entries(*m)[i as int],
{
    let (k, v) = m.get_index(i).unwrap();
    ((k.0.clone(), k.1.clone()), *v)
}

} // verus!
