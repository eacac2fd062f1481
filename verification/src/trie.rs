//! Trusted boundary around the outside prefix-tree index.
//!
//! The lexicon keys one `radix_trie::Trie` per word length. The trie itself is
//! outside code; this module declares its type, names its contents, and gives
//! each operation the lexicon relies on a contract that the trie's source
//! shows.

use vstd::prelude::*;
use radix_trie::Trie;
use radix_trie::TrieCommon;

verus! {

#[verifier::external_type_specification]
#[verifier::external_body]
#[verifier::reject_recursive_types(K)]
#[verifier::reject_recursive_types(V)]
pub struct ExTrie<K, V>(Trie<K, V>);

/// The set of keys a trie holds, as character sequences.
pub uninterp spec fn trie_words(t: Trie<String, ()>) -> Set<Seq<char>>;

/// Relies on radix_trie::Trie::new: the fresh trie holds no keys.
#[verifier::external_body]
pub(crate) fn trie_empty() -> (t: Trie<String, ()>)
    ensures
        trie_words(t) == Set::<Seq<char>>::empty(),
{
    Trie::new()
}

/// Relies on radix_trie::Trie::insert: afterwards the key is present, and no
/// other key appears or disappears.
#[verifier::external_body]
pub(crate) fn trie_insert(t: &mut Trie<String, ()>, key: String)
    ensures
        trie_words(*final(t)) == trie_words(*old(t)).insert(key@),
{
    t.insert(key, ());
}

/// Relies on radix_trie::Trie::get: it returns Some exactly for keys that are
/// present.
#[verifier::external_body]
pub(crate) fn trie_member(t: &Trie<String, ()>, key: &String) -> (r: bool)
    ensures
        r == trie_words(*t).contains(key@),
{
    t.get(key).is_some()
}

/// Relies on radix_trie::TrieCommon::keys: the iterator yields every stored
/// key exactly once, in ascending order of its byte encoding. Strings encode
/// as their UTF-8 bytes, and UTF-8 byte order agrees with code-point order,
/// so the keys come out in strictly ascending lexicographic order.
#[verifier::external_body]
pub(crate) fn trie_keys(t: &Trie<String, ()>) -> (r: Vec<String>)
    ensures
        forall|i: int| 0 <= i < r@.len() ==> trie_words(*t).contains(#[trigger] r@[i]@),
        forall|w: Seq<char>|
            trie_words(*t).contains(w) ==> exists|i: int| 0 <= i < r@.len() && #[trigger] r@[i]@ == w,
        forall|i: int, j: int|
            0 <= i < j < r@.len() ==> crate::chars::lex_lt(#[trigger] r@[i]@, #[trigger] r@[j]@),
{
    t.keys().cloned().collect()
}

} // verus!
