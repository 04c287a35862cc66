//! The Merkle Patricia Trie, treated as an opaque key-value store with a
//! deterministic root digest, and with proof paths that are deterministic
//! in the contents once the trie is committed. The trie itself is
//! cita_trie's; the handle hides it, and the wrappers state what the
//! engine relies on.

use vstd::prelude::*;

verus! {

/// The trie the engine owns: cita_trie's Patricia trie over an in-memory
/// store, hashed with keccak-256. Opaque: only the wrappers below touch it.
#[verifier::external_body]
pub struct AccountTrie {
    inner: cita_trie::PatriciaTrie<cita_trie::MemoryDB, cita_hasher::HasherKeccak>,
}

/// The key-value contents a trie holds.
pub uninterp spec fn trie_model(t: AccountTrie) -> Map<Seq<u8>, Seq<u8>>;

/// The root digest a Merkle Patricia Trie with these contents commits to.
/// It is a function of the key-value set alone, independent of the order
/// the pairs were inserted in.
pub uninterp spec fn root_of(m: Map<Seq<u8>, Seq<u8>>) -> Seq<u8>;

/// The ordered root-to-leaf node path a freshly committed trie with these
/// contents yields for a key; a function of the contents and the key alone.
pub uninterp spec fn proof_nodes_of(m: Map<Seq<u8>, Seq<u8>>, key: Seq<u8>) -> Seq<Seq<u8>>;

/// Whether the trie's structure is committed to its store: true of a fresh
/// trie and after a root computation, possibly lost by an insert. The node
/// path for a key is a function of contents and key only in this state
/// (an uncommitted insert materializes nodes that the path walk skips).
pub uninterp spec fn trie_clean(t: AccountTrie) -> bool;

/// The contents of a trie that holds no keys.
pub open spec fn empty_contents() -> Map<Seq<u8>, Seq<u8>> {
    Map::empty()
}

/// Relies on PatriciaTrie::new over a fresh MemoryDB and HasherKeccak: the
/// new trie holds no keys and nothing is pending commit. The store is the
/// non-light MemoryDB, on which every operation returns Ok and removal is a
/// no-op; the infallibility of the other wrappers rests on that choice, and
/// so does root computation itself (a light store's stale-key removal could
/// drop a node still shared by a sibling subtree).
#[verifier::external_body]
pub(crate) fn trie_new() -> (fresh: AccountTrie)
    ensures
        trie_model(fresh) == empty_contents(),
        trie_clean(fresh),
{
    AccountTrie {
        inner: cita_trie::PatriciaTrie::new(
            std::sync::Arc::new(cita_trie::MemoryDB::new(false)),
            std::sync::Arc::new(cita_hasher::HasherKeccak::new()),
        ),
    }
}

/// Relies on Trie::insert: a non-empty value is stored under the key and
/// nothing else changes; an empty value would instead remove the key, so it
/// is ruled out. The call cannot fail here: its only error sources are the
/// store (the non-light MemoryDB returns Ok on every operation) and the
/// decoding of stored nodes, which this trie wrote itself.
#[verifier::external_body]
pub(crate) fn trie_insert(t: &mut AccountTrie, key: Vec<u8>, value: Vec<u8>)
    requires
        value@.len() > 0,
    ensures
        trie_model(*final(t)) == trie_model(*old(t)).insert(key@, value@),
{
    cita_trie::Trie::insert(&mut t.inner, key, value).unwrap()
}

/// Relies on Trie::root: commits pending nodes — the root node is reloaded
/// from the store afterwards, so the trie is clean — and returns the
/// 32-byte root digest of the current contents; the key-value contents do
/// not change. The call cannot fail here: commit only writes batches to and
/// reloads the root from the non-light MemoryDB, which returns Ok on every
/// operation.
#[verifier::external_body]
pub(crate) fn trie_root(t: &mut AccountTrie) -> (r: Vec<u8>)
    ensures
        trie_model(*final(t)) == trie_model(*old(t)),
        r@ == root_of(trie_model(*old(t))),
        r@.len() == 32,
        trie_clean(*final(t)),
{
    cita_trie::Trie::root(&mut t.inner).unwrap()
}

/// Relies on Trie::get_proof: on a committed trie, the ordered node path
/// for the key, from the root node down, determined by the contents and
/// the key (the walk recovers every path node from the store, which holds
/// exactly the committed structure). The call cannot fail here: the walk
/// only reads the non-light MemoryDB, which returns Ok on every operation,
/// and decodes nodes this trie wrote itself.
#[verifier::external_body]
pub(crate) fn trie_get_proof(t: &AccountTrie, key: &Vec<u8>) -> (r: Vec<Vec<u8>>)
    requires
        trie_clean(*t),
    ensures
        r.deep_view() == proof_nodes_of(trie_model(*t), key@),
{
    cita_trie::Trie::get_proof(&t.inner, key.as_slice()).unwrap()
}

} // verus!
