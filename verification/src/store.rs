//! A store of trie elements kept in memory, each under its hash, as the
//! bytes that represent it.
use vstd::prelude::*;

use crate::bytesrepr::{deserialize, max_repr_len, spec_deserialize, Error, FromBytes, ToBytes};
use crate::hash::{blake2b_digest, Blake2bHash};
use crate::trie::{PointerModel, Trie, TrieModel};

verus! {

/// The map that a list of puts leaves: later puts under a hash replace earlier ones.
pub open spec fn entries_map(entries: Seq<(Seq<u8>, Seq<u8>)>) -> Map<Seq<u8>, Seq<u8>>
    decreases entries.len(),
{
    if entries.len() == 0 {
        Map::empty()
    } else {
        entries_map(entries.drop_last()).insert(entries.last().0, entries.last().1)
    }
}

proof fn lemma_entries_map_suffix(entries: Seq<(Seq<u8>, Seq<u8>)>, i: int, h: Seq<u8>)
    requires
        0 <= i <= entries.len(),
        forall|j: int| i <= j < entries.len() ==> (#[trigger] entries[j]).0 != h,
    ensures
        entries_map(entries).contains_key(h) == entries_map(entries.take(i)).contains_key(h),
        entries_map(entries).contains_key(h) ==> entries_map(entries)[h] == entries_map(
            entries.take(i),
        )[h],
    decreases entries.len() - i,
{
    if entries.len() > i {
        let init = entries.drop_last();
        assert(entries.last() == entries[entries.len() - 1]);
        assert forall|j: int| i <= j < init.len() implies (#[trigger] init[j]).0 != h by {
            assert(init[j] == entries[j]);
        }
        lemma_entries_map_suffix(init, i, h);
        assert(init.take(i) =~= entries.take(i));
    } else {
        assert(entries.take(i) =~= entries);
    }
}

/// What looking up a hash in a store gives.
pub enum FetchModel<KV, VV> {
    /// Nothing is stored under the hash.
    Missing,
    /// The stored bytes are not the representation of a trie element.
    Bad(Error),
    /// The element stored under the hash.
    Got(TrieModel<KV, VV>),
}

/// Looks up the element stored under `h` in the store with contents `m`.
pub open spec fn fetch<K: FromBytes, V: FromBytes>(m: Map<Seq<u8>, Seq<u8>>, h: Seq<u8>) -> FetchModel<
    K::V,
    V::V,
> {
    if !m.contains_key(h) {
        FetchModel::Missing
    } else {
        match spec_deserialize::<Trie<K, V>>(m[h]) {
            Ok(t) => FetchModel::Got(t),
            Err(e) => FetchModel::Bad(e),
        }
    }
}

/// Whether a pointer has the kind that the element it refers to calls for:
/// a leaf pointer for a leaf, a node pointer for anything else.
pub open spec fn pointer_kind_fits<K: FromBytes, V: FromBytes>(
    m: Map<Seq<u8>, Seq<u8>>,
    p: PointerModel,
) -> bool {
    fetch::<K, V>(m, p.hash()) matches FetchModel::Got(child) ==> (p is LeafPointer
        <==> child is Leaf)
}

/// The store holds, under each hash, the representation of an element whose
/// hash it is, and every pointer in a stored element has the kind its target calls for.
#[verifier::opaque]
pub open spec fn store_wf<K: FromBytes, V: FromBytes>(m: Map<Seq<u8>, Seq<u8>>) -> bool {
    forall|h: Seq<u8>|
        #![trigger m[h]]
        m.contains_key(h) ==> {
            &&& m[h].len() <= max_repr_len()
            &&& blake2b_digest(m[h]) == h
            &&& fetch::<K, V>(m, h) matches FetchModel::Got(t) && {
                &&& crate::trie::trie_bytes::<K, V>(t) == m[h]
                &&& match t {
                    TrieModel::Node { pointer_block } => forall|i: int|
                        0 <= i < pointer_block.len() ==> (#[trigger] pointer_block[i] matches Some(p)
                            ==> pointer_kind_fits::<K, V>(m, p)),
                    TrieModel::Extension { affix, pointer } => pointer_kind_fits::<K, V>(
                        m,
                        pointer,
                    ),
                    TrieModel::Leaf { .. } => true,
                }
            }
        }
}

/// Trie elements kept in memory, each under its hash, as the bytes that
/// represent it. A later put under a hash replaces an earlier one.
pub struct InMemoryTrieStore {
    entries: Vec<(Blake2bHash, Vec<u8>)>,
}

impl View for InMemoryTrieStore {
    type V = Map<Seq<u8>, Seq<u8>>;

    closed spec fn view(&self) -> Map<Seq<u8>, Seq<u8>> {
        entries_map(self.entries@.map_values(|e: (Blake2bHash, Vec<u8>)| (e.0@, e.1@)))
    }
}

impl InMemoryTrieStore {
    /// An empty store.
    pub fn new() -> (s: InMemoryTrieStore)
        ensures
            s@ == Map::<Seq<u8>, Seq<u8>>::empty(),
    {
        let s = InMemoryTrieStore { entries: Vec::new() };
        assert(s.entries@.map_values(|e: (Blake2bHash, Vec<u8>)| (e.0@, e.1@)) =~= Seq::<
            (Seq<u8>, Seq<u8>),
        >::empty());
        s
    }

    /// The bytes stored under `hash`, if any.
    pub fn get_bytes(&self, hash: &Blake2bHash) -> (r: Option<&Vec<u8>>)
        ensures
            match r {
                Some(b) => self@.contains_key(hash@) && self@[hash@] == b@,
                None => !self@.contains_key(hash@),
            },
    {
        let ghost es = self.entries@.map_values(|e: (Blake2bHash, Vec<u8>)| (e.0@, e.1@));
        let mut i: usize = self.entries.len();
        while i > 0
            invariant
                0 <= i <= self.entries@.len(),
                es == self.entries@.map_values(|e: (Blake2bHash, Vec<u8>)| (e.0@, e.1@)),
                forall|j: int| i <= j < es.len() ==> (#[trigger] es[j]).0 != hash@,
            decreases i,
        {
            let entry = &self.entries[i - 1];
            if entry.0.same_as(hash) {
                proof {
                    lemma_entries_map_suffix(es, i as int, hash@);
                    assert(es.take(i as int).drop_last() =~= es.take(i - 1));
                    assert(es.take(i as int).last() == es[i - 1]);
                }
                return Some(&entry.1);
            }
            i = i - 1;
        }
        proof {
            lemma_entries_map_suffix(es, 0, hash@);
        }
        None
    }

    /// The element stored under `hash`: `None` if there is none, an error if
    /// the stored bytes are not the representation of one.
    pub fn get<K: FromBytes, V: FromBytes>(&self, hash: &Blake2bHash) -> (r: Result<
        Option<Trie<K, V>>,
        Error,
    >)
        ensures
            match r {
                Ok(Some(t)) => fetch::<K, V>(self@, hash@) == FetchModel::Got(t.deep_view()),
                Ok(None) => fetch::<K, V>(self@, hash@) == FetchModel::<K::V, V::V>::Missing,
                Err(e) => fetch::<K, V>(self@, hash@) == FetchModel::<K::V, V::V>::Bad(e),
            },
    {
        match self.get_bytes(hash) {
            None => Ok(None),
            Some(bytes) => match deserialize::<Trie<K, V>>(bytes.as_slice()) {
                Ok(t) => Ok(Some(t)),
                Err(e) => Err(e),
            },
        }
    }

    /// Stores the representation of `element` under `hash`, unless it is
    /// longer than `u32::MAX` bytes.
    pub fn put<K: FromBytes, V: FromBytes>(&mut self, hash: &Blake2bHash, element: &Trie<K, V>) -> (r:
        Result<(), Error>)
        ensures
            r is Ok <==> crate::trie::trie_bytes::<K, V>(element.deep_view()).len() <= max_repr_len(),
            r is Ok ==> final(self)@ == old(self)@.insert(
                hash@,
                crate::trie::trie_bytes::<K, V>(element.deep_view()),
            ),
            r is Err ==> final(self)@ == old(self)@,
            r matches Err(e) ==> e == Error::OutOfMemory,
    {
        let bytes = match element.to_bytes() {
            Ok(b) => b,
            Err(e) => return Err(e),
        };
        let ghost before = self.entries@.map_values(|e: (Blake2bHash, Vec<u8>)| (e.0@, e.1@));
        self.entries.push((*hash, bytes));
        let ghost after = self.entries@.map_values(|e: (Blake2bHash, Vec<u8>)| (e.0@, e.1@));
        assert(after.drop_last() =~= before);
        Ok(())
    }
}

} // verus!
