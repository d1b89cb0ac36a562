//! Walking the keys of a trie, or of the part of it under a prefix, depth
//! first and in the order of the path bytes.
use std::collections::VecDeque;
use vstd::prelude::*;

use crate::bytesrepr::{max_repr_len, Error, FromBytes, ToBytes};
use crate::hash::Blake2bHash;
use crate::operations::{
    bytes_eq, empty_run_limit, lemma_walk_run_more, next_run, slice_to_vec, spec_read, starts_with,
    walk,
};
use crate::store::{fetch, FetchModel, InMemoryTrieStore};
use crate::trie::{Pointer, PointerBlock, PointerModel, Trie, TrieModel, RADIX};

verus! {

/// Where the walk stands.
#[derive(Debug, Clone, Copy, PartialEq, Eq)]
pub enum KeysIteratorState {
    /// Iterate normally
    Iterating,
    /// Return the error and stop iterating
    ReturnError(Error),
    /// Already failed, only return None
    Failed,
}

/// An element still to visit, with the slot to go on from in a node and the
/// path bytes that lead to it.
pub struct VisitedTrieNode<K, V> {
    trie: Trie<K, V>,
    maybe_index: Option<usize>,
    path: Vec<u8>,
}

/// The model of a [`VisitedTrieNode`].
pub struct VisitedModel<KV, VV> {
    pub trie: TrieModel<KV, VV>,
    pub maybe_index: Option<usize>,
    pub path: Seq<u8>,
}

impl<K: DeepView, V: DeepView> DeepView for VisitedTrieNode<K, V> {
    type V = VisitedModel<K::V, V::V>;

    closed spec fn deep_view(&self) -> VisitedModel<K::V, V::V> {
        VisitedModel { trie: self.trie.deep_view(), maybe_index: self.maybe_index, path: self.path@ }
    }
}

/// The model of a [`KeysIterator`].
pub struct KeysModel<KV, VV> {
    /// The prefix bytes still to descend along.
    pub initial_descend: Seq<u8>,
    /// The elements still to visit, the next one last.
    pub visited: Seq<VisitedModel<KV, VV>>,
    /// The contents of the store.
    pub store: Map<Seq<u8>, Seq<u8>>,
    pub state: KeysIteratorState,
}

/// Walks the keys of a trie in a store.
pub struct KeysIterator<'a, K, V> {
    initial_descend: VecDeque<u8>,
    visited: Vec<VisitedTrieNode<K, V>>,
    store: &'a InMemoryTrieStore,
    state: KeysIteratorState,
}

impl<'a, K: DeepView, V: DeepView> View for KeysIterator<'a, K, V> {
    type V = KeysModel<K::V, V::V>;

    closed spec fn view(&self) -> KeysModel<K::V, V::V> {
        KeysModel {
            initial_descend: self.initial_descend@,
            visited: self.visited.deep_view(),
            store: self.store@,
            state: self.state,
        }
    }
}

/// The first slot at `start` or after that holds a pointer.
pub open spec fn first_some(pointer_block: Seq<Option<PointerModel>>, start: int) -> Option<int>
    decreases 256 - start,
{
    if start < 0 || start >= 256 {
        None
    } else if pointer_block[start] is Some {
        Some(start)
    } else {
        first_some(pointer_block, start + 1)
    }
}

/// What one turn of the walk does.
pub enum KeysStep<KV, VV> {
    /// Nothing is left to visit.
    Exhausted,
    /// A key, or an error, is handed out.
    Yield(KeysModel<KV, VV>, Result<KV, Error>),
    /// The walk goes on.
    Continue(KeysModel<KV, VV>),
    /// The trie breaks what the walk takes for granted: a leaf's key does not
    /// begin with the path to it, an element is missing from the store, or an
    /// extension does not lead to a node.
    Stuck,
}

/// Visiting a leaf (the element `m` had on top before it was taken off):
/// its key is handed out where it lies under the prefix.
pub open spec fn spec_visit_leaf<K: FromBytes, V: FromBytes>(
    m: KeysModel<K::V, V::V>,
    key: K::V,
    path: Seq<u8>,
) -> KeysStep<K::V, V::V> {
    let key_bytes = K::spec_bytes(key);
    if key_bytes.len() > max_repr_len() {
        KeysStep::Yield(KeysModel { state: KeysIteratorState::Failed, ..m }, Err(Error::OutOfMemory))
    } else if !starts_with(key_bytes, path) {
        KeysStep::Stuck
    } else if starts_with(key_bytes, path + m.initial_descend) {
        KeysStep::Yield(m, Ok(key))
    } else {
        KeysStep::Continue(m)
    }
}

/// Visiting a node: while descending along the prefix, only the child for
/// the prefix's next byte is put back; otherwise the node is put back, to go
/// on from the slot after the child, and then the child in its next slot
/// with a pointer.
pub open spec fn spec_visit_node<K: FromBytes, V: FromBytes>(
    m: KeysModel<K::V, V::V>,
    pointer_block: Seq<Option<PointerModel>>,
    maybe_index: Option<usize>,
    path: Seq<u8>,
) -> KeysStep<K::V, V::V> {
    let failed = KeysModel { state: KeysIteratorState::Failed, ..m };
    if m.initial_descend.len() > 0 {
        let index = m.initial_descend[0];
        match pointer_block[index as int] {
            None => KeysStep::Continue(m),
            Some(p) => match fetch::<K, V>(m.store, p.hash()) {
                FetchModel::Bad(e) => KeysStep::Yield(failed, Err(e)),
                FetchModel::Missing => KeysStep::Stuck,
                FetchModel::Got(t) => KeysStep::Continue(
                    KeysModel {
                        initial_descend: m.initial_descend.drop_first(),
                        visited: m.visited.push(
                            VisitedModel { trie: t, maybe_index: None, path: path.push(index) },
                        ),
                        ..m
                    },
                ),
            },
        }
    } else {
        let start = match maybe_index {
            Some(i) => i as int,
            None => 0,
        };
        match first_some(pointer_block, start) {
            None => KeysStep::Continue(m),
            Some(i) => match fetch::<K, V>(m.store, pointer_block[i]->Some_0.hash()) {
                FetchModel::Bad(e) => KeysStep::Yield(failed, Err(e)),
                FetchModel::Missing => KeysStep::Stuck,
                FetchModel::Got(t) => KeysStep::Continue(
                    KeysModel {
                        visited: m.visited.push(
                            VisitedModel {
                                trie: TrieModel::Node { pointer_block },
                                maybe_index: Some((i + 1) as usize),
                                path,
                            },
                        ).push(VisitedModel { trie: t, maybe_index: None, path: path.push(i as u8) }),
                        ..m
                    },
                ),
            },
        }
    }
}

/// Visiting an extension: the prefix bytes it covers are taken off; where
/// its bytes agree with them, the node it points to is put back.
pub open spec fn spec_visit_extension<K: FromBytes, V: FromBytes>(
    m: KeysModel<K::V, V::V>,
    affix: Seq<u8>,
    pointer: PointerModel,
    path: Seq<u8>,
) -> KeysStep<K::V, V::V> {
    let n = if m.initial_descend.len() < affix.len() {
        m.initial_descend.len()
    } else {
        affix.len()
    };
    let m2 = KeysModel { initial_descend: m.initial_descend.skip(n as int), ..m };
    if affix.take(n as int) != m.initial_descend.take(n as int) {
        KeysStep::Continue(m2)
    } else {
        match fetch::<K, V>(m.store, pointer.hash()) {
            FetchModel::Bad(e) => KeysStep::Yield(
                KeysModel { state: KeysIteratorState::Failed, ..m2 },
                Err(e),
            ),
            FetchModel::Missing => KeysStep::Stuck,
            FetchModel::Got(t) => if t is Node {
                KeysStep::Continue(
                    KeysModel {
                        visited: m2.visited.push(
                            VisitedModel { trie: t, maybe_index: None, path: path + affix },
                        ),
                        ..m2
                    },
                )
            } else {
                KeysStep::Stuck
            },
        }
    }
}

/// Visiting element `v`, which was taken off the top of `m`'s elements.
pub open spec fn spec_visit<K: FromBytes, V: FromBytes>(
    m: KeysModel<K::V, V::V>,
    v: VisitedModel<K::V, V::V>,
) -> KeysStep<K::V, V::V> {
    match v.trie {
        TrieModel::Leaf { key, .. } => spec_visit_leaf::<K, V>(m, key, v.path),
        TrieModel::Node { pointer_block } => spec_visit_node::<K, V>(
            m,
            pointer_block,
            v.maybe_index,
            v.path,
        ),
        TrieModel::Extension { affix, pointer } => spec_visit_extension::<K, V>(
            m,
            affix,
            pointer,
            v.path,
        ),
    }
}

/// One turn of the walk: takes the element to visit next off the top and
/// visits it (see [`spec_visit`]).
pub open spec fn spec_keys_step<K: FromBytes, V: FromBytes>(m: KeysModel<K::V, V::V>) -> KeysStep<
    K::V,
    V::V,
> {
    if m.visited.len() == 0 {
        KeysStep::Exhausted
    } else {
        spec_visit::<K, V>(KeysModel { visited: m.visited.drop_last(), ..m }, m.visited.last())
    }
}

/// The walk's turns until one hands out a key or an error, or nothing is
/// left; `None` where that takes more than `fuel` turns or the walk is stuck.
pub open spec fn spec_iterate<K: FromBytes, V: FromBytes>(m: KeysModel<K::V, V::V>, fuel: nat) -> Option<
    (KeysModel<K::V, V::V>, Option<Result<K::V, Error>>),
>
    decreases fuel,
{
    if fuel == 0 {
        None
    } else {
        match spec_keys_step::<K, V>(m) {
            KeysStep::Exhausted => Some((m, None)),
            KeysStep::Yield(m2, r) => Some((m2, Some(r))),
            KeysStep::Continue(m2) => spec_iterate::<K, V>(m2, (fuel - 1) as nat),
            KeysStep::Stuck => None,
        }
    }
}

/// What asking for the next key gives: an error kept for the next call is
/// handed out (and the walk fails); a failed walk gives nothing more.
pub open spec fn spec_next<K: FromBytes, V: FromBytes>(m: KeysModel<K::V, V::V>, fuel: nat) -> Option<
    (KeysModel<K::V, V::V>, Option<Result<K::V, Error>>),
> {
    match m.state {
        KeysIteratorState::ReturnError(e) => Some(
            (KeysModel { state: KeysIteratorState::Failed, ..m }, Some(Err(e))),
        ),
        KeysIteratorState::Failed => Some((m, None)),
        KeysIteratorState::Iterating => spec_iterate::<K, V>(m, fuel),
    }
}

/// The model of what [`KeysIterator::next`] returns.
pub open spec fn next_view<K: DeepView>(r: Option<Result<K, Error>>) -> Option<Result<K::V, Error>> {
    match r {
        Some(Ok(k)) => Some(Ok(k.deep_view())),
        Some(Err(e)) => Some(Err(e)),
        None => None,
    }
}

/// Whether `bytes` begins with `prefix`.
fn vec_starts_with(bytes: &Vec<u8>, prefix: &Vec<u8>) -> (r: bool)
    ensures
        r == starts_with(bytes@, prefix@),
{
    if prefix.len() > bytes.len() {
        return false;
    }
    let head = &bytes.as_slice()[0..prefix.len()];
    assert(head@ =~= bytes@.take(prefix@.len() as int));
    bytes_eq(head, prefix.as_slice())
}

/// The walk over the keys under `prefix` that begins at the root stored
/// under `root`: nothing where there is no root, an error first where the
/// root cannot be read.
pub open spec fn spec_keys_with_prefix<K: FromBytes, V: FromBytes>(
    store: Map<Seq<u8>, Seq<u8>>,
    root: Seq<u8>,
    prefix: Seq<u8>,
) -> KeysModel<K::V, V::V> {
    match fetch::<K, V>(store, root) {
        FetchModel::Missing => KeysModel {
            initial_descend: prefix,
            visited: Seq::empty(),
            store,
            state: KeysIteratorState::Iterating,
        },
        FetchModel::Bad(e) => KeysModel {
            initial_descend: prefix,
            visited: Seq::empty(),
            store,
            state: KeysIteratorState::ReturnError(e),
        },
        FetchModel::Got(t) => KeysModel {
            initial_descend: prefix,
            visited: seq![VisitedModel { trie: t, maybe_index: None, path: Seq::empty() }],
            store,
            state: KeysIteratorState::Iterating,
        },
    }
}

/// Returns the iterator over the keys in the subtrie matching `prefix`.
///
/// The root should be the apex of the trie.
pub fn keys_with_prefix<'a, K: FromBytes, V: FromBytes>(
    store: &'a InMemoryTrieStore,
    root: &Blake2bHash,
    prefix: &[u8],
) -> (r: KeysIterator<'a, K, V>)
    ensures
        r@ == spec_keys_with_prefix::<K, V>(store@, root@, prefix@),
{
    let mut visited: Vec<VisitedTrieNode<K, V>> = Vec::new();
    let init_state = match store.get::<K, V>(root) {
        Ok(None) => KeysIteratorState::Iterating,
        Err(e) => KeysIteratorState::ReturnError(e),
        Ok(Some(current_root)) => {
            visited.push(VisitedTrieNode { trie: current_root, maybe_index: None, path: Vec::new() });
            KeysIteratorState::Iterating
        },
    };
    let mut initial_descend: VecDeque<u8> = VecDeque::new();
    let mut i: usize = 0;
    while i < prefix.len()
        invariant
            0 <= i <= prefix@.len(),
            initial_descend@ == prefix@.take(i as int),
        decreases prefix@.len() - i,
    {
        initial_descend.push_back(prefix[i]);
        assert(initial_descend@ =~= prefix@.take(i + 1));
        i = i + 1;
    }
    assert(prefix@.take(prefix@.len() as int) =~= prefix@);
    let r = KeysIterator { initial_descend, visited, store, state: init_state };
    assert(r@.visited =~= spec_keys_with_prefix::<K, V>(store@, root@, prefix@).visited);
    r
}

/// Returns the iterator over the keys at a given root hash.
///
/// The root should be the apex of the trie.
pub fn keys<'a, K: FromBytes, V: FromBytes>(store: &'a InMemoryTrieStore, root: &Blake2bHash) -> (r:
    KeysIterator<'a, K, V>)
    ensures
        r@ == spec_keys_with_prefix::<K, V>(store@, root@, Seq::empty()),
{
    let empty: [u8; 0] = [];
    let r = keys_with_prefix(store, root, &empty);
    assert(empty@ =~= Seq::<u8>::empty());
    r
}

/// The walk stays under `prefix`: while it still descends along the prefix
/// it holds at most one element, and each element's path followed by the
/// prefix bytes still to descend along begins with `prefix`.
pub open spec fn keys_under<KV, VV>(m: KeysModel<KV, VV>, prefix: Seq<u8>) -> bool {
    &&& m.initial_descend.len() > 0 ==> m.visited.len() <= 1
    &&& forall|i: int|
        0 <= i < m.visited.len() ==> starts_with(
            (#[trigger] m.visited[i]).path + m.initial_descend,
            prefix,
        )
}

proof fn lemma_starts_with_trans(a: Seq<u8>, b: Seq<u8>, c: Seq<u8>)
    requires
        starts_with(a, b),
        starts_with(b, c),
    ensures
        starts_with(a, c),
{
    assert(a.take(c.len() as int) =~= a.take(b.len() as int).take(c.len() as int));
}

proof fn lemma_starts_with_extend(a: Seq<u8>, x: Seq<u8>, c: Seq<u8>)
    requires
        starts_with(a, c),
    ensures
        starts_with(a + x, c),
{
    assert((a + x).take(c.len() as int) =~= a.take(c.len() as int));
}

/// A turn of the walk keeps it under `prefix`, and a key it hands out
/// begins with `prefix`.
proof fn lemma_step_under<K: FromBytes, V: FromBytes>(m: KeysModel<K::V, V::V>, prefix: Seq<u8>)
    requires
        keys_under(m, prefix),
    ensures
        match spec_keys_step::<K, V>(m) {
            KeysStep::Yield(m2, r) => keys_under(m2, prefix) && (r matches Ok(k) ==> starts_with(
                K::spec_bytes(k),
                prefix,
            )),
            KeysStep::Continue(m2) => keys_under(m2, prefix),
            _ => true,
        },
{
    if m.visited.len() > 0 {
        let v = m.visited.last();
        let d = m.initial_descend;
        let m1 = KeysModel { visited: m.visited.drop_last(), ..m };
        assert(m.visited[m.visited.len() - 1] == v);
        assert(starts_with(v.path + d, prefix));
        assert forall|i: int| 0 <= i < m1.visited.len() implies starts_with(
            (#[trigger] m1.visited[i]).path + m1.initial_descend,
            prefix,
        ) by {
            assert(m1.visited[i] == m.visited[i]);
        }
        match v.trie {
            TrieModel::Leaf { key, .. } => {
                let kb = K::spec_bytes(key);
                if starts_with(kb, v.path + d) {
                    lemma_starts_with_trans(kb, v.path + d, prefix);
                }
            },
            TrieModel::Node { pointer_block } => {
                if d.len() > 0 {
                    let index = d[0];
                    assert(v.path.push(index) + d.drop_first() =~= v.path + d);
                } else {
                    assert(v.path + d =~= v.path);
                    let start = match v.maybe_index {
                        Some(i) => i as int,
                        None => 0,
                    };
                    if let Some(i) = first_some(pointer_block, start) {
                        lemma_starts_with_extend(v.path, seq![i as u8], prefix);
                        assert(v.path.push(i as u8) =~= v.path + seq![i as u8]);
                        assert(v.path.push(i as u8) + d =~= v.path.push(i as u8));
                        let back = m1.visited.push(
                            VisitedModel {
                                trie: TrieModel::Node { pointer_block },
                                maybe_index: Some((i + 1) as usize),
                                path: v.path,
                            },
                        ).push(
                            VisitedModel { trie: v.trie, maybe_index: None, path: v.path.push(i as u8) },
                        );
                        assert forall|j: int| 0 <= j < back.len() - 2 implies back[j] == m1.visited[j] by {}
                    }
                }
            },
            TrieModel::Extension { affix, pointer } => {
                let n = if d.len() < affix.len() {
                    d.len()
                } else {
                    affix.len()
                };
                if affix.take(n as int) == d.take(n as int) {
                    let path2 = v.path + affix;
                    if n == d.len() {
                        assert(d.skip(n as int) =~= Seq::<u8>::empty());
                        assert(path2 + d.skip(n as int) =~= path2);
                        assert(d.take(n as int) =~= d);
                        assert(starts_with(path2, v.path + d)) by {
                            assert forall|j: int| 0 <= j < (v.path + d).len() implies path2.take(
                                (v.path + d).len() as int,
                            )[j] == (v.path + d)[j] by {
                                if j >= v.path.len() {
                                    assert(affix.take(n as int)[j - v.path.len()] == affix[j
                                        - v.path.len()]);
                                }
                            }
                            assert(path2.take((v.path + d).len() as int) =~= v.path + d);
                        }
                        lemma_starts_with_trans(path2, v.path + d, prefix);
                    } else {
                        assert(affix =~= d.take(n as int));
                        assert(path2 + d.skip(n as int) =~= v.path + d);
                    }
                }
                if d.len() == 0 {
                    assert(d.skip(0) =~= d);
                }
            },
        }
    }
}

/// The walk's turns keep it under `prefix`, and a key handed out begins with it.
proof fn lemma_iterate_under<K: FromBytes, V: FromBytes>(
    m: KeysModel<K::V, V::V>,
    prefix: Seq<u8>,
    fuel: nat,
)
    requires
        keys_under(m, prefix),
    ensures
        spec_iterate::<K, V>(m, fuel) matches Some((m2, r)) ==> keys_under(m2, prefix) && (r matches Some(
            Ok(k),
        ) ==> starts_with(K::spec_bytes(k), prefix)),
    decreases fuel,
{
    if fuel > 0 {
        lemma_step_under::<K, V>(m, prefix);
        if let KeysStep::Continue(m2) = spec_keys_step::<K, V>(m) {
            lemma_iterate_under::<K, V>(m2, prefix, (fuel - 1) as nat);
        }
    }
}

/// Law: the walk over the keys under `prefix` hands out only keys whose
/// representation begins with `prefix`, on every call of `next`.
pub proof fn keys_with_prefix_stay_under_prefix<K: FromBytes, V: FromBytes>(
    store: Map<Seq<u8>, Seq<u8>>,
    root: Seq<u8>,
    prefix: Seq<u8>,
)
    ensures
        keys_under(spec_keys_with_prefix::<K, V>(store, root, prefix), prefix),
        forall|m: KeysModel<K::V, V::V>, fuel: nat|
            keys_under(m, prefix) ==> (#[trigger] spec_next::<K, V>(m, fuel) matches Some((m2, r))
                ==> keys_under(m2, prefix) && (r matches Some(Ok(k)) ==> starts_with(
                K::spec_bytes(k),
                prefix,
            ))),
{
    let m0 = spec_keys_with_prefix::<K, V>(store, root, prefix);
    assert forall|i: int| 0 <= i < m0.visited.len() implies starts_with(
        (#[trigger] m0.visited[i]).path + m0.initial_descend,
        prefix,
    ) by {
        assert(Seq::<u8>::empty() + prefix =~= prefix);
        assert(prefix.take(prefix.len() as int) =~= prefix);
    }
    assert forall|m: KeysModel<K::V, V::V>, fuel: nat|
        keys_under(m, prefix) implies (#[trigger] spec_next::<K, V>(m, fuel) matches Some((m2, r))
        ==> keys_under(m2, prefix) && (r matches Some(Ok(k)) ==> starts_with(
        K::spec_bytes(k),
        prefix,
    ))) by {
        lemma_iterate_under::<K, V>(m, prefix, fuel);
    }
}

/// Element `v` of the walk leads to the leaf whose key has the
/// representation `p`: `p` begins with the element's path and the prefix
/// bytes still to descend along, a walk along `p` from the element finds a
/// leaf, and a node goes on from a slot at or before `p`'s byte there.
pub open spec fn leads_to<K: FromBytes, V: FromBytes>(
    store: Map<Seq<u8>, Seq<u8>>,
    v: VisitedModel<K::V, V::V>,
    p: Seq<u8>,
    descend: Seq<u8>,
) -> bool {
    &&& starts_with(p, v.path + descend)
    &&& walk::<K, V>(store, v.trie, p, v.path.len()) is Found
    &&& match v.maybe_index {
        Some(j) => v.trie is Node ==> j <= p[v.path.len() as int],
        None => true,
    }
}

/// The key with the representation `p` is still to come: the walk goes on,
/// and one of the elements it holds leads to the key.
pub open spec fn still_to_come<K: FromBytes, V: FromBytes>(m: KeysModel<K::V, V::V>, p: Seq<u8>) -> bool {
    &&& m.state == KeysIteratorState::Iterating
    &&& p.len() <= max_repr_len()
    &&& m.initial_descend.len() > 0 ==> m.visited.len() <= 1
    &&& exists|i: int|
        0 <= i < m.visited.len() && leads_to::<K, V>(
            m.store,
            #[trigger] m.visited[i],
            p,
            m.initial_descend,
        )
}

/// The first slot at `start` or after that holds a pointer comes no later
/// than any such slot.
proof fn lemma_first_some(pointer_block: Seq<Option<PointerModel>>, start: int, x: int)
    requires
        0 <= start <= x < 256,
        pointer_block[x] is Some,
    ensures
        first_some(pointer_block, start) matches Some(i) && start <= i <= x && pointer_block[i] is Some,
    decreases x - start,
{
    if pointer_block[start] is None {
        lemma_first_some(pointer_block, start + 1, x);
    }
}

/// An element below the top of the walk that leads to the key still does
/// so after a turn that keeps the elements below the top and what is left
/// to descend along.
proof fn lemma_to_come_below<K: FromBytes, V: FromBytes>(
    m: KeysModel<K::V, V::V>,
    m2: KeysModel<K::V, V::V>,
    p: Seq<u8>,
    w: int,
)
    requires
        still_to_come::<K, V>(m, p),
        0 <= w < m.visited.len() - 1,
        leads_to::<K, V>(m.store, m.visited[w], p, m.initial_descend),
        m2.state == m.state,
        m2.store == m.store,
        m2.initial_descend == m.initial_descend,
        m2.visited.len() >= m.visited.len() - 1,
        forall|i: int| 0 <= i < m.visited.len() - 1 ==> m2.visited[i] == m.visited[i],
    ensures
        still_to_come::<K, V>(m2, p),
{
    assert(m2.visited[w] == m.visited[w]);
}

/// What a turn of the walk promises while the key with representation `p`
/// is still to come: it does not end the walk, and it hands out that key or
/// the key is still to come after it (an error aside).
pub open spec fn turn_keeps<K: FromBytes, V: FromBytes>(step: KeysStep<K::V, V::V>, p: Seq<u8>) -> bool {
    match step {
        KeysStep::Exhausted => false,
        KeysStep::Yield(m2, Ok(k)) => K::spec_bytes(k) == p || still_to_come::<K, V>(m2, p),
        KeysStep::Continue(m2) => still_to_come::<K, V>(m2, p),
        _ => true,
    }
}

/// The walk with its top element taken off.
pub open spec fn popped<KV, VV>(m: KeysModel<KV, VV>) -> KeysModel<KV, VV> {
    KeysModel { visited: m.visited.drop_last(), ..m }
}

/// See [`lemma_step_to_come`]: the top element is a leaf.
proof fn lemma_leaf_to_come<K: FromBytes, V: FromBytes>(
    m: KeysModel<K::V, V::V>,
    p: Seq<u8>,
    w: int,
    key: K::V,
)
    requires
        still_to_come::<K, V>(m, p),
        0 <= w < m.visited.len(),
        leads_to::<K, V>(m.store, m.visited[w], p, m.initial_descend),
        m.visited.last().trie matches TrieModel::Leaf { key: k, .. } && k == key,
    ensures
        turn_keeps::<K, V>(spec_visit_leaf::<K, V>(popped(m), key, m.visited.last().path), p),
{
    let top = m.visited.len() - 1;
    let v = m.visited.last();
    assert(m.visited[top] == v);
    let desc = m.initial_descend;
    let d = v.path.len();
    if w == top {
        assert(K::spec_bytes(key) == p);
        assert(starts_with(p, v.path)) by {
            assert(p.take(d as int) =~= p.take((v.path + desc).len() as int).take(d as int));
            assert((v.path + desc).take(d as int) =~= v.path);
        }
    } else {
        lemma_to_come_below::<K, V>(m, popped(m), p, w);
    }
}

/// See [`lemma_step_to_come`]: the top element is a node.
proof fn lemma_node_to_come<K: FromBytes, V: FromBytes>(
    m: KeysModel<K::V, V::V>,
    p: Seq<u8>,
    w: int,
    pointer_block: Seq<Option<PointerModel>>,
)
    requires
        still_to_come::<K, V>(m, p),
        0 <= w < m.visited.len(),
        leads_to::<K, V>(m.store, m.visited[w], p, m.initial_descend),
        m.visited.last().trie == (TrieModel::<K::V, V::V>::Node { pointer_block }),
    ensures
        turn_keeps::<K, V>(
            spec_visit_node::<K, V>(
                popped(m),
                pointer_block,
                m.visited.last().maybe_index,
                m.visited.last().path,
            ),
            p,
        ),
{
    let top = m.visited.len() - 1;
    assert(m.visited[top] == m.visited.last());
    if m.initial_descend.len() > 0 {
        lemma_node_descend_to_come::<K, V>(m, p, pointer_block);
    } else if w == top {
        lemma_node_top_to_come::<K, V>(m, p, pointer_block);
    } else {
        let v = m.visited.last();
        let m1 = popped(m);
        let start = match v.maybe_index {
            Some(i) => i as int,
            None => 0,
        };
        if let Some(i) = first_some(pointer_block, start) {
            if let FetchModel::Got(c) = fetch::<K, V>(m.store, pointer_block[i]->Some_0.hash()) {
                let vis2 = m1.visited.push(
                    VisitedModel {
                        trie: TrieModel::Node { pointer_block },
                        maybe_index: Some((i + 1) as usize),
                        path: v.path,
                    },
                ).push(VisitedModel { trie: c, maybe_index: None, path: v.path.push(i as u8) });
                lemma_to_come_below::<K, V>(m, KeysModel { visited: vis2, ..m }, p, w);
            }
        } else {
            lemma_to_come_below::<K, V>(m, m1, p, w);
        }
    }
}

/// See [`lemma_node_to_come`]: the walk still descends along the prefix.
proof fn lemma_node_descend_to_come<K: FromBytes, V: FromBytes>(
    m: KeysModel<K::V, V::V>,
    p: Seq<u8>,
    pointer_block: Seq<Option<PointerModel>>,
)
    requires
        still_to_come::<K, V>(m, p),
        m.initial_descend.len() > 0,
        m.visited.len() > 0,
        m.visited.last().trie == (TrieModel::<K::V, V::V>::Node { pointer_block }),
    ensures
        turn_keeps::<K, V>(
            spec_visit_node::<K, V>(
                popped(m),
                pointer_block,
                m.visited.last().maybe_index,
                m.visited.last().path,
            ),
            p,
        ),
{
    let w = choose|i: int|
        0 <= i < m.visited.len() && leads_to::<K, V>(
            m.store,
            #[trigger] m.visited[i],
            p,
            m.initial_descend,
        );
    assert(w == 0 && m.visited.len() == 1);
    let v = m.visited.last();
    assert(m.visited[0] == v);
    let desc = m.initial_descend;
    let d = v.path.len();
    let m1 = popped(m);
    let index = desc[0];
    assert(p.take((v.path + desc).len() as int)[d as int] == p[d as int]);
    assert(p[d as int] == index);
    let q = pointer_block[index as int]->Some_0;
    if let FetchModel::Got(c) = fetch::<K, V>(m.store, q.hash()) {
        let child = VisitedModel { trie: c, maybe_index: None, path: v.path.push(index) };
        let m2 = KeysModel {
            initial_descend: desc.drop_first(),
            visited: m1.visited.push(child),
            ..m
        };
        assert(spec_visit_node::<K, V>(m1, pointer_block, v.maybe_index, v.path) == KeysStep::Continue(
            m2,
        ));
        assert(v.path.push(index) + desc.drop_first() =~= v.path + desc);
        assert(m2.visited[0] == child);
        assert(leads_to::<K, V>(m.store, child, p, desc.drop_first()));
        assert(still_to_come::<K, V>(m2, p));
    }
}

/// See [`lemma_node_to_come`]: the node on top leads to the key.
proof fn lemma_node_top_to_come<K: FromBytes, V: FromBytes>(
    m: KeysModel<K::V, V::V>,
    p: Seq<u8>,
    pointer_block: Seq<Option<PointerModel>>,
)
    requires
        still_to_come::<K, V>(m, p),
        m.initial_descend.len() == 0,
        m.visited.len() > 0,
        leads_to::<K, V>(m.store, m.visited.last(), p, m.initial_descend),
        m.visited.last().trie == (TrieModel::<K::V, V::V>::Node { pointer_block }),
    ensures
        turn_keeps::<K, V>(
            spec_visit_node::<K, V>(
                popped(m),
                pointer_block,
                m.visited.last().maybe_index,
                m.visited.last().path,
            ),
            p,
        ),
{
    let v = m.visited.last();
    let desc = m.initial_descend;
    let d = v.path.len();
    let m1 = popped(m);
    let start = match v.maybe_index {
        Some(i) => i as int,
        None => 0,
    };
    assert(v.path + desc =~= v.path);
    let x = p[d as int];
    lemma_first_some(pointer_block, start, x as int);
    let i = first_some(pointer_block, start)->Some_0;
    if let FetchModel::Got(c) = fetch::<K, V>(m.store, pointer_block[i]->Some_0.hash()) {
        let node = VisitedModel {
            trie: TrieModel::Node { pointer_block },
            maybe_index: Some((i + 1) as usize),
            path: v.path,
        };
        let child = VisitedModel { trie: c, maybe_index: None, path: v.path.push(i as u8) };
        let m2 = KeysModel { visited: m1.visited.push(node).push(child), ..m1 };
        assert(spec_visit_node::<K, V>(m1, pointer_block, v.maybe_index, v.path) == KeysStep::Continue(
            m2,
        ));
        if i == x as int {
            assert(m2.visited[m2.visited.len() - 1] == child);
            assert(v.path.push(i as u8) + desc =~= p.take(d + 1 as int)) by {
                assert(p.take(d as int) =~= v.path);
            }
            assert(leads_to::<K, V>(m.store, child, p, desc));
        } else {
            assert(m2.visited[m2.visited.len() - 2] == node);
            assert(leads_to::<K, V>(m.store, node, p, desc));
        }
        assert(still_to_come::<K, V>(m2, p));
    }
}

/// See [`lemma_step_to_come`]: the top element is an extension.
proof fn lemma_extension_to_come<K: FromBytes, V: FromBytes>(
    m: KeysModel<K::V, V::V>,
    p: Seq<u8>,
    w: int,
    affix: Seq<u8>,
    pointer: PointerModel,
)
    requires
        still_to_come::<K, V>(m, p),
        0 <= w < m.visited.len(),
        leads_to::<K, V>(m.store, m.visited[w], p, m.initial_descend),
        m.visited.last().trie == (TrieModel::<K::V, V::V>::Extension { affix, pointer }),
    ensures
        turn_keeps::<K, V>(
            spec_visit_extension::<K, V>(popped(m), affix, pointer, m.visited.last().path),
            p,
        ),
{
    let top = m.visited.len() - 1;
    let v = m.visited.last();
    assert(m.visited[top] == v);
    let desc = m.initial_descend;
    let d = v.path.len();
    let m1 = popped(m);
    let n = if desc.len() < affix.len() {
        desc.len()
    } else {
        affix.len()
    };
    if w == top {
        assert(affix.take(n as int) =~= desc.take(n as int)) by {
            assert forall|j: int| 0 <= j < n implies affix[j] == desc[j] by {
                assert(p.subrange(d as int, (d + affix.len()) as int)[j] == p[d + j]);
                assert(p.take((v.path + desc).len() as int)[d + j] == p[d + j]);
            }
        }
        let c = fetch::<K, V>(m.store, pointer.hash())->Got_0;
        if c is Node {
            let child = VisitedModel { trie: c, maybe_index: None, path: v.path + affix };
            let m2 = KeysModel {
                initial_descend: desc.skip(n as int),
                visited: m1.visited.push(child),
                ..m
            };
            assert(spec_visit_extension::<K, V>(m1, affix, pointer, v.path) == KeysStep::Continue(m2));
            assert(m2.visited[m1.visited.len() as int] == child);
            if n == affix.len() {
                assert(v.path + affix + desc.skip(n as int) =~= v.path + desc);
            } else {
                assert(desc.skip(n as int) =~= Seq::<u8>::empty());
                assert(v.path + affix + desc.skip(n as int) =~= p.take((d + affix.len()) as int)) by {
                    assert(p.take(d as int) =~= p.take((v.path + desc).len() as int).take(d as int));
                    assert((v.path + desc).take(d as int) =~= v.path);
                }
            }
            lemma_walk_run_more::<K, V>(
                m.store,
                c,
                p,
                d + affix.len(),
                next_run(empty_run_limit(), d, d + affix.len()),
                empty_run_limit(),
            );
            assert(leads_to::<K, V>(m.store, child, p, desc.skip(n as int)));
            if desc.skip(n as int).len() > 0 {
                assert(m1.visited.len() == 0);
            }
            assert(still_to_come::<K, V>(m2, p));
        }
    } else {
        assert(desc.len() == 0);
        assert(desc.skip(0) =~= desc);
        assert(affix.take(0) =~= desc.take(0));
        assert(n == 0);
        if let FetchModel::Got(c) = fetch::<K, V>(m.store, pointer.hash()) {
            let vis2 = m1.visited.push(VisitedModel { trie: c, maybe_index: None, path: v.path + affix });
            lemma_to_come_below::<K, V>(m, KeysModel { visited: vis2, ..m }, p, w);
        }
    }
}

/// A turn of the walk never ends it while a key is still to come: it hands
/// out that key, or the key is still to come after it (an error aside).
proof fn lemma_step_to_come<K: FromBytes, V: FromBytes>(m: KeysModel<K::V, V::V>, p: Seq<u8>)
    requires
        still_to_come::<K, V>(m, p),
    ensures
        turn_keeps::<K, V>(spec_keys_step::<K, V>(m), p),
{
    let w = choose|i: int|
        0 <= i < m.visited.len() && leads_to::<K, V>(
            m.store,
            #[trigger] m.visited[i],
            p,
            m.initial_descend,
        );
    match m.visited.last().trie {
        TrieModel::Leaf { key, .. } => lemma_leaf_to_come::<K, V>(m, p, w, key),
        TrieModel::Node { pointer_block } => lemma_node_to_come::<K, V>(m, p, w, pointer_block),
        TrieModel::Extension { affix, pointer } => lemma_extension_to_come::<K, V>(
            m,
            p,
            w,
            affix,
            pointer,
        ),
    }
}

/// The walk's turns up to the next key or error never end it while a key
/// is still to come: they hand out that key, or it is still to come after.
proof fn lemma_iterate_to_come<K: FromBytes, V: FromBytes>(
    m: KeysModel<K::V, V::V>,
    p: Seq<u8>,
    fuel: nat,
)
    requires
        still_to_come::<K, V>(m, p),
    ensures
        spec_iterate::<K, V>(m, fuel) matches Some((m2, r)) ==> r is Some && (r matches Some(Ok(k))
            ==> K::spec_bytes(k) == p || still_to_come::<K, V>(m2, p)),
    decreases fuel,
{
    if fuel > 0 {
        lemma_step_to_come::<K, V>(m, p);
        if let KeysStep::Continue(m2) = spec_keys_step::<K, V>(m) {
            lemma_iterate_to_come::<K, V>(m2, p, (fuel - 1) as nat);
        }
    }
}

/// Law: the walk over the keys under `prefix` misses no key that a read
/// finds under it: the key is still to come when the walk begins, and while
/// it is, a call of `next` never reports the end; it hands out the key (a
/// key of the same representation), or an error, or the key is still to
/// come after it.
pub proof fn keys_with_prefix_miss_no_key<K: FromBytes, V: FromBytes>(
    store: Map<Seq<u8>, Seq<u8>>,
    root: Seq<u8>,
    prefix: Seq<u8>,
    key: K::V,
)
    requires
        spec_read::<K, V>(store, root, key) is Found,
        starts_with(K::spec_bytes(key), prefix),
    ensures
        still_to_come::<K, V>(spec_keys_with_prefix::<K, V>(store, root, prefix), K::spec_bytes(key)),
        forall|m: KeysModel<K::V, V::V>, fuel: nat|
            still_to_come::<K, V>(m, K::spec_bytes(key)) ==> (#[trigger] spec_next::<K, V>(
                m,
                fuel,
            ) matches Some((m2, r)) ==> r is Some && (r matches Some(Ok(k)) ==> K::spec_bytes(k)
                == K::spec_bytes(key) || still_to_come::<K, V>(m2, K::spec_bytes(key)))),
{
    let p = K::spec_bytes(key);
    let m0 = spec_keys_with_prefix::<K, V>(store, root, prefix);
    let t = fetch::<K, V>(store, root)->Got_0;
    let v0 = VisitedModel { trie: t, maybe_index: None, path: Seq::<u8>::empty() };
    assert(m0.visited[0] == v0);
    assert(Seq::<u8>::empty() + prefix =~= prefix);
    assert(leads_to::<K, V>(store, v0, p, prefix));
    assert forall|m: KeysModel<K::V, V::V>, fuel: nat|
        still_to_come::<K, V>(m, p) implies (#[trigger] spec_next::<K, V>(m, fuel) matches Some(
        (m2, r),
    ) ==> r is Some && (r matches Some(Ok(k)) ==> K::spec_bytes(k) == p || still_to_come::<K, V>(
        m2,
        p,
    ))) by {
        lemma_iterate_to_come::<K, V>(m, p, fuel);
    }
}

/// What a visit did.
pub enum Visit<K> {
    Yield(Result<K, Error>),
    Continue,
}

/// The model of a visit's outcome, with the walk after it.
pub open spec fn visit_matches<K: DeepView, KV, VV>(
    step: KeysStep<K::V, VV>,
    after: KeysModel<K::V, VV>,
    r: Visit<K>,
) -> bool {
    match step {
        KeysStep::Yield(m2, res) => r matches Visit::Yield(x) && after == m2 && res == match x {
            Ok(k) => Ok::<K::V, Error>(k.deep_view()),
            Err(e) => Err(e),
        },
        KeysStep::Continue(m2) => r is Continue && after == m2,
        _ => false,
    }
}

impl<'a, K: FromBytes, V: FromBytes> KeysIterator<'a, K, V> {
    /// Visits a leaf holding `key`, reached along `path`.
    fn visit_leaf(&mut self, key: K, path: Vec<u8>) -> (r: Visit<K>)
        requires
            !(spec_visit_leaf::<K, V>(old(self)@, key.deep_view(), path@) is Stuck),
        ensures
            visit_matches::<K, K::V, V::V>(
                spec_visit_leaf::<K, V>(old(self)@, key.deep_view(), path@),
                final(self)@,
                r,
            ),
    {
        let key_bytes = match key.to_bytes() {
            Ok(bytes) => bytes,
            Err(e) => {
                self.state = KeysIteratorState::Failed;
                return Visit::Yield(Err(e));
            },
        };
        // Only a leaf under the prefix is handed out.
        let mut path = path;
        let ghost path0 = path@;
        let mut i: usize = 0;
        while i < self.initial_descend.len()
            invariant
                0 <= i <= self.initial_descend@.len(),
                path@ == path0 + self.initial_descend@.take(i as int),
            decreases self.initial_descend@.len() - i,
        {
            path.push(self.initial_descend[i]);
            assert(path@ =~= path0 + self.initial_descend@.take(i + 1));
            i = i + 1;
        }
        assert(self.initial_descend@.take(self.initial_descend@.len() as int)
            =~= self.initial_descend@);
        if vec_starts_with(&key_bytes, &path) {
            Visit::Yield(Ok(key))
        } else {
            Visit::Continue
        }
    }

    /// Visits a node with `pointer_block`, reached along `path`, to go on
    /// from slot `maybe_index`.
    fn visit_node(
        &mut self,
        pointer_block: Box<PointerBlock>,
        maybe_index: Option<usize>,
        path: Vec<u8>,
    ) -> (r: Visit<K>)
        requires
            !(spec_visit_node::<K, V>(old(self)@, pointer_block.deep_view(), maybe_index, path@) is Stuck),
        ensures
            visit_matches::<K, K::V, V::V>(
                spec_visit_node::<K, V>(old(self)@, pointer_block.deep_view(), maybe_index, path@),
                final(self)@,
                r,
            ),
    {
        let ghost block = pointer_block.deep_view();
        let mut path = path;
        if self.initial_descend.len() > 0 {
            let index = self.initial_descend[0];
            let pointer = match pointer_block.get(index as usize) {
                None => return Visit::Continue,
                Some(pointer) => pointer,
            };
            match self.store.get::<K, V>(pointer.hash()) {
                Err(e) => {
                    self.state = KeysIteratorState::Failed;
                    Visit::Yield(Err(e))
                },
                Ok(None) => {
                    proof {
                        assert(false);
                    }
                    Visit::Continue
                },
                Ok(Some(next)) => {
                    let ghost before = self.visited.deep_view();
                    self.initial_descend.pop_front();
                    path.push(index);
                    self.visited.push(VisitedTrieNode { trie: next, maybe_index: None, path });
                    assert(self.visited.deep_view() =~= before.push(
                        VisitedModel { trie: next.deep_view(), maybe_index: None, path: path@ },
                    ));
                    assert(self.initial_descend@ =~= old(self)@.initial_descend.drop_first());
                    Visit::Continue
                },
            }
        } else {
            let mut index: usize = match maybe_index {
                Some(i) => i,
                None => 0,
            };
            let ghost start = index as int;
            while index < RADIX && pointer_block.get(index).is_none()
                invariant
                    block == pointer_block.deep_view(),
                    first_some(block, start) == first_some(block, index as int),
                    start <= index,
                decreases RADIX - index,
            {
                index = index + 1;
            }
            if index >= RADIX {
                return Visit::Continue;
            }
            let pointer = match pointer_block.get(index) {
                Some(p) => p,
                None => {
                    proof {
                        assert(false);
                    }
                    return Visit::Continue;
                },
            };
            assert(first_some(block, start) == Some(index as int));
            match self.store.get::<K, V>(pointer.hash()) {
                Err(e) => {
                    self.state = KeysIteratorState::Failed;
                    Visit::Yield(Err(e))
                },
                Ok(None) => {
                    proof {
                        assert(false);
                    }
                    Visit::Continue
                },
                Ok(Some(next)) => {
                    let ghost before = self.visited.deep_view();
                    let ghost path0 = path@;
                    let node_path = slice_to_vec(path.as_slice());
                    self.visited.push(
                        VisitedTrieNode {
                            trie: Trie::Node { pointer_block },
                            maybe_index: Some(index + 1),
                            path: node_path,
                        },
                    );
                    path.push(index as u8);
                    self.visited.push(VisitedTrieNode { trie: next, maybe_index: None, path });
                    assert(self.visited.deep_view() =~= before.push(
                        VisitedModel {
                            trie: TrieModel::Node { pointer_block: block },
                            maybe_index: Some((index + 1) as usize),
                            path: path0,
                        },
                    ).push(
                        VisitedModel {
                            trie: next.deep_view(),
                            maybe_index: None,
                            path: path0.push(index as u8),
                        },
                    ));
                    Visit::Continue
                },
            }
        }
    }

    /// Visits an extension with `affix` and `pointer`, reached along `path`.
    fn visit_extension(&mut self, affix: Vec<u8>, pointer: Pointer, path: Vec<u8>) -> (r: Visit<K>)
        requires
            !(spec_visit_extension::<K, V>(old(self)@, affix@, pointer.deep_view(), path@) is Stuck),
        ensures
            visit_matches::<K, K::V, V::V>(
                spec_visit_extension::<K, V>(old(self)@, affix@, pointer.deep_view(), path@),
                final(self)@,
                r,
            ),
    {
        let mut path = path;
        let descend_len = if self.initial_descend.len() < affix.len() {
            self.initial_descend.len()
        } else {
            affix.len()
        };
        let ghost descend = self.initial_descend@;
        let mut check_prefix: Vec<u8> = Vec::new();
        let mut k: usize = 0;
        while k < descend_len
            invariant
                0 <= k <= descend_len,
                descend_len <= descend.len(),
                check_prefix@ == descend.take(k as int),
                self.initial_descend@ == descend.skip(k as int),
                self.store == old(self).store,
                self.visited == old(self).visited,
                self.state == old(self).state,
            decreases descend_len - k,
        {
            match self.initial_descend.pop_front() {
                Some(b) => check_prefix.push(b),
                None => {},
            }
            assert(check_prefix@ =~= descend.take(k + 1));
            assert(self.initial_descend@ =~= descend.skip(k + 1));
            k = k + 1;
        }
        // While descending, go on only where the affix agrees with the prefix.
        let affix_head = &affix.as_slice()[0..descend_len];
        assert(affix_head@ =~= affix@.take(descend_len as int));
        if !bytes_eq(affix_head, check_prefix.as_slice()) {
            return Visit::Continue;
        }
        match self.store.get::<K, V>(pointer.hash()) {
            Err(e) => {
                self.state = KeysIteratorState::Failed;
                Visit::Yield(Err(e))
            },
            Ok(None) => {
                proof {
                    assert(false);
                }
                Visit::Continue
            },
            Ok(Some(next)) => {
                let ghost path0 = path@;
                let mut j: usize = 0;
                while j < affix.len()
                    invariant
                        0 <= j <= affix@.len(),
                        path@ == path0 + affix@.take(j as int),
                    decreases affix@.len() - j,
                {
                    path.push(affix[j]);
                    assert(path@ =~= path0 + affix@.take(j + 1));
                    j = j + 1;
                }
                assert(affix@.take(affix@.len() as int) =~= affix@);
                let ghost before = self.visited.deep_view();
                self.visited.push(VisitedTrieNode { trie: next, maybe_index: None, path });
                assert(self.visited.deep_view() =~= before.push(
                    VisitedModel { trie: next.deep_view(), maybe_index: None, path: path0 + affix@ },
                ));
                Visit::Continue
            },
        }
    }

    /// The next key of the walk, or the error met; `None` when the walk is
    /// over or has failed (see [`spec_next`]).
    pub fn next(&mut self) -> (r: Option<Result<K, Error>>)
        requires
            exists|fuel: nat| #[trigger] spec_next::<K, V>(old(self)@, fuel) is Some,
        ensures
            exists|fuel: nat|
                #[trigger] spec_next::<K, V>(old(self)@, fuel) == Some((final(self)@, next_view(r))),
    {
        let ghost m0 = self@;
        let ghost fuel0 = choose|fuel: nat| #[trigger] spec_next::<K, V>(m0, fuel) is Some;
        let ghost target = spec_next::<K, V>(m0, fuel0);
        match self.state {
            KeysIteratorState::Iterating => {},
            KeysIteratorState::ReturnError(e) => {
                self.state = KeysIteratorState::Failed;
                let r = Some(Err(e));
                assert(spec_next::<K, V>(m0, fuel0) == Some((self@, next_view(r))));
                return r;
            },
            KeysIteratorState::Failed => {
                let r = None;
                assert(spec_next::<K, V>(m0, fuel0) == Some((self@, next_view(r))));
                return r;
            },
        }
        let ghost mut fuel: nat = fuel0;
        loop
            invariant
                self.state == KeysIteratorState::Iterating,
                m0 == old(self)@,
                target is Some,
                target == spec_next::<K, V>(m0, fuel0),
                spec_iterate::<K, V>(self@, fuel) == target,
            decreases fuel,
        {
            let ghost m = self@;
            let ghost vs = self.visited.deep_view();
            let node = match self.visited.pop() {
                None => {
                    let r = None;
                    assert(target == Some((self@, next_view::<K>(r))));
                    assert(spec_next::<K, V>(m0, fuel0) == Some((self@, next_view::<K>(r))));
                    return r;
                },
                Some(v) => v,
            };
            assert(self.visited.deep_view() =~= vs.drop_last());
            assert(spec_keys_step::<K, V>(m) == spec_visit::<K, V>(self@, node.deep_view()));
            let VisitedTrieNode { trie, maybe_index, path } = node;
            let visit = match trie {
                Trie::Leaf { key, value } => self.visit_leaf(key, path),
                Trie::Node { pointer_block } => self.visit_node(pointer_block, maybe_index, path),
                Trie::Extension { affix, pointer } => self.visit_extension(affix, pointer, path),
            };
            match visit {
                Visit::Yield(res) => {
                    let r = Some(res);
                    assert(target == Some((self@, next_view(r))));
                    assert(spec_next::<K, V>(m0, fuel0) == Some((self@, next_view(r))));
                    return r;
                },
                Visit::Continue => {},
            }
            proof {
                fuel = (fuel - 1) as nat;
            }
        }
    }
}

} // verus!
