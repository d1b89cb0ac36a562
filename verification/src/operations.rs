//! Reading from a trie in a store, with or without a proof of what was
//! read, and writing to it: what a read finds, what a write stores, and what
//! holds of the two together.
use std::collections::VecDeque;
use vstd::laws_eq::obeys_concrete_eq;
use vstd::prelude::*;

use crate::bytesrepr::{max_repr_len, Error, FromBytes, ToBytes};
use crate::hash::Blake2bHash;
use crate::merkle_proof::{
    fold_steps, repr_hash, spec_compute_state_hash, step_hash, step_pointer, ProofModel,
    StepModel, TrieMerkleProof, TrieMerkleProofStep,
};
use crate::store::{fetch, pointer_kind_fits, store_wf, FetchModel, InMemoryTrieStore};
use crate::trie::{
    block_from, indexed_except, lemma_rebuild_block, Pointer, PointerBlock, PointerModel, Trie,
    TrieModel,
};
use crate::well_formed::{
    lemma_chain_from_scan, lemma_chain_push, lemma_others_of_all, lemma_rehash_pointers,
    lemma_resolve_more, lemma_scan_chain, lemma_single_block, pointer_resolves, pointers_resolve,
    store_closed,
};

verus! {

/// What a read of a key finds.
#[derive(Debug, PartialEq, Eq)]
pub enum ReadResult<V> {
    Found(V),
    NotFound,
    RootNotFound,
}

/// The outcome of walking down a trie along a path.
pub enum WalkModel<KV, VV> {
    /// The leaf for the path, with the proof steps from it up to where the walk began.
    Found { key: KV, value: VV, steps: Seq<StepModel> },
    /// There is no leaf for the path.
    NotFound,
    /// Nothing is stored under the root hash.
    RootNotFound,
    /// Stored bytes could not be read as a trie element.
    Failed(Error),
    /// The walk cannot go on: the path ends too soon, an element is missing
    /// from the store, or extensions without path bytes follow one another
    /// more often than a store can hold elements, so that they form a loop.
    Stuck,
}

/// Adds `acc`, the steps of the levels above, to a found leaf's steps.
pub open spec fn extend_steps<KV, VV>(w: WalkModel<KV, VV>, acc: Seq<StepModel>) -> WalkModel<
    KV,
    VV,
> {
    match w {
        WalkModel::Found { key, value, steps } => WalkModel::Found { key, value, steps: steps + acc },
        _ => w,
    }
}

proof fn lemma_extend_twice<KV, VV>(w: WalkModel<KV, VV>, a: Seq<StepModel>, b: Seq<StepModel>)
    ensures
        extend_steps(extend_steps(w, a), b) == extend_steps(w, a + b),
{
    if let WalkModel::Found { key, value, steps } = w {
        assert(steps + a + b =~= steps + (a + b));
    }
}

/// How many extensions without path bytes a walk passes in a row before it
/// takes them for a loop: more than a store, which holds at most
/// `usize::MAX` elements, can hold elements.
pub open spec fn empty_run_limit() -> nat {
    usize::MAX as nat + 1
}

/// Walks down from element `t`, which sits `depth` bytes along `path`, where
/// `run` more extensions without path bytes may follow in a row.
pub open spec fn walk_in<K: FromBytes, V: FromBytes>(
    m: Map<Seq<u8>, Seq<u8>>,
    t: TrieModel<K::V, V::V>,
    path: Seq<u8>,
    depth: nat,
    run: nat,
) -> WalkModel<K::V, V::V>
    decreases path.len() - depth, run,
{
    match t {
        TrieModel::Leaf { key, value } => if K::spec_bytes(key) == path {
            WalkModel::Found { key, value, steps: Seq::empty() }
        } else {
            WalkModel::NotFound
        },
        TrieModel::Node { pointer_block } => if depth >= path.len() {
            WalkModel::Stuck
        } else {
            let index = path[depth as int];
            match pointer_block[index as int] {
                None => WalkModel::NotFound,
                Some(p) => match fetch::<K, V>(m, p.hash()) {
                    FetchModel::Missing => WalkModel::Stuck,
                    FetchModel::Bad(e) => WalkModel::Failed(e),
                    FetchModel::Got(child) => extend_steps(
                        walk_in::<K, V>(m, child, path, depth + 1, empty_run_limit()),
                        seq![
                            StepModel::Node {
                                hole_index: index,
                                indexed_pointers_with_hole: indexed_except(
                                    pointer_block,
                                    index as int,
                                ),
                            },
                        ],
                    ),
                },
            }
        },
        TrieModel::Extension { affix, pointer } => if depth + affix.len() > path.len() {
            WalkModel::Stuck
        } else if path.subrange(depth as int, (depth + affix.len()) as int) != affix {
            WalkModel::NotFound
        } else if affix.len() == 0 && run == 0 {
            WalkModel::Stuck
        } else {
            match fetch::<K, V>(m, pointer.hash()) {
                FetchModel::Missing => WalkModel::Stuck,
                FetchModel::Bad(e) => WalkModel::Failed(e),
                FetchModel::Got(child) => extend_steps(
                    walk_in::<K, V>(
                        m,
                        child,
                        path,
                        depth + affix.len(),
                        if affix.len() == 0 {
                            (run - 1) as nat
                        } else {
                            empty_run_limit()
                        },
                    ),
                    seq![StepModel::Extension { affix }],
                ),
            }
        },
    }
}

/// Walks down from element `t`, which sits `depth` bytes along `path`.
pub open spec fn walk<K: FromBytes, V: FromBytes>(
    m: Map<Seq<u8>, Seq<u8>>,
    t: TrieModel<K::V, V::V>,
    path: Seq<u8>,
    depth: nat,
) -> WalkModel<K::V, V::V> {
    walk_in::<K, V>(m, t, path, depth, empty_run_limit())
}

/// A walk that does not get stuck goes the same way with a longer allowance
/// of extensions without path bytes.
pub proof fn lemma_walk_run_more<K: FromBytes, V: FromBytes>(
    m: Map<Seq<u8>, Seq<u8>>,
    t: TrieModel<K::V, V::V>,
    path: Seq<u8>,
    depth: nat,
    run: nat,
    more: nat,
)
    requires
        run <= more,
    ensures
        walk_in::<K, V>(m, t, path, depth, run) != WalkModel::<K::V, V::V>::Stuck ==> walk_in::<
            K,
            V,
        >(m, t, path, depth, more) == walk_in::<K, V>(m, t, path, depth, run),
    decreases path.len() - depth, run,
{
    if let TrieModel::Extension { affix, pointer } = t {
        if depth + affix.len() <= path.len() && affix.len() == 0 && run > 0 {
            if let FetchModel::Got(child) = fetch::<K, V>(m, pointer.hash()) {
                lemma_walk_run_more::<K, V>(
                    m,
                    child,
                    path,
                    depth,
                    (run - 1) as nat,
                    (more - 1) as nat,
                );
            }
        }
    }
}

/// What reading `key` from the trie with root hash `root` gives.
pub open spec fn spec_read<K: FromBytes, V: FromBytes>(
    m: Map<Seq<u8>, Seq<u8>>,
    root: Seq<u8>,
    key: K::V,
) -> WalkModel<K::V, V::V> {
    let path = K::spec_bytes(key);
    if path.len() > max_repr_len() {
        WalkModel::Failed(Error::OutOfMemory)
    } else {
        match fetch::<K, V>(m, root) {
            FetchModel::Missing => WalkModel::RootNotFound,
            FetchModel::Bad(e) => WalkModel::Failed(e),
            FetchModel::Got(t) => walk::<K, V>(m, t, path, 0),
        }
    }
}

/// Whether `a` and `b` hold the same bytes.
pub fn bytes_eq(a: &[u8], b: &[u8]) -> (r: bool)
    ensures
        r == (a@ == b@),
{
    if a.len() != b.len() {
        return false;
    }
    let mut i: usize = 0;
    while i < a.len()
        invariant
            0 <= i <= a@.len(),
            a@.len() == b@.len(),
            forall|j: int| 0 <= j < i ==> a@[j] == b@[j],
        decreases a@.len() - i,
    {
        if a[i] != b[i] {
            return false;
        }
        i = i + 1;
    }
    assert(a@ =~= b@);
    true
}

/// Whether the representation of `key` is `path`.
fn key_has_path<K: FromBytes>(key: &K, path: &Vec<u8>) -> (r: bool)
    ensures
        r == (K::spec_bytes(key.deep_view()) == path@),
{
    let mut buf: Vec<u8> = Vec::new();
    key.write_bytes(&mut buf);
    assert(buf@ =~= K::spec_bytes(key.deep_view()));
    bytes_eq(buf.as_slice(), path.as_slice())
}

/// One step down from an element: the element below, with the proof step of
/// the element left behind.
enum Descent<K, V> {
    Down(Trie<K, V>, usize, TrieMerkleProofStep),
    Leaf(K, V),
    NotFound,
}

/// What is left of the allowance of extensions without path bytes after a
/// step from `depth` to `next_depth`.
pub open spec fn next_run(run: nat, depth: nat, next_depth: nat) -> nat {
    if next_depth == depth {
        (run - 1) as nat
    } else {
        empty_run_limit()
    }
}

/// Takes one step down from `current`, which sits `depth` bytes along `path`.
fn descend<K: FromBytes, V: FromBytes>(
    store: &InMemoryTrieStore,
    current: Trie<K, V>,
    path: &Vec<u8>,
    depth: usize,
    Ghost(run): Ghost<nat>,
) -> (r: Result<Descent<K, V>, Error>)
    requires
        depth <= path@.len(),
        walk_in::<K, V>(store@, current.deep_view(), path@, depth as nat, run) != WalkModel::<
            K::V,
            V::V,
        >::Stuck,
    ensures
        match r {
            Ok(Descent::Down(next, next_depth, step)) => {
                &&& depth <= next_depth <= path@.len()
                &&& next_depth == depth ==> run > 0
                &&& walk_in::<K, V>(store@, current.deep_view(), path@, depth as nat, run)
                    == extend_steps(
                    walk_in::<K, V>(
                        store@,
                        next.deep_view(),
                        path@,
                        next_depth as nat,
                        next_run(run, depth as nat, next_depth as nat),
                    ),
                    seq![step.deep_view()],
                )
            },
            Ok(Descent::Leaf(k, v)) => walk_in::<K, V>(
                store@,
                current.deep_view(),
                path@,
                depth as nat,
                run,
            ) == (WalkModel::Found::<K::V, V::V> {
                key: k.deep_view(),
                value: v.deep_view(),
                steps: Seq::empty(),
            }),
            Ok(Descent::NotFound) => walk_in::<K, V>(
                store@,
                current.deep_view(),
                path@,
                depth as nat,
                run,
            ) == WalkModel::<K::V, V::V>::NotFound,
            Err(e) => walk_in::<K, V>(store@, current.deep_view(), path@, depth as nat, run)
                == WalkModel::<K::V, V::V>::Failed(e),
        },
{
    let ghost cur = current.deep_view();
    let path_len = path.len();
    match current {
        Trie::Leaf { key: leaf_key, value } => {
            if key_has_path(&leaf_key, path) {
                Ok(Descent::Leaf(leaf_key, value))
            } else {
                Ok(Descent::NotFound)
            }
        },
        Trie::Node { pointer_block } => {
            assert(cur == TrieModel::<K::V, V::V>::Node { pointer_block: pointer_block.deep_view() });
            assert(depth < path@.len());
            let hole_index = path[depth];
            let pointer = match pointer_block.get(hole_index as usize) {
                Some(pointer) => pointer,
                None => return Ok(Descent::NotFound),
            };
            let next = match store.get::<K, V>(pointer.hash()) {
                Ok(Some(next)) => next,
                Ok(None) => {
                    proof {
                        assert(false);
                    }
                    return Ok(Descent::NotFound);
                },
                Err(e) => return Err(e),
            };
            let indexed_pointers_with_hole = pointer_block.to_indexed_pointers_except(
                hole_index as usize,
            );
            assert(indexed_pointers_with_hole@.map_values(
                |x: (u8, crate::trie::Pointer)| (x.0, x.1.deep_view()),
            ) =~= indexed_pointers_with_hole.deep_view());
            let step = TrieMerkleProofStep::node(hole_index, indexed_pointers_with_hole);
            Ok(Descent::Down(next, depth + 1, step))
        },
        Trie::Extension { affix, pointer } => {
            assert(cur == TrieModel::<K::V, V::V>::Extension {
                affix: affix@,
                pointer: pointer.deep_view(),
            });
            assert(depth + affix@.len() <= path@.len());
            let end = depth + affix.len();
            let sub_path = &path.as_slice()[depth..end];
            if !bytes_eq(sub_path, affix.as_slice()) {
                return Ok(Descent::NotFound);
            }
            let next = match store.get::<K, V>(pointer.hash()) {
                Ok(Some(next)) => next,
                Ok(None) => {
                    proof {
                        assert(false);
                    }
                    return Ok(Descent::NotFound);
                },
                Err(e) => return Err(e),
            };
            let step = TrieMerkleProofStep::extension(affix);
            Ok(Descent::Down(next, end, step))
        },
    }
}

/// Reads the value under `key` in the trie whose root is stored under `root`.
/// The key's representation is the path through the trie; a leaf found at
/// the end of a shorter path holds the value only if its key has the same
/// representation. Keys are compared by their representations throughout,
/// which is comparing them for a key type whose `==` agrees with them.
pub fn read<K: FromBytes, V: FromBytes>(store: &InMemoryTrieStore, root: &Blake2bHash, key: &K) -> (r:
    Result<ReadResult<V>, Error>)
    requires
        spec_read::<K, V>(store@, root@, key.deep_view()) != WalkModel::<K::V, V::V>::Stuck,
    ensures
        match r {
            Ok(ReadResult::Found(v)) => spec_read::<K, V>(
                store@,
                root@,
                key.deep_view(),
            ) matches WalkModel::Found { value, .. } && value == v.deep_view(),
            Ok(ReadResult::NotFound) => spec_read::<K, V>(store@, root@, key.deep_view())
                == WalkModel::<K::V, V::V>::NotFound,
            Ok(ReadResult::RootNotFound) => spec_read::<K, V>(store@, root@, key.deep_view())
                == WalkModel::<K::V, V::V>::RootNotFound,
            Err(e) => spec_read::<K, V>(store@, root@, key.deep_view()) == WalkModel::<
                K::V,
                V::V,
            >::Failed(e),
        },
{
    match read_with_proof::<K, V>(store, root, key) {
        Ok(ReadResult::Found(proof)) => Ok(ReadResult::Found(proof.into_value())),
        Ok(ReadResult::NotFound) => Ok(ReadResult::NotFound),
        Ok(ReadResult::RootNotFound) => Ok(ReadResult::RootNotFound),
        Err(e) => Err(e),
    }
}

/// Reads the value under `key` with a proof: the steps from its leaf up to
/// the root, deepest first.
pub fn read_with_proof<K: FromBytes, V: FromBytes>(
    store: &InMemoryTrieStore,
    root: &Blake2bHash,
    key: &K,
) -> (r: Result<ReadResult<TrieMerkleProof<K, V>>, Error>)
    requires
        spec_read::<K, V>(store@, root@, key.deep_view()) != WalkModel::<K::V, V::V>::Stuck,
    ensures
        match r {
            Ok(ReadResult::Found(p)) => spec_read::<K, V>(store@, root@, key.deep_view())
                == (WalkModel::Found::<K::V, V::V> {
                key: p.deep_view().key,
                value: p.deep_view().value,
                steps: p.deep_view().proof_steps,
            }),
            Ok(ReadResult::NotFound) => spec_read::<K, V>(store@, root@, key.deep_view())
                == WalkModel::<K::V, V::V>::NotFound,
            Ok(ReadResult::RootNotFound) => spec_read::<K, V>(store@, root@, key.deep_view())
                == WalkModel::<K::V, V::V>::RootNotFound,
            Err(e) => spec_read::<K, V>(store@, root@, key.deep_view()) == WalkModel::<
                K::V,
                V::V,
            >::Failed(e),
        },
{
    let ghost target = spec_read::<K, V>(store@, root@, key.deep_view());
    let path = match key.to_bytes() {
        Ok(p) => p,
        Err(e) => return Err(e),
    };
    let mut current: Trie<K, V> = match store.get::<K, V>(root) {
        Ok(Some(t)) => t,
        Ok(None) => return Ok(ReadResult::RootNotFound),
        Err(e) => return Err(e),
    };
    let mut proof_steps: VecDeque<TrieMerkleProofStep> = VecDeque::new();
    assert(proof_steps.deep_view() =~= Seq::<StepModel>::empty());
    proof {
        let w = walk_in::<K, V>(store@, current.deep_view(), path@, 0, empty_run_limit());
        if let WalkModel::Found { key, value, steps } = w {
            assert(steps + Seq::<StepModel>::empty() =~= steps);
        }
    }
    let mut depth: usize = 0;
    let ghost mut run: nat = empty_run_limit();
    loop
        invariant
            path@ == K::spec_bytes(key.deep_view()),
            path@.len() <= max_repr_len(),
            depth <= path@.len(),
            target == spec_read::<K, V>(store@, root@, key.deep_view()),
            target != WalkModel::<K::V, V::V>::Stuck,
            extend_steps(
                walk_in::<K, V>(store@, current.deep_view(), path@, depth as nat, run),
                proof_steps.deep_view(),
            ) == target,
        decreases path@.len() - depth, run,
    {
        proof {
            let w = walk_in::<K, V>(store@, current.deep_view(), path@, depth as nat, run);
            if w == WalkModel::<K::V, V::V>::Stuck {
                assert(extend_steps(w, proof_steps.deep_view()) == w);
            }
        }
        match descend(store, current, &path, depth, Ghost(run)) {
            Ok(Descent::Down(next, next_depth, step)) => {
                let ghost acc = proof_steps.deep_view();
                let ghost run2 = next_run(run, depth as nat, next_depth as nat);
                proof_steps.push_front(step);
                assert(proof_steps.deep_view() =~= seq![step.deep_view()] + acc);
                proof {
                    lemma_extend_twice(
                        walk_in::<K, V>(store@, next.deep_view(), path@, next_depth as nat, run2),
                        seq![step.deep_view()],
                        acc,
                    );
                }
                current = next;
                depth = next_depth;
                proof {
                    run = run2;
                }
            },
            Ok(Descent::Leaf(leaf_key, value)) => {
                return Ok(ReadResult::Found(TrieMerkleProof::new(leaf_key, value, proof_steps)));
            },
            Ok(Descent::NotFound) => return Ok(ReadResult::NotFound),
            Err(e) => return Err(e),
        }
    }
}


proof fn lemma_fold_prefix(
    start: Result<Seq<u8>, Error>,
    a: Seq<StepModel>,
    b: Seq<StepModel>,
    n: nat,
)
    requires
        n <= a.len(),
        n <= b.len(),
        forall|i: int| 0 <= i < n ==> a[i] == b[i],
    ensures
        fold_steps(start, a, n) == fold_steps(start, b, n),
    decreases n,
{
    if n > 0 {
        lemma_fold_prefix(start, a, b, (n - 1) as nat);
    }
}

/// The element stored under `h` in a well-formed store is the one whose
/// representation hashes to `h`, and its pointers have the kinds their targets call for.
proof fn lemma_wf_fetch<K: FromBytes, V: FromBytes>(m: Map<Seq<u8>, Seq<u8>>, h: Seq<u8>)
    requires
        store_wf::<K, V>(m),
        m.contains_key(h),
    ensures
        fetch::<K, V>(m, h) matches FetchModel::Got(t) && {
            &&& crate::trie::trie_bytes::<K, V>(t) == m[h]
            &&& repr_hash(crate::trie::trie_bytes::<K, V>(t)) == Ok::<Seq<u8>, Error>(h)
            &&& Trie::<K, V>::spec_valid(t)
            &&& (t matches TrieModel::Node { pointer_block } ==> forall|i: int|
                0 <= i < pointer_block.len() ==> (#[trigger] pointer_block[i] matches Some(p)
                    ==> pointer_kind_fits::<K, V>(m, p)))
            &&& (t matches TrieModel::Extension { pointer, .. } ==> pointer_kind_fits::<K, V>(
                m,
                pointer,
            ))
        },
{
    reveal(store_wf);
    let b = m[h];
    Trie::<K, V>::lemma_parse_bound(b);
}

/// The node step's hash is the hash of the node it was read from.
proof fn lemma_node_step<K: FromBytes, V: FromBytes>(
    m: Map<Seq<u8>, Seq<u8>>,
    h: Seq<u8>,
    pointer_block: Seq<Option<crate::trie::PointerModel>>,
    index: u8,
    p: crate::trie::PointerModel,
    below_is_leaf: bool,
)
    requires
        store_wf::<K, V>(m),
        m.contains_key(h),
        fetch::<K, V>(m, h) == FetchModel::<K::V, V::V>::Got(TrieModel::Node { pointer_block }),
        pointer_block[index as int] == Some(p),
        fetch::<K, V>(m, p.hash()) matches FetchModel::Got(child) && (child is Leaf
            <==> below_is_leaf),
    ensures
        step_hash(
            StepModel::Node {
                hole_index: index,
                indexed_pointers_with_hole: indexed_except(pointer_block, index as int),
            },
            p.hash(),
            below_is_leaf,
        ) == Ok::<Seq<u8>, Error>(h),
{
    lemma_wf_fetch::<K, V>(m, h);
    assert(pointer_block.len() == 256);
    assert(pointer_kind_fits::<K, V>(m, p));
    assert(p == step_pointer(p.hash(), below_is_leaf));
    lemma_rebuild_block(pointer_block, index as int, p);
}

/// The extension step's hash is the hash of the extension it was read from.
proof fn lemma_extension_step<K: FromBytes, V: FromBytes>(
    m: Map<Seq<u8>, Seq<u8>>,
    h: Seq<u8>,
    affix: Seq<u8>,
    p: crate::trie::PointerModel,
    below_is_leaf: bool,
)
    requires
        store_wf::<K, V>(m),
        m.contains_key(h),
        fetch::<K, V>(m, h) == FetchModel::<K::V, V::V>::Got(
            TrieModel::Extension { affix, pointer: p },
        ),
        fetch::<K, V>(m, p.hash()) matches FetchModel::Got(child) && (child is Leaf
            <==> below_is_leaf),
    ensures
        step_hash(StepModel::Extension { affix }, p.hash(), below_is_leaf) == Ok::<
            Seq<u8>,
            Error,
        >(h),
{
    lemma_wf_fetch::<K, V>(m, h);
    assert(pointer_kind_fits::<K, V>(m, p));
    assert(p == step_pointer(p.hash(), below_is_leaf));
}

/// Walking down from the element stored under `h` to a leaf yields steps
/// that lead from the leaf's hash back to `h`.
proof fn lemma_walk_proves<K: FromBytes, V: FromBytes>(
    m: Map<Seq<u8>, Seq<u8>>,
    h: Seq<u8>,
    t: TrieModel<K::V, V::V>,
    path: Seq<u8>,
    depth: nat,
    run: nat,
)
    requires
        store_wf::<K, V>(m),
        m.contains_key(h),
        fetch::<K, V>(m, h) == FetchModel::Got(t),
    ensures
        walk_in::<K, V>(m, t, path, depth, run) matches WalkModel::Found { key, value, steps } ==> {
            &&& fold_steps(
                repr_hash(crate::trie::trie_bytes::<K, V>(TrieModel::Leaf { key, value })),
                steps,
                steps.len(),
            ) == Ok::<Seq<u8>, Error>(h)
            &&& (steps.len() == 0 <==> t is Leaf)
            &&& K::spec_bytes(key) == path
        },
    decreases path.len() - depth, run,
{
    match t {
        TrieModel::Leaf { key, value } => {
            lemma_wf_fetch::<K, V>(m, h);
        },
        TrieModel::Node { pointer_block } => {
            if depth < path.len() {
                let index = path[depth as int];
                if let Some(p) = pointer_block[index as int] {
                    if let FetchModel::Got(child) = fetch::<K, V>(m, p.hash()) {
                        lemma_walk_proves::<K, V>(
                            m,
                            p.hash(),
                            child,
                            path,
                            depth + 1,
                            empty_run_limit(),
                        );
                        let w = walk_in::<K, V>(m, child, path, depth + 1, empty_run_limit());
                        if let WalkModel::Found { key, value, steps } = w {
                            let x = StepModel::Node {
                                hole_index: index,
                                indexed_pointers_with_hole: indexed_except(
                                    pointer_block,
                                    index as int,
                                ),
                            };
                            let all = steps + seq![x];
                            let start = repr_hash(
                                crate::trie::trie_bytes::<K, V>(TrieModel::Leaf { key, value }),
                            );
                            lemma_fold_prefix(start, all, steps, steps.len());
                            assert(all[steps.len() as int] == x);
                            lemma_node_step::<K, V>(
                                m,
                                h,
                                pointer_block,
                                index,
                                p,
                                steps.len() == 0,
                            );
                        }
                    }
                }
            }
        },
        TrieModel::Extension { affix, pointer } => {
            if depth + affix.len() <= path.len() && path.subrange(
                depth as int,
                (depth + affix.len()) as int,
            ) == affix && !(affix.len() == 0 && run == 0) {
                if let FetchModel::Got(child) = fetch::<K, V>(m, pointer.hash()) {
                    let run2 = next_run(run, depth, depth + affix.len());
                    lemma_walk_proves::<K, V>(
                        m,
                        pointer.hash(),
                        child,
                        path,
                        depth + affix.len(),
                        run2,
                    );
                    let w = walk_in::<K, V>(m, child, path, depth + affix.len(), run2);
                    if let WalkModel::Found { key, value, steps } = w {
                        let x = StepModel::Extension { affix };
                        let all = steps + seq![x];
                        let start = repr_hash(
                            crate::trie::trie_bytes::<K, V>(TrieModel::Leaf { key, value }),
                        );
                        lemma_fold_prefix(start, all, steps, steps.len());
                        assert(all[steps.len() as int] == x);
                        lemma_extension_step::<K, V>(m, h, affix, pointer, steps.len() == 0);
                    }
                }
            }
        },
    }
}

/// Law: in a well-formed store, the proof that a read finds leads from the
/// leaf it names back to the root hash the read began at, and the leaf's key
/// has the representation of the key asked for.
pub proof fn read_proof_computes_root<K: FromBytes, V: FromBytes>(
    m: Map<Seq<u8>, Seq<u8>>,
    root: Seq<u8>,
    key: K::V,
)
    requires
        store_wf::<K, V>(m),
    ensures
        spec_read::<K, V>(m, root, key) matches WalkModel::Found { key: k, value, steps } ==> {
            &&& spec_compute_state_hash::<K, V>(
                ProofModel { key: k, value, proof_steps: steps },
            ) == Ok::<Seq<u8>, Error>(root)
            &&& K::spec_bytes(k) == K::spec_bytes(key)
        },
{
    if K::spec_bytes(key).len() <= max_repr_len() {
        if let FetchModel::Got(t) = fetch::<K, V>(m, root) {
            lemma_walk_proves::<K, V>(m, root, t, K::spec_bytes(key), 0, empty_run_limit());
        }
    }
}


// ----- writing -----

/// The model of the parents of a scanned element: each with the byte that
/// leads down from it, shallow to deep.
pub type ParentsModel<KV, VV> = Seq<(u8, TrieModel<KV, VV>)>;

/// The outcome of scanning down a trie along a path.
pub enum ScanModel<KV, VV> {
    /// The deepest element on the path, and its parents.
    Done { tip: TrieModel<KV, VV>, parents: ParentsModel<KV, VV> },
    /// Stored bytes could not be read as a trie element.
    Failed(Error),
    /// The scan cannot go on (see [`WalkModel::Stuck`]).
    Stuck,
}

/// Puts `p` in front of the parents of a finished scan.
pub open spec fn prepend_parents<KV, VV>(ps: ParentsModel<KV, VV>, s: ScanModel<KV, VV>) -> ScanModel<
    KV,
    VV,
> {
    match s {
        ScanModel::Done { tip, parents } => ScanModel::Done { tip, parents: ps + parents },
        _ => s,
    }
}

/// Scans down from element `t`, which sits `depth` bytes along `path`, to the
/// deepest element on the path: a leaf, a node without a child for the next
/// byte, or an extension whose bytes leave the path; `run` more extensions
/// without path bytes may follow in a row (see [`walk_in`]).
pub open spec fn spec_scan_in<K: FromBytes, V: FromBytes>(
    m: Map<Seq<u8>, Seq<u8>>,
    t: TrieModel<K::V, V::V>,
    path: Seq<u8>,
    depth: nat,
    run: nat,
) -> ScanModel<K::V, V::V>
    decreases path.len() - depth, run,
{
    match t {
        TrieModel::Leaf { .. } => ScanModel::Done { tip: t, parents: Seq::empty() },
        TrieModel::Node { pointer_block } => if depth >= path.len() {
            ScanModel::Stuck
        } else {
            let index = path[depth as int];
            match pointer_block[index as int] {
                None => ScanModel::Done { tip: t, parents: Seq::empty() },
                Some(p) => match fetch::<K, V>(m, p.hash()) {
                    FetchModel::Missing => ScanModel::Stuck,
                    FetchModel::Bad(e) => ScanModel::Failed(e),
                    FetchModel::Got(child) => prepend_parents(
                        seq![(index, t)],
                        spec_scan_in::<K, V>(m, child, path, depth + 1, empty_run_limit()),
                    ),
                },
            }
        },
        TrieModel::Extension { affix, pointer } => if depth + affix.len() > path.len() {
            ScanModel::Stuck
        } else if path.subrange(depth as int, (depth + affix.len()) as int) != affix {
            ScanModel::Done { tip: t, parents: Seq::empty() }
        } else if depth >= path.len() || affix.len() == 0 && run == 0 {
            ScanModel::Stuck
        } else {
            match fetch::<K, V>(m, pointer.hash()) {
                FetchModel::Missing => ScanModel::Stuck,
                FetchModel::Bad(e) => ScanModel::Failed(e),
                FetchModel::Got(child) => prepend_parents(
                    seq![(path[depth as int], t)],
                    spec_scan_in::<K, V>(
                        m,
                        child,
                        path,
                        depth + affix.len(),
                        next_run(run, depth, depth + affix.len()),
                    ),
                ),
            }
        },
    }
}

/// Scans down from element `t`, which sits `depth` bytes along `path` (see
/// [`spec_scan_in`]).
pub open spec fn spec_scan<K: FromBytes, V: FromBytes>(
    m: Map<Seq<u8>, Seq<u8>>,
    t: TrieModel<K::V, V::V>,
    path: Seq<u8>,
    depth: nat,
) -> ScanModel<K::V, V::V> {
    spec_scan_in::<K, V>(m, t, path, depth, empty_run_limit())
}

proof fn lemma_prepend_twice<KV, VV>(
    a: ParentsModel<KV, VV>,
    b: ParentsModel<KV, VV>,
    s: ScanModel<KV, VV>,
)
    ensures
        prepend_parents(a, prepend_parents(b, s)) == prepend_parents(a + b, s),
{
    if let ScanModel::Done { tip, parents } = s {
        assert(a + (b + parents) =~= a + b + parents);
    }
}

/// The deepest element found along a key's path, and its parents.
pub struct TrieScan<K, V> {
    pub tip: Trie<K, V>,
    pub parents: Vec<(u8, Trie<K, V>)>,
}

impl<K: FromBytes, V: FromBytes> TrieScan<K, V> {
    /// A scan that ended at `tip` below `parents`.
    pub fn new(tip: Trie<K, V>, parents: Vec<(u8, Trie<K, V>)>) -> (s: Self)
        ensures
            s.tip.deep_view() == tip.deep_view(),
            s.parents.deep_view() == parents.deep_view(),
    {
        TrieScan { tip, parents }
    }
}

/// Scans down from `root` along `key_bytes` (see [`spec_scan`]).
fn scan<K: FromBytes, V: FromBytes>(
    store: &InMemoryTrieStore,
    key_bytes: &[u8],
    root: Trie<K, V>,
) -> (r: Result<TrieScan<K, V>, Error>)
    requires
        spec_scan::<K, V>(store@, root.deep_view(), key_bytes@, 0) != ScanModel::<
            K::V,
            V::V,
        >::Stuck,
    ensures
        match r {
            Ok(s) => spec_scan::<K, V>(store@, root.deep_view(), key_bytes@, 0) == (ScanModel::Done {
                tip: s.tip.deep_view(),
                parents: s.parents.deep_view(),
            }),
            Err(e) => spec_scan::<K, V>(store@, root.deep_view(), key_bytes@, 0)
                == ScanModel::<K::V, V::V>::Failed(e),
        },
{
    let path = key_bytes;
    let path_len = path.len();
    let ghost target = spec_scan::<K, V>(store@, root.deep_view(), key_bytes@, 0);
    let mut current = root;
    let mut depth: usize = 0;
    let mut acc: Vec<(u8, Trie<K, V>)> = Vec::new();
    proof {
        assert(acc.deep_view() =~= Seq::<(u8, TrieModel<K::V, V::V>)>::empty());
        if let ScanModel::Done { tip, parents } = target {
            assert(Seq::<(u8, TrieModel<K::V, V::V>)>::empty() + parents =~= parents);
        }
    }
    let ghost mut run: nat = empty_run_limit();
    loop
        invariant
            path_len == path@.len(),
            depth <= path@.len(),
            target == spec_scan::<K, V>(store@, root.deep_view(), key_bytes@, 0),
            target != ScanModel::<K::V, V::V>::Stuck,
            target == prepend_parents(
                acc.deep_view(),
                spec_scan_in::<K, V>(store@, current.deep_view(), path@, depth as nat, run),
            ),
        decreases path@.len() - depth, run,
    {
        proof {
            let sc = spec_scan_in::<K, V>(store@, current.deep_view(), path@, depth as nat, run);
            if sc == ScanModel::<K::V, V::V>::Stuck {
                assert(prepend_parents(acc.deep_view(), sc) == sc);
            }
        }
        let ghost cur = current.deep_view();
        let ghost before = acc.deep_view();
        match current {
            Trie::Leaf { key, value } => {
                return Ok(TrieScan::new(Trie::Leaf { key, value }, acc));
            },
            Trie::Node { pointer_block } => {
                assert(depth < path@.len());
                let index = path[depth];
                let pointer = match pointer_block.get(index as usize) {
                    Some(p) => p,
                    None => {
                        return Ok(TrieScan::new(Trie::Node { pointer_block }, acc));
                    },
                };
                let next = match store.get::<K, V>(pointer.hash()) {
                    Ok(Some(next)) => next,
                    Ok(None) => {
                        proof {
                            assert(false);
                        }
                        return Err(Error::Formatting);
                    },
                    Err(e) => return Err(e),
                };
                acc.push((index, Trie::Node { pointer_block }));
                proof {
                    assert(acc.deep_view() =~= before + seq![(index, cur)]);
                    lemma_prepend_twice(
                        before,
                        seq![(index, cur)],
                        spec_scan_in::<K, V>(
                            store@,
                            next.deep_view(),
                            path@,
                            (depth + 1) as nat,
                            empty_run_limit(),
                        ),
                    );
                }
                current = next;
                depth = depth + 1;
                proof {
                    run = empty_run_limit();
                }
            },
            Trie::Extension { affix, pointer } => {
                assert(depth + affix@.len() <= path@.len());
                let end = depth + affix.len();
                let sub_path = &path[depth..end];
                if !bytes_eq(sub_path, affix.as_slice()) {
                    return Ok(TrieScan::new(Trie::Extension { affix, pointer }, acc));
                }
                let next = match store.get::<K, V>(pointer.hash()) {
                    Ok(Some(next)) => next,
                    Ok(None) => {
                        proof {
                            assert(false);
                        }
                        return Err(Error::Formatting);
                    },
                    Err(e) => return Err(e),
                };
                let index = path[depth];
                let ghost run2 = next_run(run, depth as nat, end as nat);
                acc.push((index, Trie::Extension { affix, pointer }));
                proof {
                    assert(acc.deep_view() =~= before + seq![(index, cur)]);
                    lemma_prepend_twice(
                        before,
                        seq![(index, cur)],
                        spec_scan_in::<K, V>(store@, next.deep_view(), path@, end as nat, run2),
                    );
                }
                current = next;
                depth = end;
                proof {
                    run = run2;
                }
            },
        }
    }
}


/// The pointer to element `t` stored under `h`: a leaf pointer for a leaf.
pub open spec fn pointer_to<KV, VV>(t: TrieModel<KV, VV>, h: Seq<u8>) -> PointerModel {
    if t is Leaf {
        PointerModel::LeafPointer(h)
    } else {
        PointerModel::NodePointer(h)
    }
}

/// `p` with its hash replaced by `h`, of the same kind.
pub open spec fn repoint(p: PointerModel, h: Seq<u8>) -> PointerModel {
    match p {
        PointerModel::LeafPointer(_) => PointerModel::LeafPointer(h),
        PointerModel::NodePointer(_) => PointerModel::NodePointer(h),
    }
}

/// `parent` made to point at element `tip`, stored under `h`: a node gets a
/// pointer in slot `index`, an extension's pointer gets the new hash.
pub open spec fn adopt<KV, VV>(
    parent: TrieModel<KV, VV>,
    index: u8,
    tip: TrieModel<KV, VV>,
    h: Seq<u8>,
) -> TrieModel<KV, VV> {
    match parent {
        TrieModel::Node { pointer_block } => TrieModel::Node {
            pointer_block: pointer_block.update(index as int, Some(pointer_to(tip, h))),
        },
        TrieModel::Extension { affix, pointer } => TrieModel::Extension {
            affix,
            pointer: repoint(pointer, h),
        },
        TrieModel::Leaf { .. } => parent,
    }
}

/// The elements, each with its hash, from `tip` up through its parents
/// (deepest first), each parent made to point at the element below it.
pub open spec fn spec_rehash<K: FromBytes, V: FromBytes>(
    tip: TrieModel<K::V, V::V>,
    parents: ParentsModel<K::V, V::V>,
) -> Result<Seq<(Seq<u8>, TrieModel<K::V, V::V>)>, Error>
    decreases parents.len(),
{
    match repr_hash(crate::trie::trie_bytes::<K, V>(tip)) {
        Err(e) => Err(e),
        Ok(h) => if parents.len() == 0 {
            Ok(seq![(h, tip)])
        } else {
            let (index, parent) = parents.last();
            match spec_rehash::<K, V>(adopt(parent, index, tip, h), parents.drop_last()) {
                Ok(rest) => Ok(seq![(h, tip)] + rest),
                Err(e) => Err(e),
            }
        },
    }
}

/// `pre` in front of the elements of a successful result.
pub open spec fn prefix_result<T>(pre: Seq<T>, r: Result<Seq<T>, Error>) -> Result<Seq<T>, Error> {
    match r {
        Ok(rest) => Ok(pre + rest),
        Err(e) => Err(e),
    }
}

/// No parent is a leaf.
pub open spec fn no_leaf_parents<KV, VV>(parents: ParentsModel<KV, VV>) -> bool {
    forall|i: int| 0 <= i < parents.len() ==> !((#[trigger] parents[i]).1 is Leaf)
}

/// Hashes `tip`, then each parent from the deepest up, after making it point
/// at the element below (see [`spec_rehash`]).
#[verifier::loop_isolation(false)]
fn rehash<K: FromBytes, V: FromBytes>(tip: Trie<K, V>, parents: Vec<(u8, Trie<K, V>)>) -> (r: Result<
    Vec<(Blake2bHash, Trie<K, V>)>,
    Error,
>)
    requires
        no_leaf_parents(parents.deep_view()),
    ensures
        match r {
            Ok(v) => spec_rehash::<K, V>(tip.deep_view(), parents.deep_view()) == Ok::<
                Seq<(Seq<u8>, TrieModel<K::V, V::V>)>,
                Error,
            >(v.deep_view()),
            Err(e) => spec_rehash::<K, V>(tip.deep_view(), parents.deep_view()) == Err::<
                Seq<(Seq<u8>, TrieModel<K::V, V::V>)>,
                Error,
            >(e),
        },
{
    let ghost total = spec_rehash::<K, V>(tip.deep_view(), parents.deep_view());
    let ghost tip0 = tip.deep_view();
    let ghost parents0 = parents.deep_view();
    let mut ret: Vec<(Blake2bHash, Trie<K, V>)> = Vec::new();
    let mut tip = tip;
    let mut parents = parents;
    proof {
        assert(ret.deep_view() =~= Seq::<(Seq<u8>, TrieModel<K::V, V::V>)>::empty());
        if let Ok(rest) = total {
            assert(Seq::<(Seq<u8>, TrieModel<K::V, V::V>)>::empty() + rest =~= rest);
        }
    }
    loop
        invariant
            no_leaf_parents(parents.deep_view()),
            total == spec_rehash::<K, V>(tip0, parents0),
            total == prefix_result(
                ret.deep_view(),
                spec_rehash::<K, V>(tip.deep_view(), parents.deep_view()),
            ),
        decreases parents@.len(),
    {
        let ghost tip_model = tip.deep_view();
        let ghost ps = parents.deep_view();
        let ghost before = ret.deep_view();
        let tip_hash = match tip.merkle_hash() {
            Ok(h) => h,
            Err(e) => return Err(e),
        };
        let tip_is_leaf = match &tip {
            Trie::Leaf { .. } => true,
            _ => false,
        };
        ret.push((tip_hash, tip));
        assert(ret.deep_view() =~= before + seq![(tip_hash@, tip_model)]);
        match parents.pop() {
            None => {
                return Ok(ret);
            },
            Some((index, parent)) => {
                assert(parents.deep_view() =~= ps.drop_last());
                assert(ps.last() == (index, parent.deep_view()));
                assert(!(ps[ps.len() - 1].1 is Leaf));
                let new_tip = match parent {
                    Trie::Leaf { .. } => {
                        proof {
                            assert(false);
                        }
                        return Err(Error::Formatting);
                    },
                    Trie::Node { pointer_block } => {
                        let mut block: PointerBlock = *pointer_block;
                        let pointer = if tip_is_leaf {
                            Pointer::LeafPointer(tip_hash)
                        } else {
                            Pointer::NodePointer(tip_hash)
                        };
                        block.set(index as usize, Some(pointer));
                        Trie::Node { pointer_block: Box::new(block) }
                    },
                    Trie::Extension { affix, pointer } => Trie::Extension {
                        affix,
                        pointer: pointer.update(tip_hash),
                    },
                };
                assert(new_tip.deep_view() == adopt(parent.deep_view(), index, tip_model, tip_hash@));
                proof {
                    assert forall|i: int| 0 <= i < parents.deep_view().len() implies !((
                    #[trigger] parents.deep_view()[i]).1 is Leaf) by {
                        assert(parents.deep_view()[i] == ps[i]);
                    }
                    if let Ok(rest) = spec_rehash::<K, V>(new_tip.deep_view(), parents.deep_view()) {
                        assert(before + (seq![(tip_hash@, tip_model)] + rest) =~= before
                            + seq![(tip_hash@, tip_model)] + rest);
                    }
                }
                tip = new_tip;
            },
        }
    }
}


/// The longest common prefix of `a` and `b`.
pub open spec fn spec_common_prefix<A>(a: Seq<A>, b: Seq<A>) -> Seq<A>
    decreases a.len(),
{
    if a.len() == 0 || b.len() == 0 || a[0] != b[0] {
        Seq::empty()
    } else {
        seq![a[0]] + spec_common_prefix(a.drop_first(), b.drop_first())
    }
}

/// A prefix of length `n` that `a` and `b` share, and that cannot be made
/// longer, is their longest common prefix.
pub proof fn lemma_common_prefix_is<A>(a: Seq<A>, b: Seq<A>, n: nat)
    requires
        n <= a.len(),
        n <= b.len(),
        forall|j: int| 0 <= j < n ==> a[j] == b[j],
        n == a.len() || n == b.len() || a[n as int] != b[n as int],
    ensures
        spec_common_prefix(a, b) == a.take(n as int),
    decreases n,
{
    if n == 0 {
        assert(a.take(0) =~= Seq::<A>::empty());
    } else {
        let a1 = a.drop_first();
        let b1 = b.drop_first();
        assert forall|j: int| 0 <= j < n - 1 implies a1[j] == b1[j] by {
            assert(a[j + 1] == b[j + 1]);
        }
        if n - 1 < a1.len() && n - 1 < b1.len() {
            assert(a1[n - 1] == a[n as int]);
            assert(b1[n - 1] == b[n as int]);
        }
        lemma_common_prefix_is(a1, b1, (n - 1) as nat);
        assert(a[0] == b[0]);
        assert(seq![a[0]] + a1.take(n - 1) =~= a.take(n as int));
    }
}

/// What the longest common prefix is: a prefix of both that ends where they
/// first differ.
pub proof fn lemma_common_prefix_props<A>(a: Seq<A>, b: Seq<A>)
    ensures
        spec_common_prefix(a, b).len() <= a.len(),
        spec_common_prefix(a, b).len() <= b.len(),
        spec_common_prefix(a, b) == a.take(spec_common_prefix(a, b).len() as int),
        spec_common_prefix(a, b) == b.take(spec_common_prefix(a, b).len() as int),
        spec_common_prefix(a, b).len() < a.len() && spec_common_prefix(a, b).len() < b.len()
            ==> a[spec_common_prefix(a, b).len() as int] != b[spec_common_prefix(
            a,
            b,
        ).len() as int],
    decreases a.len(),
{
    if !(a.len() == 0 || b.len() == 0 || a[0] != b[0]) {
        let a1 = a.drop_first();
        let b1 = b.drop_first();
        lemma_common_prefix_props(a1, b1);
        let c1 = spec_common_prefix(a1, b1);
        assert(seq![a[0]] + a1.take(c1.len() as int) =~= a.take(c1.len() as int + 1));
        assert(seq![b[0]] + b1.take(c1.len() as int) =~= b.take(c1.len() as int + 1));
        if c1.len() < a1.len() && c1.len() < b1.len() {
            assert(a[c1.len() as int + 1] == a1[c1.len() as int]);
            assert(b[c1.len() as int + 1] == b1[c1.len() as int]);
        }
    } else {
        assert(a.take(0) =~= Seq::<A>::empty());
        assert(b.take(0) =~= Seq::<A>::empty());
    }
}

/// If `a` and `b` agree on their first `n` items, their longest common prefix
/// is at least that long.
pub proof fn lemma_common_prefix_at_least<A>(a: Seq<A>, b: Seq<A>, n: nat)
    requires
        n <= a.len(),
        n <= b.len(),
        forall|j: int| 0 <= j < n ==> a[j] == b[j],
    ensures
        spec_common_prefix(a, b).len() >= n,
    decreases n,
{
    if n > 0 {
        let a1 = a.drop_first();
        let b1 = b.drop_first();
        assert forall|j: int| 0 <= j < n - 1 implies a1[j] == b1[j] by {
            assert(a[j + 1] == b[j + 1]);
        }
        lemma_common_prefix_at_least(a1, b1, (n - 1) as nat);
        assert(a[0] == b[0]);
    }
}

/// The longest common prefix of `ls` and `rs`.
pub fn common_prefix<A: Copy + PartialEq>(ls: &[A], rs: &[A]) -> (r: Vec<A>)
    requires
        obeys_concrete_eq::<A>(),
    ensures
        r@ == spec_common_prefix(ls@, rs@),
{
    let mut r: Vec<A> = Vec::new();
    let mut i: usize = 0;
    while i < ls.len() && i < rs.len()
        invariant
            obeys_concrete_eq::<A>(),
            0 <= i <= ls@.len(),
            i <= rs@.len(),
            r@ == ls@.take(i as int),
            forall|j: int| 0 <= j < i ==> ls@[j] == rs@[j],
        decreases ls@.len() - i,
    {
        proof {
            reveal(obeys_concrete_eq);
        }
        if ls[i] != rs[i] {
            proof {
                lemma_common_prefix_is(ls@, rs@, i as nat);
            }
            return r;
        }
        r.push(ls[i]);
        assert(r@ =~= ls@.take(i + 1));
        i = i + 1;
    }
    proof {
        lemma_common_prefix_is(ls@, rs@, i as nat);
    }
    r
}

/// The path bytes that a list of parents takes: an extension's bytes, or a
/// node's one byte.
pub open spec fn parents_path<KV, VV>(parents: ParentsModel<KV, VV>) -> Seq<u8>
    decreases parents.len(),
{
    if parents.len() == 0 {
        Seq::empty()
    } else {
        parents_path(parents.drop_last()) + match parents.last().1 {
            TrieModel::Extension { affix, .. } => affix,
            _ => seq![parents.last().0],
        }
    }
}

/// The path bytes that `parents` take, from the root down.
pub fn get_parents_path<K: FromBytes, V: FromBytes>(parents: &[(u8, Trie<K, V>)]) -> (r: Vec<u8>)
    ensures
        r@ == parents_path(parents@.map_values(|x: (u8, Trie<K, V>)| (x.0, x.1.deep_view()))),
{
    let ghost ps = parents@.map_values(|x: (u8, Trie<K, V>)| (x.0, x.1.deep_view()));
    let mut ret: Vec<u8> = Vec::new();
    let mut i: usize = 0;
    while i < parents.len()
        invariant
            0 <= i <= parents@.len(),
            ps == parents@.map_values(|x: (u8, Trie<K, V>)| (x.0, x.1.deep_view())),
            ret@ == parents_path(ps.take(i as int)),
        decreases parents@.len() - i,
    {
        let ghost before = ret@;
        assert(ps.take(i + 1).drop_last() =~= ps.take(i as int));
        match &parents[i].1 {
            Trie::Extension { affix, .. } => {
                let mut j: usize = 0;
                while j < affix.len()
                    invariant
                        0 <= j <= affix@.len(),
                        ret@ == before + affix@.take(j as int),
                    decreases affix@.len() - j,
                {
                    ret.push(affix[j]);
                    assert(ret@ =~= before + affix@.take(j + 1));
                    j = j + 1;
                }
                assert(affix@.take(affix@.len() as int) =~= affix@);
            },
            _ => {
                ret.push(parents[i].0);
                assert(ret@ =~= before + seq![parents@[i as int].0]);
            },
        }
        i = i + 1;
    }
    assert(ps.take(parents@.len() as int) =~= ps);
    ret
}


/// A copy of `s`.
pub(crate) fn slice_to_vec(s: &[u8]) -> (r: Vec<u8>)
    ensures
        r@ == s@,
{
    let mut r: Vec<u8> = Vec::new();
    let mut i: usize = 0;
    while i < s.len()
        invariant
            0 <= i <= s@.len(),
            r@ == s@.take(i as int),
        decreases s@.len() - i,
    {
        r.push(s[i]);
        assert(r@ =~= s@.take(i + 1));
        i = i + 1;
    }
    assert(s@.take(s@.len() as int) =~= s@);
    r
}

/// `path` begins with `prefix`.
pub open spec fn starts_with(path: Seq<u8>, prefix: Seq<u8>) -> bool {
    prefix.len() <= path.len() && path.take(prefix.len() as int) == prefix
}

/// Adds `new_parent_node`, which sits where the parents' path ends, to the
/// parents, with the next byte of `path_to_leaf` to lead down from it.
pub fn add_node_to_parents<K: FromBytes, V: FromBytes>(
    path_to_leaf: &[u8],
    new_parent_node: Trie<K, V>,
    parents: Vec<(u8, Trie<K, V>)>,
) -> (r: Result<Vec<(u8, Trie<K, V>)>, Error>)
    requires
        new_parent_node.deep_view() is Node,
        starts_with(path_to_leaf@, parents_path(parents.deep_view())),
        parents_path(parents.deep_view()).len() < path_to_leaf@.len(),
    ensures
        r matches Ok(ps) && ps.deep_view() == parents.deep_view().push(
            (
                path_to_leaf@[parents_path(parents.deep_view()).len() as int],
                new_parent_node.deep_view(),
            ),
        ),
{
    let mut parents = parents;
    assert(parents@.map_values(|x: (u8, Trie<K, V>)| (x.0, x.1.deep_view())) =~= parents.deep_view());
    // The path to the new node is a prefix of the path to the leaf.
    let path_to_node = get_parents_path(parents.as_slice());
    let depth = path_to_node.len();
    let index = path_to_leaf[depth];
    let ghost before = parents.deep_view();
    parents.push((index, new_parent_node));
    assert(parents.deep_view() =~= before.push((index, new_parent_node.deep_view())));
    Ok(parents)
}

/// What [`reparent_leaf`] makes: a node for the existing leaf, below an
/// extension over the rest of the shared path where that is not empty.
pub open spec fn spec_reparent_leaf<K: FromBytes, V: FromBytes>(
    new_leaf_path: Seq<u8>,
    existing_leaf_path: Seq<u8>,
    parents: ParentsModel<K::V, V::V>,
) -> Result<(TrieModel<K::V, V::V>, ParentsModel<K::V, V::V>), Error> {
    let child_index = parents.last().0;
    let pointer_block = parents.last().1->Node_pointer_block;
    let shared = spec_common_prefix(new_leaf_path, existing_leaf_path);
    let new_node = TrieModel::<K::V, V::V>::Node {
        pointer_block: block_from(
            seq![(existing_leaf_path[shared.len() as int], pointer_block[child_index as int].unwrap())],
        ),
    };
    let affix = shared.skip(parents_path(parents).len() as int);
    if affix.len() == 0 {
        Ok((new_node, parents))
    } else {
        match repr_hash(crate::trie::trie_bytes::<K, V>(new_node)) {
            Ok(h) => Ok(
                (
                    new_node,
                    parents.push(
                        (
                            child_index,
                            TrieModel::Extension { affix, pointer: PointerModel::NodePointer(h) },
                        ),
                    ),
                ),
            ),
            Err(e) => Err(e),
        }
    }
}

/// Whether [`reparent_leaf`] can work on these arguments: the existing leaf
/// hangs from a node, and the two paths part after the parents' path ends
/// and before the existing leaf's path ends.
pub open spec fn reparent_defined<KV, VV>(
    new_leaf_path: Seq<u8>,
    existing_leaf_path: Seq<u8>,
    parents: ParentsModel<KV, VV>,
) -> bool {
    let shared = spec_common_prefix(new_leaf_path, existing_leaf_path);
    &&& parents.len() > 0
    &&& parents.last().1 matches TrieModel::Node { pointer_block } && pointer_block[parents.last().0 as int] is Some
    &&& parents_path(parents).len() <= shared.len()
    &&& shared.len() < existing_leaf_path.len()
}

/// Whether a write can put a new leaf beside an existing leaf: the
/// reparenting can work, and the new leaf's path goes on past the shared
/// part too, for the node to hold the new leaf.
pub open spec fn reparent_fits<KV, VV>(
    new_leaf_path: Seq<u8>,
    existing_leaf_path: Seq<u8>,
    parents: ParentsModel<KV, VV>,
) -> bool {
    &&& reparent_defined(new_leaf_path, existing_leaf_path, parents)
    &&& spec_common_prefix(new_leaf_path, existing_leaf_path).len() < new_leaf_path.len()
}

/// Takes the paths of a new leaf and of an existing leaf that share a prefix,
/// with the parents of the existing leaf; makes a node holding the existing
/// leaf (and an extension above it for the rest of the shared path), for
/// [`add_node_to_parents`] to take.
pub fn reparent_leaf<K: FromBytes, V: FromBytes>(
    new_leaf_path: &[u8],
    existing_leaf_path: &[u8],
    parents: Vec<(u8, Trie<K, V>)>,
) -> (r: Result<(Trie<K, V>, Vec<(u8, Trie<K, V>)>), Error>)
    requires
        reparent_defined(new_leaf_path@, existing_leaf_path@, parents.deep_view()),
    ensures
        match r {
            Ok((node, ps)) => spec_reparent_leaf::<K, V>(
                new_leaf_path@,
                existing_leaf_path@,
                parents.deep_view(),
            ) == Ok::<(TrieModel<K::V, V::V>, ParentsModel<K::V, V::V>), Error>(
                (node.deep_view(), ps.deep_view()),
            ),
            Err(e) => spec_reparent_leaf::<K, V>(
                new_leaf_path@,
                existing_leaf_path@,
                parents.deep_view(),
            ) == Err::<(TrieModel<K::V, V::V>, ParentsModel<K::V, V::V>), Error>(e),
        },
{
    let ghost ps0 = parents.deep_view();
    let mut parents = parents;
    let (child_index, parent) = parents.pop().expect("parents should not be empty");
    assert(ps0.last() == (child_index, parent.deep_view()));
    let pointer_block = match parent {
        Trie::Node { pointer_block } => pointer_block,
        _ => {
            proof {
                assert(false);
            }
            return Err(Error::Formatting);
        },
    };
    // The path that the new leaf and the existing leaf share.
    let shared_path = common_prefix(new_leaf_path, existing_leaf_path);
    // A new node holds the existing leaf; the new leaf is added later.
    let index = existing_leaf_path[shared_path.len()];
    let existing_leaf_pointer = pointer_block.get(child_index as usize).expect(
        "parent has lost the existing leaf",
    );
    let indexed = [(index, existing_leaf_pointer)];
    let new_node: Trie<K, V> = Trie::node(&indexed);
    assert(indexed@.map_values(|x: (u8, Pointer)| (x.0, x.1.deep_view())) =~= seq![
        (index, existing_leaf_pointer.deep_view()),
    ]);
    // The parent node goes back on the parents.
    parents.push((child_index, Trie::Node { pointer_block }));
    assert(parents.deep_view() =~= ps0);
    assert(parents@.map_values(|x: (u8, Trie<K, V>)| (x.0, x.1.deep_view())) =~= parents.deep_view());
    let parents_path = get_parents_path(parents.as_slice());
    let affix = slice_to_vec(&shared_path.as_slice()[parents_path.len()..shared_path.len()]);
    assert(affix@ =~= shared_path@.skip(parents_path@.len() as int));
    if affix.len() != 0 {
        let new_node_hash = match new_node.merkle_hash() {
            Ok(h) => h,
            Err(e) => return Err(e),
        };
        let new_extension: Trie<K, V> = Trie::extension(affix, Pointer::NodePointer(new_node_hash));
        let ghost before = parents.deep_view();
        parents.push((child_index, new_extension));
        assert(parents.deep_view() =~= before.push((child_index, new_extension.deep_view())));
    }
    Ok((new_node, parents))
}


/// What [`split_extension`] makes.
pub struct SplitModel<KV, VV> {
    pub new_node: TrieModel<KV, VV>,
    pub parents: ParentsModel<KV, VV>,
    pub maybe_hashed_child_extension: Option<(Seq<u8>, TrieModel<KV, VV>)>,
}

/// What [`split_extension`] makes of an extension with `affix` and `pointer`
/// that the path of a new leaf leaves: a node where the paths part, an
/// extension below it for the rest of the affix, if any, and one above it
/// for the shared part of the affix, if any (added to the parents).
pub open spec fn spec_split_extension<K: FromBytes, V: FromBytes>(
    new_leaf_path: Seq<u8>,
    affix: Seq<u8>,
    pointer: PointerModel,
    parents: ParentsModel<K::V, V::V>,
) -> Result<SplitModel<K::V, V::V>, Error> {
    let parents_path = parents_path(parents);
    let existing_extension_path = parents_path + affix;
    let shared = spec_common_prefix(new_leaf_path, existing_extension_path);
    let parent_extension_affix = shared.skip(parents_path.len() as int);
    let child_extension_affix = affix.skip(parent_extension_affix.len() as int + 1);
    let index = existing_extension_path[shared.len() as int];
    let child: Result<Option<(Seq<u8>, TrieModel<K::V, V::V>)>, Error> = if child_extension_affix.len()
        == 0 {
        Ok(None)
    } else {
        let child_extension = TrieModel::<K::V, V::V>::Extension {
            affix: child_extension_affix,
            pointer,
        };
        match repr_hash(crate::trie::trie_bytes::<K, V>(child_extension)) {
            Ok(h) => Ok(Some((h, child_extension))),
            Err(e) => Err(e),
        }
    };
    match child {
        Err(e) => Err(e),
        Ok(maybe_child) => {
            let node_pointer = match maybe_child {
                Some((h, _)) => PointerModel::NodePointer(h),
                None => pointer,
            };
            let new_node = TrieModel::<K::V, V::V>::Node {
                pointer_block: block_from(seq![(index, node_pointer)]),
            };
            if parent_extension_affix.len() == 0 {
                Ok(SplitModel { new_node, parents, maybe_hashed_child_extension: maybe_child })
            } else {
                match repr_hash(crate::trie::trie_bytes::<K, V>(new_node)) {
                    Ok(nh) => Ok(
                        SplitModel {
                            new_node,
                            parents: parents.push(
                                (
                                    parent_extension_affix[0],
                                    TrieModel::Extension {
                                        affix: parent_extension_affix,
                                        pointer: PointerModel::NodePointer(nh),
                                    },
                                ),
                            ),
                            maybe_hashed_child_extension: maybe_child,
                        },
                    ),
                    Err(e) => Err(e),
                }
            }
        },
    }
}

/// What [`split_extension`] returns.
pub struct SplitResult<K, V> {
    pub new_node: Trie<K, V>,
    pub parents: Vec<(u8, Trie<K, V>)>,
    pub maybe_hashed_child_extension: Option<(Blake2bHash, Trie<K, V>)>,
}

/// Takes the path of a new leaf, an extension that the path leaves, and the
/// parents of that extension; makes a node where the paths part, with
/// extensions below and above it where needed (see [`spec_split_extension`]).
pub fn split_extension<K: FromBytes, V: FromBytes>(
    new_leaf_path: &[u8],
    existing_extension: Trie<K, V>,
    parents: Vec<(u8, Trie<K, V>)>,
) -> (r: Result<SplitResult<K, V>, Error>)
    requires
        existing_extension.deep_view() is Extension,
        ({
            let pp = parents_path(parents.deep_view());
            let shared = spec_common_prefix(
                new_leaf_path@,
                pp + existing_extension.deep_view()->Extension_affix,
            );
            pp.len() <= shared.len() < pp.len() + existing_extension.deep_view()->Extension_affix.len()
        }),
    ensures
        match r {
            Ok(res) => spec_split_extension::<K, V>(
                new_leaf_path@,
                existing_extension.deep_view()->Extension_affix,
                existing_extension.deep_view()->Extension_pointer,
                parents.deep_view(),
            ) == Ok::<SplitModel<K::V, V::V>, Error>(
                SplitModel {
                    new_node: res.new_node.deep_view(),
                    parents: res.parents.deep_view(),
                    maybe_hashed_child_extension: res.maybe_hashed_child_extension.deep_view(),
                },
            ),
            Err(e) => spec_split_extension::<K, V>(
                new_leaf_path@,
                existing_extension.deep_view()->Extension_affix,
                existing_extension.deep_view()->Extension_pointer,
                parents.deep_view(),
            ) == Err::<SplitModel<K::V, V::V>, Error>(e),
        },
{
    let ghost ps0 = parents.deep_view();
    let mut parents = parents;
    let (affix, pointer) = match existing_extension {
        Trie::Extension { affix, pointer } => (affix, pointer),
        _ => {
            proof {
                assert(false);
            }
            return Err(Error::Formatting);
        },
    };
    assert(parents@.map_values(|x: (u8, Trie<K, V>)| (x.0, x.1.deep_view())) =~= ps0);
    let parents_path = get_parents_path(parents.as_slice());
    // The path to the existing extension's end.
    let mut existing_extension_path = slice_to_vec(parents_path.as_slice());
    let mut k: usize = 0;
    while k < affix.len()
        invariant
            0 <= k <= affix@.len(),
            existing_extension_path@ == parents_path@ + affix@.take(k as int),
        decreases affix@.len() - k,
    {
        existing_extension_path.push(affix[k]);
        assert(existing_extension_path@ =~= parents_path@ + affix@.take(k + 1));
        k = k + 1;
    }
    assert(affix@.take(affix@.len() as int) =~= affix@);
    // The path that the new leaf and the existing extension share.
    let shared_path = common_prefix(new_leaf_path, existing_extension_path.as_slice());
    proof {
        lemma_common_prefix_props(new_leaf_path@, existing_extension_path@);
    }
    // The affix of a possible extension above the new node.
    let parent_extension_affix = slice_to_vec(
        &shared_path.as_slice()[parents_path.len()..shared_path.len()],
    );
    assert(parent_extension_affix@ =~= shared_path@.skip(parents_path@.len() as int));
    // The affix of a possible extension between the new node and what the
    // existing extension pointed to.
    let child_extension_affix = slice_to_vec(
        &affix.as_slice()[parent_extension_affix.len() + 1..affix.len()],
    );
    assert(child_extension_affix@ =~= affix@.skip(parent_extension_affix@.len() as int + 1));
    let maybe_hashed_child_extension: Option<(Blake2bHash, Trie<K, V>)> = if child_extension_affix.len()
        == 0 {
        None
    } else {
        let child_extension: Trie<K, V> = Trie::extension(child_extension_affix, pointer);
        let child_extension_hash = match child_extension.merkle_hash() {
            Ok(h) => h,
            Err(e) => return Err(e),
        };
        Some((child_extension_hash, child_extension))
    };
    // Assemble the new node.
    let index = existing_extension_path[shared_path.len()];
    let node_pointer = match &maybe_hashed_child_extension {
        Some((hash, _)) => Pointer::NodePointer(*hash),
        None => pointer,
    };
    let indexed = [(index, node_pointer)];
    let new_node: Trie<K, V> = Trie::node(&indexed);
    assert(indexed@.map_values(|x: (u8, Pointer)| (x.0, x.1.deep_view())) =~= seq![
        (index, node_pointer.deep_view()),
    ]);
    // An extension above the new node, where the shared path goes on past the parents.
    if parent_extension_affix.len() != 0 {
        let new_node_hash = match new_node.merkle_hash() {
            Ok(h) => h,
            Err(e) => return Err(e),
        };
        let first = parent_extension_affix[0];
        let parent_extension: Trie<K, V> = Trie::extension(
            parent_extension_affix,
            Pointer::NodePointer(new_node_hash),
        );
        let ghost before = parents.deep_view();
        parents.push((first, parent_extension));
        assert(parents.deep_view() =~= before.push((first, parent_extension.deep_view())));
    }
    Ok(SplitResult { new_node, parents, maybe_hashed_child_extension })
}


proof fn lemma_parents_path_concat<KV, VV>(a: ParentsModel<KV, VV>, b: ParentsModel<KV, VV>)
    ensures
        parents_path(a + b) == parents_path(a) + parents_path(b),
    decreases b.len(),
{
    if b.len() == 0 {
        assert(a + b =~= a);
        assert(parents_path(a) + Seq::<u8>::empty() =~= parents_path(a));
    } else {
        lemma_parents_path_concat(a, b.drop_last());
        assert((a + b).drop_last() =~= a + b.drop_last());
        assert((a + b).last() == b.last());
        let tail = match b.last().1 {
            TrieModel::Extension { affix, .. } => affix,
            _ => seq![b.last().0],
        };
        assert(parents_path(a) + parents_path(b.drop_last()) + tail =~= parents_path(a) + (
        parents_path(b.drop_last()) + tail));
    }
}

/// The extensions that the scan along `key`'s path from the root stored
/// under `root` passes all have path bytes.
pub open spec fn scan_extensions_nonempty<K: FromBytes, V: FromBytes>(
    m: Map<Seq<u8>, Seq<u8>>,
    root: Seq<u8>,
    key: K::V,
) -> bool {
    match fetch::<K, V>(m, root) {
        FetchModel::Got(t) => spec_scan::<K, V>(m, t, K::spec_bytes(key), 0) matches ScanModel::Done {
            parents,
            ..
        } ==> extensions_nonempty(parents),
        _ => true,
    }
}

/// What is left, below `parents`, of an allowance `run` of extensions
/// without path bytes in a row (see [`walk_in`]).
pub open spec fn run_below<KV, VV>(parents: ParentsModel<KV, VV>, run: int) -> int
    decreases parents.len(),
{
    if parents.len() == 0 {
        run
    } else if parents.last().1 matches TrieModel::Extension { affix, .. } && affix.len() == 0 {
        run_below(parents.drop_last(), run) - 1
    } else {
        empty_run_limit() as int
    }
}

/// Each extension without path bytes among the parents comes while some of
/// the allowance `run` is left.
pub open spec fn runs_last<KV, VV>(parents: ParentsModel<KV, VV>, run: int) -> bool {
    forall|i: int|
        #![trigger parents[i]]
        0 <= i < parents.len() ==> (parents[i].1 matches TrieModel::Extension { affix, .. }
            && affix.len() == 0 ==> run_below(parents.take(i), run) > 0)
}

/// What is left below one more parent on top is what is left below the
/// rest, from what is left below that parent.
proof fn lemma_run_below_prepend<KV, VV>(
    x: (u8, TrieModel<KV, VV>),
    q: ParentsModel<KV, VV>,
    run: int,
)
    ensures
        run_below(seq![x] + q, run) == run_below(q, run_below(seq![x], run)),
    decreases q.len(),
{
    let one = seq![x];
    assert(one.drop_last() =~= Seq::<(u8, TrieModel<KV, VV>)>::empty());
    assert(one.last() == x);
    if q.len() == 0 {
        assert(one + q =~= one);
    } else {
        lemma_run_below_prepend(x, q.drop_last(), run);
        assert((one + q).drop_last() =~= one + q.drop_last());
        assert((one + q).last() == q.last());
    }
}

/// A parent that is not an extension without path bytes keeps the
/// allowance fit below the parents.
proof fn lemma_runs_last_push<KV, VV>(
    parents: ParentsModel<KV, VV>,
    x: (u8, TrieModel<KV, VV>),
    run: int,
)
    requires
        runs_last(parents, run),
        !(x.1 matches TrieModel::Extension { affix, .. } && affix.len() == 0),
    ensures
        runs_last(parents.push(x), run),
{
    let all = parents.push(x);
    assert forall|i: int| 0 <= i < all.len() implies (all[i].1 matches TrieModel::Extension {
        affix,
        ..
    } && affix.len() == 0 ==> run_below(all.take(i), run) > 0) by {
        if i < parents.len() {
            assert(all[i] == parents[i]);
            assert(all.take(i) =~= parents.take(i));
        }
    }
}

/// The allowance stays fit with one more parent `x` on top, where what is
/// left below it is `run2`, and `x` comes while some of `run` is left.
proof fn lemma_runs_last_prepend<KV, VV>(
    x: (u8, TrieModel<KV, VV>),
    ps: ParentsModel<KV, VV>,
    run: int,
    run2: int,
)
    requires
        run_below(seq![x], run) == run2,
        runs_last(ps, run2),
        x.1 matches TrieModel::Extension { affix, .. } && affix.len() == 0 ==> run > 0,
    ensures
        runs_last(seq![x] + ps, run),
{
    let all = seq![x] + ps;
    assert forall|i: int| 0 <= i < all.len() implies (all[i].1 matches TrieModel::Extension {
        affix,
        ..
    } && affix.len() == 0 ==> run_below(all.take(i), run) > 0) by {
        if i == 0 {
            assert(all.take(0) =~= Seq::<(u8, TrieModel<KV, VV>)>::empty());
            assert(all[0] == x);
        } else {
            assert(all[i] == ps[i - 1]);
            assert(all.take(i) =~= seq![x] + ps.take(i - 1));
            lemma_run_below_prepend(x, ps.take(i - 1), run);
        }
    }
}

/// What is left below parents whose allowance stays fit is not negative.
proof fn lemma_run_below_nonneg<KV, VV>(parents: ParentsModel<KV, VV>, run: int)
    requires
        run >= 0,
        runs_last(parents, run),
    ensures
        run_below(parents, run) >= 0,
{
    if parents.len() > 0 {
        let last = parents.len() - 1;
        assert(parents[last] == parents.last());
        assert(parents.take(last) =~= parents.drop_last());
    }
}

/// Every extension among the parents has path bytes.
pub open spec fn extensions_nonempty<KV, VV>(parents: ParentsModel<KV, VV>) -> bool {
    forall|i: int|
        0 <= i < parents.len() ==> ((#[trigger] parents[i]).1 matches TrieModel::Extension {
            affix,
            ..
        } ==> affix.len() > 0)
}

/// Every node among the parents has a full block of slots.
pub open spec fn nodes_full<KV, VV>(parents: ParentsModel<KV, VV>) -> bool {
    forall|i: int|
        0 <= i < parents.len() ==> ((#[trigger] parents[i]).1 matches TrieModel::Node {
            pointer_block,
        } ==> pointer_block.len() == 256)
}

/// What a finished scan knows: the parents' path is the start of the rest of
/// the path, no parent is a leaf, each node parent has a child for its byte,
/// and the tip ends the scan for the reason its kind gives.
pub open spec fn scan_facts<KV, VV>(
    path: Seq<u8>,
    depth: nat,
    tip: TrieModel<KV, VV>,
    parents: ParentsModel<KV, VV>,
) -> bool {
    let pp = parents_path(parents);
    let d = depth + pp.len();
    &&& d <= path.len()
    &&& path.subrange(depth as int, d as int) == pp
    &&& no_leaf_parents(parents)
    &&& nodes_full(parents)
    &&& forall|i: int|
        0 <= i < parents.len() ==> ((#[trigger] parents[i]).1 matches TrieModel::Node {
            pointer_block,
        } ==> pointer_block[parents[i].0 as int] is Some)
    &&& (tip matches TrieModel::Node { pointer_block } ==> d < path.len()
        && pointer_block[path[d as int] as int] is None && pointer_block.len() == 256)
    &&& (tip matches TrieModel::Extension { affix, .. } ==> {
        &&& affix.len() > 0
        &&& d + affix.len() <= path.len()
        &&& path.subrange(d as int, (d + affix.len()) as int) != affix
    })
}

#[verifier::rlimit(60)]
pub(crate) proof fn lemma_scan_facts<K: FromBytes, V: FromBytes>(
    m: Map<Seq<u8>, Seq<u8>>,
    t: TrieModel<K::V, V::V>,
    path: Seq<u8>,
    depth: nat,
    run: nat,
)
    requires
        depth <= path.len(),
        Trie::<K, V>::spec_valid(t),
    ensures
        spec_scan_in::<K, V>(m, t, path, depth, run) matches ScanModel::Done { tip, parents }
            ==> scan_facts(path, depth, tip, parents) && runs_last(parents, run as int),
    decreases path.len() - depth, run,
{
    match t {
        TrieModel::Leaf { .. } => {
            assert(path.subrange(depth as int, depth as int) =~= Seq::<u8>::empty());
        },
        TrieModel::Node { pointer_block } => {
            if depth < path.len() {
                let index = path[depth as int];
                match pointer_block[index as int] {
                    None => {
                        assert(path.subrange(depth as int, depth as int) =~= Seq::<u8>::empty());
                    },
                    Some(p) => {
                        if let FetchModel::Got(child) = fetch::<K, V>(m, p.hash()) {
                            Trie::<K, V>::lemma_parse_bound(m[p.hash()]);
                            lemma_scan_facts::<K, V>(m, child, path, depth + 1, empty_run_limit());
                            if let ScanModel::Done { tip, parents } = spec_scan_in::<K, V>(
                                m,
                                child,
                                path,
                                depth + 1,
                                empty_run_limit(),
                            ) {
                                let head = seq![(index, t)];
                                assert(head.drop_last() =~= Seq::<
                                    (u8, TrieModel<K::V, V::V>),
                                >::empty());
                                assert(head.last() == (index, t));
                                assert(run_below(head, run as int) == empty_run_limit() as int);
                                lemma_runs_last_prepend(
                                    (index, t),
                                    parents,
                                    run as int,
                                    empty_run_limit() as int,
                                );
                                lemma_parents_path_concat(head, parents);
                                assert(head.drop_last() =~= Seq::<
                                    (u8, TrieModel<K::V, V::V>),
                                >::empty());
                                assert(head.last() == (index, t));
                                assert(head.drop_last().len() == 0);
                                assert(parents_path(head.drop_last()) =~= Seq::<u8>::empty());
                                assert(parents_path(head) =~= seq![index]);
                                let pp = parents_path(parents);
                                assert(path.subrange(depth as int, (depth + 1 + pp.len()) as int)
                                    =~= seq![index] + path.subrange(
                                    (depth + 1) as int,
                                    (depth + 1 + pp.len()) as int,
                                ));
                                let all = head + parents;
                                assert forall|i: int| 0 <= i < all.len() implies !((
                                #[trigger] all[i]).1 is Leaf) && ((all[i]).1 matches TrieModel::Node {
                                    pointer_block,
                                } ==> pointer_block[all[i].0 as int] is Some && pointer_block.len() == 256) by {
                                    if i > 0 {
                                        assert(all[i] == parents[i - 1]);
                                    }
                                }
                            }
                        }
                    },
                }
            }
        },
        TrieModel::Extension { affix, pointer } => {
            if depth + affix.len() <= path.len() {
                let run2 = next_run(run, depth, depth + affix.len());
                if path.subrange(depth as int, (depth + affix.len()) as int) != affix {
                    assert(path.subrange(depth as int, depth as int) =~= Seq::<u8>::empty());
                    if affix.len() == 0 {
                        assert(path.subrange(depth as int, depth as int) =~= affix);
                    }
                } else if depth < path.len() && !(affix.len() == 0 && run == 0) {
                  if let FetchModel::Got(child) = fetch::<K, V>(m, pointer.hash()) {
                    Trie::<K, V>::lemma_parse_bound(m[pointer.hash()]);
                    lemma_scan_facts::<K, V>(m, child, path, depth + affix.len(), run2);
                    if let ScanModel::Done { tip, parents } = spec_scan_in::<K, V>(
                        m,
                        child,
                        path,
                        depth + affix.len(),
                        run2,
                    ) {
                        let head = seq![(path[depth as int], t)];
                        assert(head.drop_last() =~= Seq::<(u8, TrieModel<K::V, V::V>)>::empty());
                        assert(head.last() == (path[depth as int], t));
                        assert(run_below(head.drop_last(), run as int) == run as int);
                        assert(run_below(head, run as int) == run2 as int);
                        lemma_runs_last_prepend(
                            (path[depth as int], t),
                            parents,
                            run as int,
                            run2 as int,
                        );
                        lemma_parents_path_concat(head, parents);
                        assert(head.drop_last() =~= Seq::<(u8, TrieModel<K::V, V::V>)>::empty());
                        assert(head.last() == (path[depth as int], t));
                        assert(head.drop_last().len() == 0);
                        assert(parents_path(head.drop_last()) =~= Seq::<u8>::empty());
                        assert(parents_path(head) =~= affix);
                        let pp = parents_path(parents);
                        let d2 = depth + affix.len();
                        assert(path.subrange(depth as int, (d2 + pp.len()) as int) =~= path.subrange(
                            depth as int,
                            d2 as int,
                        ) + path.subrange(d2 as int, (d2 + pp.len()) as int));
                        let all = head + parents;
                        assert forall|i: int| 0 <= i < all.len() implies !((
                        #[trigger] all[i]).1 is Leaf) && ((all[i]).1 matches TrieModel::Node {
                            pointer_block,
                        } ==> pointer_block[all[i].0 as int] is Some && pointer_block.len() == 256) by {
                            if i > 0 {
                                assert(all[i] == parents[i - 1]);
                            }
                        }
                    }
                  }
                }
            }
        },
    }
}

/// What a write does.
#[derive(Debug, PartialEq, Eq)]
pub enum WriteResult {
    /// The entry was written; the hash of the new root.
    Written(Blake2bHash),
    /// The trie already holds the entry.
    AlreadyExists,
    /// Nothing is stored under the root hash.
    RootNotFound,
}

/// Whether a write of `key` can work on the trie under `root`: the scan along
/// the key's path can go on to its end, and where it ends at a leaf with
/// another key, the two keys part below the leaf's parent node and before
/// either ends.
pub open spec fn write_defined<K: FromBytes, V: FromBytes>(
    m: Map<Seq<u8>, Seq<u8>>,
    root: Seq<u8>,
    key: K::V,
) -> bool {
    let path = K::spec_bytes(key);
    match fetch::<K, V>(m, root) {
        FetchModel::Got(t) => path.len() <= max_repr_len() ==> {
            let s = spec_scan::<K, V>(m, t, path, 0);
            &&& s != ScanModel::<K::V, V::V>::Stuck
            &&& match s {
                ScanModel::Done { tip: TrieModel::Leaf { key: existing_key, .. }, parents } =>
                    K::spec_bytes(existing_key) != path ==> reparent_fits(
                    path,
                    K::spec_bytes(existing_key),
                    parents,
                ),
                _ => true,
            }
        },
        _ => true,
    }
}

/// What a write leads to: the new elements (each with its hash, deepest
/// first, the new root last), or that nothing changes.
pub enum WriteModel<KV, VV> {
    Written(Seq<(Seq<u8>, TrieModel<KV, VV>)>),
    AlreadyExists,
    RootNotFound,
}

/// The elements of a successful rehash, as a write's outcome.
pub open spec fn written<KV, VV>(r: Result<Seq<(Seq<u8>, TrieModel<KV, VV>)>, Error>) -> Result<
    WriteModel<KV, VV>,
    Error,
> {
    match r {
        Ok(els) => Ok(WriteModel::Written(els)),
        Err(e) => Err(e),
    }
}

/// The parents with `node` added below them, with the path byte that leads down from it.
pub open spec fn with_node<KV, VV>(
    path: Seq<u8>,
    parents: ParentsModel<KV, VV>,
    node: TrieModel<KV, VV>,
) -> ParentsModel<KV, VV> {
    parents.push((path[parents_path(parents).len() as int], node))
}

/// What writing `value` under `key` into the trie under `root` leads to:
/// the scan along the key's path ends at a leaf with the same key and value
/// (nothing to do), at a leaf with the same key (a new leaf in its place), at
/// a leaf with another key (a node for both leaves), at a node (a new child),
/// or at an extension that the path leaves (the extension split at that point).
pub open spec fn spec_write<K: FromBytes, V: FromBytes>(
    m: Map<Seq<u8>, Seq<u8>>,
    root: Seq<u8>,
    key: K::V,
    value: V::V,
) -> Result<WriteModel<K::V, V::V>, Error> {
    match fetch::<K, V>(m, root) {
        FetchModel::Missing => Ok(WriteModel::RootNotFound),
        FetchModel::Bad(e) => Err(e),
        FetchModel::Got(t) => {
            let path = K::spec_bytes(key);
            let new_leaf = TrieModel::<K::V, V::V>::Leaf { key, value };
            if path.len() > max_repr_len() {
                Err(Error::OutOfMemory)
            } else {
                match spec_scan::<K, V>(m, t, path, 0) {
                    ScanModel::Failed(e) => Err(e),
                    ScanModel::Stuck => Err(Error::Formatting),
                    ScanModel::Done { tip, parents } => match tip {
                        TrieModel::Leaf { key: leaf_key, value: leaf_value } => {
                            let existing_leaf_path = K::spec_bytes(leaf_key);
                            if existing_leaf_path == path && V::spec_bytes(leaf_value)
                                == V::spec_bytes(value) {
                                Ok(WriteModel::AlreadyExists)
                            } else if existing_leaf_path == path {
                                written(spec_rehash::<K, V>(new_leaf, parents))
                            } else if existing_leaf_path.len() > max_repr_len() {
                                Err(Error::OutOfMemory)
                            } else {
                                match spec_reparent_leaf::<K, V>(path, existing_leaf_path, parents) {
                                    Err(e) => Err(e),
                                    Ok((new_node, ps)) => written(
                                        spec_rehash::<K, V>(new_leaf, with_node(path, ps, new_node)),
                                    ),
                                }
                            }
                        },
                        TrieModel::Node { .. } => written(
                            spec_rehash::<K, V>(new_leaf, with_node(path, parents, tip)),
                        ),
                        TrieModel::Extension { affix, pointer } => match spec_split_extension::<
                            K,
                            V,
                        >(path, affix, pointer, parents) {
                            Err(e) => Err(e),
                            Ok(split) => match spec_rehash::<K, V>(
                                new_leaf,
                                with_node(path, split.parents, split.new_node),
                            ) {
                                Err(e) => Err(e),
                                Ok(els) => Ok(
                                    WriteModel::Written(
                                        match split.maybe_hashed_child_extension {
                                            Some(c) => seq![c] + els,
                                            None => els,
                                        },
                                    ),
                                ),
                            },
                        },
                    },
                }
            }
        },
    }
}

/// The store after putting each element under its hash, in order.
pub open spec fn apply_puts<K: FromBytes, V: FromBytes>(
    m: Map<Seq<u8>, Seq<u8>>,
    els: Seq<(Seq<u8>, TrieModel<K::V, V::V>)>,
) -> Map<Seq<u8>, Seq<u8>>
    decreases els.len(),
{
    if els.len() == 0 {
        m
    } else {
        apply_puts::<K, V>(m, els.drop_last()).insert(
            els.last().0,
            crate::trie::trie_bytes::<K, V>(els.last().1),
        )
    }
}

/// The element below parent `i` on a chain: the next parent, or the tip.
pub open spec fn below<KV, VV>(tip: TrieModel<KV, VV>, parents: ParentsModel<KV, VV>, i: int) -> TrieModel<
    KV,
    VV,
> {
    if i + 1 < parents.len() {
        parents[i + 1].1
    } else {
        tip
    }
}

/// Each element is hashed: its representation fits and hashes to the hash beside it.
pub open spec fn elements_hashed<K: FromBytes, V: FromBytes>(
    els: Seq<(Seq<u8>, TrieModel<K::V, V::V>)>,
) -> bool {
    forall|i: int|
        0 <= i < els.len() ==> repr_hash(crate::trie::trie_bytes::<K, V>((#[trigger] els[i]).1))
            == Ok::<Seq<u8>, Error>(els[i].0)
}

/// The elements of a rehash are hashed; the first is the tip.
pub proof fn lemma_rehash_hashed<K: FromBytes, V: FromBytes>(
    tip: TrieModel<K::V, V::V>,
    parents: ParentsModel<K::V, V::V>,
)
    ensures
        spec_rehash::<K, V>(tip, parents) matches Ok(els) ==> elements_hashed::<K, V>(els) && els.len()
            > 0 && els[0].1 == tip && repr_hash(crate::trie::trie_bytes::<K, V>(tip)) == Ok::<
            Seq<u8>,
            Error,
        >(els[0].0),
    decreases parents.len(),
{
    if let Ok(h) = repr_hash(crate::trie::trie_bytes::<K, V>(tip)) {
        if parents.len() > 0 {
            let (index, parent) = parents.last();
            lemma_rehash_hashed::<K, V>(adopt(parent, index, tip, h), parents.drop_last());
            if let Ok(rest) = spec_rehash::<K, V>(adopt(parent, index, tip, h), parents.drop_last()) {
                let els = seq![(h, tip)] + rest;
                assert forall|i: int| 0 <= i < els.len() implies repr_hash(
                    crate::trie::trie_bytes::<K, V>((#[trigger] els[i]).1),
                ) == Ok::<Seq<u8>, Error>(els[i].0) by {
                    if i > 0 {
                        assert(els[i] == rest[i - 1]);
                    }
                }
            }
        }
    }
}

pub(crate) proof fn lemma_write_hashed<K: FromBytes, V: FromBytes>(
    m: Map<Seq<u8>, Seq<u8>>,
    root: Seq<u8>,
    key: K::V,
    value: V::V,
)
    ensures
        spec_write::<K, V>(m, root, key, value) matches Ok(WriteModel::Written(els))
            ==> elements_hashed::<K, V>(els) && els.len() > 0,
{
    if let FetchModel::Got(t) = fetch::<K, V>(m, root) {
        let path = K::spec_bytes(key);
        let new_leaf = TrieModel::<K::V, V::V>::Leaf { key, value };
        if path.len() <= max_repr_len() {
            if let ScanModel::Done { tip, parents } = spec_scan::<K, V>(m, t, path, 0) {
                match tip {
                    TrieModel::Leaf { key: leaf_key, value: leaf_value } => {
                        lemma_rehash_hashed::<K, V>(new_leaf, parents);
                        if let Ok((new_node, ps)) = spec_reparent_leaf::<K, V>(
                            path,
                            K::spec_bytes(leaf_key),
                            parents,
                        ) {
                            lemma_rehash_hashed::<K, V>(new_leaf, with_node(path, ps, new_node));
                        }
                    },
                    TrieModel::Node { .. } => {
                        lemma_rehash_hashed::<K, V>(new_leaf, with_node(path, parents, tip));
                    },
                    TrieModel::Extension { affix, pointer } => {
                        if let Ok(split) = spec_split_extension::<K, V>(
                            path,
                            affix,
                            pointer,
                            parents,
                        ) {
                            let ps = with_node(path, split.parents, split.new_node);
                            lemma_rehash_hashed::<K, V>(new_leaf, ps);
                            if let Ok(els) = spec_rehash::<K, V>(new_leaf, ps) {
                                if let Some(c) = split.maybe_hashed_child_extension {
                                    let all = seq![c] + els;
                                    assert(repr_hash(crate::trie::trie_bytes::<K, V>(c.1)) == Ok::<
                                        Seq<u8>,
                                        Error,
                                    >(c.0));
                                    assert forall|i: int| 0 <= i < all.len() implies repr_hash(
                                        crate::trie::trie_bytes::<K, V>((#[trigger] all[i]).1),
                                    ) == Ok::<Seq<u8>, Error>(all[i].0) by {
                                        if i > 0 {
                                            assert(all[i] == els[i - 1]);
                                        }
                                    }
                                }
                            }
                        }
                    },
                }
            }
        }
    }
}

/// The path bytes that a parent takes: an extension's bytes, or a node's one byte.
pub open spec fn parent_step_len<KV, VV>(parent: TrieModel<KV, VV>) -> nat {
    match parent {
        TrieModel::Extension { affix, .. } => affix.len(),
        _ => 1,
    }
}

/// A parent made to point at an element stored under `h` leads a walk on to it.
proof fn lemma_walk_adopted<K: FromBytes, V: FromBytes>(
    m2: Map<Seq<u8>, Seq<u8>>,
    parent: TrieModel<K::V, V::V>,
    index: u8,
    tip: TrieModel<K::V, V::V>,
    h: Seq<u8>,
    path: Seq<u8>,
    d: nat,
    run: nat,
    key: K::V,
    value: V::V,
)
    requires
        !(parent is Leaf),
        fetch::<K, V>(m2, h) == FetchModel::<K::V, V::V>::Got(tip),
        parent matches TrieModel::Node { pointer_block } ==> pointer_block.len() == 256 && d
            < path.len() && path[d as int] == index,
        parent matches TrieModel::Extension { affix, .. } ==> d + affix.len() <= path.len()
            && path.subrange(d as int, (d + affix.len()) as int) == affix && (affix.len() == 0
            ==> run > 0),
        walk_in::<K, V>(
            m2,
            tip,
            path,
            d + parent_step_len(parent),
            run_below(seq![(index, parent)], run as int) as nat,
        ) matches WalkModel::Found { key: k, value: v, .. } && k == key && v == value,
    ensures
        walk_in::<K, V>(m2, adopt(parent, index, tip, h), path, d, run) matches WalkModel::Found {
            key: k,
            value: v,
            ..
        } && k == key && v == value,
{
    let one = seq![(index, parent)];
    assert(one.drop_last() =~= Seq::<(u8, TrieModel<K::V, V::V>)>::empty());
    assert(one.last() == (index, parent));
    assert(run_below(one.drop_last(), run as int) == run as int);
    match parent {
        TrieModel::Node { pointer_block } => {
            let pb2 = pointer_block.update(index as int, Some(pointer_to(tip, h)));
            assert(pb2[index as int] == Some(pointer_to(tip, h)));
            assert(pointer_to(tip, h).hash() == h);
        },
        TrieModel::Extension { affix, pointer } => {
            assert(repoint(pointer, h).hash() == h);
        },
        TrieModel::Leaf { .. } => {},
    }
}

/// Reading down from the top of a rehashed chain follows the chain to the
/// element it began with, where the path of the parents is the path's start.
#[verifier::rlimit(60)]
proof fn lemma_rehash_chain<K: FromBytes, V: FromBytes>(
    m2: Map<Seq<u8>, Seq<u8>>,
    tip: TrieModel<K::V, V::V>,
    parents: ParentsModel<K::V, V::V>,
    path: Seq<u8>,
    els: Seq<(Seq<u8>, TrieModel<K::V, V::V>)>,
    key: K::V,
    value: V::V,
)
    requires
        spec_rehash::<K, V>(tip, parents) == Ok::<Seq<(Seq<u8>, TrieModel<K::V, V::V>)>, Error>(
            els,
        ),
        starts_with(path, parents_path(parents)),
        no_leaf_parents(parents),
        runs_last(parents, empty_run_limit() as int),
        nodes_full(parents),
        walk_in::<K, V>(
            m2,
            tip,
            path,
            parents_path(parents).len(),
            run_below(parents, empty_run_limit() as int) as nat,
        ) matches WalkModel::Found {
            key: k,
            value: v,
            ..
        } && k == key && v == value,
        forall|i: int| 0 <= i < els.len() ==> fetch::<K, V>(m2, (#[trigger] els[i]).0) == FetchModel::Got(els[i].1),
    ensures
        els.len() > 0,
        walk::<K, V>(m2, els.last().1, path, 0) matches WalkModel::Found { key: k, value: v, .. }
            && k == key && v == value,
    decreases parents.len(),
{
    lemma_rehash_hashed::<K, V>(tip, parents);
    let h = els[0].0;
    assert(fetch::<K, V>(m2, els[0].0) == FetchModel::Got(els[0].1));
    if parents.len() == 0 {
        assert(els.len() == 1);
        assert(path.take(0) =~= Seq::<u8>::empty());
    } else {
        let (index, parent) = parents.last();
        let ps1 = parents.drop_last();
        let adopted = adopt(parent, index, tip, h);
        let rest = spec_rehash::<K, V>(adopted, ps1)->Ok_0;
        assert(els == seq![(h, tip)] + rest);
        let d1 = parents_path(ps1).len();
        assert(parents.last() == parents[parents.len() - 1]);
        assert(!(parent is Leaf));
        match parent {
            TrieModel::Node { pointer_block } => {
                assert(parents_path(parents) == parents_path(ps1) + seq![index]);
                assert(path[d1 as int] == path.take(parents_path(parents).len() as int)[d1 as int]);
                assert(path[d1 as int] == index);
                assert(rest[0] == els[1]);
            },
            TrieModel::Extension { affix, pointer } => {
                assert(parents_path(parents) == parents_path(ps1) + affix);
                assert(path.subrange(d1 as int, (d1 + affix.len()) as int) =~= affix) by {
                    assert forall|j: int| 0 <= j < affix.len() implies path.subrange(
                        d1 as int,
                        (d1 + affix.len()) as int,
                    )[j] == affix[j] by {
                        assert(path.take(parents_path(parents).len() as int)[d1 + j] == path[d1
                            + j]);
                        assert((parents_path(ps1) + affix)[d1 + j] == affix[j]);
                    }
                }
                assert(rest[0] == els[1]);
            },
            TrieModel::Leaf { .. } => {
            },
        }
        assert(starts_with(path, parents_path(ps1))) by {
            assert(path.take(d1 as int) =~= path.take(parents_path(parents).len() as int).take(
                d1 as int,
            ));
            assert(parents_path(parents).take(d1 as int) =~= parents_path(ps1));
        }
        assert forall|i: int| 0 <= i < ps1.len() implies !((#[trigger] ps1[i]).1 is Leaf) && (
        ps1[i].1 matches TrieModel::Node { pointer_block } ==> pointer_block.len() == 256) && (
        ps1[i].1 matches TrieModel::Extension { affix, .. } && affix.len() == 0 ==> run_below(
            ps1.take(i),
            empty_run_limit() as int,
        ) > 0) by {
            assert(ps1[i] == parents[i]);
            assert(ps1.take(i) =~= parents.take(i));
        }
        let last = parents.len() - 1;
        assert(parents.take(last) =~= ps1);
        assert(parents[last] == (index, parent));
        let r1 = run_below(ps1, empty_run_limit() as int);
        lemma_run_below_nonneg(ps1, empty_run_limit() as int);
        let one = seq![(index, parent)];
        assert(one.drop_last() =~= Seq::<(u8, TrieModel<K::V, V::V>)>::empty());
        assert(one.last() == (index, parent));
        assert(run_below(one.drop_last(), r1) == r1);
        assert(run_below(one, r1) == run_below(parents, empty_run_limit() as int));
        lemma_walk_adopted::<K, V>(m2, parent, index, tip, h, path, d1, r1 as nat, key, value);
        assert forall|i: int| 0 <= i < rest.len() implies fetch::<K, V>(m2, (#[trigger] rest[i]).0)
            == FetchModel::Got(rest[i].1) by {
            assert(rest[i] == els[i + 1]);
        }
        lemma_rehash_chain::<K, V>(m2, adopted, ps1, path, rest, key, value);
        assert(els.last() == rest.last());
    }
}

/// The path of the parents that a reparenting leaves is the shared path.
pub(crate) proof fn lemma_reparent_parents<K: FromBytes, V: FromBytes>(
    path: Seq<u8>,
    existing: Seq<u8>,
    parents: ParentsModel<K::V, V::V>,
)
    requires
        reparent_fits(path, existing, parents),
        starts_with(path, parents_path(parents)),
        no_leaf_parents(parents),
        nodes_full(parents),
    ensures
        spec_reparent_leaf::<K, V>(path, existing, parents) matches Ok((new_node, ps)) ==> {
            &&& new_node matches TrieModel::Node { pointer_block } && pointer_block.len() == 256
            &&& nodes_full(ps)
            &&& parents_path(ps) == spec_common_prefix(path, existing)
            &&& starts_with(path, parents_path(ps))
            &&& parents_path(ps).len() < path.len()
            &&& no_leaf_parents(ps)
            &&& extensions_nonempty(parents) ==> extensions_nonempty(ps)
            &&& runs_last(parents, empty_run_limit() as int) ==> runs_last(ps, empty_run_limit() as int)
        },
{
    lemma_common_prefix_props(path, existing);
    let shared = spec_common_prefix(path, existing);
    let pp = parents_path(parents);
    let affix = shared.skip(pp.len() as int);
    assert(pp =~= shared.take(pp.len() as int)) by {
        assert(pp =~= path.take(pp.len() as int));
    }
    if let Ok((new_node, ps)) = spec_reparent_leaf::<K, V>(path, existing, parents) {
        let child_index = parents.last().0;
        let pointer_block = parents.last().1->Node_pointer_block;
        crate::trie::lemma_block_from_len(
            seq![(existing[shared.len() as int], pointer_block[child_index as int].unwrap())],
        );
        if affix.len() == 0 {
            assert(shared =~= pp);
        } else {
            assert(ps.drop_last() =~= parents);
            assert(ps == parents.push(ps.last()));
            if runs_last(parents, empty_run_limit() as int) {
                lemma_runs_last_push(parents, ps.last(), empty_run_limit() as int);
            }
            assert(pp + affix =~= shared);
            assert forall|i: int| 0 <= i < ps.len() implies !((#[trigger] ps[i]).1 is Leaf) && (
            extensions_nonempty(parents) ==> (ps[i].1 matches TrieModel::Extension { affix, .. }
            ==> affix.len() > 0)) && (
            ps[i].1 matches TrieModel::Node { pointer_block } ==> pointer_block.len() == 256) by {
                if i < parents.len() {
                    assert(ps[i] == parents[i]);
                }
            }
        }
    }
}

/// The path of the parents that a split leaves is the shared path.
pub(crate) proof fn lemma_split_parents<K: FromBytes, V: FromBytes>(
    path: Seq<u8>,
    affix: Seq<u8>,
    pointer: PointerModel,
    parents: ParentsModel<K::V, V::V>,
)
    requires
        ({
            let pp = parents_path(parents);
            let shared = spec_common_prefix(path, pp + affix);
            pp.len() <= shared.len() < pp.len() + affix.len()
        }),
        pp_fits(path, parents_path(parents), affix),
        starts_with(path, parents_path(parents)),
        no_leaf_parents(parents),
        nodes_full(parents),
    ensures
        spec_split_extension::<K, V>(path, affix, pointer, parents) matches Ok(split) ==> {
            &&& split.new_node matches TrieModel::Node { pointer_block } && pointer_block.len() == 256
            &&& nodes_full(split.parents)
            &&& parents_path(split.parents) == spec_common_prefix(path, parents_path(parents) + affix)
            &&& starts_with(path, parents_path(split.parents))
            &&& parents_path(split.parents).len() < path.len()
            &&& no_leaf_parents(split.parents)
            &&& extensions_nonempty(parents) ==> extensions_nonempty(split.parents)
            &&& runs_last(parents, empty_run_limit() as int) ==> runs_last(
                split.parents,
                empty_run_limit() as int,
            )
        },
{
    let pp = parents_path(parents);
    let ext_path = pp + affix;
    lemma_common_prefix_props(path, ext_path);
    let shared = spec_common_prefix(path, ext_path);
    let pea = shared.skip(pp.len() as int);
    assert(pp =~= shared.take(pp.len() as int)) by {
        assert(pp =~= path.take(pp.len() as int));
    }
    if let Ok(split) = spec_split_extension::<K, V>(path, affix, pointer, parents) {
        let ps = split.parents;
        assert forall|ix: Seq<(u8, PointerModel)>| #[trigger] block_from(ix).len() == 256 by {
            crate::trie::lemma_block_from_len(ix);
        }
        if pea.len() == 0 {
            assert(shared =~= pp);
        } else {
            assert(ps.drop_last() =~= parents);
            assert(ps == parents.push(ps.last()));
            if runs_last(parents, empty_run_limit() as int) {
                lemma_runs_last_push(parents, ps.last(), empty_run_limit() as int);
            }
            assert(pp + pea =~= shared);
            assert forall|i: int| 0 <= i < ps.len() implies !((#[trigger] ps[i]).1 is Leaf) && (
            extensions_nonempty(parents) ==> (ps[i].1 matches TrieModel::Extension { affix, .. }
            ==> affix.len() > 0)) && (
            ps[i].1 matches TrieModel::Node { pointer_block } ==> pointer_block.len() == 256) by {
                if i < parents.len() {
                    assert(ps[i] == parents[i]);
                }
            }
        }
        assert(parents_path(ps) == shared);
    }
}

/// The extension at the end of the parents' path lies within the path.
pub open spec fn pp_fits(path: Seq<u8>, pp: Seq<u8>, affix: Seq<u8>) -> bool {
    pp.len() + affix.len() <= path.len()
}

/// Adding a node at the end of a path's start keeps the parents' path a start of the path.
proof fn lemma_with_node<KV, VV>(path: Seq<u8>, ps: ParentsModel<KV, VV>, node: TrieModel<KV, VV>)
    requires
        node matches TrieModel::Node { pointer_block } && pointer_block.len() == 256,
        starts_with(path, parents_path(ps)),
        parents_path(ps).len() < path.len(),
        no_leaf_parents(ps),
        nodes_full(ps),
    ensures
        starts_with(path, parents_path(with_node(path, ps, node))),
        parents_path(with_node(path, ps, node)).len() == parents_path(ps).len() + 1,
        no_leaf_parents(with_node(path, ps, node)),
        extensions_nonempty(ps) ==> extensions_nonempty(with_node(path, ps, node)),
        runs_last(ps, empty_run_limit() as int) ==> runs_last(
            with_node(path, ps, node),
            empty_run_limit() as int,
        ),
        nodes_full(with_node(path, ps, node)),
{
    let all = with_node(path, ps, node);
    let d = parents_path(ps).len();
    assert(all.drop_last() =~= ps);
    assert(parents_path(all) == parents_path(ps) + seq![path[d as int]]);
    assert(path.take(d + 1 as int) =~= path.take(d as int) + seq![path[d as int]]);
    assert forall|i: int| 0 <= i < all.len() implies !((#[trigger] all[i]).1 is Leaf) && (
    extensions_nonempty(ps) ==> (all[i].1 matches TrieModel::Extension { affix, .. } ==> affix.len()
        > 0)) && (
    all[i].1 matches TrieModel::Node { pointer_block } ==> pointer_block.len() == 256) by {
        if i < ps.len() {
            assert(all[i] == ps[i]);
        }
    }
    if runs_last(ps, empty_run_limit() as int) {
        lemma_runs_last_push(ps, (path[parents_path(ps).len() as int], node), empty_run_limit() as int);
    }
}

/// No two of the elements share a hash unless they are the same element.
pub open spec fn hashes_name_elements<KV, VV>(els: Seq<(Seq<u8>, TrieModel<KV, VV>)>) -> bool {
    forall|a: int, b: int|
        #![trigger els[a], els[b]]
        0 <= a < els.len() && 0 <= b < els.len() && els[a].0 == els[b].0 ==> els[a].1 == els[b].1
}

/// After the puts, each element is stored under its hash, where no two elements share one.
proof fn lemma_apply_puts_lookup<K: FromBytes, V: FromBytes>(
    m: Map<Seq<u8>, Seq<u8>>,
    els: Seq<(Seq<u8>, TrieModel<K::V, V::V>)>,
    i: int,
)
    requires
        0 <= i < els.len(),
        hashes_name_elements(els),
    ensures
        apply_puts::<K, V>(m, els).contains_key(els[i].0),
        apply_puts::<K, V>(m, els)[els[i].0] == crate::trie::trie_bytes::<K, V>(els[i].1),
    decreases els.len(),
{
    let init = els.drop_last();
    assert(els.last() == els[els.len() - 1]);
    if i < els.len() - 1 {
        assert forall|a: int, b: int|
            0 <= a < init.len() && 0 <= b < init.len() && (#[trigger] init[a]).0 == (
            #[trigger] init[b]).0 implies init[a].1 == init[b].1 by {
            assert(init[a] == els[a]);
            assert(init[b] == els[b]);
        }
        assert(init[i] == els[i]);
        lemma_apply_puts_lookup::<K, V>(m, init, i);
    }
}

/// An element whose representation fits is read back from it.
proof fn lemma_fetch_stored<K: FromBytes, V: FromBytes>(
    m: Map<Seq<u8>, Seq<u8>>,
    h: Seq<u8>,
    t: TrieModel<K::V, V::V>,
)
    requires
        Trie::<K, V>::spec_valid(t),
        crate::trie::trie_bytes::<K, V>(t).len() <= max_repr_len(),
        m.contains_key(h),
        m[h] == crate::trie::trie_bytes::<K, V>(t),
    ensures
        fetch::<K, V>(m, h) == FetchModel::<K::V, V::V>::Got(t),
{
    Trie::<K, V>::lemma_roundtrip(t, Seq::empty());
    assert(crate::trie::trie_bytes::<K, V>(t) + Seq::<u8>::empty() =~= crate::trie::trie_bytes::<
        K,
        V,
    >(t));
}

/// After a write, where the new elements are stored under their hashes,
/// reading the key from the new root finds the written value.
#[verifier::rlimit(60)]
proof fn lemma_write_reads_back<K: FromBytes, V: FromBytes>(
    m: Map<Seq<u8>, Seq<u8>>,
    root: Seq<u8>,
    key: K::V,
    value: V::V,
    els: Seq<(Seq<u8>, TrieModel<K::V, V::V>)>,
    m2: Map<Seq<u8>, Seq<u8>>,
)
    requires
        write_defined::<K, V>(m, root, key),
        spec_write::<K, V>(m, root, key, value) == Ok::<WriteModel<K::V, V::V>, Error>(
            WriteModel::Written(els),
        ),
        forall|i: int|
            0 <= i < els.len() ==> fetch::<K, V>(m2, (#[trigger] els[i]).0) == FetchModel::Got(
                els[i].1,
            ),
    ensures
        els.len() > 0,
        spec_read::<K, V>(m2, els.last().0, key) matches WalkModel::Found { key: k, value: v, .. }
            && k == key && v == value,
{
    lemma_write_hashed::<K, V>(m, root, key, value);
    let path = K::spec_bytes(key);
    let new_leaf = TrieModel::<K::V, V::V>::Leaf { key, value };
    let t = fetch::<K, V>(m, root)->Got_0;
    Trie::<K, V>::lemma_parse_bound(m[root]);
    lemma_scan_facts::<K, V>(m, t, path, 0, empty_run_limit());
    let s = spec_scan::<K, V>(m, t, path, 0);
    let tip = s->Done_tip;
    let parents = s->Done_parents;
    let pp = parents_path(parents);
    assert(path.take(pp.len() as int) =~= path.subrange(0, pp.len() as int));
    assert(starts_with(path, pp));
    assert(walk::<K, V>(m2, new_leaf, path, 0) == walk::<K, V>(m2, new_leaf, path, 1));
    match tip {
        TrieModel::Leaf { key: leaf_key, value: leaf_value } => {
            let existing = K::spec_bytes(leaf_key);
            if existing == path {
                lemma_rehash_chain::<K, V>(m2, new_leaf, parents, path, els, key, value);
            } else {
                lemma_reparent_parents::<K, V>(path, existing, parents);
                let (new_node, ps) = spec_reparent_leaf::<K, V>(path, existing, parents)->Ok_0;
                lemma_with_node(path, ps, new_node);
                lemma_rehash_chain::<K, V>(
                    m2,
                    new_leaf,
                    with_node(path, ps, new_node),
                    path,
                    els,
                    key,
                    value,
                );
            }
        },
        TrieModel::Node { .. } => {
            lemma_with_node(path, parents, tip);
            lemma_rehash_chain::<K, V>(
                m2,
                new_leaf,
                with_node(path, parents, tip),
                path,
                els,
                key,
                value,
            );
        },
        TrieModel::Extension { affix, pointer } => {
            let ext_path = pp + affix;
            assert forall|j: int| 0 <= j < pp.len() implies path[j] == ext_path[j] by {
                assert(path.subrange(0, pp.len() as int)[j] == path[j]);
            }
            lemma_common_prefix_at_least(path, ext_path, pp.len());
            lemma_common_prefix_props(path, ext_path);
            let shared = spec_common_prefix(path, ext_path);
            if shared.len() >= pp.len() + affix.len() {
                assert(path.subrange(pp.len() as int, (pp.len() + affix.len()) as int) =~= affix) by {
                    assert forall|j: int| 0 <= j < affix.len() implies path.subrange(
                        pp.len() as int,
                        (pp.len() + affix.len()) as int,
                    )[j] == affix[j] by {
                        assert(shared[pp.len() + j] == path[pp.len() + j]);
                        assert(ext_path[pp.len() + j] == affix[j]);
                    }
                }
            }
            lemma_split_parents::<K, V>(path, affix, pointer, parents);
            let split = spec_split_extension::<K, V>(path, affix, pointer, parents)->Ok_0;
            lemma_with_node(path, split.parents, split.new_node);
            let ps = with_node(path, split.parents, split.new_node);
            let rels = spec_rehash::<K, V>(new_leaf, ps)->Ok_0;
            assert forall|i: int| 0 <= i < rels.len() implies fetch::<K, V>(
                m2,
                (#[trigger] rels[i]).0,
            ) == FetchModel::Got(rels[i].1) by {
                if split.maybe_hashed_child_extension is Some {
                    assert(rels[i] == els[i + 1]);
                } else {
                    assert(rels[i] == els[i]);
                }
            }
            lemma_rehash_chain::<K, V>(m2, new_leaf, ps, path, rels, key, value);
            assert(els.last() == rels.last());
        },
    }
    assert(fetch::<K, V>(m2, els[els.len() - 1].0) == FetchModel::Got(els[els.len() - 1].1));
}

/// In a closed store, every pointer of every element a write makes leads to a
/// stored element, or to one of the new elements, of the kind it names.
#[verifier::spinoff_prover]
#[verifier::rlimit(100)]
proof fn lemma_write_pointers<K: FromBytes, V: FromBytes>(
    m: Map<Seq<u8>, Seq<u8>>,
    root: Seq<u8>,
    key: K::V,
    value: V::V,
    els: Seq<(Seq<u8>, TrieModel<K::V, V::V>)>,
)
    requires
        store_closed::<K, V>(m),
        write_defined::<K, V>(m, root, key),
        spec_write::<K, V>(m, root, key, value) == Ok::<WriteModel<K::V, V::V>, Error>(
            WriteModel::Written(els),
        ),
    ensures
        forall|k: int| 0 <= k < els.len() ==> pointers_resolve::<K, V>(m, els, #[trigger] els[k].1),
{
    let path = K::spec_bytes(key);
    let new_leaf = TrieModel::<K::V, V::V>::Leaf { key, value };
    let t = fetch::<K, V>(m, root)->Got_0;
    Trie::<K, V>::lemma_parse_bound(m[root]);
    lemma_scan_facts::<K, V>(m, t, path, 0, empty_run_limit());
    lemma_scan_chain::<K, V>(m, root, t, path, 0, empty_run_limit());
    let s = spec_scan::<K, V>(m, t, path, 0);
    let tip = s->Done_tip;
    let parents = s->Done_parents;
    let pp = parents_path(parents);
    assert(path.take(pp.len() as int) =~= path.subrange(0, pp.len() as int));
    assert(starts_with(path, pp));
    let empty = Seq::<(Seq<u8>, TrieModel<K::V, V::V>)>::empty();
    match tip {
        TrieModel::Leaf { key: leaf_key, .. } => {
            let existing = K::spec_bytes(leaf_key);
            if existing == path {
                lemma_chain_from_scan::<K, V>(m, els, tip, new_leaf, parents);
                assert(els == empty + els);
                lemma_rehash_pointers::<K, V>(m, els, empty, new_leaf, parents, els);
            } else {
                lemma_reparent_parents::<K, V>(path, existing, parents);
                let (new_node, ps) = spec_reparent_leaf::<K, V>(path, existing, parents)->Ok_0;
                let child_index = parents.last().0;
                let last = parents.last().1;
                let pointer_block = last->Node_pointer_block;
                let shared = spec_common_prefix(path, existing);
                let e_idx = existing[shared.len() as int];
                let leaf_ptr = pointer_block[child_index as int].unwrap();
                assert(parents.last() == parents[parents.len() - 1]);
                assert(pointers_resolve::<K, V>(m, Seq::empty(), last));
                assert(pointer_block[child_index as int] == Some(leaf_ptr));
                assert(pointer_resolves::<K, V>(m, Seq::empty(), leaf_ptr));
                assert(pointer_resolves::<K, V>(m, els, leaf_ptr));
                lemma_single_block(e_idx, leaf_ptr);
                let b = path[parents_path(ps).len() as int];
                let block = block_from(seq![(e_idx, leaf_ptr)]);
                assert(new_node == TrieModel::<K::V, V::V>::Node { pointer_block: block });
                assert forall|i: int| 0 <= i < block.len() && i != b as int implies (
                #[trigger] block[i] matches Some(p) ==> pointer_resolves::<K, V>(m, els, p)) by {}
                let affix = shared.skip(pp.len() as int);
                if affix.len() == 0 {
                    lemma_chain_from_scan::<K, V>(m, els, tip, new_node, parents);
                    lemma_chain_push::<K, V>(m, els, parents, b, new_node, new_leaf);
                } else {
                    let x = ps.last().1;
                    assert(ps == parents.push((child_index, x)));
                    lemma_chain_from_scan::<K, V>(m, els, tip, x, parents);
                    lemma_chain_push::<K, V>(m, els, parents, child_index, x, new_node);
                    lemma_chain_push::<K, V>(m, els, ps, b, new_node, new_leaf);
                }
                let full = with_node(path, ps, new_node);
                assert(full == ps.push((b, new_node)));
                assert(els == empty + els);
                lemma_rehash_pointers::<K, V>(m, els, empty, new_leaf, full, els);
            }
        },
        TrieModel::Node { .. } => {
            let b = path[pp.len() as int];
            lemma_chain_from_scan::<K, V>(m, els, tip, tip, parents);
            lemma_resolve_more::<K, V>(m, els, tip);
            lemma_others_of_all::<K, V>(m, els, tip, b as int);
            lemma_chain_push::<K, V>(m, els, parents, b, tip, new_leaf);
            assert(with_node(path, parents, tip) == parents.push((b, tip)));
            assert(els == empty + els);
            lemma_rehash_pointers::<K, V>(m, els, empty, new_leaf, with_node(path, parents, tip), els);
        },
        TrieModel::Extension { affix, pointer } => {
            let ext_path = pp + affix;
            assert forall|j: int| 0 <= j < pp.len() implies path[j] == ext_path[j] by {
                assert(path.subrange(0, pp.len() as int)[j] == path[j]);
            }
            lemma_common_prefix_at_least(path, ext_path, pp.len());
            lemma_common_prefix_props(path, ext_path);
            let shared = spec_common_prefix(path, ext_path);
            if shared.len() >= pp.len() + affix.len() {
                assert(path.subrange(pp.len() as int, (pp.len() + affix.len()) as int) =~= affix) by {
                    assert forall|j: int| 0 <= j < affix.len() implies path.subrange(
                        pp.len() as int,
                        (pp.len() + affix.len()) as int,
                    )[j] == affix[j] by {
                        assert(shared[pp.len() + j] == path[pp.len() + j]);
                        assert(ext_path[pp.len() + j] == affix[j]);
                    }
                }
            }
            lemma_split_parents::<K, V>(path, affix, pointer, parents);
            let split = spec_split_extension::<K, V>(path, affix, pointer, parents)->Ok_0;
            let pea = shared.skip(pp.len() as int);
            let child_affix = affix.skip(pea.len() as int + 1);
            let index = ext_path[shared.len() as int];
            assert(pointers_resolve::<K, V>(m, Seq::empty(), tip));
            assert(pointer_resolves::<K, V>(m, els, pointer));
            let ps = with_node(path, split.parents, split.new_node);
            let rels = spec_rehash::<K, V>(new_leaf, ps)->Ok_0;
            let pre = match split.maybe_hashed_child_extension {
                Some(c) => seq![c],
                None => empty,
            };
            assert(els == pre + rels);
            let node_pointer = match split.maybe_hashed_child_extension {
                Some((h, _)) => PointerModel::NodePointer(h),
                None => pointer,
            };
            if let Some(c) = split.maybe_hashed_child_extension {
                assert(els[0] == c);
                assert(c.1 == TrieModel::<K::V, V::V>::Extension { affix: child_affix, pointer });
                assert(pointer_resolves::<K, V>(m, els, node_pointer));
            }
            lemma_single_block(index, node_pointer);
            let block = block_from(seq![(index, node_pointer)]);
            assert(split.new_node == TrieModel::<K::V, V::V>::Node { pointer_block: block });
            let b = path[parents_path(split.parents).len() as int];
            assert forall|i: int| 0 <= i < block.len() && i != b as int implies (
            #[trigger] block[i] matches Some(p) ==> pointer_resolves::<K, V>(m, els, p)) by {}
            if pea.len() == 0 {
                assert(split.parents == parents);
                lemma_chain_from_scan::<K, V>(m, els, tip, split.new_node, parents);
            } else {
                let x = split.parents.last().1;
                assert(split.parents == parents.push((pea[0], x)));
                lemma_chain_from_scan::<K, V>(m, els, tip, x, parents);
                lemma_chain_push::<K, V>(m, els, parents, pea[0], x, split.new_node);
            }
            lemma_chain_push::<K, V>(m, els, split.parents, b, split.new_node, new_leaf);
            assert(ps == split.parents.push((b, split.new_node)));
            lemma_rehash_pointers::<K, V>(m, els, pre, new_leaf, ps, rels);
            assert forall|k: int| 0 <= k < els.len() implies pointers_resolve::<K, V>(
                m,
                els,
                #[trigger] els[k].1,
            ) by {
                if k < pre.len() {
                    assert(els[k] == pre[k]);
                } else {
                    assert(els[k] == rels[k - pre.len()]);
                }
            }
        },
    }
}

/// No new element is put under a stored hash with other bytes.
pub open spec fn no_clash<K: FromBytes, V: FromBytes>(
    m: Map<Seq<u8>, Seq<u8>>,
    els: Seq<(Seq<u8>, TrieModel<K::V, V::V>)>,
) -> bool {
    forall|i: int|
        0 <= i < els.len() ==> (m.contains_key((#[trigger] els[i]).0) ==> m[els[i].0]
            == crate::trie::trie_bytes::<K, V>(els[i].1))
}

/// The puts leave what was stored as it was, where none clashes with it.
proof fn lemma_apply_puts_keeps<K: FromBytes, V: FromBytes>(
    m: Map<Seq<u8>, Seq<u8>>,
    els: Seq<(Seq<u8>, TrieModel<K::V, V::V>)>,
    h: Seq<u8>,
)
    requires
        no_clash::<K, V>(m, els),
        m.contains_key(h),
    ensures
        apply_puts::<K, V>(m, els).contains_key(h),
        apply_puts::<K, V>(m, els)[h] == m[h],
    decreases els.len(),
{
    if els.len() > 0 {
        let init = els.drop_last();
        assert forall|i: int| 0 <= i < init.len() implies (m.contains_key((#[trigger] init[i]).0)
            ==> m[init[i].0] == crate::trie::trie_bytes::<K, V>(init[i].1)) by {
            assert(init[i] == els[i]);
        }
        lemma_apply_puts_keeps::<K, V>(m, init, h);
        assert(els.last() == els[els.len() - 1]);
    }
}

/// What the puts store: what was stored, and the elements.
proof fn lemma_apply_puts_domain<K: FromBytes, V: FromBytes>(
    m: Map<Seq<u8>, Seq<u8>>,
    els: Seq<(Seq<u8>, TrieModel<K::V, V::V>)>,
    h: Seq<u8>,
)
    ensures
        apply_puts::<K, V>(m, els).contains_key(h) ==> m.contains_key(h) || exists|i: int|
            0 <= i < els.len() && (#[trigger] els[i]).0 == h,
    decreases els.len(),
{
    if els.len() > 0 {
        let init = els.drop_last();
        lemma_apply_puts_domain::<K, V>(m, init, h);
        if exists|i: int| 0 <= i < init.len() && (#[trigger] init[i]).0 == h {
            let i = choose|i: int| 0 <= i < init.len() && (#[trigger] init[i]).0 == h;
            assert(els[i] == init[i]);
        }
        assert(els.last() == els[els.len() - 1]);
    }
}

/// A write keeps a closed, well-formed store so, where the new elements do
/// not clash with each other or with what is stored.
proof fn lemma_write_keeps_store_wf<K: FromBytes, V: FromBytes>(
    m: Map<Seq<u8>, Seq<u8>>,
    root: Seq<u8>,
    key: K::V,
    value: V::V,
    els: Seq<(Seq<u8>, TrieModel<K::V, V::V>)>,
)
    requires
        store_wf::<K, V>(m),
        store_closed::<K, V>(m),
        write_defined::<K, V>(m, root, key),
        spec_write::<K, V>(m, root, key, value) == Ok::<WriteModel<K::V, V::V>, Error>(
            WriteModel::Written(els),
        ),
        hashes_name_elements(els),
        no_clash::<K, V>(m, els),
        forall|k: int| 0 <= k < els.len() ==> Trie::<K, V>::spec_valid(#[trigger] els[k].1),
    ensures
        store_wf::<K, V>(apply_puts::<K, V>(m, els)),
        store_closed::<K, V>(apply_puts::<K, V>(m, els)),
{
    reveal(store_wf);
    lemma_write_hashed::<K, V>(m, root, key, value);
    lemma_write_pointers::<K, V>(m, root, key, value, els);
    let m2 = apply_puts::<K, V>(m, els);
    assert forall|h: Seq<u8>| m.contains_key(h) implies #[trigger] m2.contains_key(h) && m2[h] == m[h]
        && fetch::<K, V>(m2, h) == fetch::<K, V>(m, h) by {
        lemma_apply_puts_keeps::<K, V>(m, els, h);
    }
    assert forall|i: int| 0 <= i < els.len() implies m2.contains_key((#[trigger] els[i]).0) && m2[els[i].0]
        == crate::trie::trie_bytes::<K, V>(els[i].1) && fetch::<K, V>(m2, els[i].0)
        == FetchModel::Got(els[i].1) by {
        lemma_apply_puts_lookup::<K, V>(m, els, i);
        assert(repr_hash(crate::trie::trie_bytes::<K, V>(els[i].1)) == Ok::<Seq<u8>, Error>(
            els[i].0,
        ));
        lemma_fetch_stored::<K, V>(m2, els[i].0, els[i].1);
    }
    assert forall|p: PointerModel| #[trigger] pointer_resolves::<K, V>(m, els, p) implies m2.contains_key(
        p.hash(),
    ) && pointer_kind_fits::<K, V>(m2, p) by {
        if !(m.contains_key(p.hash()) && pointer_kind_fits::<K, V>(m, p)) {
            let j = choose|j: int|
                #![trigger els[j]]
                0 <= j < els.len() && els[j].0 == p.hash() && (p is LeafPointer <==> els[j].1 is Leaf);
            assert(m2.contains_key(els[j].0));
        } else {
            assert(m2.contains_key(p.hash()));
        }
    }
    assert forall|t: TrieModel<K::V, V::V>| #[trigger] pointers_resolve::<K, V>(m, els, t) implies pointers_resolve::<
        K,
        V,
    >(m2, Seq::empty(), t) by {
        if let TrieModel::Node { pointer_block } = t {
            assert forall|i: int| 0 <= i < pointer_block.len() implies (
            #[trigger] pointer_block[i] matches Some(p) ==> pointer_resolves::<K, V>(
                m2,
                Seq::empty(),
                p,
            )) by {
                if let Some(p) = pointer_block[i] {
                    assert(pointer_resolves::<K, V>(m, els, p));
                }
            }
        } else if let TrieModel::Extension { pointer, .. } = t {
            assert(pointer_resolves::<K, V>(m, els, pointer));
        }
    }
    assert forall|h: Seq<u8>| #[trigger] m2.contains_key(h) implies (fetch::<K, V>(m2, h) matches FetchModel::Got(t)
        && pointers_resolve::<K, V>(m, els, t) && crate::trie::trie_bytes::<K, V>(t) == m2[h] && m2[h].len()
        <= max_repr_len() && crate::hash::blake2b_digest(m2[h]) == h) by {
        lemma_apply_puts_domain::<K, V>(m, els, h);
        if m.contains_key(h) {
            assert(m[h] == m[h]);
            let t = fetch::<K, V>(m, h)->Got_0;
            lemma_resolve_more::<K, V>(m, els, t);
        } else {
            let i = choose|i: int| 0 <= i < els.len() && (#[trigger] els[i]).0 == h;
            assert(m2.contains_key(els[i].0));
        }
    }
    assert forall|h: Seq<u8>| #![trigger m2[h]] m2.contains_key(h) implies {
        &&& m2[h].len() <= max_repr_len()
        &&& crate::hash::blake2b_digest(m2[h]) == h
        &&& fetch::<K, V>(m2, h) matches FetchModel::Got(t) && {
            &&& crate::trie::trie_bytes::<K, V>(t) == m2[h]
            &&& match t {
                TrieModel::Node { pointer_block } => forall|i: int|
                    0 <= i < pointer_block.len() ==> (#[trigger] pointer_block[i] matches Some(p)
                        ==> pointer_kind_fits::<K, V>(m2, p)),
                TrieModel::Extension { affix, pointer } => pointer_kind_fits::<K, V>(m2, pointer),
                TrieModel::Leaf { .. } => true,
            }
        }
    } by {
        assert(m2.contains_key(h));
        let t = fetch::<K, V>(m2, h)->Got_0;
        assert(pointers_resolve::<K, V>(m2, Seq::empty(), t));
        if let TrieModel::Node { pointer_block } = t {
            assert forall|i: int| 0 <= i < pointer_block.len() implies (
            #[trigger] pointer_block[i] matches Some(p) ==> pointer_kind_fits::<K, V>(m2, p)) by {
                if let Some(p) = pointer_block[i] {
                    assert(pointer_resolves::<K, V>(m2, Seq::empty(), p));
                }
            }
        }
    }
    assert forall|h: Seq<u8>| #![trigger m2[h]] m2.contains_key(h) implies (fetch::<K, V>(m2, h) matches FetchModel::Got(t)
        ==> pointers_resolve::<K, V>(m2, Seq::empty(), t)) by {
        assert(m2.contains_key(h));
    }
}

/// Where a walk finds a leaf and a scan along the same path does not get
/// stuck, the scan ends at that leaf.
proof fn lemma_walk_found_scan<K: FromBytes, V: FromBytes>(
    m: Map<Seq<u8>, Seq<u8>>,
    t: TrieModel<K::V, V::V>,
    path: Seq<u8>,
    depth: nat,
    run: nat,
)
    ensures
        walk_in::<K, V>(m, t, path, depth, run) matches WalkModel::Found { key, value, .. }
            ==> (spec_scan_in::<K, V>(m, t, path, depth, run) != ScanModel::<K::V, V::V>::Stuck
            ==> (spec_scan_in::<K, V>(m, t, path, depth, run) matches ScanModel::Done { tip, .. } && tip
            == TrieModel::<K::V, V::V>::Leaf { key, value })),
    decreases path.len() - depth, run,
{
    match t {
        TrieModel::Leaf { .. } => {},
        TrieModel::Node { pointer_block } => {
            if depth < path.len() {
                if let Some(p) = pointer_block[path[depth as int] as int] {
                    if let FetchModel::Got(child) = fetch::<K, V>(m, p.hash()) {
                        lemma_walk_found_scan::<K, V>(m, child, path, depth + 1, empty_run_limit());
                    }
                }
            }
        },
        TrieModel::Extension { affix, pointer } => {
            if depth + affix.len() <= path.len() && !(affix.len() == 0 && run == 0) {
                if let FetchModel::Got(child) = fetch::<K, V>(m, pointer.hash()) {
                    lemma_walk_found_scan::<K, V>(
                        m,
                        child,
                        path,
                        depth + affix.len(),
                        next_run(run, depth, depth + affix.len()),
                    );
                }
            }
        },
    }
}

/// A scan that ends at a leaf whose key has the path's representation ends
/// where a walk along the path finds that leaf.
proof fn lemma_scan_leaf_found<K: FromBytes, V: FromBytes>(
    m: Map<Seq<u8>, Seq<u8>>,
    t: TrieModel<K::V, V::V>,
    path: Seq<u8>,
    depth: nat,
    run: nat,
)
    ensures
        spec_scan_in::<K, V>(m, t, path, depth, run) matches ScanModel::Done {
            tip: TrieModel::Leaf { key, value },
            ..
        } ==> (K::spec_bytes(key) == path ==> (walk_in::<K, V>(m, t, path, depth, run) matches WalkModel::Found {
            key: k,
            value: v,
            ..
        } && k == key && v == value)),
    decreases path.len() - depth, run,
{
    match t {
        TrieModel::Leaf { .. } => {},
        TrieModel::Node { pointer_block } => {
            if depth < path.len() {
                if let Some(p) = pointer_block[path[depth as int] as int] {
                    if let FetchModel::Got(child) = fetch::<K, V>(m, p.hash()) {
                        lemma_scan_leaf_found::<K, V>(m, child, path, depth + 1, empty_run_limit());
                    }
                }
            }
        },
        TrieModel::Extension { affix, pointer } => {
            if depth + affix.len() <= path.len() && !(affix.len() == 0 && run == 0) {
                if let FetchModel::Got(child) = fetch::<K, V>(m, pointer.hash()) {
                    lemma_scan_leaf_found::<K, V>(
                        m,
                        child,
                        path,
                        depth + affix.len(),
                        next_run(run, depth, depth + affix.len()),
                    );
                }
            }
        },
    }
}

/// Law: where a write can work, it reports that the entry exists exactly
/// when a read already finds the key (a key of the same representation)
/// with a value of the same representation.
pub proof fn write_already_exists_exactly_for_present_entry<K: FromBytes, V: FromBytes>(
    m: Map<Seq<u8>, Seq<u8>>,
    root: Seq<u8>,
    key: K::V,
    value: V::V,
)
    requires
        write_defined::<K, V>(m, root, key),
    ensures
        spec_write::<K, V>(m, root, key, value) == Ok::<WriteModel<K::V, V::V>, Error>(
            WriteModel::AlreadyExists,
        ) <==> present_entry::<K, V>(m, root, key, value),
{
    let path = K::spec_bytes(key);
    if let FetchModel::Got(t) = fetch::<K, V>(m, root) {
        lemma_walk_found_scan::<K, V>(m, t, path, 0, empty_run_limit());
        lemma_walk_key::<K, V>(m, t, path, 0, empty_run_limit());
        lemma_scan_leaf_found::<K, V>(m, t, path, 0, empty_run_limit());
    }
}

/// Reading `key` from the trie under `root` finds a key of the same
/// representation with a value of the same representation as `value`.
pub open spec fn present_entry<K: FromBytes, V: FromBytes>(
    m: Map<Seq<u8>, Seq<u8>>,
    root: Seq<u8>,
    key: K::V,
    value: V::V,
) -> bool {
    spec_read::<K, V>(m, root, key) matches WalkModel::Found { key: k, value: v, .. }
        && K::spec_bytes(k) == K::spec_bytes(key) && V::spec_bytes(v) == V::spec_bytes(value)
}

/// A leaf that a walk finds has the walk's path as its key's representation.
proof fn lemma_walk_key<K: FromBytes, V: FromBytes>(
    m: Map<Seq<u8>, Seq<u8>>,
    t: TrieModel<K::V, V::V>,
    path: Seq<u8>,
    depth: nat,
    run: nat,
)
    ensures
        walk_in::<K, V>(m, t, path, depth, run) matches WalkModel::Found { key, .. }
            ==> K::spec_bytes(key) == path,
    decreases path.len() - depth, run,
{
    match t {
        TrieModel::Leaf { .. } => {},
        TrieModel::Node { pointer_block } => {
            if depth < path.len() {
                if let Some(p) = pointer_block[path[depth as int] as int] {
                    if let FetchModel::Got(child) = fetch::<K, V>(m, p.hash()) {
                        lemma_walk_key::<K, V>(m, child, path, depth + 1, empty_run_limit());
                    }
                }
            }
        },
        TrieModel::Extension { affix, pointer } => {
            if depth + affix.len() <= path.len() && !(affix.len() == 0 && run == 0) {
                if let FetchModel::Got(child) = fetch::<K, V>(m, pointer.hash()) {
                    lemma_walk_key::<K, V>(
                        m,
                        child,
                        path,
                        depth + affix.len(),
                        next_run(run, depth, depth + affix.len()),
                    );
                }
            }
        },
    }
}

/// What the store after a write holds: the key reads back from the new root,
/// and a closed, well-formed store stays so, where the new elements do not
/// clash with each other or with what is stored.
proof fn lemma_written_store<K: FromBytes, V: FromBytes>(
    m: Map<Seq<u8>, Seq<u8>>,
    root: Seq<u8>,
    key: K::V,
    value: V::V,
    els: Seq<(Seq<u8>, TrieModel<K::V, V::V>)>,
)
    requires
        write_defined::<K, V>(m, root, key),
        spec_write::<K, V>(m, root, key, value) == Ok::<WriteModel<K::V, V::V>, Error>(
            WriteModel::Written(els),
        ),
        elements_hashed::<K, V>(els),
        forall|k: int| 0 <= k < els.len() ==> Trie::<K, V>::spec_valid(#[trigger] els[k].1),
    ensures
        els.len() > 0,
        hashes_name_elements(els) ==> (spec_read::<K, V>(
            apply_puts::<K, V>(m, els),
            els.last().0,
            key,
        ) matches WalkModel::Found { key: k, value: v, .. } && k == key && v == value),
        store_wf::<K, V>(m) && store_closed::<K, V>(m) && hashes_name_elements(els) && no_clash::<
            K,
            V,
        >(m, els) ==> store_wf::<K, V>(apply_puts::<K, V>(m, els)) && store_closed::<K, V>(
            apply_puts::<K, V>(m, els),
        ),
        hashes_name_elements(els) && no_clash::<K, V>(m, els) && scan_extensions_nonempty::<K, V>(
            m,
            root,
            key,
        ) ==> others_read_alike::<K, V>(
            m,
            root,
            apply_puts::<K, V>(m, els),
            els.last().0,
            key,
        ),
        no_clash::<K, V>(m, els) ==> root_reads_alike::<K, V>(m, apply_puts::<K, V>(m, els), root),
{
    lemma_write_hashed::<K, V>(m, root, key, value);
    let m2 = apply_puts::<K, V>(m, els);
    if hashes_name_elements(els) {
        assert forall|i: int| 0 <= i < els.len() implies fetch::<K, V>(m2, (#[trigger] els[i]).0)
            == FetchModel::Got(els[i].1) by {
            lemma_apply_puts_lookup::<K, V>(m, els, i);
            lemma_fetch_stored::<K, V>(m2, els[i].0, els[i].1);
        }
        lemma_write_reads_back::<K, V>(m, root, key, value, els, m2);
        if store_wf::<K, V>(m) && store_closed::<K, V>(m) && no_clash::<K, V>(m, els) {
            lemma_write_keeps_store_wf::<K, V>(m, root, key, value, els);
        }
        if no_clash::<K, V>(m, els) && scan_extensions_nonempty::<K, V>(m, root, key) {
            assert forall|h: Seq<u8>| #[trigger] m.contains_key(h) implies m2.contains_key(h)
                && m2[h] == m[h] by {
                lemma_apply_puts_keeps::<K, V>(m, els, h);
            }
            assert forall|key2: K::V|
                K::spec_bytes(key2) != K::spec_bytes(key) implies #[trigger] read_alike::<K, V>(
                m,
                root,
                m2,
                els.last().0,
                key2,
                K::spec_bytes(key).len(),
            ) by {
                crate::other_keys::lemma_write_keeps_others::<K, V>(
                    m,
                    root,
                    key,
                    value,
                    els,
                    m2,
                    key2,
                );
            }
        }
    }
    if no_clash::<K, V>(m, els) {
        assert forall|h: Seq<u8>| #[trigger] m.contains_key(h) implies m2.contains_key(h) && m2[h]
            == m[h] by {
            lemma_apply_puts_keeps::<K, V>(m, els, h);
        }
        assert forall|key2: K::V|
            spec_read::<K, V>(m, root, key2) is Found || spec_read::<K, V>(m, root, key2) is NotFound
                implies #[trigger] spec_read::<K, V>(m2, root, key2) == spec_read::<K, V>(
            m,
            root,
            key2,
        ) by {
            let t = fetch::<K, V>(m, root)->Got_0;
            crate::other_keys::lemma_fetch_kept::<K, V>(m, m2, root);
            crate::other_keys::lemma_walk_kept::<K, V>(
                m,
                m2,
                t,
                K::spec_bytes(key2),
                0,
                empty_run_limit(),
            );
        }
    }
}

/// Every key that the trie under `root` in `m` has an entry for, or finds
/// none for, reads the same from it in `m2`.
pub open spec fn root_reads_alike<K: FromBytes, V: FromBytes>(
    m: Map<Seq<u8>, Seq<u8>>,
    m2: Map<Seq<u8>, Seq<u8>>,
    root: Seq<u8>,
) -> bool {
    forall|key2: K::V|
        #![trigger spec_read::<K, V>(m2, root, key2)]
        spec_read::<K, V>(m, root, key2) is Found || spec_read::<K, V>(m, root, key2) is NotFound
            ==> spec_read::<K, V>(m2, root, key2) == spec_read::<K, V>(m, root, key2)
}

/// Where reading `key2` from the trie under `root` in `m` finds an entry,
/// reading it from the trie under `root2` in `m2` finds the same one; and,
/// where its representation is `len` bytes long and it finds none there, it
/// finds none here.
pub open spec fn read_alike<K: FromBytes, V: FromBytes>(
    m: Map<Seq<u8>, Seq<u8>>,
    root: Seq<u8>,
    m2: Map<Seq<u8>, Seq<u8>>,
    root2: Seq<u8>,
    key2: K::V,
    len: nat,
) -> bool {
    &&& spec_read::<K, V>(m, root, key2) matches WalkModel::Found { key: k, value: v, .. }
        ==> crate::other_keys::finds(spec_read::<K, V>(m2, root2, key2), k, v)
    &&& K::spec_bytes(key2).len() == len && spec_read::<K, V>(m, root, key2) is NotFound ==> spec_read::<K, V>(
        m2,
        root2,
        key2,
    ) is NotFound
}

/// Every key whose representation is not that of `key` reads alike (see
/// [`read_alike`]) from the two tries; one that finds no entry finds none
/// after either, where its representation is as long as that of `key`.
pub open spec fn others_read_alike<K: FromBytes, V: FromBytes>(
    m: Map<Seq<u8>, Seq<u8>>,
    root: Seq<u8>,
    m2: Map<Seq<u8>, Seq<u8>>,
    root2: Seq<u8>,
    key: K::V,
) -> bool {
    forall|key2: K::V|
        K::spec_bytes(key2) != K::spec_bytes(key) ==> #[trigger] read_alike::<K, V>(
            m,
            root,
            m2,
            root2,
            key2,
            K::spec_bytes(key).len(),
        )
}

/// Law: a store that holds just one element without pointers (a leaf, or a
/// node with empty slots), under the hash of its representation, is closed
/// and well formed; writes keep it so (see [`write`]).
pub proof fn one_element_store_is_well_formed<K: FromBytes, V: FromBytes>(
    t: TrieModel<K::V, V::V>,
    h: Seq<u8>,
)
    requires
        Trie::<K, V>::spec_valid(t),
        repr_hash(crate::trie::trie_bytes::<K, V>(t)) == Ok::<Seq<u8>, Error>(h),
        t is Leaf || t == (TrieModel::<K::V, V::V>::Node { pointer_block: crate::trie::empty_block() }),
    ensures
        store_wf::<K, V>(Map::<Seq<u8>, Seq<u8>>::empty().insert(h, crate::trie::trie_bytes::<K, V>(t))),
        store_closed::<K, V>(
            Map::<Seq<u8>, Seq<u8>>::empty().insert(h, crate::trie::trie_bytes::<K, V>(t)),
        ),
{
    reveal(store_wf);
    let m = Map::<Seq<u8>, Seq<u8>>::empty().insert(h, crate::trie::trie_bytes::<K, V>(t));
    lemma_fetch_stored::<K, V>(m, h, t);
    assert forall|g: Seq<u8>| #![trigger m[g]] m.contains_key(g) implies g == h by {}
}

/// Writes `value` under `key` into the trie whose root is stored under
/// `root`, storing the new elements; returns the hash of the new root. Keys,
/// and values, are compared by their representations.
#[verifier::rlimit(80)]
pub fn write<K: FromBytes, V: FromBytes>(
    store: &mut InMemoryTrieStore,
    root: &Blake2bHash,
    key: K,
    value: V,
) -> (r: Result<WriteResult, Error>)
    requires
        write_defined::<K, V>(old(store)@, root@, key.deep_view()),
    ensures
        match spec_write::<K, V>(old(store)@, root@, key.deep_view(), value.deep_view()) {
            Ok(WriteModel::RootNotFound) => r == Ok::<WriteResult, Error>(WriteResult::RootNotFound)
                && final(store)@ == old(store)@,
            Ok(WriteModel::AlreadyExists) => r == Ok::<WriteResult, Error>(
                WriteResult::AlreadyExists,
            ) && final(store)@ == old(store)@
                // The read already finds the entry.
                && present_entry::<K, V>(
                old(store)@,
                root@,
                key.deep_view(),
                value.deep_view(),
            ),
            Ok(WriteModel::Written(els)) => r matches Ok(WriteResult::Written(h)) && {
                &&& els.len() > 0
                &&& h@ == els.last().0
                &&& final(store)@ == apply_puts::<K, V>(old(store)@, els)
                // Every new element is stored under the hash of its representation.
                &&& elements_hashed::<K, V>(els)
                // Reading the key back from the new root finds the written entry.
                &&& hashes_name_elements(els) ==> (spec_read::<K, V>(
                    final(store)@,
                    h@,
                    key.deep_view(),
                ) matches WalkModel::Found { key: k, value: v, .. } && k == key.deep_view() && v
                    == value.deep_view())
                // A closed, well-formed store stays so.
                &&& store_wf::<K, V>(old(store)@) && store_closed::<K, V>(old(store)@)
                    && hashes_name_elements(els) && no_clash::<K, V>(old(store)@, els) ==> store_wf::<
                    K,
                    V,
                >(final(store)@) && store_closed::<K, V>(final(store)@)
                // Every other key reads from the new root what it read from the
                // old one, and one of the same length that had no entry has none.
                &&& hashes_name_elements(els) && no_clash::<K, V>(old(store)@, els)
                    && scan_extensions_nonempty::<K, V>(old(store)@, root@, key.deep_view())
                    ==> others_read_alike::<K, V>(old(store)@, root@, final(store)@, h@, key.deep_view())
                // The old root reads as before.
                &&& no_clash::<K, V>(old(store)@, els) ==> root_reads_alike::<K, V>(
                    old(store)@,
                    final(store)@,
                    root@,
                )
            },
            Err(e) => r == Err::<WriteResult, Error>(e) && final(store)@ == old(store)@,
        },
{
    let ghost target = spec_write::<K, V>(store@, root@, key.deep_view(), value.deep_view());
    let ghost m = store@;
    let current_root = match store.get::<K, V>(root) {
        Err(e) => return Err(e),
        Ok(None) => return Ok(WriteResult::RootNotFound),
        Ok(Some(t)) => t,
    };
    let path = match key.to_bytes() {
        Ok(p) => p,
        Err(e) => return Err(e),
    };
    let ghost root_model = current_root.deep_view();
    let ghost new_leaf_model = TrieModel::<K::V, V::V>::Leaf {
        key: key.deep_view(),
        value: value.deep_view(),
    };
    proof {
        current_root.lemma_valid();
        lemma_scan_facts::<K, V>(m, root_model, path@, 0, empty_run_limit());
        assert(path@.subrange(0, 0) =~= Seq::<u8>::empty());
    }
    let TrieScan { tip, parents } = match scan::<K, V>(store, path.as_slice(), current_root) {
        Ok(s) => s,
        Err(e) => return Err(e),
    };
    let ghost pp = parents_path(parents.deep_view());
    assert(path@.take(pp.len() as int) =~= path@.subrange(0, pp.len() as int));
    let new_elements: Vec<(Blake2bHash, Trie<K, V>)> = match tip {
        Trie::Leaf { key: leaf_key, value: leaf_value } => {
            let same_key = key_has_path(&leaf_key, &path);
            let mut value_bytes: Vec<u8> = Vec::new();
            value.write_bytes(&mut value_bytes);
            let mut leaf_value_bytes: Vec<u8> = Vec::new();
            leaf_value.write_bytes(&mut leaf_value_bytes);
            let same_value = bytes_eq(value_bytes.as_slice(), leaf_value_bytes.as_slice());
            assert(value_bytes@ =~= V::spec_bytes(value.deep_view()));
            assert(leaf_value_bytes@ =~= V::spec_bytes(leaf_value.deep_view()));
            if same_key && same_value {
                // The leaf is already in the trie.
                proof {
                    write_already_exists_exactly_for_present_entry::<K, V>(
                        m,
                        root@,
                        key.deep_view(),
                        value.deep_view(),
                    );
                }
                return Ok(WriteResult::AlreadyExists);
            } else if same_key {
                // The leaf's value is updated.
                let new_leaf = Trie::Leaf { key, value };
                match rehash(new_leaf, parents) {
                    Ok(v) => v,
                    Err(e) => return Err(e),
                }
            } else {
                // The new leaf shares a prefix with the existing one.
                let ghost parents_before_reparent = parents.deep_view();
                let existing_leaf_path = match leaf_key.to_bytes() {
                    Ok(p) => p,
                    Err(e) => return Err(e),
                };
                let (new_node, parents) = match reparent_leaf(
                    path.as_slice(),
                    existing_leaf_path.as_slice(),
                    parents,
                ) {
                    Ok(x) => x,
                    Err(e) => return Err(e),
                };
                proof {
                    lemma_common_prefix_props(path@, existing_leaf_path@);
                    let ps2 = parents.deep_view();
                    let shared = spec_common_prefix(path@, existing_leaf_path@);
                    let affix = shared.skip(pp.len() as int);
                    assert(pp =~= shared.take(pp.len() as int));
                    if affix.len() == 0 {
                        assert(shared =~= pp);
                    } else {
                        assert(ps2.drop_last() =~= parents_before_reparent);
                        assert(pp + affix =~= shared);
                    }
                    assert(parents_path(ps2) == shared);
                    assert(path@.take(shared.len() as int) == shared);
                }
                let parents = match add_node_to_parents(path.as_slice(), new_node, parents) {
                    Ok(p) => p,
                    Err(e) => return Err(e),
                };
                let new_leaf = Trie::Leaf { key, value };
                match rehash(new_leaf, parents) {
                    Ok(v) => v,
                    Err(e) => return Err(e),
                }
            }
        },
        Trie::Node { pointer_block } => {
            // The node gets a pointer to the new leaf.
            let parents = match add_node_to_parents(
                path.as_slice(),
                Trie::Node { pointer_block },
                parents,
            ) {
                Ok(p) => p,
                Err(e) => return Err(e),
            };
            let new_leaf = Trie::Leaf { key, value };
            match rehash(new_leaf, parents) {
                Ok(v) => v,
                Err(e) => return Err(e),
            }
        },
        Trie::Extension { affix, pointer } => {
            // The extension is split where the new leaf's path leaves it.
            let ghost parents_before_split = parents.deep_view();
            proof {
                let ext_path = pp + affix@;
                assert forall|j: int| 0 <= j < pp.len() implies path@[j] == ext_path[j] by {
                    assert(path@.subrange(0, pp.len() as int)[j] == path@[j]);
                }
                lemma_common_prefix_at_least(path@, ext_path, pp.len());
                lemma_common_prefix_props(path@, ext_path);
                let shared = spec_common_prefix(path@, ext_path);
                if shared.len() >= pp.len() + affix@.len() {
                    assert(path@.subrange(pp.len() as int, (pp.len() + affix@.len()) as int)
                        =~= affix@) by {
                        assert forall|j: int| 0 <= j < affix@.len() implies path@.subrange(
                            pp.len() as int,
                            (pp.len() + affix@.len()) as int,
                        )[j] == affix@[j] by {
                            assert(shared[pp.len() + j] == path@[pp.len() + j]);
                            assert(ext_path[pp.len() + j] == affix@[j]);
                        }
                    }
                }
            }
            let SplitResult { new_node, parents, maybe_hashed_child_extension } = match split_extension(
                path.as_slice(),
                Trie::Extension { affix, pointer },
                parents,
            ) {
                Ok(s) => s,
                Err(e) => return Err(e),
            };
            proof {
                let ext_path = pp + affix@;
                lemma_common_prefix_props(path@, ext_path);
                let shared = spec_common_prefix(path@, ext_path);
                let pea = shared.skip(pp.len() as int);
                let ps2 = parents.deep_view();
                assert(pp =~= shared.take(pp.len() as int)) by {
                    assert(pp =~= path@.take(pp.len() as int));
                }
                if pea.len() == 0 {
                    assert(shared =~= pp);
                } else {
                    assert(ps2.drop_last() =~= parents_before_split);
                    assert(pp + pea =~= shared);
                }
                assert(parents_path(ps2) == shared);
            }
            let parents = match add_node_to_parents(path.as_slice(), new_node, parents) {
                Ok(p) => p,
                Err(e) => return Err(e),
            };
            let new_leaf = Trie::Leaf { key, value };
            let rehashed = match rehash(new_leaf, parents) {
                Ok(v) => v,
                Err(e) => return Err(e),
            };
            match maybe_hashed_child_extension {
                Some(hashed_extension) => {
                    let mut ret = Vec::new();
                    ret.push(hashed_extension);
                    let mut rehashed = rehashed;
                    let ghost rest = rehashed.deep_view();
                    ret.append(&mut rehashed);
                    assert(ret.deep_view() =~= seq![hashed_extension.deep_view()] + rest);
                    ret
                },
                None => rehashed,
            }
        },
    };
    let ghost els = new_elements.deep_view();
    assert(target == Ok::<WriteModel<K::V, V::V>, Error>(WriteModel::Written(els)));
    proof {
        lemma_write_hashed::<K, V>(m, root@, key.deep_view(), value.deep_view());
        assert(els.take(0) =~= Seq::<(Seq<u8>, TrieModel<K::V, V::V>)>::empty());
    }
    let mut root_hash = *root;
    let mut i: usize = 0;
    while i < new_elements.len()
        invariant
            m == old(store)@,
            target == spec_write::<K, V>(m, root@, key.deep_view(), value.deep_view()),
            target == Ok::<WriteModel<K::V, V::V>, Error>(WriteModel::Written(els)),
            els == new_elements.deep_view(),
            elements_hashed::<K, V>(els),
            els.len() > 0,
            0 <= i <= els.len(),
            store@ == apply_puts::<K, V>(m, els.take(i as int)),
            i > 0 ==> root_hash@ == els[i - 1].0,
        decreases new_elements@.len() - i,
    {
        let (hash, element) = &new_elements[i];
        assert(els[i as int] == (hash@, element.deep_view()));
        match store.put(hash, element) {
            Ok(()) => {
            },
            Err(e) => {
                proof {
                    assert(false);
                }
                return Err(e);
            },
        }
        assert(els.take(i + 1).drop_last() =~= els.take(i as int));
        root_hash = *hash;
        i = i + 1;
    }
    assert(els.take(els.len() as int) =~= els);
    proof {
        assert forall|k: int| 0 <= k < els.len() implies Trie::<K, V>::spec_valid(#[trigger] els[k].1) by {
            new_elements@[k].1.lemma_valid();
        }
        lemma_written_store::<K, V>(m, root@, key.deep_view(), value.deep_view(), els);
    }
    Ok(WriteResult::Written(root_hash))
}

} // verus!
