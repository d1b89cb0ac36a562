//! Why a write keeps a store well formed: every pointer in a new element
//! leads to a stored element of the kind it names.
use vstd::prelude::*;

use crate::bytesrepr::{Error, FromBytes};
use crate::operations::{
    adopt, below, empty_run_limit, next_run, no_leaf_parents, nodes_full, pointer_to,
    prepend_parents, repoint, spec_rehash, spec_scan, spec_scan_in, ParentsModel, ScanModel,
};
use crate::store::{fetch, pointer_kind_fits, FetchModel};
use crate::trie::{PointerModel, TrieModel};

verus! {

/// `p` leads to an element of the store `m` of the kind it names, or to one
/// of `els` of the kind it names.
pub open spec fn pointer_resolves<K: FromBytes, V: FromBytes>(
    m: Map<Seq<u8>, Seq<u8>>,
    els: Seq<(Seq<u8>, TrieModel<K::V, V::V>)>,
    p: PointerModel,
) -> bool {
    ||| (m.contains_key(p.hash()) && pointer_kind_fits::<K, V>(m, p))
    ||| exists|j: int|
        #![trigger els[j]]
        0 <= j < els.len() && els[j].0 == p.hash() && (p is LeafPointer <==> els[j].1 is Leaf)
}

/// Every pointer of `t` resolves (see [`pointer_resolves`]).
pub open spec fn pointers_resolve<K: FromBytes, V: FromBytes>(
    m: Map<Seq<u8>, Seq<u8>>,
    els: Seq<(Seq<u8>, TrieModel<K::V, V::V>)>,
    t: TrieModel<K::V, V::V>,
) -> bool {
    match t {
        TrieModel::Node { pointer_block } => forall|i: int|
            0 <= i < pointer_block.len() ==> (#[trigger] pointer_block[i] matches Some(p)
                ==> pointer_resolves::<K, V>(m, els, p)),
        TrieModel::Extension { pointer, .. } => pointer_resolves::<K, V>(m, els, pointer),
        TrieModel::Leaf { .. } => true,
    }
}

/// Every pointer of node `t` but the one in `slot` resolves.
pub open spec fn others_resolve<K: FromBytes, V: FromBytes>(
    m: Map<Seq<u8>, Seq<u8>>,
    els: Seq<(Seq<u8>, TrieModel<K::V, V::V>)>,
    t: TrieModel<K::V, V::V>,
    slot: int,
) -> bool {
    match t {
        TrieModel::Node { pointer_block } => forall|i: int|
            0 <= i < pointer_block.len() && i != slot ==> (#[trigger] pointer_block[i] matches Some(
                p,
            ) ==> pointer_resolves::<K, V>(m, els, p)),
        _ => true,
    }
}

/// What a chain of parents above `tip` must hold for its rehash to keep the
/// store well formed: the parents are nodes with full blocks or extensions,
/// their pointers off the path resolve, and each extension's pointer has the
/// kind of the element below it.
pub open spec fn chain_ok<K: FromBytes, V: FromBytes>(
    m: Map<Seq<u8>, Seq<u8>>,
    els: Seq<(Seq<u8>, TrieModel<K::V, V::V>)>,
    tip: TrieModel<K::V, V::V>,
    parents: ParentsModel<K::V, V::V>,
) -> bool {
    &&& no_leaf_parents(parents)
    &&& nodes_full(parents)
    &&& forall|i: int|
        0 <= i < parents.len() ==> others_resolve::<K, V>(
            m,
            els,
            #[trigger] parents[i].1,
            parents[i].0 as int,
        )
    &&& forall|i: int|
        0 <= i < parents.len() ==> ((#[trigger] parents[i]).1 matches TrieModel::Extension {
            pointer,
            ..
        } ==> (pointer is LeafPointer <==> below(tip, parents, i) is Leaf))
}

/// The elements of a rehash, taken from `all`, have pointers that resolve.
pub proof fn lemma_rehash_pointers<K: FromBytes, V: FromBytes>(
    m: Map<Seq<u8>, Seq<u8>>,
    all: Seq<(Seq<u8>, TrieModel<K::V, V::V>)>,
    pre: Seq<(Seq<u8>, TrieModel<K::V, V::V>)>,
    tip: TrieModel<K::V, V::V>,
    parents: ParentsModel<K::V, V::V>,
    els: Seq<(Seq<u8>, TrieModel<K::V, V::V>)>,
)
    requires
        spec_rehash::<K, V>(tip, parents) == Ok::<Seq<(Seq<u8>, TrieModel<K::V, V::V>)>, Error>(
            els,
        ),
        all == pre + els,
        chain_ok::<K, V>(m, all, tip, parents),
        pointers_resolve::<K, V>(m, all, tip),
    ensures
        forall|k: int| 0 <= k < els.len() ==> pointers_resolve::<K, V>(m, all, #[trigger] els[k].1),
    decreases parents.len(),
{
    crate::operations::lemma_rehash_hashed::<K, V>(tip, parents);
    let h = els[0].0;
    let j0 = pre.len() as int;
    assert(all[j0] == els[0]);
    if parents.len() == 0 {
        assert(els.len() == 1);
    } else {
        let (index, parent) = parents.last();
        let ps1 = parents.drop_last();
        let adopted = adopt(parent, index, tip, h);
        let rest = spec_rehash::<K, V>(adopted, ps1)->Ok_0;
        assert(els == seq![(h, tip)] + rest);
        let last = parents.len() - 1;
        assert(parents[last] == (index, parent));
        assert(!(parent is Leaf));
        assert(below(tip, parents, last) == tip);
        match parent {
            TrieModel::Node { pointer_block } => {
                let pb2 = pointer_block.update(index as int, Some(pointer_to(tip, h)));
                assert(pointer_block.len() == 256);
                assert forall|i: int| 0 <= i < pb2.len() implies (#[trigger] pb2[i] matches Some(p)
                    ==> pointer_resolves::<K, V>(m, all, p)) by {
                    if i == index as int {
                        assert(pointer_to(tip, h).hash() == h);
                        assert(all[j0].0 == pointer_to(tip, h).hash());
                    } else {
                        assert(pb2[i] == pointer_block[i]);
                    }
                }
            },
            TrieModel::Extension { affix, pointer } => {
                assert(repoint(pointer, h).hash() == h);
                assert(all[j0].0 == repoint(pointer, h).hash());
            },
            TrieModel::Leaf { .. } => {},
        }
        assert(pointers_resolve::<K, V>(m, all, adopted));
        assert forall|i: int| 0 <= i < ps1.len() implies ps1[i] == parents[i] by {}
        assert forall|i: int|
            0 <= i < ps1.len() implies ((#[trigger] ps1[i]).1 matches TrieModel::Extension {
                pointer,
                ..
            } ==> (pointer is LeafPointer <==> below(adopted, ps1, i) is Leaf)) by {
            assert(ps1[i] == parents[i]);
            if i + 1 < ps1.len() {
                assert(ps1[i + 1] == parents[i + 1]);
            } else {
                assert(below(tip, parents, i) == parent);
            }
        }
        assert forall|i: int| 0 <= i < ps1.len() implies !((#[trigger] ps1[i]).1 is Leaf) && (
        ps1[i].1 matches TrieModel::Node { pointer_block } ==> pointer_block.len() == 256)
            && others_resolve::<K, V>(m, all, ps1[i].1, ps1[i].0 as int) by {
            assert(ps1[i] == parents[i]);
        }
        let pre2 = pre.push(els[0]);
        assert(all == pre2 + rest);
        lemma_rehash_pointers::<K, V>(m, all, pre2, adopted, ps1, rest);
        assert forall|k: int| 0 <= k < els.len() implies pointers_resolve::<K, V>(
            m,
            all,
            #[trigger] els[k].1,
        ) by {
            if k > 0 {
                assert(els[k] == rest[k - 1]);
            }
        }
    }
}

/// Every pointer of every stored element leads to a stored element of the
/// kind it names.
pub open spec fn store_closed<K: FromBytes, V: FromBytes>(m: Map<Seq<u8>, Seq<u8>>) -> bool {
    forall|h: Seq<u8>|
        #![trigger m[h]]
        m.contains_key(h) ==> (fetch::<K, V>(m, h) matches FetchModel::Got(t)
            ==> pointers_resolve::<K, V>(m, Seq::empty(), t))
}

/// Pointers that resolve in the store alone resolve beside any elements.
pub proof fn lemma_resolve_more<K: FromBytes, V: FromBytes>(
    m: Map<Seq<u8>, Seq<u8>>,
    all: Seq<(Seq<u8>, TrieModel<K::V, V::V>)>,
    t: TrieModel<K::V, V::V>,
)
    requires
        pointers_resolve::<K, V>(m, Seq::empty(), t),
    ensures
        pointers_resolve::<K, V>(m, all, t),
{
    if let TrieModel::Node { pointer_block } = t {
        assert forall|i: int| 0 <= i < pointer_block.len() implies (
        #[trigger] pointer_block[i] matches Some(p) ==> pointer_resolves::<K, V>(m, all, p)) by {
            if let Some(p) = pointer_block[i] {
                assert(pointer_resolves::<K, V>(m, Seq::empty(), p));
            }
        }
    }
}

/// What a scan from a stored element finds in a closed store: the elements
/// it passes have pointers that resolve in the store, each extension's
/// pointer leads to the element below it, and the first element is the one
/// the scan began at.
pub proof fn lemma_scan_chain<K: FromBytes, V: FromBytes>(
    m: Map<Seq<u8>, Seq<u8>>,
    h: Seq<u8>,
    t: TrieModel<K::V, V::V>,
    path: Seq<u8>,
    depth: nat,
    run: nat,
)
    requires
        store_closed::<K, V>(m),
        m.contains_key(h),
        fetch::<K, V>(m, h) == FetchModel::<K::V, V::V>::Got(t),
    ensures
        spec_scan_in::<K, V>(m, t, path, depth, run) matches ScanModel::Done { tip, parents } ==> {
            &&& pointers_resolve::<K, V>(m, Seq::empty(), tip)
            &&& forall|i: int|
                0 <= i < parents.len() ==> pointers_resolve::<K, V>(
                    m,
                    Seq::empty(),
                    #[trigger] parents[i].1,
                )
            &&& forall|i: int|
                0 <= i < parents.len() ==> ((#[trigger] parents[i]).1 matches TrieModel::Extension {
                    pointer,
                    ..
                } ==> fetch::<K, V>(m, pointer.hash()) == FetchModel::Got(below(tip, parents, i)))
            &&& parents.len() == 0 ==> tip == t
            &&& parents.len() > 0 ==> parents[0].1 == t
        },
    decreases path.len() - depth, run,
{
    assert(m[h] == m[h]);
    match t {
        TrieModel::Leaf { .. } => {},
        TrieModel::Node { pointer_block } => {
            if depth < path.len() {
                let index = path[depth as int];
                if let Some(p) = pointer_block[index as int] {
                    if let FetchModel::Got(child) = fetch::<K, V>(m, p.hash()) {
                        lemma_scan_chain::<K, V>(m, p.hash(), child, path, depth + 1, empty_run_limit());
                        lemma_scan_chain_prepend::<K, V>(
                            m,
                            t,
                            index,
                            child,
                            path,
                            depth + 1,
                            empty_run_limit(),
                        );
                    }
                }
            }
        },
        TrieModel::Extension { affix, pointer } => {
            if depth + affix.len() <= path.len() && path.subrange(
                depth as int,
                (depth + affix.len()) as int,
            ) == affix && depth < path.len() && !(affix.len() == 0 && run == 0) {
                if let FetchModel::Got(child) = fetch::<K, V>(m, pointer.hash()) {
                    lemma_scan_chain::<K, V>(
                        m,
                        pointer.hash(),
                        child,
                        path,
                        depth + affix.len(),
                        next_run(run, depth, depth + affix.len()),
                    );
                    lemma_scan_chain_prepend::<K, V>(
                        m,
                        t,
                        path[depth as int],
                        child,
                        path,
                        depth + affix.len(),
                        next_run(run, depth, depth + affix.len()),
                    );
                }
            }
        },
    }
}

/// The facts of [`lemma_scan_chain`] carry over to a scan with `t` put in
/// front of its parents, where `t` is stored with resolving pointers and, as
/// an extension, leads to `child`.
proof fn lemma_scan_chain_prepend<K: FromBytes, V: FromBytes>(
    m: Map<Seq<u8>, Seq<u8>>,
    t: TrieModel<K::V, V::V>,
    b: u8,
    child: TrieModel<K::V, V::V>,
    path: Seq<u8>,
    d: nat,
    run: nat,
)
    requires
        store_closed::<K, V>(m),
        exists|h: Seq<u8>| m.contains_key(h) && fetch::<K, V>(m, h) == FetchModel::<K::V, V::V>::Got(t),
        t matches TrieModel::Extension { pointer, .. } ==> fetch::<K, V>(m, pointer.hash())
            == FetchModel::Got(child),
        spec_scan_in::<K, V>(m, child, path, d, run) matches ScanModel::Done { tip, parents } ==> {
            &&& pointers_resolve::<K, V>(m, Seq::empty(), tip)
            &&& forall|i: int|
                0 <= i < parents.len() ==> pointers_resolve::<K, V>(
                    m,
                    Seq::empty(),
                    #[trigger] parents[i].1,
                )
            &&& forall|i: int|
                0 <= i < parents.len() ==> ((#[trigger] parents[i]).1 matches TrieModel::Extension {
                    pointer,
                    ..
                } ==> fetch::<K, V>(m, pointer.hash()) == FetchModel::Got(below(tip, parents, i)))
            &&& parents.len() == 0 ==> tip == child
            &&& parents.len() > 0 ==> parents[0].1 == child
        },
    ensures
        prepend_parents(seq![(b, t)], spec_scan_in::<K, V>(m, child, path, d, run)) matches ScanModel::Done {
            tip,
            parents,
        } ==> {
            &&& pointers_resolve::<K, V>(m, Seq::empty(), tip)
            &&& forall|i: int|
                0 <= i < parents.len() ==> pointers_resolve::<K, V>(
                    m,
                    Seq::empty(),
                    #[trigger] parents[i].1,
                )
            &&& forall|i: int|
                0 <= i < parents.len() ==> ((#[trigger] parents[i]).1 matches TrieModel::Extension {
                    pointer,
                    ..
                } ==> fetch::<K, V>(m, pointer.hash()) == FetchModel::Got(below(tip, parents, i)))
            &&& parents.len() == 0 ==> tip == t
            &&& parents.len() > 0 ==> parents[0].1 == t
        },
{
    let h = choose|h: Seq<u8>| m.contains_key(h) && fetch::<K, V>(m, h) == FetchModel::<K::V, V::V>::Got(t);
    assert(m[h] == m[h]);
    if let ScanModel::Done { tip, parents: ps } = spec_scan_in::<K, V>(m, child, path, d, run) {
        let all = seq![(b, t)] + ps;
        assert(all[0] == (b, t));
        assert forall|i: int| 0 <= i < all.len() implies pointers_resolve::<K, V>(
            m,
            Seq::empty(),
            #[trigger] all[i].1,
        ) by {
            if i > 0 {
                assert(all[i] == ps[i - 1]);
            }
        }
        assert forall|i: int|
            0 <= i < all.len() implies ((#[trigger] all[i]).1 matches TrieModel::Extension {
                pointer,
                ..
            } ==> fetch::<K, V>(m, pointer.hash()) == FetchModel::Got(below(tip, all, i))) by {
            if i > 0 {
                assert(all[i] == ps[i - 1]);
                if i + 1 < all.len() {
                    assert(all[i + 1] == ps[i]);
                }
            } else {
                if 1 < all.len() {
                    assert(all[1] == ps[0]);
                }
            }
        }
    }
}

/// A node's pointers all resolve, so those off any slot do.
pub proof fn lemma_others_of_all<K: FromBytes, V: FromBytes>(
    m: Map<Seq<u8>, Seq<u8>>,
    els: Seq<(Seq<u8>, TrieModel<K::V, V::V>)>,
    t: TrieModel<K::V, V::V>,
    slot: int,
)
    requires
        pointers_resolve::<K, V>(m, els, t),
    ensures
        others_resolve::<K, V>(m, els, t, slot),
{
}

/// The chain that a scan found, with a new tip in place of the old one, is
/// fit for a rehash, where an extension as the last parent leads to a tip of
/// the old tip's kind.
pub proof fn lemma_chain_from_scan<K: FromBytes, V: FromBytes>(
    m: Map<Seq<u8>, Seq<u8>>,
    els: Seq<(Seq<u8>, TrieModel<K::V, V::V>)>,
    old_tip: TrieModel<K::V, V::V>,
    new_tip: TrieModel<K::V, V::V>,
    parents: ParentsModel<K::V, V::V>,
)
    requires
        no_leaf_parents(parents),
        nodes_full(parents),
        forall|i: int|
            0 <= i < parents.len() ==> pointers_resolve::<K, V>(
                m,
                Seq::empty(),
                #[trigger] parents[i].1,
            ),
        forall|i: int|
            0 <= i < parents.len() ==> ((#[trigger] parents[i]).1 matches TrieModel::Extension {
                pointer,
                ..
            } ==> fetch::<K, V>(m, pointer.hash()) == FetchModel::Got(below(old_tip, parents, i))),
        parents.len() > 0 && parents.last().1 is Extension ==> (old_tip is Leaf <==> new_tip is Leaf),
    ensures
        chain_ok::<K, V>(m, els, new_tip, parents),
{
    assert forall|i: int| 0 <= i < parents.len() implies others_resolve::<K, V>(
        m,
        els,
        #[trigger] parents[i].1,
        parents[i].0 as int,
    ) by {
        lemma_resolve_more::<K, V>(m, els, parents[i].1);
    }
    assert forall|i: int|
        0 <= i < parents.len() implies ((#[trigger] parents[i]).1 matches TrieModel::Extension {
            pointer,
            ..
        } ==> (pointer is LeafPointer <==> below(new_tip, parents, i) is Leaf)) by {
        if let TrieModel::Extension { pointer, .. } = parents[i].1 {
            assert(pointers_resolve::<K, V>(m, Seq::empty(), parents[i].1));
            assert(pointer_kind_fits::<K, V>(m, pointer));
            if i + 1 == parents.len() {
                assert(parents.last() == parents[i]);
            }
        }
    }
}

/// A chain fit for a rehash stays fit with one more parent `e` below it.
pub proof fn lemma_chain_push<K: FromBytes, V: FromBytes>(
    m: Map<Seq<u8>, Seq<u8>>,
    els: Seq<(Seq<u8>, TrieModel<K::V, V::V>)>,
    parents: ParentsModel<K::V, V::V>,
    b: u8,
    e: TrieModel<K::V, V::V>,
    new_tip: TrieModel<K::V, V::V>,
)
    requires
        chain_ok::<K, V>(m, els, e, parents),
        !(e is Leaf),
        e matches TrieModel::Node { pointer_block } ==> pointer_block.len() == 256,
        others_resolve::<K, V>(m, els, e, b as int),
        e matches TrieModel::Extension { pointer, .. } ==> (pointer is LeafPointer <==> new_tip is Leaf),
    ensures
        chain_ok::<K, V>(m, els, new_tip, parents.push((b, e))),
{
    let all = parents.push((b, e));
    assert forall|i: int| 0 <= i < all.len() implies {
        &&& !((#[trigger] all[i]).1 is Leaf)
        &&& (all[i].1 matches TrieModel::Node { pointer_block } ==> pointer_block.len() == 256)
        &&& others_resolve::<K, V>(m, els, all[i].1, all[i].0 as int)
        &&& (all[i].1 matches TrieModel::Extension { pointer, .. } ==> (pointer is LeafPointer
            <==> below(new_tip, all, i) is Leaf))
    } by {
        if i < parents.len() {
            assert(all[i] == parents[i]);
            if i + 1 < parents.len() {
                assert(all[i + 1] == parents[i + 1]);
            } else {
                assert(all[i + 1] == (b, e));
            }
        }
    }
}

/// The block with the one pointer `p` in slot `x`.
pub proof fn lemma_single_block(x: u8, p: PointerModel)
    ensures
        crate::trie::block_from(seq![(x, p)]).len() == 256,
        forall|i: int|
            0 <= i < 256 ==> #[trigger] crate::trie::block_from(seq![(x, p)])[i] == if i == x as int {
                Some(p)
            } else {
                None
            },
{
    let one = seq![(x, p)];
    assert(one.drop_last() =~= Seq::<(u8, PointerModel)>::empty());
    assert(one.last() == (x, p));
    assert(crate::trie::block_from(one.drop_last()) == crate::trie::empty_block());
    assert(crate::trie::block_from(one) == crate::trie::empty_block().update(x as int, Some(p)));
}

} // verus!
