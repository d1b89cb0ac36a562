//! Why a write leaves the entries of other keys as they were: a walk along
//! another key's path either leaves the written path at some parent, below
//! which nothing changed, or follows it down to where the write put its new
//! elements, which lead it on to what it found before.
use vstd::prelude::*;

use crate::bytesrepr::{max_repr_len, Error, FromBytes};
use crate::merkle_proof::repr_hash;
use crate::operations::{
    adopt, below, empty_run_limit, spec_scan_in, lemma_common_prefix_props, next_run, walk_in, no_leaf_parents, nodes_full, parent_step_len,
    parents_path, pointer_to, repoint, scan_facts, spec_common_prefix,
    spec_read, spec_rehash, spec_reparent_leaf, spec_scan, spec_split_extension, spec_write,
    starts_with, walk, with_node, write_defined, ParentsModel, ScanModel, SplitModel, WalkModel,
    WriteModel,
};
use crate::store::{fetch, FetchModel};
use crate::trie::{block_from, trie_bytes, PointerModel, Trie, TrieModel};
use crate::well_formed::lemma_single_block;

verus! {

/// `m2` holds every hash that `m` holds, with the same bytes.
pub(crate) open spec fn keeps_stored(m: Map<Seq<u8>, Seq<u8>>, m2: Map<Seq<u8>, Seq<u8>>) -> bool {
    forall|h: Seq<u8>| #[trigger] m.contains_key(h) ==> m2.contains_key(h) && m2[h] == m[h]
}

/// The walk found the leaf with `key` and `value`.
pub open spec fn finds<KV, VV>(w: WalkModel<KV, VV>, key: KV, value: VV) -> bool {
    w matches WalkModel::Found { key: k, value: v, .. } && k == key && v == value
}

/// The walk ended as `o` says: at the leaf with the key and value it holds,
/// or, where it holds none, without a leaf for the path.
pub open spec fn ends_as<KV, VV>(w: WalkModel<KV, VV>, o: Option<(KV, VV)>) -> bool {
    match o {
        Some((k, v)) => finds(w, k, v),
        None => w is NotFound,
    }
}

/// Where a walk along `path2` from `old_t` in `m` ends as `o` says, one
/// from `new_t` in `m2` ends so too.
spec fn keeps_finding<K: FromBytes, V: FromBytes>(
    m: Map<Seq<u8>, Seq<u8>>,
    m2: Map<Seq<u8>, Seq<u8>>,
    old_t: TrieModel<K::V, V::V>,
    new_t: TrieModel<K::V, V::V>,
    path2: Seq<u8>,
    d: nat,
    o: Option<(K::V, V::V)>,
) -> bool {
    ends_as(walk::<K, V>(m, old_t, path2, d), o) ==> ends_as(walk::<K, V>(m2, new_t, path2, d), o)
}

/// What `m` stores under `h` is fetched from `m2` alike.
pub(crate) proof fn lemma_fetch_kept<K: FromBytes, V: FromBytes>(
    m: Map<Seq<u8>, Seq<u8>>,
    m2: Map<Seq<u8>, Seq<u8>>,
    h: Seq<u8>,
)
    requires
        keeps_stored(m, m2),
        m.contains_key(h),
    ensures
        fetch::<K, V>(m2, h) == fetch::<K, V>(m, h),
{
}

/// A walk that finds a leaf in `m`, or finds there is none for its path,
/// goes the same way in `m2`, which keeps what `m` stores.
pub(crate) proof fn lemma_walk_kept<K: FromBytes, V: FromBytes>(
    m: Map<Seq<u8>, Seq<u8>>,
    m2: Map<Seq<u8>, Seq<u8>>,
    t: TrieModel<K::V, V::V>,
    path: Seq<u8>,
    depth: nat,
    run: nat,
)
    requires
        keeps_stored(m, m2),
    ensures
        walk_in::<K, V>(m, t, path, depth, run) is Found || walk_in::<K, V>(
            m,
            t,
            path,
            depth,
            run,
        ) is NotFound ==> walk_in::<K, V>(m2, t, path, depth, run) == walk_in::<K, V>(
            m,
            t,
            path,
            depth,
            run,
        ),
    decreases path.len() - depth, run,
{
    match t {
        TrieModel::Leaf { .. } => {},
        TrieModel::Node { pointer_block } => {
            if depth < path.len() {
                if let Some(p) = pointer_block[path[depth as int] as int] {
                    if m.contains_key(p.hash()) {
                        lemma_fetch_kept::<K, V>(m, m2, p.hash());
                        if let FetchModel::Got(child) = fetch::<K, V>(m, p.hash()) {
                            lemma_walk_kept::<K, V>(m, m2, child, path, depth + 1, empty_run_limit());
                        }
                    }
                }
            }
        },
        TrieModel::Extension { affix, pointer } => {
            if depth + affix.len() <= path.len() && !(affix.len() == 0 && run == 0) {
                if m.contains_key(pointer.hash()) {
                    lemma_fetch_kept::<K, V>(m, m2, pointer.hash());
                    if let FetchModel::Got(child) = fetch::<K, V>(m, pointer.hash()) {
                        lemma_walk_kept::<K, V>(
                            m,
                            m2,
                            child,
                            path,
                            depth + affix.len(),
                            next_run(run, depth, depth + affix.len()),
                        );
                    }
                }
            }
        },
    }
}

/// Each parent leads, through the pointer taken down the chain, to the
/// element below it.
spec fn fetch_chain<K: FromBytes, V: FromBytes>(
    m: Map<Seq<u8>, Seq<u8>>,
    tip: TrieModel<K::V, V::V>,
    parents: ParentsModel<K::V, V::V>,
) -> bool {
    forall|i: int|
        0 <= i < parents.len() ==> match (#[trigger] parents[i]).1 {
            TrieModel::Node { pointer_block } => pointer_block[parents[i].0 as int] matches Some(p)
                && fetch::<K, V>(m, p.hash()) == FetchModel::Got(below(tip, parents, i)),
            TrieModel::Extension { pointer, .. } => fetch::<K, V>(m, pointer.hash())
                == FetchModel::Got(below(tip, parents, i)),
            TrieModel::Leaf { .. } => true,
        }
}

/// The top of a chain: its first parent, or the tip where it has none.
spec fn chain_top<KV, VV>(tip: TrieModel<KV, VV>, parents: ParentsModel<KV, VV>) -> TrieModel<
    KV,
    VV,
> {
    if parents.len() > 0 {
        parents[0].1
    } else {
        tip
    }
}

/// A scan's chain leads from the element it began at down to its tip.
proof fn lemma_scan_fetch_chain<K: FromBytes, V: FromBytes>(
    m: Map<Seq<u8>, Seq<u8>>,
    t: TrieModel<K::V, V::V>,
    path: Seq<u8>,
    depth: nat,
    run: nat,
)
    ensures
        spec_scan_in::<K, V>(m, t, path, depth, run) matches ScanModel::Done { tip, parents } ==> {
            &&& fetch_chain::<K, V>(m, tip, parents)
            &&& chain_top(tip, parents) == t
        },
    decreases path.len() - depth, run,
{
    match t {
        TrieModel::Leaf { .. } => {},
        TrieModel::Node { pointer_block } => {
            if depth < path.len() {
                let index = path[depth as int];
                if let Some(p) = pointer_block[index as int] {
                    if let FetchModel::Got(child) = fetch::<K, V>(m, p.hash()) {
                        lemma_scan_fetch_chain::<K, V>(m, child, path, depth + 1, empty_run_limit());
                        lemma_fetch_chain_prepend::<K, V>(
                            m,
                            t,
                            index,
                            child,
                            path,
                            depth + 1,
                            empty_run_limit(),
                        );
                    }
                }
            }
        },
        TrieModel::Extension { affix, pointer } => {
            if depth + affix.len() <= path.len() && path.subrange(
                depth as int,
                (depth + affix.len()) as int,
            ) == affix && depth < path.len() && !(affix.len() == 0 && run == 0) {
                if let FetchModel::Got(child) = fetch::<K, V>(m, pointer.hash()) {
                    lemma_scan_fetch_chain::<K, V>(
                        m,
                        child,
                        path,
                        depth + affix.len(),
                        next_run(run, depth, depth + affix.len()),
                    );
                    lemma_fetch_chain_prepend::<K, V>(
                        m,
                        t,
                        path[depth as int],
                        child,
                        path,
                        depth + affix.len(),
                        next_run(run, depth, depth + affix.len()),
                    );
                }
            }
        },
    }
}

/// A chain that leads from `child` down stays one with `t`, which leads to
/// `child`, put on top.
proof fn lemma_fetch_chain_prepend<K: FromBytes, V: FromBytes>(
    m: Map<Seq<u8>, Seq<u8>>,
    t: TrieModel<K::V, V::V>,
    b: u8,
    child: TrieModel<K::V, V::V>,
    path: Seq<u8>,
    d: nat,
    run: nat,
)
    requires
        t matches TrieModel::Node { pointer_block } ==> pointer_block[b as int] matches Some(p)
            && fetch::<K, V>(m, p.hash()) == FetchModel::Got(child),
        t matches TrieModel::Extension { pointer, .. } ==> fetch::<K, V>(m, pointer.hash())
            == FetchModel::Got(child),
        spec_scan_in::<K, V>(m, child, path, d, run) matches ScanModel::Done { tip, parents } ==> {
            &&& fetch_chain::<K, V>(m, tip, parents)
            &&& chain_top(tip, parents) == child
        },
    ensures
        crate::operations::prepend_parents(seq![(b, t)], spec_scan_in::<K, V>(m, child, path, d, run))
            matches ScanModel::Done { tip, parents } ==> {
            &&& fetch_chain::<K, V>(m, tip, parents)
            &&& chain_top(tip, parents) == t
        },
{
    if let ScanModel::Done { tip, parents: ps } = spec_scan_in::<K, V>(m, child, path, d, run) {
        let all = seq![(b, t)] + ps;
        assert(all[0] == (b, t));
        assert(below(tip, all, 0) == child) by {
            if ps.len() > 0 {
                assert(all[1] == ps[0]);
            }
        }
        assert forall|i: int| 0 <= i < all.len() implies match (#[trigger] all[i]).1 {
            TrieModel::Node { pointer_block } => pointer_block[all[i].0 as int] matches Some(p)
                && fetch::<K, V>(m, p.hash()) == FetchModel::Got(below(tip, all, i)),
            TrieModel::Extension { pointer, .. } => fetch::<K, V>(m, pointer.hash())
                == FetchModel::Got(below(tip, all, i)),
            TrieModel::Leaf { .. } => true,
        } by {
            if i > 0 {
                assert(all[i] == ps[i - 1]);
                if i + 1 < all.len() {
                    assert(all[i + 1] == ps[i]);
                }
                assert(below(tip, all, i) == below(tip, ps, i - 1));
            }
        }
    }
}

/// Rehashing below parents `a + b` rehashes below `b` first, then below `a`
/// from the element that the top of `b` became.
proof fn lemma_rehash_split<K: FromBytes, V: FromBytes>(
    tip: TrieModel<K::V, V::V>,
    a: ParentsModel<K::V, V::V>,
    b: ParentsModel<K::V, V::V>,
)
    requires
        spec_rehash::<K, V>(tip, a + b) is Ok,
    ensures
        spec_rehash::<K, V>(tip, b) is Ok,
        ({
            let lower = spec_rehash::<K, V>(tip, b)->Ok_0;
            &&& lower.len() > 0
            &&& spec_rehash::<K, V>(lower.last().1, a) is Ok
            &&& spec_rehash::<K, V>(tip, a + b) == Ok::<Seq<(Seq<u8>, TrieModel<K::V, V::V>)>, Error>(
                lower.drop_last() + spec_rehash::<K, V>(lower.last().1, a)->Ok_0,
            )
            &&& spec_rehash::<K, V>(lower.last().1, a)->Ok_0.len() > 0
            &&& spec_rehash::<K, V>(lower.last().1, a)->Ok_0[0] == lower.last()
        }),
    decreases b.len(),
{
    lemma_rehash_split_ends::<K, V>(tip, a, b);
    lemma_rehash_split_joins::<K, V>(tip, a, b);
}

/// The element that the top of `b` became starts the rehash below `a`.
proof fn lemma_rehash_split_ends<K: FromBytes, V: FromBytes>(
    tip: TrieModel<K::V, V::V>,
    a: ParentsModel<K::V, V::V>,
    b: ParentsModel<K::V, V::V>,
)
    ensures
        spec_rehash::<K, V>(tip, b) matches Ok(lower) ==> lower.len() > 0 && (spec_rehash::<K, V>(
            lower.last().1,
            a,
        ) matches Ok(upper) ==> upper.len() > 0 && upper[0] == lower.last()),
{
    crate::operations::lemma_rehash_hashed::<K, V>(tip, b);
    if let Ok(lower) = spec_rehash::<K, V>(tip, b) {
        crate::operations::lemma_rehash_hashed::<K, V>(lower.last().1, a);
        assert(lower.last() == lower[lower.len() - 1]);
    }
}

/// See [`lemma_rehash_split`].
proof fn lemma_rehash_split_joins<K: FromBytes, V: FromBytes>(
    tip: TrieModel<K::V, V::V>,
    a: ParentsModel<K::V, V::V>,
    b: ParentsModel<K::V, V::V>,
)
    requires
        spec_rehash::<K, V>(tip, a + b) is Ok,
    ensures
        spec_rehash::<K, V>(tip, b) is Ok,
        ({
            let lower = spec_rehash::<K, V>(tip, b)->Ok_0;
            &&& lower.len() > 0
            &&& spec_rehash::<K, V>(lower.last().1, a) is Ok
            &&& spec_rehash::<K, V>(tip, a + b) == Ok::<Seq<(Seq<u8>, TrieModel<K::V, V::V>)>, Error>(
                lower.drop_last() + spec_rehash::<K, V>(lower.last().1, a)->Ok_0,
            )
        }),
    decreases b.len(),
{
    let h = crate::merkle_proof::repr_hash(crate::trie::trie_bytes::<K, V>(tip))->Ok_0;
    if b.len() == 0 {
        assert(a + b =~= a);
        let lower = seq![(h, tip)];
        assert(lower.drop_last() =~= Seq::<(Seq<u8>, TrieModel<K::V, V::V>)>::empty());
        let upper = spec_rehash::<K, V>(tip, a)->Ok_0;
        assert(lower.drop_last() + upper =~= upper);
    } else {
        let (index, parent) = b.last();
        let adopted = adopt(parent, index, tip, h);
        let b1 = b.drop_last();
        assert((a + b).last() == b.last());
        assert((a + b).drop_last() =~= a + b1);
        lemma_rehash_split_joins::<K, V>(adopted, a, b1);
        let lower1 = spec_rehash::<K, V>(adopted, b1)->Ok_0;
        let upper = spec_rehash::<K, V>(lower1.last().1, a)->Ok_0;
        let lower = seq![(h, tip)] + lower1;
        assert(lower.last() == lower1.last());
        assert(lower.drop_last() =~= seq![(h, tip)] + lower1.drop_last());
        assert(lower.drop_last() + upper =~= seq![(h, tip)] + (lower1.drop_last() + upper));
    }
}

/// One step up a rehashed chain: where the old parent led a walk along
/// `path2` on to the old element below it, and what the walk found below it
/// is found below the new one, the parent made to point at the new element
/// finds it too; off the chain, nothing changed.
proof fn lemma_adopt_keeps_walk<K: FromBytes, V: FromBytes>(
    m: Map<Seq<u8>, Seq<u8>>,
    m2: Map<Seq<u8>, Seq<u8>>,
    parent: TrieModel<K::V, V::V>,
    index: u8,
    old_tip: TrieModel<K::V, V::V>,
    new_tip: TrieModel<K::V, V::V>,
    h: Seq<u8>,
    path2: Seq<u8>,
    d: nat,
    o: Option<(K::V, V::V)>,
)
    requires
        keeps_stored(m, m2),
        !(parent is Leaf),
        parent matches TrieModel::Node { pointer_block } ==> pointer_block.len() == 256,
        parent matches TrieModel::Extension { affix, .. } ==> affix.len() > 0,
        parent matches TrieModel::Node { pointer_block } ==> (pointer_block[index as int] is None
            && o is None ==> walk::<K, V>(m2, new_tip, path2, d + 1) is NotFound),
        fetch::<K, V>(m2, h) == FetchModel::<K::V, V::V>::Got(new_tip),
        parent matches TrieModel::Node { pointer_block } ==> (pointer_block[index as int] matches Some(
            p,
        ) ==> fetch::<K, V>(m, p.hash()) == FetchModel::Got(old_tip) && keeps_finding::<K, V>(
            m,
            m2,
            old_tip,
            new_tip,
            path2,
            d + 1,
            o,
        )),
        parent matches TrieModel::Extension { pointer, affix } ==> fetch::<K, V>(m, pointer.hash())
            == FetchModel::Got(old_tip) && keeps_finding::<K, V>(
            m,
            m2,
            old_tip,
            new_tip,
            path2,
            d + affix.len(),
            o,
        ),
    ensures
        ends_as(walk::<K, V>(m, parent, path2, d), o) ==> ends_as(
            walk::<K, V>(m2, adopt(parent, index, new_tip, h), path2, d),
            o,
        ),
{
    match parent {
        TrieModel::Node { pointer_block } => {
            let pb2 = pointer_block.update(index as int, Some(pointer_to(new_tip, h)));
            if d < path2.len() {
                let s = path2[d as int];
                if s == index {
                    assert(pb2[index as int] == Some(pointer_to(new_tip, h)));
                    assert(pointer_to(new_tip, h).hash() == h);
                } else {
                    assert(pb2[s as int] == pointer_block[s as int]);
                    if let Some(p) = pointer_block[s as int] {
                        if m.contains_key(p.hash()) {
                            lemma_fetch_kept::<K, V>(m, m2, p.hash());
                            if let FetchModel::Got(c) = fetch::<K, V>(m, p.hash()) {
                                lemma_walk_kept::<K, V>(m, m2, c, path2, d + 1, empty_run_limit());
                            }
                        }
                    }
                }
            }
        },
        TrieModel::Extension { affix, pointer } => {
            assert(repoint(pointer, h).hash() == h);
        },
        TrieModel::Leaf { .. } => {},
    }
}

/// Up a rehashed chain, where the old chain led each parent on to the
/// element below it: what a walk along `path2` found from the old top, it
/// finds from the new top, where it does so at the bottom.
proof fn lemma_rehash_keeps_walks<K: FromBytes, V: FromBytes>(
    m: Map<Seq<u8>, Seq<u8>>,
    m2: Map<Seq<u8>, Seq<u8>>,
    old_tip: TrieModel<K::V, V::V>,
    new_tip: TrieModel<K::V, V::V>,
    parents: ParentsModel<K::V, V::V>,
    els: Seq<(Seq<u8>, TrieModel<K::V, V::V>)>,
    path2: Seq<u8>,
    o: Option<(K::V, V::V)>,
)
    requires
        keeps_stored(m, m2),
        spec_rehash::<K, V>(new_tip, parents) == Ok::<Seq<(Seq<u8>, TrieModel<K::V, V::V>)>, Error>(
            els,
        ),
        forall|i: int|
            0 <= i < els.len() ==> fetch::<K, V>(m2, (#[trigger] els[i]).0) == FetchModel::Got(
                els[i].1,
            ),
        fetch_chain::<K, V>(m, old_tip, parents),
        no_leaf_parents(parents),
        crate::operations::nodes_full(parents),
        crate::operations::extensions_nonempty(parents),
        keeps_finding::<K, V>(
            m,
            m2,
            old_tip,
            new_tip,
            path2,
            parents_path(parents).len(),
            o,
        ),
    ensures
        els.len() > 0,
        ends_as(walk::<K, V>(m, chain_top(old_tip, parents), path2, 0), o) ==> ends_as(
            walk::<K, V>(m2, els.last().1, path2, 0),
            o,
        ),
    decreases parents.len(),
{
    crate::operations::lemma_rehash_hashed::<K, V>(new_tip, parents);
    let h = els[0].0;
    assert(fetch::<K, V>(m2, els[0].0) == FetchModel::Got(els[0].1));
    if parents.len() == 0 {
        assert(els.len() == 1);
    } else {
        let last = parents.len() - 1;
        let (index, parent) = parents.last();
        assert(parents[last] == (index, parent));
        let ps1 = parents.drop_last();
        let adopted = adopt(parent, index, new_tip, h);
        let rest = spec_rehash::<K, V>(adopted, ps1)->Ok_0;
        assert(els == seq![(h, new_tip)] + rest);
        assert(!(parent is Leaf));
        assert(below(old_tip, parents, last) == old_tip);
        assert(parents_path(parents).len() == parents_path(ps1).len() + parent_step_len(parent));
        lemma_adopt_keeps_walk::<K, V>(
            m,
            m2,
            parent,
            index,
            old_tip,
            new_tip,
            h,
            path2,
            parents_path(ps1).len(),
            o,
        );
        lemma_fetch_chain_drop_last::<K, V>(m, old_tip, parents);
        assert forall|i: int| 0 <= i < ps1.len() implies !((#[trigger] ps1[i]).1 is Leaf) && (
        ps1[i].1 matches TrieModel::Node { pointer_block } ==> pointer_block.len() == 256) && (
        ps1[i].1 matches TrieModel::Extension { affix, .. } ==> affix.len() > 0) by {
            assert(ps1[i] == parents[i]);
        }
        assert forall|i: int| 0 <= i < rest.len() implies fetch::<K, V>(m2, (#[trigger] rest[i]).0)
            == FetchModel::Got(rest[i].1) by {
            assert(rest[i] == els[i + 1]);
        }
        lemma_rehash_keeps_walks::<K, V>(
            m,
            m2,
            parent,
            adopted,
            ps1,
            rest,
            path2,
            o,
        );
        assert(chain_top(parent, ps1) == chain_top(old_tip, parents)) by {
            if ps1.len() > 0 {
                assert(ps1[0] == parents[0]);
            }
        }
        assert(els.last() == rest.last());
    }
}

/// A chain without its last parent leads down to that parent.
proof fn lemma_fetch_chain_drop_last<K: FromBytes, V: FromBytes>(
    m: Map<Seq<u8>, Seq<u8>>,
    tip: TrieModel<K::V, V::V>,
    parents: ParentsModel<K::V, V::V>,
)
    requires
        parents.len() > 0,
        fetch_chain::<K, V>(m, tip, parents),
    ensures
        fetch_chain::<K, V>(m, parents.last().1, parents.drop_last()),
{
    let ps1 = parents.drop_last();
    let parent = parents.last().1;
    assert forall|i: int| 0 <= i < ps1.len() implies match (#[trigger] ps1[i]).1 {
        TrieModel::Node { pointer_block } => pointer_block[ps1[i].0 as int] matches Some(p)
            && fetch::<K, V>(m, p.hash()) == FetchModel::Got(below(parent, ps1, i)),
        TrieModel::Extension { pointer, .. } => fetch::<K, V>(m, pointer.hash()) == FetchModel::Got(
            below(parent, ps1, i),
        ),
        TrieModel::Leaf { .. } => true,
    } by {
        assert(ps1[i] == parents[i]);
        assert(parents[i] == parents[i]);
        if i + 1 < ps1.len() {
            assert(ps1[i + 1] == parents[i + 1]);
        }
        assert(below(parent, ps1, i) == below(tip, parents, i));
    }
}

/// The elements that the write puts below the parents where it turns a leaf
/// with another key into a node: an extension over the rest of the shared
/// path, where there is one, and the node that holds the old leaf.
spec fn reparent_below<KV, VV>(
    path: Seq<u8>,
    existing: Seq<u8>,
    d: nat,
    child_index: u8,
    leaf_pointer: PointerModel,
    node_hash: Seq<u8>,
) -> ParentsModel<KV, VV> {
    let shared = spec_common_prefix(path, existing);
    let s = shared.len() as int;
    let affix = shared.skip(d as int);
    let new_node = TrieModel::<KV, VV>::Node {
        pointer_block: block_from(seq![(existing[s], leaf_pointer)]),
    };
    if affix.len() == 0 {
        seq![(path[s], new_node)]
    } else {
        seq![
            (child_index, TrieModel::Extension { affix, pointer: PointerModel::NodePointer(node_hash) }),
            (path[s], new_node),
        ]
    }
}

/// Where the write turned a leaf with another key into a node (below an
/// extension over the rest of the shared path, where there is one): what a
/// walk found at that leaf it finds through the new elements.
proof fn lemma_reparent_keeps<K: FromBytes, V: FromBytes>(
    m: Map<Seq<u8>, Seq<u8>>,
    m2: Map<Seq<u8>, Seq<u8>>,
    leaf_key: K::V,
    leaf_value: V::V,
    leaf_pointer: PointerModel,
    path: Seq<u8>,
    path2: Seq<u8>,
    d: nat,
    child_index: u8,
    node_hash: Seq<u8>,
    new_leaf: TrieModel<K::V, V::V>,
    lower: Seq<(Seq<u8>, TrieModel<K::V, V::V>)>,
    o: Option<(K::V, V::V)>,
)
    requires
        new_leaf matches TrieModel::Leaf { key, .. } && K::spec_bytes(key) == path,
        path2 != path,
        o is None ==> path2.len() == path.len(),
        keeps_stored(m, m2),
        fetch::<K, V>(m, leaf_pointer.hash()) == FetchModel::<K::V, V::V>::Got(
            TrieModel::Leaf { key: leaf_key, value: leaf_value },
        ),
        d <= spec_common_prefix(path, K::spec_bytes(leaf_key)).len(),
        spec_common_prefix(path, K::spec_bytes(leaf_key)).len() < K::spec_bytes(leaf_key).len(),
        spec_common_prefix(path, K::spec_bytes(leaf_key)).len() < path.len(),
        spec_rehash::<K, V>(
            new_leaf,
            reparent_below(path, K::spec_bytes(leaf_key), d, child_index, leaf_pointer, node_hash),
        ) == Ok::<Seq<(Seq<u8>, TrieModel<K::V, V::V>)>, Error>(lower),
        forall|i: int|
            0 <= i < lower.len() ==> fetch::<K, V>(m2, (#[trigger] lower[i]).0) == FetchModel::Got(
                lower[i].1,
            ),
    ensures
        lower.len() > 0,
        keeps_finding::<K, V>(
            m,
            m2,
            TrieModel::Leaf { key: leaf_key, value: leaf_value },
            lower.last().1,
            path2,
            d,
            o,
        ),
{
    let leaf = TrieModel::<K::V, V::V>::Leaf { key: leaf_key, value: leaf_value };
    let ep = K::spec_bytes(leaf_key);
    lemma_common_prefix_props(path, ep);
    let shared = spec_common_prefix(path, ep);
    let s = shared.len() as int;
    let affix = shared.skip(d as int);
    let b = reparent_below::<K::V, V::V>(path, ep, d, child_index, leaf_pointer, node_hash);
    let new_node = TrieModel::<K::V, V::V>::Node {
        pointer_block: block_from(seq![(ep[s], leaf_pointer)]),
    };
    lemma_single_block(ep[s], leaf_pointer);
    let h0 = repr_hash(trie_bytes::<K, V>(new_leaf))->Ok_0;
    let n2 = adopt(new_node, path[s], new_leaf, h0);
    assert(b.last() == (path[s], new_node));
    let rest = spec_rehash::<K, V>(n2, b.drop_last())->Ok_0;
    assert(lower == seq![(h0, new_leaf)] + rest);
    crate::operations::lemma_rehash_hashed::<K, V>(n2, b.drop_last());
    assert(lower[1] == rest[0]);
    let h1 = rest[0].0;
    assert(fetch::<K, V>(m2, lower[1].0) == FetchModel::Got(lower[1].1));
    let ext = TrieModel::<K::V, V::V>::Extension {
        affix,
        pointer: PointerModel::NodePointer(node_hash),
    };
    let e2 = TrieModel::<K::V, V::V>::Extension { affix, pointer: PointerModel::NodePointer(h1) };
    if affix.len() == 0 {
        assert(b.drop_last() =~= Seq::<(u8, TrieModel<K::V, V::V>)>::empty());
        assert(rest.len() == 1);
        assert(lower.last() == rest[0]);
        assert(lower.last().1 == n2);
    } else {
        assert(b.drop_last() =~= seq![(child_index, ext)]);
        assert(b.drop_last().last() == (child_index, ext));
        assert(b.drop_last().drop_last() =~= Seq::<(u8, TrieModel<K::V, V::V>)>::empty());
        let rest2 = spec_rehash::<K, V>(adopt(ext, child_index, n2, h1), b.drop_last().drop_last())->Ok_0;
        assert(rest == seq![(h1, n2)] + rest2);
        assert(rest2.len() == 1);
        assert(lower.last() == rest2[0]);
        assert(repoint(PointerModel::NodePointer(node_hash), h1) == PointerModel::NodePointer(h1));
        assert(lower.last().1 == e2);
    }
    let pb2 = block_from(seq![(ep[s], leaf_pointer)]).update(
        path[s] as int,
        Some(pointer_to(new_leaf, h0)),
    );
    assert(n2 == TrieModel::<K::V, V::V>::Node { pointer_block: pb2 });
    assert(ep[s] != path[s]);
    assert(pb2[ep[s] as int] == Some(leaf_pointer));
    assert(pb2[path[s] as int] == Some(pointer_to(new_leaf, h0)));
    assert(pointer_to(new_leaf, h0).hash() == h0);
    assert(fetch::<K, V>(m2, lower[0].0) == FetchModel::Got(lower[0].1));
    if ends_as(walk::<K, V>(m, leaf, path2, d), o) {
        assert(m.contains_key(leaf_pointer.hash()));
        crate::other_keys::lemma_fetch_kept::<K, V>(m, m2, leaf_pointer.hash());
        assert(fetch::<K, V>(m2, leaf_pointer.hash()) == FetchModel::Got(leaf));
        if o is Some {
            assert(ep == path2);
            assert(s < path2.len() && path2[s] == ep[s]);
            assert(ends_as(walk::<K, V>(m2, leaf, path2, (s + 1) as nat), o));
            assert(ends_as(walk::<K, V>(m2, n2, path2, s as nat), o));
            if affix.len() > 0 {
                assert(path2.subrange(d as int, s) =~= affix);
            }
        } else {
            assert(ep != path2);
            assert(s < path2.len());
            let x = path2[s];
            if x == path[s] {
                assert(walk::<K, V>(m2, new_leaf, path2, (s + 1) as nat) is NotFound);
            } else if x == ep[s] {
                assert(walk::<K, V>(m2, leaf, path2, (s + 1) as nat) is NotFound);
            } else {
                assert(pb2[x as int] is None);
            }
            assert(walk::<K, V>(m2, n2, path2, s as nat) is NotFound);
        }
    }
}

/// The elements that the write puts below the parents where it splits an
/// extension that the path leaves: an extension over the shared part of
/// the affix, where there is one, and the node where the paths part.
spec fn split_below<KV, VV>(
    path: Seq<u8>,
    s: nat,
    index: u8,
    node_pointer: PointerModel,
    shared_affix: Seq<u8>,
    node_hash: Seq<u8>,
) -> ParentsModel<KV, VV> {
    let new_node = TrieModel::<KV, VV>::Node {
        pointer_block: block_from(seq![(index, node_pointer)]),
    };
    if shared_affix.len() == 0 {
        seq![(path[s as int], new_node)]
    } else {
        seq![
            (
                shared_affix[0],
                TrieModel::Extension {
                    affix: shared_affix,
                    pointer: PointerModel::NodePointer(node_hash),
                },
            ),
            (path[s as int], new_node),
        ]
    }
}

/// Where the write split an extension that the path leaves `s - d` bytes
/// into its affix: what a walk found through that extension it finds
/// through the new elements, which lead on to where the extension led.
#[verifier::rlimit(80)]
proof fn lemma_split_keeps<K: FromBytes, V: FromBytes>(
    m: Map<Seq<u8>, Seq<u8>>,
    m2: Map<Seq<u8>, Seq<u8>>,
    affix: Seq<u8>,
    pointer: PointerModel,
    path: Seq<u8>,
    path2: Seq<u8>,
    d: nat,
    s: nat,
    node_pointer: PointerModel,
    node_hash: Seq<u8>,
    new_leaf: TrieModel<K::V, V::V>,
    lower: Seq<(Seq<u8>, TrieModel<K::V, V::V>)>,
    o: Option<(K::V, V::V)>,
)
    requires
        new_leaf matches TrieModel::Leaf { key, .. } && K::spec_bytes(key) == path,
        path2 != path,
        o is None ==> path2.len() == path.len(),
        keeps_stored(m, m2),
        d <= s < d + affix.len(),
        s < path.len(),
        path[s as int] != affix[s - d],
        node_pointer == pointer && affix.len() == s - d + 1 || node_pointer
            == PointerModel::NodePointer(node_pointer.hash()) && affix.len() > s - d + 1 && fetch::<
            K,
            V,
        >(m2, node_pointer.hash()) == FetchModel::<K::V, V::V>::Got(
            TrieModel::Extension { affix: affix.skip(s - d + 1), pointer },
        ),
        spec_rehash::<K, V>(
            new_leaf,
            split_below(path, s, affix[s - d], node_pointer, affix.take(s - d), node_hash),
        ) == Ok::<Seq<(Seq<u8>, TrieModel<K::V, V::V>)>, Error>(lower),
        forall|i: int|
            0 <= i < lower.len() ==> fetch::<K, V>(m2, (#[trigger] lower[i]).0) == FetchModel::Got(
                lower[i].1,
            ),
    ensures
        lower.len() > 0,
        keeps_finding::<K, V>(
            m,
            m2,
            TrieModel::Extension { affix, pointer },
            lower.last().1,
            path2,
            d,
            o,
        ),
{
    let ext = TrieModel::<K::V, V::V>::Extension { affix, pointer };
    let index = affix[s - d];
    let pea = affix.take(s - d);
    let h0 = repr_hash(trie_bytes::<K, V>(new_leaf))->Ok_0;
    let n2 = adopt(
        TrieModel::Node { pointer_block: block_from(seq![(index, node_pointer)]) },
        path[s as int],
        new_leaf,
        h0,
    );
    lemma_split_lower_shape::<K, V>(
        m2,
        affix,
        pointer,
        path,
        s,
        d,
        node_pointer,
        node_hash,
        new_leaf,
        lower,
    );
    if ends_as(walk::<K, V>(m, ext, path2, d), o) {
        let end = d + affix.len();
        if path2.subrange(d as int, end as int) == affix {
            lemma_split_matched::<K, V>(
                m,
                m2,
                affix,
                pointer,
                path,
                path2,
                d,
                s,
                node_pointer,
                new_leaf,
                h0,
                o,
            );
        } else {
            lemma_split_mismatch::<K, V>(
                m2,
                affix,
                pointer,
                path,
                path2,
                d,
                s,
                node_pointer,
                new_leaf,
                h0,
            );
        }
        if s > d {
            assert(s <= path2.len());
            if path2.subrange(d as int, end as int) == affix {
                assert(path2.subrange(d as int, s as int) =~= pea);
            } else {
                assert(o is None);
            }
            assert(PointerModel::NodePointer(lower[1].0).hash() == lower[1].0);
            if path2.subrange(d as int, s as int) == pea {
                assert(ends_as(walk::<K, V>(m2, n2, path2, s), o));
            }
            assert(ends_as(walk::<K, V>(m2, lower.last().1, path2, d), o));
        } else {
            assert(path2.subrange(d as int, s as int) =~= pea);
            assert(ends_as(walk::<K, V>(m2, n2, path2, s), o));
        }
    }
}

/// See [`lemma_split_keeps`]: the new elements that the rehash below the
/// parents puts first, and what the last of them is.
proof fn lemma_split_lower_shape<K: FromBytes, V: FromBytes>(
    m2: Map<Seq<u8>, Seq<u8>>,
    affix: Seq<u8>,
    pointer: PointerModel,
    path: Seq<u8>,
    s: nat,
    d: nat,
    node_pointer: PointerModel,
    node_hash: Seq<u8>,
    new_leaf: TrieModel<K::V, V::V>,
    lower: Seq<(Seq<u8>, TrieModel<K::V, V::V>)>,
)
    requires
        d <= s < d + affix.len(),
        spec_rehash::<K, V>(
            new_leaf,
            split_below(path, s, affix[s - d], node_pointer, affix.take(s - d), node_hash),
        ) == Ok::<Seq<(Seq<u8>, TrieModel<K::V, V::V>)>, Error>(lower),
        forall|i: int|
            0 <= i < lower.len() ==> fetch::<K, V>(m2, (#[trigger] lower[i]).0) == FetchModel::Got(
                lower[i].1,
            ),
    ensures
        ({
            let h0 = repr_hash(trie_bytes::<K, V>(new_leaf))->Ok_0;
            let n2 = adopt(
                TrieModel::Node { pointer_block: block_from(seq![(affix[s - d], node_pointer)]) },
                path[s as int],
                new_leaf,
                h0,
            );
            &&& lower.len() > 1
            &&& fetch::<K, V>(m2, h0) == FetchModel::<K::V, V::V>::Got(new_leaf)
            &&& fetch::<K, V>(m2, lower[1].0) == FetchModel::<K::V, V::V>::Got(n2)
            &&& if s == d {
                lower.last().1 == n2
            } else {
                lower.last().1 == (TrieModel::<K::V, V::V>::Extension {
                    affix: affix.take(s - d),
                    pointer: PointerModel::NodePointer(lower[1].0),
                })
            }
        }),
{
    let index = affix[s - d];
    let pea = affix.take(s - d);
    let b = split_below::<K::V, V::V>(path, s, index, node_pointer, pea, node_hash);
    let new_node = TrieModel::<K::V, V::V>::Node {
        pointer_block: block_from(seq![(index, node_pointer)]),
    };
    let h0 = repr_hash(trie_bytes::<K, V>(new_leaf))->Ok_0;
    let n2 = adopt(new_node, path[s as int], new_leaf, h0);
    assert(b.last() == (path[s as int], new_node));
    let rest = spec_rehash::<K, V>(n2, b.drop_last())->Ok_0;
    assert(lower == seq![(h0, new_leaf)] + rest);
    crate::operations::lemma_rehash_hashed::<K, V>(n2, b.drop_last());
    assert(lower[1] == rest[0]);
    let h1 = rest[0].0;
    assert(fetch::<K, V>(m2, lower[1].0) == FetchModel::Got(lower[1].1));
    assert(fetch::<K, V>(m2, lower[0].0) == FetchModel::Got(lower[0].1));
    let pext = TrieModel::<K::V, V::V>::Extension {
        affix: pea,
        pointer: PointerModel::NodePointer(node_hash),
    };
    if pea.len() == 0 {
        assert(b.drop_last() =~= Seq::<(u8, TrieModel<K::V, V::V>)>::empty());
        assert(rest.len() == 1);
        assert(lower.last() == rest[0]);
    } else {
        assert(b.drop_last() =~= seq![(pea[0], pext)]);
        assert(b.drop_last().last() == (pea[0], pext));
        assert(b.drop_last().drop_last() =~= Seq::<(u8, TrieModel<K::V, V::V>)>::empty());
        let rest2 = spec_rehash::<K, V>(adopt(pext, pea[0], n2, h1), b.drop_last().drop_last())->Ok_0;
        assert(rest == seq![(h1, n2)] + rest2);
        assert(rest2.len() == 1);
        assert(lower.last() == rest2[0]);
        assert(repoint(PointerModel::NodePointer(node_hash), h1) == PointerModel::NodePointer(h1));
    }
}

/// See [`lemma_split_keeps`]: where the path follows the old extension's
/// affix, the new node leads it on, through the child extension where there
/// is one, to where the old extension led.
proof fn lemma_split_matched<K: FromBytes, V: FromBytes>(
    m: Map<Seq<u8>, Seq<u8>>,
    m2: Map<Seq<u8>, Seq<u8>>,
    affix: Seq<u8>,
    pointer: PointerModel,
    path: Seq<u8>,
    path2: Seq<u8>,
    d: nat,
    s: nat,
    node_pointer: PointerModel,
    new_leaf: TrieModel<K::V, V::V>,
    h0: Seq<u8>,
    o: Option<(K::V, V::V)>,
)
    requires
        keeps_stored(m, m2),
        d <= s < d + affix.len(),
        s < path.len(),
        path[s as int] != affix[s - d],
        node_pointer == pointer && affix.len() == s - d + 1 || node_pointer
            == PointerModel::NodePointer(node_pointer.hash()) && affix.len() > s - d + 1 && fetch::<
            K,
            V,
        >(m2, node_pointer.hash()) == FetchModel::<K::V, V::V>::Got(
            TrieModel::Extension { affix: affix.skip(s - d + 1), pointer },
        ),
        ends_as(walk::<K, V>(m, TrieModel::Extension { affix, pointer }, path2, d), o),
        path2.subrange(d as int, (d + affix.len()) as int) == affix,
    ensures
        ends_as(
            walk::<K, V>(
                m2,
                adopt(
                    TrieModel::Node {
                        pointer_block: block_from(seq![(affix[s - d], node_pointer)]),
                    },
                    path[s as int],
                    new_leaf,
                    h0,
                ),
                path2,
                s,
            ),
            o,
        ),
{
    let index = affix[s - d];
    let end = d + affix.len();
    lemma_single_block(index, node_pointer);
    let pb2 = block_from(seq![(index, node_pointer)]).update(
        path[s as int] as int,
        Some(pointer_to(new_leaf, h0)),
    );
    assert(adopt(
        TrieModel::<K::V, V::V>::Node { pointer_block: block_from(seq![(index, node_pointer)]) },
        path[s as int],
        new_leaf,
        h0,
    ) == TrieModel::<K::V, V::V>::Node { pointer_block: pb2 });
    assert(pb2[index as int] == Some(node_pointer));
    let c = fetch::<K, V>(m, pointer.hash())->Got_0;
    assert(m.contains_key(pointer.hash()));
    lemma_fetch_kept::<K, V>(m, m2, pointer.hash());
    lemma_walk_kept::<K, V>(m, m2, c, path2, end, empty_run_limit());
    assert(ends_as(walk::<K, V>(m2, c, path2, end), o));
    assert(path2[s as int] == path2.subrange(d as int, end as int)[s - d]);
    if !(node_pointer == pointer && affix.len() == s - d + 1) {
        let cea = affix.skip(s - d + 1);
        assert(path2.subrange((s + 1) as int, end as int) =~= cea);
        assert(ends_as(
            walk::<K, V>(m2, TrieModel::Extension { affix: cea, pointer }, path2, s + 1),
            o,
        ));
    }
}

/// See [`lemma_split_keeps`]: where the path leaves the old extension's
/// affix, it finds no leaf at the new node, unless it leaves before it.
proof fn lemma_split_mismatch<K: FromBytes, V: FromBytes>(
    m2: Map<Seq<u8>, Seq<u8>>,
    affix: Seq<u8>,
    pointer: PointerModel,
    path: Seq<u8>,
    path2: Seq<u8>,
    d: nat,
    s: nat,
    node_pointer: PointerModel,
    new_leaf: TrieModel<K::V, V::V>,
    h0: Seq<u8>,
)
    requires
        path2 != path,
        new_leaf matches TrieModel::Leaf { key, .. } && K::spec_bytes(key) == path,
        fetch::<K, V>(m2, h0) == FetchModel::<K::V, V::V>::Got(new_leaf),
        d <= s < d + affix.len(),
        d + affix.len() <= path2.len(),
        path2.subrange(d as int, (d + affix.len()) as int) != affix,
        s < path.len(),
        path[s as int] != affix[s - d],
        node_pointer == pointer && affix.len() == s - d + 1 || node_pointer
            == PointerModel::NodePointer(node_pointer.hash()) && affix.len() > s - d + 1 && fetch::<
            K,
            V,
        >(m2, node_pointer.hash()) == FetchModel::<K::V, V::V>::Got(
            TrieModel::Extension { affix: affix.skip(s - d + 1), pointer },
        ),
    ensures
        path2.subrange(d as int, s as int) == affix.take(s - d) ==> walk::<K, V>(
            m2,
            adopt(
                TrieModel::Node {
                    pointer_block: block_from(seq![(affix[s - d], node_pointer)]),
                },
                path[s as int],
                new_leaf,
                h0,
            ),
            path2,
            s,
        ) is NotFound,
{
    let index = affix[s - d];
    let end = d + affix.len();
    lemma_single_block(index, node_pointer);
    let pb2 = block_from(seq![(index, node_pointer)]).update(
        path[s as int] as int,
        Some(pointer_to(new_leaf, h0)),
    );
    assert(adopt(
        TrieModel::<K::V, V::V>::Node { pointer_block: block_from(seq![(index, node_pointer)]) },
        path[s as int],
        new_leaf,
        h0,
    ) == TrieModel::<K::V, V::V>::Node { pointer_block: pb2 });
    if path2.subrange(d as int, s as int) == affix.take(s - d) {
        let x = path2[s as int];
        assert(s < path2.len());
        assert(pointer_to(new_leaf, h0).hash() == h0);
        if x == path[s as int] {
            assert(pb2[x as int] == Some(pointer_to(new_leaf, h0)));
            assert(walk::<K, V>(m2, new_leaf, path2, s + 1) is NotFound);
        } else if x == index {
            assert(pb2[x as int] == Some(node_pointer));
            if node_pointer == pointer && affix.len() == s - d + 1 {
                assert(path2.subrange(d as int, end as int) =~= affix) by {
                    assert forall|j: int| 0 <= j < affix.len() implies path2.subrange(
                        d as int,
                        end as int,
                    )[j] == affix[j] by {
                        if j < s - d {
                            assert(path2.subrange(d as int, s as int)[j] == affix.take(s - d)[j]);
                        }
                    }
                }
            } else {
                let cea = affix.skip(s - d + 1);
                assert(s + 1 + cea.len() == end);
                assert(walk::<K, V>(
                    m2,
                    TrieModel::Extension { affix: cea, pointer },
                    path2,
                    s + 1,
                ) is NotFound) by {
                    if path2.subrange((s + 1) as int, end as int) == cea {
                        assert(false) by {
                            assert(path2.subrange(d as int, end as int) =~= affix) by {
                                assert forall|j: int| 0 <= j < affix.len() implies path2.subrange(
                                    d as int,
                                    end as int,
                                )[j] == affix[j] by {
                                    if j < s - d {
                                        assert(path2.subrange(d as int, s as int)[j] == affix.take(
                                            s - d,
                                        )[j]);
                                    } else if j > s - d {
                                        assert(path2.subrange((s + 1) as int, end as int)[j - (s - d)
                                            - 1] == cea[j - (s - d) - 1]);
                                    }
                                }
                            }
                        }
                    }
                }
                if path2.subrange((s + 1) as int, end as int) == cea {
                    assert(path2.subrange(d as int, end as int) =~= affix) by {
                        assert forall|j: int| 0 <= j < affix.len() implies path2.subrange(
                            d as int,
                            end as int,
                        )[j] == affix[j] by {
                            if j < s - d {
                                assert(path2.subrange(d as int, s as int)[j] == affix.take(s - d)[j]);
                            } else if j > s - d {
                                assert(path2.subrange((s + 1) as int, end as int)[j - (s - d) - 1]
                                    == cea[j - (s - d) - 1]);
                            }
                        }
                    }
                }
            }
        } else {
            assert(pb2[x as int] is None);
        }
    }
}

/// The elements of the two parts of a split rehash are among its elements.
proof fn lemma_join_fetchable<K: FromBytes, V: FromBytes>(
    m2: Map<Seq<u8>, Seq<u8>>,
    lower: Seq<(Seq<u8>, TrieModel<K::V, V::V>)>,
    upper: Seq<(Seq<u8>, TrieModel<K::V, V::V>)>,
    els: Seq<(Seq<u8>, TrieModel<K::V, V::V>)>,
)
    requires
        lower.len() > 0,
        upper.len() > 0,
        upper[0] == lower.last(),
        els == lower.drop_last() + upper,
        forall|i: int|
            0 <= i < els.len() ==> fetch::<K, V>(m2, (#[trigger] els[i]).0) == FetchModel::Got(
                els[i].1,
            ),
    ensures
        forall|i: int|
            0 <= i < lower.len() ==> fetch::<K, V>(m2, (#[trigger] lower[i]).0) == FetchModel::Got(
                lower[i].1,
            ),
        forall|i: int|
            0 <= i < upper.len() ==> fetch::<K, V>(m2, (#[trigger] upper[i]).0) == FetchModel::Got(
                upper[i].1,
            ),
        els.last() == upper.last(),
{
    let n = lower.len() - 1;
    assert forall|i: int| 0 <= i < lower.len() implies fetch::<K, V>(m2, (#[trigger] lower[i]).0)
        == FetchModel::Got(lower[i].1) by {
        if i < n {
            assert(lower[i] == els[i]);
        } else {
            assert(lower[i] == upper[0]);
            assert(els[n] == upper[0]);
        }
    }
    assert forall|i: int| 0 <= i < upper.len() implies fetch::<K, V>(m2, (#[trigger] upper[i]).0)
        == FetchModel::Got(upper[i].1) by {
        assert(els[n + i] == upper[i]);
    }
}

/// A write that put a new leaf in place of the leaf with its key: other
/// keys read through the new chain what they read before.
proof fn lemma_others_after_same_leaf<K: FromBytes, V: FromBytes>(
    m: Map<Seq<u8>, Seq<u8>>,
    m2: Map<Seq<u8>, Seq<u8>>,
    tip: TrieModel<K::V, V::V>,
    parents: ParentsModel<K::V, V::V>,
    new_leaf: TrieModel<K::V, V::V>,
    els: Seq<(Seq<u8>, TrieModel<K::V, V::V>)>,
    path: Seq<u8>,
    path2: Seq<u8>,
    o: Option<(K::V, V::V)>,
)
    requires
        crate::operations::extensions_nonempty(parents),
        new_leaf matches TrieModel::Leaf { key, .. } && K::spec_bytes(key) == path,
        keeps_stored(m, m2),
        fetch_chain::<K, V>(m, tip, parents),
        scan_facts(path, 0, tip, parents),
        tip matches TrieModel::Leaf { key, .. } && K::spec_bytes(key) == path,
        path2 != path,
        spec_rehash::<K, V>(new_leaf, parents) == Ok::<Seq<(Seq<u8>, TrieModel<K::V, V::V>)>, Error>(
            els,
        ),
        forall|i: int|
            0 <= i < els.len() ==> fetch::<K, V>(m2, (#[trigger] els[i]).0) == FetchModel::Got(
                els[i].1,
            ),
    ensures
        els.len() > 0,
        keeps_finding::<K, V>(m, m2, chain_top(tip, parents), els.last().1, path2, 0, o),
{
    lemma_rehash_keeps_walks::<K, V>(m, m2, tip, new_leaf, parents, els, path2, o);
}

/// A write that hung the new leaf from the node that the scan ended at:
/// other keys read through the new chain what they read before.
proof fn lemma_others_after_node<K: FromBytes, V: FromBytes>(
    m: Map<Seq<u8>, Seq<u8>>,
    m2: Map<Seq<u8>, Seq<u8>>,
    tip: TrieModel<K::V, V::V>,
    parents: ParentsModel<K::V, V::V>,
    new_leaf: TrieModel<K::V, V::V>,
    els: Seq<(Seq<u8>, TrieModel<K::V, V::V>)>,
    path: Seq<u8>,
    path2: Seq<u8>,
    o: Option<(K::V, V::V)>,
)
    requires
        new_leaf matches TrieModel::Leaf { key, .. } && K::spec_bytes(key) == path,
        path2 != path,
        o is None ==> path2.len() == path.len(),
        keeps_stored(m, m2),
        fetch_chain::<K, V>(m, tip, parents),
        no_leaf_parents(parents),
        nodes_full(parents),
        crate::operations::extensions_nonempty(parents),
        parents_path(parents).len() < path.len(),
        tip matches TrieModel::Node { pointer_block } && pointer_block.len() == 256
            && pointer_block[path[parents_path(parents).len() as int] as int] is None,
        spec_rehash::<K, V>(new_leaf, with_node(path, parents, tip)) == Ok::<
            Seq<(Seq<u8>, TrieModel<K::V, V::V>)>,
            Error,
        >(els),
        forall|i: int|
            0 <= i < els.len() ==> fetch::<K, V>(m2, (#[trigger] els[i]).0) == FetchModel::Got(
                els[i].1,
            ),
    ensures
        els.len() > 0,
        keeps_finding::<K, V>(m, m2, chain_top(tip, parents), els.last().1, path2, 0, o),
{
    let d = parents_path(parents).len();
    let b = seq![(path[d as int], tip)];
    assert(with_node(path, parents, tip) == parents + b);
    lemma_rehash_split::<K, V>(new_leaf, parents, b);
    let lower = spec_rehash::<K, V>(new_leaf, b)->Ok_0;
    let upper = spec_rehash::<K, V>(lower.last().1, parents)->Ok_0;
    lemma_join_fetchable::<K, V>(m2, lower, upper, els);
    lemma_rehash_one::<K, V>(new_leaf, path[d as int], tip);
    let h0 = repr_hash(trie_bytes::<K, V>(new_leaf))->Ok_0;
    let n2 = adopt(tip, path[d as int], new_leaf, h0);
    assert(fetch::<K, V>(m2, lower[0].0) == FetchModel::Got(lower[0].1));
    lemma_adopt_keeps_walk::<K, V>(m, m2, tip, path[d as int], tip, new_leaf, h0, path2, d, o);
    assert(lower.last().1 == n2);
    lemma_rehash_keeps_walks::<K, V>(m, m2, tip, n2, parents, upper, path2, o);
}

/// The rehash below one parent: the tip, then the parent made to point at it.
proof fn lemma_rehash_one<K: FromBytes, V: FromBytes>(
    tip: TrieModel<K::V, V::V>,
    index: u8,
    parent: TrieModel<K::V, V::V>,
)
    ensures
        spec_rehash::<K, V>(tip, seq![(index, parent)]) matches Ok(els) ==> {
            &&& els.len() == 2
            &&& els[0] == (repr_hash(trie_bytes::<K, V>(tip))->Ok_0, tip)
            &&& els[1].1 == adopt(parent, index, tip, repr_hash(trie_bytes::<K, V>(tip))->Ok_0)
            &&& els.last() == els[1]
        },
{
    let b = seq![(index, parent)];
    assert(b.last() == (index, parent));
    assert(b.drop_last() =~= Seq::<(u8, TrieModel<K::V, V::V>)>::empty());
    if let Ok(els) = spec_rehash::<K, V>(tip, b) {
        let h0 = repr_hash(trie_bytes::<K, V>(tip))->Ok_0;
        let adopted = adopt(parent, index, tip, h0);
        let rest = spec_rehash::<K, V>(adopted, b.drop_last())->Ok_0;
        assert(els == seq![(h0, tip)] + rest);
        assert(rest == seq![(repr_hash(trie_bytes::<K, V>(adopted))->Ok_0, adopted)]);
        assert(els[1] == rest[0]);
    }
}

/// A write that turned the leaf that the scan ended at, which has another
/// key, into a node for both leaves: other keys read through the new chain
/// what they read before.
proof fn lemma_others_after_reparent<K: FromBytes, V: FromBytes>(
    m: Map<Seq<u8>, Seq<u8>>,
    m2: Map<Seq<u8>, Seq<u8>>,
    leaf_key: K::V,
    leaf_value: V::V,
    parents: ParentsModel<K::V, V::V>,
    new_node: TrieModel<K::V, V::V>,
    ps: ParentsModel<K::V, V::V>,
    new_leaf: TrieModel<K::V, V::V>,
    els: Seq<(Seq<u8>, TrieModel<K::V, V::V>)>,
    path: Seq<u8>,
    path2: Seq<u8>,
    o: Option<(K::V, V::V)>,
)
    requires
        new_leaf matches TrieModel::Leaf { key, .. } && K::spec_bytes(key) == path,
        path2 != path,
        o is None ==> path2.len() == path.len(),
        keeps_stored(m, m2),
        fetch_chain::<K, V>(m, TrieModel::Leaf { key: leaf_key, value: leaf_value }, parents),
        no_leaf_parents(parents),
        nodes_full(parents),
        crate::operations::extensions_nonempty(parents),
        starts_with(path, parents_path(parents)),
        crate::operations::reparent_fits(path, K::spec_bytes(leaf_key), parents),
        spec_reparent_leaf::<K, V>(path, K::spec_bytes(leaf_key), parents) == Ok::<
            (TrieModel<K::V, V::V>, ParentsModel<K::V, V::V>),
            Error,
        >((new_node, ps)),
        spec_rehash::<K, V>(new_leaf, with_node(path, ps, new_node)) == Ok::<
            Seq<(Seq<u8>, TrieModel<K::V, V::V>)>,
            Error,
        >(els),
        forall|i: int|
            0 <= i < els.len() ==> fetch::<K, V>(m2, (#[trigger] els[i]).0) == FetchModel::Got(
                els[i].1,
            ),
    ensures
        els.len() > 0,
        keeps_finding::<K, V>(
            m,
            m2,
            chain_top(TrieModel::Leaf { key: leaf_key, value: leaf_value }, parents),
            els.last().1,
            path2,
            0,
            o,
        ),
{
    let tip = TrieModel::<K::V, V::V>::Leaf { key: leaf_key, value: leaf_value };
    let ep = K::spec_bytes(leaf_key);
    crate::operations::lemma_reparent_parents::<K, V>(path, ep, parents);
    let shared = spec_common_prefix(path, ep);
    let s = shared.len() as int;
    let d = parents_path(parents).len();
    let affix = shared.skip(d as int);
    let ci = parents.last().0;
    let lp = parents.last().1->Node_pointer_block[ci as int].unwrap();
    lemma_chain_last::<K, V>(m, tip, parents);
    let hn = repr_hash(trie_bytes::<K, V>(new_node))->Ok_0;
    let b = reparent_below::<K::V, V::V>(path, ep, d, ci, lp, hn);
    lemma_reparent_shape::<K, V>(path, ep, parents, new_node, ps);
    lemma_rehash_split::<K, V>(new_leaf, parents, b);
    let lower = spec_rehash::<K, V>(new_leaf, b)->Ok_0;
    let upper = spec_rehash::<K, V>(lower.last().1, parents)->Ok_0;
    lemma_join_fetchable::<K, V>(m2, lower, upper, els);
    lemma_reparent_keeps::<K, V>(
        m,
        m2,
        leaf_key,
        leaf_value,
        lp,
        path,
        path2,
        d,
        ci,
        hn,
        new_leaf,
        lower,
        o,
    );
    lemma_rehash_keeps_walks::<K, V>(m, m2, tip, lower.last().1, parents, upper, path2, o);
}

/// The last parent of a chain leads to its tip.
proof fn lemma_chain_last<K: FromBytes, V: FromBytes>(
    m: Map<Seq<u8>, Seq<u8>>,
    tip: TrieModel<K::V, V::V>,
    parents: ParentsModel<K::V, V::V>,
)
    requires
        parents.len() > 0,
        fetch_chain::<K, V>(m, tip, parents),
    ensures
        parents.last().1 matches TrieModel::Node { pointer_block } ==> pointer_block[parents.last().0 as int] matches Some(
            p,
        ) && fetch::<K, V>(m, p.hash()) == FetchModel::Got(tip),
        parents.last().1 matches TrieModel::Extension { pointer, .. } ==> fetch::<K, V>(
            m,
            pointer.hash(),
        ) == FetchModel::Got(tip),
{
    let last = parents.len() - 1;
    assert(parents[last] == parents.last());
    assert(below(tip, parents, last) == tip);
}

/// The parents that a reparenting leaves, with the new node below them, are
/// the old parents with the elements of [`reparent_below`] below them.
proof fn lemma_reparent_shape<K: FromBytes, V: FromBytes>(
    path: Seq<u8>,
    ep: Seq<u8>,
    parents: ParentsModel<K::V, V::V>,
    new_node: TrieModel<K::V, V::V>,
    ps: ParentsModel<K::V, V::V>,
)
    requires
        no_leaf_parents(parents),
        nodes_full(parents),
        crate::operations::extensions_nonempty(parents),
        starts_with(path, parents_path(parents)),
        crate::operations::reparent_fits(path, ep, parents),
        spec_reparent_leaf::<K, V>(path, ep, parents) == Ok::<
            (TrieModel<K::V, V::V>, ParentsModel<K::V, V::V>),
            Error,
        >((new_node, ps)),
    ensures
        with_node(path, ps, new_node) == parents + reparent_below::<K::V, V::V>(
            path,
            ep,
            parents_path(parents).len(),
            parents.last().0,
            parents.last().1->Node_pointer_block[parents.last().0 as int].unwrap(),
            repr_hash(trie_bytes::<K, V>(new_node))->Ok_0,
        ),
{
    crate::operations::lemma_reparent_parents::<K, V>(path, ep, parents);
    let shared = spec_common_prefix(path, ep);
    let d = parents_path(parents).len();
    let affix = shared.skip(d as int);
    let b = reparent_below::<K::V, V::V>(
        path,
        ep,
        d,
        parents.last().0,
        parents.last().1->Node_pointer_block[parents.last().0 as int].unwrap(),
        repr_hash(trie_bytes::<K, V>(new_node))->Ok_0,
    );
    assert(with_node(path, ps, new_node) =~= parents + b) by {
        if affix.len() > 0 {
            assert(ps.drop_last() =~= parents);
        }
    }
}

/// The pointer that a split's new node holds for the old extension's side:
/// to the child extension, where there is one, else the old pointer.
spec fn split_node_pointer<KV, VV>(split: SplitModel<KV, VV>, pointer: PointerModel) -> PointerModel {
    match split.maybe_hashed_child_extension {
        Some((h, _)) => PointerModel::NodePointer(h),
        None => pointer,
    }
}

/// The parents that a split leaves, with the new node below them, are the
/// old parents with the elements of [`split_below`] below them; the child
/// extension, where there is one, holds the rest of the affix.
proof fn lemma_split_shape<K: FromBytes, V: FromBytes>(
    path: Seq<u8>,
    affix: Seq<u8>,
    pointer: PointerModel,
    parents: ParentsModel<K::V, V::V>,
    split: SplitModel<K::V, V::V>,
)
    requires
        ({
            let pp = parents_path(parents);
            let shared = spec_common_prefix(path, pp + affix);
            pp.len() <= shared.len() < pp.len() + affix.len()
        }),
        crate::operations::pp_fits(path, parents_path(parents), affix),
        starts_with(path, parents_path(parents)),
        no_leaf_parents(parents),
        crate::operations::extensions_nonempty(parents),
        nodes_full(parents),
        spec_split_extension::<K, V>(path, affix, pointer, parents) == Ok::<
            SplitModel<K::V, V::V>,
            Error,
        >(split),
    ensures
        ({
            let d = parents_path(parents).len();
            let s = spec_common_prefix(path, parents_path(parents) + affix).len();
            &&& s < path.len()
            &&& path[s as int] != affix[s - d]
            &&& with_node(path, split.parents, split.new_node) == parents + split_below::<
                K::V,
                V::V,
            >(
                path,
                s,
                affix[s - d],
                split_node_pointer(split, pointer),
                affix.take(s - d),
                repr_hash(trie_bytes::<K, V>(split.new_node))->Ok_0,
            )
            &&& match split.maybe_hashed_child_extension {
                None => affix.len() == s - d + 1,
                Some((h, c)) => affix.len() > s - d + 1 && c == TrieModel::<K::V, V::V>::Extension {
                    affix: affix.skip(s - d + 1),
                    pointer,
                },
            }
        }),
{
    crate::operations::lemma_split_parents::<K, V>(path, affix, pointer, parents);
    let pp = parents_path(parents);
    let d = pp.len();
    let ext_path = pp + affix;
    lemma_common_prefix_props(path, ext_path);
    let shared = spec_common_prefix(path, ext_path);
    let s = shared.len();
    let pea = shared.skip(d as int);
    assert(pea =~= affix.take(s - d));
    assert(ext_path[s as int] == affix[s - d]);
    let b = split_below::<K::V, V::V>(
        path,
        s,
        affix[s - d],
        split_node_pointer(split, pointer),
        affix.take(s - d),
        repr_hash(trie_bytes::<K, V>(split.new_node))->Ok_0,
    );
    assert(with_node(path, split.parents, split.new_node) =~= parents + b) by {
        if pea.len() > 0 {
            assert(split.parents.drop_last() =~= parents);
        }
    }
}

/// A write that split the extension that the scan ended at: other keys
/// read through the new chain what they read before.
#[verifier::rlimit(30)]
proof fn lemma_others_after_split<K: FromBytes, V: FromBytes>(
    m: Map<Seq<u8>, Seq<u8>>,
    m2: Map<Seq<u8>, Seq<u8>>,
    affix: Seq<u8>,
    pointer: PointerModel,
    parents: ParentsModel<K::V, V::V>,
    split: SplitModel<K::V, V::V>,
    new_leaf: TrieModel<K::V, V::V>,
    rels: Seq<(Seq<u8>, TrieModel<K::V, V::V>)>,
    els: Seq<(Seq<u8>, TrieModel<K::V, V::V>)>,
    path: Seq<u8>,
    path2: Seq<u8>,
    o: Option<(K::V, V::V)>,
)
    requires
        new_leaf matches TrieModel::Leaf { key, .. } && K::spec_bytes(key) == path,
        path2 != path,
        o is None ==> path2.len() == path.len(),
        keeps_stored(m, m2),
        fetch_chain::<K, V>(m, TrieModel::Extension { affix, pointer }, parents),
        ({
            let pp = parents_path(parents);
            let shared = spec_common_prefix(path, pp + affix);
            pp.len() <= shared.len() < pp.len() + affix.len()
        }),
        crate::operations::pp_fits(path, parents_path(parents), affix),
        starts_with(path, parents_path(parents)),
        no_leaf_parents(parents),
        crate::operations::extensions_nonempty(parents),
        nodes_full(parents),
        spec_split_extension::<K, V>(path, affix, pointer, parents) == Ok::<
            SplitModel<K::V, V::V>,
            Error,
        >(split),
        spec_rehash::<K, V>(new_leaf, with_node(path, split.parents, split.new_node)) == Ok::<
            Seq<(Seq<u8>, TrieModel<K::V, V::V>)>,
            Error,
        >(rels),
        els == match split.maybe_hashed_child_extension {
            Some(c) => seq![c] + rels,
            None => rels,
        },
        forall|i: int|
            0 <= i < els.len() ==> fetch::<K, V>(m2, (#[trigger] els[i]).0) == FetchModel::Got(
                els[i].1,
            ),
    ensures
        els.len() > 0,
        keeps_finding::<K, V>(
            m,
            m2,
            chain_top(TrieModel::Extension { affix, pointer }, parents),
            els.last().1,
            path2,
            0,
            o,
        ),
{
    let tip = TrieModel::<K::V, V::V>::Extension { affix, pointer };
    lemma_split_shape::<K, V>(path, affix, pointer, parents, split);
    let d = parents_path(parents).len();
    let s = spec_common_prefix(path, parents_path(parents) + affix).len();
    let np = split_node_pointer(split, pointer);
    let nh = repr_hash(trie_bytes::<K, V>(split.new_node))->Ok_0;
    let b = split_below::<K::V, V::V>(path, s, affix[s - d], np, affix.take(s - d), nh);
    if let Some(c) = split.maybe_hashed_child_extension {
        assert(els[0] == c);
        assert(fetch::<K, V>(m2, els[0].0) == FetchModel::Got(els[0].1));
        assert forall|i: int| 0 <= i < rels.len() implies fetch::<K, V>(m2, (#[trigger] rels[i]).0)
            == FetchModel::Got(rels[i].1) by {
            assert(rels[i] == els[i + 1]);
        }
        assert(els.last() == rels.last());
    }
    lemma_rehash_split::<K, V>(new_leaf, parents, b);
    let lower = spec_rehash::<K, V>(new_leaf, b)->Ok_0;
    let upper = spec_rehash::<K, V>(lower.last().1, parents)->Ok_0;
    lemma_join_fetchable::<K, V>(m2, lower, upper, rels);
    lemma_split_keeps::<K, V>(
        m,
        m2,
        affix,
        pointer,
        path,
        path2,
        d,
        s,
        np,
        nh,
        new_leaf,
        lower,
        o,
    );
    lemma_rehash_keeps_walks::<K, V>(m, m2, tip, lower.last().1, parents, upper, path2, o);
}

/// After a write, where the new elements can be fetched under their hashes
/// and what was stored stays: a key with another representation reads from
/// the new root the entry it read from the old one; where it read no entry
/// and its representation is as long as the written key's, it reads none.
#[verifier::spinoff_prover]
#[verifier::rlimit(50)]
pub(crate) proof fn lemma_write_keeps_others<K: FromBytes, V: FromBytes>(
    m: Map<Seq<u8>, Seq<u8>>,
    root: Seq<u8>,
    key: K::V,
    value: V::V,
    els: Seq<(Seq<u8>, TrieModel<K::V, V::V>)>,
    m2: Map<Seq<u8>, Seq<u8>>,
    key2: K::V,
)
    requires
        crate::operations::scan_extensions_nonempty::<K, V>(m, root, key),
        write_defined::<K, V>(m, root, key),
        spec_write::<K, V>(m, root, key, value) == Ok::<WriteModel<K::V, V::V>, Error>(
            WriteModel::Written(els),
        ),
        keeps_stored(m, m2),
        forall|i: int|
            0 <= i < els.len() ==> fetch::<K, V>(m2, (#[trigger] els[i]).0) == FetchModel::Got(
                els[i].1,
            ),
        K::spec_bytes(key2) != K::spec_bytes(key),
    ensures
        els.len() > 0,
        spec_read::<K, V>(m, root, key2) matches WalkModel::Found { key: k, value: v, .. }
            ==> finds(spec_read::<K, V>(m2, els.last().0, key2), k, v),
        spec_read::<K, V>(m, root, key2) is NotFound && K::spec_bytes(key2).len()
            == K::spec_bytes(key).len() ==> spec_read::<K, V>(m2, els.last().0, key2) is NotFound,
{
    crate::operations::lemma_write_hashed::<K, V>(m, root, key, value);
    if let WalkModel::Found { key: k2, value: v2, .. } = spec_read::<K, V>(m, root, key2) {
        lemma_write_keeps_outcome::<K, V>(m, root, key, value, els, m2, key2, Some((k2, v2)));
    }
    if spec_read::<K, V>(m, root, key2) is NotFound && K::spec_bytes(key2).len()
        == K::spec_bytes(key).len() {
        lemma_write_keeps_outcome::<K, V>(m, root, key, value, els, m2, key2, None);
    }
}

/// See [`lemma_write_keeps_others`], for a read that ends as `o` says.
#[verifier::spinoff_prover]
#[verifier::rlimit(50)]
proof fn lemma_write_keeps_outcome<K: FromBytes, V: FromBytes>(
    m: Map<Seq<u8>, Seq<u8>>,
    root: Seq<u8>,
    key: K::V,
    value: V::V,
    els: Seq<(Seq<u8>, TrieModel<K::V, V::V>)>,
    m2: Map<Seq<u8>, Seq<u8>>,
    key2: K::V,
    o: Option<(K::V, V::V)>,
)
    requires
        crate::operations::scan_extensions_nonempty::<K, V>(m, root, key),
        write_defined::<K, V>(m, root, key),
        spec_write::<K, V>(m, root, key, value) == Ok::<WriteModel<K::V, V::V>, Error>(
            WriteModel::Written(els),
        ),
        keeps_stored(m, m2),
        forall|i: int|
            0 <= i < els.len() ==> fetch::<K, V>(m2, (#[trigger] els[i]).0) == FetchModel::Got(
                els[i].1,
            ),
        K::spec_bytes(key2) != K::spec_bytes(key),
        ends_as(spec_read::<K, V>(m, root, key2), o),
        o is None ==> K::spec_bytes(key2).len() == K::spec_bytes(key).len(),
    ensures
        els.len() > 0,
        ends_as(spec_read::<K, V>(m2, els.last().0, key2), o),
{
    crate::operations::lemma_write_hashed::<K, V>(m, root, key, value);
    let path = K::spec_bytes(key);
    let path2 = K::spec_bytes(key2);
    let new_leaf = TrieModel::<K::V, V::V>::Leaf { key, value };
    let t = fetch::<K, V>(m, root)->Got_0;
    Trie::<K, V>::lemma_parse_bound(m[root]);
    crate::operations::lemma_scan_facts::<K, V>(m, t, path, 0, crate::operations::empty_run_limit());
    lemma_scan_fetch_chain::<K, V>(m, t, path, 0, empty_run_limit());
    let sc = spec_scan::<K, V>(m, t, path, 0);
    let tip = sc->Done_tip;
    let parents = sc->Done_parents;
    let pp = parents_path(parents);
    assert(path.take(pp.len() as int) =~= path.subrange(0, pp.len() as int));
    assert(starts_with(path, pp));
    assert(crate::operations::extensions_nonempty(parents));
    match tip {
        TrieModel::Leaf { key: leaf_key, value: leaf_value } => {
            if K::spec_bytes(leaf_key) == path {
                lemma_others_after_same_leaf::<K, V>(
                    m,
                    m2,
                    tip,
                    parents,
                    new_leaf,
                    els,
                    path,
                    path2,
                    o,
                );
            } else {
                let (new_node, ps) = spec_reparent_leaf::<K, V>(
                    path,
                    K::spec_bytes(leaf_key),
                    parents,
                )->Ok_0;
                lemma_others_after_reparent::<K, V>(
                    m,
                    m2,
                    leaf_key,
                    leaf_value,
                    parents,
                    new_node,
                    ps,
                    new_leaf,
                    els,
                    path,
                    path2,
                    o,
                );
            }
        },
        TrieModel::Node { .. } => {
            lemma_others_after_node::<K, V>(
                m,
                m2,
                tip,
                parents,
                new_leaf,
                els,
                path,
                path2,
                o,
            );
        },
        TrieModel::Extension { affix, pointer } => {
            lemma_others_after_extension_tip::<K, V>(
                m,
                m2,
                t,
                affix,
                pointer,
                parents,
                key,
                value,
                els,
                path2,
                o,
            );
        },
    }
    assert(chain_top(tip, parents) == t);
    assert(fetch::<K, V>(m2, els[els.len() - 1].0) == FetchModel::Got(els[els.len() - 1].1));
    assert(path2.len() <= max_repr_len());
}

/// See [`lemma_write_keeps_others`]: the scan ended at an extension that
/// the written path leaves.
#[verifier::rlimit(60)]
proof fn lemma_others_after_extension_tip<K: FromBytes, V: FromBytes>(
    m: Map<Seq<u8>, Seq<u8>>,
    m2: Map<Seq<u8>, Seq<u8>>,
    t: TrieModel<K::V, V::V>,
    affix: Seq<u8>,
    pointer: PointerModel,
    parents: ParentsModel<K::V, V::V>,
    key: K::V,
    value: V::V,
    els: Seq<(Seq<u8>, TrieModel<K::V, V::V>)>,
    path2: Seq<u8>,
    o: Option<(K::V, V::V)>,
)
    requires
        crate::operations::extensions_nonempty(parents),
        path2 != K::spec_bytes(key),
        o is None ==> path2.len() == K::spec_bytes(key).len(),
        keeps_stored(m, m2),
        K::spec_bytes(key).len() <= max_repr_len(),
        spec_scan::<K, V>(m, t, K::spec_bytes(key), 0) == (ScanModel::Done {
            tip: TrieModel::Extension { affix, pointer },
            parents,
        }),
        scan_facts(K::spec_bytes(key), 0, TrieModel::Extension { affix, pointer }, parents),
        fetch_chain::<K, V>(m, TrieModel::Extension { affix, pointer }, parents),
        starts_with(K::spec_bytes(key), parents_path(parents)),
        (match spec_split_extension::<K, V>(K::spec_bytes(key), affix, pointer, parents) {
            Err(_) => false,
            Ok(split) => match spec_rehash::<K, V>(
                TrieModel::Leaf { key, value },
                with_node(K::spec_bytes(key), split.parents, split.new_node),
            ) {
                Err(_) => false,
                Ok(rels) => els == match split.maybe_hashed_child_extension {
                    Some(c) => seq![c] + rels,
                    None => rels,
                },
            },
        }),
        forall|i: int|
            0 <= i < els.len() ==> fetch::<K, V>(m2, (#[trigger] els[i]).0) == FetchModel::Got(
                els[i].1,
            ),
    ensures
        els.len() > 0,
        keeps_finding::<K, V>(
            m,
            m2,
            chain_top(TrieModel::Extension { affix, pointer }, parents),
            els.last().1,
            path2,
            0,
            o,
        ),
{
    let path = K::spec_bytes(key);
    let new_leaf = TrieModel::<K::V, V::V>::Leaf { key, value };
    let pp = parents_path(parents);
    lemma_shared_within_affix(path, pp, affix);
    let split = spec_split_extension::<K, V>(path, affix, pointer, parents)->Ok_0;
    let rels = spec_rehash::<K, V>(
        new_leaf,
        with_node(path, split.parents, split.new_node),
    )->Ok_0;
    lemma_others_after_split::<K, V>(
        m,
        m2,
        affix,
        pointer,
        parents,
        split,
        new_leaf,
        rels,
        els,
        path,
        path2,
        o,
    );
}

/// Where a path begins with `pp` and then leaves `affix`, it shares with
/// `pp + affix` all of `pp` and not all of `affix`.
proof fn lemma_shared_within_affix(path: Seq<u8>, pp: Seq<u8>, affix: Seq<u8>)
    requires
        pp.len() + affix.len() <= path.len(),
        path.subrange(0, pp.len() as int) == pp,
        path.subrange(pp.len() as int, (pp.len() + affix.len()) as int) != affix,
    ensures
        pp.len() <= spec_common_prefix(path, pp + affix).len() < pp.len() + affix.len(),
{
    let ext_path = pp + affix;
    assert forall|j: int| 0 <= j < pp.len() implies path[j] == ext_path[j] by {
        assert(path.subrange(0, pp.len() as int)[j] == path[j]);
    }
    crate::operations::lemma_common_prefix_at_least(path, ext_path, pp.len());
    lemma_common_prefix_props(path, ext_path);
    let shared = spec_common_prefix(path, ext_path);
    if shared.len() >= pp.len() + affix.len() {
        assert(path.subrange(pp.len() as int, (pp.len() + affix.len()) as int) =~= affix) by {
            assert forall|j: int| 0 <= j < affix.len() implies path.subrange(
                pp.len() as int,
                (pp.len() + affix.len()) as int,
            )[j] == affix[j] by {
                assert(shared[pp.len() + j] == path[pp.len() + j]);
                assert(ext_path[pp.len() + j] == affix[j]);
            }
        }
    }
}

} // verus!
