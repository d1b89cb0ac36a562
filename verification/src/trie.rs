//! The parts of a Merkle trie: pointers by hash, blocks of 256 pointers,
//! and the three kinds of trie element (leaf, node, extension).
use vstd::prelude::*;

use crate::bytesrepr::{
    items_bytes, lemma_items_take, lemma_parse_items_bound, lemma_parse_items_err,
    lemma_parse_items_roundtrip, lemma_items_prefix_len, max_repr_len, parse_items, Error,
    FromBytes, ToBytes,
};
use crate::hash::{blake2b_digest, Blake2bHash};

verus! {

/// The number of children a node can have: one per byte value.
pub const RADIX: usize = 256;

/// The model of a [`Pointer`]: its kind and the hash it holds.
pub enum PointerModel {
    LeafPointer(Seq<u8>),
    NodePointer(Seq<u8>),
}

impl PointerModel {
    /// The hash the pointer refers to.
    pub open spec fn hash(self) -> Seq<u8> {
        match self {
            PointerModel::LeafPointer(h) => h,
            PointerModel::NodePointer(h) => h,
        }
    }
}

/// A reference to a trie element by its hash; the kind says whether the
/// element is a leaf.
#[derive(Debug, Clone, Copy, PartialEq, Eq)]
pub enum Pointer {
    LeafPointer(Blake2bHash),
    NodePointer(Blake2bHash),
}

impl DeepView for Pointer {
    type V = PointerModel;

    open spec fn deep_view(&self) -> PointerModel {
        match self {
            Pointer::LeafPointer(h) => PointerModel::LeafPointer(h@),
            Pointer::NodePointer(h) => PointerModel::NodePointer(h@),
        }
    }
}

impl Pointer {
    /// The hash this pointer refers to.
    pub fn hash(&self) -> (h: &Blake2bHash)
        ensures
            h@ == self.deep_view().hash(),
    {
        match self {
            Pointer::LeafPointer(h) => h,
            Pointer::NodePointer(h) => h,
        }
    }

    /// A pointer of the same kind that refers to `hash`.
    pub fn update(&self, hash: Blake2bHash) -> (p: Pointer)
        ensures
            p.deep_view() == (match self.deep_view() {
                PointerModel::LeafPointer(_) => PointerModel::LeafPointer(hash@),
                PointerModel::NodePointer(_) => PointerModel::NodePointer(hash@),
            }),
    {
        match self {
            Pointer::LeafPointer(_) => Pointer::LeafPointer(hash),
            Pointer::NodePointer(_) => Pointer::NodePointer(hash),
        }
    }
}

impl ToBytes for Pointer {
    open spec fn spec_valid(v: PointerModel) -> bool {
        v.hash().len() == 32
    }

    open spec fn spec_bytes(v: PointerModel) -> Seq<u8> {
        match v {
            PointerModel::LeafPointer(h) => seq![0u8] + h,
            PointerModel::NodePointer(h) => seq![1u8] + h,
        }
    }

    proof fn lemma_valid(&self) {
    }

    proof fn lemma_nonempty(v: PointerModel) {
    }

    fn write_bytes(&self, buf: &mut Vec<u8>) {
        match self {
            Pointer::LeafPointer(h) => {
                buf.push(0u8);
                h.write_bytes(buf);
                assert(buf@ =~= old(buf)@ + (seq![0u8] + h@));
            },
            Pointer::NodePointer(h) => {
                buf.push(1u8);
                h.write_bytes(buf);
                assert(buf@ =~= old(buf)@ + (seq![1u8] + h@));
            },
        }
    }

    fn serialized_length(&self) -> (n: usize) {
        33
    }
}

impl FromBytes for Pointer {
    open spec fn spec_parse(bytes: Seq<u8>) -> Result<(PointerModel, nat), Error> {
        if bytes.len() < 1 {
            Err(Error::EarlyEndOfStream)
        } else if bytes[0] == 0 || bytes[0] == 1 {
            match Blake2bHash::spec_parse(bytes.skip(1)) {
                Ok((h, k)) => Ok(
                    (
                        if bytes[0] == 0 {
                            PointerModel::LeafPointer(h)
                        } else {
                            PointerModel::NodePointer(h)
                        },
                        1 + k,
                    ),
                ),
                Err(e) => Err(e),
            }
        } else {
            Err(Error::Formatting)
        }
    }

    proof fn lemma_parse_bound(bytes: Seq<u8>) {
    }

    proof fn lemma_roundtrip(v: PointerModel, rest: Seq<u8>) {
        let all = Self::spec_bytes(v) + rest;
        assert(all.skip(1) =~= v.hash() + rest);
        assert((v.hash() + rest).take(32) =~= v.hash());
        match v {
            PointerModel::LeafPointer(h) => assert(all[0] == 0u8),
            PointerModel::NodePointer(h) => assert(all[0] == 1u8),
        }
    }

    fn from_bytes(bytes: &[u8]) -> (r: Result<(Pointer, &[u8]), Error>) {
        if bytes.len() < 1 {
            return Err(Error::EarlyEndOfStream);
        }
        let tag = bytes[0];
        if tag != 0 && tag != 1 {
            return Err(Error::Formatting);
        }
        let rest = &bytes[1..bytes.len()];
        assert(rest@ =~= bytes@.skip(1));
        match Blake2bHash::from_bytes(rest) {
            Ok((h, rem)) => {
                assert(rem@ =~= bytes@.skip(bytes@.len() - rem@.len()));
                if tag == 0 {
                    Ok((Pointer::LeafPointer(h), rem))
                } else {
                    Ok((Pointer::NodePointer(h), rem))
                }
            },
            Err(e) => Err(e),
        }
    }
}

/// The 256 child slots of a node, indexed by the next byte of a path.
#[derive(Debug, Clone, Copy, PartialEq, Eq)]
pub struct PointerBlock(pub [Option<Pointer>; 256]);

impl DeepView for PointerBlock {
    type V = Seq<Option<PointerModel>>;

    open spec fn deep_view(&self) -> Seq<Option<PointerModel>> {
        self.0.deep_view()
    }
}

/// A block of 256 empty slots.
pub open spec fn empty_block() -> Seq<Option<PointerModel>> {
    Seq::new(256, |i: int| None::<PointerModel>)
}

/// The block that `indexed` fills in, later entries over earlier ones.
pub open spec fn block_from(indexed: Seq<(u8, PointerModel)>) -> Seq<Option<PointerModel>>
    decreases indexed.len(),
{
    if indexed.len() == 0 {
        empty_block()
    } else {
        block_from(indexed.drop_last()).update(
            indexed.last().0 as int,
            Some(indexed.last().1),
        )
    }
}

/// The filled slots of `block` below `n`, in order of index, leaving out `hole`.
pub open spec fn indexed_upto(block: Seq<Option<PointerModel>>, n: nat, hole: int) -> Seq<
    (u8, PointerModel),
>
    decreases n,
{
    if n == 0 {
        Seq::empty()
    } else {
        let prev = indexed_upto(block, (n - 1) as nat, hole);
        match block[n - 1] {
            Some(p) => if n - 1 == hole {
                prev
            } else {
                prev.push(((n - 1) as u8, p))
            },
            None => prev,
        }
    }
}

/// The filled slots of `block`, in order of index, leaving out `hole`.
pub open spec fn indexed_except(block: Seq<Option<PointerModel>>, hole: int) -> Seq<
    (u8, PointerModel),
> {
    indexed_upto(block, block.len(), hole)
}

pub proof fn lemma_block_from_len(indexed: Seq<(u8, PointerModel)>)
    ensures
        block_from(indexed).len() == 256,
    decreases indexed.len(),
{
    if indexed.len() > 0 {
        lemma_block_from_len(indexed.drop_last());
    }
}

proof fn lemma_block_from_upto(block: Seq<Option<PointerModel>>, n: nat, hole: int)
    requires
        block.len() == 256,
        n <= 256,
    ensures
        forall|i: int|
            0 <= i < 256 ==> #[trigger] block_from(indexed_upto(block, n, hole))[i] == (if i < n
                && i != hole {
                block[i]
            } else {
                None
            }),
    decreases n,
{
    lemma_block_from_len(indexed_upto(block, n, hole));
    if n > 0 {
        lemma_block_from_upto(block, (n - 1) as nat, hole);
        let prev = indexed_upto(block, (n - 1) as nat, hole);
        lemma_block_from_len(prev);
        match block[n - 1] {
            Some(p) => {
                if n - 1 != hole {
                    let cur = prev.push(((n - 1) as u8, p));
                    assert(cur.drop_last() =~= prev);
                    assert(((n - 1) as u8) as int == n - 1);
                }
            },
            None => {
            },
        }
    }
}

/// Putting back the pointer in the hole rebuilds the block.
pub proof fn lemma_rebuild_block(block: Seq<Option<PointerModel>>, hole: int, p: PointerModel)
    requires
        block.len() == 256,
        0 <= hole < 256,
        block[hole] == Some(p),
    ensures
        block_from(indexed_except(block, hole).push((hole as u8, p))) == block,
{
    let others = indexed_except(block, hole);
    lemma_block_from_upto(block, 256, hole);
    lemma_block_from_len(others);
    let all = others.push((hole as u8, p));
    assert(all.drop_last() =~= others);
    assert(block_from(all) =~= block);
}

impl PointerBlock {
    /// A block with every slot empty.
    pub fn new() -> (b: PointerBlock)
        ensures
            b.deep_view() == empty_block(),
    {
        let b = PointerBlock([None; 256]);
        assert(b.deep_view() =~= empty_block());
        b
    }

    /// The block holding the given pointers at the given indices.
    pub fn from_indexed_pointers(indexed_pointers: &[(u8, Pointer)]) -> (b: PointerBlock)
        ensures
            b.deep_view() == block_from(indexed_pointers@.map_values(
                |x: (u8, Pointer)| (x.0, x.1.deep_view()),
            )),
    {
        let ghost model = indexed_pointers@.map_values(|x: (u8, Pointer)| (x.0, x.1.deep_view()));
        let mut b = PointerBlock::new();
        let mut i: usize = 0;
        while i < indexed_pointers.len()
            invariant
                0 <= i <= indexed_pointers@.len(),
                model == indexed_pointers@.map_values(|x: (u8, Pointer)| (x.0, x.1.deep_view())),
                b.deep_view() == block_from(model.take(i as int)),
            decreases indexed_pointers@.len() - i,
        {
            let (index, pointer) = indexed_pointers[i];
            proof {
                lemma_block_from_len(model.take(i as int));
                assert(model.take(i + 1).drop_last() =~= model.take(i as int));
            }
            b.0[index as usize] = Some(pointer);
            assert(b.deep_view() =~= block_from(model.take(i + 1)));
            i = i + 1;
        }
        assert(model.take(indexed_pointers@.len() as int) =~= model);
        b
    }

    /// The pointer in slot `index`, if any.
    pub fn get(&self, index: usize) -> (p: Option<Pointer>)
        requires
            index < RADIX,
        ensures
            p.deep_view() == self.deep_view()[index as int],
    {
        self.0[index]
    }

    /// Puts `pointer` in slot `index`.
    pub fn set(&mut self, index: usize, pointer: Option<Pointer>)
        requires
            index < RADIX,
        ensures
            final(self).deep_view() == old(self).deep_view().update(
                index as int,
                pointer.deep_view(),
            ),
    {
        self.0[index] = pointer;
        assert(self.deep_view() =~= old(self).deep_view().update(index as int, pointer.deep_view()));
    }

    /// The filled slots, in order of index, leaving out slot `hole` (pass
    /// `RADIX` or more to leave out none).
    pub fn to_indexed_pointers_except(&self, hole: usize) -> (v: Vec<(u8, Pointer)>)
        ensures
            v@.map_values(|x: (u8, Pointer)| (x.0, x.1.deep_view())) == indexed_except(
                self.deep_view(),
                hole as int,
            ),
    {
        let ghost block = self.deep_view();
        let mut v: Vec<(u8, Pointer)> = Vec::new();
        let mut i: usize = 0;
        while i < RADIX
            invariant
                0 <= i <= RADIX,
                block == self.deep_view(),
                block.len() == 256,
                v@.map_values(|x: (u8, Pointer)| (x.0, x.1.deep_view())) == indexed_upto(
                    block,
                    i as nat,
                    hole as int,
                ),
            decreases RADIX - i,
        {
            let ghost before = v@;
            match self.0[i] {
                Some(p) => {
                    if i != hole {
                        v.push((i as u8, p));
                        assert(v@.map_values(|x: (u8, Pointer)| (x.0, x.1.deep_view()))
                            =~= before.map_values(
                            |x: (u8, Pointer)| (x.0, x.1.deep_view()),
                        ).push((i as u8, p.deep_view())));
                    }
                },
                None => {
                },
            }
            i = i + 1;
        }
        v
    }
}

impl ToBytes for PointerBlock {
    open spec fn spec_valid(v: Seq<Option<PointerModel>>) -> bool {
        &&& v.len() == 256
        &&& forall|i: int| 0 <= i < v.len() ==> Option::<Pointer>::spec_valid(#[trigger] v[i])
    }

    open spec fn spec_bytes(v: Seq<Option<PointerModel>>) -> Seq<u8> {
        items_bytes::<Option<Pointer>>(v)
    }

    proof fn lemma_valid(&self) {
        assert forall|i: int| 0 <= i < self.deep_view().len() implies Option::<
            Pointer,
        >::spec_valid(#[trigger] self.deep_view()[i]) by {
            self.0@[i].lemma_valid();
        }
    }

    proof fn lemma_nonempty(v: Seq<Option<PointerModel>>) {
        crate::bytesrepr::lemma_items_len_bound::<Option<Pointer>>(v);
    }

    fn write_bytes(&self, buf: &mut Vec<u8>) {
        let ghost dv = self.deep_view();
        let ghost start = buf@;
        let mut i: usize = 0;
        while i < RADIX
            invariant
                0 <= i <= RADIX,
                dv == self.deep_view(),
                dv.len() == 256,
                buf@ == start + items_bytes::<Option<Pointer>>(dv.take(i as int)),
            decreases RADIX - i,
        {
            self.0[i].write_bytes(buf);
            proof {
                lemma_items_take::<Option<Pointer>>(dv, i as int);
            }
            i = i + 1;
        }
        assert(dv.take(256) =~= dv);
    }

    fn serialized_length(&self) -> (n: usize) {
        let ghost dv = self.deep_view();
        let mut total: usize = 0;
        let mut i: usize = 0;
        while i < RADIX
            invariant
                0 <= i <= RADIX,
                dv == self.deep_view(),
                dv.len() == 256,
                items_bytes::<Option<Pointer>>(dv).len() <= usize::MAX,
                total == items_bytes::<Option<Pointer>>(dv.take(i as int)).len(),
            decreases RADIX - i,
        {
            proof {
                lemma_items_take::<Option<Pointer>>(dv, i as int);
                lemma_items_prefix_len::<Option<Pointer>>(dv, i + 1);
            }
            total = total + self.0[i].serialized_length();
            i = i + 1;
        }
        assert(dv.take(256) =~= dv);
        total
    }
}

impl FromBytes for PointerBlock {
    open spec fn spec_parse(bytes: Seq<u8>) -> Result<(Seq<Option<PointerModel>>, nat), Error> {
        parse_items::<Option<Pointer>>(bytes, 256)
    }

    proof fn lemma_parse_bound(bytes: Seq<u8>) {
        lemma_parse_items_bound::<Option<Pointer>>(bytes, 256);
    }

    proof fn lemma_roundtrip(v: Seq<Option<PointerModel>>, rest: Seq<u8>) {
        lemma_parse_items_roundtrip::<Option<Pointer>>(v, rest);
    }

    fn from_bytes(bytes: &[u8]) -> (r: Result<(PointerBlock, &[u8]), Error>) {
        let mut arr: [Option<Pointer>; 256] = [None; 256];
        let mut rem = bytes;
        let ghost mut vs: Seq<Option<PointerModel>> = Seq::empty();
        let mut i: usize = 0;
        while i < RADIX
            invariant
                0 <= i <= RADIX,
                rem@.len() <= bytes@.len(),
                rem@ == bytes@.skip(bytes@.len() - rem@.len()),
                parse_items::<Option<Pointer>>(bytes@, i as nat) == Ok::<
                    (Seq<Option<PointerModel>>, nat),
                    Error,
                >((vs, (bytes@.len() - rem@.len()) as nat)),
                vs.len() == i,
                forall|j: int| 0 <= j < i ==> #[trigger] arr@[j].deep_view() == vs[j],
            decreases RADIX - i,
        {
            let ghost consumed = (bytes@.len() - rem@.len()) as nat;
            assert(bytes@.skip(consumed as int) =~= rem@);
            match Option::<Pointer>::from_bytes(rem) {
                Ok((x, next)) => {
                    arr[i] = x;
                    proof {
                        vs = vs.push(x.deep_view());
                    }
                    assert(next@ =~= bytes@.skip(bytes@.len() - next@.len()));
                    rem = next;
                },
                Err(e) => {
                    proof {
                        lemma_parse_items_err::<Option<Pointer>>(
                            bytes@,
                            (i + 1) as nat,
                            256,
                            e,
                        );
                    }
                    return Err(e);
                },
            }
            i = i + 1;
        }
        let b = PointerBlock(arr);
        assert(b.deep_view() =~= vs);
        Ok((b, rem))
    }
}

/// The model of a trie element.
pub enum TrieModel<KV, VV> {
    Leaf { key: KV, value: VV },
    Node { pointer_block: Seq<Option<PointerModel>> },
    Extension { affix: Seq<u8>, pointer: PointerModel },
}

/// An element of a Merkle trie: a leaf holding a key and its value, a node
/// with up to 256 children, or an extension that skips a run of path bytes.
#[derive(Debug, Clone, PartialEq, Eq)]
pub enum Trie<K, V> {
    Leaf { key: K, value: V },
    Node { pointer_block: Box<PointerBlock> },
    Extension { affix: Vec<u8>, pointer: Pointer },
}

impl<K: DeepView, V: DeepView> DeepView for Trie<K, V> {
    type V = TrieModel<K::V, V::V>;

    open spec fn deep_view(&self) -> TrieModel<K::V, V::V> {
        match self {
            Trie::Leaf { key, value } => TrieModel::Leaf {
                key: key.deep_view(),
                value: value.deep_view(),
            },
            Trie::Node { pointer_block } => TrieModel::Node {
                pointer_block: pointer_block.deep_view(),
            },
            Trie::Extension { affix, pointer } => TrieModel::Extension {
                affix: affix@,
                pointer: pointer.deep_view(),
            },
        }
    }
}

/// The representation of a trie element.
pub open spec fn trie_bytes<K: FromBytes, V: FromBytes>(t: TrieModel<K::V, V::V>) -> Seq<u8> {
    match t {
        TrieModel::Leaf { key, value } => seq![0u8] + K::spec_bytes(key) + V::spec_bytes(value),
        TrieModel::Node { pointer_block } => seq![1u8] + PointerBlock::spec_bytes(pointer_block),
        TrieModel::Extension { affix, pointer } => seq![2u8] + Vec::<u8>::spec_bytes(affix)
            + Pointer::spec_bytes(pointer),
    }
}

/// The hash under which a trie element is stored.
pub open spec fn trie_hash<K: FromBytes, V: FromBytes>(t: TrieModel<K::V, V::V>) -> Seq<u8> {
    blake2b_digest(trie_bytes::<K, V>(t))
}

impl<K: FromBytes, V: FromBytes> Trie<K, V> {
    /// A leaf holding `key` and `value`.
    pub fn leaf(key: K, value: V) -> (t: Trie<K, V>)
        ensures
            t.deep_view() == (TrieModel::Leaf::<K::V, V::V> {
                key: key.deep_view(),
                value: value.deep_view(),
            }),
    {
        Trie::Leaf { key, value }
    }

    /// A node holding the given pointers at the given indices.
    pub fn node(indexed_pointers: &[(u8, Pointer)]) -> (t: Trie<K, V>)
        ensures
            t.deep_view() == (TrieModel::Node::<K::V, V::V> {
                pointer_block: block_from(
                    indexed_pointers@.map_values(|x: (u8, Pointer)| (x.0, x.1.deep_view())),
                ),
            }),
    {
        Trie::Node { pointer_block: Box::new(PointerBlock::from_indexed_pointers(indexed_pointers)) }
    }

    /// An extension with path bytes `affix` in front of `pointer`.
    pub fn extension(affix: Vec<u8>, pointer: Pointer) -> (t: Trie<K, V>)
        ensures
            t.deep_view() == (TrieModel::Extension::<K::V, V::V> {
                affix: affix@,
                pointer: pointer.deep_view(),
            }),
    {
        Trie::Extension { affix, pointer }
    }

    /// The hash of this element's representation, unless that is longer than
    /// `u32::MAX` bytes.
    pub fn merkle_hash(&self) -> (r: Result<Blake2bHash, Error>)
        ensures
            r is Ok <==> trie_bytes::<K, V>(self.deep_view()).len() <= max_repr_len(),
            r matches Ok(h) ==> h@ == trie_hash::<K, V>(self.deep_view()),
            r matches Err(e) ==> e == Error::OutOfMemory,
    {
        match self.to_bytes() {
            Ok(bytes) => Ok(Blake2bHash::new(bytes.as_slice())),
            Err(e) => Err(e),
        }
    }
}

impl<K: FromBytes, V: FromBytes> ToBytes for Trie<K, V> {
    open spec fn spec_valid(t: TrieModel<K::V, V::V>) -> bool {
        match t {
            TrieModel::Leaf { key, value } => K::spec_valid(key) && V::spec_valid(value),
            TrieModel::Node { pointer_block } => PointerBlock::spec_valid(pointer_block),
            TrieModel::Extension { affix, pointer } => Pointer::spec_valid(pointer),
        }
    }

    open spec fn spec_bytes(t: TrieModel<K::V, V::V>) -> Seq<u8> {
        trie_bytes::<K, V>(t)
    }

    proof fn lemma_valid(&self) {
        match self {
            Trie::Leaf { key, value } => {
                key.lemma_valid();
                value.lemma_valid();
            },
            Trie::Node { pointer_block } => {
                pointer_block.lemma_valid();
            },
            Trie::Extension { affix, pointer } => {
            },
        }
    }

    proof fn lemma_nonempty(t: TrieModel<K::V, V::V>) {
    }

    fn write_bytes(&self, buf: &mut Vec<u8>) {
        match self {
            Trie::Leaf { key, value } => {
                buf.push(0u8);
                key.write_bytes(buf);
                value.write_bytes(buf);
                assert(buf@ =~= old(buf)@ + (seq![0u8] + K::spec_bytes(key.deep_view())
                    + V::spec_bytes(value.deep_view())));
            },
            Trie::Node { pointer_block } => {
                buf.push(1u8);
                pointer_block.write_bytes(buf);
                assert(buf@ =~= old(buf)@ + (seq![1u8] + PointerBlock::spec_bytes(
                    pointer_block.deep_view(),
                )));
            },
            Trie::Extension { affix, pointer } => {
                buf.push(2u8);
                affix.write_bytes(buf);
                pointer.write_bytes(buf);
                assert(affix.deep_view() =~= affix@);
                assert(buf@ =~= old(buf)@ + (seq![2u8] + Vec::<u8>::spec_bytes(affix@)
                    + Pointer::spec_bytes(pointer.deep_view())));
            },
        }
    }

    fn serialized_length(&self) -> (n: usize) {
        match self {
            Trie::Leaf { key, value } => 1 + key.serialized_length() + value.serialized_length(),
            Trie::Node { pointer_block } => 1 + pointer_block.serialized_length(),
            Trie::Extension { affix, pointer } => {
                assert(affix.deep_view() =~= affix@);
                1 + affix.serialized_length() + pointer.serialized_length()
            },
        }
    }
}


impl<K: FromBytes, V: FromBytes> FromBytes for Trie<K, V> {
    open spec fn spec_parse(bytes: Seq<u8>) -> Result<(TrieModel<K::V, V::V>, nat), Error> {
        if bytes.len() < 1 {
            Err(Error::EarlyEndOfStream)
        } else if bytes[0] == 0 {
            match <(K, V)>::spec_parse(bytes.skip(1)) {
                Ok((kv, k)) => Ok((TrieModel::Leaf { key: kv.0, value: kv.1 }, 1 + k)),
                Err(e) => Err(e),
            }
        } else if bytes[0] == 1 {
            match PointerBlock::spec_parse(bytes.skip(1)) {
                Ok((b, k)) => Ok((TrieModel::Node { pointer_block: b }, 1 + k)),
                Err(e) => Err(e),
            }
        } else if bytes[0] == 2 {
            match <(Vec<u8>, Pointer)>::spec_parse(bytes.skip(1)) {
                Ok((ap, k)) => Ok((TrieModel::Extension { affix: ap.0, pointer: ap.1 }, 1 + k)),
                Err(e) => Err(e),
            }
        } else {
            Err(Error::Formatting)
        }
    }

    proof fn lemma_parse_bound(bytes: Seq<u8>) {
        if bytes.len() >= 1 {
            <(K, V)>::lemma_parse_bound(bytes.skip(1));
            PointerBlock::lemma_parse_bound(bytes.skip(1));
            <(Vec<u8>, Pointer)>::lemma_parse_bound(bytes.skip(1));
        }
    }

    proof fn lemma_roundtrip(t: TrieModel<K::V, V::V>, rest: Seq<u8>) {
        let all = trie_bytes::<K, V>(t) + rest;
        match t {
            TrieModel::Leaf { key, value } => {
                assert(all[0] == 0u8);
                assert(all.skip(1) =~= <(K, V)>::spec_bytes((key, value)) + rest);
                <(K, V)>::lemma_roundtrip((key, value), rest);
            },
            TrieModel::Node { pointer_block } => {
                assert(all[0] == 1u8);
                assert(all.skip(1) =~= PointerBlock::spec_bytes(pointer_block) + rest);
                PointerBlock::lemma_roundtrip(pointer_block, rest);
            },
            TrieModel::Extension { affix, pointer } => {
                assert(all[0] == 2u8);
                assert(all.skip(1) =~= <(Vec<u8>, Pointer)>::spec_bytes((affix, pointer)) + rest);
                <(Vec<u8>, Pointer)>::lemma_roundtrip((affix, pointer), rest);
            },
        }
    }

    fn from_bytes(bytes: &[u8]) -> (r: Result<(Trie<K, V>, &[u8]), Error>) {
        if bytes.len() < 1 {
            return Err(Error::EarlyEndOfStream);
        }
        let tag = bytes[0];
        let rest = &bytes[1..bytes.len()];
        assert(rest@ =~= bytes@.skip(1));
        if tag == 0 {
            match <(K, V)>::from_bytes(rest) {
                Ok(((key, value), rem)) => {
                    assert(rem@ =~= bytes@.skip(bytes@.len() - rem@.len()));
                    Ok((Trie::Leaf { key, value }, rem))
                },
                Err(e) => Err(e),
            }
        } else if tag == 1 {
            match PointerBlock::from_bytes(rest) {
                Ok((b, rem)) => {
                    assert(rem@ =~= bytes@.skip(bytes@.len() - rem@.len()));
                    Ok((Trie::Node { pointer_block: Box::new(b) }, rem))
                },
                Err(e) => Err(e),
            }
        } else if tag == 2 {
            match <(Vec<u8>, Pointer)>::from_bytes(rest) {
                Ok(((affix, pointer), rem)) => {
                    assert(rem@ =~= bytes@.skip(bytes@.len() - rem@.len()));
                    assert(affix.deep_view() =~= affix@);
                    Ok((Trie::Extension { affix, pointer }, rem))
                },
                Err(e) => Err(e),
            }
        } else {
            Err(Error::Formatting)
        }
    }
}

} // verus!
