//! The byte representation used for tries, proofs and their parts: integers
//! in little-endian order, sequences prefixed by a `u32` element count.
use std::collections::VecDeque;
use vstd::prelude::*;

verus! {

/// Why a value could not be written as bytes or read back from them.
#[derive(Debug, Clone, Copy, PartialEq, Eq)]
pub enum Error {
    /// The bytes ended before the value was complete.
    EarlyEndOfStream,
    /// The bytes do not form a value of the expected kind.
    Formatting,
    /// Bytes were left over after the value.
    LeftOverBytes,
    /// The representation is longer than `u32::MAX` bytes.
    OutOfMemory,
}

/// The largest length that a representation may have.
pub open spec fn max_repr_len() -> nat {
    u32::MAX as nat
}

/// A type with a byte representation, stated over its model.
pub trait ToBytes: DeepView + Sized {
    /// Which models stand for values that can exist.
    spec fn spec_valid(v: Self::V) -> bool;

    /// The bytes that represent a value with model `v`.
    spec fn spec_bytes(v: Self::V) -> Seq<u8>;

    /// Every value has a valid model.
    proof fn lemma_valid(&self)
        ensures
            Self::spec_valid(self.deep_view()),
    ;

    /// No value is represented by the empty sequence.
    proof fn lemma_nonempty(v: Self::V)
        requires
            Self::spec_valid(v),
        ensures
            Self::spec_bytes(v).len() > 0,
    ;

    /// Appends the representation of `self` to `buf`.
    fn write_bytes(&self, buf: &mut Vec<u8>)
        ensures
            final(buf)@ == old(buf)@ + Self::spec_bytes(self.deep_view()),
    ;

    /// The number of bytes in the representation of `self`.
    fn serialized_length(&self) -> (n: usize)
        requires
            Self::spec_bytes(self.deep_view()).len() <= usize::MAX,
        ensures
            n == Self::spec_bytes(self.deep_view()).len(),
    ;

    /// The representation of `self`, unless it is longer than `u32::MAX` bytes.
    fn to_bytes(&self) -> (r: Result<Vec<u8>, Error>)
        ensures
            r is Ok <==> Self::spec_bytes(self.deep_view()).len() <= max_repr_len(),
            r matches Ok(b) ==> b@ == Self::spec_bytes(self.deep_view()),
            r matches Err(e) ==> e == Error::OutOfMemory,
    {
        let mut buf: Vec<u8> = Vec::new();
        self.write_bytes(&mut buf);
        assert(buf@ =~= Self::spec_bytes(self.deep_view()));
        if buf.len() > 4294967295usize {
            Err(Error::OutOfMemory)
        } else {
            Ok(buf)
        }
    }
}

/// A type whose values can be read back from their byte representation.
pub trait FromBytes: ToBytes {
    /// Reads a value from the front of `bytes`: its model and the number of
    /// bytes it took, or the error met first.
    spec fn spec_parse(bytes: Seq<u8>) -> Result<(Self::V, nat), Error>;

    /// A read takes no more bytes than there are, and yields a valid model.
    proof fn lemma_parse_bound(bytes: Seq<u8>)
        ensures
            Self::spec_parse(bytes) matches Ok((v, n)) ==> n <= bytes.len() && Self::spec_valid(v),
    ;

    /// Reading the representation of a value gives the value back, whatever follows it.
    proof fn lemma_roundtrip(v: Self::V, rest: Seq<u8>)
        requires
            Self::spec_valid(v),
            Self::spec_bytes(v).len() <= max_repr_len(),
        ensures
            Self::spec_parse(Self::spec_bytes(v) + rest) == Ok::<(Self::V, nat), Error>(
                (v, Self::spec_bytes(v).len()),
            ),
    ;

    /// Reads a value from the front of `bytes`; returns it with the bytes after it.
    fn from_bytes(bytes: &[u8]) -> (r: Result<(Self, &[u8]), Error>)
        ensures
            match r {
                Ok((x, rem)) => {
                    &&& rem@.len() <= bytes@.len()
                    &&& rem@ == bytes@.skip(bytes@.len() - rem@.len())
                    &&& Self::spec_parse(bytes@) == Ok::<(Self::V, nat), Error>(
                        (x.deep_view(), (bytes@.len() - rem@.len()) as nat),
                    )
                },
                Err(e) => Self::spec_parse(bytes@) == Err::<(Self::V, nat), Error>(e),
            },
    ;
}

/// `r` is what `from_bytes` owes on `bytes`.
pub open spec fn parsed_as<T: FromBytes>(bytes: Seq<u8>, r: Result<(T, &[u8]), Error>) -> bool {
    match r {
        Ok((x, rem)) => {
            &&& rem@.len() <= bytes.len()
            &&& rem@ == bytes.skip(bytes.len() - rem@.len())
            &&& T::spec_parse(bytes) == Ok::<(T::V, nat), Error>(
                (x.deep_view(), (bytes.len() - rem@.len()) as nat),
            )
        },
        Err(e) => T::spec_parse(bytes) == Err::<(T::V, nat), Error>(e),
    }
}

/// Reads a whole value from `bytes`, refusing bytes left over after it.
pub open spec fn spec_deserialize<T: FromBytes>(bytes: Seq<u8>) -> Result<T::V, Error> {
    match T::spec_parse(bytes) {
        Ok((v, n)) => if n == bytes.len() {
            Ok(v)
        } else {
            Err(Error::LeftOverBytes)
        },
        Err(e) => Err(e),
    }
}

/// Reads a whole value from `bytes`, refusing bytes left over after it.
pub fn deserialize<T: FromBytes>(bytes: &[u8]) -> (r: Result<T, Error>)
    ensures
        match r {
            Ok(x) => spec_deserialize::<T>(bytes@) == Ok::<T::V, Error>(x.deep_view()),
            Err(e) => spec_deserialize::<T>(bytes@) == Err::<T::V, Error>(e),
        },
{
    match T::from_bytes(bytes) {
        Ok((x, rem)) => {
            if rem.len() == 0 {
                Ok(x)
            } else {
                Err(Error::LeftOverBytes)
            }
        },
        Err(e) => Err(e),
    }
}

// ----- u8 -----
impl ToBytes for u8 {
    open spec fn spec_valid(v: u8) -> bool {
        true
    }

    open spec fn spec_bytes(v: u8) -> Seq<u8> {
        seq![v]
    }

    proof fn lemma_valid(&self) {
    }

    proof fn lemma_nonempty(v: u8) {
    }

    fn write_bytes(&self, buf: &mut Vec<u8>) {
        buf.push(*self);
        assert(buf@ =~= old(buf)@ + seq![*self]);
    }

    fn serialized_length(&self) -> (n: usize) {
        1
    }
}

impl FromBytes for u8 {
    open spec fn spec_parse(bytes: Seq<u8>) -> Result<(u8, nat), Error> {
        if bytes.len() < 1 {
            Err(Error::EarlyEndOfStream)
        } else {
            Ok((bytes[0], 1))
        }
    }

    proof fn lemma_parse_bound(bytes: Seq<u8>) {
    }

    proof fn lemma_roundtrip(v: u8, rest: Seq<u8>) {
        assert((seq![v] + rest)[0] == v);
    }

    fn from_bytes(bytes: &[u8]) -> (r: Result<(u8, &[u8]), Error>) {
        if bytes.len() < 1 {
            Err(Error::EarlyEndOfStream)
        } else {
            let rem = &bytes[1..bytes.len()];
            assert(rem@ =~= bytes@.skip(1));
            Ok((bytes[0], rem))
        }
    }
}

// ----- u32 -----
/// The little-endian bytes of `n`.
pub open spec fn u32_le_bytes(n: u32) -> Seq<u8> {
    seq![(n & 0xff) as u8, ((n >> 8u32) & 0xff) as u8, ((n >> 16u32) & 0xff) as u8, (n >> 24u32) as u8]
}

/// The `u32` whose little-endian bytes are the first four of `b`.
pub open spec fn u32_from_le(b0: u8, b1: u8, b2: u8, b3: u8) -> u32 {
    (b0 as u32) | ((b1 as u32) << 8u32) | ((b2 as u32) << 16u32) | ((b3 as u32) << 24u32)
}

proof fn lemma_u32_le_roundtrip(n: u32)
    ensures
        u32_from_le(
            (n & 0xff) as u8,
            ((n >> 8u32) & 0xff) as u8,
            ((n >> 16u32) & 0xff) as u8,
            (n >> 24u32) as u8,
        ) == n,
{
    assert(((((n & 0xff) as u8) as u32) | (((((n >> 8u32) & 0xff) as u8) as u32) << 8u32) | (
    ((((n >> 16u32) & 0xff) as u8) as u32) << 16u32) | ((((n >> 24u32) as u8) as u32) << 24u32))
        == n) by (bit_vector);
}

impl ToBytes for u32 {
    open spec fn spec_valid(v: u32) -> bool {
        true
    }

    open spec fn spec_bytes(v: u32) -> Seq<u8> {
        u32_le_bytes(v)
    }

    proof fn lemma_valid(&self) {
    }

    proof fn lemma_nonempty(v: u32) {
    }

    fn write_bytes(&self, buf: &mut Vec<u8>) {
        let n = *self;
        buf.push((n & 0xff) as u8);
        buf.push(((n >> 8u32) & 0xff) as u8);
        buf.push(((n >> 16u32) & 0xff) as u8);
        buf.push((n >> 24u32) as u8);
        assert(buf@ =~= old(buf)@ + u32_le_bytes(n));
    }

    fn serialized_length(&self) -> (n: usize) {
        4
    }
}

impl FromBytes for u32 {
    open spec fn spec_parse(bytes: Seq<u8>) -> Result<(u32, nat), Error> {
        if bytes.len() < 4 {
            Err(Error::EarlyEndOfStream)
        } else {
            Ok((u32_from_le(bytes[0], bytes[1], bytes[2], bytes[3]), 4))
        }
    }

    proof fn lemma_parse_bound(bytes: Seq<u8>) {
    }

    proof fn lemma_roundtrip(v: u32, rest: Seq<u8>) {
        let b = u32_le_bytes(v) + rest;
        assert(b[0] == (v & 0xff) as u8);
        assert(b[1] == ((v >> 8u32) & 0xff) as u8);
        assert(b[2] == ((v >> 16u32) & 0xff) as u8);
        assert(b[3] == (v >> 24u32) as u8);
        lemma_u32_le_roundtrip(v);
    }

    fn from_bytes(bytes: &[u8]) -> (r: Result<(u32, &[u8]), Error>) {
        if bytes.len() < 4 {
            Err(Error::EarlyEndOfStream)
        } else {
            let n = (bytes[0] as u32) | ((bytes[1] as u32) << 8u32) | ((bytes[2] as u32) << 16u32)
                | ((bytes[3] as u32) << 24u32);
            let rem = &bytes[4..bytes.len()];
            assert(rem@ =~= bytes@.skip(4));
            Ok((n, rem))
        }
    }
}


// ----- sequences -----
/// The representations of the items of `vs`, one after another.
pub open spec fn items_bytes<T: ToBytes>(vs: Seq<T::V>) -> Seq<u8>
    decreases vs.len(),
{
    if vs.len() == 0 {
        Seq::empty()
    } else {
        items_bytes::<T>(vs.drop_last()) + T::spec_bytes(vs.last())
    }
}

/// Reads `n` items one after another from the front of `bytes`.
pub open spec fn parse_items<T: FromBytes>(bytes: Seq<u8>, n: nat) -> Result<(Seq<T::V>, nat), Error>
    decreases n,
{
    if n == 0 {
        Ok((Seq::empty(), 0))
    } else {
        match parse_items::<T>(bytes, (n - 1) as nat) {
            Ok((vs, m)) => match T::spec_parse(bytes.skip(m as int)) {
                Ok((v, k)) => Ok((vs.push(v), m + k)),
                Err(e) => Err(e),
            },
            Err(e) => Err(e),
        }
    }
}

pub proof fn lemma_items_len_bound<T: ToBytes>(vs: Seq<T::V>)
    requires
        forall|i: int| 0 <= i < vs.len() ==> T::spec_valid(#[trigger] vs[i]),
    ensures
        items_bytes::<T>(vs).len() >= vs.len(),
    decreases vs.len(),
{
    if vs.len() > 0 {
        assert forall|i: int| 0 <= i < vs.drop_last().len() implies T::spec_valid(
            #[trigger] vs.drop_last()[i],
        ) by {
            assert(vs.drop_last()[i] == vs[i]);
        }
        lemma_items_len_bound::<T>(vs.drop_last());
        T::lemma_nonempty(vs.last());
    }
}

pub proof fn lemma_items_take<T: ToBytes>(vs: Seq<T::V>, i: int)
    requires
        0 <= i < vs.len(),
    ensures
        items_bytes::<T>(vs.take(i + 1)) == items_bytes::<T>(vs.take(i)) + T::spec_bytes(vs[i]),
{
    assert(vs.take(i + 1).drop_last() =~= vs.take(i));
}

pub proof fn lemma_items_prefix_len<T: ToBytes>(vs: Seq<T::V>, i: int)
    requires
        0 <= i <= vs.len(),
    ensures
        items_bytes::<T>(vs.take(i)).len() <= items_bytes::<T>(vs).len(),
    decreases vs.len() - i,
{
    if i < vs.len() {
        lemma_items_take::<T>(vs, i);
        lemma_items_prefix_len::<T>(vs, i + 1);
    } else {
        assert(vs.take(i) =~= vs);
    }
}

pub proof fn lemma_parse_items_bound<T: FromBytes>(bytes: Seq<u8>, n: nat)
    ensures
        parse_items::<T>(bytes, n) matches Ok((vs, m)) ==> {
            &&& m <= bytes.len()
            &&& vs.len() == n
            &&& forall|i: int| 0 <= i < vs.len() ==> T::spec_valid(#[trigger] vs[i])
        },
    decreases n,
{
    if n > 0 {
        lemma_parse_items_bound::<T>(bytes, (n - 1) as nat);
        if let Ok((vs, m)) = parse_items::<T>(bytes, (n - 1) as nat) {
            T::lemma_parse_bound(bytes.skip(m as int));
            if let Ok((v, k)) = T::spec_parse(bytes.skip(m as int)) {
                assert forall|i: int| 0 <= i < vs.push(v).len() implies T::spec_valid(
                    #[trigger] vs.push(v)[i],
                ) by {
                    if i < vs.len() {
                        assert(vs.push(v)[i] == vs[i]);
                    }
                }
            }
        }
    }
}

pub proof fn lemma_parse_items_err<T: FromBytes>(bytes: Seq<u8>, n1: nat, n2: nat, e: Error)
    requires
        n1 <= n2,
        parse_items::<T>(bytes, n1) == Err::<(Seq<T::V>, nat), Error>(e),
    ensures
        parse_items::<T>(bytes, n2) == Err::<(Seq<T::V>, nat), Error>(e),
    decreases n2,
{
    if n1 < n2 {
        lemma_parse_items_err::<T>(bytes, n1, (n2 - 1) as nat, e);
    }
}

pub proof fn lemma_parse_items_roundtrip<T: FromBytes>(vs: Seq<T::V>, rest: Seq<u8>)
    requires
        forall|i: int| 0 <= i < vs.len() ==> T::spec_valid(#[trigger] vs[i]),
        items_bytes::<T>(vs).len() <= max_repr_len(),
    ensures
        parse_items::<T>(items_bytes::<T>(vs) + rest, vs.len()) == Ok::<(Seq<T::V>, nat), Error>(
            (vs, items_bytes::<T>(vs).len()),
        ),
    decreases vs.len(),
{
    if vs.len() > 0 {
        let init = vs.drop_last();
        let x = vs.last();
        let bx = T::spec_bytes(x);
        assert(items_bytes::<T>(vs) + rest =~= items_bytes::<T>(init) + (bx + rest));
        assert forall|i: int| 0 <= i < init.len() implies T::spec_valid(#[trigger] init[i]) by {
            assert(init[i] == vs[i]);
        }
        lemma_parse_items_roundtrip::<T>(init, bx + rest);
        let all = items_bytes::<T>(vs) + rest;
        let m = items_bytes::<T>(init).len();
        assert(all.skip(m as int) =~= bx + rest);
        T::lemma_roundtrip(x, rest);
        assert(init.push(x) =~= vs);
    } else {
        assert(vs =~= Seq::<T::V>::empty());
    }
}

impl<T: FromBytes> ToBytes for Vec<T> {
    open spec fn spec_valid(vs: Seq<T::V>) -> bool {
        forall|i: int| 0 <= i < vs.len() ==> T::spec_valid(#[trigger] vs[i])
    }

    open spec fn spec_bytes(vs: Seq<T::V>) -> Seq<u8> {
        u32_le_bytes(vs.len() as u32) + items_bytes::<T>(vs)
    }

    proof fn lemma_valid(&self) {
        assert forall|i: int| 0 <= i < self.deep_view().len() implies T::spec_valid(
            #[trigger] self.deep_view()[i],
        ) by {
            self@[i].lemma_valid();
        }
    }

    proof fn lemma_nonempty(vs: Seq<T::V>) {
    }

    fn write_bytes(&self, buf: &mut Vec<u8>) {
        let n = self.len();
        (n as u32).write_bytes(buf);
        let ghost start = buf@;
        let ghost dv = self.deep_view();
        let mut i: usize = 0;
        while i < n
            invariant
                n == self@.len(),
                dv == self.deep_view(),
                0 <= i <= n,
                start == old(buf)@ + u32_le_bytes(n as u32),
                buf@ == start + items_bytes::<T>(dv.take(i as int)),
            decreases n - i,
        {
            self[i].write_bytes(buf);
            proof {
                lemma_items_take::<T>(dv, i as int);
                assert(dv[i as int] == self@[i as int].deep_view());
            }
            i = i + 1;
        }
        assert(dv.take(n as int) =~= dv);
        assert(buf@ =~= old(buf)@ + (u32_le_bytes(n as u32) + items_bytes::<T>(dv)));
    }

    fn serialized_length(&self) -> (n: usize) {
        let len = self.len();
        let ghost dv = self.deep_view();
        let mut total: usize = 4;
        let mut i: usize = 0;
        while i < len
            invariant
                len == self@.len(),
                dv == self.deep_view(),
                0 <= i <= len,
                4 + items_bytes::<T>(dv).len() <= usize::MAX,
                total == 4 + items_bytes::<T>(dv.take(i as int)).len(),
            decreases len - i,
        {
            proof {
                lemma_items_take::<T>(dv, i as int);
                lemma_items_prefix_len::<T>(dv, i + 1);
                assert(dv[i as int] == self@[i as int].deep_view());
            }
            let k = self[i].serialized_length();
            total = total + k;
            i = i + 1;
        }
        assert(dv.take(len as int) =~= dv);
        total
    }
}

impl<T: FromBytes> FromBytes for Vec<T> {
    open spec fn spec_parse(bytes: Seq<u8>) -> Result<(Seq<T::V>, nat), Error> {
        match u32::spec_parse(bytes) {
            Ok((count, k)) => match parse_items::<T>(bytes.skip(k as int), count as nat) {
                Ok((vs, m)) => Ok((vs, k + m)),
                Err(e) => Err(e),
            },
            Err(e) => Err(e),
        }
    }

    proof fn lemma_parse_bound(bytes: Seq<u8>) {
        if let Ok((count, k)) = u32::spec_parse(bytes) {
            lemma_parse_items_bound::<T>(bytes.skip(k as int), count as nat);
        }
    }

    proof fn lemma_roundtrip(vs: Seq<T::V>, rest: Seq<u8>) {
        lemma_items_len_bound::<T>(vs);
        let all = Self::spec_bytes(vs) + rest;
        assert(all =~= u32_le_bytes(vs.len() as u32) + (items_bytes::<T>(vs) + rest));
        u32::lemma_roundtrip(vs.len() as u32, items_bytes::<T>(vs) + rest);
        assert(all.skip(4) =~= items_bytes::<T>(vs) + rest);
        lemma_parse_items_roundtrip::<T>(vs, rest);
    }

    fn from_bytes(bytes: &[u8]) -> (r: Result<(Vec<T>, &[u8]), Error>) {
        let (count, mut rem) = match u32::from_bytes(bytes) {
            Ok(x) => x,
            Err(e) => return Err(e),
        };
        let ghost after_count = bytes@.skip(4);
        assert(rem@ =~= after_count);
        let mut out: Vec<T> = Vec::new();
        assert(out.deep_view() =~= Seq::<T::V>::empty());
        let mut i: u32 = 0;
        while i < count
            invariant
                0 <= i <= count,
                after_count == bytes@.skip(4),
                bytes@.len() >= 4,
                u32::spec_parse(bytes@) == Ok::<(u32, nat), Error>((count, 4)),
                rem@.len() <= after_count.len(),
                rem@ == after_count.skip(after_count.len() - rem@.len()),
                parse_items::<T>(after_count, i as nat) == Ok::<(Seq<T::V>, nat), Error>(
                    (out.deep_view(), (after_count.len() - rem@.len()) as nat),
                ),
            decreases count - i,
        {
            let ghost consumed = (after_count.len() - rem@.len()) as nat;
            assert(after_count.skip(consumed as int) =~= rem@);
            match T::from_bytes(rem) {
                Ok((x, next)) => {
                    let ghost old_out = out.deep_view();
                    out.push(x);
                    assert(out.deep_view() =~= old_out.push(x.deep_view()));
                    assert(next@ =~= after_count.skip(after_count.len() - next@.len()));
                    rem = next;
                },
                Err(e) => {
                    proof {
                        lemma_parse_items_err::<T>(after_count, (i + 1) as nat, count as nat, e);
                    }
                    return Err(e);
                },
            }
            i = i + 1;
        }
        assert(rem@ =~= bytes@.skip(bytes@.len() - rem@.len()));
        Ok((out, rem))
    }
}

// ----- pairs -----
impl<A: FromBytes, B: FromBytes> ToBytes for (A, B) {
    open spec fn spec_valid(v: (A::V, B::V)) -> bool {
        A::spec_valid(v.0) && B::spec_valid(v.1)
    }

    open spec fn spec_bytes(v: (A::V, B::V)) -> Seq<u8> {
        A::spec_bytes(v.0) + B::spec_bytes(v.1)
    }

    proof fn lemma_valid(&self) {
        self.0.lemma_valid();
        self.1.lemma_valid();
    }

    proof fn lemma_nonempty(v: (A::V, B::V)) {
        A::lemma_nonempty(v.0);
    }

    fn write_bytes(&self, buf: &mut Vec<u8>) {
        self.0.write_bytes(buf);
        self.1.write_bytes(buf);
        assert(buf@ =~= old(buf)@ + (A::spec_bytes(self.0.deep_view()) + B::spec_bytes(
            self.1.deep_view(),
        )));
    }

    fn serialized_length(&self) -> (n: usize) {
        self.0.serialized_length() + self.1.serialized_length()
    }
}

impl<A: FromBytes, B: FromBytes> FromBytes for (A, B) {
    open spec fn spec_parse(bytes: Seq<u8>) -> Result<((A::V, B::V), nat), Error> {
        match A::spec_parse(bytes) {
            Ok((a, k)) => match B::spec_parse(bytes.skip(k as int)) {
                Ok((b, m)) => Ok(((a, b), k + m)),
                Err(e) => Err(e),
            },
            Err(e) => Err(e),
        }
    }

    proof fn lemma_parse_bound(bytes: Seq<u8>) {
        A::lemma_parse_bound(bytes);
        if let Ok((a, k)) = A::spec_parse(bytes) {
            B::lemma_parse_bound(bytes.skip(k as int));
        }
    }

    proof fn lemma_roundtrip(v: (A::V, B::V), rest: Seq<u8>) {
        let ba = A::spec_bytes(v.0);
        let bb = B::spec_bytes(v.1);
        assert(ba + bb + rest =~= ba + (bb + rest));
        A::lemma_roundtrip(v.0, bb + rest);
        assert((ba + (bb + rest)).skip(ba.len() as int) =~= bb + rest);
        B::lemma_roundtrip(v.1, rest);
    }

    fn from_bytes(bytes: &[u8]) -> (r: Result<((A, B), &[u8]), Error>) {
        let (a, rem) = match A::from_bytes(bytes) {
            Ok(x) => x,
            Err(e) => return Err(e),
        };
        let ghost k = bytes@.len() - rem@.len();
        let (b, rem2) = match B::from_bytes(rem) {
            Ok(x) => x,
            Err(e) => return Err(e),
        };
        assert(rem2@ =~= bytes@.skip(bytes@.len() - rem2@.len()));
        Ok(((a, b), rem2))
    }
}


// ----- optional values -----
impl<T: FromBytes> ToBytes for Option<T> {
    open spec fn spec_valid(v: Option<T::V>) -> bool {
        match v {
            Some(x) => T::spec_valid(x),
            None => true,
        }
    }

    open spec fn spec_bytes(v: Option<T::V>) -> Seq<u8> {
        match v {
            Some(x) => seq![1u8] + T::spec_bytes(x),
            None => seq![0u8],
        }
    }

    proof fn lemma_valid(&self) {
        if let Some(x) = self {
            x.lemma_valid();
        }
    }

    proof fn lemma_nonempty(v: Option<T::V>) {
    }

    fn write_bytes(&self, buf: &mut Vec<u8>) {
        match self {
            Some(x) => {
                buf.push(1u8);
                x.write_bytes(buf);
                assert(buf@ =~= old(buf)@ + (seq![1u8] + T::spec_bytes(x.deep_view())));
            },
            None => {
                buf.push(0u8);
                assert(buf@ =~= old(buf)@ + seq![0u8]);
            },
        }
    }

    fn serialized_length(&self) -> (n: usize) {
        match self {
            Some(x) => 1 + x.serialized_length(),
            None => 1,
        }
    }
}

impl<T: FromBytes> FromBytes for Option<T> {
    open spec fn spec_parse(bytes: Seq<u8>) -> Result<(Option<T::V>, nat), Error> {
        if bytes.len() < 1 {
            Err(Error::EarlyEndOfStream)
        } else if bytes[0] == 0 {
            Ok((None, 1))
        } else if bytes[0] == 1 {
            match T::spec_parse(bytes.skip(1)) {
                Ok((x, k)) => Ok((Some(x), 1 + k)),
                Err(e) => Err(e),
            }
        } else {
            Err(Error::Formatting)
        }
    }

    proof fn lemma_parse_bound(bytes: Seq<u8>) {
        if bytes.len() >= 1 {
            T::lemma_parse_bound(bytes.skip(1));
        }
    }

    proof fn lemma_roundtrip(v: Option<T::V>, rest: Seq<u8>) {
        match v {
            Some(x) => {
                let all = Self::spec_bytes(v) + rest;
                assert(all[0] == 1u8);
                assert(all.skip(1) =~= T::spec_bytes(x) + rest);
                T::lemma_roundtrip(x, rest);
            },
            None => {
                assert((seq![0u8] + rest)[0] == 0u8);
            },
        }
    }

    fn from_bytes(bytes: &[u8]) -> (r: Result<(Option<T>, &[u8]), Error>) {
        if bytes.len() < 1 {
            return Err(Error::EarlyEndOfStream);
        }
        let tag = bytes[0];
        let rest = &bytes[1..bytes.len()];
        assert(rest@ =~= bytes@.skip(1));
        if tag == 0 {
            Ok((None, rest))
        } else if tag == 1 {
            match T::from_bytes(rest) {
                Ok((x, rem)) => {
                    assert(rem@ =~= bytes@.skip(bytes@.len() - rem@.len()));
                    Ok((Some(x), rem))
                },
                Err(e) => Err(e),
            }
        } else {
            Err(Error::Formatting)
        }
    }
}


// ----- double-ended queues: written as sequences -----
impl<T: FromBytes> ToBytes for VecDeque<T> {
    open spec fn spec_valid(vs: Seq<T::V>) -> bool {
        Vec::<T>::spec_valid(vs)
    }

    open spec fn spec_bytes(vs: Seq<T::V>) -> Seq<u8> {
        Vec::<T>::spec_bytes(vs)
    }

    proof fn lemma_valid(&self) {
        assert forall|i: int| 0 <= i < self.deep_view().len() implies T::spec_valid(
            #[trigger] self.deep_view()[i],
        ) by {
            self@[i].lemma_valid();
        }
    }

    proof fn lemma_nonempty(vs: Seq<T::V>) {
    }

    fn write_bytes(&self, buf: &mut Vec<u8>) {
        let n = self.len();
        (n as u32).write_bytes(buf);
        let ghost start = buf@;
        let ghost dv = self.deep_view();
        let mut i: usize = 0;
        while i < n
            invariant
                n == self@.len(),
                dv == self.deep_view(),
                0 <= i <= n,
                start == old(buf)@ + u32_le_bytes(n as u32),
                buf@ == start + items_bytes::<T>(dv.take(i as int)),
            decreases n - i,
        {
            self[i].write_bytes(buf);
            proof {
                lemma_items_take::<T>(dv, i as int);
                assert(dv[i as int] == self@[i as int].deep_view());
            }
            i = i + 1;
        }
        assert(dv.take(n as int) =~= dv);
        assert(buf@ =~= old(buf)@ + (u32_le_bytes(n as u32) + items_bytes::<T>(dv)));
    }

    fn serialized_length(&self) -> (n: usize) {
        let len = self.len();
        let ghost dv = self.deep_view();
        let mut total: usize = 4;
        let mut i: usize = 0;
        while i < len
            invariant
                len == self@.len(),
                dv == self.deep_view(),
                0 <= i <= len,
                4 + items_bytes::<T>(dv).len() <= usize::MAX,
                total == 4 + items_bytes::<T>(dv.take(i as int)).len(),
            decreases len - i,
        {
            proof {
                lemma_items_take::<T>(dv, i as int);
                lemma_items_prefix_len::<T>(dv, i + 1);
                assert(dv[i as int] == self@[i as int].deep_view());
            }
            let k = self[i].serialized_length();
            total = total + k;
            i = i + 1;
        }
        assert(dv.take(len as int) =~= dv);
        total
    }
}

impl<T: FromBytes> FromBytes for VecDeque<T> {
    open spec fn spec_parse(bytes: Seq<u8>) -> Result<(Seq<T::V>, nat), Error> {
        Vec::<T>::spec_parse(bytes)
    }

    proof fn lemma_parse_bound(bytes: Seq<u8>) {
        Vec::<T>::lemma_parse_bound(bytes);
    }

    proof fn lemma_roundtrip(vs: Seq<T::V>, rest: Seq<u8>) {
        Vec::<T>::lemma_roundtrip(vs, rest);
    }

    fn from_bytes(bytes: &[u8]) -> (r: Result<(VecDeque<T>, &[u8]), Error>) {
        let (mut items, rem) = match Vec::<T>::from_bytes(bytes) {
            Ok(x) => x,
            Err(e) => return Err(e),
        };
        let ghost dv = items.deep_view();
        let n = items.len();
        let mut out: VecDeque<T> = VecDeque::new();
        // Moves the items over from the back, so that each step is a `pop`.
        let mut i: usize = n;
        while i > 0
            invariant
                0 <= i <= n,
                n == dv.len(),
                items@.len() == i,
                items.deep_view() == dv.take(i as int),
                out.deep_view() == dv.skip(i as int),
            decreases i,
        {
            let ghost before = items@;
            let x = match items.pop() {
                Some(x) => x,
                None => return Err(Error::EarlyEndOfStream),
            };
            assert(x.deep_view() == dv.take(i as int)[i - 1]);
            let ghost out_before = out@;
            assert(out.deep_view().len() == out@.len());
            assert(out_before.len() == n - i);
            out.push_front(x);
            assert(out@.len() == n - i + 1);
            assert(items.deep_view() =~= dv.take(i - 1));
            assert forall|j: int| 0 <= j < out.deep_view().len() implies #[trigger] out.deep_view()[j]
                == dv.skip(i - 1)[j] by {
                if j > 0 {
                    assert(out@[j] == out_before[j - 1]);
                    assert(dv.skip(i as int)[j - 1] == dv[i + j - 1]);
                    assert(dv.skip(i - 1)[j] == dv[i + j - 1]);
                }
            }
            assert(out.deep_view() =~= dv.skip(i - 1));
            i = i - 1;
        }
        assert(out.deep_view() =~= dv);
        Ok((out, rem))
    }
}

} // verus!
