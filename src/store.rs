//! Typed get and put over a transactional key-value handle, with a binary codec at the boundary.

use vstd::prelude::*;

verus! {

/// Why a codec could not decode bytes, or a transaction could not read or write.
#[derive(Clone, Copy, Debug, PartialEq, Eq, Structural)]
pub enum StoreError {
    /// The bytes end before the value does.
    EarlyEndOfStream,
    /// Bytes are left over after the value.
    LeftOverBytes,
    /// The bytes do not form a value, or the value has no encoding.
    Formatting,
    /// The transaction failed, with its own error code.
    Transaction(u64),
}

/// The eight little-endian bytes of `v`.
pub open spec fn le_bytes(v: u64) -> Seq<u8> {
    seq![
        (v & 0xff) as u8,
        ((v >> 8u64) & 0xff) as u8,
        ((v >> 16u64) & 0xff) as u8,
        ((v >> 24u64) & 0xff) as u8,
        ((v >> 32u64) & 0xff) as u8,
        ((v >> 40u64) & 0xff) as u8,
        ((v >> 48u64) & 0xff) as u8,
        ((v >> 56u64) & 0xff) as u8,
    ]
}

/// The value of eight little-endian bytes.
pub open spec fn le_value(b: Seq<u8>) -> u64 {
    (b[0] as u64) | ((b[1] as u64) << 8u64) | ((b[2] as u64) << 16u64) | ((b[3] as u64) << 24u64)
        | ((b[4] as u64) << 32u64) | ((b[5] as u64) << 40u64) | ((b[6] as u64) << 48u64) | ((
    b[7] as u64) << 56u64)
}

/// Decoding the encoding of an integer gives the integer back.
pub proof fn lemma_u64_round_trip(v: u64)
    ensures
        le_value(le_bytes(v)) == v,
{
    let b = le_bytes(v);
    let b0 = b[0];
    let b1 = b[1];
    let b2 = b[2];
    let b3 = b[3];
    let b4 = b[4];
    let b5 = b[5];
    let b6 = b[6];
    let b7 = b[7];
    assert((b0 as u64) | ((b1 as u64) << 8u64) | ((b2 as u64) << 16u64) | ((b3 as u64) << 24u64)
        | ((b4 as u64) << 32u64) | ((b5 as u64) << 40u64) | ((b6 as u64) << 48u64) | ((b7 as u64)
        << 56u64) == v) by (bit_vector)
        requires
            b0 == (v & 0xff) as u8,
            b1 == ((v >> 8u64) & 0xff) as u8,
            b2 == ((v >> 16u64) & 0xff) as u8,
            b3 == ((v >> 24u64) & 0xff) as u8,
            b4 == ((v >> 32u64) & 0xff) as u8,
            b5 == ((v >> 40u64) & 0xff) as u8,
            b6 == ((v >> 48u64) & 0xff) as u8,
            b7 == ((v >> 56u64) & 0xff) as u8,
    ;
}

/// Relies on casper_types' `ToBytes` for `u64`: the eight little-endian bytes, never an error.
#[verifier::external_body]
fn u64_to_bytes(v: u64) -> (r: Vec<u8>)
    ensures
        r@ == le_bytes(v),
{
    casper_types::bytesrepr::ToBytes::to_bytes(&v).unwrap_or_default()
}

/// Relies on casper_types' `bytesrepr::deserialize_from_slice` for `u64`: exactly eight bytes
/// decode little-endian; fewer end early, more are left over.
#[verifier::external_body]
fn u64_from_bytes(b: &[u8]) -> (r: Result<u64, StoreError>)
    ensures
        r == (if b@.len() == 8 {
            Ok(le_value(b@))
        } else if b@.len() < 8 {
            Err(StoreError::EarlyEndOfStream)
        } else {
            Err(StoreError::LeftOverBytes)
        }),
{
    match casper_types::bytesrepr::deserialize_from_slice::<&[u8], u64>(b) {
        Ok(v) => Ok(v),
        Err(casper_types::bytesrepr::Error::EarlyEndOfStream) => Err(StoreError::EarlyEndOfStream),
        Err(casper_types::bytesrepr::Error::LeftOverBytes) => Err(StoreError::LeftOverBytes),
        Err(_) => Err(StoreError::Formatting),
    }
}

/// A value with a symmetric binary encoding.
pub trait Codec: Sized {
    /// The bytes that encode the value.
    spec fn encoding(&self) -> Seq<u8>;

    /// What decoding `bytes` gives: a value, or the reason there is none.
    spec fn decoded(bytes: Seq<u8>) -> Result<Self, StoreError>;

    /// Decoding the encoding of a value gives the value back.
    proof fn lemma_round_trip(v: Self)
        ensures
            Self::decoded(v.encoding()) == Ok::<Self, StoreError>(v),
    ;

    fn encode(&self) -> (r: Result<Vec<u8>, StoreError>)
        ensures
            r is Ok,
            r matches Ok(b) && b@ == self.encoding(),
    ;

    fn decode(bytes: &[u8]) -> (r: Result<Self, StoreError>)
        ensures
            r == Self::decoded(bytes@),
    ;
}

impl Codec for u64 {
    open spec fn encoding(&self) -> Seq<u8> {
        le_bytes(*self)
    }

    open spec fn decoded(bytes: Seq<u8>) -> Result<u64, StoreError> {
        if bytes.len() == 8 {
            Ok(le_value(bytes))
        } else if bytes.len() < 8 {
            Err(StoreError::EarlyEndOfStream)
        } else {
            Err(StoreError::LeftOverBytes)
        }
    }

    proof fn lemma_round_trip(v: u64) {
        lemma_u64_round_trip(v);
    }

    fn encode(&self) -> (r: Result<Vec<u8>, StoreError>) {
        Ok(u64_to_bytes(*self))
    }

    fn decode(bytes: &[u8]) -> (r: Result<u64, StoreError>) {
        u64_from_bytes(bytes)
    }
}

/// What a get finds under `key` in `contents`: nothing, or the stored bytes decoded.
pub open spec fn decoded_entry<V: Codec>(
    contents: Map<(u64, Seq<u8>), Seq<u8>>,
    key: (u64, Seq<u8>),
) -> Result<Option<V>, StoreError> {
    if !contents.contains_key(key) {
        Ok(None)
    } else {
        match V::decoded(contents[key]) {
            Ok(v) => Ok(Some(v)),
            Err(e) => Err(e),
        }
    }
}

/// Raw reads through a transaction: what it holds for each store handle and key.
pub trait Readable {
    spec fn contents(&self) -> Map<(u64, Seq<u8>), Seq<u8>>;

    /// The transaction never fails to read or write.
    spec fn infallible(&self) -> bool;

    fn read(&self, handle: u64, key: &[u8]) -> (r: Result<Option<Vec<u8>>, StoreError>)
        ensures
            self.infallible() ==> r is Ok,
            r matches Ok(o) ==> match o {
                Some(b) => self.contents().contains_key((handle, key@)) && b@ == self.contents()[(
                handle,
                key@,
                )],
                None => !self.contents().contains_key((handle, key@)),
            },
    ;
}

/// Raw writes through a transaction; a write is seen by later reads of the same transaction.
pub trait Writable: Readable {
    fn write(&mut self, handle: u64, key: &[u8], value: &[u8]) -> (r: Result<(), StoreError>)
        ensures
            old(self).infallible() ==> r is Ok && final(self).infallible(),
            r is Ok ==> final(self).contents() == old(self).contents().insert(
                (handle, key@),
                value@,
            ),
            r is Err ==> final(self).contents() == old(self).contents(),
    ;
}

/// A transaction held in memory; it never fails.
pub struct MemoryTransaction {
    entries: Vec<(u64, Vec<u8>, Vec<u8>)>,
}

pub open spec fn memory_contents(s: Seq<(u64, Vec<u8>, Vec<u8>)>) -> Map<(u64, Seq<u8>), Seq<u8>>
    decreases s.len(),
{
    if s.len() == 0 {
        Map::empty()
    } else {
        memory_contents(s.drop_last()).insert((s.last().0, s.last().1@), s.last().2@)
    }
}

impl MemoryTransaction {
    pub fn new() -> (r: Self)
        ensures
            r.contents() == Map::<(u64, Seq<u8>), Seq<u8>>::empty(),
    {
        MemoryTransaction { entries: Vec::new() }
    }
}

impl Readable for MemoryTransaction {
    closed spec fn contents(&self) -> Map<(u64, Seq<u8>), Seq<u8>> {
        memory_contents(self.entries@)
    }

    open spec fn infallible(&self) -> bool {
        true
    }

    fn read(&self, handle: u64, key: &[u8]) -> (r: Result<Option<Vec<u8>>, StoreError>) {
        let mut i: usize = self.entries.len();
        let ghost k = (handle, key@);
        assert(self.entries@.subrange(0, i as int) =~= self.entries@);
        while i > 0
            invariant
                i <= self.entries@.len(),
                k == (handle, key@),
                memory_contents(self.entries@).contains_key(k) == memory_contents(
                    self.entries@.subrange(0, i as int),
                ).contains_key(k),
                memory_contents(self.entries@).contains_key(k) ==> memory_contents(self.entries@)[k]
                    == memory_contents(self.entries@.subrange(0, i as int))[k],
            decreases i,
        {
            let ghost pre = self.entries@.subrange(0, i as int);
            assert(pre.drop_last() =~= self.entries@.subrange(0, i - 1));
            let e = &self.entries[i - 1];
            assert(pre.last() == *e);
            if e.0 == handle && crate::types::bytes_eq(&e.1, &crate::types::copy_slice(key)) {
                assert((e.0, e.1@) == k);
                return Ok(Some(crate::types::copy_bytes(&e.2)));
            }
            assert((e.0, e.1@) != k);
            i = i - 1;
        }
        assert(memory_contents(self.entries@.subrange(0, 0)) == Map::<(u64, Seq<u8>), Seq<u8>>::empty());
        Ok(None)
    }
}

impl Writable for MemoryTransaction {
    fn write(&mut self, handle: u64, key: &[u8], value: &[u8]) -> (r: Result<(), StoreError>) {
        let ghost pre = self.entries@;
        self.entries.push((handle, crate::types::copy_slice(key), crate::types::copy_slice(value)));
        assert(self.entries@.drop_last() =~= pre);
        Ok(())
    }
}

/// The contents after putting each pair of `s`, in order, under `handle`.
pub open spec fn put_all<K: Codec, V: Codec>(
    contents: Map<(u64, Seq<u8>), Seq<u8>>,
    handle: u64,
    s: Seq<(K, V)>,
) -> Map<(u64, Seq<u8>), Seq<u8>>
    decreases s.len(),
{
    if s.len() == 0 {
        contents
    } else {
        put_all(contents, handle, s.drop_last()).insert(
            (handle, s.last().0.encoding()),
            s.last().1.encoding(),
        )
    }
}

/// A store of values of one type under keys of one type, over the handle of its table. It never
/// opens a transaction: every operation goes through the one it is given.
pub struct Store {
    pub handle: u64,
}

impl Store {
    /// The value under `key`, decoded, if the transaction holds one.
    pub fn get<K: Codec, V: Codec, T: Readable>(&self, txn: &T, key: &K) -> (r: Result<
        Option<V>,
        StoreError,
    >)
        ensures
            r matches Ok(Some(v)) ==> txn.contents().contains_key((self.handle, key.encoding()))
                && V::decoded(txn.contents()[(self.handle, key.encoding())]) == Ok::<
                V,
                StoreError,
            >(v),
            r matches Ok(None) ==> !txn.contents().contains_key((self.handle, key.encoding())),
            txn.infallible() ==> r == decoded_entry::<V>(
                txn.contents(),
                (self.handle, key.encoding()),
            ),
    {
        let key_bytes = key.encode()?;
        match txn.read(self.handle, key_bytes.as_slice())? {
            None => Ok(None),
            Some(value_bytes) => {
                let value = V::decode(value_bytes.as_slice())?;
                Ok(Some(value))
            },
        }
    }

    /// The bytes under a raw key, undecoded, if the transaction holds them.
    pub fn get_raw<T: Readable>(&self, txn: &T, key: &[u8]) -> (r: Result<
        Option<Vec<u8>>,
        StoreError,
    >)
        ensures
            r matches Ok(Some(b)) ==> txn.contents().contains_key((self.handle, key@))
                && b@ == txn.contents()[(self.handle, key@)],
            r matches Ok(None) ==> !txn.contents().contains_key((self.handle, key@)),
            txn.infallible() ==> r is Ok,
    {
        txn.read(self.handle, key)
    }

    /// Writes the encoded `value` under the encoded `key`.
    pub fn put<K: Codec, V: Codec, T: Writable>(&self, txn: &mut T, key: &K, value: &V) -> (r:
        Result<(), StoreError>)
        ensures
            r is Ok ==> final(txn).contents() == old(txn).contents().insert(
                (self.handle, key.encoding()),
                value.encoding(),
            ),
            r is Err ==> final(txn).contents() == old(txn).contents(),
            old(txn).infallible() ==> r is Ok && final(txn).infallible(),
    {
        let key_bytes = key.encode()?;
        let value_bytes = value.encode()?;
        txn.write(self.handle, key_bytes.as_slice(), value_bytes.as_slice())
    }

    /// Writes caller-owned bytes under a raw key.
    pub fn put_raw<T: Writable>(&self, txn: &mut T, key: &[u8], value_bytes: &[u8]) -> (r: Result<
        (),
        StoreError,
    >)
        ensures
            r is Ok ==> final(txn).contents() == old(txn).contents().insert(
                (self.handle, key@),
                value_bytes@,
            ),
            r is Err ==> final(txn).contents() == old(txn).contents(),
            old(txn).infallible() ==> r is Ok && final(txn).infallible(),
    {
        txn.write(self.handle, key, value_bytes)
    }
    /// Gets the value under each key, in order; the first failure ends the reads and is
    /// returned.
    pub fn get_many<K: Codec, V: Codec, T: Readable>(&self, txn: &T, keys: &Vec<K>) -> (r: Result<
        Vec<Option<V>>,
        StoreError,
    >)
        ensures
            r matches Ok(vs) ==> vs@.len() == keys@.len() && forall|i: int|
                0 <= i < keys@.len() ==> match #[trigger] vs@[i] {
                    Some(v) => txn.contents().contains_key((self.handle, keys@[i].encoding()))
                        && V::decoded(txn.contents()[(self.handle, keys@[i].encoding())]) == Ok::<
                        V,
                        StoreError,
                    >(v),
                    None => !txn.contents().contains_key((self.handle, keys@[i].encoding())),
                },
            txn.infallible() ==> match r {
                Ok(vs) => forall|i: int|
                    0 <= i < keys@.len() ==> decoded_entry::<V>(
                        txn.contents(),
                        (self.handle, keys@[i].encoding()),
                    ) == Ok::<Option<V>, StoreError>(#[trigger] vs@[i]),
                Err(e) => exists|i: int|
                    0 <= i < keys@.len() && decoded_entry::<V>(
                        txn.contents(),
                        (self.handle, #[trigger] keys@[i].encoding()),
                    ) == Err::<Option<V>, StoreError>(e) && forall|j: int|
                        0 <= j < i ==> decoded_entry::<V>(
                            txn.contents(),
                            (self.handle, #[trigger] keys@[j].encoding()),
                        ) is Ok,
            },
    {
        let mut vs: Vec<Option<V>> = Vec::new();
        let mut i: usize = 0;
        while i < keys.len()
            invariant
                0 <= i <= keys@.len(),
                vs@.len() == i,
                forall|j: int|
                    0 <= j < i ==> match #[trigger] vs@[j] {
                        Some(v) => txn.contents().contains_key((self.handle, keys@[j].encoding()))
                            && V::decoded(txn.contents()[(self.handle, keys@[j].encoding())])
                            == Ok::<V, StoreError>(v),
                        None => !txn.contents().contains_key((self.handle, keys@[j].encoding())),
                    },
                txn.infallible() ==> forall|j: int|
                    0 <= j < i ==> decoded_entry::<V>(
                        txn.contents(),
                        (self.handle, keys@[j].encoding()),
                    ) == Ok::<Option<V>, StoreError>(#[trigger] vs@[j]),
            decreases keys@.len() - i,
        {
            let v = self.get::<K, V, T>(txn, &keys[i]);
            match v {
                Ok(v) => {
                    vs.push(v);
                },
                Err(e) => {
                    proof {
                        if txn.infallible() {
                            assert forall|j: int| 0 <= j < i implies decoded_entry::<V>(
                                txn.contents(),
                                (self.handle, #[trigger] keys@[j].encoding()),
                            ) is Ok by {
                                assert(decoded_entry::<V>(
                                    txn.contents(),
                                    (self.handle, keys@[j].encoding()),
                                ) == Ok::<Option<V>, StoreError>(vs@[j]));
                            }
                        }
                    }
                    return Err(e);
                },
            }
            i = i + 1;
        }
        Ok(vs)
    }

    /// Puts each pair, in order; the first failure ends the writes and is returned, and what
    /// was written before it stays in the transaction for the caller to commit or drop.
    pub fn put_many<K: Codec, V: Codec, T: Writable>(&self, txn: &mut T, pairs: &Vec<(K, V)>) -> (r:
        Result<(), StoreError>)
        ensures
            r is Ok ==> final(txn).contents() == put_all(old(txn).contents(), self.handle, pairs@),
            r is Err ==> exists|n: int|
                0 <= n < pairs@.len() && final(txn).contents() == put_all(
                    old(txn).contents(),
                    self.handle,
                    #[trigger] pairs@.subrange(0, n),
                ),
            old(txn).infallible() ==> r is Ok && final(txn).infallible(),
    {
        let ghost start = txn.contents();
        let mut i: usize = 0;
        assert(pairs@.subrange(0, 0) =~= Seq::<(K, V)>::empty());
        while i < pairs.len()
            invariant
                0 <= i <= pairs@.len(),
                txn.contents() == put_all(start, self.handle, pairs@.subrange(0, i as int)),
                old(txn).infallible() ==> txn.infallible(),
                start == old(txn).contents(),
            decreases pairs@.len() - i,
        {
            let ghost pre = txn.contents();
            let w = self.put(txn, &pairs[i].0, &pairs[i].1);
            if w.is_err() {
                assert(txn.contents() == put_all(start, self.handle, pairs@.subrange(0, i as int)));
                return w;
            }
            assert(pairs@.subrange(0, i + 1).drop_last() =~= pairs@.subrange(0, i as int));
            i = i + 1;
        }
        assert(pairs@.subrange(0, pairs@.len() as int) =~= pairs@);
        Ok(())
    }
}

/// A value put through a store is what a get in the same transaction returns: after the put
/// writes the encoding of `value` under the key, the get finds and decodes it to `value`.
pub proof fn lemma_put_then_get<V: Codec>(
    before: Map<(u64, Seq<u8>), Seq<u8>>,
    handle: u64,
    key: Seq<u8>,
    value: V,
)
    ensures
        decoded_entry::<V>(before.insert((handle, key), value.encoding()), (handle, key)) == Ok::<
            Option<V>,
            StoreError,
        >(Some(value)),
{
    V::lemma_round_trip(value);
}

} // verus!
