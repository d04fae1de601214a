//! Keys: how records are told apart and assigned to buckets.
use std::collections::hash_map::DefaultHasher;
use std::hash::Hasher;

use vstd::prelude::*;
use vstd::std_specs::hash::DefaultHasherAdditionalSpecFns;

use crate::bytes::{le128, le16, le32, le64, put_le128, put_le16, put_le32, put_le64};
use crate::seqs::{concat, lemma_concat_flattens, lemma_concat_push};

verus! {

/// A key that records are grouped and partitioned by.
///
/// Two keys are the same key when their views are equal, and a key's view alone decides what
/// it writes into a hasher, so equal keys always land in the same bucket.
pub trait ShuffleKey: DeepView + Sized {
    /// The writes that a key with this view makes into a hasher, in order.
    spec fn hash_input(id: Self::V) -> Seq<Seq<u8>>;

    /// Whether `self` and `other` are the same key.
    fn same(&self, other: &Self) -> (b: bool)
        ensures
            b == (self.deep_view() == other.deep_view()),
    ;

    /// Another key that is the same key.
    fn dup(&self) -> (k: Self)
        ensures
            k.deep_view() == self.deep_view(),
    ;

    /// Writes the key into a hasher.
    fn feed(&self, state: &mut DefaultHasher)
        ensures
            final(state)@ == old(state)@ + Self::hash_input(self.deep_view()),
    ;
}

/// The hash of a key with view `id`.
pub open spec fn hash_of<K: ShuffleKey>(id: K::V) -> u64 {
    DefaultHasher::spec_finish(K::hash_input(id))
}

/// The bucket of a key with view `id` among `n` buckets; everything is in bucket 0 when `n` is 0.
pub open spec fn bucket_of<K: ShuffleKey>(id: K::V, n: usize) -> usize {
    (hash_of::<K>(id) as usize) % (if n == 0 {
        1usize
    } else {
        n
    })
}

/// Hashes a key.
pub fn key_hash<K: ShuffleKey>(key: &K) -> (h: u64)
    ensures
        h == hash_of::<K>(key.deep_view()),
{
    let mut hasher = DefaultHasher::new();
    key.feed(&mut hasher);
    assert(hasher@ =~= K::hash_input(key.deep_view()));
    hasher.finish()
}

/// The bucket that a key belongs to among `n` buckets.
pub fn hash_bucket<K: ShuffleKey>(key: &K, n: usize) -> (b: usize)
    ensures
        b == bucket_of::<K>(key.deep_view(), n),
        n > 0 ==> b < n,
        n == 0 ==> b == 0,
{
    let m: usize = if n == 0 {
        1
    } else {
        n
    };
    (key_hash(key) as usize) % m
}

fn feed_byte(state: &mut DefaultHasher, b: u8)
    ensures
        final(state)@ == old(state)@.push(seq![b]),
{
    let mut one: Vec<u8> = Vec::new();
    one.push(b);
    assert(one@ =~= seq![b]);
    state.write(one.as_slice());
}

fn feed_word(state: &mut DefaultHasher, n: u64)
    ensures
        final(state)@ == old(state)@.push(le64(n)),
{
    let mut out: Vec<u8> = Vec::new();
    put_le64(&mut out, n);
    assert(out@ =~= le64(n));
    state.write(out.as_slice());
}

impl ShuffleKey for u8 {
    open spec fn hash_input(id: u8) -> Seq<Seq<u8>> {
        seq![seq![id]]
    }

    fn same(&self, other: &Self) -> (b: bool) {
        *self == *other
    }

    fn dup(&self) -> (k: Self) {
        *self
    }

    fn feed(&self, state: &mut DefaultHasher) {
        feed_byte(state, *self);
        assert(state@ =~= old(state)@ + Self::hash_input(self.deep_view()));
    }
}

impl ShuffleKey for u16 {
    open spec fn hash_input(id: u16) -> Seq<Seq<u8>> {
        seq![le16(id)]
    }

    fn same(&self, other: &Self) -> (b: bool) {
        *self == *other
    }

    fn dup(&self) -> (k: Self) {
        *self
    }

    fn feed(&self, state: &mut DefaultHasher) {
        let mut out: Vec<u8> = Vec::new();
        put_le16(&mut out, *self);
        assert(out@ =~= le16(*self));
        state.write(out.as_slice());
        assert(state@ =~= old(state)@ + Self::hash_input(self.deep_view()));
    }
}

impl ShuffleKey for u32 {
    open spec fn hash_input(id: u32) -> Seq<Seq<u8>> {
        seq![le32(id)]
    }

    fn same(&self, other: &Self) -> (b: bool) {
        *self == *other
    }

    fn dup(&self) -> (k: Self) {
        *self
    }

    fn feed(&self, state: &mut DefaultHasher) {
        let mut out: Vec<u8> = Vec::new();
        put_le32(&mut out, *self);
        assert(out@ =~= le32(*self));
        state.write(out.as_slice());
        assert(state@ =~= old(state)@ + Self::hash_input(self.deep_view()));
    }
}

impl ShuffleKey for u64 {
    open spec fn hash_input(id: u64) -> Seq<Seq<u8>> {
        seq![le64(id)]
    }

    fn same(&self, other: &Self) -> (b: bool) {
        *self == *other
    }

    fn dup(&self) -> (k: Self) {
        *self
    }

    fn feed(&self, state: &mut DefaultHasher) {
        let mut out: Vec<u8> = Vec::new();
        put_le64(&mut out, *self);
        assert(out@ =~= le64(*self));
        state.write(out.as_slice());
        assert(state@ =~= old(state)@ + Self::hash_input(self.deep_view()));
    }
}

impl ShuffleKey for usize {
    open spec fn hash_input(id: usize) -> Seq<Seq<u8>> {
        seq![le64(id as u64)]
    }

    fn same(&self, other: &Self) -> (b: bool) {
        *self == *other
    }

    fn dup(&self) -> (k: Self) {
        *self
    }

    fn feed(&self, state: &mut DefaultHasher) {
        let mut out: Vec<u8> = Vec::new();
        put_le64(&mut out, *self as u64);
        assert(out@ =~= le64(*self as u64));
        state.write(out.as_slice());
        assert(state@ =~= old(state)@ + Self::hash_input(self.deep_view()));
    }
}

impl ShuffleKey for i8 {
    open spec fn hash_input(id: i8) -> Seq<Seq<u8>> {
        seq![seq![id as u8]]
    }

    fn same(&self, other: &Self) -> (b: bool) {
        *self == *other
    }

    fn dup(&self) -> (k: Self) {
        *self
    }

    fn feed(&self, state: &mut DefaultHasher) {
        feed_byte(state, *self as u8);
        assert(state@ =~= old(state)@ + Self::hash_input(self.deep_view()));
    }
}

impl ShuffleKey for i16 {
    open spec fn hash_input(id: i16) -> Seq<Seq<u8>> {
        seq![le16(id as u16)]
    }

    fn same(&self, other: &Self) -> (b: bool) {
        *self == *other
    }

    fn dup(&self) -> (k: Self) {
        *self
    }

    fn feed(&self, state: &mut DefaultHasher) {
        let mut out: Vec<u8> = Vec::new();
        put_le16(&mut out, *self as u16);
        assert(out@ =~= le16(*self as u16));
        state.write(out.as_slice());
        assert(state@ =~= old(state)@ + Self::hash_input(self.deep_view()));
    }
}

impl ShuffleKey for i32 {
    open spec fn hash_input(id: i32) -> Seq<Seq<u8>> {
        seq![le32(id as u32)]
    }

    fn same(&self, other: &Self) -> (b: bool) {
        *self == *other
    }

    fn dup(&self) -> (k: Self) {
        *self
    }

    fn feed(&self, state: &mut DefaultHasher) {
        let mut out: Vec<u8> = Vec::new();
        put_le32(&mut out, *self as u32);
        assert(out@ =~= le32(*self as u32));
        state.write(out.as_slice());
        assert(state@ =~= old(state)@ + Self::hash_input(self.deep_view()));
    }
}

impl ShuffleKey for i64 {
    open spec fn hash_input(id: i64) -> Seq<Seq<u8>> {
        seq![le64(id as u64)]
    }

    fn same(&self, other: &Self) -> (b: bool) {
        *self == *other
    }

    fn dup(&self) -> (k: Self) {
        *self
    }

    fn feed(&self, state: &mut DefaultHasher) {
        let mut out: Vec<u8> = Vec::new();
        put_le64(&mut out, *self as u64);
        assert(out@ =~= le64(*self as u64));
        state.write(out.as_slice());
        assert(state@ =~= old(state)@ + Self::hash_input(self.deep_view()));
    }
}

impl ShuffleKey for isize {
    open spec fn hash_input(id: isize) -> Seq<Seq<u8>> {
        seq![le64(id as u64)]
    }

    fn same(&self, other: &Self) -> (b: bool) {
        *self == *other
    }

    fn dup(&self) -> (k: Self) {
        *self
    }

    fn feed(&self, state: &mut DefaultHasher) {
        let mut out: Vec<u8> = Vec::new();
        put_le64(&mut out, *self as u64);
        assert(out@ =~= le64(*self as u64));
        state.write(out.as_slice());
        assert(state@ =~= old(state)@ + Self::hash_input(self.deep_view()));
    }
}

impl ShuffleKey for u128 {
    open spec fn hash_input(id: u128) -> Seq<Seq<u8>> {
        seq![le128(id)]
    }

    fn same(&self, other: &Self) -> (b: bool) {
        *self == *other
    }

    fn dup(&self) -> (k: Self) {
        *self
    }

    fn feed(&self, state: &mut DefaultHasher) {
        let mut out: Vec<u8> = Vec::new();
        put_le128(&mut out, *self);
        assert(out@ =~= le128(*self));
        state.write(out.as_slice());
        assert(state@ =~= old(state)@ + Self::hash_input(self.deep_view()));
    }
}

impl ShuffleKey for i128 {
    open spec fn hash_input(id: i128) -> Seq<Seq<u8>> {
        seq![le128(id as u128)]
    }

    fn same(&self, other: &Self) -> (b: bool) {
        *self == *other
    }

    fn dup(&self) -> (k: Self) {
        *self
    }

    fn feed(&self, state: &mut DefaultHasher) {
        let mut out: Vec<u8> = Vec::new();
        put_le128(&mut out, *self as u128);
        assert(out@ =~= le128(*self as u128));
        state.write(out.as_slice());
        assert(state@ =~= old(state)@ + Self::hash_input(self.deep_view()));
    }
}

impl ShuffleKey for bool {
    open spec fn hash_input(id: bool) -> Seq<Seq<u8>> {
        seq![seq![if id { 1u8 } else { 0u8 }]]
    }

    fn same(&self, other: &Self) -> (b: bool) {
        *self == *other
    }

    fn dup(&self) -> (k: Self) {
        *self
    }

    fn feed(&self, state: &mut DefaultHasher) {
        feed_byte(state, if *self { 1 } else { 0 });
        assert(state@ =~= old(state)@ + Self::hash_input(self.deep_view()));
    }
}

impl ShuffleKey for char {
    open spec fn hash_input(id: char) -> Seq<Seq<u8>> {
        seq![le32(id as u32)]
    }

    fn same(&self, other: &Self) -> (b: bool) {
        *self == *other
    }

    fn dup(&self) -> (k: Self) {
        *self
    }

    fn feed(&self, state: &mut DefaultHasher) {
        let mut out: Vec<u8> = Vec::new();
        put_le32(&mut out, *self as u32);
        assert(out@ =~= le32(*self as u32));
        state.write(out.as_slice());
        assert(state@ =~= old(state)@ + Self::hash_input(self.deep_view()));
    }
}

impl ShuffleKey for () {
    open spec fn hash_input(id: ()) -> Seq<Seq<u8>> {
        Seq::empty()
    }

    fn same(&self, other: &Self) -> (b: bool) {
        true
    }

    fn dup(&self) -> (k: Self) {
        ()
    }

    fn feed(&self, state: &mut DefaultHasher) {
        assert(state@ =~= old(state)@ + Self::hash_input(self.deep_view()));
    }
}

impl ShuffleKey for String {
    open spec fn hash_input(id: Seq<char>) -> Seq<Seq<u8>> {
        seq![vstd::utf8::encode_utf8(id), seq![0xffu8]]
    }

    fn same(&self, other: &Self) -> (b: bool) {
        *self == *other
    }

    fn dup(&self) -> (k: Self) {
        self.clone()
    }

    fn feed(&self, state: &mut DefaultHasher) {
        state.write(self.as_str().as_bytes());
        feed_byte(state, 0xff);
        assert(state@ =~= old(state)@ + Self::hash_input(self.deep_view()));
    }
}

impl<'a> ShuffleKey for &'a str {
    open spec fn hash_input(id: Seq<char>) -> Seq<Seq<u8>> {
        seq![vstd::utf8::encode_utf8(id), seq![0xffu8]]
    }

    fn same(&self, other: &Self) -> (b: bool) {
        crate::text::str_eq(*self, *other)
    }

    fn dup(&self) -> (k: Self) {
        *self
    }

    fn feed(&self, state: &mut DefaultHasher) {
        state.write((*self).as_bytes());
        feed_byte(state, 0xff);
        assert(state@ =~= old(state)@ + Self::hash_input(self.deep_view()));
    }
}

impl<A: ShuffleKey, B: ShuffleKey> ShuffleKey for (A, B) {
    open spec fn hash_input(id: (A::V, B::V)) -> Seq<Seq<u8>> {
        A::hash_input(id.0) + B::hash_input(id.1)
    }

    fn same(&self, other: &Self) -> (b: bool) {
        self.0.same(&other.0) && self.1.same(&other.1)
    }

    fn dup(&self) -> (k: Self) {
        (self.0.dup(), self.1.dup())
    }

    fn feed(&self, state: &mut DefaultHasher) {
        self.0.feed(state);
        self.1.feed(state);
        assert(state@ =~= old(state)@ + Self::hash_input(self.deep_view()));
    }
}

impl<A: ShuffleKey, B: ShuffleKey, C: ShuffleKey> ShuffleKey for (A, B, C) {
    open spec fn hash_input(id: (A::V, B::V, C::V)) -> Seq<Seq<u8>> {
        A::hash_input(id.0) + B::hash_input(id.1) + C::hash_input(id.2)
    }

    fn same(&self, other: &Self) -> (b: bool) {
        self.0.same(&other.0) && self.1.same(&other.1) && self.2.same(&other.2)
    }

    fn dup(&self) -> (k: Self) {
        (self.0.dup(), self.1.dup(), self.2.dup())
    }

    fn feed(&self, state: &mut DefaultHasher) {
        self.0.feed(state);
        self.1.feed(state);
        self.2.feed(state);
        assert(state@ =~= old(state)@ + Self::hash_input(self.deep_view()));
    }
}

impl<A: ShuffleKey, B: ShuffleKey, C: ShuffleKey, D: ShuffleKey> ShuffleKey for (A, B, C, D) {
    open spec fn hash_input(id: (A::V, B::V, C::V, D::V)) -> Seq<Seq<u8>> {
        A::hash_input(id.0) + B::hash_input(id.1) + C::hash_input(id.2) + D::hash_input(id.3)
    }

    fn same(&self, other: &Self) -> (b: bool) {
        self.0.same(&other.0) && self.1.same(&other.1) && self.2.same(&other.2) && self.3.same(&other.3)
    }

    fn dup(&self) -> (k: Self) {
        (self.0.dup(), self.1.dup(), self.2.dup(), self.3.dup())
    }

    fn feed(&self, state: &mut DefaultHasher) {
        self.0.feed(state);
        self.1.feed(state);
        self.2.feed(state);
        self.3.feed(state);
        assert(state@ =~= old(state)@ + Self::hash_input(self.deep_view()));
    }
}

impl<A: ShuffleKey, B: ShuffleKey, C: ShuffleKey, D: ShuffleKey, E: ShuffleKey> ShuffleKey for (A, B, C, D, E) {
    open spec fn hash_input(id: (A::V, B::V, C::V, D::V, E::V)) -> Seq<Seq<u8>> {
        A::hash_input(id.0) + B::hash_input(id.1) + C::hash_input(id.2) + D::hash_input(id.3) + E::hash_input(id.4)
    }

    fn same(&self, other: &Self) -> (b: bool) {
        self.0.same(&other.0) && self.1.same(&other.1) && self.2.same(&other.2) && self.3.same(&other.3) && self.4.same(&other.4)
    }

    fn dup(&self) -> (k: Self) {
        (self.0.dup(), self.1.dup(), self.2.dup(), self.3.dup(), self.4.dup())
    }

    fn feed(&self, state: &mut DefaultHasher) {
        self.0.feed(state);
        self.1.feed(state);
        self.2.feed(state);
        self.3.feed(state);
        self.4.feed(state);
        assert(state@ =~= old(state)@ + Self::hash_input(self.deep_view()));
    }
}

impl<A: ShuffleKey, B: ShuffleKey, C: ShuffleKey, D: ShuffleKey, E: ShuffleKey, F: ShuffleKey> ShuffleKey for (A, B, C, D, E, F) {
    open spec fn hash_input(id: (A::V, B::V, C::V, D::V, E::V, F::V)) -> Seq<Seq<u8>> {
        A::hash_input(id.0) + B::hash_input(id.1) + C::hash_input(id.2) + D::hash_input(id.3) + E::hash_input(id.4) + F::hash_input(id.5)
    }

    fn same(&self, other: &Self) -> (b: bool) {
        self.0.same(&other.0) && self.1.same(&other.1) && self.2.same(&other.2) && self.3.same(&other.3) && self.4.same(&other.4) && self.5.same(&other.5)
    }

    fn dup(&self) -> (k: Self) {
        (self.0.dup(), self.1.dup(), self.2.dup(), self.3.dup(), self.4.dup(), self.5.dup())
    }

    fn feed(&self, state: &mut DefaultHasher) {
        self.0.feed(state);
        self.1.feed(state);
        self.2.feed(state);
        self.3.feed(state);
        self.4.feed(state);
        self.5.feed(state);
        assert(state@ =~= old(state)@ + Self::hash_input(self.deep_view()));
    }
}

impl<K: ShuffleKey> ShuffleKey for Option<K> {
    open spec fn hash_input(id: Option<K::V>) -> Seq<Seq<u8>> {
        match id {
            Some(k) => seq![le64(1)] + K::hash_input(k),
            None => seq![le64(0)],
        }
    }

    fn same(&self, other: &Self) -> (b: bool) {
        match (self, other) {
            (Some(a), Some(b)) => a.same(b),
            (None, None) => true,
            _ => false,
        }
    }

    fn dup(&self) -> (k: Self) {
        match self {
            Some(k) => Some(k.dup()),
            None => None,
        }
    }

    fn feed(&self, state: &mut DefaultHasher) {
        let ghost before = state@;
        match self {
            Some(k) => {
                feed_word(state, 1);
                k.feed(state);
                assert(state@ =~= before + Self::hash_input(self.deep_view()));
            },
            None => {
                feed_word(state, 0);
                assert(state@ =~= before + Self::hash_input(self.deep_view()));
            },
        }
    }
}

/// The writes that keys with these views make into a hasher, one after the other.
pub open spec fn inputs_of<K: ShuffleKey>(ids: Seq<K::V>) -> Seq<Seq<u8>>
    decreases ids.len(),
{
    if ids.len() == 0 {
        Seq::empty()
    } else {
        inputs_of::<K>(ids.drop_last()) + K::hash_input(ids.last())
    }
}

impl<K: ShuffleKey> ShuffleKey for Vec<K> {
    open spec fn hash_input(id: Seq<K::V>) -> Seq<Seq<u8>> {
        seq![le64(id.len() as u64)] + inputs_of::<K>(id)
    }

    fn same(&self, other: &Self) -> (b: bool) {
        let ghost (a, b) = (self.deep_view(), other.deep_view());
        if self.len() != other.len() {
            assert(a.len() != b.len());
            return false;
        }
        let mut i: usize = 0;
        while i < self.len()
            invariant
                i <= self@.len(),
                self@.len() == other@.len(),
                a == self.deep_view(),
                b == other.deep_view(),
                forall|j: int| 0 <= j < i ==> #[trigger] a[j] == b[j],
            decreases self@.len() - i,
        {
            if !self[i].same(&other[i]) {
                assert(a[i as int] != b[i as int]);
                return false;
            }
            i = i + 1;
        }
        assert(a =~= b);
        true
    }

    fn dup(&self) -> (k: Self) {
        let mut out: Vec<K> = Vec::new();
        let mut i: usize = 0;
        while i < self.len()
            invariant
                i <= self@.len(),
                out@.len() == i,
                forall|j: int|
                    0 <= j < i ==> (#[trigger] out@[j]).deep_view() == self@[j].deep_view(),
            decreases self@.len() - i,
        {
            out.push(self[i].dup());
            i = i + 1;
        }
        assert(out.deep_view() =~= self.deep_view());
        out
    }

    fn feed(&self, state: &mut DefaultHasher) {
        let ghost before = state@;
        let ghost ids = self.deep_view();
        feed_word(state, self.len() as u64);
        let ghost head = state@;
        let mut i: usize = 0;
        assert(ids.take(0) =~= Seq::<K::V>::empty());
        assert(head + inputs_of::<K>(ids.take(0)) =~= head);
        while i < self.len()
            invariant
                i <= self@.len(),
                ids == self.deep_view(),
                state@ == head + inputs_of::<K>(ids.take(i as int)),
            decreases self@.len() - i,
        {
            let ghost so_far = state@;
            self[i].feed(state);
            proof {
                assert(ids.take(i + 1).drop_last() =~= ids.take(i as int));
                assert(ids.take(i + 1).last() == self@[i as int].deep_view());
                assert(state@ =~= head + inputs_of::<K>(ids.take(i + 1)));
            }
            i = i + 1;
        }
        assert(ids.take(ids.len() as int) =~= ids);
        assert(state@ =~= before + Self::hash_input(self.deep_view()));
    }
}

// ---- laws

/// A key's bucket is its hash modulo the number of buckets, so it is one of them. Without buckets it
/// is 0.
pub proof fn lemma_bucket<K: ShuffleKey>(id: K::V, n: usize)
    ensures
        n > 0 ==> bucket_of::<K>(id, n) < n,
        n > 0 ==> bucket_of::<K>(id, n) == (DefaultHasher::spec_finish(K::hash_input(id)) as usize)
            % n,
        bucket_of::<K>(id, 0) == 0,
{
}

/// Numbers are hashed by their bytes, the least significant first, in one write.
pub proof fn lemma_number_input(a: u8, b: u16, c: u32, d: u64, e: u128, f: usize)
    ensures
        u8::hash_input(a) == seq![seq![a]],
        u16::hash_input(b) == seq![le16(b)],
        u32::hash_input(c) == seq![le32(c)],
        u64::hash_input(d) == seq![le64(d)],
        u128::hash_input(e) == seq![le128(e)],
        usize::hash_input(f) == seq![le64(f as u64)],
{
}

/// Signed numbers are hashed as the unsigned numbers with the same bits.
pub proof fn lemma_signed_input(a: i8, b: i16, c: i32, d: i64, e: i128, f: isize)
    ensures
        i8::hash_input(a) == u8::hash_input(a as u8),
        i16::hash_input(b) == u16::hash_input(b as u16),
        i32::hash_input(c) == u32::hash_input(c as u32),
        i64::hash_input(d) == u64::hash_input(d as u64),
        i128::hash_input(e) == u128::hash_input(e as u128),
        isize::hash_input(f) == u64::hash_input(f as u64),
{
}

/// Different texts are hashed differently: a text by all of its bytes, and a byte that occurs in no
/// text behind them.
pub proof fn lemma_text_input(a: Seq<char>, b: Seq<char>)
    ensures
        String::hash_input(a).flatten() == vstd::utf8::encode_utf8(a).push(0xff),
        String::hash_input(a) == <&str>::hash_input(a),
        String::hash_input(a) == String::hash_input(b) ==> a == b,
{
    vstd::utf8::encode_utf8_decode_utf8(a);
    vstd::utf8::encode_utf8_decode_utf8(b);
    let bytes = vstd::utf8::encode_utf8(a);
    let parts = seq![bytes, seq![0xffu8]];
    lemma_concat_flattens(parts);
    let none = Seq::<Seq<u8>>::empty();
    assert(parts =~= none.push(bytes).push(seq![0xffu8]));
    lemma_concat_push(none.push(bytes), seq![0xffu8]);
    lemma_concat_push(none, bytes);
    assert(concat(parts) =~= bytes.push(0xff));
    assert(String::hash_input(a)[0] == bytes);
    assert(String::hash_input(b)[0] == vstd::utf8::encode_utf8(b));
}

/// A truth value is hashed as the number 1 or 0, a character as its number, and nothing as nothing.
pub proof fn lemma_small_input(a: bool, b: char)
    ensures
        bool::hash_input(a) == u8::hash_input(if a {
            1
        } else {
            0
        }),
        char::hash_input(b) == u32::hash_input(b as u32),
        <()>::hash_input(()).len() == 0,
{
}

/// A tuple is hashed part by part, from the first to the last.
pub proof fn lemma_tuple_input<
    A: ShuffleKey,
    B: ShuffleKey,
    C: ShuffleKey,
    D: ShuffleKey,
    E: ShuffleKey,
    F: ShuffleKey,
>(a: A::V, b: B::V, c: C::V, d: D::V, e: E::V, f: F::V)
    ensures
        <(A, B)>::hash_input((a, b)) == A::hash_input(a) + B::hash_input(b),
        <(A, B, C)>::hash_input((a, b, c)) == <(A, B)>::hash_input((a, b)) + C::hash_input(c),
        <(A, B, C, D)>::hash_input((a, b, c, d)) == <(A, B, C)>::hash_input((a, b, c))
            + D::hash_input(d),
        <(A, B, C, D, E)>::hash_input((a, b, c, d, e)) == <(A, B, C, D)>::hash_input((a, b, c, d))
            + E::hash_input(e),
        <(A, B, C, D, E, F)>::hash_input((a, b, c, d, e, f)) == <(A, B, C, D, E)>::hash_input(
            (a, b, c, d, e),
        ) + F::hash_input(f),
{
}

/// What may be missing is hashed by whether it is there, and then by what it is.
pub proof fn lemma_option_input<K: ShuffleKey>(k: K::V)
    ensures
        Option::<K>::hash_input(Some(k)) == u64::hash_input(1) + K::hash_input(k),
        Option::<K>::hash_input(None) == u64::hash_input(0),
{
}

/// A list is hashed by its length, and then by its elements, from the first to the last.
pub proof fn lemma_list_input<K: ShuffleKey>(ids: Seq<K::V>)
    ensures
        Vec::<K>::hash_input(ids) == u64::hash_input(ids.len() as u64) + ids.map_values(
            |id: K::V| K::hash_input(id),
        ).flatten(),
{
    lemma_inputs_of::<K>(ids);
}

proof fn lemma_inputs_of<K: ShuffleKey>(ids: Seq<K::V>)
    ensures
        inputs_of::<K>(ids) == ids.map_values(|id: K::V| K::hash_input(id)).flatten(),
    decreases ids.len(),
{
    let parts = ids.map_values(|id: K::V| K::hash_input(id));
    lemma_concat_flattens(parts);
    if ids.len() > 0 {
        lemma_inputs_of::<K>(ids.drop_last());
        let init = ids.drop_last().map_values(|id: K::V| K::hash_input(id));
        lemma_concat_flattens(init);
        assert(parts.drop_last() =~= init);
    } else {
        assert(inputs_of::<K>(ids) =~= concat(parts));
    }
}

} // verus!
