use vstd::multiset::Multiset;
use vstd::prelude::*;
use vstd::string::StringExecFns;

use crate::buffer::ExternalBuffer;
use crate::codec::lemma_u64_be_assemble;
use crate::codec::lemma_u64_be_roundtrip;
use crate::codec::u64_be_bytes;
use crate::codec::u64_from_be_bytes;
use crate::codec::ExternalBufferSerde;
use crate::error::Error;

verus! {

broadcast use vstd::seq_lib::group_to_multiset_ensures, vstd::multiset::group_multiset_axioms;

/// A handle on the embedded ordered key-value store that backs the
/// persistent buffer.
#[verifier::external_body]
pub struct StoreHandle {
    db: ::sled::Db,
}

/// What the embedded store holds: its full key-to-value map.
pub uninterp spec fn store_view(s: StoreHandle) -> Map<Seq<u8>, Seq<u8>>;

impl StoreHandle {
    /// Relies on `sled::open`: it opens or creates the store rooted at
    /// the given directory, and fails only with a storage fault.
    /// Nothing is assumed of what an opened store holds.
    #[verifier::external_body]
    fn open(path: &str) -> (r: Result<StoreHandle, Error>)
        ensures
            r matches Err(e) ==> e is SledError,
    {
        match ::sled::open(path) {
            Ok(db) => Ok(StoreHandle { db }),
            Err(e) => Err(Error::SledError(e.to_string())),
        }
    }

    /// Relies on `sled::Tree::iter`: it walks every key-value pair the
    /// store holds; only the keys are kept here.
    #[verifier::external_body]
    fn keys(&self) -> (r: Result<Vec<Vec<u8>>, Error>)
        ensures
            r matches Ok(ks) ==> (forall|i: int|
                0 <= i < ks@.len() ==> store_view(*self).dom().contains(#[trigger] ks@[i]@))
                && (forall|k: Seq<u8>|
                #[trigger] store_view(*self).dom().contains(k) ==> exists|i: int|
                    0 <= i < ks@.len() && #[trigger] ks@[i]@ == k),
            r matches Err(e) ==> e is SledError,
    {
        let mut out: Vec<Vec<u8>> = Vec::new();
        for entry in self.db.iter() {
            match entry {
                Ok((k, _)) => out.push(k.as_ref().to_vec()),
                Err(e) => {
                    return Err(Error::SledError(e.to_string()));
                },
            }
        }
        Ok(out)
    }

    /// Relies on `sled::Tree::insert`: it maps the key to the value.
    /// On a storage fault the write may or may not have taken effect.
    #[verifier::external_body]
    fn insert(&mut self, key: &[u8; 8], value: Vec<u8>) -> (r: Result<(), Error>)
        ensures
            r matches Ok(()) ==> store_view(*final(self)) == store_view(*old(self)).insert(
                key@,
                value@,
            ),
            r matches Err(e) ==> e is SledError && (store_view(*final(self)) == store_view(
                *old(self),
            ) || store_view(*final(self)) == store_view(*old(self)).insert(key@, value@)),
    {
        match self.db.insert(key, value) {
            Ok(_) => Ok(()),
            Err(e) => Err(Error::SledError(e.to_string())),
        }
    }

    /// Relies on `sled::Tree::remove`: it removes the key and returns
    /// the value that was held under it, if any. On a storage fault the
    /// removal may or may not have taken effect.
    #[verifier::external_body]
    fn remove(&mut self, key: &[u8; 8]) -> (r: Result<Option<Vec<u8>>, Error>)
        ensures
            r matches Ok(Some(v)) ==> store_view(*old(self)).dom().contains(key@) && v@
                == store_view(*old(self))[key@] && store_view(*final(self)) == store_view(
                *old(self),
            ).remove(key@),
            r matches Ok(None) ==> !store_view(*old(self)).dom().contains(key@) && store_view(
                *final(self),
            ) == store_view(*old(self)),
            r matches Err(e) ==> e is SledError && (store_view(*final(self)) == store_view(
                *old(self),
            ) || store_view(*final(self)) == store_view(*old(self)).remove(key@)),
    {
        match self.db.remove(key) {
            Ok(Some(v)) => Ok(Some(v.as_ref().to_vec())),
            Ok(None) => Ok(None),
            Err(e) => Err(Error::SledError(e.to_string())),
        }
    }
}

/// Any eight bytes are the big-endian form of the value they encode.
pub proof fn lemma_bytes8_canonical(s: Seq<u8>)
    requires
        s.len() == 8,
    ensures
        u64_be_bytes(u64_from_be_bytes(s)) == s,
{
    assert(s =~= seq![s[0], s[1], s[2], s[3], s[4], s[5], s[6], s[7]]);
    lemma_u64_be_assemble(s[0], s[1], s[2], s[3], s[4], s[5], s[6], s[7]);
}

/// The values stored under the counters `lo` (inclusive) up to `hi`
/// (exclusive), in counter order; counters with no stored value are
/// passed over.
pub open spec fn window_from(m: Map<Seq<u8>, Seq<u8>>, lo: int, hi: int) -> Seq<Seq<u8>>
    decreases hi - lo,
{
    if lo >= hi {
        Seq::empty()
    } else {
        let k = u64_be_bytes(lo as u64);
        if m.dom().contains(k) {
            seq![m[k]] + window_from(m, lo + 1, hi)
        } else {
            window_from(m, lo + 1, hi)
        }
    }
}

/// Maps that agree on every counter key of the range have the same
/// window over it.
pub proof fn lemma_window_agree(m1: Map<Seq<u8>, Seq<u8>>, m2: Map<Seq<u8>, Seq<u8>>, lo: int, hi: int)
    requires
        forall|k: int|
            lo <= k < hi ==> (m1.dom().contains(#[trigger] u64_be_bytes(k as u64))
                == m2.dom().contains(u64_be_bytes(k as u64))) && (m1.dom().contains(
                u64_be_bytes(k as u64),
            ) ==> m1[u64_be_bytes(k as u64)] == m2[u64_be_bytes(k as u64)]),
    ensures
        window_from(m1, lo, hi) == window_from(m2, lo, hi),
    decreases hi - lo,
{
    if lo < hi {
        lemma_window_agree(m1, m2, lo + 1, hi);
    }
}

/// A window never holds more values than its range has counters; when
/// it holds exactly as many, every counter of the range is live, and a
/// successful shift then advances the head by exactly one.
pub proof fn lemma_window_len_bound(m: Map<Seq<u8>, Seq<u8>>, lo: int, hi: int)
    requires
        lo <= hi,
    ensures
        window_from(m, lo, hi).len() <= hi - lo,
    decreases hi - lo,
{
    if lo < hi {
        lemma_window_len_bound(m, lo + 1, hi);
    }
}

/// Inserting under the counter just past the range extends the window
/// over the grown range by that value.
pub proof fn lemma_window_insert_at_end(m: Map<Seq<u8>, Seq<u8>>, lo: int, hi: int, v: Seq<u8>)
    requires
        0 <= lo <= hi,
        hi < u64::MAX as int + 1,
    ensures
        window_from(m.insert(u64_be_bytes(hi as u64), v), lo, hi + 1) == window_from(
            m,
            lo,
            hi,
        ).push(v),
    decreases hi - lo,
{
    let m2 = m.insert(u64_be_bytes(hi as u64), v);
    if lo == hi {
        assert(m2.dom().contains(u64_be_bytes(lo as u64)));
        assert(window_from(m2, hi + 1, hi + 1) =~= Seq::<Seq<u8>>::empty());
        assert(window_from(m2, lo, hi + 1) =~= window_from(m, lo, hi).push(v));
    } else {
        assert(u64_be_bytes(lo as u64) != u64_be_bytes(hi as u64)) by {
            lemma_u64_be_roundtrip(lo as u64);
            lemma_u64_be_roundtrip(hi as u64);
        }
        lemma_window_insert_at_end(m, lo + 1, hi, v);
        if m.dom().contains(u64_be_bytes(lo as u64)) {
            assert(window_from(m2, lo, hi + 1) =~= window_from(m, lo, hi).push(v));
        } else {
            assert(window_from(m2, lo, hi + 1) =~= window_from(m, lo, hi).push(v));
        }
    }
}

/// The persistent FIFO buffer: an embedded ordered key-value store
/// opened at a directory, with monotonic head and tail counters
/// recovered from the stored keys, so reopening the same path resumes
/// the same queue.
pub struct ExternalBufferSled {
    db: StoreHandle,
    head_counter: u64,
    tail_counter: u64,
}

impl ExternalBufferSled {
    /// The store's key-to-value map.
    pub closed spec fn store(&self) -> Map<Seq<u8>, Seq<u8>> {
        store_view(self.db)
    }

    /// The oldest counter not yet confirmed absent.
    pub closed spec fn head(&self) -> u64 {
        self.head_counter
    }

    /// The next counter to assign.
    pub closed spec fn tail(&self) -> u64 {
        self.tail_counter
    }

    /// Well-formedness: head does not pass tail, and every stored key
    /// is the eight-byte form of a counter in [head, tail).
    pub open spec fn wf(&self) -> bool {
        &&& self.head() <= self.tail()
        &&& forall|k: Seq<u8>|
            #[trigger] self.store().dom().contains(k) ==> k.len() == 8 && self.head()
                <= u64_from_be_bytes(k) && u64_from_be_bytes(k) < self.tail()
    }

    /// The stored byte values still queued, oldest first.
    pub open spec fn window(&self) -> Seq<Seq<u8>> {
        window_from(self.store(), self.head() as int, self.tail() as int)
    }

    /// The recovered head and tail counters: the window of stored keys
    /// lies between them.
    pub fn counters(&self) -> (r: (u64, u64))
        ensures
            r.0 == self.head(),
            r.1 == self.tail(),
    {
        (self.head_counter, self.tail_counter)
    }

    /// The eight big-endian bytes of a counter, as stored keys use them.
    pub fn key_from_u64(value: u64) -> (r: [u8; 8])
        ensures
            r@ == u64_be_bytes(value),
    {
        let r: [u8; 8] = [
            #[verifier::truncate] ((value >> 56) as u8),
            #[verifier::truncate] ((value >> 48) as u8),
            #[verifier::truncate] ((value >> 40) as u8),
            #[verifier::truncate] ((value >> 32) as u8),
            #[verifier::truncate] ((value >> 24) as u8),
            #[verifier::truncate] ((value >> 16) as u8),
            #[verifier::truncate] ((value >> 8) as u8),
            #[verifier::truncate] (value as u8),
        ];
        proof {
            assert(r@ =~= u64_be_bytes(value));
        }
        r
    }

    /// Recover the counter bounds from the scanned keys: head is the
    /// least stored counter and tail one past the greatest, or both
    /// zero when nothing is stored. A key that is not eight bytes is a
    /// fatal construction error.
    pub fn initialize_counters(keys: &Vec<Vec<u8>>) -> (r: Result<(u64, u64), Error>)
        ensures
            r matches Ok(p) ==> {
                &&& forall|i: int|
                    0 <= i < keys@.len() ==> (#[trigger] keys@[i]@).len() == 8 && p.0
                        <= u64_from_be_bytes(keys@[i]@) && u64_from_be_bytes(keys@[i]@) < p.1
                &&& p.0 <= p.1
                &&& (keys@.len() == 0 ==> p.0 == 0 && p.1 == 0)
                &&& (keys@.len() > 0 ==> (exists|i: int|
                    0 <= i < keys@.len() && u64_from_be_bytes(#[trigger] keys@[i]@) == p.0) && (
                exists|i: int|
                    0 <= i < keys@.len() && u64_from_be_bytes(#[trigger] keys@[i]@) + 1 == p.1))
            },
            (exists|i: int| 0 <= i < keys@.len() && (#[trigger] keys@[i]@).len() != 8) <==> r
                == Err::<(u64, u64), Error>(Error::InvalidSledKeyFormat),
            r matches Err(e) ==> e == Error::InvalidSledKeyFormat || e matches Error::Custom(_),
            (r matches Err(e) && e matches Error::Custom(_)) ==> exists|i: int|
                0 <= i < keys@.len() && u64_from_be_bytes(#[trigger] keys@[i]@) == u64::MAX
                    && keys@[i]@.len() == 8,
            (forall|i: int|
                0 <= i < keys@.len() ==> (#[trigger] keys@[i]@).len() == 8 && u64_from_be_bytes(
                    keys@[i]@,
                ) < u64::MAX) ==> r is Ok,
    {
        let mut i: usize = 0;
        while i < keys.len()
            invariant
                i <= keys@.len(),
                forall|j: int| 0 <= j < i ==> (#[trigger] keys@[j]@).len() == 8,
            decreases keys@.len() - i,
        {
            if keys[i].len() != 8 {
                return Err(Error::InvalidSledKeyFormat);
            }
            i = i + 1;
        }
        let mut min_key: u64 = u64::MAX;
        let mut max_key: u64 = 0;
        let mut has_keys = false;
        let mut j: usize = 0;
        while j < keys.len()
            invariant
                j <= keys@.len(),
                forall|t: int| 0 <= t < keys@.len() ==> (#[trigger] keys@[t]@).len() == 8,
                !has_keys ==> j == 0,
                has_keys ==> j > 0,
                has_keys ==> min_key <= max_key,
                forall|t: int|
                    0 <= t < j ==> min_key <= u64_from_be_bytes(#[trigger] keys@[t]@)
                        && u64_from_be_bytes(keys@[t]@) <= max_key,
                has_keys ==> (exists|t: int|
                    0 <= t < j && u64_from_be_bytes(#[trigger] keys@[t]@) == min_key) && (exists|
                    t: int,
                |
                    0 <= t < j && u64_from_be_bytes(#[trigger] keys@[t]@) == max_key),
            decreases keys@.len() - j,
        {
            let key = &keys[j];
            let k: u64 = ((key[0] as u64) << 56) | ((key[1] as u64) << 48) | ((key[2] as u64)
                << 40) | ((key[3] as u64) << 32) | ((key[4] as u64) << 24) | ((key[5] as u64)
                << 16) | ((key[6] as u64) << 8) | (key[7] as u64);
            proof {
                assert(key@ =~= seq![
                    key@[0],
                    key@[1],
                    key@[2],
                    key@[3],
                    key@[4],
                    key@[5],
                    key@[6],
                    key@[7],
                ]);
                assert(k == u64_from_be_bytes(key@));
            }
            if !has_keys {
                min_key = k;
                max_key = k;
                has_keys = true;
            } else {
                if k < min_key {
                    min_key = k;
                }
                if k > max_key {
                    max_key = k;
                }
            }
            j = j + 1;
        }
        if has_keys {
            if max_key == u64::MAX {
                return Err(Error::Custom(String::from_str("the key counter space is exhausted")));
            }
            Ok((min_key, max_key + 1))
        } else {
            Ok((0, 0))
        }
    }

    /// Open or create the persistent buffer rooted at `path`, and
    /// recover its counters from the stored keys.
    pub fn new(path: &str) -> (r: Result<ExternalBufferSled, Error>)
        ensures
            r matches Ok(b) ==> {
                &&& b.wf()
                &&& (b.store().dom() =~= Set::<Seq<u8>>::empty() ==> b.head() == 0 && b.tail()
                    == 0)
                &&& (forall|k: Seq<u8>| #[trigger] b.store().dom().contains(k) ==> k.len() == 8)
                &&& ((exists|k: Seq<u8>| #[trigger] b.store().dom().contains(k)) ==> (exists|
                    k: Seq<u8>,
                |
                    #[trigger] b.store().dom().contains(k) && u64_from_be_bytes(k) == b.head()) && (
                exists|k: Seq<u8>|
                    #[trigger] b.store().dom().contains(k) && u64_from_be_bytes(k) + 1 == b.tail()))
            },
            r matches Err(e) ==> e is SledError || e == Error::InvalidSledKeyFormat || e matches Error::Custom(_),
    {
        let db = match StoreHandle::open(path) {
            Ok(db) => db,
            Err(e) => {
                return Err(e);
            },
        };
        let keys = match db.keys() {
            Ok(ks) => ks,
            Err(e) => {
                return Err(e);
            },
        };
        let (head, tail) = match Self::initialize_counters(&keys) {
            Ok(p) => p,
            Err(e) => {
                return Err(e);
            },
        };
        let b = ExternalBufferSled { db, head_counter: head, tail_counter: tail };
        proof {
            assert forall|k: Seq<u8>| #[trigger] b.store().dom().contains(k) implies k.len() == 8
                && b.head() <= u64_from_be_bytes(k) && u64_from_be_bytes(k) < b.tail() by {
                let i = choose|i: int| 0 <= i < keys@.len() && keys@[i]@ == k;
            }
            if b.store().dom() =~= Set::<Seq<u8>>::empty() {
                if keys@.len() > 0 {
                    assert(b.store().dom().contains(keys@[0]@));
                }
            }
            if exists|k: Seq<u8>| #[trigger] b.store().dom().contains(k) {
                let k0 = choose|k: Seq<u8>| #[trigger] b.store().dom().contains(k);
                assert(keys@.len() > 0) by {
                    let i = choose|i: int| 0 <= i < keys@.len() && keys@[i]@ == k0;
                }
                let hi = choose|i: int|
                    0 <= i < keys@.len() && u64_from_be_bytes(#[trigger] keys@[i]@) == b.head();
                assert(b.store().dom().contains(keys@[hi]@));
                let ti = choose|i: int|
                    0 <= i < keys@.len() && u64_from_be_bytes(#[trigger] keys@[i]@) + 1 == b.tail();
                assert(b.store().dom().contains(keys@[ti]@));
            }
        }
        Ok(b)
    }
}

/// Extending the range past its end by a counter with no stored value
/// leaves the window as it was.
pub proof fn lemma_window_extend_absent(m: Map<Seq<u8>, Seq<u8>>, lo: int, hi: int)
    requires
        0 <= lo <= hi,
        hi < u64::MAX as int + 1,
        !m.dom().contains(u64_be_bytes(hi as u64)),
    ensures
        window_from(m, lo, hi + 1) == window_from(m, lo, hi),
    decreases hi - lo,
{
    if lo == hi {
        assert(window_from(m, hi + 1, hi + 1) =~= Seq::<Seq<u8>>::empty());
        assert(window_from(m, lo, hi) =~= Seq::<Seq<u8>>::empty());
        assert(window_from(m, lo, hi + 1) =~= window_from(m, lo, hi));
    } else {
        lemma_window_extend_absent(m, lo + 1, hi);
        assert(window_from(m, lo, hi + 1) =~= window_from(m, lo, hi));
    }
}

/// The one value a stored byte sequence stands for.
pub open spec fn decoded_value<T: ExternalBufferSerde>(b: Seq<u8>) -> T {
    choose|x: T| x.encodable() && x.encoding() == b
}

/// The meaning of the one value a stored byte sequence stands for.
pub open spec fn decoded_view<T: ExternalBufferSerde>(b: Seq<u8>) -> <T as DeepView>::V {
    decoded_value::<T>(b).deep_view()
}

/// A value whose encoding a byte sequence is gives that sequence its
/// meaning.
pub proof fn lemma_decoded_view<T: ExternalBufferSerde>(b: Seq<u8>, t: T)
    requires
        t.encodable(),
        t.encoding() == b,
    ensures
        decoded_view::<T>(b) == t.deep_view(),
{
    assert(exists|x: T| x.encodable() && x.encoding() == b);
    let y = decoded_value::<T>(b);
    assert(y.encodable() && y.encoding() == b);
    T::lemma_encoding_injective(y, t);
}

impl<T: ExternalBufferSerde> ExternalBuffer<T> for ExternalBufferSled {
    open spec fn inv(&self) -> bool {
        self.wf()
    }

    closed spec fn contents(&self) -> Multiset<<T as DeepView>::V> {
        self.window().map_values(|b: Seq<u8>| decoded_view::<T>(b)).to_multiset()
    }

    open spec fn can_push(&self) -> bool {
        self.tail() < u64::MAX
    }

    /// Serialize the item and store it under the next counter; the
    /// counter is taken even when the store then fails.
    fn push(&mut self, item: T) -> (r: Result<(), Error>)
        ensures
            final(self).head() == old(self).head(),
            final(self).tail() == old(self).tail() + 1,
            r matches Ok(()) ==> final(self).window() == old(self).window().push(item.encoding())
                && item.encodable(),
            r matches Err(e) ==> e is SledError && (final(self).window() == old(self).window()
                || final(self).window() == old(self).window().push(item.encoding())),
    {
        let ghost ienc = item.encoding();
        let ghost idv = item.deep_view();
        let ghost m0 = self.store();
        let ghost h0 = self.head();
        let ghost t0 = self.tail();
        let serialized = match item.into_external_buffer() {
            Ok(v) => v,
            Err(e) => {
                // serialization promises success; this arm is unreachable
                proof {
                    assert(false);
                }
                return Err(e);
            },
        };
        let key = self.tail_counter;
        self.tail_counter = self.tail_counter + 1;
        let key_bytes = Self::key_from_u64(key);
        let res = self.db.insert(&key_bytes, serialized);
        proof {
            lemma_u64_be_roundtrip(t0);
            assert(u64_be_bytes(t0).len() == 8);
            assert(!m0.dom().contains(u64_be_bytes(t0)));
            match res {
                Ok(()) => {
                    assert(self.store() == m0.insert(u64_be_bytes(t0), ienc));
                    lemma_window_insert_at_end(m0, h0 as int, t0 as int, ienc);
                    assert(self.window() == window_from(m0, h0 as int, t0 as int).push(ienc));
                    assert forall|k: Seq<u8>| #[trigger] self.store().dom().contains(k)
                        implies k.len() == 8 && self.head() <= u64_from_be_bytes(k)
                        && u64_from_be_bytes(k) < self.tail() by {
                        if k != u64_be_bytes(t0) {
                            assert(m0.dom().contains(k));
                        }
                    }
                    // the stored bag of meanings grew by this item's meaning
                    lemma_decoded_view::<T>(ienc, item);
                    assert(self.window().map_values(|b: Seq<u8>| decoded_view::<T>(b))
                        =~= window_from(m0, h0 as int, t0 as int).map_values(
                        |b: Seq<u8>| decoded_view::<T>(b),
                    ).push(idv));
                },
                Err(_) => {
                    if self.store() == m0 {
                        lemma_window_extend_absent(m0, h0 as int, t0 as int);
                        assert(self.window() == window_from(m0, h0 as int, t0 as int));
                    } else {
                        assert(self.store() == m0.insert(u64_be_bytes(t0), ienc));
                        lemma_window_insert_at_end(m0, h0 as int, t0 as int, ienc);
                    }
                    assert forall|k: Seq<u8>| #[trigger] self.store().dom().contains(k)
                        implies k.len() == 8 && self.head() <= u64_from_be_bytes(k)
                        && u64_from_be_bytes(k) < self.tail() by {
                        if k != u64_be_bytes(t0) {
                            assert(m0.dom().contains(k));
                        }
                    }
                },
            }
        }
        match res {
            Ok(()) => Ok(()),
            Err(e) => Err(e),
        }
    }

    /// Remove and return the oldest stored item, or `None` when the
    /// window is empty. A counter with no stored value — consumed by a
    /// racing caller, or a gap a crash left — is passed over, so the
    /// call always makes progress.
    fn shift(&mut self) -> (r: Result<Option<T>, Error>)
        ensures
            final(self).tail() == old(self).tail(),
            old(self).head() <= final(self).head(),
            old(self).head() == old(self).tail() ==> r == Ok::<Option<T>, Error>(None),
            r matches Ok(Some(x)) ==> old(self).window().len() > 0
                && <T as ExternalBufferSerde>::encoding(&x) == old(self).window()[0]
                && <T as ExternalBufferSerde>::encodable(&x)
                && final(self).window() == old(self).window().drop_first()
                && final(self).head() > old(self).head(),
            r matches Ok(None) ==> old(self).window().len() == 0 && final(self).window() == old(
                self,
            ).window(),
            r matches Err(e) ==> e is SledError || e is DecodeError,
            (r matches Err(e) && e is DecodeError) ==> old(self).window().len() > 0
                && final(self).window() == old(self).window().drop_first()
                && final(self).head() > old(self).head(),
    {
        let ghost w0 = self.window();
        let ghost m0 = self.store();
        let ghost h0 = self.head();
        loop
            invariant_except_break
                self.wf(),
                self.tail() == old(self).tail(),
                old(self).head() <= self.head(),
                self.window() == w0,
                w0 == old(self).window(),
            ensures
                self.wf(),
                self.tail() == old(self).tail(),
                old(self).head() <= self.head(),
                self.window() == w0,
                w0.len() == 0,
            decreases old(self).tail() - self.head(),
        {
            if self.head_counter >= self.tail_counter {
                proof {
                    assert(self.window() =~= Seq::<Seq<u8>>::empty());
                    assert(w0.len() == 0);
                }
                break ;
            }
            let current_head = self.head_counter;
            let key_bytes = Self::key_from_u64(current_head);
            let ghost mb = self.store();
            let ghost hb = self.head();
            match self.db.remove(&key_bytes) {
                Ok(Some(data)) => {
                    self.head_counter = self.head_counter + 1;
                    proof {
                        assert(window_from(mb, hb as int, self.tail() as int) == seq![
                            mb[u64_be_bytes(hb)],
                        ] + window_from(mb, hb as int + 1, self.tail() as int));
                        assert(w0[0] == data@);
                        assert forall|k: int| hb as int + 1 <= k < self.tail() as int implies (
                        self.store().dom().contains(#[trigger] u64_be_bytes(k as u64))
                            == mb.dom().contains(u64_be_bytes(k as u64))) && (self.store(
                        ).dom().contains(u64_be_bytes(k as u64)) ==> self.store()[u64_be_bytes(
                            k as u64,
                        )] == mb[u64_be_bytes(k as u64)]) by {
                            lemma_u64_be_roundtrip(k as u64);
                            lemma_u64_be_roundtrip(hb);
                        }
                        lemma_window_agree(
                            self.store(),
                            mb,
                            hb as int + 1,
                            self.tail() as int,
                        );
                        assert(self.window() =~= w0.drop_first());
                        assert forall|k: Seq<u8>| #[trigger] self.store().dom().contains(k)
                            implies k.len() == 8 && self.head() <= u64_from_be_bytes(k)
                            && u64_from_be_bytes(k) < self.tail() by {
                            assert(mb.dom().contains(k));
                            if u64_from_be_bytes(k) == hb {
                                lemma_bytes8_canonical(k);
                            }
                        }
                    }
                    match T::from_external_buffer(data.as_slice()) {
                        Ok(item) => {
                            proof {
                                lemma_decoded_view::<T>(data@, item);
                                assert(w0.map_values(|b: Seq<u8>| decoded_view::<T>(b))[0]
                                    == item.deep_view());
                                assert(self.window().map_values(
                                    |b: Seq<u8>| decoded_view::<T>(b),
                                ) =~= w0.map_values(|b: Seq<u8>| decoded_view::<T>(b)).remove(0));
                                broadcast use vstd::seq_lib::to_multiset_remove;

                            }
                            return Ok(Some(item));
                        },
                        Err(e) => {
                            return Err(e);
                        },
                    }
                },
                Ok(None) => {
                    self.head_counter = self.head_counter + 1;
                    proof {
                        assert(window_from(mb, hb as int, self.tail() as int) == window_from(
                            mb,
                            hb as int + 1,
                            self.tail() as int,
                        ));
                        assert forall|k: Seq<u8>| #[trigger] self.store().dom().contains(k)
                            implies k.len() == 8 && self.head() <= u64_from_be_bytes(k)
                            && u64_from_be_bytes(k) < self.tail() by {
                            if u64_from_be_bytes(k) == hb {
                                lemma_bytes8_canonical(k);
                            }
                        }
                    }
                },
                Err(e) => {
                    proof {
                        assert forall|k: Seq<u8>| #[trigger] self.store().dom().contains(k)
                            implies k.len() == 8 && self.head() <= u64_from_be_bytes(k)
                            && u64_from_be_bytes(k) < self.tail() by {
                            if !mb.dom().contains(k) {
                                assert(false);
                            }
                        }
                    }
                    return Err(e);
                },
            }
        }
        Ok(None)
    }
}


} // verus!
