use vstd::prelude::*;
use vstd::string::StringExecFns;

use crate::error::Error;

verus! {

/// `enc` occurs as a block of `buf` beginning at index `start`.
pub open spec fn is_encoding_at(enc: Seq<u8>, buf: Seq<u8>, start: int) -> bool {
    &&& 0 <= start
    &&& start + enc.len() <= buf.len()
    &&& buf.subrange(start, start + enc.len()) == enc
}

/// The eight big-endian bytes of a 64-bit counter or length.
pub open spec fn u64_be_bytes(v: u64) -> Seq<u8> {
    seq![
        (v >> 56) as u8,
        (v >> 48) as u8,
        (v >> 40) as u8,
        (v >> 32) as u8,
        (v >> 24) as u8,
        (v >> 16) as u8,
        (v >> 8) as u8,
        v as u8,
    ]
}

/// The 64-bit value read back from eight big-endian bytes.
pub open spec fn u64_from_be_bytes(b: Seq<u8>) -> u64
    recommends
        b.len() == 8,
{
    (((b[0] as u64) << 56) | ((b[1] as u64) << 48) | ((b[2] as u64) << 40) | ((b[3] as u64) << 32)
        | ((b[4] as u64) << 24) | ((b[5] as u64) << 16) | ((b[6] as u64) << 8) | (b[7] as u64)) as u64
}

/// Reading the big-endian bytes of a value back gives the value.
pub proof fn lemma_u64_be_roundtrip(v: u64)
    ensures
        u64_from_be_bytes(u64_be_bytes(v)) == v,
{
    assert(((((v >> 56) as u8) as u64) << 56 | (((v >> 48) as u8) as u64) << 48 | (((v >> 40)
        as u8) as u64) << 40 | (((v >> 32) as u8) as u64) << 32 | (((v >> 24) as u8) as u64) << 24
        | (((v >> 16) as u8) as u64) << 16 | (((v >> 8) as u8) as u64) << 8 | ((v as u8) as u64))
        == v) by (bit_vector);
}

/// The big-endian bytes of the value assembled from eight bytes are
/// those eight bytes again.
pub proof fn lemma_u64_be_assemble(b0: u8, b1: u8, b2: u8, b3: u8, b4: u8, b5: u8, b6: u8, b7: u8)
    ensures
        u64_be_bytes(
            u64_from_be_bytes(seq![b0, b1, b2, b3, b4, b5, b6, b7]),
        ) == seq![b0, b1, b2, b3, b4, b5, b6, b7],
{
    let v = ((b0 as u64) << 56 | (b1 as u64) << 48 | (b2 as u64) << 40 | (b3 as u64) << 32 | (
    b4 as u64) << 24 | (b5 as u64) << 16 | (b6 as u64) << 8 | (b7 as u64)) as u64;
    assert((v >> 56) as u8 == b0 && (v >> 48) as u8 == b1 && (v >> 40) as u8 == b2 && (v >> 32)
        as u8 == b3 && (v >> 24) as u8 == b4 && (v >> 16) as u8 == b5 && (v >> 8) as u8 == b6 && v
        as u8 == b7) by (bit_vector)
        requires
            v == ((b0 as u64) << 56 | (b1 as u64) << 48 | (b2 as u64) << 40 | (b3 as u64) << 32 | (
            b4 as u64) << 24 | (b5 as u64) << 16 | (b6 as u64) << 8 | (b7 as u64)) as u64,
    ;
    assert(u64_be_bytes(v) =~= seq![b0, b1, b2, b3, b4, b5, b6, b7]);
}

/// Item ⇄ byte-sequence conversion used by the persistent buffer.
///
/// `encoding` is the canonical byte form of a value; decoding an
/// encoding gives back a value with the same meaning (the same deep
/// view), and decoding bytes that are no encoding fails with a decode
/// error, never with a wrong value.
pub trait ExternalBufferSerde: DeepView + Sized {
    /// The canonical byte form of this value.
    spec fn encoding(&self) -> Seq<u8>;

    /// Whether the value is small enough to carry its length fields.
    /// Every value a program can hold is; the bound only excludes
    /// mathematical values beyond machine limits.
    spec fn encodable(&self) -> bool;

    /// Two encodable values with the same encoding have the same meaning.
    proof fn lemma_encoding_injective(a: Self, b: Self)
        requires
            a.encodable(),
            b.encodable(),
            a.encoding() == b.encoding(),
        ensures
            a.deep_view() == b.deep_view(),
    ;

    /// No encoding of one encodable value is a proper prefix of
    /// another's, so an encoding determines where it ends.
    proof fn lemma_encoding_prefix_free(a: Self, b: Self)
        requires
            a.encodable(),
            b.encodable(),
            a.encoding().len() <= b.encoding().len(),
            b.encoding().subrange(0, a.encoding().len() as int) == a.encoding(),
        ensures
            a.encoding() == b.encoding(),
    ;

    /// Append this value's encoding to `out`.
    fn encode_external_buffer(&self, out: &mut Vec<u8>)
        ensures
            final(out)@ == old(out)@ + self.encoding(),
            self.encodable(),
    ;

    /// Decode one value whose encoding begins at `start`; return it with
    /// the index just past it. Exactly the inputs that carry an encoding
    /// at `start` succeed.
    fn decode_external_buffer_from(value: &[u8], start: usize) -> (r: Result<(Self, usize), Error>)
        requires
            start <= value@.len(),
        ensures
            r matches Ok(p) ==> start <= p.1 <= value@.len() && value@.subrange(
                start as int,
                p.1 as int,
            ) == p.0.encoding() && p.0.encodable(),
            forall|x: Self|
                x.encodable() && #[trigger] is_encoding_at(x.encoding(), value@, start as int)
                    ==> (r matches Ok(p) && p.1 == start + x.encoding().len() && p.0.encoding()
                    == x.encoding()),
            r matches Err(e) ==> e is DecodeError,
    ;

    /// Serialize the value for the external buffer.
    fn into_external_buffer(self) -> (r: Result<Vec<u8>, Error>)
        ensures
            r matches Ok(v) ==> v@ == self.encoding() && self.encodable(),
            r is Ok,
    {
        let mut out: Vec<u8> = Vec::new();
        self.encode_external_buffer(&mut out);
        Ok(out)
    }

    /// Deserialize a value from the external buffer. Exactly the byte
    /// sequences that are the encoding of some value succeed.
    fn from_external_buffer(value: &[u8]) -> (r: Result<Self, Error>)
        ensures
            r matches Ok(x) ==> value@ == x.encoding() && x.encodable(),
            forall|x: Self| x.encodable() && value@ == #[trigger] x.encoding() ==> r is Ok,
            r matches Err(e) ==> e is DecodeError,
    {
        match Self::decode_external_buffer_from(value, 0) {
            Ok((x, end)) => {
                if end == value.len() {
                    proof {
                        assert(value@.subrange(0, value@.len() as int) =~= value@);
                    }
                    Ok(x)
                } else {
                    assert forall|y: Self|
                        y.encodable() && value@ == #[trigger] y.encoding() implies false by {
                        assert(value@.subrange(0, value@.len() as int) =~= value@);
                        assert(is_encoding_at(y.encoding(), value@, 0));
                    }
                    Err(Error::DecodeError(String::from_str("input bytes left over")))
                }
            },
            Err(e) => {
                assert forall|y: Self|
                    y.encodable() && value@ == #[trigger] y.encoding() implies false by {
                    assert(value@.subrange(0, value@.len() as int) =~= value@);
                    assert(is_encoding_at(y.encoding(), value@, 0));
                }
                Err(e)
            },
        }
    }
}

impl ExternalBufferSerde for u64 {
    open spec fn encoding(&self) -> Seq<u8> {
        u64_be_bytes(*self)
    }

    open spec fn encodable(&self) -> bool {
        true
    }

    proof fn lemma_encoding_injective(a: u64, b: u64) {
        lemma_u64_be_roundtrip(a);
        lemma_u64_be_roundtrip(b);
    }

    proof fn lemma_encoding_prefix_free(a: u64, b: u64) {
        assert(b.encoding().subrange(0, a.encoding().len() as int) =~= b.encoding());
    }

    fn encode_external_buffer(&self, out: &mut Vec<u8>) {
        let v = *self;
        out.push(#[verifier::truncate] ((v >> 56) as u8));
        out.push(#[verifier::truncate] ((v >> 48) as u8));
        out.push(#[verifier::truncate] ((v >> 40) as u8));
        out.push(#[verifier::truncate] ((v >> 32) as u8));
        out.push(#[verifier::truncate] ((v >> 24) as u8));
        out.push(#[verifier::truncate] ((v >> 16) as u8));
        out.push(#[verifier::truncate] ((v >> 8) as u8));
        out.push(#[verifier::truncate] (v as u8));
        assert(out@ =~= old(out)@ + u64_be_bytes(v));
    }

    fn decode_external_buffer_from(value: &[u8], start: usize) -> (r: Result<(u64, usize), Error>) {
        if value.len() - start < 8 {
            assert forall|x: u64| is_encoding_at(x.encoding(), value@, start as int) implies false by {
            }
            return Err(Error::DecodeError(String::from_str("too few bytes for an integer")));
        }
        let v: u64 = ((value[start] as u64) << 56) | ((value[start + 1] as u64) << 48) | ((value[
        start + 2] as u64) << 40) | ((value[start + 3] as u64) << 32) | ((value[start + 4] as u64)
            << 24) | ((value[start + 5] as u64) << 16) | ((value[start + 6] as u64) << 8) | (
        value[start + 7] as u64);
        proof {
            let b = value@.subrange(start as int, start as int + 8);
            assert(b =~= seq![
                value@[start as int],
                value@[start as int + 1],
                value@[start as int + 2],
                value@[start as int + 3],
                value@[start as int + 4],
                value@[start as int + 5],
                value@[start as int + 6],
                value@[start as int + 7],
            ]);
            lemma_u64_be_assemble(
                value@[start as int],
                value@[start as int + 1],
                value@[start as int + 2],
                value@[start as int + 3],
                value@[start as int + 4],
                value@[start as int + 5],
                value@[start as int + 6],
                value@[start as int + 7],
            );
            assert(v == u64_from_be_bytes(b));
            assert(u64_be_bytes(v) == b);
            assert forall|x: u64| is_encoding_at(x.encoding(), value@, start as int) implies
                u64_be_bytes(x) == u64_be_bytes(v) by {
                assert(x.encoding() == b);
                lemma_u64_be_roundtrip(x);
                lemma_u64_be_roundtrip(v);
            }
            assert forall|x: u64| is_encoding_at(x.encoding(), value@, start as int) implies x
                == v by {
                lemma_u64_be_roundtrip(x);
                lemma_u64_be_roundtrip(v);
            }
        }
        Ok((v, start + 8))
    }
}

/// The four big-endian bytes of a 32-bit value.
pub open spec fn u32_be_bytes(v: u32) -> Seq<u8> {
    seq![(v >> 24) as u8, (v >> 16) as u8, (v >> 8) as u8, v as u8]
}

/// The 32-bit value read back from four big-endian bytes.
pub open spec fn u32_from_be_bytes(b: Seq<u8>) -> u32
    recommends
        b.len() == 4,
{
    (((b[0] as u32) << 24) | ((b[1] as u32) << 16) | ((b[2] as u32) << 8) | (b[3] as u32)) as u32
}

/// Reading the big-endian bytes of a 32-bit value back gives the value.
pub proof fn lemma_u32_be_roundtrip(v: u32)
    ensures
        u32_from_be_bytes(u32_be_bytes(v)) == v,
{
    assert(((((v >> 24) as u8) as u32) << 24 | (((v >> 16) as u8) as u32) << 16 | (((v >> 8)
        as u8) as u32) << 8 | ((v as u8) as u32)) == v) by (bit_vector);
}

/// The big-endian bytes of the 32-bit value assembled from four bytes
/// are those four bytes again.
pub proof fn lemma_u32_be_assemble(b0: u8, b1: u8, b2: u8, b3: u8)
    ensures
        u32_be_bytes(u32_from_be_bytes(seq![b0, b1, b2, b3])) == seq![b0, b1, b2, b3],
{
    let v = ((b0 as u32) << 24 | (b1 as u32) << 16 | (b2 as u32) << 8 | (b3 as u32)) as u32;
    assert((v >> 24) as u8 == b0 && (v >> 16) as u8 == b1 && (v >> 8) as u8 == b2 && v as u8 == b3)
        by (bit_vector)
        requires
            v == ((b0 as u32) << 24 | (b1 as u32) << 16 | (b2 as u32) << 8 | (b3 as u32)) as u32,
    ;
    assert(u32_be_bytes(v) =~= seq![b0, b1, b2, b3]);
}

impl ExternalBufferSerde for u32 {
    open spec fn encoding(&self) -> Seq<u8> {
        u32_be_bytes(*self)
    }

    open spec fn encodable(&self) -> bool {
        true
    }

    proof fn lemma_encoding_injective(a: u32, b: u32) {
        lemma_u32_be_roundtrip(a);
        lemma_u32_be_roundtrip(b);
    }

    proof fn lemma_encoding_prefix_free(a: u32, b: u32) {
        assert(b.encoding().subrange(0, a.encoding().len() as int) =~= b.encoding());
    }

    fn encode_external_buffer(&self, out: &mut Vec<u8>) {
        let v = *self;
        out.push(#[verifier::truncate] ((v >> 24) as u8));
        out.push(#[verifier::truncate] ((v >> 16) as u8));
        out.push(#[verifier::truncate] ((v >> 8) as u8));
        out.push(#[verifier::truncate] (v as u8));
        assert(out@ =~= old(out)@ + u32_be_bytes(v));
    }

    fn decode_external_buffer_from(value: &[u8], start: usize) -> (r: Result<(u32, usize), Error>) {
        if value.len() - start < 4 {
            return Err(Error::DecodeError(String::from_str("too few bytes for an integer")));
        }
        let v: u32 = ((value[start] as u32) << 24) | ((value[start + 1] as u32) << 16) | ((value[
        start + 2] as u32) << 8) | (value[start + 3] as u32);
        proof {
            let b = value@.subrange(start as int, start as int + 4);
            assert(b =~= seq![
                value@[start as int],
                value@[start as int + 1],
                value@[start as int + 2],
                value@[start as int + 3],
            ]);
            lemma_u32_be_assemble(
                value@[start as int],
                value@[start as int + 1],
                value@[start as int + 2],
                value@[start as int + 3],
            );
            assert(u32_be_bytes(v) == b);
            assert forall|x: u32| is_encoding_at(x.encoding(), value@, start as int) implies x
                == v by {
                assert(x.encoding() == b);
                lemma_u32_be_roundtrip(x);
                lemma_u32_be_roundtrip(v);
            }
        }
        Ok((v, start + 4))
    }
}

impl ExternalBufferSerde for i32 {
    open spec fn encoding(&self) -> Seq<u8> {
        u32_be_bytes(*self as u32)
    }

    open spec fn encodable(&self) -> bool {
        true
    }

    proof fn lemma_encoding_injective(a: i32, b: i32) {
        lemma_u32_be_roundtrip(a as u32);
        lemma_u32_be_roundtrip(b as u32);
        assert(a as u32 == b as u32 ==> a == b) by (bit_vector);
    }

    proof fn lemma_encoding_prefix_free(a: i32, b: i32) {
        assert(b.encoding().subrange(0, a.encoding().len() as int) =~= b.encoding());
    }

    fn encode_external_buffer(&self, out: &mut Vec<u8>) {
        let v = #[verifier::truncate] (*self as u32);
        v.encode_external_buffer(out);
    }

    fn decode_external_buffer_from(value: &[u8], start: usize) -> (r: Result<(i32, usize), Error>) {
        match u32::decode_external_buffer_from(value, start) {
            Ok((u, end)) => {
                let v = #[verifier::truncate] (u as i32);
                proof {
                    assert((u as i32) as u32 == u) by (bit_vector);
                    assert forall|x: i32| is_encoding_at(x.encoding(), value@, start as int)
                        implies x == v by {
                        assert(is_encoding_at((x as u32).encoding(), value@, start as int));
                        lemma_u32_be_roundtrip(u);
                        lemma_u32_be_roundtrip(x as u32);
                        assert(x as u32 == u);
                        assert((x as u32) as i32 == x) by (bit_vector)
                            requires
                                (x as i32) as u32 == x as u32,
                        ;
                    }
                }
                Ok((v, end))
            },
            Err(e) => {
                assert forall|x: i32| is_encoding_at(x.encoding(), value@, start as int)
                    implies false by {
                    assert(is_encoding_at((x as u32).encoding(), value@, start as int));
                }
                Err(e)
            },
        }
    }
}

impl ExternalBufferSerde for i64 {
    open spec fn encoding(&self) -> Seq<u8> {
        u64_be_bytes(*self as u64)
    }

    open spec fn encodable(&self) -> bool {
        true
    }

    proof fn lemma_encoding_injective(a: i64, b: i64) {
        lemma_u64_be_roundtrip(a as u64);
        lemma_u64_be_roundtrip(b as u64);
        assert(a as u64 == b as u64 ==> a == b) by (bit_vector);
    }

    proof fn lemma_encoding_prefix_free(a: i64, b: i64) {
        assert(b.encoding().subrange(0, a.encoding().len() as int) =~= b.encoding());
    }

    fn encode_external_buffer(&self, out: &mut Vec<u8>) {
        let v = #[verifier::truncate] (*self as u64);
        v.encode_external_buffer(out);
    }

    fn decode_external_buffer_from(value: &[u8], start: usize) -> (r: Result<(i64, usize), Error>) {
        match u64::decode_external_buffer_from(value, start) {
            Ok((u, end)) => {
                let v = #[verifier::truncate] (u as i64);
                proof {
                    assert((u as i64) as u64 == u) by (bit_vector);
                    assert forall|x: i64| is_encoding_at(x.encoding(), value@, start as int)
                        implies x == v by {
                        assert(is_encoding_at((x as u64).encoding(), value@, start as int));
                        lemma_u64_be_roundtrip(u);
                        lemma_u64_be_roundtrip(x as u64);
                        assert(x as u64 == u);
                        assert((x as u64) as i64 == x) by (bit_vector)
                            requires
                                (x as i64) as u64 == x as u64,
                        ;
                    }
                }
                Ok((v, end))
            },
            Err(e) => {
                assert forall|x: i64| is_encoding_at(x.encoding(), value@, start as int)
                    implies false by {
                    assert(is_encoding_at((x as u64).encoding(), value@, start as int));
                }
                Err(e)
            },
        }
    }
}

impl ExternalBufferSerde for bool {
    open spec fn encoding(&self) -> Seq<u8> {
        seq![if *self { 1u8 } else { 0u8 }]
    }

    open spec fn encodable(&self) -> bool {
        true
    }

    proof fn lemma_encoding_injective(a: bool, b: bool) {
        assert(a.encoding()[0] == (if a { 1u8 } else { 0u8 }));
        assert(b.encoding()[0] == (if b { 1u8 } else { 0u8 }));
        assert(a == b);
    }

    proof fn lemma_encoding_prefix_free(a: bool, b: bool) {
        assert(b.encoding().subrange(0, a.encoding().len() as int) =~= b.encoding());
    }

    fn encode_external_buffer(&self, out: &mut Vec<u8>) {
        out.push(if *self { 1u8 } else { 0u8 });
        assert(out@ =~= old(out)@ + self.encoding());
    }

    fn decode_external_buffer_from(value: &[u8], start: usize) -> (r: Result<(bool, usize), Error>) {
        if value.len() - start < 1 {
            return Err(Error::DecodeError(String::from_str("too few bytes for a boolean")));
        }
        let byte = value[start];
        if byte == 1u8 {
            proof {
                assert(value@.subrange(start as int, start as int + 1) =~= seq![value@[start as int]]);
                assert(value@.subrange(start as int, start as int + 1) == true.encoding());
            }
            Ok((true, start + 1))
        } else if byte == 0u8 {
            proof {
                assert(value@.subrange(start as int, start as int + 1) =~= seq![value@[start as int]]);
                assert(value@.subrange(start as int, start as int + 1) == false.encoding());
            }
            Ok((false, start + 1))
        } else {
            assert forall|x: bool| is_encoding_at(x.encoding(), value@, start as int)
                implies false by {
                assert(value@.subrange(start as int, start as int + 1) =~= seq![
                    value@[start as int],
                ]);
                assert(x.encoding()[0] == value@[start as int]);
            }
            Err(Error::DecodeError(String::from_str("invalid boolean byte")))
        }
    }
}

/// Relies on `String::from_utf8`: it returns the string whose UTF-8
/// byte form is the input, and fails exactly on bytes that are not
/// valid UTF-8.
#[verifier::external_body]
fn string_from_utf8(bytes: Vec<u8>) -> (r: Option<String>)
    ensures
        r matches Some(s) ==> vstd::utf8::encode_utf8(s@) == bytes@,
        vstd::utf8::valid_utf8(bytes@) ==> r is Some,
{
    match String::from_utf8(bytes) {
        Ok(s) => Some(s),
        Err(_) => None,
    }
}

impl ExternalBufferSerde for String {
    open spec fn encoding(&self) -> Seq<u8> {
        u64_be_bytes(vstd::utf8::encode_utf8(self@).len() as u64) + vstd::utf8::encode_utf8(self@)
    }

    open spec fn encodable(&self) -> bool {
        vstd::utf8::encode_utf8(self@).len() <= u64::MAX
    }

    proof fn lemma_encoding_injective(a: String, b: String) {
        let ea = vstd::utf8::encode_utf8(a@);
        let eb = vstd::utf8::encode_utf8(b@);
        assert(a.encoding().len() == 8 + ea.len());
        assert(b.encoding().len() == 8 + eb.len());
        assert(ea =~= a.encoding().subrange(8, a.encoding().len() as int));
        assert(eb =~= b.encoding().subrange(8, b.encoding().len() as int));
        vstd::utf8::encode_utf8_decode_utf8(a@);
        vstd::utf8::encode_utf8_decode_utf8(b@);
        assert(a@ == b@);
    }

    proof fn lemma_encoding_prefix_free(a: String, b: String) {
        let la = (vstd::utf8::encode_utf8(a@).len() as u64);
        let lb = (vstd::utf8::encode_utf8(b@).len() as u64);
        assert(a.encoding().len() == 8 + vstd::utf8::encode_utf8(a@).len());
        assert(b.encoding().len() == 8 + vstd::utf8::encode_utf8(b@).len());
        assert forall|i: int| 0 <= i < 8 implies a.encoding()[i] == b.encoding()[i] by {
            assert(b.encoding().subrange(0, a.encoding().len() as int)[i] == b.encoding()[i]);
        }
        assert(u64_be_bytes(la) =~= u64_be_bytes(lb)) by {
            assert forall|i: int| 0 <= i < 8 implies u64_be_bytes(la)[i] == u64_be_bytes(lb)[i] by {
                assert(a.encoding()[i] == u64_be_bytes(la)[i]);
                assert(b.encoding()[i] == u64_be_bytes(lb)[i]);
            }
        }
        lemma_u64_be_roundtrip(la);
        lemma_u64_be_roundtrip(lb);
        assert(a.encoding().len() == b.encoding().len());
        assert(b.encoding().subrange(0, a.encoding().len() as int) =~= b.encoding());
    }

    fn encode_external_buffer(&self, out: &mut Vec<u8>) {
        let bytes: &[u8] = self.as_str().as_bytes();
        let n: u64 = bytes.len() as u64;
        n.encode_external_buffer(out);
        out.extend_from_slice(bytes);
        assert(out@ =~= old(out)@ + self.encoding());
    }

    fn decode_external_buffer_from(value: &[u8], start: usize) -> (r: Result<
        (String, usize),
        Error,
    >) {
        let (n, pos) = match u64::decode_external_buffer_from(value, start) {
            Ok(p) => p,
            Err(e) => {
                assert forall|x: String|
                    x.encodable() && is_encoding_at(x.encoding(), value@, start as int)
                    implies false by {
                    let lx = vstd::utf8::encode_utf8(x@).len() as u64;
                    assert(x.encoding().subrange(0, 8) =~= u64_be_bytes(lx));
                    assert(value@.subrange(start as int, start as int + 8) =~= x.encoding().subrange(
                        0,
                        8,
                    ));
                    assert(is_encoding_at(lx.encoding(), value@, start as int));
                }
                return Err(e);
            },
        };
        if n > (value.len() - pos) as u64 {
            assert forall|x: String|
                x.encodable() && is_encoding_at(x.encoding(), value@, start as int)
                implies false by {
                let lx = vstd::utf8::encode_utf8(x@).len() as u64;
                assert(x.encoding().subrange(0, 8) =~= u64_be_bytes(lx));
                assert(value@.subrange(start as int, start as int + 8) =~= x.encoding().subrange(
                    0,
                    8,
                ));
                assert(is_encoding_at(lx.encoding(), value@, start as int));
                u64::lemma_encoding_injective(n, lx);
                assert(n == lx);
            }
            return Err(Error::DecodeError(String::from_str("string length out of range")));
        }
        let end: usize = pos + (n as usize);
        let sub: Vec<u8> = vstd::slice::slice_to_vec(vstd::slice::slice_subrange(value, pos, end));
        match string_from_utf8(sub) {
            Some(s) => {
                proof {
                    assert(vstd::utf8::encode_utf8(s@) == value@.subrange(pos as int, end as int));
                    assert(s.encoding() =~= value@.subrange(start as int, end as int));
                    assert forall|x: String|
                        x.encodable() && is_encoding_at(x.encoding(), value@, start as int)
                        implies end == start + x.encoding().len() && s.encoding() == x.encoding() by {
                        let ex = vstd::utf8::encode_utf8(x@);
                        let lx = ex.len() as u64;
                        assert(x.encoding().subrange(0, 8) =~= u64_be_bytes(lx));
                        assert(value@.subrange(start as int, start as int + 8)
                            =~= x.encoding().subrange(0, 8));
                        assert(is_encoding_at(lx.encoding(), value@, start as int));
                        u64::lemma_encoding_injective(n, lx);
                        assert(n == lx);
                        assert(ex =~= x.encoding().subrange(8, x.encoding().len() as int));
                        assert(ex =~= value@.subrange(pos as int, end as int));
                        assert(s.encoding() =~= x.encoding());
                    }
                }
                Ok((s, end))
            },
            None => {
                assert forall|x: String|
                    x.encodable() && is_encoding_at(x.encoding(), value@, start as int)
                    implies false by {
                    let ex = vstd::utf8::encode_utf8(x@);
                    let lx = ex.len() as u64;
                    assert(x.encoding().subrange(0, 8) =~= u64_be_bytes(lx));
                    assert(value@.subrange(start as int, start as int + 8) =~= x.encoding().subrange(
                        0,
                        8,
                    ));
                    assert(is_encoding_at(lx.encoding(), value@, start as int));
                    u64::lemma_encoding_injective(n, lx);
                    assert(n == lx);
                    assert(ex =~= x.encoding().subrange(8, x.encoding().len() as int));
                    assert(ex =~= value@.subrange(pos as int, end as int));
                    vstd::utf8::encode_utf8_valid_utf8(x@);
                }
                Err(Error::DecodeError(String::from_str("invalid text bytes")))
            },
        }
    }
}

/// A block that is a concatenation is two adjacent blocks.
pub proof fn lemma_encoding_at_concat(e1: Seq<u8>, e2: Seq<u8>, buf: Seq<u8>, start: int)
    requires
        is_encoding_at(e1 + e2, buf, start),
    ensures
        is_encoding_at(e1, buf, start),
        is_encoding_at(e2, buf, start + e1.len()),
{
    assert forall|i: int| 0 <= i < e1.len() implies buf[start + i] == e1[i] by {
        assert(buf.subrange(start, start + (e1 + e2).len())[i] == (e1 + e2)[i]);
    }
    assert forall|i: int| 0 <= i < e2.len() implies buf[start + e1.len() + i] == e2[i] by {
        assert(buf.subrange(start, start + (e1 + e2).len())[e1.len() + i] == (e1 + e2)[e1.len()
            + i]);
    }
    assert(buf.subrange(start, start + e1.len()) =~= e1);
    assert(buf.subrange(start + e1.len(), start + e1.len() + e2.len()) =~= e2);
}

/// Two adjacent blocks are one block holding their concatenation.
pub proof fn lemma_concat_encoding_at(e1: Seq<u8>, e2: Seq<u8>, buf: Seq<u8>, start: int)
    requires
        is_encoding_at(e1, buf, start),
        is_encoding_at(e2, buf, start + e1.len()),
    ensures
        is_encoding_at(e1 + e2, buf, start),
{
    assert(buf.subrange(start, start + e1.len() + e2.len()) =~= e1 + e2);
}

impl<T: ExternalBufferSerde> ExternalBufferSerde for Option<T> {
    open spec fn encoding(&self) -> Seq<u8> {
        match self {
            None => seq![0u8],
            Some(t) => seq![1u8] + t.encoding(),
        }
    }

    open spec fn encodable(&self) -> bool {
        match self {
            None => true,
            Some(t) => t.encodable(),
        }
    }

    proof fn lemma_encoding_injective(a: Option<T>, b: Option<T>) {
        match (a, b) {
            (None, None) => {},
            (Some(ta), Some(tb)) => {
                assert(ta.encoding() =~= a.encoding().subrange(1, a.encoding().len() as int));
                assert(tb.encoding() =~= b.encoding().subrange(1, b.encoding().len() as int));
                T::lemma_encoding_injective(ta, tb);
            },
            (None, Some(tb)) => {
                assert(a.encoding()[0] == 0u8);
                assert(b.encoding()[0] == 1u8);
            },
            (Some(ta), None) => {
                assert(a.encoding()[0] == 1u8);
                assert(b.encoding()[0] == 0u8);
            },
        }
    }

    proof fn lemma_encoding_prefix_free(a: Option<T>, b: Option<T>) {
        assert(a.encoding()[0] == b.encoding().subrange(0, a.encoding().len() as int)[0]);
        match (a, b) {
            (None, None) => {
                assert(b.encoding().subrange(0, a.encoding().len() as int) =~= b.encoding());
            },
            (Some(ta), Some(tb)) => {
                assert(ta.encoding() =~= a.encoding().subrange(1, a.encoding().len() as int));
                assert(tb.encoding() =~= b.encoding().subrange(1, b.encoding().len() as int));
                assert(ta.encoding() =~= tb.encoding().subrange(0, ta.encoding().len() as int));
                T::lemma_encoding_prefix_free(ta, tb);
                assert(b.encoding().subrange(0, a.encoding().len() as int) =~= b.encoding());
            },
            (None, Some(tb)) => {
                assert(a.encoding()[0] == 0u8);
                assert(b.encoding()[0] == 1u8);
            },
            (Some(ta), None) => {
                assert(b.encoding()[0] == 0u8);
                assert(a.encoding()[0] == 1u8);
                assert(a.encoding().len() <= 1);
                assert(ta.encoding().len() == 0);
                assert(a.encoding() =~= seq![1u8]);
            },
        }
    }

    fn encode_external_buffer(&self, out: &mut Vec<u8>) {
        match self {
            None => {
                out.push(0u8);
                assert(out@ =~= old(out)@ + self.encoding());
            },
            Some(t) => {
                out.push(1u8);
                t.encode_external_buffer(out);
                assert(out@ =~= old(out)@ + self.encoding());
            },
        }
    }

    fn decode_external_buffer_from(value: &[u8], start: usize) -> (r: Result<
        (Option<T>, usize),
        Error,
    >) {
        if value.len() - start < 1 {
            assert forall|x: Option<T>|
                x.encodable() && is_encoding_at(x.encoding(), value@, start as int)
                implies false by {
                assert(x.encoding().len() >= 1);
            }
            return Err(Error::DecodeError(String::from_str("too few bytes for an option tag")));
        }
        proof {
            assert forall|x: Option<T>|
                x.encodable() && is_encoding_at(x.encoding(), value@, start as int)
                implies x.encoding()[0] == value@[start as int] by {
                assert(value@.subrange(start as int, start as int + x.encoding().len())[0]
                    == value@[start as int]);
            }
        }
        let tag = value[start];
        if tag == 0u8 {
            proof {
                let n: Option<T> = None;
                assert(value@.subrange(start as int, start as int + 1) =~= seq![
                    value@[start as int],
                ]);
                assert(value@.subrange(start as int, start as int + 1) =~= n.encoding());
                assert forall|x: Option<T>|
                    x.encodable() && is_encoding_at(x.encoding(), value@, start as int)
                    implies x.encoding() == n.encoding() && x.encoding().len() == 1 by {
                    match x {
                        None => {},
                        Some(t) => {
                            assert(x.encoding()[0] == 1u8);
                        },
                    }
                }
            }
            Ok((None, start + 1))
        } else if tag == 1u8 {
            match T::decode_external_buffer_from(value, start + 1) {
                Ok((t, end)) => {
                    proof {
                        let res: Option<T> = Some(t);
                        assert(value@.subrange(start as int, end as int) =~= seq![
                            value@[start as int],
                        ] + value@.subrange(start as int + 1, end as int));
                        assert(value@.subrange(start as int, end as int) =~= res.encoding());
                        assert forall|x: Option<T>|
                            x.encodable() && is_encoding_at(x.encoding(), value@, start as int)
                            implies end == start + x.encoding().len() && res.encoding()
                            == x.encoding() by {
                            match x {
                                None => {
                                    assert(x.encoding()[0] == 0u8);
                                },
                                Some(tx) => {
                                    assert(x.encoding() =~= seq![1u8] + tx.encoding());
                                    lemma_encoding_at_concat(
                                        seq![1u8],
                                        tx.encoding(),
                                        value@,
                                        start as int,
                                    );
                                    assert(is_encoding_at(tx.encoding(), value@, start as int + 1));
                                },
                            }
                        }
                    }
                    Ok((Some(t), end))
                },
                Err(e) => {
                    assert forall|x: Option<T>|
                        x.encodable() && is_encoding_at(x.encoding(), value@, start as int)
                        implies false by {
                        match x {
                            None => {
                                assert(x.encoding()[0] == 0u8);
                            },
                            Some(tx) => {
                                assert(x.encoding() =~= seq![1u8] + tx.encoding());
                                lemma_encoding_at_concat(
                                    seq![1u8],
                                    tx.encoding(),
                                    value@,
                                    start as int,
                                );
                                assert(is_encoding_at(tx.encoding(), value@, start as int + 1));
                            },
                        }
                    }
                    Err(e)
                },
            }
        } else {
            assert forall|x: Option<T>|
                x.encodable() && is_encoding_at(x.encoding(), value@, start as int)
                implies false by {
                match x {
                    None => {
                        assert(x.encoding()[0] == 0u8);
                    },
                    Some(tx) => {
                        assert(x.encoding()[0] == 1u8);
                    },
                }
            }
            Err(Error::DecodeError(String::from_str("invalid option tag byte")))
        }
    }
}

impl<A: ExternalBufferSerde, B: ExternalBufferSerde> ExternalBufferSerde for (A, B) {
    open spec fn encoding(&self) -> Seq<u8> {
        self.0.encoding() + self.1.encoding()
    }

    open spec fn encodable(&self) -> bool {
        self.0.encodable() && self.1.encodable()
    }

    proof fn lemma_encoding_injective(a: (A, B), b: (A, B)) {
        let (a0, a1) = a;
        let (b0, b1) = b;
        if a0.encoding().len() <= b0.encoding().len() {
            assert(a0.encoding() =~= b0.encoding().subrange(0, a0.encoding().len() as int)) by {
                assert forall|i: int| 0 <= i < a0.encoding().len() implies a0.encoding()[i]
                    == b0.encoding()[i] by {
                    assert(a.encoding()[i] == a0.encoding()[i]);
                    assert(b.encoding()[i] == b0.encoding()[i]);
                }
            }
            A::lemma_encoding_prefix_free(a0, b0);
        } else {
            assert(b0.encoding() =~= a0.encoding().subrange(0, b0.encoding().len() as int)) by {
                assert forall|i: int| 0 <= i < b0.encoding().len() implies a0.encoding()[i]
                    == b0.encoding()[i] by {
                    assert(a.encoding()[i] == a0.encoding()[i]);
                    assert(b.encoding()[i] == b0.encoding()[i]);
                }
            }
            A::lemma_encoding_prefix_free(b0, a0);
        }
        assert(a0.encoding() == b0.encoding());
        A::lemma_encoding_injective(a0, b0);
        assert(a1.encoding() =~= a.encoding().subrange(
            a0.encoding().len() as int,
            a.encoding().len() as int,
        ));
        assert(b1.encoding() =~= b.encoding().subrange(
            b0.encoding().len() as int,
            b.encoding().len() as int,
        ));
        B::lemma_encoding_injective(a1, b1);
    }

    proof fn lemma_encoding_prefix_free(a: (A, B), b: (A, B)) {
        let (a0, a1) = a;
        let (b0, b1) = b;
        assert forall|i: int| 0 <= i < a.encoding().len() implies a.encoding()[i]
            == b.encoding()[i] by {
            assert(b.encoding().subrange(0, a.encoding().len() as int)[i] == b.encoding()[i]);
        }
        if a0.encoding().len() <= b0.encoding().len() {
            assert(a0.encoding() =~= b0.encoding().subrange(0, a0.encoding().len() as int)) by {
                assert forall|i: int| 0 <= i < a0.encoding().len() implies a0.encoding()[i]
                    == b0.encoding()[i] by {
                    assert(a.encoding()[i] == a0.encoding()[i]);
                    assert(b.encoding()[i] == b0.encoding()[i]);
                }
            }
            A::lemma_encoding_prefix_free(a0, b0);
        } else {
            assert(b0.encoding() =~= a0.encoding().subrange(0, b0.encoding().len() as int)) by {
                assert forall|i: int| 0 <= i < b0.encoding().len() implies a0.encoding()[i]
                    == b0.encoding()[i] by {
                    assert(a.encoding()[i] == a0.encoding()[i]);
                    assert(b.encoding()[i] == b0.encoding()[i]);
                }
            }
            A::lemma_encoding_prefix_free(b0, a0);
        }
        assert(a0.encoding() == b0.encoding());
        let l0 = a0.encoding().len() as int;
        assert(a1.encoding() =~= b1.encoding().subrange(0, a1.encoding().len() as int)) by {
            assert forall|i: int| 0 <= i < a1.encoding().len() implies a1.encoding()[i]
                == b1.encoding()[i] by {
                assert(a.encoding()[l0 + i] == a1.encoding()[i]);
                assert(b.encoding()[l0 + i] == b1.encoding()[i]);
            }
        }
        B::lemma_encoding_prefix_free(a1, b1);
        assert(b.encoding().subrange(0, a.encoding().len() as int) =~= b.encoding());
    }

    fn encode_external_buffer(&self, out: &mut Vec<u8>) {
        self.0.encode_external_buffer(out);
        self.1.encode_external_buffer(out);
        assert(out@ =~= old(out)@ + self.encoding());
    }

    fn decode_external_buffer_from(value: &[u8], start: usize) -> (r: Result<
        ((A, B), usize),
        Error,
    >) {
        proof {
            assert forall|x: (A, B)|
                x.encodable() && is_encoding_at(x.encoding(), value@, start as int)
                implies is_encoding_at(x.0.encoding(), value@, start as int) by {
                lemma_encoding_at_concat(x.0.encoding(), x.1.encoding(), value@, start as int);
            }
        }
        let (x0, p1) = match A::decode_external_buffer_from(value, start) {
            Ok(p) => p,
            Err(e) => {
                return Err(e);
            },
        };
        proof {
            assert forall|x: (A, B)|
                x.encodable() && is_encoding_at(x.encoding(), value@, start as int)
                implies is_encoding_at(x.1.encoding(), value@, p1 as int) && p1 == start
                + x.0.encoding().len() by {
                lemma_encoding_at_concat(x.0.encoding(), x.1.encoding(), value@, start as int);
            }
        }
        let (x1, p2) = match B::decode_external_buffer_from(value, p1) {
            Ok(p) => p,
            Err(e) => {
                return Err(e);
            },
        };
        proof {
            lemma_concat_encoding_at(x0.encoding(), x1.encoding(), value@, start as int);
            assert(value@.subrange(start as int, p2 as int) =~= x0.encoding() + x1.encoding());
            assert forall|x: (A, B)|
                x.encodable() && is_encoding_at(x.encoding(), value@, start as int)
                implies p2 == start + x.encoding().len() && (x0, x1).encoding() == x.encoding() by {
                lemma_encoding_at_concat(x.0.encoding(), x.1.encoding(), value@, start as int);
            }
        }
        Ok(((x0, x1), p2))
    }
}

impl<A: ExternalBufferSerde, B: ExternalBufferSerde, C: ExternalBufferSerde> ExternalBufferSerde for (
    A,
    B,
    C,
) {
    open spec fn encoding(&self) -> Seq<u8> {
        self.0.encoding() + self.1.encoding() + self.2.encoding()
    }

    open spec fn encodable(&self) -> bool {
        self.0.encodable() && self.1.encodable() && self.2.encodable()
    }

    proof fn lemma_encoding_injective(a: (A, B, C), b: (A, B, C)) {
        let ap = (a.0, (a.1, a.2));
        let bp = (b.0, (b.1, b.2));
        assert(ap.encoding() =~= a.encoding());
        assert(bp.encoding() =~= b.encoding());
        <(A, (B, C))>::lemma_encoding_injective(ap, bp);
    }

    proof fn lemma_encoding_prefix_free(a: (A, B, C), b: (A, B, C)) {
        let ap = (a.0, (a.1, a.2));
        let bp = (b.0, (b.1, b.2));
        assert(ap.encoding() =~= a.encoding());
        assert(bp.encoding() =~= b.encoding());
        <(A, (B, C))>::lemma_encoding_prefix_free(ap, bp);
        assert(b.encoding().subrange(0, a.encoding().len() as int) =~= b.encoding());
    }

    fn encode_external_buffer(&self, out: &mut Vec<u8>) {
        self.0.encode_external_buffer(out);
        self.1.encode_external_buffer(out);
        self.2.encode_external_buffer(out);
        assert(out@ =~= old(out)@ + self.encoding());
    }

    fn decode_external_buffer_from(value: &[u8], start: usize) -> (r: Result<
        ((A, B, C), usize),
        Error,
    >) {
        proof {
            assert forall|x: (A, B, C)|
                x.encodable() && is_encoding_at(x.encoding(), value@, start as int)
                implies is_encoding_at(
                (x.0, (x.1, x.2)).encoding(),
                value@,
                start as int,
            ) by {
                assert((x.0, (x.1, x.2)).encoding() =~= x.encoding());
            }
        }
        match <(A, (B, C))>::decode_external_buffer_from(value, start) {
            Ok(((x0, (x1, x2)), end)) => {
                proof {
                    assert((x0, x1, x2).encoding() =~= (x0, (x1, x2)).encoding());
                    assert forall|x: (A, B, C)|
                        x.encodable() && is_encoding_at(x.encoding(), value@, start as int)
                        implies end == start + x.encoding().len() && (x0, x1, x2).encoding()
                        == x.encoding() by {
                        assert((x.0, (x.1, x.2)).encoding() =~= x.encoding());
                        assert(is_encoding_at((x.0, (x.1, x.2)).encoding(), value@, start as int));
                    }
                }
                Ok(((x0, x1, x2), end))
            },
            Err(e) => {
                assert forall|x: (A, B, C)|
                    x.encodable() && is_encoding_at(x.encoding(), value@, start as int)
                    implies false by {
                    assert((x.0, (x.1, x.2)).encoding() =~= x.encoding());
                    assert(is_encoding_at((x.0, (x.1, x.2)).encoding(), value@, start as int));
                }
                Err(e)
            },
        }
    }
}


/// The concatenated encodings of a sequence of values.
pub open spec fn seq_encoding<T: ExternalBufferSerde>(s: Seq<T>) -> Seq<u8>
    decreases s.len(),
{
    if s.len() == 0 {
        Seq::empty()
    } else {
        s[0].encoding() + seq_encoding(s.drop_first())
    }
}

/// Every value of the sequence is encodable.
pub open spec fn seq_encodable<T: ExternalBufferSerde>(s: Seq<T>) -> bool {
    forall|i: int| 0 <= i < s.len() ==> s[i].encodable()
}

/// Appending one value extends the concatenated encodings by its encoding.
pub proof fn lemma_seq_encoding_push<T: ExternalBufferSerde>(s: Seq<T>, x: T)
    ensures
        seq_encoding(s.push(x)) == seq_encoding(s) + x.encoding(),
    decreases s.len(),
{
    if s.len() == 0 {
        assert(s.push(x)[0] == x);
        assert(s.push(x).drop_first() =~= Seq::<T>::empty());
        assert(seq_encoding(s.push(x)) == x.encoding() + seq_encoding(Seq::<T>::empty()));
        assert(seq_encoding(s.push(x)) =~= x.encoding());
        assert(seq_encoding(s) + x.encoding() =~= x.encoding());
    } else {
        assert(s.push(x)[0] == s[0]);
        assert(s.push(x).drop_first() =~= s.drop_first().push(x));
        lemma_seq_encoding_push(s.drop_first(), x);
        assert(seq_encoding(s.push(x)) =~= seq_encoding(s) + x.encoding());
    }
}

/// The concatenated encodings split at any index of the sequence.
pub proof fn lemma_seq_encoding_split<T: ExternalBufferSerde>(s: Seq<T>, k: int)
    requires
        0 <= k <= s.len(),
    ensures
        seq_encoding(s) == seq_encoding(s.take(k)) + seq_encoding(s.skip(k)),
    decreases k,
{
    if k == 0 {
        assert(s.take(0) =~= Seq::<T>::empty());
        assert(s.skip(0) =~= s);
        assert(seq_encoding(s) =~= seq_encoding(s.take(0)) + seq_encoding(s.skip(0)));
    } else {
        lemma_seq_encoding_split(s.drop_first(), k - 1);
        assert(s.take(k).drop_first() =~= s.drop_first().take(k - 1));
        assert(s.skip(k) =~= s.drop_first().skip(k - 1));
        assert(s.take(k)[0] == s[0]);
        assert(seq_encoding(s.take(k)) == s[0].encoding() + seq_encoding(s.drop_first().take(k - 1)));
        assert(seq_encoding(s) =~= seq_encoding(s.take(k)) + seq_encoding(s.skip(k)));
    }
}

/// A suffix of the concatenated encodings starts with the encoding of
/// the value at its head.
pub proof fn lemma_seq_encoding_skip_head<T: ExternalBufferSerde>(s: Seq<T>, k: int)
    requires
        0 <= k < s.len(),
    ensures
        seq_encoding(s.skip(k)) == s[k].encoding() + seq_encoding(s.skip(k + 1)),
{
    assert(s.skip(k).len() > 0);
    assert(s.skip(k)[0] == s[k]);
    assert(s.skip(k).drop_first() =~= s.skip(k + 1));
}

/// Sequences of equal count whose concatenated encodings start one
/// block of bytes have equal concatenated encodings.
pub proof fn lemma_seq_encoding_prefix_free<T: ExternalBufferSerde>(s1: Seq<T>, s2: Seq<T>)
    requires
        seq_encodable(s1),
        seq_encodable(s2),
        s1.len() == s2.len(),
        seq_encoding(s1).len() <= seq_encoding(s2).len(),
        seq_encoding(s2).subrange(0, seq_encoding(s1).len() as int) == seq_encoding(s1),
    ensures
        seq_encoding(s1) == seq_encoding(s2),
    decreases s1.len(),
{
    if s1.len() == 0 {
        assert(seq_encoding(s2).subrange(0, 0) =~= seq_encoding(s1));
        assert(seq_encoding(s1) =~= seq_encoding(s2));
    } else {
        let e1 = s1[0].encoding();
        let e2 = s2[0].encoding();
        let t1 = seq_encoding(s1.drop_first());
        let t2 = seq_encoding(s2.drop_first());
        assert forall|i: int| 0 <= i < seq_encoding(s1).len() implies seq_encoding(s1)[i]
            == seq_encoding(s2)[i] by {
            assert(seq_encoding(s2).subrange(0, seq_encoding(s1).len() as int)[i]
                == seq_encoding(s2)[i]);
        }
        if e1.len() <= e2.len() {
            assert(e1 =~= e2.subrange(0, e1.len() as int)) by {
                assert forall|i: int| 0 <= i < e1.len() implies e1[i] == e2[i] by {
                    assert(seq_encoding(s1)[i] == e1[i]);
                    assert(seq_encoding(s2)[i] == e2[i]);
                }
            }
            T::lemma_encoding_prefix_free(s1[0], s2[0]);
        } else {
            assert(e2 =~= e1.subrange(0, e2.len() as int)) by {
                assert forall|i: int| 0 <= i < e2.len() implies e1[i] == e2[i] by {
                    assert(seq_encoding(s1)[i] == e1[i]);
                    assert(seq_encoding(s2)[i] == e2[i]);
                }
            }
            T::lemma_encoding_prefix_free(s2[0], s1[0]);
        }
        assert(e1 == e2);
        let l0 = e1.len() as int;
        assert(t1 =~= t2.subrange(0, t1.len() as int)) by {
            assert forall|i: int| 0 <= i < t1.len() implies t1[i] == t2[i] by {
                assert(seq_encoding(s1)[l0 + i] == t1[i]);
                assert(seq_encoding(s2)[l0 + i] == t2[i]);
            }
        }
        lemma_seq_encoding_prefix_free(s1.drop_first(), s2.drop_first());
        assert(seq_encoding(s1) =~= seq_encoding(s2));
    }
}

/// Sequences of equal count with equal concatenated encodings agree
/// value by value in meaning.
pub proof fn lemma_seq_encoding_injective<T: ExternalBufferSerde>(s1: Seq<T>, s2: Seq<T>)
    requires
        seq_encodable(s1),
        seq_encodable(s2),
        s1.len() == s2.len(),
        seq_encoding(s1) == seq_encoding(s2),
    ensures
        forall|i: int| 0 <= i < s1.len() ==> s1[i].deep_view() == s2[i].deep_view(),
    decreases s1.len(),
{
    if s1.len() == 0 {
    } else {
        let e1 = s1[0].encoding();
        let e2 = s2[0].encoding();
        if e1.len() <= e2.len() {
            assert(e1 =~= e2.subrange(0, e1.len() as int)) by {
                assert forall|i: int| 0 <= i < e1.len() implies e1[i] == e2[i] by {
                    assert(seq_encoding(s1)[i] == e1[i]);
                    assert(seq_encoding(s2)[i] == e2[i]);
                }
            }
            T::lemma_encoding_prefix_free(s1[0], s2[0]);
        } else {
            assert(e2 =~= e1.subrange(0, e2.len() as int)) by {
                assert forall|i: int| 0 <= i < e2.len() implies e1[i] == e2[i] by {
                    assert(seq_encoding(s1)[i] == e1[i]);
                    assert(seq_encoding(s2)[i] == e2[i]);
                }
            }
            T::lemma_encoding_prefix_free(s2[0], s1[0]);
        }
        assert(e1 == e2);
        T::lemma_encoding_injective(s1[0], s2[0]);
        let l0 = e1.len() as int;
        let t1 = seq_encoding(s1.drop_first());
        let t2 = seq_encoding(s2.drop_first());
        assert(seq_encoding(s1) == e1 + t1);
        assert(seq_encoding(s2) == e2 + t2);
        assert(t1.len() == t2.len());
        assert(t1 =~= t2) by {
            assert forall|i: int| 0 <= i < t1.len() implies t1[i] == t2[i] by {
                assert(seq_encoding(s1)[l0 + i] == t1[i]);
                assert(seq_encoding(s2)[l0 + i] == t2[i]);
            }
        }
        lemma_seq_encoding_injective(s1.drop_first(), s2.drop_first());
        assert forall|i: int| 0 <= i < s1.len() implies s1[i].deep_view()
            == s2[i].deep_view() by {
            if i > 0 {
                assert(s1.drop_first()[i - 1] == s1[i]);
                assert(s2.drop_first()[i - 1] == s2[i]);
            }
        }
    }
}

impl<T: ExternalBufferSerde> ExternalBufferSerde for Vec<T> {
    open spec fn encoding(&self) -> Seq<u8> {
        u64_be_bytes(self@.len() as u64) + seq_encoding(self@)
    }

    open spec fn encodable(&self) -> bool {
        self@.len() <= u64::MAX && seq_encodable(self@)
    }

    proof fn lemma_encoding_injective(a: Vec<T>, b: Vec<T>) {
        let la = a@.len() as u64;
        let lb = b@.len() as u64;
        assert(u64_be_bytes(la) =~= a.encoding().subrange(0, 8));
        assert(u64_be_bytes(lb) =~= b.encoding().subrange(0, 8));
        u64::lemma_encoding_injective(la, lb);
        assert(a@.len() == b@.len());
        assert(seq_encoding(a@) =~= a.encoding().subrange(8, a.encoding().len() as int));
        assert(seq_encoding(b@) =~= b.encoding().subrange(8, b.encoding().len() as int));
        lemma_seq_encoding_injective(a@, b@);
        assert(a.deep_view() =~= b.deep_view());
    }

    proof fn lemma_encoding_prefix_free(a: Vec<T>, b: Vec<T>) {
        let la = a@.len() as u64;
        let lb = b@.len() as u64;
        assert forall|i: int| 0 <= i < a.encoding().len() implies a.encoding()[i]
            == b.encoding()[i] by {
            assert(b.encoding().subrange(0, a.encoding().len() as int)[i] == b.encoding()[i]);
        }
        assert(u64_be_bytes(la) =~= u64_be_bytes(lb)) by {
            assert forall|i: int| 0 <= i < 8 implies u64_be_bytes(la)[i] == u64_be_bytes(lb)[i] by {
                assert(a.encoding()[i] == u64_be_bytes(la)[i]);
                assert(b.encoding()[i] == u64_be_bytes(lb)[i]);
            }
        }
        u64::lemma_encoding_injective(la, lb);
        assert(a@.len() == b@.len());
        assert(seq_encoding(a@) =~= seq_encoding(b@).subrange(0, seq_encoding(a@).len() as int)) by {
            assert forall|i: int| 0 <= i < seq_encoding(a@).len() implies seq_encoding(a@)[i]
                == seq_encoding(b@)[i] by {
                assert(a.encoding()[8 + i] == seq_encoding(a@)[i]);
                assert(b.encoding()[8 + i] == seq_encoding(b@)[i]);
            }
        }
        lemma_seq_encoding_prefix_free(a@, b@);
        assert(b.encoding().subrange(0, a.encoding().len() as int) =~= b.encoding());
    }

    fn encode_external_buffer(&self, out: &mut Vec<u8>) {
        let ghost out0 = out@;
        let n: u64 = self.len() as u64;
        n.encode_external_buffer(out);
        let mut i: usize = 0;
        while i < self.len()
            invariant
                i <= self@.len(),
                self@.len() <= u64::MAX,
                n == self@.len() as u64,
                out@ == out0 + u64_be_bytes(n) + seq_encoding(self@.take(i as int)),
                forall|j: int| 0 <= j < i ==> self@[j].encodable(),
            decreases self@.len() - i,
        {
            let elem = &self[i];
            elem.encode_external_buffer(out);
            proof {
                assert(self@.take(i + 1) =~= self@.take(i as int).push(self@[i as int]));
                lemma_seq_encoding_push(self@.take(i as int), self@[i as int]);
                assert(out@ =~= out0 + u64_be_bytes(n) + seq_encoding(self@.take(i + 1)));
            }
            i += 1;
        }
        proof {
            assert(self@.take(self@.len() as int) =~= self@);
            assert(out@ =~= out0 + self.encoding());
        }
    }

    fn decode_external_buffer_from(value: &[u8], start: usize) -> (r: Result<
        (Vec<T>, usize),
        Error,
    >) {
        proof {
            assert forall|x: Vec<T>|
                x.encodable() && is_encoding_at(x.encoding(), value@, start as int)
                implies is_encoding_at((x@.len() as u64).encoding(), value@, start as int)
                && is_encoding_at(seq_encoding(x@), value@, start as int + 8) by {
                lemma_encoding_at_concat(
                    u64_be_bytes(x@.len() as u64),
                    seq_encoding(x@),
                    value@,
                    start as int,
                );
            }
        }
        let (n, data_start) = match u64::decode_external_buffer_from(value, start) {
            Ok(p) => p,
            Err(e) => {
                return Err(e);
            },
        };
        proof {
            assert forall|x: Vec<T>|
                x.encodable() && is_encoding_at(x.encoding(), value@, start as int)
                implies x@.len() == n as int by {
                u64::lemma_encoding_injective(x@.len() as u64, n);
            }
        }
        let mut acc: Vec<T> = Vec::new();
        let mut pos: usize = data_start;
        let mut k: u64 = 0;
        proof {
            assert(data_start == start + 8) by {
                assert(value@.subrange(start as int, data_start as int).len() == u64_be_bytes(
                    n,
                ).len());
            }
            assert(value@.subrange(data_start as int, pos as int) =~= seq_encoding(acc@));
        }
        #[verifier::loop_isolation(false)]
        while k < n
            invariant
                start + 8 == data_start,
                data_start <= pos <= value@.len(),
                k <= n,
                acc@.len() == k as int,
                seq_encodable(acc@),
                value@.subrange(data_start as int, pos as int) == seq_encoding(acc@),
                forall|sq: Seq<T>|
                    seq_encodable(sq) && sq.len() == n as int && #[trigger] is_encoding_at(
                        seq_encoding(sq),
                        value@,
                        data_start as int,
                    ) ==> seq_encoding(sq.take(k as int)) == seq_encoding(acc@),
            decreases n - k,
        {
            proof {
                assert forall|sq: Seq<T>|
                    seq_encodable(sq) && sq.len() == n as int && #[trigger] is_encoding_at(
                        seq_encoding(sq),
                        value@,
                        data_start as int,
                    ) implies is_encoding_at(sq[k as int].encoding(), value@, pos as int) by {
                    lemma_seq_encoding_split(sq, k as int);
                    lemma_encoding_at_concat(
                        seq_encoding(sq.take(k as int)),
                        seq_encoding(sq.skip(k as int)),
                        value@,
                        data_start as int,
                    );
                    lemma_seq_encoding_skip_head(sq, k as int);
                    lemma_encoding_at_concat(
                        sq[k as int].encoding(),
                        seq_encoding(sq.skip(k as int + 1)),
                        value@,
                        data_start as int + seq_encoding(sq.take(k as int)).len(),
                    );
                }
            }
            match T::decode_external_buffer_from(value, pos) {
                Ok((elem, np)) => {
                    proof {
                        let ghost acc1 = acc@.push(elem);
                        lemma_seq_encoding_push(acc@, elem);
                        assert(value@.subrange(data_start as int, np as int) =~= seq_encoding(
                            acc1,
                        )) by {
                            lemma_concat_encoding_at(
                                seq_encoding(acc@),
                                elem.encoding(),
                                value@,
                                data_start as int,
                            );
                        }
                        assert forall|sq: Seq<T>|
                            seq_encodable(sq) && sq.len() == n as int && #[trigger] is_encoding_at(
                                seq_encoding(sq),
                                value@,
                                data_start as int,
                            ) implies seq_encoding(sq.take(k as int + 1)) == seq_encoding(acc1) by {
                            assert(sq.take(k as int + 1) =~= sq.take(k as int).push(sq[k as int]));
                            lemma_seq_encoding_push(sq.take(k as int), sq[k as int]);
                            assert(elem.encoding() == sq[k as int].encoding());
                        }
                    }
                    acc.push(elem);
                    pos = np;
                    k = k + 1;
                },
                Err(e) => {
                    assert forall|x: Vec<T>|
                        x.encodable() && is_encoding_at(x.encoding(), value@, start as int)
                        implies false by {
                        assert(is_encoding_at(seq_encoding(x@), value@, data_start as int));
                        assert(is_encoding_at(x@[k as int].encoding(), value@, pos as int));
                    }
                    return Err(e);
                },
            }
        }
        proof {
            assert((acc@.len() as u64) == n) by {
                assert(acc@.len() == n as int);
            }
            assert(value@.subrange(start as int, pos as int) =~= acc.encoding()) by {
                lemma_concat_encoding_at(
                    u64_be_bytes(n),
                    seq_encoding(acc@),
                    value@,
                    start as int,
                );
            }
            assert forall|x: Vec<T>|
                x.encodable() && is_encoding_at(x.encoding(), value@, start as int)
                implies pos == start + x.encoding().len() && acc.encoding() == x.encoding() by {
                assert(is_encoding_at(seq_encoding(x@), value@, data_start as int));
                assert(seq_encoding(x@.take(k as int)) == seq_encoding(acc@));
                assert(x@.take(k as int) =~= x@);
                assert(acc.encoding() =~= x.encoding());
            }
        }
        Ok((acc, pos))
    }
}


} // verus!
