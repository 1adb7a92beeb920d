//! Wire-format primitives shared by every codec in the crate.
//!
//! Each primitive comes in three parts: a specification encoder (a function
//! from the mathematical value to the byte sequence it is written as), a
//! specification decoder (a function from a byte stream to the decoded value
//! and the remaining stream, or a [`CodecError`]), and executable readers and
//! writers whose contracts say they agree exactly with those functions.
//!
//! A decoder consumes a prefix of the stream it is given and hands back the
//! untouched suffix, so decoders compose by chaining.

use vstd::prelude::*;
use vstd::utf8::valid_utf8;
use crate::errors::CodecError;

verus! {

/// What a specification decoder for values of type `V` returns: the value
/// and the remaining stream, or the error the input provoked.
pub type DecodeResult<V> = Result<(V, Seq<u8>), CodecError>;

// ---------------------------------------------------------------------------
// Big-endian integers
// ---------------------------------------------------------------------------

/// The 8 bytes of `x`, most significant first.
pub open spec fn spec_u64_be(x: u64) -> Seq<u8> {
    seq![
        ((x >> 56) & 0xff) as u8,
        ((x >> 48) & 0xff) as u8,
        ((x >> 40) & 0xff) as u8,
        ((x >> 32) & 0xff) as u8,
        ((x >> 24) & 0xff) as u8,
        ((x >> 16) & 0xff) as u8,
        ((x >> 8) & 0xff) as u8,
        (x & 0xff) as u8,
    ]
}

/// The value of 8 bytes read most significant first.
pub open spec fn spec_u64_from_be(s: Seq<u8>) -> u64
    recommends
        s.len() == 8,
{
    ((s[0] as u64) << 56 | (s[1] as u64) << 48 | (s[2] as u64) << 40 | (s[3] as u64) << 32 | (
    s[4] as u64) << 24 | (s[5] as u64) << 16 | (s[6] as u64) << 8 | (s[7] as u64))
}

pub proof fn lemma_u64_be_round_trip(x: u64)
    ensures
        spec_u64_be(x).len() == 8,
        spec_u64_from_be(spec_u64_be(x)) == x,
{
    assert({
        &&& (x >> 56) & 0xff < 256
        &&& (x >> 48) & 0xff < 256
        &&& (x >> 40) & 0xff < 256
        &&& (x >> 32) & 0xff < 256
        &&& (x >> 24) & 0xff < 256
        &&& (x >> 16) & 0xff < 256
        &&& (x >> 8) & 0xff < 256
        &&& x & 0xff < 256
    }) by (bit_vector);
    assert(x == ((x >> 56) & 0xff) << 56 | ((x >> 48) & 0xff) << 48 | ((x >> 40) & 0xff) << 40 | ((
    x >> 32) & 0xff) << 32 | ((x >> 24) & 0xff) << 24 | ((x >> 16) & 0xff) << 16 | ((x >> 8)
        & 0xff) << 8 | (x & 0xff)) by (bit_vector);
}

/// The 16 bytes of `x`, most significant first.
pub open spec fn spec_u128_be(x: u128) -> Seq<u8> {
    seq![
        ((x >> 120) & 0xff) as u8,
        ((x >> 112) & 0xff) as u8,
        ((x >> 104) & 0xff) as u8,
        ((x >> 96) & 0xff) as u8,
        ((x >> 88) & 0xff) as u8,
        ((x >> 80) & 0xff) as u8,
        ((x >> 72) & 0xff) as u8,
        ((x >> 64) & 0xff) as u8,
        ((x >> 56) & 0xff) as u8,
        ((x >> 48) & 0xff) as u8,
        ((x >> 40) & 0xff) as u8,
        ((x >> 32) & 0xff) as u8,
        ((x >> 24) & 0xff) as u8,
        ((x >> 16) & 0xff) as u8,
        ((x >> 8) & 0xff) as u8,
        (x & 0xff) as u8,
    ]
}

/// The value of 16 bytes read most significant first.
pub open spec fn spec_u128_from_be(s: Seq<u8>) -> u128
    recommends
        s.len() == 16,
{
    ((s[0] as u128) << 120 | (s[1] as u128) << 112 | (s[2] as u128) << 104 | (s[3] as u128) << 96 | (
    s[4] as u128) << 88 | (s[5] as u128) << 80 | (s[6] as u128) << 72 | (s[7] as u128) << 64 | (
    s[8] as u128) << 56 | (s[9] as u128) << 48 | (s[10] as u128) << 40 | (s[11] as u128) << 32 | (
    s[12] as u128) << 24 | (s[13] as u128) << 16 | (s[14] as u128) << 8 | (s[15] as u128))
}

pub proof fn lemma_u128_be_round_trip(x: u128)
    ensures
        spec_u128_be(x).len() == 16,
        spec_u128_from_be(spec_u128_be(x)) == x,
{
    assert({
        &&& (x >> 120) & 0xff < 256
        &&& (x >> 112) & 0xff < 256
        &&& (x >> 104) & 0xff < 256
        &&& (x >> 96) & 0xff < 256
        &&& (x >> 88) & 0xff < 256
        &&& (x >> 80) & 0xff < 256
        &&& (x >> 72) & 0xff < 256
        &&& (x >> 64) & 0xff < 256
        &&& (x >> 56) & 0xff < 256
        &&& (x >> 48) & 0xff < 256
        &&& (x >> 40) & 0xff < 256
        &&& (x >> 32) & 0xff < 256
        &&& (x >> 24) & 0xff < 256
        &&& (x >> 16) & 0xff < 256
        &&& (x >> 8) & 0xff < 256
        &&& x & 0xff < 256
    }) by (bit_vector);
    assert(x == ((x >> 120) & 0xff) << 120 | ((x >> 112) & 0xff) << 112 | ((x >> 104) & 0xff) << 104
        | ((x >> 96) & 0xff) << 96 | ((x >> 88) & 0xff) << 88 | ((x >> 80) & 0xff) << 80 | ((x
        >> 72) & 0xff) << 72 | ((x >> 64) & 0xff) << 64 | ((x >> 56) & 0xff) << 56 | ((x >> 48)
        & 0xff) << 48 | ((x >> 40) & 0xff) << 40 | ((x >> 32) & 0xff) << 32 | ((x >> 24) & 0xff)
        << 24 | ((x >> 16) & 0xff) << 16 | ((x >> 8) & 0xff) << 8 | (x & 0xff)) by (bit_vector);
}

// ---------------------------------------------------------------------------
// Specification decoders for the primitives
// ---------------------------------------------------------------------------

/// One raw byte.
pub open spec fn spec_decode_byte(s: Seq<u8>) -> DecodeResult<u8> {
    if s.len() < 1 {
        Err(CodecError::TruncatedInput)
    } else {
        Ok((s[0], s.drop_first()))
    }
}

/// An 8-byte big-endian integer.
pub open spec fn spec_decode_u64(s: Seq<u8>) -> DecodeResult<u64> {
    if s.len() < 8 {
        Err(CodecError::TruncatedInput)
    } else {
        Ok((spec_u64_from_be(s.take(8)), s.skip(8)))
    }
}

/// A byte run: an 8-byte length followed by that many raw bytes.
pub open spec fn spec_encode_run(b: Seq<u8>) -> Seq<u8> {
    spec_u64_be(b.len() as u64) + b
}

pub open spec fn spec_decode_run(s: Seq<u8>) -> DecodeResult<Seq<u8>> {
    match spec_decode_u64(s) {
        Ok((n, r)) => if r.len() < n {
            Err(CodecError::TruncatedInput)
        } else {
            Ok((r.take(n as int), r.skip(n as int)))
        },
        Err(e) => Err(e),
    }
}

/// A field of `n` raw bytes.
pub open spec fn spec_decode_fixed(s: Seq<u8>, n: int) -> DecodeResult<Seq<u8>>
    recommends
        n >= 0,
{
    if s.len() < n {
        Err(CodecError::TruncatedInput)
    } else {
        Ok((s.take(n), s.skip(n)))
    }
}

/// A string: the byte run of its UTF-8 encoding.  Decoding rejects runs
/// that are not valid UTF-8.
pub open spec fn spec_decode_string(s: Seq<u8>) -> DecodeResult<Seq<u8>> {
    match spec_decode_run(s) {
        Ok((b, r)) => if valid_utf8(b) {
            Ok((b, r))
        } else {
            Err(CodecError::InvalidStringEncoding)
        },
        Err(e) => Err(e),
    }
}

// ---------------------------------------------------------------------------
// Round-trip lemmas for the primitives
// ---------------------------------------------------------------------------

pub proof fn lemma_decode_byte_round_trip(b: u8, rest: Seq<u8>)
    ensures
        spec_decode_byte(seq![b] + rest) == Ok::<_, CodecError>((b, rest)),
{
    assert((seq![b] + rest).drop_first() =~= rest);
}

pub proof fn lemma_decode_u64_round_trip(x: u64, rest: Seq<u8>)
    ensures
        spec_decode_u64(spec_u64_be(x) + rest) == Ok::<_, CodecError>((x, rest)),
{
    lemma_u64_be_round_trip(x);
    assert((spec_u64_be(x) + rest).take(8) =~= spec_u64_be(x));
    assert((spec_u64_be(x) + rest).skip(8) =~= rest);
}

pub proof fn lemma_decode_run_round_trip(b: Seq<u8>, rest: Seq<u8>)
    requires
        b.len() < 0x1_0000_0000_0000_0000,
    ensures
        spec_decode_run(spec_encode_run(b) + rest) == Ok::<_, CodecError>((b, rest)),
{
    let n = b.len() as u64;
    assert(spec_encode_run(b) + rest =~= spec_u64_be(n) + (b + rest));
    lemma_decode_u64_round_trip(n, b + rest);
    assert((b + rest).take(n as int) =~= b);
    assert((b + rest).skip(n as int) =~= rest);
}

pub proof fn lemma_decode_fixed_round_trip(b: Seq<u8>, rest: Seq<u8>)
    ensures
        spec_decode_fixed(b + rest, b.len() as int) == Ok::<_, CodecError>((b, rest)),
{
    assert((b + rest).take(b.len() as int) =~= b);
    assert((b + rest).skip(b.len() as int) =~= rest);
}

pub proof fn lemma_decode_string_round_trip(b: Seq<u8>, rest: Seq<u8>)
    requires
        b.len() < 0x1_0000_0000_0000_0000,
        valid_utf8(b),
    ensures
        spec_decode_string(spec_encode_run(b) + rest) == Ok::<_, CodecError>((b, rest)),
{
    lemma_decode_run_round_trip(b, rest);
}

// ---------------------------------------------------------------------------
// Extension stability: a decoder that succeeds on a stream succeeds with
// the same value when more bytes are appended, and passes them through.
// ---------------------------------------------------------------------------

/// `dec` is stable under appending input: success on `s` means the same
/// success on `s + ext`, with `ext` handed back untouched.
pub open spec fn ext_stable<V>(dec: spec_fn(Seq<u8>) -> DecodeResult<V>) -> bool {
    forall|s: Seq<u8>, ext: Seq<u8>|
        #![trigger dec(s + ext)]
        match dec(s) {
            Ok(p) => dec(s + ext) == Ok::<_, CodecError>((p.0, p.1 + ext)),
            Err(_) => true,
        }
}

pub proof fn lemma_decode_byte_ext(s: Seq<u8>, ext: Seq<u8>)
    ensures
        match spec_decode_byte(s) {
            Ok(p) => spec_decode_byte(s + ext) == Ok::<_, CodecError>((p.0, p.1 + ext)),
            Err(_) => true,
        },
{
    if s.len() >= 1 {
        assert((s + ext)[0] == s[0]);
        assert((s + ext).drop_first() =~= s.drop_first() + ext);
    }
}

pub proof fn lemma_decode_u64_ext(s: Seq<u8>, ext: Seq<u8>)
    ensures
        match spec_decode_u64(s) {
            Ok(p) => spec_decode_u64(s + ext) == Ok::<_, CodecError>((p.0, p.1 + ext)),
            Err(_) => true,
        },
{
    if s.len() >= 8 {
        assert((s + ext).take(8) =~= s.take(8));
        assert((s + ext).skip(8) =~= s.skip(8) + ext);
    }
}

pub proof fn lemma_decode_run_ext(s: Seq<u8>, ext: Seq<u8>)
    ensures
        match spec_decode_run(s) {
            Ok(p) => spec_decode_run(s + ext) == Ok::<_, CodecError>((p.0, p.1 + ext)),
            Err(_) => true,
        },
{
    lemma_decode_u64_ext(s, ext);
    if s.len() >= 8 {
        let n = spec_u64_from_be(s.take(8)) as int;
        let r = s.skip(8);
        if r.len() >= n {
            assert((r + ext).take(n) =~= r.take(n));
            assert((r + ext).skip(n) =~= r.skip(n) + ext);
        }
    }
}

pub proof fn lemma_decode_fixed_ext(s: Seq<u8>, ext: Seq<u8>, n: int)
    requires
        n >= 0,
    ensures
        match spec_decode_fixed(s, n) {
            Ok(p) => spec_decode_fixed(s + ext, n) == Ok::<_, CodecError>((p.0, p.1 + ext)),
            Err(_) => true,
        },
{
    if s.len() >= n {
        assert((s + ext).take(n) =~= s.take(n));
        assert((s + ext).skip(n) =~= s.skip(n) + ext);
    }
}

pub proof fn lemma_decode_string_ext(s: Seq<u8>, ext: Seq<u8>)
    ensures
        match spec_decode_string(s) {
            Ok(p) => spec_decode_string(s + ext) == Ok::<_, CodecError>((p.0, p.1 + ext)),
            Err(_) => true,
        },
{
    lemma_decode_run_ext(s, ext);
}

// ---------------------------------------------------------------------------
// Lists: an 8-byte count followed by the encoded items
// ---------------------------------------------------------------------------

/// The concatenation of the encodings of the items of `vs`.
pub open spec fn spec_encode_items<V>(vs: Seq<V>, enc: spec_fn(V) -> Seq<u8>) -> Seq<u8>
    decreases vs.len(),
{
    if vs.len() == 0 {
        Seq::empty()
    } else {
        enc(vs[0]) + spec_encode_items(vs.drop_first(), enc)
    }
}

/// A list: the item count, then each item in order.
pub open spec fn spec_encode_list<V>(vs: Seq<V>, enc: spec_fn(V) -> Seq<u8>) -> Seq<u8> {
    spec_u64_be(vs.len() as u64) + spec_encode_items(vs, enc)
}

/// `n` items decoded in sequence.
pub open spec fn spec_decode_items<V>(
    s: Seq<u8>,
    n: nat,
    dec: spec_fn(Seq<u8>) -> DecodeResult<V>,
) -> DecodeResult<Seq<V>>
    decreases n,
{
    if n == 0 {
        Ok((Seq::empty(), s))
    } else {
        match dec(s) {
            Ok((v, r)) => match spec_decode_items(r, (n - 1) as nat, dec) {
                Ok((vs, r2)) => Ok((seq![v] + vs, r2)),
                Err(e) => Err(e),
            },
            Err(e) => Err(e),
        }
    }
}

/// A count-prefixed list.
pub open spec fn spec_decode_list<V>(
    s: Seq<u8>,
    dec: spec_fn(Seq<u8>) -> DecodeResult<V>,
) -> DecodeResult<Seq<V>> {
    match spec_decode_u64(s) {
        Ok((n, r)) => spec_decode_items(r, n as nat, dec),
        Err(e) => Err(e),
    }
}

/// Splitting a sequence splits the encoding of its items.
pub proof fn lemma_encode_items_app<V>(a: Seq<V>, b: Seq<V>, enc: spec_fn(V) -> Seq<u8>)
    ensures
        spec_encode_items(a + b, enc) == spec_encode_items(a, enc) + spec_encode_items(b, enc),
    decreases a.len(),
{
    if a.len() == 0 {
        assert(a + b =~= b);
        assert(spec_encode_items(a, enc) + spec_encode_items(b, enc) =~= spec_encode_items(b, enc));
    } else {
        assert((a + b).drop_first() =~= a.drop_first() + b);
        lemma_encode_items_app(a.drop_first(), b, enc);
        assert(spec_encode_items(a + b, enc) =~= spec_encode_items(a, enc) + spec_encode_items(
            b,
            enc,
        ));
    }
}

/// The encoding of one more item extends the encoding of the items so far.
pub proof fn lemma_encode_items_snoc<V>(vs: Seq<V>, i: int, enc: spec_fn(V) -> Seq<u8>)
    requires
        0 <= i < vs.len(),
    ensures
        spec_encode_items(vs.take(i + 1), enc) == spec_encode_items(vs.take(i), enc) + enc(vs[i]),
{
    assert(vs.take(i + 1) =~= vs.take(i) + seq![vs[i]]);
    lemma_encode_items_app(vs.take(i), seq![vs[i]], enc);
    let single = seq![vs[i]];
    assert(single.drop_first() =~= Seq::<V>::empty());
    assert(single[0] == vs[i]);
    assert(spec_encode_items(Seq::<V>::empty(), enc) == Seq::<u8>::empty());
    assert(spec_encode_items(single, enc) == enc(vs[i]) + Seq::<u8>::empty());
    assert(enc(vs[i]) + Seq::<u8>::empty() =~= enc(vs[i]));
}

/// Decoding the encoding of `n` items yields those items, whatever follows.
pub proof fn lemma_decode_items_round_trip<V>(
    vs: Seq<V>,
    enc: spec_fn(V) -> Seq<u8>,
    dec: spec_fn(Seq<u8>) -> DecodeResult<V>,
    rest: Seq<u8>,
)
    requires
        forall|i: int, r: Seq<u8>|
            0 <= i < vs.len() ==> #[trigger] dec(enc(vs[i]) + r) == Ok::<_, CodecError>((vs[i], r)),
    ensures
        spec_decode_items(spec_encode_items(vs, enc) + rest, vs.len() as nat, dec)
            == Ok::<_, CodecError>((vs, rest)),
    decreases vs.len(),
{
    if vs.len() == 0 {
        assert(spec_encode_items(vs, enc) + rest =~= rest);
        assert(vs =~= Seq::<V>::empty());
    } else {
        let tail = vs.drop_first();
        let tail_bytes = spec_encode_items(tail, enc) + rest;
        assert(spec_encode_items(vs, enc) + rest =~= enc(vs[0]) + tail_bytes);
        assert(dec(enc(vs[0]) + tail_bytes) == Ok::<_, CodecError>((vs[0], tail_bytes)));
        assert(forall|i: int, r: Seq<u8>|
            0 <= i < tail.len() ==> #[trigger] dec(enc(tail[i]) + r) == Ok::<_, CodecError>(
                (tail[i], r),
            ));
        lemma_decode_items_round_trip(tail, enc, dec, rest);
        assert(seq![vs[0]] + tail =~= vs);
    }
}

/// Extension stability lifts from the item decoder to the list decoder.
pub proof fn lemma_decode_items_ext<V>(
    s: Seq<u8>,
    ext: Seq<u8>,
    n: nat,
    dec: spec_fn(Seq<u8>) -> DecodeResult<V>,
)
    requires
        ext_stable(dec),
    ensures
        match spec_decode_items(s, n, dec) {
            Ok(p) => spec_decode_items(s + ext, n, dec) == Ok::<_, CodecError>((p.0, p.1 + ext)),
            Err(_) => true,
        },
    decreases n,
{
    if n > 0 {
        match dec(s) {
            Ok((v, r)) => {
                assert(dec(s + ext) == Ok::<_, CodecError>((v, r + ext)));
                lemma_decode_items_ext(r, ext, (n - 1) as nat, dec);
            },
            Err(_) => {},
        }
    }
}

pub proof fn lemma_decode_list_ext<V>(
    s: Seq<u8>,
    ext: Seq<u8>,
    dec: spec_fn(Seq<u8>) -> DecodeResult<V>,
)
    requires
        ext_stable(dec),
    ensures
        match spec_decode_list(s, dec) {
            Ok(p) => spec_decode_list(s + ext, dec) == Ok::<_, CodecError>((p.0, p.1 + ext)),
            Err(_) => true,
        },
{
    lemma_decode_u64_ext(s, ext);
    if s.len() >= 8 {
        let n = spec_u64_from_be(s.take(8));
        lemma_decode_items_ext(s.skip(8), ext, n as nat, dec);
    }
}

// ---------------------------------------------------------------------------
// The string item codec, as closure values
// ---------------------------------------------------------------------------
//
// List encoders and decoders take their item codec as a closure.  Naming
// the closures once here keeps every use the same term, so facts proved of
// one use apply to all.

pub open spec fn string_item_enc() -> spec_fn(Seq<u8>) -> Seq<u8> {
    |b: Seq<u8>| spec_encode_run(b)
}

pub open spec fn string_item_dec() -> spec_fn(Seq<u8>) -> DecodeResult<Seq<u8>> {
    |s: Seq<u8>| spec_decode_string(s)
}

pub proof fn lemma_string_item_dec_ext_stable()
    ensures
        ext_stable(string_item_dec()),
{
    let dec = string_item_dec();
    assert forall|s: Seq<u8>, ext: Seq<u8>|
        #![trigger dec(s + ext)]
        match dec(s) {
            Ok(p) => dec(s + ext) == Ok::<_, CodecError>((p.0, p.1 + ext)),
            Err(_) => true,
        } by {
        lemma_decode_string_ext(s, ext);
    }
}

// ---------------------------------------------------------------------------
// Executable writers
// ---------------------------------------------------------------------------

pub fn write_u64_be(x: u64, out: &mut Vec<u8>)
    ensures
        final(out)@ == old(out)@ + spec_u64_be(x),
{
    proof {
        assert({
            &&& (x >> 56) & 0xff < 256
            &&& (x >> 48) & 0xff < 256
            &&& (x >> 40) & 0xff < 256
            &&& (x >> 32) & 0xff < 256
            &&& (x >> 24) & 0xff < 256
            &&& (x >> 16) & 0xff < 256
            &&& (x >> 8) & 0xff < 256
            &&& x & 0xff < 256
        }) by (bit_vector);
    }
    out.push(((x >> 56) & 0xff) as u8);
    out.push(((x >> 48) & 0xff) as u8);
    out.push(((x >> 40) & 0xff) as u8);
    out.push(((x >> 32) & 0xff) as u8);
    out.push(((x >> 24) & 0xff) as u8);
    out.push(((x >> 16) & 0xff) as u8);
    out.push(((x >> 8) & 0xff) as u8);
    out.push((x & 0xff) as u8);
    proof {
        assert(out@ =~= old(out)@ + spec_u64_be(x));
    }
}

pub fn write_u128_be(x: u128, out: &mut Vec<u8>)
    ensures
        final(out)@ == old(out)@ + spec_u128_be(x),
{
    proof {
        assert({
            &&& (x >> 120) & 0xff < 256
            &&& (x >> 112) & 0xff < 256
            &&& (x >> 104) & 0xff < 256
            &&& (x >> 96) & 0xff < 256
            &&& (x >> 88) & 0xff < 256
            &&& (x >> 80) & 0xff < 256
            &&& (x >> 72) & 0xff < 256
            &&& (x >> 64) & 0xff < 256
            &&& (x >> 56) & 0xff < 256
            &&& (x >> 48) & 0xff < 256
            &&& (x >> 40) & 0xff < 256
            &&& (x >> 32) & 0xff < 256
            &&& (x >> 24) & 0xff < 256
            &&& (x >> 16) & 0xff < 256
            &&& (x >> 8) & 0xff < 256
            &&& x & 0xff < 256
        }) by (bit_vector);
    }
    out.push(((x >> 120) & 0xff) as u8);
    out.push(((x >> 112) & 0xff) as u8);
    out.push(((x >> 104) & 0xff) as u8);
    out.push(((x >> 96) & 0xff) as u8);
    out.push(((x >> 88) & 0xff) as u8);
    out.push(((x >> 80) & 0xff) as u8);
    out.push(((x >> 72) & 0xff) as u8);
    out.push(((x >> 64) & 0xff) as u8);
    out.push(((x >> 56) & 0xff) as u8);
    out.push(((x >> 48) & 0xff) as u8);
    out.push(((x >> 40) & 0xff) as u8);
    out.push(((x >> 32) & 0xff) as u8);
    out.push(((x >> 24) & 0xff) as u8);
    out.push(((x >> 16) & 0xff) as u8);
    out.push(((x >> 8) & 0xff) as u8);
    out.push((x & 0xff) as u8);
    proof {
        assert(out@ =~= old(out)@ + spec_u128_be(x));
    }
}

pub fn write_run(b: &[u8], out: &mut Vec<u8>)
    ensures
        final(out)@ == old(out)@ + spec_encode_run(b@),
{
    let n: usize = b.len();
    write_u64_be(n as u64, out);
    out.extend_from_slice(b);
    proof {
        assert(out@ =~= old(out)@ + spec_encode_run(b@));
    }
}

pub fn write_string(s: &str, out: &mut Vec<u8>)
    ensures
        final(out)@ == old(out)@ + spec_encode_run(vstd::utf8::encode_utf8(s@)),
{
    write_run(s.as_bytes(), out);
}

// ---------------------------------------------------------------------------
// Executable readers
// ---------------------------------------------------------------------------

pub fn read_byte(bytes: &[u8], pos: usize) -> (r: Result<(u8, usize), CodecError>)
    requires
        pos <= bytes@.len(),
    ensures
        (match r {
            Ok(p) => pos < p.1 <= bytes@.len() && spec_decode_byte(bytes@.skip(pos as int))
                == Ok::<_, CodecError>((p.0, bytes@.skip(p.1 as int))),
            Err(e) => spec_decode_byte(bytes@.skip(pos as int)) == Err::<(u8, Seq<u8>), _>(e),
        }),
{
    if pos >= bytes.len() {
        return Err(CodecError::TruncatedInput);
    }
    let b = bytes[pos];
    proof {
        assert(bytes@.skip(pos as int)[0] == bytes@[pos as int]);
        assert(bytes@.skip(pos as int).drop_first() =~= bytes@.skip(pos as int + 1));
    }
    Ok((b, pos + 1))
}

pub fn read_u64_be(bytes: &[u8], pos: usize) -> (r: Result<(u64, usize), CodecError>)
    requires
        pos <= bytes@.len(),
    ensures
        (match r {
            Ok(p) => pos < p.1 <= bytes@.len() && spec_decode_u64(bytes@.skip(pos as int))
                == Ok::<_, CodecError>((p.0, bytes@.skip(p.1 as int))),
            Err(e) => spec_decode_u64(bytes@.skip(pos as int)) == Err::<(u64, Seq<u8>), _>(e),
        }),
{
    if bytes.len() - pos < 8 {
        return Err(CodecError::TruncatedInput);
    }
    let x = (bytes[pos] as u64) << 56 | (bytes[pos + 1] as u64) << 48 | (bytes[pos + 2] as u64)
        << 40 | (bytes[pos + 3] as u64) << 32 | (bytes[pos + 4] as u64) << 24 | (bytes[pos
        + 5] as u64) << 16 | (bytes[pos + 6] as u64) << 8 | (bytes[pos + 7] as u64);
    proof {
        let s = bytes@.skip(pos as int);
        assert(s.take(8) =~= bytes@.subrange(pos as int, pos as int + 8));
        assert forall|i: int| 0 <= i < 8 implies s.take(8)[i] == bytes@[pos as int + i] by {}
        assert(s.skip(8) =~= bytes@.skip(pos as int + 8));
    }
    Ok((x, pos + 8))
}

pub fn read_u128_be(bytes: &[u8], pos: usize) -> (r: Option<(u128, usize)>)
    requires
        pos <= bytes@.len(),
    ensures
        (match r {
            Some(p) => pos + 16 <= bytes@.len() && p.1 == pos + 16 && p.0 == spec_u128_from_be(
                bytes@.skip(pos as int).take(16),
            ),
            None => bytes@.len() - pos < 16,
        }),
{
    if bytes.len() - pos < 16 {
        return None;
    }
    let x = (bytes[pos] as u128) << 120 | (bytes[pos + 1] as u128) << 112 | (bytes[pos
        + 2] as u128) << 104 | (bytes[pos + 3] as u128) << 96 | (bytes[pos + 4] as u128) << 88 | (
    bytes[pos + 5] as u128) << 80 | (bytes[pos + 6] as u128) << 72 | (bytes[pos + 7] as u128)
        << 64 | (bytes[pos + 8] as u128) << 56 | (bytes[pos + 9] as u128) << 48 | (bytes[pos
        + 10] as u128) << 40 | (bytes[pos + 11] as u128) << 32 | (bytes[pos + 12] as u128) << 24 | (
    bytes[pos + 13] as u128) << 16 | (bytes[pos + 14] as u128) << 8 | (bytes[pos + 15] as u128);
    proof {
        let s = bytes@.skip(pos as int);
        assert forall|i: int| 0 <= i < 16 implies s.take(16)[i] == bytes@[pos as int + i] by {}
    }
    Some((x, pos + 16))
}

pub fn read_run(bytes: &[u8], pos: usize) -> (r: Result<(Vec<u8>, usize), CodecError>)
    requires
        pos <= bytes@.len(),
    ensures
        (match r {
            Ok(p) => pos < p.1 <= bytes@.len() && spec_decode_run(bytes@.skip(pos as int))
                == Ok::<_, CodecError>((p.0@, bytes@.skip(p.1 as int))),
            Err(e) => spec_decode_run(bytes@.skip(pos as int)) == Err::<(Seq<u8>, Seq<u8>), _>(e),
        }),
{
    let (n, p1) = match read_u64_be(bytes, pos) {
        Ok(p) => p,
        Err(e) => {
            return Err(e);
        },
    };
    if n > (bytes.len() - p1) as u64 {
        proof {
            assert(bytes@.skip(p1 as int).len() < n);
        }
        return Err(CodecError::TruncatedInput);
    }
    let count: usize = n as usize;
    let blen: usize = bytes.len();
    let mut v: Vec<u8> = Vec::new();
    let mut i: usize = 0;
    while i < count
        invariant
            pos <= p1,
            p1 + count <= blen == bytes@.len(),
            i <= count,
            v@ =~= bytes@.subrange(p1 as int, p1 as int + i as int),
        decreases count - i,
    {
        v.push(bytes[p1 + i]);
        i += 1;
    }
    proof {
        let s = bytes@.skip(p1 as int);
        assert(s.len() >= n);
        assert(s.take(n as int) =~= bytes@.subrange(p1 as int, p1 as int + n as int));
        assert(s.skip(n as int) =~= bytes@.skip(p1 as int + n as int));
    }
    Ok((v, p1 + count))
}

pub fn read_fixed(bytes: &[u8], pos: usize, n: usize) -> (r: Result<(Vec<u8>, usize), CodecError>)
    requires
        pos <= bytes@.len(),
    ensures
        (match r {
            Ok(p) => pos <= p.1 <= bytes@.len() && spec_decode_fixed(bytes@.skip(pos as int), n as int)
                == Ok::<_, CodecError>((p.0@, bytes@.skip(p.1 as int))),
            Err(e) => spec_decode_fixed(bytes@.skip(pos as int), n as int) == Err::<
                (Seq<u8>, Seq<u8>),
                _,
            >(e),
        }),
{
    if n > bytes.len() - pos {
        return Err(CodecError::TruncatedInput);
    }
    let blen: usize = bytes.len();
    let mut v: Vec<u8> = Vec::new();
    let mut i: usize = 0;
    while i < n
        invariant
            pos + n <= blen == bytes@.len(),
            i <= n,
            v@ =~= bytes@.subrange(pos as int, pos as int + i as int),
        decreases n - i,
    {
        v.push(bytes[pos + i]);
        i += 1;
    }
    proof {
        let s = bytes@.skip(pos as int);
        assert(s.take(n as int) =~= bytes@.subrange(pos as int, pos as int + n as int));
        assert(s.skip(n as int) =~= bytes@.skip(pos as int + n as int));
    }
    Ok((v, pos + n))
}

/// Relies on `String::from_utf8` from std: it succeeds exactly on valid
/// UTF-8 input and returns the string those bytes spell.
#[verifier::external_body]
fn vec_to_string(v: Vec<u8>) -> (r: Option<String>)
    ensures
        (match r {
            Some(s) => valid_utf8(v@) && s@ == vstd::utf8::decode_utf8(v@),
            None => !valid_utf8(v@),
        }),
{
    match String::from_utf8(v) {
        Ok(s) => Some(s),
        Err(_) => None,
    }
}

pub fn read_string(bytes: &[u8], pos: usize) -> (r: Result<(String, usize), CodecError>)
    requires
        pos <= bytes@.len(),
    ensures
        (match r {
            Ok(p) => pos < p.1 <= bytes@.len() && spec_decode_string(bytes@.skip(pos as int))
                == Ok::<_, CodecError>(
                (vstd::utf8::encode_utf8(p.0@), bytes@.skip(p.1 as int)),
            ),
            Err(e) => spec_decode_string(bytes@.skip(pos as int)) == Err::<
                (Seq<u8>, Seq<u8>),
                _,
            >(e),
        }),
{
    let (v, p1) = match read_run(bytes, pos) {
        Ok(p) => p,
        Err(e) => {
            return Err(e);
        },
    };
    let ghost b = v@;
    match vec_to_string(v) {
        Some(s) => {
            proof {
                vstd::utf8::decode_utf8_encode_utf8(b);
            }
            Ok((s, p1))
        },
        None => Err(CodecError::InvalidStringEncoding),
    }
}

/// The number of bytes of the UTF-8 encoding of `s`.
pub fn str_utf8_len(s: &str) -> (n: usize)
    ensures
        n == vstd::utf8::encode_utf8(s@).len(),
{
    s.as_bytes().len()
}

} // verus!
