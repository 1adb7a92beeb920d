//! Entry points and their codecs.
//!
//! An entry point is a selector-addressed callable location in a contract's
//! bytecode.  The older form carries a 32-byte selector and an offset; the
//! newer form adds the ordered list of builtin names that entry point
//! requires.  The offset is written as a fixed 8-byte big-endian integer,
//! so the encoding does not depend on the machine's word width.

use vstd::prelude::*;
use vstd::utf8::encode_utf8;
use vstd::utf8::valid_utf8;
use crate::codec::spec_decode_byte;
use crate::codec::spec_decode_fixed;
use crate::codec::spec_decode_list;
use crate::codec::spec_decode_u64;
use crate::codec::spec_encode_list;
use crate::codec::spec_encode_run;
use crate::codec::spec_u64_be;
use crate::codec::string_item_dec;
use crate::codec::string_item_enc;
use crate::codec::DecodeResult;
use crate::codec::lemma_decode_byte_ext;
use crate::codec::lemma_decode_fixed_round_trip;
use crate::codec::lemma_decode_fixed_ext;
use crate::codec::lemma_decode_items_round_trip;
use crate::codec::lemma_decode_list_ext;
use crate::codec::lemma_decode_string_round_trip;
use crate::codec::lemma_decode_u64_round_trip;
use crate::codec::lemma_decode_u64_ext;
use crate::codec::lemma_string_item_dec_ext_stable;
use crate::codec::read_fixed;
use crate::codec::read_string;
use crate::codec::read_u64_be;
use crate::codec::str_utf8_len;
use crate::codec::write_string;
use crate::codec::write_u64_be;
use crate::errors::CodecError;

verus! {

/// The three kinds of entry point a contract class can expose.  On the
/// wire each kind is one reserved discriminant byte.
#[derive(Clone, Copy, Debug, PartialEq, Eq, PartialOrd, Ord, Hash, Structural)]
pub enum EntryPointTypeWrapper {
    /// A constructor entry point.
    Constructor,
    /// An external entry point.
    External,
    /// An L1 handler entry point.
    L1Handler,
}

impl EntryPointTypeWrapper {
    /// The reserved discriminant byte of this kind.
    pub open spec fn tag(self) -> u8 {
        match self {
            EntryPointTypeWrapper::Constructor => 0,
            EntryPointTypeWrapper::External => 1,
            EntryPointTypeWrapper::L1Handler => 2,
        }
    }

    /// The kind as a map key: its discriminant byte, alone.
    pub open spec fn key(self) -> Seq<u8> {
        seq![self.tag()]
    }

    pub fn tag_byte(&self) -> (t: u8)
        ensures
            t == self.tag(),
    {
        match self {
            EntryPointTypeWrapper::Constructor => 0,
            EntryPointTypeWrapper::External => 1,
            EntryPointTypeWrapper::L1Handler => 2,
        }
    }
}

/// When no kind is given elsewhere in the system, an entry point is
/// external.
impl Default for EntryPointTypeWrapper {
    fn default() -> (r: Self)
        ensures
            r == EntryPointTypeWrapper::External,
    {
        EntryPointTypeWrapper::External
    }
}

pub open spec fn spec_encode_ep_type(t: EntryPointTypeWrapper) -> Seq<u8> {
    seq![t.tag()]
}

/// The discriminant byte, validated: any byte other than the three
/// reserved values is rejected.
pub open spec fn spec_decode_ep_type(s: Seq<u8>) -> DecodeResult<EntryPointTypeWrapper> {
    match spec_decode_byte(s) {
        Ok((b, r)) => if b == 0 {
            Ok((EntryPointTypeWrapper::Constructor, r))
        } else if b == 1 {
            Ok((EntryPointTypeWrapper::External, r))
        } else if b == 2 {
            Ok((EntryPointTypeWrapper::L1Handler, r))
        } else {
            Err(CodecError::UnrecognizedDiscriminant)
        },
        Err(e) => Err(e),
    }
}

pub proof fn lemma_decode_ep_type_ext(s: Seq<u8>, ext: Seq<u8>)
    ensures
        match spec_decode_ep_type(s) {
            Ok(p) => spec_decode_ep_type(s + ext) == Ok::<_, CodecError>((p.0, p.1 + ext)),
            Err(_) => true,
        },
{
    lemma_decode_byte_ext(s, ext);
}

impl EntryPointTypeWrapper {
    pub fn encode_to(&self, dest: &mut Vec<u8>)
        ensures
            final(dest)@ == old(dest)@ + spec_encode_ep_type(*self),
    {
        let t = self.tag_byte();
        dest.push(t);
        proof {
            assert(dest@ =~= old(dest)@ + spec_encode_ep_type(*self));
        }
    }

    pub fn decode_from(bytes: &[u8], pos: usize) -> (r: Result<(Self, usize), CodecError>)
        requires
            pos <= bytes@.len(),
        ensures
            (match r {
                Ok(p) => pos <= p.1 <= bytes@.len() && spec_decode_ep_type(
                    bytes@.skip(pos as int),
                ) == Ok::<_, CodecError>((p.0, bytes@.skip(p.1 as int))),
                Err(e) => spec_decode_ep_type(bytes@.skip(pos as int)) == Err::<
                    (EntryPointTypeWrapper, Seq<u8>),
                    _,
                >(e),
            }),
    {
        let (b, p1) = match crate::codec::read_byte(bytes, pos) {
            Ok(p) => p,
            Err(e) => {
                return Err(e);
            },
        };
        if b == 0 {
            Ok((EntryPointTypeWrapper::Constructor, p1))
        } else if b == 1 {
            Ok((EntryPointTypeWrapper::External, p1))
        } else if b == 2 {
            Ok((EntryPointTypeWrapper::L1Handler, p1))
        } else {
            Err(CodecError::UnrecognizedDiscriminant)
        }
    }
}

// ---------------------------------------------------------------------------
// Entry points, older form
// ---------------------------------------------------------------------------

/// The mathematical content of an older-form entry point.
pub struct EntryPointV0Model {
    /// The 32 bytes of the selector field element.
    pub selector: Seq<u8>,
    /// Byte offset of the entry point within the program.
    pub offset: u64,
}

/// A selector is exactly 32 bytes.
pub open spec fn ep_v0_wf(m: EntryPointV0Model) -> bool {
    m.selector.len() == 32
}

/// An older-form entry point: a 32-byte selector and an offset.
#[derive(Clone, Debug, PartialEq, Eq, PartialOrd, Ord)]
pub struct EntryPointV0Wrapper {
    selector: Vec<u8>,
    offset: u64,
}

impl View for EntryPointV0Wrapper {
    type V = EntryPointV0Model;

    closed spec fn view(&self) -> EntryPointV0Model {
        EntryPointV0Model { selector: self.selector@, offset: self.offset }
    }
}

impl DeepView for EntryPointV0Wrapper {
    type V = EntryPointV0Model;

    open spec fn deep_view(&self) -> EntryPointV0Model {
        self.view()
    }
}

/// The selector bytes, then the offset as 8 bytes big-endian.
pub open spec fn spec_encode_ep_v0(m: EntryPointV0Model) -> Seq<u8> {
    m.selector + spec_u64_be(m.offset)
}

pub open spec fn spec_decode_ep_v0(s: Seq<u8>) -> DecodeResult<EntryPointV0Model> {
    match spec_decode_fixed(s, 32) {
        Ok((sel, r)) => match spec_decode_u64(r) {
            Ok((off, r2)) => Ok((EntryPointV0Model { selector: sel, offset: off }, r2)),
            Err(e) => Err(e),
        },
        Err(e) => Err(e),
    }
}

pub proof fn lemma_decode_ep_v0_round_trip(m: EntryPointV0Model, rest: Seq<u8>)
    requires
        ep_v0_wf(m),
    ensures
        spec_decode_ep_v0(spec_encode_ep_v0(m) + rest) == Ok::<_, CodecError>((m, rest)),
{
    assert(spec_encode_ep_v0(m) + rest =~= m.selector + (spec_u64_be(m.offset) + rest));
    lemma_decode_fixed_round_trip(m.selector, spec_u64_be(m.offset) + rest);
    lemma_decode_u64_round_trip(m.offset, rest);
}

pub proof fn lemma_decode_ep_v0_ext(s: Seq<u8>, ext: Seq<u8>)
    ensures
        match spec_decode_ep_v0(s) {
            Ok(p) => spec_decode_ep_v0(s + ext) == Ok::<_, CodecError>((p.0, p.1 + ext)),
            Err(_) => true,
        },
{
    lemma_decode_fixed_ext(s, ext, 32);
    if s.len() >= 32 {
        lemma_decode_u64_ext(s.skip(32), ext);
    }
}

impl EntryPointV0Wrapper {
    /// Build an entry point from its selector and offset.
    pub fn new(selector: Vec<u8>, offset: u64) -> (r: Self)
        requires
            selector@.len() == 32,
        ensures
            r@ == (EntryPointV0Model { selector: selector@, offset }),
            ep_v0_wf(r@),
    {
        EntryPointV0Wrapper { selector, offset }
    }

    pub fn selector(&self) -> (r: &Vec<u8>)
        ensures
            r@ == self@.selector,
    {
        &self.selector
    }

    pub fn offset(&self) -> (r: u64)
        ensures
            r == self@.offset,
    {
        self.offset
    }

    pub fn encode_to(&self, dest: &mut Vec<u8>)
        ensures
            final(dest)@ == old(dest)@ + spec_encode_ep_v0(self@),
    {
        dest.extend_from_slice(self.selector.as_slice());
        write_u64_be(self.offset, dest);
        proof {
            assert(dest@ =~= old(dest)@ + spec_encode_ep_v0(self@));
        }
    }

    pub fn decode_from(bytes: &[u8], pos: usize) -> (r: Result<(Self, usize), CodecError>)
        requires
            pos <= bytes@.len(),
        ensures
            (match r {
                Ok(p) => pos <= p.1 <= bytes@.len() && spec_decode_ep_v0(bytes@.skip(pos as int))
                    == Ok::<_, CodecError>((p.0@, bytes@.skip(p.1 as int))) && ep_v0_wf(p.0@),
                Err(e) => spec_decode_ep_v0(bytes@.skip(pos as int)) == Err::<
                    (EntryPointV0Model, Seq<u8>),
                    _,
                >(e),
            }),
    {
        let (sel, p1) = match read_fixed(bytes, pos, 32) {
            Ok(p) => p,
            Err(e) => {
                return Err(e);
            },
        };
        let (off, p2) = match read_u64_be(bytes, p1) {
            Ok(p) => p,
            Err(e) => {
                return Err(e);
            },
        };
        Ok((EntryPointV0Wrapper { selector: sel, offset: off }, p2))
    }
}

// ---------------------------------------------------------------------------
// Entry points, newer form
// ---------------------------------------------------------------------------

/// The mathematical content of a newer-form entry point.  Builtin names
/// are carried as their UTF-8 encodings.
pub struct EntryPointV1Model {
    /// The 32 bytes of the selector field element.
    pub selector: Seq<u8>,
    /// Byte offset of the entry point within the program.
    pub offset: u64,
    /// The required builtin names, in order.
    pub builtins: Seq<Seq<u8>>,
}

/// The selector is 32 bytes and every builtin name is a valid UTF-8
/// string short enough for its length prefix.
pub open spec fn ep_v1_wf(m: EntryPointV1Model) -> bool {
    &&& m.selector.len() == 32
    &&& m.builtins.len() < 0x1_0000_0000_0000_0000
    &&& forall|i: int|
        0 <= i < m.builtins.len() ==> (#[trigger] m.builtins[i]).len() < 0x1_0000_0000_0000_0000
            && valid_utf8(m.builtins[i])
}

/// A newer-form entry point: selector, offset, and required builtins.
#[derive(Clone, Debug, PartialEq, Eq)]
pub struct EntryPointV1Wrapper {
    selector: Vec<u8>,
    offset: u64,
    builtins: Vec<String>,
}

/// The builtin names a `Vec<String>` stands for: each name's UTF-8 bytes.
pub open spec fn builtins_view(b: Seq<String>) -> Seq<Seq<u8>> {
    b.map_values(|s: String| encode_utf8(s@))
}

impl View for EntryPointV1Wrapper {
    type V = EntryPointV1Model;

    closed spec fn view(&self) -> EntryPointV1Model {
        EntryPointV1Model {
            selector: self.selector@,
            offset: self.offset,
            builtins: builtins_view(self.builtins@),
        }
    }
}

impl DeepView for EntryPointV1Wrapper {
    type V = EntryPointV1Model;

    open spec fn deep_view(&self) -> EntryPointV1Model {
        self.view()
    }
}

/// As the older form, then the builtin names as a list of strings.
pub open spec fn spec_encode_ep_v1(m: EntryPointV1Model) -> Seq<u8> {
    m.selector + spec_u64_be(m.offset) + spec_encode_list(m.builtins, string_item_enc())
}

pub open spec fn spec_decode_ep_v1(s: Seq<u8>) -> DecodeResult<EntryPointV1Model> {
    match spec_decode_fixed(s, 32) {
        Ok((sel, r)) => match spec_decode_u64(r) {
            Ok((off, r2)) => match spec_decode_list(r2, string_item_dec()) {
                Ok((bs, r3)) => Ok(
                    (EntryPointV1Model { selector: sel, offset: off, builtins: bs }, r3),
                ),
                Err(e) => Err(e),
            },
            Err(e) => Err(e),
        },
        Err(e) => Err(e),
    }
}

pub proof fn lemma_decode_ep_v1_round_trip(m: EntryPointV1Model, rest: Seq<u8>)
    requires
        ep_v1_wf(m),
    ensures
        spec_decode_ep_v1(spec_encode_ep_v1(m) + rest) == Ok::<_, CodecError>((m, rest)),
{
    let list = spec_encode_list(m.builtins, string_item_enc());
    assert(spec_encode_ep_v1(m) + rest =~= m.selector + (spec_u64_be(m.offset) + (list + rest)));
    lemma_decode_fixed_round_trip(m.selector, spec_u64_be(m.offset) + (list + rest));
    lemma_decode_u64_round_trip(m.offset, list + rest);
    let items = crate::codec::spec_encode_items(m.builtins, string_item_enc());
    assert(list + rest =~= spec_u64_be(m.builtins.len() as u64) + (items + rest));
    lemma_decode_u64_round_trip(m.builtins.len() as u64, items + rest);
    assert forall|i: int, r: Seq<u8>| 0 <= i < m.builtins.len() implies #[trigger] string_item_dec()(
        string_item_enc()(m.builtins[i]) + r,
    ) == Ok::<_, CodecError>((m.builtins[i], r)) by {
        lemma_decode_string_round_trip(m.builtins[i], r);
    }
    lemma_decode_items_round_trip(m.builtins, string_item_enc(), string_item_dec(), rest);
}

pub proof fn lemma_decode_ep_v1_ext(s: Seq<u8>, ext: Seq<u8>)
    ensures
        match spec_decode_ep_v1(s) {
            Ok(p) => spec_decode_ep_v1(s + ext) == Ok::<_, CodecError>((p.0, p.1 + ext)),
            Err(_) => true,
        },
{
    lemma_decode_fixed_ext(s, ext, 32);
    if s.len() >= 32 {
        let r = s.skip(32);
        lemma_decode_u64_ext(r, ext);
        if r.len() >= 8 {
            lemma_string_item_dec_ext_stable();
            lemma_decode_list_ext(r.skip(8), ext, string_item_dec());
        }
    }
}

impl EntryPointV1Wrapper {
    /// Build an entry point from its selector, offset and builtin names.
    pub fn new(selector: Vec<u8>, offset: u64, builtins: Vec<String>) -> (r: Self)
        requires
            selector@.len() == 32,
        ensures
            r@ == (EntryPointV1Model {
                selector: selector@,
                offset,
                builtins: builtins_view(builtins@),
            }),
            ep_v1_wf(r@),
    {
        // walk the names once so their byte lengths, and so the
        // well-formedness of the result, are in evidence
        let mut i: usize = 0;
        while i < builtins.len()
            invariant
                i <= builtins@.len(),
                forall|j: int|
                    0 <= j < i ==> (#[trigger] encode_utf8(builtins@[j]@)).len()
                        < 0x1_0000_0000_0000_0000,
            decreases builtins@.len() - i,
        {
            let n = str_utf8_len(builtins[i].as_str());
            proof {
                assert(encode_utf8(builtins@[i as int]@).len() == n as nat);
            }
            i += 1;
        }
        proof {
            assert forall|i2: int| 0 <= i2 < builtins@.len() implies valid_utf8(
                #[trigger] builtins_view(builtins@)[i2],
            ) by {
                vstd::utf8::encode_utf8_valid_utf8(builtins@[i2]@);
            }
        }
        EntryPointV1Wrapper { selector, offset, builtins }
    }

    pub fn selector(&self) -> (r: &Vec<u8>)
        ensures
            r@ == self@.selector,
    {
        &self.selector
    }

    pub fn offset(&self) -> (r: u64)
        ensures
            r == self@.offset,
    {
        self.offset
    }

    pub fn builtins(&self) -> (r: &Vec<String>)
        ensures
            builtins_view(r@) == self@.builtins,
    {
        &self.builtins
    }

    #[verifier::loop_isolation(false)]
    pub fn encode_to(&self, dest: &mut Vec<u8>)
        ensures
            final(dest)@ == old(dest)@ + spec_encode_ep_v1(self@),
    {
        dest.extend_from_slice(self.selector.as_slice());
        write_u64_be(self.offset, dest);
        let count: usize = self.builtins.len();
        write_u64_be(count as u64, dest);
        let ghost items = self@.builtins;
        let mut i: usize = 0;
        while i < count
            invariant
                count == self.builtins@.len(),
                items == self@.builtins,
                i <= count,
                dest@ == old(dest)@ + self@.selector + spec_u64_be(self@.offset) + spec_u64_be(
                    count as u64,
                ) + crate::codec::spec_encode_items(items.take(i as int), string_item_enc()),
            decreases count - i,
        {
            write_string(self.builtins[i].as_str(), dest);
            proof {
                assert(items[i as int] == encode_utf8(self.builtins@[i as int]@));
                crate::codec::lemma_encode_items_snoc(items, i as int, string_item_enc());
                assert(string_item_enc()(items[i as int]) == spec_encode_run(items[i as int]));
                assert(dest@ =~= old(dest)@ + self@.selector + spec_u64_be(self@.offset)
                    + spec_u64_be(count as u64) + crate::codec::spec_encode_items(
                    items.take(i as int + 1),
                    string_item_enc(),
                ));
            }
            i += 1;
        }
        proof {
            assert(items.take(count as int) =~= items);
            assert(dest@ =~= old(dest)@ + spec_encode_ep_v1(self@));
        }
    }

    #[verifier::loop_isolation(false)]
    pub fn decode_from(bytes: &[u8], pos: usize) -> (r: Result<(Self, usize), CodecError>)
        requires
            pos <= bytes@.len(),
        ensures
            (match r {
                Ok(p) => pos <= p.1 <= bytes@.len() && spec_decode_ep_v1(bytes@.skip(pos as int))
                    == Ok::<_, CodecError>((p.0@, bytes@.skip(p.1 as int))) && ep_v1_wf(p.0@),
                Err(e) => spec_decode_ep_v1(bytes@.skip(pos as int)) == Err::<
                    (EntryPointV1Model, Seq<u8>),
                    _,
                >(e),
            }),
    {
        let (sel, p1) = match read_fixed(bytes, pos, 32) {
            Ok(p) => p,
            Err(e) => {
                return Err(e);
            },
        };
        let (off, p2) = match read_u64_be(bytes, p1) {
            Ok(p) => p,
            Err(e) => {
                return Err(e);
            },
        };
        let (count, p3) = match read_u64_be(bytes, p2) {
            Ok(p) => p,
            Err(e) => {
                return Err(e);
            },
        };
        let ghost dec = string_item_dec();
        let ghost whole = crate::codec::spec_decode_items(
            bytes@.skip(p3 as int),
            count as nat,
            dec,
        );
        let mut builtins: Vec<String> = Vec::new();
        let mut p: usize = p3;
        let mut i: u64 = 0;
        proof {
            match crate::codec::spec_decode_items(bytes@.skip(p3 as int), count as nat, dec) {
                Ok(q) => {
                    assert(builtins_view(builtins@) + q.0 =~= q.0);
                    assert(builtins_view(builtins@) =~= Seq::<Seq<u8>>::empty());
                },
                Err(_) => {},
            }
        }
        while i < count
            invariant
                pos <= p <= bytes@.len(),
                i <= count,
                dec == string_item_dec(),
                whole == (match crate::codec::spec_decode_items(
                    bytes@.skip(p as int),
                    (count - i) as nat,
                    dec,
                ) {
                    Ok(q) => Ok::<_, CodecError>((builtins_view(builtins@) + q.0, q.1)),
                    Err(e) => Err(e),
                }),
                builtins_view(builtins@).len() == i,
                forall|j: int|
                    0 <= j < i ==> (#[trigger] builtins_view(builtins@)[j]).len()
                        < 0x1_0000_0000_0000_0000 && valid_utf8(builtins_view(builtins@)[j]),
            decreases count - i,
        {
            let ghost before = builtins_view(builtins@);
            let (b, p_next) = match read_string(bytes, p) {
                Ok(q) => q,
                Err(e) => {
                    return Err(e);
                },
            };
            proof {
                let run = encode_utf8(b@);
                vstd::utf8::encode_utf8_valid_utf8(b@);
                assert(builtins_view(builtins@.push(b)) =~= before.push(run));
                match crate::codec::spec_decode_items(
                    bytes@.skip(p_next as int),
                    (count - i - 1) as nat,
                    dec,
                ) {
                    Ok(q) => {
                        assert(before + (seq![run] + q.0) =~= before.push(run) + q.0);
                    },
                    Err(_) => {},
                }
            }
            builtins.push(b);
            p = p_next;
            i += 1;
        }
        proof {
            assert(crate::codec::spec_decode_items(bytes@.skip(p as int), 0, dec)
                == Ok::<_, CodecError>((Seq::<Seq<u8>>::empty(), bytes@.skip(p as int))));
            assert(builtins_view(builtins@) + Seq::<Seq<u8>>::empty() =~= builtins_view(
                builtins@,
            ));
            assert(bytes@.skip(p2 as int).skip(8) == bytes@.skip(p3 as int));
        }
        Ok((EntryPointV1Wrapper { selector: sel, offset: off, builtins }, p))
    }
}

// ---------------------------------------------------------------------------
// Entry-point maps are keyed by the kind's discriminant byte
// ---------------------------------------------------------------------------

/// One-byte keys order as their bytes do.
pub proof fn lemma_byte_key_lt(a: u8, b: u8)
    ensures
        crate::order::bytes_lt(seq![a], seq![b]) == (a < b),
{
    assert(seq![a][0] == a);
    assert(seq![b][0] == b);
    if a == b {
        assert(seq![a].drop_first() =~= Seq::<u8>::empty());
        assert(seq![b].drop_first() =~= Seq::<u8>::empty());
        assert(!crate::order::bytes_lt(Seq::<u8>::empty(), Seq::<u8>::empty()));
    }
}

/// The association sequence a vector of kind-keyed pairs stands for: each
/// kind as its one-byte key, each value as its deep view.
pub open spec fn tag_pairs_view<V: DeepView>(s: Seq<(EntryPointTypeWrapper, V)>) -> Seq<
    (Seq<u8>, V::V),
> {
    s.map_values(|p: (EntryPointTypeWrapper, V)| (p.0.key(), p.1.deep_view()))
}

/// Insert a pair into a vector kept in strictly ascending key order,
/// replacing the value when the kind is already present.
#[verifier::loop_isolation(false)]
pub fn insert_tag_pair<V: DeepView>(
    entries: &mut Vec<(EntryPointTypeWrapper, V)>,
    key: EntryPointTypeWrapper,
    value: V,
)
    requires
        crate::order::assoc_sorted(tag_pairs_view(old(entries)@)),
    ensures
        tag_pairs_view(final(entries)@) == crate::order::assoc_insert(
            tag_pairs_view(old(entries)@),
            key.key(),
            value.deep_view(),
        ),
        crate::order::assoc_sorted(tag_pairs_view(final(entries)@)),
{
    let ghost s0 = tag_pairs_view(entries@);
    let ghost kb = key.key();
    let ghost vv = value.deep_view();
    proof {
        crate::order::lemma_assoc_insert_sorted(s0, kb, vv);
    }
    let kt = key.tag_byte();
    let mut idx: usize = 0;
    while idx < entries.len() && entries[idx].0.tag_byte() < kt
        invariant
            idx <= entries@.len(),
            entries@ == old(entries)@,
            forall|j: int| #![trigger s0[j]] 0 <= j < idx ==> crate::order::bytes_lt(s0[j].0, kb),
        decreases entries@.len() - idx,
    {
        proof {
            assert(s0[idx as int] == (entries@[idx as int].0.key(),
            entries@[idx as int].1.deep_view()));
            lemma_byte_key_lt(entries@[idx as int].0.tag(), key.tag());
        }
        idx += 1;
    }
    proof {
        crate::order::lemma_assoc_insert_skip(s0, kb, vv, idx as int);
    }
    if idx < entries.len() && entries[idx].0.tag_byte() == kt {
        proof {
            assert(s0.skip(idx as int)[0] == s0[idx as int]);
            assert(s0[idx as int] == (entries@[idx as int].0.key(),
            entries@[idx as int].1.deep_view()));
            assert(entries@[idx as int].0.key() =~= kb);
            crate::order::lemma_bytes_lt_irrefl(kb);
            assert(crate::order::assoc_insert(s0.skip(idx as int), kb, vv) == seq![(kb, vv)]
                + s0.skip(idx as int).drop_first());
        }
        entries.remove(idx);
        entries.insert(idx, (key, value));
        proof {
            assert(tag_pairs_view(entries@) =~= s0.take(idx as int) + (seq![(kb, vv)] + s0.skip(
                idx as int,
            ).drop_first()));
        }
    } else {
        proof {
            if idx < s0.len() {
                assert(s0.skip(idx as int)[0] == s0[idx as int]);
                assert(s0[idx as int] == (entries@[idx as int].0.key(),
                entries@[idx as int].1.deep_view()));
                lemma_byte_key_lt(entries@[idx as int].0.tag(), key.tag());
                lemma_byte_key_lt(key.tag(), entries@[idx as int].0.tag());
                assert(crate::order::bytes_lt(kb, s0[idx as int].0));
                assert(crate::order::assoc_insert(s0.skip(idx as int), kb, vv) == seq![(kb, vv)]
                    + s0.skip(idx as int));
            } else {
                assert(s0.skip(idx as int) =~= Seq::<(Seq<u8>, V::V)>::empty());
                assert(crate::order::assoc_insert(s0.skip(idx as int), kb, vv) == seq![(kb, vv)]);
                assert(seq![(kb, vv)] =~= seq![(kb, vv)] + s0.skip(idx as int));
            }
        }
        entries.insert(idx, (key, value));
        proof {
            assert(tag_pairs_view(entries@) =~= s0.take(idx as int) + (seq![(kb, vv)] + s0.skip(
                idx as int,
            )));
        }
    }
}

} // verus!
