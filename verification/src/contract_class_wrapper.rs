//! Contract classes: the entry-point maps, the hints map, and the
//! top-level class codec.
//!
//! A contract class is a tagged union over two representations: the older
//! one is a program and its entry points; the newer one adds a map from
//! hint identifiers to opaque hint records.  On the wire a class is a
//! one-byte version discriminant followed by the program frame, the
//! entry-point map and, for the newer version, the hints map.  Every map
//! is emitted in sorted key order, so equal logical classes encode to
//! identical bytes; every encoded class must stay under a hard size
//! ceiling that the storage layer relies on.

use vstd::prelude::*;
use vstd::utf8::encode_utf8;
use vstd::utf8::valid_utf8;
use crate::codec::spec_decode_list;
use crate::codec::spec_decode_run;
use crate::codec::spec_decode_string;
use crate::codec::spec_encode_items;
use crate::codec::spec_encode_list;
use crate::codec::spec_encode_run;
use crate::codec::spec_u64_be;
use crate::codec::DecodeResult;
use crate::codec::ext_stable;
use crate::codec::lemma_decode_items_round_trip;
use crate::codec::lemma_decode_list_ext;
use crate::codec::lemma_decode_run_round_trip;
use crate::codec::lemma_decode_string_round_trip;
use crate::codec::lemma_decode_u64_round_trip;
use crate::codec::read_run;
use crate::codec::read_string;
use crate::codec::read_u64_be;
use crate::codec::str_utf8_len;
use crate::codec::write_run;
use crate::codec::write_string;
use crate::codec::write_u64_be;
use crate::errors::CodecError;
use crate::entrypoint_wrapper::ep_v0_wf;
use crate::entrypoint_wrapper::ep_v1_wf;
use crate::entrypoint_wrapper::insert_tag_pair;
use crate::entrypoint_wrapper::lemma_decode_ep_type_ext;
use crate::entrypoint_wrapper::lemma_decode_ep_v0_ext;
use crate::entrypoint_wrapper::lemma_decode_ep_v0_round_trip;
use crate::entrypoint_wrapper::lemma_decode_ep_v1_ext;
use crate::entrypoint_wrapper::lemma_decode_ep_v1_round_trip;
use crate::entrypoint_wrapper::spec_decode_ep_type;
use crate::entrypoint_wrapper::spec_decode_ep_v0;
use crate::entrypoint_wrapper::spec_decode_ep_v1;
use crate::entrypoint_wrapper::spec_encode_ep_type;
use crate::entrypoint_wrapper::spec_encode_ep_v0;
use crate::entrypoint_wrapper::spec_encode_ep_v1;
use crate::entrypoint_wrapper::tag_pairs_view;
use crate::entrypoint_wrapper::EntryPointTypeWrapper;
use crate::entrypoint_wrapper::EntryPointV0Model;
use crate::entrypoint_wrapper::EntryPointV0Wrapper;
use crate::entrypoint_wrapper::EntryPointV1Model;
use crate::entrypoint_wrapper::EntryPointV1Wrapper;
use crate::order::assoc_canon;
use crate::order::assoc_insert;
use crate::order::assoc_map;
use crate::order::assoc_sorted;
use crate::order::insert_string_pair;
use crate::order::lemma_assoc_canon_sorted_id;
use crate::order::lemma_assoc_insert_keys;
use crate::order::lemma_assoc_insert_sorted;
use crate::order::lemma_sorted_same_map_equal;
use crate::order::string_pairs_view;
use crate::program_wrapper::lemma_decode_program_ext;
use crate::program_wrapper::lemma_decode_program_round_trip;
use crate::program_wrapper::program_wf;
use crate::program_wrapper::spec_decode_program;
use crate::program_wrapper::spec_encode_program;
use crate::program_wrapper::ProgramModel;
use crate::program_wrapper::ProgramWrapper;

verus! {

/// The hard ceiling on the size of an encoded contract class, in bytes.
/// The storage layer relies on it for allocation; an encoding that would
/// exceed it is reported, never truncated.
pub const MAX_CONTRACT_BYTE_SIZE: usize = 20971520;

// ---------------------------------------------------------------------------
// Hints
// ---------------------------------------------------------------------------

/// An opaque, VM-defined executable directive, carried as plain bytes.
#[derive(Clone, Debug, PartialEq, Eq)]
pub struct HintWrapper {
    /// The serialized hint record.
    pub code: Vec<u8>,
}

impl View for HintWrapper {
    type V = Seq<u8>;

    open spec fn view(&self) -> Seq<u8> {
        self.code@
    }
}

impl DeepView for HintWrapper {
    type V = Seq<u8>;

    open spec fn deep_view(&self) -> Seq<u8> {
        self.code@
    }
}

/// A hints-map entry: the identifier as a string, then the record as a
/// byte run.
pub open spec fn hint_item_enc() -> spec_fn((Seq<u8>, Seq<u8>)) -> Seq<u8> {
    |p: (Seq<u8>, Seq<u8>)| spec_encode_run(p.0) + spec_encode_run(p.1)
}

pub open spec fn spec_decode_hint_item(s: Seq<u8>) -> DecodeResult<(Seq<u8>, Seq<u8>)> {
    match spec_decode_string(s) {
        Ok((k, r)) => match spec_decode_run(r) {
            Ok((h, r2)) => Ok(((k, h), r2)),
            Err(e) => Err(e),
        },
        Err(e) => Err(e),
    }
}

pub open spec fn hint_item_dec() -> spec_fn(Seq<u8>) -> DecodeResult<(Seq<u8>, Seq<u8>)> {
    |s: Seq<u8>| spec_decode_hint_item(s)
}

pub proof fn lemma_decode_hint_item_round_trip(p: (Seq<u8>, Seq<u8>), rest: Seq<u8>)
    requires
        p.0.len() < 0x1_0000_0000_0000_0000,
        valid_utf8(p.0),
        p.1.len() < 0x1_0000_0000_0000_0000,
    ensures
        spec_decode_hint_item(hint_item_enc()(p) + rest) == Ok::<_, CodecError>((p, rest)),
{
    assert(hint_item_enc()(p) + rest =~= spec_encode_run(p.0) + (spec_encode_run(p.1) + rest));
    lemma_decode_string_round_trip(p.0, spec_encode_run(p.1) + rest);
    lemma_decode_run_round_trip(p.1, rest);
    assert((p.0, p.1) == p);
}

pub proof fn lemma_hint_item_dec_ext_stable()
    ensures
        ext_stable(hint_item_dec()),
{
    let dec = hint_item_dec();
    assert forall|s: Seq<u8>, ext: Seq<u8>|
        #![trigger dec(s + ext)]
        match dec(s) {
            Ok(p) => dec(s + ext) == Ok::<_, CodecError>((p.0, p.1 + ext)),
            Err(_) => true,
        } by {
        crate::codec::lemma_decode_string_ext(s, ext);
        match spec_decode_string(s) {
            Ok((k, r)) => {
                crate::codec::lemma_decode_run_ext(r, ext);
            },
            Err(_) => {},
        }
    }
}

/// The hints map is sorted by identifier and every field fits its length
/// prefix.
pub open spec fn hints_wf(s: Seq<(Seq<u8>, Seq<u8>)>) -> bool {
    &&& assoc_sorted(s)
    &&& s.len() < 0x1_0000_0000_0000_0000
    &&& forall|i: int|
        0 <= i < s.len() ==> (#[trigger] s[i]).0.len() < 0x1_0000_0000_0000_0000 && valid_utf8(
            s[i].0,
        ) && s[i].1.len() < 0x1_0000_0000_0000_0000
}

pub open spec fn spec_encode_hints_map(s: Seq<(Seq<u8>, Seq<u8>)>) -> Seq<u8> {
    spec_encode_list(s, hint_item_enc())
}

/// Decoding rebuilds the map by inserting each pair: a repeated
/// identifier keeps its later record.
pub open spec fn spec_decode_hints_map(s: Seq<u8>) -> DecodeResult<Seq<(Seq<u8>, Seq<u8>)>> {
    match spec_decode_list(s, hint_item_dec()) {
        Ok((ps, r)) => Ok((assoc_canon(ps), r)),
        Err(e) => Err(e),
    }
}

pub proof fn lemma_decode_hints_map_round_trip(s: Seq<(Seq<u8>, Seq<u8>)>, rest: Seq<u8>)
    requires
        hints_wf(s),
    ensures
        spec_decode_hints_map(spec_encode_hints_map(s) + rest) == Ok::<_, CodecError>((s, rest)),
{
    let items = spec_encode_items(s, hint_item_enc());
    assert(spec_encode_hints_map(s) + rest =~= spec_u64_be(s.len() as u64) + (items + rest));
    lemma_decode_u64_round_trip(s.len() as u64, items + rest);
    assert forall|i: int, r: Seq<u8>| 0 <= i < s.len() implies #[trigger] hint_item_dec()(
        hint_item_enc()(s[i]) + r,
    ) == Ok::<_, CodecError>((s[i], r)) by {
        lemma_decode_hint_item_round_trip(s[i], r);
    }
    lemma_decode_items_round_trip(s, hint_item_enc(), hint_item_dec(), rest);
    lemma_assoc_canon_sorted_id(s);
}

pub proof fn lemma_decode_hints_map_ext(s: Seq<u8>, ext: Seq<u8>)
    ensures
        match spec_decode_hints_map(s) {
            Ok(p) => spec_decode_hints_map(s + ext) == Ok::<_, CodecError>((p.0, p.1 + ext)),
            Err(_) => true,
        },
{
    lemma_hint_item_dec_ext_stable();
    lemma_decode_list_ext(s, ext, hint_item_dec());
}

/// A map from hint identifiers to opaque hint records, kept sorted by
/// identifier.
#[derive(Clone, Debug, PartialEq, Eq)]
pub struct HintsMapWrapper {
    entries: Vec<(String, HintWrapper)>,
}

impl View for HintsMapWrapper {
    type V = Seq<(Seq<u8>, Seq<u8>)>;

    closed spec fn view(&self) -> Seq<(Seq<u8>, Seq<u8>)> {
        string_pairs_view(self.entries@)
    }
}

impl HintsMapWrapper {
    /// Build a hints map.  The pairs may arrive in any order and with
    /// repeated identifiers: an identifier keeps its later record.
    #[verifier::loop_isolation(false)]
    pub fn new(pairs: Vec<(String, HintWrapper)>) -> (r: Self)
        ensures
            r@ == assoc_canon(string_pairs_view(pairs@)),
            hints_wf(r@),
    {
        let mut rest = pairs;
        let n0: usize = rest.len();
        let ghost ps = string_pairs_view(rest@);
        let mut sorted: Vec<(String, HintWrapper)> = Vec::new();
        proof {
            assert(string_pairs_view(sorted@) =~= Seq::<(Seq<u8>, Seq<u8>)>::empty());
            assert(assoc_canon(ps.take(0)) =~= Seq::<(Seq<u8>, Seq<u8>)>::empty());
        }
        let mut i: usize = 0;
        while rest.len() > 0
            invariant
                i + rest@.len() == n0,
                ps.len() == n0,
                string_pairs_view(rest@) =~= ps.skip(i as int),
                string_pairs_view(sorted@) == assoc_canon(ps.take(i as int)),
                assoc_sorted(string_pairs_view(sorted@)),
                forall|j: int|
                    0 <= j < sorted@.len() ==> (#[trigger] string_pairs_view(sorted@)[j]).0.len()
                        < 0x1_0000_0000_0000_0000 && valid_utf8(string_pairs_view(sorted@)[j].0)
                        && string_pairs_view(sorted@)[j].1.len() < 0x1_0000_0000_0000_0000,
            decreases rest@.len(),
        {
            let ghost before = string_pairs_view(sorted@);
            let ghost rv = rest@;
            let p = rest.remove(0);
            let ghost kb = encode_utf8(p.0@);
            let ghost hv = p.1.code@;
            let klen = str_utf8_len(p.0.as_str());
            let hlen = p.1.code.len();
            proof {
                vstd::utf8::encode_utf8_valid_utf8(p.0@);
                assert(p == rv[0]);
                assert(string_pairs_view(rv)[0] == (encode_utf8(rv[0].0@), rv[0].1.deep_view()));
                assert(ps.skip(i as int)[0] == ps[i as int]);
                assert(ps[i as int] == (kb, hv));
                lemma_assoc_insert_keys(before, kb, hv);
                lemma_assoc_insert_sorted(before, kb, hv);
                assert(ps.take(i as int + 1).drop_last() =~= ps.take(i as int));
                assert(ps.take(i as int + 1).last() == (kb, hv));
            }
            insert_string_pair(&mut sorted, p.0, p.1);
            proof {
                assert(rest@ == rv.remove(0));
                assert forall|j: int| 0 <= j < rest@.len() implies #[trigger] string_pairs_view(
                    rest@,
                )[j] == ps.skip(i as int + 1)[j] by {
                    assert(rest@[j] == rv[j + 1]);
                    assert(string_pairs_view(rv)[j + 1] == (encode_utf8(rv[j + 1].0@),
                    rv[j + 1].1.deep_view()));
                    assert(ps.skip(i as int)[j + 1] == ps[i as int + 1 + j]);
                }
                assert(string_pairs_view(rest@) =~= ps.skip(i as int + 1));
                assert forall|j: int| 0 <= j < sorted@.len() implies (#[trigger] string_pairs_view(
                    sorted@,
                )[j]).0.len() < 0x1_0000_0000_0000_0000 && valid_utf8(
                    string_pairs_view(sorted@)[j].0,
                ) && string_pairs_view(sorted@)[j].1.len() < 0x1_0000_0000_0000_0000 by {
                    assert(string_pairs_view(sorted@) == assoc_insert(before, kb, hv));
                    let cur = assoc_insert(before, kb, hv)[j];
                    assert(cur == string_pairs_view(sorted@)[j]);
                    if cur == (kb, hv) {
                    } else {
                        let idx = choose|idx: int|
                            0 <= idx < before.len() && before[idx] == assoc_insert(
                                before,
                                kb,
                                hv,
                            )[j];
                        assert(before[idx] == cur);
                    }
                }
            }
            i += 1;
        }
        proof {
            assert(ps.take(i as int) =~= ps);
        }
        let cl = sorted.len();
        proof {
            assert(string_pairs_view(sorted@).len() == cl as nat);
        }
        HintsMapWrapper { entries: sorted }
    }

    /// The entries, in their canonical order.
    pub fn entries(&self) -> (r: &Vec<(String, HintWrapper)>)
        ensures
            string_pairs_view(r@) == self@,
    {
        &self.entries
    }

    #[verifier::loop_isolation(false)]
    pub fn encode_to(&self, dest: &mut Vec<u8>)
        ensures
            final(dest)@ == old(dest)@ + spec_encode_hints_map(self@),
    {
        let count: usize = self.entries.len();
        write_u64_be(count as u64, dest);
        let ghost items = self@;
        let ghost prefix = dest@;
        let mut i: usize = 0;
        while i < count
            invariant
                count == self.entries@.len(),
                i <= count,
                dest@ == prefix + spec_encode_items(items.take(i as int), hint_item_enc()),
            decreases count - i,
        {
            write_string(self.entries[i].0.as_str(), dest);
            write_run(self.entries[i].1.code.as_slice(), dest);
            proof {
                assert(items[i as int] == (encode_utf8(self.entries@[i as int].0@),
                self.entries@[i as int].1.code@));
                crate::codec::lemma_encode_items_snoc(items, i as int, hint_item_enc());
                assert(hint_item_enc()(items[i as int]) == spec_encode_run(items[i as int].0)
                    + spec_encode_run(items[i as int].1));
                assert(dest@ =~= prefix + spec_encode_items(
                    items.take(i as int + 1),
                    hint_item_enc(),
                ));
            }
            i += 1;
        }
        proof {
            assert(items.take(count as int) =~= items);
        }
    }

    #[verifier::loop_isolation(false)]
    #[verifier::rlimit(60)]
    #[verifier::spinoff_prover]
    #[verifier::rlimit(100)]
    pub fn decode_from(bytes: &[u8], pos: usize) -> (r: Result<(Self, usize), CodecError>)
        requires
            pos <= bytes@.len(),
        ensures
            (match r {
                Ok(p) => pos <= p.1 <= bytes@.len() && spec_decode_hints_map(
                    bytes@.skip(pos as int),
                ) == Ok::<_, CodecError>((p.0@, bytes@.skip(p.1 as int))) && hints_wf(p.0@),
                Err(e) => spec_decode_hints_map(bytes@.skip(pos as int)) == Err::<
                    (Seq<(Seq<u8>, Seq<u8>)>, Seq<u8>),
                    _,
                >(e),
            }),
    {
        let (count, p1) = match read_u64_be(bytes, pos) {
            Ok(p) => p,
            Err(e) => {
                return Err(e);
            },
        };
        let ghost dec = hint_item_dec();
        let ghost whole = crate::codec::spec_decode_items(
            bytes@.skip(p1 as int),
            count as nat,
            dec,
        );
        let mut entries: Vec<(String, HintWrapper)> = Vec::new();
        let ghost mut ps: Seq<(Seq<u8>, Seq<u8>)> = Seq::empty();
        let mut q: usize = p1;
        let mut i: u64 = 0;
        proof {
            assert(string_pairs_view(entries@) =~= Seq::<(Seq<u8>, Seq<u8>)>::empty());
            assert(assoc_canon(ps) =~= Seq::<(Seq<u8>, Seq<u8>)>::empty());
            match crate::codec::spec_decode_items(bytes@.skip(p1 as int), count as nat, dec) {
                Ok(w) => {
                    assert(ps + w.0 =~= w.0);
                },
                Err(_) => {},
            }
        }
        while i < count
            invariant
                pos <= q <= bytes@.len(),
                i <= count,
                dec == hint_item_dec(),
                whole == (match crate::codec::spec_decode_items(
                    bytes@.skip(q as int),
                    (count - i) as nat,
                    dec,
                ) {
                    Ok(w) => Ok::<_, CodecError>((ps + w.0, w.1)),
                    Err(e) => Err(e),
                }),
                ps.len() == i,
                string_pairs_view(entries@) == assoc_canon(ps),
                assoc_sorted(string_pairs_view(entries@)),
                forall|j: int|
                    0 <= j < string_pairs_view(entries@).len() ==> (#[trigger] string_pairs_view(
                        entries@,
                    )[j]).0.len() < 0x1_0000_0000_0000_0000 && valid_utf8(
                        string_pairs_view(entries@)[j].0,
                    ) && string_pairs_view(entries@)[j].1.len() < 0x1_0000_0000_0000_0000,
            decreases count - i,
        {
            let (name, qa) = match read_string(bytes, q) {
                Ok(p) => p,
                Err(e) => {
                    return Err(e);
                },
            };
            let (code, qb) = match read_run(bytes, qa) {
                Ok(p) => p,
                Err(e) => {
                    return Err(e);
                },
            };
            let ghost kb = encode_utf8(name@);
            let ghost hv = code@;
            let ghost before = string_pairs_view(entries@);
            let klen = str_utf8_len(name.as_str());
            let hlen = code.len();
            proof {
                vstd::utf8::encode_utf8_valid_utf8(name@);
                lemma_assoc_insert_keys(before, kb, hv);
                lemma_assoc_insert_sorted(before, kb, hv);
                assert((ps.push((kb, hv))).drop_last() =~= ps);
                assert((ps.push((kb, hv))).last() == (kb, hv));
                match crate::codec::spec_decode_items(
                    bytes@.skip(qb as int),
                    (count - i - 1) as nat,
                    dec,
                ) {
                    Ok(w) => {
                        assert(ps + (seq![(kb, hv)] + w.0) =~= ps.push((kb, hv)) + w.0);
                    },
                    Err(_) => {},
                }
            }
            insert_string_pair(&mut entries, name, HintWrapper { code });
            proof {
                ps = ps.push((kb, hv));
                assert forall|j: int| 0 <= j < string_pairs_view(entries@).len() implies (
                #[trigger] string_pairs_view(entries@)[j]).0.len() < 0x1_0000_0000_0000_0000
                    && valid_utf8(string_pairs_view(entries@)[j].0) && string_pairs_view(
                    entries@,
                )[j].1.len() < 0x1_0000_0000_0000_0000 by {
                    assert(string_pairs_view(entries@) == assoc_insert(before, kb, hv));
                    let cur = assoc_insert(before, kb, hv)[j];
                    assert(cur == string_pairs_view(entries@)[j]);
                    if cur == (kb, hv) {
                    } else {
                        let idx = choose|idx: int|
                            0 <= idx < before.len() && before[idx] == assoc_insert(
                                before,
                                kb,
                                hv,
                            )[j];
                        assert(before[idx] == cur);
                    }
                }
            }
            q = qb;
            i += 1;
        }
        proof {
            assert(crate::codec::spec_decode_items(bytes@.skip(q as int), 0, dec)
                == Ok::<_, CodecError>((Seq::<(Seq<u8>, Seq<u8>)>::empty(), bytes@.skip(q as int))));
            assert(ps + Seq::<(Seq<u8>, Seq<u8>)>::empty() =~= ps);
        }
        let cl = entries.len();
        proof {
            assert(string_pairs_view(entries@).len() == cl as nat);
        }
        Ok((HintsMapWrapper { entries }, q))
    }
}

/// An empty hints map.
impl Default for HintsMapWrapper {
    fn default() -> (r: Self)
        ensures
            r@ == Seq::<(Seq<u8>, Seq<u8>)>::empty(),
            hints_wf(r@),
    {
        let r = HintsMapWrapper { entries: Vec::new() };
        proof {
            assert(r@ =~= Seq::<(Seq<u8>, Seq<u8>)>::empty());
        }
        r
    }
}


// ---------------------------------------------------------------------------
// The entry-point map, older form
// ---------------------------------------------------------------------------

pub open spec fn ep_v0_item_enc() -> spec_fn(EntryPointV0Model) -> Seq<u8> {
    |m: EntryPointV0Model| spec_encode_ep_v0(m)
}

pub open spec fn ep_v0_item_dec() -> spec_fn(Seq<u8>) -> DecodeResult<EntryPointV0Model> {
    |s: Seq<u8>| spec_decode_ep_v0(s)
}

pub proof fn lemma_ep_v0_item_dec_ext_stable()
    ensures
        ext_stable(ep_v0_item_dec()),
{
    let dec = ep_v0_item_dec();
    assert forall|s: Seq<u8>, ext: Seq<u8>|
        #![trigger dec(s + ext)]
        match dec(s) {
            Ok(p) => dec(s + ext) == Ok::<_, CodecError>((p.0, p.1 + ext)),
            Err(_) => true,
        } by {
        lemma_decode_ep_v0_ext(s, ext);
    }
}

/// A map entry: the kind's discriminant byte, then the entry points of
/// that kind as a list.
pub open spec fn epmap_v0_pair_enc() -> spec_fn((Seq<u8>, Seq<EntryPointV0Model>)) -> Seq<u8> {
    |p: (Seq<u8>, Seq<EntryPointV0Model>)| p.0 + spec_encode_list(p.1, ep_v0_item_enc())
}

pub open spec fn spec_decode_epmap_v0_pair(s: Seq<u8>) -> DecodeResult<
    (Seq<u8>, Seq<EntryPointV0Model>),
> {
    match spec_decode_ep_type(s) {
        Ok((t, r)) => match spec_decode_list(r, ep_v0_item_dec()) {
            Ok((eps, r2)) => Ok(((t.key(), eps), r2)),
            Err(e) => Err(e),
        },
        Err(e) => Err(e),
    }
}

pub open spec fn epmap_v0_pair_dec() -> spec_fn(Seq<u8>) -> DecodeResult<
    (Seq<u8>, Seq<EntryPointV0Model>),
> {
    |s: Seq<u8>| spec_decode_epmap_v0_pair(s)
}

pub proof fn lemma_decode_epmap_v0_pair_round_trip(
    p: (Seq<u8>, Seq<EntryPointV0Model>),
    rest: Seq<u8>,
)
    requires
        p.0.len() == 1,
        p.0[0] < 3,
        p.1.len() < 0x1_0000_0000_0000_0000,
        forall|j: int| 0 <= j < p.1.len() ==> ep_v0_wf(#[trigger] p.1[j]),
    ensures
        spec_decode_epmap_v0_pair(epmap_v0_pair_enc()(p) + rest) == Ok::<_, CodecError>((p, rest)),
{
    let list = spec_encode_list(p.1, ep_v0_item_enc());
    assert(epmap_v0_pair_enc()(p) + rest =~= p.0 + (list + rest));
    assert(p.0 =~= seq![p.0[0]]);
    crate::codec::lemma_decode_byte_round_trip(p.0[0], list + rest);
    assert(seq![p.0[0]] + (list + rest) =~= p.0 + (list + rest));
    let t = (match spec_decode_ep_type(p.0 + (list + rest)) {
        Ok(q) => q.0,
        Err(_) => EntryPointTypeWrapper::External,
    });
    assert(t.key() =~= p.0);
    let items = spec_encode_items(p.1, ep_v0_item_enc());
    assert(list + rest =~= spec_u64_be(p.1.len() as u64) + (items + rest));
    lemma_decode_u64_round_trip(p.1.len() as u64, items + rest);
    assert forall|i: int, r: Seq<u8>| 0 <= i < p.1.len() implies #[trigger] ep_v0_item_dec()(
        ep_v0_item_enc()(p.1[i]) + r,
    ) == Ok::<_, CodecError>((p.1[i], r)) by {
        lemma_decode_ep_v0_round_trip(p.1[i], r);
    }
    lemma_decode_items_round_trip(p.1, ep_v0_item_enc(), ep_v0_item_dec(), rest);
    assert((t.key(), p.1) == p);
}

pub proof fn lemma_epmap_v0_pair_dec_ext_stable()
    ensures
        ext_stable(epmap_v0_pair_dec()),
{
    let dec = epmap_v0_pair_dec();
    assert forall|s: Seq<u8>, ext: Seq<u8>|
        #![trigger dec(s + ext)]
        match dec(s) {
            Ok(p) => dec(s + ext) == Ok::<_, CodecError>((p.0, p.1 + ext)),
            Err(_) => true,
        } by {
        lemma_decode_ep_type_ext(s, ext);
        match spec_decode_ep_type(s) {
            Ok((t, r)) => {
                lemma_ep_v0_item_dec_ext_stable();
                lemma_decode_list_ext(r, ext, ep_v0_item_dec());
            },
            Err(_) => {},
        }
    }
}

/// The map is sorted by discriminant, every key is one of the three
/// reserved bytes, and every entry point is well formed.
pub open spec fn epmap_v0_wf(s: Seq<(Seq<u8>, Seq<EntryPointV0Model>)>) -> bool {
    &&& assoc_sorted(s)
    &&& s.len() < 0x1_0000_0000_0000_0000
    &&& forall|i: int|
        0 <= i < s.len() ==> (#[trigger] s[i]).0.len() == 1 && s[i].0[0] < 3 && s[i].1.len()
            < 0x1_0000_0000_0000_0000
    &&& forall|i: int, j: int|
        #![trigger s[i].1[j]]
        0 <= i < s.len() && 0 <= j < s[i].1.len() ==> ep_v0_wf(s[i].1[j])
}

/// The entry points every pair carries are well formed.
pub open spec fn epmap_v0_values_wf(s: Seq<(Seq<u8>, Seq<EntryPointV0Model>)>) -> bool {
    forall|i: int, j: int|
        #![trigger s[i].1[j]]
        0 <= i < s.len() && 0 <= j < s[i].1.len() ==> ep_v0_wf(s[i].1[j])
}

pub open spec fn spec_encode_epmap_v0(s: Seq<(Seq<u8>, Seq<EntryPointV0Model>)>) -> Seq<u8> {
    spec_encode_list(s, epmap_v0_pair_enc())
}

/// Decoding rebuilds the map by inserting each pair: a repeated kind
/// keeps its later entry-point list.
pub open spec fn spec_decode_epmap_v0(s: Seq<u8>) -> DecodeResult<
    Seq<(Seq<u8>, Seq<EntryPointV0Model>)>,
> {
    match spec_decode_list(s, epmap_v0_pair_dec()) {
        Ok((ps, r)) => Ok((assoc_canon(ps), r)),
        Err(e) => Err(e),
    }
}

pub proof fn lemma_decode_epmap_v0_round_trip(
    s: Seq<(Seq<u8>, Seq<EntryPointV0Model>)>,
    rest: Seq<u8>,
)
    requires
        epmap_v0_wf(s),
    ensures
        spec_decode_epmap_v0(spec_encode_epmap_v0(s) + rest) == Ok::<_, CodecError>((s, rest)),
{
    let items = spec_encode_items(s, epmap_v0_pair_enc());
    assert(spec_encode_epmap_v0(s) + rest =~= spec_u64_be(s.len() as u64) + (items + rest));
    lemma_decode_u64_round_trip(s.len() as u64, items + rest);
    assert forall|i: int, r: Seq<u8>| 0 <= i < s.len() implies #[trigger] epmap_v0_pair_dec()(
        epmap_v0_pair_enc()(s[i]) + r,
    ) == Ok::<_, CodecError>((s[i], r)) by {
        assert forall|j: int| 0 <= j < s[i].1.len() implies ep_v0_wf(#[trigger] s[i].1[j]) by {}
        lemma_decode_epmap_v0_pair_round_trip(s[i], r);
    }
    lemma_decode_items_round_trip(s, epmap_v0_pair_enc(), epmap_v0_pair_dec(), rest);
    lemma_assoc_canon_sorted_id(s);
}

pub proof fn lemma_decode_epmap_v0_ext(s: Seq<u8>, ext: Seq<u8>)
    ensures
        match spec_decode_epmap_v0(s) {
            Ok(p) => spec_decode_epmap_v0(s + ext) == Ok::<_, CodecError>((p.0, p.1 + ext)),
            Err(_) => true,
        },
{
    lemma_epmap_v0_pair_dec_ext_stable();
    lemma_decode_list_ext(s, ext, epmap_v0_pair_dec());
}

#[verifier::loop_isolation(false)]
fn encode_ep_list_v0(eps: &Vec<EntryPointV0Wrapper>, dest: &mut Vec<u8>)
    ensures
        final(dest)@ == old(dest)@ + spec_encode_list(eps.deep_view(), ep_v0_item_enc()),
{
    let count: usize = eps.len();
    write_u64_be(count as u64, dest);
    let ghost items = eps.deep_view();
    let ghost prefix = dest@;
    proof {
        assert(items.len() == count);
    }
    let mut i: usize = 0;
    while i < count
        invariant
            i <= count,
            dest@ == prefix + spec_encode_items(items.take(i as int), ep_v0_item_enc()),
        decreases count - i,
    {
        eps[i].encode_to(dest);
        proof {
            assert(items[i as int] == eps@[i as int]@);
            crate::codec::lemma_encode_items_snoc(items, i as int, ep_v0_item_enc());
            assert(ep_v0_item_enc()(items[i as int]) == spec_encode_ep_v0(items[i as int]));
            assert(dest@ =~= prefix + spec_encode_items(
                items.take(i as int + 1),
                ep_v0_item_enc(),
            ));
        }
        i += 1;
    }
    proof {
        assert(items.take(count as int) =~= items);
    }
}

#[verifier::loop_isolation(false)]
fn decode_ep_list_v0(bytes: &[u8], pos: usize) -> (r: Result<
    (Vec<EntryPointV0Wrapper>, usize),
    CodecError,
>)
    requires
        pos <= bytes@.len(),
    ensures
        (match r {
            Ok(p) => pos <= p.1 <= bytes@.len() && spec_decode_list(
                bytes@.skip(pos as int),
                ep_v0_item_dec(),
            ) == Ok::<_, CodecError>((p.0.deep_view(), bytes@.skip(p.1 as int))) && (forall|j: int|
                0 <= j < p.0.deep_view().len() ==> ep_v0_wf(#[trigger] p.0.deep_view()[j])),
            Err(e) => spec_decode_list(bytes@.skip(pos as int), ep_v0_item_dec()) == Err::<
                (Seq<EntryPointV0Model>, Seq<u8>),
                _,
            >(e),
        }),
{
    let (count, p1) = match read_u64_be(bytes, pos) {
        Ok(p) => p,
        Err(e) => {
            return Err(e);
        },
    };
    let ghost dec = ep_v0_item_dec();
    let ghost whole = crate::codec::spec_decode_items(bytes@.skip(p1 as int), count as nat, dec);
    let mut eps: Vec<EntryPointV0Wrapper> = Vec::new();
    let mut q: usize = p1;
    let mut i: u64 = 0;
    proof {
        assert(eps.deep_view() =~= Seq::<EntryPointV0Model>::empty());
        match crate::codec::spec_decode_items(bytes@.skip(p1 as int), count as nat, dec) {
            Ok(w) => {
                assert(eps.deep_view() + w.0 =~= w.0);
            },
            Err(_) => {},
        }
    }
    while i < count
        invariant
            pos <= q <= bytes@.len(),
            i <= count,
            dec == ep_v0_item_dec(),
            whole == (match crate::codec::spec_decode_items(
                bytes@.skip(q as int),
                (count - i) as nat,
                dec,
            ) {
                Ok(w) => Ok::<_, CodecError>((eps.deep_view() + w.0, w.1)),
                Err(e) => Err(e),
            }),
            eps.deep_view().len() == i,
            forall|j: int| 0 <= j < i ==> ep_v0_wf(#[trigger] eps.deep_view()[j]),
        decreases count - i,
    {
        let ghost before = eps.deep_view();
        let (ep, q_next) = match EntryPointV0Wrapper::decode_from(bytes, q) {
            Ok(p) => p,
            Err(e) => {
                return Err(e);
            },
        };
        proof {
            assert(eps@.push(ep).len() == eps@.len() + 1);
            assert forall|j: int| 0 <= j < eps@.push(ep).len() implies (#[trigger] eps@.push(
                ep,
            )[j]).deep_view() == before.push(ep@)[j] by {
                if j < eps@.len() {
                    assert(eps@.push(ep)[j] == eps@[j]);
                } else {
                    assert(eps@.push(ep)[j] == ep);
                }
            }
            match crate::codec::spec_decode_items(
                bytes@.skip(q_next as int),
                (count - i - 1) as nat,
                dec,
            ) {
                Ok(w) => {
                    assert(before + (seq![ep@] + w.0) =~= before.push(ep@) + w.0);
                },
                Err(_) => {},
            }
        }
        eps.push(ep);
        proof {
            assert(eps.deep_view() =~= before.push(ep@));
        }
        q = q_next;
        i += 1;
    }
    proof {
        assert(crate::codec::spec_decode_items(bytes@.skip(q as int), 0, dec)
            == Ok::<_, CodecError>((Seq::<EntryPointV0Model>::empty(), bytes@.skip(q as int))));
        assert(eps.deep_view() + Seq::<EntryPointV0Model>::empty() =~= eps.deep_view());
    }
    Ok((eps, q))
}

/// A map from entry-point kind to the ordered entry points of that kind,
/// kept sorted by discriminant.  The order of the entry points within a
/// kind is significant and preserved.
#[derive(Clone, Debug, PartialEq, Eq)]
pub struct EntrypointMapV0Wrapper {
    entries: Vec<(EntryPointTypeWrapper, Vec<EntryPointV0Wrapper>)>,
}

impl View for EntrypointMapV0Wrapper {
    type V = Seq<(Seq<u8>, Seq<EntryPointV0Model>)>;

    closed spec fn view(&self) -> Seq<(Seq<u8>, Seq<EntryPointV0Model>)> {
        tag_pairs_view(self.entries@)
    }
}

impl EntrypointMapV0Wrapper {
    /// Build a map.  The pairs may arrive in any order and with repeated
    /// kinds: a kind keeps its later entry-point list.
    #[verifier::loop_isolation(false)]
    #[verifier::rlimit(60)]
    pub fn new(pairs: Vec<(EntryPointTypeWrapper, Vec<EntryPointV0Wrapper>)>) -> (r: Self)
        requires
            epmap_v0_values_wf(tag_pairs_view(pairs@)),
        ensures
            r@ == assoc_canon(tag_pairs_view(pairs@)),
            epmap_v0_wf(r@),
    {
        let mut rest = pairs;
        let n0: usize = rest.len();
        let ghost ps = tag_pairs_view(rest@);
        let mut sorted: Vec<(EntryPointTypeWrapper, Vec<EntryPointV0Wrapper>)> = Vec::new();
        proof {
            assert(tag_pairs_view(sorted@) =~= Seq::<(Seq<u8>, Seq<EntryPointV0Model>)>::empty());
            assert(assoc_canon(ps.take(0)) =~= Seq::<(Seq<u8>, Seq<EntryPointV0Model>)>::empty());
        }
        let mut i: usize = 0;
        while rest.len() > 0
            invariant
                i + rest@.len() == n0,
                ps.len() == n0,
                tag_pairs_view(rest@) =~= ps.skip(i as int),
                tag_pairs_view(sorted@) == assoc_canon(ps.take(i as int)),
                assoc_sorted(tag_pairs_view(sorted@)),
                epmap_v0_values_wf(ps),
                forall|j: int|
                    0 <= j < sorted@.len() ==> (#[trigger] tag_pairs_view(sorted@)[j]).0.len() == 1
                        && tag_pairs_view(sorted@)[j].0[0] < 3 && tag_pairs_view(
                        sorted@,
                    )[j].1.len() < 0x1_0000_0000_0000_0000,
                epmap_v0_values_wf(tag_pairs_view(sorted@)),
            decreases rest@.len(),
        {
            let ghost before = tag_pairs_view(sorted@);
            let ghost rv = rest@;
            let p = rest.remove(0);
            let ghost kb = p.0.key();
            let ghost vv = p.1.deep_view();
            let vlen = p.1.len();
            proof {
                assert(p == rv[0]);
                assert(tag_pairs_view(rv)[0] == (rv[0].0.key(), rv[0].1.deep_view()));
                assert(ps.skip(i as int)[0] == ps[i as int]);
                assert(ps[i as int] == (kb, vv));
                assert(vv.len() == vlen);
                assert(kb.len() == 1 && kb[0] < 3);
                lemma_assoc_insert_keys(before, kb, vv);
                lemma_assoc_insert_sorted(before, kb, vv);
                assert(ps.take(i as int + 1).drop_last() =~= ps.take(i as int));
                assert(ps.take(i as int + 1).last() == (kb, vv));
                assert forall|j: int| 0 <= j < vv.len() implies ep_v0_wf(#[trigger] vv[j]) by {
                    assert(ps[i as int].1[j] == vv[j]);
                }
            }
            insert_tag_pair(&mut sorted, p.0, p.1);
            proof {
                assert(rest@ == rv.remove(0));
                assert forall|j: int| 0 <= j < rest@.len() implies #[trigger] tag_pairs_view(
                    rest@,
                )[j] == ps.skip(i as int + 1)[j] by {
                    assert(rest@[j] == rv[j + 1]);
                    assert(tag_pairs_view(rv)[j + 1] == (rv[j + 1].0.key(),
                    rv[j + 1].1.deep_view()));
                    assert(ps.skip(i as int)[j + 1] == ps[i as int + 1 + j]);
                }
                assert(tag_pairs_view(rest@) =~= ps.skip(i as int + 1));
                assert forall|j: int| 0 <= j < sorted@.len() implies (#[trigger] tag_pairs_view(
                    sorted@,
                )[j]).0.len() == 1 && tag_pairs_view(sorted@)[j].0[0] < 3 && tag_pairs_view(
                    sorted@,
                )[j].1.len() < 0x1_0000_0000_0000_0000 && (forall|t: int|
                    0 <= t < tag_pairs_view(sorted@)[j].1.len() ==> ep_v0_wf(
                        #[trigger] tag_pairs_view(sorted@)[j].1[t],
                    )) by {
                    assert(tag_pairs_view(sorted@) == assoc_insert(before, kb, vv));
                    let cur = assoc_insert(before, kb, vv)[j];
                    assert(cur == tag_pairs_view(sorted@)[j]);
                    if cur == (kb, vv) {
                        assert forall|t: int| 0 <= t < vv.len() implies ep_v0_wf(
                            #[trigger] vv[t],
                        ) by {
                            assert(ps[i as int].1[t] == vv[t]);
                        }
                    } else {
                        let idx = choose|idx: int|
                            0 <= idx < before.len() && before[idx] == assoc_insert(
                                before,
                                kb,
                                vv,
                            )[j];
                        assert(before[idx] == cur);
                        assert forall|t: int| 0 <= t < cur.1.len() implies ep_v0_wf(
                            #[trigger] cur.1[t],
                        ) by {
                            assert(before[idx].1[t] == cur.1[t]);
                        }
                    }
                }
            }
            i += 1;
        }
        proof {
            assert(ps.take(i as int) =~= ps);
        }
        let cl = sorted.len();
        proof {
            assert(tag_pairs_view(sorted@).len() == cl as nat);
        }
        EntrypointMapV0Wrapper { entries: sorted }
    }

    /// The entries, in their canonical order.
    pub fn entries(&self) -> (r: &Vec<(EntryPointTypeWrapper, Vec<EntryPointV0Wrapper>)>)
        ensures
            tag_pairs_view(r@) == self@,
    {
        &self.entries
    }

    #[verifier::loop_isolation(false)]
    pub fn encode_to(&self, dest: &mut Vec<u8>)
        ensures
            final(dest)@ == old(dest)@ + spec_encode_epmap_v0(self@),
    {
        let count: usize = self.entries.len();
        write_u64_be(count as u64, dest);
        let ghost items = self@;
        let ghost prefix = dest@;
        let mut i: usize = 0;
        while i < count
            invariant
                count == self.entries@.len(),
                i <= count,
                dest@ == prefix + spec_encode_items(items.take(i as int), epmap_v0_pair_enc()),
            decreases count - i,
        {
            self.entries[i].0.encode_to(dest);
            encode_ep_list_v0(&self.entries[i].1, dest);
            proof {
                assert(items[i as int] == (self.entries@[i as int].0.key(),
                self.entries@[i as int].1.deep_view()));
                crate::codec::lemma_encode_items_snoc(items, i as int, epmap_v0_pair_enc());
                assert(epmap_v0_pair_enc()(items[i as int]) == items[i as int].0
                    + spec_encode_list(items[i as int].1, ep_v0_item_enc()));
                assert(spec_encode_ep_type(self.entries@[i as int].0) =~= items[i as int].0);
                assert(dest@ =~= prefix + spec_encode_items(
                    items.take(i as int + 1),
                    epmap_v0_pair_enc(),
                ));
            }
            i += 1;
        }
        proof {
            assert(items.take(count as int) =~= items);
        }
    }

    #[verifier::loop_isolation(false)]
    #[verifier::rlimit(60)]
    #[verifier::spinoff_prover]
    #[verifier::rlimit(100)]
    pub fn decode_from(bytes: &[u8], pos: usize) -> (r: Result<(Self, usize), CodecError>)
        requires
            pos <= bytes@.len(),
        ensures
            (match r {
                Ok(p) => pos <= p.1 <= bytes@.len() && spec_decode_epmap_v0(
                    bytes@.skip(pos as int),
                ) == Ok::<_, CodecError>((p.0@, bytes@.skip(p.1 as int))) && epmap_v0_wf(p.0@),
                Err(e) => spec_decode_epmap_v0(bytes@.skip(pos as int)) == Err::<
                    (Seq<(Seq<u8>, Seq<EntryPointV0Model>)>, Seq<u8>),
                    _,
                >(e),
            }),
    {
        let (count, p1) = match read_u64_be(bytes, pos) {
            Ok(p) => p,
            Err(e) => {
                return Err(e);
            },
        };
        let ghost dec = epmap_v0_pair_dec();
        let ghost whole = crate::codec::spec_decode_items(
            bytes@.skip(p1 as int),
            count as nat,
            dec,
        );
        let mut entries: Vec<(EntryPointTypeWrapper, Vec<EntryPointV0Wrapper>)> = Vec::new();
        let ghost mut ps: Seq<(Seq<u8>, Seq<EntryPointV0Model>)> = Seq::empty();
        let mut q: usize = p1;
        let mut i: u64 = 0;
        proof {
            assert(tag_pairs_view(entries@) =~= Seq::<(Seq<u8>, Seq<EntryPointV0Model>)>::empty());
            assert(assoc_canon(ps) =~= Seq::<(Seq<u8>, Seq<EntryPointV0Model>)>::empty());
            match crate::codec::spec_decode_items(bytes@.skip(p1 as int), count as nat, dec) {
                Ok(w) => {
                    assert(ps + w.0 =~= w.0);
                },
                Err(_) => {},
            }
        }
        while i < count
            invariant
                pos <= q <= bytes@.len(),
                i <= count,
                dec == epmap_v0_pair_dec(),
                whole == (match crate::codec::spec_decode_items(
                    bytes@.skip(q as int),
                    (count - i) as nat,
                    dec,
                ) {
                    Ok(w) => Ok::<_, CodecError>((ps + w.0, w.1)),
                    Err(e) => Err(e),
                }),
                ps.len() == i,
                tag_pairs_view(entries@) == assoc_canon(ps),
                assoc_sorted(tag_pairs_view(entries@)),
                forall|j: int|
                    0 <= j < tag_pairs_view(entries@).len() ==> (#[trigger] tag_pairs_view(
                        entries@,
                    )[j]).0.len() == 1 && tag_pairs_view(entries@)[j].0[0] < 3 && tag_pairs_view(
                        entries@,
                    )[j].1.len() < 0x1_0000_0000_0000_0000,
                epmap_v0_values_wf(tag_pairs_view(entries@)),
            decreases count - i,
        {
            let (t, qa) = match EntryPointTypeWrapper::decode_from(bytes, q) {
                Ok(p) => p,
                Err(e) => {
                    return Err(e);
                },
            };
            let (eps, qb) = match decode_ep_list_v0(bytes, qa) {
                Ok(p) => p,
                Err(e) => {
                    return Err(e);
                },
            };
            let ghost kb = t.key();
            let ghost vv = eps.deep_view();
            let ghost before = tag_pairs_view(entries@);
            let vlen = eps.len();
            proof {
                assert(vv.len() == vlen);
                assert(kb.len() == 1 && kb[0] < 3);
                lemma_assoc_insert_keys(before, kb, vv);
                lemma_assoc_insert_sorted(before, kb, vv);
                assert((ps.push((kb, vv))).drop_last() =~= ps);
                assert((ps.push((kb, vv))).last() == (kb, vv));
                match crate::codec::spec_decode_items(
                    bytes@.skip(qb as int),
                    (count - i - 1) as nat,
                    dec,
                ) {
                    Ok(w) => {
                        assert(ps + (seq![(kb, vv)] + w.0) =~= ps.push((kb, vv)) + w.0);
                    },
                    Err(_) => {},
                }
            }
            insert_tag_pair(&mut entries, t, eps);
            proof {
                ps = ps.push((kb, vv));
                assert forall|j: int| 0 <= j < tag_pairs_view(entries@).len() implies (
                #[trigger] tag_pairs_view(entries@)[j]).0.len() == 1 && tag_pairs_view(
                    entries@,
                )[j].0[0] < 3 && tag_pairs_view(entries@)[j].1.len() < 0x1_0000_0000_0000_0000 && (
                forall|u: int|
                    0 <= u < tag_pairs_view(entries@)[j].1.len() ==> ep_v0_wf(
                        #[trigger] tag_pairs_view(entries@)[j].1[u],
                    )) by {
                    assert(tag_pairs_view(entries@) == assoc_insert(before, kb, vv));
                    let cur = assoc_insert(before, kb, vv)[j];
                    assert(cur == tag_pairs_view(entries@)[j]);
                    if cur == (kb, vv) {
                    } else {
                        let idx = choose|idx: int|
                            0 <= idx < before.len() && before[idx] == assoc_insert(
                                before,
                                kb,
                                vv,
                            )[j];
                        assert(before[idx] == cur);
                        assert forall|u: int| 0 <= u < cur.1.len() implies ep_v0_wf(
                            #[trigger] cur.1[u],
                        ) by {
                            assert(before[idx].1[u] == cur.1[u]);
                        }
                    }
                }
            }
            q = qb;
            i += 1;
        }
        proof {
            assert(crate::codec::spec_decode_items(bytes@.skip(q as int), 0, dec)
                == Ok::<_, CodecError>(
                (Seq::<(Seq<u8>, Seq<EntryPointV0Model>)>::empty(), bytes@.skip(q as int)),
            ));
            assert(ps + Seq::<(Seq<u8>, Seq<EntryPointV0Model>)>::empty() =~= ps);
        }
        let cl = entries.len();
        proof {
            assert(tag_pairs_view(entries@).len() == cl as nat);
        }
        Ok((EntrypointMapV0Wrapper { entries }, q))
    }
}

/// An empty entry-point map.
impl Default for EntrypointMapV0Wrapper {
    fn default() -> (r: Self)
        ensures
            r@ == Seq::<(Seq<u8>, Seq<EntryPointV0Model>)>::empty(),
            epmap_v0_wf(r@),
    {
        let r = EntrypointMapV0Wrapper { entries: Vec::new() };
        proof {
            assert(r@ =~= Seq::<(Seq<u8>, Seq<EntryPointV0Model>)>::empty());
        }
        r
    }
}


// ---------------------------------------------------------------------------
// The entry-point map, newer form
// ---------------------------------------------------------------------------

pub open spec fn ep_v1_item_enc() -> spec_fn(EntryPointV1Model) -> Seq<u8> {
    |m: EntryPointV1Model| spec_encode_ep_v1(m)
}

pub open spec fn ep_v1_item_dec() -> spec_fn(Seq<u8>) -> DecodeResult<EntryPointV1Model> {
    |s: Seq<u8>| spec_decode_ep_v1(s)
}

pub proof fn lemma_ep_v1_item_dec_ext_stable()
    ensures
        ext_stable(ep_v1_item_dec()),
{
    let dec = ep_v1_item_dec();
    assert forall|s: Seq<u8>, ext: Seq<u8>|
        #![trigger dec(s + ext)]
        match dec(s) {
            Ok(p) => dec(s + ext) == Ok::<_, CodecError>((p.0, p.1 + ext)),
            Err(_) => true,
        } by {
        lemma_decode_ep_v1_ext(s, ext);
    }
}

/// A map entry: the kind's discriminant byte, then the entry points of
/// that kind as a list.
pub open spec fn epmap_v1_pair_enc() -> spec_fn((Seq<u8>, Seq<EntryPointV1Model>)) -> Seq<u8> {
    |p: (Seq<u8>, Seq<EntryPointV1Model>)| p.0 + spec_encode_list(p.1, ep_v1_item_enc())
}

pub open spec fn spec_decode_epmap_v1_pair(s: Seq<u8>) -> DecodeResult<
    (Seq<u8>, Seq<EntryPointV1Model>),
> {
    match spec_decode_ep_type(s) {
        Ok((t, r)) => match spec_decode_list(r, ep_v1_item_dec()) {
            Ok((eps, r2)) => Ok(((t.key(), eps), r2)),
            Err(e) => Err(e),
        },
        Err(e) => Err(e),
    }
}

pub open spec fn epmap_v1_pair_dec() -> spec_fn(Seq<u8>) -> DecodeResult<
    (Seq<u8>, Seq<EntryPointV1Model>),
> {
    |s: Seq<u8>| spec_decode_epmap_v1_pair(s)
}

pub proof fn lemma_decode_epmap_v1_pair_round_trip(
    p: (Seq<u8>, Seq<EntryPointV1Model>),
    rest: Seq<u8>,
)
    requires
        p.0.len() == 1,
        p.0[0] < 3,
        p.1.len() < 0x1_0000_0000_0000_0000,
        forall|j: int| 0 <= j < p.1.len() ==> ep_v1_wf(#[trigger] p.1[j]),
    ensures
        spec_decode_epmap_v1_pair(epmap_v1_pair_enc()(p) + rest) == Ok::<_, CodecError>((p, rest)),
{
    let list = spec_encode_list(p.1, ep_v1_item_enc());
    assert(epmap_v1_pair_enc()(p) + rest =~= p.0 + (list + rest));
    assert(p.0 =~= seq![p.0[0]]);
    crate::codec::lemma_decode_byte_round_trip(p.0[0], list + rest);
    assert(seq![p.0[0]] + (list + rest) =~= p.0 + (list + rest));
    let t = (match spec_decode_ep_type(p.0 + (list + rest)) {
        Ok(q) => q.0,
        Err(_) => EntryPointTypeWrapper::External,
    });
    assert(t.key() =~= p.0);
    let items = spec_encode_items(p.1, ep_v1_item_enc());
    assert(list + rest =~= spec_u64_be(p.1.len() as u64) + (items + rest));
    lemma_decode_u64_round_trip(p.1.len() as u64, items + rest);
    assert forall|i: int, r: Seq<u8>| 0 <= i < p.1.len() implies #[trigger] ep_v1_item_dec()(
        ep_v1_item_enc()(p.1[i]) + r,
    ) == Ok::<_, CodecError>((p.1[i], r)) by {
        lemma_decode_ep_v1_round_trip(p.1[i], r);
    }
    lemma_decode_items_round_trip(p.1, ep_v1_item_enc(), ep_v1_item_dec(), rest);
    assert((t.key(), p.1) == p);
}

pub proof fn lemma_epmap_v1_pair_dec_ext_stable()
    ensures
        ext_stable(epmap_v1_pair_dec()),
{
    let dec = epmap_v1_pair_dec();
    assert forall|s: Seq<u8>, ext: Seq<u8>|
        #![trigger dec(s + ext)]
        match dec(s) {
            Ok(p) => dec(s + ext) == Ok::<_, CodecError>((p.0, p.1 + ext)),
            Err(_) => true,
        } by {
        lemma_decode_ep_type_ext(s, ext);
        match spec_decode_ep_type(s) {
            Ok((t, r)) => {
                lemma_ep_v1_item_dec_ext_stable();
                lemma_decode_list_ext(r, ext, ep_v1_item_dec());
            },
            Err(_) => {},
        }
    }
}

/// The map is sorted by discriminant, every key is one of the three
/// reserved bytes, and every entry point is well formed.
pub open spec fn epmap_v1_wf(s: Seq<(Seq<u8>, Seq<EntryPointV1Model>)>) -> bool {
    &&& assoc_sorted(s)
    &&& s.len() < 0x1_0000_0000_0000_0000
    &&& forall|i: int|
        0 <= i < s.len() ==> (#[trigger] s[i]).0.len() == 1 && s[i].0[0] < 3 && s[i].1.len()
            < 0x1_0000_0000_0000_0000
    &&& forall|i: int, j: int|
        #![trigger s[i].1[j]]
        0 <= i < s.len() && 0 <= j < s[i].1.len() ==> ep_v1_wf(s[i].1[j])
}

/// The entry points every pair carries are well formed.
pub open spec fn epmap_v1_values_wf(s: Seq<(Seq<u8>, Seq<EntryPointV1Model>)>) -> bool {
    forall|i: int, j: int|
        #![trigger s[i].1[j]]
        0 <= i < s.len() && 0 <= j < s[i].1.len() ==> ep_v1_wf(s[i].1[j])
}

pub open spec fn spec_encode_epmap_v1(s: Seq<(Seq<u8>, Seq<EntryPointV1Model>)>) -> Seq<u8> {
    spec_encode_list(s, epmap_v1_pair_enc())
}

/// Decoding rebuilds the map by inserting each pair: a repeated kind
/// keeps its later entry-point list.
pub open spec fn spec_decode_epmap_v1(s: Seq<u8>) -> DecodeResult<
    Seq<(Seq<u8>, Seq<EntryPointV1Model>)>,
> {
    match spec_decode_list(s, epmap_v1_pair_dec()) {
        Ok((ps, r)) => Ok((assoc_canon(ps), r)),
        Err(e) => Err(e),
    }
}

pub proof fn lemma_decode_epmap_v1_round_trip(
    s: Seq<(Seq<u8>, Seq<EntryPointV1Model>)>,
    rest: Seq<u8>,
)
    requires
        epmap_v1_wf(s),
    ensures
        spec_decode_epmap_v1(spec_encode_epmap_v1(s) + rest) == Ok::<_, CodecError>((s, rest)),
{
    let items = spec_encode_items(s, epmap_v1_pair_enc());
    assert(spec_encode_epmap_v1(s) + rest =~= spec_u64_be(s.len() as u64) + (items + rest));
    lemma_decode_u64_round_trip(s.len() as u64, items + rest);
    assert forall|i: int, r: Seq<u8>| 0 <= i < s.len() implies #[trigger] epmap_v1_pair_dec()(
        epmap_v1_pair_enc()(s[i]) + r,
    ) == Ok::<_, CodecError>((s[i], r)) by {
        assert forall|j: int| 0 <= j < s[i].1.len() implies ep_v1_wf(#[trigger] s[i].1[j]) by {}
        lemma_decode_epmap_v1_pair_round_trip(s[i], r);
    }
    lemma_decode_items_round_trip(s, epmap_v1_pair_enc(), epmap_v1_pair_dec(), rest);
    lemma_assoc_canon_sorted_id(s);
}

pub proof fn lemma_decode_epmap_v1_ext(s: Seq<u8>, ext: Seq<u8>)
    ensures
        match spec_decode_epmap_v1(s) {
            Ok(p) => spec_decode_epmap_v1(s + ext) == Ok::<_, CodecError>((p.0, p.1 + ext)),
            Err(_) => true,
        },
{
    lemma_epmap_v1_pair_dec_ext_stable();
    lemma_decode_list_ext(s, ext, epmap_v1_pair_dec());
}

#[verifier::loop_isolation(false)]
fn encode_ep_list_v1(eps: &Vec<EntryPointV1Wrapper>, dest: &mut Vec<u8>)
    ensures
        final(dest)@ == old(dest)@ + spec_encode_list(eps.deep_view(), ep_v1_item_enc()),
{
    let count: usize = eps.len();
    write_u64_be(count as u64, dest);
    let ghost items = eps.deep_view();
    let ghost prefix = dest@;
    proof {
        assert(items.len() == count);
    }
    let mut i: usize = 0;
    while i < count
        invariant
            i <= count,
            dest@ == prefix + spec_encode_items(items.take(i as int), ep_v1_item_enc()),
        decreases count - i,
    {
        eps[i].encode_to(dest);
        proof {
            assert(items[i as int] == eps@[i as int]@);
            crate::codec::lemma_encode_items_snoc(items, i as int, ep_v1_item_enc());
            assert(ep_v1_item_enc()(items[i as int]) == spec_encode_ep_v1(items[i as int]));
            assert(dest@ =~= prefix + spec_encode_items(
                items.take(i as int + 1),
                ep_v1_item_enc(),
            ));
        }
        i += 1;
    }
    proof {
        assert(items.take(count as int) =~= items);
    }
}

#[verifier::loop_isolation(false)]
fn decode_ep_list_v1(bytes: &[u8], pos: usize) -> (r: Result<
    (Vec<EntryPointV1Wrapper>, usize),
    CodecError,
>)
    requires
        pos <= bytes@.len(),
    ensures
        (match r {
            Ok(p) => pos <= p.1 <= bytes@.len() && spec_decode_list(
                bytes@.skip(pos as int),
                ep_v1_item_dec(),
            ) == Ok::<_, CodecError>((p.0.deep_view(), bytes@.skip(p.1 as int))) && (forall|j: int|
                0 <= j < p.0.deep_view().len() ==> ep_v1_wf(#[trigger] p.0.deep_view()[j])),
            Err(e) => spec_decode_list(bytes@.skip(pos as int), ep_v1_item_dec()) == Err::<
                (Seq<EntryPointV1Model>, Seq<u8>),
                _,
            >(e),
        }),
{
    let (count, p1) = match read_u64_be(bytes, pos) {
        Ok(p) => p,
        Err(e) => {
            return Err(e);
        },
    };
    let ghost dec = ep_v1_item_dec();
    let ghost whole = crate::codec::spec_decode_items(bytes@.skip(p1 as int), count as nat, dec);
    let mut eps: Vec<EntryPointV1Wrapper> = Vec::new();
    let mut q: usize = p1;
    let mut i: u64 = 0;
    proof {
        assert(eps.deep_view() =~= Seq::<EntryPointV1Model>::empty());
        match crate::codec::spec_decode_items(bytes@.skip(p1 as int), count as nat, dec) {
            Ok(w) => {
                assert(eps.deep_view() + w.0 =~= w.0);
            },
            Err(_) => {},
        }
    }
    while i < count
        invariant
            pos <= q <= bytes@.len(),
            i <= count,
            dec == ep_v1_item_dec(),
            whole == (match crate::codec::spec_decode_items(
                bytes@.skip(q as int),
                (count - i) as nat,
                dec,
            ) {
                Ok(w) => Ok::<_, CodecError>((eps.deep_view() + w.0, w.1)),
                Err(e) => Err(e),
            }),
            eps.deep_view().len() == i,
            forall|j: int| 0 <= j < i ==> ep_v1_wf(#[trigger] eps.deep_view()[j]),
        decreases count - i,
    {
        let ghost before = eps.deep_view();
        let (ep, q_next) = match EntryPointV1Wrapper::decode_from(bytes, q) {
            Ok(p) => p,
            Err(e) => {
                return Err(e);
            },
        };
        proof {
            assert(eps@.push(ep).len() == eps@.len() + 1);
            assert forall|j: int| 0 <= j < eps@.push(ep).len() implies (#[trigger] eps@.push(
                ep,
            )[j]).deep_view() == before.push(ep@)[j] by {
                if j < eps@.len() {
                    assert(eps@.push(ep)[j] == eps@[j]);
                } else {
                    assert(eps@.push(ep)[j] == ep);
                }
            }
            match crate::codec::spec_decode_items(
                bytes@.skip(q_next as int),
                (count - i - 1) as nat,
                dec,
            ) {
                Ok(w) => {
                    assert(before + (seq![ep@] + w.0) =~= before.push(ep@) + w.0);
                },
                Err(_) => {},
            }
        }
        eps.push(ep);
        proof {
            assert(eps.deep_view() =~= before.push(ep@));
        }
        q = q_next;
        i += 1;
    }
    proof {
        assert(crate::codec::spec_decode_items(bytes@.skip(q as int), 0, dec)
            == Ok::<_, CodecError>((Seq::<EntryPointV1Model>::empty(), bytes@.skip(q as int))));
        assert(eps.deep_view() + Seq::<EntryPointV1Model>::empty() =~= eps.deep_view());
    }
    Ok((eps, q))
}

/// A map from entry-point kind to the ordered entry points of that kind,
/// kept sorted by discriminant.  The order of the entry points within a
/// kind is significant and preserved.
#[derive(Clone, Debug, PartialEq, Eq)]
pub struct EntrypointMapV1Wrapper {
    entries: Vec<(EntryPointTypeWrapper, Vec<EntryPointV1Wrapper>)>,
}

impl View for EntrypointMapV1Wrapper {
    type V = Seq<(Seq<u8>, Seq<EntryPointV1Model>)>;

    closed spec fn view(&self) -> Seq<(Seq<u8>, Seq<EntryPointV1Model>)> {
        tag_pairs_view(self.entries@)
    }
}

impl EntrypointMapV1Wrapper {
    /// Build a map.  The pairs may arrive in any order and with repeated
    /// kinds: a kind keeps its later entry-point list.
    #[verifier::loop_isolation(false)]
    #[verifier::rlimit(60)]
    pub fn new(pairs: Vec<(EntryPointTypeWrapper, Vec<EntryPointV1Wrapper>)>) -> (r: Self)
        requires
            epmap_v1_values_wf(tag_pairs_view(pairs@)),
        ensures
            r@ == assoc_canon(tag_pairs_view(pairs@)),
            epmap_v1_wf(r@),
    {
        let mut rest = pairs;
        let n0: usize = rest.len();
        let ghost ps = tag_pairs_view(rest@);
        let mut sorted: Vec<(EntryPointTypeWrapper, Vec<EntryPointV1Wrapper>)> = Vec::new();
        proof {
            assert(tag_pairs_view(sorted@) =~= Seq::<(Seq<u8>, Seq<EntryPointV1Model>)>::empty());
            assert(assoc_canon(ps.take(0)) =~= Seq::<(Seq<u8>, Seq<EntryPointV1Model>)>::empty());
        }
        let mut i: usize = 0;
        while rest.len() > 0
            invariant
                i + rest@.len() == n0,
                ps.len() == n0,
                tag_pairs_view(rest@) =~= ps.skip(i as int),
                tag_pairs_view(sorted@) == assoc_canon(ps.take(i as int)),
                assoc_sorted(tag_pairs_view(sorted@)),
                epmap_v1_values_wf(ps),
                forall|j: int|
                    0 <= j < sorted@.len() ==> (#[trigger] tag_pairs_view(sorted@)[j]).0.len() == 1
                        && tag_pairs_view(sorted@)[j].0[0] < 3 && tag_pairs_view(
                        sorted@,
                    )[j].1.len() < 0x1_0000_0000_0000_0000,
                epmap_v1_values_wf(tag_pairs_view(sorted@)),
            decreases rest@.len(),
        {
            let ghost before = tag_pairs_view(sorted@);
            let ghost rv = rest@;
            let p = rest.remove(0);
            let ghost kb = p.0.key();
            let ghost vv = p.1.deep_view();
            let vlen = p.1.len();
            proof {
                assert(p == rv[0]);
                assert(tag_pairs_view(rv)[0] == (rv[0].0.key(), rv[0].1.deep_view()));
                assert(ps.skip(i as int)[0] == ps[i as int]);
                assert(ps[i as int] == (kb, vv));
                assert(vv.len() == vlen);
                assert(kb.len() == 1 && kb[0] < 3);
                lemma_assoc_insert_keys(before, kb, vv);
                lemma_assoc_insert_sorted(before, kb, vv);
                assert(ps.take(i as int + 1).drop_last() =~= ps.take(i as int));
                assert(ps.take(i as int + 1).last() == (kb, vv));
                assert forall|j: int| 0 <= j < vv.len() implies ep_v1_wf(#[trigger] vv[j]) by {
                    assert(ps[i as int].1[j] == vv[j]);
                }
            }
            insert_tag_pair(&mut sorted, p.0, p.1);
            proof {
                assert(rest@ == rv.remove(0));
                assert forall|j: int| 0 <= j < rest@.len() implies #[trigger] tag_pairs_view(
                    rest@,
                )[j] == ps.skip(i as int + 1)[j] by {
                    assert(rest@[j] == rv[j + 1]);
                    assert(tag_pairs_view(rv)[j + 1] == (rv[j + 1].0.key(),
                    rv[j + 1].1.deep_view()));
                    assert(ps.skip(i as int)[j + 1] == ps[i as int + 1 + j]);
                }
                assert(tag_pairs_view(rest@) =~= ps.skip(i as int + 1));
                assert forall|j: int| 0 <= j < sorted@.len() implies (#[trigger] tag_pairs_view(
                    sorted@,
                )[j]).0.len() == 1 && tag_pairs_view(sorted@)[j].0[0] < 3 && tag_pairs_view(
                    sorted@,
                )[j].1.len() < 0x1_0000_0000_0000_0000 && (forall|t: int|
                    0 <= t < tag_pairs_view(sorted@)[j].1.len() ==> ep_v1_wf(
                        #[trigger] tag_pairs_view(sorted@)[j].1[t],
                    )) by {
                    assert(tag_pairs_view(sorted@) == assoc_insert(before, kb, vv));
                    let cur = assoc_insert(before, kb, vv)[j];
                    assert(cur == tag_pairs_view(sorted@)[j]);
                    if cur == (kb, vv) {
                        assert forall|t: int| 0 <= t < vv.len() implies ep_v1_wf(
                            #[trigger] vv[t],
                        ) by {
                            assert(ps[i as int].1[t] == vv[t]);
                        }
                    } else {
                        let idx = choose|idx: int|
                            0 <= idx < before.len() && before[idx] == assoc_insert(
                                before,
                                kb,
                                vv,
                            )[j];
                        assert(before[idx] == cur);
                        assert forall|t: int| 0 <= t < cur.1.len() implies ep_v1_wf(
                            #[trigger] cur.1[t],
                        ) by {
                            assert(before[idx].1[t] == cur.1[t]);
                        }
                    }
                }
            }
            i += 1;
        }
        proof {
            assert(ps.take(i as int) =~= ps);
        }
        let cl = sorted.len();
        proof {
            assert(tag_pairs_view(sorted@).len() == cl as nat);
        }
        EntrypointMapV1Wrapper { entries: sorted }
    }

    /// The entries, in their canonical order.
    pub fn entries(&self) -> (r: &Vec<(EntryPointTypeWrapper, Vec<EntryPointV1Wrapper>)>)
        ensures
            tag_pairs_view(r@) == self@,
    {
        &self.entries
    }

    #[verifier::loop_isolation(false)]
    pub fn encode_to(&self, dest: &mut Vec<u8>)
        ensures
            final(dest)@ == old(dest)@ + spec_encode_epmap_v1(self@),
    {
        let count: usize = self.entries.len();
        write_u64_be(count as u64, dest);
        let ghost items = self@;
        let ghost prefix = dest@;
        let mut i: usize = 0;
        while i < count
            invariant
                count == self.entries@.len(),
                i <= count,
                dest@ == prefix + spec_encode_items(items.take(i as int), epmap_v1_pair_enc()),
            decreases count - i,
        {
            self.entries[i].0.encode_to(dest);
            encode_ep_list_v1(&self.entries[i].1, dest);
            proof {
                assert(items[i as int] == (self.entries@[i as int].0.key(),
                self.entries@[i as int].1.deep_view()));
                crate::codec::lemma_encode_items_snoc(items, i as int, epmap_v1_pair_enc());
                assert(epmap_v1_pair_enc()(items[i as int]) == items[i as int].0
                    + spec_encode_list(items[i as int].1, ep_v1_item_enc()));
                assert(spec_encode_ep_type(self.entries@[i as int].0) =~= items[i as int].0);
                assert(dest@ =~= prefix + spec_encode_items(
                    items.take(i as int + 1),
                    epmap_v1_pair_enc(),
                ));
            }
            i += 1;
        }
        proof {
            assert(items.take(count as int) =~= items);
        }
    }

    #[verifier::loop_isolation(false)]
    #[verifier::rlimit(60)]
    #[verifier::spinoff_prover]
    #[verifier::rlimit(100)]
    pub fn decode_from(bytes: &[u8], pos: usize) -> (r: Result<(Self, usize), CodecError>)
        requires
            pos <= bytes@.len(),
        ensures
            (match r {
                Ok(p) => pos <= p.1 <= bytes@.len() && spec_decode_epmap_v1(
                    bytes@.skip(pos as int),
                ) == Ok::<_, CodecError>((p.0@, bytes@.skip(p.1 as int))) && epmap_v1_wf(p.0@),
                Err(e) => spec_decode_epmap_v1(bytes@.skip(pos as int)) == Err::<
                    (Seq<(Seq<u8>, Seq<EntryPointV1Model>)>, Seq<u8>),
                    _,
                >(e),
            }),
    {
        let (count, p1) = match read_u64_be(bytes, pos) {
            Ok(p) => p,
            Err(e) => {
                return Err(e);
            },
        };
        let ghost dec = epmap_v1_pair_dec();
        let ghost whole = crate::codec::spec_decode_items(
            bytes@.skip(p1 as int),
            count as nat,
            dec,
        );
        let mut entries: Vec<(EntryPointTypeWrapper, Vec<EntryPointV1Wrapper>)> = Vec::new();
        let ghost mut ps: Seq<(Seq<u8>, Seq<EntryPointV1Model>)> = Seq::empty();
        let mut q: usize = p1;
        let mut i: u64 = 0;
        proof {
            assert(tag_pairs_view(entries@) =~= Seq::<(Seq<u8>, Seq<EntryPointV1Model>)>::empty());
            assert(assoc_canon(ps) =~= Seq::<(Seq<u8>, Seq<EntryPointV1Model>)>::empty());
            match crate::codec::spec_decode_items(bytes@.skip(p1 as int), count as nat, dec) {
                Ok(w) => {
                    assert(ps + w.0 =~= w.0);
                },
                Err(_) => {},
            }
        }
        while i < count
            invariant
                pos <= q <= bytes@.len(),
                i <= count,
                dec == epmap_v1_pair_dec(),
                whole == (match crate::codec::spec_decode_items(
                    bytes@.skip(q as int),
                    (count - i) as nat,
                    dec,
                ) {
                    Ok(w) => Ok::<_, CodecError>((ps + w.0, w.1)),
                    Err(e) => Err(e),
                }),
                ps.len() == i,
                tag_pairs_view(entries@) == assoc_canon(ps),
                assoc_sorted(tag_pairs_view(entries@)),
                forall|j: int|
                    0 <= j < tag_pairs_view(entries@).len() ==> (#[trigger] tag_pairs_view(
                        entries@,
                    )[j]).0.len() == 1 && tag_pairs_view(entries@)[j].0[0] < 3 && tag_pairs_view(
                        entries@,
                    )[j].1.len() < 0x1_0000_0000_0000_0000,
                epmap_v1_values_wf(tag_pairs_view(entries@)),
            decreases count - i,
        {
            let (t, qa) = match EntryPointTypeWrapper::decode_from(bytes, q) {
                Ok(p) => p,
                Err(e) => {
                    return Err(e);
                },
            };
            let (eps, qb) = match decode_ep_list_v1(bytes, qa) {
                Ok(p) => p,
                Err(e) => {
                    return Err(e);
                },
            };
            let ghost kb = t.key();
            let ghost vv = eps.deep_view();
            let ghost before = tag_pairs_view(entries@);
            let vlen = eps.len();
            proof {
                assert(vv.len() == vlen);
                assert(kb.len() == 1 && kb[0] < 3);
                lemma_assoc_insert_keys(before, kb, vv);
                lemma_assoc_insert_sorted(before, kb, vv);
                assert((ps.push((kb, vv))).drop_last() =~= ps);
                assert((ps.push((kb, vv))).last() == (kb, vv));
                match crate::codec::spec_decode_items(
                    bytes@.skip(qb as int),
                    (count - i - 1) as nat,
                    dec,
                ) {
                    Ok(w) => {
                        assert(ps + (seq![(kb, vv)] + w.0) =~= ps.push((kb, vv)) + w.0);
                    },
                    Err(_) => {},
                }
            }
            insert_tag_pair(&mut entries, t, eps);
            proof {
                ps = ps.push((kb, vv));
                assert forall|j: int| 0 <= j < tag_pairs_view(entries@).len() implies (
                #[trigger] tag_pairs_view(entries@)[j]).0.len() == 1 && tag_pairs_view(
                    entries@,
                )[j].0[0] < 3 && tag_pairs_view(entries@)[j].1.len() < 0x1_0000_0000_0000_0000 && (
                forall|u: int|
                    0 <= u < tag_pairs_view(entries@)[j].1.len() ==> ep_v1_wf(
                        #[trigger] tag_pairs_view(entries@)[j].1[u],
                    )) by {
                    assert(tag_pairs_view(entries@) == assoc_insert(before, kb, vv));
                    let cur = assoc_insert(before, kb, vv)[j];
                    assert(cur == tag_pairs_view(entries@)[j]);
                    if cur == (kb, vv) {
                    } else {
                        let idx = choose|idx: int|
                            0 <= idx < before.len() && before[idx] == assoc_insert(
                                before,
                                kb,
                                vv,
                            )[j];
                        assert(before[idx] == cur);
                        assert forall|u: int| 0 <= u < cur.1.len() implies ep_v1_wf(
                            #[trigger] cur.1[u],
                        ) by {
                            assert(before[idx].1[u] == cur.1[u]);
                        }
                    }
                }
            }
            q = qb;
            i += 1;
        }
        proof {
            assert(crate::codec::spec_decode_items(bytes@.skip(q as int), 0, dec)
                == Ok::<_, CodecError>(
                (Seq::<(Seq<u8>, Seq<EntryPointV1Model>)>::empty(), bytes@.skip(q as int)),
            ));
            assert(ps + Seq::<(Seq<u8>, Seq<EntryPointV1Model>)>::empty() =~= ps);
        }
        let cl = entries.len();
        proof {
            assert(tag_pairs_view(entries@).len() == cl as nat);
        }
        Ok((EntrypointMapV1Wrapper { entries }, q))
    }
}

/// An empty entry-point map.
impl Default for EntrypointMapV1Wrapper {
    fn default() -> (r: Self)
        ensures
            r@ == Seq::<(Seq<u8>, Seq<EntryPointV1Model>)>::empty(),
            epmap_v1_wf(r@),
    {
        let r = EntrypointMapV1Wrapper { entries: Vec::new() };
        proof {
            assert(r@ =~= Seq::<(Seq<u8>, Seq<EntryPointV1Model>)>::empty());
        }
        r
    }
}


// ---------------------------------------------------------------------------
// The contract class
// ---------------------------------------------------------------------------

/// The mathematical content of an older-form contract class.
pub struct ContractClassV0Model {
    /// The program.
    pub program: ProgramModel,
    /// The entry points, by kind.
    pub entry_points_by_type: Seq<(Seq<u8>, Seq<EntryPointV0Model>)>,
}

/// The mathematical content of a newer-form contract class.
pub struct ContractClassV1Model {
    /// The program.
    pub program: ProgramModel,
    /// The entry points, by kind.
    pub entry_points_by_type: Seq<(Seq<u8>, Seq<EntryPointV1Model>)>,
    /// The hints, by identifier.
    pub hints: Seq<(Seq<u8>, Seq<u8>)>,
}

/// A contract class is one of the two representations; the tag fully
/// determines which fields are present.
pub enum ContractClassModel {
    V0(ContractClassV0Model),
    V1(ContractClassV1Model),
}

pub open spec fn class_wf(m: ContractClassModel) -> bool {
    match m {
        ContractClassModel::V0(c) => program_wf(c.program) && epmap_v0_wf(c.entry_points_by_type),
        ContractClassModel::V1(c) => program_wf(c.program) && epmap_v1_wf(c.entry_points_by_type)
            && hints_wf(c.hints),
    }
}

/// A one-byte version discriminant, then the program frame, the
/// entry-point map and, for the newer form, the hints map.
pub open spec fn spec_encode_class(m: ContractClassModel) -> Seq<u8> {
    match m {
        ContractClassModel::V0(c) => seq![0u8] + spec_encode_program(c.program)
            + spec_encode_epmap_v0(c.entry_points_by_type),
        ContractClassModel::V1(c) => seq![1u8] + spec_encode_program(c.program)
            + spec_encode_epmap_v1(c.entry_points_by_type) + spec_encode_hints_map(c.hints),
    }
}

/// Any version byte other than the two known ones is rejected.
pub open spec fn spec_decode_class(s: Seq<u8>) -> DecodeResult<ContractClassModel> {
    match crate::codec::spec_decode_byte(s) {
        Ok((v, r)) => if v == 0 {
            match spec_decode_program(r) {
                Ok((p, r1)) => match spec_decode_epmap_v0(r1) {
                    Ok((m, r2)) => Ok(
                        (ContractClassModel::V0(ContractClassV0Model {
                            program: p,
                            entry_points_by_type: m,
                        }), r2),
                    ),
                    Err(e) => Err(e),
                },
                Err(e) => Err(e),
            }
        } else if v == 1 {
            match spec_decode_program(r) {
                Ok((p, r1)) => match spec_decode_epmap_v1(r1) {
                    Ok((m, r2)) => match spec_decode_hints_map(r2) {
                        Ok((h, r3)) => Ok(
                            (ContractClassModel::V1(ContractClassV1Model {
                                program: p,
                                entry_points_by_type: m,
                                hints: h,
                            }), r3),
                        ),
                        Err(e) => Err(e),
                    },
                    Err(e) => Err(e),
                },
                Err(e) => Err(e),
            }
        } else {
            Err(CodecError::UnknownContractClassVersion)
        },
        Err(e) => Err(e),
    }
}

/// Round-trip safety: decoding the encoding of any well-formed class
/// yields that class exactly, whatever bytes follow the encoding.
#[verifier::spinoff_prover]
#[verifier::rlimit(100)]
proof fn lemma_class_round_trip_v0(c: ContractClassV0Model, rest: Seq<u8>)
    requires
        class_wf(ContractClassModel::V0(c)),
    ensures
        spec_decode_class(spec_encode_class(ContractClassModel::V0(c)) + rest)
            == Ok::<_, CodecError>((ContractClassModel::V0(c), rest)),
{
    let enc = spec_encode_class(ContractClassModel::V0(c));
    let prog = spec_encode_program(c.program);
    let map = spec_encode_epmap_v0(c.entry_points_by_type);
    assert(enc + rest =~= seq![0u8] + (prog + (map + rest)));
    crate::codec::lemma_decode_byte_round_trip(0u8, prog + (map + rest));
    lemma_decode_program_round_trip(c.program, map + rest);
    lemma_decode_epmap_v0_round_trip(c.entry_points_by_type, rest);
}

#[verifier::spinoff_prover]
#[verifier::rlimit(100)]
proof fn lemma_class_round_trip_v1(c: ContractClassV1Model, rest: Seq<u8>)
    requires
        class_wf(ContractClassModel::V1(c)),
    ensures
        spec_decode_class(spec_encode_class(ContractClassModel::V1(c)) + rest)
            == Ok::<_, CodecError>((ContractClassModel::V1(c), rest)),
{
    let enc = spec_encode_class(ContractClassModel::V1(c));
    let prog = spec_encode_program(c.program);
    let map = spec_encode_epmap_v1(c.entry_points_by_type);
    let hints = spec_encode_hints_map(c.hints);
    assert(enc + rest =~= seq![1u8] + (prog + (map + (hints + rest))));
    crate::codec::lemma_decode_byte_round_trip(1u8, prog + (map + (hints + rest)));
    lemma_decode_program_round_trip(c.program, map + (hints + rest));
    lemma_decode_epmap_v1_round_trip(c.entry_points_by_type, hints + rest);
    lemma_decode_hints_map_round_trip(c.hints, rest);
}

#[verifier::spinoff_prover]
pub proof fn lemma_class_round_trip(m: ContractClassModel, rest: Seq<u8>)
    requires
        class_wf(m),
    ensures
        spec_decode_class(spec_encode_class(m) + rest) == Ok::<_, CodecError>((m, rest)),
{
    match m {
        ContractClassModel::V0(c) => {
            lemma_class_round_trip_v0(c, rest);
        },
        ContractClassModel::V1(c) => {
            lemma_class_round_trip_v1(c, rest);
        },
    }
}

pub proof fn lemma_decode_class_ext(s: Seq<u8>, ext: Seq<u8>)
    ensures
        match spec_decode_class(s) {
            Ok(p) => spec_decode_class(s + ext) == Ok::<_, CodecError>((p.0, p.1 + ext)),
            Err(_) => true,
        },
{
    crate::codec::lemma_decode_byte_ext(s, ext);
    match crate::codec::spec_decode_byte(s) {
        Ok((v, r)) => {
            if v == 0 || v == 1 {
                lemma_decode_program_ext(r, ext);
                match spec_decode_program(r) {
                    Ok((p, r1)) => {
                        if v == 0 {
                            lemma_decode_epmap_v0_ext(r1, ext);
                        } else {
                            lemma_decode_epmap_v1_ext(r1, ext);
                            match spec_decode_epmap_v1(r1) {
                                Ok((mm, r2)) => {
                                    lemma_decode_hints_map_ext(r2, ext);
                                },
                                Err(_) => {},
                            }
                        }
                    },
                    Err(_) => {},
                }
            }
        },
        Err(_) => {},
    }
}

/// Truncation safety: decoding any strict prefix of a valid encoding
/// fails; it never succeeds with a wrong value.
pub proof fn lemma_decode_class_prefix_fails(m: ContractClassModel, k: int)
    requires
        class_wf(m),
        0 <= k < spec_encode_class(m).len(),
    ensures
        spec_decode_class(spec_encode_class(m).take(k)) is Err,
{
    let enc = spec_encode_class(m);
    let p = enc.take(k);
    let ext = enc.skip(k);
    match spec_decode_class(p) {
        Ok(q) => {
            lemma_decode_class_ext(p, ext);
            assert(p + ext =~= enc);
            assert(spec_decode_class(enc) == Ok::<_, CodecError>((q.0, q.1 + ext)));
            lemma_class_round_trip(m, Seq::empty());
            assert(enc + Seq::<u8>::empty() =~= enc);
            assert(q.1 + ext == Seq::<u8>::empty());
            assert(ext.len() == enc.len() - k);
            assert(false);
        },
        Err(_) => {},
    }
}

/// Two programs with the same logical content: equal data, builtins and
/// metadata, and constants denoting the same map.
pub open spec fn program_content_eq(a: ProgramModel, b: ProgramModel) -> bool {
    &&& a.data == b.data
    &&& assoc_map(a.constants) == assoc_map(b.constants)
    &&& a.builtins == b.builtins
    &&& a.compiler_version == b.compiler_version
    &&& a.main_scope == b.main_scope
}

/// Two classes with the same logical content: same version, same program
/// content, and maps denoting the same associative structures.
pub open spec fn class_content_eq(a: ContractClassModel, b: ContractClassModel) -> bool {
    match (a, b) {
        (ContractClassModel::V0(x), ContractClassModel::V0(y)) => program_content_eq(
            x.program,
            y.program,
        ) && assoc_map(x.entry_points_by_type) == assoc_map(y.entry_points_by_type),
        (ContractClassModel::V1(x), ContractClassModel::V1(y)) => program_content_eq(
            x.program,
            y.program,
        ) && assoc_map(x.entry_points_by_type) == assoc_map(y.entry_points_by_type) && assoc_map(
            x.hints,
        ) == assoc_map(y.hints),
        _ => false,
    }
}

/// Determinism: two well-formed classes with the same logical content
/// encode to byte-identical output, however their maps were populated.
pub proof fn lemma_encode_deterministic(a: ContractClassModel, b: ContractClassModel)
    requires
        class_wf(a),
        class_wf(b),
        class_content_eq(a, b),
    ensures
        spec_encode_class(a) == spec_encode_class(b),
{
    match (a, b) {
        (ContractClassModel::V0(x), ContractClassModel::V0(y)) => {
            lemma_sorted_same_map_equal(x.program.constants, y.program.constants);
            lemma_sorted_same_map_equal(x.entry_points_by_type, y.entry_points_by_type);
            assert(x.program == y.program);
            assert(x.entry_points_by_type == y.entry_points_by_type);
        },
        (ContractClassModel::V1(x), ContractClassModel::V1(y)) => {
            lemma_sorted_same_map_equal(x.program.constants, y.program.constants);
            lemma_sorted_same_map_equal(x.entry_points_by_type, y.entry_points_by_type);
            lemma_sorted_same_map_equal(x.hints, y.hints);
            assert(x.program == y.program);
        },
        _ => {},
    }
}

// ---------------------------------------------------------------------------
// The executable class
// ---------------------------------------------------------------------------

/// An older-form contract class: a program and its entry points.
#[derive(Clone, Debug, PartialEq, Eq)]
pub struct ContractClassV0Wrapper {
    /// The program.
    pub program: ProgramWrapper,
    /// The entry points, by kind.
    pub entry_points_by_type: EntrypointMapV0Wrapper,
}

impl View for ContractClassV0Wrapper {
    type V = ContractClassV0Model;

    open spec fn view(&self) -> ContractClassV0Model {
        ContractClassV0Model {
            program: self.program@,
            entry_points_by_type: self.entry_points_by_type@,
        }
    }
}

/// A newer-form contract class: a program, its entry points, and its
/// hints.
#[derive(Clone, Debug, PartialEq, Eq)]
pub struct ContractClassV1Wrapper {
    /// The program.
    pub program: ProgramWrapper,
    /// The entry points, by kind.
    pub entry_points_by_type: EntrypointMapV1Wrapper,
    /// The hints, by identifier.
    pub hints: HintsMapWrapper,
}

impl View for ContractClassV1Wrapper {
    type V = ContractClassV1Model;

    open spec fn view(&self) -> ContractClassV1Model {
        ContractClassV1Model {
            program: self.program@,
            entry_points_by_type: self.entry_points_by_type@,
            hints: self.hints@,
        }
    }
}

/// A contract class, of either form.
#[derive(Clone, Debug, PartialEq, Eq)]
pub enum ContractClassWrapper {
    V0(ContractClassV0Wrapper),
    V1(ContractClassV1Wrapper),
}

impl View for ContractClassWrapper {
    type V = ContractClassModel;

    open spec fn view(&self) -> ContractClassModel {
        match self {
            ContractClassWrapper::V0(c) => ContractClassModel::V0(c@),
            ContractClassWrapper::V1(c) => ContractClassModel::V1(c@),
        }
    }
}

impl Default for ContractClassV0Wrapper {
    fn default() -> (r: Self)
        ensures
            r@.entry_points_by_type == Seq::<(Seq<u8>, Seq<EntryPointV0Model>)>::empty(),
            r@.program.data == Seq::<u8>::empty(),
            r@.program.constants == Seq::<(Seq<u8>, Seq<u8>)>::empty(),
            r@.program.builtins == Seq::<Seq<u8>>::empty(),
            r@.program.compiler_version == encode_utf8("0.11.2"@),
            r@.program.main_scope == encode_utf8("__main__"@),
            class_wf(ContractClassModel::V0(r@)),
    {
        ContractClassV0Wrapper {
            program: ProgramWrapper::default(),
            entry_points_by_type: EntrypointMapV0Wrapper::default(),
        }
    }
}

impl Default for ContractClassV1Wrapper {
    fn default() -> (r: Self)
        ensures
            r@.entry_points_by_type == Seq::<(Seq<u8>, Seq<EntryPointV1Model>)>::empty(),
            r@.hints == Seq::<(Seq<u8>, Seq<u8>)>::empty(),
            r@.program.data == Seq::<u8>::empty(),
            r@.program.constants == Seq::<(Seq<u8>, Seq<u8>)>::empty(),
            r@.program.builtins == Seq::<Seq<u8>>::empty(),
            r@.program.compiler_version == encode_utf8("0.11.2"@),
            r@.program.main_scope == encode_utf8("__main__"@),
            class_wf(ContractClassModel::V1(r@)),
    {
        ContractClassV1Wrapper {
            program: ProgramWrapper::default(),
            entry_points_by_type: EntrypointMapV1Wrapper::default(),
            hints: HintsMapWrapper::default(),
        }
    }
}

impl ContractClassWrapper {
    pub fn encode_to(&self, dest: &mut Vec<u8>)
        ensures
            final(dest)@ == old(dest)@ + spec_encode_class(self@),
    {
        match self {
            ContractClassWrapper::V0(c) => {
                dest.push(0u8);
                c.program.encode_to(dest);
                c.entry_points_by_type.encode_to(dest);
                proof {
                    assert(dest@ =~= old(dest)@ + spec_encode_class(self@));
                }
            },
            ContractClassWrapper::V1(c) => {
                dest.push(1u8);
                c.program.encode_to(dest);
                c.entry_points_by_type.encode_to(dest);
                c.hints.encode_to(dest);
                proof {
                    assert(dest@ =~= old(dest)@ + spec_encode_class(self@));
                }
            },
        }
    }

    /// Encode the class to one byte sequence.
    pub fn encode(&self) -> (r: Vec<u8>)
        ensures
            r@ == spec_encode_class(self@),
    {
        let mut out: Vec<u8> = Vec::new();
        self.encode_to(&mut out);
        proof {
            assert(out@ =~= spec_encode_class(self@));
        }
        out
    }

    /// The exact length of this class's encoding, so the storage layer
    /// can enforce its ceiling without keeping the bytes.
    pub fn encoded_len(&self) -> (n: usize)
        ensures
            n == spec_encode_class(self@).len(),
    {
        let v = self.encode();
        v.len()
    }

    /// Encode, enforcing the size ceiling: an encoding that would exceed
    /// it yields `ContractTooLarge`, never a truncated byte sequence.
    pub fn encode_checked(&self) -> (r: Result<Vec<u8>, CodecError>)
        ensures
            (match r {
                Ok(v) => v@ == spec_encode_class(self@) && v@.len() <= MAX_CONTRACT_BYTE_SIZE,
                Err(e) => e == CodecError::ContractTooLarge && spec_encode_class(self@).len()
                    > MAX_CONTRACT_BYTE_SIZE,
            }),
    {
        let v = self.encode();
        if v.len() > MAX_CONTRACT_BYTE_SIZE {
            Err(CodecError::ContractTooLarge)
        } else {
            Ok(v)
        }
    }

    /// The ceiling on encoded classes, in bytes.
    pub fn max_encoded_len() -> (n: usize)
        ensures
            n == MAX_CONTRACT_BYTE_SIZE,
            n == 20971520,
    {
        MAX_CONTRACT_BYTE_SIZE
    }

    #[verifier::spinoff_prover]
    #[verifier::rlimit(100)]
    pub fn decode_from(bytes: &[u8], pos: usize) -> (r: Result<(Self, usize), CodecError>)
        requires
            pos <= bytes@.len(),
        ensures
            (match r {
                Ok(p) => pos <= p.1 <= bytes@.len() && spec_decode_class(bytes@.skip(pos as int))
                    == Ok::<_, CodecError>((p.0@, bytes@.skip(p.1 as int))) && class_wf(p.0@),
                Err(e) => spec_decode_class(bytes@.skip(pos as int)) == Err::<
                    (ContractClassModel, Seq<u8>),
                    _,
                >(e),
            }),
    {
        let (v, p1) = match crate::codec::read_byte(bytes, pos) {
            Ok(p) => p,
            Err(e) => {
                return Err(e);
            },
        };
        if v == 0 {
            let (program, p2) = match ProgramWrapper::decode_from(bytes, p1) {
                Ok(p) => p,
                Err(e) => {
                    return Err(e);
                },
            };
            let (map, p3) = match EntrypointMapV0Wrapper::decode_from(bytes, p2) {
                Ok(p) => p,
                Err(e) => {
                    return Err(e);
                },
            };
            Ok((ContractClassWrapper::V0(ContractClassV0Wrapper {
                program,
                entry_points_by_type: map,
            }), p3))
        } else if v == 1 {
            let (program, p2) = match ProgramWrapper::decode_from(bytes, p1) {
                Ok(p) => p,
                Err(e) => {
                    return Err(e);
                },
            };
            let (map, p3) = match EntrypointMapV1Wrapper::decode_from(bytes, p2) {
                Ok(p) => p,
                Err(e) => {
                    return Err(e);
                },
            };
            let (hints, p4) = match HintsMapWrapper::decode_from(bytes, p3) {
                Ok(p) => p,
                Err(e) => {
                    return Err(e);
                },
            };
            Ok((ContractClassWrapper::V1(ContractClassV1Wrapper {
                program,
                entry_points_by_type: map,
                hints,
            }), p4))
        } else {
            Err(CodecError::UnknownContractClassVersion)
        }
    }

    /// Decode a class from the front of a byte sequence.  Bytes past the
    /// encoding are left alone.
    pub fn decode(bytes: &[u8]) -> (r: Result<Self, CodecError>)
        ensures
            (match r {
                Ok(c) => (spec_decode_class(bytes@) matches Ok(p) && p.0 == c@) && class_wf(c@),
                Err(e) => spec_decode_class(bytes@) == Err::<
                    (ContractClassModel, Seq<u8>),
                    _,
                >(e),
            }),
    {
        proof {
            assert(bytes@.skip(0) =~= bytes@);
        }
        match Self::decode_from(bytes, 0) {
            Ok((c, _used)) => Ok(c),
            Err(e) => Err(e),
        }
    }
}

} // verus!
