//! The program and its frame.
//!
//! A program owns a shared block of instruction data, a mapping from named
//! constants to 32-byte field elements, the ordered list of builtin names
//! it requires, a compiler-version string and a main-scope identifier.
//! The two strings are metadata only, but they round-trip exactly.
//!
//! On the wire the program body is self-contained: the instruction data as
//! a byte run, the constants as a list of (name, field element) pairs, the
//! builtin names as a list of strings, then the two metadata strings.  The
//! body is wrapped in a frame - a 16-byte big-endian length followed by
//! the body bytes verbatim - so the outer codec can treat it as one
//! opaque, delimited blob.

use std::sync::Arc;
use vstd::prelude::*;
use vstd::utf8::encode_utf8;
use vstd::utf8::valid_utf8;
use crate::codec::spec_decode_fixed;
use crate::codec::spec_decode_list;
use crate::codec::spec_decode_run;
use crate::codec::spec_decode_string;
use crate::codec::spec_encode_items;
use crate::codec::spec_encode_list;
use crate::codec::spec_encode_run;
use crate::codec::spec_u128_be;
use crate::codec::spec_u128_from_be;
use crate::codec::spec_u64_be;
use crate::codec::string_item_dec;
use crate::codec::string_item_enc;
use crate::codec::DecodeResult;
use crate::codec::ext_stable;
use crate::codec::lemma_decode_fixed_round_trip;
use crate::codec::lemma_decode_items_round_trip;
use crate::codec::lemma_decode_run_round_trip;
use crate::codec::lemma_decode_string_round_trip;
use crate::codec::lemma_decode_u64_round_trip;
use crate::codec::lemma_u128_be_round_trip;
use crate::codec::read_fixed;
use crate::codec::read_run;
use crate::codec::read_string;
use crate::codec::read_u128_be;
use crate::codec::read_u64_be;
use crate::codec::str_utf8_len;
use crate::codec::write_run;
use crate::codec::write_string;
use crate::codec::write_u128_be;
use crate::codec::write_u64_be;
use crate::errors::CodecError;
use crate::order::assoc_canon;
use crate::order::assoc_insert;
use crate::order::assoc_sorted;
use crate::order::insert_string_pair;
use crate::order::lemma_assoc_canon_sorted_id;
use crate::order::lemma_assoc_insert_keys;
use crate::order::lemma_assoc_insert_sorted;
use crate::order::string_pairs_view;

verus! {

/// The mathematical content of a program.  Strings are carried as their
/// UTF-8 encodings; the constants are a sorted association sequence.
pub struct ProgramModel {
    /// The shared instruction data, as plain bytes.
    pub data: Seq<u8>,
    /// Named constants: (name, 32-byte field element), sorted by name.
    pub constants: Seq<(Seq<u8>, Seq<u8>)>,
    /// The required builtin names, in order.
    pub builtins: Seq<Seq<u8>>,
    /// The version of the compiler that produced the program.
    pub compiler_version: Seq<u8>,
    /// The main scope identifier.
    pub main_scope: Seq<u8>,
}

/// Every variable-width field fits its length prefix, strings are valid
/// UTF-8, field elements are 32 bytes, the constants are in strictly
/// ascending name order, and the whole body fits its 16-byte frame header.
pub open spec fn program_wf(m: ProgramModel) -> bool {
    &&& m.data.len() < 0x1_0000_0000_0000_0000
    &&& assoc_sorted(m.constants)
    &&& m.constants.len() < 0x1_0000_0000_0000_0000
    &&& forall|i: int|
        0 <= i < m.constants.len() ==> (#[trigger] m.constants[i]).0.len()
            < 0x1_0000_0000_0000_0000 && valid_utf8(m.constants[i].0) && m.constants[i].1.len()
            == 32
    &&& m.builtins.len() < 0x1_0000_0000_0000_0000
    &&& forall|i: int|
        0 <= i < m.builtins.len() ==> (#[trigger] m.builtins[i]).len() < 0x1_0000_0000_0000_0000
            && valid_utf8(m.builtins[i])
    &&& m.compiler_version.len() < 0x1_0000_0000_0000_0000
    &&& valid_utf8(m.compiler_version)
    &&& m.main_scope.len() < 0x1_0000_0000_0000_0000
    &&& valid_utf8(m.main_scope)
    &&& spec_encode_program_body(m).len() < 0x1_0000_0000_0000_0000_0000_0000_0000_0000
}

// ---------------------------------------------------------------------------
// The constant item codec
// ---------------------------------------------------------------------------

/// A constant entry: the name as a string, then the 32 raw bytes of its
/// field element.
pub open spec fn const_item_enc() -> spec_fn((Seq<u8>, Seq<u8>)) -> Seq<u8> {
    |p: (Seq<u8>, Seq<u8>)| spec_encode_run(p.0) + p.1
}

pub open spec fn spec_decode_const_item(s: Seq<u8>) -> DecodeResult<(Seq<u8>, Seq<u8>)> {
    match spec_decode_string(s) {
        Ok((k, r)) => match spec_decode_fixed(r, 32) {
            Ok((f, r2)) => Ok(((k, f), r2)),
            Err(e) => Err(e),
        },
        Err(e) => Err(e),
    }
}

pub open spec fn const_item_dec() -> spec_fn(Seq<u8>) -> DecodeResult<(Seq<u8>, Seq<u8>)> {
    |s: Seq<u8>| spec_decode_const_item(s)
}

pub proof fn lemma_decode_const_item_round_trip(p: (Seq<u8>, Seq<u8>), rest: Seq<u8>)
    requires
        p.0.len() < 0x1_0000_0000_0000_0000,
        valid_utf8(p.0),
        p.1.len() == 32,
    ensures
        spec_decode_const_item(const_item_enc()(p) + rest) == Ok::<_, CodecError>((p, rest)),
{
    assert(const_item_enc()(p) + rest =~= spec_encode_run(p.0) + (p.1 + rest));
    lemma_decode_string_round_trip(p.0, p.1 + rest);
    lemma_decode_fixed_round_trip(p.1, rest);
    assert((p.0, p.1) == p);
}

pub proof fn lemma_const_item_dec_ext_stable()
    ensures
        ext_stable(const_item_dec()),
{
    let dec = const_item_dec();
    assert forall|s: Seq<u8>, ext: Seq<u8>|
        #![trigger dec(s + ext)]
        match dec(s) {
            Ok(p) => dec(s + ext) == Ok::<_, CodecError>((p.0, p.1 + ext)),
            Err(_) => true,
        } by {
        crate::codec::lemma_decode_string_ext(s, ext);
        match spec_decode_string(s) {
            Ok((k, r)) => {
                crate::codec::lemma_decode_fixed_ext(r, ext, 32);
            },
            Err(_) => {},
        }
    }
}

// ---------------------------------------------------------------------------
// The body and the frame
// ---------------------------------------------------------------------------

/// Data, constants, builtins, compiler version, main scope.
pub open spec fn spec_encode_program_body(m: ProgramModel) -> Seq<u8> {
    spec_encode_run(m.data) + spec_encode_list(m.constants, const_item_enc()) + spec_encode_list(
        m.builtins,
        string_item_enc(),
    ) + spec_encode_run(m.compiler_version) + spec_encode_run(m.main_scope)
}

/// The decoded constants are canonicalized: a name that appears twice
/// keeps its later element.
pub open spec fn spec_decode_program_body(s: Seq<u8>) -> DecodeResult<ProgramModel> {
    match spec_decode_run(s) {
        Ok((data, r1)) => match spec_decode_list(r1, const_item_dec()) {
            Ok((cs, r2)) => match spec_decode_list(r2, string_item_dec()) {
                Ok((bs, r3)) => match spec_decode_string(r3) {
                    Ok((ver, r4)) => match spec_decode_string(r4) {
                        Ok((scope, r5)) => Ok(
                            (ProgramModel {
                                data,
                                constants: assoc_canon(cs),
                                builtins: bs,
                                compiler_version: ver,
                                main_scope: scope,
                            }, r5),
                        ),
                        Err(e) => Err(e),
                    },
                    Err(e) => Err(e),
                },
                Err(e) => Err(e),
            },
            Err(e) => Err(e),
        },
        Err(e) => Err(e),
    }
}

/// The frame: a 16-byte big-endian body length, then the body verbatim.
pub open spec fn spec_encode_program(m: ProgramModel) -> Seq<u8> {
    spec_u128_be(spec_encode_program_body(m).len() as u128) + spec_encode_program_body(m)
}

/// Frame decoding distinguishes a missing header, a short body, and a
/// body the program parser rejects (including trailing bytes inside the
/// frame).
pub open spec fn spec_decode_program(s: Seq<u8>) -> DecodeResult<ProgramModel> {
    if s.len() < 16 {
        Err(CodecError::FrameTooShort)
    } else {
        let n = spec_u128_from_be(s.take(16)) as int;
        let r = s.skip(16);
        if r.len() < n {
            Err(CodecError::FrameBodyTruncated)
        } else {
            match spec_decode_program_body(r.take(n)) {
                Ok((m, rem)) => if rem.len() == 0 {
                    Ok((m, r.skip(n)))
                } else {
                    Err(CodecError::MalformedProgramBody)
                },
                Err(_) => Err(CodecError::MalformedProgramBody),
            }
        }
    }
}

#[verifier::rlimit(80)]
pub proof fn lemma_decode_program_body_round_trip(m: ProgramModel, rest: Seq<u8>)
    requires
        program_wf(m),
    ensures
        spec_decode_program_body(spec_encode_program_body(m) + rest) == Ok::<_, CodecError>(
            (m, rest),
        ),
{
    let consts = spec_encode_list(m.constants, const_item_enc());
    let builts = spec_encode_list(m.builtins, string_item_enc());
    let ver = spec_encode_run(m.compiler_version);
    let scope = spec_encode_run(m.main_scope);
    let tail1 = consts + (builts + (ver + (scope + rest)));
    assert(spec_encode_program_body(m) + rest =~= spec_encode_run(m.data) + tail1);
    lemma_decode_run_round_trip(m.data, tail1);

    let tail2 = builts + (ver + (scope + rest));
    let citems = spec_encode_items(m.constants, const_item_enc());
    assert(tail1 =~= spec_u64_be(m.constants.len() as u64) + (citems + tail2));
    lemma_decode_u64_round_trip(m.constants.len() as u64, citems + tail2);
    assert forall|i: int, r: Seq<u8>| 0 <= i < m.constants.len() implies #[trigger] const_item_dec()(
        const_item_enc()(m.constants[i]) + r,
    ) == Ok::<_, CodecError>((m.constants[i], r)) by {
        lemma_decode_const_item_round_trip(m.constants[i], r);
    }
    lemma_decode_items_round_trip(m.constants, const_item_enc(), const_item_dec(), tail2);
    lemma_assoc_canon_sorted_id(m.constants);

    let tail3 = ver + (scope + rest);
    let bitems = spec_encode_items(m.builtins, string_item_enc());
    assert(tail2 =~= spec_u64_be(m.builtins.len() as u64) + (bitems + tail3));
    lemma_decode_u64_round_trip(m.builtins.len() as u64, bitems + tail3);
    assert forall|i: int, r: Seq<u8>|
        0 <= i < m.builtins.len() implies #[trigger] string_item_dec()(
        string_item_enc()(m.builtins[i]) + r,
    ) == Ok::<_, CodecError>((m.builtins[i], r)) by {
        lemma_decode_string_round_trip(m.builtins[i], r);
    }
    lemma_decode_items_round_trip(m.builtins, string_item_enc(), string_item_dec(), tail3);

    assert(tail3 =~= ver + (scope + rest));
    lemma_decode_string_round_trip(m.compiler_version, scope + rest);
    lemma_decode_string_round_trip(m.main_scope, rest);
}

#[verifier::spinoff_prover]
#[verifier::rlimit(100)]
pub proof fn lemma_decode_program_round_trip(m: ProgramModel, rest: Seq<u8>)
    requires
        program_wf(m),
    ensures
        spec_decode_program(spec_encode_program(m) + rest) == Ok::<_, CodecError>((m, rest)),
{
    let body = spec_encode_program_body(m);
    let n = body.len() as u128;
    lemma_u128_be_round_trip(n);
    let s = spec_encode_program(m) + rest;
    assert(s =~= spec_u128_be(n) + (body + rest));
    assert(s.take(16) =~= spec_u128_be(n));
    assert(s.skip(16) =~= body + rest);
    let r = s.skip(16);
    assert(r.take(n as int) =~= body);
    assert(r.skip(n as int) =~= rest);
    lemma_decode_program_body_round_trip(m, Seq::empty());
    assert(body + Seq::<u8>::empty() =~= body);
}

#[verifier::rlimit(40)]
pub proof fn lemma_decode_program_ext(s: Seq<u8>, ext: Seq<u8>)
    ensures
        match spec_decode_program(s) {
            Ok(p) => spec_decode_program(s + ext) == Ok::<_, CodecError>((p.0, p.1 + ext)),
            Err(_) => true,
        },
{
    if s.len() >= 16 {
        assert((s + ext).take(16) =~= s.take(16));
        assert((s + ext).skip(16) =~= s.skip(16) + ext);
        let n = spec_u128_from_be(s.take(16)) as int;
        let r = s.skip(16);
        if r.len() >= n {
            assert((r + ext).take(n) =~= r.take(n));
            assert((r + ext).skip(n) =~= r.skip(n) + ext);
        }
    }
}

// ---------------------------------------------------------------------------
// The executable program
// ---------------------------------------------------------------------------

/// A program: shared instruction data, named constants, builtins, and the
/// two metadata strings.  The constants are kept sorted by name, so every
/// encoding of the same logical program is byte-identical.
#[derive(Clone, Debug, PartialEq, Eq)]
pub struct ProgramWrapper {
    /// The shared instruction data.  Entry points reference this block;
    /// it is shared by handle, never copied per entry point.
    pub shared_program_data: Arc<Vec<u8>>,
    constants: Vec<(String, Vec<u8>)>,
    /// The builtins the program requires, in order.
    pub builtins: Vec<String>,
    /// The version of the compiler that produced the program.
    pub compiler_version: String,
    /// The main scope identifier.
    pub main_scope: String,
}

impl View for ProgramWrapper {
    type V = ProgramModel;

    closed spec fn view(&self) -> ProgramModel {
        ProgramModel {
            data: self.shared_program_data@,
            constants: string_pairs_view(self.constants@),
            builtins: crate::entrypoint_wrapper::builtins_view(self.builtins@),
            compiler_version: encode_utf8(self.compiler_version@),
            main_scope: encode_utf8(self.main_scope@),
        }
    }
}

impl ProgramWrapper {
    /// Build a program.  The constants may arrive in any order and with
    /// repeated names: they are sorted by name and a repeated name keeps
    /// its later element.
    pub fn new(
        data: Vec<u8>,
        constants: Vec<(String, Vec<u8>)>,
        builtins: Vec<String>,
        compiler_version: String,
        main_scope: String,
    ) -> (r: Self)
        requires
            forall|i: int| 0 <= i < constants@.len() ==> (#[trigger] constants@[i]).1@.len() == 32,
        ensures
            r@.data == data@,
            r@.constants == assoc_canon(string_pairs_view(constants@)),
            r@.builtins == crate::entrypoint_wrapper::builtins_view(builtins@),
            r@.compiler_version == encode_utf8(compiler_version@),
            r@.main_scope == encode_utf8(main_scope@),
            program_wf(r@),
    {
        let mut rest = constants;
        let n0: usize = rest.len();
        let ghost ps = string_pairs_view(rest@);
        let mut sorted: Vec<(String, Vec<u8>)> = Vec::new();
        proof {
            assert(string_pairs_view(sorted@) =~= Seq::<(Seq<u8>, Seq<u8>)>::empty());
            assert(assoc_canon(ps.take(0)) =~= Seq::<(Seq<u8>, Seq<u8>)>::empty());
        }
        let mut i: usize = 0;
        #[verifier::loop_isolation(false)]
        while rest.len() > 0
            invariant
                i + rest@.len() == n0,
                ps.len() == n0,
                string_pairs_view(rest@) =~= ps.skip(i as int),
                string_pairs_view(sorted@) == assoc_canon(ps.take(i as int)),
                assoc_sorted(string_pairs_view(sorted@)),
                forall|j: int|
                    0 <= j < sorted@.len() ==> (#[trigger] string_pairs_view(sorted@)[j]).0.len()
                        < 0x1_0000_0000_0000_0000 && valid_utf8(string_pairs_view(sorted@)[j].0)
                        && string_pairs_view(sorted@)[j].1.len() == 32,
                forall|j: int| 0 <= j < rest@.len() ==> (#[trigger] rest@[j]).1@.len() == 32,
            decreases rest@.len(),
        {
            let ghost before = string_pairs_view(sorted@);
            let ghost rv = rest@;
            let p = rest.remove(0);
            let ghost kb = encode_utf8(p.0@);
            let ghost fv = p.1@;
            let klen = str_utf8_len(p.0.as_str());
            proof {
                vstd::utf8::encode_utf8_valid_utf8(p.0@);
                assert(p.1.deep_view() =~= p.1@);
                assert(p == rv[0]);
                assert(string_pairs_view(rv)[0] == (encode_utf8(rv[0].0@), rv[0].1@));
                assert(ps.skip(i as int)[0] == ps[i as int]);
                assert(ps[i as int] == (kb, fv));
                lemma_assoc_insert_keys(before, kb, fv);
                lemma_assoc_insert_sorted(before, kb, fv);
                assert(ps.take(i as int + 1).drop_last() =~= ps.take(i as int));
                assert(ps.take(i as int + 1).last() == (kb, fv));
            }
            insert_string_pair(&mut sorted, p.0, p.1);
            proof {
                assert(rest@ == rv.remove(0));
                assert forall|j: int| 0 <= j < rest@.len() implies #[trigger] string_pairs_view(
                    rest@,
                )[j] == ps.skip(i as int + 1)[j] by {
                    assert(rest@[j] == rv[j + 1]);
                    assert(string_pairs_view(rv)[j + 1] == (encode_utf8(rv[j + 1].0@),
                    rv[j + 1].1@));
                    assert(ps.skip(i as int)[j + 1] == ps[i as int + 1 + j]);
                }
                assert(string_pairs_view(rest@) =~= ps.skip(i as int + 1));
                assert forall|j: int| 0 <= j < rest@.len() implies (#[trigger] rest@[j]).1@.len()
                    == 32 by {
                    assert(rest@[j] == rv[j + 1]);
                }
                assert forall|j: int| 0 <= j < sorted@.len() implies (#[trigger] string_pairs_view(
                    sorted@,
                )[j]).0.len() < 0x1_0000_0000_0000_0000 && valid_utf8(
                    string_pairs_view(sorted@)[j].0,
                ) && string_pairs_view(sorted@)[j].1.len() == 32 by {
                    assert(string_pairs_view(sorted@) == assoc_insert(before, kb, fv));
                    let cur = assoc_insert(before, kb, fv)[j];
                    assert(cur == string_pairs_view(sorted@)[j]);
                    if cur == (kb, fv) {
                    } else {
                        let idx = choose|idx: int|
                            0 <= idx < before.len() && before[idx] == assoc_insert(
                                before,
                                kb,
                                fv,
                            )[j];
                        assert(before[idx] == cur);
                    }
                }
            }
            i += 1;
        }
        proof {
            assert(ps.take(i as int) =~= ps);
        }
        // measure the builtins and the metadata strings, so the
        // well-formedness of the result is in evidence
        let mut j: usize = 0;
        #[verifier::loop_isolation(false)]
        while j < builtins.len()
            invariant
                j <= builtins@.len(),
                forall|t: int|
                    0 <= t < j ==> (#[trigger] encode_utf8(builtins@[t]@)).len()
                        < 0x1_0000_0000_0000_0000,
            decreases builtins@.len() - j,
        {
            let n = str_utf8_len(builtins[j].as_str());
            proof {
                assert(encode_utf8(builtins@[j as int]@).len() == n as nat);
            }
            j += 1;
        }
        proof {
            assert forall|t: int| 0 <= t < builtins@.len() implies valid_utf8(
                #[trigger] crate::entrypoint_wrapper::builtins_view(builtins@)[t],
            ) by {
                vstd::utf8::encode_utf8_valid_utf8(builtins@[t]@);
            }
        }
        let vn = str_utf8_len(compiler_version.as_str());
        let sn = str_utf8_len(main_scope.as_str());
        let dn = data.len();
        let cl = sorted.len();
        proof {
            assert(string_pairs_view(sorted@).len() == cl as nat);
        }
        proof {
            vstd::utf8::encode_utf8_valid_utf8(compiler_version@);
            vstd::utf8::encode_utf8_valid_utf8(main_scope@);
        }
        let r = ProgramWrapper {
            shared_program_data: Arc::new(data),
            constants: sorted,
            builtins,
            compiler_version,
            main_scope,
        };
        // a dry run of the body encoder bounds the body length, which the
        // frame header must be able to carry
        let body = r.encode_body();
        let body_len: usize = body.len();
        proof {
            assert(spec_encode_program_body(r@).len() == body_len as nat);
        }
        r
    }

    /// The named constants, in their canonical order.
    pub fn constants(&self) -> (r: &Vec<(String, Vec<u8>)>)
        ensures
            string_pairs_view(r@) == self@.constants,
    {
        &self.constants
    }

    /// The body of the frame: data, constants, builtins, metadata.
    #[verifier::loop_isolation(false)]
    fn encode_body(&self) -> (b: Vec<u8>)
        ensures
            b@ == spec_encode_program_body(self@),
    {
        let mut out: Vec<u8> = Vec::new();
        write_run(self.shared_program_data.as_slice(), &mut out);

        let ccount: usize = self.constants.len();
        write_u64_be(ccount as u64, &mut out);
        let ghost citems = self@.constants;
        let mut i: usize = 0;
        while i < ccount
            invariant
                ccount == self.constants@.len(),
                i <= ccount,
                out@ == spec_encode_run(self@.data) + spec_u64_be(ccount as u64)
                    + spec_encode_items(citems.take(i as int), const_item_enc()),
            decreases ccount - i,
        {
            write_string(self.constants[i].0.as_str(), &mut out);
            out.extend_from_slice(self.constants[i].1.as_slice());
            proof {
                assert(citems[i as int] == (encode_utf8(self.constants@[i as int].0@),
                self.constants@[i as int].1@));
                crate::codec::lemma_encode_items_snoc(citems, i as int, const_item_enc());
                assert(const_item_enc()(citems[i as int]) == spec_encode_run(citems[i as int].0)
                    + citems[i as int].1);
                assert(out@ =~= spec_encode_run(self@.data) + spec_u64_be(ccount as u64)
                    + spec_encode_items(citems.take(i as int + 1), const_item_enc()));
            }
            i += 1;
        }
        proof {
            assert(citems.take(ccount as int) =~= citems);
        }

        let bcount: usize = self.builtins.len();
        write_u64_be(bcount as u64, &mut out);
        let ghost bitems = self@.builtins;
        let ghost prefix = out@;
        let mut j: usize = 0;
        while j < bcount
            invariant
                bcount == self.builtins@.len(),
                j <= bcount,
                out@ == prefix + spec_encode_items(bitems.take(j as int), string_item_enc()),
            decreases bcount - j,
        {
            write_string(self.builtins[j].as_str(), &mut out);
            proof {
                assert(bitems[j as int] == encode_utf8(self.builtins@[j as int]@));
                crate::codec::lemma_encode_items_snoc(bitems, j as int, string_item_enc());
                assert(string_item_enc()(bitems[j as int]) == spec_encode_run(bitems[j as int]));
                assert(out@ =~= prefix + spec_encode_items(
                    bitems.take(j as int + 1),
                    string_item_enc(),
                ));
            }
            j += 1;
        }
        proof {
            assert(bitems.take(bcount as int) =~= bitems);
        }

        write_string(self.compiler_version.as_str(), &mut out);
        write_string(self.main_scope.as_str(), &mut out);
        proof {
            assert(out@ =~= spec_encode_program_body(self@));
        }
        out
    }

    /// Write the frame: the body length as 16 bytes big-endian, then the
    /// body.
    pub fn encode_to(&self, dest: &mut Vec<u8>)
        ensures
            final(dest)@ == old(dest)@ + spec_encode_program(self@),
    {
        let body = self.encode_body();
        let n: usize = body.len();
        write_u128_be(n as u128, dest);
        dest.extend_from_slice(body.as_slice());
        proof {
            assert(dest@ =~= old(dest)@ + spec_encode_program(self@));
        }
    }

    /// Read `n` constant entries and canonicalize them: sorted by name,
    /// a repeated name keeping its later element.
    #[verifier::loop_isolation(false)]
    #[verifier::rlimit(60)]
    fn read_constants(bytes: &[u8], pos: usize, n: u64) -> (r: Result<
        (Vec<(String, Vec<u8>)>, usize),
        CodecError,
    >)
        requires
            pos <= bytes@.len(),
        ensures
            (match r {
                Ok(p) => pos <= p.1 <= bytes@.len() && (match crate::codec::spec_decode_items(
                    bytes@.skip(pos as int),
                    n as nat,
                    const_item_dec(),
                ) {
                    Ok(w) => string_pairs_view(p.0@) == assoc_canon(w.0) && w.1 == bytes@.skip(
                        p.1 as int,
                    ),
                    Err(_) => false,
                }) && assoc_sorted(string_pairs_view(p.0@)) && (forall|j: int|
                    0 <= j < string_pairs_view(p.0@).len() ==> (#[trigger] string_pairs_view(
                        p.0@,
                    )[j]).0.len() < 0x1_0000_0000_0000_0000 && valid_utf8(
                        string_pairs_view(p.0@)[j].0,
                    ) && string_pairs_view(p.0@)[j].1.len() == 32),
                Err(e) => crate::codec::spec_decode_items(
                    bytes@.skip(pos as int),
                    n as nat,
                    const_item_dec(),
                ) == Err::<(Seq<(Seq<u8>, Seq<u8>)>, Seq<u8>), _>(e),
            }),
    {
        let ghost cdec = const_item_dec();
        let ghost cwhole = crate::codec::spec_decode_items(bytes@.skip(pos as int), n as nat, cdec);
        let mut constants: Vec<(String, Vec<u8>)> = Vec::new();
        let ghost mut ps: Seq<(Seq<u8>, Seq<u8>)> = Seq::empty();
        let mut q: usize = pos;
        let mut i: u64 = 0;
        proof {
            assert(string_pairs_view(constants@) =~= Seq::<(Seq<u8>, Seq<u8>)>::empty());
            assert(assoc_canon(ps) =~= Seq::<(Seq<u8>, Seq<u8>)>::empty());
            match crate::codec::spec_decode_items(bytes@.skip(pos as int), n as nat, cdec) {
                Ok(w) => {
                    assert(ps + w.0 =~= w.0);
                },
                Err(_) => {},
            }
        }
        while i < n
            invariant
                pos <= q <= bytes@.len(),
                i <= n,
                cdec == const_item_dec(),
                cwhole == (match crate::codec::spec_decode_items(
                    bytes@.skip(q as int),
                    (n - i) as nat,
                    cdec,
                ) {
                    Ok(w) => Ok::<_, CodecError>((ps + w.0, w.1)),
                    Err(e) => Err(e),
                }),
                ps.len() == i,
                string_pairs_view(constants@) == assoc_canon(ps),
                assoc_sorted(string_pairs_view(constants@)),
                forall|j: int|
                    0 <= j < string_pairs_view(constants@).len() ==> (
                    #[trigger] string_pairs_view(constants@)[j]).0.len() < 0x1_0000_0000_0000_0000
                        && valid_utf8(string_pairs_view(constants@)[j].0) && string_pairs_view(
                        constants@,
                    )[j].1.len() == 32,
            decreases n - i,
        {
            let (name, qa) = match read_string(bytes, q) {
                Ok(p) => p,
                Err(e) => {
                    return Err(e);
                },
            };
            let (felt, qb) = match read_fixed(bytes, qa, 32) {
                Ok(p) => p,
                Err(e) => {
                    return Err(e);
                },
            };
            let ghost kb = encode_utf8(name@);
            let ghost fv = felt@;
            let ghost before = string_pairs_view(constants@);
            let klen = str_utf8_len(name.as_str());
            proof {
                vstd::utf8::encode_utf8_valid_utf8(name@);
                assert(felt.deep_view() =~= felt@);
                lemma_assoc_insert_keys(before, kb, fv);
                lemma_assoc_insert_sorted(before, kb, fv);
                assert((ps.push((kb, fv))).drop_last() =~= ps);
                assert((ps.push((kb, fv))).last() == (kb, fv));
                match crate::codec::spec_decode_items(
                    bytes@.skip(qb as int),
                    (n - i - 1) as nat,
                    cdec,
                ) {
                    Ok(w) => {
                        assert(ps + (seq![(kb, fv)] + w.0) =~= ps.push((kb, fv)) + w.0);
                    },
                    Err(_) => {},
                }
            }
            insert_string_pair(&mut constants, name, felt);
            proof {
                ps = ps.push((kb, fv));
                assert forall|j: int| 0 <= j < string_pairs_view(constants@).len() implies (
                #[trigger] string_pairs_view(constants@)[j]).0.len() < 0x1_0000_0000_0000_0000
                    && valid_utf8(string_pairs_view(constants@)[j].0) && string_pairs_view(
                    constants@,
                )[j].1.len() == 32 by {
                    assert(string_pairs_view(constants@) == assoc_insert(before, kb, fv));
                    let cur = assoc_insert(before, kb, fv)[j];
                    assert(cur == string_pairs_view(constants@)[j]);
                    if cur == (kb, fv) {
                    } else {
                        let idx = choose|idx: int|
                            0 <= idx < before.len() && before[idx] == assoc_insert(
                                before,
                                kb,
                                fv,
                            )[j];
                        assert(before[idx] == cur);
                    }
                }
            }
            q = qb;
            i += 1;
        }
        proof {
            assert(crate::codec::spec_decode_items(bytes@.skip(q as int), 0, cdec)
                == Ok::<_, CodecError>((Seq::<(Seq<u8>, Seq<u8>)>::empty(), bytes@.skip(q as int))));
            assert(ps + Seq::<(Seq<u8>, Seq<u8>)>::empty() =~= ps);
        }
        Ok((constants, q))
    }

    /// Read `n` builtin names, in order.
    #[verifier::loop_isolation(false)]
    #[verifier::rlimit(60)]
    fn read_builtin_names(bytes: &[u8], pos: usize, n: u64) -> (r: Result<
        (Vec<String>, usize),
        CodecError,
    >)
        requires
            pos <= bytes@.len(),
        ensures
            (match r {
                Ok(p) => pos <= p.1 <= bytes@.len() && crate::codec::spec_decode_items(
                    bytes@.skip(pos as int),
                    n as nat,
                    string_item_dec(),
                ) == Ok::<_, CodecError>(
                    (crate::entrypoint_wrapper::builtins_view(p.0@), bytes@.skip(p.1 as int)),
                ) && (forall|j: int|
                    0 <= j < crate::entrypoint_wrapper::builtins_view(p.0@).len() ==> (
                    #[trigger] crate::entrypoint_wrapper::builtins_view(p.0@)[j]).len()
                        < 0x1_0000_0000_0000_0000 && valid_utf8(
                        crate::entrypoint_wrapper::builtins_view(p.0@)[j],
                    )),
                Err(e) => crate::codec::spec_decode_items(
                    bytes@.skip(pos as int),
                    n as nat,
                    string_item_dec(),
                ) == Err::<(Seq<Seq<u8>>, Seq<u8>), _>(e),
            }),
    {
        let ghost bdec = string_item_dec();
        let ghost bwhole = crate::codec::spec_decode_items(bytes@.skip(pos as int), n as nat, bdec);
        let mut names: Vec<String> = Vec::new();
        let mut q: usize = pos;
        let mut i: u64 = 0;
        proof {
            assert(crate::entrypoint_wrapper::builtins_view(names@) =~= Seq::<Seq<u8>>::empty());
            match crate::codec::spec_decode_items(bytes@.skip(pos as int), n as nat, bdec) {
                Ok(w) => {
                    assert(crate::entrypoint_wrapper::builtins_view(names@) + w.0 =~= w.0);
                },
                Err(_) => {},
            }
        }
        while i < n
            invariant
                pos <= q <= bytes@.len(),
                i <= n,
                bdec == string_item_dec(),
                bwhole == (match crate::codec::spec_decode_items(
                    bytes@.skip(q as int),
                    (n - i) as nat,
                    bdec,
                ) {
                    Ok(w) => Ok::<_, CodecError>(
                        (crate::entrypoint_wrapper::builtins_view(names@) + w.0, w.1),
                    ),
                    Err(e) => Err(e),
                }),
                crate::entrypoint_wrapper::builtins_view(names@).len() == i,
                forall|j: int|
                    0 <= j < i ==> (#[trigger] crate::entrypoint_wrapper::builtins_view(
                        names@,
                    )[j]).len() < 0x1_0000_0000_0000_0000 && valid_utf8(
                        crate::entrypoint_wrapper::builtins_view(names@)[j],
                    ),
            decreases n - i,
        {
            let ghost before = crate::entrypoint_wrapper::builtins_view(names@);
            let (b, q_next) = match read_string(bytes, q) {
                Ok(p) => p,
                Err(e) => {
                    return Err(e);
                },
            };
            proof {
                let run = encode_utf8(b@);
                vstd::utf8::encode_utf8_valid_utf8(b@);
                assert(crate::entrypoint_wrapper::builtins_view(names@.push(b)) =~= before.push(
                    run,
                ));
                match crate::codec::spec_decode_items(
                    bytes@.skip(q_next as int),
                    (n - i - 1) as nat,
                    bdec,
                ) {
                    Ok(w) => {
                        assert(before + (seq![run] + w.0) =~= before.push(run) + w.0);
                    },
                    Err(_) => {},
                }
            }
            names.push(b);
            q = q_next;
            i += 1;
        }
        proof {
            assert(crate::codec::spec_decode_items(bytes@.skip(q as int), 0, bdec)
                == Ok::<_, CodecError>((Seq::<Seq<u8>>::empty(), bytes@.skip(q as int))));
            assert(crate::entrypoint_wrapper::builtins_view(names@) + Seq::<Seq<u8>>::empty()
                =~= crate::entrypoint_wrapper::builtins_view(names@));
        }
        Ok((names, q))
    }

    /// Parse the body of a frame, whole.  The second result is how many
    /// bytes were consumed.
    #[verifier::spinoff_prover]
    #[verifier::rlimit(100)]
    fn decode_body(body: &[u8]) -> (r: Result<(Self, usize), CodecError>)
        ensures
            (match r {
                Ok(p) => p.1 <= body@.len() && spec_decode_program_body(body@)
                    == Ok::<_, CodecError>((p.0@, body@.skip(p.1 as int))) && program_wf(p.0@),
                Err(e) => spec_decode_program_body(body@) == Err::<
                    (ProgramModel, Seq<u8>),
                    _,
                >(e),
            }),
    {
        proof {
            assert(body@.skip(0) =~= body@);
        }
        let (data, q1) = match read_run(body, 0) {
            Ok(p) => p,
            Err(e) => {
                return Err(e);
            },
        };
        let (ccount, q2) = match read_u64_be(body, q1) {
            Ok(p) => p,
            Err(e) => {
                return Err(e);
            },
        };
        let (constants, q3) = match Self::read_constants(body, q2, ccount) {
            Ok(p) => p,
            Err(e) => {
                return Err(e);
            },
        };
        let (bcount, q4) = match read_u64_be(body, q3) {
            Ok(p) => p,
            Err(e) => {
                return Err(e);
            },
        };
        let (builtins, q5) = match Self::read_builtin_names(body, q4, bcount) {
            Ok(p) => p,
            Err(e) => {
                return Err(e);
            },
        };
        let (compiler_version, q6) = match read_string(body, q5) {
            Ok(p) => p,
            Err(e) => {
                return Err(e);
            },
        };
        let (main_scope, q7) = match read_string(body, q6) {
            Ok(p) => p,
            Err(e) => {
                return Err(e);
            },
        };
        let dlen = data.len();
        let clen = constants.len();
        let blen = builtins.len();
        let vlen = str_utf8_len(compiler_version.as_str());
        let slen = str_utf8_len(main_scope.as_str());
        let r = ProgramWrapper {
            shared_program_data: Arc::new(data),
            constants,
            builtins,
            compiler_version,
            main_scope,
        };
        proof {
            assert(string_pairs_view(r.constants@).len() == clen as nat);
            assert(crate::entrypoint_wrapper::builtins_view(r.builtins@).len() == blen as nat);
        }
        // a dry run of the body encoder bounds the canonical body length
        let reenc = r.encode_body();
        let reenc_len: usize = reenc.len();
        proof {
            assert(spec_encode_program_body(r@).len() == reenc_len as nat);
        }
        Ok((r, q7))
    }

    /// Read the frame and parse its body.
    pub fn decode_from(bytes: &[u8], pos: usize) -> (r: Result<(Self, usize), CodecError>)
        requires
            pos <= bytes@.len(),
        ensures
            (match r {
                Ok(p) => pos <= p.1 <= bytes@.len() && spec_decode_program(bytes@.skip(pos as int))
                    == Ok::<_, CodecError>((p.0@, bytes@.skip(p.1 as int))) && program_wf(p.0@),
                Err(e) => spec_decode_program(bytes@.skip(pos as int)) == Err::<
                    (ProgramModel, Seq<u8>),
                    _,
                >(e),
            }),
    {
        let s0_len = bytes.len() - pos;
        let (n, p1) = match read_u128_be(bytes, pos) {
            Some(p) => p,
            None => {
                return Err(CodecError::FrameTooShort);
            },
        };
        if n > (bytes.len() - p1) as u128 {
            proof {
                assert(bytes@.skip(pos as int).skip(16) =~= bytes@.skip(p1 as int));
            }
            return Err(CodecError::FrameBodyTruncated);
        }
        let blen: usize = n as usize;
        let (body, p2) = match read_fixed(bytes, p1, blen) {
            Ok(p) => p,
            Err(_) => {
                proof {
                    assert(bytes@.skip(p1 as int).len() >= n);
                }
                return Err(CodecError::FrameBodyTruncated);
            },
        };
        proof {
            assert(bytes@.skip(pos as int).skip(16) =~= bytes@.skip(p1 as int));
            assert(bytes@.skip(pos as int).take(16) =~= bytes@.skip(pos as int).take(16));
        }
        match Self::decode_body(body.as_slice()) {
            Ok((prog, used)) => {
                if used == body.len() {
                    proof {
                        assert(body@.skip(used as int).len() == 0);
                        assert(bytes@.skip(p1 as int).take(n as int) == body@);
                        assert(bytes@.skip(p1 as int).skip(n as int) =~= bytes@.skip(p2 as int));
                    }
                    Ok((prog, p2))
                } else {
                    proof {
                        assert(body@.skip(used as int).len() != 0);
                    }
                    Err(CodecError::MalformedProgramBody)
                }
            },
            Err(_) => Err(CodecError::MalformedProgramBody),
        }
    }
}

/// An empty program: no data, no constants, no builtins, the default
/// compiler version, and the conventional main scope.
impl Default for ProgramWrapper {
    fn default() -> (r: Self)
        ensures
            r@.data == Seq::<u8>::empty(),
            r@.constants == Seq::<(Seq<u8>, Seq<u8>)>::empty(),
            r@.builtins == Seq::<Seq<u8>>::empty(),
            r@.compiler_version == encode_utf8("0.11.2"@),
            r@.main_scope == encode_utf8("__main__"@),
            program_wf(r@),
    {
        let r = ProgramWrapper::new(
            Vec::new(),
            Vec::new(),
            Vec::new(),
            "0.11.2".to_owned(),
            "__main__".to_owned(),
        );
        proof {
            assert(string_pairs_view(Seq::<(String, Vec<u8>)>::empty()) =~= Seq::<
                (Seq<u8>, Seq<u8>),
            >::empty());
            assert(assoc_canon(Seq::<(Seq<u8>, Seq<u8>)>::empty()) == Seq::<
                (Seq<u8>, Seq<u8>),
            >::empty());
            assert(crate::entrypoint_wrapper::builtins_view(Seq::<String>::empty()) =~= Seq::<
                Seq<u8>,
            >::empty());
        }
        r
    }
}

} // verus!
