//! The codec's laws: what holds of decoding and encoding together.
//!
//! The central one is the round trip: decoding the encoding of any value
//! that fits the declared shape gives that value back and consumes exactly
//! its wire bytes, whatever follows in the stream. Beside it stand the
//! enforcement of declared names and the handling of the null marker.

use vstd::prelude::*;

use crate::de::{
    first_case_index, lemma_variant_unmatched_prefix, spec_decode, spec_decode_elems,
    spec_decode_fields,
};
use crate::error::Error;
use crate::grammar::{
    bulk_frame, dec_digits, false_frame, header_frame, lemma_bool_roundtrip, lemma_bulk_roundtrip,
    lemma_char_roundtrip, lemma_dec_digits, lemma_header_roundtrip, lemma_null_frame_roundtrip,
    lemma_signed_roundtrip, lemma_unsigned_roundtrip, null_frame, true_frame, DASH, DIGIT0,
    DOLLAR, STAR,
};
use crate::ser::{spec_encode, spec_encode_from};
use crate::shape::{SpecCase, SpecShape};
use crate::value::SpecValue;

verus! {

/// Whether a value has the declared shape, with every count small enough
/// for this machine's wire headers. This is exactly the class of values the
/// round trip holds for.
pub open spec fn compat(v: SpecValue, sh: SpecShape) -> bool
    decreases v, sh,
{
    match sh {
        SpecShape::Bool => v is Bool,
        SpecShape::Unsigned => v is Unsigned,
        SpecShape::Signed => v is Signed,
        SpecShape::Char => v is Char,
        SpecShape::Bytes => {
            &&& v matches SpecValue::Bytes(b)
            &&& b.len() <= usize::MAX
        },
        SpecShape::Unit => v is Absent,
        SpecShape::Optional(inner) => v is Absent || compat(v, *inner),
        SpecShape::List(elem) => {
            &&& v matches SpecValue::List(vs)
            &&& vs.len() <= usize::MAX
            &&& forall|i: int| 0 <= i < vs.len() ==> compat(#[trigger] vs[i], *elem)
        },
        SpecShape::Tuple(parts) => {
            &&& v matches SpecValue::List(vs)
            &&& vs.len() == parts.len()
            &&& vs.len() <= usize::MAX
            &&& forall|i: int| 0 <= i < vs.len() ==> compat(#[trigger] vs[i], parts[i])
        },
        SpecShape::Record { name, fields } => {
            &&& v matches SpecValue::Record { name: vn, fields: vf }
            &&& vn == name
            &&& name.len() <= usize::MAX
            &&& vf.len() == fields.len()
            &&& vf.len() + 1 <= usize::MAX
            &&& forall|i: int| 0 <= i < vf.len() ==> compat(#[trigger] vf[i], fields[i])
        },
        SpecShape::Variant { cases } => {
            &&& v matches SpecValue::Variant { tag, payload }
            &&& tag.len() <= usize::MAX
            &&& payload.len() + 1 <= usize::MAX
            &&& first_case_index(cases, tag, 0) matches Some(ci)
            &&& payload.len() == cases[ci as int].payload.len()
            &&& forall|i: int| 0 <= i < payload.len() ==> compat(
                #[trigger] payload[i],
                cases[ci as int].payload[i],
            )
        },
    }
}

/// What [`first_case_index`] returns: the first matching index, and `None`
/// exactly when no case from `i` on matches.
pub proof fn lemma_first_case_index(cases: Seq<SpecCase>, t: Seq<u8>, i: nat)
    ensures
        match first_case_index(cases, t, i) {
            None => forall|j: int| i <= j < cases.len() ==> cases[j].tag != t,
            Some(ci) => i <= ci < cases.len() && cases[ci as int].tag == t && (forall|j: int|
                i <= j < ci ==> cases[j].tag != t),
        },
    decreases cases.len() - i,
{
    if i < cases.len() && cases[i as int].tag != t {
        lemma_first_case_index(cases, t, (i + 1) as nat);
    }
}

/// Only absence encodes to something the null marker is a prefix of: every
/// other encoding starts with an array sigil or with a digit length hint.
pub proof fn lemma_encode_head(v: SpecValue)
    ensures
        !(v is Absent) ==> spec_encode(v).len() >= 1 && (spec_encode(v)[0] == STAR || (
        spec_encode(v).len() >= 2 && spec_encode(v)[0] == DOLLAR && spec_encode(v)[1] != DASH)),
{
    match v {
        SpecValue::Bool(b) => {
            if b {
                assert(spec_encode(v)[1] == (DIGIT0 + 4) as u8);
            } else {
                assert(spec_encode(v)[1] == (DIGIT0 + 5) as u8);
            }
        },
        SpecValue::Unsigned(n) => {
            lemma_dec_digits(dec_digits(n as nat).len());
            lemma_dec_digits(n as nat);
            assert(spec_encode(v)[1] == dec_digits(dec_digits(n as nat).len())[0]);
        },
        SpecValue::Signed(i) => {
            let b = crate::grammar::dec_signed_digits(i as int);
            lemma_dec_digits(b.len());
            assert(spec_encode(v)[1] == dec_digits(b.len())[0]);
        },
        SpecValue::Char(c) => {
            let b = vstd::utf8::encode_scalar(c as u32);
            lemma_dec_digits(b.len());
            assert(spec_encode(v)[1] == dec_digits(b.len())[0]);
        },
        SpecValue::Bytes(b) => {
            lemma_dec_digits(b.len());
            assert(spec_encode(v)[1] == dec_digits(b.len())[0]);
        },
        SpecValue::Absent => {},
        SpecValue::List(vs) => {
            assert(spec_encode(v)[0] == STAR);
        },
        SpecValue::Record { name, fields } => {
            assert(spec_encode(v)[0] == STAR);
        },
        SpecValue::Variant { tag, payload } => {
            assert(spec_encode(v)[0] == STAR);
        },
    }
}

/// Round trip for a run of same-shaped elements, from index `i` on.
pub proof fn lemma_decode_encode_elems(vs: Seq<SpecValue>, elem: SpecShape, rest: Seq<u8>, i: nat)
    requires
        i <= vs.len(),
        forall|j: int| i <= j < vs.len() ==> compat(#[trigger] vs[j], elem),
    ensures
        spec_decode_elems(spec_encode_from(vs, i) + rest, elem, (vs.len() - i) as nat) == Ok::<
            (Seq<SpecValue>, nat),
            Error,
        >((vs.skip(i as int), spec_encode_from(vs, i).len())),
    decreases vs, elem, vs.len() - i,
{
    if i < vs.len() {
        let head = spec_encode(vs[i as int]);
        let tail = spec_encode_from(vs, (i + 1) as nat);
        lemma_decode_encode(vs[i as int], elem, tail + rest);
        assert(spec_encode_from(vs, i) + rest =~= head + (tail + rest));
        lemma_decode_encode_elems(vs, elem, rest, (i + 1) as nat);
        assert((head + (tail + rest)).skip(head.len() as int) =~= tail + rest);
        assert(seq![vs[i as int]] + vs.skip(i as int + 1) =~= vs.skip(i as int));
    } else {
        assert(vs.skip(i as int) =~= Seq::<SpecValue>::empty());
    }
}

/// Round trip for a run of declared field shapes, from index `i` on, with
/// exactly as many elements available as fields remain.
pub proof fn lemma_decode_encode_fields(
    vs: Seq<SpecValue>,
    shapes: Seq<SpecShape>,
    rest: Seq<u8>,
    i: nat,
)
    requires
        i <= vs.len(),
        vs.len() == shapes.len(),
        forall|j: int| i <= j < vs.len() ==> compat(#[trigger] vs[j], shapes[j]),
    ensures
        spec_decode_fields(spec_encode_from(vs, i) + rest, shapes, i, (vs.len() - i) as nat)
            == Ok::<(Seq<SpecValue>, nat), Error>(
            (vs.skip(i as int), spec_encode_from(vs, i).len()),
        ),
    decreases vs, shapes, vs.len() - i,
{
    if i < vs.len() {
        let head = spec_encode(vs[i as int]);
        let tail = spec_encode_from(vs, (i + 1) as nat);
        lemma_decode_encode(vs[i as int], shapes[i as int], tail + rest);
        assert(spec_encode_from(vs, i) + rest =~= head + (tail + rest));
        lemma_decode_encode_fields(vs, shapes, rest, (i + 1) as nat);
        assert((head + (tail + rest)).skip(head.len() as int) =~= tail + rest);
        assert(seq![vs[i as int]] + vs.skip(i as int + 1) =~= vs.skip(i as int));
    } else {
        assert(vs.skip(i as int) =~= Seq::<SpecValue>::empty());
    }
}

/// Round trip: decoding the encoding of any value that fits the declared
/// shape, with anything at all following it in the stream, yields exactly
/// that value and consumes exactly its encoding.
#[verifier::rlimit(100)]
pub proof fn lemma_decode_encode(v: SpecValue, sh: SpecShape, rest: Seq<u8>)
    requires
        compat(v, sh),
    ensures
        spec_decode(spec_encode(v) + rest, sh) == Ok::<(SpecValue, nat), Error>(
            (v, spec_encode(v).len()),
        ),
    decreases v, sh, 0int,
{
    let s = spec_encode(v) + rest;
    match sh {
        SpecShape::Bool => {
            if let SpecValue::Bool(b) = v {
                lemma_bool_roundtrip(b, rest);
            }
        },
        SpecShape::Unsigned => {
            if let SpecValue::Unsigned(n) = v {
                lemma_unsigned_roundtrip(n, rest);
            }
        },
        SpecShape::Signed => {
            if let SpecValue::Signed(n) = v {
                lemma_signed_roundtrip(n, rest);
            }
        },
        SpecShape::Char => {
            if let SpecValue::Char(c) = v {
                lemma_char_roundtrip(c, rest);
            }
        },
        SpecShape::Bytes => {
            if let SpecValue::Bytes(b) = v {
                lemma_bulk_roundtrip(b, rest);
            }
        },
        SpecShape::Unit => {
            lemma_null_frame_roundtrip(rest);
        },
        SpecShape::Optional(inner) => {
            if v is Absent {
                assert(s.take(5) =~= null_frame());
            } else {
                lemma_encode_head(v);
                if s.len() >= 5 {
                    assert(s[0] == spec_encode(v)[0]);
                    if spec_encode(v)[0] == STAR {
                        assert(s.take(5)[0] != null_frame()[0]);
                    } else {
                        assert(s[1] == spec_encode(v)[1]);
                        assert(s.take(5)[1] != null_frame()[1]);
                    }
                    assert(s.take(5) != null_frame());
                }
                lemma_decode_encode(v, *inner, rest);
            }
        },
        SpecShape::List(elem) => {
            if let SpecValue::List(vs) = v {
                let body = spec_encode_from(vs, 0);
                lemma_header_roundtrip(vs.len(), body + rest);
                assert(s =~= header_frame(vs.len()) + (body + rest));
                let hu = header_frame(vs.len()).len();
                assert(s.skip(hu as int) =~= body + rest);
                lemma_decode_encode_elems(vs, *elem, rest, 0);
                assert(vs.skip(0) =~= vs);
            }
        },
        SpecShape::Tuple(parts) => {
            if let SpecValue::List(vs) = v {
                let body = spec_encode_from(vs, 0);
                lemma_header_roundtrip(vs.len(), body + rest);
                assert(s =~= header_frame(vs.len()) + (body + rest));
                let hu = header_frame(vs.len()).len();
                assert(s.skip(hu as int) =~= body + rest);
                lemma_decode_encode_fields(vs, parts, rest, 0);
                assert(vs.skip(0) =~= vs);
            }
        },
        SpecShape::Record { name, fields } => {
            if let SpecValue::Record { name: vn, fields: vf } = v {
                let body = spec_encode_from(vf, 0);
                let nm = bulk_frame(vn);
                lemma_header_roundtrip(vf.len() + 1, nm + (body + rest));
                assert(s =~= header_frame(vf.len() + 1) + (nm + (body + rest)));
                let hu = header_frame(vf.len() + 1).len();
                assert(s.skip(hu as int) =~= nm + (body + rest));
                lemma_bulk_roundtrip(vn, body + rest);
                assert((nm + (body + rest)).skip(nm.len() as int) =~= body + rest);
                assert(s.skip((hu + nm.len()) as int) =~= body + rest);
                lemma_decode_encode_fields(vf, fields, rest, 0);
                assert(vf.skip(0) =~= vf);
            }
        },
        SpecShape::Variant { cases } => {
            if let SpecValue::Variant { tag, payload } = v {
                let body = spec_encode_from(payload, 0);
                let tg = bulk_frame(tag);
                let n = payload.len() + 1;
                lemma_header_roundtrip(n, tg + (body + rest));
                assert(s =~= header_frame(n) + (tg + (body + rest)));
                let hu = header_frame(n).len();
                assert(s.skip(hu as int) =~= tg + (body + rest));
                lemma_bulk_roundtrip(tag, body + rest);
                assert((tg + (body + rest)).skip(tg.len() as int) =~= body + rest);
                assert(s.skip((hu + tg.len()) as int) =~= body + rest);
                lemma_first_case_index(cases, tag, 0);
                if let Some(ci) = first_case_index(cases, tag, 0) {
                    lemma_variant_unmatched_prefix(cases, tag, 0, ci, body + rest, n);
                    lemma_decode_encode_fields(payload, cases[ci as int].payload, rest, 0);
                    assert(payload.skip(0) =~= payload);
                }
            }
        },
    }
}

/// A value that fits any declared shape is encodable: its counts all fit
/// this machine's wire headers, so [`crate::ser::to_bytes`] takes it.
pub proof fn lemma_compat_encodable(v: SpecValue, sh: SpecShape)
    requires
        compat(v, sh),
    ensures
        crate::ser::encodable(v),
    decreases v, sh,
{
    match sh {
        SpecShape::Optional(inner) => {
            if !(v is Absent) {
                lemma_compat_encodable(v, *inner);
            }
        },
        SpecShape::List(elem) => {
            if let SpecValue::List(vs) = v {
                assert forall|i: int| 0 <= i < vs.len() implies crate::ser::encodable(
                    #[trigger] vs[i],
                ) by {
                    lemma_compat_encodable(vs[i], *elem);
                }
            }
        },
        SpecShape::Tuple(parts) => {
            if let SpecValue::List(vs) = v {
                assert forall|i: int| 0 <= i < vs.len() implies crate::ser::encodable(
                    #[trigger] vs[i],
                ) by {
                    lemma_compat_encodable(vs[i], parts[i]);
                }
            }
        },
        SpecShape::Record { name, fields } => {
            if let SpecValue::Record { name: vn, fields: vf } = v {
                assert forall|i: int| 0 <= i < vf.len() implies crate::ser::encodable(
                    #[trigger] vf[i],
                ) by {
                    lemma_compat_encodable(vf[i], fields[i]);
                }
            }
        },
        SpecShape::Variant { cases } => {
            if let SpecValue::Variant { tag, payload } = v {
                if let Some(ci) = first_case_index(cases, tag, 0) {
                    assert forall|i: int| 0 <= i < payload.len() implies crate::ser::encodable(
                        #[trigger] payload[i],
                    ) by {
                        lemma_compat_encodable(payload[i], cases[ci as int].payload[i]);
                    }
                }
            }
        },
        _ => {},
    }
}

/// Name enforcement for records: decoding a record whose wire-encoded name
/// differs from the declared name fails with `MismatchedName`, whatever the
/// fields hold, as long as the declared arity matches the encoded one.
pub proof fn lemma_mismatched_record_name(
    v: SpecValue,
    declared: Seq<u8>,
    fshapes: Seq<SpecShape>,
    rest: Seq<u8>,
)
    requires
        v matches SpecValue::Record { name, fields } && name != declared && name.len()
            <= usize::MAX && fields.len() == fshapes.len() && fields.len() + 1 <= usize::MAX,
    ensures
        spec_decode(spec_encode(v) + rest, SpecShape::Record { name: declared, fields: fshapes })
            == Err::<(SpecValue, nat), Error>(Error::MismatchedName),
{
    if let SpecValue::Record { name: vn, fields: vf } = v {
        let s = spec_encode(v) + rest;
        let body = spec_encode_from(vf, 0);
        let nm = bulk_frame(vn);
        lemma_header_roundtrip(vf.len() + 1, nm + (body + rest));
        assert(s =~= header_frame(vf.len() + 1) + (nm + (body + rest)));
        let hu = header_frame(vf.len() + 1).len();
        assert(s.skip(hu as int) =~= nm + (body + rest));
        lemma_bulk_roundtrip(vn, body + rest);
    }
}

/// Name enforcement for variants: decoding a variant whose wire-encoded tag
/// matches none of the declared cases fails with `MismatchedName`.
pub proof fn lemma_mismatched_variant_tag(v: SpecValue, cases: Seq<SpecCase>, rest: Seq<u8>)
    requires
        v matches SpecValue::Variant { tag, payload } && tag.len() <= usize::MAX && payload.len()
            + 1 <= usize::MAX && first_case_index(cases, tag, 0) is None,
    ensures
        spec_decode(spec_encode(v) + rest, SpecShape::Variant { cases }) == Err::<
            (SpecValue, nat),
            Error,
        >(Error::MismatchedName),
{
    if let SpecValue::Variant { tag, payload } = v {
        let s = spec_encode(v) + rest;
        let body = spec_encode_from(payload, 0);
        let tg = bulk_frame(tag);
        let n = payload.len() + 1;
        lemma_header_roundtrip(n, tg + (body + rest));
        assert(s =~= header_frame(n) + (tg + (body + rest)));
        let hu = header_frame(n).len();
        assert(s.skip(hu as int) =~= tg + (body + rest));
        lemma_bulk_roundtrip(tag, body + rest);
        assert((tg + (body + rest)).skip(tg.len() as int) =~= body + rest);
        assert(s.skip((hu + tg.len()) as int) =~= body + rest);
        lemma_first_case_index(cases, tag, 0);
        lemma_variant_unmatched_prefix(cases, tag, 0, cases.len(), body + rest, n);
    }
}

/// Arity enforcement for records: a record header whose count differs from
/// the declared field count plus one fails with `MismatchedLengthHint`,
/// before any name or field is looked at.
pub proof fn lemma_mismatched_record_arity(
    v: SpecValue,
    declared: Seq<u8>,
    fshapes: Seq<SpecShape>,
    rest: Seq<u8>,
)
    requires
        v matches SpecValue::Record { name, fields } && name.len() <= usize::MAX && fields.len()
            != fshapes.len() && fields.len() + 1 <= usize::MAX,
    ensures
        spec_decode(spec_encode(v) + rest, SpecShape::Record { name: declared, fields: fshapes })
            == Err::<(SpecValue, nat), Error>(Error::MismatchedLengthHint),
{
    if let SpecValue::Record { name: vn, fields: vf } = v {
        let s = spec_encode(v) + rest;
        let body = spec_encode_from(vf, 0);
        let nm = bulk_frame(vn);
        lemma_header_roundtrip(vf.len() + 1, nm + (body + rest));
        assert(s =~= header_frame(vf.len() + 1) + (nm + (body + rest)));
    }
}

/// Null handling: the null bulk string decodes to absence under any
/// optional shape and under the unit shape, consuming its five bytes.
pub proof fn lemma_null_decodes_absent(inner: SpecShape, rest: Seq<u8>)
    ensures
        spec_decode(null_frame() + rest, SpecShape::Optional(Box::new(inner))) == Ok::<
            (SpecValue, nat),
            Error,
        >((SpecValue::Absent, 5)),
        spec_decode(null_frame() + rest, SpecShape::Unit) == Ok::<(SpecValue, nat), Error>(
            (SpecValue::Absent, 5),
        ),
{
    let s = null_frame() + rest;
    assert(s.take(5) =~= null_frame());
    lemma_null_frame_roundtrip(rest);
}

/// Null handling, the other direction: under any scalar shape the null bulk
/// string is an error, never silently read as a value or as absence.
pub proof fn lemma_null_scalar_errors(sh: SpecShape, rest: Seq<u8>)
    requires
        sh is Bool || sh is Unsigned || sh is Signed || sh is Char || sh is Bytes,
    ensures
        spec_decode(null_frame() + rest, sh) is Err,
{
    let s = null_frame() + rest;
    lemma_null_frame_roundtrip(rest);
    match sh {
        SpecShape::Bool => {
            if s.len() >= 10 {
                assert(s.take(10)[1] == DASH);
                assert(s.take(10) != true_frame());
                if s.len() >= 11 {
                    assert(s.take(11)[1] == DASH);
                    assert(s.take(11) != false_frame());
                }
            }
        },
        _ => {},
    }
}

/// Iterator termination on two back-to-back frames: the first decode takes
/// exactly the first encoding, the second decode takes exactly the rest, and
/// nothing remains.
pub proof fn lemma_two_frames(v1: SpecValue, v2: SpecValue, sh: SpecShape)
    requires
        compat(v1, sh),
        compat(v2, sh),
    ensures
        ({
            let s = spec_encode(v1) + spec_encode(v2);
            &&& spec_decode(s, sh) == Ok::<(SpecValue, nat), Error>((v1, spec_encode(v1).len()))
            &&& spec_decode(s.skip(spec_encode(v1).len() as int), sh) == Ok::<
                (SpecValue, nat),
                Error,
            >((v2, spec_encode(v2).len()))
            &&& spec_encode(v1).len() + spec_encode(v2).len() == s.len()
        }),
{
    let s = spec_encode(v1) + spec_encode(v2);
    lemma_decode_encode(v1, sh, spec_encode(v2));
    lemma_decode_encode(v2, sh, Seq::empty());
    assert(s.skip(spec_encode(v1).len() as int) =~= spec_encode(v2));
    assert(spec_encode(v2) + Seq::<u8>::empty() =~= spec_encode(v2));
}

} // verus!
