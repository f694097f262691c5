//! Encoding: the structural mirror of decoding. A value already knows its
//! own shape, so encoding needs no negotiation: every value of the model has
//! exactly one wire image, given by [`spec_encode`].

use vstd::prelude::*;

use crate::error::Error;
use crate::grammar::{
    bulk_frame, dec_digits, dec_signed_digits, false_frame, header_frame, null_frame, true_frame,
    CR, DASH, DIGIT0, DOLLAR, LF, STAR,
};
use crate::value::{views_of, SpecValue, Value};

verus! {

/// The wire image of one value.
pub open spec fn spec_encode(v: SpecValue) -> Seq<u8>
    decreases v, 0nat,
{
    match v {
        SpecValue::Bool(b) => if b {
            true_frame()
        } else {
            false_frame()
        },
        SpecValue::Unsigned(n) => bulk_frame(dec_digits(n as nat)),
        SpecValue::Signed(i) => bulk_frame(dec_signed_digits(i as int)),
        SpecValue::Char(c) => bulk_frame(vstd::utf8::encode_scalar(c as u32)),
        SpecValue::Bytes(b) => bulk_frame(b),
        SpecValue::Absent => null_frame(),
        SpecValue::List(vs) => header_frame(vs.len()) + spec_encode_from(vs, 0),
        SpecValue::Record { name, fields } => header_frame(fields.len() + 1) + bulk_frame(name)
            + spec_encode_from(fields, 0),
        SpecValue::Variant { tag, payload } => header_frame(payload.len() + 1) + bulk_frame(tag)
            + spec_encode_from(payload, 0),
    }
}

/// The concatenated wire images of `vs[i..]`.
pub open spec fn spec_encode_from(vs: Seq<SpecValue>, i: nat) -> Seq<u8>
    decreases vs, vs.len() - i, 1nat,
{
    if i >= vs.len() {
        Seq::empty()
    } else {
        spec_encode(vs[i as int]) + spec_encode_from(vs, (i + 1) as nat)
    }
}

/// Whether the machine can hold every count the encoding writes: each
/// record's and variant's element count must leave room for the one extra
/// name element of its header.
pub open spec fn encodable(v: SpecValue) -> bool
    decreases v,
{
    match v {
        SpecValue::Bool(_) => true,
        SpecValue::Unsigned(_) => true,
        SpecValue::Signed(_) => true,
        SpecValue::Char(_) => true,
        SpecValue::Bytes(b) => b.len() <= usize::MAX,
        SpecValue::Absent => true,
        SpecValue::List(vs) => vs.len() <= usize::MAX && (forall|i: int|
            0 <= i < vs.len() ==> encodable(#[trigger] vs[i])),
        SpecValue::Record { name, fields } => name.len() <= usize::MAX && fields.len()
            < usize::MAX && (forall|i: int| 0 <= i < fields.len() ==> encodable(
            #[trigger] fields[i],
        )),
        SpecValue::Variant { tag, payload } => tag.len() <= usize::MAX && payload.len()
            < usize::MAX && (forall|i: int| 0 <= i < payload.len() ==> encodable(
            #[trigger] payload[i],
        )),
    }
}

/// Appends the decimal digit string of `n`.
fn push_decimal(out: &mut Vec<u8>, n: u64)
    ensures
        final(out)@ == old(out)@ + dec_digits(n as nat),
    decreases n,
{
    if n < 10 {
        out.push(DIGIT0 + n as u8);
        proof {
            assert(out@ =~= old(out)@ + dec_digits(n as nat));
        }
    } else {
        push_decimal(out, n / 10);
        out.push(DIGIT0 + (n % 10) as u8);
        proof {
            assert(out@ =~= old(out)@ + dec_digits(n as nat));
        }
    }
}

/// Appends the decimal digit string of a signed value, `-` first when it is
/// negative.
fn push_signed_decimal(out: &mut Vec<u8>, i: i64)
    ensures
        final(out)@ == old(out)@ + dec_signed_digits(i as int),
{
    if i >= 0 {
        push_decimal(out, i as u64);
    } else {
        out.push(DASH);
        let mag: u64 = if i == i64::MIN {
            9223372036854775808u64
        } else {
            (-i) as u64
        };
        push_decimal(out, mag);
        proof {
            assert(out@ =~= old(out)@ + dec_signed_digits(i as int));
        }
    }
}

/// Appends the UTF-8 bytes of one character.
fn push_char_utf8(out: &mut Vec<u8>, c: char)
    ensures
        final(out)@ == old(out)@ + vstd::utf8::encode_scalar(c as u32),
{
    let u = c as u32;
    proof {
        vstd::utf8::char_is_scalar(c);
    }
    if u <= 0x7F {
        proof {
            assert(u & 0x7F == u) by (bit_vector)
                requires
                    u <= 0x7F,
            ;
        }
        out.push(u as u8);
    } else if u <= 0x7FF {
        out.push(0xC0 | ((u >> 6u32) & 0x1F) as u8);
        out.push(0x80 | (u & 0x3F) as u8);
    } else if u <= 0xFFFF {
        out.push(0xE0 | ((u >> 12u32) & 0x0F) as u8);
        out.push(0x80 | ((u >> 6u32) & 0x3F) as u8);
        out.push(0x80 | (u & 0x3F) as u8);
    } else {
        out.push(0xF0 | ((u >> 18u32) & 0x07) as u8);
        out.push(0x80 | ((u >> 12u32) & 0x3F) as u8);
        out.push(0x80 | ((u >> 6u32) & 0x3F) as u8);
        out.push(0x80 | (u & 0x3F) as u8);
    }
    proof {
        assert(out@ =~= old(out)@ + vstd::utf8::encode_scalar(c as u32));
    }
}

/// The frame writer: output grows at its end only, one frame per call.
pub struct Serializer {
    output: Vec<u8>,
}

impl Serializer {
    /// Everything written so far.
    pub closed spec fn out(&self) -> Seq<u8> {
        self.output@
    }

    /// A writer with empty output.
    pub fn new() -> (s: Serializer)
        ensures
            s.out() == Seq::<u8>::empty(),
    {
        Serializer { output: Vec::new() }
    }

    /// Hands the written bytes out.
    pub fn into_bytes(self) -> (r: Vec<u8>)
        ensures
            r@ == self.out(),
    {
        self.output
    }

    /// Appends one whole bulk-string frame for the element.
    pub fn append_element(&mut self, element: &[u8])
        ensures
            final(self).out() == old(self).out() + bulk_frame(element@),
    {
        self.output.push(DOLLAR);
        push_decimal(&mut self.output, element.len() as u64);
        self.output.push(CR);
        self.output.push(LF);
        let n = element.len();
        let ghost mid = self.output@;
        let mut i: usize = 0;
        while i < n
            invariant
                i <= n,
                n == element@.len(),
                self.output@ == mid + element@.take(i as int),
            decreases n - i,
        {
            self.output.push(element[i]);
            proof {
                assert(mid + element@.take(i + 1int) =~= (mid + element@.take(i as int)).push(
                    element@[i as int],
                ));
            }
            i = i + 1;
        }
        self.output.push(CR);
        self.output.push(LF);
        proof {
            assert(element@.take(n as int) =~= element@);
            assert(final(self).out() =~= old(self).out() + bulk_frame(element@));
        }
    }

    /// Appends one array-header frame announcing `n` elements.
    fn append_header(&mut self, n: usize)
        ensures
            final(self).out() == old(self).out() + header_frame(n as nat),
    {
        self.output.push(STAR);
        push_decimal(&mut self.output, n as u64);
        self.output.push(CR);
        self.output.push(LF);
        proof {
            assert(final(self).out() =~= old(self).out() + header_frame(n as nat));
        }
    }

    /// Appends the 5-byte null bulk string that encodes absence.
    fn append_null(&mut self)
        ensures
            final(self).out() == old(self).out() + null_frame(),
    {
        self.output.push(DOLLAR);
        self.output.push(DASH);
        self.output.push(DIGIT0 + 1);
        self.output.push(CR);
        self.output.push(LF);
        proof {
            assert(final(self).out() =~= old(self).out() + null_frame());
        }
    }

    /// Appends the wire encoding of one value.
    #[verifier::loop_isolation(false)]
    pub fn encode_value(&mut self, v: &Value)
        requires
            encodable(v@),
        ensures
            final(self).out() == old(self).out() + spec_encode(v@),
        decreases *v,
    {
        match v {
            Value::Bool(b) => {
                if *b {
                    let word: [u8; 4] = [116, 114, 117, 101];
                    self.append_element(word.as_slice());
                    proof {
                        assert(dec_digits(4) =~= seq![(DIGIT0 + 4) as u8]);
                        assert(bulk_frame(word@) =~= true_frame());
                    }
                } else {
                    let word: [u8; 5] = [102, 97, 108, 115, 101];
                    self.append_element(word.as_slice());
                    proof {
                        assert(dec_digits(5) =~= seq![(DIGIT0 + 5) as u8]);
                        assert(bulk_frame(word@) =~= false_frame());
                    }
                }
            },
            Value::Unsigned(n) => {
                let mut digits: Vec<u8> = Vec::new();
                push_decimal(&mut digits, *n);
                proof {
                    assert(digits@ =~= dec_digits(*n as nat));
                }
                self.append_element(digits.as_slice());
            },
            Value::Signed(i) => {
                let mut digits: Vec<u8> = Vec::new();
                push_signed_decimal(&mut digits, *i);
                proof {
                    assert(digits@ =~= dec_signed_digits(*i as int));
                }
                self.append_element(digits.as_slice());
            },
            Value::Char(c) => {
                let mut bytes: Vec<u8> = Vec::new();
                push_char_utf8(&mut bytes, *c);
                proof {
                    assert(bytes@ =~= vstd::utf8::encode_scalar(*c as u32));
                }
                self.append_element(bytes.as_slice());
            },
            Value::Bytes(b) => {
                self.append_element(b.as_slice());
            },
            Value::Absent => {
                self.append_null();
            },
            Value::List(vs) => {
                self.append_header(vs.len());
                self.encode_elements(vs);
            },
            Value::Record { name, fields } => {
                self.append_header(fields.len() + 1);
                self.append_element(name.as_slice());
                self.encode_elements(fields);
                proof {
                    assert(final(self).out() =~= old(self).out() + spec_encode(v@));
                }
            },
            Value::Variant { tag, payload } => {
                self.append_header(payload.len() + 1);
                self.append_element(tag.as_slice());
                self.encode_elements(payload);
                proof {
                    assert(final(self).out() =~= old(self).out() + spec_encode(v@));
                }
            },
        }
    }

    /// Appends the wire encodings of every value in the sequence, in order.
    #[verifier::loop_isolation(false)]
    fn encode_elements(&mut self, vs: &Vec<Value>)
        requires
            forall|i: int| 0 <= i < vs@.len() ==> encodable(#[trigger] views_of(vs@)[i]),
        ensures
            final(self).out() == old(self).out() + spec_encode_from(views_of(vs@), 0),
        decreases *vs,
    {
        let ghost vws = views_of(vs@);
        let k = vs.len();
        let mut i: usize = 0;
        proof {
            assert(old(self).out() + spec_encode_from(vws, 0) =~= self.out() + spec_encode_from(
                vws,
                0,
            ));
        }
        while i < k
            invariant
                i <= k,
                self.out() + spec_encode_from(vws, i as nat) == old(self).out()
                    + spec_encode_from(vws, 0),
            decreases k - i,
        {
            let ghost pre = self.out();
            self.encode_value(&vs[i]);
            proof {
                assert((pre + spec_encode(vws[i as int])) + spec_encode_from(vws, (i + 1) as nat)
                    =~= pre + (spec_encode(vws[i as int]) + spec_encode_from(vws, (i + 1) as nat)));
            }
            i = i + 1;
        }
        proof {
            assert(spec_encode_from(vws, k as nat) =~= Seq::<u8>::empty());
            assert(self.out() + Seq::<u8>::empty() =~= self.out());
        }
    }
}

/// Encodes one value to its wire bytes. The value model has no floats and no
/// maps, so encoding cannot fail; the `Result` keeps the call shape of a
/// fallible encoder.
pub fn to_bytes(value: &Value) -> (r: Result<Vec<u8>, Error>)
    requires
        encodable(value@),
    ensures
        r is Ok,
        r->Ok_0@ == spec_encode(value@),
{
    let mut s = Serializer::new();
    s.encode_value(value);
    proof {
        assert(Seq::<u8>::empty() + spec_encode(value@) =~= spec_encode(value@));
    }
    Ok(s.into_bytes())
}

} // verus!
