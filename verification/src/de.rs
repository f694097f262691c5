//! Decoding: a buffering reader over one attached byte stream, the frame
//! decoder for its primitives, and the shape-driven decode engine.
//!
//! The meaning of every decode is fixed by [`spec_decode`]: a total function
//! from the remaining input and the declared shape to either the decoded
//! value with the exact number of wire bytes it occupies, or the exact error
//! the engine reports. Nesting is driven by the shape declaration alone, so
//! decode recursion is bounded by the declaration and never by the input.

use vstd::prelude::*;

use crate::error::Error;
use crate::grammar::{
    all_digits, dec_val, first_lf, null_frame, spec_array_header, spec_bool_frame, spec_bulk,
    spec_char_frame, spec_length_hint, spec_line, spec_signed_frame, spec_unsigned_frame, CR,
    DASH, DIGIT0, DIGIT9, DOLLAR, LF, STAR,
};
use crate::shape::{case_views_of, shape_view, shape_views_of, Case, Shape, SpecCase, SpecShape};
use crate::value::{views_of, SpecValue, Value};

verus! {

/// Index of the first case in `cases[i..]` whose tag is `t`, if any.
pub open spec fn first_case_index(cases: Seq<SpecCase>, t: Seq<u8>, i: nat) -> Option<nat>
    decreases cases.len() - i,
{
    if i >= cases.len() {
        None
    } else if cases[i as int].tag == t {
        Some(i)
    } else {
        first_case_index(cases, t, (i + 1) as nat)
    }
}

/// What decoding one value of shape `sh` from the head of `s` yields: the
/// value and the bytes consumed, or the error.
pub open spec fn spec_decode(s: Seq<u8>, sh: SpecShape) -> Result<(SpecValue, nat), Error>
    decreases sh, 0nat, 0nat,
{
    match sh {
        SpecShape::Bool => match spec_bool_frame(s) {
            Ok((b, u)) => Ok((SpecValue::Bool(b), u)),
            Err(e) => Err(e),
        },
        SpecShape::Unsigned => match spec_unsigned_frame(s) {
            Ok((n, u)) => Ok((SpecValue::Unsigned(n), u)),
            Err(e) => Err(e),
        },
        SpecShape::Signed => match spec_signed_frame(s) {
            Ok((n, u)) => Ok((SpecValue::Signed(n), u)),
            Err(e) => Err(e),
        },
        SpecShape::Char => match spec_char_frame(s) {
            Ok((c, u)) => Ok((SpecValue::Char(c), u)),
            Err(e) => Err(e),
        },
        SpecShape::Bytes => match spec_bulk(s) {
            Ok((Some(b), u)) => Ok((SpecValue::Bytes(b), u)),
            Ok((None, _)) => Err(Error::ExpectedMoreBulkString),
            Err(e) => Err(e),
        },
        SpecShape::Unit => match spec_bulk(s) {
            Ok((Some(_), _)) => Err(Error::ExpectedNone),
            Ok((None, u)) => Ok((SpecValue::Absent, u)),
            Err(e) => Err(e),
        },
        SpecShape::Optional(inner) => {
            if s.len() >= 5 && s.take(5) == null_frame() {
                Ok((SpecValue::Absent, 5))
            } else {
                spec_decode(s, *inner)
            }
        },
        SpecShape::List(elem) => match spec_array_header(s) {
            Err(e) => Err(e),
            Ok((n, u)) => match spec_decode_elems(s.skip(u as int), *elem, n) {
                Err(e) => Err(e),
                Ok((vs, u2)) => Ok((SpecValue::List(vs), u + u2)),
            },
        },
        SpecShape::Tuple(parts) => match spec_array_header(s) {
            Err(e) => Err(e),
            Ok((n, u)) => match spec_decode_fields(s.skip(u as int), parts, 0, n) {
                Err(e) => Err(e),
                Ok((vs, u2)) => Ok((SpecValue::List(vs), u + u2)),
            },
        },
        SpecShape::Record { name, fields } => match spec_array_header(s) {
            Err(e) => Err(e),
            Ok((n, u)) => {
                if n != fields.len() + 1 {
                    Err(Error::MismatchedLengthHint)
                } else {
                    match spec_bulk(s.skip(u as int)) {
                        Err(e) => Err(e),
                        Ok((None, _)) => Err(Error::MismatchedName),
                        Ok((Some(m), u2)) => {
                            if m != name {
                                Err(Error::MismatchedName)
                            } else {
                                match spec_decode_fields(
                                    s.skip((u + u2) as int),
                                    fields,
                                    0,
                                    fields.len(),
                                ) {
                                    Err(e) => Err(e),
                                    Ok((vs, u3)) => Ok(
                                        (
                                            SpecValue::Record { name, fields: vs },
                                            u + u2 + u3,
                                        ),
                                    ),
                                }
                            }
                        },
                    }
                }
            },
        },
        SpecShape::Variant { cases } => match spec_array_header(s) {
            Err(e) => Err(e),
            Ok((n, u)) => match spec_bulk(s.skip(u as int)) {
                Err(e) => Err(e),
                Ok((None, _)) => Err(Error::MismatchedName),
                Ok((Some(t), u2)) => match spec_decode_variant(
                    s.skip((u + u2) as int),
                    cases,
                    0,
                    t,
                    n,
                ) {
                    Err(e) => Err(e),
                    Ok((v, u3)) => Ok((v, u + u2 + u3)),
                },
            },
        },
    }
}

/// Decoding of `n` elements of one shape, back to back.
pub open spec fn spec_decode_elems(s: Seq<u8>, elem: SpecShape, n: nat) -> Result<
    (Seq<SpecValue>, nat),
    Error,
>
    decreases elem, n, 1nat,
{
    if n == 0 {
        Ok((Seq::empty(), 0))
    } else {
        match spec_decode(s, elem) {
            Err(e) => Err(e),
            Ok((v, u)) => match spec_decode_elems(s.skip(u as int), elem, (n - 1) as nat) {
                Err(e) => Err(e),
                Ok((vs, u2)) => Ok((seq![v] + vs, u + u2)),
            },
        }
    }
}

/// Decoding of the declared shapes `shapes[i..]`, in order, while `avail`
/// elements remain under the enclosing array header. Asking for an element
/// beyond the header's count is `ExpectedMoreBulkString`; elements left over
/// when the shapes run out stay unconsumed for the caller.
pub open spec fn spec_decode_fields(
    s: Seq<u8>,
    shapes: Seq<SpecShape>,
    i: nat,
    avail: nat,
) -> Result<(Seq<SpecValue>, nat), Error>
    decreases shapes, shapes.len() - i, 1nat,
{
    if i >= shapes.len() {
        Ok((Seq::empty(), 0))
    } else if avail == 0 {
        Err(Error::ExpectedMoreBulkString)
    } else {
        match spec_decode(s, shapes[i as int]) {
            Err(e) => Err(e),
            Ok((v, u)) => match spec_decode_fields(
                s.skip(u as int),
                shapes,
                (i + 1) as nat,
                (avail - 1) as nat,
            ) {
                Err(e) => Err(e),
                Ok((vs, u2)) => Ok((seq![v] + vs, u + u2)),
            },
        }
    }
}

/// Case selection and payload decoding of a variant after its header count
/// `n` and tag `t` were read: the first case in `cases[i..]` whose tag is
/// `t` decides the payload shapes; no matching tag is `MismatchedName`. The
/// tag itself spent one of the header's elements, so a header that declared
/// none is `ExpectedMoreBulkString`, and a unit case demands that nothing
/// beyond the tag was declared.
pub open spec fn spec_decode_variant(
    s: Seq<u8>,
    cases: Seq<SpecCase>,
    i: nat,
    t: Seq<u8>,
    n: nat,
) -> Result<(SpecValue, nat), Error>
    decreases cases, cases.len() - i, 2nat,
{
    if i >= cases.len() {
        Err(Error::MismatchedName)
    } else if cases[i as int].tag == t {
        if n == 0 {
            Err(Error::ExpectedMoreBulkString)
        } else if cases[i as int].payload.len() == 0 && n != 1 {
            Err(Error::ExpectedDollarSign)
        } else {
            match spec_decode_fields(s, cases[i as int].payload, 0, (n - 1) as nat) {
                Err(e) => Err(e),
                Ok((vs, u)) => Ok((SpecValue::Variant { tag: t, payload: vs }, u)),
            }
        }
    } else {
        spec_decode_variant(s, cases, (i + 1) as nat, t, n)
    }
}

/// The buffering reader and decode engine over one attached byte stream.
///
/// The whole stream is attached up front as a byte buffer; the reader walks
/// it with a cursor that doubles as the cumulative byte offset: it never
/// decreases and is reset only by attaching a new stream through
/// [`Deserializer::from_bytes`].
pub struct Deserializer {
    data: Vec<u8>,
    pos: usize,
}

impl Deserializer {
    /// The whole attached stream.
    pub closed spec fn input(&self) -> Seq<u8> {
        self.data@
    }

    /// How many bytes have been consumed since the stream was attached.
    pub closed spec fn offset(&self) -> nat {
        self.pos as nat
    }

    /// The cursor never ran past the end of the attached stream.
    pub open spec fn wf(&self) -> bool {
        self.offset() <= self.input().len()
    }

    /// The bytes not yet consumed.
    pub open spec fn remaining(&self) -> Seq<u8> {
        self.input().skip(self.offset() as int)
    }

    /// Attaches a byte stream and starts the offset at zero.
    pub fn from_bytes(data: Vec<u8>) -> (d: Deserializer)
        ensures
            d.wf(),
            d.input() == data@,
            d.offset() == 0,
    {
        Deserializer { data, pos: 0 }
    }

    /// The cumulative count of consumed bytes.
    pub fn bytes_offset(&self) -> (r: usize)
        ensures
            r == self.offset(),
    {
        self.pos
    }

    /// The next unconsumed byte, without advancing.
    pub fn peek_char(&self) -> (r: Result<u8, Error>)
        requires
            self.wf(),
        ensures
            match r {
                Ok(c) => self.remaining().len() >= 1 && c == self.remaining()[0],
                Err(e) => e == Error::Eof && self.remaining().len() == 0,
            },
    {
        if self.pos < self.data.len() {
            Ok(self.data[self.pos])
        } else {
            Err(Error::Eof)
        }
    }

    /// The next `n` unconsumed bytes, without advancing; `Eof` when fewer
    /// are available.
    pub fn peek_nchar(&self, n: usize) -> (r: Result<&[u8], Error>)
        requires
            self.wf(),
        ensures
            match r {
                Ok(b) => n <= self.remaining().len() && b@ == self.remaining().take(n as int),
                Err(e) => e == Error::Eof && self.remaining().len() < n,
            },
    {
        if n <= self.data.len() - self.pos {
            let b = vstd::slice::slice_subrange(self.data.as_slice(), self.pos, self.pos + n);
            proof {
                assert(b@ =~= self.remaining().take(n as int));
            }
            Ok(b)
        } else {
            Err(Error::Eof)
        }
    }

    /// Advances past `n` already peeked bytes.
    pub fn consume(&mut self, n: usize)
        requires
            old(self).wf(),
            n <= old(self).remaining().len(),
        ensures
            final(self).wf(),
            final(self).input() == old(self).input(),
            final(self).offset() == old(self).offset() + n,
    {
        let total = self.data.len();
        proof {
            assert(self.pos + n <= total);
        }
        self.pos = self.pos + n;
    }

    /// Reads the next byte.
    pub fn next_char(&mut self) -> (r: Result<u8, Error>)
        requires
            old(self).wf(),
        ensures
            final(self).wf(),
            final(self).input() == old(self).input(),
            match r {
                Ok(c) => old(self).remaining().len() >= 1 && c == old(self).remaining()[0]
                    && final(self).offset() == old(self).offset() + 1,
                Err(e) => e == Error::Eof && old(self).remaining().len() == 0
                    && final(self).offset() == old(self).offset(),
            },
    {
        let c = match self.peek_char() {
            Ok(c) => c,
            Err(e) => {
                return Err(e);
            },
        };
        self.consume(1);
        Ok(c)
    }

    /// Reads and returns one whole line, up to and including its LF, which
    /// must be preceded by CR.
    pub fn next_lf(&mut self) -> (r: Result<Vec<u8>, Error>)
        requires
            old(self).wf(),
        ensures
            final(self).wf(),
            final(self).input() == old(self).input(),
            final(self).offset() >= old(self).offset(),
            match r {
                Ok(line) => spec_line(old(self).remaining()) == Ok::<Seq<u8>, Error>(line@)
                    && final(self).offset() == old(self).offset() + line@.len(),
                Err(e) => spec_line(old(self).remaining()) == Err::<Seq<u8>, Error>(e)
                    && final(self).offset() == old(self).offset(),
            },
    {
        let ghost rem = self.remaining();
        proof {
            crate::grammar::lemma_first_lf(rem);
        }
        let total = self.data.len();
        let mut i: usize = self.pos;
        while i < total && self.data[i] != LF
            invariant
                self == old(self),
                self.wf(),
                self.offset() <= i <= total,
                total == self.input().len(),
                rem == self.remaining(),
                forall|j: int| self.offset() <= j < i ==> self.input()[j] != LF,
            decreases total - i,
        {
            i = i + 1;
        }
        if i == total {
            return Err(Error::Eof);
        }
        proof {
            assert(rem[i - self.offset()] == LF);
            assert(first_lf(rem) == Some((i - self.offset()) as nat));
        }
        if i < self.pos + 1 || self.data[i - 1] != CR {
            return Err(Error::UnbalancedCRLF);
        }
        let mut line: Vec<u8> = Vec::new();
        let mut j: usize = self.pos;
        while j <= i
            invariant
                self == old(self),
                self.wf(),
                self.offset() <= j <= i + 1,
                i < total,
                total == self.input().len(),
                line@ == self.input().subrange(self.offset() as int, j as int),
            decreases i + 1 - j,
        {
            line.push(self.data[j]);
            j = j + 1;
        }
        proof {
            assert(line@ =~= rem.take(i - self.offset() + 1));
        }
        let n = i + 1 - self.pos;
        self.consume(n);
        Ok(line)
    }

    /// Reads one length-hint line: the null marker or a decimal count.
    pub fn next_length_hint(&mut self) -> (r: Result<Option<usize>, Error>)
        requires
            old(self).wf(),
        ensures
            final(self).wf(),
            final(self).input() == old(self).input(),
            final(self).offset() >= old(self).offset(),
            match spec_length_hint(old(self).remaining()) {
                Ok((hint, u)) => {
                    &&& final(self).offset() == old(self).offset() + u
                    &&& match (r, hint) {
                        (Ok(None), None) => true,
                        (Ok(Some(x)), Some(v)) => x == v,
                        _ => false,
                    }
                },
                Err(e) => r == Err::<Option<usize>, Error>(e),
            },
    {
        let ghost rem = self.remaining();
        let line = match self.next_lf() {
            Ok(l) => l,
            Err(e) => {
                return Err(e);
            },
        };
        let n = line.len();
        proof {
            crate::grammar::lemma_first_lf(rem);
            assert(n >= 2);
        }
        let ghost saved = *self;
        if line[0] == DASH {
            if n == 4 && line[1] == DIGIT0 + 1 && line[2] == CR && line[3] == LF {
                proof {
                    assert(line@ =~= crate::grammar::null_hint_line());
                }
                Ok(None)
            } else {
                proof {
                    assert(line@ != crate::grammar::null_hint_line());
                }
                Err(Error::BadLengthHint)
            }
        } else {
            let ghost content = line@.take(n - 2);
            let mut acc: usize = 0;
            let mut j: usize = 0;
            while j < n - 2
                invariant
                    *self == saved,
                    self.wf(),
                    self.input() == old(self).input(),
                    self.offset() == old(self).offset() + n,
                    spec_line(old(self).remaining()) == Ok::<Seq<u8>, Error>(line@),
                    line@[0] != DASH,
                    j <= n - 2,
                    n == line@.len(),
                    n >= 2,
                    n == line.len(),
                    content == line@.take(n - 2),
                    all_digits(content.take(j as int)),
                    acc == dec_val(content.take(j as int)),
                decreases n - 2 - j,
            {
                let c = line[j];
                if c < DIGIT0 || c > DIGIT9 {
                    proof {
                        assert(content[j as int] == c);
                        assert(!all_digits(content));
                    }
                    return Err(Error::BadLengthHint);
                }
                let d = (c - DIGIT0) as usize;
                proof {
                    crate::grammar::lemma_dec_val_take_step(content, j as int);
                    crate::grammar::lemma_dec_val_take_le(content, j + 1);
                    assert(acc <= (usize::MAX - d) / 10 <==> acc * 10 + d <= usize::MAX)
                        by (nonlinear_arith);
                }
                if acc > (usize::MAX - d) / 10 {
                    return Err(Error::BadLengthHint);
                }
                acc = acc * 10 + d;
                proof {
                    assert(content.take(j + 1int).drop_last() =~= content.take(j as int));
                }
                j = j + 1;
            }
            proof {
                assert(content.take(j as int) =~= content);
            }
            Ok(Some(acc))
        }
    }

    /// Reads one whole bulk-string frame: `None` for the null bulk string,
    /// otherwise the payload bytes with their terminator checked and removed.
    pub fn parse_bulk_string(&mut self) -> (r: Result<Option<Vec<u8>>, Error>)
        requires
            old(self).wf(),
        ensures
            final(self).wf(),
            final(self).input() == old(self).input(),
            final(self).offset() >= old(self).offset(),
            match spec_bulk(old(self).remaining()) {
                Ok((body, u)) => {
                    &&& final(self).offset() == old(self).offset() + u
                    &&& match (r, body) {
                        (Ok(None), None) => true,
                        (Ok(Some(v)), Some(b)) => v@ == b,
                        _ => false,
                    }
                },
                Err(e) => r == Err::<Option<Vec<u8>>, Error>(e),
            },
    {
        let ghost rem = self.remaining();
        let c = match self.next_char() {
            Ok(c) => c,
            Err(e) => {
                return Err(e);
            },
        };
        if c != DOLLAR {
            return Err(Error::ExpectedDollarSign);
        }
        proof {
            assert(self.remaining() =~= rem.skip(1));
        }
        let ghost after_sigil = self.remaining();
        let hint = match self.next_length_hint() {
            Ok(h) => h,
            Err(e) => {
                return Err(e);
            },
        };
        let len = match hint {
            None => {
                return Ok(None);
            },
            Some(len) => len,
        };
        let ghost u = spec_length_hint(after_sigil)->Ok_0.1;
        let ghost body = rem.skip(1 + u as int);
        proof {
            assert(body =~= self.remaining());
        }
        let total = self.data.len();
        let avail = total - self.pos;
        if avail < 2 || len > avail - 2 {
            return Err(Error::Eof);
        }
        if self.data[self.pos + len + 1] != LF {
            return Err(Error::ExpectedLF);
        }
        if self.data[self.pos + len] != CR {
            return Err(Error::UnbalancedCRLF);
        }
        let ghost saved = *self;
        let mut buf: Vec<u8> = Vec::new();
        let mut j: usize = 0;
        while j < len
            invariant
                *self == saved,
                self.wf(),
                j <= len,
                total == self.input().len(),
                len + 2 <= self.remaining().len(),
                body == self.remaining(),
                buf@ == body.take(j as int),
            decreases len - j,
        {
            buf.push(self.data[self.pos + j]);
            proof {
                assert(buf@ =~= body.take(j + 1int));
            }
            j = j + 1;
        }
        self.consume(len + 2);
        Ok(Some(buf))
    }

    /// Reads one boolean frame: exactly the closed `true` or `false`
    /// bulk-string literal.
    pub fn parse_bool(&mut self) -> (r: Result<bool, Error>)
        requires
            old(self).wf(),
        ensures
            final(self).wf(),
            final(self).input() == old(self).input(),
            final(self).offset() >= old(self).offset(),
            match spec_bool_frame(old(self).remaining()) {
                Ok((b, u)) => r == Ok::<bool, Error>(b) && final(self).offset() == old(
                    self,
                ).offset() + u,
                Err(e) => r == Err::<bool, Error>(e) && final(self).offset() == old(self).offset(),
            },
    {
        let t = match self.peek_nchar(10) {
            Ok(p) => {
                p[0] == DOLLAR && p[1] == DIGIT0 + 4 && p[2] == CR && p[3] == LF && p[4] == 116
                    && p[5] == 114 && p[6] == 117 && p[7] == 101 && p[8] == CR && p[9] == LF
            },
            Err(e) => {
                return Err(e);
            },
        };
        if t {
            proof {
                assert(old(self).remaining().take(10) =~= crate::grammar::true_frame());
            }
            self.consume(10);
            return Ok(true);
        }
        proof {
            assert(old(self).remaining().take(10) != crate::grammar::true_frame());
        }
        let f = match self.peek_nchar(11) {
            Ok(p) => {
                p[0] == DOLLAR && p[1] == DIGIT0 + 5 && p[2] == CR && p[3] == LF && p[4] == 102
                    && p[5] == 97 && p[6] == 108 && p[7] == 115 && p[8] == 101 && p[9] == CR
                    && p[10] == LF
            },
            Err(e) => {
                return Err(e);
            },
        };
        if f {
            proof {
                assert(old(self).remaining().take(11) =~= crate::grammar::false_frame());
            }
            self.consume(11);
            return Ok(false);
        }
        proof {
            assert(old(self).remaining().take(11) != crate::grammar::false_frame());
        }
        Err(Error::ExpectedBoolean)
    }

    /// Reads one numeric frame as an unsigned 64-bit integer.
    pub fn parse_unsigned(&mut self) -> (r: Result<u64, Error>)
        requires
            old(self).wf(),
        ensures
            final(self).wf(),
            final(self).input() == old(self).input(),
            final(self).offset() >= old(self).offset(),
            match spec_unsigned_frame(old(self).remaining()) {
                Ok((n, u)) => r == Ok::<u64, Error>(n) && final(self).offset() == old(
                    self,
                ).offset() + u,
                Err(e) => r == Err::<u64, Error>(e),
            },
    {
        let buf = match self.parse_bulk_string() {
            Ok(Some(buf)) => buf,
            Ok(None) => {
                return Err(Error::BadNumContent);
            },
            Err(e) => {
                return Err(e);
            },
        };
        proof {
            assert(buf@.skip(0) =~= buf@);
        }
        match digits_value(&buf, 0) {
            Some(v) => Ok(v),
            None => Err(Error::BadNumContent),
        }
    }

    /// Reads one numeric frame as a signed 64-bit integer, with one optional
    /// leading `-`.
    pub fn parse_signed(&mut self) -> (r: Result<i64, Error>)
        requires
            old(self).wf(),
        ensures
            final(self).wf(),
            final(self).input() == old(self).input(),
            final(self).offset() >= old(self).offset(),
            match spec_signed_frame(old(self).remaining()) {
                Ok((n, u)) => r == Ok::<i64, Error>(n) && final(self).offset() == old(
                    self,
                ).offset() + u,
                Err(e) => r == Err::<i64, Error>(e),
            },
    {
        let buf = match self.parse_bulk_string() {
            Ok(Some(buf)) => buf,
            Ok(None) => {
                return Err(Error::BadNumContent);
            },
            Err(e) => {
                return Err(e);
            },
        };
        let neg = buf.len() > 0 && buf[0] == DASH;
        let from: usize = if neg {
            1
        } else {
            0
        };
        proof {
            if !neg {
                assert(buf@.skip(0) =~= buf@);
            }
        }
        let m = match digits_value(&buf, from) {
            Some(m) => m,
            None => {
                return Err(Error::BadNumContent);
            },
        };
        if neg {
            if m > 0x8000_0000_0000_0000 {
                Err(Error::BadNumContent)
            } else if m == 0x8000_0000_0000_0000 {
                Ok(i64::MIN)
            } else {
                Ok(-(m as i64))
            }
        } else {
            if m > i64::MAX as u64 {
                Err(Error::BadNumContent)
            } else {
                Ok(m as i64)
            }
        }
    }

    /// Reads one array-header frame: the sigil `*` and a present element
    /// count. A null hint is `ExpectedArray`; there is no null array.
    pub fn read_array_header(&mut self) -> (r: Result<usize, Error>)
        requires
            old(self).wf(),
        ensures
            final(self).wf(),
            final(self).input() == old(self).input(),
            final(self).offset() >= old(self).offset(),
            match spec_array_header(old(self).remaining()) {
                Ok((n, u)) => r == Ok::<usize, Error>(n as usize) && n <= usize::MAX
                    && final(self).offset() == old(self).offset() + u,
                Err(e) => r == Err::<usize, Error>(e),
            },
    {
        let ghost rem = self.remaining();
        let c = match self.next_char() {
            Ok(c) => c,
            Err(e) => {
                return Err(e);
            },
        };
        if c != STAR {
            return Err(Error::ExpectedStarSign);
        }
        proof {
            assert(self.remaining() =~= rem.skip(1));
        }
        match self.next_length_hint() {
            Ok(Some(n)) => Ok(n),
            Ok(None) => Err(Error::ExpectedArray),
            Err(e) => Err(e),
        }
    }

    /// Reads one character frame: a bulk string whose content is the UTF-8
    /// encoding of exactly one character.
    pub fn parse_char(&mut self) -> (r: Result<char, Error>)
        requires
            old(self).wf(),
        ensures
            final(self).wf(),
            final(self).input() == old(self).input(),
            final(self).offset() >= old(self).offset(),
            match spec_char_frame(old(self).remaining()) {
                Ok((c, u)) => r == Ok::<char, Error>(c) && final(self).offset() == old(
                    self,
                ).offset() + u,
                Err(e) => r == Err::<char, Error>(e),
            },
    {
        let buf = match self.parse_bulk_string() {
            Ok(Some(buf)) => buf,
            Ok(None) => {
                return Err(Error::ExpectedChar);
            },
            Err(e) => {
                return Err(e);
            },
        };
        match char_of_content(&buf) {
            Some(c) => Ok(c),
            None => Err(Error::ExpectedChar),
        }
    }
}

/// Case selection is unmoved by skipping cases whose tags do not match.
pub proof fn lemma_variant_unmatched_prefix(
    cases: Seq<SpecCase>,
    t: Seq<u8>,
    i: nat,
    ci: nat,
    s: Seq<u8>,
    n: nat,
)
    requires
        i <= ci <= cases.len(),
        forall|j: int| i <= j < ci ==> cases[j].tag != t,
    ensures
        spec_decode_variant(s, cases, i, t, n) == spec_decode_variant(s, cases, ci, t, n),
    decreases ci - i,
{
    if i < ci {
        lemma_variant_unmatched_prefix(cases, t, (i + 1) as nat, ci, s, n);
    }
}

/// A partial element-decode result, put after `u0` already consumed bytes
/// that yielded the values `vs0`.
pub open spec fn prefixed(vs0: Seq<SpecValue>, u0: nat, r: Result<(Seq<SpecValue>, nat), Error>) -> Result<
    (Seq<SpecValue>, nat),
    Error,
> {
    match r {
        Ok((vs, u)) => Ok((vs0 + vs, u0 + u)),
        Err(e) => Err(e),
    }
}

impl Deserializer {
    /// Decodes one value of the declared shape from the attached stream,
    /// consuming exactly the matching wire bytes.
    #[verifier::loop_isolation(false)]
    #[verifier::rlimit(60)]
    pub fn decode(&mut self, shape: &Shape) -> (r: Result<Value, Error>)
        requires
            old(self).wf(),
        ensures
            final(self).wf(),
            final(self).input() == old(self).input(),
            final(self).offset() >= old(self).offset(),
            match spec_decode(old(self).remaining(), shape@) {
                Ok((v, u)) => {
                    &&& r is Ok
                    &&& r->Ok_0@ == v
                    &&& final(self).offset() == old(self).offset() + u
                },
                Err(e) => r == Err::<Value, Error>(e),
            },
        decreases *shape, 0nat,
    {
        let ghost rem0 = self.remaining();
        match shape {
            Shape::Bool => match self.parse_bool() {
                Ok(b) => Ok(Value::Bool(b)),
                Err(e) => Err(e),
            },
            Shape::Unsigned => match self.parse_unsigned() {
                Ok(n) => Ok(Value::Unsigned(n)),
                Err(e) => Err(e),
            },
            Shape::Signed => match self.parse_signed() {
                Ok(n) => Ok(Value::Signed(n)),
                Err(e) => Err(e),
            },
            Shape::Char => match self.parse_char() {
                Ok(c) => Ok(Value::Char(c)),
                Err(e) => Err(e),
            },
            Shape::Bytes => match self.parse_bulk_string() {
                Ok(Some(b)) => Ok(Value::Bytes(b)),
                Ok(None) => Err(Error::ExpectedMoreBulkString),
                Err(e) => Err(e),
            },
            Shape::Unit => match self.parse_bulk_string() {
                Ok(Some(_)) => Err(Error::ExpectedNone),
                Ok(None) => Ok(Value::Absent),
                Err(e) => Err(e),
            },
            Shape::Optional(inner) => {
                let is_null = match self.peek_nchar(5) {
                    Ok(p) => p[0] == DOLLAR && p[1] == DASH && p[2] == DIGIT0 + 1 && p[3] == CR
                        && p[4] == LF,
                    Err(_) => false,
                };
                if is_null {
                    proof {
                        assert(rem0.take(5) =~= null_frame());
                    }
                    self.consume(5);
                    Ok(Value::Absent)
                } else {
                    proof {
                        if rem0.len() >= 5 {
                            assert(rem0.take(5) != null_frame());
                        }
                    }
                    self.decode(inner)
                }
            },
            Shape::List(elem) => self.decode_list(elem),
            Shape::Tuple(parts) => {
                let n = match self.read_array_header() {
                    Ok(n) => n,
                    Err(e) => {
                        return Err(e);
                    },
                };
                proof {
                    let hu = spec_array_header(rem0)->Ok_0.1;
                    assert(self.remaining() =~= rem0.skip(hu as int));
                }
                match self.decode_fields(parts, n) {
                    Ok(items) => Ok(Value::List(items)),
                    Err(e) => Err(e),
                }
            },
            Shape::Record { name, fields } => self.decode_record(name, fields),
            Shape::Variant { cases } => self.decode_variant(cases),
        }
    }

    /// Decodes an array header and that many elements of one shape.
    #[verifier::loop_isolation(false)]
    fn decode_list(&mut self, elem: &Shape) -> (r: Result<Value, Error>)
        requires
            old(self).wf(),
        ensures
            final(self).wf(),
            final(self).input() == old(self).input(),
            final(self).offset() >= old(self).offset(),
            match spec_decode(
                old(self).remaining(),
                SpecShape::List(Box::new(shape_view(*elem))),
            ) {
                Ok((v, u)) => {
                    &&& r is Ok
                    &&& r->Ok_0@ == v
                    &&& final(self).offset() == old(self).offset() + u
                },
                Err(e) => r == Err::<Value, Error>(e),
            },
        decreases *elem, 1nat,
    {
        let ghost rem0 = self.remaining();
        let n = match self.read_array_header() {
            Ok(n) => n,
            Err(e) => {
                return Err(e);
            },
        };
        let ghost el = shape_view(*elem);
        let ghost s0 = self.remaining();
        let ghost off0 = self.offset();
        proof {
            let hu = spec_array_header(rem0)->Ok_0.1;
            assert(s0 =~= rem0.skip(hu as int));
        }
        let mut items: Vec<Value> = Vec::new();
        let mut i: usize = 0;
        proof {
            assert(views_of(items@) =~= Seq::<SpecValue>::empty());
            if spec_decode_elems(s0, el, n as nat) is Ok {
                assert(views_of(items@) + spec_decode_elems(s0, el, n as nat)->Ok_0.0
                    =~= spec_decode_elems(s0, el, n as nat)->Ok_0.0);
            }
        }
        while i < n
            invariant
                self.wf(),
                self.input() == old(self).input(),
                off0 <= self.offset() <= self.input().len(),
                i <= n,
                spec_decode_elems(s0, el, n as nat) == prefixed(
                    views_of(items@),
                    (self.offset() - off0) as nat,
                    spec_decode_elems(self.remaining(), el, (n - i) as nat),
                ),
            decreases n - i,
        {
            let ghost pre = *self;
            let v = match self.decode(elem) {
                Ok(v) => v,
                Err(e) => {
                    return Err(e);
                },
            };
            proof {
                let (sv, u) = spec_decode(pre.remaining(), el)->Ok_0;
                assert(self.remaining() =~= pre.remaining().skip(u as int));
                crate::value::lemma_views_of_push(items@, v);
                assert(views_of(items@.push(v)) =~= views_of(items@) + seq![v@]);
                let tail = spec_decode_elems(self.remaining(), el, (n - i - 1) as nat);
                if tail is Ok {
                    assert(views_of(items@) + (seq![sv] + tail->Ok_0.0) =~= (views_of(items@)
                        + seq![sv]) + tail->Ok_0.0);
                }
            }
            items.push(v);
            i = i + 1;
        }
        proof {
            assert(spec_decode_elems(self.remaining(), el, (n - i) as nat) == Ok::<
                (Seq<SpecValue>, nat),
                Error,
            >((Seq::empty(), 0)));
            assert(views_of(items@) + Seq::<SpecValue>::empty() =~= views_of(items@));
        }
        Ok(Value::List(items))
    }

    /// Decodes a record frame: its header, its name, then its fields.
    #[verifier::loop_isolation(false)]
    fn decode_record(&mut self, name: &Vec<u8>, fields: &Vec<Shape>) -> (r: Result<Value, Error>)
        requires
            old(self).wf(),
        ensures
            final(self).wf(),
            final(self).input() == old(self).input(),
            final(self).offset() >= old(self).offset(),
            match spec_decode(
                old(self).remaining(),
                SpecShape::Record { name: name@, fields: shape_views_of(fields@) },
            ) {
                Ok((v, u)) => {
                    &&& r is Ok
                    &&& r->Ok_0@ == v
                    &&& final(self).offset() == old(self).offset() + u
                },
                Err(e) => r == Err::<Value, Error>(e),
            },
        decreases *fields, 1nat,
    {
        let ghost rem0 = self.remaining();
        let n = match self.read_array_header() {
            Ok(n) => n,
            Err(e) => {
                return Err(e);
            },
        };
        proof {
            let hu = spec_array_header(rem0)->Ok_0.1;
            assert(self.remaining() =~= rem0.skip(hu as int));
        }
        if n < 1 || n - 1 != fields.len() {
            return Err(Error::MismatchedLengthHint);
        }
        let ghost s1 = self.remaining();
        let parsed = match self.parse_bulk_string() {
            Ok(Some(m)) => m,
            Ok(None) => {
                return Err(Error::MismatchedName);
            },
            Err(e) => {
                return Err(e);
            },
        };
        if !bytes_eq(&parsed, name) {
            return Err(Error::MismatchedName);
        }
        proof {
            let hu = spec_array_header(rem0)->Ok_0.1;
            let u2 = spec_bulk(s1)->Ok_0.1;
            assert(self.remaining() =~= rem0.skip((hu + u2) as int));
        }
        match self.decode_fields(fields, fields.len()) {
            Ok(items) => Ok(Value::Record { name: parsed, fields: items }),
            Err(e) => Err(e),
        }
    }

    /// Decodes a variant frame: its header, its tag, then the payload of the
    /// first declared case with that tag.
    #[verifier::loop_isolation(false)]
    fn decode_variant(&mut self, cases: &Vec<Case>) -> (r: Result<Value, Error>)
        requires
            old(self).wf(),
        ensures
            final(self).wf(),
            final(self).input() == old(self).input(),
            final(self).offset() >= old(self).offset(),
            match spec_decode(
                old(self).remaining(),
                SpecShape::Variant { cases: case_views_of(cases@) },
            ) {
                Ok((v, u)) => {
                    &&& r is Ok
                    &&& r->Ok_0@ == v
                    &&& final(self).offset() == old(self).offset() + u
                },
                Err(e) => r == Err::<Value, Error>(e),
            },
        decreases *cases, 1nat,
    {
        let ghost rem0 = self.remaining();
        let n = match self.read_array_header() {
            Ok(n) => n,
            Err(e) => {
                return Err(e);
            },
        };
        proof {
            let hu = spec_array_header(rem0)->Ok_0.1;
            assert(self.remaining() =~= rem0.skip(hu as int));
        }
        let ghost s1 = self.remaining();
        let tag = match self.parse_bulk_string() {
            Ok(Some(t)) => t,
            Ok(None) => {
                return Err(Error::MismatchedName);
            },
            Err(e) => {
                return Err(e);
            },
        };
        let ghost sp = self.remaining();
        let ghost cs = case_views_of(cases@);
        proof {
            let hu = spec_array_header(rem0)->Ok_0.1;
            let u2 = spec_bulk(s1)->Ok_0.1;
            assert(sp =~= rem0.skip((hu + u2) as int));
        }
        let k = cases.len();
        let mut ci: usize = 0;
        while ci < k && !bytes_eq(&cases[ci].tag, &tag)
            invariant
                ci <= k,
                forall|j: int| 0 <= j < ci ==> cs[j].tag != tag@,
            decreases k - ci,
        {
            ci = ci + 1;
        }
        if ci == k {
            proof {
                lemma_variant_unmatched_prefix(cs, tag@, 0, k as nat, sp, n as nat);
            }
            return Err(Error::MismatchedName);
        }
        proof {
            lemma_variant_unmatched_prefix(cs, tag@, 0, ci as nat, sp, n as nat);
        }
        if n == 0 {
            return Err(Error::ExpectedMoreBulkString);
        }
        let payload_len = cases[ci].payload.len();
        if payload_len == 0 && n != 1 {
            return Err(Error::ExpectedDollarSign);
        }
        match self.decode_fields(&cases[ci].payload, n - 1) {
            Ok(items) => Ok(Value::Variant { tag, payload: items }),
            Err(e) => Err(e),
        }
    }

    /// One caller-driven element request against the open cursor of an
    /// enclosing sequence, as a generic traversal makes them: the cursor
    /// counts the elements the array header still owes. Asking once the
    /// cursor is spent cleanly reports that no element remains — it is not
    /// an error — and touches nothing; stopping early instead and leaving
    /// elements unconsumed is the caller's own responsibility.
    pub fn next_element(&mut self, cnt: &mut u64, shape: &Shape) -> (r: Result<
        Option<Value>,
        Error,
    >)
        requires
            old(self).wf(),
        ensures
            final(self).wf(),
            final(self).input() == old(self).input(),
            final(self).offset() >= old(self).offset(),
            *old(cnt) == 0 ==> r == Ok::<Option<Value>, Error>(None) && *final(cnt) == 0
                && final(self).offset() == old(self).offset(),
            *old(cnt) > 0 ==> *final(cnt) == *old(cnt) - 1 && match spec_decode(
                old(self).remaining(),
                shape@,
            ) {
                Ok((v, u)) => {
                    &&& r matches Ok(Some(val))
                    &&& val@ == v
                    &&& final(self).offset() == old(self).offset() + u
                },
                Err(e) => r == Err::<Option<Value>, Error>(e),
            },
    {
        if *cnt == 0 {
            return Ok(None);
        }
        *cnt = *cnt - 1;
        match self.decode(shape) {
            Ok(v) => Ok(Some(v)),
            Err(e) => Err(e),
        }
    }

    /// Decodes one value per declared shape, in order, against a cursor of
    /// `avail` elements left under the enclosing array header.
    #[verifier::loop_isolation(false)]
    fn decode_fields(&mut self, shapes: &Vec<Shape>, avail: usize) -> (r: Result<Vec<Value>, Error>)
        requires
            old(self).wf(),
        ensures
            final(self).wf(),
            final(self).input() == old(self).input(),
            final(self).offset() >= old(self).offset(),
            match spec_decode_fields(
                old(self).remaining(),
                shape_views_of(shapes@),
                0,
                avail as nat,
            ) {
                Ok((vs, u)) => {
                    &&& r is Ok
                    &&& views_of(r->Ok_0@) == vs
                    &&& final(self).offset() == old(self).offset() + u
                },
                Err(e) => r == Err::<Vec<Value>, Error>(e),
            },
        decreases *shapes, 0nat,
    {
        let ghost s0 = self.remaining();
        let ghost off0 = self.offset();
        let ghost sh = shape_views_of(shapes@);
        let k = shapes.len();
        let avail0 = avail;
        let mut left = avail;
        let mut items: Vec<Value> = Vec::new();
        let mut i: usize = 0;
        proof {
            assert(views_of(items@) =~= Seq::<SpecValue>::empty());
            if spec_decode_fields(s0, sh, 0, avail0 as nat) is Ok {
                assert(views_of(items@) + spec_decode_fields(s0, sh, 0, avail0 as nat)->Ok_0.0
                    =~= spec_decode_fields(s0, sh, 0, avail0 as nat)->Ok_0.0);
            }
        }
        while i < k
            invariant
                self.wf(),
                self.input() == old(self).input(),
                off0 <= self.offset() <= self.input().len(),
                i <= k,
                i <= avail0,
                left == avail0 - i,
                spec_decode_fields(s0, sh, 0, avail0 as nat) == prefixed(
                    views_of(items@),
                    (self.offset() - off0) as nat,
                    spec_decode_fields(self.remaining(), sh, i as nat, (avail0 - i) as nat),
                ),
            decreases k - i,
        {
            if left == 0 {
                return Err(Error::ExpectedMoreBulkString);
            }
            let ghost pre = *self;
            let v = match self.decode(&shapes[i]) {
                Ok(v) => v,
                Err(e) => {
                    return Err(e);
                },
            };
            proof {
                assert(shape_view(shapes@[i as int]) == sh[i as int]);
                let (sv, u) = spec_decode(pre.remaining(), sh[i as int])->Ok_0;
                assert(self.remaining() =~= pre.remaining().skip(u as int));
                crate::value::lemma_views_of_push(items@, v);
                assert(views_of(items@.push(v)) =~= views_of(items@) + seq![v@]);
                let tail = spec_decode_fields(
                    self.remaining(),
                    sh,
                    (i + 1) as nat,
                    (avail0 - i - 1) as nat,
                );
                if tail is Ok {
                    assert(views_of(items@) + (seq![sv] + tail->Ok_0.0) =~= (views_of(items@)
                        + seq![sv]) + tail->Ok_0.0);
                }
            }
            items.push(v);
            left = left - 1;
            i = i + 1;
        }
        proof {
            assert(spec_decode_fields(self.remaining(), sh, i as nat, (avail0 - i) as nat)
                == Ok::<(Seq<SpecValue>, nat), Error>((Seq::empty(), 0)));
            assert(views_of(items@) + Seq::<SpecValue>::empty() =~= views_of(items@));
        }
        Ok(items)
    }
}

/// One-shot decode of one value from an in-memory buffer. After a
/// successful decode every byte of the buffer must have been consumed;
/// leftovers are `TrailingBytes`.
pub fn from_bytes(data: Vec<u8>, shape: &Shape) -> (r: Result<Value, Error>)
    ensures
        match spec_decode(data@, shape@) {
            Ok((v, u)) => {
                if u == data@.len() {
                    r is Ok && r->Ok_0@ == v
                } else {
                    r == Err::<Value, Error>(Error::TrailingBytes)
                }
            },
            Err(e) => r == Err::<Value, Error>(e),
        },
{
    let total = data.len();
    let mut de = Deserializer::from_bytes(data);
    proof {
        assert(de.remaining() =~= de.input());
    }
    let v = match de.decode(shape) {
        Ok(v) => v,
        Err(e) => {
            return Err(e);
        },
    };
    if de.bytes_offset() != total {
        return Err(Error::TrailingBytes);
    }
    Ok(v)
}

/// A lazy, destructive iteration over one continuing stream: each step
/// decodes one whole top-level value of one fixed shape, and the end of the
/// input ends the sequence instead of being an error.
pub struct IterDerserialzier {
    de: Deserializer,
    shape: Shape,
}

impl IterDerserialzier {
    /// The whole attached stream.
    pub closed spec fn input(&self) -> Seq<u8> {
        self.de.input()
    }

    /// How many bytes the steps so far have consumed.
    pub closed spec fn offset(&self) -> nat {
        self.de.offset()
    }

    /// The declared shape of every item.
    pub closed spec fn item_shape(&self) -> SpecShape {
        self.shape@
    }

    /// The cursor never ran past the end of the attached stream.
    pub open spec fn wf(&self) -> bool {
        self.offset() <= self.input().len()
    }

    /// The bytes not yet consumed.
    pub open spec fn remaining(&self) -> Seq<u8> {
        self.input().skip(self.offset() as int)
    }

    /// One step: `None` cleanly ends the sequence when the stream is
    /// exhausted; anything else is one full decode, yielded as one item.
    pub fn next(&mut self) -> (r: Option<Result<Value, Error>>)
        requires
            old(self).wf(),
        ensures
            final(self).wf(),
            final(self).input() == old(self).input(),
            final(self).item_shape() == old(self).item_shape(),
            match r {
                None => old(self).remaining().len() == 0 && final(self).offset() == old(
                    self,
                ).offset(),
                Some(item) => {
                    &&& old(self).remaining().len() > 0
                    &&& match spec_decode(old(self).remaining(), old(self).item_shape()) {
                        Ok((v, u)) => item is Ok && item->Ok_0@ == v && final(self).offset()
                            == old(self).offset() + u,
                        Err(e) => item == Err::<Value, Error>(e),
                    }
                },
            },
    {
        match self.de.peek_char() {
            Err(_) => None,
            Ok(_) => Some(self.de.decode(&self.shape)),
        }
    }
}

impl Deserializer {
    /// Turns the reader into a lazy iteration that decodes one value of the
    /// given shape per step from the rest of the stream.
    pub fn into_iter(self, shape: Shape) -> (it: IterDerserialzier)
        ensures
            it.wf() == self.wf(),
            it.input() == self.input(),
            it.offset() == self.offset(),
            it.item_shape() == shape@,
    {
        IterDerserialzier { de: self, shape }
    }
}

/// Whether two byte strings hold the same bytes.
fn bytes_eq(a: &Vec<u8>, b: &Vec<u8>) -> (r: bool)
    ensures
        r == (a@ == b@),
{
    if a.len() != b.len() {
        return false;
    }
    let n = a.len();
    let mut i: usize = 0;
    while i < n
        invariant
            i <= n,
            n == a@.len(),
            n == b@.len(),
            forall|j: int| 0 <= j < i ==> a@[j] == b@[j],
        decreases n - i,
    {
        if a[i] != b[i] {
            return false;
        }
        i = i + 1;
    }
    proof {
        assert(a@ =~= b@);
    }
    true
}

/// Relies on `char::from_u32`: `Some` of the character with that code
/// exactly when the value is a Unicode scalar, that is at most 0x10FFFF and
/// not in the surrogate range.
#[verifier::external_body]
fn char_from_u32(u: u32) -> (r: Option<char>)
    ensures
        vstd::utf8::is_scalar(u) ==> r == Some(u as char),
        !vstd::utf8::is_scalar(u) ==> r is None,
{
    char::from_u32(u)
}

/// The one character `b` is the UTF-8 encoding of, if any: the bytes must be
/// exactly one well-formed scalar encoding, neither overlong nor a
/// surrogate.
fn char_of_content(b: &Vec<u8>) -> (r: Option<char>)
    ensures
        r == crate::grammar::char_content(b@),
{
    let n = b.len();
    if n == 1 {
        let b0 = b[0];
        if b0 <= 0x7F {
            proof {
                assert(b0 & 0x7F == b0) by (bit_vector)
                    requires
                        b0 <= 0x7F,
                ;
            }
            char_from_u32(b0 as u32)
        } else {
            None
        }
    } else if n == 2 {
        let b0 = b[0];
        let b1 = b[1];
        if 0xC0 <= b0 && b0 <= 0xDF && 0x80 <= b1 && b1 <= 0xBF {
            let u = (((b0 & 0x1F) as u32) << 6u32) | ((b1 & 0x3F) as u32);
            proof {
                assert((((b0 & 0x1F) as u32) << 6u32) | ((b1 & 0x3F) as u32) <= 0x7FF)
                    by (bit_vector);
            }
            if u >= 0x80 {
                char_from_u32(u)
            } else {
                None
            }
        } else {
            None
        }
    } else if n == 3 {
        let b0 = b[0];
        let b1 = b[1];
        let b2 = b[2];
        if 0xE0 <= b0 && b0 <= 0xEF && 0x80 <= b1 && b1 <= 0xBF && 0x80 <= b2 && b2 <= 0xBF {
            let u = (((b0 & 0x0F) as u32) << 12u32) | (((b1 & 0x3F) as u32) << 6u32) | ((b2
                & 0x3F) as u32);
            proof {
                assert((((b0 & 0x0F) as u32) << 12u32) | (((b1 & 0x3F) as u32) << 6u32) | ((b2
                    & 0x3F) as u32) <= 0xFFFF) by (bit_vector);
            }
            if u >= 0x800 && !(0xD800 <= u && u <= 0xDFFF) {
                char_from_u32(u)
            } else {
                None
            }
        } else {
            None
        }
    } else if n == 4 {
        let b0 = b[0];
        let b1 = b[1];
        let b2 = b[2];
        let b3 = b[3];
        if 0xF0 <= b0 && b0 <= 0xF7 && 0x80 <= b1 && b1 <= 0xBF && 0x80 <= b2 && b2 <= 0xBF
            && 0x80 <= b3 && b3 <= 0xBF {
            let u = (((b0 & 0x07) as u32) << 18u32) | (((b1 & 0x3F) as u32) << 12u32) | (((b2
                & 0x3F) as u32) << 6u32) | ((b3 & 0x3F) as u32);
            if 0x10000 <= u && u <= 0x10FFFF {
                char_from_u32(u)
            } else {
                None
            }
        } else {
            None
        }
    } else {
        None
    }
}

/// The decimal value of the digit run `b[from..]`, or `None` when a byte is
/// no digit or the value overflows 64 bits.
fn digits_value(b: &Vec<u8>, from: usize) -> (r: Option<u64>)
    requires
        from <= b@.len(),
    ensures
        match r {
            Some(v) => all_digits(b@.skip(from as int)) && dec_val(b@.skip(from as int)) == v,
            None => !all_digits(b@.skip(from as int)) || dec_val(b@.skip(from as int))
                > u64::MAX,
        },
{
    let ghost content = b@.skip(from as int);
    let n = b.len();
    let mut acc: u64 = 0;
    let mut j: usize = from;
    while j < n
        invariant
            from <= j <= n,
            n == b@.len(),
            content == b@.skip(from as int),
            all_digits(content.take(j - from)),
            acc == dec_val(content.take(j - from)),
        decreases n - j,
    {
        let c = b[j];
        if c < DIGIT0 || c > DIGIT9 {
            proof {
                assert(content[j - from] == c);
                assert(!all_digits(content));
            }
            return None;
        }
        let d = (c - DIGIT0) as u64;
        proof {
            crate::grammar::lemma_dec_val_take_step(content, j - from);
            crate::grammar::lemma_dec_val_take_le(content, j - from + 1);
            assert(acc <= (u64::MAX - d) / 10 <==> acc * 10 + d <= u64::MAX) by (nonlinear_arith);
        }
        if acc > (u64::MAX - d) / 10 {
            return None;
        }
        acc = acc * 10 + d;
        j = j + 1;
    }
    proof {
        assert(content.take(j - from) =~= content);
    }
    Some(acc)
}

} // verus!
