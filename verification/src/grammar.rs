//! The wire grammar, as mathematics.
//!
//! Every frame of the wire format is described here by a total spec function
//! from the remaining input bytes to either the decoded datum together with
//! the number of bytes it occupies, or the exact error the codec reports.
//! The executable reader and decoder are verified against these functions.

use vstd::prelude::*;

use crate::error::Error;

verus! {

/// Carriage return, the first byte of the two-byte line terminator.
pub const CR: u8 = 13;

/// Line feed, the second byte of the two-byte line terminator.
pub const LF: u8 = 10;

/// The sigil that opens a bulk-string frame.
pub const DOLLAR: u8 = 36;

/// The sigil that opens an array-header frame.
pub const STAR: u8 = 42;

/// The minus sign, opening the null length hint and negative numbers.
pub const DASH: u8 = 45;

/// The byte `'0'`.
pub const DIGIT0: u8 = 48;

/// The byte `'9'`.
pub const DIGIT9: u8 = 57;

/// Position of the first LF in `s`, if any.
pub open spec fn first_lf(s: Seq<u8>) -> Option<nat>
    decreases s.len(),
{
    if s.len() == 0 {
        None
    } else if s[0] == LF {
        Some(0nat)
    } else {
        match first_lf(s.skip(1)) {
            None => None,
            Some(i) => Some((i + 1) as nat),
        }
    }
}

/// What [`first_lf`] returns: the position of the first LF when there is
/// one, and `None` exactly when `s` holds no LF at all.
pub proof fn lemma_first_lf(s: Seq<u8>)
    ensures
        match first_lf(s) {
            None => forall|i: int| 0 <= i < s.len() ==> s[i] != LF,
            Some(k) => k < s.len() && s[k as int] == LF && (forall|i: int|
                0 <= i < k ==> s[i] != LF),
        },
    decreases s.len(),
{
    if s.len() != 0 && s[0] != LF {
        lemma_first_lf(s.skip(1));
        assert forall|i: int| 0 <= i < s.len() && i >= 1 implies s[i] == s.skip(1)[i - 1] by {}
    }
}

/// One line of input: the bytes of `s` up to and including the first LF,
/// which must be preceded by CR. `Eof` when no LF arrives before the input
/// ends; `UnbalancedCRLF` when the line is shorter than two bytes or the
/// byte before its LF is not CR.
pub open spec fn spec_line(s: Seq<u8>) -> Result<Seq<u8>, Error> {
    match first_lf(s) {
        None => Err(Error::Eof),
        Some(i) => {
            if i < 1 || s[i - 1] != CR {
                Err(Error::UnbalancedCRLF)
            } else {
                Ok(s.take(i + 1int))
            }
        },
    }
}

/// Whether every byte of `b` is an ASCII decimal digit.
pub open spec fn all_digits(b: Seq<u8>) -> bool {
    forall|i: int| 0 <= i < b.len() ==> DIGIT0 <= #[trigger] b[i] <= DIGIT9
}

/// The numeric value of one digit byte; zero for anything else.
pub open spec fn digit_val(c: u8) -> nat {
    if DIGIT0 <= c <= DIGIT9 {
        (c - DIGIT0) as nat
    } else {
        0
    }
}

/// The base-10 value of a digit string.
pub open spec fn dec_val(b: Seq<u8>) -> nat
    decreases b.len(),
{
    if b.len() == 0 {
        0
    } else {
        dec_val(b.drop_last()) * 10 + digit_val(b.last())
    }
}

/// Extending a digit string by one byte multiplies its value by ten and
/// adds the new digit.
pub proof fn lemma_dec_val_take_step(b: Seq<u8>, j: int)
    requires
        0 <= j < b.len(),
    ensures
        dec_val(b.take(j + 1)) == dec_val(b.take(j)) * 10 + digit_val(b[j]),
{
    assert(b.take(j + 1).drop_last() =~= b.take(j));
    assert(b.take(j + 1).last() == b[j]);
}

/// A prefix of a byte string never has a larger value than the whole.
pub proof fn lemma_dec_val_take_le(b: Seq<u8>, j: int)
    requires
        0 <= j <= b.len(),
    ensures
        dec_val(b.take(j)) <= dec_val(b),
    decreases b.len() - j,
{
    if j < b.len() {
        lemma_dec_val_take_step(b, j);
        lemma_dec_val_take_le(b, j + 1);
    } else {
        assert(b.take(j) =~= b);
    }
}

/// The shortest decimal digit string for `n`.
pub open spec fn dec_digits(n: nat) -> Seq<u8>
    decreases n,
{
    if n < 10 {
        seq![(DIGIT0 + n) as u8]
    } else {
        dec_digits(n / 10).push((DIGIT0 + n % 10) as u8)
    }
}

/// The decimal digit string for a signed value: a leading `-` and the digits
/// of the magnitude when negative.
pub open spec fn dec_signed_digits(i: int) -> Seq<u8> {
    if i < 0 {
        seq![DASH] + dec_digits((-i) as nat)
    } else {
        dec_digits(i as nat)
    }
}

/// The line announcing a null bulk string or null array: `-1` then CRLF.
pub open spec fn null_hint_line() -> Seq<u8> {
    seq![DASH, (DIGIT0 + 1) as u8, CR, LF]
}

/// The whole null bulk-string frame, `$-1` then CRLF.
pub open spec fn null_frame() -> Seq<u8> {
    seq![DOLLAR, DASH, (DIGIT0 + 1) as u8, CR, LF]
}

/// A length hint: one line that is either the null marker (`None`) or a
/// digit string (`Some` of its value). Any other leading-`-` line, a
/// non-digit, or a value that does not fit in `usize` is `BadLengthHint`.
pub open spec fn spec_length_hint(s: Seq<u8>) -> Result<(Option<nat>, nat), Error> {
    match spec_line(s) {
        Err(e) => Err(e),
        Ok(line) => {
            if line[0] == DASH {
                if line == null_hint_line() {
                    Ok((None, line.len()))
                } else {
                    Err(Error::BadLengthHint)
                }
            } else {
                let content = line.take(line.len() - 2);
                if !all_digits(content) {
                    Err(Error::BadLengthHint)
                } else if dec_val(content) > usize::MAX {
                    Err(Error::BadLengthHint)
                } else {
                    Ok((Some(dec_val(content)), line.len()))
                }
            }
        },
    }
}

/// A bulk-string frame: the sigil `$`, a length hint, and for a present hint
/// of value `len` exactly `len` payload bytes closed by CRLF. `None` stands
/// for the null bulk string.
pub open spec fn spec_bulk(s: Seq<u8>) -> Result<(Option<Seq<u8>>, nat), Error> {
    if s.len() == 0 {
        Err(Error::Eof)
    } else if s[0] != DOLLAR {
        Err(Error::ExpectedDollarSign)
    } else {
        match spec_length_hint(s.skip(1)) {
            Err(e) => Err(e),
            Ok((None, u)) => Ok((None, 1 + u)),
            Ok((Some(len), u)) => {
                let body = s.skip(1 + u as int);
                if body.len() < len + 2 {
                    Err(Error::Eof)
                } else if body[len as int + 1] != LF {
                    Err(Error::ExpectedLF)
                } else if body[len as int] != CR {
                    Err(Error::UnbalancedCRLF)
                } else {
                    Ok((Some(body.take(len as int)), 1 + u + len + 2))
                }
            },
        }
    }
}

/// An array-header frame: the sigil `*` and a present length hint. A null
/// hint is a structural error here; there is no null array.
pub open spec fn spec_array_header(s: Seq<u8>) -> Result<(nat, nat), Error> {
    if s.len() == 0 {
        Err(Error::Eof)
    } else if s[0] != STAR {
        Err(Error::ExpectedStarSign)
    } else {
        match spec_length_hint(s.skip(1)) {
            Err(e) => Err(e),
            Ok((None, _)) => Err(Error::ExpectedArray),
            Ok((Some(n), u)) => Ok((n, 1 + u)),
        }
    }
}

/// The closed wire encoding of boolean true: a 4-byte bulk string `true`.
pub open spec fn true_frame() -> Seq<u8> {
    seq![DOLLAR, (DIGIT0 + 4) as u8, CR, LF, 116, 114, 117, 101, CR, LF]
}

/// The closed wire encoding of boolean false: a 5-byte bulk string `false`.
pub open spec fn false_frame() -> Seq<u8> {
    seq![DOLLAR, (DIGIT0 + 5) as u8, CR, LF, 102, 97, 108, 115, 101, CR, LF]
}

/// A boolean frame: exactly [`true_frame`] or [`false_frame`], recognized by
/// looking at the next 10 or 11 bytes. Anything else of sufficient length is
/// `ExpectedBoolean`; shorter input is `Eof`.
pub open spec fn spec_bool_frame(s: Seq<u8>) -> Result<(bool, nat), Error> {
    if s.len() < 10 {
        Err(Error::Eof)
    } else if s.take(10) == true_frame() {
        Ok((true, 10))
    } else if s.len() < 11 {
        Err(Error::Eof)
    } else if s.take(11) == false_frame() {
        Ok((false, 11))
    } else {
        Err(Error::ExpectedBoolean)
    }
}

/// A numeric frame holding an unsigned 64-bit value: a present bulk string
/// of decimal digits. A null bulk string, a non-digit byte, or a value that
/// overflows 64 bits is `BadNumContent`.
pub open spec fn spec_unsigned_frame(s: Seq<u8>) -> Result<(u64, nat), Error> {
    match spec_bulk(s) {
        Err(e) => Err(e),
        Ok((None, _)) => Err(Error::BadNumContent),
        Ok((Some(b), u)) => {
            if !all_digits(b) {
                Err(Error::BadNumContent)
            } else if dec_val(b) > u64::MAX {
                Err(Error::BadNumContent)
            } else {
                Ok((dec_val(b) as u64, u))
            }
        },
    }
}

/// A numeric frame holding a signed 64-bit value: like
/// [`spec_unsigned_frame`] but for one optional leading `-`. A magnitude
/// outside the 64-bit signed range is `BadNumContent`.
pub open spec fn spec_signed_frame(s: Seq<u8>) -> Result<(i64, nat), Error> {
    match spec_bulk(s) {
        Err(e) => Err(e),
        Ok((None, _)) => Err(Error::BadNumContent),
        Ok((Some(b), u)) => {
            let neg = b.len() > 0 && b[0] == DASH;
            let digits = if neg {
                b.skip(1)
            } else {
                b
            };
            if !all_digits(digits) {
                Err(Error::BadNumContent)
            } else if neg && dec_val(digits) > 0x8000_0000_0000_0000 {
                Err(Error::BadNumContent)
            } else if !neg && dec_val(digits) > i64::MAX {
                Err(Error::BadNumContent)
            } else if neg {
                Ok(((-(dec_val(digits) as int)) as i64, u))
            } else {
                Ok((dec_val(digits) as i64, u))
            }
        },
    }
}

/// The character a bulk string's content stands for: defined exactly when
/// the content is the UTF-8 encoding of one Unicode scalar.
pub open spec fn char_content(b: Seq<u8>) -> Option<char> {
    if vstd::utf8::valid_first_scalar(b) && vstd::utf8::length_of_first_scalar(b) == b.len() {
        Some(vstd::utf8::decode_first_scalar(b) as char)
    } else {
        None
    }
}

/// A character frame: a present bulk string whose content encodes exactly
/// one character. A null bulk string or any other content is `ExpectedChar`.
pub open spec fn spec_char_frame(s: Seq<u8>) -> Result<(char, nat), Error> {
    match spec_bulk(s) {
        Err(e) => Err(e),
        Ok((None, _)) => Err(Error::ExpectedChar),
        Ok((Some(b), u)) => match char_content(b) {
            Some(c) => Ok((c, u)),
            None => Err(Error::ExpectedChar),
        },
    }
}

/// A whole bulk-string frame for a given payload: `$`, the payload length in
/// decimal, CRLF, the payload, CRLF.
pub open spec fn bulk_frame(b: Seq<u8>) -> Seq<u8> {
    seq![DOLLAR] + dec_digits(b.len()) + seq![CR, LF] + b + seq![CR, LF]
}

/// A whole array-header frame for a given element count: `*`, the count in
/// decimal, CRLF.
pub open spec fn header_frame(n: nat) -> Seq<u8> {
    seq![STAR] + dec_digits(n) + seq![CR, LF]
}

/// Ten to the `k`.
pub open spec fn pow10(k: nat) -> nat
    decreases k,
{
    if k == 0 {
        1
    } else {
        10 * pow10((k - 1) as nat)
    }
}

/// The digit string of `n` is nonempty, all digits, free of LF and DASH,
/// and stands for `n`.
pub proof fn lemma_dec_digits(n: nat)
    ensures
        dec_digits(n).len() >= 1,
        all_digits(dec_digits(n)),
        dec_val(dec_digits(n)) == n,
        forall|i: int| 0 <= i < dec_digits(n).len() ==> dec_digits(n)[i] != LF,
        dec_digits(n)[0] != DASH,
    decreases n,
{
    if n < 10 {
        let d = dec_digits(n);
        assert(d.drop_last() =~= Seq::<u8>::empty());
        assert(d.last() == (DIGIT0 + n) as u8);
        assert(dec_val(d) == dec_val(Seq::<u8>::empty()) * 10 + digit_val(d.last()));
        assert(digit_val((DIGIT0 + n) as u8) == n);
    } else {
        lemma_dec_digits(n / 10);
        let d = dec_digits(n);
        assert(d.drop_last() =~= dec_digits(n / 10));
        assert(d.last() == (DIGIT0 + n % 10) as u8);
        assert(digit_val((DIGIT0 + n % 10) as u8) == n % 10);
        vstd::arithmetic::div_mod::lemma_fundamental_div_mod(n as int, 10);
        assert(dec_val(d) == dec_val(dec_digits(n / 10)) * 10 + digit_val(d.last()));
        assert(dec_val(d) == (n / 10) * 10 + n % 10);
        assert((n / 10) * 10 + n % 10 == n);
    }
}

/// A value below `pow10(k)` has at most `k` digits.
pub proof fn lemma_dec_digits_len(n: nat, k: nat)
    requires
        n < pow10(k),
        k >= 1,
    ensures
        dec_digits(n).len() <= k,
    decreases k,
{
    if n >= 10 {
        assert(pow10(k) == 10 * pow10((k - 1) as nat));
        assert(n / 10 < pow10((k - 1) as nat)) by (nonlinear_arith)
            requires
                n < 10 * pow10((k - 1) as nat),
        ;
        lemma_dec_digits_len(n / 10, (k - 1) as nat);
    }
}

/// Any 64-bit value has at most 20 digits.
pub proof fn lemma_dec_digits_len_u64(n: nat)
    requires
        n <= u64::MAX,
    ensures
        dec_digits(n).len() <= 20,
{
    assert(pow10(20) == 100000000000000000000) by {
        reveal_with_fuel(pow10, 21);
    }
    lemma_dec_digits_len(n, 20);
}

/// The first LF of an LF-free prefix closed by CRLF sits right after the
/// prefix's CR.
pub proof fn lemma_first_lf_concat(a: Seq<u8>, rest: Seq<u8>)
    requires
        forall|i: int| 0 <= i < a.len() ==> a[i] != LF,
    ensures
        first_lf(a + seq![CR, LF] + rest) == Some((a.len() + 1) as nat),
    decreases a.len(),
{
    let s = a + seq![CR, LF] + rest;
    if a.len() == 0 {
        assert(s[0] == CR);
        assert(s.skip(1)[0] == LF);
        assert(first_lf(s.skip(1)) == Some(0nat));
    } else {
        assert(s[0] == a[0]);
        assert(a[0] != LF);
        lemma_first_lf_concat(a.skip(1), rest);
        assert(s.skip(1) =~= a.skip(1) + seq![CR, LF] + rest);
        assert(first_lf(s.skip(1)) == Some(a.len() as nat));
    }
}

/// A line of LF-free content closed by CRLF reads back as exactly that line.
pub proof fn lemma_line_concat(a: Seq<u8>, rest: Seq<u8>)
    requires
        forall|i: int| 0 <= i < a.len() ==> a[i] != LF,
    ensures
        spec_line(a + seq![CR, LF] + rest) == Ok::<Seq<u8>, Error>(a + seq![CR, LF]),
{
    let s = a + seq![CR, LF] + rest;
    lemma_first_lf_concat(a, rest);
    assert(s[a.len() as int] == CR);
    assert(s.take(a.len() + 2int) =~= a + seq![CR, LF]);
}

/// A written length hint reads back as its value.
pub proof fn lemma_hint_roundtrip(n: nat, rest: Seq<u8>)
    requires
        n <= usize::MAX,
    ensures
        spec_length_hint(dec_digits(n) + seq![CR, LF] + rest) == Ok::<(Option<nat>, nat), Error>(
            (Some(n), dec_digits(n).len() + 2),
        ),
{
    lemma_dec_digits(n);
    lemma_line_concat(dec_digits(n), rest);
    let line = dec_digits(n) + seq![CR, LF];
    assert(line[0] == dec_digits(n)[0]);
    assert(line.take(line.len() - 2) =~= dec_digits(n));
}

/// The written null marker reads back as absence.
pub proof fn lemma_null_hint_roundtrip(rest: Seq<u8>)
    ensures
        spec_length_hint(null_hint_line() + rest) == Ok::<(Option<nat>, nat), Error>((None, 4)),
{
    let a = seq![DASH, (DIGIT0 + 1) as u8];
    assert(a + seq![CR, LF] =~= null_hint_line());
    assert(null_hint_line() + rest =~= a + seq![CR, LF] + rest);
    lemma_line_concat(a, rest);
}

/// A written bulk-string frame reads back as its payload.
#[verifier::rlimit(50)]
pub proof fn lemma_bulk_roundtrip(b: Seq<u8>, rest: Seq<u8>)
    requires
        b.len() <= usize::MAX,
    ensures
        spec_bulk(bulk_frame(b) + rest) == Ok::<(Option<Seq<u8>>, nat), Error>(
            (Some(b), bulk_frame(b).len()),
        ),
        bulk_frame(b).len() == dec_digits(b.len()).len() + b.len() + 5,
        bulk_frame(b)[0] == DOLLAR,
        bulk_frame(b)[1] != DASH,
{
    let s = bulk_frame(b) + rest;
    let dd = dec_digits(b.len());
    lemma_dec_digits(b.len());
    assert(s[0] == DOLLAR);
    assert(s.skip(1) =~= dd + seq![CR, LF] + (b + seq![CR, LF] + rest));
    lemma_hint_roundtrip(b.len(), b + seq![CR, LF] + rest);
    let u = dd.len() + 2;
    let body = s.skip(1).skip(u as int);
    assert(body =~= b + seq![CR, LF] + rest);
    assert(s.skip(1 + u as int) =~= body);
    assert(body[b.len() as int] == CR);
    assert(body[b.len() + 1int] == LF);
    assert(body.take(b.len() as int) =~= b);
}

/// The written null bulk string reads back as the null bulk string.
pub proof fn lemma_null_frame_roundtrip(rest: Seq<u8>)
    ensures
        spec_bulk(null_frame() + rest) == Ok::<(Option<Seq<u8>>, nat), Error>((None, 5)),
{
    let s = null_frame() + rest;
    assert(s[0] == DOLLAR);
    assert(s.skip(1) =~= null_hint_line() + rest);
    lemma_null_hint_roundtrip(rest);
}

/// A written array header reads back as its element count.
pub proof fn lemma_header_roundtrip(n: nat, rest: Seq<u8>)
    requires
        n <= usize::MAX,
    ensures
        spec_array_header(header_frame(n) + rest) == Ok::<(nat, nat), Error>(
            (n, header_frame(n).len()),
        ),
        header_frame(n).len() == dec_digits(n).len() + 3,
        header_frame(n)[0] == STAR,
{
    let s = header_frame(n) + rest;
    lemma_dec_digits(n);
    assert(s[0] == STAR);
    assert(s.skip(1) =~= dec_digits(n) + seq![CR, LF] + rest);
    lemma_hint_roundtrip(n, rest);
}

/// A written boolean frame reads back as its value.
pub proof fn lemma_bool_roundtrip(b: bool, rest: Seq<u8>)
    ensures
        b ==> spec_bool_frame(true_frame() + rest) == Ok::<(bool, nat), Error>((true, 10)),
        !b ==> spec_bool_frame(false_frame() + rest) == Ok::<(bool, nat), Error>((false, 11)),
{
    if b {
        let s = true_frame() + rest;
        assert(s.take(10) =~= true_frame());
    } else {
        let s = false_frame() + rest;
        assert(s.take(10)[1] == (DIGIT0 + 5) as u8);
        assert(s.take(10) != true_frame());
        assert(s.take(11) =~= false_frame());
    }
}

/// A written unsigned numeric frame reads back as its value.
pub proof fn lemma_unsigned_roundtrip(n: u64, rest: Seq<u8>)
    ensures
        spec_unsigned_frame(bulk_frame(dec_digits(n as nat)) + rest) == Ok::<(u64, nat), Error>(
            (n, bulk_frame(dec_digits(n as nat)).len()),
        ),
{
    lemma_dec_digits(n as nat);
    lemma_dec_digits_len_u64(n as nat);
    lemma_bulk_roundtrip(dec_digits(n as nat), rest);
}

/// A written signed numeric frame reads back as its value.
pub proof fn lemma_signed_roundtrip(i: i64, rest: Seq<u8>)
    ensures
        spec_signed_frame(bulk_frame(dec_signed_digits(i as int)) + rest) == Ok::<
            (i64, nat),
            Error,
        >((i, bulk_frame(dec_signed_digits(i as int)).len())),
{
    let b = dec_signed_digits(i as int);
    if i >= 0 {
        lemma_dec_digits(i as nat);
        lemma_dec_digits_len_u64(i as nat);
        lemma_bulk_roundtrip(b, rest);
    } else {
        let mag = (-(i as int)) as nat;
        lemma_dec_digits(mag);
        lemma_dec_digits_len_u64(mag);
        assert(b.len() <= 21);
        lemma_bulk_roundtrip(b, rest);
        assert(b[0] == DASH);
        assert(b.skip(1) =~= dec_digits(mag));
    }
}

/// A written character frame reads back as its character.
pub proof fn lemma_char_roundtrip(c: char, rest: Seq<u8>)
    ensures
        spec_char_frame(bulk_frame(vstd::utf8::encode_scalar(c as u32)) + rest) == Ok::<
            (char, nat),
            Error,
        >((c, bulk_frame(vstd::utf8::encode_scalar(c as u32)).len())),
{
    let b = vstd::utf8::encode_scalar(c as u32);
    vstd::utf8::char_is_scalar(c);
    assert(b.len() <= 4);
    lemma_bulk_roundtrip(b, rest);
    vstd::utf8::encode_utf8_first_scalar(seq![c]);
    assert(seq![c].drop_first() =~= Seq::<char>::empty());
    assert(vstd::utf8::encode_utf8(Seq::<char>::empty()) =~= Seq::<u8>::empty());
    assert(vstd::utf8::encode_utf8(seq![c]) =~= b);
    vstd::utf8::char_u32_cast(c, c as u32);
    assert(char_content(b) == Some(c));
}

} // verus!
