//! Primitive decoders: bytes to text, bytes to fixed-width unsigned
//! numbers, and numbers back to their decimal digits. Pure, no I/O.

use vstd::prelude::*;
use vstd::utf8::valid_utf8;
use vstd::utf8::decode_utf8;
use crate::errors::TcpTransportError;
use crate::errors::TcpTransportResult;
use crate::wire::dec_repr;
use crate::wire::dec_value;
use crate::wire::is_dec_digit;
use crate::wire::is_dec_digits;

verus! {

/// Relies on `String::from_utf8`: it returns a string exactly when the input
/// is valid UTF-8 in the sense of `vstd::utf8::valid_utf8`, and that string
/// holds the characters `vstd::utf8::decode_utf8` reads from those bytes.
#[verifier::external_body]
fn string_from_utf8(bytes: Vec<u8>) -> (r: Option<String>)
    ensures
        r is Some <==> valid_utf8(bytes@),
        r matches Some(s) ==> s@ == decode_utf8(bytes@),
{
    String::from_utf8(bytes).ok()
}

/// An all-ASCII byte sequence is valid UTF-8.
pub proof fn lemma_ascii_valid_utf8(s: Seq<u8>)
    requires
        forall|i: int| 0 <= i < s.len() ==> #[trigger] s[i] < 0x80,
    ensures
        valid_utf8(s),
{
    assert(s.subrange(0, 0) =~= Seq::<u8>::empty());
    assert(valid_utf8(Seq::<u8>::empty()));
    assert forall|i: int|
        0 <= 0 <= i < s.len() <= s.len() implies #[trigger] vstd::utf8::is_leading_byte_width_1(
        s[i],
    ) by {
        assert(s[i] < 0x80);
    }
    vstd::utf8::partial_valid_utf8_extend_ascii_block(s, 0, s.len() as int);
    assert(s.subrange(0, s.len() as int) =~= s);
}

/// Converts a byte sequence to its text, or fails with `Utf8Error`: success
/// exactly on valid UTF-8.
pub fn as_string(bytes: Vec<u8>) -> (r: TcpTransportResult<String>)
    ensures
        r is Ok <==> valid_utf8(bytes@),
        r matches Ok(s) ==> s@ == decode_utf8(bytes@),
        r matches Err(e) ==> e == TcpTransportError::Utf8Error,
{
    match string_from_utf8(bytes) {
        Some(s) => Ok(s),
        None => Err(TcpTransportError::Utf8Error),
    }
}

/// The value of a digit prefix never exceeds the value of the whole digit
/// sequence.
pub proof fn lemma_dec_value_prefix_le(s: Seq<u8>, j: int)
    requires
        0 <= j <= s.len(),
        forall|i: int| 0 <= i < s.len() ==> is_dec_digit(#[trigger] s[i]),
    ensures
        dec_value(s.take(j)) <= dec_value(s),
    decreases s.len(),
{
    if j < s.len() {
        let t = s.drop_last();
        assert(forall|i: int| 0 <= i < t.len() ==> is_dec_digit(#[trigger] t[i]));
        lemma_dec_value_prefix_le(t, j);
        assert(t.take(j) =~= s.take(j));
        assert(dec_value(s) == dec_value(t) * 10 + (s.last() - 48));
        assert(dec_value(t) * 10 >= dec_value(t));
    } else {
        assert(s.take(j) =~= s);
    }
}

/// Strict decimal reading of a whole byte sequence into a `u64`: digits
/// only, no sign, no space, and the value must fit.
pub fn parse_dec_u64(bytes: &Vec<u8>) -> (r: Option<u64>)
    ensures
        r is Some <==> is_dec_digits(bytes@) && dec_value(bytes@) <= u64::MAX,
        r matches Some(v) ==> v as nat == dec_value(bytes@),
{
    if bytes.len() == 0 {
        return None;
    }
    let mut acc: u64 = 0;
    let mut i: usize = 0;
    while i < bytes.len()
        invariant
            0 <= i <= bytes.len(),
            forall|k: int| 0 <= k < i ==> is_dec_digit(#[trigger] bytes@[k]),
            acc as nat == dec_value(bytes@.take(i as int)),
        decreases bytes.len() - i,
    {
        let b = bytes[i];
        if b < 48 || b > 57 {
            return None;
        }
        let d: u64 = (b - 48) as u64;
        if acc > (u64::MAX - d) / 10 {
            proof {
                let p = bytes@.take(i as int + 1);
                assert(p.drop_last() =~= bytes@.take(i as int));
                assert(p.last() == bytes@[i as int]);
                assert(dec_value(p) == acc * 10 + d);
                assert(acc * 10 + d > u64::MAX) by (nonlinear_arith)
                    requires
                        acc > (u64::MAX - d) / 10,
                        0 <= d <= 9,
                ;
                if is_dec_digits(bytes@) {
                    lemma_dec_value_prefix_le(bytes@, i as int + 1);
                }
            }
            return None;
        }
        proof {
            assert(acc * 10 + d <= u64::MAX) by (nonlinear_arith)
                requires
                    acc <= (u64::MAX - d) / 10,
                    0 <= d <= 9,
            ;
            let p = bytes@.take(i as int + 1);
            assert(p.drop_last() =~= bytes@.take(i as int));
            assert(p.last() == bytes@[i as int]);
        }
        acc = acc * 10 + d;
        i = i + 1;
    }
    proof {
        assert(bytes@.take(i as int) =~= bytes@);
    }
    Some(acc)
}

/// A fixed-width unsigned target of the strict decimal decoder.
pub trait DecNumber: Sized {
    /// The largest value the width holds.
    spec fn dec_max() -> nat;

    /// The number this value denotes.
    spec fn dec_val(self) -> nat;

    /// The width never exceeds 64 bits.
    proof fn dec_max_fits()
        ensures
            Self::dec_max() <= u64::MAX,
    ;

    /// Narrow a `u64`, reporting a value beyond the width.
    fn dec_try_from_u64(v: u64) -> (r: Option<Self>)
        ensures
            r is Some <==> v as nat <= Self::dec_max(),
            r matches Some(n) ==> n.dec_val() == v as nat,
    ;
}

impl DecNumber for u16 {
    open spec fn dec_max() -> nat {
        u16::MAX as nat
    }

    open spec fn dec_val(self) -> nat {
        self as nat
    }

    proof fn dec_max_fits() {
    }

    fn dec_try_from_u64(v: u64) -> (r: Option<u16>) {
        if v <= u16::MAX as u64 {
            Some(v as u16)
        } else {
            None
        }
    }
}

impl DecNumber for u32 {
    open spec fn dec_max() -> nat {
        u32::MAX as nat
    }

    open spec fn dec_val(self) -> nat {
        self as nat
    }

    proof fn dec_max_fits() {
    }

    fn dec_try_from_u64(v: u64) -> (r: Option<u32>) {
        if v <= u32::MAX as u64 {
            Some(v as u32)
        } else {
            None
        }
    }
}

impl DecNumber for u64 {
    open spec fn dec_max() -> nat {
        u64::MAX as nat
    }

    open spec fn dec_val(self) -> nat {
        self as nat
    }

    proof fn dec_max_fits() {
    }

    fn dec_try_from_u64(v: u64) -> (r: Option<u64>) {
        Some(v)
    }
}

/// Decodes a numeric field: the bytes must be text (else `Utf8Error`), and
/// that text must be a strict decimal that fits the target width (else
/// `NumberParseError`).
pub fn as_number<N: DecNumber>(bytes: Vec<u8>) -> (r: TcpTransportResult<N>)
    ensures
        r is Ok <==> valid_utf8(bytes@) && is_dec_digits(bytes@) && dec_value(bytes@)
            <= N::dec_max(),
        r matches Ok(n) ==> n.dec_val() == dec_value(bytes@),
        r matches Err(e) ==> {
            &&& (e == TcpTransportError::Utf8Error <==> !valid_utf8(bytes@))
            &&& (e == TcpTransportError::NumberParseError <==> valid_utf8(bytes@) && !(
            is_dec_digits(bytes@) && dec_value(bytes@) <= N::dec_max()))
        },
{
    proof {
        N::dec_max_fits();
        if is_dec_digits(bytes@) {
            assert(forall|i: int| 0 <= i < bytes@.len() ==> #[trigger] bytes@[i] < 0x80);
            lemma_ascii_valid_utf8(bytes@);
        }
    }
    match parse_dec_u64(&bytes) {
        Some(v) => match N::dec_try_from_u64(v) {
            Some(n) => Ok(n),
            None => Err(TcpTransportError::NumberParseError),
        },
        None => match string_from_utf8(bytes) {
            Some(_) => Err(TcpTransportError::NumberParseError),
            None => Err(TcpTransportError::Utf8Error),
        },
    }
}

/// Whether two strings hold the same characters, decided on their UTF-8
/// bytes.
pub fn str_eq(a: &str, b: &str) -> (r: bool)
    ensures
        r == (a@ == b@),
{
    proof {
        vstd::utf8::encode_utf8_decode_utf8(a@);
        vstd::utf8::encode_utf8_decode_utf8(b@);
    }
    let ab = a.as_bytes();
    let bb = b.as_bytes();
    if ab.len() != bb.len() {
        return false;
    }
    let mut i: usize = 0;
    while i < ab.len()
        invariant
            i <= ab@.len(),
            ab@.len() == bb@.len(),
            ab@ == vstd::utf8::encode_utf8(a@),
            bb@ == vstd::utf8::encode_utf8(b@),
            vstd::utf8::decode_utf8(vstd::utf8::encode_utf8(a@)) == a@,
            vstd::utf8::decode_utf8(vstd::utf8::encode_utf8(b@)) == b@,
            forall|k: int| 0 <= k < i ==> ab@[k] == bb@[k],
        decreases ab@.len() - i,
    {
        if ab[i] != bb[i] {
            return false;
        }
        i = i + 1;
    }
    proof {
        assert(ab@ =~= bb@);
    }
    true
}

/// The canonical decimal digits of a number, as wire bytes.
pub fn dec_bytes_u64(v: u64) -> (r: Vec<u8>)
    ensures
        r@ == dec_repr(v as nat),
    decreases v,
{
    if v < 10 {
        let mut r: Vec<u8> = Vec::new();
        r.push(48 + v as u8);
        proof {
            assert(r@ =~= dec_repr(v as nat));
        }
        r
    } else {
        let mut r = dec_bytes_u64(v / 10);
        r.push(48 + (v % 10) as u8);
        proof {
            assert(r@ =~= dec_repr(v as nat));
        }
        r
    }
}

} // verus!
