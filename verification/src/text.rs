//! Rendering of numbers and bytes as text.

use vstd::prelude::*;
use vstd::slice::slice_subrange;
use vstd::string::*;
use vstd::utf8::*;

use crate::bytes::{bytes_below, bytes_lt, equal_bytes};

verus! {

/// The decimal digit that stands for `d`.
pub open spec fn digit(d: nat) -> char
    recommends
        d < 10,
{
    (('0' as nat) + d) as char
}

/// A natural number in decimal, without leading zeros.
pub open spec fn dec(n: nat) -> Seq<char>
    decreases n,
{
    if n < 10 {
        seq![digit(n)]
    } else {
        dec(n / 10).push(digit(n % 10))
    }
}

/// An integer in decimal, with a minus sign where it is negative.
pub open spec fn dec_int(n: int) -> Seq<char> {
    if n < 0 {
        "-"@ + dec((-n) as nat)
    } else {
        dec(n as nat)
    }
}

/// Renders one decimal digit.
fn digit_text(d: u8) -> (text: &'static str)
    requires
        d < 10,
    ensures
        text@ == seq![digit(d as nat)],
{
    proof {
        reveal_strlit("0");
        reveal_strlit("1");
        reveal_strlit("2");
        reveal_strlit("3");
        reveal_strlit("4");
        reveal_strlit("5");
        reveal_strlit("6");
        reveal_strlit("7");
        reveal_strlit("8");
        reveal_strlit("9");
    }
    match d {
        0 => "0",
        1 => "1",
        2 => "2",
        3 => "3",
        4 => "4",
        5 => "5",
        6 => "6",
        7 => "7",
        8 => "8",
        _ => "9",
    }
}

/// Appends a number in decimal.
pub fn put_dec(out: &mut String, n: u64)
    ensures
        final(out)@ == old(out)@ + dec(n as nat),
    decreases n,
{
    if n >= 10 {
        put_dec(out, n / 10);
    }
    let ghost before = out@;
    out.append(digit_text((n % 10) as u8));
    proof {
        if n >= 10 {
            assert(before + seq![digit((n % 10) as nat)] =~= old(out)@ + dec((n / 10) as nat).push(
                digit((n % 10) as nat),
            ));
        }
    }
}

/// Appends a length or count in decimal.
pub fn put_len_dec(out: &mut String, n: usize)
    ensures
        final(out)@ == old(out)@ + dec(n as nat),
{
    put_dec(out, n as u64)
}

/// Appends a signed number in decimal.
pub fn put_dec_int(out: &mut String, n: i64)
    ensures
        final(out)@ == old(out)@ + dec_int(n as int),
{
    if n < 0 {
        let magnitude: u64 = (-(n + 1)) as u64 + 1;
        let ghost before = out@;
        out.append("-");
        put_dec(out, magnitude);
        proof {
            assert((before + "-"@) + dec(magnitude as nat) =~= before + ("-"@ + dec(
                magnitude as nat,
            )));
        }
    } else {
        put_dec(out, n as u64);
    }
}

/// The lowercase hexadecimal digit that stands for `d`.
pub open spec fn hex_digit(d: nat) -> char
    recommends
        d < 16,
{
    if d < 10 {
        (('0' as nat) + d) as char
    } else {
        (('a' as nat) + (d - 10) as nat) as char
    }
}

/// Bytes in lowercase hexadecimal, two digits each, high half first.
pub open spec fn hex(bytes: Seq<u8>) -> Seq<char> {
    Seq::new(
        2 * bytes.len(),
        |i: int|
            hex_digit(
                if i % 2 == 0 {
                    bytes[i / 2] as nat / 16
                } else {
                    bytes[i / 2] as nat % 16
                },
            ),
    )
}

/// The value of a hexadecimal digit of either case, written as an ASCII byte.
pub open spec fn unhex(c: u8) -> Option<nat> {
    if 0x30 <= c <= 0x39 {
        Some((c - 0x30) as nat)
    } else if 0x61 <= c <= 0x66 {
        Some((c - 0x61 + 10) as nat)
    } else if 0x41 <= c <= 0x46 {
        Some((c - 0x41 + 10) as nat)
    } else {
        None
    }
}

/// Whether every byte is a hexadecimal digit of either case.
pub open spec fn all_hex(text: Seq<u8>) -> bool {
    forall|i: int| 0 <= i < text.len() ==> unhex(#[trigger] text[i]) is Some
}

/// The bytes that a string of hexadecimal digits stands for.
pub open spec fn unhex_bytes(text: Seq<u8>) -> Seq<u8> {
    Seq::new(
        text.len() / 2,
        |i: int| (unhex(text[2 * i]).unwrap() * 16 + unhex(text[2 * i + 1]).unwrap()) as u8,
    )
}

/// Calls `faster_hex::hex_string`: the bytes in lowercase hexadecimal, two
/// digits each, high half first. It allocates twice the input's length, which
/// has to be a possible allocation.
#[verifier::external_body]
pub(crate) fn hex_string(bytes: &[u8]) -> (text: String)
    requires
        2 * bytes@.len() <= isize::MAX,
    ensures
        text@ == hex(bytes@),
{
    faster_hex::hex_string(bytes)
}

/// Hexadecimal text is written piece by piece.
proof fn lemma_hex_concat(a: Seq<u8>, b: Seq<u8>)
    ensures
        hex(a + b) == hex(a) + hex(b),
{
    assert forall|i: int| 0 <= i < 2 * (a.len() + b.len()) implies hex(a + b)[i] == (hex(a) + hex(
        b,
    ))[i] by {
        if i >= 2 * a.len() {
            let j = i - 2 * a.len();
            assert(j % 2 == i % 2);
            assert(j / 2 == i / 2 - a.len());
        }
    }
    assert(hex(a + b) =~= hex(a) + hex(b));
}

/// Renders bytes of any number in lowercase hexadecimal.
pub fn hex_text(bytes: &[u8]) -> (text: String)
    ensures
        text@ == hex(bytes@),
{
    let mut out = String::new();
    let mut at: usize = 0;
    proof {
        assert(hex(bytes@.subrange(0, 0)) =~= Seq::<char>::empty());
    }
    while at < bytes.len()
        invariant
            at <= bytes@.len(),
            out@ == hex(bytes@.subrange(0, at as int)),
        decreases bytes@.len() - at,
    {
        let end: usize = if bytes.len() - at > 0x1000 {
            at + 0x1000
        } else {
            bytes.len()
        };
        out.append(&hex_string(slice_subrange(bytes, at, end)));
        proof {
            let done = bytes@.subrange(0, at as int);
            let piece = bytes@.subrange(at as int, end as int);
            lemma_hex_concat(done, piece);
            assert(done + piece =~= bytes@.subrange(0, end as int));
        }
        at = end;
    }
    proof {
        assert(bytes@.subrange(0, bytes@.len() as int) =~= bytes@);
    }
    out
}

/// Calls `faster_hex::hex_decode` with a destination of exactly half the
/// source's length: it succeeds when every source byte is a hexadecimal digit
/// of either case, and then the destination holds the bytes they stand for. On
/// a refusal the destination is not written.
#[verifier::external_body]
pub(crate) fn hex_decode(text: &[u8], bytes: &mut [u8; 16]) -> (ok: bool)
    requires
        text@.len() == 32,
    ensures
        ok == all_hex(text@),
        ok ==> final(bytes)@ == unhex_bytes(text@),
        !ok ==> final(bytes)@ == old(bytes)@,
{
    faster_hex::hex_decode(text, bytes).is_ok()
}

/// Hexadecimal text is ASCII, and reading it back gives the bytes.
pub proof fn lemma_hex_round_trip(bytes: Seq<u8>)
    ensures
        is_ascii_chars(hex(bytes)),
        encode_utf8(hex(bytes)).len() == 2 * bytes.len(),
        all_hex(encode_utf8(hex(bytes))),
        unhex_bytes(encode_utf8(hex(bytes))) == bytes,
{
    let text = hex(bytes);
    assert(is_ascii_chars(text));
    is_ascii_chars_encode_utf8(text);
    let raw = encode_utf8(text);
    assert forall|i: int| 0 <= i < raw.len() implies unhex(#[trigger] raw[i]) == Some(
        if i % 2 == 0 {
            bytes[i / 2] as nat / 16
        } else {
            bytes[i / 2] as nat % 16
        },
    ) by {
        assert(raw[i] == text[i] as u8);
    }
    assert forall|i: int| 0 <= i < bytes.len() implies unhex_bytes(raw)[i] == bytes[i] by {
        assert(unhex(raw[2 * i]) is Some);
        assert(unhex(raw[2 * i + 1]) is Some);
    }
    assert(unhex_bytes(raw) =~= bytes);
}

/// Two byte strings with the same hexadecimal text are the same.
pub proof fn lemma_hex_injective(a: Seq<u8>, b: Seq<u8>)
    requires
        hex(a) == hex(b),
    ensures
        a == b,
{
    lemma_hex_round_trip(a);
    lemma_hex_round_trip(b);
}

/// What `String::from_utf8` says of bytes that are not valid UTF-8.
pub uninterp spec fn utf8_complaint(bytes: Seq<u8>) -> Seq<char>;

/// Calls `String::from_utf8`: the text that the bytes encode, or its complaint
/// when they are not valid UTF-8. The wording of the complaint is not stated
/// here.
#[verifier::external_body]
pub(crate) fn utf8_text(bytes: Vec<u8>) -> (text: Result<String, String>)
    ensures
        match text {
            Ok(text) => valid_utf8(bytes@) && text@ == decode_utf8(bytes@),
            Err(complaint) => !valid_utf8(bytes@) && complaint@ == utf8_complaint(bytes@),
        },
{
    String::from_utf8(bytes).map_err(|e| e.to_string())
}

/// What `String::from_utf8_lossy` makes of a byte string.
pub uninterp spec fn lossy(bytes: Seq<u8>) -> Seq<char>;

/// Calls `String::from_utf8_lossy`: valid UTF-8 is kept as it is, and each
/// stretch that is not is replaced; what exactly replaces it is not stated
/// here.
#[verifier::external_body]
pub(crate) fn lossy_text(bytes: &[u8]) -> (text: String)
    ensures
        text@ == lossy(bytes@),
        valid_utf8(bytes@) ==> text@ == decode_utf8(bytes@),
{
    String::from_utf8_lossy(bytes).into_owned()
}

/// Whether two texts are the same.
pub fn equal_text(a: &str, b: &str) -> (same: bool)
    ensures
        same == (a@ == b@),
{
    proof {
        encode_utf8_decode_utf8(a@);
        encode_utf8_decode_utf8(b@);
    }
    equal_bytes(a.as_bytes(), b.as_bytes())
}

/// The order of texts: that of their UTF-8 bytes.
pub open spec fn text_lt(a: Seq<char>, b: Seq<char>) -> bool {
    bytes_lt(encode_utf8(a), encode_utf8(b))
}

/// Whether `a` sorts before `b`.
pub fn text_below(a: &str, b: &str) -> (below: bool)
    ensures
        below == text_lt(a@, b@),
{
    bytes_below(a.as_bytes(), b.as_bytes())
}

/// An optional text by its contents.
pub open spec fn opt_text(text: Option<String>) -> Option<Seq<char>> {
    match text {
        Some(text) => Some(text@),
        None => None,
    }
}

/// Copies an optional text.
pub fn copy_opt(text: &Option<String>) -> (out: Option<String>)
    ensures
        opt_text(out) == opt_text(*text),
{
    match text {
        Some(text) => Some(text.as_str().to_owned()),
        None => None,
    }
}

/// A number is written with the digits of base ten, the highest first: a number
/// below ten is one digit, and a further digit multiplies what is before it by ten.
pub proof fn lemma_dec_digits(n: nat, d: nat)
    requires
        d < 10,
    ensures
        dec(d) == seq![(0x30 + d) as char],
        n > 0 ==> dec(10 * n + d) == dec(n).push((0x30 + d) as char),
{
    assert((10 * n + d) / 10 == n);
    assert((10 * n + d) % 10 == d);
}

} // verus!
