//! CBOR items, read from a position in a byte string and written behind one.
//!
//! The reading and writing is minicbor's; what it makes of the bytes is
//! stated here in terms of the initial byte, whose upper three bits are the
//! major type and whose lower five say where the item's argument stands.

use pallas_codec::minicbor::data::Type;
use pallas_codec::minicbor::decode::Error;
use pallas_codec::minicbor::{Decoder, Encoder};
use vstd::prelude::*;

verus! {

/// minicbor's decoding error, carried as it is.
#[verifier::external_type_specification]
#[verifier::external_body]
pub struct ExCborError(pallas_codec::minicbor::decode::Error);

/// What `Display` writes for minicbor's decoding error.
pub uninterp spec fn error_text(e: Error) -> Seq<char>;

/// Calls `Display` for minicbor's decoding error: the text is that of the
/// error.
#[verifier::external_body]
pub(crate) fn cbor_words(e: &Error) -> (s: String)
    ensures
        s@ == error_text(*e),
{
    format!("{}", e)
}

/// The number that the bytes `s` spell, most significant first.
pub open spec fn big_endian(s: Seq<u8>) -> nat
    decreases s.len(),
{
    if s.len() == 0 {
        0
    } else {
        big_endian(s.drop_last()) * 256 + s.last() as nat
    }
}

/// The argument of the item at `at`, and where it ends: the lower five bits
/// of the initial byte up to 23; for 24 through 27, the number in the next 1,
/// 2, 4 or 8 bytes.
pub open spec fn argument(b: Seq<u8>, at: int) -> Option<(nat, int)> {
    let info = b[at] as int % 32;
    let wide: int = if info == 24 {
        1
    } else if info == 25 {
        2
    } else if info == 26 {
        4
    } else {
        8
    };
    if info < 24 {
        Some((info as nat, at + 1))
    } else if info < 28 && at + 1 + wide <= b.len() {
        Some((big_endian(b.subrange(at + 1, at + 1 + wide)), at + 1 + wide))
    } else {
        None
    }
}

/// The argument of the item of major type `major` at `at`, and where it ends.
pub open spec fn item(b: Seq<u8>, at: int, major: int) -> Option<(nat, int)> {
    if 0 <= at < b.len() && b[at] as int / 32 == major {
        argument(b, at)
    } else {
        None
    }
}

/// The unsigned integer of at most `max` at `at`, and where it ends.
pub open spec fn unsigned_at(b: Seq<u8>, at: int, max: nat) -> Option<(nat, int)> {
    match item(b, at, 0) {
        Some((n, next)) => if n <= max {
            Some((n, next))
        } else {
            None
        },
        None => None,
    }
}

/// The integer at `at`, and where it ends. A negative one, major type 1,
/// stands for -1 less its argument.
pub open spec fn integer_at(b: Seq<u8>, at: int) -> Option<(int, int)> {
    match item(b, at, 0) {
        Some((n, next)) => Some((n as int, next)),
        None => match item(b, at, 1) {
            Some((n, next)) => Some((-1 - n, next)),
            None => None,
        },
    }
}

/// The bytes of the string of major type `major` at `at`, and where it ends.
pub open spec fn string_at(b: Seq<u8>, at: int, major: int) -> Option<(Seq<u8>, int)> {
    match item(b, at, major) {
        Some((n, next)) => if next + n <= b.len() {
            Some((b.subrange(next, next + n), next + n))
        } else {
            None
        },
        None => None,
    }
}

/// How many elements the array at `at` has, when it says so up front, and
/// where the first one stands.
pub open spec fn array_at(b: Seq<u8>, at: int) -> Option<(Option<nat>, int)> {
    if 0 <= at < b.len() && b[at] == 0x9f {
        Some((None, at + 1))
    } else {
        match item(b, at, 4) {
            Some((n, next)) => Some((Some(n), next)),
            None => None,
        }
    }
}

/// A length that may be absent, as a number.
pub open spec fn length(n: Option<u64>) -> Option<nat> {
    match n {
        Some(n) => Some(n as nat),
        None => None,
    }
}

/// The text of the text string at `at`, and where it ends. It has to be UTF-8.
pub open spec fn text_at(b: Seq<u8>, at: int) -> Option<(Seq<char>, int)> {
    match string_at(b, at, 3) {
        Some((s, next)) => if vstd::utf8::valid_utf8(s) {
            Some((vstd::utf8::decode_utf8(s), next))
        } else {
            None
        },
        None => None,
    }
}

/// What an item is, as far as the initial byte tells.
#[derive(Clone, Copy, Debug, PartialEq, Eq, Structural)]
pub enum Sort {
    Tag,
    Text,
    Break,
    Other,
}

/// The sort of the item at `at`. minicbor looks one byte further where a
/// negative integer has a wide argument, and fails when there is none.
pub open spec fn sort_at(b: Seq<u8>, at: int) -> Option<Sort> {
    if !(0 <= at < b.len()) {
        None
    } else {
        let n = b[at];
        if 0xc0 <= n <= 0xdb {
            Some(Sort::Tag)
        } else if 0x60 <= n <= 0x7b || n == 0x7f {
            Some(Sort::Text)
        } else if n == 0xff {
            Some(Sort::Break)
        } else if 0x38 <= n <= 0x3b && at + 1 == b.len() {
            None
        } else {
            Some(Sort::Other)
        }
    }
}

/// The words in which `Decoder::array` refuses what stands at `at`.
pub uninterp spec fn array_error(b: Seq<u8>, at: int) -> Seq<char>;

/// Calls `Decoder::array`: the number of elements, `None` for an array of
/// indefinite length, and the position behind the array's head. The words of a
/// refusal are `array_error`: they depend on the bytes and the position alone.
#[verifier::external_body]
pub(crate) fn read_array(bytes: &[u8], pos: usize) -> (r: Result<(Option<u64>, usize), Error>)
    ensures
        r is Ok <==> array_at(bytes@, pos as int) is Some,
        r matches Ok(p) ==> array_at(bytes@, pos as int) == Some((length(p.0), p.1 as int)),
        r matches Err(e) ==> error_text(e) == array_error(bytes@, pos as int),
{
    let mut d = Decoder::new(bytes);
    d.set_position(pos);
    let n = d.array()?;
    Ok((n, d.position()))
}

/// The words in which `Decoder::u8` refuses what stands at `at`.
pub uninterp spec fn u8_error(b: Seq<u8>, at: int) -> Seq<char>;

/// Calls `Decoder::u8`: an unsigned integer below 256, however wide it is
/// written, and the position behind it. The words of a refusal are `u8_error`:
/// they depend on the bytes and the position alone.
#[verifier::external_body]
pub(crate) fn read_u8(bytes: &[u8], pos: usize) -> (r: Result<(u8, usize), Error>)
    ensures
        r is Ok <==> unsigned_at(bytes@, pos as int, u8::MAX as nat) is Some,
        r matches Ok(p) ==> unsigned_at(bytes@, pos as int, u8::MAX as nat) == Some(
            (p.0 as nat, p.1 as int),
        ),
        r matches Err(e) ==> error_text(e) == u8_error(bytes@, pos as int),
{
    let mut d = Decoder::new(bytes);
    d.set_position(pos);
    let n = d.u8()?;
    Ok((n, d.position()))
}

/// The words in which `Decoder::u32` refuses what stands at `at`.
pub uninterp spec fn u32_error(b: Seq<u8>, at: int) -> Seq<char>;

/// Calls `Decoder::u32`: an unsigned integer that fits 32 bits, however wide
/// it is written, and the position behind it. The words of a refusal are
/// `u32_error`: they depend on the bytes and the position alone.
#[verifier::external_body]
pub(crate) fn read_u32(bytes: &[u8], pos: usize) -> (r: Result<(u32, usize), Error>)
    ensures
        r is Ok <==> unsigned_at(bytes@, pos as int, u32::MAX as nat) is Some,
        r matches Ok(p) ==> unsigned_at(bytes@, pos as int, u32::MAX as nat) == Some(
            (p.0 as nat, p.1 as int),
        ),
        r matches Err(e) ==> error_text(e) == u32_error(bytes@, pos as int),
{
    let mut d = Decoder::new(bytes);
    d.set_position(pos);
    let n = d.u32()?;
    Ok((n, d.position()))
}

/// The words in which `Decoder::u64` refuses what stands at `at`.
pub uninterp spec fn u64_error(b: Seq<u8>, at: int) -> Seq<char>;

/// Calls `Decoder::u64`: an unsigned integer and the position behind it. The
/// words of a refusal are `u64_error`: they depend on the bytes and the
/// position alone.
#[verifier::external_body]
pub(crate) fn read_u64(bytes: &[u8], pos: usize) -> (r: Result<(u64, usize), Error>)
    ensures
        r is Ok <==> unsigned_at(bytes@, pos as int, u64::MAX as nat) is Some,
        r matches Ok(p) ==> unsigned_at(bytes@, pos as int, u64::MAX as nat) == Some(
            (p.0 as nat, p.1 as int),
        ),
        r matches Err(e) ==> error_text(e) == u64_error(bytes@, pos as int),
{
    let mut d = Decoder::new(bytes);
    d.set_position(pos);
    let n = d.u64()?;
    Ok((n, d.position()))
}

/// The words in which `Decoder::int` refuses what stands at `at`.
pub uninterp spec fn int_error(b: Seq<u8>, at: int) -> Seq<char>;

/// Calls `Decoder::int`: an integer of either sign and the position behind it.
/// The words of a refusal are `int_error`: they depend on the bytes and the
/// position alone.
#[verifier::external_body]
pub(crate) fn read_int(bytes: &[u8], pos: usize) -> (r: Result<(i128, usize), Error>)
    ensures
        r is Ok <==> integer_at(bytes@, pos as int) is Some,
        r matches Ok(p) ==> integer_at(bytes@, pos as int) == Some((p.0 as int, p.1 as int)),
        r matches Err(e) ==> error_text(e) == int_error(bytes@, pos as int),
{
    let mut d = Decoder::new(bytes);
    d.set_position(pos);
    let n = d.int()?;
    Ok((n.into(), d.position()))
}

/// The words in which `Decoder::bytes` refuses what stands at `at`. A length
/// above `widest`, the largest `usize`, is refused in words of its own.
pub uninterp spec fn bytes_error(b: Seq<u8>, at: int, widest: nat) -> Seq<char>;

/// Calls `Decoder::bytes`: a byte string of definite length and the position
/// behind it. The words of a refusal are `bytes_error`: they depend on the
/// bytes, the position and how wide a `usize` is.
#[verifier::external_body]
pub(crate) fn read_bytes<'a>(bytes: &'a [u8], pos: usize) -> (r: Result<(&'a [u8], usize), Error>)
    ensures
        r is Ok <==> string_at(bytes@, pos as int, 2) is Some,
        r matches Ok(p) ==> string_at(bytes@, pos as int, 2) == Some((p.0@, p.1 as int)),
        r matches Err(e) ==> error_text(e) == bytes_error(bytes@, pos as int, usize::MAX as nat),
{
    let mut d = Decoder::new(bytes);
    d.set_position(pos);
    let s = d.bytes()?;
    Ok((s, d.position()))
}

/// The words in which `Decoder::str` refuses what stands at `at`. A length
/// above `widest`, the largest `usize`, is refused in words of its own.
pub uninterp spec fn str_error(b: Seq<u8>, at: int, widest: nat) -> Seq<char>;

/// Calls `Decoder::str`: a text string of definite length, which has to be
/// UTF-8, and the position behind it. The words of a refusal are `str_error`:
/// they depend on the bytes, the position and how wide a `usize` is.
#[verifier::external_body]
pub(crate) fn read_str<'a>(bytes: &'a [u8], pos: usize) -> (r: Result<(&'a str, usize), Error>)
    ensures
        r is Ok <==> text_at(bytes@, pos as int) is Some,
        r matches Ok(p) ==> text_at(bytes@, pos as int) == Some((p.0@, p.1 as int)),
        r matches Err(e) ==> error_text(e) == str_error(bytes@, pos as int, usize::MAX as nat),
{
    let mut d = Decoder::new(bytes);
    d.set_position(pos);
    let s = d.str()?;
    Ok((s, d.position()))
}

/// The words in which `Decoder::tag` refuses what stands at `at`.
pub uninterp spec fn tag_error(b: Seq<u8>, at: int) -> Seq<char>;

/// Calls `Decoder::tag`: the tag's number and the position of what it tags.
/// The words of a refusal are `tag_error`: they depend on the bytes and the
/// position alone.
#[verifier::external_body]
pub(crate) fn read_tag(bytes: &[u8], pos: usize) -> (r: Result<(u64, usize), Error>)
    ensures
        r is Ok <==> item(bytes@, pos as int, 6) is Some,
        r matches Ok(p) ==> item(bytes@, pos as int, 6) == Some((p.0 as nat, p.1 as int)),
        r matches Err(e) ==> error_text(e) == tag_error(bytes@, pos as int),
{
    let mut d = Decoder::new(bytes);
    d.set_position(pos);
    let t = d.tag()?;
    Ok((u64::from(t), d.position()))
}

/// Calls `Decoder::datatype`: what stands at `pos`, with the types that
/// nothing here tells apart taken together. It fails where the input ends, and
/// says so.
#[verifier::external_body]
pub(crate) fn read_sort(bytes: &[u8], pos: usize) -> (r: Result<Sort, Error>)
    ensures
        r is Ok <==> sort_at(bytes@, pos as int) is Some,
        r matches Ok(s) ==> sort_at(bytes@, pos as int) == Some(s),
        r matches Err(e) ==> error_text(e) == "end of input bytes"@,
{
    let mut d = Decoder::new(bytes);
    d.set_position(pos);
    Ok(match d.datatype()? {
        Type::Tag => Sort::Tag,
        Type::String | Type::StringIndef => Sort::Text,
        Type::Break => Sort::Break,
        _ => Sort::Other,
    })
}

/// Calls `Decoder::skip` at a break, which consumes that one byte.
#[verifier::external_body]
pub(crate) fn skip_break(bytes: &[u8], pos: usize) -> (r: Result<usize, Error>)
    requires
        pos < bytes.len(),
        bytes[pos as int] == 0xff,
    ensures
        r is Ok,
        r->Ok_0 == pos + 1,
{
    let mut d = Decoder::new(bytes);
    d.set_position(pos);
    d.skip()?;
    Ok(d.position())
}

/// `n` in `wide` bytes, most significant first.
pub open spec fn bytes_of(n: nat, wide: nat) -> Seq<u8>
    decreases wide,
{
    if wide == 0 {
        Seq::empty()
    } else {
        bytes_of(n / 256, (wide - 1) as nat).push((n % 256) as u8)
    }
}

/// The shortest head of an item of major type `major` with argument `n`.
pub open spec fn head(major: int, n: nat) -> Seq<u8> {
    let top = 32 * major;
    if n < 24 {
        seq![(top + n) as u8]
    } else if n <= 0xff {
        seq![(top + 24) as u8] + bytes_of(n, 1)
    } else if n <= 0xffff {
        seq![(top + 25) as u8] + bytes_of(n, 2)
    } else if n <= 0xffff_ffff {
        seq![(top + 26) as u8] + bytes_of(n, 4)
    } else {
        seq![(top + 27) as u8] + bytes_of(n, 8)
    }
}

/// Calls `Encoder::array` on a growing byte string, which cannot fail: the
/// head of an array of `n` elements.
#[verifier::external_body]
pub(crate) fn write_array(out: &mut Vec<u8>, n: u64)
    ensures
        final(out)@ == old(out)@ + head(4, n as nat),
{
    let _ = Encoder::new(out).array(n);
}

/// Calls `Encoder::u8` on a growing byte string, which cannot fail.
#[verifier::external_body]
pub(crate) fn write_u8(out: &mut Vec<u8>, n: u8)
    ensures
        final(out)@ == old(out)@ + head(0, n as nat),
{
    let _ = Encoder::new(out).u8(n);
}

/// Calls `Encoder::u16` on a growing byte string, which cannot fail.
#[verifier::external_body]
pub(crate) fn write_u16(out: &mut Vec<u8>, n: u16)
    ensures
        final(out)@ == old(out)@ + head(0, n as nat),
{
    let _ = Encoder::new(out).u16(n);
}

/// Calls `Encoder::u64` on a growing byte string, which cannot fail.
#[verifier::external_body]
pub(crate) fn write_u64(out: &mut Vec<u8>, n: u64)
    ensures
        final(out)@ == old(out)@ + head(0, n as nat),
{
    let _ = Encoder::new(out).u64(n);
}

/// Calls `Encoder::bool` on a growing byte string, which cannot fail.
#[verifier::external_body]
pub(crate) fn write_bool(out: &mut Vec<u8>, b: bool)
    ensures
        final(out)@ == old(out)@.push(
            if b {
                0xf5u8
            } else {
                0xf4u8
            },
        ),
{
    let _ = Encoder::new(out).bool(b);
}

/// The two hex digits of each byte, lower case.
pub open spec fn hex_text(b: Seq<u8>) -> Seq<char> {
    Seq::new(
        2 * b.len(),
        |i: int|
            crate::ip::hex_char(
                if i % 2 == 0 {
                    b[i / 2] as nat / 16
                } else {
                    b[i / 2] as nat % 16
                },
            ),
    )
}

/// Calls `hex::encode`: two lower case hex digits for each byte.
#[verifier::external_body]
pub(crate) fn hex_of(b: &[u8]) -> (s: String)
    ensures
        s@ == hex_text(b@),
{
    hex::encode(b)
}

/// What `String::from_utf8_lossy` makes of bytes: invalid parts are replaced.
pub uninterp spec fn lossy(b: Seq<u8>) -> Seq<char>;

/// Calls `String::from_utf8_lossy`. Valid UTF-8 comes out as it is; how
/// invalid parts are replaced is left to `lossy`.
#[verifier::external_body]
pub(crate) fn lossy_text(b: &[u8]) -> (s: String)
    ensures
        s@ == lossy(b@),
        vstd::utf8::valid_utf8(b@) ==> s@ == vstd::utf8::decode_utf8(b@),
{
    String::from_utf8_lossy(b).into_owned()
}

} // verus!
