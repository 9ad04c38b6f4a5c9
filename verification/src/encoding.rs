//! Base64, gzip, zlib and CRC-32, as the save format uses them. The work is
//! done by the `base64`, `libflate` and `crc32fast` crates; this module holds
//! the calls into them and what the library relies on about each.

use std::io::Read;
use std::io::Write;
use vstd::prelude::*;

use crate::codec::is_standard_base64;
use crate::codec::is_standard_base64_byte;
use crate::codec::u32_le_bytes;

verus! {

#[verifier::external_type_specification]
#[verifier::external_body]
pub struct ExBase64DecodeError(base64::DecodeError);

#[verifier::external_type_specification]
#[verifier::external_body]
pub struct ExIoError(std::io::Error);

/// The character of the standard base64 alphabet for the six-bit value `v`,
/// as a byte.
pub open spec fn base64_symbol(v: int) -> u8 {
    if v < 26 {
        (65 + v) as u8
    } else if v < 52 {
        (97 + v - 26) as u8
    } else if v < 62 {
        (48 + v - 52) as u8
    } else if v == 62 {
        43
    } else {
        47
    }
}

/// The four characters that encode the bytes `a`, `b`, `c`, of which the
/// first `n` (one to three) are present; absent bytes count as zero and
/// their characters are `=`.
pub open spec fn base64_quad(a: u8, b: u8, c: u8, n: int) -> Seq<u8> {
    let s1 = a / 4;
    let s2 = (a % 4) * 16 + b / 16;
    let s3 = (b % 16) * 4 + c / 64;
    let s4 = c % 64;
    seq![
        base64_symbol(s1 as int),
        base64_symbol(s2 as int),
        if n >= 2 { base64_symbol(s3 as int) } else { 61u8 },
        if n >= 3 { base64_symbol(s4 as int) } else { 61u8 },
    ]
}

/// The standard base64 encoding of `data`, with `=` padding.
pub open spec fn base64_standard(data: Seq<u8>) -> Seq<u8>
    decreases data.len(),
{
    if data.len() == 0 {
        Seq::empty()
    } else if data.len() <= 3 {
        base64_quad(
            data[0],
            if data.len() > 1 { data[1] } else { 0u8 },
            if data.len() > 2 { data[2] } else { 0u8 },
            data.len() as int,
        )
    } else {
        base64_quad(data[0], data[1], data[2], 3) + base64_standard(data.skip(3))
    }
}

/// What `base64::decode` gives for `text`: the decoded bytes, or `None`
/// where it reports an error.
pub uninterp spec fn base64_decoded(text: Seq<u8>) -> Option<Seq<u8>>;

/// What libflate's gzip decoder reads out of `data`, or `None` where it
/// reports an error.
pub uninterp spec fn gunzipped(data: Seq<u8>) -> Option<Seq<u8>>;

/// What libflate's gzip encoder, with its default options, writes for
/// `data` after the first eight header bytes, leaving out the
/// extra-flags and operating-system bytes: the deflate stream and the
/// trailer.
pub uninterp spec fn gzip_body(data: Seq<u8>) -> Seq<u8>;

/// The zlib stream that libflate's zlib encoder, with its default options,
/// writes for `data`.
pub uninterp spec fn zlib_compressed(data: Seq<u8>) -> Seq<u8>;

/// One step of the reflected CRC-32 register (polynomial 0xEDB88320).
pub open spec fn crc32_shift(c: u32) -> u32 {
    if c % 2 == 1 {
        (c / 2) ^ 0xEDB8_8320u32
    } else {
        c / 2
    }
}

/// `n` steps of the CRC-32 register.
pub open spec fn crc32_shifts(c: u32, n: nat) -> u32
    decreases n,
{
    if n == 0 {
        c
    } else {
        crc32_shift(crc32_shifts(c, (n - 1) as nat))
    }
}

/// The CRC-32 register after `data`, starting from all ones.
pub open spec fn crc32_register(data: Seq<u8>) -> u32
    decreases data.len(),
{
    if data.len() == 0 {
        0xFFFF_FFFFu32
    } else {
        crc32_shifts(crc32_register(data.drop_last()) ^ (data.last() as u32), 8)
    }
}

/// The CRC-32 (IEEE 802.3) checksum of `data`.
pub open spec fn crc32_ieee(data: Seq<u8>) -> u32 {
    crc32_register(data) ^ 0xFFFF_FFFFu32
}

/// Calls `base64::decode` (standard alphabet). The contract names the
/// result `base64_decoded` of the input and states nothing else of it.
#[verifier::external_body]
pub(crate) fn base64_decode(text: &[u8]) -> (res: Result<Vec<u8>, base64::DecodeError>)
    ensures
        match res {
            Ok(v) => base64_decoded(text@) == Some(v@),
            Err(_) => base64_decoded(text@) is None,
        },
{
    base64::decode(text)
}

/// Calls `base64::encode` and hands back the text's bytes. The contract
/// claims that the text is the standard, padded base64 encoding of `data`
/// and that `base64::decode` gives `data` back from it. `encode` panics when
/// the length of its output overflows `usize`, which `requires` rules out.
#[verifier::external_body]
pub(crate) fn base64_encode(data: &[u8]) -> (res: Vec<u8>)
    requires
        4 * ((data@.len() + 2) / 3) <= usize::MAX,
    ensures
        res@ == base64_standard(data@),
        base64_decoded(res@) == Some(data@),
{
    base64::encode(data).into_bytes()
}

/// Reads `data` through `libflate::gzip::Decoder` to the end. The contract
/// names the outcome `gunzipped` of the input.
#[verifier::external_body]
pub(crate) fn gunzip(data: &[u8]) -> (res: Result<Vec<u8>, std::io::Error>)
    ensures
        match res {
            Ok(v) => gunzipped(data@) == Some(v@),
            Err(_) => gunzipped(data@) is None,
        },
{
    let mut decoder = libflate::gzip::Decoder::new(data)?;
    let mut out = Vec::new();
    decoder.read_to_end(&mut out)?;
    Ok(out)
}

/// Writes `data` through `libflate::gzip::Encoder::new` and finishes the
/// stream. Writing into a `Vec` does not fail, so the result is `Ok`. The
/// header that the encoder writes holds the current time in bytes 4 to 7,
/// which the contract leaves open; it claims the magic bytes, the deflate
/// method and empty flags in bytes 0 to 3, extra flags 0 and operating
/// system 3 (Unix) in bytes 8 and 9, at least eight trailer bytes after the
/// header, and names the rest `gzip_body` of the input. It also claims that
/// libflate's gzip decoder reads `data` back out of the stream whatever bytes
/// 4 to 9 hold, since the decoder only records the time, extra flags and
/// operating system.
#[verifier::external_body]
pub(crate) fn gzip_compress(data: &[u8]) -> (res: Result<Vec<u8>, std::io::Error>)
    ensures
        res is Ok,
        res matches Ok(v) ==> {
            &&& v@.len() >= 18
            &&& v@.take(4) == seq![0x1fu8, 0x8bu8, 0x08u8, 0u8]
            &&& v@.skip(8) == seq![0u8, 3u8] + gzip_body(data@)
            &&& forall|t: Seq<u8>|
                t.len() == 6 ==> #[trigger] gunzipped(v@.take(4) + t + v@.skip(10)) == Some(data@)
        },
{
    let mut encoder = libflate::gzip::Encoder::new(Vec::new())?;
    encoder.write_all(data)?;
    encoder.finish().into_result()
}

/// A gzip member around the deflate data `deflate`: magic bytes, deflate
/// method and empty flags, the six header bytes `rest`, the data, then the
/// CRC-32 and size fields.
pub open spec fn gzip_frame(rest: Seq<u8>, deflate: Seq<u8>, crc: u32, size: u32) -> Seq<u8> {
    seq![0x1fu8, 0x8bu8, 0x08u8, 0u8] + rest + deflate + u32_le_bytes(crc) + u32_le_bytes(size)
}

/// Writes `data` through `libflate::zlib::Encoder::new` and finishes the
/// stream. Writing into a `Vec` does not fail, so the result is `Ok`. The
/// contract names the stream `zlib_compressed` of the input and claims it
/// holds at least its two-byte header and four-byte Adler-32 trailer. It
/// also claims that the deflate data between the two, framed as a gzip
/// member with the CRC-32 and size of `data`, is read back as `data` by
/// libflate's gzip decoder, whatever the six header bytes after the flags
/// hold: both formats carry the same deflate stream, and the decoder checks
/// only the CRC-32 and size.
#[verifier::external_body]
pub(crate) fn zlib_compress(data: &[u8]) -> (res: Result<Vec<u8>, std::io::Error>)
    ensures
        res is Ok,
        res matches Ok(v) ==> {
            &&& v@ == zlib_compressed(data@)
            &&& v@.len() >= 6
            &&& forall|t: Seq<u8>|
                t.len() == 6 ==> #[trigger] gunzipped(
                    gzip_frame(t, v@.subrange(2, v@.len() - 4), crc32_ieee(data@), (data@.len() % 4294967296) as u32),
                ) == Some(data@)
        },
{
    let mut encoder = libflate::zlib::Encoder::new(Vec::new())?;
    encoder.write_all(data)?;
    encoder.finish().into_result()
}

/// Runs `crc32fast::Hasher` over `data`. The contract claims the CRC-32
/// (IEEE) checksum, which is what the crate computes.
#[verifier::external_body]
pub(crate) fn crc32(data: &[u8]) -> (res: u32)
    ensures
        res == crc32_ieee(data@),
{
    let mut hasher = crc32fast::Hasher::new();
    hasher.update(data);
    hasher.finalize()
}

/// Calls `std::str::from_utf8` and reports whether it succeeded. The
/// contract claims success exactly for well-formed UTF-8, which is what the
/// function's documentation says it checks.
#[verifier::external_body]
pub(crate) fn is_utf8(bytes: &[u8]) -> (res: bool)
    ensures
        res == vstd::utf8::valid_utf8(bytes@),
{
    std::str::from_utf8(bytes).is_ok()
}

/// Every symbol of the alphabet is a base64 byte.
proof fn lemma_base64_symbol(v: int)
    requires
        0 <= v < 64,
    ensures
        is_standard_base64_byte(base64_symbol(v)),
{
}

/// The standard base64 text of `data` has four characters for every three
/// bytes or part of three, all from the standard alphabet or `=`.
pub proof fn base64_shape(data: Seq<u8>)
    ensures
        base64_standard(data).len() == 4 * ((data.len() + 2) / 3),
        is_standard_base64(base64_standard(data)),
    decreases data.len(),
{
    if data.len() > 0 {
        let a = data[0];
        let b = if data.len() > 1 { data[1] } else { 0u8 };
        let c = if data.len() > 2 { data[2] } else { 0u8 };
        lemma_base64_symbol((a / 4) as int);
        lemma_base64_symbol(((a % 4) * 16 + b / 16) as int);
        lemma_base64_symbol(((b % 16) * 4 + c / 64) as int);
        lemma_base64_symbol((c % 64) as int);
        if data.len() > 3 {
            base64_shape(data.skip(3));
            let q = base64_quad(a, b, c, 3);
            let r = base64_standard(data.skip(3));
            assert forall|i: int| 0 <= i < q.len() + r.len() implies is_standard_base64_byte(#[trigger] (q + r)[i]) by {
                if i >= 4 {
                    assert((q + r)[i] == r[i - 4]);
                }
            }
        } else {
            let q = base64_standard(data);
            assert forall|i: int| 0 <= i < q.len() implies is_standard_base64_byte(#[trigger] q[i]) by {}
        }
    }
}

/// Past the first `4 * k` characters, the base64 text of `data` is the text
/// of `data` past its first `3 * k` bytes.
pub proof fn base64_skip_chunks(data: Seq<u8>, k: int)
    requires
        0 <= k,
        3 * k < data.len(),
    ensures
        base64_standard(data).skip(4 * k) == base64_standard(data.skip(3 * k)),
    decreases k,
{
    if k > 0 {
        let rest = data.skip(3);
        assert(rest.skip(3 * (k - 1)) =~= data.skip(3 * k));
        base64_skip_chunks(rest, k - 1);
        let q = base64_quad(data[0], data[1], data[2], 3);
        base64_shape(rest);
        assert(q.len() == 4);
        assert(base64_standard(data) == q + base64_standard(rest));
        assert((q + base64_standard(rest)).skip(4 * k) =~= base64_standard(rest).skip(4 * (k - 1)));
    } else {
        assert(data.skip(0) =~= data);
        assert(base64_standard(data).skip(0) =~= base64_standard(data));
    }
}

} // verus!
