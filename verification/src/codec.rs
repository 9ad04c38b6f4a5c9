//! Byte-level layers of the save-file format: the XOR cipher, the two
//! base64 alphabets and the gzip framing.

use vstd::prelude::*;

verus! {

/// Every byte of `data` combined with `key` by exclusive or.
pub open spec fn xor_bytes(data: Seq<u8>, key: u8) -> Seq<u8> {
    Seq::new(data.len(), |i: int| data[i] ^ key)
}

/// XORs every byte of `data` with `key`.
pub fn xor(data: Vec<u8>, key: u8) -> (res: Vec<u8>)
    ensures
        res@ == xor_bytes(data@, key),
        res@.len() == data@.len(),
        forall|i: int| 0 <= i < data@.len() ==> #[trigger] res@[i] == data@[i] ^ key,
{
    let mut new_data: Vec<u8> = Vec::new();
    let n = data.len();
    for i in 0..n
        invariant
            n == data.len(),
            new_data@ == xor_bytes(data@.take(i as int), key),
    {
        new_data.push(data[i] ^ key);
        assert(xor_bytes(data@.take(i + 1), key) =~= xor_bytes(data@.take(i as int), key).push(data@[i as int] ^ key));
    }
    assert(data@.take(n as int) =~= data@);
    new_data
}

/// The cipher keeps the length of the data, and each byte of its output is
/// the byte of the input at the same place XORed with the key.
pub proof fn xor_is_bytewise(data: Seq<u8>, key: u8)
    ensures
        xor_bytes(data, key).len() == data.len(),
        forall|i: int| 0 <= i < data.len() ==> #[trigger] xor_bytes(data, key)[i] == data[i] ^ key,
{
}

/// Applying the cipher twice with the same key gives the data back.
pub proof fn xor_is_an_involution(data: Seq<u8>, key: u8)
    ensures
        xor_bytes(xor_bytes(data, key), key) == data,
{
    assert forall|i: int| 0 <= i < data.len() implies #[trigger] xor_bytes(xor_bytes(data, key), key)[i] == data[i] by {
        let b = data[i];
        assert((b ^ key) ^ key == b) by (bit_vector);
    }
    assert(xor_bytes(xor_bytes(data, key), key) =~= data);
}


/// The key with which the game XORs its save files.
pub const SAVE_KEY: u8 = 11;

/// A byte of the standard base64 alphabet (`A-Z`, `a-z`, `0-9`, `+`, `/`) or
/// the padding byte `=`.
pub open spec fn is_standard_base64_byte(b: u8) -> bool {
    (65 <= b <= 90) || (97 <= b <= 122) || (48 <= b <= 57) || b == 43 || b == 47 || b == 61
}

/// Every byte of `s` belongs to the standard base64 alphabet or is `=`.
pub open spec fn is_standard_base64(s: Seq<u8>) -> bool {
    forall|i: int| 0 <= i < s.len() ==> is_standard_base64_byte(#[trigger] s[i])
}

/// The URL-safe byte `-` becomes `+` and `_` becomes `/`; other bytes stay.
pub open spec fn standard_byte(b: u8) -> u8 {
    if b == 45 {
        43
    } else if b == 95 {
        47
    } else {
        b
    }
}

/// The standard byte `+` becomes `-` and `/` becomes `_`; other bytes stay.
pub open spec fn url_safe_byte(b: u8) -> u8 {
    if b == 43 {
        45
    } else if b == 47 {
        95
    } else {
        b
    }
}

/// URL-safe base64 text turned into standard base64 text: `-` becomes `+`,
/// `_` becomes `/` and NUL bytes are dropped.
pub open spec fn standard_from_url_safe(s: Seq<u8>) -> Seq<u8>
    decreases s.len(),
{
    if s.len() == 0 {
        Seq::empty()
    } else if s.last() == 0 {
        standard_from_url_safe(s.drop_last())
    } else {
        standard_from_url_safe(s.drop_last()).push(standard_byte(s.last()))
    }
}

/// Standard base64 text turned into URL-safe text: `+` becomes `-` and `/`
/// becomes `_`.
pub open spec fn url_safe_from_standard(s: Seq<u8>) -> Seq<u8> {
    Seq::new(s.len(), |i: int| url_safe_byte(s[i]))
}

/// Replaces `-` by `+` and `_` by `/`, and drops every NUL byte.
pub fn to_standard_alphabet(text: &Vec<u8>) -> (res: Vec<u8>)
    ensures
        res@ == standard_from_url_safe(text@),
{
    let mut out: Vec<u8> = Vec::new();
    let n = text.len();
    for i in 0..n
        invariant
            n == text.len(),
            out@ == standard_from_url_safe(text@.take(i as int)),
    {
        let b = text[i];
        assert(text@.take(i + 1).drop_last() =~= text@.take(i as int));
        if b == 45 {
            out.push(43);
        } else if b == 95 {
            out.push(47);
        } else if b != 0 {
            out.push(b);
        }
    }
    assert(text@.take(n as int) =~= text@);
    out
}

/// Replaces `+` by `-` and `/` by `_`.
pub fn to_url_safe_alphabet(text: &Vec<u8>) -> (res: Vec<u8>)
    ensures
        res@ == url_safe_from_standard(text@),
{
    let mut out: Vec<u8> = Vec::new();
    let n = text.len();
    for i in 0..n
        invariant
            n == text.len(),
            out@ =~= url_safe_from_standard(text@.take(i as int)),
    {
        let b = text[i];
        if b == 43 {
            out.push(45);
        } else if b == 47 {
            out.push(95);
        } else {
            out.push(b);
        }
    }
    assert(text@.take(n as int) =~= text@);
    out
}

/// Turning standard base64 text into the URL-safe alphabet and back gives
/// the text unchanged.
pub proof fn url_safe_round_trip(s: Seq<u8>)
    requires
        is_standard_base64(s),
    ensures
        standard_from_url_safe(url_safe_from_standard(s)) == s,
    decreases s.len(),
{
    if s.len() > 0 {
        let t = url_safe_from_standard(s);
        assert(t.drop_last() =~= url_safe_from_standard(s.drop_last()));
        assert(is_standard_base64_byte(s[s.len() - 1]));
        url_safe_round_trip(s.drop_last());
        assert(s.drop_last().push(s.last()) =~= s);
    }
}

/// What the game stores for the base64 text `text`: the text in the URL-safe
/// alphabet, XORed with the save key.
pub open spec fn wrapped_save_text(text: Seq<u8>) -> Seq<u8> {
    xor_bytes(url_safe_from_standard(text), SAVE_KEY)
}

/// The base64 text held in the stored bytes `stored`: the bytes XORed with
/// the save key, in the standard alphabet, without NUL bytes.
pub open spec fn unwrapped_save_text(stored: Seq<u8>) -> Seq<u8> {
    standard_from_url_safe(xor_bytes(stored, SAVE_KEY))
}

/// Turns base64 text into the bytes the game stores.
pub fn wrap_save_text(text: &Vec<u8>) -> (res: Vec<u8>)
    ensures
        res@ == wrapped_save_text(text@),
{
    let url = to_url_safe_alphabet(text);
    xor(url, SAVE_KEY)
}

/// Unwrapping the stored form of standard base64 text gives the text back.
pub proof fn save_text_round_trip(text: Seq<u8>)
    requires
        is_standard_base64(text),
    ensures
        unwrapped_save_text(wrapped_save_text(text)) == text,
{
    xor_is_an_involution(url_safe_from_standard(text), SAVE_KEY);
    url_safe_round_trip(text);
}

/// The four bytes of `x`, least significant first.
pub open spec fn u32_le_bytes(x: u32) -> Seq<u8> {
    seq![(x % 256) as u8, ((x / 256) % 256) as u8, ((x / 65536) % 256) as u8, (x / 16777216) as u8]
}

/// The number whose little-endian bytes are the first four of `b`.
pub open spec fn u32_from_le_bytes(b: Seq<u8>) -> int {
    b[0] + 256 * b[1] + 65536 * b[2] + 16777216 * b[3]
}

/// Reading the four little-endian bytes of a number gives the number back.
pub proof fn u32_le_round_trip(x: u32)
    ensures
        u32_from_le_bytes(u32_le_bytes(x)) == x,
{
    let b = u32_le_bytes(x);
    assert(b[0] + 256 * b[1] + 65536 * b[2] + 16777216 * b[3] == x) by (nonlinear_arith)
        requires
            b[0] == x % 256,
            b[1] == (x / 256) % 256,
            b[2] == (x / 65536) % 256,
            b[3] == x / 16777216,
            0 <= x < 4294967296,
    ;
}

/// The little-endian bytes of `x`.
pub fn u32_to_le_bytes(x: u32) -> (res: [u8; 4])
    ensures
        res@ == u32_le_bytes(x),
{
    let res = [(x % 256) as u8, ((x / 256) % 256) as u8, ((x / 65536) % 256) as u8, (x / 16777216) as u8];
    assert(res@ =~= u32_le_bytes(x));
    res
}

/// The ten-byte gzip header that the game's save files carry: magic bytes,
/// deflate method, no flags, no modification time, no extra flags, and
/// operating system byte 11.
pub open spec fn save_gzip_header() -> Seq<u8> {
    seq![0x1fu8, 0x8bu8, 0x08u8, 0u8, 0u8, 0u8, 0u8, 0u8, 0u8, 0x0bu8]
}

/// A gzip member built from a zlib stream: the save header, the raw deflate
/// data between the zlib stream's two-byte header and four-byte Adler-32
/// trailer, then the CRC-32 and the size of the uncompressed data, both
/// little-endian.
pub open spec fn gzip_member(zlib: Seq<u8>, crc: u32, size: u32) -> Seq<u8> {
    save_gzip_header() + zlib.subrange(2, zlib.len() - 4) + u32_le_bytes(crc) + u32_le_bytes(size)
}

/// Rewraps the deflate data of a zlib stream as a gzip member.
pub fn gzip_member_from_zlib(zlib: &[u8], crc: u32, size: u32) -> (res: Vec<u8>)
    requires
        zlib@.len() >= 6,
    ensures
        res@ == gzip_member(zlib@, crc, size),
{
    let mut out: Vec<u8> = vec![0x1fu8, 0x8bu8, 0x08u8, 0u8, 0u8, 0u8, 0u8, 0u8, 0u8, 0x0bu8];
    assert(out@ =~= save_gzip_header());
    let end = zlib.len() - 4;
    for i in 2..end
        invariant
            end == zlib@.len() - 4,
            out@ =~= save_gzip_header() + zlib@.subrange(2, i as int),
    {
        out.push(zlib[i]);
    }
    let c = u32_to_le_bytes(crc);
    let s = u32_to_le_bytes(size);
    for j in 0..4usize
        invariant
            out@ =~= save_gzip_header() + zlib@.subrange(2, end as int) + c@.take(j as int),
    {
        out.push(c[j]);
    }
    for j in 0..4usize
        invariant
            out@ =~= save_gzip_header() + zlib@.subrange(2, end as int) + c@ + s@.take(j as int),
    {
        out.push(s[j]);
    }
    assert(c@.take(4) =~= c@);
    assert(s@.take(4) =~= s@);
    out
}

/// The base64 text with which the game's level data begins: the encoding of
/// the save gzip header with the first bits of its last byte.
pub open spec fn level_data_prefix() -> Seq<u8> {
    seq![72u8, 52u8, 115u8, 73u8, 65u8, 65u8, 65u8, 65u8, 65u8, 65u8, 65u8, 65u8, 67u8]
}

/// Level data from the base64 text of a gzip stream: the text in the
/// URL-safe alphabet with its first thirteen bytes replaced by the prefix
/// that the game writes.
pub open spec fn level_data_text(b64: Seq<u8>) -> Seq<u8> {
    level_data_prefix() + url_safe_from_standard(b64).skip(13)
}

/// Turns the base64 text of a gzip stream into level data.
pub fn level_data_from_base64(b64: &Vec<u8>) -> (res: Vec<u8>)
    requires
        b64@.len() >= 13,
    ensures
        res@ == level_data_text(b64@),
{
    let fin = to_url_safe_alphabet(b64);
    let mut out: Vec<u8> = vec![72u8, 52u8, 115u8, 73u8, 65u8, 65u8, 65u8, 65u8, 65u8, 65u8, 65u8, 65u8, 67u8];
    assert(out@ =~= level_data_prefix());
    let n = fin.len();
    for i in 13..n
        invariant
            n == fin@.len(),
            n >= 13,
            out@ =~= level_data_prefix() + fin@.subrange(13, i as int),
    {
        out.push(fin[i]);
    }
    assert(fin@.subrange(13, n as int) =~= fin@.skip(13));
    out
}

} // verus!
