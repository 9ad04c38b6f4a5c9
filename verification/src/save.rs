//! Reading the level data out of the game's save file and writing it back.

use vstd::prelude::*;
use vstd::string::StringSliceAdditionalSpecFns;
use vstd::utf8::valid_utf8;

use crate::codec::gzip_member;
use crate::codec::gzip_member_from_zlib;
use crate::codec::level_data_from_base64;
use crate::codec::level_data_prefix;
use crate::codec::standard_from_url_safe;
use crate::codec::url_safe_round_trip;
use crate::codec::url_safe_byte;
use crate::codec::save_text_round_trip;
use crate::codec::to_standard_alphabet;
use crate::codec::xor;
use crate::codec::xor_bytes;
use crate::codec::SAVE_KEY;
use crate::codec::unwrapped_save_text;
use crate::codec::url_safe_from_standard;
use crate::codec::wrap_save_text;
use crate::codec::wrapped_save_text;
use crate::codec::is_standard_base64_byte;
use crate::codec::xor_is_an_involution;
use crate::encoding::base64_decode;
use crate::encoding::base64_decoded;
use crate::encoding::base64_encode;
use crate::encoding::base64_shape;
use crate::encoding::base64_skip_chunks;
use crate::encoding::base64_quad;
use crate::encoding::base64_standard;
use crate::encoding::base64_symbol;
use crate::encoding::crc32;
use crate::encoding::crc32_ieee;
use crate::encoding::gunzip;
use crate::encoding::gunzipped;
use crate::encoding::gzip_frame;
use crate::encoding::gzip_body;
use crate::encoding::gzip_compress;
use crate::encoding::is_utf8;
use crate::encoding::zlib_compress;
use crate::encoding::zlib_compressed;
use crate::xml::announced_texts;
use crate::xml::document_texts;
use crate::xml::level_data_too_large;
use crate::xml::reads_events;
use crate::xml::rewritten_xml;
use crate::xml::xml_parses;
use crate::xml::rewrite_level_xml;

verus! {

/// Why a save file could not be read or written.
#[derive(Debug, PartialEq, Eq, Structural)]
pub enum SaveError {
    /// The stored bytes, once deciphered, are not UTF-8 text.
    Utf8,
    /// The stored text is not valid base64.
    Base64,
    /// The decoded data is not a valid gzip stream.
    Gzip,
    /// The XML could not be read; the position is the reader's byte offset.
    Xml(usize),
    /// The data is too large to be encoded as base64.
    TooLarge,
}

/// Whether base64 text for `n` bytes would be too long to hold in memory:
/// the bound below which the library encodes.
pub open spec fn base64_too_large(n: int) -> bool {
    n / 3 >= usize::MAX / 4 - 1
}

/// The gzip stream that the game's level data decodes to for the level
/// string whose bytes are `level`: libflate's stream with no modification
/// time and operating-system byte 11.
pub open spec fn level_gzip(level: Seq<u8>) -> Seq<u8> {
    seq![0x1fu8, 0x8bu8, 0x08u8, 0u8, 0u8, 0u8, 0u8, 0u8, 0u8, 0x0bu8] + gzip_body(level)
}

/// The level data that the game stores for the level string whose bytes
/// are `level`: the base64 text of its gzip stream in the URL-safe alphabet.
pub open spec fn level_data_for(level: Seq<u8>) -> Seq<u8> {
    url_safe_from_standard(base64_standard(level_gzip(level)))
}

/// The base64 text of a stream that starts with the save gzip header
/// begins with the level-data prefix.
proof fn lemma_level_data_prefix(x: Seq<u8>)
    requires
        x.len() >= 13,
        x.take(10) == seq![0x1fu8, 0x8bu8, 0x08u8, 0u8, 0u8, 0u8, 0u8, 0u8, 0u8, 0x0bu8],
    ensures
        url_safe_from_standard(base64_standard(x)).take(13) == level_data_prefix(),
{
    let b = base64_standard(x);
    base64_shape(x);
    base64_skip_chunks(x, 1);
    base64_skip_chunks(x, 2);
    base64_skip_chunks(x, 3);
    assert(x[0] == 0x1fu8 && x[1] == 0x8bu8 && x[2] == 0x08u8);
    assert(x[3] == 0u8 && x[4] == 0u8 && x[5] == 0u8 && x[6] == 0u8 && x[7] == 0u8 && x[8] == 0u8);
    assert(x[9] == 0x0bu8);
    let q0 = base64_quad(x[0], x[1], x[2], 3);
    let q1 = base64_quad(x[3], x[4], x[5], 3);
    let q2 = base64_quad(x[6], x[7], x[8], 3);
    assert(b.take(4) == q0);
    assert(x.skip(3)[0] == x[3] && x.skip(3)[1] == x[4] && x.skip(3)[2] == x[5]);
    assert(b.skip(4).take(4) == q1);
    assert(x.skip(6)[0] == x[6] && x.skip(6)[1] == x[7] && x.skip(6)[2] == x[8]);
    assert(b.skip(8).take(4) == q2);
    assert(x.skip(9)[0] == x[9]);
    assert(b.skip(12)[0] == base64_symbol((x[9] / 4) as int));
    assert(q0 =~= seq![72u8, 52u8, 115u8, 73u8]);
    assert(q1 =~= seq![65u8, 65u8, 65u8, 65u8]);
    assert(q2 =~= seq![65u8, 65u8, 65u8, 65u8]);
    assert forall|i: int| 0 <= i < 13 implies url_safe_from_standard(b).take(13)[i] == level_data_prefix()[i] by {
        if i < 4 {
            assert(b[i] == b.take(4)[i]);
        } else if i < 8 {
            assert(b[i] == b.skip(4).take(4)[i - 4]);
        } else if i < 12 {
            assert(b[i] == b.skip(8).take(4)[i - 8]);
        } else {
            assert(b[i] == b.skip(12)[0]);
        }
    }
    assert(url_safe_from_standard(b).take(13) =~= level_data_prefix());
}

/// Two gzip streams that agree from their eleventh byte on, and whose
/// tenth bytes agree in their two low bits, have the same base64 text past
/// the first thirteen characters. So the modification time and the
/// operating system in the header reach no character of the level data
/// but the thirteen that the level data replaces.
pub proof fn level_data_ignores_header_start(x: Seq<u8>, y: Seq<u8>)
    requires
        x.len() >= 13,
        y.len() >= 13,
        x.skip(10) == y.skip(10),
        x[9] % 4 == y[9] % 4,
    ensures
        base64_standard(x).skip(13) == base64_standard(y).skip(13),
{
    base64_skip_chunks(x, 3);
    base64_skip_chunks(y, 3);
    base64_shape(x);
    base64_shape(y);
    let xs = x.skip(9);
    let ys = y.skip(9);
    assert(xs[1] == ys[1] && xs[2] == ys[2]) by {
        assert(xs[1] == x.skip(10)[0] && ys[1] == y.skip(10)[0]);
        assert(xs[2] == x.skip(10)[1] && ys[2] == y.skip(10)[1]);
    }
    assert(xs.skip(3) =~= ys.skip(3)) by {
        assert(xs.skip(3) =~= x.skip(10).skip(2));
        assert(ys.skip(3) =~= y.skip(10).skip(2));
    }
    let qx = base64_quad(xs[0], xs[1], xs[2], 3);
    let qy = base64_quad(ys[0], ys[1], ys[2], 3);
    assert(qx.skip(1) =~= qy.skip(1));
    if xs.len() > 3 {
        assert(base64_standard(xs) == qx + base64_standard(xs.skip(3)));
        assert(base64_standard(ys) == qy + base64_standard(ys.skip(3)));
        assert((qx + base64_standard(xs.skip(3))).skip(1) =~= qx.skip(1) + base64_standard(xs.skip(3)));
        assert((qy + base64_standard(ys.skip(3))).skip(1) =~= qy.skip(1) + base64_standard(ys.skip(3)));
    } else {
        assert(base64_standard(xs) == qx);
        assert(base64_standard(ys) == qy);
    }
    assert(base64_standard(x).skip(13) =~= base64_standard(x).skip(12).skip(1));
    assert(base64_standard(y).skip(13) =~= base64_standard(y).skip(12).skip(1));
}

/// Compresses the level string `level` and encodes it as the game stores
/// level data. It fails only where the base64 text would be too long.
pub fn encode_level_data(level: &str) -> (res: Result<Vec<u8>, SaveError>)
    ensures
        res is Ok <==> !base64_too_large(level_gzip(level.spec_bytes()).len() as int),
        res matches Ok(v) ==> {
            &&& v@ == level_data_for(level.spec_bytes())
            &&& v@.take(13) == level_data_prefix()
            &&& forall|i: int| 0 <= i < v@.len() ==> #[trigger] v@[i] != 43u8 && v@[i] != 47u8
            &&& standard_from_url_safe(v@) == base64_standard(level_gzip(level.spec_bytes()))
            &&& base64_decoded(standard_from_url_safe(v@)) == Some(level_gzip(level.spec_bytes()))
            &&& gunzipped(level_gzip(level.spec_bytes())) == Some(level.spec_bytes())
        },
        res matches Err(e) ==> e == SaveError::TooLarge,
{
    let compressed = gzip_compress(level.as_bytes());
    let gz = match compressed {
        Ok(gz) => gz,
        // The encoder writes into a `Vec`, which does not fail.
        Err(_) => return Err(SaveError::TooLarge),
    };
    let ghost g = level_gzip(level.spec_bytes());
    proof {
        assert(gz@.skip(10) =~= gzip_body(level.spec_bytes())) by {
            assert(gz@.skip(10) =~= gz@.skip(8).skip(2));
        }
        assert(g.skip(10) =~= gzip_body(level.spec_bytes()));
        assert(gz@.len() == g.len());
    }
    // The stream with the modification time cleared and the operating
    // system byte that the level data's prefix encodes; the level data
    // carries no other trace of these header bytes.
    let mut normalized: Vec<u8> = Vec::new();
    for i in 0..4usize
        invariant
            gz@.len() >= 18,
            normalized@ =~= gz@.take(i as int),
    {
        normalized.push(gz[i]);
    }
    normalized.push(0u8);
    normalized.push(0u8);
    normalized.push(0u8);
    normalized.push(0u8);
    normalized.push(0u8);
    normalized.push(0x0bu8);
    let n = gz.len();
    for i in 10..n
        invariant
            n == gz@.len(),
            n >= 18,
            normalized@ =~= gz@.take(4) + seq![0u8, 0u8, 0u8, 0u8, 0u8, 0x0bu8] + gz@.subrange(10, i as int),
    {
        normalized.push(gz[i]);
    }
    proof {
        assert(gz@.subrange(10, n as int) =~= gz@.skip(10));
        assert(normalized@ =~= g);
    }
    if normalized.len() / 3 >= usize::MAX / 4 - 1 {
        return Err(SaveError::TooLarge);
    }
    let b64 = base64_encode(&normalized);
    proof {
        base64_shape(g);
        assert(g.take(10) =~= seq![0x1fu8, 0x8bu8, 0x08u8, 0u8, 0u8, 0u8, 0u8, 0u8, 0u8, 0x0bu8]);
        lemma_level_data_prefix(g);
        let u = url_safe_from_standard(base64_standard(g));
        assert(u =~= u.take(13) + u.skip(13));
        assert(url_safe_from_standard(b64@).skip(13) =~= u.skip(13));
        url_safe_round_trip(base64_standard(g));
    }
    let data = level_data_from_base64(&b64);
    proof {
        let u = url_safe_from_standard(base64_standard(g));
        assert(data@ == u);
        assert forall|i: int| 0 <= i < u.len() implies #[trigger] u[i] != 43u8 && u[i] != 47u8 by {
            assert(u[i] == url_safe_byte(base64_standard(g)[i]));
        }
    }
    Ok(data)
}

/// The size field of a gzip trailer: the length of the data modulo 2^32.
pub open spec fn size_field(data: Seq<u8>) -> u32 {
    (data.len() % 4294967296) as u32
}

/// The gzip member that the game's save file holds for the XML `xml`.
pub open spec fn save_member(xml: Seq<u8>) -> Seq<u8> {
    gzip_member(zlib_compressed(xml), crc32_ieee(xml), size_field(xml))
}

/// What the game stores for the XML `xml`.
pub open spec fn stored_save_data(xml: Seq<u8>) -> Seq<u8> {
    wrapped_save_text(base64_standard(save_member(xml)))
}

/// The XML that a save file holds, where it can be read: the stored bytes
/// deciphered are UTF-8 text, the text in the standard alphabet is valid
/// base64, and the decoded bytes are a gzip stream.
pub open spec fn save_xml(stored: Seq<u8>) -> Option<Seq<u8>> {
    if valid_utf8(xor_bytes(stored, SAVE_KEY)) {
        match base64_decoded(unwrapped_save_text(stored)) {
            Some(gz) => gunzipped(gz),
            None => None,
        }
    } else {
        None
    }
}

/// Bytes below 128 are well-formed UTF-8.
proof fn lemma_ascii_is_utf8(bytes: Seq<u8>)
    requires
        forall|i: int| 0 <= i < bytes.len() ==> #[trigger] bytes[i] < 128,
    ensures
        valid_utf8(bytes),
    decreases bytes.len(),
{
    if bytes.len() > 0 {
        let b = bytes[0];
        assert(b & 0x7f == b) by (bit_vector)
            requires
                b < 128,
        ;
        let rest = bytes.subrange(1, bytes.len() as int);
        assert forall|i: int| 0 <= i < rest.len() implies #[trigger] rest[i] < 128 by {
            assert(rest[i] == bytes[i + 1]);
        }
        lemma_ascii_is_utf8(rest);
        assert(vstd::utf8::pop_first_scalar(bytes) == rest);
    }
}

/// Compresses the save file's XML and encodes it as the game stores it. It
/// fails only where the base64 text would be too long.
pub fn write_save_xml(xml: &[u8]) -> (res: Result<Vec<u8>, SaveError>)
    ensures
        res is Ok <==> !base64_too_large(zlib_compressed(xml@).len() + 12int),
        res matches Ok(v) ==> {
            &&& v@ == stored_save_data(xml@)
            &&& base64_decoded(unwrapped_save_text(v@)) == Some(save_member(xml@))
            &&& save_xml(v@) == Some(xml@)
        },
        res matches Err(e) ==> e == SaveError::TooLarge,
{
    let compressed = match zlib_compress(xml) {
        Ok(c) => c,
        // The encoder writes into a `Vec`, which does not fail.
        Err(_) => return Err(SaveError::TooLarge),
    };
    let checksum = crc32(xml);
    let data_size: u32 = ((xml.len() as u64) % 4294967296u64) as u32;
    let member = gzip_member_from_zlib(compressed.as_slice(), checksum, data_size);
    if member.len() / 3 >= usize::MAX / 4 - 1 {
        return Err(SaveError::TooLarge);
    }
    let encoded = base64_encode(member.as_slice());
    let stored = wrap_save_text(&encoded);
    proof {
        base64_shape(member@);
        save_text_round_trip(encoded@);
        let t = seq![0u8, 0u8, 0u8, 0u8, 0u8, 0x0bu8];
        let z = compressed@;
        assert(gzip_frame(t, z.subrange(2, z.len() - 4), crc32_ieee(xml@), size_field(xml@)) =~= member@);
        let url = url_safe_from_standard(encoded@);
        xor_is_an_involution(url, SAVE_KEY);
        assert forall|i: int| 0 <= i < url.len() implies #[trigger] url[i] < 128 by {
            assert(is_standard_base64_byte(encoded@[i]));
        }
        lemma_ascii_is_utf8(url);
    }
    Ok(stored)
}

/// Reads the XML out of the stored bytes of a save file.
pub fn read_save_xml(stored: Vec<u8>) -> (res: Result<Vec<u8>, SaveError>)
    ensures
        match res {
            Ok(xml) => save_xml(stored@) == Some(xml@),
            Err(_) => save_xml(stored@) is None,
        },
        match res {
            Ok(xml) => {
                &&& valid_utf8(xor_bytes(stored@, SAVE_KEY))
                &&& base64_decoded(unwrapped_save_text(stored@)) matches Some(gz) && gunzipped(gz) == Some(xml@)
            },
            Err(SaveError::Utf8) => !valid_utf8(xor_bytes(stored@, SAVE_KEY)),
            Err(SaveError::Base64) => valid_utf8(xor_bytes(stored@, SAVE_KEY)) && base64_decoded(
                unwrapped_save_text(stored@),
            ) is None,
            Err(SaveError::Gzip) => {
                &&& valid_utf8(xor_bytes(stored@, SAVE_KEY))
                &&& base64_decoded(unwrapped_save_text(stored@)) matches Some(gz) && gunzipped(gz) is None
            },
            Err(_) => false,
        },
{
    let plain = xor(stored, SAVE_KEY);
    if !is_utf8(plain.as_slice()) {
        return Err(SaveError::Utf8);
    }
    let text = to_standard_alphabet(&plain);
    let compressed = match base64_decode(text.as_slice()) {
        Ok(c) => c,
        Err(_) => return Err(SaveError::Base64),
    };
    match gunzip(compressed.as_slice()) {
        Ok(xml) => Ok(xml),
        Err(_) => Err(SaveError::Gzip),
    }
}

/// The bytes of a save file with the level data in place, and the names of
/// the levels that the rewrite reported.
pub struct SaveRewrite {
    pub data: Vec<u8>,
    pub level_names: Vec<String>,
}

/// The rewrite of the save XML `xml`, of `n` events, with the level data
/// of `level` can go through: the level data, if it goes in, and the
/// rewritten file are short enough to encode.
pub open spec fn save_rewrite_fits(xml: Seq<u8>, n: nat, level: Seq<u8>) -> bool {
    &&& !level_data_too_large(xml, n, level)
    &&& !base64_too_large(zlib_compressed(rewritten_xml(xml, n, level_data_for(level))).len() + 12int)
}

/// Puts the level data of `level` into the save file whose bytes are
/// `stored`: reads the XML out of it, rewrites the XML, and encodes the
/// result as the game stores it. Reading the written data back gives the
/// rewritten XML.
pub fn rewrite_save_data(stored: Vec<u8>, level: &str) -> (res: Result<SaveRewrite, SaveError>)
    ensures
        match res {
            Ok(r) => exists|xml: Seq<u8>, n: nat|
                {
                    &&& save_xml(stored@) == Some(xml)
                    &&& #[trigger] reads_events(xml, n)
                    &&& save_rewrite_fits(xml, n, level.spec_bytes())
                    &&& r.data@ == stored_save_data(rewritten_xml(xml, n, level_data_for(level.spec_bytes())))
                    &&& save_xml(r.data@) == Some(rewritten_xml(xml, n, level_data_for(level.spec_bytes())))
                    &&& base64_decoded(unwrapped_save_text(r.data@)) == Some(
                        save_member(rewritten_xml(xml, n, level_data_for(level.spec_bytes()))),
                    )
                    &&& r.level_names@.map_values(|s: String| s@) == announced_texts(document_texts(xml, n))
                },
            Err(SaveError::Utf8) => !valid_utf8(xor_bytes(stored@, SAVE_KEY)),
            Err(SaveError::Base64) => valid_utf8(xor_bytes(stored@, SAVE_KEY)) && base64_decoded(
                unwrapped_save_text(stored@),
            ) is None,
            Err(SaveError::Gzip) => {
                &&& valid_utf8(xor_bytes(stored@, SAVE_KEY))
                &&& base64_decoded(unwrapped_save_text(stored@)) matches Some(gz) && gunzipped(gz) is None
            },
            Err(SaveError::Xml(_)) => save_xml(stored@) matches Some(xml) && !xml_parses(xml),
            Err(SaveError::TooLarge) => exists|xml: Seq<u8>, n: nat|
                {
                    &&& save_xml(stored@) == Some(xml)
                    &&& #[trigger] reads_events(xml, n)
                    &&& !save_rewrite_fits(xml, n, level.spec_bytes())
                },
        },
{
    let xml = match read_save_xml(stored) {
        Ok(x) => x,
        Err(e) => return Err(e),
    };
    let rewritten = match rewrite_level_xml(xml.as_slice(), level) {
        Ok(r) => r,
        Err(e) => return Err(e),
    };
    let ghost n = choose|n: nat|
        {
            &&& #[trigger] reads_events(xml@, n)
            &&& !level_data_too_large(xml@, n, level.spec_bytes())
            &&& rewritten.xml@ == rewritten_xml(xml@, n, level_data_for(level.spec_bytes()))
            &&& rewritten.level_names@.map_values(|s: String| s@) == announced_texts(document_texts(xml@, n))
        };
    let data = match write_save_xml(rewritten.xml.as_slice()) {
        Ok(d) => d,
        Err(e) => {
            assert(!save_rewrite_fits(xml@, n, level.spec_bytes()));
            return Err(e);
        },
    };
    let res = SaveRewrite { data, level_names: rewritten.level_names };
    assert(save_rewrite_fits(xml@, n, level.spec_bytes()));
    Ok(res)
}

} // verus!
