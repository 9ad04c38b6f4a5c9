use gd_level::codec::gzip_member_from_zlib;
use gd_level::codec::level_data_from_base64;
use gd_level::codec::to_standard_alphabet;
use gd_level::codec::to_url_safe_alphabet;
use gd_level::codec::u32_to_le_bytes;
use gd_level::codec::wrap_save_text;
use gd_level::codec::xor;
use gd_level::codec::SAVE_KEY;

#[test]
fn xor_flips_bits_of_every_byte() {
    assert_eq!(xor(vec![1, 2, 3, 0xff], 1), vec![0, 3, 2, 0xfe]);
    assert_eq!(xor(vec![b'C'], SAVE_KEY), vec![b'H']);
    assert_eq!(xor(Vec::new(), 11), Vec::<u8>::new());
}

#[test]
fn xor_twice_gives_the_data_back() {
    let data: Vec<u8> = (0..=255u8).collect();
    assert_eq!(xor(xor(data.clone(), 11), 11), data);
}

#[test]
fn url_safe_text_becomes_standard() {
    assert_eq!(to_standard_alphabet(&b"a-b_c\0\0d".to_vec()), b"a+b/cd".to_vec());
}

#[test]
fn standard_text_becomes_url_safe() {
    assert_eq!(to_url_safe_alphabet(&b"a+b/c=".to_vec()), b"a-b_c=".to_vec());
}

#[test]
fn save_text_round_trip() {
    let text = b"H4sIAAAAAAAAC+/aGVsbG8=".to_vec();
    let stored = wrap_save_text(&text);
    assert_ne!(stored, text);
    assert_eq!(to_standard_alphabet(&xor(stored, SAVE_KEY)), text);
}

#[test]
fn little_endian_bytes() {
    assert_eq!(u32_to_le_bytes(0xCBF4_3926), [0x26, 0x39, 0xF4, 0xCB]);
    assert_eq!(u32_to_le_bytes(0), [0, 0, 0, 0]);
}

#[test]
fn gzip_member_from_zlib_stream() {
    let zlib = [0x78, 0x9c, 0xAA, 0xBB, 1, 2, 3, 4];
    let member = gzip_member_from_zlib(&zlib, 0x0403_0201, 9);
    assert_eq!(
        member,
        vec![0x1f, 0x8b, 0x08, 0, 0, 0, 0, 0, 0, 0x0b, 0xAA, 0xBB, 1, 2, 3, 4, 9, 0, 0, 0]
    );
}

#[test]
fn gzip_member_of_empty_deflate_data() {
    let member = gzip_member_from_zlib(&[1, 2, 3, 4, 5, 6], 0, 0);
    assert_eq!(member.len(), 18);
}

#[test]
fn level_data_prefix_replaces_thirteen_characters() {
    let b64 = b"ABCDEFGHIJKLMN+/O".to_vec();
    assert_eq!(level_data_from_base64(&b64), b"H4sIAAAAAAAACN-_O".to_vec());
}
