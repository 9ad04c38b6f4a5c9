use std::io::Read;

use gd_level::codec::to_standard_alphabet;
use gd_level::codec::xor;
use gd_level::codec::SAVE_KEY;
use gd_level::codec::wrap_save_text;
use gd_level::save::encode_level_data;
use gd_level::save::read_save_xml;
use gd_level::save::rewrite_save_data;
use gd_level::save::write_save_xml;
use gd_level::save::SaveError;
use gd_level::xml::plan_level_rewrite;
use gd_level::xml::rewrite_level_xml;

fn gunzip_all(data: &[u8]) -> Vec<u8> {
    let mut decoder = libflate::gzip::Decoder::new(data).unwrap();
    let mut out = Vec::new();
    decoder.read_to_end(&mut out).unwrap();
    out
}

fn level_data_plain(data: &[u8]) -> Vec<u8> {
    let standard: Vec<u8> = data
        .iter()
        .map(|b| match *b {
            b'-' => b'+',
            b'_' => b'/',
            other => other,
        })
        .collect();
    gunzip_all(&base64::decode(&standard).unwrap())
}

#[test]
fn level_data_starts_with_the_fixed_header() {
    let data = encode_level_data(";1,1,;").unwrap();
    assert!(data.starts_with(b"H4sIAAAAAAAAC"));
    assert!(!data.contains(&b'+'));
    assert!(!data.contains(&b'/'));
}

#[test]
fn level_data_decodes_to_the_level_string() {
    let level = ";1,1,2,15,3,45,;1,1753,6,-90,32,0.5,;";
    let data = encode_level_data(level).unwrap();
    assert_eq!(level_data_plain(&data), level.as_bytes().to_vec());
}

#[test]
fn level_data_does_not_depend_on_the_time() {
    let first = encode_level_data("abc").unwrap();
    let second = encode_level_data("abc").unwrap();
    assert_eq!(first, second);
}

#[test]
fn save_xml_round_trip() {
    let xml = b"<?xml version=\"1.0\"?><plist><dict><k>k2</k><s>Level</s></dict></plist>".to_vec();
    let stored = write_save_xml(&xml).unwrap();
    assert_eq!(read_save_xml(stored).unwrap(), xml);
}

#[test]
fn save_trailer_holds_crc_and_size() {
    let stored = write_save_xml(b"123456789").unwrap();
    let text = to_standard_alphabet(&xor(stored, SAVE_KEY));
    let member = base64::decode(&text).unwrap();
    let n = member.len();
    assert_eq!(&member[..10], &[0x1f, 0x8b, 0x08, 0, 0, 0, 0, 0, 0, 0x0b]);
    assert_eq!(&member[n - 8..n - 4], &0xCBF4_3926u32.to_le_bytes());
    assert_eq!(&member[n - 4..], &9u32.to_le_bytes());
    assert_eq!(gunzip_all(&member), b"123456789".to_vec());
}

#[test]
fn text_that_is_not_utf8_is_reported() {
    assert_eq!(read_save_xml(vec![0xff ^ SAVE_KEY]), Err(SaveError::Utf8));
    assert_eq!(rewrite_save_data(vec![0xc0 ^ SAVE_KEY, 0x80 ^ SAVE_KEY], "x").err(), Some(SaveError::Utf8));
}

#[test]
fn invalid_base64_is_reported() {
    let stored = wrap_save_text(&b"%%%%".to_vec());
    assert_eq!(read_save_xml(stored), Err(SaveError::Base64));
}

#[test]
fn data_that_is_not_gzip_is_reported() {
    let stored = wrap_save_text(&base64::encode(b"plain text").into_bytes());
    assert_eq!(read_save_xml(stored), Err(SaveError::Gzip));
}

fn texts(items: &[Option<&str>]) -> Vec<Option<String>> {
    items.iter().map(|t| t.map(|s| s.to_string())).collect()
}

#[test]
fn plan_replaces_the_text_after_the_first_k4() {
    let plan = plan_level_rewrite(&texts(&[
        Some("k2"),
        None,
        Some("My level"),
        Some("k4"),
        None,
        None,
        Some("old data"),
        Some("k4"),
        Some("other"),
    ]));
    assert_eq!(plan.replace, Some(6));
    assert_eq!(plan.announce, vec![2]);
}

#[test]
fn plan_without_k4_replaces_nothing() {
    let plan = plan_level_rewrite(&texts(&[Some("k2"), Some("A"), Some("k2"), Some("B")]));
    assert_eq!(plan.replace, None);
    assert_eq!(plan.announce, vec![1, 3]);
}

#[test]
fn plan_with_k4_last_replaces_nothing() {
    let plan = plan_level_rewrite(&texts(&[Some("x"), Some("k4")]));
    assert_eq!(plan.replace, None);
    assert_eq!(plan.announce, Vec::<usize>::new());
}

#[test]
fn plan_stops_announcing_after_the_replacement() {
    let plan = plan_level_rewrite(&texts(&[Some("k4"), Some("k2"), Some("k2"), Some("name")]));
    assert_eq!(plan.replace, Some(1));
    assert_eq!(plan.announce, Vec::<usize>::new());
}

#[test]
fn plan_replaced_k4_text_counts_as_the_data() {
    let plan = plan_level_rewrite(&texts(&[Some("k4"), Some("k4"), Some("x")]));
    assert_eq!(plan.replace, Some(1));
}

#[test]
fn plan_announces_a_k2_text_after_k2() {
    let plan = plan_level_rewrite(&texts(&[Some("k2"), Some("k2"), Some("n")]));
    assert_eq!(plan.announce, vec![1, 2]);
}

const SAVE_XML: &str = "<?xml version=\"1.0\"?><plist version=\"1.0\" gjver=\"2.0\"><dict><k>_isArr</k><t /><k>k_0</k><d><k>kCEK</k><i>4</i><k>k2</k><s>My Level</s><k>k4</k><s>H4sIAAAAAAAAC0tMTAQAjDVCYQQAAAA=</s><k>k5</k><s>me</s></d></dict></plist>";

#[test]
fn xml_rewrite_replaces_the_level_data() {
    let out = rewrite_level_xml(SAVE_XML.as_bytes(), ";1,1,;").unwrap();
    assert_eq!(out.level_names, vec!["My Level".to_string()]);
    let data = String::from_utf8(encode_level_data(";1,1,;").unwrap()).unwrap();
    let expected = SAVE_XML.replace("H4sIAAAAAAAAC0tMTAQAjDVCYQQAAAA=", &data);
    assert_eq!(String::from_utf8(out.xml).unwrap(), expected);
}

#[test]
fn xml_without_k4_is_written_back_unchanged() {
    let xml = "<a><k>k2</k><s>Name</s><b x=\"1\"/></a>";
    let out = rewrite_level_xml(xml.as_bytes(), "abc").unwrap();
    assert_eq!(String::from_utf8(out.xml).unwrap(), xml);
    assert_eq!(out.level_names, vec!["Name".to_string()]);
}

#[test]
fn malformed_xml_is_reported() {
    let res = rewrite_level_xml(b"<a></b>", "abc");
    assert!(matches!(res, Err(SaveError::Xml(_))));
}

#[test]
fn whole_save_file_rewrite() {
    let stored = write_save_xml(SAVE_XML.as_bytes()).unwrap();
    let out = rewrite_save_data(stored, ";1,1,;1,2,;").unwrap();
    assert_eq!(out.level_names, vec!["My Level".to_string()]);
    let xml = String::from_utf8(read_save_xml(out.data).unwrap()).unwrap();
    let start = xml.find("<k>k4</k><s>").unwrap() + "<k>k4</k><s>".len();
    let end = start + xml[start..].find("</s>").unwrap();
    assert_eq!(level_data_plain(xml[start..end].as_bytes()), b";1,1,;1,2,;".to_vec());
}

#[test]
fn whole_save_file_with_bad_base64() {
    assert_eq!(rewrite_save_data(b"\x01\x02".to_vec(), "x").err(), Some(SaveError::Base64));
}

#[test]
fn rewritten_save_trailer_matches_the_rewritten_xml() {
    let stored = write_save_xml(SAVE_XML.as_bytes()).unwrap();
    let out = rewrite_save_data(stored, ";1,5,;").unwrap();
    let member = base64::decode(&to_standard_alphabet(&xor(out.data.clone(), SAVE_KEY))).unwrap();
    let xml = read_save_xml(out.data).unwrap();
    let n = member.len();
    assert_eq!(&member[..10], &[0x1f, 0x8b, 0x08, 0, 0, 0, 0, 0, 0, 0x0b]);
    assert_eq!(&member[n - 8..n - 4], &crc32fast::hash(&xml).to_le_bytes());
    assert_eq!(&member[n - 4..], &(xml.len() as u32).to_le_bytes());
}

#[test]
fn save_without_k4_reads_back_unchanged() {
    let xml = "<plist><dict><k>k2</k><s>Name</s><k>k5</k><s>me</s></dict></plist>";
    let stored = write_save_xml(xml.as_bytes()).unwrap();
    let out = rewrite_save_data(stored, ";1,1,;").unwrap();
    assert_eq!(out.level_names, vec!["Name".to_string()]);
    assert_eq!(read_save_xml(out.data).unwrap(), xml.as_bytes().to_vec());
}

#[test]
fn level_data_is_url_safe_base64_of_a_gzip_stream() {
    let data = encode_level_data("a level").unwrap();
    let standard = to_standard_alphabet(&data);
    let gz = base64::decode(&standard).unwrap();
    assert_eq!(&gz[..10], &[0x1f, 0x8b, 0x08, 0, 0, 0, 0, 0, 0, 0x0b]);
    assert_eq!(gunzip_all(&gz), b"a level".to_vec());
}
