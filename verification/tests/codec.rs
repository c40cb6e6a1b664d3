use asar_archive::decimal::from_decimal;
use asar_archive::decimal::to_decimal;
use asar_archive::decimal::NumberFault;
use asar_archive::layout::assemble;
use asar_archive::layout::header_size;
use asar_archive::layout::read_sizes;
use asar_archive::Archive;
use asar_archive::DirEntry;
use asar_archive::Entry;
use asar_archive::Error;
use asar_archive::FileEntry;
use asar_archive::Json;
use asar_archive::JsonMap;

fn file(name: &str, data: &[u8]) -> Entry {
    Entry::File(FileEntry::new(name.to_string(), data.to_vec()))
}

fn dir(name: &str, children: Vec<Entry>) -> Entry {
    let mut d = DirEntry::new(name.to_string());
    for child in children {
        assert!(d.insert(child).is_none());
    }
    Entry::Dir(d)
}

fn sample() -> Archive {
    let mut archive = Archive::new();
    assert!(archive.insert(file("readme.txt", b"hello")).is_none());
    assert!(archive.insert(dir("sub", vec![file("data.bin", &[1, 2, 3])])).is_none());
    archive
}

fn le32(bytes: &[u8], at: usize) -> u32 {
    u32::from_le_bytes([bytes[at], bytes[at + 1], bytes[at + 2], bytes[at + 3]])
}

/// An archive image with `header` as its JSON text and `data` behind it.
fn image(header: &str, data: &[u8]) -> Vec<u8> {
    assemble(header.as_bytes(), data)
}

const SAMPLE_HEADER: &str = "{\"files\":{\"readme.txt\":{\"offset\":\"0\",\"size\":5},\"sub\":{\"files\":{\"data.bin\":{\"offset\":\"5\",\"size\":3}}}}}";

#[test]
fn loading() {
    let bytes = sample().pack().unwrap();
    let asar = Archive::read(&bytes).unwrap();
    let again = asar.pack().unwrap();
    assert_eq!(again, bytes);
}

#[test]
fn pack_sample_layout() {
    let bytes = sample().pack().unwrap();
    let json_size = SAMPLE_HEADER.len();
    let padded = (json_size + 3) / 4 * 4;
    assert_eq!(le32(&bytes, 0), 4);
    assert_eq!(le32(&bytes, 4) as usize, padded + 8);
    assert_eq!(le32(&bytes, 8) as usize, padded + 4);
    assert_eq!(le32(&bytes, 12) as usize, json_size);
    assert_eq!(&bytes[16..16 + json_size], SAMPLE_HEADER.as_bytes());
    assert!(bytes[16 + json_size..16 + padded].iter().all(|b| *b == 0));
    assert_eq!(&bytes[16 + padded..], b"hello\x01\x02\x03");
    assert_eq!(bytes.len(), 16 + padded + 8);
}

#[test]
fn pack_sample_header_records() {
    let bytes = sample().pack().unwrap();
    let json_size = le32(&bytes, 12) as usize;
    let header = Json::parse(&bytes[16..16 + json_size]).unwrap();
    let files = header.get("files").unwrap();
    let readme = files.get("readme.txt").unwrap();
    assert_eq!(readme.get("offset").unwrap().as_str(), Some("0"));
    assert!(matches!(readme.get("size"), Some(Json::Number(Some(5)))));
    let data = files.get("sub").unwrap().get("files").unwrap().get("data.bin").unwrap();
    assert_eq!(data.get("offset").unwrap().as_str(), Some("5"));
    assert!(matches!(data.get("size"), Some(Json::Number(Some(3)))));
}

#[test]
fn round_trip_keeps_names_shape_and_bytes() {
    let mut archive = sample();
    archive.insert(dir(
        "deep",
        vec![
            dir("er", vec![file("z", b"zz"), file("a", b""), dir("empty", vec![])]),
            file("b", &[0, 255, 7]),
        ],
    ));
    let bytes = archive.pack().unwrap();
    let read = Archive::read(&bytes).unwrap();
    assert_eq!(read.get_file("readme.txt").unwrap().as_bytes(), b"hello");
    assert_eq!(read.get_file("sub/data.bin").unwrap().as_bytes(), &[1, 2, 3]);
    assert_eq!(read.get_file("deep/er/z").unwrap().as_bytes(), b"zz");
    assert_eq!(read.get_file("deep/er/a").unwrap().as_bytes(), b"");
    assert_eq!(read.get_file("deep/b").unwrap().as_bytes(), &[0, 255, 7]);
    assert_eq!(read.get_dir("deep/er/empty").unwrap().entries().len(), 0);
    assert_eq!(read.get_dir("deep/er").unwrap().entries().len(), 3);
    assert_eq!(read.get_dir("deep").unwrap().name(), "deep");
    assert!(read.get_file("deep").is_none());
    assert!(read.get_dir("readme.txt").is_none());
    assert!(read.get_file("deep/er/missing").is_none());
}

#[test]
fn round_trip_of_names_that_need_escaping() {
    let mut archive = Archive::new();
    archive.insert(file("quote\"back\\slash", b"1"));
    archive.insert(file("tab\tnew\nline", b"22"));
    archive.insert(file("\u{e9}\u{4e16}\u{1f600}", b"333"));
    let bytes = archive.pack().unwrap();
    let read = Archive::read(&bytes).unwrap();
    assert_eq!(read.get_file("quote\"back\\slash").unwrap().as_bytes(), b"1");
    assert_eq!(read.get_file("tab\tnew\nline").unwrap().as_bytes(), b"22");
    assert_eq!(read.get_file("\u{e9}\u{4e16}\u{1f600}").unwrap().as_bytes(), b"333");
}

#[test]
fn empty_archive_round_trip() {
    let bytes = Archive::new().pack().unwrap();
    assert_eq!(&bytes[16..], b"{\"files\":{}}");
    assert_eq!(le32(&bytes, 12), 12);
    assert_eq!(le32(&bytes, 4), 20);
    let read = Archive::read(&bytes).unwrap();
    assert!(read.get_file("anything").is_none());
}

#[test]
fn offsets_follow_one_another() {
    let mut archive = Archive::new();
    archive.insert(file("a", b"12345"));
    archive.insert(dir("d", vec![file("b", b"678"), file("c", b"")]));
    archive.insert(file("e", b"9"));
    let bytes = archive.pack().unwrap();
    let json_size = le32(&bytes, 12) as usize;
    let header = Json::parse(&bytes[16..16 + json_size]).unwrap();
    let files = header.get("files").unwrap();
    let offset = |entry: &Json| entry.get("offset").unwrap().as_str().unwrap().to_string();
    assert_eq!(offset(files.get("a").unwrap()), "0");
    let d = files.get("d").unwrap().get("files").unwrap();
    assert_eq!(offset(d.get("b").unwrap()), "5");
    assert_eq!(offset(d.get("c").unwrap()), "8");
    assert_eq!(offset(files.get("e").unwrap()), "8");
    let start = le32(&bytes, 4) as usize + 8;
    assert_eq!(&bytes[start..], b"123456789");
}

#[test]
fn header_size_is_aligned() {
    assert_eq!(header_size(0), 0);
    assert_eq!(header_size(1), 4);
    assert_eq!(header_size(2), 4);
    assert_eq!(header_size(3), 4);
    assert_eq!(header_size(4), 4);
    assert_eq!(header_size(5), 8);
    assert_eq!(header_size(101), 104);
    for n in 0..64usize {
        let h = header_size(n);
        assert_eq!(h % 4, 0);
        assert!(h >= n && h < n + 4);
    }
}

#[test]
fn assemble_writes_preamble_padding_and_data() {
    let bytes = assemble(b"{}abc", b"xy");
    assert_eq!(
        bytes,
        vec![4, 0, 0, 0, 16, 0, 0, 0, 12, 0, 0, 0, 5, 0, 0, 0, b'{', b'}', b'a', b'b', b'c', 0, 0, 0, b'x', b'y']
    );
    let large = assemble(&vec![b' '; 0x1_02_03], b"");
    assert_eq!(&large[12..16], &[0x03, 0x02, 0x01, 0x00]);
    assert_eq!(&large[4..8], &[0x0c, 0x02, 0x01, 0x00]);
}

#[test]
fn read_sizes_takes_the_second_and_fourth_field() {
    let mut bytes = vec![9, 9, 9, 9, 0x10, 0x20, 0x30, 0x40, 7, 7, 7, 7, 1, 2, 3, 4];
    assert_eq!(read_sizes(&bytes).unwrap(), (0x04030201, 0x40302010u64 + 8));
    bytes[4..8].copy_from_slice(&[0xff; 4]);
    assert_eq!(read_sizes(&bytes).unwrap().1, 0xffff_ffffu64 + 8);
    assert!(matches!(read_sizes(&bytes[..15]), Err(Error::IOErr(_))));
    assert!(matches!(read_sizes(&[]), Err(Error::IOErr(_))));
}

#[test]
fn truncated_header_is_invalid_json() {
    let cut = &SAMPLE_HEADER[..40];
    let bytes = image(cut, b"hello\x01\x02\x03");
    assert!(matches!(Archive::read(&bytes), Err(Error::InvalidJson(_))));
    let bytes = image("", b"");
    assert!(matches!(Archive::read(&bytes), Err(Error::InvalidJson(_))));
}

#[test]
fn numeric_offset_is_a_format_error_naming_the_file() {
    let bytes = image("{\"files\":{\"a.txt\":{\"size\":1,\"offset\":0}}}", b"x");
    match Archive::read(&bytes) {
        Err(Error::InvalidJsonFormat(msg)) => {
            assert_eq!(msg, "The 'offset' field is present in file entry a.txt, but is not a string");
        }
        other => panic!("unexpected {:?}", other),
    }
}

fn format_error(header: &str, data: &[u8]) -> String {
    match Archive::read(&image(header, data)) {
        Err(Error::InvalidJsonFormat(msg)) => msg,
        other => panic!("unexpected {:?}", other),
    }
}

#[test]
fn format_errors_say_what_is_wrong() {
    assert_eq!(format_error("{}", b""), "The 'files' object in the JSON header is not present");
    assert_eq!(format_error("[1]", b""), "The 'files' object in the JSON header is not present");
    assert_eq!(
        format_error("{\"files\":3}", b""),
        "The 'files' field is present in the JSON header, but is not an object"
    );
    assert_eq!(
        format_error("{\"files\":{\"x\":true}}", b""),
        "Value x in the header is not a JSON object"
    );
    assert_eq!(
        format_error("{\"files\":{\"d\":{\"files\":{\"y\":[]}}}}", b""),
        "The directory y is present in header JSON but is not an object"
    );
    assert_eq!(
        format_error("{\"files\":{\"d\":{}}}", b""),
        "The 'files' object for directory d does not exist"
    );
    assert_eq!(
        format_error("{\"files\":{\"d\":{\"files\":\"no\"}}}", b""),
        "The 'files' field exists for directory d, but is not an object"
    );
    assert_eq!(
        format_error("{\"files\":{\"f\":{\"size\":2}}}", b"ab"),
        "The 'offset' field in file f is not present"
    );
    assert_eq!(
        format_error("{\"files\":{\"f\":{\"size\":2,\"offset\":\"1x\"}}}", b"ab"),
        "The 'offset' field is present and is a string in file f, but could not be parsed as an integer value: invalid digit found in string"
    );
    assert_eq!(
        format_error("{\"files\":{\"f\":{\"size\":2,\"offset\":\"\"}}}", b"ab"),
        "The 'offset' field is present and is a string in file f, but could not be parsed as an integer value: cannot parse integer from empty string"
    );
    assert_eq!(
        format_error("{\"files\":{\"f\":{\"size\":2,\"offset\":\"18446744073709551616\"}}}", b"ab"),
        "The 'offset' field is present and is a string in file f, but could not be parsed as an integer value: number too large to fit in target type"
    );
    assert_eq!(
        format_error("{\"files\":{\"f\":{\"size\":-2,\"offset\":\"0\"}}}", b"ab"),
        "The 'size' field in file f is not an unsigned integer"
    );
    assert_eq!(
        format_error("{\"files\":{\"f\":{\"size\":1.5,\"offset\":\"0\"}}}", b"ab"),
        "The 'size' field in file f is not an unsigned integer"
    );
}

#[test]
fn the_first_faulty_entry_gives_the_error() {
    assert_eq!(
        format_error("{\"files\":{\"a\":1,\"b\":2}}", b""),
        "Value a in the header is not a JSON object"
    );
    let bytes = image("{\"files\":{\"a\":{\"size\":9,\"offset\":\"0\"},\"b\":2}}", b"");
    assert!(matches!(Archive::read(&bytes), Err(Error::IOErr(_))));
}

#[test]
fn short_sources_are_io_errors() {
    assert!(matches!(Archive::read(&[]), Err(Error::IOErr(_))));
    assert!(matches!(Archive::read(&[4, 0, 0, 0, 20, 0, 0, 0, 16, 0, 0, 0, 12, 0, 0]), Err(Error::IOErr(_))));
    let whole = Archive::new().pack().unwrap();
    assert!(matches!(Archive::read(&whole[..whole.len() - 1]), Err(Error::IOErr(_))));
    let bytes = image("{\"files\":{\"f\":{\"size\":3,\"offset\":\"0\"}}}", b"ab");
    assert!(matches!(Archive::read(&bytes), Err(Error::IOErr(_))));
    let bytes = image("{\"files\":{\"f\":{\"size\":1,\"offset\":\"2\"}}}", b"ab");
    assert!(matches!(Archive::read(&bytes), Err(Error::IOErr(_))));
    let bytes = image("{\"files\":{\"f\":{\"size\":1,\"offset\":\"18446744073709551615\"}}}", b"ab");
    assert!(matches!(Archive::read(&bytes), Err(Error::IOErr(_))));
    let bytes = image("{\"files\":{\"f\":{\"size\":18446744073709551615,\"offset\":\"1\"}}}", b"ab");
    assert!(matches!(Archive::read(&bytes), Err(Error::IOErr(_))));
}

#[test]
fn files_may_share_and_reorder_bytes() {
    let bytes = image(
        "{\"files\":{\"a\":{\"size\":2,\"offset\":\"3\"},\"b\":{\"size\":4,\"offset\":\"+0\"},\"c\":{\"size\":0,\"offset\":\"5\"}}}",
        b"01234",
    );
    let read = Archive::read(&bytes).unwrap();
    assert_eq!(read.get_file("a").unwrap().as_bytes(), b"34");
    assert_eq!(read.get_file("b").unwrap().as_bytes(), b"0123");
    assert_eq!(read.get_file("c").unwrap().as_bytes(), b"");
    assert_eq!(read.get_file("c").unwrap().size(), 0);
}

#[test]
fn a_file_of_no_bytes_is_read_wherever_its_offset_lies() {
    let bytes = image("{\"files\":{\"e\":{\"size\":0,\"offset\":\"5\"}}}", b"");
    let read = Archive::read(&bytes).unwrap();
    assert_eq!(read.get_file("e").unwrap().as_bytes(), b"");
    let bytes = image("{\"files\":{\"e\":{\"size\":0,\"offset\":\"18446744073709551615\"}}}", b"ab");
    let read = Archive::read(&bytes).unwrap();
    assert_eq!(read.get_file("e").unwrap().size(), 0);
    let mut obj = JsonMap::new();
    obj.insert("size".to_string(), Json::Number(Some(0)));
    obj.insert("offset".to_string(), Json::Text("5".to_string()));
    let entry = Entry::from_json("e", &obj, b"", 0).unwrap();
    assert_eq!(entry.as_file().unwrap().as_bytes(), b"");
    assert_eq!(
        format_error("{\"files\":{\"e\":{\"size\":0,\"offset\":\"x\"}}}", b""),
        "The 'offset' field is present and is a string in file e, but could not be parsed as an integer value: invalid digit found in string"
    );
    assert_eq!(
        format_error("{\"files\":{\"e\":{\"size\":0}}}", b""),
        "The 'offset' field in file e is not present"
    );
    let bytes = image("{\"files\":{\"e\":{\"size\":1,\"offset\":\"5\"}}}", b"");
    assert!(matches!(Archive::read(&bytes), Err(Error::IOErr(_))));
}

#[test]
fn packing_twice_gives_the_same_bytes() {
    let archive = sample();
    let first = archive.pack().unwrap();
    let second = archive.pack().unwrap();
    assert_eq!(first, second);
}

#[test]
fn data_starts_where_the_second_field_says() {
    let mut bytes = image("{\"files\":{\"a\":{\"size\":2,\"offset\":\"0\"}}}", b"xyz");
    let start = le32(&bytes, 4);
    bytes[4..8].copy_from_slice(&(start + 1).to_le_bytes());
    let read = Archive::read(&bytes).unwrap();
    assert_eq!(read.get_file("a").unwrap().as_bytes(), b"yz");
}

#[test]
fn an_object_with_a_numeric_size_is_a_file() {
    let mut obj = JsonMap::new();
    obj.insert("size".to_string(), Json::Number(Some(2)));
    obj.insert("offset".to_string(), Json::Text("1".to_string()));
    obj.insert("files".to_string(), Json::Object(JsonMap::new()));
    let entry = Entry::from_json("f", &obj, b"..abc", 2).unwrap();
    assert_eq!(entry.name(), "f");
    assert_eq!(entry.as_file().unwrap().as_bytes(), b"bc");
    assert!(entry.as_dir().is_none());
}

#[test]
fn an_object_without_a_numeric_size_is_a_directory() {
    let mut inner = JsonMap::new();
    inner.insert("size".to_string(), Json::Number(Some(1)));
    inner.insert("offset".to_string(), Json::Text("0".to_string()));
    let mut children = JsonMap::new();
    children.insert("x".to_string(), Json::Object(inner));
    let mut obj = JsonMap::new();
    obj.insert("size".to_string(), Json::Text("12".to_string()));
    obj.insert("offset".to_string(), Json::Text("0".to_string()));
    obj.insert("files".to_string(), Json::Object(children));
    let entry = Entry::from_json("d", &obj, b"Q", 0).unwrap();
    let d = entry.as_dir().unwrap();
    assert_eq!(d.name(), "d");
    assert_eq!(d.files().len(), 1);
    assert_eq!(d.files()[0].name(), "x");
    assert_eq!(d.files()[0].as_bytes(), b"Q");
    assert!(entry.as_file().is_none());

    let mut neither = JsonMap::new();
    neither.insert("size".to_string(), Json::Null);
    match Entry::from_json("n", &neither, b"", 0) {
        Err(Error::InvalidJsonFormat(msg)) => {
            assert_eq!(msg, "The 'files' object for directory n does not exist")
        }
        other => panic!("unexpected {:?}", other),
    }
}

#[test]
fn decimal_text_of_numbers() {
    assert_eq!(to_decimal(0), "0");
    assert_eq!(to_decimal(7), "7");
    assert_eq!(to_decimal(10), "10");
    assert_eq!(to_decimal(1234567890), "1234567890");
    assert_eq!(to_decimal(u64::MAX), "18446744073709551615");
}

#[test]
fn numbers_of_decimal_text() {
    assert_eq!(from_decimal("0"), Ok(0));
    assert_eq!(from_decimal("007"), Ok(7));
    assert_eq!(from_decimal("+15"), Ok(15));
    assert_eq!(from_decimal("18446744073709551615"), Ok(u64::MAX));
    assert_eq!(from_decimal("18446744073709551616"), Err(NumberFault::Overflow));
    assert_eq!(from_decimal("99999999999999999999x"), Err(NumberFault::Overflow));
    assert_eq!(from_decimal("1844674407370955161x"), Err(NumberFault::InvalidDigit));
    assert_eq!(from_decimal(""), Err(NumberFault::Empty));
    assert_eq!(from_decimal("+"), Err(NumberFault::InvalidDigit));
    assert_eq!(from_decimal("-"), Err(NumberFault::InvalidDigit));
    assert_eq!(from_decimal("-1"), Err(NumberFault::InvalidDigit));
    assert_eq!(from_decimal("++1"), Err(NumberFault::InvalidDigit));
    assert_eq!(from_decimal("1+"), Err(NumberFault::InvalidDigit));
    assert_eq!(from_decimal(" 1"), Err(NumberFault::InvalidDigit));
    assert_eq!(from_decimal("1_000"), Err(NumberFault::InvalidDigit));
    assert_eq!(from_decimal("\u{0661}"), Err(NumberFault::InvalidDigit));
    for n in [0u64, 9, 10, 99, 100, 4294967295, 4294967296, u64::MAX - 1] {
        assert_eq!(from_decimal(&to_decimal(n)), Ok(n));
        assert_eq!(to_decimal(n), n.to_string());
    }
    for text in ["", "+", "-", "12a", "18446744073709551616", "+0", "000"] {
        assert_eq!(from_decimal(text).ok(), text.parse::<u64>().ok());
    }
}

fn nested(depth: usize) -> Archive {
    let mut entry = file("f", &[1]);
    for _ in 0..depth {
        entry = dir("d", vec![entry]);
    }
    let mut archive = Archive::new();
    archive.insert(entry);
    archive
}

#[test]
fn nesting_is_limited_by_the_json_parser() {
    let path = vec!["d"; 62].join("/") + "/f";
    let bytes = nested(62).pack().unwrap();
    let read = Archive::read(&bytes).unwrap();
    assert_eq!(read.get_file(&path).unwrap().as_bytes(), &[1]);
    let bytes = nested(63).pack().unwrap();
    assert!(matches!(Archive::read(&bytes), Err(Error::InvalidJson(_))));
}
