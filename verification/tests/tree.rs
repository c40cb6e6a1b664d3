use asar_archive::Archive;
use asar_archive::DirEntry;
use asar_archive::Entry;
use asar_archive::Error;
use asar_archive::FileEntry;
use asar_archive::Json;
use asar_archive::JsonMap;

fn file(name: &str, data: &[u8]) -> Entry {
    Entry::File(FileEntry::new(name.to_string(), data.to_vec()))
}

fn dir(name: &str, children: Vec<Entry>) -> Entry {
    let mut d = DirEntry::new(name.to_string());
    for child in children {
        d.insert(child);
    }
    Entry::Dir(d)
}

fn tree() -> Archive {
    let mut archive = Archive::new();
    archive.insert(dir("a", vec![dir("b", vec![file("c", b"see")]), file("f", b"eff")]));
    archive.insert(file("top", b"t"));
    archive
}

#[test]
fn resolve_walks_directory_by_directory() {
    let archive = tree();
    assert_eq!(archive.get_file("a/b/c").unwrap().as_bytes(), b"see");
    assert_eq!(archive.get_file("a/b/c").unwrap().name(), "c");
    assert!(archive.get_file("a/x").is_none());
    assert!(archive.get_dir("a/x").is_none());
    assert_eq!(archive.get_dir("a/b").unwrap().name(), "b");
    assert_eq!(archive.get_dir("a").unwrap().name(), "a");
    assert_eq!(archive.get_file("top").unwrap().as_bytes(), b"t");
}

#[test]
fn resolve_fails_through_files_and_on_odd_paths() {
    let archive = tree();
    assert!(archive.get_file("top/x").is_none());
    assert!(archive.get_file("a/f/x").is_none());
    assert!(archive.get_file("").is_none());
    assert!(archive.get_file("/a/b/c").is_none());
    assert!(archive.get_file("a/b/c/").is_none());
    assert!(archive.get_file("a//b/c").is_none());
    assert!(archive.get_file("a/b").is_none());
    assert!(archive.get_dir("a/b/c").is_none());
    assert!(archive.get_entry("a/b/c").unwrap().as_file().is_some());
    assert!(archive.get_entry("b").is_none());
}

#[test]
fn empty_names_are_names_too() {
    let mut archive = Archive::new();
    archive.insert(dir("", vec![file("", b"nameless")]));
    assert_eq!(archive.get_file("/").unwrap().as_bytes(), b"nameless");
    assert_eq!(archive.get_dir("").unwrap().name(), "");
}

#[test]
fn names_with_many_bytes_per_character() {
    let mut archive = Archive::new();
    archive.insert(dir("\u{e9}t\u{e9}", vec![file("\u{1f600}", b"grin")]));
    assert_eq!(archive.get_file("\u{e9}t\u{e9}/\u{1f600}").unwrap().as_bytes(), b"grin");
    assert!(archive.get_file("\u{e9}t\u{e9}/\u{1f601}").is_none());
}

#[test]
fn count_counts_files() {
    assert_eq!(file("x", b"").count(), 1);
    assert_eq!(dir("d", vec![]).count(), 0);
    let d = dir("d", vec![file("1", b""), dir("e", vec![file("2", b""), file("3", b"")]), dir("g", vec![])]);
    assert_eq!(d.count(), 3);
}

#[test]
fn files_dirs_and_entries_of_a_directory() {
    let d = dir("d", vec![file("1", b"a"), dir("e", vec![file("2", b"")]), file("3", b"ccc"), dir("g", vec![])]);
    let d = d.as_dir().unwrap();
    let files: Vec<&str> = d.files().iter().map(|f| f.name().as_str()).collect();
    assert_eq!(files, ["1", "3"]);
    let dirs: Vec<&str> = d.dirs().iter().map(|f| f.name().as_str()).collect();
    assert_eq!(dirs, ["e", "g"]);
    let entries: Vec<&str> = d.entries().iter().map(|f| f.name().as_str()).collect();
    assert_eq!(entries, ["1", "e", "3", "g"]);
    assert_eq!(d.files()[1].size(), 3);
}

#[test]
fn get_entry_finds_children_of_directories_only() {
    let d = dir("d", vec![file("1", b"a"), dir("e", vec![file("2", b"")])]);
    assert_eq!(d.get_entry("1").unwrap().name(), "1");
    assert!(d.get_entry("e").unwrap().as_dir().is_some());
    assert!(d.get_entry("2").is_none());
    assert!(d.get_entry("d").is_none());
    assert!(file("1", b"").get_entry("1").is_none());
}

#[test]
fn insert_replaces_the_entry_of_the_same_name() {
    let mut d = DirEntry::new("d".to_string());
    assert!(d.insert(file("x", b"1")).is_none());
    assert!(d.insert(file("y", b"2")).is_none());
    let old = d.insert(dir("x", vec![])).unwrap();
    assert_eq!(old.as_file().unwrap().as_bytes(), b"1");
    let names: Vec<&str> = d.entries().iter().map(|e| e.name().as_str()).collect();
    assert_eq!(names, ["x", "y"]);
    assert!(d.entries()[0].as_dir().is_some());

    let mut archive = Archive::new();
    assert!(archive.insert(file("x", b"1")).is_none());
    let old = archive.insert(file("x", b"22")).unwrap();
    assert_eq!(old.as_file().unwrap().size(), 1);
    assert_eq!(archive.get_file("x").unwrap().size(), 2);
}

#[test]
fn entries_change_in_place() {
    let mut archive = tree();
    let old = archive.get_file_mut("a/b/c").unwrap().replace(b"sea".to_vec());
    assert_eq!(old, b"see");
    assert_eq!(archive.get_file("a/b/c").unwrap().as_bytes(), b"sea");
    assert_eq!(archive.get_file("a/f").unwrap().as_bytes(), b"eff");
    assert!(archive.get_file_mut("a/b").is_none());
    assert!(archive.get_file_mut("a/nothing").is_none());
    assert!(archive.get_dir_mut("a/b/c").is_none());
    archive.get_dir_mut("a/b").unwrap().insert(file("new", b"n"));
    assert_eq!(archive.get_file("a/b/new").unwrap().as_bytes(), b"n");
    assert_eq!(archive.get_file("a/b/c").unwrap().as_bytes(), b"sea");
    *archive.get_entry_mut("top").unwrap() = file("top", b"other");
    assert_eq!(archive.get_file("top").unwrap().as_bytes(), b"other");

    let mut d = dir("d", vec![file("1", b"a"), dir("e", vec![])]);
    d.get_entry_mut("1").unwrap().as_file_mut().unwrap().replace(vec![9]);
    assert_eq!(d.get_entry("1").unwrap().as_file().unwrap().as_bytes(), &[9]);
    assert!(d.get_entry_mut("1").unwrap().as_dir_mut().is_none());
    assert!(d.get_entry_mut("e").unwrap().as_file_mut().is_none());
    d.get_entry_mut("e").unwrap().as_dir_mut().unwrap().insert(file("in", b""));
    assert_eq!(d.count(), 2);
    assert!(d.get_entry_mut("zz").is_none());
}

#[test]
fn json_objects_keep_one_member_for_each_key() {
    let mut map = JsonMap::new();
    assert!(map.insert("a".to_string(), Json::Bool(true)).is_none());
    assert!(map.insert("b".to_string(), Json::Null).is_none());
    assert!(matches!(map.insert("a".to_string(), Json::Number(Some(3))), Some(Json::Bool(true))));
    assert_eq!(map.len(), 2);
    assert_eq!(map.key_at(0), "a");
    assert!(matches!(map.value_at(0), Json::Number(Some(3))));
    assert_eq!(map.key_at(1), "b");
    assert!(matches!(map.get("b"), Some(Json::Null)));
    assert!(map.get("c").is_none());
    let json = Json::Object(map);
    assert!(json.as_object().is_some());
    assert!(json.as_str().is_none());
    assert!(json.as_bool().is_none());
    assert!(json.get("a").is_some());
    assert!(Json::Text("t".to_string()).get("a").is_none());
    assert_eq!(Json::Text("t".to_string()).as_str(), Some("t"));
    assert_eq!(Json::Bool(false).as_bool(), Some(false));
}

#[test]
fn json_text_is_read_and_written() {
    let json = Json::parse(b" {\"b\": [1, -1, 2.5, \"x\", null, true], \"a\": {\"b\": 18446744073709551615}} ").unwrap();
    let map = json.as_object().unwrap();
    assert_eq!(map.len(), 2);
    assert_eq!(map.key_at(0), "a");
    assert_eq!(map.key_at(1), "b");
    assert!(matches!(json.get("a").unwrap().get("b"), Some(Json::Number(Some(u64::MAX)))));
    match json.get("b").unwrap() {
        Json::Array(items) => {
            assert_eq!(items.len(), 6);
            assert!(matches!(items[0], Json::Number(Some(1))));
            assert!(matches!(items[1], Json::Number(None)));
            assert!(matches!(items[2], Json::Number(None)));
            assert!(matches!(&items[3], Json::Text(t) if t == "x"));
            assert!(matches!(items[4], Json::Null));
            assert!(matches!(items[5], Json::Bool(true)));
        }
        other => panic!("unexpected {:?}", other),
    }
    assert!(matches!(Json::parse(b"{\"a\":"), Err(Error::InvalidJson(_))));
    assert!(matches!(Json::parse(b"{} {}"), Err(Error::InvalidJson(_))));

    let mut inner = JsonMap::new();
    inner.insert("z".to_string(), Json::Text("q\"".to_string()));
    inner.insert("y".to_string(), Json::Array(vec![Json::Number(Some(7)), Json::Null, Json::Bool(false)]));
    let mut map = JsonMap::new();
    map.insert("k".to_string(), Json::Object(inner));
    assert_eq!(
        Json::Object(map).to_bytes().unwrap(),
        b"{\"k\":{\"y\":[7,null,false],\"z\":\"q\\\"\"}}"
    );
}

#[test]
fn errors_convert_from_their_sources() {
    let io = std::io::Error::new(std::io::ErrorKind::Other, "x");
    assert!(matches!(Error::from(io), Error::IOErr(_)));
    let bad = std::str::from_utf8(&[0xff]).unwrap_err();
    assert!(matches!(Error::from(bad), Error::InvalidUTF8));
}
