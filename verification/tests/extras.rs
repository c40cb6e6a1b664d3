use asar_archive::config::Config;
use asar_archive::inject::escape_theme;
use asar_archive::inject::find_bytes;
use asar_archive::inject::inject;
use asar_archive::inject::write_snippet;
use asar_archive::inject::InjectError;
use asar_archive::text::replace_char;
use asar_archive::version::keeps_ahead;
use asar_archive::version::newest_version;
use asar_archive::version::strip_app;
use asar_archive::version::BadVersion;
use asar_archive::Archive;
use asar_archive::DirEntry;
use asar_archive::Entry;
use asar_archive::Error;
use asar_archive::FileEntry;
use asar_archive::Json;

const HEAD: &str = "\n    mainWindow.webContents.on('dom-ready', () => {\n        mainWindow.webContents.executeJavaScript(`\n            let CSS_INJECTION_USER_CSS = String.raw \\`";
const MIDDLE: &str = "\\`;  \n            const style = document.createElement('style');  \n            style.innerHTML = CSS_INJECTION_USER_CSS;  \n            document.head.appendChild(style);  \n              \n            //JS_SCRIPT_BEGIN \n            ";
const TAIL: &str = " \n            //JS_SCRIPT_END \n        `);\n    });mainWindow.webContents.\n    ";

fn file(name: &str, data: &[u8]) -> Entry {
    Entry::File(FileEntry::new(name.to_string(), data.to_vec()))
}

fn names(list: &[&str]) -> Vec<String> {
    list.iter().map(|s| s.to_string()).collect()
}

#[test]
fn listing_of_entries() {
    assert_eq!(file("a.txt", b"abc").display(0), "a.txt - size: 3");
    assert_eq!(file("a.txt", b"").display(2), "\t\n|\n - a.txt - size: 0");
    let mut d = DirEntry::new("d".to_string());
    d.insert(file("x", b"0123456789"));
    let mut e = DirEntry::new("e".to_string());
    e.insert(file("y", b"1"));
    d.insert(Entry::Dir(e));
    let d = Entry::Dir(d);
    assert_eq!(
        d.display(0),
        "d\n\t\n|\n - x - size: 10\t\n|\n - e\n\t\n|\n - y - size: 1"
    );
    let mut archive = Archive::new();
    assert_eq!(archive.to_text(), "");
    archive.insert(file("top", b"tt"));
    archive.insert(d);
    assert_eq!(
        archive.to_text(),
        "top - size: 2\nd\n\t\n|\n - x - size: 10\t\n|\n - e\n\t\n|\n - y - size: 1\n"
    );
}

#[test]
fn errors_describe_themselves() {
    assert_eq!(Error::InvalidUTF8.to_text(), "Invalid UTF-8");
    assert_eq!(Error::NoFile.to_text(), "The specified file or directory does not exist");
    assert_eq!(
        Error::InvalidJsonFormat("no files".to_string()).to_text(),
        "Invalid header JSON format: no files"
    );
    assert_eq!(Error::InvalidJson("eof".to_string()).to_text(), "Invalid header JSON: eof");
    let io = Error::IOErr(std::io::Error::new(std::io::ErrorKind::Other, "disk on fire"));
    assert_eq!(io.to_text(), "IO Error: disk on fire");
    match Archive::read(&[]) {
        Err(e) => assert!(e.to_text().starts_with("IO Error: ")),
        Ok(_) => panic!("an empty source is no archive"),
    }
    match Json::parse(b"{") {
        Err(e) => {
            assert!(e.to_text().starts_with("Invalid header JSON: "));
            assert!(e.to_text().len() > "Invalid header JSON: ".len());
        }
        Ok(_) => panic!("a brace is no value"),
    }
}

#[test]
fn default_configuration() {
    let config = Config::defaults();
    assert_eq!(config.customjs, "");
    assert!(config.make_backup);
    assert!(config.replace_icon);
    assert_eq!(
        Config::default_json().to_pretty_bytes().unwrap(),
        b"{\n  \"custom-js\": null,\n  \"make-backup\": true,\n  \"replace-icon\": true\n}"
    );
    assert_eq!(
        Config::default_json().to_bytes().unwrap(),
        b"{\"custom-js\":null,\"make-backup\":true,\"replace-icon\":true}"
    );
}

#[test]
fn configuration_from_json() {
    let json = Json::parse(b"{\"custom-js\": \"my.js\", \"make-backup\": false, \"replace-icon\": \"yes\"}").unwrap();
    assert_eq!(Config::script_path(&json), Some("my.js"));
    assert!(!Config::flag(&json, "make-backup"));
    assert!(Config::flag(&json, "replace-icon"));
    assert!(Config::flag(&json, "missing"));
    let config = Config::from_json(&json, "a`b\\c");
    assert_eq!(config.customjs, "a\\\\`b\\\\c");
    assert!(!config.make_backup);
    assert!(config.replace_icon);

    let json = Json::parse(b"{\"custom-js\": null, \"replace-icon\": false}").unwrap();
    assert_eq!(Config::script_path(&json), None);
    let config = Config::from_json(&json, "");
    assert_eq!(config.customjs, "");
    assert!(config.make_backup);
    assert!(!config.replace_icon);

    let json = Json::parse(b"[\"custom-js\"]").unwrap();
    assert_eq!(Config::script_path(&json), None);
    assert!(Config::flag(&json, "make-backup"));
}

#[test]
fn escaping_of_scripts_and_themes() {
    assert_eq!(Config::escape("plain"), "plain");
    assert_eq!(Config::escape("`"), "\\\\`");
    assert_eq!(Config::escape("\\"), "\\\\");
    assert_eq!(Config::escape("x`y\\z"), "x`y\\z".replace("`", "\\`").replace("\\", "\\\\"));
    assert_eq!(escape_theme("`"), "\\`");
    assert_eq!(escape_theme("\\"), "\\\\");
    assert_eq!(escape_theme("a\\`b"), "a\\\\\\`b");
    assert_eq!(escape_theme("\u{e9}`\u{1f600}\\"), "\u{e9}`\u{1f600}\\".replace("\\", "\\\\").replace("`", "\\`"));
    assert_eq!(replace_char("banana", 'a', "oo"), "boonoonoo");
    assert_eq!(replace_char("banana", 'x', "oo"), "banana");
    assert_eq!(replace_char("", 'x', "oo"), "");
    assert_eq!(replace_char("aaa", 'a', ""), "");
}

#[test]
fn finding_bytes() {
    assert_eq!(find_bytes(b"hello world", b"o"), Some(4));
    assert_eq!(find_bytes(b"hello world", b"world"), Some(6));
    assert_eq!(find_bytes(b"hello world", b"worlds"), None);
    assert_eq!(find_bytes(b"hello", b"hello"), Some(0));
    assert_eq!(find_bytes(b"hello", b""), Some(0));
    assert_eq!(find_bytes(b"", b""), Some(0));
    assert_eq!(find_bytes(b"", b"a"), None);
    assert_eq!(find_bytes(b"aab", b"ab"), Some(1));
}

#[test]
fn a_new_snippet_takes_the_place_of_the_first_hook() {
    let snippet = write_snippet(b"body{}", b"go()");
    assert_eq!(snippet, format!("{}body{{}}{}go(){}", HEAD, MIDDLE, TAIL).into_bytes());
    let js = b"a;mainWindow.webContents.x;mainWindow.webContents.y";
    let out = inject(js, b"body{}", b"go()").unwrap();
    let expected = format!("a;{}body{{}}{}go(){}x;mainWindow.webContents.y", HEAD, MIDDLE, TAIL);
    assert_eq!(out, expected.into_bytes());
    assert_eq!(inject(b"nothing here", b"t", b"s").unwrap(), b"nothing here");
    assert_eq!(inject(b"", b"t", b"s").unwrap(), b"");
}

#[test]
fn an_old_snippet_gets_a_new_style_and_script() {
    let first = inject(b"mainWindow.webContents.x", b"OLD", b"old()").unwrap();
    let second = inject(&first, b"NEW{}", b"new()").unwrap();
    let expected = format!(
        "{}NEW{{}}{}{}{}x",
        HEAD,
        "\\`;  \n            const style = document.createElement('style');  \n            style.innerHTML = CSS_INJECTION_USER_CSS;  \n            document.head.appendChild(style);  \n              \n            //JS_SCRIPT_BEGIN ",
        "new()",
        "//JS_SCRIPT_END \n        `);\n    });mainWindow.webContents.\n    "
    );
    assert_eq!(String::from_utf8(second).unwrap(), expected);
    let out = inject(b"CSS_INJECTION_USER_CSS = `abc\\`; //JS_SCRIPT_BEGIN\nold//JS_SCRIPT_END", b"X", b"Y").unwrap();
    assert_eq!(out, b"CSS_INJECTION_USER_CSS = `X\\`; //JS_SCRIPT_BEGIN\nY//JS_SCRIPT_END");
}

#[test]
fn a_broken_snippet_is_refused() {
    assert_eq!(inject(b"CSS_INJECTION_USER_CSS", b"", b""), Err(InjectError::OpeningTick));
    assert_eq!(inject(b"CSS_INJECTION_USER_CSS \xc3\xa9 `a`", b"", b""), Err(InjectError::OpeningTick));
    assert_eq!(inject(b"CSS_INJECTION_USER_CSS `abc", b"", b""), Err(InjectError::ClosingTick));
    assert_eq!(inject(b"CSS_INJECTION_USER_CSS `a\xc3\xa9`", b"", b""), Err(InjectError::ClosingTick));
    assert_eq!(inject(b"CSS_INJECTION_USER_CSS ``", b"", b""), Err(InjectError::StyleRange));
    assert_eq!(inject(b"CSS_INJECTION_USER_CSS `a`", b"", b""), Err(InjectError::ScriptBegin));
    assert_eq!(inject(b"CSS_INJECTION_USER_CSS `a` //JS_SCRIPT_BEGIN ", b"", b""), Err(InjectError::ScriptEnd));
    assert_eq!(
        inject(b"CSS_INJECTION_USER_CSS `a` //JS_SCRIPT_END //JS_SCRIPT_BEGIN ", b"", b""),
        Err(InjectError::ScriptRange)
    );
    assert_eq!(
        inject(b"CSS_INJECTION_USER_CSS `a` //JS_SCRIPT_BEGIN//JS_SCRIPT_END", b"", b""),
        Err(InjectError::ScriptRange)
    );
    assert_eq!(
        inject(b"CSS_INJECTION_USER_CSS `a` //JS_SCRIPT_BEGIN\xc3\xa9//JS_SCRIPT_END", b"", b""),
        Err(InjectError::ScriptRange)
    );
    assert_eq!(
        inject(b"CSS_INJECTION_USER_CSS `a` //JS_SCRIPT_BEGIN;\xc3\xa9//JS_SCRIPT_END", b"1", b"2").unwrap(),
        b"CSS_INJECTION_USER_CSS `1a` //JS_SCRIPT_BEGIN;2//JS_SCRIPT_END"
    );
}

#[test]
fn version_directories() {
    assert_eq!(strip_app("app-1.0.9"), Some("1.0.9"));
    assert_eq!(strip_app("app-"), Some(""));
    assert_eq!(strip_app("app"), None);
    assert_eq!(strip_app("App-1.0.0"), None);
    assert_eq!(strip_app("packages"), None);
    assert_eq!(strip_app("\u{e9}pp-1.0.0"), None);
    assert_eq!(keeps_ahead("app-1.0.10", "app-1.0.9"), Some(true));
    assert_eq!(keeps_ahead("app-1.0.9", "app-1.0.10"), Some(false));
    assert_eq!(keeps_ahead("app-1.0.9", "app-1.0.9"), Some(false));
    assert_eq!(keeps_ahead("app-1.0.0", "app-1.0.0-beta"), Some(true));
    assert_eq!(keeps_ahead("app-1.0.9", "packages"), Some(true));
    assert_eq!(keeps_ahead("packages", "app-1.0.9"), Some(false));
    assert_eq!(keeps_ahead("packages", "other"), Some(false));
    assert_eq!(keeps_ahead("app-1.0", "app-1.0.0"), None);
    assert_eq!(keeps_ahead("app-1.0.0", "app-x"), None);
    assert_eq!(keeps_ahead("app-x", "other"), Some(true));
}

#[test]
fn the_newest_version_is_chosen() {
    assert_eq!(newest_version(&names(&[])), Ok(None));
    assert_eq!(newest_version(&names(&["packages"])), Ok(Some(0)));
    assert_eq!(newest_version(&names(&["app-nonsense"])), Ok(Some(0)));
    assert_eq!(
        newest_version(&names(&["packages", "app-1.0.9", "app-1.0.10", "app-0.9.99", "zz"])),
        Ok(Some(2))
    );
    assert_eq!(newest_version(&names(&["app-2.0.0", "app-1.0.0"])), Ok(Some(0)));
    assert_eq!(newest_version(&names(&["app-1.0.0", "app-1.0.0+build"])), Ok(Some(1)));
    assert_eq!(newest_version(&names(&["a", "b", "c"])), Ok(Some(2)));
    assert_eq!(
        newest_version(&names(&["app-1.0.0", "x", "app-1.0", "app-3.0.0"])),
        Err(BadVersion { index: 2 })
    );
}
