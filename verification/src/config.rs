//! The options of the theme installer, as its configuration file gives them.

use vstd::prelude::*;
use crate::json::lemma_position_bounds;
use crate::json::member;
use crate::json::Json;
use crate::json::JsonMap;
use crate::json::JsonView;
use crate::text::replace_char;
use crate::text::substitute;

verus! {

/// The options given in the configuration file, or their default values.
#[derive(Debug)]
pub struct Config {
    /// The custom JavaScript to run along with the injected style, made safe
    /// to stand in a template literal.
    pub customjs: String,
    /// Whether to make a backup of the archive before it is changed.
    pub make_backup: bool,
    /// Whether to replace the desktop icon.
    pub replace_icon: bool,
}

/// What a configuration says of the option `key`: the truth value that it
/// gives under that key, and `true` where it gives none.
pub open spec fn flag_of(config: JsonView, key: Seq<char>) -> bool {
    match member(config, key) {
        Some(JsonView::Bool(b)) => b,
        _ => true,
    }
}

/// The path of the custom script that a configuration names, if it names one.
pub open spec fn script_path_of(config: JsonView) -> Option<Seq<char>> {
    match member(config, "custom-js"@) {
        Some(JsonView::Text(path)) => Some(path),
        _ => None,
    }
}

/// A script made safe for a template literal: a backslash goes in front of
/// every backtick, and then every backslash is doubled.
pub open spec fn escaped(script: Seq<char>) -> Seq<char> {
    substitute(substitute(script, '`', "\\`"@), '\\', "\\\\"@)
}

/// The configuration that the default file holds.
pub open spec fn default_view() -> JsonView {
    JsonView::Object(
        seq![
            ("custom-js"@, JsonView::Null),
            ("make-backup"@, JsonView::Bool(true)),
            ("replace-icon"@, JsonView::Bool(true)),
        ],
    )
}

impl Config {
    /// The options that hold where no configuration file is read: no custom
    /// script, a backup, and a new icon.
    pub fn defaults() -> (r: Config)
        ensures
            r.customjs@ == Seq::<char>::empty(),
            r.make_backup,
            r.replace_icon,
    {
        Config { customjs: String::new(), make_backup: true, replace_icon: true }
    }

    /// The content of the default configuration file.
    pub fn default_json() -> (r: Json)
        ensures
            r@ == default_view(),
            r@.exact(),
            r.wf(),
    {
        let mut map = JsonMap::new();
        proof {
            reveal_strlit("custom-js");
            reveal_strlit("make-backup");
            reveal_strlit("replace-icon");
            assert("custom-js"@.len() != "make-backup"@.len());
            assert("custom-js"@.len() != "replace-icon"@.len());
            assert("make-backup"@.len() != "replace-icon"@.len());
        }
        let a = map.insert("custom-js".to_owned(), Json::Null);
        proof {
            lemma_position_bounds(map@, "make-backup"@);
        }
        let b = map.insert("make-backup".to_owned(), Json::Bool(true));
        proof {
            lemma_position_bounds(map@, "replace-icon"@);
        }
        let c = map.insert("replace-icon".to_owned(), Json::Bool(true));
        assert(map@ =~= default_view()->Object_0);
        assert(map@[0].1.exact() && map@[1].1.exact() && map@[2].1.exact());
        Json::Object(map)
    }

    /// The path of the custom script that a configuration names.
    pub fn script_path(config: &Json) -> (r: Option<&str>)
        ensures
            match r {
                Some(path) => script_path_of(config@) == Some(path@),
                None => script_path_of(config@) is None,
            },
    {
        match config.get("custom-js") {
            Some(value) => value.as_str(),
            None => None,
        }
    }

    /// What a configuration says of the option `key`.
    pub fn flag(config: &Json, key: &str) -> (r: bool)
        ensures
            r == flag_of(config@, key@),
    {
        match config.get(key) {
            Some(value) => match value.as_bool() {
                Some(b) => b,
                None => true,
            },
            None => true,
        }
    }

    /// Makes a script safe to stand in a template literal.
    pub fn escape(script: &str) -> (r: String)
        ensures
            r@ == escaped(script@),
    {
        let ticks = replace_char(script, '`', "\\`");
        replace_char(ticks.as_str(), '\\', "\\\\")
    }

    /// The options that a configuration gives, with `script` as the text of
    /// the custom script that it names.
    pub fn from_json(config: &Json, script: &str) -> (r: Config)
        ensures
            r.customjs@ == escaped(script@),
            r.make_backup == flag_of(config@, "make-backup"@),
            r.replace_icon == flag_of(config@, "replace-icon"@),
    {
        Config {
            customjs: Self::escape(script),
            make_backup: Self::flag(config, "make-backup"),
            replace_icon: Self::flag(config, "replace-icon"),
        }
    }
}

} // verus!
