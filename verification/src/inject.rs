//! Putting a style sheet and a script into the start-up script of the
//! application: as a new snippet where the script holds none yet, and in the
//! place of the old style and script where it does.

use vstd::prelude::*;
use vstd::slice::slice_subrange;
use vstd::slice::slice_to_vec;
use vstd::string::StringSliceAdditionalSpecFns;
use crate::text::replace_char;
use crate::text::substitute;

verus! {

/// Why a style could not be put into a script that holds a snippet already.
#[derive(Debug, Clone, Copy, PartialEq, Eq, Structural)]
pub enum InjectError {
    /// No backtick opens the old style.
    OpeningTick,
    /// No backtick closes the old style.
    ClosingTick,
    /// The two backticks leave no room for a style between them.
    StyleRange,
    /// The mark that begins the old script is missing.
    ScriptBegin,
    /// The mark that ends the old script is missing.
    ScriptEnd,
    /// The mark that ends the old script does not stand behind its beginning.
    ScriptRange,
}

/// The name by which a snippet is known in a script.
pub open spec fn style_mark() -> Seq<u8> {
    "CSS_INJECTION_USER_CSS".spec_bytes()
}

/// The mark in front of the script of a snippet.
pub open spec fn begin_mark() -> Seq<u8> {
    "//JS_SCRIPT_BEGIN".spec_bytes()
}

/// The number of bytes that are passed over at the mark in front of the
/// script of a snippet.
pub open spec fn begin_skip() -> nat {
    "//JS_SCRIPT_BEGIN\n".spec_bytes().len()
}

/// The mark behind the script of a snippet.
pub open spec fn end_mark() -> Seq<u8> {
    "//JS_SCRIPT_END".spec_bytes()
}

/// The text in whose place a new snippet is put.
pub open spec fn hook() -> Seq<u8> {
    "mainWindow.webContents.".spec_bytes()
}

/// The snippet up to the style.
pub open spec fn snippet_head() -> Seq<u8> {
    "\n    mainWindow.webContents.on('dom-ready', () => {\n        mainWindow.webContents.executeJavaScript(`\n            let CSS_INJECTION_USER_CSS = String.raw \\`".spec_bytes()
}

/// The snippet between the style and the script.
pub open spec fn snippet_middle() -> Seq<u8> {
    "\\`;  \n            const style = document.createElement('style');  \n            style.innerHTML = CSS_INJECTION_USER_CSS;  \n            document.head.appendChild(style);  \n              \n            //JS_SCRIPT_BEGIN \n            ".spec_bytes()
}

/// The snippet behind the script.
pub open spec fn snippet_tail() -> Seq<u8> {
    " \n            //JS_SCRIPT_END \n        `);\n    });mainWindow.webContents.\n    ".spec_bytes()
}

/// The snippet that applies `theme` and runs `script`.
pub open spec fn snippet(theme: Seq<u8>, script: Seq<u8>) -> Seq<u8> {
    snippet_head() + theme + snippet_middle() + script + snippet_tail()
}

/// Whether `pattern` stands in `text` at `at`.
pub open spec fn occurs_at(text: Seq<u8>, pattern: Seq<u8>, at: int) -> bool {
    0 <= at && at + pattern.len() <= text.len() && text.subrange(at, at + pattern.len())
        == pattern
}

/// The first place at or behind `from` where `pattern` stands in `text`.
pub open spec fn find_from(text: Seq<u8>, pattern: Seq<u8>, from: int) -> Option<int>
    decreases text.len() + 1 - from,
{
    if from < 0 || from + pattern.len() > text.len() {
        None
    } else if occurs_at(text, pattern, from) {
        Some(from)
    } else {
        find_from(text, pattern, from + 1)
    }
}

/// The first place where `pattern` stands in `text`.
pub open spec fn find(text: Seq<u8>, pattern: Seq<u8>) -> Option<int> {
    find_from(text, pattern, 0)
}

/// What `find_from` gives is the first place at or behind `from` where the
/// pattern stands, and it gives a place wherever there is one.
pub proof fn lemma_find_first(text: Seq<u8>, pattern: Seq<u8>, from: int)
    requires
        0 <= from,
    ensures
        match find_from(text, pattern, from) {
            Some(at) => {
                &&& from <= at
                &&& occurs_at(text, pattern, at)
                &&& forall|k: int| from <= k < at ==> !occurs_at(text, pattern, k)
            },
            None => forall|k: int| from <= k ==> !occurs_at(text, pattern, k),
        },
    decreases text.len() + 1 - from,
{
    if from + pattern.len() <= text.len() && !occurs_at(text, pattern, from) {
        lemma_find_first(text, pattern, from + 1);
    }
}

/// The first backtick at or behind `from`, if only bytes of one-byte
/// characters stand in front of it.
pub open spec fn tick_from(text: Seq<u8>, from: int) -> Option<int>
    decreases text.len() - from,
{
    if from < 0 || from >= text.len() {
        None
    } else if text[from] == 0x60 {
        Some(from)
    } else if text[from] >= 0x80 {
        None
    } else {
        tick_from(text, from + 1)
    }
}

/// `text` with `with` in the place of the bytes from `begin` to `end`.
pub open spec fn splice(text: Seq<u8>, begin: int, end: int, with: Seq<u8>) -> Seq<u8> {
    text.subrange(0, begin) + with + text.subrange(end, text.len() as int)
}

/// `text` with `with` in the place of the first `pattern`; `text` itself
/// where it holds no `pattern`.
pub open spec fn replace_first(text: Seq<u8>, pattern: Seq<u8>, with: Seq<u8>) -> Seq<u8> {
    match find(text, pattern) {
        Some(at) => splice(text, at, at + pattern.len(), with),
        None => text,
    }
}

/// Whether the byte at `at` goes on a character that began before it.
pub open spec fn continues(text: Seq<u8>, at: int) -> bool {
    0 <= at < text.len() && 0x80 <= text[at] < 0xc0
}

/// `js` with the style and the script of its snippet replaced by `theme` and
/// `script`. The style stands between the first two backticks behind the
/// style mark, with one byte left in front of the second; the script stands
/// between the begin mark and the end mark.
pub open spec fn restyled(js: Seq<u8>, at: int, theme: Seq<u8>, script: Seq<u8>) -> Result<
    Seq<u8>,
    InjectError,
> {
    match tick_from(js, at) {
        None => Err(InjectError::OpeningTick),
        Some(open) => match tick_from(js, open + 1) {
            None => Err(InjectError::ClosingTick),
            Some(close) => if close < open + 2 {
                Err(InjectError::StyleRange)
            } else {
                let styled = splice(js, open + 1, close - 1, theme);
                match find(styled, begin_mark()) {
                    None => Err(InjectError::ScriptBegin),
                    Some(begin) => match find(styled, end_mark()) {
                        None => Err(InjectError::ScriptEnd),
                        Some(end) => if begin + begin_skip() > end || continues(
                            styled,
                            begin + begin_skip(),
                        ) {
                            Err(InjectError::ScriptRange)
                        } else {
                            Ok(splice(styled, begin + begin_skip(), end, script))
                        },
                    },
                }
            },
        },
    }
}

/// `js` made to apply `theme` and to run `script`: with a new snippet in the
/// place of the first hook where `js` holds no style mark, and else with the
/// style and the script of its snippet replaced.
pub open spec fn injected(js: Seq<u8>, theme: Seq<u8>, script: Seq<u8>) -> Result<
    Seq<u8>,
    InjectError,
> {
    match find(js, style_mark()) {
        None => Ok(replace_first(js, hook(), snippet(theme, script))),
        Some(at) => restyled(js, at, theme, script),
    }
}

/// A style sheet made safe to stand in a raw template literal: every
/// backslash is doubled, and then a backslash goes in front of every backtick.
pub open spec fn escaped_theme(theme: Seq<char>) -> Seq<char> {
    substitute(substitute(theme, '\\', "\\\\"@), '`', "\\`"@)
}

/// Makes a style sheet safe to stand in a raw template literal.
pub fn escape_theme(theme: &str) -> (r: String)
    ensures
        r@ == escaped_theme(theme@),
{
    let doubled = replace_char(theme, '\\', "\\\\");
    replace_char(doubled.as_str(), '`', "\\`")
}

/// Whether `pattern` stands in `text` at `at`.
fn matches_at(text: &[u8], pattern: &[u8], at: usize) -> (r: bool)
    requires
        at + pattern@.len() <= text@.len(),
    ensures
        r == occurs_at(text@, pattern@, at as int),
{
    let len = text.len();
    let mut i: usize = 0;
    while i < pattern.len()
        invariant
            i <= pattern@.len(),
            len == text@.len(),
            at + pattern@.len() <= text@.len(),
            forall|k: int| 0 <= k < i ==> text@[at + k] == pattern@[k],
        decreases pattern@.len() - i,
    {
        if text[at + i] != pattern[i] {
            assert(text@.subrange(at as int, at + pattern@.len())[i as int] != pattern@[i as int]);
            return false;
        }
        i += 1;
    }
    assert(text@.subrange(at as int, at + pattern@.len()) =~= pattern@);
    true
}

/// Finds the first place where `pattern` stands in `text`.
pub fn find_bytes(text: &[u8], pattern: &[u8]) -> (r: Option<usize>)
    ensures
        match r {
            Some(at) => find(text@, pattern@) == Some(at as int) && at + pattern@.len()
                <= text@.len(),
            None => find(text@, pattern@) is None,
        },
{
    if pattern.len() > text.len() {
        return None;
    }
    let last = text.len() - pattern.len();
    let mut i: usize = 0;
    while i < last
        invariant
            i <= last,
            last == text@.len() - pattern@.len(),
            find(text@, pattern@) == find_from(text@, pattern@, i as int),
        decreases last - i,
    {
        if matches_at(text, pattern, i) {
            return Some(i);
        }
        i += 1;
    }
    if matches_at(text, pattern, last) {
        Some(last)
    } else {
        assert(find_from(text@, pattern@, last + 1) is None);
        None
    }
}

/// Finds the first backtick at or behind `from`, if only bytes of one-byte
/// characters stand in front of it.
fn find_tick(text: &[u8], from: usize) -> (r: Option<usize>)
    ensures
        match r {
            Some(at) => tick_from(text@, from as int) == Some(at as int) && from <= at
                < text@.len(),
            None => tick_from(text@, from as int) is None,
        },
{
    let len = text.len();
    let mut i = from;
    while i < len
        invariant
            from <= i,
            len == text@.len(),
            tick_from(text@, from as int) == tick_from(text@, i as int),
        decreases text@.len() - i,
    {
        if text[i] == 0x60 {
            return Some(i);
        }
        if text[i] >= 0x80 {
            return None;
        }
        i += 1;
    }
    None
}

/// Puts `with` in the place of the bytes of `text` from `begin` to `end`.
fn splice_bytes(text: &[u8], begin: usize, end: usize, with: &[u8]) -> (r: Vec<u8>)
    requires
        begin <= end <= text@.len(),
    ensures
        r@ == splice(text@, begin as int, end as int, with@),
{
    let mut out: Vec<u8> = Vec::new();
    out.extend_from_slice(slice_subrange(text, 0, begin));
    out.extend_from_slice(with);
    out.extend_from_slice(slice_subrange(text, end, text.len()));
    out
}

/// Writes the snippet that applies `theme` and runs `script`.
pub fn write_snippet(theme: &[u8], script: &[u8]) -> (r: Vec<u8>)
    ensures
        r@ == snippet(theme@, script@),
{
    let mut out: Vec<u8> = Vec::new();
    out.extend_from_slice(
        "\n    mainWindow.webContents.on('dom-ready', () => {\n        mainWindow.webContents.executeJavaScript(`\n            let CSS_INJECTION_USER_CSS = String.raw \\`".as_bytes(),
    );
    out.extend_from_slice(theme);
    out.extend_from_slice(
        "\\`;  \n            const style = document.createElement('style');  \n            style.innerHTML = CSS_INJECTION_USER_CSS;  \n            document.head.appendChild(style);  \n              \n            //JS_SCRIPT_BEGIN \n            ".as_bytes(),
    );
    out.extend_from_slice(script);
    out.extend_from_slice(
        " \n            //JS_SCRIPT_END \n        `);\n    });mainWindow.webContents.\n    ".as_bytes(),
    );
    out
}

/// Replaces the style and the script of the snippet that `js` holds at `at`.
fn restyle(js: &[u8], at: usize, theme: &[u8], script: &[u8]) -> (r: Result<Vec<u8>, InjectError>)
    ensures
        match restyled(js@, at as int, theme@, script@) {
            Ok(text) => r matches Ok(out) && out@ == text,
            Err(fault) => r == Err::<Vec<u8>, InjectError>(fault),
        },
{
    let len = js.len();
    let open = match find_tick(js, at) {
        Some(open) => open,
        None => {
            return Err(InjectError::OpeningTick);
        },
    };
    let close = match find_tick(js, open + 1) {
        Some(close) => close,
        None => {
            return Err(InjectError::ClosingTick);
        },
    };
    if close < open + 2 {
        return Err(InjectError::StyleRange);
    }
    let styled = splice_bytes(js, open + 1, close - 1, theme);
    let begin = match find_bytes(styled.as_slice(), "//JS_SCRIPT_BEGIN".as_bytes()) {
        Some(begin) => begin,
        None => {
            return Err(InjectError::ScriptBegin);
        },
    };
    let end = match find_bytes(styled.as_slice(), "//JS_SCRIPT_END".as_bytes()) {
        Some(end) => end,
        None => {
            return Err(InjectError::ScriptEnd);
        },
    };
    let skip = "//JS_SCRIPT_BEGIN\n".as_bytes().len();
    if skip > end || begin > end - skip {
        return Err(InjectError::ScriptRange);
    }
    let from = begin + skip;
    if from < styled.len() && styled[from] >= 0x80 && styled[from] < 0xc0 {
        return Err(InjectError::ScriptRange);
    }
    Ok(splice_bytes(styled.as_slice(), from, end, script))
}

/// Makes the script `js` apply `theme` and run `script`.
pub fn inject(js: &[u8], theme: &[u8], script: &[u8]) -> (r: Result<Vec<u8>, InjectError>)
    ensures
        match injected(js@, theme@, script@) {
            Ok(text) => r matches Ok(out) && out@ == text,
            Err(fault) => r == Err::<Vec<u8>, InjectError>(fault),
        },
{
    let len = js.len();
    match find_bytes(js, "CSS_INJECTION_USER_CSS".as_bytes()) {
        Some(at) => restyle(js, at, theme, script),
        None => {
            let new = write_snippet(theme, script);
            let hook = "mainWindow.webContents.".as_bytes();
            match find_bytes(js, hook) {
                Some(at) => Ok(splice_bytes(js, at, at + hook.len(), new.as_slice())),
                None => Ok(slice_to_vec(js)),
            }
        },
    }
}

} // verus!
