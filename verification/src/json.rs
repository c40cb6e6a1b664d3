//! JSON values as the archive header uses them, and the calls into
//! `serde_json` that read and write their text.

use vstd::prelude::*;
use crate::error::Error;
use crate::error::Failure;

verus! {

/// A JSON value as a mathematical tree. The members of an object stand in the
/// order in which they are held.
pub enum JsonView {
    Null,
    Bool(bool),
    /// A number, with its value where it is a whole number from 0 to `u64::MAX`.
    Number(Option<u64>),
    Text(Seq<char>),
    Array(Seq<JsonView>),
    Object(Seq<(Seq<char>, JsonView)>),
}

/// The index of the first member called `key`, or `-1`.
pub open spec fn position(members: Seq<(Seq<char>, JsonView)>, key: Seq<char>) -> int
    decreases members.len(),
{
    if members.len() == 0 {
        -1
    } else if position(members.drop_last(), key) >= 0 {
        position(members.drop_last(), key)
    } else if members.last().0 == key {
        members.len() - 1
    } else {
        -1
    }
}

/// The first member called `key`.
pub open spec fn lookup(members: Seq<(Seq<char>, JsonView)>, key: Seq<char>) -> Option<JsonView> {
    let i = position(members, key);
    if 0 <= i < members.len() {
        Some(members[i].1)
    } else {
        None
    }
}

/// No two members share a key.
pub open spec fn distinct_keys(members: Seq<(Seq<char>, JsonView)>) -> bool {
    forall|i: int, j: int|
        0 <= i < j < members.len() ==> (#[trigger] members[i]).0 != (#[trigger] members[j]).0
}

impl JsonView {
    /// Every object in the value, at any depth, has distinct keys.
    pub open spec fn wf(self) -> bool
        decreases self,
    {
        match self {
            JsonView::Array(items) => forall|i: int|
                0 <= i < items.len() ==> (#[trigger] items[i]).wf(),
            JsonView::Object(members) => distinct_keys(members) && forall|i: int|
                0 <= i < members.len() ==> (#[trigger] members[i]).1.wf(),
            _ => true,
        }
    }

    /// Every number in the value, at any depth, is a whole number from 0 to `u64::MAX`.
    pub open spec fn exact(self) -> bool
        decreases self,
    {
        match self {
            JsonView::Number(n) => n is Some,
            JsonView::Array(items) => forall|i: int|
                0 <= i < items.len() ==> (#[trigger] items[i]).exact(),
            JsonView::Object(members) => forall|i: int|
                0 <= i < members.len() ==> (#[trigger] members[i]).1.exact(),
            _ => true,
        }
    }
}

pub proof fn lemma_position_bounds(members: Seq<(Seq<char>, JsonView)>, key: Seq<char>)
    ensures
        -1 <= position(members, key) < members.len(),
        position(members, key) >= 0 ==> members[position(members, key)].0 == key,
        position(members, key) >= 0 ==> forall|j: int|
            0 <= j < position(members, key) ==> (#[trigger] members[j]).0 != key,
        position(members, key) < 0 ==> forall|j: int|
            0 <= j < members.len() ==> (#[trigger] members[j]).0 != key,
    decreases members.len(),
{
    if members.len() > 0 {
        let front = members.drop_last();
        lemma_position_bounds(front, key);
        assert forall|j: int| 0 <= j < front.len() implies #[trigger] members[j] == front[j] by {}
        let p = position(members, key);
        if p >= 0 {
            assert forall|j: int| 0 <= j < p implies (#[trigger] members[j]).0 != key by {
                assert(members[j] == front[j]);
            }
        } else {
            assert forall|j: int| 0 <= j < members.len() implies (#[trigger] members[j]).0
                != key by {
                if j < front.len() {
                    assert(members[j] == front[j]);
                }
            }
        }
    }
}

/// With distinct keys, the member at index `i` is the one that its key finds.
pub proof fn lemma_position_of_member(members: Seq<(Seq<char>, JsonView)>, i: int)
    requires
        distinct_keys(members),
        0 <= i < members.len(),
    ensures
        position(members, members[i].0) == i,
        lookup(members, members[i].0) == Some(members[i].1),
{
    lemma_position_bounds(members, members[i].0);
}

/// Replacing the value of a member keeps the keys distinct.
pub proof fn lemma_update_keeps_wf(members: Seq<(Seq<char>, JsonView)>, i: int, value: JsonView)
    requires
        JsonView::Object(members).wf(),
        value.wf(),
        0 <= i < members.len(),
    ensures
        JsonView::Object(members.update(i, (members[i].0, value))).wf(),
{
    let after = members.update(i, (members[i].0, value));
    assert forall|a: int, b: int| 0 <= a < b < after.len() implies (#[trigger] after[a]).0 != (
    #[trigger] after[b]).0 by {
        assert(after[a].0 == members[a].0 && after[b].0 == members[b].0);
    }
    assert forall|a: int| 0 <= a < after.len() implies (#[trigger] after[a]).1.wf() by {
        if a != i {
            assert(after[a] == members[a]);
        }
    }
}

/// An object of a JSON value: its members, each under its own key.
#[derive(Debug)]
pub struct JsonMap {
    members: Vec<(String, Json)>,
}

/// A JSON value.
#[derive(Debug)]
pub enum Json {
    Null,
    Bool(bool),
    /// A number, with its value where it is a whole number from 0 to `u64::MAX`.
    Number(Option<u64>),
    Text(String),
    Array(Vec<Json>),
    Object(JsonMap),
}

impl View for JsonMap {
    type V = Seq<(Seq<char>, JsonView)>;

    closed spec fn view(&self) -> Seq<(Seq<char>, JsonView)>
        decreases self,
    {
        Seq::new(
            self.members@.len(),
            |i: int|
                if 0 <= i < self.members@.len() {
                    (self.members@[i].0@, self.members@[i].1.view())
                } else {
                    (Seq::empty(), JsonView::Null)
                },
        )
    }
}

impl View for Json {
    type V = JsonView;

    open spec fn view(&self) -> JsonView
        decreases self,
    {
        match self {
            Json::Null => JsonView::Null,
            Json::Bool(b) => JsonView::Bool(*b),
            Json::Number(n) => JsonView::Number(*n),
            Json::Text(s) => JsonView::Text(s@),
            Json::Array(items) => JsonView::Array(
                Seq::new(
                    items@.len(),
                    |i: int|
                        if 0 <= i < items@.len() {
                            items@[i].view()
                        } else {
                            JsonView::Null
                        },
                ),
            ),
            Json::Object(map) => JsonView::Object(map.view()),
        }
    }
}

/// The value that `serde_json::from_slice` reads from a text, `None` where it
/// reports an error.
pub uninterp spec fn json_parse(text: Seq<u8>) -> Option<JsonView>;

/// The text that `serde_json::to_vec` writes for a value, `None` where it
/// reports an error.
pub uninterp spec fn json_written(value: JsonView) -> Option<Seq<u8>>;

/// The text that `serde_json::to_vec_pretty` writes for a value, `None`
/// where it reports an error.
pub uninterp spec fn json_pretty_written(value: JsonView) -> Option<Seq<u8>>;

/// `serde_json`'s value, named only to convert it.
#[verifier::external_type_specification]
#[verifier::external_body]
pub struct ExJsonValue(serde_json::Value);

/// Copies a `serde_json::Value` into a [`Json`], variant by variant; the
/// members of an object come in the order in which `serde_json`'s map hands
/// them out.
#[verifier::external_body]
fn from_value(value: serde_json::Value) -> Json {
    match value {
        serde_json::Value::Null => Json::Null,
        serde_json::Value::Bool(b) => Json::Bool(b),
        serde_json::Value::Number(n) => Json::Number(n.as_u64()),
        serde_json::Value::String(s) => Json::Text(s),
        serde_json::Value::Array(a) => Json::Array(a.into_iter().map(from_value).collect()),
        serde_json::Value::Object(o) => Json::Object(
            JsonMap { members: o.into_iter().map(|(k, v)| (k, from_value(v))).collect() },
        ),
    }
}

/// Copies a [`Json`] into a `serde_json::Value`, variant by variant; the
/// members of an object are inserted in their order.
#[verifier::external_body]
fn to_value(json: &Json) -> serde_json::Value
    requires
        json@.exact(),
{
    match json {
        Json::Null => serde_json::Value::Null,
        Json::Bool(b) => serde_json::Value::Bool(*b),
        Json::Number(n) => serde_json::Value::from(n.unwrap()),
        Json::Text(s) => serde_json::Value::String(s.clone()),
        Json::Array(a) => serde_json::Value::Array(a.iter().map(to_value).collect()),
        Json::Object(o) => serde_json::Value::Object(
            o.members.iter().map(|(k, v)| (k.clone(), to_value(v))).collect(),
        ),
    }
}

/// Reads JSON text with `serde_json::from_slice`.
///
/// The outcome depends on the text alone: it is the value that [`json_parse`]
/// names, or the parser's message where `json_parse` has none. The members
/// of each object of the result have distinct keys, as the keys of
/// `serde_json`'s map do.
#[verifier::external_body]
fn parse_text(text: &[u8]) -> (r: Result<Json, String>)
    ensures
        r is Ok <==> json_parse(text@) is Some,
        r matches Ok(json) ==> json_parse(text@) == Some(json@) && json@.wf(),
{
    match serde_json::from_slice::<serde_json::Value>(text) {
        Ok(value) => Ok(from_value(value)),
        Err(e) => Err(e.to_string()),
    }
}

/// Writes JSON text with `serde_json::to_vec`.
///
/// The outcome depends on the value alone: it is the text that
/// [`json_written`] names, or `serde_json`'s message where `json_written`
/// has none.
#[verifier::external_body]
fn write_text(json: &Json) -> (r: Result<Vec<u8>, String>)
    requires
        json@.exact(),
    ensures
        r is Ok <==> json_written(json@) is Some,
        r matches Ok(text) ==> json_written(json@) == Some(text@),
{
    match serde_json::to_vec(&to_value(json)) {
        Ok(text) => Ok(text),
        Err(e) => Err(e.to_string()),
    }
}

/// Writes JSON text with `serde_json::to_vec_pretty`, which sets it out on
/// several lines.
///
/// The outcome depends on the value alone: it is the text that
/// [`json_pretty_written`] names, or `serde_json`'s message where
/// `json_pretty_written` has none.
#[verifier::external_body]
fn write_pretty_text(json: &Json) -> (r: Result<Vec<u8>, String>)
    requires
        json@.exact(),
    ensures
        r is Ok <==> json_pretty_written(json@) is Some,
        r matches Ok(text) ==> json_pretty_written(json@) == Some(text@),
{
    match serde_json::to_vec_pretty(&to_value(json)) {
        Ok(text) => Ok(text),
        Err(e) => Err(e.to_string()),
    }
}

impl JsonMap {
    /// What the view holds at an index.
    proof fn lemma_view_at(&self, i: int)
        requires
            0 <= i < self.members@.len(),
        ensures
            self@.len() == self.members@.len(),
            self@[i] == (self.members@[i].0@, self.members@[i].1@),
    {
    }

    /// The members of the object have distinct keys, and so have those of
    /// every object below it.
    pub open spec fn wf(&self) -> bool {
        JsonView::Object(self@).wf()
    }

    /// An object without members.
    pub fn new() -> (r: JsonMap)
        ensures
            r@ == Seq::<(Seq<char>, JsonView)>::empty(),
            r.wf(),
    {
        let r = JsonMap { members: Vec::new() };
        assert(r@ =~= Seq::<(Seq<char>, JsonView)>::empty());
        r
    }

    /// The number of members.
    pub fn len(&self) -> (n: usize)
        ensures
            n == self@.len(),
    {
        self.members.len()
    }

    /// The key of the member at `index`.
    pub fn key_at(&self, index: usize) -> (key: &String)
        requires
            index < self@.len(),
        ensures
            key@ == self@[index as int].0,
    {
        &self.members[index].0
    }

    /// The value of the member at `index`.
    pub fn value_at(&self, index: usize) -> (value: &Json)
        requires
            index < self@.len(),
        ensures
            value@ == self@[index as int].1,
    {
        &self.members[index].1
    }

    /// The value of the first member called `key`.
    pub fn get(&self, key: &str) -> (r: Option<&Json>)
        ensures
            r is Some <==> lookup(self@, key@) is Some,
            r matches Some(value) ==> Some(value@) == lookup(self@, key@),
    {
        let wanted = key.to_owned();
        let mut i: usize = 0;
        while i < self.members.len()
            invariant
                i <= self.members.len(),
                wanted@ == key@,
                forall|j: int| 0 <= j < i ==> (#[trigger] self@[j]).0 != key@,
            decreases self.members.len() - i,
        {
            proof {
                self.lemma_view_at(i as int);
            }
            if self.members[i].0 == wanted {
                proof {
                    lemma_position_bounds(self@, key@);
                }
                return Some(&self.members[i].1);
            }
            i += 1;
        }
        proof {
            lemma_position_bounds(self@, key@);
        }
        None
    }

    /// Puts `value` under `key`: in the place of the member of that key where
    /// there is one, which is returned, and else behind the last member.
    pub fn insert(&mut self, key: String, value: Json) -> (r: Option<Json>)
        requires
            old(self).wf(),
            value@.wf(),
        ensures
            final(self).wf(),
            match r {
                Some(previous) => {
                    let i = position(old(self)@, key@);
                    &&& 0 <= i < old(self)@.len()
                    &&& previous@ == old(self)@[i].1
                    &&& final(self)@ == old(self)@.update(i, (key@, value@))
                },
                None => {
                    &&& position(old(self)@, key@) < 0
                    &&& final(self)@ == old(self)@.push((key@, value@))
                },
            },
    {
        let mut i: usize = 0;
        while i < self.members.len()
            invariant
                i <= self.members.len(),
                *self == *old(self),
                self.wf(),
                value@.wf(),
                forall|j: int| 0 <= j < i ==> (#[trigger] self@[j]).0 != key@,
            decreases self.members.len() - i,
        {
            proof {
                self.lemma_view_at(i as int);
            }
            if self.members[i].0 == key {
                proof {
                    lemma_position_bounds(self@, key@);
                }
                let ghost before = self@;
                let mut slot = (key, value);
                std::mem::swap(&mut self.members[i], &mut slot);
                assert(self@ =~= before.update(i as int, (key@, value@)));
                proof {
                    lemma_update_keeps_wf(before, i as int, value@);
                }
                return Some(slot.1);
            }
            i += 1;
        }
        proof {
            lemma_position_bounds(self@, key@);
        }
        let ghost before = self@;
        self.members.push((key, value));
        assert(self@ =~= before.push((key@, value@)));
        assert(self.wf()) by {
            let after = self@;
            assert forall|a: int, b: int| 0 <= a < b < after.len() implies (#[trigger] after[a]).0
                != (#[trigger] after[b]).0 by {
                if b < before.len() {
                    assert(after[a] == before[a] && after[b] == before[b]);
                } else {
                    assert(after[a] == before[a]);
                }
            }
            assert forall|a: int| 0 <= a < after.len() implies (#[trigger] after[a]).1.wf() by {
                if a < before.len() {
                    assert(after[a] == before[a]);
                }
            }
        }
        None
    }
}

impl Json {
    /// Every object in the value has distinct keys.
    pub open spec fn wf(&self) -> bool {
        self@.wf()
    }

    /// The members, if the value is an object.
    pub fn as_object(&self) -> (r: Option<&JsonMap>)
        ensures
            match r {
                Some(map) => self@ == JsonView::Object(map@),
                None => !(self@ is Object),
            },
    {
        match self {
            Json::Object(map) => Some(map),
            _ => None,
        }
    }

    /// The text, if the value is a string.
    pub fn as_str(&self) -> (r: Option<&str>)
        ensures
            match r {
                Some(s) => self@ == JsonView::Text(s@),
                None => !(self@ is Text),
            },
    {
        match self {
            Json::Text(s) => Some(s.as_str()),
            _ => None,
        }
    }

    /// The truth value, if the value is a boolean.
    pub fn as_bool(&self) -> (r: Option<bool>)
        ensures
            match r {
                Some(b) => self@ == JsonView::Bool(b),
                None => !(self@ is Bool),
            },
    {
        match self {
            Json::Bool(b) => Some(*b),
            _ => None,
        }
    }

    /// The member called `key`, if the value is an object that has one.
    pub fn get(&self, key: &str) -> (r: Option<&Json>)
        ensures
            r is Some <==> member(self@, key@) is Some,
            r matches Some(value) ==> Some(value@) == member(self@, key@),
    {
        match self {
            Json::Object(map) => map.get(key),
            _ => None,
        }
    }

    /// Reads a value from JSON text.
    pub fn parse(text: &[u8]) -> (r: Result<Json, Error>)
        ensures
            match json_parse(text@) {
                Some(value) => r matches Ok(json) && json@ == value && json.wf(),
                None => r matches Err(e) && e@ == Failure::InvalidJson,
            },
    {
        match parse_text(text) {
            Ok(json) => Ok(json),
            Err(e) => Err(Error::InvalidJson(e)),
        }
    }

    /// Writes the value as JSON text.
    pub fn to_bytes(&self) -> (r: Result<Vec<u8>, Error>)
        requires
            self@.exact(),
        ensures
            match json_written(self@) {
                Some(text) => r matches Ok(t) && t@ == text,
                None => r matches Err(e) && e@ == Failure::InvalidJson,
            },
    {
        match write_text(self) {
            Ok(text) => Ok(text),
            Err(e) => Err(Error::InvalidJson(e)),
        }
    }

    /// Writes the value as JSON text on several lines.
    pub fn to_pretty_bytes(&self) -> (r: Result<Vec<u8>, Error>)
        requires
            self@.exact(),
        ensures
            match json_pretty_written(self@) {
                Some(text) => r matches Ok(t) && t@ == text,
                None => r matches Err(e) && e@ == Failure::InvalidJson,
            },
    {
        match write_pretty_text(self) {
            Ok(text) => Ok(text),
            Err(e) => Err(Error::InvalidJson(e)),
        }
    }
}

/// The member called `key` of an object; `None` of any other value.
pub open spec fn member(value: JsonView, key: Seq<char>) -> Option<JsonView> {
    match value {
        JsonView::Object(members) => lookup(members, key),
        _ => None,
    }
}

} // verus!
