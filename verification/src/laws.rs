//! What holds of packing and unpacking together.

use vstd::prelude::*;
use crate::archive::descend;
use crate::archive::packed;
use crate::archive::lemma_segments_nonempty;
use crate::archive::resolve;
use crate::archive::segments;
use crate::decimal::decimal;
use crate::decimal::lemma_decimal_round_trip;
use crate::decimal::parse_decimal;
use crate::entry::child;
use crate::entry::count_all;
use crate::entry::items_wf;
use crate::entry::lemma_find_bounds;
use crate::entry::lemma_find_item;
use crate::entry::DirView;
use crate::entry::EntryView;
use crate::entry::FileView;
use crate::error::Failure;
use crate::json::json_parse;
use crate::json::json_written;
use crate::json::lemma_position_bounds;
use crate::json::lemma_position_of_member;
use crate::json::lookup;
use crate::json::position;
use crate::json::JsonView;
use crate::layout::fits;
use crate::layout::image;
use crate::layout::lemma_image_parts;
use crate::layout::padded;
use crate::pack::file_record;
use crate::pack::header_of;
use crate::pack::lemma_records_at;
use crate::pack::lemma_records_len;
use crate::pack::payloads;
use crate::pack::record;
use crate::pack::records;
use crate::unpack::decode_entries;
use crate::unpack::decode_entry;
use crate::unpack::decode_header;
use crate::unpack::lemma_decode_entries_wf;
use crate::unpack::lemma_decode_entry_name;
use crate::unpack::lemma_entries_all;
use crate::unpack::lemma_entries_each;
use crate::unpack::unpack;

verus! {

/// Two JSON values are the same up to the order of the members of their
/// objects.
pub open spec fn same_json(a: JsonView, b: JsonView) -> bool
    decreases a,
{
    match a {
        JsonView::Object(p) => {
            &&& b is Object
            &&& forall|i: int|
                0 <= i < p.len() ==> match lookup(b->Object_0, (#[trigger] p[i]).0) {
                    Some(v) => same_json(p[i].1, v),
                    None => false,
                }
            &&& forall|j: int|
                0 <= j < b->Object_0.len() ==> lookup(p, (#[trigger] b->Object_0[j]).0) is Some
        },
        JsonView::Array(x) => {
            &&& b is Array
            &&& x.len() == b->Array_0.len()
            &&& forall|i: int| 0 <= i < x.len() ==> same_json(#[trigger] x[i], b->Array_0[i])
        },
        _ => a == b,
    }
}

/// Two entries are the same up to the order of the children of their
/// directories: the same name, for files the same bytes, and for directories
/// the same children by name.
pub open spec fn same_entry(a: EntryView, b: EntryView) -> bool
    decreases a, 1int,
{
    match a {
        EntryView::File(_) => a == b,
        EntryView::Dir(d) => {
            &&& b is Dir
            &&& d.name == b->Dir_0.name
            &&& same_items(d.items, b->Dir_0.items)
        },
    }
}

/// Two sequences of entries hold the same entries by name, up to order.
pub open spec fn same_items(a: Seq<EntryView>, b: Seq<EntryView>) -> bool
    decreases a, 0int,
{
    &&& forall|i: int|
        0 <= i < a.len() ==> match child(b, (#[trigger] a[i]).name()) {
            Some(e) => same_entry(a[i], e),
            None => false,
        }
    &&& forall|j: int| 0 <= j < b.len() ==> child(a, (#[trigger] b[j]).name()) is Some
}

/// `source` holds `bytes` at `start`.
pub open spec fn holds(source: Seq<u8>, start: nat, bytes: Seq<u8>) -> bool {
    &&& start + bytes.len() <= source.len()
    &&& source.subrange(start as int, (start + bytes.len()) as int) == bytes
}

/// The bytes of each item stand in the bytes of all items, behind those of
/// the items before it.
pub proof fn lemma_payloads_at(items: Seq<EntryView>, i: int)
    requires
        0 <= i < items.len(),
    ensures
        holds(payloads(items), payloads(items.take(i)).len(), items[i].payload()),
    decreases items.len(),
{
    let all = payloads(items);
    if i < items.len() - 1 {
        lemma_payloads_at(items.drop_last(), i);
        assert(items.drop_last().take(i) =~= items.take(i));
        let start = payloads(items.take(i)).len();
        let part = items[i].payload();
        assert(all.subrange(start as int, (start + part.len()) as int) =~= payloads(
            items.drop_last(),
        ).subrange(start as int, (start + part.len()) as int));
    } else {
        assert(items.drop_last() =~= items.take(i));
        let start = payloads(items.take(i)).len();
        assert(all.subrange(start as int, (start + items[i].payload().len()) as int)
            =~= items[i].payload());
    }
}

/// What holds a sequence of bytes holds each part of it.
pub proof fn lemma_holds_part(
    source: Seq<u8>,
    start: nat,
    whole: Seq<u8>,
    at: nat,
    part: Seq<u8>,
)
    requires
        holds(source, start, whole),
        holds(whole, at, part),
    ensures
        holds(source, start + at, part),
{
    assert(source.subrange((start + at) as int, (start + at + part.len()) as int) =~= whole.subrange(
        at as int,
        (at + part.len()) as int,
    ));
}

/// Reading what was written for one entry gives the entry back, whatever the
/// order of the members in the objects that are read.
pub proof fn lemma_decode_record(
    entry: EntryView,
    offset: nat,
    value: JsonView,
    source: Seq<u8>,
    data_start: nat,
)
    requires
        entry.wf(),
        value.wf(),
        same_json(record(entry, offset), value),
        holds(source, data_start + offset, entry.payload()),
        offset + entry.payload().len() <= u64::MAX,
    ensures
        value is Object,
        decode_entry(entry.name(), value->Object_0, source, data_start) is Ok,
        decode_entry(entry.name(), value->Object_0, source, data_start)->Ok_0.wf(),
        same_entry(entry, decode_entry(entry.name(), value->Object_0, source, data_start)->Ok_0),
    decreases entry, 1int,
{
    reveal_strlit("offset");
    reveal_strlit("size");
    reveal_strlit("files");
    let obj = value->Object_0;
    match entry {
        EntryView::File(f) => {
            let p = record(entry, offset)->Object_0;
            assert(same_json(JsonView::Object(p), value));
            assert(p[0] == ("offset"@, JsonView::Text(decimal(offset))));
            assert(p[1] == ("size"@, JsonView::Number(Some(f.data.len() as u64))));
            assert(match lookup(obj, p[0].0) {
                Some(v) => same_json(p[0].1, v),
                None => false,
            });
            assert(match lookup(obj, p[1].0) {
                Some(v) => same_json(p[1].1, v),
                None => false,
            });
            assert(lookup(obj, "offset"@) == Some(JsonView::Text(decimal(offset))));
            assert(lookup(obj, "size"@) == Some(JsonView::Number(Some(f.data.len() as u64))));
            lemma_decimal_round_trip(offset as u64);
            if f.data.len() == 0 {
                assert(f.data =~= Seq::<u8>::empty());
            } else {
                assert(source.subrange(
                    data_start + offset as u64,
                    data_start + offset as u64 + f.data.len() as u64,
                ) == f.data);
            }
        },
        EntryView::Dir(d) => {
            let p = record(entry, offset)->Object_0;
            assert(same_json(JsonView::Object(p), value));
            assert(p[0] == ("files"@, JsonView::Object(records(d.items, offset))));
            assert(match lookup(obj, p[0].0) {
                Some(v) => same_json(p[0].1, v),
                None => false,
            });
            let children = lookup(obj, "files"@)->Some_0;
            assert(same_json(p[0].1, children));
            lemma_position_bounds(obj, "size"@);
            lemma_position_bounds(obj, "files"@);
            let s = position(obj, "size"@);
            if s >= 0 {
                assert(lookup(p, obj[s].0) is Some);
                lemma_position_bounds(p, "size"@);
                assert("size"@.len() != "files"@.len());
            }
            assert(lookup(obj, "size"@) is None);
            assert(obj[position(obj, "files"@)].1.wf());
            lemma_decode_members(
                d.items,
                offset,
                children->Object_0,
                source,
                data_start,
                false,
            );
        },
    }
}

/// Reading what was written for a sequence of entries gives the entries
/// back, whatever the order of the members in the objects that are read.
pub proof fn lemma_decode_members(
    items: Seq<EntryView>,
    offset: nat,
    members: Seq<(Seq<char>, JsonView)>,
    source: Seq<u8>,
    data_start: nat,
    top: bool,
)
    requires
        items_wf(items),
        JsonView::Object(members).wf(),
        same_json(JsonView::Object(records(items, offset)), JsonView::Object(members)),
        holds(source, data_start + offset, payloads(items)),
        offset + payloads(items).len() <= u64::MAX,
    ensures
        decode_entries(members, source, data_start, top) is Ok,
        items_wf(decode_entries(members, source, data_start, top)->Ok_0),
        same_items(items, decode_entries(members, source, data_start, top)->Ok_0),
    decreases items, 0int,
{
    let written = records(items, offset);
    lemma_records_len(items, offset);
    // Each member that is read was written for one of the items.
    assert forall|j: int| 0 <= j < members.len() implies {
        let i = position(written, (#[trigger] members[j]).0);
        &&& 0 <= i < items.len()
        &&& items[i].name() == members[j].0
        &&& members[j].1 is Object
        &&& decode_entry(members[j].0, members[j].1->Object_0, source, data_start) is Ok
        &&& same_entry(
            items[i],
            decode_entry(members[j].0, members[j].1->Object_0, source, data_start)->Ok_0,
        )
    } by {
        let key = members[j].0;
        let i = position(written, key);
        lemma_position_bounds(written, key);
        assert(lookup(written, key) is Some);
        lemma_records_at(items, offset, i);
        let start = payloads(items.take(i)).len();
        assert(written[i].0 == key);
        assert(match lookup(members, written[i].0) {
            Some(v) => same_json(written[i].1, v),
            None => false,
        });
        lemma_position_of_member(members, j);
        assert(same_json(record(items[i], offset + start), members[j].1));
        lemma_payloads_at(items, i);
        lemma_holds_part(source, data_start + offset, payloads(items), start, items[i].payload());
        assert(items[i].wf());
        assert(members[j].1.wf());
        lemma_decode_record(items[i], offset + start, members[j].1, source, data_start);
    }
    lemma_entries_all(members, source, data_start, top);
    lemma_entries_each(members, source, data_start, top);
    lemma_decode_entries_wf(members, source, data_start, top);
    let read = decode_entries(members, source, data_start, top)->Ok_0;
    assert forall|j: int| 0 <= j < read.len() implies (#[trigger] read[j]).name()
        == members[j].0 by {
        assert(members[j].1 is Object);
        lemma_decode_entry_name(members[j].0, members[j].1->Object_0, source, data_start);
    }
    assert forall|i: int| 0 <= i < items.len() implies match child(read, (#[trigger] items[i]).name()) {
        Some(e) => same_entry(items[i], e),
        None => false,
    } by {
        lemma_records_at(items, offset, i);
        let key = items[i].name();
        assert(written[i].0 == key);
        assert(lookup(members, written[i].0) is Some);
        let j = position(members, key);
        lemma_position_bounds(members, key);
        assert(read[j].name() == key);
        lemma_find_item(read, j);
        // The member under this name was written for this very item.
        assert(members[j].0 == key);
        lemma_position_bounds(written, key);
        let back = position(written, key);
        lemma_records_at(items, offset, back);
        if back != i {
            assert(items[back].name() == items[i].name());
        }
    }
    assert forall|j: int| 0 <= j < read.len() implies child(items, (#[trigger] read[j]).name())
        is Some by {
        assert(read[j].name() == members[j].0);
        let i = position(written, members[j].0);
        assert(items[i].name() == members[j].0);
        lemma_find_bounds(items, members[j].0);
    }
}

/// Unpacking what was packed gives back the same tree: the same names, the
/// same shape of directories and files, and the same bytes in every file.
///
/// `text` stands for the JSON text of the header. The law holds whenever the
/// text reads back as the header that was written, with the same members in
/// each object, in whatever order, and no key twice in an object.
pub proof fn lemma_round_trip(items: Seq<EntryView>, text: Seq<u8>)
    requires
        items_wf(items),
        fits(text.len()),
        payloads(items).len() <= u64::MAX,
    ensures
        (json_parse(text) matches Some(header) && header.wf() && same_json(
            header_of(items),
            header,
        )) ==> {
            &&& unpack(image(text, payloads(items))) is Ok
            &&& items_wf(unpack(image(text, payloads(items)))->Ok_0)
            &&& same_items(items, unpack(image(text, payloads(items)))->Ok_0)
        },
{
    if let Some(header) = json_parse(text) {
        if header.wf() && same_json(header_of(items), header) {
            reveal_strlit("files");
            let source = image(text, payloads(items));
            let data_start = 16 + padded(text.len());
            lemma_image_parts(text, payloads(items));
            let p = header_of(items)->Object_0;
            assert(same_json(JsonView::Object(p), header));
            assert(p[0] == ("files"@, JsonView::Object(records(items, 0))));
            let obj = header->Object_0;
            assert(match lookup(obj, p[0].0) {
                Some(v) => same_json(p[0].1, v),
                None => false,
            });
            let children = lookup(obj, "files"@)->Some_0;
            assert(same_json(p[0].1, children));
            lemma_position_bounds(obj, "files"@);
            assert(obj[position(obj, "files"@)].1.wf());
            assert(holds(source, data_start + 0, payloads(items)));
            lemma_decode_members(items, 0, children->Object_0, source, data_start, true);
            assert(decode_header(header, source, data_start) == decode_entries(
                children->Object_0,
                source,
                data_start,
                true,
            ));
        }
    }
}

/// Reading what packing gives returns the same tree: wherever packing
/// succeeds and the JSON text that it wrote reads back as the header that was
/// written, with the same members in each object, in whatever order, and no
/// key twice in an object, unpacking the packed bytes succeeds, and gives
/// entries with the same names, the same shape and the same bytes.
pub proof fn lemma_read_of_packed(items: Seq<EntryView>)
    requires
        items_wf(items),
        payloads(items).len() <= u64::MAX,
    ensures
        (packed(items) matches Ok(bytes) && json_parse(json_written(header_of(items))->Some_0)
            matches Some(header) && header.wf() && same_json(header_of(items), header)) ==> {
            &&& unpack(packed(items)->Ok_0) is Ok
            &&& items_wf(unpack(packed(items)->Ok_0)->Ok_0)
            &&& same_items(items, unpack(packed(items)->Ok_0)->Ok_0)
        },
{
    if let Some(text) = json_written(header_of(items)) {
        if fits(text.len()) {
            lemma_round_trip(items, text);
        }
    }
}

/// What is written for entries with unique names has no key twice in an
/// object.
pub proof fn lemma_record_wf(entry: EntryView, offset: nat)
    requires
        entry.wf(),
    ensures
        record(entry, offset).wf(),
    decreases entry, 1int,
{
    reveal_strlit("offset");
    reveal_strlit("size");
    let obj = record(entry, offset)->Object_0;
    match entry {
        EntryView::File(f) => {
            assert("offset"@.len() != "size"@.len());
            assert(obj[0].0 == "offset"@ && obj[1].0 == "size"@);
            assert(obj[0].1.wf() && obj[1].1.wf());
        },
        EntryView::Dir(d) => {
            lemma_records_wf(d.items, offset);
            assert(obj[0].1.wf());
        },
    }
}

/// What is written for a sequence of entries with unique names has no key
/// twice in an object.
pub proof fn lemma_records_wf(items: Seq<EntryView>, offset: nat)
    requires
        items_wf(items),
    ensures
        JsonView::Object(records(items, offset)).wf(),
    decreases items, 0int,
{
    let written = records(items, offset);
    lemma_records_len(items, offset);
    assert forall|i: int| 0 <= i < written.len() implies (#[trigger] written[i]).1.wf() by {
        lemma_records_at(items, offset, i);
        assert(items[i].wf());
        lemma_record_wf(items[i], offset + payloads(items.take(i)).len());
    }
    assert forall|i: int, j: int| 0 <= i < j < written.len() implies (#[trigger] written[i]).0 != (
    #[trigger] written[j]).0 by {
        lemma_records_at(items, offset, i);
        lemma_records_at(items, offset, j);
        assert(items[i].name() != items[j].name());
    }
}

/// The header of an archive with unique names has no key twice in an object.
pub proof fn lemma_header_wf(items: Seq<EntryView>)
    requires
        items_wf(items),
    ensures
        header_of(items).wf(),
{
    lemma_records_wf(items, 0);
}

/// A value without a key twice in an object is the same as itself.
pub proof fn lemma_same_json_reflexive(value: JsonView)
    requires
        value.wf(),
    ensures
        same_json(value, value),
    decreases value,
{
    match value {
        JsonView::Object(p) => {
            assert forall|i: int| 0 <= i < p.len() implies match lookup(p, (#[trigger] p[i]).0) {
                Some(v) => same_json(p[i].1, v),
                None => false,
            } by {
                lemma_position_of_member(p, i);
                lemma_same_json_reflexive(p[i].1);
            }
            assert forall|j: int| 0 <= j < p.len() implies lookup(p, (#[trigger] p[j]).0)
                is Some by {
                lemma_position_of_member(p, j);
            }
        },
        JsonView::Array(x) => {
            assert forall|i: int| 0 <= i < x.len() implies same_json(#[trigger] x[i], x[i]) by {
                lemma_same_json_reflexive(x[i]);
            }
        },
        _ => {},
    }
}

/// Reading the record of an entry, as it was written, gives the entry.
pub proof fn lemma_decode_own_record(
    entry: EntryView,
    offset: nat,
    source: Seq<u8>,
    data_start: nat,
)
    requires
        holds(source, data_start + offset, entry.payload()),
        offset + entry.payload().len() <= u64::MAX,
    ensures
        record(entry, offset) is Object,
        decode_entry(entry.name(), record(entry, offset)->Object_0, source, data_start) == Ok::<
            EntryView,
            Failure,
        >(entry),
    decreases entry, 1int,
{
    match entry {
        EntryView::File(f) => {
            lemma_file_record_members(offset, f.data.len());
            lemma_decimal_round_trip(offset as u64);
            if f.data.len() == 0 {
                assert(f.data =~= Seq::<u8>::empty());
            } else {
                assert(source.subrange(
                    data_start + offset as u64,
                    data_start + offset as u64 + f.data.len() as u64,
                ) == f.data);
            }
        },
        EntryView::Dir(d) => {
            lemma_dir_record_members(JsonView::Object(records(d.items, offset)));
            lemma_decode_own_records(d.items, offset, source, data_start, false);
        },
    }
}

/// Reading the records of a sequence of entries, as they were written, gives
/// the entries in their order.
pub proof fn lemma_decode_own_records(
    items: Seq<EntryView>,
    offset: nat,
    source: Seq<u8>,
    data_start: nat,
    top: bool,
)
    requires
        holds(source, data_start + offset, payloads(items)),
        offset + payloads(items).len() <= u64::MAX,
    ensures
        decode_entries(records(items, offset), source, data_start, top) == Ok::<
            Seq<EntryView>,
            Failure,
        >(items),
    decreases items, 0int,
{
    if items.len() == 0 {
        assert(items =~= Seq::<EntryView>::empty());
    } else {
        let front = items.drop_last();
        let last = items.last();
        let written = records(items, offset);
        let middle = payloads(front).len();
        assert(written.drop_last() =~= records(front, offset));
        assert(items.take(items.len() - 1) =~= front);
        lemma_payloads_at(items, items.len() - 1);
        lemma_holds_part(source, data_start + offset, payloads(items), middle, last.payload());
        assert(holds(payloads(items), 0, payloads(front))) by {
            assert(payloads(items).subrange(0, payloads(front).len() as int) =~= payloads(front));
        }
        lemma_holds_part(source, data_start + offset, payloads(items), 0, payloads(front));
        lemma_decode_own_records(front, offset, source, data_start, top);
        lemma_decode_own_record(last, offset + middle, source, data_start);
        assert(front.push(last) =~= items);
    }
}

/// Unpacking what was packed gives back the very archive, with every entry
/// in its place, where the JSON text of the header reads back as the very
/// header that was written.
pub proof fn lemma_round_trip_in_order(items: Seq<EntryView>, text: Seq<u8>)
    requires
        fits(text.len()),
        payloads(items).len() <= u64::MAX,
    ensures
        json_parse(text) == Some(header_of(items)) ==> unpack(image(text, payloads(items))) == Ok::<
            Seq<EntryView>,
            Failure,
        >(items),
{
    if json_parse(text) == Some(header_of(items)) {
        let source = image(text, payloads(items));
        let data_start = 16 + padded(text.len());
        lemma_image_parts(text, payloads(items));
        lemma_dir_record_members(JsonView::Object(records(items, 0)));
        assert(holds(source, data_start + 0, payloads(items)));
        lemma_decode_own_records(items, 0, source, data_start, true);
    }
}

/// The places of the files that a value of the header speaks of, each as its
/// offset and its size, in the order in which the value holds them. An object
/// is taken for a file or for a directory as in reading an archive.
pub open spec fn recorded(value: JsonView) -> Seq<(nat, nat)>
    decreases value, 1int,
{
    match value {
        JsonView::Object(obj) => match lookup(obj, "size"@) {
            Some(JsonView::Number(size)) => match (size, lookup(obj, "offset"@)) {
                (Some(n), Some(JsonView::Text(text))) => match parse_decimal(text) {
                    Ok(at) => seq![(at as nat, n as nat)],
                    Err(_) => Seq::empty(),
                },
                _ => Seq::empty(),
            },
            _ => match lookup(obj, "files"@) {
                Some(JsonView::Object(children)) => recorded_all(children),
                _ => Seq::empty(),
            },
        },
        _ => Seq::empty(),
    }
}

/// The places of the files that the members of an object speak of, member
/// after member.
pub open spec fn recorded_all(members: Seq<(Seq<char>, JsonView)>) -> Seq<(nat, nat)>
    decreases members, 0int,
{
    if members.len() == 0 {
        Seq::empty()
    } else {
        recorded_all(members.drop_last()) + recorded(members.last().1)
    }
}

/// Each place begins at or behind the end of every place before it.
pub open spec fn in_sequence(places: Seq<(nat, nat)>) -> bool {
    forall|i: int, j: int|
        0 <= i < j < places.len() ==> (#[trigger] places[j]).0 >= (#[trigger] places[i]).0
            + places[i].1
}

/// Every place lies between `low` and `high`.
pub open spec fn within(places: Seq<(nat, nat)>, low: nat, high: nat) -> bool {
    forall|i: int|
        0 <= i < places.len() ==> low <= (#[trigger] places[i]).0 && places[i].0 + places[i].1
            <= high
}

/// What the record of a file holds under the keys that reading looks for.
pub proof fn lemma_file_record_members(offset: nat, size: nat)
    ensures
        lookup(file_record(offset, size)->Object_0, "size"@) == Some(
            JsonView::Number(Some(size as u64)),
        ),
        lookup(file_record(offset, size)->Object_0, "offset"@) == Some(
            JsonView::Text(decimal(offset)),
        ),
{
    reveal_strlit("offset");
    reveal_strlit("size");
    let obj = file_record(offset, size)->Object_0;
    assert(obj[0].0 == "offset"@ && obj[1].0 == "size"@);
    assert("offset"@.len() != "size"@.len());
    lemma_position_bounds(obj, "size"@);
    lemma_position_bounds(obj, "offset"@);
}

/// What the record of a directory holds under the keys that reading looks for.
pub proof fn lemma_dir_record_members(children: JsonView)
    ensures
        lookup(seq![("files"@, children)], "size"@) is None,
        lookup(seq![("files"@, children)], "files"@) == Some(children),
{
    reveal_strlit("files");
    reveal_strlit("size");
    let obj = seq![("files"@, children)];
    assert(obj[0].0 == "files"@);
    assert("files"@.len() != "size"@.len());
    lemma_position_bounds(obj, "size"@);
    lemma_position_bounds(obj, "files"@);
}

/// The places that the record of an entry holds follow one another within
/// the bytes of the entry.
pub proof fn lemma_record_places(entry: EntryView, offset: nat)
    requires
        offset + entry.payload().len() <= u64::MAX,
    ensures
        recorded(record(entry, offset)).len() == entry.count(),
        in_sequence(recorded(record(entry, offset))),
        within(recorded(record(entry, offset)), offset, offset + entry.payload().len()),
    decreases entry, 1int,
{
    match entry {
        EntryView::File(f) => {
            lemma_file_record_members(offset, f.data.len());
            lemma_decimal_round_trip(offset as u64);
        },
        EntryView::Dir(d) => {
            lemma_dir_record_members(JsonView::Object(records(d.items, offset)));
            lemma_records_places(d.items, offset);
        },
    }
}

/// The places that the records of a sequence of entries hold follow one
/// another within the bytes of the entries.
pub proof fn lemma_records_places(items: Seq<EntryView>, offset: nat)
    requires
        offset + payloads(items).len() <= u64::MAX,
    ensures
        recorded_all(records(items, offset)).len() == count_all(items),
        in_sequence(recorded_all(records(items, offset))),
        within(recorded_all(records(items, offset)), offset, offset + payloads(items).len()),
    decreases items, 0int,
{
    if items.len() > 0 {
        let front = items.drop_last();
        let middle = offset + payloads(front).len();
        lemma_records_places(front, offset);
        lemma_record_places(items.last(), middle);
        let written = records(items, offset);
        assert(written.drop_last() =~= records(front, offset));
        let a = recorded_all(records(front, offset));
        let b = recorded(record(items.last(), middle));
        let all = recorded_all(written);
        assert(all == a + b);
        assert forall|i: int, j: int| 0 <= i < j < all.len() implies (#[trigger] all[j]).0 >= (
        #[trigger] all[i]).0 + all[i].1 by {
            if j < a.len() {
                assert(all[i] == a[i] && all[j] == a[j]);
            } else if i < a.len() {
                assert(all[i] == a[i] && all[j] == b[j - a.len()]);
            } else {
                assert(all[i] == b[i - a.len()] && all[j] == b[j - a.len()]);
            }
        }
        assert forall|i: int| 0 <= i < all.len() implies offset <= (#[trigger] all[i]).0
            && all[i].0 + all[i].1 <= offset + payloads(items).len() by {
            if i < a.len() {
                assert(all[i] == a[i]);
            } else {
                assert(all[i] == b[i - a.len()]);
            }
        }
    }
}

/// In the header that packing writes, the files stand one behind the other:
/// the header holds a place for every file, and of any two files, in the
/// order in which the header holds them, the later one begins at or behind
/// the end of the earlier one, and none ends behind the end of the file data.
pub proof fn lemma_offsets_in_sequence(items: Seq<EntryView>)
    requires
        payloads(items).len() <= u64::MAX,
    ensures
        recorded(header_of(items)).len() == count_all(items),
        in_sequence(recorded(header_of(items))),
        within(recorded(header_of(items)), 0, payloads(items).len()),
{
    lemma_dir_record_members(JsonView::Object(records(items, 0)));
    lemma_records_places(items, 0);
}

/// Going one name further looks that name up among the children of the entry
/// that was reached.
pub proof fn lemma_descend_push(entry: EntryView, names: Seq<Seq<char>>, last: Seq<char>)
    ensures
        descend(entry, names.push(last)) == match descend(entry, names) {
            Some(reached) => reached.child(last),
            None => None,
        },
    decreases names.len(),
{
    let longer = names.push(last);
    if names.len() == 0 {
        assert(longer.drop_first() =~= Seq::<Seq<char>>::empty());
        assert(longer[0] == last);
        match entry.child(last) {
            Some(next) => {
                assert(descend(next, longer.drop_first()) == Some(next));
            },
            None => {},
        }
    } else {
        assert(longer[0] == names[0]);
        assert(longer.drop_first() =~= names.drop_first().push(last));
        match entry.child(names[0]) {
            Some(next) => {
                lemma_descend_push(next, names.drop_first(), last);
            },
            None => {},
        }
    }
}

/// The parts of a path with one more name behind a slash are the parts of
/// the path and then that name.
pub proof fn lemma_segments_join(path: Seq<char>, name: Seq<char>)
    requires
        forall|i: int| 0 <= i < name.len() ==> name[i] != '/',
    ensures
        segments(path + seq!['/'] + name) == segments(path).push(name),
    decreases name.len(),
{
    let whole = path + seq!['/'] + name;
    if name.len() == 0 {
        assert(whole.drop_last() =~= path);
        assert(whole.last() == '/');
        assert(name =~= Seq::<char>::empty());
    } else {
        let shorter = name.drop_last();
        lemma_segments_join(path, shorter);
        assert(whole.drop_last() =~= path + seq!['/'] + shorter);
        assert(whole.last() == name.last());
        let front = segments(path).push(shorter);
        assert(front.drop_last() =~= segments(path));
        assert(front.last().push(name.last()) =~= name);
    }
}

/// A path resolves directory by directory: a path with one more name behind
/// a slash leads to the child of that name of the entry that the path leads
/// to, and to nothing where the path leads to nothing, where it leads to a
/// file, or where that entry has no child of the name.
pub proof fn lemma_resolve_child(items: Seq<EntryView>, path: Seq<char>, name: Seq<char>)
    requires
        forall|i: int| 0 <= i < name.len() ==> name[i] != '/',
    ensures
        resolve(items, segments(path + seq!['/'] + name)) == match resolve(
            items,
            segments(path),
        ) {
            Some(reached) => reached.child(name),
            None => None,
        },
{
    lemma_segments_join(path, name);
    lemma_segments_nonempty(path);
    let names = segments(path);
    let longer = names.push(name);
    assert(longer[0] == names[0]);
    assert(longer.drop_first() =~= names.drop_first().push(name));
    match child(items, names[0]) {
        Some(first) => {
            lemma_descend_push(first, names.drop_first(), name);
        },
        None => {},
    }
}

/// An object with a numeric `size` and a string `offset` is read as a file,
/// never as a directory: as the file of the bytes at that offset where the
/// offset is a number and the bytes are there, as the file of no bytes where
/// the size is 0, whatever number the offset is, and as a failure otherwise.
pub proof fn lemma_file_shape(
    name: Seq<char>,
    obj: Seq<(Seq<char>, JsonView)>,
    source: Seq<u8>,
    data_start: nat,
    size: Option<u64>,
    offset: Seq<char>,
)
    requires
        lookup(obj, "size"@) == Some(JsonView::Number(size)),
        lookup(obj, "offset"@) == Some(JsonView::Text(offset)),
    ensures
        !(decode_entry(name, obj, source, data_start) matches Ok(EntryView::Dir(_))),
        match (size, parse_decimal(offset)) {
            (Some(n), Ok(at)) => if n == 0 {
                decode_entry(name, obj, source, data_start) == Ok::<EntryView, Failure>(
                    EntryView::File(FileView { name, data: Seq::empty() }),
                )
            } else if data_start + at + n <= source.len() {
                decode_entry(name, obj, source, data_start) == Ok::<EntryView, Failure>(
                    EntryView::File(
                        FileView {
                            name,
                            data: source.subrange(data_start + at, data_start + at + n),
                        },
                    ),
                )
            } else {
                decode_entry(name, obj, source, data_start) == Err::<EntryView, Failure>(
                    Failure::IOErr,
                )
            },
            _ => decode_entry(name, obj, source, data_start) is Err,
        },
{
}

/// An object without a numeric `size` whose `files` is an object is read as
/// a directory, never as a file: as the directory of the entries that the
/// members of `files` describe, or as the failure that reading them gives.
pub proof fn lemma_dir_shape(
    name: Seq<char>,
    obj: Seq<(Seq<char>, JsonView)>,
    source: Seq<u8>,
    data_start: nat,
    children: Seq<(Seq<char>, JsonView)>,
)
    requires
        !(lookup(obj, "size"@) matches Some(JsonView::Number(_))),
        lookup(obj, "files"@) == Some(JsonView::Object(children)),
    ensures
        !(decode_entry(name, obj, source, data_start) matches Ok(EntryView::File(_))),
        match decode_entries(children, source, data_start, false) {
            Ok(items) => decode_entry(name, obj, source, data_start) == Ok::<EntryView, Failure>(
                EntryView::Dir(DirView { name, items }),
            ),
            Err(failure) => decode_entry(name, obj, source, data_start) == Err::<
                EntryView,
                Failure,
            >(failure),
        },
{
}

} // verus!
