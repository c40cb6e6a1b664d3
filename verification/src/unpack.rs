//! Reading the directory header: from the JSON that describes the files and
//! directories, and the bytes that hold the file data, to the tree of entries.

use vstd::prelude::*;
use vstd::slice::slice_subrange;
use vstd::slice::slice_to_vec;
use vstd::string::StringExecFns;
use crate::decimal::from_decimal;
use crate::decimal::parse_decimal;
use crate::decimal::NumberFault;
use crate::entry::items_wf;
use crate::entry::views;
use crate::entry::DirEntry;
use crate::entry::DirView;
use crate::entry::Entry;
use crate::entry::EntryView;
use crate::entry::FileEntry;
use crate::entry::FileView;
use crate::error::short_read;
use crate::error::Error;
use crate::error::Failure;
use crate::json::json_parse;
use crate::json::lemma_position_bounds;
use crate::json::lookup;
use crate::json::member;
use crate::json::position;
use crate::json::Json;
use crate::json::JsonMap;
use crate::json::JsonView;
use crate::layout::data_start_of;
use crate::layout::json_size_of;

verus! {

/// What is said of a number that could not be read.
pub open spec fn fault_text(fault: NumberFault) -> Seq<char> {
    match fault {
        NumberFault::Empty => "cannot parse integer from empty string"@,
        NumberFault::InvalidDigit => "invalid digit found in string"@,
        NumberFault::Overflow => "number too large to fit in target type"@,
    }
}

/// The message for a file entry whose size is no whole number from 0 to `u64::MAX`.
pub open spec fn size_not_whole(name: Seq<char>) -> Seq<char> {
    "The 'size' field in file "@ + name + " is not an unsigned integer"@
}

/// The message for a file entry without an offset.
pub open spec fn offset_missing(name: Seq<char>) -> Seq<char> {
    "The 'offset' field in file "@ + name + " is not present"@
}

/// The message for a file entry whose offset is no string.
pub open spec fn offset_not_text(name: Seq<char>) -> Seq<char> {
    "The 'offset' field is present in file entry "@ + name + ", but is not a string"@
}

/// The message for a file entry whose offset does not read as a number.
pub open spec fn offset_unreadable(name: Seq<char>, fault: NumberFault) -> Seq<char> {
    "The 'offset' field is present and is a string in file "@ + name
        + ", but could not be parsed as an integer value: "@ + fault_text(fault)
}

/// The message for a directory entry without children.
pub open spec fn files_missing(name: Seq<char>) -> Seq<char> {
    "The 'files' object for directory "@ + name + " does not exist"@
}

/// The message for a directory entry whose children are no object.
pub open spec fn files_not_object(name: Seq<char>) -> Seq<char> {
    "The 'files' field exists for directory "@ + name + ", but is not an object"@
}

/// The message for an entry that is no object: `top` tells an entry of the
/// archive's root from one of a directory.
pub open spec fn entry_not_object(name: Seq<char>, top: bool) -> Seq<char> {
    if top {
        "Value "@ + name + " in the header is not a JSON object"@
    } else {
        "The directory "@ + name + " is present in header JSON but is not an object"@
    }
}

/// The message for a header without a list of entries.
pub open spec fn header_files_missing() -> Seq<char> {
    "The 'files' object in the JSON header is not present"@
}

/// The message for a header whose list of entries is no object.
pub open spec fn header_files_not_object() -> Seq<char> {
    "The 'files' field is present in the JSON header, but is not an object"@
}

/// The file that a file-shaped object describes: `size` bytes of `source`,
/// `offset` bytes behind `data_start`. A file of no bytes is read wherever
/// its offset lies; any other must lie within `source`.
pub open spec fn decode_file(
    name: Seq<char>,
    size: Option<u64>,
    offset: Option<JsonView>,
    source: Seq<u8>,
    data_start: nat,
) -> Result<EntryView, Failure> {
    match size {
        None => Err(Failure::InvalidJsonFormat(size_not_whole(name))),
        Some(size) => match offset {
            None => Err(Failure::InvalidJsonFormat(offset_missing(name))),
            Some(JsonView::Text(text)) => match parse_decimal(text) {
                Err(fault) => Err(Failure::InvalidJsonFormat(offset_unreadable(name, fault))),
                Ok(offset) => if size == 0 {
                    Ok(EntryView::File(FileView { name, data: Seq::empty() }))
                } else if data_start + offset + size <= source.len() {
                    Ok(
                        EntryView::File(
                            FileView {
                                name,
                                data: source.subrange(
                                    data_start + offset,
                                    data_start + offset + size,
                                ),
                            },
                        ),
                    )
                } else {
                    Err(Failure::IOErr)
                },
            },
            Some(_) => Err(Failure::InvalidJsonFormat(offset_not_text(name))),
        },
    }
}

/// The entry that an object of the header describes. An object with a numeric
/// `size` is a file; any other is a directory, whose children are the members
/// of its `files`.
pub open spec fn decode_entry(
    name: Seq<char>,
    obj: Seq<(Seq<char>, JsonView)>,
    source: Seq<u8>,
    data_start: nat,
) -> Result<EntryView, Failure>
    decreases obj, 1int,
{
    match lookup(obj, "size"@) {
        Some(JsonView::Number(size)) => decode_file(
            name,
            size,
            lookup(obj, "offset"@),
            source,
            data_start,
        ),
        _ => match lookup(obj, "files"@) {
            None => Err(Failure::InvalidJsonFormat(files_missing(name))),
            Some(JsonView::Object(children)) => match decode_entries(
                children,
                source,
                data_start,
                false,
            ) {
                Ok(items) => Ok(EntryView::Dir(DirView { name, items })),
                Err(failure) => Err(failure),
            },
            Some(_) => Err(Failure::InvalidJsonFormat(files_not_object(name))),
        },
    }
}

/// The entries that the members of an object describe, one for each member,
/// in order. The first member that does not describe an entry gives the
/// failure.
pub open spec fn decode_entries(
    members: Seq<(Seq<char>, JsonView)>,
    source: Seq<u8>,
    data_start: nat,
    top: bool,
) -> Result<Seq<EntryView>, Failure>
    decreases members, 0int,
{
    if members.len() == 0 {
        Ok(Seq::empty())
    } else {
        match decode_entries(members.drop_last(), source, data_start, top) {
            Err(failure) => Err(failure),
            Ok(items) => match members.last().1 {
                JsonView::Object(obj) => match decode_entry(
                    members.last().0,
                    obj,
                    source,
                    data_start,
                ) {
                    Ok(entry) => Ok(items.push(entry)),
                    Err(failure) => Err(failure),
                },
                _ => Err(Failure::InvalidJsonFormat(entry_not_object(members.last().0, top))),
            },
        }
    }
}

/// The entries that a parsed header describes.
pub open spec fn decode_header(header: JsonView, source: Seq<u8>, data_start: nat) -> Result<
    Seq<EntryView>,
    Failure,
> {
    match member(header, "files"@) {
        None => Err(Failure::InvalidJsonFormat(header_files_missing())),
        Some(JsonView::Object(members)) => decode_entries(members, source, data_start, true),
        Some(_) => Err(Failure::InvalidJsonFormat(header_files_not_object())),
    }
}

/// What unpacking the bytes of an archive gives: the entries of its root, or
/// the failure that ends the reading.
pub open spec fn unpack(source: Seq<u8>) -> Result<Seq<EntryView>, Failure> {
    if source.len() < 16 {
        Err(Failure::IOErr)
    } else if source.len() < 16 + json_size_of(source) {
        Err(Failure::IOErr)
    } else {
        match json_parse(source.subrange(16, 16 + json_size_of(source) as int)) {
            None => Err(Failure::InvalidJson),
            Some(header) => decode_header(header, source, data_start_of(source)),
        }
    }
}

/// Where the members of an object describe entries, there is one entry for
/// each member, described by it and called by its key.
pub proof fn lemma_entries_each(
    members: Seq<(Seq<char>, JsonView)>,
    source: Seq<u8>,
    data_start: nat,
    top: bool,
)
    ensures
        decode_entries(members, source, data_start, top) matches Ok(items) ==> {
            &&& items.len() == members.len()
            &&& forall|i: int|
                0 <= i < members.len() ==> {
                    &&& (#[trigger] members[i]).1 is Object
                    &&& decode_entry(members[i].0, members[i].1->Object_0, source, data_start)
                        == Ok::<EntryView, Failure>(items[i])
                }
        },
    decreases members.len(),
{
    if members.len() > 0 {
        let front = members.drop_last();
        lemma_entries_each(front, source, data_start, top);
        if let Ok(items) = decode_entries(members, source, data_start, top) {
            let before = decode_entries(front, source, data_start, top)->Ok_0;
            assert forall|i: int| 0 <= i < members.len() implies {
                &&& (#[trigger] members[i]).1 is Object
                &&& decode_entry(members[i].0, members[i].1->Object_0, source, data_start) == Ok::<
                    EntryView,
                    Failure,
                >(items[i])
            } by {
                if i < front.len() {
                    assert(members[i] == front[i]);
                    assert(items[i] == before[i]);
                }
            }
        }
    }
}

/// Where every member of an object describes an entry, the members describe
/// entries.
pub proof fn lemma_entries_all(
    members: Seq<(Seq<char>, JsonView)>,
    source: Seq<u8>,
    data_start: nat,
    top: bool,
)
    requires
        forall|i: int|
            0 <= i < members.len() ==> {
                &&& (#[trigger] members[i]).1 is Object
                &&& decode_entry(members[i].0, members[i].1->Object_0, source, data_start) is Ok
            },
    ensures
        decode_entries(members, source, data_start, top) is Ok,
    decreases members.len(),
{
    if members.len() > 0 {
        let front = members.drop_last();
        assert forall|i: int| 0 <= i < front.len() implies {
            &&& (#[trigger] front[i]).1 is Object
            &&& decode_entry(front[i].0, front[i].1->Object_0, source, data_start) is Ok
        } by {
            assert(front[i] == members[i]);
        }
        lemma_entries_all(front, source, data_start, top);
        assert(members.last() == members[members.len() - 1]);
    }
}

/// An entry read from an object is called by the name that it was read under.
pub proof fn lemma_decode_entry_name(
    name: Seq<char>,
    obj: Seq<(Seq<char>, JsonView)>,
    source: Seq<u8>,
    data_start: nat,
)
    ensures
        decode_entry(name, obj, source, data_start) matches Ok(entry) ==> entry.name() == name,
{
}

/// An entry read from an object whose objects have distinct keys has unique
/// names among siblings.
pub proof fn lemma_decode_entry_wf(
    name: Seq<char>,
    obj: Seq<(Seq<char>, JsonView)>,
    source: Seq<u8>,
    data_start: nat,
)
    requires
        JsonView::Object(obj).wf(),
    ensures
        decode_entry(name, obj, source, data_start) matches Ok(entry) ==> entry.wf(),
    decreases obj, 1int,
{
    if let Ok(entry) = decode_entry(name, obj, source, data_start) {
        if let EntryView::Dir(dir) = entry {
            let p = position(obj, "files"@);
            lemma_position_bounds(obj, "files"@);
            assert(obj[p].1.wf());
            let children = obj[p].1->Object_0;
            lemma_decode_entries_wf(children, source, data_start, false);
        }
    }
}

/// The entries read from the members of an object with distinct keys have
/// unique names, at every level.
pub proof fn lemma_decode_entries_wf(
    members: Seq<(Seq<char>, JsonView)>,
    source: Seq<u8>,
    data_start: nat,
    top: bool,
)
    requires
        JsonView::Object(members).wf(),
    ensures
        decode_entries(members, source, data_start, top) matches Ok(items) ==> items_wf(items),
    decreases members, 0int,
{
    if let Ok(items) = decode_entries(members, source, data_start, top) {
        lemma_entries_each(members, source, data_start, top);
        assert forall|i: int| 0 <= i < items.len() implies (#[trigger] items[i]).wf()
            && items[i].name() == members[i].0 by {
            assert(members[i].1 is Object);
            assert(members[i].1.wf());
            lemma_decode_entry_wf(members[i].0, members[i].1->Object_0, source, data_start);
            lemma_decode_entry_name(members[i].0, members[i].1->Object_0, source, data_start);
        }
        assert forall|i: int, j: int| 0 <= i < j < items.len() implies (#[trigger] items[i]).name()
            != (#[trigger] items[j]).name() by {
            assert(items[i].name() == members[i].0);
            assert(items[j].name() == members[j].0);
        }
    }
}

/// The entries read from a header whose objects have distinct keys have
/// unique names, at every level.
pub proof fn lemma_decode_header_wf(header: JsonView, source: Seq<u8>, data_start: nat)
    requires
        header.wf(),
    ensures
        decode_header(header, source, data_start) matches Ok(items) ==> items_wf(items),
{
    if let Ok(items) = decode_header(header, source, data_start) {
        let members = header->Object_0;
        let p = position(members, "files"@);
        lemma_position_bounds(members, "files"@);
        assert(members[p].1.wf());
        lemma_decode_entries_wf(members[p].1->Object_0, source, data_start, true);
    }
}

/// A failure met among the first members is the failure of all of them.
pub proof fn lemma_entries_prefix_fault(
    members: Seq<(Seq<char>, JsonView)>,
    source: Seq<u8>,
    data_start: nat,
    top: bool,
    k: int,
)
    requires
        0 <= k <= members.len(),
        decode_entries(members.take(k), source, data_start, top) is Err,
    ensures
        decode_entries(members, source, data_start, top) == decode_entries(
            members.take(k),
            source,
            data_start,
            top,
        ),
    decreases members.len(),
{
    if k < members.len() {
        assert(members.drop_last().take(k) =~= members.take(k));
        lemma_entries_prefix_fault(members.drop_last(), source, data_start, top, k);
    } else {
        assert(members.take(k) =~= members);
    }
}

/// A text made of three parts.
fn message(head: &str, name: &str, tail: &str) -> (r: String)
    ensures
        r@ == head@ + name@ + tail@,
{
    let mut r = head.to_owned();
    r.append(name);
    r.append(tail);
    r
}

/// What is said of a number that could not be read.
fn fault_message(fault: NumberFault) -> (r: &'static str)
    ensures
        r@ == fault_text(fault),
{
    match fault {
        NumberFault::Empty => "cannot parse integer from empty string",
        NumberFault::InvalidDigit => "invalid digit found in string",
        NumberFault::Overflow => "number too large to fit in target type",
    }
}

/// Reads the file that a file-shaped object describes.
fn read_file(name: &str, size: Option<u64>, obj: &JsonMap, source: &[u8], header_size: u64) -> (r:
    Result<Entry, Error>)
    ensures
        match decode_file(name@, size, lookup(obj@, "offset"@), source@, header_size as nat) {
            Ok(entry) => r matches Ok(e) && e@ == entry,
            Err(failure) => r matches Err(e) && e@ == failure,
        },
{
    let size = match size {
        Some(size) => size,
        None => {
            return Err(
                Error::InvalidJsonFormat(
                    message("The 'size' field in file ", name, " is not an unsigned integer"),
                ),
            );
        },
    };
    let offset = match obj.get("offset") {
        Some(offset) => offset,
        None => {
            return Err(
                Error::InvalidJsonFormat(
                    message("The 'offset' field in file ", name, " is not present"),
                ),
            );
        },
    };
    let offset = match offset.as_str() {
        Some(offset) => offset,
        None => {
            return Err(
                Error::InvalidJsonFormat(
                    message(
                        "The 'offset' field is present in file entry ",
                        name,
                        ", but is not a string",
                    ),
                ),
            );
        },
    };
    let offset = match from_decimal(offset) {
        Ok(offset) => offset,
        Err(fault) => {
            let mut text = message(
                "The 'offset' field is present and is a string in file ",
                name,
                ", but could not be parsed as an integer value: ",
            );
            text.append(fault_message(fault));
            return Err(Error::InvalidJsonFormat(text));
        },
    };
    if size == 0 {
        return Ok(Entry::File(FileEntry::new(name.to_owned(), Vec::new())));
    }
    let len = source.len() as u64;
    if offset > u64::MAX - header_size {
        return Err(short_read());
    }
    let start = header_size + offset;
    if size > u64::MAX - start {
        return Err(short_read());
    }
    let end = start + size;
    if end > len {
        return Err(short_read());
    }
    let data = slice_to_vec(slice_subrange(source, start as usize, end as usize));
    Ok(Entry::File(FileEntry::new(name.to_owned(), data)))
}

impl Entry {
    /// Reads an entry, a directory or a file, from the object that describes
    /// it in the header. The bytes of a file are taken from `source`, at the
    /// file's offset behind `header_size`, the place where the file data begins.
    pub fn from_json(name: &str, obj: &JsonMap, source: &[u8], header_size: u64) -> (r: Result<
        Entry,
        Error,
    >)
        ensures
            match decode_entry(name@, obj@, source@, header_size as nat) {
                Ok(entry) => r matches Ok(e) && e@ == entry,
                Err(failure) => r matches Err(e) && e@ == failure,
            },
            obj.wf() ==> (r matches Ok(e) ==> e.wf()),
        decreases obj@, 1int,
    {
        proof {
            if obj.wf() {
                lemma_decode_entry_wf(name@, obj@, source@, header_size as nat);
            }
        }
        match obj.get("size") {
            Some(Json::Number(size)) => read_file(name, *size, obj, source, header_size),
            _ => {
                let files = match obj.get("files") {
                    Some(files) => files,
                    None => {
                        return Err(
                            Error::InvalidJsonFormat(
                                message(
                                    "The 'files' object for directory ",
                                    name,
                                    " does not exist",
                                ),
                            ),
                        );
                    },
                };
                let files = match files.as_object() {
                    Some(files) => files,
                    None => {
                        return Err(
                            Error::InvalidJsonFormat(
                                message(
                                    "The 'files' field exists for directory ",
                                    name,
                                    ", but is not an object",
                                ),
                            ),
                        );
                    },
                };
                proof {
                    let p = position(obj@, "files"@);
                    lemma_position_bounds(obj@, "files"@);
                    assert(decreases_to!(obj@ => obj@[p]));
                    assert(decreases_to!(obj@[p].1 => obj@[p].1->Object_0));
                }
                match read_entries(files, source, header_size, false) {
                    Ok(items) => {
                        let dir = DirEntry { name: name.to_owned(), items };
                        proof {
                            dir.lemma_view();
                        }
                        Ok(Entry::Dir(dir))
                    },
                    Err(e) => Err(e),
                }
            },
        }
    }
}

/// Reads the entries that the members of an object describe, in order.
/// `top` tells the entries of the archive's root from those of a directory.
pub fn read_entries(members: &JsonMap, source: &[u8], header_size: u64, top: bool) -> (r: Result<
    Vec<Entry>,
    Error,
>)
    ensures
        match decode_entries(members@, source@, header_size as nat, top) {
            Ok(items) => r matches Ok(v) && views(v@) == items,
            Err(failure) => r matches Err(e) && e@ == failure,
        },
        members.wf() ==> (r matches Ok(v) ==> items_wf(views(v@))),
    decreases members@, 0int,
{
    proof {
        if members.wf() {
            lemma_decode_entries_wf(members@, source@, header_size as nat, top);
        }
    }
    let mut items: Vec<Entry> = Vec::new();
    let mut i: usize = 0;
    assert(members@.take(0) =~= Seq::empty());
    assert(views(items@) =~= Seq::empty());
    while i < members.len()
        invariant
            i <= members@.len(),
            decode_entries(members@.take(i as int), source@, header_size as nat, top) == Ok::<
                Seq<EntryView>,
                Failure,
            >(views(items@)),
        decreases members@.len() - i,
    {
        let name = members.key_at(i);
        let ghost step = members@.take(i + 1);
        proof {
            assert(step.drop_last() =~= members@.take(i as int));
            assert(step.last() == members@[i as int]);
        }
        let obj = match members.value_at(i).as_object() {
            Some(obj) => obj,
            None => {
                proof {
                    lemma_entries_prefix_fault(
                        members@,
                        source@,
                        header_size as nat,
                        top,
                        i + 1,
                    );
                }
                return Err(
                    Error::InvalidJsonFormat(
                        if top {
                            message("Value ", name.as_str(), " in the header is not a JSON object")
                        } else {
                            message(
                                "The directory ",
                                name.as_str(),
                                " is present in header JSON but is not an object",
                            )
                        },
                    ),
                );
            },
        };
        proof {
            assert(decreases_to!(members@ => members@[i as int]));
            assert(decreases_to!(members@[i as int].1 => members@[i as int].1->Object_0));
        }
        match Entry::from_json(name.as_str(), obj, source, header_size) {
            Ok(entry) => {
                let ghost before = views(items@);
                items.push(entry);
                assert(views(items@) =~= before.push(entry@));
            },
            Err(e) => {
                proof {
                    lemma_entries_prefix_fault(
                        members@,
                        source@,
                        header_size as nat,
                        top,
                        i + 1,
                    );
                }
                return Err(e);
            },
        }
        i += 1;
    }
    assert(members@.take(i as int) =~= members@);
    Ok(items)
}

/// Reads the entries of an archive's root from its parsed header.
pub fn read_header(header: &Json, source: &[u8], header_size: u64) -> (r: Result<Vec<Entry>, Error>)
    ensures
        match decode_header(header@, source@, header_size as nat) {
            Ok(items) => r matches Ok(v) && views(v@) == items,
            Err(failure) => r matches Err(e) && e@ == failure,
        },
        header.wf() ==> (r matches Ok(v) ==> items_wf(views(v@))),
{
    proof {
        if header.wf() {
            lemma_decode_header_wf(header@, source@, header_size as nat);
        }
    }
    let files = match header.get("files") {
        Some(files) => files,
        None => {
            return Err(
                Error::InvalidJsonFormat(
                    "The 'files' object in the JSON header is not present".to_owned(),
                ),
            );
        },
    };
    let files = match files.as_object() {
        Some(files) => files,
        None => {
            return Err(
                Error::InvalidJsonFormat(
                    "The 'files' field is present in the JSON header, but is not an object".to_owned(),
                ),
            );
        },
    };
    read_entries(files, source, header_size, true)
}

} // verus!
