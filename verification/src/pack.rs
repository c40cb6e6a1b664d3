//! Writing the directory header: from the tree of entries to the JSON that
//! describes it, with every file placed behind the one before it.

use vstd::prelude::*;
use crate::decimal::decimal;
use crate::decimal::to_decimal;
use crate::entry::items_wf;
use crate::entry::views;
use crate::entry::Entry;
use crate::entry::EntryView;
use crate::json::lemma_position_bounds;
use crate::json::position;
use crate::json::Json;
use crate::json::JsonMap;
use crate::json::JsonView;

verus! {

impl EntryView {
    /// The bytes of the files of the entry, in the order in which they are
    /// visited: a directory's children one after the other, each with all
    /// that is below it.
    pub open spec fn payload(self) -> Seq<u8>
        decreases self, 1int,
    {
        match self {
            EntryView::File(f) => f.data,
            EntryView::Dir(d) => payloads(d.items),
        }
    }
}

/// The bytes of the files in and below `items`, in the order in which they
/// are visited.
pub open spec fn payloads(items: Seq<EntryView>) -> Seq<u8>
    decreases items, 0int,
{
    if items.len() == 0 {
        Seq::empty()
    } else {
        payloads(items.drop_last()) + items.last().payload()
    }
}

/// What the header says of a file of `size` bytes that stands `offset` bytes
/// into the file data.
pub open spec fn file_record(offset: nat, size: nat) -> JsonView {
    JsonView::Object(
        seq![
            ("offset"@, JsonView::Text(decimal(offset))),
            ("size"@, JsonView::Number(Some(size as u64))),
        ],
    )
}

/// What the header says of an entry whose first file, if it has one, stands
/// `offset` bytes into the file data.
pub open spec fn record(entry: EntryView, offset: nat) -> JsonView
    decreases entry, 1int,
{
    match entry {
        EntryView::File(f) => file_record(offset, f.data.len()),
        EntryView::Dir(d) => JsonView::Object(
            seq![("files"@, JsonView::Object(records(d.items, offset)))],
        ),
    }
}

/// What the header says of `items`, each under its name: every entry begins
/// where the one before it ends, the first one at `offset`.
pub open spec fn records(items: Seq<EntryView>, offset: nat) -> Seq<(Seq<char>, JsonView)>
    decreases items, 0int,
{
    if items.len() == 0 {
        Seq::empty()
    } else {
        records(items.drop_last(), offset).push(
            (
                items.last().name(),
                record(items.last(), offset + payloads(items.drop_last()).len()),
            ),
        )
    }
}

/// The header of an archive that holds `items`.
pub open spec fn header_of(items: Seq<EntryView>) -> JsonView {
    JsonView::Object(seq![("files"@, JsonView::Object(records(items, 0)))])
}

/// The header names each item once, in order, with the place where its bytes
/// begin.
pub proof fn lemma_records_at(items: Seq<EntryView>, offset: nat, i: int)
    requires
        0 <= i < items.len(),
    ensures
        records(items, offset).len() == items.len(),
        records(items, offset)[i] == (
            items[i].name(),
            record(items[i], offset + payloads(items.take(i)).len()),
        ),
    decreases items.len(),
{
    lemma_records_len(items, offset);
    if i < items.len() - 1 {
        lemma_records_at(items.drop_last(), offset, i);
        assert(items.drop_last().take(i) =~= items.take(i));
    } else {
        assert(items.drop_last() =~= items.take(i));
    }
}

/// The header has one member for each item.
pub proof fn lemma_records_len(items: Seq<EntryView>, offset: nat)
    ensures
        records(items, offset).len() == items.len(),
    decreases items.len(),
{
    if items.len() > 0 {
        lemma_records_len(items.drop_last(), offset);
    }
}

/// A name that no item has is no key of the header.
pub proof fn lemma_records_lack(items: Seq<EntryView>, offset: nat, name: Seq<char>)
    requires
        forall|j: int| 0 <= j < items.len() ==> (#[trigger] items[j]).name() != name,
    ensures
        position(records(items, offset), name) < 0,
{
    let members = records(items, offset);
    lemma_position_bounds(members, name);
    lemma_records_len(items, offset);
    let p = position(members, name);
    if p >= 0 {
        lemma_records_at(items, offset, p);
        assert(items[p].name() == name);
    }
}

impl Entry {
    /// Writes the entry for an archive: appends the bytes of its files to
    /// `ar`, the file data, and returns what the header says of the entry,
    /// under the entry's name. `offset` counts the bytes of file data written
    /// so far.
    pub fn write(&self, ar: &mut Vec<u8>, offset: &mut u64) -> (r: (String, Json))
        requires
            self.wf(),
            *old(offset) == old(ar)@.len(),
        ensures
            final(ar)@ == old(ar)@ + self@.payload(),
            *final(offset) == final(ar)@.len(),
            r.0@ == self@.name(),
            r.1@ == record(self@, *old(offset) as nat),
            r.1@.wf(),
            r.1@.exact(),
        decreases self,
    {
        match self {
            Entry::Dir(dir) => {
                proof {
                    dir.lemma_view();
                }
                let ghost all = dir@.items;
                let ghost start = *offset as nat;
                let ghost written = ar@;
                let mut members = JsonMap::new();
                let mut i: usize = 0;
                assert(all.take(0) =~= Seq::empty());
                assert(ar@ =~= written + payloads(all.take(0)));
                while i < dir.items.len()
                    invariant
                        i <= dir.items@.len(),
                        *self == Entry::Dir(*dir),
                        all == views(dir.items@),
                        items_wf(all),
                        ar@ == written + payloads(all.take(i as int)),
                        *offset == ar@.len(),
                        start == written.len(),
                        members@ == records(all.take(i as int), start),
                        members.wf(),
                        JsonView::Object(members@).exact(),
                    decreases dir.items@.len() - i,
                {
                    let ghost step = all.take(i + 1);
                    let ghost before = members@;
                    proof {
                        assert(step.drop_last() =~= all.take(i as int));
                        assert(step.last() == dir.items@[i as int]@);
                        assert(all[i as int].wf());
                        assert(decreases_to!(*self => self->Dir_0));
                        assert(decreases_to!(dir.items => dir.items[i as int]));
                    }
                    let (name, value) = dir.items[i].write(ar, offset);
                    proof {
                        assert forall|j: int| 0 <= j < all.take(i as int).len() implies (
                        #[trigger] all.take(i as int)[j]).name() != name@ by {
                            assert(all.take(i as int)[j] == all[j]);
                        }
                        lemma_records_lack(all.take(i as int), start, name@);
                    }
                    let previous = members.insert(name, value);
                    proof {
                        assert(previous is None);
                        assert(members@ == records(step, start));
                        assert(ar@ =~= written + payloads(step));
                        let after = members@;
                        assert forall|j: int| 0 <= j < after.len() implies (
                        #[trigger] after[j]).1.exact() by {
                            if j < before.len() {
                                assert(after[j] == before[j]);
                            }
                        }
                    }
                    i += 1;
                }
                assert(all.take(i as int) =~= all);
                let mut whole = JsonMap::new();
                let previous = whole.insert("files".to_owned(), Json::Object(members));
                assert(whole@ =~= seq![("files"@, JsonView::Object(records(all, start)))]);
                assert(whole@[0].1.exact());
                (dir.name().clone(), Json::Object(whole))
            },
            Entry::File(file) => {
                let ghost start = *offset as nat;
                let mut whole = JsonMap::new();
                let first = whole.insert("offset".to_owned(), Json::Text(to_decimal(*offset)));
                proof {
                    reveal_strlit("offset");
                    reveal_strlit("size");
                    assert("offset"@.len() != "size"@.len());
                    lemma_position_bounds(whole@, "size"@);
                }
                let second = whole.insert(
                    "size".to_owned(),
                    Json::Number(Some(file.size() as u64)),
                );
                assert(whole@ =~= file_record(start, self@.payload().len())->Object_0);
                assert(whole@[0].1.exact() && whole@[1].1.exact());
                ar.extend_from_slice(file.as_bytes());
                *offset = ar.len() as u64;
                (file.name().clone(), Json::Object(whole))
            },
        }
    }
}

} // verus!
