//! An archive as a whole: reading one from its bytes, looking entries up by
//! their path, and writing one back to bytes.

use vstd::prelude::*;
use vstd::slice::slice_subrange;
use vstd::string::StrSliceExecFns;
use crate::entry::child;
use crate::entry::find;
use crate::entry::DirView;
use crate::entry::insert_into;
use crate::entry::items_wf;
use crate::entry::position_of;
use crate::entry::put;
use crate::entry::views;
use crate::entry::DirEntry;
use crate::entry::Entry;
use crate::entry::EntryView;
use crate::entry::FileEntry;
use crate::error::short_read;
use crate::error::Error;
use crate::error::Failure;
use crate::json::json_written;
use crate::json::Json;
use crate::json::JsonMap;
use crate::json::JsonView;
use crate::layout::assemble;
use crate::layout::fits;
use crate::layout::image;
use crate::layout::read_sizes;
use crate::pack::header_of;
use crate::pack::payloads;
use crate::pack::records;
use crate::text::texts;
use crate::unpack::read_header;
use crate::unpack::unpack;

verus! {

/// The parts of a path: the texts between its slashes. A path with `n`
/// slashes has `n + 1` parts, of which any may be empty.
pub open spec fn segments(path: Seq<char>) -> Seq<Seq<char>>
    decreases path.len(),
{
    if path.len() == 0 {
        seq![Seq::empty()]
    } else {
        let front = segments(path.drop_last());
        if path.last() == '/' {
            front.push(Seq::empty())
        } else {
            front.drop_last().push(front.last().push(path.last()))
        }
    }
}

/// The entry reached from `entry` by going down through `names`: each name
/// is looked up among the children of the entry reached so far.
pub open spec fn descend(entry: EntryView, names: Seq<Seq<char>>) -> Option<EntryView>
    decreases names.len(),
{
    if names.len() == 0 {
        Some(entry)
    } else {
        match entry.child(names[0]) {
            None => None,
            Some(next) => descend(next, names.drop_first()),
        }
    }
}

/// The entry that a path of names leads to from the root `items`: `None` if
/// the path is empty, if a name is not found, or if a name but the last finds
/// a file.
pub open spec fn resolve(items: Seq<EntryView>, names: Seq<Seq<char>>) -> Option<EntryView> {
    if names.len() == 0 {
        None
    } else {
        match child(items, names[0]) {
            None => None,
            Some(first) => descend(first, names.drop_first()),
        }
    }
}

/// `entry` with `new` in the place of the entry that `names` lead to from it;
/// `entry` itself where they lead nowhere.
pub open spec fn graft(entry: EntryView, names: Seq<Seq<char>>, new: EntryView) -> EntryView
    decreases names.len(),
{
    if names.len() == 0 {
        new
    } else {
        match entry {
            EntryView::File(_) => entry,
            EntryView::Dir(d) => {
                let i = find(d.items, names[0]);
                if 0 <= i < d.items.len() {
                    EntryView::Dir(
                        DirView {
                            name: d.name,
                            items: d.items.update(i, graft(d.items[i], names.drop_first(), new)),
                        },
                    )
                } else {
                    entry
                }
            },
        }
    }
}

/// The root `items` with `new` in the place of the entry that `names` lead
/// to; `items` themselves where they lead nowhere.
pub open spec fn graft_root(items: Seq<EntryView>, names: Seq<Seq<char>>, new: EntryView) -> Seq<
    EntryView,
> {
    if names.len() == 0 {
        items
    } else {
        let i = find(items, names[0]);
        if 0 <= i < items.len() {
            items.update(i, graft(items[i], names.drop_first(), new))
        } else {
            items
        }
    }
}

/// Putting an entry in its own place changes nothing.
pub proof fn lemma_graft_same(entry: EntryView, names: Seq<Seq<char>>)
    ensures
        descend(entry, names) matches Some(found) ==> graft(entry, names, found) == entry,
    decreases names.len(),
{
    if names.len() > 0 {
        if let EntryView::Dir(d) = entry {
            let i = find(d.items, names[0]);
            if 0 <= i < d.items.len() {
                lemma_graft_same(d.items[i], names.drop_first());
                if let Some(found) = descend(entry, names) {
                    assert(d.items.update(i, graft(d.items[i], names.drop_first(), found))
                        =~= d.items);
                }
            }
        }
    }
}

/// Putting an entry of the root in its own place changes nothing.
pub proof fn lemma_graft_root_same(items: Seq<EntryView>, names: Seq<Seq<char>>)
    ensures
        resolve(items, names) matches Some(found) ==> graft_root(items, names, found) == items,
{
    if names.len() > 0 {
        let i = find(items, names[0]);
        if 0 <= i < items.len() {
            lemma_graft_same(items[i], names.drop_first());
            if let Some(found) = resolve(items, names) {
                assert(items.update(i, graft(items[i], names.drop_first(), found)) =~= items);
            }
        }
    }
}

/// Putting an entry in the place of one of the same name keeps names unique
/// among siblings.
pub proof fn lemma_graft_wf(entry: EntryView, names: Seq<Seq<char>>, new: EntryView)
    requires
        entry.wf(),
        new.wf(),
        descend(entry, names) matches Some(found) && found.name() == new.name(),
    ensures
        graft(entry, names, new).wf(),
        graft(entry, names, new).name() == entry.name(),
    decreases names.len(),
{
    if names.len() > 0 {
        let d = entry->Dir_0;
        let i = find(d.items, names[0]);
        assert(d.items[i].wf());
        lemma_graft_wf(d.items[i], names.drop_first(), new);
        let after = d.items.update(i, graft(d.items[i], names.drop_first(), new));
        assert forall|a: int, b: int| 0 <= a < b < after.len() implies (#[trigger] after[a]).name()
            != (#[trigger] after[b]).name() by {
            assert(after[a].name() == d.items[a].name());
            assert(after[b].name() == d.items[b].name());
        }
        assert forall|a: int| 0 <= a < after.len() implies (#[trigger] after[a]).wf() by {
            if a != i {
                assert(after[a] == d.items[a]);
            }
        }
    }
}

/// Putting an entry in the place of one of the same name keeps the names of
/// an archive unique among siblings.
pub proof fn lemma_graft_root_wf(items: Seq<EntryView>, names: Seq<Seq<char>>, new: EntryView)
    requires
        items_wf(items),
        new.wf(),
        resolve(items, names) matches Some(found) && found.name() == new.name(),
    ensures
        items_wf(graft_root(items, names, new)),
{
    let i = find(items, names[0]);
    assert(items[i].wf());
    lemma_graft_wf(items[i], names.drop_first(), new);
    let after = items.update(i, graft(items[i], names.drop_first(), new));
    assert forall|a: int, b: int| 0 <= a < b < after.len() implies (#[trigger] after[a]).name() != (
    #[trigger] after[b]).name() by {
        assert(after[a].name() == items[a].name());
        assert(after[b].name() == items[b].name());
    }
    assert forall|a: int| 0 <= a < after.len() implies (#[trigger] after[a]).wf() by {
        if a != i {
            assert(after[a] == items[a]);
        }
    }
}

/// The message for a header that is too long for the preamble.
pub open spec fn header_too_long() -> Seq<char> {
    "The JSON header is too long for the 32-bit size fields of the archive"@
}

/// What packing an archive gives: the preamble, the JSON text of the header,
/// the padding and the bytes of all files; or the failure of writing the
/// JSON text; or the failure of a header too long for the preamble.
pub open spec fn packed(items: Seq<EntryView>) -> Result<Seq<u8>, Failure> {
    match json_written(header_of(items)) {
        None => Err(Failure::InvalidJson),
        Some(text) => if fits(text.len()) {
            Ok(image(text, payloads(items)))
        } else {
            Err(Failure::InvalidJsonFormat(header_too_long()))
        },
    }
}

/// A path has at least one part.
pub proof fn lemma_segments_nonempty(path: Seq<char>)
    ensures
        segments(path).len() >= 1,
    decreases path.len(),
{
    if path.len() > 0 {
        lemma_segments_nonempty(path.drop_last());
    }
}

/// Splits a path at its slashes.
pub fn split_path(path: &str) -> (r: Vec<String>)
    ensures
        texts(r@) == segments(path@),
        r@.len() >= 1,
{
    let len = path.unicode_len();
    let mut parts: Vec<String> = Vec::new();
    let mut start: usize = 0;
    let mut i: usize = 0;
    assert(path@.take(0) =~= Seq::empty());
    assert(texts(parts@).push(path@.subrange(0, 0)) =~= segments(path@.take(0)));
    for c in it: path.chars()
        invariant
            it.seq() == path@,
            len == path@.len(),
            i == it.index(),
            start <= i <= len,
            segments(path@.take(i as int)) == texts(parts@).push(
                path@.subrange(start as int, i as int),
            ),
    {
        let ghost before = segments(path@.take(i as int));
        let ghost step = path@.take(i + 1);
        proof {
            assert(step.drop_last() =~= path@.take(i as int));
            assert(step.last() == c);
        }
        if c == '/' {
            let part = path.substring_char(start, i).to_owned();
            let ghost done = texts(parts@);
            parts.push(part);
            start = i + 1;
            proof {
                assert(texts(parts@) =~= done.push(part@));
                assert(path@.subrange(i + 1, i + 1) =~= Seq::empty());
            }
        } else {
            proof {
                assert(before.drop_last() =~= texts(parts@));
                assert(before.last().push(c) =~= path@.subrange(start as int, i + 1));
            }
        }
        i += 1;
    }
    assert(path@.take(i as int) =~= path@);
    let part = path.substring_char(start, len).to_owned();
    let ghost done = texts(parts@);
    parts.push(part);
    assert(texts(parts@) =~= done.push(part@));
    parts
}

/// Goes down from `entry` through the names from index `k` on, and hands out
/// the entry reached, to change it in place.
fn descend_mut<'a>(entry: &'a mut Entry, names: &Vec<String>, k: usize) -> (r: Option<
    &'a mut Entry,
>)
    requires
        k <= names@.len(),
    ensures
        match r {
            Some(e) => {
                &&& descend(old(entry)@, texts(names@).skip(k as int)) == Some(e@)
                &&& final(entry)@ == graft(
                    old(entry)@,
                    texts(names@).skip(k as int),
                    final(e)@,
                )
            },
            None => descend(old(entry)@, texts(names@).skip(k as int)) is None && final(entry)@
                == old(entry)@,
        },
    decreases names@.len() - k,
{
    let ghost rest = texts(names@).skip(k as int);
    if k == names.len() {
        return Some(entry);
    }
    proof {
        assert(rest[0] == names@[k as int]@);
        assert(rest.drop_first() =~= texts(names@).skip(k + 1));
    }
    let ghost before = entry@;
    match entry.get_entry_mut(names[k].as_str()) {
        Some(next) => {
            let ghost child_before = next@;
            let r = descend_mut(next, names, k + 1);
            proof {
                if r is None {
                    let d = before->Dir_0;
                    assert(d.items.update(find(d.items, rest[0]), child_before) =~= d.items);
                }
            }
            r
        },
        None => None,
    }
}

/// An archive: the files and directories packed into one blob.
#[derive(Debug)]
pub struct Archive {
    /// The entries of the archive's root.
    pub(crate) data: Vec<Entry>,
}

impl View for Archive {
    type V = Seq<EntryView>;

    closed spec fn view(&self) -> Seq<EntryView> {
        views(self.data@)
    }
}

impl Archive {
    /// What the view holds.
    pub(crate) proof fn lemma_view(&self)
        ensures
            self@ == views(self.data@),
    {
    }

    /// Names are unique among siblings, in the root and in every directory.
    pub open spec fn wf(&self) -> bool {
        items_wf(self@)
    }

    /// An archive that holds nothing.
    pub fn new() -> (r: Archive)
        ensures
            r@ == Seq::<EntryView>::empty(),
            r.wf(),
    {
        let r = Archive { data: Vec::new() };
        assert(r@ =~= Seq::<EntryView>::empty());
        r
    }

    /// Puts `entry` into the root: in the place of the entry of its name
    /// where there is one, which is returned, and else behind the last entry.
    pub fn insert(&mut self, entry: Entry) -> (r: Option<Entry>)
        requires
            old(self).wf(),
            entry@.wf(),
        ensures
            final(self).wf(),
            final(self)@ == put(old(self)@, entry@),
            r is Some <==> child(old(self)@, entry@.name()) is Some,
            r matches Some(e) ==> Some(e@) == child(old(self)@, entry@.name()),
    {
        insert_into(&mut self.data, entry)
    }

    /// The entries of the root, in order.
    pub fn entries(&self) -> (r: Vec<&Entry>)
        ensures
            r@.len() == self@.len(),
            forall|i: int| 0 <= i < r@.len() ==> (#[trigger] r@[i])@ == self@[i],
    {
        let mut r: Vec<&Entry> = Vec::new();
        for i in 0..self.data.len()
            invariant
                self@ == views(self.data@),
                r@.len() == i,
                forall|j: int| 0 <= j < r@.len() ==> (#[trigger] r@[j])@ == self@[j],
        {
            r.push(&self.data[i]);
        }
        r
    }

    /// Reads an archive from its bytes: the preamble, the JSON header that it
    /// announces, and for each file of the header its bytes, taken from the
    /// file data behind the header.
    pub fn read(asar: &[u8]) -> (r: Result<Archive, Error>)
        ensures
            match unpack(asar@) {
                Ok(items) => r matches Ok(archive) && archive@ == items && archive.wf(),
                Err(failure) => r matches Err(e) && e@ == failure,
            },
    {
        match Self::read_headers(asar) {
            Ok(data) => Ok(Archive { data }),
            Err(e) => Err(e),
        }
    }

    /// Reads the header of an archive and, with it, the entries of its root.
    pub fn read_headers(file: &[u8]) -> (r: Result<Vec<Entry>, Error>)
        ensures
            match unpack(file@) {
                Ok(items) => r matches Ok(data) && views(data@) == items && items_wf(items),
                Err(failure) => r matches Err(e) && e@ == failure,
            },
    {
        let (json_size, header_size) = match read_sizes(file) {
            Ok(sizes) => sizes,
            Err(e) => {
                return Err(e);
            },
        };
        if file.len() - 16 < json_size as usize {
            return Err(short_read());
        }
        let text = slice_subrange(file, 16, 16 + json_size as usize);
        let header = match Json::parse(text) {
            Ok(header) => header,
            Err(e) => {
                return Err(e);
            },
        };
        read_header(&header, file, header_size)
    }

    /// Packs the archive into bytes: the preamble, the JSON header, and the
    /// bytes of all files, each behind the one before it.
    pub fn pack(&self) -> (r: Result<Vec<u8>, Error>)
        requires
            self.wf(),
        ensures
            match packed(self@) {
                Ok(image) => r matches Ok(bytes) && bytes@ == image,
                Err(failure) => r matches Err(e) && e@ == failure,
            },
    {
        let mut buffer: Vec<u8> = Vec::new();
        let mut offset: u64 = 0;
        let header = self.write_header(&mut buffer, &mut offset);
        let text = match header.to_bytes() {
            Ok(text) => text,
            Err(e) => {
                return Err(e);
            },
        };
        if text.len() > 0xffff_fff4 {
            return Err(
                Error::InvalidJsonFormat(
                    "The JSON header is too long for the 32-bit size fields of the archive".to_owned(),
                ),
            );
        }
        Ok(assemble(text.as_slice(), buffer.as_slice()))
    }

    /// Writes the entries of the root: appends the bytes of all files to
    /// `ar`, and returns the header that describes them.
    pub fn write_header(&self, ar: &mut Vec<u8>, offset: &mut u64) -> (r: Json)
        requires
            self.wf(),
            old(ar)@.len() == 0,
            *old(offset) == 0,
        ensures
            final(ar)@ == payloads(self@),
            *final(offset) == final(ar)@.len(),
            r@ == header_of(self@),
            r@.wf(),
            r@.exact(),
    {
        let ghost all = self@;
        let mut members = JsonMap::new();
        let mut i: usize = 0;
        assert(all.take(0) =~= Seq::empty());
        assert(ar@ =~= payloads(all.take(0)));
        while i < self.data.len()
            invariant
                i <= self.data@.len(),
                all == views(self.data@),
                items_wf(all),
                ar@ == payloads(all.take(i as int)),
                *offset == ar@.len(),
                members@ == records(all.take(i as int), 0),
                members.wf(),
                JsonView::Object(members@).exact(),
            decreases self.data@.len() - i,
        {
            let ghost step = all.take(i + 1);
            let ghost before = members@;
            proof {
                assert(step.drop_last() =~= all.take(i as int));
                assert(step.last() == self.data@[i as int]@);
                assert(all[i as int].wf());
            }
            let (name, value) = self.data[i].write(ar, offset);
            proof {
                assert forall|j: int| 0 <= j < all.take(i as int).len() implies (
                #[trigger] all.take(i as int)[j]).name() != name@ by {
                    assert(all.take(i as int)[j] == all[j]);
                }
                crate::pack::lemma_records_lack(all.take(i as int), 0, name@);
            }
            let previous = members.insert(name, value);
            proof {
                assert(previous is None);
                assert(members@ == records(step, 0));
                assert(ar@ =~= payloads(step));
                let after = members@;
                assert forall|j: int| 0 <= j < after.len() implies (#[trigger] after[j]).1.exact() by {
                    if j < before.len() {
                        assert(after[j] == before[j]);
                    }
                }
            }
            i += 1;
        }
        assert(all.take(i as int) =~= all);
        let mut whole = JsonMap::new();
        let previous = whole.insert("files".to_owned(), Json::Object(members));
        assert(whole@ =~= seq![("files"@, JsonView::Object(records(all, 0)))]);
        assert(whole@[0].1.exact());
        Json::Object(whole)
    }

    /// The entry at `path`, whose parts are separated by slashes.
    pub fn get_entry(&self, path: &str) -> (r: Option<&Entry>)
        ensures
            r is Some <==> resolve(self@, segments(path@)) is Some,
            r matches Some(e) ==> Some(e@) == resolve(self@, segments(path@)),
    {
        let names = split_path(path);
        let ghost all = texts(names@);
        let mut current: &Entry = match position_of(&self.data, names[0].as_str()) {
            Some(i) => &self.data[i],
            None => {
                return None;
            },
        };
        let mut k: usize = 1;
        assert(all.drop_first() =~= all.skip(1));
        while k < names.len()
            invariant
                1 <= k <= names@.len(),
                all == texts(names@),
                all == segments(path@),
                resolve(self@, all) == descend(current@, all.skip(k as int)),
            decreases names@.len() - k,
        {
            proof {
                let rest = all.skip(k as int);
                assert(rest.len() > 0);
                assert(rest[0] == names@[k as int]@);
                assert(rest.drop_first() =~= all.skip(k + 1));
                assert(descend(current@, rest) == match current@.child(rest[0]) {
                    None => None,
                    Some(next) => descend(next, rest.drop_first()),
                });
            }
            current = match current.get_entry(names[k].as_str()) {
                Some(next) => next,
                None => {
                    return None;
                },
            };
            k += 1;
        }
        Some(current)
    }

    /// The entry at `path`, to change it in place.
    pub fn get_entry_mut(&mut self, path: &str) -> (r: Option<&mut Entry>)
        ensures
            match r {
                Some(e) => {
                    &&& resolve(old(self)@, segments(path@)) == Some(e@)
                    &&& final(self)@ == graft_root(old(self)@, segments(path@), final(e)@)
                },
                None => resolve(old(self)@, segments(path@)) is None && final(self)@ == old(
                    self,
                )@,
            },
    {
        let names = split_path(path);
        let ghost all = texts(names@);
        let ghost before = self@;
        let ghost after = *final(self);
        proof {
            assert(all.drop_first() =~= all.skip(1));
        }
        match position_of(&self.data, names[0].as_str()) {
            Some(i) => {
                let first = &mut self.data[i];
                let ghost first_before = first@;
                let ghost first_after = *final(first);
                let r = descend_mut(first, &names, 1);
                proof {
                    assert(after@ =~= before.update(i as int, first_after@));
                    if r is None {
                        assert(before.update(i as int, first_before) =~= before);
                    }
                }
                r
            },
            None => None,
        }
    }

    /// The file at `path`, to change it in place: `None` if there is no
    /// entry at the path, or if the entry is a directory.
    pub fn get_file_mut(&mut self, path: &str) -> (r: Option<&mut FileEntry>)
        ensures
            match r {
                Some(f) => {
                    &&& resolve(old(self)@, segments(path@)) == Some(EntryView::File(f@))
                    &&& final(self)@ == graft_root(
                        old(self)@,
                        segments(path@),
                        EntryView::File(final(f)@),
                    )
                },
                None => !(resolve(old(self)@, segments(path@)) matches Some(EntryView::File(_)))
                    && final(self)@ == old(self)@,
            },
    {
        proof {
            lemma_graft_root_same(self@, segments(path@));
        }
        match self.get_entry_mut(path) {
            Some(e) => e.as_file_mut(),
            None => None,
        }
    }

    /// The directory at `path`, to change it in place: `None` if there is no
    /// entry at the path, or if the entry is a file.
    pub fn get_dir_mut(&mut self, path: &str) -> (r: Option<&mut DirEntry>)
        ensures
            match r {
                Some(d) => {
                    &&& resolve(old(self)@, segments(path@)) == Some(EntryView::Dir(d@))
                    &&& final(self)@ == graft_root(
                        old(self)@,
                        segments(path@),
                        EntryView::Dir(final(d)@),
                    )
                },
                None => !(resolve(old(self)@, segments(path@)) matches Some(EntryView::Dir(_)))
                    && final(self)@ == old(self)@,
            },
    {
        proof {
            lemma_graft_root_same(self@, segments(path@));
        }
        match self.get_entry_mut(path) {
            Some(e) => e.as_dir_mut(),
            None => None,
        }
    }

    /// The file at `path`: `None` if there is no entry at the path, or if
    /// the entry is a directory.
    pub fn get_file(&self, path: &str) -> (r: Option<&FileEntry>)
        ensures
            match r {
                Some(f) => resolve(self@, segments(path@)) == Some(EntryView::File(f@)),
                None => !(resolve(self@, segments(path@)) matches Some(EntryView::File(_))),
            },
    {
        match self.get_entry(path) {
            Some(e) => e.as_file(),
            None => None,
        }
    }

    /// The directory at `path`: `None` if there is no entry at the path, or
    /// if the entry is a file.
    pub fn get_dir(&self, path: &str) -> (r: Option<&DirEntry>)
        ensures
            match r {
                Some(d) => resolve(self@, segments(path@)) == Some(EntryView::Dir(d@)),
                None => !(resolve(self@, segments(path@)) matches Some(EntryView::Dir(_))),
            },
    {
        match self.get_entry(path) {
            Some(e) => e.as_dir(),
            None => None,
        }
    }
}

} // verus!
