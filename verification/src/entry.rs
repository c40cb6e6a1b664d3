//! The tree that an archive holds: files with their bytes, and directories
//! with their children.

use vstd::prelude::*;

verus! {

/// A file as a mathematical value.
pub struct FileView {
    pub name: Seq<char>,
    pub data: Seq<u8>,
}

/// A directory as a mathematical value; the children stand in the order in
/// which they are held.
pub struct DirView {
    pub name: Seq<char>,
    pub items: Seq<EntryView>,
}

/// A file or a directory as a mathematical value.
pub enum EntryView {
    Dir(DirView),
    File(FileView),
}

/// The index of the first of `items` called `name`, or `-1`.
pub open spec fn find(items: Seq<EntryView>, name: Seq<char>) -> int
    decreases items.len(),
{
    if items.len() == 0 {
        -1
    } else if find(items.drop_last(), name) >= 0 {
        find(items.drop_last(), name)
    } else if items.last().name() == name {
        items.len() - 1
    } else {
        -1
    }
}

/// The first of `items` called `name`.
pub open spec fn child(items: Seq<EntryView>, name: Seq<char>) -> Option<EntryView> {
    let i = find(items, name);
    if 0 <= i < items.len() {
        Some(items[i])
    } else {
        None
    }
}

/// No two of `items` share a name.
pub open spec fn distinct_names(items: Seq<EntryView>) -> bool {
    forall|i: int, j: int|
        0 <= i < j < items.len() ==> (#[trigger] items[i]).name() != (#[trigger] items[j]).name()
}

/// Names are unique among siblings, in `items` and in every directory below.
pub open spec fn items_wf(items: Seq<EntryView>) -> bool {
    distinct_names(items) && forall|i: int| 0 <= i < items.len() ==> (#[trigger] items[i]).wf()
}

/// The number of files in `items` and in every directory below.
pub open spec fn count_all(items: Seq<EntryView>) -> nat
    decreases items, 0int,
{
    if items.len() == 0 {
        0
    } else {
        count_all(items.drop_last()) + items.last().count()
    }
}

/// The files of `items`, in order.
pub open spec fn files_of(items: Seq<EntryView>) -> Seq<FileView>
    decreases items.len(),
{
    if items.len() == 0 {
        Seq::empty()
    } else {
        match items.last() {
            EntryView::File(f) => files_of(items.drop_last()).push(f),
            EntryView::Dir(_) => files_of(items.drop_last()),
        }
    }
}

/// The directories of `items`, in order.
pub open spec fn dirs_of(items: Seq<EntryView>) -> Seq<DirView>
    decreases items.len(),
{
    if items.len() == 0 {
        Seq::empty()
    } else {
        match items.last() {
            EntryView::Dir(d) => dirs_of(items.drop_last()).push(d),
            EntryView::File(_) => dirs_of(items.drop_last()),
        }
    }
}

impl EntryView {
    /// The name of the file or directory.
    pub open spec fn name(self) -> Seq<char> {
        match self {
            EntryView::Dir(d) => d.name,
            EntryView::File(f) => f.name,
        }
    }

    /// Names are unique among siblings in every directory of the entry.
    pub open spec fn wf(self) -> bool
        decreases self,
    {
        match self {
            EntryView::File(_) => true,
            EntryView::Dir(d) => distinct_names(d.items) && forall|i: int|
                0 <= i < d.items.len() ==> (#[trigger] d.items[i]).wf(),
        }
    }

    /// The number of files: 1 for a file, the sum over the children for a
    /// directory.
    pub open spec fn count(self) -> nat
        decreases self, 1int,
    {
        match self {
            EntryView::File(_) => 1,
            EntryView::Dir(d) => count_all(d.items),
        }
    }

    /// The child called `name`; a file has none.
    pub open spec fn child(self, name: Seq<char>) -> Option<EntryView> {
        match self {
            EntryView::File(_) => None,
            EntryView::Dir(d) => child(d.items, name),
        }
    }
}

/// Where `find` points.
pub proof fn lemma_find_bounds(items: Seq<EntryView>, name: Seq<char>)
    ensures
        -1 <= find(items, name) < items.len(),
        find(items, name) >= 0 ==> items[find(items, name)].name() == name,
        find(items, name) >= 0 ==> forall|j: int|
            0 <= j < find(items, name) ==> (#[trigger] items[j]).name() != name,
        find(items, name) < 0 ==> forall|j: int|
            0 <= j < items.len() ==> (#[trigger] items[j]).name() != name,
    decreases items.len(),
{
    if items.len() > 0 {
        let front = items.drop_last();
        lemma_find_bounds(front, name);
        assert forall|j: int| 0 <= j < front.len() implies #[trigger] items[j] == front[j] by {}
        let p = find(items, name);
        if p >= 0 {
            assert forall|j: int| 0 <= j < p implies (#[trigger] items[j]).name() != name by {
                assert(items[j] == front[j]);
            }
        } else {
            assert forall|j: int| 0 <= j < items.len() implies (#[trigger] items[j]).name()
                != name by {
                if j < front.len() {
                    assert(items[j] == front[j]);
                }
            }
        }
    }
}

/// With distinct names, each item is the one that its name finds.
pub proof fn lemma_find_item(items: Seq<EntryView>, i: int)
    requires
        distinct_names(items),
        0 <= i < items.len(),
    ensures
        find(items, items[i].name()) == i,
        child(items, items[i].name()) == Some(items[i]),
{
    lemma_find_bounds(items, items[i].name());
}

/// The files below the first `k` items are among the files below all of them.
pub proof fn lemma_count_prefix(items: Seq<EntryView>, k: int)
    requires
        0 <= k <= items.len(),
    ensures
        count_all(items.take(k)) <= count_all(items),
    decreases items.len(),
{
    if k < items.len() {
        assert(items.drop_last().take(k) =~= items.take(k));
        lemma_count_prefix(items.drop_last(), k);
    } else {
        assert(items.take(k) =~= items);
    }
}

/// A file of an archive: its name and its bytes.
#[derive(Debug)]
pub struct FileEntry {
    pub(crate) name: String,
    pub(crate) data: Vec<u8>,
}

/// A directory of an archive: its name and what it contains.
#[derive(Debug)]
pub struct DirEntry {
    pub(crate) name: String,
    pub(crate) items: Vec<Entry>,
}

/// One file or directory of an archive.
#[derive(Debug)]
pub enum Entry {
    /// A directory, with the entries that it contains.
    Dir(DirEntry),
    /// A file, with its bytes.
    File(FileEntry),
}

/// The views of a sequence of entries.
pub open spec fn views(items: Seq<Entry>) -> Seq<EntryView> {
    Seq::new(items.len(), |i: int| items[i]@)
}

impl View for FileEntry {
    type V = FileView;

    closed spec fn view(&self) -> FileView {
        FileView { name: self.name@, data: self.data@ }
    }
}

impl View for DirEntry {
    type V = DirView;

    closed spec fn view(&self) -> DirView
        decreases self,
    {
        DirView {
            name: self.name@,
            items: Seq::new(
                self.items@.len(),
                |i: int|
                    if 0 <= i < self.items@.len() {
                        self.items@[i].view()
                    } else {
                        EntryView::File(FileView { name: Seq::empty(), data: Seq::empty() })
                    },
            ),
        }
    }
}

impl View for Entry {
    type V = EntryView;

    open spec fn view(&self) -> EntryView
        decreases self,
    {
        match self {
            Entry::Dir(d) => EntryView::Dir(d.view()),
            Entry::File(f) => EntryView::File(f.view()),
        }
    }
}

impl FileEntry {
    /// A file called `name` that holds `data`.
    pub fn new(name: String, data: Vec<u8>) -> (r: FileEntry)
        ensures
            r@ == (FileView { name: name@, data: data@ }),
    {
        FileEntry { name, data }
    }

    /// The name of the file.
    pub fn name(&self) -> (r: &String)
        ensures
            r@ == self@.name,
    {
        &self.name
    }

    /// The size of the file in bytes.
    pub fn size(&self) -> (r: usize)
        ensures
            r == self@.data.len(),
    {
        self.data.len()
    }

    /// The bytes of the file.
    pub fn as_bytes(&self) -> (r: &[u8])
        ensures
            r@ == self@.data,
    {
        self.data.as_slice()
    }

    /// Replaces the bytes of the file, and returns the ones it held.
    pub fn replace(&mut self, data: Vec<u8>) -> (r: Vec<u8>)
        ensures
            final(self)@ == (FileView { name: old(self)@.name, data: data@ }),
            r@ == old(self)@.data,
    {
        let mut data = data;
        std::mem::swap(&mut self.data, &mut data);
        data
    }
}

impl DirEntry {
    /// What the view holds.
    pub(crate) proof fn lemma_view(&self)
        ensures
            self@.name == self.name@,
            self@.items == views(self.items@),
    {
        assert(self@.items =~= views(self.items@));
    }

    /// Names are unique among siblings, here and in every directory below.
    pub open spec fn wf(&self) -> bool {
        items_wf(self@.items)
    }

    /// An empty directory called `name`.
    pub fn new(name: String) -> (r: DirEntry)
        ensures
            r@ == (DirView { name: name@, items: Seq::empty() }),
            r.wf(),
    {
        let r = DirEntry { name, items: Vec::new() };
        assert(r@.items =~= Seq::<EntryView>::empty());
        r
    }

    /// The name of the directory.
    pub fn name(&self) -> (r: &String)
        ensures
            r@ == self@.name,
    {
        &self.name
    }

    /// The files that the directory holds itself, in order.
    pub fn files(&self) -> (r: Vec<&FileEntry>)
        ensures
            r@.len() == files_of(self@.items).len(),
            forall|i: int| 0 <= i < r@.len() ==> (#[trigger] r@[i])@ == files_of(self@.items)[i],
    {
        let mut r: Vec<&FileEntry> = Vec::new();
        proof {
            self.lemma_view();
        }
        let ghost all = self@.items;
        for i in 0..self.items.len()
            invariant
                all == views(self.items@),
                r@.len() == files_of(all.take(i as int)).len(),
                forall|j: int|
                    0 <= j < r@.len() ==> (#[trigger] r@[j])@ == files_of(all.take(i as int))[j],
        {
            proof {
                assert(all.take(i + 1).drop_last() =~= all.take(i as int));
                assert(all.take(i + 1).last() == self.items@[i as int]@);
            }
            match &self.items[i] {
                Entry::File(f) => {
                    r.push(f);
                },
                Entry::Dir(_) => {},
            }
        }
        assert(all.take(self.items@.len() as int) =~= all);
        r
    }

    /// The directories that the directory holds itself, in order.
    pub fn dirs(&self) -> (r: Vec<&DirEntry>)
        ensures
            r@.len() == dirs_of(self@.items).len(),
            forall|i: int| 0 <= i < r@.len() ==> (#[trigger] r@[i])@ == dirs_of(self@.items)[i],
    {
        let mut r: Vec<&DirEntry> = Vec::new();
        proof {
            self.lemma_view();
        }
        let ghost all = self@.items;
        for i in 0..self.items.len()
            invariant
                all == views(self.items@),
                r@.len() == dirs_of(all.take(i as int)).len(),
                forall|j: int|
                    0 <= j < r@.len() ==> (#[trigger] r@[j])@ == dirs_of(all.take(i as int))[j],
        {
            proof {
                assert(all.take(i + 1).drop_last() =~= all.take(i as int));
                assert(all.take(i + 1).last() == self.items@[i as int]@);
            }
            match &self.items[i] {
                Entry::Dir(d) => {
                    r.push(d);
                },
                Entry::File(_) => {},
            }
        }
        assert(all.take(self.items@.len() as int) =~= all);
        r
    }

    /// All that the directory holds itself, in order.
    pub fn entries(&self) -> (r: Vec<&Entry>)
        ensures
            r@.len() == self@.items.len(),
            forall|i: int| 0 <= i < r@.len() ==> (#[trigger] r@[i])@ == self@.items[i],
    {
        let mut r: Vec<&Entry> = Vec::new();
        proof {
            self.lemma_view();
        }
        for i in 0..self.items.len()
            invariant
                self@.items == views(self.items@),
                r@.len() == i,
                forall|j: int| 0 <= j < r@.len() ==> (#[trigger] r@[j])@ == self@.items[j],
        {
            r.push(&self.items[i]);
        }
        r
    }

    /// The child called `name`.
    pub fn get(&self, name: &str) -> (r: Option<&Entry>)
        ensures
            r is Some <==> child(self@.items, name@) is Some,
            r matches Some(e) ==> Some(e@) == child(self@.items, name@),
    {
        proof {
            self.lemma_view();
        }
        match position_of(&self.items, name) {
            Some(i) => Some(&self.items[i]),
            None => None,
        }
    }

    /// The child called `name`, to change it in place.
    pub fn get_mut(&mut self, name: &str) -> (r: Option<&mut Entry>)
        ensures
            match r {
                Some(e) => {
                    let i = find(old(self)@.items, name@);
                    &&& 0 <= i < old(self)@.items.len()
                    &&& e@ == old(self)@.items[i]
                    &&& final(self)@ == (DirView {
                        name: old(self)@.name,
                        items: old(self)@.items.update(i, final(e)@),
                    })
                },
                None => child(old(self)@.items, name@) is None && final(self)@ == old(self)@,
            },
    {
        proof {
            self.lemma_view();
        }
        match position_of(&self.items, name) {
            Some(i) => {
                let ghost before = *self;
                let ghost after = *final(self);
                let e = &mut self.items[i];
                proof {
                    after.lemma_view();
                    assert(after@.items =~= before@.items.update(i as int, final(e)@));
                }
                Some(e)
            },
            None => None,
        }
    }

    /// Puts `entry` into the directory: in the place of the child of its name
    /// where there is one, which is returned, and else behind the last child.
    pub fn insert(&mut self, entry: Entry) -> (r: Option<Entry>)
        requires
            old(self).wf(),
            entry@.wf(),
        ensures
            final(self).wf(),
            final(self)@.name == old(self)@.name,
            final(self)@.items == put(old(self)@.items, entry@),
            r is Some <==> child(old(self)@.items, entry@.name()) is Some,
            r matches Some(e) ==> Some(e@) == child(old(self)@.items, entry@.name()),
    {
        proof {
            self.lemma_view();
        }
        let r = insert_into(&mut self.items, entry);
        proof {
            self.lemma_view();
        }
        r
    }
}

/// `items` with `entry` in the place of the first item of its name, or behind
/// the last item where no item has its name.
pub open spec fn put(items: Seq<EntryView>, entry: EntryView) -> Seq<EntryView> {
    let i = find(items, entry.name());
    if 0 <= i < items.len() {
        items.update(i, entry)
    } else {
        items.push(entry)
    }
}

/// Putting an entry among well-formed items leaves them well formed.
pub proof fn lemma_put_wf(items: Seq<EntryView>, entry: EntryView)
    requires
        items_wf(items),
        entry.wf(),
    ensures
        items_wf(put(items, entry)),
{
    lemma_find_bounds(items, entry.name());
    let after = put(items, entry);
    let p = find(items, entry.name());
    assert forall|a: int, b: int| 0 <= a < b < after.len() implies (#[trigger] after[a]).name() != (
    #[trigger] after[b]).name() by {
        if p >= 0 {
            assert(after[a].name() == items[a].name());
            assert(after[b].name() == items[b].name());
        } else {
            if b < items.len() {
                assert(after[a] == items[a] && after[b] == items[b]);
            } else {
                assert(after[a] == items[a]);
            }
        }
    }
    assert forall|a: int| 0 <= a < after.len() implies (#[trigger] after[a]).wf() by {
        if a < items.len() && a != p {
            assert(after[a] == items[a]);
        }
    }
}

/// The index of the first of `items` called `name`.
pub(crate) fn position_of(items: &Vec<Entry>, name: &str) -> (r: Option<usize>)
    ensures
        match r {
            Some(i) => i < items@.len() && i == find(views(items@), name@),
            None => find(views(items@), name@) < 0,
        },
{
    let wanted = name.to_owned();
    let ghost all = views(items@);
    let mut i: usize = 0;
    while i < items.len()
        invariant
            i <= items.len(),
            wanted@ == name@,
            all == views(items@),
            forall|j: int| 0 <= j < i ==> (#[trigger] all[j]).name() != name@,
        decreases items.len() - i,
    {
        assert(all[i as int] == items@[i as int]@);
        let found = match &items[i] {
            Entry::Dir(d) => {
                proof {
                    d.lemma_view();
                }
                d.name == wanted
            },
            Entry::File(f) => f.name == wanted,
        };
        if found {
            proof {
                lemma_find_bounds(all, name@);
            }
            return Some(i);
        }
        i += 1;
    }
    proof {
        lemma_find_bounds(all, name@);
    }
    None
}

/// Puts `entry` among `items`, as [`put`] says, and returns the item that it
/// replaced.
pub(crate) fn insert_into(items: &mut Vec<Entry>, entry: Entry) -> (r: Option<Entry>)
    requires
        items_wf(views(old(items)@)),
        entry@.wf(),
    ensures
        items_wf(views(final(items)@)),
        views(final(items)@) == put(views(old(items)@), entry@),
        r is Some <==> child(views(old(items)@), entry@.name()) is Some,
        r matches Some(e) ==> Some(e@) == child(views(old(items)@), entry@.name()),
{
    let ghost before = views(items@);
    proof {
        lemma_put_wf(before, entry@);
    }
    let found = match &entry {
        Entry::Dir(d) => position_of(items, d.name().as_str()),
        Entry::File(f) => position_of(items, f.name().as_str()),
    };
    match found {
        Some(i) => {
            let mut slot = entry;
            assert(before[i as int] == items@[i as int]@);
            std::mem::swap(&mut items[i], &mut slot);
            assert(views(items@) =~= put(before, entry@));
            Some(slot)
        },
        None => {
            items.push(entry);
            assert(views(items@) =~= put(before, entry@));
            None
        },
    }
}

impl Entry {
    /// Names are unique among siblings in every directory of the entry.
    pub open spec fn wf(&self) -> bool {
        self@.wf()
    }

    /// The name of the file or directory.
    pub fn name(&self) -> (r: &String)
        ensures
            r@ == self@.name(),
    {
        match self {
            Entry::Dir(d) => d.name(),
            Entry::File(f) => f.name(),
        }
    }

    /// The child called `name`: `None` for a file, and for a directory that
    /// has no child of that name.
    pub fn get_entry(&self, name: &str) -> (r: Option<&Entry>)
        ensures
            r is Some <==> self@.child(name@) is Some,
            r matches Some(e) ==> Some(e@) == self@.child(name@),
    {
        match self {
            Entry::Dir(d) => d.get(name),
            _ => None,
        }
    }

    /// The child called `name`, to change it in place: `None` for a file, and
    /// for a directory that has no child of that name.
    pub fn get_entry_mut(&mut self, name: &str) -> (r: Option<&mut Entry>)
        ensures
            match r {
                Some(e) => {
                    &&& old(self)@ matches EntryView::Dir(d)
                    &&& 0 <= find(d.items, name@) < d.items.len()
                    &&& e@ == d.items[find(d.items, name@)]
                    &&& final(self)@ == EntryView::Dir(
                        DirView {
                            name: d.name,
                            items: d.items.update(find(d.items, name@), final(e)@),
                        },
                    )
                },
                None => old(self)@.child(name@) is None && final(self)@ == old(self)@,
            },
    {
        match self {
            Entry::Dir(d) => d.get_mut(name),
            _ => None,
        }
    }

    /// The file, if the entry is one.
    pub fn as_file(&self) -> (r: Option<&FileEntry>)
        ensures
            match r {
                Some(f) => self@ == EntryView::File(f@),
                None => self@ is Dir,
            },
    {
        match self {
            Entry::File(me) => Some(me),
            _ => None,
        }
    }

    /// The directory, if the entry is one.
    pub fn as_dir(&self) -> (r: Option<&DirEntry>)
        ensures
            match r {
                Some(d) => self@ == EntryView::Dir(d@),
                None => self@ is File,
            },
    {
        match self {
            Entry::Dir(me) => Some(me),
            _ => None,
        }
    }

    /// The file, if the entry is one, to change it in place.
    pub fn as_file_mut(&mut self) -> (r: Option<&mut FileEntry>)
        ensures
            match r {
                Some(f) => old(self)@ == EntryView::File(f@) && final(self)@ == EntryView::File(
                    final(f)@,
                ),
                None => old(self)@ is Dir && final(self)@ == old(self)@,
            },
    {
        match self {
            Entry::File(me) => Some(me),
            _ => None,
        }
    }

    /// The directory, if the entry is one, to change it in place.
    pub fn as_dir_mut(&mut self) -> (r: Option<&mut DirEntry>)
        ensures
            match r {
                Some(d) => old(self)@ == EntryView::Dir(d@) && final(self)@ == EntryView::Dir(
                    final(d)@,
                ),
                None => old(self)@ is File && final(self)@ == old(self)@,
            },
    {
        match self {
            Entry::Dir(me) => Some(me),
            _ => None,
        }
    }

    /// The number of files that the entry holds: 1 if it is a file, and the
    /// number of files in and below it if it is a directory.
    pub fn count(&self) -> (n: u32)
        requires
            self@.count() <= u32::MAX,
        ensures
            n == self@.count(),
        decreases self,
    {
        match self {
            Entry::Dir(d) => {
                proof {
                    d.lemma_view();
                }
                let ghost all = d@.items;
                let mut total: u32 = 0;
                let mut i: usize = 0;
                while i < d.items.len()
                    invariant
                        i <= d.items@.len(),
                        all == views(d.items@),
                        all == d@.items,
                        *self == Entry::Dir(*d),
                        count_all(all) <= u32::MAX,
                        total == count_all(all.take(i as int)),
                    decreases d.items@.len() - i,
                {
                    proof {
                        assert(all.take(i + 1).drop_last() =~= all.take(i as int));
                        assert(all.take(i + 1).last() == d.items@[i as int]@);
                        lemma_count_prefix(all, i + 1);
                        assert(decreases_to!(*self => self->Dir_0));
                        assert(decreases_to!(d.items => d.items[i as int]));
                    }
                    total = total + d.items[i].count();
                    i += 1;
                }
                assert(all.take(d.items@.len() as int) =~= all);
                total
            },
            Entry::File(_) => 1,
        }
    }
}

} // verus!
