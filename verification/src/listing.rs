//! A listing of an archive as text: one line for each file, with its size,
//! under the name of its directory.

use vstd::prelude::*;
use vstd::string::StringExecFns;
use crate::archive::Archive;
use crate::decimal::decimal;
use crate::decimal::to_decimal;
use crate::entry::views;
use crate::entry::Entry;
use crate::entry::EntryView;

verus! {

/// What stands in front of an entry that is listed below a directory.
pub open spec fn lead(offset: nat) -> Seq<char> {
    if offset == 0 {
        Seq::empty()
    } else {
        "\t\n"@ + "|\n - "@
    }
}

impl EntryView {
    /// The listing of the entry: for a file its name and its size, for a
    /// directory its name on a line and then the listings of its children.
    /// `offset` is the number of directories above the entry.
    pub open spec fn listing(self, offset: nat) -> Seq<char>
        decreases self, 1int,
    {
        match self {
            EntryView::File(f) => lead(offset) + f.name + " - size: "@ + decimal(f.data.len()),
            EntryView::Dir(d) => lead(offset) + d.name + "\n"@ + listings(d.items),
        }
    }
}

/// The listings of the children of a directory, one behind the other.
pub open spec fn listings(items: Seq<EntryView>) -> Seq<char>
    decreases items, 0int,
{
    if items.len() == 0 {
        Seq::empty()
    } else {
        listings(items.drop_last()) + items.last().listing(1)
    }
}

/// The listing of an archive: the listing of each entry of its root, each
/// ended by a line break.
pub open spec fn archive_listing(items: Seq<EntryView>) -> Seq<char>
    decreases items.len(),
{
    if items.len() == 0 {
        Seq::empty()
    } else {
        archive_listing(items.drop_last()) + items.last().listing(0) + "\n"@
    }
}

impl Entry {
    /// Lists the entry. `offset` is the number of directories above it: what
    /// is listed below a directory is set off from it.
    pub fn display(&self, offset: u32) -> (r: String)
        ensures
            r@ == self@.listing(offset as nat),
        decreases self,
    {
        let mut out = String::new();
        if offset != 0 {
            out.append("\t\n");
            out.append("|\n - ");
        }
        assert(out@ =~= lead(offset as nat));
        match self {
            Entry::File(file) => {
                out.append(file.name().as_str());
                out.append(" - size: ");
                let size = to_decimal(file.size() as u64);
                out.append(size.as_str());
                out
            },
            Entry::Dir(dir) => {
                proof {
                    dir.lemma_view();
                }
                let ghost all = dir@.items;
                out.append(dir.name().as_str());
                out.append("\n");
                let ghost head = out@;
                let mut i: usize = 0;
                assert(all.take(0) =~= Seq::empty());
                assert(out@ =~= head + listings(all.take(0)));
                while i < dir.items.len()
                    invariant
                        i <= dir.items@.len(),
                        *self == Entry::Dir(*dir),
                        all == views(dir.items@),
                        out@ == head + listings(all.take(i as int)),
                    decreases dir.items@.len() - i,
                {
                    proof {
                        assert(all.take(i + 1).drop_last() =~= all.take(i as int));
                        assert(all.take(i + 1).last() == dir.items@[i as int]@);
                        assert(decreases_to!(*self => self->Dir_0));
                        assert(decreases_to!(dir.items => dir.items[i as int]));
                    }
                    let child = dir.items[i].display(1);
                    out.append(child.as_str());
                    assert(out@ =~= head + listings(all.take(i + 1)));
                    i += 1;
                }
                assert(all.take(i as int) =~= all);
                out
            },
        }
    }
}

impl Archive {
    /// Lists the archive: every entry of the root with all that is below it.
    pub fn to_text(&self) -> (r: String)
        ensures
            r@ == archive_listing(self@),
    {
        proof {
            self.lemma_view();
        }
        let ghost all = self@;
        let mut out = String::new();
        let mut i: usize = 0;
        assert(all.take(0) =~= Seq::empty());
        assert(out@ =~= archive_listing(all.take(0)));
        while i < self.data.len()
            invariant
                i <= self.data@.len(),
                all == views(self.data@),
                out@ == archive_listing(all.take(i as int)),
            decreases self.data@.len() - i,
        {
            proof {
                assert(all.take(i + 1).drop_last() =~= all.take(i as int));
                assert(all.take(i + 1).last() == self.data@[i as int]@);
            }
            let entry = self.data[i].display(0);
            out.append(entry.as_str());
            out.append("\n");
            assert(out@ =~= archive_listing(all.take(i + 1)));
            i += 1;
        }
        assert(all.take(i as int) =~= all);
        out
    }
}

} // verus!
