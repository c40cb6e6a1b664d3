//! Choosing the newest of the versioned directories of an installation.

use vstd::prelude::*;
use vstd::string::StrSliceExecFns;
use crate::text::texts;

verus! {

/// Whether the version that `a` spells is greater than the one that `b`
/// spells, as `semver` orders versions; `None` where `semver` reads no
/// version from one of them.
pub uninterp spec fn version_exceeds(a: Seq<char>, b: Seq<char>) -> Option<bool>;

/// Compares two versions with `semver`.
///
/// Both texts are read with `semver::Version::parse`; where both are
/// versions, the result says whether the first is greater than the second by
/// `semver`'s ordering of versions. The outcome depends on the texts alone,
/// and is the one that [`version_exceeds`] names.
#[verifier::external_body]
fn exceeds(a: &str, b: &str) -> (r: Option<bool>)
    ensures
        r == version_exceeds(a@, b@),
{
    match (semver::Version::parse(a), semver::Version::parse(b)) {
        (Ok(x), Ok(y)) => Some(x > y),
        _ => None,
    }
}

/// A directory name that could not be compared, because it or the name it
/// was held against spells no version.
#[derive(Debug, Clone, Copy, PartialEq, Eq, Structural)]
pub struct BadVersion {
    /// The index of the name at which the comparing failed.
    pub index: usize,
}

/// The version that a directory name spells: what follows `app-`.
pub open spec fn version_part(name: Seq<char>) -> Option<Seq<char>> {
    if name.len() >= 4 && name.subrange(0, 4) == "app-"@ {
        Some(name.subrange(4, name.len() as int))
    } else {
        None
    }
}

/// Whether the directory `a` stays ahead of the directory `b` that comes
/// behind it: a versioned directory stays ahead of one without a version and
/// of one with a smaller version, and no other does. `None` where both are
/// versioned and cannot be compared.
pub open spec fn stays_ahead(a: Seq<char>, b: Seq<char>) -> Option<bool> {
    match (version_part(a), version_part(b)) {
        (Some(x), Some(y)) => version_exceeds(x, y),
        (Some(_), None) => Some(true),
        (None, _) => Some(false),
    }
}

/// The index of the newest of the directories `names`: the first one is
/// taken, and each later one takes its place unless the one taken stays ahead
/// of it. `Ok(None)` for no directory; `Err` with the index of the first
/// directory that cannot be compared with the one taken.
pub open spec fn newest_of(names: Seq<Seq<char>>) -> Result<Option<int>, int>
    decreases names.len(),
{
    if names.len() == 0 {
        Ok(None)
    } else {
        match newest_of(names.drop_last()) {
            Err(index) => Err(index),
            Ok(None) => Ok(Some(0)),
            Ok(Some(best)) => match stays_ahead(names[best], names.last()) {
                None => Err(names.len() - 1),
                Some(true) => Ok(Some(best)),
                Some(false) => Ok(Some(names.len() - 1)),
            },
        }
    }
}

/// The version that a directory name spells.
pub fn strip_app(name: &str) -> (r: Option<&str>)
    ensures
        match r {
            Some(version) => version_part(name@) == Some(version@),
            None => version_part(name@) is None,
        },
{
    proof {
        reveal_strlit("app-");
    }
    let len = name.unicode_len();
    if len < 4 {
        return None;
    }
    if name.get_char(0) == 'a' && name.get_char(1) == 'p' && name.get_char(2) == 'p'
        && name.get_char(3) == '-' {
        assert(name@.subrange(0, 4) =~= "app-"@);
        Some(name.substring_char(4, len))
    } else {
        assert(name@.subrange(0, 4)[0] == name@[0]);
        assert(name@.subrange(0, 4)[1] == name@[1]);
        assert(name@.subrange(0, 4)[2] == name@[2]);
        assert(name@.subrange(0, 4)[3] == name@[3]);
        None
    }
}

/// Whether the directory `a` stays ahead of the directory `b` that comes
/// behind it.
pub fn keeps_ahead(a: &str, b: &str) -> (r: Option<bool>)
    ensures
        r == stays_ahead(a@, b@),
{
    match strip_app(a) {
        Some(x) => match strip_app(b) {
            Some(y) => exceeds(x, y),
            None => Some(true),
        },
        None => Some(false),
    }
}

/// Chooses the newest of the directories `names`, and returns its index.
pub fn newest_version(names: &Vec<String>) -> (r: Result<Option<usize>, BadVersion>)
    ensures
        match newest_of(texts(names@)) {
            Ok(Some(best)) => r == Ok::<Option<usize>, BadVersion>(Some(best as usize)) && best
                < names@.len(),
            Ok(None) => r == Ok::<Option<usize>, BadVersion>(None),
            Err(index) => r == Err::<Option<usize>, BadVersion>(
                BadVersion { index: index as usize },
            ) && index < names@.len(),
        },
{
    if names.len() == 0 {
        return Ok(None);
    }
    let ghost all = texts(names@);
    let mut best: usize = 0;
    let mut i: usize = 1;
    assert(all.take(1).drop_last() =~= Seq::<Seq<char>>::empty());
    assert(newest_of(all.take(1).drop_last()) == Ok::<Option<int>, int>(None));
    while i < names.len()
        invariant
            1 <= i <= names@.len(),
            best < i,
            all == texts(names@),
            newest_of(all.take(i as int)) == Ok::<Option<int>, int>(Some(best as int)),
        decreases names@.len() - i,
    {
        let ghost step = all.take(i + 1);
        proof {
            assert(step.drop_last() =~= all.take(i as int));
            assert(step.last() == names@[i as int]@);
            assert(step[best as int] == names@[best as int]@);
        }
        match keeps_ahead(names[best].as_str(), names[i].as_str()) {
            None => {
                proof {
                    lemma_newest_prefix_fault(all, i + 1);
                }
                return Err(BadVersion { index: i });
            },
            Some(true) => {},
            Some(false) => {
                best = i;
            },
        }
        i += 1;
    }
    assert(all.take(i as int) =~= all);
    Ok(Some(best))
}

/// A failure met among the first names is the failure of all of them.
pub proof fn lemma_newest_prefix_fault(names: Seq<Seq<char>>, k: int)
    requires
        0 <= k <= names.len(),
        newest_of(names.take(k)) is Err,
    ensures
        newest_of(names) == newest_of(names.take(k)),
    decreases names.len(),
{
    if k < names.len() {
        assert(names.drop_last().take(k) =~= names.take(k));
        lemma_newest_prefix_fault(names.drop_last(), k);
    } else {
        assert(names.take(k) =~= names);
    }
}

} // verus!
