//! What the walk of the local tree decides for each entry of a directory,
//! and how it names the files it finds.

use crate::paths::{is_hidden, is_hidden_at};
use crate::text::{chars_of, string_of};
use vstd::prelude::*;

verus! {

/// What the walk does with an entry of a directory.
#[derive(Clone, Copy, Debug, PartialEq, Eq)]
pub enum Turn {
    /// It passes over the entry, and over what lies below it.
    Skip,
    /// It walks the directory.
    Descend,
    /// It records the file with its checksum and size.
    Record,
}

/// Whether `name` begins with a dot.
pub open spec fn starts_with_dot(name: Seq<char>) -> bool {
    name.len() > 0 && name[0] == '.'
}

/// What the walk does with the entry `name`: an entry whose name begins
/// with a dot is passed over unless hidden files are included, a directory
/// is walked, and any other entry recorded.
pub open spec fn turn_of(name: Seq<char>, is_dir: bool, include_hidden: bool) -> Turn {
    if starts_with_dot(name) && !include_hidden {
        Turn::Skip
    } else if is_dir {
        Turn::Descend
    } else {
        Turn::Record
    }
}

/// Decides what the walk does with an entry.
pub fn turn(name: &str, is_dir: bool, include_hidden: bool) -> (t: Turn)
    ensures
        t == turn_of(name@, is_dir, include_hidden),
{
    let chars = chars_of(name);
    if chars.len() > 0 && chars[0] == '.' && !include_hidden {
        Turn::Skip
    } else if is_dir {
        Turn::Descend
    } else {
        Turn::Record
    }
}

/// Whether `full` begins with `root`.
pub open spec fn begins_with(full: Seq<char>, root: Seq<char>) -> bool {
    root.len() <= full.len() && full.take(root.len() as int) == root
}

/// The path of the file `full` relative to the root `root` of the walk,
/// which ends with its separator: what follows `root` in `full`. There is
/// none where `full` does not begin with `root`.
pub fn relative_key(root: &str, full: &str) -> (key: Option<String>)
    ensures
        match key {
            Some(k) => begins_with(full@, root@) && k@ == full@.skip(root@.len() as int),
            None => !begins_with(full@, root@),
        },
{
    let r = chars_of(root);
    let f = chars_of(full);
    if r.len() > f.len() {
        return None;
    }
    let mut i: usize = 0;
    while i < r.len()
        invariant
            i <= r.len() <= f.len(),
            r@ == root@,
            f@ == full@,
            forall|j: int| 0 <= j < i ==> r@[j] == f@[j],
        decreases r.len() - i,
    {
        if r[i] != f[i] {
            assert(full@.take(root@.len() as int)[i as int] != root@[i as int]);
            return None;
        }
        i += 1;
    }
    assert(full@.take(root@.len() as int) =~= root@);
    let key = string_of(&f, r.len(), f.len());
    assert(full@.subrange(root@.len() as int, full@.len() as int) =~= full@.skip(
        root@.len() as int,
    ));
    Some(key)
}

/// The path of the entry `name` of the directory `dir`; `dir` is empty for
/// the root of the walk.
pub open spec fn child(dir: Seq<char>, name: Seq<char>) -> Seq<char> {
    if dir.len() == 0 {
        name
    } else {
        dir + seq!['/'] + name
    }
}

/// The walk and the listing leave out the same files: an entry of a
/// directory that is not hidden is hidden where its name begins with a
/// dot, and only there.
pub proof fn lemma_hidden_by_name(dir: Seq<char>, name: Seq<char>)
    requires
        !is_hidden(dir),
        name.len() > 0,
        forall|i: int| 0 <= i < name.len() ==> name[i] != '/',
        dir.len() > 0 ==> dir.last() != '/',
    ensures
        is_hidden(child(dir, name)) <==> starts_with_dot(name),
{
    let path = child(dir, name);
    let at: int = if dir.len() == 0 {
        0
    } else {
        dir.len() as int + 1
    };
    assert forall|j: int| 0 <= j < name.len() implies path[at + j] == name[j] by {}
    if starts_with_dot(name) {
        assert(is_hidden_at(path, at));
    }
    if is_hidden(path) {
        let i = choose|i: int| is_hidden_at(path, i);
        if i < at - 1 {
            assert(path[i] == dir[i]);
            if i > 0 {
                assert(path[i - 1] == dir[i - 1]);
            }
            assert(is_hidden_at(dir, i));
            assert(false);
        } else if i == at - 1 {
            assert(path[i] == '/');
            assert(false);
        } else if i > at {
            assert(path[i - 1] == name[i - 1 - at]);
            assert(false);
        }
    }
}

} // verus!
