//! Paths relative to the root of a synchronised tree: components separated
//! by `/`, no leading `./`.

use crate::text::{chars_of, lemma_texts_push, push_char, push_text, string_of, texts};
use vstd::prelude::*;

verus! {

/// Whether the first `n` characters of `path` name a directory above it:
/// they are followed by a separator, and are not empty.
pub open spec fn is_dir_prefix(path: Seq<char>, n: int) -> bool {
    0 < n < path.len() && path[n] == '/'
}

/// Whether `dir` is a directory above `path`.
pub open spec fn is_ancestor(dir: Seq<char>, path: Seq<char>) -> bool {
    is_dir_prefix(path, dir.len() as int) && path.take(dir.len() as int) == dir
}

/// The directories above `path` that are shorter than `n` characters, the
/// topmost first.
pub open spec fn ancestors_below(path: Seq<char>, n: nat) -> Seq<Seq<char>>
    decreases n,
{
    if n == 0 {
        Seq::empty()
    } else if is_dir_prefix(path, n - 1) {
        ancestors_below(path, (n - 1) as nat).push(path.take(n - 1))
    } else {
        ancestors_below(path, (n - 1) as nat)
    }
}

/// The directories above `path`, the topmost first.
pub open spec fn ancestors(path: Seq<char>) -> Seq<Seq<char>> {
    ancestors_below(path, path.len())
}

/// The length of the longest directory above `path` that is shorter than
/// `n` characters, or 0 where there is none.
pub open spec fn parent_len(path: Seq<char>, n: nat) -> nat
    decreases n,
{
    if n == 0 {
        0
    } else if is_dir_prefix(path, n - 1) {
        (n - 1) as nat
    } else {
        parent_len(path, (n - 1) as nat)
    }
}

/// The directory that holds `path`; empty for a path at the root.
pub open spec fn parent_dir(path: Seq<char>) -> Seq<char> {
    path.take(parent_len(path, path.len()) as int)
}

/// Whether `path` names something hidden: one of its components begins
/// with a dot.
pub open spec fn is_hidden(path: Seq<char>) -> bool {
    exists|i: int| is_hidden_at(path, i)
}

/// Whether a component of `path` begins at `i` with a dot.
pub open spec fn is_hidden_at(path: Seq<char>, i: int) -> bool {
    0 <= i < path.len() && path[i] == '.' && (i == 0 || path[i - 1] == '/')
}

/// The directories above `path`, the topmost first.
pub fn ancestors_of(path: &str) -> (dirs: Vec<String>)
    ensures
        texts(dirs@) == ancestors(path@),
{
    let chars = chars_of(path);
    let mut dirs: Vec<String> = Vec::new();
    let mut prefix = String::new();
    let mut i: usize = 0;
    assert(texts(dirs@) =~= Seq::empty());
    assert(chars@.take(0) =~= Seq::empty());
    while i < chars.len()
        invariant
            chars@ == path@,
            i <= chars.len(),
            prefix@ == chars@.take(i as int),
            texts(dirs@) == ancestors_below(path@, i as nat),
        decreases chars.len() - i,
    {
        if i > 0 && chars[i] == '/' {
            proof {
                lemma_texts_push(dirs@, prefix);
            }
            dirs.push(prefix.clone());
        }
        push_char(&mut prefix, chars[i]);
        assert(chars@.take(i + 1) =~= chars@.take(i as int).push(chars@[i as int]));
        i += 1;
    }
    dirs
}

/// The directory that holds `path`; empty for a path at the root.
pub fn parent_of(path: &str) -> (dir: String)
    ensures
        dir@ == parent_dir(path@),
{
    let chars = chars_of(path);
    let mut n: usize = chars.len();
    while n > 0 && !(n - 1 > 0 && chars[n - 1] == '/')
        invariant
            chars@ == path@,
            n <= chars.len(),
            parent_len(path@, path@.len()) == parent_len(path@, n as nat),
        decreases n,
    {
        n -= 1;
    }
    let end: usize = if n == 0 {
        0
    } else {
        n - 1
    };
    string_of(&chars, 0, end)
}

/// Whether `path` names something hidden.
pub fn hidden(path: &str) -> (b: bool)
    ensures
        b == is_hidden(path@),
{
    let chars = chars_of(path);
    let mut i: usize = 0;
    while i < chars.len()
        invariant
            chars@ == path@,
            i <= chars.len(),
            forall|j: int| 0 <= j < i ==> !is_hidden_at(path@, j),
        decreases chars.len() - i,
    {
        if chars[i] == '.' && (i == 0 || chars[i - 1] == '/') {
            assert(is_hidden_at(path@, i as int));
            return true;
        }
        i += 1;
    }
    false
}

/// The path `rel` under the directory `root`, which ends with its
/// separator.
pub fn join(root: &str, rel: &str) -> (path: String)
    ensures
        path@ == root@ + rel@,
{
    let mut path = String::new();
    push_text(&mut path, root);
    push_text(&mut path, rel);
    assert(Seq::<char>::empty() + root@ + rel@ =~= root@ + rel@);
    path
}

/// Whether `dir` ends with a separator.
pub open spec fn ends_with_slash(dir: Seq<char>) -> bool {
    dir.len() > 0 && dir.last() == '/'
}

/// `dir` with a separator at its end: as it is where it has one, with one
/// added where it has none.
pub open spec fn slash_ended(dir: Seq<char>) -> Seq<char> {
    if ends_with_slash(dir) {
        dir
    } else {
        dir.push('/')
    }
}

/// `dir` with a separator at its end.
pub fn with_trailing_slash(dir: &str) -> (out: String)
    ensures
        out@ == slash_ended(dir@),
{
    let chars = chars_of(dir);
    let mut out = String::new();
    push_text(&mut out, dir);
    assert(Seq::<char>::empty() + dir@ =~= dir@);
    if chars.len() == 0 || chars[chars.len() - 1] != '/' {
        push_char(&mut out, '/');
    }
    out
}

/// What [`ancestors_below`] lists: directories above the path, each longer
/// than those before it, and every directory above the path that is shorter
/// than `n` characters.
pub proof fn lemma_ancestors_below(path: Seq<char>, n: nat)
    requires
        n <= path.len(),
    ensures
        forall|l: int|
            0 <= l < ancestors_below(path, n).len() ==> is_ancestor(
                #[trigger] ancestors_below(path, n)[l],
                path,
            ) && ancestors_below(path, n)[l].len() < n,
        forall|a: int, b: int|
            0 <= a < b < ancestors_below(path, n).len() ==> (#[trigger] ancestors_below(
                path,
                n,
            )[a]).len() < (#[trigger] ancestors_below(path, n)[b]).len(),
        forall|e: Seq<char>|
            is_ancestor(e, path) && e.len() < n ==> ancestors_below(path, n).contains(e),
    decreases n,
{
    let now = ancestors_below(path, n);
    if n > 0 {
        let m = (n - 1) as nat;
        let before = ancestors_below(path, m);
        lemma_ancestors_below(path, m);
        if is_dir_prefix(path, n - 1) {
            let d = path.take(n - 1);
            assert(now == before.push(d));
            assert forall|l: int| 0 <= l < now.len() implies is_ancestor(#[trigger] now[l], path)
                && now[l].len() < n by {
                if l < before.len() {
                    assert(now[l] == before[l]);
                }
            }
            assert forall|a: int, b: int| 0 <= a < b < now.len() implies (#[trigger] now[a]).len()
                < (#[trigger] now[b]).len() by {
                assert(now[a] == before[a]);
                if b < before.len() {
                    assert(now[b] == before[b]);
                }
            }
            assert forall|e: Seq<char>| is_ancestor(e, path) && e.len() < n implies now.contains(
                e,
            ) by {
                if e.len() < m {
                    assert(before.contains(e));
                    let i = choose|i: int| 0 <= i < before.len() && before[i] == e;
                    assert(now[i] == e);
                } else {
                    assert(now[before.len() as int] == e);
                }
            }
        } else {
            assert forall|e: Seq<char>| is_ancestor(e, path) && e.len() < n implies now.contains(
                e,
            ) by {
                assert(e.len() < m);
            }
        }
    }
}

/// A directory above a directory above a path lies above that path.
pub proof fn lemma_ancestor_transitive(e: Seq<char>, d: Seq<char>, path: Seq<char>)
    requires
        is_ancestor(e, d),
        is_ancestor(d, path),
    ensures
        is_ancestor(e, path),
{
    assert(path.take(d.len() as int)[e.len() as int] == path[e.len() as int]);
    assert(path.take(e.len() as int) =~= path.take(d.len() as int).take(e.len() as int));
}

} // verus!
