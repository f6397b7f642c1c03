//! The remote side of a run as it is named on the command line:
//! `user@host:/dir/`, in the manner of `scp`.

use crate::paths::slash_ended;
use crate::seqs::{first_where, lemma_first_where};
use crate::text::{chars_of, push_char, string_of};
use vstd::prelude::*;

verus! {

/// The test for the sign that ends the user name.
pub open spec fn is_at() -> spec_fn(char) -> bool {
    |c: char| c == '@'
}

/// The test for the sign that ends the host name.
pub open spec fn is_colon() -> spec_fn(char) -> bool {
    |c: char| c == ':'
}

/// The user name in `remote`: what stands before the first `@`, if there
/// is one.
pub open spec fn user_part(remote: Seq<char>) -> Option<Seq<char>> {
    let at = first_where(remote, is_at()) as int;
    if at < remote.len() {
        Some(remote.take(at))
    } else {
        None
    }
}

/// What follows the user name in `remote`; all of it where no user is
/// named.
pub open spec fn host_and_dir(remote: Seq<char>) -> Seq<char> {
    let at = first_where(remote, is_at()) as int;
    if at < remote.len() {
        remote.skip(at + 1)
    } else {
        remote
    }
}

/// Whether `remote` names a host: a `:` stands behind the user name.
pub open spec fn names_host(remote: Seq<char>) -> bool {
    first_where(host_and_dir(remote), is_colon()) < host_and_dir(remote).len()
}

/// The host name in `remote`: what stands before the first `:` behind the
/// user name.
pub open spec fn host_part(remote: Seq<char>) -> Seq<char> {
    let rest = host_and_dir(remote);
    rest.take(first_where(rest, is_colon()) as int)
}

/// The directory in `remote`: what stands behind the host name, with a
/// separator at its end.
pub open spec fn dir_part(remote: Seq<char>) -> Seq<char> {
    let rest = host_and_dir(remote);
    slash_ended(rest.skip(first_where(rest, is_colon()) as int + 1))
}

/// The remote side of a run.
#[derive(Debug, PartialEq, Eq)]
pub struct Target {
    /// The user to log in as, where one is named.
    pub username: Option<String>,
    /// The host to log in to.
    pub hostname: String,
    /// The directory to synchronise to; it ends with a separator.
    pub directory: String,
}

/// Why a text names no remote side.
#[derive(Clone, Copy, Debug, PartialEq, Eq)]
pub enum TargetError {
    /// No `:` ends a host name.
    MissingHost,
}

/// Reads the remote side of a run from `remote`.
pub fn parse_target(remote: &str) -> (r: Result<Target, TargetError>)
    ensures
        match r {
            Ok(t) => {
                &&& names_host(remote@)
                &&& match t.username {
                    Some(u) => user_part(remote@) == Some(u@),
                    None => user_part(remote@) is None,
                }
                &&& t.hostname@ == host_part(remote@)
                &&& t.directory@ == dir_part(remote@)
            },
            Err(e) => !names_host(remote@) && e == TargetError::MissingHost,
        },
{
    let chars = chars_of(remote);
    let n = chars.len();
    let mut at: usize = 0;
    while at < n && chars[at] != '@'
        invariant
            at <= n,
            n == chars.len(),
            forall|j: int| 0 <= j < at ==> !is_at()(#[trigger] chars@[j]),
        decreases n - at,
    {
        at += 1;
    }
    proof {
        lemma_first_where(chars@, is_at(), at as int);
    }
    let (username, start) = if at < n {
        let user = string_of(&chars, 0, at);
        assert(chars@.subrange(0, at as int) =~= chars@.take(at as int));
        (Some(user), at + 1)
    } else {
        (None, 0)
    };
    let ghost rest = host_and_dir(remote@);
    assert(rest =~= chars@.skip(start as int));
    let mut colon: usize = start;
    while colon < n && chars[colon] != ':'
        invariant
            start <= colon <= n,
            n == chars.len(),
            rest == chars@.skip(start as int),
            forall|j: int| 0 <= j < colon - start ==> !is_colon()(#[trigger] rest[j]),
        decreases n - colon,
    {
        assert(rest[colon - start] == chars@[colon as int]);
        colon += 1;
    }
    proof {
        if colon < n {
            assert(rest[colon - start] == chars@[colon as int]);
        }
        lemma_first_where(rest, is_colon(), colon - start);
    }
    if colon >= n {
        return Err(TargetError::MissingHost);
    }
    let hostname = string_of(&chars, start, colon);
    assert(chars@.subrange(start as int, colon as int) =~= rest.take(colon - start));
    let mut directory = string_of(&chars, colon + 1, n);
    assert(chars@.subrange(colon + 1, n as int) =~= rest.skip(colon - start + 1));
    if colon + 1 == n || chars[n - 1] != '/' {
        push_char(&mut directory, '/');
    }
    Ok(Target { username, hostname, directory })
}

} // verus!
