//! The protocol between a run and the agent on the remote host: how the
//! agent is invoked, what its exit status means, and the lines in which it
//! lists the remote files.

use crate::manifest::{FileInfo, Manifest};
use crate::paths::{hidden, is_hidden};
use crate::reconcile::Files;
use crate::seqs::{first_where, lemma_first_where};
use crate::text::{chars_of, decimal, digit_char, push_decimal, push_text, string_of};
use vstd::prelude::*;

verus! {

/// The character between a path and its checksum.
pub const HELPER_SEP: char = ':';

/// What the exit status of the agent's command means.
#[derive(Clone, Copy, Debug, PartialEq, Eq)]
pub enum AgentExit {
    /// The agent ran and listed the files.
    Success,
    /// The agent gave up; the number is the error number of the remote
    /// operating system.
    AgentError(i32),
    /// The command did not end by itself: the session failed.
    TransportFailure(i32),
}

/// What the exit status `status` means: 0 is success, a positive status
/// comes from the agent, a negative one from the transport.
pub open spec fn exit_meaning(status: i32) -> AgentExit {
    if status == 0 {
        AgentExit::Success
    } else if status > 0 {
        AgentExit::AgentError(status)
    } else {
        AgentExit::TransportFailure(status)
    }
}

/// Says what the exit status of the agent's command means.
pub fn classify_exit(status: i32) -> (exit: AgentExit)
    ensures
        exit == exit_meaning(status),
{
    if status == 0 {
        AgentExit::Success
    } else if status > 0 {
        AgentExit::AgentError(status)
    } else {
        AgentExit::TransportFailure(status)
    }
}

/// Whether `dir` can be handed to the agent: an absolute path that ends in
/// exactly one separator.
pub open spec fn is_agent_dir(dir: Seq<char>) -> bool {
    &&& dir.len() > 0
    &&& dir[0] == '/'
    &&& dir.last() == '/'
    &&& (dir.len() == 1 || dir[dir.len() - 2] != '/')
}

/// Decides [`is_agent_dir`].
pub fn agent_dir_ok(dir: &str) -> (ok: bool)
    ensures
        ok == is_agent_dir(dir@),
{
    let chars = chars_of(dir);
    let n = chars.len();
    n > 0 && chars[0] == '/' && chars[n - 1] == '/' && (n == 1 || chars[n - 2] != '/')
}

/// Why the agent cannot be invoked.
#[derive(Clone, Copy, Debug, PartialEq, Eq)]
pub enum InvocationError {
    /// The directory is not an absolute path that ends in exactly one
    /// separator.
    BadDirectory,
}

/// The command that runs the agent staged at `helper` on the directory
/// `dir`: the two, with one space between them. It is owed where `dir` can
/// be handed to the agent.
pub fn agent_command(helper: &str, dir: &str) -> (r: Result<String, InvocationError>)
    ensures
        is_agent_dir(dir@) ==> r is Ok && r->Ok_0@ == helper@ + " "@ + dir@,
        !is_agent_dir(dir@) ==> r == Err::<String, InvocationError>(InvocationError::BadDirectory),
{
    if !agent_dir_ok(dir) {
        return Err(InvocationError::BadDirectory);
    }
    let mut cmd = String::new();
    push_text(&mut cmd, helper);
    push_text(&mut cmd, " ");
    push_text(&mut cmd, dir);
    Ok(cmd)
}

/// The line in which the agent lists the file `path` with the checksum
/// `checksum`.
pub open spec fn listing(path: Seq<char>, checksum: u32) -> Seq<char> {
    path + ":"@ + decimal(checksum as nat) + "\n"@
}

/// Writes the line in which the agent lists a file.
pub fn manifest_line(path: &str, checksum: u32) -> (line: String)
    ensures
        line@ == listing(path@, checksum),
{
    let mut line = String::new();
    push_text(&mut line, path);
    push_text(&mut line, ":");
    push_decimal(&mut line, checksum as u128);
    push_text(&mut line, "\n");
    line
}

/// The test for a line feed.
pub open spec fn is_newline() -> spec_fn(char) -> bool {
    |c: char| c == '\n'
}

/// The test for the separator.
pub open spec fn is_sep() -> spec_fn(char) -> bool {
    |c: char| c == ':'
}

/// A line without the carriage return that may stand before its line feed.
pub open spec fn trimmed(line: Seq<char>) -> Seq<char> {
    if line.len() > 0 && line.last() == '\r' {
        line.drop_last()
    } else {
        line
    }
}

/// The lines of `text`. A line ends with a line feed, which is not part of
/// it, nor is a carriage return just before the line feed; what follows the
/// last line feed is a line too, unless it is empty.
pub open spec fn lines(text: Seq<char>) -> Seq<Seq<char>>
    decreases text.len(),
{
    if text.len() == 0 {
        Seq::empty()
    } else {
        let n = first_where(text, is_newline()) as int;
        if n >= text.len() {
            seq![text]
        } else {
            seq![trimmed(text.take(n))] + lines(text.skip(n + 1))
        }
    }
}

/// The value of the decimal digit `c`.
pub open spec fn digit_value(c: char) -> nat {
    (c as nat - '0' as nat) as nat
}

/// Whether `c` is a decimal digit.
pub open spec fn is_digit(c: char) -> bool {
    '0' <= c <= '9'
}

/// The number that the digits `s` write.
pub open spec fn number(s: Seq<char>) -> nat
    decreases s.len(),
{
    if s.len() == 0 {
        0
    } else {
        number(s.drop_last()) * 10 + digit_value(s.last())
    }
}

/// Whether `s` holds decimal digits only.
pub open spec fn all_digits(s: Seq<char>) -> bool {
    forall|i: int| 0 <= i < s.len() ==> is_digit(#[trigger] s[i])
}

/// `s` without the plus sign that may stand at its head.
pub open spec fn unsigned(s: Seq<char>) -> Seq<char> {
    if s.len() > 0 && s[0] == '+' {
        s.skip(1)
    } else {
        s
    }
}

/// The checksum that `s` writes: one or more decimal digits, a plus sign
/// before them or not, that write a number of 32 bits.
pub open spec fn checksum_value(s: Seq<char>) -> Option<u32> {
    let digits = unsigned(s);
    if digits.len() > 0 && all_digits(digits) && number(digits) <= u32::MAX {
        Some(number(digits) as u32)
    } else {
        None
    }
}

/// Whether `line` holds the separator.
pub open spec fn has_sep(line: Seq<char>) -> bool {
    first_where(line, is_sep()) < line.len()
}

/// The path that `line` lists: what stands before the first separator. A
/// line without separator lists the empty path.
pub open spec fn line_key(line: Seq<char>) -> Seq<char> {
    if has_sep(line) {
        line.take(first_where(line, is_sep()) as int)
    } else {
        Seq::empty()
    }
}

/// The checksum that `line` lists: what stands behind the first separator,
/// read as a number. A line without separator lists the checksum 0.
pub open spec fn line_checksum(line: Seq<char>) -> Option<u32> {
    if has_sep(line) {
        checksum_value(line.skip(first_where(line, is_sep()) as int + 1))
    } else {
        Some(0)
    }
}

/// Why the output of the agent's command is no listing.
#[derive(Clone, Copy, Debug, PartialEq, Eq)]
pub enum ProtocolError {
    /// The first line holds no separator: the agent did not run.
    NoSeparator,
    /// The line with this number, counted from 0, lists no checksum.
    BadChecksum(usize),
}

/// The manifest that the first `n` of `lines` list. A hidden file is left
/// out unless hidden files are included; a path listed twice keeps what
/// was listed last.
pub open spec fn listed(all: Seq<Seq<char>>, include_hidden: bool, n: nat) -> Files
    decreases n,
{
    if n == 0 {
        Map::empty()
    } else {
        let before = listed(all, include_hidden, (n - 1) as nat);
        let line = all[n - 1];
        if include_hidden || !is_hidden(line_key(line)) {
            before.insert(
                line_key(line),
                FileInfo { checksum: line_checksum(line).unwrap(), size: None },
            )
        } else {
            before
        }
    }
}

/// The test for a line that lists no checksum.
pub open spec fn is_bad_line() -> spec_fn(Seq<char>) -> bool {
    |line: Seq<char>| line_checksum(line) is None
}

/// What the output `text` of the agent's command means. Output without any
/// line lists no file. A first line without separator is no listing at
/// all; otherwise the first line that lists no checksum is an error, and
/// without such a line the output lists a manifest.
pub open spec fn output_meaning(text: Seq<char>, include_hidden: bool) -> Result<
    Files,
    ProtocolError,
> {
    let all = lines(text);
    let bad = first_where(all, is_bad_line());
    if all.len() > 0 && !has_sep(all[0]) {
        Err(ProtocolError::NoSeparator)
    } else if bad < all.len() {
        Err(ProtocolError::BadChecksum(bad as usize))
    } else {
        Ok(listed(all, include_hidden, all.len()))
    }
}

/// The texts of a sequence of lines.
pub open spec fn rows(v: Seq<Vec<char>>) -> Seq<Seq<char>> {
    Seq::new(v.len(), |i: int| v[i]@)
}

/// The characters `chars[from..to]`.
fn slice_of(chars: &Vec<char>, from: usize, to: usize) -> (out: Vec<char>)
    requires
        from <= to <= chars.len(),
    ensures
        out@ == chars@.subrange(from as int, to as int),
{
    let mut out: Vec<char> = Vec::new();
    let mut i: usize = from;
    while i < to
        invariant
            from <= i <= to <= chars.len(),
            out@ == chars@.subrange(from as int, i as int),
        decreases to - i,
    {
        out.push(chars[i]);
        i += 1;
        assert(chars@.subrange(from as int, i as int) =~= chars@.subrange(from as int, i - 1).push(
            chars@[i - 1],
        ));
    }
    out
}

/// Splits `text` into its lines.
pub fn split_lines(text: &str) -> (out: Vec<Vec<char>>)
    ensures
        rows(out@) == lines(text@),
{
    let chars = chars_of(text);
    let n = chars.len();
    let mut out: Vec<Vec<char>> = Vec::new();
    let mut start: usize = 0;
    let mut i: usize = 0;
    assert(text@.skip(0) =~= text@);
    assert(rows(out@) + lines(text@) =~= lines(text@));
    while i < n
        invariant
            chars@ == text@,
            n == chars.len(),
            start <= i <= n,
            lines(text@) == rows(out@) + lines(text@.skip(start as int)),
            forall|j: int| start <= j < i ==> text@[j] != '\n',
        decreases n - i,
    {
        if chars[i] == '\n' {
            let end: usize = if i > start && chars[i - 1] == '\r' {
                i - 1
            } else {
                i
            };
            let line = slice_of(&chars, start, end);
            proof {
                let rest = text@.skip(start as int);
                assert forall|j: int| 0 <= j < i - start implies !is_newline()(
                    #[trigger] rest[j],
                ) by {
                    assert(rest[j] == text@[start + j]);
                }
                assert(is_newline()(rest[i - start]));
                lemma_first_where(rest, is_newline(), i - start);
                assert(rest.take(i - start) =~= text@.subrange(start as int, i as int));
                assert(rest.skip(i - start + 1) =~= text@.skip(i + 1));
                assert(line@ =~= trimmed(text@.subrange(start as int, i as int)));
                assert(rows(out@.push(line)) =~= rows(out@).push(line@));
                assert(rows(out@).push(line@) + lines(text@.skip(i + 1)) =~= rows(out@) + (
                seq![line@] + lines(text@.skip(i + 1))));
            }
            out.push(line);
            start = i + 1;
        }
        i += 1;
    }
    if start < n {
        let line = slice_of(&chars, start, n);
        proof {
            let rest = text@.skip(start as int);
            assert forall|j: int| 0 <= j < n - start implies !is_newline()(#[trigger] rest[j]) by {
                assert(rest[j] == text@[start + j]);
            }
            lemma_first_where(rest, is_newline(), n - start);
            assert(line@ =~= rest);
            assert(rows(out@.push(line)) =~= rows(out@).push(line@));
            assert(rows(out@).push(line@) =~= rows(out@) + seq![rest]);
        }
        out.push(line);
    } else {
        assert(rows(out@) + lines(text@.skip(start as int)) =~= rows(out@));
    }
    out
}

/// More digits do not write a smaller number.
proof fn lemma_number_grows(s: Seq<char>, k: int)
    requires
        0 <= k <= s.len(),
    ensures
        number(s.take(k)) <= number(s),
    decreases s.len() - k,
{
    if k < s.len() {
        lemma_number_grows(s, k + 1);
        assert(s.take(k + 1).drop_last() =~= s.take(k));
        assert(number(s.take(k + 1)) >= number(s.take(k)) * 10) by {
            assert(number(s.take(k + 1)) == number(s.take(k)) * 10 + digit_value(
                s.take(k + 1).last(),
            ));
        }
    } else {
        assert(s.take(k) =~= s);
    }
}

/// Reads the checksum that the characters of `line` from `from` on write;
/// there is none where `line` ends before `from`.
pub fn parse_checksum(line: &Vec<char>, from: usize) -> (value: Option<u32>)
    ensures
        from <= line.len() ==> value == checksum_value(line@.skip(from as int)),
        from > line.len() ==> value is None,
{
    let n = line.len();
    if from > n {
        return None;
    }
    let ghost given = line@.skip(from as int);
    let start: usize = if from < n && line[from] == '+' {
        from + 1
    } else {
        from
    };
    let ghost digits = line@.skip(start as int);
    assert(digits =~= unsigned(given));
    if start == n {
        return None;
    }
    let mut acc: u32 = 0;
    let mut i: usize = start;
    assert(digits.take(0) =~= Seq::empty());
    while i < n
        invariant
            start <= i <= n,
            n == line.len(),
            digits == line@.skip(start as int),
            digits == unsigned(line@.skip(from as int)),
            acc == number(digits.take(i - start)),
            all_digits(digits.take(i - start)),
        decreases n - i,
    {
        let c = line[i];
        proof {
            assert(digits.take(i - start + 1).drop_last() =~= digits.take(i - start));
            assert(digits.take(i - start + 1).last() == c);
            assert(digits[i - start] == c);
        }
        if !(c >= '0' && c <= '9') {
            assert(!is_digit(digits[i - start]));
            return None;
        }
        let d: u32 = c as u32 - '0' as u32;
        if acc > (u32::MAX - d) / 10 {
            proof {
                lemma_number_grows(digits, i - start + 1);
                assert(number(digits.take(i - start + 1)) == acc * 10 + d);
            }
            return None;
        }
        acc = acc * 10 + d;
        i += 1;
        assert forall|j: int| 0 <= j < i - start implies is_digit(
            #[trigger] digits.take(i - start)[j],
        ) by {
            if j < i - start - 1 {
                assert(digits.take(i - start)[j] == digits.take(i - start - 1)[j]);
            }
        }
    }
    assert(digits.take(n - start) =~= digits);
    Some(acc)
}

/// Reads one line of the agent's output: the path that it lists, the
/// checksum, if it lists one, and whether it holds the separator.
pub fn parse_line(line: &Vec<char>) -> (r: (String, Option<u32>, bool))
    ensures
        r.0@ == line_key(line@),
        r.1 == line_checksum(line@),
        r.2 == has_sep(line@),
{
    let n = line.len();
    let mut i: usize = 0;
    while i < n && line[i] != HELPER_SEP
        invariant
            i <= n,
            n == line.len(),
            forall|j: int| 0 <= j < i ==> !is_sep()(#[trigger] line@[j]),
        decreases n - i,
    {
        i += 1;
    }
    proof {
        lemma_first_where(line@, is_sep(), i as int);
    }
    if i < n {
        let key = string_of(line, 0, i);
        assert(line@.subrange(0, i as int) =~= line@.take(i as int));
        (key, parse_checksum(line, i + 1), true)
    } else {
        (String::new(), Some(0), false)
    }
}

/// Reads the output of the agent's command as the manifest of the remote
/// side. Hidden files are left out unless `include_hidden` is set.
pub fn parse_output(text: &str, include_hidden: bool) -> (r: Result<Manifest, ProtocolError>)
    ensures
        match r {
            Ok(m) => output_meaning(text@, include_hidden) == Ok::<Files, ProtocolError>(m@),
            Err(e) => output_meaning(text@, include_hidden) == Err::<Files, ProtocolError>(e),
        },
{
    let all = split_lines(text);
    let n = all.len();
    let ghost texts = lines(text@);
    let mut manifest = Manifest::new();
    let mut i: usize = 0;
    while i < n
        invariant
            i <= n,
            n == all.len(),
            texts == rows(all@),
            texts == lines(text@),
            manifest@ == listed(texts, include_hidden, i as nat),
            forall|j: int| 0 <= j < i ==> !is_bad_line()(#[trigger] texts[j]),
            i > 0 ==> has_sep(texts[0]),
        decreases n - i,
    {
        let (key, checksum, separated) = parse_line(&all[i]);
        assert(texts[i as int] == all@[i as int]@);
        if i == 0 && !separated {
            return Err(ProtocolError::NoSeparator);
        }
        match checksum {
            None => {
                proof {
                    lemma_first_where(texts, is_bad_line(), i as int);
                }
                return Err(ProtocolError::BadChecksum(i));
            },
            Some(value) => {
                if include_hidden || !hidden(key.as_str()) {
                    manifest.insert(key, value, None);
                }
            },
        }
        i += 1;
    }
    proof {
        lemma_first_where(texts, is_bad_line(), n as int);
    }
    Ok(manifest)
}

/// A decimal numeral holds digits only, at least one, and writes its
/// number.
pub proof fn lemma_decimal_is_number(n: nat)
    ensures
        decimal(n).len() > 0,
        all_digits(decimal(n)),
        number(decimal(n)) == n,
    decreases n,
{
    let d = decimal(n);
    if n < 10 {
        assert(d.drop_last() =~= Seq::empty());
        assert(number(d.drop_last()) == 0);
        assert(d.last() == digit_char(n));
    } else {
        lemma_decimal_is_number(n / 10);
        let before = decimal(n / 10);
        assert(d.drop_last() =~= before);
        assert(d.last() == digit_char(n % 10));
        assert forall|i: int| 0 <= i < d.len() implies is_digit(#[trigger] d[i]) by {
            if i < before.len() {
                assert(d[i] == before[i]);
            }
        }
    }
}

/// What the agent writes for a checksum is read back as that checksum.
pub proof fn lemma_checksum_read_back(checksum: u32)
    ensures
        checksum_value(decimal(checksum as nat)) == Some(checksum),
{
    lemma_decimal_is_number(checksum as nat);
    let d = decimal(checksum as nat);
    assert(is_digit(d[0]));
}

/// The two sides of the protocol fit: the line that the agent writes for a
/// file is read back, alone in the output, as one line that lists the path
/// and the checksum of the file; this for every path without separator and
/// line feed.
pub proof fn lemma_listing_read_back(path: Seq<char>, checksum: u32)
    requires
        forall|i: int| 0 <= i < path.len() ==> path[i] != ':' && path[i] != '\n',
    ensures
        lines(listing(path, checksum)) == seq![path + ":"@ + decimal(checksum as nat)],
        has_sep(path + ":"@ + decimal(checksum as nat)),
        line_key(path + ":"@ + decimal(checksum as nat)) == path,
        line_checksum(path + ":"@ + decimal(checksum as nat)) == Some(checksum),
{
    reveal_strlit(":");
    reveal_strlit("\n");
    let digits = decimal(checksum as nat);
    let line = path + ":"@ + digits;
    let text = listing(path, checksum);
    lemma_decimal_is_number(checksum as nat);
    lemma_checksum_read_back(checksum);
    assert(text =~= line.push('\n'));
    assert forall|i: int| 0 <= i < line.len() implies !is_newline()(#[trigger] text[i]) by {
        if i > path.len() {
            assert(text[i] == digits[i - path.len() - 1]);
            assert(is_digit(digits[i - path.len() - 1]));
        }
    }
    lemma_first_where(text, is_newline(), line.len() as int);
    assert(text.take(line.len() as int) =~= line);
    assert(text.skip(line.len() as int + 1) =~= Seq::empty());
    assert(line.last() == digits.last());
    assert(is_digit(digits[digits.len() - 1]));
    assert(trimmed(line) == line);
    assert(lines(text.skip(line.len() as int + 1)) =~= Seq::empty());
    assert(first_where(text, is_newline()) == line.len());
    assert(lines(text) =~= seq![trimmed(text.take(line.len() as int))] + lines(
        text.skip(line.len() as int + 1),
    ));
    assert(lines(text) =~= seq![line]);
    assert forall|i: int| 0 <= i < path.len() implies !is_sep()(#[trigger] line[i]) by {
        assert(line[i] == path[i]);
    }
    assert(line[path.len() as int] == ':');
    lemma_first_where(line, is_sep(), path.len() as int);
    assert(line.take(path.len() as int) =~= path);
    assert(line.skip(path.len() as int + 1) =~= digits);
}

/// Unless hidden files are included, no listed manifest holds one.
pub proof fn lemma_listed_without_hidden(all: Seq<Seq<char>>, n: nat, key: Seq<char>)
    requires
        n <= all.len(),
        listed(all, false, n).contains_key(key),
    ensures
        !is_hidden(key),
    decreases n,
{
    if n > 0 {
        let before = listed(all, false, (n - 1) as nat);
        if before.contains_key(key) {
            lemma_listed_without_hidden(all, (n - 1) as nat, key);
        }
    }
}

} // verus!
