//! What the agent on the remote host decides while it walks a directory
//! tree and lists the files it finds: which entries it passes over, how it
//! names a file, how it writes a number.

use crate::protocol::{agent_dir_ok, is_agent_dir};
use crate::seqs::{first_where, lemma_first_where, lemma_first_where_is_first};
use crate::text::{chars_of, decimal, push_decimal, push_text, string_of};
use vstd::prelude::*;

verus! {

/// The test for the byte that ends a string in a buffer.
pub open spec fn is_nul() -> spec_fn(u8) -> bool {
    |b: u8| b == 0
}

/// The length of the string that begins `s`: the number of bytes before
/// the first zero byte, or the length of `s` where it holds none.
pub open spec fn c_len(s: Seq<u8>) -> nat {
    first_where(s, is_nul())
}

/// The string that begins `s`.
pub open spec fn c_str(s: Seq<u8>) -> Seq<u8> {
    s.take(c_len(s) as int)
}

/// The length of the string that begins `s`.
pub fn strlen_local(s: &[u8]) -> (n: usize)
    ensures
        n == c_len(s@),
        n <= s.len(),
{
    let mut i: usize = 0;
    while i < s.len() && s[i] != 0
        invariant
            i <= s.len(),
            forall|j: int| 0 <= j < i ==> !is_nul()(#[trigger] s@[j]),
        decreases s.len() - i,
    {
        i += 1;
    }
    proof {
        lemma_first_where(s@, is_nul(), i as int);
    }
    i
}

/// The byte of a dot.
pub const DOT: u8 = 46;

/// Whether `name` is one of the two entries that every directory holds for
/// itself and for the directory above it.
pub open spec fn is_dot_entry(name: Seq<u8>) -> bool {
    let s = c_str(name);
    (s.len() == 1 && s[0] == DOT) || (s.len() == 2 && s[0] == DOT && s[1] == DOT)
}

/// Whether the walk passes over the directory `dir`, whatever it is told
/// about hidden files: `.` and `..`.
pub fn is_ignore_dir(dir: &[u8]) -> (b: bool)
    ensures
        b == is_dot_entry(dir@),
{
    let n = strlen_local(dir);
    if n == 1 {
        dir[0] == DOT
    } else if n == 2 {
        dir[0] == DOT && dir[1] == DOT
    } else {
        false
    }
}

/// The decimal numeral of `n` in ASCII.
pub open spec fn ascii_decimal(n: nat) -> Seq<u8>
    decreases n,
{
    if n < 10 {
        seq![(48 + n) as u8]
    } else {
        ascii_decimal(n / 10).push((48 + n % 10) as u8)
    }
}

/// The number of digits of `num`.
pub fn decimal_len(num: u32) -> (n: usize)
    ensures
        n == ascii_decimal(num as nat).len(),
        1 <= n <= 10,
    decreases num,
{
    if num < 10 {
        1
    } else {
        let n = decimal_len(num / 10);
        proof {
            lemma_decimal_len_bound(num as nat);
        }
        n + 1
    }
}

/// A number below `10^k` has at most `k` digits; so a number of 32 bits
/// has at most ten.
proof fn lemma_decimal_len_bound(n: nat)
    ensures
        n < 10 ==> ascii_decimal(n).len() == 1,
        n < 100 ==> ascii_decimal(n).len() <= 2,
        n < 1000 ==> ascii_decimal(n).len() <= 3,
        n < 10000 ==> ascii_decimal(n).len() <= 4,
        n < 100000 ==> ascii_decimal(n).len() <= 5,
        n < 1000000 ==> ascii_decimal(n).len() <= 6,
        n < 10000000 ==> ascii_decimal(n).len() <= 7,
        n < 100000000 ==> ascii_decimal(n).len() <= 8,
        n < 1000000000 ==> ascii_decimal(n).len() <= 9,
        n < 10000000000 ==> ascii_decimal(n).len() <= 10,
    decreases n,
{
    if n >= 10 {
        lemma_decimal_len_bound(n / 10);
    }
}

/// Writes the digits of `num` into `dest` from `pos` on, and hands back
/// the place behind the last digit.
fn write_digits(num: u32, dest: &mut Vec<u8>, pos: usize) -> (end: usize)
    requires
        pos + ascii_decimal(num as nat).len() <= old(dest).len(),
    ensures
        end == pos + ascii_decimal(num as nat).len(),
        final(dest).len() == old(dest).len(),
        final(dest)@.subrange(pos as int, end as int) == ascii_decimal(num as nat),
        forall|i: int|
            0 <= i < old(dest).len() && !(pos <= i < end) ==> final(dest)[i] == old(dest)[i],
    decreases num,
{
    let at: usize = if num >= 10 {
        write_digits(num / 10, dest, pos)
    } else {
        pos
    };
    let ghost mid = dest@;
    dest[at] = 48 + (num % 10) as u8;
    proof {
        if num >= 10 {
            assert(dest@.subrange(pos as int, at + 1) =~= mid.subrange(pos as int, at as int).push(
                (48 + num % 10) as u8,
            ));
        } else {
            assert(dest@.subrange(pos as int, at + 1) =~= seq![(48 + num) as u8]);
        }
    }
    at + 1
}

/// Writes the decimal numeral of `num` to the head of `dest`, in ASCII,
/// and a zero byte behind it. The rest of `dest` stays as it is. `dest`
/// has to hold the digits and the zero byte.
pub fn itoa(num: u32, dest: &mut Vec<u8>)
    requires
        ascii_decimal(num as nat).len() < old(dest).len(),
    ensures
        final(dest).len() == old(dest).len(),
        final(dest)@.take(ascii_decimal(num as nat).len() as int) == ascii_decimal(num as nat),
        final(dest)[ascii_decimal(num as nat).len() as int] == 0,
        forall|i: int|
            ascii_decimal(num as nat).len() < i < old(dest).len() ==> final(dest)[i] == old(
                dest,
            )[i],
{
    let end = write_digits(num, dest, 0);
    let ghost mid = dest@;
    dest[end] = 0;
    assert(dest@.take(end as int) =~= mid.subrange(0, end as int));
}

/// What the agent does with an entry of a directory.
#[derive(Clone, Copy, Debug, PartialEq, Eq, Structural)]
pub enum Visit {
    /// It passes over the entry.
    Skip,
    /// It walks the directory.
    Descend,
    /// It lists the file with its checksum.
    List,
}

/// The type of a directory, as the operating system gives it for an entry.
pub const DT_DIR: u8 = 4;

/// The type of a regular file.
pub const DT_REG: u8 = 8;

/// What the agent does with the entry `name` of type `d_type`: a regular
/// file is listed, a directory walked unless it is `.` or `..`, and
/// anything else passed over.
pub open spec fn visit_of(d_type: u8, name: Seq<u8>) -> Visit {
    if d_type == DT_REG {
        Visit::List
    } else if d_type == DT_DIR && !is_dot_entry(name) {
        Visit::Descend
    } else {
        Visit::Skip
    }
}

/// Decides what the agent does with an entry.
pub fn visit(d_type: u8, name: &[u8]) -> (v: Visit)
    ensures
        v == visit_of(d_type, name@),
{
    if d_type == DT_REG {
        Visit::List
    } else if d_type == DT_DIR && !is_ignore_dir(name) {
        Visit::Descend
    } else {
        Visit::Skip
    }
}

/// The error number with which the operating system denies permission,
/// as a system call returns it.
pub const EACCES: i32 = -13;

/// What became of an attempt to open a file or directory.
#[derive(Clone, Copy, Debug, PartialEq, Eq)]
pub enum Opened {
    /// It is open; the number is its descriptor.
    Descriptor(i32),
    /// Permission was denied: the entry is left out, and the walk goes on.
    Denied,
    /// It failed otherwise; the number is what the system call returned.
    /// The walk ends.
    Failed(i32),
}

/// What the result `result` of the system call `open` means.
pub open spec fn open_meaning(result: i32) -> Opened {
    if result == EACCES {
        Opened::Denied
    } else if result < 0 {
        Opened::Failed(result)
    } else {
        Opened::Descriptor(result)
    }
}

/// Judges the result of the system call `open`.
pub fn open(result: i32) -> (o: Opened)
    ensures
        o == open_meaning(result),
{
    if result == EACCES {
        Opened::Denied
    } else if result < 0 {
        Opened::Failed(result)
    } else {
        Opened::Descriptor(result)
    }
}

/// The names of the error numbers 0 to 35 of the operating system, each
/// filled up with spaces to seven characters.
pub const ERRS: [&'static str; 36] = [
    "NOPE   ",
    "EPERM  ",
    "ENOENT ",
    "ESRCH  ",
    "EINTR  ",
    "EIO    ",
    "ENXIO  ",
    "E2BIG  ",
    "ENOEXEC",
    "EBADF  ",
    "ECHILD ",
    "EAGAIN ",
    "ENOMEM ",
    "EACCES ",
    "EFAULT ",
    "ENOTBLK",
    "EBUSY  ",
    "EEXIST ",
    "EXDEV  ",
    "ENODEV ",
    "ENOTDIR",
    "EISDIR ",
    "EINVAL ",
    "ENFILE ",
    "EMFILE ",
    "ENOTTY ",
    "ETXTBSY",
    "EFBIG  ",
    "ENOSPC ",
    "ESPIPE ",
    "EROFS  ",
    "EMLINK ",
    "EPIPE  ",
    "EDOM   ",
    "ERANGE ",
    "       ",
];

/// What the agent says when a system call returned the error `result`,
/// which is negative: the message `msg`, then the name of the error number
/// where it has one in [`ERRS`], else the number itself, and a line feed.
pub open spec fn error_text(result: i32, msg: Seq<char>) -> Seq<char> {
    if -result < 36 {
        msg + ERRS[-result]@ + "\n"@
    } else {
        msg + decimal((-result) as nat) + "\n"@
    }
}

/// Words what the agent says when a system call failed; nothing where it
/// succeeded.
pub fn error_message(result: i32, msg: &str) -> (text: Option<String>)
    ensures
        result >= 0 ==> text is None,
        result < 0 ==> text is Some && text->0@ == error_text(result, msg@),
{
    if result >= 0 {
        return None;
    }
    let code: u32 = if result == i32::MIN {
        2147483648
    } else {
        (-result) as u32
    };
    let mut text = String::new();
    push_text(&mut text, msg);
    if code < 36 {
        push_text(&mut text, ERRS[code as usize]);
    } else {
        push_decimal(&mut text, code as u128);
    }
    push_text(&mut text, "\n");
    Some(text)
}

/// The exit status with which the agent gives up after a system call
/// returned `result`: none where it succeeded, else the error number.
pub open spec fn exit_status_of(result: i32) -> Option<i32> {
    if result >= 0 {
        None
    } else if result == i32::MIN {
        Some(i32::MAX)
    } else {
        Some((-result) as i32)
    }
}

/// Judges the result of a system call: none where it succeeded, else the
/// positive exit status with which the agent gives up.
pub fn error(result: i32) -> (status: Option<i32>)
    ensures
        status == exit_status_of(result),
        status is Some ==> status->0 > 0,
{
    if result >= 0 {
        None
    } else if result == i32::MIN {
        Some(i32::MAX)
    } else {
        Some(-result)
    }
}

/// What the agent does when it is started.
#[derive(Clone, Copy, Debug, PartialEq, Eq)]
pub enum Entry {
    /// It walks the directory it was given.
    Walk,
    /// It was not given exactly one argument: it says how it is used.
    Usage,
    /// The argument is not an absolute path that ends in exactly one
    /// separator.
    BadPath,
}

impl Entry {
    /// The exit status with which the agent ends at once, if it does.
    pub open spec fn exit_status(self) -> Option<i32> {
        match self {
            Entry::Walk => None,
            Entry::Usage => Some(0),
            Entry::BadPath => Some(1),
        }
    }

    /// The exit status with which the agent ends at once, if it does.
    pub fn exit_code(self) -> (status: Option<i32>)
        ensures
            status == self.exit_status(),
    {
        match self {
            Entry::Walk => None,
            Entry::Usage => Some(0),
            Entry::BadPath => Some(1),
        }
    }
}

/// What the agent does when started with `argc` arguments, its own name
/// counted, the first of them `dir_name`.
pub open spec fn entry_of(argc: u32, dir_name: Seq<char>) -> Entry {
    if argc != 2 {
        Entry::Usage
    } else if !is_agent_dir(dir_name) {
        Entry::BadPath
    } else {
        Entry::Walk
    }
}

/// Decides what the agent does when it is started.
pub fn enter(argc: u32, dir_name: &str) -> (e: Entry)
    ensures
        e == entry_of(argc, dir_name@),
{
    if argc != 2 {
        Entry::Usage
    } else if !agent_dir_ok(dir_name) {
        Entry::BadPath
    } else {
        Entry::Walk
    }
}

/// The name under which the agent lists the file that its walk found as
/// `found`: the walk begins at `.`, and the listing leaves out the `./`
/// with which every path that it finds begins.
pub open spec fn listed_name(found: Seq<char>) -> Seq<char> {
    if found.len() >= 2 && found[0] == '.' && found[1] == '/' {
        found.skip(2)
    } else {
        found
    }
}

/// Gives the name under which the agent lists a file.
pub fn crc_print_name(found: &str) -> (name: String)
    ensures
        name@ == listed_name(found@),
{
    let chars = chars_of(found);
    let from: usize = if chars.len() >= 2 && chars[0] == '.' && chars[1] == '/' {
        2
    } else {
        0
    };
    let name = string_of(&chars, from, chars.len());
    assert(found@.subrange(from as int, found@.len() as int) =~= found@.skip(from as int));
    assert(found@.skip(0) =~= found@);
    name
}

/// Where, in the record of a directory entry, the length of the record
/// stands: two bytes, the low one first.
pub const RECLEN_AT: usize = 16;

/// Where the type of the entry stands.
pub const TYPE_AT: usize = 18;

/// Where the name of the entry begins; it ends with a zero byte.
pub const NAME_AT: usize = 19;

/// The length of the record that begins at `pos`.
pub open spec fn record_len(buf: Seq<u8>, pos: int) -> int {
    buf[pos + RECLEN_AT] + 256 * buf[pos + RECLEN_AT + 1]
}

/// Whether a whole record with room for a name begins at `pos` and ends
/// within the first `end` bytes.
pub open spec fn record_fits(buf: Seq<u8>, pos: int, end: int) -> bool {
    pos + NAME_AT < end && NAME_AT < record_len(buf, pos) && pos + record_len(buf, pos) <= end
}

/// The name in the record that begins at `pos`.
pub open spec fn record_name(buf: Seq<u8>, pos: int) -> Seq<u8> {
    c_str(buf.subrange(pos + NAME_AT, pos + record_len(buf, pos)))
}

/// The path of the entry `name` of the directory `dir`.
pub open spec fn entry_path(dir: Seq<u8>, name: Seq<u8>) -> Seq<u8> {
    c_str(dir) + seq![SLASH] + name
}

/// The byte of the separator.
pub const SLASH: u8 = 47;

/// An entry that the walk does not pass over.
#[derive(Debug, PartialEq, Eq)]
pub struct Found {
    /// Whether the entry is listed or walked.
    pub visit: Visit,
    /// The path of the entry, without a zero byte at its end.
    pub path: Vec<u8>,
}

/// The entries among the records from `pos` to `end` that the walk of
/// `dir` does not pass over, with their paths; none where the records do
/// not fill the bytes up to `end` exactly.
pub open spec fn found_from(dir: Seq<u8>, buf: Seq<u8>, pos: int, end: int) -> Option<
    Seq<(Visit, Seq<u8>)>,
>
    decreases end - pos,
{
    if pos >= end {
        Some(Seq::empty())
    } else if !record_fits(buf, pos, end) {
        None
    } else {
        let name = record_name(buf, pos);
        let visit = visit_of(buf[pos + TYPE_AT], name);
        match found_from(dir, buf, pos + record_len(buf, pos), end) {
            None => None,
            Some(rest) => if visit == Visit::Skip {
                Some(rest)
            } else {
                Some(seq![(visit, entry_path(dir, name))] + rest)
            },
        }
    }
}

/// What a sequence of found entries holds.
pub open spec fn found_view(v: Seq<Found>) -> Seq<(Visit, Seq<u8>)> {
    Seq::new(v.len(), |i: int| (v[i].visit, v[i].path@))
}

/// Appends the bytes `from[start..end]` to `out`.
fn copy_into(out: &mut Vec<u8>, from: &[u8], start: usize, end: usize)
    requires
        start <= end <= from.len(),
    ensures
        final(out)@ == old(out)@ + from@.subrange(start as int, end as int),
{
    let mut i: usize = start;
    assert(out@ + from@.subrange(start as int, start as int) =~= out@);
    while i < end
        invariant
            start <= i <= end <= from.len(),
            out@ == old(out)@ + from@.subrange(start as int, i as int),
        decreases end - i,
    {
        out.push(from[i]);
        i += 1;
        assert(old(out)@ + from@.subrange(start as int, i as int) =~= (old(out)@
            + from@.subrange(start as int, i - 1)).push(from@[i - 1]));
    }
}

/// Goes through the records of directory entries in the first
/// `bytes_read` bytes of `buf`, as the system call filled them in for the
/// directory `dir`, and hands back the entries to list and to walk, in
/// their order; nothing where the records are broken or `buf` is shorter
/// than `bytes_read`.
pub fn process_chunk(dir: &[u8], buf: &[u8], bytes_read: usize) -> (found: Option<Vec<Found>>)
    ensures
        bytes_read > buf.len() ==> found is None,
        bytes_read <= buf.len() ==> match found {
            Some(v) => found_from(dir@, buf@, 0, bytes_read as int) == Some(found_view(v@)),
            None => found_from(dir@, buf@, 0, bytes_read as int) is None,
        },
{
    if bytes_read > buf.len() {
        return None;
    }
    let dir_len = strlen_local(dir);
    let mut out: Vec<Found> = Vec::new();
    let mut pos: usize = 0;
    assert(found_view(out@) =~= Seq::empty());
    while pos < bytes_read
        invariant
            pos <= bytes_read <= buf.len(),
            dir_len == c_len(dir@),
            dir_len <= dir.len(),
            found_from(dir@, buf@, 0, bytes_read as int) == (match found_from(
                dir@,
                buf@,
                pos as int,
                bytes_read as int,
            ) {
                None => None,
                Some(rest) => Some(found_view(out@) + rest),
            }),
        decreases bytes_read - pos,
    {
        if bytes_read - pos <= NAME_AT {
            return None;
        }
        let low = buf[pos + RECLEN_AT] as usize;
        let high = buf[pos + RECLEN_AT + 1] as usize;
        let reclen: usize = low + 256 * high;
        if reclen <= NAME_AT || reclen > bytes_read - pos {
            return None;
        }
        let name_area = vstd::slice::slice_subrange(buf, pos + NAME_AT, pos + reclen);
        let name_len = strlen_local(name_area);
        let what = visit(buf[pos + TYPE_AT], name_area);
        let ghost here = found_from(dir@, buf@, pos as int, bytes_read as int);
        let ghost rest = found_from(dir@, buf@, pos + reclen, bytes_read as int);
        proof {
            assert(record_len(buf@, pos as int) == reclen);
            assert(record_fits(buf@, pos as int, bytes_read as int));
            assert(name_area@ == buf@.subrange(pos + NAME_AT, pos + reclen));
            assert(c_str(name_area@) == record_name(buf@, pos as int));
            assert(visit_of(buf@[pos + TYPE_AT], name_area@) == visit_of(
                buf@[pos + TYPE_AT],
                record_name(buf@, pos as int),
            )) by {
                assert(c_str(c_str(name_area@)) =~= c_str(name_area@)) by {
                    lemma_first_where_is_first(name_area@, is_nul());
                    let inner = c_str(name_area@);
                    assert forall|j: int| 0 <= j < inner.len() implies !is_nul()(
                        #[trigger] inner[j],
                    ) by {
                        assert(inner[j] == name_area@[j]);
                    }
                    lemma_first_where(inner, is_nul(), inner.len() as int);
                }
            }
            assert(what == visit_of(buf@[pos + TYPE_AT], record_name(buf@, pos as int)));
            assert(here == (match rest {
                None => None,
                Some(r) => if what == Visit::Skip {
                    Some(r)
                } else {
                    Some(seq![(what, entry_path(dir@, record_name(buf@, pos as int)))] + r)
                },
            }));
        }
        let ghost before = found_view(out@);
        if what != Visit::Skip {
            let mut path: Vec<u8> = Vec::new();
            copy_into(&mut path, dir, 0, dir_len);
            path.push(SLASH);
            copy_into(&mut path, name_area, 0, name_len);
            proof {
                assert(dir@.subrange(0, dir_len as int) =~= c_str(dir@));
                assert(name_area@.subrange(0, name_len as int) =~= record_name(buf@, pos as int));
                assert(path@ =~= entry_path(dir@, record_name(buf@, pos as int)));
            }
            let ghost item = (what, path@);
            out.push(Found { visit: what, path });
            proof {
                assert(found_view(out@) =~= before.push(item));
                if rest is Some {
                    assert(found_view(out@) + rest->0 =~= before + (seq![item] + rest->0));
                }
            }
        }
        proof {
            if rest is Some {
                assert(here is Some);
                assert(before + here->0 == found_view(out@) + rest->0);
            } else {
                assert(here is None);
            }
        }
        pos += reclen;
    }
    assert(found_view(out@) + Seq::<(Visit, Seq<u8>)>::empty() =~= found_view(out@));
    Some(out)
}

} // verus!
