//! The rules of a live session that do not depend on the transport library,
//! and the session that only says what it would do.

use crate::output::sat_add;
use crate::progress_message::{Progress, Report};
use crate::remote::{calls, Call, Remote, Request};
use crate::text::{octal, push_octal, push_text};
use crossbeam_channel::Sender;
use vstd::prelude::*;

verus! {

/// The number of bytes handed to the transport at once. A record of the
/// transport holds about 32 KiB; well above that transfers begin to fail.
pub const SFTP_CHUNK_SIZE: usize = 64 * 1024;

/// The mode bits of the directories that a run creates.
pub const DIR_MODE: u32 = 0o755;

/// The mode bits of the staged agent.
pub const AGENT_MODE: u32 = 0o700;

/// How much the transport library logs.
#[derive(Clone, Copy, Debug, PartialEq, Eq)]
#[allow(non_camel_case_types)]
pub enum LogLevel {
    /// No logging at all.
    NOLOG,
    /// Only warnings.
    WARNING,
    /// High level protocol information.
    PROTOCOL,
    /// Lower level protocol information, packet level.
    PACKET,
    /// Every function path.
    FUNCTIONS,
}

impl LogLevel {
    /// The number by which the transport library knows the level.
    pub open spec fn code_of(self) -> i32 {
        match self {
            LogLevel::NOLOG => 0,
            LogLevel::WARNING => 1,
            LogLevel::PROTOCOL => 2,
            LogLevel::PACKET => 3,
            LogLevel::FUNCTIONS => 4,
        }
    }

    /// The number by which the transport library knows the level.
    pub fn code(self) -> (n: i32)
        ensures
            n == self.code_of(),
    {
        match self {
            LogLevel::NOLOG => 0,
            LogLevel::WARNING => 1,
            LogLevel::PROTOCOL => 2,
            LogLevel::PACKET => 3,
            LogLevel::FUNCTIONS => 4,
        }
    }
}

/// The status code with which the file transfer protocol says that a file
/// or directory exists already.
pub const SSH_FX_FILE_ALREADY_EXISTS: u32 = 11;

/// Whether creating a directory counts as done: the call succeeded, or it
/// failed only because the directory exists.
pub fn mkdir_done(call_ok: bool, status: u32) -> (done: bool)
    ensures
        done == (call_ok || status == SSH_FX_FILE_ALREADY_EXISTS),
{
    call_ok || status == SSH_FX_FILE_ALREADY_EXISTS
}

/// The answer with which the transport library says that the host is
/// known and its key unchanged.
pub const SSH_KNOWN_HOSTS_OK: i32 = 1;

/// The answer with which the transport library says that the user is
/// authenticated.
pub const SSH_AUTH_SUCCESS: i32 = 0;

/// Whether the session may go on after the check of the host: only where
/// the host is known and its key unchanged.
pub fn host_is_known(answer: i32) -> (ok: bool)
    ensures
        ok == (answer == SSH_KNOWN_HOSTS_OK),
{
    answer == SSH_KNOWN_HOSTS_OK
}

/// Whether the user is authenticated: not where authentication was
/// denied, is partial, or is to be tried again.
pub fn auth_succeeded(answer: i32) -> (ok: bool)
    ensures
        ok == (answer == SSH_AUTH_SUCCESS),
{
    answer == SSH_AUTH_SUCCESS
}

/// What the transport's answer to a read of a command's output means.
#[derive(Clone, Copy, Debug, PartialEq, Eq)]
pub enum ReadStep {
    /// The read failed.
    Failed,
    /// The output has ended.
    End,
    /// This many bytes of output were read.
    Data(usize),
}

/// What the answer `answer` to a read means: a negative answer is a
/// failure, 0 the end of the output, and a positive answer the number of
/// bytes read.
pub open spec fn read_meaning(answer: i32) -> ReadStep {
    if answer < 0 {
        ReadStep::Failed
    } else if answer == 0 {
        ReadStep::End
    } else {
        ReadStep::Data(answer as usize)
    }
}

/// Judges the transport's answer to a read of a command's output.
pub fn check_read(answer: i32) -> (step: ReadStep)
    ensures
        step == read_meaning(answer),
{
    if answer < 0 {
        ReadStep::Failed
    } else if answer == 0 {
        ReadStep::End
    } else {
        ReadStep::Data(answer as usize)
    }
}

/// Why a block did not go out.
#[derive(Clone, Copy, Debug, PartialEq, Eq)]
pub enum WriteError {
    /// The transport reported a failure; the number is what it returned.
    Failed(i32),
    /// The transport took fewer bytes than it was given.
    Short { written: usize, requested: usize },
}

/// What the transport's answer to a write of `requested` bytes means.
pub open spec fn write_outcome(requested: usize, answer: i32) -> Result<usize, WriteError> {
    if answer < 0 {
        Err(WriteError::Failed(answer))
    } else if answer as usize != requested {
        Err(WriteError::Short { written: answer as usize, requested })
    } else {
        Ok(requested)
    }
}

/// Judges the transport's answer to a write of `requested` bytes: a
/// negative answer is a failure, any count but `requested` a short write.
pub fn check_write(requested: usize, answer: i32) -> (r: Result<usize, WriteError>)
    ensures
        r == write_outcome(requested, answer),
{
    if answer < 0 {
        Err(WriteError::Failed(answer))
    } else if answer as usize != requested {
        Err(WriteError::Short { written: answer as usize, requested })
    } else {
        Ok(requested)
    }
}

/// The upload of one file as its worker sees it: what it has reported to
/// the display, and how much of the file has gone out.
pub struct Uploader<'a> {
    progress: &'a Sender<Progress>,
    path: String,
    size: u64,
    sent: u64,
    reported: Ghost<Seq<Report>>,
}

impl<'a> Uploader<'a> {
    /// The local path of the file.
    pub closed spec fn path(&self) -> Seq<char> {
        self.path@
    }

    /// The size of the file when the upload began.
    pub closed spec fn size(&self) -> u64 {
        self.size
    }

    /// The number of bytes that have gone out.
    pub closed spec fn sent(&self) -> u64 {
        self.sent
    }

    /// The reports handed to the display's channel so far.
    pub closed spec fn reported(&self) -> Seq<Report> {
        self.reported@
    }

    /// Begins the upload of `path`, of `size` bytes: reports its start.
    pub fn begin(progress: &'a Sender<Progress>, path: &str, size: u64) -> (u: Self)
        ensures
            u.path() == path@,
            u.size() == size,
            u.sent() == 0,
            u.reported() == seq![Report::Start(path@, size)],
    {
        let _ = progress.send(Progress::Start(path.to_owned(), size));
        let ghost first = Seq::<Report>::empty().push(Report::Start(path@, size));
        Uploader { progress, path: path.to_owned(), size, sent: 0, reported: Ghost(first) }
    }

    /// Takes in the transport's answer to a write of `requested` bytes.
    /// Where the block went out whole it is counted and reported;
    /// otherwise nothing changes, and the error says what went wrong.
    pub fn block(&mut self, requested: usize, answer: i32) -> (r: Result<usize, WriteError>)
        ensures
            r == write_outcome(requested, answer),
            final(self).path() == old(self).path(),
            final(self).size() == old(self).size(),
            r is Ok ==> final(self).sent() == sat_add(old(self).sent(), requested as nat)
                && final(self).reported() == old(self).reported().push(Report::Part(requested)),
            r is Err ==> final(self).sent() == old(self).sent() && final(self).reported() == old(
                self,
            ).reported(),
    {
        let r = check_write(requested, answer);
        if r.is_ok() {
            self.sent = if requested as u64 > u64::MAX - self.sent {
                u64::MAX
            } else {
                self.sent + requested as u64
            };
            let _ = self.progress.send(Progress::Part(requested));
            proof {
                self.reported@ = self.reported@.push(Report::Part(requested));
            }
        }
        r
    }

    /// Ends the upload: reports its completion, and says whether as many
    /// bytes went out as the file had when the upload began.
    pub fn finish(&mut self) -> (whole: bool)
        ensures
            whole == (old(self).sent() == old(self).size()),
            final(self).path() == old(self).path(),
            final(self).size() == old(self).size(),
            final(self).sent() == old(self).sent(),
            final(self).reported() == old(self).reported().push(
                Report::Complete(old(self).path()),
            ),
    {
        let _ = self.progress.send(Progress::Complete(self.path.clone()));
        proof {
            self.reported@ = self.reported@.push(Report::Complete(self.path@));
        }
        self.sent == self.size
    }
}

/// The session of a dry run. It does nothing on any host: every operation
/// succeeds at once and is put on record, and the `would_` functions give
/// the line that says what a live session would have done.
pub struct MockSSH {
    requests: Vec<Request>,
}

impl MockSSH {
    /// A session that has been asked nothing yet.
    pub fn new() -> (mock: Self)
        ensures
            mock.is_dry(),
            mock.asked() == Seq::<Call>::empty(),
    {
        let mock = MockSSH { requests: Vec::new() };
        assert(calls(mock.requests@) =~= Seq::empty());
        mock
    }

    /// What the session was asked so far, in order.
    pub fn requests(&self) -> (v: &Vec<Request>)
        ensures
            calls(v@) == self.asked(),
    {
        &self.requests
    }

    /// Puts `request` on record.
    fn note(&mut self, request: Request)
        ensures
            final(self).asked() == old(self).asked().push(request@),
    {
        self.requests.push(request);
        assert(calls(self.requests@) =~= calls(old(self).requests@).push(request@));
    }

    /// The line for a command that would be run.
    pub fn would_run(cmd: &str) -> (line: String)
        ensures
            line@ == "would run cmd '"@ + cmd@ + "'"@,
    {
        let mut line = String::new();
        push_text(&mut line, "would run cmd '");
        push_text(&mut line, cmd);
        push_text(&mut line, "'");
        line
    }

    /// The line for a directory that would be created; the mode bits are
    /// given in octal.
    pub fn would_mkdir(dir: &str, perms: u32) -> (line: String)
        ensures
            line@ == "would mkdir "@ + dir@ + " with perms "@ + octal(perms as nat),
    {
        let mut line = String::new();
        push_text(&mut line, "would mkdir ");
        push_text(&mut line, dir);
        push_text(&mut line, " with perms ");
        push_octal(&mut line, perms);
        line
    }

    /// The line for a file that would be uploaded.
    pub fn would_upload(src: &str, dst: &str) -> (line: String)
        ensures
            line@ == "would upload "@ + src@ + " -> "@ + dst@,
    {
        let mut line = String::new();
        push_text(&mut line, "would upload ");
        push_text(&mut line, src);
        push_text(&mut line, " -> ");
        push_text(&mut line, dst);
        line
    }

    /// The line for a remote file that would be deleted.
    pub fn would_delete(path: &str) -> (line: String)
        ensures
            line@ == "would delete "@ + path@,
    {
        let mut line = String::new();
        push_text(&mut line, "would delete ");
        push_text(&mut line, path);
        line
    }
}

impl Remote for MockSSH {
    open spec fn is_dry(&self) -> bool {
        true
    }

    closed spec fn asked(&self) -> Seq<Call> {
        calls(self.requests@)
    }

    fn run_remote_cmd(&mut self, cmd: &str) -> (r: Result<(String, i32), anyhow::Error>) {
        self.note(Request::Run { cmd: cmd.to_owned() });
        Ok((String::new(), 0))
    }

    fn mkdir(&mut self, dir: &str, perms: u32) -> (r: Result<(), anyhow::Error>) {
        self.note(Request::Mkdir { dir: dir.to_owned(), perms });
        Ok(())
    }

    fn upload(&mut self, src: &str, dst: &str) -> (r: Result<(), anyhow::Error>) {
        self.note(Request::Upload { src: src.to_owned(), dst: dst.to_owned() });
        Ok(())
    }

    fn upload_bytes(&mut self, src_bytes: &[u8], dst: &str) -> (r: Result<(), anyhow::Error>) {
        let bytes = vstd::slice::slice_to_vec(src_bytes);
        self.note(Request::UploadBytes { bytes, dst: dst.to_owned() });
        Ok(())
    }

    fn delete(&mut self, path: &str) -> (r: Result<(), anyhow::Error>) {
        self.note(Request::Delete { path: path.to_owned() });
        Ok(())
    }
}

} // verus!
