//! What the synchronisation needs of a session with the remote host, and
//! what a session is asked to do.

use vstd::prelude::*;

verus! {

/// The error of the `anyhow` crate, in which a session reports what went
/// wrong. Nothing is known of what it holds.
#[verifier::external_type_specification]
#[verifier::external_body]
pub struct ExAnyhowError(anyhow::Error);

/// One thing that a session is asked to do, as contracts see it.
pub enum Call {
    /// Run this command.
    Run(Seq<char>),
    /// Create this directory with these mode bits.
    Mkdir(Seq<char>, u32),
    /// Upload this local file to this remote path.
    Upload(Seq<char>, Seq<char>),
    /// Write these bytes to this remote path.
    UploadBytes(Seq<u8>, Seq<char>),
    /// Delete this remote file.
    Delete(Seq<char>),
}

/// One thing that a session was asked to do, as a record keeps it.
#[derive(Debug, PartialEq, Eq)]
pub enum Request {
    Run { cmd: String },
    Mkdir { dir: String, perms: u32 },
    Upload { src: String, dst: String },
    UploadBytes { bytes: Vec<u8>, dst: String },
    Delete { path: String },
}

impl View for Request {
    type V = Call;

    open spec fn view(&self) -> Call {
        match self {
            Request::Run { cmd } => Call::Run(cmd@),
            Request::Mkdir { dir, perms } => Call::Mkdir(dir@, *perms),
            Request::Upload { src, dst } => Call::Upload(src@, dst@),
            Request::UploadBytes { bytes, dst } => Call::UploadBytes(bytes@, dst@),
            Request::Delete { path } => Call::Delete(path@),
        }
    }
}

/// What a record of requests holds.
pub open spec fn calls(v: Seq<Request>) -> Seq<Call> {
    Seq::new(v.len(), |i: int| v[i]@)
}

/// A session with the remote host.
///
/// Of a live session nothing is promised: what comes back from the host
/// decides. Of the session of a dry run everything is: it succeeds in
/// whatever it is asked, and its record grows by what it was asked.
pub trait Remote {
    /// Whether this is the session of a dry run. A session is none unless
    /// it says so.
    open spec fn is_dry(&self) -> bool {
        false
    }

    /// What the session of a dry run was asked so far, in order.
    open spec fn asked(&self) -> Seq<Call> {
        Seq::empty()
    }

    /// Runs `cmd` on the remote host and returns what it wrote to its
    /// standard output, with its exit status: 0 on success, positive where
    /// the command reports an error, negative where the session failed.
    /// In a dry run nothing runs: the output is empty and the status 0.
    fn run_remote_cmd(&mut self, cmd: &str) -> (r: Result<(String, i32), anyhow::Error>)
        ensures
            old(self).is_dry() ==> {
                &&& final(self).is_dry()
                &&& final(self).asked() == old(self).asked().push(Call::Run(cmd@))
                &&& r is Ok
                &&& r->Ok_0.0@ == Seq::<char>::empty()
                &&& r->Ok_0.1 == 0
            },
    ;

    /// Creates the remote directory `dir` with the mode bits `perms`. It is
    /// no error if the directory exists.
    fn mkdir(&mut self, dir: &str, perms: u32) -> (r: Result<(), anyhow::Error>)
        ensures
            old(self).is_dry() ==> {
                &&& final(self).is_dry()
                &&& final(self).asked() == old(self).asked().push(Call::Mkdir(dir@, perms))
                &&& r is Ok
            },
    ;

    /// Uploads the local file `src` to the remote path `dst`, which is
    /// created or overwritten.
    fn upload(&mut self, src: &str, dst: &str) -> (r: Result<(), anyhow::Error>)
        ensures
            old(self).is_dry() ==> {
                &&& final(self).is_dry()
                &&& final(self).asked() == old(self).asked().push(Call::Upload(src@, dst@))
                &&& r is Ok
            },
    ;

    /// Writes `src_bytes` to the remote path `dst` in one go, without
    /// reports of progress.
    fn upload_bytes(&mut self, src_bytes: &[u8], dst: &str) -> (r: Result<(), anyhow::Error>)
        ensures
            old(self).is_dry() ==> {
                &&& final(self).is_dry()
                &&& final(self).asked() == old(self).asked().push(
                    Call::UploadBytes(src_bytes@, dst@),
                )
                &&& r is Ok
            },
    ;

    /// Deletes the remote file `path`. It is an error if there is none.
    fn delete(&mut self, path: &str) -> (r: Result<(), anyhow::Error>)
        ensures
            old(self).is_dry() ==> {
                &&& final(self).is_dry()
                &&& final(self).asked() == old(self).asked().push(Call::Delete(path@))
                &&& r is Ok
            },
    ;
}

} // verus!
