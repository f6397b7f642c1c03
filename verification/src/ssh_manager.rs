//! The manager of a run's sessions: one session for commands, directories
//! and deletions, and a queue from which the upload workers take their
//! jobs; or, in a dry run, the one session that only says what it would do.

use crate::channel::queue_error;
use crate::output::sat_add;
use crate::remote::{calls, Call, Remote, Request};
use crate::ssh::MockSSH;
use crossbeam_channel::{Receiver, Sender};
use vstd::prelude::*;

verus! {

/// The number of upload workers of a run that is not told otherwise.
pub const NUM_UPLOAD_WORKERS: usize = 4;

/// What a manager works with.
enum Transport {
    /// The control session of a live run, and the producer side of the
    /// workers' queue.
    Live { primary: Box<dyn Remote>, upload_sender: Sender<(String, String)> },
    /// The one session of a dry run.
    Dry { mock: MockSSH },
}

/// The manager of a run's sessions.
pub struct SSHManager {
    transport: Transport,
    queued: Ghost<Seq<(Seq<char>, Seq<char>)>>,
    queued_count: u64,
}

impl SSHManager {
    /// Whether this is a dry run: there is no queue and no live session,
    /// only the session that puts on record what it is asked.
    pub closed spec fn is_dry_run(&self) -> bool {
        self.transport is Dry
    }

    /// The uploads that the queue of the workers has taken so far, each
    /// with its local file and its remote path, in order.
    pub closed spec fn queued(&self) -> Seq<(Seq<char>, Seq<char>)> {
        self.queued@
    }

    /// The number of uploads that the queue of the workers has taken so
    /// far, as the manager counts them: up to the largest `u64`.
    pub closed spec fn queued_count(&self) -> u64 {
        self.queued_count
    }

    /// A manager of a live run: `primary` is the control session, and
    /// `upload_sender` the producer side of the workers' queue, which has
    /// taken nothing yet.
    pub fn new(primary: Box<dyn Remote>, upload_sender: Sender<(String, String)>) -> (m: Self)
        ensures
            !m.is_dry_run(),
            m.queued() == Seq::<(Seq<char>, Seq<char>)>::empty(),
            m.queued_count() == 0,
    {
        SSHManager {
            transport: Transport::Live { primary, upload_sender },
            queued: Ghost(Seq::empty()),
            queued_count: 0,
        }
    }

    /// The number of uploads that the queue of the workers has taken so
    /// far.
    pub fn uploads_queued(&self) -> (n: u64)
        ensures
            n == self.queued_count(),
    {
        self.queued_count
    }

    /// Whether this is a dry run.
    pub fn dry_run(&self) -> (b: bool)
        ensures
            b == self.is_dry_run(),
    {
        match &self.transport {
            Transport::Live { .. } => false,
            Transport::Dry { .. } => true,
        }
    }

    /// What the session of a dry run was asked so far, in order; nothing
    /// in a live run.
    pub fn requests(&self) -> (v: Option<&Vec<Request>>)
        ensures
            match v {
                Some(list) => self.is_dry_run() && calls(list@) == self.asked(),
                None => !self.is_dry_run(),
            },
    {
        match &self.transport {
            Transport::Live { .. } => None,
            Transport::Dry { mock } => Some(mock.requests()),
        }
    }

    /// Ends the live run and hands back the manager of a dry run, whose
    /// session has been asked nothing yet. The queue of the workers is
    /// closed by this; whoever started them joins them.
    pub fn switch_to_dry_run(self) -> (m: Self)
        ensures
            m.is_dry_run(),
            m.asked() == Seq::<Call>::empty(),
            m.queued() == Seq::<(Seq<char>, Seq<char>)>::empty(),
            m.queued_count() == 0,
    {
        self.stop();
        SSHManager {
            transport: Transport::Dry { mock: MockSSH::new() },
            queued: Ghost(Seq::empty()),
            queued_count: 0,
        }
    }

    /// Closes the queue of the workers: each of them ends once it has
    /// carried out the jobs that are queued. Whoever started them joins
    /// them after this call.
    pub fn stop(self) {
        // the queue is closed once its sender is gone, and the sender goes
        // with the manager
        let SSHManager { transport: _, queued: _, queued_count: _ } = self;
    }

    /// Waits until the uploads are done: the same as [`SSHManager::stop`].
    pub fn wait_for_done(self) {
        self.stop()
    }
}

impl Remote for SSHManager {
    open spec fn is_dry(&self) -> bool {
        self.is_dry_run()
    }

    closed spec fn asked(&self) -> Seq<Call> {
        match self.transport {
            Transport::Live { .. } => Seq::empty(),
            Transport::Dry { mock } => mock.asked(),
        }
    }

    /// Runs the command on the control session; in a dry run, on the one
    /// session.
    fn run_remote_cmd(&mut self, cmd: &str) -> (r: Result<(String, i32), anyhow::Error>)
        ensures
            final(self).is_dry_run() == old(self).is_dry_run(),
            final(self).queued() == old(self).queued(),
            final(self).queued_count() == old(self).queued_count(),
    {
        match &mut self.transport {
            Transport::Live { primary, .. } => primary.run_remote_cmd(cmd),
            Transport::Dry { mock } => mock.run_remote_cmd(cmd),
        }
    }

    /// Creates the directory on the control session; in a dry run, on the
    /// one session.
    fn mkdir(&mut self, dir: &str, perms: u32) -> (r: Result<(), anyhow::Error>)
        ensures
            final(self).is_dry_run() == old(self).is_dry_run(),
            final(self).queued() == old(self).queued(),
            final(self).queued_count() == old(self).queued_count(),
    {
        match &mut self.transport {
            Transport::Live { primary, .. } => primary.mkdir(dir, perms),
            Transport::Dry { mock } => mock.mkdir(dir, perms),
        }
    }

    /// Deletes the file on the control session; in a dry run, on the one
    /// session.
    fn delete(&mut self, path: &str) -> (r: Result<(), anyhow::Error>)
        ensures
            final(self).is_dry_run() == old(self).is_dry_run(),
            final(self).queued() == old(self).queued(),
            final(self).queued_count() == old(self).queued_count(),
    {
        match &mut self.transport {
            Transport::Live { primary, .. } => primary.delete(path),
            Transport::Dry { mock } => mock.delete(path),
        }
    }

    /// Uploads on the control session, not through the queue: this is for
    /// staging the agent, which has to be there before anything is queued.
    /// In a dry run, uploads on the one session.
    fn upload_bytes(&mut self, src_bytes: &[u8], dst: &str) -> (r: Result<(), anyhow::Error>)
        ensures
            final(self).is_dry_run() == old(self).is_dry_run(),
            final(self).queued() == old(self).queued(),
            final(self).queued_count() == old(self).queued_count(),
    {
        match &mut self.transport {
            Transport::Live { primary, .. } => primary.upload_bytes(src_bytes, dst),
            Transport::Dry { mock } => mock.upload_bytes(src_bytes, dst),
        }
    }

    /// In a live run, hands the upload to the queue of the workers and
    /// returns at once; the queue takes it unless no worker is left. In a
    /// dry run, hands the upload to the one session, and nothing to a
    /// queue.
    fn upload(&mut self, src: &str, dst: &str) -> (r: Result<(), anyhow::Error>)
        ensures
            final(self).is_dry_run() == old(self).is_dry_run(),
            !old(self).is_dry_run() && r is Ok ==> final(self).queued() == old(self).queued().push(
                (src@, dst@),
            ) && final(self).queued_count() == sat_add(old(self).queued_count(), 1),
            old(self).is_dry_run() || r is Err ==> final(self).queued() == old(self).queued()
                && final(self).queued_count() == old(self).queued_count(),
    {
        match &mut self.transport {
            Transport::Live { upload_sender, .. } => {
                match upload_sender.send((src.to_owned(), dst.to_owned())) {
                    Ok(()) => {
                        if self.queued_count < u64::MAX {
                            self.queued_count = self.queued_count + 1;
                        }
                        proof {
                            self.queued@ = self.queued@.push((src@, dst@));
                        }
                        Ok(())
                    },
                    Err(e) => Err(queue_error(e)),
                }
            },
            Transport::Dry { mock } => mock.upload(src, dst),
        }
    }
}

/// Whether `now` is `before` with `n` more calls behind it, each of them an
/// upload.
pub open spec fn grown_by_uploads(before: Seq<Call>, now: Seq<Call>, n: nat) -> bool {
    &&& now.len() == before.len() + n
    &&& now.take(before.len() as int) == before
    &&& forall|i: int| before.len() <= i < now.len() ==> #[trigger] now[i] is Upload
}

/// What an upload worker does with what came from its queue: it uploads
/// the job over `session` and says whether there was one. Without a job,
/// the queue being closed and empty, it does nothing. The session of a dry
/// run fails in no upload, and puts it on record.
pub fn do_job<R: Remote>(session: &mut R, job: Option<(String, String)>) -> (r: Result<
    bool,
    anyhow::Error,
>)
    ensures
        job is None ==> r is Ok && r->Ok_0 == false && *final(session) == *old(session),
        job is Some ==> (r is Ok ==> r->Ok_0 == true),
        job is Some && old(session).is_dry() ==> {
            &&& final(session).is_dry()
            &&& final(session).asked() == old(session).asked().push(
                Call::Upload((job->0).0@, (job->0).1@),
            )
            &&& r is Ok
        },
{
    match job {
        None => Ok(false),
        Some((src, dst)) => {
            match session.upload(src.as_str(), dst.as_str()) {
                Ok(()) => Ok(true),
                Err(e) => Err(e),
            }
        },
    }
}

/// The work of one upload worker: takes jobs from the queue and does each
/// as [`do_job`] says, until the queue is closed and empty, an upload
/// fails, or no more uploads can be counted. Returns the number of uploads
/// done, or the error of the one that failed. A session of a dry run fails
/// in none, and has on record one upload for each job taken.
pub fn upload_worker<R: Remote>(session: &mut R, jobs: &Receiver<(String, String)>) -> (r: Result<
    u64,
    anyhow::Error,
>)
    ensures
        old(session).is_dry() ==> {
            &&& final(session).is_dry()
            &&& r is Ok
            &&& grown_by_uploads(old(session).asked(), final(session).asked(), r->Ok_0 as nat)
        },
{
    let mut done: u64 = 0;
    assert(session.asked().take(session.asked().len() as int) =~= session.asked());
    while done < u64::MAX
        invariant
            old(session).is_dry() ==> session.is_dry() && grown_by_uploads(
                old(session).asked(),
                session.asked(),
                done as nat,
            ),
        decreases u64::MAX - done,
    {
        let job = match jobs.recv() {
            Ok(job) => Some(job),
            Err(_) => None,
        };
        let ghost before = session.asked();
        match do_job(session, job) {
            Ok(true) => {
                done += 1;
                proof {
                    if old(session).is_dry() {
                        let start = old(session).asked();
                        let now = session.asked();
                        assert(now == before.push(Call::Upload((job->0).0@, (job->0).1@)));
                        assert(now.take(start.len() as int) =~= before.take(start.len() as int));
                        assert forall|i: int| start.len() <= i < now.len() implies (
                        #[trigger] now[i]) is Upload by {
                            if i < before.len() {
                                assert(now[i] == before[i]);
                            }
                        }
                    }
                }
            },
            Ok(false) => {
                return Ok(done);
            },
            Err(e) => {
                return Err(e);
            },
        }
    }
    Ok(done)
}

} // verus!
