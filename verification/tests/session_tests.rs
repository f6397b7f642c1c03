use rcple::manifest::Manifest;
use rcple::output::{Aggregator, Render};
use rcple::progress_message::Progress;
use rcple::reconcile::reconcile;
use rcple::remote::{Remote, Request};
use rcple::schedule::{carry_out, perform, schedule, Action};
use rcple::schedule::would;
use rcple::ssh::{
    auth_succeeded, check_read, check_write, host_is_known, mkdir_done, LogLevel, MockSSH,
    ReadStep, Uploader, WriteError, DIR_MODE, SFTP_CHUNK_SIZE,
};
use rcple::ssh_manager::{do_job, upload_worker, SSHManager};
use std::cell::RefCell;
use std::rc::Rc;

/// A session that notes what it is asked to do, and fails where told to.
struct Noting {
    log: Rc<RefCell<Vec<String>>>,
    fail_on: Option<String>,
}

impl Noting {
    fn note(&self, what: String) -> Result<(), anyhow::Error> {
        let fails = self.fail_on.as_ref() == Some(&what);
        self.log.borrow_mut().push(what);
        if fails {
            Err(anyhow::Error::msg("refused"))
        } else {
            Ok(())
        }
    }
}

impl Remote for Noting {
    fn run_remote_cmd(&mut self, cmd: &str) -> Result<(String, i32), anyhow::Error> {
        self.note(format!("run {}", cmd))?;
        Ok(("a.txt:5\n".to_string(), 0))
    }

    fn mkdir(&mut self, dir: &str, perms: u32) -> Result<(), anyhow::Error> {
        self.note(format!("mkdir {} {:o}", dir, perms))
    }

    fn upload(&mut self, src: &str, dst: &str) -> Result<(), anyhow::Error> {
        self.note(format!("upload {} {}", src, dst))
    }

    fn upload_bytes(&mut self, src_bytes: &[u8], dst: &str) -> Result<(), anyhow::Error> {
        self.note(format!("upload_bytes {} {}", src_bytes.len(), dst))
    }

    fn delete(&mut self, path: &str) -> Result<(), anyhow::Error> {
        self.note(format!("delete {}", path))
    }
}

/// A worker's session that uploads nothing and reports as a live one does.
struct Reporting {
    progress: crossbeam_channel::Sender<Progress>,
}

impl Remote for Reporting {
    fn run_remote_cmd(&mut self, _cmd: &str) -> Result<(String, i32), anyhow::Error> {
        Ok((String::new(), 0))
    }

    fn mkdir(&mut self, _dir: &str, _perms: u32) -> Result<(), anyhow::Error> {
        Ok(())
    }

    fn upload(&mut self, src: &str, _dst: &str) -> Result<(), anyhow::Error> {
        let mut upload = Uploader::begin(&self.progress, src, 10);
        assert_eq!(upload.block(4, 4), Ok(4));
        assert_eq!(upload.block(6, 6), Ok(6));
        assert!(upload.finish());
        Ok(())
    }

    fn upload_bytes(&mut self, _src_bytes: &[u8], _dst: &str) -> Result<(), anyhow::Error> {
        Ok(())
    }

    fn delete(&mut self, _path: &str) -> Result<(), anyhow::Error> {
        Ok(())
    }
}

fn one_pending_upload() -> Vec<Action> {
    let mut local = Manifest::new();
    local.insert("dir/b.txt".to_string(), 7, Some(2000));
    let plan = reconcile(&local, &Manifest::new());
    schedule(&plan, "/nowhere/src/", "/nowhere/dst/")
}

#[test]
fn log_levels_have_the_numbers_of_the_library() {
    assert_eq!(LogLevel::NOLOG.code(), 0);
    assert_eq!(LogLevel::WARNING.code(), 1);
    assert_eq!(LogLevel::PROTOCOL.code(), 2);
    assert_eq!(LogLevel::PACKET.code(), 3);
    assert_eq!(LogLevel::FUNCTIONS.code(), 4);
}

#[test]
fn chunk_is_tens_of_kib() {
    assert_eq!(SFTP_CHUNK_SIZE, 65536);
    assert_eq!(DIR_MODE, 0o755);
}

#[test]
fn short_write_is_an_error() {
    assert_eq!(check_write(65536, 65536), Ok(65536));
    assert_eq!(check_write(0, 0), Ok(0));
    assert_eq!(check_write(65536, 100), Err(WriteError::Short { written: 100, requested: 65536 }));
    assert_eq!(check_write(10, 11), Err(WriteError::Short { written: 11, requested: 10 }));
    assert_eq!(check_write(65536, -1), Err(WriteError::Failed(-1)));
    assert_eq!(check_write(0, -5), Err(WriteError::Failed(-5)));
}

#[test]
fn session_goes_on_only_with_a_known_host_and_an_authenticated_user() {
    assert!(host_is_known(1));
    for answer in [-2, -1, 0, 2, 3] {
        assert!(!host_is_known(answer));
    }
    assert!(auth_succeeded(0));
    for answer in [-1, 1, 2, 3, 4] {
        assert!(!auth_succeeded(answer));
    }
}

#[test]
fn read_of_output_fails_ends_or_gives_data() {
    assert_eq!(check_read(-1), ReadStep::Failed);
    assert_eq!(check_read(0), ReadStep::End);
    assert_eq!(check_read(1024), ReadStep::Data(1024));
}

#[test]
fn dry_run_words_each_action() {
    let made = Action::MakeDirectory { path: "/d/x".to_string(), mode: 0o755 };
    let sent = Action::Upload { src: "/s/x/a".to_string(), dst: "/d/x/a".to_string() };
    let gone = Action::Delete { path: "/d/old".to_string() };
    assert_eq!(would(&made), "would mkdir /d/x with perms 755");
    assert_eq!(would(&sent), "would upload /s/x/a -> /d/x/a");
    assert_eq!(would(&gone), "would delete /d/old");
}

#[test]
fn nothing_to_carry_out_succeeds() {
    let mut session = Noting { log: Rc::new(RefCell::new(Vec::new())), fail_on: None };
    assert!(carry_out(&mut session, &Vec::new()).is_ok());
    assert!(session.log.borrow().is_empty());
}

#[test]
fn existing_directory_is_no_error() {
    assert!(mkdir_done(true, 0));
    assert!(mkdir_done(false, 11));
    assert!(!mkdir_done(false, 4));
    assert!(!mkdir_done(false, 2));
}

#[test]
fn mock_says_what_it_would_do() {
    assert_eq!(
        MockSSH::would_run("/tmp/rcple-h /var/www/"),
        "would run cmd '/tmp/rcple-h /var/www/'"
    );
    assert_eq!(
        MockSSH::would_mkdir("/var/www/dir", 0o755),
        "would mkdir /var/www/dir with perms 755"
    );
    assert_eq!(MockSSH::would_mkdir("d", 0), "would mkdir d with perms 0");
    assert_eq!(MockSSH::would_mkdir("d", 0o700), "would mkdir d with perms 700");
    assert_eq!(MockSSH::would_upload("/a/b", "/c/d"), "would upload /a/b -> /c/d");
    assert_eq!(MockSSH::would_delete("/c/old"), "would delete /c/old");
}

#[test]
fn mock_succeeds_without_doing_anything() {
    let mut mock = MockSSH::new();
    let (output, status) = mock.run_remote_cmd("anything").unwrap();
    assert_eq!(output, "");
    assert_eq!(status, 0);
    assert!(mock.mkdir("/nowhere/at/all", 0o755).is_ok());
    assert!(mock.upload("/nowhere/src", "/nowhere/dst").is_ok());
    assert!(mock.upload_bytes(b"bytes", "/nowhere/dst").is_ok());
    assert!(mock.delete("/nowhere/dst").is_ok());
    assert_eq!(
        mock.requests(),
        &vec![
            Request::Run { cmd: "anything".to_string() },
            Request::Mkdir { dir: "/nowhere/at/all".to_string(), perms: 0o755 },
            Request::Upload { src: "/nowhere/src".to_string(), dst: "/nowhere/dst".to_string() },
            Request::UploadBytes { bytes: b"bytes".to_vec(), dst: "/nowhere/dst".to_string() },
            Request::Delete { path: "/nowhere/dst".to_string() },
        ]
    );
}

#[test]
fn dry_run_reports_the_upload_and_touches_nothing() {
    let (jobs_in, jobs_out) = crossbeam_channel::unbounded::<(String, String)>();
    let log = Rc::new(RefCell::new(Vec::new()));
    let live = SSHManager::new(Box::new(Noting { log: log.clone(), fail_on: None }), jobs_in);
    assert!(!live.dry_run());
    let mut manager = live.switch_to_dry_run();
    assert!(manager.dry_run());
    // the queue of the workers is closed and empty: the drain is clean
    assert!(jobs_out.recv().is_err());
    let actions = one_pending_upload();
    assert_eq!(
        actions,
        vec![
            Action::MakeDirectory { path: "/nowhere/dst/dir".to_string(), mode: 0o755 },
            Action::Upload {
                src: "/nowhere/src/dir/b.txt".to_string(),
                dst: "/nowhere/dst/dir/b.txt".to_string()
            },
        ]
    );
    assert!(manager.requests().unwrap().is_empty());
    assert!(carry_out(&mut manager, &actions).is_ok());
    // the live session was asked for nothing, and nothing was queued
    assert!(log.borrow().is_empty());
    assert_eq!(manager.uploads_queued(), 0);
    // the session of the dry run has the intended operations on record
    assert_eq!(
        manager.requests().unwrap(),
        &vec![
            Request::Mkdir { dir: "/nowhere/dst/dir".to_string(), perms: 0o755 },
            Request::Upload {
                src: "/nowhere/src/dir/b.txt".to_string(),
                dst: "/nowhere/dst/dir/b.txt".to_string()
            },
        ]
    );
    assert_eq!(
        MockSSH::would_upload("/nowhere/src/dir/b.txt", "/nowhere/dst/dir/b.txt"),
        "would upload /nowhere/src/dir/b.txt -> /nowhere/dst/dir/b.txt"
    );
    manager.stop();
}

#[test]
fn live_manager_queues_uploads_and_does_the_rest_itself() {
    let (jobs_in, jobs_out) = crossbeam_channel::unbounded::<(String, String)>();
    let log = Rc::new(RefCell::new(Vec::new()));
    let noting = Noting { log: log.clone(), fail_on: None };
    let mut manager = SSHManager::new(Box::new(noting), jobs_in);
    assert!(carry_out(&mut manager, &one_pending_upload()).is_ok());
    assert_eq!(manager.uploads_queued(), 1);
    assert!(manager.requests().is_none());
    assert!(!manager.dry_run());
    assert!(manager.upload_bytes(b"agent", "/tmp/rcple-h").is_ok());
    assert!(manager.delete("/nowhere/dst/old").is_ok());
    let (output, status) = manager.run_remote_cmd("/tmp/rcple-h /nowhere/dst/").unwrap();
    assert_eq!((output.as_str(), status), ("a.txt:5\n", 0));
    assert_eq!(
        *log.borrow(),
        vec![
            "mkdir /nowhere/dst/dir 755".to_string(),
            "upload_bytes 5 /tmp/rcple-h".to_string(),
            "delete /nowhere/dst/old".to_string(),
            "run /tmp/rcple-h /nowhere/dst/".to_string(),
        ]
    );
    assert_eq!(
        jobs_out.try_recv(),
        Ok(("/nowhere/src/dir/b.txt".to_string(), "/nowhere/dst/dir/b.txt".to_string()))
    );
    assert!(jobs_out.try_recv().is_err());
    manager.stop();
    assert!(jobs_out.recv().is_err());
}

#[test]
fn upload_fails_once_the_workers_are_gone() {
    let (jobs_in, jobs_out) = crossbeam_channel::unbounded::<(String, String)>();
    let mut manager = SSHManager::new(Box::new(MockSSH::new()), jobs_in);
    drop(jobs_out);
    assert!(manager.upload("/a", "/b").is_err());
    assert_eq!(manager.uploads_queued(), 0);
    assert!(manager.mkdir("/b", 0o755).is_ok());
}

#[test]
fn carrying_out_stops_at_the_first_failure() {
    let log = Rc::new(RefCell::new(Vec::new()));
    let mut session = Noting { log: log.clone(), fail_on: Some("upload s/b d/b".to_string()) };
    let actions = vec![
        Action::MakeDirectory { path: "d".to_string(), mode: 0o755 },
        Action::Upload { src: "s/a".to_string(), dst: "d/a".to_string() },
        Action::Upload { src: "s/b".to_string(), dst: "d/b".to_string() },
        Action::Delete { path: "d/c".to_string() },
    ];
    let failed = carry_out(&mut session, &actions).unwrap_err();
    assert_eq!(failed.0, 2);
    assert_eq!(failed.1.to_string(), "refused");
    assert_eq!(log.borrow().len(), 3);
    assert!(perform(&mut session, &actions[3]).is_ok());
    assert_eq!(log.borrow()[3], "delete d/c");
}

#[test]
fn uploader_reports_start_blocks_and_completion() {
    let (reports_in, reports_out) = crossbeam_channel::unbounded::<Progress>();
    let mut upload = Uploader::begin(&reports_in, "/src/a", 10);
    assert_eq!(upload.block(4, 4), Ok(4));
    assert_eq!(upload.block(6, 3), Err(WriteError::Short { written: 3, requested: 6 }));
    assert_eq!(upload.block(6, -1), Err(WriteError::Failed(-1)));
    assert_eq!(upload.block(5, 5), Ok(5));
    assert!(!upload.finish());
    drop(reports_in);
    let got: Vec<Progress> = reports_out.iter().collect();
    assert_eq!(
        got,
        vec![
            Progress::Start("/src/a".to_string(), 10),
            Progress::Part(4),
            Progress::Part(5),
            Progress::Complete("/src/a".to_string()),
        ]
    );
}

#[test]
fn after_the_drain_every_upload_is_complete() {
    let (jobs_in, jobs_out) = crossbeam_channel::unbounded::<(String, String)>();
    let (reports_in, reports_out) = crossbeam_channel::unbounded::<Progress>();
    let mut manager = SSHManager::new(Box::new(MockSSH::new()), jobs_in);
    let names = ["a", "b/c", "b/d", "e", "f/g/h"];
    for name in names {
        assert!(manager.upload(&format!("/src/{}", name), &format!("/dst/{}", name)).is_ok());
    }
    let enqueued = manager.uploads_queued();
    assert_eq!(enqueued, names.len() as u64);
    // the drain: the queue is closed, and the worker runs until it is empty
    manager.stop();
    let mut worker = Reporting { progress: reports_in };
    assert_eq!(upload_worker(&mut worker, &jobs_out).unwrap(), names.len() as u64);
    drop(worker);

    let mut display = Aggregator::new(names.len(), 10 * names.len() as u64);
    let mut completions = 0;
    for report in reports_out.iter() {
        if matches!(report, Progress::Complete(_)) {
            completions += 1;
        }
        assert_ne!(display.step(report), Render::Stray);
    }
    assert_eq!(completions as u64, enqueued);
    assert_eq!(display.files_done(), enqueued);
    assert_eq!(display.bytes_done(), 50);
    assert_eq!(display.in_flight(), 0);
}

#[test]
fn worker_gives_up_at_the_first_failed_upload() {
    let (jobs_in, jobs_out) = crossbeam_channel::unbounded::<(String, String)>();
    let log = Rc::new(RefCell::new(Vec::new()));
    let mut session = Noting { log: log.clone(), fail_on: Some("upload s2 d2".to_string()) };
    for n in 1..=3 {
        jobs_in.send((format!("s{}", n), format!("d{}", n))).unwrap();
    }
    drop(jobs_in);
    assert!(upload_worker(&mut session, &jobs_out).is_err());
    assert_eq!(*log.borrow(), vec!["upload s1 d1".to_string(), "upload s2 d2".to_string()]);
}

#[test]
fn worker_of_a_dry_run_puts_each_job_on_record() {
    let (jobs_in, jobs_out) = crossbeam_channel::unbounded::<(String, String)>();
    for n in 1..=3 {
        jobs_in.send((format!("s{}", n), format!("d{}", n))).unwrap();
    }
    drop(jobs_in);
    let mut mock = MockSSH::new();
    assert!(mock.mkdir("d", 0o755).is_ok());
    assert_eq!(upload_worker(&mut mock, &jobs_out).unwrap(), 3);
    assert_eq!(
        mock.requests(),
        &vec![
            Request::Mkdir { dir: "d".to_string(), perms: 0o755 },
            Request::Upload { src: "s1".to_string(), dst: "d1".to_string() },
            Request::Upload { src: "s2".to_string(), dst: "d2".to_string() },
            Request::Upload { src: "s3".to_string(), dst: "d3".to_string() },
        ]
    );
}

#[test]
fn worker_does_one_job_or_none() {
    let mut mock = MockSSH::new();
    assert_eq!(do_job(&mut mock, None).unwrap(), false);
    assert!(mock.requests().is_empty());
    assert_eq!(do_job(&mut mock, Some(("s".to_string(), "d".to_string()))).unwrap(), true);
    assert_eq!(
        mock.requests(),
        &vec![Request::Upload { src: "s".to_string(), dst: "d".to_string() }]
    );
    let log = Rc::new(RefCell::new(Vec::new()));
    let mut failing = Noting { log: log.clone(), fail_on: Some("upload s d".to_string()) };
    assert!(do_job(&mut failing, Some(("s".to_string(), "d".to_string()))).is_err());
    assert!(do_job(&mut failing, None).is_ok());
    assert_eq!(log.borrow().len(), 1);
}

#[test]
fn carrying_out_on_a_dry_session_records_every_action_in_order() {
    let actions = vec![
        Action::MakeDirectory { path: "d".to_string(), mode: 0o755 },
        Action::Upload { src: "s/a".to_string(), dst: "d/a".to_string() },
        Action::Delete { path: "d/c".to_string() },
    ];
    let mut mock = MockSSH::new();
    assert!(carry_out(&mut mock, &actions).is_ok());
    assert!(perform(&mut mock, &actions[1]).is_ok());
    assert_eq!(
        mock.requests(),
        &vec![
            Request::Mkdir { dir: "d".to_string(), perms: 0o755 },
            Request::Upload { src: "s/a".to_string(), dst: "d/a".to_string() },
            Request::Delete { path: "d/c".to_string() },
            Request::Upload { src: "s/a".to_string(), dst: "d/a".to_string() },
        ]
    );
}
