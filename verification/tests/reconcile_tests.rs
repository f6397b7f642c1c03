use rcple::manifest::Manifest;
use rcple::reconcile::{reconcile, SyncPlan};
use rcple::schedule::{schedule, Action};

fn manifest_of(entries: &[(&str, u32, Option<u64>)]) -> Manifest {
    let mut m = Manifest::new();
    for (key, checksum, size) in entries {
        m.insert(key.to_string(), *checksum, *size);
    }
    m
}

fn sorted(v: &Vec<String>) -> Vec<String> {
    let mut s = v.clone();
    s.sort();
    s
}

fn strings(v: &[&str]) -> Vec<String> {
    v.iter().map(|s| s.to_string()).collect()
}

fn assert_empty(plan: &SyncPlan) {
    assert!(plan.uploads().is_empty());
    assert!(plan.directories().is_empty());
    assert!(plan.deletions().is_empty());
    assert_eq!(plan.upload_bytes(), 0);
    assert!(plan.is_empty());
}

#[test]
fn manifest_records_and_replaces() {
    let mut m = Manifest::new();
    assert!(m.is_empty());
    m.insert("a".to_string(), 1, Some(10));
    m.insert("b".to_string(), 2, None);
    m.insert("a".to_string(), 3, Some(30));
    assert_eq!(m.len(), 2);
    assert_eq!(m.get("a").unwrap().checksum, 3);
    assert_eq!(m.get("a").unwrap().size, Some(30));
    assert_eq!(m.get("b").unwrap().size, None);
    assert!(m.get("c").is_none());
    assert!(m.contains_key("b"));
    assert!(!m.contains_key("B"));
    assert_eq!(m.key_at(0), "a");
    assert_eq!(m.key_at(1), "b");
}

#[test]
fn new_changed_and_vanished_files() {
    // local has a.txt(crc=5), dir/b.txt(crc=7); remote has a.txt(crc=5), old.txt(crc=9)
    let local = manifest_of(&[("a.txt", 5, Some(100)), ("dir/b.txt", 7, Some(2000))]);
    let remote = manifest_of(&[("a.txt", 5, None), ("old.txt", 9, None)]);
    let plan = reconcile(&local, &remote);
    assert_eq!(plan.uploads(), &strings(&["dir/b.txt"]));
    assert_eq!(plan.directories(), &strings(&["dir"]));
    assert_eq!(plan.deletions(), &strings(&["old.txt"]));
    assert_eq!(plan.upload_bytes(), 2000);
    assert!(!plan.is_empty());
}

#[test]
fn identical_manifests_need_nothing() {
    let local = manifest_of(&[("a.txt", 5, Some(100)), ("dir/b.txt", 7, Some(2000))]);
    let remote = manifest_of(&[("dir/b.txt", 7, None), ("a.txt", 5, None)]);
    let plan = reconcile(&local, &remote);
    assert_empty(&plan);
    assert!(schedule(&plan, "/src/", "/dst/").is_empty());
    assert_empty(&reconcile(&Manifest::new(), &Manifest::new()));
}

#[test]
fn uploads_are_the_new_and_the_changed() {
    let local = manifest_of(&[
        ("same", 1, Some(1)),
        ("changed", 2, Some(20)),
        ("new", 3, Some(300)),
        ("sub/same", 4, Some(4)),
        ("sub/changed", 5, Some(5000)),
    ]);
    let remote = manifest_of(&[
        ("same", 1, None),
        ("changed", 22, None),
        ("sub/same", 4, None),
        ("sub/changed", 0, None),
        ("gone", 9, None),
        ("sub/gone", 9, None),
    ]);
    let plan = reconcile(&local, &remote);
    assert_eq!(sorted(plan.uploads()), strings(&["changed", "new", "sub/changed"]));
    assert_eq!(sorted(plan.deletions()), strings(&["gone", "sub/gone"]));
    assert!(plan.directories().is_empty());
    assert_eq!(plan.upload_bytes(), 5320);
}

#[test]
fn everything_is_uploaded_to_an_empty_remote() {
    let local = manifest_of(&[("a", 1, Some(1)), ("b/c", 2, Some(2))]);
    let plan = reconcile(&local, &Manifest::new());
    assert_eq!(sorted(plan.uploads()), strings(&["a", "b/c"]));
    assert_eq!(plan.directories(), &strings(&["b"]));
    assert!(plan.deletions().is_empty());
}

#[test]
fn everything_is_deleted_for_an_empty_local() {
    let remote = manifest_of(&[("a", 1, None), ("b/c", 2, None)]);
    let plan = reconcile(&Manifest::new(), &remote);
    assert!(plan.uploads().is_empty());
    assert!(plan.directories().is_empty());
    assert_eq!(sorted(plan.deletions()), strings(&["a", "b/c"]));
    assert_eq!(plan.upload_bytes(), 0);
}

#[test]
fn size_is_not_compared() {
    let local = manifest_of(&[("a", 1, Some(10))]);
    let remote = manifest_of(&[("a", 1, Some(99))]);
    assert_empty(&reconcile(&local, &remote));
}

#[test]
fn upload_bytes_stop_at_the_largest_number() {
    let local = manifest_of(&[("a", 1, Some(u64::MAX - 1)), ("b", 2, Some(5)), ("c", 3, None)]);
    let plan = reconcile(&local, &Manifest::new());
    assert_eq!(plan.upload_bytes(), u64::MAX);
}

#[test]
fn directories_come_parents_first_and_once() {
    let local = manifest_of(&[
        ("a/b/c/one.txt", 1, Some(1)),
        ("a/b/two.txt", 2, Some(1)),
        ("a/x/three.txt", 3, Some(1)),
        ("top.txt", 4, Some(1)),
    ]);
    let plan = reconcile(&local, &Manifest::new());
    assert_eq!(plan.directories(), &strings(&["a", "a/b", "a/b/c", "a/x"]));
    let dirs = plan.directories();
    for (i, d) in dirs.iter().enumerate() {
        for (j, e) in dirs.iter().enumerate() {
            if d.starts_with(&format!("{}/", e)) {
                assert!(j < i);
            }
            if i != j {
                assert_ne!(d, e);
            }
        }
    }
}

#[test]
fn known_remote_directories_are_not_created() {
    let local = manifest_of(&[("a/b/new.txt", 1, Some(1)), ("a/keep.txt", 2, Some(1))]);
    let remote = manifest_of(&[("a/keep.txt", 2, None)]);
    let plan = reconcile(&local, &remote);
    assert_eq!(plan.uploads(), &strings(&["a/b/new.txt"]));
    assert_eq!(plan.directories(), &strings(&["a/b"]));
}

#[test]
fn only_directories_that_hold_remote_files_are_known() {
    let local = manifest_of(&[("a/new.txt", 1, Some(1))]);
    let remote = manifest_of(&[("a/b/deep.txt", 2, None)]);
    let plan = reconcile(&local, &remote);
    assert_eq!(plan.directories(), &strings(&["a"]));
    assert_eq!(plan.deletions(), &strings(&["a/b/deep.txt"]));
}

#[test]
fn carrying_out_a_plan_leaves_nothing_to_do() {
    let local = manifest_of(&[
        ("a.txt", 5, Some(100)),
        ("dir/b.txt", 7, Some(2000)),
        ("dir/sub/c.txt", 8, Some(1)),
    ]);
    let remote = manifest_of(&[("a.txt", 4, None), ("old.txt", 9, None), ("dir/x", 1, None)]);
    let plan = reconcile(&local, &remote);
    // the remote side once the plan is carried out
    let mut after = Manifest::new();
    for i in 0..remote.len() {
        let key = remote.key_at(i);
        if !plan.deletions().contains(key) && !plan.uploads().contains(key) {
            after.insert(key.clone(), remote.get(key).unwrap().checksum, None);
        }
    }
    for key in plan.uploads() {
        after.insert(key.clone(), local.get(key).unwrap().checksum, None);
    }
    assert_empty(&reconcile(&local, &after));
}

#[test]
fn schedule_creates_directories_before_the_uploads_below_them() {
    let local = manifest_of(&[("a.txt", 5, Some(100)), ("dir/b.txt", 7, Some(2000))]);
    let remote = manifest_of(&[("a.txt", 5, None), ("old.txt", 9, None)]);
    let plan = reconcile(&local, &remote);
    let actions = schedule(&plan, "/home/me/site/", "/var/www/");
    assert_eq!(
        actions,
        vec![
            Action::MakeDirectory { path: "/var/www/dir".to_string(), mode: 0o755 },
            Action::Upload {
                src: "/home/me/site/dir/b.txt".to_string(),
                dst: "/var/www/dir/b.txt".to_string()
            },
            Action::Delete { path: "/var/www/old.txt".to_string() },
        ]
    );
}

#[test]
fn schedule_interleaves_directories_and_uploads() {
    let local = manifest_of(&[
        ("top.txt", 1, Some(1)),
        ("a/b/one.txt", 2, Some(1)),
        ("a/two.txt", 3, Some(1)),
        ("c/three.txt", 4, Some(1)),
    ]);
    let remote = manifest_of(&[("gone1", 1, None), ("gone2", 2, None)]);
    let plan = reconcile(&local, &remote);
    let actions = schedule(&plan, "s/", "d/");
    let made = |p: &str| Action::MakeDirectory { path: p.to_string(), mode: 0o755 };
    let sent = |k: &str| Action::Upload { src: format!("s/{}", k), dst: format!("d/{}", k) };
    let gone = |k: &str| Action::Delete { path: format!("d/{}", k) };
    assert_eq!(
        actions,
        vec![
            sent("top.txt"),
            made("d/a"),
            made("d/a/b"),
            sent("a/b/one.txt"),
            sent("a/two.txt"),
            made("d/c"),
            sent("c/three.txt"),
            gone("gone1"),
            gone("gone2"),
        ]
    );
}
