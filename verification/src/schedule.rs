//! The order in which a plan is carried out: before each upload the
//! directories above it that are still to be created, the topmost first;
//! behind the last upload the deletions.

use crate::paths::{ancestors, ancestors_of, is_ancestor, join, lemma_ancestors_below};
use crate::reconcile::{
    above_one, known_dir, lemma_directories_cover_uploads, reconciles, Files, Plan, SyncPlan,
};
use crate::remote::{Call, Remote};
use crate::seqs::lemma_push_contains;
use crate::ssh::{MockSSH, DIR_MODE};
use crate::text::{octal, texts};
use vstd::hash_set::StringHashSet;
use vstd::prelude::*;

verus! {

/// One operation on the remote side.
#[derive(Debug, PartialEq, Eq)]
pub enum Action {
    /// Create the remote directory `path` with the mode bits `mode`.
    MakeDirectory { path: String, mode: u32 },
    /// Upload the local file `src` to the remote path `dst`.
    Upload { src: String, dst: String },
    /// Delete the remote file `path`.
    Delete { path: String },
}

/// An operation as the rules of the schedule see it.
pub enum Step {
    MakeDirectory(Seq<char>, u32),
    Upload(Seq<char>, Seq<char>),
    Delete(Seq<char>),
}

impl View for Action {
    type V = Step;

    open spec fn view(&self) -> Step {
        match self {
            Action::MakeDirectory { path, mode } => Step::MakeDirectory(path@, *mode),
            Action::Upload { src, dst } => Step::Upload(src@, dst@),
            Action::Delete { path } => Step::Delete(path@),
        }
    }
}

/// The steps of a sequence of actions.
pub open spec fn steps(actions: Seq<Action>) -> Seq<Step> {
    Seq::new(actions.len(), |i: int| actions[i]@)
}

/// The step that creates the directory `dir` under `dst_root`.
pub open spec fn mkdir_step(dst_root: Seq<char>, dir: Seq<char>) -> Step {
    Step::MakeDirectory(dst_root + dir, DIR_MODE)
}

/// The step that uploads the file `key` from under `src_root` to under
/// `dst_root`.
pub open spec fn upload_step(src_root: Seq<char>, dst_root: Seq<char>, key: Seq<char>) -> Step {
    Step::Upload(src_root + key, dst_root + key)
}

/// The steps that create those of the first `m` directories of `above`
/// that are pending.
pub open spec fn mkdir_steps(
    above: Seq<Seq<char>>,
    pending: Set<Seq<char>>,
    dst_root: Seq<char>,
    m: nat,
) -> Seq<Step>
    decreases m,
{
    if m == 0 {
        Seq::empty()
    } else if pending.contains(above[m - 1]) {
        mkdir_steps(above, pending, dst_root, (m - 1) as nat).push(
            mkdir_step(dst_root, above[m - 1]),
        )
    } else {
        mkdir_steps(above, pending, dst_root, (m - 1) as nat)
    }
}

/// The directories of `dirs` that are still to be created when the first
/// `n` uploads are scheduled: those that lie above none of them.
pub open spec fn pending_after(dirs: Set<Seq<char>>, uploads: Seq<Seq<char>>, n: nat) -> Set<
    Seq<char>,
> {
    Set::new(|d: Seq<char>| dirs.contains(d) && !above_one(d, uploads, n))
}

/// The steps for the first `n` uploads: for each in turn the pending
/// directories above it, the topmost first, and the upload itself.
pub open spec fn upload_steps(
    uploads: Seq<Seq<char>>,
    dirs: Set<Seq<char>>,
    src_root: Seq<char>,
    dst_root: Seq<char>,
    n: nat,
) -> Seq<Step>
    decreases n,
{
    if n == 0 {
        Seq::empty()
    } else {
        let key = uploads[n - 1];
        let above = ancestors(key);
        upload_steps(uploads, dirs, src_root, dst_root, (n - 1) as nat) + mkdir_steps(
            above,
            pending_after(dirs, uploads, (n - 1) as nat),
            dst_root,
            above.len(),
        ).push(upload_step(src_root, dst_root, key))
    }
}

/// The steps that delete the files `deletions` under `dst_root`.
pub open spec fn delete_steps(deletions: Seq<Seq<char>>, dst_root: Seq<char>) -> Seq<Step> {
    Seq::new(deletions.len(), |i: int| Step::Delete(dst_root + deletions[i]))
}

/// The steps in which `plan` is carried out between the local directory
/// `src_root` and the remote directory `dst_root`, both ending with their
/// separator.
pub open spec fn schedule_of(plan: Plan, src_root: Seq<char>, dst_root: Seq<char>) -> Seq<Step> {
    upload_steps(
        plan.uploads,
        plan.directories.to_set(),
        src_root,
        dst_root,
        plan.uploads.len(),
    ) + delete_steps(plan.deletions, dst_root)
}

/// Lays out the operations that carry out `plan`, in their order.
pub fn schedule(plan: &SyncPlan, src_root: &str, dst_root: &str) -> (actions: Vec<Action>)
    ensures
        steps(actions@) == schedule_of(plan@, src_root@, dst_root@),
{
    let uploads = plan.uploads();
    let directories = plan.directories();
    let deletions = plan.deletions();
    let ghost dirs = plan@.directories.to_set();
    let ghost ups = plan@.uploads;
    let mut pending = StringHashSet::new();
    let mut i: usize = 0;
    while i < directories.len()
        invariant
            i <= directories.len(),
            forall|d: Seq<char>|
                pending@.contains(d) <==> texts(directories@).take(i as int).contains(d),
        decreases directories.len() - i,
    {
        proof {
            let all = texts(directories@);
            assert(all.take(i + 1) =~= all.take(i as int).push(directories@[i as int]@));
            lemma_push_contains(all.take(i as int), directories@[i as int]@);
        }
        pending.insert(directories[i].clone());
        i += 1;
    }
    assert(texts(directories@).take(i as int) =~= texts(directories@));
    assert(pending@ =~= pending_after(dirs, ups, 0));

    let mut actions: Vec<Action> = Vec::new();
    let mut u: usize = 0;
    assert(steps(actions@) =~= Seq::empty());
    while u < uploads.len()
        invariant
            u <= uploads.len(),
            ups == texts(uploads@),
            pending@ == pending_after(dirs, ups, u as nat),
            steps(actions@) == upload_steps(ups, dirs, src_root@, dst_root@, u as nat),
        decreases uploads.len() - u,
    {
        let key = &uploads[u];
        let above = ancestors_of(key.as_str());
        let ghost base = steps(actions@);
        let ghost before = pending@;
        let ghost rungs = texts(above@);
        proof {
            lemma_ancestors_below(key@, key@.len());
        }
        let mut j: usize = 0;
        assert(base + Seq::<Step>::empty() =~= base);
        while j < above.len()
            invariant
                j <= above.len(),
                rungs == texts(above@),
                rungs == ancestors(key@),
                forall|a: int, b: int|
                    0 <= a < b < rungs.len() ==> (#[trigger] rungs[a]).len() < (
                    #[trigger] rungs[b]).len(),
                steps(actions@) == base + mkdir_steps(rungs, before, dst_root@, j as nat),
                forall|d: Seq<char>|
                    pending@.contains(d) <==> before.contains(d) && !rungs.take(j as int).contains(
                        d,
                    ),
            decreases above.len() - j,
        {
            let dir = &above[j];
            proof {
                assert(rungs[j as int] == dir@);
                assert(!rungs.take(j as int).contains(dir@)) by {
                    if rungs.take(j as int).contains(dir@) {
                        let l = choose|l: int|
                            0 <= l < rungs.take(j as int).len() && rungs.take(j as int)[l] == dir@;
                        assert(rungs[l].len() < rungs[j as int].len());
                    }
                }
                assert(rungs.take(j + 1) =~= rungs.take(j as int).push(dir@));
                lemma_push_contains(rungs.take(j as int), dir@);
                assert forall|d: Seq<char>|
                    rungs.take(j + 1).contains(d) <==> rungs.take(j as int).contains(d) || d
                        == dir@ by {
                    assert(rungs.take(j as int).push(dir@).contains(d) <==> rungs.take(
                        j as int,
                    ).contains(d) || d == dir@);
                }
            }
            let ghost was = pending@;
            if pending.contains(dir.as_str()) {
                pending.remove(dir.as_str());
                let path = join(dst_root, dir.as_str());
                let ghost old_actions = actions@;
                actions.push(Action::MakeDirectory { path, mode: DIR_MODE });
                assert(steps(actions@) =~= steps(old_actions).push(mkdir_step(dst_root@, dir@)));
                assert(steps(actions@) =~= base + mkdir_steps(
                    rungs,
                    before,
                    dst_root@,
                    (j + 1) as nat,
                ));
            }
            proof {
                assert forall|d: Seq<char>|
                    pending@.contains(d) <==> before.contains(d) && !rungs.take(j + 1).contains(
                        d,
                    ) by {
                    assert(was.contains(d) <==> before.contains(d) && !rungs.take(
                        j as int,
                    ).contains(d));
                    assert(pending@.contains(d) <==> was.contains(d) && d != dir@);
                }
            }
            j += 1;
        }
        let src = join(src_root, key.as_str());
        let dst = join(dst_root, key.as_str());
        let ghost old_actions = actions@;
        actions.push(Action::Upload { src, dst });
        proof {
            assert(steps(actions@) =~= steps(old_actions).push(
                upload_step(src_root@, dst_root@, key@),
            ));
            assert(steps(actions@) =~= upload_steps(
                ups,
                dirs,
                src_root@,
                dst_root@,
                (u + 1) as nat,
            ));
            assert(rungs.take(j as int) =~= rungs);
            assert forall|d: Seq<char>|
                above_one(d, ups, (u + 1) as nat) <==> above_one(d, ups, u as nat)
                    || rungs.contains(d) by {
                if above_one(d, ups, (u + 1) as nat) {
                    let w = choose|w: int| 0 <= w < u + 1 && is_ancestor(d, #[trigger] ups[w]);
                    if w < u {
                        assert(above_one(d, ups, u as nat));
                    } else {
                        assert(is_ancestor(d, key@));
                        assert(rungs.contains(d));
                    }
                }
                if above_one(d, ups, u as nat) {
                    let w = choose|w: int| 0 <= w < u && is_ancestor(d, #[trigger] ups[w]);
                    assert(0 <= w < u + 1 && is_ancestor(d, ups[w]));
                }
                if rungs.contains(d) {
                    let l = choose|l: int| 0 <= l < rungs.len() && rungs[l] == d;
                    assert(is_ancestor(rungs[l], key@));
                    assert(is_ancestor(d, ups[u as int]));
                }
            }
            let next = pending_after(dirs, ups, (u + 1) as nat);
            assert forall|d: Seq<char>| pending@.contains(d) == next.contains(d) by {
                assert(pending@.contains(d) <==> before.contains(d) && !rungs.contains(d));
                assert(before.contains(d) <==> dirs.contains(d) && !above_one(d, ups, u as nat));
            }
            assert(pending@ =~= next);
        }
        u += 1;
    }
    let ghost uploaded = steps(actions@);
    let mut k: usize = 0;
    assert(uploaded + delete_steps(plan@.deletions.take(0), dst_root@) =~= uploaded);
    while k < deletions.len()
        invariant
            k <= deletions.len(),
            texts(deletions@) == plan@.deletions,
            steps(actions@) == uploaded + delete_steps(plan@.deletions.take(k as int), dst_root@),
        decreases deletions.len() - k,
    {
        let path = join(dst_root, deletions[k].as_str());
        let ghost old_actions = actions@;
        actions.push(Action::Delete { path });
        proof {
            assert(steps(actions@) =~= steps(old_actions).push(
                Step::Delete(dst_root@ + deletions@[k as int]@),
            ));
            assert(delete_steps(plan@.deletions.take(k + 1), dst_root@) =~= delete_steps(
                plan@.deletions.take(k as int),
                dst_root@,
            ).push(Step::Delete(dst_root@ + deletions@[k as int]@)));
        }
        k += 1;
    }
    assert(plan@.deletions.take(k as int) =~= plan@.deletions);
    actions
}

/// The line in which a dry run says that it would carry out `step`.
pub open spec fn would_text(step: Step) -> Seq<char> {
    match step {
        Step::MakeDirectory(path, mode) => "would mkdir "@ + path + " with perms "@ + octal(
            mode as nat,
        ),
        Step::Upload(src, dst) => "would upload "@ + src + " -> "@ + dst,
        Step::Delete(path) => "would delete "@ + path,
    }
}

/// Says what a dry run would do for `action`.
pub fn would(action: &Action) -> (line: String)
    ensures
        line@ == would_text(action@),
{
    match action {
        Action::MakeDirectory { path, mode } => MockSSH::would_mkdir(path.as_str(), *mode),
        Action::Upload { src, dst } => MockSSH::would_upload(src.as_str(), dst.as_str()),
        Action::Delete { path } => MockSSH::would_delete(path.as_str()),
    }
}

/// What a session is asked in order to carry out `step`.
pub open spec fn call_of(step: Step) -> Call {
    match step {
        Step::MakeDirectory(path, mode) => Call::Mkdir(path, mode),
        Step::Upload(src, dst) => Call::Upload(src, dst),
        Step::Delete(path) => Call::Delete(path),
    }
}

/// What a session is asked in order to carry out `steps`, one after the
/// other.
pub open spec fn calls_of(steps: Seq<Step>) -> Seq<Call> {
    Seq::new(steps.len(), |i: int| call_of(steps[i]))
}

/// Carries out one operation on `remote`: asks it for what `action` says,
/// and hands back its answer. The session of a dry run is asked the same,
/// and succeeds.
pub fn perform<R: Remote>(remote: &mut R, action: &Action) -> (r: Result<(), anyhow::Error>)
    ensures
        old(remote).is_dry() ==> {
            &&& final(remote).is_dry()
            &&& final(remote).asked() == old(remote).asked().push(call_of(action@))
            &&& r is Ok
        },
{
    match action {
        Action::MakeDirectory { path, mode } => remote.mkdir(path.as_str(), *mode),
        Action::Upload { src, dst } => remote.upload(src.as_str(), dst.as_str()),
        Action::Delete { path } => remote.delete(path.as_str()),
    }
}

/// Carries out `actions` on `remote`, one after the other, and stops at
/// the first that fails: the result then holds its place and its error.
/// The session of a dry run is asked for each of them, in their order, and
/// fails in none.
pub fn carry_out<R: Remote>(remote: &mut R, actions: &Vec<Action>) -> (r: Result<
    (),
    (usize, anyhow::Error),
>)
    ensures
        actions.len() == 0 ==> r is Ok,
        r is Err ==> r->Err_0.0 < actions.len(),
        old(remote).is_dry() ==> {
            &&& final(remote).is_dry()
            &&& final(remote).asked() == old(remote).asked() + calls_of(steps(actions@))
            &&& r is Ok
        },
{
    let mut i: usize = 0;
    assert(old(remote).asked() + calls_of(steps(actions@)).take(0) =~= old(remote).asked());
    while i < actions.len()
        invariant
            i <= actions.len(),
            old(remote).is_dry() ==> remote.is_dry() && remote.asked() == old(remote).asked()
                + calls_of(steps(actions@)).take(i as int),
        decreases actions.len() - i,
    {
        let ghost before = remote.asked();
        match perform(remote, &actions[i]) {
            Ok(()) => {},
            Err(e) => {
                return Err((i, e));
            },
        }
        proof {
            if old(remote).is_dry() {
                let all = calls_of(steps(actions@));
                assert(all[i as int] == call_of(actions@[i as int]@));
                assert(all.take(i + 1) =~= all.take(i as int).push(all[i as int]));
                assert(old(remote).asked() + all.take(i + 1) =~= (old(remote).asked() + all.take(
                    i as int,
                )).push(all[i as int]));
            }
        }
        i += 1;
    }
    assert(calls_of(steps(actions@)).take(i as int) =~= calls_of(steps(actions@)));
    Ok(())
}

/// Whether, in `steps`, the directory `dir` is created before the file
/// `key` is uploaded.
pub open spec fn made_before_sent(
    steps: Seq<Step>,
    dir: Seq<char>,
    key: Seq<char>,
    src_root: Seq<char>,
    dst_root: Seq<char>,
) -> bool {
    exists|q: int, p: int|
        0 <= q < p < steps.len() && #[trigger] steps[q] == mkdir_step(dst_root, dir)
            && #[trigger] steps[p] == upload_step(src_root, dst_root, key)
}

/// Each pending directory among the first `m` of `above` is created by
/// one of the steps.
proof fn lemma_mkdir_steps(
    above: Seq<Seq<char>>,
    pending: Set<Seq<char>>,
    dst_root: Seq<char>,
    m: nat,
    l: int,
)
    requires
        0 <= l < m <= above.len(),
        pending.contains(above[l]),
    ensures
        mkdir_steps(above, pending, dst_root, m).contains(mkdir_step(dst_root, above[l])),
    decreases m,
{
    let now = mkdir_steps(above, pending, dst_root, m);
    let before = mkdir_steps(above, pending, dst_root, (m - 1) as nat);
    if l < m - 1 {
        lemma_mkdir_steps(above, pending, dst_root, (m - 1) as nat, l);
        let q = choose|q: int| 0 <= q < before.len() && before[q] == mkdir_step(dst_root, above[l]);
        assert(now[q] == mkdir_step(dst_root, above[l]));
    } else {
        assert(now[before.len() as int] == mkdir_step(dst_root, above[l]));
    }
}

/// In the steps for the first `n` uploads, each of the directories to
/// create that lies above one of these uploads is created before that
/// upload.
pub proof fn lemma_upload_steps(
    uploads: Seq<Seq<char>>,
    dirs: Set<Seq<char>>,
    src_root: Seq<char>,
    dst_root: Seq<char>,
    n: nat,
    u: int,
    d: Seq<char>,
)
    requires
        0 <= u < n <= uploads.len(),
        dirs.contains(d),
        is_ancestor(d, uploads[u]),
    ensures
        made_before_sent(
            upload_steps(uploads, dirs, src_root, dst_root, n),
            d,
            uploads[u],
            src_root,
            dst_root,
        ),
    decreases n,
{
    let now = upload_steps(uploads, dirs, src_root, dst_root, n);
    let before = upload_steps(uploads, dirs, src_root, dst_root, (n - 1) as nat);
    let key = uploads[n - 1];
    let above = ancestors(key);
    let pending = pending_after(dirs, uploads, (n - 1) as nat);
    let made = mkdir_steps(above, pending, dst_root, above.len());
    assert(now == before + made.push(upload_step(src_root, dst_root, key)));
    if u < n - 1 {
        lemma_upload_steps(uploads, dirs, src_root, dst_root, (n - 1) as nat, u, d);
        let (q, p) = choose|q: int, p: int|
            0 <= q < p < before.len() && #[trigger] before[q] == mkdir_step(dst_root, d)
                && #[trigger] before[p] == upload_step(src_root, dst_root, uploads[u]);
        assert(now[q] == before[q]);
        assert(now[p] == before[p]);
    } else {
        let p = now.len() - 1;
        assert(now[p] == upload_step(src_root, dst_root, key));
        if pending.contains(d) {
            lemma_ancestors_below(key, key.len());
            assert(above.contains(d));
            let l = choose|l: int| 0 <= l < above.len() && above[l] == d;
            lemma_mkdir_steps(above, pending, dst_root, above.len(), l);
            let q = choose|q: int| 0 <= q < made.len() && made[q] == mkdir_step(dst_root, d);
            assert(now[before.len() + q] == made[q]);
        } else {
            assert(above_one(d, uploads, (n - 1) as nat));
            let w = choose|w: int| 0 <= w < n - 1 && is_ancestor(d, #[trigger] uploads[w]);
            lemma_upload_steps(uploads, dirs, src_root, dst_root, (n - 1) as nat, w, d);
            let (q, p0) = choose|q: int, p0: int|
                0 <= q < p0 < before.len() && #[trigger] before[q] == mkdir_step(dst_root, d)
                    && #[trigger] before[p0] == upload_step(src_root, dst_root, uploads[w]);
            assert(now[q] == before[q]);
        }
    }
}

/// No upload is scheduled before the directories above it: where a plan
/// is what reconciliation owes, every directory above an upload that the
/// remote side is not known to have is created before that upload.
pub proof fn lemma_directories_before_uploads(
    plan: Plan,
    local: Files,
    remote: Files,
    src_root: Seq<char>,
    dst_root: Seq<char>,
    k: Seq<char>,
    d: Seq<char>,
)
    requires
        reconciles(plan, local, remote),
        plan.uploads.contains(k),
        is_ancestor(d, k),
        !known_dir(remote, d),
    ensures
        made_before_sent(schedule_of(plan, src_root, dst_root), d, k, src_root, dst_root),
{
    let dirs = plan.directories.to_set();
    let u = choose|u: int| 0 <= u < plan.uploads.len() && plan.uploads[u] == k;
    lemma_directories_cover_uploads(plan, local, remote, k, d);
    assert(dirs.contains(d));
    lemma_upload_steps(plan.uploads, dirs, src_root, dst_root, plan.uploads.len(), u, d);
    let first = upload_steps(plan.uploads, dirs, src_root, dst_root, plan.uploads.len());
    let all = schedule_of(plan, src_root, dst_root);
    let (q, p) = choose|q: int, p: int|
        0 <= q < p < first.len() && #[trigger] first[q] == mkdir_step(dst_root, d)
            && #[trigger] first[p] == upload_step(src_root, dst_root, k);
    assert(all[q] == first[q]);
    assert(all[p] == first[p]);
}

/// The directory that the step `step`, which creates a directory under
/// `dst_root`, creates.
pub open spec fn made_dir(step: Step, dst_root: Seq<char>) -> Seq<char> {
    step->MakeDirectory_0.skip(dst_root.len() as int)
}

/// What holds of each step among `steps` that creates a directory: it
/// creates, with the mode of a run's directories, a pending directory
/// above `key`.
spec fn makes_pending(
    steps: Seq<Step>,
    key: Seq<char>,
    pending: Set<Seq<char>>,
    dst_root: Seq<char>,
) -> bool {
    forall|q: int|
        0 <= q < steps.len() ==> {
            let d = made_dir(#[trigger] steps[q], dst_root);
            &&& steps[q] == mkdir_step(dst_root, d)
            &&& pending.contains(d)
            &&& is_ancestor(d, key)
        }
}

/// The steps that create the directories above one upload create each
/// pending directory above it, and each once: a later step creates a
/// longer path.
proof fn lemma_mkdir_steps_once(
    key: Seq<char>,
    pending: Set<Seq<char>>,
    dst_root: Seq<char>,
    m: nat,
)
    requires
        m <= ancestors(key).len(),
    ensures
        makes_pending(mkdir_steps(ancestors(key), pending, dst_root, m), key, pending, dst_root),
        forall|q: int|
            0 <= q < mkdir_steps(ancestors(key), pending, dst_root, m).len() ==> m > 0 && made_dir(
                #[trigger] mkdir_steps(ancestors(key), pending, dst_root, m)[q],
                dst_root,
            ).len() <= ancestors(key)[m - 1].len(),
        forall|a: int, b: int|
            0 <= a < b < mkdir_steps(ancestors(key), pending, dst_root, m).len()
                ==> #[trigger] mkdir_steps(ancestors(key), pending, dst_root, m)[a]
                != #[trigger] mkdir_steps(ancestors(key), pending, dst_root, m)[b],
    decreases m,
{
    let above = ancestors(key);
    let now = mkdir_steps(above, pending, dst_root, m);
    if m > 0 {
        let before = mkdir_steps(above, pending, dst_root, (m - 1) as nat);
        lemma_mkdir_steps_once(key, pending, dst_root, (m - 1) as nat);
        lemma_ancestors_below(key, key.len());
        let d = above[m - 1];
        assert((dst_root + d).skip(dst_root.len() as int) =~= d);
        if m > 1 {
            assert(above[m - 2].len() < above[m - 1].len());
        }
        if pending.contains(d) {
            assert(now == before.push(mkdir_step(dst_root, d)));
            assert forall|q: int| 0 <= q < now.len() implies {
                let e = made_dir(#[trigger] now[q], dst_root);
                &&& now[q] == mkdir_step(dst_root, e)
                &&& pending.contains(e)
                &&& is_ancestor(e, key)
                &&& e.len() <= above[m - 1].len()
            } by {
                if q < before.len() {
                    assert(now[q] == before[q]);
                }
            }
            assert forall|a: int, b: int| 0 <= a < b < now.len() implies #[trigger] now[a]
                != #[trigger] now[b] by {
                assert(now[a] == before[a]);
                if b < before.len() {
                    assert(now[b] == before[b]);
                } else {
                    assert(made_dir(before[a], dst_root).len() <= above[m - 2].len());
                }
            }
        } else {
            assert forall|q: int| 0 <= q < now.len() implies made_dir(
                #[trigger] now[q],
                dst_root,
            ).len() <= above[m - 1].len() by {}
        }
    }
}

/// No directory is created twice: the steps for the first `n` uploads
/// hold no step that creates a directory at two places, and each such
/// step creates one of `dirs` that lies above one of these uploads.
pub proof fn lemma_directories_made_once(
    uploads: Seq<Seq<char>>,
    dirs: Set<Seq<char>>,
    src_root: Seq<char>,
    dst_root: Seq<char>,
    n: nat,
)
    requires
        n <= uploads.len(),
    ensures
        forall|q: int|
            0 <= q < upload_steps(uploads, dirs, src_root, dst_root, n).len() && (
            #[trigger] upload_steps(uploads, dirs, src_root, dst_root, n)[q]) is MakeDirectory ==> {
                let step = upload_steps(uploads, dirs, src_root, dst_root, n)[q];
                &&& step == mkdir_step(dst_root, made_dir(step, dst_root))
                &&& dirs.contains(made_dir(step, dst_root))
                &&& above_one(made_dir(step, dst_root), uploads, n)
            },
        forall|a: int, b: int|
            0 <= a < b < upload_steps(uploads, dirs, src_root, dst_root, n).len() && (
            #[trigger] upload_steps(uploads, dirs, src_root, dst_root, n)[a]) is MakeDirectory
                ==> upload_steps(uploads, dirs, src_root, dst_root, n)[a]
                != #[trigger] upload_steps(uploads, dirs, src_root, dst_root, n)[b],
    decreases n,
{
    let now = upload_steps(uploads, dirs, src_root, dst_root, n);
    if n > 0 {
        let m = (n - 1) as nat;
        let before = upload_steps(uploads, dirs, src_root, dst_root, m);
        let key = uploads[n - 1];
        let above = ancestors(key);
        let pending = pending_after(dirs, uploads, m);
        let made = mkdir_steps(above, pending, dst_root, above.len());
        lemma_directories_made_once(uploads, dirs, src_root, dst_root, m);
        lemma_mkdir_steps_once(key, pending, dst_root, above.len());
        assert(now == before + made.push(upload_step(src_root, dst_root, key)));
        let at = before.len() as int;
        assert forall|q: int| 0 <= q < now.len() && (#[trigger] now[q]) is MakeDirectory implies {
            let step = now[q];
            &&& step == mkdir_step(dst_root, made_dir(step, dst_root))
            &&& dirs.contains(made_dir(step, dst_root))
            &&& above_one(made_dir(step, dst_root), uploads, n)
        } by {
            let d = made_dir(now[q], dst_root);
            if q < at {
                assert(now[q] == before[q]);
                assert(above_one(d, uploads, m));
                let w = choose|w: int| 0 <= w < m && is_ancestor(d, #[trigger] uploads[w]);
                assert(0 <= w < n && is_ancestor(d, uploads[w]));
            } else {
                assert(now[q] == made[q - at]);
                assert(is_ancestor(d, uploads[n - 1]));
            }
        }
        assert forall|a: int, b: int|
            0 <= a < b < now.len() && (#[trigger] now[a]) is MakeDirectory implies now[a]
            != #[trigger] now[b] by {
            if b < at {
                assert(now[a] == before[a] && now[b] == before[b]);
            } else if a >= at {
                if b < now.len() - 1 {
                    assert(now[a] == made[a - at] && now[b] == made[b - at]);
                }
            } else if b < now.len() - 1 {
                assert(now[a] == before[a] && now[b] == made[b - at]);
                let d = made_dir(now[b], dst_root);
                assert(pending.contains(d));
                if now[a] == now[b] {
                    assert(above_one(made_dir(before[a], dst_root), uploads, m));
                }
            }
        }
    }
}

} // verus!
