//! Reconciliation: from the manifests of the two sides to the plan that
//! makes the remote side equal to the local one.

use crate::manifest::{FileInfo, Manifest};
use crate::paths::{
    ancestors, ancestors_of, is_ancestor, lemma_ancestor_transitive, lemma_ancestors_below,
    parent_dir, parent_of,
};
use crate::seqs::{lemma_push_contains};
use crate::text::{lemma_texts_push, texts};
use vstd::hash_set::StringHashSet;
use vstd::prelude::*;

verus! {

/// The manifest of one side, as the rules of reconciliation see it.
pub type Files = Map<Seq<char>, FileInfo>;

/// Whether the file `k` is uploaded: the local side has it, and the remote
/// side lacks it or has it with another checksum.
pub open spec fn needs_upload(local: Files, remote: Files, k: Seq<char>) -> bool {
    local.contains_key(k) && (!remote.contains_key(k) || remote[k].checksum != local[k].checksum)
}

/// Whether the file `k` is deleted on the remote side: only that side has
/// it.
pub open spec fn needs_delete(local: Files, remote: Files, k: Seq<char>) -> bool {
    remote.contains_key(k) && !local.contains_key(k)
}

/// Whether the remote side is known to have the directory `d`: it holds one
/// of the remote files.
pub open spec fn known_dir(remote: Files, d: Seq<char>) -> bool {
    exists|k: Seq<char>| remote.contains_key(k) && #[trigger] parent_dir(k) == d
}

/// Whether the directory `d` lies above a file that is uploaded.
pub open spec fn above_upload(local: Files, remote: Files, d: Seq<char>) -> bool {
    exists|k: Seq<char>| needs_upload(local, remote, k) && #[trigger] is_ancestor(d, k)
}

/// Whether the directory `d` is created: it lies above a file that is
/// uploaded, and the remote side is not known to have it.
pub open spec fn needs_dir(local: Files, remote: Files, d: Seq<char>) -> bool {
    above_upload(local, remote, d) && !known_dir(remote, d)
}

/// The size that `files` records for `k`, 0 where it records none.
pub open spec fn size_of(files: Files, k: Seq<char>) -> nat {
    match files[k].size {
        Some(n) => n as nat,
        None => 0,
    }
}

/// The sum of the sizes that `files` records for `keys`.
pub open spec fn total_size(files: Files, keys: Seq<Seq<char>>) -> nat
    decreases keys.len(),
{
    if keys.len() == 0 {
        0
    } else {
        total_size(files, keys.drop_last()) + size_of(files, keys.last())
    }
}

/// `n`, or the largest `u64` where `n` exceeds it.
pub open spec fn capped(n: nat) -> u64 {
    if n > u64::MAX {
        u64::MAX
    } else {
        n as u64
    }
}

/// What is to be done, as the rules of reconciliation see it.
pub struct Plan {
    /// The files to upload.
    pub uploads: Seq<Seq<char>>,
    /// The sum of their sizes, capped at the largest `u64`.
    pub upload_bytes: u64,
    /// The directories to create, each behind those above it.
    pub directories: Seq<Seq<char>>,
    /// The remote files to delete.
    pub deletions: Seq<Seq<char>>,
}

/// Whether no directory of `dirs` stands before one that lies above it.
pub open spec fn parents_first(dirs: Seq<Seq<char>>) -> bool {
    forall|i: int, j: int|
        0 <= i < dirs.len() && 0 <= j < dirs.len() && #[trigger] is_ancestor(dirs[j], dirs[i])
            ==> j < i
}

/// Whether `plan` is what reconciliation owes for the two manifests.
pub open spec fn reconciles(plan: Plan, local: Files, remote: Files) -> bool {
    &&& plan.uploads.no_duplicates()
    &&& forall|k: Seq<char>| plan.uploads.contains(k) <==> needs_upload(local, remote, k)
    &&& plan.upload_bytes == capped(total_size(local, plan.uploads))
    &&& plan.deletions.no_duplicates()
    &&& forall|k: Seq<char>| plan.deletions.contains(k) <==> needs_delete(local, remote, k)
    &&& plan.directories.no_duplicates()
    &&& forall|d: Seq<char>| plan.directories.contains(d) <==> needs_dir(local, remote, d)
    &&& parents_first(plan.directories)
}

/// Those of the first `n` items of `order` that satisfy `keep`, in their
/// order.
pub open spec fn kept(order: Seq<Seq<char>>, keep: spec_fn(Seq<char>) -> bool, n: nat) -> Seq<
    Seq<char>,
>
    decreases n,
{
    if n == 0 {
        Seq::empty()
    } else if keep(order[n - 1]) {
        kept(order, keep, (n - 1) as nat).push(order[n - 1])
    } else {
        kept(order, keep, (n - 1) as nat)
    }
}

/// What is kept of a sequence without repetition has none, and holds the
/// items of the sequence that satisfy `keep`.
pub proof fn lemma_kept(order: Seq<Seq<char>>, keep: spec_fn(Seq<char>) -> bool, n: nat)
    requires
        order.no_duplicates(),
        n <= order.len(),
    ensures
        kept(order, keep, n).no_duplicates(),
        forall|k: Seq<char>|
            kept(order, keep, n).contains(k) <==> keep(k) && exists|j: int|
                0 <= j < n && order[j] == k,
    decreases n,
{
    let now = kept(order, keep, n);
    if n > 0 {
        let m = (n - 1) as nat;
        let before = kept(order, keep, m);
        lemma_kept(order, keep, m);
        let x = order[n - 1];
        if keep(x) {
            assert(!before.contains(x)) by {
                if before.contains(x) {
                    let j = choose|j: int| 0 <= j < m && order[j] == x;
                    assert(order[j] == order[n - 1]);
                }
            }
            assert forall|k: Seq<char>| now.contains(k) implies keep(k) && exists|j: int|
                0 <= j < n && order[j] == k by {
                let i = choose|i: int| 0 <= i < now.len() && now[i] == k;
                if i < before.len() {
                    assert(before[i] == k);
                    assert(before.contains(k));
                    let j = choose|j: int| 0 <= j < m && order[j] == k;
                    assert(0 <= j < n && order[j] == k);
                } else {
                    assert(order[n - 1] == k);
                }
            }
            assert forall|k: Seq<char>|
                keep(k) && (exists|j: int| 0 <= j < n && order[j] == k) implies now.contains(
                k,
            ) by {
                let j = choose|j: int| 0 <= j < n && order[j] == k;
                if j < m {
                    assert(before.contains(k));
                    let i = choose|i: int| 0 <= i < before.len() && before[i] == k;
                    assert(now[i] == k);
                } else {
                    assert(now[before.len() as int] == k);
                }
            }
            assert(now.no_duplicates()) by {
                assert forall|a: int, b: int|
                    0 <= a < now.len() && 0 <= b < now.len() && a != b implies now[a]
                    != now[b] by {
                    if a == before.len() {
                        assert(before[b] == now[b]);
                        assert(before.contains(now[b]));
                    } else if b == before.len() {
                        assert(before[a] == now[a]);
                        assert(before.contains(now[a]));
                    } else {
                        assert(before[a] == now[a]);
                        assert(before[b] == now[b]);
                    }
                }
            }
        } else {
            assert forall|k: Seq<char>|
                keep(k) && (exists|j: int| 0 <= j < n && order[j] == k) implies now.contains(
                k,
            ) by {
                let j = choose|j: int| 0 <= j < n && order[j] == k;
                assert(j < m);
            }
        }
    }
}

/// The directories that hold the first `n` paths of `order`.
pub open spec fn parents(order: Seq<Seq<char>>, n: nat) -> Set<Seq<char>>
    decreases n,
{
    if n == 0 {
        Set::empty()
    } else {
        parents(order, (n - 1) as nat).insert(parent_dir(order[n - 1]))
    }
}

/// A directory is among [`parents`] where it holds one of the paths.
pub proof fn lemma_parents(order: Seq<Seq<char>>, n: nat)
    requires
        n <= order.len(),
    ensures
        forall|d: Seq<char>|
            parents(order, n).contains(d) <==> exists|j: int|
                0 <= j < n && #[trigger] parent_dir(order[j]) == d,
    decreases n,
{
    if n > 0 {
        lemma_parents(order, (n - 1) as nat);
        assert forall|d: Seq<char>| parents(order, n).contains(d) implies exists|j: int|
            0 <= j < n && #[trigger] parent_dir(order[j]) == d by {
            if parents(order, (n - 1) as nat).contains(d) {
                let j = choose|j: int| 0 <= j < n - 1 && #[trigger] parent_dir(order[j]) == d;
                assert(0 <= j < n && parent_dir(order[j]) == d);
            } else {
                assert(parent_dir(order[n - 1]) == d);
            }
        }
        assert forall|d: Seq<char>|
            (exists|j: int| 0 <= j < n && #[trigger] parent_dir(order[j]) == d) implies parents(
            order,
            n,
        ).contains(d) by {
            let j = choose|j: int| 0 <= j < n && #[trigger] parent_dir(order[j]) == d;
            if j < n - 1 {
                assert(0 <= j < n - 1 && parent_dir(order[j]) == d);
                assert(parents(order, (n - 1) as nat).contains(d));
            }
        }
    }
}

/// `dirs`, and behind them those of the first `m` directories of `above`
/// that are neither known nor already listed.
pub open spec fn add_missing(
    dirs: Seq<Seq<char>>,
    above: Seq<Seq<char>>,
    known: Set<Seq<char>>,
    m: nat,
) -> Seq<Seq<char>>
    decreases m,
{
    if m == 0 {
        dirs
    } else {
        let before = add_missing(dirs, above, known, (m - 1) as nat);
        let d = above[m - 1];
        if known.contains(d) || before.contains(d) {
            before
        } else {
            before.push(d)
        }
    }
}

/// The directories to create for the first `n` of `uploads`: for each
/// upload in turn, those above it that are neither known nor listed yet,
/// the topmost first.
pub open spec fn planned_dirs(uploads: Seq<Seq<char>>, known: Set<Seq<char>>, n: nat) -> Seq<
    Seq<char>,
>
    decreases n,
{
    if n == 0 {
        Seq::empty()
    } else {
        let above = ancestors(uploads[n - 1]);
        add_missing(planned_dirs(uploads, known, (n - 1) as nat), above, known, above.len())
    }
}

/// Whether `d` lies above one of the first `n` of `uploads`.
pub open spec fn above_one(d: Seq<char>, uploads: Seq<Seq<char>>, n: nat) -> bool {
    exists|u: int| 0 <= u < n && is_ancestor(d, #[trigger] uploads[u])
}

/// What holds of the directories listed while the uploads are gone through:
/// none is listed twice, none is known, each lies above one of the first `n`
/// uploads, with each stand those above it that are not known, and none
/// stands before one above it.
pub open spec fn tidy(
    dirs: Seq<Seq<char>>,
    uploads: Seq<Seq<char>>,
    known: Set<Seq<char>>,
    n: nat,
) -> bool {
    &&& dirs.no_duplicates()
    &&& forall|p: int| 0 <= p < dirs.len() ==> !known.contains(#[trigger] dirs[p])
    &&& forall|p: int| 0 <= p < dirs.len() ==> above_one(#[trigger] dirs[p], uploads, n)
    &&& forall|p: int, e: Seq<char>|
        0 <= p < dirs.len() && #[trigger] is_ancestor(e, dirs[p]) && !known.contains(e)
            ==> dirs.contains(e)
    &&& parents_first(dirs)
}

/// Adding the directories above one more upload keeps the list tidy, loses
/// nothing, and adds each of them that is not known.
proof fn lemma_add_missing(
    dirs: Seq<Seq<char>>,
    uploads: Seq<Seq<char>>,
    known: Set<Seq<char>>,
    n: nat,
    m: nat,
)
    requires
        n < uploads.len(),
        tidy(dirs, uploads, known, n + 1),
        m <= ancestors(uploads[n as int]).len(),
    ensures
        tidy(add_missing(dirs, ancestors(uploads[n as int]), known, m), uploads, known, n + 1),
        forall|x: Seq<char>|
            dirs.contains(x) ==> add_missing(
                dirs,
                ancestors(uploads[n as int]),
                known,
                m,
            ).contains(x),
        forall|l: int|
            0 <= l < m && !known.contains(#[trigger] ancestors(uploads[n as int])[l])
                ==> add_missing(dirs, ancestors(uploads[n as int]), known, m).contains(
                ancestors(uploads[n as int])[l],
            ),
    decreases m,
{
    let path = uploads[n as int];
    let above = ancestors(path);
    let now = add_missing(dirs, above, known, m);
    if m > 0 {
        let before = add_missing(dirs, above, known, (m - 1) as nat);
        lemma_add_missing(dirs, uploads, known, n, (m - 1) as nat);
        lemma_ancestors_below(path, path.len());
        let d = above[m - 1];
        if !(known.contains(d) || before.contains(d)) {
            lemma_push_contains(before, d);
            assert(now == before.push(d));
            assert(is_ancestor(d, path));
            assert forall|p: int| 0 <= p < now.len() implies !known.contains(
                #[trigger] now[p],
            ) by {
                if p < before.len() {
                    assert(now[p] == before[p]);
                }
            }
            assert forall|p: int| 0 <= p < now.len() implies above_one(
                #[trigger] now[p],
                uploads,
                n + 1,
            ) by {
                if p < before.len() {
                    assert(now[p] == before[p]);
                } else {
                    assert(is_ancestor(now[p], uploads[n as int]));
                }
            }
            assert forall|p: int, e: Seq<char>|
                0 <= p < now.len() && #[trigger] is_ancestor(e, now[p]) && !known.contains(
                    e,
                ) implies now.contains(e) by {
                if p < before.len() {
                    assert(now[p] == before[p]);
                    assert(before.contains(e));
                } else {
                    lemma_ancestor_transitive(e, d, path);
                    assert(above.contains(e));
                    let l = choose|l: int| 0 <= l < above.len() && above[l] == e;
                    if l >= m - 1 {
                        if l > m - 1 {
                            assert(above[m - 1].len() < above[l].len());
                        }
                        assert(false);
                    }
                    assert(before.contains(above[l]));
                }
            }
            assert forall|i: int, j: int|
                0 <= i < now.len() && 0 <= j < now.len() && #[trigger] is_ancestor(
                    now[j],
                    now[i],
                ) implies j < i by {
                if i < before.len() && j < before.len() {
                    assert(now[i] == before[i]);
                    assert(now[j] == before[j]);
                } else if j == before.len() {
                    if i < before.len() {
                        assert(now[i] == before[i]);
                        assert(is_ancestor(d, before[i]));
                        assert(before.contains(d));
                    }
                }
            }
        }
    }
}

/// What [`planned_dirs`] lists: the directories above the first `n`
/// uploads that are not known, each once and behind those above it.
pub proof fn lemma_planned_dirs(uploads: Seq<Seq<char>>, known: Set<Seq<char>>, n: nat)
    requires
        n <= uploads.len(),
    ensures
        planned_dirs(uploads, known, n).no_duplicates(),
        parents_first(planned_dirs(uploads, known, n)),
        forall|d: Seq<char>|
            planned_dirs(uploads, known, n).contains(d) <==> above_one(d, uploads, n)
                && !known.contains(d),
        tidy(planned_dirs(uploads, known, n), uploads, known, n),
    decreases n,
{
    let now = planned_dirs(uploads, known, n);
    if n > 0 {
        let m = (n - 1) as nat;
        let before = planned_dirs(uploads, known, m);
        let path = uploads[n - 1];
        let above = ancestors(path);
        lemma_planned_dirs(uploads, known, m);
        assert(tidy(before, uploads, known, n)) by {
            assert forall|p: int| 0 <= p < before.len() implies above_one(
                #[trigger] before[p],
                uploads,
                n,
            ) by {
                assert(above_one(before[p], uploads, m));
                let u = choose|u: int| 0 <= u < m && is_ancestor(before[p], #[trigger] uploads[u]);
                assert(0 <= u < n && is_ancestor(before[p], uploads[u]));
            }
        }
        lemma_add_missing(before, uploads, known, m, above.len());
        lemma_ancestors_below(path, path.len());
        assert forall|d: Seq<char>| above_one(d, uploads, n) && !known.contains(
            d,
        ) implies now.contains(d) by {
            let u = choose|u: int| 0 <= u < n && is_ancestor(d, #[trigger] uploads[u]);
            if u < m {
                assert(above_one(d, uploads, m));
                assert(before.contains(d));
            } else {
                assert(above.contains(d));
                let l = choose|l: int| 0 <= l < above.len() && above[l] == d;
                assert(!known.contains(above[l]));
            }
        }
        assert forall|d: Seq<char>| now.contains(d) implies above_one(d, uploads, n)
            && !known.contains(d) by {
            let p = choose|p: int| 0 <= p < now.len() && now[p] == d;
            assert(above_one(now[p], uploads, n));
        }
    } else {
        assert forall|d: Seq<char>| now.contains(d) implies above_one(d, uploads, n)
            && !known.contains(d) by {
            let p = choose|p: int| 0 <= p < now.len() && now[p] == d;
        }
    }
}

/// The rule by which local files are picked for upload.
pub open spec fn upload_rule(local: Files, remote: Files) -> spec_fn(Seq<char>) -> bool {
    |k: Seq<char>| needs_upload(local, remote, k)
}

/// The rule by which remote files are picked for deletion.
pub open spec fn delete_rule(local: Files, remote: Files) -> spec_fn(Seq<char>) -> bool {
    |k: Seq<char>| needs_delete(local, remote, k)
}

/// The directories that the remote side is known to have.
pub open spec fn known_dirs(remote: Files) -> Set<Seq<char>> {
    Set::new(|d: Seq<char>| known_dir(remote, d))
}

/// What is to be done to make the remote side equal to the local one.
pub struct SyncPlan {
    uploads: Vec<String>,
    upload_bytes: u64,
    directories: Vec<String>,
    deletions: Vec<String>,
}

impl View for SyncPlan {
    type V = Plan;

    closed spec fn view(&self) -> Plan {
        Plan {
            uploads: texts(self.uploads@),
            upload_bytes: self.upload_bytes,
            directories: texts(self.directories@),
            deletions: texts(self.deletions@),
        }
    }
}

impl SyncPlan {
    /// The files to upload.
    pub fn uploads(&self) -> (v: &Vec<String>)
        ensures
            texts(v@) == self@.uploads,
    {
        &self.uploads
    }

    /// The sum of the sizes of the files to upload.
    pub fn upload_bytes(&self) -> (n: u64)
        ensures
            n == self@.upload_bytes,
    {
        self.upload_bytes
    }

    /// The directories to create, in the order in which to create them.
    pub fn directories(&self) -> (v: &Vec<String>)
        ensures
            texts(v@) == self@.directories,
    {
        &self.directories
    }

    /// The remote files to delete.
    pub fn deletions(&self) -> (v: &Vec<String>)
        ensures
            texts(v@) == self@.deletions,
    {
        &self.deletions
    }

    /// Whether nothing is to be uploaded and nothing to be deleted: the two
    /// sides are already identical.
    pub fn is_empty(&self) -> (b: bool)
        ensures
            b == (self@.uploads.len() == 0 && self@.deletions.len() == 0),
    {
        self.uploads.len() == 0 && self.deletions.len() == 0
    }
}

/// Picks the files to upload, and adds up their sizes.
fn plan_uploads(local: &Manifest, remote: &Manifest) -> (r: (Vec<String>, u64))
    ensures
        texts(r.0@) == kept(
            local.order(),
            upload_rule(local@, remote@),
            local.order().len(),
        ),
        r.1 == capped(total_size(local@, texts(r.0@))),
{
    let n = local.len();
    let mut uploads: Vec<String> = Vec::new();
    let mut bytes: u64 = 0;
    let mut i: usize = 0;
    assert(texts(uploads@) =~= Seq::empty());
    while i < n
        invariant
            n == local.order().len(),
            i <= n,
            forall|k: Seq<char>| local@.contains_key(k) <==> local.order().contains(k),
            texts(uploads@) == kept(local.order(), upload_rule(local@, remote@), i as nat),
            bytes == capped(total_size(local@, texts(uploads@))),
        decreases n - i,
    {
        let key = local.key_at(i);
        assert(local.order().contains(key@));
        let here = local.get(key.as_str());
        let there = remote.get(key.as_str());
        let changed = match (here, there) {
            (Some(l), Some(r)) => l.checksum != r.checksum,
            _ => true,
        };
        if changed {
            let size: u64 = match here {
                Some(FileInfo { checksum: _, size: Some(s) }) => s,
                _ => 0,
            };
            proof {
                lemma_texts_push(uploads@, *key);
                assert(texts(uploads@).push(key@).drop_last() =~= texts(uploads@));
            }
            uploads.push(key.clone());
            bytes = if size > u64::MAX - bytes {
                u64::MAX
            } else {
                bytes + size
            };
        }
        i += 1;
    }
    (uploads, bytes)
}

/// Picks the remote files to delete, and gathers the directories that hold
/// remote files.
fn plan_deletions(local: &Manifest, remote: &Manifest) -> (r: (Vec<String>, StringHashSet))
    ensures
        texts(r.0@) == kept(
            remote.order(),
            delete_rule(local@, remote@),
            remote.order().len(),
        ),
        r.1@ == parents(remote.order(), remote.order().len()),
{
    let n = remote.len();
    let mut deletions: Vec<String> = Vec::new();
    let mut known = StringHashSet::new();
    let mut i: usize = 0;
    assert(texts(deletions@) =~= Seq::empty());
    while i < n
        invariant
            n == remote.order().len(),
            i <= n,
            forall|k: Seq<char>| remote@.contains_key(k) <==> remote.order().contains(k),
            texts(deletions@) == kept(remote.order(), delete_rule(local@, remote@), i as nat),
            known@ == parents(remote.order(), i as nat),
        decreases n - i,
    {
        let key = remote.key_at(i);
        assert(remote.order().contains(key@));
        known.insert(parent_of(key.as_str()));
        if !local.contains_key(key.as_str()) {
            proof {
                lemma_texts_push(deletions@, *key);
            }
            deletions.push(key.clone());
        }
        i += 1;
    }
    (deletions, known)
}

/// Lists the directories to create for `uploads`.
fn plan_directories(uploads: &Vec<String>, known: &StringHashSet) -> (dirs: Vec<String>)
    ensures
        texts(dirs@) == planned_dirs(texts(uploads@), known@, uploads.len() as nat),
{
    let mut dirs: Vec<String> = Vec::new();
    let mut listed = StringHashSet::new();
    let mut u: usize = 0;
    assert(texts(dirs@) =~= Seq::empty());
    while u < uploads.len()
        invariant
            u <= uploads.len(),
            texts(dirs@) == planned_dirs(texts(uploads@), known@, u as nat),
            forall|x: Seq<char>| listed@.contains(x) <==> texts(dirs@).contains(x),
        decreases uploads.len() - u,
    {
        let above = ancestors_of(uploads[u].as_str());
        let ghost start = texts(dirs@);
        let mut j: usize = 0;
        while j < above.len()
            invariant
                j <= above.len(),
                texts(dirs@) == add_missing(start, texts(above@), known@, j as nat),
                forall|x: Seq<char>| listed@.contains(x) <==> texts(dirs@).contains(x),
            decreases above.len() - j,
        {
            let d = &above[j];
            if !known.contains(d.as_str()) && !listed.contains(d.as_str()) {
                proof {
                    lemma_texts_push(dirs@, *d);
                    lemma_push_contains(texts(dirs@), d@);
                }
                listed.insert(d.clone());
                dirs.push(d.clone());
            }
            j += 1;
        }
        u += 1;
    }
    dirs
}

/// Works out what is to be done to make the remote side equal to the local
/// one: which files to upload, which directories to create first, which
/// remote files to delete.
pub fn reconcile(local: &Manifest, remote: &Manifest) -> (plan: SyncPlan)
    ensures
        reconciles(plan@, local@, remote@),
        plan@.uploads == kept(local.order(), upload_rule(local@, remote@), local.order().len()),
        plan@.deletions == kept(
            remote.order(),
            delete_rule(local@, remote@),
            remote.order().len(),
        ),
        plan@.directories == planned_dirs(
            plan@.uploads,
            known_dirs(remote@),
            plan@.uploads.len(),
        ),
{
    let local_len = local.len();
    let remote_len = remote.len();
    let (uploads, upload_bytes) = plan_uploads(local, remote);
    let (deletions, known) = plan_deletions(local, remote);
    let directories = plan_directories(&uploads, &known);
    proof {
        let ups = texts(uploads@);
        lemma_kept(local.order(), upload_rule(local@, remote@), local_len as nat);
        lemma_kept(remote.order(), delete_rule(local@, remote@), remote_len as nat);
        lemma_parents(remote.order(), remote_len as nat);
        assert(known@ =~= known_dirs(remote@)) by {
            assert forall|d: Seq<char>| known@.contains(d) implies known_dir(remote@, d) by {
                let j = choose|j: int|
                    0 <= j < remote_len && #[trigger] parent_dir(remote.order()[j]) == d;
                assert(remote.order().contains(remote.order()[j]));
            }
            assert forall|d: Seq<char>| known_dir(remote@, d) implies known@.contains(d) by {
                let k = choose|k: Seq<char>|
                    remote@.contains_key(k) && #[trigger] parent_dir(k) == d;
                assert(remote.order().contains(k));
                let j = choose|j: int| 0 <= j < remote.order().len() && remote.order()[j] == k;
                assert(parent_dir(remote.order()[j]) == d);
            }
        }
        lemma_planned_dirs(ups, known@, ups.len());
        let up = upload_rule(local@, remote@);
        let del = delete_rule(local@, remote@);
        assert forall|k: Seq<char>| ups.contains(k) <==> needs_upload(local@, remote@, k) by {
            assert(up(k) == needs_upload(local@, remote@, k));
            if needs_upload(local@, remote@, k) {
                assert(local.order().contains(k));
                let j = choose|j: int| 0 <= j < local.order().len() && local.order()[j] == k;
                assert(0 <= j < local_len && local.order()[j] == k);
            }
        }
        assert forall|k: Seq<char>|
            texts(deletions@).contains(k) <==> needs_delete(local@, remote@, k) by {
            assert(del(k) == needs_delete(local@, remote@, k));
            if needs_delete(local@, remote@, k) {
                assert(remote.order().contains(k));
                let j = choose|j: int| 0 <= j < remote.order().len() && remote.order()[j] == k;
                assert(0 <= j < remote_len && remote.order()[j] == k);
            }
        }
        let dirs = texts(directories@);
        assert(dirs == planned_dirs(ups, known@, ups.len()));
        assert forall|d: Seq<char>| dirs.contains(d) implies needs_dir(local@, remote@, d) by {
            assert(above_one(d, ups, ups.len()) && !known@.contains(d));
            let u = choose|u: int| 0 <= u < ups.len() && is_ancestor(d, #[trigger] ups[u]);
            assert(ups.contains(ups[u]));
            assert(needs_upload(local@, remote@, ups[u]) && is_ancestor(d, ups[u]));
            assert(!known_dir(remote@, d));
        }
        assert forall|d: Seq<char>| needs_dir(local@, remote@, d) implies dirs.contains(d) by {
            let k = choose|k: Seq<char>|
                needs_upload(local@, remote@, k) && #[trigger] is_ancestor(d, k);
            assert(ups.contains(k));
            let u = choose|u: int| 0 <= u < ups.len() && ups[u] == k;
            assert(is_ancestor(d, ups[u]));
            assert(above_one(d, ups, ups.len()));
            assert(!known@.contains(d));
        }
    }
    SyncPlan { uploads, upload_bytes, directories, deletions }
}

/// A file that both sides have with the same checksum is neither uploaded
/// nor deleted, and no file is both.
pub proof fn lemma_unchanged_untouched(plan: Plan, local: Files, remote: Files, k: Seq<char>)
    requires
        reconciles(plan, local, remote),
    ensures
        local.contains_key(k) && remote.contains_key(k) && local[k].checksum == remote[k].checksum
            ==> !plan.uploads.contains(k) && !plan.deletions.contains(k),
        !(plan.uploads.contains(k) && plan.deletions.contains(k)),
{
}

/// Every directory above an upload that the remote side is not known to
/// have is created, once, and behind the directories above it.
pub proof fn lemma_directories_cover_uploads(
    plan: Plan,
    local: Files,
    remote: Files,
    k: Seq<char>,
    d: Seq<char>,
)
    requires
        reconciles(plan, local, remote),
        plan.uploads.contains(k),
        is_ancestor(d, k),
        !known_dir(remote, d),
    ensures
        plan.directories.contains(d),
        plan.directories.no_duplicates(),
        forall|i: int, e: Seq<char>|
            0 <= i < plan.directories.len() && plan.directories[i] == d && #[trigger] is_ancestor(
                e,
                plan.directories[i],
            ) && !known_dir(remote, e) ==> exists|j: int|
                0 <= j < i && plan.directories[j] == e,
{
    assert(needs_upload(local, remote, k));
    assert(needs_dir(local, remote, d));
    assert forall|i: int, e: Seq<char>|
        0 <= i < plan.directories.len() && plan.directories[i] == d && #[trigger] is_ancestor(
            e,
            plan.directories[i],
        ) && !known_dir(remote, e) implies exists|j: int|
        0 <= j < i && plan.directories[j] == e by {
        lemma_ancestor_transitive(e, d, k);
        assert(needs_dir(local, remote, e));
        assert(plan.directories.contains(e));
        let j = choose|j: int| 0 <= j < plan.directories.len() && plan.directories[j] == e;
        assert(is_ancestor(plan.directories[j], plan.directories[i]));
        assert(0 <= j < i && plan.directories[j] == e);
    }
}

/// Whether the two sides hold the same files with the same checksums.
pub open spec fn agree(local: Files, remote: Files) -> bool {
    &&& forall|k: Seq<char>| local.contains_key(k) <==> remote.contains_key(k)
    &&& forall|k: Seq<char>| local.contains_key(k) ==> local[k].checksum == remote[k].checksum
}

/// Whether `plan` asks for nothing.
pub open spec fn is_empty_plan(plan: Plan) -> bool {
    &&& plan.uploads.len() == 0
    &&& plan.upload_bytes == 0
    &&& plan.directories.len() == 0
    &&& plan.deletions.len() == 0
}

/// Two sides that agree need nothing: the plan for them is empty.
pub proof fn lemma_agreeing_sides_need_nothing(plan: Plan, local: Files, remote: Files)
    requires
        agree(local, remote),
        reconciles(plan, local, remote),
    ensures
        is_empty_plan(plan),
{
    if plan.uploads.len() > 0 {
        assert(plan.uploads.contains(plan.uploads[0]));
    }
    if plan.deletions.len() > 0 {
        assert(plan.deletions.contains(plan.deletions[0]));
    }
    if plan.directories.len() > 0 {
        let d = plan.directories[0];
        assert(plan.directories.contains(d));
        assert(needs_dir(local, remote, d));
        let k = choose|k: Seq<char>| needs_upload(local, remote, k) && #[trigger] is_ancestor(d, k);
        assert(false);
    }
}

/// The remote side once `plan` has been carried out: the files to delete
/// are gone, and each uploaded file is there with the checksum that the
/// local side has for it.
pub open spec fn carried_out(plan: Plan, local: Files, remote: Files) -> Files {
    Map::new(
        |k: Seq<char>|
            plan.uploads.contains(k) || (remote.contains_key(k) && !plan.deletions.contains(k)),
        |k: Seq<char>|
            if plan.uploads.contains(k) {
                FileInfo { checksum: local[k].checksum, size: None }
            } else {
                remote[k]
            },
    )
}

/// Carrying out the plan makes the two sides agree.
pub proof fn lemma_carried_out_agrees(plan: Plan, local: Files, remote: Files)
    requires
        reconciles(plan, local, remote),
    ensures
        agree(local, carried_out(plan, local, remote)),
{
    let after = carried_out(plan, local, remote);
    assert forall|k: Seq<char>| local.contains_key(k) <==> after.contains_key(k) by {
        if local.contains_key(k) && !plan.uploads.contains(k) {
            assert(!needs_upload(local, remote, k));
            assert(!needs_delete(local, remote, k));
        }
        if after.contains_key(k) && !plan.uploads.contains(k) {
            assert(!needs_delete(local, remote, k));
        }
        if plan.uploads.contains(k) {
            assert(needs_upload(local, remote, k));
        }
    }
    assert forall|k: Seq<char>| local.contains_key(k) implies local[k].checksum
        == after[k].checksum by {
        if !plan.uploads.contains(k) {
            assert(!needs_upload(local, remote, k));
        }
    }
}

/// Reconciling is idempotent: once a plan has been carried out, the plan
/// for what the two sides then hold is empty.
pub proof fn lemma_reconcile_idempotent(plan: Plan, again: Plan, local: Files, remote: Files)
    requires
        reconciles(plan, local, remote),
        reconciles(again, local, carried_out(plan, local, remote)),
    ensures
        is_empty_plan(again),
{
    lemma_carried_out_agrees(plan, local, remote);
    lemma_agreeing_sides_need_nothing(again, local, carried_out(plan, local, remote));
}

} // verus!
