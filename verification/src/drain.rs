//! What holds of the display once the workers of a run have drained their
//! queue: however the reports of the uploads were interleaved on their way
//! to the display, each upload counts once.

use crate::output::{
    begun, completions, lemma_interleaved_uploads_counted, lemma_upload_completes_once, orderly,
    run, sat_add, upload_reports, Tally,
};
use crate::progress_message::Report;
use vstd::prelude::*;

verus! {

/// One upload of a run: the file, its size, and the sizes of the blocks in
/// which it went out.
pub struct Upload {
    pub path: Seq<char>,
    pub size: u64,
    pub blocks: Seq<usize>,
}

/// The reports of the upload `u`.
pub open spec fn reports_of(u: Upload) -> Seq<Report> {
    upload_reports(u.path, u.size, u.blocks)
}

/// Those of the first `n` of `events` that come from the upload `w`, where
/// `owner` says for each event from which upload it comes.
pub open spec fn share(events: Seq<Report>, owner: Seq<int>, w: int, n: nat) -> Seq<Report>
    decreases n,
{
    if n == 0 {
        Seq::empty()
    } else if owner[n - 1] == w {
        share(events, owner, w, (n - 1) as nat).push(events[n - 1])
    } else {
        share(events, owner, w, (n - 1) as nat)
    }
}

/// Whether `events` are the reports of `uploads`, interleaved in some way:
/// each event comes from one of the uploads, and the events that come from
/// one upload are its reports, in their order.
pub open spec fn interleaves(events: Seq<Report>, owner: Seq<int>, uploads: Seq<Upload>) -> bool {
    &&& owner.len() == events.len()
    &&& forall|i: int| 0 <= i < events.len() ==> 0 <= #[trigger] owner[i] < uploads.len()
    &&& forall|w: int|
        0 <= w < uploads.len() ==> share(events, owner, w, events.len()) == reports_of(
            #[trigger] uploads[w],
        )
}

/// Whether no two of `uploads` are of one file.
pub open spec fn distinct_files(uploads: Seq<Upload>) -> bool {
    forall|a: int, b: int|
        0 <= a < b < uploads.len() ==> (#[trigger] uploads[a]).path != (#[trigger] uploads[b]).path
}

/// The share of an upload grows with the events: what it held stays at its
/// place.
proof fn lemma_share_grows(events: Seq<Report>, owner: Seq<int>, w: int, i: nat, n: nat)
    requires
        i <= n <= events.len(),
        owner.len() == events.len(),
    ensures
        share(events, owner, w, i).len() <= share(events, owner, w, n).len(),
        forall|r: int|
            0 <= r < share(events, owner, w, i).len() ==> share(events, owner, w, n)[r] == share(
                events,
                owner,
                w,
                i,
            )[r],
    decreases n - i,
{
    if i < n {
        lemma_share_grows(events, owner, w, i, (n - 1) as nat);
    }
}

/// An event stands in the share of its upload, behind the events of that
/// upload that came before it.
proof fn lemma_share_holds(events: Seq<Report>, owner: Seq<int>, i: int, n: nat)
    requires
        0 <= i < n <= events.len(),
        owner.len() == events.len(),
    ensures
        share(events, owner, owner[i], i as nat).len() < share(events, owner, owner[i], n).len(),
        share(events, owner, owner[i], n)[share(events, owner, owner[i], i as nat).len() as int]
            == events[i],
{
    let w = owner[i];
    lemma_share_grows(events, owner, w, (i + 1) as nat, n);
    assert(share(events, owner, w, (i + 1) as nat) == share(events, owner, w, i as nat).push(
        events[i],
    ));
}

/// What stands in the share of an upload is one of the events.
proof fn lemma_share_comes_from(events: Seq<Report>, owner: Seq<int>, w: int, n: nat, r: int)
    requires
        n <= events.len(),
        owner.len() == events.len(),
        0 <= r < share(events, owner, w, n).len(),
    ensures
        exists|i: int|
            0 <= i < n && #[trigger] owner[i] == w && share(events, owner, w, i as nat).len() == r
                && events[i] == share(events, owner, w, n)[r],
    decreases n,
{
    let before = share(events, owner, w, (n - 1) as nat);
    if owner[n - 1] == w && r == before.len() {
        assert(owner[n - 1] == w && share(events, owner, w, (n - 1) as nat).len() == r);
    } else {
        lemma_share_comes_from(events, owner, w, (n - 1) as nat, r);
        let i = choose|i: int|
            0 <= i < n - 1 && #[trigger] owner[i] == w && share(events, owner, w, i as nat).len()
                == r && events[i] == before[r];
        assert(0 <= i < n && owner[i] == w);
    }
}

/// The reports of an upload: first its start, last its completion, and
/// between them neither a completion nor a closing report.
proof fn lemma_shape(u: Upload, r: int)
    requires
        0 <= r < reports_of(u).len(),
    ensures
        reports_of(u).len() == u.blocks.len() + 2,
        reports_of(u)[0] == Report::Start(u.path, u.size),
        reports_of(u)[u.blocks.len() as int + 1] == Report::Complete(u.path),
        !(reports_of(u)[r] is Finished),
        reports_of(u)[r] is Complete ==> r == u.blocks.len() + 1,
{
}

/// The number of completions in the shares of the first `k` uploads.
pub open spec fn shared_completions(events: Seq<Report>, owner: Seq<int>, k: nat, n: nat) -> nat
    decreases k,
{
    if k == 0 {
        0
    } else {
        shared_completions(events, owner, (k - 1) as nat, n) + completions(
            share(events, owner, k - 1, n),
        )
    }
}

/// One more event is one more completion in the shares where it is a
/// completion of one of the uploads counted, and none otherwise.
proof fn lemma_shared_completions_step(events: Seq<Report>, owner: Seq<int>, k: nat, n: nat)
    requires
        n < events.len(),
        owner.len() == events.len(),
    ensures
        shared_completions(events, owner, k, n + 1) == shared_completions(events, owner, k, n) + (
        if 0 <= owner[n as int] < k && events[n as int] is Complete {
            1nat
        } else {
            0nat
        }),
    decreases k,
{
    if k > 0 {
        lemma_shared_completions_step(events, owner, (k - 1) as nat, n);
        let w = k - 1;
        if owner[n as int] == w {
            let grown = share(events, owner, w, n + 1);
            assert(grown.drop_last() =~= share(events, owner, w, n));
            assert(grown.last() == events[n as int]);
        }
    }
}

/// The completions among the first `n` events are those in the shares of
/// the uploads.
proof fn lemma_completions_shared(events: Seq<Report>, owner: Seq<int>, k: nat, n: nat)
    requires
        n <= events.len(),
        owner.len() == events.len(),
        forall|i: int| 0 <= i < events.len() ==> 0 <= #[trigger] owner[i] < k,
    ensures
        completions(events.take(n as int)) == shared_completions(events, owner, k, n),
    decreases n,
{
    if n == 0 {
        lemma_no_shares(events, owner, k);
    } else {
        let m = (n - 1) as nat;
        lemma_completions_shared(events, owner, k, m);
        lemma_shared_completions_step(events, owner, k, m);
        assert(events.take(n as int).drop_last() =~= events.take(m as int));
        assert(events.take(n as int).last() == events[m as int]);
    }
}

/// Before any event the shares hold no completion.
proof fn lemma_no_shares(events: Seq<Report>, owner: Seq<int>, k: nat)
    ensures
        shared_completions(events, owner, k, 0) == 0,
    decreases k,
{
    if k > 0 {
        lemma_no_shares(events, owner, (k - 1) as nat);
    }
}

/// Shares that are the reports of uploads hold one completion each.
proof fn lemma_one_each(events: Seq<Report>, owner: Seq<int>, uploads: Seq<Upload>, k: nat)
    requires
        k <= uploads.len(),
        forall|w: int|
            0 <= w < uploads.len() ==> share(events, owner, w, events.len()) == reports_of(
                #[trigger] uploads[w],
            ),
    ensures
        shared_completions(events, owner, k, events.len()) == k,
    decreases k,
{
    if k > 0 {
        lemma_one_each(events, owner, uploads, (k - 1) as nat);
        let u = uploads[k - 1];
        let resting = Tally {
            total_files: 1,
            total_bytes: 1,
            in_flight: Seq::empty(),
            files_done: 0,
            bytes_done: 0,
            drawn_bytes: 0,
            finished: false,
        };
        lemma_upload_completes_once(resting, u.path, u.size, u.blocks);
    }
}

/// The drain, as the display sees it: where the reports of a run's
/// uploads, no two of them of one file, reach a display that has not
/// ended, interleaved in whatever way, none of them is stray, and the count
/// of completed files grows by the number of uploads.
pub proof fn lemma_every_upload_counts_once(
    t: Tally,
    events: Seq<Report>,
    owner: Seq<int>,
    uploads: Seq<Upload>,
)
    requires
        !t.finished,
        interleaves(events, owner, uploads),
        distinct_files(uploads),
    ensures
        orderly(t, events),
        completions(events) == uploads.len(),
        run(t, events).files_done == sat_add(t.files_done, uploads.len()),
{
    let n = events.len();
    assert forall|i: int| 0 <= i < n implies !(#[trigger] events[i] is Finished) by {
        lemma_share_holds(events, owner, i, n);
        let r = share(events, owner, owner[i], i as nat).len() as int;
        lemma_shape(uploads[owner[i]], r);
    }
    assert forall|i: int| 0 <= i < n && #[trigger] events[i] is Complete implies begun(
        events,
        events[i]->Complete_0,
        i,
    ) by {
        let w = owner[i];
        let u = uploads[w];
        let path = events[i]->Complete_0;
        lemma_share_holds(events, owner, i, n);
        let r = share(events, owner, w, i as nat).len() as int;
        lemma_shape(u, r);
        assert(path == u.path);
        lemma_shape(u, 0);
        lemma_share_comes_from(events, owner, w, n, 0);
        let m = choose|m: int|
            0 <= m < n && #[trigger] owner[m] == w && share(events, owner, w, m as nat).len() == 0
                && events[m] == share(events, owner, w, n)[0];
        assert(m < i) by {
            if m > i {
                lemma_share_holds(events, owner, i, m as nat);
            }
        }
        assert(events[m] is Start && events[m]->Start_0 == path);
        assert forall|k: int| m < k < i implies #[trigger] events[k] != Report::Complete(path) by {
            if events[k] == Report::Complete(path) {
                let v = owner[k];
                lemma_share_holds(events, owner, k, n);
                let q = share(events, owner, v, k as nat).len() as int;
                lemma_shape(uploads[v], q);
                assert(uploads[v].path == path);
                assert(v == w);
                lemma_share_holds(events, owner, k, i as nat);
            }
        }
    }
    lemma_interleaved_uploads_counted(t, events);
    lemma_completions_shared(events, owner, uploads.len(), n);
    lemma_one_each(events, owner, uploads, uploads.len());
    assert(events.take(n as int) =~= events);
}

} // verus!
