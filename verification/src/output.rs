//! The progress display: what is shown for each report of the upload
//! workers, and the state kept between reports.

use crate::progress_message::{whole_seconds, Progress, Report};
use crate::seqs::{
    bytes_before, first_where, lemma_first_where, lemma_first_where_is_first,
    lemma_seq_before_total, lemma_seq_before_transitive, seq_before,
};
use crate::text::{
    decimal, div_half_even, div_half_up, push_decimal, push_text, round_half_even,
    round_half_up,
};
use crossbeam_channel::Receiver;
use std::time::Duration;
use vstd::prelude::*;
use vstd::utf8::encode_utf8;

verus! {

/// Bytes in one KiB.
pub const KIB: u64 = 1024;

/// Bytes in one MiB.
pub const MIB: u64 = 1024 * 1024;

/// A byte count for people: whole MiB above one MiB, whole KiB above one
/// KiB, bytes otherwise, each rounded to the nearest unit.
pub open spec fn humanize_text(size: nat) -> Seq<char> {
    if size > MIB {
        decimal(div_half_up(size, MIB as nat)) + " MiB"@
    } else if size > KIB {
        decimal(div_half_up(size, KIB as nat)) + " KiB"@
    } else {
        decimal(size) + " bytes"@
    }
}

/// Renders a byte count for people.
pub fn humanize(size: u64) -> (s: String)
    ensures
        s@ == humanize_text(size as nat),
{
    let mut s = String::new();
    if size > MIB {
        push_decimal(&mut s, round_half_up(size, MIB) as u128);
        push_text(&mut s, " MiB");
    } else if size > KIB {
        push_decimal(&mut s, round_half_up(size, KIB) as u128);
        push_text(&mut s, " KiB");
    } else {
        push_decimal(&mut s, size as u128);
        push_text(&mut s, " bytes");
    }
    s
}

/// The two-digit numeral of `n`, which is below 100.
pub open spec fn two_digits(n: nat) -> Seq<char> {
    if n < 10 {
        "0"@ + decimal(n)
    } else {
        decimal(n)
    }
}

/// The seconds a rate is taken over: the elapsed whole seconds, at least one.
pub open spec fn rate_seconds(secs: u64) -> nat {
    if secs == 0 {
        1
    } else {
        secs as nat
    }
}

/// A transfer rate for people. The size is rounded to whole MiB or KiB as in
/// [`humanize_text`] and divided by the seconds. MiB per second are given to
/// two decimal places, KiB and bytes per second as whole numbers; a tie
/// rounds to the even neighbour.
pub open spec fn rate_text(size: nat, secs: u64) -> Seq<char> {
    let t = rate_seconds(secs);
    if size > MIB {
        let hundredths = div_half_even(div_half_up(size, MIB as nat) * 100, t);
        decimal(hundredths / 100) + "."@ + two_digits(hundredths % 100) + " MiB/s"@
    } else if size > KIB {
        decimal(div_half_even(div_half_up(size, KIB as nat), t)) + " KiB/s"@
    } else {
        decimal(div_half_even(size, t)) + " B/s"@
    }
}

/// Renders the rate at which `size` bytes went out in `secs` whole seconds.
pub fn humanize_rate(size: u64, secs: u64) -> (s: String)
    ensures
        s@ == rate_text(size as nat, secs),
{
    let t: u128 = if secs == 0 {
        1
    } else {
        secs as u128
    };
    let mut s = String::new();
    if size > MIB {
        let units: u64 = round_half_up(size, MIB);
        let hundredths: u128 = round_half_even(units as u128 * 100, t);
        push_decimal(&mut s, hundredths / 100);
        push_text(&mut s, ".");
        let cents: u128 = hundredths % 100;
        if cents < 10 {
            push_text(&mut s, "0");
        }
        push_decimal(&mut s, cents);
        push_text(&mut s, " MiB/s");
    } else if size > KIB {
        let units: u64 = round_half_up(size, KIB);
        push_decimal(&mut s, round_half_even(units as u128, t));
        push_text(&mut s, " KiB/s");
    } else {
        push_decimal(&mut s, round_half_even(size as u128, t));
        push_text(&mut s, " B/s");
    }
    s
}

/// Renders the rate at which `size` bytes went out in the time `time`.
pub fn humanize_speed(size: u64, time: Duration) -> (s: String)
    ensures
        s@ == rate_text(size as nat, whole_seconds(time)),
{
    humanize_rate(size, time.as_secs())
}

/// A file whose upload has begun and is not yet complete.
pub struct InFlight {
    pub path: String,
    pub size: u64,
}

/// What the display knows between two reports.
pub struct Tally {
    /// The number of files that the run uploads.
    pub total_files: usize,
    /// The number of bytes that the run uploads.
    pub total_bytes: u64,
    /// The files under way with their sizes, ordered by path.
    pub in_flight: Seq<(Seq<char>, u64)>,
    /// The number of files completed.
    pub files_done: u64,
    /// The number of bytes that went out.
    pub bytes_done: u64,
    /// The value of `bytes_done` when the progress line was last drawn.
    pub drawn_bytes: u64,
    /// Whether the display has ended.
    pub finished: bool,
}

/// What the display does with one report.
pub enum Shown {
    /// It stays as it is.
    Nothing,
    /// This text goes to the terminal.
    Line(Seq<char>),
    /// This text goes to the terminal, and the display ends.
    Last(Seq<char>),
    /// The report completes a file that is not under way.
    Stray,
}

/// What [`Aggregator::step`] hands back: see [`Shown`].
#[derive(Debug, PartialEq, Eq)]
pub enum Render {
    Nothing,
    Line(String),
    Last(String),
    Stray,
}

impl View for Render {
    type V = Shown;

    open spec fn view(&self) -> Shown {
        match self {
            Render::Nothing => Shown::Nothing,
            Render::Line(s) => Shown::Line(s@),
            Render::Last(s) => Shown::Last(s@),
            Render::Stray => Shown::Stray,
        }
    }
}

/// `a + b`, or the largest `u64` where the sum exceeds it.
pub open spec fn sat_add(a: u64, b: nat) -> u64 {
    if a + b > u64::MAX {
        u64::MAX
    } else {
        (a + b) as u64
    }
}

/// The order of paths in the display: that of their UTF-8 bytes.
pub open spec fn path_before(a: Seq<char>, b: Seq<char>) -> bool {
    seq_before(encode_utf8(a), encode_utf8(b))
}

/// The state before any report. With no file or no byte to upload the
/// display has nothing to show and is over at once.
pub open spec fn initial_tally(total_files: usize, total_bytes: u64) -> Tally {
    Tally {
        total_files,
        total_bytes,
        in_flight: Seq::empty(),
        files_done: 0,
        bytes_done: 0,
        drawn_bytes: 0,
        finished: total_files == 0 || total_bytes == 0,
    }
}

/// The test for a file under way whose path does not come before `path`.
pub open spec fn not_before(path: Seq<char>) -> spec_fn((Seq<char>, u64)) -> bool {
    |e: (Seq<char>, u64)| !path_before(e.0, path)
}

/// The test for the file under way whose path is `path`.
pub open spec fn is_path(path: Seq<char>) -> spec_fn((Seq<char>, u64)) -> bool {
    |e: (Seq<char>, u64)| e.0 == path
}

/// Where `path` belongs among the files under way: behind all that come
/// before it.
pub open spec fn slot(in_flight: Seq<(Seq<char>, u64)>, path: Seq<char>) -> nat {
    first_where(in_flight, not_before(path))
}

/// The files under way once the upload of `path` has begun. A path that is
/// already under way keeps its place and takes the new size.
pub open spec fn with_started(in_flight: Seq<(Seq<char>, u64)>, path: Seq<char>, size: u64) -> Seq<
    (Seq<char>, u64),
> {
    let i = slot(in_flight, path) as int;
    if i < in_flight.len() && in_flight[i].0 == path {
        in_flight.update(i, (path, size))
    } else {
        in_flight.insert(i, (path, size))
    }
}

/// The place of `path` among the files under way, or their number where it
/// is not among them.
pub open spec fn position(in_flight: Seq<(Seq<char>, u64)>, path: Seq<char>) -> nat {
    first_where(in_flight, is_path(path))
}

/// The share of the planned bytes that went out, in whole percent.
pub open spec fn percent(t: Tally) -> nat {
    div_half_even(t.bytes_done as nat * 100, t.total_bytes as nat)
}

/// Whether the progress line is drawn anew: only once the bytes that went
/// out since it was last drawn make up one percent of the planned bytes, and
/// never where no file or no byte is planned.
pub open spec fn redraw_due(t: Tally) -> bool {
    &&& t.total_files > 0
    &&& t.total_bytes > 0
    &&& (t.bytes_done - t.drawn_bytes) * 100 >= t.total_bytes
}

/// The paths of the files under way, separated by single spaces.
pub open spec fn joined(in_flight: Seq<(Seq<char>, u64)>) -> Seq<char>
    decreases in_flight.len(),
{
    if in_flight.len() == 0 {
        Seq::empty()
    } else if in_flight.len() == 1 {
        in_flight[0].0
    } else {
        joined(in_flight.drop_last()) + " "@ + in_flight.last().0
    }
}

/// The line shown when the upload of `path`, of `size` bytes, is complete.
/// It ends by clearing the rest of the terminal line.
pub open spec fn uploaded_line(path: Seq<char>, size: u64) -> Seq<char> {
    "\rUploaded "@ + path + " ("@ + humanize_text(size as nat) + ")"@ + "\x1B[K\n"@
}

/// The progress line.
pub open spec fn progress_line(t: Tally) -> Seq<char> {
    "\rProgress: "@ + decimal(t.files_done as nat) + " / "@ + decimal(t.total_files as nat)
        + " files, "@ + decimal(percent(t)) + "% of bytes. ["@ + joined(t.in_flight) + "]"@
}

/// The closing line of a run that took `secs` whole seconds.
pub open spec fn finished_line(total_files: usize, total_bytes: u64, secs: u64) -> Seq<char> {
    "\rFinished "@ + decimal(total_files as nat) + " files, "@ + humanize_text(total_bytes as nat)
        + " at "@ + rate_text(total_bytes as nat, secs) + ".\n"@
}

/// The state after a block of `n` bytes went out, before the display decides
/// whether to draw.
pub open spec fn with_part(t: Tally, n: usize) -> Tally {
    Tally { bytes_done: sat_add(t.bytes_done, n as nat), ..t }
}

/// The state after the report `e`. A display that has ended ignores every
/// report.
pub open spec fn next_tally(t: Tally, e: Report) -> Tally {
    if t.finished {
        t
    } else {
        match e {
            Report::Start(path, size) => Tally {
                in_flight: with_started(t.in_flight, path, size),
                ..t
            },
            Report::Part(n) => {
                let moved = with_part(t, n);
                if redraw_due(moved) {
                    Tally { drawn_bytes: moved.bytes_done, ..moved }
                } else {
                    moved
                }
            },
            Report::Complete(path) => {
                let i = position(t.in_flight, path) as int;
                if i < t.in_flight.len() {
                    Tally {
                        in_flight: t.in_flight.remove(i),
                        files_done: sat_add(t.files_done, 1),
                        ..t
                    }
                } else {
                    t
                }
            },
            Report::Finished(_) => Tally { finished: true, ..t },
        }
    }
}

/// What the display shows for the report `e`.
pub open spec fn rendering(t: Tally, e: Report) -> Shown {
    if t.finished {
        Shown::Nothing
    } else {
        match e {
            Report::Start(_, _) => Shown::Nothing,
            Report::Part(n) => {
                let moved = with_part(t, n);
                if redraw_due(moved) {
                    Shown::Line(progress_line(moved))
                } else {
                    Shown::Nothing
                }
            },
            Report::Complete(path) => {
                let i = position(t.in_flight, path) as int;
                if i < t.in_flight.len() {
                    Shown::Line(uploaded_line(path, t.in_flight[i].1))
                } else {
                    Shown::Stray
                }
            },
            Report::Finished(secs) => Shown::Last(
                finished_line(t.total_files, t.total_bytes, secs),
            ),
        }
    }
}

/// The files under way, as the display's state holds them.
pub open spec fn flights(v: Seq<InFlight>) -> Seq<(Seq<char>, u64)> {
    Seq::new(v.len(), |i: int| (v[i].path@, v[i].size))
}

/// The single consumer of the workers' reports. It keeps the files under
/// way, the count of completed files and the bytes that went out, and says
/// for each report what to show.
pub struct Aggregator {
    total_files: usize,
    total_bytes: u64,
    in_flight: Vec<InFlight>,
    files_done: u64,
    bytes_done: u64,
    drawn_bytes: u64,
    finished: bool,
}

impl View for Aggregator {
    type V = Tally;

    closed spec fn view(&self) -> Tally {
        Tally {
            total_files: self.total_files,
            total_bytes: self.total_bytes,
            in_flight: flights(self.in_flight@),
            files_done: self.files_done,
            bytes_done: self.bytes_done,
            drawn_bytes: self.drawn_bytes,
            finished: self.finished,
        }
    }
}

impl Aggregator {
    /// A display for a run that uploads `total_files` files of `total_bytes`
    /// bytes in all.
    pub fn new(total_files: usize, total_bytes: u64) -> (a: Self)
        ensures
            a@ == initial_tally(total_files, total_bytes),
    {
        let a = Aggregator {
            total_files,
            total_bytes,
            in_flight: Vec::new(),
            files_done: 0,
            bytes_done: 0,
            drawn_bytes: 0,
            finished: total_files == 0 || total_bytes == 0,
        };
        assert(flights(a.in_flight@) =~= Seq::empty());
        a
    }

    /// Whether the display has ended, so that no report is awaited.
    pub fn is_finished(&self) -> (b: bool)
        ensures
            b == self@.finished,
    {
        self.finished
    }

    /// The number of files completed.
    pub fn files_done(&self) -> (n: u64)
        ensures
            n == self@.files_done,
    {
        self.files_done
    }

    /// The number of bytes that went out.
    pub fn bytes_done(&self) -> (n: u64)
        ensures
            n == self@.bytes_done,
    {
        self.bytes_done
    }

    /// The number of files under way.
    pub fn in_flight(&self) -> (n: usize)
        ensures
            n == self@.in_flight.len(),
    {
        self.in_flight.len()
    }

    /// Takes in one report and says what to show for it.
    pub fn step(&mut self, event: Progress) -> (out: Render)
        ensures
            final(self)@ == next_tally(old(self)@, event@),
            out@ == rendering(old(self)@, event@),
    {
        if self.finished {
            return Render::Nothing;
        }
        match event {
            Progress::Start(path, size) => {
                self.start(path, size);
                Render::Nothing
            },
            Progress::Part(n) => {
                match self.part(n) {
                    Some(line) => Render::Line(line),
                    None => Render::Nothing,
                }
            },
            Progress::Complete(path) => {
                match self.complete(path.as_str()) {
                    Some(line) => Render::Line(line),
                    None => Render::Stray,
                }
            },
            Progress::Finished(d) => {
                match self.finish(d.as_secs()) {
                    Some(line) => Render::Last(line),
                    None => Render::Nothing,
                }
            },
        }
    }

    /// Notes that the upload of `path`, of `size` bytes, has begun.
    fn start(&mut self, path: String, size: u64)
        ensures
            final(self)@ == (Tally {
                in_flight: with_started(old(self)@.in_flight, path@, size),
                ..old(self)@
            }),
    {
        let ghost before = flights(self.in_flight@);
        let ghost later = not_before(path@);
        let mut i: usize = 0;
        while i < self.in_flight.len() && bytes_before(
            self.in_flight[i].path.as_str().as_bytes(),
            path.as_str().as_bytes(),
        )
            invariant
                i <= self.in_flight.len(),
                *self == *old(self),
                before == flights(self.in_flight@),
                later == not_before(path@),
                forall|j: int| 0 <= j < i ==> !later(#[trigger] before[j]),
            decreases self.in_flight.len() - i,
        {
            i += 1;
        }
        proof {
            lemma_first_where(before, later, i as int);
        }
        if i < self.in_flight.len() && self.in_flight[i].path == path {
            self.in_flight[i].size = size;
            assert(flights(self.in_flight@) =~= before.update(i as int, (path@, size)));
        } else {
            self.in_flight.insert(i, InFlight { path, size });
            assert(flights(self.in_flight@) =~= before.insert(i as int, (path@, size)));
        }
    }

    /// Notes that a block of `n` bytes went out. Hands back the progress
    /// line where it is to be drawn anew.
    fn part(&mut self, n: usize) -> (line: Option<String>)
        ensures
            final(self)@ == (if redraw_due(with_part(old(self)@, n)) {
                Tally {
                    drawn_bytes: with_part(old(self)@, n).bytes_done,
                    ..with_part(old(self)@, n)
                }
            } else {
                with_part(old(self)@, n)
            }),
            match line {
                Some(text) => redraw_due(with_part(old(self)@, n)) && text@ == progress_line(
                    with_part(old(self)@, n),
                ),
                None => !redraw_due(with_part(old(self)@, n)),
            },
    {
        let room: u64 = u64::MAX - self.bytes_done;
        if n as u64 > room {
            self.bytes_done = u64::MAX;
        } else {
            self.bytes_done = self.bytes_done + n as u64;
        }
        let gained: u128 = if self.bytes_done >= self.drawn_bytes {
            (self.bytes_done - self.drawn_bytes) as u128 * 100
        } else {
            0
        };
        if self.total_files > 0 && self.total_bytes > 0 && gained >= self.total_bytes as u128 {
            let line = self.progress_line();
            self.drawn_bytes = self.bytes_done;
            Some(line)
        } else {
            None
        }
    }

    /// Notes that the upload of `path` is complete. Hands back the line to
    /// show, or nothing where `path` is not under way; the state is then
    /// unchanged.
    fn complete(&mut self, path: &str) -> (line: Option<String>)
        ensures
            match line {
                Some(text) => {
                    let i = position(old(self)@.in_flight, path@) as int;
                    &&& i < old(self)@.in_flight.len()
                    &&& text@ == uploaded_line(path@, old(self)@.in_flight[i].1)
                    &&& final(self)@ == (Tally {
                        in_flight: old(self)@.in_flight.remove(i),
                        files_done: sat_add(old(self)@.files_done, 1),
                        ..old(self)@
                    })
                },
                None => position(old(self)@.in_flight, path@) >= old(self)@.in_flight.len()
                    && final(self)@ == old(self)@,
            },
    {
        let ghost before = flights(self.in_flight@);
        let ghost same = is_path(path@);
        let wanted: String = path.to_owned();
        let mut i: usize = 0;
        while i < self.in_flight.len() && self.in_flight[i].path != wanted
            invariant
                wanted@ == path@,
                i <= self.in_flight.len(),
                *self == *old(self),
                before == flights(self.in_flight@),
                same == is_path(path@),
                forall|j: int| 0 <= j < i ==> !same(#[trigger] before[j]),
            decreases self.in_flight.len() - i,
        {
            i += 1;
        }
        proof {
            lemma_first_where(before, same, i as int);
        }
        if i >= self.in_flight.len() {
            return None;
        }
        let gone = self.in_flight.remove(i);
        assert(flights(self.in_flight@) =~= before.remove(i as int));
        if self.files_done < u64::MAX {
            self.files_done = self.files_done + 1;
        }
        let mut text = String::new();
        push_text(&mut text, "\rUploaded ");
        push_text(&mut text, path);
        push_text(&mut text, " (");
        let size = humanize(gone.size);
        push_text(&mut text, size.as_str());
        push_text(&mut text, ")");
        push_text(&mut text, "\x1B[K\n");
        Some(text)
    }

    /// Ends the display of a run that took `secs` whole seconds, and hands
    /// back the closing line; nothing where the display has ended before.
    pub fn finish(&mut self, secs: u64) -> (line: Option<String>)
        ensures
            final(self)@ == (Tally { finished: true, ..old(self)@ }),
            match line {
                Some(text) => !old(self)@.finished && text@ == finished_line(
                    old(self)@.total_files,
                    old(self)@.total_bytes,
                    secs,
                ),
                None => old(self)@.finished,
            },
    {
        if self.finished {
            return None;
        }
        self.finished = true;
        let mut text = String::new();
        push_text(&mut text, "\rFinished ");
        push_decimal(&mut text, self.total_files as u128);
        push_text(&mut text, " files, ");
        let size = humanize(self.total_bytes);
        push_text(&mut text, size.as_str());
        push_text(&mut text, " at ");
        let rate = humanize_rate(self.total_bytes, secs);
        push_text(&mut text, rate.as_str());
        push_text(&mut text, ".\n");
        Some(text)
    }

    /// Writes the progress line.
    fn progress_line(&self) -> (text: String)
        requires
            self@.total_bytes > 0,
        ensures
            text@ == progress_line(self@),
    {
        let mut text = String::new();
        push_text(&mut text, "\rProgress: ");
        push_decimal(&mut text, self.files_done as u128);
        push_text(&mut text, " / ");
        push_decimal(&mut text, self.total_files as u128);
        push_text(&mut text, " files, ");
        push_decimal(
            &mut text,
            round_half_even(self.bytes_done as u128 * 100, self.total_bytes as u128),
        );
        push_text(&mut text, "% of bytes. [");
        let ghost head = text@;
        let ghost all = flights(self.in_flight@);
        let mut i: usize = 0;
        assert(all.take(0) =~= Seq::empty());
        while i < self.in_flight.len()
            invariant
                i <= self.in_flight.len(),
                all == flights(self.in_flight@),
                text@ == head + joined(all.take(i as int)),
            decreases self.in_flight.len() - i,
        {
            if i > 0 {
                push_text(&mut text, " ");
            }
            push_text(&mut text, self.in_flight[i].path.as_str());
            proof {
                let shorter = all.take(i as int);
                let longer = all.take(i + 1);
                assert(longer.drop_last() =~= shorter);
                assert(longer.last() == all[i as int]);
                assert(text@ =~= head + joined(longer));
            }
            i += 1;
        }
        assert(all.take(i as int) =~= all);
        push_text(&mut text, "]");
        text
    }
}

/// Where the display shows its lines.
pub trait Screen {
    /// Shows `text`, which brings its own carriage returns and line feeds.
    fn show(&mut self, text: &str);
}

/// Why the display has ended.
#[derive(Clone, Copy, Debug, PartialEq, Eq)]
pub enum Ended {
    /// No file or no byte was to be uploaded: there was nothing to show.
    Silent,
    /// The closing report arrived, and the closing line is shown.
    Finished,
    /// Every sender of reports is gone, and no report is left.
    Disconnected,
    /// A report completed a file that was not under way.
    Stray,
    /// More reports arrived than can be counted.
    Overrun,
}

/// Runs the display of a run that uploads `total_files` files of
/// `total_bytes` bytes: takes the reports from `recv` one after the other
/// and shows on `screen` what [`Aggregator::step`] says, until the display
/// ends. With no file or no byte to upload it ends at once, and takes no
/// report.
pub fn run_output<S: Screen>(
    total_files: usize,
    total_bytes: u64,
    recv: &Receiver<Progress>,
    screen: &mut S,
) -> (end: Ended)
    ensures
        end == Ended::Silent <==> total_files == 0 || total_bytes == 0,
{
    let mut display = Aggregator::new(total_files, total_bytes);
    if display.is_finished() {
        return Ended::Silent;
    }
    let mut taken: u64 = 0;
    while taken < u64::MAX
        invariant
            !display@.finished,
            total_files != 0,
            total_bytes != 0,
        decreases u64::MAX - taken,
    {
        let progress = match recv.recv() {
            Ok(progress) => progress,
            Err(_) => {
                return Ended::Disconnected;
            },
        };
        match display.step(progress) {
            Render::Nothing => {},
            Render::Line(text) => {
                screen.show(text.as_str());
            },
            Render::Last(text) => {
                screen.show(text.as_str());
                return Ended::Finished;
            },
            Render::Stray => {
                return Ended::Stray;
            },
        }
        taken += 1;
    }
    Ended::Overrun
}

/// The state after the reports `events`, taken in one after the other.
pub open spec fn run(t: Tally, events: Seq<Report>) -> Tally
    decreases events.len(),
{
    if events.len() == 0 {
        t
    } else {
        next_tally(run(t, events.drop_last()), events.last())
    }
}

/// The number of completions among `events`.
pub open spec fn completions(events: Seq<Report>) -> nat
    decreases events.len(),
{
    if events.len() == 0 {
        0
    } else if events.last() is Complete {
        completions(events.drop_last()) + 1
    } else {
        completions(events.drop_last())
    }
}

/// Whether `events` reach a display in state `t` as the workers of one run
/// send them: none ends the display, and each completion is of a file under
/// way when it arrives.
pub open spec fn orderly(t: Tally, events: Seq<Report>) -> bool
    decreases events.len(),
{
    events.len() == 0 || {
        &&& orderly(t, events.drop_last())
        &&& !(events.last() is Finished)
        &&& rendering(run(t, events.drop_last()), events.last()) != Shown::Stray
    }
}

/// Every completion counts once: after an orderly stream of reports the
/// count of completed files has grown by the number of completions in the
/// stream, and the display has not ended.
pub proof fn lemma_completions_counted(t: Tally, events: Seq<Report>)
    requires
        !t.finished,
        orderly(t, events),
    ensures
        !run(t, events).finished,
        run(t, events).files_done == sat_add(t.files_done, completions(events)),
    decreases events.len(),
{
    if events.len() > 0 {
        lemma_completions_counted(t, events.drop_last());
    }
}

/// The reports of one upload: its start, one report for each block, its
/// completion.
pub open spec fn upload_reports(path: Seq<char>, size: u64, blocks: Seq<usize>) -> Seq<Report> {
    seq![Report::Start(path, size)] + Seq::new(blocks.len(), |i: int| Report::Part(blocks[i]))
        + seq![Report::Complete(path)]
}

/// One upload is one completion: its reports are orderly whatever the state
/// of a display that has not ended, and hold exactly one completion.
pub proof fn lemma_upload_completes_once(t: Tally, path: Seq<char>, size: u64, blocks: Seq<usize>)
    requires
        !t.finished,
    ensures
        orderly(t, upload_reports(path, size, blocks)),
        completions(upload_reports(path, size, blocks)) == 1,
{
    let all = upload_reports(path, size, blocks);
    let body = all.drop_last();
    assert(all.last() == Report::Complete(path));
    assert(body =~= seq![Report::Start(path, size)] + Seq::new(
        blocks.len(),
        |i: int| Report::Part(blocks[i]),
    ));
    lemma_started_stays(t, path, size, blocks, blocks.len());
    assert(body =~= upload_head(path, size, blocks, blocks.len()));
    let reached = run(t, body);
    let under_way = with_started(t.in_flight, path, size);
    let same = is_path(path);
    lemma_first_where_is_first(under_way, same);
    lemma_first_where_is_first(t.in_flight, not_before(path));
    let i = slot(t.in_flight, path) as int;
    assert(same(under_way[i]));
    assert(position(under_way, path) < under_way.len());
}

/// The start of an upload and its first `n` blocks.
spec fn upload_head(path: Seq<char>, size: u64, blocks: Seq<usize>, n: nat) -> Seq<Report> {
    (seq![Report::Start(path, size)] + Seq::new(
        blocks.len(),
        |i: int| Report::Part(blocks[i]),
    )).take(n as int + 1)
}

/// After the start of an upload and any number of its blocks, the stream so
/// far is orderly, holds no completion, and the file is under way.
proof fn lemma_started_stays(t: Tally, path: Seq<char>, size: u64, blocks: Seq<usize>, n: nat)
    requires
        !t.finished,
        n <= blocks.len(),
    ensures
        orderly(t, upload_head(path, size, blocks, n)),
        completions(upload_head(path, size, blocks, n)) == 0,
        !run(t, upload_head(path, size, blocks, n)).finished,
        run(t, upload_head(path, size, blocks, n)).in_flight == with_started(
            t.in_flight,
            path,
            size,
        ),
    decreases n,
{
    let head = upload_head(path, size, blocks, n);
    let before = head.drop_last();
    if n == 0 {
        assert(before =~= Seq::empty());
        assert(head.last() == Report::Start(path, size));
        assert(run(t, before) == t);
        assert(orderly(t, before));
        assert(completions(before) == 0);
    } else {
        lemma_started_stays(t, path, size, blocks, (n - 1) as nat);
        assert(before =~= upload_head(path, size, blocks, (n - 1) as nat));
        assert(head.last() == Report::Part(blocks[n - 1]));
    }
    assert(run(t, head) == next_tally(run(t, before), head.last()));
}

/// Whether the files under way stand in the order of their paths, each
/// path once.
pub open spec fn ordered(in_flight: Seq<(Seq<char>, u64)>) -> bool {
    forall|i: int, j: int|
        0 <= i < j < in_flight.len() ==> path_before(
            (#[trigger] in_flight[i]).0,
            (#[trigger] in_flight[j]).0,
        )
}

/// Different paths have different places in the order.
proof fn lemma_path_order_total(a: Seq<char>, b: Seq<char>)
    requires
        a != b,
        !path_before(a, b),
    ensures
        path_before(b, a),
{
    vstd::utf8::encode_utf8_decode_utf8(a);
    vstd::utf8::encode_utf8_decode_utf8(b);
    lemma_seq_before_total(encode_utf8(a), encode_utf8(b));
}

/// The start of an upload keeps the files under way in order.
pub proof fn lemma_started_keeps_order(in_flight: Seq<(Seq<char>, u64)>, path: Seq<char>, size: u64)
    requires
        ordered(in_flight),
    ensures
        ordered(with_started(in_flight, path, size)),
{
    let now = with_started(in_flight, path, size);
    let at = slot(in_flight, path) as int;
    lemma_first_where_is_first(in_flight, not_before(path));
    assert forall|j: int| 0 <= j < at implies path_before(in_flight[j].0, path) by {
        assert(!not_before(path)(in_flight[j]));
    }
    if at < in_flight.len() && in_flight[at].0 == path {
        assert forall|i: int, j: int| 0 <= i < j < now.len() implies path_before(
            (#[trigger] now[i]).0,
            (#[trigger] now[j]).0,
        ) by {
            assert(now[i].0 == in_flight[i].0);
            assert(now[j].0 == in_flight[j].0);
        }
    } else {
        assert forall|j: int| at <= j < in_flight.len() implies path_before(
            path,
            in_flight[j].0,
        ) by {
            assert(not_before(path)(in_flight[at]));
            lemma_path_order_total(in_flight[at].0, path);
            if j > at {
                lemma_seq_before_transitive(
                    encode_utf8(path),
                    encode_utf8(in_flight[at].0),
                    encode_utf8(in_flight[j].0),
                );
            }
        }
        assert forall|i: int, j: int| 0 <= i < j < now.len() implies path_before(
            (#[trigger] now[i]).0,
            (#[trigger] now[j]).0,
        ) by {
            if j < at {
                assert(now[i] == in_flight[i] && now[j] == in_flight[j]);
            } else if j == at {
                assert(now[i] == in_flight[i]);
            } else if i < at {
                assert(now[i] == in_flight[i] && now[j] == in_flight[j - 1]);
            } else if i == at {
                assert(now[j] == in_flight[j - 1]);
            } else {
                assert(now[i] == in_flight[i - 1] && now[j] == in_flight[j - 1]);
            }
        }
    }
}

/// The files under way stay in the order of their paths, whatever is
/// reported: the progress line lists them in that order.
pub proof fn lemma_reports_keep_order(t: Tally, e: Report)
    requires
        ordered(t.in_flight),
    ensures
        ordered(next_tally(t, e).in_flight),
{
    if !t.finished {
        match e {
            Report::Start(path, size) => {
                lemma_started_keeps_order(t.in_flight, path, size);
            },
            Report::Complete(path) => {
                let at = position(t.in_flight, path) as int;
                if at < t.in_flight.len() {
                    let now = t.in_flight.remove(at);
                    assert forall|i: int, j: int| 0 <= i < j < now.len() implies path_before(
                        (#[trigger] now[i]).0,
                        (#[trigger] now[j]).0,
                    ) by {
                        let a = if i < at {
                            i
                        } else {
                            i + 1
                        };
                        let b = if j < at {
                            j
                        } else {
                            j + 1
                        };
                        assert(now[i] == t.in_flight[a] && now[j] == t.in_flight[b]);
                    }
                }
            },
            _ => {},
        }
    }
}

/// The progress line always lists the files under way in the order of
/// their paths: they are in order before any report, and stay so.
pub proof fn lemma_display_keeps_order(total_files: usize, total_bytes: u64, events: Seq<Report>)
    ensures
        ordered(run(initial_tally(total_files, total_bytes), events).in_flight),
    decreases events.len(),
{
    if events.len() > 0 {
        lemma_display_keeps_order(total_files, total_bytes, events.drop_last());
        lemma_reports_keep_order(
            run(initial_tally(total_files, total_bytes), events.drop_last()),
            events.last(),
        );
    }
}

/// Whether the file `path` is under way.
pub open spec fn under_way(in_flight: Seq<(Seq<char>, u64)>, path: Seq<char>) -> bool {
    position(in_flight, path) < in_flight.len()
}

/// A file is under way where one of the files under way has its path.
proof fn lemma_under_way(in_flight: Seq<(Seq<char>, u64)>, path: Seq<char>)
    ensures
        under_way(in_flight, path) <==> exists|i: int|
            0 <= i < in_flight.len() && (#[trigger] in_flight[i]).0 == path,
{
    lemma_first_where_is_first(in_flight, is_path(path));
    let at = position(in_flight, path) as int;
    if at < in_flight.len() {
        assert(is_path(path)(in_flight[at]));
        assert(in_flight[at].0 == path);
    }
    if exists|i: int| 0 <= i < in_flight.len() && (#[trigger] in_flight[i]).0 == path {
        let i = choose|i: int| 0 <= i < in_flight.len() && (#[trigger] in_flight[i]).0 == path;
        assert(is_path(path)(in_flight[i]));
    }
}

/// A file whose upload has begun is under way, and so is every file that
/// was under way before.
proof fn lemma_started_is_under_way(
    in_flight: Seq<(Seq<char>, u64)>,
    path: Seq<char>,
    size: u64,
    other: Seq<char>,
)
    ensures
        under_way(with_started(in_flight, path, size), path),
        under_way(in_flight, other) ==> under_way(with_started(in_flight, path, size), other),
{
    let now = with_started(in_flight, path, size);
    let at = slot(in_flight, path) as int;
    lemma_first_where_is_first(in_flight, not_before(path));
    lemma_under_way(now, path);
    lemma_under_way(now, other);
    lemma_under_way(in_flight, other);
    assert(now[at].0 == path);
    if under_way(in_flight, other) {
        let i = choose|i: int| 0 <= i < in_flight.len() && (#[trigger] in_flight[i]).0 == other;
        if at < in_flight.len() && in_flight[at].0 == path {
            assert(now[i].0 == other);
        } else if i < at {
            assert(now[i] == in_flight[i]);
        } else {
            assert(now[i + 1] == in_flight[i]);
        }
    }
}

/// The completion of one file leaves every other file under way.
proof fn lemma_completed_leaves_others(
    in_flight: Seq<(Seq<char>, u64)>,
    path: Seq<char>,
    other: Seq<char>,
)
    requires
        under_way(in_flight, path),
        under_way(in_flight, other),
        other != path,
    ensures
        under_way(in_flight.remove(position(in_flight, path) as int), other),
{
    let at = position(in_flight, path) as int;
    let now = in_flight.remove(at);
    lemma_under_way(in_flight, path);
    lemma_under_way(in_flight, other);
    lemma_under_way(now, other);
    lemma_first_where_is_first(in_flight, is_path(path));
    assert(is_path(path)(in_flight[at]));
    let i = choose|i: int| 0 <= i < in_flight.len() && (#[trigger] in_flight[i]).0 == other;
    if i < at {
        assert(now[i] == in_flight[i]);
    } else {
        assert(now[i - 1] == in_flight[i]);
    }
}

/// Whether none of `events` ends the display.
pub open spec fn none_finishes(events: Seq<Report>) -> bool {
    forall|n: int| 0 <= n < events.len() ==> !(#[trigger] events[n] is Finished)
}

/// Whether, among the first `n` of `events`, the upload of `path` has
/// begun and is not reported complete since.
pub open spec fn begun(events: Seq<Report>, path: Seq<char>, n: int) -> bool {
    exists|m: int|
        0 <= m < n && #[trigger] events[m] is Start && events[m]->Start_0 == path && forall|k: int|
            m < k < n ==> #[trigger] events[k] != Report::Complete(path)
}

/// Whether every completion among `events` answers a start: the upload
/// of its file has begun before, and is not reported complete in between.
/// This holds of the reports of any number of workers, however they are
/// interleaved, as long as no two of them upload one file at one time.
pub open spec fn starts_first(events: Seq<Report>) -> bool {
    forall|n: int|
        0 <= n < events.len() && #[trigger] events[n] is Complete ==> begun(
            events,
            events[n]->Complete_0,
            n,
        )
}

/// Without a closing report the display does not end.
proof fn lemma_display_goes_on(t: Tally, events: Seq<Report>)
    requires
        !t.finished,
        none_finishes(events),
    ensures
        !run(t, events).finished,
    decreases events.len(),
{
    if events.len() > 0 {
        let before = events.drop_last();
        assert forall|n: int| 0 <= n < before.len() implies !(#[trigger] before[n] is Finished) by {
            assert(before[n] == events[n]);
        }
        lemma_display_goes_on(t, before);
        assert(!(events[events.len() - 1] is Finished));
    }
}

/// A file whose upload has begun, and is not reported complete since, is
/// under way.
proof fn lemma_begun_is_under_way(t: Tally, events: Seq<Report>, path: Seq<char>)
    requires
        !t.finished,
        none_finishes(events),
        begun(events, path, events.len() as int),
    ensures
        under_way(run(t, events).in_flight, path),
    decreases events.len(),
{
    let n = events.len() as int;
    let before = events.drop_last();
    let last = events.last();
    let m = choose|m: int|
        0 <= m < n && #[trigger] events[m] is Start && events[m]->Start_0 == path && forall|k: int|
            m < k < n ==> #[trigger] events[k] != Report::Complete(path);
    assert forall|j: int| 0 <= j < before.len() implies !(#[trigger] before[j] is Finished) by {
        assert(before[j] == events[j]);
    }
    lemma_display_goes_on(t, before);
    let reached = run(t, before);
    assert(!(events[n - 1] is Finished));
    if m == n - 1 {
        lemma_started_is_under_way(reached.in_flight, path, last->Start_1, path);
    } else {
        assert(begun(before, path, n - 1)) by {
            assert(before[m] == events[m]);
            assert forall|k: int| m < k < n - 1 implies #[trigger] before[k] != Report::Complete(
                path,
            ) by {
                assert(before[k] == events[k]);
            }
        }
        lemma_begun_is_under_way(t, before, path);
        assert(events[n - 1] != Report::Complete(path));
        match last {
            Report::Start(p, size) => {
                lemma_started_is_under_way(reached.in_flight, p, size, path);
            },
            Report::Complete(p) => {
                if under_way(reached.in_flight, p) {
                    lemma_completed_leaves_others(reached.in_flight, p, path);
                }
            },
            _ => {},
        }
    }
}

/// No report is lost and none counts twice, however the reports of
/// different uploads are interleaved: where every completion answers a
/// start and nothing ends the display, every completion is of a file under
/// way, and the count of completed files grows by the number of
/// completions.
pub proof fn lemma_interleaved_uploads_counted(t: Tally, events: Seq<Report>)
    requires
        !t.finished,
        none_finishes(events),
        starts_first(events),
    ensures
        orderly(t, events),
        run(t, events).files_done == sat_add(t.files_done, completions(events)),
    decreases events.len(),
{
    if events.len() > 0 {
        let n = events.len() as int;
        let before = events.drop_last();
        let last = events.last();
        assert forall|j: int| 0 <= j < before.len() implies !(#[trigger] before[j] is Finished) by {
            assert(before[j] == events[j]);
        }
        assert forall|j: int|
            0 <= j < before.len() && #[trigger] before[j] is Complete implies begun(
            before,
            before[j]->Complete_0,
            j,
        ) by {
            let path = before[j]->Complete_0;
            assert(events[j] == before[j]);
            assert(begun(events, path, j));
            let m = choose|m: int|
                0 <= m < j && #[trigger] events[m] is Start && events[m]->Start_0 == path
                    && forall|k: int| m < k < j ==> #[trigger] events[k] != Report::Complete(path);
            assert(before[m] == events[m]);
            assert forall|k: int| m < k < j implies #[trigger] before[k] != Report::Complete(
                path,
            ) by {
                assert(before[k] == events[k]);
            }
        }
        lemma_interleaved_uploads_counted(t, before);
        lemma_display_goes_on(t, before);
        assert(!(events[n - 1] is Finished));
        match last {
            Report::Complete(path) => {
                assert(events[n - 1] is Complete);
                assert(begun(events, path, n - 1));
                let m = choose|m: int|
                    0 <= m < n - 1 && #[trigger] events[m] is Start && events[m]->Start_0 == path
                        && forall|k: int|
                        m < k < n - 1 ==> #[trigger] events[k] != Report::Complete(path);
                assert(begun(before, path, n - 1)) by {
                    assert(before[m] == events[m]);
                    assert forall|k: int| m < k < n - 1 implies #[trigger] before[k]
                        != Report::Complete(path) by {
                        assert(before[k] == events[k]);
                    }
                }
                lemma_begun_is_under_way(t, before, path);
            },
            _ => {},
        }
        lemma_completions_counted(t, events);
    }
}

} // verus!
