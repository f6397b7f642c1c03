use rcple::output::{
    humanize, humanize_rate, humanize_speed, run_output, Aggregator, Ended, Render, Screen,
};
use rcple::progress_message::Progress;
use std::time::Duration;

/// A screen that keeps what it is shown.
struct Kept(Vec<String>);

impl Screen for Kept {
    fn show(&mut self, text: &str) {
        self.0.push(text.to_string());
    }
}

fn line(s: &str) -> Render {
    Render::Line(s.to_string())
}

#[test]
fn sizes_in_bytes_up_to_one_kib() {
    assert_eq!(humanize(0), "0 bytes");
    assert_eq!(humanize(1), "1 bytes");
    assert_eq!(humanize(1023), "1023 bytes");
    assert_eq!(humanize(1024), "1024 bytes");
}

#[test]
fn sizes_in_whole_kib() {
    assert_eq!(humanize(1025), "1 KiB");
    assert_eq!(humanize(1535), "1 KiB");
    assert_eq!(humanize(1536), "2 KiB");
    assert_eq!(humanize(10 * 1024), "10 KiB");
    assert_eq!(humanize(1024 * 1024), "1024 KiB");
}

#[test]
fn sizes_in_whole_mib() {
    assert_eq!(humanize(1024 * 1024 + 1), "1 MiB");
    assert_eq!(humanize(1024 * 1024 + 512 * 1024 - 1), "1 MiB");
    assert_eq!(humanize(1024 * 1024 + 512 * 1024), "2 MiB");
    assert_eq!(humanize(5 * 1024 * 1024 * 1024), "5120 MiB");
    assert_eq!(humanize(u64::MAX), "17592186044416 MiB");
}

#[test]
fn rates_in_mib_have_two_decimals() {
    assert_eq!(humanize_rate(3 * 1024 * 1024, 2), "1.50 MiB/s");
    assert_eq!(humanize_rate(3 * 1024 * 1024, 1), "3.00 MiB/s");
    assert_eq!(humanize_rate(3 * 1024 * 1024, 0), "3.00 MiB/s");
    assert_eq!(humanize_rate(10 * 1024 * 1024, 3), "3.33 MiB/s");
    assert_eq!(humanize_rate(20 * 1024 * 1024, 3), "6.67 MiB/s");
    assert_eq!(humanize_rate(2 * 1024 * 1024, 100), "0.02 MiB/s");
    assert_eq!(humanize_rate(2 * 1024 * 1024, 1000), "0.00 MiB/s");
    // a tie goes to the even neighbour: 1/8 = 0.125 and 3/8 = 0.375
    assert_eq!(humanize_rate(1024 * 1024 + 1, 8), "0.12 MiB/s");
    assert_eq!(humanize_rate(3 * 1024 * 1024, 8), "0.38 MiB/s");
}

#[test]
fn rates_in_kib_and_bytes_are_whole() {
    assert_eq!(humanize_rate(10 * 1024, 3), "3 KiB/s");
    assert_eq!(humanize_rate(5 * 1024, 2), "2 KiB/s");
    assert_eq!(humanize_rate(7 * 1024, 2), "4 KiB/s");
    assert_eq!(humanize_rate(2048, 1), "2 KiB/s");
    assert_eq!(humanize_rate(512, 1), "512 B/s");
    assert_eq!(humanize_rate(512, 0), "512 B/s");
    assert_eq!(humanize_rate(1000, 3), "333 B/s");
    assert_eq!(humanize_rate(0, 5), "0 B/s");
}

#[test]
fn rate_over_a_duration_counts_whole_seconds() {
    assert_eq!(humanize_speed(3 * 1024 * 1024, Duration::from_millis(2900)), "1.50 MiB/s");
    assert_eq!(humanize_speed(512, Duration::from_millis(10)), "512 B/s");
    assert_eq!(humanize_speed(4096, Duration::from_secs(2)), "2 KiB/s");
}

#[test]
fn one_upload_from_start_to_finish() {
    let mut display = Aggregator::new(1, 100);
    assert!(!display.is_finished());
    assert_eq!(display.step(Progress::Start("a".to_string(), 100)), Render::Nothing);
    assert_eq!(display.in_flight(), 1);
    assert_eq!(
        display.step(Progress::Part(50)),
        line("\rProgress: 0 / 1 files, 50% of bytes. [a]")
    );
    assert_eq!(
        display.step(Progress::Part(50)),
        line("\rProgress: 0 / 1 files, 100% of bytes. [a]")
    );
    assert_eq!(
        display.step(Progress::Complete("a".to_string())),
        line("\rUploaded a (100 bytes)\x1B[K\n")
    );
    assert_eq!(display.files_done(), 1);
    assert_eq!(display.bytes_done(), 100);
    assert_eq!(display.in_flight(), 0);
    assert_eq!(
        display.step(Progress::Finished(Duration::from_secs(2))),
        Render::Last("\rFinished 1 files, 100 bytes at 50 B/s.\n".to_string())
    );
    assert!(display.is_finished());
    assert_eq!(display.step(Progress::Part(1)), Render::Nothing);
    assert_eq!(display.bytes_done(), 100);
}

#[test]
fn progress_line_waits_for_one_percent() {
    let mut display = Aggregator::new(2, 1000);
    display.step(Progress::Start("f".to_string(), 1000));
    assert_eq!(display.step(Progress::Part(5)), Render::Nothing);
    assert_eq!(display.step(Progress::Part(4)), Render::Nothing);
    assert_eq!(display.step(Progress::Part(1)), line("\rProgress: 0 / 2 files, 1% of bytes. [f]"));
    assert_eq!(display.step(Progress::Part(9)), Render::Nothing);
    assert_eq!(display.step(Progress::Part(6)), line("\rProgress: 0 / 2 files, 2% of bytes. [f]"));
    assert_eq!(display.step(Progress::Part(0)), Render::Nothing);
    assert_eq!(display.bytes_done(), 25);
}

#[test]
fn files_under_way_are_shown_in_order() {
    let mut display = Aggregator::new(3, 10);
    display.step(Progress::Start("m/b".to_string(), 4));
    display.step(Progress::Start("a".to_string(), 3));
    display.step(Progress::Start("z".to_string(), 3));
    display.step(Progress::Start("m/a".to_string(), 3));
    assert_eq!(
        display.step(Progress::Part(3)),
        line("\rProgress: 0 / 3 files, 30% of bytes. [a m/a m/b z]")
    );
    assert_eq!(
        display.step(Progress::Complete("m/b".to_string())),
        line("\rUploaded m/b (4 bytes)\x1B[K\n")
    );
    assert_eq!(
        display.step(Progress::Part(2)),
        line("\rProgress: 1 / 3 files, 50% of bytes. [a m/a z]")
    );
}

#[test]
fn percent_rounds_to_the_nearest() {
    let mut display = Aggregator::new(1, 8);
    display.step(Progress::Start("f".to_string(), 8));
    // 1/8 = 12.5 %, 3/8 = 37.5 %: a tie goes to the even neighbour
    assert_eq!(display.step(Progress::Part(1)), line("\rProgress: 0 / 1 files, 12% of bytes. [f]"));
    assert_eq!(display.step(Progress::Part(2)), line("\rProgress: 0 / 1 files, 38% of bytes. [f]"));
}

#[test]
fn completion_of_a_file_not_under_way_is_stray() {
    let mut display = Aggregator::new(1, 100);
    assert_eq!(display.step(Progress::Complete("a".to_string())), Render::Stray);
    display.step(Progress::Start("a".to_string(), 2048));
    assert_eq!(
        display.step(Progress::Complete("a".to_string())),
        line("\rUploaded a (2 KiB)\x1B[K\n")
    );
    assert_eq!(display.step(Progress::Complete("a".to_string())), Render::Stray);
    assert_eq!(display.files_done(), 1);
}

#[test]
fn nothing_is_shown_for_an_empty_run() {
    for (files, bytes) in [(0usize, 0u64), (0, 10), (3, 0)] {
        let mut display = Aggregator::new(files, bytes);
        assert!(display.is_finished());
        assert_eq!(display.step(Progress::Start("a".to_string(), 1)), Render::Nothing);
        assert_eq!(display.step(Progress::Part(1)), Render::Nothing);
        assert_eq!(display.step(Progress::Complete("a".to_string())), Render::Nothing);
        assert_eq!(display.step(Progress::Finished(Duration::from_secs(1))), Render::Nothing);
        assert_eq!(display.finish(1), None);
    }
}

#[test]
fn finish_gives_the_closing_line_once() {
    let mut display = Aggregator::new(12, 5 * 1024 * 1024);
    assert_eq!(
        display.finish(4),
        Some("\rFinished 12 files, 5 MiB at 1.25 MiB/s.\n".to_string())
    );
    assert_eq!(display.finish(4), None);
}

#[test]
fn every_completion_counts_once() {
    let mut display = Aggregator::new(3, 30);
    let events = vec![
        Progress::Start("a".to_string(), 10),
        Progress::Start("b".to_string(), 10),
        Progress::Part(10),
        Progress::Complete("b".to_string()),
        Progress::Start("c".to_string(), 10),
        Progress::Part(10),
        Progress::Part(10),
        Progress::Complete("a".to_string()),
        Progress::Complete("c".to_string()),
    ];
    let completions = events.iter().filter(|e| matches!(e, Progress::Complete(_))).count();
    for e in events {
        assert_ne!(display.step(e), Render::Stray);
    }
    assert_eq!(display.files_done(), completions as u64);
    assert_eq!(display.files_done(), 3);
    assert_eq!(display.bytes_done(), 30);
    assert_eq!(display.in_flight(), 0);
}

#[test]
fn display_runs_until_the_closing_report() {
    let (reports_in, reports_out) = crossbeam_channel::unbounded::<Progress>();
    for report in [
        Progress::Start("a".to_string(), 100),
        Progress::Part(50),
        Progress::Part(50),
        Progress::Complete("a".to_string()),
        Progress::Finished(Duration::from_secs(2)),
        Progress::Start("late".to_string(), 1),
    ] {
        reports_in.send(report).unwrap();
    }
    let mut screen = Kept(Vec::new());
    assert_eq!(run_output(1, 100, &reports_out, &mut screen), Ended::Finished);
    assert_eq!(
        screen.0,
        vec![
            "\rProgress: 0 / 1 files, 50% of bytes. [a]".to_string(),
            "\rProgress: 0 / 1 files, 100% of bytes. [a]".to_string(),
            "\rUploaded a (100 bytes)\x1B[K\n".to_string(),
            "\rFinished 1 files, 100 bytes at 50 B/s.\n".to_string(),
        ]
    );
    // what came behind the closing report was not taken
    assert_eq!(reports_out.len(), 1);
}

#[test]
fn display_of_an_empty_run_takes_no_report() {
    let (reports_in, reports_out) = crossbeam_channel::unbounded::<Progress>();
    reports_in.send(Progress::Part(1)).unwrap();
    let mut screen = Kept(Vec::new());
    assert_eq!(run_output(0, 100, &reports_out, &mut screen), Ended::Silent);
    assert_eq!(run_output(3, 0, &reports_out, &mut screen), Ended::Silent);
    assert!(screen.0.is_empty());
    assert_eq!(reports_out.len(), 1);
}

#[test]
fn display_ends_when_the_senders_are_gone() {
    let (reports_in, reports_out) = crossbeam_channel::unbounded::<Progress>();
    reports_in.send(Progress::Start("a".to_string(), 10)).unwrap();
    drop(reports_in);
    let mut screen = Kept(Vec::new());
    assert_eq!(run_output(1, 10, &reports_out, &mut screen), Ended::Disconnected);
    assert!(screen.0.is_empty());
}

#[test]
fn display_ends_at_a_stray_completion() {
    let (reports_in, reports_out) = crossbeam_channel::unbounded::<Progress>();
    reports_in.send(Progress::Complete("a".to_string())).unwrap();
    reports_in.send(Progress::Part(10)).unwrap();
    let mut screen = Kept(Vec::new());
    assert_eq!(run_output(1, 10, &reports_out, &mut screen), Ended::Stray);
    assert!(screen.0.is_empty());
    assert_eq!(reports_out.len(), 1);
}
