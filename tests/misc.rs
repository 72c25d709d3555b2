use crunchy_cli_core::staging::{is_staged_name, staged_prefix_text};
use crunchy_cli_core::capacity::{add_sizes, estimate_stream_size, format_size, is_same_filesystem, preflight, FsStats};
use crunchy_cli_core::chapters::{build_chapters, chapter_metadata_text, skip_events, Chapter};
use crunchy_cli_core::merge::MergeBehavior;
use crunchy_cli_core::progress::{parse_frame_line, parse_video_length, ProgressMonitor, ProgressStep};
use crunchy_cli_core::text::decimal;

fn spans(cs: &[Chapter]) -> Vec<(String, u32, u32)> {
    cs.iter().map(|c| (c.title.clone(), c.start, c.end)).collect()
}

#[test]
fn merge_behavior_ignores_case() {
    assert_eq!(MergeBehavior::parse("VIDEO"), Ok(MergeBehavior::Video));
    assert_eq!(MergeBehavior::parse("Audio"), Ok(MergeBehavior::Audio));
    assert_eq!(MergeBehavior::parse("auto"), Ok(MergeBehavior::Auto));
    assert_eq!(
        MergeBehavior::parse("Both"),
        Err("'Both' is not a valid merge behavior".to_string())
    );
    assert_eq!(MergeBehavior::parse_lowered("video", "x"), Ok(MergeBehavior::Video));
    assert_eq!(
        MergeBehavior::parse_lowered("VIDEO", "VIDEO"),
        Err("'VIDEO' is not a valid merge behavior".to_string())
    );
}

#[test]
fn intro_chapter_with_exact_ten_second_lead_in() {
    // a lead-in of exactly ten seconds is not longer than ten: no filler
    let events = skip_events(None, Some((10, 40)), None, None);
    let chapters = build_chapters(&events, 100);
    assert_eq!(
        spans(&chapters),
        vec![("Intro".to_string(), 10, 40), ("Episode".to_string(), 40, 100)]
    );
}

#[test]
fn gaps_over_ten_seconds_get_filler() {
    let events = skip_events(Some((0, 5)), Some((11, 40)), Some((1300, 1380)), Some((1385, 1400)));
    let chapters = build_chapters(&events, 1420);
    assert_eq!(
        spans(&chapters),
        vec![
            ("Recap".to_string(), 0, 5),
            ("Intro".to_string(), 11, 40),
            ("Episode".to_string(), 40, 1300),
            ("Credits".to_string(), 1300, 1380),
            ("Preview".to_string(), 1385, 1400),
            ("Episode".to_string(), 1400, 1420),
        ]
    );
}

#[test]
fn lead_in_over_ten_seconds_gets_filler() {
    let events = skip_events(None, Some((11, 40)), None, None);
    let chapters = build_chapters(&events, 100);
    assert_eq!(
        spans(&chapters),
        vec![
            ("Episode".to_string(), 0, 11),
            ("Intro".to_string(), 11, 40),
            ("Episode".to_string(), 40, 100),
        ]
    );
}

#[test]
fn events_are_sorted_and_metadata_written() {
    let events = skip_events(None, Some((90, 120)), Some((20, 50)), None);
    let chapters = build_chapters(&events, 120);
    assert_eq!(
        spans(&chapters),
        vec![
            ("Episode".to_string(), 0, 20),
            ("Credits".to_string(), 20, 50),
            ("Episode".to_string(), 50, 90),
            ("Intro".to_string(), 90, 120),
        ]
    );
    let text = chapter_metadata_text(&chapters[1..2].iter().map(|c| Chapter { title: c.title.clone(), start: c.start, end: c.end }).collect());
    assert_eq!(text, ";FFMETADATA1\n[CHAPTER]\nTIMEBASE=1/1\nSTART=20\nEND=50\ntitle=Credits\n");
}

#[test]
fn no_events_gives_one_episode() {
    let chapters = build_chapters(&vec![], 600);
    assert_eq!(spans(&chapters), vec![("Episode".to_string(), 0, 600)]);
    assert!(build_chapters(&vec![], 10).is_empty());
}

#[test]
fn same_filesystem_doubles_the_threshold() {
    let tmp = FsStats { total: 1000, available: 500 };
    let dst = FsStats { total: 1000, available: 600 };
    assert!(is_same_filesystem(tmp, dst));
    let r = preflight(900, tmp, dst, false);
    assert_eq!(r.temp_required, None);
    assert_eq!(r.destination_required, None);
    let r = preflight(1100, tmp, dst, false);
    assert_eq!(r.temp_required, Some(1100));
    assert_eq!(r.destination_required, None);
}

#[test]
fn separate_filesystems_are_checked_alone() {
    let tmp = FsStats { total: 1000, available: 500 };
    let dst = FsStats { total: 2000, available: 500 };
    assert!(!is_same_filesystem(tmp, dst));
    let r = preflight(900, tmp, dst, false);
    assert_eq!(r.temp_required, Some(900));
    assert_eq!(r.destination_required, Some(900));
    let r = preflight(900, tmp, dst, true);
    assert_eq!(r.destination_required, None);
    let far = FsStats { total: 1000, available: 500 + 10240 };
    assert!(!is_same_filesystem(tmp, far));
}

#[test]
fn stream_size_estimate() {
    assert_eq!(estimate_stream_size(8000, &vec![2, 3, 5]), 10000);
    assert_eq!(estimate_stream_size(7, &vec![100]), 0);
    assert_eq!(estimate_stream_size(u64::MAX, &vec![u64::MAX, 1]), u64::MAX);
    assert_eq!(estimate_stream_size(16, &vec![]), 0);
    assert_eq!(add_sizes(u64::MAX, 1), u64::MAX);
    assert_eq!(add_sizes(2, 3), 5);
}

#[test]
fn sizes_read_in_mb_and_gb() {
    assert_eq!(format_size(5 * 1048576), "5MB");
    assert_eq!(format_size(5 * 1048576 + 1), "6MB");
    assert_eq!(format_size(1073741824), "1.00GB");
    assert_eq!(format_size(1610612736), "1.50GB");
    assert_eq!(format_size(0), "0MB");
}

#[test]
fn frame_lines() {
    assert_eq!(parse_frame_line(b"frame=   42 fps=0.0 q=-1.0 size=1kB"), Some(42));
    assert_eq!(parse_frame_line(b"out_time frame=\t7"), Some(7));
    assert_eq!(parse_frame_line(b"frame=42"), None);
    assert_eq!(parse_frame_line(b"frame=   99999999999999999999999"), None);
    assert_eq!(parse_frame_line(b""), None);
}

#[test]
fn monitor_follows_lines_and_snaps_on_cancel() {
    let mut m = ProgressMonitor::new(1000);
    assert!(matches!(m.on_line(b"frame=  10 q=1"), ProgressStep::Advance(10)));
    assert_eq!(m.position, 10);
    assert!(matches!(m.on_line(b"garbage"), ProgressStep::Stop));
    assert!(m.finished);
    assert_eq!(m.position, 10);
    m.cancel();
    assert_eq!(m.position, 1000);
}

#[test]
fn video_length_from_probe_output() {
    let text = b"Input #0, mov,mp4\n  Duration: 00:23:40.05, start: 0.000000, bitrate: 1 kb/s\n";
    assert_eq!(parse_video_length(text), Some(142005));
    assert_eq!(parse_video_length(b"Duration: N/A, start"), None);
}

#[test]
fn decimal_text() {
    assert_eq!(decimal(0), "0");
    assert_eq!(decimal(1234567890), "1234567890");
    assert_eq!(decimal(u64::MAX), "18446744073709551615");
}

#[test]
fn staged_file_names() {
    assert_eq!(staged_prefix_text(), ".crunchy-cli_");
    assert!(is_staged_name(".crunchy-cli_abc.mp4"));
    assert!(is_staged_name(".crunchy-cli_"));
    assert!(!is_staged_name("crunchy-cli_abc"));
    assert!(!is_staged_name(".crunchy"));
}
