use crunchy_cli_core::mux::{build_mux_args, MuxInputs, MuxSettings, TrackMeta};
use crunchy_cli_core::tracks::{audio_title, stable_order, subtitle_rank_key, subtitle_title, video_title, locale_rank_key};

fn track(path: &str, language: &str, title: &str) -> TrackMeta {
    TrackMeta { path: path.to_string(), language: language.to_string(), title: title.to_string() }
}

fn strings(v: &[&str]) -> Vec<String> {
    v.iter().map(|s| s.to_string()).collect()
}

fn settings(container: &str) -> MuxSettings {
    MuxSettings {
        container: container.to_string(),
        force_hardsub: false,
        default_subtitle: Some("en-US".to_string()),
        output_format: None,
        threads: None,
        preset_custom: false,
        input_presets: vec![],
        output_presets: strings(&["-c:v", "copy", "-c:a", "copy"]),
        audio_language_map: vec![],
        subtitle_language_map: vec![],
        windows: false,
    }
}

fn inputs(dst: &str) -> MuxInputs {
    MuxInputs {
        videos: vec![track("v.mp4", "ja-JP", "Default")],
        audios: vec![track("a.m4a", "ja-JP", "Japanese")],
        subtitles: vec![track("s.ass", "en-US", "English")],
        fonts: vec![],
        chapters: None,
        stats_path: "/tmp/fifo".to_string(),
        destination: dst.to_string(),
    }
}

#[test]
fn soft_subtitles_in_mkv() {
    let args = build_mux_args(&inputs("out.mkv"), &settings("mkv"));
    let want = strings(&[
        "-y", "-hide_banner", "-vstats_file", "/tmp/fifo",
        "-i", "v.mp4", "-i", "a.m4a", "-i", "s.ass",
        "-map", "0", "-map", "1", "-map", "2",
        "-metadata:s:v:0", "title=Default", "-metadata:s:v:0", "language=",
        "-metadata:s:a:0", "language=ja-JP", "-metadata:s:a:0", "title=Japanese",
        "-metadata:s:s:0", "language=en-US", "-metadata:s:s:0", "title=English",
        "-disposition:s:s:0", "default",
        "-disposition:s:s:0", "forced",
        "-pix_fmt", "yuv420p",
        "-c:v", "copy", "-c:a", "copy",
        "./out.mkv",
    ]);
    assert_eq!(args, want);
}

#[test]
fn mp4_gets_faststart_and_mov_text() {
    let mut inp = inputs("dir/out.mp4");
    inp.fonts = vec!["/cache/arial.woff2".to_string()];
    inp.chapters = Some("/tmp/ch".to_string());
    inp.subtitles.push(track("cc.ass", "en-US", "English (CC)"));
    let mut s = settings("mp4");
    s.threads = Some(4);
    s.output_format = Some("mp4".to_string());
    s.audio_language_map = vec![("ja-JP".to_string(), "jpn".to_string())];
    let args = build_mux_args(&inp, &s);
    let want = strings(&[
        "-y", "-hide_banner", "-vstats_file", "/tmp/fifo",
        "-i", "v.mp4", "-i", "a.m4a", "-i", "s.ass", "-i", "cc.ass", "-i", "/tmp/ch",
        "-map", "0", "-map", "1", "-map", "2", "-map", "3", "-map_metadata", "4",
        "-attach", "/cache/arial.woff2",
        "-metadata:s:v:0", "title=Default", "-metadata:s:v:0", "language=",
        "-metadata:s:a:0", "language=jpn", "-metadata:s:a:0", "title=Japanese",
        "-metadata:s:t:0", "mimetype=font/woff2",
        "-metadata:s:s:0", "language=en-US", "-metadata:s:s:0", "title=English",
        "-metadata:s:s:1", "language=en-US", "-metadata:s:s:1", "title=English (CC)",
        "-threads", "4",
        "-disposition:s:s:0", "default",
        "-disposition:s:s:0", "forced",
        "-pix_fmt", "yuv420p",
        "-c:v", "copy", "-c:a", "copy", "-movflags", "faststart", "-c:s", "mov_text",
        "-f", "mp4",
        "dir/out.mp4",
    ]);
    assert_eq!(args, want);
}

#[test]
fn burn_in_drops_copy_codecs_and_adds_filter() {
    let mut s = settings("mkv");
    s.force_hardsub = true;
    s.windows = true;
    s.preset_custom = true;
    s.threads = Some(2);
    s.output_presets = strings(&["-c:v", "copy", "-crf", "20", "-c:a", "copy"]);
    let mut inp = inputs("out.mkv");
    inp.subtitles = vec![track("C:\\tmp\\s.ass", "en-US", "English")];
    let args = build_mux_args(&inp, &s);
    let want = strings(&[
        "-y", "-hide_banner", "-vstats_file", "/tmp/fifo",
        "-i", "v.mp4", "-i", "a.m4a",
        "-map", "0", "-map", "1",
        "-metadata:s:v:0", "title=Default", "-metadata:s:v:0", "language=",
        "-metadata:s:a:0", "language=ja-JP", "-metadata:s:a:0", "title=Japanese",
        "-pix_fmt", "yuv420p",
        "-crf", "20",
        "-vf", "ass='C\\:\\\\tmp\\\\s.ass'",
        "out.mkv",
    ]);
    assert_eq!(args, want);
}

#[test]
fn standard_output_gets_no_prefix() {
    let mut s = settings("mkv");
    s.default_subtitle = None;
    let args = build_mux_args(&inputs("-"), &s);
    assert_eq!(args.last().unwrap(), "-");
    assert!(!args.contains(&"default".to_string()));
}

#[test]
fn stream_titles() {
    assert_eq!(audio_title("Japanese", 0), "Japanese");
    assert_eq!(audio_title("Japanese", 1), "Japanese [Video: #2]");
    assert_eq!(subtitle_title("English", false, 0), "English");
    assert_eq!(subtitle_title("English", true, 2), "English (CC) [Video: #3]");
    assert_eq!(video_title(1, 0), "Default");
    assert_eq!(video_title(3, 1), "#2");
}

#[test]
fn locale_order_keys() {
    let order = strings(&["de-DE", "en-US"]);
    assert_eq!(locale_rank_key(&order, "en-US"), 2);
    assert_eq!(locale_rank_key(&order, "fr-FR"), 0);
    assert_eq!(subtitle_rank_key(&order, "de-DE", false), 2);
    assert_eq!(subtitle_rank_key(&order, "de-DE", true), 3);
    let keys = vec![
        locale_rank_key(&order, "en-US"),
        locale_rank_key(&order, "ja-JP"),
        locale_rank_key(&order, "de-DE"),
        locale_rank_key(&order, "it-IT"),
    ];
    assert_eq!(stable_order(&keys), vec![1, 3, 2, 0]);
}

#[test]
fn nested_copy_pairs_are_all_dropped_for_burn_in() {
    let mut s = settings("avi");
    s.output_presets = strings(&["-c:v", "-c:v", "copy", "copy", "-c:a", "-preset", "fast"]);
    let args = build_mux_args(&inputs("out.avi"), &s);
    let tail: Vec<String> = args[args.len() - 6..].to_vec();
    assert_eq!(tail, strings(&["-c:a", "-preset", "fast", "-vf", "ass='s.ass'", "./out.avi"]));
    for w in args.windows(2) {
        assert!(!((w[0] == "-c:v" || w[0] == "-c:a") && w[1] == "copy"));
    }
}

#[test]
fn destination_prefix_follows_the_directory_part() {
    let mut s = settings("mkv");
    s.default_subtitle = None;
    assert_eq!(build_mux_args(&inputs("out/"), &s).last().unwrap(), "./out/");
    assert_eq!(build_mux_args(&inputs("dir/out.mkv"), &s).last().unwrap(), "dir/out.mkv");
    assert_eq!(build_mux_args(&inputs("/abs/out.mkv"), &s).last().unwrap(), "/abs/out.mkv");
    assert_eq!(build_mux_args(&inputs("out.mkv"), &s).last().unwrap(), "./out.mkv");
}
