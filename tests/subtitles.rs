use crunchy_cli_core::fonts::{font_file, merge_fonts, subtitle_fonts};
use crunchy_cli_core::subtitles::fix_subtitles;

const DOC: &str = "[Script Info]\nTitle: x\n[Events]\nFormat: Layer, Start, End, Style, Name, MarginL, MarginR, MarginV, Effect, Text\nDialogue: 0,0:00:05.00,0:00:07.00,Default,,0,0,0,,second\nDialogue: 0,0:00:01.00,0:00:02.00,Default,,0,0,0,,first\nDialogue: 0,0:00:08.00,0:00:30.50,Default,,0,0,0,,long";

const REPAIRED: &str = "[Script Info]\nScaledBorderAndShadow: yes\nTitle: x\n[Events]\nFormat: Layer, Start, End, Style, Name, MarginL, MarginR, MarginV, Effect, Text\nDialogue: 0,0:00:01.00,0:00:02.00,Default,,0,0,0,,first\nDialogue: 0,0:00:05.00,0:00:07.00,Default,,0,0,0,,second\nDialogue: 0,0:00:08.00,0:00:20.00,Default,,0,0,0,,long";

fn repair(doc: &str, max: u64) -> String {
    let mut raw = doc.as_bytes().to_vec();
    fix_subtitles(&mut raw, max);
    String::from_utf8(raw).unwrap()
}

#[test]
fn repair_adds_directive_clips_and_sorts() {
    assert_eq!(repair(DOC, 2000), REPAIRED);
}

#[test]
fn repair_twice_equals_repair_once() {
    let once = repair(DOC, 2000);
    assert_eq!(repair(&once, 2000), once);
}

#[test]
fn cue_past_the_end_is_clipped_to_it() {
    let doc = "Dialogue: 3,0:00:25.00,0:00:40.00,Default,,0,0,0,,late";
    assert_eq!(repair(doc, 2000), "Dialogue: 3,0:00:20.00,0:00:20.00,Default,,0,0,0,,late");
    let doc = "Dialogue: 0,0:00:10.00,1:02:03.45,Sign,,0,0,0,,{\\an8}x";
    assert_eq!(repair(doc, 360000), "Dialogue: 0,0:00:10.00,1:00:00.00,Sign,,0,0,0,,{\\an8}x");
}

#[test]
fn cue_within_bounds_is_unchanged() {
    let doc = "Dialogue: 0,0:00:01.5,0:00:19.999,Default,,0,0,0,,kept";
    assert_eq!(repair(doc, 2000), doc);
}

#[test]
fn non_dialogue_lines_keep_their_places() {
    let doc = "a\nDialogue: 0,0:00:09.00,0:00:10.00,D,,0,0,0,,x\nComment: 0,0:00:00.00,0:00:01.00,D,,0,0,0,,c\nDialogue: 0,0:00:03.00,0:00:04.00,D,,0,0,0,,y\nb";
    let want = "a\nDialogue: 0,0:00:03.00,0:00:04.00,D,,0,0,0,,y\nComment: 0,0:00:00.00,0:00:01.00,D,,0,0,0,,c\nDialogue: 0,0:00:09.00,0:00:10.00,D,,0,0,0,,x\nb";
    assert_eq!(repair(doc, 100000), want);
}

#[test]
fn equal_starts_keep_their_order() {
    let doc = "Dialogue: 0,0:00:02.00,0:00:03.00,D,,0,0,0,,b\nDialogue: 0,0:00:01.00,0:00:03.00,D,,0,0,0,,a1\nDialogue: 0,0:00:01.00,0:00:02.00,D,,0,0,0,,a2";
    let want = "Dialogue: 0,0:00:01.00,0:00:03.00,D,,0,0,0,,a1\nDialogue: 0,0:00:01.00,0:00:02.00,D,,0,0,0,,a2\nDialogue: 0,0:00:02.00,0:00:03.00,D,,0,0,0,,b";
    assert_eq!(repair(doc, 100000), want);
}

#[test]
fn directive_is_not_added_twice() {
    let doc = "[Script Info]\r\nScaledBorderAndShadow: yes\r\nTitle: y\r\n";
    assert_eq!(repair(doc, 100), doc);
    let doc = "[Script Info]\r\nTitle: y";
    assert_eq!(repair(doc, 100), "[Script Info]\r\nScaledBorderAndShadow: yes\nTitle: y");
}

#[test]
fn empty_document_stays_empty() {
    assert_eq!(repair("", 100), "");
}

#[test]
fn fonts_of_style_lines_are_found_once() {
    let doc = b"[V4+ Styles]\nStyle: Default,Arial,20,&H00FFFFFF\nStyle: Sign,Impact,30,&H00FFFFFF\nStyle: Alt,Arial,10,&H0\nStyle:Broken,Arial,1";
    let fonts = subtitle_fonts(doc);
    assert_eq!(fonts, vec![b"Arial".to_vec(), b"Impact".to_vec()]);
    let mut all = vec![b"Impact".to_vec()];
    merge_fonts(&mut all, fonts);
    assert_eq!(all, vec![b"Impact".to_vec(), b"Arial".to_vec()]);
}

#[test]
fn catalog_maps_font_names_to_files() {
    assert_eq!(font_file("Arial").as_deref(), Some("arial.woff2"));
    assert_eq!(font_file("Noto Sans Telugu").as_deref(), Some("NotoSansTelegu.woff2"));
    assert_eq!(font_file("Webdings").as_deref(), Some("webdings.woff2"));
    assert_eq!(font_file("Comic Sans"), None);
}

#[test]
fn font_is_the_second_field_of_a_style_line() {
    assert_eq!(subtitle_fonts(b"Style: ,Arial,20,&H0"), vec![b"Arial".to_vec()]);
    assert_eq!(subtitle_fonts(b"Style: Default,Arial"), vec![b"Arial".to_vec()]);
    assert!(subtitle_fonts(b"Style: Default,,20").is_empty());
    assert!(subtitle_fonts(b"Style: Default").is_empty());
}

#[test]
fn merged_fonts_keep_order_of_first_use() {
    let mut all = vec![b"A".to_vec()];
    merge_fonts(&mut all, vec![b"C".to_vec(), b"A".to_vec(), b"B".to_vec(), b"C".to_vec()]);
    assert_eq!(all, vec![b"A".to_vec(), b"C".to_vec(), b"B".to_vec()]);
}
