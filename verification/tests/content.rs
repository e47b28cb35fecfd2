use live_watch::files::{do_seperation, File, FileForm, LoadError, PathSteps};
use live_watch::live_watch::settings::TextMode;
use live_watch::string_tools::chars_vec;

fn content_path(steps: &[&str]) -> PathSteps {
    let v: Vec<String> = steps.iter().map(|s| (*s).to_string()).collect();
    PathSteps::new(v)
}

fn strings(items: &[&str]) -> Vec<String> {
    items.iter().map(|s| (*s).to_string()).collect()
}

#[test]
fn keep_all_view_concatenates_back() {
    let text = "one\n\ntwo\nthree";
    let form = FileForm::new(false, false, true, text.to_string());
    let segs = form.get_file_text(&TextMode::AllNewline).unwrap();
    let rebuilt: String = segs.iter().map(|s| s.as_str()).collect::<Vec<&str>>().join("");
    assert_eq!(rebuilt, text);
}

#[test]
fn segmenting_twice_is_identical() {
    let text = "a\nbb\n\nc";
    let one = FileForm::new(true, true, true, text.to_string());
    let two = FileForm::new(true, true, true, text.to_string());
    assert_eq!(
        one.get_file_text(&TextMode::AllNewline).unwrap(),
        two.get_file_text(&TextMode::AllNewline).unwrap()
    );
    assert_eq!(
        one.get_file_text(&TextMode::Newline).unwrap(),
        two.get_file_text(&TextMode::Newline).unwrap()
    );
}

#[test]
fn keep_all_splits_after_newlines() {
    let form = FileForm::new(false, false, true, "line1\nline2".to_string());
    let segs = form.get_file_text(&TextMode::AllNewline).unwrap();
    assert_eq!(segs, &strings(&["line1\n", "line2"]));
}

#[test]
fn skip_blank_drops_middle_blank_lines() {
    let form = FileForm::new(false, true, false, "a\n\nb".to_string());
    let segs = form.get_file_text(&TextMode::Newline).unwrap();
    assert_eq!(segs, &strings(&["a\n", "b"]));
}

#[test]
fn skip_blank_keeps_final_blank_segment() {
    let form = FileForm::new(false, true, false, "a\n\n".to_string());
    let segs = form.get_file_text(&TextMode::Newline).unwrap();
    assert_eq!(segs, &strings(&["a\n", "\n"]));
}

#[test]
fn skip_blank_keeps_space_only_lines() {
    let form = FileForm::new(false, true, false, "a\n  \nb".to_string());
    let segs = form.get_file_text(&TextMode::Newline).unwrap();
    assert_eq!(segs, &strings(&["a\n", "  \n", "b"]));
}

#[test]
fn empty_text_has_no_segments() {
    let form = FileForm::new(true, true, true, String::new());
    assert_eq!(form.get_file_text(&TextMode::AllNewline).unwrap().len(), 0);
    assert_eq!(form.get_file_text(&TextMode::Newline).unwrap().len(), 0);
    assert_eq!(form.get_file_text(&TextMode::Standard).unwrap(), &strings(&[""]));
}

#[test]
fn standard_and_selectable_share_the_whole_text() {
    let form = FileForm::new(true, false, false, "x\ny".to_string());
    assert_eq!(form.get_file_text(&TextMode::Standard).unwrap(), &strings(&["x\ny"]));
    assert_eq!(form.get_file_text(&TextMode::Selectable).unwrap(), &strings(&["x\ny"]));
    assert!(form.get_file_text(&TextMode::Newline).is_none());
    assert!(form.line_separation_ref().is_none());
}

#[test]
fn views_absent_unless_requested() {
    let form = FileForm::new(false, true, false, "x".to_string());
    assert!(form.get_file_text(&TextMode::Standard).is_none());
    assert!(form.get_file_text(&TextMode::AllNewline).is_none());
    assert!(form.get_file_text(&TextMode::Newline).is_some());
}

#[test]
fn load_file_decodes_utf8() {
    let path = content_path(&["r", "d", "u.txt"]);
    let file = File::load_file(&path, "héllo\nwörld".as_bytes().to_vec()).unwrap();
    let cache = live_watch::files::FileCache::new(
        content_path(&["r", "d"]),
        content_path(&["k"]),
        vec![(content_path(&["k"]), Some(file))],
    );
    let form = cache.full_file().unwrap();
    let segs = form.get_file_text(&TextMode::AllNewline).unwrap();
    assert_eq!(segs, &strings(&["héllo\n", "wörld"]));
}

#[test]
fn load_file_rejects_invalid_utf8() {
    let path = content_path(&["r", "d", "bin"]);
    let err = File::load_file(&path, vec![0xff, 0xfe, 0x00]).unwrap_err();
    assert!(matches!(err, LoadError::NotUtf8));
}

#[test]
fn do_seperation_rebuilds_a_string() {
    let buffer = vec!['a', 'b', ' ', 'c'];
    assert_eq!(do_seperation(buffer), "ab c".to_string());
}

#[test]
fn chars_vec_lists_characters() {
    assert_eq!(chars_vec("añ\n"), vec!['a', 'ñ', '\n']);
    assert_eq!(chars_vec(""), Vec::<char>::new());
}
