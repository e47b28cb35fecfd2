use live_watch::err_tools::ErrorX;
use live_watch::files::{MasterPath, PathSteps};
use live_watch::live_watch::settings::{Settings, TextMode};
use live_watch::live_watch::watcher_keep::WatcherUpdate;
use live_watch::string_tools::{newliner, number_string, quick_maker, tabber};
use live_watch::windows::generic_windows::{GenericWindow, Loglet, MessageLog};
use live_watch::{format_time, time_of_day};

#[test]
fn format_loglet_lays_fields_out() {
    let loglet = Loglet::new("Warn", "something happened", "1:2 -- 3");
    let expected = "Kind:\n\tWarn\n\nMessage:\n\tsomething happened\n\nTime:\n\t1:2 -- 3\n\n\
                    /================================================/";
    assert_eq!(loglet.format_loglet(), expected.to_string());
}

#[test]
fn err_s_builds_an_error_entry() {
    let loglet = Loglet::err_s("boom".to_string());
    let text = loglet.format_loglet();
    assert!(text.starts_with("Kind:\n\tError\n\nMessage:\n\tboom\n\nTime:\n\t"));
}

#[test]
fn err_wraps_an_error_value() {
    let loglet = Loglet::err(ErrorX::new("bad state"));
    let text = loglet.format_loglet();
    assert!(text.starts_with("Kind:\n\tError\n\nMessage:\n\tbad state\n\n"));
}

#[test]
fn message_log_keeps_at_most_thirty() {
    let mut log = MessageLog::default();
    for i in 0..35u32 {
        let tag = format!("entry{}", i);
        log.push(Loglet::new(&tag, "m", "t"));
    }
    assert_eq!(log.len(), 30);
    assert!(log.entry_at(0).format_loglet().starts_with("Kind:\n\tentry5\n"));
    assert!(log.entry_at(29).format_loglet().starts_with("Kind:\n\tentry34\n"));
}

#[test]
fn generic_window_opens_on_push() {
    let mut gw = GenericWindow::new("Error Messages");
    assert!(!gw.is_window_open);
    assert_eq!(gw.get_name(), "Error Messages".to_string());
    gw.push_loglet(Loglet::new("Error", "m", "t"));
    assert!(gw.is_window_open);
    assert_eq!(gw.log.len(), 1);
    let renamed = gw.namae("Renamed");
    assert_eq!(renamed, "Renamed".to_string());
    assert_eq!(gw.get_name(), "Renamed".to_string());
}

#[test]
fn error_x_keeps_its_message() {
    assert_eq!(ErrorX::new("oops").message(), &"oops".to_string());
    assert_eq!(ErrorX::new_box("boxed").message(), &"boxed".to_string());
    assert_eq!(ErrorX::magic_err("magic".to_string()).message(), &"magic".to_string());
}

#[test]
fn quick_maker_repeats_its_piece() {
    assert_eq!(quick_maker(3, "ab"), "ababab".to_string());
    assert_eq!(quick_maker(0, "x"), String::new());
    assert_eq!(newliner(2), "\n\n".to_string());
    assert_eq!(tabber(1), "\t".to_string());
}

#[test]
fn number_string_renders_decimal() {
    assert_eq!(number_string(0), "0".to_string());
    assert_eq!(number_string(7), "7".to_string());
    assert_eq!(number_string(59), "59".to_string());
    assert_eq!(number_string(1040), "1040".to_string());
    assert_eq!(number_string(u32::MAX), "4294967295".to_string());
}

#[test]
fn format_time_matches_the_log_shape() {
    assert_eq!(format_time(9, 5, 59), "9:5 -- 59".to_string());
    assert_eq!(format_time(23, 59, 0), "23:59 -- 0".to_string());
}

#[test]
fn time_of_day_is_a_clock_reading() {
    let now = time_of_day();
    let (hm, sec) = now.split_once(" -- ").expect("separator present");
    let (h, m) = hm.split_once(':').expect("colon present");
    let h: u32 = h.parse().expect("hour");
    let m: u32 = m.parse().expect("minute");
    let s: u32 = sec.parse().expect("second");
    assert!(h < 24);
    assert!(m < 60);
    assert!(s < 60);
}

#[test]
fn settings_defaults_and_updates() {
    let mut settings = Settings::default();
    assert_eq!(*settings.text_mode_ref(), TextMode::Standard);
    assert!(*settings.word_wrap_ref());
    settings.word_wrap_set(false);
    assert!(!*settings.word_wrap_ref());
    *settings.text_mode_mut() = TextMode::Newline;
    assert_eq!(*settings.text_mode_ref(), TextMode::Newline);
    let chosen = Settings::new(Some(TextMode::Selectable), Some(false));
    assert_eq!(*chosen.text_mode_ref(), TextMode::Selectable);
    assert!(!*chosen.word_wrap_ref());
}

#[test]
fn master_path_carries_the_root() {
    let (tx, _rx) = tokio::sync::mpsc::channel::<PathSteps>(4);
    let steps: Vec<String> = vec!["r".to_string(), "dir".to_string()];
    let mp = MasterPath::new(Some(PathSteps::new(steps)), tx);
    let cloned = mp.path_clone().unwrap();
    assert!(cloned.same_path(mp.path_ref().as_ref().unwrap()));
    let (tx2, _rx2) = tokio::sync::mpsc::channel::<PathSteps>(4);
    let empty = MasterPath::new(None, tx2);
    assert!(empty.path_clone().is_none());
    assert!(empty.get_path_buf_ref().is_none());
}

#[test]
fn update_channel_carries_messages_in_order() {
    let (tx, mut rx) = tokio::sync::mpsc::channel::<WatcherUpdate>(4);
    let steps: Vec<String> = vec!["a".to_string()];
    tx.try_send(WatcherUpdate::new_delete(PathSteps::new(steps))).unwrap();
    let got = rx.try_recv().unwrap();
    assert!(matches!(got, WatcherUpdate::FileDelete(_)));
    assert!(rx.try_recv().is_err());
}
