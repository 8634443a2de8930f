use cdtree::history::{history_path, History, MAX_ENTRIES};
use cdtree::config::{config_path, Config, RgbColor, Theme};
use cdtree::path::TreePath;

fn p(text: &str) -> TreePath {
    TreePath::new(text)
}

#[test]
fn test_record_adds_entry() {
    let mut history = History::default();
    history.record(p("/tmp/test1"), 1);
    assert_eq!(history.entries.len(), 1);
    assert_eq!(history.entries[0].path, p("/tmp/test1"));
}

#[test]
fn test_record_deduplicates() {
    let mut history = History::default();
    history.record(p("/tmp/test1"), 1);
    history.record(p("/tmp/test2"), 2);
    history.record(p("/tmp/test1"), 3);
    assert_eq!(history.entries.len(), 2);
    assert_eq!(history.entries[0].path, p("/tmp/test1"));
}

#[test]
fn test_record_moves_to_front() {
    let mut history = History::default();
    history.record(p("/tmp/a"), 1);
    history.record(p("/tmp/b"), 2);
    history.record(p("/tmp/c"), 3);
    history.record(p("/tmp/a"), 4);
    assert_eq!(history.entries[0].path, p("/tmp/a"));
    assert_eq!(history.entries[1].path, p("/tmp/c"));
    assert_eq!(history.entries[2].path, p("/tmp/b"));
}

#[test]
fn test_record_enforces_max() {
    let mut history = History::default();
    for i in 0..(MAX_ENTRIES + 10) {
        history.record(p(&format!("/tmp/dir{}", i)), i as i64);
    }
    assert_eq!(history.entries.len(), MAX_ENTRIES);
}

#[test]
fn record_keeps_newest_entries_when_full() {
    let mut history = History::default();
    for i in 0..(MAX_ENTRIES + 10) {
        history.record(p(&format!("/tmp/dir{}", i)), i as i64);
    }
    assert_eq!(history.entries[0].path, p(&format!("/tmp/dir{}", MAX_ENTRIES + 9)));
    assert_eq!(history.entries[MAX_ENTRIES - 1].path, p("/tmp/dir10"));
}

#[test]
fn record_twice_is_like_recording_once() {
    let mut once = History::default();
    once.record(p("/tmp/a"), 1);
    once.record(p("/tmp/b"), 2);
    let mut twice = History::default();
    twice.record(p("/tmp/a"), 1);
    twice.record(p("/tmp/b"), 2);
    twice.record(p("/tmp/b"), 2);
    assert_eq!(once.entries, twice.entries);
}

#[test]
fn record_updates_the_timestamp() {
    let mut history = History::default();
    history.record(p("/tmp/a"), 1);
    history.record(p("/tmp/a"), 42);
    assert_eq!(history.entries.len(), 1);
    assert_eq!(history.entries[0].timestamp, 42);
}

#[test]
fn settings_files_live_under_config_dir() {
    assert_eq!(history_path(&p("/home/u")), p("/home/u/.config/cdtree/history.json"));
    assert_eq!(config_path(&p("/home/u")), p("/home/u/.config/cdtree/config.json"));
}

#[test]
fn default_theme_colors() {
    let t = Theme::default();
    assert_eq!(t.border_fg, RgbColor { r: 120, g: 230, b: 80 });
    assert_eq!(t.border_style, RgbColor { r: 120, g: 230, b: 80 });
    assert_eq!(t.border_style_soft, RgbColor { r: 90, g: 190, b: 70 });
    assert_eq!(t.key_highlight, RgbColor { r: 255, g: 160, b: 0 });
    assert_eq!(t.branch_color, RgbColor { r: 202, g: 93, b: 42 });
    let c = Config::default();
    assert!(!c.show_files);
    assert!(!c.show_hidden);
    assert_eq!(c.theme, t);
    assert_eq!(RgbColor::from((1, 2, 3)), RgbColor { r: 1, g: 2, b: 3 });
}

#[test]
fn path_text_round_trip() {
    assert_eq!(p("/home/u/").to_text(), "/home/u/");
    assert_eq!(p("/home//u/./x").to_text(), "/home//u/./x");
    assert_eq!(p("/home/u/"), p("/home/u"));
    assert_eq!(p("rel/a").to_text(), "rel/a");
    assert_eq!(p("/").to_text(), "/");
    assert!(p("/home/u/x").starts_with(&p("/home/u")));
    assert!(!p("/home/uv").starts_with(&p("/home/u")));
    assert_eq!(p("/home/u").parent(), Some(p("/home")));
    assert_eq!(p("/").parent(), None);
}

#[test]
fn path_text_is_kept_as_written() {
    assert_eq!(p("/home/u/").child("x").to_text(), "/home/u/x");
    assert_eq!(p("/home/u").child("x").to_text(), "/home/u/x");
    assert_eq!(p("/home/u/x/").parent().unwrap().to_text(), "/home/u");
    assert_eq!(p("/home//u/./x").parent().unwrap().to_text(), "/home//u");
    assert_eq!(p("rel").parent().unwrap().to_text(), "");
    assert_eq!(history_path(&p("/home/u/")).to_text(), "/home/u/.config/cdtree/history.json");
    assert_eq!(config_path(&p("//home/u")).to_text(), "//home/u/.config/cdtree/config.json");
}

#[test]
fn record_length_rule() {
    let mut history = History::default();
    history.record(p("/a"), 1);
    history.record(p("/b"), 2);
    history.record(p("/c"), 3);
    assert_eq!(history.entries.len(), 3);
    history.record(p("/b"), 4);
    assert_eq!(history.entries.len(), 3);
    history.record(p("/d"), 5);
    assert_eq!(history.entries.len(), 4);
    let mut full = History::default();
    for i in 0..MAX_ENTRIES {
        full.record(p(&format!("/dir{}", i)), i as i64);
    }
    assert_eq!(full.entries.len(), MAX_ENTRIES);
    full.record(p("/dir7"), 500);
    assert_eq!(full.entries.len(), MAX_ENTRIES);
    full.record(p("/new"), 501);
    assert_eq!(full.entries.len(), MAX_ENTRIES);
}

#[test]
fn file_name_of_parent_step_is_none() {
    assert_eq!(p("/home/u/..").file_name(), None);
    assert_eq!(p("/home/u").file_name(), Some("u".to_string()));
    assert_eq!(p("/").file_name(), None);
}

#[test]
fn record_keeps_written_text() {
    let mut history = History::default();
    history.record(p("/tmp//x/"), 1);
    history.record(p("/tmp/y"), 2);
    assert_eq!(history.entries[0].path.to_text(), "/tmp/y");
    assert_eq!(history.entries[1].path.to_text(), "/tmp//x/");
    history.record(p("/tmp/x"), 3);
    assert_eq!(history.entries.len(), 2);
    assert_eq!(history.entries[0].path.to_text(), "/tmp/x");
    assert_eq!(history.entries[1].path.to_text(), "/tmp/y");
}
