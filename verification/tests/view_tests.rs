use cdtree::app::{App, ListState};
use cdtree::config::{Config, Theme};
use cdtree::history::History;
use cdtree::mode::AppMode;
use cdtree::node::FileNode;
use cdtree::path::TreePath;
use cdtree::view::{
    child_count_label, decimal, history_display_path, history_index_label, name_match_ranges, name_segments,
    name_style, search_field_contents, search_field_width, search_form_text, NameStyle, SEARCH_FIELD_WIDTH,
};

fn p(text: &str) -> TreePath {
    TreePath::new(text)
}

fn seg(text: &str, matched: bool) -> (String, bool) {
    (text.to_string(), matched)
}

#[test]
fn name_spans_splits_matched_substrings() {
    let spans = name_segments("ReadMe", "ad");
    assert_eq!(spans.len(), 3);
    assert_eq!(spans[0].0, "Re");
    assert_eq!(spans[1].0, "ad");
    assert_eq!(spans[2].0, "Me");
    assert!(spans[1].1);
}

#[test]
fn name_spans_without_query_is_a_single_span() {
    let spans = name_segments("src", "");
    assert_eq!(spans.len(), 1);
    assert_eq!(spans[0].0, "src");
    assert!(!spans[0].1);
}

#[test]
fn name_spans_without_match_keeps_name_style() {
    let spans = name_segments("src", "zzz");
    assert_eq!(spans.len(), 1);
    assert_eq!(spans[0].0, "src");
    assert!(!spans[0].1);
}

#[test]
fn name_segments_ignore_case_and_find_every_occurrence() {
    assert_eq!(
        name_segments("abAB", "ab"),
        vec![seg("ab", true), seg("AB", true)]
    );
    assert_eq!(
        name_segments("xaaay", "aa"),
        vec![seg("x", false), seg("aa", true), seg("ay", false)]
    );
    assert_eq!(name_match_ranges("ReadMe", "AD"), vec![(2, 4)]);
    assert_eq!(name_match_ranges("aaaa", "aa"), vec![(0, 2), (2, 4)]);
    assert_eq!(name_match_ranges("a", "abc"), vec![]);
}

#[test]
fn search_ignores_case_beyond_ascii() {
    assert_eq!(name_match_ranges("Ärger", "ä"), vec![(0, 1)]);
    assert_eq!(name_match_ranges("ΣΟΦΙΑ", "σοφ"), vec![(0, 3)]);
    assert_eq!(name_match_ranges("Straße", "STRA"), vec![(0, 4)]);
    assert_eq!(
        name_segments("ÉtéÉTÉ", "été"),
        vec![("Été".to_string(), true), ("ÉTÉ".to_string(), true)]
    );
}

#[test]
fn name_segments_put_back_the_name() {
    let segs = name_segments("Cargo.toml", "o");
    let whole: String = segs.iter().map(|s| s.0.as_str()).collect();
    assert_eq!(whole, "Cargo.toml");
    assert_eq!(segs.iter().filter(|s| s.1).count(), 2);
}

#[test]
fn search_field_pads_empty_query_to_form_width() {
    let contents = search_field_contents("", 12);
    assert_eq!(contents, "_           ");
    assert_eq!(contents.chars().count(), 12);
}

#[test]
fn search_field_keeps_cursor_after_query() {
    let contents = search_field_contents("src", 12);
    assert_eq!(contents, "src_        ");
}

#[test]
fn search_field_keeps_the_tail_of_a_long_query() {
    let contents = search_field_contents("abcdefghijklmnop", 8);
    assert_eq!(contents, "jklmnop_");
}

#[test]
fn search_form_line_wraps_the_field_in_brackets() {
    let line = search_form_text("src", 12);
    assert_eq!(line, " Find [src_        ] ");
}

#[test]
fn search_form_text_for_wide_terminal() {
    let line = search_form_text("src", search_field_width(80));
    assert!(line.starts_with(" Find ["));
    assert!(line.contains("src_"));
    assert_eq!(line.chars().count(), 6 + 1 + SEARCH_FIELD_WIDTH + 2);
}

#[test]
fn search_field_width_is_stable_on_normal_terminals() {
    assert_eq!(search_field_width(80), SEARCH_FIELD_WIDTH);
    assert_eq!(search_field_width(40), SEARCH_FIELD_WIDTH);
    assert_eq!(search_field_width(24), 4);
}

#[test]
fn search_field_width_between_bounds() {
    // 30 - 2 - 9 - 2 - 9 = 8
    assert_eq!(search_field_width(30), 8);
    assert_eq!(search_field_width(0), 4);
}

#[test]
fn search_field_of_zero_width_still_shows_cursor() {
    assert_eq!(search_field_contents("abc", 0), "_");
    assert_eq!(search_field_contents("abc", 1), "_");
}

#[test]
fn count_labels() {
    assert_eq!(child_count_label(0, 0), None);
    assert_eq!(child_count_label(2, 0), Some(" 📂2".to_string()));
    assert_eq!(child_count_label(0, 3), Some(" 📄3".to_string()));
    assert_eq!(child_count_label(12, 305), Some(" 📂12 📄305".to_string()));
    assert_eq!(decimal(0), "0");
    assert_eq!(decimal(1090), "1090");
}

#[test]
fn history_rows() {
    assert_eq!(history_display_path(&p("/root/a/b"), &p("/root")), "~/a/b");
    assert_eq!(history_display_path(&p("/srv/x"), &p("/root")), "/srv/x");
    assert_eq!(history_display_path(&p("/root/a//b/"), &p("/root/")), "~/a//b");
    assert_eq!(history_display_path(&p("/srv//x/"), &p("/root")), "/srv//x/");
    assert_eq!(history_index_label(0), "  1 ");
    assert_eq!(history_index_label(41), " 42 ");
    assert_eq!(history_index_label(999), "1000 ");
}

fn sample_app() -> App {
    let mut root = FileNode::new(p("/root"), true);
    root.expanded = true;
    root.children = Some(vec![FileNode::new(p("/root/a"), true), FileNode::new(p("/root/f"), false)]);
    App {
        root,
        selected_path: p("/root"),
        startup_path: p("/root/a"),
        show_files: true,
        show_hidden: true,
        list_state: ListState::default(),
        config: Config::default(),
        current_theme: Theme::default(),
        mode: AppMode::Cd,
        history_mode: false,
        history: History::default(),
        history_list_state: ListState::default(),
        home_dir: p("/root"),
        search_mode: false,
        search_query: String::new(),
    }
}

#[test]
fn name_styles() {
    let app = sample_app();
    let a = FileNode::new(p("/root/a"), true);
    let f = FileNode::new(p("/root/f"), false);
    let d = FileNode::new(p("/root/d"), true);
    assert_eq!(name_style(&app, &app.root, true), NameStyle::Selected);
    assert_eq!(name_style(&app, &a, false), NameStyle::Startup);
    assert_eq!(name_style(&app, &app.root, false), NameStyle::Root);
    assert_eq!(name_style(&app, &d, false), NameStyle::Directory);
    assert_eq!(name_style(&app, &f, false), NameStyle::File);
}
