use cdtree::app::{App, ListState};
use cdtree::config::{Config, RgbColor, Theme};
use cdtree::history::{History, HistoryEntry};
use cdtree::mode::AppMode;
use cdtree::node::FileNode;
use cdtree::path::TreePath;
use cdtree::snapshot::DirSnapshot;
use cdtree::tree::find_node;
use cdtree::rows::RowPart;
use cdtree::input::Command;
use cdtree::step::Outcome;

fn p(text: &str) -> TreePath {
    TreePath::new(text)
}

fn sample_app() -> App {
    let mut root = FileNode::new(p("/root"), true);
    let mut a = FileNode::new(p("/root/a"), true);
    a.expanded = true;
    a.children = Some(vec![
        FileNode::new(p("/root/a/aa"), true),
        FileNode::new(p("/root/a/ab"), false),
    ]);
    let b = FileNode::new(p("/root/b"), true);
    root.expanded = true;
    root.children = Some(vec![a, b]);

    App {
        root,
        selected_path: p("/root"),
        startup_path: p("/root"),
        show_files: true,
        show_hidden: true,
        list_state: ListState::default(),
        config: Config::default(),
        current_theme: Theme::default(),
        mode: AppMode::Cd,
        history_mode: false,
        history: History::default(),
        history_list_state: ListState::default(),
        home_dir: p("/root"),
        search_mode: false,
        search_query: String::new(),
    }
}

fn push_history(app: &mut App, path: &str, timestamp: i64) {
    app.history.entries.push(HistoryEntry { path: p(path), timestamp });
}

#[test]
fn get_visible_nodes_prefix_and_order() {
    let app = sample_app();
    let visible = app.get_visible_nodes();
    let got: Vec<(String, String)> = visible
        .iter()
        .map(|(prefix, node)| (prefix.clone(), node.name()))
        .collect();
    let expected = vec![
        ("".to_string(), "root".to_string()),
        ("├─ ".to_string(), "a".to_string()),
        ("│  ├─ ".to_string(), "aa".to_string()),
        ("│  └─ ".to_string(), "ab".to_string()),
        ("└─ ".to_string(), "b".to_string()),
    ];
    assert_eq!(got, expected);
}

#[test]
fn move_selection_clamps_to_bounds() {
    let mut app = sample_app();
    app.selected_path = p("/root/a");
    app.move_selection(-10);
    assert_eq!(app.selected_path, p("/root"));
    app.move_selection(10);
    assert_eq!(app.selected_path, p("/root/b"));
}

#[test]
fn ensure_valid_selection_prefers_parent() {
    let mut app = sample_app();
    if let Some(children) = app.root.children.as_mut() {
        children[0].expanded = false;
    }
    app.selected_path = p("/root/a/ab");
    app.ensure_valid_selection();
    assert_eq!(app.selected_path, p("/root/a"));
}

#[test]
fn on_left_moves_to_parent_and_collapses() {
    let mut app = sample_app();
    app.selected_path = p("/root/a");
    app.on_left();
    assert_eq!(app.selected_path, p("/root"));
    let a_node = find_node(&app.root, &p("/root/a")).unwrap();
    assert!(!a_node.expanded);
}

#[test]
fn toggle_current_collapses_expanded_dir() {
    let mut app = sample_app();
    app.selected_path = p("/root/a");
    assert!(find_node(&app.root, &p("/root/a")).unwrap().expanded);
    app.toggle_current(&DirSnapshot::new());
    assert!(!find_node(&app.root, &p("/root/a")).unwrap().expanded);
}

#[test]
fn toggle_current_expands_collapsed_dir() {
    let mut app = sample_app();
    // b already holds its (empty) listing, so nothing has to be read
    if let Some(children) = app.root.children.as_mut() {
        children[1].children = Some(vec![]);
    }
    app.selected_path = p("/root/b");
    assert!(!find_node(&app.root, &p("/root/b")).unwrap().expanded);
    app.toggle_current(&DirSnapshot::new());
    assert!(find_node(&app.root, &p("/root/b")).unwrap().expanded);
}

#[test]
fn toggle_current_noop_for_file() {
    let mut app = sample_app();
    app.selected_path = p("/root/a/ab");
    app.toggle_current(&DirSnapshot::new());
    assert_eq!(app.selected_path, p("/root/a/ab"));
}

#[test]
fn select_visible_index_sets_selected_path() {
    let mut app = sample_app();
    app.select_visible_index(3);
    assert_eq!(app.selected_path, p("/root/a/ab"));
    assert_eq!(app.list_state.selected(), Some(3));
}

#[test]
fn select_visible_index_out_of_bounds_is_noop() {
    let mut app = sample_app();
    app.selected_path = p("/root");
    app.select_visible_index(100);
    assert_eq!(app.selected_path, p("/root"));
}

#[test]
fn scroll_down_increases_offset_without_changing_selection() {
    let mut app = sample_app();
    app.selected_path = p("/root");
    *app.list_state.offset_mut() = 0;
    app.scroll(1);
    assert_eq!(app.list_state.offset(), 1);
    assert_eq!(app.selected_path, p("/root"));
}

#[test]
fn scroll_up_decreases_offset_without_changing_selection() {
    let mut app = sample_app();
    app.selected_path = p("/root");
    *app.list_state.offset_mut() = 2;
    app.scroll(-1);
    assert_eq!(app.list_state.offset(), 1);
    assert_eq!(app.selected_path, p("/root"));
}

#[test]
fn scroll_up_at_zero_clamps_to_zero() {
    let mut app = sample_app();
    app.selected_path = p("/root");
    *app.list_state.offset_mut() = 0;
    app.scroll(-1);
    assert_eq!(app.list_state.offset(), 0);
}

#[test]
fn scroll_history_changes_offset_without_changing_selection() {
    let mut app = sample_app();
    for i in 0..3 {
        push_history(&mut app, &format!("/root/dir{}", i), i as i64);
    }
    app.history_list_state.select(Some(1));
    *app.history_list_state.offset_mut() = 0;
    app.scroll_history(1);
    assert_eq!(app.history_list_state.offset(), 1);
    assert_eq!(app.history_list_state.selected(), Some(1));
}

#[test]
fn toggle_history_mode_resets_selection() {
    let mut app = sample_app();
    push_history(&mut app, "/root/a", 1);
    push_history(&mut app, "/root/b", 2);

    assert!(!app.history_mode);
    app.toggle_history_mode();
    assert!(app.history_mode);
    assert_eq!(app.history_list_state.selected(), Some(0));

    app.toggle_history_mode();
    assert!(!app.history_mode);
}

#[test]
fn toggle_history_mode_empty_does_not_select() {
    let mut app = sample_app();
    assert!(app.history.entries.is_empty());
    app.toggle_history_mode();
    assert!(app.history_mode);
    assert_eq!(app.history_list_state.selected(), None);
}

#[test]
fn move_history_selection_clamps() {
    let mut app = sample_app();
    for i in 0..3 {
        push_history(&mut app, &format!("/root/dir{}", i), i as i64);
    }
    app.history_list_state.select(Some(0));

    app.move_history_selection(-1);
    assert_eq!(app.history_list_state.selected(), Some(0));

    app.move_history_selection(1);
    assert_eq!(app.history_list_state.selected(), Some(1));

    app.move_history_selection(10);
    assert_eq!(app.history_list_state.selected(), Some(2));

    app.move_history_selection(-1);
    assert_eq!(app.history_list_state.selected(), Some(1));
}

#[test]
fn move_history_selection_empty_is_noop() {
    let mut app = sample_app();
    app.move_history_selection(1);
    assert_eq!(app.history_list_state.selected(), None);
}

#[test]
fn selected_history_path_returns_correct() {
    let mut app = sample_app();
    push_history(&mut app, "/root/a", 1);
    push_history(&mut app, "/root/b", 2);
    app.history_list_state.select(Some(1));

    assert_eq!(app.selected_history_path(), Some(p("/root/b")));
}

#[test]
fn select_from_history_returns_current_mode() {
    let mut app = sample_app();
    app.mode = AppMode::Open;
    push_history(&mut app, "/root/a", 1);
    app.history_list_state.select(Some(0));

    let result = app.select_from_history(5);
    assert_eq!(result, Some(("/root/a".to_string(), AppMode::Open)));
    assert_eq!(app.history.entries.len(), 1);
}

#[test]
fn select_from_history_returns_each_mode() {
    for mode in [AppMode::Cd, AppMode::Open, AppMode::Code] {
        let mut app = sample_app();
        app.mode = mode;
        push_history(&mut app, "/root/a", 1);
        app.history_list_state.select(Some(0));

        let result = app.select_from_history(5);
        assert_eq!(result.map(|(_, m)| m), Some(mode));
    }
}

#[test]
fn history_mode_toggle_cycles_modes() {
    let mut app = sample_app();
    push_history(&mut app, "/root/a", 1);

    app.toggle_history_mode();
    assert!(app.history_mode);
    assert_eq!(app.mode, AppMode::Cd);

    app.mode.toggle();
    assert_eq!(app.mode, AppMode::Open);

    app.history_list_state.select(Some(0));
    let result = app.select_from_history(5);
    assert_eq!(result.map(|(_, m)| m), Some(AppMode::Open));
}

#[test]
fn history_mode_preserves_mode_on_toggle() {
    let mut app = sample_app();
    app.mode = AppMode::Code;

    app.toggle_history_mode();
    assert_eq!(app.mode, AppMode::Code);

    app.toggle_history_mode();
    assert_eq!(app.mode, AppMode::Code);
}

#[test]
fn record_and_get_path_records_in_cd_mode() {
    let mut app = sample_app();
    app.selected_path = p("/root/a");
    app.mode = AppMode::Cd;

    let result = app.record_and_get_path(7);
    assert_eq!(result, Some(("/root/a".to_string(), AppMode::Cd)));
    assert_eq!(app.history.entries.len(), 1);
}

#[test]
fn record_and_get_path_skips_in_open_mode() {
    let mut app = sample_app();
    app.selected_path = p("/root/a");
    app.mode = AppMode::Open;

    let result = app.record_and_get_path(7);
    assert!(result.is_some());
    assert!(app.history.entries.is_empty());
}

#[test]
fn record_and_get_path_returns_none_for_file() {
    let mut app = sample_app();
    app.selected_path = p("/root/a/ab");
    app.mode = AppMode::Cd;

    let result = app.record_and_get_path(7);
    assert!(result.is_none());
}

#[test]
fn select_from_history_moves_entry_to_front_with_new_time() {
    let mut app = sample_app();
    push_history(&mut app, "/root/a", 1);
    push_history(&mut app, "/root/b", 2);
    app.history_list_state.select(Some(1));

    let result = app.select_from_history(99);
    assert_eq!(result, Some(("/root/b".to_string(), AppMode::Cd)));
    assert_eq!(app.history.entries.len(), 2);
    assert_eq!(app.history.entries[0].path, p("/root/b"));
    assert_eq!(app.history.entries[0].timestamp, 99);
    assert_eq!(app.history.entries[1].path, p("/root/a"));
}

#[test]
fn select_from_history_without_selection_is_none() {
    let mut app = sample_app();
    push_history(&mut app, "/root/a", 1);
    assert_eq!(app.select_from_history(5), None);
    assert_eq!(app.history.entries[0].timestamp, 1);
}

#[test]
fn move_selection_keeps_list_state_on_selected_row() {
    let mut app = sample_app();
    app.selected_path = p("/root");
    app.move_selection(2);
    assert_eq!(app.selected_path, p("/root/a/aa"));
    assert_eq!(app.list_state.selected(), Some(2));
}

#[test]
fn update_list_state_without_visible_selection_scrolls_to_top() {
    let mut app = sample_app();
    *app.list_state.offset_mut() = 3;
    app.selected_path = p("/elsewhere");
    app.update_list_state();
    assert_eq!(app.list_state.selected(), None);
    assert_eq!(app.list_state.offset(), 0);
}

#[test]
fn on_left_at_root_keeps_selection() {
    let mut app = sample_app();
    app.selected_path = p("/root");
    app.on_left();
    assert_eq!(app.selected_path, p("/root"));
    assert!(app.root.expanded);
}

#[test]
fn reset_theme_default_restores_default_colors() {
    let mut app = sample_app();
    app.change_theme_random();
    assert_eq!(app.current_theme, app.config.theme);
    app.reset_theme_default();
    assert_eq!(app.current_theme, Theme::default());
    assert_eq!(app.config.theme, Theme::default());
}

#[test]
fn search_query_edits() {
    let mut app = sample_app();
    app.start_search();
    assert!(app.search_mode);
    app.search_input('a');
    app.search_input('b');
    assert_eq!(app.search_query, "ab");
    app.search_backspace();
    assert_eq!(app.search_query, "a");
    app.exit_search();
    assert!(!app.search_mode);
    assert_eq!(app.search_query, "");
}

#[test]
fn mode_toggle_cycles_through_three_modes() {
    let mut mode = AppMode::Cd;
    mode.toggle();
    assert_eq!(mode, AppMode::Open);
    mode.toggle();
    assert_eq!(mode, AppMode::Code);
    mode.toggle();
    assert_eq!(mode, AppMode::Cd);
    assert_eq!(AppMode::Cd.suffix(), "_CD");
    assert_eq!(AppMode::Open.suffix(), "_OPEN");
    assert_eq!(AppMode::Code.suffix(), "_CODE");
}

#[test]
fn toggle_current_twice_restores_the_tree() {
    let mut app = sample_app();
    app.selected_path = p("/root/a");
    let rows = |app: &App| -> Vec<(String, String, bool)> {
        app.get_visible_nodes()
            .iter()
            .map(|(prefix, node)| (prefix.clone(), node.name(), node.expanded))
            .collect()
    };
    let before = rows(&app);
    app.toggle_current(&DirSnapshot::new());
    assert_ne!(rows(&app), before);
    app.toggle_current(&DirSnapshot::new());
    assert_eq!(rows(&app), before);
    assert_eq!(app.list_state.selected(), Some(1));
}

#[test]
fn selection_stays_on_a_shown_row_after_collapse() {
    let mut app = sample_app();
    app.selected_path = p("/nowhere/deep");
    app.ensure_valid_selection();
    assert_eq!(app.selected_path, p("/root"));
}

#[test]
fn click_row_in_tree_selects_and_toggles() {
    let mut app = sample_app();
    assert_eq!(app.click_reads(1), vec![p("/root/a")]);
    let r = app.click_row(1, None, 0, &DirSnapshot::new(), 5);
    assert_eq!(r.chosen, None);
    assert_eq!(r.remember, Some(p("/root/a")));
    assert_eq!(app.selected_path, p("/root/a"));
    assert!(!find_node(&app.root, &p("/root/a")).unwrap().expanded);
}

#[test]
fn double_click_in_tree_chooses_directory() {
    let mut app = sample_app();
    let first = app.click_row(4, None, 0, &DirSnapshot::new(), 5);
    let r = app.click_row(4, first.remember.as_ref(), 100, &DirSnapshot::new(), 6);
    assert_eq!(r.chosen, Some(("/root/b".to_string(), AppMode::Cd)));
    assert_eq!(app.history.entries.len(), 1);
    assert_eq!(app.history.entries[0].timestamp, 6);
}

#[test]
fn slow_second_click_is_a_single_click() {
    let mut app = sample_app();
    let first = app.click_row(4, None, 0, &DirSnapshot::new(), 5);
    let r = app.click_row(4, first.remember.as_ref(), 400, &DirSnapshot::new(), 6);
    assert_eq!(r.chosen, None);
    assert_eq!(r.remember, Some(p("/root/b")));
}

#[test]
fn double_click_on_file_chooses_nothing_and_forgets() {
    let mut app = sample_app();
    let previous = p("/root/a/ab");
    let r = app.click_row(3, Some(&previous), 10, &DirSnapshot::new(), 5);
    assert_eq!(r.chosen, None);
    assert_eq!(r.remember, None);
    assert_eq!(app.selected_path, p("/root/a/ab"));
}

#[test]
fn click_past_the_rows_forgets_the_last_click() {
    let mut app = sample_app();
    let r = app.click_row(99, Some(&p("/root")), 10, &DirSnapshot::new(), 5);
    assert_eq!(r.chosen, None);
    assert_eq!(r.remember, None);
    assert_eq!(app.selected_path, p("/root"));
}

#[test]
fn clicks_in_history_list() {
    let mut app = sample_app();
    push_history(&mut app, "/root/a", 1);
    push_history(&mut app, "/root/b", 2);
    app.toggle_history_mode();
    assert!(app.click_reads(1).is_empty());
    let first = app.click_row(1, None, 0, &DirSnapshot::new(), 5);
    assert_eq!(first.chosen, None);
    assert_eq!(app.history_list_state.selected(), Some(1));
    let r = app.click_row(1, first.remember.as_ref(), 50, &DirSnapshot::new(), 9);
    assert_eq!(r.chosen, Some(("/root/b".to_string(), AppMode::Cd)));
    assert_eq!(app.history.entries[0].path, p("/root/b"));
    assert_eq!(app.history.entries[0].timestamp, 9);
    let r = app.click_row(7, None, 0, &DirSnapshot::new(), 9);
    assert_eq!(r.chosen, None);
    assert_eq!(r.remember, None);
}

#[test]
fn apply_theme_sets_current_and_saved_theme() {
    let mut app = sample_app();
    let c = |r: u8| RgbColor { r, g: 2, b: 3 };
    let theme = Theme { border_fg: c(1), border_style: c(4), border_style_soft: c(5), key_highlight: c(6), branch_color: c(7) };
    let before = app.selected_path.clone();
    app.apply_theme(theme);
    assert_eq!(app.current_theme, theme);
    assert_eq!(app.config.theme, theme);
    assert_eq!(app.selected_path, before);
    assert!(!app.history_mode);
}

#[test]
fn tree_row_pieces_for_selected_directory() {
    let mut app = sample_app();
    app.selected_path = p("/root/a");
    app.search_mode = true;
    app.search_query = "A".to_string();
    app.mode = AppMode::Open;
    let visible = app.get_visible_nodes();
    let (prefix, node) = &visible[1];
    let row = app.tree_row(prefix, node);
    assert_eq!(
        row,
        vec![
            ("  ".to_string(), RowPart::Pad),
            ("├─ ".to_string(), RowPart::Branch),
            ("a".to_string(), RowPart::Match),
            (" 📂1 📄1".to_string(), RowPart::Count),
            (" _OPEN".to_string(), RowPart::Mode),
        ]
    );
    let (prefix, node) = &visible[3];
    let row = app.tree_row(prefix, node);
    assert_eq!(
        row,
        vec![
            ("  ".to_string(), RowPart::Pad),
            ("│  └─ ".to_string(), RowPart::Branch),
            ("a".to_string(), RowPart::Match),
            ("b".to_string(), RowPart::Name),
        ]
    );
}

#[test]
fn tree_row_without_search_or_counts() {
    let app = sample_app();
    let visible = app.get_visible_nodes();
    let (prefix, node) = &visible[4];
    assert_eq!(
        app.tree_row(prefix, node),
        vec![("  ".to_string(), RowPart::Pad), ("└─ ".to_string(), RowPart::Branch), ("b".to_string(), RowPart::Name)]
    );
    let (prefix, node) = &visible[0];
    assert_eq!(
        app.tree_row(prefix, node),
        vec![
            ("  ".to_string(), RowPart::Pad),
            ("".to_string(), RowPart::Branch),
            ("root".to_string(), RowPart::Name),
            (" 📂2".to_string(), RowPart::Count),
            (" _CD".to_string(), RowPart::Mode),
        ]
    );
}

#[test]
fn history_row_pieces() {
    let mut app = sample_app();
    push_history(&mut app, "/root/a//b/", 1);
    push_history(&mut app, "/srv/x", 2);
    app.history_list_state.select(Some(1));
    app.mode = AppMode::Code;
    assert_eq!(
        app.history_row(0),
        vec![
            ("  ".to_string(), RowPart::Pad),
            ("  1 ".to_string(), RowPart::Index),
            ("~/a//b".to_string(), RowPart::Path),
        ]
    );
    assert_eq!(
        app.history_row(1),
        vec![
            ("  ".to_string(), RowPart::Pad),
            ("  2 ".to_string(), RowPart::Index),
            ("/srv/x".to_string(), RowPart::Path),
            ("_CODE".to_string(), RowPart::Mode),
        ]
    );
}

#[test]
fn apply_command_outcomes() {
    let empty = DirSnapshot::new();
    let mut app = sample_app();
    let s = app.apply_command(Command::Quit, &empty, 1, None);
    assert_eq!(s.outcome, Outcome::Quit);
    assert!(!s.settings_changed);
    let s = app.apply_command(Command::ToggleMode, &empty, 1, None);
    assert_eq!(s.outcome, Outcome::Continue);
    assert_eq!(app.mode, AppMode::Open);
    let s = app.apply_command(Command::MoveSelection(1), &empty, 1, None);
    assert_eq!(s.outcome, Outcome::Continue);
    assert_eq!(app.selected_path, p("/root/a"));
    let s = app.apply_command(Command::Choose, &empty, 7, None);
    assert_eq!(s.outcome, Outcome::Chosen("/root/a".to_string(), AppMode::Open));
    assert!(app.history.entries.is_empty());
    app.mode = AppMode::Cd;
    let s = app.apply_command(Command::Choose, &empty, 8, None);
    assert_eq!(s.outcome, Outcome::Chosen("/root/a".to_string(), AppMode::Cd));
    assert_eq!(app.history.entries.len(), 1);
    let s = app.apply_command(Command::ChangeTheme, &empty, 9, Some(50));
    assert!(s.settings_changed);
    assert_eq!(app.current_theme, Theme::default());
    let s = app.apply_command(Command::ToggleFiles, &empty, 10, None);
    assert!(s.settings_changed);
    assert!(!app.show_files);
    app.selected_path = p("/root/a/ab");
    let s = app.apply_command(Command::Choose, &empty, 11, None);
    assert_eq!(s.outcome, Outcome::Continue);
}

#[test]
fn command_reads_lists_directories_read() {
    let mut app = sample_app();
    app.selected_path = p("/root/a/aa");
    assert_eq!(app.command_reads(Command::Expand), vec![p("/root/a/aa")]);
    assert_eq!(app.command_reads(Command::ToggleHidden), vec![p("/root"), p("/root/a"), p("/root/a/aa")]);
    assert!(app.command_reads(Command::Left).is_empty());
}

#[test]
fn history_choice_gives_stored_text() {
    let mut app = sample_app();
    push_history(&mut app, "/root//a/", 1);
    app.history_mode = true;
    app.history_list_state.select(Some(0));
    let out = app.select_from_history(2);
    assert_eq!(out, Some(("/root//a/".to_string(), AppMode::Cd)));
    assert_eq!(app.history.entries[0].path.to_text(), "/root//a/");
}

#[test]
fn search_and_history_steps_change_nothing_else() {
    let mut app = sample_app();
    push_history(&mut app, "/root/a", 1);
    let before_hidden = app.show_hidden;
    app.start_search();
    app.search_input('x');
    app.search_backspace();
    app.exit_search();
    app.toggle_history_mode();
    app.move_history_selection(1);
    app.toggle_history_mode();
    assert_eq!(app.show_hidden, before_hidden);
    assert_eq!(app.history.entries.len(), 1);
    assert_eq!(app.config, cdtree::config::Config::default());
}
