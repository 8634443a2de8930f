use cdtree::input::{
    clicked_index, exit_action, is_double_click, is_safe_cd_target, key_command, row_in_list, theme_resets,
    Command, ExitAction, Key,
};
use cdtree::mode::AppMode;
use cdtree::shell::shell_quote;
use cdtree::view::{list_content_area, Rect};

fn is_dir(path: &str) -> bool {
    std::path::Path::new(path).is_dir()
}

#[test]
fn cd_target_rejects_control_chars_and_relative_paths() {
    assert!(!is_safe_cd_target("", is_dir("")));
    assert!(!is_safe_cd_target("relative/path", is_dir("relative/path")));
    assert!(!is_safe_cd_target("/tmp/a\nb", is_dir("/tmp/a\nb")));
    assert!(!is_safe_cd_target("/tmp/a\rb", is_dir("/tmp/a\rb")));
    assert!(!is_safe_cd_target("/tmp/a\0b", is_dir("/tmp/a\0b")));
}

#[test]
fn cd_target_accepts_existing_absolute_directory() {
    assert!(is_safe_cd_target("/", is_dir("/")));
    assert!(is_safe_cd_target("/tmp", true));
    assert!(!is_safe_cd_target("/tmp/some_file", false));
}

#[test]
fn shell_quote_escapes_single_quotes() {
    assert_eq!(shell_quote("/tmp/it's here"), "'/tmp/it'\\''s here'");
}

#[test]
fn shell_quote_of_plain_and_empty_text() {
    assert_eq!(shell_quote("/tmp/x"), "'/tmp/x'");
    assert_eq!(shell_quote(""), "''");
    assert_eq!(shell_quote("''"), "''\\'''\\'''");
}

#[test]
fn list_content_area_matches_ui_layout() {
    let area = Rect::new(0, 0, 80, 24);
    let list = list_content_area(area);
    assert_eq!(list, Rect::new(1, 1, 78, 20));
}

#[test]
fn list_content_area_handles_small_terminal() {
    let area = Rect::new(0, 0, 40, 5);
    let list = list_content_area(area);
    assert_eq!(list.height, 1);
}

#[test]
fn list_content_area_of_tiny_terminal_is_empty() {
    let list = list_content_area(Rect::new(2, 3, 1, 3));
    assert_eq!(list, Rect::new(3, 4, 0, 0));
}

#[test]
fn exit_action_per_mode() {
    assert_eq!(exit_action(AppMode::Cd, "/tmp", true), ExitAction::PrintForCd);
    assert_eq!(exit_action(AppMode::Cd, "/tmp/a\nb", true), ExitAction::RefuseCd);
    assert_eq!(exit_action(AppMode::Cd, "/tmp/file", false), ExitAction::RefuseCd);
    assert_eq!(exit_action(AppMode::Open, "/tmp", true), ExitAction::OpenWithSystem);
    assert_eq!(exit_action(AppMode::Code, "/tmp", true), ExitAction::OpenInEditor);
}

#[test]
fn keys_in_tree_view() {
    assert_eq!(key_command(false, false, Key::Char('q')), Command::Quit);
    assert_eq!(key_command(false, false, Key::Esc), Command::Quit);
    assert_eq!(key_command(false, false, Key::Char(' ')), Command::ToggleHistory);
    assert_eq!(key_command(false, false, Key::Char('j')), Command::MoveSelection(1));
    assert_eq!(key_command(false, false, Key::Up), Command::MoveSelection(-1));
    assert_eq!(key_command(false, false, Key::Char('l')), Command::Expand);
    assert_eq!(key_command(false, false, Key::Char('h')), Command::Left);
    assert_eq!(key_command(false, false, Key::Char('f')), Command::StartSearch);
    assert_eq!(key_command(false, false, Key::Char('v')), Command::ToggleFiles);
    assert_eq!(key_command(false, false, Key::Char('a')), Command::ToggleHidden);
    assert_eq!(key_command(false, false, Key::Char('t')), Command::ChangeTheme);
    assert_eq!(key_command(false, false, Key::Enter), Command::Choose);
    assert_eq!(key_command(false, false, Key::Tab), Command::ToggleMode);
    assert_eq!(key_command(false, false, Key::Char('x')), Command::Ignore);
}

#[test]
fn keys_in_history_view() {
    assert_eq!(key_command(true, false, Key::Esc), Command::ToggleHistory);
    assert_eq!(key_command(true, false, Key::Char('q')), Command::Quit);
    assert_eq!(key_command(true, false, Key::Char('k')), Command::MoveHistory(-1));
    assert_eq!(key_command(true, false, Key::Down), Command::MoveHistory(1));
    assert_eq!(key_command(true, false, Key::Enter), Command::ChooseHistory);
    assert_eq!(key_command(true, false, Key::Char('f')), Command::Ignore);
}

#[test]
fn keys_in_search() {
    assert_eq!(key_command(false, true, Key::Char('q')), Command::SearchInput('q'));
    assert_eq!(key_command(false, true, Key::Char('j')), Command::SearchInput('j'));
    assert_eq!(key_command(false, true, Key::Char('\u{7}')), Command::Ignore);
    assert_eq!(key_command(false, true, Key::Esc), Command::ExitSearch);
    assert_eq!(key_command(false, true, Key::Delete), Command::SearchBackspace);
    assert_eq!(key_command(false, true, Key::Backspace), Command::SearchBackspace);
    assert_eq!(key_command(false, true, Key::Right), Command::Expand);
    assert_eq!(key_command(false, true, Key::Enter), Command::Choose);
}

#[test]
fn mouse_rows_and_clicks() {
    let list = Rect::new(1, 1, 78, 20);
    assert!(!row_in_list(0, list));
    assert!(row_in_list(1, list));
    assert!(row_in_list(20, list));
    assert!(!row_in_list(21, list));
    assert_eq!(clicked_index(5, list, 3), 7);
    assert!(is_double_click(true, 399));
    assert!(!is_double_click(true, 400));
    assert!(!is_double_click(false, 10));
    assert!(theme_resets(Some(199)));
    assert!(!theme_resets(Some(200)));
    assert!(!theme_resets(None));
}
