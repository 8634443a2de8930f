use vstd::prelude::*;
use crate::mode::AppMode;
use crate::view::Rect;
use crate::text::chars_of;

verus! {

/// A key press, as far as the navigator tells keys apart.
#[derive(Debug, Clone, Copy, PartialEq, Eq, Structural)]
pub enum Key {
    Char(char),
    Esc,
    Tab,
    Up,
    Down,
    Left,
    Right,
    Enter,
    Backspace,
    Delete,
    Other,
}

/// What a key press asks the navigator to do.
#[derive(Debug, Clone, Copy, PartialEq, Eq, Structural)]
pub enum Command {
    /// Leave without choosing anything.
    Quit,
    /// Switch between the tree and the history list.
    ToggleHistory,
    /// Advance the exit mode (cd, open, code).
    ToggleMode,
    /// Move the history selection by the given number of rows.
    MoveHistory(i32),
    /// Choose the selected history entry.
    ChooseHistory,
    /// Move the tree selection by the given number of rows.
    MoveSelection(i32),
    /// Expand the selected directory.
    Expand,
    /// Collapse the selected directory or go to its parent.
    Left,
    /// Choose the selected directory.
    Choose,
    /// Start typing a name to find.
    StartSearch,
    /// Leave the search.
    ExitSearch,
    /// Drop the last character of the search.
    SearchBackspace,
    /// Add a character to the search.
    SearchInput(char),
    /// Show or hide files.
    ToggleFiles,
    /// Show or hide hidden entries.
    ToggleHidden,
    /// Change the theme (a quick second press restores the default).
    ChangeTheme,
    /// Nothing.
    Ignore,
}

/// Whether `c` is a control character (Unicode category Cc).
pub open spec fn is_control(c: char) -> bool {
    (c as u32) <= 0x1F || (0x7F <= (c as u32) && (c as u32) <= 0x9F)
}

/// The command for `key`: in the history list, in a search, or in the tree.
pub open spec fn command_for(history_mode: bool, search_mode: bool, key: Key) -> Command {
    if history_mode {
        match key {
            Key::Char(' ') | Key::Esc => Command::ToggleHistory,
            Key::Char('q') => Command::Quit,
            Key::Tab => Command::ToggleMode,
            Key::Up | Key::Char('k') => Command::MoveHistory(-1i32),
            Key::Down | Key::Char('j') => Command::MoveHistory(1i32),
            Key::Enter => Command::ChooseHistory,
            _ => Command::Ignore,
        }
    } else if search_mode {
        match key {
            Key::Esc => Command::ExitSearch,
            Key::Backspace | Key::Delete => Command::SearchBackspace,
            Key::Tab => Command::ToggleMode,
            Key::Up => Command::MoveSelection(-1i32),
            Key::Down => Command::MoveSelection(1i32),
            Key::Right => Command::Expand,
            Key::Left => Command::Left,
            Key::Enter => Command::Choose,
            Key::Char(c) => if is_control(c) { Command::Ignore } else { Command::SearchInput(c) },
            _ => Command::Ignore,
        }
    } else {
        match key {
            Key::Char(' ') => Command::ToggleHistory,
            Key::Char('q') | Key::Esc => Command::Quit,
            Key::Tab => Command::ToggleMode,
            Key::Char('f') => Command::StartSearch,
            Key::Char('v') => Command::ToggleFiles,
            Key::Char('a') => Command::ToggleHidden,
            Key::Up | Key::Char('k') => Command::MoveSelection(-1i32),
            Key::Down | Key::Char('j') => Command::MoveSelection(1i32),
            Key::Right | Key::Char('l') => Command::Expand,
            Key::Left | Key::Char('h') => Command::Left,
            Key::Char('t') => Command::ChangeTheme,
            Key::Enter => Command::Choose,
            _ => Command::Ignore,
        }
    }
}

/// While searching, every printable character, `q` and the letters that
/// move in the tree included, is typed into the query.
pub proof fn lemma_search_types_characters(c: char)
    requires
        !is_control(c),
    ensures
        command_for(false, true, Key::Char(c)) == Command::SearchInput(c),
{
}

/// The arrow keys move one row at a time: Down one row down, Up one row up,
/// in the tree (searching or not) and in the history list; in the tree
/// outside a search `j` and `k` do what Down and Up do.
pub proof fn lemma_arrows_move_one_row(history_mode: bool, search_mode: bool)
    ensures
        !history_mode ==> command_for(history_mode, search_mode, Key::Down) == Command::MoveSelection(1i32),
        !history_mode ==> command_for(history_mode, search_mode, Key::Up) == Command::MoveSelection(-1i32),
        history_mode ==> command_for(history_mode, search_mode, Key::Down) == Command::MoveHistory(1i32),
        history_mode ==> command_for(history_mode, search_mode, Key::Up) == Command::MoveHistory(-1i32),
        !search_mode ==> command_for(history_mode, search_mode, Key::Char('j')) == command_for(history_mode, search_mode, Key::Down),
        !search_mode ==> command_for(history_mode, search_mode, Key::Char('k')) == command_for(history_mode, search_mode, Key::Up),
{
}

/// What the other keys do: Right opens and Left closes (or goes up) in the
/// tree, Enter chooses, Tab cycles the mode everywhere; outside a search `l`
/// and `h` do what Right and Left do, `q` and Esc quit, Space opens the
/// history, `f` starts a search, `v` and `a` switch files and hidden
/// entries, `t` changes the theme; in a search Esc ends it; in the history
/// list Space and Esc go back, `q` quits and Enter chooses the entry.
pub proof fn lemma_key_meanings(search_mode: bool)
    ensures
        command_for(false, search_mode, Key::Right) == Command::Expand,
        command_for(false, search_mode, Key::Left) == Command::Left,
        command_for(false, search_mode, Key::Enter) == Command::Choose,
        command_for(false, search_mode, Key::Tab) == Command::ToggleMode,
        command_for(true, search_mode, Key::Tab) == Command::ToggleMode,
        command_for(false, false, Key::Char('l')) == Command::Expand,
        command_for(false, false, Key::Char('h')) == Command::Left,
        command_for(false, false, Key::Char('q')) == Command::Quit,
        command_for(false, false, Key::Esc) == Command::Quit,
        command_for(false, false, Key::Char(' ')) == Command::ToggleHistory,
        command_for(false, false, Key::Char('f')) == Command::StartSearch,
        command_for(false, false, Key::Char('v')) == Command::ToggleFiles,
        command_for(false, false, Key::Char('a')) == Command::ToggleHidden,
        command_for(false, false, Key::Char('t')) == Command::ChangeTheme,
        command_for(false, true, Key::Esc) == Command::ExitSearch,
        command_for(true, search_mode, Key::Char(' ')) == Command::ToggleHistory,
        command_for(true, search_mode, Key::Esc) == Command::ToggleHistory,
        command_for(true, search_mode, Key::Char('q')) == Command::Quit,
        command_for(true, search_mode, Key::Enter) == Command::ChooseHistory,
{
}

/// The command for a key pressed in the history list (`history_mode`), in
/// a search (`search_mode`), or in the tree.
pub fn key_command(history_mode: bool, search_mode: bool, key: Key) -> (c: Command)
    ensures
        c == command_for(history_mode, search_mode, key),
{
    if history_mode {
        match key {
            Key::Char(' ') | Key::Esc => Command::ToggleHistory,
            Key::Char('q') => Command::Quit,
            Key::Tab => Command::ToggleMode,
            Key::Up | Key::Char('k') => Command::MoveHistory(-1),
            Key::Down | Key::Char('j') => Command::MoveHistory(1),
            Key::Enter => Command::ChooseHistory,
            _ => Command::Ignore,
        }
    } else if search_mode {
        match key {
            Key::Esc => Command::ExitSearch,
            Key::Backspace | Key::Delete => Command::SearchBackspace,
            Key::Tab => Command::ToggleMode,
            Key::Up => Command::MoveSelection(-1),
            Key::Down => Command::MoveSelection(1),
            Key::Right => Command::Expand,
            Key::Left => Command::Left,
            Key::Enter => Command::Choose,
            Key::Char(c) => {
                let v = c as u32;
                if v <= 0x1F || (0x7F <= v && v <= 0x9F) {
                    Command::Ignore
                } else {
                    Command::SearchInput(c)
                }
            },
            _ => Command::Ignore,
        }
    } else {
        match key {
            Key::Char(' ') => Command::ToggleHistory,
            Key::Char('q') | Key::Esc => Command::Quit,
            Key::Tab => Command::ToggleMode,
            Key::Char('f') => Command::StartSearch,
            Key::Char('v') => Command::ToggleFiles,
            Key::Char('a') => Command::ToggleHidden,
            Key::Up | Key::Char('k') => Command::MoveSelection(-1),
            Key::Down | Key::Char('j') => Command::MoveSelection(1),
            Key::Right | Key::Char('l') => Command::Expand,
            Key::Left | Key::Char('h') => Command::Left,
            Key::Char('t') => Command::ChangeTheme,
            Key::Enter => Command::Choose,
            _ => Command::Ignore,
        }
    }
}

/// Within how many milliseconds a second click on the same row is a double click.
pub const DOUBLE_CLICK_MS: u128 = 400;

/// Within how many milliseconds a second theme change restores the default.
pub const THEME_RESET_MS: u128 = 200;

/// Whether the screen row `row` falls on the rows of the list drawn in `list_area`.
pub fn row_in_list(row: u16, list_area: Rect) -> (b: bool)
    ensures
        b == (list_area.y <= row && row < list_area.y + list_area.height),
{
    let top = list_area.top();
    row >= top && (row as u32) < (top as u32) + (list_area.height as u32)
}

/// The index of the list entry on screen row `row`, given the list's scroll
/// `offset`.
pub fn clicked_index(row: u16, list_area: Rect, offset: usize) -> (i: usize)
    requires
        list_area.y <= row,
        offset + (row - list_area.y) <= usize::MAX,
    ensures
        i == offset + (row - list_area.y),
{
    ((row - list_area.top()) as usize) + offset
}

/// Whether a click is the second of a double click: on the same entry as
/// the click before it, less than `DOUBLE_CLICK_MS` later.
pub fn is_double_click(same_entry: bool, elapsed_ms: u128) -> (b: bool)
    ensures
        b == (same_entry && elapsed_ms < 400),
{
    same_entry && elapsed_ms < DOUBLE_CLICK_MS
}

/// Whether a theme change restores the default theme: when it comes less
/// than `THEME_RESET_MS` after the previous change (`None` when there was none).
pub fn theme_resets(since_last_change_ms: Option<u128>) -> (b: bool)
    ensures
        b == (since_last_change_ms matches Some(e) && e < 200),
{
    match since_last_change_ms {
        Some(e) => e < THEME_RESET_MS,
        None => false,
    }
}

/// Whether `path` may be printed for the shell to change into: not empty,
/// free of NUL, newline and carriage return, and absolute.
pub open spec fn safe_cd_text(path: Seq<char>) -> bool {
    &&& path.len() > 0
    &&& forall|k: int| 0 <= k < path.len() ==> path[k] != '\0' && path[k] != '\n' && path[k] != '\r'
    &&& path[0] == '/'
}

/// A path text may go to `cd` exactly when it is not empty, starts with `/`
/// and holds no NUL, newline or carriage return; any other character, a
/// blank among them, is allowed.
pub proof fn lemma_safe_cd_text_exactly(path: Seq<char>)
    ensures
        safe_cd_text(path) <==> (path.len() > 0 && path[0] == '/' && forall|k: int|
            0 <= k < path.len() ==> path[k] != '\0' && path[k] != '\n' && path[k] != '\r'),
        forall|k: int| 0 <= k < path.len() && path[k] == ' ' && safe_cd_text(path) ==> safe_cd_text(path.update(k, 'x'))
            && (safe_cd_text(path.update(k, 'x')) ==> safe_cd_text(path)),
{
    assert forall|k: int| 0 <= k < path.len() && path[k] == ' ' && safe_cd_text(path)
        implies safe_cd_text(path.update(k, 'x')) by {
        let q = path.update(k, 'x');
        assert forall|j: int| 0 <= j < q.len() implies q[j] != '\0' && q[j] != '\n' && q[j] != '\r' by {
            if j != k {
                assert(q[j] == path[j]);
            }
        }
        if k == 0 {
            assert(path[0] == '/');
        }
    }
}

/// Whether `path` may be handed to the shell's `cd`: a safe absolute path
/// text naming a directory (`is_dir`, as the filesystem says).
pub fn is_safe_cd_target(path: &str, is_dir: bool) -> (b: bool)
    ensures
        b == (safe_cd_text(path@) && is_dir),
{
    let v = chars_of(path);
    if v.len() == 0 {
        return false;
    }
    let mut i: usize = 0;
    while i < v.len()
        invariant
            i <= v@.len(),
            v@ == path@,
            forall|k: int| 0 <= k < i ==> v@[k] != '\0' && v@[k] != '\n' && v@[k] != '\r',
        decreases v@.len() - i,
    {
        let c = v[i];
        if c == '\0' || c == '\n' || c == '\r' {
            return false;
        }
        i = i + 1;
    }
    v[0] == '/' && is_dir
}

/// What happens with the chosen path once the navigator has closed.
#[derive(Debug, Clone, Copy, PartialEq, Eq, Structural)]
pub enum ExitAction {
    /// Print the path for the shell function to change into.
    PrintForCd,
    /// Refuse: the path is not a safe directory to change into.
    RefuseCd,
    /// Open the path with the system's file opener.
    OpenWithSystem,
    /// Open the path in the code editor.
    OpenInEditor,
}

/// What to do with the chosen `path` in `mode` (`is_dir`: whether it names a directory).
pub fn exit_action(mode: AppMode, path: &str, is_dir: bool) -> (a: ExitAction)
    ensures
        a == match mode {
            AppMode::Cd => if safe_cd_text(path@) && is_dir { ExitAction::PrintForCd } else { ExitAction::RefuseCd },
            AppMode::Open => ExitAction::OpenWithSystem,
            AppMode::Code => ExitAction::OpenInEditor,
        },
{
    match mode {
        AppMode::Cd => {
            if is_safe_cd_target(path, is_dir) {
                ExitAction::PrintForCd
            } else {
                ExitAction::RefuseCd
            }
        },
        AppMode::Open => ExitAction::OpenWithSystem,
        AppMode::Code => ExitAction::OpenInEditor,
    }
}

/// What the program does, from its command-line flags.
#[derive(Debug, Clone, Copy, PartialEq, Eq, Structural)]
pub enum StartAction {
    /// Print the version.
    PrintVersion,
    /// Set up the shell integration.
    Setup,
    /// Remove the shell integration.
    Uninstall,
    /// Report on the shell integration.
    Doctor,
    /// Run the navigator.
    Navigate,
}

/// The action for the given flags: the version first, then setup,
/// uninstall and doctor, in that order; the navigator when none is given.
pub fn start_action(version: bool, setup: bool, uninstall: bool, doctor: bool) -> (a: StartAction)
    ensures
        a == if version {
            StartAction::PrintVersion
        } else if setup {
            StartAction::Setup
        } else if uninstall {
            StartAction::Uninstall
        } else if doctor {
            StartAction::Doctor
        } else {
            StartAction::Navigate
        },
{
    if version {
        StartAction::PrintVersion
    } else if setup {
        StartAction::Setup
    } else if uninstall {
        StartAction::Uninstall
    } else if doctor {
        StartAction::Doctor
    } else {
        StartAction::Navigate
    }
}

} // verus!
