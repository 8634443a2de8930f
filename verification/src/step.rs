use vstd::prelude::*;
use crate::app::{
    App, themed, history_toggled, history_moved, history_chosen, selection_moved, current_expanded, went_left,
    selection_chosen, search_started, search_exited, search_shortened, search_extended, files_toggled, hidden_toggled,
};
use crate::config::default_theme;
use crate::input::{Command, theme_resets};
use crate::mode::{AppMode, next_mode};
use crate::path::TreePath;
use crate::snapshot::DirSnapshot;

verus! {

/// How the event loop goes on after a command.
#[derive(Debug, PartialEq, Eq)]
pub enum Outcome {
    /// Leave without choosing anything.
    Quit,
    /// Leave with this directory (its text) and mode.
    Chosen(String, AppMode),
    /// Wait for the next event.
    Continue,
}

/// What the loop is to do after a command: how it goes on, and whether the
/// settings changed and are to be saved.
#[derive(Debug, PartialEq, Eq)]
pub struct Step {
    pub outcome: Outcome,
    pub settings_changed: bool,
}

/// `o` is how the loop goes on when choosing gave `r`: with the choice, or on.
pub open spec fn chosen_outcome(r: Option<(String, AppMode)>, o: Outcome) -> bool {
    match r {
        Some(out) => o matches Outcome::Chosen(t, m) && t@ == out.0@ && m == out.1,
        None => o is Continue,
    }
}

/// Whether carrying out `cmd` changes the settings.
pub open spec fn changes_settings(cmd: Command) -> bool {
    cmd is ToggleFiles || cmd is ToggleHidden || cmd is ChangeTheme
}

fn outcome_of(r: Option<(String, AppMode)>) -> (o: Outcome)
    ensures
        chosen_outcome(r, o),
{
    match r {
        Some((t, m)) => Outcome::Chosen(t, m),
        None => Outcome::Continue,
    }
}

impl App {
    /// The directories that carrying out `cmd` reads: the selected one to
    /// expand it, or those that showing or hiding entries reloads.
    pub fn command_reads(&self, cmd: Command) -> (paths: Vec<TreePath>)
        ensures
            cmd is Expand ==> paths@.len() == 1 && paths@[0]@ == self.selected_path@,
            (cmd is ToggleFiles || cmd is ToggleHidden) ==> paths@.map_values(|p: TreePath| p@)
                == seq![self.root@.path] + crate::app::expansion_targets(self.root@.path, self.selected_path@),
            !(cmd is Expand || cmd is ToggleFiles || cmd is ToggleHidden) ==> paths@.len() == 0,
    {
        match cmd {
            Command::Expand => {
                let mut v: Vec<TreePath> = Vec::new();
                v.push(self.selected_path.duplicate());
                v
            },
            Command::ToggleFiles | Command::ToggleHidden => self.refresh_reads(),
            _ => Vec::new(),
        }
    }

    /// Carries out `cmd`. `listings` holds the directories that it reads
    /// (see `command_reads`), `timestamp` is the time of a visit it records,
    /// and `since_theme_change_ms` the time since the theme last changed.
    /// The navigator quits on `Quit`, leaves with the choice when choosing
    /// gives one, and goes on otherwise.
    pub fn apply_command(
        &mut self,
        cmd: Command,
        listings: &DirSnapshot,
        timestamp: i64,
        since_theme_change_ms: Option<u128>,
    ) -> (s: Step)
        ensures
            s.settings_changed == changes_settings(cmd),
            match cmd {
                Command::Quit => s.outcome is Quit && *final(self) == *old(self),
                Command::Ignore => s.outcome is Continue && *final(self) == *old(self),
                Command::ToggleHistory => s.outcome is Continue && history_toggled(*old(self), *final(self)),
                Command::ToggleMode => s.outcome is Continue && *final(self) == (App {
                    mode: next_mode(old(self).mode),
                    ..*old(self)
                }),
                Command::MoveHistory(d) => s.outcome is Continue && history_moved(*old(self), *final(self), d),
                Command::ChooseHistory => exists|r: Option<(String, AppMode)>|
                    history_chosen(*old(self), *final(self), r, timestamp) && #[trigger] chosen_outcome(r, s.outcome),
                Command::MoveSelection(d) => s.outcome is Continue && selection_moved(*old(self), *final(self), d),
                Command::Expand => s.outcome is Continue && current_expanded(*old(self), *final(self), listings@),
                Command::Left => s.outcome is Continue && went_left(*old(self), *final(self)),
                Command::Choose => exists|r: Option<(String, AppMode)>|
                    selection_chosen(*old(self), *final(self), r, timestamp) && #[trigger] chosen_outcome(r, s.outcome),
                Command::StartSearch => s.outcome is Continue && search_started(*old(self), *final(self)),
                Command::ExitSearch => s.outcome is Continue && search_exited(*old(self), *final(self)),
                Command::SearchBackspace => s.outcome is Continue && search_shortened(*old(self), *final(self)),
                Command::SearchInput(c) => s.outcome is Continue && search_extended(*old(self), *final(self), c),
                Command::ToggleFiles => s.outcome is Continue && files_toggled(*old(self), *final(self), listings@),
                Command::ToggleHidden => s.outcome is Continue && hidden_toggled(*old(self), *final(self), listings@),
                Command::ChangeTheme => s.outcome is Continue && if since_theme_change_ms matches Some(e) && e < 200 {
                    *final(self) == themed(*old(self), default_theme())
                } else {
                    *final(self) == themed(*old(self), final(self).current_theme)
                },
            },
    {
        let settings_changed = match cmd {
            Command::ToggleFiles | Command::ToggleHidden | Command::ChangeTheme => true,
            _ => false,
        };
        let outcome = match cmd {
            Command::Quit => Outcome::Quit,
            Command::Ignore => Outcome::Continue,
            Command::ToggleHistory => {
                self.toggle_history_mode();
                Outcome::Continue
            },
            Command::ToggleMode => {
                self.mode.toggle();
                Outcome::Continue
            },
            Command::MoveHistory(d) => {
                self.move_history_selection(d);
                Outcome::Continue
            },
            Command::ChooseHistory => {
                let r = self.select_from_history(timestamp);
                outcome_of(r)
            },
            Command::MoveSelection(d) => {
                self.move_selection(d);
                Outcome::Continue
            },
            Command::Expand => {
                self.expand_current(listings);
                Outcome::Continue
            },
            Command::Left => {
                self.on_left();
                Outcome::Continue
            },
            Command::Choose => {
                let r = self.record_and_get_path(timestamp);
                outcome_of(r)
            },
            Command::StartSearch => {
                self.start_search();
                Outcome::Continue
            },
            Command::ExitSearch => {
                self.exit_search();
                Outcome::Continue
            },
            Command::SearchBackspace => {
                self.search_backspace();
                Outcome::Continue
            },
            Command::SearchInput(c) => {
                self.search_input(c);
                Outcome::Continue
            },
            Command::ToggleFiles => {
                self.toggle_show_files(listings);
                Outcome::Continue
            },
            Command::ToggleHidden => {
                self.toggle_show_hidden(listings);
                Outcome::Continue
            },
            Command::ChangeTheme => {
                if theme_resets(since_theme_change_ms) {
                    self.reset_theme_default();
                } else {
                    self.change_theme_random();
                }
                Outcome::Continue
            },
        };
        Step { outcome, settings_changed }
    }
}

} // verus!
