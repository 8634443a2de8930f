use vstd::prelude::*;
use crate::config::{Config, Theme, RgbColor, default_theme};
use crate::history::{History, HistoryEntry, upserted};
use crate::mode::AppMode;
use crate::input::is_double_click;
use crate::node::{FileNode, NodeView, LoadError, loaded, listing_view};
use crate::path::{TreePath, PathView, PathAndText, whole, path_starts_with, path_parent, descent_steps};
use crate::pathtext::parent_text;
use crate::snapshot::{DirSnapshot, SnapshotView, snapshot_lookup};
use crate::tree::{
    Row, visible_rows, rows_view, row_index, row_index_from, lemma_row_index, find_view, parent_walk,
    modified, cleared, reloaded, ActionView, NodeAction, collect_visible_nodes, find_and_modify,
    find_node, find_parent_path, clear_child_count_cache, traverse_and_reload, opt_path_view,
};

verus! {

/// Which row of a list is selected and which row is shown first.
#[derive(Debug, Clone, Copy, PartialEq, Eq, Structural)]
pub struct ListState {
    pub selected: Option<usize>,
    pub offset: usize,
}

/// The list state after selecting `index`: selecting nothing also scrolls
/// back to the top.
pub open spec fn selected_state(ls: ListState, index: Option<usize>) -> ListState {
    ListState { selected: index, offset: if index is None { 0 } else { ls.offset } }
}

/// An index found among rows, as a list index.
pub open spec fn as_index(i: Option<int>) -> Option<usize> {
    match i {
        Some(k) => Some(k as usize),
        None => None,
    }
}

impl Default for ListState {
    fn default() -> (ls: Self)
        ensures
            ls == (ListState { selected: None, offset: 0 }),
    {
        ListState { selected: None, offset: 0 }
    }
}

impl ListState {
    /// Selects `index`; selecting nothing also scrolls back to the top.
    pub fn select(&mut self, index: Option<usize>)
        ensures
            *final(self) == selected_state(*old(self), index),
    {
        self.selected = index;
        if index.is_none() {
            self.offset = 0;
        }
    }

    /// The selected index.
    pub fn selected(&self) -> (i: Option<usize>)
        ensures
            i == self.selected,
    {
        self.selected
    }

    /// The index of the first shown row.
    pub fn offset(&self) -> (o: usize)
        ensures
            o == self.offset,
    {
        self.offset
    }

    /// The index of the first shown row, to be changed in place.
    pub fn offset_mut(&mut self) -> (o: &mut usize)
        ensures
            *o == old(self).offset,
            final(self).offset == *final(o),
            final(self).selected == old(self).selected,
    {
        &mut self.offset
    }
}

/// The state of the navigator.
pub struct App {
    /// The tree, rooted at the home directory.
    pub root: FileNode,
    pub selected_path: TreePath,
    /// The directory the navigator was started in.
    pub startup_path: TreePath,
    pub show_files: bool,
    pub show_hidden: bool,
    pub list_state: ListState,
    pub config: Config,
    pub current_theme: Theme,
    pub mode: AppMode,
    pub history_mode: bool,
    pub history: History,
    pub history_list_state: ListState,
    pub home_dir: TreePath,
    /// Whether names are being searched.
    pub search_mode: bool,
    /// The text searched for.
    pub search_query: String,
}

/// The list offset after scrolling by `delta` rows from `offset` (taken as
/// an `i32`), not above the first row.
pub open spec fn scrolled(offset: usize, delta: i32) -> usize {
    let sum = (offset as i32) + delta;
    if sum < 0 { 0 } else { sum as usize }
}

/// The state `a` with `theme` as the current theme and as the theme in the
/// settings, everything else as it was.
pub open spec fn themed(a: App, theme: Theme) -> App {
    App { current_theme: theme, config: Config { theme, ..a.config }, ..a }
}

/// The rows shown for the tree of `a`.
pub open spec fn app_rows(a: App) -> Seq<Row> {
    visible_rows(a.root@)
}

/// The list state after re-selecting the selected path among the rows.
pub open spec fn relisted(a: App) -> ListState {
    selected_state(a.list_state, as_index(row_index(app_rows(a), a.selected_path@)))
}

/// Everything but the tree, the selection and the list state is the same.
pub open spec fn same_settings(a: App, b: App) -> bool {
    &&& a.startup_path == b.startup_path
    &&& a.show_files == b.show_files
    &&& a.show_hidden == b.show_hidden
    &&& a.config == b.config
    &&& a.current_theme == b.current_theme
    &&& a.mode == b.mode
    &&& a.history_mode == b.history_mode
    &&& a.history == b.history
    &&& a.history_list_state == b.history_list_state
    &&& a.home_dir == b.home_dir
    &&& a.search_mode == b.search_mode
    &&& a.search_query == b.search_query
}

/// `x` limited to `lo..=hi`.
pub open spec fn clamp(x: int, lo: int, hi: int) -> int {
    if x < lo { lo } else if x > hi { hi } else { x }
}

/// The selection kept when the rows change: the selected path if it is
/// shown, else its parent if that is shown, else the first row.
pub open spec fn valid_selection(rows: Seq<Row>, sel: PathView) -> PathView {
    if rows.len() == 0 || row_index(rows, sel) is Some {
        sel
    } else if path_parent(sel) is Some && row_index(rows, path_parent(sel)->0) is Some {
        path_parent(sel)->0
    } else {
        rows[0].1.path
    }
}

/// The tree after the directories `steps[..k]` are expanded in turn, each with
/// its listing in the snapshot.
pub open spec fn expand_steps(n: NodeView, steps: Seq<PathView>, snap: SnapshotView, show_files: bool, show_hidden: bool, k: int) -> NodeView
    decreases k,
{
    if k <= 0 || k > steps.len() {
        n
    } else {
        let prev = expand_steps(n, steps, snap, show_files, show_hidden, k - 1);
        modified(prev, steps[k - 1], ActionView::Expand(snapshot_lookup(snap, steps[k - 1])), show_files, show_hidden)
    }
}

/// The tree after expanding every directory from the root down to `target`
/// (nothing when `target` is not under the root).
pub open spec fn expanded_to(n: NodeView, target: PathView, snap: SnapshotView, show_files: bool, show_hidden: bool) -> NodeView {
    if path_starts_with(target, n.path) {
        let steps = descent_steps(n.path, target);
        expand_steps(n, steps, snap, show_files, show_hidden, steps.len() as int)
    } else {
        n
    }
}

/// The text of the selection kept when the rows change, chosen as
/// `valid_selection` chooses the path: the parent's text is that of the
/// selected path with its last name taken off.
pub open spec fn valid_selection_text(rows: Seq<Row>, sel: PathAndText) -> Seq<char> {
    if rows.len() == 0 || row_index(rows, sel.0) is Some {
        sel.1
    } else if path_parent(sel.0) is Some && row_index(rows, path_parent(sel.0)->0) is Some {
        parent_text(sel.1)
    } else {
        rows[0].1.text
    }
}

/// Whatever the rows, as long as there is one, the selection that is kept
/// when they change is one of them.
pub proof fn lemma_valid_selection_is_shown(rows: Seq<Row>, sel: PathView)
    requires
        rows.len() > 0,
    ensures
        row_index(rows, valid_selection(rows, sel)) is Some,
{
}

fn position_of(rows: &Vec<(String, &FileNode)>, p: &TreePath) -> (r: Option<usize>)
    ensures
        as_index(row_index(rows_view(rows@), p@)) == r,
        r matches Some(k) ==> k < rows@.len(),
{
    let ghost rv = rows_view(rows@);
    let mut i: usize = 0;
    while i < rows.len()
        invariant
            i <= rows@.len(),
            rv == rows_view(rows@),
            rv.len() == rows@.len(),
            row_index(rv, p@) == row_index_from(rv, p@, i as int),
        decreases rows@.len() - i,
    {
        assert(rv[i as int].1.path == rows@[i as int].1.path@);
        if rows[i].1.path.same_as(p) {
            return Some(i);
        }
        i = i + 1;
    }
    None
}

impl App {
    /// The shown rows: each node with its branch drawing, depth first.
    pub fn get_visible_nodes(&self) -> (rows: Vec<(String, &FileNode)>)
        ensures
            rows_view(rows@) == app_rows(*self),
    {
        let mut result: Vec<(String, &FileNode)> = Vec::new();
        let mut stack: Vec<bool> = Vec::new();
        assert(rows_view(result@) =~= Seq::<Row>::empty());
        collect_visible_nodes(&self.root, &mut stack, &mut result);
        assert(stack@ =~= Seq::<bool>::empty());
        assert(rows_view(result@) =~= app_rows(*self));
        result
    }

    /// Selects, in the list, the row of the selected path (or nothing).
    pub fn update_list_state(&mut self)
        ensures
            final(self).list_state == relisted(*old(self)),
            final(self).root == old(self).root,
            final(self).selected_path == old(self).selected_path,
            same_settings(*final(self), *old(self)),
    {
        let pos = {
            let visible = self.get_visible_nodes();
            position_of(&visible, &self.selected_path)
        };
        self.list_state.select(pos);
    }

    /// Moves the selection `delta` rows, staying within the rows; nothing
    /// happens when the selected path is not shown.
    pub fn move_selection(&mut self, delta: i32)
        ensures
            selection_moved(*old(self), *final(self), delta),
    {
        let new_path = {
            let visible = self.get_visible_nodes();
            if visible.len() == 0 {
                return;
            }
            let ghost rows = rows_view(visible@);
            let idx = match position_of(&visible, &self.selected_path) {
                Some(i) => i,
                None => {
                    return;
                },
            };
            proof {
                lemma_row_index(rows, self.selected_path@, 0);
            }
            let max = visible.len() - 1;
            let t: i128 = idx as i128 + delta as i128;
            let j: usize = if t < 0 { 0 } else if t > max as i128 { max } else { t as usize };
            assert(j as int == clamp(idx + delta, 0, rows.len() - 1));
            assert(rows[j as int].1.path == visible@[j as int].1.path@);
            assert(rows[j as int].1.text == visible@[j as int].1.path.text@);
            visible[j].1.path.duplicate()
        };
        self.selected_path = new_path;
        self.update_list_state();
    }

    /// Selects the row at `idx` (as the list shows it); an index past the rows
    /// is ignored.
    pub fn select_visible_index(&mut self, idx: usize)
        ensures
            idx < app_rows(*old(self)).len() ==> {
                &&& final(self).selected_path@ == app_rows(*old(self))[idx as int].1.path
                &&& final(self).selected_path.text@ == app_rows(*old(self))[idx as int].1.text
                &&& final(self).list_state == selected_state(old(self).list_state, Some(idx))
                &&& final(self).root == old(self).root
                &&& same_settings(*final(self), *old(self))
            },
            idx >= app_rows(*old(self)).len() ==> *final(self) == *old(self),
    {
        let new_path = {
            let visible = self.get_visible_nodes();
            if idx >= visible.len() {
                return;
            }
            assert(app_rows(*self)[idx as int].1.path == visible@[idx as int].1.path@);
            assert(app_rows(*self)[idx as int].1.text == visible@[idx as int].1.path.text@);
            visible[idx].1.path.duplicate()
        };
        self.selected_path = new_path;
        self.list_state.select(Some(idx));
    }

    /// Scrolls the tree view by `delta` rows (not above the first row),
    /// keeping the selection. The offset is taken as an `i32`, so the sum
    /// must fit in one.
    pub fn scroll(&mut self, delta: i32)
        requires
            i32::MIN <= (old(self).list_state.offset as i32) + delta <= i32::MAX,
        ensures
            final(self).list_state.offset == scrolled(old(self).list_state.offset, delta),
            final(self).list_state.selected == old(self).list_state.selected,
            final(self).root == old(self).root,
            final(self).selected_path == old(self).selected_path,
            same_settings(*final(self), *old(self)),
    {
        let current = #[verifier::truncate] (self.list_state.offset() as i32);
        let sum = current + delta;
        let new: usize = if sum < 0 { 0 } else { sum as usize };
        *self.list_state.offset_mut() = new;
    }

    /// Scrolls the history view by `delta` rows (not above the first row),
    /// keeping the selection.
    pub fn scroll_history(&mut self, delta: i32)
        requires
            i32::MIN <= (old(self).history_list_state.offset as i32) + delta <= i32::MAX,
        ensures
            final(self).history_list_state.offset == scrolled(old(self).history_list_state.offset, delta),
            final(self).history_list_state.selected == old(self).history_list_state.selected,
            final(self).root == old(self).root,
            final(self).selected_path == old(self).selected_path,
            final(self).list_state == old(self).list_state,
            final(self).history == old(self).history,
            final(self).history_mode == old(self).history_mode,
            final(self).mode == old(self).mode,
            *final(self) == (App { history_list_state: final(self).history_list_state, ..*old(self) }),
    {
        let current = #[verifier::truncate] (self.history_list_state.offset() as i32);
        let sum = current + delta;
        let new: usize = if sum < 0 { 0 } else { sum as usize };
        *self.history_list_state.offset_mut() = new;
    }

    /// Whether the selected path is a directory of the tree.
    pub fn is_selected_dir(&self) -> (b: bool)
        ensures
            b == (find_view(self.root@, self.selected_path@) matches Some(n) && n.is_dir),
    {
        match find_node(&self.root, &self.selected_path) {
            Some(node) => node.is_dir,
            None => false,
        }
    }

    /// Expands the selected directory, loading its children from the
    /// snapshot when they are not loaded.
    pub fn expand_current(&mut self, snapshot: &DirSnapshot)
        ensures
            current_expanded(*old(self), *final(self), snapshot@),
    {
        let listing = snapshot.listing_for(&self.selected_path);
        let action = NodeAction::Expand(listing);
        find_and_modify(&mut self.root, &self.selected_path, &action, self.show_files, self.show_hidden);
        self.update_list_state();
    }

    /// Collapses the selected directory if expanded, expands it otherwise;
    /// a selected file is left as it is.
    pub fn toggle_current(&mut self, snapshot: &DirSnapshot)
        ensures
            final(self).root@ == modified(old(self).root@, old(self).selected_path@,
                ActionView::Toggle(snapshot_lookup(snapshot@, old(self).selected_path@)), old(self).show_files, old(self).show_hidden),
            final(self).selected_path == old(self).selected_path,
            final(self).list_state == relisted(*final(self)),
            same_settings(*final(self), *old(self)),
    {
        let listing = snapshot.listing_for(&self.selected_path);
        let action = NodeAction::Toggle(listing);
        find_and_modify(&mut self.root, &self.selected_path, &action, self.show_files, self.show_hidden);
        self.update_list_state();
    }

    /// Moves the selection to the parent row and collapses the directory that
    /// was selected; at the root nothing moves.
    pub fn on_left(&mut self)
        ensures
            went_left(*old(self), *final(self)),
    {
        let selected = self.selected_path.duplicate();
        let parent = find_parent_path(&self.root, &selected);
        if let Some(p) = parent {
            self.selected_path = p;
            let action = NodeAction::Collapse;
            find_and_modify(&mut self.root, &selected, &action, self.show_files, self.show_hidden);
        }
        self.update_list_state();
    }

    /// Keeps the selection on a shown row: the selected path if shown, else
    /// its parent if shown, else the first row.
    pub fn ensure_valid_selection(&mut self)
        ensures
            final(self).selected_path@ == valid_selection(app_rows(*old(self)), old(self).selected_path@),
            final(self).selected_path.text@ == valid_selection_text(app_rows(*old(self)), whole(old(self).selected_path)),
            final(self).root == old(self).root,
            final(self).list_state == old(self).list_state,
            same_settings(*final(self), *old(self)),
    {
        let new_path = {
            let visible = self.get_visible_nodes();
            if visible.len() == 0 {
                return;
            }
            if position_of(&visible, &self.selected_path).is_some() {
                return;
            }
            let mut chosen: Option<TreePath> = None;
            if let Some(parent) = self.selected_path.parent() {
                if position_of(&visible, &parent).is_some() {
                    chosen = Some(parent);
                }
            }
            match chosen {
                Some(p) => p,
                None => {
                    assert(app_rows(*self)[0].1.path == visible@[0].1.path@);
                    assert(app_rows(*self)[0].1.text == visible@[0].1.path.text@);
                    visible[0].1.path.duplicate()
                },
            }
        };
        self.selected_path = new_path;
    }

    /// Expands every directory from the root down to `target`, reading each
    /// from the snapshot; nothing happens when `target` is not under the root.
    pub fn expand_to_path(&mut self, target: &TreePath, snapshot: &DirSnapshot)
        ensures
            final(self).root@ == expanded_to(old(self).root@, target@, snapshot@, old(self).show_files, old(self).show_hidden),
            final(self).selected_path == old(self).selected_path,
            final(self).list_state == old(self).list_state,
            same_settings(*final(self), *old(self)),
    {
        if !target.starts_with(&self.root.path) {
            return;
        }
        let show_files = self.show_files;
        let show_hidden = self.show_hidden;
        let steps = target.descent_from(&self.root.path);
        let ghost n0 = self.root@;
        let ghost sv = descent_steps(n0.path, target@);
        assert(steps@.map_values(|p: TreePath| p@) == sv);
        let mut i: usize = 0;
        while i < steps.len()
            invariant
                i <= steps@.len(),
                steps@.map_values(|p: TreePath| p@) == sv,
                sv.len() == steps@.len(),
                self.root@ == expand_steps(n0, sv, snapshot@, show_files, show_hidden, i as int),
                show_files == old(self).show_files,
                show_hidden == old(self).show_hidden,
                self.selected_path == old(self).selected_path,
                self.list_state == old(self).list_state,
                same_settings(*self, *old(self)),
            decreases steps@.len() - i,
        {
            let step = &steps[i];
            assert(sv[i as int] == step@);
            let listing = snapshot.listing_for(step);
            let action = NodeAction::Expand(listing);
            find_and_modify(&mut self.root, step, &action, show_files, show_hidden);
            i = i + 1;
        }
    }
}


/// The tree and selection after the visibility switches change: counts
/// cleared, the root read again, the path to the selection expanded again,
/// and the selection moved to a shown row.
pub open spec fn refreshed_root(root: NodeView, sel: PathView, snap: SnapshotView, show_files: bool, show_hidden: bool) -> NodeView {
    let r1 = cleared(root);
    let r2 = reloaded(r1, snapshot_lookup(snap, r1.path), show_files, show_hidden);
    expanded_to(r2, sel, snap, show_files, show_hidden)
}

/// The directories whose children are counted for the rows
/// `first..first + count`: shown directories whose children are not loaded
/// and whose count was not tried, in row order.
pub open spec fn count_targets(rows: Seq<Row>, first: int, count: int) -> Seq<PathView> {
    let window = rows.subrange(
        if first < rows.len() { first } else { rows.len() as int },
        if first + count < rows.len() { first + count } else { rows.len() as int },
    );
    count_targets_in(window, window.len() as int)
}

/// The paths of the first `k` rows that need a count.
pub open spec fn count_targets_in(window: Seq<Row>, k: int) -> Seq<PathView>
    decreases k,
{
    if k <= 0 || k > window.len() {
        Seq::empty()
    } else {
        let n = window[k - 1].1;
        if n.is_dir && n.children is None && !n.child_count_attempted {
            count_targets_in(window, k - 1).push(n.path)
        } else {
            count_targets_in(window, k - 1)
        }
    }
}

/// The tree after the directories `targets[..k]` are counted in turn, each
/// from its listing in the snapshot.
pub open spec fn count_steps(n: NodeView, targets: Seq<PathView>, snap: SnapshotView, show_files: bool, show_hidden: bool, k: int) -> NodeView
    decreases k,
{
    if k <= 0 || k > targets.len() {
        n
    } else {
        let prev = count_steps(n, targets, snap, show_files, show_hidden, k - 1);
        modified(prev, targets[k - 1], ActionView::Count(snapshot_lookup(snap, targets[k - 1])), show_files, show_hidden)
    }
}

impl App {
    /// Reads the tree again after a visibility switch changed, and keeps the
    /// selection on a shown row.
    fn refresh_after_toggle(&mut self, snapshot: &DirSnapshot)
        ensures
            final(self).root@ == refreshed_root(old(self).root@, old(self).selected_path@, snapshot@,
                old(self).show_files, old(self).show_hidden),
            final(self).selected_path@ == valid_selection(visible_rows(final(self).root@), old(self).selected_path@),
            final(self).selected_path.text@ == valid_selection_text(visible_rows(final(self).root@), whole(old(self).selected_path)),
            final(self).list_state == relisted(*final(self)),
            same_settings(*final(self), *old(self)),
    {
        clear_child_count_cache(&mut self.root);
        let show_files = self.show_files;
        let show_hidden = self.show_hidden;
        traverse_and_reload(&mut self.root, snapshot, show_files, show_hidden);
        let selected = self.selected_path.duplicate();
        self.expand_to_path(&selected, snapshot);
        self.ensure_valid_selection();
        self.update_list_state();
    }

    /// Shows or hides files, and reads the tree again. The switch is also
    /// set in the settings (saving them is up to the caller).
    pub fn toggle_show_files(&mut self, snapshot: &DirSnapshot)
        ensures
            files_toggled(*old(self), *final(self), snapshot@),
    {
        self.show_files = !self.show_files;
        self.config.show_files = self.show_files;
        self.refresh_after_toggle(snapshot);
    }

    /// Shows or hides hidden entries, and reads the tree again. The switch is
    /// also set in the settings (saving them is up to the caller).
    pub fn toggle_show_hidden(&mut self, snapshot: &DirSnapshot)
        ensures
            hidden_toggled(*old(self), *final(self), snapshot@),
    {
        self.show_hidden = !self.show_hidden;
        self.config.show_hidden = self.show_hidden;
        self.refresh_after_toggle(snapshot);
    }

    /// The directories to count for the rows `first_row..first_row + row_count`
    /// (the ones `ensure_visible_child_counts` reads).
    pub fn paths_needing_counts(&self, first_row: usize, row_count: usize) -> (paths: Vec<TreePath>)
        ensures
            paths@.map_values(|p: TreePath| p@) == count_targets(app_rows(*self), first_row as int, row_count as int),
    {
        let visible = self.get_visible_nodes();
        let ghost rows = rows_view(visible@);
        let len = visible.len();
        let start: usize = if first_row < len { first_row } else { len };
        let end: usize = if row_count <= len - start { start + row_count } else { len };
        assert(end as int == if first_row + row_count < rows.len() { first_row + row_count } else { rows.len() as int });
        let ghost window = rows.subrange(start as int, end as int);
        let mut paths: Vec<TreePath> = Vec::new();
        let mut i: usize = start;
        while i < end
            invariant
                start <= i <= end,
                end <= visible@.len(),
                rows == rows_view(visible@),
                window == rows.subrange(start as int, end as int),
                paths@.map_values(|p: TreePath| p@) == count_targets_in(window, i - start),
            decreases end - i,
        {
            let node = visible[i].1;
            assert(window[i - start] == rows[i as int]);
            assert(rows[i as int].1 == node@);
            if node.is_dir && node.children.is_none() && !node.child_count_attempted {
                let ghost before = paths@.map_values(|p: TreePath| p@);
                paths.push(node.path.duplicate());
                assert(paths@.map_values(|p: TreePath| p@) =~= before.push(node@.path));
            }
            i = i + 1;
        }
        paths
    }

    /// Counts the children of the directories shown in the rows
    /// `first_row..first_row + row_count` that need a count, from their
    /// listings in the snapshot.
    pub fn ensure_visible_child_counts(&mut self, first_row: usize, row_count: usize, snapshot: &DirSnapshot)
        ensures
            ({
                let targets = count_targets(app_rows(*old(self)), first_row as int, row_count as int);
                final(self).root@ == count_steps(old(self).root@, targets, snapshot@, old(self).show_files,
                    old(self).show_hidden, targets.len() as int)
            }),
            final(self).selected_path == old(self).selected_path,
            final(self).list_state == old(self).list_state,
            same_settings(*final(self), *old(self)),
    {
        let show_files = self.show_files;
        let show_hidden = self.show_hidden;
        let paths = self.paths_needing_counts(first_row, row_count);
        let ghost targets = paths@.map_values(|p: TreePath| p@);
        let ghost n0 = self.root@;
        let mut i: usize = 0;
        while i < paths.len()
            invariant
                i <= paths@.len(),
                targets == paths@.map_values(|p: TreePath| p@),
                targets.len() == paths@.len(),
                self.root@ == count_steps(n0, targets, snapshot@, show_files, show_hidden, i as int),
                show_files == old(self).show_files,
                show_hidden == old(self).show_hidden,
                self.selected_path == old(self).selected_path,
                self.list_state == old(self).list_state,
                same_settings(*self, *old(self)),
            decreases paths@.len() - i,
        {
            let p = &paths[i];
            assert(targets[i as int] == p@);
            let listing = snapshot.listing_for(p);
            let action = NodeAction::Count(listing);
            find_and_modify(&mut self.root, p, &action, show_files, show_hidden);
            i = i + 1;
        }
    }
}

/// A random byte.
/// Trusted: `rand::random::<u8>()`, which draws from the thread-local
/// generator; nothing is stated of the value drawn.
#[verifier::external_body]
fn random_byte() -> u8 {
    rand::random::<u8>()
}

/// A color with random components.
fn random_color() -> RgbColor {
    RgbColor { r: random_byte(), g: random_byte(), b: random_byte() }
}

/// The tree right after start-up: the home directory, loaded from its
/// listing and expanded, then expanded down to the start directory.
pub open spec fn startup_root(home: PathAndText, current: PathView, snap: SnapshotView, show_files: bool, show_hidden: bool) -> NodeView {
    let r0 = loaded(crate::node::fresh_view(home, true), snapshot_lookup(snap, home.0), show_files, show_hidden).0;
    expanded_to(NodeView { expanded: true, ..r0 }, current, snap, show_files, show_hidden)
}

/// The path selected first: the start directory when it is under the home
/// directory, else the home directory.
pub open spec fn startup_selection(home: PathView, current: PathView) -> PathView {
    if path_starts_with(current, home) { current } else { home }
}

/// The directories expanded on the way from `base` down to `target`
/// (none when `target` is not under `base`).
pub open spec fn expansion_targets(base: PathView, target: PathView) -> Seq<PathView> {
    if path_starts_with(target, base) { descent_steps(base, target) } else { Seq::empty() }
}

fn expansion_paths(base: &TreePath, target: &TreePath) -> (paths: Vec<TreePath>)
    ensures
        paths@.map_values(|p: TreePath| p@) == expansion_targets(base@, target@),
{
    if target.starts_with(base) {
        target.descent_from(base)
    } else {
        let v: Vec<TreePath> = Vec::new();
        assert(v@.map_values(|p: TreePath| p@) =~= Seq::<PathView>::empty());
        v
    }
}

impl App {
    /// The directories that `App::new` reads: the home directory, then those
    /// from it down to the start directory.
    pub fn startup_reads(home: &TreePath, current_dir: &TreePath) -> (paths: Vec<TreePath>)
        ensures
            paths@.map_values(|p: TreePath| p@) == seq![home@] + expansion_targets(home@, current_dir@),
    {
        let mut paths: Vec<TreePath> = Vec::new();
        paths.push(home.duplicate());
        let mut rest = expansion_paths(home, current_dir);
        let ghost a = paths@.map_values(|p: TreePath| p@);
        let ghost b = rest@.map_values(|p: TreePath| p@);
        paths.append(&mut rest);
        assert(paths@.map_values(|p: TreePath| p@) =~= a + b);
        assert(a =~= seq![home@]);
        paths
    }

    /// The directories that `expand_to_path(target)` reads.
    pub fn expansion_reads(&self, target: &TreePath) -> (paths: Vec<TreePath>)
        ensures
            paths@.map_values(|p: TreePath| p@) == expansion_targets(self.root@.path, target@),
    {
        expansion_paths(&self.root.path, target)
    }

    /// The directories that switching the visibility of files or hidden
    /// entries reads: the root, then those down to the selection.
    pub fn refresh_reads(&self) -> (paths: Vec<TreePath>)
        ensures
            paths@.map_values(|p: TreePath| p@) == seq![self.root@.path] + expansion_targets(self.root@.path, self.selected_path@),
    {
        let mut paths: Vec<TreePath> = Vec::new();
        paths.push(self.root.path.duplicate());
        let mut rest = expansion_paths(&self.root.path, &self.selected_path);
        let ghost a = paths@.map_values(|p: TreePath| p@);
        let ghost b = rest@.map_values(|p: TreePath| p@);
        paths.append(&mut rest);
        assert(paths@.map_values(|p: TreePath| p@) =~= a + b);
        assert(a =~= seq![self.root@.path]);
        paths
    }

    /// Starts the navigator at `current_dir` with the tree rooted at `home`,
    /// reading directories from the snapshot. Fails when `home` cannot be read.
    pub fn new(home: TreePath, current_dir: TreePath, config: Config, history: History, snapshot: &DirSnapshot) -> (r: Result<App, LoadError>)
        ensures
            r is Err <==> snapshot_lookup(snapshot@, home@) is None,
            r matches Ok(app) ==> {
                let root = startup_root(whole(home), current_dir@, snapshot@, config.show_files, config.show_hidden);
                let rows = visible_rows(root);
                let sel = valid_selection(rows, startup_selection(home@, current_dir@));
                &&& app.root@ == root
                &&& app.selected_path@ == sel
                &&& app.selected_path.text@ == valid_selection_text(rows,
                    if path_starts_with(current_dir@, home@) { whole(current_dir) } else { whole(home) })
                &&& app.list_state.selected == as_index(row_index(rows, sel))
                &&& app.list_state.offset == match row_index(rows, sel) { Some(k) => k as usize, None => 0usize }
                &&& app.startup_path@ == current_dir@ && app.startup_path.text@ == current_dir.text@
                &&& app.home_dir == home
                &&& app.show_files == config.show_files
                &&& app.show_hidden == config.show_hidden
                &&& app.config == config
                &&& app.current_theme == config.theme
                &&& app.mode == AppMode::Cd
                &&& !app.history_mode
                &&& app.history == history
                &&& app.history_list_state == (ListState { selected: None, offset: 0 })
                &&& !app.search_mode
                &&& app.search_query@ == Seq::<char>::empty()
            },
    {
        let show_files = config.show_files;
        let show_hidden = config.show_hidden;
        let mut root = FileNode::new(home.duplicate(), true);
        if root.load_children(snapshot.listing_for(&home), show_files, show_hidden).is_err() {
            return Err(LoadError);
        }
        root.expanded = true;
        let selected_path = if current_dir.starts_with(&home) { current_dir.duplicate() } else { home.duplicate() };
        let mut app = App {
            root,
            selected_path,
            startup_path: current_dir.duplicate(),
            show_files,
            show_hidden,
            list_state: ListState::default(),
            config,
            current_theme: Theme::default(),
            mode: AppMode::Cd,
            history_mode: false,
            history,
            history_list_state: ListState::default(),
            home_dir: home,
            search_mode: false,
            search_query: String::new(),
        };
        app.current_theme = app.config.theme;
        app.expand_to_path(&current_dir, snapshot);
        app.ensure_valid_selection();
        app.update_list_state();
        let pos = {
            let visible = app.get_visible_nodes();
            position_of(&visible, &app.selected_path)
        };
        if let Some(p) = pos {
            *app.list_state.offset_mut() = p;
        }
        Ok(app)
    }

    /// Switches to `theme`, kept in the settings too (saving them is up to
    /// the caller); nothing else changes.
    pub fn apply_theme(&mut self, theme: Theme)
        ensures
            *final(self) == themed(*old(self), theme),
    {
        self.current_theme = theme;
        self.config.theme = theme;
    }

    /// Switches to a theme of random colors, kept in the settings too
    /// (saving them is up to the caller); nothing else changes.
    pub fn change_theme_random(&mut self)
        ensures
            *final(self) == themed(*old(self), final(self).current_theme),
    {
        let theme = Theme {
            border_fg: random_color(),
            border_style: random_color(),
            border_style_soft: random_color(),
            key_highlight: random_color(),
            branch_color: random_color(),
        };
        self.apply_theme(theme);
    }

    /// Switches back to the built-in theme, kept in the settings too (saving
    /// them is up to the caller); nothing else changes.
    pub fn reset_theme_default(&mut self)
        ensures
            *final(self) == themed(*old(self), default_theme()),
    {
        self.apply_theme(Theme::default());
    }

    /// Enters or leaves the history view; entering it with a non-empty
    /// history selects the most recent entry.
    pub fn toggle_history_mode(&mut self)
        ensures
            history_toggled(*old(self), *final(self)),
    {
        self.history_mode = !self.history_mode;
        if self.history_mode && !self.history.entries.is_empty() {
            self.history_list_state.select(Some(0));
        }
    }

    /// Moves the history selection `delta` entries, staying within the
    /// history (from the first entry when none is selected).
    pub fn move_history_selection(&mut self, delta: i32)
        ensures
            history_moved(*old(self), *final(self), delta),
    {
        if self.history.entries.is_empty() {
            return;
        }
        let current = match self.history_list_state.selected() {
            Some(i) => i,
            None => 0,
        };
        let max = self.history.entries.len() - 1;
        let t: i128 = current as i128 + delta as i128;
        let new: usize = if t < 0 { 0 } else if t > max as i128 { max } else { t as usize };
        assert(self.history@.len() == self.history.entries@.len());
        self.history_list_state.select(Some(new));
    }

    /// The path of the selected history entry, if an entry is selected.
    pub fn selected_history_path(&self) -> (p: Option<TreePath>)
        ensures
            match self.history_list_state.selected {
                Some(i) if i < self.history@.len() => p matches Some(q) && q@ == self.history@[i as int].0
                    && q.text@ == self.history.entries@[i as int].path.text@,
                _ => p is None,
            },
    {
        let idx = match self.history_list_state.selected() {
            Some(i) => i,
            None => {
                return None;
            },
        };
        if idx < self.history.entries.len() {
            assert(self.history@[idx as int] == self.history.entries@[idx as int]@);
            Some(self.history.entries[idx].path.duplicate())
        } else {
            None
        }
    }

    /// Chooses the selected history entry: records the visit at `timestamp`
    /// and gives its path with the current mode; `None` when nothing is selected.
    pub fn select_from_history(&mut self, timestamp: i64) -> (r: Option<(String, AppMode)>)
        ensures
            history_chosen(*old(self), *final(self), r, timestamp),
    {
        let path = match self.selected_history_path() {
            Some(p) => p,
            None => {
                return None;
            },
        };
        let text = path.to_text();
        self.history.record(path, timestamp);
        Some((text, self.mode))
    }

    /// Chooses the selected directory: in cd mode the visit is recorded at
    /// `timestamp`; gives the path with the current mode. `None` when the
    /// selection is not a directory of the tree.
    pub fn record_and_get_path(&mut self, timestamp: i64) -> (r: Option<(String, AppMode)>)
        ensures
            selection_chosen(*old(self), *final(self), r, timestamp),
    {
        if !self.is_selected_dir() {
            return None;
        }
        if self.mode == AppMode::Cd {
            self.history.record(self.selected_path.duplicate(), timestamp);
        }
        let path = self.selected_path.to_text();
        Some((path, self.mode))
    }
}

impl App {
    /// Enters name search with an empty query.
    pub fn start_search(&mut self)
        ensures
            search_started(*old(self), *final(self)),
    {
        self.search_mode = true;
        self.search_query = String::new();
    }

    /// Leaves name search and forgets the query.
    pub fn exit_search(&mut self)
        ensures
            search_exited(*old(self), *final(self)),
    {
        self.search_mode = false;
        self.search_query = String::new();
    }

    /// Adds a character to the query.
    pub fn search_input(&mut self, c: char)
        ensures
            search_extended(*old(self), *final(self), c),
    {
        crate::text::push_char(&mut self.search_query, c);
    }

    /// Removes the last character of the query, if any.
    pub fn search_backspace(&mut self)
        ensures
            search_shortened(*old(self), *final(self)),
    {
        let chars = crate::text::chars_of(self.search_query.as_str());
        if chars.len() == 0 {
            return;
        }
        let shorter = crate::text::string_of(&chars, 0, chars.len() - 1);
        assert(chars@.subrange(0, chars@.len() - 1) =~= self.search_query@.drop_last());
        self.search_query = shorter;
    }
}

/// What a click on a list row leads to.
pub struct ClickResult {
    /// The chosen path with the mode, when the click chose an entry.
    pub chosen: Option<(String, AppMode)>,
    /// The entry to remember as the last one clicked, for telling a double
    /// click; `None` forgets it.
    pub remember: Option<TreePath>,
}

/// Whether a click on `clicked` is the second of a double click: the
/// previous click was on the same entry, less than 400 ms before.
pub open spec fn double_click(previous: Option<PathView>, clicked: PathView, elapsed_ms: u128) -> bool {
    previous == Some(clicked) && elapsed_ms < 400
}

impl App {
    /// The directories that a click on row `idx` reads: the clicked row's
    /// directory in the tree, nothing in the history list.
    pub fn click_reads(&self, idx: usize) -> (paths: Vec<TreePath>)
        ensures
            paths@.map_values(|p: TreePath| p@) == if !self.history_mode && idx < app_rows(*self).len() {
                seq![app_rows(*self)[idx as int].1.path]
            } else {
                Seq::<PathView>::empty()
            },
    {
        let mut paths: Vec<TreePath> = Vec::new();
        if !self.history_mode {
            let visible = self.get_visible_nodes();
            if idx < visible.len() {
                assert(app_rows(*self)[idx as int].1.path == visible@[idx as int].1.path@);
                paths.push(visible[idx].1.path.duplicate());
            }
        }
        assert(paths@.map_values(|p: TreePath| p@) =~= if !self.history_mode && idx < app_rows(*self).len() {
            seq![app_rows(*self)[idx as int].1.path]
        } else {
            Seq::<PathView>::empty()
        });
        paths
    }

    /// A left click on row `idx` of the list shown (the history list or the
    /// tree). `previous` is the entry clicked before, `elapsed_ms` the time
    /// since then. A click past the rows does nothing and forgets the last
    /// click. Otherwise the row is selected; a double click chooses it (as
    /// Enter does, recording the visit at `timestamp`); a single click in the
    /// tree toggles the clicked directory, reading it from the snapshot, and
    /// the entry is remembered.
    pub fn click_row(
        &mut self,
        idx: usize,
        previous: Option<&TreePath>,
        elapsed_ms: u128,
        snapshot: &DirSnapshot,
        timestamp: i64,
    ) -> (r: ClickResult)
        ensures
            old(self).history_mode ==> {
                let es = old(self).history@;
                if idx >= es.len() {
                    &&& r.chosen is None
                    &&& r.remember is None
                    &&& *final(self) == *old(self)
                } else {
                    let clicked = es[idx as int].0;
                    let shown = App { history_list_state: selected_state(old(self).history_list_state, Some(idx)), ..*old(self) };
                    if double_click(opt_path_view(previous), clicked, elapsed_ms) {
                        &&& r.chosen matches Some(out) && out.0@ == old(self).history.entries@[idx as int].path.text@ && out.1 == old(self).mode
                        &&& r.remember is None
                        &&& *final(self) == (App { history: final(self).history, ..shown })
                        &&& final(self).history@ == upserted(es, clicked, es[idx as int].2, timestamp)
                    } else {
                        &&& r.chosen is None
                        &&& r.remember matches Some(q) && q@ == clicked
                        &&& *final(self) == shown
                    }
                }
            },
            !old(self).history_mode ==> {
                let rows = app_rows(*old(self));
                if idx >= rows.len() {
                    &&& r.chosen is None
                    &&& r.remember is None
                    &&& *final(self) == *old(self)
                } else {
                    let clicked = rows[idx as int].1.path;
                    let is_dir = find_view(old(self).root@, clicked) matches Some(n) && n.is_dir;
                    &&& final(self).selected_path@ == clicked
                    &&& final(self).selected_path.text@ == rows[idx as int].1.text
                    &&& same_settings(*final(self), App { history: final(self).history, ..*old(self) })
                    &&& if double_click(opt_path_view(previous), clicked, elapsed_ms) {
                        &&& final(self).root == old(self).root
                        &&& final(self).list_state == selected_state(old(self).list_state, Some(idx))
                        &&& r.remember is None
                        &&& is_dir ==> (r.chosen matches Some(out) && out.0@ == rows[idx as int].1.text && out.1 == old(self).mode)
                        &&& !is_dir ==> r.chosen is None
                        &&& final(self).history@ == if is_dir && old(self).mode == AppMode::Cd {
                            upserted(old(self).history@, clicked, rows[idx as int].1.text, timestamp)
                        } else {
                            old(self).history@
                        }
                    } else {
                        &&& final(self).root@ == modified(old(self).root@, clicked,
                            ActionView::Toggle(snapshot_lookup(snapshot@, clicked)), old(self).show_files, old(self).show_hidden)
                        &&& final(self).list_state == relisted(*final(self))
                        &&& final(self).history == old(self).history
                        &&& r.chosen is None
                        &&& r.remember matches Some(q) && q@ == clicked
                    }
                }
            },
    {
        if self.history_mode {
            if idx >= self.history.entries.len() {
                return ClickResult { chosen: None, remember: None };
            }
            assert(self.history@[idx as int] == self.history.entries@[idx as int]@);
            self.history_list_state.select(Some(idx));
            let clicked = self.history.entries[idx].path.duplicate();
            let double = match previous {
                Some(p) => is_double_click(p.same_as(&clicked), elapsed_ms),
                None => false,
            };
            if double {
                let chosen = self.select_from_history(timestamp);
                ClickResult { chosen, remember: None }
            } else {
                ClickResult { chosen: None, remember: Some(clicked) }
            }
        } else {
            let clicked = {
                let visible = self.get_visible_nodes();
                if idx >= visible.len() {
                    return ClickResult { chosen: None, remember: None };
                }
                assert(app_rows(*self)[idx as int].1.path == visible@[idx as int].1.path@);
                visible[idx].1.path.duplicate()
            };
            self.select_visible_index(idx);
            let double = match previous {
                Some(p) => is_double_click(p.same_as(&clicked), elapsed_ms),
                None => false,
            };
            if double {
                let chosen = self.record_and_get_path(timestamp);
                ClickResult { chosen, remember: None }
            } else {
                self.toggle_current(snapshot);
                ClickResult { chosen: None, remember: Some(clicked) }
            }
        }
    }
}

/// `b` is `a` after the history view is entered or left.
pub open spec fn history_toggled(a: App, b: App) -> bool {
    &&& b.history_mode == !a.history_mode
    &&& b.history_list_state == if b.history_mode && a.history@.len() > 0 {
        selected_state(a.history_list_state, Some(0))
    } else {
        a.history_list_state
    }
    &&& b.mode == a.mode
    &&& b.history == a.history
    &&& b.root == a.root
    &&& b.selected_path == a.selected_path
    &&& b.list_state == a.list_state
    &&& b == (App { history_mode: b.history_mode, history_list_state: b.history_list_state, ..a })
}

/// `b` is `a` after the history selection moves by `delta` rows.
pub open spec fn history_moved(a: App, b: App, delta: i32) -> bool {
    &&& a.history@.len() == 0 ==> b == a
    &&& a.history@.len() > 0 ==> {
        let cur = match a.history_list_state.selected { Some(i) => i as int, None => 0 };
        &&& b.history_list_state == selected_state(a.history_list_state,
            Some(clamp(cur + delta, 0, a.history@.len() - 1) as usize))
        &&& b.history == a.history
        &&& b.history_mode == a.history_mode
        &&& b.mode == a.mode
        &&& b.root == a.root
        &&& b.selected_path == a.selected_path
        &&& b.list_state == a.list_state
        &&& b == (App { history_list_state: b.history_list_state, ..a })
    }
}

/// `b` and `r` are `a` and the result after the selected history entry is
/// chosen at `timestamp`.
pub open spec fn history_chosen(a: App, b: App, r: Option<(String, AppMode)>, timestamp: i64) -> bool {
    &&& match a.history_list_state.selected {
        Some(i) if i < a.history@.len() => {
            let p = a.history@[i as int].0;
            &&& r matches Some(out) && out.0@ == a.history.entries@[i as int].path.text@ && out.1 == a.mode
            &&& b.history@ == upserted(a.history@, p, a.history@[i as int].2, timestamp)
        },
        _ => r is None && b.history == a.history,
    }
    &&& b.history_list_state == a.history_list_state
    &&& b.mode == a.mode
    &&& b.root == a.root
    &&& b.selected_path == a.selected_path
    &&& b == (App { history: b.history, ..a })
}

/// `b` is `a` after the tree selection moves by `delta` rows.
pub open spec fn selection_moved(a: App, b: App, delta: i32) -> bool {
    &&& row_index(app_rows(a), a.selected_path@) matches Some(k) ==> {
        let rows = app_rows(a);
        let j = clamp(k + delta, 0, rows.len() - 1);
        &&& b.selected_path@ == rows[j].1.path
        &&& b.selected_path.text@ == rows[j].1.text
        &&& b.list_state == relisted(b)
        &&& b.root == a.root
        &&& same_settings(b, a)
    }
    &&& row_index(app_rows(a), a.selected_path@) is None ==> b == a
}

/// `b` is `a` after the selected directory is expanded, read from `snap`.
pub open spec fn current_expanded(a: App, b: App, snap: SnapshotView) -> bool {
    &&& b.root@ == modified(a.root@, a.selected_path@,
        ActionView::Expand(snapshot_lookup(snap, a.selected_path@)), a.show_files, a.show_hidden)
    &&& b.selected_path == a.selected_path
    &&& b.list_state == relisted(b)
    &&& same_settings(b, a)
}

/// `b` is `a` after the selection goes to its parent row.
pub open spec fn went_left(a: App, b: App) -> bool {
    &&& parent_walk(a.root@, a.selected_path@, None) matches Some(p) ==> {
        &&& b.selected_path@ == p.0
        &&& b.selected_path.text@ == p.1
        &&& b.root@ == modified(a.root@, a.selected_path@, ActionView::Collapse,
            a.show_files, a.show_hidden)
    }
    &&& parent_walk(a.root@, a.selected_path@, None) is None ==> {
        &&& b.selected_path == a.selected_path
        &&& b.root == a.root
    }
    &&& b.list_state == relisted(b)
    &&& same_settings(b, a)
}

/// `b` and `r` are `a` and the result after the selected directory is
/// chosen at `timestamp`.
pub open spec fn selection_chosen(a: App, b: App, r: Option<(String, AppMode)>, timestamp: i64) -> bool {
    &&& (find_view(a.root@, a.selected_path@) matches Some(n) && n.is_dir) ==> {
        &&& r matches Some(out) && out.0@ == a.selected_path.text@ && out.1 == a.mode
        &&& b.history@ == if a.mode == AppMode::Cd {
            upserted(a.history@, a.selected_path@, a.selected_path.text@, timestamp)
        } else {
            a.history@
        }
    }
    &&& !(find_view(a.root@, a.selected_path@) matches Some(n) && n.is_dir) ==> {
        &&& r is None
        &&& b.history == a.history
    }
    &&& b.mode == a.mode
    &&& b.root == a.root
    &&& b.selected_path == a.selected_path
    &&& b.history_list_state == a.history_list_state
    &&& b == (App { history: b.history, ..a })
}

/// `b` is `a` after the name search starts.
pub open spec fn search_started(a: App, b: App) -> bool {
    &&& b.search_mode
    &&& b.search_query@ == Seq::<char>::empty()
    &&& b.root == a.root
    &&& b.selected_path == a.selected_path
    &&& b.list_state == a.list_state
    &&& b.mode == a.mode
    &&& b.history_mode == a.history_mode
    &&& b == (App { search_mode: b.search_mode, search_query: b.search_query, ..a })
}

/// `b` is `a` after the name search ends.
pub open spec fn search_exited(a: App, b: App) -> bool {
    &&& !b.search_mode
    &&& b.search_query@ == Seq::<char>::empty()
    &&& b.root == a.root
    &&& b.selected_path == a.selected_path
    &&& b.list_state == a.list_state
    &&& b.mode == a.mode
    &&& b.history_mode == a.history_mode
    &&& b == (App { search_mode: b.search_mode, search_query: b.search_query, ..a })
}

/// `b` is `a` after the last character of the query is dropped.
pub open spec fn search_shortened(a: App, b: App) -> bool {
    &&& b.search_query@ == if a.search_query@.len() == 0 {
        a.search_query@
    } else {
        a.search_query@.drop_last()
    }
    &&& b.search_mode == a.search_mode
    &&& b.root == a.root
    &&& b.selected_path == a.selected_path
    &&& b.list_state == a.list_state
    &&& b.mode == a.mode
    &&& b == (App { search_query: b.search_query, ..a })
}

/// `b` is `a` after `c` is typed into the query.
pub open spec fn search_extended(a: App, b: App, c: char) -> bool {
    &&& b.search_query@ == a.search_query@.push(c)
    &&& b.search_mode == a.search_mode
    &&& b.root == a.root
    &&& b.selected_path == a.selected_path
    &&& b.list_state == a.list_state
    &&& b.mode == a.mode
    &&& b == (App { search_query: b.search_query, ..a })
}

/// `b` is `a` after files are shown or hidden, reading from `snap`.
pub open spec fn files_toggled(a: App, b: App, snap: SnapshotView) -> bool {
    &&& b.show_files == !a.show_files
    &&& b.config == (Config { show_files: !a.show_files, ..a.config })
    &&& b.show_hidden == a.show_hidden
    &&& b.root@ == refreshed_root(a.root@, a.selected_path@, snap,
        !a.show_files, a.show_hidden)
    &&& b.selected_path@ == valid_selection(visible_rows(b.root@), a.selected_path@)
    &&& b.selected_path.text@ == valid_selection_text(visible_rows(b.root@), whole(a.selected_path))
    &&& b.list_state == relisted(b)
    &&& b.mode == a.mode
    &&& b.history == a.history
    &&& b.history_mode == a.history_mode
    &&& b.current_theme == a.current_theme
    &&& b == (App {
        show_files: b.show_files,
        show_hidden: b.show_hidden,
        config: b.config,
        root: b.root,
        selected_path: b.selected_path,
        list_state: b.list_state,
        ..a
    })
}

/// `b` is `a` after hidden entries are shown or hidden, reading from `snap`.
pub open spec fn hidden_toggled(a: App, b: App, snap: SnapshotView) -> bool {
    &&& b.show_hidden == !a.show_hidden
    &&& b.config == (Config { show_hidden: !a.show_hidden, ..a.config })
    &&& b.show_files == a.show_files
    &&& b.root@ == refreshed_root(a.root@, a.selected_path@, snap,
        a.show_files, !a.show_hidden)
    &&& b.selected_path@ == valid_selection(visible_rows(b.root@), a.selected_path@)
    &&& b.selected_path.text@ == valid_selection_text(visible_rows(b.root@), whole(a.selected_path))
    &&& b.list_state == relisted(b)
    &&& b.mode == a.mode
    &&& b.history == a.history
    &&& b.history_mode == a.history_mode
    &&& b.current_theme == a.current_theme
    &&& b == (App {
        show_files: b.show_files,
        show_hidden: b.show_hidden,
        config: b.config,
        root: b.root,
        selected_path: b.selected_path,
        list_state: b.list_state,
        ..a
    })
}

} // verus!
