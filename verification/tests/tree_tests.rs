use cdtree::app::{App, ListState};
use cdtree::config::{Config, Theme};
use cdtree::history::History;
use cdtree::mode::AppMode;
use cdtree::node::{DirEntryInfo, FileNode};
use cdtree::path::TreePath;
use cdtree::snapshot::DirSnapshot;
use cdtree::tree::{build_prefix, clear_child_count_cache, find_node, find_parent_path};

fn p(text: &str) -> TreePath {
    TreePath::new(text)
}

fn entry(name: &str, is_dir: bool) -> DirEntryInfo {
    DirEntryInfo { name: name.to_string(), is_dir }
}

/// The listing of the sample directory: three directories (one hidden) and
/// three files (one hidden), in no particular order.
fn sample_listing() -> Vec<DirEntryInfo> {
    vec![
        entry("z.txt", false),
        entry("b_dir", true),
        entry(".hidden", false),
        entry("a.txt", false),
        entry(".hdir", true),
        entry("a_dir", true),
    ]
}

fn app_at(root: FileNode, root_path: &TreePath) -> App {
    App {
        root,
        selected_path: root_path.clone(),
        startup_path: root_path.clone(),
        show_files: true,
        show_hidden: true,
        list_state: ListState::default(),
        config: Config::default(),
        current_theme: Theme::default(),
        mode: AppMode::Cd,
        history_mode: false,
        history: History::default(),
        history_list_state: ListState::default(),
        home_dir: root_path.clone(),
        search_mode: false,
        search_query: String::new(),
    }
}

fn child_names(node: &FileNode) -> Vec<String> {
    node.children.as_ref().unwrap().iter().map(|n| n.name()).collect()
}

#[test]
fn load_children_filters_and_sorts() {
    let listing = sample_listing();
    let mut node = FileNode::new(p("/tmp/root"), true);
    node.load_children(Some(&listing), false, false).unwrap();
    assert_eq!(child_names(&node), vec!["a_dir", "b_dir"]);

    node.load_children(Some(&listing), true, false).unwrap();
    assert_eq!(child_names(&node), vec!["a_dir", "b_dir", "a.txt", "z.txt"]);

    node.load_children(Some(&listing), true, true).unwrap();
    assert_eq!(
        child_names(&node),
        vec![".hdir", "a_dir", "b_dir", ".hidden", "a.txt", "z.txt"]
    );
}

#[test]
fn load_children_of_unreadable_dir_fails_and_of_file_does_nothing() {
    let mut node = FileNode::new(p("/tmp/root"), true);
    assert!(node.load_children(None, true, true).is_err());
    assert!(node.children.is_none());

    let mut file = FileNode::new(p("/tmp/file"), false);
    assert!(file.load_children(None, true, true).is_ok());
    assert!(file.children.is_none());
}

#[test]
fn load_children_sets_child_paths_and_counts() {
    let listing = sample_listing();
    let mut node = FileNode::new(p("/tmp/root"), true);
    node.load_children(Some(&listing), true, false).unwrap();
    let children = node.children.as_ref().unwrap();
    assert_eq!(children[0].path, p("/tmp/root/a_dir"));
    assert!(children[0].is_dir);
    assert!(!children[2].is_dir);
    assert_eq!(node.cached_counts, Some((2, 2)));
    assert!(node.child_count_attempted);
    assert_eq!(node.child_counts(), Some((2, 2)));
}

#[test]
fn load_child_counts_filters_and_caches() {
    let listing = sample_listing();
    let mut node = FileNode::new(p("/tmp/root"), true);
    node.load_child_counts(Some(&listing), false, false);
    assert_eq!(node.child_counts(), Some((2, 0)));
    assert!(node.child_count_attempted);

    let mut node = FileNode::new(p("/tmp/root"), true);
    node.load_child_counts(Some(&listing), true, false);
    assert_eq!(node.child_counts(), Some((2, 2)));

    let mut node = FileNode::new(p("/tmp/root"), true);
    node.load_child_counts(Some(&listing), true, true);
    assert_eq!(node.child_counts(), Some((3, 3)));
}

#[test]
fn load_child_counts_is_tried_once() {
    let listing = sample_listing();
    let mut node = FileNode::new(p("/tmp/root"), true);
    node.load_child_counts(None, true, true);
    assert!(node.child_count_attempted);
    assert_eq!(node.child_counts(), None);
    node.load_child_counts(Some(&listing), true, true);
    assert_eq!(node.child_counts(), None);
}

#[test]
fn ensure_visible_child_counts_only_counts_drawn_rows() {
    let root = p("/tmp/root");
    let first = p("/tmp/root/first");
    let second = p("/tmp/root/second");
    let mut snap = DirSnapshot::new();
    snap.add(root.clone(), vec![entry("first", true), entry("second", true)]);
    snap.add(first.clone(), vec![entry("file.txt", false)]);
    snap.add(second.clone(), vec![entry("file.txt", false)]);

    let mut root_node = FileNode::new(root.clone(), true);
    root_node.load_children(snap.listing_for(&root), true, true).unwrap();
    root_node.expanded = true;
    let mut app = app_at(root_node, &root);

    app.ensure_visible_child_counts(1, 1, &snap);

    let first_node = find_node(&app.root, &first).unwrap();
    let second_node = find_node(&app.root, &second).unwrap();
    assert_eq!(first_node.child_counts(), Some((0, 1)));
    assert_eq!(second_node.child_counts(), None);
    assert!(!second_node.child_count_attempted);
}

#[test]
fn ensure_visible_child_counts_skips_collapsed_descendants() {
    let root = p("/tmp/root");
    let collapsed = p("/tmp/root/collapsed");
    let descendant = p("/tmp/root/collapsed/descendant");
    let mut snap = DirSnapshot::new();
    snap.add(descendant.clone(), vec![entry("file.txt", false)]);

    let descendant_node = FileNode::new(descendant.clone(), true);
    let mut collapsed_node = FileNode::new(collapsed.clone(), true);
    collapsed_node.children = Some(vec![descendant_node]);
    let mut root_node = FileNode::new(root.clone(), true);
    root_node.expanded = true;
    root_node.children = Some(vec![collapsed_node]);
    let mut app = app_at(root_node, &root);

    app.ensure_visible_child_counts(0, 100, &snap);

    let descendant_node = find_node(&app.root, &descendant).unwrap();
    assert!(!descendant_node.child_count_attempted);
    assert_eq!(descendant_node.child_counts(), None);
}

#[test]
fn failed_child_count_is_not_retried_until_cache_is_cleared() {
    let root = p("/tmp/root");
    let missing = p("/tmp/root/missing");
    let mut root_node = FileNode::new(root.clone(), true);
    root_node.expanded = true;
    root_node.children = Some(vec![FileNode::new(missing.clone(), true)]);
    let mut app = app_at(root_node, &root);

    // the directory cannot be read yet
    app.ensure_visible_child_counts(1, 1, &DirSnapshot::new());
    // now it exists with one file
    let mut snap = DirSnapshot::new();
    snap.add(missing.clone(), vec![entry("file.txt", false)]);
    app.ensure_visible_child_counts(1, 1, &snap);

    let missing_node = find_node(&app.root, &missing).unwrap();
    assert!(missing_node.child_count_attempted);
    assert_eq!(missing_node.child_counts(), None);

    clear_child_count_cache(&mut app.root);
    app.ensure_visible_child_counts(1, 1, &snap);

    let missing_node = find_node(&app.root, &missing).unwrap();
    assert_eq!(missing_node.child_counts(), Some((0, 1)));
}

#[test]
fn expand_to_path_expands_nested_dirs() {
    let root = p("/tmp/root");
    let level1 = p("/tmp/root/level1");
    let level2 = p("/tmp/root/level1/level2");
    let mut snap = DirSnapshot::new();
    snap.add(root.clone(), vec![entry("level1", true)]);
    snap.add(level1.clone(), vec![entry("level2", true)]);
    snap.add(level2.clone(), vec![]);

    let mut root_node = FileNode::new(root.clone(), true);
    root_node.load_children(snap.listing_for(&root), true, true).unwrap();
    root_node.expanded = true;
    let mut app = app_at(root_node, &root);

    let reads = app.expansion_reads(&level2);
    assert_eq!(reads, vec![level1.clone(), level2.clone()]);

    app.expand_to_path(&level2, &snap);

    let level1_node = find_node(&app.root, &level1).unwrap();
    assert!(level1_node.expanded);
    assert!(level1_node.children.is_some());

    let level2_node = find_node(&app.root, &level2).unwrap();
    assert!(level2_node.expanded);
}

#[test]
fn expand_to_path_outside_root_changes_nothing() {
    let root = p("/tmp/root");
    let root_node = FileNode::new(root.clone(), true);
    let mut app = app_at(root_node, &root);
    app.expand_to_path(&p("/elsewhere/x"), &DirSnapshot::new());
    assert!(!app.root.expanded);
    assert!(app.root.children.is_none());
}

fn snapshot_for_home() -> DirSnapshot {
    let mut snap = DirSnapshot::new();
    snap.add(p("/home/u"), vec![entry("projects", true), entry(".hidden_dir", true), entry(".hidden_file", false), entry("visible_file", false)]);
    snap.add(p("/home/u/projects"), vec![entry("alpha", true)]);
    snap.add(p("/home/u/projects/alpha"), vec![]);
    snap
}

#[test]
fn app_new_selects_current_dir_when_inside_home() {
    let home = p("/home/u");
    let current = p("/home/u/projects/alpha");
    let snap = snapshot_for_home();
    let reads = App::startup_reads(&home, &current);
    assert_eq!(reads, vec![home.clone(), p("/home/u/projects"), current.clone()]);

    let app = App::new(home.clone(), current.clone(), Config::default(), History::default(), &snap).unwrap();

    assert_eq!(app.root.path, home);
    assert!(app.root.expanded);
    assert_eq!(app.selected_path, current);
    assert_eq!(app.startup_path, current);

    let level1_node = find_node(&app.root, &p("/home/u/projects")).unwrap();
    assert!(level1_node.expanded);
    let leaf_node = find_node(&app.root, &current).unwrap();
    assert!(leaf_node.expanded);
    // the selection is scrolled to the top
    assert_eq!(app.list_state.selected(), Some(2));
    assert_eq!(app.list_state.offset(), 2);
}

#[test]
fn app_new_applies_visibility_config_to_initial_root_load() {
    let home = p("/home/u");
    let snap = snapshot_for_home();
    let mut config = Config::default();
    config.show_files = true;
    config.show_hidden = true;

    let app = App::new(home.clone(), home.clone(), config, History::default(), &snap).unwrap();
    let names = child_names(&app.root);

    assert!(app.show_files);
    assert!(app.show_hidden);
    assert!(names.contains(&".hidden_dir".to_string()));
    assert!(names.contains(&".hidden_file".to_string()));
    assert!(names.contains(&"visible_file".to_string()));
}

#[test]
fn app_new_selects_home_when_current_dir_outside_home() {
    let home = p("/home/u");
    let outside = p("/srv/outside");
    let snap = snapshot_for_home();

    let app = App::new(home.clone(), outside.clone(), Config::default(), History::default(), &snap).unwrap();

    assert_eq!(app.root.path, home);
    assert_eq!(app.selected_path, home);
    assert_eq!(app.startup_path, outside);
}

#[test]
fn app_new_fails_when_home_cannot_be_read() {
    let result = App::new(p("/home/u"), p("/home/u"), Config::default(), History::default(), &DirSnapshot::new());
    assert!(result.is_err());
}

#[test]
fn toggle_show_files_reloads_the_tree() {
    let home = p("/home/u");
    let snap = snapshot_for_home();
    let mut app = App::new(home.clone(), home.clone(), Config::default(), History::default(), &snap).unwrap();
    assert_eq!(child_names(&app.root), vec!["projects"]);
    app.toggle_show_files(&snap);
    assert!(app.show_files);
    assert!(app.config.show_files);
    assert_eq!(child_names(&app.root), vec!["projects", "visible_file"]);
    app.toggle_show_hidden(&snap);
    assert!(app.config.show_hidden);
    assert_eq!(
        child_names(&app.root),
        vec![".hidden_dir", "projects", ".hidden_file", "visible_file"]
    );
}

#[test]
fn build_prefix_draws_branches() {
    assert_eq!(build_prefix(&vec![]), "");
    assert_eq!(build_prefix(&vec![false]), "├─ ");
    assert_eq!(build_prefix(&vec![true]), "└─ ");
    assert_eq!(build_prefix(&vec![false, true]), "│  └─ ");
    assert_eq!(build_prefix(&vec![true, false]), "   ├─ ");
}

#[test]
fn find_parent_path_walks_the_tree() {
    let mut root = FileNode::new(p("/r"), true);
    let mut a = FileNode::new(p("/r/a"), true);
    a.children = Some(vec![FileNode::new(p("/r/a/x"), false)]);
    root.children = Some(vec![a]);
    assert_eq!(find_parent_path(&root, &p("/r/a/x")), Some(p("/r/a")));
    assert_eq!(find_parent_path(&root, &p("/r")), None);
    assert_eq!(find_parent_path(&root, &p("/r/zzz")), None);
}

#[test]
fn display_name_of_filesystem_root_is_its_path() {
    let node = FileNode::new(p("/"), true);
    assert_eq!(node.name(), "");
    assert_eq!(node.display_name(), "/");
    let node = FileNode::new(p("/home/u"), true);
    assert_eq!(node.display_name(), "u");
}
