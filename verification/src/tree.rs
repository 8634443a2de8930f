use vstd::prelude::*;
use crate::node::{FileNode, NodeView, DirEntryInfo, EntryInfoView, node_view, views_of, lemma_views_of, loaded, counted, listing_view};
use crate::path::{TreePath, PathView, PathAndText, whole};
use crate::snapshot::{DirSnapshot, snapshot_lookup};

verus! {

/// The part of a row's prefix drawn for tree level `i`, given for each level
/// whether the branch there is the last child: `└─ `/`├─ ` at the deepest
/// level, `   `/`│  ` above it.
pub open spec fn prefix_segment(stack: Seq<bool>, i: int) -> Seq<char> {
    if i == stack.len() - 1 {
        if stack[i] { "└─ "@ } else { "├─ "@ }
    } else if stack[i] {
        "   "@
    } else {
        "│  "@
    }
}

/// The segments of levels `0..n`, in order.
pub open spec fn prefix_upto(stack: Seq<bool>, n: int) -> Seq<char>
    decreases n,
{
    if n <= 0 {
        Seq::empty()
    } else {
        prefix_upto(stack, n - 1) + prefix_segment(stack, n - 1)
    }
}

/// The branch drawing in front of a row at the position described by `stack`.
pub open spec fn tree_prefix(stack: Seq<bool>) -> Seq<char> {
    prefix_upto(stack, stack.len() as int)
}

/// A displayed row: its prefix and its node.
pub type Row = (Seq<char>, NodeView);

/// The rows of `n` and of its shown descendants, depth first: a node's
/// children are shown when it is expanded and they are loaded.
pub open spec fn node_rows(n: NodeView, stack: Seq<bool>) -> Seq<Row>
    decreases n, 0int,
{
    seq![(tree_prefix(stack), n)] + if n.expanded && n.children is Some {
        child_rows(n.children->0, stack, n.children->0.len() as int)
    } else {
        Seq::empty()
    }
}

/// The rows of the first `k` children `cs`.
pub open spec fn child_rows(cs: Seq<NodeView>, stack: Seq<bool>, k: int) -> Seq<Row>
    decreases cs, k,
{
    if k <= 0 || k > cs.len() {
        Seq::empty()
    } else {
        child_rows(cs, stack, k - 1) + node_rows(cs[k - 1], stack.push(k - 1 == cs.len() - 1))
    }
}

/// The rows shown for a tree with root `root`.
pub open spec fn visible_rows(root: NodeView) -> Seq<Row> {
    node_rows(root, Seq::empty())
}

/// Abstract value of a list of rows.
pub open spec fn rows_view(rs: Seq<(String, &FileNode)>) -> Seq<Row> {
    rs.map_values(|r: (String, &FileNode)| (r.0@, node_view(*r.1)))
}

/// The first index at or after `i` of a row whose node has path `p`.
pub open spec fn row_index_from(rows: Seq<Row>, p: PathView, i: int) -> Option<int>
    decreases rows.len() - i,
{
    if i < 0 || i >= rows.len() {
        None
    } else if rows[i].1.path == p {
        Some(i)
    } else {
        row_index_from(rows, p, i + 1)
    }
}

/// The first index of a row whose node has path `p`.
pub open spec fn row_index(rows: Seq<Row>, p: PathView) -> Option<int> {
    row_index_from(rows, p, 0)
}

/// The branch drawn last in a child's prefix: `└─ ` for the last child,
/// `├─ ` for the others.
pub open spec fn ends_with_branch(prefix: Seq<char>, last: bool) -> bool {
    let b: Seq<char> = if last { "└─ "@ } else { "├─ "@ };
    prefix.len() >= b.len() && prefix.subrange(prefix.len() - b.len(), prefix.len() as int) == b
}

/// The branch drawn for a child: `└─ ` for the last one, `├─ ` otherwise.
pub open spec fn branch(last: bool) -> Seq<char> {
    if last { "└─ "@ } else { "├─ "@ }
}

/// What continues a parent's branch in its children's prefixes: blank under
/// a last child, a vertical line otherwise.
pub open spec fn continuation(last: bool) -> Seq<char> {
    if last { "   "@ } else { "│  "@ }
}

proof fn lemma_prefix_upto_push(stack: Seq<bool>, b: bool, j: int)
    requires
        0 <= j < stack.len(),
    ensures
        prefix_upto(stack.push(b), j) == prefix_upto(stack, j),
    decreases j,
{
    if j > 0 {
        lemma_prefix_upto_push(stack, b, j - 1);
        assert(stack.push(b)[j - 1] == stack[j - 1]);
    }
}

proof fn lemma_child_row_at(cs: Seq<NodeView>, stack: Seq<bool>, i: int, m: int)
    requires
        0 <= i < m <= cs.len(),
    ensures
        child_rows(cs, stack, i).len() < child_rows(cs, stack, m).len(),
        child_rows(cs, stack, m)[child_rows(cs, stack, i).len() as int]
            == (tree_prefix(stack.push(i == cs.len() - 1)), cs[i]),
    decreases m,
{
    if m > i + 1 {
        lemma_child_row_at(cs, stack, i, m - 1);
    } else {
        assert(child_rows(cs, stack, m) == child_rows(cs, stack, i) + node_rows(cs[i], stack.push(i == cs.len() - 1)));
    }
}

/// In the rows of an expanded node with loaded children, the row of child
/// `i` comes right after the rows of the children before it, and its prefix
/// ends with `└─ ` when it is the last child and with `├─ ` otherwise.
pub proof fn lemma_child_branch(n: NodeView, stack: Seq<bool>, i: int)
    requires
        n.expanded,
        n.children is Some,
        0 <= i < n.children->0.len(),
    ensures
        ({
            let cs = n.children->0;
            let k: int = child_rows(cs, stack, i).len() + 1int;
            &&& k < node_rows(n, stack).len()
            &&& node_rows(n, stack)[k].1 == cs[i]
            &&& ends_with_branch(node_rows(n, stack)[k].0, i == cs.len() - 1)
            &&& !ends_with_branch(node_rows(n, stack)[k].0, i != cs.len() - 1)
            &&& stack.len() == 0 ==> node_rows(n, stack)[k].0 == branch(i == cs.len() - 1)
            &&& stack.len() > 0 ==> {
                let up = node_rows(n, stack)[0].0;
                &&& up.len() >= 3
                &&& node_rows(n, stack)[k].0 == up.subrange(0, up.len() - 3) + continuation(stack.last())
                    + branch(i == cs.len() - 1)
            }
        }),
{
    let cs = n.children->0;
    lemma_child_row_at(cs, stack, i, cs.len() as int);
    let st = stack.push(i == cs.len() - 1);
    let p = tree_prefix(st);
    assert(p == prefix_upto(st, st.len() - 1) + prefix_segment(st, st.len() - 1));
    let seg = prefix_segment(st, st.len() - 1);
    let q = prefix_upto(st, st.len() - 1);
    assert(p.subrange(p.len() - seg.len(), p.len() as int) =~= seg);
    reveal_strlit("└─ ");
    reveal_strlit("├─ ");
    assert(seg.len() == 3);
    let other: Seq<char> = if i != cs.len() - 1 { "└─ "@ } else { "├─ "@ };
    assert(other.len() == 3);
    assert(other[0] != seg[0]);
    reveal_strlit("   ");
    reveal_strlit("│  ");
    let len = stack.len() as int;
    if len == 0 {
        assert(prefix_upto(st, 0) =~= Seq::<char>::empty());
        assert(p =~= seg);
    } else {
        lemma_prefix_upto_push(stack, i == cs.len() - 1, len - 1);
        let base = prefix_upto(stack, len - 1);
        assert(q == prefix_upto(st, len - 1) + prefix_segment(st, len - 1));
        assert(st[len - 1] == stack.last());
        assert(prefix_segment(st, len - 1) == continuation(stack.last()));
        let up = tree_prefix(stack);
        assert(up == base + prefix_segment(stack, len - 1));
        assert(prefix_segment(stack, len - 1).len() == 3);
        assert(up.subrange(0, up.len() - 3) =~= base);
        assert(node_rows(n, stack)[0].0 == up);
        assert(seg == branch(i == cs.len() - 1));
    }
}

/// `row_index` finds the first row with the path, or tells that none has it.
pub proof fn lemma_row_index(rows: Seq<Row>, p: PathView, i: int)
    requires
        0 <= i,
    ensures
        row_index_from(rows, p, i) matches Some(k) ==> i <= k < rows.len() && rows[k].1.path == p
            && forall|j: int| i <= j < k ==> rows[j].1.path != p,
        row_index_from(rows, p, i) is None ==> forall|j: int| i <= j < rows.len() ==> rows[j].1.path != p,
    decreases rows.len() - i,
{
    if i < rows.len() && rows[i].1.path != p {
        lemma_row_index(rows, p, i + 1);
    }
}

/// The first node with path `t` in `n`'s subtree, depth first, loaded
/// children included whether shown or not.
pub open spec fn find_view(n: NodeView, t: PathView) -> Option<NodeView>
    decreases n, 0int,
{
    if n.path == t {
        Some(n)
    } else if n.children is Some {
        find_in(n.children->0, t, 0)
    } else {
        None
    }
}

/// The first node with path `t` in the subtrees of `cs[i..]`.
pub open spec fn find_in(cs: Seq<NodeView>, t: PathView, i: int) -> Option<NodeView>
    decreases cs, cs.len() - i,
{
    if i < 0 || i >= cs.len() {
        None
    } else if find_view(cs[i], t) is Some {
        find_view(cs[i], t)
    } else {
        find_in(cs, t, i + 1)
    }
}

/// The path (names and text) of the node holding the first node with path
/// `t` as a child, searching as `find_view` does; `parent` is the path above `n`.
pub open spec fn parent_walk(n: NodeView, t: PathView, parent: Option<PathAndText>) -> Option<PathAndText>
    decreases n, 0int,
{
    if n.path == t {
        parent
    } else if n.children is Some {
        parent_walk_in(n.children->0, t, (n.path, n.text), 0)
    } else {
        None
    }
}

/// `parent_walk` over the children `cs[i..]` of the node with path `up`.
pub open spec fn parent_walk_in(cs: Seq<NodeView>, t: PathView, up: PathAndText, i: int) -> Option<PathAndText>
    decreases cs, cs.len() - i,
{
    if i < 0 || i >= cs.len() {
        None
    } else if parent_walk(cs[i], t, Some(up)) is Some {
        parent_walk(cs[i], t, Some(up))
    } else {
        parent_walk_in(cs, t, up, i + 1)
    }
}

/// The drawing in front of a row at the position described by `stack`.
pub fn build_prefix(stack: &Vec<bool>) -> (s: String)
    ensures
        s@ == tree_prefix(stack@),
{
    let mut out = String::new();
    let mut i: usize = 0;
    let n = stack.len();
    while i < n
        invariant
            i <= n,
            n == stack@.len(),
            out@ == prefix_upto(stack@, i as int),
        decreases n - i,
    {
        if i == n - 1 {
            if stack[i] {
                out.append("└─ ");
            } else {
                out.append("├─ ");
            }
        } else if stack[i] {
            out.append("   ");
        } else {
            out.append("│  ");
        }
        i = i + 1;
    }
    out
}

/// Appends the rows of `node` and its shown descendants.
pub fn collect_visible_nodes<'a>(node: &'a FileNode, stack: &mut Vec<bool>, result: &mut Vec<(String, &'a FileNode)>)
    ensures
        final(stack)@ == old(stack)@,
        rows_view(final(result)@) == rows_view(old(result)@) + node_rows(node@, old(stack)@),
    decreases node,
{
    let ghost start = rows_view(result@);
    let ghost st = stack@;
    let prefix = build_prefix(stack);
    result.push((prefix, node));
    assert(rows_view(result@) =~= start + seq![(tree_prefix(st), node@)]);
    if node.expanded {
        if let Some(children) = &node.children {
            let count = children.len();
            let ghost cs = views_of(children@);
            proof {
                lemma_views_of(children@);
            }
            let mut i: usize = 0;
            while i < count
                invariant
                    i <= count,
                    count == children@.len(),
                    cs == views_of(children@),
                    cs.len() == count,
                    forall|m: int| 0 <= m < count ==> #[trigger] cs[m] == node_view(children@[m]),
                    stack@ == st,
                    node.children == Some(*children),
                    rows_view(result@) == start + seq![(tree_prefix(st), node@)] + child_rows(cs, st, i as int),
                decreases count - i,
            {
                stack.push(i == count - 1);
                assert(stack@ == st.push(i as int == cs.len() - 1));
                proof {
                    vstd::std_specs::vec::axiom_vec_index_decreases(*children, i as int);
                    assert(decreases_to!(node => node.children));
                }
                collect_visible_nodes(&children[i], stack, result);
                stack.pop();
                assert(stack@ =~= st);
                assert(cs[i as int] == node_view(children@[i as int]));
                i = i + 1;
            }
        }
    }
    assert(rows_view(result@) =~= start + node_rows(node@, st));
}

/// The first node with path `target` in the subtree of `node`.
pub fn find_node<'a>(node: &'a FileNode, target: &TreePath) -> (r: Option<&'a FileNode>)
    ensures
        match r {
            Some(f) => find_view(node@, target@) == Some(node_view(*f)),
            None => find_view(node@, target@) is None,
        },
    decreases node,
{
    if node.path.same_as(target) {
        return Some(node);
    }
    if let Some(children) = &node.children {
        let ghost cs = views_of(children@);
        proof {
            lemma_views_of(children@);
        }
        let mut i: usize = 0;
        while i < children.len()
            invariant
                i <= children@.len(),
                cs == views_of(children@),
                cs.len() == children@.len(),
                forall|m: int| 0 <= m < children@.len() ==> #[trigger] cs[m] == node_view(children@[m]),
                find_in(cs, target@, 0) == find_in(cs, target@, i as int),
                node.children == Some(*children),
                node.path@ != target@,
            decreases children@.len() - i,
        {
            proof {
                vstd::std_specs::vec::axiom_vec_index_decreases(*children, i as int);
                assert(decreases_to!(node => node.children));
            }
            let found = find_node(&children[i], target);
            assert(cs[i as int] == node_view(children@[i as int]));
            if found.is_some() {
                assert(node@.children == Some(cs));
                assert(find_in(cs, target@, i as int) == find_view(cs[i as int], target@));
                return found;
            }
            i = i + 1;
        }
        assert(node@.children == Some(cs));
    }
    None
}

/// The path of the parent of the first node with path `target`; `None` when
/// no node has that path or it is `node` itself.
pub fn find_parent_path(node: &FileNode, target: &TreePath) -> (r: Option<TreePath>)
    ensures
        match r {
            Some(p) => parent_walk(node@, target@, None) == Some(whole(p)),
            None => parent_walk(node@, target@, None) is None,
        },
{
    walk_parent(node, target, None)
}

fn walk_parent(node: &FileNode, target: &TreePath, parent: Option<&TreePath>) -> (r: Option<TreePath>)
    ensures
        match r {
            Some(p) => parent_walk(node@, target@, opt_whole(parent)) == Some(whole(p)),
            None => parent_walk(node@, target@, opt_whole(parent)) is None,
        },
    decreases node,
{
    if node.path.same_as(target) {
        return match parent {
            Some(p) => Some(p.duplicate()),
            None => None,
        };
    }
    if let Some(children) = &node.children {
        let ghost cs = views_of(children@);
        proof {
            lemma_views_of(children@);
        }
        let mut i: usize = 0;
        while i < children.len()
            invariant
                i <= children@.len(),
                cs == views_of(children@),
                cs.len() == children@.len(),
                forall|m: int| 0 <= m < children@.len() ==> #[trigger] cs[m] == node_view(children@[m]),
                parent_walk_in(cs, target@, whole(node.path), 0) == parent_walk_in(cs, target@, whole(node.path), i as int),
                node.children == Some(*children),
                node.path@ != target@,
            decreases children@.len() - i,
        {
            proof {
                vstd::std_specs::vec::axiom_vec_index_decreases(*children, i as int);
                assert(decreases_to!(node => node.children));
            }
            let found = walk_parent(&children[i], target, Some(&node.path));
            assert(cs[i as int] == node_view(children@[i as int]));
            if found.is_some() {
                assert(node@.children == Some(cs));
                assert(parent_walk_in(cs, target@, whole(node.path), i as int) == parent_walk(cs[i as int], target@, Some(whole(node.path))));
                return found;
            }
            i = i + 1;
        }
        assert(node@.children == Some(cs));
    }
    None
}

/// The names and text of an optional path.
pub open spec fn opt_whole(p: Option<&TreePath>) -> Option<PathAndText> {
    match p {
        Some(q) => Some(whole(*q)),
        None => None,
    }
}

/// The path view of an optional path.
pub open spec fn opt_path_view(p: Option<&TreePath>) -> Option<PathView> {
    match p {
        Some(q) => Some(q@),
        None => None,
    }
}


/// A change made to the node with a given path. The listings are those of
/// the node's directory, read beforehand (`None`: unreadable).
pub enum NodeAction<'a> {
    /// Expand a directory, loading its children when they are not loaded.
    Expand(Option<&'a Vec<DirEntryInfo>>),
    /// Collapse an expanded directory, expand a collapsed one.
    Toggle(Option<&'a Vec<DirEntryInfo>>),
    /// Collapse a directory.
    Collapse,
    /// Count the children of a directory without loading them.
    Count(Option<&'a Vec<DirEntryInfo>>),
}

/// Abstract value of an action: the listing as abstract entries.
pub enum ActionView {
    Expand(Option<Seq<EntryInfoView>>),
    Toggle(Option<Seq<EntryInfoView>>),
    Collapse,
    Count(Option<Seq<EntryInfoView>>),
}

impl<'a> View for NodeAction<'a> {
    type V = ActionView;

    open spec fn view(&self) -> ActionView {
        match *self {
            NodeAction::Expand(l) => ActionView::Expand(listing_view(l)),
            NodeAction::Toggle(l) => ActionView::Toggle(listing_view(l)),
            NodeAction::Collapse => ActionView::Collapse,
            NodeAction::Count(l) => ActionView::Count(listing_view(l)),
        }
    }
}

/// A directory after being expanded: marked expanded, and its children
/// loaded if they were not; if that load fails it stays collapsed.
pub open spec fn expanded_view(n: NodeView, listing: Option<Seq<EntryInfoView>>, show_files: bool, show_hidden: bool) -> NodeView {
    if !n.is_dir {
        n
    } else {
        let n1 = NodeView { expanded: true, ..n };
        if n1.children is None {
            let (n2, ok) = loaded(n1, listing, show_files, show_hidden);
            if ok { n2 } else { NodeView { expanded: false, ..n2 } }
        } else {
            n1
        }
    }
}

/// The node after the action.
pub open spec fn acted(n: NodeView, a: ActionView, show_files: bool, show_hidden: bool) -> NodeView {
    match a {
        ActionView::Expand(l) => expanded_view(n, l, show_files, show_hidden),
        ActionView::Toggle(l) => if !n.is_dir {
            n
        } else if n.expanded {
            NodeView { expanded: false, ..n }
        } else {
            expanded_view(n, l, show_files, show_hidden)
        },
        ActionView::Collapse => if n.is_dir { NodeView { expanded: false, ..n } } else { n },
        ActionView::Count(l) => counted(n, l, show_files, show_hidden),
    }
}

/// Expanding a directory whose children are loaded shows them again,
/// whatever listing is at hand: it is only marked expanded, so collapsing
/// it and expanding it again gives it back expanded with the same children.
pub proof fn lemma_expand_loaded_dir(n: NodeView, l: Option<Seq<EntryInfoView>>, show_files: bool, show_hidden: bool)
    requires
        n.is_dir,
        n.children is Some,
    ensures
        acted(n, ActionView::Expand(l), show_files, show_hidden) == (NodeView { expanded: true, ..n }),
        acted(acted(n, ActionView::Collapse, show_files, show_hidden), ActionView::Expand(l), show_files, show_hidden)
            == (NodeView { expanded: true, ..n }),
        !n.expanded ==> acted(n, ActionView::Toggle(l), show_files, show_hidden) == (NodeView { expanded: true, ..n }),
{
}

/// Expanding a directory that can be read leaves it expanded with its
/// children loaded.
pub proof fn lemma_expand_readable_dir(n: NodeView, es: Seq<EntryInfoView>, show_files: bool, show_hidden: bool)
    requires
        n.is_dir,
    ensures
        acted(n, ActionView::Expand(Some(es)), show_files, show_hidden).expanded,
        acted(n, ActionView::Expand(Some(es)), show_files, show_hidden).children is Some,
{
}

/// The tree after the action is applied to the first node with path `t`
/// (as `find_view` finds it); unchanged when there is none.
pub open spec fn modified(n: NodeView, t: PathView, a: ActionView, show_files: bool, show_hidden: bool) -> NodeView
    decreases n, 0int,
{
    if n.path == t {
        acted(n, a, show_files, show_hidden)
    } else if n.children is Some {
        NodeView { children: Some(modified_in(n.children->0, t, a, show_files, show_hidden, 0)), ..n }
    } else {
        n
    }
}

/// `modified` over the subtrees `cs[i..]`: only the first one holding `t` changes.
pub open spec fn modified_in(cs: Seq<NodeView>, t: PathView, a: ActionView, show_files: bool, show_hidden: bool, i: int) -> Seq<NodeView>
    decreases cs, cs.len() - i,
{
    if i < 0 || i >= cs.len() {
        cs
    } else if find_view(cs[i], t) is Some {
        cs.update(i, modified(cs[i], t, a, show_files, show_hidden))
    } else {
        modified_in(cs, t, a, show_files, show_hidden, i + 1)
    }
}

proof fn lemma_modified_absent(n: NodeView, t: PathView, a: ActionView, show_files: bool, show_hidden: bool)
    requires
        find_view(n, t) is None,
    ensures
        modified(n, t, a, show_files, show_hidden) == n,
    decreases n, 0int,
{
    if n.path != t && n.children is Some {
        lemma_modified_in_absent(n.children->0, t, a, show_files, show_hidden, 0);
    }
}

proof fn lemma_modified_in_absent(cs: Seq<NodeView>, t: PathView, a: ActionView, show_files: bool, show_hidden: bool, i: int)
    requires
        find_in(cs, t, i) is None,
    ensures
        modified_in(cs, t, a, show_files, show_hidden, i) == cs,
    decreases cs, cs.len() - i,
{
    if 0 <= i < cs.len() {
        lemma_modified_in_absent(cs, t, a, show_files, show_hidden, i + 1);
    }
}

proof fn lemma_modified_in_prefix(cs: Seq<NodeView>, t: PathView, a: ActionView, show_files: bool, show_hidden: bool, i: int)
    requires
        0 <= i,
    ensures
        modified_in(cs, t, a, show_files, show_hidden, i).len() == cs.len(),
        forall|k: int| 0 <= k < i && k < cs.len() ==> #[trigger] modified_in(cs, t, a, show_files, show_hidden, i)[k] == cs[k],
    decreases cs.len() - i,
{
    if i < cs.len() && find_view(cs[i], t) is None {
        lemma_modified_in_prefix(cs, t, a, show_files, show_hidden, i + 1);
    }
}

/// The directory that a toggle acts on: found, a directory, children loaded.
pub open spec fn toggles_back(n: NodeView, t: PathView) -> bool {
    find_view(n, t) matches Some(m) && m.is_dir && m.children is Some
}

/// Toggling a directory whose children are loaded, then toggling it again,
/// gives back the tree one started with, whatever listings were at hand
/// (nothing is read for a directory that is already loaded).
pub proof fn lemma_toggle_twice(
    n: NodeView,
    t: PathView,
    first: Option<Seq<EntryInfoView>>,
    second: Option<Seq<EntryInfoView>>,
    show_files: bool,
    show_hidden: bool,
)
    requires
        toggles_back(n, t),
    ensures
        modified(modified(n, t, ActionView::Toggle(first), show_files, show_hidden), t, ActionView::Toggle(second),
            show_files, show_hidden) == n,
    decreases n, 0int,
{
    if n.path == t {
        assert(find_view(n, t) == Some(n));
    } else {
        let cs = n.children->0;
        assert(find_in(cs, t, 0) == find_view(n, t));
        lemma_toggle_twice_in(cs, t, first, second, show_files, show_hidden, 0);
        let n1 = modified(n, t, ActionView::Toggle(first), show_files, show_hidden);
        assert(n1 == NodeView { children: Some(modified_in(cs, t, ActionView::Toggle(first), show_files, show_hidden, 0)), ..n });
    }
}

proof fn lemma_found_after_toggle(n: NodeView, t: PathView, l: Option<Seq<EntryInfoView>>, show_files: bool, show_hidden: bool)
    requires
        toggles_back(n, t),
    ensures
        toggles_back(modified(n, t, ActionView::Toggle(l), show_files, show_hidden), t),
    decreases n, 0int,
{
    if n.path != t {
        let cs = n.children->0;
        assert(find_in(cs, t, 0) == find_view(n, t));
        lemma_found_after_toggle_in(cs, t, l, show_files, show_hidden, 0);
    }
}

proof fn lemma_found_after_toggle_in(cs: Seq<NodeView>, t: PathView, l: Option<Seq<EntryInfoView>>, show_files: bool, show_hidden: bool, i: int)
    requires
        0 <= i,
        find_in(cs, t, i) matches Some(m) && m.is_dir && m.children is Some,
    ensures
        find_in(modified_in(cs, t, ActionView::Toggle(l), show_files, show_hidden, i), t, i) matches Some(m)
            && m.is_dir && m.children is Some,
    decreases cs, cs.len() - i,
{
    let a = ActionView::Toggle(l);
    if find_view(cs[i], t) is Some {
        lemma_found_after_toggle(cs[i], t, l, show_files, show_hidden);
        let cs1 = modified_in(cs, t, a, show_files, show_hidden, i);
        assert(cs1[i] == modified(cs[i], t, a, show_files, show_hidden));
    } else {
        lemma_found_after_toggle_in(cs, t, l, show_files, show_hidden, i + 1);
        lemma_modified_in_prefix(cs, t, a, show_files, show_hidden, i + 1);
        let cs1 = modified_in(cs, t, a, show_files, show_hidden, i);
        assert(cs1[i] == cs[i]);
    }
}

proof fn lemma_toggle_twice_in(
    cs: Seq<NodeView>,
    t: PathView,
    first: Option<Seq<EntryInfoView>>,
    second: Option<Seq<EntryInfoView>>,
    show_files: bool,
    show_hidden: bool,
    i: int,
)
    requires
        0 <= i,
        find_in(cs, t, i) matches Some(m) && m.is_dir && m.children is Some,
    ensures
        modified_in(modified_in(cs, t, ActionView::Toggle(first), show_files, show_hidden, i), t,
            ActionView::Toggle(second), show_files, show_hidden, i) == cs,
    decreases cs, cs.len() - i,
{
    let a1 = ActionView::Toggle(first);
    let a2 = ActionView::Toggle(second);
    let cs1 = modified_in(cs, t, a1, show_files, show_hidden, i);
    if find_view(cs[i], t) is Some {
        lemma_toggle_twice(cs[i], t, first, second, show_files, show_hidden);
        lemma_found_after_toggle(cs[i], t, first, show_files, show_hidden);
        assert(cs1 == cs.update(i, modified(cs[i], t, a1, show_files, show_hidden)));
        assert(find_view(cs1[i], t) is Some);
        assert(modified_in(cs1, t, a2, show_files, show_hidden, i) == cs1.update(i, modified(cs1[i], t, a2, show_files, show_hidden)));
        assert(cs1.update(i, cs[i]) =~= cs);
    } else {
        lemma_toggle_twice_in(cs, t, first, second, show_files, show_hidden, i + 1);
        lemma_modified_in_prefix(cs, t, a1, show_files, show_hidden, i + 1);
        assert(cs1 == modified_in(cs, t, a1, show_files, show_hidden, i + 1));
        assert(cs1[i] == cs[i]);
    }
}

proof fn lemma_views_update(cs: Seq<FileNode>, i: int, n: FileNode)
    requires
        0 <= i < cs.len(),
    ensures
        views_of(cs.update(i, n)) == views_of(cs).update(i, node_view(n)),
{
    lemma_views_of(cs);
    lemma_views_of(cs.update(i, n));
    assert(views_of(cs.update(i, n)) =~= views_of(cs).update(i, node_view(n)));
}

/// Expands a directory node, loading its children from `listing` when they
/// are not loaded; a failed load leaves it collapsed.
pub fn expand_dir(node: &mut FileNode, listing: Option<&Vec<DirEntryInfo>>, show_files: bool, show_hidden: bool)
    ensures
        final(node)@ == expanded_view(old(node)@, listing_view(listing), show_files, show_hidden),
{
    if node.is_dir {
        if !node.expanded {
            node.expanded = true;
        }
        if node.children.is_none() {
            if node.load_children(listing, show_files, show_hidden).is_err() {
                node.expanded = false;
            }
        }
    }
}

fn apply_action(node: &mut FileNode, action: &NodeAction, show_files: bool, show_hidden: bool)
    ensures
        final(node)@ == acted(old(node)@, action@, show_files, show_hidden),
{
    match action {
        NodeAction::Expand(l) => expand_dir(node, *l, show_files, show_hidden),
        NodeAction::Toggle(l) => {
            if !node.is_dir {
                return;
            }
            if node.expanded {
                node.expanded = false;
            } else {
                expand_dir(node, *l, show_files, show_hidden);
            }
        },
        NodeAction::Collapse => {
            if node.is_dir {
                node.expanded = false;
            }
        },
        NodeAction::Count(l) => node.load_child_counts(*l, show_files, show_hidden),
    }
}

/// Applies `action` to the first node with path `target`; tells whether
/// there was one.
pub fn find_and_modify(node: &mut FileNode, target: &TreePath, action: &NodeAction, show_files: bool, show_hidden: bool) -> (found: bool)
    ensures
        final(node)@ == modified(old(node)@, target@, action@, show_files, show_hidden),
        found == (find_view(old(node)@, target@) is Some),
    decreases *old(node),
{
    if node.path.same_as(target) {
        apply_action(node, action, show_files, show_hidden);
        return true;
    }
    let ghost n0 = node@;
    let mut children = match node.children.take() {
        Some(c) => c,
        None => {
            return false;
        },
    };
    let ghost orig = children@;
    let ghost cs0 = views_of(orig);
    assert(n0.children == Some(cs0));
    let mut i: usize = 0;
    while i < children.len()
        invariant
            i <= children@.len(),
            children@.len() == orig.len(),
            forall|j: int| i <= j < orig.len() ==> children@[j] == orig[j],
            old(node).children is Some,
            old(node).children->0@ == orig,
            views_of(children@) == cs0,
            cs0 == views_of(orig),
            n0.path == node.path@,
            n0.path != target@,
            n0.children == Some(cs0),
            *node == (FileNode { children: None, ..*old(node) }),
            n0 == old(node)@,
            find_in(cs0, target@, 0) == find_in(cs0, target@, i as int),
            modified_in(cs0, target@, action@, show_files, show_hidden, 0) == modified_in(cs0, target@, action@, show_files, show_hidden, i as int),
        decreases orig.len() - i,
    {
        proof {
            lemma_views_of(children@);
            lemma_views_of(orig);
            vstd::std_specs::vec::axiom_vec_index_decreases(old(node).children->0, i as int);
            assert(decreases_to!(*old(node) => old(node).children));
        }
        let ghost before = children@;
        let found = find_and_modify(&mut children[i], target, action, show_files, show_hidden);
        proof {
            lemma_views_update(before, i as int, children@[i as int]);
            assert(children@ == before.update(i as int, children@[i as int]));
            assert(cs0[i as int] == node_view(before[i as int]));
        }
        if found {
            node.children = Some(children);
            return true;
        }
        proof {
            lemma_modified_absent(cs0[i as int], target@, action@, show_files, show_hidden);
            assert(views_of(children@) =~= cs0);
        }
        i = i + 1;
    }
    proof {
        lemma_views_of(orig);
        assert(find_in(cs0, target@, i as int) is None);
        lemma_modified_in_absent(cs0, target@, action@, show_files, show_hidden, i as int);
    }
    node.children = Some(children);
    assert(node@ =~= n0);
    false
}


/// The tree with every count cache cleared: no cached count, count not tried.
pub open spec fn cleared(n: NodeView) -> NodeView
    decreases n, 0int,
{
    NodeView {
        cached_counts: None,
        child_count_attempted: false,
        children: if n.children is Some { Some(cleared_all(n.children->0, n.children->0.len() as int)) } else { None },
        ..n
    }
}

/// `cleared` applied to the first `k` nodes of `cs`.
pub open spec fn cleared_all(cs: Seq<NodeView>, k: int) -> Seq<NodeView>
    decreases cs, k,
{
    if k <= 0 || k > cs.len() {
        Seq::empty()
    } else {
        cleared_all(cs, k - 1).push(cleared(cs[k - 1]))
    }
}

proof fn lemma_cleared_all(cs: Seq<NodeView>, k: int)
    requires
        0 <= k <= cs.len(),
    ensures
        cleared_all(cs, k).len() == k,
        forall|i: int| 0 <= i < k ==> #[trigger] cleared_all(cs, k)[i] == cleared(cs[i]),
    decreases k,
{
    if k > 0 {
        lemma_cleared_all(cs, k - 1);
    }
}

/// A directory node after its listing is read again: a directory that is
/// expanded or has loaded children gets fresh children from `listing`; if it
/// cannot be read, it is collapsed and its children dropped. Others are unchanged.
pub open spec fn reloaded(n: NodeView, listing: Option<Seq<EntryInfoView>>, show_files: bool, show_hidden: bool) -> NodeView {
    if n.is_dir && (n.expanded || n.children is Some) {
        let (n2, ok) = loaded(n, listing, show_files, show_hidden);
        if ok { n2 } else { NodeView { expanded: false, children: None, ..n } }
    } else {
        n
    }
}

/// Clears the count cache of every node of the tree.
pub fn clear_child_count_cache(node: &mut FileNode)
    ensures
        final(node)@ == cleared(old(node)@),
    decreases *old(node),
{
    node.cached_counts = None;
    node.child_count_attempted = false;
    let ghost n0 = old(node)@;
    let mut children = match node.children.take() {
        Some(c) => c,
        None => {
            return;
        },
    };
    let ghost orig = children@;
    let ghost cs0 = views_of(orig);
    proof {
        lemma_views_of(orig);
        lemma_cleared_all(cs0, cs0.len() as int);
    }
    let mut i: usize = 0;
    while i < children.len()
        invariant
            i <= children@.len(),
            children@.len() == orig.len(),
            cs0 == views_of(orig),
            cs0.len() == orig.len(),
            forall|m: int| 0 <= m < orig.len() ==> #[trigger] cs0[m] == node_view(orig[m]),
            forall|j: int| i <= j < orig.len() ==> children@[j] == orig[j],
            forall|j: int| 0 <= j < i ==> node_view(#[trigger] children@[j]) == cleared(cs0[j]),
            old(node).children is Some,
            old(node).children->0@ == orig,
        decreases orig.len() - i,
    {
        proof {
            vstd::std_specs::vec::axiom_vec_index_decreases(old(node).children->0, i as int);
            assert(decreases_to!(*old(node) => old(node).children));
        }
        let ghost before = children@;
        clear_child_count_cache(&mut children[i]);
        assert forall|j: int| 0 <= j < i + 1 implies node_view(#[trigger] children@[j]) == cleared(cs0[j]) by {
            if j < i {
                assert(children@[j] == before[j]);
            }
        }
        i = i + 1;
    }
    proof {
        lemma_views_of(children@);
        lemma_cleared_all(cs0, cs0.len() as int);
        assert(views_of(children@) =~= cleared_all(cs0, cs0.len() as int));
    }
    node.children = Some(children);
    assert(node@ =~= cleared(n0));
}

/// Reads the directory of `node` again from the snapshot when it is expanded
/// or has loaded children (its new children are fresh, so nothing below them
/// is read).
pub fn traverse_and_reload(node: &mut FileNode, snapshot: &DirSnapshot, show_files: bool, show_hidden: bool)
    ensures
        final(node)@ == reloaded(old(node)@, snapshot_lookup(snapshot@, old(node)@.path), show_files, show_hidden),
    decreases if old(node).is_dir && (old(node).expanded || old(node).children is Some) { 1int } else { 0int },
{
    if node.is_dir && (node.expanded || node.children.is_some()) {
        let listing = snapshot.listing_for(&node.path);
        if node.load_children(listing, show_files, show_hidden).is_err() {
            node.expanded = false;
            node.children = None;
            return;
        }
        let ghost n1 = node@;
        let mut children = match node.children.take() {
            Some(c) => c,
            None => {
                return;
            },
        };
        let ghost cs1 = views_of(children@);
        proof {
            lemma_views_of(children@);
        }
        let mut i: usize = 0;
        while i < children.len()
            invariant
                i <= children@.len(),
                views_of(children@) == cs1,
                cs1.len() == children@.len(),
                forall|m: int| 0 <= m < cs1.len() ==> !(#[trigger] cs1[m]).expanded && cs1[m].children is None,
                old(node).is_dir && (old(node).expanded || old(node).children is Some),
            decreases children@.len() - i,
        {
            proof {
                lemma_views_of(children@);
                assert(cs1[i as int] == node_view(children@[i as int]));
            }
            let ghost before = children@;
            traverse_and_reload(&mut children[i], snapshot, show_files, show_hidden);
            proof {
                lemma_views_update(before, i as int, children@[i as int]);
                assert(children@ == before.update(i as int, children@[i as int]));
                assert(views_of(children@) =~= cs1);
            }
            i = i + 1;
        }
        node.children = Some(children);
        assert(node@ =~= n1);
    }
}
} // verus!
