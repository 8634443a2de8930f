use vstd::prelude::*;
use vstd::relations::{sorted_by, total_ordering};
use crate::order::{entry_leq, text_lt, lemma_entry_leq_total_ordering};
use crate::path::{TreePath, PathView, PathAndText, joined, whole, path_file_name};

verus! {

/// One entry of a directory as the filesystem reported it: its name, and
/// whether it is a directory (a symbolic link counts as what it points to).
#[derive(Debug, Clone)]
pub struct DirEntryInfo {
    pub name: String,
    pub is_dir: bool,
}

/// Abstract value of an entry: its name and whether it is a directory.
pub type EntryInfoView = (Seq<char>, bool);

impl View for DirEntryInfo {
    type V = EntryInfoView;

    open spec fn view(&self) -> EntryInfoView {
        (self.name@, self.is_dir)
    }
}

/// A directory that could not be read.
#[derive(Debug, Clone, Copy, PartialEq, Eq, Structural)]
pub struct LoadError;

/// A name is hidden when it starts with a dot.
pub open spec fn is_hidden_name(n: Seq<char>) -> bool {
    n.len() > 0 && n[0] == '.'
}

/// Whether an entry is listed: hidden names only with `show_hidden`, files
/// only with `show_files`.
pub open spec fn entry_shown(e: EntryInfoView, show_files: bool, show_hidden: bool) -> bool {
    (show_hidden || !is_hidden_name(e.0)) && (show_files || e.1)
}

/// The listed entries of `es`, in their order.
pub open spec fn shown_entries(es: Seq<EntryInfoView>, show_files: bool, show_hidden: bool) -> Seq<EntryInfoView>
    decreases es.len(),
{
    if es.len() == 0 {
        Seq::empty()
    } else if entry_shown(es.last(), show_files, show_hidden) {
        shown_entries(es.drop_last(), show_files, show_hidden).push(es.last())
    } else {
        shown_entries(es.drop_last(), show_files, show_hidden)
    }
}

/// The order in which entries are shown: directories first, then by name.
pub open spec fn entry_order() -> spec_fn(EntryInfoView, EntryInfoView) -> bool {
    |a: EntryInfoView, b: EntryInfoView| entry_leq(a, b)
}

/// The children that a listing `es` gives: the listed entries, sorted.
pub open spec fn listed_children(es: Seq<EntryInfoView>, show_files: bool, show_hidden: bool) -> Seq<EntryInfoView> {
    shown_entries(es, show_files, show_hidden).sort_by(entry_order())
}

/// How many of the entries are directories.
pub open spec fn count_dir_entries(es: Seq<EntryInfoView>) -> nat
    decreases es.len(),
{
    if es.len() == 0 {
        0
    } else {
        count_dir_entries(es.drop_last()) + if es.last().1 { 1nat } else { 0nat }
    }
}

/// `(directories, files)` among the entries.
pub open spec fn entry_counts(es: Seq<EntryInfoView>) -> (usize, usize) {
    (count_dir_entries(es) as usize, (es.len() - count_dir_entries(es)) as usize)
}

/// A node of the directory tree.
#[derive(Debug)]
pub struct FileNode {
    pub path: TreePath,
    pub is_dir: bool,
    /// The listed children, once the directory has been read.
    pub children: Option<Vec<FileNode>>,
    pub expanded: bool,
    /// `(directories, files)` among the children, counted without reading them in.
    pub cached_counts: Option<(usize, usize)>,
    /// Whether counting the children was tried (successful or not).
    pub child_count_attempted: bool,
}

/// `n` is a node just made for the path `p` (names and text): nothing
/// loaded, not expanded.
pub open spec fn fresh_node(n: FileNode, p: PathAndText, is_dir: bool) -> bool {
    &&& n.path@ == p.0
    &&& n.path.text@ == p.1
    &&& n.is_dir == is_dir
    &&& n.children is None
    &&& !n.expanded
    &&& n.cached_counts is None
    &&& !n.child_count_attempted
}

/// Abstract value of a node: the same fields, with paths and children as
/// mathematical values.
pub struct NodeView {
    pub path: PathView,
    /// The text of the path, as written.
    pub text: Seq<char>,
    pub is_dir: bool,
    pub children: Option<Seq<NodeView>>,
    pub expanded: bool,
    pub cached_counts: Option<(usize, usize)>,
    pub child_count_attempted: bool,
}

/// The abstract value of a node.
pub open spec fn node_view(n: FileNode) -> NodeView
    decreases n, 0int,
{
    NodeView {
        path: n.path@,
        text: n.path.text@,
        is_dir: n.is_dir,
        children: match n.children {
            Some(cs) => Some(views_of(cs@)),
            None => None,
        },
        expanded: n.expanded,
        cached_counts: n.cached_counts,
        child_count_attempted: n.child_count_attempted,
    }
}

/// The abstract values of a sequence of nodes.
pub open spec fn views_of(cs: Seq<FileNode>) -> Seq<NodeView>
    decreases cs, cs.len(),
{
    if cs.len() == 0 {
        Seq::empty()
    } else {
        views_of(cs.drop_last()).push(node_view(cs.last()))
    }
}

impl View for FileNode {
    type V = NodeView;

    open spec fn view(&self) -> NodeView {
        node_view(*self)
    }
}

/// `views_of` is taken element by element.
pub proof fn lemma_views_of(cs: Seq<FileNode>)
    ensures
        views_of(cs).len() == cs.len(),
        forall|i: int| 0 <= i < cs.len() ==> #[trigger] views_of(cs)[i] == node_view(cs[i]),
    decreases cs.len(),
{
    if cs.len() > 0 {
        lemma_views_of(cs.drop_last());
        assert forall|i: int| 0 <= i < cs.len() implies #[trigger] views_of(cs)[i] == node_view(cs[i]) by {
            if i < cs.len() - 1 {
                assert(cs.drop_last()[i] == cs[i]);
            }
        }
    }
}

/// The abstract value of a node just made for path `p`.
pub open spec fn fresh_view(p: PathAndText, is_dir: bool) -> NodeView {
    NodeView {
        path: p.0,
        text: p.1,
        is_dir,
        children: None,
        expanded: false,
        cached_counts: None,
        child_count_attempted: false,
    }
}

/// The children views that a sorted listing `es` gives in directory `dir`.
pub open spec fn children_views(dir: PathAndText, es: Seq<EntryInfoView>) -> Seq<NodeView> {
    Seq::new(es.len(), |i: int| fresh_view(joined(dir, es[i].0), es[i].1))
}

/// The listing of a directory, as abstract entries (`None`: unreadable).
pub open spec fn listing_view(listing: Option<&Vec<DirEntryInfo>>) -> Option<Seq<EntryInfoView>> {
    match listing {
        Some(es) => Some(es@.map_values(|e: DirEntryInfo| e@)),
        None => None,
    }
}

/// The node after loading its children from `listing`, and whether that
/// succeeded: a file is unchanged (success); an unreadable directory is
/// unchanged (failure); otherwise the listed entries, sorted, become fresh
/// children and their counts are cached.
pub open spec fn loaded(n: NodeView, listing: Option<Seq<EntryInfoView>>, show_files: bool, show_hidden: bool) -> (NodeView, bool) {
    if !n.is_dir {
        (n, true)
    } else {
        match listing {
            None => (n, false),
            Some(es) => {
                let sorted = listed_children(es, show_files, show_hidden);
                (NodeView {
                    children: Some(children_views((n.path, n.text), sorted)),
                    cached_counts: Some(entry_counts(sorted)),
                    child_count_attempted: true,
                    ..n
                }, true)
            },
        }
    }
}

/// The node after counting its children from `listing`: only a directory
/// without loaded children whose count was not tried is affected; it is
/// marked as tried, and a readable listing sets the cached count.
pub open spec fn counted(n: NodeView, listing: Option<Seq<EntryInfoView>>, show_files: bool, show_hidden: bool) -> NodeView {
    if !n.is_dir || n.children is Some || n.child_count_attempted {
        n
    } else {
        NodeView {
            child_count_attempted: true,
            cached_counts: match listing {
                Some(es) => Some(entry_counts(shown_entries(es, show_files, show_hidden))),
                None => n.cached_counts,
            },
            ..n
        }
    }
}

/// How many of the node views are directories.
pub open spec fn count_dir_views(cs: Seq<NodeView>) -> nat
    decreases cs.len(),
{
    if cs.len() == 0 {
        0
    } else {
        count_dir_views(cs.drop_last()) + if cs.last().is_dir { 1nat } else { 0nat }
    }
}

/// The `(directories, files)` count shown for a node: from its children when
/// they are loaded, else the cached count.
pub open spec fn child_counts_of(n: NodeView) -> Option<(usize, usize)> {
    match n.children {
        Some(cs) => Some((count_dir_views(cs) as usize, (cs.len() - count_dir_views(cs)) as usize)),
        None => n.cached_counts,
    }
}

/// The children `cs` are fresh nodes for the entries `es` of directory `dir`, in order.
pub open spec fn children_for(cs: Seq<FileNode>, dir: PathAndText, es: Seq<EntryInfoView>) -> bool {
    &&& cs.len() == es.len()
    &&& forall|i: int| 0 <= i < cs.len() ==> fresh_node(#[trigger] cs[i], joined(dir, es[i].0), es[i].1)
}

/// The name of a node: the last name of its path, or nothing.
pub open spec fn view_name(n: NodeView) -> Seq<char> {
    match path_file_name(n.path) {
        Some(s) => s,
        None => Seq::empty(),
    }
}

/// The children of a directory are exactly its listed entries, directories
/// first, each group in name order.
pub proof fn lemma_listed_children_order(es: Seq<EntryInfoView>, show_files: bool, show_hidden: bool)
    ensures
        listed_children(es, show_files, show_hidden).to_multiset() == shown_entries(es, show_files, show_hidden).to_multiset(),
        forall|i: int, j: int|
            0 <= i < j < listed_children(es, show_files, show_hidden).len() ==> entry_leq(
                #[trigger] listed_children(es, show_files, show_hidden)[i],
                #[trigger] listed_children(es, show_files, show_hidden)[j],
            ),
{
    lemma_entry_leq_total_ordering();
    let shown = shown_entries(es, show_files, show_hidden);
    assert(entry_order() == |a: EntryInfoView, b: EntryInfoView| entry_leq(a, b));
    shown.lemma_sort_by_ensures(entry_order());
    let l = listed_children(es, show_files, show_hidden);
    assert forall|i: int, j: int| 0 <= i < j < l.len() implies entry_leq(#[trigger] l[i], #[trigger] l[j]) by {
        assert(sorted_by(l, entry_order()));
        assert(entry_order()(l[i], l[j]));
    }
}

proof fn lemma_shown_entries_members(es: Seq<EntryInfoView>, show_files: bool, show_hidden: bool, e: EntryInfoView)
    ensures
        shown_entries(es, show_files, show_hidden).contains(e) <==> es.contains(e) && (show_hidden || e.0.len() == 0
            || e.0[0] != '.') && (show_files || e.1),
    decreases es.len(),
{
    if es.len() > 0 {
        let front = es.drop_last();
        lemma_shown_entries_members(front, show_files, show_hidden, e);
        let sf = shown_entries(front, show_files, show_hidden);
        assert(es == front.push(es.last()));
        if es.contains(e) && !front.contains(e) {
            let k = choose|k: int| 0 <= k < es.len() && es[k] == e;
            if k < es.len() - 1 {
                assert(front[k] == e);
            }
            assert(e == es.last());
        }
        if front.contains(e) {
            let k = choose|k: int| 0 <= k < front.len() && front[k] == e;
            assert(es[k] == e);
        }
        if entry_shown(es.last(), show_files, show_hidden) {
            let s = sf.push(es.last());
            if sf.contains(e) {
                let k = choose|k: int| 0 <= k < sf.len() && sf[k] == e;
                assert(s[k] == e);
            }
            if s.contains(e) && e != es.last() {
                let k = choose|k: int| 0 <= k < s.len() && s[k] == e;
                assert(k < sf.len());
                assert(sf[k] == e);
            }
            assert(s[sf.len() as int] == es.last());
        } else {
            if es.last() == e {
                assert(es[es.len() - 1] == e);
            }
        }
    } else {
        assert(!es.contains(e));
    }
}

/// With hidden entries left out, exactly the names starting with `.` are
/// hidden: an entry of the listing is among the children if and only if its
/// name does not start with `.` and it is a directory or files are shown.
pub proof fn lemma_hidden_means_leading_dot(es: Seq<EntryInfoView>, show_files: bool, e: EntryInfoView)
    requires
        es.contains(e),
    ensures
        listed_children(es, show_files, false).contains(e) <==> (e.0.len() == 0 || e.0[0] != '.') && (show_files
            || e.1),
        listed_children(es, show_files, true).contains(e) <==> (show_files || e.1),
{
    lemma_listed_children_order(es, show_files, false);
    lemma_listed_children_order(es, show_files, true);
    lemma_shown_entries_members(es, show_files, false, e);
    lemma_shown_entries_members(es, show_files, true, e);
    let a = listed_children(es, show_files, false);
    let b = shown_entries(es, show_files, false);
    let c = listed_children(es, show_files, true);
    let d = shown_entries(es, show_files, true);
    a.to_multiset_ensures();
    b.to_multiset_ensures();
    c.to_multiset_ensures();
    d.to_multiset_ensures();
    assert(a.contains(e) <==> a.to_multiset().count(e) > 0);
    assert(b.contains(e) <==> b.to_multiset().count(e) > 0);
    assert(c.contains(e) <==> c.to_multiset().count(e) > 0);
    assert(d.contains(e) <==> d.to_multiset().count(e) > 0);
}

/// The children come directories first; among directories, and among
/// files, a name whose first character is smaller comes earlier, and a name
/// that is a proper beginning of another comes before it.
pub proof fn lemma_children_directories_first(es: Seq<EntryInfoView>, show_files: bool, show_hidden: bool, i: int, j: int)
    requires
        0 <= i < j < listed_children(es, show_files, show_hidden).len(),
    ensures
        ({
            let a = listed_children(es, show_files, show_hidden)[i];
            let b = listed_children(es, show_files, show_hidden)[j];
            &&& b.1 ==> a.1
            &&& (a.1 == b.1 && a.0.len() > 0 && b.0.len() > 0 && a.0[0] != b.0[0]) ==> (a.0[0] as int) < (b.0[0] as int)
            &&& (a.1 == b.1 && b.0.len() < a.0.len()) ==> a.0.subrange(0, b.0.len() as int) != b.0
        }),
{
    lemma_listed_children_order(es, show_files, show_hidden);
    let l = listed_children(es, show_files, show_hidden);
    let a = l[i];
    let b = l[j];
    assert(entry_leq(a, b));
    if a.1 == b.1 && b.0.len() < a.0.len() && a.0.subrange(0, b.0.len() as int) == b.0 {
        crate::order::lemma_proper_prefix_lt(b.0, a.0);
    }
}

proof fn lemma_count_dir_entries_bound(es: Seq<EntryInfoView>)
    ensures
        count_dir_entries(es) <= es.len(),
    decreases es.len(),
{
    if es.len() > 0 {
        lemma_count_dir_entries_bound(es.drop_last());
    }
}

proof fn lemma_count_dir_views_bound(cs: Seq<NodeView>)
    ensures
        count_dir_views(cs) <= cs.len(),
    decreases cs.len(),
{
    if cs.len() > 0 {
        lemma_count_dir_views_bound(cs.drop_last());
    }
}

fn copy_entry(e: &DirEntryInfo) -> (c: DirEntryInfo)
    ensures
        c@ == e@,
{
    DirEntryInfo { name: e.name.clone(), is_dir: e.is_dir }
}

fn entry_le(a: &DirEntryInfo, b: &DirEntryInfo) -> (r: bool)
    ensures
        r == entry_leq(a@, b@),
{
    if a.is_dir != b.is_dir {
        a.is_dir
    } else {
        !text_lt(b.name.as_str(), a.name.as_str())
    }
}

fn is_hidden(name: &str) -> (r: bool)
    ensures
        r == is_hidden_name(name@),
{
    let n = name.unicode_len();
    n > 0 && name.get_char(0) == '.'
}

/// The entries of a listing that are shown, sorted as they are displayed.
pub fn sorted_listing(entries: &Vec<DirEntryInfo>, show_files: bool, show_hidden: bool) -> (out: Vec<DirEntryInfo>)
    ensures
        out@.map_values(|e: DirEntryInfo| e@) == listed_children(entries@.map_values(|e: DirEntryInfo| e@), show_files, show_hidden),
{
    let ghost es = entries@.map_values(|e: DirEntryInfo| e@);
    // Keep the shown entries.
    let mut shown: Vec<DirEntryInfo> = Vec::new();
    let mut i: usize = 0;
    while i < entries.len()
        invariant
            i <= entries@.len(),
            es == entries@.map_values(|e: DirEntryInfo| e@),
            shown@.map_values(|e: DirEntryInfo| e@) == shown_entries(es.take(i as int), show_files, show_hidden),
        decreases entries@.len() - i,
    {
        let e = &entries[i];
        proof {
            assert(es.take(i + 1).drop_last() == es.take(i as int));
            assert(es.take(i + 1).last() == es[i as int]);
        }
        let keep = (show_hidden || !is_hidden(e.name.as_str())) && (show_files || e.is_dir);
        if keep {
            let ghost before = shown@.map_values(|e: DirEntryInfo| e@);
            shown.push(copy_entry(e));
            assert(shown@.map_values(|e: DirEntryInfo| e@) =~= before.push(es[i as int]));
        }
        i = i + 1;
    }
    assert(es.take(i as int) == es);
    let ghost sv = shown@.map_values(|e: DirEntryInfo| e@);
    // Insertion sort.
    proof {
        lemma_entry_leq_total_ordering();
    }
    let ghost order = entry_order();
    let mut sorted: Vec<DirEntryInfo> = Vec::new();
    let mut k: usize = 0;
    assert(sorted@.map_values(|e: DirEntryInfo| e@) =~= Seq::<EntryInfoView>::empty());
    assert(sv.take(0) =~= Seq::<EntryInfoView>::empty());
    while k < shown.len()
        invariant
            k <= shown@.len(),
            sv == shown@.map_values(|e: DirEntryInfo| e@),
            order == entry_order(),
            total_ordering(order),
            sorted_by(sorted@.map_values(|e: DirEntryInfo| e@), order),
            sorted@.map_values(|e: DirEntryInfo| e@).to_multiset() == sv.take(k as int).to_multiset(),
        decreases shown@.len() - k,
    {
        let e = &shown[k];
        let ghost cur = sorted@.map_values(|e: DirEntryInfo| e@);
        let mut j: usize = 0;
        while j < sorted.len() && entry_le(&sorted[j], e)
            invariant
                j <= sorted@.len(),
                cur == sorted@.map_values(|e: DirEntryInfo| e@),
                forall|m: int| 0 <= m < j ==> #[trigger] entry_leq(cur[m], e@),
            decreases sorted@.len() - j,
        {
            j = j + 1;
        }
        let c = copy_entry(e);
        sorted.insert(j, c);
        proof {
            let nv = sorted@.map_values(|e: DirEntryInfo| e@);
            assert(nv =~= cur.insert(j as int, e@));
            vstd::seq_lib::to_multiset_insert(cur, j as int, e@);
            assert(sv.take(k + 1) =~= sv.take(k as int).push(sv[k as int]));
            vstd::seq_lib::to_multiset_build(sv.take(k as int), sv[k as int]);
            assert(sv[k as int] == e@);
            assert forall|a: int, b: int| 0 <= a < b < nv.len() implies #[trigger] order(nv[a], nv[b]) by {
                if b < j {
                    assert(nv[a] == cur[a] && nv[b] == cur[b]);
                } else if b == j {
                    assert(nv[a] == cur[a]);
                    assert(entry_leq(cur[a], e@));
                } else if a < j {
                    assert(nv[a] == cur[a] && nv[b] == cur[b - 1]);
                } else if a == j {
                    assert(nv[b] == cur[b - 1]);
                    assert(j < cur.len());
                    assert(!entry_leq(cur[j as int], e@));
                    assert(order(cur[j as int], e@) || order(e@, cur[j as int]));
                    if j as int != b - 1 {
                        assert(order(cur[j as int], cur[b - 1]));
                    }
                    assert(order(e@, cur[j as int]));
                } else {
                    assert(nv[a] == cur[a - 1] && nv[b] == cur[b - 1]);
                }
            }
        }
        k = k + 1;
    }
    proof {
        assert(sv.take(k as int) == sv);
        let target = sv.sort_by(order);
        sv.lemma_sort_by_ensures(order);
        vstd::seq_lib::lemma_sorted_unique(sorted@.map_values(|e: DirEntryInfo| e@), target, order);
    }
    sorted
}

impl FileNode {
    /// A node for `path` with nothing loaded.
    pub fn new(path: TreePath, is_dir: bool) -> (n: Self)
        ensures
            fresh_node(n, whole(path), is_dir),
            n.path == path,
    {
        FileNode {
            path,
            is_dir,
            children: None,
            expanded: false,
            cached_counts: None,
            child_count_attempted: false,
        }
    }

    /// The last name of the node's path (empty for the filesystem root).
    pub fn name(&self) -> (s: String)
        ensures
            s@ == view_name(self@),
    {
        match self.path.file_name() {
            Some(n) => n,
            None => String::new(),
        }
    }

    /// `(directories, files)` among the children: counted from the loaded
    /// children, else the cached count, else `None`.
    pub fn child_counts(&self) -> (c: Option<(usize, usize)>)
        ensures
            c == child_counts_of(self@),
    {
        match &self.children {
            Some(children) => {
                let ghost vs = views_of(children@);
                proof {
                    lemma_views_of(children@);
                    lemma_count_dir_views_bound(vs);
                }
                let mut dirs: usize = 0;
                let mut i: usize = 0;
                while i < children.len()
                    invariant
                        i <= children@.len(),
                        vs == views_of(children@),
                        vs.len() == children@.len(),
                        forall|m: int| 0 <= m < children@.len() ==> #[trigger] vs[m] == node_view(children@[m]),
                        dirs == count_dir_views(vs.take(i as int)),
                        count_dir_views(vs) <= vs.len(),
                    decreases children@.len() - i,
                {
                    proof {
                        assert(vs.take(i + 1).drop_last() == vs.take(i as int));
                        assert(vs[i as int] == node_view(children@[i as int]));
                        lemma_count_dir_views_bound(vs.take(i as int));
                    }
                    if children[i].is_dir {
                        dirs = dirs + 1;
                    }
                    i = i + 1;
                }
                assert(vs.take(i as int) == vs);
                Some((dirs, children.len() - dirs))
            },
            None => self.cached_counts,
        }
    }

    /// Loads the children from a listing of the directory (`None`: it could not
    /// be read). A file is left as it is; for a directory, the listed entries
    /// become its children in display order and their counts are cached.
    pub fn load_children(&mut self, listing: Option<&Vec<DirEntryInfo>>, show_files: bool, show_hidden: bool) -> (r: Result<(), LoadError>)
        ensures
            final(self)@ == loaded(old(self)@, listing_view(listing), show_files, show_hidden).0,
            r is Ok <==> loaded(old(self)@, listing_view(listing), show_files, show_hidden).1,
    {
        if !self.is_dir {
            return Ok(());
        }
        let entries = match listing {
            Some(es) => es,
            None => {
                return Err(LoadError);
            },
        };
        let sorted = sorted_listing(entries, show_files, show_hidden);
        let ghost sv = sorted@.map_values(|e: DirEntryInfo| e@);
        let mut children: Vec<FileNode> = Vec::new();
        let mut dirs: usize = 0;
        let mut i: usize = 0;
        proof {
            lemma_count_dir_entries_bound(sv);
        }
        while i < sorted.len()
            invariant
                i <= sorted@.len(),
                sv == sorted@.map_values(|e: DirEntryInfo| e@),
                children_for(children@, whole(self.path), sv.take(i as int)),
                dirs == count_dir_entries(sv.take(i as int)),
                count_dir_entries(sv) <= sv.len(),
            decreases sorted@.len() - i,
        {
            proof {
                assert(sv.take(i + 1).drop_last() == sv.take(i as int));
                lemma_count_dir_entries_bound(sv.take(i as int));
            }
            let e = &sorted[i];
            let child = FileNode::new(self.path.child(e.name.as_str()), e.is_dir);
            if e.is_dir {
                dirs = dirs + 1;
            }
            let ghost before = children@;
            children.push(child);
            assert forall|m: int| 0 <= m < children@.len() implies fresh_node(#[trigger] children@[m], joined(whole(self.path), sv.take(i + 1)[m].0), sv.take(i + 1)[m].1) by {
                if m < i {
                    assert(children@[m] == before[m]);
                }
            }
            i = i + 1;
        }
        assert(sv.take(i as int) == sv);
        proof {
            lemma_views_of(children@);
            assert(views_of(children@) =~= children_views(whole(self.path), sv));
        }
        self.cached_counts = Some((dirs, sorted.len() - dirs));
        self.child_count_attempted = true;
        self.children = Some(children);
        Ok(())
    }

    /// Counts the listed children from a listing without loading them, once:
    /// only for a directory whose children are not loaded and whose count was
    /// not tried yet. A listing of `None` (unreadable) marks the count as tried.
    pub fn load_child_counts(&mut self, listing: Option<&Vec<DirEntryInfo>>, show_files: bool, show_hidden: bool)
        ensures
            final(self)@ == counted(old(self)@, listing_view(listing), show_files, show_hidden),
    {
        if !self.is_dir || self.children.is_some() || self.child_count_attempted {
            return;
        }
        self.child_count_attempted = true;
        let entries = match listing {
            Some(es) => es,
            None => {
                return;
            },
        };
        let ghost es = entries@.map_values(|e: DirEntryInfo| e@);
        let mut dirs: usize = 0;
        let mut total: usize = 0;
        let mut i: usize = 0;
        while i < entries.len()
            invariant
                i <= entries@.len(),
                es == entries@.map_values(|e: DirEntryInfo| e@),
                dirs == count_dir_entries(shown_entries(es.take(i as int), show_files, show_hidden)),
                total == shown_entries(es.take(i as int), show_files, show_hidden).len(),
                total <= i,
                dirs <= total,
            decreases entries@.len() - i,
        {
            let e = &entries[i];
            proof {
                assert(es.take(i + 1).drop_last() == es.take(i as int));
                assert(es.take(i + 1).last() == es[i as int]);
                let s = shown_entries(es.take(i as int), show_files, show_hidden);
                assert(s.push(es[i as int]).drop_last() == s);
            }
            let keep = (show_hidden || !is_hidden(e.name.as_str())) && (show_files || e.is_dir);
            if keep {
                total = total + 1;
                if e.is_dir {
                    dirs = dirs + 1;
                }
            }
            i = i + 1;
        }
        assert(es.take(i as int) == es);
        self.cached_counts = Some((dirs, total - dirs));
    }

    /// The text shown for the node: its name, or its whole path when it has
    /// no name (the filesystem root).
    pub fn display_name(&self) -> (s: String)
        ensures
            s@ == if view_name(self@).len() == 0 { self@.text } else { view_name(self@) },
    {
        let name = self.name();
        if name.unicode_len() == 0 {
            self.path.to_text()
        } else {
            name
        }
    }
}

} // verus!
