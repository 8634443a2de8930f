use vstd::prelude::*;
use crate::app::App;
use crate::mode::AppMode;
use crate::node::{FileNode, NodeView, child_counts_of, view_name};
use crate::text::push_char;
use crate::view::{field_contents, search_field_contents, name_pieces, name_segments, count_label, child_count_label, index_label, history_index_label,
    home_relative_text, history_display_path};

verus! {

/// The blank margin in front of every row.
pub const LEFT_PAD: &'static str = "  ";

/// What a piece of a row shows; the look of each piece follows from it.
#[derive(Debug, Clone, Copy, PartialEq, Eq, Structural)]
pub enum RowPart {
    /// The left margin.
    Pad,
    /// The tree drawing in front of a name.
    Branch,
    /// A part of a name that does not match the search.
    Name,
    /// A part of a name that matches the search.
    Match,
    /// The count of a directory's children.
    Count,
    /// The label of the current mode, next to the selected entry.
    Mode,
    /// The number of a history entry.
    Index,
    /// The path of a history entry.
    Path,
    /// The label of the search form.
    Label,
    /// The field of the search form, in its brackets.
    Field,
}

/// The pieces of a row as text.
pub open spec fn part_texts(ps: Seq<(String, RowPart)>) -> Seq<(Seq<char>, RowPart)> {
    ps.map_values(|p: (String, RowPart)| (p.0@, p.1))
}

/// The label of a mode.
pub open spec fn mode_label(m: AppMode) -> Seq<char> {
    match m {
        AppMode::Cd => "_CD"@,
        AppMode::Open => "_OPEN"@,
        AppMode::Code => "_CODE"@,
    }
}

/// The name a node is shown by: its last name, or its whole text when it
/// has none (the root `/`).
pub open spec fn shown_name(n: NodeView) -> Seq<char> {
    if view_name(n).len() == 0 { n.text } else { view_name(n) }
}

/// The query highlighted in the tree: the search text while searching.
pub open spec fn shown_query(app: App) -> Seq<char> {
    if app.search_mode { app.search_query@ } else { ""@ }
}

/// The count label of a directory whose children are known or counted,
/// unless it has none.
pub open spec fn count_text(n: NodeView) -> Option<Seq<char>> {
    if n.is_dir {
        match child_counts_of(n) {
            Some((dirs, files)) => count_label(dirs as nat, files as nat),
            None => None,
        }
    } else {
        None
    }
}

/// The row of the tree for `n` drawn behind `prefix`: the margin, the
/// drawing, the name cut at the matches of `query`, the child count of a
/// directory when it is known and not zero, and for the selected directory a
/// blank and the label of `mode`.
pub open spec fn tree_row_view(
    prefix: Seq<char>,
    n: NodeView,
    query: Seq<char>,
    selected: bool,
    mode: AppMode,
) -> Seq<(Seq<char>, RowPart)> {
    let count: Seq<(Seq<char>, RowPart)> = match count_text(n) {
        Some(t) => seq![(t, RowPart::Count)],
        None => Seq::empty(),
    };
    let label: Seq<(Seq<char>, RowPart)> = if selected && n.is_dir {
        seq![(seq![' '] + mode_label(mode), RowPart::Mode)]
    } else {
        Seq::empty()
    };
    let name: Seq<(Seq<char>, RowPart)> = name_pieces(shown_name(n), query).map_values(
        |p: (Seq<char>, bool)| (p.0, if p.1 { RowPart::Match } else { RowPart::Name }),
    );
    seq![(LEFT_PAD@, RowPart::Pad), (prefix, RowPart::Branch)] + name + count + label
}

/// The row of the history list for entry `i`: the margin, its number, its
/// path (shortened under the home directory) and, when it is selected, the
/// label of `mode`.
pub open spec fn history_row_view(i: nat, path: Seq<char>, selected: bool, mode: AppMode) -> Seq<(Seq<char>, RowPart)> {
    seq![(LEFT_PAD@, RowPart::Pad), (index_label(i), RowPart::Index), (path, RowPart::Path)] + if selected {
        seq![(mode_label(mode), RowPart::Mode)]
    } else {
        Seq::empty()
    }
}

proof fn lemma_part_texts_push(ps: Seq<(String, RowPart)>, p: (String, RowPart))
    ensures
        part_texts(ps.push(p)) == part_texts(ps).push((p.0@, p.1)),
{
    assert(part_texts(ps.push(p)) =~= part_texts(ps).push((p.0@, p.1)));
}

fn push_part(r: &mut Vec<(String, RowPart)>, text: String, part: RowPart)
    ensures
        part_texts(final(r)@) == part_texts(old(r)@).push((text@, part)),
{
    proof {
        lemma_part_texts_push(old(r)@, (text, part));
    }
    r.push((text, part));
}

fn mode_text(mode: AppMode) -> (s: String)
    ensures
        s@ == mode_label(mode),
{
    mode.suffix().to_owned()
}

/// The pieces of the search form for a field `field_width` wide: the label,
/// the field in brackets, and a closing blank; together they read as
/// `form_text`.
pub fn search_form_pieces(query: &str, field_width: usize) -> (r: Vec<(String, RowPart)>)
    ensures
        part_texts(r@) == seq![
            (" Find "@, RowPart::Label),
            ("["@ + field_contents(query@, field_width as int) + "]"@, RowPart::Field),
            (" "@, RowPart::Pad),
        ],
{
    let mut r: Vec<(String, RowPart)> = Vec::new();
    push_part(&mut r, " Find ".to_owned(), RowPart::Label);
    let mut field = "[".to_owned();
    field.append(search_field_contents(query, field_width).as_str());
    field.append("]");
    push_part(&mut r, field, RowPart::Field);
    push_part(&mut r, " ".to_owned(), RowPart::Pad);
    assert(part_texts(r@) =~= seq![
        (" Find "@, RowPart::Label),
        ("["@ + field_contents(query@, field_width as int) + "]"@, RowPart::Field),
        (" "@, RowPart::Pad),
    ]);
    r
}

impl App {
    /// The pieces of the tree row for `node`, drawn behind `prefix`.
    pub fn tree_row(&self, prefix: &String, node: &FileNode) -> (r: Vec<(String, RowPart)>)
        ensures
            part_texts(r@) == tree_row_view(prefix@, node@, shown_query(*self), node.path@ == self.selected_path@, self.mode),
    {
        let ghost n = node@;
        let mut r: Vec<(String, RowPart)> = Vec::new();
        push_part(&mut r, LEFT_PAD.to_owned(), RowPart::Pad);
        push_part(&mut r, prefix.clone(), RowPart::Branch);
        let ghost head = part_texts(r@);
        let query: &str = if self.search_mode { self.search_query.as_str() } else { "" };
        let name = node.display_name();
        let segs = name_segments(name.as_str(), query);
        let ghost pieces = name_pieces(shown_name(n), shown_query(*self));
        let ghost shown = pieces.map_values(|p: (Seq<char>, bool)| (p.0, if p.1 { RowPart::Match } else { RowPart::Name }));
        assert(segs@.len() == pieces.len()) by {
            assert(segs@.map_values(|p: (String, bool)| (p.0@, p.1)).len() == segs@.len());
        }
        let mut k: usize = 0;
        while k < segs.len()
            invariant
                k <= segs@.len(),
                segs@.len() == pieces.len(),
                segs@.map_values(|p: (String, bool)| (p.0@, p.1)) == pieces,
                shown == pieces.map_values(|p: (Seq<char>, bool)| (p.0, if p.1 { RowPart::Match } else { RowPart::Name })),
                part_texts(r@) == head + shown.take(k as int),
            decreases segs@.len() - k,
        {
            let (text, matched) = (segs[k].0.clone(), segs[k].1);
            assert(pieces[k as int] == (segs@[k as int].0@, segs@[k as int].1));
            let part = if matched { RowPart::Match } else { RowPart::Name };
            push_part(&mut r, text, part);
            assert(shown.take(k + 1) =~= shown.take(k as int).push(shown[k as int]));
            assert(part_texts(r@) =~= head + shown.take(k + 1));
            k = k + 1;
        }
        assert(shown.take(k as int) =~= shown);
        let ghost with_name = part_texts(r@);
        let mut counted = false;
        if node.is_dir {
            if let Some((dirs, files)) = node.child_counts() {
                if let Some(label) = child_count_label(dirs, files) {
                    push_part(&mut r, label, RowPart::Count);
                    counted = true;
                }
            }
        }
        let ghost with_count = part_texts(r@);
        if node.is_dir && node.path.same_as(&self.selected_path) {
            let mut s = String::new();
            push_char(&mut s, ' ');
            s.append(mode_text(self.mode).as_str());
            push_part(&mut r, s, RowPart::Mode);
        }
        proof {
            if counted {
                assert(with_count == with_name + seq![(count_text(n)->0, RowPart::Count)]);
            } else {
                assert(with_count =~= with_name + Seq::<(Seq<char>, RowPart)>::empty());
            }
        }
        assert(part_texts(r@) =~= tree_row_view(prefix@, node@, shown_query(*self), node.path@ == self.selected_path@, self.mode));
        r
    }

    /// The pieces of the history row for entry `i`.
    pub fn history_row(&self, i: usize) -> (r: Vec<(String, RowPart)>)
        requires
            i < self.history.entries@.len(),
        ensures
            part_texts(r@) == history_row_view(
                i as nat,
                home_relative_text(self.history.entries@[i as int].path, self.home_dir),
                self.history_list_state.selected == Some(i),
                self.mode,
            ),
    {
        let mut r: Vec<(String, RowPart)> = Vec::new();
        push_part(&mut r, LEFT_PAD.to_owned(), RowPart::Pad);
        let count = self.history.entries.len();
        assert(i < count);
        push_part(&mut r, history_index_label(i), RowPart::Index);
        push_part(&mut r, history_display_path(&self.history.entries[i].path, &self.home_dir), RowPart::Path);
        let selected = match self.history_list_state.selected {
            Some(j) => j == i,
            None => false,
        };
        if selected {
            push_part(&mut r, mode_text(self.mode), RowPart::Mode);
        }
        assert(part_texts(r@) =~= history_row_view(
            i as nat,
            home_relative_text(self.history.entries@[i as int].path, self.home_dir),
            self.history_list_state.selected == Some(i),
            self.mode,
        ));
        r
    }
}

} // verus!
