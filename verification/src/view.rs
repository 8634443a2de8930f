use vstd::prelude::*;
use crate::app::App;
use crate::node::{FileNode};
use crate::path::{TreePath, PathView, path_starts_with};
use crate::pathtext::{remainder_text, remainder_of};
use crate::text::{chars_of, push_char, string_of, same_chars, texts, lemma_texts_push};

verus! {

/// A rectangle of terminal cells.
#[derive(Debug, Clone, Copy, PartialEq, Eq, Structural)]
pub struct Rect {
    pub x: u16,
    pub y: u16,
    pub width: u16,
    pub height: u16,
}

impl Rect {
    /// The rectangle at `(x, y)` of the given size.
    pub fn new(x: u16, y: u16, width: u16, height: u16) -> (r: Rect)
        ensures
            r == (Rect { x, y, width, height }),
    {
        Rect { x, y, width, height }
    }

    /// Its first row.
    pub fn top(&self) -> (t: u16)
        ensures
            t == self.y,
    {
        self.y
    }
}

/// `a - b`, or 0 when `b > a`.
pub open spec fn sat_sub(a: int, b: int) -> int {
    if a >= b { a - b } else { 0 }
}

/// Where the rows of the tree or history list are drawn inside the screen
/// `area`: inside the one-cell border, above the two guide rows.
pub fn list_content_area(area: Rect) -> (r: Rect)
    requires
        area.x < u16::MAX,
        area.y < u16::MAX,
    ensures
        r.x == area.x + 1,
        r.y == area.y + 1,
        r.width == sat_sub(area.width as int, 2),
        r.height == sat_sub(sat_sub(area.height as int, 2), 2),
{
    let content = Rect {
        x: area.x + 1,
        y: area.y + 1,
        width: area.width.saturating_sub(2),
        height: area.height.saturating_sub(2),
    };
    Rect { x: content.x, y: content.y, width: content.width, height: content.height.saturating_sub(2) }
}

/// Preferred width of the search field (brackets excluded).
pub const SEARCH_FIELD_WIDTH: usize = 16;

/// Width of the search field in a screen `area_width` wide: what is left
/// after the corners (2), the left title (9), a gap (2) and the form's own
/// text (9), kept within 4..=16.
pub open spec fn field_width_for(area_width: int) -> int {
    let available = sat_sub(sat_sub(sat_sub(sat_sub(area_width, 2), 9), 2), 9);
    if available < 4 { 4 } else if available > 16 { 16 } else { available }
}

/// The width of the search field for a screen `area_width` cells wide.
pub fn search_field_width(area_width: u16) -> (w: usize)
    ensures
        w == field_width_for(area_width as int),
{
    let available = (area_width as usize).saturating_sub(2).saturating_sub(9).saturating_sub(2).saturating_sub(9);
    if available < 4 {
        4
    } else if available > SEARCH_FIELD_WIDTH {
        SEARCH_FIELD_WIDTH
    } else {
        available
    }
}

/// `n` spaces.
pub open spec fn spaces(n: int) -> Seq<char> {
    Seq::new(n as nat, |i: int| ' ')
}

/// The search field's text: the end of the query that fits, the cursor `_`,
/// then spaces up to `field_width`.
pub open spec fn field_contents(q: Seq<char>, field_width: int) -> Seq<char> {
    let budget = sat_sub(field_width, 1);
    let visible = if q.len() <= budget { q } else { q.subrange(q.len() - budget, q.len() as int) };
    visible + seq!['_'] + spaces(sat_sub(field_width, visible.len() as int + 1))
}

/// The text shown in the search field of width `field_width`.
pub fn search_field_contents(query: &str, field_width: usize) -> (s: String)
    ensures
        s@ == field_contents(query@, field_width as int),
{
    let chars = chars_of(query);
    let budget = field_width.saturating_sub(1);
    let start: usize = if chars.len() <= budget { 0 } else { chars.len() - budget };
    let mut s = string_of(&chars, start, chars.len());
    proof {
        if chars@.len() <= budget {
            assert(chars@.subrange(0, chars@.len() as int) =~= chars@);
        }
    }
    push_char(&mut s, '_');
    let used = (chars.len() - start) + 1;
    let pad = field_width.saturating_sub(used);
    let ghost head = s@;
    let mut i: usize = 0;
    while i < pad
        invariant
            i <= pad,
            s@ == head + spaces(i as int),
        decreases pad - i,
    {
        push_char(&mut s, ' ');
        assert(spaces(i + 1) =~= spaces(i as int).push(' '));
        i = i + 1;
    }
    assert(s@ =~= field_contents(query@, field_width as int));
    s
}

/// The search form drawn in the top border: the label, then the field in
/// brackets.
pub open spec fn form_text(q: Seq<char>, field_width: int) -> Seq<char> {
    " Find ["@ + field_contents(q, field_width) + "] "@
}

/// The text of the search form for a field `field_width` wide.
pub fn search_form_text(query: &str, field_width: usize) -> (s: String)
    ensures
        s@ == form_text(query@, field_width as int),
{
    let field = search_field_contents(query, field_width);
    let mut s = String::new();
    s.append(" Find [");
    s.append(field.as_str());
    s.append("] ");
    s
}

/// What `str::to_lowercase` gives for the text `s`.
pub uninterp spec fn lowercase(s: Seq<char>) -> Seq<char>;

/// The lowercase form of a text.
/// Trusted: `str::to_lowercase`, which maps every character to its Unicode
/// lowercase form; the contract only names the result, as a function of the
/// text alone.
#[verifier::external_body]
fn to_lowercase_text(s: &str) -> (r: String)
    ensures
        r@ == lowercase(s@),
{
    s.to_lowercase()
}

/// A character as search compares it: its lowercase form.
pub open spec fn folded(c: char) -> Seq<char> {
    lowercase(seq![c])
}

/// The characters of a text, each as search compares it.
pub open spec fn fold_all(s: Seq<char>) -> Seq<Seq<char>> {
    s.map_values(|c: char| folded(c))
}

/// Whether the compared characters `qf` occur in `nf` at position `i`.
pub open spec fn matches_at(nf: Seq<Seq<char>>, qf: Seq<Seq<char>>, i: int) -> bool {
    &&& 0 <= i
    &&& i + qf.len() <= nf.len()
    &&& forall|k: int| 0 <= k < qf.len() ==> #[trigger] nf[i + k] == qf[k]
}

/// The occurrences of `qf` in `nf` from position `i` on, left to right and
/// not overlapping, as `(start, end)` positions.
pub open spec fn match_ranges_from(nf: Seq<Seq<char>>, qf: Seq<Seq<char>>, i: int) -> Seq<(int, int)>
    decreases nf.len() - i,
{
    if qf.len() == 0 || i < 0 || i + qf.len() > nf.len() {
        Seq::empty()
    } else if matches_at(nf, qf, i) {
        seq![(i, i + qf.len())] + match_ranges_from(nf, qf, i + qf.len())
    } else {
        match_ranges_from(nf, qf, i + 1)
    }
}

/// The occurrences of `q` in `name`, comparing characters by their
/// lowercase forms (so ignoring case).
pub open spec fn match_ranges(name: Seq<char>, q: Seq<char>) -> Seq<(int, int)> {
    match_ranges_from(fold_all(name), fold_all(q), 0)
}

/// The characters of `s`, each as search compares it.
pub fn fold_text(s: &str) -> (f: Vec<Vec<char>>)
    ensures
        texts(f@) == fold_all(s@),
{
    let chars = chars_of(s);
    let mut f: Vec<Vec<char>> = Vec::new();
    let mut i: usize = 0;
    while i < chars.len()
        invariant
            i <= chars@.len(),
            chars@ == s@,
            texts(f@) == fold_all(s@).take(i as int),
        decreases chars@.len() - i,
    {
        let mut one = String::new();
        push_char(&mut one, chars[i]);
        assert(one@ =~= seq![chars@[i as int]]);
        let lower = to_lowercase_text(one.as_str());
        let v = chars_of(lower.as_str());
        proof {
            lemma_texts_push(f@, v);
            assert(fold_all(s@).take(i + 1) =~= fold_all(s@).take(i as int).push(folded(chars@[i as int])));
        }
        f.push(v);
        i = i + 1;
    }
    assert(fold_all(s@).take(i as int) =~= fold_all(s@));
    f
}

fn matches_here(nf: &Vec<Vec<char>>, qf: &Vec<Vec<char>>, i: usize) -> (b: bool)
    requires
        i + qf@.len() <= nf@.len(),
    ensures
        b == matches_at(texts(nf@), texts(qf@), i as int),
{
    let nl = nf.len();
    let mut k: usize = 0;
    while k < qf.len()
        invariant
            k <= qf@.len(),
            nl == nf@.len(),
            i + qf@.len() <= nf@.len(),
            forall|m: int| 0 <= m < k ==> #[trigger] texts(nf@)[i + m] == texts(qf@)[m],
        decreases qf@.len() - k,
    {
        assert(texts(nf@)[i + k] == nf@[i + k]@);
        assert(texts(qf@)[k as int] == qf@[k as int]@);
        if !same_chars(&nf[i + k], &qf[k]) {
            return false;
        }
        k = k + 1;
    }
    true
}

/// Occurrences as mathematical positions.
pub open spec fn positions(r: Seq<(usize, usize)>) -> Seq<(int, int)> {
    r.map_values(|p: (usize, usize)| (p.0 as int, p.1 as int))
}

proof fn lemma_positions_push(r: Seq<(usize, usize)>, p: (usize, usize))
    ensures
        positions(r.push(p)) == positions(r).push((p.0 as int, p.1 as int)),
{
    assert(positions(r.push(p)) =~= positions(r).push((p.0 as int, p.1 as int)));
}

/// Where the compared characters `qf` occur in `nf`: non-overlapping
/// `(start, end)` positions, left to right; none for an empty query.
pub fn fold_match_ranges(nf: &Vec<Vec<char>>, qf: &Vec<Vec<char>>) -> (r: Vec<(usize, usize)>)
    ensures
        positions(r@) == match_ranges_from(texts(nf@), texts(qf@), 0),
{
    let ghost n = texts(nf@);
    let ghost q = texts(qf@);
    let mut out: Vec<(usize, usize)> = Vec::new();
    assert(positions(out@) =~= Seq::<(int, int)>::empty());
    if qf.len() == 0 {
        return out;
    }
    let mut i: usize = 0;
    while i <= nf.len() && qf.len() <= nf.len() - i
        invariant
            q.len() > 0,
            n == texts(nf@),
            q == texts(qf@),
            n.len() == nf@.len(),
            q.len() == qf@.len(),
            i <= n.len(),
            positions(out@) + match_ranges_from(n, q, i as int) == match_ranges_from(n, q, 0),
        decreases n.len() - i,
    {
        let ghost before = positions(out@);
        if matches_here(nf, qf, i) {
            proof {
                lemma_positions_push(out@, (i, (i + qf.len()) as usize));
            }
            out.push((i, i + qf.len()));
            assert(before + match_ranges_from(n, q, i as int) =~=
                before.push((i as int, i + q.len())) + match_ranges_from(n, q, i + q.len()));
            i = i + qf.len();
        } else {
            i = i + 1;
        }
    }
    assert(match_ranges_from(n, q, i as int) =~= Seq::<(int, int)>::empty());
    assert(positions(out@) =~= match_ranges_from(n, q, 0));
    out
}

/// Where `query` occurs in `name`, ignoring case (characters are compared
/// by their lowercase forms): non-overlapping `(start, end)` character
/// positions, left to right; none for an empty query.
pub fn name_match_ranges(name: &str, query: &str) -> (r: Vec<(usize, usize)>)
    ensures
        positions(r@) == match_ranges(name@, query@),
{
    let nf = fold_text(name);
    let qf = fold_text(query);
    fold_match_ranges(&nf, &qf)
}

/// The pieces of `name` from position `last` on, given the occurrences
/// `rs[k..]`: unmatched text between occurrences, each occurrence marked.
pub open spec fn pieces_from(name: Seq<char>, rs: Seq<(int, int)>, k: int, last: int) -> Seq<(Seq<char>, bool)>
    decreases rs.len() - k,
{
    if k < 0 || k >= rs.len() {
        if last < name.len() { seq![(name.subrange(last, name.len() as int), false)] } else { Seq::empty() }
    } else {
        let (s, e) = rs[k];
        (if s > last { seq![(name.subrange(last, s), false)] } else { Seq::empty() })
            + seq![(name.subrange(s, e), true)]
            + pieces_from(name, rs, k + 1, e)
    }
}

/// `name` cut into pieces for highlighting `query`: the whole name,
/// unmarked, when it does not occur; else the pieces, occurrences marked.
pub open spec fn name_pieces(name: Seq<char>, q: Seq<char>) -> Seq<(Seq<char>, bool)> {
    let rs = match_ranges(name, q);
    if rs.len() == 0 { seq![(name, false)] } else { pieces_from(name, rs, 0, 0) }
}

/// Whether the occurrences `rs` lie inside a text of length `len`, each
/// non-empty, in order and not overlapping, all at or after `from`.
pub open spec fn ordered_within(rs: Seq<(int, int)>, from: int, len: int) -> bool {
    &&& forall|k: int| 0 <= k < rs.len() ==> from <= (#[trigger] rs[k]).0 && rs[k].0 < rs[k].1 && rs[k].1 <= len
    &&& forall|k: int| 0 <= k < rs.len() - 1 ==> (#[trigger] rs[k]).1 <= rs[k + 1].0
}

proof fn lemma_ranges_ordered(name: Seq<Seq<char>>, q: Seq<Seq<char>>, i: int)
    requires
        0 <= i,
    ensures
        ordered_within(match_ranges_from(name, q, i), i, name.len() as int),
    decreases name.len() - i,
{
    let all = match_ranges_from(name, q, i);
    if q.len() == 0 || i + q.len() > name.len() {
        assert(all.len() == 0);
    } else if matches_at(name, q, i) {
        let j = i + q.len();
        lemma_ranges_ordered(name, q, j);
        let rest = match_ranges_from(name, q, j);
        assert(all == seq![(i, j)] + rest);
        assert forall|k: int| 0 <= k < all.len() implies i <= (#[trigger] all[k]).0 && all[k].0 < all[k].1
            && all[k].1 <= name.len() by {
            if k > 0 {
                assert(all[k] == rest[k - 1]);
            }
        }
        assert forall|k: int| 0 <= k < all.len() - 1 implies (#[trigger] all[k]).1 <= all[k + 1].0 by {
            assert(all[k + 1] == rest[k]);
            if k > 0 {
                assert(all[k] == rest[k - 1]);
            }
        }
    } else {
        lemma_ranges_ordered(name, q, i + 1);
        assert(all == match_ranges_from(name, q, i + 1));
    }
}

/// The texts of the pieces, one after the other.
pub open spec fn pieces_text(ps: Seq<(Seq<char>, bool)>) -> Seq<char>
    decreases ps.len(),
{
    if ps.len() == 0 {
        Seq::empty()
    } else {
        ps[0].0 + pieces_text(ps.drop_first())
    }
}

proof fn lemma_pieces_text_concat(a: Seq<(Seq<char>, bool)>, b: Seq<(Seq<char>, bool)>)
    ensures
        pieces_text(a + b) == pieces_text(a) + pieces_text(b),
    decreases a.len(),
{
    if a.len() == 0 {
        assert(a + b =~= b);
    } else {
        lemma_pieces_text_concat(a.drop_first(), b);
        assert((a + b).drop_first() =~= a.drop_first() + b);
        assert(pieces_text(a + b) =~= pieces_text(a) + pieces_text(b));
    }
}

proof fn lemma_pieces_text_one(x: (Seq<char>, bool))
    ensures
        pieces_text(seq![x]) == x.0,
{
    let ps = seq![x];
    assert(ps.drop_first() =~= Seq::<(Seq<char>, bool)>::empty());
    assert(pieces_text(ps.drop_first()) == Seq::<char>::empty());
    assert(pieces_text(ps) =~= x.0 + Seq::<char>::empty());
    assert(x.0 + Seq::<char>::empty() =~= x.0);
}

proof fn lemma_pieces_from_text(name: Seq<char>, rs: Seq<(int, int)>, k: int, last: int)
    requires
        ordered_within(rs, 0, name.len() as int),
        0 <= k <= rs.len(),
        0 <= last <= name.len(),
        k < rs.len() ==> last <= rs[k].0,
    ensures
        pieces_text(pieces_from(name, rs, k, last)) == name.subrange(last, name.len() as int),
    decreases rs.len() - k,
{
    let ps = pieces_from(name, rs, k, last);
    if k >= rs.len() {
        if last < name.len() {
            lemma_pieces_text_one((name.subrange(last, name.len() as int), false));
        } else {
            assert(name.subrange(last, name.len() as int) =~= Seq::<char>::empty());
        }
    } else {
        let (s, e) = rs[k];
        if k + 1 < rs.len() {
            assert(e <= rs[k + 1].0);
        }
        lemma_pieces_from_text(name, rs, k + 1, e);
        let gap: Seq<(Seq<char>, bool)> = if s > last { seq![(name.subrange(last, s), false)] } else { Seq::empty() };
        let mid: Seq<(Seq<char>, bool)> = seq![(name.subrange(s, e), true)];
        let rest = pieces_from(name, rs, k + 1, e);
        assert(ps == gap + mid + rest);
        lemma_pieces_text_concat(gap + mid, rest);
        lemma_pieces_text_concat(gap, mid);
        lemma_pieces_text_one((name.subrange(s, e), true));
        assert(pieces_text(gap) =~= name.subrange(last, s)) by {
            if s > last {
                lemma_pieces_text_one((name.subrange(last, s), false));
            } else {
                assert(name.subrange(last, s) =~= Seq::<char>::empty());
            }
        }
        assert(name.subrange(last, s) + name.subrange(s, e) + name.subrange(e, name.len() as int)
            =~= name.subrange(last, name.len() as int));
    }
}

/// Highlighting loses nothing: the pieces that a name is cut into, put back
/// together, give the name.
pub proof fn lemma_pieces_rebuild_name(name: Seq<char>, q: Seq<char>)
    ensures
        pieces_text(name_pieces(name, q)) == name,
{
    let rs = match_ranges(name, q);
    if rs.len() == 0 {
        lemma_pieces_text_one((name, false));
    } else {
        lemma_ranges_ordered(fold_all(name), fold_all(q), 0);
        lemma_pieces_from_text(name, rs, 0, 0);
        assert(name.subrange(0, name.len() as int) =~= name);
    }
}

/// The search field always takes `field_width` cells (at least the cursor).
pub proof fn lemma_field_contents_width(q: Seq<char>, field_width: int)
    requires
        0 <= field_width,
    ensures
        field_contents(q, field_width).len() == if field_width == 0 { 1 } else { field_width },
{
}

proof fn lemma_ranges_are_occurrences(name: Seq<Seq<char>>, q: Seq<Seq<char>>, i: int)
    requires
        0 <= i,
    ensures
        forall|k: int|
            0 <= k < match_ranges_from(name, q, i).len() ==> {
                let r = #[trigger] match_ranges_from(name, q, i)[k];
                matches_at(name, q, r.0) && r.1 == r.0 + q.len()
            },
    decreases name.len() - i,
{
    let all = match_ranges_from(name, q, i);
    if q.len() == 0 || i + q.len() > name.len() {
    } else if matches_at(name, q, i) {
        lemma_ranges_are_occurrences(name, q, i + q.len());
        let rest = match_ranges_from(name, q, i + q.len());
        assert(all == seq![(i, i + q.len())] + rest);
        assert forall|k: int| 0 <= k < all.len() implies {
            let r = #[trigger] all[k];
            matches_at(name, q, r.0) && r.1 == r.0 + q.len()
        } by {
            if k > 0 {
                assert(all[k] == rest[k - 1]);
            }
        }
    } else {
        lemma_ranges_are_occurrences(name, q, i + 1);
        assert(all == match_ranges_from(name, q, i + 1));
    }
}

/// What search highlights: each highlighted range is an occurrence of the
/// query in the name, character by character equal in lowercase (so
/// ignoring case), and the ranges come left to right without overlapping.
pub proof fn lemma_match_ranges_are_occurrences(name: Seq<char>, q: Seq<char>)
    ensures
        forall|k: int|
            0 <= k < match_ranges(name, q).len() ==> {
                let r = #[trigger] match_ranges(name, q)[k];
                &&& r.1 == r.0 + q.len()
                &&& 0 <= r.0 && r.1 <= name.len()
                &&& forall|m: int| 0 <= m < q.len() ==> #[trigger] folded(name[r.0 + m]) == folded(q[m])
            },
        ordered_within(match_ranges(name, q), 0, name.len() as int),
{
    let nf = fold_all(name);
    let qf = fold_all(q);
    lemma_ranges_are_occurrences(nf, qf, 0);
    lemma_ranges_ordered(nf, qf, 0);
    let rs = match_ranges(name, q);
    assert forall|k: int| 0 <= k < rs.len() implies {
        let r = #[trigger] rs[k];
        &&& r.1 == r.0 + q.len()
        &&& 0 <= r.0 && r.1 <= name.len()
        &&& forall|m: int| 0 <= m < q.len() ==> #[trigger] folded(name[r.0 + m]) == folded(q[m])
    } by {
        let r = rs[k];
        assert(matches_at(nf, qf, r.0));
        assert forall|m: int| 0 <= m < q.len() implies #[trigger] folded(name[r.0 + m]) == folded(q[m]) by {
            assert(nf[r.0 + m] == qf[m]);
        }
    }
}

/// Pieces as mathematical text.
pub open spec fn piece_texts(segs: Seq<(String, bool)>) -> Seq<(Seq<char>, bool)> {
    segs.map_values(|p: (String, bool)| (p.0@, p.1))
}

proof fn lemma_piece_texts_push(segs: Seq<(String, bool)>, p: (String, bool))
    ensures
        piece_texts(segs.push(p)) == piece_texts(segs).push((p.0@, p.1)),
{
    assert(piece_texts(segs.push(p)) =~= piece_texts(segs).push((p.0@, p.1)));
}

/// `name` cut into pieces for highlighting `query` (see `name_pieces`).
pub fn name_segments(name: &str, query: &str) -> (segs: Vec<(String, bool)>)
    ensures
        piece_texts(segs@) == name_pieces(name@, query@),
{
    let ranges = name_match_ranges(name, query);
    let n = chars_of(name);
    let mut segs: Vec<(String, bool)> = Vec::new();
    let ghost rs = match_ranges(name@, query@);
    assert(piece_texts(segs@) =~= Seq::<(Seq<char>, bool)>::empty());
    if ranges.len() == 0 {
        let whole = name.to_owned();
        proof {
            lemma_piece_texts_push(segs@, (whole, false));
        }
        segs.push((whole, false));
        return segs;
    }
    proof {
        lemma_ranges_ordered(fold_all(name@), fold_all(query@), 0);
    }
    let mut last: usize = 0;
    let mut k: usize = 0;
    while k < ranges.len()
        invariant
            k <= ranges@.len(),
            n@ == name@,
            rs == match_ranges(name@, query@),
            positions(ranges@) == rs,
            ordered_within(rs, 0, name@.len() as int),
            k > 0 ==> last as int == rs[k - 1].1,
            k == 0 ==> last == 0,
            last <= n@.len(),
            piece_texts(segs@) + pieces_from(name@, rs, k as int, last as int) == pieces_from(name@, rs, 0, 0),
        decreases ranges@.len() - k,
    {
        let (start, end) = ranges[k];
        assert(rs[k as int] == (start as int, end as int));
        proof {
            if k > 0 {
                assert(rs[k - 1].1 <= rs[k as int].0);
            }
        }
        let ghost before = piece_texts(segs@);
        let ghost gap: Seq<(Seq<char>, bool)> =
            if start > last { seq![(name@.subrange(last as int, start as int), false)] } else { Seq::empty() };
        if start > last {
            let t = string_of(&n, last, start);
            proof {
                lemma_piece_texts_push(segs@, (t, false));
            }
            segs.push((t, false));
        }
        assert(piece_texts(segs@) == before + gap);
        let m = string_of(&n, start, end);
        proof {
            lemma_piece_texts_push(segs@, (m, true));
        }
        segs.push((m, true));
        assert(piece_texts(segs@) =~= before + gap + seq![(name@.subrange(start as int, end as int), true)]);
        assert(pieces_from(name@, rs, k as int, last as int)
            == gap + seq![(name@.subrange(start as int, end as int), true)] + pieces_from(name@, rs, k + 1, end as int));
        assert(before + pieces_from(name@, rs, k as int, last as int) =~=
            (before + gap + seq![(name@.subrange(start as int, end as int), true)]) + pieces_from(name@, rs, k + 1, end as int));
        last = end;
        k = k + 1;
    }
    let ghost before = piece_texts(segs@);
    if last < n.len() {
        let t = string_of(&n, last, n.len());
        proof {
            lemma_piece_texts_push(segs@, (t, false));
        }
        segs.push((t, false));
    }
    assert(piece_texts(segs@) =~= before + pieces_from(name@, rs, k as int, last as int));
    segs
}

/// How a name is drawn.
#[derive(Debug, Clone, Copy, PartialEq, Eq, Structural)]
pub enum NameStyle {
    /// The selected row.
    Selected,
    /// The directory the navigator was started in.
    Startup,
    /// The root of the tree.
    Root,
    /// Another directory.
    Directory,
    /// Another file.
    File,
}

/// How the name of a row showing `node` is drawn.
pub fn name_style(app: &App, node: &FileNode, is_selected: bool) -> (st: NameStyle)
    ensures
        st == if is_selected {
            NameStyle::Selected
        } else if node.path@ == app.startup_path@ {
            NameStyle::Startup
        } else if node.path@ == app.root.path@ {
            NameStyle::Root
        } else if node.is_dir {
            NameStyle::Directory
        } else {
            NameStyle::File
        },
{
    if is_selected {
        NameStyle::Selected
    } else if node.path.same_as(&app.startup_path) {
        NameStyle::Startup
    } else if node.path.same_as(&app.root.path) {
        NameStyle::Root
    } else if node.is_dir {
        NameStyle::Directory
    } else {
        NameStyle::File
    }
}

/// How a history entry for the path `p` is shown: `~/` and the rest of its
/// text when it is under the home directory `home`, else its whole text.
pub open spec fn home_relative_text(p: TreePath, home: TreePath) -> Seq<char> {
    if path_starts_with(p@, home@) {
        "~/"@ + remainder_text(p.text@, home@.1.len())
    } else {
        p.text@
    }
}

/// The text shown for a history entry.
pub fn history_display_path(path: &TreePath, home: &TreePath) -> (s: String)
    ensures
        s@ == home_relative_text(*path, *home),
{
    if !path.starts_with(home) {
        return path.to_text();
    }
    let mut s = String::new();
    s.append("~/");
    let rest = remainder_of(path.text.as_str(), home.parts.len());
    s.append(rest.as_str());
    s
}

/// The digit `d`.
pub open spec fn digit_char(d: int) -> char {
    if d == 0 { '0' } else if d == 1 { '1' } else if d == 2 { '2' } else if d == 3 { '3' } else if d == 4 { '4' }
    else if d == 5 { '5' } else if d == 6 { '6' } else if d == 7 { '7' } else if d == 8 { '8' } else { '9' }
}

/// The decimal digits of `n`.
pub open spec fn decimal_text(n: nat) -> Seq<char>
    decreases n,
{
    if n < 10 { seq![digit_char(n as int)] } else { decimal_text(n / 10).push(digit_char((n % 10) as int)) }
}

fn digit(d: usize) -> (c: char)
    requires
        d < 10,
    ensures
        c == digit_char(d as int),
{
    if d == 0 { '0' } else if d == 1 { '1' } else if d == 2 { '2' } else if d == 3 { '3' } else if d == 4 { '4' }
    else if d == 5 { '5' } else if d == 6 { '6' } else if d == 7 { '7' } else if d == 8 { '8' } else { '9' }
}

/// `n` written in decimal.
pub fn decimal(n: usize) -> (s: String)
    ensures
        s@ == decimal_text(n as nat),
    decreases n,
{
    if n < 10 {
        let mut s = String::new();
        push_char(&mut s, digit(n));
        assert(s@ =~= seq![digit_char(n as int)]);
        s
    } else {
        let mut s = decimal(n / 10);
        push_char(&mut s, digit(n % 10));
        s
    }
}

/// The count shown after a directory's name: ` 📂d 📄f`, leaving out a zero
/// count; nothing when both are zero.
pub open spec fn count_label(dirs: nat, files: nat) -> Option<Seq<char>> {
    if dirs == 0 && files == 0 {
        None
    } else if files == 0 {
        Some(" 📂"@ + decimal_text(dirs))
    } else if dirs == 0 {
        Some(" 📄"@ + decimal_text(files))
    } else {
        Some(" 📂"@ + decimal_text(dirs) + " 📄"@ + decimal_text(files))
    }
}

/// The count shown after a directory's name.
pub fn child_count_label(dirs: usize, files: usize) -> (l: Option<String>)
    ensures
        match l {
            Some(s) => count_label(dirs as nat, files as nat) == Some(s@),
            None => count_label(dirs as nat, files as nat) is None,
        },
{
    if dirs == 0 && files == 0 {
        return None;
    }
    let mut s = String::new();
    if dirs > 0 {
        s.append(" 📂");
        let d = decimal(dirs);
        s.append(d.as_str());
    }
    if files > 0 {
        s.append(" 📄");
        let f = decimal(files);
        s.append(f.as_str());
    }
    proof {
        reveal_strlit(" 📂");
        reveal_strlit(" 📄");
    }
    Some(s)
}

/// The number of a history row `i` (counting from 1), right-aligned in three
/// columns, then a space.
pub open spec fn index_label(i: nat) -> Seq<char> {
    let d = decimal_text(i + 1);
    spaces(sat_sub(3, d.len() as int)) + d + seq![' ']
}

/// The number shown in front of history row `i`.
pub fn history_index_label(i: usize) -> (s: String)
    requires
        i < usize::MAX,
    ensures
        s@ == index_label(i as nat),
{
    let d = decimal(i + 1);
    let n = d.unicode_len();
    let pad: usize = if n < 3 { 3 - n } else { 0 };
    let mut s = String::new();
    let mut k: usize = 0;
    while k < pad
        invariant
            k <= pad,
            s@ == spaces(k as int),
        decreases pad - k,
    {
        push_char(&mut s, ' ');
        assert(spaces(k + 1) =~= spaces(k as int).push(' '));
        k = k + 1;
    }
    s.append(d.as_str());
    push_char(&mut s, ' ');
    s
}

} // verus!
