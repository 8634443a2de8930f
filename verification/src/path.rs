use vstd::prelude::*;
use crate::text::push_char;
use crate::pathtext::{pushed_text, push_text, parent_text, parent_of};

verus! {

/// A filesystem path: its text as written, and the root flag and names
/// that it is compared by.
///
/// `"/home/user/"` is `{ absolute: true, parts: ["home", "user"], text:
/// "/home/user/" }`. Empty names and `"."` names are dropped from the parts,
/// as `std::path` does when it compares paths by their components; the text
/// is kept as it is, as `std::path` shows it.
#[derive(Debug, Clone, Eq)]
pub struct TreePath {
    pub absolute: bool,
    pub parts: Vec<String>,
    pub text: String,
}

impl PartialEq for TreePath {
    fn eq(&self, other: &Self) -> (r: bool) {
        self.same_as(other)
    }
}

impl vstd::std_specs::cmp::PartialEqSpecImpl for TreePath {
    open spec fn obeys_eq_spec() -> bool {
        true
    }

    open spec fn eq_spec(&self, other: &Self) -> bool {
        self@ == other@
    }
}

/// Abstract value of a path: whether it starts at the root, and its names.
pub type PathView = (bool, Seq<Seq<char>>);

impl View for TreePath {
    type V = PathView;

    open spec fn view(&self) -> PathView {
        (self.absolute, self.parts@.map_values(|p: String| p@))
    }
}

/// Adds the name collected so far, unless it is empty or `"."`.
pub open spec fn flush_part(parts: Seq<Seq<char>>, cur: Seq<char>) -> Seq<Seq<char>> {
    if cur.len() == 0 || cur == seq!['.'] {
        parts
    } else {
        parts.push(cur)
    }
}

/// The names of `s[i..]`, given the names `parts` and the partial name `cur`
/// collected from `s[..i]`.
pub open spec fn split_names_from(s: Seq<char>, i: int, parts: Seq<Seq<char>>, cur: Seq<char>) -> Seq<Seq<char>>
    decreases s.len() - i,
{
    if i >= s.len() {
        flush_part(parts, cur)
    } else if s[i] == '/' {
        split_names_from(s, i + 1, flush_part(parts, cur), Seq::empty())
    } else {
        split_names_from(s, i + 1, parts, cur.push(s[i]))
    }
}

/// The names of the text `s`: its `/`-separated fields, without empty and `"."` fields.
pub open spec fn split_names(s: Seq<char>) -> Seq<Seq<char>> {
    split_names_from(s, 0, Seq::empty(), Seq::empty())
}

/// The path that the text `s` denotes.
pub open spec fn parse_path(s: Seq<char>) -> PathView {
    (s.len() > 0 && s[0] == '/', split_names(s))
}

/// A path by its names and its text.
pub type PathAndText = (PathView, Seq<char>);

/// The names and the text of a path.
pub open spec fn whole(p: TreePath) -> PathAndText {
    (p@, p.text@)
}

/// The path `p` with `name` joined to it, names and text.
pub open spec fn joined(p: PathAndText, name: Seq<char>) -> PathAndText {
    (path_push(p.0, name), pushed_text(p.1, name))
}

/// The path `p` with `name` joined to it: an absolute `name` replaces it,
/// otherwise the names of `name` follow those of `p`.
pub open spec fn path_push(p: PathView, name: Seq<char>) -> PathView {
    if name.len() > 0 && name[0] == '/' {
        parse_path(name)
    } else {
        (p.0, p.1 + split_names(name))
    }
}

/// The path without its last name, if it has one.
pub open spec fn path_parent(p: PathView) -> Option<PathView> {
    if p.1.len() == 0 {
        None
    } else {
        Some((p.0, p.1.drop_last()))
    }
}

/// The last name of the path, if it has one; a final `..` is no name.
pub open spec fn path_file_name(p: PathView) -> Option<Seq<char>> {
    if p.1.len() == 0 || p.1.last() == seq!['.', '.'] {
        None
    } else {
        Some(p.1.last())
    }
}

/// Whether `base` is `p` or an ancestor of `p`, name by name.
pub open spec fn path_starts_with(p: PathView, base: PathView) -> bool {
    p.0 == base.0 && base.1.len() <= p.1.len() && p.1.subrange(0, base.1.len() as int) == base.1
}

/// The paths from `base` (exclusive) down to `target` (inclusive), one name at a time.
pub open spec fn descent_steps(base: PathView, target: PathView) -> Seq<PathView> {
    Seq::new(
        (target.1.len() - base.1.len()) as nat,
        |k: int| (target.0, target.1.subrange(0, base.1.len() + k + 1)),
    )
}

impl TreePath {
    /// Reads a path from its text.
    pub fn new(text: &str) -> (p: TreePath)
        ensures
            p@ == parse_path(text@),
            p.text@ == text@,
    {
        let chars = crate::text::chars_of(text);
        let mut parts: Vec<String> = Vec::new();
        let mut cur = String::new();
        let mut i: usize = 0;
        let ghost s = text@;
        assert(parts@.map_values(|p: String| p@) =~= Seq::<Seq<char>>::empty());
        while i < chars.len()
            invariant
                chars@ == s,
                i <= s.len(),
                split_names_from(s, i as int, parts@.map_values(|p: String| p@), cur@) == split_names(s),
            decreases s.len() - i,
        {
            let c = chars[i];
            if c == '/' {
                Self::flush(&mut parts, cur);
                cur = String::new();
            } else {
                push_char(&mut cur, c);
            }
            i = i + 1;
        }
        Self::flush(&mut parts, cur);
        let absolute = chars.len() > 0 && chars[0] == '/';
        TreePath { absolute, parts, text: text.to_owned() }
    }

    fn flush(parts: &mut Vec<String>, cur: String)
        ensures
            final(parts)@.map_values(|p: String| p@) == flush_part(old(parts)@.map_values(|p: String| p@), cur@),
    {
        let ghost before = old(parts)@;
        let n = cur.unicode_len();
        let is_dot = n == 1 && cur.as_str().get_char(0) == '.';
        if n != 0 && !is_dot {
            parts.push(cur);
            assert(parts@.map_values(|p: String| p@) =~= before.map_values(|p: String| p@).push(cur@));
        } else {
            assert(cur@.len() == 0 || cur@ =~= seq!['.']);
        }
    }
}


impl TreePath {
    /// An exact copy of the path.
    pub fn duplicate(&self) -> (p: TreePath)
        ensures
            p@ == self@,
            p.text@ == self.text@,
    {
        let mut parts: Vec<String> = Vec::new();
        let mut i: usize = 0;
        while i < self.parts.len()
            invariant
                i <= self.parts@.len(),
                parts@.map_values(|p: String| p@) == self.parts@.take(i as int).map_values(|p: String| p@),
            decreases self.parts@.len() - i,
        {
            let ghost before = parts@.map_values(|p: String| p@);
            parts.push(self.parts[i].clone());
            assert(parts@.map_values(|p: String| p@) =~= before.push(self.parts@[i as int]@));
            assert(self.parts@.take(i + 1) == self.parts@.take(i as int).push(self.parts@[i as int]));
            i = i + 1;
        }
        assert(self.parts@.take(i as int) == self.parts@);
        TreePath { absolute: self.absolute, parts, text: self.text.as_str().to_owned() }
    }

    /// Whether both paths have the same root flag and the same names.
    pub fn same_as(&self, other: &TreePath) -> (b: bool)
        ensures
            b == (self@ == other@),
    {
        if self.absolute != other.absolute || self.parts.len() != other.parts.len() {
            proof {
                if self@ == other@ {
                    assert(self@.1.len() == other@.1.len());
                }
            }
            return false;
        }
        let mut i: usize = 0;
        while i < self.parts.len()
            invariant
                i <= self.parts@.len(),
                self.parts@.len() == other.parts@.len(),
                forall|j: int| 0 <= j < i ==> self.parts@[j]@ == other.parts@[j]@,
            decreases self.parts@.len() - i,
        {
            if self.parts[i] != other.parts[i] {
                assert(self@.1[i as int] != other@.1[i as int]);
                return false;
            }
            i = i + 1;
        }
        assert(self@.1 =~= other@.1);
        true
    }

    /// The text of the path, as written.
    pub fn to_text(&self) -> (t: String)
        ensures
            t@ == self.text@,
    {
        self.text.as_str().to_owned()
    }

    /// The path without its last name; `None` when it has no name. Its
    /// text is the one that `Path::parent` gives.
    pub fn parent(&self) -> (p: Option<TreePath>)
        ensures
            p matches Some(q) ==> path_parent(self@) == Some(q@) && q.text@ == parent_text(self.text@),
            p is None <==> path_parent(self@) is None,
    {
        if self.parts.len() == 0 {
            return None;
        }
        let mut q = self.duplicate();
        q.parts.pop();
        q.text = parent_of(self.text.as_str());
        assert(q@.1 =~= self@.1.drop_last());
        Some(q)
    }

    /// The last name of the path; `None` when it has no name.
    pub fn file_name(&self) -> (n: Option<String>)
        ensures
            n matches Some(s) ==> path_file_name(self@) == Some(s@),
            n is None <==> path_file_name(self@) is None,
    {
        let len = self.parts.len();
        if len == 0 {
            return None;
        }
        let last = crate::text::chars_of(self.parts[len - 1].as_str());
        if last.len() == 2 && last[0] == '.' && last[1] == '.' {
            assert(last@ =~= seq!['.', '.']);
            None
        } else {
            Some(self.parts[len - 1].clone())
        }
    }

    /// The path with `name` joined to it, as `Path::join` makes it.
    pub fn child(&self, name: &str) -> (p: TreePath)
        ensures
            p@ == path_push(self@, name@),
            p.text@ == pushed_text(self.text@, name@),
    {
        let named = TreePath::new(name);
        let text = push_text(self.text.as_str(), name);
        if named.absolute {
            return TreePath { absolute: true, parts: named.parts, text };
        }
        let mut q = self.duplicate();
        let mut i: usize = 0;
        let ghost base = q.parts@.map_values(|p: String| p@);
        while i < named.parts.len()
            invariant
                i <= named.parts@.len(),
                q.absolute == self.absolute,
                base == self@.1,
                q.parts@.map_values(|p: String| p@) == base + named@.1.take(i as int),
            decreases named.parts@.len() - i,
        {
            let ghost before = q.parts@.map_values(|p: String| p@);
            q.parts.push(named.parts[i].clone());
            assert(q.parts@.map_values(|p: String| p@) =~= before.push(named@.1[i as int]));
            assert(named@.1.take(i + 1) =~= named@.1.take(i as int).push(named@.1[i as int]));
            i = i + 1;
        }
        assert(named@.1.take(i as int) =~= named@.1);
        q.text = text;
        q
    }

    /// Whether `base` is this path or one of its ancestors.
    pub fn starts_with(&self, base: &TreePath) -> (b: bool)
        ensures
            b == path_starts_with(self@, base@),
    {
        if self.absolute != base.absolute || base.parts.len() > self.parts.len() {
            return false;
        }
        let mut i: usize = 0;
        while i < base.parts.len()
            invariant
                i <= base.parts@.len(),
                base.parts@.len() <= self.parts@.len(),
                forall|j: int| 0 <= j < i ==> self.parts@[j]@ == base.parts@[j]@,
            decreases base.parts@.len() - i,
        {
            if self.parts[i] != base.parts[i] {
                assert(self@.1.subrange(0, base@.1.len() as int)[i as int] != base@.1[i as int]);
                return false;
            }
            i = i + 1;
        }
        assert(self@.1.subrange(0, base@.1.len() as int) =~= base@.1);
        true
    }

    /// The paths met when walking from `base` down to this path, one name at a
    /// time: `base/n1`, `base/n1/n2`, ..., up to this path itself.
    pub fn descent_from(&self, base: &TreePath) -> (steps: Vec<TreePath>)
        requires
            path_starts_with(self@, base@),
        ensures
            steps@.map_values(|p: TreePath| p@) == descent_steps(base@, self@),
    {
        let mut steps: Vec<TreePath> = Vec::new();
        let mut cur = base.duplicate();
        let mut i: usize = base.parts.len();
        let ghost target = self@;
        while i < self.parts.len()
            invariant
                path_starts_with(target, base@),
                target == self@,
                base@.1.len() <= i <= target.1.len(),
                cur@ == (target.0, target.1.subrange(0, i as int)),
                steps@.map_values(|p: TreePath| p@) == descent_steps(base@, target).take(i - base@.1.len()),
            decreases target.1.len() - i,
        {
            let ghost before = cur@.1;
            cur.parts.push(self.parts[i].clone());
            cur.text = push_text(cur.text.as_str(), self.parts[i].as_str());
            assert(cur@.1 =~= before.push(target.1[i as int]));
            assert(cur@.1 =~= target.1.subrange(0, i + 1));
            let step = cur.duplicate();
            let ghost before = steps@.map_values(|p: TreePath| p@);
            steps.push(step);
            assert(steps@.map_values(|p: TreePath| p@) =~= before.push(step@));
            assert(descent_steps(base@, target).take(i + 1 - base@.1.len()) =~=
                descent_steps(base@, target).take(i - base@.1.len()).push((target.0, target.1.subrange(0, i + 1))));
            i = i + 1;
        }
        assert(descent_steps(base@, target).take(i - base@.1.len()) =~= descent_steps(base@, target));
        steps
    }
}
} // verus!
