use vstd::prelude::*;
use crate::text::{chars_of, push_char, string_of};

verus! {

/// The text of a path after `name` is joined to the path written `t`, as
/// `PathBuf::push` writes it: an absolute `name` replaces the path;
/// otherwise a `/` goes between them unless `t` is empty or already ends
/// with one.
pub open spec fn pushed_text(t: Seq<char>, name: Seq<char>) -> Seq<char> {
    if name.len() > 0 && name[0] == '/' {
        name
    } else if t.len() == 0 || t[t.len() - 1] == '/' {
        t + name
    } else {
        t + seq!['/'] + name
    }
}

/// The path text `t` with `name` joined to it.
pub fn push_text(t: &str, name: &str) -> (r: String)
    ensures
        r@ == pushed_text(t@, name@),
{
    let n = chars_of(name);
    if n.len() > 0 && n[0] == '/' {
        return name.to_owned();
    }
    let tc = chars_of(t);
    let mut r = t.to_owned();
    if tc.len() > 0 && tc[tc.len() - 1] != '/' {
        push_char(&mut r, '/');
    }
    r.append(name);
    r
}

/// How much of the text `t` comes before its first name: the root `/` of an
/// absolute path, or the `.` that starts `./...`.
pub open spec fn root_len(t: Seq<char>) -> int {
    if t.len() > 0 && t[0] == '/' {
        1
    } else if t.len() > 0 && t[0] == '.' && (t.len() == 1 || t[1] == '/') {
        1
    } else {
        0
    }
}

/// Whether a piece between separators names nothing (empty, or `.`).
pub open spec fn is_filler(c: Seq<char>) -> bool {
    c.len() == 0 || c == seq!['.']
}

/// The position of the last `/` before position `e`; -1 when there is none.
pub open spec fn last_sep_before(t: Seq<char>, e: int) -> int
    decreases e,
{
    if e <= 0 {
        -1
    } else if t[e - 1] == '/' {
        e - 1
    } else {
        last_sep_before(t, e - 1)
    }
}

pub proof fn lemma_last_sep_before(t: Seq<char>, e: int)
    requires
        0 <= e <= t.len(),
    ensures
        -1 <= last_sep_before(t, e) < e,
        last_sep_before(t, e) >= 0 ==> t[last_sep_before(t, e)] == '/',
    decreases e,
{
    if e > 0 && t[e - 1] != '/' {
        lemma_last_sep_before(t, e - 1);
    }
}

/// The end of `t[lo..e]` once the pieces that name nothing are taken off its
/// end, with their separators (what `Path` does to a path's end).
pub open spec fn back_end(t: Seq<char>, lo: int, e: int) -> int
    decreases e - lo,
{
    if e <= lo || e > t.len() || lo < 0 {
        e
    } else {
        proof {
            lemma_last_sep_before(t, e);
        }
        let k = last_sep_before(t, e);
        let start = if k >= lo { k + 1 } else { lo };
        let ne = if k >= lo { k } else { lo };
        if is_filler(t.subrange(start, e)) {
            back_end(t, lo, ne)
        } else {
            e
        }
    }
}

/// The position of the first `/` at or after `i`; the length when there is none.
pub open spec fn next_sep_from(t: Seq<char>, i: int) -> int
    decreases t.len() - i,
{
    if i >= t.len() {
        t.len() as int
    } else if t[i] == '/' {
        i
    } else {
        next_sep_from(t, i + 1)
    }
}

pub proof fn lemma_next_sep_from(t: Seq<char>, i: int)
    requires
        0 <= i <= t.len(),
    ensures
        i <= next_sep_from(t, i) <= t.len(),
        next_sep_from(t, i) < t.len() ==> t[next_sep_from(t, i)] == '/',
    decreases t.len() - i,
{
    if i < t.len() && t[i] != '/' {
        lemma_next_sep_from(t, i + 1);
    }
}

/// The start of `t[i..]` once the pieces that name nothing are taken off its
/// front, with their separators.
pub open spec fn front_start(t: Seq<char>, i: int) -> int
    decreases t.len() - i,
{
    if i < 0 || i >= t.len() {
        i
    } else {
        proof {
            lemma_next_sep_from(t, i);
        }
        let j = next_sep_from(t, i);
        let next = if j < t.len() { j + 1 } else { j };
        if is_filler(t.subrange(i, j)) {
            front_start(t, next)
        } else {
            i
        }
    }
}

/// The position in `t` after `k` names read from position `i` on (pieces
/// that name nothing are passed over without counting).
pub open spec fn skip_names(t: Seq<char>, i: int, k: nat) -> int
    decreases t.len() - i,
{
    if k == 0 || i < 0 || i >= t.len() {
        i
    } else {
        proof {
            lemma_next_sep_from(t, i);
        }
        let j = next_sep_from(t, i);
        let next = if j < t.len() { j + 1 } else { j };
        if is_filler(t.subrange(i, j)) {
            skip_names(t, next, k)
        } else {
            skip_names(t, next, (k - 1) as nat)
        }
    }
}

/// What is left of the path written `t` after its root and first `k` names,
/// as `Path::strip_prefix` gives it: that part of the text, without the
/// separators and `.` pieces at either end.
pub open spec fn remainder_text(t: Seq<char>, k: nat) -> Seq<char> {
    let a = front_start(t, skip_names(t, root_len(t), k));
    t.subrange(a, back_end(t, a, t.len() as int))
}

/// The text of the parent of the path written `t`, as `Path::parent` gives
/// it: the text up to its last name, without the separators and `.` pieces
/// at the end of either.
pub open spec fn parent_text(t: Seq<char>) -> Seq<char> {
    let lo = root_len(t);
    let e1 = back_end(t, lo, t.len() as int);
    let k = last_sep_before(t, e1);
    let e2 = if k >= lo { k } else { lo };
    t.subrange(0, back_end(t, lo, e2))
}

fn find_last_sep(t: &Vec<char>, e: usize) -> (r: Option<usize>)
    requires
        e <= t@.len(),
    ensures
        match r {
            Some(k) => last_sep_before(t@, e as int) == k,
            None => last_sep_before(t@, e as int) == -1,
        },
{
    let mut j = e;
    while j > 0
        invariant
            j <= e <= t@.len(),
            last_sep_before(t@, j as int) == last_sep_before(t@, e as int),
        decreases j,
    {
        if t[j - 1] == '/' {
            return Some(j - 1);
        }
        j = j - 1;
    }
    None
}

fn filler(t: &Vec<char>, a: usize, b: usize) -> (r: bool)
    requires
        a <= b <= t@.len(),
    ensures
        r == is_filler(t@.subrange(a as int, b as int)),
{
    if b == a {
        return true;
    }
    if b == a + 1 && t[a] == '.' {
        assert(t@.subrange(a as int, b as int) =~= seq!['.']);
        return true;
    }
    assert(t@.subrange(a as int, b as int).len() == b - a);
    if b == a + 1 {
        assert(t@.subrange(a as int, b as int)[0] != seq!['.'][0]);
    }
    false
}

fn back_end_of(t: &Vec<char>, lo: usize, e: usize) -> (r: usize)
    requires
        lo <= e <= t@.len(),
    ensures
        r == back_end(t@, lo as int, e as int),
        lo <= r <= e,
{
    let mut cur = e;
    while cur > lo
        invariant
            lo <= cur <= e <= t@.len(),
            back_end(t@, lo as int, cur as int) == back_end(t@, lo as int, e as int),
        decreases cur,
    {
        proof {
            lemma_last_sep_before(t@, cur as int);
        }
        let k = find_last_sep(t, cur);
        let (start, ne) = match k {
            Some(x) => if x >= lo { (x + 1, x) } else { (lo, lo) },
            None => (lo, lo),
        };
        if !filler(t, start, cur) {
            return cur;
        }
        cur = ne;
    }
    cur
}

fn next_sep(t: &Vec<char>, i: usize) -> (j: usize)
    requires
        i <= t@.len(),
    ensures
        j == next_sep_from(t@, i as int),
{
    let mut j = i;
    while j < t.len() && t[j] != '/'
        invariant
            i <= j <= t@.len(),
            next_sep_from(t@, j as int) == next_sep_from(t@, i as int),
        decreases t@.len() - j,
    {
        j = j + 1;
    }
    j
}

fn front_start_of(t: &Vec<char>, i: usize) -> (r: usize)
    requires
        i <= t@.len(),
    ensures
        r == front_start(t@, i as int),
        i <= r <= t@.len(),
{
    let mut cur = i;
    while cur < t.len()
        invariant
            i <= cur <= t@.len(),
            front_start(t@, cur as int) == front_start(t@, i as int),
        decreases t@.len() - cur,
    {
        proof {
            lemma_next_sep_from(t@, cur as int);
        }
        let j = next_sep(t, cur);
        let next = if j < t.len() { j + 1 } else { j };
        if !filler(t, cur, j) {
            return cur;
        }
        cur = next;
    }
    cur
}

fn skip_names_of(t: &Vec<char>, i: usize, k: usize) -> (r: usize)
    requires
        i <= t@.len(),
    ensures
        r == skip_names(t@, i as int, k as nat),
        i <= r <= t@.len(),
{
    let mut cur = i;
    let mut left = k;
    while left > 0 && cur < t.len()
        invariant
            i <= cur <= t@.len(),
            skip_names(t@, cur as int, left as nat) == skip_names(t@, i as int, k as nat),
        decreases t@.len() - cur,
    {
        proof {
            lemma_next_sep_from(t@, cur as int);
        }
        let j = next_sep(t, cur);
        let next = if j < t.len() { j + 1 } else { j };
        if !filler(t, cur, j) {
            left = left - 1;
        }
        cur = next;
    }
    cur
}

fn root_len_of(t: &Vec<char>) -> (r: usize)
    ensures
        r == root_len(t@),
{
    if t.len() > 0 && t[0] == '/' {
        1
    } else if t.len() > 0 && t[0] == '.' && (t.len() == 1 || t[1] == '/') {
        1
    } else {
        0
    }
}

/// What is left of the path written `t` after its root and first `k` names
/// (see `remainder_text`).
pub fn remainder_of(t: &str, k: usize) -> (r: String)
    ensures
        r@ == remainder_text(t@, k as nat),
{
    let c = chars_of(t);
    let lo = root_len_of(&c);
    let pos = skip_names_of(&c, lo, k);
    let a = front_start_of(&c, pos);
    let b = back_end_of(&c, a, c.len());
    string_of(&c, a, b)
}

/// The text of the parent of the path written `t` (see `parent_text`).
pub fn parent_of(t: &str) -> (r: String)
    ensures
        r@ == parent_text(t@),
{
    let c = chars_of(t);
    let lo = root_len_of(&c);
    let e1 = back_end_of(&c, lo, c.len());
    proof {
        lemma_last_sep_before(c@, e1 as int);
    }
    let e2 = match find_last_sep(&c, e1) {
        Some(k) => if k >= lo { k } else { lo },
        None => lo,
    };
    let e3 = back_end_of(&c, lo, e2);
    string_of(&c, 0, e3)
}

} // verus!
