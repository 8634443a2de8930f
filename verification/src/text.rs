use vstd::prelude::*;

verus! {

/// Appends one character to a string.
/// Trusted: `String::push`, which adds `c` at the end of the text.
#[verifier::external_body]
pub(crate) fn push_char(s: &mut String, c: char)
    ensures
        final(s)@ == old(s)@.push(c),
{
    s.push(c)
}

/// The characters of `s`, in order.
pub fn chars_of(s: &str) -> (v: Vec<char>)
    ensures
        v@ == s@,
{
    let mut v: Vec<char> = Vec::new();
    for c in it: s.chars()
        invariant
            v@ == it.seq().take(it.index() as int),
    {
        v.push(c);
    }
    assert(v@ == s@);
    v
}


/// The text of `chars[from..to]`.
pub fn string_of(chars: &Vec<char>, from: usize, to: usize) -> (s: String)
    requires
        from <= to <= chars@.len(),
    ensures
        s@ == chars@.subrange(from as int, to as int),
{
    let mut s = String::new();
    let mut i = from;
    while i < to
        invariant
            from <= i <= to,
            to <= chars@.len(),
            s@ == chars@.subrange(from as int, i as int),
        decreases to - i,
    {
        push_char(&mut s, chars[i]);
        assert(chars@.subrange(from as int, i + 1) == chars@.subrange(from as int, i as int).push(chars@[i as int]));
        i = i + 1;
    }
    s
}

/// The characters `v[from..to]`.
pub fn sub_chars(v: &Vec<char>, from: usize, to: usize) -> (r: Vec<char>)
    requires
        from <= to <= v@.len(),
    ensures
        r@ == v@.subrange(from as int, to as int),
{
    let mut r: Vec<char> = Vec::new();
    let mut i = from;
    while i < to
        invariant
            from <= i <= to,
            to <= v@.len(),
            r@ == v@.subrange(from as int, i as int),
        decreases to - i,
    {
        r.push(v[i]);
        assert(v@.subrange(from as int, i + 1) == v@.subrange(from as int, i as int).push(v@[i as int]));
        i = i + 1;
    }
    r
}

/// Whether two character sequences are equal.
pub fn same_chars(a: &Vec<char>, b: &Vec<char>) -> (r: bool)
    ensures
        r == (a@ == b@),
{
    if a.len() != b.len() {
        return false;
    }
    let mut i: usize = 0;
    while i < a.len()
        invariant
            i <= a@.len(),
            a@.len() == b@.len(),
            forall|k: int| 0 <= k < i ==> a@[k] == b@[k],
        decreases a@.len() - i,
    {
        if a[i] != b[i] {
            return false;
        }
        i = i + 1;
    }
    assert(a@ =~= b@);
    true
}

/// Whether `c` is white space in Unicode's sense, the set that
/// `char::is_whitespace` and `str::trim` use.
pub open spec fn is_white(c: char) -> bool {
    let v = c as u32;
    ||| 9 <= v <= 13
    ||| v == 32
    ||| v == 0x85
    ||| v == 0xA0
    ||| v == 0x1680
    ||| 0x2000 <= v <= 0x200A
    ||| v == 0x2028
    ||| v == 0x2029
    ||| v == 0x202F
    ||| v == 0x205F
    ||| v == 0x3000
}

/// Whether `c` is white space.
pub fn white(c: char) -> (b: bool)
    ensures
        b == is_white(c),
{
    let v = c as u32;
    (9 <= v && v <= 13) || v == 32 || v == 0x85 || v == 0xA0 || v == 0x1680 || (0x2000 <= v && v <= 0x200A)
        || v == 0x2028 || v == 0x2029 || v == 0x202F || v == 0x205F || v == 0x3000
}

/// The first position at or after `i` that holds no white space (the length
/// when there is none).
pub open spec fn lead_end(s: Seq<char>, i: int) -> int
    decreases s.len() - i,
{
    if i >= s.len() || !is_white(s[i]) {
        i
    } else {
        lead_end(s, i + 1)
    }
}

/// The end of `s[..j]` once its trailing white space is dropped, not going
/// below `from`.
pub open spec fn trail_end(s: Seq<char>, from: int, j: int) -> int
    decreases j - from,
{
    if j <= from || !is_white(s[j - 1]) {
        j
    } else {
        trail_end(s, from, j - 1)
    }
}

/// `s` without the white space at either end.
pub open spec fn trimmed(s: Seq<char>) -> Seq<char> {
    let a = lead_end(s, 0);
    s.subrange(a, trail_end(s, a, s.len() as int))
}

proof fn lemma_lead_end_bounds(s: Seq<char>, i: int)
    requires
        0 <= i <= s.len(),
    ensures
        i <= lead_end(s, i) <= s.len(),
    decreases s.len() - i,
{
    if i < s.len() && is_white(s[i]) {
        lemma_lead_end_bounds(s, i + 1);
    }
}

proof fn lemma_trail_end_bounds(s: Seq<char>, from: int, j: int)
    requires
        0 <= from <= j <= s.len(),
    ensures
        from <= trail_end(s, from, j) <= j,
    decreases j - from,
{
    if j > from && is_white(s[j - 1]) {
        lemma_trail_end_bounds(s, from, j - 1);
    }
}

/// Trimming never makes a text longer.
pub proof fn lemma_trimmed_len(s: Seq<char>)
    ensures
        trimmed(s).len() <= s.len(),
{
    lemma_lead_end_bounds(s, 0);
    lemma_trail_end_bounds(s, lead_end(s, 0), s.len() as int);
}

/// `s` without the white space at either end.
pub fn trim_chars(s: &Vec<char>) -> (t: Vec<char>)
    ensures
        t@ == trimmed(s@),
{
    let mut a: usize = 0;
    while a < s.len() && white(s[a])
        invariant
            a <= s@.len(),
            lead_end(s@, a as int) == lead_end(s@, 0),
        decreases s@.len() - a,
    {
        a = a + 1;
    }
    let mut b: usize = s.len();
    while b > a && white(s[b - 1])
        invariant
            a <= b <= s@.len(),
            a as int == lead_end(s@, 0),
            trail_end(s@, a as int, b as int) == trail_end(s@, a as int, s@.len() as int),
        decreases b,
    {
        b = b - 1;
    }
    sub_chars(s, a, b)
}

/// Whether `needle` occurs in `hay` at position `k`.
pub open spec fn occurs_at(hay: Seq<char>, needle: Seq<char>, k: int) -> bool {
    0 <= k && k + needle.len() <= hay.len() && hay.subrange(k, k + needle.len()) == needle
}

/// Whether `needle` occurs somewhere in `hay`.
pub open spec fn contains_text(hay: Seq<char>, needle: Seq<char>) -> bool {
    exists|k: int| occurs_at(hay, needle, k)
}

fn occurs_here(hay: &Vec<char>, needle: &Vec<char>, k: usize) -> (b: bool)
    requires
        k + needle@.len() <= hay@.len(),
    ensures
        b == occurs_at(hay@, needle@, k as int),
{
    let hl = hay.len();
    let mut m: usize = 0;
    while m < needle.len()
        invariant
            hl == hay@.len(),
            m <= needle@.len(),
            k + needle@.len() <= hay@.len(),
            forall|x: int| 0 <= x < m ==> hay@[k + x] == needle@[x],
        decreases needle@.len() - m,
    {
        if hay[k + m] != needle[m] {
            assert(hay@.subrange(k as int, k + needle@.len())[m as int] != needle@[m as int]);
            return false;
        }
        m = m + 1;
    }
    assert(hay@.subrange(k as int, k + needle@.len()) =~= needle@);
    true
}

/// Whether `needle` occurs in `hay`.
pub fn contains_chars(hay: &Vec<char>, needle: &Vec<char>) -> (b: bool)
    ensures
        b == contains_text(hay@, needle@),
{
    if needle.len() > hay.len() {
        assert forall|k: int| !occurs_at(hay@, needle@, k) by {}
        return false;
    }
    let last = hay.len() - needle.len();
    let mut k: usize = 0;
    while k <= last
        invariant
            last + needle@.len() == hay@.len(),
            forall|x: int| 0 <= x < k ==> !occurs_at(hay@, needle@, x),
        decreases last + 1 - k,
    {
        if occurs_here(hay, needle, k) {
            return true;
        }
        if k == last {
            assert forall|x: int| !occurs_at(hay@, needle@, x) by {}
            return false;
        }
        k = k + 1;
    }
    false
}

/// Whether the text `needle` occurs in the text `hay`.
pub fn str_contains(hay: &str, needle: &str) -> (b: bool)
    ensures
        b == contains_text(hay@, needle@),
{
    let h = chars_of(hay);
    let n = chars_of(needle);
    contains_chars(&h, &n)
}

/// The position of the first `\n` at or after `i`; the length when there is none.
pub open spec fn newline_from(s: Seq<char>, i: int) -> int
    decreases s.len() - i,
{
    if i >= s.len() {
        s.len() as int
    } else if s[i] == '\n' {
        i
    } else {
        newline_from(s, i + 1)
    }
}

pub proof fn lemma_newline_from(s: Seq<char>, i: int)
    requires
        0 <= i <= s.len(),
    ensures
        i <= newline_from(s, i) <= s.len(),
        newline_from(s, i) < s.len() ==> s[newline_from(s, i)] == '\n',
        forall|k: int| i <= k < newline_from(s, i) ==> s[k] != '\n',
    decreases s.len() - i,
{
    if i < s.len() && s[i] != '\n' {
        lemma_newline_from(s, i + 1);
    }
}

/// The line that starts at `i`: the text up to the next `\n`, without the
/// `\r` of a `\r\n` ending.
pub open spec fn line_from(s: Seq<char>, i: int) -> Seq<char> {
    let j = newline_from(s, i);
    if j < s.len() && j > i && s[j - 1] == '\r' {
        s.subrange(i, j - 1)
    } else {
        s.subrange(i, j)
    }
}

/// The lines of `s[i..]`, as `str::lines` reads them: split at each `\n`,
/// a final `\n` ending the last line rather than starting an empty one.
pub open spec fn lines_from(s: Seq<char>, i: int) -> Seq<Seq<char>>
    decreases s.len() - i,
{
    if i < 0 || i >= s.len() {
        Seq::empty()
    } else {
        proof {
            lemma_newline_from(s, i);
        }
        let j = newline_from(s, i);
        seq![line_from(s, i)] + if j < s.len() { lines_from(s, j + 1) } else { Seq::empty() }
    }
}

/// `newline_from` finds the first `\n` at or after `i`.
pub proof fn lemma_newline_at(s: Seq<char>, i: int, e: int)
    requires
        0 <= i <= e < s.len(),
        s[e] == '\n',
        forall|k: int| i <= k < e ==> s[k] != '\n',
    ensures
        newline_from(s, i) == e,
    decreases e - i,
{
    if i < e {
        lemma_newline_at(s, i + 1, e);
    }
}

/// Every line that follows a `\n` is one of the lines.
pub proof fn lemma_line_after_newline(c: Seq<char>, i: int, j: int)
    requires
        0 <= i <= j,
        j + 1 < c.len(),
        c[j] == '\n',
    ensures
        lines_from(c, i).contains(line_from(c, j + 1)),
    decreases j - i,
{
    lemma_newline_from(c, i);
    let nf = newline_from(c, i);
    assert(nf <= j);
    let here = lines_from(c, i);
    assert(here == seq![line_from(c, i)] + lines_from(c, nf + 1));
    if nf == j {
        let next = lines_from(c, j + 1);
        lemma_newline_from(c, j + 1);
        assert(next[0] == line_from(c, j + 1));
        assert(here[1] == next[0]);
    } else {
        lemma_line_after_newline(c, nf + 1, j);
        let next = lines_from(c, nf + 1);
        let k = choose|k: int| 0 <= k < next.len() && next[k] == line_from(c, j + 1);
        assert(here[k + 1] == next[k]);
    }
}

/// The sum, over the lines, of each line's length plus one (its newline).
pub open spec fn lines_measure(ls: Seq<Seq<char>>) -> int
    decreases ls.len(),
{
    if ls.len() == 0 {
        0
    } else {
        lines_measure(ls.drop_last()) + ls.last().len() + 1
    }
}

/// One line counts its length plus one.
pub proof fn lemma_lines_measure_one(x: Seq<char>)
    ensures
        lines_measure(seq![x]) == x.len() + 1,
{
    let one = seq![x];
    assert(one.drop_last() =~= Seq::<Seq<char>>::empty());
    assert(lines_measure(one.drop_last()) == 0);
}

/// `lines_measure` adds up over concatenation.
pub proof fn lemma_lines_measure_concat(a: Seq<Seq<char>>, b: Seq<Seq<char>>)
    ensures
        lines_measure(a + b) == lines_measure(a) + lines_measure(b),
    decreases b.len(),
{
    if b.len() == 0 {
        assert(a + b =~= a);
    } else {
        lemma_lines_measure_concat(a, b.drop_last());
        assert((a + b).drop_last() =~= a + b.drop_last());
    }
}

/// The lines of `c[i..]`, each counted with a newline, take at most one
/// more character than `c[i..]`.
pub proof fn lemma_lines_measure_bound(c: Seq<char>, i: int)
    requires
        0 <= i <= c.len(),
    ensures
        lines_measure(lines_from(c, i)) <= c.len() - i + 1,
    decreases c.len() - i,
{
    if i < c.len() {
        lemma_newline_from(c, i);
        let j = newline_from(c, i);
        let first: Seq<Seq<char>> = seq![line_from(c, i)];
        lemma_lines_measure_one(line_from(c, i));
        if j < c.len() {
            lemma_lines_measure_bound(c, j + 1);
            lemma_lines_measure_concat(first, lines_from(c, j + 1));
        } else {
            assert(lines_from(c, i) =~= first);
        }
    }
}

/// The texts of character vectors.
pub open spec fn texts(v: Seq<Vec<char>>) -> Seq<Seq<char>> {
    v.map_values(|l: Vec<char>| l@)
}

pub proof fn lemma_texts_push(v: Seq<Vec<char>>, x: Vec<char>)
    ensures
        texts(v.push(x)) == texts(v).push(x@),
{
    assert(texts(v.push(x)) =~= texts(v).push(x@));
}

/// The lines of `s` (see `lines_from`).
pub fn split_lines(s: &Vec<char>) -> (ls: Vec<Vec<char>>)
    ensures
        texts(ls@) == lines_from(s@, 0),
{
    let n = s.len();
    let mut out: Vec<Vec<char>> = Vec::new();
    let mut i: usize = 0;
    assert(texts(out@) =~= Seq::<Seq<char>>::empty());
    while i < n
        invariant
            n == s@.len(),
            i <= n,
            texts(out@) + lines_from(s@, i as int) == lines_from(s@, 0),
        decreases n - i,
    {
        proof {
            lemma_newline_from(s@, i as int);
        }
        let mut j = i;
        while j < n && s[j] != '\n'
            invariant
                n == s@.len(),
                i <= j <= n,
                newline_from(s@, j as int) == newline_from(s@, i as int),
            decreases n - j,
        {
            j = j + 1;
        }
        let end = if j < n && j > i && s[j - 1] == '\r' { j - 1 } else { j };
        let line = sub_chars(s, i, end);
        let ghost before = texts(out@);
        proof {
            lemma_texts_push(out@, line);
        }
        out.push(line);
        if j < n {
            assert(before + lines_from(s@, i as int) =~= before.push(line@) + lines_from(s@, j + 1));
            i = j + 1;
        } else {
            assert(before + lines_from(s@, i as int) =~= before.push(line@));
            assert(lines_from(s@, n as int) =~= Seq::<Seq<char>>::empty());
            i = n;
        }
    }
    assert(lines_from(s@, i as int) =~= Seq::<Seq<char>>::empty());
    assert(texts(out@) =~= lines_from(s@, 0));
    out
}

/// The lines joined by `\n`.
pub open spec fn joined_lines(ls: Seq<Seq<char>>) -> Seq<char>
    decreases ls.len(),
{
    if ls.len() == 0 {
        Seq::empty()
    } else if ls.len() == 1 {
        ls[0]
    } else {
        ls[0] + seq!['\n'] + joined_lines(ls.drop_first())
    }
}

pub proof fn lemma_joined_push(ls: Seq<Seq<char>>, x: Seq<char>)
    ensures
        joined_lines(ls.push(x)) == if ls.len() == 0 { x } else { joined_lines(ls) + seq!['\n'] + x },
    decreases ls.len(),
{
    if ls.len() == 0 {
        assert(ls.push(x) =~= seq![x]);
    } else {
        lemma_joined_push(ls.drop_first(), x);
        assert(ls.push(x).drop_first() =~= ls.drop_first().push(x));
        if ls.len() == 1 {
            assert(ls.drop_first() =~= Seq::<Seq<char>>::empty());
        } else {
            assert(joined_lines(ls.push(x)) =~= joined_lines(ls) + seq!['\n'] + x);
        }
    }
}

/// The lines joined by `\n`.
pub fn join_lines(ls: &Vec<Vec<char>>) -> (r: Vec<char>)
    ensures
        r@ == joined_lines(texts(ls@)),
{
    let mut r: Vec<char> = Vec::new();
    let mut k: usize = 0;
    while k < ls.len()
        invariant
            k <= ls@.len(),
            r@ == joined_lines(texts(ls@).take(k as int)),
        decreases ls@.len() - k,
    {
        proof {
            lemma_joined_push(texts(ls@).take(k as int), ls@[k as int]@);
            assert(texts(ls@).take(k + 1) =~= texts(ls@).take(k as int).push(ls@[k as int]@));
        }
        if k > 0 {
            r.push('\n');
        }
        let line = &ls[k];
        let ghost head = r@;
        let mut m: usize = 0;
        while m < line.len()
            invariant
                m <= line@.len(),
                r@ == head + line@.take(m as int),
            decreases line@.len() - m,
        {
            r.push(line[m]);
            assert(line@.take(m + 1) =~= line@.take(m as int).push(line@[m as int]));
            m = m + 1;
        }
        assert(line@.take(m as int) =~= line@);
        k = k + 1;
    }
    assert(texts(ls@).take(k as int) =~= texts(ls@));
    r
}

/// `s` with every run of three or more `\n` shortened to two: a newline is
/// dropped when the text kept before it already ends in two newlines.
pub open spec fn collapsed(s: Seq<char>) -> Seq<char>
    decreases s.len(),
{
    if s.len() == 0 {
        Seq::empty()
    } else {
        let p = collapsed(s.drop_last());
        if s.last() == '\n' && p.len() >= 2 && p[p.len() - 1] == '\n' && p[p.len() - 2] == '\n' {
            p
        } else {
            p.push(s.last())
        }
    }
}

/// The lines joined by `\n` take one character less than their measure.
pub proof fn lemma_joined_len(ls: Seq<Seq<char>>)
    ensures
        joined_lines(ls).len() == if ls.len() == 0 { 0 } else { lines_measure(ls) - 1 },
    decreases ls.len(),
{
    if ls.len() == 1 {
        assert(ls =~= seq![ls[0]]);
        lemma_lines_measure_one(ls[0]);
    } else if ls.len() > 1 {
        lemma_joined_len(ls.drop_first());
        assert(ls =~= seq![ls[0]] + ls.drop_first());
        lemma_lines_measure_concat(seq![ls[0]], ls.drop_first());
        lemma_lines_measure_one(ls[0]);
    }
}

/// `s` with every run of three or more `\n` shortened to two.
pub fn collapse_blank_runs(s: &Vec<char>) -> (r: Vec<char>)
    ensures
        r@ == collapsed(s@),
{
    let mut r: Vec<char> = Vec::new();
    let mut i: usize = 0;
    while i < s.len()
        invariant
            i <= s@.len(),
            r@ == collapsed(s@.take(i as int)),
        decreases s@.len() - i,
    {
        assert(s@.take(i + 1).drop_last() =~= s@.take(i as int));
        let c = s[i];
        let n = r.len();
        if !(c == '\n' && n >= 2 && r[n - 1] == '\n' && r[n - 2] == '\n') {
            r.push(c);
        }
        i = i + 1;
    }
    assert(s@.take(i as int) =~= s@);
    r
}

/// Shortening blank runs never makes a text longer.
pub proof fn lemma_collapsed_len(s: Seq<char>)
    ensures
        collapsed(s).len() <= s.len(),
    decreases s.len(),
{
    if s.len() > 0 {
        lemma_collapsed_len(s.drop_last());
    }
}

/// A text with no white space at either end is its own trimmed form.
pub proof fn lemma_trimmed_plain(s: Seq<char>)
    requires
        s.len() > 0,
        !is_white(s[0]),
        !is_white(s[s.len() - 1]),
    ensures
        trimmed(s) == s,
{
    assert(lead_end(s, 0) == 0);
    assert(trail_end(s, 0, s.len() as int) == s.len());
    assert(s.subrange(0, s.len() as int) =~= s);
}

proof fn lemma_newline_shift(a: Seq<char>, b: Seq<char>, j: int)
    requires
        0 <= j <= b.len(),
    ensures
        newline_from(a + b, a.len() + j) == a.len() + newline_from(b, j),
    decreases b.len() - j,
{
    if j < b.len() && b[j] != '\n' {
        lemma_newline_shift(a, b, j + 1);
    }
}

/// The lines after a prefix `a` are the lines of what follows it.
pub proof fn lemma_lines_shift(a: Seq<char>, b: Seq<char>, j: int)
    requires
        0 <= j,
    ensures
        lines_from(a + b, a.len() + j) == lines_from(b, j),
    decreases b.len() - j,
{
    if j < b.len() {
        lemma_newline_shift(a, b, j);
        lemma_newline_from(b, j);
        let e = newline_from(b, j);
        let s = a + b;
        assert(s.subrange(a.len() + j, a.len() + e) =~= b.subrange(j, e));
        if e > j {
            assert(s.subrange(a.len() + j, a.len() + e - 1) =~= b.subrange(j, e - 1));
            assert(s[a.len() + e - 1] == b[e - 1]);
        }
        assert(line_from(s, a.len() + j) == line_from(b, j));
        if e < b.len() {
            lemma_lines_shift(a, b, e + 1);
        }
    }
}

/// The lines of `a + b`, where `a` ends with a newline, are the lines of
/// `a` followed by the lines of `b`.
pub proof fn lemma_lines_prefix(a: Seq<char>, b: Seq<char>, i: int)
    requires
        a.len() > 0,
        a[a.len() - 1] == '\n',
        0 <= i <= a.len(),
    ensures
        lines_from(a + b, i) == lines_from(a, i) + lines_from(b, 0),
    decreases a.len() - i,
{
    let s = a + b;
    if i == a.len() {
        lemma_lines_shift(a, b, 0);
        assert(lines_from(a, i) =~= Seq::<Seq<char>>::empty());
        assert(lines_from(a, i) + lines_from(b, 0) =~= lines_from(b, 0));
    } else {
        lemma_newline_from(a, i);
        let e = newline_from(a, i);
        assert(e < a.len());
        assert forall|k: int| i <= k < e implies s[k] != '\n' by {
            assert(s[k] == a[k]);
        }
        lemma_newline_at(s, i, e);
        assert(s.subrange(i, e) =~= a.subrange(i, e));
        if e > i {
            assert(s.subrange(i, e - 1) =~= a.subrange(i, e - 1));
        }
        assert(line_from(s, i) == line_from(a, i));
        lemma_lines_prefix(a, b, e + 1);
        assert(lines_from(s, i) == seq![line_from(a, i)] + lines_from(s, e + 1));
        assert(lines_from(a, i) == seq![line_from(a, i)] + lines_from(a, e + 1));
        assert(lines_from(s, i) =~= lines_from(a, i) + lines_from(b, 0));
    }
}

/// A line `x` followed by a newline and `rest` reads as `x`, then the lines
/// of `rest`.
pub proof fn lemma_lines_cons(x: Seq<char>, rest: Seq<char>)
    requires
        forall|k: int| 0 <= k < x.len() ==> x[k] != '\n',
        x.len() == 0 || x[x.len() - 1] != '\r',
    ensures
        lines_from(x + seq!['\n'] + rest, 0) == seq![x] + lines_from(rest, 0),
{
    let a = x + seq!['\n'];
    assert(x + seq!['\n'] + rest == a + rest);
    lemma_lines_prefix(a, rest, 0);
    assert forall|k: int| 0 <= k < x.len() implies a[k] != '\n' by {
        assert(a[k] == x[k]);
    }
    lemma_newline_at(a, 0, x.len() as int);
    assert(a.subrange(0, x.len() as int) =~= x);
    assert(line_from(a, 0) == x);
    assert(lines_from(a, x.len() as int + 1) =~= Seq::<Seq<char>>::empty());
    assert(lines_from(a, 0) =~= seq![x]);
}

} // verus!
