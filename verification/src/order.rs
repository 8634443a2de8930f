use vstd::prelude::*;
use vstd::relations::total_ordering;

verus! {

/// Lexicographic order on texts, character by character (code point order,
/// which is also the order of their UTF-8 bytes).
pub open spec fn chars_lt(a: Seq<char>, b: Seq<char>) -> bool
    decreases a.len(),
{
    if b.len() == 0 {
        false
    } else if a.len() == 0 {
        true
    } else if a[0] != b[0] {
        (a[0] as int) < (b[0] as int)
    } else {
        chars_lt(a.drop_first(), b.drop_first())
    }
}

/// Order of directory entries as `(name, is_dir)`: directories before files,
/// then by name.
pub open spec fn entry_leq(a: (Seq<char>, bool), b: (Seq<char>, bool)) -> bool {
    if a.1 != b.1 {
        a.1
    } else {
        !chars_lt(b.0, a.0)
    }
}

/// A proper beginning of a text comes before it.
pub proof fn lemma_proper_prefix_lt(a: Seq<char>, b: Seq<char>)
    requires
        a.len() < b.len(),
        b.subrange(0, a.len() as int) == a,
    ensures
        chars_lt(a, b),
    decreases a.len(),
{
    if a.len() > 0 {
        assert(b[0] == b.subrange(0, a.len() as int)[0]);
        assert(b.drop_first().subrange(0, a.drop_first().len() as int) =~= a.drop_first()) by {
            assert forall|k: int| 0 <= k < a.len() - 1 implies b.drop_first()[k] == a.drop_first()[k] by {
                assert(b.subrange(0, a.len() as int)[k + 1] == b[k + 1]);
            }
        }
        lemma_proper_prefix_lt(a.drop_first(), b.drop_first());
    }
}

proof fn lemma_chars_lt_irreflexive(a: Seq<char>)
    ensures
        !chars_lt(a, a),
    decreases a.len(),
{
    if a.len() > 0 {
        lemma_chars_lt_irreflexive(a.drop_first());
    }
}

proof fn lemma_chars_lt_transitive(a: Seq<char>, b: Seq<char>, c: Seq<char>)
    requires
        chars_lt(a, b),
        chars_lt(b, c),
    ensures
        chars_lt(a, c),
    decreases a.len(),
{
    if a.len() > 0 && b.len() > 0 && c.len() > 0 {
        if a[0] == b[0] && b[0] == c[0] {
            lemma_chars_lt_transitive(a.drop_first(), b.drop_first(), c.drop_first());
        }
    }
}

proof fn lemma_chars_lt_total(a: Seq<char>, b: Seq<char>)
    ensures
        a == b || chars_lt(a, b) || chars_lt(b, a),
    decreases a.len(),
{
    if a.len() > 0 && b.len() > 0 {
        if a[0] == b[0] {
            lemma_chars_lt_total(a.drop_first(), b.drop_first());
            if a.drop_first() == b.drop_first() {
                assert(a =~= seq![a[0]] + a.drop_first());
                assert(b =~= seq![b[0]] + b.drop_first());
            }
        } else {
            assert((a[0] as int) != (b[0] as int));
        }
    } else if a.len() == 0 && b.len() == 0 {
        assert(a =~= b);
    }
}

/// `entry_leq` is a total order.
pub proof fn lemma_entry_leq_total_ordering()
    ensures
        total_ordering(|a: (Seq<char>, bool), b: (Seq<char>, bool)| entry_leq(a, b)),
{
    let leq = |a: (Seq<char>, bool), b: (Seq<char>, bool)| entry_leq(a, b);
    assert forall|a: (Seq<char>, bool)| #[trigger] leq(a, a) by {
        lemma_chars_lt_irreflexive(a.0);
    }
    assert forall|a: (Seq<char>, bool), b: (Seq<char>, bool)| #[trigger] leq(a, b) && #[trigger] leq(b, a)
        implies a == b by {
        lemma_chars_lt_total(a.0, b.0);
    }
    assert forall|a: (Seq<char>, bool), b: (Seq<char>, bool), c: (Seq<char>, bool)|
        #[trigger] leq(a, b) && #[trigger] leq(b, c) implies leq(a, c) by {
        if a.1 == b.1 && b.1 == c.1 {
            lemma_chars_lt_total(a.0, b.0);
            lemma_chars_lt_total(b.0, c.0);
            lemma_chars_lt_total(a.0, c.0);
            if chars_lt(c.0, a.0) {
                if chars_lt(b.0, a.0) {
                } else if a.0 == b.0 {
                } else {
                    lemma_chars_lt_transitive(a.0, b.0, c.0);
                    if b.0 == c.0 {
                    } else {
                        lemma_chars_lt_transitive(c.0, a.0, c.0);
                        lemma_chars_lt_irreflexive(c.0);
                    }
                }
                if a.0 == b.0 {
                    if b.0 != c.0 {
                        lemma_chars_lt_transitive(c.0, a.0, c.0);
                        lemma_chars_lt_irreflexive(c.0);
                    }
                }
            }
        }
    }
    assert forall|a: (Seq<char>, bool), b: (Seq<char>, bool)| #[trigger] leq(a, b) || #[trigger] leq(b, a) by {
        lemma_chars_lt_total(a.0, b.0);
        if chars_lt(a.0, b.0) && chars_lt(b.0, a.0) {
            lemma_chars_lt_transitive(a.0, b.0, a.0);
            lemma_chars_lt_irreflexive(a.0);
        }
    }
}

/// Whether text `a` comes before text `b`.
pub fn text_lt(a: &str, b: &str) -> (r: bool)
    ensures
        r == chars_lt(a@, b@),
{
    let x = crate::text::chars_of(a);
    let y = crate::text::chars_of(b);
    let mut i: usize = 0;
    assert(x@.skip(0) =~= x@ && y@.skip(0) =~= y@);
    while i < x.len() && i < y.len()
        invariant
            i <= x@.len(),
            i <= y@.len(),
            chars_lt(x@, y@) == chars_lt(x@.skip(i as int), y@.skip(i as int)),
            x@ == a@,
            y@ == b@,
        decreases x@.len() - i,
    {
        assert(x@.skip(i as int)[0] == x@[i as int]);
        assert(y@.skip(i as int)[0] == y@[i as int]);
        if x[i] != y[i] {
            return x[i] < y[i];
        }
        assert(x@.skip(i as int).drop_first() == x@.skip(i + 1));
        assert(y@.skip(i as int).drop_first() == y@.skip(i + 1));
        i = i + 1;
    }
    i < y.len()
}

} // verus!
