use vstd::prelude::*;
use crate::path::{TreePath, PathView, PathAndText, joined, whole};
use crate::config::settings_dir;

verus! {

/// How many visited directories the history keeps.
pub const MAX_ENTRIES: usize = 100;

/// One visited directory and when it was visited (seconds since the epoch).
#[derive(Debug, Clone, PartialEq, Eq)]
pub struct HistoryEntry {
    pub path: TreePath,
    pub timestamp: i64,
}

/// Visited directories, most recent first.
#[derive(Debug, Clone, PartialEq, Eq)]
pub struct History {
    pub entries: Vec<HistoryEntry>,
}

/// Abstract value of an entry: its path, its time, and the text the path is
/// written with.
pub type EntryView = (PathView, i64, Seq<char>);

impl View for HistoryEntry {
    type V = EntryView;

    open spec fn view(&self) -> EntryView {
        (self.path@, self.timestamp, self.path.text@)
    }
}

impl View for History {
    type V = Seq<EntryView>;

    open spec fn view(&self) -> Seq<EntryView> {
        self.entries@.map_values(|e: HistoryEntry| e@)
    }
}

/// The entries whose path is not `p`, in their order.
pub open spec fn entries_without(es: Seq<EntryView>, p: PathView) -> Seq<EntryView>
    decreases es.len(),
{
    if es.len() == 0 {
        Seq::empty()
    } else if es.last().0 != p {
        entries_without(es.drop_last(), p).push(es.last())
    } else {
        entries_without(es.drop_last(), p)
    }
}

/// The history after visiting `p`, written `text`, at time `ts`: `p` first,
/// then the other entries in their order, keeping at most `MAX_ENTRIES`.
pub open spec fn upserted(es: Seq<EntryView>, p: PathView, text: Seq<char>, ts: i64) -> Seq<EntryView> {
    let all = seq![(p, ts, text)] + entries_without(es, p);
    if all.len() > MAX_ENTRIES {
        all.take(MAX_ENTRIES as int)
    } else {
        all
    }
}

/// No path occurs twice.
pub open spec fn distinct_paths(es: Seq<EntryView>) -> bool {
    forall|i: int, j: int| 0 <= i < es.len() && 0 <= j < es.len() && i != j ==> es[i].0 != es[j].0
}

/// Some entry is for `p`.
pub open spec fn has_path(es: Seq<EntryView>, p: PathView) -> bool {
    exists|i: int| 0 <= i < es.len() && #[trigger] es[i].0 == p
}

/// How many entries a history holds after a visit of `p` is recorded: as
/// many as before when `p` was there, one more when it was not, and never
/// more than `MAX_ENTRIES`.
pub open spec fn recorded_len(es: Seq<EntryView>, p: PathView) -> int {
    let n: int = if has_path(es, p) { es.len() as int } else { es.len() + 1int };
    if n > MAX_ENTRIES as int { MAX_ENTRIES as int } else { n }
}

/// `home/.config/cdtree/history.json`.
pub open spec fn history_file(home: PathAndText) -> PathAndText {
    joined(settings_dir(home), "history.json"@)
}

impl Default for History {
    fn default() -> (h: Self)
        ensures
            h@ == Seq::<EntryView>::empty(),
    {
        let h = History { entries: Vec::new() };
        assert(h@ =~= Seq::<EntryView>::empty());
        h
    }
}

impl History {
    fn upsert_entry(&mut self, path: TreePath, timestamp: i64)
        ensures
            final(self)@ == upserted(old(self)@, path@, path.text@, timestamp),
    {
        let ghost es = old(self)@;
        let ghost t = path.text@;
        let mut kept: Vec<HistoryEntry> = Vec::new();
        let mut i: usize = 0;
        while i < self.entries.len()
            invariant
                i <= self.entries@.len(),
                es == self@,
                kept@.map_values(|e: HistoryEntry| e@) == entries_without(es.take(i as int), path@),
            decreases self.entries@.len() - i,
        {
            let e = &self.entries[i];
            let ghost before = kept@.map_values(|e: HistoryEntry| e@);
            proof {
                assert(es.take(i + 1).drop_last() == es.take(i as int));
            }
            if !e.path.same_as(&path) {
                kept.push(HistoryEntry { path: e.path.duplicate(), timestamp: e.timestamp });
                assert(kept@.map_values(|e: HistoryEntry| e@) =~= before.push(es[i as int]));
            }
            i = i + 1;
        }
        assert(es.take(i as int) == es);
        let ghost rest = kept@.map_values(|e: HistoryEntry| e@);
        kept.insert(0, HistoryEntry { path, timestamp });
        assert(kept@.map_values(|e: HistoryEntry| e@) =~= seq![(path@, timestamp, t)] + rest);
        let ghost all = kept@.map_values(|e: HistoryEntry| e@);
        kept.truncate(MAX_ENTRIES);
        assert(kept@.map_values(|e: HistoryEntry| e@) =~= upserted(es, path@, t, timestamp)) by {
            if all.len() > MAX_ENTRIES {
                assert(kept@.map_values(|e: HistoryEntry| e@) =~= all.take(MAX_ENTRIES as int));
            }
        }
        self.entries = kept;
    }

    /// Records a visit of `path` at `timestamp`: the path moves to the front
    /// (or enters there), any older entry for it goes, and the history is cut
    /// to `MAX_ENTRIES`.
    pub fn record(&mut self, path: TreePath, timestamp: i64)
        ensures
            final(self)@ == upserted(old(self)@, path@, path.text@, timestamp),
            final(self)@[0] == (path@, timestamp, path.text@),
            forall|i: int| 1 <= i < final(self)@.len() ==> (#[trigger] final(self)@[i]).0 != path@,
            final(self)@.len() <= MAX_ENTRIES,
            distinct_paths(old(self)@) ==> distinct_paths(final(self)@),
            distinct_paths(old(self)@) ==> final(self)@.len() == recorded_len(old(self)@, path@),
    {
        let ghost es = self@;
        let ghost p = path@;
        let ghost t = path.text@;
        self.upsert_entry(path, timestamp);
        proof {
            lemma_record_puts_path_first(es, p, t, timestamp);
            if distinct_paths(es) {
                lemma_record_keeps_paths_distinct(es, p, t, timestamp);
                lemma_without_len(es, p);
            }
        }
    }
}

/// Where the history is saved under the home directory `home`.
pub fn history_path(home: &TreePath) -> (p: TreePath)
    ensures
        whole(p) == history_file(whole(*home)),
{
    home.child(".config").child("cdtree").child("history.json")
}



proof fn lemma_without_facts(es: Seq<EntryView>, p: PathView)
    ensures
        entries_without(es, p).len() <= es.len(),
        forall|i: int| 0 <= i < entries_without(es, p).len() ==> (#[trigger] entries_without(es, p)[i]).0 != p,
        forall|i: int| 0 <= i < entries_without(es, p).len() ==> es.contains(#[trigger] entries_without(es, p)[i]),
        distinct_paths(es) ==> distinct_paths(entries_without(es, p)),
    decreases es.len(),
{
    if es.len() > 0 {
        let front = es.drop_last();
        lemma_without_facts(front, p);
        let w = entries_without(es, p);
        let wf = entries_without(front, p);
        assert forall|i: int| 0 <= i < wf.len() implies es.contains(#[trigger] wf[i]) by {
            assert(front.contains(wf[i]));
            let k = choose|k: int| 0 <= k < front.len() && front[k] == wf[i];
            assert(es[k] == wf[i]);
        }
        if es.last().0 != p {
            assert(w == wf.push(es.last()));
            assert forall|i: int| 0 <= i < w.len() implies es.contains(#[trigger] w[i]) by {
                if i < wf.len() {
                    assert(w[i] == wf[i]);
                } else {
                    assert(es[es.len() - 1] == w[i]);
                }
            }
            assert forall|i: int| 0 <= i < w.len() implies (#[trigger] w[i]).0 != p by {
                if i < wf.len() {
                    assert(w[i] == wf[i]);
                }
            }
            if distinct_paths(es) {
                assert(distinct_paths(front)) by {
                    assert forall|i: int, j: int| 0 <= i < front.len() && 0 <= j < front.len() && i != j
                        implies front[i].0 != front[j].0 by {
                        assert(es[i] == front[i] && es[j] == front[j]);
                    }
                }
                assert forall|i: int, j: int| 0 <= i < w.len() && 0 <= j < w.len() && i != j
                    implies w[i].0 != w[j].0 by {
                    if i < wf.len() && j < wf.len() {
                        assert(w[i] == wf[i] && w[j] == wf[j]);
                    } else if i < wf.len() {
                        assert(w[i] == wf[i]);
                        assert(front.contains(wf[i]));
                        let k = choose|k: int| 0 <= k < front.len() && front[k] == wf[i];
                        assert(es[k] == w[i] && es[es.len() - 1] == w[j]);
                    } else if j < wf.len() {
                        assert(w[j] == wf[j]);
                        assert(front.contains(wf[j]));
                        let k = choose|k: int| 0 <= k < front.len() && front[k] == wf[j];
                        assert(es[k] == w[j] && es[es.len() - 1] == w[i]);
                    }
                }
            }
        } else {
            if distinct_paths(es) {
                assert forall|i: int, j: int| 0 <= i < front.len() && 0 <= j < front.len() && i != j
                    implies front[i].0 != front[j].0 by {
                    assert(es[i] == front[i] && es[j] == front[j]);
                }
            }
        }
    }
}

/// In a history where no path occurs twice, taking out the entries for `p`
/// takes out one entry when `p` is there and none otherwise.
proof fn lemma_without_len(es: Seq<EntryView>, p: PathView)
    requires
        distinct_paths(es),
    ensures
        entries_without(es, p).len() == if has_path(es, p) { es.len() - 1 } else { es.len() as int },
    decreases es.len(),
{
    if es.len() > 0 {
        let front = es.drop_last();
        assert(distinct_paths(front)) by {
            assert forall|i: int, j: int| 0 <= i < front.len() && 0 <= j < front.len() && i != j
                implies front[i].0 != front[j].0 by {
                assert(es[i] == front[i] && es[j] == front[j]);
            }
        }
        lemma_without_len(front, p);
        if es.last().0 == p {
            assert forall|i: int| 0 <= i < front.len() implies (#[trigger] front[i]).0 != p by {
                assert(es[i] == front[i]);
                assert(es[es.len() - 1].0 == p);
            }
            lemma_without_keeps_all(front, p);
            assert(es[es.len() - 1].0 == p);
            assert(has_path(es, p));
        } else {
            if has_path(es, p) {
                let i = choose|i: int| 0 <= i < es.len() && #[trigger] es[i].0 == p;
                assert(i != es.len() - 1);
                assert(front[i].0 == p);
                assert(has_path(front, p));
            }
            if has_path(front, p) {
                let i = choose|i: int| 0 <= i < front.len() && #[trigger] front[i].0 == p;
                assert(es[i] == front[i]);
                assert(has_path(es, p));
            }
        }
    } else {
        assert(!has_path(es, p));
    }
}

proof fn lemma_without_concat(a: Seq<EntryView>, b: Seq<EntryView>, p: PathView)
    ensures
        entries_without(a + b, p) == entries_without(a, p) + entries_without(b, p),
    decreases b.len(),
{
    if b.len() == 0 {
        assert(a + b =~= a);
        assert(entries_without(a, p) + entries_without(b, p) =~= entries_without(a, p));
    } else {
        lemma_without_concat(a, b.drop_last(), p);
        assert((a + b).drop_last() =~= a + b.drop_last());
        assert((a + b).last() == b.last());
        if b.last().0 != p {
            assert(entries_without(a, p) + entries_without(b, p) =~=
                (entries_without(a, p) + entries_without(b.drop_last(), p)).push(b.last()));
        }
    }
}

proof fn lemma_without_keeps_all(s: Seq<EntryView>, p: PathView)
    requires
        forall|i: int| 0 <= i < s.len() ==> (#[trigger] s[i]).0 != p,
    ensures
        entries_without(s, p) == s,
    decreases s.len(),
{
    if s.len() > 0 {
        let front = s.drop_last();
        assert forall|i: int| 0 <= i < front.len() implies (#[trigger] front[i]).0 != p by {
            assert(front[i] == s[i]);
        }
        lemma_without_keeps_all(front, p);
        assert(s.last() == s[s.len() - 1]);
        assert(front.push(s.last()) =~= s);
    } else {
        assert(entries_without(s, p) =~= s);
    }
}

/// After a visit of `p` is recorded, `p` is the most recent entry, no other
/// entry names `p`, and the history holds at most `MAX_ENTRIES` entries.
pub proof fn lemma_record_puts_path_first(es: Seq<EntryView>, p: PathView, t: Seq<char>, ts: i64)
    ensures
        upserted(es, p, t, ts).len() >= 1,
        upserted(es, p, t, ts)[0] == (p, ts, t),
        forall|i: int| 1 <= i < upserted(es, p, t, ts).len() ==> (#[trigger] upserted(es, p, t, ts)[i]).0 != p,
        upserted(es, p, t, ts).len() <= MAX_ENTRIES,
{
    lemma_without_facts(es, p);
    let w = entries_without(es, p);
    let u = upserted(es, p, t, ts);
    assert forall|i: int| 1 <= i < u.len() implies (#[trigger] u[i]).0 != p by {
        assert(u[i] == w[i - 1]);
    }
}

/// Recording a visit keeps the other entries in their order: after the new
/// first entry come the older entries without `p`, as many as fit.
pub proof fn lemma_record_keeps_order(es: Seq<EntryView>, p: PathView, t: Seq<char>, ts: i64)
    ensures
        upserted(es, p, t, ts).drop_first() == entries_without(es, p).take(upserted(es, p, t, ts).len() - 1),
        upserted(es, p, t, ts).len() == if entries_without(es, p).len() + 1 > MAX_ENTRIES {
            MAX_ENTRIES as int
        } else {
            (entries_without(es, p).len() + 1) as int
        },
{
    let w = entries_without(es, p);
    let u = upserted(es, p, t, ts);
    assert(u.drop_first() =~= w.take(u.len() - 1));
}

/// A history in which no path occurs twice stays so when a visit is recorded.
pub proof fn lemma_record_keeps_paths_distinct(es: Seq<EntryView>, p: PathView, t: Seq<char>, ts: i64)
    requires
        distinct_paths(es),
    ensures
        distinct_paths(upserted(es, p, t, ts)),
{
    lemma_without_facts(es, p);
    let w = entries_without(es, p);
    let u = upserted(es, p, t, ts);
    assert forall|i: int, j: int| 0 <= i < u.len() && 0 <= j < u.len() && i != j
        implies u[i].0 != u[j].0 by {
        if i == 0 {
            assert(u[j] == w[j - 1]);
        } else if j == 0 {
            assert(u[i] == w[i - 1]);
        } else {
            assert(u[i] == w[i - 1] && u[j] == w[j - 1]);
        }
    }
}

/// Visiting the same path twice in a row leaves the history as one visit at
/// the later time would.
pub proof fn lemma_record_twice(es: Seq<EntryView>, p: PathView, t: Seq<char>, t1: i64, t2: i64)
    ensures
        upserted(upserted(es, p, t, t1), p, t, t2) == upserted(es, p, t, t2),
{
    lemma_without_facts(es, p);
    let w = entries_without(es, p);
    let u1 = upserted(es, p, t, t1);
    lemma_record_keeps_order(es, p, t, t1);
    let tail = u1.drop_first();
    assert forall|i: int| 0 <= i < tail.len() implies (#[trigger] tail[i]).0 != p by {
        assert(tail[i] == w[i]);
    }
    lemma_without_keeps_all(tail, p);
    assert(u1 =~= seq![(p, t1, t)] + tail);
    lemma_without_concat(seq![(p, t1, t)], tail, p);
    assert(entries_without(seq![(p, t1, t)], p) =~= Seq::<EntryView>::empty()) by {
        let one = seq![(p, t1, t)];
        assert(one.drop_last() =~= Seq::<EntryView>::empty());
        assert(one.last().0 == p);
        assert(entries_without(one.drop_last(), p) =~= Seq::<EntryView>::empty());
    }
    assert(entries_without(u1, p) =~= tail);
    assert(upserted(u1, p, t, t2) =~= upserted(es, p, t, t2));
}
} // verus!
