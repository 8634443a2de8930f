use vstd::prelude::*;
use crate::node::{DirEntryInfo, EntryInfoView, listing_view};
use crate::path::{TreePath, PathView};

verus! {

/// Listings of directories read from the filesystem, by path. A directory
/// that is absent could not be read.
#[derive(Debug)]
pub struct DirSnapshot {
    pub dirs: Vec<(TreePath, Vec<DirEntryInfo>)>,
}

/// Abstract value of a snapshot: pairs of a path and its listing.
pub type SnapshotView = Seq<(PathView, Seq<EntryInfoView>)>;

impl View for DirSnapshot {
    type V = SnapshotView;

    open spec fn view(&self) -> SnapshotView {
        self.dirs@.map_values(|d: (TreePath, Vec<DirEntryInfo>)| (d.0@, d.1@.map_values(|e: DirEntryInfo| e@)))
    }
}

/// The first listing at or after `i` for path `p`.
pub open spec fn lookup_from(s: SnapshotView, p: PathView, i: int) -> Option<Seq<EntryInfoView>>
    decreases s.len() - i,
{
    if i < 0 || i >= s.len() {
        None
    } else if s[i].0 == p {
        Some(s[i].1)
    } else {
        lookup_from(s, p, i + 1)
    }
}

/// The listing of directory `p` in the snapshot; `None` if it is absent.
pub open spec fn snapshot_lookup(s: SnapshotView, p: PathView) -> Option<Seq<EntryInfoView>> {
    lookup_from(s, p, 0)
}

impl DirSnapshot {
    /// A snapshot with no listing.
    pub fn new() -> (s: Self)
        ensures
            s@ == Seq::<(PathView, Seq<EntryInfoView>)>::empty(),
    {
        let s = DirSnapshot { dirs: Vec::new() };
        assert(s@ =~= Seq::<(PathView, Seq<EntryInfoView>)>::empty());
        s
    }

    /// Adds the listing of directory `path`.
    pub fn add(&mut self, path: TreePath, entries: Vec<DirEntryInfo>)
        ensures
            final(self)@ == old(self)@.push((path@, entries@.map_values(|e: DirEntryInfo| e@))),
    {
        self.dirs.push((path, entries));
        assert(self@ =~= old(self)@.push((path@, entries@.map_values(|e: DirEntryInfo| e@))));
    }

    /// The listing of directory `path`, if the snapshot has one.
    pub fn listing_for(&self, path: &TreePath) -> (r: Option<&Vec<DirEntryInfo>>)
        ensures
            listing_view(r) == snapshot_lookup(self@, path@),
    {
        let mut i: usize = 0;
        while i < self.dirs.len()
            invariant
                i <= self.dirs@.len(),
                snapshot_lookup(self@, path@) == lookup_from(self@, path@, i as int),
            decreases self.dirs@.len() - i,
        {
            let d = &self.dirs[i];
            assert(self@[i as int] == (d.0@, d.1@.map_values(|e: DirEntryInfo| e@)));
            if d.0.same_as(path) {
                return Some(&d.1);
            }
            i = i + 1;
        }
        None
    }
}

} // verus!
