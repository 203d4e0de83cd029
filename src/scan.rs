//! The scan of a directory tree, breadth first: a frontier of directories
//! still to list, and the tally of the files met so far.
//!
//! Listing a directory is left to the caller, who takes the next directory
//! from `next_directory`, hands each of its entries to `record_entry`, and
//! stops when `is_done` says so. Directories are not deduplicated: a path
//! handed in twice is listed twice, and a link that leads back up the tree
//! keeps the scan going for ever.
use vstd::prelude::*;

use crate::report::{is_ranking_of, top_entries, REPORT_LIMIT};
use crate::tally::{entries_view, tally_of, RankedEntry, Tally};

verus! {

/// A breadth-first scan over directories named by paths of type `P`.
pub struct Scanner<P> {
    frontier: std::collections::VecDeque<P>,
    tally: Tally,
}

impl<P> Scanner<P> {
    /// The directories still to list, the next one first.
    pub closed spec fn frontier(&self) -> Seq<P> {
        self.frontier@
    }

    /// The names of the files met so far, in the order they came.
    pub closed spec fn files(&self) -> Seq<Seq<char>> {
        self.tally.files()
    }

    /// Each extension met so far, with the number of files that carry it.
    pub open spec fn counts(&self) -> Map<Seq<char>, nat> {
        tally_of(self.files())
    }

    /// The tally is well formed.
    pub closed spec fn wf(&self) -> bool {
        self.tally.wf()
    }

    /// Two scans that met the same files, in whatever order the listings
    /// gave them, hold the same counts: scanning an unchanged tree twice
    /// gives the same tally.
    pub proof fn lemma_rescan_same_counts(a: &Scanner<P>, b: &Scanner<P>)
        requires
            a.files().to_multiset() == b.files().to_multiset(),
        ensures
            a.counts() == b.counts(),
    {
        Tally::lemma_same_files_same_tally(&a.tally, &b.tally);
    }

    /// A scan that starts at `root`, with nothing counted yet.
    pub fn new(root: P) -> (s: Scanner<P>)
        ensures
            s.wf(),
            s.frontier() == seq![root],
            s.files() == Seq::<Seq<char>>::empty(),
            s.counts() == Map::<Seq<char>, nat>::empty(),
    {
        let mut frontier = std::collections::VecDeque::new();
        frontier.push_back(root);
        let s = Scanner { frontier, tally: Tally::new() };
        assert(s.frontier() =~= seq![root]);
        s
    }

    /// Whether no directory is left to list.
    pub fn is_done(&self) -> (r: bool)
        ensures
            r == (self.frontier().len() == 0),
    {
        broadcast use vstd::std_specs::vecdeque::group_vec_dequeue_axioms;

        self.frontier.len() == 0
    }

    /// Takes the next directory to list off the front of the frontier.
    pub fn next_directory(&mut self) -> (r: Option<P>)
        requires
            old(self).wf(),
        ensures
            final(self).wf(),
            final(self).files() == old(self).files(),
            old(self).frontier().len() == 0 ==> r is None,
            old(self).frontier().len() == 0 ==> final(self).frontier() == old(self).frontier(),
            old(self).frontier().len() > 0 ==> r == Some(old(self).frontier()[0])
                && final(self).frontier() == old(self).frontier().drop_first(),
    {
        self.frontier.pop_front()
    }

    /// Takes in one entry of a listed directory: a directory goes to the
    /// back of the frontier, any other entry is counted by its file name.
    pub fn record_entry(&mut self, path: P, name: &str, is_dir: bool)
        requires
            old(self).wf(),
            !is_dir ==> old(self).files().len() < usize::MAX,
        ensures
            final(self).wf(),
            is_dir ==> final(self).frontier() == old(self).frontier().push(path),
            is_dir ==> final(self).files() == old(self).files(),
            !is_dir ==> final(self).frontier() == old(self).frontier() && final(self).files()
                == old(self).files().push(name@),
    {
        if is_dir {
            self.frontier.push_back(path);
        } else {
            self.tally.record_file(name);
        }
    }

    /// The number of files met so far, with or without an extension.
    pub fn files_seen(&self) -> (n: usize)
        requires
            self.wf(),
        ensures
            n == self.files().len(),
    {
        self.tally.files_seen()
    }

    /// The tally of the files met so far.
    pub fn tally(&self) -> (t: &Tally)
        requires
            self.wf(),
        ensures
            t.wf(),
            t.files() == self.files(),
            t@ == self.counts(),
    {
        &self.tally
    }

    /// The report on the files met so far: up to `REPORT_LIMIT` extensions
    /// with their counts, the largest count first.
    pub fn report(&self) -> (r: Vec<RankedEntry>)
        requires
            self.wf(),
        ensures
            is_ranking_of(entries_view(r@), self.counts(), REPORT_LIMIT as nat),
    {
        top_entries(&self.tally)
    }
}

} // verus!
