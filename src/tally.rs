//! The tally: how many files seen so far carry each extension.
use vstd::prelude::*;

use crate::extension::{extension, extension_of};

verus! {

/// How many of `names` have extension `e`.
pub open spec fn count_with_extension(names: Seq<Seq<char>>, e: Seq<char>) -> nat
    decreases names.len(),
{
    if names.len() == 0 {
        0
    } else {
        count_with_extension(names.drop_last(), e) + if extension_of(names.last()) == Some(e) {
            1nat
        } else {
            0nat
        }
    }
}

/// How many of `names` have no extension at all.
pub open spec fn count_extensionless(names: Seq<Seq<char>>) -> nat
    decreases names.len(),
{
    if names.len() == 0 {
        0
    } else {
        count_extensionless(names.drop_last()) + if extension_of(names.last()) is None {
            1nat
        } else {
            0nat
        }
    }
}

/// The tally of a sequence of file names: each extension that occurs, with
/// the number of names that carry it.
pub open spec fn tally_of(names: Seq<Seq<char>>) -> Map<Seq<char>, nat> {
    Map::new(
        |e: Seq<char>| count_with_extension(names, e) > 0,
        |e: Seq<char>| count_with_extension(names, e),
    )
}

/// The sum of the counts of a sequence of (extension, count) pairs.
pub open spec fn sum_counts(entries: Seq<(Seq<char>, nat)>) -> nat
    decreases entries.len(),
{
    if entries.len() == 0 {
        0
    } else {
        sum_counts(entries.drop_last()) + entries.last().1
    }
}


/// Recording one more name adds one to the count of its extension only.
pub proof fn lemma_count_push(names: Seq<Seq<char>>, name: Seq<char>, e: Seq<char>)
    ensures
        count_with_extension(names.push(name), e) == count_with_extension(names, e) + if extension_of(name) == Some(e) {
            1nat
        } else {
            0nat
        },
        count_extensionless(names.push(name)) == count_extensionless(names) + if extension_of(name) is None {
            1nat
        } else {
            0nat
        },
{
    assert(names.push(name).drop_last() =~= names);
}

/// No extension is counted more often than there are names.
pub proof fn lemma_count_le_len(names: Seq<Seq<char>>, e: Seq<char>)
    ensures
        count_with_extension(names, e) <= names.len(),
    decreases names.len(),
{
    if names.len() > 0 {
        lemma_count_le_len(names.drop_last(), e);
    }
}

proof fn lemma_sum_update(es: Seq<(Seq<char>, nat)>, i: int, c: nat)
    requires
        0 <= i < es.len(),
    ensures
        sum_counts(es.update(i, (es[i].0, c))) + es[i].1 == sum_counts(es) + c,
    decreases es.len(),
{
    let u = es.update(i, (es[i].0, c));
    if i < es.len() - 1 {
        assert(u.drop_last() =~= es.drop_last().update(i, (es[i].0, c)));
        lemma_sum_update(es.drop_last(), i, c);
    } else {
        assert(u.drop_last() =~= es.drop_last());
    }
}

proof fn lemma_sum_push(es: Seq<(Seq<char>, nat)>, x: (Seq<char>, nat))
    ensures
        sum_counts(es.push(x)) == sum_counts(es) + x.1,
{
    assert(es.push(x).drop_last() =~= es);
}


proof fn lemma_count_remove(names: Seq<Seq<char>>, i: int, e: Seq<char>)
    requires
        0 <= i < names.len(),
    ensures
        count_with_extension(names, e) == count_with_extension(names.remove(i), e) + if extension_of(
            names[i],
        ) == Some(e) {
            1nat
        } else {
            0nat
        },
    decreases names.len(),
{
    let r = names.remove(i);
    if i == names.len() - 1 {
        assert(r =~= names.drop_last());
    } else {
        assert(r.drop_last() =~= names.drop_last().remove(i));
        assert(r.last() == names.last());
        lemma_count_remove(names.drop_last(), i, e);
    }
}

/// The count of an extension depends only on which names were seen, with
/// their multiplicities, and not on the order in which they came.
pub proof fn lemma_count_order_irrelevant(a: Seq<Seq<char>>, b: Seq<Seq<char>>, e: Seq<char>)
    requires
        a.to_multiset() == b.to_multiset(),
    ensures
        count_with_extension(a, e) == count_with_extension(b, e),
    decreases a.len(),
{
    broadcast use vstd::seq_lib::group_to_multiset_ensures;

    if a.len() == 0 {
        assert(a.to_multiset().len() == 0);
        assert(b.to_multiset().len() == b.len());
    } else {
        let x = a.last();
        let rest = a.drop_last();
        assert(rest.push(x) =~= a);
        assert(a.to_multiset().count(x) > 0);
        assert(b.contains(x));
        let i = choose|i: int| 0 <= i < b.len() && b[i] == x;
        assert(rest.to_multiset() =~= b.remove(i).to_multiset());
        lemma_count_order_irrelevant(rest, b.remove(i), e);
        lemma_count_remove(b, i, e);
    }
}

/// An extension together with a count.
pub struct RankedEntry {
    pub extension: String,
    pub count: usize,
}

impl View for RankedEntry {
    type V = (Seq<char>, nat);

    open spec fn view(&self) -> (Seq<char>, nat) {
        (self.extension@, self.count as nat)
    }
}

/// A sequence of entries as (extension, count) pairs.
pub open spec fn entries_view(v: Seq<RankedEntry>) -> Seq<(Seq<char>, nat)> {
    v.map_values(|e: RankedEntry| e@)
}

/// The running count of files per extension.
pub struct Tally {
    entries: Vec<RankedEntry>,
    files_seen: usize,
    files: Ghost<Seq<Seq<char>>>,
}

impl View for Tally {
    type V = Map<Seq<char>, nat>;

    /// Each extension seen so far, with the number of files that carry it.
    open spec fn view(&self) -> Map<Seq<char>, nat> {
        tally_of(self.files())
    }
}

impl Tally {
    /// The names of the files recorded so far, in the order they came.
    pub closed spec fn files(&self) -> Seq<Seq<char>> {
        self.files@
    }

    /// The entries as (extension, count) pairs, in order of first appearance.
    pub closed spec fn entries(&self) -> Seq<(Seq<char>, nat)> {
        entries_view(self.entries@)
    }

    /// Every extension is held once, each entry holds the exact count of its
    /// extension, and every extension that occurs has an entry.
    pub closed spec fn wf(&self) -> bool {
        let es = self.entries();
        &&& self.files_seen as nat == self.files@.len()
        &&& forall|i: int, j: int|
            0 <= i < j < es.len() ==> #[trigger] es[i].0 != #[trigger] es[j].0
        &&& forall|i: int|
            0 <= i < es.len() ==> #[trigger] es[i].1 == count_with_extension(self.files@, es[i].0)
                && es[i].1 > 0
        &&& forall|e: Seq<char>|
            #[trigger] count_with_extension(self.files@, e) > 0 ==> exists|i: int|
                0 <= i < es.len() && es[i].0 == e
        &&& sum_counts(es) + count_extensionless(self.files@) == self.files@.len()
    }

    /// An empty tally.
    pub fn new() -> (t: Tally)
        ensures
            t.wf(),
            t.files() == Seq::<Seq<char>>::empty(),
            t@ == Map::<Seq<char>, nat>::empty(),
    {
        let t = Tally { entries: Vec::new(), files_seen: 0, files: Ghost(Seq::empty()) };
        assert(t.entries() =~= Seq::<(Seq<char>, nat)>::empty());
        assert(t@ =~= Map::<Seq<char>, nat>::empty());
        t
    }

    /// A copy of the entries, in order of first appearance.
    pub fn to_entries(&self) -> (r: Vec<RankedEntry>)
        ensures
            entries_view(r@) == self.entries(),
    {
        let mut r: Vec<RankedEntry> = Vec::new();
        let mut i: usize = 0;
        while i < self.entries.len()
            invariant
                i <= self.entries@.len(),
                entries_view(r@) == self.entries().take(i as int),
            decreases self.entries@.len() - i,
        {
            let e = &self.entries[i];
            r.push(RankedEntry { extension: e.extension.clone(), count: e.count });
            assert(self.entries().take(i + 1) =~= self.entries().take(i as int).push(self.entries()[i as int]));
            assert(entries_view(r@) =~= entries_view(r@.drop_last()).push(r@.last()@));
            i = i + 1;
        }
        assert(self.entries().take(i as int) =~= self.entries());
        r
    }

    /// The number of files recorded so far, with or without an extension.
    pub fn files_seen(&self) -> (n: usize)
        requires
            self.wf(),
        ensures
            n == self.files().len(),
    {
        self.files_seen
    }

    /// The number of distinct extensions seen so far.
    pub fn len(&self) -> (n: usize)
        requires
            self.wf(),
        ensures
            n == self.entries().len(),
            n == self@.dom().len(),
    {
        proof {
            self.lemma_dom_len();
        }
        self.entries.len()
    }

    /// The index of the entry for `ext`, if there is one.
    fn find(&self, ext: &String) -> (r: Option<usize>)
        ensures
            match r {
                Some(i) => i < self.entries().len() && self.entries()[i as int].0 == ext@,
                None => forall|i: int| 0 <= i < self.entries().len() ==> self.entries()[i].0 != ext@,
            },
    {
        let mut i: usize = 0;
        while i < self.entries.len()
            invariant
                i <= self.entries@.len(),
                forall|j: int| 0 <= j < i ==> self.entries()[j].0 != ext@,
            decreases self.entries@.len() - i,
        {
            if self.entries[i].extension == *ext {
                return Some(i);
            }
            i = i + 1;
        }
        None
    }

    /// The number of files seen so far whose extension is `ext`.
    pub fn count(&self, ext: &str) -> (n: usize)
        requires
            self.wf(),
        ensures
            n == count_with_extension(self.files(), ext@),
            n > 0 ==> self@.contains_key(ext@) && n == self@[ext@],
            n == 0 <==> !self@.contains_key(ext@),
    {
        let key = ext.to_owned();
        match self.find(&key) {
            Some(i) => {
                proof {
                    assert(self.entries()[i as int].1 == self.entries[i as int].count);
                }
                self.entries[i].count
            },
            None => {
                proof {
                    if count_with_extension(self.files(), ext@) > 0 {
                        let i = choose|i: int|
                            0 <= i < self.entries().len() && self.entries()[i].0 == ext@;
                    }
                }
                0
            },
        }
    }

    /// Records one file by its name: a name without a period changes no
    /// count; otherwise the count of its extension grows by one, starting
    /// from one for an extension not seen before.
    pub fn record_file(&mut self, name: &str)
        requires
            old(self).wf(),
            old(self).files().len() < usize::MAX,
        ensures
            final(self).wf(),
            final(self).files() == old(self).files().push(name@),
            extension_of(name@) is None ==> final(self)@ == old(self)@,
            extension_of(name@) is Some ==> final(self)@ == old(self)@.insert(
                extension_of(name@)->0,
                (if old(self)@.contains_key(extension_of(name@)->0) {
                    old(self)@[extension_of(name@)->0]
                } else {
                    0nat
                }) + 1,
            ),
    {
        let ghost old_files = self.files@;
        let ghost new_files = old_files.push(name@);
        let ghost old_es = self.entries();
        proof {
            assert forall|e: Seq<char>|
                #[trigger] count_with_extension(new_files, e) == count_with_extension(old_files, e)
                    + if extension_of(name@) == Some(e) {
                    1nat
                } else {
                    0nat
                } by {
                lemma_count_push(old_files, name@, e);
            }
            lemma_count_push(old_files, name@, Seq::empty());
        }
        self.files = Ghost(new_files);
        self.files_seen = self.files_seen + 1;
        match extension(name) {
            None => {
                assert(self.entries() =~= old_es);
                assert(self@ =~= tally_of(old_files));
            },
            Some(ext) => {
                let ghost e = ext@;
                match self.find(&ext) {
                    Some(i) => {
                        let c = self.entries[i].count;
                        proof {
                            assert(old_es[i as int].1 == c);
                            assert(old_es[i as int].1 == count_with_extension(old_files, old_es[i as int].0));
                            lemma_count_le_len(old_files, e);
                        }
                        self.entries.set(i, RankedEntry { extension: ext, count: c + 1 });
                        proof {
                            assert(self.entries() =~= old_es.update(i as int, (e, (c + 1) as nat)));
                            lemma_sum_update(old_es, i as int, (c + 1) as nat);
                            assert forall|f: Seq<char>|
                                #[trigger] count_with_extension(self.files@, f) > 0 implies exists|j: int|
                                    0 <= j < self.entries().len() && self.entries()[j].0 == f by {
                                if f != e {
                                    let j = choose|j: int| 0 <= j < old_es.len() && old_es[j].0 == f;
                                    assert(self.entries()[j].0 == f);
                                } else {
                                    assert(self.entries()[i as int].0 == f);
                                }
                            }
                        }
                    },
                    None => {
                        self.entries.push(RankedEntry { extension: ext, count: 1 });
                        proof {
                            assert(self.entries() =~= old_es.push((e, 1nat)));
                            lemma_sum_push(old_es, (e, 1nat));
                            assert(count_with_extension(old_files, e) == 0) by {
                                if count_with_extension(old_files, e) > 0 {
                                    let j = choose|j: int| 0 <= j < old_es.len() && old_es[j].0 == e;
                                }
                            }
                            assert forall|f: Seq<char>|
                                #[trigger] count_with_extension(self.files@, f) > 0 implies exists|j: int|
                                    0 <= j < self.entries().len() && self.entries()[j].0 == f by {
                                if f != e {
                                    let j = choose|j: int| 0 <= j < old_es.len() && old_es[j].0 == f;
                                    assert(self.entries()[j].0 == f);
                                } else {
                                    assert(self.entries()[old_es.len() as int].0 == f);
                                }
                            }
                        }
                    },
                }
                assert(self@ =~= tally_of(old_files).insert(
                    e,
                    (if tally_of(old_files).contains_key(e) {
                        tally_of(old_files)[e]
                    } else {
                        0nat
                    }) + 1,
                ));
            },
        }
    }

    /// Every file is accounted for: each extension in the tally is held by
    /// exactly the recorded files whose name yields it, the entries list
    /// each such extension once with that count, and the counts add up to
    /// the number of files less those whose name has no period.
    pub proof fn lemma_every_file_counted(&self)
        requires
            self.wf(),
        ensures
            forall|e: Seq<char>|
                #[trigger] self@.contains_key(e) <==> count_with_extension(self.files(), e) > 0,
            forall|e: Seq<char>|
                #[trigger] self@.contains_key(e) ==> self@[e] == count_with_extension(self.files(), e),
            forall|i: int|
                0 <= i < self.entries().len() ==> #[trigger] self@.contains_key(self.entries()[i].0)
                    && self@[self.entries()[i].0] == self.entries()[i].1,
            forall|i: int, j: int|
                0 <= i < j < self.entries().len() ==> #[trigger] self.entries()[i].0
                    != #[trigger] self.entries()[j].0,
            forall|e: Seq<char>|
                #[trigger] self@.contains_key(e) ==> exists|i: int|
                    0 <= i < self.entries().len() && self.entries()[i].0 == e,
            sum_counts(self.entries()) == self.files().len() - count_extensionless(self.files()),
    {
        assert forall|i: int| 0 <= i < self.entries().len() implies #[trigger] self@.contains_key(
            self.entries()[i].0,
        ) && self@[self.entries()[i].0] == self.entries()[i].1 by {
            assert(self.entries()[i].1 == count_with_extension(self.files@, self.entries()[i].0));
        }
    }

    /// Two tallies over the same files, listed in any order, hold the same
    /// counts: scanning an unchanged tree again gives the same tally.
    pub proof fn lemma_same_files_same_tally(a: &Tally, b: &Tally)
        requires
            a.files().to_multiset() == b.files().to_multiset(),
        ensures
            a@ == b@,
    {
        assert forall|e: Seq<char>|
            count_with_extension(a.files(), e) == #[trigger] count_with_extension(b.files(), e) by {
            lemma_count_order_irrelevant(a.files(), b.files(), e);
        }
        assert(a@ =~= b@);
    }

    proof fn lemma_dom_len(&self)
        requires
            self.wf(),
        ensures
            self@.dom().len() == self.entries().len(),
    {
        let es = self.entries();
        let keys = es.map_values(|p: (Seq<char>, nat)| p.0);
        assert forall|i: int, j: int| 0 <= i < keys.len() && 0 <= j < keys.len() && i != j implies
            keys[i] != keys[j] by {
            if i < j {
                assert(es[i].0 != es[j].0);
            } else {
                assert(es[j].0 != es[i].0);
            }
        }
        assert(keys.no_duplicates());
        keys.unique_seq_to_set();
        assert forall|e: Seq<char>| self@.dom().contains(e) <==> keys.to_set().contains(e) by {
            if self@.dom().contains(e) {
                assert(count_with_extension(self.files(), e) > 0);
                let i = choose|i: int| 0 <= i < es.len() && es[i].0 == e;
                assert(keys[i] == e);
            }
            if keys.to_set().contains(e) {
                let i = choose|i: int| 0 <= i < keys.len() && keys[i] == e;
                assert(es[i].1 > 0);
            }
        }
        assert(self@.dom() =~= keys.to_set());
    }
}

} // verus!
