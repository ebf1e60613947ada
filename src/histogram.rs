//! Per-extension counts and sizes.
//!
//! Entries are created on the first file of an extension and kept in a
//! vector with distinct keys; a ghost map from extension to statistics is the
//! model that the contracts speak of.

use crate::file_info::TypeStats;
use vstd::prelude::*;

verus! {

/// The extension of an optional extension string, as characters.
pub open spec fn ext_view(ext: Option<String>) -> Option<Seq<char>> {
    match ext {
        None => None,
        Some(e) => Some(e@),
    }
}

/// The histogram `m` after one more file of `size` bytes with extension
/// `ext`: a file without an extension changes nothing; otherwise the entry
/// of its extension gains one file and `size` bytes, created if absent.
pub open spec fn recorded(
    m: Map<Seq<char>, TypeStats>,
    ext: Option<Seq<char>>,
    size: u64,
) -> Map<Seq<char>, TypeStats> {
    match ext {
        None => m,
        Some(e) => if m.contains_key(e) {
            m.insert(
                e,
                TypeStats {
                    file_count: (m[e].file_count + 1) as u64,
                    total_size: (m[e].total_size + size) as u64,
                },
            )
        } else {
            m.insert(e, TypeStats { file_count: 1, total_size: size })
        },
    }
}

/// `entries` lists `m`: distinct keys, each with its statistics in `m`, and
/// every key of `m` among them.
pub open spec fn lists(entries: Seq<(String, TypeStats)>, m: Map<Seq<char>, TypeStats>) -> bool {
    &&& forall|i: int, j: int|
        0 <= i < j < entries.len() ==> #[trigger] entries[i].0@ != #[trigger] entries[j].0@
    &&& forall|i: int|
        0 <= i < entries.len() ==> m.contains_key(#[trigger] entries[i].0@) && m[entries[i].0@]
            == entries[i].1
    &&& forall|k: Seq<char>|
        m.contains_key(k) ==> exists|i: int| 0 <= i < entries.len() && #[trigger] entries[i].0@ == k
}

/// Whether recording one more file of `size` bytes with extension `ext`
/// keeps its entry's count and size within `u64`.
pub open spec fn fits(m: Map<Seq<char>, TypeStats>, ext: Option<Seq<char>>, size: u64) -> bool {
    match ext {
        None => true,
        Some(e) => m.contains_key(e) ==> m[e].file_count < u64::MAX && m[e].total_size + size
            <= u64::MAX,
    }
}

pub struct ExtensionHistogram {
    entries: Vec<(String, TypeStats)>,
    model: Ghost<Map<Seq<char>, TypeStats>>,
}

impl View for ExtensionHistogram {
    type V = Map<Seq<char>, TypeStats>;

    closed spec fn view(&self) -> Map<Seq<char>, TypeStats> {
        self.model@
    }
}

impl ExtensionHistogram {
    pub closed spec fn wf(&self) -> bool {
        lists(self.entries@, self.model@)
    }

    /// A histogram with no entries.
    pub fn new() -> (r: ExtensionHistogram)
        ensures
            r.wf(),
            r@ == Map::<Seq<char>, TypeStats>::empty(),
    {
        ExtensionHistogram { entries: Vec::new(), model: Ghost(Map::empty()) }
    }

    /// The index of the entry for `ext`, if there is one.
    fn find(&self, ext: &String) -> (r: Option<usize>)
        requires
            self.wf(),
        ensures
            r matches Some(i) ==> i < self.entries@.len() && self.entries@[i as int].0@ == ext@,
            r is None ==> !self@.contains_key(ext@),
    {
        let mut i: usize = 0;
        while i < self.entries.len()
            invariant
                self.wf(),
                i <= self.entries@.len(),
                forall|j: int| 0 <= j < i ==> #[trigger] self.entries@[j].0@ != ext@,
            decreases self.entries@.len() - i,
        {
            if self.entries[i].0 == *ext {
                return Some(i);
            }
            i = i + 1;
        }
        None
    }

    /// Records one file of `size` bytes with extension `extension`.
    pub fn record(&mut self, extension: &Option<String>, size: u64)
        requires
            old(self).wf(),
            fits(old(self)@, ext_view(*extension), size),
        ensures
            final(self).wf(),
            final(self)@ == recorded(old(self)@, ext_view(*extension), size),
    {
        match extension {
            None => {},
            Some(ext) => {
                match self.find(ext) {
                    Some(i) => {
                        let old_stats = self.entries[i].1;
                        let stats = TypeStats {
                            file_count: old_stats.file_count + 1,
                            total_size: old_stats.total_size + size,
                        };
                        let key = self.entries[i].0.clone();
                        let ghost old_entries = self.entries@;
                        self.entries.set(i, (key, stats));
                        proof {
                            self.model@ = self.model@.insert(ext@, stats);
                            assert forall|k: Seq<char>| self.model@.contains_key(k) implies exists|
                                j: int,
                            | 0 <= j < self.entries@.len() && #[trigger] self.entries@[j].0@ == k by {
                                if k != ext@ {
                                    let j = choose|j: int|
                                        0 <= j < old_entries.len() && #[trigger] old_entries[j].0@
                                            == k;
                                    assert(self.entries@[j] == old_entries[j]);
                                } else {
                                    assert(self.entries@[i as int].0@ == k);
                                }
                            }
                        }
                    },
                    None => {
                        let ghost old_entries = self.entries@;
                        let stats = TypeStats { file_count: 1, total_size: size };
                        self.entries.push((ext.clone(), stats));
                        proof {
                            self.model@ = self.model@.insert(ext@, stats);
                            assert forall|k: Seq<char>| self.model@.contains_key(k) implies exists|
                                j: int,
                            | 0 <= j < self.entries@.len() && #[trigger] self.entries@[j].0@ == k by {
                                if k != ext@ {
                                    let j = choose|j: int|
                                        0 <= j < old_entries.len() && #[trigger] old_entries[j].0@
                                            == k;
                                    assert(self.entries@[j] == old_entries[j]);
                                } else {
                                    assert(self.entries@[old_entries.len() as int].0@ == k);
                                }
                            }
                        }
                    },
                }
            },
        }
    }

    /// The statistics recorded for extension `ext`, if any file had it.
    pub fn get(&self, ext: &String) -> (r: Option<TypeStats>)
        requires
            self.wf(),
        ensures
            r == if self@.contains_key(ext@) {
                Some(self@[ext@])
            } else {
                None
            },
    {
        match self.find(ext) {
            Some(i) => Some(self.entries[i].1),
            None => None,
        }
    }

    /// Every entry as an extension with its statistics, in no particular
    /// order.
    pub fn entries(&self) -> (r: &Vec<(String, TypeStats)>)
        requires
            self.wf(),
        ensures
            lists(r@, self@),
    {
        &self.entries
    }

    /// The number of distinct extensions seen.
    pub fn len(&self) -> (r: usize)
        requires
            self.wf(),
        ensures
            r == self@.dom().len(),
    {
        proof {
            lemma_lists_len(self.entries@, self@);
        }
        self.entries.len()
    }
}

/// A listing of a map has one entry per key.
proof fn lemma_lists_len(entries: Seq<(String, TypeStats)>, m: Map<Seq<char>, TypeStats>)
    requires
        lists(entries, m),
    ensures
        m.dom().finite(),
        m.dom().len() == entries.len(),
    decreases entries.len(),
{
    let keys = entries.map_values(|e: (String, TypeStats)| e.0@);
    assert(m.dom() =~= keys.to_set()) by {
        assert forall|k: Seq<char>| m.dom().contains(k) implies keys.to_set().contains(k) by {
            let i = choose|i: int| 0 <= i < entries.len() && #[trigger] entries[i].0@ == k;
            assert(keys[i] == k);
        }
        assert forall|k: Seq<char>| keys.to_set().contains(k) implies m.dom().contains(k) by {
            let i = choose|i: int| 0 <= i < keys.len() && keys[i] == k;
            assert(entries[i].0@ == k);
        }
    }
    assert(keys.no_duplicates()) by {
        assert forall|i: int, j: int| 0 <= i < keys.len() && 0 <= j < keys.len() && i != j implies keys[i]
            != keys[j] by {
            if i < j {
                assert(entries[i].0@ != entries[j].0@);
            } else {
                assert(entries[j].0@ != entries[i].0@);
            }
        }
    }
    keys.unique_seq_to_set();
}

/// The histogram after recording `files` (extension and size of each) in
/// order, starting from no entries.
pub open spec fn recorded_all(files: Seq<(Option<Seq<char>>, u64)>) -> Map<Seq<char>, TypeStats>
    decreases files.len(),
{
    if files.len() == 0 {
        Map::empty()
    } else {
        recorded(recorded_all(files.drop_last()), files.last().0, files.last().1)
    }
}

/// How many of `files` have extension `e`.
pub open spec fn count_with(files: Seq<(Option<Seq<char>>, u64)>, e: Seq<char>) -> nat
    decreases files.len(),
{
    if files.len() == 0 {
        0
    } else {
        count_with(files.drop_last(), e) + if files.last().0 == Some(e) {
            1nat
        } else {
            0nat
        }
    }
}

/// The total size of those of `files` that have extension `e`.
pub open spec fn size_with(files: Seq<(Option<Seq<char>>, u64)>, e: Seq<char>) -> nat
    decreases files.len(),
{
    if files.len() == 0 {
        0
    } else {
        size_with(files.drop_last(), e) + if files.last().0 == Some(e) {
            files.last().1 as nat
        } else {
            0nat
        }
    }
}

/// After recording any sequence of files, an extension has an entry exactly
/// when some file had it, and then its count is the number of such files and
/// its size their total size; files without an extension create no entry.
pub proof fn lemma_histogram_totals(files: Seq<(Option<Seq<char>>, u64)>, e: Seq<char>)
    requires
        count_with(files, e) <= u64::MAX,
        size_with(files, e) <= u64::MAX,
    ensures
        recorded_all(files).contains_key(e) <==> count_with(files, e) > 0,
        recorded_all(files).contains_key(e) ==> recorded_all(files)[e].file_count == count_with(
            files,
            e,
        ) && recorded_all(files)[e].total_size == size_with(files, e),
        count_with(files, e) == 0 ==> size_with(files, e) == 0,
    decreases files.len(),
{
    if files.len() > 0 {
        let prev = files.drop_last();
        lemma_histogram_totals(prev, e);
        let m = recorded_all(prev);
        let (ext, size) = files.last();
        assert(recorded_all(files) == recorded(m, ext, size));
        if ext == Some(e) {
            if m.contains_key(e) {
                assert(m[e].file_count + 1 <= u64::MAX);
                assert(m[e].total_size + size <= u64::MAX);
            }
        } else {
            assert(count_with(files, e) == count_with(prev, e));
            assert(size_with(files, e) == size_with(prev, e));
            if ext is Some {
                assert(ext->0 != e);
            }
        }
    }
}

} // verus!
