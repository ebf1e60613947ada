//! Records of observed files and the aggregation of a whole pass.

use crate::age::bucket_of;
use crate::age::classify_age;
use crate::age::elapsed_secs;
use crate::age::Instant;
use crate::age::update_age_stats;
use crate::age::AgeBucket;
use crate::age::AgeStats;
use crate::histogram::ext_view;
use crate::histogram::recorded;
use crate::histogram::count_with;
use crate::histogram::lemma_histogram_totals;
use crate::histogram::recorded_all;
use crate::histogram::size_with;
use crate::histogram::ExtensionHistogram;
use crate::top_files::lemma_holds_largest;
use crate::top_files::lemma_size_sum_concat;
use crate::top_files::lemma_size_sum_nonneg;
use crate::top_files::size_sum;
use crate::top_files::sorted_by_size_desc;
use crate::top_files::TopFiles;
use std::path::PathBuf;
use vstd::prelude::*;

verus! {

#[verifier::external_type_specification]
#[verifier::external_body]
pub struct ExPathBuf(PathBuf);

/// Relies on `PathBuf`'s `Clone`: a copy of the path, which the derived
/// `Clone` of `FileInfo` makes; nothing is claimed of it.
pub assume_specification[ <PathBuf as Clone>::clone ](p: &PathBuf) -> PathBuf;

/// One observed regular file.
#[derive(Clone, Debug, PartialEq, Eq)]
pub struct FileInfo {
    pub name: String,
    pub path: PathBuf,
    pub size: u64,
    pub extension: Option<String>,
    pub mod_time: Instant,
}

/// The number and total size of the files of one extension.
#[derive(Clone, Copy, Debug)]
pub struct TypeStats {
    pub file_count: u64,
    pub total_size: u64,
}

/// What a traversal entry was found to be.
#[derive(Clone, Copy, Debug, PartialEq, Eq, Structural)]
pub enum EntryKind {
    Dir,
    File,
    Other,
}

/// One entry of a traversal, with what was read of it. `depth` is 0 for the
/// root of the walk; `modified` is `None` where the modification time could
/// not be read.
#[derive(Debug)]
pub struct Entry {
    pub kind: EntryKind,
    pub depth: usize,
    pub name: String,
    pub path: PathBuf,
    pub size: u64,
    pub extension: Option<String>,
    pub modified: Option<Instant>,
}

/// Running statistics of one traversal.
pub struct DirStats {
    pub total_size: u64,
    pub file_count: u64,
    pub dir_count: u64,
    pub top_files: TopFiles,
    pub types: ExtensionHistogram,
    pub age: AgeStats,
    pub ages: Ghost<Seq<Option<AgeBucket>>>,
}

/// The statistics of a finished traversal; the largest files come first.
pub struct Summary {
    pub total_size: u64,
    pub file_count: u64,
    pub dir_count: u64,
    pub types: ExtensionHistogram,
    pub age: AgeStats,
    pub top_files: Vec<FileInfo>,
}

/// The share of `part` in `whole` in hundredths of a percent, rounded to
/// the nearest (a half rounds up); zero when `whole` is zero.
pub open spec fn share_hundredths(part: int, whole: int) -> int {
    if whole == 0 {
        0
    } else {
        (2 * part * 10000 + whole) / (2 * whole)
    }
}

/// The extension and size of each file, in order.
pub open spec fn ext_sizes(files: Seq<FileInfo>) -> Seq<(Option<Seq<char>>, u64)> {
    files.map_values(|f: FileInfo| (ext_view(f.extension), f.size))
}

/// Files of one extension are no more than all files, and their sizes add
/// up to no more than all sizes.
proof fn lemma_ext_share(files: Seq<FileInfo>, e: Seq<char>)
    ensures
        count_with(ext_sizes(files), e) <= files.len(),
        size_with(ext_sizes(files), e) <= size_sum(files),
    decreases files.len(),
{
    if files.len() > 0 {
        lemma_ext_share(files.drop_last(), e);
        assert(ext_sizes(files).drop_last() =~= ext_sizes(files.drop_last()));
    }
}

/// At any point of a traversal, an extension has an entry exactly when some
/// recorded file had it; the entry then counts those files and sums their
/// sizes.
pub proof fn lemma_stats_extension_totals(stats: &DirStats, e: Seq<char>)
    requires
        stats.wf(),
    ensures
        stats.types@.contains_key(e) <==> count_with(ext_sizes(stats.top_files.offered()), e) > 0,
        stats.types@.contains_key(e) ==> stats.types@[e].file_count == count_with(
            ext_sizes(stats.top_files.offered()),
            e,
        ) && stats.types@[e].total_size == size_with(ext_sizes(stats.top_files.offered()), e),
{
    lemma_ext_share(stats.top_files.offered(), e);
    lemma_histogram_totals(ext_sizes(stats.top_files.offered()), e);
}

/// At any point of a traversal, the kept files number the smaller of the
/// selection's capacity and the files recorded; each was recorded; and each
/// is at least as large as every recorded file that is not kept. With
/// capacity zero nothing is kept.
pub proof fn lemma_stats_keeps_largest(stats: &DirStats)
    requires
        stats.wf(),
    ensures
        stats.top_files@.len() == if stats.top_files.capacity() < stats.file_count {
            stats.top_files.capacity()
        } else {
            stats.file_count as nat
        },
        stats.top_files@.to_multiset().subset_of(stats.top_files.offered().to_multiset()),
        forall|f: FileInfo, i: int|
            #![trigger stats.top_files.offered().to_multiset().sub(stats.top_files@.to_multiset()).count(f), stats.top_files@[i]]
            0 <= i < stats.top_files@.len() && stats.top_files.offered().to_multiset().sub(
                stats.top_files@.to_multiset(),
            ).count(f) > 0 ==> stats.top_files@[i].size >= f.size,
{
    lemma_holds_largest(&stats.top_files);
}

/// How many of `ages` are bucket `b`.
pub open spec fn count_in(ages: Seq<Option<AgeBucket>>, b: AgeBucket) -> nat
    decreases ages.len(),
{
    if ages.len() == 0 {
        0
    } else {
        count_in(ages.drop_last(), b) + if ages.last() == Some(b) {
            1nat
        } else {
            0nat
        }
    }
}

/// The total size of those of `files` whose age, at the same place in
/// `ages`, is bucket `b`.
pub open spec fn size_in(files: Seq<FileInfo>, ages: Seq<Option<AgeBucket>>, b: AgeBucket) -> int
    decreases files.len(),
{
    if files.len() == 0 || ages.len() == 0 {
        0
    } else {
        size_in(files.drop_last(), ages.drop_last(), b) + if ages.last() == Some(b) {
            files.last().size as int
        } else {
            0
        }
    }
}

impl DirStats {
    /// The age bucket of each recorded file, in order; `None` where its
    /// modification time was not known.
    pub open spec fn ages(&self) -> Seq<Option<AgeBucket>> {
        self.ages@
    }

    /// Besides the parts' own invariants: the counts, the extension
    /// histogram and the age buckets are those of the files recorded so
    /// far, and the kept files and every bucket fit within the totals.
    pub open spec fn wf(&self) -> bool {
        &&& self.ages().len() == self.top_files.offered().len()
        &&& forall|b: AgeBucket|
            #[trigger] self.age.bucket(b).count == count_in(self.ages(), b) && self.age.bucket(
                b,
            ).size == size_in(self.top_files.offered(), self.ages(), b)
        &&& self.file_count == self.top_files.offered().len()
        &&& self.total_size == size_sum(self.top_files.offered())
        &&& self.types@ == recorded_all(ext_sizes(self.top_files.offered()))
        &&& self.top_files.wf()
        &&& self.types.wf()
        &&& size_sum(self.top_files@) <= self.total_size
        &&& forall|k: Seq<char>|
            #[trigger] self.types@.contains_key(k) ==> self.types@[k].file_count <= self.file_count
                && self.types@[k].total_size <= self.total_size
        &&& self.age.bounded_by(self.file_count, self.total_size)
    }

    /// `new` is `old` after one regular file `file`, whose age bucket is
    /// `age` (`None`: its modification time could not be read).
    pub open spec fn file_recorded(
        old: DirStats,
        new: DirStats,
        file: FileInfo,
        age: Option<AgeBucket>,
    ) -> bool {
        &&& new.file_count == old.file_count + 1
        &&& new.total_size == old.total_size + file.size
        &&& new.dir_count == old.dir_count
        &&& new.types@ == recorded(old.types@, ext_view(file.extension), file.size)
        &&& age is None ==> new.age == old.age
        &&& age matches Some(b) ==> AgeStats::added(old.age, new.age, b, file.size)
        &&& new.top_files.capacity() == old.top_files.capacity()
        &&& new.top_files.offered() == old.top_files.offered().push(file)
        &&& TopFiles::offer_outcome(old.top_files, new.top_files, file)
        &&& new.ages() == old.ages().push(age)
    }

    /// Whether one more file of `size` bytes keeps the totals within `u64`.
    pub open spec fn has_room(&self, size: u64) -> bool {
        self.file_count < u64::MAX && self.total_size + size <= u64::MAX
    }

    /// Empty statistics whose selection keeps the `top_size` largest files.
    pub fn new(top_size: usize) -> (r: DirStats)
        ensures
            r.wf(),
            r.total_size == 0,
            r.file_count == 0,
            r.dir_count == 0,
            r.top_files.capacity() == top_size,
            r.top_files.offered() == Seq::<FileInfo>::empty(),
            r.types@ == Map::<Seq<char>, TypeStats>::empty(),
            r.age.is_empty(),
    {
        DirStats {
            total_size: 0,
            file_count: 0,
            dir_count: 0,
            top_files: TopFiles::new(top_size),
            types: ExtensionHistogram::new(),
            age: AgeStats::new(),
            ages: Ghost(Seq::empty()),
        }
    }

    /// Accounts for one regular file: counts, total size, its extension's
    /// entry, the bucket `age` if known, and the selection of largest files.
    pub fn record_file(&mut self, file: FileInfo, age: Option<AgeBucket>)
        requires
            old(self).wf(),
            old(self).has_room(file.size),
        ensures
            final(self).wf(),
            DirStats::file_recorded(*old(self), *final(self), file, age),
    {
        let size = file.size;
        self.types.record(&file.extension, size);
        update_age_stats(&mut self.age, age, size);
        self.file_count = self.file_count + 1;
        self.total_size = self.total_size + size;
        self.top_files.offer(file);
        proof {
            self.ages@ = self.ages@.push(age);
            let n = *self;
            let prev = old(self).top_files.offered();
            assert(n.ages().drop_last() =~= old(self).ages());
            assert(n.top_files.offered().drop_last() =~= prev);
            assert forall|b: AgeBucket| #[trigger] n.age.bucket(b).count == count_in(n.ages(), b)
                && n.age.bucket(b).size == size_in(n.top_files.offered(), n.ages(), b) by {
                assert(old(self).age.bucket(b).count == count_in(old(self).ages(), b));
                assert(old(self).age.bucket(b).size == size_in(prev, old(self).ages(), b));
            }
            assert(ext_sizes(n.top_files.offered()).drop_last() =~= ext_sizes(prev));
            assert forall|k: Seq<char>| #[trigger] n.types@.contains_key(k) implies n.types@[k].file_count
                <= n.file_count && n.types@[k].total_size <= n.total_size by {
                if !old(self).types@.contains_key(k) {
                    assert(n.types@[k].file_count == 1);
                }
            }
            assert forall|b: AgeBucket| #[trigger] n.age.bucket(b).count <= n.file_count && n.age.bucket(b).size
                <= n.total_size by {
                assert(old(self).age.bucket(b).count <= old(self).file_count);
            }
        }
    }

    /// Accounts for one traversal entry, with `now` the present time of the
    /// run. A directory other than the root of the walk adds to the
    /// directory count; a regular file is recorded, in the age bucket of its
    /// modification time against `now` when that time is known (the record
    /// then carries `now` in its place); any other entry changes nothing.
    pub fn process_entry(&mut self, entry: Entry, now: Instant)
        requires
            old(self).wf(),
            now.wf(),
            entry.modified matches Some(m) ==> m.wf(),
            entry.kind == EntryKind::File ==> old(self).has_room(entry.size),
            entry.kind == EntryKind::Dir && entry.depth > 0 ==> old(self).dir_count < u64::MAX,
        ensures
            final(self).wf(),
            entry.kind == EntryKind::Dir && entry.depth > 0 ==> {
                &&& final(self).dir_count == old(self).dir_count + 1
                &&& final(self).file_count == old(self).file_count
                &&& final(self).total_size == old(self).total_size
                &&& final(self).top_files == old(self).top_files
                &&& final(self).types == old(self).types
                &&& final(self).age == old(self).age
            },
            entry.kind == EntryKind::Other || (entry.kind == EntryKind::Dir && entry.depth == 0)
                ==> *final(self) == *old(self),
            entry.kind == EntryKind::File ==> DirStats::file_recorded(
                *old(self),
                *final(self),
                (FileInfo {
                    name: entry.name,
                    path: entry.path,
                    size: entry.size,
                    extension: entry.extension,
                    mod_time: match entry.modified {
                        Some(m) => m,
                        None => now,
                    },
                }),
                match entry.modified {
                    Some(m) => Some(bucket_of(elapsed_secs(now, m))),
                    None => None,
                },
            ),
    {
        match entry.kind {
            EntryKind::Dir => {
                if entry.depth > 0 {
                    self.dir_count = self.dir_count + 1;
                }
            },
            EntryKind::File => {
                let (age, mod_time) = match entry.modified {
                    Some(m) => (Some(classify_age(now, m)), m),
                    None => (None, now),
                };
                let file = FileInfo {
                    name: entry.name,
                    path: entry.path,
                    size: entry.size,
                    extension: entry.extension,
                    mod_time,
                };
                self.record_file(file, age);
            },
            EntryKind::Other => {},
        }
    }

    /// Ends the traversal: hands out the statistics with the selection
    /// drained, largest files first.
    pub fn finalize(self) -> (r: Summary)
        requires
            self.wf(),
        ensures
            r.wf(),
            r.total_size == self.total_size,
            r.file_count == self.file_count,
            r.dir_count == self.dir_count,
            r.types@ == self.types@,
            r.age == self.age,
            r.top_files@.to_multiset() == self.top_files@.to_multiset(),
            r.top_files@.len() == self.top_files@.len(),
    {
        let DirStats { total_size, file_count, dir_count, top_files, types, age, .. } = self;
        Summary { total_size, file_count, dir_count, types, age, top_files: top_files.drain_sorted() }
    }
}

impl Summary {
    pub open spec fn wf(&self) -> bool {
        &&& self.types.wf()
        &&& sorted_by_size_desc(self.top_files@)
        &&& size_sum(self.top_files@) <= self.total_size
    }

    /// The total size of the largest files kept.
    pub fn top_total(&self) -> (r: u64)
        requires
            self.wf(),
        ensures
            r == size_sum(self.top_files@),
    {
        let ghost s = self.top_files@;
        let mut acc: u64 = 0;
        let mut i: usize = 0;
        while i < self.top_files.len()
            invariant
                s == self.top_files@,
                i <= s.len(),
                acc == size_sum(s.subrange(0, i as int)),
                size_sum(s) <= self.total_size,
            decreases s.len() - i,
        {
            proof {
                let pre = s.subrange(0, i as int + 1);
                assert(pre.drop_last() =~= s.subrange(0, i as int));
                assert(s =~= pre + s.subrange(i as int + 1, s.len() as int));
                lemma_size_sum_concat(pre, s.subrange(i as int + 1, s.len() as int));
                lemma_size_sum_nonneg(s.subrange(i as int + 1, s.len() as int));
            }
            acc = acc + self.top_files[i].size;
            i = i + 1;
        }
        assert(s.subrange(0, i as int) =~= s);
        acc
    }

    /// The share of the largest files in the total size, in hundredths of
    /// a percent, rounded to the nearest; zero when the total size is zero.
    pub fn top_share_hundredths(&self) -> (r: u64)
        requires
            self.wf(),
        ensures
            r == share_hundredths(size_sum(self.top_files@), self.total_size as int),
            r <= 10000,
    {
        let part = self.top_total();
        if self.total_size == 0 {
            0
        } else {
            let whole = self.total_size as u128;
            let scaled = 2 * (part as u128) * 10000 + whole;
            let r = scaled / (2 * whole);
            proof {
                let w = whole as int;
                let limit = 10001 * (2 * w) - 1;
                assert(scaled as int <= limit);
                vstd::arithmetic::div_mod::lemma_div_is_ordered(scaled as int, limit, 2 * w);
                vstd::arithmetic::div_mod::lemma_fundamental_div_mod_converse(
                    limit,
                    2 * w,
                    10000,
                    2 * w - 1,
                );
            }
            r as u64
        }
    }
}

} // verus!
