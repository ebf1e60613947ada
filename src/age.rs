//! Age classification of files by the time elapsed since their last
//! modification, and the per-bucket accumulation of counts and sizes.

use std::time::Duration;
use std::time::SystemTime;
use std::time::UNIX_EPOCH;
use vstd::arithmetic::div_mod::lemma_fundamental_div_mod_converse;
use vstd::prelude::*;

verus! {

#[verifier::external_type_specification]
#[verifier::external_body]
pub struct ExSystemTime(SystemTime);

/// Nanoseconds in one second.
pub const NANOS_PER_SEC: u32 = 1_000_000_000;

/// A point in time: `secs` whole seconds from the Unix epoch (negative
/// before it), plus `nanos` nanoseconds.
#[derive(Clone, Copy, Debug, PartialEq, Eq, Structural)]
pub struct Instant {
    pub secs: i64,
    pub nanos: u32,
}

impl Instant {
    /// The nanoseconds part is a fraction of a second.
    pub open spec fn wf(&self) -> bool {
        self.nanos < NANOS_PER_SEC
    }

    /// Nanoseconds from the Unix epoch.
    pub open spec fn total_nanos(&self) -> int {
        self.secs as int * NANOS_PER_SEC as int + self.nanos as int
    }

    /// The instant `secs` seconds and `nanos` nanoseconds after the epoch
    /// (`after`) or before it; an offset beyond what `Instant` holds gives
    /// the latest or earliest instant it holds.
    pub fn from_epoch_offset(after: bool, secs: u64, nanos: u32) -> (r: Instant)
        requires
            nanos < NANOS_PER_SEC,
        ensures
            r.wf(),
            after && secs <= i64::MAX ==> r.total_nanos() == secs * NANOS_PER_SEC + nanos,
            after && secs > i64::MAX ==> r == (Instant { secs: i64::MAX, nanos: (NANOS_PER_SEC - 1) as u32 }),
            !after && secs < i64::MAX ==> r.total_nanos() == -(secs * NANOS_PER_SEC + nanos),
            !after && secs >= i64::MAX ==> r == (Instant { secs: i64::MIN, nanos: 0 }),
    {
        if after {
            if secs <= i64::MAX as u64 {
                Instant { secs: secs as i64, nanos }
            } else {
                Instant { secs: i64::MAX, nanos: NANOS_PER_SEC - 1 }
            }
        } else if secs < i64::MAX as u64 {
            if nanos == 0 {
                Instant { secs: -(secs as i64), nanos: 0 }
            } else {
                Instant { secs: -(secs as i64) - 1, nanos: NANOS_PER_SEC - nanos }
            }
        } else {
            Instant { secs: i64::MIN, nanos: 0 }
        }
    }
}

/// The whole seconds from `modified` to `now`; `None` where `modified` is
/// later than `now`.
pub open spec fn elapsed_secs(now: Instant, modified: Instant) -> Option<u64> {
    let d = now.total_nanos() - modified.total_nanos();
    if d < 0 {
        None
    } else {
        Some((d / NANOS_PER_SEC as int) as u64)
    }
}

/// Seconds in one day; no calendar adjustments are made.
pub const SECS_PER_DAY: u64 = 86400;

/// Files modified less than this many seconds ago are fresh.
pub const AGING_AFTER_SECS: u64 = 30 * SECS_PER_DAY;

/// Files modified at least this many seconds ago are stale.
pub const STALE_AFTER_SECS: u64 = 180 * SECS_PER_DAY;

#[derive(Clone, Copy, Debug)]
pub struct BucketStats {
    pub count: u64,
    pub size: u64,
}

#[derive(Clone, Copy, Debug)]
pub struct AgeStats {
    pub fresh: BucketStats,
    pub aging: BucketStats,
    pub stale: BucketStats,
}

#[derive(Clone, Copy, Debug, PartialEq, Eq, Structural)]
pub enum AgeBucket {
    Fresh,
    Aging,
    Stale,
}

/// The bucket of a file, given the whole seconds elapsed since its
/// modification; `None` stands for a modification time after the present.
pub open spec fn bucket_of(elapsed: Option<u64>) -> AgeBucket {
    match elapsed {
        None => AgeBucket::Fresh,
        Some(secs) => if secs < AGING_AFTER_SECS {
            AgeBucket::Fresh
        } else if secs < STALE_AFTER_SECS {
            AgeBucket::Aging
        } else {
            AgeBucket::Stale
        },
    }
}

impl BucketStats {
    /// An empty bucket.
    pub fn new() -> (r: BucketStats)
        ensures
            r.count == 0,
            r.size == 0,
    {
        BucketStats { count: 0, size: 0 }
    }

    /// Accounts for one more file of `size` bytes.
    pub fn add(&mut self, size: u64)
        requires
            old(self).count < u64::MAX,
            old(self).size + size <= u64::MAX,
        ensures
            final(self).count == old(self).count + 1,
            final(self).size == old(self).size + size,
    {
        self.count = self.count + 1;
        self.size = self.size + size;
    }
}

impl Default for BucketStats {
    fn default() -> (r: BucketStats)
        ensures
            r.count == 0,
            r.size == 0,
    {
        BucketStats::new()
    }
}

impl AgeStats {
    /// All three buckets empty.
    pub fn new() -> (r: AgeStats)
        ensures
            r.is_empty(),
    {
        AgeStats { fresh: BucketStats::new(), aging: BucketStats::new(), stale: BucketStats::new() }
    }

    pub open spec fn is_empty(&self) -> bool {
        &&& self.fresh.count == 0 && self.fresh.size == 0
        &&& self.aging.count == 0 && self.aging.size == 0
        &&& self.stale.count == 0 && self.stale.size == 0
    }

    /// The statistics of one bucket.
    pub open spec fn bucket(&self, b: AgeBucket) -> BucketStats {
        match b {
            AgeBucket::Fresh => self.fresh,
            AgeBucket::Aging => self.aging,
            AgeBucket::Stale => self.stale,
        }
    }

    /// Every bucket holds at most `count` files and `size` bytes.
    pub open spec fn bounded_by(&self, count: u64, size: u64) -> bool {
        forall|b: AgeBucket| #[trigger] self.bucket(b).count <= count && self.bucket(b).size <= size
    }

    /// `new` is `old` with one more file of `size` bytes in bucket `b`.
    pub open spec fn added(old: AgeStats, new: AgeStats, b: AgeBucket, size: u64) -> bool {
        &&& new.bucket(b).count == old.bucket(b).count + 1
        &&& new.bucket(b).size == old.bucket(b).size + size
        &&& forall|o: AgeBucket| o != b ==> #[trigger] new.bucket(o) == old.bucket(o)
    }
}

impl Default for AgeStats {
    fn default() -> (r: AgeStats)
        ensures
            r.is_empty(),
    {
        AgeStats::new()
    }
}

/// Relies on `SystemTime::duration_since`, against `UNIX_EPOCH`: the time
/// from the epoch to `t` (`Ok`), or from `t` to the epoch where `t` is
/// earlier (`Err`, the duration that the error carries).
#[verifier::external_body]
fn epoch_offset(t: &SystemTime) -> Result<Duration, Duration> {
    t.duration_since(UNIX_EPOCH).map_err(|e| e.duration())
}

/// Relies on `Duration::as_secs`: the whole seconds of a duration.
pub assume_specification[ Duration::as_secs ](d: &Duration) -> u64;

/// Relies on `Duration::subsec_nanos`: the fractional part in nanoseconds,
/// which std documents as always less than one billion.
pub assume_specification[ Duration::subsec_nanos ](d: &Duration) -> (r: u32)
    ensures
        r < NANOS_PER_SEC,
;

/// A system time as an `Instant`; see `Instant::from_epoch_offset` for
/// times beyond what `Instant` holds.
pub fn instant_of(t: SystemTime) -> (r: Instant)
    ensures
        r.wf(),
{
    match epoch_offset(&t) {
        Ok(d) => Instant::from_epoch_offset(true, d.as_secs(), d.subsec_nanos()),
        Err(d) => Instant::from_epoch_offset(false, d.as_secs(), d.subsec_nanos()),
    }
}

/// The whole seconds from `modified` to `now`; `None` where `modified` is
/// later than `now`.
pub fn elapsed_between(now: Instant, modified: Instant) -> (r: Option<u64>)
    requires
        now.wf(),
        modified.wf(),
    ensures
        r == elapsed_secs(now, modified),
{
    let ds: i128 = now.secs as i128 - modified.secs as i128;
    if ds < 0 || (ds == 0 && now.nanos < modified.nanos) {
        None
    } else {
        let borrow = now.nanos < modified.nanos;
        let whole: i128 = if borrow {
            ds - 1
        } else {
            ds
        };
        proof {
            let d = now.total_nanos() - modified.total_nanos();
            let rem: int = if borrow {
                now.nanos + NANOS_PER_SEC - modified.nanos
            } else {
                now.nanos - modified.nanos
            };
            assert(d == whole * NANOS_PER_SEC + rem);
            lemma_fundamental_div_mod_converse(d, NANOS_PER_SEC as int, whole as int, rem);
        }
        Some(whole as u64)
    }
}

/// Classifies a file by the whole seconds elapsed since its modification
/// (`None`: modified after the present). Fresh below thirty days, aging from
/// thirty up to one hundred and eighty days, stale from then on; a future
/// modification time counts as fresh.
pub fn classify_elapsed(elapsed: Option<u64>) -> (r: AgeBucket)
    ensures
        r == bucket_of(elapsed),
        elapsed is None ==> r == AgeBucket::Fresh,
        elapsed matches Some(s) && s < AGING_AFTER_SECS ==> r == AgeBucket::Fresh,
        elapsed matches Some(s) && AGING_AFTER_SECS <= s < STALE_AFTER_SECS ==> r
            == AgeBucket::Aging,
        elapsed matches Some(s) && STALE_AFTER_SECS <= s ==> r == AgeBucket::Stale,
{
    match elapsed {
        None => AgeBucket::Fresh,
        Some(secs) => if secs < AGING_AFTER_SECS {
            AgeBucket::Fresh
        } else if secs < STALE_AFTER_SECS {
            AgeBucket::Aging
        } else {
            AgeBucket::Stale
        },
    }
}

/// Classifies a modification instant against the present instant `now`
/// by the whole seconds elapsed between them, as `classify_elapsed` does.
pub fn classify_age(now: Instant, modified: Instant) -> (r: AgeBucket)
    requires
        now.wf(),
        modified.wf(),
    ensures
        r == bucket_of(elapsed_secs(now, modified)),
{
    classify_elapsed(elapsed_between(now, modified))
}

/// How stale a bucket is: fresh 0, aging 1, stale 2.
pub open spec fn staleness(b: AgeBucket) -> int {
    match b {
        AgeBucket::Fresh => 0,
        AgeBucket::Aging => 1,
        AgeBucket::Stale => 2,
    }
}

/// Against the same present time, an earlier modification is never in a
/// less stale bucket than a later one.
pub proof fn lemma_older_is_staler(now: Instant, earlier: Instant, later: Instant)
    requires
        now.wf(),
        earlier.wf(),
        later.wf(),
        earlier.total_nanos() <= later.total_nanos(),
    ensures
        staleness(bucket_of(elapsed_secs(now, earlier))) >= staleness(
            bucket_of(elapsed_secs(now, later)),
        ),
{
    let d1 = now.total_nanos() - earlier.total_nanos();
    let d2 = now.total_nanos() - later.total_nanos();
    let n = NANOS_PER_SEC as int;
    let top = (u64::MAX as int + 1) * n - 1;
    lemma_fundamental_div_mod_converse(top, n, u64::MAX as int, n - 1);
    if d2 >= 0 {
        vstd::arithmetic::div_mod::lemma_div_is_ordered(d2, d1, n);
        vstd::arithmetic::div_mod::lemma_div_pos_is_pos(d2, n);
        vstd::arithmetic::div_mod::lemma_div_is_ordered(d1, top, n);
    }
}

/// Accounts for one file of `size` bytes in the bucket given by its age;
/// a file whose age is unknown (`None`) changes no bucket.
pub fn update_age_stats(stats: &mut AgeStats, age: Option<AgeBucket>, size: u64)
    requires
        age matches Some(b) ==> old(stats).bucket(b).count < u64::MAX && old(stats).bucket(b).size
            + size <= u64::MAX,
    ensures
        age is None ==> *final(stats) == *old(stats),
        age matches Some(b) ==> AgeStats::added(*old(stats), *final(stats), b, size),
{
    match age {
        None => {},
        Some(b) => {
            match b {
                AgeBucket::Fresh => stats.fresh.add(size),
                AgeBucket::Aging => stats.aging.add(size),
                AgeBucket::Stale => stats.stale.add(size),
            }
        },
    }
}

} // verus!
