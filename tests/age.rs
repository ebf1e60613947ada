use dirpulse::age::classify_age;
use dirpulse::age::classify_elapsed;
use dirpulse::age::elapsed_between;
use dirpulse::age::instant_of;
use dirpulse::age::Instant;
use dirpulse::age::update_age_stats;
use dirpulse::age::AgeBucket;
use dirpulse::age::AgeStats;
use std::time::Duration;
use std::time::SystemTime;
use std::time::UNIX_EPOCH;

fn now() -> Instant {
    instant_of(SystemTime::now())
}

fn days_ago(days: u64) -> Instant {
    instant_of(SystemTime::now() - Duration::from_secs(days * 24 * 60 * 60))
}

#[test]
fn classify_age_now_is_fresh() {
    let modified = now();
    assert_eq!(classify_age(now(), modified), AgeBucket::Fresh);
}

#[test]
fn classify_age_one_day_is_fresh() {
    let modified = days_ago(1);
    assert_eq!(classify_age(now(), modified), AgeBucket::Fresh);
}

#[test]
fn classify_age_29_days_is_fresh() {
    let modified = days_ago(29);
    assert_eq!(classify_age(now(), modified), AgeBucket::Fresh);
}

#[test]
fn classify_age_30_days_is_aging() {
    let modified = days_ago(30);
    assert_eq!(classify_age(now(), modified), AgeBucket::Aging);
}

#[test]
fn classify_age_90_days_is_aging() {
    let modified = days_ago(90);
    assert_eq!(classify_age(now(), modified), AgeBucket::Aging);
}

#[test]
fn classify_age_179_days_is_aging() {
    let modified = days_ago(179);
    assert_eq!(classify_age(now(), modified), AgeBucket::Aging);
}

#[test]
fn classify_age_180_days_is_stale() {
    let modified = days_ago(180);
    assert_eq!(classify_age(now(), modified), AgeBucket::Stale);
}

#[test]
fn classify_age_one_year_is_stale() {
    let modified = days_ago(365);
    assert_eq!(classify_age(now(), modified), AgeBucket::Stale);
}

#[test]
fn classify_age_future_is_fresh() {
    let future = instant_of(SystemTime::now() + Duration::from_secs(24 * 60 * 60));
    assert_eq!(classify_age(now(), future), AgeBucket::Fresh);
}

const DAY: u64 = 86400;

#[test]
fn elapsed_boundaries_of_each_bucket() {
    assert_eq!(classify_elapsed(Some(0)), AgeBucket::Fresh);
    assert_eq!(classify_elapsed(Some(30 * DAY - 1)), AgeBucket::Fresh);
    assert_eq!(classify_elapsed(Some(30 * DAY)), AgeBucket::Aging);
    assert_eq!(classify_elapsed(Some(180 * DAY - 1)), AgeBucket::Aging);
    assert_eq!(classify_elapsed(Some(180 * DAY)), AgeBucket::Stale);
    assert_eq!(classify_elapsed(Some(u64::MAX)), AgeBucket::Stale);
    assert_eq!(classify_elapsed(None), AgeBucket::Fresh);
}

fn at(secs: i64, nanos: u32) -> Instant {
    Instant { secs, nanos }
}

#[test]
fn fixed_instants_at_thirty_days() {
    let now = at(1_000 * DAY as i64, 0);
    let exactly = at(now.secs - 30 * DAY as i64, 0);
    let just_under = at(now.secs - 30 * DAY as i64 + 1, 0);
    assert_eq!(classify_age(now, exactly), AgeBucket::Aging);
    assert_eq!(classify_age(now, just_under), AgeBucket::Fresh);
}

#[test]
fn fixed_instants_subsecond_and_future() {
    let now = at(1_000 * DAY as i64, 0);
    let half_second_short = at(now.secs - 30 * DAY as i64, 500_000_000);
    assert_eq!(classify_age(now, half_second_short), AgeBucket::Fresh);
    let later = at(now.secs + 400 * DAY as i64, 0);
    assert_eq!(classify_age(now, later), AgeBucket::Fresh);
    let old = at(now.secs - 200 * DAY as i64, 0);
    assert_eq!(classify_age(now, old), AgeBucket::Stale);
    assert_eq!(classify_age(now, at(now.secs - 180 * DAY as i64, 0)), AgeBucket::Stale);
    assert_eq!(classify_age(now, at(now.secs - 180 * DAY as i64 + 1, 0)), AgeBucket::Aging);
}

#[test]
fn elapsed_whole_seconds() {
    assert_eq!(elapsed_between(at(10, 0), at(10, 0)), Some(0));
    assert_eq!(elapsed_between(at(10, 200), at(7, 100)), Some(3));
    assert_eq!(elapsed_between(at(10, 100), at(7, 200)), Some(2));
    assert_eq!(elapsed_between(at(10, 100), at(10, 200)), None);
    assert_eq!(elapsed_between(at(9, 999_999_999), at(10, 0)), None);
    assert_eq!(elapsed_between(at(5, 0), at(-5, 500)), Some(9));
    assert_eq!(elapsed_between(at(i64::MAX, 0), at(i64::MIN, 0)), Some(u64::MAX));
}

#[test]
fn epoch_offsets_both_ways() {
    assert_eq!(Instant::from_epoch_offset(true, 12, 5), at(12, 5));
    assert_eq!(Instant::from_epoch_offset(false, 12, 0), at(-12, 0));
    assert_eq!(Instant::from_epoch_offset(false, 12, 250_000_000), at(-13, 750_000_000));
    assert_eq!(Instant::from_epoch_offset(true, u64::MAX, 0), at(i64::MAX, 999_999_999));
    assert_eq!(Instant::from_epoch_offset(false, u64::MAX, 0), at(i64::MIN, 0));
}

#[test]
fn system_times_become_instants() {
    assert_eq!(instant_of(UNIX_EPOCH), at(0, 0));
    assert_eq!(instant_of(UNIX_EPOCH + Duration::new(86_400, 7)), at(86_400, 7));
    assert_eq!(instant_of(UNIX_EPOCH - Duration::new(1, 500_000_000)), at(-2, 500_000_000));
}

#[test]
fn age_stats_update_one_bucket() {
    let mut stats = AgeStats::new();
    update_age_stats(&mut stats, Some(AgeBucket::Aging), 40);
    update_age_stats(&mut stats, Some(AgeBucket::Aging), 2);
    update_age_stats(&mut stats, Some(AgeBucket::Stale), 7);
    update_age_stats(&mut stats, None, 1000);
    assert_eq!(stats.fresh.count, 0);
    assert_eq!(stats.fresh.size, 0);
    assert_eq!(stats.aging.count, 2);
    assert_eq!(stats.aging.size, 42);
    assert_eq!(stats.stale.count, 1);
    assert_eq!(stats.stale.size, 7);
}
