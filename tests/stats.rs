use dirpulse::age::AgeBucket;
use dirpulse::age::Instant;
use dirpulse::file_info::DirStats;
use dirpulse::file_info::Entry;
use dirpulse::file_info::EntryKind;
use dirpulse::file_info::FileInfo;
use dirpulse::histogram::ExtensionHistogram;
use dirpulse::top_files::TopFiles;
use std::path::PathBuf;

fn file(name: &str, size: u64) -> FileInfo {
    FileInfo {
        name: name.to_string(),
        path: PathBuf::from(format!("/data/{}", name)),
        size,
        extension: None,
        mod_time: Instant { secs: 0, nanos: 0 },
    }
}

fn entry(kind: EntryKind, depth: usize, name: &str, size: u64, ext: Option<&str>) -> Entry {
    Entry {
        kind,
        depth,
        name: name.to_string(),
        path: PathBuf::from(format!("/data/{}", name)),
        size,
        extension: ext.map(|e| e.to_string()),
        modified: Some(NOW),
    }
}

const NOW: Instant = Instant { secs: 1_700_000_000, nanos: 0 };

fn sizes(files: &[FileInfo]) -> Vec<u64> {
    files.iter().map(|f| f.size).collect()
}

#[test]
fn top_two_of_four() {
    let mut top = TopFiles::new(2);
    for (i, s) in [5u64, 1, 9, 3].iter().enumerate() {
        top.offer(file(&format!("f{}", i), *s));
    }
    assert_eq!(top.len(), 2);
    let drained = top.drain_sorted();
    assert_eq!(sizes(&drained), vec![9, 5]);
    assert_eq!(drained[0].name, "f2");
    assert_eq!(drained[1].name, "f0");
}

#[test]
fn zero_capacity_keeps_nothing() {
    let mut top = TopFiles::new(0);
    top.offer(file("a", 10));
    top.offer(file("b", 0));
    assert_eq!(top.len(), 0);
    assert!(top.drain_sorted().is_empty());
}

#[test]
fn capacity_beyond_offers_keeps_all_sorted() {
    let mut top = TopFiles::new(100);
    for s in [4u64, 8, 1, 8, 0, 15] {
        top.offer(file("x", s));
    }
    assert_eq!(sizes(&top.drain_sorted()), vec![15, 8, 8, 4, 1, 0]);
}

#[test]
fn equal_size_at_capacity_is_turned_away() {
    let mut top = TopFiles::new(2);
    top.offer(file("first", 7));
    top.offer(file("second", 7));
    top.offer(file("third", 7));
    let drained = top.drain_sorted();
    assert_eq!(sizes(&drained), vec![7, 7]);
    let mut names: Vec<&str> = drained.iter().map(|f| f.name.as_str()).collect();
    names.sort();
    assert_eq!(names, vec!["first", "second"]);
}

#[test]
fn larger_file_evicts_the_smallest() {
    let mut top = TopFiles::new(3);
    for (name, s) in [("a", 4u64), ("b", 2), ("c", 9), ("d", 3), ("e", 1), ("f", 10)] {
        top.offer(file(name, s));
    }
    let drained = top.drain_sorted();
    assert_eq!(sizes(&drained), vec![10, 9, 4]);
    let names: Vec<&str> = drained.iter().map(|f| f.name.as_str()).collect();
    assert_eq!(names, vec!["f", "c", "a"]);
}

#[test]
fn selection_keeps_largest_of_many() {
    let mut top = TopFiles::new(3);
    let offered = [12u64, 3, 44, 44, 7, 100, 2, 43, 44, 0];
    for s in offered {
        top.offer(file("x", s));
    }
    let mut expected = offered.to_vec();
    expected.sort_by(|a, b| b.cmp(a));
    expected.truncate(3);
    assert_eq!(sizes(&top.drain_sorted()), expected);
}

#[test]
fn histogram_counts_and_sums_per_extension() {
    let mut h = ExtensionHistogram::new();
    h.record(&Some("rs".to_string()), 10);
    h.record(&None, 99);
    h.record(&Some("md".to_string()), 5);
    h.record(&Some("rs".to_string()), 32);
    h.record(&Some("RS".to_string()), 1);
    let rs = h.get(&"rs".to_string()).unwrap();
    assert_eq!(rs.file_count, 2);
    assert_eq!(rs.total_size, 42);
    let md = h.get(&"md".to_string()).unwrap();
    assert_eq!(md.file_count, 1);
    assert_eq!(md.total_size, 5);
    assert_eq!(h.get(&"RS".to_string()).unwrap().file_count, 1);
    assert!(h.get(&"txt".to_string()).is_none());
    assert_eq!(h.len(), 3);
    assert_eq!(h.entries().len(), 3);
}

#[test]
fn files_without_extension_create_no_entry() {
    let mut h = ExtensionHistogram::new();
    h.record(&None, 1);
    h.record(&None, 2);
    assert_eq!(h.len(), 0);
    assert!(h.get(&"".to_string()).is_none());
}

#[test]
fn root_directory_is_not_counted() {
    let mut stats = DirStats::new(10);
    stats.process_entry(entry(EntryKind::Dir, 0, "root", 0, None), NOW);
    assert_eq!(stats.dir_count, 0);
    stats.process_entry(entry(EntryKind::Dir, 1, "sub", 0, None), NOW);
    assert_eq!(stats.dir_count, 1);
    stats.process_entry(entry(EntryKind::Dir, 3, "deep", 0, None), NOW);
    assert_eq!(stats.dir_count, 2);
    assert_eq!(stats.file_count, 0);
}

#[test]
fn file_ages_are_taken_against_the_given_now() {
    let mut stats = DirStats::new(10);
    let mut a = entry(EntryKind::File, 1, "a", 3, None);
    a.modified = Some(Instant { secs: NOW.secs - 30 * 86400, nanos: 0 });
    stats.process_entry(a, NOW);
    let mut b = entry(EntryKind::File, 1, "b", 4, None);
    b.modified = Some(Instant { secs: NOW.secs - 30 * 86400 + 1, nanos: 0 });
    stats.process_entry(b, NOW);
    let mut c = entry(EntryKind::File, 1, "c", 5, None);
    c.modified = Some(Instant { secs: NOW.secs + 3600, nanos: 0 });
    stats.process_entry(c, NOW);
    assert_eq!((stats.age.aging.count, stats.age.aging.size), (1, 3));
    assert_eq!((stats.age.fresh.count, stats.age.fresh.size), (2, 9));
    assert_eq!(stats.age.stale.count, 0);
}

#[test]
fn file_info_clones_equal() {
    let f = file("x.rs", 12);
    let g = f.clone();
    assert_eq!(f, g);
    assert_ne!(f, file("y.rs", 12));
}

#[test]
fn other_entries_change_nothing() {
    let mut stats = DirStats::new(10);
    stats.process_entry(entry(EntryKind::Other, 1, "fifo", 12, Some("x")), NOW);
    assert_eq!(stats.dir_count, 0);
    assert_eq!(stats.file_count, 0);
    assert_eq!(stats.total_size, 0);
    assert_eq!(stats.types.len(), 0);
}

#[test]
fn unreadable_modification_time_skips_age_only() {
    let mut stats = DirStats::new(10);
    let mut e = entry(EntryKind::File, 1, "notes.txt", 120, Some("txt"));
    e.modified = None;
    stats.process_entry(e, NOW);
    assert_eq!(stats.file_count, 1);
    assert_eq!(stats.total_size, 120);
    let txt = stats.types.get(&"txt".to_string()).unwrap();
    assert_eq!(txt.file_count, 1);
    assert_eq!(txt.total_size, 120);
    assert_eq!(stats.age.fresh.count + stats.age.aging.count + stats.age.stale.count, 0);
    let summary = stats.finalize();
    assert_eq!(summary.top_files.len(), 1);
    assert_eq!(summary.top_files[0].name, "notes.txt");
    assert_eq!(summary.top_files[0].mod_time, NOW);
}

#[test]
fn processed_files_fill_every_statistic() {
    let mut stats = DirStats::new(2);
    stats.process_entry(entry(EntryKind::Dir, 0, "root", 0, None), NOW);
    stats.process_entry(entry(EntryKind::File, 1, "a.rs", 5, Some("rs")), NOW);
    stats.process_entry(entry(EntryKind::File, 1, "b", 1, None), NOW);
    let mut old = entry(EntryKind::File, 2, "c.rs", 9, Some("rs"));
    old.modified = Some(Instant { secs: NOW.secs - 200 * 86400, nanos: 0 });
    stats.process_entry(old, NOW);
    stats.process_entry(entry(EntryKind::File, 2, "d.md", 3, Some("md")), NOW);
    assert_eq!(stats.file_count, 4);
    assert_eq!(stats.total_size, 18);
    assert_eq!(stats.age.fresh.count, 3);
    assert_eq!(stats.age.fresh.size, 9);
    assert_eq!(stats.age.stale.count, 1);
    assert_eq!(stats.age.stale.size, 9);
    let rs = stats.types.get(&"rs".to_string()).unwrap();
    assert_eq!((rs.file_count, rs.total_size), (2, 14));
    let summary = stats.finalize();
    assert_eq!(summary.total_size, 18);
    assert_eq!(summary.file_count, 4);
    assert_eq!(summary.dir_count, 0);
    assert_eq!(sizes(&summary.top_files), vec![9, 5]);
    assert_eq!(summary.top_total(), 14);
    assert_eq!(summary.top_share_hundredths(), 7778);
}

#[test]
fn record_file_with_known_bucket() {
    let mut stats = DirStats::new(1);
    stats.record_file(file("a", 30), Some(AgeBucket::Aging));
    stats.record_file(file("b", 70), None);
    assert_eq!(stats.age.aging.count, 1);
    assert_eq!(stats.age.aging.size, 30);
    let summary = stats.finalize();
    assert_eq!(sizes(&summary.top_files), vec![70]);
    assert_eq!(summary.top_share_hundredths(), 7000);
}

#[test]
fn empty_total_gives_zero_share() {
    let summary = DirStats::new(10).finalize();
    assert_eq!(summary.total_size, 0);
    assert_eq!(summary.top_total(), 0);
    assert_eq!(summary.top_share_hundredths(), 0);
}

#[test]
fn zero_sized_files_give_zero_share() {
    let mut stats = DirStats::new(10);
    stats.record_file(file("empty", 0), None);
    let summary = stats.finalize();
    assert_eq!(summary.top_files.len(), 1);
    assert_eq!(summary.top_share_hundredths(), 0);
}

#[test]
fn share_rounds_to_nearest_hundredth() {
    let mut stats = DirStats::new(1);
    stats.record_file(file("a", 1), None);
    stats.record_file(file("b", 2), None);
    assert_eq!(stats.finalize().top_share_hundredths(), 6667);
    let mut stats = DirStats::new(1);
    stats.record_file(file("c", 1), None);
    stats.record_file(file("d", 1), None);
    stats.record_file(file("e", 1), None);
    assert_eq!(stats.finalize().top_share_hundredths(), 3333);
}

#[test]
fn equal_size_at_capacity_leaves_aggregate_selection() {
    let mut stats = DirStats::new(1);
    stats.record_file(file("first", 5), None);
    stats.record_file(file("second", 5), None);
    let summary = stats.finalize();
    assert_eq!(summary.top_files.len(), 1);
    assert_eq!(summary.top_files[0].name, "first");
}

#[test]
fn all_files_kept_give_full_share() {
    let mut stats = DirStats::new(10);
    stats.record_file(file("a", 1), None);
    stats.record_file(file("b", 2), None);
    assert_eq!(stats.finalize().top_share_hundredths(), 10000);
}
