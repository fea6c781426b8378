use duptool::config::{CompareConfig, Concurrency, DigestMode, QuarantineMode};
use duptool::config::digest_passes;
use duptool::fingerprint::{next_read, Fingerprinter};
use duptool::partition::{candidate_buckets, classify, group_by_name, name_buckets, refine_by_digest, size_buckets};
use duptool::record::{emit_groups, has_files_from_both_folders, FileRecord, PartKind, PathPart};
use duptool::quarantine::{plan_moves, should_move};
use duptool::schedule::{chunk_for_workers, origin_split, split_into_chunks};

fn part(s: &str) -> PathPart {
    PathPart { kind: PartKind::Normal, text: s.to_string() }
}

fn path(parts: &[&str]) -> Vec<PathPart> {
    parts.iter().map(|p| part(p)).collect()
}

fn rec(parts: &[&str], size: u64, origin: usize) -> FileRecord {
    FileRecord { path: path(parts), size, origin }
}

fn texts(p: &[PathPart]) -> Vec<String> {
    p.iter().map(|c| c.text.clone()).collect()
}

fn config(content: bool, name: bool, bidirectional: bool) -> CompareConfig {
    CompareConfig {
        content,
        name,
        size: false,
        quick: false,
        quick_prefilter: false,
        bidirectional,
        concurrency: Concurrency::Sequential,
        hdd_optimized: false,
        quarantine: QuarantineMode::Off,
        debug: false,
    }
    .normalized()
}

/// Digests content the way a worker does: read by read, as `next_read` asks.
fn digest_of(content: &[u8], mode: DigestMode) -> String {
    let mut fp = Fingerprinter::new();
    let mut done: u64 = 0;
    while let Some((off, n)) = next_read(content.len() as u64, mode, done) {
        fp.consume(&content[off as usize..(off + n) as usize]);
        done += n;
    }
    fp.finish()
}

fn outcomes_for(buckets: &Vec<Vec<usize>>, contents: &[&[u8]]) -> Vec<Vec<Option<String>>> {
    buckets
        .iter()
        .map(|b| b.iter().map(|&i| Some(digest_of(contents[i], DigestMode::Full))).collect())
        .collect()
}

#[test]
fn equal_files_across_trees_form_one_group() {
    let records = vec![rec(&["a", "x.txt"], 4, 0), rec(&["b", "x.txt"], 4, 1)];
    let cfg = config(true, false, true);
    let buckets = candidate_buckets(&records, &cfg);
    assert_eq!(buckets, vec![vec![0, 1]]);
    let contents: [&[u8]; 2] = [b"abcd", b"abcd"];
    let groups = classify(&records, &buckets, &outcomes_for(&buckets, &contents), cfg.bidirectional);
    assert_eq!(groups, vec![vec![0, 1]]);
    let reported = emit_groups(&records, &groups);
    assert_eq!(reported.len(), 1);
    assert_eq!(reported[0].size, 4);
    assert_eq!(reported[0].first.len(), 1);
    assert_eq!(reported[0].second.len(), 1);
    assert_eq!(texts(&reported[0].first[0]), vec!["a", "x.txt"]);
    assert_eq!(texts(&reported[0].second[0]), vec!["b", "x.txt"]);
    let steps = plan_moves(&reported, &path(&["a"]), &path(&["b"]), false);
    assert_eq!(steps.len(), 1);
    assert_eq!(texts(&steps[0].source), vec!["a", "x.txt"]);
    assert_eq!(texts(&steps[0].target), vec!["a", "deleted", "x.txt"]);
    assert!(should_move(&steps[0], true));
}

#[test]
fn repeated_detection_gives_equal_groups() {
    let records = vec![
        rec(&["a", "1"], 3, 0),
        rec(&["b", "2"], 3, 1),
        rec(&["a", "3"], 3, 0),
        rec(&["b", "4"], 8, 1),
        rec(&["a", "5"], 8, 0),
    ];
    let contents: [&[u8]; 5] = [b"abc", b"abc", b"xyz", b"12345678", b"12345678"];
    let run = || {
        let cfg = config(true, false, true);
        let buckets = candidate_buckets(&records, &cfg);
        classify(&records, &buckets, &outcomes_for(&buckets, &contents), cfg.bidirectional)
    };
    let first = run();
    assert_eq!(first, vec![vec![0, 1], vec![3, 4]]);
    assert_eq!(run(), first);
}

#[test]
fn equal_size_different_content_not_grouped() {
    let records = vec![rec(&["a", "p"], 3, 0), rec(&["b", "q"], 3, 1)];
    let cfg = config(true, false, false);
    let buckets = candidate_buckets(&records, &cfg);
    assert_eq!(buckets, vec![vec![0, 1]]);
    let contents: [&[u8]; 2] = [b"abc", b"abd"];
    let groups = classify(&records, &buckets, &outcomes_for(&buckets, &contents), false);
    assert!(groups.is_empty());
}

#[test]
fn one_tree_only_size_group_dropped_when_bidirectional() {
    let records = vec![rec(&["a", "1"], 7, 0), rec(&["a", "2"], 7, 0), rec(&["a", "3"], 7, 0)];
    assert!(size_buckets(&records, true).is_empty());
    assert_eq!(size_buckets(&records, false), vec![vec![0, 1, 2]]);
}

#[test]
fn equal_length_and_digest_share_a_group() {
    let records = vec![
        rec(&["a", "one"], 5, 0),
        rec(&["a", "two"], 5, 0),
        rec(&["a", "three"], 5, 0),
        rec(&["b", "four"], 9, 1),
    ];
    let buckets = size_buckets(&records, false);
    assert_eq!(buckets, vec![vec![0, 1, 2]]);
    let contents: [&[u8]; 4] = [b"hello", b"world", b"hello", b"123456789"];
    let groups = classify(&records, &buckets, &outcomes_for(&buckets, &contents), false);
    assert_eq!(groups, vec![vec![0, 2]]);
}

#[test]
fn bidirectional_groups_have_both_trees() {
    let records = vec![
        rec(&["a", "1"], 2, 0),
        rec(&["a", "2"], 2, 0),
        rec(&["b", "3"], 2, 1),
        rec(&["a", "4"], 2, 0),
    ];
    let buckets = size_buckets(&records, true);
    let contents: [&[u8]; 4] = [b"zz", b"zz", b"yy", b"yy"];
    let groups = classify(&records, &buckets, &outcomes_for(&buckets, &contents), true);
    assert_eq!(groups, vec![vec![2, 3]]);
    for g in &groups {
        assert!(has_files_from_both_folders(&records, g));
    }
    let reported = emit_groups(&records, &groups);
    assert!(!reported[0].first.is_empty() && !reported[0].second.is_empty());
    let one_sided = classify(&records, &buckets, &vec![vec![Some("d".to_string()); 4]], true);
    assert_eq!(one_sided, vec![vec![0, 1, 2, 3]]);
}

#[test]
fn unreadable_files_are_left_out() {
    let records = vec![rec(&["a", "1"], 2, 0), rec(&["b", "2"], 2, 1), rec(&["b", "3"], 2, 1)];
    let bucket = vec![0, 1, 2];
    let outcomes = vec![Some("d".to_string()), None, Some("d".to_string())];
    assert_eq!(refine_by_digest(&records, &bucket, &outcomes, false), vec![vec![0, 2]]);
    let outcomes = vec![Some("d".to_string()), None, Some("e".to_string())];
    assert!(refine_by_digest(&records, &bucket, &outcomes, false).is_empty());
}

#[test]
fn names_split_size_groups() {
    let records = vec![
        rec(&["a", "x.txt"], 4, 0),
        rec(&["a", "y.txt"], 4, 0),
        rec(&["b", "x.txt"], 4, 1),
        rec(&["b", "X.txt"], 4, 1),
    ];
    assert_eq!(group_by_name(&records, &vec![0, 1, 2, 3]), vec![vec![0, 2], vec![1], vec![3]]);
    let by_size = size_buckets(&records, false);
    assert_eq!(name_buckets(&records, &by_size, false), vec![vec![0, 2]]);
    let cfg = config(false, true, false);
    assert_eq!(candidate_buckets(&records, &cfg), vec![vec![0, 2]]);
}

#[test]
fn size_groups_follow_first_appearance() {
    let records = vec![
        rec(&["a", "1"], 10, 0),
        rec(&["a", "2"], 20, 0),
        rec(&["b", "3"], 20, 1),
        rec(&["b", "4"], 10, 1),
        rec(&["b", "5"], 30, 1),
    ];
    assert_eq!(size_buckets(&records, false), vec![vec![0, 3], vec![1, 2]]);
    assert!(has_files_from_both_folders(&records, &vec![0, 3]));
    assert!(!has_files_from_both_folders(&records, &vec![0, 1]));
}

#[test]
fn configuration_defaults_and_passes() {
    let c = config(false, false, false);
    assert!(c.content && c.size);
    let c = config(false, true, false);
    assert!(!c.content && c.name && !c.size);
    assert!(digest_passes(&c).is_empty());
    let mut q = config(true, false, false);
    q.quick = true;
    assert_eq!(digest_passes(&q), vec![DigestMode::Quick]);
    q.quick_prefilter = true;
    assert_eq!(digest_passes(&q), vec![DigestMode::Quick, DigestMode::Full]);
    assert_eq!(digest_passes(&config(true, false, false)), vec![DigestMode::Full]);
}

#[test]
fn chunked_and_split_runs_match_a_single_pass() {
    let records: Vec<FileRecord> = (0..12)
        .map(|i| rec(&["t", &i.to_string()], (i % 3) as u64, (i % 2) as usize))
        .collect();
    let contents: Vec<&[u8]> = (0..12).map(|i| if i % 4 < 2 { &b"aa"[..] } else { &b"bb"[..] }).collect();
    let buckets = size_buckets(&records, false);
    let whole = classify(&records, &buckets, &outcomes_for(&buckets, &contents), false);
    let chunks = split_into_chunks(buckets.clone(), 2, false);
    let mut merged = Vec::new();
    for c in &chunks {
        merged.extend(classify(&records, c, &outcomes_for(c, &contents), false));
    }
    assert_eq!(merged, whole);
    let (lead0, lead1) = origin_split(&records, &buckets);
    let mut both = classify(&records, &lead0, &outcomes_for(&lead0, &contents), false);
    both.extend(classify(&records, &lead1, &outcomes_for(&lead1, &contents), false));
    let mut a = both.clone();
    let mut b = whole.clone();
    a.sort();
    b.sort();
    assert_eq!(a, b);
    let for_workers = chunk_for_workers(buckets.clone(), true);
    assert!(for_workers.len() <= 4);
    assert_eq!(for_workers.concat(), buckets);
}

#[test]
fn chunks_are_contiguous_and_capped() {
    let items: Vec<u32> = (0..10).collect();
    assert_eq!(
        split_into_chunks(items.clone(), 4, false),
        vec![vec![0, 1, 2], vec![3, 4, 5], vec![6, 7, 8], vec![9]]
    );
    assert_eq!(split_into_chunks(items.clone(), 16, true).len(), 4);
    assert_eq!(split_into_chunks(items.clone(), 16, false).len(), 10);
    assert_eq!(split_into_chunks(items.clone(), 0, false), vec![items.clone()]);
    assert!(split_into_chunks(Vec::<u32>::new(), 3, false).is_empty());
}

#[test]
fn origin_split_by_first_member() {
    let records = vec![rec(&["a"], 1, 0), rec(&["b"], 1, 1), rec(&["c"], 2, 1), rec(&["d"], 2, 0)];
    let groups = vec![vec![0, 1], vec![2, 3]];
    let (first, second) = origin_split(&records, &groups);
    assert_eq!(first, vec![vec![0, 1]]);
    assert_eq!(second, vec![vec![2, 3]]);
}
