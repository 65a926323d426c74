use std::collections::HashMap;

use dedup_files::digest::{digest_to_hex, fingerprint};
use dedup_files::dump::dump_text;
use dedup_files::index::{hash_entry, successful_pairs, DuplicateIndex, HashOutcome};
use dedup_files::plan::{removal_plan, run_plan, Action};
use dedup_files::pool::{default_worker_count, worker_count};

fn hashed(path: &str, content: &[u8]) -> HashOutcome {
    hash_entry(path.to_string(), Ok(content.to_vec()))
}

fn index_of_files(files: &[(&str, &[u8])]) -> DuplicateIndex {
    let outcomes: Vec<HashOutcome> = files.iter().map(|(p, c)| hashed(p, c)).collect();
    DuplicateIndex::from_outcomes(&outcomes)
}

fn membership(index: &DuplicateIndex) -> Vec<(String, Vec<String>)> {
    let mut groups: Vec<(String, Vec<String>)> = index
        .groups()
        .iter()
        .map(|g| {
            let mut paths = g.paths.clone();
            paths.sort();
            (g.digest.clone(), paths)
        })
        .collect();
    groups.sort();
    groups
}

fn describe(actions: &[Action]) -> Vec<String> {
    actions
        .iter()
        .map(|a| match a {
            Action::Remove { path } => format!("rm {}", path),
            Action::Link { original, at } => format!("ln {} {}", original, at),
        })
        .collect()
}

#[test]
fn hex_writes_high_nibble_first() {
    assert_eq!(digest_to_hex(&[0x00, 0xab, 0x10, 0xff]), "00ab10ff");
    assert_eq!(digest_to_hex(&[]), "");
}

#[test]
fn fingerprint_of_known_contents() {
    assert_eq!(fingerprint(b""), "da39a3ee5e6b4b0d3255bfef95601890afd80709");
    assert_eq!(fingerprint(b"abc"), "a9993e364706816aba3e25717850c26c9cd0d89d");
}

#[test]
fn fingerprint_separates_contents() {
    assert_eq!(fingerprint(b"x"), fingerprint(b"x"));
    assert_ne!(fingerprint(b"x"), fingerprint(b"y"));
    assert_eq!(fingerprint(b"x").len(), 40);
}

#[test]
fn worker_count_is_half_and_at_least_one() {
    assert_eq!(worker_count(0), 1);
    assert_eq!(worker_count(1), 1);
    assert_eq!(worker_count(3), 1);
    assert_eq!(worker_count(5), 2);
    assert_eq!(worker_count(8), 4);
    assert!(default_worker_count() >= 1);
}

#[test]
fn unreadable_file_is_skipped_with_reason() {
    match hash_entry("a".to_string(), Err("permission denied".to_string())) {
        HashOutcome::Skipped { path, reason } => {
            assert_eq!(path, "a");
            assert_eq!(reason, "permission denied");
        }
        HashOutcome::Hashed { .. } => panic!("an unreadable file was hashed"),
    }
    match hashed("b", b"abc") {
        HashOutcome::Hashed { digest, path } => {
            assert_eq!(digest.len(), 40);
            assert_eq!(digest, "a9993e364706816aba3e25717850c26c9cd0d89d");
            assert_eq!(path, "b");
        }
        HashOutcome::Skipped { .. } => panic!("a readable file was skipped"),
    }
}

#[test]
fn successful_pairs_keep_order_and_drop_skips() {
    let outcomes = vec![
        hashed("a", b"x"),
        hash_entry("b".to_string(), Err("gone".to_string())),
        hashed("c", b"y"),
    ];
    let pairs = successful_pairs(&outcomes);
    assert_eq!(
        pairs,
        vec![(fingerprint(b"x"), "a".to_string()), (fingerprint(b"y"), "c".to_string())]
    );
}

#[test]
fn two_equal_files_and_one_other() {
    let index = index_of_files(&[("A", b"x"), ("B", b"x"), ("C", b"y")]);
    assert_eq!(index.len(), 2);
    let x = fingerprint(b"x");
    let y = fingerprint(b"y");
    assert_eq!(index.paths_of(&x), Some(&vec!["A".to_string(), "B".to_string()]));
    assert_eq!(index.paths_of(&y), Some(&vec!["C".to_string()]));
    let plan = removal_plan(&index, false);
    assert_eq!(describe(&plan), vec!["rm B".to_string()]);
    let linked = removal_plan(&index, true);
    assert_eq!(describe(&linked), vec!["rm B".to_string(), "ln A B".to_string()]);
}

#[test]
fn empty_directory_gives_empty_index() {
    let index = DuplicateIndex::from_outcomes(&Vec::new());
    assert!(index.is_empty());
    assert_eq!(index.len(), 0);
    let text = dump_text(&index).ok().unwrap();
    assert_eq!(text, "{}");
    let parsed: HashMap<String, Vec<String>> = serde_json::from_str(&text).unwrap();
    assert!(parsed.is_empty());
    assert!(removal_plan(&index, true).is_empty());
    assert!(run_plan(&index, false, false).is_empty());
}

#[test]
fn unreadable_file_left_out_of_index() {
    let outcomes = vec![
        hashed("dup1", b"same"),
        hash_entry("locked".to_string(), Err("permission denied".to_string())),
        hashed("dup2", b"same"),
    ];
    let index = DuplicateIndex::from_outcomes(&outcomes);
    assert_eq!(index.len(), 1);
    let group = &index.groups()[0];
    assert_eq!(group.digest, fingerprint(b"same"));
    assert_eq!(group.paths, vec!["dup1".to_string(), "dup2".to_string()]);
    assert_eq!(describe(&removal_plan(&index, false)), vec!["rm dup2".to_string()]);
}

#[test]
fn merge_keeps_first_seen_order() {
    let pairs = vec![
        ("d2".to_string(), "f_one".to_string()),
        ("d1".to_string(), "f_two".to_string()),
        ("d2".to_string(), "f_three".to_string()),
        ("d1".to_string(), "f_four".to_string()),
        ("d3".to_string(), "f_five".to_string()),
    ];
    let index = DuplicateIndex::merge(pairs);
    let groups: Vec<(String, Vec<String>)> =
        index.groups().iter().map(|g| (g.digest.clone(), g.paths.clone())).collect();
    assert_eq!(
        groups,
        vec![
            ("d2".to_string(), vec!["f_one".to_string(), "f_three".to_string()]),
            ("d1".to_string(), vec!["f_two".to_string(), "f_four".to_string()]),
            ("d3".to_string(), vec!["f_five".to_string()]),
        ]
    );
    assert_eq!(index.paths_of(&"d4".to_string()), None);
}

#[test]
fn equal_contents_share_a_group_and_others_do_not() {
    let index = index_of_files(&[
        ("a", b"one"),
        ("b", b"two"),
        ("c", b"one"),
        ("d", b"three"),
        ("e", b"two"),
    ]);
    assert_eq!(
        membership(&index),
        {
            let mut m = vec![
                (fingerprint(b"one"), vec!["a".to_string(), "c".to_string()]),
                (fingerprint(b"two"), vec!["b".to_string(), "e".to_string()]),
                (fingerprint(b"three"), vec!["d".to_string()]),
            ];
            m.sort();
            m
        }
    );
}

#[test]
fn scan_order_does_not_change_membership() {
    let first = index_of_files(&[("a", b"1"), ("b", b"2"), ("c", b"1"), ("d", b"2")]);
    let second = index_of_files(&[("d", b"2"), ("c", b"1"), ("b", b"2"), ("a", b"1")]);
    assert_eq!(membership(&first), membership(&second));
}

#[test]
fn dump_round_trips_through_json() {
    let index = index_of_files(&[("a", b"1"), ("b", b"2"), ("c", b"1"), ("dir/e f\"g", b"3")]);
    let text = dump_text(&index).ok().unwrap();
    assert!(text.contains('\n'));
    let parsed: HashMap<String, Vec<String>> = serde_json::from_str(&text).unwrap();
    let mut back: Vec<(String, Vec<String>)> = parsed.into_iter().collect();
    back.sort();
    let mut expected: Vec<(String, Vec<String>)> =
        index.groups().iter().map(|g| (g.digest.clone(), g.paths.clone())).collect();
    expected.sort();
    assert_eq!(back, expected);
}

#[test]
fn plan_with_links_removes_then_links_each_later_path() {
    let index = index_of_files(&[
        ("a1", b"A"),
        ("b1", b"B"),
        ("a2", b"A"),
        ("a3", b"A"),
        ("c1", b"C"),
        ("b2", b"B"),
    ]);
    assert_eq!(
        describe(&removal_plan(&index, true)),
        vec![
            "rm a2".to_string(),
            "ln a1 a2".to_string(),
            "rm a3".to_string(),
            "ln a1 a3".to_string(),
            "rm b2".to_string(),
            "ln b1 b2".to_string(),
        ]
    );
    assert_eq!(
        describe(&removal_plan(&index, false)),
        vec!["rm a2".to_string(), "rm a3".to_string(), "rm b2".to_string()]
    );
}

#[test]
fn dump_only_plans_nothing() {
    let index = index_of_files(&[("a", b"1"), ("b", b"1")]);
    assert!(run_plan(&index, true, true).is_empty());
    assert_eq!(describe(&run_plan(&index, false, false)), vec!["rm b".to_string()]);
}

#[test]
fn new_index_is_empty() {
    let index = DuplicateIndex::new();
    assert!(index.is_empty());
    assert!(index.groups().is_empty());
}
