use snout::indexer::{existing_hashes, file_hash, hit_paths, FileAction, IndexRun, StoredFile};

fn stored(pairs: &[(&str, &str)]) -> Vec<StoredFile> {
    pairs.iter().map(|(p, h)| StoredFile { path: p.to_string(), hash: h.to_string() }).collect()
}

fn pairs(v: &[StoredFile]) -> Vec<(String, String)> {
    v.iter().map(|f| (f.path.clone(), f.hash.clone())).collect()
}

#[test]
fn blake3_hashes_in_hex() {
    assert_eq!(file_hash(b""), "af1349b9f5f9a1a6a0404dea36dcc9499bcb25c9adc112b7cc9a93cae41f3262");
    assert_eq!(file_hash(b"abc"), "6437b3ac38465133ffb63b75273a8db548c558465d79db03fd359c6cd5bd9d85");
}

#[test]
fn hash_is_64_hex_digits() {
    let h = file_hash(b"some file contents\n");
    assert_eq!(h.len(), 64);
    assert!(h.chars().all(|c| c.is_ascii_hexdigit() && !c.is_ascii_uppercase()));
    assert_ne!(h, file_hash(b"some file contents"));
}

#[test]
fn documents_without_path_or_hash_are_skipped() {
    let docs = vec![
        (Some("a".to_string()), Some("h1".to_string())),
        (None, Some("x".to_string())),
        (Some("b".to_string()), None),
        (Some("c".to_string()), Some("h3".to_string())),
    ];
    let r = existing_hashes(&docs);
    assert_eq!(pairs(&r), vec![("a".to_string(), "h1".to_string()), ("c".to_string(), "h3".to_string())]);
}

#[test]
fn files_are_classified_against_the_index() {
    let mut run = IndexRun::new(stored(&[("a", "h1"), ("b", "h2"), ("c", "h3")]));
    assert_eq!(run.record_file("a".to_string(), &"h1".to_string()), FileAction::Unchanged);
    assert_eq!(run.record_file("b".to_string(), &"h9".to_string()), FileAction::Updated);
    assert_eq!(run.record_file("d".to_string(), &"h4".to_string()), FileAction::Added);
    assert_eq!(run.counts(), (1, 1, 1));
    assert_eq!(run.met_count(), 3);
    assert_eq!(run.stale_paths(), vec!["c".to_string()]);
}

#[test]
fn later_documents_replace_earlier_ones() {
    let mut run = IndexRun::new(stored(&[("a", "h1"), ("a", "h2")]));
    assert_eq!(run.record_file("a".to_string(), &"h2".to_string()), FileAction::Unchanged);
    assert_eq!(run.stale_paths(), Vec::<String>::new());
}

#[test]
fn unchanged_folder_changes_nothing() {
    let mut run = IndexRun::new(stored(&[("a", "h1"), ("b", "h2")]));
    run.record_file("b".to_string(), &"h2".to_string());
    run.record_file("a".to_string(), &"h1".to_string());
    assert_eq!(run.counts(), (0, 0, 2));
    assert!(run.stale_paths().is_empty());
}

#[test]
fn first_pass_adds_everything() {
    let mut run = IndexRun::new(Vec::new());
    assert_eq!(run.record_file("x".to_string(), &"1".to_string()), FileAction::Added);
    assert_eq!(run.record_file("y".to_string(), &"2".to_string()), FileAction::Added);
    assert_eq!(run.counts(), (2, 0, 0));
    assert!(run.stale_paths().is_empty());
}

#[test]
fn stale_paths_are_listed_once_in_index_order() {
    let run = IndexRun::new(stored(&[("q", "1"), ("p", "2"), ("q", "3"), ("r", "4")]));
    assert_eq!(run.stale_paths(), vec!["q".to_string(), "p".to_string(), "r".to_string()]);
}

#[test]
fn hits_without_path_are_skipped() {
    let values = vec![Some("a".to_string()), None, Some("b".to_string())];
    assert_eq!(hit_paths(&values), vec!["a".to_string(), "b".to_string()]);
    assert_eq!(hit_paths(&vec![]), Vec::<String>::new());
}

#[test]
fn second_pass_over_the_same_files_changes_nothing() {
    let mut first = IndexRun::new(stored(&[("a", "h1"), ("gone", "h0")]));
    first.record_file("a".to_string(), &"h2".to_string());
    first.record_file("b".to_string(), &"h3".to_string());
    assert_eq!(first.counts(), (1, 1, 0));
    assert_eq!(first.stale_paths(), vec!["gone".to_string()]);
    // what the first pass leaves in the index: one document per file met
    let mut second = IndexRun::new(stored(&[("b", "h3"), ("a", "h2")]));
    assert_eq!(second.record_file("a".to_string(), &"h2".to_string()), FileAction::Unchanged);
    assert_eq!(second.record_file("b".to_string(), &"h3".to_string()), FileAction::Unchanged);
    assert_eq!(second.counts(), (0, 0, 2));
    assert!(second.stale_paths().is_empty());
}
