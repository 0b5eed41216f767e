use snout::hybrid::fuse_rankings;
use snout::ranking::rank_by_score;
use snout::vectors::best_per_file;

fn strings(v: &[&str]) -> Vec<String> {
    v.iter().map(|s| s.to_string()).collect()
}

#[test]
fn ranking_orders_by_score_then_position() {
    let keys = vec![Some(5), Some(9), None, Some(9), Some(1)];
    assert_eq!(rank_by_score(&keys, 3), vec![1, 3, 0]);
    assert_eq!(rank_by_score(&keys, 10), vec![1, 3, 0, 4, 2]);
    assert_eq!(rank_by_score(&keys, 0), Vec::<usize>::new());
    assert_eq!(rank_by_score(&vec![], 5), Vec::<usize>::new());
}

#[test]
fn best_record_per_file() {
    let paths = strings(&["a", "b", "a", "a", "b"]);
    let keys = vec![Some(1), None, Some(3), Some(3), Some(7)];
    assert_eq!(best_per_file(&paths, &keys), vec![2, 1]);
}

#[test]
fn later_nan_does_not_replace() {
    let paths = strings(&["a", "a", "c"]);
    let keys = vec![Some(4), None, Some(0)];
    assert_eq!(best_per_file(&paths, &keys), vec![0, 2]);
}

#[test]
fn fused_entries_keep_ranks_in_each_list() {
    let ft = strings(&["a", "b", "a"]);
    let sem = strings(&["c", "a"]);
    let fused = fuse_rankings(&ft, &sem);
    let got: Vec<(String, Vec<usize>, Vec<usize>)> = fused
        .iter()
        .map(|e| (e.path.clone(), e.fulltext_ranks.clone(), e.semantic_ranks.clone()))
        .collect();
    assert_eq!(
        got,
        vec![
            ("a".to_string(), vec![0, 2], vec![1]),
            ("b".to_string(), vec![1], vec![]),
            ("c".to_string(), vec![], vec![0]),
        ]
    );
}

#[test]
fn fusing_empty_lists_gives_nothing() {
    assert!(fuse_rankings(&vec![], &vec![]).is_empty());
}

#[test]
fn smaller_limit_gives_a_prefix() {
    let keys = vec![Some(2), None, Some(8), Some(2), Some(8), Some(5)];
    let all = rank_by_score(&keys, 6);
    assert_eq!(all, vec![2, 4, 5, 0, 3, 1]);
    for limit in 0..=7 {
        let cut = rank_by_score(&keys, limit);
        assert_eq!(cut[..], all[..cut.len()]);
    }
}

#[test]
fn nan_record_is_kept_only_when_first() {
    let paths = strings(&["a", "b", "b", "a"]);
    let keys = vec![None, Some(1), None, Some(9)];
    // "a" starts with NaN and keeps it; "b" never takes its later NaN record
    assert_eq!(best_per_file(&paths, &keys), vec![0, 1]);
}

#[test]
fn ranking_many_items_matches_a_stable_sort() {
    let keys: Vec<Option<u32>> = (0..37u32)
        .map(|i| if i % 7 == 3 { None } else { Some((i * 13) % 5) })
        .collect();
    let mut expected: Vec<usize> = (0..keys.len()).collect();
    let rank = |k: Option<u32>| k.map(i64::from).unwrap_or(-1);
    expected.sort_by(|&a, &b| rank(keys[b]).cmp(&rank(keys[a])).then(a.cmp(&b)));
    assert_eq!(rank_by_score(&keys, keys.len()), expected);
    assert_eq!(rank_by_score(&keys, 5), expected[..5].to_vec());
}
