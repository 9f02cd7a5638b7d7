use codewatch::ranking::{page, rank, RankKey};

fn score_key(score: f64) -> Option<i128> {
    Some(score.to_bits() as i128)
}

fn key(primary: Option<i128>, path: &str) -> RankKey {
    RankKey { primary, path: path.to_string() }
}

#[test]
fn test_sorting_logic_score() {
    let keys = vec![key(score_key(50.0), "b.rs"), key(score_key(50.0), "a.rs"), key(score_key(80.0), "c.rs")];
    let order = rank(&keys, true);
    let paths: Vec<&str> = order.iter().map(|&i| keys[i].path.as_str()).collect();
    assert_eq!(paths[0], "c.rs"); // score 80.0
    assert_eq!(paths[1], "a.rs"); // score 50.0, path a.rs
    assert_eq!(paths[2], "b.rs"); // score 50.0, path b.rs
}

#[test]
fn test_sorting_logic_recent() {
    // a.rs has an older note, b.rs the most recent, c.rs none.
    let keys = vec![key(Some(1_000), "a.rs"), key(Some(2_000), "b.rs"), key(None, "c.rs")];
    let order = rank(&keys, true);
    let paths: Vec<&str> = order.iter().map(|&i| keys[i].path.as_str()).collect();
    assert_eq!(paths[0], "b.rs"); // most recent note
    assert_eq!(paths[1], "a.rs"); // older note
    assert_eq!(paths[2], "c.rs"); // no note
}

#[test]
fn test_top_sorting_and_paging() {
    let keys = vec![key(score_key(50.0), "a.rs"), key(score_key(80.0), "b.rs"), key(score_key(60.0), "c.rs")];
    let files_list = rank(&keys, false);
    let path = |i: usize| keys[i].path.as_str();

    // Sorted should be f2 (80.0), f3 (60.0), f1 (50.0)
    assert_eq!(path(files_list[0]), "b.rs");
    assert_eq!(path(files_list[1]), "c.rs");
    assert_eq!(path(files_list[2]), "a.rs");

    // Page with n=2, offset=0
    let sub_list = page(&files_list, 0, 2);
    assert_eq!(sub_list.len(), 2);
    assert_eq!(path(sub_list[0]), "b.rs");
    assert_eq!(path(sub_list[1]), "c.rs");

    // Page with n=2, offset=1
    let sub_list = page(&files_list, 1, 2);
    assert_eq!(sub_list.len(), 2);
    assert_eq!(path(sub_list[0]), "c.rs");
    assert_eq!(path(sub_list[1]), "a.rs");

    // Page with n=2, offset=3
    let sub_list = page(&files_list, 3, 2);
    assert!(sub_list.is_empty());
}

#[test]
fn ranking_is_stable_without_paths() {
    let keys = vec![key(Some(5), "z"), key(Some(7), "y"), key(Some(5), "a"), key(None, "b"), key(Some(7), "x")];
    assert_eq!(rank(&keys, false), vec![1, 4, 0, 2, 3]);
    assert_eq!(rank(&keys, true), vec![4, 1, 2, 0, 3]);
    assert_eq!(rank(&Vec::new(), true), Vec::<usize>::new());
}

#[test]
fn path_order_is_code_point_order() {
    let keys = vec![key(None, "é"), key(None, "z"), key(None, "Z"), key(None, "za"), key(None, "")];
    let order = rank(&keys, true);
    let paths: Vec<&str> = order.iter().map(|&i| keys[i].path.as_str()).collect();
    let mut sorted: Vec<&str> = keys.iter().map(|k| k.path.as_str()).collect();
    sorted.sort();
    assert_eq!(paths, sorted);
}

#[test]
fn paging_clips() {
    let order = vec![3, 1, 2];
    assert_eq!(page(&order, 0, 10), vec![3, 1, 2]);
    assert_eq!(page(&order, 2, 10), vec![2]);
    assert_eq!(page(&order, 9, 1), Vec::<usize>::new());
    assert_eq!(page(&order, 1, 0), Vec::<usize>::new());
}

#[test]
fn prefix_filter_keeps_order() {
    let paths: Vec<String> = ["src/a.rs", "lib/b.rs", "src/sub/c.rs", "srcx.rs"].iter().map(|s| s.to_string()).collect();
    assert_eq!(codewatch::ranking::paths_with_prefix(&paths, "src/"), vec![0, 2]);
    assert_eq!(codewatch::ranking::paths_with_prefix(&paths, "src"), vec![0, 2, 3]);
    assert_eq!(codewatch::ranking::paths_with_prefix(&paths, ""), vec![0, 1, 2, 3]);
    assert!(codewatch::ranking::paths_with_prefix(&paths, "none").is_empty());
}
