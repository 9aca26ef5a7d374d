use vanplan::layering::layer_columns;

fn ids(xs: &[&str]) -> Vec<String> {
    xs.iter().map(|s| s.to_string()).collect()
}

fn edges(xs: &[(&str, &str)]) -> Vec<(String, String)> {
    xs.iter()
        .map(|(a, b)| (a.to_string(), b.to_string()))
        .collect()
}

fn cols(xs: &[(usize, &[&str])]) -> Vec<(usize, Vec<String>)> {
    xs.iter().map(|(l, c)| (*l, ids(c))).collect()
}

#[test]
fn chain_columns_ltr() {
    let c = layer_columns(&ids(&["a", "b", "c"]), &edges(&[("a", "b"), ("b", "c")]));
    assert_eq!(c, cols(&[(0, &["a"]), (1, &["b"]), (2, &["c"])]));
}

#[test]
fn isolated_get_the_leftover_column() {
    let c = layer_columns(&ids(&["iso", "a", "b"]), &edges(&[("a", "b")]));
    assert_eq!(c, cols(&[(0, &["iso"]), (1, &["a"]), (2, &["b"])]));
}

#[test]
fn siblings_share_a_column() {
    let c = layer_columns(&ids(&["a", "c", "b"]), &edges(&[("a", "b"), ("a", "c")]));
    assert_eq!(c, cols(&[(0, &["a"]), (1, &["b", "c"])]));
}

#[test]
fn all_isolated_in_one_sorted_column() {
    let c = layer_columns(&ids(&["z", "a", "m"]), &[]);
    assert_eq!(c, cols(&[(0, &["a", "m", "z"])]));
}

#[test]
fn longest_path_wins() {
    let c = layer_columns(
        &ids(&["a", "b", "c", "d"]),
        &edges(&[("a", "c"), ("b", "c"), ("a", "b"), ("c", "d")]),
    );
    assert_eq!(c, cols(&[(0, &["a"]), (1, &["b"]), (2, &["c"]), (3, &["d"])]));
}

#[test]
fn edges_to_unknown_cards_are_ignored() {
    let c = layer_columns(&ids(&["a", "b"]), &edges(&[("a", "ghost"), ("ghost", "b")]));
    assert_eq!(c, cols(&[(0, &["a", "b"])]));
}

#[test]
fn cycles_stop_after_the_pass_budget() {
    let c = layer_columns(&ids(&["a", "b"]), &edges(&[("a", "b"), ("b", "a")]));
    assert_eq!(c, cols(&[(3, &["b"]), (4, &["a"])]));
}

#[test]
fn repeated_ids_stay_repeated() {
    let c = layer_columns(&ids(&["a", "a", "b"]), &edges(&[("a", "b")]));
    assert_eq!(c, cols(&[(0, &["a", "a"]), (1, &["b"])]));
}

#[test]
fn no_cards_no_columns() {
    assert!(layer_columns(&[], &edges(&[("a", "b")])).is_empty());
}
