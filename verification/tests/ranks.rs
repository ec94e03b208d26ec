use nft_rarity::ranking::{get_unique_array, independent_test, rare_rank};

#[test]
fn ranks_are_places_in_the_sorted_column() {
    let out = rare_rank(vec![vec![30, 10, 20, 10], vec![5]]);
    assert_eq!(out, vec![vec![3, 0, 2, 0], vec![0]]);
}

#[test]
fn ranks_of_equal_values_are_equal_and_order_is_kept() {
    let out = rare_rank(vec![vec![7, 7, 7, 1, 9]]);
    assert_eq!(out, vec![vec![1, 1, 1, 0, 4]]);
}

#[test]
fn ranks_of_an_empty_column() {
    assert_eq!(rare_rank(vec![vec![]]), vec![Vec::<usize>::new()]);
}

#[test]
fn unique_array_sorts_and_drops_repeats() {
    assert_eq!(get_unique_array(vec![3, 1, 3, 2, 1]), vec![1, 2, 3]);
    assert_eq!(get_unique_array(vec![]), Vec::<u64>::new());
}

#[test]
fn unique_array_of_its_own_result_is_the_same() {
    let u = get_unique_array(vec![9, 4, 4, 0, 9]);
    assert_eq!(get_unique_array(u.clone()), u);
}

#[test]
fn contingency_table_counts_pairs() {
    let t = independent_test(vec![1, 2, 1, 2, 1], vec![5, 5, 6, 6, 6]);
    // rows: 5, 6; columns: 1, 2
    assert_eq!(t, vec![vec![1, 1], vec![2, 1]]);
    let total: usize = t.iter().map(|r| r.iter().sum::<usize>()).sum();
    assert_eq!(total, 5);
}

#[test]
fn contingency_table_looks_only_at_the_length_of_the_first_column() {
    let t = independent_test(vec![1, 1], vec![4, 5, 6]);
    // rows: 4, 5, 6; columns: 1
    assert_eq!(t, vec![vec![1], vec![1], vec![0]]);
}
