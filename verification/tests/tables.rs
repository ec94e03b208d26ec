use nft_rarity::counting::{distinct_value_counts, get_traits_count_freq_number};
use nft_rarity::matrix::{canister_data_to_traits_value, reverse_mat};
use nft_rarity::trait_object::TraitObject;

fn s(x: &str) -> String {
    x.to_string()
}

fn table(rows: &[&[&str]]) -> Vec<Vec<String>> {
    rows.iter().map(|r| r.iter().map(|c| s(c)).collect()).collect()
}

#[test]
fn reverse_mat_transposes_a_rectangle() {
    let m = table(&[&["a", "b", "c"], &["d", "e", "f"]]);
    let t = reverse_mat(m);
    assert_eq!(t, table(&[&["a", "d"], &["b", "e"], &["c", "f"]]));
}

#[test]
fn reverse_mat_skips_missing_cells_of_short_rows() {
    let m = table(&[&["a", "b", "c"], &["d"], &["g", "h"]]);
    let t = reverse_mat(m);
    assert_eq!(t, table(&[&["a", "d", "g"], &["b", "h"], &["c"]]));
}

#[test]
fn reverse_mat_twice_gives_the_table_back() {
    let m = table(&[&["a", "b"], &["c", "d"], &["e", "f"]]);
    assert_eq!(reverse_mat(reverse_mat(m.clone())), m);
}

#[test]
fn reverse_mat_of_a_row_of_nothing() {
    let m = table(&[&[], &[]]);
    assert_eq!(reverse_mat(m), Vec::<Vec<String>>::new());
}

#[test]
fn trait_object_insert_get_and_replace() {
    let mut o = TraitObject::new();
    assert_eq!(o.get(&s("hat")), None);
    assert!(!o.contains_key(&s("hat")));
    o.insert(s("hat"), s("red"));
    o.insert(s("eyes"), s("blue"));
    assert_eq!(o.get(&s("hat")), Some(&s("red")));
    o.insert(s("hat"), s("green"));
    assert_eq!(o.get(&s("hat")), Some(&s("green")));
    assert_eq!(o.get(&s("eyes")), Some(&s("blue")));
    assert!(o.contains_key(&s("eyes")));
    assert!(!o.contains_key(&s("mouth")));
}

#[test]
fn traits_value_fills_missing_traits_with_na() {
    let mut a = TraitObject::new();
    a.insert(s("hat"), s("red"));
    a.insert(s("eyes"), s("blue"));
    let mut b = TraitObject::new();
    b.insert(s("eyes"), s("green"));
    let out = canister_data_to_traits_value(vec![a, b], vec![s("hat"), s("eyes"), s("mouth")]);
    assert_eq!(out, table(&[&["red", "blue", "NA"], &["NA", "green", "NA"]]));
}

#[test]
fn traits_value_of_no_tokens() {
    let out = canister_data_to_traits_value(Vec::new(), vec![s("hat")]);
    assert!(out.is_empty());
}

#[test]
fn counts_equal_values_in_each_column() {
    let cols = table(&[&["red", "blue", "red", "red"], &["x", "y", "z", "y"]]);
    let (counts, tokens) = get_traits_count_freq_number(cols);
    assert_eq!(tokens, 4);
    assert_eq!(counts, vec![vec![3, 1, 3, 3], vec![1, 2, 1, 2]]);
}

#[test]
fn token_number_is_the_length_of_the_first_column() {
    let cols = table(&[&["a", "a"], &["b", "c", "b"]]);
    let (counts, tokens) = get_traits_count_freq_number(cols);
    assert_eq!(tokens, 2);
    assert_eq!(counts, vec![vec![2, 2], vec![2, 1, 2]]);
}

#[test]
fn distinct_values_per_column() {
    let cols = table(&[&["red", "blue", "red"], &["x", "x"], &[]]);
    assert_eq!(distinct_value_counts(&cols), vec![2, 1, 0]);
}
