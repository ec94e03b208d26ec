use nft_rarity::canister::{canister_trait_arrays, extract_trait_arrays};
use nft_rarity::records::build_trait_objects;
use nft_rarity::test_data::{parse_test_data, test_data_is_readable};

fn s(x: &str) -> String {
    x.to_string()
}

#[test]
fn test_data_records_and_trait_names() {
    let text = "\n{\"name\":\"a\",\"color\":\"red\"}\n{\"name\":\"b\",\"size\":\"L\"}\n";
    let (objs, names) = parse_test_data(text);
    assert_eq!(names, vec![s("name"), s("color"), s("size")]);
    assert_eq!(objs.len(), 2);
    assert_eq!(objs[0].get(&s("color")), Some(&s("red")));
    assert_eq!(objs[0].get(&s("size")), None);
    assert_eq!(objs[1].get(&s("name")), Some(&s("b")));
    assert_eq!(objs[1].get(&s("size")), Some(&s("L")));
}

#[test]
fn test_data_starting_with_a_brace_has_no_records() {
    let (objs, names) = parse_test_data("{a:1}{b:2}");
    assert!(objs.is_empty());
    assert!(names.is_empty());
}

#[test]
fn test_data_field_without_colon_loses_its_first_character() {
    let (objs, names) = parse_test_data(" {abc}");
    assert_eq!(names, vec![s("")]);
    assert_eq!(objs[0].get(&s("")), Some(&s("bc")));
}

#[test]
fn test_data_later_field_replaces_earlier_one() {
    let (objs, names) = parse_test_data(" {k:1,k:2}");
    assert_eq!(names, vec![s("k")]);
    assert_eq!(objs[0].get(&s("k")), Some(&s("2")));
}

#[test]
fn test_data_with_an_empty_field_cannot_be_read() {
    assert!(!test_data_is_readable(" {a:1,}"));
    assert!(!test_data_is_readable(" {}"));
    assert!(!test_data_is_readable(" {a:1"));
    assert!(!test_data_is_readable(" [{}]"));
    assert!(!test_data_is_readable(" {\u{e9}x}"));
    assert!(test_data_is_readable(" {a:1,b:2}"));
    assert!(test_data_is_readable("{}"));
}

#[test]
fn test_data_without_records() {
    let (objs, names) = parse_test_data("no records here");
    assert!(objs.is_empty());
    assert!(names.is_empty());
}

#[test]
fn building_objects_lists_each_name_once() {
    let recs = vec![
        vec![(s("a"), s("1")), (s("b"), s("2"))],
        vec![(s("b"), s("3")), (s("c"), s("4"))],
    ];
    let (objs, names) = build_trait_objects(recs);
    assert_eq!(names, vec![s("a"), s("b"), s("c")]);
    assert_eq!(objs[1].get(&s("b")), Some(&s("3")));
    assert_eq!(objs[1].get(&s("a")), None);
}

#[test]
fn each_record_is_cut_at_the_next_record_marker() {
    let pretty = "x record { 0 : a record { 1 : b [p] record { 2 : [q] }";
    assert_eq!(extract_trait_arrays(pretty), vec![s("[p]"), s("[q]")]);
}

#[test]
fn records_without_an_array_are_skipped() {
    let pretty = "record { 0 : [z] record { 1 : none record { 2 : [] record { 3 : [w]";
    assert_eq!(extract_trait_arrays(pretty), vec![s("[z]"), s("[w]")]);
}

#[test]
fn escaped_quotes_turn_into_quotes() {
    let pretty = "record { 0 : x record { 1 : [\\\\22a\\\\22]";
    assert_eq!(extract_trait_arrays(pretty), vec![s("[\"a\"]")]);
}

#[test]
fn record_numbers_from_a_thousand_carry_an_underscore() {
    let mut pretty = String::new();
    for p in 0..1000 {
        pretty.push_str(&format!("record {{ {} : x ", p));
    }
    pretty.push_str("[last] record { 1_000 : [after] }");
    let arrays = extract_trait_arrays(&pretty);
    assert_eq!(arrays, vec![s("[last]"), s("[after]")]);
}

#[test]
fn canister_answer_is_written_as_json_first() {
    let stdout = s("(vec { record { 0 : x }; record { 1 : [\\22trait_type\\22] } })");
    let arrays = canister_trait_arrays(&stdout).unwrap();
    assert_eq!(arrays, vec![s("[\"trait_type\"]")]);
}

#[test]
fn canister_answer_json_escapes_control_characters_and_backslashes() {
    let stdout = s("record { 0 : x } record { 1 : [\u{1}\t\\] }");
    let arrays = canister_trait_arrays(&stdout).unwrap();
    assert_eq!(arrays, vec![s("[\\u0001\\t\\\\]")]);
}
