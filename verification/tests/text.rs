use opinionated_defaults::text::{insert_unique_sorted, sort_strings};

fn strings(items: &[&str]) -> Vec<String> {
    items.iter().map(|s| s.to_string()).collect()
}

#[test]
fn sorting_keeps_duplicates_in_code_point_order() {
    let sorted = sort_strings(&strings(&["b", "é", "a", "b", "z", "ab"]));
    assert_eq!(sorted, strings(&["a", "ab", "b", "b", "z", "é"]));
    assert_eq!(sort_strings(&Vec::new()), Vec::<String>::new());
}

#[test]
fn ordered_set_insert_skips_present_values() {
    let mut set = strings(&["b", "d"]);
    insert_unique_sorted(&mut set, "c".to_string());
    insert_unique_sorted(&mut set, "b".to_string());
    insert_unique_sorted(&mut set, "a".to_string());
    insert_unique_sorted(&mut set, "e".to_string());
    assert_eq!(set, strings(&["a", "b", "c", "d", "e"]));
}
