use cable_bench::compare::{category_counts, count_category, less_chars, shared_categories};

fn strings(v: &[&str]) -> Vec<String> {
    v.iter().map(|s| s.to_string()).collect()
}

#[test]
fn counts_are_sorted_and_complete() {
    let c = category_counts(&strings(&["non-cs", "creative", "non-cs", "architecture", "creative", "non-cs"]));
    let got: Vec<(&str, usize)> = c.iter().map(|(n, k)| (n.as_str(), *k)).collect();
    assert_eq!(got, vec![("architecture", 1), ("creative", 2), ("non-cs", 3)]);
    assert!(category_counts(&vec![]).is_empty());
}

#[test]
fn shared_keeps_only_categories_in_both_runs() {
    let a = strings(&["short-factual", "cs-technical", "creative", "cs-technical"]);
    let b = strings(&["creative", "cs-technical", "architecture"]);
    let got: Vec<(String, usize)> = shared_categories(&a, &b);
    assert_eq!(got, vec![("creative".to_string(), 1), ("cs-technical".to_string(), 2)]);
}

#[test]
fn order_matches_string_ordering() {
    let mut names = strings(&["b", "a", "ab", "", "é", "z", "Z"]);
    let got: Vec<String> = category_counts(&names).into_iter().map(|(n, _)| n).collect();
    names.sort();
    assert_eq!(got, names);
    assert!(less_chars(&"ab".chars().collect(), &"b".chars().collect()));
    assert!(!less_chars(&"ab".chars().collect(), &"ab".chars().collect()));
}

#[test]
fn count_category_counts_exact_matches() {
    let b = strings(&["x", "xy", "x"]);
    assert_eq!(count_category(&b, &"x".chars().collect()), 2);
    assert_eq!(count_category(&b, &"q".chars().collect()), 0);
}
