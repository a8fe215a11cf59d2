use siena::utils::str_ends_with_any;

#[test]
fn utils_string_ends_with_any_test() {
    assert_eq!(str_ends_with_any("o.yml", Vec::from(["yml"])), true);
    assert_eq!(str_ends_with_any("o.yml", Vec::from(["md", "yml"])), true);
    assert_eq!(str_ends_with_any("o.yml2", Vec::from(["md", "yml"])), false);
    assert_eq!(str_ends_with_any("o.yml2", Vec::from(["md"])), false);
    assert_eq!(str_ends_with_any("o.yml2", Vec::from(["yml"])), false);
    assert_eq!(str_ends_with_any("o.yml2", Vec::from(["yml2"])), true);
}

#[test]
fn utils_tests_string_ends_with_any_test() {
    assert_eq!(str_ends_with_any("o.yml", Vec::from(["yml"])), true);

    assert_eq!(str_ends_with_any("o.yml", Vec::from(["md", "yml"])), true);

    assert_eq!(str_ends_with_any("o.yml2", Vec::from(["md", "yml"])), false);
}

#[test]
fn ends_with_any_edge_cases() {
    assert_eq!(str_ends_with_any("o.yml", Vec::new()), false);
    assert_eq!(str_ends_with_any("o.yml", Vec::from([""])), true);
    assert_eq!(str_ends_with_any("", Vec::from(["yml"])), false);
    assert_eq!(str_ends_with_any("yml", Vec::from(["o.yml"])), false);
    assert_eq!(str_ends_with_any("caf\u{e9}", Vec::from(["f\u{e9}"])), true);
    assert_eq!(str_ends_with_any("caf\u{e9}", Vec::from(["\u{a9}"])), false);
}
