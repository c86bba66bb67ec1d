use p455w0rd::combinatorics::{calculate_actual_word_variants, calculate_leet_variants};
use p455w0rd::text::sort_dedup;
use p455w0rd::words::{capitalize_word, create_word_variants, generate_all_leet_for_word};

#[test]
fn no_leetable_characters_give_three_case_forms() {
    assert_eq!(create_word_variants("xyz"), vec!["XYZ", "Xyz", "xyz"]);
}

#[test]
fn admin_has_twelve_variants() {
    let v = create_word_variants("admin");
    assert_eq!(v.len(), 12);
    assert!(v.contains(&"4Dm1n".to_string()));
    assert!(v.contains(&"ADM1N".to_string()));
    assert_eq!(calculate_actual_word_variants("admin"), 12);
}

#[test]
fn repeated_case_forms_are_merged() {
    // "p455" has one letter, so its capitalised and upper-case forms agree.
    assert_eq!(calculate_actual_word_variants("pass"), 23);
    assert_eq!(create_word_variants("PASS").len(), 23);
}

#[test]
fn variants_are_sorted_and_distinct() {
    let v = create_word_variants("hello");
    for pair in v.windows(2) {
        assert!(pair[0] < pair[1]);
    }
}

#[test]
fn leet_forms_follow_the_bit_masks() {
    assert_eq!(generate_all_leet_for_word("admin"), vec!["admin", "4dmin", "adm1n", "4dm1n"]);
    assert_eq!(generate_all_leet_for_word("xyz"), vec!["xyz"]);
}

#[test]
fn capitalisation_finds_first_letter() {
    assert_eq!(capitalize_word("4dmin"), "4Dmin");
    assert_eq!(capitalize_word("admin"), "Admin");
    assert_eq!(capitalize_word("123"), "123");
    assert_eq!(capitalize_word(""), "");
}

#[test]
fn too_many_leetable_characters_saturate() {
    let word = "a".repeat(64);
    assert_eq!(calculate_leet_variants(&word), u64::MAX);
    assert_eq!(calculate_actual_word_variants(&word), u64::MAX);
    assert_eq!(calculate_leet_variants(&"a".repeat(63)), 1u64 << 63);
}

#[test]
fn sort_dedup_orders_and_merges() {
    let v = vec!["b".to_string(), "a".to_string(), "b".to_string(), "A".to_string()];
    assert_eq!(sort_dedup(v), vec!["A", "a", "b"]);
}
