use p455w0rd::combinatorics::{
    calculate_total_combinations, calculate_word_permutations, estimate_average_password_length,
    format_combination_count, format_file_size, permutation_count, unique_words,
    CombinatorialConfig, COUNT_CAP,
};

fn words(list: &[&str]) -> Vec<String> {
    list.iter().map(|w| w.to_string()).collect()
}

#[test]
fn exact_analysis_of_two_words() {
    let config = CombinatorialConfig { max_words: 2, include_special_chars: false };
    let a = calculate_total_combinations(&words(&["admin", "pass"]), &config).unwrap();
    assert_eq!(a.total_combinations, 587);
    assert_eq!(a.breakdown.by_word_count.len(), 2);
    assert_eq!(a.breakdown.by_word_count[0].combinations, 35);
    assert_eq!(a.breakdown.by_word_count[1].combinations, 552);
    assert_eq!(a.breakdown.by_word_count[0].average_length, 5);
    assert_eq!(a.breakdown.by_word_count[1].average_length, 9);
    assert_eq!(a.breakdown.word_permutations, 4);
    assert_eq!(a.breakdown.leet_variants, 32);
    assert_eq!(a.estimated_file_size_bytes, 587 * 5);
}

#[test]
fn padding_multiplies_by_its_choices() {
    let config = CombinatorialConfig { max_words: 1, include_special_chars: true };
    let a = calculate_total_combinations(&words(&["admin"]), &config).unwrap();
    assert_eq!(a.total_combinations, 12 * 651);
    assert_eq!(a.breakdown.special_char_variants, 651);
}

#[test]
fn counts_saturate_at_the_cap() {
    let config = CombinatorialConfig { max_words: 1, include_special_chars: false };
    let a = calculate_total_combinations(&["a".repeat(64)], &config).unwrap();
    assert_eq!(a.total_combinations, COUNT_CAP);
    assert_eq!(a.breakdown.by_word_count[0].combinations, COUNT_CAP);
    assert_eq!(a.breakdown.leet_variants, u64::MAX);
    assert_eq!(format_combination_count(a.total_combinations), "1.0 billion");
}

#[test]
fn max_words_zero_means_all_words() {
    let zero = CombinatorialConfig { max_words: 0, include_special_chars: false };
    let two = CombinatorialConfig { max_words: 2, include_special_chars: false };
    let w = words(&["admin", "pass"]);
    let a = calculate_total_combinations(&w, &zero).unwrap();
    let b = calculate_total_combinations(&w, &two).unwrap();
    assert_eq!(a.total_combinations, b.total_combinations);
    assert_eq!(a.breakdown.by_word_count.len(), 2);
}

#[test]
fn analysis_is_deterministic() {
    let config = CombinatorialConfig { max_words: 3, include_special_chars: true };
    let w = words(&["ab", "cd", "ef"]);
    let a = calculate_total_combinations(&w, &config).unwrap();
    let b = calculate_total_combinations(&w, &config).unwrap();
    assert_eq!(a.total_combinations, b.total_combinations);
    assert_eq!(a.estimated_file_size_bytes, b.estimated_file_size_bytes);
    assert_eq!(a.breakdown.by_word_count.len(), b.breakdown.by_word_count.len());
}

#[test]
fn more_words_and_padding_never_lower_the_total() {
    let w = words(&["ab", "xy"]);
    let one = calculate_total_combinations(&w, &CombinatorialConfig { max_words: 1, include_special_chars: false }).unwrap();
    let two = calculate_total_combinations(&w, &CombinatorialConfig { max_words: 2, include_special_chars: false }).unwrap();
    let padded = calculate_total_combinations(&w, &CombinatorialConfig { max_words: 2, include_special_chars: true }).unwrap();
    assert!(one.total_combinations <= two.total_combinations);
    assert!(two.total_combinations <= padded.total_combinations);
}

#[test]
fn duplicates_are_ignored_in_first_order() {
    let u = unique_words(&words(&["b", "a", "b", "c", "a"]));
    assert_eq!(u, vec!["b", "a", "c"]);
}

#[test]
fn permutation_overflow_is_an_error() {
    assert!(permutation_count(30, 30).is_err());
    assert_eq!(permutation_count(20, 20).unwrap(), 2_432_902_008_176_640_000);
    assert!(calculate_word_permutations(30, 0).is_err());
    assert_eq!(calculate_word_permutations(3, 0).unwrap(), 15);
}

#[test]
fn average_length_estimate() {
    assert_eq!(estimate_average_password_length(&words(&["admin", "pass"]), false), 4);
    assert_eq!(estimate_average_password_length(&words(&["abcdef", "ghijkl"]), true), 9);
    assert_eq!(estimate_average_password_length(&[], true), 0);
}

#[test]
fn formatting_rounds_and_scales() {
    assert_eq!(format_combination_count(999), "999");
    assert_eq!(format_combination_count(1000), "1.0 thousand");
    assert_eq!(format_combination_count(1_999_999), "2.0 million");
    assert_eq!(format_combination_count(5_000_000_000_000_000), "5000.0 trillion");
    assert_eq!(format_file_size(1023), "1023 B");
    assert_eq!(format_file_size(1024), "1.0 KB");
    assert_eq!(format_file_size(1_099_511_627_776), "1.0 TB");
}

#[test]
fn lengths_are_counted_in_bytes() {
    let config = CombinatorialConfig { max_words: 2, include_special_chars: false };
    let a = calculate_total_combinations(&words(&["café", "ab"]), &config).unwrap();
    assert_eq!(a.breakdown.by_word_count[0].average_length, 5);
    assert_eq!(a.breakdown.by_word_count[1].average_length, 7);
    assert_eq!(estimate_average_password_length(&words(&["café", "naïve"]), false), 6);
}

#[test]
fn exact_ties_round_to_even() {
    assert_eq!(format_file_size(1280), "1.2 KB");
    assert_eq!(format_file_size(1792), "1.8 KB");
    assert_eq!(format_file_size(2304), "2.2 KB");
    assert_eq!(format_combination_count(1250), "1.2 thousand");
    assert_eq!(format_combination_count(1750), "1.8 thousand");
}

#[test]
fn inexact_ties_follow_the_nearest_double() {
    // 1.05, 1.35, 12.05 and 12.15 have doubles just above; 1.15 and 1.45 just below.
    assert_eq!(format_combination_count(1050), "1.1 thousand");
    assert_eq!(format_combination_count(1150), "1.1 thousand");
    assert_eq!(format_combination_count(1350), "1.4 thousand");
    assert_eq!(format_combination_count(1450), "1.4 thousand");
    assert_eq!(format_combination_count(1_050_000), "1.1 million");
    assert_eq!(format_combination_count(12_050), "12.1 thousand");
    assert_eq!(format_combination_count(12_150), "12.2 thousand");
}

fn float_file_size(bytes: u64) -> String {
    let units = ["B", "KB", "MB", "GB", "TB"];
    if bytes == 0 {
        return "0 B".to_string();
    }
    let b = bytes as f64;
    let i = ((b.ln() / 1024f64.ln()) as usize).min(units.len() - 1);
    let size = b / 1024f64.powi(i as i32);
    if i == 0 { format!("{} {}", bytes, units[i]) } else { format!("{:.1} {}", size, units[i]) }
}

fn float_count(count: u64) -> String {
    let units = ["", "thousand", "million", "billion", "trillion"];
    let c = count as f64;
    let i = ((c.ln() / 1000f64.ln()) as usize).min(units.len() - 1);
    let size = c / 1000f64.powi(i as i32);
    if i == 0 { count.to_string() } else { format!("{:.1} {}", size, units[i]) }
}

#[test]
fn formatting_agrees_with_float_formatting() {
    for v in (0u64..400_000).chain((1_000_000u64..1_400_000).step_by(7)) {
        assert_eq!(format_combination_count(v), float_count(v), "count {}", v);
    }
    for v in (0u64..600_000).chain((1_048_576u64..3_000_000).step_by(5)) {
        assert_eq!(format_file_size(v), float_file_size(v), "bytes {}", v);
    }
}
