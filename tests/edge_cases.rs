use p455w0rd::combinatorics::{calculate_total_combinations, CombinatorialConfig};

#[test]
fn test_empty_word_list() {
    let words: Vec<String> = vec![];
    let config = CombinatorialConfig { max_words: 2, include_special_chars: false };
    let result = calculate_total_combinations(&words, &config);
    assert!(result.is_err());
}

#[test]
fn test_single_character_words() {
    let words = vec!["a".to_string(), "b".to_string(), "c".to_string()];
    let config = CombinatorialConfig { max_words: 2, include_special_chars: false };
    let result = calculate_total_combinations(&words, &config);
    assert!(result.is_ok());
    let analysis = result.unwrap();
    assert!(analysis.total_combinations > 0);
}

#[test]
fn test_words_with_numbers() {
    let words = vec!["admin123".to_string(), "pass456".to_string()];
    let config = CombinatorialConfig { max_words: 2, include_special_chars: false };
    let result = calculate_total_combinations(&words, &config);
    assert!(result.is_ok());
    let analysis = result.unwrap();
    assert!(analysis.total_combinations > 0);
}

#[test]
fn test_unicode_words() {
    let words = vec!["café".to_string(), "naïve".to_string()];
    let config = CombinatorialConfig { max_words: 2, include_special_chars: false };
    let result = calculate_total_combinations(&words, &config);
    assert!(result.is_ok());
    let analysis = result.unwrap();
    assert!(analysis.total_combinations > 0);
}

#[test]
fn test_very_long_words() {
    let words = vec!["a".repeat(10), "b".repeat(10)];
    let config = CombinatorialConfig { max_words: 2, include_special_chars: false };
    let result = calculate_total_combinations(&words, &config);
    assert!(result.is_ok());
    let analysis = result.unwrap();
    assert!(analysis.total_combinations > 0);
}

#[test]
fn test_duplicate_words() {
    let words = vec!["admin".to_string(), "admin".to_string(), "password".to_string()];
    let config = CombinatorialConfig { max_words: 2, include_special_chars: false };
    let result = calculate_total_combinations(&words, &config);
    assert!(result.is_ok());
    let analysis = result.unwrap();
    assert!(analysis.total_combinations > 0);
}

#[test]
fn test_max_words_zero() {
    let words = vec!["admin".to_string(), "password".to_string()];
    let config = CombinatorialConfig { max_words: 0, include_special_chars: false };
    let result = calculate_total_combinations(&words, &config);
    assert!(result.is_ok());
    let analysis = result.unwrap();
    assert_eq!(
        analysis.total_combinations,
        analysis.breakdown.by_word_count.iter().map(|b| b.combinations).sum::<u64>()
    );
}

#[test]
fn test_max_words_exceeds_word_count() {
    let words = vec!["admin".to_string(), "password".to_string()];
    let config = CombinatorialConfig { max_words: 5, include_special_chars: false };
    let result = calculate_total_combinations(&words, &config);
    assert!(result.is_ok());
    let analysis = result.unwrap();
    assert!(analysis.total_combinations > 0);
}

#[test]
fn test_no_leetable_characters() {
    let words = vec!["xyz".to_string(), "qwrt".to_string()];
    let config = CombinatorialConfig { max_words: 2, include_special_chars: false };
    let result = calculate_total_combinations(&words, &config);
    assert!(result.is_ok());
    let analysis = result.unwrap();
    assert!(analysis.total_combinations > 0);
}

#[test]
fn test_special_chars_only() {
    let words = vec!["admin".to_string()];
    let config = CombinatorialConfig { max_words: 1, include_special_chars: true };
    let result = calculate_total_combinations(&words, &config);
    assert!(result.is_ok());
    let analysis = result.unwrap();
    assert!(analysis.total_combinations > 0);
}
