use p455w0rd::combinatorics::{
    calculate_leet_variants, calculate_special_char_variants, calculate_total_combinations,
    calculate_word_permutations, format_combination_count, format_file_size, permutation_count,
    CombinatorialConfig,
};

fn next_random(state: &mut u64) -> u64 {
    *state = state.wrapping_mul(6364136223846793005).wrapping_add(1442695040888963407);
    *state >> 33
}

fn generate_random_word(state: &mut u64, length: usize) -> String {
    let charset = b"abcdefghijklmnopqrstuvwxyz";
    (0..length)
        .map(|_| charset[(next_random(state) % charset.len() as u64) as usize] as char)
        .collect()
}

fn generate_random_word_list(
    state: &mut u64,
    min_words: usize,
    max_words: usize,
    min_len: usize,
    max_len: usize,
) -> Vec<String> {
    let word_count = min_words + (next_random(state) as usize) % (max_words - min_words + 1);
    (0..word_count)
        .map(|_| {
            let len = min_len + (next_random(state) as usize) % (max_len - min_len + 1);
            generate_random_word(state, len)
        })
        .collect()
}

fn verify_calculation_is_reasonable(
    words: &[String],
    max_words: usize,
    include_special_chars: bool,
) -> Result<(), String> {
    let config = CombinatorialConfig { max_words, include_special_chars };
    let analysis = calculate_total_combinations(words, &config)?;
    let expected_count = analysis.total_combinations;
    if expected_count == 0 {
        return Err("Expected count should not be zero".to_string());
    }
    let breakdown_total: u64 = analysis.breakdown.by_word_count.iter().map(|b| b.combinations).sum();
    if breakdown_total != expected_count {
        return Err(format!(
            "Breakdown total {} doesn't match expected count {}",
            breakdown_total, expected_count
        ));
    }
    if include_special_chars {
        let config_no_special = CombinatorialConfig { include_special_chars: false, ..config };
        let analysis_no_special = calculate_total_combinations(words, &config_no_special)?;
        if expected_count <= analysis_no_special.total_combinations {
            return Err("Special chars should increase count".to_string());
        }
    }
    if words.len() > 1 && max_words > 1 {
        let config_single_word = CombinatorialConfig { max_words: 1, ..config };
        let analysis_single = calculate_total_combinations(words, &config_single_word)?;
        if expected_count < analysis_single.total_combinations {
            return Err("More max_words should not decrease total combinations".to_string());
        }
    }
    Ok(())
}

#[test]
fn test_calculate_leet_variants() {
    assert_eq!(calculate_leet_variants("xyz"), 1);
    assert_eq!(calculate_leet_variants("a"), 2);
    assert_eq!(calculate_leet_variants("e"), 2);
    assert_eq!(calculate_leet_variants("i"), 2);
    assert_eq!(calculate_leet_variants("admin"), 4);
    assert_eq!(calculate_leet_variants("password"), 16);
    assert_eq!(calculate_leet_variants("hello"), 16);
    assert_eq!(calculate_leet_variants("aeiou"), 16);
    assert_eq!(calculate_leet_variants("ADMIN"), 4);
    assert_eq!(calculate_leet_variants("Admin"), 4);
    assert_eq!(calculate_leet_variants("PASSWORD"), 16);
}

#[test]
fn test_special_char_variants() {
    let variants = calculate_special_char_variants();
    assert!(variants > 16);
}

#[test]
fn test_word_permutations() {
    assert_eq!(calculate_word_permutations(1, 5).unwrap(), 1);
    assert_eq!(calculate_word_permutations(2, 2).unwrap(), 4);
    assert_eq!(calculate_word_permutations(2, 1).unwrap(), 2);
    let result3 = calculate_word_permutations(3, 3).unwrap();
    assert_eq!(result3, 15);
}

#[test]
fn test_permutation_count() {
    assert_eq!(permutation_count(5, 1).unwrap(), 5);
    assert_eq!(permutation_count(5, 2).unwrap(), 20);
    assert_eq!(permutation_count(5, 3).unwrap(), 60);
    assert_eq!(permutation_count(3, 3).unwrap(), 6);
    assert_eq!(permutation_count(5, 0).unwrap(), 1);
    assert_eq!(permutation_count(0, 1).unwrap(), 0);
    assert_eq!(permutation_count(1, 0).unwrap(), 1);
}

#[test]
fn test_format_combination_count() {
    assert_eq!(format_combination_count(0), "0");
    assert_eq!(format_combination_count(500), "500");
    assert_eq!(format_combination_count(1500), "1.5 thousand");
    assert_eq!(format_combination_count(1_500_000), "1.5 million");
    assert_eq!(format_combination_count(2_000_000_000), "2.0 billion");
    assert_eq!(format_combination_count(u64::MAX), "too many to count");
}

#[test]
fn test_format_file_size() {
    assert_eq!(format_file_size(0), "0 B");
    assert_eq!(format_file_size(500), "500 B");
    assert_eq!(format_file_size(1536), "1.5 KB");
    assert_eq!(format_file_size(1_048_576), "1.0 MB");
    assert_eq!(format_file_size(1_073_741_824), "1.0 GB");
}

#[test]
fn test_full_combinatorial_analysis() {
    let words = vec!["admin".to_string(), "pass".to_string()];
    let config = CombinatorialConfig { max_words: 2, include_special_chars: false };
    let analysis = calculate_total_combinations(&words, &config).unwrap();
    assert!(analysis.total_combinations > 0);
    assert!(analysis.estimated_file_size_bytes > 0);
    assert!(analysis.breakdown.word_permutations > 0);
    assert!(analysis.breakdown.leet_variants > 0);
    assert_eq!(analysis.breakdown.case_variants, 3);
    assert_eq!(analysis.breakdown.special_char_variants, 1);
    assert!(!analysis.breakdown.by_word_count.is_empty());
    for breakdown in &analysis.breakdown.by_word_count {
        assert!(breakdown.word_count > 0);
        assert!(breakdown.combinations > 0);
        assert!(breakdown.average_length > 0);
    }
}

#[test]
fn test_with_special_characters() {
    let words = vec!["admin".to_string()];
    let config = CombinatorialConfig { max_words: 1, include_special_chars: true };
    let analysis = calculate_total_combinations(&words, &config).unwrap();
    let config_no_special = CombinatorialConfig { include_special_chars: false, ..config };
    let analysis_no_special = calculate_total_combinations(&words, &config_no_special).unwrap();
    assert!(analysis.total_combinations > analysis_no_special.total_combinations);
}

#[test]
fn test_duplicate_word_removal() {
    let words = vec!["admin".to_string(), "admin".to_string(), "pass".to_string()];
    let config = CombinatorialConfig { max_words: 2, include_special_chars: false };
    let analysis = calculate_total_combinations(&words, &config).unwrap();
    let unique_words = vec!["admin".to_string(), "pass".to_string()];
    let analysis_unique = calculate_total_combinations(&unique_words, &config).unwrap();
    assert_eq!(analysis.total_combinations, analysis_unique.total_combinations);
}

#[test]
fn test_randomized_small_word_lists() {
    let mut state: u64 = 0x2545_f491_4f6c_dd1d;
    for _ in 0..10 {
        let words = generate_random_word_list(&mut state, 1, 3, 2, 6);
        let max_words = 1 + (next_random(&mut state) as usize) % 3;
        let include_special_chars = next_random(&mut state) % 2 == 0;
        if let Err(e) = verify_calculation_is_reasonable(&words, max_words, include_special_chars) {
            panic!("Randomized test failed: {}", e);
        }
    }
}

#[test]
fn test_randomized_edge_cases() {
    let words_no_leet = vec!["xyz".to_string(), "qwrt".to_string()];
    verify_calculation_is_reasonable(&words_no_leet, 2, false).unwrap();
    let words_many_leet = vec!["assassin".to_string(), "password".to_string()];
    verify_calculation_is_reasonable(&words_many_leet, 2, true).unwrap();
    let words_single = vec!["a".to_string(), "i".to_string(), "s".to_string()];
    verify_calculation_is_reasonable(&words_single, 2, false).unwrap();
    let words_long = vec!["supercalifragilisticexpialidocious".to_string()];
    verify_calculation_is_reasonable(&words_long, 1, false).unwrap();
}

#[test]
fn test_reproducible_random_sequences() {
    let mut state: u64 = 42;
    let words: Vec<String> = (0..3)
        .map(|_| {
            let len = 3 + (next_random(&mut state) as usize) % 5;
            generate_random_word(&mut state, len)
        })
        .collect();
    verify_calculation_is_reasonable(&words, 2, false).unwrap();
    verify_calculation_is_reasonable(&words, 3, true).unwrap();
}

#[test]
fn test_problematic_patterns() {
    let words = vec!["admin".to_string()];
    verify_calculation_is_reasonable(&words, 1, true).unwrap();
    let words = vec!["aaa".to_string()];
    verify_calculation_is_reasonable(&words, 1, false).unwrap();
    let words = vec!["AdMiN".to_string(), "PaSsWoRd".to_string()];
    verify_calculation_is_reasonable(&words, 2, false).unwrap();
}
