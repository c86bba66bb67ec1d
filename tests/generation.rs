use p455w0rd::combinatorics::{calculate_total_combinations, CombinatorialConfig};
use p455w0rd::generator::{
    generate_cartesian_product, padded_forms, Assembler, GeneratorConfig,
};

fn config(min_len: usize, max_len: usize, max_words: usize, pad: bool, limit: usize) -> GeneratorConfig {
    GeneratorConfig {
        min_len,
        max_len,
        limit,
        output_file: "out.txt".to_string(),
        chunk_size: 100,
        quiet: true,
        append: false,
        max_words,
        no_special_chars: !pad,
    }
}

fn run(words: &[String], cfg: &GeneratorConfig) -> Vec<String> {
    let mut assembler = Assembler::new(words, cfg).unwrap();
    let mut out = Vec::new();
    while let Some(batch) = assembler.next_batch() {
        out.extend(batch);
    }
    out
}

#[test]
fn generated_count_matches_the_analysis() {
    let words = vec!["admin".to_string(), "pass".to_string()];
    let out = run(&words, &config(4, 12, 2, false, 0));
    let analysis = calculate_total_combinations(
        &words,
        &CombinatorialConfig { max_words: 2, include_special_chars: false },
    )
    .unwrap();
    assert_eq!(out.len() as u64, analysis.total_combinations);
    assert_eq!(out.len(), 587);
    assert_eq!(out[0], "4DM1N");
    assert!(out.contains(&"4dm1np455".to_string()));
    assert!(out.contains(&"P455admin".to_string()));
}

#[test]
fn runs_are_repeatable() {
    let words = vec!["ab".to_string(), "cd".to_string()];
    let cfg = config(2, 8, 2, true, 0);
    assert_eq!(run(&words, &cfg), run(&words, &cfg));
}

#[test]
fn limit_stops_the_run() {
    let words = vec!["admin".to_string(), "pass".to_string()];
    let all = run(&words, &config(4, 12, 2, false, 0));
    let some = run(&words, &config(4, 12, 2, false, 5));
    assert_eq!(some.len(), 5);
    assert_eq!(&all[..5], &some[..]);
}

#[test]
fn padding_only_for_bases_in_the_window() {
    let words = vec!["ab".to_string()];
    assert_eq!(run(&words, &config(3, 3, 1, true, 0)).len(), 0);
    let out = run(&words, &config(2, 3, 1, true, 0));
    assert_eq!(out.len(), 5 * 11);
    assert!(out.contains(&"!ab".to_string()));
    assert!(out.contains(&"4B%".to_string()));
}

#[test]
fn padded_forms_enumerate_every_arrangement() {
    let forms = padded_forms(&"ab".to_string());
    assert_eq!(forms.len(), 650);
    assert_eq!(forms[0], "!ab");
    assert_eq!(forms[5], "ab!");
    assert_eq!(forms[10], "!@ab");
    assert_eq!(forms[11], "ab!@");
    assert_eq!(forms[649], "ab%$#@!");
}

#[test]
fn cartesian_product_in_order_with_pruning() {
    let variants = vec![
        vec!["a".to_string(), "b".to_string()],
        vec!["cc".to_string()],
    ];
    assert_eq!(generate_cartesian_product(&variants, &vec![0, 1], 10), vec!["acc", "bcc"]);
    assert_eq!(generate_cartesian_product(&variants, &vec![1, 0], 10), vec!["cca", "ccb"]);
    assert!(generate_cartesian_product(&variants, &vec![1, 0], 2).is_empty());
}

#[test]
fn invalid_runs_are_refused() {
    assert!(Assembler::new(&[], &config(1, 5, 1, false, 0)).is_err());
    assert!(Assembler::new(&["ab".to_string()], &config(5, 4, 1, false, 0)).is_err());
}

#[test]
fn arrangements_of_more_words_follow_fewer() {
    let words = vec!["x".to_string(), "y".to_string()];
    let out = run(&words, &config(1, 5, 2, false, 0));
    assert_eq!(out, vec!["X", "x", "Y", "y", "XY", "Xy", "xY", "xy", "YX", "Yx", "yX", "yx"]);
}

#[test]
fn window_is_measured_in_bytes() {
    // "é" is one character but two bytes, so its variants are two bytes long.
    let words = vec!["é".to_string()];
    assert_eq!(run(&words, &config(1, 1, 1, false, 0)).len(), 0);
    let out = run(&words, &config(2, 3, 1, true, 0));
    assert_eq!(out.len(), 2 * 11);
    assert!(out.contains(&"!é".to_string()));
    assert!(out.contains(&"É%".to_string()));
}

#[test]
fn pruning_is_measured_in_bytes() {
    let variants = vec![vec!["é".to_string()], vec!["é".to_string()]];
    assert!(generate_cartesian_product(&variants, &vec![0, 1], 3).is_empty());
    assert_eq!(generate_cartesian_product(&variants, &vec![0, 1], 4), vec!["éé"]);
}

#[test]
fn empty_arrangement_has_no_product() {
    let variants = vec![vec!["a".to_string()]];
    assert!(generate_cartesian_product(&variants, &vec![], 10).is_empty());
}

#[test]
fn every_batch_call_makes_progress() {
    let words = vec!["ab".to_string(), "cd".to_string()];
    let mut assembler = Assembler::new(&words, &config(1, 10, 2, false, 0)).unwrap();
    let mut calls = 0;
    while assembler.next_batch().is_some() {
        calls += 1;
    }
    // Two arrangements of one word and two of two words.
    assert_eq!(calls, 4);
    assert!(assembler.next_batch().is_none());
}

#[test]
fn padded_count_matches_the_analysis() {
    let words = vec!["admin".to_string(), "pass".to_string()];
    let out = run(&words, &config(0, 50, 2, true, 0));
    let analysis = calculate_total_combinations(
        &words,
        &CombinatorialConfig { max_words: 2, include_special_chars: true },
    )
    .unwrap();
    assert_eq!(out.len() as u64, analysis.total_combinations);
    assert_eq!(out.len(), 587 * 651);
}
