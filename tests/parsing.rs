use p455w0rd::args::Args;
use p455w0rd::word_list::{parse_words, split_at_commas, text_lines, trim};

fn args(wpa2: bool, max_words: usize) -> Args {
    Args {
        input: None,
        words: vec![],
        output: "passwords.txt".to_string(),
        wpa2,
        min_length: 4,
        max_length: 20,
        limit: 0,
        chunk_size: 100000,
        quiet: false,
        append: false,
        max_words,
        no_special_chars: false,
        force: false,
    }
}

#[test]
fn length_constraints() {
    assert_eq!(args(true, 0).get_length_constraints(), (8, 63));
    assert_eq!(args(false, 0).get_length_constraints(), (4, 20));
}

#[test]
fn max_words_zero_is_unlimited() {
    assert_eq!(args(false, 0).get_max_words(), usize::MAX);
    assert_eq!(args(false, 3).get_max_words(), 3);
}

#[test]
fn word_list_lines_and_commas() {
    let given = vec!["zeta".to_string(), "b".to_string(), String::new()];
    let words = parse_words(&given, Some("a, c\n\n  d \r\nb"));
    assert_eq!(words, vec!["a", "b", "c", "d", "zeta"]);
    assert_eq!(parse_words(&given, None), vec!["b", "zeta"]);
}

#[test]
fn commas_split_into_pieces() {
    assert_eq!(split_at_commas("a,,b"), vec!["a", "", "b"]);
    assert_eq!(split_at_commas(""), vec![""]);
    assert_eq!(split_at_commas("x,"), vec!["x", ""]);
}

#[test]
fn lines_drop_their_endings() {
    assert_eq!(text_lines("a\r\nb\n\nc\r"), vec!["a", "b", "", "c\r"]);
    assert_eq!(text_lines("x\n"), vec!["x"]);
    assert!(text_lines("").is_empty());
    assert_eq!(text_lines("a\rb"), vec!["a\rb"]);
}

#[test]
fn trim_strips_unicode_white_space() {
    assert_eq!(trim(" \u{3000}ab\t\n"), "ab");
    assert_eq!(trim("\u{200b}a\u{85}"), "\u{200b}a");
    assert_eq!(trim("   "), "");
    assert_eq!(trim("a b"), "a b");
}

#[test]
fn lines_agree_with_std() {
    let samples = ["", "\n", "\r\n", "a", "a\n", "a\r", "a\r\r\n", "\n\nb", "x\r\ny\rz\n\r", "é\r\nü"];
    for s in samples {
        let expected: Vec<String> = s.lines().map(|l| l.to_string()).collect();
        assert_eq!(text_lines(s), expected, "on {:?}", s);
    }
}

#[test]
fn trim_agrees_with_std() {
    let mut samples: Vec<String> = vec!["".to_string(), "a".to_string(), " a b ".to_string()];
    for v in 0u32..0x3100 {
        if let Some(c) = char::from_u32(v) {
            samples.push(format!("{}x{}", c, c));
        }
    }
    for s in &samples {
        assert_eq!(trim(s), s.trim(), "on {:?}", s);
    }
}
