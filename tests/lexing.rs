use m8db::text::{chars_of, is_word, lines_of, push_decimal, string_of, tokens_of};

fn strings(v: Vec<Vec<char>>) -> Vec<String> {
    v.into_iter().map(|l| l.into_iter().collect()).collect()
}

#[test]
fn string_of_keeps_every_character() {
    assert_eq!(string_of(&vec!['a', 'ß', ' ', '7']), "aß 7");
    assert_eq!(string_of(&vec![]), "");
}

#[test]
fn lines_split_at_line_feeds() {
    assert_eq!(strings(lines_of(&chars_of("a\r\nb\n\nc"))), vec!["a", "b", "", "c"]);
    assert_eq!(strings(lines_of(&chars_of("x\n"))), vec!["x"]);
    assert_eq!(strings(lines_of(&chars_of("\n"))), vec![""]);
    assert!(lines_of(&chars_of("")).is_empty());
    assert_eq!(strings(lines_of(&chars_of("a\r"))), vec!["a\r"]);
}

#[test]
fn tokens_split_at_white_space() {
    assert_eq!(
        strings(tokens_of(&chars_of(" IS_ZERO\t1\u{A0} loop  "))),
        vec!["IS_ZERO", "1", "loop"]
    );
    assert!(tokens_of(&chars_of(" \t ")).is_empty());
}

#[test]
fn decimal_notation() {
    let mut out = vec!['#'];
    push_decimal(&mut out, 0);
    push_decimal(&mut out, 1907);
    assert_eq!(out.into_iter().collect::<String>(), "#01907");
}

#[test]
fn word_comparison_is_exact() {
    assert!(is_word(&chars_of("STOP"), "STOP"));
    assert!(!is_word(&chars_of("STOPS"), "STOP"));
    assert!(!is_word(&chars_of("stop"), "STOP"));
}
