use phone_encoder::dict::load_dict;
use phone_encoder::keypad::number_digits;
use phone_encoder::search::Token;
use phone_encoder::search::write_reversed;
use phone_encoder::search::write_translations;

fn words(list: &[&str]) -> Vec<String> {
    list.iter().map(|w| w.to_string()).collect()
}

fn translations(word_list: &[&str], num: &str) -> Vec<String> {
    let dict = load_dict(&words(word_list));
    let digits = number_digits(num);
    let mut out: Vec<String> = Vec::new();
    write_translations(&mut out, &dict, num, &digits);
    out
}

#[test]
fn word_pair_covers_the_number() {
    // Mon -> 581, day -> 353
    assert_eq!(translations(&["Mon", "day"], "581353"), vec!["581353: Mon day"]);
}

#[test]
fn original_number_string_is_echoed_verbatim() {
    assert_eq!(
        translations(&["Mon", "day"], "5-8-1-3-5-3/"),
        vec!["5-8-1-3-5-3/: Mon day"]
    );
}

#[test]
fn lone_digit_with_empty_dictionary_is_a_literal() {
    assert_eq!(translations(&[], "7"), vec!["7: 7"]);
}

#[test]
fn no_two_adjacent_literals_so_longer_gaps_yield_nothing() {
    assert_eq!(translations(&[], "00"), Vec::<String>::new());
    assert_eq!(translations(&[], "77"), Vec::<String>::new());
    assert_eq!(translations(&[], "123"), Vec::<String>::new());
}

#[test]
fn literal_digit_bridges_one_uncovered_position() {
    // b -> 7, so "75" splits into the word and one literal digit
    assert_eq!(translations(&["b"], "75"), vec!["75: b 5"]);
}

#[test]
fn literal_digit_may_open_the_decomposition() {
    // b -> 7: nothing matches at the first position, so the 5 is a literal
    assert_eq!(translations(&["b"], "57"), vec!["57: 5 b"]);
}

#[test]
fn literal_digit_bridges_between_words() {
    // b -> 7, e -> 0: the 5 in the middle has no coverage
    assert_eq!(translations(&["b", "e"], "750"), vec!["750: b 5 e"]);
}

#[test]
fn word_match_suppresses_the_literal_digit() {
    // b -> 7: no "7: 7" line may appear next to the word match
    assert_eq!(translations(&["b"], "7"), vec!["7: b"]);
}

#[test]
fn words_of_one_bucket_emit_in_word_list_order() {
    // mir and air share the key 562
    assert_eq!(translations(&["mir", "air"], "562"), vec!["562: mir", "562: air"]);
}

#[test]
fn shorter_prefixes_emit_before_longer_ones() {
    // e -> 0, ee -> 00
    assert_eq!(translations(&["e", "ee"], "00"), vec!["00: e e", "00: ee"]);
}

#[test]
fn number_without_digits_emits_one_empty_decomposition() {
    assert_eq!(translations(&[], "-/"), vec!["-/:"]);
}

#[test]
fn output_is_deterministic_across_runs() {
    let first = translations(&["Mon", "day", "e", "ee", "b"], "581353007");
    let second = translations(&["Mon", "day", "e", "ee", "b"], "581353007");
    assert_eq!(first, second);
}

#[test]
fn appended_lines_follow_existing_ones() {
    let dict = load_dict(&words(&["b"]));
    let mut out = vec!["kept".to_string()];
    let digits = number_digits("7");
    write_translations(&mut out, &dict, "7", &digits);
    assert_eq!(out, vec!["kept", "7: b"]);
}

#[test]
fn token_trail_renders_space_separated() {
    let mut line = "581353".to_string();
    line.push(':');
    let tokens = vec![Token::Word("Mon".to_string()), Token::Digit(5)];
    write_reversed(&mut line, &tokens);
    assert_eq!(line, "581353: Mon 5");
}
