use phone_encoder::keypad::alpha_char_to_digit;
use phone_encoder::keypad::digit_to_str;
use phone_encoder::keypad::number_digits;
use phone_encoder::keypad::numeric_char_to_digit;
use phone_encoder::keypad::word_to_number;

#[test]
fn alpha_char_groups() {
    assert_eq!(alpha_char_to_digit('e'), Some(0));
    assert_eq!(alpha_char_to_digit('E'), Some(0));
    assert_eq!(alpha_char_to_digit('j'), Some(1));
    assert_eq!(alpha_char_to_digit('n'), Some(1));
    assert_eq!(alpha_char_to_digit('q'), Some(1));
    assert_eq!(alpha_char_to_digit('r'), Some(2));
    assert_eq!(alpha_char_to_digit('w'), Some(2));
    assert_eq!(alpha_char_to_digit('x'), Some(2));
    assert_eq!(alpha_char_to_digit('d'), Some(3));
    assert_eq!(alpha_char_to_digit('s'), Some(3));
    assert_eq!(alpha_char_to_digit('y'), Some(3));
    assert_eq!(alpha_char_to_digit('f'), Some(4));
    assert_eq!(alpha_char_to_digit('t'), Some(4));
    assert_eq!(alpha_char_to_digit('a'), Some(5));
    assert_eq!(alpha_char_to_digit('m'), Some(5));
    assert_eq!(alpha_char_to_digit('c'), Some(6));
    assert_eq!(alpha_char_to_digit('i'), Some(6));
    assert_eq!(alpha_char_to_digit('v'), Some(6));
    assert_eq!(alpha_char_to_digit('b'), Some(7));
    assert_eq!(alpha_char_to_digit('k'), Some(7));
    assert_eq!(alpha_char_to_digit('u'), Some(7));
    assert_eq!(alpha_char_to_digit('l'), Some(8));
    assert_eq!(alpha_char_to_digit('o'), Some(8));
    assert_eq!(alpha_char_to_digit('p'), Some(8));
    assert_eq!(alpha_char_to_digit('g'), Some(9));
    assert_eq!(alpha_char_to_digit('h'), Some(9));
    assert_eq!(alpha_char_to_digit('z'), Some(9));
    assert_eq!(alpha_char_to_digit('Z'), Some(9));
}

#[test]
fn alpha_char_rejects_nonletters() {
    assert_eq!(alpha_char_to_digit('-'), None);
    assert_eq!(alpha_char_to_digit('7'), None);
    assert_eq!(alpha_char_to_digit('"'), None);
    assert_eq!(alpha_char_to_digit(' '), None);
}

#[test]
fn numeric_char_digits() {
    assert_eq!(numeric_char_to_digit('0'), Some(0));
    assert_eq!(numeric_char_to_digit('5'), Some(5));
    assert_eq!(numeric_char_to_digit('9'), Some(9));
    assert_eq!(numeric_char_to_digit('a'), None);
    assert_eq!(numeric_char_to_digit('/'), None);
    assert_eq!(numeric_char_to_digit('-'), None);
}

#[test]
fn digit_strings() {
    assert_eq!(digit_to_str(0), "0");
    assert_eq!(digit_to_str(1), "1");
    assert_eq!(digit_to_str(5), "5");
    assert_eq!(digit_to_str(9), "9");
}

#[test]
fn digit_key_ignores_case_and_punctuation() {
    let a = word_to_number("Tree");
    let b = word_to_number("tree");
    let c = word_to_number("T-r-e-e");
    assert_eq!(a, vec![4, 2, 0, 0]);
    assert_eq!(a, b);
    assert_eq!(b, c);
}

#[test]
fn digit_key_of_letterless_word_is_empty() {
    assert_eq!(word_to_number("123"), Vec::<u8>::new());
    assert_eq!(word_to_number(""), Vec::<u8>::new());
    assert_eq!(word_to_number("\"-/\""), Vec::<u8>::new());
}

#[test]
fn number_digits_filters_punctuation() {
    assert_eq!(number_digits("581353"), vec![5, 8, 1, 3, 5, 3]);
    assert_eq!(number_digits("5-8/1 3.5:3"), vec![5, 8, 1, 3, 5, 3]);
    assert_eq!(number_digits("-/"), Vec::<u8>::new());
    assert_eq!(number_digits(""), Vec::<u8>::new());
}
