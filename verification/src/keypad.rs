//! The fixed telephone keypad mapping from letters to digits, and the digit
//! keys derived from words and number strings.
use vstd::prelude::*;

verus! {

/// The keypad mapping: each ASCII letter (either case) has a digit; every
/// other character has none.
pub open spec fn spec_alpha_digit(c: char) -> Option<u8> {
    if c == 'e' || c == 'E' {
        Some(0u8)
    } else if c == 'j' || c == 'n' || c == 'q' || c == 'J' || c == 'N' || c == 'Q' {
        Some(1u8)
    } else if c == 'r' || c == 'w' || c == 'x' || c == 'R' || c == 'W' || c == 'X' {
        Some(2u8)
    } else if c == 'd' || c == 's' || c == 'y' || c == 'D' || c == 'S' || c == 'Y' {
        Some(3u8)
    } else if c == 'f' || c == 't' || c == 'F' || c == 'T' {
        Some(4u8)
    } else if c == 'a' || c == 'm' || c == 'A' || c == 'M' {
        Some(5u8)
    } else if c == 'c' || c == 'i' || c == 'v' || c == 'C' || c == 'I' || c == 'V' {
        Some(6u8)
    } else if c == 'b' || c == 'k' || c == 'u' || c == 'B' || c == 'K' || c == 'U' {
        Some(7u8)
    } else if c == 'l' || c == 'o' || c == 'p' || c == 'L' || c == 'O' || c == 'P' {
        Some(8u8)
    } else if c == 'g' || c == 'h' || c == 'z' || c == 'G' || c == 'H' || c == 'Z' {
        Some(9u8)
    } else {
        None
    }
}

/// A character in '0'..='9' stands for its own digit; every other character
/// contributes none.
pub open spec fn spec_numeric_digit(c: char) -> Option<u8> {
    if 48 <= c as int && c as int <= 57 {
        Some((c as int - 48) as u8)
    } else {
        None
    }
}

/// The digit key of a word: its letters mapped through the keypad, in order,
/// every non-letter character discarded.
pub open spec fn key_of(s: Seq<char>) -> Seq<u8> {
    s.filter_map(|c: char| spec_alpha_digit(c))
}

/// The digit sequence of a number string: its digit characters, in order,
/// punctuation discarded.
pub open spec fn digits_of(s: Seq<char>) -> Seq<u8> {
    s.filter_map(|c: char| spec_numeric_digit(c))
}

/// The printable character of a digit.
pub open spec fn digit_char(d: u8) -> char {
    if d == 0 {
        '0'
    } else if d == 1 {
        '1'
    } else if d == 2 {
        '2'
    } else if d == 3 {
        '3'
    } else if d == 4 {
        '4'
    } else if d == 5 {
        '5'
    } else if d == 6 {
        '6'
    } else if d == 7 {
        '7'
    } else if d == 8 {
        '8'
    } else {
        '9'
    }
}

/// A character the keypad maps, that is, an ASCII letter.
pub open spec fn is_keypad_letter(c: char) -> bool {
    spec_alpha_digit(c) is Some
}

/// The lower-case form of a character: ASCII upper-case letters fold, every
/// other character stands.
pub open spec fn lower_char(c: char) -> char {
    if c == 'A' {
        'a'
    } else if c == 'B' {
        'b'
    } else if c == 'C' {
        'c'
    } else if c == 'D' {
        'd'
    } else if c == 'E' {
        'e'
    } else if c == 'F' {
        'f'
    } else if c == 'G' {
        'g'
    } else if c == 'H' {
        'h'
    } else if c == 'I' {
        'i'
    } else if c == 'J' {
        'j'
    } else if c == 'K' {
        'k'
    } else if c == 'L' {
        'l'
    } else if c == 'M' {
        'm'
    } else if c == 'N' {
        'n'
    } else if c == 'O' {
        'o'
    } else if c == 'P' {
        'p'
    } else if c == 'Q' {
        'q'
    } else if c == 'R' {
        'r'
    } else if c == 'S' {
        's'
    } else if c == 'T' {
        't'
    } else if c == 'U' {
        'u'
    } else if c == 'V' {
        'v'
    } else if c == 'W' {
        'w'
    } else if c == 'X' {
        'x'
    } else if c == 'Y' {
        'y'
    } else if c == 'Z' {
        'z'
    } else {
        c
    }
}

/// The digit key of a word is case-insensitive: folding every character to
/// lower case leaves the key unchanged.
pub proof fn lemma_key_of_case_insensitive(s: Seq<char>)
    ensures
        key_of(s.map_values(|c: char| lower_char(c))) == key_of(s),
    decreases s.len(),
{
    let f = |c: char| spec_alpha_digit(c);
    let g = |c: char| lower_char(c);
    let t = s.map_values(g);
    if s.len() == 0 {
        assert(t =~= Seq::<char>::empty());
        assert(key_of(t) =~= key_of(s));
    } else {
        lemma_key_of_case_insensitive(s.drop_last());
        assert(t.drop_last() =~= s.drop_last().map_values(g));
        assert(t.last() == lower_char(s.last()));
        assert(f(t.last()) == f(s.last()));
        assert(key_of(t) =~= key_of(s));
    }
}

/// The digit key of a word ignores non-letter characters: discarding them
/// beforehand leaves the key unchanged.
pub proof fn lemma_key_of_ignores_nonletters(s: Seq<char>)
    ensures
        key_of(s.filter(|c: char| is_keypad_letter(c))) == key_of(s),
    decreases s.len(),
{
    reveal_with_fuel(Seq::<_>::filter, 2);
    let f = |c: char| spec_alpha_digit(c);
    let p = |c: char| is_keypad_letter(c);
    let t = s.filter(p);
    if s.len() == 0 {
        assert(key_of(t) =~= key_of(s));
    } else {
        lemma_key_of_ignores_nonletters(s.drop_last());
        if p(s.last()) {
            assert(t == s.drop_last().filter(p).push(s.last()));
            assert(t.drop_last() =~= s.drop_last().filter(p));
            assert(t.last() == s.last());
            assert(key_of(t) =~= key_of(s));
        } else {
            assert(t == s.drop_last().filter(p));
            assert(f(s.last()) is None);
            assert(key_of(s) =~= key_of(s.drop_last()));
        }
    }
}

/// Maps one character to its keypad digit, or `None` for a non-letter.
pub fn alpha_char_to_digit(ch: char) -> (r: Option<u8>)
    ensures
        r == spec_alpha_digit(ch),
{
    if ch == 'e' || ch == 'E' {
        Some(0)
    } else if ch == 'j' || ch == 'n' || ch == 'q' || ch == 'J' || ch == 'N' || ch == 'Q' {
        Some(1)
    } else if ch == 'r' || ch == 'w' || ch == 'x' || ch == 'R' || ch == 'W' || ch == 'X' {
        Some(2)
    } else if ch == 'd' || ch == 's' || ch == 'y' || ch == 'D' || ch == 'S' || ch == 'Y' {
        Some(3)
    } else if ch == 'f' || ch == 't' || ch == 'F' || ch == 'T' {
        Some(4)
    } else if ch == 'a' || ch == 'm' || ch == 'A' || ch == 'M' {
        Some(5)
    } else if ch == 'c' || ch == 'i' || ch == 'v' || ch == 'C' || ch == 'I' || ch == 'V' {
        Some(6)
    } else if ch == 'b' || ch == 'k' || ch == 'u' || ch == 'B' || ch == 'K' || ch == 'U' {
        Some(7)
    } else if ch == 'l' || ch == 'o' || ch == 'p' || ch == 'L' || ch == 'O' || ch == 'P' {
        Some(8)
    } else if ch == 'g' || ch == 'h' || ch == 'z' || ch == 'G' || ch == 'H' || ch == 'Z' {
        Some(9)
    } else {
        None
    }
}

/// Maps one character to the digit it spells, or `None` for a non-digit.
pub fn numeric_char_to_digit(ch: char) -> (r: Option<u8>)
    ensures
        r == spec_numeric_digit(ch),
{
    let n = ch as u32;
    if 48 <= n && n <= 57 {
        Some((n - 48) as u8)
    } else {
        None
    }
}

/// The single-character string of a digit.
pub fn digit_to_str(digit: u8) -> (r: &'static str)
    requires
        digit < 10,
    ensures
        r@ == seq![digit_char(digit)],
{
    let r: &'static str = if digit == 0 {
        "0"
    } else if digit == 1 {
        "1"
    } else if digit == 2 {
        "2"
    } else if digit == 3 {
        "3"
    } else if digit == 4 {
        "4"
    } else if digit == 5 {
        "5"
    } else if digit == 6 {
        "6"
    } else if digit == 7 {
        "7"
    } else if digit == 8 {
        "8"
    } else {
        "9"
    };
    proof {
        reveal_strlit("0");
        reveal_strlit("1");
        reveal_strlit("2");
        reveal_strlit("3");
        reveal_strlit("4");
        reveal_strlit("5");
        reveal_strlit("6");
        reveal_strlit("7");
        reveal_strlit("8");
        reveal_strlit("9");
        assert(r@ =~= seq![digit_char(digit)]);
    }
    r
}

/// The digit key of a word.
#[verifier::loop_isolation(false)]
pub fn word_to_number(word: &str) -> (key: Vec<u8>)
    ensures
        key@ == key_of(word@),
        forall|i: int| 0 <= i < key@.len() ==> key@[i] < 10,
{
    let ghost f = |c: char| spec_alpha_digit(c);
    let len = word.unicode_len();
    let mut key: Vec<u8> = Vec::new();
    let mut i: usize = 0;
    while i < len
        invariant
            len == word@.len(),
            i <= len,
            key@ == word@.take(i as int).filter_map(f),
            forall|m: int| 0 <= m < key@.len() ==> key@[m] < 10,
        decreases len - i,
    {
        let c = word.get_char(i);
        proof {
            word@.lemma_filter_map_take_succ(f, i as int);
        }
        match alpha_char_to_digit(c) {
            Some(d) => {
                key.push(d);
            },
            None => {},
        }
        assert(key@ =~= word@.take(i as int + 1).filter_map(f));
        i = i + 1;
    }
    proof {
        assert(word@.take(len as int) =~= word@);
    }
    key
}

/// The digit sequence of a number string.
#[verifier::loop_isolation(false)]
pub fn number_digits(num: &str) -> (digits: Vec<u8>)
    ensures
        digits@ == digits_of(num@),
        forall|i: int| 0 <= i < digits@.len() ==> digits@[i] < 10,
{
    let ghost f = |c: char| spec_numeric_digit(c);
    let len = num.unicode_len();
    let mut digits: Vec<u8> = Vec::new();
    let mut i: usize = 0;
    while i < len
        invariant
            len == num@.len(),
            i <= len,
            digits@ == num@.take(i as int).filter_map(f),
            forall|m: int| 0 <= m < digits@.len() ==> digits@[m] < 10,
        decreases len - i,
    {
        let c = num.get_char(i);
        proof {
            num@.lemma_filter_map_take_succ(f, i as int);
        }
        match numeric_char_to_digit(c) {
            Some(d) => {
                digits.push(d);
            },
            None => {},
        }
        assert(digits@ =~= num@.take(i as int + 1).filter_map(f));
        i = i + 1;
    }
    proof {
        assert(num@.take(len as int) =~= num@);
    }
    digits
}

} // verus!
