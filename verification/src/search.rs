//! The decomposition engine: a depth-first, prefix-first backtracking search
//! that splits a number's digits into dictionary words, with a single literal
//! digit as a filler wherever no word matches, and never two literal digits
//! in a row.
use crate::dict::Dict;
use crate::dict::Dictionary;
use crate::dict::dict_wf;
use crate::dict::word_views;
use crate::keypad::digit_char;
use crate::keypad::digit_to_str;
use crate::keypad::key_of;
use vstd::prelude::*;

verus! {

/// One token of a decomposition: a dictionary word, or one literal digit.
pub enum Token {
    Word(String),
    Digit(u8),
}

/// The mathematical form of a token: the word's characters, or the digit.
pub enum SpecToken {
    Word(Seq<char>),
    Digit(u8),
}

impl View for Token {
    type V = SpecToken;

    open spec fn view(&self) -> SpecToken {
        match self {
            Token::Word(w) => SpecToken::Word(w@),
            Token::Digit(d) => SpecToken::Digit(*d),
        }
    }
}

/// A literal-digit token carries an actual digit.
pub open spec fn token_wf(t: SpecToken) -> bool {
    match t {
        SpecToken::Word(_) => true,
        SpecToken::Digit(d) => d < 10,
    }
}

/// The views of a sequence of tokens.
pub open spec fn token_views(ts: Seq<Token>) -> Seq<SpecToken> {
    ts.map_values(|t: Token| t@)
}

/// The printable form of a token.
pub open spec fn token_str(t: SpecToken) -> Seq<char> {
    match t {
        SpecToken::Word(w) => w,
        SpecToken::Digit(d) => seq![digit_char(d)],
    }
}

/// The rendering of a token sequence: each token preceded by one space.
pub open spec fn rendered_tokens(ts: Seq<SpecToken>) -> Seq<char>
    decreases ts.len(),
{
    if ts.len() == 0 {
        Seq::empty()
    } else {
        rendered_tokens(ts.drop_last()) + seq![' '] + token_str(ts.last())
    }
}

/// One output line: the original number string, a colon, then the tokens.
pub open spec fn line_of(num: Seq<char>, ts: Seq<SpecToken>) -> Seq<char> {
    num + seq![':'] + rendered_tokens(ts)
}

/// The output lines of a sequence of decompositions, in order.
pub open spec fn output_lines(num: Seq<char>, results: Seq<Seq<SpecToken>>) -> Seq<Seq<char>> {
    results.map_values(|r: Seq<SpecToken>| line_of(num, r))
}

/// The bucket for the prefix of the given length, empty where the dictionary
/// has no such key.
pub open spec fn bucket_at(dict: Dict, digits: Seq<u8>, l: int) -> Seq<Seq<char>> {
    if dict.contains_key(digits.take(l)) {
        dict[digits.take(l)]
    } else {
        Seq::empty()
    }
}

/// Some prefix of the digits is a dictionary key with at least one word.
pub open spec fn has_word_match(dict: Dict, digits: Seq<u8>) -> bool {
    exists|l: int| 1 <= l <= digits.len() && bucket_at(dict, digits, l).len() > 0
}

/// Each decomposition extended at the front by one token.
pub open spec fn prepend_to_all(t: SpecToken, results: Seq<Seq<SpecToken>>) -> Seq<
    Seq<SpecToken>,
> {
    results.map_values(|r: Seq<SpecToken>| seq![t] + r)
}

/// The decompositions of the digits, in emission order. With no digits left
/// there is exactly one, the empty one. Otherwise the word matches come
/// first, by ascending prefix length and bucket order; only where no prefix
/// of any length matches, and the previous token was not itself a literal
/// digit, the first digit is consumed as a literal.
pub open spec fn search(dict: Dict, digits: Seq<u8>, prev_lit: bool) -> Seq<Seq<SpecToken>>
    decreases digits.len(), 3int, 0int,
{
    if digits.len() == 0 {
        seq![Seq::<SpecToken>::empty()]
    } else if has_word_match(dict, digits) {
        word_results_from(dict, digits, 1)
    } else if !prev_lit {
        prepend_to_all(SpecToken::Digit(digits[0]), search(dict, digits.skip(1), true))
    } else {
        Seq::empty()
    }
}

/// The decompositions that start with a word whose key is a prefix of length
/// `l` or more, in emission order.
pub open spec fn word_results_from(dict: Dict, digits: Seq<u8>, l: int) -> Seq<Seq<SpecToken>>
    decreases digits.len(), 2int, digits.len() - l + 1,
{
    if 1 <= l <= digits.len() {
        bucket_results(dict, digits, l, 0) + word_results_from(dict, digits, l + 1)
    } else {
        Seq::empty()
    }
}

/// The decompositions that start with the `j`th or a later word of the bucket
/// for the prefix of length `l`, in emission order.
pub open spec fn bucket_results(dict: Dict, digits: Seq<u8>, l: int, j: int) -> Seq<
    Seq<SpecToken>,
>
    decreases digits.len(), 1int, bucket_at(dict, digits, l).len() - j,
{
    if 1 <= l <= digits.len() && 0 <= j < bucket_at(dict, digits, l).len() {
        prepend_to_all(
            SpecToken::Word(bucket_at(dict, digits, l)[j]),
            search(dict, digits.skip(l), false),
        ) + bucket_results(dict, digits, l, j + 1)
    } else {
        Seq::empty()
    }
}

/// The views of a sequence of output lines.
pub open spec fn line_views(ls: Seq<String>) -> Seq<Seq<char>> {
    ls.map_values(|s: String| s@)
}

/// Each decomposition extended at the front by a token trail.
pub open spec fn prepend_each(p: Seq<SpecToken>, results: Seq<Seq<SpecToken>>) -> Seq<
    Seq<SpecToken>,
> {
    results.map_values(|r: Seq<SpecToken>| p + r)
}

proof fn lemma_lines_add(
    num: Seq<char>,
    p: Seq<SpecToken>,
    xs: Seq<Seq<SpecToken>>,
    ys: Seq<Seq<SpecToken>>,
)
    ensures
        output_lines(num, prepend_each(p, xs + ys)) == output_lines(num, prepend_each(p, xs))
            + output_lines(num, prepend_each(p, ys)),
{
    assert(output_lines(num, prepend_each(p, xs + ys)) =~= output_lines(num, prepend_each(p, xs))
        + output_lines(num, prepend_each(p, ys)));
}

proof fn lemma_prepend_token(
    num: Seq<char>,
    p: Seq<SpecToken>,
    t: SpecToken,
    rs: Seq<Seq<SpecToken>>,
)
    ensures
        output_lines(num, prepend_each(p, prepend_to_all(t, rs))) == output_lines(
            num,
            prepend_each(p.push(t), rs),
        ),
{
    assert forall|i: int| 0 <= i < rs.len() implies p + (seq![t] + rs[i]) == p.push(t)
        + rs[i] by {
        assert(p + (seq![t] + rs[i]) =~= p.push(t) + rs[i]);
    }
    assert(output_lines(num, prepend_each(p, prepend_to_all(t, rs))) =~= output_lines(
        num,
        prepend_each(p.push(t), rs),
    ));
}

proof fn lemma_no_match_empty(dict: Dict, digits: Seq<u8>, l: int)
    requires
        !has_word_match(dict, digits),
        1 <= l,
    ensures
        word_results_from(dict, digits, l) == Seq::<Seq<SpecToken>>::empty(),
    decreases digits.len() - l + 1,
{
    if l <= digits.len() {
        assert(bucket_at(dict, digits, l).len() == 0);
        lemma_no_match_empty(dict, digits, l + 1);
        assert(bucket_results(dict, digits, l, 0) =~= Seq::<Seq<SpecToken>>::empty());
        assert(word_results_from(dict, digits, l) == bucket_results(dict, digits, l, 0)
            + word_results_from(dict, digits, l + 1));
        assert(word_results_from(dict, digits, l) =~= Seq::<Seq<SpecToken>>::empty());
    }
}

/// Appends each token of the trail, preceded by one space, to the line.
#[verifier::loop_isolation(false)]
pub fn write_reversed(line: &mut String, tokens: &Vec<Token>)
    requires
        forall|i: int| 0 <= i < tokens@.len() ==> token_wf(#[trigger] tokens@[i]@),
    ensures
        final(line)@ == old(line)@ + rendered_tokens(token_views(tokens@)),
{
    let n = tokens.len();
    let mut j: usize = 0;
    while j < n
        invariant
            j <= n,
            line@ == old(line)@ + rendered_tokens(token_views(tokens@.take(j as int))),
        decreases n - j,
    {
        proof {
            reveal_strlit(" ");
        }
        line.append(" ");
        let t = &tokens[j];
        proof {
            assert(token_wf(tokens@[j as int]@));
        }
        match t {
            Token::Word(w) => line.append(w.as_str()),
            Token::Digit(d) => line.append(digit_to_str(*d)),
        }
        proof {
            let ghost tv_j = token_views(tokens@.take(j as int));
            let ghost tv_j1 = token_views(tokens@.take(j as int + 1));
            assert(tv_j1 =~= tv_j.push(tokens@[j as int]@));
            assert(tv_j1.drop_last() =~= tv_j);
            assert(line@ =~= old(line)@ + rendered_tokens(tv_j1));
        }
        j = j + 1;
    }
    proof {
        assert(tokens@.take(n as int) =~= tokens@);
    }
}

/// The search itself: emits one line per decomposition of the digits from
/// `pos` on, each line opening with the number and the tokens chosen so far.
#[verifier::loop_isolation(false)]
fn translate_rec(
    out: &mut Vec<String>,
    dict: &Dictionary,
    num: &str,
    digits: &Vec<u8>,
    pos: usize,
    tokens: &mut Vec<Token>,
    prev_lit: bool,
)
    requires
        dict.wf(),
        pos <= digits@.len(),
        forall|i: int| 0 <= i < digits@.len() ==> digits@[i] < 10,
        forall|i: int| 0 <= i < old(tokens)@.len() ==> token_wf(#[trigger] old(tokens)@[i]@),
    ensures
        final(tokens)@ == old(tokens)@,
        line_views(final(out)@) == line_views(old(out)@) + output_lines(
            num@,
            prepend_each(
                token_views(old(tokens)@),
                search(dict@, digits@.skip(pos as int), prev_lit),
            ),
        ),
    decreases digits@.len() - pos,
{
    let ghost d_map = dict@;
    let ghost s_suf = digits@.skip(pos as int);
    let ghost p_toks = token_views(tokens@);
    if pos == digits.len() {
        let mut line = num.to_owned();
        proof {
            reveal_strlit(":");
        }
        line.append(":");
        write_reversed(&mut line, tokens);
        out.push(line);
        proof {
            assert(search(d_map, s_suf, prev_lit) == seq![Seq::<SpecToken>::empty()]);
            assert(p_toks + Seq::<SpecToken>::empty() =~= p_toks);
            assert(prepend_each(p_toks, seq![Seq::<SpecToken>::empty()]) =~= seq![p_toks]);
            assert(num@ + ":"@ =~= num@ + seq![':']);
            assert(line_views(out@) =~= line_views(old(out)@) + output_lines(
                num@,
                seq![p_toks],
            ));
        }
    } else {
        let rem = digits.len() - pos;
        let mut key: Vec<u8> = Vec::new();
        let mut found = false;
        let mut ll: usize = 0;
        proof {
            assert(key@ =~= s_suf.take(0));
        }
        while ll < rem
            invariant
                ll <= rem,
                key@ == s_suf.take(ll as int),
                tokens@ == old(tokens)@,
                found == exists|m: int| 1 <= m <= ll && bucket_at(d_map, s_suf, m).len() > 0,
                line_views(out@) + output_lines(
                    num@,
                    prepend_each(p_toks, word_results_from(d_map, s_suf, ll as int + 1)),
                ) == line_views(old(out)@) + output_lines(
                    num@,
                    prepend_each(p_toks, word_results_from(d_map, s_suf, 1)),
                ),
            decreases rem - ll,
        {
            let l = ll + 1;
            key.push(digits[pos + ll]);
            proof {
                assert(key@ =~= s_suf.take(l as int));
            }
            match dict.get(&key) {
                Some(bucket) => {
                    found = true;
                    let ghost b = bucket_at(d_map, s_suf, l as int);
                    let ghost w_rest = word_results_from(d_map, s_suf, l as int + 1);
                    proof {
                        assert(b == d_map[key@]);
                        assert(word_views(bucket@) == b);
                        assert(b.len() > 0);
                        lemma_lines_add(
                            num@,
                            p_toks,
                            bucket_results(d_map, s_suf, l as int, 0),
                            w_rest,
                        );
                    }
                    let bn = bucket.len();
                    let mut j: usize = 0;
                    while j < bn
                        invariant
                            j <= bn,
                            tokens@ == old(tokens)@,
                            line_views(out@) + (output_lines(
                                num@,
                                prepend_each(
                                    p_toks,
                                    bucket_results(d_map, s_suf, l as int, j as int),
                                ),
                            ) + output_lines(num@, prepend_each(p_toks, w_rest))) == line_views(
                                old(out)@,
                            ) + output_lines(
                                num@,
                                prepend_each(p_toks, word_results_from(d_map, s_suf, 1)),
                            ),
                        decreases bn - j,
                    {
                        let w = bucket[j].clone();
                        let ghost out_mid = out@;
                        tokens.push(Token::Word(w));
                        proof {
                            assert(forall|i: int|
                                0 <= i < tokens@.len() ==> token_wf(#[trigger] tokens@[i]@));
                        }
                        translate_rec(out, dict, num, digits, pos + l, tokens, false);
                        tokens.pop();
                        proof {
                            assert(tokens@ =~= old(tokens)@);
                            let ghost s_next = search(d_map, s_suf.skip(l as int), false);
                            assert(digits@.skip(pos as int + l as int) =~= s_suf.skip(l as int));
                            assert(token_views(old(tokens)@.push(Token::Word(w))) =~= p_toks.push(
                                SpecToken::Word(b[j as int]),
                            ));
                            lemma_prepend_token(num@, p_toks, SpecToken::Word(b[j as int]), s_next);
                            lemma_lines_add(
                                num@,
                                p_toks,
                                prepend_to_all(SpecToken::Word(b[j as int]), s_next),
                                bucket_results(d_map, s_suf, l as int, j as int + 1),
                            );
                            assert(bucket_results(d_map, s_suf, l as int, j as int)
                                == prepend_to_all(SpecToken::Word(b[j as int]), s_next)
                                + bucket_results(d_map, s_suf, l as int, j as int + 1));
                            assert(line_views(out@) + (output_lines(
                                num@,
                                prepend_each(
                                    p_toks,
                                    bucket_results(d_map, s_suf, l as int, j as int + 1),
                                ),
                            ) + output_lines(num@, prepend_each(p_toks, w_rest))) =~= line_views(
                                out_mid,
                            ) + (output_lines(
                                num@,
                                prepend_each(
                                    p_toks,
                                    bucket_results(d_map, s_suf, l as int, j as int),
                                ),
                            ) + output_lines(num@, prepend_each(p_toks, w_rest))));
                        }
                        j = j + 1;
                    }
                    proof {
                        assert(bucket_results(d_map, s_suf, l as int, bn as int)
                            =~= Seq::<Seq<SpecToken>>::empty());
                        assert(output_lines(
                            num@,
                            prepend_each(p_toks, Seq::<Seq<SpecToken>>::empty()),
                        ) =~= Seq::<Seq<char>>::empty());
                        assert(line_views(out@) + output_lines(
                            num@,
                            prepend_each(p_toks, word_results_from(d_map, s_suf, l as int + 1)),
                        ) =~= line_views(out@) + (output_lines(
                            num@,
                            prepend_each(
                                p_toks,
                                bucket_results(d_map, s_suf, l as int, bn as int),
                            ),
                        ) + output_lines(num@, prepend_each(p_toks, w_rest))));
                        assert(bucket_at(d_map, s_suf, l as int).len() > 0);
                    }
                },
                None => {
                    proof {
                        assert(bucket_at(d_map, s_suf, l as int).len() == 0);
                        assert(bucket_results(d_map, s_suf, l as int, 0)
                            =~= Seq::<Seq<SpecToken>>::empty());
                        lemma_lines_add(
                            num@,
                            p_toks,
                            bucket_results(d_map, s_suf, l as int, 0),
                            word_results_from(d_map, s_suf, l as int + 1),
                        );
                        assert(output_lines(
                            num@,
                            prepend_each(p_toks, Seq::<Seq<SpecToken>>::empty()),
                        ) =~= Seq::<Seq<char>>::empty());
                        assert(output_lines(
                            num@,
                            prepend_each(p_toks, word_results_from(d_map, s_suf, l as int)),
                        ) =~= output_lines(
                            num@,
                            prepend_each(p_toks, word_results_from(d_map, s_suf, l as int + 1)),
                        ));
                        assert(forall|m: int|
                            1 <= m <= ll + 1 && bucket_at(d_map, s_suf, m).len() > 0 ==> m
                                <= ll);
                    }
                },
            }
            ll = l;
        }
        proof {
            assert(word_results_from(d_map, s_suf, rem as int + 1)
                =~= Seq::<Seq<SpecToken>>::empty());
            assert(output_lines(num@, prepend_each(p_toks, Seq::<Seq<SpecToken>>::empty()))
                =~= Seq::<Seq<char>>::empty());
            assert(line_views(out@) =~= line_views(out@) + Seq::<Seq<char>>::empty());
            assert(found == has_word_match(d_map, s_suf)) by {
                if found {
                    let m = choose|m: int|
                        1 <= m <= ll && bucket_at(d_map, s_suf, m).len() > 0;
                    assert(1 <= m <= s_suf.len() && bucket_at(d_map, s_suf, m).len() > 0);
                }
                if has_word_match(d_map, s_suf) {
                    let m = choose|m: int|
                        1 <= m <= s_suf.len() && bucket_at(d_map, s_suf, m).len() > 0;
                    assert(1 <= m <= ll && bucket_at(d_map, s_suf, m).len() > 0);
                }
            }
        }
        if found {
            proof {
                assert(search(d_map, s_suf, prev_lit) == word_results_from(d_map, s_suf, 1));
            }
        } else {
            proof {
                lemma_no_match_empty(d_map, s_suf, 1);
                assert(output_lines(num@, prepend_each(p_toks, Seq::<Seq<SpecToken>>::empty()))
                    =~= Seq::<Seq<char>>::empty());
                assert(line_views(out@) =~= line_views(old(out)@));
            }
            if !prev_lit {
                let d0 = digits[pos];
                let ghost out_mid = out@;
                tokens.push(Token::Digit(d0));
                proof {
                    assert(forall|i: int|
                        0 <= i < tokens@.len() ==> token_wf(#[trigger] tokens@[i]@));
                }
                translate_rec(out, dict, num, digits, pos + 1, tokens, true);
                tokens.pop();
                proof {
                    assert(tokens@ =~= old(tokens)@);
                    let ghost s_next = search(d_map, s_suf.skip(1), true);
                    assert(digits@.skip(pos as int + 1) =~= s_suf.skip(1));
                    assert(d0 == s_suf[0]);
                    assert(token_views(old(tokens)@.push(Token::Digit(d0))) =~= p_toks.push(
                        SpecToken::Digit(d0),
                    ));
                    lemma_prepend_token(num@, p_toks, SpecToken::Digit(d0), s_next);
                    assert(search(d_map, s_suf, prev_lit) == prepend_to_all(
                        SpecToken::Digit(s_suf[0]),
                        s_next,
                    ));
                    assert(line_views(out@) =~= line_views(out_mid) + output_lines(
                        num@,
                        prepend_each(p_toks, search(d_map, s_suf, prev_lit)),
                    ));
                }
            } else {
                proof {
                    assert(search(d_map, s_suf, prev_lit) =~= Seq::<Seq<SpecToken>>::empty());
                    assert(line_views(out@) =~= line_views(old(out)@) + output_lines(
                        num@,
                        prepend_each(p_toks, search(d_map, s_suf, prev_lit)),
                    ));
                }
            }
        }
    }
}

/// Emits one output line per decomposition of the number's digits, in
/// emission order: the number string as read, a colon, then each token
/// preceded by one space.
pub fn write_translations(out: &mut Vec<String>, dict: &Dictionary, num: &str, digits: &Vec<u8>)
    requires
        dict.wf(),
        forall|i: int| 0 <= i < digits@.len() ==> digits@[i] < 10,
    ensures
        line_views(final(out)@) == line_views(old(out)@) + output_lines(
            num@,
            search(dict@, digits@, false),
        ),
{
    let mut tokens: Vec<Token> = Vec::new();
    translate_rec(out, dict, num, digits, 0, &mut tokens, false);
    proof {
        assert(digits@.skip(0) =~= digits@);
        assert(token_views(tokens@) =~= Seq::<SpecToken>::empty());
        let rs = search(dict@, digits@, false);
        assert forall|i: int| 0 <= i < rs.len() implies Seq::<SpecToken>::empty() + rs[i]
            == rs[i] by {
            assert(Seq::<SpecToken>::empty() + rs[i] =~= rs[i]);
        }
        assert(prepend_each(Seq::<SpecToken>::empty(), rs) =~= rs);
    }
}

/// The digits a token covers: a word's digit key, or the literal digit.
pub open spec fn token_key(t: SpecToken) -> Seq<u8> {
    match t {
        SpecToken::Word(w) => key_of(w),
        SpecToken::Digit(d) => seq![d],
    }
}

/// The digits a decomposition covers: its tokens' keys, concatenated in
/// order.
pub open spec fn keys_of(ts: Seq<SpecToken>) -> Seq<u8>
    decreases ts.len(),
{
    if ts.len() == 0 {
        Seq::empty()
    } else {
        token_key(ts[0]) + keys_of(ts.skip(1))
    }
}

proof fn lemma_keys_of_prepend(t: SpecToken, r: Seq<SpecToken>)
    ensures
        keys_of(seq![t] + r) == token_key(t) + keys_of(r),
{
    let s = seq![t] + r;
    assert(s[0] == t);
    assert(s.skip(1) =~= r);
}

/// Every emitted decomposition covers the searched digits exactly: its
/// tokens' digit keys and literal digits, concatenated in order, are the
/// digit sequence itself.
pub proof fn lemma_search_covers(dict: Dict, digits: Seq<u8>, prev_lit: bool, i: int)
    requires
        dict_wf(dict),
        0 <= i < search(dict, digits, prev_lit).len(),
    ensures
        keys_of(search(dict, digits, prev_lit)[i]) == digits,
    decreases digits.len(), 3int, 0int,
{
    if digits.len() == 0 {
        assert(search(dict, digits, prev_lit)[i] == Seq::<SpecToken>::empty());
        assert(keys_of(search(dict, digits, prev_lit)[i]) =~= digits);
    } else if has_word_match(dict, digits) {
        lemma_word_results_covers(dict, digits, 1, i);
    } else if !prev_lit {
        let rs = search(dict, digits.skip(1), true);
        assert(search(dict, digits, prev_lit)[i] == seq![SpecToken::Digit(digits[0])] + rs[i]);
        lemma_search_covers(dict, digits.skip(1), true, i);
        lemma_keys_of_prepend(SpecToken::Digit(digits[0]), rs[i]);
        assert(seq![digits[0]] + digits.skip(1) =~= digits);
    }
}

proof fn lemma_word_results_covers(dict: Dict, digits: Seq<u8>, l: int, i: int)
    requires
        dict_wf(dict),
        1 <= l,
        0 <= i < word_results_from(dict, digits, l).len(),
    ensures
        keys_of(word_results_from(dict, digits, l)[i]) == digits,
    decreases digits.len(), 2int, digits.len() - l + 1,
{
    assert(l <= digits.len());
    let b = bucket_results(dict, digits, l, 0);
    if i < b.len() {
        lemma_bucket_results_covers(dict, digits, l, 0, i);
        assert(word_results_from(dict, digits, l)[i] == b[i]);
    } else {
        lemma_word_results_covers(dict, digits, l + 1, i - b.len());
    }
}

proof fn lemma_bucket_results_covers(dict: Dict, digits: Seq<u8>, l: int, j: int, i: int)
    requires
        dict_wf(dict),
        1 <= l <= digits.len(),
        0 <= j,
        0 <= i < bucket_results(dict, digits, l, j).len(),
    ensures
        keys_of(bucket_results(dict, digits, l, j)[i]) == digits,
    decreases digits.len(), 1int, bucket_at(dict, digits, l).len() - j,
{
    assert(j < bucket_at(dict, digits, l).len());
    let w = bucket_at(dict, digits, l)[j];
    let rs = search(dict, digits.skip(l), false);
    let head = prepend_to_all(SpecToken::Word(w), rs);
    if i < head.len() {
        assert(bucket_results(dict, digits, l, j)[i] == seq![SpecToken::Word(w)] + rs[i]);
        lemma_search_covers(dict, digits.skip(l), false, i);
        lemma_keys_of_prepend(SpecToken::Word(w), rs[i]);
        assert(dict.contains_key(digits.take(l)));
        assert(key_of(w) == digits.take(l));
        assert(digits.take(l) + digits.skip(l) =~= digits);
    } else {
        lemma_bucket_results_covers(dict, digits, l, j + 1, i - head.len());
    }
}

/// Whether a token is a literal digit.
pub open spec fn is_literal(t: SpecToken) -> bool {
    t is Digit
}

/// No two adjacent tokens of the decomposition are both literal digits.
pub open spec fn no_adjacent_literals(r: Seq<SpecToken>) -> bool {
    forall|i: int|
        0 <= i < r.len() - 1 ==> !(is_literal(#[trigger] r[i]) && is_literal(r[i + 1]))
}

proof fn lemma_no_adjacent_prepend(t: SpecToken, r: Seq<SpecToken>)
    requires
        no_adjacent_literals(r),
        !(is_literal(t) && r.len() > 0 && is_literal(r[0])),
    ensures
        no_adjacent_literals(seq![t] + r),
{
    let s = seq![t] + r;
    assert forall|i: int| 0 <= i < s.len() - 1 implies !(is_literal(#[trigger] s[i])
        && is_literal(s[i + 1])) by {
        if i > 0 {
            assert(s[i] == r[i - 1]);
            assert(s[i + 1] == r[i]);
            assert(!(is_literal(r[i - 1]) && is_literal(r[i])));
        }
    }
}

/// No emitted decomposition holds two adjacent literal digits; and where the
/// token before the searched digits was itself a literal, no emitted
/// decomposition opens with one.
pub proof fn lemma_search_no_adjacent_literals(dict: Dict, digits: Seq<u8>, prev_lit: bool, i: int)
    requires
        0 <= i < search(dict, digits, prev_lit).len(),
    ensures
        no_adjacent_literals(search(dict, digits, prev_lit)[i]),
        prev_lit && search(dict, digits, prev_lit)[i].len() > 0 ==> !is_literal(
            search(dict, digits, prev_lit)[i][0],
        ),
    decreases digits.len(), 3int, 0int,
{
    if digits.len() == 0 {
        assert(search(dict, digits, prev_lit)[i] == Seq::<SpecToken>::empty());
    } else if has_word_match(dict, digits) {
        lemma_word_results_shape(dict, digits, 1, i);
    } else if !prev_lit {
        let rs = search(dict, digits.skip(1), true);
        assert(search(dict, digits, prev_lit)[i] == seq![SpecToken::Digit(digits[0])] + rs[i]);
        lemma_search_no_adjacent_literals(dict, digits.skip(1), true, i);
        lemma_no_adjacent_prepend(SpecToken::Digit(digits[0]), rs[i]);
        assert((seq![SpecToken::Digit(digits[0])] + rs[i])[0] == SpecToken::Digit(digits[0]));
    }
}

/// Where some prefix of the digits matches a dictionary word, every emitted
/// decomposition opens with a word, never with a literal digit.
pub proof fn lemma_word_match_no_literal(dict: Dict, digits: Seq<u8>, prev_lit: bool, i: int)
    requires
        has_word_match(dict, digits),
        0 <= i < search(dict, digits, prev_lit).len(),
    ensures
        search(dict, digits, prev_lit)[i].len() > 0,
        search(dict, digits, prev_lit)[i][0] is Word,
{
    assert(digits.len() > 0);
    lemma_word_results_shape(dict, digits, 1, i);
}

proof fn lemma_word_results_shape(dict: Dict, digits: Seq<u8>, l: int, i: int)
    requires
        1 <= l,
        0 <= i < word_results_from(dict, digits, l).len(),
    ensures
        word_results_from(dict, digits, l)[i].len() > 0,
        word_results_from(dict, digits, l)[i][0] is Word,
        no_adjacent_literals(word_results_from(dict, digits, l)[i]),
    decreases digits.len(), 2int, digits.len() - l + 1,
{
    assert(l <= digits.len());
    let b = bucket_results(dict, digits, l, 0);
    if i < b.len() {
        lemma_bucket_results_shape(dict, digits, l, 0, i);
        assert(word_results_from(dict, digits, l)[i] == b[i]);
    } else {
        lemma_word_results_shape(dict, digits, l + 1, i - b.len());
    }
}

proof fn lemma_bucket_results_shape(dict: Dict, digits: Seq<u8>, l: int, j: int, i: int)
    requires
        1 <= l <= digits.len(),
        0 <= j,
        0 <= i < bucket_results(dict, digits, l, j).len(),
    ensures
        bucket_results(dict, digits, l, j)[i].len() > 0,
        bucket_results(dict, digits, l, j)[i][0] is Word,
        no_adjacent_literals(bucket_results(dict, digits, l, j)[i]),
    decreases digits.len(), 1int, bucket_at(dict, digits, l).len() - j,
{
    assert(j < bucket_at(dict, digits, l).len());
    let w = bucket_at(dict, digits, l)[j];
    let rs = search(dict, digits.skip(l), false);
    let head = prepend_to_all(SpecToken::Word(w), rs);
    if i < head.len() {
        assert(bucket_results(dict, digits, l, j)[i] == seq![SpecToken::Word(w)] + rs[i]);
        lemma_search_no_adjacent_literals(dict, digits.skip(l), false, i);
        lemma_no_adjacent_prepend(SpecToken::Word(w), rs[i]);
        assert((seq![SpecToken::Word(w)] + rs[i])[0] == SpecToken::Word(w));
    } else {
        lemma_bucket_results_shape(dict, digits, l, j + 1, i - head.len());
    }
}

/// The engine is deterministic: one dictionary, one number string and one
/// digit sequence admit exactly one output, so two runs agree line for line.
pub proof fn lemma_output_deterministic(
    dict: Dict,
    num: Seq<char>,
    digits: Seq<u8>,
    first: Seq<Seq<char>>,
    second: Seq<Seq<char>>,
)
    requires
        first == output_lines(num, search(dict, digits, false)),
        second == output_lines(num, search(dict, digits, false)),
    ensures
        first == second,
{
}

} // verus!
