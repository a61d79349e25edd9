//! The variables of a formula: each letter once, in the order in which the
//! letters first appear.

use vstd::prelude::*;
use vstd::set_lib::{lemma_int_range, lemma_len_subset, set_int_range};
use crate::eval::position;
use crate::normalize::operator_words;
use crate::text::chars_of;
use crate::token::{first_token, is_variable_name, next_token, tokens_from, tokens_of, Token};

verus! {

/// The most variables that a formula can have: one for each letter.
pub const MAX_VARIABLES: usize = 26;

/// `names`, with `c` added at the end unless it is there already.
pub open spec fn added_if_new(names: Seq<char>, c: char) -> Seq<char> {
    if names.contains(c) {
        names
    } else {
        names.push(c)
    }
}

/// The variables among `tokens`: each once, ordered by first appearance.
pub open spec fn distinct_variables(tokens: Seq<Token>) -> Seq<char>
    decreases tokens.len(),
{
    if tokens.len() == 0 {
        Seq::empty()
    } else {
        let earlier = distinct_variables(tokens.drop_last());
        match tokens.last() {
            Token::Variable(c) => added_if_new(earlier, c),
            _ => earlier,
        }
    }
}

/// The variables of the canonical formula `s`.
pub open spec fn variables_of(s: Seq<char>) -> Seq<char> {
    distinct_variables(tokens_of(s))
}

/// Whether `names` is a list of variables: letters from `a` to `z`, none twice.
pub open spec fn is_variable_list(names: Seq<char>) -> bool {
    &&& names.no_duplicates()
    &&& forall|i: int| 0 <= i < names.len() ==> is_variable_name(#[trigger] names[i])
}

/// Whether every variable among `tokens` is a letter from `a` to `z`.
pub open spec fn variables_are_letters(tokens: Seq<Token>) -> bool {
    forall|i: int|
        0 <= i < tokens.len() ==> (#[trigger] tokens[i] matches Token::Variable(c)
            ==> is_variable_name(c))
}

/// Whether `c` is a letter of one of the operator words `and`, `or`, `not`,
/// `et`, `ou`, `non`. Such a letter is a variable like any other, but next to
/// other letters it can be read as part of the word.
pub open spec fn is_keyword_letter(c: char) -> bool {
    c == 'a' || c == 'n' || c == 'd' || c == 'o' || c == 'r' || c == 't' || c == 'e' || c == 'u'
}

/// The entries of `names` that are letters of an operator word, in order.
pub open spec fn keyword_letters_among(names: Seq<char>) -> Seq<char> {
    names.filter(|c: char| is_keyword_letter(c))
}

/// Adds `c` at the end of `names` unless it is there already.
pub fn add_if_not_exists(names: &mut Vec<char>, c: char)
    ensures
        final(names)@ == added_if_new(old(names)@, c),
{
    if position(names, c).is_none() {
        names.push(c);
    }
}

/// Collects the variables among `tokens`: each once, ordered by first
/// appearance.
pub fn collect_variables(tokens: &Vec<Token>) -> (names: Vec<char>)
    ensures
        names@ == distinct_variables(tokens@),
{
    let mut names: Vec<char> = Vec::new();
    let mut i: usize = 0;
    while i < tokens.len()
        invariant
            i <= tokens.len(),
            names@ == distinct_variables(tokens@.take(i as int)),
        decreases tokens.len() - i,
    {
        proof {
            assert(tokens@.take(i + 1).drop_last() == tokens@.take(i as int));
        }
        match tokens[i] {
            Token::Variable(c) => {
                add_if_not_exists(&mut names, c);
            },
            _ => {},
        }
        i += 1;
    }
    proof {
        assert(tokens@.take(i as int) == tokens@);
    }
    names
}

/// Finds the variables of a canonical formula in one pass from the left.
pub fn variables(normalized: &str) -> (names: Vec<char>)
    ensures
        names@ == variables_of(normalized@),
        is_variable_list(names@),
        names@.len() <= MAX_VARIABLES,
{
    let chars = chars_of(normalized);
    let mut names: Vec<char> = Vec::new();
    let mut at: usize = 0;
    let ghost mut seen: Seq<Token> = Seq::empty();
    proof {
        assert(seen + tokens_from(chars@, 0) == tokens_of(chars@));
    }
    while at < chars.len()
        invariant
            at <= chars.len(),
            tokens_of(chars@) == seen + tokens_from(chars@, at as int),
            names@ == distinct_variables(seen),
        decreases chars.len() - at,
    {
        let (token, next) = next_token(&chars, at);
        proof {
            assert(seen + (seq![token] + tokens_from(chars@, next as int)) == seen.push(token)
                + tokens_from(chars@, next as int));
            assert(seen.push(token).drop_last() == seen);
            seen = seen.push(token);
        }
        match token {
            Token::Variable(c) => {
                add_if_not_exists(&mut names, c);
            },
            _ => {},
        }
        at = next;
    }
    proof {
        assert(seen + tokens_from(chars@, at as int) == seen);
        lemma_variables_of_is_variable_list(chars@);
        lemma_at_most_one_per_letter(names@);
    }
    names
}

/// Tells whether `c` is a letter of one of the operator words.
pub fn is_keyword_char(c: char) -> (b: bool)
    ensures
        b == is_keyword_letter(c),
{
    c == 'a' || c == 'n' || c == 'd' || c == 'o' || c == 'r' || c == 't' || c == 'e' || c == 'u'
}

/// Lists the variables that are letters of an operator word: the ones that
/// the normalizer can take for part of the word when they stand next to
/// other letters.
pub fn ambiguous_variables(names: &Vec<char>) -> (found: Vec<char>)
    ensures
        found@ == keyword_letters_among(names@),
{
    let ghost keep = |c: char| is_keyword_letter(c);
    let mut found: Vec<char> = Vec::new();
    let mut i: usize = 0;
    while i < names.len()
        invariant
            i <= names.len(),
            keep == (|c: char| is_keyword_letter(c)),
            found@ == names@.take(i as int).filter(keep),
        decreases names.len() - i,
    {
        proof {
            reveal(Seq::filter);
            assert(names@.take(i + 1).drop_last() == names@.take(i as int));
        }
        if is_keyword_char(names[i]) {
            found.push(names[i]);
        }
        i += 1;
    }
    proof {
        assert(names@.take(i as int) == names@);
    }
    found
}

/// The letters of the operator words are exactly the keyword letters.
pub proof fn lemma_keyword_letters(c: char)
    ensures
        is_keyword_letter(c) <==> exists|i: int|
            0 <= i < operator_words().len() && (#[trigger] operator_words()[i]).contains(c),
{
    let words = operator_words();
    if is_keyword_letter(c) {
        if c == 'a' || c == 'd' {
            assert(words[0][0] == 'a' && words[0][2] == 'd');
            assert(words[0].contains(c));
        } else if c == 'n' || c == 't' {
            assert(words[2][0] == 'n' && words[2][2] == 't');
            assert(words[2].contains(c));
        } else if c == 'o' || c == 'r' {
            assert(words[1][0] == 'o' && words[1][1] == 'r');
            assert(words[1].contains(c));
        } else if c == 'e' {
            assert(words[3][0] == 'e');
            assert(words[3].contains(c));
        } else {
            assert(words[4][1] == 'u');
            assert(words[4].contains(c));
        }
    }
    if exists|i: int| 0 <= i < words.len() && (#[trigger] words[i]).contains(c) {
        let i = choose|i: int| 0 <= i < words.len() && (#[trigger] words[i]).contains(c);
        let j = choose|j: int| 0 <= j < words[i].len() && words[i][j] == c;
        assert(is_keyword_letter(words[i][j]));
    }
}

/// No variable stands twice among the variables of `tokens`.
pub proof fn lemma_variables_distinct(tokens: Seq<Token>)
    ensures
        distinct_variables(tokens).no_duplicates(),
    decreases tokens.len(),
{
    if tokens.len() > 0 {
        lemma_variables_distinct(tokens.drop_last());
    }
}

/// A letter is among the variables of `tokens` exactly if it occurs in
/// `tokens` as a variable.
pub proof fn lemma_variables_membership(tokens: Seq<Token>, c: char)
    ensures
        distinct_variables(tokens).contains(c) <==> tokens.contains(Token::Variable(c)),
    decreases tokens.len(),
{
    if tokens.len() > 0 {
        let earlier = tokens.drop_last();
        lemma_variables_membership(earlier, c);
        let names = distinct_variables(earlier);
        if tokens.contains(Token::Variable(c)) {
            let i = choose|i: int| 0 <= i < tokens.len() && tokens[i] == Token::Variable(c);
            if i < tokens.len() - 1 {
                assert(earlier[i] == Token::Variable(c));
            }
        }
        if earlier.contains(Token::Variable(c)) {
            let i = choose|i: int| 0 <= i < earlier.len() && earlier[i] == Token::Variable(c);
            assert(tokens[i] == Token::Variable(c));
        }
        match tokens.last() {
            Token::Variable(d) => {
                assert(tokens[tokens.len() - 1] == Token::Variable(d));
                if !names.contains(d) {
                    assert(names.push(d)[names.len() as int] == d);
                    if names.contains(c) {
                        let i = choose|i: int| 0 <= i < names.len() && names[i] == c;
                        assert(names.push(d)[i] == c);
                    }
                }
            },
            _ => {},
        }
    }
}

/// The variables keep the order in which they first appear: the variables of
/// a prefix of `tokens` are a prefix of the variables of `tokens`.
pub proof fn lemma_variables_keep_order(tokens: Seq<Token>, n: int)
    requires
        0 <= n <= tokens.len(),
    ensures
        distinct_variables(tokens.take(n)).is_prefix_of(distinct_variables(tokens)),
    decreases tokens.len(),
{
    if n == tokens.len() {
        assert(tokens.take(n) == tokens);
    } else {
        let earlier = tokens.drop_last();
        lemma_variables_keep_order(earlier, n);
        assert(earlier.take(n) == tokens.take(n));
    }
}

/// Of two variables the one that is listed first appears first: where the
/// later one first appears among `tokens`, the earlier one has appeared.
pub proof fn lemma_variables_by_first_appearance(tokens: Seq<Token>, i: int, j: int)
    requires
        0 <= i < j < distinct_variables(tokens).len(),
    ensures
        exists|a: int, b: int|
            {
                &&& 0 <= a < b < tokens.len()
                &&& tokens[a] == Token::Variable(distinct_variables(tokens)[i])
                &&& tokens[b] == Token::Variable(distinct_variables(tokens)[j])
                &&& !tokens.take(b).contains(Token::Variable(distinct_variables(tokens)[j]))
            },
    decreases tokens.len(),
{
    let names = distinct_variables(tokens);
    let earlier = tokens.drop_last();
    let listed = distinct_variables(earlier);
    if j < listed.len() {
        lemma_variables_by_first_appearance(earlier, i, j);
        let (a, b) = choose|a: int, b: int|
            {
                &&& 0 <= a < b < earlier.len()
                &&& earlier[a] == Token::Variable(listed[i])
                &&& earlier[b] == Token::Variable(listed[j])
                &&& !earlier.take(b).contains(Token::Variable(listed[j]))
            };
        assert(tokens.take(b) == earlier.take(b));
        assert(tokens[a] == earlier[a] && tokens[b] == earlier[b]);
    } else {
        let b = tokens.len() - 1;
        assert(tokens.take(b) == earlier);
        assert(listed.contains(names[i])) by {
            assert(listed[i] == names[i]);
        }
        lemma_variables_membership(earlier, names[i]);
        lemma_variables_membership(earlier, names[j]);
        let a = choose|a: int| 0 <= a < earlier.len() && earlier[a] == Token::Variable(names[i]);
        assert(tokens[a] == earlier[a]);
        assert(tokens[b] == Token::Variable(names[j]));
    }
}

/// The tokens of a text hold only letters from `a` to `z` as variables.
pub proof fn lemma_tokens_variables_are_letters(s: Seq<char>, at: int)
    ensures
        variables_are_letters(tokens_from(s, at)),
    decreases s.len() - at,
{
    if 0 <= at < s.len() {
        let (token, next) = first_token(s, at);
        lemma_tokens_variables_are_letters(s, next);
        let rest = tokens_from(s, next);
        let all = tokens_from(s, at);
        assert forall|i: int| 0 <= i < all.len() implies (#[trigger] all[i] matches Token::Variable(
            c,
        ) ==> is_variable_name(c)) by {
            if i > 0 {
                assert(all[i] == rest[i - 1]);
            }
        }
    }
}

/// The variables of letter tokens are letters.
pub proof fn lemma_variables_are_letters(tokens: Seq<Token>)
    requires
        variables_are_letters(tokens),
    ensures
        is_variable_list(distinct_variables(tokens)),
    decreases tokens.len(),
{
    lemma_variables_distinct(tokens);
    if tokens.len() > 0 {
        let earlier = tokens.drop_last();
        assert forall|i: int| 0 <= i < earlier.len() implies (#[trigger] earlier[i] matches Token::Variable(
            c,
        ) ==> is_variable_name(c)) by {
            assert(earlier[i] == tokens[i]);
        }
        lemma_variables_are_letters(earlier);
        assert(tokens.last() == tokens[tokens.len() - 1]);
    }
}

/// The variables of a canonical formula are letters from `a` to `z`, none
/// twice.
pub proof fn lemma_variables_of_is_variable_list(s: Seq<char>)
    ensures
        is_variable_list(variables_of(s)),
{
    lemma_tokens_variables_are_letters(s, 0);
    lemma_variables_are_letters(tokens_of(s));
}

/// A list of variables has at most one entry for each of the 26 letters.
pub proof fn lemma_at_most_one_per_letter(names: Seq<char>)
    requires
        is_variable_list(names),
    ensures
        names.len() <= MAX_VARIABLES,
{
    let codes = names.map_values(|c: char| c as int);
    assert forall|i: int, j: int| 0 <= i < codes.len() && 0 <= j < codes.len() && i != j implies codes[i]
        != codes[j] by {
        assert(names[i] != names[j]);
    }
    codes.unique_seq_to_set();
    lemma_int_range(97, 123);
    assert forall|code: int| codes.to_set().contains(code) implies set_int_range(97, 123).contains(
        code,
    ) by {
        let i = choose|i: int| 0 <= i < codes.len() && codes[i] == code;
        assert(is_variable_name(names[i]));
    }
    lemma_len_subset(codes.to_set(), set_int_range(97, 123));
}

} // verus!
