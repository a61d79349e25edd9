use truth_table::token::{is_variable_char, token_of_char, tokenize, Token};
use truth_table::variables::{
    add_if_not_exists, ambiguous_variables, collect_variables, is_keyword_char, variables,
};
use truth_table::normalize::normalize;

#[test]
fn tokenize_reads_operators_and_parentheses() {
    assert_eq!(
        tokenize("x&&y||(!z)"),
        vec![
            Token::Variable('x'),
            Token::And,
            Token::Variable('y'),
            Token::Or,
            Token::Open,
            Token::Not,
            Token::Variable('z'),
            Token::Close,
        ]
    );
}

#[test]
fn tokenize_reads_literals() {
    assert_eq!(
        tokenize("0 1"),
        vec![Token::Literal(false), Token::Unknown(' '), Token::Literal(true)]
    );
    assert_eq!(tokenize("true"), vec![Token::Literal(true)]);
    assert_eq!(tokenize("false"), vec![Token::Literal(false)]);
    assert_eq!(tokenize("true||false"), vec![Token::Literal(true), Token::Or, Token::Literal(false)]);
}

#[test]
fn tokenize_takes_a_literal_word_before_its_letters() {
    assert_eq!(
        tokenize("truex"),
        vec![Token::Literal(true), Token::Variable('x')]
    );
    assert_eq!(
        tokenize("tru"),
        vec![Token::Variable('t'), Token::Variable('r'), Token::Variable('u')]
    );
}

#[test]
fn tokenize_marks_what_it_does_not_know() {
    assert_eq!(tokenize("&"), vec![Token::Unknown('&')]);
    assert_eq!(tokenize("x|y"), vec![Token::Variable('x'), Token::Unknown('|'), Token::Variable('y')]);
    assert_eq!(tokenize("A2"), vec![Token::Unknown('A'), Token::Unknown('2')]);
    assert_eq!(tokenize("é"), vec![Token::Unknown('é')]);
}

#[test]
fn tokenize_of_nothing_is_nothing() {
    assert_eq!(tokenize(""), Vec::<Token>::new());
}

#[test]
fn token_of_char_knows_each_single_character() {
    assert_eq!(token_of_char('!'), Token::Not);
    assert_eq!(token_of_char('('), Token::Open);
    assert_eq!(token_of_char(')'), Token::Close);
    assert_eq!(token_of_char('0'), Token::Literal(false));
    assert_eq!(token_of_char('1'), Token::Literal(true));
    assert_eq!(token_of_char('a'), Token::Variable('a'));
    assert_eq!(token_of_char('z'), Token::Variable('z'));
    assert_eq!(token_of_char('`'), Token::Unknown('`'));
    assert_eq!(token_of_char('{'), Token::Unknown('{'));
}

#[test]
fn is_variable_char_takes_the_lower_case_letters() {
    let mut count = 0;
    let mut code: u32 = 0;
    while code < 0x250 {
        if let Some(c) = char::from_u32(code) {
            assert_eq!(is_variable_char(c), c.is_ascii_lowercase());
            if is_variable_char(c) {
                count += 1;
            }
        }
        code += 1;
    }
    assert_eq!(count, 26);
}

#[test]
fn variables_in_order_of_first_appearance() {
    assert_eq!(variables(&normalize("xANDyOR(zANDx)")), vec!['x', 'y', 'z']);
    assert_eq!(variables("xANDyOR(zANDx)"), vec!['x', 'y', 'z']);
    assert_eq!(variables("x&&y||(z&&x)"), vec!['x', 'y', 'z']);
}

#[test]
fn variables_each_exactly_once() {
    assert_eq!(variables("b&&a&&b&&a&&c&&b"), vec!['b', 'a', 'c']);
}

#[test]
fn variables_leave_out_the_letters_of_literals() {
    assert_eq!(variables("true&&x||false"), vec!['x']);
    assert_eq!(variables("0||1"), Vec::<char>::new());
}

#[test]
fn variables_of_nothing() {
    assert_eq!(variables(""), Vec::<char>::new());
}

#[test]
fn variables_can_be_all_the_letters() {
    let all = "a&&b&&c&&d&&e&&f&&g&&h&&i&&j&&k&&l&&m&&n&&o&&p&&q&&r&&s&&t&&u&&v&&w&&x&&y&&z&&a";
    let names = variables(all);
    assert_eq!(names.len(), 26);
    assert_eq!(names[0], 'a');
    assert_eq!(names[25], 'z');
}

#[test]
fn collect_variables_agrees_with_variables() {
    let text = "q||(p&&!q)||r";
    assert_eq!(collect_variables(&tokenize(text)), variables(text));
    assert_eq!(collect_variables(&tokenize(text)), vec!['q', 'p', 'r']);
}

#[test]
fn add_if_not_exists_adds_only_what_is_new() {
    let mut names = vec!['x'];
    add_if_not_exists(&mut names, 'y');
    assert_eq!(names, vec!['x', 'y']);
    add_if_not_exists(&mut names, 'x');
    assert_eq!(names, vec!['x', 'y']);
    add_if_not_exists(&mut names, 'y');
    assert_eq!(names, vec!['x', 'y']);
}

#[test]
fn ambiguous_variables_are_the_letters_of_operator_words() {
    assert_eq!(ambiguous_variables(&vec!['x', 'a', 'y', 't', 'b']), vec!['a', 't']);
    assert_eq!(ambiguous_variables(&variables(&normalize("A and B"))), vec!['a']);
    assert_eq!(ambiguous_variables(&variables(&normalize("xANDyOR(zANDx)"))), Vec::<char>::new());
    assert_eq!(ambiguous_variables(&Vec::new()), Vec::<char>::new());
}

#[test]
fn is_keyword_char_knows_the_letters_of_the_six_words() {
    let words = ["and", "or", "not", "et", "ou", "non"];
    for c in 'a'..='z' {
        let in_a_word = words.iter().any(|w| w.contains(c));
        assert_eq!(is_keyword_char(c), in_a_word, "at {}", c);
    }
    assert!(!is_keyword_char('A'));
    assert!(!is_keyword_char('&'));
}
