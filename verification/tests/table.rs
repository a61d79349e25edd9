use truth_table::enumerate::enumerate_assignments;
use truth_table::eval::EvaluationError;
use truth_table::expr::Expr;
use truth_table::layout::{grid_cells, render_bit, Cell};
use truth_table::parser::ParseError;
use truth_table::table::{
    build_table, evaluate_all, is_list_of_variables, parse, parse_normalized,
    table_of_normalized, truth_table, Row, TruthTable,
};

fn row(assignment: &[bool], result: bool) -> Row {
    Row { assignment: assignment.to_vec(), result }
}

#[test]
fn two_variables_have_four_assignments_in_order() {
    assert_eq!(
        enumerate_assignments(2),
        vec![
            vec![true, true],
            vec![true, false],
            vec![false, true],
            vec![false, false],
        ]
    );
}

#[test]
fn one_variable_has_two_assignments() {
    assert_eq!(enumerate_assignments(1), vec![vec![true], vec![false]]);
}

#[test]
fn no_variable_has_one_empty_assignment() {
    assert_eq!(enumerate_assignments(0), vec![Vec::<bool>::new()]);
}

#[test]
fn three_variables_have_eight_assignments_in_order() {
    let t = true;
    let f = false;
    assert_eq!(
        enumerate_assignments(3),
        vec![
            vec![t, t, t],
            vec![t, t, f],
            vec![t, f, t],
            vec![t, f, f],
            vec![f, t, t],
            vec![f, t, f],
            vec![f, f, t],
            vec![f, f, f],
        ]
    );
}

#[test]
fn assignments_are_counted_by_the_power_of_two() {
    for n in 0..=10usize {
        let all = enumerate_assignments(n);
        assert_eq!(all.len(), 1usize << n);
        for (k, assignment) in all.iter().enumerate() {
            assert_eq!(assignment.len(), n);
            for i in 0..n {
                assert_eq!(assignment[i], (k >> (n - 1 - i)) & 1 == 0);
            }
        }
    }
}

#[test]
fn assignments_do_not_repeat() {
    let all = enumerate_assignments(6);
    for i in 0..all.len() {
        for j in 0..i {
            assert_ne!(all[i], all[j]);
        }
    }
}

#[test]
fn no_variables_give_one_row() {
    let table = truth_table("1 or 0").unwrap();
    assert_eq!(table.variables, Vec::<char>::new());
    assert_eq!(table.rows, vec![row(&[], true)]);
    let table = truth_table("true and false").unwrap();
    assert_eq!(table.rows, vec![row(&[], false)]);
}

#[test]
fn n_variables_give_two_to_the_n_rows() {
    let formulas = [
        ("1", 0),
        ("x", 1),
        ("x and x", 1),
        ("x or y", 2),
        ("xANDyOR(zANDx)", 3),
        ("p and q and s and v", 4),
        ("b or c or f or g or h or i or j or k", 8),
    ];
    for (text, n) in formulas {
        let table = truth_table(text).unwrap();
        assert_eq!(table.variables.len(), n);
        assert_eq!(table.rows.len(), 1usize << n);
        for r in &table.rows {
            assert_eq!(r.assignment.len(), n);
        }
    }
}

#[test]
fn the_same_formula_gives_the_same_table() {
    let first = truth_table("xANDyOR(zANDx)");
    let second = truth_table("xANDyOR(zANDx)");
    assert_eq!(first, second);
    assert!(first.is_ok());
    assert_eq!(parse("x or not y"), parse("x or not y"));
}

#[test]
fn malformed_input_is_an_error() {
    assert_eq!(truth_table("x AND (y"), Err(ParseError::UnbalancedParentheses));
    assert_eq!(parse("x AND (y"), Err(ParseError::UnbalancedParentheses));
}

#[test]
fn each_parse_error_reaches_the_caller() {
    assert_eq!(truth_table(""), Err(ParseError::EmptyExpression));
    assert_eq!(truth_table("   "), Err(ParseError::EmptyExpression));
    assert_eq!(truth_table("x y"), Err(ParseError::UnexpectedToken));
    assert_eq!(truth_table("x AND"), Err(ParseError::UnexpectedToken));
    assert_eq!(truth_table("x)"), Err(ParseError::UnbalancedParentheses));
    let long = "x&&".repeat(600) + "x";
    assert_eq!(truth_table(&long), Err(ParseError::TooLong));
}

#[test]
fn end_to_end() {
    let table = truth_table("xANDyOR(zANDx)").unwrap();
    assert_eq!(table.variables, vec!['x', 'y', 'z']);
    assert_eq!(table.rows.len(), 8);
    let t = true;
    let f = false;
    assert_eq!(
        table.rows,
        vec![
            row(&[f, f, f], f),
            row(&[f, f, t], f),
            row(&[f, t, f], f),
            row(&[f, t, t], f),
            row(&[t, f, f], f),
            row(&[t, f, t], t),
            row(&[t, t, f], t),
            row(&[t, t, t], t),
        ]
    );
    assert_eq!(table.rows[0], row(&[f, f, f], f));
    assert_eq!(table.rows[7], row(&[t, t, t], t));
}

#[test]
fn parse_gives_the_rows_in_the_order_of_the_assignments() {
    let (variables, rows) = parse("x AND NOT y").unwrap();
    assert_eq!(variables, vec!['x', 'y']);
    assert_eq!(
        rows,
        vec![
            row(&[true, true], false),
            row(&[true, false], true),
            row(&[false, true], false),
            row(&[false, false], false),
        ]
    );
}

#[test]
fn parse_normalized_takes_canonical_text() {
    let (variables, rows) = parse_normalized("!p||q").unwrap();
    assert_eq!(variables, vec!['p', 'q']);
    assert_eq!(
        rows,
        vec![
            row(&[true, true], true),
            row(&[true, false], false),
            row(&[false, true], true),
            row(&[false, false], true),
        ]
    );
    assert_eq!(parse_normalized("P"), Err(ParseError::UnexpectedToken));
}

#[test]
fn table_of_normalized_turns_the_rows_round() {
    let table = table_of_normalized("p").unwrap();
    assert_eq!(table.rows, vec![row(&[false], false), row(&[true], true)]);
}

#[test]
fn french_and_english_give_the_same_table() {
    assert_eq!(truth_table("x et y ou non z"), truth_table("x and y or not z"));
    assert_eq!(truth_table("x et y ou non z"), truth_table("x && y || !z"));
}

#[test]
fn letters_of_a_keyword_still_work_as_variables() {
    let table = truth_table("A and B").unwrap();
    assert_eq!(table.variables, vec!['a', 'b']);
    assert_eq!(
        table.rows,
        vec![
            row(&[false, false], false),
            row(&[false, true], false),
            row(&[true, false], false),
            row(&[true, true], true),
        ]
    );
}

#[test]
fn build_table_reverses_the_rows() {
    let rows = vec![row(&[true], false), row(&[false], true)];
    let table = build_table(vec!['x'], rows);
    assert_eq!(
        table,
        TruthTable { variables: vec!['x'], rows: vec![row(&[false], true), row(&[true], false)] }
    );
    let empty = build_table(Vec::new(), Vec::new());
    assert_eq!(empty.rows, Vec::<Row>::new());
}

#[test]
fn evaluate_all_keeps_the_order() {
    let tree = Expr::Or(Box::new(Expr::Variable('x')), Box::new(Expr::Variable('y')));
    let all = vec![vec![false, false], vec![true, false], vec![false, true]];
    assert_eq!(
        evaluate_all(&tree, &vec!['x', 'y'], &all),
        Ok(vec![
            row(&[false, false], false),
            row(&[true, false], true),
            row(&[false, true], true),
        ])
    );
}

#[test]
fn evaluate_all_fails_on_an_unknown_variable() {
    let tree = Expr::Variable('q');
    let all = vec![vec![false], vec![true]];
    assert_eq!(
        evaluate_all(&tree, &vec!['x'], &all),
        Err(EvaluationError::UnknownVariable('q'))
    );
    assert_eq!(evaluate_all(&tree, &vec!['x'], &Vec::new()), Ok(Vec::new()));
}

#[test]
fn render_bit_is_one_or_zero() {
    assert_eq!(render_bit(true), "1");
    assert_eq!(render_bit(false), "0");
}

fn cell(text: &str, column: i32, row: i32) -> Cell {
    Cell { text: text.to_string(), column, row }
}

#[test]
fn grid_cells_of_a_table() {
    let table = truth_table("x and y").unwrap();
    assert_eq!(
        grid_cells(&table),
        vec![
            cell("x", 0, 0),
            cell("y", 1, 0),
            cell("Output", 2, 0),
            cell("0", 0, 1),
            cell("0", 1, 1),
            cell("0", 2, 1),
            cell("0", 0, 2),
            cell("1", 1, 2),
            cell("0", 2, 2),
            cell("1", 0, 3),
            cell("0", 1, 3),
            cell("0", 2, 3),
            cell("1", 0, 4),
            cell("1", 1, 4),
            cell("1", 2, 4),
        ]
    );
}

#[test]
fn grid_cells_without_variables() {
    let table = truth_table("not 0").unwrap();
    assert_eq!(grid_cells(&table), vec![cell("Output", 0, 0), cell("1", 0, 1)]);
}

#[test]
fn tables_of_formulas_are_well_formed() {
    for text in ["1", "x", "x or y", "xANDyOR(zANDx)", "not (p and q) or s"] {
        assert!(truth_table(text).unwrap().is_well_formed());
    }
}

#[test]
fn a_table_with_a_row_missing_is_not_well_formed() {
    let mut table = truth_table("x or y").unwrap();
    table.rows.pop();
    assert!(!table.is_well_formed());
}

#[test]
fn a_table_with_a_short_row_is_not_well_formed() {
    let mut table = truth_table("x or y").unwrap();
    table.rows[2].assignment.pop();
    assert!(!table.is_well_formed());
}

#[test]
fn a_table_with_a_variable_twice_is_not_well_formed() {
    let table = TruthTable {
        variables: vec!['x', 'x'],
        rows: vec![
            row(&[false, false], false),
            row(&[false, true], false),
            row(&[true, false], false),
            row(&[true, true], true),
        ],
    };
    assert!(!table.is_well_formed());
    let table = TruthTable { variables: vec!['X'], rows: vec![row(&[false], false), row(&[true], true)] };
    assert!(!table.is_well_formed());
}

#[test]
fn is_list_of_variables_wants_distinct_letters() {
    assert!(is_list_of_variables(&Vec::new()));
    assert!(is_list_of_variables(&vec!['x', 'y', 'a']));
    assert!(!is_list_of_variables(&vec!['x', 'y', 'x']));
    assert!(!is_list_of_variables(&vec!['x', '1']));
    assert!(!is_list_of_variables(&vec!['Q']));
}

#[test]
fn rows_count_up_in_binary() {
    let table = truth_table("p or q or s").unwrap();
    for (k, r) in table.rows.iter().enumerate() {
        for i in 0..3 {
            assert_eq!(r.assignment[i], (k >> (2 - i)) & 1 == 1);
        }
        assert_eq!(r.result, k != 0);
    }
}
