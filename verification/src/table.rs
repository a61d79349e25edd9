//! The truth table of a formula.
//!
//! [`parse`] takes a formula as it was typed and gives its variables and one
//! row for each assignment, in the order in which the assignments are
//! enumerated. [`build_table`] turns the rows round for display: the row in
//! which every variable is false comes first.

use vstd::prelude::*;
use vstd::arithmetic::power2::{
    lemma2_to64,
    lemma_pow2_strictly_increases,
    lemma_pow2_unfold,
    pow2,
};
use vstd::pervasive::unreached;
use crate::enumerate::{
    assignments,
    enumerate_assignments,
    is_true_in,
    lemma_assignment_lengths,
    lemma_assignment_values,
    lemma_assignments_count,
    lemma_assignments_ends,
    lemma_complement_digit,
    views,
};
use crate::eval::{eval, lemma_closed_has_value, position, truth, EvaluationError};
use crate::expr::Expr;
use crate::normalize::{normal_form, normalize};
use crate::parser::{lemma_parsed_tree, parse_result, parse_tokens, ParseError};
use crate::text::chars_of;
use crate::token::{is_variable_char, is_variable_name, tokenize_chars, tokens_of};
use crate::variables::{
    collect_variables,
    is_variable_list,
    lemma_at_most_one_per_letter,
    lemma_variables_of_is_variable_list,
    variables_of,
    MAX_VARIABLES,
};

verus! {

/// One row of a truth table: an assignment, and the value of the formula
/// under it.
#[derive(Debug, PartialEq, Eq)]
pub struct Row {
    /// The values of the variables, in the order of the variable list.
    pub assignment: Vec<bool>,
    /// The value of the formula.
    pub result: bool,
}

impl View for Row {
    type V = (Seq<bool>, bool);

    open spec fn view(&self) -> (Seq<bool>, bool) {
        (self.assignment@, self.result)
    }
}

/// The variables of a formula and its rows in display order.
#[derive(Debug, PartialEq, Eq)]
pub struct TruthTable {
    /// The variables, in the order in which they first appear.
    pub variables: Vec<char>,
    /// One row for each assignment.
    pub rows: Vec<Row>,
}

/// Rows as plain values: each an assignment and the value of the formula.
pub type Rows = Seq<(Seq<bool>, bool)>;

/// What a formula gives as plain values: its variables and its rows, or the
/// reason why it has none.
pub type Outcome = Result<(Seq<char>, Rows), ParseError>;

impl View for TruthTable {
    type V = (Seq<char>, Rows);

    open spec fn view(&self) -> (Seq<char>, Rows) {
        (self.variables@, row_views(self.rows@))
    }
}

/// The rows of `rows`, each as a pair of plain values.
pub open spec fn row_views(rows: Seq<Row>) -> Rows {
    Seq::new(rows.len(), |k: int| rows[k]@)
}

/// Whether `expr` is true under `assignment`.
pub open spec fn holds(expr: Expr, variables: Seq<char>, assignment: Seq<bool>) -> bool {
    truth(expr, variables, assignment) == Ok::<bool, EvaluationError>(true)
}

/// One row for each assignment of `variables`, in the order in which the
/// assignments are enumerated.
pub open spec fn rows_in_order(tree: Expr, variables: Seq<char>) -> Rows {
    let all = assignments(variables.len());
    Seq::new(all.len(), |k: int| (all[k], holds(tree, variables, all[k])))
}

/// The variables and the rows of a canonical formula, or the reason why it
/// has none.
pub open spec fn formula_rows(normalized: Seq<char>) -> Outcome {
    match parse_result(tokens_of(normalized)) {
        Err(e) => Err(e),
        Ok(tree) => Ok(
            (variables_of(normalized), rows_in_order(tree, variables_of(normalized))),
        ),
    }
}

/// The variables and the rows in display order of a canonical formula.
pub open spec fn formula_table(normalized: Seq<char>) -> Outcome {
    match formula_rows(normalized) {
        Err(e) => Err(e),
        Ok((variables, rows)) => Ok((variables, rows.reverse())),
    }
}

/// The variables and rows that `parse` gave, as plain values.
pub open spec fn rows_given(outcome: Result<(Vec<char>, Vec<Row>), ParseError>) -> Outcome {
    match outcome {
        Ok((variables, rows)) => Ok((variables@, row_views(rows@))),
        Err(e) => Err(e),
    }
}

/// The table that `truth_table` gave, as plain values.
pub open spec fn table_given(outcome: Result<TruthTable, ParseError>) -> Outcome {
    match outcome {
        Ok(table) => Ok(table@),
        Err(e) => Err(e),
    }
}

impl TruthTable {
    /// Whether the table is one of a formula: its variables are distinct
    /// letters, it has one row for each assignment, and each row has one value
    /// for each variable.
    pub open spec fn wf(self) -> bool {
        &&& is_variable_list(self.variables@)
        &&& self.rows@.len() == pow2(self.variables@.len())
        &&& forall|k: int|
            0 <= k < self.rows@.len() ==> (#[trigger] self.rows@[k]).assignment@.len()
                == self.variables@.len()
    }
}

/// Computes `2^n`.
fn power_of_two(n: usize) -> (p: usize)
    requires
        n <= MAX_VARIABLES,
    ensures
        p == pow2(n as nat),
{
    let mut p: usize = 1;
    let mut i: usize = 0;
    proof {
        lemma2_to64();
    }
    while i < n
        invariant
            i <= n <= MAX_VARIABLES,
            p == pow2(i as nat),
            p <= 0x4000000,
        decreases n - i,
    {
        proof {
            lemma_pow2_unfold((i + 1) as nat);
            lemma2_to64();
            if i + 1 < 26 {
                lemma_pow2_strictly_increases((i + 1) as nat, 26);
            }
        }
        p = 2 * p;
        i += 1;
    }
    p
}

/// Tells whether `names` is a list of variables: letters from `a` to `z`,
/// none twice.
pub fn is_list_of_variables(names: &Vec<char>) -> (b: bool)
    ensures
        b == is_variable_list(names@),
{
    let mut i: usize = 0;
    while i < names.len()
        invariant
            i <= names.len(),
            forall|j: int| 0 <= j < i ==> is_variable_name(#[trigger] names@[j]),
            forall|j: int, k: int| 0 <= j < k < i ==> names@[j] != names@[k],
        decreases names.len() - i,
    {
        if !is_variable_char(names[i]) {
            return false;
        }
        match position(names, names[i]) {
            Some(first) => {
                if first != i {
                    return false;
                }
            },
            None => {
                return false;
            },
        }
        i += 1;
    }
    true
}

impl TruthTable {
    /// Tells whether the table is one of a formula.
    pub fn is_well_formed(&self) -> (b: bool)
        ensures
            b == self.wf(),
    {
        if !is_list_of_variables(&self.variables) {
            return false;
        }
        proof {
            lemma_at_most_one_per_letter(self.variables@);
        }
        let n = self.variables.len();
        if self.rows.len() != power_of_two(n) {
            return false;
        }
        let mut k: usize = 0;
        while k < self.rows.len()
            invariant
                k <= self.rows@.len(),
                n == self.variables@.len(),
                forall|j: int|
                    0 <= j < k ==> (#[trigger] self.rows@[j]).assignment@.len() == n,
            decreases self.rows.len() - k,
        {
            if self.rows[k].assignment.len() != n {
                return false;
            }
            k += 1;
        }
        true
    }
}

/// Evaluates `tree` under each of `assignments`, in their order. Fails with
/// the error of the first assignment under which `tree` has no value.
pub fn evaluate_all(tree: &Expr, variables: &Vec<char>, assignments: &Vec<Vec<bool>>) -> (rows:
    Result<Vec<Row>, EvaluationError>)
    requires
        forall|k: int|
            0 <= k < assignments@.len() ==> (#[trigger] assignments@[k])@.len()
                == variables@.len(),
    ensures
        match rows {
            Ok(rows) => {
                &&& rows@.len() == assignments@.len()
                &&& forall|k: int|
                    0 <= k < rows@.len() ==> truth(*tree, variables@, assignments@[k]@) == Ok::<
                        bool,
                        EvaluationError,
                    >((#[trigger] rows@[k]).result) && rows@[k].assignment@ == assignments@[k]@
            },
            Err(e) => exists|k: int|
                {
                    &&& 0 <= k < assignments@.len()
                    &&& #[trigger] truth(*tree, variables@, assignments@[k]@) == Err::<
                        bool,
                        EvaluationError,
                    >(e)
                    &&& forall|j: int|
                        0 <= j < k ==> (#[trigger] truth(
                            *tree,
                            variables@,
                            assignments@[j]@,
                        )) is Ok
                },
        },
{
    let mut rows: Vec<Row> = Vec::new();
    let mut k: usize = 0;
    while k < assignments.len()
        invariant
            k <= assignments.len(),
            rows@.len() == k,
            forall|j: int|
                0 <= j < assignments@.len() ==> (#[trigger] assignments@[j])@.len()
                    == variables@.len(),
            forall|j: int|
                0 <= j < k ==> truth(*tree, variables@, assignments@[j]@) == Ok::<
                    bool,
                    EvaluationError,
                >((#[trigger] rows@[j]).result) && rows@[j].assignment@ == assignments@[j]@,
        decreases assignments.len() - k,
    {
        let assignment = &assignments[k];
        match eval(tree, variables, assignment) {
            Ok(result) => {
                rows.push(Row { assignment: assignment.clone(), result });
            },
            Err(e) => {
                proof {
                    assert forall|j: int| 0 <= j < k implies (#[trigger] truth(
                        *tree,
                        variables@,
                        assignments@[j]@,
                    )) is Ok by {
                        assert(rows@[j].assignment@ == assignments@[j]@);
                    }
                    assert(truth(*tree, variables@, assignments@[k as int]@) == Err::<
                        bool,
                        EvaluationError,
                    >(e));
                }
                return Err(e);
            },
        }
        k += 1;
    }
    Ok(rows)
}

/// Puts the rows into display order: the last one first.
pub fn build_table(variables: Vec<char>, rows: Vec<Row>) -> (table: TruthTable)
    ensures
        table@ == (variables@, row_views(rows@).reverse()),
{
    let mut rows = rows;
    let ghost given = rows@;
    let mut turned: Vec<Row> = Vec::new();
    while rows.len() > 0
        invariant
            rows@.len() + turned@.len() == given.len(),
            rows@ == given.take(rows@.len() as int),
            forall|k: int| 0 <= k < turned@.len() ==> turned@[k] == given[given.len() - 1 - k],
        decreases rows.len(),
    {
        match rows.pop() {
            Some(row) => {
                turned.push(row);
            },
            None => {},
        }
    }
    TruthTable { variables, rows: turned }
}

/// Takes a canonical formula to its variables and its rows, one for each
/// assignment in the order in which the assignments are enumerated. A
/// formula that does not parse gives its error before any assignment is
/// enumerated.
pub fn parse_normalized(normalized: &str) -> (outcome: Result<(Vec<char>, Vec<Row>), ParseError>)
    ensures
        rows_given(outcome) == formula_rows(normalized@),
{
    let chars = chars_of(normalized);
    let tokens = tokenize_chars(&chars);
    let tree = match parse_tokens(&tokens) {
        Ok(tree) => tree,
        Err(e) => { return Err(e); },
    };
    let variables = collect_variables(&tokens);
    proof {
        lemma_variables_of_is_variable_list(normalized@);
        lemma_at_most_one_per_letter(variables@);
        lemma_assignment_lengths(variables@.len());
    }
    let all = enumerate_assignments(variables.len());
    proof {
        assert forall|k: int| 0 <= k < all@.len() implies (#[trigger] all@[k])@.len()
            == variables@.len() by {
            assert(views(all@)[k] == all@[k]@);
        }
    }
    match evaluate_all(&tree, &variables, &all) {
        Ok(rows) => {
            proof {
                let expected = rows_in_order(tree, variables@);
                assert(row_views(rows@).len() == expected.len());
                assert forall|k: int| 0 <= k < expected.len() implies row_views(rows@)[k]
                    == expected[k] by {
                    assert(views(all@)[k] == all@[k]@);
                    assert(truth(tree, variables@, all@[k]@) == Ok::<bool, EvaluationError>(
                        rows@[k].result,
                    ));
                }
                assert(row_views(rows@) == expected);
            }
            Ok((variables, rows))
        },
        Err(e) => {
            proof {
                let k = choose|k: int|
                    0 <= k < all@.len() && #[trigger] truth(tree, variables@, all@[k]@) == Err::<
                        bool,
                        EvaluationError,
                    >(e);
                lemma_closed_has_value(tree, variables@, all@[k]@);
            }
            unreached()
        },
    }
}

/// Takes a formula as it was typed to its variables and its rows, one for
/// each assignment in the order in which the assignments are enumerated.
pub fn parse(text: &str) -> (outcome: Result<(Vec<char>, Vec<Row>), ParseError>)
    ensures
        rows_given(outcome) == formula_rows(normal_form(text@)),
{
    let normalized = normalize(text);
    parse_normalized(normalized.as_str())
}

/// Builds the truth table of a canonical formula.
pub fn table_of_normalized(normalized: &str) -> (outcome: Result<TruthTable, ParseError>)
    ensures
        table_given(outcome) == formula_table(normalized@),
        outcome matches Ok(table) ==> table.wf(),
{
    match parse_normalized(normalized) {
        Ok((variables, rows)) => {
            let ghost in_order = row_views(rows@);
            let table = build_table(variables, rows);
            proof {
                lemma_variables_of_is_variable_list(normalized@);
                lemma_assignments_count(table.variables@.len());
                lemma_assignment_lengths(table.variables@.len());
                assert(row_views(table.rows@).len() == in_order.len());
                assert forall|k: int| 0 <= k < table.rows@.len() implies (
                #[trigger] table.rows@[k]).assignment@.len() == table.variables@.len() by {
                    assert(row_views(table.rows@)[k] == in_order[in_order.len() - 1 - k]);
                }
            }
            Ok(table)
        },
        Err(e) => Err(e),
    }
}

/// Builds the truth table of a formula as it was typed.
pub fn truth_table(text: &str) -> (outcome: Result<TruthTable, ParseError>)
    ensures
        table_given(outcome) == formula_table(normal_form(text@)),
        outcome matches Ok(table) ==> table.wf(),
{
    let normalized = normalize(text);
    table_of_normalized(normalized.as_str())
}

/// The table of a formula with `n` variables has `2^n` rows, one row if the
/// formula has no variable, and in each row one value for each variable.
pub proof fn lemma_table_shape(normalized: Seq<char>)
    requires
        formula_table(normalized) is Ok,
    ensures
        ({
            let (variables, rows) = formula_table(normalized)->Ok_0;
            &&& is_variable_list(variables)
            &&& variables.len() <= MAX_VARIABLES
            &&& rows.len() == pow2(variables.len())
            &&& variables.len() == 0 ==> rows.len() == 1
            &&& forall|k: int| 0 <= k < rows.len() ==> (#[trigger] rows[k]).0.len() == variables.len()
        }),
{
    let (variables, rows) = formula_table(normalized)->Ok_0;
    lemma_variables_of_is_variable_list(normalized);
    lemma_at_most_one_per_letter(variables);
    lemma_assignments_count(variables.len());
    lemma_assignment_lengths(variables.len());
    lemma2_to64();
}

/// Row `k` of the table holds the assignment that is enumerated as the
/// `k`-th from the end, and the value that the formula's tree has under it.
pub proof fn lemma_table_row(normalized: Seq<char>, k: int)
    requires
        formula_table(normalized) is Ok,
        0 <= k < pow2(variables_of(normalized).len()),
    ensures
        ({
            let (variables, rows) = formula_table(normalized)->Ok_0;
            let tree = parse_result(tokens_of(normalized))->Ok_0;
            let n = variables.len();
            &&& variables == variables_of(normalized)
            &&& rows.len() == pow2(n)
            &&& rows[k].0 == assignments(n)[pow2(n) - 1 - k]
            &&& truth(tree, variables, rows[k].0) == Ok::<bool, EvaluationError>(rows[k].1)
        }),
{
    let variables = variables_of(normalized);
    let tree = parse_result(tokens_of(normalized))->Ok_0;
    let assignment = assignments(variables.len())[pow2(variables.len()) - 1 - k];
    lemma_assignments_count(variables.len());
    lemma_parsed_tree(tokens_of(normalized));
    lemma_closed_has_value(tree, variables, assignment);
}

/// The rows of the table count up in binary: in row `k` a variable is true
/// exactly if its digit of `k` is 1, the first variable being the highest
/// digit.
pub proof fn lemma_table_counts_up(normalized: Seq<char>, k: int, i: int)
    requires
        formula_table(normalized) is Ok,
        0 <= k < pow2(variables_of(normalized).len()),
        0 <= i < variables_of(normalized).len(),
    ensures
        ({
            let (variables, rows) = formula_table(normalized)->Ok_0;
            rows[k].0[i] == !is_true_in(variables.len(), k, i)
        }),
{
    let n = variables_of(normalized).len();
    lemma_table_row(normalized, k);
    lemma_assignment_values(n, pow2(n) - 1 - k, i);
    lemma_complement_digit(n, k, i);
}

/// The first row of the table makes every variable false, the last one makes
/// every variable true.
pub proof fn lemma_table_ends(normalized: Seq<char>)
    requires
        formula_table(normalized) is Ok,
    ensures
        ({
            let (variables, rows) = formula_table(normalized)->Ok_0;
            &&& rows.len() > 0
            &&& rows.first().0 == Seq::new(variables.len(), |i: int| false)
            &&& rows.last().0 == Seq::new(variables.len(), |i: int| true)
        }),
{
    let n = variables_of(normalized).len();
    lemma_assignments_ends(n);
    lemma_table_row(normalized, 0);
    lemma_table_row(normalized, pow2(n) - 1);
}

/// Building the table of one formula twice gives the same table, or the same
/// error, both times.
pub proof fn lemma_same_formula_same_table(
    text: Seq<char>,
    first: Result<TruthTable, ParseError>,
    second: Result<TruthTable, ParseError>,
)
    requires
        table_given(first) == formula_table(normal_form(text)),
        table_given(second) == formula_table(normal_form(text)),
    ensures
        table_given(first) == table_given(second),
        first is Ok ==> second is Ok && first->Ok_0@ == second->Ok_0@,
        first is Err ==> second is Err && first->Err_0 == second->Err_0,
{
}

} // verus!
