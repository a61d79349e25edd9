//! Every assignment of `n` variables, in a fixed order.
//!
//! The assignments are the product of `n` copies of the domain
//! `[true, false]` in lexicographic order: the first variable changes
//! slowest, the last one fastest, and `true` comes before `false`.

use vstd::prelude::*;
use vstd::arithmetic::div_mod::{
    lemma_fundamental_div_mod,
    lemma_fundamental_div_mod_converse,
    lemma_hoist_over_denominator,
};
use vstd::arithmetic::power2::{
    lemma2_to64,
    lemma_pow2_adds,
    lemma_pow2_pos,
    lemma_pow2_strictly_increases,
    lemma_pow2_unfold,
    pow2,
};
use permutator::CartesianProduct;
use crate::variables::MAX_VARIABLES;

verus! {

/// The rows of `rows`, each as a sequence.
pub open spec fn views(rows: Seq<Vec<bool>>) -> Seq<Seq<bool>> {
    Seq::new(rows.len(), |k: int| rows[k]@)
}

/// The product of `domains` in lexicographic order: row `k` takes from the
/// first domain the entry `k / m`, where `m` is the number of rows of the
/// product of the other domains, and goes on with row `k % m` of that product.
pub open spec fn lex_product(domains: Seq<Seq<bool>>) -> Seq<Seq<bool>>
    decreases domains.len(),
{
    if domains.len() == 0 {
        seq![Seq::empty()]
    } else {
        let rest = lex_product(domains.drop_first());
        Seq::new(
            domains[0].len() * rest.len(),
            |k: int| seq![domains[0][k / (rest.len() as int)]] + rest[k % (rest.len() as int)],
        )
    }
}

/// `n` times the domain `[true, false]`.
pub open spec fn binary_domains(n: nat) -> Seq<Seq<bool>> {
    Seq::new(n, |i: int| seq![true, false])
}

/// Every assignment of `n` variables, the one that makes them all true
/// first.
pub open spec fn assignments(n: nat) -> Seq<Seq<bool>> {
    lex_product(binary_domains(n))
}

/// Calls `permutator::CartesianProduct::cart_prod` on `domains` as a slice of
/// slices, and copies what the iterator yields. The crate yields the product
/// of the domains in lexicographic order, one row for each choice of one entry
/// from every domain, the last domain changing fastest. It needs one domain
/// at least, and no domain may be empty.
#[verifier::external_body]
fn cart_prod(domains: &Vec<Vec<bool>>) -> (rows: Vec<Vec<bool>>)
    requires
        domains@.len() > 0,
        forall|i: int| 0 <= i < domains@.len() ==> (#[trigger] domains@[i])@.len() > 0,
        lex_product(views(domains@)).len() <= usize::MAX,
    ensures
        views(rows@) == lex_product(views(domains@)),
{
    let slices: Vec<&[bool]> = domains.iter().map(|d| d.as_slice()).collect();
    slices.as_slice().cart_prod().map(|row| row.into_iter().map(|b| *b).collect()).collect()
}

/// Lists every assignment of `n` variables.
pub fn enumerate_assignments(n: usize) -> (rows: Vec<Vec<bool>>)
    requires
        n <= MAX_VARIABLES,
    ensures
        views(rows@) == assignments(n as nat),
        rows@.len() == pow2(n as nat),
{
    proof {
        lemma_assignments_count(n as nat);
    }
    if n == 0 {
        let mut rows: Vec<Vec<bool>> = Vec::new();
        rows.push(Vec::new());
        proof {
            assert(binary_domains(0).len() == 0);
            assert(views(rows@) == seq![Seq::<bool>::empty()]);
        }
        return rows;
    }
    let mut domains: Vec<Vec<bool>> = Vec::new();
    let mut i: usize = 0;
    while i < n
        invariant
            i <= n,
            domains@.len() == i,
            forall|j: int| 0 <= j < i ==> (#[trigger] domains@[j])@ == seq![true, false],
        decreases n - i,
    {
        let mut domain: Vec<bool> = Vec::new();
        domain.push(true);
        domain.push(false);
        proof {
            assert(domain@ == seq![true, false]);
        }
        domains.push(domain);
        i += 1;
    }
    proof {
        assert(views(domains@) == binary_domains(n as nat));
        lemma2_to64();
        if n < 26 {
            lemma_pow2_strictly_increases(n as nat, 26);
        }
    }
    cart_prod(&domains)
}

/// The tail of the binary domains is the binary domains of one variable less.
proof fn lemma_binary_domains_tail(n: nat)
    requires
        n > 0,
    ensures
        binary_domains(n).drop_first() == binary_domains((n - 1) as nat),
        binary_domains(n)[0] == seq![true, false],
{
}

/// The assignments of `n` variables are those of the other `n - 1` variables
/// twice: first with `true` in front, then with `false` in front.
pub proof fn lemma_assignments_unfold(n: nat)
    requires
        n > 0,
    ensures
        ({
            let rest = assignments((n - 1) as nat);
            assignments(n) == Seq::new(
                2 * rest.len(),
                |k: int| seq![k < rest.len()] + rest[k % (rest.len() as int)],
            )
        }),
    decreases n,
{
    lemma_binary_domains_tail(n);
    lemma_assignments_count((n - 1) as nat);
    let rest = assignments((n - 1) as nat);
    let m = rest.len() as int;
    let unfolded = Seq::new(2 * rest.len(), |k: int| seq![k < rest.len()] + rest[k % m]);
    assert(seq![true, false].len() == 2);
    assert(assignments(n).len() == unfolded.len());
    assert forall|k: int| 0 <= k < unfolded.len() implies assignments(n)[k] == unfolded[k] by {
        lemma_quotient_of_two_halves(k, m);
    }
}

/// Below `2 * m`, the quotient by `m` is 0 in the first half and 1 in the second.
proof fn lemma_quotient_of_two_halves(k: int, m: int)
    by (nonlinear_arith)
    requires
        m > 0,
        0 <= k < 2 * m,
    ensures
        k < m ==> k / m == 0,
        k >= m ==> k / m == 1,
        0 <= k % m < m,
        k >= m ==> k % m == k - m,
        k < m ==> k % m == k,
{
}

/// There are `2^n` assignments of `n` variables.
pub proof fn lemma_assignments_count(n: nat)
    ensures
        assignments(n).len() == pow2(n),
    decreases n,
{
    lemma2_to64();
    if n == 0 {
        assert(binary_domains(0).len() == 0);
    } else {
        lemma_binary_domains_tail(n);
        lemma_assignments_count((n - 1) as nat);
        lemma_pow2_unfold(n);
        assert(seq![true, false].len() == 2);
    }
}

/// Each assignment of `n` variables has `n` values.
pub proof fn lemma_assignment_lengths(n: nat)
    ensures
        forall|k: int| 0 <= k < assignments(n).len() ==> (#[trigger] assignments(n)[k]).len() == n,
    decreases n,
{
    if n == 0 {
        assert(binary_domains(0).len() == 0);
    } else {
        lemma_assignments_unfold(n);
        lemma_assignments_count((n - 1) as nat);
        lemma_assignment_lengths((n - 1) as nat);
        let rest = assignments((n - 1) as nat);
        assert forall|k: int| 0 <= k < assignments(n).len() implies (#[trigger] assignments(
            n,
        )[k]).len() == n by {
            lemma_quotient_of_two_halves(k, rest.len() as int);
        }
    }
}

/// Every choice of `n` truth values is one of the assignments of `n`
/// variables.
pub proof fn lemma_assignments_complete(values: Seq<bool>)
    ensures
        assignments(values.len()).contains(values),
    decreases values.len(),
{
    let n = values.len();
    if n == 0 {
        assert(binary_domains(0).len() == 0);
        assert(assignments(0)[0] == values);
    } else {
        let tail = values.skip(1);
        lemma_assignments_complete(tail);
        lemma_assignments_unfold(n);
        lemma_assignments_count((n - 1) as nat);
        let rest = assignments((n - 1) as nat);
        let m = rest.len() as int;
        let j = choose|j: int| 0 <= j < rest.len() && rest[j] == tail;
        let k = if values[0] {
            j
        } else {
            j + m
        };
        lemma_quotient_of_two_halves(k, m);
        assert(assignments(n)[k] == values);
    }
}

/// No assignment is enumerated twice.
pub proof fn lemma_assignments_distinct(n: nat)
    ensures
        assignments(n).no_duplicates(),
    decreases n,
{
    if n == 0 {
        assert(binary_domains(0).len() == 0);
    } else {
        lemma_assignments_unfold(n);
        lemma_assignments_count((n - 1) as nat);
        lemma_assignments_distinct((n - 1) as nat);
        let rest = assignments((n - 1) as nat);
        let m = rest.len() as int;
        assert forall|j: int, k: int|
            0 <= j < assignments(n).len() && 0 <= k < assignments(n).len() && j != k implies assignments(
            n,
        )[j] != assignments(n)[k] by {
            lemma_quotient_of_two_halves(j, m);
            lemma_quotient_of_two_halves(k, m);
            let row_j = seq![j < m] + rest[j % m];
            let row_k = seq![k < m] + rest[k % m];
            if row_j == row_k {
                assert(row_j[0] == row_k[0]);
                assert(row_j.skip(1) == rest[j % m]);
                assert(row_k.skip(1) == rest[k % m]);
            }
        }
    }
}

/// The first assignment makes every variable true, the last one makes every
/// variable false.
pub proof fn lemma_assignments_ends(n: nat)
    ensures
        assignments(n).len() == pow2(n) > 0,
        assignments(n)[0] == Seq::new(n, |i: int| true),
        assignments(n)[pow2(n) - 1] == Seq::new(n, |i: int| false),
    decreases n,
{
    lemma_assignments_count(n);
    lemma2_to64();
    if n == 0 {
        assert(binary_domains(0).len() == 0);
    } else {
        lemma_assignments_unfold(n);
        lemma_assignments_ends((n - 1) as nat);
        lemma_pow2_unfold(n);
        let m = pow2((n - 1) as nat) as int;
        lemma_quotient_of_two_halves(0, m);
        lemma_quotient_of_two_halves(2 * m - 1, m);
    }
}

/// Whether variable `i` of `n` is true in assignment `k`: the variables are
/// the binary digits of `k`, the first variable the highest digit, and a
/// digit 0 stands for true.
pub open spec fn is_true_in(n: nat, k: int, i: int) -> bool {
    (k / (pow2((n - 1 - i) as nat) as int)) % 2 == 0
}

/// Taking an even multiple of `p` from `k` leaves the parity of `k / p`.
proof fn lemma_parity_of_quotient(k: int, p: int, t: int)
    requires
        p > 0,
    ensures
        ((k - (2 * t) * p) / p) % 2 == (k / p) % 2,
{
    lemma_hoist_over_denominator(k, -(2 * t), p as nat);
    assert(k + (-(2 * t)) * p == k - (2 * t) * p) by (nonlinear_arith);
}

/// Assignment `k` gives variable `i` the value that the digits of `k` say.
pub proof fn lemma_assignment_values(n: nat, k: int, i: int)
    requires
        0 <= k < pow2(n),
        0 <= i < n,
    ensures
        assignments(n).len() == pow2(n),
        assignments(n)[k].len() == n,
        assignments(n)[k][i] == is_true_in(n, k, i),
    decreases n,
{
    lemma_assignments_count(n);
    lemma_assignment_lengths(n);
    lemma_assignments_unfold(n);
    lemma_assignments_count((n - 1) as nat);
    lemma_assignment_lengths((n - 1) as nat);
    lemma_pow2_unfold(n);
    let rest = assignments((n - 1) as nat);
    let m = pow2((n - 1) as nat) as int;
    lemma_quotient_of_two_halves(k, m);
    if i > 0 {
        lemma_assignment_values((n - 1) as nat, k % m, i - 1);
        let p = pow2((n - 1 - i) as nat) as int;
        let t = pow2((i - 1) as nat) as int;
        lemma_pow2_pos((n - 1 - i) as nat);
        lemma_pow2_unfold(i as nat);
        lemma_pow2_adds((n - 1 - i) as nat, i as nat);
        assert(m == (2 * t) * p) by (nonlinear_arith)
            requires
                m == p * (2 * t),
        ;
        if k >= m {
            lemma_parity_of_quotient(k, p, t);
        }
        assert(assignments(n)[k][i] == rest[k % m][i - 1]);
    }
}

/// Counted from the other end, an assignment has each digit turned round:
/// what is true in assignment `k` is false in assignment `2^n - 1 - k`.
pub proof fn lemma_complement_digit(n: nat, k: int, i: int)
    requires
        0 <= k < pow2(n),
        0 <= i < n,
    ensures
        is_true_in(n, pow2(n) - 1 - k, i) == !is_true_in(n, k, i),
{
    let p = pow2((n - 1 - i) as nat) as int;
    let t = pow2(i as nat) as int;
    lemma_pow2_pos((n - 1 - i) as nat);
    lemma_pow2_unfold((i + 1) as nat);
    lemma_pow2_adds((n - 1 - i) as nat, (i + 1) as nat);
    let q = k / p;
    let r = k % p;
    lemma_fundamental_div_mod(k, p);
    assert(pow2(n) - 1 - k == (2 * t - 1 - q) * p + (p - 1 - r)) by (nonlinear_arith)
        requires
            pow2(n) == p * (2 * t),
            k == p * q + r,
    ;
    lemma_fundamental_div_mod_converse(pow2(n) - 1 - k, p, 2 * t - 1 - q, p - 1 - r);
}

} // verus!
