//! Tests of the rewrite passes, the driver, differentiation and
//! factoring.

use math_q::math_type::{natural_number, variable, function, sum, flip_sign, product, MathType};

fn x() -> MathType {
    variable("x")
}

fn y() -> MathType {
    variable("y")
}

fn a() -> MathType {
    variable("a")
}

fn b() -> MathType {
    variable("b")
}

fn c() -> MathType {
    variable("c")
}

/// Canonical equality: both trees sorted, then compared node for node.
fn canonically_equal(lhs: &MathType, rhs: &MathType) -> bool {
    let mut l = lhs.clone();
    let mut r = rhs.clone();
    l.sort();
    r.sort();
    l.tree_eq(&r)
}

#[test]
fn reduce_neutral_folds_empty_sum_to_zero() {
    let r = sum(vec![]).reduce_neutral();
    assert!(r.tree_eq(&natural_number(0)));
}

#[test]
fn reduce_neutral_folds_empty_product_to_one() {
    let r = product(vec![]).reduce_neutral();
    assert!(r.tree_eq(&natural_number(1)));
}

#[test]
fn reduce_neutral_folds_constants() {
    let r = sum(vec![natural_number(2), natural_number(3)]).reduce_neutral();
    assert!(r.tree_eq(&natural_number(5)));
}

#[test]
fn reduce_neutral_drops_zero_terms_and_unit_factors() {
    let r = sum(vec![natural_number(0), x()]).reduce_neutral();
    assert!(r.tree_eq(&x()));
    let r = product(vec![natural_number(1), x()]).reduce_neutral();
    assert!(r.tree_eq(&x()));
    let r = product(vec![natural_number(0), x()]).reduce_neutral();
    assert!(r.tree_eq(&natural_number(0)));
    let r = product(vec![natural_number(2), x(), natural_number(3)]).reduce_neutral();
    assert_eq!(r.get_string(), "*(6, x)");
}

#[test]
fn reduce_neutral_handles_negation() {
    let r = flip_sign(natural_number(0)).reduce_neutral();
    assert!(r.tree_eq(&natural_number(0)));
    let r = flip_sign(flip_sign(x())).reduce_neutral();
    assert!(r.tree_eq(&x()));
}

#[test]
fn flatten_splices_nested_sums_and_products() {
    let t = sum(vec![sum(vec![a(), b()]), c()]);
    let r = t.flatten();
    assert!(r.tree_eq(&sum(vec![a(), b(), c()])));
    let t = product(vec![product(vec![a(), b()]), c()]);
    let r = t.flatten();
    assert!(r.tree_eq(&product(vec![a(), b(), c()])));
}

#[test]
fn flatten_twice_is_flatten_once() {
    let t = sum(vec![sum(vec![sum(vec![a(), b()]), c()]), x()]);
    let once = t.flatten();
    let twice = once.flatten();
    assert!(once.tree_eq(&twice));
}

#[test]
fn expand_distributes_product_over_sum() {
    let t = product(vec![sum(vec![a(), b()]), c()]);
    let r = t.expand();
    let expected = sum(vec![product(vec![a(), c()]), product(vec![b(), c()])]);
    assert!(r.tree_eq(&expected));
    assert!(canonically_equal(&r, &expected));
}

#[test]
fn expand_builds_the_full_cartesian_product() {
    let t = product(vec![sum(vec![a(), b()]), sum(vec![x(), y()])]);
    let r = t.expand();
    let expected = sum(vec![
        product(vec![a(), x()]),
        product(vec![a(), y()]),
        product(vec![b(), x()]),
        product(vec![b(), y()]),
    ]);
    assert!(r.tree_eq(&expected));
}

#[test]
fn combine_groups_equal_terms() {
    let r = sum(vec![x(), x()]).combine();
    assert_eq!(r.get_string(), "+(*(2, x))");
    let r = sum(vec![x(), x(), x()]).combine();
    assert_eq!(r.get_string(), "+(*(3, x))");
}

#[test]
fn combine_then_reduce_cancels_a_term_against_its_negation() {
    let t = sum(vec![x(), flip_sign(x())]);
    let r = t.combine().reduce_neutral();
    assert!(canonically_equal(&r, &natural_number(0)));
}

#[test]
fn combine_keeps_unrelated_terms() {
    let r = sum(vec![x(), y()]).combine();
    assert_eq!(r.get_string(), "+(x, y)");
}

#[test]
fn derivative_of_the_variable_itself_is_one() {
    let d = x().get_derivative(&x());
    assert!(d.tree_eq(&natural_number(1)));
}

#[test]
fn derivative_of_a_constant_is_zero() {
    let d = natural_number(42).get_derivative(&x());
    assert!(d.tree_eq(&natural_number(0)));
}

#[test]
fn derivative_is_linear_over_sums() {
    let f = product(vec![x(), y()]);
    let g = exponential_of_x();
    let d = sum(vec![f.clone(), g.clone()]).get_derivative(&x());
    let expected = sum(vec![f.get_derivative(&x()), g.get_derivative(&x())]);
    assert!(d.tree_eq(&expected));
}

fn exponential_of_x() -> MathType {
    math_q::math_type::exponential(variable("x"))
}

#[test]
fn derivative_follows_the_product_rule() {
    // The derivative of the unrelated symbol y is an empty sum of
    // chain-rule terms, reduced away only by simplification.
    let d = product(vec![x(), y()]).get_derivative(&x());
    let expected = sum(vec![
        product(vec![natural_number(1), y()]),
        product(vec![x(), sum(vec![])]),
    ]);
    assert!(d.tree_eq(&expected));
}

#[test]
fn derivative_of_a_function_application_uses_the_chain_rule() {
    let d = function("f", vec![x()]).get_derivative(&x());
    let expected = sum(vec![product(vec![natural_number(1), function("f'", vec![x()])])]);
    assert!(d.tree_eq(&expected));
}

#[test]
fn derivative_of_exponential_multiplies_by_the_inner_derivative() {
    let t = exponential_of_x();
    let d = t.get_derivative(&x());
    let expected = product(vec![t.clone(), natural_number(1)]);
    assert!(d.tree_eq(&expected));
}

#[test]
fn derivative_of_logarithm_uses_the_reciprocal() {
    let d = math_q::math_type::logarithm(x()).get_derivative(&x());
    let expected = product(vec![natural_number(1), math_q::math_type::reciprocal(x())]);
    assert!(d.tree_eq(&expected));
}

#[test]
fn simplify_folds_constant_sums() {
    let r = sum(vec![natural_number(2), natural_number(3)]).simplify();
    assert!(r.tree_eq(&natural_number(5)));
}

#[test]
fn simplify_returns_for_plain_inputs() {
    let r = x().simplify();
    assert!(r.tree_eq(&x()));
    let r = natural_number(7).simplify();
    assert!(r.tree_eq(&natural_number(7)));
}

#[test]
fn simplified_derivative_of_two_x_times_x_plus_three() {
    // The derivative of 2 x (x + 3) is 4 x + 6.
    let term = product(vec![natural_number(2), x(), sum(vec![x(), natural_number(3)])]);
    let d = term.get_derivative(&x());
    let lhs = d.simplify();
    let rhs = sum(vec![product(vec![natural_number(4), x()]), natural_number(6)]).simplify();
    assert!(canonically_equal(&lhs, &rhs));
}

#[test]
fn factor_out_pulls_a_shared_factor_in_front() {
    let t = sum(vec![product(vec![a(), b()]), product(vec![a(), c()])]);
    let r = t.factor_out().reduce_neutral();
    let expected = product(vec![a(), sum(vec![b(), c()])]);
    assert!(canonically_equal(&r, &expected));
}

#[test]
fn factor_out_leaves_sums_without_shared_factors_alone() {
    let t = sum(vec![product(vec![a(), b()]), product(vec![x(), y()])]);
    let r = t.factor_out();
    assert!(r.tree_eq(&t));
}

#[test]
fn factor_out_prefers_the_larger_grouping() {
    // Three summands share a; factoring groups all three.
    let t = sum(vec![
        product(vec![a(), b()]),
        product(vec![a(), c()]),
        product(vec![a(), x()]),
    ]);
    let r = t.factor_out().reduce_neutral();
    let expected = product(vec![a(), sum(vec![b(), c(), x()])]);
    assert!(canonically_equal(&r, &expected));
}

#[test]
fn power_derivative_uses_the_exponential_rewrite() {
    // D(x^2) is written through Exp(2 ln x): the engine returns the
    // unevaluated chain-rule tree.
    let t = math_q::math_type::power(x(), natural_number(2));
    let d = t.get_derivative(&x());
    let expected = product(vec![
        math_q::math_type::exponential(product(vec![
            natural_number(2),
            math_q::math_type::logarithm(x()),
        ])),
        sum(vec![
            product(vec![natural_number(0), math_q::math_type::logarithm(x())]),
            product(vec![
                natural_number(2),
                product(vec![natural_number(1), math_q::math_type::reciprocal(x())]),
            ]),
        ]),
    ]);
    assert!(d.tree_eq(&expected));
}

#[test]
fn is_sorted_rejects_unsorted_commutative_children() {
    let t = sum(vec![x(), natural_number(1)]);
    assert!(!t.is_sorted());
    let t = sum(vec![natural_number(1), x()]);
    assert!(t.is_sorted());
    // Order of non-commutative children carries meaning and is accepted.
    let t = math_q::math_type::power(x(), natural_number(2));
    assert!(t.is_sorted());
}

#[test]
fn simplify_handles_nested_structure() {
    // (x + x) * 3 simplifies to 6 x.
    let t = product(vec![sum(vec![x(), x()]), natural_number(3)]);
    let r = t.simplify();
    let expected = product(vec![natural_number(6), x()]).simplify();
    let mut l = r.clone();
    let mut rr = expected.clone();
    l.sort();
    rr.sort();
    assert!(l.tree_eq(&rr));
}

#[test]
fn factor_out_recurses_below_other_kinds() {
    // The sum sits under a negation; factoring still reaches it.
    let t = flip_sign(sum(vec![product(vec![a(), b()]), product(vec![a(), c()])]));
    let r = t.factor_out().reduce_neutral();
    let expected = flip_sign(product(vec![a(), sum(vec![b(), c()])]));
    let mut l = r.clone();
    let mut rr = expected.clone();
    l.sort();
    rr.sort();
    assert!(l.tree_eq(&rr));
}

#[test]
fn reduce_neutral_saturates_at_the_largest_constant() {
    // Folding constants past the range of the constant type stops at its
    // largest value instead of wrapping.
    let r = sum(vec![natural_number(u128::MAX), natural_number(1)]).reduce_neutral();
    assert!(r.tree_eq(&natural_number(u128::MAX)));
    let r = product(vec![natural_number(u128::MAX), natural_number(2)]).reduce_neutral();
    assert!(r.tree_eq(&natural_number(u128::MAX)));
}
