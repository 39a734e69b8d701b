//! Tests of the tree type itself: constructors, ordering,
//! canonicalization, structural queries and the text renderings.

use math_q::math_type::{natural_number, variable, function, sum, flip_sign, product, power,
    reciprocal, fraction, exponential, logarithm, MathType};
use math_q::math_kind::MathTypeName;
use math_q::order::{cmp_trees, TreeOrd};

fn x() -> MathType {
    variable("x")
}

fn y() -> MathType {
    variable("y")
}

#[test]
fn constant_renders_in_decimal() {
    assert_eq!(natural_number(0).get_string(), "0");
    assert_eq!(natural_number(5).get_string(), "5");
    assert_eq!(natural_number(128).get_string(), "128");
    assert_eq!(natural_number(90071992547409920).get_string(), "90071992547409920");
}

#[test]
fn variable_is_a_symbol() {
    assert!(x().is_variable());
    assert!(!natural_number(1).is_variable());
    assert!(!function("f", vec![x()]).is_variable());
}

#[test]
fn constructors_build_the_documented_shapes() {
    assert_eq!(reciprocal(x()).get_string(), "pow(x, -(1))");
    assert_eq!(fraction(x(), y()).get_string(), "*(x, pow(y, -(1)))");
    assert_eq!(exponential(x()).get_string(), "exp(x)");
    assert_eq!(logarithm(x()).get_string(), "ln(x)");
    assert_eq!(power(x(), natural_number(2)).get_string(), "pow(x, 2)");
    assert_eq!(flip_sign(x()).get_string(), "-(x)");
    assert_eq!(function("f", vec![x(), y()]).get_string(), "f(x, y)");
}

#[test]
fn kind_order_follows_the_documented_ranks() {
    assert_eq!(MathTypeName::Undefined.index(), 0);
    assert_eq!(MathTypeName::NaturalNumber(7).index(), 1);
    assert_eq!(MathTypeName::Function(String::from("f")).index(), 2);
    assert_eq!(MathTypeName::Power.index(), 3);
    assert_eq!(MathTypeName::Sum.index(), 4);
    assert_eq!(MathTypeName::FlipSign.index(), 5);
    assert_eq!(MathTypeName::Product.index(), 6);
    assert_eq!(MathTypeName::Exp.index(), 7);
    assert_eq!(MathTypeName::LogN.index(), 8);
}

#[test]
fn kind_tables_match_the_design() {
    assert_eq!(MathTypeName::Sum.parameter_range(), (0, usize::MAX));
    assert_eq!(MathTypeName::FlipSign.parameter_range(), (1, 1));
    assert_eq!(MathTypeName::Power.parameter_range(), (2, 2));
    assert_eq!(MathTypeName::NaturalNumber(3).parameter_range(), (0, 0));
    assert!(MathTypeName::Sum.is_commutative());
    assert!(MathTypeName::Product.is_commutative());
    assert!(!MathTypeName::Power.is_commutative());
    assert_eq!(MathTypeName::Sum.precedence(), 1);
    assert_eq!(MathTypeName::Product.precedence(), 2);
    assert_eq!(MathTypeName::FlipSign.precedence(), 3);
    assert_eq!(MathTypeName::Power.precedence(), 4);
    assert_eq!(MathTypeName::NaturalNumber(1).precedence(), u8::MAX);
}

#[test]
fn sorting_orders_commutative_children_by_rank() {
    let mut t = sum(vec![product(vec![x(), y()]), natural_number(2), x()]);
    t.sort();
    assert_eq!(t.get_string(), "+(2, x, *(x, y))");
    assert!(t.is_sorted());
}

#[test]
fn sorting_twice_changes_nothing() {
    let mut t = sum(vec![x(), product(vec![y(), x()]), natural_number(9), y()]);
    t.sort();
    let once = t.clone();
    t.sort();
    assert!(t.tree_eq(&once));
}

#[test]
fn sorting_recurses_into_children() {
    let mut t = sum(vec![product(vec![y(), x()])]);
    t.sort();
    assert_eq!(t.get_string(), "+(*(x, y))");
}

#[test]
fn unsorted_commutative_trees_have_no_order() {
    let a = sum(vec![y(), x()]);
    let b = sum(vec![y(), x()]);
    assert_eq!(cmp_trees(&a, &b), None);
}

#[test]
fn canonical_trees_compare_totally() {
    let mut a = sum(vec![y(), x()]);
    let mut b = sum(vec![x(), natural_number(1)]);
    a.sort();
    b.sort();
    let ab = cmp_trees(&a, &b);
    let ba = cmp_trees(&b, &a);
    assert!(ab.is_some() && ba.is_some());
    // Exactly one of less, equal, greater, and the orders mirror.
    assert_eq!(ab, Some(TreeOrd::Greater));
    assert_eq!(ba, Some(TreeOrd::Less));
    assert_eq!(cmp_trees(&a, &a), Some(TreeOrd::Equal));
}

#[test]
fn name_and_value_break_kind_ties() {
    let a = variable("a");
    let b = variable("b");
    assert_eq!(cmp_trees(&a, &b), Some(TreeOrd::Less));
    assert_eq!(cmp_trees(&b, &a), Some(TreeOrd::Greater));
    let two = natural_number(2);
    let three = natural_number(3);
    assert_eq!(cmp_trees(&two, &three), Some(TreeOrd::Less));
    // Fewer children sort first on equal kinds.
    let f1 = function("f", vec![x()]);
    let f2 = function("f", vec![x(), y()]);
    assert_eq!(cmp_trees(&f1, &f2), Some(TreeOrd::Less));
}

#[test]
fn contains_finds_descendants() {
    let t = sum(vec![product(vec![x(), y()]), natural_number(2)]);
    assert!(t.contains(&x()));
    assert!(t.contains(&natural_number(2)));
    assert!(t.contains(&product(vec![x(), y()])));
    assert!(!t.contains(&variable("z")));
}

#[test]
fn count_nodes_counts_the_whole_tree() {
    assert_eq!(x().count_nodes(), 1);
    assert_eq!(sum(vec![x(), y()]).count_nodes(), 3);
    assert_eq!(sum(vec![product(vec![x(), y()]), natural_number(1)]).count_nodes(), 5);
}

#[test]
fn replace_substitutes_every_occurrence() {
    let t = sum(vec![x(), product(vec![x(), y()])]);
    let r = t.replace(&x(), &natural_number(7));
    assert_eq!(r.get_string(), "+(7, *(7, y))");
    // The original is untouched.
    assert_eq!(t.get_string(), "+(x, *(x, y))");
}

#[test]
fn typst_rendering_follows_the_notation() {
    assert_eq!(sum(vec![]).get_typst_string(), "\"zero\"");
    assert_eq!(product(vec![]).get_typst_string(), "\"one\"");
    assert_eq!(sum(vec![x()]).get_typst_string(), "x");
    assert_eq!(sum(vec![x(), y()]).get_typst_string(), "x + y");
    assert_eq!(product(vec![natural_number(2), natural_number(3)]).get_typst_string(), "2 dot 3");
    assert_eq!(product(vec![natural_number(2), x()]).get_typst_string(), "2 x");
    assert_eq!(flip_sign(x()).get_typst_string(), "-x");
    assert_eq!(exponential(x()).get_typst_string(), "e^(x)");
    assert_eq!(logarithm(x()).get_typst_string(), "ln(x)");
    assert_eq!(power(x(), y()).get_typst_string(), "(x)^(y)");
    assert_eq!(function("f", vec![x(), y()]).get_typst_string(), "f(x, y)");
}

#[test]
fn typst_rendering_parenthesizes_by_precedence() {
    // A sum inside a product is parenthesized; a product inside a sum is not.
    let p = product(vec![natural_number(2), sum(vec![x(), y()])]);
    assert_eq!(p.get_typst_string(), "2 (x + y)");
    let s = sum(vec![natural_number(2), product(vec![x(), y()])]);
    assert_eq!(s.get_typst_string(), "2 + x y");
}

#[test]
fn debug_rendering_parenthesizes_by_precedence() {
    let p = product(vec![sum(vec![x(), y()]), natural_number(2)]);
    assert_eq!(p.get_string(), "*((+(x, y)), 2)");
}

#[test]
fn clone_duplicates_the_subtree() {
    let t = sum(vec![x(), product(vec![y(), natural_number(3)])]);
    let c = t.clone();
    assert!(t.tree_eq(&c));
}
