//! The algebraic laws the engine promises, stated over the ghost trees
//! that every contract in this crate speaks of, and proved once and for
//! all inputs.

use vstd::prelude::*;
use crate::view::{TreeView, KindView};
use crate::order::{TreeOrd, cmp_tree, canonical, lemma_cmp_total, lemma_cmp_eq, lemma_cmp_refl,
    lemma_cmp_flip};
use crate::sort::{norm, lemma_norm_canonical, lemma_norm_identity};
use crate::rewrite::{expand_t, expand_children, choice_lists, options_product,
    prepend_all, wrap_products, reduce_t, combine_t, combine_children, norm_each, group_count,
    combine_scan, render_count, reduce_children, sum_consts, prod_consts, nonconst};
use crate::derivative::{deriv, deriv_children};
use crate::math_type::leaf;

verus! {

/// A sum of exactly two terms.
pub open spec fn sum2(a: TreeView, b: TreeView) -> TreeView {
    TreeView { kind: KindView::Sum, children: seq![a, b] }
}

/// A product of exactly two factors.
pub open spec fn prod2(a: TreeView, b: TreeView) -> TreeView {
    TreeView { kind: KindView::Product, children: seq![a, b] }
}

/// Canonicalization is idempotent: sorting a sorted tree changes
/// nothing, so `norm(norm(t)) == norm(t)` for every tree.
pub proof fn lemma_norm_idempotent(t: TreeView)
    ensures
        norm(norm(t)) == norm(t),
{
    lemma_norm_canonical(t);
    lemma_norm_identity(norm(t));
}

/// The order is total on canonical trees: the comparison is always
/// decided, finds equality exactly on the same tree, and mirrors itself,
/// so exactly one of less, equal and greater holds of each pair.
pub proof fn lemma_order_total(a: TreeView, b: TreeView)
    requires
        canonical(a),
        canonical(b),
    ensures
        cmp_tree(a, b) is Some,
        (cmp_tree(a, b) == Some(TreeOrd::Equal)) <==> a == b,
        (cmp_tree(a, b) == Some(TreeOrd::Less)) <==> (cmp_tree(b, a) == Some(TreeOrd::Greater)),
{
    lemma_cmp_total(a, b);
    lemma_cmp_flip(a, b);
    if cmp_tree(a, b) == Some(TreeOrd::Equal) {
        lemma_cmp_eq(a, b);
    }
    if a == b {
        lemma_cmp_refl(a);
    }
}

/// The derivative is linear over a two-term sum, before any
/// simplification: differentiating the sum differentiates the terms.
pub proof fn lemma_deriv_linear(f: TreeView, g: TreeView, v: TreeView)
    ensures
        deriv(sum2(f, g), v) == sum2(deriv(f, v), deriv(g, v)),
{
    let s = seq![f, g];
    assert(s.drop_last() =~= seq![f]);
    assert(seq![f].drop_last() =~= Seq::<TreeView>::empty());
    assert(deriv_children(Seq::<TreeView>::empty(), v) =~= Seq::<TreeView>::empty());
    assert(deriv_children(seq![f], v) =~= seq![deriv(f, v)]);
    assert(deriv_children(s, v) =~= seq![deriv(f, v), deriv(g, v)]);
    assert(deriv(sum2(f, g), v) =~~= sum2(deriv(f, v), deriv(g, v)));
}

/// The derivative of a symbol with respect to itself is the constant
/// one.
pub proof fn lemma_deriv_self(x: TreeView)
    requires
        x.kind is Function,
    ensures
        deriv(x, x) == leaf(KindView::NaturalNumber(1)),
{
}

/// A product distributes over a sum under expansion: for trees that
/// expansion leaves unchanged — symbols, constants, any already expanded
/// tree — and a non-sum `c`, `expand(Product[Sum[a, b], c])` is exactly
/// `Sum[Product[a, c], Product[b, c]]`. For a tree that expansion still
/// rewrites, such as `a = Product[Sum[x, y], z]`, the two sides differ,
/// because the left side expands `a` first; and a sum-kind `c` would be
/// distributed over as well.
pub proof fn lemma_expand_distributes(a: TreeView, b: TreeView, c: TreeView)
    requires
        expand_t(a) == a,
        expand_t(b) == b,
        expand_t(c) == c,
        !(c.kind is Sum),
    ensures
        expand_t(prod2(sum2(a, b), c)) == sum2(prod2(a, c), prod2(b, c)),
{
    let s = seq![sum2(a, b), c];
    let ab = seq![a, b];
    // The children of the product expand to themselves.
    assert(ab.drop_last() =~= seq![a]);
    assert(seq![a].drop_last() =~= Seq::<TreeView>::empty());
    assert(expand_children(Seq::<TreeView>::empty()) =~= Seq::<TreeView>::empty());
    assert(expand_children(seq![a]) =~= seq![a]);
    assert(expand_children(ab) =~= ab);
    assert(expand_t(sum2(a, b)) =~~= sum2(a, b));
    assert(s.drop_last() =~= seq![sum2(a, b)]);
    assert(seq![sum2(a, b)].drop_last() =~= Seq::<TreeView>::empty());
    assert(expand_children(seq![sum2(a, b)]) =~= seq![sum2(a, b)]);
    assert(expand_children(s) =~= s);
    // The choice lists: one pick from the sum, then c.
    let empty_lists = seq![Seq::<TreeView>::empty()];
    assert(choice_lists(s, 2) == empty_lists);
    assert(empty_lists.drop_last() =~= Seq::<Seq<TreeView>>::empty());
    assert(prepend_all(c, Seq::<Seq<TreeView>>::empty()) == Seq::<Seq<TreeView>>::empty());
    assert(empty_lists.last() =~= Seq::<TreeView>::empty());
    assert(prepend_all(c, empty_lists) == Seq::<Seq<TreeView>>::empty().push(
        seq![c] + Seq::<TreeView>::empty(),
    ));
    assert(seq![c] + Seq::<TreeView>::empty() =~= seq![c]);
    assert(prepend_all(c, empty_lists) =~= seq![seq![c]]);
    assert(choice_lists(s, 1) == prepend_all(c, empty_lists));
    let rest = seq![seq![c]];
    assert(choice_lists(s, 1) =~= rest);
    // The options of the sum: a then b, each in front of [c].
    assert(rest.drop_last() =~= Seq::<Seq<TreeView>>::empty());
    assert(rest.last() =~= seq![c]);
    assert(prepend_all(a, rest) == prepend_all(a, Seq::<Seq<TreeView>>::empty()).push(
        seq![a] + seq![c],
    ));
    assert(prepend_all(a, Seq::<Seq<TreeView>>::empty()) == Seq::<Seq<TreeView>>::empty());
    assert(seq![a] + seq![c] =~= seq![a, c]);
    assert(prepend_all(a, rest) =~= seq![seq![a, c]]);
    assert(prepend_all(b, rest) == prepend_all(b, Seq::<Seq<TreeView>>::empty()).push(
        seq![b] + seq![c],
    ));
    assert(prepend_all(b, Seq::<Seq<TreeView>>::empty()) == Seq::<Seq<TreeView>>::empty());
    assert(seq![b] + seq![c] =~= seq![b, c]);
    assert(prepend_all(b, rest) =~= seq![seq![b, c]]);
    assert(ab.last() == b);
    assert(options_product(ab, rest) == options_product(seq![a], rest) + prepend_all(b, rest));
    assert(seq![a].last() == a);
    assert(options_product(seq![a], rest) == options_product(Seq::<TreeView>::empty(), rest)
        + prepend_all(a, rest));
    assert(options_product(Seq::<TreeView>::empty(), rest) == Seq::<Seq<TreeView>>::empty());
    assert(options_product(seq![a], rest) =~= seq![seq![a, c]]);
    assert(options_product(ab, rest) =~= seq![seq![a, c], seq![b, c]]);
    assert(s[0].kind is Sum);
    assert(choice_lists(s, 0) == options_product(s[0].children, choice_lists(s, 1)));
    assert(s[0].children =~= ab);
    assert(choice_lists(s, 0) =~= seq![seq![a, c], seq![b, c]]);
    // Wrapping the two lists gives the two products.
    let lists = seq![seq![a, c], seq![b, c]];
    assert(lists.drop_last() =~= seq![seq![a, c]]);
    assert(seq![seq![a, c]].drop_last() =~= Seq::<Seq<TreeView>>::empty());
    assert(wrap_products(Seq::<Seq<TreeView>>::empty()) == Seq::<TreeView>::empty());
    assert(wrap_products(seq![seq![a, c]]) =~= seq![prod2(a, c)]);
    assert(wrap_products(lists) =~= seq![prod2(a, c), prod2(b, c)]);
    assert(expand_t(prod2(sum2(a, b), c)) =~~= sum2(prod2(a, c), prod2(b, c)));
}

/// A term and its negation cancel: combining the sum `x + (-x)` groups
/// the pair into a zero-counted term, and folding constants then
/// collapses the whole sum to the constant zero — for every tree `x`.
pub proof fn lemma_cancel(x: TreeView)
    ensures
        reduce_t(combine_t(sum2(x, crate::rewrite::neg_view(x)))) == leaf(
            KindView::NaturalNumber(0),
        ),
{
    let nx = crate::rewrite::neg_view(x);
    let t = sum2(x, nx);
    let s = seq![x, nx];
    // Combine both children; the negation wraps its combined child.
    assert(s.drop_last() =~= seq![x]);
    assert(seq![x].drop_last() =~= Seq::<TreeView>::empty());
    assert(combine_children(Seq::<TreeView>::empty()) =~= Seq::<TreeView>::empty());
    assert(combine_children(seq![x]) =~= seq![combine_t(x)]);
    let cx = combine_t(x);
    assert(nx.children =~= seq![x]);
    assert(combine_t(nx) =~~= crate::rewrite::neg_view(cx));
    assert(combine_children(s) =~= seq![cx, crate::rewrite::neg_view(cx)]);
    // Canonicalize both: the negation wraps its canonical child.
    let cc = seq![cx, crate::rewrite::neg_view(cx)];
    assert(cc.drop_last() =~= seq![cx]);
    assert(seq![cx].drop_last() =~= Seq::<TreeView>::empty());
    assert(norm_each(Seq::<TreeView>::empty()) =~= Seq::<TreeView>::empty());
    assert(norm_each(seq![cx]) =~= seq![norm(cx)]);
    let p0 = norm(cx);
    assert(crate::rewrite::neg_view(cx).children =~= seq![cx]);
    assert(crate::sort::norm_children(Seq::<TreeView>::empty()) =~= Seq::<TreeView>::empty());
    assert(crate::sort::norm_children(seq![cx]) =~= seq![p0]);
    assert(norm(crate::rewrite::neg_view(cx)) =~~= crate::rewrite::neg_view(p0));
    let np0 = crate::rewrite::neg_view(p0);
    let p = seq![p0, np0];
    assert(norm_each(cc) =~= p);
    // Both canonical.
    lemma_norm_canonical(cx);
    assert(canonical(np0)) by {
        assert forall|i: int| 0 <= i < np0.children.len() implies canonical(
            #[trigger] np0.children[i],
        ) by {
            assert(np0.children[i] == p0);
        }
    }
    // The negation is one level taller than its child, so the two terms
    // differ; and the negation equals the negation of the first term.
    assert(crate::view::ht_seq(seq![p0]) == crate::view::ht(p0)) by {
        assert(seq![p0].drop_first() =~= Seq::<TreeView>::empty());
        assert(crate::view::ht_seq(Seq::<TreeView>::empty()) == 0);
    }
    assert(crate::view::ht(np0) == crate::view::ht(p0) + 1);
    assert(!crate::order::peq(np0, p0)) by {
        if crate::order::peq(np0, p0) {
            lemma_cmp_eq(np0, p0);
        }
    }
    lemma_cmp_refl(np0);
    assert(crate::order::peq(np0, crate::rewrite::neg_view(p0)));
    // The scan groups the pair with a net count of zero.
    let col0 = Seq::new(2int as nat, |k: int| false);
    let col1 = col0.update(1, true);
    assert(group_count(p, 0, 2, col1, 0) == (0int, col1));
    assert(group_count(p, 0, 1, col0, 1) == (0int, col1));
    assert(combine_scan(p, 2, col1) =~= Seq::<TreeView>::empty());
    assert(combine_scan(p, 1, col1) =~= Seq::<TreeView>::empty());
    let r0 = render_count(0, p0);
    assert(!col0[0]);
    assert(combine_scan(p, 0, col0) =~= seq![r0]);
    assert(Seq::new(p.len(), |k: int| false) =~= col0);
    assert(combine_t(t) =~~= (TreeView { kind: KindView::Sum, children: seq![r0] }));
    // The zero-counted group is a product with a zero constant, which
    // folding collapses to zero, and the sum of that one zero is zero.
    let zero = leaf(KindView::NaturalNumber(0));
    assert(r0 == (TreeView { kind: KindView::Product, children: seq![zero, p0] }));
    assert(reduce_t(zero) =~~= zero) by {
        assert(zero.children =~= Seq::<TreeView>::empty());
        assert(reduce_children(Seq::<TreeView>::empty()) =~= Seq::<TreeView>::empty());
    }
    let rp0 = reduce_t(p0);
    assert(seq![zero, p0].drop_last() =~= seq![zero]);
    assert(seq![zero].drop_last() =~= Seq::<TreeView>::empty());
    assert(reduce_children(seq![zero]) =~= seq![zero]);
    assert(reduce_children(seq![zero, p0]) =~= seq![zero, rp0]);
    let rc2 = seq![zero, rp0];
    assert(prod_consts(rc2) == 0) by {
        assert(rc2.drop_last() =~= seq![zero]);
        assert(seq![zero].drop_last() =~= Seq::<TreeView>::empty());
        assert(prod_consts(Seq::<TreeView>::empty()) == 1);
        assert(prod_consts(seq![zero]) == 0);
        let f: int = match crate::rewrite::const_of(rc2.last()) {
            Some(v) => v as int,
            None => 1,
        };
        assert(0 * f == 0) by (nonlinear_arith);
    }
    assert(reduce_t(r0) == zero);
    // The outer sum reduces to the constant zero.
    let ct = TreeView { kind: KindView::Sum, children: seq![r0] };
    assert(seq![r0].drop_last() =~= Seq::<TreeView>::empty());
    assert(reduce_children(seq![r0]) =~= seq![zero]);
    assert(sum_consts(seq![zero]) == 0) by {
        assert(seq![zero].drop_last() =~= Seq::<TreeView>::empty());
        assert(sum_consts(Seq::<TreeView>::empty()) == 0);
    }
    assert(nonconst(seq![zero]) =~= Seq::<TreeView>::empty()) by {
        assert(seq![zero].drop_last() =~= Seq::<TreeView>::empty());
        assert(nonconst(Seq::<TreeView>::empty()) =~= Seq::<TreeView>::empty());
    }
    assert(reduce_t(ct) == zero);
}

} // verus!