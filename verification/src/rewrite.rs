//! The rewrite passes: pure tree-to-tree transforms. Each pass has a
//! ghost counterpart that states exactly what it builds, and the
//! executable pass is proved to return precisely that tree.

use vstd::prelude::*;
use crate::view::{TreeView, KindView, wf, arity_ok};
use crate::math_kind::MathTypeName;
use crate::math_type::{MathType, views_of, lemma_views_of, leaf, natural_number, flip_sign};
use crate::order::{TreeOrd, cmp_trees};

verus! {

broadcast use
    crate::view::lemma_ht_seq_bound,
    crate::view::lemma_ht_child,
    crate::math_type::lemma_views_push,
;

/// `flatten_t`, applied to each tree of a sequence.
pub open spec fn flat_children(s: Seq<TreeView>) -> Seq<TreeView>
    decreases s,
{
    if s.len() == 0 {
        Seq::empty()
    } else {
        flat_children(s.drop_last()).push(flatten_t(s.last()))
    }
}

/// Splices into one list the children of each tree of kind `k`, keeping
/// every other tree as it stands.
pub open spec fn splice(s: Seq<TreeView>, k: KindView) -> Seq<TreeView>
    decreases s.len(),
{
    if s.len() == 0 {
        Seq::empty()
    } else {
        splice(s.drop_last(), k) + (if s.last().kind == k {
            s.last().children
        } else {
            seq![s.last()]
        })
    }
}

/// Associative re-association: in every sum, the children of sum children
/// are spliced in directly, and likewise for products; applied depth
/// first to the whole tree.
pub open spec fn flatten_t(t: TreeView) -> TreeView
    decreases t,
{
    let fc = flat_children(t.children);
    if t.kind == KindView::Sum || t.kind == KindView::Product {
        TreeView { kind: t.kind, children: splice(fc, t.kind) }
    } else {
        TreeView { kind: t.kind, children: fc }
    }
}

/// `flat_children` maps a sequence pointwise.
pub proof fn lemma_flat_children(s: Seq<TreeView>)
    ensures
        flat_children(s).len() == s.len(),
        forall|i: int| 0 <= i < s.len() ==> flat_children(s)[i] == flatten_t(#[trigger] s[i]),
    decreases s,
{
    if s.len() > 0 {
        lemma_flat_children(s.drop_last());
        assert forall|i: int| 0 <= i < s.len() implies flat_children(s)[i] == flatten_t(s[i]) by {
            if i < s.len() - 1 {
                assert(flat_children(s)[i] == flat_children(s.drop_last())[i]);
                assert(s.drop_last()[i] == s[i]);
            }
        }
    }
}

impl MathType {
    /// Returns this tree with every sum-in-sum and product-in-product
    /// spliced into its parent, depth first.
    pub fn flatten(&self) -> (r: MathType)
        ensures
            r@ == flatten_t(self@),
            wf(self@) ==> wf(r@),
        decreases *self,
    {
        let n = self.parameter.len();
        let ghost cs = self@.children;
        proof {
            lemma_views_of(self.parameter@);
            lemma_flat_children(cs);
        }
        let mut fc: Vec<MathType> = Vec::new();
        for i in 0..n
            invariant
                n == self.parameter.len(),
                cs == self@.children,
                cs.len() == n,
                forall|j: int| 0 <= j < n ==> #[trigger] self.parameter@[j]@ == cs[j],
                fc.len() == i,
                forall|j: int| 0 <= j < i ==> #[trigger] fc@[j]@ == flatten_t(cs[j]),
                wf(self@) ==> forall|j: int| 0 <= j < i ==> wf(#[trigger] fc@[j]@),
            decreases n - i,
        {
            fc.push(self.parameter[i].flatten());
        }
        let ghost fcs = flat_children(cs);
        if matches!(self.kind, MathTypeName::Sum | MathTypeName::Product) {
            let mut out: Vec<MathType> = Vec::new();
            proof {
                assert(fcs.take(0) =~= Seq::<TreeView>::empty());
                assert(views_of(out@) =~= splice(fcs.take(0), self@.kind));
            }
            for i in 0..n
                invariant
                    n == fc.len(),
                    fcs.len() == n,
                    self@.kind == KindView::Sum || self@.kind == KindView::Product,
                    forall|j: int| 0 <= j < n ==> #[trigger] fc@[j]@ == fcs[j],
                    wf(self@) ==> forall|j: int| 0 <= j < n ==> wf(#[trigger] fc@[j]@),
                    views_of(out@) == splice(fcs.take(i as int), self@.kind),
                    wf(self@) ==> forall|j: int|
                        0 <= j < out.len() ==> wf(#[trigger] out@[j]@),
                decreases n - i,
            {
                let ghost out0 = views_of(out@);
                proof {
                    lemma_views_of(out@);
                    assert(fcs.take(i + 1).drop_last() =~= fcs.take(i as int));
                    assert(fcs.take(i + 1).last() == fcs[i as int]);
                }
                if fc[i].kind.kind_eq(&self.kind) {
                    let m = fc[i].parameter.len();
                    proof {
                        lemma_views_of(fc@[i as int].parameter@);
                        assert(fcs[i as int] == fc@[i as int]@);
                        assert(fcs[i as int].children == views_of(fc@[i as int].parameter@));
                    }
                    for j in 0..m
                        invariant
                            n == fc.len(),
                            0 <= i < n,
                            m == fc@[i as int].parameter@.len(),
                            fc@[i as int]@ == fcs[i as int],
                            fcs[i as int].children.len() == m,
                            forall|q: int|
                                0 <= q < m ==> #[trigger] fc@[i as int].parameter@[q]@
                                    == fcs[i as int].children[q],
                            wf(self@) ==> wf(fcs[i as int]),
                            out.len() == out0.len() + j,
                            views_of(out@) == out0 + fcs[i as int].children.take(j as int),
                            wf(self@) ==> forall|q: int|
                                0 <= q < out.len() ==> wf(#[trigger] out@[q]@),
                        decreases m - j,
                    {
                        proof {
                            lemma_views_of(out@);
                            assert(fcs[i as int].children.take(j + 1) =~= fcs[i as int]
                                .children
                                .take(j as int)
                                .push(fcs[i as int].children[j as int]));
                        }
                        let ghost before = out@;
                        let elem = fc[i].parameter[j].clone();
                        proof {
                            assert(elem@ == fcs[i as int].children[j as int]);
                        }
                        out.push(elem);
                        proof {
                            lemma_views_of(out@);
                            assert(out@ == before.push(elem));
                            assert forall|q: int| 0 <= q < out@.len() implies views_of(out@)[q]
                                == (out0 + fcs[i as int].children.take(j + 1))[q] by {
                                if q < before.len() {
                                    assert(out@[q] == before[q]);
                                    assert(views_of(before)[q] == before[q]@);
                                }
                            }
                            assert(views_of(out@) =~= out0 + fcs[i as int].children.take(j + 1));
                        }
                    }
                    proof {
                        assert(fcs[i as int].children.take(m as int) =~= fcs[i as int].children);
                        assert(views_of(out@) == splice(fcs.take(i + 1), self@.kind));
                    }
                } else {
                    out.push(fc[i].clone());
                    proof {
                        lemma_views_of(out@);
                        assert(views_of(out@) =~= out0 + seq![fcs[i as int]]);
                        assert(views_of(out@) == splice(fcs.take(i + 1), self@.kind));
                    }
                }
            }
            proof {
                assert(fcs.take(n as int) =~= fcs);
            }
            let out_len = out.len();
            let r = MathType { kind: self.kind.clone(), parameter: out };
            proof {
                if wf(self@) {
                    lemma_views_of(r.parameter@);
                    assert(r@.children.len() == out_len);
                    assert(arity_ok(r@.kind, r@.children.len() as int));
                    assert forall|q: int| 0 <= q < r@.children.len() implies wf(
                        #[trigger] r@.children[q],
                    ) by {
                        assert(r@.children[q] == r.parameter@[q]@);
                    }
                    assert(wf(r@));
                }
            }
            r
        } else {
            proof {
                lemma_views_of(fc@);
                assert(views_of(fc@) =~= fcs);
            }
            let fc_len = fc.len();
            let r = MathType { kind: self.kind.clone(), parameter: fc };
            proof {
                if wf(self@) {
                    lemma_views_of(r.parameter@);
                    assert(r@.children.len() == fc_len);
                    assert(arity_ok(r@.kind, r@.children.len() as int));
                    assert forall|q: int| 0 <= q < r@.children.len() implies wf(
                        #[trigger] r@.children[q],
                    ) by {
                        assert(r@.children[q] == r.parameter@[q]@);
                    }
                    assert(wf(r@));
                }
            }
            r
        }
    }
}

/// The constant value a tree carries, if its node is a constant.
pub open spec fn const_of(t: TreeView) -> Option<u128> {
    match t.kind {
        KindView::NaturalNumber(v) => Some(v),
        _ => None,
    }
}

/// Clamps an integer into the range of `u128`.
pub open spec fn clamp128(n: int) -> u128 {
    if n > u128::MAX {
        u128::MAX as u128
    } else if n < 0 {
        0
    } else {
        n as u128
    }
}

/// `reduce_t`, applied to each tree of a sequence.
pub open spec fn reduce_children(s: Seq<TreeView>) -> Seq<TreeView>
    decreases s,
{
    if s.len() == 0 {
        Seq::empty()
    } else {
        reduce_children(s.drop_last()).push(reduce_t(s.last()))
    }
}

/// Exact sum of the constants among the trees of a sequence.
pub open spec fn sum_consts(s: Seq<TreeView>) -> int
    decreases s.len(),
{
    if s.len() == 0 {
        0
    } else {
        sum_consts(s.drop_last()) + (match const_of(s.last()) {
            Some(v) => v as int,
            None => 0,
        })
    }
}

/// Exact product of the constants among the trees of a sequence.
pub open spec fn prod_consts(s: Seq<TreeView>) -> int
    decreases s.len(),
{
    if s.len() == 0 {
        1
    } else {
        prod_consts(s.drop_last()) * (match const_of(s.last()) {
            Some(v) => v as int,
            None => 1,
        })
    }
}

/// The trees of a sequence that are not constants, in order.
pub open spec fn nonconst(s: Seq<TreeView>) -> Seq<TreeView>
    decreases s.len(),
{
    if s.len() == 0 {
        Seq::empty()
    } else if const_of(s.last()) is Some {
        nonconst(s.drop_last())
    } else {
        nonconst(s.drop_last()).push(s.last())
    }
}

/// Folds constants and removes neutral elements, bottom-up. In a sum the
/// constants merge into one leading constant, omitted when zero; in a
/// product they merge likewise, a zero collapsing the whole node; an
/// emptied sum or product becomes its neutral constant, a one-element one
/// its lone element. A negation of zero is zero and a double negation
/// unwraps. Folded constants saturate at the largest representable value.
pub open spec fn reduce_t(t: TreeView) -> TreeView
    decreases t,
{
    if t.kind == KindView::Sum {
        let rc = reduce_children(t.children);
        let cs = sum_consts(rc);
        let rest = nonconst(rc);
        let terms = if cs != 0 {
            seq![leaf(KindView::NaturalNumber(clamp128(cs)))] + rest
        } else {
            rest
        };
        if terms.len() == 0 {
            leaf(KindView::NaturalNumber(0))
        } else if terms.len() == 1 {
            terms[0]
        } else {
            TreeView { kind: KindView::Sum, children: terms }
        }
    } else if t.kind == KindView::Product {
        let rc = reduce_children(t.children);
        let cp = prod_consts(rc);
        let rest = nonconst(rc);
        if cp == 0 {
            leaf(KindView::NaturalNumber(0))
        } else {
            let factors = if cp != 1 {
                seq![leaf(KindView::NaturalNumber(clamp128(cp)))] + rest
            } else {
                rest
            };
            if factors.len() == 0 {
                leaf(KindView::NaturalNumber(1))
            } else if factors.len() == 1 {
                factors[0]
            } else {
                TreeView { kind: KindView::Product, children: factors }
            }
        }
    } else if t.kind == KindView::FlipSign && t.children.len() == 1 {
        let r0 = reduce_t(t.children[0]);
        if const_of(r0) == Some(0u128) {
            leaf(KindView::NaturalNumber(0))
        } else if r0.kind == KindView::FlipSign && r0.children.len() == 1 {
            r0.children[0]
        } else {
            TreeView { kind: KindView::FlipSign, children: seq![r0] }
        }
    } else {
        TreeView { kind: t.kind, children: reduce_children(t.children) }
    }
}

/// `reduce_children` maps a sequence pointwise.
pub proof fn lemma_reduce_children(s: Seq<TreeView>)
    ensures
        reduce_children(s).len() == s.len(),
        forall|i: int| 0 <= i < s.len() ==> reduce_children(s)[i] == reduce_t(#[trigger] s[i]),
    decreases s,
{
    if s.len() > 0 {
        lemma_reduce_children(s.drop_last());
        assert forall|i: int| 0 <= i < s.len() implies reduce_children(s)[i] == reduce_t(s[i]) by {
            if i < s.len() - 1 {
                assert(reduce_children(s)[i] == reduce_children(s.drop_last())[i]);
                assert(s.drop_last()[i] == s[i]);
            }
        }
    }
}

/// A sum of constants is never negative.
proof fn lemma_sum_consts_nonneg(s: Seq<TreeView>)
    ensures
        sum_consts(s) >= 0,
    decreases s.len(),
{
    if s.len() > 0 {
        lemma_sum_consts_nonneg(s.drop_last());
    }
}

/// A product of constants is never negative.
proof fn lemma_prod_consts_nonneg(s: Seq<TreeView>)
    ensures
        prod_consts(s) >= 0,
    decreases s.len(),
{
    if s.len() > 0 {
        lemma_prod_consts_nonneg(s.drop_last());
        let p = prod_consts(s.drop_last());
        let v: int = match const_of(s.last()) {
            Some(v) => v as int,
            None => 1,
        };
        assert(p * v >= 0) by (nonlinear_arith)
            requires
                p >= 0,
                v >= 0,
        ;
    }
}

/// Accumulating a clamped running sum is the same as clamping the exact
/// sum.
proof fn lemma_clamp_add_fold(p: int, v: u128)
    requires
        p >= 0,
    ensures
        clamp128(clamp128(p) as int + v as int) == clamp128(p + v as int),
{
}

/// Accumulating a clamped running product is the same as clamping the
/// exact product, the factors being non-negative.
proof fn lemma_clamp_mul_fold(p: int, v: u128)
    requires
        p >= 0,
    ensures
        clamp128(clamp128(p) as int * v as int) == clamp128(p * v as int),
{
    if p > u128::MAX {
        if v == 0 {
            assert(clamp128(p) as int * 0 == 0) by (nonlinear_arith);
            assert(p * 0 == 0) by (nonlinear_arith);
        } else {
            assert(u128::MAX as int * v as int >= u128::MAX as int) by (nonlinear_arith)
                requires
                    v as int >= 1,
            ;
            assert(p * v as int >= p) by (nonlinear_arith)
                requires
                    v as int >= 1,
                    p >= 0,
            ;
        }
    }
}

/// Adds with saturation at the largest `u128`.
fn sat_add_u128(a: u128, b: u128) -> (r: u128)
    ensures
        r == clamp128(a as int + b as int),
{
    match a.checked_add(b) {
        Some(r) => r,
        None => u128::MAX,
    }
}

/// Multiplies with saturation at the largest `u128`.
fn sat_mul_u128(a: u128, b: u128) -> (r: u128)
    ensures
        r == clamp128(a as int * b as int),
{
    match a.checked_mul(b) {
        Some(r) => r,
        None => u128::MAX,
    }
}

impl MathType {
    /// Returns this tree with constants folded and neutral elements
    /// removed, bottom-up: `0 + a` becomes `a`, `1 * a` becomes `a`,
    /// `0 * a` becomes `0`, constant children of a sum or product merge
    /// into one, an emptied node becomes its neutral constant, and
    /// `-0` and `--a` simplify. Merged constants saturate at the largest
    /// representable value.
    pub fn reduce_neutral(&self) -> (r: MathType)
        requires
            wf(self@),
        ensures
            r@ == reduce_t(self@),
            wf(r@),
        decreases *self,
    {
        let n = self.parameter.len();
        let ghost cs = self@.children;
        let ghost rc = reduce_children(cs);
        proof {
            lemma_views_of(self.parameter@);
            lemma_reduce_children(cs);
        }
        match &self.kind {
            MathTypeName::Sum => {
                let mut acc: u128 = 0;
                let mut rest: Vec<MathType> = Vec::new();
                proof {
                    assert(rc.take(0) =~= Seq::<TreeView>::empty());
                    assert(views_of(rest@) =~= nonconst(rc.take(0)));
                }
                for i in 0..n
                    invariant
                        n == self.parameter.len(),
                        wf(self@),
                        self@.kind == KindView::Sum,
                        cs == self@.children,
                        cs.len() == n,
                        rc == reduce_children(cs),
                        rc.len() == n,
                        forall|j: int| 0 <= j < n ==> #[trigger] self.parameter@[j]@ == cs[j],
                        forall|j: int| 0 <= j < n ==> rc[j] == reduce_t(#[trigger] cs[j]),
                        acc == clamp128(sum_consts(rc.take(i as int))),
                        views_of(rest@) == nonconst(rc.take(i as int)),
                        forall|j: int| 0 <= j < rest.len() ==> wf(#[trigger] rest@[j]@),
                    decreases n - i,
                {
                    let red = self.parameter[i].reduce_neutral();
                    proof {
                        lemma_views_of(rest@);
                        lemma_sum_consts_nonneg(rc.take(i as int));
                        assert(rc.take(i + 1).drop_last() =~= rc.take(i as int));
                        assert(rc.take(i + 1).last() == rc[i as int]);
                    }
                    match &red.kind {
                        MathTypeName::NaturalNumber(value) => {
                            proof {
                                lemma_clamp_add_fold(sum_consts(rc.take(i as int)), *value);
                            }
                            acc = sat_add_u128(acc, *value);
                        },
                        _ => {
                            rest.push(red);
                        },
                    }
                }
                proof {
                    assert(rc.take(n as int) =~= rc);
                    lemma_sum_consts_nonneg(rc);
                    lemma_views_of(rest@);
                }
                if acc != 0 {
                    let ghost before = rest@;
                    rest.insert(0, natural_number(acc));
                    proof {
                        lemma_views_of(rest@);
                        before.insert_ensures(0, rest@[0]);
                        assert(views_of(rest@) =~= seq![
                            leaf(KindView::NaturalNumber(clamp128(sum_consts(rc)))),
                        ] + views_of(before));
                    }
                }
                let ln = rest.len();
                if ln == 0 {
                    let r = natural_number(0);
                    proof {
                        assert(wf(r@));
                    }
                    r
                } else if ln == 1 {
                    let r = rest.remove(0);
                    proof {
                        assert(r@ == views_of(rest@.insert(0, r))[0]);
                    }
                    r
                } else {
                    let r = MathType { kind: MathTypeName::Sum, parameter: rest };
                    proof {
                        lemma_views_of(r.parameter@);
                        assert(r@.children.len() == ln);
                        assert forall|q: int| 0 <= q < r@.children.len() implies wf(
                            #[trigger] r@.children[q],
                        ) by {
                            assert(r@.children[q] == r.parameter@[q]@);
                        }
                        assert(wf(r@));
                    }
                    r
                }
            },
            MathTypeName::Product => {
                let mut acc: u128 = 1;
                let mut rest: Vec<MathType> = Vec::new();
                proof {
                    assert(rc.take(0) =~= Seq::<TreeView>::empty());
                    assert(views_of(rest@) =~= nonconst(rc.take(0)));
                }
                for i in 0..n
                    invariant
                        n == self.parameter.len(),
                        wf(self@),
                        self@.kind == KindView::Product,
                        cs == self@.children,
                        cs.len() == n,
                        rc == reduce_children(cs),
                        rc.len() == n,
                        forall|j: int| 0 <= j < n ==> #[trigger] self.parameter@[j]@ == cs[j],
                        forall|j: int| 0 <= j < n ==> rc[j] == reduce_t(#[trigger] cs[j]),
                        acc == clamp128(prod_consts(rc.take(i as int))),
                        views_of(rest@) == nonconst(rc.take(i as int)),
                        forall|j: int| 0 <= j < rest.len() ==> wf(#[trigger] rest@[j]@),
                    decreases n - i,
                {
                    let red = self.parameter[i].reduce_neutral();
                    proof {
                        lemma_views_of(rest@);
                        lemma_prod_consts_nonneg(rc.take(i as int));
                        assert(rc.take(i + 1).drop_last() =~= rc.take(i as int));
                        assert(rc.take(i + 1).last() == rc[i as int]);
                    }
                    match &red.kind {
                        MathTypeName::NaturalNumber(value) => {
                            proof {
                                lemma_clamp_mul_fold(prod_consts(rc.take(i as int)), *value);
                            }
                            acc = sat_mul_u128(acc, *value);
                        },
                        _ => {
                            rest.push(red);
                        },
                    }
                }
                proof {
                    assert(rc.take(n as int) =~= rc);
                    lemma_prod_consts_nonneg(rc);
                    lemma_views_of(rest@);
                }
                if acc == 0 {
                    let r = natural_number(0);
                    proof {
                        assert(wf(r@));
                    }
                    return r;
                }
                if acc != 1 {
                    let ghost before = rest@;
                    rest.insert(0, natural_number(acc));
                    proof {
                        lemma_views_of(rest@);
                        before.insert_ensures(0, rest@[0]);
                        assert(views_of(rest@) =~= seq![
                            leaf(KindView::NaturalNumber(clamp128(prod_consts(rc)))),
                        ] + views_of(before));
                    }
                }
                let ln = rest.len();
                if ln == 0 {
                    let r = natural_number(1);
                    proof {
                        assert(wf(r@));
                    }
                    r
                } else if ln == 1 {
                    let r = rest.remove(0);
                    proof {
                        assert(r@ == views_of(rest@.insert(0, r))[0]);
                    }
                    r
                } else {
                    let r = MathType { kind: MathTypeName::Product, parameter: rest };
                    proof {
                        lemma_views_of(r.parameter@);
                        assert(r@.children.len() == ln);
                        assert forall|q: int| 0 <= q < r@.children.len() implies wf(
                            #[trigger] r@.children[q],
                        ) by {
                            assert(r@.children[q] == r.parameter@[q]@);
                        }
                        assert(wf(r@));
                    }
                    r
                }
            },
            MathTypeName::FlipSign => {
                let mut red = self.parameter[0].reduce_neutral();
                let is_zero = match &red.kind {
                    MathTypeName::NaturalNumber(value) => *value == 0,
                    _ => false,
                };
                if is_zero {
                    let r = natural_number(0);
                    proof {
                        assert(wf(r@));
                    }
                    return r;
                }
                if matches!(&red.kind, MathTypeName::FlipSign) {
                    let ghost r0 = red@;
                    let ghost old_param = red.parameter@;
                    proof {
                        lemma_views_of(old_param);
                        assert(r0.children == views_of(old_param));
                        assert(r0.children.len() == 1);
                    }
                    let inner = red.parameter.remove(0);
                    proof {
                        assert(inner@ == r0.children[0]);
                        assert(r0 == reduce_t(cs[0]));
                        assert(reduce_t(self@) == r0.children[0]);
                    }
                    return inner;
                }
                let ghost redv = red@;
                let mut v: Vec<MathType> = Vec::new();
                v.push(red);
                let ghost vv = v@;
                let r = MathType { kind: MathTypeName::FlipSign, parameter: v };
                proof {
                    lemma_views_of(vv);
                    assert(views_of(vv) =~= seq![redv]);
                    assert(wf(r@));
                }
                r
            },
            _ => {
                let mut out: Vec<MathType> = Vec::new();
                for i in 0..n
                    invariant
                        n == self.parameter.len(),
                        wf(self@),
                        self@.kind == self.kind@,
                        !(self@.kind is Sum) && !(self@.kind is Product),
                        cs == self@.children,
                        cs.len() == n,
                        forall|j: int| 0 <= j < n ==> #[trigger] self.parameter@[j]@ == cs[j],
                        out.len() == i,
                        forall|j: int| 0 <= j < i ==> #[trigger] out@[j]@ == reduce_t(cs[j]),
                        forall|j: int| 0 <= j < i ==> wf(#[trigger] out@[j]@),
                    decreases n - i,
                {
                    out.push(self.parameter[i].reduce_neutral());
                }
                let r = MathType { kind: self.kind.clone(), parameter: out };
                proof {
                    lemma_views_of(r.parameter@);
                    assert(views_of(r.parameter@) =~= reduce_children(cs));
                    assert(r@.children.len() == n);
                    assert forall|q: int| 0 <= q < r@.children.len() implies wf(
                        #[trigger] r@.children[q],
                    ) by {
                        assert(r@.children[q] == r.parameter@[q]@);
                    }
                    assert(wf(r@));
                }
                r
            },
        }
    }
}

/// `expand_t`, applied to each tree of a sequence.
pub open spec fn expand_children(s: Seq<TreeView>) -> Seq<TreeView>
    decreases s,
{
    if s.len() == 0 {
        Seq::empty()
    } else {
        expand_children(s.drop_last()).push(expand_t(s.last()))
    }
}

/// Puts `x` in front of every list of `ls`.
pub open spec fn prepend_all(x: TreeView, ls: Seq<Seq<TreeView>>) -> Seq<Seq<TreeView>>
    decreases ls.len(),
{
    if ls.len() == 0 {
        Seq::empty()
    } else {
        prepend_all(x, ls.drop_last()).push(seq![x] + ls.last())
    }
}

/// Puts the whole prefix `pre` in front of every list of `ls`.
pub open spec fn prepend_seq(pre: Seq<TreeView>, ls: Seq<Seq<TreeView>>) -> Seq<Seq<TreeView>>
    decreases ls.len(),
{
    if ls.len() == 0 {
        Seq::empty()
    } else {
        prepend_seq(pre, ls.drop_last()).push(pre + ls.last())
    }
}

/// One block per term: every list of `rest`, headed by that term, the
/// terms in order.
pub open spec fn options_product(terms: Seq<TreeView>, rest: Seq<Seq<TreeView>>) -> Seq<
    Seq<TreeView>,
>
    decreases terms.len(),
{
    if terms.len() == 0 {
        Seq::empty()
    } else {
        options_product(terms.drop_last(), rest) + prepend_all(terms.last(), rest)
    }
}

/// All ways of choosing, from position `i` on, one summand from each
/// sum-kind tree and each other tree itself, each choice written out as
/// one factor list.
pub open spec fn choice_lists(s: Seq<TreeView>, i: int) -> Seq<Seq<TreeView>>
    decreases s.len() - i,
{
    if i < 0 || i >= s.len() {
        seq![Seq::<TreeView>::empty()]
    } else {
        let rest = choice_lists(s, i + 1);
        if s[i].kind == KindView::Sum {
            options_product(s[i].children, rest)
        } else {
            prepend_all(s[i], rest)
        }
    }
}

/// Turns each factor list into a product node.
pub open spec fn wrap_products(ls: Seq<Seq<TreeView>>) -> Seq<TreeView>
    decreases ls.len(),
{
    if ls.len() == 0 {
        Seq::empty()
    } else {
        wrap_products(ls.drop_last()).push(
            TreeView { kind: KindView::Product, children: ls.last() },
        )
    }
}

/// Distributes products over sums: an expanded product becomes the sum of
/// every combination of one summand per sum-kind factor, the other
/// factors kept; every other kind recurses structurally.
pub open spec fn expand_t(t: TreeView) -> TreeView
    decreases t,
{
    if t.kind == KindView::Product {
        TreeView {
            kind: KindView::Sum,
            children: wrap_products(choice_lists(expand_children(t.children), 0)),
        }
    } else {
        TreeView { kind: t.kind, children: expand_children(t.children) }
    }
}

/// `expand_children` maps a sequence pointwise.
pub proof fn lemma_expand_children(s: Seq<TreeView>)
    ensures
        expand_children(s).len() == s.len(),
        forall|i: int| 0 <= i < s.len() ==> expand_children(s)[i] == expand_t(#[trigger] s[i]),
    decreases s,
{
    if s.len() > 0 {
        lemma_expand_children(s.drop_last());
        assert forall|i: int| 0 <= i < s.len() implies expand_children(s)[i] == expand_t(s[i]) by {
            if i < s.len() - 1 {
                assert(expand_children(s)[i] == expand_children(s.drop_last())[i]);
                assert(s.drop_last()[i] == s[i]);
            }
        }
    }
}

/// `prepend_all` maps a list sequence pointwise.
pub proof fn lemma_prepend_all(x: TreeView, ls: Seq<Seq<TreeView>>)
    ensures
        prepend_all(x, ls).len() == ls.len(),
        forall|k: int| 0 <= k < ls.len() ==> prepend_all(x, ls)[k] == seq![x] + #[trigger] ls[k],
    decreases ls.len(),
{
    if ls.len() > 0 {
        lemma_prepend_all(x, ls.drop_last());
        assert forall|k: int| 0 <= k < ls.len() implies prepend_all(x, ls)[k] == seq![x]
            + ls[k] by {
            if k < ls.len() - 1 {
                assert(prepend_all(x, ls)[k] == prepend_all(x, ls.drop_last())[k]);
                assert(ls.drop_last()[k] == ls[k]);
            }
        }
    }
}

/// `prepend_seq` maps a list sequence pointwise.
pub proof fn lemma_prepend_seq(pre: Seq<TreeView>, ls: Seq<Seq<TreeView>>)
    ensures
        prepend_seq(pre, ls).len() == ls.len(),
        forall|k: int| 0 <= k < ls.len() ==> prepend_seq(pre, ls)[k] == pre + #[trigger] ls[k],
    decreases ls.len(),
{
    if ls.len() > 0 {
        lemma_prepend_seq(pre, ls.drop_last());
        assert forall|k: int| 0 <= k < ls.len() implies prepend_seq(pre, ls)[k] == pre + ls[k] by {
            if k < ls.len() - 1 {
                assert(prepend_seq(pre, ls)[k] == prepend_seq(pre, ls.drop_last())[k]);
                assert(ls.drop_last()[k] == ls[k]);
            }
        }
    }
}

/// `wrap_products` maps a list sequence pointwise.
pub proof fn lemma_wrap_products(ls: Seq<Seq<TreeView>>)
    ensures
        wrap_products(ls).len() == ls.len(),
        forall|k: int|
            0 <= k < ls.len() ==> wrap_products(ls)[k] == (TreeView {
                kind: KindView::Product,
                children: #[trigger] ls[k],
            }),
    decreases ls.len(),
{
    if ls.len() > 0 {
        lemma_wrap_products(ls.drop_last());
        assert forall|k: int| 0 <= k < ls.len() implies wrap_products(ls)[k] == (TreeView {
            kind: KindView::Product,
            children: ls[k],
        }) by {
            if k < ls.len() - 1 {
                assert(wrap_products(ls)[k] == wrap_products(ls.drop_last())[k]);
                assert(ls.drop_last()[k] == ls[k]);
            }
        }
    }
}

/// A prefix in front of head-extended lists is the extended prefix in
/// front of the lists.
pub proof fn lemma_prepend_compose(pre: Seq<TreeView>, x: TreeView, ls: Seq<Seq<TreeView>>)
    ensures
        prepend_seq(pre, prepend_all(x, ls)) == prepend_seq(pre.push(x), ls),
{
    lemma_prepend_all(x, ls);
    lemma_prepend_seq(pre, prepend_all(x, ls));
    lemma_prepend_seq(pre.push(x), ls);
    assert forall|k: int| 0 <= k < ls.len() implies prepend_seq(pre, prepend_all(x, ls))[k]
        == prepend_seq(pre.push(x), ls)[k] by {
        assert(prepend_seq(pre, prepend_all(x, ls))[k] == pre + (seq![x] + ls[k]));
        assert(prepend_seq(pre.push(x), ls)[k] == pre.push(x) + ls[k]);
        assert(pre + (seq![x] + ls[k]) =~= pre.push(x) + ls[k]);
    }
    assert(prepend_seq(pre, prepend_all(x, ls)) =~= prepend_seq(pre.push(x), ls));
}

/// Prefixing distributes over concatenation of list sequences.
pub proof fn lemma_prepend_seq_concat(pre: Seq<TreeView>, a: Seq<Seq<TreeView>>, b: Seq<
    Seq<TreeView>,
>)
    ensures
        prepend_seq(pre, a + b) == prepend_seq(pre, a) + prepend_seq(pre, b),
{
    lemma_prepend_seq(pre, a + b);
    lemma_prepend_seq(pre, a);
    lemma_prepend_seq(pre, b);
    assert forall|k: int| 0 <= k < a.len() + b.len() implies prepend_seq(pre, a + b)[k]
        == (prepend_seq(pre, a) + prepend_seq(pre, b))[k] by {
        if k < a.len() {
            assert((a + b)[k] == a[k]);
        } else {
            assert((a + b)[k] == b[k - a.len()]);
        }
    }
    assert(prepend_seq(pre, a + b) =~= prepend_seq(pre, a) + prepend_seq(pre, b));
}

/// Wrapping distributes over concatenation of list sequences.
pub proof fn lemma_wrap_concat(a: Seq<Seq<TreeView>>, b: Seq<Seq<TreeView>>)
    ensures
        wrap_products(a + b) == wrap_products(a) + wrap_products(b),
{
    lemma_wrap_products(a + b);
    lemma_wrap_products(a);
    lemma_wrap_products(b);
    assert forall|k: int| 0 <= k < a.len() + b.len() implies wrap_products(a + b)[k]
        == (wrap_products(a) + wrap_products(b))[k] by {
        if k < a.len() {
            assert((a + b)[k] == a[k]);
        } else {
            assert((a + b)[k] == b[k - a.len()]);
        }
    }
    assert(wrap_products(a + b) =~= wrap_products(a) + wrap_products(b));
}

/// Every tree of the sequence is well formed.
pub open spec fn all_wf(s: Seq<TreeView>) -> bool {
    forall|i: int| 0 <= i < s.len() ==> wf(#[trigger] s[i])
}

/// A prefix of nothing changes nothing.
proof fn lemma_prepend_seq_empty(ls: Seq<Seq<TreeView>>)
    ensures
        prepend_seq(Seq::empty(), ls) == ls,
{
    lemma_prepend_seq(Seq::empty(), ls);
    assert forall|k: int| 0 <= k < ls.len() implies prepend_seq(Seq::empty(), ls)[k] == ls[k] by {
        assert(Seq::empty() + ls[k] =~= ls[k]);
    }
    assert(prepend_seq(Seq::empty(), ls) =~= ls);
}

/// Appends to `list` one product node for every way of completing the
/// factors gathered in `current` with choices from `para[index..]`,
/// leaving `current` as it was.
fn backtrack_sums(para: &Vec<MathType>, index: usize, current: &mut Vec<MathType>,
    list: &mut Vec<MathType>)
    requires
        index <= para.len(),
    ensures
        final(current)@ == old(current)@,
        views_of(final(list)@) == views_of(old(list)@) + wrap_products(
            prepend_seq(
                views_of(old(current)@),
                choice_lists(views_of(para@), index as int),
            ),
        ),
        all_wf(views_of(para@)) && all_wf(views_of(old(current)@)) && all_wf(
            views_of(old(list)@),
        ) ==> all_wf(views_of(final(list)@)),
    decreases para.len() - index,
{
    let ghost pv = views_of(para@);
    let ghost cur0 = current@;
    let ghost cv = views_of(current@);
    let ghost lv0 = views_of(list@);
    proof {
        lemma_views_of(para@);
        lemma_views_of(current@);
        lemma_views_of(list@);
    }
    if index == para.len() {
        let mut combo: Vec<MathType> = Vec::new();
        let m = current.len();
        for k in 0..m
            invariant
                m == current.len(),
                current@ == cur0,
                cv == views_of(cur0),
                cv.len() == m,
                forall|q: int| 0 <= q < m ==> #[trigger] current@[q]@ == cv[q],
                combo.len() == k,
                views_of(combo@) == cv.take(k as int),
            decreases m - k,
        {
            proof {
                assert(cv.take(k + 1) =~= cv.take(k as int).push(cv[k as int]));
            }
            combo.push(current[k].clone());
        }
        proof {
            assert(cv.take(m as int) =~= cv);
        }
        let node = MathType { kind: MathTypeName::Product, parameter: combo };
        proof {
            assert(node@ == (TreeView { kind: KindView::Product, children: cv }));
        }
        list.push(node);
        proof {
            assert(choice_lists(pv, index as int) == seq![Seq::<TreeView>::empty()]);
            let single = seq![Seq::<TreeView>::empty()];
            assert(single.drop_last() =~= Seq::<Seq<TreeView>>::empty());
            assert(prepend_seq(cv, Seq::<Seq<TreeView>>::empty()) == Seq::<Seq<TreeView>>::empty());
            assert(single.last() == Seq::<TreeView>::empty());
            assert(prepend_seq(cv, single) == Seq::<Seq<TreeView>>::empty().push(
                cv + Seq::<TreeView>::empty(),
            ));
            assert(cv + Seq::<TreeView>::empty() =~= cv);
            assert(prepend_seq(cv, single) =~= seq![cv]);
            let wrapped = wrap_products(seq![cv]);
            assert(wrap_products(Seq::<Seq<TreeView>>::empty()) == Seq::<TreeView>::empty());
            assert(seq![cv].drop_last() =~= Seq::<Seq<TreeView>>::empty());
            assert(seq![cv].last() == cv);
            assert(wrapped == Seq::<TreeView>::empty().push(
                TreeView { kind: KindView::Product, children: cv },
            ));
            assert(wrapped =~= seq![TreeView { kind: KindView::Product, children: cv }]);
            assert(views_of(list@) =~= lv0 + wrapped);
            assert forall|q: int|
                0 <= q < views_of(list@).len() && all_wf(pv) && all_wf(cv) && all_wf(lv0) implies wf(
                #[trigger] views_of(list@)[q],
            ) by {
                if q < lv0.len() {
                    assert(views_of(list@)[q] == lv0[q]);
                } else {
                    assert(views_of(list@)[q] == node@);
                    assert(arity_ok(KindView::Product, cv.len() as int));
                }
            }
        }
        return ;
    }
    let ghost rest = choice_lists(pv, index as int + 1);
    if matches!(&para[index].kind, MathTypeName::Sum) {
        let m = para[index].parameter.len();
        let ghost terms = pv[index as int].children;
        proof {
            lemma_views_of(para@[index as int].parameter@);
            assert(pv[index as int] == para@[index as int]@);
            assert(terms == views_of(para@[index as int].parameter@));
            assert(options_product(terms.take(0), rest) =~= Seq::<Seq<TreeView>>::empty());
            assert(prepend_seq(cv, Seq::<Seq<TreeView>>::empty()) =~= Seq::<Seq<TreeView>>::empty());
            assert(wrap_products(Seq::<Seq<TreeView>>::empty()) =~= Seq::<TreeView>::empty());
            assert(views_of(list@) =~= lv0 + wrap_products(
                prepend_seq(cv, options_product(terms.take(0), rest)),
            ));
        }
        for j in 0..m
            invariant
                index < para.len(),
                m == para@[index as int].parameter@.len(),
                pv == views_of(para@),
                pv.len() == para@.len(),
                forall|q: int| 0 <= q < para@.len() ==> #[trigger] para@[q]@ == pv[q],
                pv[index as int].kind == KindView::Sum,
                terms == pv[index as int].children,
                terms.len() == m,
                forall|q: int|
                    0 <= q < m ==> #[trigger] para@[index as int].parameter@[q]@ == terms[q],
                current@ == cur0,
                cv == views_of(cur0),
                rest == choice_lists(pv, index as int + 1),
                views_of(list@) == lv0 + wrap_products(
                    prepend_seq(cv, options_product(terms.take(j as int), rest)),
                ),
                all_wf(pv) && all_wf(cv) && all_wf(lv0) ==> all_wf(views_of(list@)),
            decreases m - j,
        {
            let ghost lcur = views_of(list@);
            let choice = para[index].parameter[j].clone();
            proof {
                assert(choice@ == terms[j as int]);
                if all_wf(pv) {
                    assert(wf(pv[index as int]));
                    assert(wf(terms[j as int]));
                }
                assert(views_of(cur0.push(choice)) == cv.push(terms[j as int]));
            }
            current.push(choice);
            backtrack_sums(para, index + 1, current, list);
            let ghost popped = current@;
            let _ = current.pop();
            proof {
                assert(current@ =~= cur0);
                lemma_prepend_compose(cv, terms[j as int], rest);
                assert(options_product(terms.take(j + 1), rest) == options_product(
                    terms.take(j as int),
                    rest,
                ) + prepend_all(terms[j as int], rest)) by {
                    assert(terms.take(j + 1).drop_last() =~= terms.take(j as int));
                    assert(terms.take(j + 1).last() == terms[j as int]);
                }
                lemma_prepend_seq_concat(
                    cv,
                    options_product(terms.take(j as int), rest),
                    prepend_all(terms[j as int], rest),
                );
                lemma_wrap_concat(
                    prepend_seq(cv, options_product(terms.take(j as int), rest)),
                    prepend_seq(cv, prepend_all(terms[j as int], rest)),
                );
                assert(views_of(list@) =~= lv0 + wrap_products(
                    prepend_seq(cv, options_product(terms.take(j + 1), rest)),
                ));
                if all_wf(pv) && all_wf(cv) && all_wf(lv0) {
                    assert forall|q: int| 0 <= q < cv.push(terms[j as int]).len() implies wf(
                        #[trigger] cv.push(terms[j as int])[q],
                    ) by {
                        if q < cv.len() {
                            assert(cv.push(terms[j as int])[q] == cv[q]);
                        }
                    }
                }
            }
        }
        proof {
            assert(terms.take(m as int) =~= terms);
            assert(choice_lists(pv, index as int) == options_product(terms, rest));
        }
    } else {
        let choice = para[index].clone();
        proof {
            assert(choice@ == pv[index as int]);
            assert(views_of(cur0.push(choice)) == cv.push(pv[index as int]));
            if all_wf(pv) && all_wf(cv) {
                assert forall|q: int| 0 <= q < cv.push(pv[index as int]).len() implies wf(
                    #[trigger] cv.push(pv[index as int])[q],
                ) by {
                    if q < cv.len() {
                        assert(cv.push(pv[index as int])[q] == cv[q]);
                    }
                }
            }
        }
        current.push(choice);
        backtrack_sums(para, index + 1, current, list);
        let _ = current.pop();
        proof {
            assert(current@ =~= cur0);
            lemma_prepend_compose(cv, pv[index as int], rest);
            assert(choice_lists(pv, index as int) == prepend_all(pv[index as int], rest));
        }
    }
}

impl MathType {
    /// Returns this tree with every product distributed over its
    /// sum-valued factors: the product becomes a sum holding one product
    /// per combination of picked summands. Other kinds recurse
    /// structurally. The number of combinations is the product of the
    /// sum sizes; growth is expected.
    pub fn expand(&self) -> (r: MathType)
        ensures
            r@ == expand_t(self@),
            wf(self@) ==> wf(r@),
        decreases *self,
    {
        let n = self.parameter.len();
        let ghost cs = self@.children;
        proof {
            lemma_views_of(self.parameter@);
            lemma_expand_children(cs);
        }
        let mut ec: Vec<MathType> = Vec::new();
        for i in 0..n
            invariant
                n == self.parameter.len(),
                cs == self@.children,
                cs.len() == n,
                forall|j: int| 0 <= j < n ==> #[trigger] self.parameter@[j]@ == cs[j],
                ec.len() == i,
                forall|j: int| 0 <= j < i ==> #[trigger] ec@[j]@ == expand_t(cs[j]),
                wf(self@) ==> forall|j: int| 0 <= j < i ==> wf(#[trigger] ec@[j]@),
            decreases n - i,
        {
            ec.push(self.parameter[i].expand());
        }
        let ghost ecs = expand_children(cs);
        proof {
            lemma_views_of(ec@);
            assert(views_of(ec@) =~= ecs);
        }
        if matches!(self.kind, MathTypeName::Product) {
            let mut current: Vec<MathType> = Vec::new();
            let mut list: Vec<MathType> = Vec::new();
            proof {
                assert(views_of(current@) =~= Seq::<TreeView>::empty());
                assert(views_of(list@) =~= Seq::<TreeView>::empty());
            }
            backtrack_sums(&ec, 0, &mut current, &mut list);
            proof {
                lemma_prepend_seq_empty(choice_lists(ecs, 0));
                assert(views_of(list@) =~= wrap_products(choice_lists(ecs, 0)));
            }
            let list_len = list.len();
            let r = MathType { kind: MathTypeName::Sum, parameter: list };
            proof {
                lemma_views_of(r.parameter@);
                if wf(self@) {
                    assert(all_wf(ecs));
                    assert(all_wf(views_of(r.parameter@)));
                    assert(r@.children.len() == list_len);
                    assert(arity_ok(r@.kind, r@.children.len() as int));
                    assert(wf(r@));
                }
            }
            r
        } else {
            let ec_len = ec.len();
            let r = MathType { kind: self.kind.clone(), parameter: ec };
            proof {
                lemma_views_of(r.parameter@);
                if wf(self@) {
                    assert(r@.children.len() == ec_len);
                    assert(arity_ok(r@.kind, r@.children.len() as int));
                    assert forall|q: int| 0 <= q < r@.children.len() implies wf(
                        #[trigger] r@.children[q],
                    ) by {
                        assert(r@.children[q] == r.parameter@[q]@);
                    }
                    assert(wf(r@));
                }
            }
            r
        }
    }
}

/// `combine_t`, applied to each tree of a sequence.
pub open spec fn combine_children(s: Seq<TreeView>) -> Seq<TreeView>
    decreases s,
{
    if s.len() == 0 {
        Seq::empty()
    } else {
        combine_children(s.drop_last()).push(combine_t(s.last()))
    }
}

/// `norm`, applied to each tree of a sequence.
pub open spec fn norm_each(s: Seq<TreeView>) -> Seq<TreeView>
    decreases s.len(),
{
    if s.len() == 0 {
        Seq::empty()
    } else {
        norm_each(s.drop_last()).push(crate::sort::norm(s.last()))
    }
}

/// The negation of a tree.
pub open spec fn neg_view(t: TreeView) -> TreeView {
    TreeView { kind: KindView::FlipSign, children: seq![t] }
}

/// What a net count of a term becomes: the bare term for one, a product
/// with the count for any other non-negative net, and a product with the
/// magnitude and the negated term for a negative net.
pub open spec fn render_count(cnt: int, t: TreeView) -> TreeView {
    if cnt == 1 {
        t
    } else if cnt >= 0 {
        TreeView {
            kind: KindView::Product,
            children: seq![leaf(KindView::NaturalNumber(cnt as u128)), t],
        }
    } else {
        TreeView {
            kind: KindView::Product,
            children: seq![leaf(KindView::NaturalNumber((-cnt) as u128)), neg_view(t)],
        }
    }
}

/// Walks the terms after position `i`, counting, against the term at `i`,
/// the equal ones up and the negated ones down, and marking each matched
/// term as spoken for.
pub open spec fn group_count(p: Seq<TreeView>, i: int, j: int, col: Seq<bool>, cnt: int) -> (
    int,
    Seq<bool>,
)
    decreases p.len() - j,
{
    if !(0 <= j < p.len()) {
        (cnt, col)
    } else if crate::order::peq(p[j], p[i]) {
        group_count(p, i, j + 1, col.update(j, true), cnt + 1)
    } else if crate::order::peq(p[j], neg_view(p[i])) || crate::order::peq(neg_view(p[j]), p[i]) {
        group_count(p, i, j + 1, col.update(j, true), cnt - 1)
    } else {
        group_count(p, i, j + 1, col, cnt)
    }
}

/// The combined terms from position `i` on: each not-yet-matched term is
/// rendered with its net count, terms spoken for are passed over.
pub open spec fn combine_scan(p: Seq<TreeView>, i: int, col: Seq<bool>) -> Seq<TreeView>
    decreases p.len() - i,
{
    if !(0 <= i < p.len()) {
        Seq::empty()
    } else if 0 <= i < col.len() && col[i] {
        combine_scan(p, i + 1, col)
    } else {
        let g = group_count(p, i, i + 1, col, 1);
        seq![render_count(g.0, p[i])] + combine_scan(p, i + 1, g.1)
    }
}

/// Groups the like terms of every sum: each child combined and made
/// canonical, then runs of equal terms counted up and of negated terms
/// counted down, a net count other than one rewritten as a product with
/// that count. Other kinds recurse structurally.
pub open spec fn combine_t(t: TreeView) -> TreeView
    decreases t,
{
    if t.kind == KindView::Sum {
        let p = norm_each(combine_children(t.children));
        TreeView { kind: KindView::Sum, children: combine_scan(p, 0, Seq::new(p.len(), |k| false)) }
    } else {
        TreeView { kind: t.kind, children: combine_children(t.children) }
    }
}

/// `combine_children` maps a sequence pointwise.
pub proof fn lemma_combine_children(s: Seq<TreeView>)
    ensures
        combine_children(s).len() == s.len(),
        forall|i: int| 0 <= i < s.len() ==> combine_children(s)[i] == combine_t(#[trigger] s[i]),
    decreases s,
{
    if s.len() > 0 {
        lemma_combine_children(s.drop_last());
        assert forall|i: int| 0 <= i < s.len() implies combine_children(s)[i] == combine_t(
            s[i],
        ) by {
            if i < s.len() - 1 {
                assert(combine_children(s)[i] == combine_children(s.drop_last())[i]);
                assert(s.drop_last()[i] == s[i]);
            }
        }
    }
}

/// `norm_each` maps a sequence pointwise.
pub proof fn lemma_norm_each(s: Seq<TreeView>)
    ensures
        norm_each(s).len() == s.len(),
        forall|i: int|
            0 <= i < s.len() ==> norm_each(s)[i] == crate::sort::norm(#[trigger] s[i]),
    decreases s,
{
    if s.len() > 0 {
        lemma_norm_each(s.drop_last());
        assert forall|i: int| 0 <= i < s.len() implies norm_each(s)[i] == crate::sort::norm(
            s[i],
        ) by {
            if i < s.len() - 1 {
                assert(norm_each(s)[i] == norm_each(s.drop_last())[i]);
                assert(s.drop_last()[i] == s[i]);
            }
        }
    }
}

impl MathType {
    /// Returns this tree with like terms of every sum grouped: each term
    /// combined and made canonical, runs of equal terms counted up and of
    /// negated terms counted down, and a net count other than one written
    /// as a product of the count — of its magnitude and the negated term,
    /// for a negative net — with the term.
    pub fn combine(&self) -> (r: MathType)
        requires
            wf(self@),
        ensures
            r@ == combine_t(self@),
            wf(r@),
        decreases *self,
    {
        let n = self.parameter.len();
        let ghost cs = self@.children;
        proof {
            lemma_views_of(self.parameter@);
            lemma_combine_children(cs);
        }
        if matches!(&self.kind, MathTypeName::Sum) {
            let ghost cc = combine_children(cs);
            let ghost p = norm_each(cc);
            proof {
                lemma_norm_each(cc);
            }
            let mut pvec: Vec<MathType> = Vec::new();
            for i in 0..n
                invariant
                    n == self.parameter.len(),
                    wf(self@),
                    self@.kind == KindView::Sum,
                    cs == self@.children,
                    cs.len() == n,
                    cc == combine_children(cs),
                    p == norm_each(cc),
                    p.len() == n,
                    forall|j: int| 0 <= j < n ==> #[trigger] self.parameter@[j]@ == cs[j],
                    forall|j: int| 0 <= j < n ==> p[j] == crate::sort::norm(
                        combine_t(#[trigger] cs[j]),
                    ),
                    pvec.len() == i,
                    forall|j: int| 0 <= j < i ==> #[trigger] pvec@[j]@ == p[j],
                    forall|j: int| 0 <= j < i ==> wf(#[trigger] pvec@[j]@),
                decreases n - i,
            {
                let mut c = self.parameter[i].combine();
                proof {
                    crate::sort::lemma_norm_wf(c@);
                }
                c.sort();
                pvec.push(c);
            }
            let n2 = pvec.len();
            let mut collected: Vec<bool> = Vec::new();
            for i in 0..n2
                invariant
                    collected.len() == i,
                    forall|q: int| 0 <= q < i ==> #[trigger] collected@[q] == false,
                decreases n2 - i,
            {
                collected.push(false);
            }
            let ghost col0 = collected@;
            proof {
                assert(col0 =~= Seq::new(p.len(), |k: int| false));
                assert forall|q: int| 0 <= q < n2 implies wf(#[trigger] p[q]) by {
                    assert(pvec@[q]@ == p[q]);
                }
            }
            let mut out: Vec<MathType> = Vec::new();
            for i in 0..n2
                invariant
                    n2 == pvec.len() && n2 == n,
                    p.len() == n2,
                    collected.len() == n2,
                    forall|q: int| 0 <= q < n2 ==> #[trigger] pvec@[q]@ == p[q],
                    forall|q: int| 0 <= q < n2 ==> wf(#[trigger] p[q]),
                    forall|q: int| 0 <= q < out.len() ==> wf(#[trigger] out@[q]@),
                    combine_scan(p, 0, col0) == views_of(out@) + combine_scan(
                        p,
                        i as int,
                        collected@,
                    ),
                decreases n2 - i,
            {
                let ghost col_start = collected@;
                let ghost out_start = views_of(out@);
                let is_col = collected[i];
                if !is_col {
                    let neg_i = flip_sign(pvec[i].clone());
                    let mut cnt: i128 = 1;
                    let mut j = i + 1;
                    while j < n2
                        invariant
                            i < j <= n2 || j == i + 1,
                            j <= n2,
                            i < n2,
                            n2 == pvec.len(),
                            p.len() == n2,
                            collected.len() == n2,
                            forall|q: int| 0 <= q < n2 ==> #[trigger] pvec@[q]@ == p[q],
                            neg_i@ == neg_view(p[i as int]),
                            -(j as int) <= cnt <= j as int + 1,
                            group_count(p, i as int, j as int, collected@, cnt as int)
                                == group_count(p, i as int, i as int + 1, col_start, 1),
                        decreases n2 - j,
                    {
                        let ghost col_j = collected@;
                        let ghost cnt_j = cnt as int;
                        let c_eq = cmp_trees(&pvec[j], &pvec[i]);
                        if matches!(c_eq, Some(TreeOrd::Equal)) {
                            collected[j] = true;
                            cnt = cnt + 1;
                            proof {
                                assert(collected@ == col_j.update(j as int, true));
                            }
                        } else {
                            let neg_j = flip_sign(pvec[j].clone());
                            let c1 = cmp_trees(&pvec[j], &neg_i);
                            let c2 = cmp_trees(&neg_j, &pvec[i]);
                            if matches!(c1, Some(TreeOrd::Equal)) || matches!(
                                c2,
                                Some(TreeOrd::Equal),
                            ) {
                                collected[j] = true;
                                cnt = cnt - 1;
                                proof {
                                    assert(collected@ == col_j.update(j as int, true));
                                }
                            }
                        }
                        j += 1;
                    }
                    let ghost g = group_count(p, i as int, i as int + 1, col_start, 1);
                    proof {
                        assert(g.0 == cnt as int && g.1 == collected@);
                        assert(!(0 <= i < col_start.len() && col_start[i as int]));
                        assert(combine_scan(p, i as int, col_start) == seq![
                            render_count(cnt as int, p[i as int]),
                        ] + combine_scan(p, i as int + 1, collected@));
                    }
                    if cnt == 1 {
                        let elem = pvec[i].clone();
                        proof {
                            assert(wf(elem@));
                        }
                        out.push(elem);
                    } else if cnt >= 0 {
                        let mut fac: Vec<MathType> = Vec::new();
                        fac.push(natural_number(cnt as u128));
                        fac.push(pvec[i].clone());
                        let ghost fv = fac@;
                        let node = MathType { kind: MathTypeName::Product, parameter: fac };
                        proof {
                            lemma_views_of(fv);
                            assert(views_of(fv) =~= seq![
                                leaf(KindView::NaturalNumber((cnt as int) as u128)),
                                p[i as int],
                            ]);
                            assert(node@ == render_count(cnt as int, p[i as int]));
                            assert(arity_ok(node@.kind, node@.children.len() as int));
                            assert(wf(leaf(KindView::NaturalNumber((cnt as int) as u128))));
                            assert(wf(node@));
                        }
                        out.push(node);
                    } else {
                        let mag = -cnt;
                        let mut fac: Vec<MathType> = Vec::new();
                        fac.push(natural_number(mag as u128));
                        fac.push(flip_sign(pvec[i].clone()));
                        let ghost fv = fac@;
                        let node = MathType { kind: MathTypeName::Product, parameter: fac };
                        proof {
                            lemma_views_of(fv);
                            assert(views_of(fv) =~= seq![
                                leaf(KindView::NaturalNumber((-(cnt as int)) as u128)),
                                neg_view(p[i as int]),
                            ]);
                            assert(node@ == render_count(cnt as int, p[i as int]));
                            assert(arity_ok(node@.kind, node@.children.len() as int));
                            assert(wf(leaf(KindView::NaturalNumber((-(cnt as int)) as u128))));
                            assert(wf(neg_view(p[i as int])));
                            assert(wf(node@));
                        }
                        out.push(node);
                    }
                    proof {
                        assert(views_of(out@) =~= out_start + seq![
                            render_count(cnt as int, p[i as int]),
                        ]);
                        assert(combine_scan(p, 0, col0) == views_of(out@) + combine_scan(
                            p,
                            i as int + 1,
                            collected@,
                        ));
                    }
                } else {
                    proof {
                        assert(combine_scan(p, i as int, collected@) == combine_scan(
                            p,
                            i as int + 1,
                            collected@,
                        ));
                    }
                }
            }
            proof {
                assert(combine_scan(p, n2 as int, collected@) =~= Seq::<TreeView>::empty());
                assert(views_of(out@) =~= views_of(out@) + combine_scan(
                    p,
                    n2 as int,
                    collected@,
                ));
            }
            let out_len = out.len();
            let r = MathType { kind: MathTypeName::Sum, parameter: out };
            proof {
                lemma_views_of(r.parameter@);
                assert(r@.children.len() == out_len);
                assert(arity_ok(r@.kind, r@.children.len() as int));
                assert forall|q: int| 0 <= q < r@.children.len() implies wf(
                    #[trigger] r@.children[q],
                ) by {
                    assert(r@.children[q] == r.parameter@[q]@);
                }
                assert(wf(r@));
            }
            r
        } else {
            let mut out: Vec<MathType> = Vec::new();
            for i in 0..n
                invariant
                    n == self.parameter.len(),
                    wf(self@),
                    !(self@.kind is Sum),
                    cs == self@.children,
                    cs.len() == n,
                    forall|j: int| 0 <= j < n ==> #[trigger] self.parameter@[j]@ == cs[j],
                    out.len() == i,
                    forall|j: int| 0 <= j < i ==> #[trigger] out@[j]@ == combine_t(cs[j]),
                    forall|j: int| 0 <= j < i ==> wf(#[trigger] out@[j]@),
                decreases n - i,
            {
                out.push(self.parameter[i].combine());
            }
            let r = MathType { kind: self.kind.clone(), parameter: out };
            proof {
                lemma_views_of(r.parameter@);
                assert(views_of(r.parameter@) =~= combine_children(cs));
                assert(r@.children.len() == n);
                assert forall|q: int| 0 <= q < r@.children.len() implies wf(
                    #[trigger] r@.children[q],
                ) by {
                    assert(r@.children[q] == r.parameter@[q]@);
                }
                assert(wf(r@));
            }
            r
        }
    }
}

/// No sum sits directly under a sum, no product directly under a product,
/// anywhere in the tree.
pub open spec fn is_flat(t: TreeView) -> bool
    decreases t,
{
    (forall|i: int| 0 <= i < t.children.len() ==> is_flat(#[trigger] t.children[i]))
        && ((t.kind == KindView::Sum || t.kind == KindView::Product) ==> forall|i: int|
        0 <= i < t.children.len() ==> (#[trigger] t.children[i]).kind != t.kind)
}

/// What splicing leaves behind: only flat trees, none of the spliced
/// kind.
proof fn lemma_splice_flat(s: Seq<TreeView>, k: KindView)
    requires
        forall|i: int| 0 <= i < s.len() ==> is_flat(#[trigger] s[i]),
        k == KindView::Sum || k == KindView::Product,
    ensures
        forall|j: int|
            0 <= j < splice(s, k).len() ==> is_flat(#[trigger] splice(s, k)[j]) && splice(
                s,
                k,
            )[j].kind != k,
    decreases s.len(),
{
    if s.len() > 0 {
        assert(forall|i: int|
            0 <= i < s.drop_last().len() ==> is_flat(#[trigger] s.drop_last()[i]));
        lemma_splice_flat(s.drop_last(), k);
        let pre = splice(s.drop_last(), k);
        let x = s.last();
        assert(is_flat(x));
        assert forall|j: int|
            0 <= j < splice(s, k).len() implies is_flat(#[trigger] splice(s, k)[j]) && splice(
            s,
            k,
        )[j].kind != k by {
            if j < pre.len() {
                assert(splice(s, k)[j] == pre[j]);
            } else {
                if x.kind == k {
                    assert(splice(s, k)[j] == x.children[j - pre.len()]);
                } else {
                    assert(splice(s, k)[j] == x);
                }
            }
        }
    }
}

/// Splicing a list in which nothing has the spliced kind changes nothing.
proof fn lemma_splice_identity(s: Seq<TreeView>, k: KindView)
    requires
        forall|i: int| 0 <= i < s.len() ==> (#[trigger] s[i]).kind != k,
    ensures
        splice(s, k) == s,
    decreases s.len(),
{
    if s.len() > 0 {
        assert(forall|i: int|
            0 <= i < s.drop_last().len() ==> (#[trigger] s.drop_last()[i]).kind != k);
        lemma_splice_identity(s.drop_last(), k);
        assert(splice(s, k) =~= s);
    } else {
        assert(splice(s, k) =~= s);
    }
}

/// Flattening leaves a flat tree.
pub proof fn lemma_flatten_flat(t: TreeView)
    ensures
        is_flat(flatten_t(t)),
    decreases t,
{
    lemma_flat_children(t.children);
    let fc = flat_children(t.children);
    assert forall|i: int| 0 <= i < fc.len() implies is_flat(#[trigger] fc[i]) by {
        lemma_flatten_flat(t.children[i]);
    }
    if t.kind == KindView::Sum || t.kind == KindView::Product {
        lemma_splice_flat(fc, t.kind);
    }
}

/// Flattening a flat tree changes nothing.
pub proof fn lemma_flatten_identity(t: TreeView)
    requires
        is_flat(t),
    ensures
        flatten_t(t) == t,
    decreases t,
{
    lemma_flat_children(t.children);
    let fc = flat_children(t.children);
    assert forall|i: int| 0 <= i < fc.len() implies fc[i] == t.children[i] by {
        lemma_flatten_identity(t.children[i]);
    }
    assert(fc =~= t.children);
    if t.kind == KindView::Sum || t.kind == KindView::Product {
        lemma_splice_identity(t.children, t.kind);
    }
    assert(flatten_t(t) =~= t);
}

/// Flattening is idempotent: flattening twice is flattening once.
pub proof fn lemma_flatten_idempotent(t: TreeView)
    ensures
        flatten_t(flatten_t(t)) == flatten_t(t),
{
    lemma_flatten_flat(t);
    lemma_flatten_identity(flatten_t(t));
}

} // verus!
