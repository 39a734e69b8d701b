//! Formal differentiation with respect to a symbol, by per-kind rules:
//! linearity over sums and negation, the generalized product rule, a
//! symbolic chain rule for named functions, and the exponential rewrite
//! of powers.

use vstd::prelude::*;
use vstd::string::StringExecFns;
use crate::view::{TreeView, KindView, wf, arity_ok};
use crate::math_kind::MathTypeName;
use crate::math_type::{MathType, views_of, lemma_views_of, leaf, recip_view, is_symbol,
    natural_number};

verus! {

broadcast use
    crate::view::lemma_ht_seq_bound,
    crate::view::lemma_ht_child,
    crate::math_type::lemma_views_push,
;

/// The name of the formal derivative of a named function: the name with a
/// prime appended.
pub open spec fn primed(name: Seq<char>) -> Seq<char> {
    name + seq!['\'']
}

/// `deriv`, applied to each tree of a sequence.
pub open spec fn deriv_children(s: Seq<TreeView>, v: TreeView) -> Seq<TreeView>
    decreases s,
{
    if s.len() == 0 {
        Seq::empty()
    } else {
        deriv_children(s.drop_last(), v).push(deriv(s.last(), v))
    }
}

/// The first `n` terms of the generalized product rule: the `i`-th term
/// is the factor list with the `i`-th factor differentiated.
pub open spec fn product_rule_terms(s: Seq<TreeView>, ds: Seq<TreeView>, n: int) -> Seq<TreeView>
    decreases n,
{
    if n <= 0 {
        Seq::empty()
    } else {
        product_rule_terms(s, ds, n - 1).push(
            TreeView { kind: KindView::Product, children: s.update(n - 1, ds[n - 1]) },
        )
    }
}

/// The first `n` terms of the symbolic chain rule for a named function:
/// the `i`-th term multiplies the `i`-th argument's derivative with the
/// primed function applied to the unchanged arguments.
pub open spec fn chain_rule_terms(
    name: Seq<char>,
    s: Seq<TreeView>,
    ds: Seq<TreeView>,
    n: int,
) -> Seq<TreeView>
    decreases n,
{
    if n <= 0 {
        Seq::empty()
    } else {
        chain_rule_terms(name, s, ds, n - 1).push(
            TreeView {
                kind: KindView::Product,
                children: seq![
                    ds[n - 1],
                    TreeView { kind: KindView::Function(primed(name)), children: s },
                ],
            },
        )
    }
}

/// The derivative of a tree with respect to the symbol `v`. A node of
/// the symbol's own kind is `Constant(1)`; a constant is `Constant(0)`;
/// sums and negations differentiate their children; a product becomes
/// the sum of its per-factor terms; a named function application becomes
/// the sum of its chain-rule terms; `Exp` and `Ln` follow their closed
/// rules; a power stands for `Exp(Product[exponent, Ln(base)])` and gets
/// that tree's derivative, written out.
pub open spec fn deriv(t: TreeView, v: TreeView) -> TreeView
    decreases t,
{
    match t.kind {
        KindView::Function(name) => {
            if t.kind == v.kind {
                leaf(KindView::NaturalNumber(1))
            } else {
                TreeView {
                    kind: KindView::Sum,
                    children: chain_rule_terms(
                        name,
                        t.children,
                        deriv_children(t.children, v),
                        t.children.len() as int,
                    ),
                }
            }
        },
        KindView::NaturalNumber(_) => leaf(KindView::NaturalNumber(0)),
        KindView::Sum => TreeView { kind: KindView::Sum, children: deriv_children(t.children, v) },
        KindView::FlipSign => TreeView {
            kind: KindView::FlipSign,
            children: deriv_children(t.children, v),
        },
        KindView::Product => TreeView {
            kind: KindView::Sum,
            children: product_rule_terms(
                t.children,
                deriv_children(t.children, v),
                t.children.len() as int,
            ),
        },
        KindView::Exp => TreeView {
            kind: KindView::Product,
            children: seq![t, deriv_children(t.children, v)[0]],
        },
        KindView::LogN => TreeView {
            kind: KindView::Product,
            children: seq![deriv_children(t.children, v)[0], recip_view(t.children[0])],
        },
        KindView::Power => {
            let b = t.children[0];
            let e = t.children[1];
            let db = deriv_children(t.children, v)[0];
            let de = deriv_children(t.children, v)[1];
            let ln_b = TreeView { kind: KindView::LogN, children: seq![b] };
            let m = TreeView { kind: KindView::Product, children: seq![e, ln_b] };
            let exp_m = TreeView { kind: KindView::Exp, children: seq![m] };
            TreeView {
                kind: KindView::Product,
                children: seq![
                    exp_m,
                    TreeView {
                        kind: KindView::Sum,
                        children: seq![
                            TreeView { kind: KindView::Product, children: seq![de, ln_b] },
                            TreeView {
                                kind: KindView::Product,
                                children: seq![
                                    e,
                                    TreeView {
                                        kind: KindView::Product,
                                        children: seq![db, recip_view(b)],
                                    },
                                ],
                            },
                        ],
                    },
                ],
            }
        },
        KindView::Undefined => leaf(KindView::Undefined),
    }
}

/// `deriv_children` maps a sequence pointwise.
pub proof fn lemma_deriv_children(s: Seq<TreeView>, v: TreeView)
    ensures
        deriv_children(s, v).len() == s.len(),
        forall|i: int| 0 <= i < s.len() ==> deriv_children(s, v)[i] == deriv(#[trigger] s[i], v),
    decreases s,
{
    if s.len() > 0 {
        lemma_deriv_children(s.drop_last(), v);
        assert forall|i: int| 0 <= i < s.len() implies deriv_children(s, v)[i] == deriv(
            s[i],
            v,
        ) by {
            if i < s.len() - 1 {
                assert(deriv_children(s, v)[i] == deriv_children(s.drop_last(), v)[i]);
                assert(s.drop_last()[i] == s[i]);
            }
        }
    }
}

impl MathType {
    /// Clones this tree's children into a fresh list.
    pub(crate) fn cloned_children(&self) -> (r: Vec<MathType>)
        ensures
            views_of(r@) == self@.children,
            wf(self@) ==> forall|j: int| 0 <= j < r@.len() ==> wf(#[trigger] r@[j]@),
    {
        let n = self.parameter.len();
        let ghost cs = self@.children;
        proof {
            lemma_views_of(self.parameter@);
        }
        let mut out: Vec<MathType> = Vec::new();
        for i in 0..n
            invariant
                n == self.parameter.len(),
                cs == self@.children,
                cs.len() == n,
                forall|j: int| 0 <= j < n ==> #[trigger] self.parameter@[j]@ == cs[j],
                out.len() == i,
                forall|j: int| 0 <= j < i ==> #[trigger] out@[j]@ == cs[j],
            decreases n - i,
        {
            out.push(self.parameter[i].clone());
        }
        proof {
            lemma_views_of(out@);
            assert(views_of(out@) =~= cs);
            if wf(self@) {
                assert forall|j: int| 0 <= j < out@.len() implies wf(#[trigger] out@[j]@) by {
                    assert(out@[j]@ == cs[j]);
                }
            }
        }
        out
    }

    /// Computes the formal derivative of this tree with respect to
    /// `delta_var`, which must be a symbol.
    pub fn get_derivative(&self, delta_var: &MathType) -> (r: MathType)
        requires
            wf(self@),
            is_symbol(delta_var@),
        ensures
            r@ == deriv(self@, delta_var@),
            wf(r@),
        decreases *self, 1int,
    {
        let n = self.parameter.len();
        let ghost cs = self@.children;
        let ghost dv = delta_var@;
        proof {
            lemma_views_of(self.parameter@);
            lemma_deriv_children(cs, dv);
        }
        match &self.kind {
            MathTypeName::NaturalNumber(_) => {
                let r = natural_number(0);
                proof {
                    assert(wf(r@));
                }
                r
            },
            MathTypeName::Undefined => {
                let r = MathType { kind: MathTypeName::Undefined, parameter: Vec::new() };
                proof {
                    assert(r@.children =~= Seq::<TreeView>::empty());
                    assert(r@ == leaf(KindView::Undefined));
                    assert(wf(r@));
                }
                r
            },
            MathTypeName::Sum => {
                let out = self.deriv_each(delta_var);
                let out_len = out.len();
                let r = MathType { kind: MathTypeName::Sum, parameter: out };
                proof {
                    lemma_views_of(r.parameter@);
                    assert(views_of(r.parameter@) =~= deriv_children(cs, dv));
                    assert(arity_ok(r@.kind, r@.children.len() as int));
                    assert forall|q: int| 0 <= q < r@.children.len() implies wf(
                        #[trigger] r@.children[q],
                    ) by {
                        assert(r@.children[q] == r.parameter@[q]@);
                    }
                    assert(wf(r@));
                }
                r
            },
            MathTypeName::FlipSign => {
                let out = self.deriv_each(delta_var);
                let out_len = out.len();
                let r = MathType { kind: MathTypeName::FlipSign, parameter: out };
                proof {
                    lemma_views_of(r.parameter@);
                    assert(views_of(r.parameter@) =~= deriv_children(cs, dv));
                    assert(r@.children.len() == n);
                    assert(arity_ok(r@.kind, r@.children.len() as int));
                    assert forall|q: int| 0 <= q < r@.children.len() implies wf(
                        #[trigger] r@.children[q],
                    ) by {
                        assert(r@.children[q] == r.parameter@[q]@);
                    }
                    assert(wf(r@));
                }
                r
            },
            MathTypeName::Exp => {
                let d0 = self.parameter[0].get_derivative(delta_var);
                let whole = self.clone();
                let mut fac: Vec<MathType> = Vec::new();
                fac.push(whole);
                fac.push(d0);
                let ghost fv = fac@;
                let r = MathType { kind: MathTypeName::Product, parameter: fac };
                proof {
                    lemma_views_of(fv);
                    assert(views_of(fv) =~= seq![self@, deriv_children(cs, dv)[0]]);
                    assert(arity_ok(r@.kind, r@.children.len() as int));
                    assert(wf(r@));
                }
                r
            },
            MathTypeName::LogN => {
                let d0 = self.parameter[0].get_derivative(delta_var);
                let rec = crate::math_type::reciprocal(self.parameter[0].clone());
                let mut fac: Vec<MathType> = Vec::new();
                fac.push(d0);
                fac.push(rec);
                let ghost fv = fac@;
                let r = MathType { kind: MathTypeName::Product, parameter: fac };
                proof {
                    lemma_views_of(fv);
                    assert(views_of(fv) =~= seq![
                        deriv_children(cs, dv)[0],
                        recip_view(cs[0]),
                    ]);
                    assert(arity_ok(r@.kind, r@.children.len() as int));
                    assert(wf(leaf(KindView::NaturalNumber(1))));
                    assert(wf(TreeView {
                        kind: KindView::FlipSign,
                        children: seq![leaf(KindView::NaturalNumber(1))],
                    }));
                    assert(wf(recip_view(cs[0])));
                    assert(wf(r@));
                }
                r
            },
            MathTypeName::Power => {
                let b = self.parameter[0].clone();
                let e = self.parameter[1].clone();
                let db = self.parameter[0].get_derivative(delta_var);
                let de = self.parameter[1].get_derivative(delta_var);
                let ghost sb = cs[0];
                let ghost se = cs[1];
                let ghost sdb = deriv_children(cs, dv)[0];
                let ghost sde = deriv_children(cs, dv)[1];
                let ghost s_ln = TreeView { kind: KindView::LogN, children: seq![sb] };
                let ghost s_m = TreeView { kind: KindView::Product, children: seq![se, s_ln] };
                let ghost s_expm = TreeView { kind: KindView::Exp, children: seq![s_m] };
                let ghost s_inner = TreeView {
                    kind: KindView::Product,
                    children: seq![sdb, recip_view(sb)],
                };
                let ghost s_t1 = TreeView { kind: KindView::Product, children: seq![sde, s_ln] };
                let ghost s_t2 = TreeView { kind: KindView::Product, children: seq![se, s_inner] };
                let ghost s_sum = TreeView { kind: KindView::Sum, children: seq![s_t1, s_t2] };
                let ghost s_r = TreeView {
                    kind: KindView::Product,
                    children: seq![s_expm, s_sum],
                };

                let ln_b = crate::math_type::logarithm(b.clone());
                let m = {
                    let mut v: Vec<MathType> = Vec::new();
                    v.push(e.clone());
                    v.push(ln_b.clone());
                    let ghost vv = v@;
                    let m = MathType { kind: MathTypeName::Product, parameter: v };
                    proof {
                        lemma_views_of(vv);
                        assert(ln_b@ == s_ln);
                        assert(m@.children =~= seq![se, s_ln]);
                        assert(m@ == s_m);
                    }
                    m
                };
                let exp_m = crate::math_type::exponential(m);
                let rec_b = crate::math_type::reciprocal(b);
                let inner = {
                    let mut v: Vec<MathType> = Vec::new();
                    v.push(db);
                    v.push(rec_b);
                    let ghost vv = v@;
                    let inner = MathType { kind: MathTypeName::Product, parameter: v };
                    proof {
                        lemma_views_of(vv);
                        assert(inner@.children =~= seq![sdb, recip_view(sb)]);
                        assert(inner@ == s_inner);
                    }
                    inner
                };
                let term1 = {
                    let mut v: Vec<MathType> = Vec::new();
                    v.push(de);
                    v.push(ln_b);
                    let ghost vv = v@;
                    let term1 = MathType { kind: MathTypeName::Product, parameter: v };
                    proof {
                        lemma_views_of(vv);
                        assert(term1@.children =~= seq![sde, s_ln]);
                        assert(term1@ == s_t1);
                    }
                    term1
                };
                let term2 = {
                    let mut v: Vec<MathType> = Vec::new();
                    v.push(e);
                    v.push(inner);
                    let ghost vv = v@;
                    let term2 = MathType { kind: MathTypeName::Product, parameter: v };
                    proof {
                        lemma_views_of(vv);
                        assert(term2@.children =~= seq![se, s_inner]);
                        assert(term2@ == s_t2);
                    }
                    term2
                };
                let sum_node = {
                    let mut v: Vec<MathType> = Vec::new();
                    v.push(term1);
                    v.push(term2);
                    let ghost vv = v@;
                    let sum_node = MathType { kind: MathTypeName::Sum, parameter: v };
                    proof {
                        lemma_views_of(vv);
                        assert(sum_node@.children =~= seq![s_t1, s_t2]);
                        assert(sum_node@ == s_sum);
                    }
                    sum_node
                };
                let mut fac: Vec<MathType> = Vec::new();
                fac.push(exp_m);
                fac.push(sum_node);
                let ghost fv = fac@;
                let r = MathType { kind: MathTypeName::Product, parameter: fac };
                proof {
                    lemma_views_of(fv);
                    assert(exp_m@ == s_expm);
                    assert(r@.children =~= seq![s_expm, s_sum]);
                    assert(r@ =~~= s_r);
                    assert(deriv(self@, dv) == s_r);
                    assert(wf(leaf(KindView::NaturalNumber(1))));
                    assert(wf(TreeView {
                        kind: KindView::FlipSign,
                        children: seq![leaf(KindView::NaturalNumber(1))],
                    }));
                    assert(wf(recip_view(sb)));
                    assert(wf(s_ln));
                    assert(wf(s_m));
                    assert(wf(s_expm));
                    assert(wf(s_inner));
                    assert(wf(s_t1));
                    assert(wf(s_t2));
                    assert(wf(s_sum));
                    assert(wf(r@));
                }
                r
            },
            MathTypeName::Function(name) => {
                if self.kind.kind_eq(&delta_var.kind) {
                    let r = natural_number(1);
                    proof {
                        assert(wf(r@));
                    }
                    return r;
                }
                let ghost ds = deriv_children(cs, dv);
                let dvec = self.deriv_each(delta_var);
                let mut primed_name = name.clone();
                primed_name.append("'");
                proof {
                    reveal_strlit("'");
                    assert("'"@ =~= seq!['\'']);
                    assert(primed_name@ == primed(name@));
                }
                let mut out: Vec<MathType> = Vec::new();
                for i in 0..n
                    invariant
                        n == self.parameter.len(),
                        wf(self@),
                        self@.kind == KindView::Function(name@),
                        dv.kind != self@.kind,
                        cs == self@.children,
                        cs.len() == n,
                        ds == deriv_children(cs, dv),
                        ds.len() == n,
                        primed_name@ == primed(name@),
                        dvec.len() == n,
                        forall|j: int| 0 <= j < n ==> #[trigger] dvec@[j]@ == ds[j],
                        forall|j: int| 0 <= j < n ==> wf(#[trigger] dvec@[j]@),
                        out.len() == i,
                        views_of(out@) == chain_rule_terms(name@, cs, ds, i as int),
                        forall|j: int| 0 <= j < out.len() ==> wf(#[trigger] out@[j]@),
                    decreases n - i,
                {
                    let args = self.cloned_children();
                    let args_len = args.len();
                    let fnode = MathType {
                        kind: MathTypeName::Function(primed_name.clone()),
                        parameter: args,
                    };
                    proof {
                        assert(fnode@ == (TreeView {
                            kind: KindView::Function(primed(name@)),
                            children: cs,
                        }));
                        assert(arity_ok(fnode@.kind, fnode@.children.len() as int));
                        assert forall|q: int| 0 <= q < fnode@.children.len() implies wf(
                            #[trigger] fnode@.children[q],
                        ) by {
                            assert(fnode@.children[q] == cs[q]);
                        }
                        assert(wf(fnode@));
                    }
                    let mut fac: Vec<MathType> = Vec::new();
                    fac.push(dvec[i].clone());
                    fac.push(fnode);
                    let ghost fv = fac@;
                    let term = MathType { kind: MathTypeName::Product, parameter: fac };
                    proof {
                        lemma_views_of(fv);
                        assert(term@.children =~= seq![ds[i as int], TreeView {
                            kind: KindView::Function(primed(name@)),
                            children: cs,
                        }]);
                        assert(chain_rule_terms(name@, cs, ds, i + 1) == chain_rule_terms(
                            name@,
                            cs,
                            ds,
                            i as int,
                        ).push(term@));
                        assert(wf(term@));
                    }
                    out.push(term);
                }
                let out_len = out.len();
                let r = MathType { kind: MathTypeName::Sum, parameter: out };
                proof {
                    lemma_views_of(r.parameter@);
                    assert(views_of(r.parameter@) =~= chain_rule_terms(name@, cs, ds, n as int));
                    assert(arity_ok(r@.kind, r@.children.len() as int));
                    assert forall|q: int| 0 <= q < r@.children.len() implies wf(
                        #[trigger] r@.children[q],
                    ) by {
                        assert(r@.children[q] == r.parameter@[q]@);
                    }
                    assert(wf(r@));
                }
                r
            },
            MathTypeName::Product => {
                let ghost ds = deriv_children(cs, dv);
                let dvec = self.deriv_each(delta_var);
                let mut out: Vec<MathType> = Vec::new();
                for i in 0..n
                    invariant
                        n == self.parameter.len(),
                        wf(self@),
                        self@.kind == KindView::Product,
                        cs == self@.children,
                        cs.len() == n,
                        forall|j: int| 0 <= j < n ==> #[trigger] self.parameter@[j]@ == cs[j],
                        ds == deriv_children(cs, dv),
                        ds.len() == n,
                        dvec.len() == n,
                        forall|j: int| 0 <= j < n ==> #[trigger] dvec@[j]@ == ds[j],
                        forall|j: int| 0 <= j < n ==> wf(#[trigger] dvec@[j]@),
                        out.len() == i,
                        views_of(out@) == product_rule_terms(cs, ds, i as int),
                        forall|j: int| 0 <= j < out.len() ==> wf(#[trigger] out@[j]@),
                    decreases n - i,
                {
                    let mut fac: Vec<MathType> = Vec::new();
                    for j in 0..n
                        invariant
                            n == self.parameter.len(),
                            wf(self@),
                            cs == self@.children,
                            cs.len() == n,
                            0 <= i < n,
                            forall|q: int| 0 <= q < n ==> #[trigger] self.parameter@[q]@ == cs[q],
                            dvec.len() == n,
                            forall|q: int| 0 <= q < n ==> #[trigger] dvec@[q]@ == ds[q],
                            forall|q: int| 0 <= q < n ==> wf(#[trigger] dvec@[q]@),
                            fac.len() == j,
                            views_of(fac@) == cs.update(i as int, ds[i as int]).take(j as int),
                            forall|q: int| 0 <= q < fac.len() ==> wf(#[trigger] fac@[q]@),
                        decreases n - j,
                    {
                        let ghost target = cs.update(i as int, ds[i as int]);
                        proof {
                            assert(target.take(j + 1) =~= target.take(j as int).push(
                                target[j as int],
                            ));
                        }
                        if i == j {
                            let elem = dvec[i].clone();
                            proof {
                                assert(elem@ == target[j as int]);
                            }
                            fac.push(elem);
                        } else {
                            let elem = self.parameter[j].clone();
                            proof {
                                assert(elem@ == target[j as int]);
                            }
                            fac.push(elem);
                        }
                    }
                    let ghost fv = fac@;
                    let term = MathType { kind: MathTypeName::Product, parameter: fac };
                    proof {
                        lemma_views_of(fv);
                        assert(cs.update(i as int, ds[i as int]).take(n as int) =~= cs.update(
                            i as int,
                            ds[i as int],
                        ));
                        assert(term@.children == cs.update(i as int, ds[i as int]));
                        assert(product_rule_terms(cs, ds, i + 1) == product_rule_terms(
                            cs,
                            ds,
                            i as int,
                        ).push(term@));
                        assert(arity_ok(term@.kind, term@.children.len() as int));
                        assert forall|q: int| 0 <= q < term@.children.len() implies wf(
                            #[trigger] term@.children[q],
                        ) by {
                            assert(term@.children[q] == fv[q]@);
                        }
                        assert(wf(term@));
                    }
                    out.push(term);
                }
                let out_len = out.len();
                let r = MathType { kind: MathTypeName::Sum, parameter: out };
                proof {
                    lemma_views_of(r.parameter@);
                    assert(views_of(r.parameter@) =~= product_rule_terms(cs, ds, n as int));
                    assert(arity_ok(r@.kind, r@.children.len() as int));
                    assert forall|q: int| 0 <= q < r@.children.len() implies wf(
                        #[trigger] r@.children[q],
                    ) by {
                        assert(r@.children[q] == r.parameter@[q]@);
                    }
                    assert(wf(r@));
                }
                r
            },
        }
    }

    /// Differentiates each child, in order.
    fn deriv_each(&self, delta_var: &MathType) -> (r: Vec<MathType>)
        requires
            wf(self@),
            is_symbol(delta_var@),
        ensures
            r@.len() == self@.children.len(),
            forall|j: int|
                0 <= j < r@.len() ==> #[trigger] r@[j]@ == deriv_children(
                    self@.children,
                    delta_var@,
                )[j],
            forall|j: int| 0 <= j < r@.len() ==> wf(#[trigger] r@[j]@),
        decreases *self, 0int,
    {
        let n = self.parameter.len();
        let ghost cs = self@.children;
        let ghost dv = delta_var@;
        proof {
            lemma_views_of(self.parameter@);
            lemma_deriv_children(cs, dv);
        }
        let mut out: Vec<MathType> = Vec::new();
        for i in 0..n
            invariant
                n == self.parameter.len(),
                wf(self@),
                cs == self@.children,
                cs.len() == n,
                dv == delta_var@,
                is_symbol(dv),
                forall|j: int| 0 <= j < n ==> #[trigger] self.parameter@[j]@ == cs[j],
                forall|j: int| 0 <= j < n ==> deriv_children(cs, dv)[j] == deriv(
                    #[trigger] cs[j],
                    dv,
                ),
                out.len() == i,
                forall|j: int| 0 <= j < i ==> #[trigger] out@[j]@ == deriv_children(cs, dv)[j],
                forall|j: int| 0 <= j < i ==> wf(#[trigger] out@[j]@),
            decreases n - i,
        {
            out.push(self.parameter[i].get_derivative(delta_var));
        }
        out
    }
}

} // verus!
