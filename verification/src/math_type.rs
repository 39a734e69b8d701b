//! The expression tree itself: a kind tag plus an ordered, owned list of
//! child trees, with arity-checked constructors.

use vstd::prelude::*;
use crate::math_kind::MathTypeName;
use crate::view::{TreeView, KindView, arity_ok, wf};
use crate::order::{TreeOrd, peq, cmp_trees};

verus! {

broadcast use crate::view::lemma_ht_child;

/// A leaf tree of the given kind.
pub open spec fn leaf(k: KindView) -> TreeView {
    TreeView { kind: k, children: Seq::empty() }
}

/// The symbol or application tree named `name` over `args`.
pub open spec fn func_view(name: Seq<char>, args: Seq<TreeView>) -> TreeView {
    TreeView { kind: KindView::Function(name), children: args }
}

/// `Power(t, Negate(Constant(1)))`, the reciprocal of `t`.
pub open spec fn recip_view(t: TreeView) -> TreeView {
    TreeView {
        kind: KindView::Power,
        children: seq![
            t,
            TreeView {
                kind: KindView::FlipSign,
                children: seq![leaf(KindView::NaturalNumber(1))],
            },
        ],
    }
}

/// An expression: a node kind and its ordered children. Every tree owns
/// its children outright; cloning duplicates the whole subtree.
pub struct MathType {
    pub kind: MathTypeName,
    pub parameter: Vec<MathType>,
}

/// The ghost trees of a sequence of trees, element by element.
pub open spec fn views_of(s: Seq<MathType>) -> Seq<TreeView>
    decreases s,
{
    if s.len() == 0 {
        Seq::empty()
    } else {
        views_of(s.drop_last()).push(s.last()@)
    }
}

impl View for MathType {
    type V = TreeView;

    open spec fn view(&self) -> TreeView
        decreases self,
    {
        TreeView { kind: self.kind@, children: views_of(self.parameter@) }
    }
}

/// `views_of` maps a sequence pointwise.
pub broadcast proof fn lemma_views_of(s: Seq<MathType>)
    ensures
        (#[trigger] views_of(s)).len() == s.len(),
        forall|i: int| 0 <= i < s.len() ==> views_of(s)[i] == s[i]@,
    decreases s,
{
    if s.len() > 0 {
        lemma_views_of(s.drop_last());
        assert(views_of(s) == views_of(s.drop_last()).push(s.last()@));
        assert(views_of(s).len() == s.len());
        assert forall|i: int| 0 <= i < s.len() implies views_of(s)[i] == s[i]@ by {
            assert(views_of(s) == views_of(s.drop_last()).push(s.last()@));
            if i < s.len() - 1 {
                assert(views_of(s)[i] == views_of(s.drop_last())[i]);
                assert(s.drop_last()[i] == s[i]);
            } else {
                assert(views_of(s)[i] == s.last()@);
            }
        }
    }
}

/// Pushing a tree extends the ghost-tree list with its ghost tree.
pub broadcast proof fn lemma_views_push(s: Seq<MathType>, x: MathType)
    ensures
        #[trigger] views_of(s.push(x)) == views_of(s).push(x@),
{
    assert(s.push(x).drop_last() =~= s);
    assert(s.push(x).last() == x);
}

impl Clone for MathType {
    /// Duplicates the whole subtree; the copy models the same ghost tree.
    fn clone(&self) -> (r: Self)
        ensures
            r@ == self@,
        decreases *self,
    {
        let mut children: Vec<MathType> = Vec::new();
        let n = self.parameter.len();
        for i in 0..n
            invariant
                n == self.parameter.len(),
                children.len() == i,
                forall|j: int| 0 <= j < i ==> children[j]@ == self.parameter[j]@,
            decreases n - i,
        {
            children.push(self.parameter[i].clone());
        }
        proof {
            lemma_views_of_congruent(children@, self.parameter@);
        }
        MathType { kind: self.kind.clone(), parameter: children }
    }
}

/// Two sequences whose trees model the same ghost trees pointwise have the
/// same `views_of`.
pub proof fn lemma_views_of_congruent(a: Seq<MathType>, b: Seq<MathType>)
    requires
        a.len() == b.len(),
        forall|j: int| 0 <= j < a.len() ==> a[j]@ == b[j]@,
    ensures
        views_of(a) == views_of(b),
    decreases a,
{
    if a.len() > 0 {
        lemma_views_of_congruent(a.drop_last(), b.drop_last());
        assert(views_of(a) =~= views_of(b));
    } else {
        assert(views_of(a) =~= views_of(b));
    }
}

/// A constant holding the given non-negative value.
pub fn natural_number(value: u128) -> (r: MathType)
    ensures
        r@ == leaf(KindView::NaturalNumber(value)),
{
    let r = MathType::new(MathTypeName::NaturalNumber(value), Vec::new());
    proof {
        assert(r@.children =~= Seq::<TreeView>::empty());
    }
    r
}

/// A symbol: a named function applied to nothing.
pub fn variable(name: &str) -> (r: MathType)
    ensures
        r@ == func_view(name@, Seq::empty()),
{
    let r = MathType::new(MathTypeName::Function(name.to_owned()), Vec::new());
    proof {
        assert(r@.children =~= Seq::<TreeView>::empty());
    }
    r
}

/// A named function applied to the given arguments.
pub fn function(name: &str, parameter: Vec<MathType>) -> (r: MathType)
    ensures
        r@ == func_view(name@, views_of(parameter@)),
{
    let n = parameter.len();
    proof {
        assert(parameter@.len() == n);
    }
    MathType::new(MathTypeName::Function(name.to_owned()), parameter)
}

/// A sum over the given terms.
pub fn sum(parameter: Vec<MathType>) -> (r: MathType)
    ensures
        r@ == (TreeView { kind: KindView::Sum, children: views_of(parameter@) }),
{
    let n = parameter.len();
    proof {
        assert(parameter@.len() == n);
    }
    MathType::new(MathTypeName::Sum, parameter)
}

/// The arithmetic sign flip of a tree.
pub fn flip_sign(parameter: MathType) -> (r: MathType)
    ensures
        r@ == (TreeView { kind: KindView::FlipSign, children: seq![parameter@] }),
{
    let ghost p = parameter@;
    let mut v: Vec<MathType> = Vec::new();
    v.push(parameter);
    let ghost vv = v@;
    let r = MathType::new(MathTypeName::FlipSign, v);
    proof {
        lemma_views_of(vv);
        assert(r@.children =~= seq![p]);
    }
    r
}

/// A product over the given factors.
pub fn product(parameter: Vec<MathType>) -> (r: MathType)
    ensures
        r@ == (TreeView { kind: KindView::Product, children: views_of(parameter@) }),
{
    let n = parameter.len();
    proof {
        assert(parameter@.len() == n);
    }
    MathType::new(MathTypeName::Product, parameter)
}

/// `base` raised to `exponent`.
pub fn power(base: MathType, exponent: MathType) -> (r: MathType)
    ensures
        r@ == (TreeView { kind: KindView::Power, children: seq![base@, exponent@] }),
{
    let ghost b = base@;
    let ghost e = exponent@;
    let mut v: Vec<MathType> = Vec::new();
    v.push(base);
    v.push(exponent);
    let ghost vv = v@;
    let r = MathType::new(MathTypeName::Power, v);
    proof {
        lemma_views_of(vv);
        assert(r@.children =~= seq![b, e]);
    }
    r
}

/// `1 / t`, written as a power with exponent `Negate(Constant(1))`.
pub fn reciprocal(parameter: MathType) -> (r: MathType)
    ensures
        r@ == recip_view(parameter@),
{
    power(parameter, flip_sign(natural_number(1)))
}

/// `numerator / denominator`: a product of the numerator and the
/// denominator's reciprocal.
pub fn fraction(numerator: MathType, denominator: MathType) -> (r: MathType)
    ensures
        r@ == (TreeView {
            kind: KindView::Product,
            children: seq![numerator@, recip_view(denominator@)],
        }),
{
    let ghost nv = numerator@;
    let ghost dv = denominator@;
    let recip = reciprocal(denominator);
    let mut v: Vec<MathType> = Vec::new();
    v.push(numerator);
    v.push(recip);
    let ghost vv = v@;
    let r = MathType::new(MathTypeName::Product, v);
    proof {
        lemma_views_of(vv);
        assert(r@.children =~= seq![nv, recip_view(dv)]);
    }
    r
}

/// The natural exponential of a tree.
pub fn exponential(exponent: MathType) -> (r: MathType)
    ensures
        r@ == (TreeView { kind: KindView::Exp, children: seq![exponent@] }),
{
    let ghost e = exponent@;
    let mut v: Vec<MathType> = Vec::new();
    v.push(exponent);
    let ghost vv = v@;
    let r = MathType::new(MathTypeName::Exp, v);
    proof {
        lemma_views_of(vv);
        assert(r@.children =~= seq![e]);
    }
    r
}

/// The natural logarithm of a tree.
pub fn logarithm(parameter: MathType) -> (r: MathType)
    ensures
        r@ == (TreeView { kind: KindView::LogN, children: seq![parameter@] }),
{
    let ghost p = parameter@;
    let mut v: Vec<MathType> = Vec::new();
    v.push(parameter);
    let ghost vv = v@;
    let r = MathType::new(MathTypeName::LogN, v);
    proof {
        lemma_views_of(vv);
        assert(r@.children =~= seq![p]);
    }
    r
}

impl MathType {
    /// Builds a node after checking the kind's arity range; child counts
    /// outside the range are a caller error, ruled out by precondition.
    pub fn new(kind: MathTypeName, parameter: Vec<MathType>) -> (r: MathType)
        requires
            arity_ok(kind@, parameter@.len() as int),
        ensures
            r@ == (TreeView { kind: kind@, children: views_of(parameter@) }),
    {
        let (min, max) = kind.parameter_range();
        assert(min <= parameter.len());
        assert(max >= parameter.len());
        MathType { kind, parameter }
    }

    /// Whether this tree is a symbol: a named function with no arguments,
    /// the only legal differentiation target.
    pub fn is_variable(&self) -> (r: bool)
        ensures
            r == is_symbol(self@),
    {
        proof {
            lemma_views_of(self.parameter@);
        }
        matches!(self.kind, MathTypeName::Function(_)) && self.parameter.len() == 0
    }

    /// Counts the nodes of the tree, itself included; a count past the
    /// range of the result type saturates.
    pub fn count_nodes(&self) -> (r: u64)
        ensures
            r == sat64(node_count(self@)),
        decreases *self,
    {
        let mut count: u64 = 1;
        let n = self.parameter.len();
        let ghost cs = self@.children;
        proof {
            lemma_views_of(self.parameter@);
            assert(cs.take(0) =~= Seq::<TreeView>::empty());
        }
        for i in 0..n
            invariant
                n == self.parameter.len(),
                cs == self@.children,
                cs.len() == n,
                forall|j: int| 0 <= j < n ==> #[trigger] self.parameter@[j]@ == cs[j],
                count == sat64(1 + node_count_seq(cs.take(i as int))),
            decreases n - i,
        {
            let d = self.parameter[i].count_nodes();
            proof {
                lemma_node_count_pos(cs[i as int]);
                assert(cs.take(i + 1).drop_last() =~= cs.take(i as int));
                assert(cs.take(i + 1).last() == cs[i as int]);
            }
            if count > u64::MAX - d {
                count = u64::MAX;
            } else {
                count = count + d;
            }
        }
        proof {
            assert(cs.take(n as int) =~= cs);
        }
        count
    }

    /// Whether `tree` occurs in this tree: is equal, as the order sees
    /// equality, to this node or to some descendant.
    pub fn contains(&self, tree: &MathType) -> (r: bool)
        ensures
            r == tree_contains(self@, tree@),
        decreases *self,
    {
        let c = cmp_trees(self, tree);
        if matches!(c, Some(TreeOrd::Equal)) {
            return true;
        }
        let n = self.parameter.len();
        proof {
            lemma_views_of(self.parameter@);
        }
        for i in 0..n
            invariant
                n == self.parameter.len(),
                self@.children.len() == n,
                forall|j: int| 0 <= j < n ==> #[trigger] self.parameter@[j]@ == self@.children[j],
                !peq(self@, tree@),
                forall|j: int| 0 <= j < i ==> !tree_contains(#[trigger] self@.children[j], tree@),
            decreases n - i,
        {
            if self.parameter[i].contains(tree) {
                return true;
            }
        }
        false
    }

    /// Returns a copy of this tree in which every node equal to `tree` —
    /// as the order sees equality — is replaced by `replacement`, children
    /// of untouched nodes being replaced recursively.
    pub fn replace(&self, tree: &MathType, replacement: &MathType) -> (r: MathType)
        requires
            wf(self@),
        ensures
            r@ == tree_replace(self@, tree@, replacement@),
        decreases *self,
    {
        let c = cmp_trees(self, tree);
        if matches!(c, Some(TreeOrd::Equal)) {
            return replacement.clone();
        }
        let n = self.parameter.len();
        proof {
            lemma_views_of(self.parameter@);
        }
        let mut children: Vec<MathType> = Vec::new();
        for i in 0..n
            invariant
                n == self.parameter.len(),
                wf(self@),
                self@.children.len() == n,
                forall|j: int| 0 <= j < n ==> #[trigger] self.parameter@[j]@ == self@.children[j],
                children.len() == i,
                forall|j: int|
                    0 <= j < i ==> #[trigger] children@[j]@ == tree_replace(
                        self@.children[j],
                        tree@,
                        replacement@,
                    ),
            decreases n - i,
        {
            children.push(self.parameter[i].replace(tree, replacement));
        }
        let ghost cv = children@;
        let r = MathType::new(self.kind.clone(), children);
        proof {
            lemma_views_of(cv);
            lemma_replace_seq(self@.children, tree@, replacement@);
            assert(views_of(cv) =~= replace_seq(self@.children, tree@, replacement@));
        }
        r
    }

    /// Whether two trees are the same tree, node for node.
    pub fn tree_eq(&self, other: &MathType) -> (r: bool)
        ensures
            r == (self@ == other@),
        decreases *self,
    {
        if !self.kind.kind_eq(&other.kind) {
            return false;
        }
        let n = self.parameter.len();
        if n != other.parameter.len() {
            proof {
                lemma_views_of(self.parameter@);
                lemma_views_of(other.parameter@);
            }
            return false;
        }
        proof {
            lemma_views_of(self.parameter@);
            lemma_views_of(other.parameter@);
        }
        for i in 0..n
            invariant
                n == self.parameter.len() == other.parameter.len(),
                self@.children.len() == n && other@.children.len() == n,
                self@.kind == other@.kind,
                forall|j: int| 0 <= j < n ==> #[trigger] self.parameter@[j]@ == self@.children[j],
                forall|j: int|
                    0 <= j < n ==> #[trigger] other.parameter@[j]@ == other@.children[j],
                forall|j: int| 0 <= j < i ==> #[trigger] self@.children[j] == other@.children[j],
            decreases n - i,
        {
            if !self.parameter[i].tree_eq(&other.parameter[i]) {
                return false;
            }
        }
        proof {
            assert(self@.children =~= other@.children);
            assert(self@ =~= other@);
        }
        true
    }
}

/// True of a symbol: a zero-argument named function.
pub open spec fn is_symbol(t: TreeView) -> bool {
    t.kind is Function && t.children.len() == 0
}

/// Clamps a natural number into the range of `u64`.
pub open spec fn sat64(n: nat) -> u64 {
    if n > u64::MAX {
        u64::MAX as u64
    } else {
        n as u64
    }
}

/// Total node count of the trees of a sequence.
pub open spec fn node_count_seq(s: Seq<TreeView>) -> nat
    decreases s,
{
    if s.len() == 0 {
        0
    } else {
        node_count_seq(s.drop_last()) + node_count(s.last())
    }
}

/// Node count of a tree, itself included.
pub open spec fn node_count(t: TreeView) -> nat
    decreases t,
{
    1 + node_count_seq(t.children)
}

/// Every tree has at least one node.
pub proof fn lemma_node_count_pos(t: TreeView)
    ensures
        node_count(t) >= 1,
{
}

/// Whether `x` is equal — as the order sees equality — to `t` or to one of
/// its descendants.
pub open spec fn tree_contains(t: TreeView, x: TreeView) -> bool
    decreases t,
{
    peq(t, x) || exists|i: int|
        0 <= i < t.children.len() && tree_contains(#[trigger] t.children[i], x)
}

/// `tree_replace`, applied to each tree of a sequence.
pub open spec fn replace_seq(s: Seq<TreeView>, pat: TreeView, rep: TreeView) -> Seq<TreeView>
    decreases s,
{
    if s.len() == 0 {
        Seq::empty()
    } else {
        replace_seq(s.drop_last(), pat, rep).push(tree_replace(s.last(), pat, rep))
    }
}

/// The tree with every node equal to `pat` — as the order sees equality —
/// replaced by `rep`; an untouched node keeps its kind and has its
/// children replaced recursively.
pub open spec fn tree_replace(t: TreeView, pat: TreeView, rep: TreeView) -> TreeView
    decreases t,
{
    if peq(t, pat) {
        rep
    } else {
        TreeView { kind: t.kind, children: replace_seq(t.children, pat, rep) }
    }
}

/// `replace_seq` maps a sequence pointwise.
pub proof fn lemma_replace_seq(s: Seq<TreeView>, pat: TreeView, rep: TreeView)
    ensures
        replace_seq(s, pat, rep).len() == s.len(),
        forall|i: int|
            0 <= i < s.len() ==> replace_seq(s, pat, rep)[i] == tree_replace(
                #[trigger] s[i],
                pat,
                rep,
            ),
    decreases s,
{
    if s.len() > 0 {
        lemma_replace_seq(s.drop_last(), pat, rep);
        assert forall|i: int|
            0 <= i < s.len() implies replace_seq(s, pat, rep)[i] == tree_replace(s[i], pat, rep) by {
            if i < s.len() - 1 {
                assert(replace_seq(s, pat, rep)[i] == replace_seq(s.drop_last(), pat, rep)[i]);
                assert(s.drop_last()[i] == s[i]);
            }
        }
    }
}

} // verus!
