//! The mathematical model of expression trees: a ghost tree datatype that
//! every contract in this crate speaks about, and the basic measures and
//! well-formedness notions on it.

use vstd::prelude::*;

verus! {

/// Ghost counterpart of `MathTypeName`: a function name is modelled as its
/// character sequence.
#[verifier::ext_equal]
pub enum KindView {
    Undefined,
    Function(Seq<char>),
    NaturalNumber(u128),
    Sum,
    FlipSign,
    Product,
    Exp,
    LogN,
    Power,
}

/// Ghost counterpart of a whole expression tree.
#[verifier::ext_equal]
pub struct TreeView {
    pub kind: KindView,
    pub children: Seq<TreeView>,
}

/// Smallest child count the kind admits.
pub open spec fn arity_min(k: KindView) -> usize {
    match k {
        KindView::FlipSign => 1,
        KindView::Exp => 1,
        KindView::LogN => 1,
        KindView::Power => 2,
        _ => 0,
    }
}

/// Largest child count the kind admits; `usize::MAX` stands for "any".
pub open spec fn arity_max(k: KindView) -> usize {
    match k {
        KindView::Sum => usize::MAX,
        KindView::Product => usize::MAX,
        KindView::Function(_) => usize::MAX,
        KindView::FlipSign => 1,
        KindView::Exp => 1,
        KindView::LogN => 1,
        KindView::Power => 2,
        _ => 0,
    }
}

/// Whether `n` children are a legal child count for kind `k`.
pub open spec fn arity_ok(k: KindView, n: int) -> bool {
    arity_min(k) <= n <= arity_max(k)
}

/// Rendering precedence of the kind; atoms and function applications get
/// the maximal precedence and are never parenthesized.
pub open spec fn kind_precedence(k: KindView) -> u8 {
    match k {
        KindView::Undefined => u8::MAX,
        KindView::NaturalNumber(_) => u8::MAX,
        KindView::Function(_) => u8::MAX,
        KindView::Power => 4,
        KindView::FlipSign => 3,
        KindView::Product => 2,
        KindView::Sum => 1,
        KindView::Exp => 0,
        KindView::LogN => 0,
    }
}

/// Whether the kind's children may be reordered freely.
pub open spec fn kind_commutative(k: KindView) -> bool {
    k == KindView::Sum || k == KindView::Product
}

/// The fixed discriminant rank, the primary key of the order on kinds.
pub open spec fn kind_rank(k: KindView) -> u8 {
    match k {
        KindView::Undefined => 0,
        KindView::NaturalNumber(_) => 1,
        KindView::Function(_) => 2,
        KindView::Power => 3,
        KindView::Sum => 4,
        KindView::FlipSign => 5,
        KindView::Product => 6,
        KindView::Exp => 7,
        KindView::LogN => 8,
    }
}

/// A tree is well formed when every node's child count lies in its kind's
/// arity range.
pub open spec fn wf(t: TreeView) -> bool
    decreases t,
{
    arity_ok(t.kind, t.children.len() as int)
        && forall|i: int| 0 <= i < t.children.len() ==> wf(#[trigger] t.children[i])
}

/// Height of a tree: 1 for a leaf, 1 more than the tallest child otherwise.
/// Serves as the termination measure of the mutually recursive walks.
pub open spec fn ht(t: TreeView) -> nat
    decreases t,
{
    1 + ht_seq(t.children)
}

/// Largest height among the trees of a sequence (0 when empty).
pub open spec fn ht_seq(s: Seq<TreeView>) -> nat
    decreases s,
{
    if s.len() == 0 {
        0
    } else if ht(s[0]) >= ht_seq(s.drop_first()) {
        ht(s[0])
    } else {
        ht_seq(s.drop_first())
    }
}

/// The larger of two naturals.
pub open spec fn hmax(a: nat, b: nat) -> nat {
    if a >= b {
        a
    } else {
        b
    }
}

/// Every element of a sequence is at most as tall as the sequence's height.
pub broadcast proof fn lemma_ht_seq_bound(s: Seq<TreeView>, i: int)
    requires
        0 <= i < s.len(),
    ensures
        #[trigger] ht(s[i]) <= ht_seq(s),
    decreases s.len(),
{
    if i == 0 {
    } else {
        lemma_ht_seq_bound(s.drop_first(), i - 1);
        assert(s.drop_first()[i - 1] == s[i]);
    }
}

/// Dropping the last tree cannot raise the height of a sequence.
pub broadcast proof fn lemma_ht_seq_drop_last(s: Seq<TreeView>)
    requires
        s.len() > 0,
    ensures
        #[trigger] ht_seq(s.drop_last()) <= ht_seq(s),
    decreases s.len(),
{
    if s.len() > 1 {
        lemma_ht_seq_drop_last(s.drop_first());
        assert(s.drop_last().drop_first() =~= s.drop_first().drop_last());
        assert(ht_seq(s.drop_last()) <= ht_seq(s));
    }
}

/// A child is strictly lower than its parent tree.
pub broadcast proof fn lemma_ht_child(t: TreeView, i: int)
    requires
        0 <= i < t.children.len(),
    ensures
        #[trigger] ht(t.children[i]) < ht(t),
{
    lemma_ht_seq_bound(t.children, i);
}

} // verus!
