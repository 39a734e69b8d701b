//! Canonicalization: recursively sorting the children of commutative
//! nodes by the tree order. The ghost sorting function `norm` is the
//! specification that the in-place `sort` meets; re-sorting a canonical
//! tree provably changes nothing.

use vstd::prelude::*;
use crate::view::{TreeView, kind_commutative, ht, ht_seq, hmax};
use crate::order::{TreeOrd, cmp_tree, cmp_seq_from, cmp_kind, lex_chars, sorted_loose, le,
    canonical, lemma_cmp_flip, lemma_cmp_kind_eq, lemma_cmp_eq, lemma_cmp_total,
    lemma_cmp_refl, cmp_trees};
use crate::math_type::{MathType, views_of, lemma_views_of};

verus! {

broadcast use
    crate::view::lemma_ht_seq_bound,
    crate::view::lemma_ht_child,
;

/// Strictly smaller under the tree order.
pub open spec fn lt(a: TreeView, b: TreeView) -> bool {
    cmp_tree(a, b) == Some(TreeOrd::Less)
}

/// Every tree of the sequence is canonical.
pub open spec fn elems_canonical(s: Seq<TreeView>) -> bool {
    forall|i: int| 0 <= i < s.len() ==> canonical(#[trigger] s[i])
}

/// Each tree is at most its successor: non-decreasing, pair by pair.
pub open spec fn ordered_le(s: Seq<TreeView>) -> bool {
    forall|i: int| 1 <= i < s.len() ==> le(s[i - 1], #[trigger] s[i])
}

/// Inserts `x` before the first strictly larger element of `s`.
pub open spec fn insert_ord(x: TreeView, s: Seq<TreeView>) -> Seq<TreeView>
    decreases s.len(),
{
    if s.len() == 0 {
        seq![x]
    } else if lt(x, s[0]) {
        seq![x] + s
    } else {
        seq![s[0]] + insert_ord(x, s.drop_first())
    }
}

/// Sorts a sequence of trees by inserting its elements in turn, last
/// element inserted last.
pub open spec fn sort_back(s: Seq<TreeView>) -> Seq<TreeView>
    decreases s.len(),
{
    if s.len() == 0 {
        s
    } else {
        insert_ord(s.last(), sort_back(s.drop_last()))
    }
}

/// `norm`, applied to each tree of a sequence.
pub open spec fn norm_children(s: Seq<TreeView>) -> Seq<TreeView>
    decreases s,
{
    if s.len() == 0 {
        Seq::empty()
    } else {
        norm_children(s.drop_last()).push(norm(s.last()))
    }
}

/// The canonical form of a tree: children made canonical bottom-up, then,
/// for a commutative kind only, put in non-decreasing order.
pub open spec fn norm(t: TreeView) -> TreeView
    decreases t,
{
    let kids = norm_children(t.children);
    TreeView {
        kind: t.kind,
        children: if kind_commutative(t.kind) {
            sort_back(kids)
        } else {
            kids
        },
    }
}

/// `norm_children` maps a sequence pointwise.
pub broadcast proof fn lemma_norm_children(s: Seq<TreeView>)
    ensures
        (#[trigger] norm_children(s)).len() == s.len(),
        forall|i: int| 0 <= i < s.len() ==> norm_children(s)[i] == norm(#[trigger] s[i]),
    decreases s,
{
    if s.len() > 0 {
        lemma_norm_children(s.drop_last());
        assert forall|i: int| 0 <= i < s.len() implies norm_children(s)[i] == norm(s[i]) by {
            if i < s.len() - 1 {
                assert(norm_children(s)[i] == norm_children(s.drop_last())[i]);
                assert(s.drop_last()[i] == s[i]);
            }
        }
    }
}

/// Strict transitivity of the character order.
proof fn lemma_lex_lt_trans(a: Seq<char>, b: Seq<char>, c: Seq<char>)
    requires
        lex_chars(a, b) == TreeOrd::Less,
        lex_chars(b, c) == TreeOrd::Less,
    ensures
        lex_chars(a, c) == TreeOrd::Less,
    decreases a.len(),
{
    if a.len() > 0 && b.len() > 0 && c.len() > 0 {
        if (a[0] as u32) == (b[0] as u32) && (b[0] as u32) == (c[0] as u32) {
            lemma_lex_lt_trans(a.drop_first(), b.drop_first(), c.drop_first());
        }
    }
}

/// Strict transitivity of the kind order.
proof fn lemma_cmp_kind_lt_trans(a: crate::view::KindView, b: crate::view::KindView,
    c: crate::view::KindView)
    requires
        cmp_kind(a, b) == TreeOrd::Less,
        cmp_kind(b, c) == TreeOrd::Less,
    ensures
        cmp_kind(a, c) == TreeOrd::Less,
{
    match (a, b, c) {
        (crate::view::KindView::Function(x), crate::view::KindView::Function(y),
        crate::view::KindView::Function(z)) => {
            if lex_chars(x, y) == TreeOrd::Less && lex_chars(y, z) == TreeOrd::Less {
                lemma_lex_lt_trans(x, y, z);
            }
        },
        _ => {},
    }
}

/// Strict transitivity of the tree order on canonical trees.
pub proof fn lemma_cmp_lt_trans(a: TreeView, b: TreeView, c: TreeView)
    requires
        canonical(a),
        canonical(b),
        canonical(c),
        cmp_tree(a, b) == Some(TreeOrd::Less),
        cmp_tree(b, c) == Some(TreeOrd::Less),
    ensures
        cmp_tree(a, c) == Some(TreeOrd::Less),
    decreases hmax(ht(a), hmax(ht(b), ht(c))), 1int, 0int,
{
    lemma_cmp_kind_eq(a.kind, b.kind);
    lemma_cmp_kind_eq(b.kind, c.kind);
    lemma_cmp_kind_eq(a.kind, c.kind);
    if cmp_kind(a.kind, b.kind) == TreeOrd::Less {
        if cmp_kind(b.kind, c.kind) == TreeOrd::Less {
            lemma_cmp_kind_lt_trans(a.kind, b.kind, c.kind);
        }
    } else if cmp_kind(a.kind, b.kind) == TreeOrd::Equal {
        // a and b have the same kind.
        if cmp_kind(b.kind, c.kind) == TreeOrd::Equal {
            if a.children.len() == b.children.len() && b.children.len() == c.children.len() {
                lemma_cmp_seq_lt_trans(a.children, b.children, c.children, 0);
            }
        }
    }
}

/// Strict transitivity of the positional comparison on canonical children.
proof fn lemma_cmp_seq_lt_trans(a: Seq<TreeView>, b: Seq<TreeView>, c: Seq<TreeView>, i: int)
    requires
        0 <= i,
        a.len() == b.len() && b.len() == c.len(),
        elems_canonical(a),
        elems_canonical(b),
        elems_canonical(c),
        cmp_seq_from(a, b, i) == Some(TreeOrd::Less),
        cmp_seq_from(b, c, i) == Some(TreeOrd::Less),
    ensures
        cmp_seq_from(a, c, i) == Some(TreeOrd::Less),
    decreases hmax(ht_seq(a), hmax(ht_seq(b), ht_seq(c))), 2int, a.len() - i,
{
    if i < a.len() {
        let oab = cmp_tree(a[i], b[i]);
        let obc = cmp_tree(b[i], c[i]);
        if oab == Some(TreeOrd::Equal) {
            lemma_cmp_eq(a[i], b[i]);
            if obc == Some(TreeOrd::Equal) {
                lemma_cmp_eq(b[i], c[i]);
                lemma_cmp_refl(a[i]);
                lemma_cmp_seq_lt_trans(a, b, c, i + 1);
            }
        } else if obc == Some(TreeOrd::Equal) {
            lemma_cmp_eq(b[i], c[i]);
        } else if oab == Some(TreeOrd::Less) && obc == Some(TreeOrd::Less) {
            lemma_cmp_lt_trans(a[i], b[i], c[i]);
        }
    }
}

/// Non-decreasing pairs, looked at from either side, are the same thing.
pub proof fn lemma_ordered_le_is_sorted_loose(s: Seq<TreeView>)
    ensures
        ordered_le(s) <==> sorted_loose(s),
{
    assert forall|i: int| 1 <= i < s.len() implies (le(s[i - 1], #[trigger] s[i]) <==> (cmp_tree(
        s[i],
        s[i - 1],
    ) == Some(TreeOrd::Equal) || cmp_tree(s[i], s[i - 1]) == Some(TreeOrd::Greater))) by {
        lemma_cmp_flip(s[i - 1], s[i]);
    }
}

/// Inserting a canonical tree into a non-decreasing canonical sequence
/// keeps it non-decreasing and canonical, one element longer.
pub proof fn lemma_insert_sorted(x: TreeView, s: Seq<TreeView>)
    requires
        canonical(x),
        elems_canonical(s),
        ordered_le(s),
    ensures
        insert_ord(x, s).len() == s.len() + 1,
        elems_canonical(insert_ord(x, s)),
        ordered_le(insert_ord(x, s)),
    decreases s.len(),
{
    let r = insert_ord(x, s);
    if s.len() == 0 {
    } else if lt(x, s[0]) {
        assert forall|i: int| 1 <= i < r.len() implies le(r[i - 1], #[trigger] r[i]) by {
            if i >= 2 {
                assert(r[i - 1] == s[i - 2] && r[i] == s[i - 1]);
            }
        }
    } else {
        // x is at least s[0]: the comparison is decided and not Less.
        lemma_cmp_total(x, s[0]);
        lemma_cmp_flip(s[0], x);
        assert(le(s[0], x));
        assert(elems_canonical(s.drop_first()));
        assert forall|i: int| 1 <= i < s.drop_first().len() implies le(
            s.drop_first()[i - 1],
            #[trigger] s.drop_first()[i],
        ) by {
            assert(s.drop_first()[i - 1] == s[i] && s.drop_first()[i] == s[i + 1]);
        }
        lemma_insert_sorted(x, s.drop_first());
        let t = insert_ord(x, s.drop_first());
        // The head of the recursive insertion is x or the old second element;
        // either follows s[0].
        if s.drop_first().len() == 0 || lt(x, s.drop_first()[0]) {
            assert(t[0] == x);
        } else {
            assert(t[0] == s.drop_first()[0]);
            assert(le(s[0], t[0]));
        }
        assert forall|i: int| 1 <= i < r.len() implies le(r[i - 1], #[trigger] r[i]) by {
            if i == 1 {
                assert(r[0] == s[0] && r[1] == t[0]);
            } else {
                assert(r[i - 1] == t[i - 2] && r[i] == t[i - 1]);
            }
        }
        assert forall|i: int| 0 <= i < r.len() implies canonical(#[trigger] r[i]) by {
            if i > 0 {
                assert(r[i] == t[i - 1]);
            }
        }
    }
}

/// Sorting keeps the length, keeps every element canonical, and yields a
/// non-decreasing sequence.
pub proof fn lemma_sort_back_sorted(s: Seq<TreeView>)
    requires
        elems_canonical(s),
    ensures
        sort_back(s).len() == s.len(),
        elems_canonical(sort_back(s)),
        ordered_le(sort_back(s)),
    decreases s.len(),
{
    if s.len() > 0 {
        assert(elems_canonical(s.drop_last()));
        lemma_sort_back_sorted(s.drop_last());
        lemma_insert_sorted(s.last(), sort_back(s.drop_last()));
    }
}

/// In a non-decreasing canonical sequence every earlier element is at most
/// every later one.
pub proof fn lemma_ordered_global(s: Seq<TreeView>, i: int, j: int)
    requires
        elems_canonical(s),
        ordered_le(s),
        0 <= i <= j < s.len(),
    ensures
        le(s[i], s[j]),
    decreases j - i,
{
    if i == j {
        lemma_cmp_refl(s[i]);
    } else {
        lemma_ordered_global(s, i, j - 1);
        assert(le(s[j - 1], s[j]));
        if cmp_tree(s[i], s[j - 1]) == Some(TreeOrd::Equal) {
            lemma_cmp_eq(s[i], s[j - 1]);
        } else if cmp_tree(s[j - 1], s[j]) == Some(TreeOrd::Equal) {
            lemma_cmp_eq(s[j - 1], s[j]);
        } else {
            lemma_cmp_lt_trans(s[i], s[j - 1], s[j]);
        }
    }
}

/// An element no existing element exceeds is inserted at the very end.
pub proof fn lemma_insert_last(x: TreeView, s: Seq<TreeView>)
    requires
        forall|q: int| 0 <= q < s.len() ==> !lt(x, #[trigger] s[q]),
    ensures
        insert_ord(x, s) == s.push(x),
    decreases s.len(),
{
    if s.len() == 0 {
        assert(insert_ord(x, s) =~= s.push(x));
    } else {
        assert(forall|q: int|
            0 <= q < s.drop_first().len() ==> !lt(x, #[trigger] s.drop_first()[q]));
        lemma_insert_last(x, s.drop_first());
        assert(insert_ord(x, s) =~= s.push(x));
    }
}

/// Sorting a sequence that is already non-decreasing changes nothing.
pub proof fn lemma_sort_back_identity(s: Seq<TreeView>)
    requires
        elems_canonical(s),
        ordered_le(s),
    ensures
        sort_back(s) == s,
    decreases s.len(),
{
    if s.len() > 0 {
        assert(elems_canonical(s.drop_last()));
        assert forall|i: int| 1 <= i < s.drop_last().len() implies le(
            s.drop_last()[i - 1],
            #[trigger] s.drop_last()[i],
        ) by {
            assert(s.drop_last()[i - 1] == s[i - 1] && s.drop_last()[i] == s[i]);
        }
        lemma_sort_back_identity(s.drop_last());
        let x = s.last();
        assert forall|q: int| 0 <= q < s.drop_last().len() implies !lt(x, #[trigger] s.drop_last()[q])
            by {
            lemma_ordered_global(s, q, s.len() - 1);
            lemma_cmp_flip(s[q], x);
        }
        lemma_insert_last(x, s.drop_last());
        assert(s.drop_last().push(x) =~= s);
    }
}

/// Insertion keeps any property every element had.
pub proof fn lemma_insert_pred(p: spec_fn(TreeView) -> bool, x: TreeView, s: Seq<TreeView>)
    requires
        p(x),
        forall|i: int| 0 <= i < s.len() ==> p(#[trigger] s[i]),
    ensures
        insert_ord(x, s).len() == s.len() + 1,
        forall|i: int| 0 <= i < insert_ord(x, s).len() ==> p(#[trigger] insert_ord(x, s)[i]),
    decreases s.len(),
{
    let r = insert_ord(x, s);
    if s.len() == 0 {
    } else if lt(x, s[0]) {
        assert forall|i: int| 0 <= i < r.len() implies p(r[i]) by {
            if i > 0 {
                assert(r[i] == s[i - 1]);
            }
        }
    } else {
        assert(forall|i: int|
            0 <= i < s.drop_first().len() ==> p(#[trigger] s.drop_first()[i]));
        lemma_insert_pred(p, x, s.drop_first());
        assert forall|i: int| 0 <= i < r.len() implies p(r[i]) by {
            if i > 0 {
                assert(r[i] == insert_ord(x, s.drop_first())[i - 1]);
            }
        }
    }
}

/// Sorting keeps any property every element had, and the length.
pub proof fn lemma_sort_back_pred(p: spec_fn(TreeView) -> bool, s: Seq<TreeView>)
    requires
        forall|i: int| 0 <= i < s.len() ==> p(#[trigger] s[i]),
    ensures
        sort_back(s).len() == s.len(),
        forall|i: int| 0 <= i < sort_back(s).len() ==> p(#[trigger] sort_back(s)[i]),
    decreases s.len(),
{
    if s.len() > 0 {
        assert(forall|i: int| 0 <= i < s.drop_last().len() ==> p(#[trigger] s.drop_last()[i]));
        lemma_sort_back_pred(p, s.drop_last());
        lemma_insert_pred(p, s.last(), sort_back(s.drop_last()));
    }
}

/// The canonical form of a well-formed tree is well formed.
pub proof fn lemma_norm_wf(t: TreeView)
    requires
        crate::view::wf(t),
    ensures
        crate::view::wf(norm(t)),
    decreases t,
{
    lemma_norm_children(t.children);
    let kids = norm_children(t.children);
    assert forall|i: int| 0 <= i < kids.len() implies crate::view::wf(#[trigger] kids[i]) by {
        lemma_norm_wf(t.children[i]);
    }
    if kind_commutative(t.kind) {
        lemma_sort_back_pred(|v: TreeView| crate::view::wf(v), kids);
    }
}

/// Where the insertion lands: right before the first strictly larger
/// element.
pub proof fn lemma_insert_ord_at(x: TreeView, s: Seq<TreeView>, p: int)
    requires
        0 <= p <= s.len(),
        forall|q: int| 0 <= q < p ==> !lt(x, #[trigger] s[q]),
        p < s.len() ==> lt(x, s[p]),
    ensures
        insert_ord(x, s) == s.insert(p, x),
    decreases s.len(),
{
    s.insert_ensures(p, x);
    if p == 0 {
        if s.len() == 0 {
            assert(insert_ord(x, s) =~= s.insert(0, x));
        } else {
            assert(insert_ord(x, s) =~= s.insert(0, x));
        }
    } else {
        let rest = s.drop_first();
        assert(!lt(x, s[0]));
        assert forall|q: int| 0 <= q < p - 1 implies !lt(x, #[trigger] rest[q]) by {
            assert(rest[q] == s[q + 1]);
        }
        assert(p - 1 < rest.len() ==> lt(x, rest[p - 1]));
        lemma_insert_ord_at(x, rest, p - 1);
        rest.insert_ensures(p - 1, x);
        assert(insert_ord(x, s) =~= s.insert(p, x));
    }
}

/// The canonical form really is canonical.
pub proof fn lemma_norm_canonical(t: TreeView)
    ensures
        canonical(norm(t)),
    decreases t,
{
    lemma_norm_children(t.children);
    let kids = norm_children(t.children);
    assert forall|i: int| 0 <= i < kids.len() implies canonical(#[trigger] kids[i]) by {
        lemma_norm_canonical(t.children[i]);
    }
    if kind_commutative(t.kind) {
        lemma_sort_back_sorted(kids);
        lemma_ordered_le_is_sorted_loose(sort_back(kids));
    }
}

/// A canonical tree is its own canonical form.
pub proof fn lemma_norm_identity(t: TreeView)
    requires
        canonical(t),
    ensures
        norm(t) == t,
    decreases t,
{
    lemma_norm_children(t.children);
    let kids = norm_children(t.children);
    assert forall|i: int| 0 <= i < kids.len() implies kids[i] == t.children[i] by {
        lemma_norm_identity(t.children[i]);
    }
    assert(kids =~= t.children);
    if kind_commutative(t.kind) {
        lemma_ordered_le_is_sorted_loose(t.children);
        lemma_sort_back_identity(t.children);
    }
    assert(norm(t) =~= t);
}

/// Strict-order test on two trees.
fn lt_exec(a: &MathType, b: &MathType) -> (r: bool)
    ensures
        r == lt(a@, b@),
{
    let c = cmp_trees(a, b);
    matches!(c, Some(TreeOrd::Less))
}

impl MathType {
    /// Builds the canonical form of this tree: children canonicalized
    /// bottom-up, commutative children then put in non-decreasing order.
    fn sorted_copy(&self) -> (r: MathType)
        ensures
            r@ == norm(self@),
        decreases *self,
    {
        let n = self.parameter.len();
        let ghost cs = self@.children;
        proof {
            lemma_views_of(self.parameter@);
            lemma_norm_children(cs);
        }
        let mut kids: Vec<MathType> = Vec::new();
        for i in 0..n
            invariant
                n == self.parameter.len(),
                cs == self@.children,
                cs.len() == n,
                forall|j: int| 0 <= j < n ==> #[trigger] self.parameter@[j]@ == cs[j],
                kids.len() == i,
                forall|j: int| 0 <= j < i ==> #[trigger] kids@[j]@ == norm(cs[j]),
            decreases n - i,
        {
            kids.push(self.parameter[i].sorted_copy());
        }
        let ghost target = norm_children(cs);
        proof {
            assert forall|j: int| 0 <= j < n implies canonical(#[trigger] target[j]) by {
                lemma_norm_canonical(cs[j]);
            }
        }
        if self.kind.is_commutative() {
            let mut skids: Vec<MathType> = Vec::new();
            proof {
                assert(target.take(0) =~= Seq::<TreeView>::empty());
                lemma_views_of(skids@);
            }
            for i in 0..n
                invariant
                    n == kids.len(),
                    target.len() == n,
                    forall|j: int| 0 <= j < n ==> #[trigger] kids@[j]@ == target[j],
                    forall|j: int| 0 <= j < n ==> canonical(#[trigger] target[j]),
                    skids.len() == i,
                    views_of(skids@) == sort_back(target.take(i as int)),
                decreases n - i,
            {
                let ghost sv = views_of(skids@);
                proof {
                    lemma_views_of(skids@);
                    assert(elems_canonical(target.take(i as int)));
                    lemma_sort_back_sorted(target.take(i as int));
                }
                let x = kids[i].clone();
                let mut p: usize = 0;
                while p < skids.len() && !lt_exec(&x, &skids[p])
                    invariant
                        p <= skids.len(),
                        sv == views_of(skids@),
                        sv.len() == skids.len(),
                        forall|q: int| 0 <= q < skids.len() ==> #[trigger] skids@[q]@ == sv[q],
                        x@ == target[i as int],
                        forall|q: int| 0 <= q < p ==> !lt(x@, #[trigger] sv[q]),
                    decreases skids.len() - p,
                {
                    p += 1;
                }
                proof {
                    lemma_insert_ord_at(x@, sv, p as int);
                }
                skids.insert(p, x);
                proof {
                    lemma_views_of(skids@);
                    sv.insert_ensures(p as int, x@);
                    assert(views_of(skids@) =~= sv.insert(p as int, x@));
                    assert(target.take(i + 1).drop_last() =~= target.take(i as int));
                    assert(target.take(i + 1).last() == target[i as int]);
                    assert(views_of(skids@) == sort_back(target.take(i + 1)));
                }
            }
            proof {
                assert(target.take(n as int) =~= target);
            }
            MathType { kind: self.kind.clone(), parameter: skids }
        } else {
            proof {
                lemma_views_of(kids@);
                assert(views_of(kids@) =~= target);
            }
            MathType { kind: self.kind.clone(), parameter: kids }
        }
    }

    /// Reorders, in place and bottom-up, the children of every commutative
    /// node into non-decreasing order. The result is canonical, and a tree
    /// that already is canonical comes out unchanged.
    pub fn sort(&mut self)
        ensures
            final(self)@ == norm(old(self)@),
            canonical(final(self)@),
            canonical(old(self)@) ==> final(self)@ == old(self)@,
    {
        let ghost orig = self@;
        let r = self.sorted_copy();
        *self = r;
        proof {
            lemma_norm_canonical(orig);
            if canonical(orig) {
                lemma_norm_identity(orig);
            }
        }
    }

    /// Whether this tree is canonical: every commutative node's children,
    /// themselves canonical, stand in non-decreasing order.
    pub fn is_sorted(&self) -> (r: bool)
        ensures
            r == canonical(self@),
        decreases *self,
    {
        let n = self.parameter.len();
        let ghost cs = self@.children;
        proof {
            lemma_views_of(self.parameter@);
        }
        for i in 0..n
            invariant
                n == self.parameter.len(),
                cs == self@.children,
                cs.len() == n,
                forall|j: int| 0 <= j < n ==> #[trigger] self.parameter@[j]@ == cs[j],
                forall|j: int| 0 <= j < i ==> canonical(#[trigger] cs[j]),
            decreases n - i,
        {
            if !self.parameter[i].is_sorted() {
                return false;
            }
        }
        if self.kind.is_commutative() {
            let mut i: usize = 1;
            while i < n
                invariant
                    1 <= i || n == 0,
                    i <= n || n == 0,
                    n == self.parameter.len(),
                    cs == self@.children,
                    cs.len() == n,
                    kind_commutative(self@.kind),
                    forall|j: int| 0 <= j < n ==> #[trigger] self.parameter@[j]@ == cs[j],
                    forall|j: int| 0 <= j < n ==> canonical(#[trigger] cs[j]),
                    forall|j: int| 1 <= j < i ==> le(cs[j - 1], #[trigger] cs[j]),
                decreases n - i,
            {
                let c = cmp_trees(&self.parameter[i - 1], &self.parameter[i]);
                if matches!(c, Some(TreeOrd::Greater)) {
                    proof {
                        lemma_cmp_flip(cs[i - 1], cs[i as int]);
                        lemma_ordered_le_is_sorted_loose(cs);
                    }
                    return false;
                }
                proof {
                    lemma_cmp_total(cs[i - 1], cs[i as int]);
                }
                i += 1;
            }
            proof {
                lemma_ordered_le_is_sorted_loose(cs);
            }
        }
        true
    }
}

} // verus!
