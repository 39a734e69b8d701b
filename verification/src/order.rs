//! The order on expression trees: a fixed rank on kinds, then child count,
//! then a positional comparison of children. Comparing the children of a
//! commutative node is meaningful only once both child lists are sorted;
//! elsewhere the comparison reports no order at all.

use vstd::prelude::*;
use vstd::std_specs::iter::IteratorSpec;
use crate::view::{TreeView, KindView, kind_rank, kind_commutative, ht, ht_seq, hmax,
    lemma_ht_seq_bound};
use crate::math_kind::MathTypeName;
use crate::math_type::{MathType, views_of, lemma_views_of};

verus! {

broadcast use
    crate::view::lemma_ht_seq_bound,
    crate::view::lemma_ht_child,
    crate::math_type::lemma_views_of,
;

/// Outcome of a comparison that did find an order.
#[derive(Clone, Copy, PartialEq, Eq, Structural, Debug)]
pub enum TreeOrd {
    Less,
    Equal,
    Greater,
}

/// The mirrored outcome, with no order staying no order.
pub open spec fn flip_ord(o: Option<TreeOrd>) -> Option<TreeOrd> {
    match o {
        Some(TreeOrd::Less) => Some(TreeOrd::Greater),
        Some(TreeOrd::Greater) => Some(TreeOrd::Less),
        _ => o,
    }
}

/// Lexicographic order on character sequences, by unicode scalar value;
/// a proper prefix comes first.
pub open spec fn lex_chars(a: Seq<char>, b: Seq<char>) -> TreeOrd
    decreases a.len(),
{
    if a.len() == 0 && b.len() == 0 {
        TreeOrd::Equal
    } else if a.len() == 0 {
        TreeOrd::Less
    } else if b.len() == 0 {
        TreeOrd::Greater
    } else if (a[0] as u32) < (b[0] as u32) {
        TreeOrd::Less
    } else if (a[0] as u32) > (b[0] as u32) {
        TreeOrd::Greater
    } else {
        lex_chars(a.drop_first(), b.drop_first())
    }
}

/// Order of two machine integers.
pub open spec fn cmp_int(x: int, y: int) -> TreeOrd {
    if x < y {
        TreeOrd::Less
    } else if x > y {
        TreeOrd::Greater
    } else {
        TreeOrd::Equal
    }
}

/// Total order on kinds: rank first, then the name of a function or the
/// value of a constant as tie break.
pub open spec fn cmp_kind(a: KindView, b: KindView) -> TreeOrd {
    if kind_rank(a) != kind_rank(b) {
        cmp_int(kind_rank(a) as int, kind_rank(b) as int)
    } else {
        match (a, b) {
            (KindView::Function(x), KindView::Function(y)) => lex_chars(x, y),
            (KindView::NaturalNumber(x), KindView::NaturalNumber(y)) => cmp_int(
                x as int,
                y as int,
            ),
            _ => TreeOrd::Equal,
        }
    }
}

/// Whether each tree of the sequence compares at least as large as its
/// predecessor — the precondition for comparing commutative children.
/// Mutually recursive with `cmp_tree`.
pub open spec fn sorted_loose(s: Seq<TreeView>) -> bool
    decreases ht_seq(s), 2int, 0int,
{
    forall|i: int|
        1 <= i < s.len() ==> (cmp_tree(#[trigger] s[i], s[i - 1]) == Some(TreeOrd::Equal)
            || cmp_tree(s[i], s[i - 1]) == Some(TreeOrd::Greater))
}

/// Positional comparison of two equally long child lists, from index `i`
/// on: the first strict difference decides; an undecided pair leaves the
/// whole comparison undecided.
pub open spec fn cmp_seq_from(a: Seq<TreeView>, b: Seq<TreeView>, i: int) -> Option<TreeOrd>
    decreases hmax(ht_seq(a), ht_seq(b)), 2int, a.len() - i,
{
    if i < 0 || i >= a.len() || i >= b.len() {
        Some(TreeOrd::Equal)
    } else {
        match cmp_tree(a[i], b[i]) {
            None => None,
            Some(TreeOrd::Equal) => cmp_seq_from(a, b, i + 1),
            Some(o) => Some(o),
        }
    }
}

/// The order on trees. Kind rank decides first; for equal kinds a smaller
/// child count comes first; children then decide positionally. For
/// commutative kinds whose children are not sorted on both sides, there is
/// no order.
pub open spec fn cmp_tree(a: TreeView, b: TreeView) -> Option<TreeOrd>
    decreases hmax(ht(a), ht(b)), 1int, 0int,
{
    if cmp_kind(a.kind, b.kind) != TreeOrd::Equal {
        Some(cmp_kind(a.kind, b.kind))
    } else if a.children.len() != b.children.len() {
        Some(cmp_int(a.children.len() as int, b.children.len() as int))
    } else if kind_commutative(a.kind) && !(sorted_loose(a.children) && sorted_loose(
        b.children,
    )) {
        None
    } else {
        cmp_seq_from(a.children, b.children, 0)
    }
}

/// Equality as the order sees it: the comparison is decided and finds the
/// operands equal. On canonical operands this coincides with being the
/// same tree; on unsorted commutative nodes it never holds.
pub open spec fn peq(a: TreeView, b: TreeView) -> bool {
    cmp_tree(a, b) == Some(TreeOrd::Equal)
}

/// Not larger: less or equal under the tree order.
pub open spec fn le(a: TreeView, b: TreeView) -> bool {
    cmp_tree(a, b) == Some(TreeOrd::Less) || cmp_tree(a, b) == Some(TreeOrd::Equal)
}

/// A tree is canonical when every commutative node's children, themselves
/// canonical, stand in non-decreasing order.
pub open spec fn canonical(t: TreeView) -> bool
    decreases t,
{
    (forall|i: int| 0 <= i < t.children.len() ==> canonical(#[trigger] t.children[i]))
        && (kind_commutative(t.kind) ==> sorted_loose(t.children))
}

/// The mirrored outcome of a decided comparison.
pub open spec fn flip3(o: TreeOrd) -> TreeOrd {
    match o {
        TreeOrd::Less => TreeOrd::Greater,
        TreeOrd::Greater => TreeOrd::Less,
        TreeOrd::Equal => TreeOrd::Equal,
    }
}

/// Swapping the operands of the character order mirrors its outcome.
pub proof fn lemma_lex_chars_flip(a: Seq<char>, b: Seq<char>)
    ensures
        lex_chars(b, a) == flip3(lex_chars(a, b)),
    decreases a.len(),
{
    if a.len() > 0 && b.len() > 0 && (a[0] as u32) == (b[0] as u32) {
        lemma_lex_chars_flip(a.drop_first(), b.drop_first());
    }
}

/// The character order finds equality exactly on equal sequences.
pub proof fn lemma_lex_chars_eq(a: Seq<char>, b: Seq<char>)
    ensures
        lex_chars(a, b) == TreeOrd::Equal <==> a == b,
    decreases a.len(),
{
    if a.len() > 0 && b.len() > 0 && (a[0] as u32) == (b[0] as u32) {
        lemma_lex_chars_eq(a.drop_first(), b.drop_first());
        vstd::utf8::char_u32_cast(a[0], a[0] as u32);
        vstd::utf8::char_u32_cast(b[0], b[0] as u32);
        assert(a[0] == b[0]);
        if lex_chars(a, b) == TreeOrd::Equal {
            assert(a.drop_first() == b.drop_first());
            assert forall|k: int| 0 <= k < a.len() implies a[k] == b[k] by {
                if k > 0 {
                    assert(a[k] == a.drop_first()[k - 1]);
                    assert(b[k] == b.drop_first()[k - 1]);
                }
            }
            assert(a =~= b);
        } else {
            if a == b {
                assert(a.drop_first() =~= b.drop_first());
            }
        }
    } else if a.len() == 0 && b.len() == 0 {
        assert(a =~= b);
    }
}

/// Swapping the operands of the kind order mirrors its outcome.
pub proof fn lemma_cmp_kind_flip(a: KindView, b: KindView)
    ensures
        cmp_kind(b, a) == flip3(cmp_kind(a, b)),
{
    match (a, b) {
        (KindView::Function(x), KindView::Function(y)) => lemma_lex_chars_flip(x, y),
        _ => {},
    }
}

/// The kind order finds equality exactly on equal kinds.
pub proof fn lemma_cmp_kind_eq(a: KindView, b: KindView)
    ensures
        cmp_kind(a, b) == TreeOrd::Equal <==> a == b,
{
    match (a, b) {
        (KindView::Function(x), KindView::Function(y)) => lemma_lex_chars_eq(x, y),
        _ => {},
    }
}

/// Swapping the operands of the tree order mirrors its outcome; no order
/// stays no order.
pub proof fn lemma_cmp_flip(a: TreeView, b: TreeView)
    ensures
        cmp_tree(b, a) == flip_ord(cmp_tree(a, b)),
    decreases hmax(ht(a), ht(b)), 1int, 0int,
{
    lemma_cmp_kind_flip(a.kind, b.kind);
    lemma_cmp_kind_eq(a.kind, b.kind);
    if cmp_kind(a.kind, b.kind) == TreeOrd::Equal && a.children.len() == b.children.len() {
        if !(kind_commutative(a.kind) && !(sorted_loose(a.children) && sorted_loose(b.children))) {
            lemma_cmp_seq_flip(a.children, b.children, 0);
        }
    }
}

/// Positional comparison, mirrored, for each start index.
pub proof fn lemma_cmp_seq_flip(a: Seq<TreeView>, b: Seq<TreeView>, i: int)
    requires
        a.len() == b.len(),
    ensures
        cmp_seq_from(b, a, i) == flip_ord(cmp_seq_from(a, b, i)),
    decreases hmax(ht_seq(a), ht_seq(b)), 2int, a.len() - i,
{
    if 0 <= i < a.len() {
        lemma_cmp_flip(a[i], b[i]);
        if cmp_tree(a[i], b[i]) == Some(TreeOrd::Equal) {
            lemma_cmp_seq_flip(a, b, i + 1);
        }
    }
}

/// Two canonical trees always have an order.
pub proof fn lemma_cmp_total(a: TreeView, b: TreeView)
    requires
        canonical(a),
        canonical(b),
    ensures
        cmp_tree(a, b) is Some,
    decreases hmax(ht(a), ht(b)), 1int, 0int,
{
    if cmp_kind(a.kind, b.kind) == TreeOrd::Equal && a.children.len() == b.children.len() {
        lemma_cmp_seq_total(a.children, b.children, 0);
    }
}

/// Positional comparison of canonical children is always decided.
pub proof fn lemma_cmp_seq_total(a: Seq<TreeView>, b: Seq<TreeView>, i: int)
    requires
        forall|j: int| 0 <= j < a.len() ==> canonical(#[trigger] a[j]),
        forall|j: int| 0 <= j < b.len() ==> canonical(#[trigger] b[j]),
    ensures
        cmp_seq_from(a, b, i) is Some,
    decreases hmax(ht_seq(a), ht_seq(b)), 2int, a.len() - i,
{
    if 0 <= i < a.len() && i < b.len() {
        lemma_cmp_total(a[i], b[i]);
        if cmp_tree(a[i], b[i]) == Some(TreeOrd::Equal) {
            lemma_cmp_seq_total(a, b, i + 1);
        }
    }
}

/// A canonical tree compares equal to itself.
pub proof fn lemma_cmp_refl(a: TreeView)
    requires
        canonical(a),
    ensures
        cmp_tree(a, a) == Some(TreeOrd::Equal),
    decreases hmax(ht(a), ht(a)), 1int, 0int,
{
    lemma_cmp_kind_eq(a.kind, a.kind);
    lemma_cmp_seq_refl(a.children, 0);
}

/// Canonical children compare positionally equal to themselves.
pub proof fn lemma_cmp_seq_refl(a: Seq<TreeView>, i: int)
    requires
        forall|j: int| 0 <= j < a.len() ==> canonical(#[trigger] a[j]),
    ensures
        cmp_seq_from(a, a, i) == Some(TreeOrd::Equal),
    decreases hmax(ht_seq(a), ht_seq(a)), 2int, a.len() - i,
{
    if 0 <= i < a.len() {
        lemma_cmp_refl(a[i]);
        lemma_cmp_seq_refl(a, i + 1);
    }
}

/// Trees that compare equal are the same tree.
pub proof fn lemma_cmp_eq(a: TreeView, b: TreeView)
    requires
        cmp_tree(a, b) == Some(TreeOrd::Equal),
    ensures
        a == b,
    decreases hmax(ht(a), ht(b)), 1int, 0int,
{
    lemma_cmp_kind_eq(a.kind, b.kind);
    lemma_cmp_seq_eq(a.children, b.children, 0);
    assert(a.children =~= b.children);
    assert(a =~= b);
}

/// Child lists that compare positionally equal agree from the start index
/// on.
pub proof fn lemma_cmp_seq_eq(a: Seq<TreeView>, b: Seq<TreeView>, i: int)
    requires
        0 <= i,
        a.len() == b.len(),
        cmp_seq_from(a, b, i) == Some(TreeOrd::Equal),
    ensures
        forall|j: int| i <= j < a.len() ==> a[j] == #[trigger] b[j],
    decreases hmax(ht_seq(a), ht_seq(b)), 2int, a.len() - i,
{
    if 0 <= i < a.len() {
        if cmp_tree(a[i], b[i]) == Some(TreeOrd::Equal) {
            lemma_cmp_eq(a[i], b[i]);
            lemma_cmp_seq_eq(a, b, i + 1);
        }
    }
}

/// Compares two names character by character, by unicode scalar value.
fn str_lex_cmp(a: &str, b: &str) -> (r: TreeOrd)
    ensures
        r == lex_chars(a@, b@),
{
    let mut ia = a.chars();
    let mut ib = b.chars();
    loop
        invariant
            ia.obeys_prophetic_iter_laws(),
            ib.obeys_prophetic_iter_laws(),
            ia.decrease() is Some,
            lex_chars(ia.remaining(), ib.remaining()) == lex_chars(a@, b@),
        decreases ia.decrease()->0,
    {
        let ghost ra = ia.remaining();
        let ghost rb = ib.remaining();
        let ca = ia.next();
        let cb = ib.next();
        match (ca, cb) {
            (None, None) => {
                return TreeOrd::Equal;
            },
            (None, Some(_)) => {
                return TreeOrd::Less;
            },
            (Some(_), None) => {
                return TreeOrd::Greater;
            },
            (Some(x), Some(y)) => {
                proof {
                    assert(ra.len() > 0 && rb.len() > 0);
                    assert(ra[0] == x && rb[0] == y);
                }
                if (x as u32) < (y as u32) {
                    return TreeOrd::Less;
                }
                if (x as u32) > (y as u32) {
                    return TreeOrd::Greater;
                }
            },
        }
    }
}

/// Compares two kinds: rank, then name or value.
pub fn cmp_kinds(a: &MathTypeName, b: &MathTypeName) -> (r: TreeOrd)
    ensures
        r == cmp_kind(a@, b@),
{
    let ra = a.index();
    let rb = b.index();
    if ra < rb {
        return TreeOrd::Less;
    }
    if ra > rb {
        return TreeOrd::Greater;
    }
    match (a, b) {
        (MathTypeName::Function(x), MathTypeName::Function(y)) => str_lex_cmp(
            x.as_str(),
            y.as_str(),
        ),
        (MathTypeName::NaturalNumber(x), MathTypeName::NaturalNumber(y)) => {
            if x < y {
                TreeOrd::Less
            } else if x > y {
                TreeOrd::Greater
            } else {
                TreeOrd::Equal
            }
        },
        _ => TreeOrd::Equal,
    }
}

/// Compares two trees under the tree order; `None` reports that the
/// operands, being unsorted commutative nodes, have no order yet.
pub fn cmp_trees(a: &MathType, b: &MathType) -> (r: Option<TreeOrd>)
    ensures
        r == cmp_tree(a@, b@),
    decreases hmax(ht(a@), ht(b@)), 1int, 0int,
{
    let k = cmp_kinds(&a.kind, &b.kind);
    if !matches!(k, TreeOrd::Equal) {
        return Some(k);
    }
    let n = a.parameter.len();
    proof {
        lemma_views_of(a.parameter@);
        lemma_views_of(b.parameter@);
    }
    if n != b.parameter.len() {
        if n < b.parameter.len() {
            return Some(TreeOrd::Less);
        }
        return Some(TreeOrd::Greater);
    }
    let ghost av = a@.children;
    let ghost bv = b@.children;
    proof {
        assert forall|j: int| 0 <= j < n implies #[trigger] a.parameter@[j]@ == av[j]
            && ht(av[j]) < ht(a@) by {
            lemma_views_of(a.parameter@);
        }
        assert forall|j: int| 0 <= j < n implies #[trigger] b.parameter@[j]@ == bv[j]
            && ht(bv[j]) < ht(b@) by {
            lemma_views_of(b.parameter@);
        }
    }
    if a.kind.is_commutative() {
        let mut i: usize = 1;
        while i < n
            invariant
                1 <= i || n == 0,
                i <= n || n == 0,
                n == a.parameter.len() == b.parameter.len(),
                av == a@.children && bv == b@.children,
                av.len() == n && bv.len() == n,
                forall|j: int| 0 <= j < n ==> #[trigger] a.parameter@[j]@ == av[j],
                forall|j: int| 0 <= j < n ==> #[trigger] b.parameter@[j]@ == bv[j],
                forall|j: int| 0 <= j < n ==> ht(#[trigger] av[j]) < ht(a@),
                forall|j: int| 0 <= j < n ==> ht(#[trigger] bv[j]) < ht(b@),
                cmp_kind(a@.kind, b@.kind) == TreeOrd::Equal,
                kind_commutative(a@.kind),
                forall|j: int|
                    1 <= j < i ==> (cmp_tree(#[trigger] av[j], av[j - 1]) == Some(TreeOrd::Equal)
                        || cmp_tree(av[j], av[j - 1]) == Some(TreeOrd::Greater)),
                forall|j: int|
                    1 <= j < i ==> (cmp_tree(#[trigger] bv[j], bv[j - 1]) == Some(TreeOrd::Equal)
                        || cmp_tree(bv[j], bv[j - 1]) == Some(TreeOrd::Greater)),
            decreases n - i,
        {
            let ca = cmp_trees(&a.parameter[i], &a.parameter[i - 1]);
            match ca {
                Some(TreeOrd::Equal) | Some(TreeOrd::Greater) => {},
                _ => {
                    proof {
                        assert(!sorted_loose(av));
                    }
                    return None;
                },
            }
            let cb = cmp_trees(&b.parameter[i], &b.parameter[i - 1]);
            match cb {
                Some(TreeOrd::Equal) | Some(TreeOrd::Greater) => {},
                _ => {
                    proof {
                        assert(!sorted_loose(bv));
                    }
                    return None;
                },
            }
            i += 1;
        }
        proof {
            assert(sorted_loose(av));
            assert(sorted_loose(bv));
        }
    }
    proof {
        assert(cmp_tree(a@, b@) == cmp_seq_from(av, bv, 0));
    }
    let mut i: usize = 0;
    while i < n
        invariant
            i <= n,
            n == a.parameter.len() == b.parameter.len(),
            av == a@.children && bv == b@.children,
            av.len() == n && bv.len() == n,
            forall|j: int| 0 <= j < n ==> #[trigger] a.parameter@[j]@ == av[j],
            forall|j: int| 0 <= j < n ==> #[trigger] b.parameter@[j]@ == bv[j],
            forall|j: int| 0 <= j < n ==> ht(#[trigger] av[j]) < ht(a@),
            forall|j: int| 0 <= j < n ==> ht(#[trigger] bv[j]) < ht(b@),
            cmp_tree(a@, b@) == cmp_seq_from(av, bv, i as int),
        decreases n - i,
    {
        let c = cmp_trees(&a.parameter[i], &b.parameter[i]);
        match c {
            None => {
                return None;
            },
            Some(TreeOrd::Equal) => {},
            Some(o) => {
                return Some(o);
            },
        }
        i += 1;
    }
    Some(TreeOrd::Equal)
}

} // verus!
