//! Best-effort common-factor extraction on sums: a search over subsets of
//! summands and subsets of shared factors, scored by how much the
//! rewrite saves, with the first best-scoring valid selection winning.
//! Subsets are machine-word bitmasks, so the search covers sums and
//! factor lists of fewer than 64 entries; anything larger is returned
//! unchanged.

use vstd::prelude::*;
use crate::view::{TreeView, KindView, wf, arity_ok};
use crate::math_kind::MathTypeName;
use crate::math_type::{MathType, views_of, lemma_views_of};
use crate::order::{TreeOrd, peq, cmp_trees};

verus! {

broadcast use
    crate::view::lemma_ht_seq_bound,
    crate::view::lemma_ht_child,
    crate::math_type::lemma_views_push,
;

/// How many factors a summand offers: its child count if it is a
/// product, else one, the summand itself.
pub open spec fn term_factors(t: TreeView) -> int {
    if t.kind is Product {
        t.children.len() as int
    } else {
        1
    }
}

/// Whether bit `j` of the mask is set.
pub open spec fn sel_in(m: u64, j: u64) -> bool {
    j < 64 && ((m >> j) & 1u64) == 1u64
}

/// How many of the bits below `j` are set.
pub open spec fn sel_count(m: u64, j: int) -> int
    decreases j,
{
    if j <= 0 {
        0
    } else {
        sel_count(m, j - 1) + if sel_in(m, (j - 1) as u64) {
            1int
        } else {
            0int
        }
    }
}

/// A stand-in for infinity when taking a minimum over factor counts.
pub open spec fn factor_inf() -> int {
    0x1_0000_0000_0000_0000
}

/// The smallest factor count among the selected summands below `j`.
pub open spec fn min_factors(p: Seq<TreeView>, m: u64, j: int) -> int
    decreases j,
{
    if j <= 0 {
        factor_inf()
    } else {
        let rest = min_factors(p, m, j - 1);
        if sel_in(m, (j - 1) as u64) && term_factors(p[j - 1]) < rest {
            term_factors(p[j - 1])
        } else {
            rest
        }
    }
}

/// The lowest selected index at or after `j`, or 64 when none is.
pub open spec fn first_sel(m: u64, j: u64) -> u64
    decreases 64 - j,
{
    if j >= 64 {
        64
    } else if sel_in(m, j) {
        j
    } else {
        first_sel(m, (j + 1) as u64)
    }
}

/// The elements of `s` whose index bit is set, in order, below `j`.
pub open spec fn subselect(s: Seq<TreeView>, m: u64, j: int) -> Seq<TreeView>
    decreases j,
{
    if j <= 0 {
        Seq::empty()
    } else if sel_in(m, (j - 1) as u64) {
        subselect(s, m, j - 1).push(s[j - 1])
    } else {
        subselect(s, m, j - 1)
    }
}

/// The factors the mask picks from the first selected summand: from its
/// factor list if it is a product, else the summand itself.
pub open spec fn selected_factors(first: TreeView, fm: u64) -> Seq<TreeView> {
    if first.kind is Product {
        subselect(first.children, fm, first.children.len() as int)
    } else {
        seq![first]
    }
}

/// Whether `fs`, from position `fi` on, occurs inside `ss`, from
/// position `si` on, in order, each factor matched to the first equal
/// element not yet passed.
pub open spec fn subseq_from(fs: Seq<TreeView>, ss: Seq<TreeView>, fi: int, si: int) -> bool
    decreases fs.len() - fi, ss.len() - si,
{
    if fi < 0 || si < 0 {
        false
    } else if fi >= fs.len() {
        true
    } else if si >= ss.len() {
        false
    } else if peq(ss[si], fs[fi]) {
        subseq_from(fs, ss, fi + 1, si + 1)
    } else {
        subseq_from(fs, ss, fi, si + 1)
    }
}

/// Whether one summand supports the chosen factors: a product must
/// contain them as an in-order subsequence, a bare summand only matches
/// a single factor equal to itself.
pub open spec fn term_ok(t: TreeView, fs: Seq<TreeView>) -> bool {
    if t.kind is Product {
        subseq_from(fs, t.children, 0, 0)
    } else {
        fs.len() == 1 && peq(fs[0], t)
    }
}

/// Whether every selected summand supports the factors that the factor
/// mask picks from the first selected one.
pub open spec fn valid_selection(p: Seq<TreeView>, sm: u64, fm: u64) -> bool {
    let fs = selected_factors(p[first_sel(sm, 0) as int], fm);
    forall|j: int|
        0 <= j < p.len() && sel_in(sm, j as u64) ==> term_ok(#[trigger] p[j], fs)
}

/// The best selection found after also considering factor masks below
/// `fm_limit` for the summand mask `sm`: a candidate replaces the
/// standing best only when valid and strictly better scoring.
pub open spec fn fm_scan(p: Seq<TreeView>, sm: u64, fm_limit: int, best: (u64, u64, int)) -> (
    u64,
    u64,
    int,
)
    decreases fm_limit,
{
    if fm_limit <= 0 {
        best
    } else {
        let b = fm_scan(p, sm, fm_limit - 1, best);
        let fm = (fm_limit - 1) as u64;
        let cnt_s = sel_count(sm, 64);
        let cnt_f = sel_count(fm, 64);
        if 1 <= cnt_f && cnt_f <= min_factors(p, sm, p.len() as int) && cnt_s * cnt_f > b.2
            && valid_selection(p, sm, fm) {
            (sm, fm, cnt_s * cnt_f)
        } else {
            b
        }
    }
}

/// The best selection over all summand masks below `sm_limit`, masks
/// with fewer than two summands passed over.
pub open spec fn sm_scan(p: Seq<TreeView>, sm_limit: int, best: (u64, u64, int)) -> (u64, u64, int)
    decreases sm_limit,
{
    if sm_limit <= 0 {
        best
    } else {
        let b = sm_scan(p, sm_limit - 1, best);
        let sm = (sm_limit - 1) as u64;
        if sel_count(sm, 64) >= 2 {
            let flen = term_factors(p[first_sel(sm, 0) as int]);
            fm_scan(p, sm, (1u64 << (flen as u64)) as int, b)
        } else {
            b
        }
    }
}

/// `s` with the first element equal to `f` removed, if any.
pub open spec fn remove_first(ss: Seq<TreeView>, f: TreeView) -> Seq<TreeView>
    decreases ss.len(),
{
    if ss.len() == 0 {
        ss
    } else if peq(ss[0], f) {
        ss.drop_first()
    } else {
        seq![ss[0]] + remove_first(ss.drop_first(), f)
    }
}

/// `ss` with, for each of the first `k` factors in turn, its first equal
/// element removed.
pub open spec fn remove_factors(ss: Seq<TreeView>, fs: Seq<TreeView>, k: int) -> Seq<TreeView>
    decreases k,
{
    if k <= 0 {
        ss
    } else {
        remove_first(remove_factors(ss, fs, k - 1), fs[k - 1])
    }
}

/// The remainder products of the selected summands below `j`: each
/// selected product summand keeps its factors minus the shared ones; an
/// emptied summand, and a selected bare summand, contribute nothing.
pub open spec fn reduced_summands(p: Seq<TreeView>, sm: u64, fs: Seq<TreeView>, j: int) -> Seq<
    TreeView,
>
    decreases j,
{
    if j <= 0 {
        Seq::empty()
    } else {
        let pre = reduced_summands(p, sm, fs, j - 1);
        if sel_in(sm, (j - 1) as u64) && p[j - 1].kind is Product {
            let rem = remove_factors(p[j - 1].children, fs, fs.len() as int);
            if rem.len() == 0 {
                pre
            } else {
                pre.push(TreeView { kind: KindView::Product, children: rem })
            }
        } else {
            pre
        }
    }
}

/// The unselected summands below `j`, in order.
pub open spec fn other_summands(p: Seq<TreeView>, sm: u64, j: int) -> Seq<TreeView>
    decreases j,
{
    if j <= 0 {
        Seq::empty()
    } else if sel_in(sm, (j - 1) as u64) {
        other_summands(p, sm, j - 1)
    } else {
        other_summands(p, sm, j - 1).push(p[j - 1])
    }
}

/// What the winning selection rewrites the sum's children to: the
/// untouched summands, then one product of the shared factors and the
/// sum of the remainders.
pub open spec fn rewrite_selection(p: Seq<TreeView>, sm: u64, fm: u64) -> Seq<TreeView> {
    let fs = selected_factors(p[first_sel(sm, 0) as int], fm);
    let grouped = TreeView {
        kind: KindView::Product,
        children: fs + seq![
            TreeView {
                kind: KindView::Sum,
                children: reduced_summands(p, sm, fs, p.len() as int),
            },
        ],
    };
    other_summands(p, sm, p.len() as int).push(grouped)
}

/// Whether the sum is small enough for the bitmask search: fewer than 64
/// summands, each with fewer than 64 factors.
pub open spec fn search_in_bounds(p: Seq<TreeView>) -> bool {
    p.len() < 64 && forall|j: int| 0 <= j < p.len() ==> term_factors(#[trigger] p[j]) < 64
}

/// `factor_out_t`, applied to each tree of a sequence.
pub open spec fn factor_children(s: Seq<TreeView>) -> Seq<TreeView>
    decreases s,
{
    if s.len() == 0 {
        Seq::empty()
    } else {
        factor_children(s.drop_last()).push(factor_out_t(s.last()))
    }
}

/// Common-factor extraction: on a sum within the search bounds, the best
/// valid selection — first found winning ties — has its shared factors
/// pulled out in front of the sum of remainders; a sum with no valid
/// selection, or one out of bounds, stays as it is. Other kinds recurse
/// structurally.
pub open spec fn factor_out_t(t: TreeView) -> TreeView
    decreases t,
{
    if t.kind != KindView::Sum {
        TreeView { kind: t.kind, children: factor_children(t.children) }
    } else if !search_in_bounds(t.children) {
        t
    } else {
        let best = sm_scan(t.children, (1u64 << (t.children.len() as u64)) as int, (0, 0, 0));
        if best.2 == 0 {
            t
        } else {
            TreeView { kind: KindView::Sum, children: rewrite_selection(t.children, best.0, best.1) }
        }
    }
}

/// Tests one bit of a mask.
fn bit_set(m: u64, j: u64) -> (r: bool)
    requires
        j < 64,
    ensures
        r == sel_in(m, j),
{
    ((m >> j) & 1u64) == 1u64
}

/// Counts the set bits of a mask.
fn popcount(m: u64) -> (r: u64)
    ensures
        r as int == sel_count(m, 64),
        r <= 64,
{
    let mut r: u64 = 0;
    let mut j: u64 = 0;
    while j < 64
        invariant
            j <= 64,
            r as int == sel_count(m, j as int),
            r <= j,
        decreases 64 - j,
    {
        if bit_set(m, j) {
            r = r + 1;
        }
        j = j + 1;
    }
    r
}

/// Finds the lowest set bit of a mask, or 64 when none is set.
fn first_sel_exec(m: u64) -> (r: u64)
    ensures
        r == first_sel(m, 0),
{
    let mut j: u64 = 0;
    while j < 64
        invariant
            j <= 64,
            first_sel(m, j) == first_sel(m, 0),
        decreases 64 - j,
    {
        if bit_set(m, j) {
            return j;
        }
        j = j + 1;
    }
    64
}

/// A mask below the `j`-th power of two has no set bit at or above `j`.
proof fn lemma_bit_below(m: u64, k: u64, n: u64)
    requires
        n < 64,
        k < 64,
        m < (1u64 << n),
        ((m >> k) & 1u64) == 1u64,
    ensures
        k < n,
{
    assert(k < n) by (bit_vector)
        requires
            n < 64,
            k < 64,
            m < (1u64 << n),
            ((m >> k) & 1u64) == 1u64,
    ;
}

/// What the lowest-set-bit search finds: a set bit, every bit below it
/// clear, or 64 when the mask has no set bit from `j` on.
proof fn lemma_first_sel_char(m: u64, j: u64)
    ensures
        first_sel(m, j) <= 64,
        first_sel(m, j) == 64 ==> forall|k: u64| j <= k < 64 ==> !sel_in(m, k),
        first_sel(m, j) < 64 ==> j <= first_sel(m, j) && sel_in(m, first_sel(m, j)),
    decreases 64 - j,
{
    if j < 64 && !sel_in(m, j) {
        lemma_first_sel_char(m, (j + 1) as u64);
        if first_sel(m, j) == 64 {
            assert forall|k: u64| j <= k < 64 implies !sel_in(m, k) by {
                if k > j {
                    assert(!sel_in(m, k));
                }
            }
        }
    }
}

/// A positive count means a set bit below the counted range.
proof fn lemma_count_has_bit(m: u64, j: int)
    requires
        sel_count(m, j) >= 1,
    ensures
        exists|k: u64| k < j && sel_in(m, k),
    decreases j,
{
    if j > 0 {
        if sel_in(m, (j - 1) as u64) {
            assert(sel_in(m, (j - 1) as u64));
            assert(((j - 1) as u64) < j);
        } else {
            lemma_count_has_bit(m, j - 1);
        }
    }
}

/// For a mask below the sum's power of two with set bits, the lowest set
/// bit indexes a summand.
proof fn lemma_first_sel_lt(m: u64, n: u64)
    requires
        n < 64,
        m < (1u64 << n),
        sel_count(m, 64) >= 1,
    ensures
        first_sel(m, 0) < n,
        sel_in(m, first_sel(m, 0)),
{
    lemma_first_sel_char(m, 0);
    if first_sel(m, 0) == 64 {
        lemma_count_has_bit(m, 64);
        let k = choose|k: u64| k < 64 && sel_in(m, k);
        assert(!sel_in(m, k));
    }
    lemma_bit_below(m, first_sel(m, 0), n);
}

/// Whether a best-so-far triple is sane: a scored selection names at
/// least two summands by a mask within range.
pub open spec fn cand_ok(n: int, b: (u64, u64, int)) -> bool {
    b.2 > 0 ==> (b.0 < (1u64 << (n as u64)) && sel_count(b.0, 64) >= 2)
}

/// The factor-mask scan keeps the best-so-far sane.
proof fn lemma_fm_scan_cand(p: Seq<TreeView>, sm: u64, fml: int, best: (u64, u64, int), n: int)
    requires
        cand_ok(n, best),
        sm < (1u64 << (n as u64)),
        sel_count(sm, 64) >= 2,
    ensures
        cand_ok(n, fm_scan(p, sm, fml, best)),
    decreases fml,
{
    if fml > 0 {
        lemma_fm_scan_cand(p, sm, fml - 1, best, n);
    }
}

/// The summand-mask scan keeps the best-so-far sane.
proof fn lemma_sm_scan_cand(p: Seq<TreeView>, sml: int, best: (u64, u64, int), n: int)
    requires
        cand_ok(n, best),
        0 <= n < 64,
        sml <= (1u64 << (n as u64)) as int,
    ensures
        cand_ok(n, sm_scan(p, sml, best)),
    decreases sml,
{
    if sml > 0 {
        lemma_sm_scan_cand(p, sml - 1, best, n);
        let b = sm_scan(p, sml - 1, best);
        let sm = (sml - 1) as u64;
        if sel_count(sm, 64) >= 2 {
            lemma_fm_scan_cand(p, sm, (1u64 << (term_factors(
                p[first_sel(sm, 0) as int],
            ) as u64)) as int, b, n);
        }
    }
}

/// Removing a tree keeps the ghost-tree list aligned.
proof fn lemma_views_remove(s: Seq<MathType>, i: int)
    requires
        0 <= i < s.len(),
    ensures
        views_of(s.remove(i)) == views_of(s).remove(i),
{
    lemma_views_of(s);
    lemma_views_of(s.remove(i));
    s.remove_ensures(i);
    views_of(s).remove_ensures(i);
    assert(views_of(s.remove(i)) =~= views_of(s).remove(i));
}

/// Where the first equal element sits, removal takes exactly it out.
proof fn lemma_remove_first_found(ss: Seq<TreeView>, f: TreeView, i: int)
    requires
        0 <= i < ss.len(),
        forall|q: int| 0 <= q < i ==> !peq(#[trigger] ss[q], f),
        peq(ss[i], f),
    ensures
        remove_first(ss, f) == ss.remove(i),
    decreases i,
{
    ss.remove_ensures(i);
    if i == 0 {
        assert(remove_first(ss, f) =~= ss.remove(0));
    } else {
        assert(!peq(ss[0], f));
        let rest = ss.drop_first();
        assert forall|q: int| 0 <= q < i - 1 implies !peq(#[trigger] rest[q], f) by {
            assert(rest[q] == ss[q + 1]);
        }
        assert(rest[i - 1] == ss[i]);
        lemma_remove_first_found(rest, f, i - 1);
        rest.remove_ensures(i - 1);
        assert(remove_first(ss, f) =~= ss.remove(i));
    }
}

/// With no equal element, removal changes nothing.
proof fn lemma_remove_first_none(ss: Seq<TreeView>, f: TreeView)
    requires
        forall|q: int| 0 <= q < ss.len() ==> !peq(#[trigger] ss[q], f),
    ensures
        remove_first(ss, f) == ss,
    decreases ss.len(),
{
    if ss.len() > 0 {
        let rest = ss.drop_first();
        assert forall|q: int| 0 <= q < rest.len() implies !peq(#[trigger] rest[q], f) by {
            assert(rest[q] == ss[q + 1]);
        }
        lemma_remove_first_none(rest, f);
        assert(remove_first(ss, f) =~= ss);
    }
}

/// Removal keeps well-formedness of every element.
proof fn lemma_remove_first_wf(ss: Seq<TreeView>, f: TreeView)
    requires
        forall|q: int| 0 <= q < ss.len() ==> wf(#[trigger] ss[q]),
    ensures
        remove_first(ss, f).len() <= ss.len(),
        forall|q: int| 0 <= q < remove_first(ss, f).len() ==> wf(#[trigger] remove_first(ss, f)[q]),
    decreases ss.len(),
{
    if ss.len() > 0 && !peq(ss[0], f) {
        let rest = ss.drop_first();
        assert forall|q: int| 0 <= q < rest.len() implies wf(#[trigger] rest[q]) by {
            assert(rest[q] == ss[q + 1]);
        }
        lemma_remove_first_wf(rest, f);
        let r = remove_first(ss, f);
        assert forall|q: int| 0 <= q < r.len() implies wf(#[trigger] r[q]) by {
            if q > 0 {
                assert(r[q] == remove_first(rest, f)[q - 1]);
            }
        }
    }
}

/// Takes out of `v` its first tree equal to `f`, if one is there.
fn remove_first_exec(v: &mut Vec<MathType>, f: &MathType)
    ensures
        views_of(final(v)@) == remove_first(views_of(old(v)@), f@),
{
    let ghost sv = views_of(v@);
    proof {
        lemma_views_of(v@);
    }
    let n = v.len();
    let mut i: usize = 0;
    while i < n
        invariant
            i <= n,
            n == v.len(),
            sv == views_of(v@),
            sv == views_of(old(v)@),
            v@ == old(v)@,
            sv.len() == n,
            forall|q: int| 0 <= q < n ==> #[trigger] v@[q]@ == sv[q],
            forall|q: int| 0 <= q < i ==> !peq(#[trigger] sv[q], f@),
        decreases n - i,
    {
        let c = cmp_trees(&v[i], f);
        if matches!(c, Some(TreeOrd::Equal)) {
            let ghost vv = v@;
            let _ = v.remove(i);
            proof {
                lemma_views_remove(vv, i as int);
                lemma_remove_first_found(sv, f@, i as int);
            }
            return ;
        }
        i = i + 1;
    }
    proof {
        lemma_remove_first_none(sv, f@);
    }
}

/// How many factors a summand offers, as the search counts them.
fn factors_len(t: &MathType) -> (r: usize)
    ensures
        r as int == term_factors(t@),
{
    proof {
        lemma_views_of(t.parameter@);
    }
    if matches!(t.kind, MathTypeName::Product) {
        t.parameter.len()
    } else {
        1
    }
}

/// The smallest factor count among the summands the mask selects.
fn min_factors_exec(p: &Vec<MathType>, m: u64) -> (r: u128)
    requires
        p@.len() < 64,
    ensures
        r as int == min_factors(views_of(p@), m, p@.len() as int),
{
    let ghost pv = views_of(p@);
    proof {
        lemma_views_of(p@);
    }
    let n = p.len();
    let mut r: u128 = 0x1_0000_0000_0000_0000u128;
    for j in 0..n
        invariant
            n == p@.len(),
            n < 64,
            pv == views_of(p@),
            pv.len() == n,
            forall|q: int| 0 <= q < n ==> #[trigger] p@[q]@ == pv[q],
            r as int == min_factors(pv, m, j as int),
        decreases n - j,
    {
        if bit_set(m, j as u64) {
            let tf = factors_len(&p[j]);
            if (tf as u128) < r {
                r = tf as u128;
            }
        }
    }
    r
}

/// The factors the mask picks from the first selected summand.
fn selected_factors_exec(first: &MathType, fm: u64) -> (r: Vec<MathType>)
    requires
        term_factors(first@) < 64,
    ensures
        views_of(r@) == selected_factors(first@, fm),
        wf(first@) ==> forall|q: int| 0 <= q < r@.len() ==> wf(#[trigger] r@[q]@),
{
    let ghost fv = first@;
    proof {
        lemma_views_of(first.parameter@);
    }
    let mut out: Vec<MathType> = Vec::new();
    if matches!(first.kind, MathTypeName::Product) {
        let n = first.parameter.len();
        proof {
            assert(fv.children.len() == n);
        }
        for j in 0..n
            invariant
                n == first.parameter.len(),
                n < 64,
                fv == first@,
                fv.kind is Product,
                fv.children.len() == n,
                forall|q: int| 0 <= q < n ==> #[trigger] first.parameter@[q]@ == fv.children[q],
                views_of(out@) == subselect(fv.children, fm, j as int),
                wf(fv) ==> forall|q: int| 0 <= q < out.len() ==> wf(#[trigger] out@[q]@),
            decreases n - j,
        {
            if bit_set(fm, j as u64) {
                out.push(first.parameter[j].clone());
            }
        }
        proof {
            assert(views_of(out@) == selected_factors(fv, fm));
        }
    } else {
        out.push(first.clone());
        proof {
            assert(views_of(out@) =~= seq![fv]);
        }
    }
    out
}

/// Whether the factor list occurs, in order, inside the candidate list.
fn subseq_check(fs: &Vec<MathType>, ss: &Vec<MathType>) -> (r: bool)
    ensures
        r == subseq_from(views_of(fs@), views_of(ss@), 0, 0),
{
    let ghost fv = views_of(fs@);
    let ghost sv = views_of(ss@);
    proof {
        lemma_views_of(fs@);
        lemma_views_of(ss@);
    }
    let nf = fs.len();
    let ns = ss.len();
    let mut fi: usize = 0;
    let mut si: usize = 0;
    loop
        invariant
            fi <= nf,
            si <= ns,
            nf == fs.len() && ns == ss.len(),
            fv == views_of(fs@) && sv == views_of(ss@),
            fv.len() == nf && sv.len() == ns,
            forall|q: int| 0 <= q < nf ==> #[trigger] fs@[q]@ == fv[q],
            forall|q: int| 0 <= q < ns ==> #[trigger] ss@[q]@ == sv[q],
            subseq_from(fv, sv, fi as int, si as int) == subseq_from(fv, sv, 0, 0),
        decreases ns - si,
    {
        if fi >= nf {
            return true;
        }
        if si >= ns {
            return false;
        }
        let c = cmp_trees(&ss[si], &fs[fi]);
        if matches!(c, Some(TreeOrd::Equal)) {
            fi = fi + 1;
        }
        si = si + 1;
    }
}

/// Whether every summand the mask selects supports the chosen factors.
fn check_selection(p: &Vec<MathType>, sm: u64, fs: &Vec<MathType>) -> (r: bool)
    requires
        p@.len() < 64,
    ensures
        r == (forall|j: int|
            0 <= j < p@.len() && sel_in(sm, j as u64) ==> term_ok(
                #[trigger] views_of(p@)[j],
                views_of(fs@),
            )),
{
    let ghost pv = views_of(p@);
    let ghost fsv = views_of(fs@);
    proof {
        lemma_views_of(p@);
        lemma_views_of(fs@);
    }
    let n = p.len();
    for j in 0..n
        invariant
            n == p@.len(),
            n < 64,
            pv == views_of(p@) && fsv == views_of(fs@),
            pv.len() == n,
            fsv.len() == fs@.len(),
            forall|q: int| 0 <= q < n ==> #[trigger] p@[q]@ == pv[q],
            forall|q: int| 0 <= q < fs@.len() ==> #[trigger] fs@[q]@ == fsv[q],
            forall|q: int| 0 <= q < j && sel_in(sm, q as u64) ==> term_ok(#[trigger] pv[q], fsv),
        decreases n - j,
    {
        if bit_set(sm, j as u64) {
            proof {
                assert(p@[j as int]@ == pv[j as int]);
            }
            if matches!(p[j].kind, MathTypeName::Product) {
                proof {
                    assert(pv[j as int].kind is Product);
                    lemma_views_of(p@[j as int].parameter@);
                    assert(views_of(p@[j as int].parameter@) =~= pv[j as int].children);
                }
                if !subseq_check(fs, &p[j].parameter) {
                    proof {
                        assert(!term_ok(pv[j as int], fsv));
                    }
                    return false;
                }
            } else {
                proof {
                    assert(!(pv[j as int].kind is Product));
                    assert(fs@.len() == fsv.len());
                }
                if fs.len() != 1 {
                    proof {
                        assert(!term_ok(pv[j as int], fsv));
                    }
                    return false;
                }
                let c = cmp_trees(&fs[0], &p[j]);
                if !matches!(c, Some(TreeOrd::Equal)) {
                    proof {
                        assert(fs@[0]@ == fsv[0]);
                        assert(!term_ok(pv[j as int], fsv));
                    }
                    return false;
                }
            }
            proof {
                assert(term_ok(pv[j as int], fsv));
            }
        }
    }
    true
}

impl MathType {
    /// Pulls the best common factor out of this sum, if the search over
    /// summand and factor subsets finds a valid one: the shared factors
    /// are set in front of the sum of the remainders, untouched summands
    /// staying as they are. A sum with no shared factor, or one too wide
    /// for the machine-word search, is returned unchanged; other kinds
    /// recurse structurally.
    pub fn factor_out(&self) -> (r: MathType)
        requires
            wf(self@),
        ensures
            r@ == factor_out_t(self@),
            wf(r@),
        decreases *self,
    {
        let n = self.parameter.len();
        let ghost cs = self@.children;
        proof {
            lemma_views_of(self.parameter@);
        }
        if !matches!(self.kind, MathTypeName::Sum) {
            let mut out: Vec<MathType> = Vec::new();
            for i in 0..n
                invariant
                    n == self.parameter.len(),
                    wf(self@),
                    !(self@.kind is Sum),
                    cs == self@.children,
                    cs.len() == n,
                    forall|j: int| 0 <= j < n ==> #[trigger] self.parameter@[j]@ == cs[j],
                    out.len() == i,
                    forall|j: int| 0 <= j < i ==> #[trigger] out@[j]@ == factor_out_t(cs[j]),
                    forall|j: int| 0 <= j < i ==> wf(#[trigger] out@[j]@),
                decreases n - i,
            {
                out.push(self.parameter[i].factor_out());
            }
            let r = MathType { kind: self.kind.clone(), parameter: out };
            proof {
                lemma_views_of(r.parameter@);
                lemma_factor_children(cs);
                assert(views_of(r.parameter@) =~= factor_children(cs));
                assert(r@.children.len() == n);
                assert forall|q: int| 0 <= q < r@.children.len() implies wf(
                    #[trigger] r@.children[q],
                ) by {
                    assert(r@.children[q] == r.parameter@[q]@);
                }
                assert(wf(r@));
            }
            return r;
        }
        if n >= 64 {
            proof {
                assert(!search_in_bounds(cs));
            }
            return self.clone();
        }
        for j in 0..n
            invariant
                n == self.parameter.len(),
                n < 64,
                wf(self@),
                self@.kind is Sum,
                cs == self@.children,
                cs.len() == n,
                forall|q: int| 0 <= q < n ==> #[trigger] self.parameter@[q]@ == cs[q],
                forall|q: int| 0 <= q < j ==> term_factors(#[trigger] cs[q]) < 64,
            decreases n - j,
        {
            if factors_len(&self.parameter[j]) >= 64 {
                proof {
                    assert(term_factors(cs[j as int]) >= 64);
                    assert(!search_in_bounds(cs));
                }
                return self.clone();
            }
        }
        proof {
            assert(search_in_bounds(cs));
        }
        let lim: u64 = 1u64 << (n as u64);
        let mut best_s: u64 = 0;
        let mut best_f: u64 = 0;
        let mut best_c: u64 = 0;
        let mut sm: u64 = 0;
        while sm < lim
            invariant
                n == self.parameter.len(),
                n < 64,
                wf(self@),
                self@.kind is Sum,
                cs == self@.children,
                cs.len() == n,
                forall|q: int| 0 <= q < n ==> #[trigger] self.parameter@[q]@ == cs[q],
                search_in_bounds(cs),
                lim == 1u64 << (n as u64),
                sm <= lim,
                best_c <= 4096,
                (best_s, best_f, best_c as int) == sm_scan(cs, sm as int, (0u64, 0u64, 0int)),
            decreases lim - sm,
        {
            let ghost b_enter = sm_scan(cs, sm as int, (0u64, 0u64, 0int));
            let cnt_s = popcount(sm);
            if cnt_s >= 2 {
                proof {
                    lemma_first_sel_lt(sm, n as u64);
                }
                let f0 = first_sel_exec(sm);
                let flen = factors_len(&self.parameter[f0 as usize]);
                proof {
                    assert(flen as int == term_factors(cs[f0 as int]));
                    assert(flen < 64);
                }
                let mnf = min_factors_exec(&self.parameter, sm);
                let flim: u64 = 1u64 << (flen as u64);
                let mut fm: u64 = 0;
                while fm < flim
                    invariant
                        n == self.parameter.len(),
                        n < 64,
                        wf(self@),
                        self@.kind is Sum,
                        cs == self@.children,
                        cs.len() == n,
                        forall|q: int| 0 <= q < n ==> #[trigger] self.parameter@[q]@ == cs[q],
                        search_in_bounds(cs),
                        lim == 1u64 << (n as u64),
                        sm < lim,
                        cnt_s as int == sel_count(sm, 64),
                        2 <= cnt_s <= 64,
                        f0 == first_sel(sm, 0),
                        f0 < n,
                        flen as int == term_factors(cs[f0 as int]),
                        flen < 64,
                        mnf as int == min_factors(cs, sm, n as int),
                        flim == 1u64 << (flen as u64),
                        fm <= flim,
                        best_c <= 4096,
                        (best_s, best_f, best_c as int) == fm_scan(cs, sm, fm as int, b_enter),
                    decreases flim - fm,
                {
                    let cnt_f = popcount(fm);
                    proof {
                        assert((cnt_s as int) * (cnt_f as int) <= 4096) by (nonlinear_arith)
                            requires
                                cnt_s <= 64,
                                cnt_f <= 64,
                                cnt_s >= 0,
                                cnt_f >= 0,
                        ;
                    }
                    let score: u64 = cnt_s * cnt_f;
                    if cnt_f >= 1 && (cnt_f as u128) <= mnf && score > best_c {
                        let fsv = selected_factors_exec(&self.parameter[f0 as usize], fm);
                        proof {
                            assert(views_of(self.parameter@) == cs);
                            assert(views_of(fsv@) == selected_factors(cs[f0 as int], fm));
                        }
                        if check_selection(&self.parameter, sm, &fsv) {
                            proof {
                                assert(valid_selection(cs, sm, fm));
                            }
                            best_s = sm;
                            best_f = fm;
                            best_c = score;
                        } else {
                            proof {
                                assert(!valid_selection(cs, sm, fm));
                            }
                        }
                    }
                    fm = fm + 1;
                }
                proof {
                    assert((best_s, best_f, best_c as int) == sm_scan(
                        cs,
                        sm as int + 1,
                        (0u64, 0u64, 0int),
                    ));
                }
            }
            sm = sm + 1;
        }
        if best_c == 0 {
            return self.clone();
        }
        proof {
            lemma_sm_scan_cand(cs, lim as int, (0u64, 0u64, 0int), n as int);
            lemma_first_sel_lt(best_s, n as u64);
        }
        let f0 = first_sel_exec(best_s);
        let mut factors = selected_factors_exec(&self.parameter[f0 as usize], best_f);
        let ghost fsv = selected_factors(cs[f0 as int], best_f);
        proof {
            lemma_views_of(factors@);
            assert(wf(cs[f0 as int]));
        }
        let fs_n = factors.len();
        let mut reduced: Vec<MathType> = Vec::new();
        for j in 0..n
            invariant
                n == self.parameter.len(),
                n < 64,
                wf(self@),
                cs == self@.children,
                cs.len() == n,
                forall|q: int| 0 <= q < n ==> #[trigger] self.parameter@[q]@ == cs[q],
                fs_n == factors.len(),
                views_of(factors@) == fsv,
                fsv.len() == fs_n,
                forall|q: int| 0 <= q < fs_n ==> #[trigger] factors@[q]@ == fsv[q],
                forall|q: int| 0 <= q < fs_n ==> wf(#[trigger] factors@[q]@),
                views_of(reduced@) == reduced_summands(cs, best_s, fsv, j as int),
                forall|q: int| 0 <= q < reduced.len() ==> wf(#[trigger] reduced@[q]@),
            decreases n - j,
        {
            let selected = bit_set(best_s, j as u64);
            let is_prod = matches!(self.parameter[j].kind, MathTypeName::Product);
            proof {
                assert(self.parameter@[j as int]@ == cs[j as int]);
                assert(is_prod == (cs[j as int].kind is Product));
            }
            if selected && is_prod {
                proof {
                    assert(cs[j as int].kind is Product);
                    assert(wf(cs[j as int]));
                }
                let mut rem = self.parameter[j].cloned_children();
                proof {
                    lemma_views_of(rem@);
                }
                for k in 0..fs_n
                    invariant
                        0 <= j < n,
                        cs.len() == n,
                        fs_n == factors.len(),
                        views_of(factors@) == fsv,
                        fsv.len() == fs_n,
                        forall|q: int| 0 <= q < fs_n ==> #[trigger] factors@[q]@ == fsv[q],
                        wf(cs[j as int]),
                        views_of(rem@) == remove_factors(cs[j as int].children, fsv, k as int),
                        forall|q: int|
                            0 <= q < views_of(rem@).len() ==> wf(#[trigger] views_of(rem@)[q]),
                    decreases fs_n - k,
                {
                    let ghost before = views_of(rem@);
                    remove_first_exec(&mut rem, &factors[k]);
                    proof {
                        lemma_remove_first_wf(before, fsv[k as int]);
                    }
                }
                if rem.len() > 0 {
                    let rem_len = rem.len();
                    let node = MathType { kind: MathTypeName::Product, parameter: rem };
                    proof {
                        lemma_views_of(node.parameter@);
                        assert(node@.children == remove_factors(
                            cs[j as int].children,
                            fsv,
                            fs_n as int,
                        ));
                        assert(node@.children.len() == rem_len);
                        assert(arity_ok(node@.kind, node@.children.len() as int));
                        assert forall|q: int| 0 <= q < node@.children.len() implies wf(
                            #[trigger] node@.children[q],
                        ) by {
                            assert(node@.children[q] == views_of(node.parameter@)[q]);
                        }
                        assert(wf(node@));
                        assert(fsv.len() as int == fs_n as int);
                    }
                    reduced.push(node);
                } else {
                    proof {
                        assert(remove_factors(cs[j as int].children, fsv, fsv.len() as int).len()
                            == 0);
                    }
                }
            }
        }
        let mut others: Vec<MathType> = Vec::new();
        for j in 0..n
            invariant
                n == self.parameter.len(),
                n < 64,
                wf(self@),
                cs == self@.children,
                cs.len() == n,
                forall|q: int| 0 <= q < n ==> #[trigger] self.parameter@[q]@ == cs[q],
                views_of(others@) == other_summands(cs, best_s, j as int),
                forall|q: int| 0 <= q < others.len() ==> wf(#[trigger] others@[q]@),
            decreases n - j,
        {
            if !bit_set(best_s, j as u64) {
                others.push(self.parameter[j].clone());
            }
        }
        let ghost reduced_v = views_of(reduced@);
        let red_len = reduced.len();
        let sum_node = MathType { kind: MathTypeName::Sum, parameter: reduced };
        proof {
            lemma_views_of(sum_node.parameter@);
            assert(sum_node@.children == reduced_summands(cs, best_s, fsv, n as int));
            assert(arity_ok(sum_node@.kind, sum_node@.children.len() as int));
            assert forall|q: int| 0 <= q < sum_node@.children.len() implies wf(
                #[trigger] sum_node@.children[q],
            ) by {
                assert(sum_node@.children[q] == views_of(sum_node.parameter@)[q]);
            }
            assert(wf(sum_node@));
        }
        let ghost sum_v = sum_node@;
        factors.push(sum_node);
        let fac_len = factors.len();
        let grouped = MathType { kind: MathTypeName::Product, parameter: factors };
        proof {
            lemma_views_of(grouped.parameter@);
            assert(grouped@.children =~= fsv + seq![sum_v]);
            assert(arity_ok(grouped@.kind, grouped@.children.len() as int));
            assert forall|q: int| 0 <= q < grouped@.children.len() implies wf(
                #[trigger] grouped@.children[q],
            ) by {
                assert(grouped@.children[q] == views_of(grouped.parameter@)[q]);
            }
            assert(wf(grouped@));
        }
        let ghost grouped_v = grouped@;
        others.push(grouped);
        let oth_len = others.len();
        let r = MathType { kind: MathTypeName::Sum, parameter: others };
        proof {
            lemma_views_of(r.parameter@);
            assert(r@.children =~= other_summands(cs, best_s, n as int).push(grouped_v));
            assert(r@.children == rewrite_selection(cs, best_s, best_f));
            assert(r@ == factor_out_t(self@));
            assert(arity_ok(r@.kind, r@.children.len() as int));
            assert forall|q: int| 0 <= q < r@.children.len() implies wf(
                #[trigger] r@.children[q],
            ) by {
                assert(r@.children[q] == views_of(r.parameter@)[q]);
            }
            assert(wf(r@));
        }
        r
    }
}

/// `factor_children` maps a sequence pointwise.
pub proof fn lemma_factor_children(s: Seq<TreeView>)
    ensures
        factor_children(s).len() == s.len(),
        forall|i: int| 0 <= i < s.len() ==> factor_children(s)[i] == factor_out_t(#[trigger] s[i]),
    decreases s,
{
    if s.len() > 0 {
        lemma_factor_children(s.drop_last());
        assert forall|i: int| 0 <= i < s.len() implies factor_children(s)[i] == factor_out_t(
            s[i],
        ) by {
            if i < s.len() - 1 {
                assert(factor_children(s)[i] == factor_children(s.drop_last())[i]);
                assert(s.drop_last()[i] == s[i]);
            }
        }
    }
}

} // verus!
