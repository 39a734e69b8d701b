//! Text renderings of expression trees: a prefix debug notation and an
//! infix typeset notation, both precedence-aware. The ghost renderings
//! say character for character what the executable ones produce.

use vstd::prelude::*;
use vstd::string::StringExecFns;
use crate::view::{TreeView, KindView, wf, kind_precedence, ht, ht_seq};
use crate::math_kind::MathTypeName;
use crate::math_type::{MathType, views_of, lemma_views_of};

verus! {

broadcast use
    crate::view::lemma_ht_seq_bound,
    crate::view::lemma_ht_child,
    crate::view::lemma_ht_seq_drop_last,
;

/// The decimal digit character for one digit value.
pub open spec fn digit_char(d: int) -> char {
    if d == 0 {
        '0'
    } else if d == 1 {
        '1'
    } else if d == 2 {
        '2'
    } else if d == 3 {
        '3'
    } else if d == 4 {
        '4'
    } else if d == 5 {
        '5'
    } else if d == 6 {
        '6'
    } else if d == 7 {
        '7'
    } else if d == 8 {
        '8'
    } else {
        '9'
    }
}

/// The decimal rendering of a non-negative integer, most significant
/// digit first.
pub open spec fn dec_digits(v: int) -> Seq<char>
    decreases v,
{
    if v < 10 {
        seq![digit_char(v)]
    } else {
        dec_digits(v / 10).push(digit_char(v % 10))
    }
}

/// One rendered child of the debug form, parenthesized when its
/// precedence does not exceed its parent's.
pub open spec fn debug_part(t: TreeView, pprec: u8) -> Seq<char>
    decreases ht(t), 1int, 0int,
{
    if kind_precedence(t.kind) <= pprec {
        "("@ + debug_str(t) + ")"@
    } else {
        debug_str(t)
    }
}

/// The rendered children of the debug form, joined by a comma.
pub open spec fn debug_join(s: Seq<TreeView>, pprec: u8) -> Seq<char>
    decreases ht_seq(s), 2int, s.len(),
{
    if s.len() == 0 {
        Seq::empty()
    } else if s.len() == 1 {
        debug_part(s[0], pprec)
    } else {
        debug_join(s.drop_last(), pprec) + ", "@ + debug_part(s.last(), pprec)
    }
}

/// The rendered children of a function application, joined by a comma
/// and never parenthesized.
pub open spec fn plain_join(s: Seq<TreeView>) -> Seq<char>
    decreases ht_seq(s), 2int, s.len(),
{
    if s.len() == 0 {
        Seq::empty()
    } else if s.len() == 1 {
        debug_str(s[0])
    } else {
        plain_join(s.drop_last()) + ", "@ + debug_str(s.last())
    }
}

/// The debug rendering: prefix operators, children in parentheses.
pub open spec fn debug_str(t: TreeView) -> Seq<char>
    decreases ht(t), 0int, 0int,
{
    match t.kind {
        KindView::Undefined => "Undefined"@,
        KindView::NaturalNumber(v) => dec_digits(v as int),
        KindView::Sum => "+("@ + debug_join(t.children, kind_precedence(KindView::Sum)) + ")"@,
        KindView::FlipSign => if t.children.len() > 0 {
            "-("@ + debug_str(t.children[0]) + ")"@
        } else {
            "-("@ + ")"@
        },
        KindView::Product => "*("@ + debug_join(t.children, kind_precedence(KindView::Product))
            + ")"@,
        KindView::Function(name) => {
            if t.children.len() == 0 {
                name
            } else {
                name + "("@ + plain_join(t.children) + ")"@
            }
        },
        KindView::Exp => if t.children.len() > 0 {
            "exp("@ + debug_str(t.children[0]) + ")"@
        } else {
            "exp("@ + ")"@
        },
        KindView::LogN => if t.children.len() > 0 {
            "ln("@ + debug_str(t.children[0]) + ")"@
        } else {
            "ln("@ + ")"@
        },
        KindView::Power => if t.children.len() > 1 {
            "pow("@ + debug_str(t.children[0]) + ", "@ + debug_str(t.children[1]) + ")"@
        } else {
            "pow("@ + ")"@
        },
    }
}

/// One rendered child of the typeset form, parenthesized when its
/// precedence does not exceed its parent's.
pub open spec fn typst_part(t: TreeView, pprec: u8) -> Seq<char>
    decreases ht(t), 1int, 0int,
{
    if kind_precedence(t.kind) <= pprec {
        "("@ + typst_str(t) + ")"@
    } else {
        typst_str(t)
    }
}

/// The rendered summands of the typeset form, joined by a plus sign.
pub open spec fn typst_join_plus(s: Seq<TreeView>, pprec: u8) -> Seq<char>
    decreases ht_seq(s), 2int, s.len(),
{
    if s.len() == 0 {
        Seq::empty()
    } else if s.len() == 1 {
        typst_part(s[0], pprec)
    } else {
        typst_join_plus(s.drop_last(), pprec) + " + "@ + typst_part(s.last(), pprec)
    }
}

/// The rendered arguments of a function application, joined by a comma.
pub open spec fn typst_join_plain(s: Seq<TreeView>) -> Seq<char>
    decreases ht_seq(s), 2int, s.len(),
{
    if s.len() == 0 {
        Seq::empty()
    } else if s.len() == 1 {
        typst_str(s[0])
    } else {
        typst_join_plain(s.drop_last()) + ", "@ + typst_str(s.last())
    }
}

/// What stands between two adjacent factors: an explicit center dot
/// between two constants, a plain space otherwise.
pub open spec fn typst_sep(a: TreeView, b: TreeView) -> Seq<char> {
    if a.kind is NaturalNumber && b.kind is NaturalNumber {
        " dot "@
    } else {
        " "@
    }
}

/// The rendered factors of the typeset form, concatenated with their
/// separators.
pub open spec fn typst_prod_join(s: Seq<TreeView>, pprec: u8) -> Seq<char>
    decreases ht_seq(s), 2int, s.len(),
{
    if s.len() == 0 {
        Seq::empty()
    } else if s.len() == 1 {
        typst_part(s[0], pprec)
    } else {
        typst_prod_join(s.drop_last(), pprec) + typst_sep(s[s.len() - 2], s.last()) + typst_part(
            s.last(),
            pprec,
        )
    }
}

/// The typeset rendering: infix operator notation, an empty sum or
/// product shown as its quoted neutral word, a one-term sum as its term.
pub open spec fn typst_str(t: TreeView) -> Seq<char>
    decreases ht(t), 0int, 0int,
{
    match t.kind {
        KindView::Undefined => "Undefined"@,
        KindView::NaturalNumber(v) => dec_digits(v as int),
        KindView::Sum => {
            if t.children.len() == 0 {
                "\"zero\""@
            } else if t.children.len() == 1 {
                typst_str(t.children[0])
            } else {
                typst_join_plus(t.children, kind_precedence(KindView::Sum))
            }
        },
        KindView::FlipSign => if t.children.len() > 0 {
            "-"@ + typst_str(t.children[0])
        } else {
            "-"@
        },
        KindView::Product => {
            if t.children.len() == 0 {
                "\"one\""@
            } else {
                typst_prod_join(t.children, kind_precedence(KindView::Product))
            }
        },
        KindView::Function(name) => {
            if t.children.len() == 0 {
                name
            } else {
                name + "("@ + typst_join_plain(t.children) + ")"@
            }
        },
        KindView::Exp => if t.children.len() > 0 {
            "e^("@ + typst_str(t.children[0]) + ")"@
        } else {
            "e^("@ + ")"@
        },
        KindView::LogN => if t.children.len() > 0 {
            "ln("@ + typst_str(t.children[0]) + ")"@
        } else {
            "ln("@ + ")"@
        },
        KindView::Power => if t.children.len() > 1 {
            "("@ + typst_str(t.children[0]) + ")^("@ + typst_str(t.children[1]) + ")"@
        } else {
            "("@ + ")"@
        },
    }
}

/// The literal slice for one digit.
fn digit_str(d: u128) -> (r: &'static str)
    requires
        d < 10,
    ensures
        r@ == seq![digit_char(d as int)],
{
    let r: &'static str = if d == 0 {
        "0"
    } else if d == 1 {
        "1"
    } else if d == 2 {
        "2"
    } else if d == 3 {
        "3"
    } else if d == 4 {
        "4"
    } else if d == 5 {
        "5"
    } else if d == 6 {
        "6"
    } else if d == 7 {
        "7"
    } else if d == 8 {
        "8"
    } else {
        "9"
    };
    proof {
        reveal_strlit("0");
        reveal_strlit("1");
        reveal_strlit("2");
        reveal_strlit("3");
        reveal_strlit("4");
        reveal_strlit("5");
        reveal_strlit("6");
        reveal_strlit("7");
        reveal_strlit("8");
        reveal_strlit("9");
        assert(r@ =~= seq![digit_char(d as int)]);
    }
    r
}

/// Renders a constant in decimal.
fn dec_str(v: u128) -> (r: String)
    ensures
        r@ == dec_digits(v as int),
    decreases v,
{
    if v < 10 {
        let r = digit_str(v).to_owned();
        r
    } else {
        let mut r = dec_str(v / 10);
        r.append(digit_str(v % 10));
        proof {
            assert(r@ =~= dec_digits(v as int));
        }
        r
    }
}

impl MathType {
    /// Renders this tree in the prefix debug notation: `+(a, b)` style
    /// operators with parenthesized children.
    pub fn get_string(&self) -> (r: String)
        requires
            wf(self@),
        ensures
            r@ == debug_str(self@),
        decreases *self,
    {
        let n = self.parameter.len();
        let ghost cs = self@.children;
        proof {
            lemma_views_of(self.parameter@);
        }
        match &self.kind {
            MathTypeName::Undefined => "Undefined".to_owned(),
            MathTypeName::NaturalNumber(v) => dec_str(*v),
            MathTypeName::FlipSign => {
                let mut s = "-(".to_owned();
                proof {
                    assert(self.parameter@[0]@ == cs[0]);
                    assert(wf(self@.children[0]));
                }
                let c = self.parameter[0].get_string();
                s.append(c.as_str());
                s.append(")");
                proof {
                    assert(s@ =~= debug_str(self@));
                }
                s
            },
            MathTypeName::Exp => {
                let mut s = "exp(".to_owned();
                proof {
                    assert(self.parameter@[0]@ == cs[0]);
                    assert(wf(self@.children[0]));
                }
                let c = self.parameter[0].get_string();
                s.append(c.as_str());
                s.append(")");
                proof {
                    assert(s@ =~= debug_str(self@));
                }
                s
            },
            MathTypeName::LogN => {
                let mut s = "ln(".to_owned();
                proof {
                    assert(self.parameter@[0]@ == cs[0]);
                    assert(wf(self@.children[0]));
                }
                let c = self.parameter[0].get_string();
                s.append(c.as_str());
                s.append(")");
                proof {
                    assert(s@ =~= debug_str(self@));
                }
                s
            },
            MathTypeName::Power => {
                let mut s = "pow(".to_owned();
                proof {
                    assert(self.parameter@[0]@ == cs[0]);
                    assert(self.parameter@[1]@ == cs[1]);
                    assert(wf(self@.children[0]));
                    assert(wf(self@.children[1]));
                }
                let c0 = self.parameter[0].get_string();
                s.append(c0.as_str());
                s.append(", ");
                let c1 = self.parameter[1].get_string();
                s.append(c1.as_str());
                s.append(")");
                proof {
                    assert(s@ =~= debug_str(self@));
                }
                s
            },
            MathTypeName::Sum => {
                let mut s = "+(".to_owned();
                let selfp = self.kind.precedence();
                let ghost pp = kind_precedence(self@.kind);
                for i in 0..n
                    invariant
                        n == self.parameter.len(),
                        wf(self@),
                        self@.kind == KindView::Sum,
                        cs == self@.children,
                        cs.len() == n,
                        forall|j: int| 0 <= j < n ==> #[trigger] self.parameter@[j]@ == cs[j],
                        selfp == pp,
                        pp == kind_precedence(self@.kind),
                        s@ == "+("@ + debug_join(cs.take(i as int), pp),
                    decreases n - i,
                {
                    proof {
                        assert(cs.take(i + 1).drop_last() =~= cs.take(i as int));
                        assert(cs.take(i + 1).last() == cs[i as int]);
                    }
                    if i > 0 {
                        s.append(", ");
                    }
                    proof {
                        assert(self.parameter@[i as int]@ == cs[i as int]);
                        assert(wf(self@.children[i as int]));
                    }
                    let cstr = self.parameter[i].get_string();
                    if self.parameter[i].kind.precedence() <= selfp {
                        s.append("(");
                        s.append(cstr.as_str());
                        s.append(")");
                    } else {
                        s.append(cstr.as_str());
                    }
                    proof {
                        assert(cstr@ == debug_str(cs[i as int]));
                        if i == 0 {
                            assert(debug_join(cs.take(1), pp) == debug_part(cs[0], pp));
                        } else {
                            assert(debug_join(cs.take(i + 1), pp) == debug_join(
                                cs.take(i as int),
                                pp,
                            ) + ", "@ + debug_part(cs[i as int], pp));
                        }
                        assert(s@ =~= "+("@ + debug_join(cs.take(i + 1), pp));
                    }
                }
                s.append(")");
                proof {
                    assert(cs.take(n as int) =~= cs);
                    assert(s@ =~= debug_str(self@));
                }
                s
            },
            MathTypeName::Product => {
                let mut s = "*(".to_owned();
                let selfp = self.kind.precedence();
                let ghost pp = kind_precedence(self@.kind);
                for i in 0..n
                    invariant
                        n == self.parameter.len(),
                        wf(self@),
                        self@.kind == KindView::Product,
                        cs == self@.children,
                        cs.len() == n,
                        forall|j: int| 0 <= j < n ==> #[trigger] self.parameter@[j]@ == cs[j],
                        selfp == pp,
                        pp == kind_precedence(self@.kind),
                        s@ == "*("@ + debug_join(cs.take(i as int), pp),
                    decreases n - i,
                {
                    proof {
                        assert(cs.take(i + 1).drop_last() =~= cs.take(i as int));
                        assert(cs.take(i + 1).last() == cs[i as int]);
                    }
                    if i > 0 {
                        s.append(", ");
                    }
                    proof {
                        assert(self.parameter@[i as int]@ == cs[i as int]);
                        assert(wf(self@.children[i as int]));
                    }
                    let cstr = self.parameter[i].get_string();
                    if self.parameter[i].kind.precedence() <= selfp {
                        s.append("(");
                        s.append(cstr.as_str());
                        s.append(")");
                    } else {
                        s.append(cstr.as_str());
                    }
                    proof {
                        assert(cstr@ == debug_str(cs[i as int]));
                        if i == 0 {
                            assert(debug_join(cs.take(1), pp) == debug_part(cs[0], pp));
                        } else {
                            assert(debug_join(cs.take(i + 1), pp) == debug_join(
                                cs.take(i as int),
                                pp,
                            ) + ", "@ + debug_part(cs[i as int], pp));
                        }
                        assert(s@ =~= "*("@ + debug_join(cs.take(i + 1), pp));
                    }
                }
                s.append(")");
                proof {
                    assert(cs.take(n as int) =~= cs);
                    assert(s@ =~= debug_str(self@));
                }
                s
            },
            MathTypeName::Function(name) => {
                let mut s = name.clone();
                if n == 0 {
                    proof {
                        assert(s@ =~= debug_str(self@));
                    }
                    return s;
                }
                s.append("(");
                for i in 0..n
                    invariant
                        n == self.parameter.len(),
                        n >= 1,
                        wf(self@),
                        self@.kind == KindView::Function(name@),
                        cs == self@.children,
                        cs.len() == n,
                        forall|j: int| 0 <= j < n ==> #[trigger] self.parameter@[j]@ == cs[j],
                        s@ == name@ + "("@ + plain_join(cs.take(i as int)),
                    decreases n - i,
                {
                    proof {
                        assert(cs.take(i + 1).drop_last() =~= cs.take(i as int));
                        assert(cs.take(i + 1).last() == cs[i as int]);
                    }
                    if i > 0 {
                        s.append(", ");
                    }
                    proof {
                        assert(self.parameter@[i as int]@ == cs[i as int]);
                        assert(wf(self@.children[i as int]));
                    }
                    let cstr = self.parameter[i].get_string();
                    s.append(cstr.as_str());
                    proof {
                        assert(cstr@ == debug_str(cs[i as int]));
                        if i == 0 {
                            assert(plain_join(cs.take(1)) == debug_str(cs[0]));
                        } else {
                            assert(plain_join(cs.take(i + 1)) == plain_join(cs.take(i as int))
                                + ", "@ + debug_str(cs[i as int]));
                        }
                        assert(s@ =~= name@ + "("@ + plain_join(cs.take(i + 1)));
                    }
                }
                s.append(")");
                proof {
                    assert(cs.take(n as int) =~= cs);
                    assert(s@ =~= debug_str(self@));
                }
                s
            },
        }
    }
}

impl MathType {
    /// Renders this tree in the infix typeset notation: operators written
    /// out, powers and exponentials with carets, an empty sum or product
    /// as its quoted neutral word.
    pub fn get_typst_string(&self) -> (r: String)
        requires
            wf(self@),
        ensures
            r@ == typst_str(self@),
        decreases *self,
    {
        let n = self.parameter.len();
        let ghost cs = self@.children;
        proof {
            lemma_views_of(self.parameter@);
        }
        match &self.kind {
            MathTypeName::Undefined => "Undefined".to_owned(),
            MathTypeName::NaturalNumber(v) => dec_str(*v),
            MathTypeName::FlipSign => {
                let mut s = "-".to_owned();
                proof {
                    assert(self.parameter@[0]@ == cs[0]);
                    assert(wf(self@.children[0]));
                }
                let c = self.parameter[0].get_typst_string();
                s.append(c.as_str());
                proof {
                    assert(s@ =~= typst_str(self@));
                }
                s
            },
            MathTypeName::Exp => {
                let mut s = "e^(".to_owned();
                proof {
                    assert(self.parameter@[0]@ == cs[0]);
                    assert(wf(self@.children[0]));
                }
                let c = self.parameter[0].get_typst_string();
                s.append(c.as_str());
                s.append(")");
                proof {
                    assert(s@ =~= typst_str(self@));
                }
                s
            },
            MathTypeName::LogN => {
                let mut s = "ln(".to_owned();
                proof {
                    assert(self.parameter@[0]@ == cs[0]);
                    assert(wf(self@.children[0]));
                }
                let c = self.parameter[0].get_typst_string();
                s.append(c.as_str());
                s.append(")");
                proof {
                    assert(s@ =~= typst_str(self@));
                }
                s
            },
            MathTypeName::Power => {
                let mut s = "(".to_owned();
                proof {
                    assert(self.parameter@[0]@ == cs[0]);
                    assert(self.parameter@[1]@ == cs[1]);
                    assert(wf(self@.children[0]));
                    assert(wf(self@.children[1]));
                }
                let c0 = self.parameter[0].get_typst_string();
                s.append(c0.as_str());
                s.append(")^(");
                let c1 = self.parameter[1].get_typst_string();
                s.append(c1.as_str());
                s.append(")");
                proof {
                    assert(s@ =~= typst_str(self@));
                }
                s
            },
            MathTypeName::Sum => {
                if n == 0 {
                    return "\"zero\"".to_owned();
                }
                if n == 1 {
                    proof {
                        assert(self.parameter@[0]@ == cs[0]);
                        assert(wf(self@.children[0]));
                    }
                    return self.parameter[0].get_typst_string();
                }
                let mut s = String::new();
                let selfp = self.kind.precedence();
                let ghost pp = kind_precedence(self@.kind);
                for i in 0..n
                    invariant
                        n == self.parameter.len(),
                        n >= 2,
                        wf(self@),
                        self@.kind == KindView::Sum,
                        cs == self@.children,
                        cs.len() == n,
                        forall|j: int| 0 <= j < n ==> #[trigger] self.parameter@[j]@ == cs[j],
                        selfp == pp,
                        pp == kind_precedence(self@.kind),
                        s@ == typst_join_plus(cs.take(i as int), pp),
                    decreases n - i,
                {
                    proof {
                        assert(cs.take(i + 1).drop_last() =~= cs.take(i as int));
                        assert(cs.take(i + 1).last() == cs[i as int]);
                        assert(self.parameter@[i as int]@ == cs[i as int]);
                        assert(wf(self@.children[i as int]));
                    }
                    if i > 0 {
                        s.append(" + ");
                    }
                    let cstr = self.parameter[i].get_typst_string();
                    if self.parameter[i].kind.precedence() <= selfp {
                        s.append("(");
                        s.append(cstr.as_str());
                        s.append(")");
                    } else {
                        s.append(cstr.as_str());
                    }
                    proof {
                        assert(cstr@ == typst_str(cs[i as int]));
                        if i == 0 {
                            assert(typst_join_plus(cs.take(1), pp) == typst_part(cs[0], pp));
                        } else {
                            assert(typst_join_plus(cs.take(i + 1), pp) == typst_join_plus(
                                cs.take(i as int),
                                pp,
                            ) + " + "@ + typst_part(cs[i as int], pp));
                        }
                        assert(s@ =~= typst_join_plus(cs.take(i + 1), pp));
                    }
                }
                proof {
                    assert(cs.take(n as int) =~= cs);
                    assert(s@ =~= typst_str(self@));
                }
                s
            },
            MathTypeName::Product => {
                if n == 0 {
                    return "\"one\"".to_owned();
                }
                let mut s = String::new();
                let selfp = self.kind.precedence();
                let ghost pp = kind_precedence(self@.kind);
                for i in 0..n
                    invariant
                        n == self.parameter.len(),
                        n >= 1,
                        wf(self@),
                        self@.kind == KindView::Product,
                        cs == self@.children,
                        cs.len() == n,
                        forall|j: int| 0 <= j < n ==> #[trigger] self.parameter@[j]@ == cs[j],
                        selfp == pp,
                        pp == kind_precedence(self@.kind),
                        s@ == typst_prod_join(cs.take(i as int), pp),
                    decreases n - i,
                {
                    proof {
                        assert(cs.take(i + 1).drop_last() =~= cs.take(i as int));
                        assert(cs.take(i + 1).last() == cs[i as int]);
                        assert(self.parameter@[i as int]@ == cs[i as int]);
                        assert(wf(self@.children[i as int]));
                        if i > 0 {
                            assert(self.parameter@[i - 1]@ == cs[i - 1]);
                        }
                    }
                    if i > 0 {
                        let both_const = matches!(
                            self.parameter[i - 1].kind,
                            MathTypeName::NaturalNumber(_),
                        ) && matches!(self.parameter[i].kind, MathTypeName::NaturalNumber(_));
                        if both_const {
                            s.append(" dot ");
                        } else {
                            s.append(" ");
                        }
                        proof {
                            assert(both_const == (cs[i - 1].kind is NaturalNumber && cs[
                                i as int].kind is NaturalNumber));
                        }
                    }
                    let cstr = self.parameter[i].get_typst_string();
                    if self.parameter[i].kind.precedence() <= selfp {
                        s.append("(");
                        s.append(cstr.as_str());
                        s.append(")");
                    } else {
                        s.append(cstr.as_str());
                    }
                    proof {
                        assert(cstr@ == typst_str(cs[i as int]));
                        if i == 0 {
                            assert(typst_prod_join(cs.take(1), pp) == typst_part(cs[0], pp));
                        } else {
                            assert(cs.take(i + 1)[i - 1] == cs[i - 1]);
                            assert(typst_prod_join(cs.take(i + 1), pp) == typst_prod_join(
                                cs.take(i as int),
                                pp,
                            ) + typst_sep(cs[i - 1], cs[i as int]) + typst_part(
                                cs[i as int],
                                pp,
                            ));
                        }
                        assert(s@ =~= typst_prod_join(cs.take(i + 1), pp));
                    }
                }
                proof {
                    assert(cs.take(n as int) =~= cs);
                    assert(s@ =~= typst_str(self@));
                }
                s
            },
            MathTypeName::Function(name) => {
                let mut s = name.clone();
                if n == 0 {
                    proof {
                        assert(s@ =~= typst_str(self@));
                    }
                    return s;
                }
                s.append("(");
                for i in 0..n
                    invariant
                        n == self.parameter.len(),
                        n >= 1,
                        wf(self@),
                        self@.kind == KindView::Function(name@),
                        cs == self@.children,
                        cs.len() == n,
                        forall|j: int| 0 <= j < n ==> #[trigger] self.parameter@[j]@ == cs[j],
                        s@ == name@ + "("@ + typst_join_plain(cs.take(i as int)),
                    decreases n - i,
                {
                    proof {
                        assert(cs.take(i + 1).drop_last() =~= cs.take(i as int));
                        assert(cs.take(i + 1).last() == cs[i as int]);
                        assert(self.parameter@[i as int]@ == cs[i as int]);
                        assert(wf(self@.children[i as int]));
                    }
                    if i > 0 {
                        s.append(", ");
                    }
                    let cstr = self.parameter[i].get_typst_string();
                    s.append(cstr.as_str());
                    proof {
                        assert(cstr@ == typst_str(cs[i as int]));
                        if i == 0 {
                            assert(typst_join_plain(cs.take(1)) == typst_str(cs[0]));
                        } else {
                            assert(typst_join_plain(cs.take(i + 1)) == typst_join_plain(
                                cs.take(i as int),
                            ) + ", "@ + typst_str(cs[i as int]));
                        }
                        assert(s@ =~= name@ + "("@ + typst_join_plain(cs.take(i + 1)));
                    }
                }
                s.append(")");
                proof {
                    assert(cs.take(n as int) =~= cs);
                    assert(s@ =~= typst_str(self@));
                }
                s
            },
        }
    }
}

} // verus!
