//! The intermediate form of a quote: token trees in which each unquoted
//! expression has been replaced by a fresh identifier, and the bindings
//! of those identifiers.
use vstd::prelude::*;

use crate::token::{lemma_tree_marks_below_mono, tree_marks_below, Delim, Ident, Span, SpecIdent, SpecTree, TokenStream, TokenTree};

verus! {

/// A bracketed group of a quote.
#[derive(Debug)]
pub struct QDelimited {
    pub delim: Delim,
    pub open_span: Span,
    pub tts: Vec<QTT>,
    pub close_span: Span,
}

/// A tree of a quote: a token that is copied as it is, a group, or the
/// fresh identifier that stands for an unquoted expression.
#[derive(Debug)]
pub enum QTT {
    TT(TokenTree),
    QDL(QDelimited),
    QIdent(TokenTree),
}

/// Identifiers and the token streams they are bound to, in binding order.
pub type Bindings = Vec<(Ident, TokenStream)>;

pub enum SpecQtt {
    TT(SpecTree),
    QDL(Delim, Span, Seq<SpecQtt>, Span),
    QIdent(SpecTree),
}

pub open spec fn qtt_view(q: QTT) -> SpecQtt
    decreases q, 1nat,
{
    match q {
        QTT::TT(t) => SpecQtt::TT(t@),
        QTT::QDL(d) => SpecQtt::QDL(d.delim, d.open_span, qtts_view(d.tts@), d.close_span),
        QTT::QIdent(t) => SpecQtt::QIdent(t@),
    }
}

pub open spec fn qtts_view(s: Seq<QTT>) -> Seq<SpecQtt>
    decreases s, 0nat,
{
    if s.len() == 0 {
        Seq::empty()
    } else {
        qtts_view(s.drop_last()).push(qtt_view(s.last()))
    }
}

impl View for QTT {
    type V = SpecQtt;

    open spec fn view(&self) -> SpecQtt {
        qtt_view(*self)
    }
}

pub proof fn lemma_qtts_view(s: Seq<QTT>)
    ensures
        qtts_view(s).len() == s.len(),
        forall|i: int| 0 <= i < s.len() ==> #[trigger] qtts_view(s)[i] == qtt_view(s[i]),
    decreases s.len(),
{
    if s.len() > 0 {
        lemma_qtts_view(s.drop_last());
    }
}

pub proof fn lemma_qtts_view_push(s: Seq<QTT>, q: QTT)
    ensures
        qtts_view(s.push(q)) == qtts_view(s).push(qtt_view(q)),
{
    assert(s.push(q).drop_last() =~= s);
}

pub proof fn lemma_qtts_view_add(a: Seq<QTT>, b: Seq<QTT>)
    ensures
        qtts_view(a + b) == qtts_view(a) + qtts_view(b),
{
    lemma_qtts_view(a);
    lemma_qtts_view(b);
    lemma_qtts_view(a + b);
    assert(qtts_view(a + b) =~= qtts_view(a) + qtts_view(b));
}

pub type SpecBinding = (SpecIdent, Seq<SpecTree>);

pub open spec fn bindings_view(b: Seq<(Ident, TokenStream)>) -> Seq<SpecBinding> {
    b.map_values(|p: (Ident, TokenStream)| (p.0@, p.1@))
}

/// The number of nodes of a quote tree.
pub open spec fn qtt_size(q: SpecQtt) -> nat
    decreases q, 1nat,
{
    match q {
        SpecQtt::QDL(_, _, inner, _) => 1 + qtts_size(inner),
        _ => 1,
    }
}

pub open spec fn qtts_size(s: Seq<SpecQtt>) -> nat
    decreases s, 0nat,
{
    if s.len() == 0 {
        0
    } else {
        qtts_size(s.drop_last()) + qtt_size(s.last())
    }
}

pub proof fn lemma_qtts_size_prefix(s: Seq<SpecQtt>, i: int)
    requires
        0 <= i <= s.len(),
    ensures
        qtts_size(s.take(i)) <= qtts_size(s),
    decreases s.len(),
{
    if i == s.len() {
        assert(s.take(i) =~= s);
    } else {
        lemma_qtts_size_prefix(s.drop_last(), i);
        assert(s.drop_last().take(i) =~= s.take(i));
    }
}

/// Every identifier in `q` has a mark below `n`.
pub open spec fn qtt_marks_below(q: SpecQtt, n: nat) -> bool
    decreases q, 1nat,
{
    match q {
        SpecQtt::TT(t) => tree_marks_below(t, n),
        SpecQtt::QDL(_, _, inner, _) => qtts_marks_below(inner, n),
        SpecQtt::QIdent(t) => tree_marks_below(t, n),
    }
}

pub open spec fn qtts_marks_below(s: Seq<SpecQtt>, n: nat) -> bool
    decreases s, 0nat,
{
    if s.len() == 0 {
        true
    } else {
        qtts_marks_below(s.drop_last(), n) && qtt_marks_below(s.last(), n)
    }
}

pub proof fn lemma_qtts_marks_below(s: Seq<SpecQtt>, n: nat)
    ensures
        qtts_marks_below(s, n) <==> forall|i: int|
            0 <= i < s.len() ==> #[trigger] qtt_marks_below(s[i], n),
    decreases s.len(),
{
    if s.len() > 0 {
        lemma_qtts_marks_below(s.drop_last(), n);
        assert forall|i: int| 0 <= i < s.len() - 1 implies s.drop_last()[i] == s[i] by {}
        if forall|i: int| 0 <= i < s.len() ==> #[trigger] qtt_marks_below(s[i], n) {
            assert forall|i: int| 0 <= i < s.drop_last().len() implies #[trigger] qtt_marks_below(
                s.drop_last()[i],
                n,
            ) by {
                assert(s.drop_last()[i] == s[i]);
            }
            assert(qtt_marks_below(s[s.len() - 1], n));
        }
    }
}

pub proof fn lemma_qtts_marks_below_mono(s: Seq<SpecQtt>, a: nat, b: nat)
    requires
        qtts_marks_below(s, a),
        a <= b,
    ensures
        qtts_marks_below(s, b),
    decreases s, 0nat,
{
    if s.len() > 0 {
        lemma_qtts_marks_below_mono(s.drop_last(), a, b);
        lemma_qtt_marks_below_mono(s.last(), a, b);
    }
}

pub proof fn lemma_qtt_marks_below_mono(q: SpecQtt, a: nat, b: nat)
    requires
        qtt_marks_below(q, a),
        a <= b,
    ensures
        qtt_marks_below(q, b),
    decreases q, 1nat,
{
    match q {
        SpecQtt::TT(t) => lemma_tree_marks_below_mono(t, a, b),
        SpecQtt::QDL(_, _, inner, _) => lemma_qtts_marks_below_mono(inner, a, b),
        SpecQtt::QIdent(t) => lemma_tree_marks_below_mono(t, a, b),
    }
}

/// A source of fresh identifiers: each one it hands out has a mark that no
/// identifier before it had.
pub struct Gensym {
    pub next: u64,
}

impl Gensym {
    /// A source whose first identifier has mark 1; source text has mark 0.
    pub fn new() -> (r: Gensym)
        ensures
            r.next == 1,
    {
        Gensym { next: 1 }
    }

    /// A fresh identifier with the given text.
    pub fn fresh(&mut self, name: Vec<char>) -> (r: Ident)
        requires
            old(self).next < u64::MAX,
        ensures
            r@ == (SpecIdent { name: name@, mark: old(self).next as nat }),
            final(self).next == old(self).next + 1,
    {
        let r = Ident { name, mark: self.next };
        self.next = self.next + 1;
        r
    }
}

} // verus!
