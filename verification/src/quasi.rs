//! The quasi-quoter: it finds the unquoted expressions of a quote, binds
//! each to a fresh identifier, and turns the quote into code.
use vstd::prelude::*;

use crate::builder::{as_tt, build_brace_delim, concat, group_tree, ident_tree, word, word_text, Word};
use crate::convert::{convert_complex_tts, is_quote, is_unquote, lemma_qtts_wf, qtt_wf, qtts_wf, spec_convert, spec_is_quote, spec_is_unquote, spec_unravel, unravel};
use crate::qtt::{lemma_qtt_marks_below_mono, lemma_qtts_marks_below, lemma_qtts_marks_below_mono, qtt_marks_below, qtts_marks_below, bindings_view, lemma_qtts_view_push, qtt_size, qtts_size, qtts_view, Bindings, Gensym, QDelimited, SpecBinding, SpecQtt, QTT};
use crate::token::{lemma_tree_marks_below_mono, lemma_marks_below_mono, lemma_trees_marks_below, tree_marks_below, trees_marks_below, lemma_trees_size_first, lemma_trees_size_split, lemma_trees_view, tree_size, trees_size, trees_view, SpecIdent, SpecToken, SpecTree, Token, TokenStream, TokenTree};

verus! {

// ____________________________________________________________________________
// Model

/// Whether `t` is the identifier `unquote`.
pub open spec fn is_unquote_tree(t: SpecTree) -> bool {
    t matches SpecTree::Token(_, SpecToken::Ident(id)) && spec_is_unquote(id)
}

/// Whether `t` is the identifier `qquote`.
pub open spec fn is_quote_tree(t: SpecTree) -> bool {
    t matches SpecTree::Token(_, SpecToken::Ident(id)) && spec_is_quote(id)
}

/// The bindings, the intermediate trees and the next mark of the quote `s`
/// read at quote depth `depth`, starting with mark `m`.
///
/// At depth 0, `unquote` and the tree after it become a fresh `tmp`
/// identifier bound to that tree. Elsewhere `unquote` stays and lowers the
/// depth by one; `qquote` is dropped and raises it by one. Groups are read
/// at the depth where they stand, and the depth inside them does not leak
/// out. An `unquote` at depth 0 with nothing after it ends the quote.
pub open spec fn spec_qquote_iter(depth: int, s: Seq<SpecTree>, m: nat) -> (
    Seq<SpecBinding>,
    Seq<SpecQtt>,
    nat,
)
    decreases s,
{
    if s.len() == 0 {
        (Seq::empty(), Seq::empty(), m)
    } else {
        let t = s[0];
        if is_unquote_tree(t) {
            if depth == 0 {
                if s.len() == 1 {
                    (Seq::empty(), Seq::empty(), m)
                } else {
                    let id = SpecIdent { name: word_text(Word::Tmp), mark: m };
                    let (b, o, k) = spec_qquote_iter(0, s.skip(2), m + 1);
                    (seq![(id, seq![s[1]])] + b, seq![SpecQtt::QIdent(ident_tree(id))] + o, k)
                }
            } else {
                let (b, o, k) = spec_qquote_iter(depth - 1, s.skip(1), m);
                (b, seq![SpecQtt::TT(t)] + o, k)
            }
        } else if is_quote_tree(t) {
            spec_qquote_iter(depth + 1, s.skip(1), m)
        } else {
            match t {
                SpecTree::Delimited(_, d, os, inner, cs) => {
                    let (b1, o1, k1) = spec_qquote_iter(depth, inner, m);
                    let (b2, o2, k2) = spec_qquote_iter(depth, s.skip(1), k1);
                    (b1 + b2, seq![SpecQtt::QDL(d, os, o1, cs)] + o2, k2)
                },
                _ => {
                    let (b, o, k) = spec_qquote_iter(depth, s.skip(1), m);
                    (b, seq![SpecQtt::TT(t)] + o, k)
                },
            }
        }
    }
}

/// The code of the quote `s`: the `let` of each unquoted expression and of
/// each group, then the code that rebuilds the trees.
pub open spec fn spec_qquoter(s: Seq<SpecTree>, m: nat) -> (Seq<SpecTree>, nat) {
    let (b1, o, k1) = spec_qquote_iter(0, s, m);
    let (b2, body, k2) = spec_convert(o, k1);
    let b = b1 + b2;
    (if b.len() == 0 {
        body
    } else {
        spec_unravel(b) + body
    }, k2)
}

/// What the quote macro expands to: the code of the quote, in braces.
pub open spec fn spec_qquote(s: Seq<SpecTree>, m: nat) -> (Seq<SpecTree>, nat) {
    (seq![group_tree(crate::token::Delim::Brace, spec_qquoter(s, m).0)], spec_qquoter(s, m).1)
}

// ____________________________________________________________________________
// Laws of the reading

/// Reading a quote hands out at most one mark and one intermediate node
/// per node it reads, never going back on the marks.
pub proof fn lemma_qquote_iter_sizes(depth: int, s: Seq<SpecTree>, m: nat)
    ensures
        m <= spec_qquote_iter(depth, s, m).2,
        spec_qquote_iter(depth, s, m).2 - m + qtts_size(spec_qquote_iter(depth, s, m).1)
            <= trees_size(s),
    decreases s,
{
    if s.len() > 0 {
        lemma_trees_size_first(s);
        let t = s[0];
        if is_unquote_tree(t) {
            if depth == 0 {
                if s.len() > 1 {
                    lemma_trees_size_first(s.skip(1));
                    assert(s.skip(1).skip(1) =~= s.skip(2));
                    assert(s.skip(1)[0] == s[1]);
                    lemma_qquote_iter_sizes(0, s.skip(2), m + 1);
                    let (b, o, k) = spec_qquote_iter(0, s.skip(2), m + 1);
                    lemma_qtts_size_cons(SpecQtt::QIdent(ident_tree(SpecIdent { name: word_text(Word::Tmp), mark: m })), o);
                    lemma_tree_size_pos(s[1]);
                }
            } else {
                lemma_qquote_iter_sizes(depth - 1, s.skip(1), m);
                let (b, o, k) = spec_qquote_iter(depth - 1, s.skip(1), m);
                lemma_qtts_size_cons(SpecQtt::TT(t), o);
            }
        } else if is_quote_tree(t) {
            lemma_qquote_iter_sizes(depth + 1, s.skip(1), m);
        } else {
            match t {
                SpecTree::Delimited(_, d, os, inner, cs) => {
                    lemma_qquote_iter_sizes(depth, inner, m);
                    let (b1, o1, k1) = spec_qquote_iter(depth, inner, m);
                    lemma_qquote_iter_sizes(depth, s.skip(1), k1);
                    let (b2, o2, k2) = spec_qquote_iter(depth, s.skip(1), k1);
                    lemma_qtts_size_cons(SpecQtt::QDL(d, os, o1, cs), o2);
                },
                _ => {
                    lemma_qquote_iter_sizes(depth, s.skip(1), m);
                    let (b, o, k) = spec_qquote_iter(depth, s.skip(1), m);
                    lemma_qtts_size_cons(SpecQtt::TT(t), o);
                },
            }
        }
    }
}

proof fn lemma_tree_size_pos(t: SpecTree)
    ensures
        tree_size(t) >= 1,
{
}

proof fn lemma_qtts_size_cons(q: SpecQtt, o: Seq<SpecQtt>)
    ensures
        qtts_size(seq![q] + o) == qtt_size(q) + qtts_size(o),
    decreases o.len(),
{
    if o.len() == 0 {
        assert((seq![q] + o).drop_last() =~= Seq::<SpecQtt>::empty());
        assert((seq![q] + o) =~= seq![q]);
        assert(seq![q].last() == q);
        assert(qtts_size(Seq::<SpecQtt>::empty()) == 0);
    } else {
        lemma_qtts_size_cons(q, o.drop_last());
        assert((seq![q] + o).drop_last() =~= seq![q] + o.drop_last());
        assert((seq![q] + o).last() == o.last());
    }
}

proof fn lemma_qtts_wf_cons(q: SpecQtt, o: Seq<SpecQtt>)
    requires
        qtt_wf(q),
        qtts_wf(o),
    ensures
        qtts_wf(seq![q] + o),
{
    lemma_qtts_wf(o);
    lemma_qtts_wf(seq![q] + o);
    assert forall|i: int| 0 <= i < (seq![q] + o).len() implies #[trigger] qtt_wf(
        (seq![q] + o)[i],
    ) by {
        if i > 0 {
            assert((seq![q] + o)[i] == o[i - 1]);
        }
    }
}

/// Every intermediate tree that reading a quote gives can be turned into
/// code: no group is copied as it is.
pub proof fn lemma_qquote_iter_wf(depth: int, s: Seq<SpecTree>, m: nat)
    ensures
        qtts_wf(spec_qquote_iter(depth, s, m).1),
    decreases s,
{
    if s.len() > 0 {
        let t = s[0];
        if is_unquote_tree(t) {
            if depth == 0 {
                if s.len() > 1 {
                    lemma_qquote_iter_wf(0, s.skip(2), m + 1);
                    let (b, o, k) = spec_qquote_iter(0, s.skip(2), m + 1);
                    lemma_qtts_wf_cons(SpecQtt::QIdent(ident_tree(SpecIdent { name: word_text(Word::Tmp), mark: m })), o);
                }
            } else {
                lemma_qquote_iter_wf(depth - 1, s.skip(1), m);
                let (b, o, k) = spec_qquote_iter(depth - 1, s.skip(1), m);
                lemma_qtts_wf_cons(SpecQtt::TT(t), o);
            }
        } else if is_quote_tree(t) {
            lemma_qquote_iter_wf(depth + 1, s.skip(1), m);
        } else {
            match t {
                SpecTree::Delimited(_, d, os, inner, cs) => {
                    lemma_qquote_iter_wf(depth, inner, m);
                    let (b1, o1, k1) = spec_qquote_iter(depth, inner, m);
                    lemma_qquote_iter_wf(depth, s.skip(1), k1);
                    let (b2, o2, k2) = spec_qquote_iter(depth, s.skip(1), k1);
                    lemma_qtts_wf_cons(SpecQtt::QDL(d, os, o1, cs), o2);
                },
                _ => {
                    lemma_qquote_iter_wf(depth, s.skip(1), m);
                    let (b, o, k) = spec_qquote_iter(depth, s.skip(1), m);
                    lemma_qtts_wf_cons(SpecQtt::TT(t), o);
                },
            }
        }
    }
}

proof fn lemma_marks_below_skip(s: Seq<SpecTree>, n: nat, k: int)
    requires
        trees_marks_below(s, n),
        0 <= k <= s.len(),
    ensures
        trees_marks_below(s.skip(k), n),
        k < s.len() ==> tree_marks_below(s[k], n),
{
    lemma_trees_marks_below(s, n);
    lemma_trees_marks_below(s.skip(k), n);
    assert forall|i: int| 0 <= i < s.skip(k).len() implies #[trigger] tree_marks_below(
        s.skip(k)[i],
        n,
    ) by {
        assert(s.skip(k)[i] == s[i + k]);
    }
}

proof fn lemma_qtts_marks_cons(q: SpecQtt, o: Seq<SpecQtt>, n: nat)
    requires
        qtt_marks_below(q, n),
        qtts_marks_below(o, n),
    ensures
        qtts_marks_below(seq![q] + o, n),
{
    lemma_qtts_marks_below(o, n);
    lemma_qtts_marks_below(seq![q] + o, n);
    assert forall|i: int| 0 <= i < (seq![q] + o).len() implies #[trigger] qtt_marks_below(
        (seq![q] + o)[i],
        n,
    ) by {
        if i > 0 {
            assert((seq![q] + o)[i] == o[i - 1]);
        }
    }
}

/// Every identifier that reading a quote leaves has a mark below the next
/// mark, where those of the quote were below the first one.
pub proof fn lemma_qquote_iter_marks(depth: int, s: Seq<SpecTree>, m: nat)
    requires
        trees_marks_below(s, m),
    ensures
        qtts_marks_below(spec_qquote_iter(depth, s, m).1, spec_qquote_iter(depth, s, m).2),
    decreases s,
{
    if s.len() > 0 {
        let t = s[0];
        lemma_marks_below_skip(s, m, 0);
        lemma_marks_below_skip(s, m, 1);
        let k = spec_qquote_iter(depth, s, m).2;
        lemma_qquote_iter_sizes(depth, s, m);
        if is_unquote_tree(t) {
            if depth == 0 {
                if s.len() > 1 {
                    lemma_marks_below_skip(s, m, 2);
                    lemma_marks_below_mono(s.skip(2), m, m + 1);
                    lemma_qquote_iter_marks(0, s.skip(2), m + 1);
                    lemma_qquote_iter_sizes(0, s.skip(2), m + 1);
                    let (b, o, k2) = spec_qquote_iter(0, s.skip(2), m + 1);
                    lemma_qtts_marks_cons(
                        SpecQtt::QIdent(ident_tree(SpecIdent { name: word_text(Word::Tmp), mark: m })),
                        o,
                        k2,
                    );
                }
            } else {
                lemma_qquote_iter_marks(depth - 1, s.skip(1), m);
                lemma_qquote_iter_sizes(depth - 1, s.skip(1), m);
                let (b, o, k2) = spec_qquote_iter(depth - 1, s.skip(1), m);
                lemma_tree_marks_below_mono(t, m, k2);
                lemma_qtts_marks_cons(SpecQtt::TT(t), o, k2);
            }
        } else if is_quote_tree(t) {
            lemma_qquote_iter_marks(depth + 1, s.skip(1), m);
        } else {
            match t {
                SpecTree::Delimited(_, d, os, inner, cs) => {
                    lemma_qquote_iter_marks(depth, inner, m);
                    lemma_qquote_iter_sizes(depth, inner, m);
                    let (b1, o1, k1) = spec_qquote_iter(depth, inner, m);
                    lemma_marks_below_mono(s.skip(1), m, k1);
                    lemma_qquote_iter_marks(depth, s.skip(1), k1);
                    lemma_qquote_iter_sizes(depth, s.skip(1), k1);
                    let (b2, o2, k2) = spec_qquote_iter(depth, s.skip(1), k1);
                    lemma_qtts_marks_below_mono(o1, k1, k2);
                    lemma_qtts_marks_cons(SpecQtt::QDL(d, os, o1, cs), o2, k2);
                },
                _ => {
                    lemma_qquote_iter_marks(depth, s.skip(1), m);
                    lemma_qquote_iter_sizes(depth, s.skip(1), m);
                    let (b, o, k2) = spec_qquote_iter(depth, s.skip(1), m);
                    lemma_tree_marks_below_mono(t, m, k2);
                    lemma_qtts_marks_cons(SpecQtt::TT(t), o, k2);
                },
            }
        }
    }
}

/// The number of `qquote` (`quote`) or `unquote` (otherwise) identifiers
/// in `t`, at any depth of groups.
pub open spec fn tree_markers(t: SpecTree, quote: bool) -> nat
    decreases t, 1nat,
{
    match t {
        SpecTree::Token(_, _) => if (quote && is_quote_tree(t)) || (!quote && is_unquote_tree(t)) {
            1
        } else {
            0
        },
        SpecTree::Delimited(_, _, _, inner, _) => trees_markers(inner, quote),
    }
}

pub open spec fn trees_markers(s: Seq<SpecTree>, quote: bool) -> nat
    decreases s, 0nat,
{
    if s.len() == 0 {
        0
    } else {
        trees_markers(s.drop_last(), quote) + tree_markers(s.last(), quote)
    }
}

pub proof fn lemma_trees_markers_split(s: Seq<SpecTree>, i: int, quote: bool)
    requires
        0 <= i <= s.len(),
    ensures
        trees_markers(s, quote) == trees_markers(s.take(i), quote) + trees_markers(s.skip(i), quote),
    decreases s.len(),
{
    if i == s.len() {
        assert(s.take(i) =~= s);
        assert(s.skip(i) =~= Seq::<SpecTree>::empty());
    } else {
        lemma_trees_markers_split(s.drop_last(), i, quote);
        assert(s.drop_last().take(i) =~= s.take(i));
        assert(s.skip(i).drop_last() =~= s.drop_last().skip(i));
        assert(s.skip(i).last() == s.last());
    }
}

// ____________________________________________________________________________
// Quasiquoter Algorithm

/// Whether `t` is the identifier token `unquote` (`want_unquote`) or
/// `qquote` (otherwise).
fn is_marker(t: &TokenTree, want_unquote: bool) -> (r: bool)
    ensures
        r == if want_unquote {
            is_unquote_tree(t@)
        } else {
            is_quote_tree(t@)
        },
{
    match t {
        TokenTree::Token(_, Token::Ident(id)) => if want_unquote {
            is_unquote(id.copy())
        } else {
            is_quote(id.copy())
        },
        _ => false,
    }
}

/// Reads the quote `ts` at quote depth `depth` (see `spec_qquote_iter`):
/// each unquoted expression at depth 0 becomes a fresh identifier from
/// `gen`, bound to that expression.
pub fn qquote_iter(gen: &mut Gensym, depth: i64, ts: TokenStream) -> (r: (Bindings, Vec<QTT>))
    requires
        i64::MIN + trees_markers(ts@, false) <= depth <= i64::MAX - trees_markers(ts@, true),
        1 <= old(gen).next,
        trees_marks_below(ts@, old(gen).next as nat),
        old(gen).next + trees_size(ts@) <= u64::MAX,
    ensures
        bindings_view(r.0@) == spec_qquote_iter(depth as int, ts@, old(gen).next as nat).0,
        qtts_view(r.1@) == spec_qquote_iter(depth as int, ts@, old(gen).next as nat).1,
        final(gen).next == spec_qquote_iter(depth as int, ts@, old(gen).next as nat).2,
    decreases trees_size(ts@),
{
    let ghost s = ts@;
    let ghost d0 = depth as int;
    let ghost m0 = gen.next as nat;
    let ghost total = spec_qquote_iter(d0, s, m0);
    let mut depth = depth;
    let mut bindings: Bindings = Vec::new();
    let mut output: Vec<QTT> = Vec::new();
    let n = ts.tts.len();
    proof {
        lemma_trees_view(ts.tts@);
        assert(s.skip(0) =~= s);
        assert(s.take(0) =~= Seq::<SpecTree>::empty());
        assert(bindings_view(bindings@) =~= Seq::<SpecBinding>::empty());
        assert(qtts_view(output@) =~= Seq::<SpecQtt>::empty());
    }
    let mut rest = crate::util::into_reversed(ts.tts);
    let ghost raw = rest@.reverse();
    let mut i: usize = 0;
    while rest.len() > 0
        invariant
            s == ts@,
            s.len() == raw.len(),
            forall|j: int| 0 <= j < raw.len() ==> #[trigger] s[j] == raw[j]@,
            n == raw.len(),
            i + rest@.len() == raw.len(),
            rest@ == raw.skip(i as int).reverse(),
            d0 - trees_markers(s.take(i as int), false) <= depth <= d0 + trees_markers(
                s.take(i as int),
                true,
            ),
            i64::MIN + trees_markers(s, false) <= d0 <= i64::MAX - trees_markers(s, true),
            1 <= m0,
            trees_marks_below(s, m0),
            m0 <= gen.next <= m0 + trees_size(s.take(i as int)),
            m0 + trees_size(s) <= u64::MAX,
            total == spec_qquote_iter(d0, s, m0),
            total.0 == bindings_view(bindings@) + spec_qquote_iter(
                depth as int,
                s.skip(i as int),
                gen.next as nat,
            ).0,
            total.1 == qtts_view(output@) + spec_qquote_iter(
                depth as int,
                s.skip(i as int),
                gen.next as nat,
            ).1,
            total.2 == spec_qquote_iter(depth as int, s.skip(i as int), gen.next as nat).2,
        decreases rest@.len(),
    {
        let ghost before = rest@;
        let next = rest.pop().unwrap();
        assert(next == raw[i as int]) by {
            assert(before.last() == raw.skip(i as int).reverse().last());
        }
        let ghost t = s[i as int];
        let ghost cur = s.skip(i as int);
        proof {
            assert(t == next@);
            assert(cur[0] == t);
            assert(cur.skip(1) =~= s.skip(i + 1));
            assert(s.take(i + 1).drop_last() =~= s.take(i as int));
            assert(s.take(i + 1).last() == t);
            lemma_trees_size_split(s, i + 1);
            lemma_tree_size_pos(t);
            lemma_trees_markers_split(s, i + 1, true);
            lemma_trees_markers_split(s, i + 1, false);
            lemma_trees_markers_split(s, i as int, true);
            lemma_trees_markers_split(s, i as int, false);
            lemma_trees_marks_below(s, m0);
            assert(tree_marks_below(t, m0));
            assert(trees_markers(s.take(i + 1), true) == trees_markers(s.take(i as int), true)
                + tree_markers(t, true));
            assert(trees_markers(s.take(i + 1), false) == trees_markers(s.take(i as int), false)
                + tree_markers(t, false));
            assert(is_unquote_tree(t) ==> tree_markers(t, false) == 1);
            assert(is_quote_tree(t) ==> tree_markers(t, true) == 1);
        }
        let unq = is_marker(&next, true);
        let quo = is_marker(&next, false);
        if unq {
            if depth == 0 {
                if rest.len() > 0 {
                    let ghost before2 = rest@;
                    let exp = rest.pop().unwrap();
                    assert(exp == raw[i + 1]) by {
                        assert(before2.last() == raw.skip(i + 1).reverse().last());
                    }
                    proof {
                        assert(cur[1] == s[i + 1]);
                        assert(cur.skip(2) =~= s.skip(i + 2));
                        assert(s.take(i + 2).drop_last() =~= s.take(i + 1));
                        assert(s.take(i + 2).last() == s[i + 1]);
                        lemma_trees_size_split(s, i + 2);
                        lemma_tree_size_pos(s[i + 1]);
                        assert(trees_markers(s.take(i + 2), true) == trees_markers(
                            s.take(i + 1),
                            true,
                        ) + tree_markers(s[i + 1], true));
                        assert(trees_markers(s.take(i + 2), false) == trees_markers(
                            s.take(i + 1),
                            false,
                        ) + tree_markers(s[i + 1], false));
                    }
                    let new_id = gen.fresh(word(Word::Tmp));
                    let ghost idv = new_id@;
                    let bound = TokenStream::from_tts(vec![exp]);
                    proof {
                        lemma_trees_view(bound.tts@);
                        assert(bound@ =~= seq![s[i + 1]]);
                    }
                    let ghost bb = bindings@;
                    bindings.push((new_id.copy(), bound));
                    let ghost ob = output@;
                    let q = QTT::QIdent(as_tt(Token::Ident(new_id)));
                    proof {
                        lemma_qtts_view_push(ob, q);
                    }
                    output.push(q);
                    proof {
                        assert(bindings_view(bindings@) =~= bindings_view(bb).push((idv, seq![s[i + 1]])));
                        let rn = spec_qquote_iter(0, s.skip(i + 2), gen.next as nat);
                        assert(total.0 =~= bindings_view(bindings@) + rn.0);
                        assert(total.1 =~= qtts_view(output@) + rn.1);
                    }
                    assert(rest@ =~= raw.skip(i + 2).reverse());
                    i = i + 2;
                } else {
                    proof {
                        assert(cur.len() == 1);
                        assert(s.skip(i + 1) =~= Seq::<SpecTree>::empty());
                        assert(total.0 =~= bindings_view(bindings@) + Seq::<SpecBinding>::empty());
                        assert(total.1 =~= qtts_view(output@) + Seq::<SpecQtt>::empty());
                    }
                    assert(rest@ =~= raw.skip(i + 1).reverse());
                    i = i + 1;
                }
            } else {
                depth = depth - 1;
                let ghost ob = output@;
                let q = QTT::TT(next);
                proof {
                    lemma_qtts_view_push(ob, q);
                }
                output.push(q);
                proof {
                    let rn = spec_qquote_iter(depth as int, s.skip(i + 1), gen.next as nat);
                    assert(total.0 =~= bindings_view(bindings@) + rn.0);
                    assert(total.1 =~= qtts_view(output@) + rn.1);
                }
                assert(rest@ =~= raw.skip(i + 1).reverse());
                i = i + 1;
            }
        } else if quo {
            depth = depth + 1;
            assert(rest@ =~= raw.skip(i + 1).reverse());
            i = i + 1;
        } else {
            match next {
                TokenTree::Delimited(_, dl) => {
                    let ghost inner = trees_view(dl.tts@);
                    proof {
                        assert(t == next@);
                        assert(tree_size(t) == 1 + trees_size(inner));
                        assert(trees_size(inner) < trees_size(s));
                        assert(tree_markers(t, true) == trees_markers(inner, true));
                        assert(tree_markers(t, false) == trees_markers(inner, false));
                        assert(trees_marks_below(inner, m0));
                        lemma_marks_below_mono(inner, m0, gen.next as nat);
                    }
                    let ghost g_before = gen.next as nat;
                    let (mut bind_, res_) = qquote_iter(gen, depth, TokenStream::from_tts(dl.tts));
                    let ghost bb = bindings@;
                    let ghost rb = bind_@;
                    bindings.append(&mut bind_);
                    let new_dl = QDelimited {
                        delim: dl.delim,
                        open_span: dl.open_span,
                        tts: res_,
                        close_span: dl.close_span,
                    };
                    let ghost ob = output@;
                    let q = QTT::QDL(new_dl);
                    proof {
                        lemma_qtts_view_push(ob, q);
                        lemma_qquote_iter_sizes(depth as int, inner, g_before);
                    }
                    output.push(q);
                    proof {
                        assert(bindings_view(bindings@) =~= bindings_view(bb) + bindings_view(rb));
                        let rn = spec_qquote_iter(depth as int, s.skip(i + 1), gen.next as nat);
                        assert(total.0 =~= bindings_view(bindings@) + rn.0);
                        assert(total.1 =~= qtts_view(output@) + rn.1);
                    }
                    assert(rest@ =~= raw.skip(i + 1).reverse());
                    i = i + 1;
                },
                t2 => {
                    let ghost ob = output@;
                    let q = QTT::TT(t2);
                    proof {
                        lemma_qtts_view_push(ob, q);
                    }
                    output.push(q);
                    proof {
                        let rn = spec_qquote_iter(depth as int, s.skip(i + 1), gen.next as nat);
                        assert(total.0 =~= bindings_view(bindings@) + rn.0);
                        assert(total.1 =~= qtts_view(output@) + rn.1);
                    }
                    assert(rest@ =~= raw.skip(i + 1).reverse());
                    i = i + 1;
                },
            }
        }
    }
    proof {
        assert(s.skip(i as int) =~= Seq::<SpecTree>::empty());
        assert(total.0 =~= bindings_view(bindings@));
        assert(total.1 =~= qtts_view(output@));
    }
    (bindings, output)
}

/// The code of the quote `ts` (see `spec_qquoter`): `let` statements for
/// the unquoted expressions and the groups, followed by the code that
/// rebuilds the trees; just the latter where there is nothing to bind.
pub fn qquoter(gen: &mut Gensym, ts: TokenStream) -> (r: TokenStream)
    requires
        trees_markers(ts@, true) <= i64::MAX,
        trees_markers(ts@, false) <= i64::MAX + 1,
        1 <= old(gen).next,
        trees_marks_below(ts@, old(gen).next as nat),
        old(gen).next + trees_size(ts@) <= u64::MAX,
    ensures
        r@ == spec_qquoter(ts@, old(gen).next as nat).0,
        final(gen).next == spec_qquoter(ts@, old(gen).next as nat).1,
{
    let ghost s = ts@;
    let ghost m0 = gen.next as nat;
    proof {
        lemma_qquote_iter_sizes(0, s, m0);
        lemma_qquote_iter_wf(0, s, m0);
        lemma_qquote_iter_marks(0, s, m0);
    }
    let (mut bindings, body) = qquote_iter(gen, 0, ts);
    let ghost b1 = bindings@;
    let (mut cct_bindings, cct_body) = convert_complex_tts(gen, body);
    let ghost b2 = cct_bindings@;
    bindings.append(&mut cct_bindings);
    proof {
        assert(bindings_view(bindings@) =~= bindings_view(b1) + bindings_view(b2));
    }
    if bindings.len() == 0 {
        cct_body
    } else {
        concat(unravel(bindings), cct_body)
    }
}

/// What the quote macro expands to (see `spec_qquote`): the code of the
/// quote `tts`, in braces.
pub fn qquote(gen: &mut Gensym, tts: Vec<TokenTree>) -> (r: Vec<TokenTree>)
    requires
        trees_markers(trees_view(tts@), true) <= i64::MAX,
        trees_markers(trees_view(tts@), false) <= i64::MAX + 1,
        1 <= old(gen).next,
        trees_marks_below(trees_view(tts@), old(gen).next as nat),
        old(gen).next + trees_size(trees_view(tts@)) <= u64::MAX,
    ensures
        trees_view(r@) == spec_qquote(trees_view(tts@), old(gen).next as nat).0,
        final(gen).next == spec_qquote(trees_view(tts@), old(gen).next as nat).1,
{
    let output = qquoter(gen, TokenStream::from_tts(tts));
    build_brace_delim(output).to_tts()
}

} // verus!
