//! What the code of a quote computes when it runs, and the proof that it
//! rebuilds the quote.
//!
//! The code is made of a few fixed forms (see `convert`): the code of a
//! token, `TokenTree :: Token ( DUMMY_SP , Token :: K ( "text" ) )`; the
//! code of a group, which names the identifier bound to the code of its
//! contents; `vec ! [ items ] . to_appendable ( )`; and a block that
//! appends segments to `output`. `eval_code` gives each of them the value
//! that Rust gives it.
use vstd::prelude::*;

use crate::builder::{escaped, group_tree, ident_tree, plain_ident, spec_append_last, spec_emit_token, spec_field_assign, spec_mod_call, spec_path, spec_push_vec, str_lit, sym_tree, word_text, word_tree, Sym, Word};
use crate::convert::{spec_unravel, append_stmt, append_stmts, delim_path, output_prelude, qtt_wf, qtts_wf, spec_assemble, spec_convert, spec_qdl_code, spec_segments, to_appendable_call};
use crate::qtt::{SpecBinding, SpecQtt};
use crate::laws::{bound, lookup, plug, plug_one, distinct_marks, ref_ok, refs_ok, strip};
use crate::quasi::{is_quote_tree, is_unquote_tree, spec_qquote_iter, spec_qquoter};
use crate::token::{inner_of, spec_dummy_sp, Delim, SpecIdent, SpecToken, SpecTree};

verus! {

// ____________________________________________________________________________
// Reading code

/// The text of a token; nothing for a group.
pub open spec fn text_of(t: SpecTree) -> Seq<char> {
    match t {
        SpecTree::Token(_, SpecToken::Ident(id)) => id.name,
        SpecTree::Token(_, SpecToken::Literal(x)) => x,
        SpecTree::Token(_, SpecToken::Punct(x)) => x,
        _ => Seq::empty(),
    }
}

/// The identifier of an identifier token.
pub open spec fn ident_of(t: SpecTree) -> SpecIdent {
    match t {
        SpecTree::Token(_, SpecToken::Ident(id)) => id,
        _ => SpecIdent { name: Seq::empty(), mark: 0 },
    }
}

/// The value of the body of a string literal written by `string_literal`:
/// each backslash stands before the character it escapes.
pub open spec fn unescaped(e: Seq<char>) -> Seq<char>
    decreases e.len(),
{
    if e.len() == 0 {
        Seq::empty()
    } else if (e.last() == '"' || e.last() == '\\') && e.len() >= 2 {
        unescaped(e.drop_last().drop_last()) + seq![e.last()]
    } else {
        unescaped(e.drop_last()) + seq![e.last()]
    }
}

/// The value of a string literal.
pub open spec fn literal_value(l: Seq<char>) -> Seq<char> {
    unescaped(l.subrange(1, l.len() - 1))
}

/// The token that the code of a token builds.
pub open spec fn token_of_code(c: Seq<SpecTree>) -> SpecToken {
    let inner = inner_of(c[3]);
    let kind = text_of(inner[4]);
    let arg = inner_of(inner[5]);
    if kind == word_text(Word::Ident) {
        SpecToken::Ident(plain_ident(literal_value(text_of(inner_of(arg[1])[0]))))
    } else if kind == word_text(Word::Literal) {
        SpecToken::Literal(literal_value(text_of(arg[0])))
    } else {
        SpecToken::Punct(literal_value(text_of(arg[0])))
    }
}

/// The bracket kind that `token :: DelimToken :: K` names.
pub open spec fn delim_of_word(w: Seq<char>) -> Delim {
    if w == word_text(Word::Paren) {
        Delim::Paren
    } else if w == word_text(Word::Brace) {
        Delim::Brace
    } else {
        Delim::Bracket
    }
}

/// The tree that the code `c` of one item builds: a token, or a group
/// whose trees are the value `g` gives its identifier.
pub open spec fn eval_item(c: Seq<SpecTree>, g: Map<SpecIdent, Seq<SpecTree>>) -> SpecTree {
    if text_of(c[2]) == word_text(Word::Token) {
        SpecTree::Token(spec_dummy_sp(), token_of_code(c))
    } else {
        let fields = inner_of(inner_of(inner_of(c[3])[5])[1]);
        SpecTree::Delimited(
            spec_dummy_sp(),
            delim_of_word(text_of(fields[6])),
            spec_dummy_sp(),
            g[ident_of(fields[14])],
            spec_dummy_sp(),
        )
    }
}

/// The trees that the items `x` build: each item is its code followed by
/// a comma.
pub open spec fn eval_items(x: Seq<SpecTree>, g: Map<SpecIdent, Seq<SpecTree>>) -> Seq<SpecTree>
    decreases x.len(),
{
    if x.len() < 5 {
        Seq::empty()
    } else {
        eval_items(x.subrange(0, x.len() - 5), g) + seq![
            eval_item(x.subrange(x.len() - 5, x.len() - 1), g),
        ]
    }
}

/// The trees of `vec ! [ seg ]`: the tree a lone identifier holds, or the
/// trees its items build.
pub open spec fn eval_seg(
    seg: Seq<SpecTree>,
    vals: Map<SpecIdent, SpecTree>,
    g: Map<SpecIdent, Seq<SpecTree>>,
) -> Seq<SpecTree> {
    if seg.len() == 1 {
        seq![vals[ident_of(seg[0])]]
    } else {
        eval_items(seg, g)
    }
}

/// The trees that the append statements `x` add to `output`.
pub open spec fn eval_stmts(
    x: Seq<SpecTree>,
    vals: Map<SpecIdent, SpecTree>,
    g: Map<SpecIdent, Seq<SpecTree>>,
) -> Seq<SpecTree>
    decreases x.len(),
{
    if x.len() < 5 {
        Seq::empty()
    } else {
        eval_stmts(x.subrange(0, x.len() - 5), vals, g) + eval_seg(
            inner_of(inner_of(x[x.len() - 2])[4]),
            vals,
            g,
        )
    }
}

/// The trees that the code of a quote builds, where `vals` gives the tree
/// each placeholder holds and `g` the trees each group identifier holds.
pub open spec fn eval_code(
    code: Seq<SpecTree>,
    vals: Map<SpecIdent, SpecTree>,
    g: Map<SpecIdent, Seq<SpecTree>>,
) -> Seq<SpecTree> {
    if code.len() == 1 {
        let body = inner_of(code[0]);
        eval_stmts(body.subrange(15, body.len() - 4), vals, g)
    } else {
        eval_items(inner_of(code[2]), g)
    }
}

/// Each group identifier holds the value of the code bound to it.
pub open spec fn groups_ok(
    b: Seq<SpecBinding>,
    vals: Map<SpecIdent, SpecTree>,
    g: Map<SpecIdent, Seq<SpecTree>>,
) -> bool {
    forall|j: int|
        0 <= j < b.len() ==> g.dom().contains(#[trigger] b[j].0) && g[b[j].0] == eval_code(
            b[j].1,
            vals,
            g,
        )
}

// ____________________________________________________________________________
// What a quote means

/// A token as code rebuilds it: identifiers lose their marks.
pub open spec fn plain_token(t: SpecToken) -> SpecToken {
    match t {
        SpecToken::Ident(id) => SpecToken::Ident(plain_ident(id.name)),
        _ => t,
    }
}

/// The trees of a quote's intermediate form, each placeholder replaced by
/// the tree `vals` gives it, with the dummy span everywhere.
pub open spec fn denote(s: Seq<SpecQtt>, vals: Map<SpecIdent, SpecTree>) -> Seq<SpecTree>
    decreases s, 0nat,
{
    if s.len() == 0 {
        Seq::empty()
    } else {
        denote(s.drop_last(), vals) + denote_one(s.last(), vals)
    }
}

pub open spec fn denote_one(q: SpecQtt, vals: Map<SpecIdent, SpecTree>) -> Seq<SpecTree>
    decreases q, 1nat,
{
    match q {
        SpecQtt::TT(SpecTree::Token(_, t)) => seq![
            SpecTree::Token(spec_dummy_sp(), plain_token(t)),
        ],
        SpecQtt::TT(_) => Seq::empty(),
        SpecQtt::QDL(d, _, inner, _) => seq![
            SpecTree::Delimited(
                spec_dummy_sp(),
                d,
                spec_dummy_sp(),
                denote(inner, vals),
                spec_dummy_sp(),
            ),
        ],
        SpecQtt::QIdent(t) => seq![vals[ident_of(t)]],
    }
}

// ____________________________________________________________________________
// Lemmas on items

pub proof fn lemma_unescaped_escaped(s: Seq<char>)
    ensures
        unescaped(escaped(s)) == s,
    decreases s.len(),
{
    if s.len() > 0 {
        lemma_unescaped_escaped(s.drop_last());
        let e = escaped(s);
        let c = s.last();
        if c == '"' || c == '\\' {
            assert(e.drop_last().drop_last() =~= escaped(s.drop_last()));
        } else {
            assert(e.drop_last() =~= escaped(s.drop_last()));
        }
        assert(s =~= s.drop_last() + seq![c]);
    }
}

proof fn lemma_literal_value(s: Seq<char>)
    ensures
        literal_value(str_lit(s)) == s,
{
    assert(str_lit(s).subrange(1, str_lit(s).len() - 1) =~= escaped(s));
    lemma_unescaped_escaped(s);
}

pub proof fn lemma_kind_words()
    ensures
        word_text(Word::Ident) != word_text(Word::Literal),
        word_text(Word::Ident) != word_text(Word::Punct),
        word_text(Word::Literal) != word_text(Word::Punct),
        word_text(Word::Token) != word_text(Word::Delimited),
        word_text(Word::Paren) != word_text(Word::Brace),
        word_text(Word::Paren) != word_text(Word::Bracket),
        word_text(Word::Brace) != word_text(Word::Bracket),
{
    assert(word_text(Word::Ident)[0] != word_text(Word::Literal)[0]);
    assert(word_text(Word::Ident)[0] != word_text(Word::Punct)[0]);
    assert(word_text(Word::Literal).len() != word_text(Word::Punct).len());
    assert(word_text(Word::Token).len() != word_text(Word::Delimited).len());
    assert(word_text(Word::Paren)[0] != word_text(Word::Brace)[0]);
    assert(word_text(Word::Paren).len() != word_text(Word::Bracket).len());
    assert(word_text(Word::Brace).len() != word_text(Word::Bracket).len());
}

/// The code of a token builds the token, without its mark.
pub proof fn lemma_token_code(t: SpecToken, g: Map<SpecIdent, Seq<SpecTree>>)
    ensures
        eval_item(spec_emit_token(t), g) == SpecTree::Token(spec_dummy_sp(), plain_token(t)),
{
    lemma_kind_words();
    let c = spec_emit_token(t);
    assert(text_of(c[2]) == word_text(Word::Token));
    match t {
        SpecToken::Ident(id) => {
            lemma_literal_value(id.name);
        },
        SpecToken::Literal(x) => {
            lemma_literal_value(x);
        },
        SpecToken::Punct(x) => {
            lemma_literal_value(x);
        },
    }
}

proof fn lemma_path2(a: SpecIdent, b: SpecIdent)
    ensures
        spec_path(seq![a, b]) == seq![ident_tree(a), sym_tree(Sym::ModSep), ident_tree(b)],
{
    let p = seq![a, b];
    assert(p.drop_last() =~= seq![a]);
    assert(spec_path(seq![a]) == seq![ident_tree(a)]);
    assert(spec_path(p) =~= seq![ident_tree(a), sym_tree(Sym::ModSep), ident_tree(b)]);
}

/// The code of a group builds a group of its kind holding what `g` gives
/// its identifier.
pub proof fn lemma_group_code(d: Delim, id: SpecIdent, g: Map<SpecIdent, Seq<SpecTree>>)
    ensures
        eval_item(spec_qdl_code(d, id), g) == SpecTree::Delimited(
            spec_dummy_sp(),
            d,
            spec_dummy_sp(),
            g[id],
            spec_dummy_sp(),
        ),
{
    lemma_kind_words();
    let c = spec_qdl_code(d, id);
    let fields = spec_field_assign(plain_ident(word_text(Word::Delim)), delim_path(d))
        + spec_field_assign(
        plain_ident(word_text(Word::OpenSpan)),
        seq![word_tree(Word::DummySp)],
    ) + spec_field_assign(plain_ident(word_text(Word::Tts)), seq![ident_tree(id)])
        + spec_field_assign(
        plain_ident(word_text(Word::CloseSpan)),
        seq![word_tree(Word::DummySp)],
    );
    let rc_arg = seq![word_tree(Word::Delimited), group_tree(Delim::Brace, fields)];
    let args = seq![word_tree(Word::DummySp), sym_tree(Sym::Comma)] + spec_mod_call(
        seq![plain_ident(word_text(Word::Rc)), plain_ident(word_text(Word::New))],
        rc_arg,
    );
    lemma_path2(plain_ident(word_text(Word::TokenTree)), plain_ident(word_text(Word::Delimited)));
    lemma_path2(plain_ident(word_text(Word::Rc)), plain_ident(word_text(Word::New)));
    assert(c[2] == ident_tree(plain_ident(word_text(Word::Delimited))));
    assert(c[3] == group_tree(Delim::Paren, args));
    assert(args[5] == group_tree(Delim::Paren, rc_arg));
    assert(fields[6] == word_tree(
        match d {
            Delim::Paren => Word::Paren,
            Delim::Brace => Word::Brace,
            Delim::Bracket => Word::Bracket,
        },
    ));
    assert(fields[14] == ident_tree(id));
}

// ____________________________________________________________________________
// Segments

/// The trees that the segments build, in order.
pub open spec fn eval_segs(
    p: Seq<Seq<SpecTree>>,
    vals: Map<SpecIdent, SpecTree>,
    g: Map<SpecIdent, Seq<SpecTree>>,
) -> Seq<SpecTree>
    decreases p.len(),
{
    if p.len() == 0 {
        Seq::empty()
    } else {
        eval_segs(p.drop_last(), vals, g) + eval_seg(p.last(), vals, g)
    }
}

/// The shape of the segments while a quote is read: each is a lone
/// placeholder or a list of five-tree items; the last is never a
/// placeholder, and a segment alone holds at least one item.
pub open spec fn segs_shape(p: Seq<Seq<SpecTree>>) -> bool {
    &&& forall|j: int| 0 <= j < p.len() ==> (#[trigger] p[j]).len() == 1 || p[j].len() % 5 == 0
    &&& p.len() > 0 ==> p.last().len() != 1
    &&& p.len() == 1 ==> p[0].len() >= 5
}

proof fn lemma_items_push(l: Seq<SpecTree>, code: Seq<SpecTree>, g: Map<SpecIdent, Seq<SpecTree>>)
    requires
        code.len() == 4,
    ensures
        eval_items(l + code + seq![sym_tree(Sym::Comma)], g) == eval_items(l, g) + seq![
            eval_item(code, g),
        ],
{
    let x = l + code + seq![sym_tree(Sym::Comma)];
    assert(x.subrange(0, x.len() - 5) =~= l);
    assert(x.subrange(x.len() - 5, x.len() - 1) =~= code);
}

/// Adding one item to the segments adds the tree it builds.
proof fn lemma_segs_item(
    p: Seq<Seq<SpecTree>>,
    code: Seq<SpecTree>,
    vals: Map<SpecIdent, SpecTree>,
    g: Map<SpecIdent, Seq<SpecTree>>,
)
    requires
        segs_shape(p),
        code.len() == 4,
    ensures
        ({
            let q = spec_append_last(spec_append_last(p, code), seq![sym_tree(Sym::Comma)]);
            &&& segs_shape(q)
            &&& eval_segs(q, vals, g) == eval_segs(p, vals, g) + seq![eval_item(code, g)]
        }),
{
    let c = seq![sym_tree(Sym::Comma)];
    let q = spec_append_last(spec_append_last(p, code), c);
    if p.len() == 0 {
        let seg = code + c;
        assert(q =~= seq![seg]);
        assert(Seq::<SpecTree>::empty() + code + c =~= seg);
        lemma_items_push(Seq::empty(), code, g);
        assert(q.drop_last() =~= Seq::<Seq<SpecTree>>::empty());
        assert(q.last() == seg);
        assert(eval_segs(q.drop_last(), vals, g) =~= Seq::<SpecTree>::empty());
        assert(eval_segs(q, vals, g) =~= eval_seg(seg, vals, g));
    } else {
        let last = p.last();
        assert(last.len() % 5 == 0) by {
            assert(p[p.len() - 1] == last);
        }
        let seg = last + code + c;
        assert(q =~= p.drop_last().push(seg));
        lemma_items_push(last, code, g);
        assert(q.drop_last() =~= p.drop_last());
        assert forall|j: int| 0 <= j < q.len() implies (#[trigger] q[j]).len() == 1 || q[j].len()
            % 5 == 0 by {
            if j < q.len() - 1 {
                assert(q[j] == p[j]);
            }
        }
    }
}

proof fn lemma_groups_ok_split(
    b1: Seq<SpecBinding>,
    b2: Seq<SpecBinding>,
    vals: Map<SpecIdent, SpecTree>,
    g: Map<SpecIdent, Seq<SpecTree>>,
)
    requires
        groups_ok(b1 + b2, vals, g),
    ensures
        groups_ok(b1, vals, g),
        groups_ok(b2, vals, g),
{
    assert forall|j: int| 0 <= j < b1.len() implies g.dom().contains(#[trigger] b1[j].0)
        && g[b1[j].0] == eval_code(b1[j].1, vals, g) by {
        assert((b1 + b2)[j] == b1[j]);
    }
    assert forall|j: int| 0 <= j < b2.len() implies g.dom().contains(#[trigger] b2[j].0)
        && g[b2[j].0] == eval_code(b2[j].1, vals, g) by {
        assert((b1 + b2)[b1.len() + j] == b2[j]);
    }
}

/// The segments of a quote build its trees.
proof fn lemma_segments_meaning(
    s: Seq<SpecQtt>,
    m: nat,
    vals: Map<SpecIdent, SpecTree>,
    g: Map<SpecIdent, Seq<SpecTree>>,
)
    requires
        qtts_wf(s),
        groups_ok(spec_segments(s, m).0, vals, g),
    ensures
        segs_shape(spec_segments(s, m).1),
        eval_segs(spec_segments(s, m).1, vals, g) == denote(s, vals),
    decreases s, 0nat,
{
    if s.len() == 0 {
        return;
    }
    let (b, p, k) = spec_segments(s.drop_last(), m);
    let (b_new, p_new, k_new) = spec_segments(s, m);
    assert(qtts_wf(s.drop_last()) && qtt_wf(s.last()));
    match s.last() {
        SpecQtt::TT(SpecTree::Token(_, t)) => {
            lemma_segments_meaning(s.drop_last(), m, vals, g);
            lemma_segs_item(p, spec_emit_token(t), vals, g);
            lemma_token_code(t, g);
            assert(denote(s, vals) == denote(s.drop_last(), vals) + denote_one(s.last(), vals));
            assert(p_new == spec_append_last(
                spec_append_last(p, spec_emit_token(t)),
                seq![sym_tree(Sym::Comma)],
            ));
        },
        SpecQtt::TT(_) => {},
        SpecQtt::QDL(d, _, inner, _) => {
            let id = SpecIdent { name: word_text(Word::QdlTmp), mark: k };
            let (b2, body, k2) = spec_convert(inner, k + 1);
            let x = seq![(id, body)];
            assert(b_new == b + b2 + x);
            lemma_groups_ok_split(b + b2, x, vals, g);
            lemma_groups_ok_split(b, b2, vals, g);
            lemma_segments_meaning(s.drop_last(), m, vals, g);
            law_convert_meaning(inner, k + 1, vals, g);
            assert(x[0].0 == id);
            assert(g[id] == eval_code(body, vals, g));
            lemma_path2(plain_ident(word_text(Word::TokenTree)), plain_ident(word_text(Word::Delimited)));
            lemma_segs_item(p, spec_qdl_code(d, id), vals, g);
            lemma_group_code(d, id, g);
            assert(denote(s, vals) == denote(s.drop_last(), vals) + denote_one(s.last(), vals));
            assert(p_new == spec_append_last(
                spec_append_last(p, spec_qdl_code(d, id)),
                seq![sym_tree(Sym::Comma)],
            ));
        },
        SpecQtt::QIdent(t) => {
            lemma_segments_meaning(s.drop_last(), m, vals, g);
            let q = p.push(seq![t]).push(Seq::empty());
            assert(q.drop_last() =~= p.push(seq![t]));
            assert(q.drop_last().drop_last() =~= p);
            assert(eval_seg(Seq::<SpecTree>::empty(), vals, g) =~= Seq::<SpecTree>::empty());
            assert(denote(s, vals) == denote(s.drop_last(), vals) + denote_one(s.last(), vals));
            assert(p_new == q);
            assert(q.last() == Seq::<SpecTree>::empty());
            assert(q.drop_last().last() == seq![t]);
            assert(seq![t][0] == t);
            assert(eval_seg(seq![t], vals, g) == seq![vals[ident_of(t)]]);
            assert(eval_segs(q.drop_last(), vals, g) == eval_segs(p, vals, g) + seq![
                vals[ident_of(t)],
            ]);
            assert(eval_segs(q, vals, g) =~= eval_segs(p, vals, g) + seq![vals[ident_of(t)]]);
            assert forall|j: int| 0 <= j < q.len() implies (#[trigger] q[j]).len() == 1 || q[j].len()
                % 5 == 0 by {
                if j < p.len() {
                    assert(q[j] == p[j]);
                }
            }
        },
    }
}

proof fn lemma_stmts_meaning(
    p: Seq<Seq<SpecTree>>,
    vals: Map<SpecIdent, SpecTree>,
    g: Map<SpecIdent, Seq<SpecTree>>,
)
    ensures
        eval_stmts(append_stmts(p), vals, g) == eval_segs(p, vals, g),
    decreases p.len(),
{
    if p.len() > 0 {
        lemma_stmts_meaning(p.drop_last(), vals, g);
        let a = append_stmts(p.drop_last());
        let seg = p.last();
        if seg.len() > 0 {
            let st = append_stmt(seg);
            let x = a + st;
            assert(x.subrange(0, x.len() - 5) =~= a);
            assert(x[x.len() - 2] == st[3]);
        } else {
            assert(a + Seq::<SpecTree>::empty() =~= a);
            assert(eval_seg(seg, vals, g) =~= Seq::<SpecTree>::empty());
        }
    }
}

/// The code of a quote rebuilds it: run where each group identifier holds
/// the value of the code bound to it and each placeholder holds a tree,
/// it builds the quote's trees with each placeholder replaced by its tree,
/// every span the dummy one and every identifier without its mark.
pub proof fn law_convert_meaning(
    s: Seq<SpecQtt>,
    m: nat,
    vals: Map<SpecIdent, SpecTree>,
    g: Map<SpecIdent, Seq<SpecTree>>,
)
    requires
        qtts_wf(s),
        groups_ok(spec_convert(s, m).0, vals, g),
    ensures
        eval_code(spec_convert(s, m).1, vals, g) == denote(s, vals),
    decreases s, 1nat,
{
    let (b, p, k) = spec_segments(s, m);
    lemma_segments_meaning(s, m, vals, g);
    let code = spec_assemble(p);
    assert(spec_convert(s, m).1 == code);
    if p.len() == 1 {
        assert(p[0].len() >= 5);
        assert(code =~= spec_push_vec(p[0]) + to_appendable_call());
        assert(code.len() == 6);
        assert(code[2] == group_tree(Delim::Bracket, p[0]));
        assert(p.drop_last() =~= Seq::<Seq<SpecTree>>::empty());
        assert(p.last() == p[0]);
        assert(eval_segs(p.drop_last(), vals, g) =~= Seq::<SpecTree>::empty());
        assert(eval_segs(p, vals, g) =~= eval_items(p[0], g));
        assert(eval_code(code, vals, g) == eval_items(p[0], g));
    } else {
        let body = output_prelude() + append_stmts(p) + seq![word_tree(Word::Output)]
            + to_appendable_call();
        assert(code =~= seq![group_tree(Delim::Brace, body)]);
        assert(body.subrange(15, body.len() - 4) =~= append_stmts(p));
        lemma_stmts_meaning(p, vals, g);
        assert(inner_of(code[0]) == body);
        assert(eval_code(code, vals, g) == eval_stmts(append_stmts(p), vals, g));
    }
}

// ____________________________________________________________________________
// The values of the groups

/// The trees that each group identifier of the quote `s` holds once its
/// `let` has run: those of the group's contents.
pub open spec fn group_values(
    s: Seq<SpecQtt>,
    m: nat,
    vals: Map<SpecIdent, SpecTree>,
) -> Map<SpecIdent, Seq<SpecTree>>
    decreases s, 0nat,
{
    if s.len() == 0 {
        Map::empty()
    } else {
        let k = spec_segments(s.drop_last(), m).2;
        let g0 = group_values(s.drop_last(), m, vals);
        match s.last() {
            SpecQtt::QDL(_, _, inner, _) => g0.union_prefer_right(
                group_values(inner, k + 1, vals),
            ).insert(
                SpecIdent { name: word_text(Word::QdlTmp), mark: k },
                denote(inner, vals),
            ),
            _ => g0,
        }
    }
}

/// `g` holds at least what `h` holds.
pub open spec fn extends(g: Map<SpecIdent, Seq<SpecTree>>, h: Map<SpecIdent, Seq<SpecTree>>) -> bool {
    forall|id: SpecIdent| #[trigger] h.dom().contains(id) ==> g.dom().contains(id) && g[id] == h[id]
}

/// The group identifiers of `s` have marks from `m` up to the next mark.
proof fn lemma_group_values_marks(s: Seq<SpecQtt>, m: nat, vals: Map<SpecIdent, SpecTree>)
    ensures
        forall|id: SpecIdent| #[trigger] group_values(s, m, vals).dom().contains(id) ==> m <= id.mark
            < spec_segments(s, m).2,
    decreases s, 0nat,
{
    crate::convert::lemma_convert_marks(s, m);
    if s.len() > 0 {
        lemma_group_values_marks(s.drop_last(), m, vals);
        crate::convert::lemma_convert_marks(s.drop_last(), m);
        let k = spec_segments(s.drop_last(), m).2;
        match s.last() {
            SpecQtt::QDL(_, _, inner, _) => {
                lemma_group_values_marks(inner, k + 1, vals);
                crate::convert::lemma_convert_marks(inner, k + 1);
                let k2 = spec_convert(inner, k + 1).2;
                assert(spec_segments(s, m).2 == k2);
                assert(spec_segments(inner, k + 1).2 == k2);
                let g0 = group_values(s.drop_last(), m, vals);
                let gi = group_values(inner, k + 1, vals);
                let id = SpecIdent { name: word_text(Word::QdlTmp), mark: k };
                let full = g0.union_prefer_right(gi).insert(id, denote(inner, vals));
                assert(group_values(s, m, vals) == full);
                assert forall|i: SpecIdent| #[trigger] full.dom().contains(i) implies m <= i.mark
                    < k2 by {
                    if i != id && !gi.dom().contains(i) {
                        assert(g0.dom().contains(i));
                    }
                }
            },
            _ => {
                assert(spec_segments(s, m).2 == k);
                assert(group_values(s, m, vals) == group_values(s.drop_last(), m, vals));
            },
        }
    }
}

/// Every assignment that holds the values of the groups satisfies the
/// `let`s of the code.
proof fn lemma_group_values_ok(
    s: Seq<SpecQtt>,
    m: nat,
    vals: Map<SpecIdent, SpecTree>,
    g: Map<SpecIdent, Seq<SpecTree>>,
)
    requires
        qtts_wf(s),
        extends(g, group_values(s, m, vals)),
    ensures
        groups_ok(spec_segments(s, m).0, vals, g),
    decreases s, 0nat,
{
    if s.len() == 0 {
        return;
    }
    assert(qtts_wf(s.drop_last()) && qtt_wf(s.last()));
    let (b, p, k) = spec_segments(s.drop_last(), m);
    let g0 = group_values(s.drop_last(), m, vals);
    lemma_group_values_marks(s.drop_last(), m, vals);
    match s.last() {
        SpecQtt::QDL(d, _, inner, _) => {
            let id = SpecIdent { name: word_text(Word::QdlTmp), mark: k };
            let gi = group_values(inner, k + 1, vals);
            lemma_group_values_marks(inner, k + 1, vals);
            let full = g0.union_prefer_right(gi).insert(id, denote(inner, vals));
            assert(extends(g, g0)) by {
                assert forall|i: SpecIdent| #[trigger] g0.dom().contains(i) implies g.dom().contains(i)
                    && g[i] == g0[i] by {
                    assert(!gi.dom().contains(i));
                    assert(i != id);
                    assert(full.dom().contains(i));
                }
            }
            assert(extends(g, gi)) by {
                assert forall|i: SpecIdent| #[trigger] gi.dom().contains(i) implies g.dom().contains(i)
                    && g[i] == gi[i] by {
                    assert(i != id);
                    assert(full.dom().contains(i));
                }
            }
            lemma_group_values_ok(s.drop_last(), m, vals, g);
            crate::convert::lemma_convert_marks(inner, k + 1);
            lemma_group_values_ok(inner, k + 1, vals, g);
            law_convert_meaning(inner, k + 1, vals, g);
            let (b2, body, k2) = spec_convert(inner, k + 1);
            assert(full.dom().contains(id));
            assert(g[id] == denote(inner, vals));
            let bn = b + b2 + seq![(id, body)];
            assert(spec_segments(s, m).0 == bn);
            assert forall|j: int| 0 <= j < bn.len() implies g.dom().contains(#[trigger] bn[j].0)
                && g[bn[j].0] == eval_code(bn[j].1, vals, g) by {
                if j < b.len() {
                    assert(bn[j] == b[j]);
                } else if j < b.len() + b2.len() {
                    assert(bn[j] == b2[j - b.len()]);
                } else {
                    assert(bn[j] == (id, body));
                }
            }
        },
        _ => {
            lemma_group_values_ok(s.drop_last(), m, vals, g);
        },
    }
}

/// The code of a quote rebuilds it: its `let`s, run in order, give each
/// group identifier the trees of that group (`group_values`), and then it
/// builds the quote's trees with each placeholder replaced by the tree
/// `vals` gives it, every span the dummy one and every identifier without
/// its mark.
pub proof fn law_convert_rebuilds(s: Seq<SpecQtt>, m: nat, vals: Map<SpecIdent, SpecTree>)
    requires
        qtts_wf(s),
    ensures
        groups_ok(spec_convert(s, m).0, vals, group_values(s, m, vals)),
        eval_code(spec_convert(s, m).1, vals, group_values(s, m, vals)) == denote(s, vals),
{
    let g = group_values(s, m, vals);
    assert(extends(g, g));
    lemma_group_values_ok(s, m, vals, g);
    law_convert_meaning(s, m, vals, g);
}

// ____________________________________________________________________________
// The whole quoter

/// A tree with every span the dummy one and every identifier plain.
pub open spec fn plain_tree(t: SpecTree) -> SpecTree
    decreases t, 1nat,
{
    match t {
        SpecTree::Token(_, tok) => SpecTree::Token(spec_dummy_sp(), plain_token(tok)),
        SpecTree::Delimited(_, d, _, inner, _) => SpecTree::Delimited(
            spec_dummy_sp(),
            d,
            spec_dummy_sp(),
            plain(inner),
            spec_dummy_sp(),
        ),
    }
}

pub open spec fn plain(s: Seq<SpecTree>) -> Seq<SpecTree>
    decreases s, 0nat,
{
    if s.len() == 0 {
        Seq::empty()
    } else {
        seq![plain_tree(s[0])] + plain(s.skip(1))
    }
}

/// The tree each bound identifier holds: the one its binding gives it.
pub open spec fn vals_of(b: Seq<SpecBinding>) -> Map<SpecIdent, SpecTree> {
    Map::new(|id: SpecIdent| bound(b, id), |id: SpecIdent| lookup(b, id)[0])
}

proof fn lemma_plain_concat(a: Seq<SpecTree>, c: Seq<SpecTree>)
    ensures
        plain(a + c) == plain(a) + plain(c),
    decreases a.len(),
{
    if a.len() == 0 {
        assert(a + c =~= c);
    } else {
        lemma_plain_concat(a.skip(1), c);
        assert((a + c).skip(1) =~= a.skip(1) + c);
        assert((a + c)[0] == a[0]);
    }
}

proof fn lemma_plain_single(x: SpecTree)
    ensures
        plain(seq![x]) == seq![plain_tree(x)],
{
    let e = Seq::<SpecTree>::empty();
    assert(seq![x].skip(1) =~= e);
    assert(seq![x][0] == x);
    assert(plain(e) == e);
    assert(plain(seq![x]) == seq![plain_tree(x)] + plain(e));
    assert(seq![plain_tree(x)] + e =~= seq![plain_tree(x)]);
}

proof fn lemma_denote_concat(a: Seq<SpecQtt>, c: Seq<SpecQtt>, vals: Map<SpecIdent, SpecTree>)
    ensures
        denote(a + c, vals) == denote(a, vals) + denote(c, vals),
    decreases c.len(),
{
    if c.len() == 0 {
        assert(a + c =~= a);
        assert(denote(a, vals) + denote(c, vals) =~= denote(a, vals));
    } else {
        lemma_denote_concat(a, c.drop_last(), vals);
        assert((a + c).drop_last() =~= a + c.drop_last());
        assert((a + c).last() == c.last());
        assert(denote(a, vals) + denote(c, vals) =~= denote(a, vals) + denote(c.drop_last(), vals)
            + denote_one(c.last(), vals));
    }
}

proof fn lemma_denote_single(q: SpecQtt, vals: Map<SpecIdent, SpecTree>)
    ensures
        denote(seq![q], vals) == denote_one(q, vals),
{
    assert(seq![q].drop_last() =~= Seq::<SpecQtt>::empty());
    assert(seq![q].last() == q);
    assert(denote(Seq::<SpecQtt>::empty(), vals) == Seq::<SpecTree>::empty());
    assert(Seq::<SpecTree>::empty() + denote_one(q, vals) =~= denote_one(q, vals));
}

/// Each binding of a read quote holds one tree.
proof fn lemma_qquote_iter_single(depth: int, s: Seq<SpecTree>, m: nat)
    ensures
        forall|j: int|
            0 <= j < spec_qquote_iter(depth, s, m).0.len() ==> (#[trigger] spec_qquote_iter(
                depth,
                s,
                m,
            ).0[j]).1.len() == 1,
    decreases s,
{
    if s.len() > 0 {
        let t = s[0];
        if is_unquote_tree(t) {
            if depth == 0 {
                if s.len() > 1 {
                    lemma_qquote_iter_single(0, s.skip(2), m + 1);
                    let r2 = spec_qquote_iter(0, s.skip(2), m + 1);
                    let x = seq![(SpecIdent { name: word_text(Word::Tmp), mark: m }, seq![s[1]])];
                    assert(spec_qquote_iter(depth, s, m).0 == x + r2.0);
                    assert forall|j: int| 0 <= j < (x + r2.0).len() implies (#[trigger] (x
                        + r2.0)[j]).1.len() == 1 by {
                        if j > 0 {
                            assert((x + r2.0)[j] == r2.0[j - 1]);
                        }
                    }
                }
            } else {
                lemma_qquote_iter_single(depth - 1, s.skip(1), m);
                assert(spec_qquote_iter(depth, s, m).0 == spec_qquote_iter(depth - 1, s.skip(1), m).0);
            }
        } else if is_quote_tree(t) {
            lemma_qquote_iter_single(depth + 1, s.skip(1), m);
            assert(spec_qquote_iter(depth, s, m).0 == spec_qquote_iter(depth + 1, s.skip(1), m).0);
        } else {
            match t {
                SpecTree::Delimited(_, d, os, inner, cs) => {
                    lemma_qquote_iter_single(depth, inner, m);
                    let r1 = spec_qquote_iter(depth, inner, m);
                    lemma_qquote_iter_single(depth, s.skip(1), r1.2);
                    let r2 = spec_qquote_iter(depth, s.skip(1), r1.2);
                    assert(spec_qquote_iter(depth, s, m).0 == r1.0 + r2.0);
                    assert forall|j: int| 0 <= j < (r1.0 + r2.0).len() implies (#[trigger] (r1.0
                        + r2.0)[j]).1.len() == 1 by {
                        if j >= r1.0.len() {
                            assert((r1.0 + r2.0)[j] == r2.0[j - r1.0.len()]);
                        } else {
                            assert((r1.0 + r2.0)[j] == r1.0[j]);
                        }
                    }
                },
                _ => {
                    lemma_qquote_iter_single(depth, s.skip(1), m);
                    assert(spec_qquote_iter(depth, s, m).0 == spec_qquote_iter(depth, s.skip(1), m).0);
                },
            }
        }
    }
}

/// With distinct marks, the value of a bound identifier is that of its
/// binding.
proof fn lemma_lookup_binding(b: Seq<SpecBinding>, j: int)
    requires
        distinct_marks(b),
        0 <= j < b.len(),
    ensures
        lookup(b, b[j].0) == b[j].1,
    decreases b.len(),
{
    if j > 0 {
        assert(b[0].0.mark != b[j].0.mark);
        assert(distinct_marks(b.skip(1))) by {
            assert forall|x: int, y: int|
                0 <= x < b.skip(1).len() && 0 <= y < b.skip(1).len() && x != y implies #[trigger] b.skip(1)[x].0.mark
                != #[trigger] b.skip(1)[y].0.mark by {
                assert(b.skip(1)[x] == b[x + 1] && b.skip(1)[y] == b[y + 1]);
            }
        }
        assert(b.skip(1)[j - 1] == b[j]);
        lemma_lookup_binding(b.skip(1), j - 1);
    }
}

/// Where every binding holds one tree, so does every bound identifier.
proof fn lemma_lookup_single(b: Seq<SpecBinding>, id: SpecIdent)
    requires
        forall|j: int| 0 <= j < b.len() ==> (#[trigger] b[j]).1.len() == 1,
        bound(b, id),
    ensures
        lookup(b, id).len() == 1,
    decreases b.len(),
{
    if b[0].0 != id {
        let j = choose|j: int| 0 <= j < b.len() && #[trigger] b[j].0 == id;
        assert(b.skip(1)[j - 1].0 == id);
        assert forall|i: int| 0 <= i < b.skip(1).len() implies (#[trigger] b.skip(1)[i]).1.len()
            == 1 by {
            assert(b.skip(1)[i] == b[i + 1]);
        }
        lemma_lookup_single(b.skip(1), id);
    } else {
        assert(b[0].1.len() == 1);
    }
}

/// Up to spans and marks, placing each placeholder's one tree gives what
/// putting back its binding gives.
proof fn lemma_denote_plug(
    o: Seq<SpecQtt>,
    b: Seq<SpecBinding>,
    vals: Map<SpecIdent, SpecTree>,
    lo: nat,
    hi: nat,
)
    requires
        qtts_wf(o),
        refs_ok(o, b, lo, hi),
        forall|id: SpecIdent| bound(b, id) ==> seq![vals[id]] == #[trigger] lookup(b, id),
    ensures
        plain(denote(o, vals)) == plain(plug(o, b)),
    decreases o, 0nat,
{
    if o.len() > 0 {
        let q = o[0];
        assert(ref_ok(q, b, lo, hi) && refs_ok(o.skip(1), b, lo, hi));
        crate::convert::lemma_qtts_wf(o);
        crate::convert::lemma_qtts_wf(o.skip(1));
        assert forall|i: int| 0 <= i < o.skip(1).len() implies #[trigger] qtt_wf(o.skip(1)[i]) by {
            assert(o.skip(1)[i] == o[i + 1]);
        }
        assert(qtt_wf(q));
        lemma_denote_plug(o.skip(1), b, vals, lo, hi);
        assert(o =~= seq![q] + o.skip(1));
        lemma_denote_concat(seq![q], o.skip(1), vals);
        lemma_denote_single(q, vals);
        lemma_plain_concat(denote_one(q, vals), denote(o.skip(1), vals));
        lemma_plain_concat(plug_one(q, b), plug(o.skip(1), b));
        match q {
            SpecQtt::TT(t) => {
                lemma_plain_single(denote_one(q, vals)[0]);
                lemma_plain_single(t);
                assert(denote_one(q, vals) =~= seq![denote_one(q, vals)[0]]);
            },
            SpecQtt::QDL(d, os, inner, cs) => {
                lemma_denote_plug(inner, b, vals, lo, hi);
                lemma_plain_single(denote_one(q, vals)[0]);
                lemma_plain_single(plug_one(q, b)[0]);
                assert(denote_one(q, vals) =~= seq![denote_one(q, vals)[0]]);
                assert(plug_one(q, b) =~= seq![plug_one(q, b)[0]]);
            },
            SpecQtt::QIdent(t) => {
                let id = ident_of(t);
                assert(bound(b, id));
                assert(plug_one(q, b) == lookup(b, id));
            },
        }
    }
}

/// The code of a quote, run, gives the quote without its markers: with
/// each `let` of an unquoted expression giving its identifier the tree it
/// binds (`vals_of`), and each `let` of a group giving its identifier the
/// trees of that group (`group_values`), the code builds, up to spans and
/// marks, the quote with each unquoted tree in place of its `unquote`.
pub proof fn law_qquoter_rebuilds(s: Seq<SpecTree>, m: nat)
    ensures
        ({
            let r1 = spec_qquote_iter(0, s, m);
            let r2 = spec_convert(r1.1, r1.2);
            let vals = vals_of(r1.0);
            let g = group_values(r1.1, r1.2, vals);
            &&& spec_qquoter(s, m).0 == if (r1.0 + r2.0).len() == 0 {
                r2.1
            } else {
                spec_unravel(r1.0 + r2.0) + r2.1
            }
            &&& forall|j: int|
                0 <= j < r1.0.len() ==> vals.dom().contains(#[trigger] r1.0[j].0) && seq![
                    vals[r1.0[j].0],
                ] == r1.0[j].1
            &&& groups_ok(r2.0, vals, g)
            &&& plain(eval_code(r2.1, vals, g)) == plain(strip(0, s))
        }),
{
    let r1 = spec_qquote_iter(0, s, m);
    let b = r1.0;
    let vals = vals_of(b);
    crate::laws::law_qquote_iter_bindings(0, s, m);
    crate::laws::law_qquote_iter_roundtrip(0, s, m);
    crate::quasi::lemma_qquote_iter_wf(0, s, m);
    lemma_qquote_iter_single(0, s, m);
    assert forall|id: SpecIdent| bound(b, id) implies seq![vals[id]] == #[trigger] lookup(b, id) by {
        lemma_lookup_single(b, id);
        assert(lookup(b, id) =~= seq![lookup(b, id)[0]]);
    }
    assert forall|j: int| 0 <= j < b.len() implies vals.dom().contains(#[trigger] b[j].0) && seq![
        vals[b[j].0],
    ] == b[j].1 by {
        assert(bound(b, b[j].0));
        lemma_lookup_binding(b, j);
        assert(b[j].1 =~= seq![b[j].1[0]]);
    }
    law_convert_rebuilds(r1.1, r1.2, vals);
    lemma_denote_plug(r1.1, b, vals, m, r1.2);
}

} // verus!
