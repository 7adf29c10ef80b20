//! The quote builder: from the intermediate form of a quote to the code
//! that rebuilds it at run time.
use vstd::prelude::*;

use crate::builder::{
    as_ts, str_to_tok_ident, tokens_stream, append_last, build_let, build_method_call, build_mod_call, build_push_vec,
    build_struct_field_assign, concat, emit_token, group_tree, group_tt, ident_tree,
    plain_ident, single, spec_append_last, spec_emit_token, spec_field_assign, spec_let,
    spec_method_call, spec_mod_call, spec_path, spec_push_vec, str_to_ident, streams_view, sym_tree,
    sym_tt, word, word_text, word_tree, word_tt, Sym, Word,
};
use crate::qtt::{
    lemma_qtts_marks_below, lemma_qtts_marks_below_mono, qtt_marks_below, qtts_marks_below,
    qtt_size, bindings_view, lemma_qtts_size_prefix, lemma_qtts_view, qtt_view, qtts_size, qtts_view,
    Bindings, Gensym, SpecBinding, SpecQtt, QTT,
};
use crate::token::{
    inner_of, lemma_trees_view, spec_dummy_sp, text_eq, trees_view, Delim, Ident, SpecIdent,
    SpecToken, SpecTree, Token, TokenStream, TokenTree,
};

verus! {

// ____________________________________________________________________________
// Model

/// Whether an intermediate tree can be turned into code: a tree copied
/// as it is must be a single token, not a group.
pub open spec fn qtt_wf(q: SpecQtt) -> bool
    decreases q, 1nat,
{
    match q {
        SpecQtt::TT(SpecTree::Delimited(_, _, _, _, _)) => false,
        SpecQtt::QDL(_, _, inner, _) => qtts_wf(inner),
        _ => true,
    }
}

pub open spec fn qtts_wf(s: Seq<SpecQtt>) -> bool
    decreases s, 0nat,
{
    if s.len() == 0 {
        true
    } else {
        qtts_wf(s.drop_last()) && qtt_wf(s.last())
    }
}

pub proof fn lemma_qtts_wf(s: Seq<SpecQtt>)
    ensures
        qtts_wf(s) <==> forall|i: int| 0 <= i < s.len() ==> #[trigger] qtt_wf(s[i]),
    decreases s.len(),
{
    if s.len() > 0 {
        lemma_qtts_wf(s.drop_last());
        if qtts_wf(s) {
            assert forall|i: int| 0 <= i < s.len() implies #[trigger] qtt_wf(s[i]) by {
                if i < s.len() - 1 {
                    assert(s.drop_last()[i] == s[i]);
                }
            }
        }
        if forall|i: int| 0 <= i < s.len() ==> #[trigger] qtt_wf(s[i]) {
            assert forall|i: int| 0 <= i < s.drop_last().len() implies #[trigger] qtt_wf(
                s.drop_last()[i],
            ) by {
                assert(s.drop_last()[i] == s[i]);
            }
            assert(qtt_wf(s[s.len() - 1]));
        }
    }
}

/// The path `token :: DelimToken :: K` of a bracket kind.
pub open spec fn delim_path(d: Delim) -> Seq<SpecTree> {
    seq![
        word_tree(Word::TokenMod),
        sym_tree(Sym::ModSep),
        word_tree(Word::DelimToken),
        sym_tree(Sym::ModSep),
        word_tree(
            match d {
                Delim::Paren => Word::Paren,
                Delim::Brace => Word::Brace,
                Delim::Bracket => Word::Bracket,
            },
        ),
    ]
}

/// The code `TokenTree :: Delimited ( DUMMY_SP , Rc :: new ( Delimited {
/// delim : .. , open_span : DUMMY_SP , tts : id , close_span : DUMMY_SP ,
/// } ) )` that builds a group of kind `d` around the trees bound to `id`.
pub open spec fn spec_qdl_code(d: Delim, id: SpecIdent) -> Seq<SpecTree> {
    let fields = spec_field_assign(plain_ident(word_text(Word::Delim)), delim_path(d))
        + spec_field_assign(
        plain_ident(word_text(Word::OpenSpan)),
        seq![word_tree(Word::DummySp)],
    ) + spec_field_assign(plain_ident(word_text(Word::Tts)), seq![ident_tree(id)])
        + spec_field_assign(
        plain_ident(word_text(Word::CloseSpan)),
        seq![word_tree(Word::DummySp)],
    );
    let rc_arg = seq![word_tree(Word::Delimited), group_tree(Delim::Brace, fields)];
    let args = seq![word_tree(Word::DummySp), sym_tree(Sym::Comma)] + spec_mod_call(
        seq![plain_ident(word_text(Word::Rc)), plain_ident(word_text(Word::New))],
        rc_arg,
    );
    spec_mod_call(
        seq![plain_ident(word_text(Word::TokenTree)), plain_ident(word_text(Word::Delimited))],
        args,
    )
}

/// `. to_appendable ( )`
pub open spec fn to_appendable_call() -> Seq<SpecTree> {
    seq![sym_tree(Sym::Dot), word_tree(Word::ToAppendable), group_tree(Delim::Paren, seq![])]
}

/// `let mut output : Vec < TokenTree > = Vec :: new ( ) ; ;`
pub open spec fn output_prelude() -> Seq<SpecTree> {
    seq![
        word_tree(Word::Let),
        word_tree(Word::Mut),
        word_tree(Word::Output),
        sym_tree(Sym::Colon),
        word_tree(Word::Vec),
        sym_tree(Sym::Lt),
        word_tree(Word::TokenTree),
        sym_tree(Sym::Gt),
        sym_tree(Sym::Eq),
        word_tree(Word::Vec),
        sym_tree(Sym::ModSep),
        word_tree(Word::New),
        group_tree(Delim::Paren, seq![]),
        sym_tree(Sym::Semi),
        sym_tree(Sym::Semi),
    ]
}

/// `output . append ( & mut vec ! [ seg ] . to_appendable ( ) ) ;`
pub open spec fn append_stmt(seg: Seq<SpecTree>) -> Seq<SpecTree> {
    spec_method_call(
        plain_ident(word_text(Word::Output)),
        plain_ident(word_text(Word::Append)),
        seq![sym_tree(Sym::And), word_tree(Word::Mut)] + spec_push_vec(seg) + to_appendable_call(),
    ) + seq![sym_tree(Sym::Semi)]
}

/// One append statement for each segment that is not empty, in order.
pub open spec fn append_stmts(p: Seq<Seq<SpecTree>>) -> Seq<SpecTree>
    decreases p.len(),
{
    if p.len() == 0 {
        Seq::empty()
    } else {
        append_stmts(p.drop_last()) + if p.last().len() > 0 {
            append_stmt(p.last())
        } else {
            Seq::empty()
        }
    }
}

/// The code made of the segments: a single segment becomes one
/// `to_appendable` call; otherwise a block collects them all in `output`.
pub open spec fn spec_assemble(p: Seq<Seq<SpecTree>>) -> Seq<SpecTree> {
    if p.len() == 1 {
        (if p[0].len() > 1 {
            spec_push_vec(p[0])
        } else {
            p[0]
        }) + to_appendable_call()
    } else {
        seq![
            group_tree(
                Delim::Brace,
                output_prelude() + append_stmts(p) + seq![word_tree(Word::Output)]
                    + to_appendable_call(),
            ),
        ]
    }
}

/// The bindings, the code segments and the next mark after the first trees
/// of a quote have been read, starting with mark `m`.
pub open spec fn spec_segments(s: Seq<SpecQtt>, m: nat) -> (
    Seq<SpecBinding>,
    Seq<Seq<SpecTree>>,
    nat,
)
    decreases s, 0nat,
{
    if s.len() == 0 {
        (Seq::empty(), Seq::empty(), m)
    } else {
        let (b, p, k) = spec_segments(s.drop_last(), m);
        match s.last() {
            SpecQtt::TT(SpecTree::Token(_, t)) => (
                b,
                spec_append_last(spec_append_last(p, spec_emit_token(t)), seq![sym_tree(Sym::Comma)]),
                k,
            ),
            SpecQtt::TT(_) => (b, p, k),
            SpecQtt::QDL(d, _, inner, _) => {
                let id = SpecIdent { name: word_text(Word::QdlTmp), mark: k };
                let (b2, body, k2) = spec_convert(inner, k + 1);
                (
                    b + b2 + seq![(id, body)],
                    spec_append_last(
                        spec_append_last(p, spec_qdl_code(d, id)),
                        seq![sym_tree(Sym::Comma)],
                    ),
                    k2,
                )
            },
            SpecQtt::QIdent(t) => (b, p.push(seq![t]).push(Seq::empty()), k),
        }
    }
}

/// The bindings, the code and the next mark of the quote `s`, starting
/// with mark `m`.
pub open spec fn spec_convert(s: Seq<SpecQtt>, m: nat) -> (Seq<SpecBinding>, Seq<SpecTree>, nat)
    decreases s, 1nat,
{
    let (b, p, k) = spec_segments(s, m);
    (b, spec_assemble(p), k)
}

/// `let b0 = e0 ; let b1 = e1 ; ...`
pub open spec fn spec_unravel(b: Seq<SpecBinding>) -> Seq<SpecTree>
    decreases b.len(),
{
    if b.len() == 0 {
        Seq::empty()
    } else {
        spec_unravel(b.drop_last()) + spec_let(b.last().0, b.last().1)
    }
}

pub open spec fn spec_is_unquote(id: SpecIdent) -> bool {
    id == plain_ident(word_text(Word::Unquote))
}

pub open spec fn spec_is_quote(id: SpecIdent) -> bool {
    id == plain_ident(word_text(Word::Qquote))
}

/// Reading a quote uses at most one mark per node.
pub proof fn lemma_convert_marks(s: Seq<SpecQtt>, m: nat)
    ensures
        m <= spec_segments(s, m).2 <= m + qtts_size(s),
        m <= spec_convert(s, m).2 <= m + qtts_size(s),
    decreases s, 0nat,
{
    if s.len() > 0 {
        lemma_convert_marks(s.drop_last(), m);
        let (b, p, k) = spec_segments(s.drop_last(), m);
        assert(qtts_size(s) == qtts_size(s.drop_last()) + qtt_size(s.last()));
        match s.last() {
            SpecQtt::QDL(d, _, inner, _) => {
                lemma_convert_marks(inner, k + 1);
                assert(qtt_size(s.last()) == 1 + qtts_size(inner));
            },
            SpecQtt::TT(t) => {},
            SpecQtt::QIdent(t) => {},
        }
    }
    assert(spec_convert(s, m).2 == spec_segments(s, m).2);
}

// ____________________________________________________________________________
// Quote Builder

/// The code that builds the group of kind `d` whose trees are bound to `id`.
fn qdl_code(d: Delim, id: Ident) -> (r: TokenStream)
    ensures
        r@ == spec_qdl_code(d, id@),
{
    let kind = match d {
        Delim::Paren => Word::Paren,
        Delim::Brace => Word::Brace,
        Delim::Bracket => Word::Bracket,
    };
    let sep_v = vec![
        word_tt(Word::TokenMod),
        sym_tt(Sym::ModSep),
        word_tt(Word::DelimToken),
        sym_tt(Sym::ModSep),
        word_tt(kind),
    ];
    proof {
        lemma_trees_view(sep_v@);
        assert(trees_view(sep_v@) =~= delim_path(d));
    }
    let sep = TokenStream { tts: sep_v };
    let ghost idv = id@;
    let delim_field = build_struct_field_assign(str_to_ident(word(Word::Delim)), sep);
    let open_sp_toks = vec![str_to_tok_ident(word(Word::DummySp))];
    let tts_toks = vec![Token::Ident(id)];
    let close_sp_toks = vec![str_to_tok_ident(word(Word::DummySp))];
    proof {
        assert(tokens_stream(open_sp_toks@.map_values(|t: Token| t@)) =~= seq![
            word_tree(Word::DummySp),
        ]);
        assert(tokens_stream(tts_toks@.map_values(|t: Token| t@)) =~= seq![ident_tree(idv)]);
        assert(tokens_stream(close_sp_toks@.map_values(|t: Token| t@)) =~= seq![
            word_tree(Word::DummySp),
        ]);
    }
    let open_sp_field = build_struct_field_assign(
        str_to_ident(word(Word::OpenSpan)),
        as_ts(open_sp_toks),
    );
    let tts_field = build_struct_field_assign(str_to_ident(word(Word::Tts)), as_ts(tts_toks));
    let close_sp_field = build_struct_field_assign(
        str_to_ident(word(Word::CloseSpan)),
        as_ts(close_sp_toks),
    );
    let new_dl = concat(delim_field, concat(open_sp_field, concat(tts_field, close_sp_field)));
    let ghost fields = new_dl@;
    let rc_arg = concat(single(word_tt(Word::Delimited)), single(group_tt(Delim::Brace, new_dl.tts)));
    assert(rc_arg@ =~= seq![word_tree(Word::Delimited), group_tree(Delim::Brace, fields)]);
    let dummy_comma = concat(single(word_tt(Word::DummySp)), single(sym_tt(Sym::Comma)));
    assert(dummy_comma@ =~= seq![word_tree(Word::DummySp), sym_tree(Sym::Comma)]);
    let rc_path = vec![str_to_ident(word(Word::Rc)), str_to_ident(word(Word::New))];
    let args = concat(dummy_comma, build_mod_call(rc_path, rc_arg));
    let tt_path = vec![str_to_ident(word(Word::TokenTree)), str_to_ident(word(Word::Delimited))];
    let r = build_mod_call(tt_path, args);
    proof {
        assert(new_dl@ =~= spec_field_assign(
            plain_ident(word_text(Word::Delim)),
            delim_path(d),
        ) + spec_field_assign(
            plain_ident(word_text(Word::OpenSpan)),
            seq![word_tree(Word::DummySp)],
        ) + spec_field_assign(plain_ident(word_text(Word::Tts)), seq![ident_tree(idv)])
            + spec_field_assign(
            plain_ident(word_text(Word::CloseSpan)),
            seq![word_tree(Word::DummySp)],
        ));
        assert(rc_path@.map_values(|i: Ident| i@) =~= seq![
            plain_ident(word_text(Word::Rc)),
            plain_ident(word_text(Word::New)),
        ]);
        assert(tt_path@.map_values(|i: Ident| i@) =~= seq![
            plain_ident(word_text(Word::TokenTree)),
            plain_ident(word_text(Word::Delimited)),
        ]);
    }
    r
}

/// `. to_appendable ( )`
fn to_appendable_ts() -> (r: TokenStream)
    ensures
        r@ == to_appendable_call(),
{
    let v = vec![
        sym_tt(Sym::Dot),
        word_tt(Word::ToAppendable),
        group_tt(Delim::Paren, Vec::new()),
    ];
    proof {
        lemma_trees_view(v@);
        lemma_trees_view(Seq::<TokenTree>::empty());
        assert(trees_view(v@) =~= to_appendable_call());
    }
    TokenStream { tts: v }
}

/// `let mut output : Vec < TokenTree > = Vec :: new ( ) ; ;`
fn output_prelude_ts() -> (r: TokenStream)
    ensures
        r@ == output_prelude(),
{
    let v = vec![
        word_tt(Word::Let),
        word_tt(Word::Mut),
        word_tt(Word::Output),
        sym_tt(Sym::Colon),
        word_tt(Word::Vec),
        sym_tt(Sym::Lt),
        word_tt(Word::TokenTree),
        sym_tt(Sym::Gt),
        sym_tt(Sym::Eq),
        word_tt(Word::Vec),
        sym_tt(Sym::ModSep),
        word_tt(Word::New),
        group_tt(Delim::Paren, Vec::new()),
        sym_tt(Sym::Semi),
        sym_tt(Sym::Semi),
    ];
    proof {
        lemma_trees_view(v@);
        lemma_trees_view(Seq::<TokenTree>::empty());
        assert(trees_view(v@) =~= output_prelude());
    }
    TokenStream { tts: v }
}

/// The code made of the segments (see `spec_assemble`).
fn assemble(pushes: Vec<TokenStream>) -> (r: TokenStream)
    ensures
        r@ == spec_assemble(streams_view(pushes@)),
{
    let ghost p = streams_view(pushes@);
    let mut pushes = pushes;
    if pushes.len() == 1 {
        let mut res = pushes.pop().unwrap();
        if res.len() > 1 {
            res = build_push_vec(res);
        }
        concat(res, to_appendable_ts())
    } else {
        let output_id = str_to_ident(word(Word::Output));
        let append_id = str_to_ident(word(Word::Append));
        let mut output = output_prelude_ts();
        let n = pushes.len();
        let mut rest = crate::util::into_reversed(pushes);
        let ghost raw = rest@.reverse();
        assert(raw =~= pushes@);
        let mut i: usize = 0;
        while rest.len() > 0
            invariant
                raw =~= pushes@,
                p == streams_view(raw),
                n == raw.len(),
                i + rest@.len() == raw.len(),
                rest@ == raw.skip(i as int).reverse(),
                output@ == output_prelude() + append_stmts(p.take(i as int)),
                output_id@ == plain_ident(word_text(Word::Output)),
                append_id@ == plain_ident(word_text(Word::Append)),
            decreases rest@.len(),
        {
            let ghost before = rest@;
            let ts = rest.pop().unwrap();
            assert(ts == raw[i as int]) by {
                assert(before.last() == raw.skip(i as int).reverse().last());
            }
            let ghost prev = output@;
            let ghost seg = ts@;
            assert(p[i as int] == seg);
            if ts.len() > 0 {
                let amp_mut = concat(single(sym_tt(Sym::And)), single(word_tt(Word::Mut)));
                assert(amp_mut@ =~= seq![sym_tree(Sym::And), word_tree(Word::Mut)]);
                let args = concat(concat(amp_mut, build_push_vec(ts)), to_appendable_ts());
                let push_vec = build_method_call(output_id.copy(), append_id.copy(), args);
                output = concat(output, push_vec);
                output = concat(output, single(sym_tt(Sym::Semi)));
                assert(output@ =~= prev + append_stmt(seg));
            }
            assert(rest@ =~= raw.skip(i + 1).reverse());
            i = i + 1;
            assert(p.take(i as int).drop_last() =~= p.take(i - 1));
            assert(output@ =~= output_prelude() + append_stmts(p.take(i as int)));
        }
        assert(p.take(i as int) =~= p);
        let tail = concat(
            single(TokenTree::Token(crate::token::dummy_sp(), Token::Ident(output_id))),
            to_appendable_ts(),
        );
        assert(tail@ =~= seq![word_tree(Word::Output)] + to_appendable_call());
        output = concat(output, tail);
        assert(output@ =~= output_prelude() + append_stmts(p) + seq![word_tree(Word::Output)]
            + to_appendable_call());
        let r = crate::builder::build_brace_delim(output);
        assert(p.len() != 1);
        assert(r@ =~= spec_assemble(p));
        r
    }
}

/// Turns the intermediate form of a quote into the code that rebuilds it.
/// Each group becomes a fresh `qdl_tmp` identifier bound to the code of
/// its contents; the result is those bindings, innermost first, and the
/// code of the trees at the top. `gen` hands out the fresh marks.
pub fn convert_complex_tts(gen: &mut Gensym, tts: Vec<QTT>) -> (r: (Bindings, TokenStream))
    requires
        qtts_wf(qtts_view(tts@)),
        1 <= old(gen).next,
        qtts_marks_below(qtts_view(tts@), old(gen).next as nat),
        old(gen).next + qtts_size(qtts_view(tts@)) <= u64::MAX,
    ensures
        (bindings_view(r.0@), r.1@, final(gen).next as nat) == spec_convert(
            qtts_view(tts@),
            old(gen).next as nat,
        ),
    decreases qtts_size(qtts_view(tts@)),
{
    let ghost s = qtts_view(tts@);
    let ghost m0 = gen.next as nat;
    let mut pushes: Vec<TokenStream> = Vec::new();
    let mut bindings: Bindings = Vec::new();
    let n = tts.len();
    proof {
        lemma_qtts_view(tts@);
        lemma_qtts_wf(s);
        lemma_qtts_size_prefix(s, s.len() as int);
    }
    let mut rest = crate::util::into_reversed(tts);
    let ghost raw = rest@.reverse();
    assert(raw =~= tts@);
    let mut i: usize = 0;
    while rest.len() > 0
        invariant
            raw =~= tts@,
            s == qtts_view(raw),
            s.len() == raw.len(),
            forall|j: int| 0 <= j < raw.len() ==> #[trigger] s[j] == qtt_view(raw[j]),
            forall|j: int| 0 <= j < s.len() ==> #[trigger] qtt_wf(s[j]),
            n == raw.len(),
            i + rest@.len() == raw.len(),
            rest@ == raw.skip(i as int).reverse(),
            m0 + qtts_size(s) <= u64::MAX,
            1 <= m0,
            qtts_marks_below(s, m0),
            (bindings_view(bindings@), streams_view(pushes@), gen.next as nat) == spec_segments(
                s.take(i as int),
                m0,
            ),
        decreases rest@.len(),
    {
        let ghost before = rest@;
        let next = rest.pop().unwrap();
        assert(next == raw[i as int]) by {
            assert(before.last() == raw.skip(i as int).reverse().last());
        }
        let ghost q = s[i as int];
        let ghost nq = qtt_view(next);
        assert(nq == q);
        assert(qtt_wf(q));
        let ghost p0 = streams_view(pushes@);
        proof {
            assert(s.take(i + 1).drop_last() =~= s.take(i as int));
            assert(s.take(i + 1).last() == q);
            lemma_convert_marks(s.take(i as int), m0);
            lemma_qtts_size_prefix(s, i + 1);
        }
        match next {
            QTT::TT(TokenTree::Token(_, t)) => {
                let token_out = emit_token(t);
                append_last(&mut pushes, token_out);
                append_last(&mut pushes, single(sym_tt(Sym::Comma)));
            },
            QTT::QDL(qdl) => {
                proof {
                    assert(nq == SpecQtt::QDL(
                        qdl.delim,
                        qdl.open_span,
                        qtts_view(qdl.tts@),
                        qdl.close_span,
                    ));
                    assert(qtt_size(nq) == 1 + qtts_size(qtts_view(qdl.tts@)));
                    lemma_qtts_marks_below(s, m0);
                    assert(qtt_marks_below(nq, m0));
                    assert(qtts_size(s.take(i + 1)) == qtts_size(s.take(i as int)) + qtt_size(
                        s.take(i + 1).last(),
                    ));
                }
                let new_id = gen.fresh(word(Word::QdlTmp));
                proof {
                    lemma_qtts_marks_below_mono(qtts_view(qdl.tts@), m0, gen.next as nat);
                }
                let (mut rec_bindings, rec_body) = convert_complex_tts(gen, qdl.tts);
                let ghost rb = rec_bindings@;
                let ghost bb = bindings@;
                bindings.append(&mut rec_bindings);
                let entry = (new_id.copy(), rec_body);
                bindings.push(entry);
                proof {
                    assert(bindings_view(bindings@) =~= bindings_view(bb) + bindings_view(rb)
                        + seq![(entry.0@, entry.1@)]);
                }
                append_last(&mut pushes, qdl_code(qdl.delim, new_id));
                append_last(&mut pushes, single(sym_tt(Sym::Comma)));
            },
            QTT::QIdent(t) => {
                let seg = single(t);
                pushes.push(seg);
                pushes.push(TokenStream::mk_empty());
                proof {
                    assert(streams_view(pushes@) =~= p0.push(seq![q->QIdent_0]).push(
                        Seq::empty(),
                    ));
                }
            },
            QTT::TT(TokenTree::Delimited(_, _)) => {
                assert(nq matches SpecQtt::TT(SpecTree::Delimited(_, _, _, _, _)));
                assert(false);
            },
        }
        assert(rest@ =~= raw.skip(i + 1).reverse());
        i = i + 1;
    }
    assert(s.take(i as int) =~= s);
    let body = assemble(pushes);
    (bindings, body)
}

// ____________________________________________________________________________
// Utilities

/// The statements `let b0 = e0 ; let b1 = e1 ; ...` of the bindings, in
/// order.
pub fn unravel(binds: Bindings) -> (r: TokenStream)
    ensures
        r@ == spec_unravel(bindings_view(binds@)),
{
    let ghost bv = bindings_view(binds@);
    let n = binds.len();
    let mut rest = crate::util::into_reversed(binds);
    let ghost raw = rest@.reverse();
    assert(raw =~= binds@);
    let mut output = TokenStream::mk_empty();
    let mut i: usize = 0;
    while rest.len() > 0
        invariant
            raw =~= binds@,
            bv == bindings_view(raw),
            n == raw.len(),
            i + rest@.len() == raw.len(),
            rest@ == raw.skip(i as int).reverse(),
            output@ == spec_unravel(bv.take(i as int)),
        decreases rest@.len(),
    {
        let ghost before = rest@;
        let b = rest.pop().unwrap();
        assert(b == raw[i as int]) by {
            assert(before.last() == raw.skip(i as int).reverse().last());
        }
        output = concat(output, build_let(b.0, b.1));
        assert(rest@ =~= raw.skip(i + 1).reverse());
        i = i + 1;
        assert(bv.take(i as int).drop_last() =~= bv.take(i - 1));
    }
    assert(bv.take(i as int) =~= bv);
    output
}

/// Whether `id` is the reserved `unquote`: its text, as written in source.
pub fn is_unquote(id: Ident) -> (r: bool)
    ensures
        r == spec_is_unquote(id@),
{
    id.mark == 0 && text_eq(&id.name, &word(Word::Unquote))
}

/// Whether `id` is the reserved `qquote`: its text, as written in source.
pub fn is_quote(id: Ident) -> (r: bool)
    ensures
        r == spec_is_quote(id@),
{
    id.mark == 0 && text_eq(&id.name, &word(Word::Qquote))
}

// ____________________________________________________________________________
// Laws

/// The name that Rust's `token::DelimToken` gives a kind of group.
pub open spec fn kind_name(d: Delim) -> Seq<char> {
    match d {
        Delim::Paren => "Paren"@,
        Delim::Brace => "Brace"@,
        Delim::Bracket => "Bracket"@,
    }
}

/// The identifier tree of the text `t`.
pub open spec fn name_tree(t: Seq<char>) -> SpecTree {
    ident_tree(plain_ident(t))
}

/// The punctuation tree of the text `t`.
pub open spec fn mark_tree(t: Seq<char>) -> SpecTree {
    SpecTree::Token(spec_dummy_sp(), SpecToken::Punct(t))
}

/// The field initializers inside the code of a group:
/// `TokenTree :: Delimited ( DUMMY_SP , Rc :: new ( Delimited { .. } ) )`.
pub open spec fn group_code_fields(code: Seq<SpecTree>) -> Seq<SpecTree> {
    inner_of(inner_of(inner_of(code[3])[5])[1])
}

/// The code that rebuilds a group of kind `d` is
/// `TokenTree :: Delimited ( DUMMY_SP , Rc :: new ( Delimited { delim :
/// token :: DelimToken :: K , .. } ) )`, where `K` is `Paren`, `Brace` or
/// `Bracket` as `d` is, so the expansion rebuilds a group of the kind that
/// was quoted.
pub proof fn law_group_code_names_its_kind(d: Delim, id: SpecIdent)
    ensures
        spec_qdl_code(d, id).len() == 4,
        spec_qdl_code(d, id).subrange(0, 3) == seq![
            name_tree("TokenTree"@),
            mark_tree("::"@),
            name_tree("Delimited"@),
        ],
        spec_qdl_code(d, id)[3] is Delimited,
        inner_of(spec_qdl_code(d, id)[3]).len() == 6,
        inner_of(spec_qdl_code(d, id)[3]).subrange(0, 5) == seq![
            name_tree("DUMMY_SP"@),
            mark_tree(","@),
            name_tree("Rc"@),
            mark_tree("::"@),
            name_tree("new"@),
        ],
        inner_of(inner_of(spec_qdl_code(d, id)[3])[5]).len() == 2,
        inner_of(inner_of(spec_qdl_code(d, id)[3])[5])[0] == name_tree("Delimited"@),
        group_code_fields(spec_qdl_code(d, id)).subrange(0, 8) == seq![
            name_tree("delim"@),
            mark_tree(":"@),
            name_tree("token"@),
            mark_tree("::"@),
            name_tree("DelimToken"@),
            mark_tree("::"@),
            name_tree(kind_name(d)),
            mark_tree(","@),
        ],
{
    reveal_with_fuel(spec_path, 3);
    crate::builder::law_word_spelling();
    crate::builder::law_sym_spelling();
    reveal_strlit("Paren");
    reveal_strlit("Brace");
    reveal_strlit("Bracket");
    let path2 = seq![plain_ident(word_text(Word::TokenTree)), plain_ident(word_text(Word::Delimited))];
    assert(spec_path(path2) =~= seq![
        word_tree(Word::TokenTree),
        sym_tree(Sym::ModSep),
        word_tree(Word::Delimited),
    ]);
    let rc2 = seq![plain_ident(word_text(Word::Rc)), plain_ident(word_text(Word::New))];
    assert(spec_path(rc2) =~= seq![
        word_tree(Word::Rc),
        sym_tree(Sym::ModSep),
        word_tree(Word::New),
    ]);
    let code = spec_qdl_code(d, id);
    assert(code.subrange(0, 3) =~= seq![
        name_tree("TokenTree"@),
        mark_tree("::"@),
        name_tree("Delimited"@),
    ]);
    let args = inner_of(code[3]);
    assert(args.subrange(0, 5) =~= seq![
        name_tree("DUMMY_SP"@),
        mark_tree(","@),
        name_tree("Rc"@),
        mark_tree("::"@),
        name_tree("new"@),
    ]);
    let fields = group_code_fields(code);
    assert(fields.subrange(0, 8) =~= seq![
        name_tree("delim"@),
        mark_tree(":"@),
        name_tree("token"@),
        mark_tree("::"@),
        name_tree("DelimToken"@),
        mark_tree("::"@),
        name_tree(kind_name(d)),
        mark_tree(","@),
    ]);
}

} // verus!
