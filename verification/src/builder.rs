//! Builders for the token streams of the code that a quote turns into.
use vstd::prelude::*;

use crate::token::{dummy_sp, lemma_trees_view, lemma_trees_view_push, spec_dummy_sp, text_eq, trees_view, Delim, Delimited, Ident, SpecIdent, SpecToken, SpecTree, Token, TokenStream, TokenTree};

verus! {

// ____________________________________________________________________________
// Vocabulary of the generated code

/// The identifiers and keywords that generated code is made of.
#[derive(Clone, Copy, PartialEq, Eq, Structural, Debug)]
pub enum Word {
    Let,
    Mut,
    Output,
    Vec,
    TokenTree,
    Token,
    Ident,
    Literal,
    Punct,
    StrToIdent,
    DummySp,
    Rc,
    New,
    Delimited,
    Delim,
    OpenSpan,
    Tts,
    CloseSpan,
    TokenMod,
    DelimToken,
    Paren,
    Brace,
    Bracket,
    ToAppendable,
    Append,
    VecMacro,
    Tmp,
    QdlTmp,
    Unquote,
    Qquote,
    Else,
    If,
    Cond,
}

/// The punctuation that generated code is made of.
#[derive(Clone, Copy, PartialEq, Eq, Structural, Debug)]
pub enum Sym {
    Comma,
    Semi,
    Colon,
    ModSep,
    Dot,
    Eq,
    Not,
    And,
    Lt,
    Gt,
    Plus,
    Star,
}

pub open spec fn word_text(w: Word) -> Seq<char> {
    match w {
        Word::Let => seq!['l', 'e', 't'],
        Word::Mut => seq!['m', 'u', 't'],
        Word::Output => seq!['o', 'u', 't', 'p', 'u', 't'],
        Word::Vec => seq!['V', 'e', 'c'],
        Word::TokenTree => seq!['T', 'o', 'k', 'e', 'n', 'T', 'r', 'e', 'e'],
        Word::Token => seq!['T', 'o', 'k', 'e', 'n'],
        Word::Ident => seq!['I', 'd', 'e', 'n', 't'],
        Word::Literal => seq!['L', 'i', 't', 'e', 'r', 'a', 'l'],
        Word::Punct => seq!['P', 'u', 'n', 'c', 't'],
        Word::StrToIdent => seq!['s', 't', 'r', '_', 't', 'o', '_', 'i', 'd', 'e', 'n', 't'],
        Word::DummySp => seq!['D', 'U', 'M', 'M', 'Y', '_', 'S', 'P'],
        Word::Rc => seq!['R', 'c'],
        Word::New => seq!['n', 'e', 'w'],
        Word::Delimited => seq!['D', 'e', 'l', 'i', 'm', 'i', 't', 'e', 'd'],
        Word::Delim => seq!['d', 'e', 'l', 'i', 'm'],
        Word::OpenSpan => seq!['o', 'p', 'e', 'n', '_', 's', 'p', 'a', 'n'],
        Word::Tts => seq!['t', 't', 's'],
        Word::CloseSpan => seq!['c', 'l', 'o', 's', 'e', '_', 's', 'p', 'a', 'n'],
        Word::TokenMod => seq!['t', 'o', 'k', 'e', 'n'],
        Word::DelimToken => seq!['D', 'e', 'l', 'i', 'm', 'T', 'o', 'k', 'e', 'n'],
        Word::Paren => seq!['P', 'a', 'r', 'e', 'n'],
        Word::Brace => seq!['B', 'r', 'a', 'c', 'e'],
        Word::Bracket => seq!['B', 'r', 'a', 'c', 'k', 'e', 't'],
        Word::ToAppendable => seq![
            't', 'o', '_', 'a', 'p', 'p', 'e', 'n', 'd', 'a', 'b', 'l', 'e',
        ],
        Word::Append => seq!['a', 'p', 'p', 'e', 'n', 'd'],
        Word::VecMacro => seq!['v', 'e', 'c'],
        Word::Tmp => seq!['t', 'm', 'p'],
        Word::QdlTmp => seq!['q', 'd', 'l', '_', 't', 'm', 'p'],
        Word::Unquote => seq!['u', 'n', 'q', 'u', 'o', 't', 'e'],
        Word::Qquote => seq!['q', 'q', 'u', 'o', 't', 'e'],
        Word::Else => seq!['e', 'l', 's', 'e'],
        Word::If => seq!['i', 'f'],
        Word::Cond => seq!['c', 'o', 'n', 'd'],
    }
}

pub open spec fn sym_text(p: Sym) -> Seq<char> {
    match p {
        Sym::Comma => seq![','],
        Sym::Semi => seq![';'],
        Sym::Colon => seq![':'],
        Sym::ModSep => seq![':', ':'],
        Sym::Dot => seq!['.'],
        Sym::Eq => seq!['='],
        Sym::Not => seq!['!'],
        Sym::And => seq!['&'],
        Sym::Lt => seq!['<'],
        Sym::Gt => seq!['>'],
        Sym::Plus => seq!['+'],
        Sym::Star => seq!['*'],
    }
}

/// The text of a word.
pub fn word(w: Word) -> (r: Vec<char>)
    ensures
        r@ == word_text(w),
{
    match w {
        Word::Let => vec!['l', 'e', 't'],
        Word::Mut => vec!['m', 'u', 't'],
        Word::Output => vec!['o', 'u', 't', 'p', 'u', 't'],
        Word::Vec => vec!['V', 'e', 'c'],
        Word::TokenTree => vec!['T', 'o', 'k', 'e', 'n', 'T', 'r', 'e', 'e'],
        Word::Token => vec!['T', 'o', 'k', 'e', 'n'],
        Word::Ident => vec!['I', 'd', 'e', 'n', 't'],
        Word::Literal => vec!['L', 'i', 't', 'e', 'r', 'a', 'l'],
        Word::Punct => vec!['P', 'u', 'n', 'c', 't'],
        Word::StrToIdent => vec!['s', 't', 'r', '_', 't', 'o', '_', 'i', 'd', 'e', 'n', 't'],
        Word::DummySp => vec!['D', 'U', 'M', 'M', 'Y', '_', 'S', 'P'],
        Word::Rc => vec!['R', 'c'],
        Word::New => vec!['n', 'e', 'w'],
        Word::Delimited => vec!['D', 'e', 'l', 'i', 'm', 'i', 't', 'e', 'd'],
        Word::Delim => vec!['d', 'e', 'l', 'i', 'm'],
        Word::OpenSpan => vec!['o', 'p', 'e', 'n', '_', 's', 'p', 'a', 'n'],
        Word::Tts => vec!['t', 't', 's'],
        Word::CloseSpan => vec!['c', 'l', 'o', 's', 'e', '_', 's', 'p', 'a', 'n'],
        Word::TokenMod => vec!['t', 'o', 'k', 'e', 'n'],
        Word::DelimToken => vec!['D', 'e', 'l', 'i', 'm', 'T', 'o', 'k', 'e', 'n'],
        Word::Paren => vec!['P', 'a', 'r', 'e', 'n'],
        Word::Brace => vec!['B', 'r', 'a', 'c', 'e'],
        Word::Bracket => vec!['B', 'r', 'a', 'c', 'k', 'e', 't'],
        Word::ToAppendable => vec![
            't', 'o', '_', 'a', 'p', 'p', 'e', 'n', 'd', 'a', 'b', 'l', 'e',
        ],
        Word::Append => vec!['a', 'p', 'p', 'e', 'n', 'd'],
        Word::VecMacro => vec!['v', 'e', 'c'],
        Word::Tmp => vec!['t', 'm', 'p'],
        Word::QdlTmp => vec!['q', 'd', 'l', '_', 't', 'm', 'p'],
        Word::Unquote => vec!['u', 'n', 'q', 'u', 'o', 't', 'e'],
        Word::Qquote => vec!['q', 'q', 'u', 'o', 't', 'e'],
        Word::Else => vec!['e', 'l', 's', 'e'],
        Word::If => vec!['i', 'f'],
        Word::Cond => vec!['c', 'o', 'n', 'd'],
    }
}

/// The text of a piece of punctuation.
pub fn sym(p: Sym) -> (r: Vec<char>)
    ensures
        r@ == sym_text(p),
{
    match p {
        Sym::Comma => vec![','],
        Sym::Semi => vec![';'],
        Sym::Colon => vec![':'],
        Sym::ModSep => vec![':', ':'],
        Sym::Dot => vec!['.'],
        Sym::Eq => vec!['='],
        Sym::Not => vec!['!'],
        Sym::And => vec!['&'],
        Sym::Lt => vec!['<'],
        Sym::Gt => vec!['>'],
        Sym::Plus => vec!['+'],
        Sym::Star => vec!['*'],
    }
}

// ____________________________________________________________________________
// Model of single trees

/// A plain identifier: mark 0, as written in source.
pub open spec fn plain_ident(name: Seq<char>) -> SpecIdent {
    SpecIdent { name, mark: 0 }
}

pub open spec fn ident_tree(id: SpecIdent) -> SpecTree {
    SpecTree::Token(spec_dummy_sp(), SpecToken::Ident(id))
}

pub open spec fn word_tree(w: Word) -> SpecTree {
    ident_tree(plain_ident(word_text(w)))
}

pub open spec fn sym_tree(p: Sym) -> SpecTree {
    SpecTree::Token(spec_dummy_sp(), SpecToken::Punct(sym_text(p)))
}

pub open spec fn lit_tree(text: Seq<char>) -> SpecTree {
    SpecTree::Token(spec_dummy_sp(), SpecToken::Literal(text))
}

pub open spec fn group_tree(d: Delim, inner: Seq<SpecTree>) -> SpecTree {
    SpecTree::Delimited(spec_dummy_sp(), d, spec_dummy_sp(), inner, spec_dummy_sp())
}

/// The identifier token tree of a word.
pub fn word_tt(w: Word) -> (r: TokenTree)
    ensures
        r@ == word_tree(w),
{
    TokenTree::Token(dummy_sp(), Token::Ident(Ident { name: word(w), mark: 0 }))
}

/// The punctuation token tree of a symbol.
pub fn sym_tt(p: Sym) -> (r: TokenTree)
    ensures
        r@ == sym_tree(p),
{
    TokenTree::Token(dummy_sp(), Token::Punct(sym(p)))
}

/// A bracketed group around the given trees.
pub fn group_tt(d: Delim, inner: Vec<TokenTree>) -> (r: TokenTree)
    ensures
        r@ == group_tree(d, trees_view(inner@)),
{
    TokenTree::Delimited(
        dummy_sp(),
        Delimited { delim: d, open_span: dummy_sp(), tts: inner, close_span: dummy_sp() },
    )
}

// ____________________________________________________________________________
// Streams

/// The token tree of a single token.
pub fn as_tt(t: Token) -> (r: TokenTree)
    ensures
        r@ == SpecTree::Token(spec_dummy_sp(), t@),
{
    TokenTree::Token(dummy_sp(), t)
}

pub open spec fn tokens_stream(s: Seq<SpecToken>) -> Seq<SpecTree> {
    s.map_values(|t: SpecToken| SpecTree::Token(spec_dummy_sp(), t))
}

/// The stream of the given tokens, each a tree of its own.
pub fn as_ts(toks: Vec<Token>) -> (r: TokenStream)
    ensures
        r@ == tokens_stream(toks@.map_values(|t: Token| t@)),
{
    let ghost orig = toks@.map_values(|t: Token| t@);
    let n = toks.len();
    let mut rest = crate::util::into_reversed(toks);
    let ghost raw = rest@.reverse();
    assert(raw =~= toks@);
    let mut tts: Vec<TokenTree> = Vec::new();
    let mut i: usize = 0;
    while rest.len() > 0
        invariant
            raw =~= toks@,
            orig == toks@.map_values(|t: Token| t@),
            n == raw.len(),
            i + rest@.len() == raw.len(),
            rest@ == raw.skip(i as int).reverse(),
            trees_view(tts@) == tokens_stream(orig.take(i as int)),
        decreases rest@.len(),
    {
        let ghost before = rest@;
        let t = rest.pop().unwrap();
        assert(t == raw[i as int]) by {
            assert(before.last() == raw.skip(i as int).reverse().last());
        }
        let tt = TokenTree::Token(dummy_sp(), t);
        proof {
            lemma_trees_view_push(tts@, tt);
        }
        tts.push(tt);
        assert(rest@ =~= raw.skip(i + 1).reverse());
        i = i + 1;
        assert(tokens_stream(orig.take(i as int)) =~= tokens_stream(orig.take(i - 1)).push(
            SpecTree::Token(spec_dummy_sp(), orig[i - 1]),
        ));
    }
    assert(orig.take(i as int) =~= orig);
    TokenStream { tts }
}

/// A plain identifier with the given text.
pub fn str_to_ident(name: Vec<char>) -> (r: Ident)
    ensures
        r@ == plain_ident(name@),
{
    Ident { name, mark: 0 }
}

/// The identifier token of a plain identifier with the given text.
pub fn str_to_tok_ident(name: Vec<char>) -> (r: Token)
    ensures
        r@ == SpecToken::Ident(plain_ident(name@)),
{
    Token::Ident(str_to_ident(name))
}

/// The trees of `a` followed by those of `b`.
pub fn concat(a: TokenStream, b: TokenStream) -> (r: TokenStream)
    ensures
        r@ == a@ + b@,
{
    TokenStream::concat(a, b)
}

/// The stream of one tree.
pub fn single(t: TokenTree) -> (r: TokenStream)
    ensures
        r@ == seq![t@],
{
    let r = TokenStream { tts: vec![t] };
    proof {
        lemma_trees_view(r.tts@);
        assert(r@ =~= seq![t@]);
    }
    r
}

/// `ts` between braces, as a stream of one group.
pub fn build_brace_delim(ts: TokenStream) -> (r: TokenStream)
    ensures
        r@ == seq![group_tree(Delim::Brace, ts@)],
{
    single(group_tt(Delim::Brace, ts.tts))
}

/// `ts` between parentheses, as a stream of one group.
pub fn build_paren_delim(ts: TokenStream) -> (r: TokenStream)
    ensures
        r@ == seq![group_tree(Delim::Paren, ts@)],
{
    single(group_tt(Delim::Paren, ts.tts))
}

pub open spec fn spec_field_assign(field: SpecIdent, val: Seq<SpecTree>) -> Seq<SpecTree> {
    seq![ident_tree(field), sym_tree(Sym::Colon)] + val + seq![sym_tree(Sym::Comma)]
}

/// The field initializer `field : val ,`.
pub fn build_struct_field_assign(field: Ident, val: TokenStream) -> (r: TokenStream)
    ensures
        r@ == spec_field_assign(field@, val@),
{
    let ghost fv = field@;
    let a = single(TokenTree::Token(dummy_sp(), Token::Ident(field)));
    let b = single(sym_tt(Sym::Colon));
    let tail = single(sym_tt(Sym::Comma));
    let r = concat(concat(concat(a, b), val), tail);
    assert(r@ =~= spec_field_assign(fv, val@));
    r
}

pub open spec fn spec_path(path: Seq<SpecIdent>) -> Seq<SpecTree>
    decreases path.len(),
{
    if path.len() == 0 {
        Seq::empty()
    } else if path.len() == 1 {
        seq![ident_tree(path[0])]
    } else {
        spec_path(path.drop_last()) + seq![sym_tree(Sym::ModSep), ident_tree(path.last())]
    }
}

pub open spec fn spec_mod_call(path: Seq<SpecIdent>, args: Seq<SpecTree>) -> Seq<SpecTree> {
    spec_path(path) + seq![group_tree(Delim::Paren, args)]
}

/// The call `p0 :: p1 :: ... ( args )` of the function at `path`.
pub fn build_mod_call(path: Vec<Ident>, args: TokenStream) -> (r: TokenStream)
    ensures
        r@ == spec_mod_call(path@.map_values(|i: Ident| i@), args@),
{
    let ghost ids = path@.map_values(|i: Ident| i@);
    let n = path.len();
    let mut rest = crate::util::into_reversed(path);
    let ghost raw = rest@.reverse();
    assert(raw =~= path@);
    let mut out = TokenStream::mk_empty();
    let mut i: usize = 0;
    while rest.len() > 0
        invariant
            raw =~= path@,
            ids == path@.map_values(|i: Ident| i@),
            n == raw.len(),
            i + rest@.len() == raw.len(),
            rest@ == raw.skip(i as int).reverse(),
            out@ == spec_path(ids.take(i as int)),
        decreases rest@.len(),
    {
        let ghost before = rest@;
        let id = rest.pop().unwrap();
        assert(id == raw[i as int]) by {
            assert(before.last() == raw.skip(i as int).reverse().last());
        }
        let t = TokenTree::Token(dummy_sp(), Token::Ident(id));
        if i == 0 {
            out = single(t);
        } else {
            let sep = single(sym_tt(Sym::ModSep));
            out = concat(concat(out, sep), single(t));
        }
        assert(rest@ =~= raw.skip(i + 1).reverse());
        i = i + 1;
        assert(ids.take(i as int).drop_last() =~= ids.take(i - 1));
        assert(out@ =~= spec_path(ids.take(i as int)));
    }
    assert(ids.take(i as int) =~= ids);
    concat(out, single(group_tt(Delim::Paren, args.tts)))
}

pub open spec fn spec_method_call(
    obj: SpecIdent,
    method: SpecIdent,
    args: Seq<SpecTree>,
) -> Seq<SpecTree> {
    seq![
        ident_tree(obj),
        sym_tree(Sym::Dot),
        ident_tree(method),
        group_tree(Delim::Paren, args),
    ]
}

/// The method call `obj . method ( args )`.
pub fn build_method_call(obj: Ident, method: Ident, args: TokenStream) -> (r: TokenStream)
    ensures
        r@ == spec_method_call(obj@, method@, args@),
{
    let a = single(TokenTree::Token(dummy_sp(), Token::Ident(obj)));
    let b = single(sym_tt(Sym::Dot));
    let c = single(TokenTree::Token(dummy_sp(), Token::Ident(method)));
    let d = single(group_tt(Delim::Paren, args.tts));
    let r = concat(concat(concat(a, b), c), d);
    assert(r@ =~= spec_method_call(obj@, method@, args@));
    r
}

pub open spec fn spec_push_vec(ts: Seq<SpecTree>) -> Seq<SpecTree> {
    seq![word_tree(Word::VecMacro), sym_tree(Sym::Not), group_tree(Delim::Bracket, ts)]
}

/// The vector literal `vec ! [ ts ]`.
pub fn build_push_vec(ts: TokenStream) -> (r: TokenStream)
    ensures
        r@ == spec_push_vec(ts@),
{
    let a = single(word_tt(Word::VecMacro));
    let b = single(sym_tt(Sym::Not));
    let c = single(group_tt(Delim::Bracket, ts.tts));
    let r = concat(concat(a, b), c);
    assert(r@ =~= spec_push_vec(ts@));
    r
}

pub open spec fn spec_let(id: SpecIdent, val: Seq<SpecTree>) -> Seq<SpecTree> {
    seq![word_tree(Word::Let), ident_tree(id), sym_tree(Sym::Eq)] + val + seq![
        sym_tree(Sym::Semi),
    ]
}

/// The statement `let id = val ;`.
pub fn build_let(id: Ident, val: TokenStream) -> (r: TokenStream)
    ensures
        r@ == spec_let(id@, val@),
{
    let a = single(word_tt(Word::Let));
    let b = single(TokenTree::Token(dummy_sp(), Token::Ident(id)));
    let c = single(sym_tt(Sym::Eq));
    let d = single(sym_tt(Sym::Semi));
    let r = concat(concat(concat(concat(a, b), c), val), d);
    assert(r@ =~= spec_let(id@, val@));
    r
}

pub open spec fn spec_ident_eq(t: SpecTree, id: SpecIdent) -> bool {
    t matches SpecTree::Token(_, SpecToken::Ident(i)) && i == id
}

/// Whether `tt` is the identifier `id`: the same text and the same mark.
pub fn ident_eq(tt: &TokenTree, id: Ident) -> (r: bool)
    ensures
        r == spec_ident_eq(tt@, id@),
{
    match tt {
        TokenTree::Token(_, Token::Ident(i)) => i.mark == id.mark && text_eq(&i.name, &id.name),
        _ => false,
    }
}

// ____________________________________________________________________________
// Emitting tokens

pub open spec fn escape_char(c: char) -> Seq<char> {
    if c == '"' || c == '\\' {
        seq!['\\', c]
    } else {
        seq![c]
    }
}

/// The body of a string literal whose value is `s`: each quote and
/// backslash gets a backslash before it.
pub open spec fn escaped(s: Seq<char>) -> Seq<char>
    decreases s.len(),
{
    if s.len() == 0 {
        Seq::empty()
    } else {
        escaped(s.drop_last()) + escape_char(s.last())
    }
}

/// The source text of a string literal whose value is `s`.
pub open spec fn str_lit(s: Seq<char>) -> Seq<char> {
    seq!['"'] + escaped(s) + seq!['"']
}

/// The text of a string literal whose value is `s`.
pub fn string_literal(s: &Vec<char>) -> (r: Vec<char>)
    ensures
        r@ == str_lit(s@),
{
    let mut r: Vec<char> = vec!['"'];
    let mut i: usize = 0;
    while i < s.len()
        invariant
            i <= s@.len(),
            r@ == seq!['"'] + escaped(s@.take(i as int)),
        decreases s@.len() - i,
    {
        let c = s[i];
        if c == '"' || c == '\\' {
            r.push('\\');
        }
        r.push(c);
        assert(s@.take(i + 1).drop_last() =~= s@.take(i as int));
        i = i + 1;
        assert(r@ =~= seq!['"'] + escaped(s@.take(i as int)));
    }
    assert(s@.take(s@.len() as int) =~= s@);
    r.push('"');
    r
}

/// What the generated code passes to build a token: the constructor's
/// name and its argument.
pub open spec fn emit_kind(t: SpecToken) -> Word {
    match t {
        SpecToken::Ident(_) => Word::Ident,
        SpecToken::Literal(_) => Word::Literal,
        SpecToken::Punct(_) => Word::Punct,
    }
}

pub open spec fn emit_arg(t: SpecToken) -> Seq<SpecTree> {
    match t {
        SpecToken::Ident(id) => seq![
            word_tree(Word::StrToIdent),
            group_tree(Delim::Paren, seq![lit_tree(str_lit(id.name))]),
        ],
        SpecToken::Literal(text) => seq![lit_tree(str_lit(text))],
        SpecToken::Punct(text) => seq![lit_tree(str_lit(text))],
    }
}

/// The code `TokenTree :: Token ( DUMMY_SP , Token :: K ( arg ) )` that
/// builds token `t`.
pub open spec fn spec_emit_token(t: SpecToken) -> Seq<SpecTree> {
    seq![
        word_tree(Word::TokenTree),
        sym_tree(Sym::ModSep),
        word_tree(Word::Token),
        group_tree(
            Delim::Paren,
            seq![
                word_tree(Word::DummySp),
                sym_tree(Sym::Comma),
                word_tree(Word::Token),
                sym_tree(Sym::ModSep),
                word_tree(emit_kind(t)),
                group_tree(Delim::Paren, emit_arg(t)),
            ],
        ),
    ]
}

/// The code that builds token `t`, as a token tree of a `TokenTree`.
/// The argument that the generated code hands to the token's constructor.
fn emit_arg_trees(t: Token) -> (r: Vec<TokenTree>)
    ensures
        trees_view(r@) == emit_arg(t@),
{
    let ghost tv = t@;
    match t {
        Token::Ident(id) => {
            let lit = TokenTree::Token(dummy_sp(), Token::Literal(string_literal(&id.name)));
            let inner = vec![lit];
            proof {
                lemma_trees_view(inner@);
                assert(trees_view(inner@) =~= seq![lit_tree(str_lit(id.name@))]);
            }
            let call = group_tt(Delim::Paren, inner);
            let r = vec![word_tt(Word::StrToIdent), call];
            proof {
                lemma_trees_view(r@);
                assert(trees_view(r@) =~= emit_arg(tv));
            }
            r
        },
        Token::Literal(text) => {
            let r = vec![TokenTree::Token(dummy_sp(), Token::Literal(string_literal(&text)))];
            proof {
                lemma_trees_view(r@);
                assert(trees_view(r@) =~= emit_arg(tv));
            }
            r
        },
        Token::Punct(text) => {
            let r = vec![TokenTree::Token(dummy_sp(), Token::Literal(string_literal(&text)))];
            proof {
                lemma_trees_view(r@);
                assert(trees_view(r@) =~= emit_arg(tv));
            }
            r
        },
    }
}

/// The constructor that the generated code calls to build a token.
fn emit_kind_of(t: &Token) -> (r: Word)
    ensures
        r == emit_kind(t@),
{
    match t {
        Token::Ident(_) => Word::Ident,
        Token::Literal(_) => Word::Literal,
        Token::Punct(_) => Word::Punct,
    }
}

/// The code that builds token `t`, as a token tree of a `TokenTree`.
pub fn emit_token(t: Token) -> (r: TokenStream)
    ensures
        r@ == spec_emit_token(t@),
{
    let ghost tv = t@;
    let kind = emit_kind_of(&t);
    let arg = emit_arg_trees(t);
    let inner = vec![
        word_tt(Word::DummySp),
        sym_tt(Sym::Comma),
        word_tt(Word::Token),
        sym_tt(Sym::ModSep),
        word_tt(kind),
        group_tt(Delim::Paren, arg),
    ];
    proof {
        lemma_trees_view(inner@);
        assert(trees_view(inner@) =~= seq![
            word_tree(Word::DummySp),
            sym_tree(Sym::Comma),
            word_tree(Word::Token),
            sym_tree(Sym::ModSep),
            word_tree(emit_kind(tv)),
            group_tree(Delim::Paren, emit_arg(tv)),
        ]);
    }
    let outer = vec![
        word_tt(Word::TokenTree),
        sym_tt(Sym::ModSep),
        word_tt(Word::Token),
        group_tt(Delim::Paren, inner),
    ];
    proof {
        lemma_trees_view(outer@);
        assert(trees_view(outer@) =~= spec_emit_token(tv));
    }
    TokenStream { tts: outer }
}

// ____________________________________________________________________________
// Segments

pub open spec fn streams_view(v: Seq<TokenStream>) -> Seq<Seq<SpecTree>> {
    v.map_values(|t: TokenStream| t@)
}

/// The segments after `ts` is added to the last one (or starts the first).
pub open spec fn spec_append_last(p: Seq<Seq<SpecTree>>, ts: Seq<SpecTree>) -> Seq<Seq<SpecTree>> {
    if p.len() == 0 {
        seq![ts]
    } else {
        p.drop_last().push(p.last() + ts)
    }
}

/// Adds `ts` to the end of the last segment of `pushes`, or makes it the
/// first segment where there is none.
pub fn append_last(pushes: &mut Vec<TokenStream>, ts: TokenStream)
    ensures
        streams_view(final(pushes)@) == spec_append_last(streams_view(old(pushes)@), ts@),
{
    let ghost p0 = streams_view(pushes@);
    match pushes.pop() {
        None => {
            pushes.push(ts);
            assert(streams_view(pushes@) =~= seq![ts@]);
        },
        Some(last) => {
            let joined = concat(last, ts);
            pushes.push(joined);
            assert(streams_view(pushes@) =~= spec_append_last(p0, ts@));
        },
    }
}

// ____________________________________________________________________________
// Laws

/// Each word of the generated code is spelt as Rust and the quoting library
/// spell it: the keywords, the paths `token :: DelimToken :: Paren`,
/// `Brace` and `Bracket`, and the names of the constructors and methods
/// that the code calls.
pub proof fn law_word_spelling()
    ensures
        word_text(Word::Let) == "let"@,
        word_text(Word::Mut) == "mut"@,
        word_text(Word::Output) == "output"@,
        word_text(Word::Vec) == "Vec"@,
        word_text(Word::TokenTree) == "TokenTree"@,
        word_text(Word::Token) == "Token"@,
        word_text(Word::Ident) == "Ident"@,
        word_text(Word::Literal) == "Literal"@,
        word_text(Word::Punct) == "Punct"@,
        word_text(Word::StrToIdent) == "str_to_ident"@,
        word_text(Word::DummySp) == "DUMMY_SP"@,
        word_text(Word::Rc) == "Rc"@,
        word_text(Word::New) == "new"@,
        word_text(Word::Delimited) == "Delimited"@,
        word_text(Word::Delim) == "delim"@,
        word_text(Word::OpenSpan) == "open_span"@,
        word_text(Word::Tts) == "tts"@,
        word_text(Word::CloseSpan) == "close_span"@,
        word_text(Word::TokenMod) == "token"@,
        word_text(Word::DelimToken) == "DelimToken"@,
        word_text(Word::Paren) == "Paren"@,
        word_text(Word::Brace) == "Brace"@,
        word_text(Word::Bracket) == "Bracket"@,
        word_text(Word::ToAppendable) == "to_appendable"@,
        word_text(Word::Append) == "append"@,
        word_text(Word::VecMacro) == "vec"@,
        word_text(Word::Tmp) == "tmp"@,
        word_text(Word::QdlTmp) == "qdl_tmp"@,
        word_text(Word::Unquote) == "unquote"@,
        word_text(Word::Qquote) == "qquote"@,
        word_text(Word::Else) == "else"@,
        word_text(Word::If) == "if"@,
        word_text(Word::Cond) == "cond"@,
{
    reveal_strlit("let");
    reveal_strlit("mut");
    reveal_strlit("output");
    reveal_strlit("Vec");
    reveal_strlit("TokenTree");
    reveal_strlit("Token");
    reveal_strlit("Ident");
    reveal_strlit("Literal");
    reveal_strlit("Punct");
    reveal_strlit("str_to_ident");
    reveal_strlit("DUMMY_SP");
    reveal_strlit("Rc");
    reveal_strlit("new");
    reveal_strlit("Delimited");
    reveal_strlit("delim");
    reveal_strlit("open_span");
    reveal_strlit("tts");
    reveal_strlit("close_span");
    reveal_strlit("token");
    reveal_strlit("DelimToken");
    reveal_strlit("Paren");
    reveal_strlit("Brace");
    reveal_strlit("Bracket");
    reveal_strlit("to_appendable");
    reveal_strlit("append");
    reveal_strlit("vec");
    reveal_strlit("tmp");
    reveal_strlit("qdl_tmp");
    reveal_strlit("unquote");
    reveal_strlit("qquote");
    reveal_strlit("else");
    reveal_strlit("if");
    reveal_strlit("cond");
}

/// Each piece of punctuation of the generated code is spelt as in Rust.
pub proof fn law_sym_spelling()
    ensures
        sym_text(Sym::Comma) == ","@,
        sym_text(Sym::Semi) == ";"@,
        sym_text(Sym::Colon) == ":"@,
        sym_text(Sym::ModSep) == "::"@,
        sym_text(Sym::Dot) == "."@,
        sym_text(Sym::Eq) == "="@,
        sym_text(Sym::Not) == "!"@,
        sym_text(Sym::And) == "&"@,
        sym_text(Sym::Lt) == "<"@,
        sym_text(Sym::Gt) == ">"@,
        sym_text(Sym::Plus) == "+"@,
        sym_text(Sym::Star) == "*"@,
{
    reveal_strlit(",");
    reveal_strlit(";");
    reveal_strlit(":");
    reveal_strlit("::");
    reveal_strlit(".");
    reveal_strlit("=");
    reveal_strlit("!");
    reveal_strlit("&");
    reveal_strlit("<");
    reveal_strlit(">");
    reveal_strlit("+");
    reveal_strlit("*");
}

} // verus!
