//! Example macros written with quotes: `double!(e)` is `{ (e) + (e) }`,
//! `double2!(e)` is `{ e * 2 }`, and `cond!` turns a list of clauses
//! `(test, rhs..)` into nested `if`s.
use vstd::prelude::*;

use crate::builder::{build_paren_delim, group_tree, group_tt, ident_eq, plain_ident, spec_ident_eq, str_to_ident, sym, sym_text, sym_tree, sym_tt, word, word_text, word_tree, word_tt, Sym, Word};
use crate::quotable::Quotable;
use crate::token::{tree_view, text_eq, inner_of, copy_trees, lemma_trees_view, lemma_trees_view_add, spec_dummy_sp, trees_view, Delim, SpecToken, SpecTree, Token, TokenStream, TokenTree};

verus! {

/// `{ (s) + (s) }`
pub open spec fn spec_double(s: Seq<SpecTree>) -> Seq<SpecTree> {
    seq![
        group_tree(
            Delim::Brace,
            seq![group_tree(Delim::Paren, s), sym_tree(Sym::Plus), group_tree(Delim::Paren, s)],
        ),
    ]
}

/// The literal `2`.
pub open spec fn two_tree() -> SpecTree {
    SpecTree::Token(spec_dummy_sp(), SpecToken::Literal(seq!['2']))
}

/// `{ s * 2 }`
pub open spec fn spec_double2(s: Seq<SpecTree>) -> Seq<SpecTree> {
    seq![group_tree(Delim::Brace, s + seq![sym_tree(Sym::Star), two_tree()])]
}

/// Whether `cond!` accepts the clauses `s`: none, or a first clause that
/// is a group holding a test and at least one more tree.
pub open spec fn cond_accepts(s: Seq<SpecTree>) -> bool {
    s.len() == 0 || (s[0] is Delimited && inner_of(s[0]).len() >= 2)
}

/// Whether `t` is a comma.
pub open spec fn is_comma(t: SpecTree) -> bool {
    t matches SpecTree::Token(_, SpecToken::Punct(p)) && p == sym_text(Sym::Comma)
}

/// The right-hand side of a clause `(test, rhs..)`: what follows the test
/// and the comma that separates them (the comma may be left out).
pub open spec fn clause_rhs(clause: Seq<SpecTree>) -> Seq<SpecTree> {
    if clause.len() >= 2 && is_comma(clause[1]) {
        clause.skip(2)
    } else {
        clause.skip(1)
    }
}

/// What `cond!(s)` expands to: nothing for no clause; the right-hand side
/// of the first clause, in braces, where its test is `else` or it is the
/// last clause; otherwise `{ if test { rhs } else { cond!(rest) } }`, so
/// that the clauses act as an `if` / `else if` / `else` chain.
pub open spec fn spec_cond(s: Seq<SpecTree>) -> Seq<SpecTree> {
    if s.len() == 0 {
        Seq::empty()
    } else {
        let clause = inner_of(s[0]);
        let test = clause[0];
        let rhs = clause_rhs(clause);
        let rest = s.skip(1);
        if spec_ident_eq(test, plain_ident(word_text(Word::Else))) || rest.len() == 0 {
            seq![group_tree(Delim::Brace, rhs)]
        } else {
            seq![
                group_tree(
                    Delim::Brace,
                    seq![
                        word_tree(Word::If),
                        test,
                        group_tree(Delim::Brace, rhs),
                        word_tree(Word::Else),
                        group_tree(
                            Delim::Brace,
                            seq![
                                word_tree(Word::Cond),
                                sym_tree(Sym::Not),
                                group_tree(Delim::Paren, rest),
                            ],
                        ),
                    ],
                ),
            ]
        }
    }
}

/// `v` with the trees of `q` spliced in after it.
fn splice<Q: Quotable>(v: &mut Vec<TokenTree>, q: Q)
    ensures
        trees_view(final(v)@) == trees_view(old(v)@) + q.appendable(),
{
    let ghost a = v@;
    let mut more = q.to_appendable();
    let ghost b = more@;
    v.append(&mut more);
    proof {
        lemma_trees_view_add(a, b);
    }
}

/// The trees of `double!(tts)`: `{ (tts) + (tts) }`.
pub fn double(tts: Vec<TokenTree>) -> (r: Vec<TokenTree>)
    ensures
        trees_view(r@) == spec_double(trees_view(tts@)),
{
    let ghost s = trees_view(tts@);
    let tts1 = build_paren_delim(TokenStream::from_tts(copy_trees(&tts)));
    let tts2 = build_paren_delim(TokenStream::from_tts(tts));
    let mut inner: Vec<TokenTree> = Vec::new();
    splice(&mut inner, tts1);
    splice(&mut inner, sym_tt(Sym::Plus));
    splice(&mut inner, tts2);
    assert(trees_view(inner@) =~= seq![
        group_tree(Delim::Paren, s),
        sym_tree(Sym::Plus),
        group_tree(Delim::Paren, s),
    ]);
    let r = vec![group_tt(Delim::Brace, inner)];
    proof {
        lemma_trees_view(r@);
        assert(trees_view(r@) =~= spec_double(s));
    }
    r
}

/// The trees of `double2!(tts)`: `{ tts * 2 }`.
pub fn double2(tts: Vec<TokenTree>) -> (r: Vec<TokenTree>)
    ensures
        trees_view(r@) == spec_double2(trees_view(tts@)),
{
    let ghost s = trees_view(tts@);
    let mut inner: Vec<TokenTree> = Vec::new();
    splice(&mut inner, tts);
    splice(&mut inner, sym_tt(Sym::Star));
    let two_text = vec!['2'];
    assert(two_text@ =~= seq!['2']);
    let two = Token::Literal(two_text);
    splice(&mut inner, two);
    assert(trees_view(inner@) =~= s + seq![sym_tree(Sym::Star), two_tree()]);
    let r = vec![group_tt(Delim::Brace, inner)];
    proof {
        lemma_trees_view(r@);
        assert(trees_view(r@) =~= spec_double2(s));
    }
    r
}

/// Whether `t` is a comma.
fn is_comma_tt(t: &TokenTree) -> (r: bool)
    ensures
        r == is_comma(t@),
{
    match t {
        TokenTree::Token(_, Token::Punct(p)) => text_eq(p, &sym(Sym::Comma)),
        _ => false,
    }
}

/// The trees of `cond!(input)` (see `spec_cond`).
pub fn cond_rec(input: Vec<TokenTree>) -> (r: Vec<TokenTree>)
    requires
        cond_accepts(trees_view(input@)),
    ensures
        trees_view(r@) == spec_cond(trees_view(input@)),
{
    let ghost s = trees_view(input@);
    proof {
        lemma_trees_view(input@);
    }
    if input.len() == 0 {
        return Vec::new();
    }
    let mut rest = input;
    let next = rest.remove(0);
    proof {
        assert(trees_view(rest@) =~= s.skip(1)) by {
            lemma_trees_view(rest@);
        }
    }
    let mut clause: Vec<TokenTree> = match next {
        TokenTree::Delimited(_, dlm) => dlm.tts,
        _ => {
            assert(false);
            Vec::new()
        },
    };
    let ghost cl = trees_view(clause@);
    proof {
        lemma_trees_view(clause@);
    }
    let mut rhs = clause.split_off(1);
    let test = clause.pop().unwrap();
    proof {
        lemma_trees_view(rhs@);
        assert(trees_view(rhs@) =~= cl.skip(1));
        assert(test@ == cl[0]);
    }
    if is_comma_tt(&rhs[0]) {
        let ghost before = rhs@;
        let _comma = rhs.remove(0);
        proof {
            lemma_trees_view(rhs@);
            assert(cl[1] == tree_view(before[0]));
            assert(trees_view(rhs@) =~= cl.skip(2));
        }
    }
    assert(trees_view(rhs@) == clause_rhs(cl));
    if ident_eq(&test, str_to_ident(word(Word::Else))) || rest.len() == 0 {
        let mut inner: Vec<TokenTree> = Vec::new();
        splice(&mut inner, rhs);
        let r = vec![group_tt(Delim::Brace, inner)];
        proof {
            lemma_trees_view(r@);
            assert(trees_view(r@) =~= spec_cond(s));
        }
        r
    } else {
        let mut call: Vec<TokenTree> = Vec::new();
        splice(&mut call, word_tt(Word::Cond));
        splice(&mut call, sym_tt(Sym::Not));
        splice(&mut call, group_tt(Delim::Paren, rest));
        let mut inner: Vec<TokenTree> = Vec::new();
        splice(&mut inner, word_tt(Word::If));
        splice(&mut inner, test);
        splice(&mut inner, group_tt(Delim::Brace, rhs));
        splice(&mut inner, word_tt(Word::Else));
        splice(&mut inner, group_tt(Delim::Brace, call));
        assert(trees_view(call@) =~= seq![
            word_tree(Word::Cond),
            sym_tree(Sym::Not),
            group_tree(Delim::Paren, s.skip(1)),
        ]);
        assert(trees_view(inner@) =~= seq![
            word_tree(Word::If),
            cl[0],
            group_tree(Delim::Brace, clause_rhs(cl)),
            word_tree(Word::Else),
            group_tree(Delim::Brace, trees_view(call@)),
        ]);
        let r = vec![group_tt(Delim::Brace, inner)];
        proof {
            lemma_trees_view(r@);
            assert(trees_view(r@) =~= spec_cond(s));
        }
        r
    }
}

// ____________________________________________________________________________
// Laws

/// Whether `t` is a group of kind `d`.
pub open spec fn is_group_of(t: SpecTree, d: Delim) -> bool {
    t matches SpecTree::Delimited(_, k, _, _, _) && k == d
}

/// The punctuation tree of the text `p`.
pub open spec fn punct_tree(p: Seq<char>) -> SpecTree {
    SpecTree::Token(spec_dummy_sp(), SpecToken::Punct(p))
}

/// `double!(e)` is one brace group that holds exactly three trees: a
/// parenthesis group around `e`, `+`, and a parenthesis group around `e`
/// again; each operand is read as a whole, whatever operators `e` holds.
pub proof fn law_double_parenthesises(s: Seq<SpecTree>)
    ensures
        spec_double(s).len() == 1,
        is_group_of(spec_double(s)[0], Delim::Brace),
        inner_of(spec_double(s)[0]).len() == 3,
        is_group_of(inner_of(spec_double(s)[0])[0], Delim::Paren),
        inner_of(inner_of(spec_double(s)[0])[0]) == s,
        inner_of(spec_double(s)[0])[1] == punct_tree(seq!['+']),
        is_group_of(inner_of(spec_double(s)[0])[2], Delim::Paren),
        inner_of(inner_of(spec_double(s)[0])[2]) == s,
{
}

/// `double2!(e)` is one brace group that holds the trees of `e` unchanged,
/// followed by `*` and the literal `2`; a parenthesised `e` keeps its
/// parentheses.
pub proof fn law_double2_keeps_operand(s: Seq<SpecTree>)
    ensures
        spec_double2(s).len() == 1,
        is_group_of(spec_double2(s)[0], Delim::Brace),
        inner_of(spec_double2(s)[0]) == s + seq![
            punct_tree(seq!['*']),
            SpecTree::Token(spec_dummy_sp(), SpecToken::Literal(seq!['2'])),
        ],
        inner_of(spec_double2(s)[0]).len() == s.len() + 2,
        forall|i: int| 0 <= i < s.len() ==> #[trigger] inner_of(spec_double2(s)[0])[i] == s[i],
{
    let inner = inner_of(spec_double2(s)[0]);
    assert forall|i: int| 0 <= i < s.len() implies #[trigger] inner[i] == s[i] by {}
}

/// The right-hand side of a clause is everything after its test, less the
/// comma that may separate the two.
pub proof fn law_clause_rhs(clause: Seq<SpecTree>)
    requires
        clause.len() >= 2,
    ensures
        is_comma(clause[1]) ==> clause_rhs(clause) == clause.subrange(2, clause.len() as int),
        !is_comma(clause[1]) ==> clause_rhs(clause) == clause.subrange(1, clause.len() as int),
        is_comma(punct_tree(seq![','])),
{
}

/// Where the first test of at least two clauses is not `else`, `cond!`
/// expands to `{ if test { rhs } else { cond!(rest) } }`: the test of the
/// first clause, its right-hand side, and in the trailing `cond ! ( .. )`
/// exactly the clauses from the second on, in their order. So the clauses
/// are tried in the order in which they are written.
pub proof fn law_cond_tries_clauses_in_order(s: Seq<SpecTree>)
    requires
        s.len() >= 2,
        cond_accepts(s),
        !spec_ident_eq(inner_of(s[0])[0], plain_ident(word_text(Word::Else))),
    ensures
        spec_cond(s).len() == 1,
        is_group_of(spec_cond(s)[0], Delim::Brace),
        inner_of(spec_cond(s)[0]).len() == 5,
        inner_of(spec_cond(s)[0])[0] == word_tree(Word::If),
        inner_of(spec_cond(s)[0])[1] == inner_of(s[0])[0],
        is_group_of(inner_of(spec_cond(s)[0])[2], Delim::Brace),
        inner_of(inner_of(spec_cond(s)[0])[2]) == clause_rhs(inner_of(s[0])),
        inner_of(spec_cond(s)[0])[3] == word_tree(Word::Else),
        is_group_of(inner_of(spec_cond(s)[0])[4], Delim::Brace),
        inner_of(inner_of(spec_cond(s)[0])[4]).len() == 3,
        inner_of(inner_of(spec_cond(s)[0])[4])[0] == word_tree(Word::Cond),
        inner_of(inner_of(spec_cond(s)[0])[4])[1] == punct_tree(seq!['!']),
        is_group_of(inner_of(inner_of(spec_cond(s)[0])[4])[2], Delim::Paren),
        inner_of(inner_of(inner_of(spec_cond(s)[0])[4])[2]).len() == s.len() - 1,
        forall|i: int|
            1 <= i < s.len() ==> #[trigger] inner_of(inner_of(inner_of(spec_cond(s)[0])[4])[2])[i
                - 1] == s[i],
{
    let rest = inner_of(inner_of(inner_of(spec_cond(s)[0])[4])[2]);
    assert(rest == s.skip(1));
    assert forall|i: int| 1 <= i < s.len() implies #[trigger] rest[i - 1] == s[i] by {}
}

/// A clause whose test is `else`, or the last clause, expands to its
/// right-hand side in braces, and the clauses after it are dropped; no
/// clauses expand to nothing.
pub proof fn law_cond_final_clause(s: Seq<SpecTree>)
    requires
        cond_accepts(s),
    ensures
        s.len() == 0 ==> spec_cond(s).len() == 0,
        s.len() >= 1 && (s.len() == 1 || spec_ident_eq(
            inner_of(s[0])[0],
            plain_ident(word_text(Word::Else)),
        )) ==> spec_cond(s) == seq![group_tree(Delim::Brace, clause_rhs(inner_of(s[0])))],
{
}

} // verus!
