//! Values that a quote can splice in where it unquotes them.
use vstd::prelude::*;

use crate::token::{
    dummy_sp, lemma_trees_view, spec_dummy_sp, trees_view, SpecTree, Token, TokenStream,
    TokenTree,
};

verus! {

/// A value that can stand where a quote unquotes: it turns into the token
/// trees that take its place.
pub trait Quotable: Sized {
    /// The trees that the value turns into.
    spec fn appendable(&self) -> Seq<SpecTree>;

    fn to_appendable(self) -> (r: Vec<TokenTree>)
        ensures
            trees_view(r@) == self.appendable(),
    ;
}

impl Quotable for Token {
    /// A token turns into the one tree of that token.
    open spec fn appendable(&self) -> Seq<SpecTree> {
        seq![SpecTree::Token(spec_dummy_sp(), self@)]
    }

    fn to_appendable(self) -> (r: Vec<TokenTree>) {
        let r = vec![TokenTree::Token(dummy_sp(), self)];
        proof {
            lemma_trees_view(r@);
        }
        assert(trees_view(r@) =~= self.appendable());
        r
    }
}

impl Quotable for TokenTree {
    /// A tree turns into itself.
    open spec fn appendable(&self) -> Seq<SpecTree> {
        seq![self@]
    }

    fn to_appendable(self) -> (r: Vec<TokenTree>) {
        let ghost v = self@;
        let r = vec![self];
        proof {
            lemma_trees_view(r@);
        }
        assert(trees_view(r@) =~= seq![v]);
        r
    }
}

impl Quotable for Vec<TokenTree> {
    /// A vector of trees turns into its trees.
    open spec fn appendable(&self) -> Seq<SpecTree> {
        trees_view(self@)
    }

    fn to_appendable(self) -> (r: Vec<TokenTree>) {
        self
    }
}

impl Quotable for TokenStream {
    /// A stream turns into its trees.
    open spec fn appendable(&self) -> Seq<SpecTree> {
        self@
    }

    fn to_appendable(self) -> (r: Vec<TokenTree>) {
        self.tts
    }
}

// ____________________________________________________________________________
// Laws

/// Splicing a stream gives exactly its trees: as many as it holds, each in
/// its place, for streams of any length.
pub proof fn law_stream_splices_its_trees(ts: TokenStream)
    ensures
        ts.appendable() == ts@,
        ts.appendable().len() == ts.tts@.len(),
        forall|i: int| 0 <= i < ts.tts@.len() ==> #[trigger] ts.appendable()[i] == ts.tts@[i]@,
{
    lemma_trees_view(ts.tts@);
}

/// Splicing a vector of trees gives exactly its trees, each in its place.
pub proof fn law_vec_splices_its_trees(v: Vec<TokenTree>)
    ensures
        v.appendable().len() == v@.len(),
        forall|i: int| 0 <= i < v@.len() ==> #[trigger] v.appendable()[i] == v@[i]@,
{
    lemma_trees_view(v@);
}

/// Splicing a tree gives that tree alone, and splicing a token gives the one
/// tree of that token.
pub proof fn law_single_splices_itself(t: TokenTree, k: Token)
    ensures
        t.appendable() == seq![t@],
        k.appendable() == seq![SpecTree::Token(spec_dummy_sp(), k@)],
{
}

} // verus!
