//! Token trees, the data that the quasi-quoter reads and writes, and their
//! mathematical model.
use vstd::prelude::*;

verus! {

/// The kind of bracket around a delimited group.
#[derive(Clone, Copy, PartialEq, Eq, Structural, Debug)]
pub enum Delim {
    Paren,
    Brace,
    Bracket,
}

/// A source position: byte offsets `lo .. hi`.
#[derive(Clone, Copy, PartialEq, Eq, Structural, Debug)]
pub struct Span {
    pub lo: u32,
    pub hi: u32,
}

/// The span given to every token that the library makes itself.
pub open spec fn spec_dummy_sp() -> Span {
    Span { lo: 0, hi: 0 }
}

#[verifier::when_used_as_spec(spec_dummy_sp)]
pub fn dummy_sp() -> (r: Span)
    ensures
        r == spec_dummy_sp(),
{
    Span { lo: 0, hi: 0 }
}

/// An identifier: its text and a mark. Identifiers written in the source
/// have mark 0; each identifier made by a `Gensym` gets a mark of its own,
/// so that it equals no other identifier even where the text is the same.
#[derive(Debug)]
pub struct Ident {
    pub name: Vec<char>,
    pub mark: u64,
}

/// A token: an identifier or keyword, a literal, or punctuation. Literals
/// and punctuation keep their source text.
#[derive(Debug)]
pub enum Token {
    Ident(Ident),
    Literal(Vec<char>),
    Punct(Vec<char>),
}

/// A group of token trees between two brackets.
#[derive(Debug)]
pub struct Delimited {
    pub delim: Delim,
    pub open_span: Span,
    pub tts: Vec<TokenTree>,
    pub close_span: Span,
}

/// A token, or a bracketed group of token trees.
#[derive(Debug)]
pub enum TokenTree {
    Token(Span, Token),
    Delimited(Span, Delimited),
}

/// A sequence of token trees.
#[derive(Debug)]
pub struct TokenStream {
    pub tts: Vec<TokenTree>,
}

// ____________________________________________________________________________
// Model

pub struct SpecIdent {
    pub name: Seq<char>,
    pub mark: nat,
}

pub enum SpecToken {
    Ident(SpecIdent),
    Literal(Seq<char>),
    Punct(Seq<char>),
}

pub enum SpecTree {
    Token(Span, SpecToken),
    Delimited(Span, Delim, Span, Seq<SpecTree>, Span),
}

impl View for Ident {
    type V = SpecIdent;

    open spec fn view(&self) -> SpecIdent {
        SpecIdent { name: self.name@, mark: self.mark as nat }
    }
}

impl View for Token {
    type V = SpecToken;

    open spec fn view(&self) -> SpecToken {
        match self {
            Token::Ident(id) => SpecToken::Ident(id@),
            Token::Literal(t) => SpecToken::Literal(t@),
            Token::Punct(t) => SpecToken::Punct(t@),
        }
    }
}

pub open spec fn tree_view(t: TokenTree) -> SpecTree
    decreases t, 1nat,
{
    match t {
        TokenTree::Token(sp, tok) => SpecTree::Token(sp, tok@),
        TokenTree::Delimited(sp, d) => SpecTree::Delimited(
            sp,
            d.delim,
            d.open_span,
            trees_view(d.tts@),
            d.close_span,
        ),
    }
}

pub open spec fn trees_view(s: Seq<TokenTree>) -> Seq<SpecTree>
    decreases s, 0nat,
{
    if s.len() == 0 {
        Seq::empty()
    } else {
        trees_view(s.drop_last()).push(tree_view(s.last()))
    }
}

impl View for TokenTree {
    type V = SpecTree;

    open spec fn view(&self) -> SpecTree {
        tree_view(*self)
    }
}

impl View for TokenStream {
    type V = Seq<SpecTree>;

    open spec fn view(&self) -> Seq<SpecTree> {
        trees_view(self.tts@)
    }
}

/// The model of a sequence of token trees has the same length and, at
/// each index, the model of the tree there.
pub proof fn lemma_trees_view(s: Seq<TokenTree>)
    ensures
        trees_view(s).len() == s.len(),
        forall|i: int| 0 <= i < s.len() ==> #[trigger] trees_view(s)[i] == tree_view(s[i]),
    decreases s.len(),
{
    if s.len() > 0 {
        lemma_trees_view(s.drop_last());
    }
}

/// The model of a concatenation is the concatenation of the models.
pub proof fn lemma_trees_view_add(a: Seq<TokenTree>, b: Seq<TokenTree>)
    ensures
        trees_view(a + b) == trees_view(a) + trees_view(b),
{
    lemma_trees_view(a);
    lemma_trees_view(b);
    lemma_trees_view(a + b);
    assert(trees_view(a + b) =~= trees_view(a) + trees_view(b));
}

/// A sequence is determined by the models of its trees.
pub proof fn lemma_trees_view_push(s: Seq<TokenTree>, t: TokenTree)
    ensures
        trees_view(s.push(t)) == trees_view(s).push(tree_view(t)),
{
    assert(s.push(t).drop_last() =~= s);
}

/// The trees inside a group; nothing for a token.
pub open spec fn inner_of(t: SpecTree) -> Seq<SpecTree> {
    match t {
        SpecTree::Delimited(_, _, _, inner, _) => inner,
        _ => Seq::empty(),
    }
}

/// The number of nodes of a tree: each token and each group counts one.
pub open spec fn tree_size(t: SpecTree) -> nat
    decreases t, 1nat,
{
    match t {
        SpecTree::Token(_, _) => 1,
        SpecTree::Delimited(_, _, _, inner, _) => 1 + trees_size(inner),
    }
}

pub open spec fn trees_size(s: Seq<SpecTree>) -> nat
    decreases s, 0nat,
{
    if s.len() == 0 {
        0
    } else {
        trees_size(s.drop_last()) + tree_size(s.last())
    }
}

/// The size of a sequence is the size of its first `i` trees plus that of
/// the others.
pub proof fn lemma_trees_size_split(s: Seq<SpecTree>, i: int)
    requires
        0 <= i <= s.len(),
    ensures
        trees_size(s) == trees_size(s.take(i)) + trees_size(s.skip(i)),
    decreases s.len(),
{
    if i == s.len() {
        assert(s.take(i) =~= s);
        assert(s.skip(i) =~= Seq::<SpecTree>::empty());
    } else {
        lemma_trees_size_split(s.drop_last(), i);
        assert(s.drop_last().take(i) =~= s.take(i));
        assert(s.skip(i).drop_last() =~= s.drop_last().skip(i));
        assert(s.skip(i).last() == s.last());
    }
}

/// The size of a sequence is the size of its first tree plus that of the
/// rest.
pub proof fn lemma_trees_size_first(s: Seq<SpecTree>)
    requires
        s.len() > 0,
    ensures
        trees_size(s) == tree_size(s[0]) + trees_size(s.skip(1)),
{
    lemma_trees_size_split(s, 1);
    assert(s.take(1).drop_last() =~= Seq::<SpecTree>::empty());
    assert(s.take(1).last() == s[0]);
    assert(trees_size(Seq::<SpecTree>::empty()) == 0);
}

/// Every identifier in `t` has a mark below `n`.
pub open spec fn tree_marks_below(t: SpecTree, n: nat) -> bool
    decreases t, 1nat,
{
    match t {
        SpecTree::Token(_, SpecToken::Ident(id)) => id.mark < n,
        SpecTree::Token(_, _) => true,
        SpecTree::Delimited(_, _, _, inner, _) => trees_marks_below(inner, n),
    }
}

pub open spec fn trees_marks_below(s: Seq<SpecTree>, n: nat) -> bool
    decreases s, 0nat,
{
    if s.len() == 0 {
        true
    } else {
        trees_marks_below(s.drop_last(), n) && tree_marks_below(s.last(), n)
    }
}

pub proof fn lemma_trees_marks_below(s: Seq<SpecTree>, n: nat)
    ensures
        trees_marks_below(s, n) <==> forall|i: int|
            0 <= i < s.len() ==> #[trigger] tree_marks_below(s[i], n),
    decreases s.len(),
{
    if s.len() > 0 {
        lemma_trees_marks_below(s.drop_last(), n);
        assert forall|i: int| 0 <= i < s.len() - 1 implies s.drop_last()[i] == s[i] by {}
        if forall|i: int| 0 <= i < s.len() ==> #[trigger] tree_marks_below(s[i], n) {
            assert forall|i: int| 0 <= i < s.drop_last().len() implies #[trigger] tree_marks_below(
                s.drop_last()[i],
                n,
            ) by {
                assert(s.drop_last()[i] == s[i]);
            }
            assert(tree_marks_below(s[s.len() - 1], n));
        }
    }
}

/// Marks below `a` are below any `b >= a`.
pub proof fn lemma_marks_below_mono(s: Seq<SpecTree>, a: nat, b: nat)
    requires
        trees_marks_below(s, a),
        a <= b,
    ensures
        trees_marks_below(s, b),
    decreases s, 0nat,
{
    if s.len() > 0 {
        lemma_marks_below_mono(s.drop_last(), a, b);
        lemma_tree_marks_below_mono(s.last(), a, b);
    }
}

pub proof fn lemma_tree_marks_below_mono(t: SpecTree, a: nat, b: nat)
    requires
        tree_marks_below(t, a),
        a <= b,
    ensures
        tree_marks_below(t, b),
    decreases t, 1nat,
{
    match t {
        SpecTree::Delimited(_, _, _, inner, _) => lemma_marks_below_mono(inner, a, b),
        _ => {},
    }
}

// ____________________________________________________________________________
// Making tokens

/// A fresh copy of a piece of text.
pub fn copy_text(t: &Vec<char>) -> (r: Vec<char>)
    ensures
        r@ == t@,
{
    let mut r: Vec<char> = Vec::new();
    let mut i: usize = 0;
    while i < t.len()
        invariant
            i <= t@.len(),
            r@ == t@.take(i as int),
        decreases t@.len() - i,
    {
        r.push(t[i]);
        i = i + 1;
        assert(r@ =~= t@.take(i as int));
    }
    assert(t@.take(t@.len() as int) =~= t@);
    r
}

/// Whether two pieces of text are the same.
pub fn text_eq(a: &Vec<char>, b: &Vec<char>) -> (r: bool)
    ensures
        r == (a@ == b@),
{
    if a.len() != b.len() {
        return false;
    }
    let mut i: usize = 0;
    while i < a.len()
        invariant
            a@.len() == b@.len(),
            i <= a@.len(),
            a@.take(i as int) == b@.take(i as int),
        decreases a@.len() - i,
    {
        if a[i] != b[i] {
            assert(a@[i as int] != b@[i as int]);
            return false;
        }
        assert(a@.take(i + 1) =~= a@.take(i as int).push(a@[i as int]));
        assert(b@.take(i + 1) =~= b@.take(i as int).push(b@[i as int]));
        i = i + 1;
    }
    assert(a@.take(a@.len() as int) =~= a@);
    assert(b@.take(b@.len() as int) =~= b@);
    true
}

impl Ident {
    /// A copy of this identifier.
    pub fn copy(&self) -> (r: Ident)
        ensures
            r@ == self@,
    {
        Ident { name: copy_text(&self.name), mark: self.mark }
    }
}

impl Token {
    /// A copy of this token.
    pub fn copy(&self) -> (r: Token)
        ensures
            r@ == self@,
    {
        match self {
            Token::Ident(id) => Token::Ident(id.copy()),
            Token::Literal(t) => Token::Literal(copy_text(t)),
            Token::Punct(t) => Token::Punct(copy_text(t)),
        }
    }
}

impl TokenTree {
    /// A copy of this token tree, brackets and all.
    pub fn copy(&self) -> (r: TokenTree)
        ensures
            r@ == self@,
        decreases self, 1nat,
    {
        match self {
            TokenTree::Token(sp, t) => TokenTree::Token(*sp, t.copy()),
            TokenTree::Delimited(sp, d) => TokenTree::Delimited(
                *sp,
                Delimited {
                    delim: d.delim,
                    open_span: d.open_span,
                    tts: copy_trees(&d.tts),
                    close_span: d.close_span,
                },
            ),
        }
    }
}

/// A copy of a sequence of token trees.
pub fn copy_trees(v: &Vec<TokenTree>) -> (r: Vec<TokenTree>)
    ensures
        trees_view(r@) == trees_view(v@),
    decreases v, 0nat,
{
    let mut r: Vec<TokenTree> = Vec::new();
    let mut i: usize = 0;
    proof {
        lemma_trees_view(v@);
    }
    while i < v.len()
        invariant
            i <= v@.len(),
            trees_view(r@) == trees_view(v@).take(i as int),
            trees_view(v@).len() == v@.len(),
            forall|j: int| 0 <= j < v@.len() ==> #[trigger] trees_view(v@)[j] == tree_view(v@[j]),
        decreases v@.len() - i,
    {
        proof {
            assert(decreases_to!(*v => v@[i as int]));
        }
        let c = v[i].copy();
        proof {
            lemma_trees_view_push(r@, c);
        }
        r.push(c);
        i = i + 1;
        assert(trees_view(r@) =~= trees_view(v@).take(i as int));
    }
    assert(trees_view(v@).take(v@.len() as int) =~= trees_view(v@));
    r
}

impl TokenStream {
    /// The empty stream.
    pub fn mk_empty() -> (r: TokenStream)
        ensures
            r@ == Seq::<SpecTree>::empty(),
    {
        TokenStream { tts: Vec::new() }
    }

    /// The stream of the given trees.
    pub fn from_tts(tts: Vec<TokenTree>) -> (r: TokenStream)
        ensures
            r@ == trees_view(tts@),
            r.tts@ == tts@,
    {
        TokenStream { tts }
    }

    /// The trees of this stream.
    pub fn to_tts(self) -> (r: Vec<TokenTree>)
        ensures
            trees_view(r@) == self@,
    {
        self.tts
    }

    /// The number of trees at the top of this stream.
    pub fn len(&self) -> (r: usize)
        ensures
            r == self@.len(),
    {
        proof {
            lemma_trees_view(self.tts@);
        }
        self.tts.len()
    }

    /// The trees of `a` followed by those of `b`.
    pub fn concat(a: TokenStream, b: TokenStream) -> (r: TokenStream)
        ensures
            r@ == a@ + b@,
    {
        let mut x = a.tts;
        let mut y = b.tts;
        let ghost xs = x@;
        let ghost ys = y@;
        x.append(&mut y);
        proof {
            lemma_trees_view_add(xs, ys);
        }
        TokenStream { tts: x }
    }
}

} // verus!
