use qquote::builder::{
    append_last, build_let, build_method_call, build_mod_call, build_push_vec,
    build_struct_field_assign, emit_token, ident_eq, str_to_ident, string_literal,
};
use qquote::convert::{convert_complex_tts, is_quote, is_unquote, unravel};
use qquote::double::{cond_rec, double, double2};
use qquote::qtt::{Gensym, QDelimited, QTT};
use qquote::quasi::{qquote, qquote_iter, qquoter};
use qquote::quotable::Quotable;
use qquote::token::{Delim, Delimited, Ident, Span, Token, TokenStream, TokenTree};

fn sp() -> Span {
    Span { lo: 1, hi: 2 }
}

fn text(s: &str) -> Vec<char> {
    s.chars().collect()
}

fn id(s: &str) -> Ident {
    Ident { name: text(s), mark: 0 }
}

fn ident(s: &str) -> TokenTree {
    TokenTree::Token(sp(), Token::Ident(id(s)))
}

fn lit(s: &str) -> TokenTree {
    TokenTree::Token(sp(), Token::Literal(text(s)))
}

fn punct(s: &str) -> TokenTree {
    TokenTree::Token(sp(), Token::Punct(text(s)))
}

fn group(delim: Delim, tts: Vec<TokenTree>) -> TokenTree {
    TokenTree::Delimited(sp(), Delimited { delim, open_span: sp(), tts, close_span: sp() })
}

fn ts(tts: Vec<TokenTree>) -> TokenStream {
    TokenStream { tts }
}

fn render_tok(t: &Token) -> String {
    match t {
        Token::Ident(i) if i.mark == 0 => i.name.iter().collect(),
        Token::Ident(i) => format!("{}#{}", i.name.iter().collect::<String>(), i.mark),
        Token::Literal(l) => l.iter().collect(),
        Token::Punct(p) => p.iter().collect(),
    }
}

/// The trees as text, a space between tokens, marks after `#`.
fn render(tts: &[TokenTree]) -> String {
    let mut parts: Vec<String> = Vec::new();
    for t in tts {
        match t {
            TokenTree::Token(_, tok) => parts.push(render_tok(tok)),
            TokenTree::Delimited(_, d) => {
                let (o, c) = match d.delim {
                    Delim::Paren => ("(", ")"),
                    Delim::Brace => ("{", "}"),
                    Delim::Bracket => ("[", "]"),
                };
                let inner = render(&d.tts);
                if inner.is_empty() {
                    parts.push(format!("{} {}", o, c));
                } else {
                    parts.push(format!("{} {} {}", o, inner, c));
                }
            }
        }
    }
    parts.join(" ")
}

fn render_qtts(qs: &[QTT]) -> String {
    let mut parts: Vec<String> = Vec::new();
    for q in qs {
        match q {
            QTT::TT(t) => parts.push(format!("TT({})", render(std::slice::from_ref(t)))),
            QTT::QIdent(t) => parts.push(format!("QIdent({})", render(std::slice::from_ref(t)))),
            QTT::QDL(d) => parts.push(format!("QDL[{}]", render_qtts(&d.tts))),
        }
    }
    parts.join(" ")
}

fn render_bindings(b: &[(Ident, TokenStream)]) -> String {
    b.iter()
        .map(|(i, t)| format!("{}#{} = {}", i.name.iter().collect::<String>(), i.mark, render(&t.tts)))
        .collect::<Vec<_>>()
        .join("; ")
}

/// The code of each token, as `qquote` emits it.
fn token_code(kind: &str, arg: &str) -> String {
    format!("TokenTree :: Token ( DUMMY_SP , Token :: {} ( {} ) )", kind, arg)
}

// ____________________________________________________________________________
// Reserved identifiers

#[test]
fn reserved_identifiers_are_recognised() {
    assert!(is_unquote(id("unquote")));
    assert!(!is_unquote(id("qquote")));
    assert!(!is_unquote(id("unquot")));
    assert!(is_quote(id("qquote")));
    assert!(!is_quote(id("unquote")));
    assert!(!is_quote(id("quote")));
}

#[test]
fn fresh_identifiers_are_never_reserved() {
    assert!(!is_unquote(Ident { name: text("unquote"), mark: 4 }));
    assert!(!is_quote(Ident { name: text("qquote"), mark: 1 }));
}

// ____________________________________________________________________________
// Reading a quote

#[test]
fn unquote_at_depth_zero_is_bound() {
    let mut gen = Gensym::new();
    let input = ts(vec![ident("a"), ident("unquote"), group(Delim::Paren, vec![ident("b")]), ident("c")]);
    let (b, o) = qquote_iter(&mut gen, 0, input);
    assert_eq!(render_bindings(&b), "tmp#1 = ( b )");
    assert_eq!(render_qtts(&o), "TT(a) QIdent(tmp#1) TT(c)");
    assert_eq!(gen.next, 2);
}

#[test]
fn roundtrip_of_reading_on_values() {
    // Putting each bound expression back where its placeholder stands
    // gives the quote without `unquote`.
    let mut gen = Gensym::new();
    let input = ts(vec![
        ident("a"),
        ident("unquote"),
        ident("x"),
        group(Delim::Brace, vec![ident("unquote"), lit("7"), punct("+")]),
    ]);
    let (b, o) = qquote_iter(&mut gen, 0, input);
    fn plug(o: &[QTT], b: &[(Ident, TokenStream)]) -> String {
        let mut parts = Vec::new();
        for q in o {
            match q {
                QTT::TT(t) => parts.push(render(std::slice::from_ref(t))),
                QTT::QIdent(TokenTree::Token(_, Token::Ident(i))) => {
                    let v = b.iter().find(|(j, _)| j.mark == i.mark && j.name == i.name).unwrap();
                    parts.push(render(&v.1.tts));
                }
                QTT::QIdent(_) => panic!("placeholder is not an identifier"),
                QTT::QDL(d) => parts.push(format!("{{ {} }}", plug(&d.tts, b))),
            }
        }
        parts.join(" ")
    }
    assert_eq!(plug(&o, &b), "a x { 7 + }");
    assert_eq!(render_bindings(&b), "tmp#1 = x; tmp#2 = 7");
}

#[test]
fn restoring_the_markers_gives_the_quote() {
    let mut gen = Gensym::new();
    let input = vec![
        ident("a"),
        ident("unquote"),
        ident("x"),
        group(Delim::Brace, vec![ident("unquote"), group(Delim::Paren, vec![lit("7")]), punct("+")]),
    ];
    let before = render(&input);
    let (b, o) = qquote_iter(&mut gen, 0, ts(input));
    fn restore(o: &[QTT], b: &[(Ident, TokenStream)]) -> String {
        let mut parts = Vec::new();
        for q in o {
            match q {
                QTT::TT(t) => parts.push(render(std::slice::from_ref(t))),
                QTT::QIdent(TokenTree::Token(_, Token::Ident(i))) => {
                    let v = b.iter().find(|(j, _)| j.mark == i.mark && j.name == i.name).unwrap();
                    parts.push(format!("unquote {}", render(&v.1.tts)));
                }
                QTT::QIdent(_) => panic!("placeholder is not an identifier"),
                QTT::QDL(d) => parts.push(format!("{{ {} }}", restore(&d.tts, b))),
            }
        }
        parts.join(" ")
    }
    assert_eq!(restore(&o, &b), before);
}

#[test]
fn bound_identifiers_are_fresh() {
    // The quote names `tmp` itself; the identifier bound to the unquoted
    // expression has the same text but a mark of its own.
    let mut gen = Gensym::new();
    let out = qquote(&mut gen, vec![ident("tmp"), ident("unquote"), ident("tmp")]);
    let r = render(&out);
    assert!(r.starts_with("{ let tmp#1 = tmp ; "));
    assert!(r.contains("str_to_ident ( \"tmp\" )"));
    assert!(r.contains("tmp#1 ]"));
}

#[test]
fn deep_quote_depth_is_accepted() {
    let mut gen = Gensym::new();
    let (b, o) = qquote_iter(&mut gen, i64::MAX, ts(vec![lit("1"), ident("unquote"), ident("x")]));
    assert!(b.is_empty());
    assert_eq!(render_qtts(&o), "TT(1) TT(unquote) TT(x)");
}

#[test]
fn nested_quote_keeps_unquote() {
    let mut gen = Gensym::new();
    let input = ts(vec![ident("qquote"), group(Delim::Paren, vec![ident("unquote"), ident("x")])]);
    let (b, o) = qquote_iter(&mut gen, 0, input);
    assert!(b.is_empty());
    assert_eq!(render_qtts(&o), "QDL[TT(unquote) TT(x)]");
    assert_eq!(gen.next, 1);
}

#[test]
fn quote_depth_is_lowered_by_unquote() {
    let mut gen = Gensym::new();
    // qquote unquote unquote y : the first unquote returns to depth 0.
    let input = ts(vec![ident("qquote"), ident("unquote"), ident("unquote"), ident("y")]);
    let (b, o) = qquote_iter(&mut gen, 0, input);
    assert_eq!(render_bindings(&b), "tmp#1 = y");
    assert_eq!(render_qtts(&o), "TT(unquote) QIdent(tmp#1)");
}

#[test]
fn trailing_unquote_ends_the_quote() {
    let mut gen = Gensym::new();
    let (b, o) = qquote_iter(&mut gen, 0, ts(vec![ident("a"), ident("unquote")]));
    assert!(b.is_empty());
    assert_eq!(render_qtts(&o), "TT(a)");
}

#[test]
fn unquote_at_positive_depth_stays() {
    let mut gen = Gensym::new();
    let (b, o) = qquote_iter(&mut gen, 2, ts(vec![ident("unquote"), ident("z")]));
    assert!(b.is_empty());
    assert_eq!(render_qtts(&o), "TT(unquote) TT(z)");
}

// ____________________________________________________________________________
// Building the code

#[test]
fn convert_single_token() {
    let mut gen = Gensym::new();
    let (b, code) = convert_complex_tts(&mut gen, vec![QTT::TT(lit("5"))]);
    assert!(b.is_empty());
    assert_eq!(
        render(&code.tts),
        format!("vec ! [ {} , ] . to_appendable ( )", token_code("Literal", "\"5\""))
    );
}

#[test]
fn convert_group_binds_its_code() {
    let mut gen = Gensym::new();
    let q = QTT::QDL(QDelimited {
        delim: Delim::Bracket,
        open_span: sp(),
        tts: vec![QTT::TT(punct(";"))],
        close_span: sp(),
    });
    let (b, code) = convert_complex_tts(&mut gen, vec![q]);
    assert_eq!(
        render_bindings(&b),
        format!("qdl_tmp#1 = vec ! [ {} , ] . to_appendable ( )", token_code("Punct", "\";\""))
    );
    assert_eq!(
        render(&code.tts),
        "vec ! [ TokenTree :: Delimited ( DUMMY_SP , Rc :: new ( Delimited { delim : token :: \
         DelimToken :: Bracket , open_span : DUMMY_SP , tts : qdl_tmp#1 , close_span : DUMMY_SP , } \
         ) ) , ] . to_appendable ( )"
    );
    assert_eq!(gen.next, 2);
}

#[test]
fn convert_placeholders_collect_in_output() {
    let mut gen = Gensym { next: 10 };
    let tmp = TokenTree::Token(sp(), Token::Ident(Ident { name: text("tmp"), mark: 9 }));
    let (b, code) = convert_complex_tts(&mut gen, vec![QTT::TT(ident("a")), QTT::QIdent(tmp)]);
    assert!(b.is_empty());
    assert_eq!(
        render(&code.tts),
        format!(
            "{{ let mut output : Vec < TokenTree > = Vec :: new ( ) ; ; output . append ( & mut vec ! [ \
             {} , ] . to_appendable ( ) ) ; output . append ( & mut vec ! [ tmp#9 ] . to_appendable \
             ( ) ) ; output . to_appendable ( ) }}",
            token_code("Ident", "str_to_ident ( \"a\" )")
        )
    );
}

#[test]
fn convert_nothing() {
    let mut gen = Gensym::new();
    let (b, code) = convert_complex_tts(&mut gen, Vec::new());
    assert!(b.is_empty());
    assert_eq!(
        render(&code.tts),
        "{ let mut output : Vec < TokenTree > = Vec :: new ( ) ; ; output . to_appendable ( ) }"
    );
}

#[test]
fn lone_placeholder_is_appended_directly() {
    let mut gen = Gensym { next: 4 };
    let tmp = TokenTree::Token(sp(), Token::Ident(Ident { name: text("tmp"), mark: 3 }));
    let (_, code) = convert_complex_tts(&mut gen, vec![QTT::QIdent(tmp)]);
    assert_eq!(
        render(&code.tts),
        "{ let mut output : Vec < TokenTree > = Vec :: new ( ) ; ; output . append ( & mut vec ! [ \
         tmp#3 ] . to_appendable ( ) ) ; output . to_appendable ( ) }"
    );
}

#[test]
fn unravel_binds_in_order() {
    let b = vec![
        (Ident { name: text("x"), mark: 1 }, ts(vec![lit("1")])),
        (Ident { name: text("y"), mark: 2 }, ts(vec![ident("x"), punct("+"), lit("2")])),
    ];
    assert_eq!(render(&unravel(b).tts), "let x#1 = 1 ; let y#2 = x + 2 ;");
    assert_eq!(render(&unravel(Vec::new()).tts), "");
}

#[test]
fn qquoter_without_bindings_is_just_the_code() {
    let mut gen = Gensym::new();
    let code = qquoter(&mut gen, ts(vec![lit("5")]));
    assert_eq!(
        render(&code.tts),
        format!("vec ! [ {} , ] . to_appendable ( )", token_code("Literal", "\"5\""))
    );
}

#[test]
fn qquote_binds_each_identifier_once() {
    let mut gen = Gensym::new();
    let input = vec![
        ident("unquote"),
        ident("e"),
        group(Delim::Paren, vec![ident("unquote"), ident("f")]),
    ];
    let out = qquote(&mut gen, input);
    let body = match &out[0] {
        TokenTree::Delimited(_, d) => &d.tts,
        _ => panic!(),
    };
    let mut marks = Vec::new();
    let mut i = 0;
    while i + 1 < body.len() {
        if let (TokenTree::Token(_, Token::Ident(l)), TokenTree::Token(_, Token::Ident(x))) =
            (&body[i], &body[i + 1])
        {
            if l.name == text("let") && l.mark == 0 {
                marks.push(x.mark);
            }
        }
        i += 1;
    }
    assert_eq!(marks, vec![1, 2, 3]);
    assert_eq!(gen.next, 4);
    assert!(render(body).starts_with("let tmp#1 = e ; let tmp#2 = f ; let qdl_tmp#3 = "));
}

// ____________________________________________________________________________
// Builders

#[test]
fn string_literal_escapes() {
    assert_eq!(string_literal(&text("a\"b\\c")).iter().collect::<String>(), "\"a\\\"b\\\\c\"");
    assert_eq!(string_literal(&text("")).iter().collect::<String>(), "\"\"");
}

#[test]
fn string_literals_of_different_texts_differ() {
    assert_ne!(string_literal(&text("\\\"")), string_literal(&text("\"")));
    assert_ne!(string_literal(&text("a\\")), string_literal(&text("a")));
}

#[test]
fn emitted_code_tells_tokens_apart() {
    let a = render(&emit_token(Token::Ident(id("a"))).tts);
    let b = render(&emit_token(Token::Literal(text("a"))).tts);
    let c = render(&emit_token(Token::Punct(text("a"))).tts);
    assert_eq!(a, token_code("Ident", "str_to_ident ( \"a\" )"));
    assert_eq!(b, token_code("Literal", "\"a\""));
    assert_eq!(c, token_code("Punct", "\"a\""));
    assert_ne!(a, b);
    assert_ne!(b, c);
}

#[test]
fn builders_make_their_forms() {
    let l = build_let(Ident { name: text("v"), mark: 2 }, ts(vec![lit("1")]));
    assert_eq!(render(&l.tts), "let v#2 = 1 ;");
    let c = build_mod_call(vec![id("a"), id("b"), id("c")], ts(vec![lit("1"), punct(","), lit("2")]));
    assert_eq!(render(&c.tts), "a :: b :: c ( 1 , 2 )");
    let m = build_method_call(id("o"), id("m"), ts(vec![]));
    assert_eq!(render(&m.tts), "o . m ( )");
    let p = build_push_vec(ts(vec![ident("x")]));
    assert_eq!(render(&p.tts), "vec ! [ x ]");
    let f = build_struct_field_assign(id("f"), ts(vec![lit("3")]));
    assert_eq!(render(&f.tts), "f : 3 ,");
    assert!(ident_eq(&ident("else"), str_to_ident(text("else"))));
    assert!(!ident_eq(&ident("els"), str_to_ident(text("else"))));
    assert!(!ident_eq(&lit("else"), str_to_ident(text("else"))));
}

#[test]
fn append_last_extends_the_last_segment() {
    let mut pushes: Vec<TokenStream> = Vec::new();
    append_last(&mut pushes, ts(vec![ident("a")]));
    assert_eq!(pushes.len(), 1);
    append_last(&mut pushes, ts(vec![ident("b")]));
    assert_eq!(pushes.len(), 1);
    assert_eq!(render(&pushes[0].tts), "a b");
    pushes.push(ts(vec![]));
    append_last(&mut pushes, ts(vec![ident("c")]));
    assert_eq!(pushes.len(), 2);
    assert_eq!(render(&pushes[1].tts), "c");
}

#[test]
fn gensym_hands_out_new_marks() {
    let mut gen = Gensym::new();
    let a = gen.fresh(text("t"));
    let b = gen.fresh(text("t"));
    assert_eq!((a.mark, b.mark), (1, 2));
    assert_eq!(gen.next, 3);
}

#[test]
fn copies_are_equal_in_structure() {
    let t = group(Delim::Brace, vec![ident("a"), group(Delim::Paren, vec![lit("1")])]);
    let c = t.copy();
    assert_eq!(render(std::slice::from_ref(&c)), "{ a ( 1 ) }");
    let s = TokenStream::concat(ts(vec![ident("a")]), ts(vec![ident("b")]));
    assert_eq!(s.len(), 2);
}

// ____________________________________________________________________________
// Splicing

#[test]
fn quotable_values_splice() {
    assert_eq!(render(&Token::Punct(text("+")).to_appendable()), "+");
    assert_eq!(render(&ident("x").to_appendable()), "x");
    assert_eq!(render(&vec![ident("x"), ident("y")].to_appendable()), "x y");
    assert_eq!(render(&ts(vec![lit("1")]).to_appendable()), "1");
}

// ____________________________________________________________________________
// Example macros

#[test]
fn double_adds_the_expression_to_itself() {
    assert_eq!(render(&double(vec![lit("5")])), "{ ( 5 ) + ( 5 ) }");
    assert_eq!(render(&double(vec![])), "{ ( ) + ( ) }");
}

#[test]
fn double2_multiplies_by_two() {
    assert_eq!(render(&double2(vec![ident("n"), punct("-"), lit("1")])), "{ n - 1 * 2 }");
}

#[test]
fn cond_of_nothing_is_nothing() {
    assert_eq!(render(&cond_rec(vec![])), "");
}

#[test]
fn cond_else_clause_is_its_rhs() {
    let clause = group(Delim::Paren, vec![ident("else"), punct(","), lit("1")]);
    let more = group(Delim::Paren, vec![ident("x"), lit("2")]);
    assert_eq!(render(&cond_rec(vec![clause, more])), "{ 1 }");
}

#[test]
fn cond_rhs_may_hold_commas() {
    let clause = group(Delim::Paren, vec![ident("t"), punct(","), lit("1"), punct(","), lit("2")]);
    assert_eq!(render(&cond_rec(vec![clause])), "{ 1 , 2 }");
}

#[test]
fn cond_last_clause_is_its_rhs() {
    let clause = group(Delim::Paren, vec![group(Delim::Paren, vec![ident("b")]), lit("1")]);
    assert_eq!(render(&cond_rec(vec![clause])), "{ 1 }");
}

#[test]
fn cond_nests_ifs() {
    // ((n == 0), 1) (else, 2), as in the documented example.
    let c1 = group(
        Delim::Paren,
        vec![group(Delim::Paren, vec![ident("n"), punct("=="), lit("0")]), punct(","), lit("1")],
    );
    let c2 = group(Delim::Paren, vec![ident("else"), punct(","), lit("2")]);
    assert_eq!(
        render(&cond_rec(vec![c1, c2])),
        "{ if ( n == 0 ) { 1 } else { cond ! ( ( else , 2 ) ) } }"
    );
    // The rest of that expansion expands to the last right-hand side.
    let c2 = group(Delim::Paren, vec![ident("else"), punct(","), lit("2")]);
    assert_eq!(render(&cond_rec(vec![c2])), "{ 2 }");
}

// ____________________________________________________________________________
// Running the generated code

fn group_inner(t: &TokenTree) -> &[TokenTree] {
    match t {
        TokenTree::Delimited(_, d) => &d.tts,
        _ => &[],
    }
}

fn tok_text(t: &TokenTree) -> String {
    match t {
        TokenTree::Token(_, tok) => match tok {
            Token::Ident(i) => i.name.iter().collect(),
            Token::Literal(l) => l.iter().collect(),
            Token::Punct(p) => p.iter().collect(),
        },
        _ => String::new(),
    }
}

fn string_value(lit: &str) -> String {
    let cs: Vec<char> = lit.chars().collect();
    let mut out = String::new();
    let mut i = 1;
    while i + 1 < cs.len() {
        if cs[i] == '\\' {
            i += 1;
        }
        out.push(cs[i]);
        i += 1;
    }
    out
}

/// The tree that the code of one item builds.
fn run_item(c: &[TokenTree], groups: &[(u64, String)]) -> String {
    if tok_text(&c[2]) == "Token" {
        let inner = group_inner(&c[3]);
        let kind = tok_text(&inner[4]);
        let arg = group_inner(&inner[5]);
        if kind == "Ident" {
            string_value(&tok_text(&group_inner(&arg[1])[0]))
        } else {
            string_value(&tok_text(&arg[0]))
        }
    } else {
        let fields = group_inner(&group_inner(&group_inner(&c[3])[5])[1]);
        let (o, cl) = match tok_text(&fields[6]).as_str() {
            "Paren" => ("(", ")"),
            "Brace" => ("{", "}"),
            _ => ("[", "]"),
        };
        let mark = match &fields[14] {
            TokenTree::Token(_, Token::Ident(i)) => i.mark,
            _ => panic!("no group identifier"),
        };
        let v = &groups.iter().find(|(m, _)| *m == mark).unwrap().1;
        if v.is_empty() { format!("{} {}", o, cl) } else { format!("{} {} {}", o, v, cl) }
    }
}

fn run_items(x: &[TokenTree], groups: &[(u64, String)]) -> Vec<String> {
    x.chunks(5).map(|c| run_item(&c[..4], groups)).collect()
}

fn run_seg(seg: &[TokenTree], vals: &[(u64, &str)], groups: &[(u64, String)]) -> Vec<String> {
    if seg.len() == 1 {
        let mark = match &seg[0] {
            TokenTree::Token(_, Token::Ident(i)) => i.mark,
            _ => panic!("not a placeholder"),
        };
        vec![vals.iter().find(|(m, _)| *m == mark).unwrap().1.to_string()]
    } else {
        run_items(seg, groups)
    }
}

/// What the code of a quote builds, as text.
fn run_code(code: &[TokenTree], vals: &[(u64, &str)], groups: &[(u64, String)]) -> String {
    let parts = if code.len() == 1 {
        let body = group_inner(&code[0]);
        let stmts = &body[15..body.len() - 4];
        stmts
            .chunks(5)
            .flat_map(|st| run_seg(group_inner(&group_inner(&st[3])[4]), vals, groups))
            .collect::<Vec<_>>()
    } else {
        run_items(group_inner(&code[2]), groups)
    };
    parts.join(" ")
}

#[test]
fn generated_code_rebuilds_the_quote() {
    // a ( b unquote x [ c ] ) d, with the placeholder for x holding `42`.
    let mut gen = Gensym::new();
    let input = ts(vec![
        ident("a"),
        group(Delim::Paren, vec![ident("b"), ident("unquote"), ident("x"), group(Delim::Bracket, vec![punct("\"")])]),
        lit("\"d\\\"\""),
    ]);
    let (b1, o) = qquote_iter(&mut gen, 0, input);
    assert_eq!(render_bindings(&b1), "tmp#1 = x");
    let (b2, code) = convert_complex_tts(&mut gen, o);
    // Run the lets of the groups in order, then the code.
    let vals = [(1u64, "42")];
    let mut groups: Vec<(u64, String)> = Vec::new();
    for (id, c) in &b2 {
        let v = run_code(&c.tts, &vals, &groups);
        groups.push((id.mark, v));
    }
    assert_eq!(run_code(&code.tts, &vals, &groups), "a ( b 42 [ \" ] ) \"d\\\"\"");
}

#[test]
fn unravel_of_joined_bindings_joins_the_lets() {
    let both = vec![
        (Ident { name: text("a"), mark: 1 }, ts(vec![lit("1")])),
        (Ident { name: text("b"), mark: 2 }, ts(vec![lit("2")])),
    ];
    let first = vec![(Ident { name: text("a"), mark: 1 }, ts(vec![lit("1")]))];
    let second = vec![(Ident { name: text("b"), mark: 2 }, ts(vec![lit("2")]))];
    let joined = format!("{} {}", render(&unravel(first).tts), render(&unravel(second).tts));
    assert_eq!(render(&unravel(both).tts), joined);
}
