// Each test expands a quote with the library, runs the expansion (the `let`s
// it binds and the code that builds the token trees), and reads the value of
// the expression that those trees spell.

use qquote::quasi::qquote;
use qquote::qtt::Gensym;
use qquote::token::{Delim, Delimited, Ident, Span, Token, TokenTree};

fn sp() -> Span {
    Span { lo: 3, hi: 7 }
}

fn text(s: &str) -> Vec<char> {
    s.chars().collect()
}

fn ident(s: &str) -> TokenTree {
    TokenTree::Token(sp(), Token::Ident(Ident { name: text(s), mark: 0 }))
}

fn lit(s: &str) -> TokenTree {
    TokenTree::Token(sp(), Token::Literal(text(s)))
}

fn paren(tts: Vec<TokenTree>) -> TokenTree {
    TokenTree::Delimited(
        sp(),
        Delimited { delim: Delim::Paren, open_span: sp(), tts, close_span: sp() },
    )
}

fn group_inner(t: &TokenTree) -> &[TokenTree] {
    match t {
        TokenTree::Delimited(_, d) => &d.tts,
        _ => &[],
    }
}

fn tok_text(t: &TokenTree) -> String {
    match t {
        TokenTree::Token(_, Token::Ident(i)) => i.name.iter().collect(),
        TokenTree::Token(_, Token::Literal(l)) => l.iter().collect(),
        TokenTree::Token(_, Token::Punct(p)) => p.iter().collect(),
        _ => String::new(),
    }
}

fn mark_of(t: &TokenTree) -> u64 {
    match t {
        TokenTree::Token(_, Token::Ident(i)) => i.mark,
        _ => panic!("not an identifier"),
    }
}

/// The value of a string literal given by its source text.
fn unescape(lit: &str) -> String {
    let cs: Vec<char> = lit.chars().collect();
    assert!(cs.len() >= 2 && cs[0] == '"' && cs[cs.len() - 1] == '"');
    let mut out = String::new();
    let mut i = 1;
    while i + 1 < cs.len() {
        if cs[i] == '\\' {
            i += 1;
        }
        out.push(cs[i]);
        i += 1;
    }
    out
}

/// The tree (as source text) that the code of one item builds.
fn run_item(c: &[TokenTree], groups: &[(u64, String)]) -> String {
    if tok_text(&c[2]) == "Token" {
        let inner = group_inner(&c[3]);
        let arg = group_inner(&inner[5]);
        if tok_text(&inner[4]) == "Ident" {
            unescape(&tok_text(&group_inner(&arg[1])[0]))
        } else {
            unescape(&tok_text(&arg[0]))
        }
    } else {
        let fields = group_inner(&group_inner(&group_inner(&c[3])[5])[1]);
        let (o, cl) = match tok_text(&fields[6]).as_str() {
            "Paren" => ("(", ")"),
            "Brace" => ("{", "}"),
            _ => ("[", "]"),
        };
        let v = &groups.iter().find(|(m, _)| *m == mark_of(&fields[14])).unwrap().1;
        format!("{} {} {}", o, v, cl)
    }
}

fn run_items(x: &[TokenTree], groups: &[(u64, String)]) -> Vec<String> {
    x.chunks(5).map(|c| run_item(&c[..4], groups)).collect()
}

fn run_seg(seg: &[TokenTree], vals: &[(u64, String)], groups: &[(u64, String)]) -> Vec<String> {
    if seg.len() == 1 {
        vec![vals.iter().find(|(m, _)| *m == mark_of(&seg[0])).unwrap().1.clone()]
    } else {
        run_items(seg, groups)
    }
}

/// The trees (as source text) that the code of a quote builds.
fn run_code(code: &[TokenTree], vals: &[(u64, String)], groups: &[(u64, String)]) -> Vec<String> {
    if code.len() == 1 {
        let body = group_inner(&code[0]);
        body[15..body.len() - 4]
            .chunks(5)
            .flat_map(|st| run_seg(group_inner(&group_inner(&st[3])[4]), vals, groups))
            .collect()
    } else {
        run_items(group_inner(&code[2]), groups)
    }
}

/// The token tree that an unquoted expression evaluates to: a variable's
/// value, looked up in `env`, or that of the expression in parentheses.
fn eval_unquoted(e: &[TokenTree], env: &[(&str, &str)]) -> String {
    match e {
        [TokenTree::Delimited(_, d)] => eval_unquoted(&d.tts, env),
        [t] => env.iter().find(|(n, _)| *n == tok_text(t)).unwrap().1.to_string(),
        _ => panic!("unsupported expression"),
    }
}

/// Runs the expansion of `qquote!(input)`: its `let`s in order, then the
/// code that builds the trees.
fn run_expansion(input: Vec<TokenTree>, env: &[(&str, &str)]) -> Vec<String> {
    let mut gen = Gensym::new();
    let out = qquote(&mut gen, input);
    let mut body = group_inner(&out[0]);
    let mut vals: Vec<(u64, String)> = Vec::new();
    let mut groups: Vec<(u64, String)> = Vec::new();
    while body.len() > 3 && tok_text(&body[0]) == "let" {
        let end = body.iter().position(|t| tok_text(t) == ";").unwrap();
        let (id, e) = (&body[1], &body[3..end]);
        if tok_text(id) == "tmp" {
            vals.push((mark_of(id), eval_unquoted(e, env)));
        } else {
            let v = run_code(e, &vals, &groups).join(" ");
            groups.push((mark_of(id), v));
        }
        body = &body[end + 1..];
    }
    run_code(body, &vals, &groups)
}

/// The value of the expression that the trees spell: a literal's value or
/// a variable's.
fn value(trees: Vec<String>, env: &[(&str, &str)]) -> String {
    assert_eq!(trees.len(), 1);
    let t = &trees[0];
    if t.starts_with('"') {
        unescape(t)
    } else if let Some((_, v)) = env.iter().find(|(n, _)| n == t) {
        v.to_string()
    } else {
        t.clone()
    }
}

#[test]
fn test_lit_1() -> () {
    let q: i32 = value(run_expansion(vec![lit("5")], &[]), &[]).parse().unwrap();
    assert_eq!(5 + q, 10)
}

#[test]
fn test_lit_2() -> () {
    let q: f64 = value(run_expansion(vec![lit("5.1")], &[]), &[]).parse().unwrap();
    assert_eq!(5.1 + q, 10.2)
}

#[test]
fn test_lit_3() -> () {
    assert_eq!(value(run_expansion(vec![lit("\"foo\"")], &[]), &[]), "foo")
}

#[test]
#[should_panic]
fn test_lit_4() -> () {
    assert_eq!(value(run_expansion(vec![lit("\"foob\"")], &[]), &[]), "foo")
}

#[test]
fn test_ident_1() -> () {
    let env = [("foo", "5")];
    let res: i32 = value(run_expansion(vec![ident("foo")], &env), &env).parse().unwrap();
    assert_eq!(res, 5)
}

#[test]
fn test_ident_2() -> () {
    let env = [("foo", "5")];
    let trees = run_expansion(vec![ident("unquote"), paren(vec![ident("foo")])], &env);
    let res: i32 = value(trees, &env).parse().unwrap();
    assert_eq!(res, 5)
}

#[test]
fn test_add() -> () {
    let env = [("foo", "5")];
    let trees = run_expansion(vec![ident("unquote"), paren(vec![ident("foo")])], &env);
    let res: i32 = value(trees, &env).parse().unwrap();
    assert_eq!(res, 5)
}
