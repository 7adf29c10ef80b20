//! What holds of the quasi-quoter as a whole: reading a quote loses
//! nothing and can be undone, every identifier it binds is fresh and bound
//! once, and the text of each quoted token can be read back from its code.
use vstd::prelude::*;

use crate::builder::{word_tree, emit_arg, emit_kind, escaped, ident_tree, spec_emit_token, str_lit, word_text, Word};
use crate::convert::{spec_convert, spec_segments, spec_unravel};
use crate::meaning::{lemma_kind_words, lemma_unescaped_escaped};
use crate::qtt::{SpecBinding, SpecQtt};
use crate::quasi::{is_quote_tree, is_unquote_tree, spec_qquote_iter};
use crate::token::{tree_marks_below, trees_marks_below, spec_dummy_sp, SpecIdent, SpecToken, SpecTree};

verus! {

// ____________________________________________________________________________
// Bindings as an environment

/// Whether some binding binds `id`.
pub open spec fn bound(b: Seq<SpecBinding>, id: SpecIdent) -> bool {
    exists|j: int| 0 <= j < b.len() && #[trigger] b[j].0 == id
}

/// The value of the first binding of `id`; nothing where `id` is unbound.
pub open spec fn lookup(b: Seq<SpecBinding>, id: SpecIdent) -> Seq<SpecTree>
    decreases b.len(),
{
    if b.len() == 0 {
        Seq::empty()
    } else if b[0].0 == id {
        b[0].1
    } else {
        lookup(b.skip(1), id)
    }
}

/// The marks of the bound identifiers lie in `lo .. hi`.
pub open spec fn marks_in(b: Seq<SpecBinding>, lo: nat, hi: nat) -> bool {
    forall|j: int| 0 <= j < b.len() ==> lo <= #[trigger] b[j].0.mark < hi
}

/// No two bindings have identifiers with the same mark, so no identifier is
/// bound twice.
pub open spec fn distinct_marks(b: Seq<SpecBinding>) -> bool {
    forall|i: int, j: int|
        0 <= i < b.len() && 0 <= j < b.len() && i != j ==> #[trigger] b[i].0.mark
            != #[trigger] b[j].0.mark
}

/// Every placeholder of `o` is an identifier bound in `b`, with a mark in
/// `lo .. hi`.
pub open spec fn refs_ok(o: Seq<SpecQtt>, b: Seq<SpecBinding>, lo: nat, hi: nat) -> bool
    decreases o, 0nat,
{
    if o.len() == 0 {
        true
    } else {
        ref_ok(o[0], b, lo, hi) && refs_ok(o.skip(1), b, lo, hi)
    }
}

pub open spec fn ref_ok(q: SpecQtt, b: Seq<SpecBinding>, lo: nat, hi: nat) -> bool
    decreases q, 1nat,
{
    match q {
        SpecQtt::TT(_) => true,
        SpecQtt::QDL(_, _, inner, _) => refs_ok(inner, b, lo, hi),
        SpecQtt::QIdent(t) => t matches SpecTree::Token(_, SpecToken::Ident(id)) && bound(b, id)
            && lo <= id.mark < hi,
    }
}

/// The trees of `o` with each placeholder replaced by the value bound to
/// it in `b` and each group rebuilt.
pub open spec fn plug(o: Seq<SpecQtt>, b: Seq<SpecBinding>) -> Seq<SpecTree>
    decreases o, 0nat,
{
    if o.len() == 0 {
        Seq::empty()
    } else {
        plug_one(o[0], b) + plug(o.skip(1), b)
    }
}

pub open spec fn plug_one(q: SpecQtt, b: Seq<SpecBinding>) -> Seq<SpecTree>
    decreases q, 1nat,
{
    match q {
        SpecQtt::TT(t) => seq![t],
        SpecQtt::QDL(d, os, inner, cs) => seq![
            SpecTree::Delimited(spec_dummy_sp(), d, os, plug(inner, b), cs),
        ],
        SpecQtt::QIdent(t) => match t {
            SpecTree::Token(_, SpecToken::Ident(id)) => lookup(b, id),
            _ => seq![t],
        },
    }
}

/// The quote `s`, read at quote depth `depth`, without its markers: each
/// tree unquoted at depth 0 stands as it is in place of its `unquote`, each
/// `qquote` is dropped, an `unquote` at a higher depth stays, and each group
/// is rebuilt.
pub open spec fn strip(depth: int, s: Seq<SpecTree>) -> Seq<SpecTree>
    decreases s,
{
    if s.len() == 0 {
        Seq::empty()
    } else if is_unquote_tree(s[0]) {
        if depth == 0 {
            if s.len() == 1 {
                Seq::empty()
            } else {
                seq![s[1]] + strip(0, s.skip(2))
            }
        } else {
            seq![s[0]] + strip(depth - 1, s.skip(1))
        }
    } else if is_quote_tree(s[0]) {
        strip(depth + 1, s.skip(1))
    } else {
        match s[0] {
            SpecTree::Delimited(_, d, os, inner, cs) => seq![
                SpecTree::Delimited(spec_dummy_sp(), d, os, strip(depth, inner), cs),
            ] + strip(depth, s.skip(1)),
            _ => seq![s[0]] + strip(depth, s.skip(1)),
        }
    }
}

// ____________________________________________________________________________
// Lemmas on environments

proof fn lemma_lookup_prefix(b1: Seq<SpecBinding>, b2: Seq<SpecBinding>, id: SpecIdent)
    requires
        bound(b1, id),
    ensures
        lookup(b1 + b2, id) == lookup(b1, id),
    decreases b1.len(),
{
    if b1[0].0 != id {
        let j = choose|j: int| 0 <= j < b1.len() && #[trigger] b1[j].0 == id;
        assert(b1.skip(1)[j - 1].0 == id);
        lemma_lookup_prefix(b1.skip(1), b2, id);
        assert((b1 + b2).skip(1) =~= b1.skip(1) + b2);
    }
}

proof fn lemma_lookup_suffix(b1: Seq<SpecBinding>, b2: Seq<SpecBinding>, id: SpecIdent)
    requires
        !bound(b1, id),
    ensures
        lookup(b1 + b2, id) == lookup(b2, id),
    decreases b1.len(),
{
    if b1.len() == 0 {
        assert(b1 + b2 =~= b2);
    } else {
        assert(b1[0].0 != id);
        assert forall|j: int| 0 <= j < b1.skip(1).len() implies #[trigger] b1.skip(1)[j].0
            != id by {
            assert(b1.skip(1)[j] == b1[j + 1]);
        }
        lemma_lookup_suffix(b1.skip(1), b2, id);
        assert((b1 + b2).skip(1) =~= b1.skip(1) + b2);
    }
}

/// `plug` only reads the values of the identifiers that `o` refers to.
proof fn lemma_plug_frame(o: Seq<SpecQtt>, b1: Seq<SpecBinding>, b2: Seq<SpecBinding>, lo: nat, hi: nat)
    requires
        refs_ok(o, b1, lo, hi),
        forall|id: SpecIdent| bound(b1, id) ==> #[trigger] lookup(b2, id) == lookup(b1, id),
    ensures
        plug(o, b1) == plug(o, b2),
    decreases o, 0nat,
{
    if o.len() > 0 {
        lemma_plug_one_frame(o[0], b1, b2, lo, hi);
        lemma_plug_frame(o.skip(1), b1, b2, lo, hi);
    }
}

proof fn lemma_plug_one_frame(q: SpecQtt, b1: Seq<SpecBinding>, b2: Seq<SpecBinding>, lo: nat, hi: nat)
    requires
        ref_ok(q, b1, lo, hi),
        forall|id: SpecIdent| bound(b1, id) ==> #[trigger] lookup(b2, id) == lookup(b1, id),
    ensures
        plug_one(q, b1) == plug_one(q, b2),
    decreases q, 1nat,
{
    match q {
        SpecQtt::QDL(_, _, inner, _) => {
            lemma_plug_frame(inner, b1, b2, lo, hi);
        },
        _ => {},
    }
}

/// What `refs_ok` asks of the bindings still holds of more bindings and a
/// wider range of marks.
proof fn lemma_refs_widen(
    o: Seq<SpecQtt>,
    b1: Seq<SpecBinding>,
    b2: Seq<SpecBinding>,
    lo: nat,
    hi: nat,
    lo2: nat,
    hi2: nat,
)
    requires
        refs_ok(o, b1, lo, hi),
        forall|id: SpecIdent| bound(b1, id) ==> #[trigger] bound(b2, id),
        lo2 <= lo,
        hi <= hi2,
    ensures
        refs_ok(o, b2, lo2, hi2),
    decreases o, 0nat,
{
    if o.len() > 0 {
        lemma_ref_widen(o[0], b1, b2, lo, hi, lo2, hi2);
        lemma_refs_widen(o.skip(1), b1, b2, lo, hi, lo2, hi2);
    }
}

proof fn lemma_ref_widen(
    q: SpecQtt,
    b1: Seq<SpecBinding>,
    b2: Seq<SpecBinding>,
    lo: nat,
    hi: nat,
    lo2: nat,
    hi2: nat,
)
    requires
        ref_ok(q, b1, lo, hi),
        forall|id: SpecIdent| bound(b1, id) ==> #[trigger] bound(b2, id),
        lo2 <= lo,
        hi <= hi2,
    ensures
        ref_ok(q, b2, lo2, hi2),
    decreases q, 1nat,
{
    match q {
        SpecQtt::QDL(_, _, inner, _) => {
            lemma_refs_widen(inner, b1, b2, lo, hi, lo2, hi2);
        },
        _ => {},
    }
}

proof fn lemma_refs_cons(q: SpecQtt, o: Seq<SpecQtt>, b: Seq<SpecBinding>, lo: nat, hi: nat)
    requires
        ref_ok(q, b, lo, hi),
        refs_ok(o, b, lo, hi),
    ensures
        refs_ok(seq![q] + o, b, lo, hi),
{
    assert((seq![q] + o)[0] == q);
    assert((seq![q] + o).skip(1) =~= o);
}

proof fn lemma_plug_cons(q: SpecQtt, o: Seq<SpecQtt>, b: Seq<SpecBinding>)
    ensures
        plug(seq![q] + o, b) == plug_one(q, b) + plug(o, b),
{
    assert((seq![q] + o)[0] == q);
    assert((seq![q] + o).skip(1) =~= o);
}

proof fn lemma_bound_concat(b1: Seq<SpecBinding>, b2: Seq<SpecBinding>, id: SpecIdent)
    ensures
        bound(b1 + b2, id) <==> bound(b1, id) || bound(b2, id),
{
    if bound(b1 + b2, id) {
        let j = choose|j: int| 0 <= j < (b1 + b2).len() && #[trigger] (b1 + b2)[j].0 == id;
        if j < b1.len() {
            assert(b1[j] == (b1 + b2)[j]);
        } else {
            assert(b2[j - b1.len()] == (b1 + b2)[j]);
        }
    }
    if bound(b1, id) {
        let j = choose|j: int| 0 <= j < b1.len() && #[trigger] b1[j].0 == id;
        assert((b1 + b2)[j] == b1[j]);
    }
    if bound(b2, id) {
        let j = choose|j: int| 0 <= j < b2.len() && #[trigger] b2[j].0 == id;
        assert((b1 + b2)[b1.len() + j] == b2[j]);
    }
}

proof fn lemma_marks_concat(b1: Seq<SpecBinding>, b2: Seq<SpecBinding>, lo1: nat, hi1: nat, lo2: nat, hi2: nat)
    requires
        marks_in(b1, lo1, hi1),
        marks_in(b2, lo2, hi2),
        distinct_marks(b1),
        distinct_marks(b2),
        hi1 <= lo2 || hi2 <= lo1,
    ensures
        marks_in(b1 + b2, if lo1 <= lo2 { lo1 } else { lo2 }, if hi1 <= hi2 { hi2 } else { hi1 }),
        distinct_marks(b1 + b2),
{
    let b = b1 + b2;
    assert forall|i: int, j: int|
        0 <= i < b.len() && 0 <= j < b.len() && i != j implies #[trigger] b[i].0.mark
        != #[trigger] b[j].0.mark by {
        if i < b1.len() && j < b1.len() {
            assert(b[i] == b1[i] && b[j] == b1[j]);
        } else if i >= b1.len() && j >= b1.len() {
            assert(b[i] == b2[i - b1.len()] && b[j] == b2[j - b1.len()]);
        } else if i < b1.len() {
            assert(b[i] == b1[i] && b[j] == b2[j - b1.len()]);
        } else {
            assert(b[j] == b1[j] && b[i] == b2[i - b1.len()]);
        }
    }
    assert forall|j: int| 0 <= j < b.len() implies (if lo1 <= lo2 { lo1 } else { lo2 })
        <= #[trigger] b[j].0.mark < (if hi1 <= hi2 { hi2 } else { hi1 }) by {
        if j < b1.len() {
            assert(b[j] == b1[j]);
        } else {
            assert(b[j] == b2[j - b1.len()]);
        }
    }
}

proof fn lemma_marks_unbound(b: Seq<SpecBinding>, lo: nat, hi: nat, id: SpecIdent)
    requires
        marks_in(b, lo, hi),
        id.mark < lo || hi <= id.mark,
    ensures
        !bound(b, id),
{
    if bound(b, id) {
        let j = choose|j: int| 0 <= j < b.len() && #[trigger] b[j].0 == id;
        assert(lo <= b[j].0.mark < hi);
    }
}

// ____________________________________________________________________________
// Reading a quote

/// What reading a quote gives: bindings with distinct marks in
/// `m .. k`, and placeholders that each refer to one of them.
pub open spec fn read_ok(r: (Seq<SpecBinding>, Seq<SpecQtt>, nat), m: nat) -> bool {
    &&& m <= r.2
    &&& marks_in(r.0, m, r.2)
    &&& distinct_marks(r.0)
    &&& refs_ok(r.1, r.0, m, r.2)
}

proof fn lemma_qq_cons_tt(t: SpecTree, r: (Seq<SpecBinding>, Seq<SpecQtt>, nat), m: nat)
    requires
        read_ok(r, m),
    ensures
        read_ok((r.0, seq![SpecQtt::TT(t)] + r.1, r.2), m),
{
    lemma_refs_cons(SpecQtt::TT(t), r.1, r.0, m, r.2);
}

/// Each unquoted expression gets an identifier of its own, and every
/// placeholder that reading a quote leaves refers to one of its bindings.
pub proof fn law_qquote_iter_bindings(depth: int, s: Seq<SpecTree>, m: nat)
    ensures
        read_ok(spec_qquote_iter(depth, s, m), m),
    decreases s,
{
    let r = spec_qquote_iter(depth, s, m);
    if s.len() == 0 {
        return;
    }
    let t = s[0];
    if is_unquote_tree(t) {
        if depth == 0 {
            if s.len() > 1 {
                law_qquote_iter_bindings(0, s.skip(2), m + 1);
                let r2 = spec_qquote_iter(0, s.skip(2), m + 1);
                let id = SpecIdent { name: word_text(Word::Tmp), mark: m };
                let x = seq![(id, seq![s[1]])];
                lemma_marks_concat(x, r2.0, m, m + 1, m + 1, r2.2);
                assert forall|i: SpecIdent| bound(r2.0, i) implies #[trigger] bound(x + r2.0, i) by {
                    lemma_bound_concat(x, r2.0, i);
                }
                lemma_refs_widen(r2.1, r2.0, x + r2.0, m + 1, r2.2, m, r2.2);
                assert((x + r2.0)[0].0 == id);
                assert(bound(x + r2.0, id));
                lemma_refs_cons(SpecQtt::QIdent(ident_tree(id)), r2.1, x + r2.0, m, r2.2);
            }
        } else {
            law_qquote_iter_bindings(depth - 1, s.skip(1), m);
            lemma_qq_cons_tt(t, spec_qquote_iter(depth - 1, s.skip(1), m), m);
        }
    } else if is_quote_tree(t) {
        law_qquote_iter_bindings(depth + 1, s.skip(1), m);
    } else {
        match t {
            SpecTree::Delimited(_, d, os, inner, cs) => {
                law_qquote_iter_bindings(depth, inner, m);
                let r1 = spec_qquote_iter(depth, inner, m);
                law_qquote_iter_bindings(depth, s.skip(1), r1.2);
                let r2 = spec_qquote_iter(depth, s.skip(1), r1.2);
                lemma_marks_concat(r1.0, r2.0, m, r1.2, r1.2, r2.2);
                assert forall|i: SpecIdent| bound(r1.0, i) implies #[trigger] bound(r1.0 + r2.0, i) by {
                    lemma_bound_concat(r1.0, r2.0, i);
                }
                assert forall|i: SpecIdent| bound(r2.0, i) implies #[trigger] bound(r1.0 + r2.0, i) by {
                    lemma_bound_concat(r1.0, r2.0, i);
                }
                lemma_refs_widen(r1.1, r1.0, r1.0 + r2.0, m, r1.2, m, r2.2);
                lemma_refs_widen(r2.1, r2.0, r1.0 + r2.0, r1.2, r2.2, m, r2.2);
                lemma_refs_cons(SpecQtt::QDL(d, os, r1.1, cs), r2.1, r1.0 + r2.0, m, r2.2);
            },
            _ => {
                law_qquote_iter_bindings(depth, s.skip(1), m);
                lemma_qq_cons_tt(t, spec_qquote_iter(depth, s.skip(1), m), m);
            },
        }
    }
}

/// Reading a quote loses nothing: putting back, for each placeholder, the
/// expression bound to it gives the quote without its markers.
pub proof fn law_qquote_iter_roundtrip(depth: int, s: Seq<SpecTree>, m: nat)
    ensures
        plug(spec_qquote_iter(depth, s, m).1, spec_qquote_iter(depth, s, m).0) == strip(depth, s),
    decreases s,
{
    if s.len() == 0 {
        return;
    }
    let t = s[0];
    if is_unquote_tree(t) {
        if depth == 0 {
            if s.len() > 1 {
                law_qquote_iter_roundtrip(0, s.skip(2), m + 1);
                law_qquote_iter_bindings(0, s.skip(2), m + 1);
                let r2 = spec_qquote_iter(0, s.skip(2), m + 1);
                let id = SpecIdent { name: word_text(Word::Tmp), mark: m };
                let x = seq![(id, seq![s[1]])];
                let b = x + r2.0;
                assert(b[0].0 == id);
                assert(b.skip(1) =~= r2.0);
                assert forall|i: SpecIdent| bound(r2.0, i) implies #[trigger] lookup(b, i)
                    == lookup(r2.0, i) by {
                    let j = choose|j: int| 0 <= j < r2.0.len() && #[trigger] r2.0[j].0 == i;
                    assert(m + 1 <= r2.0[j].0.mark);
                }
                lemma_plug_frame(r2.1, r2.0, b, m + 1, r2.2);
                lemma_plug_cons(SpecQtt::QIdent(ident_tree(id)), r2.1, b);
            }
        } else {
            law_qquote_iter_roundtrip(depth - 1, s.skip(1), m);
            let r = spec_qquote_iter(depth - 1, s.skip(1), m);
            lemma_plug_cons(SpecQtt::TT(t), r.1, r.0);
        }
    } else if is_quote_tree(t) {
        law_qquote_iter_roundtrip(depth + 1, s.skip(1), m);
    } else {
        match t {
            SpecTree::Delimited(_, d, os, inner, cs) => {
                law_qquote_iter_roundtrip(depth, inner, m);
                law_qquote_iter_bindings(depth, inner, m);
                let r1 = spec_qquote_iter(depth, inner, m);
                law_qquote_iter_roundtrip(depth, s.skip(1), r1.2);
                law_qquote_iter_bindings(depth, s.skip(1), r1.2);
                let r2 = spec_qquote_iter(depth, s.skip(1), r1.2);
                let b = r1.0 + r2.0;
                assert forall|i: SpecIdent| bound(r1.0, i) implies #[trigger] lookup(b, i)
                    == lookup(r1.0, i) by {
                    lemma_lookup_prefix(r1.0, r2.0, i);
                }
                assert forall|i: SpecIdent| bound(r2.0, i) implies #[trigger] lookup(b, i)
                    == lookup(r2.0, i) by {
                    let j = choose|j: int| 0 <= j < r2.0.len() && #[trigger] r2.0[j].0 == i;
                    assert(r1.2 <= r2.0[j].0.mark);
                    lemma_marks_unbound(r1.0, m, r1.2, i);
                    lemma_lookup_suffix(r1.0, r2.0, i);
                }
                lemma_plug_frame(r1.1, r1.0, b, m, r1.2);
                lemma_plug_frame(r2.1, r2.0, b, r1.2, r2.2);
                lemma_plug_cons(SpecQtt::QDL(d, os, r1.1, cs), r2.1, b);
            },
            _ => {
                law_qquote_iter_roundtrip(depth, s.skip(1), m);
                let r = spec_qquote_iter(depth, s.skip(1), m);
                lemma_plug_cons(SpecQtt::TT(t), r.1, r.0);
            },
        }
    }
}

/// The trees of `o` with each placeholder replaced by `unquote` and the
/// expression bound to it in `b`, and each group rebuilt.
pub open spec fn restore(o: Seq<SpecQtt>, b: Seq<SpecBinding>) -> Seq<SpecTree>
    decreases o, 0nat,
{
    if o.len() == 0 {
        Seq::empty()
    } else {
        restore_one(o[0], b) + restore(o.skip(1), b)
    }
}

pub open spec fn restore_one(q: SpecQtt, b: Seq<SpecBinding>) -> Seq<SpecTree>
    decreases q, 1nat,
{
    match q {
        SpecQtt::TT(t) => seq![t],
        SpecQtt::QDL(d, os, inner, cs) => seq![
            SpecTree::Delimited(spec_dummy_sp(), d, os, restore(inner, b), cs),
        ],
        SpecQtt::QIdent(t) => match t {
            SpecTree::Token(_, SpecToken::Ident(id)) => seq![word_tree(Word::Unquote)] + lookup(
                b,
                id,
            ),
            _ => seq![t],
        },
    }
}

/// A tree with every span the dummy one.
pub open spec fn unspan_tree(t: SpecTree) -> SpecTree
    decreases t, 1nat,
{
    match t {
        SpecTree::Token(_, tok) => SpecTree::Token(spec_dummy_sp(), tok),
        SpecTree::Delimited(_, d, _, inner, _) => SpecTree::Delimited(
            spec_dummy_sp(),
            d,
            spec_dummy_sp(),
            unspan(inner),
            spec_dummy_sp(),
        ),
    }
}

pub open spec fn unspan(s: Seq<SpecTree>) -> Seq<SpecTree>
    decreases s, 0nat,
{
    if s.len() == 0 {
        Seq::empty()
    } else {
        seq![unspan_tree(s[0])] + unspan(s.skip(1))
    }
}

/// Whether reading the quote `s` at depth 0 keeps every marker it meets:
/// no `qquote`, and no `unquote` that ends a group (or the quote).
pub open spec fn restorable(s: Seq<SpecTree>) -> bool
    decreases s,
{
    if s.len() == 0 {
        true
    } else if is_unquote_tree(s[0]) {
        s.len() >= 2 && restorable(s.skip(2))
    } else if is_quote_tree(s[0]) {
        false
    } else {
        match s[0] {
            SpecTree::Delimited(_, _, _, inner, _) => restorable(inner) && restorable(s.skip(1)),
            _ => restorable(s.skip(1)),
        }
    }
}

proof fn lemma_unspan_concat(a: Seq<SpecTree>, c: Seq<SpecTree>)
    ensures
        unspan(a + c) == unspan(a) + unspan(c),
    decreases a.len(),
{
    if a.len() == 0 {
        assert(a + c =~= c);
    } else {
        lemma_unspan_concat(a.skip(1), c);
        assert((a + c).skip(1) =~= a.skip(1) + c);
        assert((a + c)[0] == a[0]);
    }
}

proof fn lemma_unspan_single(x: SpecTree)
    ensures
        unspan(seq![x]) == seq![unspan_tree(x)],
{
    let e = Seq::<SpecTree>::empty();
    assert(seq![x].skip(1) =~= e);
    assert(seq![x][0] == x);
    assert(unspan(e) == e);
    assert(unspan(seq![x]) == seq![unspan_tree(x)] + unspan(e));
    assert(seq![unspan_tree(x)] + e =~= seq![unspan_tree(x)]);
}

proof fn lemma_restore_frame(o: Seq<SpecQtt>, b1: Seq<SpecBinding>, b2: Seq<SpecBinding>, lo: nat, hi: nat)
    requires
        refs_ok(o, b1, lo, hi),
        forall|id: SpecIdent| bound(b1, id) ==> #[trigger] lookup(b2, id) == lookup(b1, id),
    ensures
        restore(o, b1) == restore(o, b2),
    decreases o, 0nat,
{
    if o.len() > 0 {
        lemma_restore_one_frame(o[0], b1, b2, lo, hi);
        lemma_restore_frame(o.skip(1), b1, b2, lo, hi);
    }
}

proof fn lemma_restore_one_frame(q: SpecQtt, b1: Seq<SpecBinding>, b2: Seq<SpecBinding>, lo: nat, hi: nat)
    requires
        ref_ok(q, b1, lo, hi),
        forall|id: SpecIdent| bound(b1, id) ==> #[trigger] lookup(b2, id) == lookup(b1, id),
    ensures
        restore_one(q, b1) == restore_one(q, b2),
    decreases q, 1nat,
{
    match q {
        SpecQtt::QDL(_, _, inner, _) => {
            lemma_restore_frame(inner, b1, b2, lo, hi);
        },
        _ => {},
    }
}

proof fn lemma_restore_cons(q: SpecQtt, o: Seq<SpecQtt>, b: Seq<SpecBinding>)
    ensures
        restore(seq![q] + o, b) == restore_one(q, b) + restore(o, b),
{
    assert((seq![q] + o)[0] == q);
    assert((seq![q] + o).skip(1) =~= o);
}

/// Reading a quote can be undone: where it meets no `qquote` and no
/// `unquote` that ends a group, putting back for each placeholder the
/// `unquote` marker and the expression bound to it gives the quote again,
/// up to spans.
pub proof fn law_qquote_iter_restore(s: Seq<SpecTree>, m: nat)
    requires
        restorable(s),
    ensures
        unspan(restore(spec_qquote_iter(0, s, m).1, spec_qquote_iter(0, s, m).0)) == unspan(s),
    decreases s,
{
    if s.len() == 0 {
        return;
    }
    let t = s[0];
    assert(unspan(s) == seq![unspan_tree(t)] + unspan(s.skip(1)));
    if is_unquote_tree(t) {
        law_qquote_iter_restore(s.skip(2), m + 1);
        law_qquote_iter_bindings(0, s.skip(2), m + 1);
        let r2 = spec_qquote_iter(0, s.skip(2), m + 1);
        let id = SpecIdent { name: word_text(Word::Tmp), mark: m };
        let x = seq![(id, seq![s[1]])];
        let b = x + r2.0;
        assert(b[0].0 == id);
        assert(b.skip(1) =~= r2.0);
        assert forall|i: SpecIdent| bound(r2.0, i) implies #[trigger] lookup(b, i) == lookup(
            r2.0,
            i,
        ) by {
            let j = choose|j: int| 0 <= j < r2.0.len() && #[trigger] r2.0[j].0 == i;
            assert(m + 1 <= r2.0[j].0.mark);
        }
        lemma_restore_frame(r2.1, r2.0, b, m + 1, r2.2);
        lemma_restore_cons(SpecQtt::QIdent(ident_tree(id)), r2.1, b);
        assert(lookup(b, id) == seq![s[1]]);
        let rr = restore(r2.1, r2.0);
        assert(seq![word_tree(Word::Unquote)] + seq![s[1]] + rr =~= seq![
            word_tree(Word::Unquote),
        ] + (seq![s[1]] + rr));
        lemma_unspan_concat(seq![word_tree(Word::Unquote)], seq![s[1]] + rr);
        lemma_unspan_concat(seq![s[1]], rr);
        assert(s.skip(1)[0] == s[1]);
        assert(s.skip(1).skip(1) =~= s.skip(2));
        assert(unspan(s.skip(1)) == seq![unspan_tree(s[1])] + unspan(s.skip(2)));
        lemma_unspan_single(word_tree(Word::Unquote));
        lemma_unspan_single(s[1]);
        assert(unspan_tree(word_tree(Word::Unquote)) == unspan_tree(t));
        assert(unspan(s) =~= seq![unspan_tree(t)] + (seq![unspan_tree(s[1])] + unspan(s.skip(2))));
    } else {
        match t {
            SpecTree::Delimited(_, d, os, inner, cs) => {
                law_qquote_iter_restore(inner, m);
                law_qquote_iter_bindings(0, inner, m);
                let r1 = spec_qquote_iter(0, inner, m);
                law_qquote_iter_restore(s.skip(1), r1.2);
                law_qquote_iter_bindings(0, s.skip(1), r1.2);
                let r2 = spec_qquote_iter(0, s.skip(1), r1.2);
                let b = r1.0 + r2.0;
                assert forall|i: SpecIdent| bound(r1.0, i) implies #[trigger] lookup(b, i)
                    == lookup(r1.0, i) by {
                    lemma_lookup_prefix(r1.0, r2.0, i);
                }
                assert forall|i: SpecIdent| bound(r2.0, i) implies #[trigger] lookup(b, i)
                    == lookup(r2.0, i) by {
                    let j = choose|j: int| 0 <= j < r2.0.len() && #[trigger] r2.0[j].0 == i;
                    assert(r1.2 <= r2.0[j].0.mark);
                    lemma_marks_unbound(r1.0, m, r1.2, i);
                    lemma_lookup_suffix(r1.0, r2.0, i);
                }
                lemma_restore_frame(r1.1, r1.0, b, m, r1.2);
                lemma_restore_frame(r2.1, r2.0, b, r1.2, r2.2);
                lemma_restore_cons(SpecQtt::QDL(d, os, r1.1, cs), r2.1, b);
                let g = SpecTree::Delimited(spec_dummy_sp(), d, os, restore(r1.1, r1.0), cs);
                lemma_unspan_concat(seq![g], restore(r2.1, r2.0));
                lemma_unspan_single(g);
            },
            _ => {
                law_qquote_iter_restore(s.skip(1), m);
                let r = spec_qquote_iter(0, s.skip(1), m);
                lemma_restore_cons(SpecQtt::TT(t), r.1, r.0);
                lemma_unspan_concat(seq![t], restore(r.1, r.0));
                lemma_unspan_single(t);
            },
        }
    }
}

// ____________________________________________________________________________
// Building the code

/// Each group of a quote gets an identifier of its own: the bindings that
/// turning a quote into code makes have distinct marks, from `m` on.
pub proof fn law_convert_bindings(s: Seq<SpecQtt>, m: nat)
    ensures
        marks_in(spec_convert(s, m).0, m, spec_convert(s, m).2),
        distinct_marks(spec_convert(s, m).0),
    decreases s, 1nat,
{
    lemma_segments_bindings(s, m);
}

proof fn lemma_segments_bindings(s: Seq<SpecQtt>, m: nat)
    ensures
        marks_in(spec_segments(s, m).0, m, spec_segments(s, m).2),
        distinct_marks(spec_segments(s, m).0),
    decreases s, 0nat,
{
    crate::convert::lemma_convert_marks(s, m);
    if s.len() > 0 {
        lemma_segments_bindings(s.drop_last(), m);
        let (b, p, k) = spec_segments(s.drop_last(), m);
        crate::convert::lemma_convert_marks(s.drop_last(), m);
        match s.last() {
            SpecQtt::QDL(d, _, inner, _) => {
                law_convert_bindings(inner, k + 1);
                crate::convert::lemma_convert_marks(inner, k + 1);
                let (b2, body, k2) = spec_convert(inner, k + 1);
                let id = SpecIdent { name: word_text(Word::QdlTmp), mark: k };
                let x = seq![(id, body)];
                lemma_marks_concat(b2, x, k + 1, k2, k, k + 1);
                lemma_marks_concat(b, b2 + x, m, k, k, k2);
                assert(b + b2 + x =~= b + (b2 + x));
            },
            _ => {},
        }
    }
}

/// Every identifier that the code of a quote binds with `let` is bound
/// once: those of the unquoted expressions and those of the groups have
/// distinct marks, from `m` on.
pub proof fn law_qquoter_bindings(s: Seq<SpecTree>, m: nat)
    ensures
        ({
            let r1 = spec_qquote_iter(0, s, m);
            let r2 = spec_convert(r1.1, r1.2);
            &&& marks_in(r1.0 + r2.0, m, r2.2)
            &&& distinct_marks(r1.0 + r2.0)
        }),
{
    let r1 = spec_qquote_iter(0, s, m);
    law_qquote_iter_bindings(0, s, m);
    law_convert_bindings(r1.1, r1.2);
    crate::convert::lemma_convert_marks(r1.1, r1.2);
    let r2 = spec_convert(r1.1, r1.2);
    lemma_marks_concat(r1.0, r2.0, m, r1.2, r1.2, r2.2);
}

/// Whether the identifier `id` occurs in `t`.
pub open spec fn tree_has_ident(t: SpecTree, id: SpecIdent) -> bool
    decreases t, 1nat,
{
    match t {
        SpecTree::Token(_, SpecToken::Ident(i)) => i == id,
        SpecTree::Token(_, _) => false,
        SpecTree::Delimited(_, _, _, inner, _) => trees_have_ident(inner, id),
    }
}

pub open spec fn trees_have_ident(s: Seq<SpecTree>, id: SpecIdent) -> bool
    decreases s, 0nat,
{
    if s.len() == 0 {
        false
    } else {
        trees_have_ident(s.drop_last(), id) || tree_has_ident(s.last(), id)
    }
}

proof fn lemma_has_ident_mark(s: Seq<SpecTree>, n: nat, id: SpecIdent)
    requires
        trees_marks_below(s, n),
        trees_have_ident(s, id),
    ensures
        id.mark < n,
    decreases s, 0nat,
{
    if trees_have_ident(s.drop_last(), id) {
        lemma_has_ident_mark(s.drop_last(), n, id);
    } else {
        lemma_tree_has_ident_mark(s.last(), n, id);
    }
}

proof fn lemma_tree_has_ident_mark(t: SpecTree, n: nat, id: SpecIdent)
    requires
        tree_marks_below(t, n),
        tree_has_ident(t, id),
    ensures
        id.mark < n,
    decreases t, 1nat,
{
    match t {
        SpecTree::Delimited(_, _, _, inner, _) => lemma_has_ident_mark(inner, n, id),
        _ => {},
    }
}

/// The identifiers that the code of a quote binds are fresh: none occurs
/// in the quote, and none is a plain identifier (mark 0) that the code
/// around the quote could name, where the first mark is above every mark
/// in the quote.
pub proof fn law_qquoter_fresh(s: Seq<SpecTree>, m: nat)
    requires
        1 <= m,
        trees_marks_below(s, m),
    ensures
        ({
            let r1 = spec_qquote_iter(0, s, m);
            let b = r1.0 + spec_convert(r1.1, r1.2).0;
            &&& forall|j: int| 0 <= j < b.len() ==> 1 <= #[trigger] b[j].0.mark
            &&& forall|j: int, id: SpecIdent|
                0 <= j < b.len() && #[trigger] trees_have_ident(s, id) ==> #[trigger] b[j].0 != id
        }),
{
    law_qquoter_bindings(s, m);
    let r1 = spec_qquote_iter(0, s, m);
    let b = r1.0 + spec_convert(r1.1, r1.2).0;
    assert forall|j: int, id: SpecIdent|
        0 <= j < b.len() && #[trigger] trees_have_ident(s, id) implies #[trigger] b[j].0 != id by {
        lemma_has_ident_mark(s, m, id);
    }
}

// ____________________________________________________________________________
// Emitting text

/// Escaping loses nothing: two texts with the same escaped form are the
/// same text.
pub proof fn law_escaped_injective(a: Seq<char>, b: Seq<char>)
    requires
        escaped(a) == escaped(b),
    ensures
        a == b,
{
    lemma_unescaped_escaped(a);
    lemma_unescaped_escaped(b);
}

/// Two texts with the same string literal are the same text.
pub proof fn law_str_lit_injective(a: Seq<char>, b: Seq<char>)
    requires
        str_lit(a) == str_lit(b),
    ensures
        a == b,
{
    let ea = escaped(a);
    let eb = escaped(b);
    assert(ea =~= str_lit(a).subrange(1, str_lit(a).len() - 1));
    assert(eb =~= str_lit(b).subrange(1, str_lit(b).len() - 1));
    law_escaped_injective(a, b);
}

/// The text of a token.
pub open spec fn token_text(t: SpecToken) -> Seq<char> {
    match t {
        SpecToken::Ident(id) => id.name,
        SpecToken::Literal(text) => text,
        SpecToken::Punct(text) => text,
    }
}

/// The code that a quote emits for a token determines the token's kind
/// and text: two tokens that differ there never give the same code.
pub proof fn law_emit_token_injective(t1: SpecToken, t2: SpecToken)
    requires
        spec_emit_token(t1) == spec_emit_token(t2),
    ensures
        emit_kind(t1) == emit_kind(t2),
        token_text(t1) == token_text(t2),
{
    let e1 = spec_emit_token(t1);
    let e2 = spec_emit_token(t2);
    assert(e1[3] == e2[3]);
    let inner1 = seq![
        crate::builder::word_tree(Word::DummySp),
        crate::builder::sym_tree(crate::builder::Sym::Comma),
        crate::builder::word_tree(Word::Token),
        crate::builder::sym_tree(crate::builder::Sym::ModSep),
        crate::builder::word_tree(emit_kind(t1)),
        crate::builder::group_tree(crate::token::Delim::Paren, emit_arg(t1)),
    ];
    let inner2 = seq![
        crate::builder::word_tree(Word::DummySp),
        crate::builder::sym_tree(crate::builder::Sym::Comma),
        crate::builder::word_tree(Word::Token),
        crate::builder::sym_tree(crate::builder::Sym::ModSep),
        crate::builder::word_tree(emit_kind(t2)),
        crate::builder::group_tree(crate::token::Delim::Paren, emit_arg(t2)),
    ];
    assert(inner1 == inner2);
    assert(inner1[4] == inner2[4]);
    assert(inner1[5] == inner2[5]);
    assert(word_text(emit_kind(t1)) == word_text(emit_kind(t2)));
    lemma_kind_words();
    let a1 = emit_arg(t1);
    let a2 = emit_arg(t2);
    assert(a1 == a2);
    match t1 {
        SpecToken::Ident(id1) => {
            let id2 = t2->Ident_0;
            assert(a1[1] == a2[1]);
            let l1 = seq![crate::builder::lit_tree(str_lit(id1.name))];
            let l2 = seq![crate::builder::lit_tree(str_lit(id2.name))];
            assert(l1 == l2);
            assert(l1[0] == l2[0]);
            law_str_lit_injective(id1.name, id2.name);
        },
        SpecToken::Literal(x1) => {
            assert(a1[0] == a2[0]);
            law_str_lit_injective(x1, t2->Literal_0);
        },
        SpecToken::Punct(x1) => {
            assert(a1[0] == a2[0]);
            law_str_lit_injective(x1, t2->Punct_0);
        },
    }
}

/// The `let`s of two lists of bindings, one after the other, are the
/// `let`s of the first list followed by those of the second.
pub proof fn law_unravel_concat(b1: Seq<SpecBinding>, b2: Seq<SpecBinding>)
    ensures
        spec_unravel(b1 + b2) == spec_unravel(b1) + spec_unravel(b2),
    decreases b2.len(),
{
    if b2.len() == 0 {
        assert(b1 + b2 =~= b1);
        assert(spec_unravel(b1) + spec_unravel(b2) =~= spec_unravel(b1));
    } else {
        law_unravel_concat(b1, b2.drop_last());
        assert((b1 + b2).drop_last() =~= b1 + b2.drop_last());
        assert((b1 + b2).last() == b2.last());
        let l = crate::builder::spec_let(b2.last().0, b2.last().1);
        assert(spec_unravel(b1) + spec_unravel(b2) =~= spec_unravel(b1) + spec_unravel(
            b2.drop_last(),
        ) + l);
    }
}

} // verus!
