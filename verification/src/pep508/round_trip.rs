//! What reading back a written marker gives: the form [`written`] puts a marker in is one the
//! grammar reads as that marker again.

use vstd::prelude::*;
use crate::pep508::marker::{
    MarkerModel, TokView, groups, is_op_char, is_word_char, marker_of, marker_operators,
    marker_variables, op_end, p_and, p_atom, p_or, and_rest, or_rest, p_operand, p_operator,
    p_comparison, prepend, requote, tokens_from, tokens_with, word_end, written, written_list,
    lemma_op_end, lemma_word_end, GROUPS,
};
use crate::text::{index_of, is_alpha, is_ws, lemma_index_of};

verus! {

/// A quoted value as the tokenizer reads one: a quote, text without that quote, the same quote.
pub open spec fn str_shape(x: Seq<char>) -> bool {
    &&& x.len() >= 2
    &&& x[0] == '"' || x[0] == '\''
    &&& x.last() == x[0]
    &&& !x.subrange(1, x.len() - 1).contains(x[0])
}

/// A word as the tokenizer reads one, other than the two that join markers.
pub open spec fn ident_shape(x: Seq<char>) -> bool {
    &&& x.len() > 0
    &&& is_alpha(x[0]) || x[0] == '_'
    &&& forall|k: int| 0 <= k < x.len() ==> is_word_char(#[trigger] x[k])
    &&& x != seq!['a', 'n', 'd']
    &&& x != seq!['o', 'r']
}

/// A run of operator characters.
pub open spec fn op_shape(x: Seq<char>) -> bool {
    &&& x.len() > 0
    &&& forall|k: int| 0 <= k < x.len() ==> is_op_char(#[trigger] x[k])
}

pub open spec fn in_word() -> Seq<char> {
    seq!['i', 'n']
}

pub open spec fn not_in_words() -> Seq<char> {
    seq!['n', 'o', 't', ' ', 'i', 'n']
}

/// One side of a comparison the grammar reads: a quoted value, or a variable PEP 508 names.
pub open spec fn operand_ok(x: Seq<char>) -> bool {
    str_shape(x) || (ident_shape(x) && marker_variables().contains(x))
}

/// An operator the grammar reads.
pub open spec fn operator_ok(op: Seq<char>) -> bool {
    (op_shape(op) && marker_operators().contains(op)) || op == in_word() || op == not_in_words()
}

/// A marker the grammar can have read, at a level: `2` where `or` may join it, `1` where only
/// `and` may, `0` where it stands alone, as a comparison or a group.
pub open spec fn wf_marker(m: MarkerModel, lv: int) -> bool
    decreases m,
{
    match m {
        MarkerModel::Or(es) => lv >= 2 && es.len() >= 2 && wf_list(es, 1),
        MarkerModel::And(es) => lv >= 1 && es.len() >= 2 && wf_list(es, 0),
        MarkerModel::Comparison(l, op, r) => operand_ok(l) && operator_ok(op) && operand_ok(r),
        MarkerModel::Paren(b) => wf_marker(*b, 2),
    }
}

/// Every marker of the list can have been read at the level.
pub open spec fn wf_list(es: Seq<MarkerModel>, lv: int) -> bool
    decreases es,
{
    if es.len() == 0 {
        true
    } else {
        wf_list(es.drop_last(), lv) && wf_marker(es.last(), lv)
    }
}

/// The marker with each value in the quote it is written in.
pub open spec fn requoted(m: MarkerModel) -> MarkerModel
    decreases m,
{
    match m {
        MarkerModel::Or(es) => MarkerModel::Or(requoted_list(es)),
        MarkerModel::And(es) => MarkerModel::And(requoted_list(es)),
        MarkerModel::Comparison(l, op, r) => MarkerModel::Comparison(l, op, requote(r)),
        MarkerModel::Paren(b) => MarkerModel::Paren(Box::new(requoted(*b))),
    }
}

pub open spec fn requoted_list(es: Seq<MarkerModel>) -> Seq<MarkerModel>
    decreases es,
{
    if es.len() == 0 {
        seq![]
    } else {
        requoted_list(es.drop_last()).push(requoted(es.last()))
    }
}

/// The token one side of a comparison is read from.
pub open spec fn operand_tok(x: Seq<char>) -> TokView {
    if x.len() > 0 && (x[0] == '"' || x[0] == '\'') {
        TokView::Str(x)
    } else {
        TokView::Ident(x)
    }
}

/// The tokens an operator is read from.
pub open spec fn operator_toks(op: Seq<char>) -> Seq<TokView> {
    if op == in_word() {
        seq![TokView::Ident(in_word())]
    } else if op == not_in_words() {
        seq![TokView::Ident(seq!['n', 'o', 't']), TokView::Ident(in_word())]
    } else {
        seq![TokView::Op(op)]
    }
}

/// The tokens a marker is read from.
pub open spec fn toks(m: MarkerModel) -> Seq<TokView>
    decreases m,
{
    match m {
        MarkerModel::Or(es) => toks_list(es, TokView::Or),
        MarkerModel::And(es) => toks_list(es, TokView::And),
        MarkerModel::Comparison(l, op, r) => seq![operand_tok(l)] + operator_toks(op) + seq![
            operand_tok(r),
        ],
        MarkerModel::Paren(b) => seq![TokView::LParen] + toks(*b) + seq![TokView::RParen],
    }
}

/// The tokens of markers joined by `sep`.
pub open spec fn toks_list(es: Seq<MarkerModel>, sep: TokView) -> Seq<TokView>
    decreases es,
{
    if es.len() == 0 {
        seq![]
    } else if es.len() == 1 {
        toks(es[0])
    } else {
        toks_list(es.drop_last(), sep) + seq![sep] + toks(es.last())
    }
}

/// No word goes on at `e`.
pub open spec fn no_word_at(s: Seq<char>, e: int) -> bool {
    e >= s.len() || !is_word_char(s[e])
}

/// No operator goes on at `e`.
pub open spec fn no_op_at(s: Seq<char>, e: int) -> bool {
    e >= s.len() || !is_op_char(s[e])
}

proof fn lemma_word_run(s: Seq<char>, i: int, e: int)
    requires
        0 <= i <= e <= s.len(),
        forall|k: int| i <= k < e ==> is_word_char(#[trigger] s[k]),
        no_word_at(s, e),
    ensures
        word_end(s, i) == e,
    decreases e - i,
{
    if i < e {
        lemma_word_run(s, i + 1, e);
    }
}

proof fn lemma_op_run(s: Seq<char>, i: int, e: int)
    requires
        0 <= i <= e <= s.len(),
        forall|k: int| i <= k < e ==> is_op_char(#[trigger] s[k]),
        no_op_at(s, e),
    ensures
        op_end(s, i) == e,
    decreases e - i,
{
    if i < e {
        lemma_op_run(s, i + 1, e);
    }
}

proof fn lemma_index_at(s: Seq<char>, c: char, i: int, e: int)
    requires
        0 <= i <= e < s.len(),
        forall|k: int| i <= k < e ==> #[trigger] s[k] != c,
        s[e] == c,
    ensures
        index_of(s, c, i) == e,
    decreases e - i,
{
    if i < e {
        lemma_index_at(s, c, i + 1, e);
    }
}

proof fn lemma_with_assoc(a: Seq<TokView>, b: Seq<TokView>, r: Option<Seq<TokView>>)
    ensures
        tokens_with(a, tokens_with(b, r)) == tokens_with(a + b, r),
{
    if let Some(x) = r {
        assert(a + (b + x) =~= (a + b) + x);
    }
}

proof fn lemma_prepend_with(t: TokView, r: Option<Seq<TokView>>)
    ensures
        prepend(t, r) == tokens_with(seq![t], r),
{
}

/// A side of a comparison, where it stands in the text, reads as its one token.
proof fn lemma_operand_tokens(s: Seq<char>, at: int, x: Seq<char>)
    requires
        str_shape(x) || ident_shape(x),
        0 <= at,
        at + x.len() <= s.len(),
        s.subrange(at, at + x.len()) == x,
        ident_shape(x) ==> no_word_at(s, at + x.len()),
    ensures
        tokens_from(s, at) == prepend(operand_tok(x), tokens_from(s, at + x.len())),
{
    assert(s[at] == s.subrange(at, at + x.len())[0]);
    if str_shape(x) {
        let c = x[0];
        let e = at + x.len() - 1;
        assert(s[e] == s.subrange(at, at + x.len())[x.len() - 1]);
        assert forall|k: int| at + 1 <= k < e implies #[trigger] s[k] != c by {
            assert(s[k] == s.subrange(at, at + x.len())[k - at]);
            assert(x[k - at] == x.subrange(1, x.len() - 1)[k - at - 1]);
        }
        lemma_index_at(s, c, at + 1, e);
        assert(s.subrange(at, e + 1) == x);
    } else {
        assert forall|k: int| at <= k < at + x.len() implies is_word_char(#[trigger] s[k]) by {
            assert(s[k] == s.subrange(at, at + x.len())[k - at]);
        }
        lemma_word_run(s, at, at + x.len());
        assert(!is_op_char(s[at]));
    }
}

/// A value in the quote it is written in is still a side the grammar reads, and is written in
/// that quote again.
pub proof fn lemma_requote_ok(r: Seq<char>)
    requires
        operand_ok(r),
    ensures
        operand_ok(requote(r)),
        requote(requote(r)) == requote(r),
        str_shape(r) ==> str_shape(requote(r)),
        !str_shape(r) ==> requote(r) == r,
{
    if str_shape(r) {
        let inner = r.subrange(1, r.len() - 1);
        let q = if inner.contains('\'') {
            '"'
        } else {
            '\''
        };
        if inner.contains('\'') {
            assert(r[0] == '"');
        }
        let w = seq![q] + inner + seq![q];
        assert(requote(r) == w);
        assert(w.subrange(1, w.len() - 1) =~= inner);
        assert(w[0] == q);
        assert(w.last() == q);
    } else {
        if r.len() >= 2 && (r[0] == '"' || r[0] == '\'') {
            assert(ident_shape(r));
            assert(false);
        }
    }
}

pub proof fn lemma_sub<A>(s: Seq<A>, at: int, w: Seq<A>, i: int, j: int)
    requires
        0 <= at,
        at + w.len() <= s.len(),
        s.subrange(at, at + w.len()) == w,
        0 <= i <= j <= w.len(),
    ensures
        s.subrange(at + i, at + j) == w.subrange(i, j),
        forall|k: int| i <= k < j ==> s[at + k] == w[k],
{
    assert forall|k: int| i <= k < j implies s[at + k] == w[k] by {
        assert(s[at + k] == s.subrange(at, at + w.len())[k]);
    }
    assert(s.subrange(at + i, at + j) =~= w.subrange(i, j));
}

proof fn lemma_space(s: Seq<char>, at: int)
    requires
        0 <= at < s.len(),
        s[at] == ' ',
    ensures
        tokens_from(s, at) == tokens_from(s, at + 1),
{
}

/// `in` and `not` are words the tokenizer reads as words.
proof fn lemma_small_words()
    ensures
        ident_shape(in_word()),
        ident_shape(seq!['n', 'o', 't']),
{
    let a = in_word();
    assert(a[0] == 'i' && a[1] == 'n');
    assert forall|k: int| 0 <= k < a.len() implies is_word_char(#[trigger] a[k]) by {
        if k == 0 {
        } else {
            assert(k == 1);
        }
    }
    assert(a.len() != 3);
    assert(a != seq!['o', 'r']) by {
        assert(seq!['o', 'r'][0] == 'o');
    }
    let b = seq!['n', 'o', 't'];
    assert(b[0] == 'n' && b[1] == 'o' && b[2] == 't');
    assert forall|k: int| 0 <= k < b.len() implies is_word_char(#[trigger] b[k]) by {
        if k == 0 {
        } else if k == 1 {
        } else {
            assert(k == 2);
        }
    }
    assert(b != seq!['a', 'n', 'd']) by {
        assert(seq!['a', 'n', 'd'][0] == 'a');
    }
}

proof fn lemma_prepend3(a: TokView, b: TokView, c: TokView, r: Option<Seq<TokView>>)
    ensures
        prepend(a, prepend(b, prepend(c, r))) == tokens_with(seq![a, b, c], r),
{
    if let Some(x) = r {
        assert(seq![a] + (seq![b] + (seq![c] + x)) =~= seq![a, b, c] + x);
    }
}

proof fn lemma_prepend4(a: TokView, b: TokView, c: TokView, d: TokView, r: Option<Seq<TokView>>)
    ensures
        prepend(a, prepend(b, prepend(c, prepend(d, r)))) == tokens_with(seq![a, b, c, d], r),
{
    if let Some(x) = r {
        assert(seq![a] + (seq![b] + (seq![c] + (seq![d] + x))) =~= seq![a, b, c, d] + x);
    }
}

/// `in` or `not in`, followed by a space, reads as the words it is.
proof fn lemma_words_tokens(s: Seq<char>, p2: int, op: Seq<char>)
    requires
        op == in_word() || op == not_in_words(),
        0 <= p2,
        p2 + op.len() < s.len(),
        s.subrange(p2, p2 + op.len()) == op,
        s[p2 + op.len()] == ' ',
    ensures
        tokens_from(s, p2) == tokens_with(operator_toks(op), tokens_from(s, p2 + op.len())),
{
    lemma_small_words();
    let ol = op.len() as int;
    if op == in_word() {
        lemma_operand_tokens(s, p2, op);
        assert(operand_tok(op) == TokView::Ident(in_word()));
    } else {
        let nt = seq!['n', 'o', 't'];
        lemma_sub(s, p2, op, 0, 3);
        assert(op.subrange(0, 3) =~= nt);
        lemma_sub(s, p2, op, 3, 4);
        assert(op[3] == ' ');
        assert(s[p2 + 3] == ' ');
        lemma_sub(s, p2, op, 4, 6);
        assert(op.subrange(4, 6) =~= in_word());
        lemma_operand_tokens(s, p2, nt);
        lemma_space(s, p2 + 3);
        lemma_operand_tokens(s, p2 + 4, in_word());
        assert(operand_tok(nt) == TokView::Ident(nt));
        assert(operand_tok(in_word()) == TokView::Ident(in_word()));
        let rr = tokens_from(s, p2 + ol);
        if let Some(x) = rr {
            assert(seq![TokView::Ident(nt)] + (seq![TokView::Ident(in_word())] + x) =~= operator_toks(
                op,
            ) + x);
        }
    }
}

/// A comparison written with `in` or `not in` between spaces reads as its tokens.
#[verifier::spinoff_prover]
proof fn lemma_spaced_tokens(s: Seq<char>, at: int, l: Seq<char>, op: Seq<char>, rq: Seq<char>)
    requires
        str_shape(l) || ident_shape(l),
        op == in_word() || op == not_in_words(),
        str_shape(rq) || ident_shape(rq),
        0 <= at,
        at + (l + seq![' '] + op + seq![' '] + rq).len() <= s.len(),
        s.subrange(at, at + (l + seq![' '] + op + seq![' '] + rq).len()) == l + seq![' '] + op
            + seq![' '] + rq,
        no_word_at(s, at + (l + seq![' '] + op + seq![' '] + rq).len()),
    ensures
        tokens_from(s, at) == tokens_with(
            seq![operand_tok(l)] + operator_toks(op) + seq![operand_tok(rq)],
            tokens_from(s, at + (l + seq![' '] + op + seq![' '] + rq).len()),
        ),
{
    let w = l + seq![' '] + op + seq![' '] + rq;
    let n = w.len() as int;
    let ll = l.len() as int;
    let ol = op.len() as int;
    let end = at + n;
    lemma_small_words();
    let p1 = at + ll;
    lemma_sub(s, at, w, 0, ll);
    assert(w.subrange(0, ll) =~= l);
    assert(w[ll] == ' ');
    lemma_sub(s, at, w, ll, ll + 1);
    assert(s[p1] == ' ');
    lemma_operand_tokens(s, at, l);
    lemma_space(s, p1);
    let p2 = p1 + 1;
    let q = p2 + ol;
    lemma_sub(s, at, w, ll + 1, ll + 1 + ol);
    assert(w.subrange(ll + 1, ll + 1 + ol) =~= op);
    assert(w[ll + 1 + ol] == ' ');
    lemma_sub(s, at, w, ll + 1 + ol, ll + 2 + ol);
    assert(s[q] == ' ');
    lemma_space(s, q);
    lemma_sub(s, at, w, ll + 2 + ol, n);
    assert(w.subrange(ll + 2 + ol, n) =~= rq);
    lemma_operand_tokens(s, q + 1, rq);
    assert(s.subrange(p2, p2 + ol) == op);
    lemma_words_tokens(s, p2, op);
    assert(tokens_from(s, q) == prepend(operand_tok(rq), tokens_from(s, end)));
    if let Some(x) = tokens_from(s, end) {
        assert(seq![operand_tok(l)] + (operator_toks(op) + (seq![operand_tok(rq)] + x)) =~= (
        seq![operand_tok(l)] + operator_toks(op) + seq![operand_tok(rq)]) + x);
    }
}

/// A comparison written with its operator between its sides reads as its tokens.
#[verifier::spinoff_prover]
proof fn lemma_plain_tokens(s: Seq<char>, at: int, l: Seq<char>, op: Seq<char>, rq: Seq<char>)
    requires
        str_shape(l) || ident_shape(l),
        op_shape(op),
        op != in_word(),
        op != not_in_words(),
        str_shape(rq) || ident_shape(rq),
        0 <= at,
        at + (l + op + rq).len() <= s.len(),
        s.subrange(at, at + (l + op + rq).len()) == l + op + rq,
        no_word_at(s, at + (l + op + rq).len()),
    ensures
        tokens_from(s, at) == tokens_with(
            seq![operand_tok(l)] + operator_toks(op) + seq![operand_tok(rq)],
            tokens_from(s, at + (l + op + rq).len()),
        ),
{
    let w = l + op + rq;
    let n = w.len() as int;
    let ll = l.len() as int;
    let ol = op.len() as int;
    let end = at + n;
    let p1 = at + ll;
    let p2 = p1 + ol;
    lemma_sub(s, at, w, 0, ll);
    assert(w.subrange(0, ll) =~= l);
    lemma_sub(s, at, w, ll, ll + ol);
    assert(w.subrange(ll, ll + ol) =~= op);
    lemma_sub(s, at, w, ll + ol, n);
    assert(w.subrange(ll + ol, n) =~= rq);
    assert(s[p1] == op[0]);
    assert(is_op_char(op[0]));
    lemma_operand_tokens(s, at, l);
    assert forall|k: int| p1 <= k < p2 implies is_op_char(#[trigger] s[k]) by {
        assert(s[k] == op[k - p1]);
    }
    assert(s[p2] == rq[0]);
    assert(!is_op_char(rq[0]));
    lemma_op_run(s, p1, p2);
    assert(tokens_from(s, p1) == prepend(TokView::Op(op), tokens_from(s, p2)));
    lemma_operand_tokens(s, p2, rq);
    lemma_prepend3(operand_tok(l), TokView::Op(op), operand_tok(rq), tokens_from(s, end));
    assert(seq![operand_tok(l)] + operator_toks(op) + seq![operand_tok(rq)] =~= seq![
        operand_tok(l),
        TokView::Op(op),
        operand_tok(rq),
    ]);
}

/// A comparison, where it stands in the text, reads as its tokens, its value in the quote it is
/// written in.
proof fn lemma_comparison_tokens(s: Seq<char>, at: int, l: Seq<char>, op: Seq<char>, r: Seq<char>)
    requires
        operand_ok(l),
        operator_ok(op),
        operand_ok(r),
        0 <= at,
        at + written(MarkerModel::Comparison(l, op, r)).len() <= s.len(),
        s.subrange(at, at + written(MarkerModel::Comparison(l, op, r)).len()) == written(
            MarkerModel::Comparison(l, op, r),
        ),
        no_word_at(s, at + written(MarkerModel::Comparison(l, op, r)).len()),
    ensures
        tokens_from(s, at) == tokens_with(
            toks(MarkerModel::Comparison(l, op, requote(r))),
            tokens_from(s, at + written(MarkerModel::Comparison(l, op, r)).len()),
        ),
{
    lemma_requote_ok(r);
    if op == in_word() || op == not_in_words() {
        lemma_spaced_tokens(s, at, l, op, requote(r));
    } else {
        lemma_plain_tokens(s, at, l, op, requote(r));
    }
}

pub open spec fn and_sep() -> Seq<char> {
    seq![' ', 'a', 'n', 'd', ' ']
}

pub open spec fn or_sep() -> Seq<char> {
    seq![' ', 'o', 'r', ' ']
}

/// The separator `and` or `or` written between spaces reads as its one token.
proof fn lemma_sep_tokens(s: Seq<char>, p: int, sep: Seq<char>, sep_tok: TokView)
    requires
        (sep == and_sep() && sep_tok == TokView::And) || (sep == or_sep() && sep_tok
            == TokView::Or),
        0 <= p,
        p + sep.len() <= s.len(),
        s.subrange(p, p + sep.len()) == sep,
    ensures
        tokens_from(s, p) == prepend(sep_tok, tokens_from(s, p + sep.len())),
{
    let n = sep.len() as int;
    lemma_sub(s, p, sep, 0, n);
    assert(s[p] == ' ');
    assert(s[p + n - 1] == ' ');
    lemma_space(s, p);
    assert forall|k: int| p + 1 <= k < p + n - 1 implies is_word_char(#[trigger] s[k]) by {
        assert(s[k] == sep[k - p]);
        if sep == and_sep() {
            assert(k - p == 1 || k - p == 2 || k - p == 3);
        } else {
            assert(k - p == 1 || k - p == 2);
        }
    }
    lemma_word_run(s, p + 1, p + n - 1);
    assert(is_alpha(s[p + 1]));
    lemma_sub(s, p, sep, 1, n - 1);
    if sep == and_sep() {
        assert(sep.subrange(1, n - 1) =~= seq!['a', 'n', 'd']);
    } else {
        assert(sep.subrange(1, n - 1) =~= seq!['o', 'r']);
    }
    lemma_space(s, p + n - 1);
}

proof fn lemma_requoted_list(es: Seq<MarkerModel>)
    ensures
        requoted_list(es).len() == es.len(),
        es.len() > 0 ==> requoted_list(es).drop_last() == requoted_list(es.drop_last()),
        es.len() > 0 ==> requoted_list(es).last() == requoted(es.last()),
        forall|i: int| 0 <= i < es.len() ==> #[trigger] requoted_list(es)[i] == requoted(es[i]),
    decreases es.len(),
{
    if es.len() > 0 {
        lemma_requoted_list(es.drop_last());
        let d = requoted_list(es.drop_last());
        assert(requoted_list(es) == d.push(requoted(es.last())));
        assert(d.push(requoted(es.last())).drop_last() =~= d);
        assert forall|i: int| 0 <= i < es.len() implies #[trigger] requoted_list(es)[i] == requoted(
            es[i],
        ) by {
            if i < es.len() - 1 {
                assert(es.drop_last()[i] == es[i]);
            }
        }
    }
}

/// A marker that can have been read, where it stands in the text, reads as the tokens of the
/// marker with each value in the quote it is written in.
#[verifier::spinoff_prover]
proof fn lemma_marker_tokens(s: Seq<char>, at: int, m: MarkerModel, lv: int)
    requires
        wf_marker(m, lv),
        0 <= at,
        at + written(m).len() <= s.len(),
        s.subrange(at, at + written(m).len()) == written(m),
        no_word_at(s, at + written(m).len()),
    ensures
        tokens_from(s, at) == tokens_with(toks(requoted(m)), tokens_from(s, at + written(m).len())),
    decreases m,
{
    match m {
        MarkerModel::Or(es) => {
            lemma_list_tokens(s, at, es, 1, or_sep(), TokView::Or);
        },
        MarkerModel::And(es) => {
            lemma_list_tokens(s, at, es, 0, and_sep(), TokView::And);
        },
        MarkerModel::Comparison(l, op, r) => {
            lemma_comparison_tokens(s, at, l, op, r);
        },
        MarkerModel::Paren(b) => {
            let w = written(m);
            let wb = written(*b);
            let n = w.len() as int;
            let nb = wb.len() as int;
            assert(w == seq!['('] + wb + seq![')']);
            lemma_sub(s, at, w, 0, 1);
            assert(w[0] == '(');
            assert(s[at + 0] == w[0]);
            assert(s[at] == '(');
            lemma_sub(s, at, w, 1, nb + 1);
            assert(w.subrange(1, nb + 1) =~= wb);
            lemma_sub(s, at, w, nb + 1, n);
            assert(w[nb + 1] == ')');
            assert(s[at + (nb + 1)] == w[nb + 1]);
            assert(s[at + nb + 1] == ')');
            lemma_marker_tokens(s, at + 1, *b, 2);
            let r = tokens_from(s, at + n);
            assert(tokens_from(s, at + nb + 1) == prepend(TokView::RParen, r));
            assert(tokens_from(s, at) == prepend(TokView::LParen, tokens_from(s, at + 1)));
            if let Some(x) = r {
                assert(seq![TokView::LParen] + (toks(requoted(*b)) + (seq![TokView::RParen] + x))
                    =~= (seq![TokView::LParen] + toks(requoted(*b)) + seq![TokView::RParen]) + x);
            }
        },
    }
}

/// Markers joined by `and` or `or`, where they stand in the text, read as their tokens joined by
/// the one token the separator is.
#[verifier::spinoff_prover]
proof fn lemma_list_tokens(
    s: Seq<char>,
    at: int,
    es: Seq<MarkerModel>,
    lv: int,
    sep: Seq<char>,
    sep_tok: TokView,
)
    requires
        wf_list(es, lv),
        es.len() >= 1,
        (sep == and_sep() && sep_tok == TokView::And) || (sep == or_sep() && sep_tok
            == TokView::Or),
        0 <= at,
        at + written_list(es, sep).len() <= s.len(),
        s.subrange(at, at + written_list(es, sep).len()) == written_list(es, sep),
        no_word_at(s, at + written_list(es, sep).len()),
    ensures
        tokens_from(s, at) == tokens_with(
            toks_list(requoted_list(es), sep_tok),
            tokens_from(s, at + written_list(es, sep).len()),
        ),
    decreases es,
{
    lemma_requoted_list(es);
    let rl = requoted_list(es);
    if es.len() == 1 {
        assert(es[0] == es.last());
        lemma_marker_tokens(s, at, es[0], lv);
    } else {
        let d = es.drop_last();
        let x = es.last();
        let w = written_list(es, sep);
        let wd = written_list(d, sep);
        let wx = written(x);
        let n = w.len() as int;
        let nd = wd.len() as int;
        let ns = sep.len() as int;
        assert(w == wd + sep + wx);
        lemma_sub(s, at, w, 0, nd);
        assert(w.subrange(0, nd) =~= wd);
        lemma_sub(s, at, w, nd, nd + ns);
        assert(w.subrange(nd, nd + ns) =~= sep);
        lemma_sub(s, at, w, nd + ns, n);
        assert(w.subrange(nd + ns, n) =~= wx);
        assert(s[at + nd] == sep[0]);
        lemma_list_tokens(s, at, d, lv, sep, sep_tok);
        lemma_sep_tokens(s, at + nd, sep, sep_tok);
        lemma_marker_tokens(s, at + nd + ns, x, lv);
        let r = tokens_from(s, at + n);
        assert(toks_list(rl, sep_tok) == toks_list(requoted_list(d), sep_tok) + seq![sep_tok]
            + toks(requoted(x)));
        if let Some(y) = r {
            assert(toks_list(requoted_list(d), sep_tok) + (seq![sep_tok] + (toks(requoted(x))
                + y)) =~= (toks_list(requoted_list(d), sep_tok) + seq![sep_tok] + toks(
                requoted(x),
            )) + y);
        }
    }
}

/// The tokens of each marker after the first, each behind the separator.
pub open spec fn rest_toks(es: Seq<MarkerModel>, sep: TokView) -> Seq<TokView>
    decreases es.len(),
{
    if es.len() == 0 {
        seq![]
    } else {
        seq![sep] + toks(es[0]) + rest_toks(es.drop_first(), sep)
    }
}

proof fn lemma_rest_push(x: Seq<MarkerModel>, y: MarkerModel, sep: TokView)
    ensures
        rest_toks(x.push(y), sep) == rest_toks(x, sep) + seq![sep] + toks(y),
    decreases x.len(),
{
    if x.len() == 0 {
        assert(x.push(y).drop_first() =~= Seq::<MarkerModel>::empty());
        assert(x.push(y)[0] == y);
        assert(rest_toks(Seq::<MarkerModel>::empty(), sep) == Seq::<TokView>::empty());
        assert(rest_toks(x, sep) == Seq::<TokView>::empty());
        assert(rest_toks(x.push(y), sep) =~= seq![sep] + toks(y));
    } else {
        assert(x.push(y).drop_first() =~= x.drop_first().push(y));
        lemma_rest_push(x.drop_first(), y, sep);
        assert(x.push(y)[0] == x[0]);
    }
}

/// The tokens of a list are those of its first marker, then the rest behind separators.
proof fn lemma_list_front(es: Seq<MarkerModel>, sep: TokView)
    requires
        es.len() >= 1,
    ensures
        toks_list(es, sep) == toks(es[0]) + rest_toks(es.drop_first(), sep),
    decreases es.len(),
{
    if es.len() == 1 {
        assert(es.drop_first() =~= Seq::<MarkerModel>::empty());
        assert(toks(es[0]) + Seq::<TokView>::empty() =~= toks(es[0]));
    } else {
        let d = es.drop_last();
        lemma_list_front(d, sep);
        assert(es.drop_first() =~= d.drop_first().push(es.last()));
        lemma_rest_push(d.drop_first(), es.last(), sep);
        assert(d[0] == es[0]);
    }
}

proof fn lemma_wf_list(es: Seq<MarkerModel>, lv: int)
    ensures
        wf_list(es, lv) == (forall|i: int| 0 <= i < es.len() ==> wf_marker(#[trigger] es[i], lv)),
    decreases es.len(),
{
    if es.len() > 0 {
        lemma_wf_list(es.drop_last(), lv);
        if wf_list(es, lv) {
            assert forall|i: int| 0 <= i < es.len() implies wf_marker(#[trigger] es[i], lv) by {
                if i < es.len() - 1 {
                    assert(es.drop_last()[i] == es[i]);
                }
            }
        }
        if forall|i: int| 0 <= i < es.len() ==> wf_marker(#[trigger] es[i], lv) {
            assert forall|i: int| 0 <= i < es.drop_last().len() implies wf_marker(
                #[trigger] es.drop_last()[i],
                lv,
            ) by {
                assert(es.drop_last()[i] == es[i]);
            }
            assert(wf_marker(es[es.len() - 1], lv));
        }
    }
}

proof fn lemma_toks_nonempty(m: MarkerModel, lv: int)
    requires
        wf_marker(m, lv),
    ensures
        toks(m).len() > 0,
    decreases m,
{
    match m {
        MarkerModel::Or(es) => {
            lemma_wf_list(es, 1);
            lemma_list_front(es, TokView::Or);
            lemma_toks_nonempty(es[0], 1);
        },
        MarkerModel::And(es) => {
            lemma_wf_list(es, 0);
            lemma_list_front(es, TokView::And);
            lemma_toks_nonempty(es[0], 0);
        },
        _ => {},
    }
}

/// The tokens of a comparison or a group read back as it.
#[verifier::spinoff_prover]
proof fn lemma_read_atom(t: Seq<TokView>, pos: int, m: MarkerModel)
    requires
        wf_marker(m, 0),
        0 <= pos,
        pos + toks(m).len() <= t.len(),
        t.subrange(pos, pos + toks(m).len()) == toks(m),
    ensures
        p_atom(t, pos) == Some((m, pos + toks(m).len())),
    decreases m, 0int,
{
    let n = toks(m).len() as int;
    lemma_sub(t, pos, toks(m), 0, n);
    match m {
        MarkerModel::Comparison(l, op, r) => {
            assert(t[pos] == toks(m)[0]);
            assert(toks(m)[0] == operand_tok(l));
            assert(p_operand(t, pos) == Some(l));
            if op == in_word() {
                assert(t[pos + 1] == toks(m)[1]);
                assert(t[pos + 2] == toks(m)[2]);
                assert(p_operator(t, pos + 1) == Some((op, pos + 2)));
                assert(p_operand(t, pos + 2) == Some(r));
            } else if op == not_in_words() {
                assert(t[pos + 1] == toks(m)[1]);
                assert(t[pos + 2] == toks(m)[2]);
                assert(t[pos + 3] == toks(m)[3]);
                assert(seq!['n', 'o', 't'] != in_word());
                assert(p_operator(t, pos + 1) == Some((op, pos + 3)));
                assert(p_operand(t, pos + 3) == Some(r));
            } else {
                assert(t[pos + 1] == toks(m)[1]);
                assert(t[pos + 2] == toks(m)[2]);
                assert(p_operator(t, pos + 1) == Some((op, pos + 2)));
                assert(p_operand(t, pos + 2) == Some(r));
            }
        },
        MarkerModel::Paren(b) => {
            let nb = toks(*b).len() as int;
            assert(t[pos] == toks(m)[0]);
            assert(toks(m).subrange(1, nb + 1) =~= toks(*b));
            lemma_sub(t, pos, toks(m), 1, nb + 1);
            assert(t[pos + nb + 1] == toks(m)[nb + 1]);
            lemma_read_or(t, pos + 1, *b);
        },
        _ => {},
    }
}

/// The tokens of a marker `and` may join read back as it, where no `and` follows them.
proof fn lemma_read_and(t: Seq<TokView>, pos: int, m: MarkerModel)
    requires
        wf_marker(m, 1),
        0 <= pos,
        pos + toks(m).len() <= t.len(),
        t.subrange(pos, pos + toks(m).len()) == toks(m),
        pos + toks(m).len() == t.len() || t[pos + toks(m).len()] != TokView::And,
    ensures
        p_and(t, pos) == Some((m, pos + toks(m).len())),
    decreases m, 1int,
{
    let n = toks(m).len() as int;
    match m {
        MarkerModel::And(es) => {
            lemma_wf_list(es, 0);
            lemma_list_front(es, TokView::And);
            let n0 = toks(es[0]).len() as int;
            lemma_sub(t, pos, toks(m), 0, n0);
            assert(toks(m).subrange(0, n0) =~= toks(es[0]));
            lemma_sub(t, pos, toks(m), n0, n);
            assert(toks(m).subrange(n0, n) =~= rest_toks(es.drop_first(), TokView::And));
            lemma_toks_nonempty(es[0], 0);
            lemma_read_atom(t, pos, es[0]);
            assert forall|i: int| 0 <= i < es.drop_first().len() implies wf_marker(
                #[trigger] es.drop_first()[i],
                0,
            ) by {
                assert(es.drop_first()[i] == es[i + 1]);
            }
            lemma_read_and_rest(t, pos + n0, es.drop_first());
            assert(seq![es[0]] + es.drop_first() =~= es);
        },
        _ => {
            lemma_read_atom(t, pos, m);
        },
    }
}

/// The separators and tokens of the markers after the first of an `and` read back as them.
proof fn lemma_read_and_rest(t: Seq<TokView>, p: int, es: Seq<MarkerModel>)
    requires
        forall|i: int| 0 <= i < es.len() ==> wf_marker(#[trigger] es[i], 0),
        0 <= p,
        p + rest_toks(es, TokView::And).len() <= t.len(),
        t.subrange(p, p + rest_toks(es, TokView::And).len()) == rest_toks(es, TokView::And),
        p + rest_toks(es, TokView::And).len() == t.len() || t[p + rest_toks(es, TokView::And).len()]
            != TokView::And,
    ensures
        and_rest(t, p) == Some((es, p + rest_toks(es, TokView::And).len())),
    decreases es, 0int,
{
    if es.len() > 0 {
        let rt = rest_toks(es, TokView::And);
        let n = rt.len() as int;
        let n0 = toks(es[0]).len() as int;
        assert(wf_marker(es[0], 0));
        lemma_toks_nonempty(es[0], 0);
        lemma_sub(t, p, rt, 0, n);
        assert(t[p] == rt[0]);
        assert(rt.subrange(1, n0 + 1) =~= toks(es[0]));
        lemma_sub(t, p, rt, 1, n0 + 1);
        lemma_read_atom(t, p + 1, es[0]);
        assert(rt.subrange(n0 + 1, n) =~= rest_toks(es.drop_first(), TokView::And));
        lemma_sub(t, p, rt, n0 + 1, n);
        assert forall|i: int| 0 <= i < es.drop_first().len() implies wf_marker(
            #[trigger] es.drop_first()[i],
            0,
        ) by {
            assert(es.drop_first()[i] == es[i + 1]);
        }
        lemma_read_and_rest(t, p + 1 + n0, es.drop_first());
        assert(seq![es[0]] + es.drop_first() =~= es);
    }
}

/// The tokens of a marker read back as it, where neither `and` nor `or` follows them.
proof fn lemma_read_or(t: Seq<TokView>, pos: int, m: MarkerModel)
    requires
        wf_marker(m, 2),
        0 <= pos,
        pos + toks(m).len() <= t.len(),
        t.subrange(pos, pos + toks(m).len()) == toks(m),
        pos + toks(m).len() == t.len() || (t[pos + toks(m).len()] != TokView::And && t[pos
            + toks(m).len()] != TokView::Or),
    ensures
        p_or(t, pos) == Some((m, pos + toks(m).len())),
    decreases m, 2int,
{
    let n = toks(m).len() as int;
    match m {
        MarkerModel::Or(es) => {
            lemma_wf_list(es, 1);
            lemma_list_front(es, TokView::Or);
            let n0 = toks(es[0]).len() as int;
            lemma_sub(t, pos, toks(m), 0, n0);
            assert(toks(m).subrange(0, n0) =~= toks(es[0]));
            lemma_sub(t, pos, toks(m), n0, n);
            let rt = rest_toks(es.drop_first(), TokView::Or);
            assert(toks(m).subrange(n0, n) =~= rt);
            assert(rt[0] == TokView::Or);
            assert(t[pos + n0] == TokView::Or);
            lemma_toks_nonempty(es[0], 1);
            lemma_read_and(t, pos, es[0]);
            assert forall|i: int| 0 <= i < es.drop_first().len() implies wf_marker(
                #[trigger] es.drop_first()[i],
                1,
            ) by {
                assert(es.drop_first()[i] == es[i + 1]);
            }
            lemma_read_or_rest(t, pos + n0, es.drop_first());
            assert(seq![es[0]] + es.drop_first() =~= es);
        },
        _ => {
            assert(wf_marker(m, 1));
            lemma_toks_nonempty(m, 1);
            lemma_read_and(t, pos, m);
        },
    }
}

/// The separators and tokens of the markers after the first of an `or` read back as them.
proof fn lemma_read_or_rest(t: Seq<TokView>, p: int, es: Seq<MarkerModel>)
    requires
        forall|i: int| 0 <= i < es.len() ==> wf_marker(#[trigger] es[i], 1),
        0 <= p,
        p + rest_toks(es, TokView::Or).len() <= t.len(),
        t.subrange(p, p + rest_toks(es, TokView::Or).len()) == rest_toks(es, TokView::Or),
        p + rest_toks(es, TokView::Or).len() == t.len() || (t[p + rest_toks(es, TokView::Or).len()]
            != TokView::And && t[p + rest_toks(es, TokView::Or).len()] != TokView::Or),
    ensures
        or_rest(t, p) == Some((es, p + rest_toks(es, TokView::Or).len())),
    decreases es, 2int,
{
    if es.len() > 0 {
        let rt = rest_toks(es, TokView::Or);
        let n = rt.len() as int;
        let n0 = toks(es[0]).len() as int;
        assert(wf_marker(es[0], 1));
        lemma_toks_nonempty(es[0], 1);
        lemma_sub(t, p, rt, 0, n);
        assert(t[p] == rt[0]);
        assert(rt.subrange(1, n0 + 1) =~= toks(es[0]));
        let rest = rest_toks(es.drop_first(), TokView::Or);
        assert(rt.subrange(n0 + 1, n) =~= rest);
        lemma_sub(t, p, rt, 1, n0 + 1);
        lemma_sub(t, p, rt, n0 + 1, n);
        if es.len() > 1 {
            assert(rest[0] == TokView::Or);
            assert(t[p + 1 + n0] == rt[n0 + 1]);
        }
        lemma_read_and(t, p + 1, es[0]);
        assert forall|i: int| 0 <= i < es.drop_first().len() implies wf_marker(
            #[trigger] es.drop_first()[i],
            1,
        ) by {
            assert(es.drop_first()[i] == es[i + 1]);
        }
        lemma_read_or_rest(t, p + 1 + n0, es.drop_first());
        assert(seq![es[0]] + es.drop_first() =~= es);
    }
}

/// A token as the tokenizer makes one.
pub open spec fn tok_ok(x: TokView) -> bool {
    match x {
        TokView::Str(w) => str_shape(w),
        TokView::Ident(w) => ident_shape(w),
        TokView::Op(w) => op_shape(w),
        _ => true,
    }
}

pub open spec fn all_tok_ok(t: Seq<TokView>) -> bool {
    forall|i: int| 0 <= i < t.len() ==> tok_ok(#[trigger] t[i])
}

proof fn lemma_op_chars(s: Seq<char>, i: int)
    requires
        0 <= i <= s.len(),
    ensures
        forall|k: int| i <= k < op_end(s, i) ==> is_op_char(#[trigger] s[k]),
    decreases s.len() - i,
{
    if i < s.len() && is_op_char(s[i]) {
        lemma_op_chars(s, i + 1);
    }
}

proof fn lemma_word_chars(s: Seq<char>, i: int)
    requires
        0 <= i <= s.len(),
    ensures
        forall|k: int| i <= k < word_end(s, i) ==> is_word_char(#[trigger] s[k]),
    decreases s.len() - i,
{
    if i < s.len() && is_word_char(s[i]) {
        lemma_word_chars(s, i + 1);
    }
}

proof fn lemma_prepend_ok(x: TokView, r: Seq<TokView>)
    requires
        tok_ok(x),
        all_tok_ok(r),
    ensures
        all_tok_ok(seq![x] + r),
{
    assert forall|i: int| 0 <= i < (seq![x] + r).len() implies tok_ok(#[trigger] (seq![x] + r)[i]) by {
        if i > 0 {
            assert((seq![x] + r)[i] == r[i - 1]);
        }
    }
}

/// Every token the tokenizer makes has the shape of its kind.
#[verifier::spinoff_prover]
proof fn lemma_tokens_ok(s: Seq<char>, at: int)
    requires
        tokens_from(s, at) is Some,
    ensures
        all_tok_ok(tokens_from(s, at)->0),
    decreases s.len() - at,
{
    if 0 <= at < s.len() {
        let c = s[at];
        if c == ' ' || c == '\t' {
            lemma_tokens_ok(s, at + 1);
        } else if c == '(' || c == ')' {
            lemma_tokens_ok(s, at + 1);
            let x = if c == '(' {
                TokView::LParen
            } else {
                TokView::RParen
            };
            lemma_prepend_ok(x, tokens_from(s, at + 1)->0);
        } else if is_op_char(c) {
            lemma_op_end(s, at);
            lemma_op_chars(s, at);
            let e = op_end(s, at);
            lemma_tokens_ok(s, e);
            let w = s.subrange(at, e);
            assert forall|k: int| 0 <= k < w.len() implies is_op_char(#[trigger] w[k]) by {
                assert(w[k] == s[at + k]);
            }
            lemma_prepend_ok(TokView::Op(w), tokens_from(s, e)->0);
        } else if c == '"' || c == '\'' {
            lemma_index_of(s, c, at + 1);
            let close = index_of(s, c, at + 1);
            lemma_tokens_ok(s, close + 1);
            let w = s.subrange(at, close + 1);
            assert(w[0] == c);
            assert(w.last() == c);
            assert forall|k: int| 0 <= k < w.subrange(1, w.len() - 1).len() implies #[trigger] w.subrange(
                1,
                w.len() - 1,
            )[k] != c by {
                assert(w.subrange(1, w.len() - 1)[k] == s[at + 1 + k]);
            }
            lemma_prepend_ok(TokView::Str(w), tokens_from(s, close + 1)->0);
        } else if is_alpha(c) || c == '_' {
            lemma_word_end(s, at);
            lemma_word_chars(s, at);
            let e = word_end(s, at);
            lemma_tokens_ok(s, e);
            let w = s.subrange(at, e);
            assert forall|k: int| 0 <= k < w.len() implies is_word_char(#[trigger] w[k]) by {
                assert(w[k] == s[at + k]);
            }
            assert(is_word_char(c));
            let x = if w == seq!['a', 'n', 'd'] {
                TokView::And
            } else if w == seq!['o', 'r'] {
                TokView::Or
            } else {
                TokView::Ident(w)
            };
            lemma_prepend_ok(x, tokens_from(s, e)->0);
        }
    }
}

proof fn lemma_cat_sub<A>(t: Seq<A>, a: int, b: int, c: int)
    requires
        0 <= a <= b <= c <= t.len(),
    ensures
        t.subrange(a, c) == t.subrange(a, b) + t.subrange(b, c),
{
    assert(t.subrange(a, c) =~= t.subrange(a, b) + t.subrange(b, c));
}

/// A comparison or group the grammar reads is one it can have read, read from its own tokens.
#[verifier::spinoff_prover]
proof fn lemma_parsed_atom(t: Seq<TokView>, pos: int)
    requires
        all_tok_ok(t),
        p_atom(t, pos) is Some,
    ensures
        pos < (p_atom(t, pos)->0).1 <= t.len(),
        wf_marker((p_atom(t, pos)->0).0, 0),
        t.subrange(pos, (p_atom(t, pos)->0).1) == toks((p_atom(t, pos)->0).0),
    decreases t.len() - pos, 0int,
{
    if 0 <= pos < t.len() && t[pos] == TokView::LParen {
        lemma_parsed_or(t, pos + 1);
        let (e, p1) = p_or(t, pos + 1)->0;
        assert(t.subrange(pos, p1 + 1) =~= seq![TokView::LParen] + t.subrange(pos + 1, p1) + seq![
            TokView::RParen,
        ]);
    } else {
        let (m, p) = p_comparison(t, pos)->0;
        let l = p_operand(t, pos)->0;
        let (op, q) = p_operator(t, pos + 1)->0;
        let r = p_operand(t, q)->0;
        assert(tok_ok(t[pos]));
        assert(operand_ok(l));
        assert(t[pos] == operand_tok(l));
        assert(tok_ok(t[q]));
        assert(operand_ok(r));
        assert(t[q] == operand_tok(r));
        assert(tok_ok(t[pos + 1]));
        if op == in_word() {
            assert(t.subrange(pos, p) =~= seq![t[pos], t[pos + 1], t[q]]);
        } else if op == not_in_words() {
            assert(t.subrange(pos, p) =~= seq![t[pos], t[pos + 1], t[pos + 2], t[q]]);
        } else {
            assert(t[pos + 1] == TokView::Op(op));
            assert(op_shape(op));
            assert(t.subrange(pos, p) =~= seq![t[pos], t[pos + 1], t[q]]);
        }
        assert(operator_ok(op));
        assert(t.subrange(pos, p) =~= toks(m));
    }
}

/// Markers `and` joins, as the grammar reads them.
proof fn lemma_parsed_and(t: Seq<TokView>, pos: int)
    requires
        all_tok_ok(t),
        p_and(t, pos) is Some,
    ensures
        pos < (p_and(t, pos)->0).1 <= t.len(),
        wf_marker((p_and(t, pos)->0).0, 1),
        t.subrange(pos, (p_and(t, pos)->0).1) == toks((p_and(t, pos)->0).0),
    decreases t.len() - pos, 1int,
{
    lemma_parsed_atom(t, pos);
    let (e, p1) = p_atom(t, pos)->0;
    lemma_parsed_and_rest(t, p1);
    let (es, p2) = and_rest(t, p1)->0;
    lemma_cat_sub(t, pos, p1, p2);
    if es.len() == 0 {
        assert(p2 == p1);
    } else {
        let xs = seq![e] + es;
        assert(xs[0] == e);
        assert(xs.drop_first() =~= es);
        assert forall|i: int| 0 <= i < xs.len() implies wf_marker(#[trigger] xs[i], 0) by {
            if i > 0 {
                assert(xs[i] == es[i - 1]);
            }
        }
        lemma_wf_list(xs, 0);
        lemma_list_front(xs, TokView::And);
    }
}

/// What follows the first marker an `and` joins, as the grammar reads it.
proof fn lemma_parsed_and_rest(t: Seq<TokView>, p: int)
    requires
        all_tok_ok(t),
        and_rest(t, p) is Some,
        0 <= p <= t.len(),
    ensures
        p <= (and_rest(t, p)->0).1 <= t.len(),
        forall|i: int| 0 <= i < (and_rest(t, p)->0).0.len() ==> wf_marker(#[trigger] (and_rest(t, p)->0).0[i], 0),
        t.subrange(p, (and_rest(t, p)->0).1) == rest_toks((and_rest(t, p)->0).0, TokView::And),
    decreases t.len() - p, 1int,
{
    if 0 <= p < t.len() && t[p] == TokView::And {
        lemma_parsed_atom(t, p + 1);
        let (e, p1) = p_atom(t, p + 1)->0;
        lemma_parsed_and_rest(t, p1);
        let (es, p2) = and_rest(t, p1)->0;
        let xs = seq![e] + es;
        assert(xs[0] == e);
        assert(xs.drop_first() =~= es);
        assert forall|i: int| 0 <= i < xs.len() implies wf_marker(#[trigger] xs[i], 0) by {
            if i > 0 {
                assert(xs[i] == es[i - 1]);
            }
        }
        lemma_cat_sub(t, p + 1, p1, p2);
        assert(t.subrange(p, p2) =~= seq![TokView::And] + t.subrange(p + 1, p2));
    } else {
        assert(t.subrange(p, p) =~= Seq::<TokView>::empty());
    }
}

/// A marker as the grammar reads it.
proof fn lemma_parsed_or(t: Seq<TokView>, pos: int)
    requires
        all_tok_ok(t),
        p_or(t, pos) is Some,
    ensures
        pos < (p_or(t, pos)->0).1 <= t.len(),
        wf_marker((p_or(t, pos)->0).0, 2),
        t.subrange(pos, (p_or(t, pos)->0).1) == toks((p_or(t, pos)->0).0),
    decreases t.len() - pos, 3int,
{
    lemma_parsed_and(t, pos);
    let (e, p1) = p_and(t, pos)->0;
    lemma_parsed_or_rest(t, p1);
    let (es, p2) = or_rest(t, p1)->0;
    lemma_cat_sub(t, pos, p1, p2);
    if es.len() == 0 {
        assert(p2 == p1);
    } else {
        let xs = seq![e] + es;
        assert(xs[0] == e);
        assert(xs.drop_first() =~= es);
        assert forall|i: int| 0 <= i < xs.len() implies wf_marker(#[trigger] xs[i], 1) by {
            if i > 0 {
                assert(xs[i] == es[i - 1]);
            }
        }
        lemma_wf_list(xs, 1);
        lemma_list_front(xs, TokView::Or);
    }
}

/// What follows the first marker an `or` joins, as the grammar reads it.
proof fn lemma_parsed_or_rest(t: Seq<TokView>, p: int)
    requires
        all_tok_ok(t),
        or_rest(t, p) is Some,
        0 <= p <= t.len(),
    ensures
        p <= (or_rest(t, p)->0).1 <= t.len(),
        forall|i: int| 0 <= i < (or_rest(t, p)->0).0.len() ==> wf_marker(#[trigger] (or_rest(t, p)->0).0[i], 1),
        t.subrange(p, (or_rest(t, p)->0).1) == rest_toks((or_rest(t, p)->0).0, TokView::Or),
    decreases t.len() - p, 2int,
{
    if 0 <= p < t.len() && t[p] == TokView::Or {
        lemma_parsed_and(t, p + 1);
        let (e, p1) = p_and(t, p + 1)->0;
        lemma_parsed_or_rest(t, p1);
        let (es, p2) = or_rest(t, p1)->0;
        let xs = seq![e] + es;
        assert(xs[0] == e);
        assert(xs.drop_first() =~= es);
        assert forall|i: int| 0 <= i < xs.len() implies wf_marker(#[trigger] xs[i], 1) by {
            if i > 0 {
                assert(xs[i] == es[i - 1]);
            }
        }
        lemma_cat_sub(t, p + 1, p1, p2);
        assert(t.subrange(p, p2) =~= seq![TokView::Or] + t.subrange(p + 1, p2));
    } else {
        assert(t.subrange(p, p) =~= Seq::<TokView>::empty());
    }
}

proof fn lemma_groups_cat(a: Seq<TokView>, b: Seq<TokView>)
    ensures
        groups(a + b) == groups(a) + groups(b),
    decreases b.len(),
{
    if b.len() == 0 {
        assert(a + b =~= a);
    } else {
        lemma_groups_cat(a, b.drop_last());
        assert((a + b).drop_last() =~= a + b.drop_last());
        assert((a + b).last() == b.last());
    }
}

proof fn lemma_groups_none(t: Seq<TokView>)
    requires
        forall|i: int| 0 <= i < t.len() ==> #[trigger] t[i] != TokView::LParen,
    ensures
        groups(t) == 0,
    decreases t.len(),
{
    if t.len() > 0 {
        assert forall|i: int| 0 <= i < t.drop_last().len() implies #[trigger] t.drop_last()[i]
            != TokView::LParen by {
            assert(t.drop_last()[i] == t[i]);
        }
        lemma_groups_none(t.drop_last());
        assert(t[t.len() - 1] != TokView::LParen);
    }
}

proof fn lemma_cmp_groups(l: Seq<char>, op: Seq<char>, r: Seq<char>)
    ensures
        groups(toks(MarkerModel::Comparison(l, op, r))) == 0,
{
    let t = toks(MarkerModel::Comparison(l, op, r));
    assert forall|i: int| 0 <= i < t.len() implies #[trigger] t[i] != TokView::LParen by {
        if i == 0 {
        } else if i == t.len() - 1 {
        } else {
            assert(t[i] == operator_toks(op)[i - 1]);
        }
    }
    lemma_groups_none(t);
}

/// Writing each value in its quote opens no group and closes none.
proof fn lemma_requoted_groups(m: MarkerModel)
    ensures
        groups(toks(requoted(m))) == groups(toks(m)),
    decreases m,
{
    match m {
        MarkerModel::Or(es) => {
            lemma_requoted_list_groups(es, TokView::Or);
        },
        MarkerModel::And(es) => {
            lemma_requoted_list_groups(es, TokView::And);
        },
        MarkerModel::Comparison(l, op, r) => {
            lemma_cmp_groups(l, op, r);
            lemma_cmp_groups(l, op, requote(r));
        },
        MarkerModel::Paren(b) => {
            lemma_requoted_groups(*b);
            lemma_groups_cat(seq![TokView::LParen], toks(*b));
            lemma_groups_cat(seq![TokView::LParen] + toks(*b), seq![TokView::RParen]);
            lemma_groups_cat(seq![TokView::LParen], toks(requoted(*b)));
            lemma_groups_cat(seq![TokView::LParen] + toks(requoted(*b)), seq![TokView::RParen]);
            lemma_groups_none(seq![TokView::RParen]);
        },
    }
}

proof fn lemma_requoted_list_groups(es: Seq<MarkerModel>, sep: TokView)
    requires
        sep == TokView::And || sep == TokView::Or,
    ensures
        groups(toks_list(requoted_list(es), sep)) == groups(toks_list(es, sep)),
    decreases es,
{
    lemma_requoted_list(es);
    if es.len() == 1 {
        assert(es[0] == es.last());
        lemma_requoted_groups(es[0]);
    } else if es.len() >= 2 {
        let d = es.drop_last();
        lemma_requoted_list_groups(d, sep);
        lemma_requoted_groups(es.last());
        let a = toks_list(d, sep);
        let b = toks_list(requoted_list(d), sep);
        lemma_groups_none(seq![sep]);
        lemma_groups_cat(a, seq![sep]);
        lemma_groups_cat(a + seq![sep], toks(es.last()));
        lemma_groups_cat(b, seq![sep]);
        lemma_groups_cat(b + seq![sep], toks(requoted(es.last())));
    }
}

proof fn lemma_wf_requoted(m: MarkerModel, lv: int)
    requires
        wf_marker(m, lv),
    ensures
        wf_marker(requoted(m), lv),
        written(requoted(m)) == written(m),
    decreases m,
{
    match m {
        MarkerModel::Or(es) => {
            lemma_requoted_list(es);
            lemma_wf_requoted_list(es, 1, or_sep());
        },
        MarkerModel::And(es) => {
            lemma_requoted_list(es);
            lemma_wf_requoted_list(es, 0, and_sep());
        },
        MarkerModel::Comparison(l, op, r) => {
            lemma_requote_ok(r);
        },
        MarkerModel::Paren(b) => {
            lemma_wf_requoted(*b, 2);
        },
    }
}

proof fn lemma_wf_requoted_list(es: Seq<MarkerModel>, lv: int, sep: Seq<char>)
    requires
        wf_list(es, lv),
    ensures
        wf_list(requoted_list(es), lv),
        written_list(requoted_list(es), sep) == written_list(es, sep),
    decreases es,
{
    lemma_requoted_list(es);
    if es.len() > 0 {
        lemma_wf_requoted_list(es.drop_last(), lv, sep);
        lemma_wf_requoted(es.last(), lv);
        if es.len() == 1 {
            assert(es[0] == es.last());
            assert(requoted_list(es)[0] == requoted(es[0]));
        }
    }
}

/// A marker read from text and written in its one form reads back as the marker it was, with
/// each value in the quote it is written in, and that marker is written the same way again: so
/// reading and writing a marker twice writes what doing it once wrote.
#[verifier::spinoff_prover]
pub proof fn lemma_marker_settles(s: Seq<char>)
    requires
        marker_of(s) is Some,
    ensures
        marker_of(written(marker_of(s)->0)) == Some(requoted(marker_of(s)->0)),
        written(requoted(marker_of(s)->0)) == written(marker_of(s)->0),
{
    let t = tokens_from(s, 0)->0;
    lemma_tokens_ok(s, 0);
    let m = marker_of(s)->0;
    lemma_parsed_or(t, 0);
    assert(t.subrange(0, t.len() as int) =~= t);
    assert(t == toks(m));
    let w = written(m);
    assert(w.subrange(0, w.len() as int) =~= w);
    lemma_marker_tokens(w, 0, m, 2);
    assert(tokens_from(w, w.len() as int) == Some(Seq::<TokView>::empty()));
    let tq = toks(requoted(m));
    assert(tq + Seq::<TokView>::empty() =~= tq);
    assert(tokens_from(w, 0) == Some(tq));
    lemma_wf_requoted(m, 2);
    lemma_requoted_groups(m);
    assert(groups(tq) <= GROUPS);
    assert(tq.subrange(0, tq.len() as int) =~= tq);
    lemma_read_or(tq, 0, requoted(m));
}

/// Text with no line break in it.
pub open spec fn no_nl(x: Seq<char>) -> bool {
    forall|i: int| 0 <= i < x.len() ==> #[trigger] x[i] != '\n' && x[i] != '\r'
}

/// The text a token holds.
pub open spec fn tok_text(t: TokView) -> Seq<char> {
    match t {
        TokView::Ident(x) => x,
        TokView::Str(x) => x,
        TokView::Op(x) => x,
        _ => seq![],
    }
}

pub open spec fn toks_no_nl(t: Seq<TokView>) -> bool {
    forall|i: int| 0 <= i < t.len() ==> no_nl(#[trigger] tok_text(t[i]))
}

proof fn lemma_sub_no_nl(s: Seq<char>, a: int, b: int)
    requires
        no_nl(s),
        0 <= a <= b <= s.len(),
    ensures
        no_nl(s.subrange(a, b)),
{
    assert forall|i: int| 0 <= i < s.subrange(a, b).len() implies #[trigger] s.subrange(a, b)[i]
        != '\n' && s.subrange(a, b)[i] != '\r' by {
        assert(s.subrange(a, b)[i] == s[a + i]);
    }
}

proof fn lemma_prepend_no_nl(x: TokView, r: Seq<TokView>)
    requires
        no_nl(tok_text(x)),
        toks_no_nl(r),
    ensures
        toks_no_nl(seq![x] + r),
{
    assert forall|i: int| 0 <= i < (seq![x] + r).len() implies no_nl(
        #[trigger] tok_text((seq![x] + r)[i]),
    ) by {
        if i > 0 {
            assert((seq![x] + r)[i] == r[i - 1]);
        }
    }
}

/// Tokens read from text with no line break hold none.
#[verifier::spinoff_prover]
proof fn lemma_tokens_no_nl(s: Seq<char>, at: int)
    requires
        tokens_from(s, at) is Some,
        no_nl(s),
    ensures
        toks_no_nl(tokens_from(s, at)->0),
    decreases s.len() - at,
{
    if 0 <= at < s.len() {
        let c = s[at];
        if c == ' ' || c == '\t' {
            lemma_tokens_no_nl(s, at + 1);
        } else if c == '(' || c == ')' {
            lemma_tokens_no_nl(s, at + 1);
            let x = if c == '(' {
                TokView::LParen
            } else {
                TokView::RParen
            };
            lemma_prepend_no_nl(x, tokens_from(s, at + 1)->0);
        } else if is_op_char(c) {
            lemma_op_end(s, at);
            let e = op_end(s, at);
            lemma_tokens_no_nl(s, e);
            lemma_sub_no_nl(s, at, e);
            lemma_prepend_no_nl(TokView::Op(s.subrange(at, e)), tokens_from(s, e)->0);
        } else if c == '"' || c == '\'' {
            lemma_index_of(s, c, at + 1);
            let close = index_of(s, c, at + 1);
            lemma_tokens_no_nl(s, close + 1);
            lemma_sub_no_nl(s, at, close + 1);
            lemma_prepend_no_nl(TokView::Str(s.subrange(at, close + 1)), tokens_from(s, close + 1)->0);
        } else if is_alpha(c) || c == '_' {
            lemma_word_end(s, at);
            let e = word_end(s, at);
            lemma_tokens_no_nl(s, e);
            lemma_sub_no_nl(s, at, e);
            let w = s.subrange(at, e);
            let x = if w == seq!['a', 'n', 'd'] {
                TokView::And
            } else if w == seq!['o', 'r'] {
                TokView::Or
            } else {
                TokView::Ident(w)
            };
            lemma_prepend_no_nl(x, tokens_from(s, e)->0);
        }
    }
}

proof fn lemma_cat_no_nl(a: Seq<char>, b: Seq<char>)
    requires
        no_nl(a),
        no_nl(b),
    ensures
        no_nl(a + b),
{
    assert forall|i: int| 0 <= i < (a + b).len() implies #[trigger] (a + b)[i] != '\n' && (a
        + b)[i] != '\r' by {
        if i >= a.len() {
            assert((a + b)[i] == b[i - a.len()]);
        }
    }
}

proof fn lemma_toks_sub_no_nl(t: Seq<TokView>, a: int, b: int)
    requires
        toks_no_nl(t),
        0 <= a <= b <= t.len(),
    ensures
        toks_no_nl(t.subrange(a, b)),
{
    assert forall|i: int| 0 <= i < t.subrange(a, b).len() implies no_nl(
        #[trigger] tok_text(t.subrange(a, b)[i]),
    ) by {
        assert(t.subrange(a, b)[i] == t[a + i]);
    }
}

/// A marker whose tokens hold no line break is written with none.
#[verifier::spinoff_prover]
proof fn lemma_written_no_nl(m: MarkerModel)
    requires
        toks_no_nl(toks(m)),
    ensures
        no_nl(written(m)),
    decreases m,
{
    match m {
        MarkerModel::Or(es) => {
            lemma_list_no_nl(es, or_sep(), TokView::Or);
        },
        MarkerModel::And(es) => {
            lemma_list_no_nl(es, and_sep(), TokView::And);
        },
        MarkerModel::Comparison(l, op, r) => {
            let t = toks(m);
            assert(tok_text(t[0]) == l);
            assert(no_nl(tok_text(t[0])));
            assert(tok_text(t[t.len() - 1]) == r);
            assert(no_nl(tok_text(t[t.len() - 1])));
            let rq = requote(r);
            assert(no_nl(rq)) by {
                if r.len() >= 2 && ((r[0] == '"' && r.last() == '"') || (r[0] == '\'' && r.last()
                    == '\'')) {
                    lemma_sub_no_nl(r, 1, r.len() - 1);
                    let inner = r.subrange(1, r.len() - 1);
                    let q = if inner.contains('\'') {
                        '"'
                    } else {
                        '\''
                    };
                    lemma_cat_no_nl(seq![q], inner);
                    lemma_cat_no_nl(seq![q] + inner, seq![q]);
                }
            }
            if op == in_word() || op == not_in_words() {
                lemma_cat_no_nl(l, seq![' ']);
                lemma_cat_no_nl(l + seq![' '], op);
                lemma_cat_no_nl(l + seq![' '] + op, seq![' ']);
                lemma_cat_no_nl(l + seq![' '] + op + seq![' '], rq);
            } else {
                assert(tok_text(t[1]) == op);
                assert(no_nl(tok_text(t[1])));
                lemma_cat_no_nl(l, op);
                lemma_cat_no_nl(l + op, rq);
            }
        },
        MarkerModel::Paren(b) => {
            let t = toks(m);
            let nb = toks(*b).len() as int;
            lemma_toks_sub_no_nl(t, 1, nb + 1);
            assert(t.subrange(1, nb + 1) =~= toks(*b));
            lemma_written_no_nl(*b);
            lemma_cat_no_nl(seq!['('], written(*b));
            lemma_cat_no_nl(seq!['('] + written(*b), seq![')']);
        },
    }
}

proof fn lemma_list_no_nl(es: Seq<MarkerModel>, sep: Seq<char>, sep_tok: TokView)
    requires
        toks_no_nl(toks_list(es, sep_tok)),
        (sep == and_sep() && sep_tok == TokView::And) || (sep == or_sep() && sep_tok
            == TokView::Or),
    ensures
        no_nl(written_list(es, sep)),
    decreases es,
{
    if es.len() == 1 {
        lemma_written_no_nl(es[0]);
    } else if es.len() > 1 {
        let d = es.drop_last();
        let t = toks_list(es, sep_tok);
        let td = toks_list(d, sep_tok);
        let tl = toks(es.last());
        assert(t == td + seq![sep_tok] + tl);
        lemma_toks_sub_no_nl(t, 0, td.len() as int);
        assert(t.subrange(0, td.len() as int) =~= td);
        lemma_toks_sub_no_nl(t, td.len() as int + 1, t.len() as int);
        assert(t.subrange(td.len() as int + 1, t.len() as int) =~= tl);
        lemma_list_no_nl(d, sep, sep_tok);
        lemma_written_no_nl(es.last());
        lemma_cat_no_nl(written_list(d, sep), sep);
        lemma_cat_no_nl(written_list(d, sep) + sep, written(es.last()));
    }
}

/// A marker that can have been read is written opening and closing on no white space.
proof fn lemma_written_ends(m: MarkerModel, lv: int)
    requires
        wf_marker(m, lv),
    ensures
        written(m).len() > 0,
        !is_ws(written(m)[0]),
        !is_ws(written(m).last()),
    decreases m,
{
    match m {
        MarkerModel::Or(es) => {
            lemma_list_ends(es, 1, or_sep());
        },
        MarkerModel::And(es) => {
            lemma_list_ends(es, 0, and_sep());
        },
        MarkerModel::Comparison(l, op, r) => {
            lemma_requote_ok(r);
            let rq = requote(r);
            assert(is_word_char(rq.last()) || rq.last() == '"' || rq.last() == '\'');
            assert(written(m)[0] == l[0]);
            if op == in_word() || op == not_in_words() {
                assert(written(m).last() == rq.last());
            } else {
                assert(written(m) == l + op + rq);
                assert(written(m).last() == rq.last());
            }
        },
        MarkerModel::Paren(b) => {
            assert(written(m)[0] == '(');
        },
    }
}

proof fn lemma_list_ends(es: Seq<MarkerModel>, lv: int, sep: Seq<char>)
    requires
        wf_list(es, lv),
        es.len() >= 1,
    ensures
        written_list(es, sep).len() > 0,
        !is_ws(written_list(es, sep)[0]),
        !is_ws(written_list(es, sep).last()),
    decreases es,
{
    if es.len() == 1 {
        assert(es[0] == es.last());
        lemma_written_ends(es[0], lv);
    } else {
        let d = es.drop_last();
        lemma_list_ends(d, lv, sep);
        lemma_written_ends(es.last(), lv);
        let w = written_list(es, sep);
        assert(w == written_list(d, sep) + sep + written(es.last()));
        assert(w[0] == written_list(d, sep)[0]);
    }
}

/// A marker read from text with no line break is written with none, opening and closing on no
/// white space.
pub proof fn lemma_written_text(s: Seq<char>)
    requires
        marker_of(s) is Some,
        no_nl(s),
    ensures
        written(marker_of(s)->0).len() > 0,
        !is_ws(written(marker_of(s)->0)[0]),
        !is_ws(written(marker_of(s)->0).last()),
        no_nl(written(marker_of(s)->0)),
{
    let t = tokens_from(s, 0)->0;
    lemma_tokens_ok(s, 0);
    lemma_tokens_no_nl(s, 0);
    let m = marker_of(s)->0;
    lemma_parsed_or(t, 0);
    assert(t.subrange(0, t.len() as int) =~= t);
    lemma_written_no_nl(m);
    lemma_written_ends(m, 2);
}

} // verus!
