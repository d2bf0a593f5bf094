//! What reading back a written clause gives: a clause the reader read, written back, reads as a
//! clause written the same way, with its closing zeros dropped or not.

use vstd::prelude::*;
use crate::pep508::number::canonical;
use crate::pep508::operator::{Operator, operator_from, operator_of, operators, symbol};
use crate::pep508::spelling::{
    wf_version, settled, lemma_read_spelled, lemma_read_version_wf, lemma_spelled_ends,
    lemma_trim_plain,
};
use crate::pep508::version::{VersionView, spelled, version_of};
use crate::pep508::version_op::{
    VersionOpView, arbitrary_char, holds_together, op_written, release_only, shortened, trim_zeros,
    version_op_of,
};
use crate::text::{is_digit, is_ws, trim, written_at};

verus! {

/// A clause as the reader leaves one.
pub open spec fn op_ok(o: VersionOpView) -> bool {
    &&& o.literal.len() > 0
    &&& !is_ws(o.literal[0])
    &&& !is_ws(o.literal.last())
    &&& o.op == Operator::ArbitraryEqual ==> forall|i: int|
        0 <= i < o.literal.len() ==> arbitrary_char(#[trigger] o.literal[i])
    &&& o.op != Operator::ArbitraryEqual ==> (o.version matches Some(v) && wf_version(v)
        && holds_together(o.op, v))
}

/// The clause as it is written back, with its closing zeros dropped unless they are kept.
pub open spec fn kept(o: VersionOpView, keep_full_version: bool) -> VersionOpView {
    if keep_full_version {
        o
    } else {
        shortened(o)
    }
}

proof fn lemma_trimmed_no_ws(s: Seq<char>)
    ensures
        trim(s).len() > 0 ==> !is_ws(trim(s)[0]) && !is_ws(trim(s).last()),
{
    crate::text::lemma_ws_end_bounds(s, 0);
    let a = crate::text::ws_end(s, 0);
    let t0 = s.skip(a);
    crate::text::lemma_ws_start_bounds(t0, t0.len() as int);
    let b = crate::text::ws_start(t0, t0.len() as int);
    if b > 0 {
        assert(trim(s)[0] == t0[0]);
        assert(t0[0] == s[a]);
        assert(trim(s).last() == t0[b - 1]);
    }
}

/// A clause the reader reads is one as it leaves one.
pub proof fn lemma_clause_ok(raw: Seq<char>)
    requires
        version_op_of(raw) is Some,
    ensures
        op_ok(version_op_of(raw)->0),
{
    let t = trim(raw);
    let op = operator_of(t)->0;
    let literal = trim(t.skip(symbol(op).len() as int));
    lemma_trimmed_no_ws(t.skip(symbol(op).len() as int));
    crate::text::lemma_ws_end_bounds(t.skip(symbol(op).len() as int), 0);
    let o = version_op_of(raw)->0;
    assert(o.literal == literal);
    if op != Operator::ArbitraryEqual {
        lemma_read_version_wf(literal);
    }
}

proof fn lemma_not_written(s: Seq<char>, pat: Seq<char>, x: int)
    requires
        0 <= x < pat.len(),
        x < s.len(),
        s[x] != pat[x],
    ensures
        !written_at(s, 0, pat),
{
    if pat.len() <= s.len() && s.subrange(0, pat.len() as int) == pat {
        assert(s.subrange(0, pat.len() as int)[x] == s[x]);
    }
}

proof fn lemma_operator_at(s: Seq<char>, j: int, jj: int)
    requires
        0 <= j <= jj < operators().len(),
        forall|i: int| j <= i < jj ==> !written_at(s, 0, symbol(#[trigger] operators()[i])),
        written_at(s, 0, symbol(operators()[jj])),
    ensures
        operator_from(s, j) == Some(operators()[jj]),
    decreases jj - j,
{
    if j < jj {
        lemma_operator_at(s, j + 1, jj);
    }
}

/// An operator written before a digit reads as that operator.
#[verifier::spinoff_prover]
proof fn lemma_operator_read(op: Operator, rest: Seq<char>)
    requires
        rest.len() > 0,
        is_digit(rest[0]),
    ensures
        operator_of(symbol(op) + rest) == Some(op),
{
    let s = symbol(op) + rest;
    let ops = operators();
    let n = symbol(op).len() as int;
    assert(s.subrange(0, n) =~= symbol(op));
    assert(s[n] == rest[0]);
    assert forall|i: int| 0 <= i < n implies #[trigger] s[i] == symbol(op)[i] by {}
    match op {
        Operator::ArbitraryEqual => {
            lemma_operator_at(s, 0, 0);
        },
        Operator::Compatible => {
            lemma_not_written(s, symbol(ops[0]), 0);
            lemma_operator_at(s, 0, 1);
        },
        Operator::Equal => {
            lemma_not_written(s, symbol(ops[0]), 2);
            lemma_not_written(s, symbol(ops[1]), 0);
            lemma_operator_at(s, 0, 2);
        },
        Operator::GreaterEqual => {
            lemma_not_written(s, symbol(ops[0]), 0);
            lemma_not_written(s, symbol(ops[1]), 0);
            lemma_not_written(s, symbol(ops[2]), 0);
            lemma_operator_at(s, 0, 3);
        },
        Operator::GreaterThan => {
            lemma_not_written(s, symbol(ops[0]), 0);
            lemma_not_written(s, symbol(ops[1]), 0);
            lemma_not_written(s, symbol(ops[2]), 0);
            lemma_not_written(s, symbol(ops[3]), 1);
            lemma_operator_at(s, 0, 4);
        },
        Operator::LessEqual => {
            lemma_not_written(s, symbol(ops[0]), 0);
            lemma_not_written(s, symbol(ops[1]), 0);
            lemma_not_written(s, symbol(ops[2]), 0);
            lemma_not_written(s, symbol(ops[3]), 0);
            lemma_not_written(s, symbol(ops[4]), 0);
            lemma_operator_at(s, 0, 5);
        },
        Operator::LessThan => {
            lemma_not_written(s, symbol(ops[0]), 0);
            lemma_not_written(s, symbol(ops[1]), 0);
            lemma_not_written(s, symbol(ops[2]), 0);
            lemma_not_written(s, symbol(ops[3]), 0);
            lemma_not_written(s, symbol(ops[4]), 0);
            lemma_not_written(s, symbol(ops[5]), 1);
            lemma_operator_at(s, 0, 6);
        },
        Operator::NotEqual => {
            lemma_not_written(s, symbol(ops[0]), 0);
            lemma_not_written(s, symbol(ops[1]), 0);
            lemma_not_written(s, symbol(ops[2]), 0);
            lemma_not_written(s, symbol(ops[3]), 0);
            lemma_not_written(s, symbol(ops[4]), 0);
            lemma_not_written(s, symbol(ops[5]), 0);
            lemma_not_written(s, symbol(ops[6]), 0);
            lemma_operator_at(s, 0, 7);
        },
    }
}

/// Dropping the closing zeros keeps the first number and every one before the zeros, and drops
/// nothing more a second time.
proof fn lemma_trim_zeros(r: Seq<Seq<char>>)
    requires
        r.len() > 0,
    ensures
        0 < trim_zeros(r).len() <= r.len(),
        forall|i: int| 0 <= i < trim_zeros(r).len() ==> #[trigger] trim_zeros(r)[i] == r[i],
        trim_zeros(trim_zeros(r)) == trim_zeros(r),
    decreases r.len(),
{
    if r.len() > 1 && r.last() == seq!['0'] {
        lemma_trim_zeros(r.drop_last());
        assert forall|i: int| 0 <= i < trim_zeros(r).len() implies #[trigger] trim_zeros(r)[i]
            == r[i] by {
            assert(trim_zeros(r)[i] == r.drop_last()[i]);
        }
    }
}

/// The version a clause compares against, with its closing zeros dropped.
pub open spec fn trimmed_version(v: VersionView) -> VersionView {
    VersionView {
        epoch: v.epoch,
        release: trim_zeros(v.release),
        pre: v.pre,
        post: v.post,
        dev: v.dev,
        local: v.local,
        has_wildcard: v.has_wildcard,
    }
}

proof fn lemma_trimmed_version(v: VersionView, op: Operator)
    requires
        wf_version(v),
        holds_together(op, v),
        op != Operator::Compatible,
    ensures
        wf_version(trimmed_version(v)),
        holds_together(op, trimmed_version(v)),
        trimmed_version(trimmed_version(v)) == trimmed_version(v),
        release_only(trimmed_version(v)) == release_only(v),
{
    lemma_trim_zeros(v.release);
    let t = trimmed_version(v);
    assert forall|i: int| 0 <= i < t.release.len() implies canonical(#[trigger] t.release[i]) by {
        assert(t.release[i] == v.release[i]);
    }
}

/// `===` and the text it was given read back as that clause.
proof fn lemma_reread_arbitrary(o: VersionOpView)
    requires
        op_ok(o),
        o.op == Operator::ArbitraryEqual,
    ensures
        version_op_of(symbol(o.op) + o.literal) == Some(
            VersionOpView { op: o.op, version: version_of(o.literal), literal: o.literal },
        ),
{
    let lit = o.literal;
    let w = symbol(o.op) + lit;
    assert(w[0] == '=');
    assert(w.last() == lit.last());
    lemma_trim_plain(w);
    lemma_operator_read_arbitrary(lit);
    assert(w.skip(3) =~= lit);
    lemma_trim_plain(lit);
}

/// An operator written before a spelled version: the text is trimmed already, opens with the
/// operator, and holds the spelling after it.
#[verifier::spinoff_prover]
proof fn lemma_clause_text(op: Operator, v: VersionView)
    requires
        op != Operator::ArbitraryEqual,
        wf_version(v),
    ensures
        trim(symbol(op) + spelled(v)) == symbol(op) + spelled(v),
        operator_of(symbol(op) + spelled(v)) == Some(op),
        trim((symbol(op) + spelled(v)).skip(symbol(op).len() as int)) == spelled(v),
        spelled(v).len() > 0,
        !is_ws(spelled(v)[0]),
        !is_ws(spelled(v).last()),
{
    let w = symbol(op) + spelled(v);
    lemma_spelled_ends(v);
    lemma_operator_read(op, spelled(v));
    assert(w[0] == symbol(op)[0]);
    assert(w.last() == spelled(v).last());
    lemma_trim_plain(w);
    assert(w.skip(symbol(op).len() as int) =~= spelled(v));
    lemma_trim_plain(spelled(v));
}

/// An operator and a spelled version read back as the clause of the settled version.
#[verifier::spinoff_prover]
proof fn lemma_reread_version(op: Operator, v: VersionView)
    requires
        op != Operator::ArbitraryEqual,
        wf_version(v),
        holds_together(op, v),
    ensures
        version_op_of(symbol(op) + spelled(v)) == Some(
            VersionOpView { op, version: Some(settled(v)), literal: spelled(v) },
        ),
        wf_version(settled(v)),
        spelled(settled(v)) == spelled(v),
        holds_together(op, settled(v)),
        spelled(v).len() > 0,
        !is_ws(spelled(v)[0]),
        !is_ws(spelled(v).last()),
{
    lemma_clause_text(op, v);
    lemma_read_spelled(v);
    let w = symbol(op) + spelled(v);
    let t = trim(w);
    assert(t == w);
    let literal = trim(t.skip(symbol(op).len() as int));
    assert(literal == spelled(v));
    assert(version_of(literal) == Some(settled(v)));
}

/// A clause the reader read, written back with its closing zeros dropped or kept, reads as a
/// clause that is written back the same way: writing a clause that was read settles it.
#[verifier::spinoff_prover]
pub proof fn lemma_clause_settles(o: VersionOpView, keep_full_version: bool)
    requires
        op_ok(o),
    ensures
        version_op_of(op_written(kept(o, keep_full_version))) is Some,
        op_written(kept(version_op_of(op_written(kept(o, keep_full_version)))->0, keep_full_version))
            == op_written(kept(o, keep_full_version)),
        op_ok(version_op_of(op_written(kept(o, keep_full_version)))->0),
{
    let o1 = kept(o, keep_full_version);
    let w = op_written(o1);
    assert(o1.op == o.op);
    assert(o1.literal == o.literal);
    if o.op == Operator::ArbitraryEqual {
        assert(w == symbol(o.op) + o.literal);
        lemma_reread_arbitrary(o);
    } else {
        let v = o.version->0;
        let v1 = o1.version->0;
        let trims = !keep_full_version && o.op != Operator::Compatible && release_only(v);
        if trims {
            lemma_trimmed_version(v, o.op);
            assert(v1 == trimmed_version(v));
        } else {
            assert(v1 == v);
        }
        assert(wf_version(v1) && holds_together(o.op, v1));
        assert(w == symbol(o.op) + spelled(v1));
        lemma_reread_version(o.op, v1);
        if trims {
            assert(trimmed_version(settled(v1)) == settled(v1));
        }
    }
}

/// `===` opens any text with that operator.
proof fn lemma_operator_read_arbitrary(rest: Seq<char>)
    ensures
        operator_of(symbol(Operator::ArbitraryEqual) + rest) == Some(Operator::ArbitraryEqual),
{
    let s = symbol(Operator::ArbitraryEqual) + rest;
    assert(s.subrange(0, 3) =~= symbol(Operator::ArbitraryEqual));
    lemma_operator_at(s, 0, 0);
}

/// The version with its closing zeros dropped is one the reader leaves, and goes with the same
/// operators.
pub proof fn lemma_trimmed_version_pub(v: VersionView, op: Operator)
    requires
        wf_version(v),
        holds_together(op, v),
        op != Operator::Compatible,
    ensures
        wf_version(trimmed_version(v)),
        holds_together(op, trimmed_version(v)),
{
    lemma_trimmed_version(v, op);
}

} // verus!
