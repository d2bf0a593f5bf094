//! Formatting a requirement is stable: a requirement read from text and written in its one form
//! reads back as a requirement written the same way.

use vstd::prelude::*;
use crate::pep508::marker::{MarkerModel, marker_of, written};
use crate::pep508::number::canonical;
use crate::pep508::operator::{Operator, symbol};
use crate::pep508::requirement::{
    PinView, RequirementView, canonical_of, collapse_seps, distribution_name, ends_with, extras_of,
    head_of, insert_at, insert_sorted, lemma_insert_sorted, list_text, marker_break_from,
    name_char, name_end_from, normalized, req_written, requirement_of, sort_seqs, specifiers_of,
};
use crate::pep508::round_trip::{lemma_marker_settles, lemma_written_text, no_nl, requoted};
use crate::pep508::settling::{kept, op_ok, trimmed_version};
use crate::pep508::spelling::{lemma_trim_plain, num_ok, wf_version};
use crate::pep508::version::{
    VersionView, dev_part, epoch_part, is_local_char, is_sep, local_part, local_spelling, numbered,
    post_part, pre_labels, pre_part, pre_spelling, spelled, wildcard_part,
};
use crate::pep508::version_op::{VersionOpView, arbitrary_char, op_written, release_only, version_op_of};
use crate::text::{
    index_of, is_alnum, is_digit, is_ws, join, lemma_lex_antisym, lemma_lex_total, lemma_lex_trans,
    lemma_split_join, lex_le, lower, lower_all, split_on, trim, trim_start, ws_end, ws_start,
};

verus! {

/// Whether the texts stand in order.
pub open spec fn sorted(t: Seq<Seq<char>>) -> bool {
    forall|i: int, j: int| 0 <= i < j < t.len() ==> lex_le(#[trigger] t[i], #[trigger] t[j])
}

/// Putting a text into ordered texts where it belongs keeps them in order.
#[verifier::spinoff_prover]
proof fn lemma_insert_keeps_sorted(x: Seq<char>, t: Seq<Seq<char>>)
    requires
        sorted(t),
    ensures
        sorted(insert_sorted(x, t)),
        insert_sorted(x, t).len() == t.len() + 1,
        forall|i: int| 0 <= i < insert_sorted(x, t).len() ==> (#[trigger] insert_sorted(x, t)[i] == x
            || t.contains(insert_sorted(x, t)[i])),
{
    lemma_insert_sorted(x, t);
    let j = insert_at(x, t, 0);
    let r = insert_sorted(x, t);
    lemma_insert_at_facts(x, t, 0);
    assert forall|a: int, b: int| 0 <= a < b < r.len() implies lex_le(#[trigger] r[a], #[trigger] r[b]) by {
        if b < j {
            assert(r[a] == t[a] && r[b] == t[b]);
        } else if b == j {
            assert(r[b] == x);
            assert(r[a] == t[a]);
            lemma_lex_total(x, t[a]);
        } else if a < j {
            assert(r[a] == t[a] && r[b] == t[b - 1]);
        } else if a == j {
            assert(r[a] == x && r[b] == t[b - 1]);
            if j < b - 1 {
                lemma_lex_trans(x, t[j], t[b - 1]);
            }
        } else {
            assert(r[a] == t[a - 1] && r[b] == t[b - 1]);
        }
    }
    assert forall|i: int| 0 <= i < r.len() implies (#[trigger] r[i] == x || t.contains(r[i])) by {
        if i < j {
            assert(r[i] == t[i]);
        } else if i > j {
            assert(r[i] == t[i - 1]);
        }
    }
}

/// Where a text goes among others: after every one it does not come before, before the one it
/// does.
proof fn lemma_insert_at_facts(x: Seq<char>, t: Seq<Seq<char>>, j: int)
    requires
        0 <= j <= t.len(),
    ensures
        j <= insert_at(x, t, j) <= t.len(),
        forall|i: int| j <= i < insert_at(x, t, j) ==> !lex_le(x, #[trigger] t[i]),
        insert_at(x, t, j) < t.len() ==> lex_le(x, t[insert_at(x, t, j)]),
    decreases t.len() - j,
{
    if j < t.len() && !lex_le(x, t[j]) {
        lemma_insert_at_facts(x, t, j + 1);
    }
}

/// Sorting gives the texts in order, each one of the texts sorted.
pub proof fn lemma_sort_sorted(s: Seq<Seq<char>>)
    ensures
        sorted(sort_seqs(s)),
        sort_seqs(s).len() == s.len(),
        forall|i: int| 0 <= i < sort_seqs(s).len() ==> s.contains(#[trigger] sort_seqs(s)[i]),
    decreases s.len(),
{
    if s.len() > 0 {
        let d = s.drop_last();
        lemma_sort_sorted(d);
        lemma_insert_keeps_sorted(s.last(), sort_seqs(d));
        let r = sort_seqs(s);
        assert forall|i: int| 0 <= i < r.len() implies s.contains(#[trigger] r[i]) by {
            if r[i] == s.last() {
                assert(s[s.len() - 1] == s.last());
            } else {
                let k = choose|k: int| 0 <= k < sort_seqs(d).len() && sort_seqs(d)[k] == r[i];
                assert(d.contains(sort_seqs(d)[k]));
                let m = choose|m: int| 0 <= m < d.len() && d[m] == sort_seqs(d)[k];
                assert(s[m] == d[m]);
            }
        }
    }
}

/// Texts in order are what sorting them gives.
#[verifier::spinoff_prover]
pub proof fn lemma_sort_fixed(t: Seq<Seq<char>>)
    requires
        sorted(t),
    ensures
        sort_seqs(t) == t,
    decreases t.len(),
{
    if t.len() > 0 {
        let d = t.drop_last();
        let x = t.last();
        assert(sorted(d)) by {
            assert forall|a: int, b: int| 0 <= a < b < d.len() implies lex_le(#[trigger] d[a], #[trigger] d[b]) by {
                assert(d[a] == t[a] && d[b] == t[b]);
            }
        }
        lemma_sort_fixed(d);
        lemma_insert_sorted(x, d);
        lemma_insert_at_facts(x, d, 0);
        let j = insert_at(x, d, 0);
        assert forall|i: int| j <= i < d.len() implies #[trigger] d[i] == x by {
            assert(lex_le(x, d[j]));
            assert(d[i] == t[i]);
            assert(lex_le(t[i], t[t.len() - 1]));
            if j < i {
                assert(d[j] == t[j]);
                assert(lex_le(t[j], t[i]));
                lemma_lex_trans(x, d[j], d[i]);
            }
            lemma_lex_antisym(d[i], x);
        }
        assert(d.take(j) + seq![x] + d.skip(j) =~= t) by {
            assert forall|i: int| 0 <= i < t.len() implies #[trigger] (d.take(j) + seq![x] + d.skip(j))[i]
                == t[i] by {
                if i < j {
                } else if i == j {
                    if j < d.len() {
                        assert(d[j] == x);
                    }
                } else {
                    assert((d.take(j) + seq![x] + d.skip(j))[i] == d[i - 1]);
                    assert(d[i - 1] == x);
                    if i < t.len() - 1 {
                        assert(d[i] == x);
                        assert(t[i] == d[i]);
                    }
                }
            }
        }
    }
}

/// Sorting sorted texts changes nothing.
pub proof fn lemma_sort_twice(s: Seq<Seq<char>>)
    ensures
        sort_seqs(sort_seqs(s)) == sort_seqs(s),
{
    lemma_sort_sorted(s);
    lemma_sort_fixed(sort_seqs(s));
}

/// A character a written clause holds.
pub open spec fn clause_char(c: char) -> bool {
    ||| is_alnum(c)
    ||| c == '.' || c == '!' || c == '+' || c == '*' || c == '-' || c == '_'
    ||| c == '=' || c == '<' || c == '>' || c == '~'
    ||| c == '\u{212a}' || c == '\u{17f}'
}

pub open spec fn clause_text(s: Seq<char>) -> bool {
    forall|i: int| 0 <= i < s.len() ==> clause_char(#[trigger] s[i])
}

proof fn lemma_clause_cat(a: Seq<char>, b: Seq<char>)
    requires
        clause_text(a),
        clause_text(b),
    ensures
        clause_text(a + b),
{
    assert forall|i: int| 0 <= i < (a + b).len() implies clause_char(#[trigger] (a + b)[i]) by {
        if i >= a.len() {
            assert((a + b)[i] == b[i - a.len()]);
        }
    }
}

proof fn lemma_clause_join(ps: Seq<Seq<char>>, sep: Seq<char>)
    requires
        clause_text(sep),
        forall|i: int| 0 <= i < ps.len() ==> clause_text(#[trigger] ps[i]),
    ensures
        clause_text(join(ps, sep)),
    decreases ps.len(),
{
    if ps.len() == 1 {
        assert(clause_text(ps[0]));
    } else if ps.len() > 1 {
        let d = ps.drop_last();
        assert forall|i: int| 0 <= i < d.len() implies clause_text(#[trigger] d[i]) by {
            assert(d[i] == ps[i]);
        }
        lemma_clause_join(d, sep);
        assert(clause_text(ps[ps.len() - 1]));
        lemma_clause_cat(join(d, sep), sep);
        lemma_clause_cat(join(d, sep) + sep, ps.last());
    }
}

proof fn lemma_digits_clause(d: Seq<char>)
    requires
        canonical(d),
    ensures
        clause_text(d),
{
    assert forall|i: int| 0 <= i < d.len() implies clause_char(#[trigger] d[i]) by {
        assert(is_digit(d[i]));
    }
}

proof fn lemma_numbered_clause(n: Option<Seq<char>>)
    requires
        num_ok(n),
    ensures
        clause_text(numbered(n)),
{
    if n is None {
        assert(numbered(n) =~= seq!['0']);
        assert(clause_char(numbered(n)[0]));
    } else {
        lemma_digits_clause(n->0);
    }
}

/// A spelled version holds only the characters a clause is written in.
#[verifier::spinoff_prover]
proof fn lemma_spelled_clause(v: VersionView)
    requires
        wf_version(v),
    ensures
        clause_text(spelled(v)),
{
    if let Some(e) = v.epoch {
        lemma_digits_clause(e);
        lemma_clause_cat(e, seq!['!']);
    }
    assert forall|i: int| 0 <= i < v.release.len() implies clause_text(#[trigger] v.release[i]) by {
        lemma_digits_clause(v.release[i]);
    }
    lemma_clause_join(v.release, seq!['.']);
    if let Some(p) = v.pre {
        lemma_numbered_clause(p.1);
        let j = choose|j: int| 0 <= j < pre_labels().len() && pre_labels()[j] == p.0;
        assert(clause_text(pre_spelling(p.0)));
        lemma_clause_cat(pre_spelling(p.0), numbered(p.1));
    }
    if let Some(p) = v.post {
        lemma_numbered_clause(p.1);
        lemma_clause_cat(seq!['.', 'p', 'o', 's', 't'], numbered(p.1));
    }
    if let Some(d) = v.dev {
        lemma_numbered_clause(d.1);
        lemma_clause_cat(seq!['.', 'd', 'e', 'v'], numbered(d.1));
    }
    if let Some(l) = v.local {
        let ls = local_spelling(l);
        assert forall|i: int| 0 <= i < ls.len() implies clause_char(#[trigger] ls[i]) by {
            assert(is_local_char(l[i]) || is_sep(l[i]));
        }
        lemma_clause_cat(seq!['+'], ls);
    }
    lemma_clause_cat(epoch_part(v), join(v.release, seq!['.']));
    lemma_clause_cat(epoch_part(v) + join(v.release, seq!['.']), pre_part(v));
    lemma_clause_cat(epoch_part(v) + join(v.release, seq!['.']) + pre_part(v), post_part(v));
    lemma_clause_cat(
        epoch_part(v) + join(v.release, seq!['.']) + pre_part(v) + post_part(v),
        dev_part(v),
    );
    lemma_clause_cat(
        epoch_part(v) + join(v.release, seq!['.']) + pre_part(v) + post_part(v) + dev_part(v),
        local_part(v),
    );
    lemma_clause_cat(
        epoch_part(v) + join(v.release, seq!['.']) + pre_part(v) + post_part(v) + dev_part(v)
            + local_part(v),
        wildcard_part(v),
    );
}

/// A written clause opens on its operator and holds only the characters a clause is written in.
pub proof fn lemma_written_clause(o: VersionOpView, keep_full_version: bool)
    requires
        op_ok(o),
    ensures
        clause_text(op_written(kept(o, keep_full_version))),
        op_written(kept(o, keep_full_version)).len() > 0,
        op_written(kept(o, keep_full_version))[0] == symbol(o.op)[0],
{
    let o1 = kept(o, keep_full_version);
    assert(o1.op == o.op && o1.literal == o.literal);
    let sy = symbol(o.op);
    assert(clause_text(sy));
    if o.op == Operator::ArbitraryEqual {
        assert forall|i: int| 0 <= i < o.literal.len() implies clause_char(#[trigger] o.literal[i]) by {
            assert(arbitrary_char(o.literal[i]));
        }
        lemma_clause_cat(sy, o.literal);
    } else {
        let v = o.version->0;
        let v1 = o1.version->0;
        if !keep_full_version && o.op != Operator::Compatible && release_only(v) {
            crate::pep508::settling::lemma_trimmed_version_pub(v, o.op);
            assert(v1 == trimmed_version(v));
        }
        assert(wf_version(v1));
        lemma_spelled_clause(v1);
        lemma_clause_cat(sy, spelled(v1));
    }
}

proof fn lemma_collapse_first(s: Seq<char>)
    requires
        s.len() > 0,
        !is_sep(s[0]),
    ensures
        collapse_seps(s).len() > 0,
        collapse_seps(s)[0] == s[0],
    decreases s.len(),
{
    let d = s.drop_last();
    if s.len() > 1 {
        assert(d[0] == s[0]);
        lemma_collapse_first(d);
        let c = collapse_seps(d);
        if is_sep(s.last()) {
            if s.len() >= 2 && is_sep(s[s.len() - 2]) {
                assert(collapse_seps(s) == c);
            } else {
                assert(collapse_seps(s) == c.push('-'));
                assert(c.push('-')[0] == c[0]);
            }
        } else {
            assert(collapse_seps(s) == c.push(s.last()));
            assert(c.push(s.last())[0] == c[0]);
        }
    } else {
        assert(d =~= Seq::<char>::empty());
        assert(collapse_seps(d) == Seq::<char>::empty());
        assert(collapse_seps(s) == Seq::<char>::empty().push(s.last()));
    }
}

/// The canonical spelling of a distribution name names a distribution.
pub proof fn lemma_name_canonical(n: Seq<char>)
    requires
        distribution_name(n),
    ensures
        distribution_name(canonical_of(n)),
{
    let low = lower_all(n);
    assert(is_alnum(low[0])) by {
        if 'A' <= n[0] && n[0] <= 'Z' {
            assert(97 <= (n[0] as u32) + 32 <= 122);
        }
    }
    assert(is_alnum(low.last())) by {
        assert(low.last() == lower(n.last()));
        if 'A' <= n.last() && n.last() <= 'Z' {
            assert(97 <= (n.last() as u32) + 32 <= 122);
        }
    }
    assert forall|i: int| 0 <= i < low.len() implies name_char(#[trigger] low[i]) by {
        assert(name_char(n[i]));
        if 'A' <= n[i] && n[i] <= 'Z' {
            assert(97 <= (n[i] as u32) + 32 <= 122);
        }
    }
    lemma_collapse_first(low);
    crate::pep508::requirement::lemma_canonical_chars_pub(low);
    assert(collapse_seps(low).last() == low.last());
}

/// The extras as they are written: between brackets, in order, joined by commas.
pub open spec fn ext_text(ex: Seq<Seq<char>>) -> Seq<char> {
    if ex.len() > 0 {
        seq!['['] + join(sort_seqs(ex), seq![',']) + seq![']']
    } else {
        seq![]
    }
}

/// A character the head of a written requirement holds where it names versions.
pub open spec fn head_char(c: char) -> bool {
    name_char(c) || c == '[' || c == ']' || c == ',' || clause_char(c)
}

pub open spec fn head_text(s: Seq<char>) -> bool {
    forall|i: int| 0 <= i < s.len() ==> head_char(#[trigger] s[i])
}

proof fn lemma_head_cat(a: Seq<char>, b: Seq<char>)
    requires
        head_text(a),
        head_text(b),
    ensures
        head_text(a + b),
{
    assert forall|i: int| 0 <= i < (a + b).len() implies head_char(#[trigger] (a + b)[i]) by {
        if i >= a.len() {
            assert((a + b)[i] == b[i - a.len()]);
        }
    }
}

proof fn lemma_head_join(ps: Seq<Seq<char>>)
    requires
        forall|i: int| 0 <= i < ps.len() ==> head_text(#[trigger] ps[i]),
    ensures
        head_text(join(ps, seq![','])),
    decreases ps.len(),
{
    if ps.len() == 1 {
        assert(head_text(ps[0]));
    } else if ps.len() > 1 {
        let d = ps.drop_last();
        assert forall|i: int| 0 <= i < d.len() implies head_text(#[trigger] d[i]) by {
            assert(d[i] == ps[i]);
        }
        lemma_head_join(d);
        assert(head_text(ps[ps.len() - 1]));
        assert(head_text(seq![',']));
        lemma_head_cat(join(d, seq![',']), seq![',']);
        lemma_head_cat(join(d, seq![',']) + seq![','], ps.last());
    }
}

proof fn lemma_join_first_last(ps: Seq<Seq<char>>, sep: Seq<char>)
    requires
        ps.len() > 0,
        forall|i: int| 0 <= i < ps.len() ==> (#[trigger] ps[i]).len() > 0,
    ensures
        join(ps, sep).len() > 0,
        join(ps, sep)[0] == ps[0][0],
        join(ps, sep).last() == ps.last().last(),
    decreases ps.len(),
{
    if ps.len() > 1 {
        let d = ps.drop_last();
        assert forall|i: int| 0 <= i < d.len() implies (#[trigger] d[i]).len() > 0 by {
            assert(d[i] == ps[i]);
        }
        lemma_join_first_last(d, sep);
        assert(d[0] == ps[0]);
        assert(ps[ps.len() - 1].len() > 0);
    }
}

/// The extras, written between brackets, read back as the extras in order.
#[verifier::spinoff_prover]
pub proof fn lemma_ext_text(ex: Seq<Seq<char>>)
    requires
        forall|i: int| 0 <= i < ex.len() ==> distribution_name(#[trigger] ex[i]),
    ensures
        head_text(ext_text(ex)),
        ex.len() > 0 ==> {
            let x = ext_text(ex);
            let inside = join(sort_seqs(ex), seq![',']);
            &&& x[0] == '['
            &&& x == seq!['['] + inside + seq![']']
            &&& !inside.contains(']')
            &&& !inside.contains('[')
            &&& trim(inside) == inside
            &&& extras_of(inside) == sort_seqs(ex)
        },
        forall|i: int|
            0 <= i < sort_seqs(ex).len() ==> distribution_name(#[trigger] sort_seqs(ex)[i]),
        sort_seqs(sort_seqs(ex)) == sort_seqs(ex),
{
    lemma_sort_sorted(ex);
    lemma_sort_twice(ex);
    let st = sort_seqs(ex);
    assert forall|i: int| 0 <= i < st.len() implies distribution_name(#[trigger] st[i]) by {
        let k = choose|k: int| 0 <= k < ex.len() && ex[k] == st[i];
        assert(distribution_name(ex[k]));
    }
    assert forall|i: int| 0 <= i < st.len() implies head_text(#[trigger] st[i]) by {
        assert(distribution_name(st[i]));
        assert forall|j: int| 0 <= j < st[i].len() implies head_char(#[trigger] st[i][j]) by {
            assert(name_char(st[i][j]));
        }
    }
    if ex.len() > 0 {
        let inside = join(st, seq![',']);
        lemma_head_join(st);
        assert(head_text(seq!['[']));
        assert(head_text(seq![']']));
        lemma_head_cat(seq!['['], inside);
        lemma_head_cat(seq!['['] + inside, seq![']']);
        lemma_name_free_join(st, ']');
        lemma_name_free_join(st, '[');
        assert forall|i: int| 0 <= i < st.len() implies !(#[trigger] st[i]).contains(',') by {
            if st[i].contains(',') {
                let k = choose|k: int| 0 <= k < st[i].len() && st[i][k] == ',';
                assert(name_char(st[i][k]));
            }
        }
        assert forall|i: int| 0 <= i < st.len() implies (#[trigger] st[i]).len() > 0 by {
            assert(distribution_name(st[i]));
        }
        lemma_join_first_last(st, seq![',']);
        assert(distribution_name(st[0]));
        assert(distribution_name(st[st.len() - 1]));
        lemma_trim_plain(inside);
        lemma_split_join(st, ',');
        assert forall|i: int| 0 <= i < st.len() implies #[trigger] trim(st[i]) == st[i] by {
            assert(distribution_name(st[i]));
            lemma_trim_plain(st[i]);
        }
        assert(split_on(inside, ',').map_values(|p: Seq<char>| trim(p)) =~= st);
    }
}

/// The extras joined by commas hold no character a name is not written in but the comma.
proof fn lemma_name_free_join(st: Seq<Seq<char>>, c: char)
    requires
        forall|i: int| 0 <= i < st.len() ==> distribution_name(#[trigger] st[i]),
        !name_char(c),
        c != ',',
    ensures
        !join(st, seq![',']).contains(c),
    decreases st.len(),
{
    if st.len() == 1 {
        if st[0].contains(c) {
            let k = choose|k: int| 0 <= k < st[0].len() && st[0][k] == c;
            assert(distribution_name(st[0]));
            assert(name_char(st[0][k]));
        }
    } else if st.len() > 1 {
        let d = st.drop_last();
        assert forall|i: int| 0 <= i < d.len() implies distribution_name(#[trigger] d[i]) by {
            assert(d[i] == st[i]);
        }
        lemma_name_free_join(d, c);
        let w = join(st, seq![',']);
        let wd = join(d, seq![',']);
        let l = st.last();
        assert(w == wd + seq![','] + l);
        if w.contains(c) {
            let k = choose|k: int| 0 <= k < w.len() && w[k] == c;
            if k < wd.len() {
                assert(wd[k] == w[k]);
            } else if k > wd.len() {
                assert(l[k - wd.len() - 1] == w[k]);
                assert(distribution_name(st[st.len() - 1]));
                assert(name_char(l[k - wd.len() - 1]));
            }
        }
    }
}

/// A character of the clauses written one after another.
pub open spec fn pin_char(c: char) -> bool {
    clause_char(c) || c == ','
}

/// Whether a character opens an operator.
pub open spec fn op_start(c: char) -> bool {
    c == '=' || c == '~' || c == '>' || c == '<' || c == '!'
}

/// The clauses written back, each in its one form.
pub open spec fn clause_texts(vs: Seq<VersionOpView>, keep_full_version: bool) -> Seq<Seq<char>> {
    vs.map_values(|o: VersionOpView| op_written(kept(o, keep_full_version)))
}

proof fn lemma_pin_join(ps: Seq<Seq<char>>)
    requires
        forall|i: int| 0 <= i < ps.len() ==> clause_text(#[trigger] ps[i]),
    ensures
        forall|i: int| 0 <= i < join(ps, seq![',']).len() ==> pin_char(#[trigger] join(ps, seq![','])[i]),
    decreases ps.len(),
{
    if ps.len() == 1 {
        assert(clause_text(ps[0]));
    } else if ps.len() > 1 {
        let d = ps.drop_last();
        assert forall|i: int| 0 <= i < d.len() implies clause_text(#[trigger] d[i]) by {
            assert(d[i] == ps[i]);
        }
        lemma_pin_join(d);
        let w = join(ps, seq![',']);
        let wd = join(d, seq![',']);
        let l = ps.last();
        assert(clause_text(ps[ps.len() - 1]));
        assert(w == wd + seq![','] + l);
        assert forall|i: int| 0 <= i < w.len() implies pin_char(#[trigger] w[i]) by {
            if i < wd.len() {
                assert(w[i] == wd[i]);
            } else if i > wd.len() {
                assert(w[i] == l[i - wd.len() - 1]);
            }
        }
    }
}

/// The clauses written one after another with commas read back as the clauses each reads as.
#[verifier::spinoff_prover]
pub proof fn lemma_pin_versions(vs: Seq<VersionOpView>, keep_full_version: bool)
    requires
        vs.len() > 0,
        forall|i: int| 0 <= i < vs.len() ==> op_ok(#[trigger] vs[i]),
    ensures
        join(clause_texts(vs, keep_full_version), seq![',']).len() > 0,
        op_start(join(clause_texts(vs, keep_full_version), seq![','])[0]),
        forall|i: int|
            0 <= i < join(clause_texts(vs, keep_full_version), seq![',']).len() ==> pin_char(
                #[trigger] join(clause_texts(vs, keep_full_version), seq![','])[i],
            ),
        trim(join(clause_texts(vs, keep_full_version), seq![','])) == join(
            clause_texts(vs, keep_full_version),
            seq![','],
        ),
        specifiers_of(join(clause_texts(vs, keep_full_version), seq![','])) == Some(
            clause_texts(vs, keep_full_version).map_values(|t: Seq<char>| version_op_of(t)->0),
        ),
        forall|i: int|
            0 <= i < vs.len() ==> version_op_of(#[trigger] clause_texts(vs, keep_full_version)[i])
                is Some,
{
    let texts = clause_texts(vs, keep_full_version);
    let p = join(texts, seq![',']);
    assert forall|i: int| 0 <= i < texts.len() implies clause_text(#[trigger] texts[i]) && texts[i].len()
        > 0 && op_start(texts[i][0]) && !texts[i].contains(',') by {
        lemma_written_clause(vs[i], keep_full_version);
        assert(texts[i] == op_written(kept(vs[i], keep_full_version)));
        if texts[i].contains(',') {
            let k = choose|k: int| 0 <= k < texts[i].len() && texts[i][k] == ',';
            assert(clause_char(texts[i][k]));
        }
    }
    assert forall|i: int| 0 <= i < vs.len() implies version_op_of(#[trigger] texts[i]) is Some by {
        crate::pep508::settling::lemma_clause_settles(vs[i], keep_full_version);
    }
    lemma_pin_join(texts);
    lemma_join_first_last(texts, seq![',']);
    assert(p[0] == texts[0][0]);
    assert(clause_char(texts[texts.len() - 1].last())) by {
        assert(clause_text(texts[texts.len() - 1]));
    }
    lemma_trim_plain(p);
    assert(!ends_with(p, ','));
    assert(list_text(p) == Some(p));
    assert(!p.contains('(')) by {
        if p.contains('(') {
            let k = choose|k: int| 0 <= k < p.len() && p[k] == '(';
            assert(pin_char(p[k]));
        }
    }
    assert(!p.contains(')')) by {
        if p.contains(')') {
            let k = choose|k: int| 0 <= k < p.len() && p[k] == ')';
            assert(pin_char(p[k]));
        }
    }
    lemma_split_join(texts, ',');
}

/// Where the semicolon that opens the marker is found: the first one standing after no `@`, or
/// after white space.
proof fn lemma_break_at(s: Seq<char>, i: int, b: int)
    requires
        0 <= i <= b < s.len(),
        s[b] == ';',
        !s.take(b).contains('@') || (b > 0 && is_ws(s[b - 1])),
        forall|k: int| i <= k < b && #[trigger] s[k] == ';' ==> s.take(k).contains('@') && !(k > 0
            && is_ws(s[k - 1])),
    ensures
        marker_break_from(s, i) == Some(b),
    decreases b - i,
{
    if i < b {
        lemma_break_at(s, i + 1, b);
    }
}

proof fn lemma_no_break(s: Seq<char>, i: int)
    requires
        0 <= i <= s.len(),
        forall|k: int| i <= k < s.len() && #[trigger] s[k] == ';' ==> s.take(k).contains('@') && !(
        k > 0 && is_ws(s[k - 1])),
    ensures
        marker_break_from(s, i) is None,
    decreases s.len() - i,
{
    if i < s.len() {
        lemma_no_break(s, i + 1);
    }
}

pub open spec fn name_stop(c: char) -> bool {
    c == '=' || c == '!' || c == '<' || c == '>' || c == '~' || c == '('
}

proof fn lemma_name_end_at(s: Seq<char>, i: int, e: int)
    requires
        0 <= i <= e <= s.len(),
        forall|k: int| i <= k < e ==> !name_stop(#[trigger] s[k]),
        e == s.len() || name_stop(s[e]),
    ensures
        name_end_from(s, i) == e,
    decreases e - i,
{
    if i < e {
        lemma_name_end_at(s, i + 1, e);
    }
}

proof fn lemma_index_found(s: Seq<char>, c: char, i: int, e: int)
    requires
        0 <= i <= e <= s.len(),
        forall|k: int| i <= k < e ==> #[trigger] s[k] != c,
        e == s.len() || s[e] == c,
    ensures
        index_of(s, c, i) == e,
    decreases e - i,
{
    if i < e {
        lemma_index_found(s, c, i + 1, e);
    }
}

/// Trimming a name followed by a space leaves the name; trimming a space leaves nothing.
proof fn lemma_trim_space(cn: Seq<char>)
    requires
        cn.len() > 0,
        !is_ws(cn[0]),
        !is_ws(cn.last()),
    ensures
        trim(cn + seq![' ']) == cn,
        trim(seq![' ']) == Seq::<char>::empty(),
        trim(Seq::<char>::empty()) == Seq::<char>::empty(),
{
    let x = cn + seq![' '];
    assert(x[0] == cn[0]);
    assert(ws_end(x, 0) == 0);
    assert(x.skip(0) =~= x);
    assert(trim_start(x) == x);
    let n = x.len() as int;
    assert(x[n - 1] == ' ');
    assert(x[n - 2] == cn.last());
    assert(ws_start(x, n - 1) == n - 1);
    assert(ws_start(x, n) == n - 1);
    assert(x.take(n - 1) =~= cn);
    let sp = seq![' '];
    assert(ws_end(sp, 1) == 1);
    assert(ws_end(sp, 0) == 1);
    assert(sp.skip(1) =~= Seq::<char>::empty());
    assert(trim_start(sp) == Seq::<char>::empty());
    let e = Seq::<char>::empty();
    assert(ws_end(e, 0) == 0);
    assert(e.skip(0) =~= e);
    assert(ws_start(e, 0) == 0);
    assert(e.take(0) =~= e);
}

/// The name, the extras and what follows them read back as the name, the extras in order and the
/// rest, trimmed.
#[verifier::spinoff_prover]
pub proof fn lemma_head_read(cn: Seq<char>, ex: Seq<Seq<char>>, r: Seq<char>)
    requires
        distribution_name(cn),
        forall|i: int| 0 <= i < ex.len() ==> distribution_name(#[trigger] ex[i]),
        r.len() == 0 || r == seq![' '] || (op_start(r[0]) && forall|i: int|
            0 <= i < r.len() ==> pin_char(#[trigger] r[i])),
    ensures
        head_of(cn + ext_text(ex) + r) is Some,
        trim((head_of(cn + ext_text(ex) + r)->0).0) == cn,
        (head_of(cn + ext_text(ex) + r)->0).1 == sort_seqs(ex),
        (head_of(cn + ext_text(ex) + r)->0).2 == trim(r),
{
    let req = cn + ext_text(ex) + r;
    let n = req.len() as int;
    let c = cn.len() as int;
    lemma_ext_text(ex);
    lemma_trim_space(cn);
    lemma_trim_plain(cn);
    assert forall|k: int| 0 <= k < c implies #[trigger] req[k] == cn[k] && name_char(cn[k]) by {}
    if ex.len() > 0 {
        let inside = join(sort_seqs(ex), seq![',']);
        let x = ext_text(ex);
        let ni = inside.len() as int;
        assert(req == cn + (seq!['['] + inside + seq![']']) + r);
        assert(req[c] == '[');
        lemma_index_found(req, '[', 0, c);
        assert forall|k: int| c <= k < c + 1 + ni implies #[trigger] req[k] != ']' by {
            if k > c {
                assert(req[k] == inside[k - c - 1]);
            }
        }
        assert(req[c + 1 + ni] == ']');
        lemma_index_found(req, ']', c, c + 1 + ni);
        assert(req.subrange(c + 1, c + 1 + ni) =~= inside);
        assert(req.take(c) =~= cn);
        assert(req.skip(c + 1 + ni + 1) =~= r);
    } else {
        assert(ext_text(ex) == Seq::<char>::empty());
        assert(sort_seqs(ex) == Seq::<Seq<char>>::empty());
        assert(req =~= cn + r);
        assert forall|k: int| 0 <= k < n implies #[trigger] req[k] != '[' by {
            if k >= c {
                assert(req[k] == r[k - c]);
                if r != seq![' '] && r.len() > 0 {
                    assert(pin_char(r[k - c]));
                }
            }
        }
        lemma_index_found(req, '[', 0, n);
        if r.len() > 0 && r != seq![' '] {
            assert(req[c] == r[0]);
            lemma_name_end_at(req, 0, c);
            assert(req.take(c) =~= cn);
            assert(req.skip(c) =~= r);
        } else {
            assert forall|k: int| 0 <= k < n implies !name_stop(#[trigger] req[k]) by {
                if k >= c {
                    assert(req[k] == r[k - c]);
                }
            }
            lemma_name_end_at(req, 0, n);
            assert(req.take(n) =~= req);
            assert(req.skip(n) =~= Seq::<char>::empty());
            if r.len() == 0 {
                assert(req =~= cn);
            }
        }
    }
}

/// A marker as a requirement holds one after reading it: written, it reads back as itself with
/// each value in its quote, which writes the same, on one line and opening and closing on no white
/// space.
pub open spec fn marker_ok(m: MarkerModel) -> bool {
    &&& marker_of(written(m)) == Some(requoted(m))
    &&& written(requoted(m)) == written(m)
    &&& written(m).len() > 0
    &&& !is_ws(written(m)[0])
    &&& !is_ws(written(m).last())
    &&& no_nl(written(m))
}

/// A direct reference whose written form reads back whole: not empty, no white space in it, and
/// not opening on the semicolon that would read as the marker's.
pub open spec fn url_ok(u: Seq<char>) -> bool {
    &&& u.len() > 0
    &&& forall|i: int| 0 <= i < u.len() ==> !is_ws(#[trigger] u[i])
    &&& u[0] != ';'
}

/// A requirement as the reader leaves one, with a direct reference that reads back.
pub open spec fn req_ok(v: RequirementView) -> bool {
    &&& distribution_name(v.name)
    &&& forall|i: int| 0 <= i < v.extras.len() ==> distribution_name(#[trigger] v.extras[i])
    &&& match v.version_or_url {
        Some(PinView::Versions(vs)) => vs.len() > 0 && forall|i: int|
            0 <= i < vs.len() ==> op_ok(#[trigger] vs[i]),
        Some(PinView::Url(u)) => url_ok(u),
        None => true,
    }
    &&& match v.marker {
        Some(m) => marker_ok(m),
        None => true,
    }
}

/// What the written requirement reads back as.
pub open spec fn reread(v: RequirementView, keep_full_version: bool) -> RequirementView {
    RequirementView {
        name: canonical_of(v.name),
        extras: sort_seqs(v.extras),
        version_or_url: match v.version_or_url {
            Some(PinView::Versions(vs)) => Some(
                PinView::Versions(
                    clause_texts(vs, keep_full_version).map_values(
                        |t: Seq<char>| version_op_of(t)->0,
                    ),
                ),
            ),
            other => other,
        },
        marker: match v.marker {
            Some(m) => Some(requoted(m)),
            None => None,
        },
    }
}

/// The clauses as the written requirement holds them.
pub open spec fn pin_text(v: RequirementView, keep_full_version: bool) -> Seq<char> {
    match v.version_or_url {
        Some(PinView::Versions(vs)) => join(clause_texts(vs, keep_full_version), seq![',']),
        Some(PinView::Url(u)) => seq![' ', '@', ' '] + u,
        None => seq![],
    }
}

/// The marker as the written requirement holds it.
pub open spec fn marker_text(v: RequirementView) -> Seq<char> {
    match v.marker {
        Some(m) => (if v.version_or_url matches Some(PinView::Url(_)) {
            seq![' ', ';', ' ']
        } else {
            seq![';', ' ']
        }) + written(m),
        None => seq![],
    }
}

/// The written requirement, part by part.
proof fn lemma_written_parts(v: RequirementView, keep_full_version: bool)
    ensures
        req_written(normalized(v, keep_full_version)) == canonical_of(v.name) + ext_text(v.extras)
            + pin_text(v, keep_full_version) + marker_text(v),
{
    let n = normalized(v, keep_full_version);
    if let Some(PinView::Versions(vs)) = v.version_or_url {
        let nv = n.version_or_url->0->Versions_0;
        assert(nv.map_values(|o: VersionOpView| crate::pep508::version_op::op_written(o))
            =~= clause_texts(vs, keep_full_version));
    }
}

proof fn lemma_trim_pad(w: Seq<char>)
    requires
        w.len() > 0,
        !is_ws(w[0]),
        !is_ws(w.last()),
    ensures
        trim(seq![' '] + w) == w,
        trim(seq![' '] + w + seq![' ']) == w,
{
    let a = seq![' '] + w;
    assert(a[0] == ' ');
    assert(a[1] == w[0]);
    assert(ws_end(a, 1) == 1);
    assert(ws_end(a, 0) == 1);
    assert(a.skip(1) =~= w);
    lemma_trim_plain(w);
    let b = seq![' '] + w + seq![' '];
    assert(b[0] == ' ');
    assert(b[1] == w[0]);
    assert(ws_end(b, 1) == 1);
    assert(ws_end(b, 0) == 1);
    let bs = b.skip(1);
    assert(bs =~= w + seq![' ']);
    let n = bs.len() as int;
    assert(bs[n - 1] == ' ');
    assert(bs[n - 2] == w.last());
    assert(ws_start(bs, n - 1) == n - 1);
    assert(ws_start(bs, n) == n - 1);
    assert(bs.take(n - 1) =~= w);
}

/// The head of a written requirement that names clauses or nothing: no semicolon, no `@`, no
/// white space.
proof fn lemma_plain_head(v: RequirementView, keep_full_version: bool)
    requires
        req_ok(v),
        !(v.version_or_url matches Some(PinView::Url(_))),
    ensures
        head_text(canonical_of(v.name) + ext_text(v.extras) + pin_text(v, keep_full_version)),
        pin_text(v, keep_full_version).len() == 0 || (op_start(pin_text(v, keep_full_version)[0])
            && forall|i: int|
            0 <= i < pin_text(v, keep_full_version).len() ==> pin_char(
                #[trigger] pin_text(v, keep_full_version)[i],
            )),
{
    let cn = canonical_of(v.name);
    lemma_name_canonical(v.name);
    assert forall|i: int| 0 <= i < cn.len() implies head_char(#[trigger] cn[i]) by {
        assert(name_char(cn[i]));
    }
    lemma_ext_text(v.extras);
    lemma_head_cat(cn, ext_text(v.extras));
    let p = pin_text(v, keep_full_version);
    if let Some(PinView::Versions(vs)) = v.version_or_url {
        lemma_pin_versions(vs, keep_full_version);
        assert forall|i: int| 0 <= i < p.len() implies head_char(#[trigger] p[i]) by {
            assert(pin_char(p[i]));
        }
    } else {
        assert(p == Seq::<char>::empty());
    }
    lemma_head_cat(cn + ext_text(v.extras), p);
}

proof fn lemma_head_no(h: Seq<char>, c: char)
    requires
        head_text(h),
        !head_char(c),
    ensures
        forall|k: int| 0 <= k < h.len() ==> #[trigger] h[k] != c,
        !h.contains(c),
{
    assert forall|k: int| 0 <= k < h.len() implies #[trigger] h[k] != c by {
        assert(head_char(h[k]));
    }
}

/// A written requirement that names clauses or nothing reads back as the requirement reread.
#[verifier::spinoff_prover]
proof fn lemma_reads_plain(v: RequirementView, keep_full_version: bool)
    requires
        req_ok(v),
        !(v.version_or_url matches Some(PinView::Url(_))),
    ensures
        requirement_of(req_written(normalized(v, keep_full_version))) == Some(
            reread(v, keep_full_version),
        ),
{
    let k = keep_full_version;
    let cn = canonical_of(v.name);
    let h = cn + ext_text(v.extras) + pin_text(v, k);
    let m = marker_text(v);
    let s = h + m;
    lemma_written_parts(v, k);
    lemma_plain_head(v, k);
    lemma_name_canonical(v.name);
    lemma_head_no(h, ';');
    lemma_head_no(h, '@');
    lemma_head_no(h, '\n');
    lemma_head_no(h, '\r');
    lemma_head_read(cn, v.extras, pin_text(v, k));
    let hn = h.len() as int;
    assert forall|i: int| 0 <= i < s.len() implies #[trigger] s[i] != '\n' && s[i] != '\r' by {
        if i < hn {
            assert(s[i] == h[i]);
        } else if let Some(mm) = v.marker {
            assert(m == seq![';', ' '] + written(mm));
            if i >= hn + 2 {
                assert(s[i] == written(mm)[i - hn - 2]);
            }
        }
    }
    // where the marker opens
    if let Some(mm) = v.marker {
        assert(s[hn] == ';');
        assert(s.take(hn) =~= h);
        assert forall|j: int| 0 <= j < hn && #[trigger] s[j] == ';' implies s.take(j).contains('@')
            && !(j > 0 && is_ws(s[j - 1])) by {
            assert(s[j] == h[j]);
        }
        lemma_break_at(s, 0, hn);
        assert(s.take(hn) =~= h);
        assert(s.skip(hn + 1) =~= seq![' '] + written(mm));
        lemma_trim_pad(written(mm));
    } else {
        assert(s =~= h);
        assert forall|j: int| 0 <= j < s.len() && #[trigger] s[j] == ';' implies s.take(j).contains(
            '@',
        ) && !(j > 0 && is_ws(s[j - 1])) by {
            assert(s[j] == h[j]);
        }
        lemma_no_break(s, 0);
    }
    lemma_index_found(h, '@', 0, hn);
    if let Some(PinView::Versions(vs)) = v.version_or_url {
        lemma_pin_versions(vs, k);
    } else {
        lemma_trim_space(cn);
    }
}

/// The head of a written requirement with a direct reference, character by character.
pub open spec fn url_head(v: RequirementView) -> Seq<char> {
    canonical_of(v.name) + ext_text(v.extras) + seq![' ', '@', ' '] + (v.version_or_url->0->Url_0)
}

/// The written requirement with a direct reference holds no line break, and its marker, where it
/// has one, opens on the semicolon after the reference.
#[verifier::spinoff_prover]
proof fn lemma_url_text(v: RequirementView, keep_full_version: bool)
    requires
        req_ok(v),
        v.version_or_url matches Some(PinView::Url(_)),
    ensures
        req_written(normalized(v, keep_full_version)) == url_head(v) + marker_text(v),
        !req_written(normalized(v, keep_full_version)).contains('\n'),
        !req_written(normalized(v, keep_full_version)).contains('\r'),
        marker_break_from(req_written(normalized(v, keep_full_version)), 0) == (if v.marker is Some {
            Some(url_head(v).len() as int + 1)
        } else {
            None::<int>
        }),
        (canonical_of(v.name) + ext_text(v.extras)).len() + 3 <= url_head(v).len(),
        forall|j: int|
            0 <= j < (canonical_of(v.name) + ext_text(v.extras)).len() + 1 ==> #[trigger] url_head(v)[j]
                != '@',
        url_head(v)[(canonical_of(v.name) + ext_text(v.extras)).len() as int + 1] == '@',
{
    let k = keep_full_version;
    let u = v.version_or_url->0->Url_0;
    let cn = canonical_of(v.name);
    let hx = cn + ext_text(v.extras);
    let h = url_head(v);
    let m = marker_text(v);
    let s = h + m;
    let c = hx.len() as int;
    let hn = h.len() as int;
    assert(pin_text(v, k) == seq![' ', '@', ' '] + u);
    lemma_written_parts(v, k);
    assert(s == req_written(normalized(v, k)));
    lemma_name_canonical(v.name);
    assert forall|i: int| 0 <= i < cn.len() implies head_char(#[trigger] cn[i]) by {
        assert(name_char(cn[i]));
    }
    lemma_ext_text(v.extras);
    lemma_head_cat(cn, ext_text(v.extras));
    lemma_head_no(hx, ';');
    lemma_head_no(hx, '@');
    lemma_head_no(hx, '\n');
    lemma_head_no(hx, '\r');
    assert forall|i: int| 0 <= i < hn implies #[trigger] h[i] == (if i < c {
        hx[i]
    } else if i == c {
        ' '
    } else if i == c + 1 {
        '@'
    } else if i == c + 2 {
        ' '
    } else {
        u[i - c - 3]
    }) by {}
    assert forall|i: int| 0 <= i < s.len() implies #[trigger] s[i] != '\n' && s[i] != '\r' by {
        if i < hn {
            assert(s[i] == h[i]);
            if i >= c + 3 {
                assert(!is_ws(u[i - c - 3]));
            }
        } else if let Some(mm) = v.marker {
            assert(m == seq![' ', ';', ' '] + written(mm));
            if i >= hn + 3 {
                assert(s[i] == written(mm)[i - hn - 3]);
            }
        }
    }
    assert(!s.contains('\n')) by {
        if s.contains('\n') {
            let i = choose|i: int| 0 <= i < s.len() && s[i] == '\n';
            assert(s[i] != '\n');
        }
    }
    assert(!s.contains('\r')) by {
        if s.contains('\r') {
            let i = choose|i: int| 0 <= i < s.len() && s[i] == '\r';
            assert(s[i] != '\r');
        }
    }
    assert forall|j: int| 0 <= j < hn && #[trigger] s[j] == ';' implies s.take(j).contains('@') && !(j
        > 0 && is_ws(s[j - 1])) by {
        assert(s[j] == h[j]);
        assert(j > c + 3);
        assert(s.take(j)[c + 1] == '@');
        assert(s[j - 1] == u[j - 1 - c - 3]);
    }
    if let Some(mm) = v.marker {
        assert(m == seq![' ', ';', ' '] + written(mm));
        assert(s[hn] == ' ');
        assert(s[hn + 1] == ';');
        assert forall|j: int| 0 <= j < hn + 1 && #[trigger] s[j] == ';' implies s.take(j).contains(
            '@',
        ) && !(j > 0 && is_ws(s[j - 1])) by {
            if j >= hn {
                assert(s[hn] == ' ');
            }
        }
        lemma_break_at(s, 0, hn + 1);
    } else {
        assert(s =~= h);
        lemma_no_break(s, 0);
    }
}

/// A written requirement with a direct reference reads back as the requirement reread.
#[verifier::spinoff_prover]
proof fn lemma_reads_url(v: RequirementView, keep_full_version: bool)
    requires
        req_ok(v),
        v.version_or_url matches Some(PinView::Url(_)),
    ensures
        requirement_of(req_written(normalized(v, keep_full_version))) == Some(
            reread(v, keep_full_version),
        ),
{
    let k = keep_full_version;
    let u = v.version_or_url->0->Url_0;
    let cn = canonical_of(v.name);
    let hx = cn + ext_text(v.extras);
    let h = url_head(v);
    let m = marker_text(v);
    let s = h + m;
    let c = hx.len() as int;
    let hn = h.len() as int;
    lemma_url_text(v, k);
    lemma_name_canonical(v.name);
    lemma_ext_text(v.extras);
    let raw_req = if let Some(mm) = v.marker {
        h + seq![' ']
    } else {
        h
    };
    if let Some(mm) = v.marker {
        assert(m == seq![' ', ';', ' '] + written(mm));
        assert(s.take(hn + 1) =~= raw_req);
        assert(s.skip(hn + 2) =~= seq![' '] + written(mm));
        lemma_trim_pad(written(mm));
    } else {
        assert(s =~= h);
    }
    assert forall|j: int| 0 <= j < c + 1 implies #[trigger] raw_req[j] != '@' by {
        assert(raw_req[j] == h[j]);
    }
    assert(raw_req[c + 1] == h[c + 1]);
    lemma_index_found(raw_req, '@', 0, c + 1);
    assert(raw_req.take(c + 1) =~= hx + seq![' ']);
    lemma_head_read(cn, v.extras, seq![' ']);
    lemma_trim_space(cn);
    if let Some(mm) = v.marker {
        assert(raw_req.skip(c + 2) =~= seq![' '] + u + seq![' ']);
    } else {
        assert(raw_req.skip(c + 2) =~= seq![' '] + u);
    }
    lemma_trim_pad(u);
}

/// A requirement as the reader leaves one, written, reads back as the requirement reread.
pub proof fn lemma_written_reads(v: RequirementView, keep_full_version: bool)
    requires
        req_ok(v),
    ensures
        requirement_of(req_written(normalized(v, keep_full_version))) == Some(
            reread(v, keep_full_version),
        ),
{
    if v.version_or_url matches Some(PinView::Url(_)) {
        lemma_reads_url(v, keep_full_version);
    } else {
        lemma_reads_plain(v, keep_full_version);
    }
}

/// The requirement reread is written as the requirement was.
#[verifier::spinoff_prover]
pub proof fn lemma_reread_written(v: RequirementView, keep_full_version: bool)
    requires
        req_ok(v),
    ensures
        req_written(normalized(reread(v, keep_full_version), keep_full_version)) == req_written(
            normalized(v, keep_full_version),
        ),
{
    let k = keep_full_version;
    let r = reread(v, k);
    lemma_written_parts(v, k);
    lemma_written_parts(r, k);
    crate::pep508::requirement::lemma_canonical_settles(v.name);
    lemma_ext_text(v.extras);
    lemma_sort_sorted(v.extras);
    assert(ext_text(r.extras) == ext_text(v.extras));
    if let Some(PinView::Versions(vs)) = v.version_or_url {
        let texts = clause_texts(vs, k);
        let vs2 = texts.map_values(|t: Seq<char>| version_op_of(t)->0);
        assert forall|i: int| 0 <= i < vs2.len() implies #[trigger] clause_texts(vs2, k)[i]
            == texts[i] by {
            crate::pep508::settling::lemma_clause_settles(vs[i], k);
        }
        assert(clause_texts(vs2, k) =~= texts);
    }
    assert(pin_text(r, k) == pin_text(v, k));
    assert(marker_text(r) == marker_text(v));
}

proof fn lemma_trim_no_nl(y: Seq<char>)
    requires
        no_nl(y),
    ensures
        no_nl(trim(y)),
{
    crate::text::lemma_ws_end_bounds(y, 0);
    let a = ws_end(y, 0);
    let t0 = y.skip(a);
    crate::text::lemma_ws_start_bounds(t0, t0.len() as int);
    assert forall|i: int| 0 <= i < trim(y).len() implies #[trigger] trim(y)[i] != '\n' && trim(y)[i]
        != '\r' by {
        assert(trim(y)[i] == y[a + i]);
    }
}

/// The marker of a requirement read from text is one as a requirement holds it.
proof fn lemma_marker_ok(x: Seq<char>)
    requires
        marker_of(x) is Some,
        no_nl(x),
    ensures
        marker_ok(marker_of(x)->0),
{
    lemma_marker_settles(x);
    lemma_written_text(x);
}

/// Every requirement the reader reads is one as it leaves one, where its direct reference does not
/// open on a semicolon.
#[verifier::spinoff_prover]
pub proof fn lemma_requirement_ok(raw: Seq<char>)
    requires
        requirement_of(raw) is Some,
        (requirement_of(raw)->0).version_or_url matches Some(PinView::Url(u)) ==> u[0] != ';',
    ensures
        req_ok(requirement_of(raw)->0),
{
    let v = requirement_of(raw)->0;
    assert(no_nl(raw)) by {
        assert forall|i: int| 0 <= i < raw.len() implies #[trigger] raw[i] != '\n' && raw[i] != '\r' by {
            if raw[i] == '\n' {
                assert(raw.contains('\n'));
            }
            if raw[i] == '\r' {
                assert(raw.contains('\r'));
            }
        }
    }
    let mb = marker_break_from(raw, 0);
    let raw_req = match mb {
        Some(at) => raw.take(at),
        None => raw,
    };
    let at_idx = index_of(raw_req, '@', 0);
    let has_url = at_idx < raw_req.len();
    let req_part = if has_url {
        raw_req.take(at_idx)
    } else {
        raw_req
    };
    let hd = head_of(req_part)->0;
    if let Some(at) = mb {
        crate::pep508::requirement::lemma_marker_break_bound(raw, 0);
        let y = raw.skip(at + 1);
        assert forall|i: int| 0 <= i < y.len() implies #[trigger] y[i] != '\n' && y[i] != '\r' by {
            assert(y[i] == raw[at + 1 + i]);
        }
        lemma_trim_no_nl(y);
        lemma_marker_ok(trim(y));
    }
    if let Some(PinView::Versions(vs)) = v.version_or_url {
        let constraints = hd.2;
        let inside = list_text(constraints)->0;
        let pieces = split_on(inside, ',');
        crate::text::lemma_split_nonempty(inside, ',');
        assert(vs == pieces.map_values(|p: Seq<char>| version_op_of(p)->0));
        assert forall|i: int| 0 <= i < vs.len() implies op_ok(#[trigger] vs[i]) by {
            assert(version_op_of(pieces[i]) is Some);
            crate::pep508::settling::lemma_clause_ok(pieces[i]);
        }
    }
    if let Some(PinView::Url(u)) = v.version_or_url {
        assert(url_ok(u));
    }
}

/// Formatting a requirement is stable: a requirement read from text, written in its one form with
/// the zeros closing its releases dropped or kept, reads back as a requirement that, written the
/// same way, gives the same text. This holds of every requirement the reader reads but one whose
/// direct reference opens on a semicolon, which the written form's ` @ ` puts white space before.
pub proof fn lemma_requirement_settles(raw: Seq<char>, keep_full_version: bool)
    requires
        requirement_of(raw) is Some,
        (requirement_of(raw)->0).version_or_url matches Some(PinView::Url(u)) ==> u[0] != ';',
    ensures
        requirement_of(req_written(normalized(requirement_of(raw)->0, keep_full_version))) is Some,
        req_written(
            normalized(
                requirement_of(req_written(normalized(requirement_of(raw)->0, keep_full_version)))->0,
                keep_full_version,
            ),
        ) == req_written(normalized(requirement_of(raw)->0, keep_full_version)),
{
    let v = requirement_of(raw)->0;
    lemma_requirement_ok(raw);
    lemma_written_reads(v, keep_full_version);
    lemma_reread_written(v, keep_full_version);
}

/// The last character of pieces joined, where the last piece holds one, is the last it holds.
pub proof fn lemma_join_last_pub(ps: Seq<Seq<char>>, sep: Seq<char>)
    requires
        ps.len() > 0,
        ps.last().len() > 0,
    ensures
        join(ps, sep).len() > 0,
        join(ps, sep).last() == ps.last().last(),
{
}

} // verus!
