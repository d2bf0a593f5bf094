//! What reading back a spelled version gives: [`spelled`] writes a version in a form the reader
//! takes back as the same version, each label in its one spelling.

use vstd::prelude::*;
use crate::pep508::number::{canonical, read_digits, lemma_read_canonical};
use crate::pep508::round_trip::lemma_sub;
use crate::pep508::version::{
    VersionView, Spans, ci_at, ci_eq, digits_end, epoch_span, first_label, is_local_char, is_sep,
    local_chars_end, local_end, local_span, opt_sep, pre_labels, post_labels, pre_span, post_span,
    dev_span, release_end, spans, view_of_spans, version_of, ends_with_wildcard, numbered,
    pre_spelling, local_spelling, epoch_part, pre_part, post_part, dev_part, local_part,
    wildcard_part, spelled, number_in, lemma_digits_end,
};
use crate::text::{
    is_digit, is_ws, join, lemma_join_front, lemma_split_join, lower, lower_all, split_on, trim,
    trim_start, ws_end, ws_start,
};

verus! {

/// Digits a version may leave out, where it names them at all.
pub open spec fn num_ok(n: Option<Seq<char>>) -> bool {
    n matches Some(d) ==> canonical(d)
}

/// A local version as the reader leaves one: runs of its characters, in small letters, with one
/// separator between each two runs.
pub open spec fn local_ok(l: Seq<char>) -> bool {
    &&& l.len() > 0
    &&& is_local_char(l[0])
    &&& is_local_char(l.last())
    &&& forall|k: int| 0 <= k < l.len() ==> is_local_char(#[trigger] l[k]) || is_sep(l[k])
    &&& forall|k: int| 0 < k < l.len() && is_sep(#[trigger] l[k]) ==> !is_sep(l[k - 1])
    &&& lower_all(l) == l
}

/// A version as the reader leaves one.
pub open spec fn wf_version(v: VersionView) -> bool {
    &&& (v.epoch matches Some(e) ==> canonical(e))
    &&& v.release.len() > 0
    &&& forall|i: int| 0 <= i < v.release.len() ==> canonical(#[trigger] v.release[i])
    &&& (v.pre matches Some(p) ==> pre_labels().contains(p.0) && num_ok(p.1))
    &&& (v.post matches Some(p) ==> num_ok(p.1))
    &&& (v.dev matches Some(d) ==> num_ok(d.1))
    &&& (v.local matches Some(l) ==> local_ok(l))
}

/// The version as reading its spelling back gives it: each label in its one spelling and each
/// number written out.
pub open spec fn settled(v: VersionView) -> VersionView {
    VersionView {
        epoch: v.epoch,
        release: v.release,
        pre: match v.pre {
            Some(p) => Some((pre_spelling(p.0), Some(numbered(p.1)))),
            None => None,
        },
        post: match v.post {
            Some(p) => Some((Some(seq!['p', 'o', 's', 't']), Some(numbered(p.1)))),
            None => None,
        },
        dev: match v.dev {
            Some(d) => Some((seq!['d', 'e', 'v'], Some(numbered(d.1)))),
            None => None,
        },
        local: match v.local {
            Some(l) => Some(local_spelling(l)),
            None => None,
        },
        has_wildcard: v.has_wildcard,
    }
}

/// The spelling without the wildcard.
pub open spec fn body(v: VersionView) -> Seq<char> {
    epoch_part(v) + join(v.release, seq!['.']) + pre_part(v) + post_part(v) + dev_part(v)
        + local_part(v)
}

proof fn lemma_digit_run(s: Seq<char>, i: int, e: int)
    requires
        0 <= i <= e <= s.len(),
        forall|k: int| i <= k < e ==> is_digit(#[trigger] s[k]),
        e == s.len() || !is_digit(s[e]),
    ensures
        digits_end(s, i) == e,
    decreases e - i,
{
    if i < e {
        lemma_digit_run(s, i + 1, e);
    }
}

proof fn lemma_no_ci_at(s: Seq<char>, at: int, w: Seq<char>, x: int)
    requires
        0 <= x < w.len(),
        0 <= at,
        at + w.len() > s.len() || !ci_eq(s[at + x], w[x]),
    ensures
        !ci_at(s, at, w),
{
}

proof fn lemma_no_label(s: Seq<char>, k: int, labels: Seq<Seq<char>>, j: int)
    requires
        0 <= j <= labels.len(),
        forall|i: int| j <= i < labels.len() ==> !ci_at(s, k, #[trigger] labels[i]),
    ensures
        first_label(s, k, labels, j) == 0,
    decreases labels.len() - j,
{
    if j < labels.len() {
        lemma_no_label(s, k, labels, j + 1);
    }
}

/// Text that opens and closes on no white space is what trimming it leaves.
pub proof fn lemma_trim_plain(s: Seq<char>)
    requires
        s.len() > 0 ==> !is_ws(s[0]) && !is_ws(s.last()),
    ensures
        trim(s) == s,
{
    assert(ws_end(s, 0) == 0);
    assert(s.skip(0) =~= s);
    assert(trim_start(s) == s);
    assert(ws_start(s, s.len() as int) == s.len());
    assert(s.take(s.len() as int) =~= s);
}

/// A canonical number holds no dot.
proof fn lemma_canonical_no_dot(d: Seq<char>)
    requires
        canonical(d),
    ensures
        !d.contains('.'),
{
    if d.contains('.') {
        let k = choose|k: int| 0 <= k < d.len() && d[k] == '.';
        assert(is_digit(d[k]));
    }
}

/// The release, written with dots between its numbers, reads whole as the release, where what
/// follows it is no digit and no dot before one.
proof fn lemma_release_run(s: Seq<char>, i: int, ps: Seq<Seq<char>>)
    requires
        ps.len() > 0,
        forall|j: int| 0 <= j < ps.len() ==> canonical(#[trigger] ps[j]),
        0 <= i,
        i + join(ps, seq!['.']).len() <= s.len(),
        s.subrange(i, i + join(ps, seq!['.']).len()) == join(ps, seq!['.']),
        i + join(ps, seq!['.']).len() == s.len() || !is_digit(s[i + join(ps, seq!['.']).len()]),
        i + join(ps, seq!['.']).len() + 1 >= s.len() || !(s[i + join(ps, seq!['.']).len()] == '.'
            && is_digit(s[i + join(ps, seq!['.']).len() + 1])),
    ensures
        release_end(s, i) == i + join(ps, seq!['.']).len(),
        digits_end(s, i) == i + ps[0].len(),
        digits_end(s, i) > i,
    decreases ps.len(),
{
    let w = join(ps, seq!['.']);
    let p0 = ps[0];
    let n0 = p0.len() as int;
    let rest = ps.drop_first();
    if ps.len() == 1 {
        assert(w == p0);
        lemma_sub(s, i, w, 0, w.len() as int);
        assert forall|k: int| i <= k < i + n0 implies is_digit(#[trigger] s[k]) by {
            assert(s[i + (k - i)] == w[k - i]);
        }
        lemma_digit_run(s, i, i + n0);
    } else {
        assert(ps =~= seq![p0] + rest);
        lemma_join_front(p0, rest, seq!['.']);
        let wr = join(rest, seq!['.']);
        assert(w == p0 + seq!['.'] + wr);
        let n = w.len() as int;
        lemma_sub(s, i, w, 0, n);
        assert forall|k: int| i <= k < i + n0 implies is_digit(#[trigger] s[k]) by {
            assert(s[i + (k - i)] == w[k - i]);
        }
        assert(w[n0] == '.');
        assert(s[i + n0] == '.');
        assert(!is_digit('.'));
        lemma_digit_run(s, i, i + n0);
        assert forall|j: int| 0 <= j < rest.len() implies canonical(#[trigger] rest[j]) by {
            assert(rest[j] == ps[j + 1]);
        }
        lemma_sub(s, i, w, n0 + 1, n);
        assert(w.subrange(n0 + 1, n) =~= wr);
        lemma_release_run(s, i + n0 + 1, rest);
        assert(s[i + n0 + 1] == s[(i + n0 + 1) + 0]);
        assert(is_digit(s[i + n0 + 1]));
    }
}

/// A character no case folding changes and that folds to no letter but itself.
pub open spec fn plain(c: char) -> bool {
    !('A' <= c && c <= 'Z') && c != '\u{212a}' && c != '\u{17f}'
}

proof fn lemma_mismatch(s: Seq<char>, k: int, w: Seq<char>, x: int)
    requires
        0 <= x < w.len(),
        0 <= k,
        k + x < s.len(),
        plain(s[k + x]),
        s[k + x] != w[x],
    ensures
        !ci_at(s, k, w),
{
    assert(lower(s[k + x]) == s[k + x]);
    lemma_no_ci_at(s, k, w, x);
}

/// Text in small letters matches itself whatever case the match allows.
proof fn lemma_ci_match(s: Seq<char>, k: int, w: Seq<char>)
    requires
        0 <= k,
        k + w.len() <= s.len(),
        s.subrange(k, k + w.len()) == w,
        forall|x: int| 0 <= x < w.len() ==> 'a' <= #[trigger] w[x] && w[x] <= 'z',
    ensures
        ci_at(s, k, w),
{
    assert forall|x: int| 0 <= x < w.len() implies ci_eq(#[trigger] s[k + x], w[x]) by {
        assert(s[k + x] == s.subrange(k, k + w.len())[x]);
    }
}

proof fn lemma_label_at(s: Seq<char>, k: int, labels: Seq<Seq<char>>, j: int, jj: int)
    requires
        0 <= j <= jj < labels.len(),
        forall|i: int| j <= i < jj ==> !ci_at(s, k, #[trigger] labels[i]),
        labels[jj].len() > 0,
        ci_at(s, k, labels[jj]),
    ensures
        first_label(s, k, labels, j) == labels[jj].len(),
    decreases jj - j,
{
    if j < jj {
        lemma_label_at(s, k, labels, j + 1, jj);
    }
}

/// The numbers a version writes where it names none.
proof fn lemma_numbered(n: Option<Seq<char>>)
    requires
        num_ok(n),
    ensures
        canonical(numbered(n)),
        read_digits(numbered(n)) == numbered(n),
{
    if n is None {
        assert(numbered(n) =~= seq!['0']);
    }
    lemma_read_canonical(numbered(n));
}

/// A pre-release label the reader knows is spelled `a`, `b` or `rc`.
proof fn lemma_pre_spelling(l: Seq<char>)
    requires
        pre_labels().contains(l),
    ensures
        pre_spelling(l) == seq!['a'] || pre_spelling(l) == seq!['b'] || pre_spelling(l) == seq!['r', 'c'],
        pre_spelling(pre_spelling(l)) == pre_spelling(l),
        lower_all(pre_spelling(l)) == pre_spelling(l),
{
    let j = choose|j: int| 0 <= j < pre_labels().len() && pre_labels()[j] == l;
    assert(lower_all(seq!['a']) =~= seq!['a']);
    assert(lower_all(seq!['b']) =~= seq!['b']);
    assert(lower_all(seq!['r', 'c']) =~= seq!['r', 'c']);
}

/// A pre-release spelled after the release reads back as its one spelling and its number.
#[verifier::spinoff_prover]
proof fn lemma_pre_read(s: Seq<char>, i: int, l: Seq<char>, n: Option<Seq<char>>)
    requires
        pre_labels().contains(l),
        num_ok(n),
        0 <= i,
        i + (pre_spelling(l) + numbered(n)).len() <= s.len(),
        s.subrange(i, i + (pre_spelling(l) + numbered(n)).len()) == pre_spelling(l) + numbered(n),
        i + (pre_spelling(l) + numbered(n)).len() == s.len() || !is_digit(
            s[i + (pre_spelling(l) + numbered(n)).len()],
        ),
    ensures
        pre_span(s, i) == Some(
            (
                i,
                i + pre_spelling(l).len(),
                i + pre_spelling(l).len(),
                i + (pre_spelling(l) + numbered(n)).len(),
            ),
        ),
{
    reveal(pre_span);
    lemma_pre_spelling(l);
    lemma_numbered(n);
    let sp = pre_spelling(l);
    let x = sp + numbered(n);
    let ns = sp.len() as int;
    let e = i + x.len();
    lemma_sub(s, i, x, 0, x.len() as int);
    assert(s[i + 0] == x[0]);
    assert(opt_sep(s, i) == i);
    assert(s.subrange(i, i + ns) =~= sp) by {
        lemma_sub(s, i, x, 0, ns);
    }
    assert(is_digit(numbered(n)[0]));
    assert(s[i + ns] == x[ns]);
    assert(plain(s[i + ns]));
    let labels = pre_labels();
    if sp == seq!['a'] {
        lemma_mismatch(s, i, labels[0], 1);
        lemma_ci_match(s, i, labels[1]);
        lemma_label_at(s, i, labels, 0, 1);
    } else if sp == seq!['b'] {
        lemma_mismatch(s, i, labels[0], 0);
        lemma_mismatch(s, i, labels[1], 0);
        lemma_mismatch(s, i, labels[2], 1);
        lemma_ci_match(s, i, labels[3]);
        lemma_label_at(s, i, labels, 0, 3);
    } else {
        assert(s[i + 1] == x[1]);
        lemma_mismatch(s, i, labels[0], 0);
        lemma_mismatch(s, i, labels[1], 0);
        lemma_mismatch(s, i, labels[2], 0);
        lemma_mismatch(s, i, labels[3], 0);
        lemma_mismatch(s, i, labels[4], 0);
        lemma_mismatch(s, i, labels[5], 0);
        lemma_mismatch(s, i, labels[6], 0);
        lemma_ci_match(s, i, labels[7]);
        lemma_label_at(s, i, labels, 0, 7);
    }
    assert(opt_sep(s, i + ns) == i + ns);
    assert forall|k: int| i + ns <= k < e implies is_digit(#[trigger] s[k]) by {
        assert(s[i + (k - i)] == x[k - i]);
        assert(x[k - i] == numbered(n)[k - i - ns]);
    }
    lemma_digit_run(s, i + ns, e);
}

/// `.post` and its number read back as a post-release spelled with its label.
proof fn lemma_post_read(s: Seq<char>, i: int, n: Option<Seq<char>>)
    requires
        num_ok(n),
        0 <= i,
        i + (seq!['.', 'p', 'o', 's', 't'] + numbered(n)).len() <= s.len(),
        s.subrange(i, i + (seq!['.', 'p', 'o', 's', 't'] + numbered(n)).len()) == seq![
            '.',
            'p',
            'o',
            's',
            't',
        ] + numbered(n),
        i + (seq!['.', 'p', 'o', 's', 't'] + numbered(n)).len() == s.len() || !is_digit(
            s[i + (seq!['.', 'p', 'o', 's', 't'] + numbered(n)).len()],
        ),
    ensures
        post_span(s, i) == Some(
            (false, i + 5, i + (seq!['.', 'p', 'o', 's', 't'] + numbered(n)).len()),
        ),
{
    reveal(post_span);
    lemma_numbered(n);
    let x = seq!['.', 'p', 'o', 's', 't'] + numbered(n);
    let e = i + x.len();
    lemma_sub(s, i, x, 0, x.len() as int);
    assert(s[i + 0] == x[0]);
    assert(s[i] == '.');
    assert(opt_sep(s, i) == i + 1);
    let labels = post_labels();
    assert(s.subrange(i + 1, i + 5) =~= labels[0]) by {
        lemma_sub(s, i, x, 1, 5);
        assert(x.subrange(1, 5) =~= labels[0]);
    }
    lemma_ci_match(s, i + 1, labels[0]);
    lemma_label_at(s, i + 1, labels, 0, 0);
    assert(s[i + 5] == x[5]);
    assert(is_digit(numbered(n)[0]));
    assert(opt_sep(s, i + 5) == i + 5);
    assert forall|k: int| i + 5 <= k < e implies is_digit(#[trigger] s[k]) by {
        assert(s[i + (k - i)] == x[k - i]);
        assert(x[k - i] == numbered(n)[k - i - 5]);
    }
    lemma_digit_run(s, i + 5, e);
}

/// `.dev` and its number read back as a development release.
proof fn lemma_dev_read(s: Seq<char>, i: int, n: Option<Seq<char>>)
    requires
        num_ok(n),
        0 <= i,
        i + (seq!['.', 'd', 'e', 'v'] + numbered(n)).len() <= s.len(),
        s.subrange(i, i + (seq!['.', 'd', 'e', 'v'] + numbered(n)).len()) == seq!['.', 'd', 'e', 'v']
            + numbered(n),
        i + (seq!['.', 'd', 'e', 'v'] + numbered(n)).len() == s.len() || !is_digit(
            s[i + (seq!['.', 'd', 'e', 'v'] + numbered(n)).len()],
        ),
    ensures
        dev_span(s, i) == Some((i + 4, i + (seq!['.', 'd', 'e', 'v'] + numbered(n)).len())),
{
    reveal(dev_span);
    lemma_numbered(n);
    let x = seq!['.', 'd', 'e', 'v'] + numbered(n);
    let e = i + x.len();
    lemma_sub(s, i, x, 0, x.len() as int);
    assert(s[i + 0] == x[0]);
    assert(s[i] == '.');
    assert(opt_sep(s, i) == i + 1);
    assert(s.subrange(i + 1, i + 4) =~= seq!['d', 'e', 'v']) by {
        lemma_sub(s, i, x, 1, 4);
        assert(x.subrange(1, 4) =~= seq!['d', 'e', 'v']);
    }
    lemma_ci_match(s, i + 1, seq!['d', 'e', 'v']);
    assert(s[i + 4] == x[4]);
    assert(is_digit(numbered(n)[0]));
    assert(opt_sep(s, i + 4) == i + 4);
    assert forall|k: int| i + 4 <= k < e implies is_digit(#[trigger] s[k]) by {
        assert(s[i + (k - i)] == x[k - i]);
        assert(x[k - i] == numbered(n)[k - i - 4]);
    }
    lemma_digit_run(s, i + 4, e);
}

/// What can follow a segment of a spelled version: nothing, a local version, or a later segment
/// opening on a dot and its label's first letter.
pub open spec fn opens_later(s: Seq<char>, i: int, letters: Seq<char>) -> bool {
    ||| i == s.len()
    ||| (0 <= i < s.len() && s[i] == '+')
    ||| (0 <= i && i + 1 < s.len() && s[i] == '.' && letters.contains(s[i + 1]) && (s[i + 1] == 'p'
        ==> i + 2 < s.len() && s[i + 2] == 'o'))
}

/// No pre-release is read where a post-release, a development release, a local version or the
/// end stands.
proof fn lemma_pre_none(s: Seq<char>, i: int)
    requires
        0 <= i <= s.len(),
        opens_later(s, i, seq!['p', 'd']),
    ensures
        pre_span(s, i) is None,
{
    reveal(pre_span);
    let k = opt_sep(s, i);
    let labels = pre_labels();
    assert forall|j: int| 0 <= j < labels.len() implies !ci_at(s, k, #[trigger] labels[j]) by {
        if k < s.len() {
            if s[k] == 'p' {
                assert(s[k + 1] == 'o');
                if j == 4 || j == 5 {
                    lemma_mismatch(s, k, labels[j], 1);
                } else {
                    lemma_mismatch(s, k, labels[j], 0);
                }
            } else {
                lemma_mismatch(s, k, labels[j], 0);
            }
        }
    }
    lemma_no_label(s, k, labels, 0);
}

/// No post-release is read where a development release, a local version or the end stands.
proof fn lemma_post_none(s: Seq<char>, i: int)
    requires
        0 <= i <= s.len(),
        opens_later(s, i, seq!['d']),
    ensures
        post_span(s, i) is None,
{
    reveal(post_span);
    let k = opt_sep(s, i);
    let labels = post_labels();
    assert forall|j: int| 0 <= j < labels.len() implies !ci_at(s, k, #[trigger] labels[j]) by {
        if k < s.len() {
            lemma_mismatch(s, k, labels[j], 0);
        }
    }
    lemma_no_label(s, k, labels, 0);
}

/// No development release is read where a local version or the end stands.
proof fn lemma_dev_none(s: Seq<char>, i: int)
    requires
        0 <= i <= s.len(),
        opens_later(s, i, seq![]),
    ensures
        dev_span(s, i) is None,
{
    reveal(dev_span);
    let k = opt_sep(s, i);
    if k < s.len() {
        lemma_mismatch(s, k, seq!['d', 'e', 'v'], 0);
    }
}

proof fn lemma_local_chars_stop(s: Seq<char>, i: int)
    requires
        0 <= i <= s.len(),
    ensures
        local_chars_end(s, i) < s.len() ==> !is_local_char(s[local_chars_end(s, i)]),
    decreases s.len() - i,
{
    if i < s.len() && is_local_char(s[i]) {
        lemma_local_chars_stop(s, i + 1);
    }
}

/// Runs of local characters with one separator between each two, running to the end of the
/// text, read whole as a local version.
proof fn lemma_local_run(s: Seq<char>, j: int)
    requires
        0 <= j < s.len(),
        is_local_char(s[j]),
        is_local_char(s.last()),
        forall|k: int| j <= k < s.len() ==> is_local_char(#[trigger] s[k]) || is_sep(s[k]),
        forall|k: int| j < k < s.len() && is_sep(#[trigger] s[k]) ==> !is_sep(s[k - 1]),
    ensures
        local_end(s, j) == s.len(),
        local_chars_end(s, j) > j,
    decreases s.len() - j,
{
    crate::pep508::version::lemma_local_chars_end(s, j);
    lemma_local_chars_stop(s, j);
    let d = local_chars_end(s, j);
    assert(local_chars_end(s, j) == local_chars_end(s, j + 1));
    crate::pep508::version::lemma_local_chars_end(s, j + 1);
    if d < s.len() {
        assert(is_sep(s[d]));
        assert(d != s.len() - 1);
        assert(!is_sep(s[d + 1]));
        assert(is_local_char(s[d + 1]));
        lemma_local_run(s, d + 1);
    }
}

/// A local version as it is written back: each separator a dot.
proof fn lemma_local_spelling(l: Seq<char>)
    requires
        local_ok(l),
    ensures
        local_ok(local_spelling(l)),
        local_spelling(local_spelling(l)) == local_spelling(l),
        lower_all(local_spelling(l)) == local_spelling(l),
        local_spelling(l).len() == l.len(),
{
    let ls = local_spelling(l);
    assert forall|k: int| 0 <= k < l.len() implies #[trigger] ls[k] == (if is_sep(l[k]) {
        '.'
    } else {
        l[k]
    }) by {}
    assert forall|k: int| 0 <= k < l.len() implies #[trigger] lower_all(ls)[k] == ls[k] by {
        assert(lower_all(l)[k] == l[k]);
    }
    assert(lower_all(ls) =~= ls);
    assert(local_spelling(ls) =~= ls);
    assert forall|k: int| 0 < k < ls.len() && is_sep(#[trigger] ls[k]) implies !is_sep(ls[k - 1]) by {
        assert(is_sep(l[k]));
    }
}

/// A local version after its `+` reads whole as itself, to the end of the text.
proof fn lemma_local_read(s: Seq<char>, i: int, l: Seq<char>)
    requires
        local_ok(l),
        0 <= i,
        i + 1 + l.len() == s.len(),
        s.subrange(i, s.len() as int) == seq!['+'] + local_spelling(l),
    ensures
        local_span(s, i) == Some((i + 1, s.len() as int)),
        lower_all(s.subrange(i + 1, s.len() as int)) == local_spelling(l),
{
    reveal(local_span);
    lemma_local_spelling(l);
    let ls = local_spelling(l);
    let x = seq!['+'] + ls;
    lemma_sub(s, i, x, 0, x.len() as int);
    assert(s[i + 0] == x[0]);
    assert(s[i] == '+');
    assert forall|k: int| i + 1 <= k < s.len() implies is_local_char(#[trigger] s[k]) || is_sep(
        s[k],
    ) by {
        assert(s[i + (k - i)] == x[k - i]);
        assert(x[k - i] == ls[k - i - 1]);
    }
    assert forall|k: int| i + 1 < k < s.len() && is_sep(#[trigger] s[k]) implies !is_sep(
        s[k - 1],
    ) by {
        assert(s[i + (k - i)] == x[k - i]);
        assert(x[k - i] == ls[k - i - 1]);
        assert(s[i + (k - 1 - i)] == x[k - 1 - i]);
        assert(x[k - 1 - i] == ls[k - i - 2]);
    }
    assert(s[i + 1] == x[1]);
    assert(s[i + (s.len() - 1 - i)] == x[s.len() - 1 - i]);
    lemma_local_run(s, i + 1);
    lemma_sub(s, i, x, 1, x.len() as int);
    assert(x.subrange(1, x.len() as int) =~= ls);
}

proof fn lemma_opens(s: Seq<char>, i: int, t: Seq<char>, letters: Seq<char>)
    requires
        0 <= i <= s.len(),
        s.subrange(i, s.len() as int) == t,
        t.len() == 0 || t[0] == '+' || (t.len() >= 2 && t[0] == '.' && letters.contains(t[1]) && (
        t[1] == 'p' ==> t.len() >= 3 && t[2] == 'o')),
    ensures
        opens_later(s, i, letters),
{
    if t.len() > 0 {
        assert(s[i] == t[0]);
        if t.len() >= 2 {
            assert(s[i + 1] == t[1]);
        }
        if t.len() >= 3 {
            assert(s[i + 2] == t[2]);
        }
    }
}

/// The spelling past the release.
pub open spec fn tail1(v: VersionView) -> Seq<char> {
    pre_part(v) + post_part(v) + dev_part(v) + local_part(v)
}

pub open spec fn tail2(v: VersionView) -> Seq<char> {
    post_part(v) + dev_part(v) + local_part(v)
}

pub open spec fn tail3(v: VersionView) -> Seq<char> {
    dev_part(v) + local_part(v)
}

/// How each part past the release opens.
proof fn lemma_tails(v: VersionView)
    requires
        wf_version(v),
    ensures
        local_part(v).len() > 0 ==> local_part(v)[0] == '+',
        tail3(v).len() == 0 || tail3(v)[0] == '+' || (tail3(v).len() >= 2 && tail3(v)[0] == '.'
            && tail3(v)[1] == 'd'),
        tail2(v).len() == 0 || tail2(v)[0] == '+' || (tail2(v).len() >= 3 && tail2(v)[0] == '.'
            && (tail2(v)[1] == 'd' || (tail2(v)[1] == 'p' && tail2(v)[2] == 'o'))),
        tail1(v).len() == 0 || tail1(v)[0] == '+' || tail1(v)[0] == 'a' || tail1(v)[0] == 'b'
            || tail1(v)[0] == 'r' || (tail1(v).len() >= 3 && tail1(v)[0] == '.' && (tail1(v)[1]
            == 'd' || (tail1(v)[1] == 'p' && tail1(v)[2] == 'o'))),
{
    if let Some(p) = v.pre {
        lemma_pre_spelling(p.0);
        assert(tail1(v)[0] == pre_spelling(p.0)[0]);
    }
    if let Some(d) = v.dev {
        assert(tail3(v)[0] == '.');
        assert(tail3(v)[1] == 'd');
    }
    if let Some(d) = v.post {
        assert(tail2(v)[0] == '.');
        assert(tail2(v)[1] == 'p');
        assert(tail2(v)[2] == 'o');
    }
    assert(v.post is None ==> tail2(v) =~= tail3(v));
    assert(v.pre is None ==> tail1(v) =~= tail2(v));
    assert(v.dev is None ==> tail3(v) =~= local_part(v));
}

pub open spec fn e_end(v: VersionView) -> int {
    epoch_part(v).len() as int
}

pub open spec fn r_end(v: VersionView) -> int {
    e_end(v) + join(v.release, seq!['.']).len()
}

pub open spec fn p_end(v: VersionView) -> int {
    r_end(v) + pre_part(v).len()
}

pub open spec fn q_end(v: VersionView) -> int {
    p_end(v) + post_part(v).len()
}

pub open spec fn d_end(v: VersionView) -> int {
    q_end(v) + dev_part(v).len()
}

/// Where each part of the spelling stands in it.
#[verifier::spinoff_prover]
proof fn lemma_layout(v: VersionView)
    ensures
        body(v).len() == d_end(v) + local_part(v).len(),
        body(v).subrange(0, e_end(v)) == epoch_part(v),
        body(v).subrange(e_end(v), r_end(v)) == join(v.release, seq!['.']),
        body(v).subrange(r_end(v), p_end(v)) == pre_part(v),
        body(v).subrange(p_end(v), q_end(v)) == post_part(v),
        body(v).subrange(q_end(v), d_end(v)) == dev_part(v),
        body(v).subrange(r_end(v), body(v).len() as int) == tail1(v),
        body(v).subrange(p_end(v), body(v).len() as int) == tail2(v),
        body(v).subrange(q_end(v), body(v).len() as int) == tail3(v),
        body(v).subrange(d_end(v), body(v).len() as int) == local_part(v),
        body(v).subrange(e_end(v), body(v).len() as int) == join(v.release, seq!['.']) + tail1(v),
{
    let s = body(v);
    let n = s.len() as int;
    assert(s.subrange(0, e_end(v)) =~= epoch_part(v));
    assert(s.subrange(e_end(v), r_end(v)) =~= join(v.release, seq!['.']));
    assert(s.subrange(r_end(v), p_end(v)) =~= pre_part(v));
    assert(s.subrange(p_end(v), q_end(v)) =~= post_part(v));
    assert(s.subrange(q_end(v), d_end(v)) =~= dev_part(v));
    assert(s.subrange(r_end(v), n) =~= tail1(v));
    assert(s.subrange(p_end(v), n) =~= tail2(v));
    assert(s.subrange(q_end(v), n) =~= tail3(v));
    assert(s.subrange(d_end(v), n) =~= local_part(v));
    assert(s.subrange(e_end(v), n) =~= join(v.release, seq!['.']) + tail1(v));
}

/// The first number of the release opens the spelling where no epoch does.
proof fn lemma_release_front(v: VersionView)
    requires
        wf_version(v),
    ensures
        join(v.release, seq!['.'])[0] == v.release[0][0],
        v.release.len() > 1 ==> join(v.release, seq!['.'])[v.release[0].len() as int] == '.',
        join(v.release, seq!['.']).len() >= v.release[0].len(),
        v.release.len() > 1 ==> join(v.release, seq!['.']).len() > v.release[0].len(),
{
    let p0 = v.release[0];
    assert(canonical(p0));
    if v.release.len() > 1 {
        lemma_join_front(p0, v.release.drop_first(), seq!['.']);
        assert(v.release =~= seq![p0] + v.release.drop_first());
    } else {
        assert(join(v.release, seq!['.']) == p0);
    }
}

/// The spelling opens on no `v`, reads its epoch where it writes one, and its release.
#[verifier::spinoff_prover]
proof fn lemma_body_head(v: VersionView)
    requires
        wf_version(v),
    ensures
        !ci_eq(body(v)[0], 'v'),
        epoch_span(body(v), 0) == (match v.epoch {
            Some(ep) => Some((0int, ep.len() as int)),
            None => None,
        }),
        release_end(body(v), e_end(v)) == r_end(v),
        digits_end(body(v), e_end(v)) > e_end(v),
{
    let s = body(v);
    let n = s.len() as int;
    let r = join(v.release, seq!['.']);
    let e1 = e_end(v);
    let r1 = r_end(v);
    lemma_layout(v);
    lemma_tails(v);
    lemma_release_front(v);
    let p0 = v.release[0];
    assert(s.subrange(e1, r1) == r);
    if r1 < n {
        assert(s[r1] == s.subrange(r1, n)[0]);
        if tail1(v)[0] == '.' {
            assert(s[r1 + 1] == s.subrange(r1, n)[1]);
        }
    }
    lemma_release_run(s, e1, v.release);
    assert(s[e1] == s.subrange(e1, r1)[0]);
    if let Some(ep) = v.epoch {
        assert(s.subrange(0, e1) == ep + seq!['!']);
        assert forall|k: int| 0 <= k < ep.len() implies is_digit(#[trigger] s[k]) by {
            assert(s[k] == s.subrange(0, e1)[k]);
        }
        assert(s[ep.len() as int] == s.subrange(0, e1)[ep.len() as int]);
        lemma_digit_run(s, 0, ep.len() as int);
        assert(s[0] == s.subrange(0, e1)[0]);
    } else {
        assert(e1 == 0);
        let z = p0.len() as int;
        if v.release.len() > 1 {
            assert(s[z] == s.subrange(e1, r1)[z]);
        } else if z < n {
            assert(r1 == z);
        }
    }
}

/// The expected spans of the spelling.
pub open spec fn body_spans(v: VersionView) -> Spans {
    Spans {
        epoch: match v.epoch {
            Some(ep) => Some((0int, ep.len() as int)),
            None => None,
        },
        release: (e_end(v), r_end(v)),
        pre: match v.pre {
            Some(p) => Some(
                (
                    r_end(v),
                    r_end(v) + pre_spelling(p.0).len(),
                    r_end(v) + pre_spelling(p.0).len(),
                    p_end(v),
                ),
            ),
            None => None,
        },
        post: match v.post {
            Some(_) => Some((false, p_end(v) + 5, q_end(v))),
            None => None,
        },
        dev: match v.dev {
            Some(_) => Some((q_end(v) + 4, d_end(v))),
            None => None,
        },
        local: match v.local {
            Some(_) => Some((d_end(v) + 1, body(v).len() as int)),
            None => None,
        },
    }
}

proof fn lemma_body_pre(v: VersionView)
    requires
        wf_version(v),
    ensures
        pre_span(body(v), r_end(v)) == body_spans(v).pre,
{
    let s = body(v);
    let n = s.len() as int;
    lemma_layout(v);
    lemma_tails(v);
    if let Some(pr) = v.pre {
        let p1 = p_end(v);
        if p1 < n {
            assert(s[p1] == s.subrange(p1, n)[0]);
        }
        lemma_pre_read(s, r_end(v), pr.0, pr.1);
    } else {
        assert(seq!['p', 'd'][0] == 'p' && seq!['p', 'd'][1] == 'd');
        lemma_opens(s, r_end(v), tail1(v), seq!['p', 'd']);
        lemma_pre_none(s, r_end(v));
    }
}

proof fn lemma_body_post(v: VersionView)
    requires
        wf_version(v),
    ensures
        post_span(body(v), p_end(v)) == body_spans(v).post,
{
    let s = body(v);
    let n = s.len() as int;
    lemma_layout(v);
    lemma_tails(v);
    if let Some(po) = v.post {
        let q1 = q_end(v);
        if q1 < n {
            assert(s[q1] == s.subrange(q1, n)[0]);
        }
        lemma_post_read(s, p_end(v), po.1);
    } else {
        assert(seq!['d'][0] == 'd');
        lemma_opens(s, p_end(v), tail2(v), seq!['d']);
        lemma_post_none(s, p_end(v));
    }
}

proof fn lemma_body_dev(v: VersionView)
    requires
        wf_version(v),
    ensures
        dev_span(body(v), q_end(v)) == body_spans(v).dev,
{
    let s = body(v);
    let n = s.len() as int;
    lemma_layout(v);
    lemma_tails(v);
    if let Some(dv) = v.dev {
        let d1 = d_end(v);
        if d1 < n {
            assert(s[d1] == s.subrange(d1, n)[0]);
        }
        lemma_dev_read(s, q_end(v), dv.1);
    } else {
        lemma_opens(s, q_end(v), tail3(v), seq![]);
        lemma_dev_none(s, q_end(v));
    }
}

proof fn lemma_body_local(v: VersionView)
    requires
        wf_version(v),
    ensures
        local_span(body(v), d_end(v)) == body_spans(v).local,
        v.local matches Some(lo) ==> lower_all(body(v).subrange(d_end(v) + 1, body(v).len() as int))
            == local_spelling(lo),
{
    let s = body(v);
    lemma_layout(v);
    if let Some(lo) = v.local {
        lemma_local_read(s, d_end(v), lo);
    } else {
        reveal(local_span);
    }
}

/// The spelling without its wildcard reads back as the spans it was written in.
#[verifier::spinoff_prover]
proof fn lemma_spans_body(v: VersionView)
    requires
        wf_version(v),
    ensures
        spans(body(v)) == Some(body_spans(v)),
{
    lemma_layout(v);
    lemma_body_head(v);
    lemma_body_pre(v);
    lemma_body_post(v);
    lemma_body_dev(v);
    lemma_body_local(v);
}

proof fn lemma_view_release(v: VersionView)
    requires
        wf_version(v),
    ensures
        split_on(body(v).subrange(e_end(v), r_end(v)), '.').map_values(|p: Seq<char>| read_digits(p))
            == v.release,
{
    lemma_layout(v);
    assert forall|i: int| 0 <= i < v.release.len() implies !(#[trigger] v.release[i]).contains('.') by {
        lemma_canonical_no_dot(v.release[i]);
    }
    lemma_split_join(v.release, '.');
    assert forall|i: int| 0 <= i < v.release.len() implies #[trigger] read_digits(v.release[i])
        == v.release[i] by {
        lemma_read_canonical(v.release[i]);
    }
    assert(v.release.map_values(|p: Seq<char>| read_digits(p)) =~= v.release);
}

proof fn lemma_view_epoch(v: VersionView)
    requires
        wf_version(v),
        v.epoch is Some,
    ensures
        read_digits(body(v).subrange(0, (v.epoch->0).len() as int)) == v.epoch->0,
{
    lemma_layout(v);
    let s = body(v);
    let ep = v.epoch->0;
    assert(s.subrange(0, e_end(v)) == ep + seq!['!']);
    assert(s.subrange(0, ep.len() as int) =~= s.subrange(0, e_end(v)).subrange(0, ep.len() as int));
    assert(s.subrange(0, ep.len() as int) =~= ep);
    lemma_read_canonical(ep);
}

#[verifier::spinoff_prover]
proof fn lemma_view_pre(v: VersionView)
    requires
        wf_version(v),
        v.pre is Some,
    ensures
        lower_all(body(v).subrange(r_end(v), r_end(v) + pre_spelling((v.pre->0).0).len()))
            == pre_spelling((v.pre->0).0),
        number_in(body(v), r_end(v) + pre_spelling((v.pre->0).0).len(), p_end(v)) == Some(
            numbered((v.pre->0).1),
        ),
{
    lemma_layout(v);
    let s = body(v);
    let pr = v.pre->0;
    lemma_pre_spelling(pr.0);
    lemma_numbered(pr.1);
    let sl = pre_spelling(pr.0).len() as int;
    let r1 = r_end(v);
    assert(s.subrange(r1, p_end(v)) == pre_spelling(pr.0) + numbered(pr.1));
    assert(s.subrange(r1, r1 + sl) =~= s.subrange(r1, p_end(v)).subrange(0, sl));
    assert(s.subrange(r1 + sl, p_end(v)) =~= s.subrange(r1, p_end(v)).subrange(sl, p_end(v) - r1));
    assert(s.subrange(r1, r1 + sl) =~= pre_spelling(pr.0));
    assert(s.subrange(r1 + sl, p_end(v)) =~= numbered(pr.1));
}

#[verifier::spinoff_prover]
proof fn lemma_view_post_dev(v: VersionView)
    requires
        wf_version(v),
    ensures
        v.post is Some ==> number_in(body(v), p_end(v) + 5, q_end(v)) == Some(
            numbered((v.post->0).1),
        ),
        v.dev is Some ==> number_in(body(v), q_end(v) + 4, d_end(v)) == Some(
            numbered((v.dev->0).1),
        ),
{
    lemma_layout(v);
    let s = body(v);
    if let Some(po) = v.post {
        lemma_numbered(po.1);
        let p1 = p_end(v);
        assert(s.subrange(p1 + 5, q_end(v)) =~= s.subrange(p1, q_end(v)).subrange(5, q_end(v) - p1));
        assert(s.subrange(p1 + 5, q_end(v)) =~= numbered(po.1));
    }
    if let Some(dv) = v.dev {
        lemma_numbered(dv.1);
        let q1 = q_end(v);
        assert(s.subrange(q1 + 4, d_end(v)) =~= s.subrange(q1, d_end(v)).subrange(4, d_end(v) - q1));
        assert(s.subrange(q1 + 4, d_end(v)) =~= numbered(dv.1));
    }
}

/// The spelling without its wildcard reads back segment by segment as the settled version.
#[verifier::spinoff_prover]
proof fn lemma_read_body(v: VersionView)
    requires
        wf_version(v),
    ensures
        spans(body(v)) is Some,
        view_of_spans(body(v), spans(body(v))->0, v.has_wildcard) == settled(v),
{
    lemma_spans_body(v);
    lemma_body_local(v);
    lemma_view_release(v);
    if v.epoch is Some {
        lemma_view_epoch(v);
    }
    if v.pre is Some {
        lemma_view_pre(v);
    }
    lemma_view_post_dev(v);
}

proof fn lemma_join_last(ps: Seq<Seq<char>>, sep: Seq<char>)
    requires
        ps.len() > 0,
        ps.last().len() > 0,
    ensures
        join(ps, sep).len() > 0,
        join(ps, sep).last() == ps.last().last(),
{
}

#[verifier::spinoff_prover]
proof fn lemma_body_first(v: VersionView)
    requires
        wf_version(v),
    ensures
        body(v).len() > 0,
        is_digit(body(v)[0]),
{
    lemma_layout(v);
    lemma_release_front(v);
    let s = body(v);
    assert(canonical(v.release[0]));
    if let Some(ep) = v.epoch {
        assert(s[0] == s.subrange(0, e_end(v))[0]);
    } else {
        assert(s[0] == s.subrange(e_end(v), r_end(v))[0]);
    }
}

/// The last character of text whose last part is known.
proof fn lemma_last_part(s: Seq<char>, a: int, part: Seq<char>)
    requires
        0 <= a,
        a + part.len() == s.len(),
        part.len() > 0,
        s.subrange(a, s.len() as int) == part,
    ensures
        s.last() == part.last(),
{
    assert(s.last() == s.subrange(a, s.len() as int)[part.len() - 1]);
}

#[verifier::spinoff_prover]
proof fn lemma_body_last(v: VersionView)
    requires
        wf_version(v),
    ensures
        body(v).len() > 0,
        is_digit(body(v).last()) || is_local_char(body(v).last()),
{
    lemma_layout(v);
    let s = body(v);
    let n = s.len() as int;
    if let Some(lo) = v.local {
        lemma_local_spelling(lo);
        lemma_last_part(s, d_end(v), local_part(v));
        assert(local_part(v).last() == local_spelling(lo).last());
    } else if let Some(dv) = v.dev {
        lemma_numbered(dv.1);
        assert(d_end(v) == n);
        assert(s.subrange(q_end(v), n) == dev_part(v));
        lemma_last_part(s, q_end(v), dev_part(v));
        assert(dev_part(v).last() == numbered(dv.1).last());
    } else if let Some(po) = v.post {
        lemma_numbered(po.1);
        assert(q_end(v) == n);
        assert(s.subrange(p_end(v), n) == post_part(v));
        lemma_last_part(s, p_end(v), post_part(v));
        assert(post_part(v).last() == numbered(po.1).last());
    } else if let Some(pr) = v.pre {
        lemma_numbered(pr.1);
        assert(p_end(v) == n);
        assert(s.subrange(r_end(v), n) == pre_part(v));
        lemma_last_part(s, r_end(v), pre_part(v));
        assert(pre_part(v).last() == numbered(pr.1).last());
    } else {
        lemma_release_front(v);
        assert(canonical(v.release[v.release.len() - 1]));
        lemma_join_last(v.release, seq!['.']);
        assert(r_end(v) == n);
        assert(s.subrange(e_end(v), n) == join(v.release, seq!['.']));
        lemma_last_part(s, e_end(v), join(v.release, seq!['.']));
    }
}

/// The spelling without its wildcard opens on a digit and closes on a digit or a character of a
/// local version.
proof fn lemma_body_ends(v: VersionView)
    requires
        wf_version(v),
    ensures
        body(v).len() > 0,
        is_digit(body(v)[0]),
        is_digit(body(v).last()) || is_local_char(body(v).last()),
{
    lemma_body_first(v);
    lemma_body_last(v);
}

/// The settled version is one the reader leaves, spelled as the version it settles.
#[verifier::spinoff_prover]
proof fn lemma_settled(v: VersionView)
    requires
        wf_version(v),
    ensures
        wf_version(settled(v)),
        spelled(settled(v)) == spelled(v),
{
    let st = settled(v);
    if let Some(pr) = v.pre {
        lemma_pre_spelling(pr.0);
        lemma_numbered(pr.1);
        assert(pre_labels()[1] == seq!['a']);
        assert(pre_labels()[3] == seq!['b']);
        assert(pre_labels()[7] == seq!['r', 'c']);
        assert(pre_labels().contains(pre_spelling(pr.0)));
        assert(pre_part(st) == pre_part(v));
    }
    if let Some(po) = v.post {
        lemma_numbered(po.1);
        assert(post_part(st) == post_part(v));
    }
    if let Some(dv) = v.dev {
        lemma_numbered(dv.1);
        assert(dev_part(st) == dev_part(v));
    }
    if let Some(lo) = v.local {
        lemma_local_spelling(lo);
        assert(local_part(st) == local_part(v));
    }
    assert(pre_part(st) == pre_part(v));
    assert(post_part(st) == post_part(v));
    assert(dev_part(st) == dev_part(v));
    assert(local_part(st) == local_part(v));
}

/// A version the reader left, spelled, reads back as the version with each label in its one
/// spelling and each number written out; that version is one the reader leaves too, and it is
/// spelled the same way: so spelling a version that was read is spelling it for good.
pub proof fn lemma_read_spelled(v: VersionView)
    requires
        wf_version(v),
    ensures
        version_of(spelled(v)) == Some(settled(v)),
        wf_version(settled(v)),
        spelled(settled(v)) == spelled(v),
{
    let b = body(v);
    let t = spelled(v);
    assert(t == b + wildcard_part(v));
    lemma_body_ends(v);
    lemma_read_body(v);
    if v.has_wildcard {
        assert(t.last() == '*');
        assert(t[0] == b[0]);
        lemma_trim_plain(t);
        assert(ends_with_wildcard(t));
        assert(t.take(t.len() - 2) =~= b);
    } else {
        assert(t =~= b);
        lemma_trim_plain(t);
        assert(!ends_with_wildcard(t));
    }
    lemma_settled(v);
}

proof fn lemma_lower_twice(c: char)
    ensures
        lower(lower(c)) == lower(c),
        is_local_char(c) ==> is_local_char(lower(c)),
        is_sep(c) ==> lower(c) == c,
{
    if 'A' <= c && c <= 'Z' {
        let u = (c as u32) + 32;
        assert(97 <= u <= 122);
        assert('a' <= lower(c) && lower(c) <= 'z');
    }
}

/// Digits read from the text are a number as PEP 440 counts one.
proof fn lemma_number_in(s: Seq<char>, a: int)
    requires
        0 <= a <= s.len(),
    ensures
        num_ok(number_in(s, a, digits_end(s, a))),
{
    lemma_digits_end(s, a);
    let e = digits_end(s, a);
    if a < e {
        let d = s.subrange(a, e);
        assert forall|k: int| 0 <= k < d.len() implies is_digit(#[trigger] d[k]) by {
            assert(d[k] == s[a + k]);
        }
        crate::pep508::number::lemma_read_digits(d);
    }
}

/// A label found at `k` is one of the labels, of the length found.
proof fn lemma_found_label(s: Seq<char>, k: int, labels: Seq<Seq<char>>, j: int)
    requires
        0 <= j <= labels.len(),
        first_label(s, k, labels, j) > 0,
    ensures
        exists|jj: int|
            j <= jj < labels.len() && #[trigger] labels[jj].len() == first_label(s, k, labels, j)
                && ci_at(s, k, labels[jj]),
    decreases labels.len() - j,
{
    if !(labels[j].len() > 0 && ci_at(s, k, labels[j])) {
        lemma_found_label(s, k, labels, j + 1);
        let jj = choose|jj: int|
            j + 1 <= jj < labels.len() && #[trigger] labels[jj].len() == first_label(
                s,
                k,
                labels,
                j + 1,
            ) && ci_at(s, k, labels[jj]);
        assert(labels[jj].len() == first_label(s, k, labels, j));
    } else {
        assert(labels[j].len() == first_label(s, k, labels, j));
    }
}

/// Text matching a label that holds neither `k` nor `s`, in whatever case, is that label in small
/// letters.
proof fn lemma_label_lower(s: Seq<char>, k: int, w: Seq<char>)
    requires
        ci_at(s, k, w),
        forall|i: int| 0 <= i < w.len() ==> #[trigger] w[i] != 'k' && w[i] != 's',
    ensures
        lower_all(s.subrange(k, k + w.len())) == w,
{
    let t = s.subrange(k, k + w.len());
    assert forall|i: int| 0 <= i < w.len() implies #[trigger] lower_all(t)[i] == w[i] by {
        assert(t[i] == s[k + i]);
        assert(ci_eq(s[k + i], w[i]));
    }
    assert(lower_all(t) =~= w);
}

proof fn lemma_pre_labels_plain()
    ensures
        forall|j: int, i: int|
            0 <= j < pre_labels().len() && 0 <= i < pre_labels()[j].len() ==> #[trigger] pre_labels()[j][i]
                != 'k' && pre_labels()[j][i] != 's',
{
    assert forall|j: int, i: int|
        0 <= j < pre_labels().len() && 0 <= i < pre_labels()[j].len() implies #[trigger] pre_labels()[j][i]
        != 'k' && pre_labels()[j][i] != 's' by {
        let w = pre_labels()[j];
        if j == 0 {
            assert(w[i] == 'a' || w[i] == 'l' || w[i] == 'p' || w[i] == 'h');
        } else if j == 1 {
            assert(w[i] == 'a');
        } else if j == 2 {
            assert(w[i] == 'b' || w[i] == 'e' || w[i] == 't' || w[i] == 'a');
        } else if j == 3 {
            assert(w[i] == 'b');
        } else if j == 4 {
            assert(w[i] == 'p' || w[i] == 'r' || w[i] == 'e' || w[i] == 'v' || w[i] == 'i' || w[i]
                == 'w');
        } else if j == 5 {
            assert(w[i] == 'p' || w[i] == 'r' || w[i] == 'e');
        } else if j == 6 {
            assert(w[i] == 'c');
        } else {
            assert(w[i] == 'r' || w[i] == 'c');
        }
    }
}

/// A pre-release the reader finds is one of the labels and a number.
#[verifier::spinoff_prover]
proof fn lemma_pre_found(s: Seq<char>, i: int)
    requires
        0 <= i <= s.len(),
        pre_span(s, i) is Some,
    ensures
        pre_labels().contains(lower_all(s.subrange((pre_span(s, i)->0).0, (pre_span(s, i)->0).1))),
        num_ok(number_in(s, (pre_span(s, i)->0).2, (pre_span(s, i)->0).3)),
        (pre_span(s, i)->0).1 <= (pre_span(s, i)->0).2 <= s.len(),
        (pre_span(s, i)->0).3 == digits_end(s, (pre_span(s, i)->0).2),
        i <= (pre_span(s, i)->0).3 <= s.len(),
{
    reveal(pre_span);
    let k = opt_sep(s, i);
    let labels = pre_labels();
    assert(first_label(s, k, labels, 0) != 0);
    crate::pep508::version::lemma_first_label(s, k, labels, 0);
    lemma_found_label(s, k, labels, 0);
    let jj = choose|jj: int|
        0 <= jj < labels.len() && #[trigger] labels[jj].len() == first_label(s, k, labels, 0) && ci_at(
            s,
            k,
            labels[jj],
        );
    lemma_pre_labels_plain();
    assert forall|x: int| 0 <= x < labels[jj].len() implies #[trigger] labels[jj][x] != 'k'
        && labels[jj][x] != 's' by {
        assert(pre_labels()[jj][x] != 'k');
    }
    lemma_label_lower(s, k, labels[jj]);
    let l = first_label(s, k, labels, 0);
    let m = opt_sep(s, k + l);
    assert(k + l <= s.len());
    lemma_number_in(s, m);
    lemma_digits_end(s, m);
}

/// Runs of local characters with one separator between each two, as the reader finds them.
proof fn lemma_local_found(s: Seq<char>, j: int)
    requires
        0 <= j < s.len(),
        local_chars_end(s, j) > j,
    ensures
        j < local_end(s, j) <= s.len(),
        is_local_char(s[j]),
        is_local_char(s[local_end(s, j) - 1]),
        forall|k: int| j <= k < local_end(s, j) ==> is_local_char(#[trigger] s[k]) || is_sep(s[k]),
        forall|k: int| j < k < local_end(s, j) && is_sep(#[trigger] s[k]) ==> !is_sep(s[k - 1]),
    decreases s.len() - j,
{
    crate::pep508::version::lemma_local_chars_end(s, j);
    let d = local_chars_end(s, j);
    if d + 1 < s.len() && is_sep(s[d]) && is_local_char(s[d + 1]) {
        crate::pep508::version::lemma_local_chars_end(s, d + 1);
        assert(local_chars_end(s, d + 1) > d + 1) by {
            assert(local_chars_end(s, d + 1) == local_chars_end(s, d + 2));
            crate::pep508::version::lemma_local_chars_end(s, d + 2);
        }
        lemma_local_found(s, d + 1);
        assert(local_end(s, j) == local_end(s, d + 1));
        assert(!is_sep(s[d - 1]));
    } else {
        assert(local_end(s, j) == d);
    }
}

/// What the reader keeps of a local version is one as it leaves one.
#[verifier::spinoff_prover]
proof fn lemma_local_ok(s: Seq<char>, j: int)
    requires
        0 <= j < s.len(),
        local_chars_end(s, j) > j,
    ensures
        local_ok(lower_all(s.subrange(j, local_end(s, j)))),
{
    lemma_local_found(s, j);
    let e = local_end(s, j);
    let t = s.subrange(j, e);
    let lt = lower_all(t);
    assert forall|k: int| 0 <= k < t.len() implies #[trigger] lt[k] == lower(t[k]) && t[k] == s[j
        + k] by {}
    assert forall|k: int| 0 <= k < lt.len() implies is_local_char(#[trigger] lt[k]) || is_sep(lt[k]) by {
        lemma_lower_twice(t[k]);
    }
    assert forall|k: int| 0 < k < lt.len() && is_sep(#[trigger] lt[k]) implies !is_sep(lt[k - 1]) by {
        lemma_lower_twice(t[k]);
        lemma_lower_twice(t[k - 1]);
        if is_local_char(t[k]) {
            assert(!is_sep(lt[k]));
        }
        assert(is_sep(t[k]));
        if is_sep(lt[k - 1]) {
            if is_local_char(t[k - 1]) {
                assert(is_local_char(lt[k - 1]));
            }
        }
    }
    assert forall|k: int| 0 <= k < lt.len() implies #[trigger] lower_all(lt)[k] == lt[k] by {
        lemma_lower_twice(t[k]);
    }
    assert(lower_all(lt) =~= lt);
    lemma_lower_twice(t[0]);
    lemma_lower_twice(t[t.len() - 1]);
}

/// A post-release the reader finds is a number.
proof fn lemma_post_found(s: Seq<char>, i: int)
    requires
        0 <= i <= s.len(),
        post_span(s, i) is Some,
    ensures
        num_ok(number_in(s, (post_span(s, i)->0).1, (post_span(s, i)->0).2)),
        i <= (post_span(s, i)->0).2 <= s.len(),
{
    reveal(post_span);
    if 0 <= i < s.len() && s[i] == '-' && digits_end(s, i + 1) > i + 1 {
        lemma_number_in(s, i + 1);
        lemma_digits_end(s, i + 1);
    } else {
        let k = opt_sep(s, i);
        crate::pep508::version::lemma_first_label(s, k, post_labels(), 0);
        let l = first_label(s, k, post_labels(), 0);
        let m = opt_sep(s, k + l);
        lemma_number_in(s, m);
        lemma_digits_end(s, m);
    }
}

/// A development release the reader finds is a number.
proof fn lemma_dev_found(s: Seq<char>, i: int)
    requires
        0 <= i <= s.len(),
        dev_span(s, i) is Some,
    ensures
        num_ok(number_in(s, (dev_span(s, i)->0).0, (dev_span(s, i)->0).1)),
        i <= (dev_span(s, i)->0).1 <= s.len(),
{
    reveal(dev_span);
    let k = opt_sep(s, i);
    let m = opt_sep(s, k + 3);
    lemma_number_in(s, m);
    lemma_digits_end(s, m);
}

/// Every version the reader reads is one as the reader leaves one.
#[verifier::spinoff_prover]
pub proof fn lemma_read_version_wf(raw: Seq<char>)
    requires
        version_of(raw) is Some,
    ensures
        wf_version(version_of(raw)->0),
{
    let t = trim(raw);
    let w = ends_with_wildcard(t);
    let s = if w {
        t.take(t.len() - 2)
    } else {
        t
    };
    let sp = spans(s)->0;
    let v = version_of(raw)->0;
    assert(v == view_of_spans(s, sp, w));
    let vv = if s.len() > 0 && ci_eq(s[0], 'v') {
        1int
    } else {
        0int
    };
    if let Some(e) = sp.epoch {
        lemma_digits_end(s, vv);
        lemma_number_in(s, vv);
    }
    let r0 = match sp.epoch {
        Some(e) => e.1 + 1,
        None => vv,
    };
    lemma_digits_end(s, vv);
    assert(r0 <= s.len());
    crate::pep508::version::lemma_release_end(s, r0);
    let r1 = release_end(s, r0);
    let rt = s.subrange(r0, r1);
    assert forall|k: int| 0 <= k < rt.len() implies is_digit(#[trigger] rt[k]) || rt[k] == '.' by {
        assert(rt[k] == s[r0 + k]);
    }
    crate::pep508::version::lemma_release_pieces(rt);
    crate::text::lemma_split_nonempty(rt, '.');
    let pieces = split_on(rt, '.');
    assert forall|i: int| 0 <= i < v.release.len() implies canonical(#[trigger] v.release[i]) by {
        assert(v.release[i] == read_digits(pieces[i]));
        crate::pep508::number::lemma_read_digits(pieces[i]);
    }
    if let Some(pr) = sp.pre {
        lemma_pre_found(s, r1);
    }
    let i2 = match sp.pre {
        Some(p) => p.3,
        None => r1,
    };
    if sp.pre is Some {
        lemma_pre_found(s, r1);
    }
    if sp.post is Some {
        lemma_post_found(s, i2);
    }
    let i3 = match sp.post {
        Some(p) => p.2,
        None => i2,
    };
    if sp.dev is Some {
        lemma_dev_found(s, i3);
    }
    let i4 = match sp.dev {
        Some(d) => d.1,
        None => i3,
    };
    if sp.local is Some {
        reveal(local_span);
        lemma_local_ok(s, i4 + 1);
    }
}

/// A version read from text, spelled in its one form, reads back as the version with each label
/// in its one spelling and each number written out, which is spelled the same way: spelling a
/// version that was read, and reading and spelling it again, writes what spelling it once wrote.
pub proof fn lemma_version_settles(raw: Seq<char>)
    requires
        version_of(raw) is Some,
    ensures
        version_of(spelled(version_of(raw)->0)) == Some(settled(version_of(raw)->0)),
        spelled(settled(version_of(raw)->0)) == spelled(version_of(raw)->0),
        wf_version(settled(version_of(raw)->0)),
{
    lemma_read_version_wf(raw);
    lemma_read_spelled(version_of(raw)->0);
}

/// A spelled version opens on a digit and closes on no white space.
pub proof fn lemma_spelled_ends(v: VersionView)
    requires
        wf_version(v),
    ensures
        spelled(v).len() > 0,
        is_digit(spelled(v)[0]),
        !is_ws(spelled(v).last()),
{
    lemma_body_ends(v);
    assert(spelled(v) == body(v) + wildcard_part(v));
    assert(spelled(v)[0] == body(v)[0]);
}

} // verus!
