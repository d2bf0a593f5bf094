//! A version the way [PEP 440](https://peps.python.org/pep-0440/) spells one: read segment by
//! segment, each segment opening on the separator or label that names it, and written back in the
//! one form the spec gives it.

use vstd::prelude::*;
use crate::pep508::number::{Number, all_digits, read_digits};
use crate::text::{
    chars_of, is_ascii_alnum, is_ascii_digit, is_alnum, is_digit, join, lit, lower, lower_all,
    lowered, push_all, same, slice, split, split_on, string_of, trim, trimmed, views, index_of,
    lemma_index_of,
};

verus! {

/// Whether the text matches the small letter `l` the way a case-insensitive pattern does: in
/// either case, and for `k` and `s` also in the Kelvin sign and the long s that fold to them.
pub open spec fn ci_eq(c: char, l: char) -> bool {
    ||| lower(c) == l
    ||| (l == 'k' && c == '\u{212a}')
    ||| (l == 's' && c == '\u{17f}')
}

fn ci_eq_exec(c: char, l: char) -> (r: bool)
    ensures
        r == ci_eq(c, l),
{
    crate::text::to_lower(c) == l || (l == 'k' && c == '\u{212a}') || (l == 's' && c == '\u{17f}')
}

/// Whether the word is written at `at`, whatever case it is written in.
pub open spec fn ci_at(s: Seq<char>, at: int, w: Seq<char>) -> bool {
    &&& 0 <= at
    &&& at + w.len() <= s.len()
    &&& forall|k: int| 0 <= k < w.len() ==> ci_eq(#[trigger] s[at + k], w[k])
}

fn ci_at_exec(s: &Vec<char>, at: usize, w: &Vec<char>) -> (r: bool)
    ensures
        r == ci_at(s@, at as int, w@),
{
    if at > s.len() || w.len() > s.len() - at {
        return false;
    }
    let mut k: usize = 0;
    while k < w.len()
        invariant
            k <= w.len(),
            at + w.len() <= s.len(),
            forall|j: int| 0 <= j < k ==> ci_eq(#[trigger] s@[at + j], w@[j]),
        decreases w.len() - k,
    {
        if !ci_eq_exec(s[at + k], w[k]) {
            return false;
        }
        k += 1;
    }
    true
}

/// The separators PEP 440 lets stand between segments.
pub open spec fn is_sep(c: char) -> bool {
    c == '-' || c == '_' || c == '.'
}

/// A character a local version segment is written in.
pub open spec fn is_local_char(c: char) -> bool {
    is_alnum(c) || c == '\u{212a}' || c == '\u{17f}'
}

fn is_local_char_exec(c: char) -> (r: bool)
    ensures
        r == is_local_char(c),
{
    is_ascii_alnum(c) || c == '\u{212a}' || c == '\u{17f}'
}

/// Past the separator at `i`, where one stands there.
pub open spec fn opt_sep(s: Seq<char>, i: int) -> int {
    if 0 <= i < s.len() && is_sep(s[i]) {
        i + 1
    } else {
        i
    }
}

fn opt_sep_at(s: &Vec<char>, i: usize) -> (r: usize)
    requires
        i <= s.len(),
    ensures
        r == opt_sep(s@, i as int),
        i <= r <= s.len(),
{
    if i < s.len() && (s[i] == '-' || s[i] == '_' || s[i] == '.') {
        i + 1
    } else {
        i
    }
}

/// Where the run of digits that starts at `i` ends.
pub open spec fn digits_end(s: Seq<char>, i: int) -> int
    decreases s.len() - i,
{
    if 0 <= i < s.len() && is_digit(s[i]) {
        digits_end(s, i + 1)
    } else {
        i
    }
}

pub proof fn lemma_digits_end(s: Seq<char>, i: int)
    requires
        0 <= i <= s.len(),
    ensures
        i <= digits_end(s, i) <= s.len(),
        forall|k: int| i <= k < digits_end(s, i) ==> is_digit(#[trigger] s[k]),
        digits_end(s, i) < s.len() ==> !is_digit(s[digits_end(s, i)]),
    decreases s.len() - i,
{
    if i < s.len() && is_digit(s[i]) {
        lemma_digits_end(s, i + 1);
    }
}

fn digits_end_at(s: &Vec<char>, i: usize) -> (r: usize)
    requires
        i <= s.len(),
    ensures
        r == digits_end(s@, i as int),
        i <= r <= s.len(),
        forall|k: int| i <= k < r ==> is_digit(#[trigger] s@[k]),
{
    proof {
        lemma_digits_end(s@, i as int);
    }
    let mut j = i;
    while j < s.len() && is_ascii_digit(s[j])
        invariant
            i <= j <= s.len(),
            digits_end(s@, i as int) == digits_end(s@, j as int),
        decreases s.len() - j,
    {
        j += 1;
    }
    j
}

/// Where the run of local-segment characters that starts at `i` ends.
pub open spec fn local_chars_end(s: Seq<char>, i: int) -> int
    decreases s.len() - i,
{
    if 0 <= i < s.len() && is_local_char(s[i]) {
        local_chars_end(s, i + 1)
    } else {
        i
    }
}

pub proof fn lemma_local_chars_end(s: Seq<char>, i: int)
    requires
        0 <= i <= s.len(),
    ensures
        i <= local_chars_end(s, i) <= s.len(),
        forall|k: int| i <= k < local_chars_end(s, i) ==> is_local_char(#[trigger] s[k]),
    decreases s.len() - i,
{
    if i < s.len() && is_local_char(s[i]) {
        lemma_local_chars_end(s, i + 1);
    }
}

fn local_chars_end_at(s: &Vec<char>, i: usize) -> (r: usize)
    requires
        i <= s.len(),
    ensures
        r == local_chars_end(s@, i as int),
        i <= r <= s.len(),
{
    proof {
        lemma_local_chars_end(s@, i as int);
    }
    let mut j = i;
    while j < s.len() && is_local_char_exec(s[j])
        invariant
            i <= j <= s.len(),
            local_chars_end(s@, i as int) == local_chars_end(s@, j as int),
        decreases s.len() - j,
    {
        j += 1;
    }
    j
}

/// Where the release that starts at `i` ends: digits, then `.` and digits as often as they follow.
pub open spec fn release_end(s: Seq<char>, i: int) -> int
    decreases s.len() - i,
{
    let d = digits_end(s, i);
    if 0 <= i && d + 1 < s.len() && s[d] == '.' && is_digit(s[d + 1]) {
        proof {
            lemma_digits_end(s, i);
        }
        release_end(s, d + 1)
    } else {
        d
    }
}

pub proof fn lemma_release_end(s: Seq<char>, i: int)
    requires
        0 <= i <= s.len(),
    ensures
        i <= release_end(s, i) <= s.len(),
        forall|k: int| i <= k < release_end(s, i) ==> is_digit(#[trigger] s[k]) || s[k] == '.',
    decreases s.len() - i,
{
    lemma_digits_end(s, i);
    let d = digits_end(s, i);
    if d < s.len() && d + 1 < s.len() && s[d] == '.' && is_digit(s[d + 1]) {
        lemma_release_end(s, d + 1);
    }
}

fn release_end_at(s: &Vec<char>, i: usize) -> (r: usize)
    requires
        i <= s.len(),
    ensures
        r == release_end(s@, i as int),
        i <= r <= s.len(),
{
    proof {
        lemma_release_end(s@, i as int);
    }
    let mut j = i;
    loop
        invariant
            i <= j <= s.len(),
            release_end(s@, i as int) == release_end(s@, j as int),
        decreases s.len() - j,
    {
        let d = digits_end_at(s, j);
        if d < s.len() && d + 1 < s.len() && s[d] == '.' && is_ascii_digit(s[d + 1]) {
            j = d + 1;
        } else {
            return d;
        }
    }
}

/// Where the local segment that starts at `i` ends: its characters, then a separator and more of
/// them as often as they follow.
pub open spec fn local_end(s: Seq<char>, i: int) -> int
    decreases s.len() - i,
{
    let d = local_chars_end(s, i);
    if 0 <= i && d + 1 < s.len() && is_sep(s[d]) && is_local_char(s[d + 1]) {
        proof {
            lemma_local_chars_end(s, i);
        }
        local_end(s, d + 1)
    } else {
        d
    }
}

pub proof fn lemma_local_end(s: Seq<char>, i: int)
    requires
        0 <= i <= s.len(),
    ensures
        i <= local_end(s, i) <= s.len(),
    decreases s.len() - i,
{
    lemma_local_chars_end(s, i);
    let d = local_chars_end(s, i);
    if d + 1 < s.len() && is_sep(s[d]) && is_local_char(s[d + 1]) {
        lemma_local_end(s, d + 1);
    }
}

fn local_end_at(s: &Vec<char>, i: usize) -> (r: usize)
    requires
        i <= s.len(),
    ensures
        r == local_end(s@, i as int),
        i <= r <= s.len(),
{
    proof {
        lemma_local_end(s@, i as int);
    }
    let mut j = i;
    loop
        invariant
            i <= j <= s.len(),
            local_end(s@, i as int) == local_end(s@, j as int),
        decreases s.len() - j,
    {
        let d = local_chars_end_at(s, j);
        if d < s.len() && d + 1 < s.len() && (s[d] == '-' || s[d] == '_' || s[d] == '.') && is_local_char_exec(
            s[d + 1],
        ) {
            j = d + 1;
        } else {
            return d;
        }
    }
}

/// The length of the first of `labels`, from the `j`th on, written at `k`, or zero where none is.
pub open spec fn first_label(s: Seq<char>, k: int, labels: Seq<Seq<char>>, j: int) -> int
    decreases labels.len() - j,
{
    if j < 0 || j >= labels.len() {
        0
    } else if labels[j].len() > 0 && ci_at(s, k, labels[j]) {
        labels[j].len() as int
    } else {
        first_label(s, k, labels, j + 1)
    }
}

pub proof fn lemma_first_label(s: Seq<char>, k: int, labels: Seq<Seq<char>>, j: int)
    requires
        0 <= j <= labels.len(),
    ensures
        first_label(s, k, labels, j) >= 0,
        first_label(s, k, labels, j) > 0 ==> 0 <= k && k + first_label(s, k, labels, j) <= s.len(),
    decreases labels.len() - j,
{
    if j < labels.len() && !(labels[j].len() > 0 && ci_at(s, k, labels[j])) {
        lemma_first_label(s, k, labels, j + 1);
    }
}

fn first_label_at(s: &Vec<char>, k: usize, labels: &Vec<Vec<char>>) -> (r: usize)
    requires
        k <= s.len(),
    ensures
        r == first_label(s@, k as int, views(labels@), 0),
        k + r <= s.len(),
{
    proof {
        lemma_first_label(s@, k as int, views(labels@), 0);
    }
    let mut j: usize = 0;
    while j < labels.len()
        invariant
            j <= labels.len(),
            first_label(s@, k as int, views(labels@), 0) == first_label(
                s@,
                k as int,
                views(labels@),
                j as int,
            ),
        decreases labels.len() - j,
    {
        if labels[j].len() > 0 && ci_at_exec(s, k, &labels[j]) {
            return labels[j].len();
        }
        j += 1;
    }
    0
}

/// The labels a pre-release is written with, in the order they are tried.
pub open spec fn pre_labels() -> Seq<Seq<char>> {
    seq![
        seq!['a', 'l', 'p', 'h', 'a'],
        seq!['a'],
        seq!['b', 'e', 't', 'a'],
        seq!['b'],
        seq!['p', 'r', 'e', 'v', 'i', 'e', 'w'],
        seq!['p', 'r', 'e'],
        seq!['c'],
        seq!['r', 'c'],
    ]
}

/// The labels a post-release is written with, in the order they are tried.
pub open spec fn post_labels() -> Seq<Seq<char>> {
    seq![seq!['p', 'o', 's', 't'], seq!['r', 'e', 'v'], seq!['r']]
}

fn pre_label_list() -> (r: Vec<Vec<char>>)
    ensures
        views(r@) == pre_labels(),
{
    let r = vec![
        vec!['a', 'l', 'p', 'h', 'a'],
        vec!['a'],
        vec!['b', 'e', 't', 'a'],
        vec!['b'],
        vec!['p', 'r', 'e', 'v', 'i', 'e', 'w'],
        vec!['p', 'r', 'e'],
        vec!['c'],
        vec!['r', 'c'],
    ];
    assert(views(r@) =~~= pre_labels());
    r
}

fn post_label_list() -> (r: Vec<Vec<char>>)
    ensures
        views(r@) == post_labels(),
{
    let r = vec![vec!['p', 'o', 's', 't'], vec!['r', 'e', 'v'], vec!['r']];
    assert(views(r@) =~~= post_labels());
    r
}

/// An epoch at `i`: digits and the `!` after them, as the span of the digits.
pub open spec fn epoch_span(s: Seq<char>, i: int) -> Option<(int, int)> {
    let e = digits_end(s, i);
    if e > i && e < s.len() && s[e] == '!' {
        Some((i, e))
    } else {
        None
    }
}

/// A pre-release at `i`: the span of its label, and of the digits after it.
#[verifier::opaque]
pub open spec fn pre_span(s: Seq<char>, i: int) -> Option<(int, int, int, int)> {
    let k = opt_sep(s, i);
    let l = first_label(s, k, pre_labels(), 0);
    if l == 0 {
        None
    } else {
        let m = opt_sep(s, k + l);
        Some((k, k + l, m, digits_end(s, m)))
    }
}

/// A post-release at `i`: whether it is written as the number alone, and the span of its digits.
#[verifier::opaque]
pub open spec fn post_span(s: Seq<char>, i: int) -> Option<(bool, int, int)> {
    if 0 <= i < s.len() && s[i] == '-' && digits_end(s, i + 1) > i + 1 {
        Some((true, i + 1, digits_end(s, i + 1)))
    } else {
        let k = opt_sep(s, i);
        let l = first_label(s, k, post_labels(), 0);
        if l == 0 {
            None
        } else {
            let m = opt_sep(s, k + l);
            Some((false, m, digits_end(s, m)))
        }
    }
}

/// A development release at `i`: the span of the digits after its label.
#[verifier::opaque]
pub open spec fn dev_span(s: Seq<char>, i: int) -> Option<(int, int)> {
    let k = opt_sep(s, i);
    if ci_at(s, k, seq!['d', 'e', 'v']) {
        let m = opt_sep(s, k + 3);
        Some((m, digits_end(s, m)))
    } else {
        None
    }
}

/// A local version at `i`: the span of what follows its `+`.
#[verifier::opaque]
pub open spec fn local_span(s: Seq<char>, i: int) -> Option<(int, int)> {
    if 0 <= i < s.len() && s[i] == '+' && local_chars_end(s, i + 1) > i + 1 {
        Some((i + 1, local_end(s, i + 1)))
    } else {
        None
    }
}

/// Where each segment of a version stands in the text.
pub struct Spans {
    pub epoch: Option<(int, int)>,
    pub release: (int, int),
    pub pre: Option<(int, int, int, int)>,
    pub post: Option<(bool, int, int)>,
    pub dev: Option<(int, int)>,
    pub local: Option<(int, int)>,
}

/// Where the segments of the version the text spells stand, or `None` where the text is not a
/// version PEP 440 reads: an optional `v`, an optional epoch, the release, then an optional
/// pre-release, post-release, development release and local version, and nothing after them.
pub open spec fn spans(s: Seq<char>) -> Option<Spans> {
    let v = if s.len() > 0 && ci_eq(s[0], 'v') {
        1int
    } else {
        0int
    };
    let epoch = epoch_span(s, v);
    let r0 = match epoch {
        Some(e) => e.1 + 1,
        None => v,
    };
    let r1 = release_end(s, r0);
    let pre = pre_span(s, r1);
    let i2 = match pre {
        Some(p) => p.3,
        None => r1,
    };
    let post = post_span(s, i2);
    let i3 = match post {
        Some(p) => p.2,
        None => i2,
    };
    let dev = dev_span(s, i3);
    let i4 = match dev {
        Some(d) => d.1,
        None => i3,
    };
    let local = local_span(s, i4);
    let i5 = match local {
        Some(l) => l.1,
        None => i4,
    };
    if digits_end(s, r0) == r0 || i5 != s.len() {
        None
    } else {
        Some(Spans { epoch, release: (r0, r1), pre, post, dev, local })
    }
}

/// What a version holds, as plain text.
pub struct VersionView {
    pub epoch: Option<Seq<char>>,
    pub release: Seq<Seq<char>>,
    pub pre: Option<(Seq<char>, Option<Seq<char>>)>,
    pub post: Option<(Option<Seq<char>>, Option<Seq<char>>)>,
    pub dev: Option<(Seq<char>, Option<Seq<char>>)>,
    pub local: Option<Seq<char>>,
    pub has_wildcard: bool,
}

/// The number the digits between `a` and `b` spell, where there are any.
pub open spec fn number_in(s: Seq<char>, a: int, b: int) -> Option<Seq<char>> {
    if a < b {
        Some(read_digits(s.subrange(a, b)))
    } else {
        None
    }
}

/// What the version whose segments stand at `sp` holds.
pub open spec fn view_of_spans(s: Seq<char>, sp: Spans, has_wildcard: bool) -> VersionView {
    VersionView {
        epoch: match sp.epoch {
            Some(e) => Some(read_digits(s.subrange(e.0, e.1))),
            None => None,
        },
        release: split_on(s.subrange(sp.release.0, sp.release.1), '.').map_values(
            |p: Seq<char>| read_digits(p),
        ),
        pre: match sp.pre {
            Some(p) => Some((lower_all(s.subrange(p.0, p.1)), number_in(s, p.2, p.3))),
            None => None,
        },
        post: match sp.post {
            Some(p) => if p.0 {
                Some((None, number_in(s, p.1, p.2)))
            } else {
                Some((Some(seq!['p', 'o', 's', 't']), number_in(s, p.1, p.2)))
            },
            None => None,
        },
        dev: match sp.dev {
            Some(d) => Some((seq!['d', 'e', 'v'], number_in(s, d.0, d.1))),
            None => None,
        },
        local: match sp.local {
            Some(l) => Some(lower_all(s.subrange(l.0, l.1))),
            None => None,
        },
        has_wildcard,
    }
}

/// Whether the text closes with the `.*` wildcard.
pub open spec fn ends_with_wildcard(t: Seq<char>) -> bool {
    t.len() >= 2 && t[t.len() - 2] == '.' && t[t.len() - 1] == '*'
}

/// The version the text spells, read the way [`Version::new`] reads it: trimmed, with a closing
/// `.*` taken as the wildcard, and the rest read as PEP 440 spells a version.
pub open spec fn version_of(raw: Seq<char>) -> Option<VersionView> {
    let t = trim(raw);
    let w = ends_with_wildcard(t);
    let input = if w {
        t.take(t.len() - 2)
    } else {
        t
    };
    match spans(input) {
        Some(sp) => Some(view_of_spans(input, sp, w)),
        None => None,
    }
}

/// Whether `raw` is a valid PEP 440 version once trimmed.
pub open spec fn valid_version(raw: Seq<char>) -> bool {
    spans(trim(raw)) is Some
}

/// The segments of a version read from the text, with the bounds an executable reader holds.
pub struct FoundSpans {
    pub epoch: Option<(usize, usize)>,
    pub release: (usize, usize),
    pub pre: Option<(usize, usize, usize, usize)>,
    pub post: Option<(bool, usize, usize)>,
    pub dev: Option<(usize, usize)>,
    pub local: Option<(usize, usize)>,
}

pub open spec fn found_matches(f: FoundSpans, sp: Spans) -> bool {
    &&& match (f.epoch, sp.epoch) {
        (Some(a), Some(b)) => a.0 == b.0 && a.1 == b.1,
        (None, None) => true,
        _ => false,
    }
    &&& f.release.0 == sp.release.0 && f.release.1 == sp.release.1
    &&& match (f.pre, sp.pre) {
        (Some(a), Some(b)) => a.0 == b.0 && a.1 == b.1 && a.2 == b.2 && a.3 == b.3,
        (None, None) => true,
        _ => false,
    }
    &&& match (f.post, sp.post) {
        (Some(a), Some(b)) => a.0 == b.0 && a.1 == b.1 && a.2 == b.2,
        (None, None) => true,
        _ => false,
    }
    &&& match (f.dev, sp.dev) {
        (Some(a), Some(b)) => a.0 == b.0 && a.1 == b.1,
        (None, None) => true,
        _ => false,
    }
    &&& match (f.local, sp.local) {
        (Some(a), Some(b)) => a.0 == b.0 && a.1 == b.1,
        (None, None) => true,
        _ => false,
    }
}

/// Every span lies inside the text, and the digit spans hold digits.
pub open spec fn found_bounded(s: Seq<char>, f: FoundSpans) -> bool {
    &&& (f.epoch matches Some(e) ==> e.0 <= e.1 <= s.len() && all_digits(
        s.subrange(e.0 as int, e.1 as int),
    ))
    &&& f.release.0 <= f.release.1 <= s.len()
    &&& (forall|k: int|
        f.release.0 <= k < f.release.1 ==> is_digit(#[trigger] s[k]) || s[k] == '.')
    &&& (f.pre matches Some(p) ==> p.0 <= p.1 <= p.2 <= p.3 <= s.len() && all_digits(
        s.subrange(p.2 as int, p.3 as int),
    ))
    &&& (f.post matches Some(p) ==> p.1 <= p.2 <= s.len() && all_digits(
        s.subrange(p.1 as int, p.2 as int),
    ))
    &&& (f.dev matches Some(d) ==> d.0 <= d.1 <= s.len() && all_digits(
        s.subrange(d.0 as int, d.1 as int),
    ))
    &&& (f.local matches Some(l) ==> l.0 <= l.1 <= s.len())
}

proof fn lemma_digit_span(s: Seq<char>, i: int)
    requires
        0 <= i <= s.len(),
    ensures
        all_digits(s.subrange(i, digits_end(s, i))),
        i <= digits_end(s, i) <= s.len(),
{
    lemma_digits_end(s, i);
    let d = digits_end(s, i);
    assert forall|k: int| 0 <= k < d - i implies is_digit(#[trigger] s.subrange(i, d)[k]) by {
        assert(s.subrange(i, d)[k] == s[i + k]);
    }
}

fn pre_span_at(s: &Vec<char>, i: usize) -> (r: Option<(usize, usize, usize, usize)>)
    requires
        i <= s.len(),
    ensures
        match (r, pre_span(s@, i as int)) {
            (Some(a), Some(b)) => a.0 == b.0 && a.1 == b.1 && a.2 == b.2 && a.3 == b.3,
            (None, None) => true,
            _ => false,
        },
        r matches Some(p) ==> i <= p.0 <= p.1 <= p.2 <= p.3 <= s.len() && all_digits(
            s@.subrange(p.2 as int, p.3 as int),
        ),
{
    reveal(pre_span);
    let labels = pre_label_list();
    let k = opt_sep_at(s, i);
    let l = first_label_at(s, k, &labels);
    if l == 0 {
        None
    } else {
        let m = opt_sep_at(s, k + l);
        let d = digits_end_at(s, m);
        proof {
            lemma_digit_span(s@, m as int);
        }
        Some((k, k + l, m, d))
    }
}

fn post_span_at(s: &Vec<char>, i: usize) -> (r: Option<(bool, usize, usize)>)
    requires
        i <= s.len(),
    ensures
        match (r, post_span(s@, i as int)) {
            (Some(a), Some(b)) => a.0 == b.0 && a.1 == b.1 && a.2 == b.2,
            (None, None) => true,
            _ => false,
        },
        r matches Some(p) ==> i <= p.1 <= p.2 <= s.len() && all_digits(
            s@.subrange(p.1 as int, p.2 as int),
        ),
{
    reveal(post_span);
    if i < s.len() && s[i] == '-' && digits_end_at(s, i + 1) > i + 1 {
        let d = digits_end_at(s, i + 1);
        proof {
            lemma_digit_span(s@, i + 1);
        }
        return Some((true, i + 1, d));
    }
    let labels = post_label_list();
    let k = opt_sep_at(s, i);
    let l = first_label_at(s, k, &labels);
    if l == 0 {
        None
    } else {
        let m = opt_sep_at(s, k + l);
        let d = digits_end_at(s, m);
        proof {
            lemma_digit_span(s@, m as int);
        }
        Some((false, m, d))
    }
}

fn dev_span_at(s: &Vec<char>, i: usize) -> (r: Option<(usize, usize)>)
    requires
        i <= s.len(),
    ensures
        match (r, dev_span(s@, i as int)) {
            (Some(a), Some(b)) => a.0 == b.0 && a.1 == b.1,
            (None, None) => true,
            _ => false,
        },
        r matches Some(d) ==> i <= d.0 <= d.1 <= s.len() && all_digits(
            s@.subrange(d.0 as int, d.1 as int),
        ),
{
    reveal(dev_span);
    let k = opt_sep_at(s, i);
    let word = vec!['d', 'e', 'v'];
    if ci_at_exec(s, k, &word) {
        let m = opt_sep_at(s, k + 3);
        let d = digits_end_at(s, m);
        proof {
            lemma_digit_span(s@, m as int);
        }
        Some((m, d))
    } else {
        None
    }
}

fn local_span_at(s: &Vec<char>, i: usize) -> (r: Option<(usize, usize)>)
    requires
        i <= s.len(),
    ensures
        match (r, local_span(s@, i as int)) {
            (Some(a), Some(b)) => a.0 == b.0 && a.1 == b.1,
            (None, None) => true,
            _ => false,
        },
        r matches Some(l) ==> i <= l.0 <= l.1 <= s.len(),
{
    reveal(local_span);
    if i < s.len() && s[i] == '+' && local_chars_end_at(s, i + 1) > i + 1 {
        Some((i + 1, local_end_at(s, i + 1)))
    } else {
        None
    }
}

/// Find where the segments of the version in `s` stand.
fn find_spans(s: &Vec<char>) -> (r: Option<FoundSpans>)
    ensures
        r is Some <==> spans(s@) is Some,
        r matches Some(f) ==> found_matches(f, spans(s@)->0) && found_bounded(s@, f),
{
    let n = s.len();
    let v: usize = if n > 0 && ci_eq_exec(s[0], 'v') {
        1
    } else {
        0
    };
    // epoch
    let e = digits_end_at(s, v);
    let epoch: Option<(usize, usize)> = if e > v && e < n && s[e] == '!' {
        Some((v, e))
    } else {
        None
    };
    proof {
        lemma_digit_span(s@, v as int);
    }
    let r0: usize = match epoch {
        Some(ep) => ep.1 + 1,
        None => v,
    };
    let first = digits_end_at(s, r0);
    let r1 = release_end_at(s, r0);
    proof {
        lemma_release_end(s@, r0 as int);
    }
    let pre = pre_span_at(s, r1);
    let i2: usize = match pre {
        Some(p) => p.3,
        None => r1,
    };
    let post = post_span_at(s, i2);
    let i3: usize = match post {
        Some(p) => p.2,
        None => i2,
    };
    let dev = dev_span_at(s, i3);
    let i4: usize = match dev {
        Some(d) => d.1,
        None => i3,
    };
    let local = local_span_at(s, i4);
    let i5: usize = match local {
        Some(lo) => lo.1,
        None => i4,
    };
    if first == r0 || i5 != n {
        return None;
    }
    let found = FoundSpans { epoch, release: (r0, r1), pre, post, dev, local };
    Some(found)
}

/// The number the digits between `a` and `b` spell, where there are any.
fn number_between(s: &Vec<char>, a: usize, b: usize) -> (r: Option<Number>)
    requires
        a <= b <= s.len(),
        all_digits(s@.subrange(a as int, b as int)),
    ensures
        num_view(r) == number_in(s@, a as int, b as int),
{
    if a < b {
        Some(Number::read_chars(&slice(s, a, b)))
    } else {
        None
    }
}

/// What an optional number holds.
pub open spec fn num_view(n: Option<Number>) -> Option<Seq<char>> {
    match n {
        Some(n) => Some(n@),
        None => None,
    }
}

/// What an optional text holds.
pub open spec fn text_view(t: Option<String>) -> Option<Seq<char>> {
    match t {
        Some(t) => Some(t@),
        None => None,
    }
}

/// Every piece `.` splits a release into is digits.
pub proof fn lemma_release_pieces(s: Seq<char>)
    requires
        forall|k: int| 0 <= k < s.len() ==> is_digit(#[trigger] s[k]) || s[k] == '.',
    ensures
        forall|j: int|
            0 <= j < split_on(s, '.').len() ==> all_digits(#[trigger] split_on(s, '.')[j]),
    decreases s.len(),
{
    lemma_index_of(s, '.', 0);
    let k = index_of(s, '.', 0);
    if k < s.len() {
        let rest = s.skip(k + 1);
        assert forall|i: int| 0 <= i < rest.len() implies is_digit(#[trigger] rest[i])
            || rest[i] == '.' by {
            assert(rest[i] == s[k + 1 + i]);
        }
        lemma_release_pieces(rest);
        let head = s.take(k);
        assert forall|i: int| 0 <= i < head.len() implies is_digit(#[trigger] head[i]) by {
            assert(head[i] == s[i]);
        }
        assert forall|j: int| 0 <= j < split_on(s, '.').len() implies all_digits(
            #[trigger] split_on(s, '.')[j],
        ) by {
            if j > 0 {
                assert(split_on(s, '.')[j] == split_on(rest, '.')[j - 1]);
            }
        }
    }
}

/// A version as PEP 440 spells one, held segment by segment.
#[derive(Debug, Clone, PartialEq, Eq)]
pub struct Version {
    pub epoch: Option<Number>,
    pub release: Vec<Number>,
    pub pre: Option<(String, Option<Number>)>,
    pub post: Option<(Option<String>, Option<Number>)>,
    pub dev: Option<(String, Option<Number>)>,
    pub local: Option<String>,
    pub has_wildcard: bool,
}

impl View for Version {
    type V = VersionView;

    open spec fn view(&self) -> VersionView {
        VersionView {
            epoch: num_view(self.epoch),
            release: self.release@.map_values(|n: Number| n@),
            pre: match self.pre {
                Some(p) => Some((p.0@, num_view(p.1))),
                None => None,
            },
            post: match self.post {
                Some(p) => Some((text_view(p.0), num_view(p.1))),
                None => None,
            },
            dev: match self.dev {
                Some(d) => Some((d.0@, num_view(d.1))),
                None => None,
            },
            local: text_view(self.local),
            has_wildcard: self.has_wildcard,
        }
    }
}

/// The digits a segment holds, or the zero PEP 440 reads where the file wrote none.
pub open spec fn numbered(n: Option<Seq<char>>) -> Seq<char> {
    match n {
        Some(d) => d,
        None => seq!['0'],
    }
}

/// A pre-release label in the form the spec writes it.
pub open spec fn pre_spelling(l: Seq<char>) -> Seq<char> {
    if l == seq!['a', 'l', 'p', 'h', 'a'] || l == seq!['a'] {
        seq!['a']
    } else if l == seq!['b', 'e', 't', 'a'] || l == seq!['b'] {
        seq!['b']
    } else if l == seq!['r', 'c'] || l == seq!['c'] || l == seq!['p', 'r', 'e'] || l == seq![
        'p',
        'r',
        'e',
        'v',
        'i',
        'e',
        'w',
    ] {
        seq!['r', 'c']
    } else {
        l
    }
}

/// A local version with every separator written as a dot.
pub open spec fn local_spelling(l: Seq<char>) -> Seq<char> {
    l.map_values(|c: char| if c == '-' || c == '_' { '.' } else { c })
}

pub open spec fn epoch_part(v: VersionView) -> Seq<char> {
    match v.epoch {
        Some(e) => e + seq!['!'],
        None => seq![],
    }
}

pub open spec fn pre_part(v: VersionView) -> Seq<char> {
    match v.pre {
        Some(p) => pre_spelling(p.0) + numbered(p.1),
        None => seq![],
    }
}

pub open spec fn post_part(v: VersionView) -> Seq<char> {
    match v.post {
        Some(p) => seq!['.', 'p', 'o', 's', 't'] + numbered(p.1),
        None => seq![],
    }
}

pub open spec fn dev_part(v: VersionView) -> Seq<char> {
    match v.dev {
        Some(d) => seq!['.', 'd', 'e', 'v'] + numbered(d.1),
        None => seq![],
    }
}

pub open spec fn local_part(v: VersionView) -> Seq<char> {
    match v.local {
        Some(l) => seq!['+'] + local_spelling(l),
        None => seq![],
    }
}

pub open spec fn wildcard_part(v: VersionView) -> Seq<char> {
    if v.has_wildcard {
        seq!['.', '*']
    } else {
        seq![]
    }
}

/// The version as PEP 440 spells one: each label in its canonical form, and a segment the file
/// left without a number written with the zero the spec reads it as.
pub open spec fn spelled(v: VersionView) -> Seq<char> {
    epoch_part(v) + join(v.release, seq!['.']) + pre_part(v) + post_part(v) + dev_part(v)
        + local_part(v) + wildcard_part(v)
}

fn numbered_chars(n: &Option<Number>) -> (r: Vec<char>)
    ensures
        r@ == numbered(num_view(*n)),
{
    match n {
        Some(d) => d.digits(),
        None => vec!['0'],
    }
}

fn pre_spelling_chars(l: &Vec<char>) -> (r: Vec<char>)
    ensures
        r@ == pre_spelling(l@),
{
    let alpha = vec!['a', 'l', 'p', 'h', 'a'];
    let one_a = vec!['a'];
    let beta = vec!['b', 'e', 't', 'a'];
    let one_b = vec!['b'];
    let rc = vec!['r', 'c'];
    let c = vec!['c'];
    let pre = vec!['p', 'r', 'e'];
    let preview = vec!['p', 'r', 'e', 'v', 'i', 'e', 'w'];
    assert(one_a@ =~= seq!['a']);
    assert(one_b@ =~= seq!['b']);
    assert(c@ =~= seq!['c']);
    assert(rc@ =~= seq!['r', 'c']);
    assert(pre@ =~= seq!['p', 'r', 'e']);
    assert(beta@ =~= seq!['b', 'e', 't', 'a']);
    assert(alpha@ =~= seq!['a', 'l', 'p', 'h', 'a']);
    assert(preview@ =~= seq!['p', 'r', 'e', 'v', 'i', 'e', 'w']);
    let y1 = same(l, &alpha);
    let y2 = same(l, &one_a);
    let y3 = same(l, &beta);
    let y4 = same(l, &one_b);
    let y5 = same(l, &rc);
    let y6 = same(l, &c);
    let y7 = same(l, &pre);
    let y8 = same(l, &preview);
    assert(y1 == (l@ == seq!['a', 'l', 'p', 'h', 'a']));
    assert(y2 == (l@ == seq!['a']));
    assert(y3 == (l@ == seq!['b', 'e', 't', 'a']));
    assert(y4 == (l@ == seq!['b']));
    assert(y5 == (l@ == seq!['r', 'c']));
    assert(y6 == (l@ == seq!['c']));
    assert(y7 == (l@ == seq!['p', 'r', 'e']));
    assert(y8 == (l@ == seq!['p', 'r', 'e', 'v', 'i', 'e', 'w']));
    if y1 || y2 {
        vec!['a']
    } else if y3 || y4 {
        vec!['b']
    } else if y5 || y6 || y7 || y8 {
        vec!['r', 'c']
    } else {
        let r = slice(l, 0, l.len());
        assert(r@ =~= l@);
        r
    }
}

fn local_spelling_chars(l: &Vec<char>) -> (r: Vec<char>)
    ensures
        r@ == local_spelling(l@),
{
    let mut r: Vec<char> = Vec::new();
    let mut i: usize = 0;
    while i < l.len()
        invariant
            i <= l.len(),
            r@ == local_spelling(l@.take(i as int)),
        decreases l.len() - i,
    {
        let c = l[i];
        r.push(if c == '-' || c == '_' { '.' } else { c });
        i += 1;
        assert(r@ =~= local_spelling(l@.take(i as int)));
    }
    assert(l@.take(i as int) =~= l@);
    r
}

/// Whether `raw` is a valid [PEP 440](https://peps.python.org/pep-0440/) version.
pub fn is_valid_version(raw: &str) -> (r: bool)
    ensures
        r == valid_version(raw@),
{
    let s = trimmed(&chars_of(raw));
    find_spans(&s).is_some()
}

/// The text of a message that names what it is about between two fixed pieces.
pub fn message(prefix: &str, about: &Vec<char>, suffix: &str) -> (r: String)
    ensures
        r@ == prefix@ + about@ + suffix@,
{
    let mut m = chars_of(prefix);
    push_all(&mut m, about);
    push_all(&mut m, &chars_of(suffix));
    string_of(&m)
}

/// What [`Version::new`] answers text that is no version: the text it read, which is the text
/// trimmed and without a closing `.*`.
pub open spec fn version_error(raw: Seq<char>) -> Seq<char> {
    let t = trim(raw);
    let input = if ends_with_wildcard(t) {
        t.take(t.len() - 2)
    } else {
        t
    };
    "Invalid version: "@ + input
}

impl Version {
    fn epoch_chars(&self) -> (r: Vec<char>)
        ensures
            r@ == epoch_part(self@),
    {
        match &self.epoch {
            Some(e) => {
                let mut out = e.digits();
                out.push('!');
                out
            },
            None => Vec::new(),
        }
    }

    fn release_chars(&self) -> (r: Vec<char>)
        ensures
            r@ == join(self@.release, seq!['.']),
    {
        let mut out: Vec<char> = Vec::new();
        let mut i: usize = 0;
        while i < self.release.len()
            invariant
                i <= self.release.len(),
                out@ == join(self@.release.take(i as int), seq!['.']),
            decreases self.release.len() - i,
        {
            let ghost prev = self@.release.take(i as int);
            if i > 0 {
                out.push('.');
            }
            let d = self.release[i].digits();
            push_all(&mut out, &d);
            i += 1;
            proof {
                let cur = self@.release.take(i as int);
                assert(cur.drop_last() =~= prev);
                if i == 1 {
                    assert(cur =~= seq![d@]);
                }
                assert(out@ =~= join(cur, seq!['.']));
            }
        }
        assert(self@.release.take(i as int) =~= self@.release);
        out
    }

    fn pre_chars(&self) -> (r: Vec<char>)
        ensures
            r@ == pre_part(self@),
    {
        match &self.pre {
            Some(p) => {
                let mut out = pre_spelling_chars(&chars_of(p.0.as_str()));
                push_all(&mut out, &numbered_chars(&p.1));
                out
            },
            None => Vec::new(),
        }
    }

    fn post_chars(&self) -> (r: Vec<char>)
        ensures
            r@ == post_part(self@),
    {
        match &self.post {
            Some(p) => {
                let mut out = vec!['.', 'p', 'o', 's', 't'];
                push_all(&mut out, &numbered_chars(&p.1));
                out
            },
            None => Vec::new(),
        }
    }

    fn dev_chars(&self) -> (r: Vec<char>)
        ensures
            r@ == dev_part(self@),
    {
        match &self.dev {
            Some(d) => {
                let mut out = vec!['.', 'd', 'e', 'v'];
                push_all(&mut out, &numbered_chars(&d.1));
                out
            },
            None => Vec::new(),
        }
    }

    fn local_chars(&self) -> (r: Vec<char>)
        ensures
            r@ == local_part(self@),
    {
        match &self.local {
            Some(l) => {
                let mut out = vec!['+'];
                push_all(&mut out, &local_spelling_chars(&chars_of(l.as_str())));
                out
            },
            None => Vec::new(),
        }
    }

    /// The version as PEP 440 spells one, as characters.
    pub fn spelled_chars(&self) -> (r: Vec<char>)
        ensures
            r@ == spelled(self@),
    {
        let mut out = self.epoch_chars();
        push_all(&mut out, &self.release_chars());
        push_all(&mut out, &self.pre_chars());
        push_all(&mut out, &self.post_chars());
        push_all(&mut out, &self.dev_chars());
        push_all(&mut out, &self.local_chars());
        if self.has_wildcard {
            push_all(&mut out, &vec!['.', '*']);
        } else {
            push_all(&mut out, &Vec::new());
        }
        out
    }

    /// The version as PEP 440 spells one.
    pub fn to_string(&self) -> (r: String)
        ensures
            r@ == spelled(self@),
    {
        string_of(&self.spelled_chars())
    }

    /// Read a version the way PEP 440 spells one.
    ///
    /// # Errors
    ///
    /// Returns why the text is not a version: text PEP 440 does not read as one.
    pub fn new(raw: &str) -> (r: Result<Self, String>)
        ensures
            r is Ok <==> version_of(raw@) is Some,
            r matches Ok(v) ==> v@ == version_of(raw@)->0,
            r matches Err(e) ==> e@ == version_error(raw@),
    {
        Self::from_chars(&chars_of(raw))
    }

    pub(crate) fn from_chars(raw: &Vec<char>) -> (r: Result<Self, String>)
        ensures
            r is Ok <==> version_of(raw@) is Some,
            r matches Ok(v) ==> v@ == version_of(raw@)->0,
            r matches Err(e) ==> e@ == version_error(raw@),
    {
        let t = trimmed(raw);
        let n = t.len();
        let has_wildcard = n >= 2 && t[n - 2] == '.' && t[n - 1] == '*';
        let input = if has_wildcard {
            slice(&t, 0, n - 2)
        } else {
            t
        };
        assert(input@ == (if has_wildcard {
            t@.take(t@.len() - 2)
        } else {
            t@
        }));
        let found = match find_spans(&input) {
            Some(f) => f,
            None => {
                let m = message("Invalid version: ", &input, "");
                proof {
                    reveal_strlit("");
                    assert(m@ =~= version_error(raw@));
                }
                return Err(m);
            },
        };
        let ghost sp = spans(input@)->0;
        let s = &input;
        let epoch = match found.epoch {
            Some(e) => Some(Number::read_chars(&slice(s, e.0, e.1))),
            None => None,
        };
        // the release is digits between dots, which is what splitting it hands back
        let raw_release = slice(s, found.release.0, found.release.1);
        proof {
            assert forall|k: int| 0 <= k < raw_release@.len() implies is_digit(
                #[trigger] raw_release@[k],
            ) || raw_release@[k] == '.' by {
                assert(raw_release@[k] == s@[found.release.0 + k]);
            }
            lemma_release_pieces(raw_release@);
        }
        let pieces = split(&raw_release, '.');
        let mut release: Vec<Number> = Vec::new();
        let mut j: usize = 0;
        while j < pieces.len()
            invariant
                j <= pieces.len(),
                views(pieces@) == split_on(raw_release@, '.'),
                forall|i: int|
                    0 <= i < split_on(raw_release@, '.').len() ==> all_digits(
                        #[trigger] split_on(raw_release@, '.')[i],
                    ),
                release@.len() == j,
                forall|i: int|
                    0 <= i < j ==> #[trigger] release@[i]@ == read_digits(pieces@[i]@),
            decreases pieces.len() - j,
        {
            assert(views(pieces@)[j as int] == pieces@[j as int]@);
            let num = Number::read_chars(&pieces[j]);
            release.push(num);
            j += 1;
        }
        proof {
            assert(release@.map_values(|m: Number| m@) =~= views(pieces@).map_values(
                |p: Seq<char>| read_digits(p),
            ));
        }
        let pre = match found.pre {
            Some(p) => Some(
                (string_of(&lowered(&slice(s, p.0, p.1))), number_between(s, p.2, p.3)),
            ),
            None => None,
        };
        let post = match found.post {
            Some(p) => if p.0 {
                Some((None, number_between(s, p.1, p.2)))
            } else {
                Some((Some(string_of(&vec!['p', 'o', 's', 't'])), number_between(s, p.1, p.2)))
            },
            None => None,
        };
        let dev = match found.dev {
            Some(d) => Some((string_of(&vec!['d', 'e', 'v']), number_between(s, d.0, d.1))),
            None => None,
        };
        let local = match found.local {
            Some(l) => Some(string_of(&lowered(&slice(s, l.0, l.1)))),
            None => None,
        };
        let v = Version { epoch, release, pre, post, dev, local, has_wildcard };
        proof {
            let want = view_of_spans(input@, sp, has_wildcard);
            assert(v@.release =~= want.release);
            assert(v@.epoch == want.epoch);
            assert(v@.pre == want.pre);
            assert(v@.post == want.post);
            assert(v@.dev == want.dev);
            assert(v@.local == want.local);
        }
        Ok(v)
    }
}

} // verus!
