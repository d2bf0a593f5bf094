//! Where a long string value breaks across lines, and which keys a pattern names so that their
//! values are left on one line.

use vstd::prelude::*;
use crate::sections::{key_path, read_name};
use crate::disabled::{bytes_upto, rfind};
use crate::text::{chars_of, lines, lines_of, push_all, slice, string_of, views};
use crate::width::{break_points, breaks_from, char_at_byte, columns, display_width};

verus! {

/// Where a value sits, which decides whether it may be wrapped and how far its continuations are
/// pushed in.
#[derive(Debug, Clone, Copy)]
pub struct Wrap<'a> {
    pub column_width: usize,
    pub indent: &'a str,
    /// What the layout writes on the line before the value: the key and its `= `, or the indent a
    /// nested value is pushed in by.
    pub prefix: usize,
    /// A value inside `{ }` cannot break across lines.
    pub inline_table: bool,
}

/// What one component of a pattern names: any one segment, or the one it spells.
#[derive(Debug, Clone)]
pub enum Want {
    Any,
    Named(String),
}

/// What a component of a pattern names, as text.
pub enum Wanted {
    Any,
    Named(Seq<char>),
}

/// The component as what it names.
pub open spec fn wanted_of(w: Want) -> Wanted {
    match w {
        Want::Any => Wanted::Any,
        Want::Named(n) => Wanted::Named(n@),
    }
}

/// What one component of a pattern names, with its quoting resolved: a bare `*` stands for any
/// one segment, a component TOML reads as one key names that key, and any other names itself.
pub open spec fn one(component: Seq<char>) -> Wanted {
    if component == seq!['*'] {
        Wanted::Any
    } else {
        match key_path(component) {
            Some(segs) => if segs.len() == 1 {
                Wanted::Named(segs[0])
            } else {
                Wanted::Named(component)
            },
            None => Wanted::Named(component),
        }
    }
}

/// What one component of a pattern names, with its quoting resolved. A bare `*` stands for any one
/// segment, while a quoted one names the key spelled that way. A component TOML cannot read as a
/// key names itself.
pub fn one_segment(component: &str) -> (r: Want)
    ensures
        wanted_of(r) == one(component@),
{
    let c = chars_of(component);
    if c.len() == 1 && c[0] == '*' {
        assert(c@ =~= seq!['*']);
        return Want::Any;
    }
    assert(c@ != seq!['*']) by {
        if c@ == seq!['*'] {
            assert(c@.len() == 1 && c@[0] == '*');
        }
    }
    match read_name(component) {
        Ok(v) => {
            if v.len() == 1 {
                let only = string_of(&chars_of(v[0].as_str()));
                proof {
                    assert(v@.map_values(|x: String| x@)[0] == v@[0]@);
                }
                Want::Named(only)
            } else {
                Want::Named(string_of(&c))
            }
        },
        Err(_) => Want::Named(string_of(&c)),
    }
}

/// The dots of a pattern from `i` on that split it into segments: a dot inside quotes belongs to
/// the segment around it, and inside double quotes a backslash escapes what follows it.
pub open spec fn cuts(s: Seq<char>, i: int, quote: Option<char>, escaped: bool) -> Seq<int>
    decreases s.len() - i,
{
    if i < 0 || i >= s.len() {
        seq![]
    } else {
        let c = s[i];
        match quote {
            Some(q) => if q == '"' && c == '\\' {
                cuts(s, i + 1, quote, !escaped)
            } else if c == q && !escaped {
                cuts(s, i + 1, None, escaped)
            } else {
                cuts(s, i + 1, quote, false)
            },
            None => if c == '"' || c == '\'' {
                cuts(s, i + 1, Some(c), escaped)
            } else if c == '.' {
                seq![i] + cuts(s, i + 1, None, escaped)
            } else {
                cuts(s, i + 1, None, escaped)
            },
        }
    }
}

/// The pieces the dots at `ds` cut the text into, the first starting at `start`.
pub open spec fn pieces(s: Seq<char>, ds: Seq<int>, start: int) -> Seq<Seq<char>>
    decreases ds.len(),
{
    if ds.len() == 0 {
        seq![s.subrange(start, s.len() as int)]
    } else {
        seq![s.subrange(start, ds[0])] + pieces(s, ds.drop_first(), ds[0] + 1)
    }
}

/// What each segment of a pattern names.
pub open spec fn pattern_of(pattern: Seq<char>) -> Seq<Wanted> {
    pieces(pattern, cuts(pattern, 0, None, false), 0).map_values(|p: Seq<char>| one(p))
}

/// The segments a pattern names, read the way TOML reads a key: a dot inside quotes belongs to the
/// segment around it, so `tool."a.b".commands` names three segments rather than four. `*` stands
/// for a segment of its own and is never a name, since TOML has no bare key of that spelling.
#[verifier::rlimit(30)]
pub fn pattern_segments(pattern: &str) -> (r: Vec<Want>)
    ensures
        r@.map_values(|w: Want| wanted_of(w)) == pattern_of(pattern@),
{
    let s = chars_of(pattern);
    let mut ds: Vec<usize> = Vec::new();
    let mut quote: Option<char> = None;
    let mut escaped = false;
    let mut i: usize = 0;
    while i < s.len()
        invariant
            i <= s@.len(),
            s@ == pattern@,
            ds@.map_values(|d: usize| d as int) + cuts(s@, i as int, quote, escaped) == cuts(
                s@,
                0,
                None,
                false,
            ),
            forall|k: int| 0 <= k < ds@.len() ==> #[trigger] ds@[k] < i,
            forall|k: int| 0 <= k < ds@.len() - 1 ==> #[trigger] ds@[k] < ds@[k + 1],
        decreases s.len() - i,
    {
        let c = s[i];
        let ghost before = ds@.map_values(|d: usize| d as int);
        match quote {
            Some(q) => {
                if q == '"' && c == '\\' {
                    escaped = !escaped;
                } else if c == q && !escaped {
                    quote = None;
                } else {
                    escaped = false;
                }
            },
            None => {
                if c == '"' || c == '\'' {
                    quote = Some(c);
                } else if c == '.' {
                    ds.push(i);
                    assert(ds@.map_values(|d: usize| d as int) =~= before + seq![i as int]);
                }
            },
        }
        i += 1;
    }
    let ghost all = cuts(s@, 0, None, false);
    assert(ds@.map_values(|d: usize| d as int) =~= all);
    let ghost expect = pieces(s@, all, 0).map_values(|p: Seq<char>| one(p));
    proof {
        lemma_pieces_len(s@, all, 0);
        assert forall|j: int| 0 <= j < all.len() implies 0 <= #[trigger] all[j] < s@.len() by {
            assert(all[j] == ds@[j]);
        }
        assert forall|j: int| 0 <= j < all.len() - 1 implies #[trigger] all[j] < all[j + 1] by {
            assert(all[j] == ds@[j] && all[j + 1] == ds@[j + 1]);
        }
    }
    // the pieces between the cuts
    let mut out: Vec<Want> = Vec::new();
    let mut start: usize = 0;
    let mut k: usize = 0;
    while k < ds.len()
        invariant
            k <= ds@.len(),
            ds@.map_values(|d: usize| d as int) == all,
            forall|j: int| 0 <= j < all.len() ==> 0 <= #[trigger] all[j] < s@.len(),
            forall|j: int| 0 <= j < all.len() - 1 ==> #[trigger] all[j] < all[j + 1],
            start == if k == 0 {
                0
            } else {
                ds@[k - 1] + 1
            },
            start <= s@.len(),
            out@.len() == k,
            expect == pieces(s@, all, 0).map_values(|p: Seq<char>| one(p)),
            expect.len() == all.len() + 1,
            forall|j: int| 0 <= j < k ==> wanted_of(#[trigger] out@[j]) == expect[j],
        decreases ds.len() - k,
    {
        assert(all[k as int] == ds@[k as int]);
        if k > 0 {
            assert(all[k - 1] < all[k as int]);
        }
        let piece = slice(&s, start, ds[k]);
        let w = one_segment(string_of(&piece).as_str());
        proof {
            lemma_piece_at(s@, all, 0, k as int);
        }
        out.push(w);
        start = ds[k] + 1;
        k += 1;
    }
    let last = slice(&s, start, s.len());
    let w = one_segment(string_of(&last).as_str());
    proof {
        lemma_piece_at(s@, all, 0, k as int);
        lemma_pieces_len(s@, all, 0);
    }
    out.push(w);
    assert(out@.map_values(|w: Want| wanted_of(w)) =~= expect);
    out
}

proof fn lemma_pieces_len(s: Seq<char>, ds: Seq<int>, start: int)
    ensures
        pieces(s, ds, start).len() == ds.len() + 1,
    decreases ds.len(),
{
    if ds.len() > 0 {
        lemma_pieces_len(s, ds.drop_first(), ds[0] + 1);
    }
}

proof fn lemma_piece_at(s: Seq<char>, ds: Seq<int>, start: int, k: int)
    requires
        0 <= k <= ds.len(),
    ensures
        pieces(s, ds, start).len() == ds.len() + 1,
        pieces(s, ds, start)[k] == s.subrange(
            if k == 0 {
                start
            } else {
                ds[k - 1] + 1
            },
            if k < ds.len() {
                ds[k]
            } else {
                s.len() as int
            },
        ),
    decreases k,
{
    lemma_pieces_len(s, ds, start);
    if k > 0 {
        lemma_piece_at(s, ds.drop_first(), ds[0] + 1, k - 1);
        lemma_pieces_len(s, ds.drop_first(), ds[0] + 1);
    }
}

/// Whether the pattern names the key at `path`: segment by segment, with `*` standing for any one
/// segment. A pattern opening with `*` matches the tail of the path and one closing with `*` the
/// head; one naming no wildcard at either end names the one key it spells.
pub open spec fn matches(path: Seq<Seq<char>>, pattern: Seq<Wanted>) -> bool {
    let leads = pattern.len() > 0 && pattern[0] is Any;
    let ends = pattern.len() > 0 && pattern.last() is Any;
    let from = if leads && pattern.len() > 1 {
        path.len() - pattern.len()
    } else {
        0
    };
    &&& pattern.len() <= path.len()
    &&& leads || ends || pattern.len() == path.len()
    &&& forall|k: int|
        0 <= k < pattern.len() ==> match #[trigger] pattern[k] {
            Wanted::Any => true,
            Wanted::Named(n) => n == path[from + k],
        }
}

/// Whether the pattern names the key at `path`. A wildcard the pattern opens with stands for the
/// path above it and one it closes with for the path below; anywhere else a wildcard names one
/// segment, and so does every name.
pub fn matches_key(path: &[String], pattern: &[Want]) -> (r: bool)
    ensures
        r == matches(path@.map_values(|x: String| x@), pattern@.map_values(|w: Want| wanted_of(w))),
{
    let ghost pv = path@.map_values(|x: String| x@);
    let ghost wv = pattern@.map_values(|w: Want| wanted_of(w));
    let n = path.len();
    assert(wv.len() == pattern@.len());
    if pattern.len() > 0 {
        assert((wv[0] is Any) == (pattern@[0] is Any));
        assert((wv.last() is Any) == (pattern@[pattern@.len() - 1] is Any));
    }
    if pattern.len() > path.len() {
        return false;
    }
    let leads = pattern.len() > 0 && match &pattern[0] {
        Want::Any => true,
        _ => false,
    };
    let ends = pattern.len() > 0 && match &pattern[pattern.len() - 1] {
        Want::Any => true,
        _ => false,
    };
    if !leads && !ends && pattern.len() != path.len() {
        return false;
    }
    let from = if leads && pattern.len() > 1 {
        path.len() - pattern.len()
    } else {
        0
    };
    let mut k: usize = 0;
    while k < pattern.len()
        invariant
            k <= pattern@.len(),
            n == path@.len(),
            from + pattern@.len() <= n,
            wv.len() == pattern@.len(),
            pv.len() == n,
            from == (if (wv.len() > 0 && wv[0] is Any) && wv.len() > 1 {
                pv.len() - wv.len()
            } else {
                0
            }),
            pv == path@.map_values(|x: String| x@),
            wv == pattern@.map_values(|w: Want| wanted_of(w)),
            forall|j: int|
                0 <= j < k ==> match #[trigger] wv[j] {
                    Wanted::Any => true,
                    Wanted::Named(n) => n == pv[from + j],
                },
        decreases pattern.len() - k,
    {
        match &pattern[k] {
            Want::Any => {},
            Want::Named(name) => {
                let a = chars_of(name.as_str());
                let b = chars_of(path[from + k].as_str());
                if !crate::text::same(&a, &b) {
                    assert(wv[k as int] == Wanted::Named(name@));
                    assert(pv[from + k] == path@[from + k]@);
                    return false;
                }
                assert(pv[from + k] == path@[from + k]@);
            },
        }
        k += 1;
    }
    true
}

/// How many of the offsets from `k` on, counted while they do, leave the text before them within
/// `max` columns.
pub open spec fn fitting(t: Seq<char>, ends: Seq<usize>, max: nat, k: int) -> int
    decreases ends.len() - k,
{
    if k < 0 || k >= ends.len() {
        k
    } else {
        match char_at_byte(t, ends[k] as int) {
            Some(c) => if display_width(t.take(c)) <= max {
                fitting(t, ends, max, k + 1)
            } else {
                k
            },
            None => k,
        }
    }
}

/// Where a line of the text breaks, as a byte offset: after the last ` :: ` of the longest head
/// that fits `max` columns, which separates the parts of a classifier, else after its last space,
/// else where the head ends. The head is the text up to the last break point that fits, or up to
/// the first where none does.
pub open spec fn split_point(t: Seq<char>, max: nat) -> int {
    let ends = breaks_from(t, max, 0, 0);
    let m = fitting(t, ends, max, 0);
    let he = (if m > 0 {
        ends[m - 1]
    } else {
        ends[0]
    }) as int;
    match char_at_byte(t, he) {
        Some(hk) => {
            let head = t.take(hk);
            match rfind(head, seq![' ', ':', ':', ' ']) {
                Some(p) => bytes_upto(head, p) + 4int,
                None => match rfind(head, seq![' ']) {
                    Some(p) => bytes_upto(head, p) + 1int,
                    None => he,
                },
            }
        },
        None => he,
    }
}

proof fn lemma_breaks_bounded(t: Seq<char>, max: nat, i: int, width: nat)
    requires
        bytes_upto(t, t.len() as int) <= usize::MAX,
    ensures
        forall|k: int|
            0 <= k < breaks_from(t, max, i, width).len() ==> (#[trigger] char_at_byte(
                t,
                breaks_from(t, max, i, width)[k] as int,
            )) is Some,
    decreases t.len() - i,
{
    if 0 <= i < t.len() {
        let total = bytes_upto(t, t.len() as int) as int;
        let at = bytes_upto(t, i) as int;
        let held = crate::width::held_at(t, i);
        let next = if at + held < total {
            at + held
        } else {
            total
        };
        let all = breaks_from(t, max, i, width);
        match (char_at_byte(t, next), char_at_byte(t, next - held)) {
            (Some(e), Some(s)) => {
                let cols = display_width(t.subrange(s, e));
                let w = width + if cols > 0 {
                    cols as nat
                } else {
                    1nat
                };
                crate::disabled::lemma_bytes_grow(t, i, t.len() as int);
                assert(0 <= at <= next <= total);
                assert((next as usize) as int == next);
                if e <= i || e > t.len() || w > usize::MAX {
                } else if w > max {
                    assert(all[0] as int == next);
                } else {
                    lemma_breaks_bounded(t, max, e, w);
                    let rest = breaks_from(t, max, e, w);
                    assert(all[0] as int == next);
                    assert forall|k: int| 0 <= k < all.len() implies (#[trigger] char_at_byte(
                        t,
                        all[k] as int,
                    )) is Some by {
                        if k > 0 {
                            assert(all[k] == rest[k - 1]);
                        }
                    }
                }
            },
            _ => {},
        }
    }
}

proof fn lemma_prefix_bytes(t: Seq<char>, hk: int, p: int)
    requires
        0 <= p <= hk <= t.len(),
    ensures
        bytes_upto(t.take(hk), p) == bytes_upto(t, p),
{
    assert(t.take(hk).take(p) =~= t.take(p));
}

/// Where a line of the text breaks: after ` :: `, which separates the parts of a classifier, else
/// after the last space, else wherever the width runs out.
pub fn wrap_point(text: &str, max_len: usize) -> (r: usize)
    requires
        breaks_from(text@, max_len as nat, 0, 0).len() > 0,
    ensures
        r == split_point(text@, max_len as nat),
{
    let ends = break_points(text, max_len);
    let c = chars_of(text);
    let total = text.as_bytes().len();
    let ghost t = c@;
    proof {
        crate::width::lemma_bytes_len(t);
        lemma_breaks_bounded(t, max_len as nat, 0, 0);
    }
    let offs = crate::width::byte_offsets(&c, total);
    assert(t.take(0) =~= Seq::<char>::empty());
    let mut m: usize = 0;
    while m < ends.len()
        invariant
            m <= ends@.len(),
            t == c@,
            t == text@,
            ends@ == breaks_from(t, max_len as nat, 0, 0),
            offs@.len() == t.len() + 1,
            forall|k: int| 0 <= k <= t.len() ==> #[trigger] offs@[k] == bytes_upto(t, k),
            bytes_upto(t, 0) == 0,
            fitting(t, ends@, max_len as nat, 0) == fitting(t, ends@, max_len as nat, m as int),
        ensures
            fitting(t, ends@, max_len as nat, 0) == m as int,
            m <= ends@.len(),
            t == c@,
            t == text@,
            ends@ == breaks_from(t, max_len as nat, 0, 0),
            offs@.len() == t.len() + 1,
            forall|k: int| 0 <= k <= t.len() ==> #[trigger] offs@[k] == bytes_upto(t, k),
            bytes_upto(t, 0) == 0,
        decreases ends.len() - m,
    {
        let k = match crate::width::index_of_offset(&offs, ends[m], 0, Ghost(t)) {
            Some(k) => k,
            None => {
                break;
            },
        };
        let head = slice(&c, 0, k);
        assert(head@ =~= t.take(k as int));
        if columns(string_of(&head).as_str()) <= max_len {
            m += 1;
        } else {
            break;
        }
    }
    let he = if m > 0 {
        ends[m - 1]
    } else {
        ends[0]
    };
    let hk = match crate::width::index_of_offset(&offs, he, 0, Ghost(t)) {
        Some(hk) => hk,
        None => {
            proof {
                if m > 0 {
                    assert(char_at_byte(t, ends@[m - 1] as int) is Some);
                } else {
                    assert(char_at_byte(t, ends@[0] as int) is Some);
                }
            }
            return he;
        },
    };
    let head = slice(&c, 0, hk);
    assert(head@ =~= t.take(hk as int));
    let sep = vec![' ', ':', ':', ' '];
    assert(sep@ =~= seq![' ', ':', ':', ' ']);
    match crate::disabled::rfind_in(&head, &sep) {
        Some(p) => {
            proof {
                crate::disabled::lemma_last_written(head@, sep@, head@.len() - sep@.len());
                lemma_prefix_bytes(t, hk as int, p as int);
                lemma_prefix_bytes(t, hk as int, p + 4);
                crate::disabled::lemma_bytes_step(t, p as int);
                crate::disabled::lemma_bytes_step(t, p + 1);
                crate::disabled::lemma_bytes_step(t, p + 2);
                crate::disabled::lemma_bytes_step(t, p + 3);
                assert(t[p as int] == ' ' && t[p + 1] == ':' && t[p + 2] == ':' && t[p + 3] == ' ');
            }
            offs[p + 4]
        },
        None => {
            let space = vec![' '];
            assert(space@ =~= seq![' ']);
            match crate::disabled::rfind_in(&head, &space) {
                Some(p) => {
                    proof {
                        crate::disabled::lemma_last_written(
                            head@,
                            space@,
                            head@.len() - space@.len(),
                        );
                        lemma_prefix_bytes(t, hk as int, p as int);
                        lemma_prefix_bytes(t, hk as int, p + 1);
                        crate::disabled::lemma_bytes_step(t, p as int);
                        assert(t[p as int] == ' ');
                    }
                    offs[p + 1]
                },
                None => he,
            }
        },
    }
}

/// What a wrapped value opens with: `"""` and a continuation.
pub open spec fn opener() -> Seq<char> {
    seq!['"', '"', '"', '\\', '\n']
}

#[verifier::opaque]
/// The lines the text is broken into, each written after `ind` and closed by a continuation: the
/// rest goes on one line once it fits in front of `cw` columns with the `ib` bytes of the indent
/// before it, and otherwise the line breaks where `split_point` says for `eff` columns. `None`
/// where no line can be cut: an escape the text cuts short, or a break inside a character.
pub open spec fn wrap_lines(rem: Seq<char>, cw: nat, ind: Seq<char>, ib: nat, eff: nat) -> Option<
    Seq<char>,
>
    decreases rem.len(),
{
    if rem.len() == 0 {
        Some(seq![])
    } else if display_width(rem) + ib < cw {
        Some(ind + rem + seq!['\\', '\n'])
    } else if breaks_from(rem, eff, 0, 0).len() == 0 {
        None
    } else {
        match char_at_byte(rem, split_point(rem, eff)) {
            Some(k) => if 0 < k <= rem.len() {
                match wrap_lines(rem.skip(k), cw, ind, ib, eff) {
                    Some(more) => Some(ind + rem.take(k) + seq!['\\', '\n'] + more),
                    None => None,
                }
            } else {
                None
            },
            None => None,
        }
    }
}

/// The escaped text of a string written as a multi-line basic string broken with `\`
/// continuations, each line pushed in by `ind`; `None` where the column has no room for the indent,
/// one character and the continuation after it, or where a line would still run past the column.
pub open spec fn wrapped(escaped: Seq<char>, cw: nat, ind: Seq<char>) -> Option<Seq<char>> {
    let ib = bytes_upto(ind, ind.len() as int);
    if ib + 1 > cw {
        None
    } else {
        match wrap_lines(escaped, cw, ind, ib, (cw - ib - 1) as nat) {
            Some(body) => {
                let result = opener() + body + ind + seq!['"', '"', '"'];
                if forall|k: int|
                    1 <= k < lines_of(result).len() ==> display_width(#[trigger] lines_of(result)[k])
                        <= cw {
                    Some(result)
                } else {
                    None
                }
            },
            None => None,
        }
    }
}

/// What the next line of a wrapped value holds.
pub enum Cut {
    /// What is left fits on one line.
    Whole,
    /// The line ends after this many characters.
    At(usize),
    /// No line can be cut.
    Stuck,
}

/// The next line of a wrapped value, read off what is left of its text.
fn next_cut(rem: &Vec<char>, column_width: usize, ib: usize, eff: usize, Ghost(ind): Ghost<
    Seq<char>,
>) -> (r: Cut)
    requires
        rem@.len() > 0,
        ib < column_width,
        eff == column_width - ib - 1,
    ensures
        match r {
            Cut::Whole => wrap_lines(rem@, column_width as nat, ind, ib as nat, eff as nat) == Some(
                ind + rem@ + seq!['\\', '\n'],
            ),
            Cut::At(k) => 0 < k <= rem@.len() && wrap_lines(
                rem@,
                column_width as nat,
                ind,
                ib as nat,
                eff as nat,
            ) == match wrap_lines(rem@.skip(k as int), column_width as nat, ind, ib as nat, eff as nat) {
                Some(m) => Some(ind + rem@.take(k as int) + seq!['\\', '\n'] + m),
                None => None,
            },
            Cut::Stuck => wrap_lines(rem@, column_width as nat, ind, ib as nat, eff as nat) is None,
        },
{
    reveal(wrap_lines);
    let rem_text = string_of(rem);
    let cols = columns(rem_text.as_str());
    if cols < column_width - ib {
        return Cut::Whole;
    }
    let ends = break_points(rem_text.as_str(), eff);
    if ends.len() == 0 {
        return Cut::Stuck;
    }
    let sp = wrap_point(rem_text.as_str(), eff);
    let total = rem_text.as_str().as_bytes().len();
    proof {
        crate::width::lemma_bytes_len(rem@);
    }
    let offs = crate::width::byte_offsets(rem, total);
    assert(rem@.take(0) =~= Seq::<char>::empty());
    match crate::width::index_of_offset(&offs, sp, 0, Ghost(rem@)) {
        Some(k) => if k == 0 {
            Cut::Stuck
        } else {
            Cut::At(k)
        },
        None => Cut::Stuck,
    }
}

/// Break the escaped text of a string across lines with `\` continuations, so the written form
/// fits the column while standing for one unbroken string. `escaped` is the body of the string as
/// a basic string writes it, between its quotes.
///
/// `None` where the column has no room for the form: a width that cannot hold the indent, one
/// character and the continuation after it would only trade a long line for a longer one.
pub fn wrap_with_continuations(escaped: &str, column_width: usize, indent: &str) -> (r: Option<
    String,
>)
    ensures
        match (r, wrapped(escaped@, column_width as nat, indent@)) {
            (Some(a), Some(b)) => a@ == b,
            (None, None) => true,
            _ => false,
        },
{
    let ind = chars_of(indent);
    let ib = indent.as_bytes().len();
    proof {
        crate::width::lemma_bytes_len(ind@);
    }
    if ib >= column_width {
        return None;
    }
    let eff = column_width - ib - 1;
    let ghost cw = column_width as nat;
    let mut result: Vec<char> = vec!['"', '"', '"', '\\', '\n'];
    assert(result@ =~= opener());
    let mut rem = chars_of(escaped);
    let ghost whole = wrap_lines(escaped@, cw, ind@, ib as nat, eff as nat);
    let close_line = vec!['\\', '\n'];
    assert(close_line@ =~= seq!['\\', '\n']);
    assert(result@.skip(5) =~= Seq::<char>::empty());
    loop
        invariant_except_break
            whole == match wrap_lines(rem@, cw, ind@, ib as nat, eff as nat) {
                Some(more) => Some(result@.skip(5) + more),
                None => None,
            },
        invariant
            ib == bytes_upto(ind@, ind@.len() as int),
            ind@ == indent@,
            ib < column_width,
            eff == column_width - ib - 1,
            cw == column_width as nat,
            whole == wrap_lines(escaped@, cw, ind@, ib as nat, eff as nat),
            close_line@ == seq!['\\', '\n'],
            result@.len() >= 5,
            result@.take(5) == opener(),
        ensures
            result@.len() >= 5,
            result@.take(5) == opener(),
            whole == Some(result@.skip(5)),
        decreases rem.len(),
    {
        let ghost before = result@;
        if rem.len() == 0 {
            assert(wrap_lines(rem@, cw, ind@, ib as nat, eff as nat) == Some(Seq::<char>::empty()))
                by {
                reveal(wrap_lines);
            }
            assert(result@.skip(5) + Seq::<char>::empty() =~= result@.skip(5));
            break;
        }
        match next_cut(&rem, column_width, ib, eff, Ghost(ind@)) {
            Cut::Whole => {
                push_all(&mut result, &ind);
                push_all(&mut result, &rem);
                push_all(&mut result, &close_line);
                assert(result@.take(5) =~= before.take(5));
                assert(result@.skip(5) =~= before.skip(5) + (ind@ + rem@ + seq!['\\', '\n']));
                break;
            },
            Cut::Stuck => {
                return None;
            },
            Cut::At(k) => {
                let head = slice(&rem, 0, k);
                let tail = slice(&rem, k, rem.len());
                push_all(&mut result, &ind);
                push_all(&mut result, &head);
                push_all(&mut result, &close_line);
                assert(result@.take(5) =~= before.take(5));
                assert(result@.skip(5) =~= before.skip(5) + (ind@ + rem@.take(k as int) + seq![
                    '\\',
                    '\n',
                ]));
                assert(tail@ =~= rem@.skip(k as int));
                proof {
                    match wrap_lines(tail@, cw, ind@, ib as nat, eff as nat) {
                        Some(m) => {
                            assert(before.skip(5) + (ind@ + rem@.take(k as int) + seq!['\\', '\n']
                                + m) =~= result@.skip(5) + m);
                        },
                        None => {},
                    }
                }
                rem = tail;
            },
        }
    }
    let ghost body = result@.skip(5);
    push_all(&mut result, &ind);
    let quotes = vec!['"', '"', '"'];
    push_all(&mut result, &quotes);
    assert(result@ =~= opener() + body + ind@ + seq!['"', '"', '"']);
    let ls = lines(&result);
    let mut k: usize = 1;
    while k < ls.len()
        invariant
            1 <= k,
            views(ls@) == lines_of(result@),
            ib == bytes_upto(ind@, ind@.len() as int),
            ind@ == indent@,
            ib < column_width,
            eff == column_width - ib - 1,
            whole == wrap_lines(escaped@, column_width as nat, ind@, ib as nat, eff as nat),
            whole == Some(body),
            result@ == opener() + body + ind@ + seq!['"', '"', '"'],
            forall|j: int| 1 <= j < k && j < ls@.len() ==> display_width(#[trigger] lines_of(result@)[j])
                <= column_width,
        decreases ls.len() - k,
    {
        assert(lines_of(result@)[k as int] == ls@[k as int]@);
        let line = string_of(&ls[k]);
        if columns(line.as_str()) > column_width {
            assert(display_width(lines_of(result@)[k as int]) > column_width);
            return None;
        }
        k += 1;
    }
    Some(string_of(&result))
}


/// A wrapped value keeps every line after its opener within the column.
pub proof fn lemma_wrapped_fits(escaped: Seq<char>, cw: nat, ind: Seq<char>)
    requires
        wrapped(escaped, cw, ind) is Some,
    ensures
        forall|k: int|
            1 <= k < lines_of(wrapped(escaped, cw, ind)->0).len() ==> display_width(
                #[trigger] lines_of(wrapped(escaped, cw, ind)->0)[k],
            ) <= cw,
{
}

/// Whether ` :: `, which separates the parts of a classifier, is written at `p`.
pub open spec fn separator_at(t: Seq<char>, p: int) -> bool {
    crate::text::written_at(t, p, seq![' ', ':', ':', ' '])
}

/// Where the head a line of the text breaks within ends, as a byte offset: the last break point
/// whose text fits `max` columns, or the first where none does.
pub open spec fn head_end(t: Seq<char>, max: nat) -> int {
    let ends = breaks_from(t, max, 0, 0);
    let m = fitting(t, ends, max, 0);
    (if m > 0 {
        ends[m - 1]
    } else {
        ends[0]
    }) as int
}

proof fn lemma_last_at(s: Seq<char>, pat: Seq<char>, i: int, q: int)
    requires
        0 <= q <= i,
        crate::text::written_at(s, q, pat),
        forall|p: int| q < p <= i ==> !#[trigger] crate::text::written_at(s, p, pat),
    ensures
        crate::disabled::last_written(s, pat, i) == Some(q),
    decreases i,
{
    if i > q {
        lemma_last_at(s, pat, i - 1, q);
    }
}

proof fn lemma_none_at(s: Seq<char>, pat: Seq<char>, i: int)
    requires
        forall|p: int| 0 <= p <= i ==> !#[trigger] crate::text::written_at(s, p, pat),
    ensures
        crate::disabled::last_written(s, pat, i) is None,
    decreases i + 1,
{
    if i >= 0 {
        lemma_none_at(s, pat, i - 1);
    }
}

proof fn lemma_head_written(t: Seq<char>, hk: int, pat: Seq<char>)
    requires
        0 <= hk <= t.len(),
    ensures
        forall|p: int|
            #![trigger crate::text::written_at(t.take(hk), p, pat)]
            crate::text::written_at(t.take(hk), p, pat) <==> (p + pat.len() <= hk
                && crate::text::written_at(t, p, pat)),
{
    assert forall|p: int| #![trigger crate::text::written_at(t.take(hk), p, pat)]
        crate::text::written_at(t.take(hk), p, pat) <==> (p + pat.len() <= hk
            && crate::text::written_at(t, p, pat)) by {
        if 0 <= p && p + pat.len() <= hk {
            assert(t.take(hk).subrange(p, p + pat.len()) =~= t.subrange(p, p + pat.len()));
        }
    }
}

/// A line whose head holds ` :: ` breaks just after the last one in the head, which is where the
/// parts of a classifier are told apart.
pub proof fn lemma_break_after_separator(t: Seq<char>, max: nat, hk: int, q: int)
    requires
        char_at_byte(t, head_end(t, max)) == Some(hk),
        0 <= q,
        q + 4 <= hk,
        separator_at(t, q),
        forall|p: int| q < p && p + 4 <= hk ==> !#[trigger] separator_at(t, p),
    ensures
        split_point(t, max) == bytes_upto(t, q) + 4,
{
    let sep = seq![' ', ':', ':', ' '];
    assert(0 <= hk <= t.len());
    let head = t.take(hk);
    lemma_head_written(t, hk, sep);
    assert forall|p: int| q < p <= head.len() - 4 implies !#[trigger] crate::text::written_at(
        head,
        p,
        sep,
    ) by {
        assert(!separator_at(t, p));
    }
    assert(crate::text::written_at(head, q, sep));
    lemma_last_at(head, sep, head.len() - 4, q);
    lemma_prefix_bytes(t, hk, q);
}

/// A line whose head holds no ` :: ` but a space breaks just after the last space in the head.
pub proof fn lemma_break_after_space(t: Seq<char>, max: nat, hk: int, q: int)
    requires
        char_at_byte(t, head_end(t, max)) == Some(hk),
        forall|p: int| 0 <= p && p + 4 <= hk ==> !#[trigger] separator_at(t, p),
        0 <= q < hk,
        t[q] == ' ',
        forall|p: int| q < p < hk ==> #[trigger] t[p] != ' ',
    ensures
        split_point(t, max) == bytes_upto(t, q) + 1,
{
    let sep = seq![' ', ':', ':', ' '];
    let space = seq![' '];
    assert(0 <= hk <= t.len());
    let head = t.take(hk);
    lemma_head_written(t, hk, sep);
    lemma_head_written(t, hk, space);
    assert forall|p: int| 0 <= p <= head.len() - 4 implies !#[trigger] crate::text::written_at(
        head,
        p,
        sep,
    ) by {
        assert(!separator_at(t, p));
    }
    lemma_none_at(head, sep, head.len() - 4);
    assert(crate::text::written_at(t, q, space)) by {
        assert(t.subrange(q, q + 1) =~= space);
    }
    assert forall|p: int| q < p <= head.len() - 1 implies !#[trigger] crate::text::written_at(
        head,
        p,
        space,
    ) by {
        if crate::text::written_at(head, p, space) {
            assert(head.subrange(p, p + 1)[0] == head[p]);
        }
    }
    lemma_last_at(head, space, head.len() - 1, q);
    lemma_prefix_bytes(t, hk, q);
}

/// A line whose head holds neither ` :: ` nor a space breaks where the head ends.
pub proof fn lemma_break_at_head_end(t: Seq<char>, max: nat, hk: int)
    requires
        char_at_byte(t, head_end(t, max)) == Some(hk),
        forall|p: int| 0 <= p < hk ==> #[trigger] t[p] != ' ',
    ensures
        split_point(t, max) == head_end(t, max),
{
    let sep = seq![' ', ':', ':', ' '];
    let space = seq![' '];
    assert(0 <= hk <= t.len());
    let head = t.take(hk);
    assert forall|p: int| 0 <= p <= head.len() - 4 implies !#[trigger] crate::text::written_at(
        head,
        p,
        sep,
    ) by {
        if crate::text::written_at(head, p, sep) {
            assert(head.subrange(p, p + 4)[0] == head[p]);
        }
    }
    assert forall|p: int| 0 <= p <= head.len() - 1 implies !#[trigger] crate::text::written_at(
        head,
        p,
        space,
    ) by {
        if crate::text::written_at(head, p, space) {
            assert(head.subrange(p, p + 1)[0] == head[p]);
        }
    }
    lemma_none_at(head, sep, head.len() - 4);
    lemma_none_at(head, space, head.len() - 1);
}

/// Whether the text up to the `j`th break point fits `max` columns.
pub open spec fn fits_at(t: Seq<char>, ends: Seq<usize>, max: nat, j: int) -> bool {
    match char_at_byte(t, ends[j] as int) {
        Some(c) => display_width(t.take(c)) <= max,
        None => false,
    }
}

proof fn lemma_fitting(t: Seq<char>, ends: Seq<usize>, max: nat, k: int)
    requires
        0 <= k <= ends.len(),
    ensures
        k <= fitting(t, ends, max, k) <= ends.len(),
        forall|j: int| k <= j < fitting(t, ends, max, k) ==> #[trigger] fits_at(t, ends, max, j),
        fitting(t, ends, max, k) < ends.len() ==> !fits_at(t, ends, max, fitting(t, ends, max, k)),
    decreases ends.len() - k,
{
    if k < ends.len() && fits_at(t, ends, max, k) {
        lemma_fitting(t, ends, max, k + 1);
    }
}

/// The head a line breaks within ends at a break point: the last of a run of them from the first
/// that all fit, the next one not fitting or there being none; or the first where that one does
/// not fit.
pub proof fn lemma_head_end(t: Seq<char>, max: nat)
    requires
        breaks_from(t, max, 0, 0).len() > 0,
    ensures
        ({
            let ends = breaks_from(t, max, 0, 0);
            exists|k: int|
                0 <= k < ends.len() && ends[k] as int == head_end(t, max) && ((
                (forall|j: int| 0 <= j <= k ==> #[trigger] fits_at(t, ends, max, j))
                    && (k + 1 == ends.len() || !fits_at(t, ends, max, k + 1))) || (k == 0
                    && !fits_at(t, ends, max, 0)))
        }),
{
    let ends = breaks_from(t, max, 0, 0);
    lemma_fitting(t, ends, max, 0);
    let m = fitting(t, ends, max, 0);
    if m > 0 {
        assert(ends[m - 1] as int == head_end(t, max));
        assert(forall|j: int| 0 <= j <= m - 1 ==> #[trigger] fits_at(t, ends, max, j));
    } else {
        assert(ends[0] as int == head_end(t, max));
    }
}

} // verus!
