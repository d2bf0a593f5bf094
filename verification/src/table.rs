//! Table names as the text of a document writes them: the dots that split a name outside its
//! quotes, and the blank lines that stand between the tables of a written document.

use vstd::prelude::*;
use vstd::utf8::{char_is_scalar, encode_scalar, encode_utf8};
use crate::text::{
    chars_of, find_char, index_of, is_whitespace, is_ws, join, joined, lemma_index_of, lines, lines_of,
    push_all, same, slice, string_of, trim, trim_end, trim_start, trimmed, trimmed_end, views,
};

verus! {

/// How many bytes UTF-8 writes the character in, which is what `char::len_utf8` says.
pub open spec fn char_bytes(c: char) -> nat {
    if (c as u32) < 0x80 {
        1
    } else if (c as u32) < 0x800 {
        2
    } else if (c as u32) < 0x10000 {
        3
    } else {
        4
    }
}

pub(crate) fn char_len_utf8(c: char) -> (r: usize)
    ensures
        r == char_bytes(c),
{
    let u = c as u32;
    if u < 0x80 {
        1
    } else if u < 0x800 {
        2
    } else if u < 0x10000 {
        3
    } else {
        4
    }
}

pub(crate) proof fn lemma_scalar_bytes(c: char)
    ensures
        encode_utf8(seq![c]).len() == char_bytes(c),
{
    char_is_scalar(c);
    assert(seq![c].drop_first() =~= Seq::<char>::empty());
    assert(encode_utf8(Seq::<char>::empty()) =~= Seq::<u8>::empty());
    assert(encode_utf8(seq![c]) =~= encode_scalar(c as u32) + encode_utf8(seq![c].drop_first()));
    assert(encode_utf8(seq![c]) =~= encode_scalar(c as u32));
}

pub(crate) proof fn lemma_encode_concat(a: Seq<char>, b: Seq<char>)
    ensures
        encode_utf8(a + b) == encode_utf8(a) + encode_utf8(b),
    decreases a.len(),
{
    if a.len() == 0 {
        assert(a + b =~= b);
        assert(encode_utf8(a) + encode_utf8(b) =~= encode_utf8(b));
    } else {
        lemma_encode_concat(a.drop_first(), b);
        assert((a + b).drop_first() =~= a.drop_first() + b);
        assert((a + b)[0] == a[0]);
        assert(encode_utf8(a + b) =~= encode_utf8(a) + encode_utf8(b));
    }
}

/// Whether the `i`th character stands outside double quotes: each `"` before it opens or closes
/// a quoted run.
pub open spec fn quote_parity(s: Seq<char>, i: int) -> bool
    decreases i,
{
    if i <= 0 {
        false
    } else {
        quote_parity(s, i - 1) != (s[i - 1] == '"')
    }
}

/// Whether the `i`th character is a dot outside double quotes.
pub open spec fn unquoted_dot(s: Seq<char>, i: int) -> bool {
    0 <= i < s.len() && s[i] == '.' && !quote_parity(s, i)
}

/// How many dots outside double quotes the first `n` characters hold.
pub open spec fn dots_before(s: Seq<char>, n: int) -> nat
    decreases n,
{
    if n <= 0 {
        0
    } else {
        dots_before(s, n - 1) + if unquoted_dot(s, n - 1) {
            1nat
        } else {
            0nat
        }
    }
}

/// How many dots stand outside double quotes, which is how deep a table name goes.
pub fn count_unquoted_dots(s: &str) -> (r: usize)
    ensures
        r == dots_before(s@, s@.len() as int),
{
    let c = chars_of(s);
    let mut in_quotes = false;
    let mut n: usize = 0;
    let mut i: usize = 0;
    while i < c.len()
        invariant
            i <= c.len(),
            c@ == s@,
            in_quotes == quote_parity(c@, i as int),
            n == dots_before(c@, i as int),
            n <= i,
        decreases c.len() - i,
    {
        if c[i] == '"' {
            in_quotes = !in_quotes;
        } else if c[i] == '.' && !in_quotes {
            n += 1;
        }
        i += 1;
    }
    n
}

/// Where the first dot outside double quotes stands, as a character position.
pub open spec fn first_dot_from(s: Seq<char>, i: int) -> int
    decreases s.len() - i,
{
    if i < 0 || i >= s.len() {
        s.len() as int
    } else if unquoted_dot(s, i) {
        i
    } else {
        first_dot_from(s, i + 1)
    }
}

/// Whether a dot stands outside double quotes.
pub open spec fn has_unquoted_dot(s: Seq<char>) -> bool {
    exists|i: int| 0 <= i < s.len() && #[trigger] unquoted_dot(s, i)
}

proof fn lemma_first_dot(s: Seq<char>, i: int)
    requires
        0 <= i <= s.len(),
    ensures
        i <= first_dot_from(s, i) <= s.len(),
        forall|k: int| i <= k < first_dot_from(s, i) ==> !#[trigger] unquoted_dot(s, k),
        first_dot_from(s, i) < s.len() ==> unquoted_dot(s, first_dot_from(s, i)),
    decreases s.len() - i,
{
    if i < s.len() && !unquoted_dot(s, i) {
        lemma_first_dot(s, i + 1);
    }
}

/// Where the first dot outside double quotes stands, as the byte offset `str` slices by.
pub fn first_unquoted_dot(s: &str) -> (r: usize)
    requires
        has_unquoted_dot(s@),
    ensures
        r == encode_utf8(s@.take(first_dot_from(s@, 0))).len(),
{
    let total = s.as_bytes().len();
    let c = chars_of(s);
    proof {
        lemma_first_dot(c@, 0);
    }
    let mut in_quotes = false;
    let mut bytes: usize = 0;
    let mut i: usize = 0;
    loop
        invariant
            i <= c.len(),
            c@ == s@,
            has_unquoted_dot(c@),
            in_quotes == quote_parity(c@, i as int),
            first_dot_from(c@, 0) == first_dot_from(c@, i as int),
            bytes == encode_utf8(c@.take(i as int)).len(),
            total == encode_utf8(c@).len(),
        decreases c.len() - i,
    {
        if i == c.len() {
            proof {
                let k = choose|k: int| 0 <= k < c@.len() && #[trigger] unquoted_dot(c@, k);
                lemma_first_dot(c@, 0);
                assert(false);
            }
            return bytes;
        }
        if c[i] == '.' && !in_quotes {
            return bytes;
        }
        if c[i] == '"' {
            in_quotes = !in_quotes;
        }
        proof {
            assert(c@.take(i + 1) =~= c@.take(i as int) + seq![c@[i as int]]);
            assert(c@ =~= c@.take(i + 1) + c@.skip(i + 1));
            lemma_encode_concat(c@.take(i as int), seq![c@[i as int]]);
            lemma_encode_concat(c@.take(i + 1), c@.skip(i + 1));
            lemma_scalar_bytes(c@[i as int]);
        }
        bytes = bytes + char_len_utf8(c[i]);
        i += 1;
    }
}

/// Where the last dot outside double quotes stands, read from the end, where each `"` after it
/// opens or closes a quoted run.
pub open spec fn back_parity(s: Seq<char>, j: int) -> bool
    decreases s.len() - j,
{
    if j >= s.len() || j < 0 {
        false
    } else {
        back_parity(s, j + 1) != (s[j] == '"')
    }
}

/// The last position, below `j`, of a dot outside the quotes counted from the end.
pub open spec fn last_dot_below(s: Seq<char>, j: int) -> int
    decreases j,
{
    if j <= 0 || j > s.len() {
        -1
    } else if s[j - 1] == '.' && !back_parity(s, j) {
        j - 1
    } else {
        last_dot_below(s, j - 1)
    }
}

pub proof fn lemma_last_dot(s: Seq<char>, j: int)
    requires
        0 <= j <= s.len(),
    ensures
        -1 <= last_dot_below(s, j) < j,
        last_dot_below(s, j) >= 0 ==> s[last_dot_below(s, j)] == '.',
    decreases j,
{
    if j > 0 && !(s[j - 1] == '.' && !back_parity(s, j)) {
        lemma_last_dot(s, j - 1);
    }
}

/// A table name split at its last dot outside double quotes: the parent's name and the last
/// segment.
pub fn split_table_name(full_name: &str) -> (r: (String, String))
    requires
        last_dot_below(full_name@, full_name@.len() as int) >= 0,
    ensures
        r.0@ == full_name@.take(last_dot_below(full_name@, full_name@.len() as int)),
        r.1@ == full_name@.skip(last_dot_below(full_name@, full_name@.len() as int) + 1),
{
    let c = chars_of(full_name);
    proof {
        lemma_last_dot(c@, c@.len() as int);
    }
    let mut depth = false;
    let mut j = c.len();
    loop
        invariant
            j <= c.len(),
            c@ == full_name@,
            depth == back_parity(c@, j as int),
            last_dot_below(c@, c@.len() as int) == last_dot_below(c@, j as int),
            last_dot_below(c@, j as int) >= 0,
        decreases j,
    {
        proof {
            lemma_last_dot(c@, j as int);
        }
        if c[j - 1] == '.' && !depth {
            let parent = slice(&c, 0, j - 1);
            let last = slice(&c, j, c.len());
            assert(parent@ =~= c@.take(j - 1));
            assert(last@ =~= c@.skip(j as int));
            return (string_of(&parent), string_of(&last));
        }
        if c[j - 1] == '"' {
            depth = !depth;
        }
        j -= 1;
    }
}

/// How many times `c` stands in the text.
pub open spec fn count_of(s: Seq<char>, c: char) -> nat
    decreases s.len(),
{
    if s.len() == 0 {
        0
    } else {
        count_of(s.drop_last(), c) + if s.last() == c {
            1nat
        } else {
            0nat
        }
    }
}

pub(crate) fn count_char(s: &Vec<char>, c: char) -> (r: usize)
    ensures
        r == count_of(s@, c),
{
    let mut n: usize = 0;
    let mut i: usize = 0;
    while i < s.len()
        invariant
            i <= s.len(),
            n == count_of(s@.take(i as int), c),
            n <= i,
        decreases s.len() - i,
    {
        assert(s@.take(i + 1).drop_last() =~= s@.take(i as int));
        if s[i] == c {
            n += 1;
        }
        i += 1;
    }
    assert(s@.take(i as int) =~= s@);
    n
}

/// Where `]]` first stands from `i` on, or the length where it stands nowhere.
pub open spec fn index_of_close2(s: Seq<char>, i: int) -> int
    decreases s.len() - i,
{
    if i < 0 || i + 1 >= s.len() {
        s.len() as int
    } else if s[i] == ']' && s[i + 1] == ']' {
        i
    } else {
        index_of_close2(s, i + 1)
    }
}

proof fn lemma_close2(s: Seq<char>, i: int)
    requires
        0 <= i <= s.len(),
    ensures
        i <= index_of_close2(s, i) <= s.len(),
    decreases s.len() - i,
{
    if i + 1 < s.len() && !(s[i] == ']' && s[i + 1] == ']') {
        lemma_close2(s, i + 1);
    }
}

/// The name a line opening with `[` names as a table header, between `[` and `]` or `[[` and
/// `]]`, trimmed; `None` for any other line.
pub open spec fn header_of(line: Seq<char>) -> Option<Seq<char>> {
    if !(line.len() > 0 && line[0] == '[') {
        None
    } else {
        let t = trim_end(line);
        if t.len() >= 2 && t[0] == '[' && t[1] == '[' {
            let rest = t.skip(2);
            let e = index_of_close2(rest, 0);
            if e < rest.len() {
                Some(trim(rest.take(e)))
            } else {
                None
            }
        } else {
            let rest = t.skip(1);
            let e = index_of(rest, ']', 0);
            if e < rest.len() {
                Some(trim(rest.take(e)))
            } else {
                None
            }
        }
    }
}

fn header_name(line: &Vec<char>) -> (r: Option<Vec<char>>)
    ensures
        match (r, header_of(line@)) {
            (Some(a), Some(b)) => a@ == b,
            (None, None) => true,
            _ => false,
        },
{
    if !(line.len() > 0 && line[0] == '[') {
        return None;
    }
    let t = trimmed_end(line);
    proof {
        crate::text::lemma_ws_start_bounds(line@, line@.len() as int);
        assert(t@.len() > 0);
    }
    if t.len() >= 2 && t[0] == '[' && t[1] == '[' {
        let rest = slice(&t, 2, t.len());
        assert(rest@ =~= t@.skip(2));
        proof {
            lemma_close2(rest@, 0);
        }
        let mut e: usize = 0;
        while e < rest.len() && e + 1 < rest.len() && !(rest[e] == ']' && rest[e + 1] == ']')
            invariant
                e <= rest.len(),
                index_of_close2(rest@, 0) == index_of_close2(rest@, e as int),
            decreases rest.len() - e,
        {
            e += 1;
        }
        if e < rest.len() && e + 1 < rest.len() {
            let name = slice(&rest, 0, e);
            assert(name@ =~= rest@.take(e as int));
            Some(trimmed(&name))
        } else {
            assert(index_of_close2(rest@, e as int) == rest@.len());
            None
        }
    } else {
        let rest = slice(&t, 1, t.len());
        assert(rest@ =~= t@.skip(1));
        let e = find_char(&rest, ']', 0);
        if e < rest.len() {
            let name = slice(&rest, 0, e);
            assert(name@ =~= rest@.take(e as int));
            Some(trimmed(&name))
        } else {
            None
        }
    }
}

/// The group a table name spaces under: its first segment, or its first two where the first is
/// one of the multi-level prefixes. Segments are split at every dot, quoted or not.
pub open spec fn group_key(k: Seq<char>, prefixes: Seq<Seq<char>>) -> Seq<char> {
    let d1 = index_of(k, '.', 0);
    let first = k.take(d1);
    if d1 < k.len() && prefixes.contains(first) {
        let d2 = index_of(k, '.', d1 + 1);
        first + seq!['.'] + k.subrange(d1 + 1, d2)
    } else {
        first
    }
}

fn get_key(k: &Vec<char>, prefixes: &Vec<Vec<char>>) -> (r: Vec<char>)
    ensures
        r@ == group_key(k@, views(prefixes@)),
{
    proof {
        lemma_index_of(k@, '.', 0);
    }
    let d1 = find_char(k, '.', 0);
    let first = slice(k, 0, d1);
    assert(first@ =~= k@.take(d1 as int));
    if d1 < k.len() {
        let mut multi = false;
        let mut i: usize = 0;
        while i < prefixes.len()
            invariant
                i <= prefixes.len(),
                multi == exists|j: int| 0 <= j < i && #[trigger] views(prefixes@)[j] == first@,
            decreases prefixes.len() - i,
        {
            assert(views(prefixes@)[i as int] == prefixes@[i as int]@);
            let hit = same(&prefixes[i], &first);
            let ghost was = multi;
            if hit {
                multi = true;
            }
            i += 1;
            proof {
                if !was && !hit {
                    assert forall|j: int| 0 <= j < i implies #[trigger] views(prefixes@)[j]
                        != first@ by {
                        if j < i - 1 {
                            assert(!(exists|x: int|
                                0 <= x < i - 1 && #[trigger] views(prefixes@)[x] == first@));
                        }
                    }
                }
            }
        }
        proof {
            if multi {
                let j = choose|j: int| 0 <= j < i && #[trigger] views(prefixes@)[j] == first@;
                assert(views(prefixes@).contains(first@));
            } else {
                assert(!views(prefixes@).contains(first@));
            }
        }
        if multi {
            proof {
                lemma_index_of(k@, '.', d1 + 1);
            }
            let d2 = find_char(k, '.', d1 + 1);
            let mut out = first;
            out.push('.');
            push_all(&mut out, &slice(k, d1 + 1, d2));
            return out;
        }
    }
    first
}

/// Whether the line is a comment, which belongs to the table below it.
pub open spec fn comment_line(line: Seq<char>) -> bool {
    trim_start(line).len() > 0 && trim_start(line)[0] == '#'
}

/// Whether the line holds nothing but white space.
pub open spec fn blank_line(line: Seq<char>) -> bool {
    trim(line).len() == 0
}

/// The headers among the first `n` lines, each with where it stands, the group it spaces under,
/// and its name.
pub open spec fn headers_in(ls: Seq<Seq<char>>, prefixes: Seq<Seq<char>>, n: int) -> Seq<
    (int, Seq<char>, Seq<char>),
>
    decreases n,
{
    if n <= 0 {
        seq![]
    } else {
        let before = headers_in(ls, prefixes, n - 1);
        match header_of(ls[n - 1]) {
            Some(name) => before.push((n - 1, group_key(name, prefixes), name)),
            None => before,
        }
    }
}

/// Where the comments standing right above line `j`, and below line `lo`, start.
pub open spec fn comments_start(ls: Seq<Seq<char>>, lo: int, j: int) -> int
    decreases j - lo,
{
    if j > lo && comment_line(ls[j - 1]) {
        comments_start(ls, lo, j - 1)
    } else {
        j
    }
}

/// The gap two headers in turn ask for, and where it goes: none between two entries of one array
/// of tables, `sub` blank lines between tables of one group (none asked where `sub` is `None`),
/// and `root` between groups; the gap goes above the comments that lead the second table.
pub open spec fn gap_of(
    ls: Seq<Seq<char>>,
    prev: (int, Seq<char>, Seq<char>),
    cur: (int, Seq<char>, Seq<char>),
    root: nat,
    sub: Option<nat>,
) -> Option<(int, nat)> {
    if cur.2 == prev.2 {
        None
    } else if cur.1 == prev.1 {
        match sub {
            Some(b) => Some((comments_start(ls, prev.0 + 1, cur.0), b)),
            None => None,
        }
    } else {
        Some((comments_start(ls, prev.0 + 1, cur.0), root))
    }
}

/// The gap to write before each line, after the first `k` pairs of headers in turn have said
/// theirs: a later one says it over an earlier one.
pub open spec fn gaps_after(
    ls: Seq<Seq<char>>,
    hs: Seq<(int, Seq<char>, Seq<char>)>,
    root: nat,
    sub: Option<nat>,
    k: int,
) -> Seq<Option<nat>>
    decreases k,
{
    if k <= 0 {
        Seq::new(ls.len(), |i: int| None)
    } else {
        let before = gaps_after(ls, hs, root, sub, k - 1);
        match gap_of(ls, hs[k - 1], hs[k], root, sub) {
            Some((at, b)) => if 0 <= at < ls.len() {
                before.update(at, Some(b))
            } else {
                before
            },
            None => before,
        }
    }
}

proof fn lemma_gaps_len(
    ls: Seq<Seq<char>>,
    hs: Seq<(int, Seq<char>, Seq<char>)>,
    root: nat,
    sub: Option<nat>,
    k: int,
)
    ensures
        gaps_after(ls, hs, root, sub, k).len() == ls.len(),
    decreases k,
{
    if k > 0 {
        lemma_gaps_len(ls, hs, root, sub, k - 1);
    }
}

/// The lines with the blank ones closing them dropped.
pub open spec fn drop_blank_tail(s: Seq<Seq<char>>) -> Seq<Seq<char>>
    decreases s.len(),
{
    if s.len() > 0 && blank_line(s.last()) {
        drop_blank_tail(s.drop_last())
    } else {
        s
    }
}

/// The first `i` lines written out: where a gap goes before a line, the blank lines above it are
/// replaced by as many empty ones as the gap asks for.
pub open spec fn spaced(ls: Seq<Seq<char>>, gaps: Seq<Option<nat>>, i: int) -> Seq<Seq<char>>
    decreases i,
{
    if i <= 0 {
        seq![]
    } else {
        let prev = spaced(ls, gaps, i - 1);
        match gaps[i - 1] {
            Some(b) => (drop_blank_tail(prev) + Seq::new(b, |x: int| Seq::<char>::empty())).push(
                ls[i - 1],
            ),
            None => prev.push(ls[i - 1]),
        }
    }
}

/// The document with the gaps between its tables set again.
pub open spec fn table_spacing(
    content: Seq<char>,
    prefixes: Seq<Seq<char>>,
    root: nat,
    sub: Option<nat>,
) -> Seq<char> {
    let ls = lines_of(content);
    let hs = headers_in(ls, prefixes, ls.len() as int);
    let gaps = gaps_after(ls, hs, root, sub, hs.len() - 1);
    join(spaced(ls, gaps, ls.len() as int), seq!['\n']) + if content.len() > 0 && content.last()
        == '\n' {
        seq!['\n']
    } else {
        seq![]
    }
}

proof fn lemma_headers_in(ls: Seq<Seq<char>>, prefixes: Seq<Seq<char>>, n: int)
    requires
        0 <= n <= ls.len(),
    ensures
        headers_in(ls, prefixes, n).len() <= n,
        forall|k: int|
            0 <= k < headers_in(ls, prefixes, n).len() ==> 0 <= #[trigger] headers_in(
                ls,
                prefixes,
                n,
            )[k].0 < n,
        forall|k: int, m: int|
            0 <= k < m < headers_in(ls, prefixes, n).len() ==> #[trigger] headers_in(
                ls,
                prefixes,
                n,
            )[k].0 < #[trigger] headers_in(ls, prefixes, n)[m].0,
    decreases n,
{
    if n > 0 {
        lemma_headers_in(ls, prefixes, n - 1);
    }
}

proof fn lemma_comments_start(ls: Seq<Seq<char>>, lo: int, j: int)
    requires
        lo <= j,
    ensures
        lo <= comments_start(ls, lo, j) <= j,
    decreases j - lo,
{
    if j > lo && comment_line(ls[j - 1]) {
        lemma_comments_start(ls, lo, j - 1);
    }
}

fn is_comment_line(line: &Vec<char>) -> (r: bool)
    ensures
        r == comment_line(line@),
{
    let t = crate::text::trimmed_start(line);
    t.len() > 0 && t[0] == '#'
}

fn is_blank_line(line: &Vec<char>) -> (r: bool)
    ensures
        r == blank_line(line@),
{
    trimmed(line).len() == 0
}

/// Re-apply the spacing between tables: `root_spacing` blank lines between different groups and
/// `sub_spacing` between tables of one group, where each `\n` is one blank line. Pass
/// `sub_spacing` as `None` to leave gaps inside a group as they stand. Grouping follows
/// `multi_level_prefixes`.
#[verifier::loop_isolation(false)]
pub fn normalize_table_spacing(
    content: &str,
    multi_level_prefixes: &[&str],
    root_spacing: &str,
    sub_spacing: Option<&str>,
) -> (r: String)
    ensures
        r@ == table_spacing(
            content@,
            multi_level_prefixes@.map_values(|p: &str| p@),
            count_of(root_spacing@, '\n'),
            match sub_spacing {
                Some(s) => Some(count_of(s@, '\n')),
                None => None,
            },
        ),
{
    let ghost prefixes = multi_level_prefixes@.map_values(|p: &str| p@);
    let mut prefix_chars: Vec<Vec<char>> = Vec::new();
    let mut p: usize = 0;
    while p < multi_level_prefixes.len()
        invariant
            p <= multi_level_prefixes.len(),
            prefix_chars@.len() == p,
            forall|k: int| 0 <= k < p ==> #[trigger] prefix_chars@[k]@ == prefixes[k],
        decreases multi_level_prefixes.len() - p,
    {
        prefix_chars.push(chars_of(multi_level_prefixes[p]));
        p += 1;
    }
    assert(views(prefix_chars@) =~= prefixes);
    let root_blanks = count_char(&chars_of(root_spacing), '\n');
    let sub_blanks: Option<usize> = match sub_spacing {
        Some(s) => Some(count_char(&chars_of(s), '\n')),
        None => None,
    };
    let ghost root = root_blanks as nat;
    let ghost sub = match sub_spacing {
        Some(s) => Some(count_of(s@, '\n')),
        None => None,
    };
    let text = chars_of(content);
    let ls = lines(&text);
    let ghost lv = views(ls@);
    // the headers, with where each stands, its group and its name
    let mut hs_at: Vec<usize> = Vec::new();
    let mut hs_group: Vec<Vec<char>> = Vec::new();
    let mut hs_name: Vec<Vec<char>> = Vec::new();
    let mut i: usize = 0;
    while i < ls.len()
        invariant
            i <= ls.len(),
            lv == views(ls@),
            hs_at@.len() == hs_group@.len() == hs_name@.len() == headers_in(
                lv,
                prefixes,
                i as int,
            ).len(),
            forall|k: int|
                0 <= k < hs_at@.len() ==> (#[trigger] hs_at@[k] as int, hs_group@[k]@, hs_name@[k]@)
                    == headers_in(lv, prefixes, i as int)[k],
        decreases ls.len() - i,
    {
        assert(lv[i as int] == ls@[i as int]@);
        match header_name(&ls[i]) {
            Some(name) => {
                let group = get_key(&name, &prefix_chars);
                hs_at.push(i);
                hs_group.push(group);
                hs_name.push(name);
            },
            None => {},
        }
        i += 1;
    }
    proof {
        lemma_headers_in(lv, prefixes, lv.len() as int);
    }
    let ghost hs = headers_in(lv, prefixes, lv.len() as int);
    // the gap to write before each line
    let mut gaps: Vec<Option<usize>> = Vec::new();
    let mut g: usize = 0;
    while g < ls.len()
        invariant
            g <= ls.len(),
            gaps@.len() == g,
            forall|k: int| 0 <= k < g ==> #[trigger] gaps@[k] is None,
        decreases ls.len() - g,
    {
        gaps.push(None);
        g += 1;
    }
    let n = hs_at.len();
    let mut k: usize = 1;
    assert(gaps_after(lv, hs, root, sub, 0) =~= Seq::new(lv.len(), |i: int| None::<nat>));
    proof {
        lemma_gaps_len(lv, hs, root, sub, 0);
    }
    while k < n
        invariant
            1 <= k,
            k <= n || k == 1,
            n == hs.len(),
            gaps@.len() == lv.len(),
            forall|x: int|
                0 <= x < lv.len() ==> match (#[trigger] gaps@[x], gaps_after(
                    lv,
                    hs,
                    root,
                    sub,
                    k - 1,
                )[x]) {
                    (Some(a), Some(b)) => a as nat == b,
                    (None, None) => true,
                    _ => false,
                },
            gaps_after(lv, hs, root, sub, k - 1).len() == lv.len(),
        decreases n - k,
    {
        let prev_at = hs_at[k - 1];
        let cur_at = hs_at[k];
        assert(hs[k as int - 1].0 < hs[k as int].0);
        let same_name = same(&hs_name[k], &hs_name[k - 1]);
        let same_group = same(&hs_group[k], &hs_group[k - 1]);
        let blanks: Option<usize> = if same_name {
            None
        } else if same_group {
            sub_blanks
        } else {
            Some(root_blanks)
        };
        let ghost before = gaps_after(lv, hs, root, sub, k - 1);
        match blanks {
            Some(b) => {
                // leading comments belong to the following table, so the gap sits above them
                let mut start = cur_at;
                proof {
                    lemma_comments_start(lv, prev_at + 1, cur_at as int);
                }
                while start > prev_at + 1 && is_comment_line(&ls[start - 1])
                    invariant
                        prev_at + 1 <= start <= cur_at < ls.len(),
                        lv == views(ls@),
                        comments_start(lv, prev_at + 1, cur_at as int) == comments_start(
                            lv,
                            prev_at + 1,
                            start as int,
                        ),
                    decreases start,
                {
                    assert(lv[start - 1] == ls@[start - 1]@);
                    start -= 1;
                }
                assert(start > prev_at + 1 ==> lv[start - 1] == ls@[start - 1]@);
                gaps.set(start, Some(b));
            },
            None => {},
        }
        k += 1;
    }
    proof {
        if n == 0 {
            assert(hs.len() - 1 == -1);
        }
    }
    let ghost gv = gaps_after(lv, hs, root, sub, hs.len() - 1);
    proof {
        lemma_gaps_len(lv, hs, root, sub, hs.len() - 1);
        if n == 0 {
            assert(gv =~= gaps_after(lv, hs, root, sub, 0));
        }
    }
    // the lines written out, with each gap set
    let mut out: Vec<Vec<char>> = Vec::new();
    let mut j: usize = 0;
    assert(views(out@) =~= spaced(lv, gv, 0));
    while j < ls.len()
        invariant
            j <= ls.len(),
            lv == views(ls@),
            gv.len() == lv.len(),
            gaps@.len() == lv.len(),
            forall|x: int|
                0 <= x < lv.len() ==> match (#[trigger] gaps@[x], gv[x]) {
                    (Some(a), Some(b)) => a as nat == b,
                    (None, None) => true,
                    _ => false,
                },
            views(out@) == spaced(lv, gv, j as int),
        decreases ls.len() - j,
    {
        let ghost x = j as int;
        match gaps[j] {
            Some(b) => {
                let ghost trimmed_start = views(out@);
                while out.len() > 0 && is_blank_line(&out[out.len() - 1])
                    invariant
                        drop_blank_tail(views(out@)) == drop_blank_tail(trimmed_start),
                    decreases out.len(),
                {
                    let ghost before = views(out@);
                    assert(before.last() == out@[out@.len() - 1]@);
                    out.pop();
                    assert(views(out@) =~= before.drop_last());
                }
                assert(drop_blank_tail(views(out@)) == views(out@)) by {
                    if out@.len() > 0 {
                        assert(views(out@).last() == out@[out@.len() - 1]@);
                    }
                }
                let ghost base = views(out@);
                let mut m: usize = 0;
                while m < b
                    invariant
                        m <= b,
                        views(out@) == base + Seq::new(m as nat, |y: int| Seq::<char>::empty()),
                    decreases b - m,
                {
                    let ghost grown = views(out@);
                    out.push(Vec::new());
                    assert(views(out@) =~= grown.push(Seq::<char>::empty()));
                    m += 1;
                    assert(views(out@) =~= base + Seq::new(m as nat, |y: int| Seq::<char>::empty()));
                }
            },
            None => {},
        }
        let line = slice(&ls[j], 0, ls[j].len());
        assert(line@ =~= lv[x]);
        let ghost before = views(out@);
        out.push(line);
        assert(views(out@) =~= before.push(lv[x]));
        j += 1;
    }
    let newline = vec!['\n'];
    assert(newline@ =~= seq!['\n']);
    let mut written = joined(&out, &newline);
    if text.len() > 0 && text[text.len() - 1] == '\n' {
        written.push('\n');
    } else {
        assert(written@ =~= written@ + Seq::<char>::empty());
    }
    string_of(&written)
}

/// An inline table is recognized by a key only it carries, which then fixes the order of the rest.
pub struct InlineTableSchema {
    pub discriminator: &'static str,
    pub key_order: &'static [&'static str],
}

/// The first schema from `k` on whose discriminator is among the keys.
pub open spec fn schema_from(keys: Seq<Seq<char>>, discs: Seq<Seq<char>>, k: int) -> Option<int>
    decreases discs.len() - k,
{
    if k < 0 || k >= discs.len() {
        None
    } else if keys.contains(discs[k]) {
        Some(k)
    } else {
        schema_from(keys, discs, k + 1)
    }
}

/// The key order of the first schema whose discriminator the keys hold.
pub fn detect_schema<'a>(keys: &[String], schemas: &'a [InlineTableSchema]) -> (r: Option<
    &'a [&'static str],
>)
    ensures
        match (
            r,
            schema_from(
                keys@.map_values(|k: String| k@),
                schemas@.map_values(|s: InlineTableSchema| s.discriminator@),
                0,
            ),
        ) {
            (Some(o), Some(k)) => o == schemas@[k].key_order,
            (None, None) => true,
            _ => false,
        },
{
    let ghost kv = keys@.map_values(|k: String| k@);
    let ghost dv = schemas@.map_values(|s: InlineTableSchema| s.discriminator@);
    let mut k: usize = 0;
    while k < schemas.len()
        invariant
            k <= schemas@.len(),
            kv == keys@.map_values(|k: String| k@),
            dv == schemas@.map_values(|s: InlineTableSchema| s.discriminator@),
            schema_from(kv, dv, 0) == schema_from(kv, dv, k as int),
        decreases schemas.len() - k,
    {
        let d = chars_of(schemas[k].discriminator);
        assert(dv[k as int] == d@);
        let mut found = false;
        let mut j: usize = 0;
        while j < keys.len()
            invariant
                j <= keys@.len(),
                kv == keys@.map_values(|k: String| k@),
                found == exists|x: int| 0 <= x < j && #[trigger] kv[x] == d@,
            decreases keys.len() - j,
        {
            assert(kv[j as int] == keys@[j as int]@);
            if same(&chars_of(keys[j].as_str()), &d) {
                found = true;
            }
            j += 1;
        }
        if found {
            return Some(schemas[k].key_order);
        }
        k += 1;
    }
    None
}

/// The parents a table name passes through, from its own parent up, while they stand deeper than
/// `prefix_dots`; `None` where a name on the way has no dot to split at.
pub open spec fn parents_of(cur: Seq<char>, prefix_dots: nat) -> Option<Seq<Seq<char>>>
    decreases cur.len(),
{
    let d = last_dot_below(cur, cur.len() as int);
    if d < 0 {
        None
    } else {
        let parent = cur.take(d);
        if dots_before(parent, parent.len() as int) <= prefix_dots {
            Some(seq![])
        } else {
            proof {
                lemma_last_dot(cur, cur.len() as int);
            }
            match parents_of(parent, prefix_dots) {
                Some(ps) => Some(seq![parent] + ps),
                None => None,
            }
        }
    }
}

/// The names with each of `more` added in turn where it is not there yet.
pub open spec fn add_new(names: Seq<Seq<char>>, more: Seq<Seq<char>>) -> Seq<Seq<char>>
    decreases more.len(),
{
    if more.len() == 0 {
        names
    } else {
        add_new(
            if names.contains(more[0]) {
                names
            } else {
                names.push(more[0])
            },
            more.drop_first(),
        )
    }
}

/// Add every parent between the table and the prefix it was found under that the list does not
/// hold yet, from the closest up.
pub fn add_intermediate_parents(table_name: &str, prefix_dots: usize, result: &mut Vec<String>)
    requires
        parents_of(table_name@, prefix_dots as nat) is Some,
    ensures
        final(result)@.map_values(|x: String| x@) == add_new(
            old(result)@.map_values(|x: String| x@),
            parents_of(table_name@, prefix_dots as nat)->0,
        ),
{
    let mut current = chars_of(table_name);
    let ghost all = parents_of(table_name@, prefix_dots as nat)->0;
    loop
        invariant
            all == parents_of(table_name@, prefix_dots as nat)->0,
            parents_of(current@, prefix_dots as nat) is Some,
            add_new(old(result)@.map_values(|x: String| x@), all) == add_new(
                result@.map_values(|x: String| x@),
                parents_of(current@, prefix_dots as nat)->0,
            ),
        decreases current@.len(),
    {
        let ghost before = result@.map_values(|x: String| x@);
        let (parent, _) = split_table_name(string_of(&current).as_str());
        let pc = chars_of(parent.as_str());
        proof {
            lemma_last_dot(current@, current@.len() as int);
        }
        if count_unquoted_dots(parent.as_str()) <= prefix_dots {
            assert(parents_of(current@, prefix_dots as nat)->0 =~= Seq::<Seq<char>>::empty());
            assert(add_new(before, Seq::<Seq<char>>::empty()) == before);
            return;
        }
        let mut held = false;
        let mut j: usize = 0;
        while j < result.len()
            invariant
                j <= result@.len(),
                before == result@.map_values(|x: String| x@),
                held == exists|x: int| 0 <= x < j && #[trigger] before[x] == pc@,
            decreases result.len() - j,
        {
            assert(before[j as int] == result@[j as int]@);
            if same(&chars_of(result[j].as_str()), &pc) {
                held = true;
            }
            j += 1;
        }
        let ghost rest = parents_of(pc@, prefix_dots as nat)->0;
        assert(parents_of(current@, prefix_dots as nat)->0 == seq![pc@] + rest);
        assert((seq![pc@] + rest).drop_first() =~= rest);
        if !held {
            result.push(string_of(&pc));
            assert(result@.map_values(|x: String| x@) =~= before.push(pc@));
        }
        current = pc;
    }
}

/// One key-value of an inline table together with the comments bound to it: `leading` holds
/// own-line comments that sit before the key, `trailing` the same-line comment after its comma.
pub struct InlineEntry {
    pub key: String,
    pub text: String,
    pub leading: Vec<String>,
    pub trailing: Option<String>,
}

/// Whether the entry carries no comment.
pub open spec fn bare(e: InlineEntry) -> bool {
    e.leading@.len() == 0 && e.trailing is None
}

/// The lines one entry takes in the multi-line form: each leading comment on a line of its own,
/// then `key = value`, a comma unless it is the last, and its trailing comment.
pub open spec fn entry_lines(e: InlineEntry, last: bool) -> Seq<char> {
    join(e.leading@.map_values(|c: String| seq![' ', ' '] + c@ + seq!['\n']), Seq::empty())
        + seq![' ', ' '] + e.text@ + (if last {
        Seq::<char>::empty()
    } else {
        seq![',']
    }) + match e.trailing {
        Some(t) => seq![' '] + t@,
        None => Seq::<char>::empty(),
    } + seq!['\n']
}

/// The inline table written back: on one line where no entry carries a comment, and one entry
/// after another over lines otherwise, the only shape that can carry a comment inside an inline
/// table.
pub open spec fn inline_text(es: Seq<InlineEntry>) -> Seq<char> {
    if forall|k: int| 0 <= k < es.len() ==> bare(#[trigger] es[k]) {
        seq!['_', 'x', ' ', '=', ' ', '{', ' '] + join(
            es.map_values(|e: InlineEntry| e.text@),
            seq![',', ' '],
        ) + seq![' ', '}', '\n']
    } else {
        seq!['_', 'x', ' ', '=', ' ', '{', '\n'] + join(
            Seq::new(es.len(), |k: int| entry_lines(es[k], k + 1 == es.len())),
            Seq::empty(),
        ) + seq!['}', '\n']
    }
}

proof fn lemma_join_push(pieces: Seq<Seq<char>>, more: Seq<char>)
    ensures
        join(pieces.push(more), Seq::empty()) == join(pieces, Seq::empty()) + more,
{
    assert(pieces.push(more).drop_last() =~= pieces);
    if pieces.len() == 0 {
        assert(join(pieces.push(more), Seq::empty()) =~= join(pieces, Seq::empty()) + more);
    } else {
        assert(join(pieces.push(more), Seq::empty()) =~= join(pieces, Seq::empty()) + Seq::empty()
            + more);
    }
}

fn lines_of_entry(e: &InlineEntry, last: bool) -> (r: Vec<char>)
    ensures
        r@ == entry_lines(*e, last),
{
    let mut out: Vec<char> = Vec::new();
    let ghost cs = e.leading@.map_values(|c: String| seq![' ', ' '] + c@ + seq!['\n']);
    let mut k: usize = 0;
    assert(cs.take(0) =~= Seq::<Seq<char>>::empty());
    while k < e.leading.len()
        invariant
            k <= e.leading@.len(),
            cs == e.leading@.map_values(|c: String| seq![' ', ' '] + c@ + seq!['\n']),
            out@ == join(cs.take(k as int), Seq::empty()),
        decreases e.leading.len() - k,
    {
        proof {
            assert(cs.take(k + 1) =~= cs.take(k as int).push(cs[k as int]));
            lemma_join_push(cs.take(k as int), cs[k as int]);
        }
        out.push(' ');
        out.push(' ');
        push_all(&mut out, &chars_of(e.leading[k].as_str()));
        out.push('\n');
        k += 1;
    }
    assert(cs.take(k as int) =~= cs);
    out.push(' ');
    out.push(' ');
    push_all(&mut out, &chars_of(e.text.as_str()));
    if !last {
        out.push(',');
    }
    match &e.trailing {
        Some(t) => {
            out.push(' ');
            push_all(&mut out, &chars_of(t.as_str()));
        },
        None => {},
    }
    out.push('\n');
    assert(out@ =~= entry_lines(*e, last));
    out
}

/// Render the reordered entries back into inline-table source. With no comments the compact
/// single-line form is kept; any comment forces the multi-line form, the only shape that can
/// carry a comment inside an inline table.
pub fn build_inline_table_text(entries: &[&InlineEntry]) -> (r: String)
    ensures
        r@ == inline_text(entries@.map_values(|e: &InlineEntry| *e)),
{
    let ghost es = entries@.map_values(|e: &InlineEntry| *e);
    let n = entries.len();
    let mut all_bare = true;
    let mut k: usize = 0;
    while k < n
        invariant
            k <= n == entries@.len(),
            es == entries@.map_values(|e: &InlineEntry| *e),
            all_bare == forall|j: int| 0 <= j < k ==> bare(#[trigger] es[j]),
        decreases n - k,
    {
        assert(es[k as int] == *entries@[k as int]);
        if !(entries[k].leading.len() == 0 && entries[k].trailing.is_none()) {
            all_bare = false;
        }
        k += 1;
    }
    if all_bare {
        let mut texts: Vec<Vec<char>> = Vec::new();
        let mut j: usize = 0;
        while j < n
            invariant
                j <= n == entries@.len(),
                es == entries@.map_values(|e: &InlineEntry| *e),
                texts@.len() == j,
                forall|x: int| 0 <= x < j ==> #[trigger] texts@[x]@ == es[x].text@,
            decreases n - j,
        {
            assert(es[j as int] == *entries@[j as int]);
            texts.push(chars_of(entries[j].text.as_str()));
            j += 1;
        }
        assert(views(texts@) =~= es.map_values(|e: InlineEntry| e.text@));
        let sep = vec![',', ' '];
        assert(sep@ =~= seq![',', ' ']);
        let body = joined(&texts, &sep);
        let mut out: Vec<char> = vec!['_', 'x', ' ', '=', ' ', '{', ' '];
        push_all(&mut out, &body);
        out.push(' ');
        out.push('}');
        out.push('\n');
        assert(out@ =~= inline_text(es));
        return string_of(&out);
    }
    let ghost parts = Seq::new(es.len(), |x: int| entry_lines(es[x], x + 1 == es.len()));
    let mut body: Vec<char> = Vec::new();
    let mut j: usize = 0;
    assert(parts.take(0) =~= Seq::<Seq<char>>::empty());
    while j < n
        invariant
            j <= n == entries@.len(),
            es == entries@.map_values(|e: &InlineEntry| *e),
            parts == Seq::new(es.len(), |x: int| entry_lines(es[x], x + 1 == es.len())),
            body@ == join(parts.take(j as int), Seq::empty()),
        decreases n - j,
    {
        assert(es[j as int] == *entries@[j as int]);
        let more = lines_of_entry(entries[j], j + 1 == n);
        proof {
            assert(parts.take(j + 1) =~= parts.take(j as int).push(parts[j as int]));
            lemma_join_push(parts.take(j as int), parts[j as int]);
        }
        push_all(&mut body, &more);
        j += 1;
    }
    assert(parts.take(j as int) =~= parts);
    let mut out: Vec<char> = vec!['_', 'x', ' ', '=', ' ', '{', '\n'];
    push_all(&mut out, &body);
    out.push('}');
    out.push('\n');
    assert(out@ =~= inline_text(es));
    string_of(&out)
}


/// A name split at its last dot outside quotes joins back, with that dot, into the name it was.
pub proof fn lemma_split_joins(full: Seq<char>)
    requires
        last_dot_below(full, full.len() as int) >= 0,
    ensures
        ({
            let d = last_dot_below(full, full.len() as int);
            full.take(d) + seq!['.'] + full.skip(d + 1) == full
        }),
{
    lemma_last_dot(full, full.len() as int);
    let d = last_dot_below(full, full.len() as int);
    assert(full.take(d) + seq!['.'] + full.skip(d + 1) =~= full);
}

/// Whether a character stands inside quotes reads the same counted from either end, once the
/// text closes every quote it opens.
proof fn lemma_parity_ends(s: Seq<char>, j: int)
    requires
        0 <= j <= s.len(),
    ensures
        (quote_parity(s, j) != back_parity(s, j)) == quote_parity(s, s.len() as int),
    decreases s.len() - j,
{
    if j < s.len() {
        lemma_parity_ends(s, j + 1);
    }
}

/// The parity of the quotes before `n` is that of their count.
proof fn lemma_parity_count(s: Seq<char>, n: int)
    requires
        0 <= n <= s.len(),
    ensures
        quote_parity(s, n) == (count_of(s.take(n), '"') % 2 == 1),
    decreases n,
{
    if n > 0 {
        lemma_parity_count(s, n - 1);
        assert(s.take(n).drop_last() =~= s.take(n - 1));
        assert(s.take(n).last() == s[n - 1]);
    }
}

/// In a text of balanced quotes the last dot outside quotes below `j` is the one the split finds,
/// and no dot outside quotes stands between it and `j`.
proof fn lemma_last_unquoted(s: Seq<char>, j: int)
    requires
        !quote_parity(s, s.len() as int),
        0 <= j <= s.len(),
    ensures
        last_dot_below(s, j) >= 0 ==> unquoted_dot(s, last_dot_below(s, j)),
        dots_before(s, j) == dots_before(s, last_dot_below(s, j) + 1),
        forall|k: int| last_dot_below(s, j) < k < j ==> !#[trigger] unquoted_dot(s, k),
    decreases j,
{
    if j > 0 {
        lemma_parity_ends(s, j);
        assert((s[j - 1] == '.' && !back_parity(s, j)) == unquoted_dot(s, j - 1));
        if !(s[j - 1] == '.' && !back_parity(s, j)) {
            lemma_last_unquoted(s, j - 1);
        }
    }
}

/// The quotes before a position of a prefix are those before it in the text.
proof fn lemma_prefix_dots(s: Seq<char>, d: int, n: int)
    requires
        0 <= n <= d <= s.len(),
    ensures
        dots_before(s.take(d), n) == dots_before(s, n),
        quote_parity(s.take(d), n) == quote_parity(s, n),
    decreases n,
{
    if n > 0 {
        lemma_prefix_dots(s, d, n - 1);
        assert(s.take(d)[n - 1] == s[n - 1]);
    }
}

/// A suffix that starts outside quotes reads each position inside or outside them as the text does.
proof fn lemma_suffix_parity(s: Seq<char>, a: int, k: int)
    requires
        0 <= a <= s.len(),
        0 <= k <= s.len() - a,
        !quote_parity(s, a),
    ensures
        quote_parity(s.skip(a), k) == quote_parity(s, a + k),
    decreases k,
{
    if k > 0 {
        lemma_suffix_parity(s, a, k - 1);
        assert(s.skip(a)[k - 1] == s[a + k - 1]);
    }
}

proof fn lemma_suffix_no_dots(s: Seq<char>, a: int, m: int)
    requires
        0 <= a <= s.len(),
        0 <= m <= s.len() - a,
        !quote_parity(s, a),
        forall|k: int| a <= k < s.len() ==> !#[trigger] unquoted_dot(s, k),
    ensures
        dots_before(s.skip(a), m) == 0,
    decreases m,
{
    if m > 0 {
        lemma_suffix_no_dots(s, a, m - 1);
        lemma_suffix_parity(s, a, m - 1);
        assert(s.skip(a)[m - 1] == s[a + m - 1]);
        assert(!unquoted_dot(s, a + m - 1));
    }
}

/// A name whose quotes all close and that holds a dot outside them has a last such dot, which is
/// where [`split_table_name`] splits it: the leaf holds no dot outside quotes, and the parent holds
/// one fewer than the name.
pub proof fn lemma_split_counts(full: Seq<char>)
    requires
        count_of(full, '"') % 2 == 0,
        dots_before(full, full.len() as int) >= 1,
    ensures
        last_dot_below(full, full.len() as int) >= 0,
        ({
            let d = last_dot_below(full, full.len() as int);
            &&& dots_before(full.skip(d + 1), full.len() - d - 1) == 0
            &&& dots_before(full.take(d), d) + 1 == dots_before(full, full.len() as int)
        }),
{
    let n = full.len() as int;
    lemma_parity_count(full, n);
    assert(full.take(n) =~= full);
    lemma_last_unquoted(full, n);
    lemma_last_dot(full, n);
    let d = last_dot_below(full, n);
    assert(d >= 0);
    lemma_prefix_dots(full, d, d);
    assert(!quote_parity(full, d + 1));
    lemma_suffix_no_dots(full, d + 1, n - d - 1);
}

proof fn lemma_dot_at(k: Seq<char>, from: int, d: int)
    requires
        0 <= from <= d <= k.len(),
        forall|i: int| from <= i < d ==> #[trigger] k[i] != '.',
        d == k.len() || k[d] == '.',
    ensures
        crate::text::index_of(k, '.', from) == d,
{
    crate::text::lemma_index_of(k, '.', from);
}

/// A table name whose first segment is no multi-level prefix, or that has one segment, spaces under
/// its first segment: the text before its first dot.
pub proof fn lemma_group_key_first(k: Seq<char>, prefixes: Seq<Seq<char>>, d: int)
    requires
        0 <= d <= k.len(),
        forall|i: int| 0 <= i < d ==> #[trigger] k[i] != '.',
        d == k.len() || k[d] == '.',
        d == k.len() || !prefixes.contains(k.take(d)),
    ensures
        group_key(k, prefixes) == k.take(d),
{
    lemma_dot_at(k, 0, d);
}

/// A table name whose first segment is a multi-level prefix and that has a second spaces under its
/// first two segments: the text before its second dot, or all of it where it has no second.
pub proof fn lemma_group_key_two(k: Seq<char>, prefixes: Seq<Seq<char>>, d: int, d2: int)
    requires
        0 <= d < d2 <= k.len(),
        forall|i: int| 0 <= i < d ==> #[trigger] k[i] != '.',
        k[d] == '.',
        prefixes.contains(k.take(d)),
        forall|i: int| d < i < d2 ==> #[trigger] k[i] != '.',
        d2 == k.len() || k[d2] == '.',
    ensures
        group_key(k, prefixes) == k.take(d2),
{
    lemma_dot_at(k, 0, d);
    lemma_dot_at(k, d + 1, d2);
    assert(k.take(d) + seq!['.'] + k.subrange(d + 1, d2) =~= k.take(d2));
}

} // verus!
