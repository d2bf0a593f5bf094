//! Names of tables and keys: a configured name read as the segments of a TOML key path, and where a
//! key sits in an order that names some of them.

use vstd::prelude::*;
use crate::text::{
    chars_of, is_written_at, lit, slice, split, split_on, string_of, written_at, lex_le, lex_le_exec,
    same, lemma_lex_total, lemma_lex_antisym, lemma_lex_trans,
};

verus! {

/// Whether the character may stand in a bare key.
pub open spec fn bare_char(c: char) -> bool {
    ('A' <= c && c <= 'Z') || ('a' <= c && c <= 'z') || ('0' <= c && c <= '9') || c == '-' || c
        == '_'
}

/// Where the run of spaces and tabs from `i` on ends.
pub open spec fn blank_end(s: Seq<char>, i: int) -> int
    decreases s.len() - i,
{
    if 0 <= i < s.len() && (s[i] == ' ' || s[i] == '\t') {
        blank_end(s, i + 1)
    } else {
        i
    }
}

/// Where the run of bare-key characters from `i` on ends.
pub open spec fn bare_end(s: Seq<char>, i: int) -> int
    decreases s.len() - i,
{
    if 0 <= i < s.len() && bare_char(s[i]) {
        bare_end(s, i + 1)
    } else {
        i
    }
}

/// Whether the character may stand as it is inside a literal string: anything but a control
/// character, a tab aside, and the `'` that closes it.
pub open spec fn literal_char(c: char) -> bool {
    c == '\t' || ((' ' <= c && c <= '~') && c != '\'') || (c as u32) >= 0x80
}

/// Whether the character may stand as it is inside a basic string: anything but a control
/// character, a tab aside, the `"` that closes it and the `\` that opens an escape.
pub open spec fn basic_char(c: char) -> bool {
    c == '\t' || ((' ' <= c && c <= '~') && c != '"' && c != '\\') || (c as u32) >= 0x80
}

/// The value of a hex digit.
pub open spec fn hex_value(c: char) -> Option<u32> {
    if '0' <= c && c <= '9' {
        Some((c as u32 - '0' as u32) as u32)
    } else if 'a' <= c && c <= 'f' {
        Some((c as u32 - 'a' as u32 + 10) as u32)
    } else if 'A' <= c && c <= 'F' {
        Some((c as u32 - 'A' as u32 + 10) as u32)
    } else {
        None
    }
}

/// The number the `n` hex digits from `i` on spell, each a hex digit.
pub open spec fn hex_number(s: Seq<char>, i: int, n: int) -> Option<int>
    decreases n,
{
    if n <= 0 {
        Some(0)
    } else if i + n > s.len() || i < 0 {
        None
    } else {
        match (hex_number(s, i, n - 1), hex_value(s[i + n - 1])) {
            (Some(v), Some(d)) => Some(v * 16 + d),
            _ => None,
        }
    }
}

/// Whether the number names a Unicode scalar value, which is what a `char` holds.
pub open spec fn scalar(v: int) -> bool {
    0 <= v <= 0x10FFFF && !(0xD800 <= v <= 0xDFFF)
}

/// The character an escape stands for, read from the `\` at `i`, with where the escape ends.
pub open spec fn escape_at(s: Seq<char>, i: int) -> Option<(char, int)> {
    if i + 1 >= s.len() || i < 0 {
        None
    } else {
        let e = s[i + 1];
        if e == 'b' {
            Some(('\u{8}', i + 2))
        } else if e == 't' {
            Some(('\t', i + 2))
        } else if e == 'n' {
            Some(('\n', i + 2))
        } else if e == 'f' {
            Some(('\u{c}', i + 2))
        } else if e == 'r' {
            Some(('\r', i + 2))
        } else if e == '"' {
            Some(('"', i + 2))
        } else if e == '\\' {
            Some(('\\', i + 2))
        } else if e == 'u' || e == 'U' {
            let n: int = if e == 'u' {
                4
            } else {
                8
            };
            match hex_number(s, i + 2, n) {
                Some(v) => if scalar(v) {
                    Some(((v as u32) as char, i + 2 + n))
                } else {
                    None
                },
                None => None,
            }
        } else {
            None
        }
    }
}

/// The text of a basic string read from `i` on, after its opening `"`, with where its closing `"`
/// ends; `acc` is what was read before `i`.
pub open spec fn basic_from(s: Seq<char>, i: int, acc: Seq<char>) -> Option<(Seq<char>, int)>
    decreases s.len() - i,
{
    if i < 0 || i >= s.len() {
        None
    } else if s[i] == '"' {
        Some((acc, i + 1))
    } else if s[i] == '\\' {
        match escape_at(s, i) {
            Some((c, j)) => if i < j {
                basic_from(s, j, acc.push(c))
            } else {
                None
            },
            None => None,
        }
    } else if basic_char(s[i]) {
        basic_from(s, i + 1, acc.push(s[i]))
    } else {
        None
    }
}

/// The text of a literal string read from `i` on, after its opening `'`, with where its closing
/// `'` ends.
pub open spec fn literal_from(s: Seq<char>, i: int, acc: Seq<char>) -> Option<(Seq<char>, int)>
    decreases s.len() - i,
{
    if i < 0 || i >= s.len() {
        None
    } else if s[i] == '\'' {
        Some((acc, i + 1))
    } else if literal_char(s[i]) {
        literal_from(s, i + 1, acc.push(s[i]))
    } else {
        None
    }
}

/// One segment of a key read from `i` on: bare, a basic string or a literal string; with where it
/// ends.
pub open spec fn segment_at(s: Seq<char>, i: int) -> Option<(Seq<char>, int)> {
    if i < 0 || i >= s.len() {
        None
    } else if s[i] == '"' {
        basic_from(s, i + 1, seq![])
    } else if s[i] == '\'' {
        literal_from(s, i + 1, seq![])
    } else if bare_end(s, i) > i {
        Some((s.subrange(i, bare_end(s, i)), bare_end(s, i)))
    } else {
        None
    }
}

/// The segments of the key path written from `i` on to the end, after the segments `acc`; spaces
/// and tabs may stand around each dot and at the end.
pub open spec fn segments_from(s: Seq<char>, i: int, acc: Seq<Seq<char>>) -> Option<
    Seq<Seq<char>>,
>
    decreases s.len() - i,
{
    match segment_at(s, i) {
        Some((seg, j)) => {
            let k = blank_end(s, j);
            if k >= s.len() {
                Some(acc.push(seg))
            } else if s[k] == '.' {
                proof {
                    if 0 <= i < s.len() {
                        lemma_segment_ends(s, i);
                        lemma_blank_end(s, j);
                        if 0 <= k {
                            lemma_blank_end(s, k + 1);
                        }
                    }
                }
                segments_from(s, blank_end(s, k + 1), acc.push(seg))
            } else {
                None
            }
        },
        None => None,
    }
}

/// The segments the text names read as a TOML key path, spaces and tabs allowed around it; `None`
/// where the text is not one.
pub open spec fn key_path(s: Seq<char>) -> Option<Seq<Seq<char>>> {
    segments_from(s, blank_end(s, 0), seq![])
}

/// `char::from_u32`: the character whose scalar value the number is, which the number names
/// exactly when it is no surrogate and at most `0x10FFFF`.
#[verifier::external_body]
fn char_from(v: u32) -> (r: Option<char>)
    ensures
        match r {
            Some(c) => c as u32 == v && scalar(v as int),
            None => !scalar(v as int),
        },
{
    char::from_u32(v)
}

pub proof fn lemma_blank_end(s: Seq<char>, i: int)
    requires
        0 <= i <= s.len(),
    ensures
        i <= blank_end(s, i) <= s.len(),
    decreases s.len() - i,
{
    if i < s.len() && (s[i] == ' ' || s[i] == '\t') {
        lemma_blank_end(s, i + 1);
    }
}

pub proof fn lemma_bare_end(s: Seq<char>, i: int)
    requires
        0 <= i <= s.len(),
    ensures
        i <= bare_end(s, i) <= s.len(),
    decreases s.len() - i,
{
    if i < s.len() && bare_char(s[i]) {
        lemma_bare_end(s, i + 1);
    }
}

fn blank_end_at(s: &Vec<char>, i: usize) -> (r: usize)
    requires
        i <= s.len(),
    ensures
        r == blank_end(s@, i as int),
        i <= r <= s.len(),
{
    proof {
        lemma_blank_end(s@, i as int);
    }
    let mut j = i;
    while j < s.len() && (s[j] == ' ' || s[j] == '\t')
        invariant
            i <= j <= s.len(),
            blank_end(s@, i as int) == blank_end(s@, j as int),
        decreases s.len() - j,
    {
        j += 1;
    }
    j
}

fn hex_digit(c: char) -> (r: Option<u32>)
    ensures
        r == hex_value(c),
{
    if '0' <= c && c <= '9' {
        Some(c as u32 - '0' as u32)
    } else if 'a' <= c && c <= 'f' {
        Some(c as u32 - 'a' as u32 + 10)
    } else if 'A' <= c && c <= 'F' {
        Some(c as u32 - 'A' as u32 + 10)
    } else {
        None
    }
}

/// Sixteen to the `n`th.
pub open spec fn hex_cap(n: int) -> int
    decreases n,
{
    if n <= 0 {
        1
    } else {
        16 * hex_cap(n - 1)
    }
}

proof fn lemma_hex_cap(a: int, b: int)
    requires
        0 <= a <= b,
    ensures
        1 <= hex_cap(a) <= hex_cap(b),
    decreases b,
{
    if a < b {
        lemma_hex_cap(a, b - 1);
    } else if a > 0 {
        lemma_hex_cap(a - 1, a - 1);
    }
}

proof fn lemma_hex_bound(s: Seq<char>, i: int, n: int)
    requires
        0 <= n,
    ensures
        match hex_number(s, i, n) {
            Some(v) => 0 <= v < hex_cap(n),
            None => true,
        },
    decreases n,
{
    if n > 0 {
        lemma_hex_bound(s, i, n - 1);
        match (hex_number(s, i, n - 1), hex_value(s[i + n - 1])) {
            (Some(v), Some(d)) => {
                let p = hex_cap(n - 1);
                assert(v * 16 + d < p * 16) by (nonlinear_arith)
                    requires
                        0 <= v < p,
                        0 <= d < 16,
                ;
            },
            _ => {},
        }
    }
}

/// The number the `n` hex digits from `i` on spell, `n` being at most eight.
fn hex_at(s: &Vec<char>, i: usize, n: usize) -> (r: Option<u32>)
    requires
        n <= 8,
    ensures
        match (r, hex_number(s@, i as int, n as int)) {
            (Some(a), Some(b)) => a == b,
            (None, None) => true,
            _ => false,
        },
{
    if n == 0 {
        return Some(0);
    }
    if i > s.len() || n > s.len() - i {
        return None;
    }
    let mut v: u32 = 0;
    let mut k: usize = 0;
    while k < n
        invariant
            k <= n <= 8,
            i + n <= s.len(),
            hex_number(s@, i as int, k as int) == Some(v as int),
            v < hex_cap(k as int),
        decreases n - k,
    {
        let d = match hex_digit(s[i + k]) {
            Some(d) => d,
            None => {
                proof {
                    lemma_hex_none(s@, i as int, k + 1, n as int);
                }
                return None;
            },
        };
        proof {
            lemma_hex_bound(s@, i as int, k + 1);
            lemma_hex_cap(k + 1, 8);
            reveal_with_fuel(hex_cap, 9);
            assert(hex_cap(8) == 0x1_0000_0000);
            assert(hex_number(s@, i as int, k + 1) == Some(v * 16 + d));
        }
        v = v * 16 + d;
        k += 1;
    }
    Some(v)
}

proof fn lemma_hex_none(s: Seq<char>, i: int, k: int, n: int)
    requires
        0 < k <= n,
        hex_number(s, i, k) is None,
    ensures
        hex_number(s, i, n) is None,
    decreases n - k,
{
    if k < n {
        lemma_hex_none(s, i, k + 1, n);
    }
}

/// What a quoted segment says, read from its opening quote at `i`, with where it ends.
fn quoted_at(s: &Vec<char>, i: usize) -> (r: Option<(Vec<char>, usize)>)
    requires
        i < s.len(),
        s@[i as int] == '"' || s@[i as int] == '\'',
    ensures
        match (r, segment_at(s@, i as int)) {
            (Some((a, e)), Some((b, f))) => a@ == b && e == f,
            (None, None) => true,
            _ => false,
        },
{
    let basic = s[i] == '"';
    let mut acc: Vec<char> = Vec::new();
    let mut j = i + 1;
    loop
        invariant
            i < j <= s.len(),
            basic == (s@[i as int] == '"'),
            s@[i as int] == '"' || s@[i as int] == '\'',
            segment_at(s@, i as int) == if basic {
                basic_from(s@, j as int, acc@)
            } else {
                literal_from(s@, j as int, acc@)
            },
        decreases s.len() - j,
    {
        if j >= s.len() {
            return None;
        }
        let c = s[j];
        if basic {
            if c == '"' {
                return Some((acc, j + 1));
            } else if c == '\\' {
                if j + 1 >= s.len() {
                    return None;
                }
                let e = s[j + 1];
                let simple: Option<char> = if e == 'b' {
                    Some('\u{8}')
                } else if e == 't' {
                    Some('\t')
                } else if e == 'n' {
                    Some('\n')
                } else if e == 'f' {
                    Some('\u{c}')
                } else if e == 'r' {
                    Some('\r')
                } else if e == '"' {
                    Some('"')
                } else if e == '\\' {
                    Some('\\')
                } else {
                    None
                };
                match simple {
                    Some(ch) => {
                        acc.push(ch);
                        j += 2;
                    },
                    None => {
                        if e != 'u' && e != 'U' {
                            return None;
                        }
                        let n: usize = if e == 'u' {
                            4
                        } else {
                            8
                        };
                        let v = match hex_at(s, j + 2, n) {
                            Some(v) => v,
                            None => {
                                return None;
                            },
                        };
                        let ch = match char_from(v) {
                            Some(ch) => ch,
                            None => {
                                return None;
                            },
                        };
                        proof {
                            vstd::utf8::char_u32_cast(ch, v);
                        }
                        acc.push(ch);
                        j = j + 2 + n;
                    },
                }
            } else if c == '\t' || ((' ' <= c && c <= '~') && c != '"' && c != '\\') || (c as u32)
                >= 0x80 {
                acc.push(c);
                j += 1;
            } else {
                return None;
            }
        } else {
            if c == '\'' {
                return Some((acc, j + 1));
            } else if c == '\t' || ((' ' <= c && c <= '~') && c != '\'') || (c as u32) >= 0x80 {
                acc.push(c);
                j += 1;
            } else {
                return None;
            }
        }
    }
}

/// What the segment from `i` on says, with where it ends.
fn segment_from(s: &Vec<char>, i: usize) -> (r: Option<(Vec<char>, usize)>)
    requires
        i <= s.len(),
    ensures
        match (r, segment_at(s@, i as int)) {
            (Some((a, e)), Some((b, f))) => a@ == b && e == f,
            (None, None) => true,
            _ => false,
        },
        match r {
            Some((_, e)) => i < e <= s.len(),
            None => true,
        },
{
    if i >= s.len() {
        return None;
    }
    if s[i] == '"' || s[i] == '\'' {
        proof {
            lemma_segment_ends(s@, i as int);
        }
        return quoted_at(s, i);
    }
    proof {
        lemma_bare_end(s@, i as int);
    }
    let mut j = i;
    while j < s.len() && (('A' <= s[j] && s[j] <= 'Z') || ('a' <= s[j] && s[j] <= 'z') || ('0'
        <= s[j] && s[j] <= '9') || s[j] == '-' || s[j] == '_')
        invariant
            i <= j <= s.len(),
            bare_end(s@, i as int) == bare_end(s@, j as int),
        decreases s.len() - j,
    {
        j += 1;
    }
    if j == i {
        return None;
    }
    let seg = slice(s, i, j);
    Some((seg, j))
}

pub proof fn lemma_basic_ends(s: Seq<char>, i: int, acc: Seq<char>)
    requires
        0 <= i,
    ensures
        match basic_from(s, i, acc) {
            Some((_, e)) => i < e <= s.len(),
            None => true,
        },
    decreases s.len() - i,
{
    if 0 <= i < s.len() && s[i] != '"' {
        if s[i] == '\\' {
            match escape_at(s, i) {
                Some((c, j)) => if i < j {
                    lemma_basic_ends(s, j, acc.push(c));
                },
                None => {},
            }
        } else if basic_char(s[i]) {
            lemma_basic_ends(s, i + 1, acc.push(s[i]));
        }
    }
}

pub proof fn lemma_literal_ends(s: Seq<char>, i: int, acc: Seq<char>)
    requires
        0 <= i,
    ensures
        match literal_from(s, i, acc) {
            Some((_, e)) => i < e <= s.len(),
            None => true,
        },
    decreases s.len() - i,
{
    if 0 <= i < s.len() && s[i] != '\'' && literal_char(s[i]) {
        lemma_literal_ends(s, i + 1, acc.push(s[i]));
    }
}

pub proof fn lemma_segment_ends(s: Seq<char>, i: int)
    requires
        0 <= i < s.len(),
    ensures
        match segment_at(s, i) {
            Some((_, e)) => i < e <= s.len(),
            None => true,
        },
{
    lemma_basic_ends(s, i + 1, seq![]);
    lemma_literal_ends(s, i + 1, seq![]);
    lemma_bare_end(s, i);
}

/// The segments the text names, read the way TOML reads a key: `a."b.c"` is two segments and
/// `a.b.c` three. Spaces and tabs may stand around the dots and around the whole.
///
/// # Errors
///
/// Returns why the text is not a key path, so a caller reading one from a user can say so.
pub fn read_name(name: &str) -> (r: Result<Vec<String>, String>)
    ensures
        match (r, key_path(name@)) {
            (Ok(v), Some(segs)) => v@.map_values(|x: String| x@) == segs,
            (Err(_), None) => true,
            _ => false,
        },
{
    let s = chars_of(name);
    let mut i = blank_end_at(&s, 0);
    let mut segs: Vec<Vec<char>> = Vec::new();
    assert(crate::text::views(segs@) =~= Seq::<Seq<char>>::empty());
    loop
        invariant
            i <= s.len(),
            s@ == name@,
            key_path(s@) == segments_from(s@, i as int, crate::text::views(segs@)),
        decreases s.len() - i,
    {
        let (seg, j) = match segment_from(&s, i) {
            Some(p) => p,
            None => {
                return Err(string_of(&lit("it is not a key path")));
            },
        };
        let k = blank_end_at(&s, j);
        let ghost before = crate::text::views(segs@);
        segs.push(seg);
        assert(crate::text::views(segs@) =~= before.push(seg@));
        if k >= s.len() {
            let mut out: Vec<String> = Vec::new();
            let mut x: usize = 0;
            while x < segs.len()
                invariant
                    x <= segs@.len(),
                    out@.len() == x,
                    forall|y: int| 0 <= y < x ==> #[trigger] out@[y]@ == segs@[y]@,
                decreases segs.len() - x,
            {
                out.push(string_of(&segs[x]));
                x += 1;
            }
            assert(out@.map_values(|x: String| x@) =~= crate::text::views(segs@));
            return Ok(out);
        }
        if s[k] != '.' {
            return Err(string_of(&lit("it is not a key path")));
        }
        i = blank_end_at(&s, k + 1);
    }
}

/// The segments a configured table name names: those TOML reads from it as a key, or, where TOML
/// reads no key from it, the pieces between its dots.
pub open spec fn name_path(name: Seq<char>) -> Seq<Seq<char>> {
    match key_path(name) {
        Some(p) => p,
        None => split_on(name, '.'),
    }
}

/// A configured table name read as the segments it names, so `a."b.c"` is two and `a.b.c` three.
///
/// A name TOML cannot read as a key falls back to splitting on its dots, which is what a setting
/// written without quotes means.
pub fn parse_name(name: &str) -> (r: Vec<String>)
    ensures
        r@.map_values(|x: String| x@) == name_path(name@),
{
    match read_name(name) {
        Ok(v) => v,
        Err(_) => {
            let pieces = split(&chars_of(name), '.');
            let mut out: Vec<String> = Vec::new();
            let mut k: usize = 0;
            while k < pieces.len()
                invariant
                    k <= pieces@.len(),
                    out@.len() == k,
                    forall|j: int| 0 <= j < k ==> #[trigger] out@[j]@ == pieces@[j]@,
                decreases pieces.len() - k,
            {
                out.push(string_of(&pieces[k]));
                k += 1;
            }
            assert(out@.map_values(|x: String| x@) =~= crate::text::views(pieces@));
            out
        },
    }
}

/// Whether the name is `wanted` or a key written under it.
pub open spec fn named(name: Seq<char>, wanted: Seq<char>) -> bool {
    name == wanted || (written_at(name, 0, wanted) && name.len() > wanted.len() && name[wanted.len()
        as int] == '.')
}

/// Whether the name is `wanted` or a key written under it.
pub fn is_named(name: &str, wanted: &str) -> (r: bool)
    ensures
        r == named(name@, wanted@),
{
    let n = chars_of(name);
    let w = chars_of(wanted);
    if crate::text::same(&n, &w) {
        return true;
    }
    is_written_at(&n, 0, &w) && n.len() > w.len() && n[w.len()] == '.'
}

/// Where the first name of `order` from `k` on that the key is, or is written under, stands; the
/// length of the order where none is.
pub open spec fn rank_from(key: Seq<char>, order: Seq<Seq<char>>, k: int) -> int
    decreases order.len() - k,
{
    if k < 0 || k >= order.len() {
        order.len() as int
    } else if named(key, order[k]) {
        k
    } else {
        rank_from(key, order, k + 1)
    }
}

/// Where a key sits in `order`. A key the order does not name sorts after every one it does.
pub fn rank(key: &str, order: &[&str]) -> (r: usize)
    ensures
        r == rank_from(key@, order@.map_values(|o: &str| o@), 0),
{
    let ghost ov = order@.map_values(|o: &str| o@);
    let mut k: usize = 0;
    while k < order.len()
        invariant
            k <= order@.len(),
            ov == order@.map_values(|o: &str| o@),
            rank_from(key@, ov, 0) == rank_from(key@, ov, k as int),
        decreases order.len() - k,
    {
        assert(ov[k as int] == order@[k as int]@);
        if is_named(key, order[k]) {
            return k;
        }
        k += 1;
    }
    k
}

/// Where `pat` is first written at or after `i`.
pub open spec fn first_written(s: Seq<char>, pat: Seq<char>, i: int) -> Option<int>
    decreases s.len() + 1 - i,
{
    if i < 0 || i + pat.len() > s.len() {
        None
    } else if written_at(s, i, pat) {
        Some(i)
    } else {
        first_written(s, pat, i + 1)
    }
}

/// Where `wanted` ends inside the path, as a character position, when the path names it or
/// something written under it: at its start, or after a dot and followed by a dot or the end.
pub open spec fn run_end_at(path: Seq<char>, wanted: Seq<char>) -> Option<int> {
    if path == wanted || written_at(path, 0, wanted.push('.')) {
        Some(wanted.len() as int)
    } else {
        match first_written(path, seq!['.'] + wanted, 0) {
            Some(at) => {
                let end = at + wanted.len() + 1;
                if end == path.len() || (end < path.len() && path[end] == '.') {
                    Some(end)
                } else {
                    None
                }
            },
            None => None,
        }
    }
}

/// Where `wanted` ends inside the path, as a character position, when the path names it or
/// something written under it.
pub(crate) fn run_end_in(p: &Vec<char>, w: &Vec<char>) -> (r: Option<usize>)
    ensures
        match (r, run_end_at(p@, w@)) {
            (Some(a), Some(b)) => a == b,
            (None, None) => true,
            _ => false,
        },
        r matches Some(e) ==> e <= p@.len(),
{
    let mut wd = crate::text::slice(w, 0, w.len());
    wd.push('.');
    assert(wd@ =~= w@.push('.'));
    if crate::text::same(p, w) || is_written_at(p, 0, &wd) {
        proof {
            if p@ == w@ {
            } else {
                assert(w@.len() <= p@.len());
            }
        }
        return Some(w.len());
    }
    let mut held: Vec<char> = vec!['.'];
    crate::text::push_all(&mut held, w);
    assert(held@ =~= seq!['.'] + w@);
    let mut i: usize = 0;
    while i < p.len() && !is_written_at(p, i, &held)
        invariant
            i <= p@.len(),
            first_written(p@, held@, 0) == first_written(p@, held@, i as int),
        decreases p.len() - i,
    {
        i += 1;
    }
    if i >= p.len() {
        assert(first_written(p@, held@, i as int) is None);
        return None;
    }
    assert(written_at(p@, i as int, held@));
    let end = i + held.len();
    if end == p.len() || (end < p.len() && p[end] == '.') {
        Some(end)
    } else {
        None
    }
}

/// Where `wanted` ends inside the path, as a byte offset, when the path names it or something
/// written under it, so a name below something else is still the name it is.
pub fn run_end(path: &str, wanted: &str) -> (r: Option<usize>)
    ensures
        match (r, run_end_at(path@, wanted@)) {
            (Some(a), Some(b)) => a == crate::disabled::bytes_upto(path@, b),
            (None, None) => true,
            _ => false,
        },
{
    let p = chars_of(path);
    let w = chars_of(wanted);
    let total = path.as_bytes().len();
    proof {
        crate::width::lemma_bytes_len(p@);
    }
    let offs = crate::width::byte_offsets(&p, total);
    match run_end_in(&p, &w) {
        Some(e) => Some(offs[e]),
        None => None,
    }
}

/// An inline table is recognized by a key only it carries, which then fixes the order of the rest.
#[derive(Debug, Clone, Copy)]
pub struct InlineSchema<'a> {
    pub discriminator: &'a str,
    pub key_order: &'a [&'a str],
}

/// Whether one key of a sort comes before another: a lower rank, or the same rank and text that
/// comes first.
pub open spec fn key_before(a: (usize, Seq<char>), b: (usize, Seq<char>)) -> bool {
    a.0 < b.0 || (a.0 == b.0 && lex_le(a.1, b.1) && a.1 != b.1)
}

/// A key as plain values.
pub open spec fn key_view(k: (usize, String)) -> (usize, Seq<char>) {
    (k.0, k.1@)
}

pub open spec fn key_views(ks: Seq<(usize, String)>) -> Seq<(usize, Seq<char>)> {
    ks.map_values(|k: (usize, String)| key_view(k))
}

/// Whether the `a`th slot stands before the `b`th once sorted: its key comes first, or the keys
/// are the same and it was written first.
pub open spec fn slot_before(ks: Seq<(usize, Seq<char>)>, a: int, b: int) -> bool {
    key_before(ks[a], ks[b]) || (ks[a] == ks[b] && a < b)
}

/// Whether `p` lists the slots in the order a stable sort by their keys puts them in.
pub open spec fn stable_order(ks: Seq<(usize, Seq<char>)>, p: Seq<int>) -> bool {
    &&& p.len() == ks.len()
    &&& forall|i: int| 0 <= i < p.len() ==> 0 <= #[trigger] p[i] < ks.len()
    &&& forall|i: int, j: int| 0 <= i < j < p.len() ==> slot_before(ks, #[trigger] p[i], #[trigger] p[j])
}

proof fn lemma_key_total(a: (usize, Seq<char>), b: (usize, Seq<char>))
    ensures
        key_before(a, b) || key_before(b, a) || a == b,
{
    lemma_lex_total(a.1, b.1);
    if a.0 == b.0 && lex_le(a.1, b.1) && lex_le(b.1, a.1) {
        lemma_lex_antisym(a.1, b.1);
    }
}

proof fn lemma_key_trans(a: (usize, Seq<char>), b: (usize, Seq<char>), c: (usize, Seq<char>))
    requires
        key_before(a, b),
        key_before(b, c),
    ensures
        key_before(a, c),
{
    if a.0 == b.0 && b.0 == c.0 {
        lemma_lex_trans(a.1, b.1, c.1);
        if a.1 == c.1 {
            lemma_lex_antisym(a.1, b.1);
        }
    }
}

proof fn lemma_slot_trans(ks: Seq<(usize, Seq<char>)>, a: int, b: int, c: int)
    requires
        slot_before(ks, a, b),
        slot_before(ks, b, c),
    ensures
        slot_before(ks, a, c),
{
    if key_before(ks[a], ks[b]) && key_before(ks[b], ks[c]) {
        lemma_key_trans(ks[a], ks[b], ks[c]);
    }
}

fn key_lt(a: &(usize, String), b: &(usize, String)) -> (r: bool)
    ensures
        r == key_before(key_view(*a), key_view(*b)),
{
    if a.0 != b.0 {
        a.0 < b.0
    } else {
        let x = chars_of(a.1.as_str());
        let y = chars_of(b.1.as_str());
        lex_le_exec(&x, &y) && !same(&x, &y)
    }
}

/// The slots in the order a stable sort by their keys puts them in.
fn stable_order_of(keys: &[(usize, String)]) -> (order: Vec<usize>)
    ensures
        stable_order(key_views(keys@), order@.map_values(|x: usize| x as int)),
{
    let ghost ks = key_views(keys@);
    let mut order: Vec<usize> = Vec::new();
    let mut j: usize = 0;
    while j < keys.len()
        invariant
            j <= keys.len(),
            ks == key_views(keys@),
            order@.len() == j,
            forall|q: int| 0 <= q < order@.len() ==> #[trigger] order@[q] < j,
            forall|q1: int, q2: int|
                0 <= q1 < q2 < order@.len() ==> slot_before(
                    ks,
                    #[trigger] order@[q1] as int,
                    #[trigger] order@[q2] as int,
                ),
        decreases keys.len() - j,
    {
        let mut q: usize = 0;
        while q < order.len() && !key_lt(&keys[j], &keys[order[q]])
            invariant
                q <= order@.len(),
                j < keys.len(),
                ks == key_views(keys@),
                forall|q3: int| 0 <= q3 < order@.len() ==> #[trigger] order@[q3] < j,
                forall|q1: int| 0 <= q1 < q ==> !key_before(ks[j as int], ks[#[trigger] order@[q1] as int]),
            decreases order@.len() - q,
        {
            assert(ks[j as int] == key_view(keys@[j as int]));
            assert(ks[order@[q as int] as int] == key_view(keys@[order@[q as int] as int]));
            q += 1;
        }
        proof {
            if q < order@.len() {
                assert(ks[j as int] == key_view(keys@[j as int]));
                assert(ks[order@[q as int] as int] == key_view(keys@[order@[q as int] as int]));
            }
        }
        let ghost before = order@;
        order.insert(q, j);
        proof {
            let after = order@;
            assert(after == before.insert(q as int, j));
            assert forall|q1: int, q2: int| 0 <= q1 < q2 < after.len() implies slot_before(
                ks,
                #[trigger] after[q1] as int,
                #[trigger] after[q2] as int,
            ) by {
                let qi = q as int;
                if q2 < qi {
                    assert(after[q1] == before[q1] && after[q2] == before[q2]);
                } else if q2 == qi {
                    assert(after[q1] == before[q1] && after[q2] == j);
                    lemma_key_total(ks[before[q1] as int], ks[j as int]);
                } else if q1 < qi {
                    assert(after[q1] == before[q1] && after[q2] == before[q2 - 1]);
                } else if q1 == qi {
                    assert(after[q1] == j && after[q2] == before[q2 - 1]);
                    assert(key_before(ks[j as int], ks[before[qi] as int]));
                    if q2 - 1 > qi {
                        lemma_slot_trans(ks, j as int, before[qi] as int, before[q2 - 1] as int);
                    }
                } else {
                    assert(after[q1] == before[q1 - 1] && after[q2] == before[q2 - 1]);
                }
            }
            assert forall|q3: int| 0 <= q3 < after.len() implies #[trigger] after[q3] < j + 1 by {
                if q3 < q {
                    assert(after[q3] == before[q3]);
                } else if q3 > q {
                    assert(after[q3] == before[q3 - 1]);
                }
            }
        }
        j += 1;
    }
    let ghost p = order@.map_values(|x: usize| x as int);
    assert forall|i: int, k: int| 0 <= i < k < p.len() implies slot_before(ks, #[trigger] p[i], #[trigger] p[k]) by {
        assert(p[i] == order@[i] as int && p[k] == order@[k] as int);
    }
    assert forall|i: int| 0 <= i < p.len() implies 0 <= #[trigger] p[i] < ks.len() by {
        assert(p[i] == order@[i] as int);
    }
    order
}

/// Whether a slot is one of those being sorted.
pub open spec fn is_held(held: Seq<usize>, i: int) -> bool {
    exists|j: int| 0 <= j < held.len() && held[j] == i
}

/// Whether the slot `y` was emptied once everything before `at` was written out and the first `j`
/// held slots were filled: it stands before `at` and is not held, or it was read into one of them.
pub open spec fn emptied(held: Seq<usize>, order: Seq<usize>, at: int, j: int, y: int) -> bool {
    (y < at && !is_held(held, y)) || exists|k: int| 0 <= k < j && held[order[k] as int] == y
}

/// Sort what sits at `held` among itself by the keys given for those slots, in order, leaving
/// everything around it where the file wrote it: the item at the `j`th held slot afterwards is the
/// one whose key comes `j`th in a stable sort of the keys.
pub fn sort_slots<T>(items: &mut Vec<T>, held: &[usize], keys: &[(usize, String)])
    requires
        keys.len() == held.len(),
        forall|i: int, j: int| 0 <= i < j < held.len() ==> held[i] < held[j],
        forall|i: int| 0 <= i < held.len() ==> held[i] < old(items).len(),
    ensures
        final(items).len() == old(items).len(),
        forall|i: int|
            0 <= i < old(items).len() && !is_held(held@, i) ==> #[trigger] final(items)@[i]
                == old(items)@[i],
        exists|p: Seq<int>|
            stable_order(key_views(keys@), p) && forall|j: int|
                0 <= j < held.len() ==> #[trigger] final(items)@[held[j] as int] == old(items)@[held[p[j]] as int],
{
    let ghost start = items@;
    let n = items.len();
    let h = held.len();
    let order = stable_order_of(keys);
    let ghost ks = key_views(keys@);
    let ghost ov = order@;
    let ghost p = order@.map_values(|x: usize| x as int);
    proof {
        assert forall|k: int| 0 <= k < h implies #[trigger] ov[k] < h && p[k] == ov[k] as int by {
            assert(p[k] == ov[k] as int);
        }
    }
    // the items, each in a slot of its own, read out once
    let mut rev: Vec<T> = Vec::new();
    while items.len() > 0
        invariant
            rev@.len() + items@.len() == n,
            n == start.len(),
            items@ == start.take(items@.len() as int),
            forall|k: int| 0 <= k < rev@.len() ==> #[trigger] rev@[k] == start[n - 1 - k],
        decreases items@.len(),
    {
        let ghost before = items@;
        let x = items.pop().unwrap();
        assert(x == start[n - 1 - rev@.len()]);
        rev.push(x);
        assert(items@ =~= start.take(items@.len() as int));
    }
    let mut slots: Vec<Option<T>> = Vec::new();
    while rev.len() > 0
        invariant
            slots@.len() + rev@.len() == n,
            n == start.len(),
            forall|k: int| 0 <= k < rev@.len() ==> #[trigger] rev@[k] == start[n - 1 - k],
            forall|k: int| 0 <= k < slots@.len() ==> #[trigger] slots@[k] == Some(start[k]),
        decreases rev@.len(),
    {
        let x = rev.pop().unwrap();
        slots.push(Some(x));
    }
    let mut out: Vec<T> = Vec::new();
    let mut j: usize = 0;
    let mut at: usize = 0;
    while at < n
        invariant
            at <= n,
            n == start.len(),
            slots@.len() == n,
            h == held.len(),
            h == ov.len(),
            ov == order@,
            p == ov.map_values(|x: usize| x as int),
            stable_order(ks, p),
            forall|k: int| 0 <= k < h ==> #[trigger] ov[k] < h,
            forall|a: int, b: int| 0 <= a < b < held.len() ==> held[a] < held[b],
            forall|i: int| 0 <= i < held.len() ==> held[i] < n,
            out@.len() == at,
            j <= h,
            forall|k: int| 0 <= k < j ==> #[trigger] held[k] < at,
            j < h ==> held[j as int] >= at,
            forall|y: int|
                0 <= y < n ==> ((#[trigger] slots@[y]) is Some <==> !emptied(held@, ov, at as int, j as int, y)),
            forall|y: int| 0 <= y < n && slots@[y] is Some ==> #[trigger] slots@[y] == Some(start[y]),
            forall|y: int| 0 <= y < at && !is_held(held@, y) ==> #[trigger] out@[y] == start[y],
            forall|k: int| 0 <= k < j ==> #[trigger] out@[held[k] as int] == start[held[ov[k] as int] as int],
        decreases n - at,
    {
        if j < h && held[j] == at {
            let src = held[order[j]];
            proof {
                assert(is_held(held@, src as int));
                if emptied(held@, ov, at as int, j as int, src as int) {
                    let k = choose|k: int| 0 <= k < j && held[ov[k] as int] == src;
                    assert(ov[k] as int == ov[j as int] as int) by {
                        if ov[k] < ov[j as int] {
                            assert(held[ov[k] as int] < held[ov[j as int] as int]);
                        } else if ov[k] > ov[j as int] {
                            assert(held[ov[j as int] as int] < held[ov[k] as int]);
                        }
                    }
                    assert(p[k] == ov[k] as int && p[j as int] == ov[j as int] as int);
                    assert(slot_before(ks, p[k], p[j as int]));
                    assert(false);
                }
            }
            let x = slots[src].take();
            out.push(x.unwrap());
            proof {
                assert forall|y: int| 0 <= y < n implies ((#[trigger] slots@[y]) is Some <==> !emptied(
                    held@,
                    ov,
                    at + 1,
                    j + 1,
                    y,
                )) by {
                    if y == at {
                        assert(is_held(held@, y));
                    }
                    if emptied(held@, ov, at + 1, j + 1, y) && !emptied(held@, ov, at as int, j as int, y) {
                        if !(y < at + 1 && !is_held(held@, y)) {
                            let k = choose|k: int| 0 <= k < j + 1 && held[ov[k] as int] == y;
                            assert(k == j);
                        } else {
                            assert(y == at);
                            assert(is_held(held@, y));
                        }
                    }
                    if emptied(held@, ov, at as int, j as int, y) {
                        if !(y < at && !is_held(held@, y)) {
                            let k = choose|k: int| 0 <= k < j && held[ov[k] as int] == y;
                            assert(0 <= k < j + 1 && held[ov[k] as int] == y);
                        }
                    }
                }
                assert forall|k: int| 0 <= k < j + 1 implies #[trigger] held[k] < at + 1 by {
                    if k < j {
                        assert(held[k] < at);
                    }
                }
                assert forall|y: int| 0 <= y < at + 1 && !is_held(held@, y) implies #[trigger] out@[y]
                    == start[y] by {
                    if y == at {
                        assert(is_held(held@, y));
                    }
                }
                assert forall|k: int| 0 <= k < j + 1 implies #[trigger] out@[held[k] as int]
                    == start[held[ov[k] as int] as int] by {
                    if k < j {
                        assert(held[k] < at);
                    }
                }
                if j + 1 < h {
                    assert(held[j as int] < held[j + 1]);
                }
            }
            j += 1;
        } else {
            proof {
                if is_held(held@, at as int) {
                    let k = choose|k: int| 0 <= k < held.len() && held[k] == at;
                    if k < j {
                        assert(held[k] < at);
                    } else if k > j {
                        assert(held[j as int] < held[k]);
                    }
                    assert(false);
                }
                if emptied(held@, ov, at as int, j as int, at as int) {
                    let k = choose|k: int| 0 <= k < j && held[ov[k] as int] == at;
                    assert(is_held(held@, at as int));
                }
            }
            let x = slots[at].take();
            out.push(x.unwrap());
            proof {
                assert forall|y: int| 0 <= y < n implies ((#[trigger] slots@[y]) is Some <==> !emptied(
                    held@,
                    ov,
                    at + 1,
                    j as int,
                    y,
                )) by {
                    if emptied(held@, ov, at as int, j as int, y) {
                        if !(y < at && !is_held(held@, y)) {
                            let k = choose|k: int| 0 <= k < j && held[ov[k] as int] == y;
                            assert(0 <= k < j && held[ov[k] as int] == y);
                        }
                    }
                }
                assert forall|k: int| 0 <= k < j implies #[trigger] out@[held[k] as int] == start[held[ov[k] as int] as int] by {
                    assert(held[k] < at);
                }
            }
        }
        at += 1;
    }
    proof {
        assert forall|k: int| 0 <= k < h implies #[trigger] out@[held[k] as int] == start[held[p[k]] as int] by {
            if k >= j {
                assert(held[k] < n);
                assert(false);
            }
        }
    }
    *items = out;
}

} // verus!
