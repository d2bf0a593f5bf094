//! Text as the rest of the library reads it: a sequence of characters, with the few questions
//! asked of one (where a run of some kind of character ends, what trimming leaves, where a
//! character first stands) stated once over `Seq<char>` and answered over `Vec<char>`.

use vstd::prelude::*;

verus! {

/// Whether the character is white space as Unicode counts it, which is what `char::is_whitespace`
/// and `str::trim` go by.
pub open spec fn is_ws(c: char) -> bool {
    ||| ('\u{9}' <= c && c <= '\u{d}')
    ||| c == ' '
    ||| c == '\u{85}'
    ||| c == '\u{a0}'
    ||| c == '\u{1680}'
    ||| ('\u{2000}' <= c && c <= '\u{200a}')
    ||| c == '\u{2028}'
    ||| c == '\u{2029}'
    ||| c == '\u{202f}'
    ||| c == '\u{205f}'
    ||| c == '\u{3000}'
}

pub fn is_whitespace(c: char) -> (r: bool)
    ensures
        r == is_ws(c),
{
    ('\u{9}' <= c && c <= '\u{d}') || c == ' ' || c == '\u{85}' || c == '\u{a0}' || c == '\u{1680}'
        || ('\u{2000}' <= c && c <= '\u{200a}') || c == '\u{2028}' || c == '\u{2029}' || c
        == '\u{202f}' || c == '\u{205f}' || c == '\u{3000}'
}

pub open spec fn is_digit(c: char) -> bool {
    '0' <= c && c <= '9'
}

pub fn is_ascii_digit(c: char) -> (r: bool)
    ensures
        r == is_digit(c),
{
    '0' <= c && c <= '9'
}

pub open spec fn is_alpha(c: char) -> bool {
    ('a' <= c && c <= 'z') || ('A' <= c && c <= 'Z')
}

pub fn is_ascii_alpha(c: char) -> (r: bool)
    ensures
        r == is_alpha(c),
{
    ('a' <= c && c <= 'z') || ('A' <= c && c <= 'Z')
}

pub open spec fn is_alnum(c: char) -> bool {
    is_alpha(c) || is_digit(c)
}

pub fn is_ascii_alnum(c: char) -> (r: bool)
    ensures
        r == is_alnum(c),
{
    is_ascii_alpha(c) || is_ascii_digit(c)
}

/// The character with an ASCII capital turned to its small letter, which is what
/// `to_ascii_lowercase` does; every other character stays.
pub open spec fn lower(c: char) -> char {
    if 'A' <= c && c <= 'Z' {
        ((c as u32) + 32) as char
    } else {
        c
    }
}

pub fn to_lower(c: char) -> (r: char)
    ensures
        r == lower(c),
{
    if 'A' <= c && c <= 'Z' {
        let u: u8 = (c as u32 + 32) as u8;
        u as char
    } else {
        c
    }
}

/// What `char::to_ascii_uppercase` gives.
pub open spec fn upper(c: char) -> char {
    if 'a' <= c && c <= 'z' {
        ((c as u32) - 32) as char
    } else {
        c
    }
}

/// What `str::to_ascii_uppercase` gives.
pub open spec fn upper_all(s: Seq<char>) -> Seq<char> {
    s.map_values(|c: char| upper(c))
}

/// Every character with its ASCII capitals turned small.
pub open spec fn lower_all(s: Seq<char>) -> Seq<char> {
    s.map_values(|c: char| lower(c))
}

pub fn lowered(s: &Vec<char>) -> (r: Vec<char>)
    ensures
        r@ == lower_all(s@),
{
    let mut r: Vec<char> = Vec::new();
    let mut i: usize = 0;
    while i < s.len()
        invariant
            i <= s.len(),
            r@ == lower_all(s@.take(i as int)),
        decreases s.len() - i,
    {
        r.push(to_lower(s[i]));
        i += 1;
        assert(lower_all(s@.take(i as int)) =~= lower_all(s@.take(i - 1)).push(lower(s@[i - 1])));
    }
    assert(s@.take(i as int) =~= s@);
    r
}

/// The characters a string slice holds.
pub fn chars_of(s: &str) -> (v: Vec<char>)
    ensures
        v@ == s@,
{
    let mut v: Vec<char> = Vec::new();
    for c in it: s.chars()
        invariant
            v@ == it.seq().take(it.index() as int),
            it.seq() == s@,
    {
        v.push(c);
    }
    v
}

/// The string spelled by the characters, which `String: FromIterator<char>` builds.
#[verifier::external_body]
pub fn string_of(v: &Vec<char>) -> (s: String)
    ensures
        s@ == v@,
{
    v.iter().collect()
}

/// Where the run of white space that starts at `i` ends.
pub open spec fn ws_end(s: Seq<char>, i: int) -> int
    decreases s.len() - i,
{
    if 0 <= i < s.len() && is_ws(s[i]) {
        ws_end(s, i + 1)
    } else {
        i
    }
}

/// Where the run of white space that ends at `j` starts.
pub open spec fn ws_start(s: Seq<char>, j: int) -> int
    decreases j,
{
    if 0 < j <= s.len() && is_ws(s[j - 1]) {
        ws_start(s, j - 1)
    } else {
        j
    }
}

pub proof fn lemma_ws_end_bounds(s: Seq<char>, i: int)
    requires
        0 <= i <= s.len(),
    ensures
        i <= ws_end(s, i) <= s.len(),
        forall|k: int| i <= k < ws_end(s, i) ==> is_ws(#[trigger] s[k]),
        ws_end(s, i) < s.len() ==> !is_ws(s[ws_end(s, i)]),
    decreases s.len() - i,
{
    if i < s.len() && is_ws(s[i]) {
        lemma_ws_end_bounds(s, i + 1);
    }
}

pub proof fn lemma_ws_start_bounds(s: Seq<char>, j: int)
    requires
        0 <= j <= s.len(),
    ensures
        0 <= ws_start(s, j) <= j,
        forall|k: int| ws_start(s, j) <= k < j ==> is_ws(#[trigger] s[k]),
        ws_start(s, j) > 0 ==> !is_ws(s[ws_start(s, j) - 1]),
    decreases j,
{
    if 0 < j && is_ws(s[j - 1]) {
        lemma_ws_start_bounds(s, j - 1);
    }
}

/// What `str::trim_start` leaves.
pub open spec fn trim_start(s: Seq<char>) -> Seq<char> {
    s.skip(ws_end(s, 0))
}

/// What `str::trim_end` leaves.
pub open spec fn trim_end(s: Seq<char>) -> Seq<char> {
    s.take(ws_start(s, s.len() as int))
}

/// What `str::trim` leaves.
pub open spec fn trim(s: Seq<char>) -> Seq<char> {
    trim_end(trim_start(s))
}

pub fn ws_end_at(s: &Vec<char>, i: usize) -> (r: usize)
    requires
        i <= s.len(),
    ensures
        r == ws_end(s@, i as int),
        i <= r <= s.len(),
{
    proof {
        lemma_ws_end_bounds(s@, i as int);
    }
    let mut j = i;
    while j < s.len() && is_whitespace(s[j])
        invariant
            i <= j <= s.len(),
            ws_end(s@, i as int) == ws_end(s@, j as int),
        decreases s.len() - j,
    {
        j += 1;
    }
    j
}

pub fn ws_start_at(s: &Vec<char>, j: usize) -> (r: usize)
    requires
        j <= s.len(),
    ensures
        r == ws_start(s@, j as int),
        r <= j,
{
    proof {
        lemma_ws_start_bounds(s@, j as int);
    }
    let mut k = j;
    while k > 0 && is_whitespace(s[k - 1])
        invariant
            k <= j <= s.len(),
            ws_start(s@, j as int) == ws_start(s@, k as int),
        decreases k,
    {
        k -= 1;
    }
    k
}

/// The characters from `a` up to `b`.
pub fn slice(s: &Vec<char>, a: usize, b: usize) -> (r: Vec<char>)
    requires
        a <= b <= s.len(),
    ensures
        r@ == s@.subrange(a as int, b as int),
{
    let mut r: Vec<char> = Vec::new();
    let mut i = a;
    while i < b
        invariant
            a <= i <= b <= s.len(),
            r@ == s@.subrange(a as int, i as int),
        decreases b - i,
    {
        r.push(s[i]);
        i += 1;
        assert(r@ =~= s@.subrange(a as int, i as int));
    }
    r
}

/// The text with the white space around it dropped.
pub fn trimmed(s: &Vec<char>) -> (r: Vec<char>)
    ensures
        r@ == trim(s@),
{
    let a = ws_end_at(s, 0);
    let rest = slice(s, a, s.len());
    assert(rest@ =~= trim_start(s@));
    let b = ws_start_at(&rest, rest.len());
    let r = slice(&rest, 0, b);
    assert(r@ =~= trim(s@));
    r
}

/// The text with the white space at its end dropped.
pub fn trimmed_end(s: &Vec<char>) -> (r: Vec<char>)
    ensures
        r@ == trim_end(s@),
{
    let b = ws_start_at(s, s.len());
    let r = slice(s, 0, b);
    assert(r@ =~= trim_end(s@));
    r
}

/// The text with the white space at its start dropped.
pub fn trimmed_start(s: &Vec<char>) -> (r: Vec<char>)
    ensures
        r@ == trim_start(s@),
{
    let a = ws_end_at(s, 0);
    let r = slice(s, a, s.len());
    assert(r@ =~= trim_start(s@));
    r
}

/// Where `c` first stands at or after `i`, or the length where it stands nowhere there.
pub open spec fn index_of(s: Seq<char>, c: char, i: int) -> int
    decreases s.len() - i,
{
    if i < 0 || i >= s.len() {
        s.len() as int
    } else if s[i] == c {
        i
    } else {
        index_of(s, c, i + 1)
    }
}

pub proof fn lemma_index_of(s: Seq<char>, c: char, i: int)
    requires
        0 <= i <= s.len(),
    ensures
        i <= index_of(s, c, i) <= s.len(),
        forall|k: int| i <= k < index_of(s, c, i) ==> #[trigger] s[k] != c,
        index_of(s, c, i) < s.len() ==> s[index_of(s, c, i)] == c,
    decreases s.len() - i,
{
    if i < s.len() && s[i] != c {
        lemma_index_of(s, c, i + 1);
    }
}

pub fn find_char(s: &Vec<char>, c: char, i: usize) -> (r: usize)
    requires
        i <= s.len(),
    ensures
        r == index_of(s@, c, i as int),
        i <= r <= s.len(),
{
    proof {
        lemma_index_of(s@, c, i as int);
    }
    let mut j = i;
    while j < s.len() && s[j] != c
        invariant
            i <= j <= s.len(),
            index_of(s@, c, i as int) == index_of(s@, c, j as int),
        decreases s.len() - j,
    {
        j += 1;
    }
    j
}

/// Whether `c` stands anywhere in the text.
pub fn holds_char(s: &Vec<char>, c: char) -> (r: bool)
    ensures
        r == s@.contains(c),
{
    let at = find_char(s, c, 0);
    proof {
        lemma_index_of(s@, c, 0);
        if at < s.len() {
            assert(s@[at as int] == c);
        }
    }
    at < s.len()
}

/// The pieces `c` splits the text into, which is what `str::split` hands back.
pub open spec fn split_on(s: Seq<char>, c: char) -> Seq<Seq<char>>
    decreases s.len(),
{
    let k = index_of(s, c, 0);
    if k >= s.len() {
        seq![s]
    } else {
        proof {
            lemma_index_of(s, c, 0);
        }
        seq![s.take(k)] + split_on(s.skip(k + 1), c)
    }
}

/// What each vector in a sequence holds.
pub open spec fn views(v: Seq<Vec<char>>) -> Seq<Seq<char>> {
    v.map_values(|x: Vec<char>| x@)
}

pub fn split(s: &Vec<char>, c: char) -> (r: Vec<Vec<char>>)
    ensures
        views(r@) == split_on(s@, c),
{
    let mut r: Vec<Vec<char>> = Vec::new();
    let mut start: usize = 0;
    assert(views(r@) =~= Seq::<Seq<char>>::empty());
    assert(s@.skip(0) =~= s@);
    loop
        invariant
            start <= s.len(),
            views(r@) + split_on(s@.skip(start as int), c) == split_on(s@, c),
        decreases s.len() - start,
    {
        let k = find_char(s, c, start);
        let piece = slice(s, start, k);
        let ghost rest = s@.skip(start as int);
        proof {
            lemma_index_of(s@, c, start as int);
            lemma_index_of(rest, c, 0);
            lemma_index_of_shift(s@, c, start as int);
            assert(index_of(rest, c, 0) == k - start);
        }
        if k == s.len() {
            r.push(piece);
            proof {
                assert(split_on(rest, c) == seq![rest]);
                assert(piece@ =~= rest);
                assert(views(r@) =~= views(r@.drop_last()).push(piece@));
                assert(views(r@) =~= split_on(s@, c));
            }
            return r;
        }
        let ghost before = views(r@);
        r.push(piece);
        proof {
            assert(piece@ =~= rest.take(k - start));
            assert(rest.skip(k - start + 1) =~= s@.skip(k + 1));
            assert(views(r@) =~= before.push(piece@));
            assert(split_on(rest, c) == seq![rest.take(k - start)] + split_on(rest.skip(k - start + 1), c));
            assert(views(r@) + split_on(s@.skip(k + 1), c) =~= before + split_on(rest, c));
        }
        start = k + 1;
    }
}

/// Searching from `i` in the text sees what searching from `0` sees in the text past `i`.
pub proof fn lemma_index_of_shift(s: Seq<char>, c: char, i: int)
    requires
        0 <= i <= s.len(),
    ensures
        index_of(s.skip(i), c, 0) == index_of(s, c, i) - i,
{
    lemma_index_of(s, c, i);
    lemma_index_of(s.skip(i), c, 0);
    let a = index_of(s.skip(i), c, 0);
    let b = index_of(s, c, i);
    if a + i < b {
        assert(s.skip(i)[a] == s[a + i]);
    } else if a + i > b {
        assert(s.skip(i)[b - i] == s[b]);
    }
}

/// The pieces written one after another with `sep` between each two, which is what `join` writes.
pub open spec fn join(pieces: Seq<Seq<char>>, sep: Seq<char>) -> Seq<char>
    decreases pieces.len(),
{
    if pieces.len() == 0 {
        seq![]
    } else if pieces.len() == 1 {
        pieces[0]
    } else {
        join(pieces.drop_last(), sep) + sep + pieces.last()
    }
}

/// Append the characters of `more` to `out`.
pub fn push_all(out: &mut Vec<char>, more: &Vec<char>)
    ensures
        final(out)@ == old(out)@ + more@,
{
    let mut i: usize = 0;
    while i < more.len()
        invariant
            i <= more.len(),
            out@ == old(out)@ + more@.take(i as int),
        decreases more.len() - i,
    {
        out.push(more[i]);
        i += 1;
        assert(out@ =~= old(out)@ + more@.take(i as int));
    }
    assert(more@.take(i as int) =~= more@);
}

/// The text of a string literal, as characters.
pub fn lit(s: &str) -> (r: Vec<char>)
    ensures
        r@ == s@,
{
    chars_of(s)
}

/// The pieces joined with `sep` between each two.
pub fn joined(pieces: &Vec<Vec<char>>, sep: &Vec<char>) -> (r: Vec<char>)
    ensures
        r@ == join(views(pieces@), sep@),
{
    let mut r: Vec<char> = Vec::new();
    let mut i: usize = 0;
    while i < pieces.len()
        invariant
            i <= pieces.len(),
            r@ == join(views(pieces@.take(i as int)), sep@),
        decreases pieces.len() - i,
    {
        let ghost prev = views(pieces@.take(i as int));
        if i > 0 {
            push_all(&mut r, sep);
        }
        push_all(&mut r, &pieces[i]);
        i += 1;
        proof {
            let cur = views(pieces@.take(i as int));
            assert(cur.drop_last() =~= prev);
            assert(cur.last() == pieces@[i - 1]@);
            if i == 1 {
                assert(cur =~= seq![pieces@[0]@]);
            }
        }
    }
    assert(pieces@.take(i as int) =~= pieces@);
    r
}

/// Whether `pat` is written at `at`.
pub open spec fn written_at(s: Seq<char>, at: int, pat: Seq<char>) -> bool {
    0 <= at && at + pat.len() <= s.len() && s.subrange(at, at + pat.len()) == pat
}

pub fn is_written_at(s: &Vec<char>, at: usize, pat: &Vec<char>) -> (r: bool)
    ensures
        r == written_at(s@, at as int, pat@),
{
    if at > s.len() || pat.len() > s.len() - at {
        return false;
    }
    let mut i: usize = 0;
    while i < pat.len()
        invariant
            i <= pat.len(),
            at + pat.len() <= s.len(),
            forall|k: int| 0 <= k < i ==> s@[at + k] == pat@[k],
        decreases pat.len() - i,
    {
        if s[at + i] != pat[i] {
            assert(s@.subrange(at as int, at + pat.len())[i as int] != pat@[i as int]);
            return false;
        }
        i += 1;
    }
    assert(s@.subrange(at as int, at + pat.len()) =~= pat@);
    true
}

/// Whether two texts are the same characters.
pub fn same(a: &Vec<char>, b: &Vec<char>) -> (r: bool)
    ensures
        r == (a@ == b@),
{
    if a.len() != b.len() {
        return false;
    }
    let mut i: usize = 0;
    while i < a.len()
        invariant
            i <= a.len() == b.len(),
            forall|k: int| 0 <= k < i ==> a@[k] == b@[k],
        decreases a.len() - i,
    {
        if a[i] != b[i] {
            return false;
        }
        i += 1;
    }
    assert(a@ =~= b@);
    true
}


/// The line without the carriage return that closed it with its line feed.
pub open spec fn strip_cr(l: Seq<char>) -> Seq<char> {
    if l.len() > 0 && l.last() == '\r' {
        l.drop_last()
    } else {
        l
    }
}

/// The lines of the text, which is what `str::lines` hands back: split at each line feed, a
/// carriage return before one dropped, and the empty text after a closing line feed no line.
pub open spec fn lines_of(s: Seq<char>) -> Seq<Seq<char>> {
    let p = split_on(s, '\n');
    let body = p.drop_last().map_values(|l: Seq<char>| strip_cr(l));
    if p.last().len() == 0 {
        body
    } else {
        body.push(p.last())
    }
}

pub proof fn lemma_split_nonempty(s: Seq<char>, c: char)
    ensures
        split_on(s, c).len() > 0,
    decreases s.len(),
{
    lemma_index_of(s, c, 0);
    if index_of(s, c, 0) < s.len() {
        lemma_split_nonempty(s.skip(index_of(s, c, 0) + 1), c);
    }
}

/// The lines of the text.
pub fn lines(s: &Vec<char>) -> (r: Vec<Vec<char>>)
    ensures
        views(r@) == lines_of(s@),
{
    let pieces = split(s, '\n');
    proof {
        lemma_split_nonempty(s@, '\n');
    }
    let n = pieces.len();
    let mut r: Vec<Vec<char>> = Vec::new();
    let mut i: usize = 0;
    while i + 1 < n
        invariant
            n == pieces.len() > 0,
            i < n,
            views(pieces@) == split_on(s@, '\n'),
            r@.len() == i,
            forall|k: int| 0 <= k < i ==> #[trigger] r@[k]@ == strip_cr(pieces@[k]@),
        decreases n - i,
    {
        let l = &pieces[i];
        let m = l.len();
        if m > 0 && l[m - 1] == '\r' {
            let t = slice(l, 0, m - 1);
            assert(t@ =~= l@.drop_last());
            r.push(t);
        } else {
            r.push(slice(l, 0, m));
            assert(r@[i as int]@ =~= l@);
        }
        i += 1;
    }
    let ghost p = split_on(s@, '\n');
    assert(views(r@) =~= p.drop_last().map_values(|l: Seq<char>| strip_cr(l))) by {
        assert forall|k: int| 0 <= k < r@.len() implies #[trigger] views(r@)[k] == p.drop_last().map_values(
            |l: Seq<char>| strip_cr(l),
        )[k] by {
            assert(views(pieces@)[k] == pieces@[k]@);
        }
    }
    let last = &pieces[n - 1];
    assert(views(pieces@)[n - 1] == last@);
    if last.len() > 0 {
        let ghost before = views(r@);
        let copy = slice(last, 0, last.len());
        assert(copy@ =~= last@);
        r.push(copy);
        assert(views(r@) =~= before.push(last@));
    }
    r
}


proof fn lemma_index_of_concat(a: Seq<char>, x: Seq<char>, c: char)
    ensures
        index_of(a, c, 0) < a.len() ==> index_of(a + x, c, 0) == index_of(a, c, 0),
        index_of(a, c, 0) >= a.len() ==> index_of(a + x, c, 0) == a.len() + index_of(x, c, 0),
{
    lemma_index_of(a, c, 0);
    lemma_index_of(x, c, 0);
    lemma_index_of(a + x, c, 0);
    let i = index_of(a, c, 0);
    let j = index_of(a + x, c, 0);
    if i < a.len() {
        if j < i {
            assert((a + x)[j] == a[j]);
        } else if j > i {
            assert((a + x)[i] == a[i]);
        }
    } else {
        let k = index_of(x, c, 0);
        if j < a.len() {
            assert((a + x)[j] == a[j]);
        } else if j < a.len() + k {
            assert((a + x)[j] == x[j - a.len()]);
        } else if j > a.len() + k {
            assert((a + x)[a.len() + k] == x[k]);
        }
    }
}

/// Splitting text at each `c` splits what stands on either side of one `c` apart.
pub proof fn lemma_split_concat(a: Seq<char>, b: Seq<char>, c: char)
    ensures
        split_on(a + seq![c] + b, c) == split_on(a, c) + split_on(b, c),
    decreases a.len(),
{
    let s = a + seq![c] + b;
    lemma_index_of_concat(a, seq![c] + b, c);
    assert(s =~= a + (seq![c] + b));
    lemma_index_of(a, c, 0);
    let k = index_of(a, c, 0);
    if k >= a.len() {
        lemma_index_of(seq![c] + b, c, 0);
        assert(index_of(seq![c] + b, c, 0) == 0);
        assert(s.take(a.len() as int) =~= a);
        assert(s.skip(a.len() + 1int) =~= b);
    } else {
        lemma_split_concat(a.skip(k + 1), b, c);
        assert(s.take(k) =~= a.take(k));
        assert(s.skip(k + 1) =~= a.skip(k + 1) + seq![c] + b);
    }
}

/// Joining pieces that hold no `c` with `c` and splitting the result at `c` gives the pieces back.
pub proof fn lemma_split_join(ps: Seq<Seq<char>>, c: char)
    requires
        ps.len() > 0,
        forall|i: int| 0 <= i < ps.len() ==> !(#[trigger] ps[i]).contains(c),
    ensures
        split_on(join(ps, seq![c]), c) == ps,
    decreases ps.len(),
{
    let last = ps.last();
    lemma_index_of(last, c, 0);
    if index_of(last, c, 0) < last.len() {
        assert(last.contains(c));
    }
    if ps.len() == 1 {
        assert(split_on(last, c) =~= seq![last]);
        assert(ps =~= seq![last]);
    } else {
        let d = ps.drop_last();
        assert forall|i: int| 0 <= i < d.len() implies !(#[trigger] d[i]).contains(c) by {
            assert(d[i] == ps[i]);
        }
        lemma_split_join(d, c);
        lemma_split_concat(join(d, seq![c]), last, c);
        assert(split_on(last, c) =~= seq![last]);
        assert(ps =~= d.push(last));
        assert(d + seq![last] =~= d.push(last));
    }
}

/// The pieces written one after another with `sep` between each two, read from the front.
pub proof fn lemma_join_front(x: Seq<char>, rest: Seq<Seq<char>>, sep: Seq<char>)
    requires
        rest.len() > 0,
    ensures
        join(seq![x] + rest, sep) == x + sep + join(rest, sep),
    decreases rest.len(),
{
    let all = seq![x] + rest;
    if rest.len() == 1 {
        assert(all.drop_last() =~= seq![x]);
        assert(all.last() == rest[0]);
        assert(join(seq![x], sep) == x);
        assert(join(all, sep) == join(all.drop_last(), sep) + sep + all.last());
        assert(join(rest, sep) == rest[0]);
    } else {
        lemma_join_front(x, rest.drop_last(), sep);
        assert(all.drop_last() =~= seq![x] + rest.drop_last());
        assert(all.last() == rest.last());
        assert(join(all, sep) == join(all.drop_last(), sep) + sep + all.last());
        assert(join(rest, sep) == join(rest.drop_last(), sep) + sep + rest.last());
        assert(join(all, sep) =~= x + sep + join(rest, sep));
    }
}

/// Splitting text at each `c` and joining the pieces back with `c` gives the text back.
pub proof fn lemma_join_split(s: Seq<char>, c: char)
    ensures
        join(split_on(s, c), seq![c]) == s,
    decreases s.len(),
{
    lemma_index_of(s, c, 0);
    let k = index_of(s, c, 0);
    if k < s.len() {
        lemma_join_split(s.skip(k + 1), c);
        lemma_split_nonempty(s.skip(k + 1), c);
        lemma_join_front(s.take(k), split_on(s.skip(k + 1), c), seq![c]);
        assert(s.take(k) + seq![c] + s.skip(k + 1) =~= s);
    }
}


/// No piece of text split at `c` holds `c`, nor anything the text does not hold.
pub proof fn lemma_split_free(s: Seq<char>, c: char, x: char)
    requires
        x == c || !s.contains(x),
    ensures
        forall|i: int| 0 <= i < split_on(s, c).len() ==> !(#[trigger] split_on(s, c)[i]).contains(x),
    decreases s.len(),
{
    lemma_index_of(s, c, 0);
    let k = index_of(s, c, 0);
    if k >= s.len() {
        if s.contains(x) {
            let j = choose|j: int| 0 <= j < s.len() && s[j] == x;
            assert(s[j] != c);
        }
    } else {
        let rest = s.skip(k + 1);
        if rest.contains(x) && x != c {
            let j = choose|j: int| 0 <= j < rest.len() && rest[j] == x;
            assert(s[k + 1 + j] == x);
        }
        lemma_split_free(rest, c, x);
        let head = s.take(k);
        if head.contains(x) {
            let j = choose|j: int| 0 <= j < head.len() && head[j] == x;
            assert(s[j] == x);
        }
        let all = split_on(s, c);
        assert forall|i: int| 0 <= i < all.len() implies !(#[trigger] all[i]).contains(x) by {
            if i > 0 {
                assert(all[i] == split_on(rest, c)[i - 1]);
            }
        }
    }
}

/// The lines of pieces joined with line feeds, where no piece holds a line feed or closes with a
/// carriage return, are the pieces, but an empty last piece with no line feed after it.
pub proof fn lemma_lines_of_join(ps: Seq<Seq<char>>, closed: bool)
    requires
        ps.len() > 0,
        forall|i: int|
            0 <= i < ps.len() ==> !(#[trigger] ps[i]).contains('\n') && (ps[i].len() == 0
                || ps[i].last() != '\r'),
    ensures
        lines_of(
            join(ps, seq!['\n']) + if closed {
                seq!['\n']
            } else {
                Seq::<char>::empty()
            },
        ) == if closed || ps.last().len() > 0 {
            ps
        } else {
            ps.drop_last()
        },
{
    let text = join(ps, seq!['\n']) + if closed {
        seq!['\n']
    } else {
        Seq::<char>::empty()
    };
    let pieces = if closed {
        ps.push(Seq::<char>::empty())
    } else {
        ps
    };
    if closed {
        assert(pieces.drop_last() =~= ps);
        assert(join(pieces, seq!['\n']) == join(ps, seq!['\n']) + seq!['\n'] + Seq::<char>::empty());
        assert(text =~= join(pieces, seq!['\n']));
    } else {
        assert(text =~= join(pieces, seq!['\n']));
    }
    assert forall|i: int| 0 <= i < pieces.len() implies !(#[trigger] pieces[i]).contains('\n') by {
        if i < ps.len() {
            assert(pieces[i] == ps[i]);
        }
    }
    lemma_split_join(pieces, '\n');
    let body = pieces.drop_last().map_values(|l: Seq<char>| strip_cr(l));
    assert forall|i: int| 0 <= i < pieces.drop_last().len() implies #[trigger] body[i]
        == pieces.drop_last()[i] by {
        assert(pieces.drop_last()[i] == ps[i]);
    }
    assert(body =~= pieces.drop_last());
    if closed {
        assert(pieces.drop_last() =~= ps);
    } else if ps.last().len() > 0 {
        assert(pieces.drop_last().push(pieces.last()) =~= ps);
    }
}

/// Lexicographic order on characters, which is the order of the strings they spell: UTF-8 orders
/// bytes as the characters they encode are ordered.
pub open spec fn lex_le(a: Seq<char>, b: Seq<char>) -> bool
    decreases a.len(),
{
    if a.len() == 0 {
        true
    } else if b.len() == 0 {
        false
    } else if a[0] < b[0] {
        true
    } else if a[0] > b[0] {
        false
    } else {
        lex_le(a.drop_first(), b.drop_first())
    }
}

pub fn lex_le_exec(a: &Vec<char>, b: &Vec<char>) -> (r: bool)
    ensures
        r == lex_le(a@, b@),
{
    let mut i: usize = 0;
    assert(a@.skip(0) =~= a@);
    assert(b@.skip(0) =~= b@);
    while i < a.len() && i < b.len() && a[i] == b[i]
        invariant
            i <= a.len(),
            i <= b.len(),
            lex_le(a@, b@) == lex_le(a@.skip(i as int), b@.skip(i as int)),
        decreases a.len() - i,
    {
        assert(a@.skip(i as int).drop_first() =~= a@.skip(i + 1));
        assert(b@.skip(i as int).drop_first() =~= b@.skip(i + 1));
        i += 1;
    }
    if i == a.len() {
        true
    } else if i == b.len() {
        false
    } else {
        assert(a@.skip(i as int)[0] == a@[i as int]);
        assert(b@.skip(i as int)[0] == b@[i as int]);
        a[i] < b[i]
    }
}

/// Of two texts, one comes first.
pub proof fn lemma_lex_total(a: Seq<char>, b: Seq<char>)
    ensures
        lex_le(a, b) || lex_le(b, a),
    decreases a.len(),
{
    if a.len() > 0 && b.len() > 0 && a[0] == b[0] {
        lemma_lex_total(a.drop_first(), b.drop_first());
    }
}

/// Two texts each coming first are one text.
pub proof fn lemma_lex_antisym(a: Seq<char>, b: Seq<char>)
    requires
        lex_le(a, b),
        lex_le(b, a),
    ensures
        a == b,
    decreases a.len(),
{
    if a.len() > 0 && b.len() > 0 {
        lemma_lex_antisym(a.drop_first(), b.drop_first());
        assert(a =~= seq![a[0]] + a.drop_first());
        assert(b =~= seq![b[0]] + b.drop_first());
    } else if a.len() == 0 {
        assert(b.len() == 0);
        assert(a =~= b);
    }
}

/// The order goes through.
pub proof fn lemma_lex_trans(a: Seq<char>, b: Seq<char>, c: Seq<char>)
    requires
        lex_le(a, b),
        lex_le(b, c),
    ensures
        lex_le(a, c),
    decreases a.len(),
{
    if a.len() > 0 && b.len() > 0 && c.len() > 0 && a[0] == b[0] && b[0] == c[0] {
        lemma_lex_trans(a.drop_first(), b.drop_first(), c.drop_first());
    }
}

} // verus!
