//! How wide a piece of text is written, and where a line may break.
//!
//! A column width names columns rather than bytes, so a CJK character takes two of them and a
//! combining mark none. A line breaks between graphemes, since a decomposed accent or an emoji
//! written out of several scalars is one character wherever it is read.

use vstd::prelude::*;
use unicode_segmentation::UnicodeSegmentation;
use unicode_width::UnicodeWidthStr;
use vstd::utf8::encode_utf8;
use crate::disabled::bytes_upto;
use crate::text::{chars_of, slice, string_of};

verus! {

/// How many columns `unicode_width` says the text takes to write.
pub uninterp spec fn display_width(text: Seq<char>) -> usize;

/// The first extended grapheme cluster of the text, as `unicode_segmentation` reads it.
pub uninterp spec fn first_grapheme(text: Seq<char>) -> Seq<char>;

/// `UnicodeWidthStr::width`: the columns the text takes, which this names and does not spell out.
#[verifier::external_body]
fn str_width(text: &str) -> (r: usize)
    ensures
        r == display_width(text@),
{
    text.width()
}

/// The first item `UnicodeSegmentation::graphemes(true)` hands out: nothing for an empty text,
/// and otherwise the first grapheme, which the iterator cuts from the start of the text at a
/// boundary past at least one character, so it is a prefix of the text that holds one.
#[verifier::external_body]
fn grapheme_at<'a>(rest: &'a str) -> (r: Option<&'a str>)
    ensures
        match r {
            Some(g) => rest@.len() > 0 && g@ == first_grapheme(rest@) && 0 < g@.len() <= rest@.len()
                && g@ == rest@.take(g@.len() as int),
            None => rest@.len() == 0,
        },
{
    rest.graphemes(true).next()
}

/// How many columns the text takes to write.
pub fn columns(text: &str) -> (r: usize)
    ensures
        r == display_width(text@),
{
    str_width(text)
}

/// The character the byte offset `b` stands before, where it stands before one.
pub open spec fn char_at_byte(t: Seq<char>, b: int) -> Option<int> {
    if exists|k: int| 0 <= k <= t.len() && #[trigger] bytes_upto(t, k) == b {
        Some(choose|k: int| 0 <= k <= t.len() && #[trigger] bytes_upto(t, k) == b)
    } else {
        None
    }
}

/// How many bytes the piece of text read from character `i` on holds: a TOML escape is read whole,
/// `\uXXXX` in six bytes and any other in two, and anything else one grapheme at a time.
pub open spec fn held_at(t: Seq<char>, i: int) -> int {
    let bytes = encode_utf8(t);
    let at = bytes_upto(t, i) as int;
    if bytes[at] == 0x5Cu8 {
        if at + 1 < bytes.len() && bytes[at + 1] == 0x75u8 {
            6
        } else {
            2
        }
    } else {
        bytes_upto(first_grapheme(t.skip(i)), first_grapheme(t.skip(i)).len() as int) as int
    }
}

/// The byte offsets a line may end at, read on from character `i` with `width` columns already
/// taken, up to the first one past `max` columns. A piece is measured at no less than one column.
/// A piece whose bytes do not stand between two characters of the text, which is an escape the
/// text cuts short, ends the offsets there, as does a width past what a `usize` counts.
pub open spec fn breaks_from(t: Seq<char>, max: nat, i: int, width: nat) -> Seq<usize>
    decreases t.len() - i,
{
    if i < 0 || i >= t.len() {
        seq![]
    } else {
        let total = bytes_upto(t, t.len() as int) as int;
        let at = bytes_upto(t, i) as int;
        let held = held_at(t, i);
        let next = if at + held < total {
            at + held
        } else {
            total
        };
        match (char_at_byte(t, next), char_at_byte(t, next - held)) {
            (Some(e), Some(s)) => {
                let cols = display_width(t.subrange(s, e));
                let w = width + if cols > 0 {
                    cols as nat
                } else {
                    1nat
                };
                // the offset only ever moves forward, which is what ends the reading
                if e <= i || e > t.len() || w > usize::MAX {
                    seq![]
                } else if w > max {
                    seq![next as usize]
                } else {
                    seq![next as usize] + breaks_from(t, max, e, w)
                }
            },
            _ => seq![],
        }
    }
}

proof fn lemma_bytes_unique(t: Seq<char>, a: int, b: int)
    requires
        0 <= a <= t.len(),
        0 <= b <= t.len(),
        bytes_upto(t, a) == bytes_upto(t, b),
    ensures
        a == b,
{
    if a < b {
        crate::disabled::lemma_bytes_grow(t, a, b);
    } else if b < a {
        crate::disabled::lemma_bytes_grow(t, b, a);
    }
}

pub(crate) proof fn lemma_bytes_len(t: Seq<char>)
    ensures
        bytes_upto(t, t.len() as int) == encode_utf8(t).len(),
{
    assert(t.take(t.len() as int) =~= t);
}

/// The byte offsets of each character, and of the end: `offs[k]` is where character `k` starts.
pub(crate) fn byte_offsets(c: &Vec<char>, total: usize) -> (offs: Vec<usize>)
    requires
        total == bytes_upto(c@, c@.len() as int),
    ensures
        offs@.len() == c@.len() + 1,
        forall|k: int| 0 <= k <= c@.len() ==> #[trigger] offs@[k] == bytes_upto(c@, k),
{
    let mut offs: Vec<usize> = Vec::new();
    let mut bytes: usize = 0;
    let mut k: usize = 0;
    assert(c@.take(0) =~= Seq::<char>::empty());
    while k < c.len()
        invariant
            k <= c@.len(),
            total == bytes_upto(c@, c@.len() as int),
            offs@.len() == k,
            bytes == bytes_upto(c@, k as int),
            forall|j: int| 0 <= j < k ==> #[trigger] offs@[j] == bytes_upto(c@, j),
        decreases c.len() - k,
    {
        proof {
            crate::disabled::lemma_bytes_step(c@, k as int);
            if k + 1 < c@.len() {
                crate::disabled::lemma_bytes_grow(c@, k + 1, c@.len() as int);
            }
        }
        offs.push(bytes);
        bytes = bytes + crate::table::char_len_utf8(c[k]);
        k += 1;
    }
    offs.push(bytes);
    offs
}

/// Where the byte offset `b` stands among the offsets, if it stands before a character.
pub(crate) fn index_of_offset(offs: &Vec<usize>, b: usize, from: usize, Ghost(t): Ghost<Seq<char>>) -> (r:
    Option<usize>)
    requires
        offs@.len() == t.len() + 1,
        forall|k: int| 0 <= k <= t.len() ==> #[trigger] offs@[k] == bytes_upto(t, k),
        from <= t.len(),
        bytes_upto(t, from as int) <= b,
    ensures
        match (r, char_at_byte(t, b as int)) {
            (Some(a), Some(c)) => a == c && from <= a,
            (None, None) => true,
            _ => false,
        },
{
    let mut k = from;
    proof {
        assert forall|j: int| 0 <= j < k implies #[trigger] bytes_upto(t, j) < b by {
            crate::disabled::lemma_bytes_grow(t, j, from as int);
        }
    }
    while k < offs.len() && offs[k] < b
        invariant
            from <= k <= offs@.len(),
            offs@.len() == t.len() + 1,
            forall|j: int| 0 <= j <= t.len() ==> #[trigger] offs@[j] == bytes_upto(t, j),
            forall|j: int| 0 <= j < k ==> #[trigger] bytes_upto(t, j) < b,
        decreases offs.len() - k,
    {
        k += 1;
        proof {
            assert forall|j: int| 0 <= j < k implies #[trigger] bytes_upto(t, j) < b by {
                if j < from {
                    crate::disabled::lemma_bytes_grow(t, j, from as int);
                }
            }
        }
    }
    if k < offs.len() && offs[k] == b {
        proof {
            assert(bytes_upto(t, k as int) == b);
            let c = choose|c: int| 0 <= c <= t.len() && #[trigger] bytes_upto(t, c) == b;
            lemma_bytes_unique(t, c, k as int);
        }
        Some(k)
    } else {
        proof {
            if exists|c: int| 0 <= c <= t.len() && #[trigger] bytes_upto(t, c) == b {
                let c = choose|c: int| 0 <= c <= t.len() && #[trigger] bytes_upto(t, c) == b;
                if c >= k {
                    if c > k {
                        crate::disabled::lemma_bytes_grow(t, k as int, c);
                    }
                }
            }
        }
        None
    }
}

/// The offsets a line may end at, up to the first one past `max_columns`.
///
/// A character and a TOML escape each stand for one thing the file says, so breaking inside either
/// would write something it does not.
pub fn break_points(text: &str, max_columns: usize) -> (r: Vec<usize>)
    ensures
        r@ == breaks_from(text@, max_columns as nat, 0, 0),
{
    let bytes = text.as_bytes();
    let total = bytes.len();
    let c = chars_of(text);
    let ghost t = c@;
    proof {
        lemma_bytes_len(t);
    }
    let offs = byte_offsets(&c, total);
    let mut points: Vec<usize> = Vec::new();
    let mut i: usize = 0;
    let mut width: usize = 0;
    let ghost whole = breaks_from(t, max_columns as nat, 0, 0);
    while i < c.len()
        invariant
            t == c@,
            t == text@,
            bytes@ == encode_utf8(t),
            total == bytes@.len(),
            total == bytes_upto(t, t.len() as int),
            offs@.len() == t.len() + 1,
            forall|k: int| 0 <= k <= t.len() ==> #[trigger] offs@[k] == bytes_upto(t, k),
            i <= t.len(),
            width <= max_columns,
            whole == breaks_from(t, max_columns as nat, 0, 0),
            whole == points@ + breaks_from(t, max_columns as nat, i as int, width as nat),
        decreases c.len() - i,
    {
        let at = offs[i];
        proof {
            crate::disabled::lemma_bytes_grow(t, i as int, t.len() as int);
        }
        let held: usize = if bytes[at] == 0x5Cu8 {
            if at + 1 < total && bytes[at + 1] == 0x75u8 {
                6
            } else {
                2
            }
        } else {
            let rest = slice(&c, i, c.len());
            let rest_text = string_of(&rest);
            assert(rest@ =~= t.skip(i as int));
            match grapheme_at(rest_text.as_str()) {
                Some(g) => {
                    let gc = chars_of(g);
                    proof {
                        lemma_bytes_len(gc@);
                    }
                    g.as_bytes().len()
                },
                None => {
                    proof {
                        assert(false);
                    }
                    1
                },
            }
        };
        assert(held == held_at(t, i as int));
        let next = if held < total - at {
            at + held
        } else {
            total
        };
        if held > next {
            proof {
                assert(char_at_byte(t, next - held) is None);
                assert(breaks_from(t, max_columns as nat, i as int, width as nat) =~= Seq::<usize>::empty());
                assert(points@ =~= whole);
            }
            return points;
        }
        let e = match index_of_offset(&offs, next, i, Ghost(t)) {
            Some(e) => e,
            None => {
            proof {
                assert(breaks_from(t, max_columns as nat, i as int, width as nat) =~= Seq::<usize>::empty());
                assert(points@ =~= whole);
            }
                return points;
            },
        };
        assert(t.take(0) =~= Seq::<char>::empty());
        let s = match index_of_offset(&offs, next - held, 0, Ghost(t)) {
            Some(s) => s,
            None => {
            proof {
                assert(breaks_from(t, max_columns as nat, i as int, width as nat) =~= Seq::<usize>::empty());
                assert(points@ =~= whole);
            }
                return points;
            },
        };
        if e <= i {
        proof {
                assert(breaks_from(t, max_columns as nat, i as int, width as nat) =~= Seq::<usize>::empty());
                assert(points@ =~= whole);
            }
            return points;
        }
        proof {
            if s > e {
                crate::disabled::lemma_bytes_grow(t, e as int, s as int);
            }
        }
        let piece = slice(&c, s, e);
        let cols = columns(string_of(&piece).as_str());
        let step: usize = if cols > 0 {
            cols
        } else {
            1
        };
        if step > usize::MAX - width {
            proof {
                assert(breaks_from(t, max_columns as nat, i as int, width as nat) =~= Seq::<usize>::empty());
                assert(points@ =~= whole);
            }
            return points;
        }
        let w = width + step;
        let ghost before = points@;
        points.push(next);
        if w > max_columns {
            assert(points@ =~= whole);
            return points;
        }
        assert(points@ =~= before + seq![next]);
        width = w;
        i = e;
    }
    assert(points@ =~= whole);
    points
}


/// The offsets a line may end at climb, each past the one before it, and each stands between two
/// characters of the text, within it.
pub proof fn lemma_breaks_climb(t: Seq<char>, max: nat, i: int, width: nat)
    requires
        0 <= i <= t.len(),
        bytes_upto(t, t.len() as int) <= usize::MAX,
    ensures
        forall|k: int|
            0 <= k < breaks_from(t, max, i, width).len() ==> bytes_upto(t, i) < #[trigger] breaks_from(
                t,
                max,
                i,
                width,
            )[k] <= bytes_upto(t, t.len() as int) && (exists|c: int|
                0 <= c <= t.len() && bytes_upto(t, c) == breaks_from(t, max, i, width)[k]),
        forall|a: int, b: int|
            0 <= a < b < breaks_from(t, max, i, width).len() ==> #[trigger] breaks_from(
                t,
                max,
                i,
                width,
            )[a] < #[trigger] breaks_from(t, max, i, width)[b],
    decreases t.len() - i,
{
    if i < t.len() {
        let total = bytes_upto(t, t.len() as int) as int;
        let at = bytes_upto(t, i) as int;
        let held = held_at(t, i);
        let next = if at + held < total {
            at + held
        } else {
            total
        };
        let all = breaks_from(t, max, i, width);
        crate::disabled::lemma_bytes_grow(t, i, t.len() as int);
        match (char_at_byte(t, next), char_at_byte(t, next - held)) {
            (Some(e), Some(s)) => {
                let cols = display_width(t.subrange(s, e));
                let w = width + if cols > 0 {
                    cols as nat
                } else {
                    1nat
                };
                if e <= i || e > t.len() || w > usize::MAX {
                } else {
                    assert(bytes_upto(t, e) == next);
                    crate::disabled::lemma_bytes_grow(t, i, e);
                    assert((next as usize) as int == next);
                    assert(all[0] as int == next);
                    if w <= max {
                        lemma_breaks_climb(t, max, e, w);
                        let rest = breaks_from(t, max, e, w);
                        assert forall|k: int| 0 <= k < all.len() implies at < #[trigger] all[k]
                            <= total && (exists|c: int|
                            0 <= c <= t.len() && bytes_upto(t, c) == all[k]) by {
                            if k > 0 {
                                assert(all[k] == rest[k - 1]);
                            } else {
                                assert(bytes_upto(t, e) == all[0]);
                            }
                        }
                        assert forall|a: int, b: int| 0 <= a < b < all.len() implies #[trigger] all[a]
                            < #[trigger] all[b] by {
                            assert(all[b] == rest[b - 1]);
                            if a > 0 {
                                assert(all[a] == rest[a - 1]);
                            }
                        }
                    } else {
                        assert(bytes_upto(t, e) == all[0]);
                    }
                }
            },
            _ => {},
        }
    }
}

} // verus!
