//! Quoted text: taking the quotes off, whether a literal string can hold the text, and where a
//! long line of it breaks.

use vstd::prelude::*;
use crate::disabled::{bytes_upto, rfind};
use crate::text::{chars_of, slice, string_of};

verus! {

/// Where the run of `c` from `i` on ends.
pub open spec fn run_of(s: Seq<char>, c: char, i: int) -> int
    decreases s.len() - i,
{
    if 0 <= i < s.len() && s[i] == c {
        run_of(s, c, i + 1)
    } else {
        i
    }
}

/// Where the run of `c` that ends at `j` starts.
pub open spec fn run_back(s: Seq<char>, c: char, j: int) -> int
    decreases j,
{
    if 0 < j <= s.len() && s[j - 1] == c {
        run_back(s, c, j - 1)
    } else {
        j
    }
}

/// The text without the `c` it opens with, which is what `trim_start_matches` leaves.
pub open spec fn strip_start(s: Seq<char>, c: char) -> Seq<char> {
    s.skip(run_of(s, c, 0))
}

/// The text without the `c` it closes with, which is what `trim_end_matches` leaves.
pub open spec fn strip_end(s: Seq<char>, c: char) -> Seq<char> {
    s.take(run_back(s, c, s.len() as int))
}

/// The text with its double quotes taken off both ends, then its single quotes.
pub open spec fn unquoted(s: Seq<char>) -> Seq<char> {
    strip_end(strip_start(strip_end(strip_start(s, '"'), '"'), '\''), '\'')
}

proof fn lemma_run_of(s: Seq<char>, c: char, i: int)
    requires
        0 <= i <= s.len(),
    ensures
        i <= run_of(s, c, i) <= s.len(),
    decreases s.len() - i,
{
    if i < s.len() && s[i] == c {
        lemma_run_of(s, c, i + 1);
    }
}

proof fn lemma_run_back(s: Seq<char>, c: char, j: int)
    requires
        0 <= j <= s.len(),
    ensures
        0 <= run_back(s, c, j) <= j,
    decreases j,
{
    if 0 < j && s[j - 1] == c {
        lemma_run_back(s, c, j - 1);
    }
}

fn stripped_start(s: &Vec<char>, c: char) -> (r: Vec<char>)
    ensures
        r@ == strip_start(s@, c),
{
    proof {
        lemma_run_of(s@, c, 0);
    }
    let mut i: usize = 0;
    while i < s.len() && s[i] == c
        invariant
            i <= s@.len(),
            run_of(s@, c, 0) == run_of(s@, c, i as int),
        decreases s.len() - i,
    {
        i += 1;
    }
    let r = slice(s, i, s.len());
    assert(r@ =~= strip_start(s@, c));
    r
}

fn stripped_end(s: &Vec<char>, c: char) -> (r: Vec<char>)
    ensures
        r@ == strip_end(s@, c),
{
    proof {
        lemma_run_back(s@, c, s@.len() as int);
    }
    let mut j = s.len();
    while j > 0 && s[j - 1] == c
        invariant
            j <= s@.len(),
            run_back(s@, c, s@.len() as int) == run_back(s@, c, j as int),
        decreases j,
    {
        j -= 1;
    }
    let r = slice(s, 0, j);
    assert(r@ =~= strip_end(s@, c));
    r
}

/// The text with its double quotes taken off both ends, then its single quotes.
pub fn strip_quotes(s: &str) -> (r: String)
    ensures
        r@ == unquoted(s@),
{
    let c = chars_of(s);
    let a = stripped_start(&c, '"');
    let b = stripped_end(&a, '"');
    let d = stripped_start(&b, '\'');
    let e = stripped_end(&d, '\'');
    string_of(&e)
}

/// Whether the character is a control character, as `char::is_control` says: the C0 and C1
/// controls and DEL.
pub open spec fn control(c: char) -> bool {
    c <= '\u{1f}' || ('\u{7f}' <= c && c <= '\u{9f}')
}

/// Whether a literal string can hold the text: no `'`, and no control character but a tab.
pub open spec fn literal_fits(s: Seq<char>) -> bool {
    forall|k: int| 0 <= k < s.len() ==> #[trigger] s[k] != '\'' && (!control(s[k]) || s[k] == '\t')
}

/// Whether a literal string can hold the text: no `'`, and no control character but a tab.
pub fn can_use_literal_string(s: &str) -> (r: bool)
    ensures
        r == literal_fits(s@),
{
    let c = chars_of(s);
    let mut k: usize = 0;
    while k < c.len()
        invariant
            k <= c@.len(),
            c@ == s@,
            forall|j: int| 0 <= j < k ==> #[trigger] c@[j] != '\'' && (!control(c@[j]) || c@[j]
                == '\t'),
        decreases c.len() - k,
    {
        let ch = c[k];
        if ch == '\'' || ((ch <= '\u{1f}' || ('\u{7f}' <= ch && ch <= '\u{9f}')) && ch != '\t') {
            return false;
        }
        k += 1;
    }
    true
}

/// Where a line of at most `max_len` bytes breaks, as a byte offset: the whole text where it
/// fits, else after the last ` :: ` of the first `max_len` bytes, which separates the parts of a
/// classifier, else after their last space, else at `max_len`; never before the first byte.
pub open spec fn best_wrap(t: Seq<char>, max_len: nat, k: int) -> int {
    let total = bytes_upto(t, t.len() as int) as int;
    if max_len >= total {
        total
    } else {
        let head = t.take(k);
        match rfind(head, seq![' ', ':', ':', ' ']) {
            Some(p) => {
                let at = bytes_upto(head, p) + 4int;
                if at < total {
                    at
                } else {
                    total
                }
            },
            None => {
                let at = match rfind(head, seq![' ']) {
                    Some(p) => bytes_upto(head, p) + 1int,
                    None => max_len as int,
                };
                if at > 1 {
                    at
                } else {
                    1
                }
            },
        }
    }
}

/// Where a line of at most `max_len` bytes breaks. `max_len` falls between two characters of the
/// text, or past its end.
pub fn find_best_wrap_point(text: &str, max_len: usize) -> (r: usize)
    requires
        max_len >= bytes_upto(text@, text@.len() as int) || exists|k: int|
            0 <= k <= text@.len() && #[trigger] bytes_upto(text@, k) == max_len,
    ensures
        forall|k: int|
            0 <= k <= text@.len() && #[trigger] bytes_upto(text@, k) == max_len ==> r
                == best_wrap(text@, max_len as nat, k),
        max_len >= bytes_upto(text@, text@.len() as int) ==> r == bytes_upto(
            text@,
            text@.len() as int,
        ),
{
    let total = text.as_bytes().len();
    let c = chars_of(text);
    let ghost t = c@;
    proof {
        crate::width::lemma_bytes_len(t);
    }
    if max_len >= total {
        return total;
    }
    let offs = crate::width::byte_offsets(&c, total);
    assert(t.take(0) =~= Seq::<char>::empty());
    let k = match crate::width::index_of_offset(&offs, max_len, 0, Ghost(t)) {
        Some(k) => k,
        None => {
            proof {
                let k = choose|k: int| 0 <= k <= t.len() && #[trigger] bytes_upto(t, k) == max_len;
                assert(crate::width::char_at_byte(t, max_len as int) is Some);
            }
            return max_len;
        },
    };
    proof {
        assert forall|j: int| 0 <= j <= t.len() && #[trigger] bytes_upto(t, j) == max_len implies j
            == k by {
            let c = choose|c: int| 0 <= c <= t.len() && #[trigger] bytes_upto(t, c) == max_len as int;
            if j < k {
                crate::disabled::lemma_bytes_grow(t, j, k as int);
            } else if j > k {
                crate::disabled::lemma_bytes_grow(t, k as int, j);
            }
        }
    }
    let head = slice(&c, 0, k);
    assert(head@ =~= t.take(k as int));
    let sep = vec![' ', ':', ':', ' '];
    assert(sep@ =~= seq![' ', ':', ':', ' ']);
    match crate::disabled::rfind_in(&head, &sep) {
        Some(p) => {
            proof {
                crate::disabled::lemma_last_written(head@, sep@, head@.len() - sep@.len());
                assert(t.take(k as int).take(p as int) =~= t.take(p as int));
                assert(t.take(k as int).take(p + 4) =~= t.take(p + 4));
                crate::disabled::lemma_bytes_step(t, p as int);
                crate::disabled::lemma_bytes_step(t, p + 1);
                crate::disabled::lemma_bytes_step(t, p + 2);
                crate::disabled::lemma_bytes_step(t, p + 3);
                assert(t[p as int] == ' ' && t[p + 1] == ':' && t[p + 2] == ':' && t[p + 3] == ' ');
            }
            let at = offs[p + 4];
            if at < total {
                at
            } else {
                total
            }
        },
        None => {
            let space = vec![' '];
            assert(space@ =~= seq![' ']);
            let at = match crate::disabled::rfind_in(&head, &space) {
                Some(p) => {
                    proof {
                        crate::disabled::lemma_last_written(
                            head@,
                            space@,
                            head@.len() - space@.len(),
                        );
                        assert(t.take(k as int).take(p as int) =~= t.take(p as int));
                        crate::disabled::lemma_bytes_step(t, p as int);
                        assert(t[p as int] == ' ');
                    }
                    offs[p + 1]
                },
                None => max_len,
            };
            if at > 1 {
                at
            } else {
                1
            }
        },
    }
}

} // verus!
