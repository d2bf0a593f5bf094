//! How wide a value is written: the columns it takes in all, and those of the line it ends on,
//! since a value the layout broke over lines only ends on the last of them.

use vstd::prelude::*;
use crate::text::{chars_of, holds_char, slice, string_of};
use crate::width::{columns, display_width};

verus! {

/// How wide a value is written: the columns it takes in all, and the columns of the line it ends
/// on, since a value the layout broke over lines only ends on the last of them.
#[derive(Debug, Clone, Copy)]
pub struct Written {
    pub columns: usize,
    pub last_line: usize,
    pub broken: bool,
}

/// What the two take written one after the other: the columns add up, and the line the second ends
/// on is the line the pair ends on where the second was broken, and runs on from the first's
/// otherwise.
pub open spec fn joined(a: Written, b: Written) -> (int, int, bool) {
    (
        a.columns + b.columns,
        if b.broken {
            b.last_line as int
        } else {
            a.last_line + b.last_line
        },
        a.broken || b.broken,
    )
}

/// The measure as plain numbers.
pub open spec fn measure(w: Written) -> (int, int, bool) {
    (w.columns as int, w.last_line as int, w.broken)
}

/// Where the last line of the text starts: past its last line feed, or at its start.
pub open spec fn last_line_start(s: Seq<char>, j: int) -> int
    decreases j,
{
    if j <= 0 || j > s.len() {
        0
    } else if s[j - 1] == '\n' {
        j
    } else {
        last_line_start(s, j - 1)
    }
}

impl Written {
    /// What the text takes: the columns of all of it, those of what follows its last line feed,
    /// and whether it holds one.
    pub fn text(written: &str) -> (r: Self)
        ensures
            r.columns == display_width(written@),
            r.last_line == display_width(
                written@.skip(last_line_start(written@, written@.len() as int)),
            ),
            r.broken == written@.contains('\n'),
    {
        let c = chars_of(written);
        let mut j = c.len();
        while j > 0 && c[j - 1] != '\n'
            invariant
                j <= c@.len(),
                last_line_start(c@, c@.len() as int) == last_line_start(c@, j as int),
            decreases j,
        {
            j -= 1;
        }
        let last = slice(&c, j, c.len());
        assert(last@ =~= c@.skip(j as int));
        let broken = holds_char(&c, '\n');
        Written {
            columns: columns(written),
            last_line: columns(string_of(&last).as_str()),
            broken,
        }
    }

    /// A run of `columns` on one line.
    pub fn of(columns: usize) -> (r: Self)
        ensures
            r.columns == columns,
            r.last_line == columns,
            !r.broken,
    {
        Written { columns, last_line: columns, broken: false }
    }

    /// What the two take written one after the other.
    pub fn followed_by(self, next: Self) -> (r: Self)
        requires
            self.columns + next.columns <= usize::MAX,
            !next.broken ==> self.last_line + next.last_line <= usize::MAX,
        ensures
            measure(r) == joined(self, next),
    {
        Written {
            columns: self.columns + next.columns,
            last_line: if next.broken {
                next.last_line
            } else {
                self.last_line + next.last_line
            },
            broken: self.broken || next.broken,
        }
    }
}

/// Written one after the other, measures form a monoid: a run of no columns changes nothing on
/// either side, and how three are grouped does not change what they take together.
pub proof fn lemma_written_monoid(a: Written, b: Written, c: Written)
    ensures
        joined(Written { columns: 0, last_line: 0, broken: false }, a) == measure(a),
        joined(a, Written { columns: 0, last_line: 0, broken: false }) == measure(a),
        ({
            let ab = joined(a, b);
            let bc = joined(b, c);
            (ab.0 + c.columns, if c.broken {
                c.last_line as int
            } else {
                ab.1 + c.last_line
            }, ab.2 || c.broken) == (a.columns + bc.0, if bc.2 {
                bc.1
            } else {
                a.last_line + bc.1
            }, a.broken || bc.2)
        }),
{
}

/// What the members take written on one line: `[`, a space before each member, a comma between
/// each two, a space before the closing bracket where there are members, and `]`.
pub open spec fn one_line(held: Seq<Written>) -> (int, int, bool)
    decreases held.len(),
{
    if held.len() == 0 {
        (2, 2, false)
    } else {
        let inner = members_run(held);
        (inner.0 + 3, if inner.2 {
            inner.1 + 2
        } else {
            inner.1 + 3
        }, inner.2)
    }
}

/// The members with a space before each and a comma between each two, as one run.
pub open spec fn members_run(held: Seq<Written>) -> (int, int, bool)
    decreases held.len(),
{
    if held.len() == 0 {
        (0, 0, false)
    } else {
        let before = members_run(held.drop_last());
        let comma = if held.len() > 1 {
            1int
        } else {
            0int
        };
        let m = held.last();
        (before.0 + comma + 1 + m.columns, if m.broken {
            m.last_line as int
        } else {
            before.1 + comma + 1 + m.last_line
        }, before.2 || m.broken)
    }
}

/// What the members take written on one line, brackets and separators included: `[ a, b ]` puts a
/// space before each member, a comma between them, and a space before the closing bracket.
///
/// A member the file wrote over lines still runs over them here, so what the container closes on is
/// the line that member ended, not the sum of all of them.
pub fn one_line_written(held: &[Written]) -> (r: Written)
    requires
        forall|j: int|
            0 <= j <= held@.len() ==> #[trigger] members_run(held@.take(j)).0 + 3 <= usize::MAX
                && members_run(held@.take(j)).1 + 3 <= usize::MAX,
    ensures
        measure(r) == one_line(held@),
{
    let n = held.len();
    let last = if n > 0 {
        n - 1
    } else {
        0
    };
    let mut written = Written::of(1);
    let mut k: usize = 0;
    assert(held@.take(0) =~= Seq::<Written>::empty());
    while k < n
        invariant
            k <= n == held@.len(),
            last == if n > 0 {
                n - 1
            } else {
                0
            },
            forall|j: int|
                0 <= j <= n ==> #[trigger] members_run(held@.take(j)).0 + 3 <= usize::MAX
                    && members_run(held@.take(j)).1 + 3 <= usize::MAX,
            ({
                let run = members_run(held@.take(k as int));
                let comma = if 0 < k < n {
                    1int
                } else {
                    0int
                };
                measure(written) == (1 + run.0 + comma, if run.2 {
                    run.1 + comma
                } else {
                    1 + run.1 + comma
                }, run.2)
            }),
        decreases n - k,
    {
        let member = held[k];
        proof {
            assert(held@.take(k + 1).drop_last() =~= held@.take(k as int));
            assert(held@.take(k + 1).last() == member);
            assert(members_run(held@.take(k + 1)).0 + 3 <= usize::MAX);
            assert(members_run(held@.take(k as int)).1 + 3 <= usize::MAX);
        }
        written = written.followed_by(Written::of(1)).followed_by(member);
        if k < last {
            written = written.followed_by(Written::of(1));
        }
        k += 1;
    }
    assert(held@.take(n as int) =~= held@);
    written.followed_by(Written::of(if n > 0 {
        1
    } else {
        0
    })).followed_by(Written::of(1))
}

} // verus!
