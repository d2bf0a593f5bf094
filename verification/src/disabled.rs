//! Keys a file wrote as comments (`# default = true`) and the lines around them.
//!
//! Such a key is turned back on for the formatting pass, so that it is ordered with its table, and
//! commented out again afterwards. What stands here is the part of that pass read off the lines
//! themselves: which lines are comments, where a value a comment opens closes again, the marker that
//! tags a key the pass turned on, and how a line is commented back.

use vstd::prelude::*;
use crate::text::{
    chars_of, is_written_at, is_ws, lit, push_all, string_of, trim_start, written_at, ws_end,
    ws_end_at,
};

verus! {

/// Tags the trailing comment of a key the pass turned on, so the pass finds it again once the
/// formatter has moved everything around. A file may hold this text itself, so the pass works with
/// a marker built from this one that the file does not hold.
pub const MARKER: &'static str = "__toml_fmt_disabled__";

/// The indent before the `#` of a comment line and what the comment says, one space after the
/// `#` dropped; `None` for a line that is not a comment.
pub open spec fn comment_parts(line: Seq<char>) -> Option<(Seq<char>, Seq<char>)> {
    let t = trim_start(line);
    if t.len() > 0 && t[0] == '#' {
        let rest = t.skip(1);
        Some(
            (
                line.take(ws_end(line, 0)),
                if rest.len() > 0 && rest[0] == ' ' {
                    rest.skip(1)
                } else {
                    rest
                },
            ),
        )
    } else {
        None
    }
}

/// Whether the line is a comment.
pub open spec fn is_comment(line: Seq<char>) -> bool {
    comment_parts(line) is Some
}

/// What the comment on the line says, or nothing where the line is not one.
pub open spec fn body_of(line: Seq<char>) -> Seq<char> {
    match comment_parts(line) {
        Some(p) => p.1,
        None => Seq::empty(),
    }
}

pub(crate) fn comment_of(line: &Vec<char>) -> (r: Option<(Vec<char>, Vec<char>)>)
    ensures
        match (r, comment_parts(line@)) {
            (Some(a), Some(b)) => a.0@ == b.0 && a.1@ == b.1,
            (None, None) => true,
            _ => false,
        },
{
    let a = ws_end_at(line, 0);
    proof {
        crate::text::lemma_ws_end_bounds(line@, 0);
    }
    if a < line.len() && line[a] == '#' {
        let indent = crate::text::slice(line, 0, a);
        let from = if a + 1 < line.len() && line[a + 1] == ' ' {
            a + 2
        } else {
            a + 1
        };
        let body = crate::text::slice(line, from, line.len());
        assert(indent@ =~= line@.take(ws_end(line@, 0)));
        assert(trim_start(line@) =~= line@.skip(a as int));
        assert(trim_start(line@).skip(1) =~= line@.skip(a + 1));
        assert(body@ =~= body_of(line@));
        Some((indent, body))
    } else {
        assert(trim_start(line@) =~= line@.skip(a as int));
        None
    }
}

/// The indent before the `#` of a comment line and what the comment says, dropping the one space
/// after the `#` that commenting a line back writes; `None` for a line that is not a comment.
pub fn split_comment(line: &str) -> (r: Option<(String, String)>)
    ensures
        match (r, comment_parts(line@)) {
            (Some(a), Some(b)) => a.0@ == b.0 && a.1@ == b.1,
            (None, None) => true,
            _ => false,
        },
{
    match comment_of(&chars_of(line)) {
        Some((indent, body)) => Some((string_of(&indent), string_of(&body))),
        None => None,
    }
}

/// The lines joined back with line feeds, closed by one where the text they came from was.
pub open spec fn joined_like(original: Seq<char>, lines: Seq<Seq<char>>) -> Seq<char> {
    crate::text::join(lines, seq!['\n']) + if original.len() > 0 && original.last() == '\n' {
        seq!['\n']
    } else {
        Seq::<char>::empty()
    }
}

/// The lines joined back with line feeds, closed by one where `original` was.
pub fn join_like(original: &str, lines: Vec<String>) -> (r: String)
    ensures
        r@ == joined_like(original@, lines@.map_values(|l: String| l@)),
{
    let mut pieces: Vec<Vec<char>> = Vec::new();
    let mut i: usize = 0;
    while i < lines.len()
        invariant
            i <= lines.len(),
            pieces@.len() == i,
            forall|k: int| 0 <= k < i ==> #[trigger] pieces@[k]@ == lines@[k]@,
        decreases lines.len() - i,
    {
        pieces.push(chars_of(lines[i].as_str()));
        i += 1;
    }
    assert(crate::text::views(pieces@) =~= lines@.map_values(|l: String| l@));
    let newline = lit("\n");
    proof {
        reveal_strlit("\n");
    }
    assert(newline@ =~= seq!['\n']);
    let mut out = crate::text::joined(&pieces, &newline);
    let text = chars_of(original);
    if text.len() > 0 && text[text.len() - 1] == '\n' {
        out.push('\n');
    } else {
        assert(out@ =~= out@ + Seq::<char>::empty());
    }
    string_of(&out)
}

/// How many line feeds the text holds.
pub fn breaks(written: &str) -> (r: usize)
    ensures
        r == crate::table::count_of(written@, '\n'),
{
    crate::table::count_char(&chars_of(written), '\n')
}

/// The text past its first `count` characters.
pub fn past(text: &str, count: usize) -> (r: String)
    ensures
        r@ == if count <= text@.len() {
            text@.skip(count as int)
        } else {
            Seq::<char>::empty()
        },
{
    let c = chars_of(text);
    let from = if count <= c.len() {
        count
    } else {
        c.len()
    };
    let rest = crate::text::slice(&c, from, c.len());
    string_of(&rest)
}

/// The quotes a string opens and closes with.
#[derive(Clone, Copy, Debug, PartialEq, Eq, Structural)]
pub enum Quote {
    /// `"`, closing on the line it opened.
    Basic,
    /// `'`, closing on the line it opened.
    Literal,
    /// `"""`.
    MlBasic,
    /// `'''`.
    MlLiteral,
}

/// The text the quotes are written as.
pub open spec fn quote_text(q: Quote) -> Seq<char> {
    match q {
        Quote::Basic => seq!['"'],
        Quote::Literal => seq!['\''],
        Quote::MlBasic => seq!['"', '"', '"'],
        Quote::MlLiteral => seq!['\'', '\'', '\''],
    }
}

/// Whether a backslash inside the quotes opens an escape, which only a basic string reads.
pub open spec fn escapes(q: Quote) -> bool {
    q is Basic || q is MlBasic
}

/// Whether the quotes close on the line they opened on.
pub open spec fn one_line(q: Quote) -> bool {
    q is Basic || q is Literal
}

/// How much of a value is left open after reading the text from `i` on: the string it stands in,
/// how deep in brackets it is, and the brackets opened less the ones closed. A comment runs to the
/// end of its line and says nothing about the value.
pub open spec fn scan(inside: Option<Quote>, depth: int, net: int, s: Seq<char>, i: int) -> (
    Option<Quote>,
    int,
    int,
)
    decreases s.len() - i,
{
    if i < 0 || i >= s.len() {
        (inside, depth, net)
    } else {
        match inside {
            Some(q) => if written_at(s, i, quote_text(q)) {
                scan(None, depth, net, s, i + quote_text(q).len())
            } else if escapes(q) && s[i] == '\\' {
                scan(
                    inside,
                    depth,
                    net,
                    s,
                    if i + 2 <= s.len() {
                        i + 2
                    } else {
                        s.len() as int
                    },
                )
            } else {
                scan(inside, depth, net, s, i + 1)
            },
            None => if written_at(s, i, quote_text(Quote::MlBasic)) {
                scan(Some(Quote::MlBasic), depth, net, s, i + 3)
            } else if written_at(s, i, quote_text(Quote::MlLiteral)) {
                scan(Some(Quote::MlLiteral), depth, net, s, i + 3)
            } else if s[i] == '"' {
                scan(Some(Quote::Basic), depth, net, s, i + 1)
            } else if s[i] == '\'' {
                scan(Some(Quote::Literal), depth, net, s, i + 1)
            } else if s[i] == '[' || s[i] == '{' {
                scan(None, depth + 1, net + 1, s, i + 1)
            } else if s[i] == ']' || s[i] == '}' {
                scan(
                    None,
                    if depth > 0 {
                        depth - 1
                    } else {
                        0
                    },
                    net - 1,
                    s,
                    i + 1,
                )
            } else if s[i] == '#' {
                (None, depth, net)
            } else {
                scan(None, depth, net, s, i + 1)
            },
        }
    }
}

/// What is left open after one more line of a value: a string opened with one quote closes on
/// the line it opened.
pub open spec fn after_line(inside: Option<Quote>, depth: int, net: int, body: Seq<char>) -> (
    Option<Quote>,
    int,
    int,
) {
    let r = scan(inside, depth, net, body, 0);
    (
        match r.0 {
            Some(q) => if one_line(q) {
                None
            } else {
                r.0
            },
            None => None,
        },
        r.1,
        r.2,
    )
}

proof fn lemma_scan_bounds(inside: Option<Quote>, depth: int, net: int, s: Seq<char>, i: int)
    requires
        0 <= i <= s.len(),
        depth >= 0,
    ensures
        0 <= scan(inside, depth, net, s, i).1 <= depth + (s.len() - i),
        net - (s.len() - i) <= scan(inside, depth, net, s, i).2 <= net + (s.len() - i),
    decreases s.len() - i,
{
    if i < s.len() {
        match inside {
            Some(q) => {
                if written_at(s, i, quote_text(q)) {
                    lemma_scan_bounds(None, depth, net, s, i + quote_text(q).len());
                } else if escapes(q) && s[i] == '\\' {
                    if i + 2 <= s.len() {
                        lemma_scan_bounds(inside, depth, net, s, i + 2);
                    } else {
                        lemma_scan_bounds(inside, depth, net, s, s.len() as int);
                    }
                } else {
                    lemma_scan_bounds(inside, depth, net, s, i + 1);
                }
            },
            None => {
                if written_at(s, i, quote_text(Quote::MlBasic)) {
                    lemma_scan_bounds(Some(Quote::MlBasic), depth, net, s, i + 3);
                } else if written_at(s, i, quote_text(Quote::MlLiteral)) {
                    lemma_scan_bounds(Some(Quote::MlLiteral), depth, net, s, i + 3);
                } else if s[i] == '"' {
                    lemma_scan_bounds(Some(Quote::Basic), depth, net, s, i + 1);
                } else if s[i] == '\'' {
                    lemma_scan_bounds(Some(Quote::Literal), depth, net, s, i + 1);
                } else if s[i] == '[' || s[i] == '{' {
                    lemma_scan_bounds(None, depth + 1, net + 1, s, i + 1);
                } else if s[i] == ']' || s[i] == '}' {
                    lemma_scan_bounds(
                        None,
                        if depth > 0 {
                            depth - 1
                        } else {
                            0
                        },
                        net - 1,
                        s,
                        i + 1,
                    );
                } else if s[i] == '#' {
                } else {
                    lemma_scan_bounds(None, depth, net, s, i + 1);
                }
            },
        }
    }
}

/// How much of a value the lines read so far have left open: a multi-line string, an array or an
/// inline table. A line shaped like a header inside one of those is text the value holds rather
/// than a table of its own.
pub struct OpenValue {
    pub inside: Option<Quote>,
    pub depth: usize,
    /// The brackets the line opened less the ones it closed, which is what a line adds to the
    /// depth a value already stands at.
    pub net: i64,
}

fn quote_chars(q: Quote) -> (r: Vec<char>)
    ensures
        r@ == quote_text(q),
{
    let r = match q {
        Quote::Basic => vec!['"'],
        Quote::Literal => vec!['\''],
        Quote::MlBasic => vec!['"', '"', '"'],
        Quote::MlLiteral => vec!['\'', '\'', '\''],
    };
    assert(r@ =~= quote_text(q));
    r
}

impl OpenValue {
    /// Nothing open yet.
    pub fn new() -> (r: Self)
        ensures
            r.inside is None,
            r.depth == 0,
            r.net == 0,
    {
        OpenValue { inside: None, depth: 0, net: 0 }
    }

    /// Read one more line of the value.
    pub fn read(&mut self, body: &Vec<char>)
        requires
            old(self).depth + body@.len() <= usize::MAX,
            i64::MIN + body@.len() <= old(self).net <= i64::MAX - body@.len(),
        ensures
            (final(self).inside, final(self).depth as int, final(self).net as int) == after_line(
                old(self).inside,
                old(self).depth as int,
                old(self).net as int,
                body@,
            ),
    {
        let ghost start = (self.inside, self.depth as int, self.net as int);
        let n = body.len();
        let mut i: usize = 0;
        proof {
            lemma_scan_bounds(self.inside, self.depth as int, self.net as int, body@, 0);
        }
        loop
            invariant
                i <= n,
                n == body@.len(),
                old(self).depth + n <= usize::MAX,
                i64::MIN + n <= old(self).net <= i64::MAX - n,
                self.depth <= old(self).depth + i,
                old(self).net - i <= self.net <= old(self).net + i,
                scan(self.inside, self.depth as int, self.net as int, body@, i as int) == scan(
                    start.0,
                    start.1,
                    start.2,
                    body@,
                    0,
                ),
            ensures
                (self.inside, self.depth as int, self.net as int) == scan(
                    start.0,
                    start.1,
                    start.2,
                    body@,
                    0,
                ),
            decreases n - i,
        {
            if i >= n {
                break;
            }
            match self.inside {
                Some(q) => {
                    let close = quote_chars(q);
                    if is_written_at(body, i, &close) {
                        self.inside = None;
                        i += close.len();
                        continue;
                    }
                    let escaping = match q {
                        Quote::Basic => true,
                        Quote::MlBasic => true,
                        _ => false,
                    };
                    if escaping && body[i] == '\\' {
                        if i + 1 < n {
                            i += 2;
                        } else {
                            i = n;
                        }
                    } else {
                        i += 1;
                    }
                },
                None => {
                    let ml_basic = quote_chars(Quote::MlBasic);
                    let ml_literal = quote_chars(Quote::MlLiteral);
                    if is_written_at(body, i, &ml_basic) {
                        self.inside = Some(Quote::MlBasic);
                        i += 3;
                    } else if is_written_at(body, i, &ml_literal) {
                        self.inside = Some(Quote::MlLiteral);
                        i += 3;
                    } else if body[i] == '"' {
                        self.inside = Some(Quote::Basic);
                        i += 1;
                    } else if body[i] == '\'' {
                        self.inside = Some(Quote::Literal);
                        i += 1;
                    } else if body[i] == '[' || body[i] == '{' {
                        self.depth = self.depth + 1;
                        self.net = self.net + 1;
                        i += 1;
                    } else if body[i] == ']' || body[i] == '}' {
                        self.depth = if self.depth > 0 {
                            self.depth - 1
                        } else {
                            0
                        };
                        self.net = self.net - 1;
                        i += 1;
                    } else if body[i] == '#' {
                        break;
                    } else {
                        i += 1;
                    }
                },
            }
        }
        match self.inside {
            Some(Quote::Basic) => {
                self.inside = None;
            },
            Some(Quote::Literal) => {
                self.inside = None;
            },
            _ => {},
        }
    }

    /// Whether a string, an array or an inline table is still open.
    pub fn is_open(&self) -> (r: bool)
        ensures
            r == (self.inside is Some || self.depth > 0),
    {
        self.inside.is_some() || self.depth > 0
    }
}

/// How many characters the lines hold together.
pub open spec fn total_len(ls: Seq<Seq<char>>) -> nat
    decreases ls.len(),
{
    if ls.len() == 0 {
        0
    } else {
        total_len(ls.drop_last()) + ls.last().len()
    }
}

proof fn lemma_total_prefix(ls: Seq<Seq<char>>, a: int, b: int)
    requires
        0 <= a <= b <= ls.len(),
    ensures
        total_len(ls.take(a)) <= total_len(ls.take(b)),
        b > 0 ==> total_len(ls.take(b)) == total_len(ls.take(b - 1)) + ls[b - 1].len(),
    decreases b - a,
{
    if b > 0 {
        assert(ls.take(b).drop_last() =~= ls.take(b - 1));
    }
    if a < b {
        lemma_total_prefix(ls, a, b - 1);
    }
}

proof fn lemma_total_all(ls: Seq<Seq<char>>)
    ensures
        ls.take(ls.len() as int) == ls,
{
    assert(ls.take(ls.len() as int) =~= ls);
}

/// What reading a comment line on its own leaves open.
pub open spec fn line_after(line: Seq<char>) -> (Option<Quote>, int, int) {
    after_line(None, 0, 0, body_of(line))
}

/// The brackets the line opens less the ones it closes.
pub open spec fn line_net(line: Seq<char>) -> int {
    line_after(line).2
}

/// Whether the line leaves a string written over lines open.
pub open spec fn line_spans(line: Seq<char>) -> bool {
    line_after(line).0 is Some
}

/// How deep in brackets the run of comment lines stands once line `x` is read, counted from the
/// start of the run.
pub open spec fn depth_at(ls: Seq<Seq<char>>, x: int) -> int
    decreases x,
{
    if x < 0 || x >= ls.len() {
        0
    } else {
        line_net(ls[x]) + if x > 0 && is_comment(ls[x - 1]) {
            depth_at(ls, x - 1)
        } else {
            0
        }
    }
}

/// The depth the line before `h` left behind, which is where a value opened on `h` starts from.
pub open spec fn depth_before(ls: Seq<Seq<char>>, h: int) -> int {
    if h > 0 && is_comment(ls[h - 1]) {
        depth_at(ls, h - 1)
    } else {
        0
    }
}

/// The first line from `x` on, inside the run of comments, where the depth comes back to what it
/// was before line `h`: where the value opened on `h` closes.
pub open spec fn first_close(ls: Seq<Seq<char>>, h: int, x: int) -> Option<int>
    decreases ls.len() - x,
{
    if x < 0 || x >= ls.len() || !is_comment(ls[x]) {
        None
    } else if depth_at(ls, x) <= depth_before(ls, h) {
        Some(x)
    } else {
        first_close(ls, h, x + 1)
    }
}

/// The first line of the run of comments that line `x` stands in.
pub open spec fn run_start(ls: Seq<Seq<char>>, x: int) -> int
    decreases x,
{
    if 0 < x <= ls.len() && is_comment(ls[x - 1]) {
        run_start(ls, x - 1)
    } else {
        x
    }
}

/// The last line of the run of comments that line `x` stands in.
pub open spec fn run_end(ls: Seq<Seq<char>>, x: int) -> int
    decreases ls.len() - x,
{
    if 0 <= x && x + 1 < ls.len() && is_comment(ls[x + 1]) {
        run_end(ls, x + 1)
    } else {
        x
    }
}

/// Whether a line of the run that line `h` stands in leaves a string written over lines open.
pub open spec fn run_spans(ls: Seq<Seq<char>>, h: int) -> bool {
    exists|x: int| run_start(ls, h) <= x <= run_end(ls, h) && #[trigger] line_spans(ls[x])
}

/// Where the value opened on a line first closes.
#[derive(Clone, Copy, Debug, PartialEq, Eq, Structural)]
pub enum Close {
    /// On this line.
    At(usize),
    /// On no line of the run it stands in.
    Never,
    /// Not from the depth alone: the run holds a string written over lines.
    Scan,
}

/// Where the value opened on line `h` first closes.
pub open spec fn close_of(ls: Seq<Seq<char>>, h: int) -> Close {
    if !is_comment(ls[h]) {
        Close::Never
    } else if run_spans(ls, h) {
        Close::Scan
    } else {
        match first_close(ls, h, h) {
            Some(x) => Close::At(x as usize),
            None => Close::Never,
        }
    }
}

proof fn lemma_net_bound(line: Seq<char>)
    ensures
        -line.len() <= line_net(line) <= line.len(),
{
    lemma_scan_bounds(None, 0, 0, body_of(line), 0);
    let t = trim_start(line);
    if t.len() > 0 && t[0] == '#' {
        crate::text::lemma_ws_end_bounds(line, 0);
        assert(body_of(line).len() <= line.len());
    }
}

proof fn lemma_depth_bound(ls: Seq<Seq<char>>, x: int)
    requires
        0 <= x < ls.len(),
    ensures
        -total_len(ls.take(x + 1)) <= depth_at(ls, x) <= total_len(ls.take(x + 1)),
    decreases x,
{
    lemma_net_bound(ls[x]);
    lemma_total_prefix(ls, x, x + 1);
    if x > 0 {
        lemma_depth_bound(ls, x - 1);
    } else {
        assert(ls.take(0) =~= Seq::<Seq<char>>::empty());
    }
}

proof fn lemma_run_start(ls: Seq<Seq<char>>, rs: int, x: int)
    requires
        0 <= rs <= x <= ls.len(),
        rs == 0 || !is_comment(ls[rs - 1]),
        forall|y: int| rs <= y < x ==> is_comment(#[trigger] ls[y]),
    ensures
        run_start(ls, x) == rs,
    decreases x - rs,
{
    if x > rs {
        lemma_run_start(ls, rs, x - 1);
    }
}

proof fn lemma_run_end(ls: Seq<Seq<char>>, x: int, e: int)
    requires
        0 <= x < e <= ls.len(),
        e == ls.len() || !is_comment(ls[e]),
        forall|y: int| x <= y < e ==> is_comment(#[trigger] ls[y]),
    ensures
        run_end(ls, x) == e - 1,
    decreases e - x,
{
    if x + 1 < e {
        lemma_run_end(ls, x + 1, e);
    }
}

proof fn lemma_found(ls: Seq<Seq<char>>, h: int, y: int, x: int)
    requires
        0 <= h <= y <= x < ls.len(),
        forall|z: int| y <= z <= x ==> is_comment(#[trigger] ls[z]),
        forall|z: int| y <= z < x ==> #[trigger] depth_at(ls, z) > depth_before(ls, h),
        depth_at(ls, x) <= depth_before(ls, h),
    ensures
        first_close(ls, h, y) == Some(x),
    decreases x - y,
{
    if y < x {
        lemma_found(ls, h, y + 1, x);
    }
}

proof fn lemma_not_found(ls: Seq<Seq<char>>, h: int, y: int, e: int)
    requires
        0 <= y <= e <= ls.len(),
        e == ls.len() || !is_comment(ls[e]),
        forall|z: int| y <= z < e ==> is_comment(#[trigger] ls[z]),
        forall|z: int| y <= z < e ==> #[trigger] depth_at(ls, z) > depth_before(ls, h),
    ensures
        first_close(ls, h, y) == None::<int>,
    decreases e - y,
{
    if y < e {
        lemma_not_found(ls, h, y + 1, e);
    }
}

/// The comment bodies of the lines, `None` for a line that is not a comment.
fn bodies_of(ls: &Vec<Vec<char>>) -> (r: Vec<Option<Vec<char>>>)
    ensures
        r@.len() == ls@.len(),
        forall|x: int|
            0 <= x < ls@.len() ==> match #[trigger] r@[x] {
                Some(b) => is_comment(ls@[x]@) && b@ == body_of(ls@[x]@),
                None => !is_comment(ls@[x]@),
            },
{
    let mut r: Vec<Option<Vec<char>>> = Vec::new();
    let mut i: usize = 0;
    while i < ls.len()
        invariant
            i <= ls@.len(),
            r@.len() == i,
            forall|x: int|
                0 <= x < i ==> match #[trigger] r@[x] {
                    Some(b) => is_comment(ls@[x]@) && b@ == body_of(ls@[x]@),
                    None => !is_comment(ls@[x]@),
                },
        decreases ls.len() - i,
    {
        match comment_of(&ls[i]) {
            Some((_, body)) => r.push(Some(body)),
            None => r.push(None),
        }
        i += 1;
    }
    r
}

/// The text of each line as characters.
fn char_lines(lines: &[&str]) -> (r: Vec<Vec<char>>)
    ensures
        crate::text::views(r@) == lines@.map_values(|l: &str| l@),
{
    let mut r: Vec<Vec<char>> = Vec::new();
    let mut i: usize = 0;
    while i < lines.len()
        invariant
            i <= lines@.len(),
            r@.len() == i,
            forall|x: int| 0 <= x < i ==> #[trigger] r@[x]@ == lines@[x]@,
        decreases lines.len() - i,
    {
        r.push(chars_of(lines[i]));
        i += 1;
    }
    assert(crate::text::views(r@) =~= lines@.map_values(|l: &str| l@));
    r
}

/// Whether the value opened on line `h` is still open through the lines before `e`.
pub open spec fn open_upto(ls: Seq<Seq<char>>, h: int, e: int) -> bool {
    forall|z: int| h <= z < e ==> #[trigger] depth_at(ls, z) > depth_before(ls, h)
}

proof fn lemma_finish(ls: Seq<Seq<char>>, rs: int, e: int, h: int, spans: bool)
    requires
        0 <= rs <= h < e <= ls.len(),
        rs == 0 || !is_comment(ls[rs - 1]),
        e == ls.len() || !is_comment(ls[e]),
        forall|y: int| rs <= y < e ==> is_comment(#[trigger] ls[y]),
        spans == exists|y: int| rs <= y < e && #[trigger] line_spans(ls[y]),
    ensures
        run_spans(ls, h) == spans,
        open_upto(ls, h, e) ==> first_close(ls, h, h) == None::<int>,
{
    lemma_run_start(ls, rs, h);
    lemma_run_end(ls, h, e);
    if spans {
        let y = choose|y: int| rs <= y < e && #[trigger] line_spans(ls[y]);
        assert(run_start(ls, h) <= y <= run_end(ls, h) && line_spans(ls[y]));
    }
    if open_upto(ls, h, e) {
        lemma_not_found(ls, h, h, e);
    }
}

/// A run holding a string written over lines says too little through its brackets alone, so
/// every line of it, from `from` up to `to`, is read from its own line.
pub fn read_line_by_line(closes: &mut Vec<Close>, from: usize, to: usize, spans_lines: bool)
    requires
        from <= to <= old(closes)@.len(),
    ensures
        final(closes)@.len() == old(closes)@.len(),
        forall|h: int|
            0 <= h < old(closes)@.len() ==> #[trigger] final(closes)@[h] == if spans_lines && from
                <= h < to {
                Close::Scan
            } else {
                old(closes)@[h]
            },
{
    if !spans_lines {
        return;
    }
    let mut k = from;
    while k < to
        invariant
            from <= k <= to <= closes@.len(),
            closes@.len() == old(closes)@.len(),
            forall|h: int|
                0 <= h < old(closes)@.len() ==> #[trigger] closes@[h] == if from <= h < k {
                    Close::Scan
                } else {
                    old(closes)@[h]
                },
        decreases to - k,
    {
        closes.set(k, Close::Scan);
        k += 1;
    }
}

#[verifier::opaque]
/// What reading the lines before `at` has settled, where the run of comments being read starts at
/// `rs`: every line before the run has its answer, each line of the run either has the line it
/// closes on or waits for one, and the waiting lines stand in order of where they started from.
pub open spec fn settled(
    lv: Seq<Seq<char>>,
    rs: int,
    at: int,
    closes: Seq<Close>,
    waiting: Seq<usize>,
) -> bool {
    &&& 0 <= rs <= at <= lv.len()
    &&& closes.len() == lv.len()
    &&& rs == 0 || !is_comment(lv[rs - 1])
    &&& forall|y: int| rs <= y < at ==> is_comment(#[trigger] lv[y])
    &&& forall|h: int| 0 <= h < rs ==> #[trigger] closes[h] == close_of(lv, h)
    &&& forall|h: int| at <= h < lv.len() ==> #[trigger] closes[h] == Close::Never
    &&& forall|h: int|
        rs <= h < at && #[trigger] open_upto(lv, h, at) ==> closes[h] == Close::Never
            && waiting.contains(h as usize)
    &&& forall|h: int|
        rs <= h < at && !#[trigger] open_upto(lv, h, at) ==> (match first_close(lv, h, h) {
            Some(x) => x < at && closes[h] == Close::At(x as usize),
            None => false,
        }) && !waiting.contains(h as usize)
    &&& forall|i: int|
        0 <= i < waiting.len() ==> rs <= #[trigger] waiting[i] < at && open_upto(
            lv,
            waiting[i] as int,
            at,
        )
    &&& forall|i: int, j: int|
        0 <= i < j < waiting.len() ==> #[trigger] waiting[i] < #[trigger] waiting[j]
            && depth_before(lv, waiting[i] as int) < depth_before(lv, waiting[j] as int)
}

proof fn lemma_run_done(
    lv: Seq<Seq<char>>,
    rs: int,
    e: int,
    closes: Seq<Close>,
    waiting: Seq<usize>,
    spans: bool,
)
    requires
        settled(lv, rs, e, closes, waiting),
        e == lv.len() || !is_comment(lv[e]),
        spans == exists|y: int| rs <= y < e && #[trigger] line_spans(lv[y]),
    ensures
        forall|h: int| rs <= h < e ==> #[trigger] close_of(lv, h) == if spans {
            Close::Scan
        } else {
            closes[h]
        },
{
    reveal(settled);
    assert forall|h: int| rs <= h < e implies #[trigger] close_of(lv, h) == if spans {
        Close::Scan
    } else {
        closes[h]
    } by {
        lemma_finish(lv, rs, e, h, spans);
        assert(is_comment(lv[h]));
        if open_upto(lv, h, e) {
            assert(closes[h] == Close::Never);
        }
    }
}

/// The depth the line before `at` left behind, which is where a value opened there starts from:
/// nothing at the start of its run.
pub fn before(ends: &Vec<i64>, at: usize, run_start: usize) -> (r: i64)
    requires
        run_start <= at < ends@.len(),
    ensures
        r == if at == run_start {
            0
        } else {
            ends@[at - 1]
        },
{
    if at == run_start {
        0
    } else {
        ends[at - 1]
    }
}

/// Close, on line `at`, every waiting value the line brings the depth back for.
#[verifier::rlimit(40)]
fn close_at(
    closes: &mut Vec<Close>,
    waiting: &mut Vec<usize>,
    ends: &Vec<i64>,
    rs: usize,
    at: usize,
    depth: i64,
    Ghost(lv): Ghost<Seq<Seq<char>>>,
)
    requires
        settled(lv, rs as int, at as int, old(closes)@, old(waiting)@),
        at < lv.len(),
        lv.len() <= usize::MAX,
        is_comment(lv[at as int]),
        depth == depth_at(lv, at as int),
        ends@.len() == lv.len(),
        forall|y: int| rs <= y < at ==> #[trigger] ends@[y] == depth_at(lv, y),
    ensures
        settled(lv, rs as int, at + 1, final(closes)@, final(waiting)@),
{
    proof {
        reveal(settled);
    }
    let ghost closes_before = closes@;
    let ghost pre = waiting@;
    proof {
        if pre.len() > 0 {
            let w = pre[pre.len() - 1] as int;
            assert(open_upto(lv, w, at as int));
            assert(depth_at(lv, at - 1) > depth_before(lv, w));
        }
    }
    waiting.push(at);
    let ghost full = waiting@;
    proof {
        assert forall|h: int|
            rs <= h < at && #[trigger] open_upto(lv, h, at as int) implies full.contains(
            h as usize,
        ) by {
            let i = choose|i: int| 0 <= i < pre.len() && pre[i] == h as usize;
            assert(full[i] == h as usize);
        }
        assert(full[full.len() - 1] == at);
        assert forall|i: int| 0 <= i < full.len() implies #[trigger] closes_before[full[i] as int]
            == Close::Never && (full[i] == at || open_upto(lv, full[i] as int, at as int)) by {
            if i < pre.len() {
                assert(full[i] == pre[i]);
            }
        }
        assert forall|i: int, j: int| 0 <= i < j < full.len() implies #[trigger] full[i]
            < #[trigger] full[j] && depth_before(lv, full[i] as int) < depth_before(
            lv,
            full[j] as int,
        ) by {
            if j == full.len() - 1 {
                assert(full[i] == pre[i]);
                if i < pre.len() - 1 {
                    assert(pre[i] < pre[pre.len() - 1]);
                    assert(depth_before(lv, pre[i] as int) < depth_before(
                        lv,
                        pre[pre.len() - 1] as int,
                    ));
                }
            } else {
                assert(full[i] == pre[i] && full[j] == pre[j]);
            }
        }
        assert forall|i: int| 0 <= i < full.len() implies rs <= #[trigger] full[i] <= at by {
            if i < pre.len() {
                assert(full[i] == pre[i]);
            }
        }
    }
    loop
        invariant
            rs <= at < lv.len(),
            rs == 0 || !is_comment(lv[rs - 1]),
            forall|y: int| rs <= y <= at ==> is_comment(#[trigger] lv[y]),
            forall|i: int, j: int|
                0 <= i < j < full.len() ==> depth_before(lv, #[trigger] full[i] as int)
                    < depth_before(lv, #[trigger] full[j] as int),
            waiting@.len() <= full.len(),
            waiting@ == full.take(waiting@.len() as int),
            closes@.len() == lv.len(),
            closes_before.len() == lv.len(),
            ends@.len() == lv.len(),
            forall|y: int| rs <= y < at ==> #[trigger] ends@[y] == depth_at(lv, y),
            depth == depth_at(lv, at as int),
            forall|i: int| 0 <= i < full.len() ==> rs <= #[trigger] full[i] <= at,
            forall|i: int|
                waiting@.len() <= i < full.len() ==> closes@[#[trigger] full[i] as int]
                    == Close::At(at) && depth_at(lv, at as int) <= depth_before(
                    lv,
                    full[i] as int,
                ),
            forall|h: int|
                0 <= h < lv.len() && !full.contains(h as usize) ==> #[trigger] closes@[h]
                    == closes_before[h],
            forall|i: int|
                0 <= i < waiting@.len() ==> #[trigger] closes@[waiting@[i] as int]
                    == Close::Never,
            forall|i: int, j: int|
                0 <= i < j < full.len() ==> #[trigger] full[i] < #[trigger] full[j],
        ensures
            waiting@.len() == 0 || depth_before(lv, waiting@[waiting@.len() - 1] as int)
                < depth_at(lv, at as int),
        decreases waiting@.len(),
    {
        if waiting.len() == 0 {
            break;
        }
        let top = waiting[waiting.len() - 1];
        let from = before(ends, top, rs);
        assert(from == depth_before(lv, top as int));
        if from < depth {
            break;
        }
        let ghost len = waiting@.len();
        waiting.pop();
        assert(waiting@ =~= full.take(len - 1));
        closes.set(top, Close::At(at));
        proof {
            assert forall|i: int| 0 <= i < waiting@.len() implies #[trigger] closes@[waiting@[i] as int]
                == Close::Never by {
                assert(full[i] < full[len - 1]);
            }
            assert forall|h: int|
                0 <= h < lv.len() && !full.contains(h as usize) implies #[trigger] closes@[h]
                == closes_before[h] by {
                assert(full[len - 1] == top);
            }
        }
    }
    proof {
        lemma_after_close(lv, rs as int, at as int, closes_before, closes@, pre, full, waiting@);
    }
}

#[verifier::rlimit(100)]
proof fn lemma_after_close(
    lv: Seq<Seq<char>>,
    rs: int,
    at: int,
    closes_before: Seq<Close>,
    closes: Seq<Close>,
    pre: Seq<usize>,
    full: Seq<usize>,
    waiting: Seq<usize>,
)
    requires
        settled(lv, rs, at, closes_before, pre),
        at < lv.len(),
        lv.len() <= usize::MAX,
        is_comment(lv[at]),
        full == pre.push(at as usize),
        waiting.len() <= full.len(),
        waiting == full.take(waiting.len() as int),
        closes.len() == lv.len(),
        forall|i: int|
            waiting.len() <= i < full.len() ==> closes[#[trigger] full[i] as int] == Close::At(
                at as usize,
            ) && depth_at(lv, at) <= depth_before(lv, full[i] as int),
        forall|h: int|
            0 <= h < lv.len() && !full.contains(h as usize) ==> #[trigger] closes[h]
                == closes_before[h],
        forall|i: int| 0 <= i < waiting.len() ==> #[trigger] closes[waiting[i] as int] == Close::Never,
        waiting.len() == 0 || depth_before(lv, waiting[waiting.len() - 1] as int) < depth_at(lv, at),
        forall|i: int, j: int|
            0 <= i < j < full.len() ==> #[trigger] full[i] < #[trigger] full[j] && depth_before(
                lv,
                full[i] as int,
            ) < depth_before(lv, full[j] as int),
        forall|i: int| 0 <= i < full.len() ==> rs <= #[trigger] full[i] <= at,
        forall|h: int|
            rs <= h < at && #[trigger] open_upto(lv, h, at) ==> full.contains(h as usize),
    ensures
        settled(lv, rs, at + 1, closes, waiting),
{
    reveal(settled);
    let m = waiting.len() as int;
    assert(full[full.len() - 1] == at);
    assert forall|h: int| at + 1 <= h < lv.len() implies #[trigger] closes[h] == Close::Never by {
        if full.contains(h as usize) {
            let i = choose|i: int| 0 <= i < full.len() && full[i] == h as usize;
            assert(full[i] <= at);
        }
        assert(closes[h] == closes_before[h]);
    }
        let m = waiting.len() as int;
        assert forall|i: int| 0 <= i < m implies depth_before(lv, #[trigger] waiting[i] as int)
            < depth_at(lv, at) by {
            assert(waiting[i] == full[i]);
            if i < m - 1 {
                assert(full[i] < full[m - 1]);
            }
        }
        assert forall|h: int|
            rs <= h < at + 1 && #[trigger] open_upto(lv, h, at + 1) implies closes[h]
            == Close::Never && waiting.contains(h as usize) by {
            assert(open_upto(lv, h, at));
            assert(depth_at(lv, at) > depth_before(lv, h));
            assert(full.contains(h as usize));
            let i = choose|i: int| 0 <= i < full.len() && full[i] == h as usize;
            if i >= waiting.len() {
                assert(false);
            }
            assert(waiting[i] == h);
        }
        assert forall|h: int|
            rs <= h < at + 1 && !#[trigger] open_upto(lv, h, at + 1) implies (match first_close(
            lv,
            h,
            h,
        ) {
            Some(x) => x < at + 1 && closes[h] == Close::At(x as usize),
            None => false,
        }) && !waiting.contains(h as usize) by {
            if h < at && !open_upto(lv, h, at) {
                if full.contains(h as usize) {
                    let i = choose|i: int| 0 <= i < full.len() && full[i] == h as usize;
                    assert(false);
                }
                if waiting.contains(h as usize) {
                    let i = choose|i: int| 0 <= i < waiting.len() && waiting[i] == h as usize;
                    assert(full[i] == h);
                }
            } else {
                assert(open_upto(lv, h, at));
                assert(depth_at(lv, at) <= depth_before(lv, h));
                assert(full.contains(h as usize));
                let i = choose|i: int| 0 <= i < full.len() && full[i] == h as usize;
                if i < waiting.len() {
                    assert(waiting[i] == h);
                    assert(false);
                }
                lemma_found(lv, h, h, at);
                if waiting.contains(h as usize) {
                    let j = choose|j: int| 0 <= j < waiting.len() && waiting[j] == h as usize;
                    assert(full[j] == h);
                }
            }
        }
        assert forall|i: int| 0 <= i < waiting.len() implies rs <= #[trigger] waiting[i] < at + 1
            && open_upto(lv, waiting[i] as int, at + 1) by {
            assert(waiting[i] == full[i]);
            let w = waiting[i] as int;
            if w < at {
                assert(open_upto(lv, w, at));
            }
        }
        assert forall|i: int, j: int|
            0 <= i < j < waiting.len() implies #[trigger] waiting[i] < #[trigger] waiting[j]
            && depth_before(lv, waiting[i] as int) < depth_before(lv, waiting[j] as int) by {
            assert(waiting[i] == full[i] && waiting[j] == full[j]);
        }
}

proof fn lemma_fresh_run(lv: Seq<Seq<char>>, e: int, closes: Seq<Close>)
    requires
        0 <= e < lv.len(),
        !is_comment(lv[e]),
        closes.len() == lv.len(),
        forall|h: int| 0 <= h < e ==> #[trigger] closes[h] == close_of(lv, h),
        forall|h: int| e <= h < lv.len() ==> #[trigger] closes[h] == Close::Never,
    ensures
        settled(lv, e + 1, e + 1, closes, Seq::empty()),
{
    reveal(settled);
    assert(closes[e] == Close::Never);
}

proof fn lemma_first_run(lv: Seq<Seq<char>>, closes: Seq<Close>)
    requires
        closes.len() == lv.len(),
        forall|h: int| 0 <= h < lv.len() ==> #[trigger] closes[h] == Close::Never,
    ensures
        settled(lv, 0, 0, closes, Seq::empty()),
{
    reveal(settled);
}

/// End the run of comments that stands from `rs` up to `e`: a line still waiting closes on no line
/// of it, and every line of a run holding a string written over lines is read line by line.
fn end_run(
    closes: &mut Vec<Close>,
    waiting: &mut Vec<usize>,
    rs: usize,
    e: usize,
    spans: bool,
    Ghost(lv): Ghost<Seq<Seq<char>>>,
)
    requires
        settled(lv, rs as int, e as int, old(closes)@, old(waiting)@),
        e == lv.len() || !is_comment(lv[e as int]),
        spans == exists|y: int| rs <= y < e && #[trigger] line_spans(lv[y]),
    ensures
        final(closes)@.len() == lv.len(),
        forall|h: int| 0 <= h < e ==> #[trigger] final(closes)@[h] == close_of(lv, h),
        forall|h: int| e <= h < lv.len() ==> #[trigger] final(closes)@[h] == Close::Never,
        final(waiting)@.len() == 0,
{
    proof {
        reveal(settled);
    }
    proof {
        lemma_run_done(lv, rs as int, e as int, closes@, waiting@, spans);
    }
    read_line_by_line(closes, rs, e, spans);
    waiting.clear();
}

/// Read line `at`, a comment of the run that started at `rs`: how deep it leaves the run, whether
/// the run holds a string written over lines so far, and what it closes.
fn read_comment_line(
    closes: &mut Vec<Close>,
    waiting: &mut Vec<usize>,
    ends: &mut Vec<i64>,
    rs: usize,
    at: usize,
    depth: i64,
    spans: bool,
    body: &Vec<char>,
    Ghost(lv): Ghost<Seq<Seq<char>>>,
) -> (r: (i64, bool))
    requires
        settled(lv, rs as int, at as int, old(closes)@, old(waiting)@),
        at < lv.len() <= usize::MAX,
        total_len(lv) <= i64::MAX,
        is_comment(lv[at as int]),
        body@ == body_of(lv[at as int]),
        depth == (if at > rs {
            depth_at(lv, at - 1)
        } else {
            0
        }),
        old(ends)@.len() == lv.len(),
        forall|y: int| rs <= y < at ==> #[trigger] old(ends)@[y] == depth_at(lv, y),
        spans == exists|y: int| rs <= y < at && #[trigger] line_spans(lv[y]),
    ensures
        settled(lv, rs as int, at + 1, final(closes)@, final(waiting)@),
        r.0 == depth_at(lv, at as int),
        final(ends)@.len() == lv.len(),
        forall|y: int| rs <= y < at + 1 ==> #[trigger] final(ends)@[y] == depth_at(lv, y),
        r.1 == exists|y: int| rs <= y < at + 1 && #[trigger] line_spans(lv[y]),
{
    proof {
        reveal(settled);
        lemma_depth_bound(lv, at as int);
        lemma_total_prefix(lv, at + 1, lv.len() as int);
        lemma_total_all(lv);
        lemma_net_bound(lv[at as int]);
        crate::text::lemma_ws_end_bounds(lv[at as int], 0);
    }
    let held = body.len();
    let mut open = OpenValue::new();
    open.read(body);
    let spans_now = spans || open.inside.is_some();
    proof {
        assert((open.inside is Some) == line_spans(lv[at as int]));
        if spans_now && !spans {
            assert(line_spans(lv[at as int]));
        }
        assert forall|y: int| rs <= y < at + 1 && #[trigger] line_spans(lv[y]) implies spans_now by {
            if y < at {
                assert(spans);
            }
        }
    }
    let depth_now = depth + open.net;
    assert(depth_now == depth_at(lv, at as int));
    ends.set(at, depth_now);
    close_at(closes, waiting, ends, rs, at, depth_now, Ghost(lv));
    (depth_now, spans_now)
}

/// Where the value opened on each line first closes, read in one pass: a line leaves the depth it
/// found one bracket deeper for each it opened, so a value opened on a line closes on the first line
/// of its run that brings the depth back to where that line started.
#[verifier::rlimit(60)]
fn closes_of(ls: &Vec<Vec<char>>) -> (r: Vec<Close>)
    requires
        total_len(crate::text::views(ls@)) <= i64::MAX,
    ensures
        r@.len() == ls@.len(),
        forall|h: int| 0 <= h < ls@.len() ==> #[trigger] r@[h] == close_of(crate::text::views(ls@), h),
{
    let ghost lv = crate::text::views(ls@);
    let n = ls.len();
    let bodies = bodies_of(ls);
    let mut closes: Vec<Close> = Vec::new();
    let mut ends: Vec<i64> = Vec::new();
    let mut k: usize = 0;
    while k < n
        invariant
            k <= n,
            closes@.len() == k,
            ends@.len() == k,
            forall|x: int| 0 <= x < k ==> #[trigger] closes@[x] == Close::Never,
        decreases n - k,
    {
        closes.push(Close::Never);
        ends.push(0);
        k += 1;
    }
    assert forall|x: int| 0 <= x < n implies #[trigger] lv[x] == ls@[x]@ by {}
    let mut waiting: Vec<usize> = Vec::new();
    proof {
        lemma_first_run(lv, closes@);
        assert(waiting@ =~= Seq::<usize>::empty());
    }
    let mut rs: usize = 0;
    let mut depth: i64 = 0;
    let mut spans = false;
    let mut at: usize = 0;
    while at < n
        invariant
            n == ls@.len(),
            n == lv.len(),
            lv == crate::text::views(ls@),
            total_len(lv) <= i64::MAX,
            bodies@.len() == n,
            forall|x: int|
                0 <= x < n ==> match #[trigger] bodies@[x] {
                    Some(b) => is_comment(lv[x]) && b@ == body_of(lv[x]),
                    None => !is_comment(lv[x]),
                },
            settled(lv, rs as int, at as int, closes@, waiting@),
            rs <= at <= n,
            ends@.len() == n,
            depth == (if at > rs {
                depth_at(lv, at - 1)
            } else {
                0
            }),
            forall|y: int| rs <= y < at ==> #[trigger] ends@[y] == depth_at(lv, y),
            spans == exists|y: int| rs <= y < at && #[trigger] line_spans(lv[y]),
        decreases n - at,
    {
        match &bodies[at] {
            None => {
                end_run(&mut closes, &mut waiting, rs, at, spans, Ghost(lv));
                proof {
                    lemma_fresh_run(lv, at as int, closes@);
                    assert(waiting@ =~= Seq::<usize>::empty());
                }
                rs = at + 1;
                depth = 0;
                spans = false;
            },
            Some(body) => {
                let (d, sp) = read_comment_line(
                    &mut closes,
                    &mut waiting,
                    &mut ends,
                    rs,
                    at,
                    depth,
                    spans,
                    body,
                    Ghost(lv),
                );
                depth = d;
                spans = sp;
            },
        }
        at += 1;
    }
    end_run(&mut closes, &mut waiting, rs, n, spans, Ghost(lv));
    closes
}

/// Where the value opened on each line first closes, read in one pass so a run is measured once
/// rather than once for every line in it.
pub fn closing_lines(lines: &[&str]) -> (r: Vec<Close>)
    requires
        total_len(lines@.map_values(|l: &str| l@)) <= i64::MAX,
    ensures
        r@.len() == lines@.len(),
        forall|h: int|
            0 <= h < lines@.len() ==> #[trigger] r@[h] == close_of(
                lines@.map_values(|l: &str| l@),
                h,
            ),
{
    let ls = char_lines(lines);
    closes_of(&ls)
}

/// Where the value opened on line `x` closes when the lines are read one by one from the state
/// `inside`, `depth`, `net`: the first line that leaves nothing open, or nothing where a line that
/// is not a comment comes first.
pub open spec fn close_scan(
    ls: Seq<Seq<char>>,
    inside: Option<Quote>,
    depth: int,
    net: int,
    x: int,
) -> Option<int>
    decreases ls.len() - x,
{
    if x < 0 || x >= ls.len() || !is_comment(ls[x]) {
        None
    } else {
        let r = after_line(inside, depth, net, body_of(ls[x]));
        if !(r.0 is Some || r.1 > 0) {
            Some(x)
        } else {
            close_scan(ls, r.0, r.1, r.2, x + 1)
        }
    }
}

proof fn lemma_close_scan(ls: Seq<Seq<char>>, inside: Option<Quote>, depth: int, net: int, x: int)
    requires
        0 <= x,
    ensures
        match close_scan(ls, inside, depth, net, x) {
            Some(e) => x <= e < ls.len() && forall|y: int| x <= y <= e ==> is_comment(
                #[trigger] ls[y],
            ),
            None => true,
        },
    decreases ls.len() - x,
{
    if x < ls.len() && is_comment(ls[x]) {
        let r = after_line(inside, depth, net, body_of(ls[x]));
        if r.0 is Some || r.1 > 0 {
            lemma_close_scan(ls, r.0, r.1, r.2, x + 1);
        }
    }
}

fn scan_from(ls: &Vec<Vec<char>>, start: usize) -> (r: Option<usize>)
    requires
        total_len(crate::text::views(ls@)) <= i64::MAX,
        total_len(crate::text::views(ls@)) <= usize::MAX,
    ensures
        match (r, close_scan(crate::text::views(ls@), None, 0, 0, start as int)) {
            (Some(a), Some(b)) => a == b,
            (None, None) => true,
            _ => false,
        },
{
    let ghost lv = crate::text::views(ls@);
    let mut open = OpenValue::new();
    let mut end = start;
    proof {
        lemma_total_all(lv);
        if start <= ls@.len() {
            lemma_total_prefix(lv, start as int, ls@.len() as int);
        }
    }
    while end < ls.len()
        invariant
            start <= end,
            lv == crate::text::views(ls@),
            total_len(lv) <= i64::MAX,
            total_len(lv) <= usize::MAX,
            end <= ls@.len() ==> open.depth <= total_len(lv.take(end as int)) && -total_len(
                lv.take(end as int),
            ) <= open.net <= total_len(lv.take(end as int)),
            close_scan(lv, open.inside, open.depth as int, open.net as int, end as int)
                == close_scan(lv, None, 0, 0, start as int),
        decreases ls.len() - end,
    {
        assert(lv[end as int] == ls@[end as int]@);
        let body = match comment_of(&ls[end]) {
            Some((_, b)) => b,
            None => {
                return None;
            },
        };
        proof {
            lemma_total_prefix(lv, end + 1, ls@.len() as int);
            lemma_total_prefix(lv, end as int, end + 1);
            crate::text::lemma_ws_end_bounds(lv[end as int], 0);
            lemma_scan_bounds(open.inside, open.depth as int, open.net as int, body@, 0);
        }
        open.read(&body);
        if !open.is_open() {
            return Some(end);
        }
        end += 1;
    }
    None
}

/// Read the run from `start` until the value it opens closes, which is where a string written over
/// lines makes the depth alone say too little; `None` where a line that is not a comment, or the
/// end, comes first.
pub fn scan_to_close(lines: &[&str], start: usize) -> (r: Option<usize>)
    requires
        total_len(lines@.map_values(|l: &str| l@)) <= i64::MAX,
        total_len(lines@.map_values(|l: &str| l@)) <= usize::MAX,
    ensures
        match (r, close_scan(lines@.map_values(|l: &str| l@), None, 0, 0, start as int)) {
            (Some(a), Some(b)) => a == b,
            (None, None) => true,
            _ => false,
        },
{
    let ls = char_lines(lines);
    scan_from(&ls, start)
}

proof fn lemma_first_close_range(ls: Seq<Seq<char>>, h: int, x: int)
    requires
        0 <= x,
    ensures
        match first_close(ls, h, x) {
            Some(e) => x <= e < ls.len() && forall|y: int| x <= y <= e ==> is_comment(
                #[trigger] ls[y],
            ),
            None => true,
        },
    decreases ls.len() - x,
{
    if x < ls.len() && is_comment(ls[x]) && !(depth_at(ls, x) <= depth_before(ls, h)) {
        lemma_first_close_range(ls, h, x + 1);
    }
}

/// The line the run that opens a value on line `start` ends on, read off where each line closes:
/// nothing where the value closes on no line of its run.
pub open spec fn block_end(ls: Seq<Seq<char>>, start: int, closes: Seq<Close>) -> Option<int> {
    if 0 <= start < closes.len() {
        match closes[start] {
            Close::At(e) => Some(e as int),
            Close::Never => None,
            Close::Scan => close_scan(ls, None, 0, 0, start),
        }
    } else {
        None
    }
}

/// What the comments of the lines from `start` through `end` say, one line each.
pub open spec fn run_bodies(ls: Seq<Seq<char>>, start: int, end: int) -> Seq<Seq<char>> {
    Seq::new((end - start + 1) as nat, |k: int| body_of(ls[start + k]))
}

/// The run of comment lines a value opened on line `start` spans, and what it says read as one
/// text: the line it ends on and the bodies of its lines, joined by line feeds. `None` where the
/// value closes on no line of its run. Whether that text is one key-value is for a TOML reader to
/// say.
pub fn enable_block(lines: &[&str], start: usize, closes_at: &[Close]) -> (r: Option<(usize, String)>)
    requires
        total_len(lines@.map_values(|l: &str| l@)) <= i64::MAX,
        total_len(lines@.map_values(|l: &str| l@)) <= usize::MAX,
        closes_at@.len() == lines@.len(),
        forall|h: int|
            0 <= h < lines@.len() ==> #[trigger] closes_at@[h] == close_of(
                lines@.map_values(|l: &str| l@),
                h,
            ),
    ensures
        match (r, block_end(lines@.map_values(|l: &str| l@), start as int, closes_at@)) {
            (Some((e, text)), Some(b)) => e == b && text@ == crate::text::join(
                run_bodies(lines@.map_values(|l: &str| l@), start as int, b),
                seq!['\n'],
            ),
            (None, None) => true,
            _ => false,
        },
        r matches Some(x) ==> start <= x.0 < lines@.len(),
{
    let ls = char_lines(lines);
    let ghost lv = lines@.map_values(|l: &str| l@);
    if start >= closes_at.len() {
        return None;
    }
    let end = match closes_at[start] {
        Close::At(end) => {
            proof {
                if !is_comment(lv[start as int]) || run_spans(lv, start as int) {
                } else {
                    lemma_first_close_range(lv, start as int, start as int);
                }
            }
            end
        },
        Close::Never => {
            return None;
        },
        Close::Scan => {
            proof {
                lemma_close_scan(lv, None, 0, 0, start as int);
            }
            match scan_from(&ls, start) {
                Some(end) => end,
                None => {
                    return None;
                },
            }
        },
    };
    assert(start <= end < lv.len());
    assert(forall|y: int| start <= y <= end ==> is_comment(#[trigger] lv[y]));
    let n = ls.len();
    let mut bodies: Vec<Vec<char>> = Vec::new();
    let mut k = start;
    while k <= end
        invariant
            start <= k <= end + 1,
            end < n,
            n == ls@.len(),
            lv == crate::text::views(ls@),
            forall|y: int| start <= y <= end ==> is_comment(#[trigger] lv[y]),
            bodies@.len() == k - start,
            forall|j: int| 0 <= j < k - start ==> #[trigger] bodies@[j]@ == body_of(lv[start + j]),
        decreases end + 1 - k,
    {
        assert(lv[k as int] == ls@[k as int]@);
        match comment_of(&ls[k]) {
            Some((_, b)) => {
                bodies.push(b);
            },
            None => {
                assert(false);
                return None;
            },
        }
        k += 1;
    }
    assert(crate::text::views(bodies@) =~= run_bodies(lv, start as int, end as int));
    let newline = vec!['\n'];
    assert(newline@ =~= seq!['\n']);
    let text = crate::text::joined(&bodies, &newline);
    Some((end, string_of(&text)))
}

/// The marker as it is written inside a comment the file wrote, which stays where it is.
pub open spec fn kept(marker: Seq<char>) -> Seq<char> {
    marker + seq!['-', 'k', 'e', 'p', 't']
}

fn kept_chars(marker: &Vec<char>) -> (r: Vec<char>)
    ensures
        r@ == kept(marker@),
{
    let mut r = crate::text::slice(marker, 0, marker.len());
    let tail = vec!['-', 'k', 'e', 'p', 't'];
    push_all(&mut r, &tail);
    assert(r@ =~= kept(marker@));
    r
}

/// The marker as it is written inside a comment the file wrote, which stays where it is.
pub fn kept_marker(marker: &str) -> (r: String)
    ensures
        r@ == kept(marker@),
{
    string_of(&kept_chars(&chars_of(marker)))
}

/// The key-value turned on, marked: the marker extends a comment the value already closes with,
/// so the value never ends up with two, and otherwise opens one of its own.
pub open spec fn enabled(body: Seq<char>, marker: Seq<char>, carries_comment: bool) -> Seq<char> {
    if carries_comment {
        body + seq![' '] + kept(marker)
    } else {
        body + seq![' ', ' ', '#', ' '] + marker
    }
}

/// The key-value `body` says, turned on and marked. `carries_comment` says whether the value
/// already closes with a comment of its own, which a TOML reader says.
pub fn enabled_form(body: &str, marker: &str, carries_comment: bool) -> (r: String)
    ensures
        r@ == enabled(body@, marker@, carries_comment),
{
    let mut out = chars_of(body);
    let m = chars_of(marker);
    if carries_comment {
        out.push(' ');
        push_all(&mut out, &kept_chars(&m));
    } else {
        let gap = vec![' ', ' ', '#', ' '];
        push_all(&mut out, &gap);
        push_all(&mut out, &m);
    }
    assert(out@ =~= enabled(body@, marker@, carries_comment));
    string_of(&out)
}

/// The base marker, as characters.
pub open spec fn base_marker() -> Seq<char> {
    seq![
        '_', '_', 't', 'o', 'm', 'l', '_', 'f', 'm', 't', '_', 'd', 'i', 's', 'a', 'b', 'l', 'e',
        'd', '_', '_',
    ]
}

/// How many `x` stand in a row from `i` on.
pub open spec fn x_run(s: Seq<char>, i: int) -> nat
    decreases s.len() - i,
{
    if 0 <= i < s.len() && s[i] == 'x' {
        1 + x_run(s, i + 1)
    } else {
        0
    }
}

/// The longest run of `x` that follows an occurrence of `pat` from `i` on, the occurrences read
/// left to right without overlap, the way `str::match_indices` finds them; `None` where `pat`
/// stands nowhere there.
pub open spec fn longest_after(s: Seq<char>, pat: Seq<char>, i: int) -> Option<nat>
    decreases s.len() - i,
{
    if pat.len() == 0 || i < 0 || i >= s.len() {
        None
    } else if written_at(s, i, pat) {
        let here = x_run(s, i + pat.len());
        match longest_after(s, pat, i + pat.len()) {
            Some(m) => Some(
                if m > here {
                    m
                } else {
                    here
                },
            ),
            None => Some(here),
        }
    } else {
        longest_after(s, pat, i + 1)
    }
}

/// The marker for a source: the base one, followed by one `x` more than the longest run of `x`
/// the source writes after it.
pub open spec fn fresh(source: Seq<char>) -> Seq<char> {
    match longest_after(source, base_marker(), 0) {
        Some(l) => base_marker() + Seq::new(l + 1, |k: int| 'x'),
        None => base_marker(),
    }
}

proof fn lemma_x_run(s: Seq<char>, i: int)
    requires
        0 <= i <= s.len(),
    ensures
        x_run(s, i) <= s.len() - i,
        forall|k: int| i <= k < i + x_run(s, i) ==> #[trigger] s[k] == 'x',
        i + x_run(s, i) < s.len() ==> s[i + x_run(s, i)] != 'x',
    decreases s.len() - i,
{
    if i < s.len() && s[i] == 'x' {
        lemma_x_run(s, i + 1);
    }
}

proof fn lemma_longest_bound(s: Seq<char>, pat: Seq<char>, i: int)
    requires
        0 <= i,
    ensures
        match longest_after(s, pat, i) {
            Some(m) => m < s.len(),
            None => true,
        },
    decreases s.len() - i,
{
    if pat.len() > 0 && i < s.len() {
        if written_at(s, i, pat) {
            lemma_x_run(s, i + pat.len());
            lemma_longest_bound(s, pat, i + pat.len());
        } else {
            lemma_longest_bound(s, pat, i + 1);
        }
    }
}

fn x_count(s: &Vec<char>, i: usize) -> (r: usize)
    requires
        i <= s.len(),
    ensures
        r == x_run(s@, i as int),
{
    proof {
        lemma_x_run(s@, i as int);
    }
    let mut j = i;
    while j < s.len() && s[j] == 'x'
        invariant
            i <= j <= s.len(),
            x_run(s@, i as int) == (j - i) + x_run(s@, j as int),
        decreases s.len() - j,
    {
        j += 1;
    }
    j - i
}

/// A marker the source does not already hold, so nothing the file says can be read as one.
///
/// Every marker this can pick is the base one followed by some number of `x`, so the longest run
/// the file already writes after it says how many the marker needs to be one of its own.
pub fn fresh_marker(source: &str) -> (r: String)
    ensures
        r@ == fresh(source@),
{
    let s = chars_of(source);
    let base = chars_of(MARKER);
    proof {
        reveal_strlit("__toml_fmt_disabled__");
    }
    assert(base@ =~= base_marker());
    let mut longest: Option<usize> = None;
    let mut i: usize = 0;
    proof {
        lemma_longest_bound(s@, base@, 0);
    }
    while i < s.len()
        invariant
            i <= s.len(),
            base@ == base_marker(),
            match longest {
                Some(m) => m < s.len(),
                None => true,
            },
            longest_after(s@, base@, 0) == match (longest, longest_after(s@, base@, i as int)) {
                (Some(a), Some(b)) => Some(
                    if b > a {
                        b
                    } else {
                        a as nat
                    },
                ),
                (Some(a), None) => Some(a as nat),
                (None, b) => b,
            },
        decreases s.len() - i,
    {
        if is_written_at(&s, i, &base) {
            let here = x_count(&s, i + base.len());
            proof {
                lemma_x_run(s@, i + base@.len());
            }
            longest = match longest {
                Some(m) => if m > here {
                    Some(m)
                } else {
                    Some(here)
                },
                None => Some(here),
            };
            i += base.len();
        } else {
            i += 1;
        }
    }
    let mut marker = base;
    match longest {
        Some(m) => {
            let ghost before = marker@;
            let mut k: usize = 0;
            while k < m + 1
                invariant
                    k <= m + 1,
                    m < s.len(),
                    marker@ == before + Seq::new(k as nat, |j: int| 'x'),
                decreases m + 1 - k,
            {
                marker.push('x');
                k += 1;
                assert(marker@ =~= before + Seq::new(k as nat, |j: int| 'x'));
            }
        },
        None => {},
    }
    string_of(&marker)
}

/// Where the leading `#` of a comment end.
pub open spec fn hashes_end(s: Seq<char>, i: int) -> int
    decreases s.len() - i,
{
    if 0 <= i < s.len() && s[i] == '#' {
        hashes_end(s, i + 1)
    } else {
        i
    }
}

/// Where the last white space before `j` ends, or the start where none stands before it.
pub open spec fn after_last_ws(s: Seq<char>, j: int) -> int
    decreases j,
{
    if j <= 0 || j > s.len() {
        0
    } else if is_ws(s[j - 1]) {
        j
    } else {
        after_last_ws(s, j - 1)
    }
}

/// What follows the last white space of the text, which is what `rsplit(char::is_whitespace)`
/// hands back first.
pub open spec fn last_word(s: Seq<char>) -> Seq<char> {
    s.skip(after_last_ws(s, s.len() as int))
}

/// Whether the comment is the one the pass wrote for `marker`: a comment holding nothing but the
/// marker, or the marker written at the end of a comment the file already had.
pub open spec fn marks_key(comment: Seq<char>, marker: Seq<char>) -> bool {
    let body = crate::text::trim(comment.skip(hashes_end(comment, 0)));
    body == marker || last_word(body) == kept(marker)
}

/// Whether the comment is the one the pass wrote for `marker`.
pub fn marks_a_disabled_key(comment: &str, marker: &str) -> (r: bool)
    ensures
        r == marks_key(comment@, marker@),
{
    let c = chars_of(comment);
    let m = chars_of(marker);
    let mut h: usize = 0;
    while h < c.len() && c[h] == '#'
        invariant
            h <= c.len(),
            hashes_end(c@, 0) == hashes_end(c@, h as int),
        decreases c.len() - h,
    {
        h += 1;
    }
    let rest = crate::text::slice(&c, h, c.len());
    assert(rest@ =~= c@.skip(h as int));
    let body = crate::text::trimmed(&rest);
    if crate::text::same(&body, &m) {
        return true;
    }
    let mut j = body.len();
    while j > 0 && !crate::text::is_whitespace(body[j - 1])
        invariant
            j <= body.len(),
            after_last_ws(body@, body@.len() as int) == after_last_ws(body@, j as int),
        decreases j,
    {
        j -= 1;
    }
    let word = crate::text::slice(&body, j, body.len());
    assert(word@ =~= last_word(body@));
    crate::text::same(&word, &kept_chars(&m))
}

/// The last place at or before `i` where `pat` is written.
pub open spec fn last_written(s: Seq<char>, pat: Seq<char>, i: int) -> Option<int>
    decreases i + 1,
{
    if i < 0 {
        None
    } else if written_at(s, i, pat) {
        Some(i)
    } else {
        last_written(s, pat, i - 1)
    }
}

/// Where `pat` is written last, which is what `str::rfind` says.
pub open spec fn rfind(s: Seq<char>, pat: Seq<char>) -> Option<int> {
    last_written(s, pat, s.len() - pat.len())
}

pub(crate) proof fn lemma_last_written(s: Seq<char>, pat: Seq<char>, i: int)
    ensures
        match last_written(s, pat, i) {
            Some(at) => 0 <= at <= i && written_at(s, at, pat),
            None => true,
        },
    decreases i + 1,
{
    if i >= 0 && !written_at(s, i, pat) {
        lemma_last_written(s, pat, i - 1);
    }
}

pub(crate) fn rfind_in(s: &Vec<char>, pat: &Vec<char>) -> (r: Option<usize>)
    ensures
        match (r, rfind(s@, pat@)) {
            (Some(a), Some(b)) => a == b,
            (None, None) => true,
            _ => false,
        },
{
    if pat.len() > s.len() {
        return None;
    }
    let mut i = s.len() - pat.len();
    loop
        invariant
            i + pat.len() <= s.len(),
            rfind(s@, pat@) == last_written(s@, pat@, i as int),
        decreases i,
    {
        if is_written_at(s, i, pat) {
            return Some(i);
        }
        if i == 0 {
            assert(last_written(s@, pat@, -1) is None);
            return None;
        }
        i -= 1;
    }
}

/// The line without the marker, and without the comment the marker opened; a comment the file
/// wrote stays as it was written.
pub open spec fn unmarked(line: Seq<char>, marker: Seq<char>) -> Seq<char> {
    match rfind(line, kept(marker)) {
        Some(at) => crate::text::trim_end(line.take(at)),
        None => match rfind(line, marker) {
            Some(at) => {
                let before = crate::text::trim_end(line.take(at));
                if before.len() > 0 && before.last() == '#' {
                    crate::text::trim_end(before.drop_last())
                } else {
                    before
                }
            },
            None => line,
        },
    }
}

fn unmarked_chars(line: &Vec<char>, marker: &Vec<char>) -> (r: Vec<char>)
    requires
        rfind(line@, kept(marker@)) is Some || rfind(line@, marker@) is Some,
    ensures
        r@ == unmarked(line@, marker@),
{
    let k = kept_chars(marker);
    match rfind_in(line, &k) {
        Some(at) => {
            proof {
                lemma_last_written(line@, k@, line@.len() - k@.len());
            }
            let head = crate::text::slice(line, 0, at);
            assert(head@ =~= line@.take(at as int));
            crate::text::trimmed_end(&head)
        },
        None => {
            let at = match rfind_in(line, marker) {
                Some(at) => at,
                None => {
                    return crate::text::slice(line, 0, line.len());
                },
            };
            proof {
                lemma_last_written(line@, marker@, line@.len() - marker@.len());
            }
            let head = crate::text::slice(line, 0, at);
            assert(head@ =~= line@.take(at as int));
            let before = crate::text::trimmed_end(&head);
            if before.len() > 0 && before[before.len() - 1] == '#' {
                let cut = crate::text::slice(&before, 0, before.len() - 1);
                assert(cut@ =~= before@.drop_last());
                crate::text::trimmed_end(&cut)
            } else {
                before
            }
        },
    }
}

/// The line without the marker, and without the comment the marker opened; a comment the file
/// wrote stays as it was written.
pub fn without_marker(line: &str, marker: &str) -> (r: String)
    requires
        rfind(line@, kept(marker@)) is Some || rfind(line@, marker@) is Some,
    ensures
        r@ == unmarked(line@, marker@),
{
    string_of(&unmarked_chars(&chars_of(line), &chars_of(marker)))
}

/// How many bytes UTF-8 writes the first `k` characters in.
pub open spec fn bytes_upto(s: Seq<char>, k: int) -> nat {
    vstd::utf8::encode_utf8(s.take(k)).len()
}

pub(crate) proof fn lemma_bytes_step(s: Seq<char>, k: int)
    requires
        0 <= k < s.len(),
    ensures
        bytes_upto(s, k + 1) == bytes_upto(s, k) + crate::table::char_bytes(s[k]),
        bytes_upto(s, k) < bytes_upto(s, k + 1),
{
    assert(s.take(k + 1) =~= s.take(k) + seq![s[k]]);
    crate::table::lemma_encode_concat(s.take(k), seq![s[k]]);
    crate::table::lemma_scalar_bytes(s[k]);
}

pub(crate) proof fn lemma_bytes_grow(s: Seq<char>, a: int, b: int)
    requires
        0 <= a < b <= s.len(),
    ensures
        bytes_upto(s, a) < bytes_upto(s, b),
    decreases b - a,
{
    lemma_bytes_step(s, b - 1);
    if a < b - 1 {
        lemma_bytes_grow(s, a, b - 1);
    }
}

/// The line commented back: `# ` written `base` bytes in, the key's own indent, so the `#` lands
/// at its column and a value's deeper indentation survives; where `marker` is given, the line
/// first loses the marker.
pub open spec fn recommented(line: Seq<char>, k: int) -> Seq<char> {
    line.take(k) + seq!['#', ' '] + line.skip(k)
}

/// The line, commented back at the key's own indent of `base` bytes, so the `#` lands at its
/// column and a value's deeper indentation survives; the line that closes the entry first loses
/// the marker.
pub fn comment_disabled_line(line: &str, base: usize, marker: Option<&str>) -> (r: String)
    requires
        match marker {
            Some(m) => rfind(line@, kept(m@)) is Some || rfind(line@, m@) is Some,
            None => true,
        },
        ({
            let cleaned = match marker {
                Some(m) => unmarked(line@, m@),
                None => line@,
            };
            let cut = if base < bytes_upto(cleaned, cleaned.len() as int) {
                base as int
            } else {
                bytes_upto(cleaned, cleaned.len() as int) as int
            };
            exists|k: int| 0 <= k <= cleaned.len() && #[trigger] bytes_upto(cleaned, k) == cut
        }),
    ensures
        ({
            let cleaned = match marker {
                Some(m) => unmarked(line@, m@),
                None => line@,
            };
            let cut = if base < bytes_upto(cleaned, cleaned.len() as int) {
                base as int
            } else {
                bytes_upto(cleaned, cleaned.len() as int) as int
            };
            forall|k: int|
                0 <= k <= cleaned.len() && #[trigger] bytes_upto(cleaned, k) == cut ==> r@
                    == recommented(cleaned, k)
        }),
{
    let l = chars_of(line);
    let cleaned = match marker {
        Some(m) => unmarked_chars(&l, &chars_of(m)),
        None => crate::text::slice(&l, 0, l.len()),
    };
    assert(cleaned@ =~= match marker {
        Some(m) => unmarked(line@, m@),
        None => line@,
    });
    let ghost cv = cleaned@;
    let ghost total = bytes_upto(cv, cv.len() as int);
    let ghost cut = if base < total {
        base as int
    } else {
        total as int
    };
    // the character the cut falls before
    let mut k: usize = 0;
    let mut bytes: usize = 0;
    assert(cv.take(0) =~= Seq::<char>::empty());
    while k < cleaned.len() && bytes < base
        invariant
            k <= cleaned@.len(),
            cv == cleaned@,
            total == bytes_upto(cv, cv.len() as int),
            cut == if base < total {
                base as int
            } else {
                total as int
            },
            bytes == bytes_upto(cv, k as int),
            bytes <= cut,
            exists|j: int| 0 <= j <= cv.len() && #[trigger] bytes_upto(cv, j) == cut,
            forall|j: int| 0 <= j < k ==> #[trigger] bytes_upto(cv, j) < cut,
        decreases cleaned.len() - k,
    {
        proof {
            lemma_bytes_step(cv, k as int);
            lemma_bytes_grow(cv, k as int, cv.len() as int);
            assert(bytes < cut);
            let j = choose|j: int| 0 <= j <= cv.len() && #[trigger] bytes_upto(cv, j) == cut;
            if j < k {
                assert(bytes_upto(cv, j) < cut);
            }
            assert(j > k);
            if (k as int) + 1 < j {
                lemma_bytes_grow(cv, k + 1, j);
            }
            assert(bytes_upto(cv, k + 1) <= cut);
        }
        bytes = bytes + crate::table::char_len_utf8(cleaned[k]);
        k += 1;
    }
    proof {
        let j = choose|j: int| 0 <= j <= cv.len() && #[trigger] bytes_upto(cv, j) == cut;
        assert forall|i: int| 0 <= i <= cv.len() && #[trigger] bytes_upto(cv, i) == cut implies i == k by {
            if i < k {
                assert(bytes_upto(cv, i) < cut);
            } else if i > k {
                lemma_bytes_grow(cv, k as int, i);
                if k < cv.len() {
                    assert(bytes >= base);
                }
            }
        }
    }
    let head = crate::text::slice(&cleaned, 0, k);
    let tail = crate::text::slice(&cleaned, k, cleaned.len());
    let mut out = head;
    out.push('#');
    out.push(' ');
    push_all(&mut out, &tail);
    assert(out@ =~= recommented(cv, k as int));
    string_of(&out)
}


proof fn lemma_ws_end_at(s: Seq<char>, i: int, k: int)
    requires
        0 <= i <= k < s.len(),
        forall|j: int| i <= j < k ==> is_ws(#[trigger] s[j]),
        !is_ws(s[k]),
    ensures
        ws_end(s, i) == k,
    decreases k - i,
{
    if i < k {
        lemma_ws_end_at(s, i + 1, k);
    }
}

/// A line commented back at an indent of white space reads back, as a comment, as the same indent
/// and the same line: commenting a line back and reading the comment are each other's undoing.
pub proof fn lemma_recomment_reads_back(line: Seq<char>, k: int)
    requires
        0 <= k <= line.len(),
        forall|j: int| 0 <= j < k ==> is_ws(#[trigger] line[j]),
    ensures
        comment_parts(recommented(line, k)) == Some((line.take(k), line.skip(k))),
{
    let r = recommented(line, k);
    assert(r[k] == '#');
    assert forall|j: int| 0 <= j < k implies is_ws(#[trigger] r[j]) by {
        assert(r[j] == line[j]);
    }
    lemma_ws_end_at(r, 0, k);
    assert(trim_start(r) =~= seq!['#', ' '] + line.skip(k));
    assert(trim_start(r).skip(1) =~= seq![' '] + line.skip(k));
    assert((seq![' '] + line.skip(k)).skip(1) =~= line.skip(k));
    assert(r.take(k) =~= line.take(k));
}

proof fn lemma_trim_end_spaces(s: Seq<char>, n: int)
    requires
        0 <= n,
    ensures
        crate::text::trim_end(s + Seq::new(n as nat, |i: int| ' ')) == crate::text::trim_end(s),
    decreases n,
{
    let t = s + Seq::new(n as nat, |i: int| ' ');
    if n > 0 {
        let u = s + Seq::new((n - 1) as nat, |i: int| ' ');
        assert(t.drop_last() =~= u);
        lemma_trim_end_spaces(s, n - 1);
        lemma_ws_start_drop(t);
    } else {
        assert(t =~= s);
    }
}

proof fn lemma_ws_start_drop(t: Seq<char>)
    requires
        t.len() > 0,
        is_ws(t.last()),
    ensures
        crate::text::trim_end(t) == crate::text::trim_end(t.drop_last()),
{
    let n = t.len() as int;
    assert(crate::text::ws_start(t, n) == crate::text::ws_start(t, n - 1));
    lemma_ws_start_same(t, t.drop_last(), n - 1);
    crate::text::lemma_ws_start_bounds(t.drop_last(), n - 1);
    let w = crate::text::ws_start(t, n - 1);
    assert(t.take(w) =~= t.drop_last().take(w));
}

proof fn lemma_ws_start_same(t: Seq<char>, u: Seq<char>, j: int)
    requires
        0 <= j <= u.len(),
        u.len() <= t.len(),
        forall|k: int| 0 <= k < u.len() ==> #[trigger] u[k] == t[k],
    ensures
        crate::text::ws_start(t, j) == crate::text::ws_start(u, j),
    decreases j,
{
    if j > 0 {
        lemma_ws_start_same(t, u, j - 1);
    }
}

/// No occurrence of the marker starts before the one the pass wrote after the key-value.
proof fn lemma_no_m_before(body: Seq<char>, m: Seq<char>, p: int)
    requires
        m.len() > 0,
        !m.contains(' '),
        !m.contains('#'),
        forall|q: int| !#[trigger] written_at(body, q, m),
        0 <= p < body.len() + 4,
    ensures
        !written_at(enabled(body, m, false), p, m),
{
    let e = enabled(body, m, false);
    if written_at(e, p, m) {
        if p + m.len() <= body.len() {
            assert(body.subrange(p, p + m.len()) =~= e.subrange(p, p + m.len()));
            assert(written_at(body, p, m));
        } else if p < body.len() {
            let x = body.len() - p;
            assert(e.subrange(p, p + m.len())[x] == e[body.len() as int]);
            assert(e[body.len() as int] == ' ');
            assert(m[x] == ' ');
            assert(m.contains(' '));
        } else {
            assert(e.subrange(p, p + m.len())[0] == e[p]);
            if p < body.len() + 2 {
                assert(e[p] == ' ');
                assert(m.contains(' '));
            } else if p == body.len() + 2 {
                assert(e[p] == '#');
                assert(m.contains('#'));
            } else {
                assert(e[p] == ' ');
                assert(m.contains(' '));
            }
        }
    }
}

proof fn lemma_none_below(s: Seq<char>, pat: Seq<char>, i: int)
    requires
        forall|p: int| 0 <= p <= i ==> !#[trigger] written_at(s, p, pat),
    ensures
        last_written(s, pat, i) is None,
    decreases i + 1,
{
    if i >= 0 {
        lemma_none_below(s, pat, i - 1);
    }
}

/// What the pass wrote comes off again: a key-value turned on with a comment of its own, once the
/// marker is taken off, is the key-value it was, its trailing white space aside. The marker holds
/// no space and no `#`, and the key-value does not hold it.
pub proof fn lemma_marker_comes_off(body: Seq<char>, m: Seq<char>)
    requires
        m.len() > 0,
        !m.contains(' '),
        !m.contains('#'),
        forall|q: int| !#[trigger] written_at(body, q, m),
    ensures
        unmarked(enabled(body, m, false), m) == crate::text::trim_end(body),
{
    let e = enabled(body, m, false);
    let k = kept(m);
    let at: int = body.len() + 4int;
    assert(e.subrange(at, at + m.len()) =~= m);
    assert(rfind(e, m) == Some(at));
    assert forall|p: int| 0 <= p <= e.len() - k.len() implies !#[trigger] written_at(e, p, k) by {
        if written_at(e, p, k) {
            assert(e.subrange(p, p + k.len()) == k);
            assert(k.take(m.len() as int) =~= m);
            assert(e.subrange(p, p + m.len()) =~= e.subrange(p, p + k.len()).take(m.len() as int));
            assert(written_at(e, p, m));
            lemma_no_m_before(body, m, p);
        }
    }
    lemma_none_below(e, k, e.len() - k.len());
    let before = crate::text::trim_end(e.take(at));
    assert(e.take(at) =~= body + seq![' ', ' ', '#', ' ']);
    assert(e.take(at).drop_last() =~= body + seq![' ', ' ', '#']);
    lemma_ws_start_drop(e.take(at));
    lemma_ws_end_trim_hash(body);
    assert(before == body + seq![' ', ' ', '#']);
    assert(before.drop_last() =~= body + Seq::new(2, |i: int| ' '));
    lemma_trim_end_spaces(body, 2);
}

proof fn lemma_ws_end_trim_hash(body: Seq<char>)
    ensures
        crate::text::trim_end(body + seq![' ', ' ', '#']) == body + seq![' ', ' ', '#'],
{
    let t = body + seq![' ', ' ', '#'];
    assert(!is_ws(t[t.len() - 1]));
    assert(t.take(t.len() as int) =~= t);
}

/// What the pass wrote into a comment the file already had comes off again: the key-value and its
/// own comment, once the marker is taken off, are what they were, trailing white space aside.
pub proof fn lemma_kept_marker_comes_off(body: Seq<char>, m: Seq<char>)
    ensures
        unmarked(enabled(body, m, true), m) == crate::text::trim_end(body),
{
    let e = enabled(body, m, true);
    let k = kept(m);
    let at: int = body.len() + 1int;
    assert(e.subrange(at, at + k.len()) =~= k);
    assert(rfind(e, k) == Some(at));
    assert(e.take(at) =~= body + Seq::new(1, |i: int| ' '));
    lemma_trim_end_spaces(body, 1);
}

/// A value opened on a comment line closes, where it closes on a line, on that line or a later one
/// of the same run of comments.
pub proof fn lemma_closes_within_run(ls: Seq<Seq<char>>, h: int, e: usize)
    requires
        0 <= h < ls.len(),
        ls.len() <= usize::MAX,
        close_of(ls, h) == Close::At(e),
    ensures
        h <= e < ls.len(),
        forall|y: int| h <= y <= e ==> is_comment(#[trigger] ls[y]),
{
    lemma_first_close_range(ls, h, h);
}


/// The lines of a text joined back the way it ended are the text: the lines the pass leaves alone
/// come back as the file wrote them. A carriage return is the one thing reading the lines drops.
pub proof fn lemma_lines_join_back(s: Seq<char>)
    requires
        !s.contains('\r'),
    ensures
        joined_like(s, crate::text::lines_of(s)) == s,
{
    let p = crate::text::split_on(s, '\n');
    crate::text::lemma_join_split(s, '\n');
    crate::text::lemma_split_free(s, '\n', '\n');
    crate::text::lemma_split_free(s, '\n', '\r');
    crate::text::lemma_split_nonempty(s, '\n');
    let body = p.drop_last().map_values(|l: Seq<char>| crate::text::strip_cr(l));
    assert forall|i: int| 0 <= i < p.drop_last().len() implies #[trigger] body[i]
        == p.drop_last()[i] by {
        let l = p.drop_last()[i];
        assert(l == p[i]);
        if l.len() > 0 {
            assert(!l.contains('\r'));
            assert(l[l.len() - 1] == l.last());
        }
    }
    assert(body =~= p.drop_last());
    if p.len() == 1 {
        assert(crate::text::join(p, seq!['\n']) == p[0]);
        if p.last().len() > 0 {
            assert(!p[0].contains('\n'));
            assert(p[0][p[0].len() - 1] == p[0].last());
            assert(body.push(p.last()) =~= p);
        }
    } else {
        assert(crate::text::join(p, seq!['\n']) == crate::text::join(p.drop_last(), seq!['\n'])
            + seq!['\n'] + p.last());
        if p.last().len() > 0 {
            assert(!p.last().contains('\n'));
            assert(p.last()[p.last().len() - 1] == p.last().last());
            assert(s.last() == p.last().last());
            assert(body.push(p.last()) =~= p);
        } else {
            assert(s.last() == '\n');
        }
    }
}


proof fn lemma_trim_end_keeps(s: Seq<char>)
    requires
        s.len() > 0,
        !is_ws(s.last()),
    ensures
        crate::text::trim_end(s) == s,
{
    assert(s.take(s.len() as int) =~= s);
}

/// A key-value the file commented out at an indent, turned on by the pass and commented back,
/// is the line the file wrote: the round trip leaves a disabled key as it was. The line writes one
/// space after its `#`, its key-value closes on something other than white space and does not
/// hold the marker, and the marker holds no white space and no `#`. With `carries_comment`, the
/// key-value closes with a comment of its own, which the marker joins.
pub proof fn lemma_disabled_line_round_trip(
    indent: Seq<char>,
    body: Seq<char>,
    m: Seq<char>,
    carries_comment: bool,
)
    requires
        forall|j: int| 0 <= j < indent.len() ==> is_ws(#[trigger] indent[j]),
        body.len() > 0,
        !is_ws(body.last()),
        m.len() > 0,
        !m.contains(' '),
        !m.contains('#'),
        forall|q: int| !#[trigger] written_at(indent + body, q, m),
    ensures
        comment_parts(indent + seq!['#', ' '] + body) == Some((indent, body)),
        recommented(
            unmarked(enabled(indent + body, m, carries_comment), m),
            indent.len() as int,
        ) == indent + seq!['#', ' '] + body,
{
    let line = indent + seq!['#', ' '] + body;
    let text = indent + body;
    assert(recommented(text, indent.len() as int) =~= line);
    assert forall|j: int| 0 <= j < indent.len() implies is_ws(#[trigger] text[j]) by {
        assert(text[j] == indent[j]);
    }
    lemma_recomment_reads_back(text, indent.len() as int);
    assert(text.take(indent.len() as int) =~= indent);
    assert(text.skip(indent.len() as int) =~= body);
    if carries_comment {
        lemma_kept_marker_comes_off(text, m);
    } else {
        lemma_marker_comes_off(text, m);
    }
    assert(text.last() == body.last());
    lemma_trim_end_keeps(text);
}

/// Whether no two places the pattern is written at overlap.
pub open spec fn apart(s: Seq<char>, pat: Seq<char>) -> bool {
    forall|i: int, j: int|
        0 <= i < j < i + pat.len() && #[trigger] written_at(s, i, pat) ==> !#[trigger] written_at(s, j, pat)
}

proof fn lemma_x_at_least(s: Seq<char>, i: int, k: nat)
    requires
        0 <= i,
        i + k <= s.len(),
        forall|j: int| i <= j < i + k ==> #[trigger] s[j] == 'x',
    ensures
        x_run(s, i) >= k,
    decreases k,
{
    if k > 0 {
        lemma_x_at_least(s, i + 1, (k - 1) as nat);
    }
}

/// Where no two places the pattern is written overlap, the scan finds every one of them, and the
/// run of `x` after each is at most the longest it reports.
proof fn lemma_longest_covers(s: Seq<char>, pat: Seq<char>, i: int, q: int)
    requires
        pat.len() > 0,
        apart(s, pat),
        0 <= i <= q,
        written_at(s, q, pat),
    ensures
        longest_after(s, pat, i) is Some,
        x_run(s, q + pat.len()) <= longest_after(s, pat, i)->0,
    decreases s.len() - i,
{
    if written_at(s, i, pat) {
        if i == q {
            if longest_after(s, pat, i + pat.len()) is Some {
            }
        } else {
            assert(q >= i + pat.len());
            lemma_longest_covers(s, pat, i + pat.len(), q);
        }
    } else {
        assert(i != q);
        lemma_longest_covers(s, pat, i + 1, q);
    }
}

/// Nothing the scan finds where the pattern is written nowhere.
proof fn lemma_longest_none(s: Seq<char>, pat: Seq<char>, i: int, q: int)
    requires
        pat.len() > 0,
        0 <= i <= q,
        longest_after(s, pat, i) is None,
    ensures
        !written_at(s, q, pat),
    decreases s.len() - i,
{
    if i < q && i < s.len() && !written_at(s, i, pat) {
        lemma_longest_none(s, pat, i + 1, q);
    }
}

/// The marker picked for a source is written nowhere in it, wherever no two places the base marker
/// is written at overlap: the scan for the longest run of `x` after the base marker reads its
/// occurrences left to right without overlap, so overlapping ones are not all seen.
pub proof fn lemma_fresh_marker_is_new(source: Seq<char>)
    requires
        apart(source, base_marker()),
    ensures
        forall|q: int| 0 <= q ==> !#[trigger] written_at(source, q, fresh(source)),
{
    let base = base_marker();
    assert forall|q: int| 0 <= q implies !#[trigger] written_at(source, q, fresh(source)) by {
        match longest_after(source, base, 0) {
            None => {
                lemma_longest_none(source, base, 0, q);
            },
            Some(l) => {
                let f = fresh(source);
                assert(f == base + Seq::new(l + 1, |k: int| 'x'));
                if written_at(source, q, f) {
                    assert(source.subrange(q, q + base.len()) =~= f.subrange(0, base.len() as int));
                    assert(f.subrange(0, base.len() as int) =~= base);
                    assert(written_at(source, q, base));
                    lemma_longest_covers(source, base, 0, q);
                    assert forall|j: int| q + base.len() <= j < q + base.len() + (l + 1) implies #[trigger] source[j]
                        == 'x' by {
                        assert(source[j] == source.subrange(q, q + f.len())[j - q]);
                        assert(f[j - q] == 'x');
                    }
                    lemma_x_at_least(source, q + base.len(), (l + 1) as nat);
                }
            },
        }
    }
}

/// Where the run of comment lines from `k` on ends: the first line from there that is not one.
pub open spec fn comments_end(ls: Seq<Seq<char>>, k: int) -> int
    decreases ls.len() - k,
{
    if k < 0 || k >= ls.len() || !is_comment(ls[k]) {
        k
    } else {
        comments_end(ls, k + 1)
    }
}

pub proof fn lemma_comments_end(ls: Seq<Seq<char>>, k: int)
    requires
        0 <= k <= ls.len(),
    ensures
        k <= comments_end(ls, k) <= ls.len(),
    decreases ls.len() - k,
{
    if k < ls.len() && is_comment(ls[k]) {
        lemma_comments_end(ls, k + 1);
    }
}

/// The lines from `at` on once the commented-out keys are enabled, and whether any was. A comment
/// the document holds as a comment of its own (`standing`) is a candidate: one holding a table
/// header (`headers`) is kept, with the comment lines after it, since the keys under it would leave
/// the table they belong to; another is replaced, with the rest of its run, by its indent and the
/// enabled form `forms` gives it, where its run closes and it has one. Every other line stays.
pub open spec fn enabled_lines(
    ls: Seq<Seq<char>>,
    standing: Seq<bool>,
    headers: Seq<bool>,
    forms: Seq<Option<Seq<char>>>,
    closes: Seq<Close>,
    at: int,
) -> (Seq<Seq<char>>, bool)
    decreases ls.len() - at,
{
    if at < 0 || at >= ls.len() {
        (seq![], false)
    } else if !(is_comment(ls[at]) && standing[at]) {
        let rest = enabled_lines(ls, standing, headers, forms, closes, at + 1);
        (seq![ls[at]] + rest.0, rest.1)
    } else if headers[at] {
        proof {
            lemma_comments_end(ls, at + 1);
        }
        let e = comments_end(ls, at + 1);
        let rest = enabled_lines(ls, standing, headers, forms, closes, e);
        (ls.subrange(at, e) + rest.0, rest.1)
    } else {
        match (block_end(ls, at, closes), forms[at]) {
            (Some(end), Some(f)) => if at <= end < ls.len() {
                let rest = enabled_lines(ls, standing, headers, forms, closes, end + 1);
                (seq![(comment_parts(ls[at])->0).0 + f] + rest.0, true)
            } else {
                (seq![], false)
            },
            _ => {
                let rest = enabled_lines(ls, standing, headers, forms, closes, at + 1);
                (seq![ls[at]] + rest.0, rest.1)
            },
        }
    }
}

/// What each enabled form holds.
pub open spec fn form_views(forms: Seq<Option<String>>) -> Seq<Option<Seq<char>>> {
    forms.map_values(
        |f: Option<String>|
            match f {
                Some(t) => Some(t@),
                None => None,
            },
    )
}

/// The text with its commented-out keys enabled, or `None` where it enables none.
///
/// `lines` are the lines of `source`; `standing[i]` says whether the document holds line `i` as a
/// comment of its own, `headers[i]` whether what that comment says is a table header, and
/// `forms[i]` the enabled form of the run a value opened on line `i` spans, where it has one: what
/// the comment lines of that run say, read as one key-value and marked as [`enabled_form`] marks
/// it.
pub fn enable_lines(
    source: &str,
    lines: &[&str],
    standing: &[bool],
    headers: &[bool],
    forms: &[Option<String>],
) -> (r: Option<String>)
    requires
        lines@.map_values(|l: &str| l@) == crate::text::lines_of(source@),
        total_len(lines@.map_values(|l: &str| l@)) <= i64::MAX,
        total_len(lines@.map_values(|l: &str| l@)) <= usize::MAX,
        standing.len() == lines.len(),
        headers.len() == lines.len(),
        forms.len() == lines.len(),
    ensures
        ({
            let ls = lines@.map_values(|l: &str| l@);
            let done = enabled_lines(
                ls,
                standing@,
                headers@,
                form_views(forms@),
                Seq::new(ls.len(), |h: int| close_of(ls, h)),
                0,
            );
            match r {
                Some(t) => done.1 && t@ == joined_like(source@, done.0),
                None => !done.1,
            }
        }),
{
    let ghost ls = lines@.map_values(|l: &str| l@);
    let ghost fv = form_views(forms@);
    let closes = closing_lines(lines);
    let ghost cv = Seq::new(ls.len(), |h: int| close_of(ls, h));
    assert(closes@ =~= cv);
    let n = lines.len();
    let mut out: Vec<String> = Vec::new();
    let mut turned_on = false;
    let mut at: usize = 0;
    assert(out@.map_values(|l: String| l@) + enabled_lines(ls, standing@, headers@, fv, cv, 0).0
        =~= enabled_lines(ls, standing@, headers@, fv, cv, 0).0);
    while at < n
        invariant
            at <= n == lines.len() == standing.len() == headers.len() == forms.len()
                == closes@.len(),
            ls == lines@.map_values(|l: &str| l@),
            closes@ == cv,
            cv == Seq::new(ls.len(), |h: int| close_of(ls, h)),
            total_len(ls) <= i64::MAX,
            total_len(ls) <= usize::MAX,
            fv == form_views(forms@),
            enabled_lines(ls, standing@, headers@, fv, cv, 0).0 == out@.map_values(
                |l: String| l@,
            ) + enabled_lines(ls, standing@, headers@, fv, cv, at as int).0,
            enabled_lines(ls, standing@, headers@, fv, cv, 0).1 == (turned_on || enabled_lines(
                ls,
                standing@,
                headers@,
                fv,
                cv,
                at as int,
            ).1),
        decreases n - at,
    {
        let ghost before = out@.map_values(|l: String| l@);
        let ghost at0 = at as int;
        let line = lines[at];
        assert(ls[at as int] == line@);
        let parts = split_comment(line);
        if parts.is_none() || !standing[at] {
            out.push(line.to_string());
            assert(out@.map_values(|l: String| l@) =~= before + seq![ls[at as int]]);
            at += 1;
            assert(before + (seq![ls[at0]] + enabled_lines(ls, standing@, headers@, fv, cv, at as int).0)
                =~= out@.map_values(|l: String| l@) + enabled_lines(ls, standing@, headers@, fv, cv, at as int).0);
        } else if headers[at] {
            proof {
                lemma_comments_end(ls, at + 1);
            }
            out.push(line.to_string());
            assert(out@.map_values(|l: String| l@) =~= before + ls.subrange(at0, at0 + 1));
            at += 1;
            while at < n && split_comment(lines[at]).is_some()
                invariant
                    0 <= at0,
                    at0 + 1 <= at <= n == lines.len() == ls.len(),
                    ls == lines@.map_values(|l: &str| l@),
                    comments_end(ls, at0 + 1) == comments_end(ls, at as int),
                    out@.map_values(|l: String| l@) == before + ls.subrange(at0, at as int),
                decreases n - at,
            {
                assert(ls[at as int] == lines@[at as int]@);
                let ghost mid = out@;
                out.push(lines[at].to_string());
                assert(out@ == mid.push(out@.last()));
                assert(out@.map_values(|l: String| l@) =~= mid.map_values(|l: String| l@).push(
                    ls[at as int],
                ));
                assert(ls.subrange(at0, at + 1) =~= ls.subrange(at0, at as int).push(ls[at as int]));
                at += 1;
            }
            proof {
                if at < n {
                    assert(ls[at as int] == lines@[at as int]@);
                }
                let e = comments_end(ls, at0 + 1);
                assert(e == at as int);
                assert(before + (ls.subrange(at0, e) + enabled_lines(ls, standing@, headers@, fv, cv, e).0)
                    =~= out@.map_values(|l: String| l@) + enabled_lines(ls, standing@, headers@, fv, cv, e).0);
            }
        } else {
            match enable_block(lines, at, closes.as_slice()) {
                Some((end, _)) => {
                    match &forms[at] {
                        Some(f) => {
                            let indent = match &parts {
                                Some(p) => p.0.clone(),
                                None => String::new(),
                            };
                            let mut m = chars_of(indent.as_str());
                            crate::text::push_all(&mut m, &chars_of(f.as_str()));
                            out.push(string_of(&m));
                            turned_on = true;
                            assert(fv[at as int] == Some(f@));
                            assert(out@.map_values(|l: String| l@) =~= before + seq![
                                (comment_parts(ls[at as int])->0).0 + f@,
                            ]);
                            at = end + 1;
                            assert(before + (seq![(comment_parts(ls[at0])->0).0 + f@] + enabled_lines(ls, standing@, headers@, fv, cv, at as int).0)
                                =~= out@.map_values(|l: String| l@) + enabled_lines(ls, standing@, headers@, fv, cv, at as int).0);
                        },
                        None => {
                            assert(fv[at as int] is None);
                            out.push(line.to_string());
                            assert(out@.map_values(|l: String| l@) =~= before + seq![ls[at as int]]);
                            at += 1;
                            assert(before + (seq![ls[at0]] + enabled_lines(ls, standing@, headers@, fv, cv, at as int).0)
                                =~= out@.map_values(|l: String| l@) + enabled_lines(ls, standing@, headers@, fv, cv, at as int).0);
                        },
                    }
                },
                None => {
                    out.push(line.to_string());
                    assert(out@.map_values(|l: String| l@) =~= before + seq![ls[at as int]]);
                    at += 1;
                    assert(before + (seq![ls[at0]] + enabled_lines(ls, standing@, headers@, fv, cv, at as int).0)
                        =~= out@.map_values(|l: String| l@) + enabled_lines(ls, standing@, headers@, fv, cv, at as int).0);
                },
            }
        }
    }
    assert(out@.map_values(|l: String| l@) + Seq::<Seq<char>>::empty() =~= out@.map_values(|l: String| l@));
    if turned_on {
        Some(join_like(source, out))
    } else {
        None
    }
}

} // verus!
