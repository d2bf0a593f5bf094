//! What holds items together: the `# Group:` markers sorting must not cross, and the name a
//! table groups under.

use vstd::prelude::*;
use crate::text::{
    chars_of, is_ws, lower, lower_all, same, to_lower, trim_start, trimmed_start, upper, upper_all, ws_end,
};

verus! {

/// What opens a group, whatever case the comment writes it in.
pub open spec fn group_word() -> Seq<char> {
    seq!['g', 'r', 'o', 'u', 'p', ':']
}

/// Whether a comment opens a group, as `# Group: web`: past the white space before it, a `#`, then
/// past the white space after that, `group:` in any ASCII case.
pub open spec fn group_marker(comment: Seq<char>) -> bool {
    let t = trim_start(comment);
    &&& t.len() > 0
    &&& t[0] == '#'
    &&& {
        let rest = trim_start(t.skip(1));
        &&& rest.len() >= 6
        &&& forall|k: int| 0 <= k < 6 ==> lower(#[trigger] rest[k]) == group_word()[k]
    }
}

/// Whether a comment opens a group, as `# Group: web`. Case does not matter.
#[verifier::loop_isolation(false)]
pub fn is_group_marker(comment: &str) -> (r: bool)
    ensures
        r == group_marker(comment@),
{
    let t = trimmed_start(&chars_of(comment));
    if t.len() == 0 || t[0] != '#' {
        return false;
    }
    let after = crate::text::slice(&t, 1, t.len());
    assert(after@ =~= t@.skip(1));
    let rest = trimmed_start(&after);
    if rest.len() < 6 {
        return false;
    }
    let word = vec!['g', 'r', 'o', 'u', 'p', ':'];
    assert(word@ =~= group_word());
    let mut k: usize = 0;
    while k < 6
        invariant
            k <= 6,
            rest.len() >= 6,
            word@ == group_word(),
            forall|j: int| 0 <= j < k ==> lower(#[trigger] rest@[j]) == group_word()[j],
        decreases 6 - k,
    {
        if to_lower(rest[k]) != word[k] {
            return false;
        }
        k += 1;
    }
    true
}

/// Two texts of one length whose characters lower alike.
pub open spec fn alike(a: Seq<char>, b: Seq<char>) -> bool {
    a.len() == b.len() && forall|i: int| 0 <= i < a.len() ==> lower(#[trigger] a[i]) == lower(b[i])
}

proof fn lemma_ws_end_alike(a: Seq<char>, b: Seq<char>, i: int)
    requires
        alike(a, b),
    ensures
        ws_end(a, i) == ws_end(b, i),
    decreases a.len() - i,
{
    if 0 <= i < a.len() {
        assert(lower(a[i]) == lower(b[i]));
        assert(is_ws(a[i]) == is_ws(b[i]));
        if is_ws(a[i]) {
            lemma_ws_end_alike(a, b, i + 1);
        }
    }
}

proof fn lemma_skip_alike(a: Seq<char>, b: Seq<char>, k: int)
    requires
        alike(a, b),
        0 <= k <= a.len(),
    ensures
        alike(a.skip(k), b.skip(k)),
{
    assert forall|i: int| 0 <= i < a.skip(k).len() implies lower(#[trigger] a.skip(k)[i]) == lower(
        b.skip(k)[i],
    ) by {
        assert(a.skip(k)[i] == a[k + i]);
        assert(b.skip(k)[i] == b[k + i]);
    }
}

proof fn lemma_trim_start_alike(a: Seq<char>, b: Seq<char>)
    requires
        alike(a, b),
    ensures
        alike(trim_start(a), trim_start(b)),
{
    lemma_ws_end_alike(a, b, 0);
    crate::text::lemma_ws_end_bounds(a, 0);
    lemma_skip_alike(a, b, ws_end(a, 0));
}

/// Texts whose characters lower alike are markers alike.
proof fn lemma_marker_alike(a: Seq<char>, b: Seq<char>)
    requires
        alike(a, b),
    ensures
        group_marker(a) == group_marker(b),
{
    lemma_trim_start_alike(a, b);
    let ta = trim_start(a);
    let tb = trim_start(b);
    if ta.len() > 0 {
        assert(lower(ta[0]) == lower(tb[0]));
        assert((ta[0] == '#') == (tb[0] == '#'));
        lemma_skip_alike(ta, tb, 1);
        lemma_trim_start_alike(ta.skip(1), tb.skip(1));
        let ra = trim_start(ta.skip(1));
        let rb = trim_start(tb.skip(1));
        if ra.len() >= 6 {
            if forall|k: int| 0 <= k < 6 ==> lower(#[trigger] ra[k]) == group_word()[k] {
                assert forall|k: int| 0 <= k < 6 implies lower(#[trigger] rb[k]) == group_word()[k] by {
                    assert(lower(ra[k]) == lower(rb[k]));
                }
            }
            if forall|k: int| 0 <= k < 6 ==> lower(#[trigger] rb[k]) == group_word()[k] {
                assert forall|k: int| 0 <= k < 6 implies lower(#[trigger] ra[k]) == group_word()[k] by {
                    assert(lower(ra[k]) == lower(rb[k]));
                }
            }
        }
    }
}

/// White space before a comment does not move where its text starts.
proof fn lemma_ws_end_after(w: Seq<char>, c: Seq<char>, i: int)
    requires
        forall|k: int| 0 <= k < w.len() ==> is_ws(#[trigger] w[k]),
        0 <= i <= w.len(),
    ensures
        ws_end(w + c, i) == w.len() + ws_end(c, 0),
    decreases w.len() + c.len() - i,
{
    let x = w + c;
    if i < w.len() {
        assert(x[i] == w[i]);
        lemma_ws_end_after(w, c, i + 1);
    } else {
        lemma_ws_end_shift(w, c, 0);
    }
}

proof fn lemma_ws_end_shift(w: Seq<char>, c: Seq<char>, j: int)
    requires
        0 <= j <= c.len(),
    ensures
        ws_end(w + c, w.len() + j) == w.len() + ws_end(c, j),
    decreases c.len() - j,
{
    let x = w + c;
    if j < c.len() {
        assert(x[w.len() + j] == c[j]);
        if is_ws(c[j]) {
            lemma_ws_end_shift(w, c, j + 1);
        }
    }
}

/// Whether a comment opens a group does not hang on the ASCII case it is written in, nor on the
/// white space before it.
pub proof fn lemma_group_marker_case(c: Seq<char>, w: Seq<char>)
    requires
        forall|k: int| 0 <= k < w.len() ==> is_ws(#[trigger] w[k]),
    ensures
        group_marker(c) == group_marker(upper_all(c)),
        group_marker(c) == group_marker(lower_all(c)),
        group_marker(c) == group_marker(w + c),
{
    assert forall|i: int| 0 <= i < c.len() implies lower(#[trigger] c[i]) == lower(upper_all(c)[i]) by {
        let x = c[i];
        if 'a' <= x && x <= 'z' {
            assert(65 <= (x as u32) - 32 <= 90);
        }
    }
    lemma_marker_alike(c, upper_all(c));
    assert forall|i: int| 0 <= i < c.len() implies lower(#[trigger] c[i]) == lower(lower_all(c)[i]) by {
        let x = c[i];
        if 'A' <= x && x <= 'Z' {
            assert(97 <= (x as u32) + 32 <= 122);
        }
    }
    lemma_marker_alike(c, lower_all(c));
    crate::text::lemma_ws_end_bounds(c, 0);
    lemma_ws_end_after(w, c, 0);
    assert((w + c).skip(w.len() + ws_end(c, 0)) =~= c.skip(ws_end(c, 0)));
}

/// Whether a member's lead holds a comment that opens a group.
pub open spec fn marked(lead: Seq<Seq<char>>) -> bool {
    exists|i: int| 0 <= i < lead.len() && group_marker(#[trigger] lead[i])
}

/// The ranges the markers split `n` members into, from member `i` on, the current range having
/// opened at `start`: a member whose lead holds a marker opens a range of its own, except the
/// first, which opens one anyway.
pub open spec fn ranges_from(marks: Seq<bool>, i: int, start: int) -> Seq<(int, int)>
    decreases marks.len() - i,
{
    if i >= marks.len() {
        seq![(start, marks.len() as int)]
    } else if marks[i] {
        seq![(start, i)] + ranges_from(marks, i + 1, i)
    } else {
        ranges_from(marks, i + 1, start)
    }
}

/// What the comments leading each member say, as whether it opens a group.
pub open spec fn marks_of(leads: Seq<Seq<String>>) -> Seq<bool> {
    leads.map_values(|lead: Seq<String>| marked(lead.map_values(|c: String| c@)))
}

fn lead_marked(lead: &Vec<String>) -> (r: bool)
    ensures
        r == marked(lead@.map_values(|c: String| c@)),
{
    let ghost texts = lead@.map_values(|c: String| c@);
    let mut i: usize = 0;
    while i < lead.len()
        invariant
            i <= lead.len(),
            texts == lead@.map_values(|c: String| c@),
            forall|k: int| 0 <= k < i ==> !group_marker(#[trigger] texts[k]),
        decreases lead.len() - i,
    {
        if is_group_marker(lead[i].as_str()) {
            assert(group_marker(texts[i as int]));
            return true;
        }
        i += 1;
    }
    false
}

/// The ranges as pairs of bounds.
pub open spec fn bounds(r: Seq<std::ops::Range<usize>>) -> Seq<(int, int)> {
    r.map_values(|x: std::ops::Range<usize>| (x.start as int, x.end as int))
}

/// The ranges a `# Group:` marker splits the members into, or one range covering all of them,
/// given the comments that lead each member.
///
/// A marker opens a group and holds it apart from the one before it, so nothing sorts across one.
pub fn member_ranges(leads: &Vec<Vec<String>>) -> (r: Vec<std::ops::Range<usize>>)
    ensures
        bounds(r@) == ranges_from(marks_of(leads@.map_values(|l: Vec<String>| l@)), 1, 0),
{
    let ghost marks = marks_of(leads@.map_values(|l: Vec<String>| l@));
    let ghost expected = ranges_from(marks, 1, 0);
    let n = leads.len();
    let mut out: Vec<std::ops::Range<usize>> = Vec::new();
    if n == 0 {
        out.push(0..0);
        assert(bounds(out@) =~= expected);
        return out;
    }
    let mut start: usize = 0;
    let mut i: usize = 1;
    assert(bounds(out@) =~= Seq::<(int, int)>::empty());
    assert(expected =~= bounds(out@) + ranges_from(marks, 1, 0));
    while i < n
        invariant
            1 <= i <= n == leads.len() == marks.len(),
            start < i,
            marks == marks_of(leads@.map_values(|l: Vec<String>| l@)),
            expected == ranges_from(marks, 1, 0),
            expected == bounds(out@) + ranges_from(marks, i as int, start as int),
        decreases n - i,
    {
        let m = lead_marked(&leads[i]);
        assert(marks[i as int] == m);
        if m {
            let ghost before = bounds(out@);
            out.push(start..i);
            assert(bounds(out@) =~= before.push((start as int, i as int)));
            assert(ranges_from(marks, i as int, start as int) == seq![(start as int, i as int)]
                + ranges_from(marks, i + 1, i as int));
            assert(expected =~= bounds(out@) + ranges_from(marks, i + 1, i as int));
            start = i;
        }
        i += 1;
    }
    let ghost before = bounds(out@);
    out.push(start..n);
    assert(bounds(out@) =~= before.push((start as int, n as int)));
    assert(ranges_from(marks, n as int, start as int) == seq![(start as int, n as int)]);
    assert(bounds(out@) =~= expected);
    out
}

/// The name a table groups under: one level deeper for the nested prefixes, so `tool.black` and
/// `tool.ruff` are told apart.
pub open spec fn base_of(segments: Seq<Seq<char>>, nested: Seq<Seq<char>>) -> Seq<Seq<char>> {
    let head = if segments.len() > 0 {
        segments[0]
    } else {
        seq![]
    };
    let width: int = if nested.contains(head) {
        2
    } else {
        1
    };
    segments.take(if width < segments.len() {
        width
    } else {
        segments.len() as int
    })
}

/// The name a table groups under: one level deeper for the nested prefixes, so `tool.black` and
/// `tool.ruff` are told apart. Ordering and spacing have to agree on this or a gap lands in the
/// wrong place.
///
/// The answer is the segments themselves, not the name they join into: joining first would make
/// `tool."a.b"` and `tool.a.b` the same table.
pub fn base_segments(segments: &[String], nested_prefixes: &[&str]) -> (r: Vec<String>)
    ensures
        r@.map_values(|s: String| s@) == base_of(
            segments@.map_values(|s: String| s@),
            nested_prefixes@.map_values(|s: &str| s@),
        ),
{
    let ghost segs = segments@.map_values(|s: String| s@);
    let ghost nested = nested_prefixes@.map_values(|s: &str| s@);
    let head = if segments.len() > 0 {
        chars_of(segments[0].as_str())
    } else {
        Vec::new()
    };
    let mut found = false;
    let mut i: usize = 0;
    while i < nested_prefixes.len()
        invariant
            i <= nested_prefixes.len(),
            nested == nested_prefixes@.map_values(|s: &str| s@),
            found == exists|k: int| 0 <= k < i && #[trigger] nested[k] == head@,
        decreases nested_prefixes.len() - i,
    {
        let cand = chars_of(nested_prefixes[i]);
        assert(nested[i as int] == cand@);
        let hit = same(&cand, &head);
        let ghost was = found;
        if hit {
            found = true;
        }
        i += 1;
        proof {
            if !was && !hit {
                assert forall|k: int| 0 <= k < i implies #[trigger] nested[k] != head@ by {
                    if k < i - 1 {
                        assert(!(exists|j: int| 0 <= j < i - 1 && #[trigger] nested[j] == head@));
                    }
                }
            }
        }
    }
    proof {
        if found {
            let k = choose|k: int| 0 <= k < i && #[trigger] nested[k] == head@;
            assert(nested.contains(head@));
        } else {
            assert(!nested.contains(head@));
        }
        assert(head@ == (if segs.len() > 0 { segs[0] } else { seq![] }));
    }
    let width: usize = if found {
        2
    } else {
        1
    };
    let take = if width < segments.len() {
        width
    } else {
        segments.len()
    };
    let mut out: Vec<String> = Vec::new();
    let mut j: usize = 0;
    while j < take
        invariant
            j <= take <= segments.len(),
            segs == segments@.map_values(|s: String| s@),
            out@.len() == j,
            forall|k: int| 0 <= k < j ==> #[trigger] out@[k]@ == segs[k],
        decreases take - j,
    {
        out.push(segments[j].clone());
        j += 1;
    }
    assert(out@.map_values(|s: String| s@) =~= base_of(segs, nested));
    out
}

proof fn lemma_ranges_shape(marks: Seq<bool>, i: int, start: int)
    requires
        0 <= start < i <= marks.len(),
    ensures
        ({
            let rs = ranges_from(marks, i, start);
            &&& rs.len() >= 1
            &&& rs[0].0 == start
            &&& rs.last().1 == marks.len()
            &&& forall|k: int| 0 <= k < rs.len() ==> #[trigger] rs[k].0 < rs[k].1
            &&& forall|k: int| 0 <= k < rs.len() - 1 ==> #[trigger] rs[k].1 == rs[k + 1].0
            &&& forall|k: int| 1 <= k < rs.len() ==> i <= #[trigger] rs[k].0 < marks.len() && marks[rs[k].0]
            &&& forall|j: int|
                i <= j < marks.len() && #[trigger] marks[j] ==> exists|k: int|
                    1 <= k < rs.len() && #[trigger] rs[k].0 == j
        }),
    decreases marks.len() - i,
{
    let rs = ranges_from(marks, i, start);
    if i >= marks.len() {
        assert(rs == seq![(start, marks.len() as int)]);
    } else if marks[i] {
        let rest = ranges_from(marks, i + 1, i);
        lemma_ranges_shape(marks, i + 1, i);
        assert(rs == seq![(start, i)] + rest);
        assert forall|k: int| 0 <= k < rs.len() implies #[trigger] rs[k].0 < rs[k].1 by {
            if k > 0 {
                assert(rs[k] == rest[k - 1]);
            }
        }
        assert forall|k: int| 0 <= k < rs.len() - 1 implies #[trigger] rs[k].1 == rs[k + 1].0 by {
            assert(rs[k + 1] == rest[k]);
            if k > 0 {
                assert(rs[k] == rest[k - 1]);
            }
        }
        assert forall|k: int| 1 <= k < rs.len() implies i <= #[trigger] rs[k].0 < marks.len()
            && marks[rs[k].0] by {
            assert(rs[k] == rest[k - 1]);
            if k == 1 {
                assert(rest[0].0 == i);
            }
        }
        assert forall|j: int| i <= j < marks.len() && #[trigger] marks[j] implies exists|k: int|
            1 <= k < rs.len() && #[trigger] rs[k].0 == j by {
            if j == i {
                assert(rs[1] == rest[0]);
                assert(rs[1].0 == j);
            } else {
                let k = choose|k: int| 1 <= k < rest.len() && #[trigger] rest[k].0 == j;
                assert(rs[k + 1] == rest[k]);
                assert(rs[k + 1].0 == j);
            }
        }
        assert(rs.last() == rest.last());
    } else {
        lemma_ranges_shape(marks, i + 1, start);
    }
}

/// Whether the comments leading a member hold one that opens a group.
pub open spec fn opens_group(lead: Seq<String>) -> bool {
    marked(lead.map_values(|c: String| c@))
}

/// The ranges the group markers split the members into run from the first member to the last
/// without gap or overlap, none of them empty where there are members; each range after the first
/// opens at a member whose leading comments hold a group marker, and every such member after the
/// first opens one.
pub proof fn lemma_markers_open_ranges(leads: Seq<Seq<String>>)
    ensures
        ({
            let rs = ranges_from(marks_of(leads), 1, 0);
            let n = leads.len() as int;
            &&& rs.len() >= 1
            &&& rs[0].0 == 0
            &&& rs.last().1 == n
            &&& n >= 1 ==> forall|k: int| 0 <= k < rs.len() ==> #[trigger] rs[k].0 < rs[k].1
            &&& forall|k: int| 0 <= k < rs.len() - 1 ==> #[trigger] rs[k].1 == rs[k + 1].0
            &&& forall|k: int|
                1 <= k < rs.len() ==> 1 <= #[trigger] rs[k].0 < n && opens_group(leads[rs[k].0])
            &&& forall|j: int|
                1 <= j < n && #[trigger] opens_group(leads[j]) ==> exists|k: int|
                    1 <= k < rs.len() && #[trigger] rs[k].0 == j
        }),
{
    let marks = marks_of(leads);
    let rs = ranges_from(marks, 1, 0);
    assert forall|j: int| 0 <= j < leads.len() implies #[trigger] marks[j] == opens_group(leads[j])
        by {}
    if leads.len() >= 1 {
        lemma_ranges_shape(marks, 1, 0);
        assert forall|j: int|
            1 <= j < leads.len() && #[trigger] opens_group(leads[j]) implies exists|k: int|
            1 <= k < rs.len() && #[trigger] rs[k].0 == j by {
            assert(marks[j]);
        }
    } else {
        assert(rs == seq![(0int, 0int)]);
    }
}

/// The name a table groups under is its first segment, or its first two where the first is one of
/// the nested prefixes and a second follows.
pub proof fn lemma_base_width(segments: Seq<Seq<char>>, nested: Seq<Seq<char>>)
    requires
        segments.len() > 0,
    ensures
        !nested.contains(segments[0]) ==> base_of(segments, nested) == seq![segments[0]],
        nested.contains(segments[0]) && segments.len() >= 2 ==> base_of(segments, nested) == seq![
            segments[0],
            segments[1],
        ],
        nested.contains(segments[0]) && segments.len() == 1 ==> base_of(segments, nested) == segments,
{
    if !nested.contains(segments[0]) {
        assert(base_of(segments, nested) =~= seq![segments[0]]);
    } else if segments.len() >= 2 {
        assert(base_of(segments, nested) =~= seq![segments[0], segments[1]]);
    } else {
        assert(base_of(segments, nested) =~= segments);
    }
}

} // verus!
