//! Line-level clean-ups of written text.

use vstd::prelude::*;
use crate::text::{
    chars_of, is_ws, join, joined, lines, lines_of, string_of, trim_end, trimmed_end, views,
};

verus! {

/// The lines kept after reading the lines in turn, each trimmed at its end, and how many blank
/// ones the last of them closes: a blank line is kept while the run it belongs to is no longer
/// than `max`.
pub open spec fn limit_state(ls: Seq<Seq<char>>, max: nat) -> (Seq<Seq<char>>, nat)
    decreases ls.len(),
{
    if ls.len() == 0 {
        (seq![], 0)
    } else {
        let (kept, run) = limit_state(ls.drop_last(), max);
        let t = trim_end(ls.last());
        if t.len() == 0 {
            (if run + 1 <= max {
                kept.push(t)
            } else {
                kept
            }, run + 1)
        } else {
            (kept.push(t), 0)
        }
    }
}

/// The text with every run of blank lines cut to `max`, every line trimmed at its end, and the
/// closing line break kept where there was one.
pub open spec fn limited(content: Seq<char>, max: nat) -> Seq<char> {
    join(limit_state(lines_of(content), max).0, seq!['\n']) + if content.len() > 0
        && content.last() == '\n' {
        seq!['\n']
    } else {
        seq![]
    }
}

/// The text with every run of blank lines cut to `max_blank_lines`.
pub fn limit_blank_lines(content: &str, max_blank_lines: usize) -> (r: String)
    ensures
        r@ == limited(content@, max_blank_lines as nat),
{
    let s = chars_of(content);
    let ls = lines(&s);
    let mut result: Vec<Vec<char>> = Vec::new();
    let mut run: usize = 0;
    let mut i: usize = 0;
    assert(views(result@) =~= Seq::<Seq<char>>::empty());
    while i < ls.len()
        invariant
            i <= ls.len(),
            run <= i,
            (views(result@), run as nat) == limit_state(views(ls@).take(i as int), max_blank_lines as nat),
        decreases ls.len() - i,
    {
        let t = trimmed_end(&ls[i]);
        let ghost before = views(result@);
        proof {
            let taken = views(ls@).take(i + 1);
            assert(taken.drop_last() =~= views(ls@).take(i as int));
            assert(taken.last() == ls@[i as int]@);
        }
        if t.len() == 0 {
            run += 1;
            if run <= max_blank_lines {
                result.push(t);
                assert(views(result@) =~= before.push(t@));
            }
        } else {
            run = 0;
            result.push(t);
            assert(views(result@) =~= before.push(t@));
        }
        i += 1;
    }
    assert(views(ls@).take(i as int) =~= views(ls@));
    let newline = vec!['\n'];
    assert(newline@ =~= seq!['\n']);
    let mut out = joined(&result, &newline);
    if s.len() > 0 && s[s.len() - 1] == '\n' {
        out.push('\n');
    } else {
        assert(out@ =~= out@ + Seq::<char>::empty());
    }
    string_of(&out)
}


/// How many empty lines close the lines.
pub open spec fn trailing_empty(ls: Seq<Seq<char>>) -> nat
    decreases ls.len(),
{
    if ls.len() > 0 && ls.last().len() == 0 {
        1 + trailing_empty(ls.drop_last())
    } else {
        0
    }
}

/// Whether no run of empty lines among the lines is longer than `max`: none closes any of their
/// first so many.
pub open spec fn runs_within(ls: Seq<Seq<char>>, max: nat) -> bool
    decreases ls.len(),
{
    ls.len() == 0 || (runs_within(ls.drop_last(), max) && trailing_empty(ls) <= max)
}

proof fn lemma_limit_state(ls: Seq<Seq<char>>, max: nat)
    ensures
        runs_within(limit_state(ls, max).0, max),
        trailing_empty(limit_state(ls, max).0) == if limit_state(ls, max).1 <= max {
            limit_state(ls, max).1
        } else {
            max
        },
        forall|i: int|
            0 <= i < limit_state(ls, max).0.len() ==> !(#[trigger] limit_state(ls, max).0[i]).contains(
                '\n',
            ) || exists|j: int| 0 <= j < ls.len() && ls[j].contains('\n'),
        forall|i: int|
            0 <= i < limit_state(ls, max).0.len() ==> (#[trigger] limit_state(ls, max).0[i]).len()
                == 0 || !is_ws(limit_state(ls, max).0[i].last()),
    decreases ls.len(),
{
    if ls.len() > 0 {
        let d = ls.drop_last();
        lemma_limit_state(d, max);
        let (kept, run) = limit_state(d, max);
        let t = trim_end(ls.last());
        crate::text::lemma_ws_start_bounds(ls.last(), ls.last().len() as int);
        let r = limit_state(ls, max).0;
        if t.len() == 0 {
            if run + 1 <= max {
                assert(r.drop_last() =~= kept);
            }
        } else {
            assert(r.drop_last() =~= kept);
            assert(t.last() == ls.last()[t.len() - 1]);
        }
        assert forall|i: int| 0 <= i < r.len() implies !(#[trigger] r[i]).contains('\n') || exists|
            j: int,
        | 0 <= j < ls.len() && ls[j].contains('\n') by {
            if i < kept.len() {
                assert(r[i] == kept[i]);
                if kept[i].contains('\n') {
                    let j = choose|j: int| 0 <= j < d.len() && d[j].contains('\n');
                    assert(ls[j] == d[j]);
                }
            } else {
                if t.contains('\n') {
                    let x = choose|x: int| 0 <= x < t.len() && t[x] == '\n';
                    assert(ls.last()[x] == '\n');
                    assert(ls[ls.len() - 1].contains('\n'));
                }
            }
        }
        assert forall|i: int| 0 <= i < r.len() implies (#[trigger] r[i]).len() == 0 || !is_ws(
            r[i].last(),
        ) by {
            if i < kept.len() {
                assert(r[i] == kept[i]);
            }
        }
    }
}

proof fn lemma_runs_prefix(ls: Seq<Seq<char>>, max: nat)
    requires
        ls.len() > 0,
        runs_within(ls, max),
    ensures
        runs_within(ls.drop_last(), max),
{
}

/// No run of blank lines in the text limited to `max` of them is longer than `max`. Where every
/// line is blank and `max` is nought, the line break that closed the text still closes it, and it
/// stands after one empty line.
pub proof fn lemma_runs_capped(content: Seq<char>, max: nat)
    requires
        max > 0 || limit_state(lines_of(content), max).0.len() > 0 || !(content.len() > 0
            && content.last() == '\n'),
    ensures
        runs_within(lines_of(limited(content, max)), max),
{
    let ls = lines_of(content);
    lemma_limit_state(ls, max);
    let kept = limit_state(ls, max).0;
    let closed = content.len() > 0 && content.last() == '\n';
    crate::text::lemma_split_free(content, '\n', '\n');
    assert forall|j: int| 0 <= j < ls.len() implies !(#[trigger] ls[j]).contains('\n') by {
        let p = crate::text::split_on(content, '\n');
        if j < p.len() - 1 {
            let l = p.drop_last()[j];
            assert(l == p[j]);
            if crate::text::strip_cr(l).contains('\n') {
                let x = choose|x: int| 0 <= x < crate::text::strip_cr(l).len() && crate::text::strip_cr(l)[x] == '\n';
                assert(l[x] == '\n');
            }
        } else {
            assert(ls[j] == p.last());
        }
    }
    if kept.len() == 0 {
        if closed {
            assert(limited(content, max) =~= seq!['\n']);
            assert(crate::text::split_on(seq!['\n'], '\n') =~= seq![Seq::<char>::empty(), Seq::<char>::empty()])
                by {
                crate::text::lemma_index_of(seq!['\n'], '\n', 0);
                assert(crate::text::index_of(seq!['\n'], '\n', 0) == 0);
                assert(seq!['\n'].skip(1) =~= Seq::<char>::empty());
                assert(seq!['\n'].take(0) =~= Seq::<char>::empty());
                crate::text::lemma_index_of(Seq::<char>::empty(), '\n', 0);
                assert(crate::text::split_on(Seq::<char>::empty(), '\n') == seq![
                    Seq::<char>::empty(),
                ]);
            }
            let one = lines_of(seq!['\n']);
            assert(one =~= seq![Seq::<char>::empty()]);
            assert(one.drop_last() =~= Seq::<Seq<char>>::empty());
        } else {
            assert(limited(content, max) =~= Seq::<char>::empty());
            crate::text::lemma_index_of(Seq::<char>::empty(), '\n', 0);
            assert(lines_of(Seq::<char>::empty()) =~= Seq::<Seq<char>>::empty());
        }
    } else {
        assert forall|i: int| 0 <= i < kept.len() implies !(#[trigger] kept[i]).contains('\n') && (
        kept[i].len() == 0 || kept[i].last() != '\r') by {
            assert(kept[i].len() == 0 || !is_ws(kept[i].last()));
        }
        crate::text::lemma_lines_of_join(kept, closed);
        assert(limited(content, max) == join(kept, seq!['\n']) + if closed {
            seq!['\n']
        } else {
            Seq::<char>::empty()
        });
        if !(closed || kept.last().len() > 0) {
            lemma_runs_prefix(kept, max);
        }
    }
}

/// The lines the pass keeps hold no line break and close on no white space, and no run of blank
/// ones among them is longer than `max`.
proof fn lemma_kept_clean(content: Seq<char>, max: nat)
    ensures
        runs_within(limit_state(lines_of(content), max).0, max),
        forall|i: int|
            0 <= i < limit_state(lines_of(content), max).0.len() ==> !(
            #[trigger] limit_state(lines_of(content), max).0[i]).contains('\n') && (limit_state(
                lines_of(content),
                max,
            ).0[i].len() == 0 || !is_ws(limit_state(lines_of(content), max).0[i].last())),
{
    let ls = lines_of(content);
    lemma_limit_state(ls, max);
    crate::text::lemma_split_free(content, '\n', '\n');
    assert forall|j: int| 0 <= j < ls.len() implies !(#[trigger] ls[j]).contains('\n') by {
        let p = crate::text::split_on(content, '\n');
        if j < p.len() - 1 {
            let l = p.drop_last()[j];
            assert(l == p[j]);
            if crate::text::strip_cr(l).contains('\n') {
                let x = choose|x: int|
                    0 <= x < crate::text::strip_cr(l).len() && crate::text::strip_cr(l)[x] == '\n';
                assert(l[x] == '\n');
            }
        } else {
            assert(ls[j] == p.last());
        }
    }
}

/// Lines that close on no white space and whose blank runs are no longer than `max` are kept
/// whole.
proof fn lemma_limit_keeps(ls: Seq<Seq<char>>, max: nat)
    requires
        runs_within(ls, max),
        forall|i: int| 0 <= i < ls.len() ==> (#[trigger] ls[i]).len() == 0 || !is_ws(ls[i].last()),
    ensures
        limit_state(ls, max) == (ls, trailing_empty(ls)),
    decreases ls.len(),
{
    if ls.len() > 0 {
        let d = ls.drop_last();
        assert forall|i: int| 0 <= i < d.len() implies (#[trigger] d[i]).len() == 0 || !is_ws(
            d[i].last(),
        ) by {
            assert(d[i] == ls[i]);
        }
        lemma_limit_keeps(d, max);
        let l = ls.last();
        assert(l.len() == 0 || !is_ws(ls[ls.len() - 1].last()));
        crate::text::lemma_ws_start_bounds(l, l.len() as int);
        if l.len() > 0 {
            assert(crate::text::ws_start(l, l.len() as int) == l.len());
        }
        assert(trim_end(l) =~= l);
        assert(d.push(l) =~= ls);
    }
}

/// Limiting blank lines twice limits them as once: the pass leaves its own output as it is.
pub proof fn lemma_limited_settles(content: Seq<char>, max: nat)
    ensures
        limited(limited(content, max), max) == limited(content, max),
{
    let kept = limit_state(lines_of(content), max).0;
    let closed = content.len() > 0 && content.last() == '\n';
    let out = limited(content, max);
    lemma_kept_clean(content, max);
    let tail = if closed {
        seq!['\n']
    } else {
        Seq::<char>::empty()
    };
    assert(out == join(kept, seq!['\n']) + tail);
    if kept.len() == 0 {
        assert(join(kept, seq!['\n']) == Seq::<char>::empty());
        if closed {
            assert(out =~= seq!['\n']);
            crate::text::lemma_lines_of_join(seq![Seq::<char>::empty()], true);
            assert(join(seq![Seq::<char>::empty()], seq!['\n']) == Seq::<char>::empty());
            assert(Seq::<char>::empty() + seq!['\n'] =~= seq!['\n']);
            let one = seq![Seq::<char>::empty()];
            assert(lines_of(out) == one);
            assert(one.drop_last() =~= Seq::<Seq<char>>::empty());
            assert(limit_state(Seq::<Seq<char>>::empty(), max).0 == Seq::<Seq<char>>::empty());
            let e = Seq::<char>::empty();
            assert(one.last() == e);
            assert(crate::text::ws_start(e, 0) == 0);
            assert(trim_end(e) =~= e);
            let k1 = limit_state(one, max).0;
            if 1 <= max {
                assert(k1 == Seq::<Seq<char>>::empty().push(e));
                assert(k1 =~= one);
                assert(join(one, seq!['\n']) == e);
            } else {
                assert(k1 =~= Seq::<Seq<char>>::empty());
            }
        } else {
            assert(out =~= Seq::<char>::empty());
            crate::text::lemma_index_of(Seq::<char>::empty(), '\n', 0);
            assert(lines_of(Seq::<char>::empty()) =~= Seq::<Seq<char>>::empty());
        }
    } else {
        assert forall|i: int| 0 <= i < kept.len() implies !(#[trigger] kept[i]).contains('\n') && (
        kept[i].len() == 0 || kept[i].last() != '\r') by {}
        crate::text::lemma_lines_of_join(kept, closed);
        let lines2 = if closed || kept.last().len() > 0 {
            kept
        } else {
            kept.drop_last()
        };
        assert(lines_of(out) == lines2);
        if !(closed || kept.last().len() > 0) {
            lemma_runs_prefix(kept, max);
        }
        assert forall|i: int| 0 <= i < lines2.len() implies (#[trigger] lines2[i]).len() == 0 || !is_ws(
            lines2[i].last(),
        ) by {
            assert(lines2[i] == kept[i]);
        }
        lemma_limit_keeps(lines2, max);
        if closed {
            assert(out.last() == '\n');
        } else if kept.last().len() > 0 {
            assert(out == join(kept, seq!['\n']));
            crate::pep508::stable::lemma_join_last_pub(kept, seq!['\n']);
            assert(!kept[kept.len() - 1].contains('\n'));
            assert(out.last() != '\n');
            assert(out =~= join(kept, seq!['\n']) + Seq::<char>::empty());
        } else if kept.len() == 1 {
            assert(out =~= Seq::<char>::empty());
            assert(lines2 =~= Seq::<Seq<char>>::empty());
        } else {
            let d = kept.drop_last();
            assert(join(kept, seq!['\n']) == join(d, seq!['\n']) + seq!['\n'] + kept.last());
            assert(out =~= join(d, seq!['\n']) + seq!['\n']);
            assert(out.last() == '\n');
        }
    }
}

} // verus!
