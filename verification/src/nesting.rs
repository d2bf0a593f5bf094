//! Folding sub-tables into their parents: the width a fold may take, and which headers stand under
//! the table being folded.

use vstd::prelude::*;
use crate::text::chars_of;

verus! {

/// The room a fold has: the column a folded value may reach, and how far a nested line is pushed
/// in.
#[derive(Debug, Clone, Copy)]
pub struct Width {
    pub column: usize,
    pub indent: usize,
}

impl Width {
    /// A width nothing outgrows, for a fold whose shape is not in question.
    pub fn unbounded() -> (r: Self)
        ensures
            r.column == usize::MAX,
            r.indent == 2,
    {
        Width { column: usize::MAX, indent: 2 }
    }
}

/// Where the headers under the table being folded stand among the sections of a document.
pub struct Under {
    pub at: Vec<usize>,
}

/// The positions once the section at `gone` is taken out: that one is dropped, and each after it
/// moves up by one.
pub open spec fn without_section(at: Seq<usize>, gone: usize) -> Seq<usize>
    decreases at.len(),
{
    if at.len() == 0 {
        seq![]
    } else {
        let rest = without_section(at.drop_last(), gone);
        let held = at.last();
        if held == gone {
            rest
        } else if held > gone {
            rest.push((held - 1) as usize)
        } else {
            rest.push(held)
        }
    }
}

impl Under {
    /// The section at `at` has been taken out of the document: drop it, and move up each one that
    /// stood after it.
    pub fn gone(&mut self, at: usize)
        ensures
            final(self).at@ == without_section(old(self).at@, at),
    {
        let mut kept: Vec<usize> = Vec::new();
        let mut k: usize = 0;
        while k < self.at.len()
            invariant
                k <= self.at@.len(),
                self.at@ == old(self).at@,
                kept@ == without_section(self.at@.take(k as int), at),
            decreases self.at.len() - k,
        {
            let held = self.at[k];
            proof {
                assert(self.at@.take(k + 1).drop_last() =~= self.at@.take(k as int));
            }
            if held > at {
                kept.push(held - 1);
            } else if held != at {
                kept.push(held);
            }
            k += 1;
        }
        assert(self.at@.take(k as int) =~= self.at@);
        self.at = kept;
    }
}

/// Whether the name stands below `wanted`: longer, and opening with every segment of it.
pub open spec fn below(segments: Seq<Seq<char>>, wanted: Seq<Seq<char>>) -> bool {
    segments.len() > wanted.len() && forall|k: int| 0 <= k < wanted.len() ==> #[trigger] segments[k]
        == wanted[k]
}

/// Whether the name stands below `wanted`: longer, and opening with every segment of it.
pub fn is_below(segments: &[String], wanted: &[String]) -> (r: bool)
    ensures
        r == below(segments@.map_values(|s: String| s@), wanted@.map_values(|s: String| s@)),
{
    let ghost sv = segments@.map_values(|s: String| s@);
    let ghost wv = wanted@.map_values(|s: String| s@);
    if segments.len() <= wanted.len() {
        return false;
    }
    let mut k: usize = 0;
    while k < wanted.len()
        invariant
            k <= wanted@.len() < segments@.len(),
            sv == segments@.map_values(|s: String| s@),
            wv == wanted@.map_values(|s: String| s@),
            forall|j: int| 0 <= j < k ==> #[trigger] sv[j] == wv[j],
        decreases wanted.len() - k,
    {
        let a = chars_of(segments[k].as_str());
        let b = chars_of(wanted[k].as_str());
        assert(sv[k as int] == segments@[k as int]@ && wv[k as int] == wanted@[k as int]@);
        if !crate::text::same(&a, &b) {
            return false;
        }
        k += 1;
    }
    true
}

} // verus!
