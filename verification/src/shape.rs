//! The shape a formatted file takes: which tables fold into their parents, and what the layout
//! writes once every rule has run.

use vstd::prelude::*;
use crate::sections::{name_path, parse_name};
use crate::text::chars_of;

verus! {

/// The names, each as its segments.
pub open spec fn paths(v: Seq<Vec<String>>) -> Seq<Seq<Seq<char>>> {
    v.map_values(|p: Vec<String>| p@.map_values(|s: String| s@))
}

/// Which tables fold into their parent.
pub struct Tables {
    /// What a table does where no setting names it or anything above it.
    pub default_collapse: bool,
    pub expand: Vec<Vec<String>>,
    pub collapse: Vec<Vec<String>>,
}

/// Whether the table whose first `depth` segments the settings are asked about folds: the closest
/// setting that names it or a table above it decides, a fold winning over an expansion of the same
/// name, and the default where none does.
pub open spec fn folds(
    name: Seq<Seq<char>>,
    expand: Seq<Seq<Seq<char>>>,
    collapse: Seq<Seq<Seq<char>>>,
    default: bool,
    depth: int,
) -> bool
    decreases depth,
{
    if depth <= 0 {
        default
    } else if collapse.contains(name.take(depth)) {
        true
    } else if expand.contains(name.take(depth)) {
        false
    } else {
        folds(name, expand, collapse, default, depth - 1)
    }
}

fn read_names(names: &[String]) -> (r: Vec<Vec<String>>)
    ensures
        r@.len() == names@.len(),
        forall|k: int|
            0 <= k < names@.len() ==> #[trigger] paths(r@)[k] == name_path(names@[k]@),
{
    let mut r: Vec<Vec<String>> = Vec::new();
    let mut k: usize = 0;
    while k < names.len()
        invariant
            k <= names@.len(),
            r@.len() == k,
            forall|j: int| 0 <= j < k ==> #[trigger] paths(r@)[j] == name_path(names@[j]@),
        decreases names.len() - k,
    {
        let ghost before = r@;
        r.push(parse_name(names[k].as_str()));
        assert forall|j: int| 0 <= j < k + 1 implies #[trigger] paths(r@)[j] == name_path(
            names@[j]@,
        ) by {
            if j < k {
                assert(r@[j] == before[j]);
                assert(paths(before)[j] == name_path(names@[j]@));
            }
        }
        k += 1;
    }
    r
}

/// Whether the name's first `depth` segments are one of the names.
fn holds_prefix(names: &Vec<Vec<String>>, name: &[String], depth: usize) -> (r: bool)
    requires
        depth <= name@.len(),
    ensures
        r == paths(names@).contains(name@.map_values(|s: String| s@).take(depth as int)),
{
    let ghost want = name@.map_values(|s: String| s@).take(depth as int);
    let mut k: usize = 0;
    while k < names.len()
        invariant
            k <= names@.len(),
            depth <= name@.len(),
            want == name@.map_values(|s: String| s@).take(depth as int),
            forall|j: int| 0 <= j < k ==> #[trigger] paths(names@)[j] != want,
        decreases names.len() - k,
    {
        let held = &names[k];
        let ghost hv = paths(names@)[k as int];
        assert(hv == held@.map_values(|s: String| s@));
        if held.len() == depth {
            let mut j: usize = 0;
            let mut same = true;
            while j < depth && same
                invariant
                    j <= depth == held@.len(),
                    depth <= name@.len(),
                    hv == held@.map_values(|s: String| s@),
                    want == name@.map_values(|s: String| s@).take(depth as int),
                    same == forall|x: int| 0 <= x < j ==> #[trigger] hv[x] == want[x],
                decreases depth - j,
            {
                assert(hv[j as int] == held@[j as int]@ && want[j as int] == name@[j as int]@);
                if !crate::text::same(&chars_of(held[j].as_str()), &chars_of(name[j].as_str())) {
                    same = false;
                }
                j += 1;
            }
            if same {
                assert(hv =~= want);
                return true;
            }
            proof {
                let x = choose|x: int| 0 <= x < j && !(#[trigger] hv[x] == want[x]);
                assert(hv[x] != want[x]);
            }
        } else {
            assert(hv.len() != want.len());
        }
        k += 1;
    }
    false
}

impl Tables {
    /// Read the settings a user wrote, each naming a table the way TOML names one: `a."b.c"` is two
    /// segments and `a.b.c` three, so the two name different tables and select them apart. A name
    /// TOML reads no key from names the pieces between its dots.
    pub fn new(table_format: &str, expand: &[String], collapse: &[String]) -> (r: Self)
        ensures
            r.default_collapse == (table_format@ == seq!['s', 'h', 'o', 'r', 't']),
            paths(r.expand@) == expand@.map_values(|n: String| name_path(n@)),
            paths(r.collapse@) == collapse@.map_values(|n: String| name_path(n@)),
    {
        let e = read_names(expand);
        let c = read_names(collapse);
        let f = chars_of(table_format);
        let short = vec!['s', 'h', 'o', 'r', 't'];
        assert(short@ =~= seq!['s', 'h', 'o', 'r', 't']);
        let default_collapse = crate::text::same(&f, &short);
        assert(paths(e@) =~= expand@.map_values(|n: String| name_path(n@)));
        assert(paths(c@) =~= collapse@.map_values(|n: String| name_path(n@)));
        Tables { default_collapse, expand: e, collapse: c }
    }

    /// Whether the table folds into its parent, per the closest setting that names it or one of the
    /// tables above it. The name is compared segment by segment, so a setting cannot cut a quoted
    /// name holding a dot in half.
    pub fn should_collapse(&self, table_name: &[String]) -> (r: bool)
        ensures
            r == folds(
                table_name@.map_values(|s: String| s@),
                paths(self.expand@),
                paths(self.collapse@),
                self.default_collapse,
                table_name@.len() as int,
            ),
    {
        let ghost tn = table_name@.map_values(|s: String| s@);
        let mut depth = table_name.len();
        while depth > 0
            invariant
                depth <= table_name@.len(),
                tn == table_name@.map_values(|s: String| s@),
                folds(
                    tn,
                    paths(self.expand@),
                    paths(self.collapse@),
                    self.default_collapse,
                    table_name@.len() as int,
                ) == folds(
                    tn,
                    paths(self.expand@),
                    paths(self.collapse@),
                    self.default_collapse,
                    depth as int,
                ),
            decreases depth,
        {
            if holds_prefix(&self.collapse, table_name, depth) {
                return true;
            }
            if holds_prefix(&self.expand, table_name, depth) {
                return false;
            }
            depth -= 1;
        }
        self.default_collapse
    }
}

/// What the layout writes once every rule has run.
pub struct Written<'a> {
    pub column_width: usize,
    pub indent: usize,
    /// The blank lines between one root table and the next.
    pub separate_root_table: &'a str,
    /// The blank lines between the sub-tables of one table, where they are written out.
    pub sub_table_spacing: &'a str,
    pub table_format: &'a str,
    /// The keys whose values carry meaning that line breaks would obscure.
    pub skip_wrap_for_keys: &'a [String],
    /// The tables whose children are written under them rather than beside them.
    pub nested_prefixes: &'a [&'a str],
}

/// A collapse setting on the table or on a table above it folds the table, unless an expand
/// setting names a table closer to it: the closest setting that names it or a table above it is the
/// one that decides.
pub proof fn lemma_closest_collapse_folds(
    name: Seq<Seq<char>>,
    expand: Seq<Seq<Seq<char>>>,
    collapse: Seq<Seq<Seq<char>>>,
    default: bool,
    d: int,
)
    requires
        1 <= d <= name.len(),
        collapse.contains(name.take(d)),
        forall|e: int| d < e <= name.len() ==> !expand.contains(#[trigger] name.take(e)),
    ensures
        folds(name, expand, collapse, default, name.len() as int),
{
    lemma_folds_from(name, expand, collapse, default, d, name.len() as int);
}

proof fn lemma_folds_from(
    name: Seq<Seq<char>>,
    expand: Seq<Seq<Seq<char>>>,
    collapse: Seq<Seq<Seq<char>>>,
    default: bool,
    d: int,
    depth: int,
)
    requires
        1 <= d <= depth <= name.len(),
        collapse.contains(name.take(d)),
        forall|e: int| d < e <= name.len() ==> !expand.contains(#[trigger] name.take(e)),
    ensures
        folds(name, expand, collapse, default, depth),
    decreases depth,
{
    if depth > d && !collapse.contains(name.take(depth)) {
        assert(!expand.contains(name.take(depth)));
        lemma_folds_from(name, expand, collapse, default, d, depth - 1);
    }
}

/// An expand setting on the table or on a table above it keeps the table apart from its parent,
/// unless a collapse setting names that table or one closer to it.
pub proof fn lemma_closest_expand_keeps(
    name: Seq<Seq<char>>,
    expand: Seq<Seq<Seq<char>>>,
    collapse: Seq<Seq<Seq<char>>>,
    default: bool,
    d: int,
)
    requires
        1 <= d <= name.len(),
        expand.contains(name.take(d)),
        forall|e: int| d <= e <= name.len() ==> !collapse.contains(#[trigger] name.take(e)),
    ensures
        !folds(name, expand, collapse, default, name.len() as int),
{
    lemma_keeps_from(name, expand, collapse, default, d, name.len() as int);
}

proof fn lemma_keeps_from(
    name: Seq<Seq<char>>,
    expand: Seq<Seq<Seq<char>>>,
    collapse: Seq<Seq<Seq<char>>>,
    default: bool,
    d: int,
    depth: int,
)
    requires
        1 <= d <= depth <= name.len(),
        expand.contains(name.take(d)),
        forall|e: int| d <= e <= name.len() ==> !collapse.contains(#[trigger] name.take(e)),
    ensures
        !folds(name, expand, collapse, default, depth),
    decreases depth,
{
    assert(!collapse.contains(name.take(depth)));
    if depth > d && !expand.contains(name.take(depth)) {
        lemma_keeps_from(name, expand, collapse, default, d, depth - 1);
    }
}

/// Where no setting names the table or a table above it, the table does what the format does by
/// default.
pub proof fn lemma_unnamed_takes_default(
    name: Seq<Seq<char>>,
    expand: Seq<Seq<Seq<char>>>,
    collapse: Seq<Seq<Seq<char>>>,
    default: bool,
)
    requires
        forall|e: int|
            1 <= e <= name.len() ==> !expand.contains(#[trigger] name.take(e)) && !collapse.contains(
                name.take(e),
            ),
    ensures
        folds(name, expand, collapse, default, name.len() as int) == default,
{
    lemma_default_from(name, expand, collapse, default, name.len() as int);
}

proof fn lemma_default_from(
    name: Seq<Seq<char>>,
    expand: Seq<Seq<Seq<char>>>,
    collapse: Seq<Seq<Seq<char>>>,
    default: bool,
    depth: int,
)
    requires
        depth <= name.len(),
        forall|e: int|
            1 <= e <= name.len() ==> !expand.contains(#[trigger] name.take(e)) && !collapse.contains(
                name.take(e),
            ),
    ensures
        folds(name, expand, collapse, default, depth) == default,
    decreases depth,
{
    if depth > 0 {
        assert(!expand.contains(name.take(depth)) && !collapse.contains(name.take(depth)));
        lemma_default_from(name, expand, collapse, default, depth - 1);
    }
}

} // verus!
