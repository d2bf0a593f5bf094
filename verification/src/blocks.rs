//! Where the blocks of tables of a document go when the tables are put in order: the key each
//! block sorts by, and the order a stable sort by those keys puts a run of blocks in.
//!
//! A block is a table and the tables written beneath it. Its key reads the header of its first
//! table: the place the configured order gives the table it is written under, the place that
//! table was first written in, whether the block is that table itself or one below it, where the
//! table's own key order puts what is below it, and that part of the name in small letters.

use vstd::prelude::*;
use crate::group::{base_of, base_segments};
use crate::sections::{rank, rank_from, run_end_at, run_end_in};
use crate::shape::paths;
use crate::text::{chars_of, lex_le, lex_le_exec, lemma_lex_antisym, lemma_lex_total, lemma_lex_trans, same, slice, string_of};

verus! {

/// What decides where a block goes, as plain values.
pub struct BlockKeyView {
    pub placed: int,
    pub group: int,
    pub below: int,
    pub within: int,
    pub last: Seq<char>,
}

/// What decides where a block goes: the place the order gives the table it is written under, the
/// place that table was first written in, `1` where the block is below that table and `0` where it
/// is the table, where the table's key order puts the rest of the name, and the rest of the name
/// in small letters.
pub struct BlockKey {
    pub placed: usize,
    pub group: usize,
    pub below: usize,
    pub within: usize,
    pub last: String,
}

impl View for BlockKey {
    type V = BlockKeyView;

    open spec fn view(&self) -> BlockKeyView {
        BlockKeyView {
            placed: self.placed as int,
            group: self.group as int,
            below: self.below as int,
            within: self.within as int,
            last: self.last@,
        }
    }
}

/// Whether one key comes before another: compared field by field in the order they are listed,
/// the last one as text.
pub open spec fn block_before(a: BlockKeyView, b: BlockKeyView) -> bool {
    if a.placed != b.placed {
        a.placed < b.placed
    } else if a.group != b.group {
        a.group < b.group
    } else if a.below != b.below {
        a.below < b.below
    } else if a.within != b.within {
        a.within < b.within
    } else {
        lex_le(a.last, b.last) && a.last != b.last
    }
}

/// Whether the `a`th block stands before the `b`th once sorted: its key comes first, or the keys
/// are the same and it was written first.
pub open spec fn block_slot_before(ks: Seq<BlockKeyView>, a: int, b: int) -> bool {
    block_before(ks[a], ks[b]) || (ks[a] == ks[b] && a < b)
}

/// Whether `p` lists the blocks in the order a stable sort by their keys puts them in.
pub open spec fn stable_block_order(ks: Seq<BlockKeyView>, p: Seq<int>) -> bool {
    &&& p.len() == ks.len()
    &&& forall|i: int| 0 <= i < p.len() ==> 0 <= #[trigger] p[i] < ks.len()
    &&& forall|i: int, j: int|
        0 <= i < j < p.len() ==> block_slot_before(ks, #[trigger] p[i], #[trigger] p[j])
}

pub open spec fn key_views(ks: Seq<BlockKey>) -> Seq<BlockKeyView> {
    ks.map_values(|k: BlockKey| k@)
}

proof fn lemma_block_total(a: BlockKeyView, b: BlockKeyView)
    ensures
        block_before(a, b) || block_before(b, a) || a == b,
{
    lemma_lex_total(a.last, b.last);
    if lex_le(a.last, b.last) && lex_le(b.last, a.last) {
        lemma_lex_antisym(a.last, b.last);
    }
}

proof fn lemma_block_trans(a: BlockKeyView, b: BlockKeyView, c: BlockKeyView)
    requires
        block_before(a, b),
        block_before(b, c),
    ensures
        block_before(a, c),
{
    if a.placed == b.placed && b.placed == c.placed && a.group == b.group && b.group == c.group
        && a.below == b.below && b.below == c.below && a.within == b.within && b.within == c.within {
        lemma_lex_trans(a.last, b.last, c.last);
        if a.last == c.last {
            lemma_lex_antisym(a.last, b.last);
        }
    }
}

proof fn lemma_slot_trans(ks: Seq<BlockKeyView>, a: int, b: int, c: int)
    requires
        block_slot_before(ks, a, b),
        block_slot_before(ks, b, c),
    ensures
        block_slot_before(ks, a, c),
{
    if block_before(ks[a], ks[b]) && block_before(ks[b], ks[c]) {
        lemma_block_trans(ks[a], ks[b], ks[c]);
    }
}

fn key_lt(a: &BlockKey, b: &BlockKey) -> (r: bool)
    ensures
        r == block_before(a@, b@),
{
    if a.placed != b.placed {
        a.placed < b.placed
    } else if a.group != b.group {
        a.group < b.group
    } else if a.below != b.below {
        a.below < b.below
    } else if a.within != b.within {
        a.within < b.within
    } else {
        let x = chars_of(a.last.as_str());
        let y = chars_of(b.last.as_str());
        lex_le_exec(&x, &y) && !same(&x, &y)
    }
}

/// The blocks in the order a stable sort by their keys puts them in: the `j`th entry is where the
/// block that goes `j`th stood.
pub fn block_order(keys: &[BlockKey]) -> (order: Vec<usize>)
    ensures
        stable_block_order(key_views(keys@), order@.map_values(|x: usize| x as int)),
{
    let ghost ks = key_views(keys@);
    let mut order: Vec<usize> = Vec::new();
    let mut j: usize = 0;
    while j < keys.len()
        invariant
            j <= keys.len(),
            ks == key_views(keys@),
            order@.len() == j,
            forall|q: int| 0 <= q < order@.len() ==> #[trigger] order@[q] < j,
            forall|q1: int, q2: int|
                0 <= q1 < q2 < order@.len() ==> block_slot_before(
                    ks,
                    #[trigger] order@[q1] as int,
                    #[trigger] order@[q2] as int,
                ),
        decreases keys.len() - j,
    {
        let mut q: usize = 0;
        while q < order.len() && !key_lt(&keys[j], &keys[order[q]])
            invariant
                q <= order@.len(),
                j < keys.len(),
                ks == key_views(keys@),
                forall|q3: int| 0 <= q3 < order@.len() ==> #[trigger] order@[q3] < j,
                forall|q1: int|
                    0 <= q1 < q ==> !block_before(ks[j as int], ks[#[trigger] order@[q1] as int]),
            decreases order@.len() - q,
        {
            assert(ks[j as int] == keys@[j as int]@);
            assert(ks[order@[q as int] as int] == keys@[order@[q as int] as int]@);
            q += 1;
        }
        proof {
            if q < order@.len() {
                assert(ks[j as int] == keys@[j as int]@);
                assert(ks[order@[q as int] as int] == keys@[order@[q as int] as int]@);
            }
        }
        let ghost before = order@;
        order.insert(q, j);
        proof {
            let after = order@;
            assert(after == before.insert(q as int, j));
            assert forall|q1: int, q2: int| 0 <= q1 < q2 < after.len() implies block_slot_before(
                ks,
                #[trigger] after[q1] as int,
                #[trigger] after[q2] as int,
            ) by {
                let qi = q as int;
                if q2 < qi {
                    assert(after[q1] == before[q1] && after[q2] == before[q2]);
                } else if q2 == qi {
                    assert(after[q1] == before[q1] && after[q2] == j);
                    lemma_block_total(ks[before[q1] as int], ks[j as int]);
                } else if q1 < qi {
                    assert(after[q1] == before[q1] && after[q2] == before[q2 - 1]);
                } else if q1 == qi {
                    assert(after[q1] == j && after[q2] == before[q2 - 1]);
                    assert(block_before(ks[j as int], ks[before[qi] as int]));
                    if q2 - 1 > qi {
                        lemma_slot_trans(ks, j as int, before[qi] as int, before[q2 - 1] as int);
                    }
                } else {
                    assert(after[q1] == before[q1 - 1] && after[q2] == before[q2 - 1]);
                }
            }
            assert forall|q3: int| 0 <= q3 < after.len() implies #[trigger] after[q3] < j + 1 by {
                if q3 < q {
                    assert(after[q3] == before[q3]);
                } else if q3 > q {
                    assert(after[q3] == before[q3 - 1]);
                }
            }
        }
        j += 1;
    }
    let ghost p = order@.map_values(|x: usize| x as int);
    assert forall|i: int, k: int| 0 <= i < k < p.len() implies block_slot_before(
        ks,
        #[trigger] p[i],
        #[trigger] p[k],
    ) by {
        assert(p[i] == order@[i] as int && p[k] == order@[k] as int);
    }
    assert forall|i: int| 0 <= i < p.len() implies 0 <= #[trigger] p[i] < ks.len() by {
        assert(p[i] == order@[i] as int);
    }
    order
}

/// What `str::to_lowercase` gives: the text with each character in its small form, by Unicode.
pub uninterp spec fn lowercase(s: Seq<char>) -> Seq<char>;

/// `str::to_lowercase`, which maps each character to its small form by the Unicode tables alone,
/// so its result is a function of the text; what that function is, the tables say.
#[verifier::external_body]
fn lowercase_of(s: &str) -> (r: String)
    ensures
        r@ == lowercase(s@),
{
    s.to_lowercase()
}

/// Where `x` first stands in `s` from `k` on, or the length of `s` where it does not.
pub open spec fn first_of<A>(s: Seq<A>, x: A, k: int) -> int
    decreases s.len() - k,
{
    if k < 0 || k >= s.len() {
        s.len() as int
    } else if s[k] == x {
        k
    } else {
        first_of(s, x, k + 1)
    }
}

proof fn lemma_first_of<A>(s: Seq<A>, x: A, k: int)
    requires
        0 <= k <= s.len(),
    ensures
        k <= first_of(s, x, k) <= s.len(),
        first_of(s, x, k) < s.len() ==> s[first_of(s, x, k)] == x,
        forall|j: int| k <= j < first_of(s, x, k) ==> s[j] != x,
    decreases s.len() - k,
{
    if k < s.len() && s[k] != x {
        lemma_first_of(s, x, k + 1);
    }
}

/// The place the order gives a block whose table is `base`, written under the segments `head`:
/// where the order first names it, or after every name it holds, a table under one of the nested
/// prefixes before one that is not.
pub open spec fn placed_of(
    order: Seq<Seq<char>>,
    nested: Seq<Seq<char>>,
    head: Seq<Seq<char>>,
    base: Seq<char>,
) -> int {
    let k = first_of(order, base, 0);
    if k < order.len() {
        k
    } else if nested.contains(head[0]) {
        order.len() as int
    } else {
        order.len() + 1int
    }
}

/// How many heads before `n` are written there for the first time.
pub open spec fn new_heads(hs: Seq<Seq<Seq<char>>>, n: int) -> int
    decreases n,
{
    if n <= 0 {
        0
    } else {
        new_heads(hs, n - 1) + if first_of(hs, hs[n - 1], 0) == n - 1 {
            1int
        } else {
            0int
        }
    }
}

/// The place the head of the `i`th block was first written in, among the heads written.
pub open spec fn group_of(hs: Seq<Seq<Seq<char>>>, i: int) -> int {
    new_heads(hs, first_of(hs, hs[i], 0))
}

/// The part of the name that sorts: up to where the first kept name it is written under ends, or
/// the whole name where it is written under none.
pub open spec fn kept_part(leaf: Seq<char>, kept: Seq<Seq<char>>, k: int) -> Seq<char>
    decreases kept.len() - k,
{
    if k < 0 || k >= kept.len() {
        leaf
    } else {
        match run_end_at(leaf, kept[k]) {
            Some(e) => leaf.take(e),
            None => kept_part(leaf, kept, k + 1),
        }
    }
}

/// The key of the `i`th block, given the heads its tables are written under, the names of those
/// and of what is below them, each head's key order and kept names, the configured order and the
/// nested prefixes.
pub open spec fn block_key(
    hs: Seq<Seq<Seq<char>>>,
    bases: Seq<Seq<char>>,
    leaves: Seq<Seq<char>>,
    key_orders: Seq<Option<Seq<Seq<char>>>>,
    kept: Seq<Seq<Seq<char>>>,
    order: Seq<Seq<char>>,
    nested: Seq<Seq<char>>,
    i: int,
) -> BlockKeyView {
    BlockKeyView {
        placed: placed_of(order, nested, hs[i], bases[i]),
        group: group_of(hs, i),
        below: if leaves[i].len() > 0 {
            1
        } else {
            0
        },
        within: match key_orders[i] {
            Some(names) => rank_from(leaves[i], names, 0),
            None => 0,
        },
        last: lowercase(kept_part(leaves[i], kept[i], 0)),
    }
}

/// What each string holds.
pub open spec fn texts(v: Seq<String>) -> Seq<Seq<char>> {
    v.map_values(|s: String| s@)
}

/// What each key order holds.
pub open spec fn orders(v: Seq<Option<Vec<String>>>) -> Seq<Option<Seq<Seq<char>>>> {
    v.map_values(
        |o: Option<Vec<String>>|
            match o {
                Some(n) => Some(texts(n@)),
                None => None,
            },
    )
}

fn same_path(a: &Vec<String>, b: &Vec<String>) -> (r: bool)
    ensures
        r == (texts(a@) == texts(b@)),
{
    if a.len() != b.len() {
        assert(texts(a@).len() != texts(b@).len());
        return false;
    }
    let mut j: usize = 0;
    while j < a.len()
        invariant
            j <= a.len() == b.len(),
            forall|x: int| 0 <= x < j ==> #[trigger] texts(a@)[x] == texts(b@)[x],
        decreases a.len() - j,
    {
        assert(texts(a@)[j as int] == a@[j as int]@ && texts(b@)[j as int] == b@[j as int]@);
        if !same(&chars_of(a[j].as_str()), &chars_of(b[j].as_str())) {
            return false;
        }
        j += 1;
    }
    assert(texts(a@) =~= texts(b@));
    true
}

fn same_text(a: &str, b: &str) -> (r: bool)
    ensures
        r == (a@ == b@),
{
    same(&chars_of(a), &chars_of(b))
}

fn first_head(heads: &Vec<Vec<String>>, i: usize) -> (r: usize)
    requires
        i < heads.len(),
    ensures
        r == first_of(paths(heads@), paths(heads@)[i as int], 0),
{
    let ghost hs = paths(heads@);
    let mut j: usize = 0;
    while j < heads.len()
        invariant
            j <= heads.len(),
            i < heads.len(),
            hs == paths(heads@),
            first_of(hs, hs[i as int], 0) == first_of(hs, hs[i as int], j as int),
        decreases heads.len() - j,
    {
        assert(hs[j as int] == texts(heads@[j as int]@) && hs[i as int] == texts(heads@[i as int]@));
        if same_path(&heads[j], &heads[i]) {
            return j;
        }
        j += 1;
    }
    j
}

fn placed_in(order: &[&str], nested: &[&str], head: &Vec<String>, base: &str) -> (r: usize)
    requires
        head.len() > 0,
        order.len() < usize::MAX,
    ensures
        r == placed_of(
            order@.map_values(|o: &str| o@),
            nested@.map_values(|o: &str| o@),
            texts(head@),
            base@,
        ),
{
    let ghost ov = order@.map_values(|o: &str| o@);
    let ghost nv = nested@.map_values(|o: &str| o@);
    let mut k: usize = 0;
    while k < order.len()
        invariant
            k <= order.len() < usize::MAX,
            ov == order@.map_values(|o: &str| o@),
            first_of(ov, base@, 0) == first_of(ov, base@, k as int),
        decreases order.len() - k,
    {
        assert(ov[k as int] == order@[k as int]@);
        if same_text(order[k], base) {
            return k;
        }
        k += 1;
    }
    let first = head[0].as_str();
    assert(texts(head@)[0] == first@);
    let mut n: usize = 0;
    while n < nested.len()
        invariant
            n <= nested.len(),
            nv == nested@.map_values(|o: &str| o@),
            ov == order@.map_values(|o: &str| o@),
            k == order.len() < usize::MAX,
            first_of(ov, base@, 0) == ov.len(),
            texts(head@)[0] == first@,
            forall|x: int| 0 <= x < n ==> #[trigger] nv[x] != first@,
        decreases nested.len() - n,
    {
        assert(nv[n as int] == nested@[n as int]@);
        if same_text(nested[n], first) {
            assert(nv.contains(first@));
            return k;
        }
        n += 1;
    }
    assert(!nv.contains(first@));
    k + 1
}

fn within_of(leaf: &str, names: &Option<Vec<String>>) -> (r: usize)
    ensures
        r == match names {
            Some(n) => rank_from(leaf@, texts(n@), 0),
            None => 0,
        },
{
    match names {
        Some(n) => {
            let mut refs: Vec<&str> = Vec::new();
            let mut k: usize = 0;
            while k < n.len()
                invariant
                    k <= n.len(),
                    refs@.len() == k,
                    forall|x: int| 0 <= x < k ==> #[trigger] refs@[x]@ == n@[x]@,
                decreases n.len() - k,
            {
                refs.push(n[k].as_str());
                k += 1;
            }
            assert(refs@.map_values(|o: &str| o@) =~= texts(n@));
            rank(leaf, refs.as_slice())
        },
        None => 0,
    }
}

fn last_of(leaf: &str, kept: &Vec<String>) -> (r: String)
    ensures
        r@ == lowercase(kept_part(leaf@, texts(kept@), 0)),
{
    let l = chars_of(leaf);
    let ghost kv = texts(kept@);
    let mut k: usize = 0;
    while k < kept.len()
        invariant
            k <= kept.len(),
            kv == texts(kept@),
            l@ == leaf@,
            kept_part(leaf@, kv, 0) == kept_part(leaf@, kv, k as int),
        decreases kept.len() - k,
    {
        assert(kv[k as int] == kept@[k as int]@);
        match run_end_in(&l, &chars_of(kept[k].as_str())) {
            Some(e) => {
                let part = slice(&l, 0, e);
                assert(part@ =~= leaf@.take(e as int));
                return lowercase_of(string_of(&part).as_str());
            },
            None => {},
        }
        k += 1;
    }
    lowercase_of(leaf)
}

/// The key of each block of a document, in the order the blocks were written.
///
/// `segments` holds the header segments of the first table of each block; `bases` and `leaves`
/// the dotted names of the table each is written under and of the rest of its header;
/// `key_orders` and `kept` what the caller's key order and kept names give each head; `order` the
/// configured order of tables and `nested_prefixes` the names whose tables group one level deeper.
pub fn block_keys(
    segments: &[Vec<String>],
    bases: &[String],
    leaves: &[String],
    key_orders: &[Option<Vec<String>>],
    kept: &[Vec<String>],
    order: &[&str],
    nested_prefixes: &[&str],
) -> (r: Vec<BlockKey>)
    requires
        bases.len() == segments.len(),
        leaves.len() == segments.len(),
        key_orders.len() == segments.len(),
        kept.len() == segments.len(),
        forall|i: int| 0 <= i < segments.len() ==> (#[trigger] segments[i]).len() > 0,
        order.len() < usize::MAX,
    ensures
        r.len() == segments.len(),
        forall|i: int|
            0 <= i < segments.len() ==> #[trigger] r[i]@ == block_key(
                paths(segments@).map_values(
                    |p: Seq<Seq<char>>| base_of(p, nested_prefixes@.map_values(|o: &str| o@)),
                ),
                texts(bases@),
                texts(leaves@),
                orders(key_orders@),
                paths(kept@),
                order@.map_values(|o: &str| o@),
                nested_prefixes@.map_values(|o: &str| o@),
                i,
            ),
{
    let ghost nv = nested_prefixes@.map_values(|o: &str| o@);
    let ghost hs = paths(segments@).map_values(|p: Seq<Seq<char>>| base_of(p, nv));
    let n = segments.len();
    // the table each block is written under
    let mut heads: Vec<Vec<String>> = Vec::new();
    let mut i: usize = 0;
    while i < n
        invariant
            i <= n == segments.len(),
            nv == nested_prefixes@.map_values(|o: &str| o@),
            hs == paths(segments@).map_values(|p: Seq<Seq<char>>| base_of(p, nv)),
            heads@.len() == i,
            forall|x: int| 0 <= x < i ==> #[trigger] paths(heads@)[x] == hs[x],
        decreases n - i,
    {
        let h = base_segments(segments[i].as_slice(), nested_prefixes);
        assert(paths(segments@)[i as int] == segments@[i as int]@.map_values(|s: String| s@));
        let ghost before = heads@;
        heads.push(h);
        assert forall|x: int| 0 <= x < i + 1 implies #[trigger] paths(heads@)[x] == hs[x] by {
            if x < i {
                assert(paths(heads@)[x] == paths(before)[x]);
            }
        }
        i += 1;
    }
    assert(paths(heads@) =~= hs);
    // where each head is first written, and how many heads are first written before each block
    let mut firsts: Vec<usize> = Vec::new();
    let mut counts: Vec<usize> = Vec::new();
    counts.push(0);
    let mut i: usize = 0;
    while i < n
        invariant
            i <= n == heads.len() == segments.len(),
            hs == paths(heads@),
            firsts@.len() == i,
            counts@.len() == i + 1,
            forall|x: int| 0 <= x < i ==> #[trigger] firsts@[x] == first_of(hs, hs[x], 0),
            forall|x: int| 0 <= x <= i ==> #[trigger] counts@[x] == new_heads(hs, x),
            forall|x: int| 0 <= x <= i ==> #[trigger] counts@[x] <= x,
        decreases n - i,
    {
        let f = first_head(&heads, i);
        firsts.push(f);
        let c = counts[i];
        let next = if f == i {
            c + 1
        } else {
            c
        };
        counts.push(next);
        i += 1;
    }
    let mut r: Vec<BlockKey> = Vec::new();
    let mut i: usize = 0;
    while i < n
        invariant
            i <= n == heads.len() == segments.len() == bases.len() == leaves.len() == key_orders.len()
                == kept.len(),
            order.len() < usize::MAX,
            nv == nested_prefixes@.map_values(|o: &str| o@),
            hs == paths(heads@),
            hs == paths(segments@).map_values(|p: Seq<Seq<char>>| base_of(p, nv)),
            forall|x: int| 0 <= x < segments.len() ==> (#[trigger] segments[x]).len() > 0,
            firsts@.len() == n,
            counts@.len() == n + 1,
            forall|x: int| 0 <= x < n ==> #[trigger] firsts@[x] == first_of(hs, hs[x], 0),
            forall|x: int| 0 <= x <= n ==> #[trigger] counts@[x] == new_heads(hs, x),
            r@.len() == i,
            forall|x: int|
                0 <= x < i ==> #[trigger] r@[x]@ == block_key(
                    hs,
                    texts(bases@),
                    texts(leaves@),
                    orders(key_orders@),
                    paths(kept@),
                    order@.map_values(|o: &str| o@),
                    nv,
                    x,
                ),
        decreases n - i,
    {
        proof {
            lemma_first_of(hs, hs[i as int], 0);
            assert(hs[i as int] == base_of(paths(segments@)[i as int], nv));
            assert(paths(segments@)[i as int].len() == segments[i as int].len());
        }
        assert(hs[i as int] == texts(heads@[i as int]@));
        let placed = placed_in(order, nested_prefixes, &heads[i], bases[i].as_str());
        let group = counts[firsts[i]];
        let below = if chars_of(leaves[i].as_str()).len() > 0 {
            1
        } else {
            0
        };
        let within = within_of(leaves[i].as_str(), &key_orders[i]);
        let last = last_of(leaves[i].as_str(), &kept[i]);
        let key = BlockKey { placed, group, below, within, last };
        proof {
            assert(texts(bases@)[i as int] == bases@[i as int]@);
            assert(texts(leaves@)[i as int] == leaves@[i as int]@);
            assert(paths(kept@)[i as int] == texts(kept@[i as int]@));
            assert(orders(key_orders@)[i as int] == match key_orders@[i as int] {
                Some(k) => Some(texts(k@)),
                None => None,
            });
        }
        r.push(key);
        i += 1;
    }
    r
}

} // verus!
