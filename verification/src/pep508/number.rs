//! A number a version writes, held as the digits the file wrote rather than as a machine integer:
//! PEP 440 puts no limit on how many of them a release names.

use vstd::prelude::*;
use std::cmp::Ordering;
use vstd::arithmetic::power::*;
use crate::text::{chars_of, is_ascii_digit, is_digit, slice, string_of};

verus! {

broadcast use vstd::arithmetic::power::lemma_pow0, vstd::arithmetic::power::lemma_pow1;

/// Whether every character is a decimal digit.
pub open spec fn all_digits(s: Seq<char>) -> bool {
    forall|i: int| 0 <= i < s.len() ==> is_digit(#[trigger] s[i])
}

/// Digits as PEP 440 counts them: at least one, and no leading zero but the one that is zero.
pub open spec fn canonical(s: Seq<char>) -> bool {
    &&& s.len() > 0
    &&& all_digits(s)
    &&& (s.len() == 1 || s[0] != '0')
}

/// What one digit is worth.
pub open spec fn digit_value(c: char) -> nat {
    ((c as u32) - ('0' as u32)) as nat
}

/// The number the digits spell.
pub open spec fn value(s: Seq<char>) -> nat
    decreases s.len(),
{
    if s.len() == 0 {
        0
    } else {
        value(s.drop_last()) * 10 + digit_value(s.last())
    }
}

/// Where the run of zeros that starts at `i` ends.
pub open spec fn zeros_end(s: Seq<char>, i: int) -> int
    decreases s.len() - i,
{
    if 0 <= i < s.len() && s[i] == '0' {
        zeros_end(s, i + 1)
    } else {
        i
    }
}

/// The digits with the leading zeros PEP 440 does not count dropped, and zero where nothing else
/// is left.
pub open spec fn read_digits(s: Seq<char>) -> Seq<char> {
    let z = zeros_end(s, 0);
    if z >= s.len() {
        seq!['0']
    } else {
        s.skip(z)
    }
}

pub proof fn lemma_zeros_end(s: Seq<char>, i: int)
    requires
        0 <= i <= s.len(),
    ensures
        i <= zeros_end(s, i) <= s.len(),
        forall|k: int| i <= k < zeros_end(s, i) ==> #[trigger] s[k] == '0',
        zeros_end(s, i) < s.len() ==> s[zeros_end(s, i)] != '0',
    decreases s.len() - i,
{
    if i < s.len() && s[i] == '0' {
        lemma_zeros_end(s, i + 1);
    }
}

/// The digits written one after the other are worth the first scaled past the second.
pub proof fn lemma_value_concat(a: Seq<char>, b: Seq<char>)
    ensures
        value(a + b) == value(a) * pow(10, b.len()) + value(b),
    decreases b.len(),
{
    if b.len() == 0 {
        assert(a + b =~= a);
    } else {
        lemma_value_concat(a, b.drop_last());
        assert((a + b).drop_last() =~= a + b.drop_last());
        assert((a + b).last() == b.last());
        let p = pow(10, (b.len() - 1) as nat);
        assert(pow(10, b.len()) == 10 * p) by {
            vstd::arithmetic::power::lemma_pow_adds(10, 1, (b.len() - 1) as nat);
        }
        assert((value(a) * p + value(b.drop_last())) * 10 + digit_value(b.last()) == value(a) * (10
            * p) + (value(b.drop_last()) * 10 + digit_value(b.last()))) by (nonlinear_arith);
    }
}

/// Leading zeros are worth nothing.
pub proof fn lemma_value_zeros(s: Seq<char>)
    requires
        forall|k: int| 0 <= k < s.len() ==> #[trigger] s[k] == '0',
    ensures
        value(s) == 0,
    decreases s.len(),
{
    if s.len() > 0 {
        lemma_value_zeros(s.drop_last());
    }
}

/// A run of nines is one short of the next power of ten.
pub proof fn lemma_value_nines(s: Seq<char>)
    requires
        forall|k: int| 0 <= k < s.len() ==> #[trigger] s[k] == '9',
    ensures
        value(s) + 1 == pow(10, s.len()),
    decreases s.len(),
{
    if s.len() > 0 {
        lemma_value_nines(s.drop_last());
        vstd::arithmetic::power::lemma_pow_adds(10, 1, (s.len() - 1) as nat);
    }
}

/// Dropping the leading zeros leaves what the digits are worth, written the way PEP 440 counts.
pub proof fn lemma_read_digits(s: Seq<char>)
    requires
        all_digits(s),
    ensures
        canonical(read_digits(s)),
        value(read_digits(s)) == value(s),
{
    lemma_zeros_end(s, 0);
    let z = zeros_end(s, 0);
    assert(s =~= s.take(z) + s.skip(z));
    lemma_value_concat(s.take(z), s.skip(z));
    lemma_value_zeros(s.take(z));
    if z >= s.len() {
        lemma_value_single('0');
        assert(s.skip(z) =~= Seq::<char>::empty());
        assert(value(s.skip(z)) == 0);
        assert(value(s) == 0);
    } else {
        assert(value(s) == 0 * pow(10, s.skip(z).len()) + value(s.skip(z)));
    }
}

/// A canonical number is the same digits as reading it back.
pub proof fn lemma_read_canonical(s: Seq<char>)
    requires
        canonical(s),
    ensures
        read_digits(s) == s,
{
    lemma_zeros_end(s, 0);
    if s[0] == '0' {
        assert(zeros_end(s, 0) == 1) by {
            assert(zeros_end(s, 1) == 1);
        }
    } else {
        assert(zeros_end(s, 0) == 0);
        assert(s.skip(0) =~= s);
    }
}

/// A number a version writes, held as the digits the file wrote rather than as a machine integer.
#[derive(Debug, Hash)]
pub struct Number(String);

impl View for Number {
    type V = Seq<char>;

    closed spec fn view(&self) -> Seq<char> {
        self.0@
    }
}

impl Number {
    #[verifier::type_invariant]
    spec fn well_formed(self) -> bool {
        canonical(self.0@)
    }

    fn of(digits: Vec<char>) -> (r: Self)
        requires
            canonical(digits@),
        ensures
            r@ == digits@,
    {
        Number(string_of(&digits))
    }

    /// Read the digits, with the leading zeros PEP 440 does not count dropped.
    pub fn read(digits: &str) -> (r: Self)
        requires
            all_digits(digits@),
        ensures
            r@ == read_digits(digits@),
    {
        let s = chars_of(digits);
        Self::read_chars(&s)
    }

    pub(crate) fn read_chars(s: &Vec<char>) -> (r: Self)
        requires
            all_digits(s@),
        ensures
            r@ == read_digits(s@),
    {
        proof {
            lemma_read_digits(s@);
            lemma_zeros_end(s@, 0);
        }
        let mut z: usize = 0;
        while z < s.len() && s[z] == '0'
            invariant
                z <= s.len(),
                zeros_end(s@, 0) == zeros_end(s@, z as int),
            decreases s.len() - z,
        {
            z += 1;
        }
        if z == s.len() {
            Self::zero()
        } else {
            Self::of(slice(s, z, s.len()))
        }
    }

    /// The number as the digits it is written in.
    pub fn digits(&self) -> (r: Vec<char>)
        ensures
            r@ == self@,
            canonical(r@),
    {
        proof {
            use_type_invariant(self);
        }
        chars_of(self.0.as_str())
    }

    /// The same number, held again.
    pub fn copied(&self) -> (r: Self)
        ensures
            r@ == self@,
    {
        proof {
            use_type_invariant(self);
        }
        Self::of(self.digits())
    }

    /// The value as a machine integer, saturating where it names more than one can hold.
    pub fn saturating(&self) -> (r: u64)
        ensures
            r == if value(self@) <= u64::MAX { value(self@) } else { u64::MAX as nat },
    {
        proof {
            use_type_invariant(self);
        }
        let s = self.digits();
        let mut acc: u64 = 0;
        let mut i: usize = 0;
        while i < s.len()
            invariant
                i <= s.len(),
                all_digits(s@),
                s@ == self@,
                acc == value(s@.take(i as int)),
            decreases s.len() - i,
        {
            let d: u64 = (s[i] as u32 - '0' as u32) as u64;
            assert(s@.take(i + 1).drop_last() =~= s@.take(i as int));
            if acc > (u64::MAX - d) / 10 {
                proof {
                    assert(s@.take(i + 1).last() == s@[i as int]);
                    assert(value(s@.take(i + 1)) == acc * 10 + d);
                    assert(acc * 10 + d > u64::MAX) by (nonlinear_arith)
                        requires
                            acc > (u64::MAX - d) / 10,
                            d <= 9,
                    ;
                    lemma_value_grows(s@, i + 1);
                }
                return u64::MAX;
            }
            acc = acc * 10 + d;
            i += 1;
        }
        assert(s@.take(i as int) =~= s@);
        acc
    }

    /// Whether the number is zero, which is what a trailing `.0` says.
    pub fn is_zero(&self) -> (r: bool)
        ensures
            r == (self@ == seq!['0']),
            r == (value(self@) == 0),
    {
        proof {
            use_type_invariant(self);
            lemma_value_positive(self@);
        }
        let s = self.digits();
        let r = s.len() == 1 && s[0] == '0';
        assert(r ==> s@ =~= seq!['0']);
        r
    }

    /// Zero, which is what a release leaves unwritten.
    pub fn zero() -> (r: Self)
        ensures
            r@ == seq!['0'],
    {
        let mut v: Vec<char> = Vec::new();
        v.push('0');
        assert(v@ =~= seq!['0']);
        Self::of(v)
    }

    /// The number the file wrote, where what it wrote is digits counted the way PEP 440 counts
    /// them: a leading zero names no number of its own.
    pub fn written(digits: &str) -> (r: Option<Self>)
        ensures
            r is Some <==> canonical(digits@),
            r matches Some(n) ==> n@ == digits@,
    {
        let s = chars_of(digits);
        if s.len() == 0 {
            return None;
        }
        let mut i: usize = 0;
        while i < s.len()
            invariant
                i <= s.len(),
                forall|k: int| 0 <= k < i ==> is_digit(#[trigger] s@[k]),
                s@ == digits@,
            decreases s.len() - i,
        {
            if !is_ascii_digit(s[i]) {
                assert(!all_digits(s@)) by {
                    assert(!is_digit(s@[i as int]));
                }
                return None;
            }
            i += 1;
        }
        if s.len() > 1 && s[0] == '0' {
            return None;
        }
        Some(Self::of(s))
    }

    /// The next number up.
    #[verifier::loop_isolation(false)]
    pub fn succ(&self) -> (r: Self)
        ensures
            value(r@) == value(self@) + 1,
    {
        proof {
            use_type_invariant(self);
        }
        let s = self.digits();
        let n = s.len();
        // the digits past the last one that is not a nine turn to zeros, and that one goes up by one
        let mut k = n;
        while k > 0 && s[k - 1] == '9'
            invariant
                k <= n == s.len(),
                forall|j: int| k <= j < n ==> #[trigger] s@[j] == '9',
            decreases k,
        {
            k -= 1;
        }
        let mut out: Vec<char> = Vec::new();
        if k == 0 {
            out.push('1');
        } else {
            out = slice(&s, 0, k - 1);
            let d = s[k - 1];
            assert(d != '9' && is_digit(d));
            let up: u8 = (d as u32 + 1) as u8;
            let c = up as char;
            assert(c as u32 == d as u32 + 1);
            assert(digit_value(c) == digit_value(d) + 1);
            out.push(c);
        }
        let ghost head = out@;
        let mut j = k;
        while j < n
            invariant
                k <= j <= n,
                out@ == head + Seq::new((j - k) as nat, |x: int| '0'),
            decreases n - j,
        {
            out.push('0');
            j += 1;
            assert(out@ =~= head + Seq::new((j - k) as nat, |x: int| '0'));
        }
        proof {
            let zs = Seq::new((n - k) as nat, |x: int| '0');
            let nines = s@.skip(k as int);
            lemma_value_concat(head, zs);
            lemma_value_zeros(zs);
            lemma_value_nines(nines);
            assert(s@ =~= s@.take(k as int) + nines);
            lemma_value_concat(s@.take(k as int), nines);
            let p = pow(10, (n - k) as nat);
            if k == 0 {
                assert(s@.take(0) =~= Seq::<char>::empty());
                lemma_value_single('1');
                assert(head =~= seq!['1']);
                assert(value(s@) + 1 == p);
                assert(1 * p == p);
            } else {
                let pre = s@.take(k - 1);
                assert(s@.take(k as int).drop_last() =~= pre);
                assert(head.drop_last() =~= pre);
                let v = value(pre);
                let d = digit_value(s@[k - 1]);
                assert(value(head) == v * 10 + d + 1);
                assert(value(s@) == (v * 10 + d) * p + (p - 1));
                assert((v * 10 + d + 1) * p == (v * 10 + d) * p + p) by (nonlinear_arith);
            }
            assert(value(out@) == value(head) * p);
            assert(value(out@) == value(s@) + 1);
            let r = out@;
            assert(all_digits(r));
            if k != 0 && k - 1 == 0 {
                assert(r[0] != '0');
            } else if k != 0 {
                assert(r[0] == s@[0]);
            }
            assert(canonical(r));
        }
        Self::of(out)
    }

    /// The next number down, or `None` where there is none below it.
    #[verifier::loop_isolation(false)]
    pub fn pred(&self) -> (r: Option<Self>)
        ensures
            r is None <==> value(self@) == 0,
            r matches Some(m) ==> value(m@) + 1 == value(self@),
    {
        proof {
            use_type_invariant(self);
            lemma_value_positive(self@);
        }
        if self.is_zero() {
            return None;
        }
        let s = self.digits();
        let n = s.len();
        // the digits past the last one that is not a zero turn to nines, and that one goes down by one
        let mut k = n;
        while k > 0 && s[k - 1] == '0'
            invariant
                k <= n == s.len(),
                forall|j: int| k <= j < n ==> #[trigger] s@[j] == '0',
            decreases k,
        {
            k -= 1;
        }
        assert(k > 0) by {
            if k == 0 {
                assert(s@[0] == '0');
                assert(s@.len() == 1);
                assert(s@ =~= seq!['0']);
            }
        }
        let mut out = slice(&s, 0, k - 1);
        let d = s[k - 1];
        let down: u8 = (d as u32 - 1) as u8;
        out.push(down as char);
        let ghost head = out@;
        let mut j = k;
        while j < n
            invariant
                k <= j <= n,
                out@ == head + Seq::new((j - k) as nat, |x: int| '9'),
            decreases n - j,
        {
            out.push('9');
            j += 1;
            assert(out@ =~= head + Seq::new((j - k) as nat, |x: int| '9'));
        }
        proof {
            let ns = Seq::new((n - k) as nat, |x: int| '9');
            let zs = s@.skip(k as int);
            lemma_value_concat(head, ns);
            lemma_value_nines(ns);
            lemma_value_zeros(zs);
            assert(s@ =~= s@.take(k as int) + zs);
            lemma_value_concat(s@.take(k as int), zs);
            let p = pow(10, (n - k) as nat);
            let pre = s@.take(k - 1);
            assert(s@.take(k as int).drop_last() =~= pre);
            assert(head.drop_last() =~= pre);
            let v = value(pre);
            let dv = digit_value(s@[k - 1]);
            assert(value(head) == v * 10 + dv - 1);
            assert(value(s@) == (v * 10 + dv) * p);
            assert((v * 10 + dv - 1) * p + (p - 1) == (v * 10 + dv) * p - 1) by (nonlinear_arith);
            assert(all_digits(out@));
            lemma_read_digits(out@);
        }
        Some(Self::read_chars(&out))
    }
}

/// One digit is worth what it spells.
pub proof fn lemma_value_single(c: char)
    ensures
        value(seq![c]) == digit_value(c),
{
    let e = seq![c].drop_last();
    assert(e =~= Seq::<char>::empty());
    assert(value(e) == 0);
    assert(seq![c].last() == c);
    assert(value(seq![c]) == value(e) * 10 + digit_value(c));
}

/// A number past its first digits is worth at least what those spell.
pub proof fn lemma_value_grows(s: Seq<char>, i: int)
    requires
        0 <= i <= s.len(),
    ensures
        value(s) >= value(s.take(i)),
    decreases s.len() - i,
{
    if i < s.len() {
        lemma_value_grows(s, i + 1);
        assert(s.take(i + 1).drop_last() =~= s.take(i));
    } else {
        assert(s.take(i) =~= s);
    }
}

/// A canonical number is zero only where it is written `0`.
pub proof fn lemma_value_positive(s: Seq<char>)
    requires
        canonical(s),
    ensures
        (value(s) == 0) <==> (s == seq!['0']),
{
    if s == seq!['0'] {
        lemma_value_single('0');
    } else {
        if s.len() == 1 {
            assert(s =~= seq![s[0]]);
            lemma_value_single(s[0]);
        } else {
            lemma_value_grows(s, 1);
            assert(s.take(1) =~= seq![s[0]]);
            lemma_value_single(s[0]);
        }
        assert(is_digit(s[0]));
    }
}


/// Where two texts first differ, from `i` on, or the shorter length where they never do.
pub open spec fn first_diff(a: Seq<char>, b: Seq<char>, i: int) -> int
    decreases a.len() - i,
{
    if i < 0 || i >= a.len() || i >= b.len() {
        i
    } else if a[i] != b[i] {
        i
    } else {
        first_diff(a, b, i + 1)
    }
}

pub proof fn lemma_first_diff(a: Seq<char>, b: Seq<char>, i: int)
    requires
        0 <= i <= a.len(),
        a.len() == b.len(),
    ensures
        i <= first_diff(a, b, i) <= a.len(),
        forall|k: int| i <= k < first_diff(a, b, i) ==> #[trigger] a[k] == b[k],
        first_diff(a, b, i) < a.len() ==> a[first_diff(a, b, i)] != b[first_diff(a, b, i)],
    decreases a.len() - i,
{
    if i < a.len() && a[i] == b[i] {
        lemma_first_diff(a, b, i + 1);
    }
}

/// How two numbers compare by their digits: more digits name a larger number, and the same count
/// of them compares digit by digit.
pub open spec fn digits_order(a: Seq<char>, b: Seq<char>) -> Ordering {
    if a.len() < b.len() {
        Ordering::Less
    } else if a.len() > b.len() {
        Ordering::Greater
    } else {
        let k = first_diff(a, b, 0);
        if k >= a.len() {
            Ordering::Equal
        } else if a[k] < b[k] {
            Ordering::Less
        } else {
            Ordering::Greater
        }
    }
}

/// Digits are worth less than the power of ten their count names.
pub proof fn lemma_value_below(s: Seq<char>)
    requires
        all_digits(s),
    ensures
        value(s) < pow(10, s.len()),
    decreases s.len(),
{
    if s.len() > 0 {
        lemma_value_below(s.drop_last());
        vstd::arithmetic::power::lemma_pow_adds(10, 1, (s.len() - 1) as nat);
        let p = pow(10, (s.len() - 1) as nat);
        let v = value(s.drop_last());
        let d = digit_value(s.last());
        assert(is_digit(s[s.len() - 1]));
        assert(v * 10 + d < 10 * p) by (nonlinear_arith)
            requires
                v < p,
                d <= 9,
        ;
    }
}

/// Digits opening with one that is not zero are worth at least the power of ten below their count.
pub proof fn lemma_value_above(s: Seq<char>)
    requires
        all_digits(s),
        s.len() > 0,
        s[0] != '0',
    ensures
        value(s) >= pow(10, (s.len() - 1) as nat),
{
    let head = s.take(1);
    let rest = s.skip(1);
    assert(s =~= head + rest);
    lemma_value_concat(head, rest);
    assert(head =~= seq![s[0]]);
    lemma_value_single(s[0]);
    assert(is_digit(s[0]));
    let p = pow(10, rest.len());
    vstd::arithmetic::power::lemma_pow_positive(10, rest.len());
    assert(value(head) * p >= p) by (nonlinear_arith)
        requires
            value(head) >= 1,
            p > 0,
    ;
}

/// Numbers written the way PEP 440 counts them compare by their digits the way they compare by
/// what they are worth: the order of [`Number`] is the order of the numbers it holds.
pub proof fn lemma_order_is_value(a: Seq<char>, b: Seq<char>)
    requires
        canonical(a),
        canonical(b),
    ensures
        (digits_order(a, b) == Ordering::Less) <==> value(a) < value(b),
        (digits_order(a, b) == Ordering::Equal) <==> value(a) == value(b),
        (digits_order(a, b) == Ordering::Greater) <==> value(a) > value(b),
{
    if a.len() != b.len() {
        if a.len() < b.len() {
            lemma_order_by_length(a, b);
        } else {
            lemma_order_by_length(b, a);
        }
    } else {
        lemma_first_diff(a, b, 0);
        let k = first_diff(a, b, 0);
        if k >= a.len() {
            assert(a =~= b);
        } else {
            if a[k] < b[k] {
                lemma_order_at_difference(a, b, k);
            } else {
                assert forall|j: int| 0 <= j < k implies #[trigger] b[j] == a[j] by {
                    assert(a[j] == b[j]);
                }
                lemma_order_at_difference(b, a, k);
            }
        }
    }
}

proof fn lemma_order_by_length(a: Seq<char>, b: Seq<char>)
    requires
        canonical(a),
        canonical(b),
        a.len() < b.len(),
    ensures
        value(a) < value(b),
{
    lemma_value_below(a);
    lemma_value_above(b);
    vstd::arithmetic::power::lemma_pow_increases(10, a.len(), (b.len() - 1) as nat);
}

proof fn lemma_order_at_difference(a: Seq<char>, b: Seq<char>, k: int)
    requires
        all_digits(a),
        all_digits(b),
        a.len() == b.len(),
        0 <= k < a.len(),
        forall|j: int| 0 <= j < k ==> #[trigger] a[j] == b[j],
        a[k] < b[k],
    ensures
        value(a) < value(b),
{
    let pa = a.take(k + 1);
    let pb = b.take(k + 1);
    let ra = a.skip(k + 1);
    let rb = b.skip(k + 1);
    assert(a =~= pa + ra);
    assert(b =~= pb + rb);
    lemma_value_concat(pa, ra);
    lemma_value_concat(pb, rb);
    assert(pa.drop_last() =~= pb.drop_last());
    assert(all_digits(ra));
    lemma_value_below(ra);
    let p = pow(10, ra.len());
    let v = value(pa.drop_last());
    let x = digit_value(a[k]);
    let y = digit_value(b[k]);
    assert(pa.last() == a[k]);
    assert(pb.last() == b[k]);
    assert(x < y);
    assert((v * 10 + x) * p + value(ra) < (v * 10 + y) * p + value(rb)) by (nonlinear_arith)
        requires
            x < y,
            value(ra) < p,
            0 <= value(rb),
    ;
}

/// Where two texts of one length first differ.
fn diff_at(a: &Vec<char>, b: &Vec<char>) -> (r: usize)
    requires
        a.len() == b.len(),
    ensures
        r == first_diff(a@, b@, 0),
        r <= a.len(),
{
    proof {
        lemma_first_diff(a@, b@, 0);
    }
    let mut i: usize = 0;
    while i < a.len() && a[i] == b[i]
        invariant
            i <= a.len() == b.len(),
            first_diff(a@, b@, 0) == first_diff(a@, b@, i as int),
        decreases a.len() - i,
    {
        i += 1;
    }
    i
}

impl Clone for Number {
    fn clone(&self) -> (r: Self)
        ensures
            r@ == self@,
    {
        self.copied()
    }
}

impl PartialEq for Number {
    fn eq(&self, other: &Self) -> (r: bool) {
        self.0 == other.0
    }
}

impl vstd::std_specs::cmp::PartialEqSpecImpl for Number {
    open spec fn obeys_eq_spec() -> bool {
        true
    }

    open spec fn eq_spec(&self, other: &Self) -> bool {
        self@ == other@
    }
}

impl Eq for Number {
}

impl PartialOrd for Number {
    /// Longer digits name a larger number, and the same count of them compares digit by digit.
    fn partial_cmp(&self, other: &Self) -> (r: Option<Ordering>) {
        let a = self.digits();
        let b = other.digits();
        if a.len() < b.len() {
            return Some(Ordering::Less);
        }
        if a.len() > b.len() {
            return Some(Ordering::Greater);
        }
        let i = diff_at(&a, &b);
        if i == a.len() {
            Some(Ordering::Equal)
        } else if a[i] < b[i] {
            Some(Ordering::Less)
        } else {
            Some(Ordering::Greater)
        }
    }
}

impl vstd::std_specs::cmp::PartialOrdSpecImpl for Number {
    open spec fn obeys_partial_cmp_spec() -> bool {
        true
    }

    open spec fn partial_cmp_spec(&self, other: &Self) -> Option<Ordering> {
        Some(digits_order(self@, other@))
    }
}


/// A number has one canonical spelling: two canonical digit strings worth the same are the same
/// digits. So `pred` of what `succ` gives back is the number it started from.
pub proof fn lemma_one_spelling(a: Seq<char>, b: Seq<char>)
    requires
        canonical(a),
        canonical(b),
        value(a) == value(b),
    ensures
        a == b,
{
    lemma_order_is_value(a, b);
    lemma_first_diff(a, b, 0);
    assert(a =~= b);
}

} // verus!
