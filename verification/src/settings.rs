//! The settings a document holds for the formatter, in the forms a setting is written in, and how
//! a whole number among them is read.

use vstd::prelude::*;
use crate::text::chars_of;

verus! {

/// A value a settings table holds, in the forms a setting is written in.
#[derive(Debug, PartialEq, Eq)]
pub enum Setting {
    Text(String),
    Whole(i64),
    Truth(bool),
    List(Vec<Setting>),
    /// A table, which no setting is, kept so the caller can name the key that holds one.
    Table,
}

/// A copy of the setting.
fn copy_setting(x: &Setting) -> (r: Setting)
    decreases x,
{
    match x {
        Setting::Text(t) => Setting::Text(t.clone()),
        Setting::Whole(n) => Setting::Whole(*n),
        Setting::Truth(b) => Setting::Truth(*b),
        Setting::List(items) => {
            let mut out: Vec<Setting> = Vec::new();
            let mut i: usize = 0;
            while i < items.len()
                invariant
                    i <= items.len(),
                    x matches Setting::List(w) && w == *items,
                decreases items.len() - i,
            {
                assert(decreases_to!(*x => items@[i as int]));
                out.push(copy_setting(&items[i]));
                i += 1;
            }
            Setting::List(out)
        },
        Setting::Table => Setting::Table,
    }
}

impl Clone for Setting {
    fn clone(&self) -> (r: Self) {
        copy_setting(self)
    }
}

/// The text without its underscores, which TOML writes between digits.
pub open spec fn without_underscores(s: Seq<char>) -> Seq<char>
    decreases s.len(),
{
    if s.len() == 0 {
        s
    } else {
        let rest = without_underscores(s.drop_last());
        if s.last() == '_' {
            rest
        } else {
            rest.push(s.last())
        }
    }
}

/// The value of the character as a digit of the radix, as `char::to_digit` reads it.
pub open spec fn digit_of(c: char, radix: nat) -> Option<nat> {
    let v: int = if '0' <= c && c <= '9' {
        c as int - '0' as int
    } else if 'a' <= c && c <= 'z' {
        c as int - 'a' as int + 10
    } else if 'A' <= c && c <= 'Z' {
        c as int - 'A' as int + 10
    } else {
        -1
    };
    if 0 <= v < radix {
        Some(v as nat)
    } else {
        None
    }
}

/// The number the digits spell in the radix, where every character is one of its digits.
pub open spec fn digits_value(s: Seq<char>, radix: nat) -> Option<nat>
    decreases s.len(),
{
    if s.len() == 0 {
        Some(0)
    } else {
        match (digits_value(s.drop_last(), radix), digit_of(s.last(), radix)) {
            (Some(v), Some(d)) => Some(v * radix + d),
            _ => None,
        }
    }
}

/// What `i64::from_str_radix` reads: an optional sign, then one digit of the radix or more; the
/// number they spell, where it fits an `i64`.
pub open spec fn radix_value(s: Seq<char>, radix: nat) -> Option<int> {
    let neg = s.len() > 0 && s[0] == '-';
    let body = if s.len() > 0 && (s[0] == '-' || s[0] == '+') {
        s.skip(1)
    } else {
        s
    };
    if body.len() == 0 {
        None
    } else {
        match digits_value(body, radix) {
            Some(v) => {
                let signed = if neg {
                    -v
                } else {
                    v as int
                };
                if i64::MIN <= signed <= i64::MAX {
                    Some(signed)
                } else {
                    None
                }
            },
            None => None,
        }
    }
}

/// The whole number a setting writes: its underscores dropped, a sign, then `0x`, `0o` or `0b`
/// for a radix other than ten, read as `i64::from_str_radix` reads what follows and signed.
pub open spec fn whole_of(text: Seq<char>) -> Option<int> {
    let held = without_underscores(text);
    let neg = held.len() > 0 && held[0] == '-';
    let digits = if neg || (held.len() > 0 && held[0] == '+') {
        held.skip(1)
    } else {
        held
    };
    let (radix, rest) = if digits.len() >= 2 && digits[0] == '0' && digits[1] == 'x' {
        (16nat, digits.skip(2))
    } else if digits.len() >= 2 && digits[0] == '0' && digits[1] == 'o' {
        (8nat, digits.skip(2))
    } else if digits.len() >= 2 && digits[0] == '0' && digits[1] == 'b' {
        (2nat, digits.skip(2))
    } else {
        (10nat, digits)
    };
    match radix_value(rest, radix) {
        Some(v) => Some(
            if neg {
                -v
            } else {
                v
            },
        ),
        None => None,
    }
}

fn digit_value(c: char, radix: u32) -> (r: Option<u32>)
    requires
        radix <= 36,
    ensures
        match (r, digit_of(c, radix as nat)) {
            (Some(a), Some(b)) => a == b,
            (None, None) => true,
            _ => false,
        },
{
    let v: u32 = if '0' <= c && c <= '9' {
        c as u32 - '0' as u32
    } else if 'a' <= c && c <= 'z' {
        c as u32 - 'a' as u32 + 10
    } else if 'A' <= c && c <= 'Z' {
        c as u32 - 'A' as u32 + 10
    } else {
        return None;
    };
    if v < radix {
        Some(v)
    } else {
        None
    }
}

proof fn lemma_digits_grow(s: Seq<char>, radix: nat, k: int)
    requires
        2 <= radix,
        0 <= k <= s.len(),
        digits_value(s, radix) is Some,
    ensures
        digits_value(s.take(k), radix) is Some,
        digits_value(s.take(k), radix)->0 <= digits_value(s, radix)->0,
    decreases s.len() - k,
{
    assert(s.take(s.len() as int) =~= s);
    if k < s.len() {
        lemma_digits_grow(s, radix, k + 1);
        assert(s.take(k + 1).drop_last() =~= s.take(k));
        let v = digits_value(s.take(k), radix)->0;
        let w = digits_value(s.take(k + 1), radix)->0;
        assert(v <= v * radix) by (nonlinear_arith)
            requires
                2 <= radix,
        ;
    }
}

/// The number the digits from `from` on spell in the radix, signed, where `from_str_radix` reads
/// one that fits an `i64`.
fn radix_read(s: &Vec<char>, from: usize, radix: u32) -> (r: Option<i128>)
    requires
        from <= s.len(),
        2 <= radix <= 36,
    ensures
        match (r, radix_value(s@.skip(from as int), radix as nat)) {
            (Some(a), Some(b)) => a == b,
            (None, None) => true,
            _ => false,
        },
{
    let ghost t = s@.skip(from as int);
    if from == s.len() {
        return None;
    }
    let neg = s[from] == '-';
    let start = if s[from] == '-' || s[from] == '+' {
        from + 1
    } else {
        from
    };
    let ghost body = s@.skip(start as int);
    assert(body =~= if t.len() > 0 && (t[0] == '-' || t[0] == '+') {
        t.skip(1)
    } else {
        t
    });
    if start == s.len() {
        return None;
    }
    let mut mag: u64 = 0;
    let mut k = start;
    assert(body.take(0) =~= Seq::<char>::empty());
    while k < s.len()
        invariant
            start <= k <= s@.len(),
            start < s@.len(),
            2 <= radix <= 36,
            body == s@.skip(start as int),
            t == s@.skip(from as int),
            t.len() > 0,
            neg == (t[0] == '-'),
            body == if t.len() > 0 && (t[0] == '-' || t[0] == '+') {
                t.skip(1)
            } else {
                t
            },
            digits_value(body.take(k - start), radix as nat) == Some(mag as nat),
        decreases s.len() - k,
    {
        assert(body.take(k - start + 1).drop_last() =~= body.take(k - start));
        assert(body.take(k - start + 1).last() == s@[k as int]);
        let d = match digit_value(s[k], radix) {
            Some(d) => d,
            None => {
                proof {
                    lemma_digits_none(body, radix as nat, k - start + 1);
                }
                return None;
            },
        };
        let next = match mag.checked_mul(radix as u64) {
            Some(m) => m.checked_add(d as u64),
            None => None,
        };
        mag = match next {
            Some(m) => m,
            None => {
                proof {
                    let m = mag as nat;
                    assert(m * (radix as nat) + d as nat > u64::MAX) by (nonlinear_arith)
                        requires
                            (m * radix as nat > u64::MAX || m * radix as nat + d as nat > u64::MAX),
                    ;
                    if digits_value(body, radix as nat) is Some {
                        lemma_digits_grow(body, radix as nat, k - start + 1);
                    }
                }
                return None;
            },
        };
        k += 1;
    }
    assert(body.take(k - start) =~= body);
    if neg {
        if mag as u128 > 0x8000_0000_0000_0000u128 {
            return None;
        }
        Some(-(mag as i128))
    } else {
        if mag > 0x7FFF_FFFF_FFFF_FFFFu64 {
            return None;
        }
        Some(mag as i128)
    }
}

proof fn lemma_digits_none(s: Seq<char>, radix: nat, k: int)
    requires
        0 < k <= s.len(),
        digits_value(s.take(k), radix) is None,
    ensures
        digits_value(s, radix) is None,
    decreases s.len() - k,
{
    if k < s.len() {
        assert(s.take(k + 1).drop_last() =~= s.take(k));
        lemma_digits_none(s, radix, k + 1);
    } else {
        assert(s.take(k) =~= s);
    }
}

/// The whole number a setting writes, or `None` where the text spells none an `i64` holds.
pub fn read_whole(text: &str) -> (r: Option<i64>)
    requires
        match whole_of(text@) {
            Some(w) => i64::MIN <= w <= i64::MAX,
            None => true,
        },
    ensures
        match (r, whole_of(text@)) {
            (Some(a), Some(b)) => a == b,
            (None, None) => true,
            _ => false,
        },
{
    let c = chars_of(text);
    let mut held: Vec<char> = Vec::new();
    let mut k: usize = 0;
    assert(c@.take(0) =~= Seq::<char>::empty());
    while k < c.len()
        invariant
            k <= c@.len(),
            held@ == without_underscores(c@.take(k as int)),
        decreases c.len() - k,
    {
        assert(c@.take(k + 1).drop_last() =~= c@.take(k as int));
        if c[k] != '_' {
            held.push(c[k]);
        }
        k += 1;
    }
    assert(c@.take(k as int) =~= c@);
    let neg = held.len() > 0 && held[0] == '-';
    let from: usize = if neg || (held.len() > 0 && held[0] == '+') {
        1
    } else {
        0
    };
    let n = held.len();
    let (radix, at): (u32, usize) = if n >= from + 2 && held[from] == '0' && held[from + 1] == 'x' {
        (16, from + 2)
    } else if n >= from + 2 && held[from] == '0' && held[from + 1] == 'o' {
        (8, from + 2)
    } else if n >= from + 2 && held[from] == '0' && held[from + 1] == 'b' {
        (2, from + 2)
    } else {
        (10, from)
    };
    let ghost digits = held@.skip(from as int);
    assert(held@ == without_underscores(text@));
    assert(digits =~= if neg || (held@.len() > 0 && held@[0] == '+') {
        held@.skip(1)
    } else {
        held@
    });
    proof {
        if n >= from + 2 {
            assert(digits.len() >= 2 && digits[0] == held@[from as int] && digits[1] == held@[from + 1]);
        } else {
            assert(digits.len() < 2);
        }
    }
    assert(held@.skip(at as int) =~= if at == from {
        digits
    } else {
        digits.skip(2)
    });
    match radix_read(&held, at, radix) {
        Some(v) => {
            let w: i128 = if neg {
                -v
            } else {
                v
            };
            Some(w as i64)
        },
        None => None,
    }
}

} // verus!
