//! One clause of a specifier set: an operator and the version it compares against.

use vstd::prelude::*;
use crate::pep508::number::Number;
use crate::pep508::operator::{Operator, operator_of, symbol};
use crate::pep508::version::{Version, VersionView, message, spelled, version_error, version_of};
use crate::text::{chars_of, is_ascii_alnum, is_alnum, push_all, slice, string_of, trim, trimmed};

verus! {

/// What a clause holds, as plain text.
pub struct VersionOpView {
    pub op: Operator,
    pub version: Option<VersionView>,
    pub literal: Seq<char>,
}

/// A character `===` lets the text it compares against hold.
pub open spec fn arbitrary_char(c: char) -> bool {
    is_alnum(c) || c == '-' || c == '_' || c == '.' || c == '*' || c == '+' || c == '!'
}

/// Whether PEP 440 puts this operator and this operand together: a wildcard only after `==` or
/// `!=` and only after the release numbers, a local version only after those two, and a compatible
/// release only on a version of at least two numbers.
pub open spec fn holds_together(op: Operator, v: VersionView) -> bool {
    &&& v.has_wildcard ==> {
        &&& (op == Operator::Equal || op == Operator::NotEqual)
        &&& v.pre is None && v.post is None && v.dev is None && v.local is None
    }
    &&& v.local is Some ==> (op == Operator::Equal || op == Operator::NotEqual)
    &&& op == Operator::Compatible ==> v.release.len() >= 2
}

/// The clause the text spells, read the way [`VersionOp::new`] reads it.
pub open spec fn version_op_of(raw: Seq<char>) -> Option<VersionOpView> {
    let t = trim(raw);
    match operator_of(t) {
        None => None,
        Some(op) => {
            let literal = trim(t.skip(symbol(op).len() as int));
            if literal.len() == 0 {
                None
            } else if op == Operator::ArbitraryEqual {
                if forall|i: int| 0 <= i < literal.len() ==> arbitrary_char(#[trigger] literal[i]) {
                    Some(VersionOpView { op, version: version_of(literal), literal })
                } else {
                    None
                }
            } else {
                match version_of(literal) {
                    None => None,
                    Some(v) => if holds_together(op, v) {
                        Some(VersionOpView { op, version: Some(v), literal })
                    } else {
                        None
                    },
                }
            }
        },
    }
}

/// The clause as it is written back: the operator and the version in its one spelling, or, for
/// `===`, the text it was given.
pub open spec fn op_written(o: VersionOpView) -> Seq<char> {
    match o.version {
        Some(v) => if o.op != Operator::ArbitraryEqual {
            symbol(o.op) + spelled(v)
        } else {
            symbol(o.op) + o.literal
        },
        None => symbol(o.op) + o.literal,
    }
}

/// The release with the zeros that close it dropped, keeping its first number.
pub open spec fn trim_zeros(rel: Seq<Seq<char>>) -> Seq<Seq<char>>
    decreases rel.len(),
{
    if rel.len() > 1 && rel.last() == seq!['0'] {
        trim_zeros(rel.drop_last())
    } else {
        rel
    }
}

/// Whether the version writes no segment past its release, which is what makes a closing `.0`
/// say nothing.
pub open spec fn release_only(v: VersionView) -> bool {
    !v.has_wildcard && v.pre is None && v.post is None && v.dev is None && v.local is None
}

/// The clause with the zeros closing its release dropped, where they say nothing: not for `~=`,
/// which says what it says by the numbers it names, not for `===`'s text, and not where a segment
/// follows the release.
pub open spec fn shortened(o: VersionOpView) -> VersionOpView {
    if o.op == Operator::Compatible {
        o
    } else {
        match o.version {
            None => o,
            Some(v) => if !release_only(v) {
                o
            } else {
                VersionOpView {
                    op: o.op,
                    version: Some(
                        VersionView {
                            epoch: v.epoch,
                            release: trim_zeros(v.release),
                            pre: v.pre,
                            post: v.post,
                            dev: v.dev,
                            local: v.local,
                            has_wildcard: v.has_wildcard,
                        },
                    ),
                    literal: o.literal,
                }
            },
        }
    }
}

/// One clause of a specifier set.
#[derive(Debug, Clone, PartialEq, Eq)]
pub struct VersionOp {
    pub op: Operator,
    version: Option<Version>,
    literal: String,
}

impl View for VersionOp {
    type V = VersionOpView;

    closed spec fn view(&self) -> VersionOpView {
        VersionOpView {
            op: self.op,
            version: match self.version {
                Some(v) => Some(v@),
                None => None,
            },
            literal: self.literal@,
        }
    }
}

fn all_arbitrary(s: &Vec<char>) -> (r: bool)
    ensures
        r == forall|i: int| 0 <= i < s@.len() ==> arbitrary_char(#[trigger] s@[i]),
{
    let mut i: usize = 0;
    while i < s.len()
        invariant
            i <= s.len(),
            forall|k: int| 0 <= k < i ==> arbitrary_char(#[trigger] s@[k]),
        decreases s.len() - i,
    {
        let c = s[i];
        if !(is_ascii_alnum(c) || c == '-' || c == '_' || c == '.' || c == '*' || c == '+' || c
            == '!') {
            assert(!arbitrary_char(s@[i as int]));
            return false;
        }
        i += 1;
    }
    true
}

/// Why PEP 440 does not put this operator and this operand together, where it does not: the
/// first of its rules that the pair breaks.
pub open spec fn together_error(op: Operator, v: VersionView) -> Seq<char> {
    let eq_or_ne = op == Operator::Equal || op == Operator::NotEqual;
    if v.has_wildcard && !eq_or_ne {
        "`"@ + symbol(op) + "` names no version ending in `.*`"@
    } else if v.has_wildcard && (v.pre is Some || v.post is Some || v.dev is Some || v.local is Some) {
        "`.*` follows the release numbers alone"@
    } else if v.local is Some && !eq_or_ne {
        "`"@ + symbol(op) + "` names no local version"@
    } else {
        "`"@ + symbol(op) + "` names a version of at least two numbers"@
    }
}

/// What [`VersionOp::new`] answers text that is no clause: the operator it does not know, the
/// clause that names no version, the text `===` may not compare against, why the operand is no
/// version, or the rule of PEP 440 the pair breaks.
pub open spec fn version_op_error(raw: Seq<char>) -> Seq<char> {
    let t = trim(raw);
    match operator_of(t) {
        None => "Invalid operator: "@ + t,
        Some(op) => {
            let literal = trim(t.skip(symbol(op).len() as int));
            if literal.len() == 0 {
                "The clause names no version: '"@ + raw + "'"@
            } else if op == Operator::ArbitraryEqual {
                "The version is written outside its own characters: '"@ + literal + "'"@
            } else {
                match version_of(literal) {
                    None => version_error(literal),
                    Some(v) => together_error(op, v),
                }
            }
        },
    }
}

/// `None` where PEP 440 puts the operator and the operand together, and otherwise why not.
fn together_check(op: Operator, v: &Version) -> (r: Option<String>)
    ensures
        r is None <==> holds_together(op, v@),
        r matches Some(m) ==> m@ == together_error(op, v@),
{
    let eq_or_ne = op == Operator::Equal || op == Operator::NotEqual;
    if v.has_wildcard {
        if !eq_or_ne {
            return Some(message("`", &op.symbol_chars(), "` names no version ending in `.*`"));
        }
        if v.pre.is_some() || v.post.is_some() || v.dev.is_some() || v.local.is_some() {
            return Some(string_of(&chars_of("`.*` follows the release numbers alone")));
        }
    }
    if v.local.is_some() && !eq_or_ne {
        return Some(message("`", &op.symbol_chars(), "` names no local version"));
    }
    if op == Operator::Compatible && v.release.len() < 2 {
        return Some(message("`", &op.symbol_chars(), "` names a version of at least two numbers"));
    }
    None
}

impl VersionOp {
    /// Read one clause of a specifier set.
    ///
    /// # Errors
    ///
    /// Returns why the text is not a clause: an operator this does not know, an operand that is not
    /// a version, or a pair PEP 440 does not put together.
    pub fn new(spec: &str) -> (r: Result<Self, String>)
        ensures
            r is Ok <==> version_op_of(spec@) is Some,
            r matches Ok(o) ==> o@ == version_op_of(spec@)->0,
            r matches Err(e) ==> e@ == version_op_error(spec@),
    {
        Self::from_chars(&chars_of(spec))
    }

    pub(crate) fn from_chars(spec: &Vec<char>) -> (r: Result<Self, String>)
        ensures
            r is Ok <==> version_op_of(spec@) is Some,
            r matches Ok(o) ==> o@ == version_op_of(spec@)->0,
            r matches Err(e) ==> e@ == version_op_error(spec@),
    {
        let t = trimmed(spec);
        let (op, width) = match Operator::read(&t) {
            Some(found) => found,
            None => {
                let m = message("Invalid operator: ", &t, "");
                proof {
                    reveal_strlit("");
                    assert(m@ =~= version_op_error(spec@));
                }
                return Err(m);
            },
        };
        let rest = slice(&t, width, t.len());
        assert(rest@ =~= t@.skip(symbol(op).len() as int));
        let literal = trimmed(&rest);
        if literal.len() == 0 {
            return Err(message("The clause names no version: '", spec, "'"));
        }
        // `===` compares the text it is given, which is anything the version token of a dependency
        // may hold rather than a version this reads
        if op == Operator::ArbitraryEqual {
            if !all_arbitrary(&literal) {
                return Err(
                    message("The version is written outside its own characters: '", &literal, "'"),
                );
            }
            let version = match Version::from_chars(&literal) {
                Ok(v) => Some(v),
                Err(_) => None,
            };
            return Ok(VersionOp { op, version, literal: string_of(&literal) });
        }
        let version = match Version::from_chars(&literal) {
            Ok(v) => v,
            Err(why) => {
                return Err(why);
            },
        };
        match together_check(op, &version) {
            Some(why) => {
                return Err(why);
            },
            None => {},
        }
        Ok(VersionOp { op, version: Some(version), literal: string_of(&literal) })
    }

    /// The version the clause compares against, or `None` where `===` was given text that is not
    /// one.
    pub fn version(&self) -> (r: Option<&Version>)
        ensures
            match (r, self@.version) {
                (Some(v), Some(w)) => v@ == w,
                (None, None) => true,
                _ => false,
            },
    {
        self.version.as_ref()
    }

    /// The text the clause was given, which is what `===` compares against.
    pub fn literal(&self) -> (r: &str)
        ensures
            r@ == self@.literal,
    {
        self.literal.as_str()
    }

    /// The clause as it is written back, as characters.
    pub fn written_chars(&self) -> (r: Vec<char>)
        ensures
            r@ == op_written(self@),
    {
        let mut out = self.op.symbol_chars();
        match &self.version {
            Some(v) if self.op != Operator::ArbitraryEqual => {
                push_all(&mut out, &v.spelled_chars());
            },
            _ => {
                push_all(&mut out, &chars_of(self.literal.as_str()));
            },
        }
        out
    }

    /// The clause as it is written back.
    pub fn to_string(&self) -> (r: String)
        ensures
            r@ == op_written(self@),
    {
        string_of(&self.written_chars())
    }

    /// Drop the zeros that close the release where they say nothing.
    pub(crate) fn shorten(&mut self)
        ensures
            final(self)@ == shortened(old(self)@),
    {
        if self.op == Operator::Compatible {
            return;
        }
        let taken = self.version.take();
        match taken {
            None => {},
            Some(mut v) => {
                if v.has_wildcard || v.pre.is_some() || v.post.is_some() || v.dev.is_some()
                    || v.local.is_some() {
                    self.version = Some(v);
                    return;
                }
                let ghost start = v@;
                while v.release.len() > 1 && v.release[v.release.len() - 1].is_zero()
                    invariant
                        trim_zeros(v@.release) == trim_zeros(start.release),
                        v@.epoch == start.epoch,
                        v@.pre == start.pre,
                        v@.post == start.post,
                        v@.dev == start.dev,
                        v@.local == start.local,
                        v@.has_wildcard == start.has_wildcard,
                    decreases v.release.len(),
                {
                    let ghost before = v@.release;
                    v.release.pop();
                    assert(v@.release =~= before.drop_last());
                }
                assert(trim_zeros(v@.release) == v@.release);
                self.version = Some(v);
                assert(self@.version->0 =~= shortened(old(self)@).version->0);
            },
        }
    }
}

} // verus!
