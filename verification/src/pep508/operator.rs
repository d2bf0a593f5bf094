//! The operators a version clause compares with.

use vstd::prelude::*;
use crate::text::{is_written_at, string_of, written_at};

verus! {

/// How a clause compares a version against the one it names.
#[derive(Debug, Clone, Copy, PartialEq, Eq, Structural)]
pub enum Operator {
    ArbitraryEqual,
    Compatible,
    Equal,
    GreaterEqual,
    GreaterThan,
    LessEqual,
    LessThan,
    NotEqual,
}

/// How the operator is written.
pub open spec fn symbol(op: Operator) -> Seq<char> {
    match op {
        Operator::ArbitraryEqual => seq!['=', '=', '='],
        Operator::Compatible => seq!['~', '='],
        Operator::Equal => seq!['=', '='],
        Operator::GreaterEqual => seq!['>', '='],
        Operator::GreaterThan => seq!['>'],
        Operator::LessEqual => seq!['<', '='],
        Operator::LessThan => seq!['<'],
        Operator::NotEqual => seq!['!', '='],
    }
}

/// The operators in the order they are tried, so one written as the start of another is found
/// only where the longer one is not written.
pub open spec fn operators() -> Seq<Operator> {
    seq![
        Operator::ArbitraryEqual,
        Operator::Compatible,
        Operator::Equal,
        Operator::GreaterEqual,
        Operator::GreaterThan,
        Operator::LessEqual,
        Operator::LessThan,
        Operator::NotEqual,
    ]
}

/// The first operator, from the `j`th on, whose symbol opens the text.
pub open spec fn operator_from(s: Seq<char>, j: int) -> Option<Operator>
    decreases operators().len() - j,
{
    if j < 0 || j >= operators().len() {
        None
    } else if written_at(s, 0, symbol(operators()[j])) {
        Some(operators()[j])
    } else {
        operator_from(s, j + 1)
    }
}

/// The operator the text opens with.
pub open spec fn operator_of(s: Seq<char>) -> Option<Operator> {
    operator_from(s, 0)
}

impl Operator {
    /// How the operator is written, as characters.
    pub fn symbol_chars(&self) -> (r: Vec<char>)
        ensures
            r@ == symbol(*self),
    {
        let r = match self {
            Operator::ArbitraryEqual => vec!['=', '=', '='],
            Operator::Compatible => vec!['~', '='],
            Operator::Equal => vec!['=', '='],
            Operator::GreaterEqual => vec!['>', '='],
            Operator::GreaterThan => vec!['>'],
            Operator::LessEqual => vec!['<', '='],
            Operator::LessThan => vec!['<'],
            Operator::NotEqual => vec!['!', '='],
        };
        assert(r@ =~= symbol(*self));
        r
    }

    /// How the operator is written.
    pub fn to_string(&self) -> (r: String)
        ensures
            r@ == symbol(*self),
    {
        string_of(&self.symbol_chars())
    }

    /// The operator the text opens with, and how many characters it takes.
    pub fn read(s: &Vec<char>) -> (r: Option<(Operator, usize)>)
        ensures
            r is Some <==> operator_of(s@) is Some,
            r matches Some(found) ==> found.0 == operator_of(s@)->0 && found.1 == symbol(
                found.0,
            ).len() && found.1 <= s.len(),
    {
        let all = [
            Operator::ArbitraryEqual,
            Operator::Compatible,
            Operator::Equal,
            Operator::GreaterEqual,
            Operator::GreaterThan,
            Operator::LessEqual,
            Operator::LessThan,
            Operator::NotEqual,
        ];
        assert(all@ =~= operators());
        let mut j: usize = 0;
        while j < 8
            invariant
                j <= 8,
                all@ == operators(),
                operator_from(s@, 0) == operator_from(s@, j as int),
            decreases 8 - j,
        {
            let op = all[j];
            let sym = op.symbol_chars();
            if is_written_at(s, 0, &sym) {
                return Some((op, sym.len()));
            }
            j += 1;
        }
        None
    }
}

} // verus!
