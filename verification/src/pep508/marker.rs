//! Environment markers: read into a tree by the grammar of
//! [dependency specifiers](https://packaging.python.org/en/latest/specifications/dependency-specifiers/),
//! and written back in one form.

use vstd::prelude::*;
use crate::pep508::version::message;
use crate::text::{
    chars_of, find_char, index_of, is_ascii_alnum, is_ascii_alpha, is_alnum, is_alpha, lemma_index_of,
    push_all, same, slice, string_of, views,
};

verus! {

/// How many groups a marker may open. PEP 508 sets no limit, and a marker written by hand carries
/// a handful; the bound is what a thread's stack holds for reading, writing and dropping the tree.
pub const GROUPS: usize = 256;

/// A token of a marker, as plain text.
pub enum TokView {
    Ident(Seq<char>),
    Str(Seq<char>),
    Op(Seq<char>),
    And,
    Or,
    LParen,
    RParen,
}

/// A token of a marker.
#[derive(Debug)]
pub enum Token {
    Ident(Vec<char>),
    Str(Vec<char>),
    Op(Vec<char>),
    And,
    Or,
    LParen,
    RParen,
}

impl View for Token {
    type V = TokView;

    open spec fn view(&self) -> TokView {
        match self {
            Token::Ident(w) => TokView::Ident(w@),
            Token::Str(w) => TokView::Str(w@),
            Token::Op(w) => TokView::Op(w@),
            Token::And => TokView::And,
            Token::Or => TokView::Or,
            Token::LParen => TokView::LParen,
            Token::RParen => TokView::RParen,
        }
    }
}

pub open spec fn tok_views(t: Seq<Token>) -> Seq<TokView> {
    t.map_values(|x: Token| x@)
}

/// A character an operator is written in.
pub open spec fn is_op_char(c: char) -> bool {
    c == '=' || c == '<' || c == '>' || c == '!' || c == '~'
}

/// A character a word is written in.
pub open spec fn is_word_char(c: char) -> bool {
    is_alnum(c) || c == '_'
}

/// Where the run of operator characters from `i` ends.
pub open spec fn op_end(s: Seq<char>, i: int) -> int
    decreases s.len() - i,
{
    if 0 <= i < s.len() && is_op_char(s[i]) {
        op_end(s, i + 1)
    } else {
        i
    }
}

/// Where the run of word characters from `i` ends.
pub open spec fn word_end(s: Seq<char>, i: int) -> int
    decreases s.len() - i,
{
    if 0 <= i < s.len() && is_word_char(s[i]) {
        word_end(s, i + 1)
    } else {
        i
    }
}

pub proof fn lemma_op_end(s: Seq<char>, i: int)
    requires
        0 <= i <= s.len(),
    ensures
        i <= op_end(s, i) <= s.len(),
        i < s.len() && is_op_char(s[i]) ==> op_end(s, i) > i,
    decreases s.len() - i,
{
    if i < s.len() && is_op_char(s[i]) {
        lemma_op_end(s, i + 1);
    }
}

pub proof fn lemma_word_end(s: Seq<char>, i: int)
    requires
        0 <= i <= s.len(),
    ensures
        i <= word_end(s, i) <= s.len(),
        i < s.len() && is_word_char(s[i]) ==> word_end(s, i) > i,
    decreases s.len() - i,
{
    if i < s.len() && is_word_char(s[i]) {
        lemma_word_end(s, i + 1);
    }
}

/// A token in front of the tokens that follow it, where those read.
pub open spec fn prepend(t: TokView, rest: Option<Seq<TokView>>) -> Option<Seq<TokView>> {
    match rest {
        Some(r) => Some(seq![t] + r),
        None => None,
    }
}

/// The tokens the text spells from `at` on, or `None` where it holds a character no token
/// starts with or a quote it never closes.
pub open spec fn tokens_from(s: Seq<char>, at: int) -> Option<Seq<TokView>>
    decreases s.len() - at,
{
    if at < 0 || at >= s.len() {
        Some(seq![])
    } else {
        let c = s[at];
        if c == ' ' || c == '\t' {
            tokens_from(s, at + 1)
        } else if c == '(' {
            prepend(TokView::LParen, tokens_from(s, at + 1))
        } else if c == ')' {
            prepend(TokView::RParen, tokens_from(s, at + 1))
        } else if is_op_char(c) {
            proof {
                lemma_op_end(s, at);
            }
            let e = op_end(s, at);
            prepend(TokView::Op(s.subrange(at, e)), tokens_from(s, e))
        } else if c == '"' || c == '\'' {
            proof {
                lemma_index_of(s, c, at + 1);
            }
            let close = index_of(s, c, at + 1);
            if close >= s.len() {
                None
            } else {
                prepend(TokView::Str(s.subrange(at, close + 1)), tokens_from(s, close + 1))
            }
        } else if is_alpha(c) || c == '_' {
            proof {
                lemma_word_end(s, at);
            }
            let e = word_end(s, at);
            let w = s.subrange(at, e);
            let t = if w == seq!['a', 'n', 'd'] {
                TokView::And
            } else if w == seq!['o', 'r'] {
                TokView::Or
            } else {
                TokView::Ident(w)
            };
            prepend(t, tokens_from(s, e))
        } else {
            None
        }
    }
}

/// The tokens the text spells up to `at`, followed by the ones from there on.
pub open spec fn tokens_with(done: Seq<TokView>, rest: Option<Seq<TokView>>) -> Option<Seq<TokView>> {
    match rest {
        Some(r) => Some(done + r),
        None => None,
    }
}

fn tokenize(s: &Vec<char>) -> (r: Result<Vec<Token>, String>)
    ensures
        r is Ok <==> tokens_from(s@, 0) is Some,
        r matches Ok(t) ==> tok_views(t@) == tokens_from(s@, 0)->0,
        r matches Err(m) ==> m@ == token_error(s@, 0),
{
    let mut tokens: Vec<Token> = Vec::new();
    let mut at: usize = 0;
    assert(tok_views(tokens@) =~= Seq::<TokView>::empty());
    while at < s.len()
        invariant
            at <= s.len(),
            tokens_from(s@, 0) == tokens_with(tok_views(tokens@), tokens_from(s@, at as int)),
            token_error(s@, 0) == token_error(s@, at as int),
        decreases s.len() - at,
    {
        let c = s[at];
        let ghost before = tok_views(tokens@);
        if c == ' ' || c == '\t' {
            at += 1;
        } else if c == '(' {
            tokens.push(Token::LParen);
            assert(tok_views(tokens@) =~= before + seq![TokView::LParen]);
            at += 1;
        } else if c == ')' {
            tokens.push(Token::RParen);
            assert(tok_views(tokens@) =~= before + seq![TokView::RParen]);
            at += 1;
        } else if c == '=' || c == '<' || c == '>' || c == '!' || c == '~' {
            proof {
                lemma_op_end(s@, at as int);
            }
            let mut e = at;
            while e < s.len() && (s[e] == '=' || s[e] == '<' || s[e] == '>' || s[e] == '!' || s[e]
                == '~')
                invariant
                    at <= e <= s.len(),
                    op_end(s@, at as int) == op_end(s@, e as int),
                decreases s.len() - e,
            {
                e += 1;
            }
            let w = slice(s, at, e);
            let ghost tv = TokView::Op(w@);
            tokens.push(Token::Op(w));
            assert(tok_views(tokens@) =~= before + seq![tv]);
            at = e;
        } else if c == '"' || c == '\'' {
            proof {
                lemma_index_of(s@, c, at + 1);
            }
            let close = find_char(s, c, at + 1);
            if close >= s.len() {
                return Err(string_of(&chars_of("Unclosed string literal")));
            }
            let w = slice(s, at, close + 1);
            let ghost tv = TokView::Str(w@);
            tokens.push(Token::Str(w));
            assert(tok_views(tokens@) =~= before + seq![tv]);
            at = close + 1;
        } else if is_ascii_alpha(c) || c == '_' {
            proof {
                lemma_word_end(s@, at as int);
            }
            let mut e = at;
            while e < s.len() && (is_ascii_alnum(s[e]) || s[e] == '_')
                invariant
                    at <= e <= s.len(),
                    word_end(s@, at as int) == word_end(s@, e as int),
                decreases s.len() - e,
            {
                e += 1;
            }
            let w = slice(s, at, e);
            let and_word = vec!['a', 'n', 'd'];
            let or_word = vec!['o', 'r'];
            assert(and_word@ =~= seq!['a', 'n', 'd']);
            assert(or_word@ =~= seq!['o', 'r']);
            let t = if same(&w, &and_word) {
                Token::And
            } else if same(&w, &or_word) {
                Token::Or
            } else {
                Token::Ident(w)
            };
            let ghost tv = t@;
            tokens.push(t);
            assert(tok_views(tokens@) =~= before + seq![tv]);
            at = e;
        } else {
            let mut m = chars_of("Unexpected character: ");
            m.push(c);
            assert(m@ =~= "Unexpected character: "@ + seq![c]);
            return Err(string_of(&m));
        }
    }
    assert(tokens_from(s@, at as int) == Some(Seq::<TokView>::empty()));
    assert(tok_views(tokens@) + Seq::<TokView>::empty() =~= tok_views(tokens@));
    Ok(tokens)
}

/// Why the text spells no tokens from `at` on: the first quote it never closes or the first
/// character no token starts with.
pub open spec fn token_error(s: Seq<char>, at: int) -> Seq<char>
    decreases s.len() - at,
{
    if at < 0 || at >= s.len() {
        seq![]
    } else {
        let c = s[at];
        if c == ' ' || c == '\t' || c == '(' || c == ')' {
            token_error(s, at + 1)
        } else if is_op_char(c) {
            proof {
                lemma_op_end(s, at);
            }
            token_error(s, op_end(s, at))
        } else if c == '"' || c == '\'' {
            proof {
                lemma_index_of(s, c, at + 1);
            }
            let close = index_of(s, c, at + 1);
            if close >= s.len() {
                "Unclosed string literal"@
            } else {
                token_error(s, close + 1)
            }
        } else if is_alpha(c) || c == '_' {
            proof {
                lemma_word_end(s, at);
            }
            token_error(s, word_end(s, at))
        } else {
            "Unexpected character: "@ + seq![c]
        }
    }
}

/// What a marker holds, as plain text.
pub enum MarkerModel {
    And(Seq<MarkerModel>),
    Or(Seq<MarkerModel>),
    Comparison(Seq<char>, Seq<char>, Seq<char>),
    Paren(Box<MarkerModel>),
}

/// The variables a marker may name. Anything else on that side is a value, which is quoted.
pub open spec fn marker_variables() -> Seq<Seq<char>> {
    seq![
        seq!['o', 's', '_', 'n', 'a', 'm', 'e'],
        seq!['s', 'y', 's', '_', 'p', 'l', 'a', 't', 'f', 'o', 'r', 'm'],
        seq!['p', 'l', 'a', 't', 'f', 'o', 'r', 'm', '_', 'm', 'a', 'c', 'h', 'i', 'n', 'e'],
        seq![
            'p', 'l', 'a', 't', 'f', 'o', 'r', 'm', '_', 'p', 'y', 't', 'h', 'o', 'n', '_', 'i',
            'm', 'p', 'l', 'e', 'm', 'e', 'n', 't', 'a', 't', 'i', 'o', 'n',
        ],
        seq!['p', 'l', 'a', 't', 'f', 'o', 'r', 'm', '_', 'r', 'e', 'l', 'e', 'a', 's', 'e'],
        seq!['p', 'l', 'a', 't', 'f', 'o', 'r', 'm', '_', 's', 'y', 's', 't', 'e', 'm'],
        seq!['p', 'l', 'a', 't', 'f', 'o', 'r', 'm', '_', 'v', 'e', 'r', 's', 'i', 'o', 'n'],
        seq!['p', 'y', 't', 'h', 'o', 'n', '_', 'v', 'e', 'r', 's', 'i', 'o', 'n'],
        seq![
            'p', 'y', 't', 'h', 'o', 'n', '_', 'f', 'u', 'l', 'l', '_', 'v', 'e', 'r', 's', 'i',
            'o', 'n',
        ],
        seq![
            'i', 'm', 'p', 'l', 'e', 'm', 'e', 'n', 't', 'a', 't', 'i', 'o', 'n', '_', 'n', 'a',
            'm', 'e',
        ],
        seq![
            'i', 'm', 'p', 'l', 'e', 'm', 'e', 'n', 't', 'a', 't', 'i', 'o', 'n', '_', 'v', 'e',
            'r', 's', 'i', 'o', 'n',
        ],
        seq!['e', 'x', 't', 'r', 'a'],
        seq![
            'd', 'e', 'p', 'e', 'n', 'd', 'e', 'n', 'c', 'y', '_', 'g', 'r', 'o', 'u', 'p', 's',
        ],
    ]
}

/// What a marker compares with.
pub open spec fn marker_operators() -> Seq<Seq<char>> {
    seq![
        seq!['=', '='],
        seq!['!', '='],
        seq!['<'],
        seq!['<', '='],
        seq!['>'],
        seq!['>', '='],
        seq!['~', '='],
        seq!['=', '=', '='],
    ]
}

fn variable_list() -> (r: Vec<Vec<char>>)
    ensures
        views(r@) == marker_variables(),
{
    let r = vec![
        chars_of("os_name"),
        chars_of("sys_platform"),
        chars_of("platform_machine"),
        chars_of("platform_python_implementation"),
        chars_of("platform_release"),
        chars_of("platform_system"),
        chars_of("platform_version"),
        chars_of("python_version"),
        chars_of("python_full_version"),
        chars_of("implementation_name"),
        chars_of("implementation_version"),
        chars_of("extra"),
        chars_of("dependency_groups"),
    ];
    proof {
        reveal_strlit("os_name");
        reveal_strlit("sys_platform");
        reveal_strlit("platform_machine");
        reveal_strlit("platform_python_implementation");
        reveal_strlit("platform_release");
        reveal_strlit("platform_system");
        reveal_strlit("platform_version");
        reveal_strlit("python_version");
        reveal_strlit("python_full_version");
        reveal_strlit("implementation_name");
        reveal_strlit("implementation_version");
        reveal_strlit("extra");
        reveal_strlit("dependency_groups");
        assert(views(r@) =~~= marker_variables());
    }
    r
}

fn operator_list() -> (r: Vec<Vec<char>>)
    ensures
        views(r@) == marker_operators(),
{
    let r = vec![
        vec!['=', '='],
        vec!['!', '='],
        vec!['<'],
        vec!['<', '='],
        vec!['>'],
        vec!['>', '='],
        vec!['~', '='],
        vec!['=', '=', '='],
    ];
    assert(views(r@) =~~= marker_operators());
    r
}

/// Whether the text is one of `list`.
fn one_of(w: &Vec<char>, list: &Vec<Vec<char>>) -> (r: bool)
    ensures
        r == views(list@).contains(w@),
{
    let mut i: usize = 0;
    while i < list.len()
        invariant
            i <= list.len(),
            forall|k: int| 0 <= k < i ==> list@[k]@ != w@,
        decreases list.len() - i,
    {
        if same(w, &list[i]) {
            assert(views(list@)[i as int] == w@);
            return true;
        }
        i += 1;
    }
    assert forall|k: int| 0 <= k < views(list@).len() implies views(list@)[k] != w@ by {
        assert(views(list@)[k] == list@[k]@);
    }
    false
}

/// One side of a comparison at `pos`: a quoted value, or one of the variables PEP 508 names.
pub open spec fn p_operand(t: Seq<TokView>, pos: int) -> Option<Seq<char>> {
    if 0 <= pos < t.len() {
        match t[pos] {
            TokView::Str(h) => Some(h),
            TokView::Ident(h) => if marker_variables().contains(h) {
                Some(h)
            } else {
                None
            },
            _ => None,
        }
    } else {
        None
    }
}

/// The operator of a comparison at `pos`, and where what follows it starts.
pub open spec fn p_operator(t: Seq<TokView>, pos: int) -> Option<(Seq<char>, int)> {
    if 0 <= pos < t.len() {
        match t[pos] {
            TokView::Op(o) => if marker_operators().contains(o) {
                Some((o, pos + 1))
            } else {
                None
            },
            TokView::Ident(w) => if w == seq!['i', 'n'] {
                Some((seq!['i', 'n'], pos + 1))
            } else if w == seq!['n', 'o', 't'] {
                if pos + 1 < t.len() && t[pos + 1] == TokView::Ident(seq!['i', 'n']) {
                    Some((seq!['n', 'o', 't', ' ', 'i', 'n'], pos + 2))
                } else {
                    None
                }
            } else {
                None
            },
            _ => None,
        }
    } else {
        None
    }
}

/// A comparison at `pos`, and where what follows it starts.
pub open spec fn p_comparison(t: Seq<TokView>, pos: int) -> Option<(MarkerModel, int)> {
    match p_operand(t, pos) {
        None => None,
        Some(left) => match p_operator(t, pos + 1) {
            None => None,
            Some((op, p)) => match p_operand(t, p) {
                None => None,
                Some(right) => Some((MarkerModel::Comparison(left, op, right), p + 1)),
            },
        },
    }
}

/// A marker at `pos`: comparisons joined by `and`, those joined by `or`, and a marker in
/// parentheses standing wherever a comparison does. A reading that reads nothing reads no marker.
pub open spec fn p_or(t: Seq<TokView>, pos: int) -> Option<(MarkerModel, int)>
    decreases t.len() - pos, 3int,
{
    if pos < 0 || pos > t.len() {
        None
    } else {
        match p_and(t, pos) {
            None => None,
            Some((e, p1)) => if p1 <= pos || p1 > t.len() {
                None
            } else {
                match or_rest(t, p1) {
                    None => None,
                    Some((es, p2)) => if es.len() == 0 {
                        Some((e, p2))
                    } else {
                        Some((MarkerModel::Or(seq![e] + es), p2))
                    },
                }
            },
        }
    }
}

/// The markers each `or` from `pos` on adds, and where the last of them ends.
pub open spec fn or_rest(t: Seq<TokView>, pos: int) -> Option<(Seq<MarkerModel>, int)>
    decreases t.len() - pos, 2int,
{
    if 0 <= pos < t.len() && t[pos] == TokView::Or {
        match p_and(t, pos + 1) {
            None => None,
            Some((e, p1)) => if p1 <= pos + 1 || p1 > t.len() {
                None
            } else {
                match or_rest(t, p1) {
                    None => None,
                    Some((es, p2)) => Some((seq![e] + es, p2)),
                }
            },
        }
    } else {
        Some((seq![], pos))
    }
}

/// Comparisons or groups joined by `and` at `pos`.
pub open spec fn p_and(t: Seq<TokView>, pos: int) -> Option<(MarkerModel, int)>
    decreases t.len() - pos, 1int,
{
    if pos < 0 || pos > t.len() {
        None
    } else {
        match p_atom(t, pos) {
            None => None,
            Some((e, p1)) => if p1 <= pos || p1 > t.len() {
                None
            } else {
                match and_rest(t, p1) {
                    None => None,
                    Some((es, p2)) => if es.len() == 0 {
                        Some((e, p2))
                    } else {
                        Some((MarkerModel::And(seq![e] + es), p2))
                    },
                }
            },
        }
    }
}

/// The comparisons or groups each `and` from `pos` on adds.
pub open spec fn and_rest(t: Seq<TokView>, pos: int) -> Option<(Seq<MarkerModel>, int)>
    decreases t.len() - pos, 1int,
{
    if 0 <= pos < t.len() && t[pos] == TokView::And {
        match p_atom(t, pos + 1) {
            None => None,
            Some((e, p1)) => if p1 <= pos + 1 || p1 > t.len() {
                None
            } else {
                match and_rest(t, p1) {
                    None => None,
                    Some((es, p2)) => Some((seq![e] + es, p2)),
                }
            },
        }
    } else {
        Some((seq![], pos))
    }
}

/// A group or a comparison at `pos`.
pub open spec fn p_atom(t: Seq<TokView>, pos: int) -> Option<(MarkerModel, int)>
    decreases t.len() - pos, 0int,
{
    if 0 <= pos < t.len() && t[pos] == TokView::LParen {
        match p_or(t, pos + 1) {
            None => None,
            Some((e, p1)) => if 0 <= p1 < t.len() && t[p1] == TokView::RParen {
                Some((MarkerModel::Paren(Box::new(e)), p1 + 1))
            } else {
                None
            },
        }
    } else {
        p_comparison(t, pos)
    }
}

/// How many groups the tokens open.
pub open spec fn groups(t: Seq<TokView>) -> nat
    decreases t.len(),
{
    if t.len() == 0 {
        0
    } else {
        groups(t.drop_last()) + if t.last() == TokView::LParen {
            1nat
        } else {
            0nat
        }
    }
}

/// The marker the text spells: tokens the grammar reads whole, opening no more groups than
/// [`GROUPS`].
pub open spec fn marker_of(s: Seq<char>) -> Option<MarkerModel> {
    match tokens_from(s, 0) {
        None => None,
        Some(t) => if groups(t) > GROUPS {
            None
        } else {
            match p_or(t, 0) {
                Some((m, p)) => if p == t.len() {
                    Some(m)
                } else {
                    None
                },
                None => None,
            }
        },
    }
}

/// Why no operand stands at `pos`: a word that names no marker variable, or nothing an operand
/// is written as.
pub open spec fn e_operand(t: Seq<TokView>, pos: int) -> Seq<char> {
    if 0 <= pos < t.len() {
        match t[pos] {
            TokView::Ident(h) => "`"@ + h + "` is no marker variable, and a value is quoted"@,
            _ => "Expected a quoted value or a marker variable"@,
        }
    } else {
        "Expected a quoted value or a marker variable"@
    }
}

/// Why no operator stands at `pos`: one PEP 508 does not compare with, a `not` with no `in`
/// after it, or nothing an operator is written as.
pub open spec fn e_operator(t: Seq<TokView>, pos: int) -> Seq<char> {
    if 0 <= pos < t.len() {
        match t[pos] {
            TokView::Op(o) => "`"@ + o + "` is no marker operator"@,
            TokView::Ident(w) => if w == seq!['n', 'o', 't'] {
                "Expected 'in' after 'not'"@
            } else {
                "Expected operator"@
            },
            _ => "Expected operator"@,
        }
    } else {
        "Expected operator"@
    }
}

/// Why no comparison stands at `pos`: what is wrong with its first operand, its operator or its
/// second operand, whichever is read first.
pub open spec fn e_comparison(t: Seq<TokView>, pos: int) -> Seq<char> {
    match p_operand(t, pos) {
        None => e_operand(t, pos),
        Some(_) => match p_operator(t, pos + 1) {
            None => e_operator(t, pos + 1),
            Some((_, p)) => e_operand(t, p),
        },
    }
}

/// Why no marker stands at `pos`, read as [`p_or`] reads one.
pub open spec fn e_or(t: Seq<TokView>, pos: int) -> Seq<char>
    decreases t.len() - pos, 3int,
{
    if pos < 0 || pos > t.len() {
        seq![]
    } else {
        match p_and(t, pos) {
            None => e_and(t, pos),
            Some((_, p1)) => if p1 <= pos || p1 > t.len() {
                seq![]
            } else {
                e_or_rest(t, p1)
            },
        }
    }
}

/// Why the `or`s from `pos` on read no marker.
pub open spec fn e_or_rest(t: Seq<TokView>, pos: int) -> Seq<char>
    decreases t.len() - pos, 2int,
{
    if 0 <= pos < t.len() && t[pos] == TokView::Or {
        match p_and(t, pos + 1) {
            None => e_and(t, pos + 1),
            Some((_, p1)) => if p1 <= pos + 1 || p1 > t.len() {
                seq![]
            } else {
                e_or_rest(t, p1)
            },
        }
    } else {
        seq![]
    }
}

/// Why no comparisons joined by `and` stand at `pos`.
pub open spec fn e_and(t: Seq<TokView>, pos: int) -> Seq<char>
    decreases t.len() - pos, 1int,
{
    if pos < 0 || pos > t.len() {
        seq![]
    } else {
        match p_atom(t, pos) {
            None => e_atom(t, pos),
            Some((_, p1)) => if p1 <= pos || p1 > t.len() {
                seq![]
            } else {
                e_and_rest(t, p1)
            },
        }
    }
}

/// Why the `and`s from `pos` on read nothing.
pub open spec fn e_and_rest(t: Seq<TokView>, pos: int) -> Seq<char>
    decreases t.len() - pos, 1int,
{
    if 0 <= pos < t.len() && t[pos] == TokView::And {
        match p_atom(t, pos + 1) {
            None => e_atom(t, pos + 1),
            Some((_, p1)) => if p1 <= pos + 1 || p1 > t.len() {
                seq![]
            } else {
                e_and_rest(t, p1)
            },
        }
    } else {
        seq![]
    }
}

/// Why no group or comparison stands at `pos`: what is wrong inside a group, a group that does
/// not close, or what is wrong with the comparison.
pub open spec fn e_atom(t: Seq<TokView>, pos: int) -> Seq<char>
    decreases t.len() - pos, 0int,
{
    if 0 <= pos < t.len() && t[pos] == TokView::LParen {
        match p_or(t, pos + 1) {
            None => e_or(t, pos + 1),
            Some(_) => "Expected ')'"@,
        }
    } else {
        e_comparison(t, pos)
    }
}

/// What [`MarkerExpr::new`] answers text that is no marker: why it spells no tokens, that it
/// opens too many groups, why the grammar reads no marker from its tokens, or that it reads one
/// that leaves tokens over.
pub open spec fn marker_error(s: Seq<char>) -> Seq<char> {
    match tokens_from(s, 0) {
        None => token_error(s, 0),
        Some(t) => if groups(t) > GROUPS {
            "The marker groups more than 256 times"@
        } else {
            match p_or(t, 0) {
                None => e_or(t, 0),
                Some(_) => "Unexpected trailing tokens"@,
            }
        },
    }
}

/// What `and` adds reads on from where it starts.
proof fn lemma_and_rest_on(t: Seq<TokView>, pos: int)
    ensures
        and_rest(t, pos) matches Some(x) ==> x.1 >= pos && (pos <= t.len() ==> x.1 <= t.len()),
    decreases t.len() - pos,
{
    if 0 <= pos < t.len() && t[pos] == TokView::And {
        if let Some((_, p1)) = p_atom(t, pos + 1) {
            if p1 > pos + 1 && p1 <= t.len() {
                lemma_and_rest_on(t, p1);
            }
        }
    }
}

/// What `or` adds reads on from where it starts.
proof fn lemma_or_rest_on(t: Seq<TokView>, pos: int)
    ensures
        or_rest(t, pos) matches Some(x) ==> x.1 >= pos && (pos <= t.len() ==> x.1 <= t.len()),
    decreases t.len() - pos,
{
    if 0 <= pos < t.len() && t[pos] == TokView::Or {
        if let Some((_, p1)) = p_and(t, pos + 1) {
            if p1 > pos + 1 && p1 <= t.len() {
                lemma_or_rest_on(t, p1);
            }
        }
    }
}

/// Comparisons joined by `and` read at least one token, and no more than there are.
proof fn lemma_and_advances(t: Seq<TokView>, pos: int)
    ensures
        p_and(t, pos) matches Some(x) ==> pos < x.1 <= t.len(),
{
    if 0 <= pos <= t.len() {
        if let Some((_, p1)) = p_atom(t, pos) {
            if p1 > pos && p1 <= t.len() {
                lemma_and_rest_on(t, p1);
            }
        }
    }
}

/// A group or a comparison reads at least one token, and no more than there are.
proof fn lemma_atom_advances(t: Seq<TokView>, pos: int)
    ensures
        p_atom(t, pos) matches Some(x) ==> pos < x.1 <= t.len(),
{
    if 0 <= pos < t.len() && t[pos] == TokView::LParen {
        if let Some((_, q)) = p_and(t, pos + 1) {
            if pos + 1 <= t.len() && q > pos + 1 && q <= t.len() {
                lemma_or_rest_on(t, q);
            }
        }
    }
}

/// A parsed marker.
#[derive(Debug, PartialEq, Eq)]
pub enum MarkerExpr {
    And(Vec<MarkerExpr>),
    Or(Vec<MarkerExpr>),
    Comparison { left: String, op: String, right: String },
    Paren(Box<MarkerExpr>),
}

/// What the marker holds.
pub open spec fn model(e: MarkerExpr) -> MarkerModel
    decreases e,
{
    match e {
        MarkerExpr::And(v) => MarkerModel::And(models(v@)),
        MarkerExpr::Or(v) => MarkerModel::Or(models(v@)),
        MarkerExpr::Comparison { left, op, right } => MarkerModel::Comparison(left@, op@, right@),
        MarkerExpr::Paren(b) => MarkerModel::Paren(Box::new(model(*b))),
    }
}

/// What each marker holds.
pub open spec fn models(s: Seq<MarkerExpr>) -> Seq<MarkerModel>
    decreases s,
{
    if s.len() == 0 {
        seq![]
    } else {
        seq![model(s[0])] + models(s.drop_first())
    }
}


pub proof fn lemma_models_push(s: Seq<MarkerExpr>, x: MarkerExpr)
    ensures
        models(s.push(x)) == models(s).push(model(x)),
    decreases s.len(),
{
    if s.len() == 0 {
        assert(s.push(x).drop_first() =~= Seq::<MarkerExpr>::empty());
        assert(models(Seq::<MarkerExpr>::empty()) =~= Seq::<MarkerModel>::empty());
        assert(s.push(x)[0] == x);
        assert(models(s.push(x)) =~= seq![model(x)]);
    } else {
        assert(s.push(x).drop_first() =~= s.drop_first().push(x));
        lemma_models_push(s.drop_first(), x);
        assert(models(s.push(x)) =~= models(s).push(model(x)));
    }
}

pub proof fn lemma_models_len(s: Seq<MarkerExpr>)
    ensures
        models(s).len() == s.len(),
    decreases s.len(),
{
    if s.len() > 0 {
        lemma_models_len(s.drop_first());
    }
}

fn operand_at(t: &Vec<Token>, pos: usize, vars: &Vec<Vec<char>>) -> (r: Option<Vec<char>>)
    requires
        views(vars@) == marker_variables(),
    ensures
        match (r, p_operand(tok_views(t@), pos as int)) {
            (Some(a), Some(b)) => a@ == b,
            (None, None) => true,
            _ => false,
        },
        r is Some ==> pos < t.len(),
{
    if pos >= t.len() {
        return None;
    }
    assert(tok_views(t@)[pos as int] == t@[pos as int]@);
    match &t[pos] {
        Token::Str(h) => Some(slice(h, 0, h.len())),
        Token::Ident(h) => if one_of(h, vars) {
            Some(slice(h, 0, h.len()))
        } else {
            None
        },
        _ => None,
    }
}

fn operator_at(t: &Vec<Token>, pos: usize, ops: &Vec<Vec<char>>) -> (r: Option<(Vec<char>, usize)>)
    requires
        views(ops@) == marker_operators(),
    ensures
        r matches Some(found) ==> found.1 <= t.len(),
        match (r, p_operator(tok_views(t@), pos as int)) {
            (Some(a), Some(b)) => a.0@ == b.0 && a.1 == b.1,
            (None, None) => true,
            _ => false,
        },
{
    if pos >= t.len() {
        return None;
    }
    assert(tok_views(t@)[pos as int] == t@[pos as int]@);
    let in_word = vec!['i', 'n'];
    let not_word = vec!['n', 'o', 't'];
    assert(in_word@ =~= seq!['i', 'n']);
    assert(not_word@ =~= seq!['n', 'o', 't']);
    match &t[pos] {
        Token::Op(o) => if one_of(o, ops) {
            Some((slice(o, 0, o.len()), pos + 1))
        } else {
            None
        },
        Token::Ident(w) => if same(w, &in_word) {
            Some((in_word, pos + 1))
        } else if same(w, &not_word) {
            if pos + 1 < t.len() {
                assert(tok_views(t@)[pos + 1] == t@[pos + 1]@);
                match &t[pos + 1] {
                    Token::Ident(w2) => if same(w2, &in_word) {
                        let r = vec!['n', 'o', 't', ' ', 'i', 'n'];
                        assert(r@ =~= seq!['n', 'o', 't', ' ', 'i', 'n']);
                        Some((r, pos + 2))
                    } else {
                        None
                    },
                    _ => None,
                }
            } else {
                None
            }
        } else {
            None
        },
        _ => None,
    }
}

/// The shared state of a reading: the tokens and the words it compares them with.
struct Reader {
    tokens: Vec<Token>,
    vars: Vec<Vec<char>>,
    ops: Vec<Vec<char>>,
}

impl Reader {
    spec fn wf(&self) -> bool {
        &&& views(self.vars@) == marker_variables()
        &&& views(self.ops@) == marker_operators()
    }

    spec fn t(&self) -> Seq<TokView> {
        tok_views(self.tokens@)
    }

    fn operand_error(&self, pos: usize) -> (m: String)
        ensures
            m@ == e_operand(self.t(), pos as int),
    {
        if pos < self.tokens.len() {
            assert(self.t()[pos as int] == self.tokens@[pos as int]@);
            if let Token::Ident(h) = &self.tokens[pos] {
                return message("`", h, "` is no marker variable, and a value is quoted");
            }
        }
        string_of(&chars_of("Expected a quoted value or a marker variable"))
    }

    fn operator_error(&self, pos: usize) -> (m: String)
        ensures
            m@ == e_operator(self.t(), pos as int),
    {
        if pos < self.tokens.len() {
            assert(self.t()[pos as int] == self.tokens@[pos as int]@);
            let not_word = vec!['n', 'o', 't'];
            assert(not_word@ =~= seq!['n', 'o', 't']);
            match &self.tokens[pos] {
                Token::Op(o) => {
                    return message("`", o, "` is no marker operator");
                },
                Token::Ident(w) => if same(w, &not_word) {
                    return string_of(&chars_of("Expected 'in' after 'not'"));
                },
                _ => {},
            }
        }
        string_of(&chars_of("Expected operator"))
    }

    fn comparison(&self, pos: usize) -> (r: Result<(MarkerExpr, usize), String>)
        requires
            self.wf(),
            pos <= self.tokens.len(),
        ensures
            r is Ok <==> p_comparison(self.t(), pos as int) is Some,
            r matches Ok(found) ==> p_comparison(self.t(), pos as int) == Some((model(found.0), found.1 as int)),
            r matches Err(m) ==> m@ == e_comparison(self.t(), pos as int),
    {
        let left = match operand_at(&self.tokens, pos, &self.vars) {
            Some(l) => l,
            None => {
                return Err(self.operand_error(pos));
            },
        };
        let (op, p) = match operator_at(&self.tokens, pos + 1, &self.ops) {
            Some(found) => found,
            None => {
                return Err(self.operator_error(pos + 1));
            },
        };
        let right = match operand_at(&self.tokens, p, &self.vars) {
            Some(r) => r,
            None => {
                return Err(self.operand_error(p));
            },
        };
        Ok(
            (
                MarkerExpr::Comparison {
                    left: string_of(&left),
                    op: string_of(&op),
                    right: string_of(&right),
                },
                p + 1,
            ),
        )
    }

    fn atom(&self, pos: usize) -> (r: Result<(MarkerExpr, usize), String>)
        requires
            self.wf(),
            pos <= self.tokens.len(),
        ensures
            r is Ok <==> p_atom(self.t(), pos as int) is Some,
            r matches Ok(found) ==> p_atom(self.t(), pos as int) == Some((model(found.0), found.1 as int)),
            r matches Err(m) ==> m@ == e_atom(self.t(), pos as int),
        decreases self.tokens.len() - pos, 0int,
    {
        let opens = pos < self.tokens.len() && match &self.tokens[pos] {
            Token::LParen => true,
            _ => false,
        };
        assert(pos < self.tokens.len() ==> self.t()[pos as int] == self.tokens@[pos as int]@);
        if opens {
            let (e, p1) = self.or(pos + 1)?;
            let closes = p1 < self.tokens.len() && match &self.tokens[p1] {
                Token::RParen => true,
                _ => false,
            };
            assert(p1 < self.tokens.len() ==> self.t()[p1 as int] == self.tokens@[p1 as int]@);
            if closes {
                let ghost m = model(e);
                let boxed = Box::new(e);
                assert(model(MarkerExpr::Paren(boxed)) == MarkerModel::Paren(Box::new(m)));
                Ok((MarkerExpr::Paren(boxed), p1 + 1))
            } else {
                Err(string_of(&chars_of("Expected ')'")))
            }
        } else {
            self.comparison(pos)
        }
    }

    fn and(&self, pos: usize) -> (r: Result<(MarkerExpr, usize), String>)
        requires
            self.wf(),
            pos <= self.tokens.len(),
        ensures
            r is Ok <==> p_and(self.t(), pos as int) is Some,
            r matches Ok(found) ==> p_and(self.t(), pos as int) == Some((model(found.0), found.1 as int)),
            r matches Err(m) ==> m@ == e_and(self.t(), pos as int),
        decreases self.tokens.len() - pos, 1int,
    {
        let (e, p1) = self.atom(pos)?;
        proof {
            lemma_atom_advances(self.t(), pos as int);
        }
        let mut rest: Vec<MarkerExpr> = Vec::new();
        let mut p = p1;
        assert(models(rest@) =~= Seq::<MarkerModel>::empty());
        assert(and_rest(self.t(), p1 as int) == tokens_rest(
            models(rest@),
            and_rest(self.t(), p as int),
        )) by {
            match and_rest(self.t(), p1 as int) {
                Some(x) => {
                    assert(Seq::<MarkerModel>::empty() + x.0 =~= x.0);
                },
                None => {},
            }
        }
        loop
            invariant
                self.wf(),
                pos < p1 <= p <= self.tokens.len(),
                p_atom(self.t(), pos as int) == Some((model(e), p1 as int)),
                and_rest(self.t(), p1 as int) == tokens_rest(
                    models(rest@),
                    and_rest(self.t(), p as int),
                ),
                e_and(self.t(), pos as int) == e_and_rest(self.t(), p as int),
            ensures
                and_rest(self.t(), p as int) == Some((Seq::<MarkerModel>::empty(), p as int)),
            decreases self.tokens.len() - p,
        {
            let more = p < self.tokens.len() && match &self.tokens[p] {
                Token::And => true,
                _ => false,
            };
            assert(p < self.tokens.len() ==> self.t()[p as int] == self.tokens@[p as int]@);
            if !more {
                break;
            }
            let (e2, q) = self.atom(p + 1)?;
            proof {
                lemma_atom_advances(self.t(), p + 1);
            }
            let ghost before = rest@;
            rest.push(e2);
            proof {
                lemma_models_push(before, e2);
                assert(rest@ == before.push(e2));
                match and_rest(self.t(), q as int) {
                    Some(x) => {
                        assert(models(before) + (seq![model(e2)] + x.0) =~= models(rest@) + x.0);
                    },
                    None => {},
                }
            }
            p = q;
        }
        if rest.len() == 0 {
            assert(models(rest@) + Seq::<MarkerModel>::empty() =~= Seq::<MarkerModel>::empty());
            return Ok((e, p));
        }
        let mut all: Vec<MarkerExpr> = Vec::new();
        all.push(e);
        let ghost items = rest@;
        all.append(&mut rest);
        proof {
            lemma_models_len(all@);
            assert(all@.drop_first() =~= items);
            assert(models(all@) =~= seq![model(e)] + models(items));
            assert(models(items) + Seq::<MarkerModel>::empty() =~= models(items));
        }
        Ok((MarkerExpr::And(all), p))
    }

    fn or(&self, pos: usize) -> (r: Result<(MarkerExpr, usize), String>)
        requires
            self.wf(),
            pos <= self.tokens.len(),
        ensures
            r is Ok <==> p_or(self.t(), pos as int) is Some,
            r matches Ok(found) ==> p_or(self.t(), pos as int) == Some((model(found.0), found.1 as int)),
            r matches Err(m) ==> m@ == e_or(self.t(), pos as int),
        decreases self.tokens.len() - pos, 3int,
    {
        let (e, p1) = self.and(pos)?;
        proof {
            lemma_and_advances(self.t(), pos as int);
        }
        let mut rest: Vec<MarkerExpr> = Vec::new();
        let mut p = p1;
        assert(models(rest@) =~= Seq::<MarkerModel>::empty());
        assert(or_rest(self.t(), p1 as int) == tokens_rest(
            models(rest@),
            or_rest(self.t(), p as int),
        )) by {
            match or_rest(self.t(), p1 as int) {
                Some(x) => {
                    assert(Seq::<MarkerModel>::empty() + x.0 =~= x.0);
                },
                None => {},
            }
        }
        loop
            invariant
                self.wf(),
                pos < p1 <= p <= self.tokens.len(),
                p_and(self.t(), pos as int) == Some((model(e), p1 as int)),
                or_rest(self.t(), p1 as int) == tokens_rest(
                    models(rest@),
                    or_rest(self.t(), p as int),
                ),
                e_or(self.t(), pos as int) == e_or_rest(self.t(), p as int),
            ensures
                or_rest(self.t(), p as int) == Some((Seq::<MarkerModel>::empty(), p as int)),
            decreases self.tokens.len() - p,
        {
            let more = p < self.tokens.len() && match &self.tokens[p] {
                Token::Or => true,
                _ => false,
            };
            assert(p < self.tokens.len() ==> self.t()[p as int] == self.tokens@[p as int]@);
            if !more {
                break;
            }
            let (e2, q) = self.and(p + 1)?;
            proof {
                lemma_and_advances(self.t(), p + 1);
            }
            let ghost before = rest@;
            rest.push(e2);
            proof {
                lemma_models_push(before, e2);
                assert(rest@ == before.push(e2));
                match or_rest(self.t(), q as int) {
                    Some(x) => {
                        assert(models(before) + (seq![model(e2)] + x.0) =~= models(rest@) + x.0);
                    },
                    None => {},
                }
            }
            p = q;
        }
        if rest.len() == 0 {
            assert(models(rest@) + Seq::<MarkerModel>::empty() =~= Seq::<MarkerModel>::empty());
            return Ok((e, p));
        }
        let mut all: Vec<MarkerExpr> = Vec::new();
        all.push(e);
        let ghost items = rest@;
        all.append(&mut rest);
        proof {
            lemma_models_len(all@);
            assert(all@.drop_first() =~= items);
            assert(models(all@) =~= seq![model(e)] + models(items));
            assert(models(items) + Seq::<MarkerModel>::empty() =~= models(items));
        }
        Ok((MarkerExpr::Or(all), p))
    }
}

/// A copy of the marker, holding what it holds.
fn copy_marker(e: &MarkerExpr) -> (r: MarkerExpr)
    ensures
        model(r) == model(*e),
    decreases e,
{
    match e {
        MarkerExpr::And(v) => MarkerExpr::And(copy_markers(e, v)),
        MarkerExpr::Or(v) => MarkerExpr::Or(copy_markers(e, v)),
        MarkerExpr::Comparison { left, op, right } => MarkerExpr::Comparison {
            left: left.clone(),
            op: op.clone(),
            right: right.clone(),
        },
        MarkerExpr::Paren(b) => {
            let inner = copy_marker(b);
            let ghost m = model(inner);
            let boxed = Box::new(inner);
            assert(model(MarkerExpr::Paren(boxed)) == MarkerModel::Paren(Box::new(m)));
            MarkerExpr::Paren(boxed)
        },
    }
}

/// A copy of each marker of a group, which `parent` holds.
fn copy_markers(parent: &MarkerExpr, v: &Vec<MarkerExpr>) -> (r: Vec<MarkerExpr>)
    requires
        (parent matches MarkerExpr::And(w) && w == *v) || (parent matches MarkerExpr::Or(w) && w == *v),
    ensures
        models(r@) == models(v@),
    decreases parent, 0int,
{
    let mut out: Vec<MarkerExpr> = Vec::new();
    let mut i: usize = 0;
    assert(models(out@) =~= models(v@.take(0)));
    while i < v.len()
        invariant
            i <= v.len(),
            models(out@) == models(v@.take(i as int)),
            (parent matches MarkerExpr::And(w) && w == *v) || (parent matches MarkerExpr::Or(w)
                && w == *v),
        decreases v.len() - i,
    {
        assert(decreases_to!(*parent => v@[i as int]));
        let c = copy_marker(&v[i]);
        let ghost before = out@;
        out.push(c);
        proof {
            lemma_models_push(before, c);
            lemma_models_push(v@.take(i as int), v@[i as int]);
            assert(v@.take(i + 1) =~= v@.take(i as int).push(v@[i as int]));
        }
        i += 1;
    }
    assert(v@.take(v.len() as int) =~= v@);
    out
}

impl Clone for MarkerExpr {
    fn clone(&self) -> (r: Self)
        ensures
            model(r) == model(*self),
    {
        copy_marker(self)
    }
}

/// The markers read so far in front of the ones a further reading adds.
pub open spec fn tokens_rest(done: Seq<MarkerModel>, rest: Option<(Seq<MarkerModel>, int)>) -> Option<
    (Seq<MarkerModel>, int),
> {
    match rest {
        Some((es, p)) => Some((done + es, p)),
        None => None,
    }
}

fn count_groups(t: &Vec<Token>) -> (r: usize)
    ensures
        r == groups(tok_views(t@)),
{
    let mut n: usize = 0;
    let mut i: usize = 0;
    while i < t.len()
        invariant
            i <= t.len(),
            n == groups(tok_views(t@).take(i as int)),
            n <= i,
        decreases t.len() - i,
    {
        let opens = match &t[i] {
            Token::LParen => true,
            _ => false,
        };
        assert(tok_views(t@).take(i + 1).drop_last() =~= tok_views(t@).take(i as int));
        assert(tok_views(t@).take(i + 1).last() == t@[i as int]@);
        if opens {
            n += 1;
        }
        i += 1;
    }
    assert(tok_views(t@).take(i as int) =~= tok_views(t@));
    n
}

impl MarkerExpr {
    /// Read a marker.
    ///
    /// # Errors
    ///
    /// Returns why the text is not a marker the grammar reads: a character no token starts with, a
    /// quote never closed, more groups than [`GROUPS`], or tokens the grammar does not read whole.
    pub fn new(input: &str) -> (r: Result<Self, String>)
        ensures
            r is Ok <==> marker_of(input@) is Some,
            r matches Ok(e) ==> model(e) == marker_of(input@)->0,
            r matches Err(m) ==> m@ == marker_error(input@),
    {
        Self::from_chars(&chars_of(input))
    }

    pub(crate) fn from_chars(input: &Vec<char>) -> (r: Result<Self, String>)
        ensures
            r is Ok <==> marker_of(input@) is Some,
            r matches Ok(e) ==> model(e) == marker_of(input@)->0,
            r matches Err(m) ==> m@ == marker_error(input@),
    {
        let tokens = tokenize(input)?;
        // the reader reads a group by calling itself, and the tree it builds is read and dropped
        // the same way, so a marker nested past this says more than the machine can hold
        if count_groups(&tokens) > GROUPS {
            return Err(string_of(&chars_of("The marker groups more than 256 times")));
        }
        let reader = Reader { tokens, vars: variable_list(), ops: operator_list() };
        let (expr, p) = reader.or(0)?;
        if p != reader.tokens.len() {
            return Err(string_of(&chars_of("Unexpected trailing tokens")));
        }
        Ok(expr)
    }
}


pub proof fn lemma_models_index(s: Seq<MarkerExpr>, i: int)
    requires
        0 <= i < s.len(),
    ensures
        models(s).len() == s.len(),
        models(s)[i] == model(s[i]),
    decreases s.len(),
{
    lemma_models_len(s);
    if i > 0 {
        lemma_models_index(s.drop_first(), i - 1);
    }
}

/// A value written in the quote it does not hold: PEP 508 has no escape for the quote that closes
/// a value, so a value holding `'` is written in `"`, and every other one in `'`.
pub open spec fn requote(r: Seq<char>) -> Seq<char> {
    if r.len() >= 2 && ((r[0] == '"' && r.last() == '"') || (r[0] == '\'' && r.last() == '\'')) {
        let inner = r.subrange(1, r.len() - 1);
        if inner.contains('\'') {
            seq!['"'] + inner + seq!['"']
        } else {
            seq!['\''] + inner + seq!['\'']
        }
    } else {
        r
    }
}

/// The marker written in one form: comparisons without spaces around the operator but for `in`
/// and `not in`, values in the quote they do not hold, and `and` and `or` between spaces.
pub open spec fn written(m: MarkerModel) -> Seq<char>
    decreases m,
{
    match m {
        MarkerModel::And(es) => written_list(es, seq![' ', 'a', 'n', 'd', ' ']),
        MarkerModel::Or(es) => written_list(es, seq![' ', 'o', 'r', ' ']),
        MarkerModel::Comparison(l, op, r) => if op == seq!['i', 'n'] || op == seq![
            'n',
            'o',
            't',
            ' ',
            'i',
            'n',
        ] {
            l + seq![' '] + op + seq![' '] + requote(r)
        } else {
            l + op + requote(r)
        },
        MarkerModel::Paren(b) => seq!['('] + written(*b) + seq![')'],
    }
}

/// The markers written one after the other with `sep` between each two.
pub open spec fn written_list(es: Seq<MarkerModel>, sep: Seq<char>) -> Seq<char>
    decreases es,
{
    if es.len() == 0 {
        seq![]
    } else if es.len() == 1 {
        written(es[0])
    } else {
        written_list(es.drop_last(), sep) + sep + written(es.last())
    }
}

fn requote_chars(r: &Vec<char>) -> (out: Vec<char>)
    ensures
        out@ == requote(r@),
{
    let n = r.len();
    if n >= 2 && ((r[0] == '"' && r[n - 1] == '"') || (r[0] == '\'' && r[n - 1] == '\'')) {
        let inner = slice(r, 1, n - 1);
        let q = if crate::text::holds_char(&inner, '\'') {
            '"'
        } else {
            '\''
        };
        let mut out = vec![q];
        push_all(&mut out, &inner);
        out.push(q);
        assert(out@ =~= requote(r@));
        out
    } else {
        let out = slice(r, 0, n);
        assert(out@ =~= r@);
        out
    }
}

impl MarkerExpr {
    fn list_chars(v: &Vec<MarkerExpr>, sep: &Vec<char>) -> (out: Vec<char>)
        ensures
            out@ == written_list(models(v@), sep@),
        decreases v,
    {
        let mut out: Vec<char> = Vec::new();
        let mut i: usize = 0;
        proof {
            lemma_models_len(v@);
        }
        while i < v.len()
            invariant
                i <= v.len(),
                models(v@).len() == v@.len(),
                out@ == written_list(models(v@).take(i as int), sep@),
            decreases v.len() - i,
        {
            proof {
                lemma_models_index(v@, i as int);
                assert(decreases_to!(v => v@[i as int]));
            }
            let piece = v[i].written_chars();
            let ghost prev = models(v@).take(i as int);
            if i > 0 {
                push_all(&mut out, sep);
            }
            push_all(&mut out, &piece);
            i += 1;
            proof {
                let cur = models(v@).take(i as int);
                assert(cur.drop_last() =~= prev);
                assert(cur.last() == model(v@[i - 1]));
                if i == 1 {
                    assert(cur.len() == 1);
                }
            }
        }
        assert(models(v@).take(i as int) =~= models(v@));
        out
    }

    /// The marker written in one form, as characters.
    pub fn written_chars(&self) -> (out: Vec<char>)
        ensures
            out@ == written(model(*self)),
        decreases self,
    {
        match self {
            MarkerExpr::And(v) => {
                let sep = vec![' ', 'a', 'n', 'd', ' '];
                assert(sep@ =~= seq![' ', 'a', 'n', 'd', ' ']);
                Self::list_chars(v, &sep)
            },
            MarkerExpr::Or(v) => {
                let sep = vec![' ', 'o', 'r', ' '];
                assert(sep@ =~= seq![' ', 'o', 'r', ' ']);
                Self::list_chars(v, &sep)
            },
            MarkerExpr::Comparison { left, op, right } => {
                let l = chars_of(left.as_str());
                let o = chars_of(op.as_str());
                let r = requote_chars(&chars_of(right.as_str()));
                let in_word = vec!['i', 'n'];
                let not_in = vec!['n', 'o', 't', ' ', 'i', 'n'];
                assert(in_word@ =~= seq!['i', 'n']);
                assert(not_in@ =~= seq!['n', 'o', 't', ' ', 'i', 'n']);
                let spaced = same(&o, &in_word) || same(&o, &not_in);
                let mut out = l;
                if spaced {
                    out.push(' ');
                    push_all(&mut out, &o);
                    out.push(' ');
                } else {
                    push_all(&mut out, &o);
                }
                push_all(&mut out, &r);
                out
            },
            MarkerExpr::Paren(b) => {
                let inner = b.written_chars();
                let mut out = vec!['('];
                push_all(&mut out, &inner);
                out.push(')');
                out
            },
        }
    }

    /// The marker written in one form.
    pub fn to_string(&self) -> (r: String)
        ensures
            r@ == written(model(*self)),
    {
        string_of(&self.written_chars())
    }
}

} // verus!
