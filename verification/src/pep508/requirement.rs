//! A dependency specifier: the distribution it names, the extras it asks for, the versions or the
//! direct reference it pins it to, and the marker that says where it applies.

use vstd::prelude::*;
use crate::pep508::marker::{MarkerExpr, MarkerModel, marker_error, marker_of, model, written};
use crate::pep508::version::{is_sep, message};
use crate::pep508::version_op::{
    VersionOp, VersionOpView, op_written, shortened, version_op_error, version_op_of,
};
use crate::text::{
    lex_le, lex_le_exec,
    chars_of, find_char, holds_char, index_of, is_alnum, is_ascii_alnum, is_whitespace, is_ws, join,
    lemma_index_of, lower, lower_all, lowered, push_all, slice, split, split_on, string_of, trim,
    trim_end, trimmed, trimmed_end, views,
};

verus! {

/// Whether the text names a distribution the way PEP 508 spells one: letters, digits and the
/// separators between them, opening and closing on one of the first two.
pub open spec fn distribution_name(name: Seq<char>) -> bool {
    &&& name.len() > 0
    &&& is_alnum(name[0])
    &&& is_alnum(name.last())
    &&& forall|i: int| 0 <= i < name.len() ==> name_char(#[trigger] name[i])
}

/// A character a distribution name is written in.
pub open spec fn name_char(c: char) -> bool {
    is_alnum(c) || c == '.' || c == '_' || c == '-'
}

/// Whether the text names a distribution the way PEP 508 spells one.
pub fn names_a_distribution(name: &str) -> (r: bool)
    ensures
        r == distribution_name(name@),
{
    names_chars(&chars_of(name))
}

fn names_chars(name: &Vec<char>) -> (r: bool)
    ensures
        r == distribution_name(name@),
{
    let n = name.len();
    if n == 0 || !is_ascii_alnum(name[0]) || !is_ascii_alnum(name[n - 1]) {
        return false;
    }
    let mut i: usize = 0;
    while i < n
        invariant
            i <= n == name.len(),
            forall|k: int| 0 <= k < i ==> name_char(#[trigger] name@[k]),
        decreases n - i,
    {
        let c = name[i];
        if !(is_ascii_alnum(c) || c == '.' || c == '_' || c == '-') {
            assert(!name_char(name@[i as int]));
            return false;
        }
        i += 1;
    }
    true
}

/// Where the semicolon that opens an environment marker sits, from `i` on: the first one with no
/// `@` before it, or with white space just before it. A URL holds no white space and may hold a
/// semicolon of its own, so what separates a direct reference from its marker is the space PEP 508
/// writes before it.
pub open spec fn marker_break_from(s: Seq<char>, i: int) -> Option<int>
    decreases s.len() - i,
{
    if i < 0 || i >= s.len() {
        None
    } else if s[i] == ';' && (!s.take(i).contains('@') || (i > 0 && is_ws(s[i - 1]))) {
        Some(i)
    } else {
        marker_break_from(s, i + 1)
    }
}

fn marker_break(s: &Vec<char>) -> (r: Option<usize>)
    ensures
        match (r, marker_break_from(s@, 0)) {
            (Some(a), Some(b)) => a == b,
            (None, None) => true,
            _ => false,
        },
        r matches Some(at) ==> at < s.len(),
{
    let mut i: usize = 0;
    let mut seen_at = false;
    while i < s.len()
        invariant
            i <= s.len(),
            seen_at == s@.take(i as int).contains('@'),
            marker_break_from(s@, 0) == marker_break_from(s@, i as int),
        decreases s.len() - i,
    {
        if s[i] == ';' && (!seen_at || (i > 0 && is_whitespace(s[i - 1]))) {
            return Some(i);
        }
        proof {
            assert(s@.take(i + 1) =~= s@.take(i as int).push(s@[i as int]));
            if s@[i as int] == '@' {
                assert(s@.take(i + 1)[i as int] == '@');
            }
            if s@.take(i + 1).contains('@') && s@[i as int] != '@' {
                let k = choose|k: int| 0 <= k < s@.take(i + 1).len() && #[trigger] s@.take(i + 1)[k] == '@';
                assert(s@.take(i as int)[k] == '@');
            }
        }
        if s[i] == '@' {
            seen_at = true;
        }
        i += 1;
    }
    None
}

/// Where the first character that ends a name stands: one a version clause opens with.
pub open spec fn name_end_from(s: Seq<char>, i: int) -> int
    decreases s.len() - i,
{
    if i < 0 || i >= s.len() {
        s.len() as int
    } else if s[i] == '=' || s[i] == '!' || s[i] == '<' || s[i] == '>' || s[i] == '~' || s[i]
        == '(' {
        i
    } else {
        name_end_from(s, i + 1)
    }
}

proof fn lemma_name_end(s: Seq<char>, i: int)
    requires
        0 <= i <= s.len(),
    ensures
        i <= name_end_from(s, i) <= s.len(),
    decreases s.len() - i,
{
    if i < s.len() && !(s[i] == '=' || s[i] == '!' || s[i] == '<' || s[i] == '>' || s[i] == '~'
        || s[i] == '(') {
        lemma_name_end(s, i + 1);
    }
}

fn name_end(s: &Vec<char>) -> (r: usize)
    ensures
        r == name_end_from(s@, 0),
        r <= s.len(),
{
    proof {
        lemma_name_end(s@, 0);
    }
    let mut i: usize = 0;
    while i < s.len() && !(s[i] == '=' || s[i] == '!' || s[i] == '<' || s[i] == '>' || s[i] == '~'
        || s[i] == '(')
        invariant
            i <= s.len(),
            name_end_from(s@, 0) == name_end_from(s@, i as int),
        decreases s.len() - i,
    {
        i += 1;
    }
    i
}

/// Whether the text ends with `c`.
pub open spec fn ends_with(s: Seq<char>, c: char) -> bool {
    s.len() > 0 && s.last() == c
}

/// The clauses a requirement names, with the parentheses PEP 508 allows around them: a parenthesis
/// opens a list and the matching one closes it, a list may close with a comma, and a lone one is
/// text this does not read.
pub open spec fn specifiers_of(text: Seq<char>) -> Option<Seq<VersionOpView>> {
    match list_text(text) {
        None => None,
        Some(inside) => if inside.len() == 0 || inside.contains('(') || inside.contains(')') {
            None
        } else {
            let pieces = split_on(inside, ',');
            if forall|i: int| 0 <= i < pieces.len() ==> version_op_of(#[trigger] pieces[i]) is Some {
                Some(pieces.map_values(|p: Seq<char>| version_op_of(p)->0))
            } else {
                None
            }
        },
    }
}

/// The text of the clause list: inside its parentheses where it opens with one, without a comma
/// closing it, or `None` where a parenthesis opens and never closes.
pub open spec fn list_text(text: Seq<char>) -> Option<Seq<char>> {
    let opened = text.len() > 0 && text[0] == '(';
    let body = if opened {
        text.skip(1)
    } else {
        text
    };
    if opened && !ends_with(body, ')') {
        None
    } else {
        let inner = if opened {
            trim(body.drop_last())
        } else {
            body
        };
        Some(
            if ends_with(inner, ',') {
                trim_end(inner.drop_last())
            } else {
                inner
            },
        )
    }
}

/// What a requirement pins a distribution to, as plain text.
pub enum PinView {
    Versions(Seq<VersionOpView>),
    Url(Seq<char>),
}

/// What a requirement holds, as plain text.
pub struct RequirementView {
    pub name: Seq<char>,
    pub extras: Seq<Seq<char>>,
    pub version_or_url: Option<PinView>,
    pub marker: Option<MarkerModel>,
}

/// The extras written between brackets: none where the brackets hold nothing, otherwise each piece
/// between commas, trimmed.
pub open spec fn extras_of(inside: Seq<char>) -> Seq<Seq<char>> {
    if inside.len() == 0 {
        seq![]
    } else {
        split_on(inside, ',').map_values(|p: Seq<char>| trim(p))
    }
}

/// What the text before the `@` or the marker holds: the name, the extras, and the constraints
/// written after them, or `None` where brackets open and never close or hold something that is not
/// an extra.
pub open spec fn head_of(req: Seq<char>) -> Option<(Seq<char>, Seq<Seq<char>>, Seq<char>)> {
    let lb = index_of(req, '[', 0);
    if lb < req.len() {
        let rb = index_of(req, ']', lb);
        if rb >= req.len() {
            None
        } else {
            let extras = extras_of(trim(req.subrange(lb + 1, rb)));
            if forall|i: int| 0 <= i < extras.len() ==> distribution_name(#[trigger] extras[i]) {
                Some((req.take(lb), extras, trim(req.skip(rb + 1))))
            } else {
                None
            }
        }
    } else {
        let e = name_end_from(req, 0);
        Some((req.take(e), seq![], trim(req.skip(e))))
    }
}

/// What the text after the `@` of a direct reference names, which is a URL: text with no white
/// space in it, and not nothing.
pub open spec fn url_of(rest: Seq<char>) -> Option<Seq<char>> {
    let url = trim(rest);
    if (exists|i: int| 0 <= i < url.len() && is_ws(#[trigger] url[i])) || url.len() == 0 {
        None
    } else {
        Some(url)
    }
}

/// The requirement the text spells, read the way [`Requirement::new`] reads it: on one line, the
/// name and any extras, then the versions or the direct reference, then the marker. Text this does
/// not read whole is no requirement.
pub open spec fn requirement_of(raw: Seq<char>) -> Option<RequirementView> {
    if raw.contains('\n') || raw.contains('\r') {
        None
    } else {
        let mb = marker_break_from(raw, 0);
        let raw_req = match mb {
            Some(at) => raw.take(at),
            None => raw,
        };
        let at_idx = index_of(raw_req, '@', 0);
        let has_url = at_idx < raw_req.len();
        let req_part = if has_url {
            raw_req.take(at_idx)
        } else {
            raw_req
        };
        match head_of(req_part) {
            None => None,
            Some((name_raw, extras, constraints)) => {
                let name = trim(name_raw);
                let pin: Option<Option<PinView>> = if has_url {
                    if constraints.len() > 0 {
                        None
                    } else {
                        match url_of(raw_req.skip(at_idx + 1)) {
                            Some(u) => Some(Some(PinView::Url(u))),
                            None => None,
                        }
                    }
                } else if constraints.len() == 0 {
                    Some(None)
                } else {
                    match specifiers_of(constraints) {
                        Some(vs) => Some(Some(PinView::Versions(vs))),
                        None => None,
                    }
                };
                let marker: Option<Option<MarkerModel>> = match mb {
                    Some(at) => match marker_of(trim(raw.skip(at + 1))) {
                        Some(m) => Some(Some(m)),
                        None => None,
                    },
                    None => Some(None),
                };
                if !distribution_name(name) || pin is None || marker is None {
                    None
                } else {
                    Some(
                        RequirementView {
                            name,
                            extras,
                            version_or_url: pin->0,
                            marker: marker->0,
                        },
                    )
                }
            },
        }
    }
}


/// Why the text before the `@` or the marker has no head: brackets that open and never close, or
/// that hold something that is not an extra.
pub open spec fn head_error(req: Seq<char>) -> Seq<char> {
    let lb = index_of(req, '[', 0);
    let rb = index_of(req, ']', lb);
    if rb >= req.len() {
        "Unclosed extras bracket"@
    } else {
        "Invalid extras: '"@ + req.subrange(lb, rb + 1) + "'"@
    }
}

/// Why the text after the `@` names no URL: white space in it, or nothing.
pub open spec fn url_error(rest: Seq<char>) -> Seq<char> {
    let url = trim(rest);
    if exists|i: int| 0 <= i < url.len() && is_ws(#[trigger] url[i]) {
        "Unexpected text after the URL: '"@ + url + "'"@
    } else {
        "The direct reference names no URL"@
    }
}

/// Where the first piece from `i` on that is no clause stands, or the end where every one is.
pub open spec fn first_bad_clause(pieces: Seq<Seq<char>>, i: int) -> int
    decreases pieces.len() - i,
{
    if i < 0 || i >= pieces.len() {
        pieces.len() as int
    } else if version_op_of(pieces[i]) is None {
        i
    } else {
        first_bad_clause(pieces, i + 1)
    }
}

/// Why the text names no clauses: a parenthesis that never closes, a list that holds none or
/// holds a parenthesis of its own, or the first piece that is no clause and why.
pub open spec fn specifiers_error(text: Seq<char>) -> Seq<char> {
    match list_text(text) {
        None => "Unclosed parenthesis: '"@ + text + "'"@,
        Some(inside) => if inside.len() == 0 || inside.contains('(') || inside.contains(')') {
            "The requirement names no version: '"@ + text + "'"@
        } else {
            let pieces = split_on(inside, ',');
            let bad = pieces[first_bad_clause(pieces, 0)];
            "Invalid version specifier '"@ + bad + "': "@ + version_op_error(bad)
        },
    }
}

/// What [`Requirement::new`] answers text that is no requirement: the first thing it finds wrong,
/// reading the line, then the head, the name, the versions or the direct reference, and the
/// marker.
pub open spec fn requirement_error(raw: Seq<char>) -> Seq<char> {
    if raw.contains('\n') || raw.contains('\r') {
        "A requirement is written on one line"@
    } else {
        let mb = marker_break_from(raw, 0);
        let raw_req = match mb {
            Some(at) => raw.take(at),
            None => raw,
        };
        let at_idx = index_of(raw_req, '@', 0);
        let has_url = at_idx < raw_req.len();
        let req_part = if has_url {
            raw_req.take(at_idx)
        } else {
            raw_req
        };
        match head_of(req_part) {
            None => head_error(req_part),
            Some((name_raw, extras, constraints)) => {
                let name = trim(name_raw);
                if !distribution_name(name) {
                    "Invalid name '"@ + name + "'"@
                } else if has_url && constraints.len() > 0 {
                    "The requirement names a version and a URL: '"@ + raw + "'"@
                } else if has_url && url_of(raw_req.skip(at_idx + 1)) is None {
                    url_error(raw_req.skip(at_idx + 1))
                } else if !has_url && constraints.len() > 0 && specifiers_of(constraints) is None {
                    specifiers_error(constraints)
                } else {
                    "Invalid marker: "@ + marker_error(trim(raw.skip(mb->0 + 1)))
                }
            },
        }
    }
}

/// What each string holds.
pub open spec fn string_views(v: Seq<String>) -> Seq<Seq<char>> {
    v.map_values(|x: String| x@)
}

/// What each clause holds.
pub open spec fn op_views(v: Seq<VersionOp>) -> Seq<VersionOpView> {
    v.map_values(|x: VersionOp| x@)
}

fn strings_of(v: &Vec<Vec<char>>) -> (r: Vec<String>)
    ensures
        string_views(r@) == views(v@),
{
    let mut r: Vec<String> = Vec::new();
    let mut i: usize = 0;
    while i < v.len()
        invariant
            i <= v.len(),
            r@.len() == i,
            forall|k: int| 0 <= k < i ==> #[trigger] r@[k]@ == v@[k]@,
        decreases v.len() - i,
    {
        r.push(string_of(&v[i]));
        i += 1;
    }
    assert(string_views(r@) =~= views(v@));
    r
}

fn list_text_of(text: &Vec<char>) -> (r: Option<Vec<char>>)
    ensures
        match (r, list_text(text@)) {
            (Some(a), Some(b)) => a@ == b,
            (None, None) => true,
            _ => false,
        },
{
    let opened = text.len() > 0 && text[0] == '(';
    let body = if opened {
        slice(text, 1, text.len())
    } else {
        slice(text, 0, text.len())
    };
    assert(body@ =~= (if opened {
        text@.skip(1)
    } else {
        text@
    }));
    if opened && !(body.len() > 0 && body[body.len() - 1] == ')') {
        return None;
    }
    let inner = if opened {
        let b = slice(&body, 0, body.len() - 1);
        assert(b@ =~= body@.drop_last());
        trimmed(&b)
    } else {
        body
    };
    // a list may close with a comma, which names no clause of its own
    if inner.len() > 0 && inner[inner.len() - 1] == ',' {
        let b = slice(&inner, 0, inner.len() - 1);
        assert(b@ =~= inner@.drop_last());
        Some(trimmed_end(&b))
    } else {
        Some(inner)
    }
}

#[verifier::loop_isolation(false)]
fn read_specifiers(text: &Vec<char>) -> (r: Result<Vec<VersionOp>, String>)
    ensures
        r is Ok <==> specifiers_of(text@) is Some,
        r matches Ok(v) ==> op_views(v@) == specifiers_of(text@)->0,
        r matches Err(m) ==> m@ == specifiers_error(text@),
{
    let inside = match list_text_of(text) {
        Some(i) => i,
        None => {
            return Err(message("Unclosed parenthesis: '", text, "'"));
        },
    };
    if inside.len() == 0 || holds_char(&inside, '(') || holds_char(&inside, ')') {
        return Err(message("The requirement names no version: '", text, "'"));
    }
    let pieces = split(&inside, ',');
    let ghost want = split_on(inside@, ',');
    let mut out: Vec<VersionOp> = Vec::new();
    let mut i: usize = 0;
    while i < pieces.len()
        invariant
            i <= pieces.len(),
            views(pieces@) == want,
            out@.len() == i,
            forall|k: int| 0 <= k < i ==> version_op_of(#[trigger] want[k]) is Some,
            forall|k: int|
                0 <= k < i ==> #[trigger] out@[k]@ == version_op_of(want[k])->0,
            first_bad_clause(want, 0) == first_bad_clause(want, i as int),
        decreases pieces.len() - i,
    {
        assert(views(pieces@)[i as int] == pieces@[i as int]@);
        match VersionOp::from_chars(&pieces[i]) {
            Ok(op) => {
                out.push(op);
            },
            Err(why) => {
                assert(version_op_of(want[i as int]) is None);
                assert(!(forall|k: int| 0 <= k < want.len() ==> version_op_of(#[trigger] want[k]) is Some));
                let mut m = chars_of("Invalid version specifier '");
                push_all(&mut m, &pieces[i]);
                push_all(&mut m, &chars_of("': "));
                push_all(&mut m, &chars_of(why.as_str()));
                assert(m@ =~= specifiers_error(text@));
                return Err(string_of(&m));
            },
        }
        i += 1;
    }
    assert(op_views(out@) =~= want.map_values(|p: Seq<char>| version_op_of(p)->0));
    Ok(out)
}

fn extras_in(inside: &Vec<char>) -> (r: Vec<Vec<char>>)
    ensures
        views(r@) == extras_of(inside@),
{
    if inside.len() == 0 {
        let r: Vec<Vec<char>> = Vec::new();
        assert(views(r@) =~= Seq::<Seq<char>>::empty());
        return r;
    }
    let pieces = split(inside, ',');
    let mut r: Vec<Vec<char>> = Vec::new();
    let mut i: usize = 0;
    while i < pieces.len()
        invariant
            i <= pieces.len(),
            views(pieces@) == split_on(inside@, ','),
            r@.len() == i,
            forall|k: int| 0 <= k < i ==> #[trigger] r@[k]@ == trim(pieces@[k]@),
        decreases pieces.len() - i,
    {
        r.push(trimmed(&pieces[i]));
        i += 1;
    }
    assert forall|k: int| 0 <= k < r@.len() implies #[trigger] views(r@)[k] == extras_of(
        inside@,
    )[k] by {
        assert(views(pieces@)[k] == pieces@[k]@);
    }
    assert(views(r@) =~= extras_of(inside@));
    r
}

fn all_names(v: &Vec<Vec<char>>) -> (r: bool)
    ensures
        r == forall|i: int| 0 <= i < views(v@).len() ==> distribution_name(#[trigger] views(v@)[i]),
{
    let mut i: usize = 0;
    while i < v.len()
        invariant
            i <= v.len(),
            forall|k: int| 0 <= k < i ==> distribution_name(#[trigger] views(v@)[k]),
        decreases v.len() - i,
    {
        assert(views(v@)[i as int] == v@[i as int]@);
        if !names_chars(&v[i]) {
            return false;
        }
        i += 1;
    }
    true
}

fn head(req: &Vec<char>) -> (r: Result<(Vec<char>, Vec<Vec<char>>, Vec<char>), String>)
    ensures
        r is Ok <==> head_of(req@) is Some,
        r matches Ok(h) ==> head_of(req@) == Some((h.0@, views(h.1@), h.2@)),
        r matches Err(m) ==> m@ == head_error(req@),
{
    let lb = find_char(req, '[', 0);
    if lb < req.len() {
        let rb = find_char(req, ']', lb);
        proof {
            lemma_index_of(req@, '[', 0);
            lemma_index_of(req@, ']', lb as int);
        }
        if rb >= req.len() {
            return Err(string_of(&chars_of("Unclosed extras bracket")));
        }
        let inside = trimmed(&slice(req, lb + 1, rb));
        let extras = extras_in(&inside);
        if !all_names(&extras) {
            return Err(message("Invalid extras: '", &slice(req, lb, rb + 1), "'"));
        }
        let rest = slice(req, rb + 1, req.len());
        assert(rest@ =~= req@.skip(rb + 1));
        let name = slice(req, 0, lb);
        assert(name@ =~= req@.take(lb as int));
        Ok((name, extras, trimmed(&rest)))
    } else {
        let e = name_end(req);
        let rest = slice(req, e, req.len());
        assert(rest@ =~= req@.skip(e as int));
        let name = slice(req, 0, e);
        assert(name@ =~= req@.take(e as int));
        let none: Vec<Vec<char>> = Vec::new();
        assert(views(none@) =~= Seq::<Seq<char>>::empty());
        Ok((name, none, trimmed(&rest)))
    }
}

#[verifier::loop_isolation(false)]
fn url_in(rest: &Vec<char>) -> (r: Result<Vec<char>, String>)
    ensures
        r is Ok <==> url_of(rest@) is Some,
        r matches Ok(u) ==> url_of(rest@) == Some(u@),
        r matches Err(m) ==> m@ == url_error(rest@),
{
    let url = trimmed(rest);
    let mut i: usize = 0;
    while i < url.len()
        invariant
            i <= url.len(),
            forall|k: int| 0 <= k < i ==> !is_ws(#[trigger] url@[k]),
        decreases url.len() - i,
    {
        if is_whitespace(url[i]) {
            assert(is_ws(url@[i as int]));
            return Err(message("Unexpected text after the URL: '", &url, "'"));
        }
        i += 1;
    }
    if url.len() == 0 {
        return Err(string_of(&chars_of("The direct reference names no URL")));
    }
    Ok(url)
}

/// What a requirement pins a distribution to.
#[derive(Debug, Clone, PartialEq, Eq)]
enum VersionOrUrl {
    Versions(Vec<VersionOp>),
    Url(String),
}

spec fn pin_view(p: Option<VersionOrUrl>) -> Option<PinView> {
    match p {
        Some(VersionOrUrl::Versions(v)) => Some(PinView::Versions(op_views(v@))),
        Some(VersionOrUrl::Url(u)) => Some(PinView::Url(u@)),
        None => None,
    }
}

/// A dependency specifier.
#[derive(Debug, PartialEq, Eq)]
pub struct Requirement {
    name: String,
    extras: Vec<String>,
    version_or_url: Option<VersionOrUrl>,
    marker: Option<MarkerExpr>,
}

impl Clone for Requirement {
    fn clone(&self) -> (r: Self)
        ensures
            r@.name == self@.name,
            r@.marker == self@.marker,
    {
        proof {
            use_type_invariant(self);
        }
        let marker = match &self.marker {
            Some(m) => Some(m.clone()),
            None => None,
        };
        Requirement {
            name: self.name.clone(),
            extras: self.extras.clone(),
            version_or_url: self.version_or_url.clone(),
            marker,
        }
    }
}

impl View for Requirement {
    type V = RequirementView;

    closed spec fn view(&self) -> RequirementView {
        RequirementView {
            name: self.name@,
            extras: string_views(self.extras@),
            version_or_url: pin_view(self.version_or_url),
            marker: match self.marker {
                Some(m) => Some(model(m)),
                None => None,
            },
        }
    }
}

/// Each run of separators written as one `-`, which is how PEP 503 compares names.
pub open spec fn collapse_seps(s: Seq<char>) -> Seq<char>
    decreases s.len(),
{
    if s.len() == 0 {
        seq![]
    } else if is_sep(s.last()) {
        if s.len() >= 2 && is_sep(s[s.len() - 2]) {
            collapse_seps(s.drop_last())
        } else {
            collapse_seps(s.drop_last()).push('-')
        }
    } else {
        collapse_seps(s.drop_last()).push(s.last())
    }
}

/// The canonical spelling of a distribution name: small letters, and one `-` for each run of
/// separators.
pub open spec fn canonical_of(name: Seq<char>) -> Seq<char> {
    collapse_seps(lower_all(name))
}

fn canonical_chars(name: &Vec<char>) -> (r: Vec<char>)
    ensures
        r@ == canonical_of(name@),
{
    let t = lowered(name);
    let mut out: Vec<char> = Vec::new();
    let mut i: usize = 0;
    while i < t.len()
        invariant
            i <= t.len(),
            out@ == collapse_seps(t@.take(i as int)),
        decreases t.len() - i,
    {
        let c = t[i];
        let ghost prefix = t@.take(i + 1);
        assert(prefix.drop_last() =~= t@.take(i as int));
        assert(prefix.last() == c);
        if c == '-' || c == '_' || c == '.' {
            if i > 0 && (t[i - 1] == '-' || t[i - 1] == '_' || t[i - 1] == '.') {
                assert(prefix[prefix.len() - 2] == t@[i - 1]);
            } else {
                out.push('-');
            }
        } else {
            out.push(c);
        }
        i += 1;
    }
    assert(t@.take(i as int) =~= t@);
    out
}

/// The text put in front of the first of `s` it does not come after.
pub open spec fn insert_sorted(x: Seq<char>, s: Seq<Seq<char>>) -> Seq<Seq<char>>
    decreases s.len(),
{
    if s.len() == 0 {
        seq![x]
    } else if lex_le(x, s[0]) {
        seq![x] + s
    } else {
        seq![s[0]] + insert_sorted(x, s.drop_first())
    }
}

/// The texts in order.
pub open spec fn sort_seqs(s: Seq<Seq<char>>) -> Seq<Seq<char>>
    decreases s.len(),
{
    if s.len() == 0 {
        seq![]
    } else {
        insert_sorted(s.last(), sort_seqs(s.drop_last()))
    }
}

/// Where `x` goes among `s`: before the first it does not come after.
pub open spec fn insert_at(x: Seq<char>, s: Seq<Seq<char>>, j: int) -> int
    decreases s.len() - j,
{
    if j < 0 || j >= s.len() {
        s.len() as int
    } else if lex_le(x, s[j]) {
        j
    } else {
        insert_at(x, s, j + 1)
    }
}

pub proof fn lemma_insert_sorted(x: Seq<char>, s: Seq<Seq<char>>)
    ensures
        0 <= insert_at(x, s, 0) <= s.len(),
        insert_sorted(x, s) == s.take(insert_at(x, s, 0)) + seq![x] + s.skip(insert_at(x, s, 0)),
    decreases s.len(),
{
    if s.len() == 0 {
        assert(insert_sorted(x, s) =~= s.take(0) + seq![x] + s.skip(0));
    } else if lex_le(x, s[0]) {
        assert(insert_sorted(x, s) =~= s.take(0) + seq![x] + s.skip(0));
    } else {
        lemma_insert_sorted(x, s.drop_first());
        lemma_insert_at_tail(x, s);
        let j = insert_at(x, s.drop_first(), 0);
        assert(insert_sorted(x, s) =~= s.take(j + 1) + seq![x] + s.skip(j + 1));
    }
}

proof fn lemma_insert_at_tail(x: Seq<char>, s: Seq<Seq<char>>)
    requires
        s.len() > 0,
        !lex_le(x, s[0]),
    ensures
        insert_at(x, s, 0) == insert_at(x, s.drop_first(), 0) + 1,
    decreases s.len(),
{
    lemma_insert_at_from(x, s, 1);
}

proof fn lemma_insert_at_from(x: Seq<char>, s: Seq<Seq<char>>, j: int)
    requires
        1 <= j <= s.len(),
    ensures
        insert_at(x, s, j) == insert_at(x, s.drop_first(), j - 1) + 1,
    decreases s.len() - j,
{
    if j < s.len() {
        assert(s.drop_first()[j - 1] == s[j]);
        if !lex_le(x, s[j]) {
            lemma_insert_at_from(x, s, j + 1);
        }
    }
}

fn sorted_texts(v: &Vec<Vec<char>>) -> (r: Vec<Vec<char>>)
    ensures
        views(r@) == sort_seqs(views(v@)),
{
    let mut out: Vec<Vec<char>> = Vec::new();
    let mut i: usize = 0;
    assert(views(out@) =~= Seq::<Seq<char>>::empty());
    while i < v.len()
        invariant
            i <= v.len(),
            views(out@) == sort_seqs(views(v@).take(i as int)),
        decreases v.len() - i,
    {
        let x = slice(&v[i], 0, v[i].len());
        assert(x@ =~= v@[i as int]@);
        let ghost before = views(out@);
        let mut j: usize = 0;
        while j < out.len() && !lex_le_exec(&x, &out[j])
            invariant
                j <= out.len(),
                views(out@) == before,
                insert_at(x@, before, 0) == insert_at(x@, before, j as int),
            decreases out.len() - j,
        {
            assert(before[j as int] == out@[j as int]@);
            j += 1;
        }
        proof {
            if j < out.len() {
                assert(before[j as int] == out@[j as int]@);
            }
            lemma_insert_sorted(x@, before);
        }
        out.insert(j, x);
        i += 1;
        proof {
            let taken = views(v@).take(i as int);
            assert(taken.drop_last() =~= views(v@).take(i - 1));
            assert(taken.last() == x@);
            assert(views(out@) =~= before.take(j as int) + seq![x@] + before.skip(j as int));
        }
    }
    assert(views(v@).take(i as int) =~= views(v@));
    out
}

/// The requirement as PEP 508 spells one: the name, the extras in order between brackets, the
/// clauses joined by commas or the direct reference after ` @ `, and the marker after `; `, or
/// after ` ; ` beside a URL, which would otherwise read the semicolon as its own.
pub open spec fn req_written(v: RequirementView) -> Seq<char> {
    v.name + (if v.extras.len() > 0 {
        seq!['['] + join(sort_seqs(v.extras), seq![',']) + seq![']']
    } else {
        seq![]
    }) + (match v.version_or_url {
        Some(PinView::Versions(vs)) => join(vs.map_values(|o: VersionOpView| op_written(o)), seq![',']),
        Some(PinView::Url(u)) => seq![' ', '@', ' '] + u,
        None => seq![],
    }) + (match v.marker {
        Some(m) => (if v.version_or_url matches Some(PinView::Url(_)) {
            seq![' ', ';', ' ']
        } else {
            seq![';', ' ']
        }) + written(m),
        None => seq![],
    })
}

/// The requirement with its name in canonical form and, unless the full versions are kept, the
/// zeros closing each release dropped where they say nothing.
pub open spec fn normalized(v: RequirementView, keep_full_version: bool) -> RequirementView {
    RequirementView {
        name: canonical_of(v.name),
        extras: v.extras,
        version_or_url: if keep_full_version {
            v.version_or_url
        } else {
            match v.version_or_url {
                Some(PinView::Versions(vs)) => Some(
                    PinView::Versions(vs.map_values(|o: VersionOpView| shortened(o))),
                ),
                other => other,
            }
        },
        marker: v.marker,
    }
}

impl Requirement {
    /// The name holds the characters a distribution name is written in.
    #[verifier::type_invariant]
    spec fn names_in_ascii(self) -> bool {
        forall|i: int| 0 <= i < self.name@.len() ==> name_char(#[trigger] self.name@[i])
    }

    /// Read a dependency specifier.
    ///
    /// # Errors
    ///
    /// Returns why the text is not one this reads whole: a line break, brackets that do not close
    /// or hold something other than extras, a name PEP 508 does not spell, versions and a URL
    /// both, a URL that is empty or followed by text, a clause that is not one, or a marker the
    /// grammar does not read.
    pub fn new(raw: &str) -> (r: Result<Self, String>)
        ensures
            r is Ok <==> requirement_of(raw@) is Some,
            r matches Ok(req) ==> req@ == requirement_of(raw@)->0,
            r matches Err(m) ==> m@ == requirement_error(raw@),
    {
        let s = chars_of(raw);
        // a dependency is written on one line, so a break inside it is text no reader accepts
        if holds_char(&s, '\n') || holds_char(&s, '\r') {
            return Err(string_of(&chars_of("A requirement is written on one line")));
        }
        let mb = marker_break(&s);
        let raw_req = match mb {
            Some(at) => slice(&s, 0, at),
            None => slice(&s, 0, s.len()),
        };
        assert(raw_req@ =~= match marker_break_from(s@, 0) {
            Some(at) => s@.take(at),
            None => s@,
        });
        let at_idx = find_char(&raw_req, '@', 0);
        let has_url = at_idx < raw_req.len();
        let req_part = if has_url {
            slice(&raw_req, 0, at_idx)
        } else {
            slice(&raw_req, 0, raw_req.len())
        };
        assert(req_part@ =~= (if has_url {
            raw_req@.take(at_idx as int)
        } else {
            raw_req@
        }));
        let (name_raw, extras, constraints) = head(&req_part)?;
        let name = trimmed(&name_raw);
        if !names_chars(&name) {
            return Err(message("Invalid name '", &name, "'"));
        }
        let version_or_url = if has_url {
            // a dependency names a version or a direct reference, never both
            if constraints.len() > 0 {
                return Err(message("The requirement names a version and a URL: '", &s, "'"));
            }
            let rest = slice(&raw_req, at_idx + 1, raw_req.len());
            assert(rest@ =~= raw_req@.skip(at_idx + 1));
            let url = url_in(&rest)?;
            Some(VersionOrUrl::Url(string_of(&url)))
        } else if constraints.len() == 0 {
            None
        } else {
            Some(VersionOrUrl::Versions(read_specifiers(&constraints)?))
        };
        let marker = match mb {
            // `;` opens a marker, so a delimiter with nothing after it names one this cannot read
            Some(at) => {
                let rest = slice(&s, at + 1, s.len());
                assert(rest@ =~= s@.skip(at + 1));
                let text = trimmed(&rest);
                match MarkerExpr::from_chars(&text) {
                    Ok(m) => Some(m),
                    Err(why) => {
                        let m = message("Invalid marker: ", &chars_of(why.as_str()), "");
                        proof {
                            reveal_strlit("");
                            assert(m@ =~= requirement_error(raw@));
                        }
                        return Err(m);
                    },
                }
            },
            None => None,
        };
        let req = Requirement {
            name: string_of(&name),
            extras: strings_of(&extras),
            version_or_url,
            marker,
        };
        Ok(req)
    }

    /// The requirement with its name in canonical form and, unless `keep_full_version`, the zeros
    /// closing each release dropped where they say nothing.
    pub fn normalize(self, keep_full_version: bool) -> (r: Self)
        ensures
            r@ == normalized(self@, keep_full_version),
    {
        proof {
            use_type_invariant(&self);
        }
        let ghost old_view = self@;
        let Requirement { name, extras, version_or_url, marker } = self;
        let canonical = canonical_chars(&chars_of(name.as_str()));
        proof {
            assert forall|i: int| 0 <= i < lower_all(name@).len() implies name_char(
                #[trigger] lower_all(name@)[i],
            ) by {
                assert(name_char(name@[i]));
            }
            lemma_canonical_chars(lower_all(name@));
        }
        let next = if keep_full_version {
            version_or_url
        } else {
            match version_or_url {
                Some(VersionOrUrl::Versions(mut specs)) => {
                    let ghost start = op_views(specs@);
                    let mut out: Vec<VersionOp> = Vec::new();
                    while specs.len() > 0
                        invariant
                            out@.len() + specs@.len() == start.len(),
                            forall|k: int|
                                0 <= k < out@.len() ==> #[trigger] out@[k]@ == shortened(start[k]),
                            forall|k: int|
                                0 <= k < specs@.len() ==> #[trigger] specs@[k]@ == start[out@.len()
                                    + k],
                        decreases specs.len(),
                    {
                        let mut op = specs.remove(0);
                        op.shorten();
                        out.push(op);
                    }
                    assert(op_views(out@) =~= start.map_values(|o: VersionOpView| shortened(o)));
                    Some(VersionOrUrl::Versions(out))
                },
                other => other,
            }
        };
        let req = Requirement { name: string_of(&canonical), extras, version_or_url: next, marker };
        assert(req@.version_or_url == normalized(old_view, keep_full_version).version_or_url);
        req
    }

    /// The version constraints the requirement names, if it names any.
    pub fn version_ops(&self) -> (r: &[VersionOp])
        ensures
            op_views(r@) == match self@.version_or_url {
                Some(PinView::Versions(vs)) => vs,
                _ => Seq::<VersionOpView>::empty(),
            },
    {
        match &self.version_or_url {
            Some(VersionOrUrl::Versions(specs)) => specs.as_slice(),
            _ => {
                let none: &[VersionOp] = &[];
                assert(op_views(none@) =~= Seq::<VersionOpView>::empty());
                none
            },
        }
    }

    /// Whether the requirement names nothing but a distribution.
    pub fn is_name_only(&self) -> (r: bool)
        ensures
            r == (self@.extras.len() == 0 && self@.version_or_url is None && self@.marker is None),
    {
        self.extras.len() == 0 && self.version_or_url.is_none() && self.marker.is_none()
    }

    /// The canonical spelling of a distribution name, which is what a name on its own is: `pkg[x]`
    /// or `pkg>=1` names a dependency, and neither is a name.
    ///
    /// # Errors
    ///
    /// Returns why the text does not name a distribution.
    pub fn canonical_name_of(name: &str) -> (r: Result<String, String>)
        ensures
            r is Ok <==> distribution_name(trim(name@)),
            r matches Ok(c) ==> c@ == canonical_of(trim(name@)),
            r matches Err(e) ==> e@ == "Invalid name '"@ + trim(name@) + "'"@,
    {
        let t = trimmed(&chars_of(name));
        if !names_chars(&t) {
            return Err(message("Invalid name '", &t, "'"));
        }
        Ok(string_of(&canonical_chars(&t)))
    }

    /// The canonical spelling of the name the requirement names.
    pub fn canonical_name(&self) -> (r: String)
        ensures
            r@ == canonical_of(self@.name),
    {
        string_of(&canonical_chars(&chars_of(self.name.as_str())))
    }

    /// The requirement as PEP 508 spells one, as characters.
    pub fn spelled_chars(&self) -> (r: Vec<char>)
        ensures
            r@ == req_written(self@),
    {
        let mut out = chars_of(self.name.as_str());
        let ghost name = out@;
        let mut extras_part: Vec<char> = Vec::new();
        if self.extras.len() > 0 {
            let mut texts: Vec<Vec<char>> = Vec::new();
            let mut i: usize = 0;
            while i < self.extras.len()
                invariant
                    i <= self.extras.len(),
                    texts@.len() == i,
                    forall|k: int| 0 <= k < i ==> #[trigger] texts@[k]@ == self.extras@[k]@,
                decreases self.extras.len() - i,
            {
                texts.push(chars_of(self.extras[i].as_str()));
                i += 1;
            }
            assert(views(texts@) =~= string_views(self.extras@));
            let sorted = sorted_texts(&texts);
            let comma = vec![','];
            assert(comma@ =~= seq![',']);
            extras_part.push('[');
            push_all(&mut extras_part, &crate::text::joined(&sorted, &comma));
            extras_part.push(']');
        }
        let mut pin_part: Vec<char> = Vec::new();
        match &self.version_or_url {
            Some(VersionOrUrl::Versions(versions)) => {
                let mut spelled: Vec<Vec<char>> = Vec::new();
                let mut i: usize = 0;
                while i < versions.len()
                    invariant
                        i <= versions.len(),
                        spelled@.len() == i,
                        forall|k: int|
                            0 <= k < i ==> #[trigger] spelled@[k]@ == op_written(versions@[k]@),
                    decreases versions.len() - i,
                {
                    spelled.push(versions[i].written_chars());
                    i += 1;
                }
                assert(views(spelled@) =~= op_views(versions@).map_values(
                    |o: VersionOpView| op_written(o),
                ));
                let comma = vec![','];
                assert(comma@ =~= seq![',']);
                pin_part = crate::text::joined(&spelled, &comma);
            },
            Some(VersionOrUrl::Url(url)) => {
                pin_part = vec![' ', '@', ' '];
                push_all(&mut pin_part, &chars_of(url.as_str()));
            },
            None => {},
        }
        let mut marker_part: Vec<char> = Vec::new();
        if let Some(marker) = &self.marker {
            let is_url = match &self.version_or_url {
                Some(VersionOrUrl::Url(_)) => true,
                _ => false,
            };
            // PEP 508 asks for white space after a URL, since the `;` would otherwise be read as
            // part of it
            marker_part = if is_url {
                vec![' ', ';', ' ']
            } else {
                vec![';', ' ']
            };
            push_all(&mut marker_part, &marker.written_chars());
        }
        push_all(&mut out, &extras_part);
        push_all(&mut out, &pin_part);
        push_all(&mut out, &marker_part);
        proof {
            let v = self@;
            assert(extras_part@ == (if v.extras.len() > 0 {
                seq!['['] + join(sort_seqs(v.extras), seq![',']) + seq![']']
            } else {
                seq![]
            }));
        }
        out
    }

    /// The requirement as PEP 508 spells one.
    pub fn to_string(&self) -> (r: String)
        ensures
            r@ == req_written(self@),
    {
        string_of(&self.spelled_chars())
    }
}


/// A canonical spelling holds no capital and writes each separator as a `-` standing after no other
/// separator: it holds no `_`, no `.` and no `--`.
pub open spec fn canonical_spelling(c: Seq<char>) -> bool {
    &&& forall|i: int| 0 <= i < c.len() ==> lower(#[trigger] c[i]) == c[i]
    &&& forall|i: int| 0 <= i < c.len() ==> #[trigger] c[i] != '_' && c[i] != '.'
    &&& forall|i: int| 0 < i < c.len() && #[trigger] c[i] == '-' ==> c[i - 1] != '-'
}

/// What [`Requirement::canonical_name_of`] gives a name is a canonical spelling, names a
/// distribution, and is given back unchanged when it is read as a name in turn.
pub proof fn lemma_canonical_name(name: Seq<char>)
    requires
        distribution_name(trim(name)),
    ensures
        canonical_spelling(canonical_of(trim(name))),
        distribution_name(trim(canonical_of(trim(name)))),
        canonical_of(trim(canonical_of(trim(name)))) == canonical_of(trim(name)),
{
    let n = trim(name);
    let c = canonical_of(n);
    crate::pep508::stable::lemma_name_canonical(n);
    crate::pep508::spelling::lemma_trim_plain(c);
    lemma_canonical_settles(n);
    let low = lower_all(n);
    assert(small(low)) by {
        assert forall|i: int| 0 <= i < low.len() implies lower(#[trigger] low[i]) == low[i] by {
            assert(low[i] == lower(n[i]));
        }
    }
    lemma_collapse_shape(low);
    assert forall|i: int| 0 <= i < c.len() implies #[trigger] c[i] != '_' && c[i] != '.' by {
        if is_sep(c[i]) {
            assert(c[i] == '-');
        }
    }
    assert forall|i: int| 0 < i < c.len() && #[trigger] c[i] == '-' implies c[i - 1] != '-' by {
        assert(is_sep(c[i]));
    }
}

/// Lowering and collapsing a name whose characters are letters, digits and separators leaves one
/// of the same characters.
proof fn lemma_canonical_chars(s: Seq<char>)
    requires
        forall|i: int| 0 <= i < s.len() ==> name_char(#[trigger] s[i]),
    ensures
        forall|i: int| 0 <= i < collapse_seps(s).len() ==> name_char(#[trigger] collapse_seps(s)[i]),
    decreases s.len(),
{
    if s.len() > 0 {
        assert forall|i: int| 0 <= i < s.drop_last().len() implies name_char(
            #[trigger] s.drop_last()[i],
        ) by {
            assert(s.drop_last()[i] == s[i]);
        }
        lemma_canonical_chars(s.drop_last());
        assert(name_char(s[s.len() - 1]));
        let t = collapse_seps(s.drop_last());
        if is_sep(s.last()) {
            if s.len() >= 2 && is_sep(s[s.len() - 2]) {
                assert(collapse_seps(s) == t);
            } else {
                assert(collapse_seps(s) == t.push('-'));
                assert forall|i: int| 0 <= i < t.push('-').len() implies name_char(
                    #[trigger] t.push('-')[i],
                ) by {
                    if i < t.len() {
                        assert(t.push('-')[i] == t[i]);
                    }
                }
            }
        } else {
            assert(collapse_seps(s) == t.push(s.last()));
            assert forall|i: int| 0 <= i < t.push(s.last()).len() implies name_char(
                #[trigger] t.push(s.last())[i],
            ) by {
                if i < t.len() {
                    assert(t.push(s.last())[i] == t[i]);
                }
            }
        }
    }
}


impl std::str::FromStr for Requirement {
    type Err = String;

    /// Read a requirement and write its name and versions in their one form.
    fn from_str(s: &str) -> (r: Result<Self, String>)
        ensures
            r is Ok <==> requirement_of(s@) is Some,
            r matches Ok(req) ==> req@ == normalized(requirement_of(s@)->0, false),
    {
        match Requirement::new(s) {
            Ok(req) => Ok(req.normalize(false)),
            Err(why) => Err(why),
        }
    }
}


/// Whether every separator of the text is a `-` standing after no other separator.
pub open spec fn collapsed(s: Seq<char>) -> bool {
    forall|i: int|
        0 <= i < s.len() && is_sep(#[trigger] s[i]) ==> s[i] == '-' && (i == 0 || !is_sep(s[i - 1]))
}

/// Whether no character of the text has an ASCII capital.
pub open spec fn small(s: Seq<char>) -> bool {
    forall|i: int| 0 <= i < s.len() ==> lower(#[trigger] s[i]) == s[i]
}

proof fn lemma_collapse_shape(s: Seq<char>)
    requires
        small(s),
    ensures
        collapsed(collapse_seps(s)),
        small(collapse_seps(s)),
        collapse_seps(s).len() > 0 ==> (is_sep(collapse_seps(s).last()) <==> is_sep(s.last())),
    decreases s.len(),
{
    if s.len() > 0 {
        let d = s.drop_last();
        assert(small(d)) by {
            assert forall|i: int| 0 <= i < d.len() implies lower(#[trigger] d[i]) == d[i] by {
                assert(d[i] == s[i]);
            }
        }
        lemma_collapse_shape(d);
        let c = collapse_seps(d);
        if is_sep(s.last()) {
            if s.len() >= 2 && is_sep(s[s.len() - 2]) {
                assert(d.last() == s[s.len() - 2]);
            } else {
                let r = c.push('-');
                assert forall|i: int| 0 <= i < r.len() && is_sep(#[trigger] r[i]) implies r[i] == '-'
                    && (i == 0 || !is_sep(r[i - 1])) by {
                    if i < r.len() - 1 {
                        assert(r[i] == c[i]);
                        if i > 0 {
                            assert(r[i - 1] == c[i - 1]);
                        }
                    } else if i > 0 {
                        assert(r[i - 1] == c.last());
                        if d.len() > 0 {
                            assert(d.last() == s[s.len() - 2]);
                        }
                    }
                }
                assert forall|i: int| 0 <= i < r.len() implies lower(#[trigger] r[i]) == r[i] by {
                    if i < r.len() - 1 {
                        assert(r[i] == c[i]);
                    }
                }
            }
        } else {
            let r = c.push(s.last());
            assert(lower(s[s.len() - 1]) == s[s.len() - 1]);
            assert forall|i: int| 0 <= i < r.len() && is_sep(#[trigger] r[i]) implies r[i] == '-'
                && (i == 0 || !is_sep(r[i - 1])) by {
                if i < r.len() - 1 {
                    assert(r[i] == c[i]);
                    if i > 0 {
                        assert(r[i - 1] == c[i - 1]);
                    }
                }
            }
            assert forall|i: int| 0 <= i < r.len() implies lower(#[trigger] r[i]) == r[i] by {
                if i < r.len() - 1 {
                    assert(r[i] == c[i]);
                }
            }
        }
    }
}

proof fn lemma_collapse_fixed(s: Seq<char>)
    requires
        collapsed(s),
    ensures
        collapse_seps(s) == s,
    decreases s.len(),
{
    if s.len() > 0 {
        let d = s.drop_last();
        assert(collapsed(d)) by {
            assert forall|i: int| 0 <= i < d.len() && is_sep(#[trigger] d[i]) implies d[i] == '-' && (
            i == 0 || !is_sep(d[i - 1])) by {
                assert(d[i] == s[i]);
                if i > 0 {
                    assert(d[i - 1] == s[i - 1]);
                }
            }
        }
        lemma_collapse_fixed(d);
        if is_sep(s.last()) {
            assert(s[s.len() - 1] == '-');
            if s.len() >= 2 {
                assert(!is_sep(s[s.len() - 2]));
            }
        }
        assert(s =~= d.push(s.last()));
    }
}

/// A canonical name is its own canonical spelling: spelling a name canonically twice spells it as
/// once.
pub proof fn lemma_canonical_settles(name: Seq<char>)
    ensures
        canonical_of(canonical_of(name)) == canonical_of(name),
{
    let low = lower_all(name);
    assert(small(low)) by {
        assert forall|i: int| 0 <= i < low.len() implies lower(#[trigger] low[i]) == low[i] by {
            assert(low[i] == lower(name[i]));
        }
    }
    lemma_collapse_shape(low);
    let c = collapse_seps(low);
    assert(lower_all(c) =~= c) by {
        assert forall|i: int| 0 <= i < c.len() implies #[trigger] lower_all(c)[i] == c[i] by {
            assert(lower(c[i]) == c[i]);
        }
    }
    lemma_collapse_fixed(c);
}

/// Lowering and collapsing a name whose characters are letters, digits and separators leaves one
/// of the same characters, closing on what the name closed on where that is no separator.
pub proof fn lemma_canonical_chars_pub(s: Seq<char>)
    requires
        forall|i: int| 0 <= i < s.len() ==> name_char(#[trigger] s[i]),
    ensures
        forall|i: int| 0 <= i < collapse_seps(s).len() ==> name_char(#[trigger] collapse_seps(s)[i]),
{
    lemma_canonical_chars(s);
}

/// The semicolon that opens a marker stands inside the text.
pub proof fn lemma_marker_break_bound(s: Seq<char>, i: int)
    ensures
        marker_break_from(s, i) matches Some(at) ==> i <= at < s.len() && 0 <= at,
    decreases s.len() - i,
{
    if 0 <= i < s.len() && !(s[i] == ';' && (!s.take(i).contains('@') || (i > 0 && is_ws(s[i - 1])))) {
        lemma_marker_break_bound(s, i + 1);
    }
}

} // verus!
