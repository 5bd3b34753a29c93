use vstd::prelude::*;
use crate::chars::{
    alphanumeric, char_is_alphanumeric, chars_to_string, combining_mark, is_ascii_alnum, is_combining_mark,
};
use crate::model::{PmlErrorKind, SpecErrorKind};
use crate::text::{copy_range, first_index, is_first, lemma_first_index, lemma_first_index_range};

verus! {

/// A character that may start a name segment: `_` or a Unicode letter or digit.
pub open spec fn is_name_char(c: char) -> bool {
    c == '_' || alphanumeric(c)
}

/// A character that may follow the first one in a name segment: a character
/// that may start one, or a Unicode combining mark.
pub open spec fn is_name_continue(c: char) -> bool {
    is_name_char(c) || combining_mark(c)
}

/// A character allowed in a type: an ASCII letter or digit, `_` or `-`.
pub open spec fn is_type_char(c: char) -> bool {
    is_ascii_alnum(c) || c == '_' || c == '-'
}

/// Dot-separated segments, each non-empty, starting with a letter, digit or
/// `_`, and going on with those or combining marks.
pub open spec fn valid_main(m: Seq<char>) -> bool {
    &&& m.len() > 0
    &&& m[0] != '.'
    &&& m.last() != '.'
    &&& forall|i: int| 0 <= i < m.len() ==> (#[trigger] m[i] == '.' || is_name_continue(m[i]))
    &&& forall|i: int| 0 <= i < m.len() - 1 ==> !(#[trigger] m[i] == '.' && m[i + 1] == '.')
    &&& is_name_char(m[0])
    &&& forall|i: int, j: int|
        #![trigger m[i], m[j]]
        0 <= i && j == i + 1 && j < m.len() && m[i] == '.' ==> is_name_char(m[j])
}

/// A non-empty segment: a letter, digit or `_`, then those or combining marks.
pub open spec fn valid_tag(t: Seq<char>) -> bool {
    &&& t.len() > 0
    &&& is_name_char(t[0])
    &&& forall|i: int| 0 <= i < t.len() ==> is_name_continue(#[trigger] t[i])
}

/// `MAIN` or `MAIN#TAG`.
pub open spec fn valid_name(n: Seq<char>) -> bool {
    let p = first_index(n, '#');
    if p < 0 {
        valid_main(n)
    } else {
        valid_main(n.take(p)) && valid_tag(n.skip(p + 1))
    }
}

pub open spec fn lower_char(c: char) -> char {
    if 'A' <= c && c <= 'Z' {
        ((c as u32) + 32) as char
    } else {
        c
    }
}

pub open spec fn text_type() -> Seq<char> {
    seq!['t', 'e', 'x', 't']
}

pub open spec fn md_type() -> Seq<char> {
    seq!['m', 'd']
}

pub open spec fn markdown_type() -> Seq<char> {
    seq!['m', 'a', 'r', 'k', 'd', 'o', 'w', 'n']
}

/// A type is checked, lowercased, and `md` becomes `markdown`.
pub open spec fn normalize_type(ty: Seq<char>) -> Result<Seq<char>, SpecErrorKind> {
    if ty.len() == 0 || exists|i: int| 0 <= i < ty.len() && !is_type_char(#[trigger] ty[i]) {
        Err(SpecErrorKind::InvalidType(ty))
    } else {
        let l = ty.map_values(|c: char| lower_char(c));
        if l == md_type() {
            Ok(markdown_type())
        } else {
            Ok(l)
        }
    }
}

/// What a control line announces.
pub enum SpecControl {
    Open { name: Seq<char>, ty: Seq<char> },
    Close { name: Seq<char>, close_ty: Option<Seq<char>> },
}

/// `NAME` with its type after the first `:`: `text` when there is no `:`, the
/// empty type when nothing follows the `:`.
pub open spec fn name_and_required_type(s: Seq<char>) -> Result<(Seq<char>, Seq<char>), SpecErrorKind> {
    let p = first_index(s, ':');
    let (name, ty) = if p < 0 { (s, text_type()) } else { (s.take(p), s.skip(p + 1)) };
    if !valid_name(name) {
        Err(SpecErrorKind::InvalidName(name))
    } else if p >= 0 && ty.len() == 0 {
        Ok((name, Seq::empty()))
    } else {
        match normalize_type(ty) {
            Ok(t) => Ok((name, t)),
            Err(e) => Err(e),
        }
    }
}

/// `NAME` with its type after the first `:`, none when there is no `:`.
pub open spec fn name_and_optional_type(s: Seq<char>) -> Result<(Seq<char>, Option<Seq<char>>), SpecErrorKind> {
    let p = first_index(s, ':');
    let name = if p < 0 { s } else { s.take(p) };
    if !valid_name(name) {
        Err(SpecErrorKind::InvalidName(name))
    } else if p < 0 {
        Ok((name, None))
    } else {
        match normalize_type(s.skip(p + 1)) {
            Ok(t) => Ok((name, Some(t))),
            Err(e) => Err(e),
        }
    }
}

/// How a line reads: not a control line (`None`), an opening or closing line,
/// or a malformed control line.
pub open spec fn control(line: Seq<char>) -> Result<Option<SpecControl>, SpecErrorKind> {
    let starts = line.len() > 0 && line[0] == '[';
    let ends = line.len() > 0 && line.last() == ']';
    if !starts && !ends {
        Ok(None)
    } else if !(starts && ends) || line.len() < 3 {
        Err(SpecErrorKind::InvalidControlLine(line))
    } else {
        let inner = line.subrange(1, line.len() - 1);
        if inner[0] == '/' {
            match name_and_optional_type(inner.skip(1)) {
                Ok((n, t)) => Ok(Some(SpecControl::Close { name: n, close_ty: t })),
                Err(e) => Err(e),
            }
        } else {
            match name_and_required_type(inner) {
                Ok((n, t)) => Ok(Some(SpecControl::Open { name: n, ty: t })),
                Err(e) => Err(e),
            }
        }
    }
}

pub fn is_name_char_exec(c: char) -> (r: bool)
    ensures
        r == is_name_char(c),
{
    let a = char_is_alphanumeric(c);
    assert(a == alphanumeric(c));
    c == '_' || a
}

pub fn is_type_char_exec(c: char) -> (r: bool)
    ensures
        r == is_type_char(c),
{
    ('a' <= c && c <= 'z') || ('A' <= c && c <= 'Z') || ('0' <= c && c <= '9') || c == '_' || c
        == '-'
}

/// Whether `c` may follow the first character of a name segment.
pub fn is_name_continue_exec(c: char) -> (r: bool)
    ensures
        r == is_name_continue(c),
{
    is_name_char_exec(c) || is_combining_mark(c)
}

/// Whether `s[lo..hi]` is a valid main name.
pub fn is_valid_main_range(s: &Vec<char>, lo: usize, hi: usize) -> (r: bool)
    requires
        lo <= hi <= s.len(),
    ensures
        r == valid_main(s@.subrange(lo as int, hi as int)),
{
    let ghost m = s@.subrange(lo as int, hi as int);
    if lo == hi || s[lo] == '.' || s[hi - 1] == '.' {
        return false;
    }
    if !is_name_char_exec(s[lo]) {
        assert(m[0] == s[lo as int]);
        return false;
    }
    let mut i = lo;
    while i < hi
        invariant
            lo < hi <= s.len(),
            lo <= i <= hi,
            m == s@.subrange(lo as int, hi as int),
            is_name_char(m[0]),
            forall|k: int| 0 <= k < i - lo ==> (#[trigger] m[k] == '.' || is_name_continue(m[k])),
            forall|k: int| 0 <= k < i - lo && k < m.len() - 1 ==> !(#[trigger] m[k] == '.' && m[k + 1] == '.'),
            forall|a: int, b: int|
                #![trigger m[a], m[b]]
                0 <= a && b == a + 1 && b < i - lo && m[a] == '.' ==> is_name_char(m[b]),
        decreases hi - i,
    {
        let c = s[i];
        assert(m[i - lo] == c);
        if c == '.' {
            if i + 1 < hi && s[i + 1] == '.' {
                assert(m[i - lo] == '.' && m[i - lo + 1] == '.');
                return false;
            }
        } else if i > lo && s[i - 1] == '.' {
            assert(m[i - lo - 1] == s[i - 1]);
            if !is_name_char_exec(c) {
                assert(m[i - lo - 1] == '.' && !is_name_char(m[i - lo]));
                return false;
            }
        } else {
            if !is_name_continue_exec(c) {
                assert(!(m[i - lo] == '.' || is_name_continue(m[i - lo])));
                return false;
            }
        }
        assert(i > lo ==> m[i - lo - 1] == s[i - 1]);
        i = i + 1;
    }
    true
}

/// Whether `s[lo..hi]` is a valid tag.
pub fn is_valid_tag_range(s: &Vec<char>, lo: usize, hi: usize) -> (r: bool)
    requires
        lo <= hi <= s.len(),
    ensures
        r == valid_tag(s@.subrange(lo as int, hi as int)),
{
    let ghost t = s@.subrange(lo as int, hi as int);
    if lo == hi {
        return false;
    }
    if !is_name_char_exec(s[lo]) {
        assert(t[0] == s[lo as int]);
        return false;
    }
    let mut i = lo;
    while i < hi
        invariant
            lo <= i <= hi <= s.len(),
            lo < hi,
            t == s@.subrange(lo as int, hi as int),
            is_name_char(t[0]),
            forall|k: int| 0 <= k < i - lo ==> is_name_continue(#[trigger] t[k]),
        decreases hi - i,
    {
        if !is_name_continue_exec(s[i]) {
            assert(!is_name_continue(t[i - lo]));
            return false;
        }
        i = i + 1;
    }
    true
}

/// The position of the first `c` in `s[lo..hi]`, relative to `lo`.
pub fn find_char(s: &Vec<char>, lo: usize, hi: usize, c: char) -> (r: Option<usize>)
    requires
        lo <= hi <= s.len(),
    ensures
        match r {
            Some(p) => p < hi - lo && first_index(s@.subrange(lo as int, hi as int), c) == p,
            None => first_index(s@.subrange(lo as int, hi as int), c) == -1,
        },
{
    let ghost t = s@.subrange(lo as int, hi as int);
    let mut i = lo;
    while i < hi
        invariant
            lo <= i <= hi <= s.len(),
            t == s@.subrange(lo as int, hi as int),
            forall|k: int| 0 <= k < i - lo ==> #[trigger] t[k] != c,
        decreases hi - i,
    {
        if s[i] == c {
            proof {
                assert(is_first(t, c, i - lo));
                lemma_first_index(t, c, i - lo);
            }
            return Some(i - lo);
        }
        i = i + 1;
    }
    proof {
        lemma_first_index_range(t, c);
    }
    None
}

/// Whether `s[lo..hi]` is a valid block name.
pub fn is_valid_name_range(s: &Vec<char>, lo: usize, hi: usize) -> (r: bool)
    requires
        lo <= hi <= s.len(),
    ensures
        r == valid_name(s@.subrange(lo as int, hi as int)),
{
    let ghost n = s@.subrange(lo as int, hi as int);
    match find_char(s, lo, hi, '#') {
        None => is_valid_main_range(s, lo, hi),
        Some(p) => {
            assert(n.take(p as int) =~= s@.subrange(lo as int, lo + p));
            assert(n.skip(p + 1) =~= s@.subrange(lo + p + 1, hi as int));
            is_valid_main_range(s, lo, lo + p) && is_valid_tag_range(s, lo + p + 1, hi)
        },
    }
}

/// Whether `s` is a valid block name.
pub fn is_valid_name(s: &Vec<char>) -> (r: bool)
    ensures
        r == valid_name(s@),
{
    assert(s@.subrange(0, s@.len() as int) =~= s@);
    is_valid_name_range(s, 0, s.len())
}

/// The type `s[lo..hi]` checked and normalized.
pub fn normalize_type_range(s: &Vec<char>, lo: usize, hi: usize) -> (r: Result<Vec<char>, PmlErrorKind>)
    requires
        lo <= hi <= s.len(),
    ensures
        match (r, normalize_type(s@.subrange(lo as int, hi as int))) {
            (Ok(v), Ok(t)) => v@ == t,
            (Err(e), Err(k)) => e@ == k,
            _ => false,
        },
{
    let ghost ty = s@.subrange(lo as int, hi as int);
    let mut out: Vec<char> = Vec::new();
    let mut i = lo;
    let mut ok = lo < hi;
    while i < hi
        invariant
            lo <= i <= hi <= s.len(),
            ty == s@.subrange(lo as int, hi as int),
            ok ==> lo < hi,
            ok ==> forall|k: int| 0 <= k < i - lo ==> is_type_char(#[trigger] ty[k]),
            !ok ==> (ty.len() == 0 || exists|k: int| 0 <= k < ty.len() && !is_type_char(#[trigger] ty[k])),
            ok ==> out@ == ty.take(i - lo).map_values(|c: char| lower_char(c)),
        decreases hi - i,
    {
        let c = s[i];
        if !is_type_char_exec(c) {
            assert(!is_type_char(ty[i - lo]));
            ok = false;
        }
        if ok {
            let l = if 'A' <= c && c <= 'Z' {
                ((c as u8) + 32) as char
            } else {
                c
            };
            out.push(l);
            assert(out@ =~= ty.take(i - lo + 1).map_values(|c: char| lower_char(c)));
        }
        i = i + 1;
    }
    if !ok {
        let v = copy_range(s, lo, hi);
        return Err(PmlErrorKind::InvalidType(chars_to_string(&v)));
    }
    assert(ty.take(i - lo) =~= ty);
    assert(!(ty.len() == 0 || exists|k: int| 0 <= k < ty.len() && !is_type_char(#[trigger] ty[k])));
    if out.len() == 2 && out[0] == 'm' && out[1] == 'd' {
        assert(out@ =~= md_type());
        let mut m: Vec<char> = Vec::new();
        m.push('m');
        m.push('a');
        m.push('r');
        m.push('k');
        m.push('d');
        m.push('o');
        m.push('w');
        m.push('n');
        assert(m@ =~= markdown_type());
        Ok(m)
    } else {
        assert(out@ != md_type()) by {
            if out@ == md_type() {
                assert(out@.len() == 2 && out@[0] == 'm' && out@[1] == 'd');
            }
        }
        Ok(out)
    }
}

pub proof fn lemma_text_type_normal()
    ensures
        normalize_type(text_type()) == Ok::<Seq<char>, SpecErrorKind>(text_type()),
{
    let t = text_type();
    assert(forall|i: int| 0 <= i < t.len() ==> is_type_char(#[trigger] t[i]));
    assert(t.map_values(|c: char| lower_char(c)) =~= t);
}

/// The characters of the type `text`.
pub fn text_type_exec() -> (v: Vec<char>)
    ensures
        v@ == text_type(),
{
    let mut v: Vec<char> = Vec::new();
    v.push('t');
    v.push('e');
    v.push('x');
    v.push('t');
    assert(v@ =~= text_type());
    v
}

/// What a control line announces, in executable form.
pub enum Control {
    Open { name: Vec<char>, ty: Vec<char> },
    Close { name: Vec<char>, close_ty: Option<Vec<char>> },
}

impl View for Control {
    type V = SpecControl;

    open spec fn view(&self) -> SpecControl {
        match self {
            Control::Open { name, ty } => SpecControl::Open { name: name@, ty: ty@ },
            Control::Close { name, close_ty } => SpecControl::Close {
                name: name@,
                close_ty: match close_ty {
                    Some(t) => Some(t@),
                    None => None,
                },
            },
        }
    }
}

/// Name and required type of `s[lo..hi]`.
pub fn parse_name_and_required_type(s: &Vec<char>, lo: usize, hi: usize) -> (r: Result<(Vec<char>, Vec<char>), PmlErrorKind>)
    requires
        lo <= hi <= s.len(),
    ensures
        match (r, name_and_required_type(s@.subrange(lo as int, hi as int))) {
            (Ok((n, t)), Ok((sn, st))) => n@ == sn && t@ == st,
            (Err(e), Err(k)) => e@ == k,
            _ => false,
        },
{
    let ghost x = s@.subrange(lo as int, hi as int);
    let (name_end, ty_range) = match find_char(s, lo, hi, ':') {
        Some(p) => {
            assert(x.take(p as int) =~= s@.subrange(lo as int, lo + p));
            assert(x.skip(p + 1) =~= s@.subrange(lo + p + 1, hi as int));
            (lo + p, Some(lo + p + 1))
        },
        None => (hi, None),
    };
    if !is_valid_name_range(s, lo, name_end) {
        let n = copy_range(s, lo, name_end);
        return Err(PmlErrorKind::InvalidName(chars_to_string(&n)));
    }
    let name = copy_range(s, lo, name_end);
    match ty_range {
        Some(t0) => {
            if t0 == hi {
                let empty: Vec<char> = Vec::new();
                assert(empty@ =~= x.skip(x.len() as int));
                return Ok((name, empty));
            }
            match normalize_type_range(s, t0, hi) {
                Ok(t) => Ok((name, t)),
                Err(e) => Err(e),
            }
        },
        None => {
            proof {
                lemma_text_type_normal();
            }
            Ok((name, text_type_exec()))
        },
    }
}

/// Name and optional type of `s[lo..hi]`.
pub fn parse_name_and_optional_type(s: &Vec<char>, lo: usize, hi: usize) -> (r: Result<(Vec<char>, Option<Vec<char>>), PmlErrorKind>)
    requires
        lo <= hi <= s.len(),
    ensures
        match (r, name_and_optional_type(s@.subrange(lo as int, hi as int))) {
            (Ok((n, Some(t))), Ok((sn, Some(st)))) => n@ == sn && t@ == st,
            (Ok((n, None)), Ok((sn, None))) => n@ == sn,
            (Err(e), Err(k)) => e@ == k,
            _ => false,
        },
{
    let ghost x = s@.subrange(lo as int, hi as int);
    let (name_end, ty_range) = match find_char(s, lo, hi, ':') {
        Some(p) => {
            assert(x.take(p as int) =~= s@.subrange(lo as int, lo + p));
            assert(x.skip(p + 1) =~= s@.subrange(lo + p + 1, hi as int));
            (lo + p, Some(lo + p + 1))
        },
        None => (hi, None),
    };
    if !is_valid_name_range(s, lo, name_end) {
        let n = copy_range(s, lo, name_end);
        return Err(PmlErrorKind::InvalidName(chars_to_string(&n)));
    }
    let name = copy_range(s, lo, name_end);
    match ty_range {
        Some(t0) => {
            match normalize_type_range(s, t0, hi) {
                Ok(t) => Ok((name, Some(t))),
                Err(e) => Err(e),
            }
        },
        None => Ok((name, None)),
    }
}

/// Reads one line: `None` when it is not a control line.
pub fn parse_control_line(line: &Vec<char>) -> (r: Result<Option<Control>, PmlErrorKind>)
    ensures
        match (r, control(line@)) {
            (Ok(None), Ok(None)) => true,
            (Ok(Some(c)), Ok(Some(sc))) => c@ == sc,
            (Err(e), Err(k)) => e@ == k,
            _ => false,
        },
{
    let n = line.len();
    let starts = n > 0 && line[0] == '[';
    let ends = n > 0 && line[n - 1] == ']';
    if !starts && !ends {
        return Ok(None);
    }
    if !(starts && ends) || n < 3 {
        let v = copy_range(line, 0, n);
        assert(v@ =~= line@);
        return Err(PmlErrorKind::InvalidControlLine(chars_to_string(&v)));
    }
    let ghost inner = line@.subrange(1, n - 1);
    if line[1] == '/' {
        assert(inner.skip(1) =~= line@.subrange(2, n - 1));
        match parse_name_and_optional_type(line, 2, n - 1) {
            Ok((name, close_ty)) => Ok(Some(Control::Close { name, close_ty })),
            Err(e) => Err(e),
        }
    } else {
        match parse_name_and_required_type(line, 1, n - 1) {
            Ok((name, ty)) => Ok(Some(Control::Open { name, ty })),
            Err(e) => Err(e),
        }
    }
}

} // verus!
