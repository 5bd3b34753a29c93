use vstd::prelude::*;
use crate::chars::{chars_to_string, str_to_chars};
use crate::model::{block_views, PmlBlock, PmlError, PmlErrorKind, SpecBlock, SpecError, SpecErrorKind};
use crate::syntax::{control, parse_control_line, Control, SpecControl};
use crate::text::{collect_lines, is_blank, is_blank_line, join, join_lines, normalize, normalize_newlines, split_lines, views};

verus! {

/// Searching from line `start`, the first closing line named `name`:
/// `Ok(Some(index))` when it carries no type or the type `ty`, an error when it
/// carries another type, `Ok(None)` when there is none.
pub open spec fn matching_close(ls: Seq<Seq<char>>, start: int, name: Seq<char>, ty: Seq<char>) -> Result<Option<int>, SpecError>
    decreases ls.len() - start,
{
    if start < 0 || start >= ls.len() {
        Ok(None)
    } else {
        match control(ls[start]) {
            Ok(Some(SpecControl::Close { name: n, close_ty })) if n == name => {
                match close_ty {
                    Some(t) if t != ty => Err(SpecError {
                        line: start + 1,
                        kind: SpecErrorKind::TypeMismatch { expected: ty, found: t },
                    }),
                    _ => Ok(Some(start)),
                }
            },
            _ => matching_close(ls, start + 1, name, ty),
        }
    }
}

/// The first opening line at or after `start`, or the number of lines.
pub open spec fn next_opening(ls: Seq<Seq<char>>, start: int) -> int
    decreases ls.len() - start,
{
    if start < 0 || start >= ls.len() {
        ls.len() as int
    } else {
        match control(ls[start]) {
            Ok(Some(SpecControl::Open { .. })) => start,
            _ => next_opening(ls, start + 1),
        }
    }
}

pub proof fn lemma_matching_close_bounds(ls: Seq<Seq<char>>, start: int, name: Seq<char>, ty: Seq<char>)
    ensures
        matching_close(ls, start, name, ty) matches Ok(Some(c)) ==> 0 <= start <= c < ls.len(),
    decreases ls.len() - start,
{
    if 0 <= start < ls.len() {
        lemma_matching_close_bounds(ls, start + 1, name, ty);
    }
}

pub proof fn lemma_next_opening_bounds(ls: Seq<Seq<char>>, start: int)
    ensures
        0 <= start <= ls.len() ==> start <= next_opening(ls, start) <= ls.len(),
    decreases ls.len() - start,
{
    if 0 <= start < ls.len() {
        lemma_next_opening_bounds(ls, start + 1);
    }
}

/// The first closing line in `ls[start..end]`, or `end` when there is none.
pub open spec fn first_close(ls: Seq<Seq<char>>, start: int, end: int) -> int
    decreases end - start,
{
    if start < 0 || start >= end || start >= ls.len() {
        end
    } else if control(ls[start]) matches Ok(Some(SpecControl::Close { .. })) {
        start
    } else {
        first_close(ls, start + 1, end)
    }
}

pub proof fn lemma_first_close_bounds(ls: Seq<Seq<char>>, start: int, end: int)
    requires
        0 <= start <= end <= ls.len(),
    ensures
        start <= first_close(ls, start, end) <= end,
        first_close(ls, start, end) < end ==> control(ls[first_close(ls, start, end)]) matches Ok(Some(SpecControl::Close { .. })),
    decreases end - start,
{
    if start < end {
        lemma_first_close_bounds(ls, start + 1, end);
    }
}

/// The name that a closing line closes.
pub open spec fn closed_name(line: Seq<char>) -> Seq<char> {
    match control(line) {
        Ok(Some(SpecControl::Close { name, .. })) => name,
        _ => Seq::empty(),
    }
}

/// The body made of the lines `ls`: the lines joined by `\n`, without the
/// newline that separates the last line from the boundary; a body of one blank
/// line keeps its newline, so that it stays apart from the empty body.
pub open spec fn body_text(ls: Seq<Seq<char>>) -> Seq<char> {
    if ls.len() == 1 && ls[0].len() == 0 {
        seq!['\n']
    } else {
        join(ls)
    }
}

pub open spec fn spec_block(name: Seq<char>, ty: Seq<char>, content: Seq<char>, paired: bool) -> SpecBlock {
    SpecBlock { name, ty, content, paired }
}

/// Puts `b` in front of a successful result.
pub open spec fn cons_block(b: SpecBlock, r: Result<Seq<SpecBlock>, SpecError>) -> Result<Seq<SpecBlock>, SpecError> {
    match r {
        Ok(rest) => Ok(seq![b] + rest),
        Err(e) => Err(e),
    }
}

/// Puts `pre` in front of a successful result.
pub open spec fn prepend_blocks(pre: Seq<SpecBlock>, r: Result<Seq<SpecBlock>, SpecError>) -> Result<Seq<SpecBlock>, SpecError> {
    match r {
        Ok(rest) => Ok(pre + rest),
        Err(e) => Err(e),
    }
}

/// The blocks of the lines `ls[i..]`, read at the top layer.
pub open spec fn parse_lines(ls: Seq<Seq<char>>, i: int) -> Result<Seq<SpecBlock>, SpecError>
    decreases ls.len() - i,
{
    if i < 0 || i >= ls.len() {
        Ok(Seq::empty())
    } else {
        match control(ls[i]) {
            Err(k) => Err(SpecError { line: i + 1, kind: k }),
            Ok(None) => if is_blank(ls[i]) {
                parse_lines(ls, i + 1)
            } else {
                Err(SpecError { line: i + 1, kind: SpecErrorKind::ExpectedBlockHeader })
            },
            Ok(Some(SpecControl::Close { name, .. })) => Err(SpecError {
                line: i + 1,
                kind: SpecErrorKind::StrayClosingBlock(name),
            }),
            Ok(Some(SpecControl::Open { name, ty })) => {
                match matching_close(ls, i + 1, name, ty) {
                    Err(e) => Err(e),
                    Ok(Some(c)) => {
                        proof {
                            lemma_matching_close_bounds(ls, i + 1, name, ty);
                        }
                        cons_block(
                            spec_block(name, ty, body_text(ls.subrange(i + 1, c)), true),
                            parse_lines(ls, c + 1),
                        )
                    },
                    Ok(None) => {
                        let e = next_opening(ls, i + 1);
                        proof {
                            lemma_next_opening_bounds(ls, i + 1);
                        }
                        let x = first_close(ls, i + 1, e);
                        if x < e {
                            Err(SpecError { line: x + 1, kind: SpecErrorKind::StrayClosingBlock(closed_name(ls[x])) })
                        } else {
                            cons_block(
                                spec_block(name, ty, body_text(ls.subrange(i + 1, e)), false),
                                parse_lines(ls, e),
                            )
                        }
                    },
                }
            },
        }
    }
}

/// The block sequence of a PML document.
pub open spec fn parse_document(s: Seq<char>) -> Result<Seq<SpecBlock>, SpecError> {
    parse_lines(split_lines(normalize(s)), 0)
}

/// Whether two character sequences are equal.
pub fn chars_eq(a: &Vec<char>, b: &Vec<char>) -> (r: bool)
    ensures
        r == (a@ == b@),
{
    if a.len() != b.len() {
        return false;
    }
    let mut i: usize = 0;
    while i < a.len()
        invariant
            i <= a.len(),
            a.len() == b.len(),
            forall|k: int| 0 <= k < i ==> a@[k] == b@[k],
        decreases a.len() - i,
    {
        if a[i] != b[i] {
            return false;
        }
        i = i + 1;
    }
    assert(a@ =~= b@);
    true
}

fn find_matching_close(lines: &Vec<Vec<char>>, start: usize, name: &Vec<char>, ty: &Vec<char>) -> (r: Result<Option<usize>, PmlError>)
    requires
        start <= lines.len(),
    ensures
        match (r, matching_close(views(lines@), start as int, name@, ty@)) {
            (Ok(Some(c)), Ok(Some(sc))) => c == sc,
            (Ok(None), Ok(None)) => true,
            (Err(e), Err(se)) => e@ == se,
            _ => false,
        },
{
    let ghost ls = views(lines@);
    let mut idx = start;
    while idx < lines.len()
        invariant
            start <= idx <= lines.len(),
            ls == views(lines@),
            matching_close(ls, start as int, name@, ty@) == matching_close(ls, idx as int, name@, ty@),
        decreases lines.len() - idx,
    {
        let c = parse_control_line(&lines[idx]);
        assert(ls[idx as int] == lines@[idx as int]@);
        match c {
            Ok(Some(Control::Close { name: close_name, close_ty })) => {
                if chars_eq(&close_name, name) {
                    match close_ty {
                        Some(t) => {
                            if !chars_eq(&t, ty) {
                                return Err(PmlError {
                                    line: idx + 1,
                                    kind: PmlErrorKind::TypeMismatch {
                                        expected: chars_to_string(ty),
                                        found: chars_to_string(&t),
                                    },
                                });
                            }
                        },
                        None => {},
                    }
                    return Ok(Some(idx));
                }
            },
            _ => {},
        }
        idx = idx + 1;
    }
    Ok(None)
}

fn find_next_opening(lines: &Vec<Vec<char>>, start: usize) -> (r: usize)
    requires
        start <= lines.len(),
    ensures
        r == next_opening(views(lines@), start as int),
{
    let ghost ls = views(lines@);
    let mut idx = start;
    while idx < lines.len()
        invariant
            start <= idx <= lines.len(),
            ls == views(lines@),
            next_opening(ls, start as int) == next_opening(ls, idx as int),
        decreases lines.len() - idx,
    {
        let c = parse_control_line(&lines[idx]);
        assert(ls[idx as int] == lines@[idx as int]@);
        match c {
            Ok(Some(Control::Open { .. })) => {
                return idx;
            },
            _ => {},
        }
        idx = idx + 1;
    }
    lines.len()
}

fn content_between(lines: &Vec<Vec<char>>, start: usize, end: usize) -> (s: String)
    requires
        start <= end <= lines.len(),
    ensures
        s@ == body_text(views(lines@).subrange(start as int, end as int)),
{
    let ghost part = views(lines@).subrange(start as int, end as int);
    if end > start && end - start == 1 && lines[start].len() == 0 {
        assert(part[0] == lines@[start as int]@);
        let mut v: Vec<char> = Vec::new();
        v.push('\n');
        assert(v@ =~= seq!['\n']);
        return chars_to_string(&v);
    }
    let v = join_lines(lines, start, end);
    proof {
        if part.len() == 1 {
            assert(part[0] == lines@[start as int]@);
        }
    }
    chars_to_string(&v)
}

/// The first closing line among `lines[start..end]`, or `end`.
fn find_first_close(lines: &Vec<Vec<char>>, start: usize, end: usize) -> (r: usize)
    requires
        start <= end <= lines.len(),
    ensures
        r == first_close(views(lines@), start as int, end as int),
{
    let ghost ls = views(lines@);
    let mut idx = start;
    while idx < end
        invariant
            start <= idx <= end <= lines.len(),
            ls == views(lines@),
            first_close(ls, start as int, end as int) == first_close(ls, idx as int, end as int),
        decreases end - idx,
    {
        let c = parse_control_line(&lines[idx]);
        assert(ls[idx as int] == lines@[idx as int]@);
        match c {
            Ok(Some(Control::Close { .. })) => {
                return idx;
            },
            _ => {},
        }
        idx = idx + 1;
    }
    end
}

/// Parses a PML document into its ordered block sequence.
pub fn parse_pml(input: &str) -> (r: Result<Vec<PmlBlock>, PmlError>)
    ensures
        match (r, parse_document(input@)) {
            (Ok(bs), Ok(sbs)) => block_views(bs@) == sbs,
            (Err(e), Err(se)) => e@ == se,
            _ => false,
        },
        r matches Ok(bs) ==> bs.len() <= input@.len(),
{
    let raw = str_to_chars(input);
    let text = normalize_newlines(&raw);
    let lines = collect_lines(&text);
    let ghost ls = views(lines@);
    let mut blocks: Vec<PmlBlock> = Vec::new();
    let mut i: usize = 0;
    assert(block_views(blocks@) =~= Seq::<SpecBlock>::empty());
    assert(prepend_blocks(Seq::empty(), parse_lines(ls, 0)) =~= parse_lines(ls, 0)) by {
        match parse_lines(ls, 0) {
            Ok(x) => assert(Seq::<SpecBlock>::empty() + x =~= x),
            Err(e) => {},
        }
    }
    while i < lines.len()
        invariant
            i <= lines.len(),
            blocks.len() <= i,
            lines.len() <= input@.len(),
            ls == views(lines@),
            ls == split_lines(normalize(input@)),
            parse_document(input@) == prepend_blocks(block_views(blocks@), parse_lines(ls, i as int)),
        decreases lines.len() - i,
    {
        let ghost before = block_views(blocks@);
        assert(ls[i as int] == lines@[i as int]@);
        let control = match parse_control_line(&lines[i]) {
            Ok(c) => c,
            Err(kind) => {
                return Err(PmlError { line: i + 1, kind });
            },
        };
        match control {
            None => {
                if is_blank_line(&lines[i]) {
                    i = i + 1;
                } else {
                    return Err(PmlError { line: i + 1, kind: PmlErrorKind::ExpectedBlockHeader });
                }
            },
            Some(Control::Close { name, .. }) => {
                return Err(PmlError {
                    line: i + 1,
                    kind: PmlErrorKind::StrayClosingBlock(chars_to_string(&name)),
                });
            },
            Some(Control::Open { name, ty }) => {
                let close = find_matching_close(&lines, i + 1, &name, &ty);
                proof {
                    lemma_matching_close_bounds(ls, i + 1, name@, ty@);
                }
                let close = match close {
                    Ok(c) => c,
                    Err(e) => {
                        return Err(e);
                    },
                };
                match close {
                    Some(close_idx) => {
                        let content = content_between(&lines, i + 1, close_idx);
                        let b = PmlBlock {
                            name: chars_to_string(&name),
                            ty: chars_to_string(&ty),
                            content,
                            paired: true,
                        };
                        blocks.push(b);
                        assert(block_views(blocks@) =~= before.push(b@));
                        proof {
                            match parse_lines(ls, close_idx + 1) {
                                Ok(x) => assert(before + (seq![b@] + x) =~= before.push(b@) + x),
                                Err(e) => {},
                            }
                        }
                        i = close_idx + 1;
                    },
                    None => {
                        let end = find_next_opening(&lines, i + 1);
                        proof {
                            lemma_next_opening_bounds(ls, i + 1);
                        }
                        let stray = find_first_close(&lines, i + 1, end);
                        if stray < end {
                            proof {
                                lemma_first_close_bounds(ls, i + 1, end as int);
                            }
                            assert(ls[stray as int] == lines@[stray as int]@);
                            let closed = match parse_control_line(&lines[stray]) {
                                Ok(Some(Control::Close { name, .. })) => name,
                                _ => Vec::new(),
                            };
                            return Err(PmlError {
                                line: stray + 1,
                                kind: PmlErrorKind::StrayClosingBlock(chars_to_string(&closed)),
                            });
                        }
                        let content = content_between(&lines, i + 1, end);
                        let b = PmlBlock {
                            name: chars_to_string(&name),
                            ty: chars_to_string(&ty),
                            content,
                            paired: false,
                        };
                        blocks.push(b);
                        assert(block_views(blocks@) =~= before.push(b@));
                        proof {
                            match parse_lines(ls, end as int) {
                                Ok(x) => assert(before + (seq![b@] + x) =~= before.push(b@) + x),
                                Err(e) => {},
                            }
                        }
                        i = end;
                    },
                }
            },
        }
    }
    assert(parse_document(input@) == prepend_blocks(block_views(blocks@), Ok(Seq::<SpecBlock>::empty())));
    assert(block_views(blocks@) + Seq::<SpecBlock>::empty() =~= block_views(blocks@));
    Ok(blocks)
}

} // verus!
