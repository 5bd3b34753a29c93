use vstd::prelude::*;
use crate::chars::lemma_combining_mark_above_ascii;
use crate::chars::is_ascii_alnum;
use crate::model::{SpecBlock, SpecError, SpecErrorKind};
use crate::parse::{
    body_text, cons_block, first_close, matching_close, next_opening, parse_document, parse_lines, spec_block,
};
use crate::render::{
    pushed_block,
    closing_line, has_control_line, header_line, render, render_block, renders_paired,
};
use crate::syntax::{
    control, is_name_char, is_name_continue, is_type_char, lemma_text_type_normal, name_and_optional_type,
    lower_char, markdown_type, md_type, name_and_required_type, normalize_type, text_type,
    valid_main, valid_name, valid_tag, SpecControl,
};
use crate::text::{
    first_index, is_first, join, lacks, lemma_first_index, lemma_first_index_range,
    lemma_join_split_all, lemma_normalize_id, lemma_split_all_join, lemma_split_all_lacks,
    lemma_normalize_lacks_cr, lemma_split_all_lacks_newline, normalize, split_all, split_lines,
};

verus! {

/// The lines, each followed by `\n`.
pub open spec fn unlines(ls: Seq<Seq<char>>) -> Seq<char>
    decreases ls.len(),
{
    if ls.len() == 0 {
        Seq::empty()
    } else {
        ls[0] + seq!['\n'] + unlines(ls.drop_first())
    }
}

/// The lines of a body: none for an empty body, else its `\n`-separated pieces.
pub open spec fn body_lines(c: Seq<char>) -> Seq<Seq<char>> {
    if c.len() == 0 {
        Seq::empty()
    } else {
        split_all(c)
    }
}

/// The lines that a block is written as.
pub open spec fn block_lines(b: SpecBlock) -> Seq<Seq<char>> {
    seq![header_line(b)] + body_lines(b.content) + (if renders_paired(b) {
        seq![closing_line(b)]
    } else {
        Seq::empty()
    })
}

/// The lines that a block sequence is written as.
pub open spec fn all_lines(bs: Seq<SpecBlock>) -> Seq<Seq<char>>
    decreases bs.len(),
{
    if bs.len() == 0 {
        Seq::empty()
    } else {
        all_lines(bs.drop_last()) + block_lines(bs.last())
    }
}

/// The line is a closing line for `name` (with or without a type).
pub open spec fn closes(line: Seq<char>, name: Seq<char>) -> bool {
    control(line) matches Ok(Some(SpecControl::Close { name: n, .. })) && n == name
}

/// A block as the builder or the parser makes it: a valid name, a normalized
/// type, and a body without `\r`.
pub open spec fn well_formed_block(b: SpecBlock) -> bool {
    &&& valid_name(b.name)
    &&& normalize_type(b.ty) == Ok::<Seq<char>, SpecErrorKind>(b.ty)
    &&& lacks(b.content, '\r')
}

/// A block as the parser gives it: a valid name, a normalized type or the
/// empty type of a header `[NAME:]`, and a body without `\r`.
pub open spec fn parsed_block_ok(b: SpecBlock) -> bool {
    &&& valid_name(b.name)
    &&& (b.ty.len() == 0 || normalize_type(b.ty) == Ok::<Seq<char>, SpecErrorKind>(b.ty))
    &&& lacks(b.content, '\r')
}

/// The block as reading its text gives it back: paired exactly when written paired.
pub open spec fn as_parsed(b: SpecBlock) -> SpecBlock {
    SpecBlock { name: b.name, ty: b.ty, content: b.content, paired: renders_paired(b) }
}

pub open spec fn parsed_views(bs: Seq<SpecBlock>) -> Seq<SpecBlock> {
    bs.map_values(|b: SpecBlock| as_parsed(b))
}

/// The text of the blocks reads back unambiguously: every block is well formed,
/// no body line of a block written paired closes that block, and no line written
/// after a block written short closes that block.
pub open spec fn renders_cleanly(bs: Seq<SpecBlock>) -> bool {
    &&& forall|k: int| 0 <= k < bs.len() ==> well_formed_block(#[trigger] bs[k])
    &&& forall|k: int, t: int|
        0 <= k < bs.len() && renders_paired(bs[k]) && 0 <= t < body_lines(bs[k].content).len()
            ==> !closes(#[trigger] body_lines(bs[k].content)[t], bs[k].name)
    &&& forall|k: int, t: int|
        0 <= k < bs.len() && !renders_paired(bs[k]) && 0 <= t < all_lines(bs.skip(k + 1)).len()
            ==> !closes(#[trigger] all_lines(bs.skip(k + 1))[t], bs[k].name)
}

proof fn lemma_unlines_join(ls: Seq<Seq<char>>)
    requires
        ls.len() > 0,
    ensures
        unlines(ls) == join(ls) + seq!['\n'],
    decreases ls.len(),
{
    if ls.len() == 1 {
        assert(ls.drop_first() =~= Seq::<Seq<char>>::empty());
        assert(unlines(ls.drop_first()) == Seq::<char>::empty());
        assert(unlines(ls) =~= join(ls) + seq!['\n']);
    } else {
        lemma_unlines_join(ls.drop_first());
        assert(unlines(ls) =~= join(ls) + seq!['\n']);
    }
}

proof fn lemma_unlines_append(a: Seq<Seq<char>>, b: Seq<Seq<char>>)
    ensures
        unlines(a + b) == unlines(a) + unlines(b),
    decreases a.len(),
{
    if a.len() == 0 {
        assert(a + b =~= b);
        assert(unlines(a) + unlines(b) =~= unlines(b));
    } else {
        assert((a + b).drop_first() =~= a.drop_first() + b);
        lemma_unlines_append(a.drop_first(), b);
        assert(unlines(a + b) =~= unlines(a) + unlines(b));
    }
}

proof fn lemma_render_block_lines(b: SpecBlock)
    ensures
        render_block(b) == unlines(block_lines(b)),
{
    let body = body_lines(b.content);
    let tail: Seq<Seq<char>> = if renders_paired(b) { seq![closing_line(b)] } else { Seq::empty() };
    let bl = block_lines(b);
    assert(bl.drop_first() =~= body + tail);
    lemma_unlines_append(body, tail);
    if b.content.len() > 0 {
        lemma_join_split_all(b.content);
        lemma_unlines_join(body);
    } else {
        assert(unlines(body) =~= Seq::<char>::empty());
    }
    if renders_paired(b) {
        assert(tail.drop_first() =~= Seq::<Seq<char>>::empty());
        assert(unlines(tail.drop_first()) == Seq::<char>::empty());
        assert(unlines(tail) =~= closing_line(b) + seq!['\n']);
    } else {
        assert(unlines(tail) =~= Seq::<char>::empty());
    }
    assert(render_block(b) =~= unlines(bl));
}

proof fn lemma_render_all_lines(bs: Seq<SpecBlock>)
    ensures
        render(bs) == unlines(all_lines(bs)),
    decreases bs.len(),
{
    if bs.len() > 0 {
        lemma_render_all_lines(bs.drop_last());
        lemma_render_block_lines(bs.last());
        lemma_unlines_append(all_lines(bs.drop_last()), block_lines(bs.last()));
    }
}

proof fn lemma_all_lines_append(a: Seq<SpecBlock>, b: Seq<SpecBlock>)
    ensures
        all_lines(a + b) == all_lines(a) + all_lines(b),
    decreases b.len(),
{
    if b.len() == 0 {
        assert(a + b =~= a);
        assert(all_lines(a) + all_lines(b) =~= all_lines(a));
    } else {
        assert((a + b).drop_last() =~= a + b.drop_last());
        assert((a + b).last() == b.last());
        lemma_all_lines_append(a, b.drop_last());
        assert(all_lines(a + b) =~= all_lines(a) + all_lines(b));
    }
}

proof fn lemma_all_lines_single(b: SpecBlock)
    ensures
        all_lines(seq![b]) == block_lines(b),
{
    assert(seq![b].drop_last() =~= Seq::<SpecBlock>::empty());
    assert(all_lines(seq![b].drop_last()) == Seq::<Seq<char>>::empty());
    assert(all_lines(seq![b]) =~= block_lines(b));
}

/// Every character of a valid name is `.`, `#` or a name character (one that
/// starts a segment or follows in one); the first starts a segment.
proof fn lemma_name_chars(n: Seq<char>)
    requires
        valid_name(n),
    ensures
        forall|i: int| 0 <= i < n.len() ==> (#[trigger] n[i] == '.' || n[i] == '#' || is_name_continue(n[i])),
        n.len() > 0,
        is_name_char(n[0]),
{
    let p = first_index(n, '#');
    lemma_first_index_range(n, '#');
    if p < 0 {
        assert(valid_main(n));
    } else {
        let m = n.take(p);
        let t = n.skip(p + 1);
        assert(valid_main(m) && valid_tag(t));
        assert forall|i: int| 0 <= i < n.len() implies (#[trigger] n[i] == '.' || n[i] == '#' || is_name_continue(n[i])) by {
            if i < p {
                assert(n[i] == m[i]);
            } else if i > p {
                assert(n[i] == t[i - p - 1]);
            }
        }
        assert(n[0] == m[0]);
    }
}

/// A character that is `.`, `#` or a name character is none of `\n \r : [ ] /`.
proof fn lemma_name_char_not_punct(c: char)
    requires
        c == '.' || c == '#' || is_name_continue(c),
    ensures
        c != '\n' && c != '\r' && c != ':' && c != '[' && c != ']' && c != '/',
{
    lemma_combining_mark_above_ascii(c);
}

proof fn lemma_header_control(b: SpecBlock)
    requires
        well_formed_block(b),
    ensures
        control(header_line(b)) == Ok::<Option<SpecControl>, SpecErrorKind>(Some(SpecControl::Open { name: b.name, ty: b.ty })),
{
    let n = b.name;
    lemma_name_chars(n);
    assert(forall|i: int| 0 <= i < n.len() ==> #[trigger] n[i] != ':' && n[i] != '/') by {
        assert forall|i: int| 0 <= i < n.len() implies #[trigger] n[i] != ':' && n[i] != '/' by {
            lemma_name_char_not_punct(n[i]);
        }
    }
    let line = header_line(b);
    let inner = line.subrange(1, line.len() - 1);
    lemma_name_char_not_punct(n[0]);
    if b.ty == text_type() {
        assert(inner =~= n);
        lemma_first_index_range(inner, ':');
        assert(first_index(inner, ':') == -1) by {
            if first_index(inner, ':') != -1 {
                assert(inner[first_index(inner, ':')] == ':');
            }
        }
        lemma_text_type_normal();
    } else {
        assert(inner =~= n + seq![':'] + b.ty);
        assert(is_first(inner, ':', n.len() as int));
        lemma_first_index(inner, ':', n.len() as int);
        assert(inner.take(n.len() as int) =~= n);
        assert(inner.skip(n.len() as int + 1) =~= b.ty);
    }
    assert(inner[0] == n[0]);
    assert(name_and_required_type(inner) == Ok::<(Seq<char>, Seq<char>), SpecErrorKind>((n, b.ty)));
}

proof fn lemma_closing_control(b: SpecBlock)
    requires
        valid_name(b.name),
    ensures
        control(closing_line(b)) == Ok::<Option<SpecControl>, SpecErrorKind>(Some(SpecControl::Close { name: b.name, close_ty: None })),
        closes(closing_line(b), b.name),
{
    let n = b.name;
    lemma_name_chars(n);
    let line = closing_line(b);
    let inner = line.subrange(1, line.len() - 1);
    assert(inner.skip(1) =~= n);
    lemma_first_index_range(n, ':');
    assert(first_index(n, ':') == -1) by {
        if first_index(n, ':') != -1 {
            lemma_name_char_not_punct(n[first_index(n, ':')]);
        }
    }
    assert(name_and_optional_type(n) == Ok::<(Seq<char>, Option<Seq<char>>), SpecErrorKind>((n, None)));
}

proof fn lemma_split_lines_unlines(ls: Seq<Seq<char>>)
    requires
        forall|i: int| 0 <= i < ls.len() ==> lacks(#[trigger] ls[i], '\n'),
    ensures
        split_lines(unlines(ls)) == ls,
{
    if ls.len() == 0 {
        assert(unlines(ls) =~= Seq::<char>::empty());
    } else {
        lemma_unlines_join(ls);
        let u = unlines(ls);
        assert(u.last() == '\n');
        assert(u.drop_last() =~= join(ls));
        lemma_split_all_join(ls);
    }
}

proof fn lemma_unlines_lacks(ls: Seq<Seq<char>>, x: char)
    requires
        x != '\n',
        forall|i: int| 0 <= i < ls.len() ==> lacks(#[trigger] ls[i], x),
    ensures
        lacks(unlines(ls), x),
    decreases ls.len(),
{
    if ls.len() > 0 {
        let r = ls.drop_first();
        assert forall|i: int| 0 <= i < r.len() implies lacks(#[trigger] r[i], x) by {
            assert(r[i] == ls[i + 1]);
        }
        lemma_unlines_lacks(r, x);
        assert(lacks(ls[0], x));
        let u = unlines(ls);
        assert forall|i: int| 0 <= i < u.len() implies #[trigger] u[i] != x by {
            if i < ls[0].len() {
                assert(u[i] == ls[0][i]);
            } else if i > ls[0].len() {
                assert(u[i] == unlines(r)[i - ls[0].len() - 1]);
            }
        }
    }
}

/// The lines of a well-formed block hold neither `\n` nor `\r`.
proof fn lemma_block_lines_lack(b: SpecBlock)
    requires
        well_formed_block(b),
    ensures
        forall|i: int| 0 <= i < block_lines(b).len() ==> lacks(#[trigger] block_lines(b)[i], '\n'),
        forall|i: int| 0 <= i < block_lines(b).len() ==> lacks(#[trigger] block_lines(b)[i], '\r'),
{
    let n = b.name;
    lemma_name_chars(n);
    assert forall|i: int| 0 <= i < n.len() implies #[trigger] n[i] != '\n' && n[i] != '\r' by {
        lemma_name_char_not_punct(n[i]);
    }
    assert(forall|i: int| 0 <= i < b.ty.len() ==> is_type_char(#[trigger] b.ty[i])) by {
        if exists|i: int| 0 <= i < b.ty.len() && !is_type_char(#[trigger] b.ty[i]) {
            assert(normalize_type(b.ty) is Err);
        }
    }
    let h = header_line(b);
    assert forall|i: int| 0 <= i < h.len() implies #[trigger] h[i] != '\n' && h[i] != '\r' by {
        if 1 <= i < 1 + n.len() {
            assert(h[i] == n[i - 1]);
        } else if b.ty != text_type() && 2 + n.len() <= i < 2 + n.len() + b.ty.len() {
            assert(h[i] == b.ty[i - 2 - n.len()]);
            assert(is_type_char(b.ty[i - 2 - n.len()]));
        }
    }
    let cl = closing_line(b);
    assert forall|i: int| 0 <= i < cl.len() implies #[trigger] cl[i] != '\n' && cl[i] != '\r' by {
        if 2 <= i < 2 + n.len() {
            assert(cl[i] == n[i - 2]);
        }
    }
    let body = body_lines(b.content);
    if b.content.len() > 0 {
        lemma_split_all_lacks_newline(b.content);
        lemma_split_all_lacks(b.content, '\r');
    }
    let bl = block_lines(b);
    assert forall|i: int| 0 <= i < bl.len() implies lacks(#[trigger] bl[i], '\n') && lacks(bl[i], '\r') by {
        if i == 0 {
            assert(bl[0] == h);
        } else if i <= body.len() {
            assert(bl[i] == body[i - 1]);
        } else {
            assert(bl[i] == cl);
        }
    }
}

proof fn lemma_all_lines_lack(bs: Seq<SpecBlock>)
    requires
        forall|k: int| 0 <= k < bs.len() ==> well_formed_block(#[trigger] bs[k]),
    ensures
        forall|i: int| 0 <= i < all_lines(bs).len() ==> lacks(#[trigger] all_lines(bs)[i], '\n'),
        forall|i: int| 0 <= i < all_lines(bs).len() ==> lacks(#[trigger] all_lines(bs)[i], '\r'),
    decreases bs.len(),
{
    if bs.len() > 0 {
        let d = bs.drop_last();
        assert forall|k: int| 0 <= k < d.len() implies well_formed_block(#[trigger] d[k]) by {
            assert(d[k] == bs[k]);
        }
        lemma_all_lines_lack(d);
        lemma_block_lines_lack(bs.last());
        let a = all_lines(d);
        let bl = block_lines(bs.last());
        let l = all_lines(bs);
        assert forall|i: int| 0 <= i < l.len() implies lacks(#[trigger] l[i], '\n') && lacks(l[i], '\r') by {
            if i < a.len() {
                assert(l[i] == a[i]);
            } else {
                assert(l[i] == bl[i - a.len()]);
            }
        }
    }
}

/// Past lines that are not closing lines for `name`, the search for the
/// matching closing line goes on unchanged.
proof fn lemma_matching_close_skip(ls: Seq<Seq<char>>, a: int, b: int, name: Seq<char>, ty: Seq<char>)
    requires
        0 <= a <= b <= ls.len(),
        forall|j: int| a <= j < b ==> !closes(#[trigger] ls[j], name),
    ensures
        matching_close(ls, a, name, ty) == matching_close(ls, b, name, ty),
    decreases b - a,
{
    if a < b {
        assert(!closes(ls[a], name));
        lemma_matching_close_skip(ls, a + 1, b, name, ty);
    }
}

/// Past lines that are not opening lines, the search for the next opening
/// line goes on unchanged.
proof fn lemma_next_opening_skip(ls: Seq<Seq<char>>, a: int, b: int)
    requires
        0 <= a <= b <= ls.len(),
        forall|j: int| a <= j < b ==> !(#[trigger] control(ls[j]) matches Ok(Some(_))),
    ensures
        next_opening(ls, a) == next_opening(ls, b),
    decreases b - a,
{
    if a < b {
        assert(!(control(ls[a]) matches Ok(Some(_))));
        lemma_next_opening_skip(ls, a + 1, b);
    }
}

proof fn lemma_body_join(c: Seq<char>)
    ensures
        join(body_lines(c)) == c,
        body_text(body_lines(c)) == c,
{
    if c.len() == 0 {
        assert(join(body_lines(c)) =~= c);
    } else {
        lemma_join_split_all(c);
        let q = first_index(c, '\n');
        lemma_first_index_range(c, '\n');
        if 0 <= q < c.len() {
            lemma_join_split_all(c.skip(q + 1));
            assert(split_all(c).len() >= 2);
        } else {
            assert(split_all(c) == seq![c]);
        }
    }
}

/// Past lines that are not control lines, there is no closing line.
proof fn lemma_first_close_skip(ls: Seq<Seq<char>>, a: int, end: int)
    requires
        0 <= a <= end <= ls.len(),
        forall|j: int| a <= j < end ==> !(#[trigger] control(ls[j]) matches Ok(Some(_))),
    ensures
        first_close(ls, a, end) == end,
    decreases end - a,
{
    if a < end {
        assert(!(control(ls[a]) matches Ok(Some(_))));
        lemma_first_close_skip(ls, a + 1, end);
    }
}

proof fn lemma_all_lines_first(bs: Seq<SpecBlock>)
    requires
        bs.len() > 0,
    ensures
        all_lines(bs).len() > 0,
        all_lines(bs)[0] == header_line(bs[0]),
{
    assert(bs =~= seq![bs[0]] + bs.drop_first());
    lemma_all_lines_append(seq![bs[0]], bs.drop_first());
    lemma_all_lines_single(bs[0]);
}

/// Reading the lines of `bs` from the first line of block `k` gives the
/// blocks from `k` on.
proof fn lemma_parse_suffix(bs: Seq<SpecBlock>, k: int)
    requires
        renders_cleanly(bs),
        0 <= k <= bs.len(),
    ensures
        parse_lines(all_lines(bs), all_lines(bs.take(k)).len() as int) == Ok::<Seq<SpecBlock>, SpecError>(parsed_views(bs).skip(k)),
    decreases bs.len() - k,
{
    let l = all_lines(bs);
    let pre = all_lines(bs.take(k));
    let pv = parsed_views(bs);
    assert(bs.take(k) + bs.skip(k) =~= bs);
    lemma_all_lines_append(bs.take(k), bs.skip(k));
    if k == bs.len() {
        assert(bs.skip(k) =~= Seq::<SpecBlock>::empty());
        assert(all_lines(bs.skip(k)) =~= Seq::<Seq<char>>::empty());
        assert(l =~= pre);
        assert(pv.skip(k) =~= Seq::<SpecBlock>::empty());
    } else {
        let b = bs[k];
        let rest = bs.skip(k + 1);
        assert(bs.skip(k) =~= seq![b] + rest);
        lemma_all_lines_append(seq![b], rest);
        lemma_all_lines_single(b);
        let bl = block_lines(b);
        let post = all_lines(rest);
        assert(l =~= pre + bl + post);
        assert(bs.take(k + 1) =~= bs.take(k) + seq![b]);
        lemma_all_lines_append(bs.take(k), seq![b]);
        let i = pre.len() as int;
        let h = bl.len() as int;
        assert(all_lines(bs.take(k + 1)).len() == i + h);
        lemma_parse_suffix(bs, k + 1);
        assert(well_formed_block(b));
        lemma_header_control(b);
        assert(l[i] == header_line(b));
        let body = body_lines(b.content);
        let m = body.len() as int;
        assert forall|t: int| 0 <= t < m implies l[i + 1 + t] == #[trigger] body[t] by {
            assert(bl[1 + t] == body[t]);
        }
        assert forall|t: int| 0 <= t < post.len() implies l[i + h + t] == #[trigger] post[t] by {}
        assert(l.subrange(i + 1, i + 1 + m) =~= body);
        lemma_body_join(b.content);
        let name = b.name;
        let ty = b.ty;
        let next = if renders_paired(b) {
            assert(h == m + 2);
            assert(l[i + 1 + m] == closing_line(b)) by {
                assert(bl[1 + m] == closing_line(b));
            }
            assert forall|j: int| i + 1 <= j < i + 1 + m implies !closes(#[trigger] l[j], name) by {
                assert(l[j] == body[j - i - 1]);
                assert(!closes(body_lines(bs[k].content)[j - i - 1], bs[k].name));
            }
            lemma_matching_close_skip(l, i + 1, i + 1 + m, name, ty);
            lemma_closing_control(b);
            assert(matching_close(l, i + 1 + m, name, ty) == Ok::<Option<int>, SpecError>(Some(i + 1 + m)));
            i + 1 + m + 1
        } else {
            assert(h == m + 1);
            let c = b.content;
            assert forall|j: int| i + 1 <= j < i + 1 + m implies !(#[trigger] control(l[j]) matches Ok(Some(_))) by {
                lemma_normalize_id(c);
                let t = j - i - 1;
                assert(l[j] == body[t]);
                assert(split_all(normalize(c))[t] == body[t]);
                assert(!(control(split_all(normalize(c))[t]) matches Ok(Some(_))));
            }
            assert forall|j: int| i + 1 <= j < l.len() implies !closes(#[trigger] l[j], name) by {
                if j < i + 1 + m {
                    assert(!(control(l[j]) matches Ok(Some(_))));
                } else {
                    let t = j - i - h;
                    assert(l[j] == post[t]);
                    assert(!closes(all_lines(bs.skip(k + 1))[t], bs[k].name));
                }
            }
            lemma_matching_close_skip(l, i + 1, l.len() as int, name, ty);
            lemma_next_opening_skip(l, i + 1, i + h);
            lemma_first_close_skip(l, i + 1, i + h);
            if k + 1 < bs.len() {
                lemma_all_lines_first(rest);
                assert(rest[0] == bs[k + 1]);
                lemma_header_control(bs[k + 1]);
                assert(l[i + h] == header_line(bs[k + 1]));
            } else {
                assert(rest =~= Seq::<SpecBlock>::empty());
                assert(post =~= Seq::<Seq<char>>::empty());
            }
            assert(next_opening(l, i + h) == i + h);
            i + h
        };
        assert(next == i + h);
        assert(spec_block(name, ty, body_text(l.subrange(i + 1, i + 1 + m)), renders_paired(b)) == as_parsed(b));
        assert(pv.skip(k) =~= seq![as_parsed(b)] + pv.skip(k + 1));
    }
}

/// Writing blocks as PML text and reading the text back gives the same blocks,
/// each paired exactly when it was written with a closing line, provided that the
/// text reads back unambiguously.
pub proof fn law_render_then_parse(bs: Seq<SpecBlock>)
    requires
        renders_cleanly(bs),
    ensures
        parse_document(render(bs)) == Ok::<Seq<SpecBlock>, SpecError>(parsed_views(bs)),
{
    let l = all_lines(bs);
    lemma_render_all_lines(bs);
    lemma_all_lines_lack(bs);
    lemma_unlines_lacks(l, '\r');
    lemma_normalize_id(render(bs));
    lemma_split_lines_unlines(l);
    lemma_parse_suffix(bs, 0);
    assert(bs.take(0) =~= Seq::<SpecBlock>::empty());
    assert(all_lines(bs.take(0)) =~= Seq::<Seq<char>>::empty());
    assert(parsed_views(bs).skip(0) =~= parsed_views(bs));
}

proof fn lemma_lower_type_char(c: char)
    requires
        is_type_char(c),
    ensures
        is_type_char(lower_char(c)),
        lower_char(lower_char(c)) == lower_char(c),
{
}

/// Normalizing a normalized type changes nothing.
pub proof fn law_normalize_type_idempotent(ty: Seq<char>)
    ensures
        normalize_type(ty) matches Ok(t) ==> normalize_type(t) == Ok::<Seq<char>, SpecErrorKind>(t),
{
    if let Ok(t) = normalize_type(ty) {
        let l = ty.map_values(|c: char| lower_char(c));
        assert(forall|i: int| 0 <= i < ty.len() ==> is_type_char(#[trigger] ty[i]));
        if l == md_type() {
            let m = markdown_type();
            assert(forall|i: int| 0 <= i < m.len() ==> is_type_char(#[trigger] m[i]));
            assert(m.map_values(|c: char| lower_char(c)) =~= m);
            assert(m != md_type()) by {
                assert(m.len() != md_type().len());
            }
        } else {
            assert forall|i: int| 0 <= i < l.len() implies is_type_char(#[trigger] l[i]) by {
                lemma_lower_type_char(ty[i]);
            }
            assert forall|i: int| 0 <= i < l.len() implies #[trigger] lower_char(l[i]) == l[i] by {
                lemma_lower_type_char(ty[i]);
            }
            assert(l.map_values(|c: char| lower_char(c)) =~= l);
        }
    }
}

/// What an opening line announces is a valid name and a normalized type.
proof fn lemma_control_open(line: Seq<char>)
    ensures
        control(line) matches Ok(Some(SpecControl::Open { name, ty })) ==> valid_name(name) && (ty.len() == 0 || normalize_type(ty) == Ok::<Seq<char>, SpecErrorKind>(ty)),
{
    if let Ok(Some(SpecControl::Open { name, ty })) = control(line) {
        let inner = line.subrange(1, line.len() - 1);
        let q = first_index(inner, ':');
        let raw = if q < 0 { text_type() } else { inner.skip(q + 1) };
        law_normalize_type_idempotent(raw);
    }
}

proof fn lemma_join_lacks(ls: Seq<Seq<char>>, x: char)
    requires
        x != '\n',
        forall|i: int| 0 <= i < ls.len() ==> lacks(#[trigger] ls[i], x),
    ensures
        lacks(join(ls), x),
    decreases ls.len(),
{
    if ls.len() > 1 {
        let r = ls.drop_first();
        assert forall|i: int| 0 <= i < r.len() implies lacks(#[trigger] r[i], x) by {
            assert(r[i] == ls[i + 1]);
        }
        lemma_join_lacks(r, x);
        assert(lacks(ls[0], x));
        let j = join(ls);
        assert forall|i: int| 0 <= i < j.len() implies #[trigger] j[i] != x by {
            if i < ls[0].len() {
                assert(j[i] == ls[0][i]);
            } else if i > ls[0].len() {
                assert(j[i] == join(r)[i - ls[0].len() - 1]);
            }
        }
    } else if ls.len() == 1 {
        assert(lacks(ls[0], x));
    }
}

proof fn lemma_parse_lines_well_formed(ls: Seq<Seq<char>>, i: int)
    requires
        forall|k: int| 0 <= k < ls.len() ==> lacks(#[trigger] ls[k], '\r'),
    ensures
        parse_lines(ls, i) matches Ok(bs) ==> forall|k: int| 0 <= k < bs.len() ==> parsed_block_ok(#[trigger] bs[k]),
    decreases ls.len() - i,
{
    if 0 <= i < ls.len() {
        lemma_control_open(ls[i]);
        match control(ls[i]) {
            Ok(None) => {
                lemma_parse_lines_well_formed(ls, i + 1);
            },
            Ok(Some(SpecControl::Open { name, ty })) => {
                crate::parse::lemma_matching_close_bounds(ls, i + 1, name, ty);
                crate::parse::lemma_next_opening_bounds(ls, i + 1);
                let end = match matching_close(ls, i + 1, name, ty) {
                    Ok(Some(c)) => c,
                    _ => next_opening(ls, i + 1),
                };
                let next = match matching_close(ls, i + 1, name, ty) {
                    Ok(Some(c)) => c + 1,
                    _ => next_opening(ls, i + 1),
                };
                let part = ls.subrange(i + 1, end);
                assert forall|k: int| 0 <= k < part.len() implies lacks(#[trigger] part[k], '\r') by {
                    assert(part[k] == ls[i + 1 + k]);
                }
                lemma_join_lacks(part, '\r');
                assert(lacks(body_text(part), '\r'));
                lemma_parse_lines_well_formed(ls, next);
                if let Ok(bs) = parse_lines(ls, i) {
                    let rest = parse_lines(ls, next)->Ok_0;
                    assert forall|k: int| 0 <= k < bs.len() implies parsed_block_ok(#[trigger] bs[k]) by {
                        if k > 0 {
                            assert(bs[k] == rest[k - 1]);
                        }
                    }
                }
            },
            _ => {},
        }
    }
}

/// Every block that parsing yields has a valid name, a normalized type (or the
/// empty type of a header `[NAME:]`) and a body without `\r`.
pub proof fn law_parsed_blocks_well_formed(s: Seq<char>)
    ensures
        parse_document(s) matches Ok(bs) ==> forall|k: int| 0 <= k < bs.len() ==> parsed_block_ok(#[trigger] bs[k]),
{
    let t = normalize(s);
    lemma_normalize_lacks_cr(s);
    if t.len() > 0 {
        if t.last() == '\n' {
            assert(lacks(t.drop_last(), '\r'));
            lemma_split_all_lacks(t.drop_last(), '\r');
        } else {
            lemma_split_all_lacks(t, '\r');
        }
    }
    lemma_parse_lines_well_formed(split_lines(t), 0);
}

/// Every block that the builder accepts is well formed.
pub proof fn law_pushed_block_well_formed(name: Seq<char>, ty: Option<Seq<char>>, content: Seq<char>, paired: bool)
    ensures
        pushed_block(name, ty, content, paired) matches Ok(b) ==> well_formed_block(b),
{
    law_normalize_type_idempotent(match ty {
        Some(t) => t,
        None => text_type(),
    });
    lemma_normalize_lacks_cr(content);
}

/// No line of blocks written without closing lines is a closing line.
proof fn lemma_short_lines_close_nothing(cs: Seq<SpecBlock>)
    requires
        forall|j: int| 0 <= j < cs.len() ==> well_formed_block(#[trigger] cs[j]) && !renders_paired(cs[j]),
    ensures
        forall|t: int| 0 <= t < all_lines(cs).len() ==> !(#[trigger] control(all_lines(cs)[t]) matches Ok(Some(SpecControl::Close { .. }))),
    decreases cs.len(),
{
    if cs.len() > 0 {
        let init = cs.drop_last();
        let b = cs.last();
        assert forall|j: int| 0 <= j < init.len() implies well_formed_block(#[trigger] init[j]) && !renders_paired(init[j]) by {
            assert(init[j] == cs[j]);
        }
        lemma_short_lines_close_nothing(init);
        assert(well_formed_block(cs[cs.len() - 1]) && !renders_paired(cs[cs.len() - 1]));
        lemma_header_control(b);
        let bl = block_lines(b);
        let body = body_lines(b.content);
        let a = all_lines(init);
        assert(all_lines(cs) == a + bl);
        assert forall|t: int| 0 <= t < all_lines(cs).len() implies !(#[trigger] control(all_lines(cs)[t]) matches Ok(Some(SpecControl::Close { .. }))) by {
            if t < a.len() {
                assert(all_lines(cs)[t] == a[t]);
            } else if t == a.len() {
                assert(all_lines(cs)[t] == header_line(b));
            } else {
                let u = t - a.len() - 1;
                assert(all_lines(cs)[t] == body[u]);
                lemma_normalize_id(b.content);
                assert(split_all(normalize(b.content))[u] == body[u]);
                assert(!(control(split_all(normalize(b.content))[u]) matches Ok(Some(_))));
            }
        }
    }
}

/// Blocks written without closing lines read back unchanged, when each is
/// well formed, was not paired, and no line of its body is a control line.
pub proof fn law_short_render_then_parse(bs: Seq<SpecBlock>)
    requires
        forall|k: int| 0 <= k < bs.len() ==> {
            &&& !(#[trigger] bs[k]).paired
            &&& well_formed_block(bs[k])
            &&& !has_control_line(bs[k].content)
        },
    ensures
        parse_document(render(bs)) == Ok::<Seq<SpecBlock>, SpecError>(bs),
{
    assert forall|k: int, t: int|
        0 <= k < bs.len() && !renders_paired(bs[k]) && 0 <= t < all_lines(bs.skip(k + 1)).len()
            implies !closes(#[trigger] all_lines(bs.skip(k + 1))[t], bs[k].name) by {
        let rest = bs.skip(k + 1);
        assert forall|j: int| 0 <= j < rest.len() implies well_formed_block(#[trigger] rest[j]) && !renders_paired(rest[j]) by {
            assert(rest[j] == bs[k + 1 + j]);
        }
        lemma_short_lines_close_nothing(rest);
    }
    assert(renders_cleanly(bs));
    law_render_then_parse(bs);
    assert(parsed_views(bs) =~= bs);
}

} // verus!
