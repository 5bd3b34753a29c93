use vstd::prelude::*;
use crate::chars::alphanumeric;
use crate::model::{SpecBlock, SpecError, SpecErrorKind};
use crate::parse::parse_document;
use crate::render::{closing_line, has_control_line, header_line, pushed_block, render, render_block, renders_paired};
use crate::roundtrip::{law_short_render_then_parse, well_formed_block};
use crate::syntax::{
    control, lemma_text_type_normal, lower_char, md_type, normalize_type, text_type, valid_main,
    valid_name, SpecControl,
};
use crate::text::{first_index, lemma_first_index_none, normalize, split_all};

verus! {

/// A name as the grammar writes it without a tag: non-empty segments of
/// letters, digits and `_`, joined by single dots.
pub open spec fn grammar_name(n: Seq<char>) -> bool {
    &&& n.len() > 0
    &&& n[0] != '.'
    &&& n.last() != '.'
    &&& forall|i: int| 0 <= i < n.len() ==> (#[trigger] n[i] == '.' || n[i] == '_' || alphanumeric(n[i]))
    &&& forall|i: int| 0 <= i < n.len() - 1 ==> !(#[trigger] n[i] == '.' && n[i + 1] == '.')
}

/// Every name made of letters, digits and `_` in dot-separated segments is a
/// valid name, and the document that is just its header `[NAME]` reads as one
/// short block of that name, of type `text`, with an empty body.
pub proof fn law_grammar_names_parse(n: Seq<char>)
    requires
        grammar_name(n),
    ensures
        valid_name(n),
        parse_document(seq!['['] + n + seq![']', '\n']) == Ok::<Seq<SpecBlock>, SpecError>(
            seq![SpecBlock { name: n, ty: text_type(), content: Seq::empty(), paired: false }],
        ),
{
    assert forall|j: int| 0 <= j < n.len() implies n[j] != '#' by {
        assert(n[j] == '.' || n[j] == '_' || alphanumeric(n[j]));
    }
    lemma_first_index_none(n, '#');
    assert(first_index(n, '#') == -1);
    assert forall|i: int, j: int|
        #![trigger n[i], n[j]]
        0 <= i && j == i + 1 && j < n.len() && n[i] == '.' implies crate::syntax::is_name_char(n[j]) by {
        if j < n.len() - 1 {
            assert(!(n[j] == '.' && n[j + 1] == '.'));
        }
        assert(!(n[i] == '.' && n[i + 1] == '.'));
        assert(n[j] == '.' || n[j] == '_' || alphanumeric(n[j]));
    }
    assert(n[0] == '.' || n[0] == '_' || alphanumeric(n[0]));
    assert(valid_main(n));
    let b = SpecBlock { name: n, ty: text_type(), content: Seq::empty(), paired: false };
    lemma_text_type_normal();
    assert(!has_control_line(b.content));
    assert(well_formed_block(b));
    law_short_render_then_parse(seq![b]);
    assert(seq![b].drop_last() =~= Seq::<SpecBlock>::empty());
    assert(render(seq![b]) == render(Seq::<SpecBlock>::empty()) + render_block(b));
    assert(render(seq![b]) =~= seq!['['] + n + seq![']', '\n']);
}

/// A type as the grammar writes it: a non-empty run of ASCII letters, digits,
/// `_` and `-`.
pub open spec fn grammar_type(t: Seq<char>) -> bool {
    &&& t.len() > 0
    &&& forall|i: int|
        0 <= i < t.len() ==> {
            let c = #[trigger] t[i];
            ('a' <= c && c <= 'z') || ('A' <= c && c <= 'Z') || ('0' <= c && c <= '9') || c == '_' || c == '-'
        }
}

/// Every type the grammar admits is accepted: normalizing it succeeds, keeps
/// its length (or gives `markdown` for `md`), leaves a type without capitals
/// other than `md` as it is, and the builder accepts a block of that type under
/// any valid name.
pub proof fn law_grammar_types_accepted(t: Seq<char>, name: Seq<char>, content: Seq<char>, paired: bool)
    requires
        grammar_type(t),
    ensures
        normalize_type(t) is Ok,
        (forall|i: int| 0 <= i < t.len() ==> !('A' <= #[trigger] t[i] && t[i] <= 'Z')) && t != seq!['m', 'd']
            ==> normalize_type(t) == Ok::<Seq<char>, SpecErrorKind>(t),
        valid_name(name) ==> pushed_block(name, Some(t), content, paired) is Ok,
{
    assert forall|i: int| 0 <= i < t.len() implies crate::syntax::is_type_char(#[trigger] t[i]) by {
        let c = t[i];
        assert(('a' <= c && c <= 'z') || ('A' <= c && c <= 'Z') || ('0' <= c && c <= '9') || c == '_' || c == '-');
    }
    let l = t.map_values(|c: char| lower_char(c));
    if forall|i: int| 0 <= i < t.len() ==> !('A' <= #[trigger] t[i] && t[i] <= 'Z') {
        assert(l =~= t);
        if t != seq!['m', 'd'] {
            assert(md_type() =~= seq!['m', 'd']);
            assert(l != md_type());
        }
    }
}

/// The type with its ASCII capitals made small.
pub open spec fn ascii_small(t: Seq<char>) -> Seq<char> {
    Seq::new(t.len(), |i: int| if 'A' <= t[i] && t[i] <= 'Z' { ((t[i] as u32) + 32) as char } else { t[i] })
}

/// Types are compared without regard to case, and `md` in any case means `markdown`:
/// normalizing a type of the grammar gives its small-letter form, or `markdown`
/// for `md`, `Md`, `mD` and `MD`.
pub proof fn law_grammar_type_normal_form(t: Seq<char>)
    requires
        grammar_type(t),
    ensures
        normalize_type(t) == Ok::<Seq<char>, SpecErrorKind>(
            if ascii_small(t) == seq!['m', 'd'] { seq!['m', 'a', 'r', 'k', 'd', 'o', 'w', 'n'] } else { ascii_small(t) },
        ),
{
    law_grammar_types_accepted(t, Seq::empty(), Seq::empty(), false);
    let l = t.map_values(|c: char| lower_char(c));
    assert(l =~= ascii_small(t));
    assert(md_type() =~= seq!['m', 'd']);
    assert(crate::syntax::markdown_type() =~= seq!['m', 'a', 'r', 'k', 'd', 'o', 'w', 'n']);
}

/// The lines of a body after newline normalization.
pub open spec fn written_lines(c: Seq<char>) -> Seq<Seq<char>> {
    split_all(normalize(c))
}

/// A block is written with a closing line exactly when it is paired or one of
/// its body lines is an opening or closing line: a block that is not paired and
/// whose lines are all no control lines (text, or malformed brackets such as
/// `[1, 2, 3]`) is written as header, body and nothing more.
pub proof fn law_closing_line_exactly_when_needed(b: SpecBlock)
    ensures
        (!b.paired && forall|k: int| 0 <= k < written_lines(b.content).len() ==> !(#[trigger] control(written_lines(b.content)[k]) matches Ok(Some(_))))
            ==> render(seq![b]) == header_line(b) + seq!['\n'] + b.content + (if b.content.len() > 0 { seq!['\n'] } else { Seq::empty() }),
        (b.paired || (b.content.len() > 0 && exists|k: int| 0 <= k < written_lines(b.content).len() && (#[trigger] control(written_lines(b.content)[k]) matches Ok(Some(_)))))
            ==> render(seq![b]) == header_line(b) + seq!['\n'] + b.content + (if b.content.len() > 0 { seq!['\n'] } else { Seq::empty() }) + closing_line(b) + seq!['\n'],
{
    assert(seq![b].drop_last() =~= Seq::<SpecBlock>::empty());
    assert(render(seq![b]) == render(Seq::<SpecBlock>::empty()) + render_block(b));
    assert(render(seq![b]) =~= render_block(b));
    if !b.paired && forall|k: int| 0 <= k < written_lines(b.content).len() ==> !(#[trigger] control(written_lines(b.content)[k]) matches Ok(Some(_))) {
        assert(!has_control_line(b.content));
        assert(!renders_paired(b));
    }
    if b.paired || (b.content.len() > 0 && exists|k: int| 0 <= k < written_lines(b.content).len() && (#[trigger] control(written_lines(b.content)[k]) matches Ok(Some(_)))) {
        assert(renders_paired(b));
    }
}

} // verus!
