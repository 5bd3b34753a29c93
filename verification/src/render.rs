use vstd::prelude::*;
use crate::chars::{chars_to_string, str_to_chars};
use crate::model::{block_views, PmlBlock, PmlError, PmlErrorKind, SpecBlock, SpecErrorKind};
use crate::parse::chars_eq;
use crate::syntax::{
    control, is_valid_name, normalize_type, normalize_type_range, parse_control_line, text_type,
    text_type_exec, valid_name,
};
use crate::text::{normalize, normalize_newlines, split_all, split_all_prefix, views};

verus! {

/// Some line of the text (split at `\n` after normalizing newlines) is an
/// opening or closing line.
pub open spec fn has_control_line(c: Seq<char>) -> bool {
    let pieces = split_all(normalize(c));
    &&& c.len() > 0
    &&& exists|k: int| 0 <= k < pieces.len() && (#[trigger] control(pieces[k]) matches Ok(Some(_)))
}

/// A block is written with a closing line when it was paired or when its body
/// holds a control line.
pub open spec fn renders_paired(b: SpecBlock) -> bool {
    b.paired || has_control_line(b.content)
}

/// `[NAME]` or `[NAME:TYPE]` (the type `text` is left out).
pub open spec fn header_line(b: SpecBlock) -> Seq<char> {
    seq!['['] + b.name + (if b.ty == text_type() { Seq::empty() } else { seq![':'] + b.ty }) + seq![']']
}

/// `[/NAME]`.
pub open spec fn closing_line(b: SpecBlock) -> Seq<char> {
    seq!['[', '/'] + b.name + seq![']']
}

/// The text of one block: header, body (with a `\n` after it when it is not
/// empty), and the closing line when the block renders paired.
pub open spec fn render_block(b: SpecBlock) -> Seq<char> {
    header_line(b) + seq!['\n'] + b.content + (if b.content.len() > 0 { seq!['\n'] } else { Seq::empty() })
        + (if renders_paired(b) { closing_line(b) + seq!['\n'] } else { Seq::empty() })
}

/// The text of a block sequence: the blocks' texts one after another.
pub open spec fn render(bs: Seq<SpecBlock>) -> Seq<char>
    decreases bs.len(),
{
    if bs.len() == 0 {
        Seq::empty()
    } else {
        render(bs.drop_last()) + render_block(bs.last())
    }
}

fn push_all(out: &mut Vec<char>, s: &Vec<char>)
    ensures
        final(out)@ == old(out)@ + s@,
{
    let mut i: usize = 0;
    let ghost base = out@;
    while i < s.len()
        invariant
            i <= s.len(),
            out@ == base + s@.take(i as int),
        decreases s.len() - i,
    {
        out.push(s[i]);
        i = i + 1;
        assert(out@ =~= base + s@.take(i as int));
    }
    assert(s@.take(i as int) =~= s@);
}

/// Whether some line of `content` is an opening or closing line.
pub fn content_has_control_line(content: &Vec<char>) -> (r: bool)
    ensures
        r == has_control_line(content@),
{
    if content.len() == 0 {
        return false;
    }
    let text = normalize_newlines(content);
    assert(text@.take(text@.len() as int) =~= text@);
    let pieces = split_all_prefix(&text, text.len());
    let ghost ps = split_all(normalize(content@));
    let mut k: usize = 0;
    while k < pieces.len()
        invariant
            k <= pieces.len(),
            ps == views(pieces@),
            content@.len() > 0,
            ps == split_all(normalize(content@)),
            forall|j: int| 0 <= j < k ==> !(#[trigger] control(ps[j]) matches Ok(Some(_))),
        decreases pieces.len() - k,
    {
        assert(ps[k as int] == pieces@[k as int]@);
        match parse_control_line(&pieces[k]) {
            Ok(Some(_)) => {
                assert(control(ps[k as int]) matches Ok(Some(_)));
                return true;
            },
            _ => {},
        }
        k = k + 1;
    }
    false
}

/// The characters of a block's fields.
fn block_chars(b: &PmlBlock) -> (r: (Vec<char>, Vec<char>, Vec<char>))
    ensures
        r.0@ == b.name@,
        r.1@ == b.ty@,
        r.2@ == b.content@,
{
    (str_to_chars(b.name.as_str()), str_to_chars(b.ty.as_str()), str_to_chars(b.content.as_str()))
}

/// Whether the block is written with a closing line.
pub fn should_render_as_paired(b: &PmlBlock) -> (r: bool)
    ensures
        r == renders_paired(b@),
{
    if b.paired {
        return true;
    }
    let content = str_to_chars(b.content.as_str());
    content_has_control_line(&content)
}

fn render_block_into(out: &mut Vec<char>, b: &PmlBlock)
    ensures
        final(out)@ == old(out)@ + render_block(b@),
{
    let (name, ty, content) = block_chars(b);
    let ghost base = out@;
    out.push('[');
    push_all(out, &name);
    let text = text_type_exec();
    if !chars_eq(&ty, &text) {
        out.push(':');
        push_all(out, &ty);
    }
    out.push(']');
    out.push('\n');
    assert(out@ =~= base + header_line(b@) + seq!['\n']);
    push_all(out, &content);
    if content.len() > 0 {
        out.push('\n');
    }
    let ghost mid = out@;
    assert(mid =~= base + header_line(b@) + seq!['\n'] + b@.content + (if b@.content.len() > 0 { seq!['\n'] } else { Seq::empty() }));
    if should_render_as_paired(b) {
        out.push('[');
        out.push('/');
        push_all(out, &name);
        out.push(']');
        out.push('\n');
        assert(out@ =~= mid + (closing_line(b@) + seq!['\n']));
    } else {
        assert(out@ =~= mid + Seq::<char>::empty());
    }
    assert(out@ =~= base + render_block(b@));
}

/// Writes blocks as PML text.
pub fn render_blocks(blocks: &[PmlBlock]) -> (s: String)
    ensures
        s@ == render(block_views(blocks@)),
{
    let mut out: Vec<char> = Vec::new();
    let mut i: usize = 0;
    let ghost bs = block_views(blocks@);
    assert(bs.take(0) =~= Seq::<SpecBlock>::empty());
    while i < blocks.len()
        invariant
            i <= blocks.len(),
            bs == block_views(blocks@),
            out@ == render(bs.take(i as int)),
        decreases blocks.len() - i,
    {
        render_block_into(&mut out, &blocks[i]);
        assert(bs.take(i + 1).drop_last() =~= bs.take(i as int));
        i = i + 1;
    }
    assert(bs.take(i as int) =~= bs);
    chars_to_string(&out)
}

/// Collects blocks and writes them as PML text.
pub struct PmlBuilder {
    blocks: Vec<PmlBlock>,
}

impl View for PmlBuilder {
    type V = Seq<SpecBlock>;

    closed spec fn view(&self) -> Seq<SpecBlock> {
        block_views(self.blocks@)
    }
}

/// The block that a push adds, or the error that refuses it.
pub open spec fn pushed_block(name: Seq<char>, ty: Option<Seq<char>>, content: Seq<char>, paired: bool) -> Result<SpecBlock, SpecErrorKind> {
    if !valid_name(name) {
        Err(SpecErrorKind::InvalidName(name))
    } else {
        match normalize_type(match ty { Some(t) => t, None => text_type() }) {
            Ok(t) => Ok(SpecBlock { name, ty: t, content: normalize(content), paired }),
            Err(k) => Err(k),
        }
    }
}

/// The view of an optional string slice.
pub open spec fn opt_view(t: Option<&str>) -> Option<Seq<char>> {
    match t {
        Some(s) => Some(s@),
        None => None,
    }
}

impl Default for PmlBuilder {
    fn default() -> (b: Self)
        ensures
            b@ == Seq::<SpecBlock>::empty(),
    {
        PmlBuilder::new()
    }
}

impl PmlBuilder {
    pub fn new() -> (b: Self)
        ensures
            b@ == Seq::<SpecBlock>::empty(),
    {
        let b = PmlBuilder { blocks: Vec::new() };
        assert(b@ =~= Seq::<SpecBlock>::empty());
        b
    }

    /// Adds a block written without a closing line (unless its body needs one).
    pub fn push_short(&mut self, name: &str, ty: Option<&str>, content: &str) -> (r: Result<&mut Self, PmlError>)
        ensures
            match pushed_block(name@, opt_view(ty), content@, false) {
                Ok(b) => r matches Ok(s) && s@ == old(self)@.push(b) && final(self)@ == final(s)@,
                Err(k) => r matches Err(e) && e@.line == 0 && e@.kind == k && final(self)@ == old(self)@,
            },
    {
        self.push_block(name, ty, content, false)
    }

    /// Adds a block written with a closing line.
    pub fn push_paired(&mut self, name: &str, ty: Option<&str>, content: &str) -> (r: Result<&mut Self, PmlError>)
        ensures
            match pushed_block(name@, opt_view(ty), content@, true) {
                Ok(b) => r matches Ok(s) && s@ == old(self)@.push(b) && final(self)@ == final(s)@,
                Err(k) => r matches Err(e) && e@.line == 0 && e@.kind == k && final(self)@ == old(self)@,
            },
    {
        self.push_block(name, ty, content, true)
    }

    /// The PML text of the blocks pushed so far.
    pub fn build(&self) -> (s: String)
        ensures
            s@ == render(self@),
    {
        render_blocks(self.blocks.as_slice())
    }

    fn push_block(&mut self, name: &str, ty: Option<&str>, content: &str, paired: bool) -> (r: Result<&mut Self, PmlError>)
        ensures
            match pushed_block(name@, opt_view(ty), content@, paired) {
                Ok(b) => r matches Ok(s) && s@ == old(self)@.push(b) && final(self)@ == final(s)@,
                Err(k) => r matches Err(e) && e@.line == 0 && e@.kind == k && final(self)@ == old(self)@,
            },
    {
        let name_chars = str_to_chars(name);
        if !is_valid_name(&name_chars) {
            return Err(PmlError { line: 0, kind: PmlErrorKind::InvalidName(chars_to_string(&name_chars)) });
        }
        let ty_chars = match ty {
            Some(t) => str_to_chars(t),
            None => text_type_exec(),
        };
        assert(ty_chars@.subrange(0, ty_chars@.len() as int) =~= ty_chars@);
        let ty_norm = match normalize_type_range(&ty_chars, 0, ty_chars.len()) {
            Ok(t) => t,
            Err(kind) => {
                return Err(PmlError { line: 0, kind });
            },
        };
        let content_chars = str_to_chars(content);
        let content_norm = normalize_newlines(&content_chars);
        let b = PmlBlock {
            name: chars_to_string(&name_chars),
            ty: chars_to_string(&ty_norm),
            content: chars_to_string(&content_norm),
            paired,
        };
        let ghost before = self@;
        self.blocks.push(b);
        assert(self@ =~= before.push(b@));
        Ok(self)
    }
}

} // verus!
