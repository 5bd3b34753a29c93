use vstd::prelude::*;

verus! {

/// One block of a PML document: its name, its normalized type, its raw body,
/// and whether it was closed by an explicit closing line.
#[derive(Debug, Clone, PartialEq, Eq)]
pub struct PmlBlock {
    pub name: String,
    pub ty: String,
    pub content: String,
    pub paired: bool,
}

/// The mathematical value of a block.
pub struct SpecBlock {
    pub name: Seq<char>,
    pub ty: Seq<char>,
    pub content: Seq<char>,
    pub paired: bool,
}

impl View for PmlBlock {
    type V = SpecBlock;

    open spec fn view(&self) -> SpecBlock {
        SpecBlock { name: self.name@, ty: self.ty@, content: self.content@, paired: self.paired }
    }
}

/// The views of a sequence of blocks.
pub open spec fn block_views(bs: Seq<PmlBlock>) -> Seq<SpecBlock> {
    bs.map_values(|b: PmlBlock| b@)
}

/// What went wrong, and on which line (1-based; 0 when no line applies).
#[derive(Debug, Clone, PartialEq, Eq)]
pub struct PmlError {
    pub line: usize,
    pub kind: PmlErrorKind,
}

#[derive(Debug, Clone, PartialEq, Eq)]
pub enum PmlErrorKind {
    ExpectedBlockHeader,
    InvalidControlLine(String),
    InvalidName(String),
    InvalidType(String),
    StrayClosingBlock(String),
    TypeMismatch { expected: String, found: String },
    MetaFieldConflict(String),
    InvalidTree(String),
}

pub enum SpecErrorKind {
    ExpectedBlockHeader,
    InvalidControlLine(Seq<char>),
    InvalidName(Seq<char>),
    InvalidType(Seq<char>),
    StrayClosingBlock(Seq<char>),
    TypeMismatch { expected: Seq<char>, found: Seq<char> },
    MetaFieldConflict(Seq<char>),
    InvalidTree(Seq<char>),
}

pub struct SpecError {
    pub line: int,
    pub kind: SpecErrorKind,
}

impl View for PmlErrorKind {
    type V = SpecErrorKind;

    open spec fn view(&self) -> SpecErrorKind {
        match self {
            PmlErrorKind::ExpectedBlockHeader => SpecErrorKind::ExpectedBlockHeader,
            PmlErrorKind::InvalidControlLine(s) => SpecErrorKind::InvalidControlLine(s@),
            PmlErrorKind::InvalidName(s) => SpecErrorKind::InvalidName(s@),
            PmlErrorKind::InvalidType(s) => SpecErrorKind::InvalidType(s@),
            PmlErrorKind::StrayClosingBlock(s) => SpecErrorKind::StrayClosingBlock(s@),
            PmlErrorKind::TypeMismatch { expected, found } => SpecErrorKind::TypeMismatch {
                expected: expected@,
                found: found@,
            },
            PmlErrorKind::MetaFieldConflict(s) => SpecErrorKind::MetaFieldConflict(s@),
            PmlErrorKind::InvalidTree(s) => SpecErrorKind::InvalidTree(s@),
        }
    }
}

impl View for PmlError {
    type V = SpecError;

    open spec fn view(&self) -> SpecError {
        SpecError { line: self.line as int, kind: self.kind@ }
    }
}

} // verus!
