use vstd::prelude::*;
use crate::chars::{chars_to_string, str_to_chars};
use crate::model::{PmlError, PmlErrorKind, SpecError, SpecErrorKind};

verus! {

pub open spec fn digit(d: int) -> char {
    if d == 0 {
        '0'
    } else if d == 1 {
        '1'
    } else if d == 2 {
        '2'
    } else if d == 3 {
        '3'
    } else if d == 4 {
        '4'
    } else if d == 5 {
        '5'
    } else if d == 6 {
        '6'
    } else if d == 7 {
        '7'
    } else if d == 8 {
        '8'
    } else {
        '9'
    }
}

/// The decimal digits of `n`, most significant first.
pub open spec fn decimal(n: nat) -> Seq<char>
    decreases n,
{
    if n < 10 {
        seq![digit(n as int)]
    } else {
        decimal(n / 10) + seq![digit((n % 10) as int)]
    }
}

/// What an error says, in words.
pub open spec fn error_message(e: SpecError) -> Seq<char> {
    let head = "line "@ + decimal(e.line as nat);
    match e.kind {
        SpecErrorKind::ExpectedBlockHeader => head + ": expected a PML block header"@,
        SpecErrorKind::InvalidControlLine(l) => head + ": invalid control line `"@ + l + "`"@,
        SpecErrorKind::InvalidName(n) => head + ": invalid block name `"@ + n + "`"@,
        SpecErrorKind::InvalidType(t) => head + ": invalid block type `"@ + t + "`"@,
        SpecErrorKind::StrayClosingBlock(n) => head + ": stray closing block `/"@ + n + "`"@,
        SpecErrorKind::TypeMismatch { expected, found } => head + ": closing type `"@ + found
            + "` does not match opening type `"@ + expected + "`"@,
        SpecErrorKind::MetaFieldConflict(n) => head + ": tree meta field conflicts with child key `"@ + n
            + "`"@,
        SpecErrorKind::InvalidTree(d) => head + ": invalid PML tree: "@ + d,
    }
}

fn digit_exec(d: usize) -> (c: char)
    requires
        d < 10,
    ensures
        c == digit(d as int),
{
    if d == 0 {
        '0'
    } else if d == 1 {
        '1'
    } else if d == 2 {
        '2'
    } else if d == 3 {
        '3'
    } else if d == 4 {
        '4'
    } else if d == 5 {
        '5'
    } else if d == 6 {
        '6'
    } else if d == 7 {
        '7'
    } else if d == 8 {
        '8'
    } else {
        '9'
    }
}

/// The decimal digits of `n`.
pub fn decimal_exec(n: usize) -> (v: Vec<char>)
    ensures
        v@ == decimal(n as nat),
{
    let mut m = n;
    let mut acc: Vec<char> = Vec::new();
    assert(decimal(n as nat) =~= decimal(m as nat) + acc@);
    while m >= 10
        invariant
            decimal(n as nat) == decimal(m as nat) + acc@,
        decreases m,
    {
        let d = digit_exec(m % 10);
        let ghost old_acc = acc@;
        acc.insert(0, d);
        assert(decimal(m as nat) == decimal((m / 10) as nat) + seq![digit((m % 10) as int)]);
        m = m / 10;
        assert(decimal(n as nat) =~= decimal(m as nat) + acc@);
    }
    let mut v: Vec<char> = Vec::new();
    v.push(digit_exec(m));
    assert(v@ =~= decimal(m as nat));
    let mut i: usize = 0;
    let ghost base = v@;
    while i < acc.len()
        invariant
            i <= acc.len(),
            v@ == base + acc@.take(i as int),
        decreases acc.len() - i,
    {
        v.push(acc[i]);
        i = i + 1;
        assert(v@ =~= base + acc@.take(i as int));
    }
    assert(acc@.take(i as int) =~= acc@);
    v
}

fn append_str(v: &mut Vec<char>, s: &str)
    ensures
        final(v)@ == old(v)@ + s@,
{
    let c = str_to_chars(s);
    append_chars(v, &c);
}

fn append_chars(v: &mut Vec<char>, c: &Vec<char>)
    ensures
        final(v)@ == old(v)@ + c@,
{
    let mut i: usize = 0;
    let ghost base = v@;
    while i < c.len()
        invariant
            i <= c.len(),
            v@ == base + c@.take(i as int),
        decreases c.len() - i,
    {
        v.push(c[i]);
        i = i + 1;
        assert(v@ =~= base + c@.take(i as int));
    }
    assert(c@.take(i as int) =~= c@);
}

fn append_string(v: &mut Vec<char>, s: &String)
    ensures
        final(v)@ == old(v)@ + s@,
{
    append_str(v, s.as_str());
}

impl PmlError {
    /// What the error says, in words: `line N: ...`.
    pub fn message(&self) -> (s: String)
        ensures
            s@ == error_message(self@),
    {
        let mut v = str_to_chars("line ");
        let d = decimal_exec(self.line);
        append_chars(&mut v, &d);
        let ghost head = v@;
        match &self.kind {
            PmlErrorKind::ExpectedBlockHeader => {
                append_str(&mut v, ": expected a PML block header");
            },
            PmlErrorKind::InvalidControlLine(l) => {
                append_str(&mut v, ": invalid control line `");
                append_string(&mut v, l);
                append_str(&mut v, "`");
            },
            PmlErrorKind::InvalidName(n) => {
                append_str(&mut v, ": invalid block name `");
                append_string(&mut v, n);
                append_str(&mut v, "`");
            },
            PmlErrorKind::InvalidType(t) => {
                append_str(&mut v, ": invalid block type `");
                append_string(&mut v, t);
                append_str(&mut v, "`");
            },
            PmlErrorKind::StrayClosingBlock(n) => {
                append_str(&mut v, ": stray closing block `/");
                append_string(&mut v, n);
                append_str(&mut v, "`");
            },
            PmlErrorKind::TypeMismatch { expected, found } => {
                append_str(&mut v, ": closing type `");
                append_string(&mut v, found);
                append_str(&mut v, "` does not match opening type `");
                append_string(&mut v, expected);
                append_str(&mut v, "`");
            },
            PmlErrorKind::MetaFieldConflict(n) => {
                append_str(&mut v, ": tree meta field conflicts with child key `");
                append_string(&mut v, n);
                append_str(&mut v, "`");
            },
            PmlErrorKind::InvalidTree(d) => {
                append_str(&mut v, ": invalid PML tree: ");
                append_string(&mut v, d);
            },
        }
        chars_to_string(&v)
    }
}

} // verus!
