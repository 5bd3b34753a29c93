use vstd::prelude::*;
use crate::chars::{char_is_whitespace, unicode_whitespace};

verus! {

/// The text with every `\r\n` and every remaining lone `\r` replaced by `\n`.
pub open spec fn normalize(s: Seq<char>) -> Seq<char>
    decreases s.len(),
{
    if s.len() == 0 {
        Seq::empty()
    } else if s[0] == '\r' {
        if s.len() > 1 && s[1] == '\n' {
            seq!['\n'] + normalize(s.skip(2))
        } else {
            seq!['\n'] + normalize(s.skip(1))
        }
    } else {
        seq![s[0]] + normalize(s.skip(1))
    }
}

/// `i` is the position of the first `c` in `s`.
pub open spec fn is_first(s: Seq<char>, c: char, i: int) -> bool {
    &&& 0 <= i < s.len()
    &&& s[i] == c
    &&& forall|j: int| 0 <= j < i ==> s[j] != c
}

/// The position of the first `c` in `s`, or -1 when there is none.
pub open spec fn first_index(s: Seq<char>, c: char) -> int {
    if exists|i: int| is_first(s, c, i) {
        choose|i: int| is_first(s, c, i)
    } else {
        -1
    }
}

pub proof fn lemma_first_index(s: Seq<char>, c: char, i: int)
    requires
        is_first(s, c, i),
    ensures
        first_index(s, c) == i,
{
    let k = choose|k: int| is_first(s, c, k);
    assert(is_first(s, c, k));
    if k < i {
        assert(s[k] != c);
    } else if i < k {
        assert(s[i] != c);
    }
}

pub proof fn lemma_first_index_none(s: Seq<char>, c: char)
    requires
        forall|j: int| 0 <= j < s.len() ==> s[j] != c,
    ensures
        first_index(s, c) == -1,
{
}

proof fn lemma_exists_first(s: Seq<char>, c: char, j: int)
    requires
        0 <= j < s.len(),
        s[j] == c,
    ensures
        exists|i: int| is_first(s, c, i),
    decreases j,
{
    if forall|m: int| 0 <= m < j ==> s[m] != c {
        assert(is_first(s, c, j));
    } else {
        let m = choose|m: int| 0 <= m < j && s[m] == c;
        lemma_exists_first(s, c, m);
    }
}

pub proof fn lemma_first_index_range(s: Seq<char>, c: char)
    ensures
        first_index(s, c) == -1 || is_first(s, c, first_index(s, c)),
        first_index(s, c) == -1 ==> forall|j: int| 0 <= j < s.len() ==> s[j] != c,
{
    assert forall|j: int| 0 <= j < s.len() && first_index(s, c) == -1 implies s[j] != c by {
        if s[j] == c {
            lemma_exists_first(s, c, j);
        }
    }
}

/// The pieces of `s` between `\n` separators, empty pieces included (as `str::split('\n')`).
pub open spec fn split_all(s: Seq<char>) -> Seq<Seq<char>>
    decreases s.len(),
{
    let p = first_index(s, '\n');
    if 0 <= p < s.len() {
        seq![s.take(p)] + split_all(s.skip(p + 1))
    } else {
        seq![s]
    }
}

/// The pieces of `s` between `sep` separators, empty pieces included.
pub open spec fn split_on(s: Seq<char>, sep: char) -> Seq<Seq<char>>
    decreases s.len(),
{
    let p = first_index(s, sep);
    if 0 <= p < s.len() {
        seq![s.take(p)] + split_on(s.skip(p + 1), sep)
    } else {
        seq![s]
    }
}

/// The pieces joined with `sep` between them.
pub open spec fn join_on(ls: Seq<Seq<char>>, sep: char) -> Seq<char>
    decreases ls.len(),
{
    if ls.len() == 0 {
        Seq::empty()
    } else if ls.len() == 1 {
        ls[0]
    } else {
        ls[0] + seq![sep] + join_on(ls.drop_first(), sep)
    }
}

/// The lines of a document: every `\n` ends a line, and what follows the last
/// `\n` is a line only when it is not empty.
pub open spec fn split_lines(s: Seq<char>) -> Seq<Seq<char>> {
    if s.len() == 0 {
        Seq::empty()
    } else if s.last() == '\n' {
        split_all(s.drop_last())
    } else {
        split_all(s)
    }
}

/// The lines joined with `\n` between them (no `\n` after the last one).
pub open spec fn join(ls: Seq<Seq<char>>) -> Seq<char>
    decreases ls.len(),
{
    if ls.len() == 0 {
        Seq::empty()
    } else if ls.len() == 1 {
        ls[0]
    } else {
        ls[0] + seq!['\n'] + join(ls.drop_first())
    }
}

/// `s` holds no `c`.
pub open spec fn lacks(s: Seq<char>, c: char) -> bool {
    forall|i: int| 0 <= i < s.len() ==> #[trigger] s[i] != c
}

pub proof fn lemma_join_push(ls: Seq<Seq<char>>, x: Seq<char>)
    requires
        ls.len() > 0,
    ensures
        join(ls.push(x)) == join(ls) + seq!['\n'] + x,
    decreases ls.len(),
{
    if ls.len() == 1 {
        assert(ls.push(x).drop_first() =~= seq![x]);
        assert(join(seq![x]) == x);
        assert(ls.push(x)[0] == ls[0]);
        assert(join(ls.push(x)) == ls[0] + seq!['\n'] + join(ls.push(x).drop_first()));
        assert(join(ls.push(x)) =~= join(ls) + seq!['\n'] + x);
    } else {
        assert(ls.push(x).drop_first() =~= ls.drop_first().push(x));
        lemma_join_push(ls.drop_first(), x);
        assert(join(ls.push(x)) =~= join(ls) + seq!['\n'] + x);
    }
}

/// Splitting what was joined gives the pieces back.
pub proof fn lemma_split_all_join(ls: Seq<Seq<char>>)
    requires
        ls.len() > 0,
        forall|i: int| 0 <= i < ls.len() ==> lacks(#[trigger] ls[i], '\n'),
    ensures
        split_all(join(ls)) == ls,
    decreases ls.len(),
{
    if ls.len() == 1 {
        lemma_first_index_none(ls[0], '\n');
        assert(split_all(join(ls)) =~= ls);
    } else {
        let a = ls[0];
        let rest = ls.drop_first();
        let j = join(ls);
        assert(lacks(a, '\n'));
        assert(is_first(j, '\n', a.len() as int));
        lemma_first_index(j, '\n', a.len() as int);
        assert(j.take(a.len() as int) =~= a);
        assert(j.skip(a.len() as int + 1) =~= join(rest));
        assert forall|i: int| 0 <= i < rest.len() implies lacks(#[trigger] rest[i], '\n') by {
            assert(rest[i] == ls[i + 1]);
        }
        lemma_split_all_join(rest);
        assert(split_all(j) =~= ls);
    }
}

/// Joining the pieces gives the text back.
pub proof fn lemma_join_split_all(s: Seq<char>)
    ensures
        join(split_all(s)) == s,
        split_all(s).len() > 0,
    decreases s.len(),
{
    let p = first_index(s, '\n');
    lemma_first_index_range(s, '\n');
    if 0 <= p < s.len() {
        let r = s.skip(p + 1);
        lemma_join_split_all(r);
        let ps = split_all(s);
        assert(ps =~= seq![s.take(p)] + split_all(r));
        assert(ps.drop_first() =~= split_all(r));
        assert(join(ps) == s.take(p) + seq!['\n'] + join(split_all(r)));
        assert(s =~= s.take(p) + seq!['\n'] + r);
    }
}

/// No piece holds a `\n`.
pub proof fn lemma_split_all_lacks_newline(s: Seq<char>)
    ensures
        forall|i: int| 0 <= i < split_all(s).len() ==> lacks(#[trigger] split_all(s)[i], '\n'),
    decreases s.len(),
{
    let p = first_index(s, '\n');
    lemma_first_index_range(s, '\n');
    if 0 <= p < s.len() {
        let r = s.skip(p + 1);
        lemma_split_all_lacks_newline(r);
        let ps = split_all(s);
        assert forall|i: int| 0 <= i < ps.len() implies lacks(#[trigger] ps[i], '\n') by {
            if i == 0 {
                assert(ps[0] =~= s.take(p));
            } else {
                assert(ps[i] == split_all(r)[i - 1]);
            }
        }
    }
}

/// Pieces hold no character that the text does not hold.
pub proof fn lemma_split_all_lacks(s: Seq<char>, x: char)
    requires
        lacks(s, x),
    ensures
        forall|i: int| 0 <= i < split_all(s).len() ==> lacks(#[trigger] split_all(s)[i], x),
    decreases s.len(),
{
    let p = first_index(s, '\n');
    lemma_first_index_range(s, '\n');
    if 0 <= p < s.len() {
        let r = s.skip(p + 1);
        assert(lacks(r, x)) by {
            assert forall|i: int| 0 <= i < r.len() implies #[trigger] r[i] != x by {
                assert(r[i] == s[i + p + 1]);
            }
        }
        lemma_split_all_lacks(r, x);
        let ps = split_all(s);
        assert forall|i: int| 0 <= i < ps.len() implies lacks(#[trigger] ps[i], x) by {
            if i == 0 {
                assert(ps[0] =~= s.take(p));
                assert forall|j: int| 0 <= j < ps[0].len() implies #[trigger] ps[0][j] != x by {
                    assert(ps[0][j] == s[j]);
                }
            } else {
                assert(ps[i] == split_all(r)[i - 1]);
            }
        }
    }
}

/// Text without `\r` is left as it is by newline normalization.
pub proof fn lemma_normalize_id(s: Seq<char>)
    requires
        lacks(s, '\r'),
    ensures
        normalize(s) == s,
    decreases s.len(),
{
    if s.len() > 0 {
        assert(s[0] != '\r');
        let r = s.skip(1);
        assert(lacks(r, '\r')) by {
            assert forall|i: int| 0 <= i < r.len() implies #[trigger] r[i] != '\r' by {
                assert(r[i] == s[i + 1]);
            }
        }
        lemma_normalize_id(r);
        assert(s =~= seq![s[0]] + r);
    }
}

/// Normalized text holds no `\r`.
pub proof fn lemma_normalize_lacks_cr(s: Seq<char>)
    ensures
        lacks(normalize(s), '\r'),
    decreases s.len(),
{
    if s.len() > 0 {
        if s[0] == '\r' && s.len() > 1 && s[1] == '\n' {
            lemma_normalize_lacks_cr(s.skip(2));
            let n = normalize(s);
            assert forall|i: int| 0 <= i < n.len() implies #[trigger] n[i] != '\r' by {
                if i > 0 {
                    assert(n[i] == normalize(s.skip(2))[i - 1]);
                }
            }
        } else {
            lemma_normalize_lacks_cr(s.skip(1));
            let n = normalize(s);
            assert forall|i: int| 0 <= i < n.len() implies #[trigger] n[i] != '\r' by {
                if i > 0 {
                    assert(n[i] == normalize(s.skip(1))[i - 1]);
                }
            }
        }
    }
}

/// Every character of the line is white space.
pub open spec fn is_blank(s: Seq<char>) -> bool {
    forall|i: int| 0 <= i < s.len() ==> unicode_whitespace(#[trigger] s[i])
}

/// The views of a sequence of character vectors.
pub open spec fn views(ls: Seq<Vec<char>>) -> Seq<Seq<char>> {
    ls.map_values(|l: Vec<char>| l@)
}

/// Replaces every `\r\n`, then every remaining `\r`, by `\n`.
pub fn normalize_newlines(s: &Vec<char>) -> (out: Vec<char>)
    ensures
        out@ == normalize(s@),
        out.len() <= s.len(),
{
    let mut out: Vec<char> = Vec::new();
    let mut i: usize = 0;
    assert(s@.skip(0) =~= s@);
    assert(out@ + normalize(s@) =~= normalize(s@));
    while i < s.len()
        invariant
            i <= s.len(),
            out.len() <= i,
            out@ + normalize(s@.skip(i as int)) == normalize(s@),
        decreases s.len() - i,
    {
        let ghost rest = s@.skip(i as int);
        if s[i] == '\r' {
            out.push('\n');
            if i + 1 < s.len() && s[i + 1] == '\n' {
                assert(rest.skip(2) =~= s@.skip(i + 2));
                i = i + 2;
            } else {
                assert(rest.skip(1) =~= s@.skip(i + 1));
                i = i + 1;
            }
        } else {
            out.push(s[i]);
            assert(rest.skip(1) =~= s@.skip(i + 1));
            i = i + 1;
        }
        assert(out@ + normalize(s@.skip(i as int)) =~= normalize(s@));
    }
    assert(s@.skip(i as int) =~= Seq::<char>::empty());
    assert(out@ + normalize(s@.skip(i as int)) =~= out@);
    out
}

/// The characters `s[lo..hi]` as a new vector.
pub fn copy_range(s: &Vec<char>, lo: usize, hi: usize) -> (out: Vec<char>)
    requires
        lo <= hi <= s.len(),
    ensures
        out@ == s@.subrange(lo as int, hi as int),
{
    let mut out: Vec<char> = Vec::new();
    let mut i = lo;
    while i < hi
        invariant
            lo <= i <= hi <= s.len(),
            out@ == s@.subrange(lo as int, i as int),
        decreases hi - i,
    {
        out.push(s[i]);
        i = i + 1;
        assert(out@ =~= s@.subrange(lo as int, i as int));
    }
    out
}

/// Splits `s[..end]` at every `\n` (empty pieces kept).
pub fn split_all_prefix(s: &Vec<char>, end: usize) -> (out: Vec<Vec<char>>)
    requires
        end <= s.len(),
    ensures
        views(out@) == split_all(s@.take(end as int)),
        end > 0 && s@[end - 1] != '\n' ==> out.len() <= end,
        out.len() <= end + 1,
{
    let ghost t = s@.take(end as int);
    let mut out: Vec<Vec<char>> = Vec::new();
    let mut start: usize = 0;
    let mut i: usize = 0;
    assert(t.skip(0) =~= t);
    assert(views(out@) + split_all(t) =~= split_all(t));
    while i < end
        invariant
            end <= s.len(),
            t == s@.take(end as int),
            start <= i <= end,
            out.len() <= start,
            start == 0 || s@[start - 1] == '\n',
            views(out@) + split_all(t.skip(start as int)) == split_all(t),
            forall|j: int| start <= j < i ==> t[j] != '\n',
        decreases end - i,
    {
        if s[i] == '\n' {
            let ghost rest = t.skip(start as int);
            proof {
                assert(is_first(rest, '\n', i - start));
                lemma_first_index(rest, '\n', i - start);
                assert(rest.take(i - start) =~= s@.subrange(start as int, i as int));
                assert(rest.skip(i - start + 1) =~= t.skip(i + 1));
            }
            let line = copy_range(s, start, i);
            let ghost before = views(out@);
            out.push(line);
            assert(views(out@) =~= before.push(line@));
            start = i + 1;
            i = i + 1;
        } else {
            i = i + 1;
        }
    }
    let ghost rest = t.skip(start as int);
    proof {
        lemma_first_index_none(rest, '\n');
        assert(rest =~= s@.subrange(start as int, end as int));
    }
    let line = copy_range(s, start, end);
    let ghost before = views(out@);
    out.push(line);
    assert(views(out@) =~= before.push(line@));
    out
}

/// Splits `s` at every `sep` (empty pieces kept).
pub fn split_chars(s: &Vec<char>, sep: char) -> (out: Vec<Vec<char>>)
    ensures
        views(out@) == split_on(s@, sep),
{
    let mut out: Vec<Vec<char>> = Vec::new();
    let mut start: usize = 0;
    let mut i: usize = 0;
    assert(s@.skip(0) =~= s@);
    assert(views(out@) + split_on(s@, sep) =~= split_on(s@, sep));
    while i < s.len()
        invariant
            start <= i <= s.len(),
            views(out@) + split_on(s@.skip(start as int), sep) == split_on(s@, sep),
            forall|j: int| start <= j < i ==> s@[j] != sep,
        decreases s.len() - i,
    {
        if s[i] == sep {
            let ghost rest = s@.skip(start as int);
            proof {
                assert(is_first(rest, sep, i - start));
                lemma_first_index(rest, sep, i - start);
                assert(rest.take(i - start) =~= s@.subrange(start as int, i as int));
                assert(rest.skip(i - start + 1) =~= s@.skip(i + 1));
            }
            let piece = copy_range(s, start, i);
            let ghost before = views(out@);
            out.push(piece);
            assert(views(out@) =~= before.push(piece@));
            start = i + 1;
            i = i + 1;
        } else {
            i = i + 1;
        }
    }
    let ghost rest = s@.skip(start as int);
    proof {
        lemma_first_index_range(rest, sep);
        assert(first_index(rest, sep) == -1) by {
            if first_index(rest, sep) != -1 {
                assert(rest[first_index(rest, sep)] == s@[start + first_index(rest, sep)]);
            }
        }
        assert(rest =~= s@.subrange(start as int, s.len() as int));
    }
    let piece = copy_range(s, start, s.len());
    let ghost before = views(out@);
    out.push(piece);
    assert(views(out@) =~= before.push(piece@));
    out
}

/// The pieces `ls[start..end]` joined with `sep`.
pub fn join_chars(ls: &Vec<Vec<char>>, start: usize, end: usize, sep: char) -> (out: Vec<char>)
    requires
        start <= end <= ls.len(),
    ensures
        out@ == join_on(views(ls@).subrange(start as int, end as int), sep),
{
    let mut out: Vec<char> = Vec::new();
    let mut k = start;
    while k < end
        invariant
            start <= k <= end <= ls.len(),
            out@ == join_on(views(ls@).subrange(start as int, k as int), sep),
        decreases end - k,
    {
        let ghost prev = views(ls@).subrange(start as int, k as int);
        let ghost next = views(ls@).subrange(start as int, k + 1);
        assert(next =~= prev.push(ls@[k as int]@));
        proof {
            if k > start {
                lemma_join_on_push(prev, ls@[k as int]@, sep);
            } else {
                assert(join_on(next, sep) == next[0]);
            }
        }
        if k > start {
            out.push(sep);
        }
        let piece = &ls[k];
        let mut j: usize = 0;
        let ghost base = out@;
        while j < piece.len()
            invariant
                j <= piece.len(),
                out@ == base + piece@.take(j as int),
            decreases piece.len() - j,
        {
            out.push(piece[j]);
            j = j + 1;
            assert(out@ =~= base + piece@.take(j as int));
        }
        assert(piece@.take(j as int) =~= piece@);
        k = k + 1;
    }
    out
}

pub proof fn lemma_join_on_push(ls: Seq<Seq<char>>, x: Seq<char>, sep: char)
    requires
        ls.len() > 0,
    ensures
        join_on(ls.push(x), sep) == join_on(ls, sep) + seq![sep] + x,
    decreases ls.len(),
{
    if ls.len() == 1 {
        assert(ls.push(x).drop_first() =~= seq![x]);
        assert(join_on(seq![x], sep) == x);
        assert(ls.push(x)[0] == ls[0]);
        assert(join_on(ls.push(x), sep) == ls[0] + seq![sep] + join_on(ls.push(x).drop_first(), sep));
        assert(join_on(ls.push(x), sep) =~= join_on(ls, sep) + seq![sep] + x);
    } else {
        assert(ls.push(x).drop_first() =~= ls.drop_first().push(x));
        lemma_join_on_push(ls.drop_first(), x, sep);
        assert(join_on(ls.push(x), sep) =~= join_on(ls, sep) + seq![sep] + x);
    }
}

/// The lines of the document `s`.
pub fn collect_lines(s: &Vec<char>) -> (out: Vec<Vec<char>>)
    ensures
        views(out@) == split_lines(s@),
        out.len() <= s.len(),
{
    if s.len() == 0 {
        let out: Vec<Vec<char>> = Vec::new();
        assert(views(out@) =~= Seq::<Seq<char>>::empty());
        out
    } else if s[s.len() - 1] == '\n' {
        assert(s@.take(s.len() - 1) =~= s@.drop_last());
        split_all_prefix(s, s.len() - 1)
    } else {
        assert(s@.take(s.len() as int) =~= s@);
        split_all_prefix(s, s.len())
    }
}

/// The lines `lines[start..end]` joined with `\n`.
pub fn join_lines(lines: &Vec<Vec<char>>, start: usize, end: usize) -> (out: Vec<char>)
    requires
        start <= end <= lines.len(),
    ensures
        out@ == join(views(lines@).subrange(start as int, end as int)),
{
    let mut out: Vec<char> = Vec::new();
    let mut k = start;
    while k < end
        invariant
            start <= k <= end <= lines.len(),
            out@ == join(views(lines@).subrange(start as int, k as int)),
        decreases end - k,
    {
        let ghost prev = views(lines@).subrange(start as int, k as int);
        let ghost next = views(lines@).subrange(start as int, k + 1);
        assert(next =~= prev.push(lines@[k as int]@));
        proof {
            if k > start {
                lemma_join_push(prev, lines@[k as int]@);
            }
        }
        if k > start {
            out.push('\n');
        }
        let line = &lines[k];
        let mut j: usize = 0;
        let ghost base = out@;
        while j < line.len()
            invariant
                j <= line.len(),
                out@ == base + line@.take(j as int),
            decreases line.len() - j,
        {
            out.push(line[j]);
            j = j + 1;
            assert(out@ =~= base + line@.take(j as int));
        }
        assert(line@.take(j as int) =~= line@);
        k = k + 1;
    }
    out
}

/// Whether every character of the line is white space (`str::trim` leaves nothing).
pub fn is_blank_line(s: &Vec<char>) -> (r: bool)
    ensures
        r == is_blank(s@),
{
    let mut i: usize = 0;
    while i < s.len()
        invariant
            i <= s.len(),
            forall|j: int| 0 <= j < i ==> unicode_whitespace(#[trigger] s@[j]),
        decreases s.len() - i,
    {
        if !char_is_whitespace(s[i]) {
            return false;
        }
        i = i + 1;
    }
    true
}

} // verus!
