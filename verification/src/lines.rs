//! Texts as lines.

use crate::text::push_chars;
use vstd::prelude::*;

verus! {

/// What lists of characters are.
pub open spec fn texts(v: Seq<Vec<char>>) -> Seq<Seq<char>> {
    Seq::new(v.len(), |i: int| v[i]@)
}

/// The pieces of a text between newlines. There is always at least one.
pub open spec fn split(s: Seq<char>) -> Seq<Seq<char>>
    decreases s.len(),
{
    if s.len() == 0 {
        seq![Seq::empty()]
    } else {
        let before = split(s.drop_last());
        if s.last() == '\n' {
            before.push(Seq::empty())
        } else {
            before.drop_last().push(before.last().push(s.last()))
        }
    }
}

pub fn split_lines(s: &Vec<char>) -> (r: Vec<Vec<char>>)
    ensures
        texts(r@) == split(s@),
        r@.len() > 0,
{
    let mut out: Vec<Vec<char>> = Vec::new();
    let mut current: Vec<char> = Vec::new();
    let mut i: usize = 0;
    assert(texts(out@).push(current@) =~= split(s@.take(0)));
    while i < s.len()
        invariant
            i <= s@.len(),
            texts(out@).push(current@) == split(s@.take(i as int)),
        decreases s@.len() - i,
    {
        let c: char = s[i];
        let ghost before = split(s@.take(i as int));
        let ghost done = texts(out@);
        proof {
            assert(s@.take(i + 1).drop_last() =~= s@.take(i as int));
            assert(before.last() == current@);
            assert(before.drop_last() =~= done);
        }
        if c == '\n' {
            out.push(current);
            assert(texts(out@) =~= before);
            current = Vec::new();
            assert(current@ =~= Seq::empty());
        } else {
            current.push(c);
        }
        i += 1;
    }
    let ghost last = current@;
    let ghost done = texts(out@);
    out.push(current);
    assert(texts(out@) =~= done.push(last));
    assert(s@.take(s@.len() as int) =~= s@);
    out
}

/// The pieces of a text between separators. There is always at least one.
pub open spec fn separated(s: Seq<char>, separator: char) -> Seq<Seq<char>>
    decreases s.len(),
{
    if s.len() == 0 {
        seq![Seq::empty()]
    } else {
        let before = separated(s.drop_last(), separator);
        if s.last() == separator {
            before.push(Seq::empty())
        } else {
            before.drop_last().push(before.last().push(s.last()))
        }
    }
}

pub fn separate(s: &Vec<char>, separator: char) -> (r: Vec<Vec<char>>)
    ensures
        texts(r@) == separated(s@, separator),
        r@.len() > 0,
{
    let mut out: Vec<Vec<char>> = Vec::new();
    let mut current: Vec<char> = Vec::new();
    let mut i: usize = 0;
    assert(texts(out@).push(current@) =~= separated(s@.take(0), separator));
    while i < s.len()
        invariant
            i <= s@.len(),
            texts(out@).push(current@) == separated(s@.take(i as int), separator),
        decreases s@.len() - i,
    {
        let c: char = s[i];
        let ghost before = separated(s@.take(i as int), separator);
        let ghost done = texts(out@);
        proof {
            assert(s@.take(i + 1).drop_last() =~= s@.take(i as int));
            assert(before.last() == current@);
            assert(before.drop_last() =~= done);
        }
        if c == separator {
            out.push(current);
            assert(texts(out@) =~= before);
            current = Vec::new();
            assert(current@ =~= Seq::empty());
        } else {
            current.push(c);
        }
        i += 1;
    }
    let ghost last = current@;
    let ghost done = texts(out@);
    out.push(current);
    assert(texts(out@) =~= done.push(last));
    assert(s@.take(s@.len() as int) =~= s@);
    out
}

/// A line without the carriage return at its end.
pub open spec fn without_return(line: Seq<char>) -> Seq<char> {
    if line.len() > 0 && line.last() == '\r' {
        line.drop_last()
    } else {
        line
    }
}

/// The first `n` pieces as lines that end in a newline.
pub open spec fn ended_lines(pieces: Seq<Seq<char>>, n: nat) -> Seq<Seq<char>> {
    Seq::new(n, |i: int| without_return(pieces[i]))
}

/// The lines of a text: a newline ends a line, as does a carriage return with
/// a newline, and what follows the last of them counts where it is not empty.
pub open spec fn lines_of(s: Seq<char>) -> Seq<Seq<char>> {
    let pieces = split(s);
    let ended = ended_lines(pieces, (pieces.len() - 1) as nat);
    if pieces.last().len() == 0 {
        ended
    } else {
        ended.push(pieces.last())
    }
}

pub fn lines(s: &Vec<char>) -> (r: Vec<Vec<char>>)
    ensures
        texts(r@) == lines_of(s@),
{
    let pieces = split_lines(s);
    let ghost model = texts(pieces@);
    let mut out: Vec<Vec<char>> = Vec::new();
    let last: usize = pieces.len() - 1;
    let mut i: usize = 0;
    while i < last
        invariant
            i <= last,
            last == pieces@.len() - 1,
            model == texts(pieces@),
            out@.len() == i,
            forall|j: int| 0 <= j < i ==> (#[trigger] out@[j])@ == without_return(model[j]),
        decreases last - i,
    {
        let piece = &pieces[i];
        assert(model[i as int] == piece@);
        let end: usize = if piece.len() > 0 && piece[piece.len() - 1] == '\r' {
            piece.len() - 1
        } else {
            piece.len()
        };
        let line = crate::text::part(piece, 0, end);
        assert(line@ =~= without_return(piece@));
        out.push(line);
        i += 1;
    }
    assert(texts(out@) =~= ended_lines(model, last as nat));
    assert(model.last() == pieces@[last as int]@);
    if pieces[last].len() > 0 {
        let ghost done = texts(out@);
        let line = crate::text::part(&pieces[last], 0, pieces[last].len());
        assert(line@ =~= pieces@[last as int]@);
        out.push(line);
        assert(texts(out@) =~= done.push(model.last()));
    }
    out
}

/// The first `n` lines with a newline between any two.
pub open spec fn joined_lines(lines: Seq<Seq<char>>, n: nat) -> Seq<char>
    decreases n,
{
    if n == 0 {
        Seq::empty()
    } else if n == 1 {
        lines[0]
    } else {
        joined_lines(lines, (n - 1) as nat).push('\n') + lines[n - 1]
    }
}

pub fn join_lines(lines: &Vec<Vec<char>>) -> (r: Vec<char>)
    ensures
        r@ == joined_lines(texts(lines@), lines@.len()),
{
    let ghost model = texts(lines@);
    let mut out: Vec<char> = Vec::new();
    let mut i: usize = 0;
    while i < lines.len()
        invariant
            i <= lines@.len(),
            model == texts(lines@),
            out@ == joined_lines(model, i as nat),
        decreases lines@.len() - i,
    {
        assert(model[i as int] == lines@[i as int]@);
        let ghost before = out@;
        if i > 0 {
            out.push('\n');
        }
        push_chars(&mut out, &lines[i]);
        assert(i == 0 ==> out@ =~= model[0]);
        i += 1;
    }
    out
}

proof fn lemma_split_is_not_empty(s: Seq<char>)
    ensures
        split(s).len() > 0,
    decreases s.len(),
{
    if s.len() > 0 {
        lemma_split_is_not_empty(s.drop_last());
    }
}

proof fn lemma_joined_extends(lines: Seq<Seq<char>>, other: Seq<Seq<char>>, n: nat)
    requires
        n <= lines.len(),
        n <= other.len(),
        forall|i: int| 0 <= i < n ==> lines[i] == other[i],
    ensures
        joined_lines(lines, n) == joined_lines(other, n),
    decreases n,
{
    if n > 1 {
        lemma_joined_extends(lines, other, (n - 1) as nat);
    }
}

/// The pieces of a text hold no newline, and joining them gives the text back.
pub proof fn law_joining_undoes_splitting(s: Seq<char>)
    ensures
        split(s).len() > 0,
        joined_lines(split(s), split(s).len()) == s,
        forall|i: int| 0 <= i < split(s).len() ==> !(#[trigger] split(s)[i]).contains('\n'),
    decreases s.len(),
{
    if s.len() == 0 {
        assert(joined_lines(split(s), 1) =~= s);
    } else {
        law_joining_undoes_splitting(s.drop_last());
        let before = split(s.drop_last());
        let after = split(s);
        let n = before.len();
        if s.last() == '\n' {
            lemma_joined_extends(before, after, n);
            assert(joined_lines(after, n + 1) =~= s);
            assert forall|i: int| 0 <= i < after.len() implies !(#[trigger] after[i]).contains('\n') by {
                if i < n {
                    assert(after[i] == before[i]);
                }
            }
        } else {
            lemma_joined_extends(before, after, (n - 1) as nat);
            assert(after[n - 1] == before[n - 1].push(s.last()));
            assert(s =~= s.drop_last().push(s.last()));
            if n == 1 {
                assert(joined_lines(after, n) =~= s);
            } else {
                let head = joined_lines(before, (n - 1) as nat).push('\n');
                assert(head + before[n - 1] == s.drop_last());
                assert(head + before[n - 1].push(s.last()) =~= (head + before[n - 1]).push(s.last()));
                assert(joined_lines(after, n) =~= s);
            }
            assert forall|i: int| 0 <= i < after.len() implies !(#[trigger] after[i]).contains('\n') by {
                if i < n - 1 {
                    assert(after[i] == before[i]);
                } else {
                    let last = before[n - 1];
                    assert(after[i] =~= last.push(s.last()));
                    assert forall|j: int| 0 <= j < after[i].len() implies after[i][j] != '\n' by {
                        if j < last.len() {
                            assert(last[j] == after[i][j]);
                        }
                    }
                }
            }
        }
    }
}

} // verus!
