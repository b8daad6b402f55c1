//! Splitting a text into lines the way the scanner reads it: lines end at a
//! line feed, a carriage return directly before a line feed belongs to the
//! line ending, and a final line ending is optional.
use vstd::prelude::*;

verus! {

/// The position of the first occurrence of a character, or -1 when it does
/// not occur.
pub open spec fn find_char(text: Seq<char>, c: char) -> int
    decreases text.len(),
{
    if text.len() == 0 {
        -1
    } else if text[0] == c {
        0
    } else {
        let r = find_char(text.skip(1), c);
        if r < 0 {
            -1
        } else {
            r + 1
        }
    }
}

/// What `find_char` returns: the least index holding the character, or -1
/// when no index does.
pub proof fn lemma_find_char(text: Seq<char>, c: char)
    ensures
        find_char(text, c) == -1 || (0 <= find_char(text, c) < text.len()),
        find_char(text, c) >= 0 ==> text[find_char(text, c)] == c,
        forall|j: int| 0 <= j < text.len() && text[j] == c ==> find_char(text, c) >= 0,
        forall|j: int| 0 <= j < find_char(text, c) ==> text[j] != c,
    decreases text.len(),
{
    if text.len() == 0 {
    } else if text[0] == c {
    } else {
        lemma_find_char(text.skip(1), c);
        assert forall|j: int| 0 <= j < text.len() && text[j] == c implies find_char(text, c)
            >= 0 by {
            assert(j != 0);
            assert(text.skip(1)[j - 1] == c);
        }
        if find_char(text.skip(1), c) >= 0 {
            assert forall|j: int| 0 <= j < find_char(text, c) implies text[j] != c by {
                if j > 0 {
                    assert(text[j] == text.skip(1)[j - 1]);
                }
            }
        }
    }
}

/// A line with a trailing carriage return shorn of it; it belonged to the
/// line ending.
pub open spec fn strip_one_cr(l: Seq<char>) -> Seq<char> {
    if l.len() > 0 && l[l.len() - 1] == '\r' {
        l.take(l.len() - 1)
    } else {
        l
    }
}

/// The lines of a text: pieces between line feeds, each shorn of one
/// carriage return before the line feed; a piece after the last line feed is
/// kept verbatim, and an empty one there is no line.
pub open spec fn split_lines(text: Seq<char>) -> Seq<Seq<char>>
    decreases text.len(),
{
    if text.len() == 0 {
        Seq::<Seq<char>>::empty()
    } else {
        let i = find_char(text, '\n');
        if i < 0 || i >= text.len() {
            seq![text]
        } else {
            seq![strip_one_cr(text.take(i))] + split_lines(text.skip(i + 1))
        }
    }
}

/// The first line feed at or after a position, in executable code.
fn find_newline(text: &Vec<char>, from: usize) -> (r: Option<usize>)
    requires
        from <= text.len(),
    ensures
        match r {
            Some(i) => from <= i < text@.len() && text@[i as int] == '\n' && (forall|j: int|
                from <= j < i ==> text@[j] != '\n'),
            None => forall|j: int| from <= j < text@.len() ==> text@[j] != '\n',
        },
{
    let mut i: usize = from;
    while i < text.len()
        invariant
            from <= i <= text@.len(),
            forall|j: int| from <= j < i ==> text@[j] != '\n',
        decreases text.len() - i,
    {
        if text[i] == '\n' {
            return Some(i);
        }
        i = i + 1;
    }
    None
}

/// The lines of a text, in executable code.
pub fn split_lines_exec(text: &Vec<char>) -> (r: Vec<Vec<char>>)
    ensures
        r.deep_view() == split_lines(text@),
{
    let mut out: Vec<Vec<char>> = Vec::new();
    let mut pos: usize = 0;
    proof {
        assert(text@.skip(0) =~= text@);
        assert(out.deep_view() + split_lines(text@) =~~= split_lines(text@));
    }
    while pos < text.len()
        invariant
            pos <= text@.len(),
            split_lines(text@) =~~= out.deep_view() + split_lines(text@.skip(pos as int)),
        decreases text.len() - pos,
    {
        let ghost rest = text@.skip(pos as int);
        match find_newline(text, pos) {
            Some(i) => {
                proof {
                    lemma_find_char(rest, '\n');
                    assert forall|j: int| 0 <= j < i - pos implies rest[j] != '\n' by {
                        assert(rest[j] == text@[pos + j]);
                    }
                    assert(rest[i - pos] == '\n');
                    assert(find_char(rest, '\n') == i - pos) by {
                        if find_char(rest, '\n') < i - pos {
                            assert(rest[find_char(rest, '\n')] == '\n');
                        }
                        if find_char(rest, '\n') > i - pos {
                            assert(rest[i - pos] != '\n');
                        }
                    }
                }
                // the piece before the line feed, without a trailing '\r'
                let end = if i > pos && text[i - 1] == '\r' {
                    i - 1
                } else {
                    i
                };
                let mut line: Vec<char> = Vec::new();
                let mut j: usize = pos;
                while j < end
                    invariant
                        pos <= j <= end,
                        end <= text@.len(),
                        line@ == text@.subrange(pos as int, j as int),
                    decreases end - j,
                {
                    line.push(text[j]);
                    proof {
                        assert(line@ =~= text@.subrange(pos as int, j + 1));
                    }
                    j = j + 1;
                }
                proof {
                    assert(rest.take(i - pos) =~= text@.subrange(pos as int, i as int));
                    assert(strip_one_cr(rest.take(i - pos)) =~= text@.subrange(
                        pos as int,
                        end as int,
                    ));
                    assert(rest.skip(i - pos + 1) =~= text@.skip(i + 1));
                }
                out.push(line);
                proof {
                    assert(out.deep_view() =~~= out.deep_view().take(out.deep_view().len() - 1)
                        + seq![line@]);
                }
                pos = i + 1;
            },
            None => {
                proof {
                    lemma_find_char(rest, '\n');
                    assert forall|j: int| 0 <= j < rest.len() implies rest[j] != '\n' by {
                        assert(rest[j] == text@[pos + j]);
                    }
                    assert(find_char(rest, '\n') < 0) by {
                        if find_char(rest, '\n') >= 0 {
                            assert(rest[find_char(rest, '\n')] == '\n');
                        }
                    }
                }
                let mut line: Vec<char> = Vec::new();
                let mut j: usize = pos;
                while j < text.len()
                    invariant
                        pos <= j <= text@.len(),
                        line@ == text@.subrange(pos as int, j as int),
                    decreases text.len() - j,
                {
                    line.push(text[j]);
                    proof {
                        assert(line@ =~= text@.subrange(pos as int, j + 1));
                    }
                    j = j + 1;
                }
                proof {
                    assert(line@ =~= rest);
                }
                out.push(line);
                proof {
                    assert(out.deep_view() =~~= out.deep_view().take(out.deep_view().len() - 1)
                        + seq![line@]);
                    assert(split_lines(text@.skip(text@.len() as int)) =~~= Seq::<Seq<char>>::empty());
                }
                pos = text.len();
            },
        }
    }
    proof {
        assert(split_lines(text@.skip(pos as int)) =~~= Seq::<Seq<char>>::empty());
        assert(out.deep_view() + Seq::<Seq<char>>::empty() =~~= out.deep_view());
    }
    out
}

} // verus!
