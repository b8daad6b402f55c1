//! Recognizing annotation blocks in a text.
//!
//! A header line reads `prefix keyword(#id): title`: the prefix is everything
//! before the keyword and is taken greedily (the rightmost position at which
//! some keyword completes a header wins, mirroring a greedy leading capture),
//! the issue marker is optional, and the title is the non-empty remainder of
//! the line.  Continuation lines of a block are the following lines that
//! start with the header's literal prefix; a line that is neither a header
//! nor a continuation is skipped without closing the block.
use vstd::prelude::*;

use crate::lines::{split_lines, split_lines_exec};
use crate::text::{chars_string, str_chars};
use crate::todo::{colon_space, Todo, TodoView};

verus! {

/// The parsed pieces of a header line, before a line number is attached.
pub ghost struct Header {
    pub prefix: Seq<char>,
    pub keyword: Seq<char>,
    pub issue_id: Option<u32>,
    pub title: Seq<char>,
}

/// Whether the pattern stands verbatim in the text at the given position.
pub open spec fn starts_with_at(text: Seq<char>, pat: Seq<char>, i: int) -> bool {
    &&& 0 <= i
    &&& i + pat.len() <= text.len()
    &&& text.subrange(i, i + pat.len()) == pat
}

/// A decimal digit.
pub open spec fn is_digit(c: char) -> bool {
    48 <= c as u32 <= 57
}

/// The value of a decimal digit character.
pub open spec fn digit_val(c: char) -> nat {
    (c as u32 - 48) as nat
}

/// The position right after the run of digits starting at `j`.
pub open spec fn digits_end(line: Seq<char>, j: int) -> int
    decreases line.len() - j,
{
    if j < 0 || j >= line.len() || !is_digit(line[j]) {
        j
    } else {
        digits_end(line, j + 1)
    }
}

/// The numeric value of the digits in `line[j..e]`.
pub open spec fn digits_val(line: Seq<char>, j: int, e: int) -> nat
    decreases e - j,
{
    if e <= j {
        0
    } else {
        digits_val(line, j, e - 1) * 10 + digit_val(line[e - 1])
    }
}

/// The issue marker `(#digits)` read at position `j`: its value and the
/// position right after it.  There is no marker when the digits are missing,
/// the closing parenthesis is missing, or the value does not fit an id.
pub open spec fn parse_marker(line: Seq<char>, j: int) -> Option<(u32, int)> {
    if 0 <= j && j + 2 <= line.len() && line[j] == '(' && line[j + 1] == '#' {
        let e = digits_end(line, j + 2);
        if e > j + 2 && e < line.len() && line[e] == ')' && digits_val(line, j + 2, e)
            <= u32::MAX as nat {
            Some((digits_val(line, j + 2, e) as u32, e + 1))
        } else {
            None
        }
    } else {
        None
    }
}

/// What follows the keyword of a header: an optional issue marker taken when
/// it is there, then a colon and a space, then the non-empty title running to
/// the end of the line.
pub open spec fn parse_tail(line: Seq<char>, j: int) -> Option<(Option<u32>, Seq<char>)> {
    match parse_marker(line, j) {
        Some((id, a)) => if starts_with_at(line, colon_space(), a) && a + 2 < line.len() {
            Some((Some(id), line.skip(a + 2)))
        } else {
            None
        },
        None => if starts_with_at(line, colon_space(), j) && j + 2 < line.len() {
            Some((None, line.skip(j + 2)))
        } else {
            None
        },
    }
}

/// The header read with the keyword standing at position `i`, trying the
/// keywords in their configured order.
pub open spec fn parse_keyword_at(
    kws: Seq<Seq<char>>,
    line: Seq<char>,
    i: int,
    ki: int,
) -> Option<Header>
    decreases kws.len() - ki,
{
    if ki < 0 || ki >= kws.len() {
        None
    } else if starts_with_at(line, kws[ki], i) && parse_tail(line, i + kws[ki].len()) is Some {
        let t = parse_tail(line, i + kws[ki].len())->0;
        Some(Header { prefix: line.take(i), keyword: kws[ki], issue_id: t.0, title: t.1 })
    } else {
        parse_keyword_at(kws, line, i, ki + 1)
    }
}

/// The header read with the keyword at the rightmost position at or below
/// `i` at which some keyword completes a header.
pub open spec fn parse_from(kws: Seq<Seq<char>>, line: Seq<char>, i: int) -> Option<Header>
    decreases i + 1,
{
    if i < 0 {
        None
    } else {
        match parse_keyword_at(kws, line, i, 0) {
            Some(h) => Some(h),
            None => parse_from(kws, line, i - 1),
        }
    }
}

/// The header parse of a whole line: the prefix is captured greedily.
pub open spec fn parse_header(kws: Seq<Seq<char>>, line: Seq<char>) -> Option<Header> {
    parse_from(kws, line, line.len() as int)
}

/// The comment carried by a continuation line: the text after the block's
/// literal prefix, when the line starts with that prefix.
pub open spec fn continuation_of(prefix: Seq<char>, line: Seq<char>) -> Option<Seq<char>> {
    if prefix.len() <= line.len() && line.take(prefix.len() as int) == prefix {
        Some(line.skip(prefix.len() as int))
    } else {
        None
    }
}

/// A fresh annotation from a parsed header at a 1-based line number.
pub open spec fn todo_at(h: Header, lineno: int) -> TodoView {
    TodoView {
        line: lineno as u32,
        prefix: h.prefix,
        keyword: h.keyword,
        title: h.title,
        issue_id: h.issue_id,
        comments: Seq::<Seq<char>>::empty(),
    }
}

/// The block in progress appended to the finished ones, when one is open.
pub open spec fn flush(acc: Seq<TodoView>, cur: Option<TodoView>) -> Seq<TodoView> {
    match cur {
        Some(t) => acc.push(t),
        None => acc,
    }
}

/// One more continuation line appended to an open block.
pub open spec fn append_comment(t: TodoView, c: Seq<char>) -> TodoView {
    TodoView { comments: t.comments.push(c), ..t }
}

/// The scan of the remaining lines: a header line closes any open block and
/// opens a new one, a continuation line extends the open block, any other
/// line is skipped, and the end of input closes the open block.
pub open spec fn extract_from(
    kws: Seq<Seq<char>>,
    lns: Seq<Seq<char>>,
    lineno: int,
    cur: Option<TodoView>,
    acc: Seq<TodoView>,
) -> Seq<TodoView>
    decreases lns.len(),
{
    if lns.len() == 0 {
        flush(acc, cur)
    } else {
        match parse_header(kws, lns[0]) {
            Some(h) => extract_from(
                kws,
                lns.skip(1),
                lineno + 1,
                Some(todo_at(h, lineno)),
                flush(acc, cur),
            ),
            None => match cur {
                Some(t) => match continuation_of(t.prefix, lns[0]) {
                    Some(c) => extract_from(
                        kws,
                        lns.skip(1),
                        lineno + 1,
                        Some(append_comment(t, c)),
                        acc,
                    ),
                    None => extract_from(kws, lns.skip(1), lineno + 1, cur, acc),
                },
                None => extract_from(kws, lns.skip(1), lineno + 1, cur, acc),
            },
        }
    }
}

/// All annotations of a text, in order of their header lines.
pub open spec fn extract_text(kws: Seq<Seq<char>>, text: Seq<char>) -> Seq<TodoView> {
    extract_from(kws, split_lines(text), 1, None, Seq::<TodoView>::empty())
}

/// A text has at most as many lines as characters, and no line is longer
/// than the text.
pub proof fn lemma_line_count(text: Seq<char>)
    ensures
        split_lines(text).len() <= text.len(),
        forall|i: int|
            0 <= i < split_lines(text).len() ==> (#[trigger] split_lines(text)[i]).len()
                <= text.len(),
    decreases text.len(),
{
    if text.len() == 0 {
    } else {
        let j = crate::lines::find_char(text, '\n');
        if 0 <= j < text.len() {
            lemma_line_count(text.skip(j + 1));
            assert forall|i: int| 0 <= i < split_lines(text).len() implies (
            #[trigger] split_lines(text)[i]).len() <= text.len() by {
                if i == 0 {
                    assert(split_lines(text)[0] == crate::lines::strip_one_cr(text.take(j)));
                } else {
                    assert(split_lines(text)[i] == split_lines(text.skip(j + 1))[i - 1]);
                }
            }
        }
    }
}

/// Whether the pattern stands at the given position, in executable code.
pub(crate) fn starts_with_chars(text: &Vec<char>, pat: &Vec<char>, i: usize) -> (r: bool)
    requires
        i <= text@.len(),
    ensures
        r == starts_with_at(text@, pat@, i as int),
{
    let n = text.len();
    let m = pat.len();
    if n - i < m {
        return false;
    }
    let mut j: usize = 0;
    while j < m
        invariant
            j <= m,
            m == pat@.len(),
            n == text@.len(),
            i + m <= n,
            forall|k: int| 0 <= k < j ==> text@[i + k] == pat@[k],
        decreases m - j,
    {
        if text[i + j] != pat[j] {
            proof {
                assert(text@.subrange(i as int, i + pat@.len())[j as int] == text@[i + j]);
            }
            return false;
        }
        j = j + 1;
    }
    proof {
        assert(text@.subrange(i as int, i + pat@.len()) =~= pat@);
    }
    true
}

/// The characters of a slice of the line, as a string.
fn sub_string(line: &Vec<char>, a: usize, b: usize) -> (r: String)
    requires
        a <= b <= line@.len(),
    ensures
        r@ == line@.subrange(a as int, b as int),
{
    let mut v: Vec<char> = Vec::new();
    let mut j: usize = a;
    while j < b
        invariant
            a <= j <= b <= line@.len(),
            v@ == line@.subrange(a as int, j as int),
        decreases b - j,
    {
        v.push(line[j]);
        proof {
            assert(v@ =~= line@.subrange(a as int, j + 1));
        }
        j = j + 1;
    }
    chars_string(&v)
}

/// A decimal digit, decided in executable code.
fn is_digit_exec(c: char) -> (r: bool)
    ensures
        r == is_digit(c),
{
    let u = c as u32;
    48 <= u && u <= 57
}

/// The issue marker read at a position, in executable code.
fn parse_marker_exec(line: &Vec<char>, j: usize) -> (r: Option<(u32, usize)>)
    requires
        j <= line@.len(),
    ensures
        match r {
            Some((id, a)) => parse_marker(line@, j as int) == Some((id, a as int)) && a <= line@.len(),
            None => parse_marker(line@, j as int) is None,
        },
{
    if line.len() - j < 2 {
        return None;
    }
    if line[j] != '(' || line[j + 1] != '#' {
        return None;
    }
    let mut e: usize = j + 2;
    let mut val: u64 = 0;
    let mut overflow: bool = false;
    while e < line.len() && is_digit_exec(line[e])
        invariant
            j + 2 <= e <= line@.len(),
            forall|m: int| j + 2 <= m < e ==> is_digit(line@[m]),
            digits_end(line@, j + 2) == digits_end(line@, e as int),
            !overflow ==> val == digits_val(line@, j + 2, e as int) && val <= u32::MAX as u64,
            overflow ==> digits_val(line@, j + 2, e as int) > u32::MAX as nat,
        decreases line.len() - e,
    {
        let d = (line[e] as u32 - 48) as u64;
        proof {
            assert(is_digit(line@[e as int]));
            assert(digits_val(line@, j + 2, e + 1) == digits_val(line@, j + 2, e as int) * 10
                + digit_val(line@[e as int]));
            assert(digit_val(line@[e as int]) == d);
        }
        if overflow {
            proof {
                assert(digits_val(line@, j + 2, e as int) * 10 >= digits_val(
                    line@,
                    j + 2,
                    e as int,
                ));
            }
        } else {
            let nv = val * 10 + d;
            if nv > u32::MAX as u64 {
                overflow = true;
            } else {
                val = nv;
            }
        }
        e = e + 1;
    }
    proof {
        // the digit run ends here
        assert(digits_end(line@, e as int) == e);
    }
    if e == j + 2 {
        return None;
    }
    if e >= line.len() || line[e] != ')' {
        return None;
    }
    if overflow {
        return None;
    }
    Some((val as u32, e + 1))
}

/// Whether a colon and a space stand at the given position.
fn colon_space_at(line: &Vec<char>, a: usize) -> (r: bool)
    requires
        a <= line@.len(),
    ensures
        r == starts_with_at(line@, colon_space(), a as int),
{
    if line.len() - a < 2 {
        return false;
    }
    let r = line[a] == ':' && line[a + 1] == ' ';
    proof {
        if r {
            assert(line@.subrange(a as int, a + 2) =~= colon_space());
        } else {
            assert(line@.subrange(a as int, a + 2)[0] == line@[a as int]);
            assert(line@.subrange(a as int, a + 2)[1] == line@[a + 1]);
        }
    }
    r
}

/// What follows the keyword, in executable code: the issue id, if any, and
/// the position where the title starts.
fn parse_tail_exec(line: &Vec<char>, j: usize) -> (r: Option<(Option<u32>, usize)>)
    requires
        j <= line@.len(),
    ensures
        match r {
            Some((id, ts)) => parse_tail(line@, j as int) == Some(
                (id, line@.skip(ts as int)),
            ) && ts <= line@.len(),
            None => parse_tail(line@, j as int) is None,
        },
{
    match parse_marker_exec(line, j) {
        Some((id, a)) => {
            if colon_space_at(line, a) && line.len() - a > 2 {
                Some((Some(id), a + 2))
            } else {
                None
            }
        },
        None => {
            if colon_space_at(line, j) && line.len() - j > 2 {
                Some((None, j + 2))
            } else {
                None
            }
        },
    }
}

/// The keyword-order search at one position, in executable code: the keyword
/// index, the issue id, and the position where the title starts.
fn parse_keyword_exec(kwc: &Vec<Vec<char>>, line: &Vec<char>, i: usize) -> (r: Option<
    (usize, Option<u32>, usize),
>)
    requires
        i <= line@.len(),
    ensures
        match r {
            Some((ki, id, ts)) => ki < kwc@.len() && ts <= line@.len() && parse_keyword_at(
                kwc.deep_view(),
                line@,
                i as int,
                0,
            ) == Some(
                Header {
                    prefix: line@.take(i as int),
                    keyword: kwc.deep_view()[ki as int],
                    issue_id: id,
                    title: line@.skip(ts as int),
                },
            ),
            None => parse_keyword_at(kwc.deep_view(), line@, i as int, 0) is None,
        },
{
    let ghost kws = kwc.deep_view();
    let n = line.len();
    let mut ki: usize = 0;
    while ki < kwc.len()
        invariant
            ki <= kwc@.len(),
            kws == kwc.deep_view(),
            n == line@.len(),
            i <= line@.len(),
            parse_keyword_at(kws, line@, i as int, 0) == parse_keyword_at(
                kws,
                line@,
                i as int,
                ki as int,
            ),
        decreases kwc.len() - ki,
    {
        proof {
            assert(kws[ki as int] == kwc@[ki as int]@);
        }
        if starts_with_chars(line, &kwc[ki], i) {
            proof {
                assert(kwc.deep_view()[ki as int] == kwc@[ki as int]@);
                assert(i + kwc@[ki as int]@.len() <= n);
            }
            let j = i + kwc[ki].len();
            match parse_tail_exec(line, j) {
                Some((id, ts)) => {
                    return Some((ki, id, ts));
                },
                None => {},
            }
        }
        ki = ki + 1;
    }
    None
}

/// The header parse of a whole line, in executable code: the annotation with
/// its line number not yet attached.
fn parse_line_exec(keywords: &[String], kwc: &Vec<Vec<char>>, line: &Vec<char>) -> (r: Option<Todo>)
    requires
        kwc.deep_view() == keywords.deep_view(),
        line@.len() < usize::MAX,
    ensures
        match r {
            Some(t) => parse_header(keywords.deep_view(), line@) == Some(
                Header {
                    prefix: t.prefix@,
                    keyword: t.keyword@,
                    issue_id: t.issue_id,
                    title: t.title@,
                },
            ) && t.line == 0 && t.comments@.len() == 0,
            None => parse_header(keywords.deep_view(), line@) is None,
        },
{
    let ghost kws = keywords.deep_view();
    let mut i: usize = line.len() + 1;
    while i > 0
        invariant
            i <= line@.len() + 1,
            kws == kwc.deep_view(),
            kws == keywords.deep_view(),
            parse_from(kws, line@, line@.len() as int) == parse_from(kws, line@, i - 1),
        decreases i,
    {
        i = i - 1;
        match parse_keyword_exec(kwc, line, i) {
            Some((ki, id, ts)) => {
                proof {
                    assert(kwc.deep_view().len() == kwc@.len());
                    assert(keywords.deep_view().len() == keywords@.len());
                    assert(ki < keywords@.len());
                }
                let prefix = sub_string(line, 0, i);
                let keyword = keywords[ki].clone();
                let title = sub_string(line, ts, line.len());
                proof {
                    assert(keywords.deep_view()[ki as int] == keywords@[ki as int]@);
                    assert(line@.take(i as int) =~= line@.subrange(0, i as int));
                    assert(line@.skip(ts as int) =~= line@.subrange(
                        ts as int,
                        line@.len() as int,
                    ));
                }
                let t = Todo {
                    line: 0,
                    prefix,
                    keyword,
                    title,
                    issue_id: id,
                    comments: Vec::new(),
                };
                return Some(t);
            },
            None => {
                proof {
                    assert(parse_from(kws, line@, i as int) == parse_from(kws, line@, i - 1));
                }
            },
        }
    }
    proof {
        assert(parse_from(kws, line@, -1) is None);
    }
    None
}

/// The comment of a continuation line of the open block, when the line is
/// one.
fn continuation_exec(line: &Vec<char>, prefix: &str) -> (r: Option<String>)
    ensures
        match r {
            Some(c) => continuation_of(prefix@, line@) == Some(c@),
            None => continuation_of(prefix@, line@) is None,
        },
{
    let p = str_chars(prefix);
    let n = p.len();
    if n > line.len() {
        return None;
    }
    if !starts_with_chars(line, &p, 0) {
        proof {
            assert(line@.take(n as int) =~= line@.subrange(0, n as int));
        }
        return None;
    }
    proof {
        assert(line@.take(n as int) =~= line@.subrange(0, n as int));
    }
    Some(sub_string(line, n, line.len()))
}

/// The view of the block in progress.
pub open spec fn cur_view(c: Option<Todo>) -> Option<TodoView> {
    match c {
        Some(t) => Some(t@),
        None => None,
    }
}

/// Scans a text line by line and returns every annotation block found, in
/// order: a line reading `prefix keyword(#id): title` opens a block, the
/// following lines that start with the same literal prefix are its comments,
/// and any other line is skipped without closing the block.
pub fn find_todos(keywords: &[String], input: &str) -> (r: Vec<Todo>)
    requires
        keywords@.len() > 0,
        input@.len() < u32::MAX as nat,
    ensures
        r.deep_view() == extract_text(keywords.deep_view(), input@),
{
    let ghost kws = keywords.deep_view();
    let text = str_chars(input);
    let lines = split_lines_exec(&text);
    proof {
        lemma_line_count(text@);
    }
    let mut kwc: Vec<Vec<char>> = Vec::new();
    let mut k: usize = 0;
    while k < keywords.len()
        invariant
            k <= keywords@.len(),
            kws == keywords.deep_view(),
            kws.len() == keywords@.len(),
            kwc.deep_view() =~= kws.take(k as int),
        decreases keywords.len() - k,
    {
        let ghost prev = kwc@;
        kwc.push(str_chars(keywords[k].as_str()));
        proof {
            assert(kws[k as int] == keywords@[k as int]@);
            assert(kwc.deep_view().len() == kwc@.len());
            assert(prev.len() == kws.take(k as int).len());
            assert(kwc@.len() == k + 1);
            assert forall|i: int| 0 <= i < k + 1 implies kwc.deep_view()[i] == kws.take(k + 1)[i] by {
                assert(kwc.deep_view()[i] == kwc@[i]@);
                if i < k {
                    assert(kwc@[i] == prev[i]);
                    assert(prev[i]@ == kws.take(k as int)[i]);
                }
            }
            assert(kwc.deep_view() =~= kws.take(k + 1));
        }
        k = k + 1;
    }
    proof {
        assert(kws.take(kws.len() as int) =~= kws);
        assert(kwc.deep_view() =~= kws);
    }

    let ghost all_lines = lines.deep_view();
    let mut out: Vec<Todo> = Vec::new();
    let mut cur: Option<Todo> = None;
    let mut idx: usize = 0;
    proof {
        assert(all_lines.skip(0) =~~= all_lines);
        assert(out.deep_view() =~~= Seq::<TodoView>::empty());
        assert(extract_text(kws, input@) == extract_from(
            kws,
            all_lines,
            1,
            cur_view(cur),
            Seq::<TodoView>::empty(),
        ));
    }
    while idx < lines.len()
        invariant
            idx <= lines@.len(),
            lines@.len() == all_lines.len() <= text@.len() < u32::MAX as nat,
            all_lines == lines.deep_view(),
            all_lines == split_lines(text@),
            text@ == input@,
            forall|i: int| 0 <= i < all_lines.len() ==> (#[trigger] all_lines[i]).len()
                <= text@.len(),
            kwc.deep_view() == kws,
            kws == keywords.deep_view(),
            extract_text(kws, input@) == extract_from(
                kws,
                all_lines.skip(idx as int),
                idx + 1,
                cur_view(cur),
                out.deep_view(),
            ),
        decreases lines.len() - idx,
    {
        let ghost rest = all_lines.skip(idx as int);
        proof {
            assert(rest[0] == all_lines[idx as int]);
            assert(all_lines[idx as int] == lines@[idx as int]@);
            assert(rest.skip(1) =~= all_lines.skip(idx + 1));
            assert(lines@[idx as int]@.len() <= text@.len());
        }
        let ghost old_cur = cur_view(cur);
        let ghost old_out = out.deep_view();
        match parse_line_exec(keywords, &kwc, &lines[idx]) {
            Some(t) => {
                let started = Todo { line: (idx as u32) + 1, ..t };
                proof {
                    let h = parse_header(kws, rest[0])->0;
                    assert(started@.comments =~= Seq::<Seq<char>>::empty());
                    assert(started@.line == idx + 1);
                    assert(started@ =~= todo_at(h, idx + 1));
                }
                match cur {
                    Some(prev) => {
                        let ghost prevv = out@;
                        out.push(prev);
                        proof {
                            assert forall|i: int| 0 <= i < out@.len() implies out.deep_view()[i]
                                == old_out.push(prev@)[i] by {
                                assert(out.deep_view()[i] == out@[i]@);
                                if i < prevv.len() {
                                    assert(out@[i] == prevv[i]);
                                    assert(old_out[i] == prevv[i]@);
                                }
                            }
                            assert(out.deep_view() =~= old_out.push(prev@));
                        }
                    },
                    None => {},
                }
                cur = Some(started);
                proof {
                    assert(out.deep_view() == flush(old_out, old_cur));
                    assert(extract_from(kws, rest, idx + 1, old_cur, old_out) == extract_from(
                        kws,
                        rest.skip(1),
                        idx + 2,
                        cur_view(cur),
                        out.deep_view(),
                    ));
                }
            },
            None => {
                match cur {
                    Some(mut t) => {
                        match continuation_exec(&lines[idx], t.prefix.as_str()) {
                            Some(c) => {
                                let ghost oldt = t@;
                                t.comments.push(c);
                                proof {
                                    assert(t@.comments =~= oldt.comments.push(c@));
                                    assert(t@ =~= append_comment(
                                        oldt,
                                        continuation_of(oldt.prefix, rest[0])->0,
                                    ));
                                }
                                cur = Some(t);
                            },
                            None => {
                                cur = Some(t);
                            },
                        }
                    },
                    None => {
                        cur = None;
                    },
                }
                proof {
                    assert(extract_from(kws, rest, idx + 1, old_cur, old_out) == extract_from(
                        kws,
                        rest.skip(1),
                        idx + 2,
                        cur_view(cur),
                        out.deep_view(),
                    ));
                }
            },
        }
        idx = idx + 1;
    }
    proof {
        assert(all_lines.skip(all_lines.len() as int) =~~= Seq::<Seq<char>>::empty());
    }
    let ghost end_out = out.deep_view();
    let ghost end_cur = cur_view(cur);
    match cur {
        Some(t) => {
            let ghost prevv = out@;
            out.push(t);
            proof {
                assert forall|i: int| 0 <= i < out@.len() implies out.deep_view()[i]
                    == end_out.push(t@)[i] by {
                    assert(out.deep_view()[i] == out@[i]@);
                    if i < prevv.len() {
                        assert(out@[i] == prevv[i]);
                        assert(end_out[i] == prevv[i]@);
                    }
                }
                assert(out.deep_view() =~= end_out.push(t@));
                assert(out.deep_view() == flush(end_out, end_cur));
            }
        },
        None => {},
    }
    out
}

} // verus!
