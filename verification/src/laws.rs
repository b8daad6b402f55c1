//! The laws the library states about itself, proved once and for all:
//! extracted headers reproduce their source lines; stamping rewrites a text
//! line by line, is idempotent once no unreported form is left, and round
//! trips — extracting a freshly stamped text gives back the stamped
//! annotations; and removal only ever deletes matched blocks, keeping
//! everything else in order.
use vstd::prelude::*;

use crate::text::{dec_digit, dec_str};
use crate::todo::{
    colon_space, header_text, marker_text, reported_header, unreported_header, TodoView,
};
use crate::todo_parser::{
    digit_val, digits_end, digits_val, extract_from, extract_text, flush, is_digit, parse_from,
    parse_header, parse_keyword_at, parse_marker, parse_tail, starts_with_at, todo_at, Header,
};
use crate::lines::split_lines;
use crate::mutate::{
    block_end, block_here, lemma_block_end_bounds, lemma_match_here, mark_pairs, mark_text,
    match_here, remove_text,
};

verus! {

/// The digit character of a digit's value is the digit itself.
proof fn lemma_dec_digit_inverse(c: char)
    requires
        is_digit(c),
    ensures
        dec_digit(digit_val(c)) == c,
{
    assert(c as u32 == 48 || c as u32 == 49 || c as u32 == 50 || c as u32 == 51 || c as u32 == 52
        || c as u32 == 53 || c as u32 == 54 || c as u32 == 55 || c as u32 == 56 || c as u32
        == 57);
    assert(c == '0' || c == '1' || c == '2' || c == '3' || c == '4' || c == '5' || c == '6' || c
        == '7' || c == '8' || c == '9') by {
        assert(('0') as u32 == 48 && ('1') as u32 == 49 && ('2') as u32 == 50 && ('3') as u32 == 51
            && ('4') as u32 == 52 && ('5') as u32 == 53 && ('6') as u32 == 54 && ('7') as u32 == 55
            && ('8') as u32 == 56 && ('9') as u32 == 57);
        assert(c as u32 == ('0') as u32 ==> c == '0');
        assert(c as u32 == ('1') as u32 ==> c == '1');
        assert(c as u32 == ('2') as u32 ==> c == '2');
        assert(c as u32 == ('3') as u32 ==> c == '3');
        assert(c as u32 == ('4') as u32 ==> c == '4');
        assert(c as u32 == ('5') as u32 ==> c == '5');
        assert(c as u32 == ('6') as u32 ==> c == '6');
        assert(c as u32 == ('7') as u32 ==> c == '7');
        assert(c as u32 == ('8') as u32 ==> c == '8');
        assert(c as u32 == ('9') as u32 ==> c == '9');
    }
}

/// A digit run without a leading zero is the decimal writing of its value.
proof fn lemma_digits_canonical(line: Seq<char>, j: int, e: int)
    requires
        0 <= j < e <= line.len(),
        forall|m: int| j <= m < e ==> is_digit(#[trigger] line[m]),
        e - j == 1 || digit_val(line[j]) >= 1,
    ensures
        dec_str(digits_val(line, j, e)) == line.subrange(j, e),
        digit_val(line[j]) >= 1 ==> digits_val(line, j, e) >= 1,
    decreases e - j,
{
    if e - j == 1 {
        assert(digits_val(line, j, e) == digits_val(line, j, j) * 10 + digit_val(line[j]));
        assert(digits_val(line, j, e) == digit_val(line[j]));
        assert(digit_val(line[j]) < 10);
        lemma_dec_digit_inverse(line[j]);
        assert(dec_str(digits_val(line, j, e)) =~= line.subrange(j, e));
    } else {
        lemma_digits_canonical(line, j, e - 1);
        let v0 = digits_val(line, j, e - 1);
        let d = digit_val(line[e - 1]);
        let v = digits_val(line, j, e);
        assert(v == v0 * 10 + d);
        assert(v0 >= 1);
        assert(v0 * 10 >= 10) by (nonlinear_arith)
            requires
                v0 >= 1,
        ;
        assert(d < 10);
        assert(v >= 10);
        assert(v / 10 == v0 && v % 10 == d) by (nonlinear_arith)
            requires
                v == v0 * 10 + d,
                0 <= d < 10,
                v0 >= 0,
        ;
        assert(dec_str(v) == dec_str(v0).push(dec_digit(d)));
        lemma_dec_digit_inverse(line[e - 1]);
        assert(dec_str(v) =~= line.subrange(j, e - 1).push(line[e - 1]));
        assert(line.subrange(j, e - 1).push(line[e - 1]) =~= line.subrange(j, e));
    }
}

/// What a parsed issue marker stands for in the line: the exact characters
/// `(#digits)`, and, when the digits carry no leading zero, exactly the
/// marker that re-serializing the id writes.
proof fn lemma_marker_exact(line: Seq<char>, j: int)
    ensures
        parse_marker(line, j) matches Some((id, a)) ==> {
            let e = a - 1;
            &&& 0 <= j && j + 2 < e < line.len() && a <= line.len()
            &&& line[j] == '(' && line[j + 1] == '#' && line[e] == ')'
            &&& (forall|m: int| j + 2 <= m < e ==> is_digit(#[trigger] line[m]))
            &&& digits_val(line, j + 2, e) == id as nat
            &&& (line[j + 2] != '0' || e == j + 3) ==> line.subrange(j, a) == marker_text(id)
        },
{
    if parse_marker(line, j) is Some {
        let (id, a) = parse_marker(line, j)->0;
        let e = digits_end(line, j + 2);
        lemma_digits_end_digits(line, j + 2);
        assert(e == a - 1);
        if line[j + 2] != '0' || e == j + 3 {
            assert(is_digit(line[j + 2]));
            if line[j + 2] != '0' {
                assert(digit_val(line[j + 2]) >= 1) by {
                    lemma_dec_digit_inverse(line[j + 2]);
                }
            }
            lemma_digits_canonical(line, j + 2, e);
            assert(dec_str(id as nat) == line.subrange(j + 2, e));
            assert(line.subrange(j, a) =~= seq!['(', '#'] + line.subrange(j + 2, e) + seq![')']);
            assert(line.subrange(j, a) == marker_text(id));
        }
    }
}

/// Every character the digit scan passed over is a digit, and the scan stays
/// within the line.
proof fn lemma_digits_end_digits(line: Seq<char>, j: int)
    requires
        0 <= j <= line.len(),
    ensures
        j <= digits_end(line, j) <= line.len(),
        forall|m: int| j <= m < digits_end(line, j) ==> is_digit(#[trigger] line[m]),
        digits_end(line, j) < line.len() ==> !is_digit(line[digits_end(line, j)]),
    decreases line.len() - j,
{
    if j < line.len() && is_digit(line[j]) {
        lemma_digits_end_digits(line, j + 1);
        assert forall|m: int| j <= m < digits_end(line, j) implies is_digit(
            #[trigger] line[m],
        ) by {
            if m > j {
                assert(digits_end(line, j) == digits_end(line, j + 1));
            }
        }
    }
}

/// What a parsed header stands for in the line, byte for byte: the line is
/// the prefix, the keyword, the marker as written (if any), a colon and a
/// space, and the title.  An unreported header therefore re-serializes to
/// the very line; a reported one does too unless its marker was written
/// with a leading zero, which re-serializing normalizes away.
#[verifier::rlimit(100)]
pub proof fn lemma_parse_keyword_exact(kws: Seq<Seq<char>>, line: Seq<char>, i: int, ki: int)
    ensures
        parse_keyword_at(kws, line, i, ki) matches Some(h) ==> {
            &&& h.prefix == line.take(i)
            &&& (h.issue_id is None ==> line == unreported_header(header_view(h)))
            &&& (h.issue_id matches Some(id) ==> exists|ds: Seq<char>|
                {
                    &&& line == h.prefix + h.keyword + (seq!['(', '#'] + ds + seq![')'])
                        + colon_space() + h.title
                    &&& ds.len() >= 1
                    &&& (forall|m: int| 0 <= m < ds.len() ==> is_digit(#[trigger] ds[m]))
                    &&& ((ds[0] != '0' || ds.len() == 1) ==> line == reported_header(
                        header_view(h),
                    ))
                })
        },
    decreases kws.len() - ki,
{
    if ki < 0 || ki >= kws.len() {
    } else if starts_with_at(line, kws[ki], i) && parse_tail(line, i + kws[ki].len()) is Some {
        let j = i + kws[ki].len();
        let t = parse_tail(line, j)->0;
        let h = parse_keyword_at(kws, line, i, ki)->0;
        assert(line.subrange(i, j) == kws[ki]);
        match parse_marker(line, j) {
            Some((id, a)) => {
                lemma_marker_exact(line, j);
                let e = a - 1;
                let ds = line.subrange(j + 2, e);
                assert(line =~= line.take(i) + line.subrange(i, j) + (seq!['(', '#'] + ds
                    + seq![')']) + line.subrange(a, a + 2) + line.skip(a + 2));
                assert(line.subrange(a, a + 2) == colon_space());
                assert(ds.len() >= 1);
                if ds[0] != '0' || ds.len() == 1 {
                    assert(line.subrange(j, a) == marker_text(id));
                    assert(line =~= line.take(i) + line.subrange(i, j) + marker_text(id)
                        + colon_space() + line.skip(a + 2));
                    assert(line == reported_header(header_view(h)));
                }
                assert(h.issue_id matches Some(idd) && idd == id);
                assert(exists|ds2: Seq<char>|
                    {
                        &&& line == h.prefix + h.keyword + (seq!['(', '#'] + ds2 + seq![')'])
                            + colon_space() + h.title
                        &&& ds2.len() >= 1
                        &&& (forall|m: int| 0 <= m < ds2.len() ==> is_digit(#[trigger] ds2[m]))
                        &&& ((ds2[0] != '0' || ds2.len() == 1) ==> line == reported_header(
                            header_view(h),
                        ))
                    }) by {
                    assert({
                        &&& line == h.prefix + h.keyword + (seq!['(', '#'] + ds + seq![')'])
                            + colon_space() + h.title
                        &&& ds.len() >= 1
                        &&& (forall|m: int| 0 <= m < ds.len() ==> is_digit(#[trigger] ds[m]))
                        &&& ((ds[0] != '0' || ds.len() == 1) ==> line == reported_header(
                            header_view(h),
                        ))
                    });
                }
            },
            None => {
                assert(starts_with_at(line, colon_space(), j));
                assert(line.subrange(j, j + 2) == colon_space());
                assert(line =~= line.take(i) + line.subrange(i, j) + line.subrange(j, j + 2)
                    + line.skip(j + 2));
                assert(line == unreported_header(header_view(h)));
            },
        }
    } else {
        lemma_parse_keyword_exact(kws, line, i, ki + 1);
    }
}

/// A parsed header as an annotation view with no line number and no
/// comments.
pub open spec fn header_view(h: Header) -> TodoView {
    todo_at(h, 0)
}

/// The header-exactness of the whole greedy parse.
pub proof fn lemma_parse_header_exact(kws: Seq<Seq<char>>, line: Seq<char>, i: int)
    ensures
        parse_from(kws, line, i) matches Some(h) ==> {
            &&& h.prefix == line.take(h.prefix.len() as int)
            &&& (h.issue_id is None ==> line == unreported_header(header_view(h)))
            &&& (h.issue_id matches Some(id) ==> exists|ds: Seq<char>|
                {
                    &&& line == h.prefix + h.keyword + (seq!['(', '#'] + ds + seq![')'])
                        + colon_space() + h.title
                    &&& ds.len() >= 1
                    &&& (forall|m: int| 0 <= m < ds.len() ==> is_digit(#[trigger] ds[m]))
                    &&& ((ds[0] != '0' || ds.len() == 1) ==> line == reported_header(
                        header_view(h),
                    ))
                })
        },
    decreases i + 1,
{
    if i >= 0 {
        match parse_keyword_at(kws, line, i, 0) {
            Some(h) => {
                lemma_parse_keyword_exact(kws, line, i, 0);
            },
            None => {
                lemma_parse_header_exact(kws, line, i - 1);
            },
        }
    }
}

/// What holds of one extracted annotation against the lines of the text it
/// came from: its line number points at a real line, and re-serializing its
/// header (prefix, keyword, the `(#id)` marker when reported, a colon and a
/// space, the title) reproduces that line byte for byte — for a reported
/// annotation under the one proviso that the marker was not written with a
/// leading zero, which re-serializing would normalize away.
pub open spec fn header_law(t: TodoView, all: Seq<Seq<char>>) -> bool {
    &&& 1 <= t.line <= all.len()
    &&& (t.issue_id is None ==> all[t.line - 1] == header_text(t))
    &&& (t.issue_id is Some ==> exists|ds: Seq<char>|
        {
            &&& all[t.line - 1] == t.prefix + t.keyword + (seq!['(', '#'] + ds + seq![')'])
                + colon_space() + t.title
            &&& ds.len() >= 1
            &&& (forall|m: int| 0 <= m < ds.len() ==> is_digit(#[trigger] ds[m]))
            &&& ((ds[0] != '0' || ds.len() == 1) ==> all[t.line - 1] == header_text(t))
        })
}

/// A header's re-serialization does not depend on the line number or the
/// comments attached to the annotation.
proof fn lemma_header_law_fields(t: TodoView, u: TodoView, all: Seq<Seq<char>>)
    requires
        header_law(t, all),
        u.line == t.line,
        u.prefix == t.prefix,
        u.keyword == t.keyword,
        u.title == t.title,
        u.issue_id == t.issue_id,
    ensures
        header_law(u, all),
{
    if t.issue_id is Some {
        let ds = choose|ds: Seq<char>|
            {
                &&& all[t.line - 1] == t.prefix + t.keyword + (seq!['(', '#'] + ds + seq![')'])
                    + colon_space() + t.title
                &&& ds.len() >= 1
                &&& (forall|m: int| 0 <= m < ds.len() ==> is_digit(#[trigger] ds[m]))
                &&& ((ds[0] != '0' || ds.len() == 1) ==> all[t.line - 1] == reported_header(t))
            };
        assert({
            &&& all[u.line - 1] == u.prefix + u.keyword + (seq!['(', '#'] + ds + seq![')'])
                + colon_space() + u.title
            &&& ds.len() >= 1
            &&& (forall|m: int| 0 <= m < ds.len() ==> is_digit(#[trigger] ds[m]))
            &&& ((ds[0] != '0' || ds.len() == 1) ==> all[u.line - 1] == reported_header(u))
        });
    }
}

/// The scan keeps the header law: every annotation it has finished or still
/// holds open satisfies it, and so does everything it will still find.
proof fn lemma_extract_from_law(
    kws: Seq<Seq<char>>,
    lns: Seq<Seq<char>>,
    lineno: int,
    cur: Option<TodoView>,
    acc: Seq<TodoView>,
    all: Seq<Seq<char>>,
)
    requires
        1 <= lineno,
        lineno - 1 <= all.len(),
        all.len() < u32::MAX,
        lns == all.skip(lineno - 1),
        forall|i: int| 0 <= i < acc.len() ==> header_law(#[trigger] acc[i], all),
        cur matches Some(t) ==> header_law(t, all),
    ensures
        forall|i: int|
            0 <= i < extract_from(kws, lns, lineno, cur, acc).len() ==> header_law(
                #[trigger] extract_from(kws, lns, lineno, cur, acc)[i],
                all,
            ),
    decreases lns.len(),
{
    let result = extract_from(kws, lns, lineno, cur, acc);
    if lns.len() == 0 {
        match cur {
            Some(t) => {
                assert forall|i: int| 0 <= i < flush(acc, cur).len() implies header_law(
                    #[trigger] flush(acc, cur)[i],
                    all,
                ) by {
                    if i < acc.len() {
                        assert(flush(acc, cur)[i] == acc[i]);
                    } else {
                        assert(flush(acc, cur)[i] == t);
                    }
                }
            },
            None => {
                assert forall|i: int| 0 <= i < result.len() implies header_law(
                    #[trigger] result[i],
                    all,
                ) by {
                    assert(result[i] == acc[i]);
                }
            },
        }
    } else {
        assert(lns[0] == all[lineno - 1]);
        assert(lns.skip(1) =~= all.skip(lineno));
        match parse_header(kws, lns[0]) {
            Some(h) => {
                lemma_parse_header_exact(kws, lns[0], lns[0].len() as int);
                let started = todo_at(h, lineno);
                assert(started.line == lineno);
                assert(header_law(started, all)) by {
                    lemma_header_law_fields(
                        TodoView { line: started.line, ..header_view(h) },
                        started,
                        all,
                    );
                    assert(header_law(
                        TodoView { line: started.line, ..header_view(h) },
                        all,
                    )) by {
                        let hv = header_view(h);
                        if h.issue_id is Some {
                            let ds = choose|ds: Seq<char>|
                                {
                                    &&& lns[0] == h.prefix + h.keyword + (seq!['(', '#'] + ds
                                        + seq![')']) + colon_space() + h.title
                                    &&& ds.len() >= 1
                                    &&& (forall|m: int|
                                        0 <= m < ds.len() ==> is_digit(#[trigger] ds[m]))
                                    &&& ((ds[0] != '0' || ds.len() == 1) ==> lns[0]
                                        == reported_header(hv))
                                };
                            let u = TodoView { line: started.line, ..hv };
                            assert(reported_header(u) == reported_header(hv));
                            assert({
                                &&& all[u.line - 1] == u.prefix + u.keyword + (seq!['(', '#'] + ds
                                    + seq![')']) + colon_space() + u.title
                                &&& ds.len() >= 1
                                &&& (forall|m: int| 0 <= m < ds.len() ==> is_digit(
                                    #[trigger] ds[m],
                                ))
                                &&& ((ds[0] != '0' || ds.len() == 1) ==> all[u.line - 1]
                                    == reported_header(u))
                            });
                        }
                    }
                }
                let acc2 = flush(acc, cur);
                assert forall|i: int| 0 <= i < acc2.len() implies header_law(
                    #[trigger] acc2[i],
                    all,
                ) by {
                    match cur {
                        Some(t) => {
                            if i < acc.len() {
                                assert(acc2[i] == acc[i]);
                            } else {
                                assert(acc2[i] == t);
                            }
                        },
                        None => {},
                    }
                }
                lemma_extract_from_law(kws, lns.skip(1), lineno + 1, Some(started), acc2, all);
                assert(result == extract_from(kws, lns.skip(1), lineno + 1, Some(started), acc2));
            },
            None => {
                match cur {
                    Some(t) => {
                        match crate::todo_parser::continuation_of(t.prefix, lns[0]) {
                            Some(c) => {
                                let t2 = crate::todo_parser::append_comment(t, c);
                                lemma_header_law_fields(t, t2, all);
                                lemma_extract_from_law(
                                    kws,
                                    lns.skip(1),
                                    lineno + 1,
                                    Some(t2),
                                    acc,
                                    all,
                                );
                                assert(result == extract_from(
                                    kws,
                                    lns.skip(1),
                                    lineno + 1,
                                    Some(t2),
                                    acc,
                                ));
                            },
                            None => {
                                lemma_extract_from_law(kws, lns.skip(1), lineno + 1, cur, acc, all);
                                assert(result == extract_from(kws, lns.skip(1), lineno + 1, cur, acc));
                            },
                        }
                    },
                    None => {
                        lemma_extract_from_law(kws, lns.skip(1), lineno + 1, cur, acc, all);
                        assert(result == extract_from(kws, lns.skip(1), lineno + 1, cur, acc));
                    },
                }
            },
        }
    }
}

/// Law: re-serializing the header of every extracted annotation reproduces
/// the source line it was read from.  The line number always points at that
/// line; an unreported header is reproduced byte for byte; a reported one
/// likewise unless its marker was written with a leading zero, which
/// re-serializing normalizes away.
pub proof fn lemma_extract_headers(kws: Seq<Seq<char>>, text: Seq<char>)
    requires
        text.len() < u32::MAX,
    ensures
        forall|i: int|
            0 <= i < extract_text(kws, text).len() ==> header_law(
                #[trigger] extract_text(kws, text)[i],
                split_lines(text),
            ),
{
    crate::todo_parser::lemma_line_count(text);
    assert(split_lines(text).skip(0) =~= split_lines(text));
    lemma_extract_from_law(
        kws,
        split_lines(text),
        1,
        None,
        Seq::<TodoView>::empty(),
        split_lines(text),
    );
}

/// Every character of a decimal writing is a digit.
proof fn lemma_dec_str_is_digits(n: nat)
    ensures
        forall|m: int| 0 <= m < dec_str(n).len() ==> is_digit(#[trigger] dec_str(n)[m]),
    decreases n,
{
    if n < 10 {
        assert(is_digit(dec_digit(n))) by {
            if n == 0 {
                assert(('0') as u32 == 48);
            } else if n == 1 {
                assert(('1') as u32 == 49);
            } else if n == 2 {
                assert(('2') as u32 == 50);
            } else if n == 3 {
                assert(('3') as u32 == 51);
            } else if n == 4 {
                assert(('4') as u32 == 52);
            } else if n == 5 {
                assert(('5') as u32 == 53);
            } else if n == 6 {
                assert(('6') as u32 == 54);
            } else if n == 7 {
                assert(('7') as u32 == 55);
            } else if n == 8 {
                assert(('8') as u32 == 56);
            } else {
                assert(('9') as u32 == 57);
            }
        }
    } else {
        lemma_dec_str_is_digits(n / 10);
        lemma_dec_str_is_digits(n % 10);
        assert(dec_str(n) == dec_str(n / 10).push(dec_digit(n % 10)));
        assert(is_digit(dec_digit(n % 10))) by {
            assert(dec_str(n % 10)[0] == dec_digit(n % 10));
        }
    }
}

/// The value of a digit character made from a value is that value.
proof fn lemma_digit_val_of_dec_digit(d: nat)
    requires
        d < 10,
    ensures
        digit_val(dec_digit(d)) == d,
{
    assert(('0') as u32 == 48 && ('1') as u32 == 49 && ('2') as u32 == 50 && ('3') as u32 == 51 && (
    '4') as u32 == 52 && ('5') as u32 == 53 && ('6') as u32 == 54 && ('7') as u32 == 55 && (
    '8') as u32 == 56 && ('9') as u32 == 57);
}

/// The digits of a decimal writing evaluate back to the written value.
proof fn lemma_digits_val_of_dec_str(line: Seq<char>, j: int, n: nat)
    requires
        0 <= j,
        j + dec_str(n).len() <= line.len(),
        line.subrange(j, j + dec_str(n).len()) == dec_str(n),
    ensures
        digits_val(line, j, j + dec_str(n).len()) == n,
    decreases n,
{
    let len = dec_str(n).len();
    if n < 10 {
        assert(line[j] == dec_str(n)[0]) by {
            assert(line.subrange(j, j + 1)[0] == line[j]);
        }
        lemma_digit_val_of_dec_digit(n);
        assert(digits_val(line, j, j + 1) == digits_val(line, j, j) * 10 + digit_val(line[j]));
    } else {
        let head = dec_str(n / 10);
        assert(dec_str(n) == head.push(dec_digit(n % 10)));
        assert(line.subrange(j, j + head.len()) =~= head) by {
            assert forall|m: int| 0 <= m < head.len() implies line.subrange(
                j,
                j + head.len(),
            )[m] == head[m] by {
                assert(line.subrange(j, j + len)[m] == line[j + m]);
                assert(dec_str(n)[m] == head[m]);
            }
        }
        lemma_digits_val_of_dec_str(line, j, n / 10);
        assert(line[j + len - 1] == dec_str(n)[len - 1]) by {
            assert(line.subrange(j, j + len)[len - 1] == line[j + len - 1]);
        }
        lemma_digit_val_of_dec_digit(n % 10);
        assert(digits_val(line, j, j + len) == digits_val(line, j, j + len - 1) * 10 + digit_val(
            line[j + len - 1],
        ));
        assert(digits_val(line, j, j + len) == (n / 10) * 10 + (n % 10));
        assert((n / 10) * 10 + (n % 10) == n) by (nonlinear_arith);
    }
}

/// Where a run of digits followed by something else ends.
proof fn lemma_digits_end_run(line: Seq<char>, j: int, e: int)
    requires
        0 <= j <= e <= line.len(),
        forall|m: int| j <= m < e ==> is_digit(#[trigger] line[m]),
        e == line.len() || !is_digit(line[e]),
    ensures
        digits_end(line, j) == e,
    decreases e - j,
{
    if j < e {
        lemma_digits_end_run(line, j + 1, e);
    }
}

/// Digit runs over the same characters have the same value.
proof fn lemma_digits_val_agree(a: Seq<char>, b: Seq<char>, j: int, e: int)
    requires
        0 <= j,
        e <= a.len(),
        e <= b.len(),
        forall|m: int| j <= m < e ==> a[m] == b[m],
    ensures
        digits_val(a, j, e) == digits_val(b, j, e),
    decreases e - j,
{
    if e > j {
        lemma_digits_val_agree(a, b, j, e - 1);
    }
}

/// The text `b` reads, from position `j + d` on, exactly as `a` reads from
/// position `j` on.
pub open spec fn suffix_shifted(a: Seq<char>, b: Seq<char>, j: int, d: int) -> bool {
    &&& 0 <= j <= a.len()
    &&& 0 <= j + d <= b.len()
    &&& b.len() - (j + d) == a.len() - j
    &&& forall|m: int| j <= m < a.len() ==> a[m] == #[trigger] b[m + d]
}

/// A digit scan in shifted text ends at the shifted position.
proof fn lemma_digits_end_shifted(a: Seq<char>, b: Seq<char>, j: int, d: int)
    requires
        suffix_shifted(a, b, j, d),
    ensures
        digits_end(b, j + d) == digits_end(a, j) + d,
    decreases a.len() - j,
{
    if j < a.len() && is_digit(a[j]) {
        assert(suffix_shifted(a, b, j + 1, d));
        lemma_digits_end_shifted(a, b, j + 1, d);
    }
}

/// A digit run in shifted text has the shifted value.
proof fn lemma_digits_val_shifted(a: Seq<char>, b: Seq<char>, j: int, e: int, d: int)
    requires
        suffix_shifted(a, b, j, d),
        j <= e <= a.len(),
    ensures
        digits_val(b, j + d, e + d) == digits_val(a, j, e),
    decreases e - j,
{
    if e > j {
        lemma_digits_val_shifted(a, b, j, e - 1, d);
        assert(a[e - 1] == b[e - 1 + d]);
    }
}

/// A pattern in shifted text stands at the shifted position.
proof fn lemma_starts_with_shifted(a: Seq<char>, b: Seq<char>, j: int, d: int, pat: Seq<char>, pos: int)
    requires
        suffix_shifted(a, b, j, d),
        pos >= j,
    ensures
        starts_with_at(b, pat, pos + d) == starts_with_at(a, pat, pos),
{
    if starts_with_at(a, pat, pos) {
        assert(b.subrange(pos + d, pos + d + pat.len()) =~= pat) by {
            assert forall|m: int| 0 <= m < pat.len() implies b.subrange(
                pos + d,
                pos + d + pat.len(),
            )[m] == pat[m] by {
                assert(a.subrange(pos, pos + pat.len())[m] == a[pos + m]);
                assert(a[pos + m] == b[pos + m + d]);
            }
        }
    }
    if starts_with_at(b, pat, pos + d) {
        assert(a.subrange(pos, pos + pat.len()) =~= pat) by {
            assert forall|m: int| 0 <= m < pat.len() implies a.subrange(
                pos,
                pos + pat.len(),
            )[m] == pat[m] by {
                assert(b.subrange(pos + d, pos + d + pat.len())[m] == b[pos + d + m]);
                assert(a[pos + m] == b[pos + m + d]);
            }
        }
    }
}

/// A marker in shifted text is the marker at the shifted position.
proof fn lemma_marker_shifted(a: Seq<char>, b: Seq<char>, j: int, d: int)
    requires
        suffix_shifted(a, b, j, d),
        0 <= j,
    ensures
        parse_marker(b, j + d) == (match parse_marker(a, j) {
            Some((id, p)) => Some((id, p + d)),
            None => None::<(u32, int)>,
        }),
{
    if j + 2 <= a.len() {
        assert(a[j] == b[j + d]);
        assert(a[j + 1] == b[j + 1 + d]);
    }
    if j + 2 <= a.len() && a[j] == '(' && a[j + 1] == '#' {
        assert(suffix_shifted(a, b, j + 2, d));
        lemma_digits_end_shifted(a, b, j + 2, d);
        let e = digits_end(a, j + 2);
        lemma_digits_end_digits(a, j + 2);
        assert(digits_end(b, j + d + 2) == e + d);
        if e < a.len() {
            assert(a[e] == b[e + d]);
        }
        if e > j + 2 && e < a.len() && a[e] == ')' {
            lemma_digits_val_shifted(a, b, j + 2, e, d);
            assert(digits_val(b, j + d + 2, e + d) == digits_val(a, j + 2, e));
        }
    }
}

/// A header tail in shifted text succeeds exactly when the tail at the
/// shifted position does.
proof fn lemma_tail_shifted(a: Seq<char>, b: Seq<char>, j: int, d: int)
    requires
        suffix_shifted(a, b, j, d),
        0 <= j,
    ensures
        (parse_tail(b, j + d) is Some) == (parse_tail(a, j) is Some),
{
    lemma_marker_shifted(a, b, j, d);
    match parse_marker(a, j) {
        Some((id, p)) => {
            lemma_marker_exact(a, j);
            lemma_starts_with_shifted(a, b, j, d, colon_space(), p);
        },
        None => {
            lemma_starts_with_shifted(a, b, j, d, colon_space(), j);
        },
    }
}

/// A keyword attempt: the keyword stands at the position and a header tail
/// follows it.
pub open spec fn attempt_ok(line: Seq<char>, i: int, k: Seq<char>) -> bool {
    starts_with_at(line, k, i) && parse_tail(line, i + k.len()) is Some
}

/// A keyword attempt in shifted text succeeds exactly when the attempt at
/// the shifted position does.
proof fn lemma_attempt_shifted(a: Seq<char>, b: Seq<char>, x: int, d: int, k: Seq<char>)
    requires
        suffix_shifted(a, b, x, d),
        0 <= x,
    ensures
        attempt_ok(b, x + d, k) == attempt_ok(a, x, k),
{
    lemma_starts_with_shifted(a, b, x, d, k, x);
    if starts_with_at(a, k, x) {
        assert(suffix_shifted(a, b, x + k.len(), d));
        lemma_tail_shifted(a, b, x + k.len() as int, d);
    }
}

/// Where a greedy parse that succeeded split the line: the keyword search
/// succeeded at the prefix's end and at no later position up to `i`.
proof fn lemma_parse_from_split(kws: Seq<Seq<char>>, line: Seq<char>, i: int)
    ensures
        parse_from(kws, line, i) matches Some(h) ==> {
            &&& 0 <= h.prefix.len() <= i
            &&& parse_keyword_at(kws, line, h.prefix.len() as int, 0) == Some(h)
            &&& forall|x: int|
                h.prefix.len() < x <= i ==> parse_keyword_at(kws, line, x, 0) is None
        },
    decreases i + 1,
{
    if i >= 0 {
        match parse_keyword_at(kws, line, i, 0) {
            Some(h) => {
                lemma_parse_keyword_exact(kws, line, i, 0);
                assert(h.prefix.len() == i) by {
                    assert(h.prefix == line.take(i));
                    assert(i <= line.len()) by {
                        lemma_parse_keyword_some_bounds(kws, line, i, 0);
                    }
                }
            },
            None => {
                lemma_parse_from_split(kws, line, i - 1);
            },
        }
    }
}

/// A successful keyword search happened within the line.
proof fn lemma_parse_keyword_some_bounds(kws: Seq<Seq<char>>, line: Seq<char>, i: int, ki: int)
    ensures
        parse_keyword_at(kws, line, i, ki) is Some ==> 0 <= i <= line.len(),
    decreases kws.len() - ki,
{
    if 0 <= ki < kws.len() {
        if !(starts_with_at(line, kws[ki], i) && parse_tail(line, i + kws[ki].len()) is Some) {
            lemma_parse_keyword_some_bounds(kws, line, i, ki + 1);
        }
    }
}

/// What the keyword search at one position returns: the first keyword whose
/// attempt succeeds, every earlier one failing.
proof fn lemma_parse_keyword_split(kws: Seq<Seq<char>>, line: Seq<char>, i: int, ki: int)
    requires
        0 <= ki,
    ensures
        match parse_keyword_at(kws, line, i, ki) {
            Some(h) => exists|kk: int|
                {
                    &&& ki <= kk < kws.len()
                    &&& #[trigger] attempt_ok(line, i, kws[kk])
                    &&& h == (Header {
                        prefix: line.take(i),
                        keyword: kws[kk],
                        issue_id: (parse_tail(line, i + kws[kk].len())->0).0,
                        title: (parse_tail(line, i + kws[kk].len())->0).1,
                    })
                    &&& forall|x: int| ki <= x < kk ==> !attempt_ok(line, i, #[trigger] kws[x])
                },
            None => forall|x: int| ki <= x < kws.len() ==> !attempt_ok(line, i, #[trigger] kws[x]),
        },
    decreases kws.len() - ki,
{
    if ki >= kws.len() {
    } else if starts_with_at(line, kws[ki], i) && parse_tail(line, i + kws[ki].len()) is Some {
        assert(attempt_ok(line, i, kws[ki]));
    } else {
        lemma_parse_keyword_split(kws, line, i, ki + 1);
        match parse_keyword_at(kws, line, i, ki + 1) {
            Some(h) => {
                let kk = choose|kk: int|
                    {
                        &&& ki + 1 <= kk < kws.len()
                        &&& #[trigger] attempt_ok(line, i, kws[kk])
                        &&& h == (Header {
                            prefix: line.take(i),
                            keyword: kws[kk],
                            issue_id: (parse_tail(line, i + kws[kk].len())->0).0,
                            title: (parse_tail(line, i + kws[kk].len())->0).1,
                        })
                        &&& forall|x: int| ki + 1 <= x < kk ==> !attempt_ok(line, i, #[trigger] kws[x])
                    };
                assert(!attempt_ok(line, i, kws[ki]));
                assert(forall|x: int| ki <= x < kk ==> !attempt_ok(line, i, #[trigger] kws[x]));
            },
            None => {},
        }
    }
}

/// The keyword search skips keywords whose attempts fail.
proof fn lemma_parse_keyword_from(kws: Seq<Seq<char>>, line: Seq<char>, i: int, lo: int)
    requires
        0 <= lo <= kws.len(),
        forall|x: int| 0 <= x < lo ==> !attempt_ok(line, i, #[trigger] kws[x]),
    ensures
        parse_keyword_at(kws, line, i, 0) == parse_keyword_at(kws, line, i, lo),
    decreases lo,
{
    if lo > 0 {
        assert(!attempt_ok(line, i, kws[lo - 1]));
        assert(parse_keyword_at(kws, line, i, lo - 1) == parse_keyword_at(kws, line, i, lo));
        lemma_parse_keyword_from(kws, line, i, lo - 1);
    }
}

/// The greedy parse lands on the one position where the keyword search
/// succeeds when it fails everywhere above it.
proof fn lemma_parse_from_down(kws: Seq<Seq<char>>, line: Seq<char>, hi: int, lo: int, h: Header)
    requires
        0 <= lo <= hi,
        parse_keyword_at(kws, line, lo, 0) == Some(h),
        forall|x: int| lo < x <= hi ==> parse_keyword_at(kws, line, x, 0) is None,
    ensures
        parse_from(kws, line, hi) == Some(h),
    decreases hi - lo,
{
    if hi > lo {
        lemma_parse_from_down(kws, line, hi - 1, lo, h);
    }
}

/// A keyword fit for round-tripping through a stamped header: non-empty and
/// free of parentheses, the hash sign and digits, so that no keyword can
/// overlap an issue marker.
pub open spec fn plain_keyword(k: Seq<char>) -> bool {
    &&& k.len() > 0
    &&& forall|m: int|
        0 <= m < k.len() ==> !((#[trigger] k[m]) == '(' || k[m] == ')' || k[m] == '#' || is_digit(
            k[m],
        ))
}

/// A header tail read strictly before an insertion point that is followed by
/// an opening parenthesis succeeds in the original text too: a marker cannot
/// reach across the insertion point, so everything the tail read is shared.
proof fn lemma_tail_into_insert(lt: Seq<char>, rt: Seq<char>, insert: int, j: int)
    requires
        0 <= j < insert,
        insert + 2 < lt.len(),
        insert <= rt.len(),
        forall|x: int| 0 <= x < insert ==> lt[x] == #[trigger] rt[x],
        insert < rt.len() && rt[insert] == '(',
        parse_tail(rt, j) is Some,
    ensures
        parse_tail(lt, j) is Some,
{
    match parse_marker(rt, j) {
        Some((idv, a)) => {
            lemma_marker_exact(rt, j);
            let e = a - 1;
            // the marker lies before the insertion point
            assert(e < insert) by {
                if e == insert {
                    assert(rt[e] == '(');
                }
                if e > insert {
                    assert(is_digit(rt[insert])) by {
                        if insert == j + 1 {
                            assert(rt[j + 1] == '#');
                        }
                    }
                    assert(('(') as u32 == 40);
                }
            }
            assert(parse_marker(lt, j) == Some((idv, a))) by {
                assert(lt[j] == '(' && lt[j + 1] == '#');
                assert forall|m: int| j + 2 <= m < e implies is_digit(#[trigger] lt[m]) by {
                    assert(lt[m] == rt[m]);
                }
                lemma_digits_end_run(lt, j + 2, e);
                lemma_digits_val_agree(lt, rt, j + 2, e);
                assert(lt[e] == ')');
                assert(!is_digit(')')) by {
                    assert((')') as u32 == 41);
                }
            }
            // the colon and space lie before the insertion point too
            assert(starts_with_at(rt, colon_space(), a));
            assert(rt[a] == ':' && rt[a + 1] == ' ') by {
                assert(rt.subrange(a, a + 2)[0] == rt[a]);
                assert(rt.subrange(a, a + 2)[1] == rt[a + 1]);
            }
            assert(a + 2 <= insert) by {
                if a == insert {
                    assert(rt[a] == '(');
                }
                if a + 1 == insert {
                    assert(rt[a + 1] == '(');
                }
            }
            assert(starts_with_at(lt, colon_space(), a)) by {
                assert(lt.subrange(a, a + 2) =~= colon_space());
            }
            assert(a + 2 < lt.len());
        },
        None => {
            assert(starts_with_at(rt, colon_space(), j));
            assert(rt[j] == ':' && rt[j + 1] == ' ') by {
                assert(rt.subrange(j, j + 2)[0] == rt[j]);
                assert(rt.subrange(j, j + 2)[1] == rt[j + 1]);
            }
            assert(j + 2 <= insert) by {
                if j + 1 == insert {
                    assert(rt[j + 1] == '(');
                }
            }
            assert(parse_marker(lt, j) is None) by {
                assert(lt[j] == ':');
                assert((':') as u32 == 58 && ('(') as u32 == 40);
            }
            assert(starts_with_at(lt, colon_space(), j)) by {
                assert(lt.subrange(j, j + 2) =~= colon_space());
            }
            assert(j + 2 < lt.len());
        },
    }
}

/// Law: stamping a header keeps its reading.  Take any line that parses as
/// an unreported annotation, and write it back with an issue marker: the
/// stamped line parses again, to the same prefix, keyword and title, now
/// carrying the assigned id.  The keywords must be plain (non-empty, with no
/// parenthesis, hash sign or digit in them), else a keyword could overlap
/// the inserted marker and shift the greedy split; keywords such as `TODO`
/// or `FIXME` are plain.
pub proof fn lemma_reported_header_reparses(kws: Seq<Seq<char>>, line: Seq<char>, id: u32)
    requires
        forall|k: int| 0 <= k < kws.len() ==> plain_keyword(#[trigger] kws[k]),
        parse_header(kws, line) is Some,
        (parse_header(kws, line)->0).issue_id is None,
    ensures
        ({
            let h = parse_header(kws, line)->0;
            let stamped = Header {
                prefix: h.prefix,
                keyword: h.keyword,
                issue_id: Some(id),
                title: h.title,
            };
            parse_header(kws, reported_header(todo_at(stamped, 0))) == Some(stamped)
        }),
{
    let h = parse_header(kws, line)->0;
    let stamped = Header { prefix: h.prefix, keyword: h.keyword, issue_id: Some(id), title: h.title };
    let rline = reported_header(todo_at(stamped, 0));

    lemma_parse_from_split(kws, line, line.len() as int);
    let istar = h.prefix.len() as int;
    assert(parse_keyword_at(kws, line, istar, 0) == Some(h));
    lemma_parse_header_exact(kws, line, line.len() as int);
    assert(line == h.prefix + h.keyword + colon_space() + h.title);

    let kw = h.keyword;
    let klen = kw.len() as int;
    let insert = istar + klen;
    let tlen = h.title.len() as int;
    assert(line.len() == insert + 2 + tlen);

    lemma_parse_keyword_split(kws, line, istar, 0);
    let kkstar = choose|kk: int|
        {
            &&& 0 <= kk < kws.len()
            &&& #[trigger] attempt_ok(line, istar, kws[kk])
            &&& h == (Header {
                prefix: line.take(istar),
                keyword: kws[kk],
                issue_id: (parse_tail(line, istar + kws[kk].len())->0).0,
                title: (parse_tail(line, istar + kws[kk].len())->0).1,
            })
            &&& forall|x: int| 0 <= x < kk ==> !attempt_ok(line, istar, #[trigger] kws[x])
        };
    assert(kws[kkstar] == kw);
    assert(parse_tail(line, insert) is Some);
    assert(insert + 2 < line.len());
    assert(tlen >= 1);

    let ds = dec_str(id as nat);
    let dlen = ds.len() as int;
    crate::mutate::lemma_dec_str_len(id as nat);
    lemma_dec_str_is_digits(id as nat);
    let mk = marker_text(id);
    let mlen = mk.len() as int;
    assert(mlen == dlen + 3);
    assert(rline == h.prefix + kw + mk + colon_space() + h.title);
    assert(rline.len() == insert + mlen + 2 + tlen);

    // the two lines agree up to the insertion point
    assert forall|x: int| 0 <= x < insert implies line[x] == #[trigger] rline[x] by {
        if x < istar {
            assert(line[x] == h.prefix[x]);
            assert(rline[x] == h.prefix[x]);
        } else {
            assert(line[x] == kw[x - istar]);
            assert(rline[x] == kw[x - istar]);
        }
    }
    // the marker stands at the insertion point
    assert(rline[insert] == '(' && rline[insert + 1] == '#') by {
        assert(rline[insert] == mk[0]);
        assert(rline[insert + 1] == mk[1]);
        assert(mk[0] == '(' && mk[1] == '#');
    }
    assert forall|m: int| 0 <= m < dlen implies #[trigger] rline[insert + 2 + m] == ds[m] by {
        assert(rline[insert + 2 + m] == mk[2 + m]);
        assert(mk[2 + m] == ds[m]);
    }
    assert(rline[insert + 2 + dlen] == ')') by {
        assert(rline[insert + 2 + dlen] == mk[2 + dlen]);
        assert(mk[2 + dlen] == ')');
    }
    // after the marker the lines agree again, shifted by its length
    assert(suffix_shifted(line, rline, insert, mlen)) by {
        assert forall|m: int| insert <= m < line.len() implies line[m] == #[trigger] rline[m
            + mlen] by {
            if m < insert + 2 {
                assert(line[m] == colon_space()[m - insert]);
                assert(rline[m + mlen] == colon_space()[m - insert]);
            } else {
                assert(line[m] == h.title[m - insert - 2]);
                assert(rline[m + mlen] == h.title[m - insert - 2]);
            }
        }
    }
    assert(line[insert] == ':' && line[insert + 1] == ' ') by {
        assert(line[insert] == colon_space()[0]);
        assert(line[insert + 1] == colon_space()[1]);
    }
    assert(rline[insert + mlen] == ':' && rline[insert + mlen + 1] == ' ');

    // the attempt with the parsed keyword succeeds on the stamped line
    assert(starts_with_at(rline, kw, istar)) by {
        assert(rline.subrange(istar, istar + klen) =~= kw) by {
            assert forall|m: int| 0 <= m < klen implies rline.subrange(istar, istar + klen)[m]
                == kw[m] by {
                assert(rline[istar + m] == line[istar + m]);
                assert(line[istar + m] == kw[m]);
            }
        }
    }
    assert(parse_marker(rline, insert) == Some((id, insert + mlen))) by {
        assert(rline.subrange(insert + 2, insert + 2 + dlen) =~= ds);
        lemma_digits_val_of_dec_str(rline, insert + 2, id as nat);
        lemma_digits_end_run(rline, insert + 2, insert + 2 + dlen);
        assert(!is_digit(')')) by {
            assert((')') as u32 == 41);
        }
        assert(id as nat <= u32::MAX as nat);
    }
    assert(parse_tail(rline, insert) == Some((Some(id), h.title))) by {
        assert(starts_with_at(rline, colon_space(), insert + mlen)) by {
            assert(rline.subrange(insert + mlen, insert + mlen + 2) =~= colon_space());
        }
        assert(insert + mlen + 2 < rline.len());
        assert(rline.skip(insert + mlen + 2) =~= h.title);
    }
    assert(attempt_ok(rline, istar, kw));

    // no keyword listed before it can succeed there
    assert forall|x: int| 0 <= x < kkstar implies !attempt_ok(rline, istar, #[trigger] kws[x]) by {
        if attempt_ok(rline, istar, kws[x]) {
            let kx = kws[x];
            let kxlen = kx.len() as int;
            assert(plain_keyword(kx));
            if istar + kxlen > insert {
                assert(kx[insert - istar] == rline[insert]) by {
                    assert(rline.subrange(istar, istar + kxlen)[insert - istar] == rline[insert]);
                }
                assert(false);
            } else {
                assert(starts_with_at(line, kx, istar)) by {
                    assert(line.subrange(istar, istar + kxlen) =~= kx) by {
                        assert forall|m: int| 0 <= m < kxlen implies line.subrange(
                            istar,
                            istar + kxlen,
                        )[m] == kx[m] by {
                            assert(rline.subrange(istar, istar + kxlen)[m] == rline[istar + m]);
                            assert(line[istar + m] == rline[istar + m]);
                        }
                    }
                }
                if istar + kxlen == insert {
                    assert(parse_tail(line, istar + kxlen) is Some);
                } else {
                    lemma_tail_into_insert(line, rline, insert, istar + kxlen);
                }
                assert(attempt_ok(line, istar, kx));
                assert(false);
            }
        }
    }
    lemma_parse_keyword_from(kws, rline, istar, kkstar);
    assert(parse_keyword_at(kws, rline, istar, kkstar) == Some(stamped)) by {
        assert(rline.take(istar) =~= h.prefix);
    }
    assert(parse_keyword_at(kws, rline, istar, 0) == Some(stamped));

    // and the keyword search fails everywhere to the right of the split
    assert forall|x: int| istar < x <= rline.len() implies parse_keyword_at(
        kws,
        rline,
        x,
        0,
    ) is None by {
        lemma_parse_keyword_split(kws, rline, x, 0);
        if parse_keyword_at(kws, rline, x, 0) is Some {
            let hk = parse_keyword_at(kws, rline, x, 0)->0;
            let kk = choose|kk: int|
                {
                    &&& 0 <= kk < kws.len()
                    &&& #[trigger] attempt_ok(rline, x, kws[kk])
                    &&& hk == (Header {
                        prefix: rline.take(x),
                        keyword: kws[kk],
                        issue_id: (parse_tail(rline, x + kws[kk].len())->0).0,
                        title: (parse_tail(rline, x + kws[kk].len())->0).1,
                    })
                    &&& forall|y: int| 0 <= y < kk ==> !attempt_ok(rline, x, #[trigger] kws[y])
                };
            let kx = kws[kk];
            let kxlen = kx.len() as int;
            assert(plain_keyword(kx));
            assert(kxlen >= 1);
            assert(x + kxlen <= rline.len());
            if x < insert {
                if x + kxlen > insert {
                    assert(kx[insert - x] == rline[insert]) by {
                        assert(rline.subrange(x, x + kxlen)[insert - x] == rline[insert]);
                    }
                    assert(false);
                } else {
                    assert(starts_with_at(line, kx, x)) by {
                        assert(line.subrange(x, x + kxlen) =~= kx) by {
                            assert forall|m: int| 0 <= m < kxlen implies line.subrange(
                                x,
                                x + kxlen,
                            )[m] == kx[m] by {
                                assert(rline.subrange(x, x + kxlen)[m] == rline[x + m]);
                                assert(line[x + m] == rline[x + m]);
                            }
                        }
                    }
                    if x + kxlen == insert {
                        assert(parse_tail(line, x + kxlen) is Some);
                    } else {
                        lemma_tail_into_insert(line, rline, insert, x + kxlen);
                    }
                    assert(attempt_ok(line, x, kx));
                    assert(parse_keyword_at(kws, line, x, 0) is None);
                    lemma_parse_keyword_split(kws, line, x, 0);
                    assert(false);
                }
            } else if x < insert + mlen {
                assert(kx[0] == rline[x]) by {
                    assert(rline.subrange(x, x + kxlen)[0] == rline[x]);
                }
                if x == insert {
                    assert(rline[x] == '(');
                } else if x == insert + 1 {
                    assert(rline[x] == '#');
                } else if x < insert + 2 + dlen {
                    assert(rline[x] == ds[x - insert - 2]);
                    assert(is_digit(rline[x]));
                } else {
                    assert(x == insert + 2 + dlen);
                    assert(rline[x] == ')');
                }
                assert(false);
            } else {
                let xl = x - mlen;
                assert(insert <= xl <= line.len());
                assert(suffix_shifted(line, rline, xl, mlen)) by {
                    assert(forall|m: int|
                        xl <= m < line.len() ==> line[m] == #[trigger] rline[m + mlen]);
                }
                lemma_attempt_shifted(line, rline, xl, mlen, kx);
                assert(attempt_ok(line, xl, kx));
                assert(istar < xl);
                assert(parse_keyword_at(kws, line, xl, 0) is None);
                lemma_parse_keyword_split(kws, line, xl, 0);
                assert(false);
            }
        }
    }
    lemma_parse_from_down(kws, rline, rline.len() as int, istar, stamped);
}

/// The greedy parse succeeds from any bound above a succeeding position.
proof fn lemma_parse_from_some_above(kws: Seq<Seq<char>>, line: Seq<char>, hi: int, x: int)
    requires
        0 <= x <= hi,
        parse_keyword_at(kws, line, x, 0) is Some,
    ensures
        parse_from(kws, line, hi) is Some,
    decreases hi - x,
{
    if hi > x {
        match parse_keyword_at(kws, line, hi, 0) {
            Some(_) => {},
            None => {
                lemma_parse_from_some_above(kws, line, hi - 1, x);
            },
        }
    }
}

/// Law: only header lines can be rewritten by a mark pass.  Wherever the
/// unreported header text of an annotation stands inside a line — at any
/// position, even mid-line — that line itself parses as a header: the
/// keyword found there, followed by its colon, space and a non-empty rest of
/// line, is a valid reading, so the greedy parse succeeds.  A line that is
/// no header therefore contains no unreported header text at all.
pub proof fn lemma_unreported_occurrence_is_header(
    kws: Seq<Seq<char>>,
    line: Seq<char>,
    t: TodoView,
    p: int,
)
    requires
        kws.contains(t.keyword),
        t.title.len() >= 1,
        starts_with_at(line, unreported_header(t), p),
    ensures
        parse_header(kws, line) is Some,
{
    let u = unreported_header(t);
    let i = p + t.prefix.len() as int;
    let j = i + t.keyword.len() as int;
    assert forall|m: int| 0 <= m < u.len() implies #[trigger] line[p + m] == u[m] by {
        assert(line.subrange(p, p + u.len())[m] == line[p + m]);
    }
    assert(starts_with_at(line, t.keyword, i)) by {
        assert(line.subrange(i, j) =~= t.keyword) by {
            assert forall|m: int| 0 <= m < t.keyword.len() implies line.subrange(i, j)[m]
                == t.keyword[m] by {
                assert(line[i + m] == u[t.prefix.len() + m]);
                assert(u[t.prefix.len() + m] == t.keyword[m]);
            }
        }
    }
    assert(line[j] == ':' && line[j + 1] == ' ') by {
        assert(line[j] == u[j - p]);
        assert(u[j - p] == colon_space()[0]);
        assert(line[j + 1] == u[j + 1 - p]);
        assert(u[j + 1 - p] == colon_space()[1]);
    }
    assert(parse_tail(line, j) is Some) by {
        assert(parse_marker(line, j) is None) by {
            assert((':') as u32 == 58 && ('(') as u32 == 40);
        }
        assert(starts_with_at(line, colon_space(), j)) by {
            assert(line.subrange(j, j + 2) =~= colon_space());
        }
        assert(j + 2 < line.len()) by {
            assert(p + u.len() <= line.len());
            assert(u.len() == t.prefix.len() + t.keyword.len() + 2 + t.title.len());
        }
    }
    let kk = choose|kk: int| 0 <= kk < kws.len() && kws[kk] == t.keyword;
    assert(attempt_ok(line, i, kws[kk]));
    lemma_parse_keyword_split(kws, line, i, 0);
    assert(parse_keyword_at(kws, line, i, 0) is Some);
    lemma_parse_from_some_above(kws, line, line.len() as int, i);
}

/// Free of line breaks: no line feed and no carriage return.
pub open spec fn newline_free(s: Seq<char>) -> bool {
    forall|m: int| 0 <= m < s.len() ==> (#[trigger] s[m]) != '\n' && s[m] != '\r'
}

/// Search texts and replacements that are single non-empty lines.
pub open spec fn single_line_pats(pats: Seq<(Seq<char>, Seq<char>)>) -> bool {
    forall|j: int|
        0 <= j < pats.len() ==> {
            &&& (#[trigger] pats[j]).0.len() > 0
            &&& pats[j].1.len() > 0
            &&& newline_free(pats[j].0)
            &&& newline_free(pats[j].1)
        }
}

/// In every given line, a search text stands only as the whole line.
pub open spec fn full_line_matches_only(
    pats: Seq<(Seq<char>, Seq<char>)>,
    lns: Seq<Seq<char>>,
) -> bool {
    forall|i: int, j: int, p: int|
        0 <= i < lns.len() && 0 <= j < pats.len() && #[trigger] starts_with_at(
            lns[i],
            pats[j].0,
            p,
        ) ==> p == 0 && pats[j].0.len() == lns[i].len()
}

/// The line as it reads after a mark pass: the first replacement whose
/// search text is the whole line, or the line itself.
pub open spec fn line_stamp(pats: Seq<(Seq<char>, Seq<char>)>, l: Seq<char>, j: int) -> Seq<char>
    decreases pats.len() - j,
{
    if j < 0 || j >= pats.len() {
        l
    } else if pats[j].0 == l {
        pats[j].1
    } else {
        line_stamp(pats, l, j + 1)
    }
}

/// The stamp of a line whose first whole-line pair is known.
proof fn lemma_line_stamp_at(pats: Seq<(Seq<char>, Seq<char>)>, l: Seq<char>, j: int)
    requires
        0 <= j < pats.len(),
        pats[j].0 == l,
        forall|x: int| 0 <= x < j ==> (#[trigger] pats[x]).0 != l,
    ensures
        line_stamp(pats, l, 0) == pats[j].1,
{
    lemma_line_stamp_from(pats, l, 0, j);
}

/// The whole-line search skips pairs whose search text is another line.
proof fn lemma_line_stamp_from(pats: Seq<(Seq<char>, Seq<char>)>, l: Seq<char>, lo: int, j: int)
    requires
        0 <= lo <= j < pats.len(),
        pats[j].0 == l,
        forall|x: int| lo <= x < j ==> (#[trigger] pats[x]).0 != l,
    ensures
        line_stamp(pats, l, lo) == pats[j].1,
    decreases j - lo,
{
    if lo < j {
        lemma_line_stamp_from(pats, l, lo + 1, j);
    }
}

/// A line that no search text equals is kept.
proof fn lemma_line_stamp_none(pats: Seq<(Seq<char>, Seq<char>)>, l: Seq<char>, j: int)
    requires
        0 <= j,
        forall|x: int| j <= x < pats.len() ==> (#[trigger] pats[x]).0 != l,
    ensures
        line_stamp(pats, l, j) == l,
    decreases pats.len() - j,
{
    if j < pats.len() {
        lemma_line_stamp_none(pats, l, j + 1);
    }
}

/// A non-empty text without a line feed is one line.
proof fn lemma_split_single(s: Seq<char>)
    requires
        s.len() > 0,
        forall|m: int| 0 <= m < s.len() ==> (#[trigger] s[m]) != '\n',
    ensures
        split_lines(s) == seq![s],
{
    crate::lines::lemma_find_char(s, '\n');
    if crate::lines::find_char(s, '\n') >= 0 {
        assert(s[crate::lines::find_char(s, '\n')] == '\n');
    }
}

/// Splitting off the first line: a line-feed-free piece before a line feed
/// is the first line, shorn of a carriage return before the break.
proof fn lemma_split_lead(u: Seq<char>, z: Seq<char>)
    requires
        forall|m: int| 0 <= m < u.len() ==> (#[trigger] u[m]) != '\n',
    ensures
        split_lines(u + seq!['\n'] + z) == seq![crate::lines::strip_one_cr(u)] + split_lines(z),
{
    let w = u + seq!['\n'] + z;
    assert(w.len() > 0);
    crate::lines::lemma_find_char(w, '\n');
    let fi = crate::lines::find_char(w, '\n');
    assert(w[u.len() as int] == '\n');
    assert(fi >= 0);
    assert(fi == u.len()) by {
        if fi < u.len() {
            assert(w[fi] == u[fi]);
        }
        if fi > u.len() {
            assert(w[u.len() as int] != '\n');
        }
    }
    assert(w.take(fi) =~= u);
    assert(w.skip(fi + 1) =~= z);
}

/// A scan that finds nothing to replace over its first `k` characters
/// copies them.
proof fn lemma_mark_copies(text: Seq<char>, pats: Seq<(Seq<char>, Seq<char>)>, k: int)
    requires
        0 <= k <= text.len(),
        forall|x: int| 0 <= x < k ==> match_here(pats, #[trigger] text.skip(x), 0) is None,
    ensures
        mark_text(text, pats) == text.take(k) + mark_text(text.skip(k), pats),
    decreases k,
{
    if k == 0 {
        assert(text.skip(0) =~= text);
        assert(text.take(0) + mark_text(text, pats) =~= mark_text(text, pats));
    } else {
        assert(text.skip(0) =~= text);
        assert(match_here(pats, text, 0) is None);
        assert(mark_text(text, pats) == seq![text[0]] + mark_text(text.skip(1), pats));
        assert forall|x: int| 0 <= x < k - 1 implies match_here(
            pats,
            #[trigger] text.skip(1).skip(x),
            0,
        ) is None by {
            assert(text.skip(1).skip(x) =~= text.skip(1 + x));
            assert(match_here(pats, text.skip(1 + x), 0) is None);
        }
        lemma_mark_copies(text.skip(1), pats, k - 1);
        assert(text.skip(1).take(k - 1) =~= text.subrange(1, k));
        assert(text.skip(1).skip(k - 1) =~= text.skip(k));
        assert(seq![text[0]] + (text.subrange(1, k) + mark_text(text.skip(k), pats)) =~= text.take(
            k,
        ) + mark_text(text.skip(k), pats));
    }
}

/// Law: a mark pass rewrites a text line by line.  When every search text
/// is a single non-empty line and stands in the text's lines only as whole
/// lines, the marked text has exactly the lines of the input, each line that
/// equals a search text replaced by its pair's replacement and every other
/// line kept as it was.  With the pairs of an annotation set, the search
/// texts are unreported headers: the pass stamps whole header lines and
/// rewrites nothing else.
pub proof fn lemma_mark_linewise(text: Seq<char>, pats: Seq<(Seq<char>, Seq<char>)>)
    requires
        single_line_pats(pats),
        full_line_matches_only(pats, split_lines(text)),
    ensures
        split_lines(mark_text(text, pats)) == Seq::new(
            split_lines(text).len(),
            |i: int| line_stamp(pats, split_lines(text)[i], 0),
        ),
    decreases text.len(),
{
    let lns = split_lines(text);
    let stamped = Seq::new(lns.len(), |i: int| line_stamp(pats, lns[i], 0));
    if text.len() == 0 {
        assert(mark_text(text, pats) == Seq::<char>::empty());
        assert(split_lines(mark_text(text, pats)) =~~= stamped);
    } else {
        crate::lines::lemma_find_char(text, '\n');
        let fi = crate::lines::find_char(text, '\n');
        if fi < 0 {
            assert(lns == seq![text]);
            assert(lns[0] == text);
            // a match anywhere would be the whole text
            assert forall|x: int, j: int|
                0 <= j < pats.len() && 0 <= x && #[trigger] starts_with_at(
                    text,
                    pats[j].0,
                    x,
                ) implies x == 0 && pats[j].0.len() == text.len() by {
                assert(starts_with_at(lns[0], pats[j].0, x));
            }
            match match_here(pats, text, 0) {
                Some(j) => {
                    lemma_match_here(pats, text, 0);
                    let u = pats[j].0;
                    assert(starts_with_at(text, u, 0));
                    assert(u.len() == text.len());
                    assert(u =~= text) by {
                        assert(text.subrange(0, u.len() as int) =~= text);
                    }
                    assert(text.skip(u.len() as int) =~= Seq::<char>::empty());
                    assert(mark_text(Seq::<char>::empty(), pats) == Seq::<char>::empty());
                    assert(mark_text(text, pats) =~= pats[j].1);
                    lemma_split_single(pats[j].1);
                    assert forall|x: int| 0 <= x < j implies (#[trigger] pats[x]).0 != text by {
                        if pats[x].0 == text {
                            assert(text.subrange(0, pats[x].0.len() as int) =~= pats[x].0);
                            assert(starts_with_at(text, pats[x].0, 0));
                        }
                    }
                    lemma_line_stamp_at(pats, text, j);
                    assert(split_lines(mark_text(text, pats)) =~~= stamped);
                },
                None => {
                    lemma_match_here(pats, text, 0);
                    assert forall|x: int| 0 <= x < text.len() implies match_here(
                        pats,
                        #[trigger] text.skip(x),
                        0,
                    ) is None by {
                        lemma_match_here(pats, text.skip(x), 0);
                        if match_here(pats, text.skip(x), 0) is Some {
                            let jx = match_here(pats, text.skip(x), 0)->0;
                            let ux = pats[jx].0;
                            assert(starts_with_at(text, ux, x)) by {
                                assert(text.subrange(x, x + ux.len()) =~= ux) by {
                                    assert forall|m: int| 0 <= m < ux.len() implies text.subrange(
                                        x,
                                        x + ux.len(),
                                    )[m] == ux[m] by {
                                        assert(text.skip(x).subrange(0, ux.len() as int)[m]
                                            == text.skip(x)[m]);
                                    }
                                }
                            }
                            assert(x == 0 && ux.len() == text.len());
                            assert(text.skip(0) =~= text);
                        }
                    }
                    lemma_mark_copies(text, pats, text.len() as int);
                    assert(text.skip(text.len() as int) =~= Seq::<char>::empty());
                    assert(mark_text(Seq::<char>::empty(), pats) == Seq::<char>::empty());
                    assert(mark_text(text, pats) =~= text) by {
                        assert(text.take(text.len() as int) =~= text);
                    }
                    assert forall|x: int| 0 <= x < pats.len() implies (#[trigger] pats[x]).0
                        != text by {
                        if pats[x].0 == text {
                            assert(text.subrange(0, pats[x].0.len() as int) =~= pats[x].0);
                            assert(starts_with_at(text, pats[x].0, 0));
                        }
                    }
                    lemma_line_stamp_none(pats, text, 0);
                    assert(split_lines(mark_text(text, pats)) =~~= stamped);
                },
            }
        } else {
            let raw = text.take(fi);
            let l = crate::lines::strip_one_cr(raw);
            let li = l.len() as int;
            let rest = text.skip(fi + 1);
            assert(lns == seq![l] + split_lines(rest));
            assert(lns[0] == l);
            assert(l =~= text.take(li)) by {
                if raw.len() > 0 && raw[raw.len() - 1] == '\r' {
                    assert(l =~= raw.take(fi - 1));
                }
            }
            assert(li == fi || (li == fi - 1 && text[fi - 1] == '\r')) by {
                if raw.len() > 0 && raw[raw.len() - 1] == '\r' {
                    assert(raw[fi - 1] == text[fi - 1]);
                }
            }
            // a match before the line feed is the whole first line
            assert forall|x: int, j: int|
                0 <= j < pats.len() && 0 <= x <= fi && #[trigger] starts_with_at(
                    text,
                    pats[j].0,
                    x,
                ) implies x == 0 && pats[j].0.len() == li && pats[j].0 == l by {
                let u = pats[j].0;
                assert(forall|m: int|
                    0 <= m < u.len() ==> #[trigger] u[m] == text[x + m]) by {
                    assert(forall|m: int|
                        0 <= m < u.len() ==> #[trigger] u[m] == text.subrange(
                            x,
                            x + u.len(),
                        )[m]);
                }
                assert(x + u.len() <= li) by {
                    if x + u.len() > fi {
                        assert(u[fi - x] == text[fi]);
                    }
                    if li == fi - 1 && x + u.len() > fi - 1 {
                        assert(u[fi - 1 - x] == text[fi - 1]);
                    }
                }
                assert(starts_with_at(lns[0], u, x)) by {
                    assert(l.subrange(x, x + u.len()) =~= u) by {
                        assert forall|m: int| 0 <= m < u.len() implies l.subrange(
                            x,
                            x + u.len(),
                        )[m] == u[m] by {
                            assert(l[x + m] == text.take(li)[x + m]);
                        }
                    }
                }
                assert(u == l) by {
                    assert(l.subrange(0, li) =~= l);
                }
            }
            // the lines after the first keep the hypothesis
            assert(full_line_matches_only(pats, split_lines(rest))) by {
                assert forall|i2: int, j2: int, p2: int|
                    0 <= i2 < split_lines(rest).len() && 0 <= j2 < pats.len()
                        && #[trigger] starts_with_at(
                        split_lines(rest)[i2],
                        pats[j2].0,
                        p2,
                    ) implies p2 == 0 && pats[j2].0.len() == split_lines(rest)[i2].len() by {
                    assert(split_lines(rest)[i2] == lns[i2 + 1]);
                    assert(starts_with_at(lns[i2 + 1], pats[j2].0, p2));
                }
            }
            lemma_mark_linewise(rest, pats);
            match match_here(pats, text, 0) {
                Some(j) => {
                    lemma_match_here(pats, text, 0);
                    assert(starts_with_at(text, pats[j].0, 0));
                    assert(pats[j].0 == l && li > 0);
                    assert(mark_text(text, pats) == pats[j].1 + mark_text(text.skip(li), pats));
                    let termlen = fi + 1 - li;
                    assert forall|x: int| 0 <= x < termlen implies match_here(
                        pats,
                        #[trigger] text.skip(li).skip(x),
                        0,
                    ) is None by {
                        assert(text.skip(li).skip(x) =~= text.skip(li + x));
                        lemma_match_here(pats, text.skip(li + x), 0);
                        if match_here(pats, text.skip(li + x), 0) is Some {
                            let jx = match_here(pats, text.skip(li + x), 0)->0;
                            let ux = pats[jx].0;
                            assert(ux[0] == text[li + x]) by {
                                assert(text.skip(li + x).subrange(0, ux.len() as int)[0]
                                    == text.skip(li + x)[0]);
                            }
                            assert(text[li + x] == '\r' || text[li + x] == '\n');
                        }
                    }
                    lemma_mark_copies(text.skip(li), pats, termlen);
                    assert(text.skip(li).take(termlen) =~= text.subrange(li, fi + 1));
                    assert(text.skip(li).skip(termlen) =~= rest);
                    let u2 = pats[j].1 + text.subrange(li, fi);
                    assert(mark_text(text, pats) =~= u2 + seq!['\n'] + mark_text(rest, pats));
                    assert(forall|m: int|
                        0 <= m < u2.len() ==> (#[trigger] u2[m]) != '\n') by {
                        assert(forall|m: int|
                            0 <= m < text.subrange(li, fi).len() ==> #[trigger] text.subrange(
                                li,
                                fi,
                            )[m] == text[li + m]);
                    }
                    lemma_split_lead(u2, mark_text(rest, pats));
                    assert(crate::lines::strip_one_cr(u2) =~= pats[j].1) by {
                        if li < fi {
                            assert(u2[u2.len() - 1] == text[fi - 1]);
                        } else {
                            assert(u2 =~= pats[j].1);
                            assert(pats[j].1[pats[j].1.len() - 1] != '\r');
                        }
                    }
                    assert forall|x: int| 0 <= x < j implies (#[trigger] pats[x]).0 != l by {
                        if pats[x].0 == l {
                            assert(starts_with_at(text, pats[x].0, 0)) by {
                                assert(text.subrange(0, li) =~= l);
                            }
                        }
                    }
                    lemma_line_stamp_at(pats, l, j);
                    assert(split_lines(mark_text(text, pats)) =~~= stamped) by {
                        assert forall|i2: int| 0 <= i2 < stamped.len() implies split_lines(
                            mark_text(text, pats),
                        )[i2] == stamped[i2] by {
                            if i2 > 0 {
                                assert(lns[i2] == split_lines(rest)[i2 - 1]);
                            }
                        }
                    }
                },
                None => {
                    lemma_match_here(pats, text, 0);
                    assert forall|x: int| 0 <= x < fi + 1 implies match_here(
                        pats,
                        #[trigger] text.skip(x),
                        0,
                    ) is None by {
                        lemma_match_here(pats, text.skip(x), 0);
                        if match_here(pats, text.skip(x), 0) is Some {
                            let jx = match_here(pats, text.skip(x), 0)->0;
                            let ux = pats[jx].0;
                            assert(starts_with_at(text, ux, x)) by {
                                assert(text.subrange(x, x + ux.len()) =~= ux) by {
                                    assert forall|m: int| 0 <= m < ux.len() implies text.subrange(
                                        x,
                                        x + ux.len(),
                                    )[m] == ux[m] by {
                                        assert(text.skip(x).subrange(0, ux.len() as int)[m]
                                            == text.skip(x)[m]);
                                    }
                                }
                            }
                            if x <= fi {
                                assert(x == 0 && ux.len() > 0 && ux == l);
                                assert(starts_with_at(text, ux, 0));
                                assert(text.skip(0) =~= text);
                            }
                        }
                    }
                    lemma_mark_copies(text, pats, fi + 1);
                    assert(text.take(fi + 1) =~= raw + seq!['\n']);
                    assert(mark_text(text, pats) =~= raw + seq!['\n'] + mark_text(rest, pats));
                    lemma_split_lead(raw, mark_text(rest, pats));
                    assert forall|x: int| 0 <= x < pats.len() implies (#[trigger] pats[x]).0
                        != l by {
                        if pats[x].0 == l {
                            assert(starts_with_at(text, pats[x].0, 0)) by {
                                assert(text.subrange(0, li) =~= l);
                            }
                            assert(text.skip(0) =~= text);
                        }
                    }
                    lemma_line_stamp_none(pats, l, 0);
                    assert(split_lines(mark_text(text, pats)) =~~= stamped) by {
                        assert forall|i2: int| 0 <= i2 < stamped.len() implies split_lines(
                            mark_text(text, pats),
                        )[i2] == stamped[i2] by {
                            if i2 > 0 {
                                assert(lns[i2] == split_lines(rest)[i2 - 1]);
                            }
                        }
                    }
                },
            }
        }
    }
}

/// What stamping a line does: either some first pair's search text equals
/// the line and its replacement is taken, or no pair's does and the line is
/// kept.
#[verifier::rlimit(50)]
proof fn lemma_line_stamp_char(pats: Seq<(Seq<char>, Seq<char>)>, l: Seq<char>, j: int)
    requires
        0 <= j,
    ensures
        (exists|m: int|
            {
                &&& j <= m < pats.len()
                &&& (#[trigger] pats[m]).0 == l
                &&& (forall|x: int| j <= x < m ==> (#[trigger] pats[x]).0 != l)
                &&& line_stamp(pats, l, j) == pats[m].1
            }) || ((forall|x: int| j <= x < pats.len() ==> (#[trigger] pats[x]).0 != l)
            && line_stamp(pats, l, j) == l),
    decreases pats.len() - j,
{
    if j >= pats.len() {
    } else if pats[j].0 == l {
        assert({
            &&& j <= j < pats.len()
            &&& pats[j].0 == l
            &&& (forall|x: int| j <= x < j ==> (#[trigger] pats[x]).0 != l)
            &&& line_stamp(pats, l, j) == pats[j].1
        });
    } else {
        lemma_line_stamp_char(pats, l, j + 1);
    }
}

/// The pairs of annotations that all carry an id: one pair per annotation,
/// in order.
proof fn lemma_mark_pairs_all(ts: Seq<TodoView>)
    requires
        forall|n: int| 0 <= n < ts.len() ==> (#[trigger] ts[n]).issue_id is Some,
    ensures
        mark_pairs(ts).len() == ts.len(),
        forall|m: int|
            0 <= m < ts.len() ==> #[trigger] mark_pairs(ts)[m] == (
            unreported_header(ts[m]),
            reported_header(ts[m]),
            ),
    decreases ts.len(),
{
    if ts.len() > 0 {
        assert(forall|n: int|
            0 <= n < ts.skip(1).len() ==> (#[trigger] ts.skip(1)[n]).issue_id is Some) by {
            assert(forall|n: int|
                0 <= n < ts.skip(1).len() ==> #[trigger] ts.skip(1)[n] == ts[n + 1]);
        }
        lemma_mark_pairs_all(ts.skip(1));
        assert forall|m: int| 0 <= m < ts.len() implies #[trigger] mark_pairs(ts)[m] == (
        unreported_header(ts[m]),
        reported_header(ts[m]),
        ) by {
            if m > 0 {
                assert(mark_pairs(ts)[m] == mark_pairs(ts.skip(1))[m - 1]);
                assert(ts.skip(1)[m - 1] == ts[m]);
            }
        }
    }
}

/// What holds of one extracted annotation against the lines it came from:
/// its header line parses, and the parse gives back exactly its prefix,
/// keyword, title and issue id.
pub open spec fn parse_law(t: TodoView, kws: Seq<Seq<char>>, all: Seq<Seq<char>>) -> bool {
    &&& 1 <= t.line <= all.len()
    &&& parse_header(kws, all[t.line - 1]) is Some
    &&& (parse_header(kws, all[t.line - 1])->0).prefix == t.prefix
    &&& (parse_header(kws, all[t.line - 1])->0).keyword == t.keyword
    &&& (parse_header(kws, all[t.line - 1])->0).title == t.title
    &&& (parse_header(kws, all[t.line - 1])->0).issue_id == t.issue_id
}

/// The scan keeps the parse law for everything it has finished or holds
/// open.
proof fn lemma_extract_from_parses(
    kws: Seq<Seq<char>>,
    lns: Seq<Seq<char>>,
    lineno: int,
    cur: Option<TodoView>,
    acc: Seq<TodoView>,
    all: Seq<Seq<char>>,
)
    requires
        1 <= lineno,
        lineno - 1 <= all.len(),
        all.len() < u32::MAX,
        lns == all.skip(lineno - 1),
        forall|i: int| 0 <= i < acc.len() ==> parse_law(#[trigger] acc[i], kws, all),
        cur matches Some(t) ==> parse_law(t, kws, all),
    ensures
        forall|i: int|
            0 <= i < extract_from(kws, lns, lineno, cur, acc).len() ==> parse_law(
                #[trigger] extract_from(kws, lns, lineno, cur, acc)[i],
                kws,
                all,
            ),
    decreases lns.len(),
{
    let result = extract_from(kws, lns, lineno, cur, acc);
    if lns.len() == 0 {
        match cur {
            Some(t) => {
                assert forall|i: int| 0 <= i < result.len() implies parse_law(
                    #[trigger] result[i],
                    kws,
                    all,
                ) by {
                    if i < acc.len() {
                        assert(result[i] == acc[i]);
                    } else {
                        assert(result[i] == t);
                    }
                }
            },
            None => {
                assert forall|i: int| 0 <= i < result.len() implies parse_law(
                    #[trigger] result[i],
                    kws,
                    all,
                ) by {
                    assert(result[i] == acc[i]);
                }
            },
        }
    } else {
        assert(lns[0] == all[lineno - 1]);
        assert(lns.skip(1) =~= all.skip(lineno));
        match parse_header(kws, lns[0]) {
            Some(h) => {
                let started = todo_at(h, lineno);
                assert(parse_law(started, kws, all));
                let acc2 = flush(acc, cur);
                assert forall|i: int| 0 <= i < acc2.len() implies parse_law(
                    #[trigger] acc2[i],
                    kws,
                    all,
                ) by {
                    match cur {
                        Some(t) => {
                            if i < acc.len() {
                                assert(acc2[i] == acc[i]);
                            } else {
                                assert(acc2[i] == t);
                            }
                        },
                        None => {},
                    }
                }
                lemma_extract_from_parses(kws, lns.skip(1), lineno + 1, Some(started), acc2, all);
                assert(result == extract_from(kws, lns.skip(1), lineno + 1, Some(started), acc2));
            },
            None => {
                match cur {
                    Some(t) => {
                        match crate::todo_parser::continuation_of(t.prefix, lns[0]) {
                            Some(c) => {
                                let t2 = crate::todo_parser::append_comment(t, c);
                                assert(parse_law(t2, kws, all));
                                lemma_extract_from_parses(
                                    kws,
                                    lns.skip(1),
                                    lineno + 1,
                                    Some(t2),
                                    acc,
                                    all,
                                );
                                assert(result == extract_from(
                                    kws,
                                    lns.skip(1),
                                    lineno + 1,
                                    Some(t2),
                                    acc,
                                ));
                            },
                            None => {
                                lemma_extract_from_parses(kws, lns.skip(1), lineno + 1, cur, acc, all);
                                assert(result == extract_from(kws, lns.skip(1), lineno + 1, cur, acc));
                            },
                        }
                    },
                    None => {
                        lemma_extract_from_parses(kws, lns.skip(1), lineno + 1, cur, acc, all);
                        assert(result == extract_from(kws, lns.skip(1), lineno + 1, cur, acc));
                    },
                }
            },
        }
    }
}

/// Every extracted annotation parses back: the header parse of its source
/// line yields exactly its prefix, keyword, title and issue id.
pub proof fn lemma_extract_parses(kws: Seq<Seq<char>>, text: Seq<char>)
    requires
        text.len() < u32::MAX,
    ensures
        forall|i: int|
            0 <= i < extract_text(kws, text).len() ==> parse_law(
                #[trigger] extract_text(kws, text)[i],
                kws,
                split_lines(text),
            ),
{
    crate::todo_parser::lemma_line_count(text);
    assert(split_lines(text).skip(0) =~= split_lines(text));
    lemma_extract_from_parses(
        kws,
        split_lines(text),
        1,
        None,
        Seq::<TodoView>::empty(),
        split_lines(text),
    );
}

/// Two lines that drive the scan the same way: both are no headers and
/// equal, or both are headers over the same prefix, keyword and title (their
/// markers may differ).
pub open spec fn line_parse_related(kws: Seq<Seq<char>>, la: Seq<char>, lb: Seq<char>) -> bool {
    match (parse_header(kws, la), parse_header(kws, lb)) {
        (None, None) => la == lb,
        (Some(h1), Some(h2)) => h1.prefix == h2.prefix && h1.keyword == h2.keyword && h1.title
            == h2.title,
        _ => false,
    }
}

/// Two annotations that agree on everything but the issue id.
pub open spec fn todo_like(t1: TodoView, t2: TodoView) -> bool {
    &&& t2.line == t1.line
    &&& t2.prefix == t1.prefix
    &&& t2.keyword == t1.keyword
    &&& t2.title == t1.title
    &&& t2.comments == t1.comments
}

/// Two open blocks that agree on everything but the issue id, or none open
/// on either side.
pub open spec fn cur_like(c1: Option<TodoView>, c2: Option<TodoView>) -> bool {
    match (c1, c2) {
        (None, None) => true,
        (Some(t1), Some(t2)) => todo_like(t1, t2),
        _ => false,
    }
}

/// Two scans over line-wise related lines run in lockstep: they find the
/// same number of annotations, pairwise equal in everything but the issue
/// id.
proof fn lemma_extract_lockstep(
    kws: Seq<Seq<char>>,
    lns1: Seq<Seq<char>>,
    lns2: Seq<Seq<char>>,
    lineno: int,
    cur1: Option<TodoView>,
    cur2: Option<TodoView>,
    acc1: Seq<TodoView>,
    acc2: Seq<TodoView>,
)
    requires
        lns1.len() == lns2.len(),
        forall|i: int|
            0 <= i < lns1.len() ==> line_parse_related(kws, #[trigger] lns1[i], lns2[i]),
        cur_like(cur1, cur2),
        acc1.len() == acc2.len(),
        forall|n: int| 0 <= n < acc1.len() ==> todo_like(#[trigger] acc1[n], acc2[n]),
    ensures
        extract_from(kws, lns1, lineno, cur1, acc1).len() == extract_from(
            kws,
            lns2,
            lineno,
            cur2,
            acc2,
        ).len(),
        forall|n: int|
            0 <= n < extract_from(kws, lns1, lineno, cur1, acc1).len() ==> todo_like(
                #[trigger] extract_from(kws, lns1, lineno, cur1, acc1)[n],
                extract_from(kws, lns2, lineno, cur2, acc2)[n],
            ),
    decreases lns1.len(),
{
    let r1 = extract_from(kws, lns1, lineno, cur1, acc1);
    let r2 = extract_from(kws, lns2, lineno, cur2, acc2);
    if lns1.len() == 0 {
        match (cur1, cur2) {
            (Some(t1), Some(t2)) => {
                assert(r1.len() == r2.len());
                assert forall|n: int| 0 <= n < r1.len() implies todo_like(
                    #[trigger] r1[n],
                    r2[n],
                ) by {
                    if n < acc1.len() {
                        assert(r1[n] == acc1[n] && r2[n] == acc2[n]);
                    } else {
                        assert(r1[n] == t1 && r2[n] == t2);
                    }
                }
            },
            (None, None) => {
                assert forall|n: int| 0 <= n < r1.len() implies todo_like(
                    #[trigger] r1[n],
                    r2[n],
                ) by {
                    assert(r1[n] == acc1[n] && r2[n] == acc2[n]);
                }
            },
            _ => {},
        }
    } else {
        assert(line_parse_related(kws, lns1[0], lns2[0]));
        assert forall|i: int|
            0 <= i < lns1.skip(1).len() implies line_parse_related(
            kws,
            #[trigger] lns1.skip(1)[i],
            lns2.skip(1)[i],
        ) by {
            assert(lns1.skip(1)[i] == lns1[i + 1]);
            assert(lns2.skip(1)[i] == lns2[i + 1]);
            assert(line_parse_related(kws, lns1[i + 1], lns2[i + 1]));
        }
        match (parse_header(kws, lns1[0]), parse_header(kws, lns2[0])) {
            (Some(h1), Some(h2)) => {
                let s1 = todo_at(h1, lineno);
                let s2 = todo_at(h2, lineno);
                assert(todo_like(s1, s2));
                let a1 = flush(acc1, cur1);
                let a2 = flush(acc2, cur2);
                assert(a1.len() == a2.len());
                assert forall|n: int| 0 <= n < a1.len() implies todo_like(
                    #[trigger] a1[n],
                    a2[n],
                ) by {
                    match (cur1, cur2) {
                        (Some(t1), Some(t2)) => {
                            if n < acc1.len() {
                                assert(a1[n] == acc1[n] && a2[n] == acc2[n]);
                            } else {
                                assert(a1[n] == t1 && a2[n] == t2);
                            }
                        },
                        (None, None) => {
                            assert(a1[n] == acc1[n] && a2[n] == acc2[n]);
                        },
                        _ => {},
                    }
                }
                lemma_extract_lockstep(
                    kws,
                    lns1.skip(1),
                    lns2.skip(1),
                    lineno + 1,
                    Some(s1),
                    Some(s2),
                    a1,
                    a2,
                );
                assert(r1 == extract_from(kws, lns1.skip(1), lineno + 1, Some(s1), a1));
                assert(r2 == extract_from(kws, lns2.skip(1), lineno + 1, Some(s2), a2));
            },
            (None, None) => {
                assert(lns1[0] == lns2[0]);
                match (cur1, cur2) {
                    (Some(t1), Some(t2)) => {
                        assert(t1.prefix == t2.prefix);
                        match crate::todo_parser::continuation_of(t1.prefix, lns1[0]) {
                            Some(c) => {
                                let u1 = crate::todo_parser::append_comment(t1, c);
                                let u2 = crate::todo_parser::append_comment(t2, c);
                                assert(todo_like(u1, u2));
                                lemma_extract_lockstep(
                                    kws,
                                    lns1.skip(1),
                                    lns2.skip(1),
                                    lineno + 1,
                                    Some(u1),
                                    Some(u2),
                                    acc1,
                                    acc2,
                                );
                                assert(r1 == extract_from(
                                    kws,
                                    lns1.skip(1),
                                    lineno + 1,
                                    Some(u1),
                                    acc1,
                                ));
                                assert(r2 == extract_from(
                                    kws,
                                    lns2.skip(1),
                                    lineno + 1,
                                    Some(u2),
                                    acc2,
                                ));
                            },
                            None => {
                                lemma_extract_lockstep(
                                    kws,
                                    lns1.skip(1),
                                    lns2.skip(1),
                                    lineno + 1,
                                    cur1,
                                    cur2,
                                    acc1,
                                    acc2,
                                );
                                assert(r1 == extract_from(kws, lns1.skip(1), lineno + 1, cur1, acc1));
                                assert(r2 == extract_from(kws, lns2.skip(1), lineno + 1, cur2, acc2));
                            },
                        }
                    },
                    (None, None) => {
                        lemma_extract_lockstep(
                            kws,
                            lns1.skip(1),
                            lns2.skip(1),
                            lineno + 1,
                            cur1,
                            cur2,
                            acc1,
                            acc2,
                        );
                        assert(r1 == extract_from(kws, lns1.skip(1), lineno + 1, cur1, acc1));
                        assert(r2 == extract_from(kws, lns2.skip(1), lineno + 1, cur2, acc2));
                    },
                    _ => {},
                }
            },
            _ => {},
        }
    }
}

/// Law: the extract–mark round trip.  Extract a text, give every annotation
/// an issue id, and stamp the text with them: extracting the stamped text
/// yields exactly the assigned annotations — same lines, prefixes, keywords,
/// titles and comments, now carrying the assigned ids.  It holds when the
/// keywords are plain, the text's annotations are all still unreported,
/// their header texts are single lines that stand in the text's lines only
/// as whole lines, and no two annotations share a header text.
pub proof fn lemma_round_trip(kws: Seq<Seq<char>>, text: Seq<char>, assigned: Seq<TodoView>)
    requires
        text.len() < u32::MAX,
        forall|k: int| 0 <= k < kws.len() ==> plain_keyword(#[trigger] kws[k]),
        assigned.len() == extract_text(kws, text).len(),
        forall|n: int|
            0 <= n < assigned.len() ==> (#[trigger] extract_text(kws, text)[n]).issue_id is None,
        forall|n: int|
            0 <= n < assigned.len() ==> (#[trigger] assigned[n]).issue_id is Some && assigned[n]
                == (TodoView { issue_id: assigned[n].issue_id, ..extract_text(kws, text)[n] }),
        single_line_pats(mark_pairs(assigned)),
        full_line_matches_only(mark_pairs(assigned), split_lines(text)),
        forall|m: int, n: int|
            0 <= m < n < assigned.len() ==> unreported_header(#[trigger] assigned[m])
                != unreported_header(#[trigger] assigned[n]),
    ensures
        extract_text(kws, mark_text(text, mark_pairs(assigned))) == assigned,
{
    let base = extract_text(kws, text);
    let pats = mark_pairs(assigned);
    let lns1 = split_lines(text);
    let marked = mark_text(text, pats);
    let again = extract_text(kws, marked);

    lemma_mark_pairs_all(assigned);
    lemma_mark_linewise(text, pats);
    let lns2 = split_lines(marked);

    crate::todo_parser::lemma_line_count(text);
    lemma_extract_headers(kws, text);
    lemma_extract_parses(kws, text);

    assert forall|n: int| 0 <= n < assigned.len() implies unreported_header(
        #[trigger] assigned[n],
    ) == unreported_header(base[n]) by {
        assert(assigned[n].prefix == base[n].prefix);
    }

    // each line of the stamped text relates to its source line
    assert forall|i: int| 0 <= i < lns1.len() implies line_parse_related(
        kws,
        #[trigger] lns1[i],
        lns2[i],
    ) by {
        assert(lns2[i] == line_stamp(pats, lns1[i], 0));
        lemma_line_stamp_char(pats, lns1[i], 0);
        if exists|m: int|
            {
                &&& 0 <= m < pats.len()
                &&& (#[trigger] pats[m]).0 == lns1[i]
                &&& (forall|x: int| 0 <= x < m ==> (#[trigger] pats[x]).0 != lns1[i])
                &&& line_stamp(pats, lns1[i], 0) == pats[m].1
            } {
            let m = choose|m: int|
                {
                    &&& 0 <= m < pats.len()
                    &&& (#[trigger] pats[m]).0 == lns1[i]
                    &&& (forall|x: int| 0 <= x < m ==> (#[trigger] pats[x]).0 != lns1[i])
                    &&& line_stamp(pats, lns1[i], 0) == pats[m].1
                };
            assert(pats[m] == (unreported_header(assigned[m]), reported_header(assigned[m])));
            assert(lns1[i] == unreported_header(base[m]));
            assert(header_law(base[m], lns1));
            assert(lns1[base[m].line - 1] == unreported_header(base[m]));
            assert(lns1[i] == lns1[base[m].line - 1]);
            assert(parse_law(base[m], kws, lns1));
            let h1 = parse_header(kws, lns1[i])->0;
            assert(h1.prefix == base[m].prefix && h1.keyword == base[m].keyword && h1.title
                == base[m].title && h1.issue_id is None);
            let idm = assigned[m].issue_id->0;
            lemma_reported_header_reparses(kws, lns1[i], idm);
            let stamped = Header {
                prefix: h1.prefix,
                keyword: h1.keyword,
                issue_id: Some(idm),
                title: h1.title,
            };
            assert(reported_header(todo_at(stamped, 0)) == reported_header(assigned[m])) by {
                assert(todo_at(stamped, 0).prefix == assigned[m].prefix);
                assert(todo_at(stamped, 0).keyword == assigned[m].keyword);
                assert(todo_at(stamped, 0).title == assigned[m].title);
                assert(todo_at(stamped, 0).issue_id == assigned[m].issue_id);
            }
            assert(parse_header(kws, lns2[i]) == Some(stamped));
        } else {
            assert(lns2[i] == lns1[i]);
        }
    }

    assert(base == extract_from(kws, lns1, 1, None::<TodoView>, Seq::<TodoView>::empty()));
    assert(again == extract_from(kws, lns2, 1, None::<TodoView>, Seq::<TodoView>::empty()));
    assert(lns2.len() == lns1.len());
    lemma_extract_lockstep(
        kws,
        lns1,
        lns2,
        1,
        None,
        None,
        Seq::<TodoView>::empty(),
        Seq::<TodoView>::empty(),
    );
    assert(again.len() == base.len());

    assert(lns2.len() < u32::MAX);
    assert(lns2.skip(0) =~= lns2);
    lemma_extract_from_parses(kws, lns2, 1, None, Seq::<TodoView>::empty(), lns2);

    assert forall|n: int| 0 <= n < again.len() implies #[trigger] again[n] == assigned[n] by {
        assert(todo_like(base[n], again[n]));
        let li = base[n].line - 1;
        assert(header_law(base[n], lns1));
        assert(lns1[li] == unreported_header(base[n]));
        // the stamp of that line is this annotation's own pair
        assert(lns2[li] == line_stamp(pats, lns1[li], 0));
        lemma_line_stamp_char(pats, lns1[li], 0);
        assert(pats[n] == (unreported_header(assigned[n]), reported_header(assigned[n])));
        assert(pats[n].0 == lns1[li]);
        let m = choose|m: int|
            {
                &&& 0 <= m < pats.len()
                &&& (#[trigger] pats[m]).0 == lns1[li]
                &&& (forall|x: int| 0 <= x < m ==> (#[trigger] pats[x]).0 != lns1[li])
                &&& line_stamp(pats, lns1[li], 0) == pats[m].1
            };
        assert(m == n) by {
            assert(pats[m].0 == unreported_header(assigned[m]));
            if m < n {
                assert(unreported_header(assigned[m]) != unreported_header(assigned[n]));
            }
            if m > n {
                assert(pats[n].0 != lns1[li]);
            }
        }
        assert(lns2[li] == reported_header(assigned[n]));
        // its parse carries the assigned id
        assert(parse_law(base[n], kws, lns1));
        let h1 = parse_header(kws, lns1[li])->0;
        let idn = assigned[n].issue_id->0;
        lemma_reported_header_reparses(kws, lns1[li], idn);
        let stamped = Header {
            prefix: h1.prefix,
            keyword: h1.keyword,
            issue_id: Some(idn),
            title: h1.title,
        };
        assert(reported_header(todo_at(stamped, 0)) == reported_header(assigned[n])) by {
            assert(todo_at(stamped, 0).prefix == assigned[n].prefix);
            assert(todo_at(stamped, 0).keyword == assigned[n].keyword);
            assert(todo_at(stamped, 0).title == assigned[n].title);
            assert(todo_at(stamped, 0).issue_id == assigned[n].issue_id);
        }
        assert(parse_header(kws, lns2[li]) == Some(stamped));
        assert(parse_law(again[n], kws, lns2));
        assert(again[n].line == base[n].line);
        assert(again[n].issue_id == Some(idn));
        assert(again[n] =~= assigned[n]);
    }
    assert(again =~= assigned);
}

/// Whether the pattern stands anywhere in the text.
pub open spec fn occurs_in(text: Seq<char>, pat: Seq<char>) -> bool {
    exists|p: int| starts_with_at(text, pat, p)
}

/// A text in which no search text occurs comes back from a mark pass
/// unchanged.
pub proof fn lemma_mark_unmatched_identity(text: Seq<char>, pats: Seq<(Seq<char>, Seq<char>)>)
    requires
        forall|j: int| 0 <= j < pats.len() ==> !occurs_in(text, (#[trigger] pats[j]).0),
    ensures
        mark_text(text, pats) == text,
    decreases text.len(),
{
    if text.len() == 0 {
        assert(mark_text(text, pats) =~= text);
    } else {
        lemma_match_here(pats, text, 0);
        match match_here(pats, text, 0) {
            Some(j) => {
                assert(starts_with_at(text, pats[j].0, 0));
                assert(occurs_in(text, pats[j].0));
                assert(false);
            },
            None => {
                assert forall|j: int| 0 <= j < pats.len() implies !occurs_in(
                    text.skip(1),
                    (#[trigger] pats[j]).0,
                ) by {
                    if occurs_in(text.skip(1), pats[j].0) {
                        let p = choose|p: int| starts_with_at(text.skip(1), pats[j].0, p);
                        assert(text.subrange(p + 1, p + 1 + pats[j].0.len()) =~= text.skip(
                            1,
                        ).subrange(p, p + pats[j].0.len()));
                        assert(starts_with_at(text, pats[j].0, p + 1));
                        assert(occurs_in(text, pats[j].0));
                    }
                }
                lemma_mark_unmatched_identity(text.skip(1), pats);
                assert(mark_text(text, pats) =~= seq![text[0]] + text.skip(1));
                assert(seq![text[0]] + text.skip(1) =~= text);
            },
        }
    }
}

/// Law: stamping is idempotent.  Once a mark pass has run, and no
/// unreported header text of the annotations still occurs in its result —
/// the stamped forms carry the issue marker, which the unreported forms by
/// construction do not — a second pass with the same annotations leaves the
/// text exactly as it was.
pub proof fn lemma_mark_idempotent(text: Seq<char>, ts: Seq<TodoView>)
    requires
        forall|j: int|
            0 <= j < mark_pairs(ts).len() ==> !occurs_in(
                mark_text(text, mark_pairs(ts)),
                (#[trigger] mark_pairs(ts)[j]).0,
            ),
    ensures
        mark_text(mark_text(text, mark_pairs(ts)), mark_pairs(ts)) == mark_text(
            text,
            mark_pairs(ts),
        ),
{
    lemma_mark_unmatched_identity(mark_text(text, mark_pairs(ts)), mark_pairs(ts));
}

/// One text is contained in another with its characters in order.
pub open spec fn is_subseq_of(a: Seq<char>, b: Seq<char>) -> bool
    decreases b.len(),
{
    if a.len() == 0 {
        true
    } else if b.len() == 0 {
        false
    } else {
        ||| (a[0] == b[0] && is_subseq_of(a.skip(1), b.skip(1)))
        ||| is_subseq_of(a, b.skip(1))
    }
}

/// What is contained in a suffix is contained in the whole.
proof fn lemma_subseq_of_skip(a: Seq<char>, b: Seq<char>, k: int)
    requires
        0 <= k <= b.len(),
        is_subseq_of(a, b.skip(k)),
    ensures
        is_subseq_of(a, b),
    decreases k,
{
    if k > 0 {
        if a.len() == 0 {
        } else {
            assert(b.skip(k - 1).skip(1) =~= b.skip(k));
            assert(b.skip(k - 1).len() > 0) by {
                if b.skip(k - 1).len() == 0 {
                    assert(b.skip(k).len() == 0);
                }
            }
            assert(is_subseq_of(a, b.skip(k - 1)));
        }
        lemma_subseq_of_skip(a, b, k - 1);
    } else {
        assert(b.skip(0) =~= b);
    }
}

/// What `block_here` returns: an annotation whose block really stands at
/// the start of the text.
proof fn lemma_block_here_props(ts: Seq<TodoView>, text: Seq<char>, j: int)
    requires
        0 <= j,
    ensures
        match block_here(ts, text, j) {
            Some((m, e)) => j <= m < ts.len() && block_end(text, 0, ts[m]) == Some(e),
            None => forall|m: int| j <= m < ts.len() ==> block_end(text, 0, #[trigger] ts[m]) is None,
        },
    decreases ts.len() - j,
{
    if j >= ts.len() {
    } else if block_end(text, 0, ts[j]) is Some {
    } else {
        lemma_block_here_props(ts, text, j + 1);
    }
}

/// Law: removal leaves everything outside the deleted blocks untouched.
/// The result of a remove pass is the input text with whole matched blocks
/// cut out: its characters are the remaining characters of the input, in
/// their original order.
pub proof fn lemma_remove_subseq(text: Seq<char>, ts: Seq<TodoView>)
    ensures
        is_subseq_of(remove_text(text, ts), text),
    decreases text.len(),
{
    if text.len() == 0 {
    } else {
        lemma_block_here_props(ts, text, 0);
        match block_here(ts, text, 0) {
            Some((j, e)) => {
                lemma_block_end_bounds(text, 0, ts[j]);
                assert(0 < e <= text.len());
                lemma_remove_subseq(text.skip(e), ts);
                lemma_subseq_of_skip(remove_text(text, ts), text, e);
            },
            None => {
                lemma_remove_subseq(text.skip(1), ts);
                let r = remove_text(text, ts);
                assert(r == seq![text[0]] + remove_text(text.skip(1), ts));
                assert(r[0] == text[0]);
                assert(r.skip(1) =~= remove_text(text.skip(1), ts));
                assert(is_subseq_of(r, text));
            },
        }
    }
}

/// A text in which no annotation's block stands anywhere comes back from a
/// remove pass unchanged.
pub proof fn lemma_remove_unmatched_identity(text: Seq<char>, ts: Seq<TodoView>)
    requires
        forall|m: int, p: int|
            0 <= m < ts.len() ==> #[trigger] block_end(text, p, ts[m]) is None,
    ensures
        remove_text(text, ts) == text,
    decreases text.len(),
{
    if text.len() == 0 {
        assert(remove_text(text, ts) =~= text);
    } else {
        lemma_block_here_props(ts, text, 0);
        match block_here(ts, text, 0) {
            Some((j, e)) => {
                assert(block_end(text, 0, ts[j]) is Some);
                assert(false);
            },
            None => {
                assert forall|m: int, p: int| 0 <= m < ts.len() implies #[trigger] block_end(
                    text.skip(1),
                    p,
                    ts[m],
                ) is None by {
                    if block_end(text.skip(1), p, ts[m]) is Some {
                        assert(0 <= p <= text.skip(1).len()) by {
                            if p < 0 || p > text.skip(1).len() {
                                assert(!starts_with_at(
                                    text.skip(1),
                                    reported_header(ts[m]),
                                    p,
                                ));
                            }
                        }
                        crate::mutate::lemma_block_end_shift(text.skip(1), p, ts[m]);
                        assert(block_end(text.skip(1).skip(p), 0, ts[m]) is Some);
                        assert(text.skip(1).skip(p) =~= text.skip(1 + p));
                        crate::mutate::lemma_block_end_shift(text, 1 + p, ts[m]);
                        assert(block_end(text, 1 + p, ts[m]) is Some);
                    }
                }
                lemma_remove_unmatched_identity(text.skip(1), ts);
                assert(remove_text(text, ts) =~= seq![text[0]] + text.skip(1));
                assert(seq![text[0]] + text.skip(1) =~= text);
            },
        }
    }
}

} // verus!
