//! Rewriting a text in place of its annotation blocks: stamping unreported
//! header lines with their assigned issue marker, and deleting the whole
//! block of an annotation whose issue has been closed.
//!
//! Both rewrites scan the text once from the left.  At every position the
//! patterns are tried in annotation order and the first that matches wins;
//! the scan continues right after the replaced or deleted span, so matches
//! never overlap.
use vstd::prelude::*;

use crate::text::{chars_string, str_chars};
use crate::todo::{
    comment_line, reported_header, unreported_header, Todo, TodoView,
};
use crate::todo_parser::starts_with_at;

verus! {

/// The find-and-replace pairs of a mark pass: one per annotation that
/// carries an issue id, pairing its unreported header with its stamped
/// header.
pub open spec fn mark_pairs(ts: Seq<TodoView>) -> Seq<(Seq<char>, Seq<char>)>
    decreases ts.len(),
{
    if ts.len() == 0 {
        Seq::<(Seq<char>, Seq<char>)>::empty()
    } else {
        let rest = mark_pairs(ts.skip(1));
        if ts[0].issue_id is Some {
            seq![(unreported_header(ts[0]), reported_header(ts[0]))] + rest
        } else {
            rest
        }
    }
}

/// The pair lists of a split annotation list concatenate.
pub proof fn lemma_mark_pairs_concat(a: Seq<TodoView>, b: Seq<TodoView>)
    ensures
        mark_pairs(a + b) == mark_pairs(a) + mark_pairs(b),
    decreases a.len(),
{
    if a.len() == 0 {
        assert(a + b == b);
        assert(mark_pairs(a) + mark_pairs(b) == mark_pairs(b));
    } else {
        assert((a + b).skip(1) == a.skip(1) + b);
        lemma_mark_pairs_concat(a.skip(1), b);
        assert((a + b)[0] == a[0]);
        if a[0].issue_id is Some {
            assert(seq![(unreported_header(a[0]), reported_header(a[0]))] + (mark_pairs(a.skip(1))
                + mark_pairs(b)) == (seq![(unreported_header(a[0]), reported_header(a[0]))]
                + mark_pairs(a.skip(1))) + mark_pairs(b));
        }
    }
}

/// The first pair whose search text stands at the start of the text, tried
/// from index `j` on.
pub open spec fn match_here(
    pats: Seq<(Seq<char>, Seq<char>)>,
    text: Seq<char>,
    j: int,
) -> Option<int>
    decreases pats.len() - j,
{
    if j < 0 || j >= pats.len() {
        None
    } else if pats[j].0.len() > 0 && starts_with_at(text, pats[j].0, 0) {
        Some(j)
    } else {
        match_here(pats, text, j + 1)
    }
}

/// What `match_here` returns: the first index from `j` on whose non-empty
/// search text starts the text.
pub proof fn lemma_match_here(pats: Seq<(Seq<char>, Seq<char>)>, text: Seq<char>, j: int)
    requires
        0 <= j,
    ensures
        match match_here(pats, text, j) {
            Some(m) => j <= m < pats.len() && pats[m].0.len() > 0 && starts_with_at(
                text,
                pats[m].0,
                0,
            ) && (forall|i: int|
                j <= i < m ==> !((#[trigger] pats[i].0).len() > 0 && starts_with_at(
                    text,
                    pats[i].0,
                    0,
                ))),
            None => forall|i: int|
                j <= i < pats.len() ==> !((#[trigger] pats[i].0).len() > 0 && starts_with_at(
                    text,
                    pats[i].0,
                    0,
                )),
        },
    decreases pats.len() - j,
{
    if j >= pats.len() {
    } else if pats[j].0.len() > 0 && starts_with_at(text, pats[j].0, 0) {
    } else {
        lemma_match_here(pats, text, j + 1);
    }
}

/// The text with every occurrence of a pair's search text replaced by that
/// pair's replacement, scanning from the left and trying the pairs in order
/// at each position.
pub open spec fn mark_text(text: Seq<char>, pats: Seq<(Seq<char>, Seq<char>)>) -> Seq<char>
    decreases text.len(),
{
    if text.len() == 0 {
        Seq::<char>::empty()
    } else {
        match match_here(pats, text, 0) {
            Some(j) => if 0 < pats[j].0.len() <= text.len() {
                pats[j].1 + mark_text(text.skip(pats[j].0.len() as int), pats)
            } else {
                text
            },
            None => seq![text[0]] + mark_text(text.skip(1), pats),
        }
    }
}

/// The length of the line separator standing at position `p`: two for a
/// carriage return and line feed, one for a bare line feed, zero for none.
pub open spec fn sep_len_at(text: Seq<char>, p: int) -> int {
    if 0 <= p && p + 2 <= text.len() && text[p] == '\r' && text[p + 1] == '\n' {
        2
    } else if 0 <= p && p + 1 <= text.len() && text[p] == '\n' {
        1
    } else {
        0
    }
}

/// The position right after the block's continuation lines when they all
/// stand in the text from position `q` on, each preceded by a line
/// separator.
pub open spec fn comments_end(
    text: Seq<char>,
    q: int,
    prefix: Seq<char>,
    comments: Seq<Seq<char>>,
) -> Option<int>
    decreases comments.len(),
{
    if comments.len() == 0 {
        Some(q)
    } else {
        let s = sep_len_at(text, q);
        if s == 0 {
            None
        } else {
            let cl = comment_line(prefix, comments[0]);
            if starts_with_at(text, cl, q + s) {
                comments_end(text, q + s + cl.len(), prefix, comments.skip(1))
            } else {
                None
            }
        }
    }
}

/// The position right after the whole block of a reported annotation when it
/// stands at position `p`: the stamped header, every continuation line after
/// a line separator, and one trailing line separator if one is there.
pub open spec fn block_end(text: Seq<char>, p: int, t: TodoView) -> Option<int> {
    if t.issue_id is Some && starts_with_at(text, reported_header(t), p) {
        match comments_end(text, p + reported_header(t).len(), t.prefix, t.comments) {
            Some(q) => Some(q + sep_len_at(text, q)),
            None => None,
        }
    } else {
        None
    }
}

/// The first annotation, tried from index `j` on, whose block stands at the
/// start of the text, together with the block's end position.
pub open spec fn block_here(ts: Seq<TodoView>, text: Seq<char>, j: int) -> Option<(int, int)>
    decreases ts.len() - j,
{
    if j < 0 || j >= ts.len() {
        None
    } else {
        match block_end(text, 0, ts[j]) {
            Some(e) => Some((j, e)),
            None => block_here(ts, text, j + 1),
        }
    }
}

/// The text with every annotation block whose issue was closed deleted,
/// scanning from the left and trying the annotations in order at each
/// position.
pub open spec fn remove_text(text: Seq<char>, ts: Seq<TodoView>) -> Seq<char>
    decreases text.len(),
{
    if text.len() == 0 {
        Seq::<char>::empty()
    } else {
        match block_here(ts, text, 0) {
            Some((j, e)) => if 0 < e <= text.len() {
                remove_text(text.skip(e), ts)
            } else {
                text
            },
            None => seq![text[0]] + remove_text(text.skip(1), ts),
        }
    }
}

/// A decimal writing has at least one digit.
pub proof fn lemma_dec_str_len(n: nat)
    ensures
        crate::text::dec_str(n).len() >= 1,
    decreases n,
{
    if n >= 10 {
        lemma_dec_str_len(n / 10);
    }
}

/// Where the continuation lines of a block can end: no earlier than they
/// start and within the text.
pub proof fn lemma_comments_end_bounds(
    text: Seq<char>,
    q: int,
    prefix: Seq<char>,
    comments: Seq<Seq<char>>,
)
    requires
        0 <= q <= text.len(),
    ensures
        match comments_end(text, q, prefix, comments) {
            Some(e) => q <= e <= text.len(),
            None => true,
        },
    decreases comments.len(),
{
    if comments.len() == 0 {
    } else {
        let s = sep_len_at(text, q);
        if s != 0 {
            let cl = comment_line(prefix, comments[0]);
            if starts_with_at(text, cl, q + s) {
                lemma_comments_end_bounds(text, q + s + cl.len(), prefix, comments.skip(1));
            }
        }
    }
}

/// Where a block can end: strictly after its start and within the text.
pub proof fn lemma_block_end_bounds(text: Seq<char>, p: int, t: TodoView)
    requires
        0 <= p <= text.len(),
    ensures
        match block_end(text, p, t) {
            Some(e) => p < e <= text.len(),
            None => true,
        },
{
    if t.issue_id is Some && starts_with_at(text, reported_header(t), p) {
        lemma_dec_str_len(t.issue_id->0 as nat);
        assert(reported_header(t).len() >= 6);
        lemma_comments_end_bounds(text, p + reported_header(t).len(), t.prefix, t.comments);
    }
}

/// Matching a pattern in a suffix is matching it at the shifted position.
pub(crate) proof fn lemma_starts_with_shift(text: Seq<char>, p: int, pat: Seq<char>, q: int)
    requires
        0 <= p <= text.len(),
        0 <= q,
    ensures
        starts_with_at(text.skip(p), pat, q) == starts_with_at(text, pat, p + q),
{
    if q + pat.len() <= text.skip(p).len() {
        assert(text.skip(p).subrange(q, q + pat.len()) =~= text.subrange(
            p + q,
            p + q + pat.len(),
        ));
    }
}

/// A line separator in a suffix is the one at the shifted position.
pub(crate) proof fn lemma_sep_shift(text: Seq<char>, p: int, q: int)
    requires
        0 <= p <= text.len(),
        0 <= q,
    ensures
        sep_len_at(text.skip(p), q) == sep_len_at(text, p + q),
{
}

/// Continuation lines matched in a suffix are the ones matched at the
/// shifted position.
pub(crate) proof fn lemma_comments_end_shift(
    text: Seq<char>,
    p: int,
    q: int,
    prefix: Seq<char>,
    comments: Seq<Seq<char>>,
)
    requires
        0 <= p <= text.len(),
        0 <= q,
    ensures
        comments_end(text.skip(p), q, prefix, comments) == (match comments_end(
            text,
            p + q,
            prefix,
            comments,
        ) {
            Some(e) => Some(e - p),
            None => None::<int>,
        }),
    decreases comments.len(),
{
    if comments.len() == 0 {
    } else {
        lemma_sep_shift(text, p, q);
        let s = sep_len_at(text, p + q);
        if s != 0 {
            let cl = comment_line(prefix, comments[0]);
            lemma_starts_with_shift(text, p, cl, q + s);
            if starts_with_at(text, cl, p + q + s) {
                lemma_comments_end_shift(text, p, q + s + cl.len(), prefix, comments.skip(1));
            }
        }
    }
}

/// A block matched in a suffix is the one matched at the shifted position.
pub(crate) proof fn lemma_block_end_shift(text: Seq<char>, p: int, t: TodoView)
    requires
        0 <= p <= text.len(),
    ensures
        block_end(text.skip(p), 0, t) == (match block_end(text, p, t) {
            Some(e) => Some(e - p),
            None => None::<int>,
        }),
{
    if t.issue_id is Some {
        lemma_starts_with_shift(text, p, reported_header(t), 0);
        if starts_with_at(text, reported_header(t), p) {
            lemma_comments_end_shift(text, p, reported_header(t).len() as int, t.prefix, t.comments);
            match comments_end(text, p + reported_header(t).len(), t.prefix, t.comments) {
                Some(e) => {
                    lemma_comments_end_bounds(
                        text,
                        p + reported_header(t).len(),
                        t.prefix,
                        t.comments,
                    );
                    lemma_sep_shift(text, p, e - p);
                },
                None => {},
            }
        }
    }
}

/// Pushes a copy of every character of `src` onto `dst`.
fn append_copy(dst: &mut Vec<char>, src: &Vec<char>)
    ensures
        final(dst)@ == old(dst)@ + src@,
{
    let mut i: usize = 0;
    while i < src.len()
        invariant
            i <= src@.len(),
            dst@ == old(dst)@ + src@.take(i as int),
        decreases src.len() - i,
    {
        dst.push(src[i]);
        proof {
            assert(dst@ =~= old(dst)@ + src@.take(i + 1));
        }
        i = i + 1;
    }
    proof {
        assert(old(dst)@ + src@.take(src@.len() as int) =~= old(dst)@ + src@);
    }
}

/// The first pair whose search text stands at position `p` of the text, in
/// executable code.
fn find_pair(pairs: &Vec<(Vec<char>, Vec<char>)>, text: &Vec<char>, p: usize) -> (r: Option<usize>)
    requires
        p <= text@.len(),
    ensures
        match r {
            Some(j) => j < pairs@.len() && match_here(pairs.deep_view(), text@.skip(p as int), 0)
                == Some(j as int),
            None => match_here(pairs.deep_view(), text@.skip(p as int), 0) is None,
        },
{
    let ghost pats = pairs.deep_view();
    let ghost rest = text@.skip(p as int);
    let mut j: usize = 0;
    while j < pairs.len()
        invariant
            j <= pairs@.len(),
            p <= text@.len(),
            pats == pairs.deep_view(),
            rest == text@.skip(p as int),
            match_here(pats, rest, 0) == match_here(pats, rest, j as int),
        decreases pairs.len() - j,
    {
        proof {
            assert(pats[j as int] == (pairs@[j as int].0@, pairs@[j as int].1@));
        }
        if pairs[j].0.len() > 0 && crate::todo_parser::starts_with_chars(text, &pairs[j].0, p) {
            proof {
                assert(rest.subrange(0, pats[j as int].0.len() as int) =~= text@.subrange(
                    p as int,
                    p + pats[j as int].0.len(),
                ));
            }
            return Some(j);
        }
        proof {
            if pats[j as int].0.len() > 0 && starts_with_at(rest, pats[j as int].0, 0) {
                assert(text@.subrange(p as int, p + pats[j as int].0.len()) =~= rest.subrange(
                    0,
                    pats[j as int].0.len() as int,
                ));
                assert(false);
            }
        }
        j = j + 1;
    }
    None
}

/// Replaces, for every annotation that carries an issue id, each occurrence
/// of its unreported header text by its stamped header text.  Occurrences
/// are found scanning once from the left, the annotations being tried in
/// order at each position; text in which no search text occurs comes back
/// unchanged.
pub fn mark_todos(input: &str, todos: &[Todo]) -> (r: String)
    ensures
        r@ == mark_text(input@, mark_pairs(todos.deep_view())),
{
    let ghost ts = todos.deep_view();
    let text = str_chars(input);

    // the find-and-replace pair of each reported annotation, in order
    let mut pairs: Vec<(Vec<char>, Vec<char>)> = Vec::new();
    let mut i: usize = 0;
    while i < todos.len()
        invariant
            i <= todos@.len(),
            ts == todos.deep_view(),
            ts.len() == todos@.len(),
            pairs.deep_view() =~= mark_pairs(ts.take(i as int)),
        decreases todos.len() - i,
    {
        let ghost prev = pairs@;
        proof {
            assert(ts[i as int] == todos@[i as int]@);
            assert(ts.take(i + 1) =~= ts.take(i as int) + seq![ts[i as int]]);
            lemma_mark_pairs_concat(ts.take(i as int), seq![ts[i as int]]);
            assert(seq![ts[i as int]].skip(1) =~= Seq::<TodoView>::empty());
            assert(mark_pairs(Seq::<TodoView>::empty()) == Seq::<(Seq<char>, Seq<char>)>::empty());
        }
        match todos[i].issue_id {
            Some(id) => {
                let unrep = todos[i].unreported_header_chars();
                let rep = todos[i].reported_header_chars(id);
                pairs.push((unrep, rep));
                proof {
                    assert(mark_pairs(seq![ts[i as int]]) =~= seq![
                        (unreported_header(ts[i as int]), reported_header(ts[i as int])),
                    ]);
                    assert forall|m: int| 0 <= m < pairs@.len() implies pairs.deep_view()[m]
                        == mark_pairs(ts.take(i + 1))[m] by {
                        assert(pairs.deep_view()[m] == (pairs@[m].0@, pairs@[m].1@));
                        if m < prev.len() {
                            assert(pairs@[m] == prev[m]);
                            assert(mark_pairs(ts.take(i as int))[m] == (prev[m].0@, prev[m].1@));
                        }
                    }
                    assert(pairs.deep_view() =~= mark_pairs(ts.take(i + 1)));
                }
            },
            None => {
                proof {
                    assert(mark_pairs(seq![ts[i as int]]) =~= Seq::<(Seq<char>, Seq<char>)>::empty());
                    assert(mark_pairs(ts.take(i as int)) + Seq::<(Seq<char>, Seq<char>)>::empty()
                        =~= mark_pairs(ts.take(i as int)));
                    assert(pairs.deep_view() =~= mark_pairs(ts.take(i + 1)));
                }
            },
        }
        i = i + 1;
    }
    proof {
        assert(ts.take(ts.len() as int) =~= ts);
    }
    let ghost pats = mark_pairs(ts);

    let mut out: Vec<char> = Vec::new();
    let mut p: usize = 0;
    proof {
        assert(text@.skip(0) =~= text@);
        assert(out@ + mark_text(text@, pats) =~= mark_text(text@, pats));
    }
    while p < text.len()
        invariant
            p <= text@.len(),
            text@ == input@,
            pairs.deep_view() == pats,
            pats == mark_pairs(ts),
            mark_text(input@, pats) == out@ + mark_text(text@.skip(p as int), pats),
        decreases text.len() - p,
    {
        let ghost rest = text@.skip(p as int);
        match find_pair(&pairs, &text, p) {
            Some(j) => {
                proof {
                    lemma_match_here(pats, rest, 0);
                }
                let plen = pairs[j].0.len();
                proof {
                    assert(pats[j as int] == (pairs@[j as int].0@, pairs@[j as int].1@));
                    assert(0 < plen <= rest.len());
                    assert(rest.skip(plen as int) =~= text@.skip(p + plen));
                    assert(mark_text(rest, pats) == pats[j as int].1 + mark_text(
                        text@.skip(p + plen),
                        pats,
                    ));
                }
                let (_, rep) = &pairs[j];
                append_copy(&mut out, rep);
                p = p + plen;
            },
            None => {
                let ghost oout = out@;
                out.push(text[p]);
                proof {
                    assert(rest[0] == text@[p as int]);
                    assert(rest.skip(1) =~= text@.skip(p + 1));
                    assert(out@ =~= oout + seq![rest[0]]);
                }
                p = p + 1;
            },
        }
    }
    proof {
        assert(text@.skip(text@.len() as int) =~= Seq::<char>::empty());
        assert(out@ + Seq::<char>::empty() =~= out@);
    }
    chars_string(&out)
}

/// The length of the line separator at a position, in executable code.
fn sep_len_exec(text: &Vec<char>, q: usize) -> (s: usize)
    requires
        q <= text@.len(),
    ensures
        s == sep_len_at(text@, q as int),
        q + s <= text@.len(),
{
    let n = text.len();
    if n - q >= 2 && text[q] == '\r' && text[q + 1] == '\n' {
        2
    } else if n - q >= 1 && text[q] == '\n' {
        1
    } else {
        0
    }
}

/// The end of the annotation's block standing at position `p`, in
/// executable code.
fn block_match_exec(text: &Vec<char>, p: usize, todo: &Todo) -> (r: Option<usize>)
    requires
        p <= text@.len(),
    ensures
        match r {
            Some(e) => block_end(text@, p as int, todo@) == Some(e as int) && p < e <= text@.len(),
            None => block_end(text@, p as int, todo@) is None,
        },
{
    let n = text.len();
    match todo.issue_id {
        None => {
            proof {
                assert(todo@.issue_id is None);
                assert(block_end(text@, p as int, todo@) is None);
            }
            None
        },
        Some(id) => {
            let head = todo.reported_header_chars(id);
            if !crate::todo_parser::starts_with_chars(text, &head, p) {
                proof {
                    assert(!starts_with_at(text@, reported_header(todo@), p as int));
                    assert(block_end(text@, p as int, todo@) is None);
                }
                return None;
            }
            let ghost q0 = p + reported_header(todo@).len();
            proof {
                lemma_dec_str_len(id as nat);
                assert(reported_header(todo@).len() >= 6);
            }
            let mut q: usize = p + head.len();
            let prefix_chars = str_chars(todo.prefix.as_str());
            let ghost cs = todo@.comments;
            let mut i: usize = 0;
            proof {
                assert(cs.skip(0) =~= cs);
            }
            while i < todo.comments.len()
                invariant
                    i <= todo.comments@.len(),
                    cs == todo@.comments,
                    cs.len() == todo.comments@.len(),
                    n == text@.len(),
                    prefix_chars@ == todo@.prefix,
                    p < q <= text@.len(),
                    todo@.issue_id is Some,
                    starts_with_at(text@, reported_header(todo@), p as int),
                    q0 == p + reported_header(todo@).len(),
                    comments_end(text@, q0, todo@.prefix, cs) == comments_end(
                        text@,
                        q as int,
                        todo@.prefix,
                        cs.skip(i as int),
                    ),
                decreases todo.comments.len() - i,
            {
                let ghost rest_cs = cs.skip(i as int);
                proof {
                    assert(rest_cs[0] == cs[i as int]);
                    assert(rest_cs.skip(1) =~= cs.skip(i + 1));
                }
                let s = sep_len_exec(text, q);
                if s == 0 {
                    proof {
                        assert(comments_end(text@, q as int, todo@.prefix, rest_cs) is None);
                        assert(block_end(text@, p as int, todo@) is None);
                    }
                    return None;
                }
                let mut cl = prefix_chars.clone();
                let mut cc = str_chars(todo.comments[i].as_str());
                cl.append(&mut cc);
                proof {
                    assert(todo@.comments[i as int] == todo.comments[i as int]@);
                    assert(cl@ == comment_line(todo@.prefix, rest_cs[0]));
                }
                if !crate::todo_parser::starts_with_chars(text, &cl, q + s) {
                    proof {
                        assert(comments_end(text@, q as int, todo@.prefix, rest_cs) is None);
                        assert(block_end(text@, p as int, todo@) is None);
                    }
                    return None;
                }
                q = q + s + cl.len();
                i = i + 1;
            }
            proof {
                assert(cs.skip(cs.len() as int) =~= Seq::<Seq<char>>::empty());
                assert(comments_end(text@, q0, todo@.prefix, cs) == Some(q as int));
            }
            let s = sep_len_exec(text, q);
            proof {
                assert(block_end(text@, p as int, todo@) == Some(q + sep_len_at(text@, q as int)));
            }
            Some(q + s)
        },
    }
}

/// The first annotation whose block stands at position `p`, in executable
/// code, with the block's end.
fn find_block(todos: &[Todo], text: &Vec<char>, p: usize) -> (r: Option<(usize, usize)>)
    requires
        p <= text@.len(),
    ensures
        match r {
            Some((j, e)) => block_here(todos.deep_view(), text@.skip(p as int), 0) == Some(
                (j as int, e - p),
            ) && p < e <= text@.len(),
            None => block_here(todos.deep_view(), text@.skip(p as int), 0) is None,
        },
{
    let ghost ts = todos.deep_view();
    let ghost rest = text@.skip(p as int);
    let mut j: usize = 0;
    while j < todos.len()
        invariant
            j <= todos@.len(),
            p <= text@.len(),
            ts == todos.deep_view(),
            ts.len() == todos@.len(),
            rest == text@.skip(p as int),
            block_here(ts, rest, 0) == block_here(ts, rest, j as int),
        decreases todos.len() - j,
    {
        proof {
            assert(ts[j as int] == todos@[j as int]@);
            lemma_block_end_shift(text@, p as int, ts[j as int]);
        }
        match block_match_exec(text, p, &todos[j]) {
            Some(e) => {
                return Some((j, e));
            },
            None => {},
        }
        j = j + 1;
    }
    None
}

/// Deletes, for every annotation whose issue id is set, each occurrence of
/// its whole reported block, including one trailing line separator when it
/// is there.  Occurrences are found scanning once from the left, the
/// annotations being tried in order at each position; text in which no block
/// occurs comes back unchanged.
pub fn remove_todos(input: &str, todos: &[Todo]) -> (r: String)
    ensures
        r@ == remove_text(input@, todos.deep_view()),
{
    let ghost ts = todos.deep_view();
    let text = str_chars(input);
    let mut out: Vec<char> = Vec::new();
    let mut p: usize = 0;
    proof {
        assert(text@.skip(0) =~= text@);
        assert(out@ + remove_text(text@, ts) =~= remove_text(text@, ts));
    }
    while p < text.len()
        invariant
            p <= text@.len(),
            text@ == input@,
            ts == todos.deep_view(),
            remove_text(input@, ts) == out@ + remove_text(text@.skip(p as int), ts),
        decreases text.len() - p,
    {
        let ghost rest = text@.skip(p as int);
        match find_block(todos, &text, p) {
            Some((j, e)) => {
                proof {
                    assert(rest.skip(e - p) =~= text@.skip(e as int));
                    assert(remove_text(rest, ts) == remove_text(text@.skip(e as int), ts));
                }
                p = e;
            },
            None => {
                let ghost oout = out@;
                out.push(text[p]);
                proof {
                    assert(rest[0] == text@[p as int]);
                    assert(rest.skip(1) =~= text@.skip(p + 1));
                    assert(out@ =~= oout + seq![rest[0]]);
                }
                p = p + 1;
            },
        }
    }
    proof {
        assert(text@.skip(text@.len() as int) =~= Seq::<char>::empty());
        assert(out@ + Seq::<char>::empty() =~= out@);
    }
    chars_string(&out)
}

} // verus!
