//! The decisions of the listing, reporting and purging passes: which
//! annotations each pass works on.  Reading files, calling the issue
//! tracker and writing files back stay with the caller.
use vstd::prelude::*;

use crate::config::ConfigError;
use crate::todo::{Todo, TodoView};
use crate::todo_parser::{extract_text, find_todos};

verus! {

/// Whether a listing with the given flags shows an annotation: reported
/// ones only when `reported` is set, unreported ones only when `unreported`
/// is set.
pub open spec fn keep_listed(t: TodoView, reported: bool, unreported: bool) -> bool {
    if t.issue_id is None {
        unreported
    } else {
        reported
    }
}

/// The annotations a listing with the given flags shows, in order.
pub open spec fn listed(ts: Seq<TodoView>, reported: bool, unreported: bool) -> Seq<TodoView>
    decreases ts.len(),
{
    if ts.len() == 0 {
        Seq::<TodoView>::empty()
    } else {
        let rest = listed(ts.skip(1), reported, unreported);
        if keep_listed(ts[0], reported, unreported) {
            seq![ts[0]] + rest
        } else {
            rest
        }
    }
}

/// The listings of a split annotation list concatenate.
pub proof fn lemma_listed_concat(a: Seq<TodoView>, b: Seq<TodoView>, rep: bool, unrep: bool)
    ensures
        listed(a + b, rep, unrep) == listed(a, rep, unrep) + listed(b, rep, unrep),
    decreases a.len(),
{
    if a.len() == 0 {
        assert(a + b == b);
        assert(listed(a, rep, unrep) + listed(b, rep, unrep) == listed(b, rep, unrep));
    } else {
        assert((a + b).skip(1) == a.skip(1) + b);
        lemma_listed_concat(a.skip(1), b, rep, unrep);
        assert((a + b)[0] == a[0]);
        if keep_listed(a[0], rep, unrep) {
            assert(seq![a[0]] + (listed(a.skip(1), rep, unrep) + listed(b, rep, unrep)) == (
            seq![a[0]] + listed(a.skip(1), rep, unrep)) + listed(b, rep, unrep));
        }
    }
}

/// Whether a closed-issue set makes an annotation purgeable: it carries an
/// issue id and that id is among the closed ones.
pub open spec fn keep_closed(t: TodoView, closed: Seq<u32>) -> bool {
    match t.issue_id {
        Some(id) => closed.contains(id),
        None => false,
    }
}

/// The annotations whose issue is closed, in order.
pub open spec fn closed_of(ts: Seq<TodoView>, closed: Seq<u32>) -> Seq<TodoView>
    decreases ts.len(),
{
    if ts.len() == 0 {
        Seq::<TodoView>::empty()
    } else {
        let rest = closed_of(ts.skip(1), closed);
        if keep_closed(ts[0], closed) {
            seq![ts[0]] + rest
        } else {
            rest
        }
    }
}

/// The closed selections of a split annotation list concatenate.
pub proof fn lemma_closed_concat(a: Seq<TodoView>, b: Seq<TodoView>, closed: Seq<u32>)
    ensures
        closed_of(a + b, closed) == closed_of(a, closed) + closed_of(b, closed),
    decreases a.len(),
{
    if a.len() == 0 {
        assert(a + b == b);
        assert(closed_of(a, closed) + closed_of(b, closed) == closed_of(b, closed));
    } else {
        assert((a + b).skip(1) == a.skip(1) + b);
        lemma_closed_concat(a.skip(1), b, closed);
        assert((a + b)[0] == a[0]);
        if keep_closed(a[0], closed) {
            assert(seq![a[0]] + (closed_of(a.skip(1), closed) + closed_of(b, closed)) == (
            seq![a[0]] + closed_of(a.skip(1), closed)) + closed_of(b, closed));
        }
    }
}

/// Keeps the annotations a listing with the given flags shows: reported
/// ones only when `reported` is set, unreported ones only when `unreported`
/// is set.  With `unreported` alone set this is also the selection of the
/// reporting pass.
pub fn filter_todos(todos: Vec<Todo>, reported: bool, unreported: bool) -> (r: Vec<Todo>)
    ensures
        r.deep_view() == listed(todos.deep_view(), reported, unreported),
{
    let ghost ts = todos.deep_view();
    let mut out: Vec<Todo> = Vec::new();
    let mut todos = todos;
    let mut i: usize = 0;
    proof {
        assert(out.deep_view() =~= Seq::<TodoView>::empty());
    }
    while i < todos.len()
        invariant
            i <= todos@.len(),
            ts == todos.deep_view(),
            ts.len() == todos@.len(),
            out.deep_view() =~= listed(ts.take(i as int), reported, unreported),
        decreases todos.len() - i,
    {
        proof {
            assert(ts[i as int] == todos@[i as int]@);
            assert(ts.take(i + 1) =~= ts.take(i as int) + seq![ts[i as int]]);
            lemma_listed_concat(ts.take(i as int), seq![ts[i as int]], reported, unreported);
            assert(seq![ts[i as int]].skip(1) =~= Seq::<TodoView>::empty());
        }
        let keep = match todos[i].issue_id {
            None => unreported,
            Some(_) => reported,
        };
        if keep {
            let ghost prev = out@;
            proof {
                assert(out.deep_view().len() == out@.len());
                assert(listed(Seq::<TodoView>::empty(), reported, unreported)
                    == Seq::<TodoView>::empty());
                assert(listed(seq![ts[i as int]], reported, unreported) =~= seq![ts[i as int]]);
            }
            let t = todos[i].clone_todo();
            out.push(t);
            proof {
                assert forall|m: int| 0 <= m < out@.len() implies out.deep_view()[m] == (listed(
                    ts.take(i as int),
                    reported,
                    unreported,
                ) + seq![ts[i as int]])[m] by {
                    assert(out.deep_view()[m] == out@[m]@);
                    if m < prev.len() {
                        assert(out@[m] == prev[m]);
                        assert(listed(ts.take(i as int), reported, unreported)[m] == prev[m]@);
                    }
                }
                assert(out.deep_view() =~= listed(ts.take(i + 1), reported, unreported));
            }
        } else {
            proof {
                assert(listed(Seq::<TodoView>::empty(), reported, unreported)
                    == Seq::<TodoView>::empty());
                assert(listed(seq![ts[i as int]], reported, unreported) =~= Seq::<TodoView>::empty());
                assert(listed(ts.take(i as int), reported, unreported)
                    + Seq::<TodoView>::empty() =~= listed(ts.take(i as int), reported, unreported));
                assert(out.deep_view() =~= listed(ts.take(i + 1), reported, unreported));
            }
        }
        i = i + 1;
    }
    proof {
        assert(ts.take(ts.len() as int) =~= ts);
    }
    out
}

/// Whether the id is among the closed ones.
fn contains_id(closed: &Vec<u32>, id: u32) -> (r: bool)
    ensures
        r == closed@.contains(id),
{
    let mut i: usize = 0;
    while i < closed.len()
        invariant
            i <= closed@.len(),
            forall|m: int| 0 <= m < i ==> closed@[m] != id,
        decreases closed.len() - i,
    {
        if closed[i] == id {
            return true;
        }
        i = i + 1;
    }
    proof {
        assert(forall|m: int| 0 <= m < closed@.len() ==> closed@[m] != id);
    }
    false
}

/// Keeps the annotations whose issue id is among the closed ones: what the
/// purging pass deletes from the text.
pub fn closed_todos(todos: Vec<Todo>, closed: &Vec<u32>) -> (r: Vec<Todo>)
    ensures
        r.deep_view() == closed_of(todos.deep_view(), closed@),
{
    let ghost ts = todos.deep_view();
    let mut out: Vec<Todo> = Vec::new();
    let mut todos = todos;
    let mut i: usize = 0;
    proof {
        assert(out.deep_view() =~= Seq::<TodoView>::empty());
    }
    while i < todos.len()
        invariant
            i <= todos@.len(),
            ts == todos.deep_view(),
            ts.len() == todos@.len(),
            out.deep_view() =~= closed_of(ts.take(i as int), closed@),
        decreases todos.len() - i,
    {
        proof {
            assert(ts[i as int] == todos@[i as int]@);
            assert(ts.take(i + 1) =~= ts.take(i as int) + seq![ts[i as int]]);
            lemma_closed_concat(ts.take(i as int), seq![ts[i as int]], closed@);
            assert(seq![ts[i as int]].skip(1) =~= Seq::<TodoView>::empty());
        }
        let keep = match todos[i].issue_id {
            None => false,
            Some(id) => contains_id(closed, id),
        };
        if keep {
            let ghost prev = out@;
            proof {
                assert(out.deep_view().len() == out@.len());
                assert(closed_of(Seq::<TodoView>::empty(), closed@) == Seq::<TodoView>::empty());
                assert(closed_of(seq![ts[i as int]], closed@) =~= seq![ts[i as int]]);
            }
            let t = todos[i].clone_todo();
            out.push(t);
            proof {
                assert forall|m: int| 0 <= m < out@.len() implies out.deep_view()[m] == (closed_of(
                    ts.take(i as int),
                    closed@,
                ) + seq![ts[i as int]])[m] by {
                    assert(out.deep_view()[m] == out@[m]@);
                    if m < prev.len() {
                        assert(out@[m] == prev[m]);
                        assert(closed_of(ts.take(i as int), closed@)[m] == prev[m]@);
                    }
                }
                assert(out.deep_view() =~= closed_of(ts.take(i + 1), closed@));
            }
        } else {
            proof {
                assert(closed_of(Seq::<TodoView>::empty(), closed@) == Seq::<TodoView>::empty());
                assert(closed_of(seq![ts[i as int]], closed@) =~= Seq::<TodoView>::empty());
                assert(closed_of(ts.take(i as int), closed@) + Seq::<TodoView>::empty()
                    =~= closed_of(ts.take(i as int), closed@));
                assert(out.deep_view() =~= closed_of(ts.take(i + 1), closed@));
            }
        }
        i = i + 1;
    }
    proof {
        assert(ts.take(ts.len() as int) =~= ts);
    }
    out
}

/// Scans a text for annotations, first checking the configuration: with no
/// keyword configured nothing could ever match, so that is refused as a
/// missing configuration value rather than answered with silence.
pub fn extract_todos(keywords: &[String], input: &str) -> (r: Result<Vec<Todo>, ConfigError>)
    requires
        input@.len() < u32::MAX as nat,
    ensures
        r is Ok <==> keywords@.len() > 0,
        r matches Ok(v) ==> v.deep_view() == extract_text(keywords.deep_view(), input@),
        r matches Err(e) ==> e matches ConfigError::MissingValue(m) && m@ == "keywords"@,
{
    if keywords.len() == 0 {
        Err(ConfigError::MissingValue("keywords".to_owned()))
    } else {
        Ok(find_todos(keywords, input))
    }
}

} // verus!
