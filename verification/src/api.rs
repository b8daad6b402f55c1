//! What the issue tracker is told about an annotation: the body text built
//! from its continuation comments.
use vstd::prelude::*;

use crate::todo::Todo;

verus! {

/// The issue body built from the comments: comments are joined by single
/// spaces, and an empty comment becomes a line break (a paragraph break in
/// the issue), with no space around it.  The flag says whether the piece
/// before was a non-empty comment.
pub open spec fn comment_body(comments: Seq<Seq<char>>, prev_nonempty: bool) -> Seq<char>
    decreases comments.len(),
{
    if comments.len() == 0 {
        Seq::<char>::empty()
    } else {
        let c = comments[0];
        if c.len() == 0 {
            seq!['\n'] + comment_body(comments.skip(1), false)
        } else if prev_nonempty {
            seq![' '] + c + comment_body(comments.skip(1), true)
        } else {
            c + comment_body(comments.skip(1), true)
        }
    }
}

/// Builds the issue body reported for an annotation: its comments joined by
/// single spaces, an empty comment standing for a paragraph break.
pub fn create_comment_string(todo: &Todo) -> (r: String)
    ensures
        r@ == comment_body(todo@.comments, false),
{
    let ghost cs = todo@.comments;
    let mut out: Vec<char> = Vec::new();
    let mut prev_nonempty: bool = false;
    let mut i: usize = 0;
    proof {
        assert(cs.skip(0) =~= cs);
        assert(out@ + comment_body(cs, false) =~= comment_body(cs, false));
    }
    while i < todo.comments.len()
        invariant
            i <= todo.comments@.len(),
            cs == todo@.comments,
            cs.len() == todo.comments@.len(),
            comment_body(cs, false) == out@ + comment_body(cs.skip(i as int), prev_nonempty),
        decreases todo.comments.len() - i,
    {
        let ghost rest = cs.skip(i as int);
        proof {
            assert(rest[0] == cs[i as int]);
            assert(rest.skip(1) =~= cs.skip(i + 1));
            assert(todo@.comments[i as int] == todo.comments[i as int]@);
        }
        let ghost oout = out@;
        let c = &todo.comments[i];
        if c.unicode_len() == 0 {
            out.push('\n');
            proof {
                assert(out@ =~= oout + seq!['\n']);
            }
            prev_nonempty = false;
        } else {
            if prev_nonempty {
                out.push(' ');
            }
            let mut cc = crate::text::str_chars(c.as_str());
            let ghost mid = out@;
            out.append(&mut cc);
            proof {
                if prev_nonempty {
                    assert(mid =~= oout + seq![' ']);
                    assert(out@ =~= oout + (seq![' '] + rest[0]));
                } else {
                    assert(out@ =~= oout + rest[0]);
                }
            }
            prev_nonempty = true;
        }
        i = i + 1;
    }
    proof {
        assert(cs.skip(cs.len() as int) =~= Seq::<Seq<char>>::empty());
        assert(out@ + Seq::<char>::empty() =~= out@);
    }
    crate::text::chars_string(&out)
}

} // verus!
