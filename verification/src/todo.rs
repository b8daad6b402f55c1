//! The annotation record extracted from one TODO-style comment block, and the
//! exact literal texts derived from it: the unreported and reported header
//! forms and the block-matching pattern used when a closed block is removed.
use vstd::prelude::*;

use crate::escape::{escape_chars, escape_text};
use crate::text::{chars_string, dec_str, str_chars, u32_dec_chars};

verus! {

/// The mathematical content of an annotation: its texts as character
/// sequences.
#[verifier::ext_equal]
pub ghost struct TodoView {
    pub line: u32,
    pub prefix: Seq<char>,
    pub keyword: Seq<char>,
    pub title: Seq<char>,
    pub issue_id: Option<u32>,
    pub comments: Seq<Seq<char>>,
}

/// One annotation: a header line (with or without an issue marker) and the
/// continuation-comment lines that belong to its block.
#[derive(Debug, Clone)]
pub struct Todo {
    /// 1-based number of the header line in the scanned text.
    pub line: u32,
    /// Literal leading text before the keyword, kept verbatim.
    pub prefix: String,
    /// The trigger word that opened the block.
    pub keyword: String,
    /// The single-line description after the colon and space.
    pub title: String,
    /// The tracker's identifier, once the annotation has been reported.
    pub issue_id: Option<u32>,
    /// Continuation lines in source order; an empty entry is a bare-prefix
    /// line that separates paragraphs inside the block.
    pub comments: Vec<String>,
}

impl DeepView for Todo {
    type V = TodoView;

    open spec fn deep_view(&self) -> TodoView {
        self.view()
    }
}

impl View for Todo {
    type V = TodoView;

    open spec fn view(&self) -> TodoView {
        TodoView {
            line: self.line,
            prefix: self.prefix@,
            keyword: self.keyword@,
            title: self.title@,
            issue_id: self.issue_id,
            comments: self.comments.deep_view(),
        }
    }
}

/// The two characters that separate the keyword part from the title.
pub open spec fn colon_space() -> Seq<char> {
    seq![':', ' ']
}

/// The issue marker written into a reported header.
pub open spec fn marker_text(id: u32) -> Seq<char> {
    seq!['(', '#'] + dec_str(id as nat) + seq![')']
}

/// The header line of an annotation that carries no issue marker.
pub open spec fn unreported_header(t: TodoView) -> Seq<char> {
    t.prefix + t.keyword + colon_space() + t.title
}

/// The header line of an annotation stamped with its issue marker.
pub open spec fn reported_header(t: TodoView) -> Seq<char>
    recommends
        t.issue_id is Some,
{
    t.prefix + t.keyword + marker_text(t.issue_id->0) + colon_space() + t.title
}

/// The header line as it stands in the source, reported or not.
pub open spec fn header_text(t: TodoView) -> Seq<char> {
    if t.issue_id is Some {
        reported_header(t)
    } else {
        unreported_header(t)
    }
}

/// One continuation line as it stands in the source: the prefix followed by
/// the comment text (a bare prefix when the comment is empty).
pub open spec fn comment_line(prefix: Seq<char>, comment: Seq<char>) -> Seq<char> {
    prefix + comment
}

/// The pattern piece accepting one line separator, either bare or preceded by
/// a carriage return.
pub open spec fn sep_alt() -> Seq<char> {
    seq!['(', '\r', '\n', '|', '\n', ')']
}

/// The pattern pieces for the continuation lines of a block, each preceded by
/// a line-separator alternative.
pub open spec fn comments_pattern(prefix: Seq<char>, comments: Seq<Seq<char>>) -> Seq<char>
    decreases comments.len(),
{
    if comments.len() == 0 {
        Seq::<char>::empty()
    } else {
        sep_alt() + escape_text(comment_line(prefix, comments[0])) + comments_pattern(
            prefix,
            comments.skip(1),
        )
    }
}

/// The block-matching pattern of a reported annotation: the escaped reported
/// header, each continuation line after a separator alternative, and one
/// optional trailing separator.
pub open spec fn block_pattern(t: TodoView) -> Seq<char>
    recommends
        t.issue_id is Some,
{
    escape_text(reported_header(t)) + comments_pattern(t.prefix, t.comments) + sep_alt()
        + seq!['?']
}

/// The continuation pieces of a split comment list concatenate.
pub proof fn lemma_comments_pattern_concat(prefix: Seq<char>, a: Seq<Seq<char>>, b: Seq<Seq<char>>)
    ensures
        comments_pattern(prefix, a + b) == comments_pattern(prefix, a) + comments_pattern(
            prefix,
            b,
        ),
    decreases a.len(),
{
    if a.len() == 0 {
        assert(a + b == b);
        assert(comments_pattern(prefix, a) + comments_pattern(prefix, b) == comments_pattern(
            prefix,
            b,
        ));
    } else {
        assert((a + b).skip(1) == a.skip(1) + b);
        lemma_comments_pattern_concat(prefix, a.skip(1), b);
        assert((a + b)[0] == a[0]);
        assert(comments_pattern(prefix, a + b) == sep_alt() + escape_text(
            comment_line(prefix, a[0]),
        ) + (comments_pattern(prefix, a.skip(1)) + comments_pattern(prefix, b)));
        assert(sep_alt() + escape_text(comment_line(prefix, a[0])) + (comments_pattern(
            prefix,
            a.skip(1),
        ) + comments_pattern(prefix, b)) == (sep_alt() + escape_text(comment_line(prefix, a[0]))
            + comments_pattern(prefix, a.skip(1))) + comments_pattern(prefix, b));
    }
}

/// The listing rendering of the continuation lines: each on a line of its
/// own, indented by two spaces.
pub open spec fn display_comments(comments: Seq<Seq<char>>) -> Seq<char>
    decreases comments.len(),
{
    if comments.len() == 0 {
        Seq::<char>::empty()
    } else {
        seq!['\n', ' ', ' '] + comments[0] + display_comments(comments.skip(1))
    }
}

/// The listing rendering of an annotation: line number, keyword with the
/// issue marker if one is assigned, title, and the indented comments.
pub open spec fn display_text(t: TodoView) -> Seq<char> {
    dec_str(t.line as nat) + colon_space() + t.keyword + (if t.issue_id is Some {
        marker_text(t.issue_id->0)
    } else {
        Seq::<char>::empty()
    }) + colon_space() + t.title + display_comments(t.comments) + seq!['\n']
}

/// The rendered comment pieces of a split comment list concatenate.
pub proof fn lemma_display_comments_concat(a: Seq<Seq<char>>, b: Seq<Seq<char>>)
    ensures
        display_comments(a + b) == display_comments(a) + display_comments(b),
    decreases a.len(),
{
    if a.len() == 0 {
        assert(a + b == b);
        assert(display_comments(a) + display_comments(b) == display_comments(b));
    } else {
        assert((a + b).skip(1) == a.skip(1) + b);
        lemma_display_comments_concat(a.skip(1), b);
        assert((a + b)[0] == a[0]);
        assert(display_comments(a + b) == seq!['\n', ' ', ' '] + a[0] + (display_comments(
            a.skip(1),
        ) + display_comments(b)));
        assert(seq!['\n', ' ', ' '] + a[0] + (display_comments(a.skip(1)) + display_comments(b))
            == (seq!['\n', ' ', ' '] + a[0] + display_comments(a.skip(1))) + display_comments(b));
    }
}

impl Todo {
    /// The characters of the stamped header line.
    pub(crate) fn reported_header_chars(&self, id: u32) -> (v: Vec<char>)
        requires
            self.issue_id == Some(id),
        ensures
            v@ == reported_header(self@),
    {
        let mut v = str_chars(self.prefix.as_str());
        let mut k = str_chars(self.keyword.as_str());
        v.append(&mut k);
        v.push('(');
        v.push('#');
        let mut d = u32_dec_chars(id);
        v.append(&mut d);
        v.push(')');
        v.push(':');
        v.push(' ');
        let mut t = str_chars(self.title.as_str());
        v.append(&mut t);
        proof {
            assert(v@ =~= reported_header(self@));
        }
        v
    }

    /// The characters of the header line without an issue marker.
    pub(crate) fn unreported_header_chars(&self) -> (v: Vec<char>)
        ensures
            v@ == unreported_header(self@),
    {
        let mut v = str_chars(self.prefix.as_str());
        let mut k = str_chars(self.keyword.as_str());
        v.append(&mut k);
        v.push(':');
        v.push(' ');
        let mut t = str_chars(self.title.as_str());
        v.append(&mut t);
        proof {
            assert(v@ =~= unreported_header(self@));
        }
        v
    }

    /// The header line as it reads once the annotation has been reported, or
    /// nothing while no issue id has been assigned.
    pub fn reported_view(&self) -> (r: Option<String>)
        ensures
            match r {
                Some(s) => self.issue_id is Some && s@ == reported_header(self@),
                None => self.issue_id is None,
            },
    {
        match self.issue_id {
            None => None,
            Some(id) => {
                let v = self.reported_header_chars(id);
                Some(chars_string(&v))
            },
        }
    }

    /// The exact-literal pattern matching the unreported header line.
    pub fn unreported_pattern(&self) -> (r: String)
        ensures
            r@ == escape_text(unreported_header(self@)),
    {
        let v = self.unreported_header_chars();
        let escaped = escape_chars(&v);
        chars_string(&escaped)
    }

    /// The block-matching pattern of the reported form, covering the header,
    /// every continuation line, and an optional trailing line separator; or
    /// nothing while no issue id has been assigned.
    pub fn reported_pattern(&self) -> (r: Option<String>)
        ensures
            match r {
                Some(s) => self.issue_id is Some && s@ == block_pattern(self@),
                None => self.issue_id is None,
            },
    {
        match self.issue_id {
            None => None,
            Some(id) => {
                let head = self.reported_header_chars(id);
                let mut p = escape_chars(&head);
                let prefix_chars = str_chars(self.prefix.as_str());
                let mut i: usize = 0;
                while i < self.comments.len()
                    invariant
                        i <= self.comments.len(),
                        prefix_chars@ == self@.prefix,
                        p@ == escape_text(reported_header(self@)) + comments_pattern(
                            self@.prefix,
                            self@.comments.take(i as int),
                        ),
                    decreases self.comments.len() - i,
                {
                    p.push('(');
                    p.push('\r');
                    p.push('\n');
                    p.push('|');
                    p.push('\n');
                    p.push(')');
                    let mut line = prefix_chars.clone();
                    let mut c = str_chars(self.comments[i].as_str());
                    line.append(&mut c);
                    let mut esc = escape_chars(&line);
                    p.append(&mut esc);
                    proof {
                        assert(self@.comments[i as int] == self.comments[i as int]@);
                        assert(line@ == comment_line(self@.prefix, self@.comments[i as int]));
                        assert(self@.comments.take(i + 1) =~= self@.comments.take(i as int)
                            + seq![self@.comments[i as int]]);
                        lemma_comments_pattern_concat(
                            self@.prefix,
                            self@.comments.take(i as int),
                            seq![self@.comments[i as int]],
                        );
                        assert(seq![self@.comments[i as int]].skip(1) =~= Seq::<Seq<char>>::empty());
                        assert(comments_pattern(self@.prefix, Seq::<Seq<char>>::empty())
                            == Seq::<char>::empty());
                        assert(comments_pattern(self@.prefix, seq![self@.comments[i as int]])
                            =~= sep_alt() + escape_text(
                            comment_line(self@.prefix, self@.comments[i as int]),
                        ));
                        assert(p@ =~= escape_text(reported_header(self@)) + comments_pattern(
                            self@.prefix,
                            self@.comments.take(i + 1),
                        ));
                    }
                    i = i + 1;
                }
                p.push('(');
                p.push('\r');
                p.push('\n');
                p.push('|');
                p.push('\n');
                p.push(')');
                p.push('?');
                proof {
                    assert(self@.comments.take(self.comments.len() as int) =~= self@.comments);
                    assert(p@ =~= block_pattern(self@));
                }
                Some(chars_string(&p))
            },
        }
    }

    /// A copy of this annotation, equal to it in every field.
    pub(crate) fn clone_todo(&self) -> (r: Todo)
        ensures
            r@ == self@,
    {
        let mut comments: Vec<String> = Vec::new();
        let mut i: usize = 0;
        while i < self.comments.len()
            invariant
                i <= self.comments@.len(),
                comments.deep_view() =~= self.comments.deep_view().take(i as int),
            decreases self.comments.len() - i,
        {
            let ghost prev = comments@;
            proof {
                assert(comments.deep_view().len() == comments@.len());
                assert(prev.len() == i);
            }
            comments.push(self.comments[i].clone());
            proof {
                assert(comments.deep_view().len() == comments@.len());
                assert(self.comments.deep_view()[i as int] == self.comments[i as int]@);
                assert forall|m: int| 0 <= m < comments@.len() implies comments.deep_view()[m]
                    == self.comments.deep_view().take(i + 1)[m] by {
                    assert(comments.deep_view()[m] == comments@[m]@);
                    if m < prev.len() {
                        assert(comments@[m] == prev[m]);
                        assert(self.comments.deep_view().take(i as int)[m] == prev[m]@);
                    }
                }
                assert(comments.deep_view() =~= self.comments.deep_view().take(i + 1));
            }
            i = i + 1;
        }
        proof {
            assert(self.comments.deep_view().take(self.comments@.len() as int)
                =~= self.comments.deep_view());
        }
        let r = Todo {
            line: self.line,
            prefix: self.prefix.clone(),
            keyword: self.keyword.clone(),
            title: self.title.clone(),
            issue_id: self.issue_id,
            comments,
        };
        proof {
            assert(r@ =~= self@);
        }
        r
    }

    /// The listing line printed for this annotation: its line number, keyword
    /// (with the issue marker once reported), title, and indented comments.
    pub fn display_string(&self) -> (r: String)
        ensures
            r@ == display_text(self@),
    {
        let mut v = u32_dec_chars(self.line);
        v.push(':');
        v.push(' ');
        let mut k = str_chars(self.keyword.as_str());
        v.append(&mut k);
        match self.issue_id {
            Some(id) => {
                v.push('(');
                v.push('#');
                let mut d = u32_dec_chars(id);
                v.append(&mut d);
                v.push(')');
            },
            None => {},
        }
        v.push(':');
        v.push(' ');
        let mut t = str_chars(self.title.as_str());
        v.append(&mut t);
        let ghost lead = dec_str(self@.line as nat) + colon_space() + self@.keyword + (
        if self@.issue_id is Some {
            marker_text(self@.issue_id->0)
        } else {
            Seq::<char>::empty()
        }) + colon_space() + self@.title;
        proof {
            assert(v@ =~= lead);
        }
        let mut i: usize = 0;
        while i < self.comments.len()
            invariant
                i <= self.comments.len(),
                v@ == lead + display_comments(self@.comments.take(i as int)),
            decreases self.comments.len() - i,
        {
            v.push('\n');
            v.push(' ');
            v.push(' ');
            let mut c = str_chars(self.comments[i].as_str());
            v.append(&mut c);
            proof {
                assert(self@.comments[i as int] == self.comments[i as int]@);
                assert(self@.comments.take(i + 1) =~= self@.comments.take(i as int)
                    + seq![self@.comments[i as int]]);
                lemma_display_comments_concat(
                    self@.comments.take(i as int),
                    seq![self@.comments[i as int]],
                );
                assert(seq![self@.comments[i as int]].skip(1) =~= Seq::<Seq<char>>::empty());
                assert(display_comments(Seq::<Seq<char>>::empty()) == Seq::<char>::empty());
                assert(display_comments(seq![self@.comments[i as int]]) =~= seq!['\n', ' ', ' ']
                    + self@.comments[i as int]);
                assert(v@ =~= lead + display_comments(self@.comments.take(i + 1)));
            }
            i = i + 1;
        }
        v.push('\n');
        proof {
            assert(self@.comments.take(self.comments.len() as int) =~= self@.comments);
            assert(v@ =~= display_text(self@));
        }
        chars_string(&v)
    }
}

/// String lists are equal exactly when they hold the same texts in the same
/// order.
pub(crate) fn vec_string_eq(a: &Vec<String>, b: &Vec<String>) -> (r: bool)
    ensures
        r == (a.deep_view() == b.deep_view()),
{
    if a.len() != b.len() {
        proof {
            assert(a.deep_view().len() == a@.len());
            assert(b.deep_view().len() == b@.len());
        }
        return false;
    }
    let mut i: usize = 0;
    while i < a.len()
        invariant
            i <= a.len(),
            a@.len() == b@.len(),
            forall|j: int| 0 <= j < i ==> a.deep_view()[j] == b.deep_view()[j],
        decreases a.len() - i,
    {
        if !a[i].eq(&b[i]) {
            proof {
                assert(a.deep_view()[i as int] == a[i as int]@);
                assert(b.deep_view()[i as int] == b[i as int]@);
            }
            return false;
        }
        proof {
            assert(a.deep_view()[i as int] == a[i as int]@);
            assert(b.deep_view()[i as int] == b[i as int]@);
        }
        i = i + 1;
    }
    proof {
        assert(a.deep_view() =~= b.deep_view());
    }
    true
}

impl PartialEq for Todo {
    /// Field-by-field comparison of two annotations.
    fn eq(&self, other: &Todo) -> (r: bool) {
        let ids_eq = match (self.issue_id, other.issue_id) {
            (None, None) => true,
            (Some(a), Some(b)) => a == b,
            _ => false,
        };
        let r = self.line == other.line && ids_eq && self.prefix.eq(&other.prefix)
            && self.keyword.eq(&other.keyword) && self.title.eq(&other.title) && vec_string_eq(
            &self.comments,
            &other.comments,
        );
        proof {
            if r {
                assert(self@ =~= other@);
            }
        }
        r
    }
}

impl vstd::std_specs::cmp::PartialEqSpecImpl for Todo {
    open spec fn obeys_eq_spec() -> bool {
        true
    }

    open spec fn eq_spec(&self, other: &Todo) -> bool {
        self@ == other@
    }
}

} // verus!
