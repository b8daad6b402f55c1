//! Escaping of literal text for embedding in a regular-expression pattern.
//!
//! The generated match patterns embed user-written comment text verbatim, so
//! every regex metacharacter in that text is prefixed with a backslash.  The
//! escaping is purely per-character and is stated exactly by `escape_text`.
use vstd::prelude::*;

verus! {

/// A character that carries meaning inside a regular expression and must be
/// escaped when it is meant literally.
pub open spec fn is_meta_char(c: char) -> bool {
    ||| c == '\\'
    ||| c == '.'
    ||| c == '+'
    ||| c == '*'
    ||| c == '?'
    ||| c == '('
    ||| c == ')'
    ||| c == '|'
    ||| c == '['
    ||| c == ']'
    ||| c == '{'
    ||| c == '}'
    ||| c == '^'
    ||| c == '$'
    ||| c == '#'
    ||| c == '&'
    ||| c == '-'
    ||| c == '~'
}

/// One escaped character: a backslash is put before a metacharacter, any
/// other character stands unchanged.
pub open spec fn escape_char(c: char) -> Seq<char> {
    if is_meta_char(c) {
        seq!['\\', c]
    } else {
        seq![c]
    }
}

/// The whole text escaped character by character.
pub open spec fn escape_text(s: Seq<char>) -> Seq<char>
    decreases s.len(),
{
    if s.len() == 0 {
        Seq::<char>::empty()
    } else {
        escape_char(s[0]) + escape_text(s.skip(1))
    }
}

/// Escaping distributes over concatenation.
pub proof fn lemma_escape_text_concat(a: Seq<char>, b: Seq<char>)
    ensures
        escape_text(a + b) == escape_text(a) + escape_text(b),
    decreases a.len(),
{
    if a.len() == 0 {
        assert(a + b == b);
        assert(escape_text(a) + escape_text(b) == escape_text(b));
    } else {
        assert((a + b).skip(1) == a.skip(1) + b);
        lemma_escape_text_concat(a.skip(1), b);
        assert(escape_char((a + b)[0]) == escape_char(a[0]));
        assert(escape_text(a + b) == escape_char(a[0]) + (escape_text(a.skip(1)) + escape_text(b)));
        assert(escape_char(a[0]) + (escape_text(a.skip(1)) + escape_text(b)) == (escape_char(a[0])
            + escape_text(a.skip(1))) + escape_text(b));
    }
}

/// Whether a character is a regex metacharacter, decided in executable code.
pub fn is_meta(c: char) -> (r: bool)
    ensures
        r == is_meta_char(c),
{
    c == '\\' || c == '.' || c == '+' || c == '*' || c == '?' || c == '(' || c == ')' || c == '|'
        || c == '[' || c == ']' || c == '{' || c == '}' || c == '^' || c == '$' || c == '#'
        || c == '&' || c == '-' || c == '~'
}

/// Escapes a text so that a regex engine reads it as the literal text itself.
pub fn escape_chars(s: &Vec<char>) -> (r: Vec<char>)
    ensures
        r@ == escape_text(s@),
{
    let mut out: Vec<char> = Vec::new();
    let mut i: usize = 0;
    while i < s.len()
        invariant
            i <= s.len(),
            out@ == escape_text(s@.take(i as int)),
        decreases s.len() - i,
    {
        proof {
            lemma_escape_prefix_step(s@, i as int);
        }
        let c = s[i];
        if is_meta(c) {
            out.push('\\');
        }
        out.push(c);
        proof {
            assert(out@ =~= escape_text(s@.take(i as int)) + escape_char(s@[i as int]));
        }
        i = i + 1;
    }
    proof {
        assert(s@.take(s@.len() as int) =~= s@);
    }
    out
}

/// Escaping one more character extends the escaped prefix by that character's
/// escape.
proof fn lemma_escape_prefix_step(s: Seq<char>, i: int)
    requires
        0 <= i < s.len(),
    ensures
        escape_text(s.take(i + 1)) == escape_text(s.take(i)) + escape_char(s[i]),
{
    assert(s.take(i + 1) =~= s.take(i) + seq![s[i]]);
    lemma_escape_text_concat(s.take(i), seq![s[i]]);
    assert(escape_text(seq![s[i]]) == escape_char(s[i]) + escape_text(seq![s[i]].skip(1)));
    assert(seq![s[i]].skip(1) =~= Seq::<char>::empty());
    assert(escape_char(s[i]) + Seq::<char>::empty() =~= escape_char(s[i]));
}

} // verus!
