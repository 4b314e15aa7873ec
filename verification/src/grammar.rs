//! What a text of subscripts means.
//!
//! ```text
//! index      = 'a' | 'b' | ... | 'z'
//! ellipsis   = "..."
//! subscript  = { index }, [ ellipsis, { index } ]
//! subscripts = subscript, { ',', subscript }, [ "->", subscript ]
//! ```
//!
//! Spaces, tabs, carriage returns and line feeds may stand before and after
//! every index, ellipsis, comma and arrow; they mean nothing.
//! Each function here reads the longest beginning of the text that has
//! the form it looks for, and gives back what it read and the rest of
//! the text. Spaces that are followed by nothing of that form stay with the rest.

use vstd::prelude::*;
use crate::parser::{RawSubscriptView, RawSubscriptsView};
use crate::text::is_index;

verus! {

/// Spaces, tabs, carriage returns and line feeds separate nothing and
/// mean nothing.
pub open spec fn is_space(c: char) -> bool {
    c == ' ' || c == '\t' || c == '\r' || c == '\n'
}

/// Whether `s` begins with `head`.
pub open spec fn begins_with(s: Seq<char>, head: Seq<char>) -> bool {
    head.is_prefix_of(s)
}

/// The text after its leading spaces.
pub open spec fn skip_spaces(s: Seq<char>) -> Seq<char>
    decreases s.len(),
{
    if s.len() > 0 && is_space(s.first()) {
        skip_spaces(s.drop_first())
    } else {
        s
    }
}

/// An index at the very beginning of the text, and the rest.
pub open spec fn index(s: Seq<char>) -> Option<(char, Seq<char>)> {
    if s.len() > 0 && is_index(s.first()) {
        Some((s.first(), s.drop_first()))
    } else {
        None
    }
}

/// The rest of a text that begins with an ellipsis.
pub open spec fn ellipsis(s: Seq<char>) -> Option<Seq<char>> {
    if begins_with(s, "..."@) {
        Some(s.skip(3))
    } else {
        None
    }
}

/// The indices at the beginning of the text, each after any spaces, and the rest.
pub open spec fn indices(s: Seq<char>) -> (Seq<char>, Seq<char>)
    decreases s.len(),
{
    match index(skip_spaces(s)) {
        Some((c, rest)) => {
            proof {
                lemma_skip_spaces(s);
            }
            let (more, rest) = indices(rest);
            (seq![c] + more, rest)
        },
        None => (Seq::empty(), s),
    }
}

/// The subscript at the beginning of the text, and the rest.
pub open spec fn subscript(s: Seq<char>) -> (RawSubscriptView, Seq<char>) {
    let (start, rest) = indices(s);
    match ellipsis(skip_spaces(rest)) {
        Some(after) => {
            let (end, rest) = indices(skip_spaces(after));
            (RawSubscriptView::Ellipsis { start, end }, rest)
        },
        None => (RawSubscriptView::Indices(start), rest),
    }
}

/// The rest of a text that begins, after any spaces, with `mark`.
pub open spec fn after_mark(s: Seq<char>, mark: Seq<char>) -> Option<Seq<char>> {
    if begins_with(skip_spaces(s), mark) {
        Some(skip_spaces(s).skip(mark.len() as int))
    } else {
        None
    }
}

/// The subscripts at the beginning of the text that are each led in by a
/// comma, and the rest.
pub open spec fn more_inputs(s: Seq<char>) -> (Seq<RawSubscriptView>, Seq<char>)
    decreases s.len(),
{
    match after_mark(s, ","@) {
        Some(after) => {
            let (input, rest) = subscript(after);
            proof {
                reveal_strlit(",");
                lemma_skip_spaces(s);
                lemma_subscript_rest(after);
            }
            let (more, rest) = more_inputs(rest);
            (seq![input] + more, rest)
        },
        None => (Seq::empty(), s),
    }
}

/// The subscripts at the beginning of the text, and the rest.
pub open spec fn subscripts(s: Seq<char>) -> (RawSubscriptsView, Seq<char>) {
    let (first, rest) = subscript(skip_spaces(s));
    let (more, rest) = more_inputs(rest);
    let inputs = seq![first] + more;
    match after_mark(rest, "->"@) {
        Some(after) => {
            let (output, rest) = subscript(skip_spaces(after));
            (RawSubscriptsView { inputs, output: Some(output) }, rest)
        },
        None => (RawSubscriptsView { inputs, output: None }, rest),
    }
}

/// The subscripts that the whole text stands for; none where something
/// other than spaces is left.
pub open spec fn parse(s: Seq<char>) -> Option<RawSubscriptsView> {
    let (raw, rest) = subscripts(s);
    if skip_spaces(rest).len() == 0 {
        Some(raw)
    } else {
        None
    }
}

/// Skipping spaces leaves an end of the text that does not begin with a space.
pub proof fn lemma_skip_spaces(s: Seq<char>)
    ensures
        skip_spaces(s).len() <= s.len(),
        skip_spaces(s) == s.skip(s.len() - skip_spaces(s).len()),
        forall|i: int| 0 <= i < s.len() - skip_spaces(s).len() ==> is_space(#[trigger] s[i]),
        skip_spaces(s).len() > 0 ==> !is_space(skip_spaces(s).first()),
    decreases s.len(),
{
    if s.len() > 0 && is_space(s.first()) {
        let t = s.drop_first();
        lemma_skip_spaces(t);
        let k = t.len() - skip_spaces(t).len();
        assert(t.skip(k) == s.skip(k + 1));
        assert forall|i: int| 0 <= i < s.len() - skip_spaces(s).len() implies is_space(
            #[trigger] s[i],
        ) by {
            if i > 0 {
                assert(s[i] == t[i - 1]);
            }
        }
    } else {
        assert(s.skip(0) == s);
    }
}

/// What `indices` reads are indices, and what it leaves is an end of the text.
pub proof fn lemma_indices_rest(s: Seq<char>)
    ensures
        indices(s).1.len() <= s.len(),
        indices(s).1 == s.skip(s.len() - indices(s).1.len()),
        forall|i: int| 0 <= i < indices(s).0.len() ==> is_index(#[trigger] indices(s).0[i]),
    decreases s.len(),
{
    lemma_skip_spaces(s);
    match index(skip_spaces(s)) {
        Some((c, rest)) => {
            lemma_indices_rest(rest);
            let k = s.len() - skip_spaces(s).len();
            let j = rest.len() - indices(rest).1.len();
            assert(rest == s.skip(k + 1));
            assert(s.skip(k + 1).skip(j) == s.skip(k + 1 + j));
        },
        None => {
            assert(s.skip(0) == s);
        },
    }
}

/// What `subscript` reads is well formed, and what it leaves is an end of the text.
pub proof fn lemma_subscript_rest(s: Seq<char>)
    ensures
        subscript(s).1.len() <= s.len(),
        subscript(s).1 == s.skip(s.len() - subscript(s).1.len()),
        subscript(s).0.wf(),
{
    let (start, rest) = indices(s);
    reveal_strlit("...");
    lemma_indices_rest(s);
    lemma_skip_spaces(rest);
    match ellipsis(skip_spaces(rest)) {
        Some(after) => {
            lemma_skip_spaces(after);
            lemma_indices_rest(skip_spaces(after));
            let (end, last) = indices(skip_spaces(after));
            let a = s.len() - rest.len();
            let b = rest.len() - skip_spaces(rest).len();
            let c = after.len() - skip_spaces(after).len();
            let d = skip_spaces(after).len() - last.len();
            assert(s.skip(a).skip(b) == s.skip(a + b));
            assert(s.skip(a + b).skip(3) == s.skip(a + b + 3));
            assert(s.skip(a + b + 3).skip(c) == s.skip(a + b + 3 + c));
            assert(s.skip(a + b + 3 + c).skip(d) == s.skip(a + b + 3 + c + d));
            crate::text::lemma_are_indices_concat(start, end);
        },
        None => {},
    }
}

/// What `more_inputs` reads is well formed.
pub proof fn lemma_more_inputs_wf(s: Seq<char>)
    ensures
        forall|i: int| 0 <= i < more_inputs(s).0.len() ==> (#[trigger] more_inputs(s).0[i]).wf(),
        more_inputs(s).1.len() <= s.len(),
    decreases s.len(),
{
    match after_mark(s, ","@) {
        Some(after) => {
            reveal_strlit(",");
            lemma_skip_spaces(s);
            lemma_subscript_rest(after);
            let (input, rest) = subscript(after);
            lemma_more_inputs_wf(rest);
            let (more, last) = more_inputs(rest);
            assert(more_inputs(s) == (seq![input] + more, last));
            assert forall|i: int| 0 <= i < more_inputs(s).0.len() implies (
            #[trigger] more_inputs(s).0[i]).wf() by {
                if i > 0 {
                    assert(more_inputs(s).0[i] == more[i - 1]);
                }
            }
        },
        None => {},
    }
}

/// What `subscripts` reads is well formed.
pub proof fn lemma_subscripts_wf(s: Seq<char>)
    ensures
        subscripts(s).0.wf(),
{
    let (first, rest) = subscript(skip_spaces(s));
    lemma_subscript_rest(skip_spaces(s));
    lemma_more_inputs_wf(rest);
    let (more, rest) = more_inputs(rest);
    match after_mark(rest, "->"@) {
        Some(after) => {
            lemma_subscript_rest(skip_spaces(after));
        },
        None => {},
    }
}

} // verus!
