//! How subscripts are written, and that reading a text undoes the writing.

use vstd::prelude::*;
use crate::grammar::{
    after_mark, begins_with, ellipsis, index, indices, is_space, lemma_skip_spaces,
    lemma_subscript_rest, more_inputs, parse, skip_spaces, subscript, subscripts,
};
use crate::parser::{RawSubscriptView, RawSubscriptsView};
use crate::text::{are_indices, is_index, lemma_are_indices_concat};

verus! {

/// The text without its spaces.
pub open spec fn strip(s: Seq<char>) -> Seq<char> {
    s.filter(|c: char| !is_space(c))
}

impl RawSubscriptView {
    /// The subscript as it is written: its indices, with `...` in the
    /// place of the ellipsis.
    pub open spec fn written(self) -> Seq<char> {
        match self {
            RawSubscriptView::Indices(indices) => indices,
            RawSubscriptView::Ellipsis { start, end } => start + "..."@ + end,
        }
    }
}

/// The subscripts `inputs` as they are written after a first one: each
/// led in by a comma.
pub open spec fn written_more(inputs: Seq<RawSubscriptView>) -> Seq<char>
    decreases inputs.len(),
{
    if inputs.len() == 0 {
        Seq::empty()
    } else {
        ","@ + inputs.first().written() + written_more(inputs.drop_first())
    }
}

impl RawSubscriptsView {
    /// The subscripts as they are written, without spaces: the inputs with
    /// commas between them, and then, in explicit mode, the arrow and the
    /// output.
    pub open spec fn written(self) -> Seq<char> {
        self.inputs.first().written() + written_more(self.inputs.drop_first()) + written_output(
            self.output,
        )
    }
}

/// Stripping a text strips its parts.
pub proof fn lemma_strip_concat(a: Seq<char>, b: Seq<char>)
    ensures
        strip(a + b) == strip(a) + strip(b),
{
    Seq::filter_distributes_over_add(a, b, |c: char| !is_space(c));
}

/// Stripping drops a space at the front and keeps anything else there.
pub proof fn lemma_strip_first(s: Seq<char>)
    requires
        s.len() > 0,
    ensures
        strip(s) == if is_space(s.first()) {
            strip(s.drop_first())
        } else {
            seq![s.first()] + strip(s.drop_first())
        },
{
    let head = seq![s.first()];
    assert(s == head + s.drop_first());
    lemma_strip_concat(head, s.drop_first());
    reveal(Seq::filter);
    assert(head.drop_last() == Seq::<char>::empty());
    assert(strip(head.drop_last()) == Seq::<char>::empty());
    assert(strip(head) == if is_space(s.first()) {
        Seq::<char>::empty()
    } else {
        head
    });
}

/// A text without spaces is its own stripped form.
pub proof fn lemma_strip_nothing(s: Seq<char>)
    requires
        forall|i: int| 0 <= i < s.len() ==> !is_space(#[trigger] s[i]),
    ensures
        strip(s) == s,
    decreases s.len(),
{
    if s.len() > 0 {
        lemma_strip_first(s);
        assert forall|i: int| 0 <= i < s.drop_first().len() implies !is_space(
            #[trigger] s.drop_first()[i],
        ) by {
            assert(s.drop_first()[i] == s[i + 1]);
        }
        lemma_strip_nothing(s.drop_first());
        assert(seq![s.first()] + s.drop_first() == s);
    } else {
        reveal(Seq::filter);
    }
}

/// Skipping spaces changes nothing of the stripped text.
pub proof fn lemma_strip_skip_spaces(s: Seq<char>)
    ensures
        strip(skip_spaces(s)) == strip(s),
    decreases s.len(),
{
    if s.len() > 0 && is_space(s.first()) {
        lemma_strip_first(s);
        lemma_strip_skip_spaces(s.drop_first());
    }
}

/// A text that begins with a mark without spaces has, stripped, the mark
/// and then the rest stripped.
pub proof fn lemma_strip_mark(s: Seq<char>, mark: Seq<char>)
    requires
        begins_with(s, mark),
        forall|i: int| 0 <= i < mark.len() ==> !is_space(#[trigger] mark[i]),
    ensures
        strip(s) == mark + strip(s.skip(mark.len() as int)),
{
    assert(s == mark + s.skip(mark.len() as int));
    lemma_strip_concat(mark, s.skip(mark.len() as int));
    lemma_strip_nothing(mark);
}

/// What `indices` reads and what it leaves make up the stripped text.
pub proof fn lemma_strip_indices(s: Seq<char>)
    ensures
        strip(s) == indices(s).0 + strip(indices(s).1),
    decreases s.len(),
{
    lemma_skip_spaces(s);
    lemma_strip_skip_spaces(s);
    match index(skip_spaces(s)) {
        Some((c, rest)) => {
            lemma_strip_first(skip_spaces(s));
            lemma_strip_indices(rest);
            let (more, last) = indices(rest);
            assert(seq![c] + (more + strip(last)) == (seq![c] + more) + strip(last));
        },
        None => {},
    }
}

/// What `subscript` reads and what it leaves make up the stripped text.
pub proof fn lemma_strip_subscript(s: Seq<char>)
    ensures
        strip(s) == subscript(s).0.written() + strip(subscript(s).1),
{
    let (start, rest) = indices(s);
    lemma_strip_indices(s);
    lemma_strip_skip_spaces(rest);
    match ellipsis(skip_spaces(rest)) {
        Some(after) => {
            reveal_strlit("...");
            lemma_strip_mark(skip_spaces(rest), "..."@);
            lemma_strip_skip_spaces(after);
            lemma_strip_indices(skip_spaces(after));
            let (end, last) = indices(skip_spaces(after));
            assert(start + ("..."@ + (end + strip(last))) == (start + "..."@ + end) + strip(last));
        },
        None => {},
    }
}

/// What `more_inputs` reads and what it leaves make up the stripped text.
pub proof fn lemma_strip_more_inputs(s: Seq<char>)
    ensures
        strip(s) == written_more(more_inputs(s).0) + strip(more_inputs(s).1),
    decreases s.len(),
{
    match after_mark(s, ","@) {
        Some(after) => {
            reveal_strlit(",");
            lemma_skip_spaces(s);
            lemma_strip_skip_spaces(s);
            lemma_strip_mark(skip_spaces(s), ","@);
            lemma_subscript_rest(after);
            lemma_strip_subscript(after);
            let (input, rest) = subscript(after);
            lemma_strip_more_inputs(rest);
            let (more, last) = more_inputs(rest);
            assert(more_inputs(s) == (seq![input] + more, last));
            let all = seq![input] + more;
            assert(all.first() == input);
            assert(all.drop_first() == more);
            assert(","@ + (input.written() + (written_more(more) + strip(last))) == (","@
                + input.written() + written_more(more)) + strip(last));
        },
        None => {},
    }
}

/// The output as it is written after the inputs: the arrow and the output,
/// or nothing in implicit mode.
pub open spec fn written_output(output: Option<RawSubscriptView>) -> Seq<char> {
    match output {
        Some(output) => "->"@ + output.written(),
        None => Seq::empty(),
    }
}

/// The output that `subscripts` reads after the inputs, and what it leaves,
/// make up the stripped text.
pub proof fn lemma_strip_output(s: Seq<char>)
    ensures
        match after_mark(s, "->"@) {
            Some(after) => strip(s) == "->"@ + subscript(skip_spaces(after)).0.written() + strip(
                subscript(skip_spaces(after)).1,
            ),
            None => true,
        },
{
    lemma_strip_skip_spaces(s);
    match after_mark(s, "->"@) {
        Some(after) => {
            reveal_strlit("->");
            lemma_strip_mark(skip_spaces(s), "->"@);
            lemma_strip_skip_spaces(after);
            lemma_strip_subscript(skip_spaces(after));
            let (output, last) = subscript(skip_spaces(after));
            assert("->"@ + (output.written() + strip(last)) == "->"@ + output.written() + strip(
                last,
            ));
        },
        None => {},
    }
}

/// What `subscripts` reads and what it leaves make up the stripped text.
pub proof fn lemma_strip_subscripts(s: Seq<char>)
    ensures
        strip(s) == subscripts(s).0.written() + strip(subscripts(s).1),
{
    lemma_strip_skip_spaces(s);
    lemma_strip_subscript(skip_spaces(s));
    let (first, rest) = subscript(skip_spaces(s));
    lemma_strip_more_inputs(rest);
    let (more, rest) = more_inputs(rest);
    let inputs = seq![first] + more;
    assert(inputs.first() == first);
    assert(inputs.drop_first() == more);
    lemma_strip_output(rest);
    let head = first.written() + written_more(more);
    assert(strip(s) == head + strip(rest)) by {
        assert(first.written() + (written_more(more) + strip(rest)) == head + strip(rest));
    }
    match after_mark(rest, "->"@) {
        Some(after) => {
            let (output, last) = subscript(skip_spaces(after));
            let tail = "->"@ + output.written();
            assert(subscripts(s).0.written() == head + tail);
            assert(head + (tail + strip(last)) == head + tail + strip(last));
        },
        None => {
            assert(subscripts(s).0.written() == head + Seq::<char>::empty());
            assert(head + Seq::<char>::empty() == head);
        },
    }
}

/// A text that stands for subscripts is, but for its spaces, those
/// subscripts as they are written.
pub proof fn lemma_parse_written(s: Seq<char>)
    requires
        parse(s) is Some,
    ensures
        strip(s) == parse(s)->0.written(),
{
    lemma_strip_subscripts(s);
    let rest = subscripts(s).1;
    lemma_strip_skip_spaces(rest);
    assert(skip_spaces(rest) == Seq::<char>::empty());
    reveal(Seq::filter);
    assert(strip(Seq::<char>::empty()) == Seq::<char>::empty());
}

/// Where a subscript may end: at the end of the text, before a comma, or
/// before an arrow.
pub open spec fn ends_subscript(tail: Seq<char>) -> bool {
    tail.len() == 0 || tail.first() == ',' || tail.first() == '-'
}

/// A text that does not begin with a space has no spaces to skip.
pub proof fn lemma_no_spaces_to_skip(s: Seq<char>)
    requires
        s.len() == 0 || !is_space(s.first()),
    ensures
        skip_spaces(s) == s,
{
}

/// Indices that are written without spaces are read back as they are, up
/// to where something else follows.
pub proof fn lemma_read_indices(v: Seq<char>, tail: Seq<char>)
    requires
        are_indices(v),
        index(skip_spaces(tail)) is None,
    ensures
        indices(v + tail) == (v, tail),
    decreases v.len(),
{
    if v.len() == 0 {
        assert(v + tail == tail);
    } else {
        let s = v + tail;
        assert(s.first() == v[0]);
        assert(is_index(v[0]));
        lemma_no_spaces_to_skip(s);
        assert(s.drop_first() == v.drop_first() + tail);
        assert forall|i: int| 0 <= i < v.drop_first().len() implies is_index(
            #[trigger] v.drop_first()[i],
        ) by {
            assert(v.drop_first()[i] == v[i + 1]);
        }
        lemma_read_indices(v.drop_first(), tail);
        assert(seq![v[0]] + v.drop_first() == v);
    }
}

/// A subscript that is written without spaces is read back as it is, up to
/// where it ends.
pub proof fn lemma_read_subscript(x: RawSubscriptView, tail: Seq<char>)
    requires
        x.wf(),
        ends_subscript(tail),
    ensures
        subscript(x.written() + tail) == (x, tail),
{
    reveal_strlit("...");
    lemma_no_spaces_to_skip(tail);
    match x {
        RawSubscriptView::Indices(v) => {
            lemma_read_indices(v, tail);
        },
        RawSubscriptView::Ellipsis { start, end } => {
            lemma_are_indices_concat(start, end);
            let dots = "..."@ + end + tail;
            assert(x.written() + tail == start + dots);
            assert(dots.first() == '.');
            lemma_no_spaces_to_skip(dots);
            lemma_read_indices(start, dots);
            assert(begins_with(dots, "..."@)) by {
                assert("..."@ =~= dots.subrange(0, 3));
            }
            assert(dots.skip(3) == end + tail);
            let after = end + tail;
            if end.len() > 0 {
                assert(after.first() == end[0]);
                assert(is_index(end[0]));
            } else {
                assert(after == tail);
            }
            lemma_no_spaces_to_skip(after);
            lemma_read_indices(end, tail);
        },
    }
}

/// Subscripts that are written without spaces, each after a comma, are
/// read back as they are, up to the arrow or the end of the text.
pub proof fn lemma_read_more(xs: Seq<RawSubscriptView>, tail: Seq<char>)
    requires
        forall|i: int| 0 <= i < xs.len() ==> (#[trigger] xs[i]).wf(),
        tail.len() == 0 || tail.first() == '-',
    ensures
        more_inputs(written_more(xs) + tail) == (xs, tail),
    decreases xs.len(),
{
    reveal_strlit(",");
    lemma_no_spaces_to_skip(tail);
    if xs.len() == 0 {
        assert(written_more(xs) + tail == tail);
        assert(!begins_with(tail, ","@)) by {
            if begins_with(tail, ","@) {
                assert(tail[0] == ","@[0]);
            }
        }
    } else {
        let s = written_more(xs) + tail;
        let rest = written_more(xs.drop_first()) + tail;
        let after = xs.first().written() + rest;
        assert(s == ","@ + after);
        assert(s.first() == ',');
        lemma_no_spaces_to_skip(s);
        assert(begins_with(s, ","@)) by {
            assert(","@ =~= s.subrange(0, 1));
        }
        assert(s.skip(1) == after);
        assert(ends_subscript(rest)) by {
            if xs.drop_first().len() > 0 {
                assert(rest.first() == ',');
            } else {
                assert(rest == tail);
            }
        }
        lemma_read_subscript(xs.first(), rest);
        assert forall|i: int| 0 <= i < xs.drop_first().len() implies (
        #[trigger] xs.drop_first()[i]).wf() by {
            assert(xs.drop_first()[i] == xs[i + 1]);
        }
        lemma_read_more(xs.drop_first(), tail);
        assert(seq![xs.first()] + xs.drop_first() == xs);
    }
}

/// Reading undoes writing: well-formed subscripts, written without
/// spaces, are read back as they are.
pub proof fn lemma_read_written(raw: RawSubscriptsView)
    requires
        raw.wf(),
    ensures
        parse(raw.written()) == Some(raw),
{
    reveal_strlit(",");
    reveal_strlit("->");
    reveal_strlit("...");
    let s = raw.written();
    let first = raw.inputs.first();
    let more = raw.inputs.drop_first();
    let tail = match raw.output {
        Some(output) => "->"@ + output.written(),
        None => Seq::<char>::empty(),
    };
    let rest = written_more(more) + tail;
    assert(s == first.written() + rest);
    assert(first.wf());
    assert(tail.len() == 0 || tail.first() == '-');
    assert(ends_subscript(rest)) by {
        if more.len() > 0 {
            assert(rest.first() == ',');
        } else {
            assert(rest == tail);
        }
    }
    assert(s.len() == 0 || !is_space(s.first())) by {
        if s.len() > 0 {
            if first.written().len() > 0 {
                assert(s.first() == first.written()[0]);
                match first {
                    RawSubscriptView::Indices(v) => {
                        assert(is_index(v[0]));
                    },
                    RawSubscriptView::Ellipsis { start, end } => {
                        lemma_are_indices_concat(start, end);
                        if start.len() > 0 {
                            assert(first.written()[0] == start[0]);
                            assert(is_index(start[0]));
                        } else {
                            assert(first.written()[0] == '.');
                        }
                    },
                }
            } else {
                assert(s == rest);
            }
        }
    }
    lemma_no_spaces_to_skip(s);
    lemma_read_subscript(first, rest);
    assert forall|i: int| 0 <= i < more.len() implies (#[trigger] more[i]).wf() by {
        assert(more[i] == raw.inputs[i + 1]);
    }
    lemma_read_more(more, tail);
    assert(seq![first] + more == raw.inputs);
    lemma_no_spaces_to_skip(tail);
    match raw.output {
        Some(output) => {
            assert(begins_with(tail, "->"@)) by {
                assert("->"@ =~= tail.subrange(0, 2));
            }
            assert(tail.skip(2) == output.written());
            let after = output.written();
            assert(after.len() == 0 || !is_space(after.first())) by {
                if after.len() > 0 {
                    match output {
                        RawSubscriptView::Indices(v) => {
                            assert(is_index(v[0]));
                        },
                        RawSubscriptView::Ellipsis { start, end } => {
                            lemma_are_indices_concat(start, end);
                            if start.len() > 0 {
                                assert(after[0] == start[0]);
                                assert(is_index(start[0]));
                            } else {
                                assert(after[0] == '.');
                            }
                        },
                    }
                }
            }
            lemma_no_spaces_to_skip(after);
            lemma_read_subscript(output, Seq::<char>::empty());
            assert(after + Seq::<char>::empty() == after);
        },
        None => {
            assert(!begins_with(tail, "->"@));
        },
    }
}

/// Spaces mean nothing: a text that stands for subscripts stands for the
/// same subscripts once all its spaces are taken out.
pub proof fn lemma_spaces_mean_nothing(s: Seq<char>)
    requires
        parse(s) is Some,
    ensures
        parse(strip(s)) == parse(s),
{
    lemma_parse_written(s);
    crate::grammar::lemma_subscripts_wf(s);
    lemma_read_written(parse(s)->0);
}

/// Two texts that stand for subscripts and differ only in their spaces
/// stand for the same subscripts.
pub proof fn lemma_same_but_for_spaces(s: Seq<char>, t: Seq<char>)
    requires
        parse(s) is Some,
        parse(t) is Some,
        strip(s) == strip(t),
    ensures
        parse(s) == parse(t),
{
    lemma_spaces_mean_nothing(s);
    lemma_spaces_mean_nothing(t);
}

} // verus!
