//! Subscripts as they are written: `ij,jk->ik`.

use vstd::prelude::*;
use vstd::string::*;
use crate::error::{Error, ErrorView};
use crate::grammar;
use crate::grammar::{after_mark, begins_with, is_space};
use crate::notation::{lemma_parse_written, strip};
use crate::text::{are_indices, check_index, lemma_are_indices_concat, push_index};

verus! {

/// The labels of one tensor, as written.
#[derive(Debug, PartialEq, Eq, Hash)]
pub enum RawSubscript {
    /// Indices without ellipsis, e.g. `ijk`.
    Indices(Vec<char>),
    /// Indices with ellipsis, e.g. `i...j`.
    Ellipsis { start: Vec<char>, end: Vec<char> },
}

/// What a [`RawSubscript`] holds.
pub enum RawSubscriptView {
    Indices(Seq<char>),
    Ellipsis { start: Seq<char>, end: Seq<char> },
}

impl RawSubscriptView {
    /// The indices in the order in which they address a tensor element:
    /// those before the ellipsis, then those after it.
    pub open spec fn indices(self) -> Seq<char> {
        match self {
            RawSubscriptView::Indices(indices) => indices,
            RawSubscriptView::Ellipsis { start, end } => start + end,
        }
    }

    /// Every label is an index.
    pub open spec fn wf(self) -> bool {
        are_indices(self.indices())
    }

    /// The same subscript with every index `c` replaced by `f(c)`.
    pub open spec fn relabel(self, f: spec_fn(char) -> char) -> Self {
        match self {
            RawSubscriptView::Indices(indices) => RawSubscriptView::Indices(indices.map_values(f)),
            RawSubscriptView::Ellipsis { start, end } => RawSubscriptView::Ellipsis {
                start: start.map_values(f),
                end: end.map_values(f),
            },
        }
    }

    /// The subscript as part of an identifier: its indices, with `___`
    /// in the place of the ellipsis.
    pub open spec fn escaped(self) -> Seq<char> {
        match self {
            RawSubscriptView::Indices(indices) => indices,
            RawSubscriptView::Ellipsis { start, end } => start + "___"@ + end,
        }
    }
}

impl View for RawSubscript {
    type V = RawSubscriptView;

    open spec fn view(&self) -> RawSubscriptView {
        match self {
            RawSubscript::Indices(indices) => RawSubscriptView::Indices(indices@),
            RawSubscript::Ellipsis { start, end } => RawSubscriptView::Ellipsis {
                start: start@,
                end: end@,
            },
        }
    }
}

impl Clone for RawSubscript {
    fn clone(&self) -> (copy: Self)
        ensures
            copy@ == self@,
    {
        match self {
            RawSubscript::Indices(indices) => RawSubscript::Indices(copy_chars(indices)),
            RawSubscript::Ellipsis { start, end } => RawSubscript::Ellipsis {
                start: copy_chars(start),
                end: copy_chars(end),
            },
        }
    }
}

impl RawSubscript {
    /// The indices in the order in which they address a tensor element.
    pub fn indices(&self) -> (indices: Vec<char>)
        ensures
            indices@ == self@.indices(),
    {
        match self {
            RawSubscript::Indices(indices) => copy_chars(indices),
            RawSubscript::Ellipsis { start, end } => {
                let mut all = copy_chars(start);
                let mut i: usize = 0;
                while i < end.len()
                    invariant
                        i <= end.len(),
                        all@ == start@ + end@.take(i as int),
                    decreases end.len() - i,
                {
                    all.push(end[i]);
                    i = i + 1;
                }
                all
            },
        }
    }

    /// Tells whether this is the plain list `other` of indices.
    pub fn is_indices(&self, other: &[char]) -> (same: bool)
        ensures
            same == (self@ == RawSubscriptView::Indices(other@)),
    {
        match self {
            RawSubscript::Indices(indices) => same_chars(indices, other),
            RawSubscript::Ellipsis { .. } => false,
        }
    }

    /// Appends the subscript to `out` in the form it has inside an identifier.
    pub fn push_escaped(&self, out: &mut String)
        requires
            self@.wf(),
        ensures
            final(out)@ == old(out)@ + self@.escaped(),
    {
        match self {
            RawSubscript::Indices(indices) => {
                push_indices(out, indices);
            },
            RawSubscript::Ellipsis { start, end } => {
                proof {
                    lemma_are_indices_concat(start@, end@);
                }
                push_indices(out, start);
                out.append("___");
                push_indices(out, end);
                assert(out@ == old(out)@ + self@.escaped());
            },
        }
    }

    /// The subscript in the form it has inside an identifier.
    pub fn to_string(&self) -> (text: String)
        requires
            self@.wf(),
        ensures
            text@ == self@.escaped(),
    {
        let mut out = String::new();
        self.push_escaped(&mut out);
        out
    }
}

/// Tells whether `a` and `b` hold the same characters in the same order.
pub fn same_chars(a: &Vec<char>, b: &[char]) -> (same: bool)
    ensures
        same == (a@ == b@),
{
    if a.len() != b.len() {
        return false;
    }
    let mut i: usize = 0;
    while i < a.len()
        invariant
            i <= a.len(),
            a.len() == b.len(),
            a@.take(i as int) == b@.take(i as int),
        decreases a.len() - i,
    {
        if a[i] != b[i] {
            assert(a@[i as int] != b@[i as int]);
            return false;
        }
        assert(a@.take(i + 1) == a@.take(i as int).push(a@[i as int]));
        assert(b@.take(i + 1) == b@.take(i as int).push(b@[i as int]));
        i = i + 1;
    }
    assert(a@ == a@.take(i as int));
    assert(b@ == b@.take(i as int));
    true
}

/// A copy of `chars`.
pub fn copy_chars(chars: &Vec<char>) -> (copy: Vec<char>)
    ensures
        copy@ == chars@,
{
    let mut copy: Vec<char> = Vec::new();
    let mut i: usize = 0;
    while i < chars.len()
        invariant
            i <= chars.len(),
            copy@ == chars@.take(i as int),
        decreases chars.len() - i,
    {
        copy.push(chars[i]);
        i = i + 1;
    }
    copy
}

/// Appends the indices `chars` to `out`.
pub fn push_indices(out: &mut String, chars: &Vec<char>)
    requires
        are_indices(chars@),
    ensures
        final(out)@ == old(out)@ + chars@,
{
    let mut i: usize = 0;
    while i < chars.len()
        invariant
            i <= chars.len(),
            are_indices(chars@),
            out@ == old(out)@ + chars@.take(i as int),
        decreases chars.len() - i,
    {
        push_index(out, chars[i]);
        i = i + 1;
    }
}

/// Einsum subscripts as written, e.g. `ij,jk->ik`.
#[derive(Debug, PartialEq, Eq)]
pub struct RawSubscripts {
    /// One subscript for each input tensor.
    pub inputs: Vec<RawSubscript>,
    /// The subscript of the result; absent in implicit mode.
    pub output: Option<RawSubscript>,
}

/// What a [`RawSubscripts`] holds.
pub struct RawSubscriptsView {
    pub inputs: Seq<RawSubscriptView>,
    pub output: Option<RawSubscriptView>,
}

impl RawSubscriptsView {
    /// There is at least one input, and every label is an index.
    pub open spec fn wf(self) -> bool {
        &&& self.inputs.len() >= 1
        &&& forall|i: int| 0 <= i < self.inputs.len() ==> (#[trigger] self.inputs[i]).wf()
        &&& self.output matches Some(output) ==> output.wf()
    }

    /// The same subscripts with every index `c` replaced by `f(c)`.
    pub open spec fn relabel(self, f: spec_fn(char) -> char) -> Self {
        RawSubscriptsView {
            inputs: Seq::new(self.inputs.len(), |i: int| self.inputs[i].relabel(f)),
            output: match self.output {
                Some(output) => Some(output.relabel(f)),
                None => None,
            },
        }
    }
}

impl View for RawSubscripts {
    type V = RawSubscriptsView;

    open spec fn view(&self) -> RawSubscriptsView {
        RawSubscriptsView {
            inputs: Seq::new(self.inputs@.len(), |i: int| self.inputs@[i]@),
            output: match self.output {
                Some(output) => Some(output@),
                None => None,
            },
        }
    }
}

/// Tells whether `c` is a space, a tab, a carriage return or a line feed.
pub fn check_space(c: char) -> (b: bool)
    ensures
        b == is_space(c),
{
    c == ' ' || c == '\t' || c == '\r' || c == '\n'
}

/// The place of the first character at or after `pos` that is no space.
fn skip_spaces_at(input: &str, len: usize, pos: usize) -> (end: usize)
    requires
        len == input@.len(),
        pos <= len,
    ensures
        pos <= end <= len,
        input@.skip(end as int) == grammar::skip_spaces(input@.skip(pos as int)),
{
    let mut end: usize = pos;
    while end < len && check_space(input.get_char(end))
        invariant
            len == input@.len(),
            pos <= end <= len,
            grammar::skip_spaces(input@.skip(end as int)) == grammar::skip_spaces(
                input@.skip(pos as int),
            ),
        decreases len - end,
    {
        assert(input@.skip(end as int).drop_first() == input@.skip(end + 1));
        end = end + 1;
    }
    end
}

/// Tells whether `mark` stands at `pos`.
fn begins_at(input: &str, len: usize, pos: usize, mark: &str) -> (found: bool)
    requires
        len == input@.len(),
        pos <= len,
    ensures
        found == begins_with(input@.skip(pos as int), mark@),
{
    let width: usize = mark.unicode_len();
    if width > len - pos {
        return false;
    }
    let mut i: usize = 0;
    while i < width
        invariant
            len == input@.len(),
            width == mark@.len(),
            pos + width <= len,
            i <= width,
            forall|j: int| 0 <= j < i ==> input@[pos + j] == mark@[j],
        decreases width - i,
    {
        if input.get_char(pos + i) != mark.get_char(i) {
            assert(input@.skip(pos as int)[i as int] != mark@[i as int]);
            return false;
        }
        i = i + 1;
    }
    assert(mark@ =~= input@.skip(pos as int).subrange(0, mark@.len() as int));
    true
}

/// The place after `mark`, where `mark` stands at or after `pos` with
/// nothing but spaces before it.
fn after_mark_at(input: &str, len: usize, pos: usize, mark: &str) -> (end: Option<usize>)
    requires
        len == input@.len(),
        pos <= len,
    ensures
        match end {
            Some(end) => pos <= end <= len && end >= pos + mark@.len() && after_mark(
                input@.skip(pos as int),
                mark@,
            ) == Some(input@.skip(end as int)),
            None => after_mark(input@.skip(pos as int), mark@) is None,
        },
{
    let start: usize = skip_spaces_at(input, len, pos);
    if begins_at(input, len, start, mark) {
        let width: usize = mark.unicode_len();
        assert(input@.skip(start as int).skip(width as int) == input@.skip(start + width));
        Some(start + width)
    } else {
        None
    }
}

/// Reads indices from `pos` on.
fn indices_at(input: &str, len: usize, pos: usize) -> (found: (Vec<char>, usize))
    requires
        len == input@.len(),
        pos <= len,
    ensures
        pos <= found.1 <= len,
        (found.0@, input@.skip(found.1 as int)) == grammar::indices(input@.skip(pos as int)),
{
    let mut found: Vec<char> = Vec::new();
    let mut end: usize = pos;
    let mut more = true;
    while more
        invariant
            len == input@.len(),
            pos <= end <= len,
            grammar::indices(input@.skip(pos as int)) == (
                found@ + grammar::indices(input@.skip(end as int)).0,
                grammar::indices(input@.skip(end as int)).1,
            ),
            !more ==> grammar::indices(input@.skip(end as int)) == (
                Seq::<char>::empty(),
                input@.skip(end as int),
            ),
        decreases
            len - end + if more {
                1int
            } else {
                0int
            },
    {
        let next: usize = skip_spaces_at(input, len, end);
        more = false;
        if next < len {
            let c = input.get_char(next);
            if check_index(c) {
                assert(input@.skip(next as int).drop_first() == input@.skip(next + 1));
                let ghost tail = grammar::indices(input@.skip(next + 1)).0;
                assert(found@ + (seq![c] + tail) == found@.push(c) + tail);
                found.push(c);
                end = next + 1;
                more = true;
            }
        }
    }
    (found, end)
}

/// Reads a subscript from `pos` on.
fn subscript_at(input: &str, len: usize, pos: usize) -> (found: (RawSubscript, usize))
    requires
        len == input@.len(),
        pos <= len,
    ensures
        pos <= found.1 <= len,
        (found.0@, input@.skip(found.1 as int)) == grammar::subscript(input@.skip(pos as int)),
{
    let (start, rest) = indices_at(input, len, pos);
    let dots: usize = skip_spaces_at(input, len, rest);
    if begins_at(input, len, dots, "...") {
        proof {
            reveal_strlit("...");
            assert(input@.skip(dots as int).skip(3) == input@.skip(dots + 3));
        }
        let after: usize = skip_spaces_at(input, len, dots + 3);
        let (end, rest) = indices_at(input, len, after);
        (RawSubscript::Ellipsis { start, end }, rest)
    } else {
        (RawSubscript::Indices(start), rest)
    }
}

/// The views of the raw subscripts in `raws`.
pub open spec fn raw_views(raws: Seq<RawSubscript>) -> Seq<RawSubscriptView> {
    Seq::new(raws.len(), |i: int| raws[i]@)
}

/// Reads subscripts from `pos` on.
fn subscripts_at(input: &str, len: usize, pos: usize) -> (found: (RawSubscripts, usize))
    requires
        len == input@.len(),
        pos <= len,
    ensures
        pos <= found.1 <= len,
        (found.0@, input@.skip(found.1 as int)) == grammar::subscripts(input@.skip(pos as int)),
{
    let start: usize = skip_spaces_at(input, len, pos);
    let (first, after_first) = subscript_at(input, len, start);
    let mut inputs: Vec<RawSubscript> = Vec::new();
    inputs.push(first);
    let mut end: usize = after_first;
    let mut more = true;
    while more
        invariant
            len == input@.len(),
            after_first <= end <= len,
            inputs@.len() >= 1,
            inputs@[0] == first,
            grammar::more_inputs(input@.skip(after_first as int)) == (
                raw_views(inputs@).drop_first() + grammar::more_inputs(input@.skip(end as int)).0,
                grammar::more_inputs(input@.skip(end as int)).1,
            ),
            !more ==> grammar::more_inputs(input@.skip(end as int)) == (
                Seq::<RawSubscriptView>::empty(),
                input@.skip(end as int),
            ),
        decreases
            len - end + if more {
                1int
            } else {
                0int
            },
    {
        more = false;
        match after_mark_at(input, len, end, ",") {
            Some(after) => {
                proof {
                    reveal_strlit(",");
                }
                let (next, rest) = subscript_at(input, len, after);
                let ghost earlier = raw_views(inputs@).drop_first();
                let ghost tail = grammar::more_inputs(input@.skip(rest as int)).0;
                assert(earlier + (seq![next@] + tail) == earlier.push(next@) + tail);
                inputs.push(next);
                assert(raw_views(inputs@).drop_first() == earlier.push(next@));
                end = rest;
                more = true;
            },
            None => {},
        }
    }
    assert(raw_views(inputs@) == seq![first@] + raw_views(inputs@).drop_first());
    match after_mark_at(input, len, end, "->") {
        Some(after) => {
            let start: usize = skip_spaces_at(input, len, after);
            let (output, rest) = subscript_at(input, len, start);
            (RawSubscripts { inputs, output: Some(output) }, rest)
        },
        None => (RawSubscripts { inputs, output: None }, end),
    }
}

/// Reads an index at the very beginning of `input`. Gives the rest of
/// the text and the index.
pub fn index(input: &str) -> (found: Option<(&str, char)>)
    ensures
        match found {
            Some((rest, c)) => grammar::index(input@) == Some((c, rest@)),
            None => grammar::index(input@) is None,
        },
{
    let len: usize = input.unicode_len();
    if len > 0 {
        let c = input.get_char(0);
        if check_index(c) {
            let rest = input.substring_char(1, len);
            assert(rest@ == input@.drop_first());
            return Some((rest, c));
        }
    }
    None
}

/// Reads an ellipsis at the very beginning of `input`. Gives the rest of
/// the text and the ellipsis.
pub fn ellipsis(input: &str) -> (found: Option<(&str, &str)>)
    ensures
        match found {
            Some((rest, dots)) => grammar::ellipsis(input@) == Some(rest@) && dots@ == "..."@,
            None => grammar::ellipsis(input@) is None,
        },
{
    let len: usize = input.unicode_len();
    assert(input@.skip(0) == input@);
    if begins_at(input, len, 0, "...") {
        proof {
            reveal_strlit("...");
        }
        let dots = input.substring_char(0, 3);
        let rest = input.substring_char(3, len);
        assert(rest@ == input@.skip(3));
        assert(dots@ == "..."@);
        Some((rest, dots))
    } else {
        None
    }
}

/// Reads a subscript at the beginning of `input`. Gives the rest of the
/// text and the subscript.
pub fn subscript(input: &str) -> (found: (&str, RawSubscript))
    ensures
        (found.1@, found.0@) == grammar::subscript(input@),
        found.1@.wf(),
{
    let len: usize = input.unicode_len();
    assert(input@.skip(0) == input@);
    let (raw, end) = subscript_at(input, len, 0);
    let rest = input.substring_char(end, len);
    assert(rest@ == input@.skip(end as int));
    proof {
        grammar::lemma_subscript_rest(input@);
    }
    (rest, raw)
}

/// Reads subscripts at the beginning of `input`. Gives the rest of the
/// text and the subscripts.
pub fn subscripts(input: &str) -> (found: (&str, RawSubscripts))
    ensures
        (found.1@, found.0@) == grammar::subscripts(input@),
        found.1@.wf(),
{
    let len: usize = input.unicode_len();
    assert(input@.skip(0) == input@);
    let (raw, end) = subscripts_at(input, len, 0);
    let rest = input.substring_char(end, len);
    assert(rest@ == input@.skip(end as int));
    proof {
        grammar::lemma_subscripts_wf(input@);
    }
    (rest, raw)
}

impl RawSubscripts {
    /// Reads `input` as subscripts. Fails where `input` as a whole is none.
    /// What is read is, written down, the text without its spaces.
    pub fn from_str(input: &str) -> (parsed: Result<Self, Error>)
        ensures
            match parsed {
                Ok(raw) => grammar::parse(input@) == Some(raw@) && raw@.wf() && strip(input@)
                    == raw@.written(),
                Err(error) => grammar::parse(input@) is None && error@
                    == ErrorView::InvalidSubscripts(input@),
            },
    {
        let len: usize = input.unicode_len();
        assert(input@.skip(0) == input@);
        let (raw, end) = subscripts_at(input, len, 0);
        let last: usize = skip_spaces_at(input, len, end);
        proof {
            grammar::lemma_subscripts_wf(input@);
            if last == len {
                lemma_parse_written(input@);
            }
        }
        if last == len {
            Ok(raw)
        } else {
            Err(Error::InvalidSubscripts(String::from_str(input)))
        }
    }
}

impl std::str::FromStr for RawSubscripts {
    type Err = Error;

    /// Reads `input` as subscripts, as [`RawSubscripts::from_str`] does:
    /// fails where `input` as a whole is none, and else gives what the
    /// text stands for.
    fn from_str(input: &str) -> (parsed: Result<Self, Error>)
        ensures
            match parsed {
                Ok(raw) => grammar::parse(input@) == Some(raw@) && raw@.wf() && strip(input@)
                    == raw@.written(),
                Err(error) => grammar::parse(input@) is None && error@
                    == ErrorView::InvalidSubscripts(input@),
            },
    {
        RawSubscripts::from_str(input)
    }
}

} // verus!
