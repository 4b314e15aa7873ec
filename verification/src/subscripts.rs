//! Einsum subscripts with the names of their tensors,
//! e.g. `ab,bc->ac | arg0,arg1->out0`.

use vstd::prelude::*;
use vstd::string::*;
use crate::canonical::{
    canonical_map, count_up_to_two, find_place, first_appearance, first_seen,
    lemma_canonical_order, lemma_first_seen, lemma_letters, lemma_listed_in_concat,
    lemma_occurrences_contains, listed_in, occurrences, rename,
};
use crate::namespace::{Namespace, Position};
use crate::notation::{lemma_read_written, written_more};
use crate::parser::{RawSubscript, RawSubscriptView, RawSubscripts, RawSubscriptsView};
use crate::error::{Error, ErrorView};
use crate::grammar;
use crate::laws::is_identifier;
use crate::text::{
    are_indices, is_index, join, lemma_are_indices_concat, lemma_join_push, letters, nth_letter,
};

verus! {

/// The labels of one tensor, together with the tensor's name.
#[derive(Debug, PartialEq, Eq, Hash)]
pub struct Subscript {
    raw: RawSubscript,
    position: Position,
}

/// What a [`Subscript`] holds.
pub struct SubscriptView {
    pub raw: RawSubscriptView,
    pub position: Position,
}

impl SubscriptView {
    /// The indices in the order in which they address a tensor element.
    pub open spec fn indices(self) -> Seq<char> {
        self.raw.indices()
    }

    /// The same subscript with every index `c` replaced by `f(c)`.
    pub open spec fn relabel(self, f: spec_fn(char) -> char) -> Self {
        SubscriptView { raw: self.raw.relabel(f), position: self.position }
    }
}

impl View for Subscript {
    type V = SubscriptView;

    closed spec fn view(&self) -> SubscriptView {
        SubscriptView { raw: self.raw@, position: self.position }
    }
}

impl Clone for Subscript {
    fn clone(&self) -> (copy: Self)
        ensures
            copy@ == self@,
    {
        Subscript { raw: self.raw.clone(), position: self.position }
    }
}

impl Subscript {
    /// The labels as written.
    pub fn raw(&self) -> (raw: &RawSubscript)
        ensures
            raw@ == self@.raw,
    {
        &self.raw
    }

    /// The name of the tensor.
    pub fn position(&self) -> (position: &Position)
        ensures
            *position == self@.position,
    {
        &self.position
    }

    /// The indices in the order in which they address a tensor element.
    pub fn indices(&self) -> (indices: Vec<char>)
        ensures
            indices@ == self@.indices(),
    {
        self.raw.indices()
    }
}

/// The views of the subscripts in `subscripts`.
pub open spec fn views(subscripts: Seq<Subscript>) -> Seq<SubscriptView> {
    Seq::new(subscripts.len(), |i: int| subscripts[i]@)
}

/// The indices of all the subscripts in `inputs`, one subscript after the other.
pub open spec fn flat_indices(inputs: Seq<SubscriptView>) -> Seq<char>
    decreases inputs.len(),
{
    if inputs.len() == 0 {
        Seq::empty()
    } else {
        flat_indices(inputs.drop_last()) + inputs.last().indices()
    }
}

/// Einsum subscripts with tensor names, e.g. `ab,bc->ac | arg0,arg1->out0`.
#[derive(Debug, PartialEq, Eq)]
pub struct Subscripts {
    /// One subscript for each input tensor.
    pub inputs: Vec<Subscript>,
    /// The subscript of the result.
    pub output: Subscript,
}

/// What a [`Subscripts`] holds.
pub struct SubscriptsView {
    pub inputs: Seq<SubscriptView>,
    pub output: SubscriptView,
}

impl View for Subscripts {
    type V = SubscriptsView;

    open spec fn view(&self) -> SubscriptsView {
        SubscriptsView { inputs: views(self.inputs@), output: self.output@ }
    }
}

impl SubscriptsView {
    /// The indices of all inputs, one input after the other.
    pub open spec fn input_indices(self) -> Seq<char> {
        flat_indices(self.inputs)
    }

    /// The indices of all inputs, then those of the output.
    pub open spec fn all_indices(self) -> Seq<char> {
        self.input_indices() + self.output.indices()
    }

    /// Every label is an index.
    pub open spec fn labelled(self) -> bool {
        &&& forall|i: int| 0 <= i < self.inputs.len() ==> (#[trigger] self.inputs[i]).raw.wf()
        &&& self.output.raw.wf()
    }

    /// The same subscripts with every index `c` replaced by `f(c)`.
    pub open spec fn relabel(self, f: spec_fn(char) -> char) -> Self {
        SubscriptsView {
            inputs: Seq::new(self.inputs.len(), |i: int| self.inputs[i].relabel(f)),
            output: self.output.relabel(f),
        }
    }

    /// The canonical form: the first index met while reading the inputs
    /// and then the output becomes `a`, the next new one `b`, and so on.
    pub open spec fn canonical(self) -> Self {
        self.relabel(canonical_map(first_seen(self.all_indices())))
    }

    /// The distinct indices are `a`, `b`, `c`, ... in the order of their
    /// first appearance.
    pub open spec fn is_canonical(self) -> bool {
        first_seen(self.all_indices()) == letters().take(
            first_seen(self.all_indices()).len() as int,
        )
    }

    /// No two inputs name the same tensor, and none names the result.
    pub open spec fn distinct_positions(self) -> bool {
        &&& forall|i: int, j: int|
            0 <= i < j < self.inputs.len() ==> (#[trigger] self.inputs[i]).position != (
            #[trigger] self.inputs[j]).position
        &&& forall|i: int|
            0 <= i < self.inputs.len() ==> (#[trigger] self.inputs[i]).position
                != self.output.position
    }

    /// Every intermediate tensor named here is one of the first `issued`.
    pub open spec fn bounded_by(self, issued: nat) -> bool {
        &&& forall|i: int|
            0 <= i < self.inputs.len() ==> (
            (#[trigger] self.inputs[i]).position matches Position::Out(k) ==> k < issued)
        &&& self.output.position matches Position::Out(k) ==> k < issued
    }

    /// The invariant of subscripts: at least one input, indices as labels,
    /// a name of its own for each tensor, and canonical form.
    pub open spec fn wf(self) -> bool {
        &&& self.inputs.len() >= 1
        &&& self.labelled()
        &&& self.distinct_positions()
        &&& self.is_canonical()
    }

    /// The indices that are summed over: those that occur at least twice
    /// in the inputs and not in the output, in alphabetical order.
    pub open spec fn contraction_indices(self) -> Seq<char> {
        letters().filter(
            |c: char|
                occurrences(self.input_indices(), c) >= 2 && !self.output.indices().contains(c),
        )
    }

    /// The exponent of the memory that the result takes.
    pub open spec fn memory_order(self) -> nat {
        self.output.indices().len()
    }

    /// The exponent of the number of operations that the contraction takes.
    pub open spec fn compute_order(self) -> nat {
        self.memory_order() + self.contraction_indices().len()
    }
}

impl SubscriptsView {
    /// The inputs that a first step takes: those whose tensor `inners` names.
    pub open spec fn inner_inputs(self, inners: Seq<Position>) -> Seq<SubscriptView> {
        self.inputs.filter(|input: SubscriptView| inners.contains(input.position))
    }

    /// The inputs that are left to the second step.
    pub open spec fn outer_inputs(self, inners: Seq<Position>) -> Seq<SubscriptView> {
        self.inputs.filter(|input: SubscriptView| !inners.contains(input.position))
    }

    /// Whether the first step hands the index `c` on to the second: it does
    /// where `c` occurs once among the inner inputs, or several times among
    /// them and also among the outer ones.
    pub open spec fn passed_on(self, inners: Seq<Position>, c: char) -> bool {
        let inner = occurrences(flat_indices(self.inner_inputs(inners)), c);
        let outer = occurrences(flat_indices(self.outer_inputs(inners)), c);
        inner == 1 || (inner >= 2 && outer > 0)
    }

    /// The indices of the tensor that the first step produces, in
    /// alphabetical order.
    pub open spec fn intermediate(self, inners: Seq<Position>) -> Seq<char> {
        letters().filter(|c: char| self.passed_on(inners, c))
    }

    /// A split is degenerate where the first step would take fewer than two
    /// inputs, or all of them.
    pub open spec fn degenerate(self, inners: Seq<Position>) -> bool {
        self.inner_inputs(inners).len() < 2 || self.inner_inputs(inners).len() >= self.inputs.len()
    }

    /// The first step of a split, before it is made canonical: it contracts
    /// the inner inputs into the tensor `out`.
    pub open spec fn first_step(self, inners: Seq<Position>, out: Position) -> Self {
        SubscriptsView {
            inputs: self.inner_inputs(inners),
            output: SubscriptView {
                raw: RawSubscriptView::Indices(self.intermediate(inners)),
                position: out,
            },
        }
    }

    /// The second step of a split, before it is made canonical: it contracts
    /// the tensor `out` and the outer inputs into the result.
    pub open spec fn second_step(self, inners: Seq<Position>, out: Position) -> Self {
        SubscriptsView {
            inputs: seq![self.first_step(inners, out).output] + self.outer_inputs(inners),
            output: self.output,
        }
    }

    /// The two steps into which the subscripts split when the inputs that
    /// `inners` names are contracted first, into the tensor `out`.
    pub open spec fn factorize(self, inners: Seq<Position>, out: Position) -> (Self, Self) {
        (self.first_step(inners, out).canonical(), self.second_step(inners, out).canonical())
    }
}

impl RawSubscriptsView {
    /// The inputs under the names `arg0`, `arg1`, ... of the arguments.
    pub open spec fn arguments(self) -> Seq<SubscriptView> {
        Seq::new(
            self.inputs.len(),
            |i: int| SubscriptView { raw: self.inputs[i], position: Position::Arg(i as usize) },
        )
    }

    /// The output of implicit mode: the indices that occur exactly once in
    /// the inputs, in alphabetical order.
    pub open spec fn implicit_output(self) -> Seq<char> {
        letters().filter(|c: char| occurrences(flat_indices(self.arguments()), c) == 1)
    }

    /// The output: the one that is written, or else that of implicit mode.
    pub open spec fn explicit_output(self) -> RawSubscriptView {
        match self.output {
            Some(output) => output,
            None => RawSubscriptView::Indices(self.implicit_output()),
        }
    }

    /// The subscripts with the names of their tensors, the result being `out`,
    /// before they are made canonical.
    pub open spec fn named(self, out: Position) -> SubscriptsView {
        SubscriptsView {
            inputs: self.arguments(),
            output: SubscriptView { raw: self.explicit_output(), position: out },
        }
    }
}

impl SubscriptsView {
    /// The subscripts that stand for `raw`, with the result named `out`.
    pub open spec fn from_raw(raw: RawSubscriptsView, out: Position) -> Self {
        raw.named(out).canonical()
    }

    /// The name of the function that evaluates the contraction: every input
    /// followed by `_`, then `_` and the output.
    pub open spec fn escaped_ident(self) -> Seq<char> {
        escaped_inputs(self.inputs) + "_"@ + self.output.raw.escaped()
    }

    /// The subscripts as text: `ab,bc->ac | arg0,arg1->out0`.
    pub open spec fn display(self) -> Seq<char> {
        join(Seq::new(self.inputs.len(), |i: int| self.inputs[i].raw.escaped()), ","@) + "->"@
            + self.output.raw.escaped() + " | "@ + join(
            Seq::new(self.inputs.len(), |i: int| self.inputs[i].position.name()),
            ","@,
        ) + "->"@ + self.output.position.name()
    }
}

/// Every input in the form it has inside an identifier, each followed by `_`.
pub open spec fn escaped_inputs(inputs: Seq<SubscriptView>) -> Seq<char>
    decreases inputs.len(),
{
    if inputs.len() == 0 {
        Seq::empty()
    } else {
        escaped_inputs(inputs.drop_last()) + inputs.last().raw.escaped() + "_"@
    }
}

/// The indices of a relabelled subscript are the relabelled indices.
pub proof fn lemma_relabel_indices(raw: RawSubscriptView, f: spec_fn(char) -> char)
    ensures
        raw.relabel(f).indices() == raw.indices().map_values(f),
{
    match raw {
        RawSubscriptView::Indices(indices) => {},
        RawSubscriptView::Ellipsis { start, end } => {
            assert((start + end).map_values(f) == start.map_values(f) + end.map_values(f));
        },
    }
}

/// The flat indices of relabelled inputs are the relabelled flat indices.
pub proof fn lemma_relabel_flat(inputs: Seq<SubscriptView>, f: spec_fn(char) -> char)
    ensures
        flat_indices(Seq::new(inputs.len(), |i: int| inputs[i].relabel(f))) == flat_indices(
            inputs,
        ).map_values(f),
    decreases inputs.len(),
{
    let relabelled = Seq::new(inputs.len(), |i: int| inputs[i].relabel(f));
    if inputs.len() == 0 {
        assert(flat_indices(inputs).map_values(f) == Seq::<char>::empty());
    } else {
        let rest = inputs.drop_last();
        assert(relabelled.drop_last() == Seq::new(rest.len(), |i: int| rest[i].relabel(f)));
        lemma_relabel_flat(rest, f);
        lemma_relabel_indices(inputs.last().raw, f);
        assert((flat_indices(rest) + inputs.last().indices()).map_values(f) == flat_indices(
            rest,
        ).map_values(f) + inputs.last().indices().map_values(f));
    }
}

/// Every index of an input is among the flat indices of the inputs.
pub proof fn lemma_flat_contains(inputs: Seq<SubscriptView>, i: int, j: int)
    requires
        0 <= i < inputs.len(),
        0 <= j < inputs[i].indices().len(),
    ensures
        flat_indices(inputs).contains(inputs[i].indices()[j]),
    decreases inputs.len(),
{
    let rest = inputs.drop_last();
    let flat = flat_indices(inputs);
    if i == inputs.len() - 1 {
        assert(flat[flat_indices(rest).len() + j] == inputs[i].indices()[j]);
    } else {
        lemma_flat_contains(rest, i, j);
        let k = choose|k: int|
            0 <= k < flat_indices(rest).len() && flat_indices(rest)[k] == rest[i].indices()[j];
        assert(flat[k] == inputs[i].indices()[j]);
    }
}

/// The flat indices of inputs whose labels are indices are indices.
pub proof fn lemma_flat_are_indices(inputs: Seq<SubscriptView>)
    requires
        forall|i: int| 0 <= i < inputs.len() ==> (#[trigger] inputs[i]).raw.wf(),
    ensures
        are_indices(flat_indices(inputs)),
    decreases inputs.len(),
{
    if inputs.len() > 0 {
        let rest = inputs.drop_last();
        assert forall|i: int| 0 <= i < rest.len() implies (#[trigger] rest[i]).raw.wf() by {
            assert(rest[i] == inputs[i]);
        }
        lemma_flat_are_indices(rest);
        assert(inputs.last().raw.wf());
        lemma_are_indices_concat(flat_indices(rest), inputs.last().indices());
    }
}

impl SubscriptsView {
    /// The canonical form of labelled subscripts is labelled and canonical,
    /// and names the same tensors.
    pub proof fn lemma_canonical(self)
        requires
            self.labelled(),
        ensures
            self.canonical().labelled(),
            self.canonical().is_canonical(),
            self.canonical().all_indices() == self.all_indices().map_values(
                canonical_map(first_seen(self.all_indices())),
            ),
            self.canonical().inputs.len() == self.inputs.len(),
            forall|i: int|
                0 <= i < self.inputs.len() ==> (#[trigger] self.canonical().inputs[i]).position
                    == self.inputs[i].position,
            self.canonical().output.position == self.output.position,
            first_seen(self.all_indices()).len() <= 26,
    {
        let all = self.all_indices();
        let f = canonical_map(first_seen(all));
        let c = self.canonical();
        lemma_flat_are_indices(self.inputs);
        lemma_are_indices_concat(self.input_indices(), self.output.indices());
        lemma_canonical_order(all);
        lemma_relabel_flat(self.inputs, f);
        lemma_relabel_indices(self.output.raw, f);
        assert(c.all_indices() == all.map_values(f)) by {
            assert((self.input_indices() + self.output.indices()).map_values(f)
                == self.input_indices().map_values(f) + self.output.indices().map_values(f));
        }
        assert(are_indices(c.all_indices()));
        assert(c.output.raw.wf()) by {
            assert forall|j: int| 0 <= j < c.output.indices().len() implies is_index(
                #[trigger] c.output.indices()[j],
            ) by {
                assert(c.all_indices()[c.input_indices().len() + j] == c.output.indices()[j]);
            }
        }
        assert forall|i: int| 0 <= i < c.inputs.len() implies (#[trigger] c.inputs[i]).raw.wf() by {
            assert forall|j: int| 0 <= j < c.inputs[i].indices().len() implies is_index(
                #[trigger] c.inputs[i].indices()[j],
            ) by {
                lemma_flat_contains(c.inputs, i, j);
                let x = c.inputs[i].indices()[j];
                let k = choose|k: int|
                    0 <= k < c.input_indices().len() && c.input_indices()[k] == x;
                assert(c.all_indices()[k] == x);
            }
        }
    }
}

/// What a filter keeps was there before.
pub proof fn lemma_filter_kept<A>(s: Seq<A>, pred: spec_fn(A) -> bool, i: int) -> (j: int)
    requires
        0 <= i < s.filter(pred).len(),
    ensures
        0 <= j < s.len(),
        s[j] == s.filter(pred)[i],
        pred(s[j]),
    decreases s.len(),
{
    reveal(Seq::filter);
    if pred(s.last()) && i == s.filter(pred).len() - 1 {
        s.len() - 1
    } else {
        lemma_filter_kept(s.drop_last(), pred, i)
    }
}

/// A filter and its complement share out the whole sequence, and the second
/// step of a split that is not degenerate has fewer inputs than the whole.
pub proof fn lemma_partition_len(inputs: Seq<SubscriptView>, inners: Seq<Position>)
    ensures
        inputs.filter(|input: SubscriptView| inners.contains(input.position)).len() + inputs.filter(
            |input: SubscriptView| !inners.contains(input.position),
        ).len() == inputs.len(),
    decreases inputs.len(),
{
    let picked = |input: SubscriptView| inners.contains(input.position);
    let left = |input: SubscriptView| !inners.contains(input.position);
    reveal(Seq::filter);
    if inputs.len() > 0 {
        lemma_partition_len(inputs.drop_last(), inners);
    }
}

impl SubscriptsView {
    /// The indices that are summed over are in strictly alphabetical order,
    /// and an index is among them exactly if it occurs at least twice in
    /// the inputs and not in the output.
    pub proof fn lemma_contraction_indices(self)
        requires
            self.labelled(),
        ensures
            are_indices(self.contraction_indices()),
            self.contraction_indices().len() <= 26,
            forall|i: int, j: int|
                0 <= i < j < self.contraction_indices().len() ==> self.contraction_indices()[i]
                    < self.contraction_indices()[j],
            forall|c: char|
                #![trigger self.contraction_indices().contains(c)]
                self.contraction_indices().contains(c) <==> occurrences(self.input_indices(), c)
                    >= 2 && !self.output.indices().contains(c),
    {
        let summed = |c: char|
            occurrences(self.input_indices(), c) >= 2 && !self.output.indices().contains(c);
        lemma_letters();
        lemma_filter_increasing(letters(), summed);
        letters().lemma_filter_len(summed);
        assert forall|i: int| 0 <= i < self.contraction_indices().len() implies is_index(
            #[trigger] self.contraction_indices()[i],
        ) by {
            let j = lemma_filter_kept(letters(), summed, i);
        }
        assert forall|c: char| #![trigger self.contraction_indices().contains(c)]
            self.contraction_indices().contains(c) <==> summed(c) by {
            if self.contraction_indices().contains(c) {
                let i = choose|i: int|
                    0 <= i < self.contraction_indices().len() && self.contraction_indices()[i] == c;
                let j = lemma_filter_kept(letters(), summed, i);
            }
            if summed(c) {
                lemma_flat_are_indices(self.inputs);
                lemma_occurrences_contains(self.input_indices(), c);
                let k = choose|k: int|
                    0 <= k < self.input_indices().len() && self.input_indices()[k] == c;
                assert(is_index(self.input_indices()[k]));
                assert(letters().contains(c));
                let j = choose|j: int| 0 <= j < letters().len() && letters()[j] == c;
                letters().lemma_filter_contains(summed, j);
            }
        }
    }
}

/// A filter keeps the order: what it keeps of a strictly increasing
/// sequence is strictly increasing.
pub proof fn lemma_filter_increasing(s: Seq<char>, pred: spec_fn(char) -> bool)
    requires
        forall|i: int, j: int| 0 <= i < j < s.len() ==> s[i] < s[j],
    ensures
        forall|i: int, j: int|
            0 <= i < j < s.filter(pred).len() ==> s.filter(pred)[i] < s.filter(pred)[j],
        forall|i: int|
            0 <= i < s.filter(pred).len() && s.len() > 0 ==> #[trigger] s.filter(pred)[i]
                <= s.last(),
    decreases s.len(),
{
    reveal(Seq::filter);
    if s.len() > 0 {
        let t = s.drop_last();
        lemma_filter_increasing(t, pred);
        assert forall|i: int| 0 <= i < t.filter(pred).len() implies #[trigger] t.filter(pred)[i]
            < s.last() by {
            assert(t.len() > 0);
            assert(t.last() == s[s.len() - 2]);
        }
    }
}

impl SubscriptsView {
    /// The labels of both steps of a split of labelled subscripts are indices.
    pub proof fn lemma_steps_labelled(self, inners: Seq<Position>, out: Position)
        requires
            self.labelled(),
        ensures
            self.first_step(inners, out).labelled(),
            self.second_step(inners, out).labelled(),
    {
        let first = self.first_step(inners, out);
        let second = self.second_step(inners, out);
        let mid = self.intermediate(inners);
        assert forall|i: int| 0 <= i < mid.len() implies is_index(#[trigger] mid[i]) by {
            let j = lemma_filter_kept(letters(), |c: char| self.passed_on(inners, c), i);
        }
        assert forall|i: int| 0 <= i < first.inputs.len() implies (
        #[trigger] first.inputs[i]).raw.wf() by {
            let j = lemma_filter_kept(
                self.inputs,
                |input: SubscriptView| inners.contains(input.position),
                i,
            );
            assert(self.inputs[j].raw.wf());
        }
        assert forall|i: int| 0 <= i < second.inputs.len() implies (
        #[trigger] second.inputs[i]).raw.wf() by {
            if i > 0 {
                let j = lemma_filter_kept(
                    self.inputs,
                    |input: SubscriptView| !inners.contains(input.position),
                    i - 1,
                );
                assert(self.inputs[j].raw.wf());
            }
        }
    }
}

impl RawSubscriptsView {
    /// Well-formed raw subscripts, once named, are labelled, give each tensor
    /// a name of its own, and have the same number of inputs.
    pub proof fn lemma_named_labelled(self, out: Position)
        requires
            self.wf(),
            self.inputs.len() <= usize::MAX,
            out is Out,
        ensures
            self.named(out).labelled(),
            self.named(out).distinct_positions(),
            self.named(out).inputs.len() == self.inputs.len(),
    {
        let named = self.named(out);
        let once = self.implicit_output();
        assert forall|i: int| 0 <= i < once.len() implies is_index(#[trigger] once[i]) by {
            let j = lemma_filter_kept(
                letters(),
                |c: char| occurrences(flat_indices(self.arguments()), c) == 1,
                i,
            );
        }
        assert forall|i: int| 0 <= i < named.inputs.len() implies (
        #[trigger] named.inputs[i]).raw.wf() by {
            assert(self.inputs[i].wf());
        }
    }
}

/// The indices of all the subscripts in `inputs`, one subscript after the other.
pub fn flatten_indices(inputs: &Vec<Subscript>) -> (flat: Vec<char>)
    ensures
        flat@ == flat_indices(views(inputs@)),
{
    let mut flat: Vec<char> = Vec::new();
    let mut i: usize = 0;
    while i < inputs.len()
        invariant
            i <= inputs.len(),
            flat@ == flat_indices(views(inputs@).take(i as int)),
        decreases inputs.len() - i,
    {
        let mut indices = inputs[i].indices();
        assert(views(inputs@).take(i + 1).drop_last() == views(inputs@).take(i as int));
        flat.append(&mut indices);
        i = i + 1;
    }
    assert(views(inputs@).take(i as int) == views(inputs@));
    flat
}

/// Renames the indices of `raw`: the one that `order` lists first becomes
/// `a`, the next `b`, and so on.
fn rename_raw(raw: &RawSubscript, order: &Vec<char>) -> (renamed: RawSubscript)
    requires
        order@.len() <= 26,
        listed_in(raw@.indices(), order@),
    ensures
        renamed@ == raw@.relabel(canonical_map(order@)),
{
    match raw {
        RawSubscript::Indices(indices) => RawSubscript::Indices(rename(indices, order)),
        RawSubscript::Ellipsis { start, end } => {
            proof {
                lemma_listed_in_concat(start@, end@, order@);
            }
            RawSubscript::Ellipsis { start: rename(start, order), end: rename(end, order) }
        },
    }
}

impl Clone for Subscripts {
    fn clone(&self) -> (copy: Self)
        ensures
            copy@ == self@,
    {
        let mut inputs: Vec<Subscript> = Vec::new();
        let mut i: usize = 0;
        while i < self.inputs.len()
            invariant
                i <= self.inputs.len(),
                views(inputs@) == views(self.inputs@).take(i as int),
            decreases self.inputs.len() - i,
        {
            let copy = self.inputs[i].clone();
            let ghost earlier = inputs@;
            inputs.push(copy);
            assert(views(inputs@) == views(earlier).push(copy@));
            assert(views(self.inputs@).take(i + 1) == views(self.inputs@).take(i as int).push(
                self.inputs@[i as int]@,
            ));
            i = i + 1;
        }
        assert(views(self.inputs@).take(i as int) == views(self.inputs@));
        Subscripts { inputs, output: self.output.clone() }
    }
}

impl Subscripts {
    /// The indices of all inputs, then those of the output.
    fn all_indices(&self) -> (all: Vec<char>)
        ensures
            all@ == self@.all_indices(),
    {
        let mut all = flatten_indices(&self.inputs);
        let mut indices = self.output.indices();
        all.append(&mut indices);
        all
    }

    /// Brings the subscripts into canonical form.
    fn remap_indices(&mut self)
        requires
            old(self)@.labelled(),
        ensures
            final(self)@ == old(self)@.canonical(),
            final(self)@.labelled(),
            final(self)@.is_canonical(),
    {
        let all = self.all_indices();
        let order = first_appearance(&all);
        let ghost before = self@;
        let ghost f = canonical_map(order@);
        proof {
            before.lemma_canonical();
            lemma_first_seen(all@);
        }
        let mut inputs: Vec<Subscript> = Vec::new();
        let mut i: usize = 0;
        while i < self.inputs.len()
            invariant
                i <= self.inputs.len(),
                self@ == before,
                order@ == first_seen(before.all_indices()),
                order@.len() <= 26,
                f == canonical_map(order@),
                forall|c: char|
                    #![trigger order@.contains(c)]
                    before.all_indices().contains(c) ==> order@.contains(c),
                views(inputs@) == before.canonical().inputs.take(i as int),
            decreases self.inputs.len() - i,
        {
            let input = &self.inputs[i];
            assert(input@ == before.inputs[i as int]);
            assert forall|j: int| 0 <= j < input@.indices().len() implies order@.contains(
                #[trigger] input@.indices()[j],
            ) by {
                lemma_flat_contains(before.inputs, i as int, j);
                let x = input@.indices()[j];
                let k = choose|k: int|
                    0 <= k < before.input_indices().len() && before.input_indices()[k] == x;
                assert(before.all_indices()[k] == x);
            }
            let renamed = Subscript {
                raw: rename_raw(&input.raw, &order),
                position: input.position,
            };
            let ghost earlier = inputs@;
            inputs.push(renamed);
            assert(views(inputs@) == views(earlier).push(renamed@));
            assert(before.canonical().inputs.take(i + 1) == before.canonical().inputs.take(
                i as int,
            ).push(before.inputs[i as int].relabel(f)));
            i = i + 1;
        }
        assert(before.canonical().inputs.take(i as int) == before.canonical().inputs);
        assert forall|j: int| 0 <= j < self.output@.indices().len() implies order@.contains(
            #[trigger] self.output@.indices()[j],
        ) by {
            assert(before.all_indices()[before.input_indices().len() + j]
                == self.output@.indices()[j]);
        }
        let output = Subscript {
            raw: rename_raw(&self.output.raw, &order),
            position: self.output.position,
        };
        self.inputs = inputs;
        self.output = output;
    }
}

/// Tells whether `positions` holds `position`.
pub fn holds_position(positions: &Vec<Position>, position: Position) -> (found: bool)
    ensures
        found == positions@.contains(position),
{
    let mut i: usize = 0;
    while i < positions.len()
        invariant
            i <= positions.len(),
            forall|j: int| 0 <= j < i ==> positions@[j] != position,
        decreases positions.len() - i,
    {
        if positions[i] == position {
            return true;
        }
        i = i + 1;
    }
    false
}

impl Subscripts {
    /// Splits the contraction in two: a first step that contracts the inputs
    /// whose tensors `inners` names into a new intermediate tensor, and a
    /// second step that contracts that tensor and the other inputs into the
    /// result. Fails, and issues no identifier, where the split is
    /// degenerate. The steps of well-formed subscripts are well formed,
    /// provided that the identifiers of `names` are new to the subscripts.
    pub fn factorize(&self, names: &mut Namespace, inners: Vec<Position>) -> (steps: Result<
        (Subscripts, Subscripts),
        Error,
    >)
        requires
            self@.labelled(),
            old(names).issued() < usize::MAX,
        ensures
            match steps {
                Ok((inner, outer)) => {
                    &&& !self@.degenerate(inners@)
                    &&& (inner@, outer@) == self@.factorize(
                        inners@,
                        Position::Out(old(names).issued() as usize),
                    )
                    &&& final(names).issued() == old(names).issued() + 1
                    &&& inner@.labelled()
                    &&& outer@.labelled()
                    &&& self@.wf() && self@.bounded_by(old(names).issued()) ==> {
                        &&& inner@.wf()
                        &&& outer@.wf()
                        &&& inner@.bounded_by(final(names).issued())
                        &&& outer@.bounded_by(final(names).issued())
                    }
                },
                Err(error) => {
                    &&& self@.degenerate(inners@)
                    &&& error@ == ErrorView::IllegalFactorization
                    &&& *final(names) == *old(names)
                },
            },
    {
        let ghost picked = |input: SubscriptView| inners@.contains(input.position);
        let ghost left = |input: SubscriptView| !inners@.contains(input.position);
        let mut inner_inputs: Vec<Subscript> = Vec::new();
        let mut outer_inputs: Vec<Subscript> = Vec::new();
        let mut i: usize = 0;
        while i < self.inputs.len()
            invariant
                i <= self.inputs.len(),
                picked == |input: SubscriptView| inners@.contains(input.position),
                left == |input: SubscriptView| !inners@.contains(input.position),
                views(inner_inputs@) == self@.inputs.take(i as int).filter(picked),
                views(outer_inputs@) == self@.inputs.take(i as int).filter(left),
            decreases self.inputs.len() - i,
        {
            let input = &self.inputs[i];
            let copy = input.clone();
            proof {
                let seen = self@.inputs.take(i as int);
                assert(self@.inputs.take(i + 1) == seen.push(input@));
                seen.lemma_filter_push(input@, picked);
                seen.lemma_filter_push(input@, left);
            }
            if holds_position(&inners, input.position) {
                let ghost earlier = inner_inputs@;
                inner_inputs.push(copy);
                assert(views(inner_inputs@) == views(earlier).push(copy@));
            } else {
                let ghost earlier = outer_inputs@;
                outer_inputs.push(copy);
                assert(views(outer_inputs@) == views(earlier).push(copy@));
            }
            i = i + 1;
        }
        assert(self@.inputs.take(i as int) == self@.inputs);
        if inner_inputs.len() < 2 || inner_inputs.len() >= self.inputs.len() {
            return Err(Error::IllegalFactorization);
        }
        let inner_flat = flatten_indices(&inner_inputs);
        let outer_flat = flatten_indices(&outer_inputs);
        let ghost passed = |c: char| self@.passed_on(inners@, c);
        let mut indices: Vec<char> = Vec::new();
        let mut k: u8 = 0;
        while k < 26
            invariant
                k <= 26,
                inner_flat@ == flat_indices(self@.inner_inputs(inners@)),
                outer_flat@ == flat_indices(self@.outer_inputs(inners@)),
                passed == |c: char| self@.passed_on(inners@, c),
                indices@ == letters().take(k as int).filter(passed),
            decreases 26 - k,
        {
            let c = nth_letter(k);
            let inner: u8 = count_up_to_two(&inner_flat, c);
            let outer: u8 = count_up_to_two(&outer_flat, c);
            proof {
                let seen = letters().take(k as int);
                assert(letters().take(k + 1) == seen.push(c));
                seen.lemma_filter_push(c, passed);
            }
            if inner == 1 || (inner >= 2 && outer > 0) {
                indices.push(c);
            }
            k = k + 1;
        }
        assert(letters().take(k as int) == letters());
        let out = Subscript { raw: RawSubscript::Indices(indices), position: names.new_ident() };
        let ghost first = self@.first_step(inners@, out@.position);
        let ghost second = self@.second_step(inners@, out@.position);
        proof {
            self@.lemma_steps_labelled(inners@, out@.position);
            first.lemma_canonical();
            second.lemma_canonical();
            if self@.wf() && self@.bounded_by(old(names).issued()) {
                self@.lemma_factorize_wf(inners@, old(names).issued());
            }
        }
        outer_inputs.insert(0, out.clone());
        assert(views(outer_inputs@) == second.inputs);
        let mut inner = Subscripts { inputs: inner_inputs, output: out };
        let mut outer = Subscripts { inputs: outer_inputs, output: self.output.clone() };
        assert(inner@ == first);
        assert(outer@ == second);
        inner.remap_indices();
        outer.remap_indices();
        Ok((inner, outer))
    }
}

impl Subscripts {
    /// The subscripts that stand for `raw`: the inputs are named after the
    /// arguments, the result gets the next identifier of `names`, a missing
    /// output is filled in as implicit mode has it, and the whole is brought
    /// into canonical form.
    pub fn from_raw(names: &mut Namespace, raw: RawSubscripts) -> (subscripts: Self)
        requires
            raw@.wf(),
            old(names).issued() < usize::MAX,
        ensures
            subscripts@ == SubscriptsView::from_raw(
                raw@,
                Position::Out(old(names).issued() as usize),
            ),
            final(names).issued() == old(names).issued() + 1,
            subscripts@.wf(),
            subscripts@.bounded_by(final(names).issued()),
    {
        let ghost out = Position::Out(names.issued() as usize);
        let ghost named = raw@.named(out);
        let RawSubscripts { inputs: raw_inputs, output: raw_output } = raw;
        let mut inputs: Vec<Subscript> = Vec::new();
        let mut i: usize = 0;
        while i < raw_inputs.len()
            invariant
                i <= raw_inputs.len(),
                raw@.inputs == Seq::new(raw_inputs@.len(), |i: int| raw_inputs@[i]@),
                views(inputs@) == raw@.arguments().take(i as int),
            decreases raw_inputs.len() - i,
        {
            let input = Subscript { raw: raw_inputs[i].clone(), position: Position::Arg(i) };
            let ghost earlier = inputs@;
            inputs.push(input);
            assert(views(inputs@) == views(earlier).push(input@));
            assert(raw@.arguments().take(i + 1) == raw@.arguments().take(i as int).push(input@));
            i = i + 1;
        }
        assert(raw@.arguments().take(i as int) == raw@.arguments());
        let position = names.new_ident();
        let output = match raw_output {
            Some(output) => output,
            None => {
                let flat = flatten_indices(&inputs);
                let ghost once = |c: char| occurrences(flat_indices(raw@.arguments()), c) == 1;
                let mut indices: Vec<char> = Vec::new();
                let mut k: u8 = 0;
                while k < 26
                    invariant
                        k <= 26,
                        flat@ == flat_indices(raw@.arguments()),
                        once == |c: char| occurrences(flat_indices(raw@.arguments()), c) == 1,
                        indices@ == letters().take(k as int).filter(once),
                    decreases 26 - k,
                {
                    let c = nth_letter(k);
                    let n: u8 = count_up_to_two(&flat, c);
                    proof {
                        let seen = letters().take(k as int);
                        assert(letters().take(k + 1) == seen.push(c));
                        seen.lemma_filter_push(c, once);
                    }
                    if n == 1 {
                        indices.push(c);
                    }
                    k = k + 1;
                }
                assert(letters().take(k as int) == letters());
                RawSubscript::Indices(indices)
            },
        };
        let mut subscripts = Subscripts { inputs, output: Subscript { raw: output, position } };
        assert(subscripts@ == named);
        proof {
            assert(raw@.inputs.len() == raw_inputs.len());
            raw@.lemma_named_labelled(out);
            named.lemma_canonical();
        }
        subscripts.remap_indices();
        subscripts
    }

    /// Reads `indices` as subscripts and gives the subscripts that stand for
    /// them, as [`Subscripts::from_raw`] does. Fails, and issues no
    /// identifier, where `indices` is no text of subscripts.
    pub fn from_raw_indices(names: &mut Namespace, indices: &str) -> (subscripts: Result<
        Self,
        Error,
    >)
        requires
            old(names).issued() < usize::MAX,
        ensures
            match subscripts {
                Ok(subscripts) => {
                    &&& grammar::parse(indices@) matches Some(raw) && subscripts@
                        == SubscriptsView::from_raw(
                        raw,
                        Position::Out(old(names).issued() as usize),
                    )
                    &&& final(names).issued() == old(names).issued() + 1
                    &&& subscripts@.wf()
                    &&& subscripts@.bounded_by(final(names).issued())
                },
                Err(error) => {
                    &&& grammar::parse(indices@) is None
                    &&& error@ == ErrorView::InvalidSubscripts(indices@)
                    &&& *final(names) == *old(names)
                },
            },
    {
        match RawSubscripts::from_str(indices) {
            Ok(raw) => Ok(Self::from_raw(names, raw)),
            Err(error) => Err(error),
        }
    }

    /// The indices that are summed over, in alphabetical order: those that
    /// occur at least twice in the inputs and not in the output.
    pub fn contraction_indices(&self) -> (indices: Vec<char>)
        requires
            self@.labelled(),
        ensures
            indices@ == self@.contraction_indices(),
            forall|i: int, j: int| 0 <= i < j < indices@.len() ==> indices@[i] < indices@[j],
            forall|c: char|
                #![trigger indices@.contains(c)]
                indices@.contains(c) <==> occurrences(self@.input_indices(), c) >= 2
                    && !self@.output.indices().contains(c),
    {
        proof {
            self@.lemma_contraction_indices();
        }
        let flat = flatten_indices(&self.inputs);
        let kept = self.output.indices();
        let ghost summed = |c: char|
            occurrences(self@.input_indices(), c) >= 2 && !self@.output.indices().contains(c);
        let mut indices: Vec<char> = Vec::new();
        let mut k: u8 = 0;
        while k < 26
            invariant
                k <= 26,
                flat@ == self@.input_indices(),
                kept@ == self@.output.indices(),
                summed == |c: char|
                    occurrences(self@.input_indices(), c) >= 2 && !self@.output.indices().contains(
                        c,
                    ),
                indices@ == letters().take(k as int).filter(summed),
            decreases 26 - k,
        {
            let c = nth_letter(k);
            let n: u8 = count_up_to_two(&flat, c);
            let place: usize = find_place(&kept, c);
            proof {
                let seen = letters().take(k as int);
                assert(letters().take(k + 1) == seen.push(c));
                seen.lemma_filter_push(c, summed);
            }
            if n >= 2 && place == kept.len() {
                indices.push(c);
            }
            k = k + 1;
        }
        assert(letters().take(k as int) == letters());
        indices
    }

    /// The exponent of the memory that the result takes: the number of
    /// indices of the output.
    pub fn memory_order(&self) -> (order: usize)
        ensures
            order == self@.memory_order(),
    {
        self.output.indices().len()
    }

    /// The exponent of the number of operations that the contraction takes:
    /// the memory order plus the number of indices that are summed over.
    pub fn compute_order(&self) -> (order: usize)
        requires
            self@.labelled(),
            self@.compute_order() <= usize::MAX,
        ensures
            order == self@.compute_order(),
            order == self@.memory_order() + self@.contraction_indices().len(),
    {
        self.memory_order() + self.contraction_indices().len()
    }

    /// The name of the function that evaluates the contraction. Different
    /// subscripts may get the same name: `a...,b->ab` and `a,...b->ab` do.
    pub fn escaped_ident(&self) -> (ident: String)
        requires
            self@.labelled(),
        ensures
            ident@ == self@.escaped_ident(),
            self@.inputs.len() >= 1 ==> is_identifier(ident@),
    {
        proof {
            if self@.inputs.len() >= 1 {
                self@.lemma_escaped_ident();
            }
        }
        let mut out = String::new();
        let mut i: usize = 0;
        while i < self.inputs.len()
            invariant
                i <= self.inputs.len(),
                self@.labelled(),
                out@ == escaped_inputs(self@.inputs.take(i as int)),
            decreases self.inputs.len() - i,
        {
            assert(self@.inputs.take(i + 1).drop_last() == self@.inputs.take(i as int));
            assert(self@.inputs[i as int].raw.wf());
            self.inputs[i].raw.push_escaped(&mut out);
            out.append("_");
            i = i + 1;
        }
        assert(self@.inputs.take(i as int) == self@.inputs);
        out.append("_");
        self.output.raw.push_escaped(&mut out);
        out
    }

    /// The subscripts as text: `ab,bc->ac | arg0,arg1->out0`.
    pub fn to_string(&self) -> (text: String)
        requires
            self@.labelled(),
        ensures
            text@ == self@.display(),
    {
        let ghost raws = Seq::new(self@.inputs.len(), |i: int| self@.inputs[i].raw.escaped());
        let ghost names = Seq::new(self@.inputs.len(), |i: int| self@.inputs[i].position.name());
        let mut out = String::new();
        let mut i: usize = 0;
        while i < self.inputs.len()
            invariant
                i <= self.inputs.len(),
                self@.labelled(),
                raws == Seq::new(self@.inputs.len(), |i: int| self@.inputs[i].raw.escaped()),
                out@ == join(raws.take(i as int), ","@),
            decreases self.inputs.len() - i,
        {
            proof {
                assert(raws.take(i + 1) == raws.take(i as int).push(raws[i as int]));
                lemma_join_push(raws.take(i as int), raws[i as int], ","@);
            }
            assert(self@.inputs[i as int].raw.wf());
            if i > 0 {
                out.append(",");
            }
            self.inputs[i].raw.push_escaped(&mut out);
            i = i + 1;
        }
        assert(raws.take(i as int) == raws);
        out.append("->");
        self.output.raw.push_escaped(&mut out);
        out.append(" | ");
        let ghost head = out@;
        let mut i: usize = 0;
        while i < self.inputs.len()
            invariant
                i <= self.inputs.len(),
                names == Seq::new(self@.inputs.len(), |i: int| self@.inputs[i].position.name()),
                out@ == head + join(names.take(i as int), ","@),
            decreases self.inputs.len() - i,
        {
            proof {
                assert(names.take(i + 1) == names.take(i as int).push(names[i as int]));
                lemma_join_push(names.take(i as int), names[i as int], ","@);
            }
            if i > 0 {
                out.append(",");
            }
            self.inputs[i].position.push_name(&mut out);
            i = i + 1;
        }
        assert(names.take(i as int) == names);
        out.append("->");
        self.output.position.push_name(&mut out);
        out
    }
}

/// The subscripts of the inner product of two vectors, `a,a->`.
pub fn dot() -> (raw: RawSubscripts)
    ensures
        raw@.wf(),
        grammar::parse("a,a->"@) == Some(raw@),
{
    let mut inputs: Vec<RawSubscript> = Vec::new();
    inputs.push(RawSubscript::Indices(vec!['a']));
    inputs.push(RawSubscript::Indices(vec!['a']));
    let raw = RawSubscripts { inputs, output: Some(RawSubscript::Indices(Vec::new())) };
    proof {
        reveal_strlit("a,a->");
        reveal_strlit(",");
        reveal_strlit("->");
        let more = raw@.inputs.drop_first();
        assert(more.drop_first() == Seq::<RawSubscriptView>::empty());
        assert(written_more(more.drop_first()) == Seq::<char>::empty());
        assert(written_more(more) =~= seq![',', 'a']);
        assert(raw@.written() =~= "a,a->"@);
        lemma_read_written(raw@);
    }
    raw
}

/// The subscripts of the product of two matrices, `ab,bc->ac`.
pub fn gemm() -> (raw: RawSubscripts)
    ensures
        raw@.wf(),
        grammar::parse("ab,bc->ac"@) == Some(raw@),
{
    let mut inputs: Vec<RawSubscript> = Vec::new();
    inputs.push(RawSubscript::Indices(vec!['a', 'b']));
    inputs.push(RawSubscript::Indices(vec!['b', 'c']));
    let raw = RawSubscripts { inputs, output: Some(RawSubscript::Indices(vec!['a', 'c'])) };
    proof {
        reveal_strlit("ab,bc->ac");
        reveal_strlit(",");
        reveal_strlit("->");
        let more = raw@.inputs.drop_first();
        assert(more.drop_first() == Seq::<RawSubscriptView>::empty());
        assert(written_more(more.drop_first()) == Seq::<char>::empty());
        assert(written_more(more) =~= seq![',', 'b', 'c']);
        assert(raw@.written() =~= "ab,bc->ac"@);
        lemma_read_written(raw@);
    }
    raw
}

} // verus!
