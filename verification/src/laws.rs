//! What holds of subscripts whatever they are.

use vstd::prelude::*;
use crate::canonical::{
    canonical_map, first_seen, lemma_first_seen, lemma_first_seen_indices, lemma_first_seen_map,
    lemma_letters,
    lemma_occurrences_concat, lemma_occurrences_contains, lemma_place_of, lemma_place_of_unique,
    occurrences, place_of,
};
use crate::namespace::Position;
use crate::parser::{RawSubscriptView, RawSubscriptsView};
use crate::subscripts::{
    escaped_inputs, flat_indices, lemma_filter_increasing, lemma_filter_kept,
    lemma_flat_are_indices, lemma_flat_contains, lemma_partition_len, lemma_relabel_flat,
    lemma_relabel_indices, SubscriptView, SubscriptsView,
};
use crate::text::{are_indices, is_index, lemma_are_indices_concat, letters};

verus! {

/// The elements of `s` are in strictly increasing order.
pub open spec fn increasing(s: Seq<char>) -> bool {
    forall|i: int, j: int| 0 <= i < j < s.len() ==> s[i] < s[j]
}

/// `f` takes no two indices that occur in `s` to the same index.
pub open spec fn injective_on(f: spec_fn(char) -> char, s: Seq<char>) -> bool {
    forall|i: int, j: int|
        0 <= i < s.len() && 0 <= j < s.len() && f(s[i]) == f(s[j]) ==> s[i] == s[j]
}

/// Two increasing sequences with the same elements are the same sequence.
pub proof fn lemma_increasing_unique(a: Seq<char>, b: Seq<char>)
    requires
        increasing(a),
        increasing(b),
        forall|c: char| a.contains(c) <==> b.contains(c),
    ensures
        a == b,
    decreases a.len(),
{
    if a.len() == 0 {
        if b.len() > 0 {
            assert(b.contains(b[0]));
        }
    } else {
        assert(a.contains(a.last()));
        let k = choose|k: int| 0 <= k < b.len() && b[k] == a.last();
        assert(b.contains(b.last()));
        let m = choose|m: int| 0 <= m < a.len() && a[m] == b.last();
        assert(a.last() == b.last());
        let x = a.drop_last();
        let y = b.drop_last();
        assert forall|c: char| x.contains(c) <==> y.contains(c) by {
            if x.contains(c) {
                let i = choose|i: int| 0 <= i < x.len() && x[i] == c;
                assert(a[i] == c);
                assert(a.contains(c));
                let j = choose|j: int| 0 <= j < b.len() && b[j] == c;
                assert(j < b.len() - 1);
                assert(y[j] == c);
            }
            if y.contains(c) {
                let j = choose|j: int| 0 <= j < y.len() && y[j] == c;
                assert(b[j] == c);
                assert(b.contains(c));
                let i = choose|i: int| 0 <= i < a.len() && a[i] == c;
                assert(i < a.len() - 1);
                assert(x[i] == c);
            }
        }
        lemma_increasing_unique(x, y);
        assert(a == x.push(a.last()));
        assert(b == y.push(b.last()));
    }
}

/// Renaming by a function that takes nothing else in `s` to `f(c)` keeps
/// the number of times that `c` occurs.
pub proof fn lemma_occurrences_map(s: Seq<char>, f: spec_fn(char) -> char, c: char)
    requires
        forall|i: int| 0 <= i < s.len() && f(s[i]) == f(c) ==> s[i] == c,
    ensures
        occurrences(s.map_values(f), f(c)) == occurrences(s, c),
    decreases s.len(),
{
    if s.len() > 0 {
        let t = s.drop_last();
        assert(s.map_values(f).drop_last() == t.map_values(f));
        assert forall|i: int| 0 <= i < t.len() && f(t[i]) == f(c) implies t[i] == c by {
            assert(t[i] == s[i]);
        }
        lemma_occurrences_map(t, f, c);
        assert(s.last() == s[s.len() - 1]);
    } else {
        assert(s.map_values(f) == Seq::<char>::empty());
    }
}

impl RawSubscriptsView {
    /// The output of implicit mode holds, in alphabetical order, exactly
    /// the indices that occur once in the inputs.
    pub proof fn lemma_implicit_output(self)
        requires
            self.wf(),
        ensures
            increasing(self.implicit_output()),
            are_indices(self.implicit_output()),
            forall|c: char|
                #![trigger self.implicit_output().contains(c)]
                self.implicit_output().contains(c) <==> occurrences(
                    flat_indices(self.arguments()),
                    c,
                ) == 1,
    {
        let flat = flat_indices(self.arguments());
        let once = |c: char| occurrences(flat_indices(self.arguments()), c) == 1;
        lemma_letters();
        lemma_filter_increasing(letters(), once);
        assert forall|i: int| 0 <= i < self.implicit_output().len() implies is_index(
            #[trigger] self.implicit_output()[i],
        ) by {
            let j = lemma_filter_kept(letters(), once, i);
        }
        assert forall|i: int| 0 <= i < self.arguments().len() implies (
        #[trigger] self.arguments()[i]).raw.wf() by {
            assert(self.inputs[i].wf());
        }
        lemma_flat_are_indices(self.arguments());
        assert forall|c: char| #![trigger self.implicit_output().contains(c)]
            self.implicit_output().contains(c) <==> once(c) by {
            if self.implicit_output().contains(c) {
                let i = choose|i: int|
                    0 <= i < self.implicit_output().len() && self.implicit_output()[i] == c;
                let j = lemma_filter_kept(letters(), once, i);
            }
            if once(c) {
                lemma_occurrences_contains(flat, c);
                let k = choose|k: int| 0 <= k < flat.len() && flat[k] == c;
                assert(is_index(flat[k]));
                assert(letters().contains(c));
                let j = choose|j: int| 0 <= j < letters().len() && letters()[j] == c;
                letters().lemma_filter_contains(once, j);
            }
        }
    }
}

/// Renaming twice is renaming once by the composed function; only what
/// the functions do to the indices of the subscript matters.
pub proof fn lemma_relabel_raw_twice(
    raw: RawSubscriptView,
    f: spec_fn(char) -> char,
    g: spec_fn(char) -> char,
    h: spec_fn(char) -> char,
)
    requires
        forall|i: int| 0 <= i < raw.indices().len() ==> g(f(#[trigger] raw.indices()[i])) == h(
            raw.indices()[i],
        ),
    ensures
        raw.relabel(f).relabel(g) == raw.relabel(h),
{
    match raw {
        RawSubscriptView::Indices(indices) => {
            assert forall|i: int| 0 <= i < indices.len() implies indices.map_values(f).map_values(
                g,
            )[i] == indices.map_values(h)[i] by {
                assert(indices[i] == raw.indices()[i]);
            }
            assert(indices.map_values(f).map_values(g) == indices.map_values(h));
        },
        RawSubscriptView::Ellipsis { start, end } => {
            assert forall|i: int| 0 <= i < start.len() implies start.map_values(f).map_values(g)[i]
                == start.map_values(h)[i] by {
                assert(start[i] == raw.indices()[i]);
            }
            assert forall|i: int| 0 <= i < end.len() implies end.map_values(f).map_values(g)[i]
                == end.map_values(h)[i] by {
                assert(end[i] == raw.indices()[start.len() + i]);
            }
            assert(start.map_values(f).map_values(g) == start.map_values(h));
            assert(end.map_values(f).map_values(g) == end.map_values(h));
        },
    }
}

impl SubscriptsView {
    /// Renaming twice is renaming once by the composed function; only what
    /// the functions do to the indices of the subscripts matters.
    pub proof fn lemma_relabel_twice(
        self,
        f: spec_fn(char) -> char,
        g: spec_fn(char) -> char,
        h: spec_fn(char) -> char,
    )
        requires
            forall|c: char| self.all_indices().contains(c) ==> g(f(c)) == h(c),
        ensures
            self.relabel(f).relabel(g) == self.relabel(h),
    {
        let all = self.all_indices();
        assert forall|i: int| 0 <= i < self.inputs.len() implies #[trigger] self.relabel(f).relabel(
            g,
        ).inputs[i] == self.relabel(h).inputs[i] by {
            let raw = self.inputs[i].raw;
            assert forall|j: int| 0 <= j < raw.indices().len() implies g(
                f(#[trigger] raw.indices()[j]),
            ) == h(raw.indices()[j]) by {
                lemma_flat_contains(self.inputs, i, j);
                let x = raw.indices()[j];
                let k = choose|k: int|
                    0 <= k < self.input_indices().len() && self.input_indices()[k] == x;
                assert(all[k] == x);
                assert(all.contains(x));
            }
            lemma_relabel_raw_twice(raw, f, g, h);
        }
        assert(self.relabel(f).relabel(g).inputs == self.relabel(h).inputs);
        let raw = self.output.raw;
        assert forall|j: int| 0 <= j < raw.indices().len() implies g(f(#[trigger] raw.indices()[j]))
            == h(raw.indices()[j]) by {
            assert(all[self.input_indices().len() + j] == raw.indices()[j]);
            assert(all.contains(raw.indices()[j]));
        }
        lemma_relabel_raw_twice(raw, f, g, h);
    }

    /// The indices of renamed subscripts are the renamed indices.
    pub proof fn lemma_relabel_all(self, f: spec_fn(char) -> char)
        ensures
            self.relabel(f).all_indices() == self.all_indices().map_values(f),
            self.relabel(f).input_indices() == self.input_indices().map_values(f),
            self.relabel(f).output.indices() == self.output.indices().map_values(f),
    {
        lemma_relabel_flat(self.inputs, f);
        lemma_relabel_indices(self.output.raw, f);
        assert((self.input_indices() + self.output.indices()).map_values(f)
            == self.input_indices().map_values(f) + self.output.indices().map_values(f));
    }

    /// Subscripts that differ only in the names of their indices have the
    /// same canonical form.
    pub proof fn lemma_canonical_relabel(self, f: spec_fn(char) -> char)
        requires
            injective_on(f, self.all_indices()),
        ensures
            self.relabel(f).canonical() == self.canonical(),
    {
        let all = self.all_indices();
        let order = first_seen(all);
        self.lemma_relabel_all(f);
        lemma_first_seen_map(all, f);
        lemma_first_seen(all);
        let renamed = order.map_values(f);
        let g = canonical_map(renamed);
        let h = canonical_map(order);
        assert(self.relabel(f).canonical() == self.relabel(f).relabel(g));
        assert forall|c: char| all.contains(c) implies g(f(c)) == h(c) by {
            lemma_place_of(order, c);
            let k = place_of(order, c);
            assert(order.contains(c));
            assert(renamed[k] == f(c));
            assert forall|j: int| 0 <= j < k implies renamed[j] != f(c) by {
                assert(order.contains(order[j]));
                assert(all.contains(order[j]));
                let a = choose|a: int| 0 <= a < all.len() && all[a] == order[j];
                let b = choose|b: int| 0 <= b < all.len() && all[b] == c;
                if f(all[a]) == f(all[b]) {
                    assert(all[a] == all[b]);
                }
            }
            lemma_place_of_unique(renamed, f(c), k);
        }
        self.lemma_relabel_twice(f, g, h);
    }
}

impl RawSubscriptsView {
    /// The indices of the inputs and of the written output.
    pub open spec fn written_indices(self) -> Seq<char> {
        flat_indices(self.arguments()) + match self.output {
            Some(output) => output.indices(),
            None => Seq::empty(),
        }
    }

    /// Renaming the indices of well-formed subscripts renames the output
    /// of implicit mode, as long as no two indices get the same name and
    /// the indices that occur once keep their alphabetical order.
    pub proof fn lemma_implicit_relabel(self, f: spec_fn(char) -> char)
        requires
            self.wf(),
            self.relabel(f).wf(),
            injective_on(f, flat_indices(self.arguments())),
            forall|c: char, d: char|
                occurrences(flat_indices(self.arguments()), c) == 1 && occurrences(
                    flat_indices(self.arguments()),
                    d,
                ) == 1 && c < d ==> f(c) < f(d),
        ensures
            self.relabel(f).implicit_output() == self.implicit_output().map_values(f),
    {
        let flat = flat_indices(self.arguments());
        let renamed = self.relabel(f);
        let a = self.implicit_output().map_values(f);
        let b = renamed.implicit_output();
        self.lemma_implicit_output();
        renamed.lemma_implicit_output();
        assert(renamed.arguments() == Seq::new(
            self.arguments().len(),
            |i: int| self.arguments()[i].relabel(f),
        ));
        lemma_relabel_flat(self.arguments(), f);
        assert(flat_indices(renamed.arguments()) == flat.map_values(f));
        assert forall|i: int, j: int| 0 <= i < j < a.len() implies a[i] < a[j] by {
            let c = self.implicit_output()[i];
            let d = self.implicit_output()[j];
            assert(self.implicit_output().contains(c));
            assert(self.implicit_output().contains(d));
        }
        assert forall|x: char| a.contains(x) <==> b.contains(x) by {
            if a.contains(x) {
                let i = choose|i: int| 0 <= i < a.len() && a[i] == x;
                let c = self.implicit_output()[i];
                assert(self.implicit_output().contains(c));
                lemma_occurrences_contains(flat, c);
                let k = choose|k: int| 0 <= k < flat.len() && flat[k] == c;
                assert forall|m: int| 0 <= m < flat.len() && f(flat[m]) == f(c) implies flat[m]
                    == c by {
                    assert(f(flat[m]) == f(flat[k]));
                }
                lemma_occurrences_map(flat, f, c);
                assert(b.contains(f(c)));
            }
            if b.contains(x) {
                lemma_occurrences_contains(flat.map_values(f), x);
                let k = choose|k: int|
                    0 <= k < flat.map_values(f).len() && flat.map_values(f)[k] == x;
                let c = flat[k];
                assert(f(c) == x);
                assert forall|m: int| 0 <= m < flat.len() && f(flat[m]) == f(c) implies flat[m]
                    == c by {
                    assert(f(flat[m]) == f(flat[k]));
                }
                lemma_occurrences_map(flat, f, c);
                assert(self.implicit_output().contains(c));
                let i = choose|i: int|
                    0 <= i < self.implicit_output().len() && self.implicit_output()[i] == c;
                assert(a[i] == x);
            }
        }
        lemma_increasing_unique(a, b);
    }

    /// Subscripts that differ only by a consistent renaming of their
    /// indices stand for the same canonical subscripts. In implicit mode
    /// the renaming must keep the alphabetical order of the indices that
    /// occur once, since that order decides the output.
    pub proof fn lemma_canonical_equivalence(self, f: spec_fn(char) -> char, out: Position)
        requires
            self.wf(),
            self.relabel(f).wf(),
            injective_on(f, self.written_indices()),
            self.output is None ==> forall|c: char, d: char|
                occurrences(flat_indices(self.arguments()), c) == 1 && occurrences(
                    flat_indices(self.arguments()),
                    d,
                ) == 1 && c < d ==> f(c) < f(d),
        ensures
            SubscriptsView::from_raw(self.relabel(f), out) == SubscriptsView::from_raw(self, out),
    {
        let flat = flat_indices(self.arguments());
        let named = self.named(out);
        let renamed = self.relabel(f).named(out);
        assert(renamed.inputs == named.relabel(f).inputs);
        match self.output {
            Some(output) => {
                assert(named.all_indices() == self.written_indices());
            },
            None => {
                assert(self.written_indices() == flat);
                self.lemma_implicit_relabel(f);
                self.lemma_implicit_output();
                let once = self.implicit_output();
                assert forall|i: int, j: int|
                    0 <= i < named.all_indices().len() && 0 <= j < named.all_indices().len() && f(
                        named.all_indices()[i],
                    ) == f(named.all_indices()[j]) implies named.all_indices()[i]
                    == named.all_indices()[j] by {
                    let x = named.all_indices()[i];
                    let y = named.all_indices()[j];
                    assert(flat.contains(x)) by {
                        if i >= flat.len() {
                            assert(once.contains(once[i - flat.len()]));
                            lemma_occurrences_contains(flat, x);
                        }
                    }
                    assert(flat.contains(y)) by {
                        if j >= flat.len() {
                            assert(once.contains(once[j - flat.len()]));
                            lemma_occurrences_contains(flat, y);
                        }
                    }
                    let a = choose|a: int| 0 <= a < flat.len() && flat[a] == x;
                    let b = choose|b: int| 0 <= b < flat.len() && flat[b] == y;
                    assert(f(flat[a]) == f(flat[b]));
                }
            },
        }
        assert(renamed == named.relabel(f));
        named.lemma_canonical_relabel(f);
    }
}

/// The flat indices of two lists of inputs, one after the other, are the
/// flat indices of the first and then those of the second.
pub proof fn lemma_flat_concat(a: Seq<SubscriptView>, b: Seq<SubscriptView>)
    ensures
        flat_indices(a + b) == flat_indices(a) + flat_indices(b),
    decreases b.len(),
{
    if b.len() == 0 {
        assert(a + b == a);
    } else {
        assert((a + b).drop_last() == a + b.drop_last());
        lemma_flat_concat(a, b.drop_last());
    }
}

/// An index occurs among the inputs as often as among those that a
/// condition picks and those that it leaves, taken together.
pub proof fn lemma_occurrences_partition(
    inputs: Seq<SubscriptView>,
    pred: spec_fn(SubscriptView) -> bool,
    rest: spec_fn(SubscriptView) -> bool,
    c: char,
)
    requires
        forall|input: SubscriptView| #[trigger] rest(input) == !pred(input),
    ensures
        occurrences(flat_indices(inputs), c) == occurrences(flat_indices(inputs.filter(pred)), c)
            + occurrences(flat_indices(inputs.filter(rest)), c),
    decreases inputs.len(),
{
    reveal(Seq::filter);
    if inputs.len() > 0 {
        let before = inputs.drop_last();
        let last = inputs.last();
        lemma_occurrences_partition(before, pred, rest, c);
        lemma_occurrences_concat(flat_indices(before), last.indices(), c);
        if pred(last) {
            assert(inputs.filter(pred).drop_last() == before.filter(pred));
            lemma_occurrences_concat(flat_indices(before.filter(pred)), last.indices(), c);
        } else {
            assert(inputs.filter(rest).drop_last() == before.filter(rest));
            lemma_occurrences_concat(flat_indices(before.filter(rest)), last.indices(), c);
        }
    }
}

/// In an increasing sequence nothing occurs twice.
pub proof fn lemma_occurrences_increasing(s: Seq<char>, c: char)
    requires
        increasing(s),
    ensures
        occurrences(s, c) == if s.contains(c) {
            1nat
        } else {
            0nat
        },
    decreases s.len(),
{
    if s.len() > 0 {
        let t = s.drop_last();
        lemma_occurrences_increasing(t, c);
        if t.contains(c) {
            let i = choose|i: int| 0 <= i < t.len() && t[i] == c;
            assert(s[i] == c);
            assert(s[i] < s[s.len() - 1]);
        } else if s.contains(c) {
            let i = choose|i: int| 0 <= i < s.len() && s[i] == c;
            if i < s.len() - 1 {
                assert(t[i] == c);
            }
        }
        if s.last() == c {
            assert(s[s.len() - 1] == c);
        }
    }
}

impl SubscriptsView {
    /// An index is free where it occurs in the subscripts and is not
    /// summed over.
    pub open spec fn is_free(self, c: char) -> bool {
        self.all_indices().contains(c) && !self.contraction_indices().contains(c)
    }

    /// The tensor between the two steps of a split has, in alphabetical
    /// order, exactly the indices of the inner inputs that the outer
    /// inputs have too, or that occur only once among all the inputs.
    pub proof fn lemma_intermediate(self, inners: Seq<Position>)
        requires
            self.labelled(),
        ensures
            increasing(self.intermediate(inners)),
            are_indices(self.intermediate(inners)),
            forall|c: char|
                #![trigger self.intermediate(inners).contains(c)]
                self.intermediate(inners).contains(c) <==> self.passed_on(inners, c),
            forall|c: char|
                #![trigger self.passed_on(inners, c)]
                self.passed_on(inners, c) <==> occurrences(
                    flat_indices(self.inner_inputs(inners)),
                    c,
                ) >= 1 && (occurrences(flat_indices(self.outer_inputs(inners)), c) >= 1
                    || occurrences(self.input_indices(), c) == 1),
    {
        let passed = |c: char| self.passed_on(inners, c);
        let picked = |input: SubscriptView| inners.contains(input.position);
        let left = |input: SubscriptView| !inners.contains(input.position);
        lemma_letters();
        lemma_filter_increasing(letters(), passed);
        assert forall|i: int| 0 <= i < self.intermediate(inners).len() implies is_index(
            #[trigger] self.intermediate(inners)[i],
        ) by {
            let j = lemma_filter_kept(letters(), passed, i);
        }
        self.lemma_steps_labelled(inners, Position::Out(0));
        lemma_flat_are_indices(self.first_step(inners, Position::Out(0)).inputs);
        let inner = flat_indices(self.inner_inputs(inners));
        assert forall|c: char| #![trigger self.intermediate(inners).contains(c)]
            self.intermediate(inners).contains(c) <==> self.passed_on(inners, c) by {
            if self.intermediate(inners).contains(c) {
                let i = choose|i: int|
                    0 <= i < self.intermediate(inners).len() && self.intermediate(inners)[i] == c;
                let j = lemma_filter_kept(letters(), passed, i);
            }
            if self.passed_on(inners, c) {
                lemma_occurrences_contains(inner, c);
                let k = choose|k: int| 0 <= k < inner.len() && inner[k] == c;
                assert(is_index(inner[k]));
                assert(letters().contains(c));
                let j = choose|j: int| 0 <= j < letters().len() && letters()[j] == c;
                letters().lemma_filter_contains(passed, j);
            }
        }
        assert forall|c: char| #![trigger self.passed_on(inners, c)]
            self.passed_on(inners, c) <==> occurrences(
                flat_indices(self.inner_inputs(inners)),
                c,
            ) >= 1 && (occurrences(flat_indices(self.outer_inputs(inners)), c) >= 1 || occurrences(
                self.input_indices(),
                c,
            ) == 1) by {
            lemma_occurrences_partition(self.inputs, picked, left, c);
        }
    }

    /// Splitting keeps the free indices: an index is free in the second
    /// step, before that is made canonical, exactly if it is free in the
    /// whole.
    pub proof fn lemma_split_keeps_free(self, inners: Seq<Position>, out: Position, c: char)
        requires
            self.labelled(),
        ensures
            self.second_step(inners, out).output == self.output,
            self.second_step(inners, out).is_free(c) <==> self.is_free(c),
    {
        let second = self.second_step(inners, out);
        let mid = self.intermediate(inners);
        let picked = |input: SubscriptView| inners.contains(input.position);
        let left = |input: SubscriptView| !inners.contains(input.position);
        let inner = flat_indices(self.inner_inputs(inners));
        let outer = flat_indices(self.outer_inputs(inners));
        self.lemma_steps_labelled(inners, out);
        self.lemma_intermediate(inners);
        self.lemma_contraction_indices();
        second.lemma_contraction_indices();
        lemma_occurrences_partition(self.inputs, picked, left, c);
        lemma_occurrences_increasing(mid, c);
        assert(second.input_indices() == mid + outer) by {
            let first = seq![self.first_step(inners, out).output];
            lemma_flat_concat(first, self.outer_inputs(inners));
            assert(first.drop_last() == Seq::<SubscriptView>::empty());
            assert(flat_indices(first.drop_last()) == Seq::<char>::empty());
            assert(first.last().indices() == mid);
            assert(flat_indices(first) == Seq::<char>::empty() + mid);
        }
        lemma_occurrences_concat(mid, outer, c);
        lemma_occurrences_concat(self.input_indices(), self.output.indices(), c);
        lemma_occurrences_concat(second.input_indices(), second.output.indices(), c);
        lemma_occurrences_contains(self.all_indices(), c);
        lemma_occurrences_contains(second.all_indices(), c);
        lemma_occurrences_contains(self.output.indices(), c);
        assert(self.intermediate(inners).contains(c) <==> self.passed_on(inners, c));
    }
}

/// The renaming that makes a sequence of indices canonical takes no two
/// of them to the same letter.
pub proof fn lemma_canonical_map_injective(s: Seq<char>)
    requires
        are_indices(s),
    ensures
        injective_on(canonical_map(first_seen(s)), s),
{
    let order = first_seen(s);
    lemma_first_seen(s);
    lemma_first_seen_indices(s);
    assert forall|i: int, j: int|
        0 <= i < s.len() && 0 <= j < s.len() && canonical_map(order)(s[i]) == canonical_map(order)(
            s[j],
        ) implies s[i] == s[j] by {
        assert(order.contains(s[i]) && order.contains(s[j]));
        lemma_place_of(order, s[i]);
        lemma_place_of(order, s[j]);
    }
}

impl SubscriptsView {
    /// A renaming that takes no two indices to the same index keeps the
    /// free indices free and the others not.
    pub proof fn lemma_relabel_keeps_free(self, f: spec_fn(char) -> char, c: char)
        requires
            self.labelled(),
            self.relabel(f).labelled(),
            injective_on(f, self.all_indices()),
            self.all_indices().contains(c),
        ensures
            self.relabel(f).is_free(f(c)) <==> self.is_free(c),
    {
        let all = self.all_indices();
        let flat = self.input_indices();
        let kept = self.output.indices();
        let renamed = self.relabel(f);
        self.lemma_relabel_all(f);
        self.lemma_contraction_indices();
        renamed.lemma_contraction_indices();
        let k = choose|k: int| 0 <= k < all.len() && all[k] == c;
        assert(all.map_values(f)[k] == f(c));
        assert forall|i: int| 0 <= i < flat.len() && f(flat[i]) == f(c) implies flat[i] == c by {
            assert(all[i] == flat[i]);
            assert(f(all[i]) == f(all[k]));
        }
        lemma_occurrences_map(flat, f, c);
        if kept.map_values(f).contains(f(c)) {
            let j = choose|j: int|
                0 <= j < kept.map_values(f).len() && kept.map_values(f)[j] == f(c);
            assert(all[flat.len() + j] == kept[j]);
            assert(f(all[flat.len() + j]) == f(all[k]));
            assert(kept[j] == c);
        }
        if kept.contains(c) {
            let j = choose|j: int| 0 <= j < kept.len() && kept[j] == c;
            assert(kept.map_values(f)[j] == f(c));
        }
    }

    /// Splitting is sound. The second step has the output of the whole, up
    /// to the renaming that makes the step canonical, and an index of it is
    /// free exactly if the index that it stands for is free in the whole.
    /// The first step puts out the tensor between the steps, up to the
    /// renaming that makes that step canonical.
    pub proof fn lemma_factorize_sound(self, inners: Seq<Position>, out: Position, c: char)
        requires
            self.labelled(),
            self.second_step(inners, out).all_indices().contains(c),
        ensures
            ({
                let (inner, outer) = self.factorize(inners, out);
                let first = canonical_map(first_seen(self.first_step(inners, out).all_indices()));
                let second = canonical_map(first_seen(self.second_step(inners, out).all_indices()));
                &&& outer.output == self.output.relabel(second)
                &&& outer.memory_order() == self.memory_order()
                &&& outer.is_free(second(c)) <==> self.is_free(c)
                &&& inner.output.indices() == self.intermediate(inners).map_values(first)
                &&& inner.output.position == out
                &&& outer.inputs[0].position == out
            }),
    {
        let step = self.second_step(inners, out);
        let g = canonical_map(first_seen(step.all_indices()));
        self.lemma_steps_labelled(inners, out);
        step.lemma_canonical();
        lemma_flat_are_indices(step.inputs);
        lemma_are_indices_concat(step.input_indices(), step.output.indices());
        lemma_canonical_map_injective(step.all_indices());
        step.lemma_relabel_keeps_free(g, c);
        self.lemma_split_keeps_free(inners, out, c);
        lemma_relabel_indices(self.output.raw, g);
    }
}

/// What a filter keeps stays in its order.
pub proof fn lemma_filter_pair<A>(s: Seq<A>, pred: spec_fn(A) -> bool, i: int, j: int) -> (at: (
    int,
    int,
))
    requires
        0 <= i < j < s.filter(pred).len(),
    ensures
        0 <= at.0 < at.1 < s.len(),
        s[at.0] == s.filter(pred)[i],
        s[at.1] == s.filter(pred)[j],
    decreases s.len(),
{
    reveal(Seq::filter);
    if pred(s.last()) && j == s.filter(pred).len() - 1 {
        let first = lemma_filter_kept(s.drop_last(), pred, i);
        (first, s.len() - 1)
    } else {
        lemma_filter_pair(s.drop_last(), pred, i, j)
    }
}

impl SubscriptsView {
    /// Splitting keeps the invariant. Where well-formed subscripts, whose
    /// intermediate tensors are among the first `issued`, are split with
    /// the next identifier, both steps are well formed, their intermediate
    /// tensors are among the first `issued + 1`, the first step takes the
    /// inner inputs, and the second step takes one input more than are left.
    pub proof fn lemma_factorize_wf(self, inners: Seq<Position>, issued: nat)
        requires
            self.wf(),
            self.bounded_by(issued),
            issued <= usize::MAX,
            !self.degenerate(inners),
        ensures
            ({
                let (inner, outer) = self.factorize(inners, Position::Out(issued as usize));
                &&& inner.wf()
                &&& outer.wf()
                &&& inner.bounded_by(issued + 1)
                &&& outer.bounded_by(issued + 1)
                &&& inner.inputs.len() == self.inner_inputs(inners).len()
                &&& outer.inputs.len() == self.inputs.len() - inner.inputs.len() + 1
            }),
    {
        let out = Position::Out(issued as usize);
        let first = self.first_step(inners, out);
        let second = self.second_step(inners, out);
        let picked = |input: SubscriptView| inners.contains(input.position);
        let left = |input: SubscriptView| !inners.contains(input.position);
        self.lemma_steps_labelled(inners, out);
        first.lemma_canonical();
        second.lemma_canonical();
        lemma_partition_len(self.inputs, inners);
        assert forall|i: int| 0 <= i < first.inputs.len() implies {
            &&& (#[trigger] first.inputs[i]).position != out
            &&& first.inputs[i].position matches Position::Out(k) ==> k < issued
        } by {
            let j = lemma_filter_kept(self.inputs, picked, i);
            assert(self.inputs[j].position matches Position::Out(k) ==> k < issued);
        }
        assert forall|i: int, j: int| 0 <= i < j < first.inputs.len() implies (
        #[trigger] first.inputs[i]).position != (#[trigger] first.inputs[j]).position by {
            let at = lemma_filter_pair(self.inputs, picked, i, j);
            assert(self.inputs[at.0].position != self.inputs[at.1].position);
        }
        let rest = self.outer_inputs(inners);
        assert forall|i: int| 0 <= i < rest.len() implies {
            &&& (#[trigger] rest[i]).position != out
            &&& rest[i].position != self.output.position
            &&& rest[i].position matches Position::Out(k) ==> k < issued
        } by {
            let j = lemma_filter_kept(self.inputs, left, i);
            assert(self.inputs[j].position matches Position::Out(k) ==> k < issued);
            assert(self.inputs[j].position != self.output.position);
        }
        assert forall|i: int, j: int| 0 <= i < j < second.inputs.len() implies (
        #[trigger] second.inputs[i]).position != (#[trigger] second.inputs[j]).position by {
            if i == 0 {
                assert(second.inputs[j] == rest[j - 1]);
            } else {
                let at = lemma_filter_pair(self.inputs, left, i - 1, j - 1);
                assert(self.inputs[at.0].position != self.inputs[at.1].position);
                assert(second.inputs[i] == rest[i - 1]);
                assert(second.inputs[j] == rest[j - 1]);
            }
        }
        assert forall|i: int| 0 <= i < second.inputs.len() implies {
            &&& (#[trigger] second.inputs[i]).position != self.output.position
            &&& second.inputs[i].position matches Position::Out(k) ==> k < issued + 1
        } by {
            if i > 0 {
                assert(second.inputs[i] == rest[i - 1]);
            }
        }
        assert(first.distinct_positions());
        assert(second.distinct_positions());
        assert(first.canonical().distinct_positions());
        assert(second.canonical().distinct_positions());
        assert(first.canonical().bounded_by(issued + 1));
        assert(second.canonical().bounded_by(issued + 1));
    }
}

/// Whether `s` can name a function: it is made of lower-case letters and
/// underscores, at least two of them, and an underscore among them, so that
/// it is no reserved word.
pub open spec fn is_identifier(s: Seq<char>) -> bool {
    &&& s.len() >= 2
    &&& s.contains('_')
    &&& forall|i: int| 0 <= i < s.len() ==> is_index(#[trigger] s[i]) || s[i] == '_'
}

/// Every character of `s` is a lower-case letter or an underscore.
pub open spec fn is_word(s: Seq<char>) -> bool {
    forall|i: int| 0 <= i < s.len() ==> is_index(#[trigger] s[i]) || s[i] == '_'
}

/// Words put together make a word.
pub proof fn lemma_word_concat(a: Seq<char>, b: Seq<char>)
    requires
        is_word(a),
        is_word(b),
    ensures
        is_word(a + b),
{
}

/// A subscript whose labels are indices is a word inside an identifier.
pub proof fn lemma_escaped_word(raw: RawSubscriptView)
    requires
        raw.wf(),
    ensures
        is_word(raw.escaped()),
{
    reveal_strlit("___");
    match raw {
        RawSubscriptView::Indices(indices) => {},
        RawSubscriptView::Ellipsis { start, end } => {
            lemma_are_indices_concat(start, end);
            lemma_word_concat(start, "___"@);
            lemma_word_concat(start + "___"@, end);
        },
    }
}

/// The inputs inside an identifier are a word, with one character at
/// least for each input.
pub proof fn lemma_escaped_inputs_word(inputs: Seq<SubscriptView>)
    requires
        forall|i: int| 0 <= i < inputs.len() ==> (#[trigger] inputs[i]).raw.wf(),
    ensures
        is_word(escaped_inputs(inputs)),
        escaped_inputs(inputs).len() >= inputs.len(),
    decreases inputs.len(),
{
    reveal_strlit("_");
    if inputs.len() > 0 {
        let rest = inputs.drop_last();
        assert forall|i: int| 0 <= i < rest.len() implies (#[trigger] rest[i]).raw.wf() by {
            assert(rest[i] == inputs[i]);
        }
        lemma_escaped_inputs_word(rest);
        assert(inputs.last().raw.wf());
        lemma_escaped_word(inputs.last().raw);
        lemma_word_concat(escaped_inputs(rest), inputs.last().raw.escaped());
        lemma_word_concat(escaped_inputs(rest) + inputs.last().raw.escaped(), "_"@);
    }
}

impl SubscriptsView {
    /// The name of the function that evaluates a contraction can name a
    /// function.
    pub proof fn lemma_escaped_ident(self)
        requires
            self.labelled(),
            self.inputs.len() >= 1,
        ensures
            is_identifier(self.escaped_ident()),
    {
        reveal_strlit("_");
        lemma_escaped_inputs_word(self.inputs);
        lemma_escaped_word(self.output.raw);
        let head = escaped_inputs(self.inputs);
        lemma_word_concat(head, "_"@);
        lemma_word_concat(head + "_"@, self.output.raw.escaped());
        assert(self.escaped_ident()[head.len() as int] == '_');
    }
}

} // verus!
