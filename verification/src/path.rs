//! The order in which the steps of a contraction are carried out.

use vstd::prelude::*;
use vstd::arithmetic::power2::pow2;
use crate::canonical::{canonical_map, first_seen, lemma_letters, occurrences};
use crate::error::{Error, ErrorView};
use crate::grammar;
use crate::namespace::{Namespace, Position};
use crate::subscripts::{
    lemma_partition_len, lemma_relabel_indices, views, Subscript, SubscriptView, Subscripts,
    SubscriptsView,
};
use crate::subsets::{
    first_mask, lemma_mask_bits_len, lemma_mask_bits_of_value, lemma_mask_value_of_bits,
    mask_bits, next_mask,
};
use crate::text::letters;

verus! {

/// The larger of two numbers.
pub open spec fn larger(a: nat, b: nat) -> nat {
    if a >= b {
        a
    } else {
        b
    }
}

/// The greatest compute order among `steps`; zero where there is none.
pub open spec fn steps_compute_order(steps: Seq<SubscriptsView>) -> nat
    decreases steps.len(),
{
    if steps.len() == 0 {
        0
    } else {
        larger(steps_compute_order(steps.drop_last()), steps.last().compute_order())
    }
}

/// The greatest memory order among `steps`; zero where there is none.
pub open spec fn steps_memory_order(steps: Seq<SubscriptsView>) -> nat
    decreases steps.len(),
{
    if steps.len() == 0 {
        0
    } else {
        larger(steps_memory_order(steps.drop_last()), steps.last().memory_order())
    }
}

/// A plan is cheaper than another where its compute order is smaller, or
/// the compute orders are equal and its memory order is smaller.
pub open spec fn cheaper(a: Seq<SubscriptsView>, b: Seq<SubscriptsView>) -> bool {
    steps_compute_order(a) < steps_compute_order(b) || (steps_compute_order(a)
        == steps_compute_order(b) && steps_memory_order(a) < steps_memory_order(b))
}

/// The names of the inputs that `bits` marks, in the order of the inputs.
pub open spec fn marked(inputs: Seq<SubscriptView>, bits: Seq<bool>) -> Seq<Position>
    decreases inputs.len(),
{
    if inputs.len() == 0 || bits.len() == 0 {
        Seq::empty()
    } else {
        let before = marked(inputs.drop_last(), bits.drop_last());
        if bits.last() {
            before.push(inputs.last().position)
        } else {
            before
        }
    }
}

/// The plan that contracts first the inputs marked by the binary digits of
/// `mask`, and then goes on with the best plan for what is left. There
/// is none where that split is degenerate.
pub open spec fn candidate(subscripts: SubscriptsView, issued: nat, mask: nat) -> Option<
    Seq<SubscriptsView>,
>
    decreases subscripts.inputs.len(), 0nat, 0nat,
{
    let inners = marked(subscripts.inputs, mask_bits(subscripts.inputs.len(), mask));
    let (inner, outer) = subscripts.factorize(inners, Position::Out(issued as usize));
    if !subscripts.degenerate(inners) {
        proof {
            lemma_partition_len(subscripts.inputs, inners);
        }
        Some(seq![inner] + plan(outer, issued + 1))
    } else {
        None
    }
}

/// The first of the cheapest plans among the candidates of the masks below
/// `count`.
pub open spec fn search(subscripts: SubscriptsView, issued: nat, count: nat) -> Option<
    Seq<SubscriptsView>,
>
    decreases subscripts.inputs.len(), 1nat, count,
{
    if count == 0 {
        None
    } else {
        better(
            search(subscripts, issued, (count - 1) as nat),
            candidate(subscripts, issued, (count - 1) as nat),
        )
    }
}

/// The one of two plans that is kept: the later one only where it is cheaper.
pub open spec fn better(
    earlier: Option<Seq<SubscriptsView>>,
    later: Option<Seq<SubscriptsView>>,
) -> Option<Seq<SubscriptsView>> {
    match (earlier, later) {
        (Some(a), Some(b)) => if cheaper(b, a) {
            later
        } else {
            earlier
        },
        (Some(_), None) => earlier,
        (None, _) => later,
    }
}

/// The plan that the search settles on. With two inputs or fewer it is the
/// contraction itself. With more, every subset of the inputs is tried as a
/// first step, in the order of the numbers `0 .. 2^n` whose binary digits
/// mark the inputs, and last the contraction in one step; the first of the
/// cheapest is taken. `issued` is the number of intermediate tensors that
/// have been named before.
pub open spec fn plan(subscripts: SubscriptsView, issued: nat) -> Seq<SubscriptsView>
    decreases subscripts.inputs.len(), 2nat, 0nat,
{
    if subscripts.inputs.len() <= 2 {
        seq![subscripts]
    } else {
        better(
            search(subscripts, issued, pow2(subscripts.inputs.len())),
            Some(seq![subscripts]),
        )->0
    }
}

/// A plan is at most as costly as another where the other is not cheaper.
pub open spec fn at_most(a: Seq<SubscriptsView>, b: Seq<SubscriptsView>) -> bool {
    steps_compute_order(a) < steps_compute_order(b) || (steps_compute_order(a)
        == steps_compute_order(b) && steps_memory_order(a) <= steps_memory_order(b))
}

/// What the search has found after `count` masks is the candidate of one of
/// them, and at most as costly as the candidate of each of them; it has
/// found nothing only where none of them has a candidate.
pub proof fn lemma_search(subscripts: SubscriptsView, issued: nat, count: nat)
    ensures
        match search(subscripts, issued, count) {
            Some(found) => {
                &&& exists|mask: nat|
                    mask < count && #[trigger] candidate(subscripts, issued, mask) == Some(found)
                &&& forall|mask: nat|
                    mask < count ==> (#[trigger] candidate(subscripts, issued, mask) matches Some(
                        other,
                    ) ==> at_most(found, other))
            },
            None => forall|mask: nat|
                mask < count ==> #[trigger] candidate(subscripts, issued, mask) is None,
        },
    decreases count,
{
    if count > 0 {
        let last = (count - 1) as nat;
        lemma_search(subscripts, issued, last);
        let earlier = search(subscripts, issued, last);
        let later = candidate(subscripts, issued, last);
        match search(subscripts, issued, count) {
            Some(found) => {
                if Some(found) == later {
                    assert(candidate(subscripts, issued, last) == Some(found));
                } else {
                    let mask = choose|mask: nat|
                        mask < last && #[trigger] candidate(subscripts, issued, mask) == Some(
                            found,
                        );
                    assert(mask < count);
                }
                assert forall|mask: nat| mask < count implies (#[trigger] candidate(
                    subscripts,
                    issued,
                    mask,
                ) matches Some(other) ==> at_most(found, other)) by {
                    if mask < last {
                        if candidate(subscripts, issued, mask) is Some {
                            assert(earlier is Some);
                        }
                    }
                }
            },
            None => {
                assert forall|mask: nat| mask < count implies #[trigger] candidate(
                    subscripts,
                    issued,
                    mask,
                ) is None by {
                    if mask < last {
                    }
                }
            },
        }
    }
}

/// The plan that the search settles on is the contraction in one step or
/// the candidate of one of the masks, and it is at most as costly as the
/// contraction in one step and as the candidate of every mask.
pub proof fn lemma_plan_optimal(subscripts: SubscriptsView, issued: nat)
    ensures
        at_most(plan(subscripts, issued), seq![subscripts]),
        subscripts.inputs.len() > 2 ==> forall|mask: nat|
            mask < pow2(subscripts.inputs.len()) ==> (#[trigger] candidate(subscripts, issued, mask)
                matches Some(other) ==> at_most(plan(subscripts, issued), other)),
        plan(subscripts, issued) == seq![subscripts] || (subscripts.inputs.len() > 2
            && exists|mask: nat|
            mask < pow2(subscripts.inputs.len()) && #[trigger] candidate(subscripts, issued, mask)
                == Some(plan(subscripts, issued))),
{
    if subscripts.inputs.len() > 2 {
        let count = pow2(subscripts.inputs.len());
        lemma_search(subscripts, issued, count);
        match search(subscripts, issued, count) {
            Some(found) => {
                if plan(subscripts, issued) == found {
                    let mask = choose|mask: nat|
                        mask < count && #[trigger] candidate(subscripts, issued, mask) == Some(
                            found,
                        );
                    assert(candidate(subscripts, issued, mask) == Some(plan(subscripts, issued)));
                }
            },
            None => {},
        }
    }
}

/// Whether `found` is the candidate of `mask` and cheaper than the
/// candidate of every mask before it.
pub open spec fn comes_first(
    subscripts: SubscriptsView,
    issued: nat,
    mask: nat,
    found: Seq<SubscriptsView>,
) -> bool {
    &&& candidate(subscripts, issued, mask) == Some(found)
    &&& forall|before: nat|
        before < mask ==> (#[trigger] candidate(subscripts, issued, before) matches Some(other)
            ==> cheaper(found, other))
}

/// Among candidates of the same cost the search keeps the first: what it
/// has found is cheaper than every candidate before it.
pub proof fn lemma_search_keeps_first(subscripts: SubscriptsView, issued: nat, count: nat)
    ensures
        search(subscripts, issued, count) matches Some(found) ==> exists|mask: nat|
            mask < count && #[trigger] comes_first(subscripts, issued, mask, found),
    decreases count,
{
    if count > 0 {
        let last = (count - 1) as nat;
        lemma_search_keeps_first(subscripts, issued, last);
        lemma_search(subscripts, issued, last);
        let earlier = search(subscripts, issued, last);
        let later = candidate(subscripts, issued, last);
        match search(subscripts, issued, count) {
            Some(found) => {
                if earlier == Some(found) {
                    let mask = choose|mask: nat|
                        mask < last && #[trigger] comes_first(subscripts, issued, mask, found);
                    assert(mask < count && comes_first(subscripts, issued, mask, found));
                } else {
                    assert(later == Some(found));
                    assert(comes_first(subscripts, issued, last, found));
                }
            },
            None => {},
        }
    }
}

/// Whether some step of `steps` after the first `from` takes the tensor
/// `position` as an input.
pub open spec fn consumed(steps: Seq<SubscriptsView>, from: int, position: Position) -> bool {
    exists|j: int, k: int|
        from <= j < steps.len() && 0 <= k < steps[j].inputs.len() && (
        #[trigger] steps[j].inputs[k]).position == position
}

/// The steps of a plan fit together: there is at least one, each is well
/// formed, the tensors between them are named in the order of the steps
/// that produce them, each of these is taken up by a later step, every
/// input of the whole is taken up by some step, and the last step produces
/// the result of the whole.
pub open spec fn fits(steps: Seq<SubscriptsView>, subscripts: SubscriptsView, issued: nat) -> bool {
    &&& steps.len() >= 1
    &&& forall|i: int|
        0 <= i < steps.len() ==> (#[trigger] steps[i]).wf() && steps[i].bounded_by(
            issued + steps.len(),
        )
    &&& forall|i: int|
        0 <= i < steps.len() - 1 ==> (#[trigger] steps[i]).output.position == Position::Out(
            (issued + i) as usize,
        ) && consumed(steps, i + 1, steps[i].output.position)
    &&& forall|k: int|
        0 <= k < subscripts.inputs.len() ==> consumed(
            steps,
            0,
            (#[trigger] subscripts.inputs[k]).position,
        )
    &&& steps.last().output.position == subscripts.output.position
    &&& steps.last().memory_order() == subscripts.memory_order()
}

/// What is consumed by the steps after the first is consumed by those steps
/// with one more step before them.
proof fn lemma_consumed_later(
    first: SubscriptsView,
    rest: Seq<SubscriptsView>,
    from: int,
    position: Position,
)
    requires
        from >= 0,
        consumed(rest, from, position),
    ensures
        consumed(seq![first] + rest, from + 1, position),
{
    let steps = seq![first] + rest;
    let (j, k) = choose|j: int, k: int|
        from <= j < rest.len() && 0 <= k < rest[j].inputs.len() && (
        #[trigger] rest[j].inputs[k]).position == position;
    assert(steps[j + 1] == rest[j]);
    assert(steps[j + 1].inputs[k].position == position);
}

/// Every input of well-formed subscripts is taken up by the first step of
/// a split, or is an input of the second step.
proof fn lemma_split_takes_inputs(
    subscripts: SubscriptsView,
    inners: Seq<Position>,
    out: Position,
    k: int,
)
    requires
        subscripts.labelled(),
        0 <= k < subscripts.inputs.len(),
    ensures
        ({
            let (inner, outer) = subscripts.factorize(inners, out);
            let position = subscripts.inputs[k].position;
            ||| exists|m: int|
                0 <= m < inner.inputs.len() && (#[trigger] inner.inputs[m]).position == position
            ||| exists|m: int|
                1 <= m < outer.inputs.len() && (#[trigger] outer.inputs[m]).position == position
        }),
{
    let (inner, outer) = subscripts.factorize(inners, out);
    let first = subscripts.first_step(inners, out);
    let second = subscripts.second_step(inners, out);
    let input = subscripts.inputs[k];
    let picked = |input: SubscriptView| inners.contains(input.position);
    let left = |input: SubscriptView| !inners.contains(input.position);
    subscripts.lemma_steps_labelled(inners, out);
    first.lemma_canonical();
    second.lemma_canonical();
    if inners.contains(input.position) {
        subscripts.inputs.lemma_filter_contains(picked, k);
        let m = choose|m: int| 0 <= m < first.inputs.len() && first.inputs[m] == input;
        assert(inner.inputs[m].position == input.position);
    } else {
        subscripts.inputs.lemma_filter_contains(left, k);
        let kept = subscripts.outer_inputs(inners);
        let m = choose|m: int| 0 <= m < kept.len() && kept[m] == input;
        assert(second.inputs[m + 1] == kept[m]);
        assert(outer.inputs[m + 1].position == input.position);
    }
}

/// A plan that begins with a split and goes on with a fitting plan for the
/// second step fits together.
proof fn lemma_split_fits(
    subscripts: SubscriptsView,
    issued: nat,
    inners: Seq<Position>,
    rest: Seq<SubscriptsView>,
)
    requires
        subscripts.wf(),
        subscripts.bounded_by(issued),
        issued < usize::MAX,
        !subscripts.degenerate(inners),
        fits(rest, subscripts.factorize(inners, Position::Out(issued as usize)).1, issued + 1),
    ensures
        fits(
            seq![subscripts.factorize(inners, Position::Out(issued as usize)).0] + rest,
            subscripts,
            issued,
        ),
{
    let out = Position::Out(issued as usize);
    let (inner, outer) = subscripts.factorize(inners, out);
    let steps = seq![inner] + rest;
    let second = subscripts.second_step(inners, out);
    subscripts.lemma_factorize_wf(inners, issued);
    subscripts.lemma_steps_labelled(inners, out);
    second.lemma_canonical();
    assert forall|i: int| 0 <= i < steps.len() implies (#[trigger] steps[i]).wf()
        && steps[i].bounded_by(issued + steps.len()) by {
        if i > 0 {
            assert(steps[i] == rest[i - 1]);
        }
    }
    assert forall|i: int| 0 <= i < steps.len() - 1 implies (#[trigger] steps[i]).output.position
        == Position::Out((issued + i) as usize) && consumed(
        steps,
        i + 1,
        steps[i].output.position,
    ) by {
        if i == 0 {
            assert(outer.inputs[0].position == out);
            lemma_consumed_later(inner, rest, 0, out);
        } else {
            assert(steps[i] == rest[i - 1]);
            lemma_consumed_later(inner, rest, i, rest[i - 1].output.position);
        }
    }
    assert forall|k: int| 0 <= k < subscripts.inputs.len() implies consumed(
        steps,
        0,
        (#[trigger] subscripts.inputs[k]).position,
    ) by {
        let position = subscripts.inputs[k].position;
        lemma_split_takes_inputs(subscripts, inners, out, k);
        if exists|m: int|
            0 <= m < inner.inputs.len() && (#[trigger] inner.inputs[m]).position == position {
            let m = choose|m: int|
                0 <= m < inner.inputs.len() && (#[trigger] inner.inputs[m]).position == position;
            assert(steps[0].inputs[m].position == position);
        } else {
            let m = choose|m: int|
                1 <= m < outer.inputs.len() && (#[trigger] outer.inputs[m]).position == position;
            lemma_consumed_later(inner, rest, 0, outer.inputs[m].position);
            let (j, a) = choose|j: int, a: int|
                1 <= j < steps.len() && 0 <= a < steps[j].inputs.len() && (
                #[trigger] steps[j].inputs[a]).position == position;
            assert(steps[j].inputs[a].position == position);
        }
    }
    assert(steps.last() == rest.last());
    lemma_relabel_indices(subscripts.output.raw, canonical_map(first_seen(second.all_indices())));
}

/// The plan for well-formed subscripts fits together.
pub proof fn lemma_plan_fits(subscripts: SubscriptsView, issued: nat)
    requires
        subscripts.wf(),
        subscripts.bounded_by(issued),
        subscripts.inputs.len() > 2 ==> issued + subscripts.inputs.len() - 2 <= usize::MAX,
    ensures
        fits(plan(subscripts, issued), subscripts, issued),
    decreases subscripts.inputs.len(),
{
    let steps = plan(subscripts, issued);
    lemma_plan_optimal(subscripts, issued);
    if steps == seq![subscripts] {
        assert forall|k: int| 0 <= k < subscripts.inputs.len() implies consumed(
            steps,
            0,
            (#[trigger] subscripts.inputs[k]).position,
        ) by {
            assert(steps[0].inputs[k].position == subscripts.inputs[k].position);
        }
    } else {
        let n = subscripts.inputs.len();
        let mask = choose|mask: nat|
            mask < pow2(n) && #[trigger] candidate(subscripts, issued, mask) == Some(steps);
        let inners = marked(subscripts.inputs, mask_bits(n, mask));
        let outer = subscripts.factorize(inners, Position::Out(issued as usize)).1;
        subscripts.lemma_factorize_wf(inners, issued);
        lemma_partition_len(subscripts.inputs, inners);
        lemma_plan_fits(outer, issued + 1);
        lemma_split_fits(subscripts, issued, inners, plan(outer, issued + 1));
    }
}

/// The views of the steps in `steps`.
pub open spec fn step_views(steps: Seq<Subscripts>) -> Seq<SubscriptsView> {
    Seq::new(steps.len(), |i: int| steps[i]@)
}

/// Every label of every step is an index.
pub open spec fn steps_labelled(steps: Seq<SubscriptsView>) -> bool {
    forall|i: int| 0 <= i < steps.len() ==> (#[trigger] steps[i]).labelled()
}

/// The view of a plan that may be missing.
pub open spec fn found_view(found: Option<Vec<Subscripts>>) -> Option<Seq<SubscriptsView>> {
    match found {
        Some(steps) => Some(step_views(steps@)),
        None => None,
    }
}

/// The compute order of `subscripts`, in a type wide enough for any of them.
fn wide_compute_order(subscripts: &Subscripts) -> (order: u128)
    requires
        subscripts@.labelled(),
    ensures
        order == subscripts@.compute_order(),
{
    let memory: usize = subscripts.memory_order();
    let summed = subscripts.contraction_indices();
    proof {
        lemma_letters();
        letters().lemma_filter_len(
            |c: char|
                occurrences(subscripts@.input_indices(), c) >= 2
                    && !subscripts@.output.indices().contains(c),
        );
    }
    memory as u128 + summed.len() as u128
}

/// The greatest compute order and the greatest memory order among `steps`.
fn orders(steps: &Vec<Subscripts>) -> (orders: (u128, usize))
    requires
        steps_labelled(step_views(steps@)),
    ensures
        orders.0 == steps_compute_order(step_views(steps@)),
        orders.1 == steps_memory_order(step_views(steps@)),
{
    let mut compute: u128 = 0;
    let mut memory: usize = 0;
    let mut i: usize = 0;
    while i < steps.len()
        invariant
            i <= steps.len(),
            steps_labelled(step_views(steps@)),
            compute == steps_compute_order(step_views(steps@).take(i as int)),
            memory == steps_memory_order(step_views(steps@).take(i as int)),
        decreases steps.len() - i,
    {
        assert(step_views(steps@).take(i + 1).drop_last() == step_views(steps@).take(i as int));
        assert(step_views(steps@)[i as int].labelled());
        let c: u128 = wide_compute_order(&steps[i]);
        let m: usize = steps[i].memory_order();
        if c > compute {
            compute = c;
        }
        if m > memory {
            memory = m;
        }
        i = i + 1;
    }
    assert(step_views(steps@).take(i as int) == step_views(steps@));
    (compute, memory)
}

/// Tells whether the plan `a` is cheaper than the plan `b`.
fn is_cheaper(a: &Vec<Subscripts>, b: &Vec<Subscripts>) -> (yes: bool)
    requires
        steps_labelled(step_views(a@)),
        steps_labelled(step_views(b@)),
    ensures
        yes == cheaper(step_views(a@), step_views(b@)),
{
    let (compute_a, memory_a) = orders(a);
    let (compute_b, memory_b) = orders(b);
    compute_a < compute_b || (compute_a == compute_b && memory_a < memory_b)
}

/// The names of the inputs that `bits` marks, in the order of the inputs.
fn marked_positions(inputs: &Vec<Subscript>, bits: &Vec<bool>) -> (positions: Vec<Position>)
    requires
        inputs@.len() == bits@.len(),
    ensures
        positions@ == marked(views(inputs@), bits@),
{
    let mut positions: Vec<Position> = Vec::new();
    let mut i: usize = 0;
    while i < inputs.len()
        invariant
            i <= inputs.len(),
            inputs@.len() == bits@.len(),
            positions@ == marked(views(inputs@).take(i as int), bits@.take(i as int)),
        decreases inputs.len() - i,
    {
        assert(views(inputs@).take(i + 1).drop_last() == views(inputs@).take(i as int));
        assert(bits@.take(i + 1).drop_last() == bits@.take(i as int));
        if bits[i] {
            positions.push(*inputs[i].position());
        }
        i = i + 1;
    }
    assert(views(inputs@).take(i as int) == views(inputs@));
    assert(bits@.take(i as int) == bits@);
    positions
}

/// Looks at the candidate of the mask `bits` and keeps it in the place of
/// `best` where it is cheaper.
fn consider(
    names: &Namespace,
    subscripts: &Subscripts,
    bits: &Vec<bool>,
    best: Option<Vec<Subscripts>>,
    Ghost(mask): Ghost<nat>,
) -> (kept: Option<Vec<Subscripts>>)
    requires
        subscripts@.labelled(),
        subscripts@.inputs.len() > 2,
        names.issued() + subscripts@.inputs.len() - 2 <= usize::MAX,
        bits@ == mask_bits(subscripts@.inputs.len(), mask),
        found_view(best) == search(subscripts@, names.issued(), mask),
        best matches Some(steps) ==> steps_labelled(step_views(steps@)),
    ensures
        found_view(kept) == search(subscripts@, names.issued(), mask + 1),
        kept matches Some(steps) ==> steps_labelled(step_views(steps@)),
    decreases subscripts@.inputs.len(), 0nat,
{
    let ghost whole = subscripts@;
    let ghost issued = names.issued();
    proof {
        lemma_mask_bits_len(whole.inputs.len(), mask);
    }
    let inners = marked_positions(&subscripts.inputs, bits);
    let mut branch = names.clone();
    match subscripts.factorize(&mut branch, inners) {
        Ok((inner, outer)) => {
            proof {
                let out = Position::Out(issued as usize);
                lemma_partition_len(whole.inputs, inners@);
                whole.lemma_steps_labelled(inners@, out);
                whole.first_step(inners@, out).lemma_canonical();
                whole.second_step(inners@, out).lemma_canonical();
            }
            let mut steps = brute_force_work(&mut branch, outer);
            let ghost rest = step_views(steps@);
            steps.insert(0, inner);
            assert(step_views(steps@) == seq![inner@] + rest);
            assert(Some(step_views(steps@)) == candidate(whole, issued, mask));
            let keep = match &best {
                Some(earlier) => is_cheaper(&steps, earlier),
                None => true,
            };
            if keep {
                Some(steps)
            } else {
                best
            }
        },
        Err(_) => {
            assert(candidate(whole, issued, mask) is None);
            best
        },
    }
}

/// Searches for the cheapest way to carry out `subscripts` as a sequence of
/// smaller contractions: the plan is at most as costly as the contraction
/// in one step and as every plan that begins with a split and goes on with
/// the best plan for the rest. The intermediate tensors are named from the
/// next identifier of `names` on; `names` itself is left as it was. A plan
/// for `n` inputs names at most `n - 2` intermediate tensors, for which the
/// counter must have room.
pub fn brute_force_work(names: &mut Namespace, subscripts: Subscripts) -> (steps: Vec<Subscripts>)
    requires
        subscripts@.labelled(),
        subscripts@.inputs.len() > 2 ==> old(names).issued() + subscripts@.inputs.len() - 2
            <= usize::MAX,
    ensures
        step_views(steps@) == plan(subscripts@, old(names).issued()),
        steps_labelled(step_views(steps@)),
        at_most(step_views(steps@), seq![subscripts@]),
        subscripts@.inputs.len() > 2 ==> forall|mask: nat|
            mask < pow2(subscripts@.inputs.len()) ==> (#[trigger] candidate(
                subscripts@,
                old(names).issued(),
                mask,
            ) matches Some(other) ==> at_most(step_views(steps@), other)),
        subscripts@.wf() && subscripts@.bounded_by(old(names).issued()) ==> fits(
            step_views(steps@),
            subscripts@,
            old(names).issued(),
        ),
        *final(names) == *old(names),
    decreases subscripts@.inputs.len(), 1nat,
{
    let n: usize = subscripts.inputs.len();
    proof {
        lemma_plan_optimal(subscripts@, names.issued());
        if subscripts@.wf() && subscripts@.bounded_by(names.issued()) {
            lemma_plan_fits(subscripts@, names.issued());
        }
    }
    if n <= 2 {
        let steps = vec![subscripts];
        assert(step_views(steps@) == seq![subscripts@]);
        return steps;
    }
    let ghost whole = subscripts@;
    let ghost issued = names.issued();
    let mut bits = first_mask(n);
    let mut best: Option<Vec<Subscripts>> = None;
    let mut more = true;
    let ghost mut done: nat = 0;
    proof {
        vstd::arithmetic::power2::lemma_pow2_pos(n as nat);
        lemma_mask_bits_len(n as nat, 0);
    }
    while more
        invariant
            n == subscripts.inputs.len(),
            n > 2,
            whole == subscripts@,
            whole.labelled(),
            issued == names.issued(),
            *names == *old(names),
            issued + n - 2 <= usize::MAX,
            bits@.len() == n,
            found_view(best) == search(whole, issued, done),
            best matches Some(steps) ==> steps_labelled(step_views(steps@)),
            more ==> bits@ == mask_bits(n as nat, done) && done < pow2(n as nat),
            !more ==> done == pow2(n as nat),
        decreases
            pow2(n as nat) - done + if more {
                1int
            } else {
                0int
            },
    {
        best = consider(names, &subscripts, &bits, best, Ghost(done));
        proof {
            lemma_mask_value_of_bits(n as nat, done);
        }
        more = next_mask(&mut bits);
        proof {
            done = done + 1;
            if more {
                lemma_mask_bits_of_value(bits@);
            }
        }
    }
    let whole_plan = vec![subscripts];
    assert(step_views(whole_plan@) == seq![whole]);
    match best {
        Some(found) => {
            if is_cheaper(&whole_plan, &found) {
                whole_plan
            } else {
                found
            }
        },
        None => whole_plan,
    }
}

/// A contraction together with the steps in which it is carried out.
#[derive(Debug, PartialEq, Eq)]
pub struct Path {
    whole: Subscripts,
    steps: Vec<Subscripts>,
}

/// What a [`Path`] holds.
pub struct PathView {
    /// The contraction as a whole.
    pub whole: SubscriptsView,
    /// The steps, in the order in which they are carried out.
    pub steps: Seq<SubscriptsView>,
}

impl PathView {
    /// Every label of the contraction and of its steps is an index.
    pub open spec fn labelled(self) -> bool {
        self.whole.labelled() && steps_labelled(self.steps)
    }

    /// The greatest compute order among the steps.
    pub open spec fn compute_order(self) -> nat {
        steps_compute_order(self.steps)
    }

    /// The greatest memory order among the steps.
    pub open spec fn memory_order(self) -> nat {
        steps_memory_order(self.steps)
    }
}

impl View for Path {
    type V = PathView;

    closed spec fn view(&self) -> PathView {
        PathView { whole: self.whole@, steps: step_views(self.steps@) }
    }
}

impl Clone for Path {
    fn clone(&self) -> (copy: Self)
        ensures
            copy@ == self@,
    {
        let mut steps: Vec<Subscripts> = Vec::new();
        let mut i: usize = 0;
        while i < self.steps.len()
            invariant
                i <= self.steps.len(),
                step_views(steps@) == step_views(self.steps@).take(i as int),
            decreases self.steps.len() - i,
        {
            let copy = self.steps[i].clone();
            let ghost earlier = steps@;
            steps.push(copy);
            assert(step_views(steps@) == step_views(earlier).push(copy@));
            assert(step_views(self.steps@).take(i + 1) == step_views(
                self.steps@,
            ).take(i as int).push(self.steps@[i as int]@));
            i = i + 1;
        }
        assert(step_views(self.steps@).take(i as int) == step_views(
            self.steps@,
        ));
        Path { whole: self.whole.clone(), steps: steps }
    }
}

impl std::ops::Deref for Path {
    type Target = [Subscripts];

    /// The steps, in the order in which they are carried out.
    fn deref(&self) -> (steps: &[Subscripts])
        ensures
            step_views(steps@) == self@.steps,
    {
        self.steps.as_slice()
    }
}

impl Path {
    /// The subscript of the result of the whole contraction.
    pub fn output(&self) -> (output: &Subscript)
        ensures
            output@ == self@.whole.output,
    {
        &self.whole.output
    }

    /// The number of tensors that the contraction takes.
    pub fn num_args(&self) -> (n: usize)
        ensures
            n == self@.whole.inputs.len(),
    {
        self.whole.inputs.len()
    }

    /// The steps, in the order in which they are carried out.
    pub fn steps(&self) -> (steps: &Vec<Subscripts>)
        ensures
            step_views(steps@) == self@.steps,
    {
        &self.steps
    }

    /// The number of steps.
    pub fn len(&self) -> (n: usize)
        ensures
            n == self@.steps.len(),
    {
        self.steps.len()
    }

    /// The greatest compute order among the steps.
    pub fn compute_order(&self) -> (order: usize)
        requires
            self@.labelled(),
            self@.compute_order() <= usize::MAX,
        ensures
            order == self@.compute_order(),
    {
        let (compute, _) = orders(&self.steps);
        compute as usize
    }

    /// The greatest memory order among the steps.
    pub fn memory_order(&self) -> (order: usize)
        requires
            self@.labelled(),
        ensures
            order == self@.memory_order(),
    {
        let (_, memory) = orders(&self.steps);
        memory
    }

    /// Reads `indices` as subscripts and searches for the cheapest way to
    /// carry them out. The result of the whole is named `out0`, and the
    /// intermediate tensors `out1`, `out2`, ... in the order of the steps
    /// that produce them. Fails where `indices` is no text of subscripts.
    pub fn brute_force(indices: &str) -> (path: Result<Self, Error>)
        ensures
            match path {
                Ok(path) => {
                    &&& grammar::parse(indices@) matches Some(raw) && path@.whole
                        == SubscriptsView::from_raw(raw, Position::Out(0))
                    &&& path@.steps == plan(path@.whole, 1)
                    &&& path@.whole.wf()
                    &&& path@.labelled()
                    &&& fits(path@.steps, path@.whole, 1)
                },
                Err(error) => {
                    &&& grammar::parse(indices@) is None
                    &&& error@ == ErrorView::InvalidSubscripts(indices@)
                },
            },
    {
        let mut names = Namespace::init();
        match Subscripts::from_raw_indices(&mut names, indices) {
            Ok(subscripts) => {
                let whole = subscripts.clone();
                let n: usize = subscripts.inputs.len();
                assert(subscripts@.inputs.len() == n);
                Ok(Path { whole, steps: brute_force_work(&mut names, subscripts) })
            },
            Err(error) => Err(error),
        }
    }
}

/// Searches for the cheapest way to carry out `subscripts`, as
/// [`brute_force_work`] does, and keeps the contraction with the steps.
pub fn brute_force(names: &mut Namespace, subscripts: Subscripts) -> (path: Path)
    requires
        subscripts@.labelled(),
        subscripts@.inputs.len() > 2 ==> old(names).issued() + subscripts@.inputs.len() - 2
            <= usize::MAX,
    ensures
        path@.whole == subscripts@,
        path@.steps == plan(subscripts@, old(names).issued()),
        path@.labelled(),
        subscripts@.wf() && subscripts@.bounded_by(old(names).issued()) ==> fits(
            path@.steps,
            subscripts@,
            old(names).issued(),
        ),
        *final(names) == *old(names),
{
    let whole = subscripts.clone();
    Path { whole, steps: brute_force_work(names, subscripts) }
}

} // verus!
