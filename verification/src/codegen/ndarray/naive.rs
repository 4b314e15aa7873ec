//! The contraction as nested loops over the indices.

use vstd::prelude::*;
use vstd::string::*;
use crate::canonical::find_place;
use crate::codegen::ndarray::{n_ident, signature, size_name};
use crate::subscripts::{flat_indices, Subscripts, SubscriptsView};
use crate::text::{
    are_indices, concat, decimal, is_index, join, lemma_are_indices_concat, push_all, push_decimal,
    push_index, push_joined, texts,
};

verus! {

/// The names to which the sizes of an array with the indices `indices` are
/// bound, where the indices in `seen` have their sizes already: `n_c` for
/// an index `c` that was not met before, else `_`.
pub open spec fn size_pattern(seen: Seq<char>, indices: Seq<char>) -> Seq<Seq<char>> {
    Seq::new(
        indices.len(),
        |j: int|
            if (seen + indices.take(j)).contains(indices[j]) {
                "_"@
            } else {
                size_name(indices[j])
            },
    )
}

/// The names `n_0`, `n_1`, ... of the sizes of one array of rank `rank`.
pub open spec fn each_size(rank: nat) -> Seq<Seq<char>> {
    Seq::new(rank, |j: int| "n_"@ + decimal(j as nat))
}

/// The checks that the sizes `n_0`, `n_1`, ... of one array are those of
/// its indices.
pub open spec fn size_checks(indices: Seq<char>) -> Seq<Seq<char>> {
    Seq::new(
        indices.len(),
        |j: int| "assert_eq!(n_"@ + decimal(j as nat) + ", "@ + size_name(indices[j]) + ");\n"@,
    )
}

impl SubscriptsView {
    /// The statement that binds the sizes of the `i`-th input:
    /// `let (n_a, n_b) = arg0.dim();`
    pub open spec fn size_binding(self, i: int) -> Seq<char> {
        "let ("@ + join(
            size_pattern(flat_indices(self.inputs.take(i)), self.inputs[i].indices()),
            ", "@,
        ) + ") = "@ + self.inputs[i].position.name() + ".dim();\n"@
    }

    /// The statements that give the size of every index a name, one
    /// statement for each input.
    pub open spec fn define_array_size(self) -> Seq<char> {
        concat(Seq::new(self.inputs.len(), |i: int| self.size_binding(i)))
    }

    /// The block that checks the sizes of the `i`-th input.
    pub open spec fn size_assert(self, i: int) -> Seq<char> {
        "{\nlet ("@ + join(each_size(self.inputs[i].indices().len()), ", "@) + ") = "@
            + self.inputs[i].position.name() + ".dim();\n"@ + concat(
            size_checks(self.inputs[i].indices()),
        ) + "}\n"@
    }

    /// The blocks that check the sizes of the inputs, one block for each input.
    pub open spec fn array_size_asserts(self) -> Seq<char> {
        concat(Seq::new(self.inputs.len(), |i: int| self.size_assert(i)))
    }
}

/// The name of the variable that runs over the index `c`: `c` itself.
pub open spec fn index_name(c: char) -> Seq<char> {
    seq![c]
}

/// The names of the variables that run over `indices`.
pub open spec fn index_names(indices: Seq<char>) -> Seq<Seq<char>> {
    Seq::new(indices.len(), |j: int| index_name(indices[j]))
}

/// The names of the variables that hold the sizes of `indices`.
pub open spec fn size_names(indices: Seq<char>) -> Seq<Seq<char>> {
    Seq::new(indices.len(), |j: int| size_name(indices[j]))
}

/// The element of the array `name` at `indices`: `arg0[(a, b)]`.
pub open spec fn element(name: Seq<char>, indices: Seq<char>) -> Seq<char> {
    name + "[("@ + join(index_names(indices), ", "@) + ")]"@
}

/// `inner` inside one loop for each of `indices`, the loop over the first
/// index outermost.
pub open spec fn loops(indices: Seq<char>, inner: Seq<char>) -> Seq<char>
    decreases indices.len(),
{
    if indices.len() == 0 {
        inner
    } else {
        "for "@ + index_name(indices.first()) + " in 0.."@ + size_name(indices.first()) + " {\n"@
            + loops(indices.drop_first(), inner) + "}\n"@
    }
}

impl SubscriptsView {
    /// The element of the `i`-th input that enters the product.
    pub open spec fn factor(self, i: int) -> Seq<char> {
        element(self.inputs[i].position.name(), self.inputs[i].indices())
    }

    /// The statement inside the loops: the element of the output is set to
    /// the product of the elements of the inputs.
    pub open spec fn contraction_inner(self) -> Seq<char> {
        element(self.output.position.name(), self.output.indices()) + " = "@ + join(
            Seq::new(self.inputs.len(), |i: int| self.factor(i)),
            " * "@,
        ) + ";\n"@
    }

    /// The indices that the loops run over: those of the output, then
    /// those that are summed over.
    pub open spec fn loop_indices(self) -> Seq<char> {
        self.output.indices() + self.contraction_indices()
    }

    /// The loops that carry out the contraction.
    pub open spec fn contraction(self) -> Seq<char> {
        loops(self.loop_indices(), self.contraction_inner())
    }

    /// The statement that makes the array of the result, filled with zeros.
    pub open spec fn define_output_array(self) -> Seq<char> {
        "let mut "@ + self.output.position.name() + " = ndarray::Array::zeros(("@ + join(
            size_names(self.output.indices()),
            ", "@,
        ) + "));\n"@
    }

    /// The body of the function that evaluates the contraction: the sizes
    /// of the indices, the checks of the sizes, the array of the result,
    /// the loops, and the result.
    pub open spec fn inner(self) -> Seq<char> {
        self.define_array_size() + self.array_size_asserts() + self.define_output_array()
            + self.contraction() + self.output.position.name() + "\n"@
    }

    /// The function that evaluates the contraction.
    pub open spec fn define(self) -> Seq<char> {
        self.signature() + "{\n"@ + self.inner() + "}\n"@
    }
}

/// The statements that give the size of every index of `subscripts` a name.
pub fn define_array_size(subscripts: &Subscripts) -> (text: String)
    requires
        subscripts@.labelled(),
    ensures
        text@ == subscripts@.define_array_size(),
{
    let ghost whole = subscripts@;
    let mut seen: Vec<char> = Vec::new();
    let mut bindings: Vec<String> = Vec::new();
    let mut i: usize = 0;
    while i < subscripts.inputs.len()
        invariant
            i <= subscripts.inputs.len(),
            whole == subscripts@,
            whole.labelled(),
            seen@ == flat_indices(whole.inputs.take(i as int)),
            texts(bindings@) == Seq::new(i as nat, |i: int| whole.size_binding(i)),
        decreases subscripts.inputs.len() - i,
    {
        let input = &subscripts.inputs[i];
        let indices = input.indices();
        assert(input@ == whole.inputs[i as int]);
        assert(whole.inputs[i as int].raw.wf());
        let ghost before = seen@;
        let mut names: Vec<String> = Vec::new();
        let mut j: usize = 0;
        while j < indices.len()
            invariant
                j <= indices.len(),
                are_indices(indices@),
                seen@ == before + indices@.take(j as int),
                texts(names@) == size_pattern(before, indices@).take(j as int),
            decreases indices.len() - j,
        {
            let c = indices[j];
            let ghost earlier = texts(names@);
            if find_place(&seen, c) < seen.len() {
                names.push(String::from_str("_"));
            } else {
                names.push(n_ident(c));
            }
            assert(texts(names@) == earlier.push(size_pattern(before, indices@)[j as int]));
            seen.push(c);
            assert(indices@.take(j + 1) == indices@.take(j as int).push(c));
            j = j + 1;
        }
        assert(indices@.take(j as int) == indices@);
        assert(size_pattern(before, indices@).take(j as int) == size_pattern(before, indices@));
        assert(whole.inputs.take(i + 1).drop_last() == whole.inputs.take(i as int));
        let mut binding = String::from_str("let (");
        push_joined(&mut binding, &names, ", ");
        binding.append(") = ");
        input.position().push_name(&mut binding);
        binding.append(".dim();\n");
        let ghost earlier = texts(bindings@);
        bindings.push(binding);
        assert(texts(bindings@) == earlier.push(whole.size_binding(i as int)));
        i = i + 1;
    }
    let mut text = String::new();
    push_all(&mut text, &bindings);
    text
}

/// The blocks that check the sizes of the inputs of `subscripts`.
pub fn array_size_asserts(subscripts: &Subscripts) -> (text: String)
    requires
        subscripts@.labelled(),
    ensures
        text@ == subscripts@.array_size_asserts(),
{
    let ghost whole = subscripts@;
    let mut blocks: Vec<String> = Vec::new();
    let mut i: usize = 0;
    while i < subscripts.inputs.len()
        invariant
            i <= subscripts.inputs.len(),
            whole == subscripts@,
            whole.labelled(),
            texts(blocks@) == Seq::new(i as nat, |i: int| whole.size_assert(i)),
        decreases subscripts.inputs.len() - i,
    {
        let input = &subscripts.inputs[i];
        let indices = input.indices();
        assert(input@ == whole.inputs[i as int]);
        assert(whole.inputs[i as int].raw.wf());
        let mut each: Vec<String> = Vec::new();
        let mut checks: Vec<String> = Vec::new();
        let mut j: usize = 0;
        while j < indices.len()
            invariant
                j <= indices.len(),
                are_indices(indices@),
                texts(each@) == each_size(indices@.len()).take(j as int),
                texts(checks@) == size_checks(indices@).take(j as int),
            decreases indices.len() - j,
        {
            let ghost earlier_each = texts(each@);
            let ghost earlier_checks = texts(checks@);
            let mut name = String::from_str("n_");
            push_decimal(&mut name, j);
            each.push(name);
            let mut check = String::from_str("assert_eq!(n_");
            push_decimal(&mut check, j);
            check.append(", ");
            check.append(n_ident(indices[j]).as_str());
            check.append(");\n");
            checks.push(check);
            assert(texts(each@) == earlier_each.push(each_size(indices@.len())[j as int]));
            assert(texts(checks@) == earlier_checks.push(size_checks(indices@)[j as int]));
            j = j + 1;
        }
        assert(each_size(indices@.len()).take(j as int) == each_size(indices@.len()));
        assert(size_checks(indices@).take(j as int) == size_checks(indices@));
        let mut block = String::from_str("{\nlet (");
        push_joined(&mut block, &each, ", ");
        block.append(") = ");
        input.position().push_name(&mut block);
        block.append(".dim();\n");
        push_all(&mut block, &checks);
        block.append("}\n");
        let ghost earlier = texts(blocks@);
        blocks.push(block);
        assert(texts(blocks@) == earlier.push(whole.size_assert(i as int)));
        i = i + 1;
    }
    let mut text = String::new();
    push_all(&mut text, &blocks);
    text
}

/// The name of the variable that runs over the index `c`.
pub fn index_ident(c: char) -> (name: String)
    requires
        is_index(c),
    ensures
        name@ == index_name(c),
{
    let mut name = String::new();
    push_index(&mut name, c);
    name
}

/// The element of the array `name` at `indices`.
fn element_at(name: &str, indices: &Vec<char>) -> (text: String)
    requires
        are_indices(indices@),
    ensures
        text@ == element(name@, indices@),
{
    let mut names: Vec<String> = Vec::new();
    let mut j: usize = 0;
    while j < indices.len()
        invariant
            j <= indices.len(),
            are_indices(indices@),
            texts(names@) == index_names(indices@).take(j as int),
        decreases indices.len() - j,
    {
        let ghost earlier = texts(names@);
        names.push(index_ident(indices[j]));
        assert(texts(names@) == earlier.push(index_names(indices@)[j as int]));
        j = j + 1;
    }
    assert(index_names(indices@).take(j as int) == index_names(indices@));
    let mut text = String::from_str(name);
    text.append("[(");
    push_joined(&mut text, &names, ", ");
    text.append(")]");
    text
}

/// `inner` inside one loop for each of `indices`, the loop over the first
/// index outermost.
fn contraction_for(indices: &Vec<char>, inner: String) -> (text: String)
    requires
        are_indices(indices@),
    ensures
        text@ == loops(indices@, inner@),
{
    let mut text = inner;
    let mut i: usize = indices.len();
    assert(indices@.skip(i as int) == Seq::<char>::empty());
    while i > 0
        invariant
            i <= indices.len(),
            are_indices(indices@),
            text@ == loops(indices@.skip(i as int), inner@),
        decreases i,
    {
        i = i - 1;
        let c = indices[i];
        assert(indices@.skip(i as int).first() == c);
        assert(indices@.skip(i as int).drop_first() == indices@.skip(i + 1));
        let mut outer = String::from_str("for ");
        push_index(&mut outer, c);
        outer.append(" in 0..");
        outer.append(n_ident(c).as_str());
        outer.append(" {\n");
        outer.append(text.as_str());
        outer.append("}\n");
        text = outer;
    }
    assert(indices@.skip(0) == indices@);
    text
}

/// The statement inside the loops of `subscripts`.
fn contraction_inner(subscripts: &Subscripts) -> (text: String)
    requires
        subscripts@.labelled(),
    ensures
        text@ == subscripts@.contraction_inner(),
{
    let ghost whole = subscripts@;
    let mut factors: Vec<String> = Vec::new();
    let mut i: usize = 0;
    while i < subscripts.inputs.len()
        invariant
            i <= subscripts.inputs.len(),
            whole == subscripts@,
            whole.labelled(),
            texts(factors@) == Seq::new(i as nat, |i: int| whole.factor(i)),
        decreases subscripts.inputs.len() - i,
    {
        let input = &subscripts.inputs[i];
        assert(input@ == whole.inputs[i as int]);
        assert(whole.inputs[i as int].raw.wf());
        let name = input.position().to_string();
        let ghost earlier = texts(factors@);
        factors.push(element_at(name.as_str(), &input.indices()));
        assert(texts(factors@) == earlier.push(whole.factor(i as int)));
        i = i + 1;
    }
    let name = subscripts.output.position().to_string();
    let mut text = element_at(name.as_str(), &subscripts.output.indices());
    text.append(" = ");
    push_joined(&mut text, &factors, " * ");
    text.append(";\n");
    text
}

/// The loops that carry out the contraction of `subscripts`: one loop for
/// each index of the output, then one for each index that is summed over,
/// and inside them the statement that sets the element of the output.
pub fn contraction(subscripts: &Subscripts) -> (text: String)
    requires
        subscripts@.labelled(),
    ensures
        text@ == subscripts@.contraction(),
{
    let mut indices = subscripts.output.indices();
    let mut summed = subscripts.contraction_indices();
    proof {
        subscripts@.lemma_contraction_indices();
        lemma_are_indices_concat(indices@, summed@);
    }
    indices.append(&mut summed);
    contraction_for(&indices, contraction_inner(subscripts))
}

/// The statement that makes the array of the result of `subscripts`.
fn define_output_array(subscripts: &Subscripts) -> (text: String)
    requires
        subscripts@.labelled(),
    ensures
        text@ == subscripts@.define_output_array(),
{
    let indices = subscripts.output.indices();
    let mut sizes: Vec<String> = Vec::new();
    let mut j: usize = 0;
    while j < indices.len()
        invariant
            j <= indices.len(),
            are_indices(indices@),
            texts(sizes@) == size_names(indices@).take(j as int),
        decreases indices.len() - j,
    {
        let ghost earlier = texts(sizes@);
        sizes.push(n_ident(indices[j]));
        assert(texts(sizes@) == earlier.push(size_names(indices@)[j as int]));
        j = j + 1;
    }
    assert(size_names(indices@).take(j as int) == size_names(indices@));
    let mut text = String::from_str("let mut ");
    subscripts.output.position().push_name(&mut text);
    text.append(" = ndarray::Array::zeros((");
    push_joined(&mut text, &sizes, ", ");
    text.append("));\n");
    text
}

/// The body of the function that evaluates `subscripts`.
pub fn inner(subscripts: &Subscripts) -> (text: String)
    requires
        subscripts@.labelled(),
    ensures
        text@ == subscripts@.inner(),
{
    let mut text = define_array_size(subscripts);
    text.append(array_size_asserts(subscripts).as_str());
    text.append(define_output_array(subscripts).as_str());
    text.append(contraction(subscripts).as_str());
    subscripts.output.position().push_name(&mut text);
    text.append("\n");
    text
}

/// The function that evaluates `subscripts`.
pub fn define(subscripts: &Subscripts) -> (text: String)
    requires
        subscripts@.labelled(),
    ensures
        text@ == subscripts@.define(),
{
    let mut text = signature(subscripts);
    text.append("{\n");
    text.append(inner(subscripts).as_str());
    text.append("}\n");
    text
}

} // verus!
