//! Programs for arrays of the `ndarray` crate.

pub mod naive;

use vstd::prelude::*;
use vstd::string::*;
use crate::codegen::ndarray::naive::{array_size_asserts, define_array_size};
use crate::subscripts::{Subscripts, SubscriptsView};
use crate::text::{decimal, is_index, join, push_decimal, push_index, push_joined, texts};

verus! {

/// The name of the variable that holds the size of the index `c`: `n_c`.
pub open spec fn size_name(c: char) -> Seq<char> {
    "n_"@.push(c)
}

/// The name of the type of an array of rank `n`: `ndarray::Ix2`.
pub open spec fn rank_name(n: nat) -> Seq<char> {
    "ndarray::Ix"@ + decimal(n)
}

/// The name of the type of the storage of the `i`-th input: `S0`.
pub open spec fn storage_name(i: nat) -> Seq<char> {
    "S"@ + decimal(i)
}

/// The name of the variable that holds the size of the index `c`.
pub fn n_ident(c: char) -> (name: String)
    requires
        is_index(c),
    ensures
        name@ == size_name(c),
{
    let mut name = String::from_str("n_");
    push_index(&mut name, c);
    name
}

/// The name of the type of an array of rank `n`.
pub fn dim(n: usize) -> (name: String)
    ensures
        name@ == rank_name(n as nat),
{
    let mut name = String::from_str("ndarray::Ix");
    push_decimal(&mut name, n);
    name
}

/// The name of the type of the storage of the `i`-th input.
pub fn storage(i: usize) -> (name: String)
    ensures
        name@ == storage_name(i as nat),
{
    let mut name = String::from_str("S");
    push_decimal(&mut name, i);
    name
}

impl SubscriptsView {
    /// The declaration of the `i`-th parameter:
    /// `arg0: ndarray::ArrayBase<S0, ndarray::Ix2>`.
    pub open spec fn parameter(self, i: int) -> Seq<char> {
        self.inputs[i].position.name() + ": ndarray::ArrayBase<"@ + storage_name(i as nat) + ", "@
            + rank_name(self.inputs[i].indices().len()) + ">"@
    }

    /// The bound on the storage of the `i`-th input:
    /// `S0: ndarray::Data<Elem = T>`.
    pub open spec fn storage_bound(self, i: int) -> Seq<char> {
        storage_name(i as nat) + ": ndarray::Data<Elem = T>"@
    }

    /// The head of the function that evaluates the contraction, up to the
    /// opening of its body.
    pub open spec fn signature(self) -> Seq<char> {
        "fn "@ + self.escaped_ident() + "<T, "@ + join(
            Seq::new(self.inputs.len(), |i: int| storage_name(i as nat)),
            ", "@,
        ) + ">(\n"@ + join(Seq::new(self.inputs.len(), |i: int| self.parameter(i)), ",\n"@)
            + "\n) -> ndarray::Array<T, "@ + rank_name(self.output.indices().len())
            + ">\nwhere\nT: ndarray::LinalgScalar,\n"@ + join(
            Seq::new(self.inputs.len(), |i: int| self.storage_bound(i)),
            ",\n"@,
        ) + "\n"@
    }

    /// The function that evaluates the contraction: its head, and in its
    /// body the sizes of the indices, the checks of the sizes, and `inner`.
    pub open spec fn function_definition(self, inner: Seq<char>) -> Seq<char> {
        self.signature() + "{\n"@ + self.define_array_size() + self.array_size_asserts() + inner
            + "}\n"@
    }
}

/// The head of the function that evaluates `subscripts`, up to the opening
/// of its body.
pub fn signature(subscripts: &Subscripts) -> (text: String)
    requires
        subscripts@.labelled(),
    ensures
        text@ == subscripts@.signature(),
{
    let ghost whole = subscripts@;
    let n: usize = subscripts.inputs.len();
    let mut storages: Vec<String> = Vec::new();
    let mut parameters: Vec<String> = Vec::new();
    let mut bounds: Vec<String> = Vec::new();
    let mut i: usize = 0;
    while i < n
        invariant
            i <= n,
            n == subscripts.inputs.len(),
            whole == subscripts@,
            texts(storages@) == Seq::new(i as nat, |i: int| storage_name(i as nat)),
            texts(parameters@) == Seq::new(i as nat, |i: int| whole.parameter(i)),
            texts(bounds@) == Seq::new(i as nat, |i: int| whole.storage_bound(i)),
        decreases n - i,
    {
        let input = &subscripts.inputs[i];
        assert(input@ == whole.inputs[i as int]);
        let ghost earlier_storages = texts(storages@);
        let ghost earlier_parameters = texts(parameters@);
        let ghost earlier_bounds = texts(bounds@);
        storages.push(storage(i));
        let mut parameter = input.position().to_string();
        parameter.append(": ndarray::ArrayBase<");
        parameter.append(storage(i).as_str());
        parameter.append(", ");
        parameter.append(dim(input.indices().len()).as_str());
        parameter.append(">");
        parameters.push(parameter);
        let mut bound = storage(i);
        bound.append(": ndarray::Data<Elem = T>");
        bounds.push(bound);
        assert(texts(storages@) == earlier_storages.push(storage_name(i as nat)));
        assert(texts(parameters@) == earlier_parameters.push(whole.parameter(i as int)));
        assert(texts(bounds@) == earlier_bounds.push(whole.storage_bound(i as int)));
        i = i + 1;
    }
    let mut text = String::from_str("fn ");
    text.append(subscripts.escaped_ident().as_str());
    text.append("<T, ");
    push_joined(&mut text, &storages, ", ");
    text.append(">(\n");
    push_joined(&mut text, &parameters, ",\n");
    text.append("\n) -> ndarray::Array<T, ");
    text.append(dim(subscripts.output.indices().len()).as_str());
    text.append(">\nwhere\nT: ndarray::LinalgScalar,\n");
    push_joined(&mut text, &bounds, ",\n");
    text.append("\n");
    text
}

/// The function that evaluates `subscripts`: its head, and in its body the
/// sizes of the indices, the checks of the sizes, and `inner`.
pub fn function_definition(subscripts: &Subscripts, inner: &str) -> (text: String)
    requires
        subscripts@.labelled(),
    ensures
        text@ == subscripts@.function_definition(inner@),
{
    let mut text = signature(subscripts);
    text.append("{\n");
    text.append(define_array_size(subscripts).as_str());
    text.append(array_size_asserts(subscripts).as_str());
    text.append(inner);
    text.append("}\n");
    text
}

} // verus!
