//! The program that evaluates an einsum: the functions of its steps, and
//! the statements that call them in turn.

use vstd::prelude::*;
use vstd::string::*;
use crate::codegen::ndarray::naive::define;
use crate::error::{Error, ErrorView};
use crate::grammar;
use crate::namespace::Position;
use crate::path::{plan, step_views, steps_labelled, Path, PathView};
use crate::subscripts::{Subscripts, SubscriptsView};
use crate::text::{concat, join, push_all, push_joined, texts};

verus! {

/// The names of the functions of `steps`.
pub open spec fn idents(steps: Seq<SubscriptsView>) -> Seq<Seq<char>> {
    Seq::new(steps.len(), |i: int| steps[i].escaped_ident())
}

/// The steps whose functions are defined: each step that has no earlier
/// step with a function of the same name.
pub open spec fn defining(steps: Seq<SubscriptsView>) -> Seq<SubscriptsView>
    decreases steps.len(),
{
    if steps.len() == 0 {
        Seq::empty()
    } else {
        let before = defining(steps.drop_last());
        if idents(steps.drop_last()).contains(steps.last().escaped_ident()) {
            before
        } else {
            before.push(steps.last())
        }
    }
}

/// The definitions of the functions of `steps`, each function once.
pub open spec fn definitions(steps: Seq<SubscriptsView>) -> Seq<char> {
    concat(Seq::new(defining(steps).len(), |i: int| defining(steps)[i].define()))
}

/// The statement that binds the `i`-th argument: `let arg0 = x;`
pub open spec fn binding(i: int, arg: Seq<char>) -> Seq<char> {
    "let "@ + Position::Arg(i as usize).name() + " = "@ + arg + ";\n"@
}

impl SubscriptsView {
    /// The statement that carries out the step:
    /// `let out0 = ab_bc__ac(arg0, arg1);`
    pub open spec fn call(self) -> Seq<char> {
        "let "@ + self.output.position.name() + " = "@ + self.escaped_ident() + "("@ + join(
            Seq::new(self.inputs.len(), |i: int| self.inputs[i].position.name()),
            ", "@,
        ) + ");\n"@
    }
}

/// The statements that bind the arguments `args`, in their order.
pub open spec fn bindings(args: Seq<Seq<char>>) -> Seq<char> {
    concat(Seq::new(args.len(), |i: int| binding(i, args[i])))
}

/// The statements that carry out `steps`, in their order.
pub open spec fn calls(steps: Seq<SubscriptsView>) -> Seq<char> {
    concat(Seq::new(steps.len(), |i: int| steps[i].call()))
}

impl PathView {
    /// The block that evaluates the contraction on the tensors `args`: the
    /// functions of the steps, the arguments under their names, the steps
    /// in turn, and the result.
    pub open spec fn block(self, args: Seq<Seq<char>>) -> Seq<char> {
        "{\n"@ + definitions(self.steps) + bindings(args) + calls(self.steps)
            + self.whole.output.position.name() + "\n}\n"@
    }
}

/// What compiling the einsum `subscripts` on the tensors `args` gives: the
/// block that evaluates it by the cheapest plan, or the reason why there
/// is none.
pub open spec fn compiled(subscripts: Seq<char>, args: Seq<Seq<char>>) -> Result<
    Seq<char>,
    ErrorView,
> {
    match grammar::parse(subscripts) {
        Some(raw) => {
            let whole = SubscriptsView::from_raw(raw, Position::Out(0));
            if whole.inputs.len() == args.len() {
                Ok(PathView { whole, steps: plan(whole, 1) }.block(args))
            } else {
                Err(
                    ErrorView::ArgumentMismatch {
                        subscripts: whole.inputs.len() as usize,
                        args: args.len() as usize,
                    },
                )
            }
        },
        None => Err(ErrorView::InvalidSubscripts(subscripts)),
    }
}

/// Every function of the steps is defined, and none of them twice.
pub proof fn lemma_defined_once(steps: Seq<SubscriptsView>)
    ensures
        idents(defining(steps)).no_duplicates(),
        forall|name: Seq<char>|
            #![trigger idents(defining(steps)).contains(name)]
            #![trigger idents(steps).contains(name)]
            idents(defining(steps)).contains(name) <==> idents(steps).contains(name),
    decreases steps.len(),
{
    if steps.len() > 0 {
        let rest = steps.drop_last();
        let last = steps.last();
        lemma_defined_once(rest);
        let kept = idents(defining(rest));
        assert(idents(rest) == idents(steps).drop_last());
        if !idents(rest).contains(last.escaped_ident()) {
            assert(idents(defining(steps)) == kept.push(last.escaped_ident()));
        }
        assert forall|name: Seq<char>|
            #![trigger idents(defining(steps)).contains(name)]
            #![trigger idents(steps).contains(name)]
            idents(defining(steps)).contains(name) <==> idents(steps).contains(name) by {
            if idents(steps).contains(name) {
                let i = choose|i: int| 0 <= i < steps.len() && idents(steps)[i] == name;
                if i < rest.len() {
                    assert(idents(rest)[i] == name);
                    assert(kept.contains(name));
                    let j = choose|j: int| 0 <= j < kept.len() && kept[j] == name;
                    assert(idents(defining(steps))[j] == name);
                } else if idents(rest).contains(name) {
                    assert(kept.contains(name));
                } else {
                    assert(idents(defining(steps))[kept.len() as int] == name);
                }
            }
            if idents(defining(steps)).contains(name) {
                let j = choose|j: int|
                    0 <= j < idents(defining(steps)).len() && idents(defining(steps))[j] == name;
                if j < kept.len() {
                    assert(kept[j] == name);
                    assert(idents(rest).contains(name));
                    let i = choose|i: int| 0 <= i < rest.len() && idents(rest)[i] == name;
                    assert(idents(steps)[i] == name);
                } else {
                    assert(idents(steps)[steps.len() - 1] == name);
                }
            }
        }
    }
}

/// Tells whether `list` holds the text `text`.
fn holds_text(list: &Vec<String>, text: &String) -> (found: bool)
    ensures
        found == texts(list@).contains(text@),
{
    let mut i: usize = 0;
    while i < list.len()
        invariant
            i <= list.len(),
            forall|j: int| 0 <= j < i ==> texts(list@)[j] != text@,
        decreases list.len() - i,
    {
        if list[i] == *text {
            assert(texts(list@)[i as int] == text@);
            return true;
        }
        i = i + 1;
    }
    false
}

/// The definitions of the functions of `steps`: one for each name, however
/// many steps call the function of that name.
pub fn function_definitions(steps: &Vec<Subscripts>) -> (text: String)
    requires
        steps_labelled(step_views(steps@)),
    ensures
        text@ == definitions(step_views(steps@)),
        idents(defining(step_views(steps@))).no_duplicates(),
        forall|i: int|
            0 <= i < steps@.len() ==> idents(defining(step_views(steps@))).contains(
                #[trigger] step_views(steps@)[i].escaped_ident(),
            ),
{
    let ghost all = step_views(steps@);
    proof {
        lemma_defined_once(all);
        assert forall|i: int| 0 <= i < steps@.len() implies idents(defining(all)).contains(
            #[trigger] all[i].escaped_ident(),
        ) by {
            assert(idents(all)[i] == all[i].escaped_ident());
        }
    }
    let mut seen: Vec<String> = Vec::new();
    let mut functions: Vec<String> = Vec::new();
    let mut i: usize = 0;
    while i < steps.len()
        invariant
            i <= steps.len(),
            all == step_views(steps@),
            steps_labelled(all),
            texts(seen@) == idents(all.take(i as int)),
            texts(functions@) == Seq::new(
                defining(all.take(i as int)).len(),
                |k: int| defining(all.take(i as int))[k].define(),
            ),
        decreases steps.len() - i,
    {
        let step = &steps[i];
        assert(step@ == all[i as int]);
        assert(all[i as int].labelled());
        assert(all.take(i + 1).drop_last() == all.take(i as int));
        let ident = step.escaped_ident();
        let ghost earlier = texts(functions@);
        if !holds_text(&seen, &ident) {
            functions.push(define(step));
            assert(texts(functions@) == earlier.push(step@.define()));
        }
        let ghost earlier_seen = texts(seen@);
        seen.push(ident);
        assert(texts(seen@) == earlier_seen.push(step@.escaped_ident()));
        assert(texts(seen@) == idents(all.take(i + 1)));
        i = i + 1;
    }
    assert(all.take(i as int) == all);
    let mut text = String::new();
    push_all(&mut text, &functions);
    text
}

/// The statement that carries out the step `step`.
pub fn call(step: &Subscripts) -> (text: String)
    requires
        step@.labelled(),
    ensures
        text@ == step@.call(),
{
    let ghost whole = step@;
    let mut names: Vec<String> = Vec::new();
    let mut i: usize = 0;
    while i < step.inputs.len()
        invariant
            i <= step.inputs.len(),
            whole == step@,
            texts(names@) == Seq::new(i as nat, |i: int| whole.inputs[i].position.name()),
        decreases step.inputs.len() - i,
    {
        let ghost earlier = texts(names@);
        assert(step.inputs[i as int]@ == whole.inputs[i as int]);
        names.push(step.inputs[i].position().to_string());
        assert(texts(names@) == earlier.push(whole.inputs[i as int].position.name()));
        i = i + 1;
    }
    let mut text = String::from_str("let ");
    step.output.position().push_name(&mut text);
    text.append(" = ");
    text.append(step.escaped_ident().as_str());
    text.append("(");
    push_joined(&mut text, &names, ", ");
    text.append(");\n");
    text
}

/// The statements that bind the expressions `args` to the names of the
/// arguments.
pub fn argument_bindings(args: &Vec<String>) -> (text: String)
    ensures
        text@ == bindings(texts(args@)),
{
    let mut statements: Vec<String> = Vec::new();
    let mut i: usize = 0;
    while i < args.len()
        invariant
            i <= args.len(),
            texts(statements@) == Seq::new(i as nat, |i: int| binding(i, texts(args@)[i])),
        decreases args.len() - i,
    {
        let ghost earlier = texts(statements@);
        let mut statement = String::from_str("let ");
        Position::Arg(i).push_name(&mut statement);
        statement.append(" = ");
        statement.append(args[i].as_str());
        statement.append(";\n");
        statements.push(statement);
        assert(texts(statements@) == earlier.push(binding(i as int, texts(args@)[i as int])));
        i = i + 1;
    }
    let mut text = String::new();
    push_all(&mut text, &statements);
    text
}

/// The statements that carry out `steps`, in their order.
pub fn step_calls(steps: &Vec<Subscripts>) -> (text: String)
    requires
        steps_labelled(step_views(steps@)),
    ensures
        text@ == calls(step_views(steps@)),
{
    let ghost all = step_views(steps@);
    let mut statements: Vec<String> = Vec::new();
    let mut i: usize = 0;
    while i < steps.len()
        invariant
            i <= steps.len(),
            all == step_views(steps@),
            steps_labelled(all),
            texts(statements@) == Seq::new(i as nat, |i: int| all[i].call()),
        decreases steps.len() - i,
    {
        let ghost earlier = texts(statements@);
        assert(steps[i as int]@ == all[i as int]);
        assert(all[i as int].labelled());
        statements.push(call(&steps[i]));
        assert(texts(statements@) == earlier.push(all[i as int].call()));
        i = i + 1;
    }
    let mut text = String::new();
    push_all(&mut text, &statements);
    text
}

/// The block that evaluates the contraction of `path` on the tensors that
/// the expressions `args` stand for. Fails where the number of `args` is
/// not that of the inputs.
pub fn block(path: &Path, args: &Vec<String>) -> (text: Result<String, Error>)
    requires
        path@.labelled(),
    ensures
        match text {
            Ok(text) => path@.whole.inputs.len() == args@.len() && text@ == path@.block(
                texts(args@),
            ),
            Err(error) => path@.whole.inputs.len() != args@.len() && error@ == (
            ErrorView::ArgumentMismatch {
                subscripts: path@.whole.inputs.len() as usize,
                args: args@.len() as usize,
            }),
        },
{
    if path.num_args() != args.len() {
        return Err(Error::ArgumentMismatch { subscripts: path.num_args(), args: args.len() });
    }
    let steps = path.steps();
    let mut text = String::from_str("{\n");
    text.append(function_definitions(steps).as_str());
    text.append(argument_bindings(args).as_str());
    text.append(step_calls(steps).as_str());
    path.output().position().push_name(&mut text);
    text.append("\n}\n");
    Ok(text)
}

/// Compiles the einsum `subscripts` on the tensors that the expressions
/// `args` stand for: reads the subscripts, searches for the cheapest plan,
/// and gives the block that evaluates it. The same subscripts and
/// expressions always give the same text.
pub fn einsum(subscripts: &str, args: &Vec<String>) -> (text: Result<String, Error>)
    ensures
        match text {
            Ok(text) => compiled(subscripts@, texts(args@)) == Ok::<Seq<char>, ErrorView>(text@),
            Err(error) => compiled(subscripts@, texts(args@)) == Err::<Seq<char>, ErrorView>(
                error@,
            ),
        },
{
    match Path::brute_force(subscripts) {
        Ok(path) => block(&path, args),
        Err(error) => Err(error),
    }
}

/// One of the arguments of the macro.
#[derive(Debug, PartialEq, Eq)]
pub struct Argument {
    /// The expression as it is written.
    pub text: String,
    /// The value of the expression, where it is a string literal.
    pub literal: Option<String>,
}

/// What an [`Argument`] holds.
pub struct ArgumentView {
    pub text: Seq<char>,
    pub literal: Option<Seq<char>>,
}

impl View for Argument {
    type V = ArgumentView;

    open spec fn view(&self) -> ArgumentView {
        ArgumentView {
            text: self.text@,
            literal: match self.literal {
                Some(value) => Some(value@),
                None => None,
            },
        }
    }
}

impl Clone for Argument {
    fn clone(&self) -> (copy: Self)
        ensures
            copy@ == self@,
    {
        Argument {
            text: self.text.clone(),
            literal: match &self.literal {
                Some(value) => Some(value.clone()),
                None => None,
            },
        }
    }
}

/// The views of the arguments in `arguments`.
pub open spec fn argument_views(arguments: Seq<Argument>) -> Seq<ArgumentView> {
    Seq::new(arguments.len(), |i: int| arguments[i]@)
}

/// What the macro expands to on `arguments`: the first of them must be a
/// string literal, whose value is the subscripts; the others are the
/// tensors, and the expansion is what compiling the subscripts on them gives.
pub open spec fn expanded(arguments: Seq<ArgumentView>) -> Result<Seq<char>, ErrorView> {
    if arguments.len() > 0 && arguments.first().literal is Some {
        compiled(
            arguments.first().literal->0,
            Seq::new((arguments.len() - 1) as nat, |i: int| arguments[i + 1].text),
        )
    } else {
        Err(ErrorView::MissingSubscripts)
    }
}

/// Expands the macro on `arguments`: takes the subscripts from the string
/// literal that comes first, and compiles them on the expressions that
/// follow. Fails where no string literal comes first, where its value is
/// no text of subscripts, and where the number of expressions is not that
/// of the inputs.
pub fn expand(arguments: &Vec<Argument>) -> (text: Result<String, Error>)
    ensures
        match text {
            Ok(text) => expanded(argument_views(arguments@)) == Ok::<Seq<char>, ErrorView>(text@),
            Err(error) => expanded(argument_views(arguments@)) == Err::<Seq<char>, ErrorView>(
                error@,
            ),
        },
{
    if arguments.len() == 0 {
        return Err(Error::MissingSubscripts);
    }
    match &arguments[0].literal {
        Some(subscripts) => {
            let mut args: Vec<String> = Vec::new();
            let mut i: usize = 1;
            while i < arguments.len()
                invariant
                    1 <= i <= arguments.len(),
                    texts(args@) == Seq::new(
                        (i - 1) as nat,
                        |k: int| argument_views(arguments@)[k + 1].text,
                    ),
                decreases arguments.len() - i,
            {
                let ghost earlier = texts(args@);
                args.push(arguments[i].text.clone());
                assert(texts(args@) == earlier.push(argument_views(arguments@)[i as int].text));
                i = i + 1;
            }
            einsum(subscripts.as_str(), &args)
        },
        None => Err(Error::MissingSubscripts),
    }
}

} // verus!
