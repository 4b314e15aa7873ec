use einsum_codegen::program::{block, call, function_definitions};
use einsum_codegen::{einsum, expand, Argument, Error, Path};
use proc_macro2::{Delimiter, TokenStream, TokenTree};
use std::str::FromStr;

/// The tokens of `stream`, flattened, with the delimiters of groups as tokens.
fn flatten(stream: TokenStream, out: &mut Vec<String>) {
    for tree in stream {
        match tree {
            TokenTree::Group(group) => {
                let (open, close) = match group.delimiter() {
                    Delimiter::Parenthesis => ("(", ")"),
                    Delimiter::Brace => ("{", "}"),
                    Delimiter::Bracket => ("[", "]"),
                    Delimiter::None => ("", ""),
                };
                out.push(open.to_string());
                flatten(group.stream(), out);
                out.push(close.to_string());
            }
            other => out.push(other.to_string()),
        }
    }
}

/// The tokens of `text`.
fn tokens(text: &str) -> Vec<String> {
    let mut out = Vec::new();
    flatten(TokenStream::from_str(text).unwrap(), &mut out);
    out
}

/// The tokens of `text`, which a formatter has laid out: the commas that it
/// puts after the last parameter and after the last bound are left out.
fn formatted_tokens(text: &str) -> Vec<String> {
    let all = tokens(text);
    let mut out = Vec::new();
    for (i, token) in all.iter().enumerate() {
        let next = all.get(i + 1).map(String::as_str);
        if token == "," && (next == Some(")") || next == Some("{")) {
            continue;
        }
        out.push(token.clone());
    }
    out
}

fn args(names: &[&str]) -> Vec<String> {
    names.iter().map(|name| name.to_string()).collect()
}

#[test]
fn einsum_ab_bc() {
    let tt = einsum("ab,bc->ac", &args(&["x", "y"])).unwrap();
    assert_eq!(
        tokens(&tt),
        formatted_tokens(
            r###"
        {
            fn ab_bc__ac<T, S0, S1>(
                arg0: ndarray::ArrayBase<S0, ndarray::Ix2>,
                arg1: ndarray::ArrayBase<S1, ndarray::Ix2>,
            ) -> ndarray::Array<T, ndarray::Ix2>
            where
                T: ndarray::LinalgScalar,
                S0: ndarray::Data<Elem = T>,
                S1: ndarray::Data<Elem = T>,
            {
                let (n_a, n_b) = arg0.dim();
                let (_, n_c) = arg1.dim();
                {
                    let (n_0, n_1) = arg0.dim();
                    assert_eq!(n_0, n_a);
                    assert_eq!(n_1, n_b);
                }
                {
                    let (n_0, n_1) = arg1.dim();
                    assert_eq!(n_0, n_b);
                    assert_eq!(n_1, n_c);
                }
                let mut out0 = ndarray::Array::zeros((n_a, n_c));
                for a in 0..n_a {
                    for c in 0..n_c {
                        for b in 0..n_b {
                            out0[(a, c)] = arg0[(a, b)] * arg1[(b, c)];
                        }
                    }
                }
                out0
            }
            let arg0 = x;
            let arg1 = y;
            let out0 = ab_bc__ac(arg0, arg1);
            out0
        }
        "###
        )
    );
}

#[test]
fn einsum_ab_bc_cd() {
    let tt = einsum("ab,bc,cd->ad", &args(&["x", "y", "z"])).unwrap();
    assert_eq!(
        tokens(&tt),
        formatted_tokens(
            r###"
        {
            fn ab_bc__ac<T, S0, S1>(
                arg0: ndarray::ArrayBase<S0, ndarray::Ix2>,
                arg1: ndarray::ArrayBase<S1, ndarray::Ix2>,
            ) -> ndarray::Array<T, ndarray::Ix2>
            where
                T: ndarray::LinalgScalar,
                S0: ndarray::Data<Elem = T>,
                S1: ndarray::Data<Elem = T>,
            {
                let (n_a, n_b) = arg0.dim();
                let (_, n_c) = arg1.dim();
                {
                    let (n_0, n_1) = arg0.dim();
                    assert_eq!(n_0, n_a);
                    assert_eq!(n_1, n_b);
                }
                {
                    let (n_0, n_1) = arg1.dim();
                    assert_eq!(n_0, n_b);
                    assert_eq!(n_1, n_c);
                }
                let mut out1 = ndarray::Array::zeros((n_a, n_c));
                for a in 0..n_a {
                    for c in 0..n_c {
                        for b in 0..n_b {
                            out1[(a, c)] = arg0[(a, b)] * arg1[(b, c)];
                        }
                    }
                }
                out1
            }
            let arg0 = x;
            let arg1 = y;
            let arg2 = z;
            let out1 = ab_bc__ac(arg0, arg1);
            let out0 = ab_bc__ac(out1, arg2);
            out0
        }
        "###
        )
    );
}

#[test]
fn einsum_of_a_diagonal() {
    let tt = einsum("ii->i", &args(&["a"])).unwrap();
    assert_eq!(
        tt,
        "{\n\
         fn aa__a<T, S0>(\n\
         arg0: ndarray::ArrayBase<S0, ndarray::Ix2>\n\
         ) -> ndarray::Array<T, ndarray::Ix1>\n\
         where\n\
         T: ndarray::LinalgScalar,\n\
         S0: ndarray::Data<Elem = T>\n\
         {\n\
         let (n_a, _) = arg0.dim();\n\
         {\n\
         let (n_0, n_1) = arg0.dim();\n\
         assert_eq!(n_0, n_a);\n\
         assert_eq!(n_1, n_a);\n\
         }\n\
         let mut out0 = ndarray::Array::zeros((n_a));\n\
         for a in 0..n_a {\n\
         out0[(a)] = arg0[(a, a)];\n\
         }\n\
         out0\n\
         }\n\
         let arg0 = a;\n\
         let out0 = aa__a(arg0);\n\
         out0\n\
         }\n"
    );
}

#[test]
fn einsum_forwards_the_expressions_as_they_are() {
    let tt = einsum("ij,jk", &args(&["a.clone()", "&(b + c)"])).unwrap();
    assert!(tt.contains("let arg0 = a.clone();\nlet arg1 = &(b + c);\n"));
    assert!(tt.ends_with("let out0 = ab_bc__ac(arg0, arg1);\nout0\n}\n"));
}

#[test]
fn einsum_defines_each_function_once() {
    let tt = einsum("ab,bc,cd->ad", &args(&["x", "y", "z"])).unwrap();
    assert_eq!(tt.matches("fn ab_bc__ac<").count(), 1);
    assert_eq!(tt.matches("fn ").count(), 1);
    assert_eq!(tt.matches("= ab_bc__ac(").count(), 2);

    let tt = einsum("ab,bc,cd,d->a", &args(&["w", "x", "y", "z"])).unwrap();
    assert_eq!(tt.matches("fn ab_b__a<").count(), 1);
    assert_eq!(tt.matches("fn a_ba__b<").count(), 1);
    assert_eq!(tt.matches("fn ").count(), 2);
    assert!(tt.ends_with(
        "let arg0 = w;\nlet arg1 = x;\nlet arg2 = y;\nlet arg3 = z;\n\
         let out1 = ab_b__a(arg2, arg3);\n\
         let out2 = a_ba__b(out1, arg1);\n\
         let out0 = a_ba__b(out2, arg0);\n\
         out0\n}\n"
    ));
}

#[test]
fn einsum_gives_the_same_text_each_time() {
    for (text, names) in [
        ("ab,bc,cd,d->a", vec!["w", "x", "y", "z"]),
        ("a...b,b...c->a...c", vec!["x", "y"]),
        ("ji", vec!["m"]),
    ] {
        let first = einsum(text, &args(&names)).unwrap();
        let second = einsum(text, &args(&names)).unwrap();
        assert_eq!(first, second);
        let path = Path::brute_force(text).unwrap();
        assert_eq!(block(&path, &args(&names)).unwrap(), first);
    }
}

#[test]
fn einsum_counts_the_arguments() {
    assert_eq!(
        einsum("ab,bc->ac", &args(&["x"])),
        Err(Error::ArgumentMismatch { subscripts: 2, args: 1 })
    );
    assert_eq!(
        einsum("ab,bc->ac", &args(&["x", "y", "z"])),
        Err(Error::ArgumentMismatch { subscripts: 2, args: 3 })
    );
    assert_eq!(
        einsum("ab,bc->ac", &args(&[])).unwrap_err().to_string(),
        "Argument number mismatch: subscripts (2), args (0)"
    );
    let path = Path::brute_force("a,b,c->").unwrap();
    assert_eq!(
        block(&path, &args(&["x", "y"])),
        Err(Error::ArgumentMismatch { subscripts: 3, args: 2 })
    );
}

#[test]
fn einsum_refuses_a_text_that_is_no_subscripts() {
    assert_eq!(
        einsum("ab;bc", &args(&["x", "y"])),
        Err(Error::InvalidSubscripts("ab;bc".to_string()))
    );
    // The text is looked at before the arguments are counted.
    assert_eq!(
        einsum("ab,bc->ac!", &args(&[])),
        Err(Error::InvalidSubscripts("ab,bc->ac!".to_string()))
    );
}

#[test]
fn call_names_the_function_and_the_tensors() {
    let path = Path::brute_force("ab,bc,cd->ad").unwrap();
    assert_eq!(call(&path[0]), "let out1 = ab_bc__ac(arg0, arg1);\n");
    assert_eq!(call(&path[1]), "let out0 = ab_bc__ac(out1, arg2);\n");
    let path = Path::brute_force("a->").unwrap();
    assert_eq!(call(&path[0]), "let out0 = a__(arg0);\n");
}

#[test]
fn function_definitions_follow_the_steps() {
    let path = Path::brute_force("ab,bc,cd,d->a").unwrap();
    let text = function_definitions(path.steps());
    let first = text.find("fn ab_b__a<").unwrap();
    let second = text.find("fn a_ba__b<").unwrap();
    assert_eq!(first, 0);
    assert!(first < second);
    // The function is written for the first step that calls it.
    assert!(text.contains("let mut out2 = ndarray::Array::zeros((n_b));"));
    assert!(!text.contains("out0"));
    assert_eq!(function_definitions(&Vec::new()), "");
}

fn literal(value: &str) -> Argument {
    Argument { text: format!("{:?}", value), literal: Some(value.to_string()) }
}

fn expression(text: &str) -> Argument {
    Argument { text: text.to_string(), literal: None }
}

#[test]
fn expand_takes_the_subscripts_from_the_literal() {
    let arguments = vec![literal("ab,bc->ac"), expression("x"), expression("y")];
    assert_eq!(expand(&arguments), einsum("ab,bc->ac", &args(&["x", "y"])));
    let arguments = vec![literal("a,b"), expression("x"), literal("y")];
    let text = expand(&arguments).unwrap();
    assert!(text.contains("let arg0 = x;\nlet arg1 = \"y\";\n"));
    let arguments = vec![literal("->")];
    assert_eq!(expand(&arguments), Err(Error::ArgumentMismatch { subscripts: 1, args: 0 }));
}

#[test]
fn expand_asks_for_a_literal_first() {
    assert_eq!(expand(&Vec::new()), Err(Error::MissingSubscripts));
    assert_eq!(expand(&vec![expression("x")]), Err(Error::MissingSubscripts));
    assert_eq!(
        expand(&vec![expression("x"), literal("ab,bc->ac"), expression("y")]),
        Err(Error::MissingSubscripts)
    );
    assert_eq!(
        Error::MissingSubscripts.to_string(),
        "einsum! must start with subscript string literal"
    );
}

#[test]
fn expand_passes_on_what_goes_wrong_later() {
    assert_eq!(
        expand(&vec![literal("ab,bc->ac"), expression("x")]),
        Err(Error::ArgumentMismatch { subscripts: 2, args: 1 })
    );
    assert_eq!(
        expand(&vec![literal("ab+bc"), expression("x"), expression("y")]),
        Err(Error::InvalidSubscripts("ab+bc".to_string()))
    );
}
