use einsum_codegen::codegen::ndarray::naive;
use einsum_codegen::codegen::ndarray::{dim, function_definition, n_ident, signature, storage};
use einsum_codegen::{Namespace, Subscripts};
use proc_macro2::{Delimiter, TokenStream, TokenTree};
use std::str::FromStr;

/// The tokens of `stream`, flattened, with the delimiters of groups as tokens.
fn flatten(stream: TokenStream, out: &mut Vec<String>) {
    for tree in stream {
        match tree {
            TokenTree::Group(group) => {
                let (open, close) = match group.delimiter() {
                    Delimiter::Parenthesis => ("(", ")"),
                    Delimiter::Brace => ("{", "}"),
                    Delimiter::Bracket => ("[", "]"),
                    Delimiter::None => ("", ""),
                };
                out.push(open.to_string());
                flatten(group.stream(), out);
                out.push(close.to_string());
            }
            other => out.push(other.to_string()),
        }
    }
}

/// The tokens of `text`.
fn tokens(text: &str) -> Vec<String> {
    let mut out = Vec::new();
    flatten(TokenStream::from_str(text).unwrap(), &mut out);
    out
}

/// The tokens of `text`, which a formatter has laid out: the commas that it
/// puts after the last parameter and after the last bound are left out.
fn formatted_tokens(text: &str) -> Vec<String> {
    let all = tokens(text);
    let mut out = Vec::new();
    for (i, token) in all.iter().enumerate() {
        let next = all.get(i + 1).map(String::as_str);
        if token == "," && (next == Some(")") || next == Some("{")) {
            continue;
        }
        out.push(token.clone());
    }
    out
}

fn matmul() -> Subscripts {
    let mut namespace = Namespace::init();
    Subscripts::from_raw_indices(&mut namespace, "ij,jk->ik").unwrap()
}

#[test]
fn mod_define_array_size() {
    let subscripts = matmul();
    let tt = naive::define_array_size(&subscripts);
    assert_eq!(
        tokens(&tt),
        formatted_tokens(
            r###"
        let (n_a, n_b) = arg0.dim();
        let (_, n_c) = arg1.dim();
        "###
        )
    );
}

#[test]
fn naive_define_array_size() {
    let subscripts = matmul();
    let tt = naive::define_array_size(&subscripts);
    assert_eq!(tt, "let (n_a, n_b) = arg0.dim();\nlet (_, n_c) = arg1.dim();\n");
}

#[test]
fn mod_function_definition_snapshot() {
    let subscripts = matmul();
    let tt = function_definition(&subscripts, "todo!()");
    assert_eq!(
        tokens(&tt),
        formatted_tokens(
            r###"
        fn ab_bc__ac<T, S0, S1>(
            arg0: ndarray::ArrayBase<S0, ndarray::Ix2>,
            arg1: ndarray::ArrayBase<S1, ndarray::Ix2>,
        ) -> ndarray::Array<T, ndarray::Ix2>
        where
            T: ndarray::LinalgScalar,
            S0: ndarray::Data<Elem = T>,
            S1: ndarray::Data<Elem = T>,
        {
            let (n_a, n_b) = arg0.dim();
            let (_, n_c) = arg1.dim();
            {
                let (n_0, n_1) = arg0.dim();
                assert_eq!(n_0, n_a);
                assert_eq!(n_1, n_b);
            }
            {
                let (n_0, n_1) = arg1.dim();
                assert_eq!(n_0, n_b);
                assert_eq!(n_1, n_c);
            }
            todo!()
        }
        "###
        )
    );
}

#[test]
fn contraction() {
    let subscripts = matmul();
    let tt = naive::contraction(&subscripts);
    assert_eq!(
        tokens(&tt),
        formatted_tokens(
            r###"
        for a in 0..n_a {
            for c in 0..n_c {
                for b in 0..n_b {
                    out0[(a, c)] = arg0[(a, b)] * arg1[(b, c)];
                }
            }
        }
        "###
        )
    );
}

#[test]
fn inner() {
    let subscripts = matmul();
    let tt = naive::inner(&subscripts);
    assert_eq!(
        tokens(&tt),
        formatted_tokens(
            r###"
        let (n_a, n_b) = arg0.dim();
        let (_, n_c) = arg1.dim();
        {
            let (n_0, n_1) = arg0.dim();
            assert_eq!(n_0, n_a);
            assert_eq!(n_1, n_b);
        }
        {
            let (n_0, n_1) = arg1.dim();
            assert_eq!(n_0, n_b);
            assert_eq!(n_1, n_c);
        }
        let mut out0 = ndarray::Array::zeros((n_a, n_c));
        for a in 0..n_a {
            for c in 0..n_c {
                for b in 0..n_b {
                    out0[(a, c)] = arg0[(a, b)] * arg1[(b, c)];
                }
            }
        }
        out0
        "###
        )
    );
}

fn fresh(text: &str) -> Subscripts {
    let mut namespace = Namespace::init();
    Subscripts::from_raw_indices(&mut namespace, text).unwrap()
}

#[test]
fn names_of_sizes_ranks_and_storages() {
    assert_eq!(n_ident('a'), "n_a");
    assert_eq!(n_ident('z'), "n_z");
    assert_eq!(naive::index_ident('k'), "k");
    assert_eq!(dim(0), "ndarray::Ix0");
    assert_eq!(dim(2), "ndarray::Ix2");
    assert_eq!(dim(10), "ndarray::Ix10");
    assert_eq!(storage(0), "S0");
    assert_eq!(storage(123), "S123");
}

#[test]
fn sizes_are_named_where_an_index_is_first_met() {
    assert_eq!(
        naive::define_array_size(&fresh("ab,ba,bc,cc->")),
        "let (n_a, n_b) = arg0.dim();\n\
         let (_, _) = arg1.dim();\n\
         let (_, n_c) = arg2.dim();\n\
         let (_, _) = arg3.dim();\n"
    );
    assert_eq!(naive::define_array_size(&fresh("aab->b")), "let (n_a, _, n_b) = arg0.dim();\n");
    assert_eq!(
        naive::define_array_size(&fresh(",a,->a")),
        "let () = arg0.dim();\nlet (n_a) = arg1.dim();\nlet () = arg2.dim();\n"
    );
    assert_eq!(
        naive::define_array_size(&fresh("a...b,b...->a")),
        "let (n_a, n_b) = arg0.dim();\nlet (_) = arg1.dim();\n"
    );
}

#[test]
fn sizes_are_checked_for_every_input() {
    assert_eq!(
        naive::array_size_asserts(&fresh("ab,bc->ac")),
        "{\nlet (n_0, n_1) = arg0.dim();\nassert_eq!(n_0, n_a);\nassert_eq!(n_1, n_b);\n}\n\
         {\nlet (n_0, n_1) = arg1.dim();\nassert_eq!(n_0, n_b);\nassert_eq!(n_1, n_c);\n}\n"
    );
    assert_eq!(
        naive::array_size_asserts(&fresh("aa,->")),
        "{\nlet (n_0, n_1) = arg0.dim();\nassert_eq!(n_0, n_a);\nassert_eq!(n_1, n_a);\n}\n\
         {\nlet () = arg1.dim();\n}\n"
    );
}

#[test]
fn loops_run_over_the_output_and_then_over_what_is_summed() {
    assert_eq!(
        naive::contraction(&fresh("ab,bc->ca")),
        "for c in 0..n_c {\nfor a in 0..n_a {\nfor b in 0..n_b {\n\
         out0[(c, a)] = arg0[(a, b)] * arg1[(b, c)];\n\
         }\n}\n}\n"
    );
    assert_eq!(
        naive::contraction(&fresh("ba,ab->")),
        "for a in 0..n_a {\nfor b in 0..n_b {\n\
         out0[()] = arg0[(a, b)] * arg1[(b, a)];\n\
         }\n}\n"
    );
    assert_eq!(naive::contraction(&fresh("->")), "out0[()] = arg0[()];\n");
    assert_eq!(
        naive::contraction(&fresh("a,b,c->abc")),
        "for a in 0..n_a {\nfor b in 0..n_b {\nfor c in 0..n_c {\n\
         out0[(a, b, c)] = arg0[(a)] * arg1[(b)] * arg2[(c)];\n\
         }\n}\n}\n"
    );
    assert_eq!(
        naive::contraction(&fresh("ii->i")),
        "for a in 0..n_a {\nout0[(a)] = arg0[(a, a)];\n}\n"
    );
}

#[test]
fn the_function_is_named_after_the_subscripts() {
    let subscripts = fresh("a...b,b->a...");
    assert_eq!(
        signature(&subscripts),
        "fn a___b_b__a___<T, S0, S1>(\n\
         arg0: ndarray::ArrayBase<S0, ndarray::Ix2>,\n\
         arg1: ndarray::ArrayBase<S1, ndarray::Ix1>\n\
         ) -> ndarray::Array<T, ndarray::Ix1>\n\
         where\n\
         T: ndarray::LinalgScalar,\n\
         S0: ndarray::Data<Elem = T>,\n\
         S1: ndarray::Data<Elem = T>\n"
    );
    let whole = naive::define(&subscripts);
    assert_eq!(
        whole,
        format!("{}{{\n{}}}\n", signature(&subscripts), naive::inner(&subscripts))
    );
    assert_eq!(
        function_definition(&subscripts, "todo!()"),
        format!(
            "{}{{\n{}{}todo!()}}\n",
            signature(&subscripts),
            naive::define_array_size(&subscripts),
            naive::array_size_asserts(&subscripts)
        )
    );
}

#[test]
fn parameters_are_named_after_the_tensors_of_the_step() {
    let mut names = Namespace::init();
    let base = Subscripts::from_raw_indices(&mut names, "ab,bc,c->a").unwrap();
    let (_, outer) = base
        .factorize(&mut names, vec![*base.inputs[1].position(), *base.inputs[2].position()])
        .unwrap();
    assert_eq!(outer.to_string(), "a,ba->b | out1,arg0->out0");
    assert_eq!(
        naive::define(&outer),
        "fn a_ba__b<T, S0, S1>(\n\
         out1: ndarray::ArrayBase<S0, ndarray::Ix1>,\n\
         arg0: ndarray::ArrayBase<S1, ndarray::Ix2>\n\
         ) -> ndarray::Array<T, ndarray::Ix1>\n\
         where\n\
         T: ndarray::LinalgScalar,\n\
         S0: ndarray::Data<Elem = T>,\n\
         S1: ndarray::Data<Elem = T>\n\
         {\n\
         let (n_a) = out1.dim();\n\
         let (n_b, _) = arg0.dim();\n\
         {\nlet (n_0) = out1.dim();\nassert_eq!(n_0, n_a);\n}\n\
         {\nlet (n_0, n_1) = arg0.dim();\nassert_eq!(n_0, n_b);\nassert_eq!(n_1, n_a);\n}\n\
         let mut out0 = ndarray::Array::zeros((n_b));\n\
         for b in 0..n_b {\nfor a in 0..n_a {\n\
         out0[(b)] = out1[(a)] * arg0[(b, a)];\n\
         }\n}\n\
         out0\n\
         }\n"
    );
}
