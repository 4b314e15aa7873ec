use einsum_codegen::{
    dot, gemm, Error, Namespace, Position, RawSubscript, RawSubscripts, Subscripts,
};

fn parse(names: &mut Namespace, text: &str) -> Subscripts {
    Subscripts::from_raw_indices(names, text).unwrap()
}

fn fresh(text: &str) -> Subscripts {
    parse(&mut Namespace::init(), text)
}

#[test]
fn subscripts_escaped_ident() {
    let mut names = Namespace::init();

    let subscripts = Subscripts::from_raw_indices(&mut names, "ab,bc->ac").unwrap();
    assert_eq!(subscripts.escaped_ident(), "ab_bc__ac");

    // implicit mode
    let subscripts = Subscripts::from_raw_indices(&mut names, "ab,bc").unwrap();
    assert_eq!(subscripts.escaped_ident(), "ab_bc__ac");

    // output scalar
    let subscripts = Subscripts::from_raw_indices(&mut names, "a,a").unwrap();
    assert_eq!(subscripts.escaped_ident(), "a_a__");

    // ellipsis
    let subscripts = Subscripts::from_raw_indices(&mut names, "ab...,bc...->ac...").unwrap();
    assert_eq!(subscripts.escaped_ident(), "ab____bc_____ac___");
}

#[test]
fn escaped_ident_does_not_tell_where_the_ellipsis_belongs() {
    assert_eq!(fresh("a...,b->ab").escaped_ident(), "a____b__ab");
    assert_eq!(fresh("a,...b->ab").escaped_ident(), "a____b__ab");
}

#[test]
fn equal_up_to_the_names_of_the_indices() {
    let mut names = Namespace::init();
    let ss1 = Subscripts::from_raw_indices(&mut names, "ij,jk,kl->il").unwrap();

    let mut names = Namespace::init();
    let ss2 = Subscripts::from_raw_indices(&mut names, "xz,zy,yw->xw").unwrap();

    assert_eq!(ss1, ss2);
    assert_eq!(ss1.to_string(), "ab,bc,cd->ad | arg0,arg1,arg2->out0");
    assert_eq!(ss2.to_string(), "ab,bc,cd->ad | arg0,arg1,arg2->out0");
}

#[test]
fn implicit_mode_orders_the_output_alphabetically() {
    // Infer output subscripts for implicit mode
    let mut names = Namespace::init();
    let raw = RawSubscripts::from_str("ab,bc").unwrap();
    let subscripts = Subscripts::from_raw(&mut names, raw);
    assert_eq!(subscripts.to_string(), "ab,bc->ac | arg0,arg1->out0");

    // Reordered alphabetically
    let mut names = Namespace::init();
    let raw = RawSubscripts::from_str("ba").unwrap();
    let subscripts = Subscripts::from_raw(&mut names, raw);
    assert_eq!(subscripts.to_string(), "ab->ba | arg0->out0");

    assert_eq!(fresh("ij,jh").to_string(), "ab,bc->ca | arg0,arg1->out0");
    assert_eq!(fresh("ij").to_string(), "ab->ab | arg0->out0");
    assert_eq!(fresh("ji").to_string(), "ab->ba | arg0->out0");
    assert_eq!(fresh("zyx,x").to_string(), "abc,c->ba | arg0,arg1->out0");
    assert_eq!(fresh("ii").to_string(), "aa-> | arg0->out0");
    assert_eq!(fresh("a...b,b").to_string(), "a___b,b->a | arg0,arg1->out0");
    assert_eq!(fresh("").to_string(), "-> | arg0->out0");
}

#[test]
fn renaming_can_change_the_output_of_implicit_mode() {
    assert_ne!(fresh("ij"), fresh("ji"));
    assert_eq!(fresh("ij->ij"), fresh("ji->ji"));
    assert_eq!(fresh("ij"), fresh("xy"));
}

#[test]
fn canonical_form_uses_the_first_letters_in_the_order_of_appearance() {
    assert_eq!(fresh("zy,yx->xz").to_string(), "ab,bc->ca | arg0,arg1->out0");
    assert_eq!(fresh("q...r,r->q...").to_string(), "a___b,b->a___ | arg0,arg1->out0");
    assert_eq!(fresh("i->ij").to_string(), "a->ab | arg0->out0");
    assert_eq!(
        fresh("abcdefghijklmnopqrstuvwxyz->zyxwvutsrqponmlkjihgfedcba").to_string(),
        "abcdefghijklmnopqrstuvwxyz->zyxwvutsrqponmlkjihgfedcba | arg0->out0"
    );
    assert_eq!(
        fresh("zyxwvutsrqponmlkjihgfedcba").to_string(),
        "abcdefghijklmnopqrstuvwxyz->zyxwvutsrqponmlkjihgfedcba | arg0->out0"
    );
}

#[test]
fn the_result_gets_the_next_identifier() {
    let mut names = Namespace::init();
    assert_eq!(parse(&mut names, "a,a").output.position(), &Position::Out(0));
    assert_eq!(parse(&mut names, "a,a").output.position(), &Position::Out(1));
    let subscripts = parse(&mut names, "a,b,c");
    assert_eq!(subscripts.output.position(), &Position::Out(2));
    let positions: Vec<_> = subscripts.inputs.iter().map(|input| *input.position()).collect();
    assert_eq!(positions, vec![Position::Arg(0), Position::Arg(1), Position::Arg(2)]);
}

#[test]
fn a_text_that_is_no_subscripts_issues_no_identifier() {
    let mut names = Namespace::init();
    assert_eq!(
        Subscripts::from_raw_indices(&mut names, "ab,bc>ac"),
        Err(Error::InvalidSubscripts("ab,bc>ac".to_string()))
    );
    assert_eq!(names.new_ident(), Position::Out(0));
}

#[test]
fn contraction_indices_are_summed_over() {
    let mut names = Namespace::init();

    // Matrix multiplication AB
    let subscripts = Subscripts::from_raw_indices(&mut names, "ab,bc->ac").unwrap();
    assert_eq!(subscripts.contraction_indices(), vec!['b']);

    // Reduce all Tr(AB)
    let subscripts = Subscripts::from_raw_indices(&mut names, "ab,ba->").unwrap();
    assert_eq!(subscripts.contraction_indices(), vec!['a', 'b']);

    // Take diagonal elements
    let subscripts = Subscripts::from_raw_indices(&mut names, "aa->a").unwrap();
    assert_eq!(subscripts.contraction_indices(), Vec::<char>::new());

    // Once in the inputs, and not in the output
    assert_eq!(fresh("ab->a").contraction_indices(), Vec::<char>::new());
    // In alphabetical order, whatever the order of appearance
    assert_eq!(fresh("ac,cb,bd,da->").contraction_indices(), vec!['a', 'b', 'c', 'd']);
    assert_eq!(fresh("ab,cb,ac,d->d").contraction_indices(), vec!['a', 'b', 'c']);
    assert_eq!(fresh("a...b,b...a->...").contraction_indices(), vec!['a', 'b']);
}

#[test]
fn orders_count_indices() {
    for (text, memory, summed) in [
        ("ab,bc->ac", 2, 1),
        ("ab,ba->", 0, 2),
        ("aa->a", 1, 0),
        ("a,a,a->", 0, 1),
        ("ab,bc,cd->ad", 2, 2),
        ("a,b,c->abc", 3, 0),
        ("a...b,b->a...", 1, 1),
        ("a->aaa", 3, 0),
    ] {
        let subscripts = fresh(text);
        assert_eq!(subscripts.memory_order(), memory, "{}", text);
        assert_eq!(subscripts.contraction_indices().len(), summed, "{}", text);
        assert_eq!(subscripts.compute_order(), memory + summed, "{}", text);
        assert_eq!(subscripts.output.indices().len(), memory, "{}", text);
    }
}

#[test]
fn factorize_splits_in_two_steps() {
    let mut names = Namespace::init();
    let base = Subscripts::from_raw_indices(&mut names, "ab,bc,cd->ad").unwrap();

    let (step1, step2) =
        base.factorize(&mut names, vec![Position::Arg(0), Position::Arg(1)]).unwrap();

    assert_eq!(step1.to_string(), "ab,bc->ac | arg0,arg1->out1");
    assert_eq!(step2.to_string(), "ab,bc->ac | out1,arg2->out0");
    assert_eq!(names.new_ident(), Position::Out(2));
}

#[test]
fn factorize_hands_on_what_is_needed_later() {
    for (text, inners, first, second) in [
        // once among the inner inputs, not at all among the outer ones
        ("ab,c,d->a", vec![0, 1], "ab,c->abc | arg0,arg1->out1", "abc,d->a | out1,arg2->out0"),
        // several times among the inner inputs, not at all among the outer ones
        ("ab,ab,c->c", vec![0, 1], "ab,ab-> | arg0,arg1->out1", ",a->a | out1,arg2->out0"),
        // several times among the inner inputs, and among the outer ones
        ("ab,ab,b->", vec![0, 1], "ab,ab->b | arg0,arg1->out1", "a,a-> | out1,arg2->out0"),
        // the inner inputs need not come first, nor stand together
        (
            "ab,bc,cd->ad",
            vec![2, 0],
            "ab,cd->abcd | arg0,arg2->out1",
            "abcd,bc->ad | out1,arg1->out0",
        ),
        (
            "ab,bc,cd,d->a",
            vec![2, 3],
            "ab,b->a | arg2,arg3->out1",
            "a,bc,ca->b | out1,arg0,arg1->out0",
        ),
        (
            "a...b,b,b->a...",
            vec![1, 2],
            "a,a->a | arg1,arg2->out1",
            "a,b___a->b___ | out1,arg0->out0",
        ),
    ] {
        let mut names = Namespace::init();
        let base = Subscripts::from_raw_indices(&mut names, text).unwrap();
        let inners = inners.into_iter().map(Position::Arg).collect();
        let (inner, outer) = base.factorize(&mut names, inners).unwrap();
        assert_eq!(inner.to_string(), first, "{}", text);
        assert_eq!(outer.to_string(), second, "{}", text);
        assert_eq!(outer.memory_order(), base.memory_order(), "{}", text);
        assert_eq!(outer.output.position(), base.output.position(), "{}", text);
        assert_eq!(outer.inputs[0].position(), inner.output.position(), "{}", text);
    }
}

#[test]
fn factorize_refuses_a_degenerate_split() {
    let mut names = Namespace::init();
    let base = Subscripts::from_raw_indices(&mut names, "ab,bc,cd->ad").unwrap();
    let arg = Position::Arg;
    for inners in [
        vec![],
        vec![arg(0)],
        vec![arg(2)],
        vec![arg(0), arg(1), arg(2)],
        vec![arg(0), arg(3)],
        vec![arg(1), Position::Out(0)],
        vec![arg(1), arg(1)],
    ] {
        assert_eq!(base.factorize(&mut names, inners), Err(Error::IllegalFactorization));
    }
    assert_eq!(names.new_ident(), Position::Out(1));
    assert_eq!(
        Error::IllegalFactorization.to_string(),
        "Illegal factorization: the first step takes at least two inputs, and not all"
    );

    let mut names = Namespace::init();
    let pair = Subscripts::from_raw_indices(&mut names, "ab,bc->ac").unwrap();
    assert_eq!(
        pair.factorize(&mut names, vec![arg(0), arg(1)]),
        Err(Error::IllegalFactorization)
    );
}

#[test]
fn factorize_takes_positions_as_a_set() {
    let mut names = Namespace::init();
    let base = Subscripts::from_raw_indices(&mut names, "ab,bc,cd->ad").unwrap();
    let arg = Position::Arg;
    let (inner, outer) =
        base.factorize(&mut names, vec![arg(1), arg(0), arg(1), Position::Out(7)]).unwrap();
    assert_eq!(inner.to_string(), "ab,bc->ac | arg0,arg1->out1");
    assert_eq!(outer.to_string(), "ab,bc->ac | out1,arg2->out0");
}

#[test]
fn subscript_shows_what_it_holds() {
    let subscripts = fresh("i...j,j->i...");
    let first = &subscripts.inputs[0];
    assert_eq!(
        first.raw(),
        &RawSubscript::Ellipsis { start: vec!['a'], end: vec!['b'] }
    );
    assert_eq!(first.position(), &Position::Arg(0));
    assert_eq!(first.indices(), vec!['a', 'b']);
    assert!(subscripts.inputs[1].raw().is_indices(&['b']));
    assert_eq!(subscripts.output.indices(), vec!['a']);
    assert_eq!(first.clone(), *first);
    assert_eq!(subscripts.clone(), subscripts);
}

#[test]
fn dot_and_gemm_are_read_from_their_texts() {
    assert_eq!(dot(), RawSubscripts::from_str("a,a->").unwrap());
    assert_eq!(gemm(), RawSubscripts::from_str("ab,bc->ac").unwrap());
    let mut names = Namespace::init();
    assert_eq!(Subscripts::from_raw(&mut names, dot()).to_string(), "a,a-> | arg0,arg1->out0");
    assert_eq!(
        Subscripts::from_raw(&mut names, gemm()).to_string(),
        "ab,bc->ac | arg0,arg1->out1"
    );
}
