use einsum_codegen::path::{brute_force, brute_force_work};
use einsum_codegen::{Namespace, Path, Subscripts};

#[test]
fn brute_force_ab_bc() {
    let path = Path::brute_force("ab,bc->ac").unwrap();
    assert_eq!(path.len(), 1);
    assert_eq!(path[0].to_string(), "ab,bc->ac | arg0,arg1->out0");
}

#[test]
fn brute_force_ab_bc_cd_d() {
    let path = Path::brute_force("ab,bc,cd,d->a").unwrap();
    assert_eq!(path.len(), 3);
    assert_eq!(path[0].to_string(), "ab,b->a | arg2,arg3->out1");
    assert_eq!(path[1].to_string(), "a,ba->b | out1,arg1->out2");
    assert_eq!(path[2].to_string(), "a,ba->b | out2,arg0->out0");
}

#[test]
fn brute_force_a_a_a() {
    let path = Path::brute_force("a,a,a->").unwrap();
    assert_eq!(path.len(), 1);
    assert_eq!(path[0].to_string(), "a,a,a-> | arg0,arg1,arg2->out0");
}

#[test]
fn brute_force_of_three_matrices() {
    let path = Path::brute_force("ab,bc,cd->ad").unwrap();
    assert_eq!(path.len(), 2);
    assert_eq!(path[0].to_string(), "ab,bc->ac | arg0,arg1->out1");
    assert_eq!(path[1].to_string(), "ab,bc->ac | out1,arg2->out0");
    assert_eq!(path.steps().len(), 2);
    assert_eq!(path.num_args(), 3);
    assert_eq!(path.output().position().to_string(), "out0");
    assert_eq!(path.compute_order(), 3);
    assert_eq!(path.memory_order(), 2);
}

#[test]
fn brute_force_of_a_transpose() {
    let path = Path::brute_force("ji").unwrap();
    assert_eq!(path.len(), 1);
    assert_eq!(path[0].to_string(), "ab->ba | arg0->out0");
    assert_eq!(path.num_args(), 1);
    assert_eq!(path.compute_order(), 2);
    assert_eq!(path.memory_order(), 2);
}

#[test]
fn brute_force_refuses_a_text_that_is_no_subscripts() {
    let error = Path::brute_force("ab,bc=>ac").unwrap_err();
    assert_eq!(error.to_string(), "Invalid subscripts: ab,bc=>ac");
}

#[test]
fn orders_are_the_greatest_among_the_steps() {
    let path = Path::brute_force("ab,bc,cd,d->a").unwrap();
    let compute = path.iter().map(|step| step.compute_order()).max().unwrap();
    let memory = path.iter().map(|step| step.memory_order()).max().unwrap();
    assert_eq!(path.compute_order(), compute);
    assert_eq!(path.memory_order(), memory);
    assert_eq!(path.compute_order(), 2);
    assert_eq!(path.memory_order(), 1);
}

/// The greatest compute order and the greatest memory order of `steps`.
fn cost(steps: &[Subscripts]) -> (usize, usize) {
    (
        steps.iter().map(|step| step.compute_order()).max().unwrap(),
        steps.iter().map(|step| step.memory_order()).max().unwrap(),
    )
}

/// Every plan that the search looks at, in the order in which it does.
fn candidates(names: &Namespace, subscripts: &Subscripts) -> Vec<Vec<Subscripts>> {
    let n = subscripts.inputs.len();
    let mut all = Vec::new();
    if n > 2 {
        for mask in 0..(1usize << n) {
            let inners: Vec<_> = (0..n)
                .filter(|i| (mask >> i) & 1 == 1)
                .map(|i| *subscripts.inputs[i].position())
                .collect();
            if inners.len() >= 2 && inners.len() < n {
                let mut branch = names.clone();
                let (inner, outer) = subscripts.factorize(&mut branch, inners).unwrap();
                let mut steps = brute_force_work(&mut branch, outer);
                steps.insert(0, inner);
                all.push(steps);
            }
        }
    }
    all.push(vec![subscripts.clone()]);
    all
}

#[test]
fn the_plan_is_the_first_of_the_cheapest() {
    for text in [
        "ab,bc->ac",
        "ab,bc,cd->ad",
        "ab,bc,cd,d->a",
        "a,a,a->",
        "ab,ab,ab->",
        "a,b,c->abc",
        "ab,bc,ca->",
        "ab,cd,bc,de->ae",
        "a...b,b...c,c...d->a...d",
        "ab,b,b,bc",
        "aa,ab,bb->",
    ] {
        let mut names = Namespace::init();
        let subscripts = Subscripts::from_raw_indices(&mut names, text).unwrap();
        let all = candidates(&names, &subscripts);
        let before = names.clone();
        let plan = brute_force_work(&mut names, subscripts.clone());
        assert_eq!(names, before);
        let first = all.iter().position(|other| cost(other) == cost(&plan)).unwrap();
        assert_eq!(all[first], plan, "{}", text);
        for other in &all {
            assert!(cost(&plan) <= cost(other), "{}", text);
        }
    }
}

#[test]
fn the_steps_fit_together() {
    for text in ["ab,bc,cd,d->a", "ab,cd,bc,de->ae", "a,b,c,d,e->", "ab,bc,cd,de,ef->af"] {
        let path = Path::brute_force(text).unwrap();
        let last = path.len() - 1;
        assert_eq!(path[last].output.position(), path.output().position());
        assert_eq!(path[last].memory_order(), path.output().indices().len());
        for (i, step) in path.iter().enumerate() {
            if i < last {
                assert_eq!(step.output.position().to_string(), format!("out{}", i + 1));
                assert!(path[i + 1..].iter().any(|later| later
                    .inputs
                    .iter()
                    .any(|input| input.position() == step.output.position())));
            }
        }
        for n in 0..path.num_args() {
            let name = format!("arg{}", n);
            assert!(path
                .iter()
                .any(|step| step.inputs.iter().any(|input| input.position().to_string() == name)));
        }
    }
}

#[test]
fn brute_force_keeps_the_whole_with_the_steps() {
    let mut names = Namespace::init();
    let subscripts = Subscripts::from_raw_indices(&mut names, "ab,bc,cd->ad").unwrap();
    let path = brute_force(&mut names, subscripts.clone());
    assert_eq!(path, Path::brute_force("ab,bc,cd->ad").unwrap());
    assert_eq!(path.clone(), path);
    assert_eq!(path.output(), &subscripts.output);
    assert_eq!(names.new_ident().to_string(), "out1");
}
