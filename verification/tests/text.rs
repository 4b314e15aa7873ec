use einsum_codegen::canonical::{count_up_to_two, find_place, first_appearance, rename};
use einsum_codegen::parser::{check_space, copy_chars, push_indices, same_chars};
use einsum_codegen::subscripts::{flatten_indices, holds_position};
use einsum_codegen::subsets::{first_mask, next_mask};
use einsum_codegen::text::{
    check_index, nth_letter, push_all, push_decimal, push_index, push_joined,
};
use einsum_codegen::{Error, Namespace, Position, Subscripts};

fn strings(parts: &[&str]) -> Vec<String> {
    parts.iter().map(|part| part.to_string()).collect()
}

#[test]
fn namespace_counts_from_zero() {
    let mut names = Namespace::init();
    assert_eq!(names.new_ident(), Position::Out(0));
    assert_eq!(names.new_ident(), Position::Out(1));
    let mut branch = names.clone();
    assert_eq!(branch, names);
    assert_eq!(branch.new_ident(), Position::Out(2));
    assert_ne!(branch, names);
    assert_eq!(names.new_ident(), Position::Out(2));
    assert_eq!(names.new_ident(), Position::Out(3));
    assert_eq!(branch.new_ident(), Position::Out(3));
}

#[test]
fn positions_are_shown_as_identifiers() {
    assert_eq!(Position::Arg(0).to_string(), "arg0");
    assert_eq!(Position::Arg(7).to_string(), "arg7");
    assert_eq!(Position::Out(0).to_string(), "out0");
    assert_eq!(Position::Out(10).to_string(), "out10");
    assert_eq!(Position::Out(1234567890).to_string(), "out1234567890");
    assert_eq!(Position::Arg(usize::MAX).to_string(), format!("arg{}", usize::MAX));
    let mut text = String::from("let ");
    Position::Out(42).push_name(&mut text);
    assert_eq!(text, "let out42");
    assert!(Position::Arg(5) < Position::Out(0));
    assert!(Position::Arg(1) < Position::Arg(2));
}

#[test]
fn numbers_are_written_in_decimal() {
    for n in [0, 1, 9, 10, 11, 99, 100, 101, 1000, 65535, 4294967295, usize::MAX] {
        let mut text = String::from("#");
        push_decimal(&mut text, n);
        assert_eq!(text, format!("#{}", n));
    }
}

#[test]
fn indices_are_the_lower_case_letters() {
    let letters: Vec<char> = (0..26).map(nth_letter).collect();
    assert_eq!(letters.iter().collect::<String>(), "abcdefghijklmnopqrstuvwxyz");
    for c in ['a', 'm', 'z'] {
        assert!(check_index(c));
    }
    for c in ['`', '{', 'A', 'Z', '0', ' ', '.', ',', '-', '>', 'é', 'α'] {
        assert!(!check_index(c));
    }
    let mut text = String::from("n_");
    for c in letters {
        push_index(&mut text, c);
    }
    assert_eq!(text, "n_abcdefghijklmnopqrstuvwxyz");
    let mut text = String::new();
    push_indices(&mut text, &vec!['x', 'a', 'x']);
    assert_eq!(text, "xax");
}

#[test]
fn spaces_are_four_characters() {
    for c in [' ', '\t', '\r', '\n'] {
        assert!(check_space(c));
    }
    for c in ['a', '.', '\u{b}', '\u{c}', '\u{a0}', '\u{2003}'] {
        assert!(!check_space(c));
    }
}

#[test]
fn parts_are_joined_with_a_separator_between_them() {
    for (parts, joined, all) in [
        (strings(&[]), "<>", "<>"),
        (strings(&["a"]), "<a>", "<a>"),
        (strings(&["a", "b"]), "<a, b>", "<ab>"),
        (strings(&["a", "", "c"]), "<a, , c>", "<ac>"),
        (strings(&["", ""]), "<, >", "<>"),
    ] {
        let mut text = String::from("<");
        push_joined(&mut text, &parts, ", ");
        text.push('>');
        assert_eq!(text, joined);
        let mut text = String::from("<");
        push_all(&mut text, &parts);
        text.push('>');
        assert_eq!(text, all);
    }
}

#[test]
fn characters_are_copied_and_compared() {
    let chars = vec!['a', 'b', 'a'];
    assert_eq!(copy_chars(&chars), chars);
    assert_eq!(copy_chars(&Vec::new()), Vec::<char>::new());
    assert!(same_chars(&chars, &['a', 'b', 'a']));
    assert!(!same_chars(&chars, &['a', 'b']));
    assert!(!same_chars(&chars, &['a', 'b', 'b']));
    assert!(!same_chars(&chars, &['a', 'b', 'a', 'a']));
    assert!(same_chars(&Vec::new(), &[]));
}

#[test]
fn occurrences_are_counted_up_to_two() {
    let chars: Vec<char> = "abcabca".chars().collect();
    assert_eq!(count_up_to_two(&chars, 'a'), 2);
    assert_eq!(count_up_to_two(&chars, 'b'), 2);
    assert_eq!(count_up_to_two(&chars, 'd'), 0);
    assert_eq!(count_up_to_two(&vec!['x'], 'x'), 1);
    assert_eq!(count_up_to_two(&Vec::new(), 'x'), 0);
}

#[test]
fn indices_are_renamed_in_the_order_of_their_first_appearance() {
    let chars: Vec<char> = "zxzyxw".chars().collect();
    let order = first_appearance(&chars);
    assert_eq!(order, vec!['z', 'x', 'y', 'w']);
    assert_eq!(find_place(&order, 'z'), 0);
    assert_eq!(find_place(&order, 'y'), 2);
    assert_eq!(find_place(&order, 'a'), 4);
    assert_eq!(find_place(&chars, 'x'), 1);
    assert_eq!(rename(&chars, &order), "abacbd".chars().collect::<Vec<char>>());
    assert_eq!(rename(&vec!['w', 'w'], &order), vec!['d', 'd']);
    assert_eq!(first_appearance(&Vec::new()), Vec::<char>::new());
}

#[test]
fn subsets_come_in_the_order_of_their_numbers() {
    let mut bits = first_mask(3);
    let mut seen = vec![bits.clone()];
    while next_mask(&mut bits) {
        seen.push(bits.clone());
    }
    let expected: Vec<Vec<bool>> =
        (0..8u32).map(|m| (0..3).map(|i| (m >> i) & 1 == 1).collect()).collect();
    assert_eq!(seen, expected);
    assert_eq!(seen[1], vec![true, false, false]);
    assert_eq!(seen[6], vec![false, true, true]);

    let mut none = first_mask(0);
    assert_eq!(none, Vec::<bool>::new());
    assert!(!next_mask(&mut none));

    let mut bits = first_mask(10);
    let mut count = 1;
    while next_mask(&mut bits) {
        count += 1;
    }
    assert_eq!(count, 1024);
}

#[test]
fn positions_are_looked_up() {
    let positions = vec![Position::Arg(1), Position::Out(0)];
    assert!(holds_position(&positions, Position::Arg(1)));
    assert!(holds_position(&positions, Position::Out(0)));
    assert!(!holds_position(&positions, Position::Arg(0)));
    assert!(!holds_position(&positions, Position::Out(1)));
    assert!(!holds_position(&Vec::new(), Position::Arg(0)));
}

#[test]
fn indices_of_inputs_are_listed_one_input_after_the_other() {
    let mut names = Namespace::init();
    let subscripts = Subscripts::from_raw_indices(&mut names, "ab...c,,cb->").unwrap();
    assert_eq!(flatten_indices(&subscripts.inputs), "abccb".chars().collect::<Vec<char>>());
    assert_eq!(flatten_indices(&Vec::new()), Vec::<char>::new());
}

#[test]
fn errors_are_reported_in_words() {
    assert_eq!(
        Error::InvalidSubscripts("a b $".to_string()).to_string(),
        "Invalid subscripts: a b $"
    );
    assert_eq!(
        Error::ArgumentMismatch { subscripts: 12, args: 0 }.to_string(),
        "Argument number mismatch: subscripts (12), args (0)"
    );
}
