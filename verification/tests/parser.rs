use einsum_codegen::parser::{ellipsis, index, subscript, subscripts};
use einsum_codegen::{Error, RawSubscript, RawSubscripts};
use nom::bytes::complete::tag;
use nom::character::complete::{char, multispace0, satisfy};
use nom::combinator::opt;
use nom::multi::{many0, separated_list1};
use nom::sequence::tuple;
use nom::{Finish, IResult, Parser};

fn indices(chars: &str) -> RawSubscript {
    RawSubscript::Indices(chars.chars().collect())
}

fn with_ellipsis(start: &str, end: &str) -> RawSubscript {
    RawSubscript::Ellipsis { start: start.chars().collect(), end: end.chars().collect() }
}

#[test]
fn parser_test_subscript() {
    let (res, out) = subscript("ijk");
    assert_eq!(out, RawSubscript::Indices(vec!['i', 'j', 'k']));
    assert_eq!(res, "");

    let (res, out) = subscript("...");
    assert_eq!(out, RawSubscript::Ellipsis { start: Vec::new(), end: Vec::new() });
    assert_eq!(res, "");

    let (res, out) = subscript("i...");
    assert_eq!(out, RawSubscript::Ellipsis { start: vec!['i'], end: Vec::new() });
    assert_eq!(res, "");

    let (res, out) = subscript("...j");
    assert_eq!(out, RawSubscript::Ellipsis { start: Vec::new(), end: vec!['j'] });
    assert_eq!(res, "");

    let (res, out) = subscript("i...j");
    assert_eq!(out, RawSubscript::Ellipsis { start: vec!['i'], end: vec!['j'] });
    assert_eq!(res, "");
}

#[test]
fn test_subscript_() {
    let (res, out) = subscript("ijk");
    assert_eq!(out, RawSubscript::Indices(vec!['i', 'j', 'k']));
    assert_eq!(res, "");

    let (res, out) = subscript("...");
    assert_eq!(out, RawSubscript::Ellipsis { start: Vec::new(), end: Vec::new() });
    assert_eq!(res, "");

    let (res, out) = subscript("i...");
    assert_eq!(out, RawSubscript::Ellipsis { start: vec!['i'], end: Vec::new() });
    assert_eq!(res, "");

    let (res, out) = subscript("...j");
    assert_eq!(out, RawSubscript::Ellipsis { start: Vec::new(), end: vec!['j'] });
    assert_eq!(res, "");

    let (res, out) = subscript("i...j");
    assert_eq!(out, RawSubscript::Ellipsis { start: vec!['i'], end: vec!['j'] });
    assert_eq!(res, "");
}

fn check_matmul(input: &str) {
    let (_, op) = subscripts(input);
    assert_eq!(
        op,
        RawSubscripts {
            inputs: vec![
                RawSubscript::Indices(vec!['i', 'j']),
                RawSubscript::Indices(vec!['j', 'k'])
            ],
            output: Some(RawSubscript::Indices(vec!['i', 'k'])),
        }
    );
}

#[test]
fn parser_test_operator() {
    check_matmul("ij,jk->ik");

    // with space
    check_matmul(" ij,jk->ik");
    check_matmul("i j,jk->ik");
    check_matmul("ij ,jk->ik");
    check_matmul("ij, jk->ik");
    check_matmul("ij,j k->ik");
    check_matmul("ij,jk ->ik");
    check_matmul("ij,jk-> ik");
    check_matmul("ij,jk->i k");

    // implicit mode
    let (_, op) = subscripts("ij,jk");
    assert_eq!(
        op,
        RawSubscripts {
            inputs: vec![
                RawSubscript::Indices(vec!['i', 'j']),
                RawSubscript::Indices(vec!['j', 'k'])
            ],
            output: None,
        }
    );

    // with ...
    let (_, op) = subscripts("i...,i...->...");
    assert_eq!(
        op,
        RawSubscripts {
            inputs: vec![
                RawSubscript::Ellipsis { start: vec!['i'], end: Vec::new() },
                RawSubscript::Ellipsis { start: vec!['i'], end: Vec::new() }
            ],
            output: Some(RawSubscript::Ellipsis { start: Vec::new(), end: Vec::new() })
        }
    );
}

#[test]
fn index_reads_one_lower_case_letter() {
    assert_eq!(index("ij"), Some(("j", 'i')));
    assert_eq!(index("z"), Some(("", 'z')));
    assert_eq!(index("a"), Some(("", 'a')));
    assert_eq!(index(""), None);
    assert_eq!(index(" i"), None);
    assert_eq!(index("I"), None);
    assert_eq!(index("1"), None);
    assert_eq!(index("{"), None);
    assert_eq!(index("`"), None);
    assert_eq!(index("éa"), None);
}

#[test]
fn ellipsis_reads_three_dots() {
    assert_eq!(ellipsis("...j"), Some(("j", "...")));
    assert_eq!(ellipsis("..."), Some(("", "...")));
    assert_eq!(ellipsis("...."), Some((".", "...")));
    assert_eq!(ellipsis(".."), None);
    assert_eq!(ellipsis(". .."), None);
    assert_eq!(ellipsis(" ..."), None);
    assert_eq!(ellipsis(""), None);
}

#[test]
fn subscript_leaves_what_it_cannot_read() {
    assert_eq!(subscript("ij,jk"), (",jk", indices("ij")));
    assert_eq!(subscript("ij ,jk"), (" ,jk", indices("ij")));
    assert_eq!(subscript(" i j"), ("", indices("ij")));
    assert_eq!(subscript("ij  "), ("  ", indices("ij")));
    assert_eq!(subscript(""), ("", indices("")));
    assert_eq!(subscript("->a"), ("->a", indices("")));
    assert_eq!(subscript("i ... j->"), ("->", with_ellipsis("i", "j")));
    assert_eq!(subscript("i... "), ("", with_ellipsis("i", "")));
    assert_eq!(subscript("i... ,j"), (",j", with_ellipsis("i", "")));
    assert_eq!(subscript("i...j...k"), ("...k", with_ellipsis("i", "j")));
    assert_eq!(subscript("i. ..j"), (". ..j", indices("i")));
    assert_eq!(subscript("iJ"), ("J", indices("i")));
    assert_eq!(subscript("\ti\nj\r"), ("\r", indices("ij")));
}

#[test]
fn subscripts_leave_what_they_cannot_read() {
    let matmul = RawSubscripts {
        inputs: vec![indices("ij"), indices("jk")],
        output: Some(indices("ik")),
    };
    assert_eq!(subscripts("ij,jk->ik"), ("", matmul));
    let (rest, raw) = subscripts("ij,jk->ik->il");
    assert_eq!(rest, "->il");
    assert_eq!(raw.inputs.len(), 2);
    assert_eq!(raw.output, Some(indices("ik")));
    let (rest, raw) = subscripts("ij,jk->ik,il");
    assert_eq!(rest, ",il");
    assert_eq!(raw.output, Some(indices("ik")));
    let (rest, raw) = subscripts("");
    assert_eq!(rest, "");
    assert_eq!(raw, RawSubscripts { inputs: vec![indices("")], output: None });
    let (rest, raw) = subscripts(",");
    assert_eq!(rest, "");
    assert_eq!(raw, RawSubscripts { inputs: vec![indices(""), indices("")], output: None });
    let (rest, raw) = subscripts("a - >b");
    assert_eq!(rest, " - >b");
    assert_eq!(raw, RawSubscripts { inputs: vec![indices("a")], output: None });
    let (rest, raw) = subscripts("a->");
    assert_eq!(rest, "");
    assert_eq!(raw, RawSubscripts { inputs: vec![indices("a")], output: Some(indices("")) });
}

#[test]
fn from_str_takes_the_whole_text() {
    let matmul = RawSubscripts {
        inputs: vec![indices("ij"), indices("jk")],
        output: Some(indices("ik")),
    };
    assert_eq!(RawSubscripts::from_str("ij,jk->ik").as_ref(), Ok(&matmul));
    assert_eq!(RawSubscripts::from_str(" i j , j k -> i k \n").as_ref(), Ok(&matmul));
    assert_eq!(
        RawSubscripts::from_str("ij,jk"),
        Ok(RawSubscripts { inputs: vec![indices("ij"), indices("jk")], output: None })
    );
    assert_eq!(
        RawSubscripts::from_str("i...,...j->i...j"),
        Ok(RawSubscripts {
            inputs: vec![with_ellipsis("i", ""), with_ellipsis("", "j")],
            output: Some(with_ellipsis("i", "j")),
        })
    );
    assert_eq!(
        RawSubscripts::from_str(""),
        Ok(RawSubscripts { inputs: vec![indices("")], output: None })
    );
}

#[test]
fn from_str_refuses_what_is_left_over() {
    for text in [
        "ij,jk->ik$",
        "ij,jk->ik->il",
        "ij,jk->ik,il",
        "i....j",
        "i...j...k",
        "i. ..j",
        "ij-jk",
        "ij- >ik",
        "IJ",
        "i1",
        "ij;jk",
        "a→b",
    ] {
        assert_eq!(
            RawSubscripts::from_str(text),
            Err(Error::InvalidSubscripts(text.to_string())),
            "{}",
            text
        );
    }
}

#[test]
fn invalid_subscripts_are_reported_with_the_text() {
    let error = RawSubscripts::from_str("ij,jk->ik$").unwrap_err();
    assert_eq!(error.to_string(), "Invalid subscripts: ij,jk->ik$");
}

#[test]
fn spaces_do_not_change_what_is_read() {
    let plain = RawSubscripts::from_str("ab...,...bc->a...c").unwrap();
    for text in [
        " ab...,...bc->a...c",
        "a b...,...bc->a...c",
        "ab ...,...bc->a...c",
        "ab... ,...bc->a...c",
        "ab..., ...bc->a...c",
        "ab...,... bc->a...c",
        "ab...,...b c->a...c",
        "ab...,...bc ->a...c",
        "ab...,...bc-> a...c",
        "ab...,...bc->a ...c",
        "ab...,...bc->a... c",
        "ab...,...bc->a...c ",
        "\tab...\n,\r...bc  ->  a...c\n",
    ] {
        assert_eq!(RawSubscripts::from_str(text).as_ref(), Ok(&plain), "{:?}", text);
    }
}

// The same grammar, put together from the combinators of a parser library.

fn nom_index(input: &str) -> IResult<&str, char> {
    satisfy(|c| c.is_ascii_lowercase()).parse(input)
}

fn nom_ellipsis(input: &str) -> IResult<&str, &str> {
    tag("...").parse(input)
}

fn nom_subscript(input: &str) -> IResult<&str, RawSubscript> {
    let mut indices = many0(tuple((multispace0, nom_index)).map(|(_space, c)| c));
    let (input, start) = indices(input)?;
    let (input, end) = opt(tuple((multispace0, nom_ellipsis, multispace0, indices))
        .map(|(_space_pre, _ellipsis, _space_post, output)| output))(input)?;
    if let Some(end) = end {
        Ok((input, RawSubscript::Ellipsis { start, end }))
    } else {
        Ok((input, RawSubscript::Indices(start)))
    }
}

fn nom_subscripts(input: &str) -> IResult<&str, RawSubscripts> {
    let (input, _head) = multispace0(input)?;
    let (input, inputs) = separated_list1(tuple((multispace0, char(','))), nom_subscript)(input)?;
    let (input, output) = opt(tuple((multispace0, tag("->"), multispace0, nom_subscript))
        .map(|(_space_pre, _arrow, _space_post, output)| output))(input)?;
    Ok((input, RawSubscripts { inputs, output }))
}

const TEXTS: [&str; 40] = [
    "",
    " ",
    "ijk",
    "i jk",
    "ij k",
    "i j k",
    "...",
    "i...",
    "...j",
    "i...j",
    "i ... j",
    "i...j...k",
    "i....",
    "..",
    ". . .",
    "ij,jk->ik",
    " ij,jk->ik",
    "i j,jk->ik",
    "ij ,jk->ik",
    "ij, jk->ik",
    "ij,j k->ik",
    "ij,jk ->ik",
    "ij,jk-> ik",
    "ij,jk->i k",
    "ij,jk->ik ",
    "ij,jk",
    "i...,i...->...",
    "a,a->",
    "a,,b",
    ",",
    "->",
    "a->b->c",
    "a->b,c",
    "a - > b",
    "A,b",
    "a,b$",
    "ab\t,\nbc\r->\tac\n",
    "a,b,c,d,e,f->abcdef",
    "zyx...wv , ...u -> ...",
    "é",
];

#[test]
fn reads_as_the_combinators_do() {
    for text in TEXTS {
        let (rest, raw) = subscripts(text);
        let (nom_rest, nom_raw) = nom_subscripts(text).finish().unwrap();
        assert_eq!(rest, nom_rest, "{:?}", text);
        assert_eq!(raw, nom_raw, "{:?}", text);

        let (rest, raw) = subscript(text);
        let (nom_rest, nom_raw) = nom_subscript(text).finish().unwrap();
        assert_eq!(rest, nom_rest, "{:?}", text);
        assert_eq!(raw, nom_raw, "{:?}", text);

        assert_eq!(index(text), nom_index(text).finish().ok(), "{:?}", text);
        assert_eq!(
            ellipsis(text).map(|(rest, _)| rest),
            nom_ellipsis(text).finish().ok().map(|(rest, _)| rest),
            "{:?}",
            text
        );
    }
}

#[test]
fn from_str_succeeds_where_only_spaces_are_left() {
    for text in TEXTS {
        let (rest, raw) = nom_subscripts(text).finish().unwrap();
        let parsed = RawSubscripts::from_str(text);
        if rest.chars().all(|c| c == ' ' || c == '\t' || c == '\r' || c == '\n') {
            assert_eq!(parsed, Ok(raw), "{:?}", text);
        } else {
            assert_eq!(parsed, Err(Error::InvalidSubscripts(text.to_string())), "{:?}", text);
        }
    }
}

#[test]
fn raw_subscript_compares_with_indices() {
    assert!(indices("ik").is_indices(&['i', 'k']));
    assert!(!indices("ik").is_indices(&['i']));
    assert!(!indices("ik").is_indices(&['i', 'j']));
    assert!(indices("").is_indices(&[]));
    assert!(!with_ellipsis("i", "k").is_indices(&['i', 'k']));
}

#[test]
fn raw_subscript_lists_its_indices() {
    assert_eq!(indices("ijk").indices(), vec!['i', 'j', 'k']);
    assert_eq!(with_ellipsis("ij", "k").indices(), vec!['i', 'j', 'k']);
    assert_eq!(with_ellipsis("", "").indices(), Vec::<char>::new());
    assert_eq!(indices("ijk").to_string(), "ijk");
    assert_eq!(with_ellipsis("ij", "k").to_string(), "ij___k");
    assert_eq!(with_ellipsis("", "").to_string(), "___");
    assert_eq!(with_ellipsis("ij", "k").clone(), with_ellipsis("ij", "k"));
}

#[test]
fn subscripts_are_parsed_from_a_str() {
    let parsed: RawSubscripts = "ij, jk -> ik".parse().unwrap();
    assert_eq!(parsed, RawSubscripts::from_str("ij,jk->ik").unwrap());
    let refused: Result<RawSubscripts, Error> = "ij|jk".parse();
    assert_eq!(refused, Err(Error::InvalidSubscripts("ij|jk".to_string())));
}
