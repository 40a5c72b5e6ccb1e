use oak_analysis::json::{
    parse_program, run_program, Expected, JSONCouple, JSONExpr, ParseExpectation, ParseResult,
};

fn num(n: u32) -> Box<JSONExpr> {
    Box::new(JSONExpr::Number(n))
}

fn string(s: &str) -> Box<JSONExpr> {
    Box::new(JSONExpr::Str(s.to_string()))
}

fn couple(name: &str, value: Box<JSONExpr>) -> Box<JSONCouple> {
    Box::new(JSONCouple::Couple(name.to_string(), value))
}

fn object(members: Vec<Box<JSONCouple>>) -> Box<JSONExpr> {
    Box::new(JSONExpr::Object(Some(Box::new(JSONCouple::Inst(members)))))
}

fn array(elems: Vec<Box<JSONExpr>>) -> Box<JSONExpr> {
    Box::new(JSONExpr::Array(elems))
}

fn expectation(farthest_read: usize, expected: Vec<Expected>) -> ParseExpectation {
    ParseExpectation { farthest_read, expected }
}

#[test]
fn object_full_match() {
    let r = parse_program("{\"age\" : 6}".as_bytes());
    assert_eq!(r, ParseResult::Success(object(vec![couple("age", num(6))])));
}

#[test]
fn object_partial_match() {
    let r = parse_program("{\"age\" : 6},".as_bytes());
    assert_eq!(
        r,
        ParseResult::Partial(
            object(vec![couple("age", num(6))]),
            expectation(11, vec![Expected::Spacing, Expected::Spacing])
        )
    );
}

#[test]
fn object_without_name_fails() {
    let r = parse_program("{: 6}".as_bytes());
    assert_eq!(
        r,
        ParseResult::Failure(expectation(
            1,
            vec![Expected::Spacing, Expected::Quote, Expected::Spacing, Expected::CloseBrace]
        ))
    );
}

#[test]
fn empty_object() {
    let r = parse_program("{}".as_bytes());
    assert_eq!(r, ParseResult::Success(Box::new(JSONExpr::Object(None))));
}

#[test]
fn array_of_numbers() {
    let r = parse_program("[1, 2, 3]".as_bytes());
    assert_eq!(r, ParseResult::Success(array(vec![num(1), num(2), num(3)])));
}

#[test]
fn number_with_spaces() {
    let r = parse_program(" \n42\t ".as_bytes());
    assert_eq!(r, ParseResult::Success(num(42)));
}

#[test]
fn empty_array_fails_twice_on_its_element() {
    let r = parse_program("[]".as_bytes());
    let first_try = vec![Expected::Digit, Expected::Quote, Expected::OpenBracket, Expected::OpenBrace];
    let mut expected = vec![Expected::Spacing];
    expected.extend(first_try.clone());
    expected.extend(first_try);
    assert_eq!(r, ParseResult::Failure(expectation(1, expected)));
}

#[test]
fn trailing_comma_in_array_fails() {
    let r = parse_program("[1,]".as_bytes());
    assert!(matches!(r, ParseResult::Failure(_)));
}

#[test]
fn largest_number() {
    let r = parse_program("4294967295".as_bytes());
    assert_eq!(r, ParseResult::Success(num(4294967295)));
}

#[test]
fn leading_zeros() {
    let r = parse_program("007".as_bytes());
    assert_eq!(r, ParseResult::Success(num(7)));
}

#[test]
fn number_too_large_has_no_result() {
    assert_eq!(run_program("4294967296".as_bytes()), None);
    assert_eq!(run_program("[1, 99999999999]".as_bytes()), None);
}

#[test]
fn digits_inside_a_string_are_not_a_number() {
    let r = run_program("\"99999999999\"".as_bytes());
    assert_eq!(r, Some(ParseResult::Success(string("99999999999"))));
}

#[test]
fn string_characters() {
    let r = parse_program("\"a b(c)_9\"".as_bytes());
    assert_eq!(r, ParseResult::Success(string("a b(c)_9")));
}

#[test]
fn empty_string_fails() {
    let r = parse_program("\"\"".as_bytes());
    assert_eq!(
        r,
        ParseResult::Failure(expectation(1, vec![Expected::IdChar]))
    );
}

#[test]
fn text_fails() {
    let r = parse_program("abc".as_bytes());
    assert_eq!(
        r,
        ParseResult::Failure(expectation(
            0,
            vec![
                Expected::Spacing,
                Expected::Digit,
                Expected::Quote,
                Expected::OpenBracket,
                Expected::OpenBrace
            ]
        ))
    );
}

#[test]
fn empty_input_fails_at_its_end() {
    let r = parse_program("".as_bytes());
    assert_eq!(
        r,
        ParseResult::Failure(expectation(
            0,
            vec![
                Expected::Spacing,
                Expected::Digit,
                Expected::Quote,
                Expected::OpenBracket,
                Expected::OpenBrace
            ]
        ))
    );
}

#[test]
fn nested_values() {
    let r = parse_program("[1, [2], {\"k\": \"v\", \"n\" : [3]}]".as_bytes());
    assert_eq!(
        r,
        ParseResult::Success(array(vec![
            num(1),
            array(vec![num(2)]),
            object(vec![couple("k", string("v")), couple("n", array(vec![num(3)]))]),
        ]))
    );
}

#[test]
fn menu_document() {
    let prog = r##"
        {
            "menu": {
                "id" : "file",
                "value" : "File",
                "popup" : {
                    "menuitem" : [
                        { "value" : "New", "onclick" : "CreateNewDoc()" },
                        { "value" : "Open", "onclick" : "OpenDoc()"},
                        { "value" : "Close", "onclick" : "CloseDoc()"}
                    ]
                }
            }
        }
        "##;
    let item = |v: &str, c: &str| {
        object(vec![couple("value", string(v)), couple("onclick", string(c))])
    };
    let expected = object(vec![couple(
        "menu",
        object(vec![
            couple("id", string("file")),
            couple("value", string("File")),
            couple(
                "popup",
                object(vec![couple(
                    "menuitem",
                    array(vec![
                        item("New", "CreateNewDoc()"),
                        item("Open", "OpenDoc()"),
                        item("Close", "CloseDoc()"),
                    ]),
                )]),
            ),
        ]),
    )]);
    assert_eq!(parse_program(prog.as_bytes()), ParseResult::Success(expected));
}

#[test]
fn expected_descriptions() {
    assert_eq!(Expected::Digit.description(), "[\"0-9\"]");
    assert_eq!(Expected::IdChar.description(), "[\"a-zA-Z0-9_() \"]");
    assert_eq!(Expected::Spacing.description(), "[\" \\n\\r\\t\"]");
    assert_eq!(Expected::Colon.description(), ":");
    assert_eq!(Expected::Comma.description(), ",");
    assert_eq!(Expected::OpenBracket.description(), "[");
    assert_eq!(Expected::CloseBracket.description(), "]");
    assert_eq!(Expected::Quote.description(), "\"");
    assert_eq!(Expected::OpenBrace.description(), "{");
    assert_eq!(Expected::CloseBrace.description(), "}");
}

#[test]
fn reports_point_within_input_and_expect_something() {
    let inputs = ["", "{", "[1, 2", "{\"a\": [1, {}]}  x", "  \"s\"  ", "[[[]]]", "{\"a\" 1}", "12 34"];
    for text in inputs.iter() {
        match run_program(text.as_bytes()) {
            Some(ParseResult::Partial(_, e)) | Some(ParseResult::Failure(e)) => {
                assert!(e.farthest_read <= text.len());
                assert!(!e.expected.is_empty());
            }
            Some(ParseResult::Success(_)) => {}
            None => panic!("no number here is too large"),
        }
    }
}

#[test]
fn partial_match_reported_where_input_is_left() {
    // the value `12` and its space end at byte 3, where `34` starts
    let r = parse_program("12 34".as_bytes());
    assert_eq!(
        r,
        ParseResult::Partial(num(12), expectation(3, vec![Expected::Spacing, Expected::Spacing]))
    );
}
