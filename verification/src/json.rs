//! A parser for a small JSON language, written as a parsing expression
//! grammar:
//!
//! ```text
//! program  = spacing json_expr spacing
//! json_expr = number / string / array / object
//! number   = ["0-9"]+ spacing
//! string   = "\"" ["a-zA-Z0-9_() "]+ "\"" spacing
//! array    = "[" spacing (json_expr "," spacing)* json_expr spacing "]" spacing
//! object   = "{" spacing inst? spacing "}" spacing
//! inst     = couple ("," spacing couple)*
//! couple   = string ":" spacing json_expr
//! spacing  = [" \n\r\t"]*
//! ```
//!
//! Choices are ordered and repetitions are greedy. The parser also keeps the
//! farthest position at which a terminal failed, with the terminals that
//! were expected there, to explain a failure or a partial match.
use vstd::prelude::*;

verus! {

/// A terminal of the grammar, as it is named in an error report.
#[derive(Clone, Copy, Debug, PartialEq, Eq, Structural)]
pub enum Expected {
    Digit,
    IdChar,
    Spacing,
    Colon,
    Comma,
    OpenBracket,
    CloseBracket,
    Quote,
    OpenBrace,
    CloseBrace,
}

impl Expected {
    /// How the terminal is written in the grammar.
    pub fn description(&self) -> (d: &'static str)
        ensures
            d@ == (match *self {
                Expected::Digit => "[\"0-9\"]"@,
                Expected::IdChar => "[\"a-zA-Z0-9_() \"]"@,
                Expected::Spacing => "[\" \\n\\r\\t\"]"@,
                Expected::Colon => ":"@,
                Expected::Comma => ","@,
                Expected::OpenBracket => "["@,
                Expected::CloseBracket => "]"@,
                Expected::Quote => "\""@,
                Expected::OpenBrace => "{"@,
                Expected::CloseBrace => "}"@,
            }),
    {
        match self {
            Expected::Digit => "[\"0-9\"]",
            Expected::IdChar => "[\"a-zA-Z0-9_() \"]",
            Expected::Spacing => "[\" \\n\\r\\t\"]",
            Expected::Colon => ":",
            Expected::Comma => ",",
            Expected::OpenBracket => "[",
            Expected::CloseBracket => "]",
            Expected::Quote => "\"",
            Expected::OpenBrace => "{",
            Expected::CloseBrace => "}",
        }
    }
}

/// The byte `b` is matched by the terminal `e`.
pub open spec fn class_matches(e: Expected, b: u8) -> bool {
    match e {
        Expected::Digit => 48 <= b <= 57,
        Expected::IdChar => (97 <= b <= 122) || (65 <= b <= 90) || (48 <= b <= 57) || b == 95
            || b == 40 || b == 41 || b == 32,
        Expected::Spacing => b == 32 || b == 10 || b == 13 || b == 9,
        Expected::Colon => b == 58,
        Expected::Comma => b == 44,
        Expected::OpenBracket => b == 91,
        Expected::CloseBracket => b == 93,
        Expected::Quote => b == 34,
        Expected::OpenBrace => b == 123,
        Expected::CloseBrace => b == 125,
    }
}

/// Whether the byte `b` is matched by the terminal `e`.
pub fn matches_class(e: Expected, b: u8) -> (r: bool)
    ensures
        r == class_matches(e, b),
{
    match e {
        Expected::Digit => 48 <= b && b <= 57,
        Expected::IdChar => (97 <= b && b <= 122) || (65 <= b && b <= 90) || (48 <= b && b <= 57)
            || b == 95 || b == 40 || b == 41 || b == 32,
        Expected::Spacing => b == 32 || b == 10 || b == 13 || b == 9,
        Expected::Colon => b == 58,
        Expected::Comma => b == 44,
        Expected::OpenBracket => b == 91,
        Expected::CloseBracket => b == 93,
        Expected::Quote => b == 34,
        Expected::OpenBrace => b == 123,
        Expected::CloseBrace => b == 125,
    }
}

/// The farthest position at which a terminal failed, and the terminals
/// that failed there, in the order they were tried (with repetitions).
pub struct Expectation {
    pub far: nat,
    pub expected: Seq<Expected>,
}

/// Nothing has failed yet; the farthest position is the start.
pub open spec fn no_expectation() -> Expectation {
    Expectation { far: 0, expected: seq![] }
}

/// Notes that terminal `e` failed at `pos`: a failure beyond the farthest
/// one replaces what was expected, one at the farthest position adds to it,
/// and an earlier one changes nothing.
pub open spec fn record(es: Expectation, pos: nat, e: Expected) -> Expectation {
    if pos > es.far {
        Expectation { far: pos, expected: seq![e] }
    } else if pos == es.far {
        Expectation { far: es.far, expected: es.expected.push(e) }
    } else {
        es
    }
}

/// The error report of a parse: the farthest position at which a terminal
/// failed, and what was expected there.
#[derive(Debug, PartialEq, Eq)]
pub struct ParseExpectation {
    pub farthest_read: usize,
    pub expected: Vec<Expected>,
}

impl ParseExpectation {
    pub open spec fn view(&self) -> Expectation {
        Expectation { far: self.farthest_read as nat, expected: self.expected@ }
    }

    /// The report of a parse that has not failed anywhere yet.
    pub fn new() -> (s: ParseExpectation)
        ensures
            s.view() == no_expectation(),
    {
        ParseExpectation { farthest_read: 0, expected: Vec::new() }
    }

    /// Notes that terminal `expect` failed at `pos`.
    pub fn error(&mut self, pos: usize, expect: Expected)
        ensures
            final(self).view() == record(old(self).view(), pos as nat, expect),
    {
        if pos > self.farthest_read {
            self.farthest_read = pos;
            self.expected = Vec::new();
            self.expected.push(expect);
            assert(self.expected@ =~= seq![expect]);
        } else if pos == self.farthest_read {
            self.expected.push(expect);
        }
    }
}

/// One terminal at `pos`: where it ends when it matches, and the report.
pub open spec fn term(inp: Seq<u8>, pos: nat, es: Expectation, e: Expected) -> (
    Option<nat>,
    Expectation,
) {
    if pos < inp.len() && class_matches(e, inp[pos as int]) {
        (Some(pos + 1), es)
    } else {
        (None, record(es, pos, e))
    }
}

/// A terminal repeated as often as it matches from `pos`: where the
/// repetition ends, and the report with the failure that stopped it.
pub open spec fn star(inp: Seq<u8>, pos: nat, es: Expectation, e: Expected) -> (nat, Expectation)
    decreases inp.len() - pos,
{
    if pos < inp.len() && class_matches(e, inp[pos as int]) {
        star(inp, pos + 1, es, e)
    } else {
        (pos, record(es, pos, e))
    }
}

/// A repetition never ends before it starts, nor after the input.
pub proof fn lemma_star_bounds(inp: Seq<u8>, pos: nat, es: Expectation, e: Expected)
    ensures
        pos <= star(inp, pos, es, e).0,
        pos <= inp.len() ==> star(inp, pos, es, e).0 <= inp.len(),
    decreases inp.len() - pos,
{
    if pos < inp.len() && class_matches(e, inp[pos as int]) {
        lemma_star_bounds(inp, pos + 1, es, e);
    }
}

/// Matches terminal `e` at `pos`.
fn parse_term(inp: &[u8], pos: usize, es: &mut ParseExpectation, e: Expected) -> (r: Option<usize>)
    ensures
        r matches Some(p) ==> term(inp@, pos as nat, old(es).view(), e).0 == Some(p as nat),
        r is None ==> term(inp@, pos as nat, old(es).view(), e).0 is None,
        final(es).view() == term(inp@, pos as nat, old(es).view(), e).1,
{
    if pos < inp.len() && matches_class(e, inp[pos]) {
        Some(pos + 1)
    } else {
        es.error(pos, e);
        None
    }
}

/// Matches terminal `e` as often as it can from `pos`.
fn parse_star(inp: &[u8], pos: usize, es: &mut ParseExpectation, e: Expected) -> (r: usize)
    requires
        pos <= inp@.len(),
    ensures
        r == star(inp@, pos as nat, old(es).view(), e).0,
        final(es).view() == star(inp@, pos as nat, old(es).view(), e).1,
        pos <= r <= inp@.len(),
{
    let mut p = pos;
    proof {
        lemma_star_bounds(inp@, pos as nat, old(es).view(), e);
    }
    while p < inp.len() && matches_class(e, inp[p])
        invariant
            pos <= p <= inp@.len(),
            star(inp@, p as nat, es.view(), e) == star(inp@, pos as nat, old(es).view(), e),
            es.view() == old(es).view(),
        decreases inp@.len() - p,
    {
        p = p + 1;
    }
    es.error(p, e);
    p
}

/// Every byte that a repetition went over is matched by its terminal.
pub proof fn lemma_star_matches(inp: Seq<u8>, pos: nat, es: Expectation, e: Expected)
    ensures
        forall|k: int| pos <= k < star(inp, pos, es, e).0 ==> class_matches(e, #[trigger] inp[k]),
    decreases inp.len() - pos,
{
    if pos < inp.len() && class_matches(e, inp[pos as int]) {
        lemma_star_matches(inp, pos + 1, es, e);
    }
}

/// The result of a rule: it matched and ends at a position with a value,
/// it failed, or it stopped the whole parse.
pub enum Outcome<T> {
    Matched(nat, T),
    Failed,
    Aborted,
}

/// What a rule gives back: where it ends and its value, a failure, or the
/// end of the whole parse.
#[derive(Debug)]
pub enum Parsed<T> {
    Matched(usize, T),
    Failed,
    Aborted,
}

/// The value of the digits `inp[a..b]`, read in base ten.
pub open spec fn digits_value(inp: Seq<u8>, a: int, b: int) -> nat
    decreases b - a,
{
    if b <= a {
        0
    } else {
        digits_value(inp, a, b - 1) * 10 + (inp[b - 1] - 48) as nat
    }
}

/// The characters of the bytes `s`.
pub open spec fn bytes_to_chars(s: Seq<u8>) -> Seq<char> {
    s.map_values(|b: u8| b as char)
}

/// `number = ["0-9"]+ spacing`: the value of the digits; a value beyond
/// `u32::MAX` stops the parse.
pub open spec fn number(inp: Seq<u8>, pos: nat, es: Expectation) -> (Outcome<u32>, Expectation) {
    let (d, e1) = term(inp, pos, es, Expected::Digit);
    match d {
        None => (Outcome::Failed, e1),
        Some(p1) => {
            let (p2, e2) = star(inp, p1, e1, Expected::Digit);
            let (p3, e3) = star(inp, p2, e2, Expected::Spacing);
            let v = digits_value(inp, pos as int, p2 as int);
            if v > u32::MAX {
                (Outcome::Aborted, e3)
            } else {
                (Outcome::Matched(p3, v as u32), e3)
            }
        },
    }
}

/// `string = "\"" ["a-zA-Z0-9_() "]+ "\"" spacing`: the characters between
/// the quotes.
pub open spec fn string_lit(inp: Seq<u8>, pos: nat, es: Expectation) -> (
    Outcome<Seq<char>>,
    Expectation,
) {
    let (q, e1) = term(inp, pos, es, Expected::Quote);
    match q {
        None => (Outcome::Failed, e1),
        Some(p1) => {
            let (i, e2) = term(inp, p1, e1, Expected::IdChar);
            match i {
                None => (Outcome::Failed, e2),
                Some(p2) => {
                    let (p3, e3) = star(inp, p2, e2, Expected::IdChar);
                    let (q2, e4) = term(inp, p3, e3, Expected::Quote);
                    match q2 {
                        None => (Outcome::Failed, e4),
                        Some(p4) => {
                            let (p5, e5) = star(inp, p4, e4, Expected::Spacing);
                            (
                                Outcome::Matched(p5, bytes_to_chars(inp.subrange(p1 as int, p3 as int))),
                                e5,
                            )
                        },
                    }
                },
            }
        },
    }
}

/// A string, when it matches, takes at least three bytes and ends within
/// the input.
pub proof fn lemma_string_bounds(inp: Seq<u8>, pos: nat, es: Expectation)
    ensures
        string_lit(inp, pos, es).0 matches Outcome::Matched(p, _) ==> pos + 3 <= p <= inp.len(),
{
    let (q, e1) = term(inp, pos, es, Expected::Quote);
    if let Some(p1) = q {
        let (i, e2) = term(inp, p1, e1, Expected::IdChar);
        if let Some(p2) = i {
            lemma_star_bounds(inp, p2, e2, Expected::IdChar);
            let (p3, e3) = star(inp, p2, e2, Expected::IdChar);
            let (q2, e4) = term(inp, p3, e3, Expected::Quote);
            if let Some(p4) = q2 {
                lemma_star_bounds(inp, p4, e4, Expected::Spacing);
            }
        }
    }
}

/// The value of the digits `inp[a..b]`, or nothing when it is beyond
/// `u32::MAX`.
fn to_number(inp: &[u8], a: usize, b: usize) -> (r: Option<u32>)
    requires
        a <= b <= inp@.len(),
        forall|k: int| a <= k < b ==> 48 <= #[trigger] inp@[k] <= 57,
    ensures
        r matches Some(v) ==> v == digits_value(inp@, a as int, b as int),
        r is None ==> digits_value(inp@, a as int, b as int) > u32::MAX,
{
    let mut acc: u32 = 0;
    let mut over = false;
    let mut i = a;
    while i < b
        invariant
            a <= i <= b <= inp@.len(),
            forall|k: int| a <= k < b ==> 48 <= #[trigger] inp@[k] <= 57,
            over ==> digits_value(inp@, a as int, i as int) > u32::MAX,
            !over ==> acc == digits_value(inp@, a as int, i as int),
        decreases b - i,
    {
        let d = (inp[i] - 48) as u32;
        assert(digits_value(inp@, a as int, i + 1) == digits_value(inp@, a as int, i as int) * 10
            + d);
        if !over {
            if acc > 429496729 || (acc == 429496729 && d > 5) {
                over = true;
            } else {
                acc = acc * 10 + d;
            }
        }
        i = i + 1;
    }
    if over {
        None
    } else {
        Some(acc)
    }
}

/// Gathers characters into a string, with `String::from_iter`; the string
/// holds the characters in their order.
#[verifier::external_body]
fn to_string(raw_text: Vec<char>) -> (s: String)
    ensures
        s@ == raw_text@,
{
    String::from_iter(raw_text)
}

/// Parses `number` at `pos`.
fn parse_number(inp: &[u8], pos: usize, es: &mut ParseExpectation) -> (r: Parsed<u32>)
    requires
        pos <= inp@.len(),
    ensures
        final(es).view() == number(inp@, pos as nat, old(es).view()).1,
        match (number(inp@, pos as nat, old(es).view()).0, r) {
            (Outcome::Matched(p, v), Parsed::Matched(q, x)) => p == q && v == x && pos < q
                <= inp@.len(),
            (Outcome::Failed, Parsed::Failed) => true,
            (Outcome::Aborted, Parsed::Aborted) => true,
            _ => false,
        },
{
    match parse_term(inp, pos, es, Expected::Digit) {
        None => Parsed::Failed,
        Some(p1) => {
            let ghost e1 = es.view();
            let p2 = parse_star(inp, p1, es, Expected::Digit);
            proof {
                lemma_star_matches(inp@, p1 as nat, e1, Expected::Digit);
            }
            let p3 = parse_star(inp, p2, es, Expected::Spacing);
            match to_number(inp, pos, p2) {
                Some(v) => Parsed::Matched(p3, v),
                None => Parsed::Aborted,
            }
        },
    }
}

/// Parses `string` at `pos`.
fn parse_string(inp: &[u8], pos: usize, es: &mut ParseExpectation) -> (r: Option<(usize, String)>)
    requires
        pos <= inp@.len(),
    ensures
        final(es).view() == string_lit(inp@, pos as nat, old(es).view()).1,
        match (string_lit(inp@, pos as nat, old(es).view()).0, r) {
            (Outcome::Matched(p, v), Some((q, x))) => p == q && v == x@ && pos < q <= inp@.len(),
            (Outcome::Failed, None) => true,
            _ => false,
        },
{
    let p1 = match parse_term(inp, pos, es, Expected::Quote) {
        None => return None,
        Some(p) => p,
    };
    let p2 = match parse_term(inp, p1, es, Expected::IdChar) {
        None => return None,
        Some(p) => p,
    };
    let p3 = parse_star(inp, p2, es, Expected::IdChar);
    let p4 = match parse_term(inp, p3, es, Expected::Quote) {
        None => return None,
        Some(p) => p,
    };
    let p5 = parse_star(inp, p4, es, Expected::Spacing);
    let mut raw_text: Vec<char> = Vec::new();
    let mut k = p1;
    while k < p3
        invariant
            p1 <= k <= p3 <= inp@.len(),
            raw_text@ =~= bytes_to_chars(inp@.subrange(p1 as int, k as int)),
        decreases p3 - k,
    {
        raw_text.push(inp[k] as char);
        k = k + 1;
    }
    Some((p5, to_string(raw_text)))
}

/// A JSON value, as the parser builds it.
#[derive(Debug, PartialEq, Eq)]
pub enum JSONExpr {
    Str(String),
    Number(u32),
    Array(Vec<Box<JSONExpr>>),
    Object(Option<Box<JSONCouple>>),
}

/// The members of an object: one name and its value, or several members.
#[derive(Debug, PartialEq, Eq)]
pub enum JSONCouple {
    Couple(String, Box<JSONExpr>),
    Inst(Vec<Box<JSONCouple>>),
}

/// The value of a whole document.
pub type PExpr = Box<JSONExpr>;

/// What a JSON value stands for.
pub enum JsonValue {
    Str(Seq<char>),
    Number(u32),
    Array(Seq<JsonValue>),
    Object(Option<Box<JsonMembers>>),
}

/// What the members of an object stand for.
pub enum JsonMembers {
    Couple(Seq<char>, Box<JsonValue>),
    Inst(Seq<JsonMembers>),
}

/// What `e` stands for.
pub open spec fn expr_view(e: JSONExpr) -> JsonValue
    decreases e,
{
    match e {
        JSONExpr::Str(s) => JsonValue::Str(s@),
        JSONExpr::Number(n) => JsonValue::Number(n),
        JSONExpr::Array(v) => JsonValue::Array(exprs_view(v@)),
        JSONExpr::Object(o) => JsonValue::Object(
            match o {
                Some(c) => Some(Box::new(couple_view(*c))),
                None => None,
            },
        ),
    }
}

/// What each of the values `s` stands for.
pub open spec fn exprs_view(s: Seq<Box<JSONExpr>>) -> Seq<JsonValue>
    decreases s,
{
    if s.len() == 0 {
        seq![]
    } else {
        exprs_view(s.drop_last()).push(expr_view(*s.last()))
    }
}

/// What the members `c` stand for.
pub open spec fn couple_view(c: JSONCouple) -> JsonMembers
    decreases c,
{
    match c {
        JSONCouple::Couple(s, e) => JsonMembers::Couple(s@, Box::new(expr_view(*e))),
        JSONCouple::Inst(v) => JsonMembers::Inst(couples_view(v@)),
    }
}

/// What each of the members `s` stands for.
pub open spec fn couples_view(s: Seq<Box<JSONCouple>>) -> Seq<JsonMembers>
    decreases s,
{
    if s.len() == 0 {
        seq![]
    } else {
        couples_view(s.drop_last()).push(couple_view(*s.last()))
    }
}

/// `json_expr = number / string / array / object`.
pub open spec fn json_expr(inp: Seq<u8>, pos: nat, es: Expectation) -> (
    Outcome<JsonValue>,
    Expectation,
)
    decreases inp.len() - pos, 2nat,
{
    let (r1, e1) = number(inp, pos, es);
    match r1 {
        Outcome::Matched(p, n) => (Outcome::Matched(p, JsonValue::Number(n)), e1),
        Outcome::Aborted => (Outcome::Aborted, e1),
        Outcome::Failed => {
            let (r2, e2) = string_lit(inp, pos, e1);
            match r2 {
                Outcome::Matched(p, s) => (Outcome::Matched(p, JsonValue::Str(s)), e2),
                _ => {
                    let (r3, e3) = array(inp, pos, e2);
                    match r3 {
                        Outcome::Failed => object(inp, pos, e3),
                        _ => (r3, e3),
                    }
                },
            }
        },
    }
}

/// `array = "[" spacing (json_expr "," spacing)* json_expr spacing "]"
/// spacing`: the elements in their order.
pub open spec fn array(inp: Seq<u8>, pos: nat, es: Expectation) -> (Outcome<JsonValue>, Expectation)
    decreases inp.len() - pos, 1nat,
{
    let (o, e1) = term(inp, pos, es, Expected::OpenBracket);
    match o {
        None => (Outcome::Failed, e1),
        Some(p1) => {
            let (q, e2) = star(inp, p1, e1, Expected::Spacing);
            proof {
                lemma_star_bounds(inp, p1, e1, Expected::Spacing);
            }
            let (r, e3) = items(inp, q, e2, seq![]);
            match r {
                Outcome::Matched(p, (vs, last)) => {
                    let (p2, e4) = star(inp, p, e3, Expected::Spacing);
                    let (c, e5) = term(inp, p2, e4, Expected::CloseBracket);
                    match c {
                        None => (Outcome::Failed, e5),
                        Some(p3) => {
                            let (p4, e6) = star(inp, p3, e5, Expected::Spacing);
                            (Outcome::Matched(p4, JsonValue::Array(vs.push(last))), e6)
                        },
                    }
                },
                Outcome::Failed => (Outcome::Failed, e3),
                Outcome::Aborted => (Outcome::Aborted, e3),
            }
        },
    }
}

/// `(json_expr "," spacing)* json_expr` from `q`, after the elements `acc`:
/// the elements followed by a comma, and the last one. A repetition whose
/// round does not move forward stops.
pub open spec fn items(inp: Seq<u8>, q: nat, es: Expectation, acc: Seq<JsonValue>) -> (
    Outcome<(Seq<JsonValue>, JsonValue)>,
    Expectation,
)
    decreases inp.len() - q, 4nat,
{
    let (r1, e1) = json_expr(inp, q, es);
    match r1 {
        Outcome::Aborted => (Outcome::Aborted, e1),
        Outcome::Matched(p1, v) => {
            let (c, e2) = term(inp, p1, e1, Expected::Comma);
            match c {
                Some(p2) => {
                    let (p3, e3) = star(inp, p2, e2, Expected::Spacing);
                    if q < p3 <= inp.len() {
                        items(inp, p3, e3, acc.push(v))
                    } else {
                        last_item(inp, q, e3, acc)
                    }
                },
                None => last_item(inp, q, e2, acc),
            }
        },
        Outcome::Failed => last_item(inp, q, e1, acc),
    }
}

/// The last element of an array, at `q`, after the elements `acc`.
pub open spec fn last_item(inp: Seq<u8>, q: nat, es: Expectation, acc: Seq<JsonValue>) -> (
    Outcome<(Seq<JsonValue>, JsonValue)>,
    Expectation,
)
    decreases inp.len() - q, 3nat,
{
    let (r, e1) = json_expr(inp, q, es);
    match r {
        Outcome::Matched(p, v) => (Outcome::Matched(p, (acc, v)), e1),
        Outcome::Failed => (Outcome::Failed, e1),
        Outcome::Aborted => (Outcome::Aborted, e1),
    }
}

/// `object = "{" spacing inst? spacing "}" spacing`.
pub open spec fn object(inp: Seq<u8>, pos: nat, es: Expectation) -> (Outcome<JsonValue>, Expectation)
    decreases inp.len() - pos, 1nat,
{
    let (o, e1) = term(inp, pos, es, Expected::OpenBrace);
    match o {
        None => (Outcome::Failed, e1),
        Some(p1) => {
            let (q, e2) = star(inp, p1, e1, Expected::Spacing);
            proof {
                lemma_star_bounds(inp, p1, e1, Expected::Spacing);
            }
            let (r, e3) = inst(inp, q, e2);
            if r is Aborted {
                (Outcome::Aborted, e3)
            } else {
                let (p, m) = match r {
                    Outcome::Matched(p, c) => (p, Some(Box::new(c))),
                    _ => (q, None),
                };
                let (p2, e4) = star(inp, p, e3, Expected::Spacing);
                let (c, e5) = term(inp, p2, e4, Expected::CloseBrace);
                match c {
                    None => (Outcome::Failed, e5),
                    Some(p3) => {
                        let (p4, e6) = star(inp, p3, e5, Expected::Spacing);
                        (Outcome::Matched(p4, JsonValue::Object(m)), e6)
                    },
                }
            }
        },
    }
}

/// `inst = couple ("," spacing couple)*`: all the members.
pub open spec fn inst(inp: Seq<u8>, q: nat, es: Expectation) -> (Outcome<JsonMembers>, Expectation)
    decreases inp.len() - q, 6nat,
{
    let (r, e1) = couple(inp, q, es);
    match r {
        Outcome::Matched(p, c) => {
            if q < p <= inp.len() {
                let (r2, e2) = inst_rest(inp, p, e1, seq![]);
                match r2 {
                    Outcome::Matched(p2, rest) => (
                        Outcome::Matched(p2, JsonMembers::Inst(seq![c] + rest)),
                        e2,
                    ),
                    Outcome::Failed => (Outcome::Failed, e2),
                    Outcome::Aborted => (Outcome::Aborted, e2),
                }
            } else {
                (Outcome::Matched(p, JsonMembers::Inst(seq![c])), e1)
            }
        },
        Outcome::Failed => (Outcome::Failed, e1),
        Outcome::Aborted => (Outcome::Aborted, e1),
    }
}

/// `("," spacing couple)*` from `p`, after the members `acc`. A repetition
/// whose round does not move forward stops.
pub open spec fn inst_rest(inp: Seq<u8>, p: nat, es: Expectation, acc: Seq<JsonMembers>) -> (
    Outcome<Seq<JsonMembers>>,
    Expectation,
)
    decreases inp.len() - p, 7nat,
{
    let (c, e1) = term(inp, p, es, Expected::Comma);
    match c {
        None => (Outcome::Matched(p, acc), e1),
        Some(p1) => {
            let (p2, e2) = star(inp, p1, e1, Expected::Spacing);
            proof {
                lemma_star_bounds(inp, p1, e1, Expected::Spacing);
            }
            let (r, e3) = couple(inp, p2, e2);
            match r {
                Outcome::Matched(p3, m) => {
                    if p < p3 <= inp.len() {
                        inst_rest(inp, p3, e3, acc.push(m))
                    } else {
                        (Outcome::Matched(p, acc), e3)
                    }
                },
                Outcome::Failed => (Outcome::Matched(p, acc), e3),
                Outcome::Aborted => (Outcome::Aborted, e3),
            }
        },
    }
}

/// `couple = string ":" spacing json_expr`: a name and its value.
pub open spec fn couple(inp: Seq<u8>, q: nat, es: Expectation) -> (Outcome<JsonMembers>, Expectation)
    decreases inp.len() - q, 5nat,
{
    let (r, e1) = string_lit(inp, q, es);
    proof {
        lemma_string_bounds(inp, q, es);
    }
    match r {
        Outcome::Matched(p1, s) => {
            let (c, e2) = term(inp, p1, e1, Expected::Colon);
            match c {
                None => (Outcome::Failed, e2),
                Some(p2) => {
                    let (p3, e3) = star(inp, p2, e2, Expected::Spacing);
                    proof {
                        lemma_star_bounds(inp, p2, e2, Expected::Spacing);
                    }
                    let (r2, e4) = json_expr(inp, p3, e3);
                    match r2 {
                        Outcome::Matched(p4, v) => (
                            Outcome::Matched(p4, JsonMembers::Couple(s, Box::new(v))),
                            e4,
                        ),
                        Outcome::Failed => (Outcome::Failed, e4),
                        Outcome::Aborted => (Outcome::Aborted, e4),
                    }
                },
            }
        },
        _ => (Outcome::Failed, e1),
    }
}

/// `program = spacing json_expr spacing`, from the start of the input.
pub open spec fn program(inp: Seq<u8>) -> (Outcome<JsonValue>, Expectation) {
    let (p0, e0) = star(inp, 0, no_expectation(), Expected::Spacing);
    let (r, e1) = json_expr(inp, p0, e0);
    match r {
        Outcome::Matched(p, v) => {
            let (p2, e2) = star(inp, p, e1, Expected::Spacing);
            (Outcome::Matched(p2, v), e2)
        },
        Outcome::Failed => (Outcome::Failed, e1),
        Outcome::Aborted => (Outcome::Aborted, e1),
    }
}

/// What the result of parsing a document stands for.
pub enum ResultView {
    Success(JsonValue),
    Partial(JsonValue, Expectation),
    Failure(Expectation),
}

/// The result of parsing the document `inp`: a value that covers the whole
/// input, a value that covers a part of it with the report of where it
/// stopped, or the report of the failure; nothing when a number of the
/// input is too large to be read.
pub open spec fn program_result(inp: Seq<u8>) -> Option<ResultView> {
    let (r, es) = program(inp);
    match r {
        Outcome::Matched(p, v) => if p < inp.len() {
            Some(ResultView::Partial(v, es))
        } else {
            Some(ResultView::Success(v))
        },
        Outcome::Failed => Some(ResultView::Failure(es)),
        Outcome::Aborted => None,
    }
}

/// The result of parsing a document.
#[derive(Debug, PartialEq, Eq)]
pub enum ParseResult {
    Success(PExpr),
    Partial(PExpr, ParseExpectation),
    Failure(ParseExpectation),
}

/// What `r` stands for.
pub open spec fn result_view(r: ParseResult) -> ResultView {
    match r {
        ParseResult::Success(v) => ResultView::Success(expr_view(*v)),
        ParseResult::Partial(v, e) => ResultView::Partial(expr_view(*v), e.view()),
        ParseResult::Failure(e) => ResultView::Failure(e.view()),
    }
}

/// The outcome `o` and the result `r` agree: same end, between `pos` and
/// `len`, and the value of `r` stands for that of `o`; or both failed; or
/// both stopped the parse.
pub open spec fn agrees<T, U>(o: Outcome<T>, r: Parsed<U>, f: spec_fn(U) -> T, pos: nat, len: nat) -> bool {
    match (o, r) {
        (Outcome::Matched(p, v), Parsed::Matched(q, x)) => p == q && v == f(x) && pos <= q <= len,
        (Outcome::Failed, Parsed::Failed) => true,
        (Outcome::Aborted, Parsed::Aborted) => true,
        _ => false,
    }
}

/// A value that stands for a number.
pub fn make_json_number(number: u32) -> (e: Box<JSONExpr>)
    ensures
        expr_view(*e) == JsonValue::Number(number),
{
    Box::new(JSONExpr::Number(number))
}

/// A value that stands for a string.
pub fn make_json_string(string: String) -> (e: Box<JSONExpr>)
    ensures
        expr_view(*e) == JsonValue::Str(string@),
{
    Box::new(JSONExpr::Str(string))
}

/// A member: a name and its value.
pub fn make_json_couple(string: String, expr: Box<JSONExpr>) -> (c: Box<JSONCouple>)
    ensures
        couple_view(*c) == JsonMembers::Couple(string@, Box::new(expr_view(*expr))),
{
    Box::new(JSONCouple::Couple(string, expr))
}

/// An array: the elements `array` followed by `front`.
pub fn make_json_array(array: Vec<Box<JSONExpr>>, front: Box<JSONExpr>) -> (e: Box<JSONExpr>)
    ensures
        expr_view(*e) == JsonValue::Array(exprs_view(array@).push(expr_view(*front))),
{
    let ghost before = array@;
    let mut v = array;
    v.push(front);
    assert(v@.drop_last() =~= before);
    Box::new(JSONExpr::Array(v))
}

/// Members: `cp` followed by `rest`.
pub fn make_json_inst(cp: Box<JSONCouple>, rest: Vec<Box<JSONCouple>>) -> (c: Box<JSONCouple>)
    ensures
        couple_view(*c) == JsonMembers::Inst(seq![couple_view(*cp)] + couples_view(rest@)),
{
    let ghost first = seq![cp];
    let ghost rest_seq = rest@;
    let mut v: Vec<Box<JSONCouple>> = Vec::new();
    v.push(cp);
    assert(v@ =~= first);
    let mut rest = rest;
    v.append(&mut rest);
    proof {
        lemma_couples_view_concat(first, rest_seq);
        assert(first.drop_last() =~= Seq::<Box<JSONCouple>>::empty());
        assert(couples_view(Seq::<Box<JSONCouple>>::empty()) =~= Seq::<JsonMembers>::empty());
        assert(couples_view(first) =~= seq![couple_view(*first[0])]);
    }
    Box::new(JSONCouple::Inst(v))
}

/// The members of two sequences put end to end stand for the members of
/// the first followed by those of the second.
pub proof fn lemma_couples_view_concat(a: Seq<Box<JSONCouple>>, b: Seq<Box<JSONCouple>>)
    ensures
        couples_view(a + b) == couples_view(a) + couples_view(b),
    decreases b.len(),
{
    if b.len() == 0 {
        assert(a + b =~= a);
        assert(couples_view(a) + couples_view(b) =~= couples_view(a));
    } else {
        lemma_couples_view_concat(a, b.drop_last());
        assert((a + b).drop_last() =~= a + b.drop_last());
        assert((a + b).last() == b.last());
        assert(couples_view(a + b) =~= couples_view(a) + couples_view(b));
    }
}

/// An object with the members `inst`, if any.
pub fn make_json_object(inst: Option<Box<JSONCouple>>) -> (e: Box<JSONExpr>)
    ensures
        expr_view(*e) == JsonValue::Object(
            match inst {
                Some(c) => Some(Box::new(couple_view(*c))),
                None => None,
            },
        ),
{
    Box::new(JSONExpr::Object(inst))
}

/// What a list of elements and a last element stand for.
pub open spec fn items_view(x: (Vec<Box<JSONExpr>>, Box<JSONExpr>)) -> (Seq<JsonValue>, JsonValue) {
    (exprs_view(x.0@), expr_view(*x.1))
}

/// Parses `json_expr` at `pos`.
fn parse_json_expr(inp: &[u8], pos: usize, es: &mut ParseExpectation) -> (r: Parsed<Box<JSONExpr>>)
    requires
        pos <= inp@.len(),
    ensures
        final(es).view() == json_expr(inp@, pos as nat, old(es).view()).1,
        agrees(
            json_expr(inp@, pos as nat, old(es).view()).0,
            r,
            |x: Box<JSONExpr>| expr_view(*x),
            pos as nat,
            inp@.len(),
        ),
        r matches Parsed::Matched(q, _) ==> pos < q,
    decreases inp@.len() - pos, 2nat,
{
    match parse_number(inp, pos, es) {
        Parsed::Matched(p, n) => return Parsed::Matched(p, make_json_number(n)),
        Parsed::Aborted => return Parsed::Aborted,
        Parsed::Failed => {},
    }
    match parse_string(inp, pos, es) {
        Some((p, s)) => return Parsed::Matched(p, make_json_string(s)),
        None => {},
    }
    match parse_array(inp, pos, es) {
        Parsed::Failed => {},
        r => return r,
    }
    parse_object(inp, pos, es)
}

/// Parses `array` at `pos`.
fn parse_array(inp: &[u8], pos: usize, es: &mut ParseExpectation) -> (r: Parsed<Box<JSONExpr>>)
    requires
        pos <= inp@.len(),
    ensures
        final(es).view() == array(inp@, pos as nat, old(es).view()).1,
        agrees(
            array(inp@, pos as nat, old(es).view()).0,
            r,
            |x: Box<JSONExpr>| expr_view(*x),
            pos as nat,
            inp@.len(),
        ),
        r matches Parsed::Matched(q, _) ==> pos < q,
    decreases inp@.len() - pos, 1nat,
{
    let p1 = match parse_term(inp, pos, es, Expected::OpenBracket) {
        None => return Parsed::Failed,
        Some(p) => p,
    };
    let q = parse_star(inp, p1, es, Expected::Spacing);
    match parse_items(inp, q, es) {
        Parsed::Matched(p, (vs, last)) => {
            let p2 = parse_star(inp, p, es, Expected::Spacing);
            let p3 = match parse_term(inp, p2, es, Expected::CloseBracket) {
                None => return Parsed::Failed,
                Some(p) => p,
            };
            let p4 = parse_star(inp, p3, es, Expected::Spacing);
            Parsed::Matched(p4, make_json_array(vs, last))
        },
        Parsed::Failed => Parsed::Failed,
        Parsed::Aborted => Parsed::Aborted,
    }
}

/// Parses the elements of an array from `q0`.
fn parse_items(inp: &[u8], q0: usize, es: &mut ParseExpectation) -> (r: Parsed<
    (Vec<Box<JSONExpr>>, Box<JSONExpr>),
>)
    requires
        q0 <= inp@.len(),
    ensures
        final(es).view() == items(inp@, q0 as nat, old(es).view(), seq![]).1,
        agrees(
            items(inp@, q0 as nat, old(es).view(), seq![]).0,
            r,
            |x: (Vec<Box<JSONExpr>>, Box<JSONExpr>)| items_view(x),
            q0 as nat,
            inp@.len(),
        ),
    decreases inp@.len() - q0, 4nat,
{
    let mut acc: Vec<Box<JSONExpr>> = Vec::new();
    let mut q = q0;
    assert(exprs_view(acc@) =~= Seq::<JsonValue>::empty());
    loop
        invariant
            q0 <= q <= inp@.len(),
            items(inp@, q as nat, es.view(), exprs_view(acc@)) == items(
                inp@,
                q0 as nat,
                old(es).view(),
                seq![],
            ),
        decreases inp@.len() - q,
    {
        match parse_json_expr(inp, q, es) {
            Parsed::Aborted => return Parsed::Aborted,
            Parsed::Matched(p1, v) => {
                match parse_term(inp, p1, es, Expected::Comma) {
                    Some(p2) => {
                        let p3 = parse_star(inp, p2, es, Expected::Spacing);
                        let ghost old_acc = acc@;
                        acc.push(v);
                        assert(acc@.drop_last() =~= old_acc);
                        q = p3;
                    },
                    None => return parse_last_item(inp, q, es, acc),
                }
            },
            Parsed::Failed => return parse_last_item(inp, q, es, acc),
        }
    }
}

/// Parses the last element of an array at `q`, after the elements `acc`.
fn parse_last_item(inp: &[u8], q: usize, es: &mut ParseExpectation, acc: Vec<Box<JSONExpr>>) -> (r:
    Parsed<(Vec<Box<JSONExpr>>, Box<JSONExpr>)>)
    requires
        q <= inp@.len(),
    ensures
        final(es).view() == last_item(inp@, q as nat, old(es).view(), exprs_view(acc@)).1,
        agrees(
            last_item(inp@, q as nat, old(es).view(), exprs_view(acc@)).0,
            r,
            |x: (Vec<Box<JSONExpr>>, Box<JSONExpr>)| items_view(x),
            q as nat,
            inp@.len(),
        ),
    decreases inp@.len() - q, 3nat,
{
    match parse_json_expr(inp, q, es) {
        Parsed::Matched(p, v) => Parsed::Matched(p, (acc, v)),
        Parsed::Failed => Parsed::Failed,
        Parsed::Aborted => Parsed::Aborted,
    }
}

/// Parses `object` at `pos`.
fn parse_object(inp: &[u8], pos: usize, es: &mut ParseExpectation) -> (r: Parsed<Box<JSONExpr>>)
    requires
        pos <= inp@.len(),
    ensures
        final(es).view() == object(inp@, pos as nat, old(es).view()).1,
        agrees(
            object(inp@, pos as nat, old(es).view()).0,
            r,
            |x: Box<JSONExpr>| expr_view(*x),
            pos as nat,
            inp@.len(),
        ),
        r matches Parsed::Matched(q, _) ==> pos < q,
    decreases inp@.len() - pos, 1nat,
{
    let p1 = match parse_term(inp, pos, es, Expected::OpenBrace) {
        None => return Parsed::Failed,
        Some(p) => p,
    };
    let q = parse_star(inp, p1, es, Expected::Spacing);
    let (p, members) = match parse_inst(inp, q, es) {
        Parsed::Matched(p, c) => (p, Some(c)),
        Parsed::Failed => (q, None),
        Parsed::Aborted => return Parsed::Aborted,
    };
    let p2 = parse_star(inp, p, es, Expected::Spacing);
    let p3 = match parse_term(inp, p2, es, Expected::CloseBrace) {
        None => return Parsed::Failed,
        Some(p) => p,
    };
    let p4 = parse_star(inp, p3, es, Expected::Spacing);
    Parsed::Matched(p4, make_json_object(members))
}

/// Parses `inst` at `q`.
fn parse_inst(inp: &[u8], q: usize, es: &mut ParseExpectation) -> (r: Parsed<Box<JSONCouple>>)
    requires
        q <= inp@.len(),
    ensures
        final(es).view() == inst(inp@, q as nat, old(es).view()).1,
        agrees(
            inst(inp@, q as nat, old(es).view()).0,
            r,
            |x: Box<JSONCouple>| couple_view(*x),
            q as nat,
            inp@.len(),
        ),
        r matches Parsed::Matched(p, _) ==> q < p,
    decreases inp@.len() - q, 6nat,
{
    match parse_couple(inp, q, es) {
        Parsed::Matched(p, c) => match parse_inst_rest(inp, p, es) {
            Parsed::Matched(p2, rest) => Parsed::Matched(p2, make_json_inst(c, rest)),
            Parsed::Failed => Parsed::Failed,
            Parsed::Aborted => Parsed::Aborted,
        },
        Parsed::Failed => Parsed::Failed,
        Parsed::Aborted => Parsed::Aborted,
    }
}

/// Parses the members after the first one of an object, from `p0`.
fn parse_inst_rest(inp: &[u8], p0: usize, es: &mut ParseExpectation) -> (r: Parsed<
    Vec<Box<JSONCouple>>,
>)
    requires
        p0 <= inp@.len(),
    ensures
        final(es).view() == inst_rest(inp@, p0 as nat, old(es).view(), seq![]).1,
        agrees(
            inst_rest(inp@, p0 as nat, old(es).view(), seq![]).0,
            r,
            |x: Vec<Box<JSONCouple>>| couples_view(x@),
            p0 as nat,
            inp@.len(),
        ),
    decreases inp@.len() - p0, 7nat,
{
    let mut acc: Vec<Box<JSONCouple>> = Vec::new();
    let mut p = p0;
    assert(couples_view(acc@) =~= Seq::<JsonMembers>::empty());
    loop
        invariant
            p0 <= p <= inp@.len(),
            inst_rest(inp@, p as nat, es.view(), couples_view(acc@)) == inst_rest(
                inp@,
                p0 as nat,
                old(es).view(),
                seq![],
            ),
        decreases inp@.len() - p,
    {
        match parse_term(inp, p, es, Expected::Comma) {
            None => return Parsed::Matched(p, acc),
            Some(p1) => {
                let p2 = parse_star(inp, p1, es, Expected::Spacing);
                match parse_couple(inp, p2, es) {
                    Parsed::Matched(p3, c) => {
                        let ghost old_acc = acc@;
                        acc.push(c);
                        assert(acc@.drop_last() =~= old_acc);
                        p = p3;
                    },
                    Parsed::Failed => return Parsed::Matched(p, acc),
                    Parsed::Aborted => return Parsed::Aborted,
                }
            },
        }
    }
}

/// Parses `couple` at `q`.
fn parse_couple(inp: &[u8], q: usize, es: &mut ParseExpectation) -> (r: Parsed<Box<JSONCouple>>)
    requires
        q <= inp@.len(),
    ensures
        final(es).view() == couple(inp@, q as nat, old(es).view()).1,
        agrees(
            couple(inp@, q as nat, old(es).view()).0,
            r,
            |x: Box<JSONCouple>| couple_view(*x),
            q as nat,
            inp@.len(),
        ),
        r matches Parsed::Matched(p, _) ==> q < p,
    decreases inp@.len() - q, 5nat,
{
    let (p1, s) = match parse_string(inp, q, es) {
        Some(x) => x,
        None => return Parsed::Failed,
    };
    let p2 = match parse_term(inp, p1, es, Expected::Colon) {
        None => return Parsed::Failed,
        Some(p) => p,
    };
    let p3 = parse_star(inp, p2, es, Expected::Spacing);
    match parse_json_expr(inp, p3, es) {
        Parsed::Matched(p4, v) => Parsed::Matched(p4, make_json_couple(s, v)),
        Parsed::Failed => Parsed::Failed,
        Parsed::Aborted => Parsed::Aborted,
    }
}

/// Parses a whole document. The result is a full match when the value
/// covers the input, a partial match when input is left after it, and a
/// failure when no value starts the input; there is no result when a
/// number of the input is beyond `u32::MAX`.
pub fn run_program(input: &[u8]) -> (r: Option<ParseResult>)
    ensures
        match program_result(input@) {
            Some(v) => r matches Some(x) && result_view(x) == v,
            None => r is None,
        },
{
    let mut es = ParseExpectation::new();
    let p0 = parse_star(input, 0, &mut es, Expected::Spacing);
    match parse_json_expr(input, p0, &mut es) {
        Parsed::Matched(p, v) => {
            let p2 = parse_star(input, p, &mut es, Expected::Spacing);
            if p2 < input.len() {
                Some(ParseResult::Partial(v, es))
            } else {
                Some(ParseResult::Success(v))
            }
        },
        Parsed::Failed => Some(ParseResult::Failure(es)),
        Parsed::Aborted => None,
    }
}

/// Parses a whole document whose numbers all fit in a `u32`.
pub fn parse_program(input: &[u8]) -> (r: ParseResult)
    requires
        program_result(input@) is Some,
    ensures
        program_result(input@) == Some(result_view(r)),
{
    run_program(input).unwrap()
}

/// A report with nothing expected has not moved from the start.
pub open spec fn report_wf(es: Expectation) -> bool {
    es.expected.len() == 0 ==> es.far == 0
}

/// From `es0` to `es1` the farthest failure does not move back, stays
/// within an input of `len` bytes, and the report stays well formed and,
/// once it expects something, goes on expecting something.
pub open spec fn report_grows(es0: Expectation, es1: Expectation, len: nat) -> bool {
    &&& es0.far <= es1.far
    &&& es0.far <= len ==> es1.far <= len
    &&& report_wf(es0) ==> report_wf(es1)
    &&& es0.expected.len() > 0 ==> es1.expected.len() > 0
}

/// A match of `o` from `pos` ends after `pos` (or at it, when `strict` is
/// off) and within `len` bytes.
pub open spec fn ends_within<T>(o: Outcome<T>, pos: nat, len: nat, strict: bool) -> bool {
    o matches Outcome::Matched(p, _) ==> (if strict {
        pos < p
    } else {
        pos <= p
    }) && p <= len
}

proof fn lemma_record(es: Expectation, pos: nat, e: Expected, len: nat)
    requires
        pos <= len,
    ensures
        report_grows(es, record(es, pos, e), len),
        report_wf(es) ==> record(es, pos, e).expected.len() > 0,
        pos <= record(es, pos, e).far,
{
}

proof fn lemma_term(inp: Seq<u8>, pos: nat, es: Expectation, e: Expected)
    requires
        pos <= inp.len(),
    ensures
        term(inp, pos, es, e).0 matches Some(p) ==> p == pos + 1 && p <= inp.len(),
        report_grows(es, term(inp, pos, es, e).1, inp.len()),
{
    lemma_record(es, pos, e, inp.len());
}

proof fn lemma_star_report(inp: Seq<u8>, pos: nat, es: Expectation, e: Expected)
    requires
        pos <= inp.len(),
    ensures
        pos <= star(inp, pos, es, e).0 <= inp.len(),
        report_grows(es, star(inp, pos, es, e).1, inp.len()),
        star(inp, pos, es, e).0 <= star(inp, pos, es, e).1.far,
        report_wf(es) ==> star(inp, pos, es, e).1.expected.len() > 0,
    decreases inp.len() - pos,
{
    if pos < inp.len() && class_matches(e, inp[pos as int]) {
        lemma_star_report(inp, pos + 1, es, e);
    } else {
        lemma_record(es, pos, e, inp.len());
    }
}

proof fn lemma_number_report(inp: Seq<u8>, pos: nat, es: Expectation)
    requires
        pos <= inp.len(),
    ensures
        ends_within(number(inp, pos, es).0, pos, inp.len(), true),
        report_grows(es, number(inp, pos, es).1, inp.len()),
{
    lemma_term(inp, pos, es, Expected::Digit);
    let (d, e1) = term(inp, pos, es, Expected::Digit);
    if let Some(p1) = d {
        lemma_star_report(inp, p1, e1, Expected::Digit);
        let (p2, e2) = star(inp, p1, e1, Expected::Digit);
        lemma_star_report(inp, p2, e2, Expected::Spacing);
    }
}

proof fn lemma_string_report(inp: Seq<u8>, pos: nat, es: Expectation)
    requires
        pos <= inp.len(),
    ensures
        ends_within(string_lit(inp, pos, es).0, pos, inp.len(), true),
        report_grows(es, string_lit(inp, pos, es).1, inp.len()),
{
    lemma_term(inp, pos, es, Expected::Quote);
    let (q, e1) = term(inp, pos, es, Expected::Quote);
    if let Some(p1) = q {
        lemma_term(inp, p1, e1, Expected::IdChar);
        let (i, e2) = term(inp, p1, e1, Expected::IdChar);
        if let Some(p2) = i {
            lemma_star_report(inp, p2, e2, Expected::IdChar);
            let (p3, e3) = star(inp, p2, e2, Expected::IdChar);
            lemma_term(inp, p3, e3, Expected::Quote);
            let (q2, e4) = term(inp, p3, e3, Expected::Quote);
            if let Some(p4) = q2 {
                lemma_star_report(inp, p4, e4, Expected::Spacing);
            }
        }
    }
}

proof fn lemma_json_expr_report(inp: Seq<u8>, pos: nat, es: Expectation)
    requires
        pos <= inp.len(),
    ensures
        ends_within(json_expr(inp, pos, es).0, pos, inp.len(), true),
        report_grows(es, json_expr(inp, pos, es).1, inp.len()),
    decreases inp.len() - pos, 2nat,
{
    lemma_number_report(inp, pos, es);
    let (r1, e1) = number(inp, pos, es);
    if r1 is Failed {
        lemma_string_report(inp, pos, e1);
        let (r2, e2) = string_lit(inp, pos, e1);
        if !(r2 is Matched) {
            lemma_array_report(inp, pos, e2);
            let (r3, e3) = array(inp, pos, e2);
            if r3 is Failed {
                lemma_object_report(inp, pos, e3);
            }
        }
    }
}

proof fn lemma_array_report(inp: Seq<u8>, pos: nat, es: Expectation)
    requires
        pos <= inp.len(),
    ensures
        ends_within(array(inp, pos, es).0, pos, inp.len(), true),
        report_grows(es, array(inp, pos, es).1, inp.len()),
    decreases inp.len() - pos, 1nat,
{
    lemma_term(inp, pos, es, Expected::OpenBracket);
    let (o, e1) = term(inp, pos, es, Expected::OpenBracket);
    if let Some(p1) = o {
        lemma_star_report(inp, p1, e1, Expected::Spacing);
        let (q, e2) = star(inp, p1, e1, Expected::Spacing);
        lemma_items_report(inp, q, e2, seq![]);
        let (r, e3) = items(inp, q, e2, seq![]);
        if let Outcome::Matched(p, _) = r {
            lemma_star_report(inp, p, e3, Expected::Spacing);
            let (p2, e4) = star(inp, p, e3, Expected::Spacing);
            lemma_term(inp, p2, e4, Expected::CloseBracket);
            let (c, e5) = term(inp, p2, e4, Expected::CloseBracket);
            if let Some(p3) = c {
                lemma_star_report(inp, p3, e5, Expected::Spacing);
            }
        }
    }
}

proof fn lemma_items_report(inp: Seq<u8>, q: nat, es: Expectation, acc: Seq<JsonValue>)
    requires
        q <= inp.len(),
    ensures
        ends_within(items(inp, q, es, acc).0, q, inp.len(), true),
        report_grows(es, items(inp, q, es, acc).1, inp.len()),
    decreases inp.len() - q, 4nat,
{
    lemma_json_expr_report(inp, q, es);
    let (r1, e1) = json_expr(inp, q, es);
    match r1 {
        Outcome::Aborted => {},
        Outcome::Matched(p1, v) => {
            lemma_term(inp, p1, e1, Expected::Comma);
            let (c, e2) = term(inp, p1, e1, Expected::Comma);
            match c {
                Some(p2) => {
                    lemma_star_report(inp, p2, e2, Expected::Spacing);
                    let (p3, e3) = star(inp, p2, e2, Expected::Spacing);
                    lemma_items_report(inp, p3, e3, acc.push(v));
                    lemma_last_item_report(inp, q, e3, acc);
                },
                None => lemma_last_item_report(inp, q, e2, acc),
            }
        },
        Outcome::Failed => lemma_last_item_report(inp, q, e1, acc),
    }
}

proof fn lemma_last_item_report(inp: Seq<u8>, q: nat, es: Expectation, acc: Seq<JsonValue>)
    requires
        q <= inp.len(),
    ensures
        ends_within(last_item(inp, q, es, acc).0, q, inp.len(), true),
        report_grows(es, last_item(inp, q, es, acc).1, inp.len()),
    decreases inp.len() - q, 3nat,
{
    lemma_json_expr_report(inp, q, es);
}

proof fn lemma_object_report(inp: Seq<u8>, pos: nat, es: Expectation)
    requires
        pos <= inp.len(),
    ensures
        ends_within(object(inp, pos, es).0, pos, inp.len(), true),
        report_grows(es, object(inp, pos, es).1, inp.len()),
    decreases inp.len() - pos, 1nat,
{
    lemma_term(inp, pos, es, Expected::OpenBrace);
    let (o, e1) = term(inp, pos, es, Expected::OpenBrace);
    if let Some(p1) = o {
        lemma_star_report(inp, p1, e1, Expected::Spacing);
        let (q, e2) = star(inp, p1, e1, Expected::Spacing);
        lemma_inst_report(inp, q, e2);
        let (r, e3) = inst(inp, q, e2);
        if !(r is Aborted) {
            let (p, m) = match r {
                Outcome::Matched(p, c) => (p, Some(Box::new(c))),
                _ => (q, None),
            };
            lemma_star_report(inp, p, e3, Expected::Spacing);
            let (p2, e4) = star(inp, p, e3, Expected::Spacing);
            lemma_term(inp, p2, e4, Expected::CloseBrace);
            let (c, e5) = term(inp, p2, e4, Expected::CloseBrace);
            if let Some(p3) = c {
                lemma_star_report(inp, p3, e5, Expected::Spacing);
            }
        }
    }
}

proof fn lemma_inst_report(inp: Seq<u8>, q: nat, es: Expectation)
    requires
        q <= inp.len(),
    ensures
        ends_within(inst(inp, q, es).0, q, inp.len(), true),
        report_grows(es, inst(inp, q, es).1, inp.len()),
    decreases inp.len() - q, 6nat,
{
    lemma_couple_report(inp, q, es);
    let (r, e1) = couple(inp, q, es);
    if let Outcome::Matched(p, c) = r {
        lemma_inst_rest_report(inp, p, e1, seq![]);
    }
}

proof fn lemma_inst_rest_report(inp: Seq<u8>, p: nat, es: Expectation, acc: Seq<JsonMembers>)
    requires
        p <= inp.len(),
    ensures
        ends_within(inst_rest(inp, p, es, acc).0, p, inp.len(), false),
        report_grows(es, inst_rest(inp, p, es, acc).1, inp.len()),
    decreases inp.len() - p, 7nat,
{
    lemma_term(inp, p, es, Expected::Comma);
    let (c, e1) = term(inp, p, es, Expected::Comma);
    if let Some(p1) = c {
        lemma_star_report(inp, p1, e1, Expected::Spacing);
        let (p2, e2) = star(inp, p1, e1, Expected::Spacing);
        lemma_couple_report(inp, p2, e2);
        let (r, e3) = couple(inp, p2, e2);
        if let Outcome::Matched(p3, m) = r {
            lemma_inst_rest_report(inp, p3, e3, acc.push(m));
        }
    }
}

proof fn lemma_couple_report(inp: Seq<u8>, q: nat, es: Expectation)
    requires
        q <= inp.len(),
    ensures
        ends_within(couple(inp, q, es).0, q, inp.len(), true),
        report_grows(es, couple(inp, q, es).1, inp.len()),
    decreases inp.len() - q, 5nat,
{
    lemma_string_report(inp, q, es);
    let (r, e1) = string_lit(inp, q, es);
    if let Outcome::Matched(p1, s) = r {
        lemma_term(inp, p1, e1, Expected::Colon);
        let (c, e2) = term(inp, p1, e1, Expected::Colon);
        if let Some(p2) = c {
            lemma_star_report(inp, p2, e2, Expected::Spacing);
            let (p3, e3) = star(inp, p2, e2, Expected::Spacing);
            lemma_json_expr_report(inp, p3, e3);
        }
    }
}

/// Every JSON value takes at least one byte of the input and ends within
/// it: the repetitions of the grammar always move forward.
pub proof fn law_value_moves_forward(inp: Seq<u8>, pos: nat, es: Expectation)
    requires
        pos <= inp.len(),
    ensures
        json_expr(inp, pos, es).0 matches Outcome::Matched(p, _) ==> pos < p <= inp.len(),
{
    lemma_json_expr_report(inp, pos, es);
}

/// The report of a parse points within the input and names at least one
/// expected terminal; after a value, it points at or beyond where the value
/// (and the spaces after it) end, so a partial match is reported where the
/// unread input starts or further on.
pub proof fn law_parse_report(inp: Seq<u8>)
    ensures
        program(inp).1.far <= inp.len(),
        program(inp).1.expected.len() > 0,
        program(inp).0 matches Outcome::Matched(p, _) ==> p <= program(inp).1.far,
{
    lemma_star_report(inp, 0, no_expectation(), Expected::Spacing);
    let (p0, e0) = star(inp, 0, no_expectation(), Expected::Spacing);
    lemma_json_expr_report(inp, p0, e0);
    let (r, e1) = json_expr(inp, p0, e0);
    if let Outcome::Matched(p, v) = r {
        lemma_star_report(inp, p, e1, Expected::Spacing);
    }
}


/// The terminals match the bytes that the grammar names: `spacing` is
/// space, `\n`, `\r` and `\t`; a digit is `0` to `9`; a name character is a
/// letter, a digit, `_`, `(`, `)` or a space; each other terminal is its one
/// character.
pub proof fn law_terminal_bytes(b: u8)
    ensures
        class_matches(Expected::Spacing, b) <==> (b == 32 || b == 10 || b == 13 || b == 9),
        class_matches(Expected::Digit, b) <==> (48 <= b <= 57),
        class_matches(Expected::IdChar, b) <==> ((97 <= b <= 122) || (65 <= b <= 90) || (48 <= b
            <= 57) || b == 95 || b == 40 || b == 41 || b == 32),
        class_matches(Expected::Colon, b) <==> b == 58,
        class_matches(Expected::Comma, b) <==> b == 44,
        class_matches(Expected::OpenBracket, b) <==> b == 91,
        class_matches(Expected::CloseBracket, b) <==> b == 93,
        class_matches(Expected::Quote, b) <==> b == 34,
        class_matches(Expected::OpenBrace, b) <==> b == 123,
        class_matches(Expected::CloseBrace, b) <==> b == 125,
{
}

/// All the bytes of `s` are digits.
pub open spec fn all_digits(s: Seq<u8>) -> bool {
    forall|k: int| 0 <= k < s.len() ==> 48 <= #[trigger] s[k] <= 57
}

/// A repetition goes over the bytes that match and stops at the first one
/// that does not, or at the end of the input.
proof fn lemma_star_until(inp: Seq<u8>, pos: nat, stop: nat, es: Expectation, e: Expected)
    requires
        pos <= stop <= inp.len(),
        forall|k: int| pos <= k < stop ==> class_matches(e, #[trigger] inp[k]),
        stop < inp.len() ==> !class_matches(e, inp[stop as int]),
    ensures
        star(inp, pos, es, e).0 == stop,
    decreases inp.len() - pos,
{
    if pos < stop {
        lemma_star_until(inp, pos + 1, stop, es, e);
    }
}

/// The value of digits does not depend on what follows them.
proof fn lemma_digits_prefix(s: Seq<u8>, t: Seq<u8>, b: int)
    requires
        0 <= b <= s.len(),
        b <= t.len(),
        s.subrange(0, b) == t.subrange(0, b),
    ensures
        digits_value(s, 0, b) == digits_value(t, 0, b),
    decreases b,
{
    if b > 0 {
        assert(s[b - 1] == s.subrange(0, b)[b - 1]);
        assert(t[b - 1] == t.subrange(0, b)[b - 1]);
        assert(s.subrange(0, b - 1) =~= s.subrange(0, b).subrange(0, b - 1));
        assert(t.subrange(0, b - 1) =~= t.subrange(0, b).subrange(0, b - 1));
        lemma_digits_prefix(s, t, b - 1);
    }
}

/// A document of digits, possibly followed by one spacing byte at `n`,
/// parses as the number of its `n` digits, or stops when that number is too
/// large.
proof fn lemma_digits_document(inp: Seq<u8>, n: nat)
    requires
        1 <= n <= inp.len() <= n + 1,
        forall|k: int| 0 <= k < n ==> 48 <= #[trigger] inp[k] <= 57,
        inp.len() == n + 1 ==> class_matches(Expected::Spacing, inp[n as int]),
    ensures
        program_result(inp) == if digits_value(inp, 0, n as int) > u32::MAX {
            None::<ResultView>
        } else {
            Some(ResultView::Success(JsonValue::Number(digits_value(inp, 0, n as int) as u32)))
        },
{
    let (p0, e0) = star(inp, 0, no_expectation(), Expected::Spacing);
    lemma_star_until(inp, 0, 0, no_expectation(), Expected::Spacing);
    let (d, e1) = term(inp, 0, e0, Expected::Digit);
    let (p2, e2) = star(inp, 1, e1, Expected::Digit);
    lemma_star_until(inp, 1, n, e1, Expected::Digit);
    let (p3, e3) = star(inp, n, e2, Expected::Spacing);
    lemma_star_until(inp, n, inp.len(), e2, Expected::Spacing);
    let v = digits_value(inp, 0, n as int);
    if v <= u32::MAX {
        assert(number(inp, 0, e0).0 == Outcome::Matched(inp.len(), v as u32));
        let (r, e4) = json_expr(inp, 0, e0);
        assert(r == Outcome::Matched(inp.len(), JsonValue::Number(v as u32)));
        lemma_star_until(inp, inp.len(), inp.len(), e4, Expected::Spacing);
    } else {
        assert(number(inp, 0, e0).0 is Aborted);
    }
}

/// Numbers are read in base ten: a document made of one digit is that
/// digit's value; writing one more digit after a number document gives ten
/// times its value plus that digit (when it fits in a `u32`, and no result
/// at all when it does not); and a spacing byte after a number document
/// changes nothing.
pub proof fn law_number_documents(ds: Seq<u8>, d: u8, sp: u8)
    requires
        ds.len() >= 1,
        all_digits(ds),
        48 <= d <= 57,
        sp == 32 || sp == 10 || sp == 13 || sp == 9,
    ensures
        program_result(seq![d]) == Some(ResultView::Success(JsonValue::Number((d - 48) as u32))),
        program_result(ds) matches Some(ResultView::Success(JsonValue::Number(v))) ==> (if 10 * v
            + (d - 48) <= u32::MAX {
            program_result(ds.push(d)) == Some(
                ResultView::Success(JsonValue::Number((10 * v + (d - 48)) as u32)),
            )
        } else {
            program_result(ds.push(d)) is None
        }),
        program_result(ds) is None ==> program_result(ds.push(d)) is None,
        program_result(ds.push(sp)) == program_result(ds),
{
    let n = ds.len();
    let one = seq![d];
    lemma_digits_document(one, 1);
    assert(digits_value(one, 0, 0) == 0);
    let more = ds.push(d);
    lemma_digits_document(ds, n);
    lemma_digits_document(more, n + 1);
    assert(ds.subrange(0, n as int) =~= more.subrange(0, n as int));
    lemma_digits_prefix(ds, more, n as int);
    assert(more[n as int] == d);
    let spaced = ds.push(sp);
    assert(ds.subrange(0, n as int) =~= spaced.subrange(0, n as int));
    lemma_digits_prefix(ds, spaced, n as int);
    lemma_digits_document(spaced, n);
}


/// The value of digits does not depend on where they stand.
proof fn lemma_digits_shift(inp: Seq<u8>, a: int, d: Seq<u8>, n: int)
    requires
        0 <= a,
        0 <= n <= d.len(),
        a + n <= inp.len(),
        forall|k: int| 0 <= k < n ==> inp[a + k] == #[trigger] d[k],
    ensures
        digits_value(inp, a, a + n) == digits_value(d, 0, n),
    decreases n,
{
    if n > 0 {
        lemma_digits_shift(inp, a, d, n - 1);
        assert(inp[a + n - 1] == d[n - 1]);
    }
}

/// Digits at `a`, followed by a byte that is neither a digit nor spacing,
/// are read as a number value (or stop the parse when too large).
proof fn lemma_number_at(inp: Seq<u8>, a: nat, n: nat, es: Expectation)
    requires
        n >= 1,
        a + n < inp.len(),
        forall|k: int| a <= k < a + n ==> 48 <= #[trigger] inp[k] <= 57,
        !class_matches(Expected::Digit, inp[(a + n) as int]),
        !class_matches(Expected::Spacing, inp[(a + n) as int]),
    ensures
        digits_value(inp, a as int, (a + n) as int) <= u32::MAX ==> json_expr(inp, a, es).0
            == Outcome::Matched(
            a + n,
            JsonValue::Number(digits_value(inp, a as int, (a + n) as int) as u32),
        ),
        digits_value(inp, a as int, (a + n) as int) > u32::MAX ==> json_expr(inp, a, es).0 is Aborted,
{
    let (d, e1) = term(inp, a, es, Expected::Digit);
    let (p2, e2) = star(inp, a + 1, e1, Expected::Digit);
    lemma_star_until(inp, a + 1, a + n, e1, Expected::Digit);
    let (p3, e3) = star(inp, a + n, e2, Expected::Spacing);
    lemma_star_until(inp, a + n, a + n, e2, Expected::Spacing);
}

/// A quote, `n` name characters and a quote at `a`, followed by the end of
/// the input or by a byte that is not spacing, are read as a string.
proof fn lemma_string_at(inp: Seq<u8>, a: nat, n: nat, es: Expectation)
    requires
        n >= 1,
        a + n + 2 <= inp.len(),
        inp[a as int] == 34,
        forall|k: int| a + 1 <= k < a + 1 + n ==> class_matches(Expected::IdChar, #[trigger] inp[k]),
        inp[(a + 1 + n) as int] == 34,
        a + n + 2 < inp.len() ==> !class_matches(Expected::Spacing, inp[(a + n + 2) as int]),
    ensures
        string_lit(inp, a, es).0 == Outcome::Matched(
            a + n + 2,
            bytes_to_chars(inp.subrange((a + 1) as int, (a + 1 + n) as int)),
        ),
{
    let (q, e1) = term(inp, a, es, Expected::Quote);
    let (i, e2) = term(inp, a + 1, e1, Expected::IdChar);
    let (p3, e3) = star(inp, a + 2, e2, Expected::IdChar);
    lemma_star_until(inp, a + 2, a + 1 + n, e2, Expected::IdChar);
    let (q2, e4) = term(inp, a + 1 + n, e3, Expected::Quote);
    lemma_star_until(inp, a + n + 2, a + n + 2, e4, Expected::Spacing);
}

/// A document that is a string: a quote, name characters and a quote,
/// gives the string of those characters, in their order.
pub proof fn law_string_document(body: Seq<u8>)
    requires
        body.len() >= 1,
        forall|k: int| 0 <= k < body.len() ==> class_matches(Expected::IdChar, #[trigger] body[k]),
    ensures
        program_result(seq![34u8] + body + seq![34u8]) matches Some(
            ResultView::Success(JsonValue::Str(cs)),
        ) && cs.len() == body.len() && forall|k: int| 0 <= k < body.len() ==> cs[k] == body[k] as char,
{
    let inp = seq![34u8] + body + seq![34u8];
    let n = body.len();
    assert forall|k: int| 1 <= k < 1 + n implies class_matches(Expected::IdChar, #[trigger] inp[k]) by {
        assert(inp[k] == body[k - 1]);
    }
    assert(inp[(n + 1) as int] == 34);
    let (p0, e0) = star(inp, 0, no_expectation(), Expected::Spacing);
    lemma_star_until(inp, 0, 0, no_expectation(), Expected::Spacing);
    lemma_string_at(inp, 0, n, number(inp, 0, e0).1);
    assert(number(inp, 0, e0).0 is Failed);
    let (r, e1) = json_expr(inp, 0, e0);
    lemma_star_until(inp, inp.len(), inp.len(), e1, Expected::Spacing);
    let cs = bytes_to_chars(inp.subrange(1, (1 + n) as int));
    assert forall|k: int| 0 <= k < body.len() implies cs[k] == body[k] as char by {
        assert(inp.subrange(1, (1 + n) as int)[k] == inp[k + 1]);
        assert(inp[k + 1] == body[k]);
    }
}

/// The elements of an array are read in their order, each as it is read on
/// its own: `[d1,d2]` for two numbers `d1` and `d2` is the array of their
/// two values.
pub proof fn law_array_document(d1: Seq<u8>, d2: Seq<u8>)
    requires
        d1.len() >= 1,
        d2.len() >= 1,
        all_digits(d1),
        all_digits(d2),
    ensures
        program_result(d1) matches Some(ResultView::Success(JsonValue::Number(v1))) ==> (
        program_result(d2) matches Some(ResultView::Success(JsonValue::Number(v2))) ==>
        program_result(seq![91u8] + d1 + seq![44u8] + d2 + seq![93u8]) == Some(
            ResultView::Success(JsonValue::Array(seq![JsonValue::Number(v1), JsonValue::Number(v2)])),
        )),
{
    let inp = seq![91u8] + d1 + seq![44u8] + d2 + seq![93u8];
    let n1 = d1.len();
    let n2 = d2.len();
    let a2 = n1 + 2;
    assert(inp.len() == n1 + n2 + 3);
    assert(inp[0] == 91);
    assert(inp[(n1 + 1) as int] == 44);
    assert(inp[(n1 + n2 + 2) as int] == 93);
    assert forall|k: int| 1 <= k < 1 + n1 implies 48 <= #[trigger] inp[k] <= 57 by {
        assert(inp[k] == d1[k - 1]);
    }
    assert forall|k: int| a2 <= k < a2 + n2 implies 48 <= #[trigger] inp[k] <= 57 by {
        assert(inp[k] == d2[k - a2]);
    }
    assert forall|k: int| 0 <= k < n1 implies inp[1 + k] == #[trigger] d1[k] by {}
    assert forall|k: int| 0 <= k < n2 implies inp[a2 + k] == #[trigger] d2[k] by {}
    lemma_digits_shift(inp, 1, d1, n1 as int);
    lemma_digits_shift(inp, a2 as int, d2, n2 as int);
    lemma_digits_document(d1, n1);
    lemma_digits_document(d2, n2);
    let w1 = digits_value(d1, 0, n1 as int);
    let w2 = digits_value(d2, 0, n2 as int);
    if w1 <= u32::MAX {
        if w2 <= u32::MAX {
            let v1 = w1 as u32;
            let v2 = w2 as u32;
            let (p0, e0) = star(inp, 0, no_expectation(), Expected::Spacing);
            lemma_star_until(inp, 0, 0, no_expectation(), Expected::Spacing);
            // the array at 0
            let (r1, x1) = number(inp, 0, e0);
            assert(r1 is Failed);
            let (r2, x2) = string_lit(inp, 0, x1);
            assert(r2 is Failed);
            let (o, f1) = term(inp, 0, x2, Expected::OpenBracket);
            let (q, f2) = star(inp, 1, f1, Expected::Spacing);
            lemma_star_until(inp, 1, 1, f1, Expected::Spacing);
            // first element
            lemma_number_at(inp, 1, n1, f2);
            let (j1, g1) = json_expr(inp, 1, f2);
            let (c1, g2) = term(inp, n1 + 1, g1, Expected::Comma);
            let (p3, g3) = star(inp, a2, g2, Expected::Spacing);
            lemma_star_until(inp, a2, a2, g2, Expected::Spacing);
            // second element, then no comma
            lemma_number_at(inp, a2, n2, g3);
            let (j2, h1) = json_expr(inp, a2, g3);
            let (c2, h2) = term(inp, a2 + n2, h1, Expected::Comma);
            assert(c2 is None);
            lemma_number_at(inp, a2, n2, h2);
            let acc = seq![JsonValue::Number(v1)];
            assert(items(inp, a2, g3, acc) == last_item(inp, a2, h2, acc));
            assert(items(inp, 1, f2, seq![]) == items(inp, a2, g3, seq![].push(JsonValue::Number(v1))));
            assert(seq![].push(JsonValue::Number(v1)) == acc);
            let (ri, e3) = items(inp, 1, f2, seq![]);
            assert(ri == Outcome::Matched(a2 + n2, (acc, JsonValue::Number(v2))));
            lemma_star_until(inp, a2 + n2, a2 + n2, e3, Expected::Spacing);
            let (p4, e4) = star(inp, a2 + n2, e3, Expected::Spacing);
            let (cb, e5) = term(inp, a2 + n2, e4, Expected::CloseBracket);
            lemma_star_until(inp, inp.len(), inp.len(), e5, Expected::Spacing);
            assert(acc.push(JsonValue::Number(v2)) == seq![JsonValue::Number(v1), JsonValue::Number(v2)]);
            let (ra, ea) = array(inp, 0, x2);
            assert(ra == Outcome::Matched(inp.len(), JsonValue::Array(seq![JsonValue::Number(v1), JsonValue::Number(v2)])));
            let (r, e1) = json_expr(inp, 0, e0);
            lemma_star_until(inp, inp.len(), inp.len(), e1, Expected::Spacing);
        }
    }
}


/// An object of one member, `{"key":d}` for a name `key` and a number `d`,
/// holds that one member: the name's characters and the number's value, as
/// each is read on its own.
#[verifier::spinoff_prover]
#[verifier::rlimit(60)]
pub proof fn law_object_document(key: Seq<u8>, d: Seq<u8>)
    requires
        key.len() >= 1,
        forall|k: int| 0 <= k < key.len() ==> class_matches(Expected::IdChar, #[trigger] key[k]),
        d.len() >= 1,
        all_digits(d),
    ensures
        program_result(d) matches Some(ResultView::Success(JsonValue::Number(v))) ==> program_result(
            seq![123u8, 34u8] + key + seq![34u8, 58u8] + d + seq![125u8],
        ) == Some(
            ResultView::Success(
                JsonValue::Object(
                    Some(
                        Box::new(
                            JsonMembers::Inst(
                                seq![
                                    JsonMembers::Couple(
                                        bytes_to_chars(key),
                                        Box::new(JsonValue::Number(v)),
                                    ),
                                ],
                            ),
                        ),
                    ),
                ),
            ),
        ),
{
    let inp = seq![123u8, 34u8] + key + seq![34u8, 58u8] + d + seq![125u8];
    let nk = key.len();
    let nd = d.len();
    let a = nk + 4;
    assert(inp.len() == nk + nd + 5);
    assert(inp[0] == 123);
    assert(inp[1] == 34);
    assert(inp[(nk + 2) as int] == 34);
    assert(inp[(nk + 3) as int] == 58);
    assert(inp[(nk + nd + 4) as int] == 125);
    assert forall|k: int| 2 <= k < 2 + nk implies class_matches(Expected::IdChar, #[trigger] inp[k]) by {
        assert(inp[k] == key[k - 2]);
    }
    assert forall|k: int| a <= k < a + nd implies 48 <= #[trigger] inp[k] <= 57 by {
        assert(inp[k] == d[k - a]);
    }
    assert forall|k: int| 0 <= k < nd implies inp[a + k] == #[trigger] d[k] by {}
    lemma_digits_shift(inp, a as int, d, nd as int);
    lemma_digits_document(d, nd);
    let w = digits_value(d, 0, nd as int);
    if w <= u32::MAX {
        let v = w as u32;
        assert(inp.subrange(2, (2 + nk) as int) =~= key);
        let (p0, e0) = star(inp, 0, no_expectation(), Expected::Spacing);
        lemma_star_until(inp, 0, 0, no_expectation(), Expected::Spacing);
        let (r1, x1) = number(inp, 0, e0);
        assert(r1 is Failed);
        let (r2, x2) = string_lit(inp, 0, x1);
        assert(r2 is Failed);
        let (r3, x3) = array(inp, 0, x2);
        assert(r3 is Failed);
        let (o, f1) = term(inp, 0, x3, Expected::OpenBrace);
        let (q, f2) = star(inp, 1, f1, Expected::Spacing);
        lemma_star_until(inp, 1, 1, f1, Expected::Spacing);
        // the member
        lemma_string_at(inp, 1, nk, f2);
        let (rs, g1) = string_lit(inp, 1, f2);
        let (c, g2) = term(inp, nk + 3, g1, Expected::Colon);
        let (p3, g3) = star(inp, a, g2, Expected::Spacing);
        lemma_star_until(inp, a, a, g2, Expected::Spacing);
        lemma_number_at(inp, a, nd, g3);
        let m = JsonMembers::Couple(bytes_to_chars(key), Box::new(JsonValue::Number(v)));
        let (rc, h1) = couple(inp, 1, f2);
        assert(rc == Outcome::Matched(a + nd, m));
        let (rr, h2) = inst_rest(inp, a + nd, h1, seq![]);
        assert(rr == Outcome::Matched(a + nd, Seq::<JsonMembers>::empty()));
        assert(seq![m] + Seq::<JsonMembers>::empty() == seq![m]);
        let (ri, e3) = inst(inp, 1, f2);
        assert(ri == Outcome::Matched(a + nd, JsonMembers::Inst(seq![m])));
        lemma_star_until(inp, a + nd, a + nd, e3, Expected::Spacing);
        let (p4, e4) = star(inp, a + nd, e3, Expected::Spacing);
        let (cb, e5) = term(inp, a + nd, e4, Expected::CloseBrace);
        lemma_star_until(inp, inp.len(), inp.len(), e5, Expected::Spacing);
        let (ro, eo) = object(inp, 0, x3);
        assert(ro == Outcome::Matched(inp.len(), JsonValue::Object(Some(Box::new(JsonMembers::Inst(seq![m]))))));
        let (r, e1) = json_expr(inp, 0, e0);
        lemma_star_until(inp, inp.len(), inp.len(), e1, Expected::Spacing);
    }
}

} // verus!
