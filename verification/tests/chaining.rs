use oak_analysis::middle::analysis::ast::{
    AGrammar, Expression, Partial, Rule, Span, Warning, WarningKind,
};
use oak_analysis::middle::analysis::useless_chaining::UselessChaining as SpanChaining;
use oak_analysis::useless_chaining::UselessChaining as CountChaining;

struct Builder {
    exprs: Vec<Expression>,
    spans: Vec<Span>,
    rules: Vec<Rule>,
}

impl Builder {
    fn new() -> Builder {
        Builder { exprs: Vec::new(), spans: Vec::new(), rules: Vec::new() }
    }

    fn expr(&mut self, e: Expression, lo: u32, hi: u32) -> usize {
        self.exprs.push(e);
        self.spans.push(Span { lo, hi });
        self.exprs.len() - 1
    }

    fn rule(&mut self, name: u64, expr_idx: usize) {
        self.rules.push(Rule { name, expr_idx });
    }

    fn build(self) -> AGrammar {
        AGrammar { rules: self.rules, exprs: self.exprs, spans: self.spans }
    }
}

fn lit(b: &mut Builder, lo: u32, hi: u32) -> usize {
    b.expr(Expression::StrLiteral("a".to_string()), lo, hi)
}

fn sp(lo: u32, hi: u32) -> Option<Span> {
    Some(Span { lo, hi })
}

fn w(kind: WarningKind, lo: u32, hi: u32) -> Warning {
    Warning { kind, span: sp(lo, hi) }
}

/// The rules of the grammar that exercises the analysis, in the order of
/// their definitions: `test1 = !(!"a")`, `test2 = &(&"a")`, `test3 =
/// !(&"a")`, `test4 = &(!"a")`, `test6 = ("a"+)+`, `test7 = ("a"+)*`,
/// `test9 = !"a"`, `test10 = !test9`, `test11 = &"a"`, `test12 = &test11`,
/// `test13 = !test11`, `test14 = &test9`, `test15 = "a"+`, `test16 =
/// test15+`, `test17 = test15*`.
fn chaining_grammar() -> AGrammar {
    let mut b = Builder::new();
    // test1
    let e0 = lit(&mut b, 104, 116);
    let e1 = b.expr(Expression::NotPredicate(e0), 102, 118);
    let e2 = b.expr(Expression::NotPredicate(e1), 100, 120);
    b.rule(1, e2);
    // test2
    let e3 = lit(&mut b, 204, 216);
    let e4 = b.expr(Expression::AndPredicate(e3), 202, 218);
    let e5 = b.expr(Expression::AndPredicate(e4), 200, 220);
    b.rule(2, e5);
    // test3
    let e6 = lit(&mut b, 304, 316);
    let e7 = b.expr(Expression::AndPredicate(e6), 302, 318);
    let e8 = b.expr(Expression::NotPredicate(e7), 300, 320);
    b.rule(3, e8);
    // test4
    let e9 = lit(&mut b, 404, 416);
    let e10 = b.expr(Expression::NotPredicate(e9), 402, 418);
    let e11 = b.expr(Expression::AndPredicate(e10), 400, 420);
    b.rule(4, e11);
    // test6
    let e12 = lit(&mut b, 604, 616);
    let e13 = b.expr(Expression::OneOrMore(e12), 602, 618);
    let e14 = b.expr(Expression::OneOrMore(e13), 600, 620);
    b.rule(6, e14);
    // test7
    let e15 = lit(&mut b, 704, 716);
    let e16 = b.expr(Expression::OneOrMore(e15), 702, 718);
    let e17 = b.expr(Expression::ZeroOrMore(e16), 700, 720);
    b.rule(7, e17);
    // test9
    let e18 = lit(&mut b, 902, 918);
    let e19 = b.expr(Expression::NotPredicate(e18), 900, 920);
    b.rule(9, e19);
    // test10
    let e20 = b.expr(Expression::NonTerminalSymbol(9), 1002, 1018);
    let e21 = b.expr(Expression::NotPredicate(e20), 1000, 1020);
    b.rule(10, e21);
    // test11
    let e22 = lit(&mut b, 1102, 1118);
    let e23 = b.expr(Expression::AndPredicate(e22), 1100, 1120);
    b.rule(11, e23);
    // test12
    let e24 = b.expr(Expression::NonTerminalSymbol(11), 1202, 1218);
    let e25 = b.expr(Expression::AndPredicate(e24), 1200, 1220);
    b.rule(12, e25);
    // test13
    let e26 = b.expr(Expression::NonTerminalSymbol(11), 1302, 1318);
    let e27 = b.expr(Expression::NotPredicate(e26), 1300, 1320);
    b.rule(13, e27);
    // test14
    let e28 = b.expr(Expression::NonTerminalSymbol(9), 1402, 1418);
    let e29 = b.expr(Expression::AndPredicate(e28), 1400, 1420);
    b.rule(14, e29);
    // test15
    let e30 = lit(&mut b, 1502, 1518);
    let e31 = b.expr(Expression::OneOrMore(e30), 1500, 1520);
    b.rule(15, e31);
    // test16
    let e32 = b.expr(Expression::NonTerminalSymbol(15), 1602, 1618);
    let e33 = b.expr(Expression::OneOrMore(e32), 1600, 1620);
    b.rule(16, e33);
    // test17
    let e34 = b.expr(Expression::NonTerminalSymbol(15), 1702, 1718);
    let e35 = b.expr(Expression::ZeroOrMore(e34), 1700, 1720);
    b.rule(17, e35);
    b.build()
}

/// A grammar of one rule (named 1) whose expression is `ops` applied in
/// turn, the first one outermost, to the literal "a".
fn one_rule(ops: &[&str]) -> AGrammar {
    let mut b = Builder::new();
    let n = ops.len() as u32;
    let mut e = lit(&mut b, 2 * n, 100 - 2 * n);
    for (depth, op) in ops.iter().enumerate().rev() {
        let d = depth as u32;
        let ex = match *op {
            "!" => Expression::NotPredicate(e),
            "&" => Expression::AndPredicate(e),
            "+" => Expression::OneOrMore(e),
            "*" => Expression::ZeroOrMore(e),
            "?" => Expression::ZeroOrOne(e),
            _ => unreachable!(),
        };
        e = b.expr(ex, 2 * d, 100 - 2 * d);
    }
    b.rule(1, e);
    b.build()
}

#[test]
fn spans_report_whole_grammar() {
    let (result, warnings) = SpanChaining::analyse(chaining_grammar());
    assert!(matches!(result, Partial::Nothing));
    let expected = vec![
        w(WarningKind::NotNot, 100, 104),
        w(WarningKind::AndAnd, 200, 204),
        w(WarningKind::NotAnd, 300, 304),
        w(WarningKind::AndNot, 400, 404),
        w(WarningKind::OneOrMoreOneOrMore, 616, 620),
        w(WarningKind::OneOrMoreZeroOrMore, 716, 720),
        w(WarningKind::NotNot, 902, 1000),
        w(WarningKind::AndAnd, 1102, 1200),
        w(WarningKind::NotAnd, 1102, 1300),
        w(WarningKind::AndNot, 902, 1400),
        w(WarningKind::OneOrMoreOneOrMore, 1518, 1620),
        w(WarningKind::OneOrMoreZeroOrMore, 1518, 1720),
    ];
    assert_eq!(warnings, expected);
}

#[test]
fn counts_report_whole_grammar() {
    let (result, warnings) = CountChaining::analyse(chaining_grammar());
    assert!(matches!(result, Partial::Nothing));
    let note = WarningKind::AndPredicateNote;
    let expected = vec![
        w(WarningKind::NotNot, 102, 118),
        w(note, 202, 218),
        w(note, 204, 216),
        w(WarningKind::AndAnd, 202, 218),
        w(WarningKind::NotAnd, 302, 318),
        w(note, 304, 316),
        w(note, 402, 418),
        w(WarningKind::AndNot, 402, 418),
        w(WarningKind::OneOrMoreOneOrMore, 602, 618),
        w(WarningKind::OneOrMoreZeroOrMore, 700, 720),
        w(WarningKind::NotNot, 900, 920),
        w(note, 1102, 1118),
        w(note, 1202, 1218),
        w(note, 1102, 1118),
        w(WarningKind::AndAnd, 1100, 1120),
        w(WarningKind::NotAnd, 1100, 1120),
        w(note, 1102, 1118),
        w(note, 1402, 1418),
        w(WarningKind::AndNot, 900, 920),
        w(WarningKind::OneOrMoreOneOrMore, 1500, 1520),
        w(WarningKind::OneOrMoreZeroOrMore, 1700, 1720),
    ];
    assert_eq!(warnings, expected);
}

#[test]
fn spans_not_not() {
    let (_, warnings) = SpanChaining::analyse(one_rule(&["!", "!"]));
    assert_eq!(warnings, vec![w(WarningKind::NotNot, 0, 4)]);
}

#[test]
fn spans_triple_not_warns_twice() {
    let (_, warnings) = SpanChaining::analyse(one_rule(&["!", "!", "!"]));
    assert_eq!(
        warnings,
        vec![w(WarningKind::NotNot, 0, 4), w(WarningKind::NotNot, 2, 6)]
    );
}

#[test]
fn spans_triple_and_warns_once_over_the_run() {
    let (_, warnings) = SpanChaining::analyse(one_rule(&["&", "&", "&"]));
    assert_eq!(warnings, vec![w(WarningKind::AndAnd, 0, 6)]);
}

#[test]
fn spans_and_and_closed_by_not() {
    // &(&(!"a")): the `!` closes the run of `&` and follows an `&`.
    let (_, warnings) = SpanChaining::analyse(one_rule(&["&", "&", "!"]));
    assert_eq!(
        warnings,
        vec![w(WarningKind::AndNot, 0, 6), w(WarningKind::AndAnd, 0, 4)]
    );
}

#[test]
fn spans_plus_star_plus() {
    // ((("a"+)*)+) : a `+` under a `*`, under a `+`.
    let (_, warnings) = SpanChaining::analyse(one_rule(&["+", "*", "+"]));
    assert_eq!(warnings, vec![w(WarningKind::OneOrMoreZeroOrMore, 94, 98)]);
}

#[test]
fn spans_optional_ends_chain() {
    let (_, warnings) = SpanChaining::analyse(one_rule(&["!", "?", "!"]));
    assert_eq!(warnings, vec![]);
}

#[test]
fn spans_no_chain_no_warning() {
    let (_, warnings) = SpanChaining::analyse(one_rule(&["!"]));
    assert_eq!(warnings, vec![]);
    let (_, warnings) = SpanChaining::analyse(one_rule(&[]));
    assert_eq!(warnings, vec![]);
}

#[test]
fn counts_plus_under_star() {
    // ("a"+)* : the `+` met right under a `*` is reported on the `*`.
    let (_, warnings) = CountChaining::analyse(one_rule(&["*", "+"]));
    assert_eq!(warnings, vec![w(WarningKind::OneOrMoreZeroOrMore, 0, 100)]);
}

#[test]
fn counts_star_under_plus_not_reported() {
    // ("a"*)+ is not the pattern `(e+)*`.
    let (_, warnings) = CountChaining::analyse(one_rule(&["+", "*"]));
    assert_eq!(warnings, vec![]);
}

#[test]
fn counts_plus_under_two_stars() {
    // (("a"+)*)* : reported on the nearest `*`.
    let (_, warnings) = CountChaining::analyse(one_rule(&["*", "*", "+"]));
    assert_eq!(warnings, vec![w(WarningKind::OneOrMoreZeroOrMore, 2, 98)]);
}

#[test]
fn counts_triple_not() {
    let (_, warnings) = CountChaining::analyse(one_rule(&["!", "!", "!"]));
    assert_eq!(
        warnings,
        vec![w(WarningKind::NotNot, 2, 98), w(WarningKind::NotNot, 4, 96)]
    );
}

#[test]
fn counts_and_and_closed_by_plus() {
    // &(&("a"+)): the `+` reports the run of two `&`.
    let (_, warnings) = CountChaining::analyse(one_rule(&["&", "&", "+"]));
    let note = WarningKind::AndPredicateNote;
    assert_eq!(
        warnings,
        vec![w(note, 2, 98), w(note, 4, 96), w(WarningKind::AndAnd, 2, 98)]
    );
}

#[test]
fn both_analyses_on_empty_grammar() {
    let g = Builder::new().build();
    assert_eq!(SpanChaining::analyse(g).1, vec![]);
    let g = Builder::new().build();
    assert_eq!(CountChaining::analyse(g).1, vec![]);
}

#[test]
fn rules_are_analysed_separately() {
    // rule 1 = !"a", rule 2 = !"a": the second `!` is in another rule.
    let mut b = Builder::new();
    let a = lit(&mut b, 2, 8);
    let n1 = b.expr(Expression::NotPredicate(a), 0, 10);
    b.rule(1, n1);
    let c = lit(&mut b, 22, 28);
    let n2 = b.expr(Expression::NotPredicate(c), 20, 30);
    b.rule(2, n2);
    assert_eq!(SpanChaining::analyse(b.build()).1, vec![]);
}

#[test]
fn sequence_ends_chain() {
    // rule 1 = !("a" "a") : the sequence is not followed.
    let mut b = Builder::new();
    let a = lit(&mut b, 3, 6);
    let c = lit(&mut b, 7, 10);
    let s = b.expr(Expression::Sequence(vec![a, c]), 2, 10);
    let n = b.expr(Expression::NotPredicate(s), 0, 11);
    b.rule(1, n);
    let g = b.build();
    assert_eq!(SpanChaining::analyse(g).1, vec![]);
}

#[test]
fn not_run_then_and() {
    // !(!(&"a")): the `&` closes a run of two `!`, and `!(&e)` covers the run.
    let (_, spans) = SpanChaining::analyse(one_rule(&["!", "!", "&"]));
    assert_eq!(spans, vec![w(WarningKind::NotNot, 0, 4), w(WarningKind::NotAnd, 0, 6)]);
    let (_, counts) = CountChaining::analyse(one_rule(&["!", "!", "&"]));
    assert_eq!(
        counts,
        vec![
            w(WarningKind::NotNot, 2, 98),
            w(WarningKind::NotAnd, 4, 96),
            w(WarningKind::AndPredicateNote, 6, 94),
        ]
    );
}

#[test]
fn star_run_then_plus() {
    // (("a"+)*)*: the span analysis reports from the operand of the `+` to
    // the end of the first `*`; the counting one reports the last `*`.
    let (_, spans) = SpanChaining::analyse(one_rule(&["*", "*", "+"]));
    assert_eq!(spans, vec![w(WarningKind::OneOrMoreZeroOrMore, 94, 100)]);
    let (_, counts) = CountChaining::analyse(one_rule(&["*", "*", "+"]));
    assert_eq!(counts, vec![w(WarningKind::OneOrMoreZeroOrMore, 2, 98)]);
}
