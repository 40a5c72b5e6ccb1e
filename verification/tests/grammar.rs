use oak_analysis::middle::analysis::ast::{
    AGrammar, Expression, Partial, Rule, Span, Warning, WarningKind,
};
use oak_analysis::middle::analysis::useless_chaining::{chains_end, UselessChaining};
use oak_analysis::useless_chaining::chains_ok;
use oak_analysis::multiple_and::MultipleAnd;

fn grammar(exprs: Vec<Expression>, rules: Vec<Rule>) -> AGrammar {
    let spans = (0..exprs.len() as u32).map(|i| Span { lo: 10 * i, hi: 10 * i + 5 }).collect();
    AGrammar { rules, exprs, spans }
}

fn lit() -> Expression {
    Expression::StrLiteral("a".to_string())
}

/// test = &(&"a") ; test2 = &test
fn double_and_grammar() -> AGrammar {
    grammar(
        vec![
            lit(),
            Expression::AndPredicate(0),
            Expression::AndPredicate(1),
            Expression::NonTerminalSymbol(1),
            Expression::AndPredicate(3),
        ],
        vec![Rule { name: 1, expr_idx: 2 }, Rule { name: 2, expr_idx: 4 }],
    )
}

#[test]
fn multiple_and_detected_in_double_and_grammar() {
    let g = double_and_grammar();
    assert!(MultipleAnd::detected_multiple_and(&g));
    let (result, warnings) = MultipleAnd::analyse(g);
    assert!(matches!(result, Partial::Nothing));
    assert_eq!(warnings, vec![Warning { kind: WarningKind::MultipleAnd, span: None }]);
}

#[test]
fn single_and_not_detected() {
    let g = grammar(vec![lit(), Expression::AndPredicate(0), lit()], vec![]);
    assert!(!MultipleAnd::detected_multiple_and(&g));
    assert_eq!(MultipleAnd::analyse(g).1, vec![]);
}

#[test]
fn ands_at_the_end_not_detected() {
    // nothing follows the two `&`
    let g = grammar(vec![lit(), Expression::AndPredicate(0), Expression::AndPredicate(1)], vec![]);
    assert!(!MultipleAnd::detected_multiple_and(&g));
}

#[test]
fn separated_ands_are_counted_together() {
    // the count is only reset when it is reported
    let g = grammar(
        vec![
            Expression::AndPredicate(1),
            lit(),
            Expression::AndPredicate(1),
            Expression::AnySingleChar,
        ],
        vec![],
    );
    assert!(MultipleAnd::detected_multiple_and(&g));
}

#[test]
fn empty_grammar_has_no_multiple_and() {
    let g = grammar(vec![], vec![]);
    assert!(!MultipleAnd::detected_multiple_and(&g));
}

#[test]
fn span_new_orders_its_ends() {
    assert_eq!(Span::new(3, 7), Span { lo: 3, hi: 7 });
    assert_eq!(Span::new(7, 3), Span { lo: 3, hi: 7 });
    assert_eq!(Span::new(5, 5).lo(), 5);
    assert_eq!(Span::new(9, 2).hi(), 9);
}

#[test]
fn find_rule_by_ident_takes_the_first() {
    let g = grammar(
        vec![lit(), Expression::AnySingleChar],
        vec![
            Rule { name: 4, expr_idx: 0 },
            Rule { name: 7, expr_idx: 1 },
            Rule { name: 7, expr_idx: 0 },
        ],
    );
    assert_eq!(g.find_rule_by_ident(7).expr_idx, 1);
    assert_eq!(g.find_rule_by_ident(4).expr_idx, 0);
}

#[test]
fn expr_by_index_reads_the_arena() {
    let g = grammar(vec![lit(), Expression::NotPredicate(0)], vec![]);
    assert!(matches!(g.expr_by_index(1), Expression::NotPredicate(0)));
}

#[test]
fn warning_messages() {
    assert_eq!(WarningKind::MultipleAnd.message(), "Multiple And");
    assert_eq!(
        WarningKind::NotNot.message(),
        "Detected useless chaining: !(!e) \nHelp: !(!e) -> &e"
    );
    assert_eq!(
        WarningKind::AndAnd.message(),
        "Detected useless chaining: multiple & \n Help: &(&e) -> &e"
    );
    assert_eq!(
        WarningKind::NotAnd.message(),
        "Detected useless chaining: !(&e) \n Help: !(&e) -> !e"
    );
    assert_eq!(
        WarningKind::AndNot.message(),
        "Detected useless chaining: &(!e) \nHelp: &(!e) -> !e"
    );
    assert_eq!(
        WarningKind::OneOrMoreOneOrMore.message(),
        "Detected useless chaining: multiple + \n Help: (e+)+ -> e+"
    );
    assert_eq!(
        WarningKind::OneOrMoreZeroOrMore.message(),
        "Detected useless chaining: (e+)* \nHelp: (e+)* -> e+"
    );
    assert_eq!(WarningKind::AndPredicateNote.message(), "this is an and");
}

#[test]
fn double_and_grammar_chains() {
    let (_, warnings) = UselessChaining::analyse(double_and_grammar());
    assert_eq!(
        warnings,
        vec![
            Warning { kind: WarningKind::AndAnd, span: Some(Span { lo: 0, hi: 20 }) },
            Warning { kind: WarningKind::AndAnd, span: Some(Span { lo: 0, hi: 40 }) },
        ]
    );
}

#[test]
fn well_formedness_check() {
    assert!(double_and_grammar().is_well_formed());
    // a child index out of the arena
    assert!(!grammar(vec![Expression::NotPredicate(3)], vec![]).is_well_formed());
    // a call of a rule that does not exist
    assert!(!grammar(vec![Expression::NonTerminalSymbol(8)], vec![]).is_well_formed());
    // a rule whose expression is out of the arena
    assert!(!grammar(vec![lit()], vec![Rule { name: 1, expr_idx: 1 }]).is_well_formed());
    // a sequence with an index out of the arena
    assert!(!grammar(vec![Expression::Sequence(vec![0, 5])], vec![]).is_well_formed());
    // spans missing
    let mut g = double_and_grammar();
    g.spans.pop();
    assert!(!g.is_well_formed());
}

#[test]
fn chain_checks() {
    // a = !a never ends
    let looping = grammar(
        vec![Expression::NonTerminalSymbol(1), Expression::NotPredicate(0)],
        vec![Rule { name: 1, expr_idx: 1 }],
    );
    assert!(!chains_end(&looping));
    assert!(!chains_ok(&looping));
    assert!(chains_end(&double_and_grammar()));
    assert!(chains_ok(&double_and_grammar()));
    // an `&` at index 0 is met: the span analysis can run, the counting one cannot
    let and_first = grammar(vec![Expression::AndPredicate(1), lit()], vec![Rule { name: 1, expr_idx: 0 }]);
    assert!(chains_end(&and_first));
    assert!(!chains_ok(&and_first));
}

/// a = !b ; b = !"a" ; c = ("a"+)+
fn three_rules(order: [usize; 3]) -> AGrammar {
    let exprs = vec![
        lit(),
        Expression::NotPredicate(0),
        Expression::NonTerminalSymbol(2),
        Expression::NotPredicate(2),
        Expression::OneOrMore(0),
        Expression::OneOrMore(4),
    ];
    let rules = [
        Rule { name: 1, expr_idx: 3 },
        Rule { name: 2, expr_idx: 1 },
        Rule { name: 3, expr_idx: 5 },
    ];
    grammar(exprs, order.iter().map(|&k| rules[k]).collect())
}

#[test]
fn rule_order_only_reorders_the_warnings() {
    let not_not = Warning { kind: WarningKind::NotNot, span: Some(Span { lo: 0, hi: 30 }) };
    let plus_plus = Warning { kind: WarningKind::OneOrMoreOneOrMore, span: Some(Span { lo: 5, hi: 55 }) };
    let (_, first) = UselessChaining::analyse(three_rules([0, 1, 2]));
    assert_eq!(first, vec![not_not, plus_plus]);
    let (_, second) = UselessChaining::analyse(three_rules([2, 1, 0]));
    assert_eq!(second, vec![plus_plus, not_not]);

    let (_, counted) = oak_analysis::useless_chaining::UselessChaining::analyse(three_rules([0, 1, 2]));
    let (_, counted_again) = oak_analysis::useless_chaining::UselessChaining::analyse(three_rules([1, 2, 0]));
    let nn = Warning { kind: WarningKind::NotNot, span: Some(Span { lo: 10, hi: 15 }) };
    let pp = Warning { kind: WarningKind::OneOrMoreOneOrMore, span: Some(Span { lo: 40, hi: 45 }) };
    assert_eq!(counted, vec![nn, pp]);
    assert_eq!(counted_again, vec![pp, nn]);
}

#[test]
fn a_call_is_followed_like_its_rule() {
    // a = !b with b = !"a" warns as a = !(!"a") would, over the same operators
    let called = three_rules([0, 1, 2]);
    let inline = grammar(
        vec![lit(), Expression::NotPredicate(0), Expression::NotPredicate(1)],
        vec![Rule { name: 1, expr_idx: 2 }],
    );
    let (_, through_call) = UselessChaining::analyse(called);
    let (_, direct) = UselessChaining::analyse(inline);
    assert_eq!(through_call[0].kind, WarningKind::NotNot);
    assert_eq!(direct, vec![Warning { kind: WarningKind::NotNot, span: Some(Span { lo: 0, hi: 20 }) }]);
}
