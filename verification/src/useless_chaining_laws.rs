//! What the counting analysis of useless chains guarantees: each pattern
//! that it finds, wherever it stands in the chain of a rule, gives a
//! warning of its kind, on the expression stated below for the pairs and
//! the runs of operators; a chain without such a pattern gives none; and
//! what a rule gets depends neither on the order of the rules nor on the
//! rule calls along its chain.
use vstd::prelude::*;

use crate::middle::analysis::ast::{
    lemma_reordered, names_distinct, reordered, same_calls, AGrammar, Expression, Warning,
    WarningKind,
};
use crate::middle::analysis::chain::{
    calls_after,
    count_in_chain,
    is_operator,
    has_kind,
    has_such,
    is_warning,
    kind_is,
    lemma_such_contains,
    lemma_first_kind,
    lemma_has_such_concat,
    is_link,
    lemma_calls_are_links,
    lemma_has_kind_concat,
    lemma_links_shift,
    lemma_next_below,
    expr_at,
    maximal_run,
    run_op,
    lemma_walk_ends_after,
    links_before,
    next_in_chain,
    nth_in_chain,
    walk_ends,
};
use crate::useless_chaining::{
    and_and_report,
    chaining_report,
    cleared,
    on_and,
    on_not,
    on_one_or_more,
    on_other,
    on_zero_or_more,
    oom_oom_report,
    oom_zom_report,
    rule_report,
    rules_walk_ok,
    run,
    walk_ok,
    warn_at,
    warn_if,
    Counters,
};

verus! {

/// A chain that can be followed by the counting analysis ends.
pub proof fn lemma_walk_ok_ends(g: AGrammar, i: usize, fuel: nat)
    requires
        walk_ok(g, i, fuel),
    ensures
        walk_ends(g, i, fuel),
    decreases fuel,
{
    let f = (fuel - 1) as nat;
    match g.exprs@[i as int] {
        Expression::NonTerminalSymbol(id) => lemma_walk_ok_ends(g, g.rule_expr(id), f),
        Expression::ZeroOrMore(c) => lemma_walk_ok_ends(g, c, f),
        Expression::OneOrMore(c) => lemma_walk_ok_ends(g, c, f),
        Expression::NotPredicate(c) => lemma_walk_ok_ends(g, c, f),
        Expression::AndPredicate(c) => lemma_walk_ok_ends(g, c, f),
        _ => {},
    }
}


/// What one expression of a chain does to the counters and to the
/// warnings.
pub open spec fn step(g: AGrammar, t: Counters, i: usize) -> (Counters, Seq<Warning>) {
    match g.exprs@[i as int] {
        Expression::NonTerminalSymbol(_) => (t, seq![]),
        Expression::ZeroOrMore(_) => on_zero_or_more(g, t, i),
        Expression::OneOrMore(_) => on_one_or_more(g, t, i),
        Expression::NotPredicate(_) => on_not(g, t, i),
        Expression::AndPredicate(_) => on_and(g, t, i),
        _ => on_other(g, t),
    }
}

/// The counters after the first `k` expressions of the chain from `i`.
pub open spec fn counters_at(g: AGrammar, t: Counters, i: usize, k: nat) -> Counters
    decreases k,
{
    if k == 0 {
        t
    } else {
        counters_at(g, step(g, t, i).0, next_in_chain(g, i), (k - 1) as nat)
    }
}

proof fn lemma_run_link(g: AGrammar, t: Counters, i: usize, fuel: nat)
    requires
        fuel > 0,
        is_link(g.exprs@[i as int]),
    ensures
        run(g, t, i, fuel).1 == step(g, t, i).1 + run(
            g,
            step(g, t, i).0,
            next_in_chain(g, i),
            (fuel - 1) as nat,
        ).1,
{
    if g.exprs@[i as int] is NonTerminalSymbol {
        let rest = run(g, t, next_in_chain(g, i), (fuel - 1) as nat).1;
        assert(Seq::<Warning>::empty() + rest =~= rest);
    }
}

proof fn lemma_run_suffix(g: AGrammar, t: Counters, i: usize, fuel: nat, k: nat, p: spec_fn(Warning) -> bool)
    requires
        links_before(g, i, k),
        k < fuel,
        has_such(
            run(g, counters_at(g, t, i, k), nth_in_chain(g, i, k), (fuel - k) as nat).1,
            p,
        ),
    ensures
        has_such(run(g, t, i, fuel).1, p),
    decreases k,
{
    if k > 0 {
        lemma_links_shift(g, i, k);
        let j = next_in_chain(g, i);
        let t1 = step(g, t, i).0;
        assert((fuel - k) as nat == ((fuel - 1) as nat - (k - 1) as nat) as nat);
        lemma_run_suffix(g, t1, j, (fuel - 1) as nat, (k - 1) as nat, p);
        lemma_run_link(g, t, i, fuel);
        lemma_has_such_concat(step(g, t, i).1, run(g, t1, j, (fuel - 1) as nat).1, p);
    }
}

proof fn lemma_counters_split(g: AGrammar, t: Counters, i: usize, k: nat, m: nat)
    ensures
        counters_at(g, t, i, k + m) == counters_at(g, counters_at(g, t, i, k), nth_in_chain(g, i, k), m),
    decreases k,
{
    if k > 0 {
        lemma_counters_split(g, step(g, t, i).0, next_in_chain(g, i), (k - 1) as nat, m);
        assert((k + m - 1) as nat == (k - 1) as nat + m);
    }
}

proof fn lemma_calls_keep_counters(g: AGrammar, t: Counters, i: usize, m: nat)
    requires
        m >= 1,
        calls_after(g, i, m),
    ensures
        counters_at(g, t, i, m) == step(g, t, i).0,
    decreases m,
{
    if m > 1 {
        let p = (m - 1) as nat;
        lemma_calls_keep_counters(g, t, i, p);
        lemma_counters_split(g, t, i, p, 1);
        assert(p + 1 == m);
        let j = nth_in_chain(g, i, p);
        let x = counters_at(g, t, i, p);
        assert(g.exprs@[j as int] is NonTerminalSymbol);
        assert(step(g, x, j).0 == x);
        assert(counters_at(g, step(g, x, j).0, next_in_chain(g, j), 0) == step(g, x, j).0);
        assert(counters_at(g, x, j, 1) == counters_at(g, step(g, x, j).0, next_in_chain(g, j), 0));
    } else {
        assert(counters_at(g, step(g, t, i).0, next_in_chain(g, i), 0) == step(g, t, i).0);
    }
}

/// The warnings of a pair of links `m` steps apart, the second reached
/// from the first through rule calls only, are warnings of the chain.
proof fn lemma_pair(g: AGrammar, t: Counters, a: usize, fuel: nat, m: nat, p: spec_fn(Warning) -> bool)
    requires
        walk_ends(g, a, fuel),
        m >= 1,
        is_link(g.exprs@[a as int]),
        calls_after(g, a, m),
        is_link(g.exprs@[nth_in_chain(g, a, m) as int]),
    ensures
        m < fuel,
        walk_ends(g, nth_in_chain(g, a, m), (fuel - m) as nat),
        has_such(run(g, step(g, t, a).0, nth_in_chain(g, a, m), (fuel - m) as nat).1, p)
            ==> has_such(run(g, t, a, fuel).1, p),
{
    lemma_calls_are_links(g, a, m);
    lemma_walk_ends_after(g, a, fuel, m);
    lemma_calls_keep_counters(g, t, a, m);
    if has_such(run(g, step(g, t, a).0, nth_in_chain(g, a, m), (fuel - m) as nat).1, p) {
        lemma_run_suffix(g, t, a, fuel, m, p);
    }
}

/// The warnings of a rule are warnings of the grammar.
proof fn lemma_report_has_rule(g: AGrammar, n: nat, r: int, p: spec_fn(Warning) -> bool)
    requires
        0 <= r < n,
        has_such(rule_report(g, r), p),
    ensures
        has_such(chaining_report(g, n), p),
    decreases n,
{
    if r < n - 1 {
        lemma_report_has_rule(g, (n - 1) as nat, r, p);
    }
    lemma_has_such_concat(chaining_report(g, (n - 1) as nat), rule_report(g, n - 1), p);
}

/// A warning given at step `k` of the chain of rule `r` is a warning of the
/// grammar.
proof fn lemma_rule_step(g: AGrammar, r: int, k: nat, p: spec_fn(Warning) -> bool)
    requires
        rules_walk_ok(g),
        0 <= r < g.rules@.len(),
        links_before(g, g.rules@[r].expr_idx, k),
        has_such(
            run(
                g,
                counters_at(g, cleared(), g.rules@[r].expr_idx, k),
                nth_in_chain(g, g.rules@[r].expr_idx, k),
                (g.exprs@.len() - k) as nat,
            ).1,
            p,
        ),
    ensures
        has_such(chaining_report(g, g.rules@.len()), p),
{
    let root = g.rules@[r].expr_idx;
    assert(walk_ok(g, root, g.exprs@.len()));
    lemma_walk_ok_ends(g, root, g.exprs@.len());
    lemma_walk_ends_after(g, root, g.exprs@.len(), k);
    lemma_run_suffix(g, cleared(), root, g.exprs@.len(), k, p);
    lemma_report_has_rule(g, g.rules@.len(), r, p);
}

/// A warning given on a link is a warning of the chain from it.
proof fn lemma_step_warns(g: AGrammar, t: Counters, b: usize, fuel: nat, p: spec_fn(Warning) -> bool)
    requires
        fuel > 0,
        is_link(g.exprs@[b as int]),
        has_such(step(g, t, b).1, p),
    ensures
        has_such(run(g, t, b, fuel).1, p),
{
    lemma_run_link(g, t, b, fuel);
    lemma_has_such_concat(
        step(g, t, b).1,
        run(g, step(g, t, b).0, next_in_chain(g, b), (fuel - 1) as nat).1,
        p,
    );
}

/// With two or more `&` counted, the rest of a chain gives a warning on
/// them.
proof fn lemma_pending_and_and(g: AGrammar, t: Counters, i: usize, fuel: nat)
    requires
        t.and_and.0 >= 2,
        walk_ends(g, i, fuel),
    ensures
        has_kind(run(g, t, i, fuel).1, WarningKind::AndAnd),
    decreases fuel,
{
    let kind = WarningKind::AndAnd;
    let f = (fuel - 1) as nat;
    let w = and_and_report(g, t);
    let o = oom_oom_report(g, t);
    assert(w[0].kind == kind);
    assert(has_kind(w, kind));
    match g.exprs@[i as int] {
        Expression::NonTerminalSymbol(id) => {
            lemma_pending_and_and(g, t, g.rule_expr(id), f);
        },
        Expression::ZeroOrMore(ch) => {
            let a = on_zero_or_more(g, t, i).1.subrange(0, on_zero_or_more(g, t, i).1.len() - w.len() - o.len());
            assert(on_zero_or_more(g, t, i).1 =~= a + w + o);
            lemma_has_kind_concat(a, w, kind);
            lemma_has_kind_concat(a + w, o, kind);
            lemma_step_warns(g, t, i, fuel, kind_is(kind));
        },
        Expression::OneOrMore(ch) => {
            lemma_has_kind_concat(oom_zom_report(g, t), w, kind);
            lemma_step_warns(g, t, i, fuel, kind_is(kind));
        },
        Expression::NotPredicate(ch) => {
            let ws = on_not(g, t, i).1;
            let a = ws.subrange(0, ws.len() - w.len() - o.len());
            assert(ws =~= a + w + o);
            lemma_has_kind_concat(a, w, kind);
            lemma_has_kind_concat(a + w, o, kind);
            lemma_step_warns(g, t, i, fuel, kind_is(kind));
        },
        Expression::AndPredicate(ch) => {
            let t1 = on_and(g, t, i).0;
            lemma_pending_and_and(g, t1, ch, f);
            lemma_run_link(g, t, i, fuel);
            lemma_has_kind_concat(step(g, t, i).1, run(g, t1, ch, f).1, kind);
        },
        _ => {
            lemma_has_kind_concat(w, o, kind);
        },
    }
}

/// With two or more `+` counted, the rest of a chain gives a warning on
/// them.
proof fn lemma_pending_oom_oom(g: AGrammar, t: Counters, i: usize, fuel: nat)
    requires
        t.oom_oom.0 >= 2,
        walk_ends(g, i, fuel),
    ensures
        has_kind(run(g, t, i, fuel).1, WarningKind::OneOrMoreOneOrMore),
    decreases fuel,
{
    let kind = WarningKind::OneOrMoreOneOrMore;
    let f = (fuel - 1) as nat;
    let o = oom_oom_report(g, t);
    assert(o[0].kind == kind);
    assert(has_kind(o, kind));
    match g.exprs@[i as int] {
        Expression::NonTerminalSymbol(id) => {
            lemma_pending_oom_oom(g, t, g.rule_expr(id), f);
        },
        Expression::OneOrMore(ch) => {
            let t1 = on_one_or_more(g, t, i).0;
            lemma_pending_oom_oom(g, t1, ch, f);
            lemma_run_link(g, t, i, fuel);
            lemma_has_kind_concat(step(g, t, i).1, run(g, t1, ch, f).1, kind);
        },
        Expression::ZeroOrMore(ch) => {
            let ws = on_zero_or_more(g, t, i).1;
            let a = ws.subrange(0, ws.len() - o.len());
            assert(ws =~= a + o);
            lemma_has_kind_concat(a, o, kind);
            lemma_step_warns(g, t, i, fuel, kind_is(kind));
        },
        Expression::NotPredicate(ch) => {
            let ws = on_not(g, t, i).1;
            let a = ws.subrange(0, ws.len() - o.len());
            assert(ws =~= a + o);
            lemma_has_kind_concat(a, o, kind);
            lemma_step_warns(g, t, i, fuel, kind_is(kind));
        },
        Expression::AndPredicate(ch) => {
            let ws = on_and(g, t, i).1;
            let a = ws.subrange(0, ws.len() - o.len());
            assert(ws =~= a + o);
            lemma_has_kind_concat(a, o, kind);
            lemma_step_warns(g, t, i, fuel, kind_is(kind));
        },
        _ => {
            lemma_has_kind_concat(and_and_report(g, t), o, kind);
        },
    }
}

/// The conditions shared by the laws below: the chain of rule `r` has links
/// for its first `k` steps, step `k` holds `a`, and the expression `m`
/// steps after `a` is reached from it through rule calls only.
pub open spec fn pair_in_rule(g: AGrammar, r: int, k: nat, m: nat) -> bool {
    let root = g.rules@[r].expr_idx;
    let a = nth_in_chain(g, root, k);
    &&& g.wf()
    &&& rules_walk_ok(g)
    &&& 0 <= r < g.rules@.len()
    &&& links_before(g, root, k)
    &&& m >= 1
    &&& calls_after(g, a, m)
}

/// The index of the first expression of the pair.
pub open spec fn pair_first_index(g: AGrammar, r: int, k: nat) -> usize {
    nth_in_chain(g, g.rules@[r].expr_idx, k)
}

/// The index of the second expression of the pair.
pub open spec fn pair_second_index(g: AGrammar, r: int, k: nat, m: nat) -> usize {
    nth_in_chain(g, nth_in_chain(g, g.rules@[r].expr_idx, k), m)
}

/// The first expression of the pair, at step `k` of the chain of rule `r`.
pub open spec fn pair_first(g: AGrammar, r: int, k: nat) -> Expression {
    g.exprs@[nth_in_chain(g, g.rules@[r].expr_idx, k) as int]
}

/// The second expression of the pair, `m` steps after the first.
pub open spec fn pair_second(g: AGrammar, r: int, k: nat, m: nat) -> Expression {
    g.exprs@[nth_in_chain(g, nth_in_chain(g, g.rules@[r].expr_idx, k), m) as int]
}

proof fn lemma_pair_in_rule(g: AGrammar, r: int, k: nat, m: nat, p: spec_fn(Warning) -> bool)
    requires
        pair_in_rule(g, r, k, m),
        is_link(pair_first(g, r, k)),
        is_link(pair_second(g, r, k, m)),
        ({
            let root = g.rules@[r].expr_idx;
            let a = nth_in_chain(g, root, k);
            let ta = counters_at(g, cleared(), root, k);
            forall|fuel: nat|
                fuel > 0 && walk_ends(g, nth_in_chain(g, a, m), fuel) ==> has_such(
                    #[trigger] run(g, step(g, ta, a).0, nth_in_chain(g, a, m), fuel).1,
                    p,
                )
        }),
    ensures
        has_such(chaining_report(g, g.rules@.len()), p),
{
    let root = g.rules@[r].expr_idx;
    let a = nth_in_chain(g, root, k);
    let ta = counters_at(g, cleared(), root, k);
    let n = g.exprs@.len();
    assert(walk_ok(g, root, n));
    lemma_walk_ok_ends(g, root, n);
    lemma_walk_ends_after(g, root, n, k);
    let fa = (n - k) as nat;
    lemma_pair(g, ta, a, fa, m, p);
    assert(walk_ends(g, nth_in_chain(g, a, m), (fa - m) as nat));
    assert(has_such(run(g, step(g, ta, a).0, nth_in_chain(g, a, m), (fa - m) as nat).1, p));
    lemma_rule_step(g, r, k, p);
}

/// `!(!e)`: a `!` in the chain of a rule whose operand leads, through rule
/// calls only, to another `!` gives a warning of that kind.
pub proof fn law_not_not_reported(g: AGrammar, r: int, k: nat, m: nat)
    requires
        pair_in_rule(g, r, k, m),
        pair_first(g, r, k) is NotPredicate,
        pair_second(g, r, k, m) is NotPredicate,
    ensures
        chaining_report(g, g.rules@.len()).contains(
            warn_at(g, WarningKind::NotNot, pair_second_index(g, r, k, m) as int),
        ),
{
    let kind = WarningKind::NotNot;
    let root = g.rules@[r].expr_idx;
    let a = nth_in_chain(g, root, k);
    let ta = counters_at(g, cleared(), root, k);
    let tb = step(g, ta, a).0;
    let b = nth_in_chain(g, a, m);
    let w0 = warn_at(g, kind, b as int);
    let p = is_warning(w0);
    assert(tb.not_not > 0);
    assert forall|fuel: nat| fuel > 0 && walk_ends(g, b, fuel) implies has_such(
        #[trigger] run(g, tb, b, fuel).1,
        p,
    ) by {
        let ws = step(g, tb, b).1;
        assert(ws[0] == w0);
        assert(p(ws[0]));
        lemma_step_warns(g, tb, b, fuel, p);
    }
    lemma_pair_in_rule(g, r, k, m, p);
    lemma_such_contains(chaining_report(g, g.rules@.len()), w0);
}

/// `&(!e)`: an `&` in the chain of a rule whose operand leads, through rule
/// calls only, to a `!` gives a warning of that kind.
pub proof fn law_and_not_reported(g: AGrammar, r: int, k: nat, m: nat)
    requires
        pair_in_rule(g, r, k, m),
        pair_first(g, r, k) is AndPredicate,
        pair_second(g, r, k, m) is NotPredicate,
    ensures
        chaining_report(g, g.rules@.len()).contains(
            warn_at(g, WarningKind::AndNot, pair_second_index(g, r, k, m) as int),
        ),
{
    let kind = WarningKind::AndNot;
    let root = g.rules@[r].expr_idx;
    let a = nth_in_chain(g, root, k);
    let ta = counters_at(g, cleared(), root, k);
    let tb = step(g, ta, a).0;
    let b = nth_in_chain(g, a, m);
    let w0 = warn_at(g, kind, b as int);
    let p = is_warning(w0);
    assert(tb.and_not > 0 && tb.not_not == 0);
    assert forall|fuel: nat| fuel > 0 && walk_ends(g, b, fuel) implies has_such(
        #[trigger] run(g, tb, b, fuel).1,
        p,
    ) by {
        let ws = step(g, tb, b).1;
        assert(ws[0] == w0);
        assert(p(ws[0]));
        lemma_step_warns(g, tb, b, fuel, p);
    }
    lemma_pair_in_rule(g, r, k, m, p);
    lemma_such_contains(chaining_report(g, g.rules@.len()), w0);
}

/// `!(&e)`: a `!` in the chain of a rule whose operand leads, through rule
/// calls only, to an `&` gives a warning of that kind.
pub proof fn law_not_and_reported(g: AGrammar, r: int, k: nat, m: nat)
    requires
        pair_in_rule(g, r, k, m),
        pair_first(g, r, k) is NotPredicate,
        pair_second(g, r, k, m) is AndPredicate,
    ensures
        chaining_report(g, g.rules@.len()).contains(
            warn_at(g, WarningKind::NotAnd, pair_second_index(g, r, k, m) as int),
        ),
{
    let kind = WarningKind::NotAnd;
    let root = g.rules@[r].expr_idx;
    let a = nth_in_chain(g, root, k);
    let ta = counters_at(g, cleared(), root, k);
    let tb = step(g, ta, a).0;
    let b = nth_in_chain(g, a, m);
    let w0 = warn_at(g, kind, b as int);
    let p = is_warning(w0);
    assert(tb.not_and > 0);
    assert forall|fuel: nat| fuel > 0 && walk_ends(g, b, fuel) implies has_such(
        #[trigger] run(g, tb, b, fuel).1,
        p,
    ) by {
        let ws = step(g, tb, b).1;
        assert(ws[0] == w0);
        assert(p(ws[0]));
        lemma_step_warns(g, tb, b, fuel, p);
    }
    lemma_pair_in_rule(g, r, k, m, p);
    lemma_such_contains(chaining_report(g, g.rules@.len()), w0);
}

/// `&(&e)`: an `&` in the chain of a rule whose operand leads, through rule
/// calls only, to another `&` gives a warning of that kind.
pub proof fn law_and_and_reported(g: AGrammar, r: int, k: nat, m: nat)
    requires
        pair_in_rule(g, r, k, m),
        pair_first(g, r, k) is AndPredicate,
        pair_second(g, r, k, m) is AndPredicate,
    ensures
        has_kind(chaining_report(g, g.rules@.len()), WarningKind::AndAnd),
{
    let kind = WarningKind::AndAnd;
    let root = g.rules@[r].expr_idx;
    let a = nth_in_chain(g, root, k);
    let ta = counters_at(g, cleared(), root, k);
    let tb = step(g, ta, a).0;
    let b = nth_in_chain(g, a, m);
    assert(tb.and_and.0 > 0);
    assert forall|fuel: nat| fuel > 0 && walk_ends(g, b, fuel) implies has_kind(
        #[trigger] run(g, tb, b, fuel).1,
        kind,
    ) by {
        let ch = next_in_chain(g, b);
        let tc = step(g, tb, b).0;
        assert(tc.and_and.0 >= 2);
        lemma_pending_and_and(g, tc, ch, (fuel - 1) as nat);
        lemma_run_link(g, tb, b, fuel);
        lemma_has_kind_concat(step(g, tb, b).1, run(g, tc, ch, (fuel - 1) as nat).1, kind);
    }
    lemma_pair_in_rule(g, r, k, m, kind_is(kind));
}

/// `(e+)+`: a `+` in the chain of a rule whose operand leads, through rule
/// calls only, to another `+` gives a warning of that kind.
pub proof fn law_oom_oom_reported(g: AGrammar, r: int, k: nat, m: nat)
    requires
        pair_in_rule(g, r, k, m),
        pair_first(g, r, k) is OneOrMore,
        pair_second(g, r, k, m) is OneOrMore,
    ensures
        has_kind(chaining_report(g, g.rules@.len()), WarningKind::OneOrMoreOneOrMore),
{
    let kind = WarningKind::OneOrMoreOneOrMore;
    let root = g.rules@[r].expr_idx;
    let a = nth_in_chain(g, root, k);
    let ta = counters_at(g, cleared(), root, k);
    let tb = step(g, ta, a).0;
    let b = nth_in_chain(g, a, m);
    assert(tb.oom_oom.0 > 0);
    assert forall|fuel: nat| fuel > 0 && walk_ends(g, b, fuel) implies has_kind(
        #[trigger] run(g, tb, b, fuel).1,
        kind,
    ) by {
        let ch = next_in_chain(g, b);
        let tc = step(g, tb, b).0;
        assert(tc.oom_oom.0 >= 2);
        lemma_pending_oom_oom(g, tc, ch, (fuel - 1) as nat);
        lemma_run_link(g, tb, b, fuel);
        lemma_has_kind_concat(step(g, tb, b).1, run(g, tc, ch, (fuel - 1) as nat).1, kind);
    }
    lemma_pair_in_rule(g, r, k, m, kind_is(kind));
}

/// `(e+)*`: a `*` in the chain of a rule whose operand leads, through rule
/// calls only, to a `+` gives a warning of that kind.
pub proof fn law_oom_zom_reported(g: AGrammar, r: int, k: nat, m: nat)
    requires
        pair_in_rule(g, r, k, m),
        pair_first(g, r, k) is ZeroOrMore,
        pair_second(g, r, k, m) is OneOrMore,
    ensures
        chaining_report(g, g.rules@.len()).contains(
            warn_at(g, WarningKind::OneOrMoreZeroOrMore, pair_first_index(g, r, k) as int),
        ),
{
    let kind = WarningKind::OneOrMoreZeroOrMore;
    let root = g.rules@[r].expr_idx;
    let a = nth_in_chain(g, root, k);
    let ta = counters_at(g, cleared(), root, k);
    let tb = step(g, ta, a).0;
    let b = nth_in_chain(g, a, m);
    let w0 = warn_at(g, kind, a as int);
    let p = is_warning(w0);
    assert(tb.oom_zom.0 > 0);
    assert forall|fuel: nat| fuel > 0 && walk_ends(g, b, fuel) implies has_such(
        #[trigger] run(g, tb, b, fuel).1,
        p,
    ) by {
        let ws = step(g, tb, b).1;
        assert(ws[0] == w0);
        assert(p(ws[0]));
        lemma_step_warns(g, tb, b, fuel, p);
    }
    lemma_pair_in_rule(g, r, k, m, p);
    lemma_such_contains(chaining_report(g, g.rules@.len()), w0);
}

proof fn lemma_quiet_rest(g: AGrammar, t: Counters, i: usize, fuel: nat)
    requires
        t.and_and.0 <= 1,
        t.oom_oom.0 <= 1,
        count_in_chain(g, i, fuel, |e: Expression| is_operator(e)) == 0,
    ensures
        run(g, t, i, fuel).1 == Seq::<Warning>::empty(),
    decreases fuel,
{
    if fuel > 0 {
        match g.exprs@[i as int] {
            Expression::NonTerminalSymbol(id) => {
                lemma_quiet_rest(g, t, g.rule_expr(id), (fuel - 1) as nat);
            },
            Expression::ZeroOrMore(_) => {},
            Expression::OneOrMore(_) => {},
            Expression::NotPredicate(_) => {},
            Expression::AndPredicate(_) => {},
            _ => {
                assert(on_other(g, t).1 =~= Seq::<Warning>::empty());
            },
        }
    }
}

proof fn lemma_quiet(g: AGrammar, i: usize, fuel: nat)
    requires
        count_in_chain(g, i, fuel, |e: Expression| is_operator(e)) <= 1,
        count_in_chain(g, i, fuel, |e: Expression| e is AndPredicate) == 0,
    ensures
        run(g, cleared(), i, fuel).1 == Seq::<Warning>::empty(),
    decreases fuel,
{
    let t = cleared();
    if fuel > 0 {
        let f = (fuel - 1) as nat;
        match g.exprs@[i as int] {
            Expression::NonTerminalSymbol(id) => {
                lemma_quiet(g, g.rule_expr(id), f);
            },
            Expression::ZeroOrMore(ch) => {
                let (t1, w1) = on_zero_or_more(g, t, i);
                assert(w1 =~= Seq::<Warning>::empty());
                lemma_quiet_rest(g, t1, ch, f);
            },
            Expression::OneOrMore(ch) => {
                let (t1, w1) = on_one_or_more(g, t, i);
                assert(w1 =~= Seq::<Warning>::empty());
                lemma_quiet_rest(g, t1, ch, f);
            },
            Expression::NotPredicate(ch) => {
                let (t1, w1) = on_not(g, t, i);
                assert(w1 =~= Seq::<Warning>::empty());
                lemma_quiet_rest(g, t1, ch, f);
            },
            Expression::AndPredicate(ch) => {},
            _ => {
                assert(on_other(g, t).1 =~= Seq::<Warning>::empty());
            },
        }
    }
}

/// No useless chain, no warning: when the chain of every rule goes through
/// at most one predicate or repetition, and through no `&` (each `&` met
/// gives a note), the counting analysis reports nothing.
pub proof fn law_single_operators_quiet(g: AGrammar)
    requires
        g.wf(),
        forall|r: int|
            0 <= r < g.rules@.len() ==> count_in_chain(
                g,
                #[trigger] g.rules@[r].expr_idx,
                g.exprs@.len(),
                |e: Expression| is_operator(e),
            ) <= 1,
        forall|r: int|
            0 <= r < g.rules@.len() ==> count_in_chain(
                g,
                #[trigger] g.rules@[r].expr_idx,
                g.exprs@.len(),
                |e: Expression| e is AndPredicate,
            ) == 0,
    ensures
        chaining_report(g, g.rules@.len()) == Seq::<Warning>::empty(),
{
    lemma_quiet_prefix(g, g.rules@.len());
}

proof fn lemma_quiet_prefix(g: AGrammar, n: nat)
    requires
        n <= g.rules@.len(),
        forall|r: int|
            0 <= r < g.rules@.len() ==> count_in_chain(
                g,
                #[trigger] g.rules@[r].expr_idx,
                g.exprs@.len(),
                |e: Expression| is_operator(e),
            ) <= 1,
        forall|r: int|
            0 <= r < g.rules@.len() ==> count_in_chain(
                g,
                #[trigger] g.rules@[r].expr_idx,
                g.exprs@.len(),
                |e: Expression| e is AndPredicate,
            ) == 0,
    ensures
        chaining_report(g, n) == Seq::<Warning>::empty(),
    decreases n,
{
    if n > 0 {
        lemma_quiet_prefix(g, (n - 1) as nat);
        let r = n - 1;
        assert(count_in_chain(g, g.rules@[r].expr_idx, g.exprs@.len(), |e: Expression| is_operator(e)) <= 1);
        assert(count_in_chain(g, g.rules@[r].expr_idx, g.exprs@.len(), |e: Expression| e is AndPredicate) == 0);
        lemma_quiet(g, g.rules@[r].expr_idx, g.exprs@.len());
        assert(chaining_report(g, n) =~= Seq::<Warning>::empty());
    }
}


/// Chains are followed alike in two grammars with the same calls.
proof fn lemma_walk_ok_same(g: AGrammar, h: AGrammar, i: usize, fuel: nat)
    requires
        g.wf(),
        same_calls(g, h),
        i < g.exprs@.len(),
    ensures
        walk_ok(h, i, fuel) == walk_ok(g, i, fuel),
    decreases fuel,
{
    if fuel > 0 {
        lemma_next_below(g, i);
        assert(h.exprs@[i as int] == g.exprs@[i as int]);
        if let Expression::NonTerminalSymbol(id) = g.exprs@[i as int] {
            assert(g.has_rule(id));
        }
        if is_link(g.exprs@[i as int]) {
            lemma_walk_ok_same(g, h, next_in_chain(g, i), (fuel - 1) as nat);
        }
    }
}

/// Following a chain gives the same in two grammars with the same calls.
proof fn lemma_run_same(g: AGrammar, h: AGrammar, c: Counters, i: usize, fuel: nat)
    requires
        g.wf(),
        same_calls(g, h),
        i < g.exprs@.len(),
    ensures
        run(h, c, i, fuel) == run(g, c, i, fuel),
    decreases fuel,
{
    if fuel > 0 {
        let f = (fuel - 1) as nat;
        lemma_next_below(g, i);
        assert(h.exprs@[i as int] == g.exprs@[i as int]);
        match g.exprs@[i as int] {
            Expression::NonTerminalSymbol(id) => {
                assert(g.has_rule(id));
                lemma_run_same(g, h, c, g.rule_expr(id), f);
            },
            Expression::ZeroOrMore(ch) => {
                assert(on_zero_or_more(h, c, i) == on_zero_or_more(g, c, i));
                lemma_run_same(g, h, on_zero_or_more(g, c, i).0, ch, f);
            },
            Expression::OneOrMore(ch) => {
                assert(on_one_or_more(h, c, i) == on_one_or_more(g, c, i));
                lemma_run_same(g, h, on_one_or_more(g, c, i).0, ch, f);
            },
            Expression::NotPredicate(ch) => {
                assert(on_not(h, c, i) == on_not(g, c, i));
                lemma_run_same(g, h, on_not(g, c, i).0, ch, f);
            },
            Expression::AndPredicate(ch) => {
                assert(on_and(h, c, i) == on_and(g, c, i));
                lemma_run_same(g, h, on_and(g, c, i).0, ch, f);
            },
            _ => {
                assert(on_other(h, c) == on_other(g, c));
            },
        }
    }
}

/// The order of the rules does not matter: when `h` holds the rules of `g`
/// (no two of them named alike) in another order, `h` can be analysed when
/// `g` can, and each rule gets the same warnings in both. The report of `h`
/// is thus that of `g` with its blocks of warnings in the new order.
pub proof fn law_rule_order(g: AGrammar, h: AGrammar, p: Seq<int>)
    requires
        g.wf(),
        names_distinct(g),
        reordered(g, h, p),
    ensures
        h.wf(),
        rules_walk_ok(h) == rules_walk_ok(g),
        forall|j: int| 0 <= j < h.rules@.len() ==> #[trigger] rule_report(h, j) == rule_report(g, p[j]),
{
    lemma_reordered(g, h, p);
    let n = g.exprs@.len();
    assert forall|j: int| 0 <= j < h.rules@.len() implies #[trigger] rule_report(h, j) == rule_report(
        g,
        p[j],
    ) by {
        assert(h.rules@[j] == g.rules@[p[j]]);
        assert(g.rules@[p[j]].expr_idx < n);
        lemma_run_same(g, h, cleared(), g.rules@[p[j]].expr_idx, n);
    }
    assert forall|j: int| 0 <= j < h.rules@.len() implies walk_ok(h, #[trigger] h.rules@[j].expr_idx, h.exprs@.len())
        == walk_ok(g, g.rules@[p[j]].expr_idx, n) by {
        assert(h.rules@[j] == g.rules@[p[j]]);
        assert(g.rules@[p[j]].expr_idx < n);
        lemma_walk_ok_same(g, h, g.rules@[p[j]].expr_idx, n);
    }
    if rules_walk_ok(g) {
        assert forall|j: int| 0 <= j < h.rules@.len() implies walk_ok(h, #[trigger] h.rules@[j].expr_idx, h.exprs@.len()) by {
            assert(walk_ok(g, g.rules@[p[j]].expr_idx, n));
        }
    }
    if rules_walk_ok(h) {
        assert forall|r: int| 0 <= r < g.rules@.len() implies walk_ok(g, #[trigger] g.rules@[r].expr_idx, n) by {
            // rule `r` of `g` is taken by some rule of `h`
            let taken = g.rules@[r];
            assert(exists|j: int| 0 <= j < p.len() && #[trigger] p[j] == r);
            let j = choose|j: int| 0 <= j < p.len() && #[trigger] p[j] == r;
            assert(walk_ok(h, h.rules@[j].expr_idx, h.exprs@.len()));
        }
    }
}


/// Once a chain ends within `fuel` expressions, more fuel changes nothing.
pub proof fn lemma_run_fuel(g: AGrammar, c: Counters, i: usize, fuel: nat, more: nat)
    requires
        walk_ok(g, i, fuel),
        fuel <= more,
    ensures
        walk_ok(g, i, more),
        run(g, c, i, more) == run(g, c, i, fuel),
    decreases fuel,
{
    let f = (fuel - 1) as nat;
    let m = (more - 1) as nat;
    match g.exprs@[i as int] {
        Expression::NonTerminalSymbol(id) => lemma_run_fuel(g, c, g.rule_expr(id), f, m),
        Expression::ZeroOrMore(ch) => lemma_run_fuel(g, on_zero_or_more(g, c, i).0, ch, f, m),
        Expression::OneOrMore(ch) => lemma_run_fuel(g, on_one_or_more(g, c, i).0, ch, f, m),
        Expression::NotPredicate(ch) => lemma_run_fuel(g, on_not(g, c, i).0, ch, f, m),
        Expression::AndPredicate(ch) => lemma_run_fuel(g, on_and(g, c, i).0, ch, f, m),
        _ => {},
    }
}

/// A rule call does nothing by itself: the chain from a call ends exactly
/// when the chain from the called rule's expression does, and following it
/// gives the same counters and warnings.
pub proof fn law_call_transparent(g: AGrammar, c: Counters, i: usize, fuel: nat)
    requires
        g.exprs@[i as int] is NonTerminalSymbol,
        walk_ok(g, i, fuel),
    ensures
        walk_ok(g, next_in_chain(g, i), fuel),
        run(g, c, i, fuel) == run(g, c, next_in_chain(g, i), fuel),
{
    lemma_run_fuel(g, c, next_in_chain(g, i), (fuel - 1) as nat, fuel);
}


/// The count of the run of operators (`+` when `plus` holds, `&`
/// otherwise) and the last one counted.
pub open spec fn run_count(plus: bool, c: Counters) -> (nat, usize) {
    if plus {
        c.oom_oom
    } else {
        c.and_and
    }
}

/// The kind of warning on a run of operators.
pub open spec fn run_kind(plus: bool) -> WarningKind {
    if plus {
        WarningKind::OneOrMoreOneOrMore
    } else {
        WarningKind::AndAnd
    }
}

proof fn lemma_counters_next(g: AGrammar, t: Counters, i: usize, x: nat)
    ensures
        counters_at(g, t, i, x + 1) == step(g, counters_at(g, t, i, x), nth_in_chain(g, i, x)).0,
{
    lemma_counters_split(g, t, i, x, 1);
    let tx = counters_at(g, t, i, x);
    let z = nth_in_chain(g, i, x);
    assert(counters_at(g, tx, z, 1) == counters_at(g, step(g, tx, z).0, next_in_chain(g, z), 0));
}

/// Nothing of a run is counted at its first operator.
proof fn lemma_count_starts_zero(g: AGrammar, i: usize, plus: bool, k: nat)
    requires
        forall|j: nat|
            j < k && (forall|s: nat| j < s < k ==> (#[trigger] expr_at(g, i, s)) is NonTerminalSymbol)
                ==> !run_op(plus, #[trigger] expr_at(g, i, j)),
    ensures
        run_count(plus, counters_at(g, cleared(), i, k)).0 == 0,
    decreases k,
{
    if k > 0 {
        let x = (k - 1) as nat;
        lemma_counters_next(g, cleared(), i, x);
        assert(!run_op(plus, expr_at(g, i, x)));
        if expr_at(g, i, x) is NonTerminalSymbol {
            assert forall|j: nat|
                j < x && (forall|s: nat| j < s < x ==> (#[trigger] expr_at(g, i, s)) is NonTerminalSymbol)
                    implies !run_op(plus, #[trigger] expr_at(g, i, j)) by {
                assert forall|s: nat| j < s < k implies (#[trigger] expr_at(g, i, s)) is NonTerminalSymbol by {
                    if s < x {
                        assert(expr_at(g, i, s) is NonTerminalSymbol);
                    }
                }
            }
            lemma_count_starts_zero(g, i, plus, x);
        }
    }
}

/// Along a run, its operators are counted, and the last one counted is the
/// last one met.
proof fn lemma_count_run(g: AGrammar, i: usize, plus: bool, k: nat, l: nat, e: nat, x: nat)
    requires
        maximal_run(g, i, plus, k, l, e),
        k < x <= l + 1,
    ensures
        run_count(plus, counters_at(g, cleared(), i, x)).0 >= 1,
        x == l + 1 ==> run_count(plus, counters_at(g, cleared(), i, x)).0 >= 2,
        x == l + 1 ==> run_count(plus, counters_at(g, cleared(), i, x)).1 == nth_in_chain(g, i, l),
    decreases x,
{
    let y = (x - 1) as nat;
    lemma_counters_next(g, cleared(), i, y);
    if y == k {
        lemma_count_starts_zero(g, i, plus, k);
    } else {
        lemma_count_run(g, i, plus, k, l, e, y);
        assert(run_op(plus, expr_at(g, i, y)) || expr_at(g, i, y) is NonTerminalSymbol);
    }
}

/// After the run, rule calls change no counter.
proof fn lemma_count_calls(g: AGrammar, i: usize, plus: bool, k: nat, l: nat, e: nat, x: nat)
    requires
        maximal_run(g, i, plus, k, l, e),
        l < x <= e,
    ensures
        counters_at(g, cleared(), i, x) == counters_at(g, cleared(), i, l + 1),
    decreases x,
{
    if x > l + 1 {
        let y = (x - 1) as nat;
        lemma_count_calls(g, i, plus, k, l, e, y);
        lemma_counters_next(g, cleared(), i, y);
        assert(expr_at(g, i, y) is NonTerminalSymbol);
    }
}

/// The expression that ends a run of two or more operators gives the
/// warning on the last of them.
proof fn lemma_count_closed(g: AGrammar, plus: bool, c: Counters, z: usize, fuel: nat)
    requires
        fuel > 0,
        run_count(plus, c).0 >= 2,
        !run_op(plus, g.exprs@[z as int]),
        !(g.exprs@[z as int] is NonTerminalSymbol),
    ensures
        has_such(run(g, c, z, fuel).1, is_warning(warn_at(g, run_kind(plus), run_count(plus, c).1 as int))),
{
    let w0 = warn_at(g, run_kind(plus), run_count(plus, c).1 as int);
    let p = is_warning(w0);
    let ws = if is_link(g.exprs@[z as int]) {
        step(g, c, z).1
    } else {
        run(g, c, z, fuel).1
    };
    let aa = and_and_report(g, c);
    let oo = oom_oom_report(g, c);
    match g.exprs@[z as int] {
        Expression::ZeroOrMore(_) => {
            assert(ws == aa + oo);
            if plus {
                assert(p(ws[aa.len() as int]));
            } else {
                assert(p(ws[0]));
            }
        },
        Expression::OneOrMore(_) => {
            let oz = oom_zom_report(g, c);
            assert(ws == oz + aa);
            assert(p(ws[oz.len() as int]));
        },
        Expression::NotPredicate(_) => {
            let front = ws.subrange(0, ws.len() - aa.len() - oo.len());
            assert(ws =~= front + aa + oo);
            if plus {
                assert(p(ws[(front.len() + aa.len()) as int]));
            } else {
                assert(p(ws[front.len() as int]));
            }
        },
        Expression::AndPredicate(_) => {
            let front = ws.subrange(0, ws.len() - oo.len());
            assert(ws =~= front + oo);
            assert(p(ws[front.len() as int]));
        },
        _ => {
            assert(ws == aa + oo);
            if plus {
                assert(p(ws[aa.len() as int]));
            } else {
                assert(p(ws[0]));
            }
        },
    }
    if is_link(g.exprs@[z as int]) {
        lemma_step_warns(g, c, z, fuel, p);
    }
}

/// One warning per run: in the chain of a rule, a run of two or more `&`
/// (of two or more `+` when `plus` holds), with only rule calls among them
/// and none of the same operator reached through calls only right before
/// or right after it, gets a warning on the last operator of the run.
pub proof fn law_run_reported(g: AGrammar, r: int, plus: bool, k: nat, l: nat, e: nat)
    requires
        g.wf(),
        rules_walk_ok(g),
        0 <= r < g.rules@.len(),
        links_before(g, g.rules@[r].expr_idx, k),
        maximal_run(g, g.rules@[r].expr_idx, plus, k, l, e),
    ensures
        chaining_report(g, g.rules@.len()).contains(
            warn_at(g, run_kind(plus), nth_in_chain(g, g.rules@[r].expr_idx, l) as int),
        ),
{
    let root = g.rules@[r].expr_idx;
    let n = g.exprs@.len();
    let w0 = warn_at(g, run_kind(plus), nth_in_chain(g, root, l) as int);
    let p = is_warning(w0);
    assert forall|s: nat| s < e implies is_link(#[trigger] g.exprs@[nth_in_chain(g, root, s) as int]) by {
        if s >= k {
            if s == k || s == l {
                assert(run_op(plus, expr_at(g, root, s)));
            } else if s < l {
                assert(run_op(plus, expr_at(g, root, s)) || expr_at(g, root, s) is NonTerminalSymbol);
            } else {
                assert(expr_at(g, root, s) is NonTerminalSymbol);
            }
        }
    }
    lemma_count_run(g, root, plus, k, l, e, l + 1);
    lemma_count_calls(g, root, plus, k, l, e, e);
    let ce = counters_at(g, cleared(), root, e);
    assert(walk_ok(g, root, n));
    lemma_walk_ok_ends(g, root, n);
    lemma_walk_ends_after(g, root, n, e);
    lemma_count_closed(g, plus, ce, nth_in_chain(g, root, e), (n - e) as nat);
    lemma_rule_step(g, r, e, p);
    lemma_such_contains(chaining_report(g, g.rules@.len()), w0);
}


/// Every `&` met on the chain of a rule gives the note on the expression
/// just before it.
pub proof fn law_and_note_reported(g: AGrammar, r: int, k: nat)
    requires
        g.wf(),
        rules_walk_ok(g),
        0 <= r < g.rules@.len(),
        links_before(g, g.rules@[r].expr_idx, k),
        expr_at(g, g.rules@[r].expr_idx, k) is AndPredicate,
    ensures
        chaining_report(g, g.rules@.len()).contains(
            warn_at(
                g,
                WarningKind::AndPredicateNote,
                nth_in_chain(g, g.rules@[r].expr_idx, k) - 1,
            ),
        ),
{
    let root = g.rules@[r].expr_idx;
    let n = g.exprs@.len();
    let a = nth_in_chain(g, root, k);
    let w0 = warn_at(g, WarningKind::AndPredicateNote, a - 1);
    let p = is_warning(w0);
    let ca = counters_at(g, cleared(), root, k);
    assert(walk_ok(g, root, n));
    lemma_walk_ok_ends(g, root, n);
    lemma_walk_ends_after(g, root, n, k);
    let ws = step(g, ca, a).1;
    let front = warn_if(ca.not_and + 1 >= 2, warn_at(g, WarningKind::NotAnd, a as int));
    assert(ws[front.len() as int] == w0);
    assert(p(ws[front.len() as int]));
    lemma_step_warns(g, ca, a, (n - k) as nat, p);
    lemma_rule_step(g, r, k, p);
    lemma_such_contains(chaining_report(g, g.rules@.len()), w0);
}

} // verus!
