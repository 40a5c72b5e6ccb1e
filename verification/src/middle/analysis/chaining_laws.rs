//! What the analysis of useless chains guarantees: each pattern that it is
//! meant to find, wherever it stands in the chain of a rule, gives a
//! warning of its kind; for `!(!e)`, for runs of `&` or `+`, for a run of
//! `&` or `!` closed by the other, and for a run of `*` closed by a `+`,
//! the warning covers the exact part of the source stated below; a chain
//! without such a pattern gives none; and what a rule gets depends neither
//! on the order of the rules nor on the rule calls along its chain.
use vstd::prelude::*;

use crate::middle::analysis::ast::{
    lemma_reordered, names_distinct, reordered, same_calls, AGrammar, Expression, Warning,
    WarningKind,
};
use crate::middle::analysis::chain::{
    calls_after,
    count_in_chain,
    is_operator,
    has_kind,
    has_such,
    is_warning,
    kind_is,
    lemma_such_contains,
    lemma_first_kind,
    lemma_has_such_concat,
    is_link,
    lemma_calls_are_links,
    lemma_has_kind_concat,
    lemma_links_shift,
    lemma_next_below,
    lemma_walk_ends_after,
    lemma_walk_ends_same,
    expr_at,
    maximal_run,
    run_op,
    links_before,
    next_in_chain,
    nth_in_chain,
    walk_ends,
};
use crate::middle::analysis::useless_chaining::{
    chaining_report,
    empty_trail,
    on_and,
    on_not,
    on_one_or_more,
    on_other,
    on_zero_or_more,
    rule_report,
    rules_walk_end,
    run,
    verify_and_and,
    verify_oom_oom,
    warn_between,
    warn_if,
    Trail,
};

verus! {

/// What one expression of a chain does to what is remembered and to the
/// warnings.
pub open spec fn step(g: AGrammar, t: Trail, i: usize) -> (Trail, Seq<Warning>) {
    match g.exprs@[i as int] {
        Expression::NonTerminalSymbol(_) => (t, seq![]),
        Expression::ZeroOrMore(_) => on_zero_or_more(g, t, i),
        Expression::OneOrMore(ch) => on_one_or_more(g, t, i, ch),
        Expression::NotPredicate(ch) => on_not(g, t, i, ch),
        Expression::AndPredicate(ch) => on_and(g, t, i, ch),
        _ => on_other(g, t),
    }
}

/// What is remembered after the first `k` expressions of the chain from `i`.
pub open spec fn trail_at(g: AGrammar, t: Trail, i: usize, k: nat) -> Trail
    decreases k,
{
    if k == 0 {
        t
    } else {
        trail_at(g, step(g, t, i).0, next_in_chain(g, i), (k - 1) as nat)
    }
}

proof fn lemma_run_link(g: AGrammar, t: Trail, i: usize, fuel: nat)
    requires
        fuel > 0,
        is_link(g.exprs@[i as int]),
    ensures
        run(g, t, i, fuel).1 == step(g, t, i).1 + run(
            g,
            step(g, t, i).0,
            next_in_chain(g, i),
            (fuel - 1) as nat,
        ).1,
{
    if g.exprs@[i as int] is NonTerminalSymbol {
        let rest = run(g, t, next_in_chain(g, i), (fuel - 1) as nat).1;
        assert(Seq::<Warning>::empty() + rest =~= rest);
    }
}

proof fn lemma_run_suffix(g: AGrammar, t: Trail, i: usize, fuel: nat, k: nat, p: spec_fn(Warning) -> bool)
    requires
        links_before(g, i, k),
        k < fuel,
        has_such(
            run(g, trail_at(g, t, i, k), nth_in_chain(g, i, k), (fuel - k) as nat).1,
            p,
        ),
    ensures
        has_such(run(g, t, i, fuel).1, p),
    decreases k,
{
    if k > 0 {
        lemma_links_shift(g, i, k);
        let j = next_in_chain(g, i);
        let t1 = step(g, t, i).0;
        assert((fuel - k) as nat == ((fuel - 1) as nat - (k - 1) as nat) as nat);
        lemma_run_suffix(g, t1, j, (fuel - 1) as nat, (k - 1) as nat, p);
        lemma_run_link(g, t, i, fuel);
        lemma_has_such_concat(step(g, t, i).1, run(g, t1, j, (fuel - 1) as nat).1, p);
    }
}

proof fn lemma_trail_split(g: AGrammar, t: Trail, i: usize, k: nat, m: nat)
    ensures
        trail_at(g, t, i, k + m) == trail_at(g, trail_at(g, t, i, k), nth_in_chain(g, i, k), m),
    decreases k,
{
    if k > 0 {
        lemma_trail_split(g, step(g, t, i).0, next_in_chain(g, i), (k - 1) as nat, m);
        assert((k + m - 1) as nat == (k - 1) as nat + m);
    }
}

proof fn lemma_calls_keep_trail(g: AGrammar, t: Trail, i: usize, m: nat)
    requires
        m >= 1,
        calls_after(g, i, m),
    ensures
        trail_at(g, t, i, m) == step(g, t, i).0,
    decreases m,
{
    if m > 1 {
        let p = (m - 1) as nat;
        lemma_calls_keep_trail(g, t, i, p);
        lemma_trail_split(g, t, i, p, 1);
        assert(p + 1 == m);
        let j = nth_in_chain(g, i, p);
        let x = trail_at(g, t, i, p);
        assert(g.exprs@[j as int] is NonTerminalSymbol);
        assert(step(g, x, j).0 == x);
        assert(trail_at(g, step(g, x, j).0, next_in_chain(g, j), 0) == step(g, x, j).0);
        assert(trail_at(g, x, j, 1) == trail_at(g, step(g, x, j).0, next_in_chain(g, j), 0));
    } else {
        assert(trail_at(g, step(g, t, i).0, next_in_chain(g, i), 0) == step(g, t, i).0);
    }
}

/// The warnings of a pair of links `m` steps apart, the second reached
/// from the first through rule calls only, are warnings of the chain.
proof fn lemma_pair(g: AGrammar, t: Trail, a: usize, fuel: nat, m: nat, p: spec_fn(Warning) -> bool)
    requires
        walk_ends(g, a, fuel),
        m >= 1,
        is_link(g.exprs@[a as int]),
        calls_after(g, a, m),
        is_link(g.exprs@[nth_in_chain(g, a, m) as int]),
    ensures
        m < fuel,
        walk_ends(g, nth_in_chain(g, a, m), (fuel - m) as nat),
        has_such(run(g, step(g, t, a).0, nth_in_chain(g, a, m), (fuel - m) as nat).1, p)
            ==> has_such(run(g, t, a, fuel).1, p),
{
    lemma_calls_are_links(g, a, m);
    lemma_walk_ends_after(g, a, fuel, m);
    lemma_calls_keep_trail(g, t, a, m);
    if has_such(run(g, step(g, t, a).0, nth_in_chain(g, a, m), (fuel - m) as nat).1, p) {
        lemma_run_suffix(g, t, a, fuel, m, p);
    }
}

/// The warnings of a rule are warnings of the grammar.
proof fn lemma_report_has_rule(g: AGrammar, n: nat, r: int, p: spec_fn(Warning) -> bool)
    requires
        0 <= r < n,
        has_such(rule_report(g, r), p),
    ensures
        has_such(chaining_report(g, n), p),
    decreases n,
{
    if r < n - 1 {
        lemma_report_has_rule(g, (n - 1) as nat, r, p);
    }
    lemma_has_such_concat(chaining_report(g, (n - 1) as nat), rule_report(g, n - 1), p);
}

/// A warning given at step `k` of the chain of rule `r` is a warning of the
/// grammar.
proof fn lemma_rule_step(g: AGrammar, r: int, k: nat, p: spec_fn(Warning) -> bool)
    requires
        rules_walk_end(g),
        0 <= r < g.rules@.len(),
        links_before(g, g.rules@[r].expr_idx, k),
        has_such(
            run(
                g,
                trail_at(g, empty_trail(), g.rules@[r].expr_idx, k),
                nth_in_chain(g, g.rules@[r].expr_idx, k),
                (g.exprs@.len() - k) as nat,
            ).1,
            p,
        ),
    ensures
        has_such(chaining_report(g, g.rules@.len()), p),
{
    let root = g.rules@[r].expr_idx;
    assert(walk_ends(g, root, g.exprs@.len()));
    lemma_walk_ends_after(g, root, g.exprs@.len(), k);
    lemma_run_suffix(g, empty_trail(), root, g.exprs@.len(), k, p);
    lemma_report_has_rule(g, g.rules@.len(), r, p);
}

/// A warning given on a link is a warning of the chain from it.
proof fn lemma_step_warns(g: AGrammar, t: Trail, b: usize, fuel: nat, p: spec_fn(Warning) -> bool)
    requires
        fuel > 0,
        is_link(g.exprs@[b as int]),
        has_such(step(g, t, b).1, p),
    ensures
        has_such(run(g, t, b, fuel).1, p),
{
    lemma_run_link(g, t, b, fuel);
    lemma_has_such_concat(
        step(g, t, b).1,
        run(g, step(g, t, b).0, next_in_chain(g, b), (fuel - 1) as nat).1,
        p,
    );
}

/// With two or more `&` remembered, the rest of a chain gives a warning on
/// them.
proof fn lemma_pending_and_and(g: AGrammar, t: Trail, i: usize, fuel: nat)
    requires
        t.and_and.len() >= 2,
        walk_ends(g, i, fuel),
    ensures
        has_kind(run(g, t, i, fuel).1, WarningKind::AndAnd),
    decreases fuel,
{
    let kind = WarningKind::AndAnd;
    let f = (fuel - 1) as nat;
    let w = verify_and_and(g, t).1;
    assert(w[0].kind == kind);
    assert(has_kind(w, kind));
    match g.exprs@[i as int] {
        Expression::NonTerminalSymbol(id) => {
            lemma_pending_and_and(g, t, g.rule_expr(id), f);
        },
        Expression::ZeroOrMore(ch) => {
            let t0 = Trail { oom_zom: t.oom_zom.push(i), ..t };
            assert(verify_and_and(g, t0).1 == w);
            let (t1, w1) = verify_and_and(g, t0);
            lemma_has_kind_concat(w1, verify_oom_oom(g, t1).1, kind);
            lemma_step_warns(g, t, i, fuel, kind_is(kind));
        },
        Expression::OneOrMore(ch) => {
            let oz = t.oom_zom;
            let t0 = Trail {
                oom_zom: if oz.len() > 0 {
                    oz.remove(0)
                } else {
                    oz
                },
                oom_oom: t.oom_oom.push((i, ch)),
                ..t
            };
            assert(verify_and_and(g, t0).1 == w);
            let w0 = on_one_or_more(g, t, i, ch).1.subrange(
                0,
                on_one_or_more(g, t, i, ch).1.len() - w.len(),
            );
            assert(on_one_or_more(g, t, i, ch).1 =~= w0 + w);
            lemma_has_kind_concat(w0, w, kind);
            lemma_step_warns(g, t, i, fuel, kind_is(kind));
        },
        Expression::NotPredicate(ch) => {
            let (s, ws) = on_not(g, t, i, ch);
            let nn = t.not_not;
            let nn1 = if nn.len() > 0 {
                nn.remove(0)
            } else {
                nn
            };
            let t0 = Trail { not_not: nn1.push(i), not_and: t.not_and.push(i), ..t };
            let (t1, w1) = verify_and_and(g, t0);
            assert(w1 == w);
            let w_nn = ws.subrange(0, ws.len() - w1.len() - verify_oom_oom(g, t1).1.len());
            assert(ws =~= w_nn + w1 + verify_oom_oom(g, t1).1);
            lemma_has_kind_concat(w_nn, w1, kind);
            lemma_has_kind_concat(w_nn + w1, verify_oom_oom(g, t1).1, kind);
            lemma_step_warns(g, t, i, fuel, kind_is(kind));
        },
        Expression::AndPredicate(ch) => {
            let t1 = on_and(g, t, i, ch).0;
            assert(t1.and_and.len() >= 2);
            lemma_pending_and_and(g, t1, ch, f);
            lemma_run_link(g, t, i, fuel);
            lemma_has_kind_concat(step(g, t, i).1, run(g, t1, ch, f).1, kind);
        },
        _ => {
            let (t1, w1) = verify_and_and(g, t);
            lemma_has_kind_concat(w1, verify_oom_oom(g, t1).1, kind);
        },
    }
}

/// With two or more `+` remembered, the rest of a chain gives a warning on
/// them.
proof fn lemma_pending_oom_oom(g: AGrammar, t: Trail, i: usize, fuel: nat)
    requires
        t.oom_oom.len() >= 2,
        walk_ends(g, i, fuel),
    ensures
        has_kind(run(g, t, i, fuel).1, WarningKind::OneOrMoreOneOrMore),
    decreases fuel,
{
    let kind = WarningKind::OneOrMoreOneOrMore;
    let f = (fuel - 1) as nat;
    match g.exprs@[i as int] {
        Expression::NonTerminalSymbol(id) => {
            lemma_pending_oom_oom(g, t, g.rule_expr(id), f);
        },
        Expression::ZeroOrMore(ch) => {
            let t0 = Trail { oom_zom: t.oom_zom.push(i), ..t };
            let (t1, w1) = verify_and_and(g, t0);
            let w2 = verify_oom_oom(g, t1).1;
            assert(w2[0].kind == kind);
            lemma_has_kind_concat(w1, w2, kind);
            lemma_step_warns(g, t, i, fuel, kind_is(kind));
        },
        Expression::OneOrMore(ch) => {
            let t1 = on_one_or_more(g, t, i, ch).0;
            assert(t1.oom_oom.len() >= 2);
            lemma_pending_oom_oom(g, t1, ch, f);
            lemma_run_link(g, t, i, fuel);
            lemma_has_kind_concat(step(g, t, i).1, run(g, t1, ch, f).1, kind);
        },
        Expression::NotPredicate(ch) => {
            let (s, ws) = on_not(g, t, i, ch);
            let nn = t.not_not;
            let nn1 = if nn.len() > 0 {
                nn.remove(0)
            } else {
                nn
            };
            let t0 = Trail { not_not: nn1.push(i), not_and: t.not_and.push(i), ..t };
            let (t1, w1) = verify_and_and(g, t0);
            let w2 = verify_oom_oom(g, t1).1;
            assert(w2[0].kind == kind);
            let w_front = ws.subrange(0, ws.len() - w2.len());
            assert(ws =~= w_front + w2);
            lemma_has_kind_concat(w_front, w2, kind);
            lemma_step_warns(g, t, i, fuel, kind_is(kind));
        },
        Expression::AndPredicate(ch) => {
            let (s, ws) = on_and(g, t, i, ch);
            let t0 = Trail {
                and_and: t.and_and.push((i, ch)),
                and_not: t.and_not.push(i),
                ..t
            };
            let w1 = verify_oom_oom(g, t0).1;
            assert(w1[0].kind == kind);
            let w_front = ws.subrange(0, ws.len() - w1.len());
            assert(ws =~= w_front + w1);
            lemma_has_kind_concat(w_front, w1, kind);
            lemma_step_warns(g, t, i, fuel, kind_is(kind));
        },
        _ => {
            let (t1, w1) = verify_and_and(g, t);
            let w2 = verify_oom_oom(g, t1).1;
            assert(w2[0].kind == kind);
            lemma_has_kind_concat(w1, w2, kind);
        },
    }
}

/// The conditions shared by the laws below: the chain of rule `r` has links
/// for its first `k` steps, step `k` holds `a`, and the expression `m`
/// steps after `a` is reached from it through rule calls only.
pub open spec fn pair_in_rule(g: AGrammar, r: int, k: nat, m: nat) -> bool {
    let root = g.rules@[r].expr_idx;
    let a = nth_in_chain(g, root, k);
    &&& g.wf()
    &&& rules_walk_end(g)
    &&& 0 <= r < g.rules@.len()
    &&& links_before(g, root, k)
    &&& m >= 1
    &&& calls_after(g, a, m)
}

/// The first expression of the pair, at step `k` of the chain of rule `r`.
pub open spec fn pair_first(g: AGrammar, r: int, k: nat) -> Expression {
    g.exprs@[nth_in_chain(g, g.rules@[r].expr_idx, k) as int]
}

/// The second expression of the pair, `m` steps after the first.
pub open spec fn pair_second(g: AGrammar, r: int, k: nat, m: nat) -> Expression {
    g.exprs@[nth_in_chain(g, nth_in_chain(g, g.rules@[r].expr_idx, k), m) as int]
}

proof fn lemma_pair_in_rule(g: AGrammar, r: int, k: nat, m: nat, p: spec_fn(Warning) -> bool)
    requires
        pair_in_rule(g, r, k, m),
        is_link(pair_first(g, r, k)),
        is_link(pair_second(g, r, k, m)),
        ({
            let root = g.rules@[r].expr_idx;
            let a = nth_in_chain(g, root, k);
            let ta = trail_at(g, empty_trail(), root, k);
            forall|fuel: nat|
                fuel > 0 && walk_ends(g, nth_in_chain(g, a, m), fuel) ==> has_such(
                    #[trigger] run(g, step(g, ta, a).0, nth_in_chain(g, a, m), fuel).1,
                    p,
                )
        }),
    ensures
        has_such(chaining_report(g, g.rules@.len()), p),
{
    let root = g.rules@[r].expr_idx;
    let a = nth_in_chain(g, root, k);
    let ta = trail_at(g, empty_trail(), root, k);
    let n = g.exprs@.len();
    assert(walk_ends(g, root, n));
    lemma_walk_ends_after(g, root, n, k);
    let fa = (n - k) as nat;
    lemma_pair(g, ta, a, fa, m, p);
    assert(walk_ends(g, nth_in_chain(g, a, m), (fa - m) as nat));
    assert(has_such(run(g, step(g, ta, a).0, nth_in_chain(g, a, m), (fa - m) as nat).1, p));
    lemma_rule_step(g, r, k, p);
}

/// The index of the first expression of the pair.
pub open spec fn pair_first_index(g: AGrammar, r: int, k: nat) -> usize {
    nth_in_chain(g, g.rules@[r].expr_idx, k)
}

/// The index of the second expression of the pair.
pub open spec fn pair_second_index(g: AGrammar, r: int, k: nat, m: nat) -> usize {
    nth_in_chain(g, pair_first_index(g, r, k), m)
}

/// A chain remembers at most one `!` for `!(!e)` at any time.
proof fn lemma_one_not_remembered(g: AGrammar, t: Trail, i: usize, k: nat)
    requires
        t.not_not.len() <= 1,
    ensures
        trail_at(g, t, i, k).not_not.len() <= 1,
    decreases k,
{
    if k > 0 {
        let t1 = step(g, t, i).0;
        if let Expression::NotPredicate(ch) = g.exprs@[i as int] {
            if t.not_not.len() > 0 {
                assert(t.not_not.remove(0).len() == 0);
            }
        }
        assert(t1.not_not.len() <= 1);
        lemma_one_not_remembered(g, t1, next_in_chain(g, i), (k - 1) as nat);
    }
}

/// `!(!e)`: a `!` in the chain of a rule whose operand leads, through rule
/// calls only, to another `!` gives a warning of that kind, over the source
/// from the start of the first `!` to the start of the operand of the
/// second.
pub proof fn law_not_not_reported(g: AGrammar, r: int, k: nat, m: nat)
    requires
        pair_in_rule(g, r, k, m),
        pair_first(g, r, k) is NotPredicate,
        pair_second(g, r, k, m) is NotPredicate,
    ensures
        chaining_report(g, g.rules@.len()).contains(
            warn_between(
                WarningKind::NotNot,
                g.spans@[pair_first_index(g, r, k) as int].lo,
                g.spans@[next_in_chain(g, pair_second_index(g, r, k, m)) as int].lo,
            ),
        ),
{
    let kind = WarningKind::NotNot;
    let root = g.rules@[r].expr_idx;
    let a = nth_in_chain(g, root, k);
    let ta = trail_at(g, empty_trail(), root, k);
    let tb = step(g, ta, a).0;
    let b = nth_in_chain(g, a, m);
    let w0 = warn_between(kind, g.spans@[a as int].lo, g.spans@[next_in_chain(g, b) as int].lo);
    let p = is_warning(w0);
    lemma_one_not_remembered(g, empty_trail(), root, k);
    if ta.not_not.len() > 0 {
        assert(ta.not_not.remove(0).len() == 0);
    }
    assert(tb.not_not =~= seq![a]);
    assert forall|fuel: nat| fuel > 0 && walk_ends(g, b, fuel) implies has_such(
        #[trigger] run(g, tb, b, fuel).1,
        p,
    ) by {
        let ws = step(g, tb, b).1;
        assert(ws[0] == w0);
        assert(p(ws[0]));
        lemma_step_warns(g, tb, b, fuel, p);
    }
    lemma_pair_in_rule(g, r, k, m, p);
    lemma_such_contains(chaining_report(g, g.rules@.len()), w0);
}

/// `&(!e)`: an `&` in the chain of a rule whose operand leads, through rule
/// calls only, to a `!` gives a warning of that kind.
pub proof fn law_and_not_reported(g: AGrammar, r: int, k: nat, m: nat)
    requires
        pair_in_rule(g, r, k, m),
        pair_first(g, r, k) is AndPredicate,
        pair_second(g, r, k, m) is NotPredicate,
    ensures
        has_kind(chaining_report(g, g.rules@.len()), WarningKind::AndNot),
{
    let kind = WarningKind::AndNot;
    let root = g.rules@[r].expr_idx;
    let a = nth_in_chain(g, root, k);
    let ta = trail_at(g, empty_trail(), root, k);
    let tb = step(g, ta, a).0;
    let b = nth_in_chain(g, a, m);
    assert(tb.and_not.len() > 0);
    assert forall|fuel: nat| fuel > 0 && walk_ends(g, b, fuel) implies has_kind(
        #[trigger] run(g, tb, b, fuel).1,
        kind,
    ) by {
        let ws = step(g, tb, b).1;
        let nn = tb.not_not;
        let w_nn = if nn.len() > 0 {
            seq![ws[0]]
        } else {
            Seq::<Warning>::empty()
        };
        let rest = ws.subrange(w_nn.len() as int, ws.len() as int);
        assert(ws =~= w_nn + rest);
        assert(rest[0].kind == kind);
        lemma_has_kind_concat(w_nn, rest, kind);
        lemma_step_warns(g, tb, b, fuel, kind_is(kind));
    }
    lemma_pair_in_rule(g, r, k, m, kind_is(kind));
}

/// `!(&e)`: a `!` in the chain of a rule whose operand leads, through rule
/// calls only, to an `&` gives a warning of that kind.
pub proof fn law_not_and_reported(g: AGrammar, r: int, k: nat, m: nat)
    requires
        pair_in_rule(g, r, k, m),
        pair_first(g, r, k) is NotPredicate,
        pair_second(g, r, k, m) is AndPredicate,
    ensures
        has_kind(chaining_report(g, g.rules@.len()), WarningKind::NotAnd),
{
    let kind = WarningKind::NotAnd;
    let root = g.rules@[r].expr_idx;
    let a = nth_in_chain(g, root, k);
    let ta = trail_at(g, empty_trail(), root, k);
    let tb = step(g, ta, a).0;
    let b = nth_in_chain(g, a, m);
    assert(tb.not_and.len() > 0);
    assert forall|fuel: nat| fuel > 0 && walk_ends(g, b, fuel) implies has_kind(
        #[trigger] run(g, tb, b, fuel).1,
        kind,
    ) by {
        let ws = step(g, tb, b).1;
        assert(ws[0].kind == kind);
        lemma_step_warns(g, tb, b, fuel, kind_is(kind));
    }
    lemma_pair_in_rule(g, r, k, m, kind_is(kind));
}

/// `&(&e)`: an `&` in the chain of a rule whose operand leads, through rule
/// calls only, to another `&` gives a warning of that kind.
pub proof fn law_and_and_reported(g: AGrammar, r: int, k: nat, m: nat)
    requires
        pair_in_rule(g, r, k, m),
        pair_first(g, r, k) is AndPredicate,
        pair_second(g, r, k, m) is AndPredicate,
    ensures
        has_kind(chaining_report(g, g.rules@.len()), WarningKind::AndAnd),
{
    let kind = WarningKind::AndAnd;
    let root = g.rules@[r].expr_idx;
    let a = nth_in_chain(g, root, k);
    let ta = trail_at(g, empty_trail(), root, k);
    let tb = step(g, ta, a).0;
    let b = nth_in_chain(g, a, m);
    assert(tb.and_and.len() > 0);
    assert forall|fuel: nat| fuel > 0 && walk_ends(g, b, fuel) implies has_kind(
        #[trigger] run(g, tb, b, fuel).1,
        kind,
    ) by {
        let ch = next_in_chain(g, b);
        let tc = step(g, tb, b).0;
        assert(tc.and_and.len() >= 2);
        lemma_pending_and_and(g, tc, ch, (fuel - 1) as nat);
        lemma_run_link(g, tb, b, fuel);
        lemma_has_kind_concat(step(g, tb, b).1, run(g, tc, ch, (fuel - 1) as nat).1, kind);
    }
    lemma_pair_in_rule(g, r, k, m, kind_is(kind));
}

/// `(e+)+`: a `+` in the chain of a rule whose operand leads, through rule
/// calls only, to another `+` gives a warning of that kind.
pub proof fn law_oom_oom_reported(g: AGrammar, r: int, k: nat, m: nat)
    requires
        pair_in_rule(g, r, k, m),
        pair_first(g, r, k) is OneOrMore,
        pair_second(g, r, k, m) is OneOrMore,
    ensures
        has_kind(chaining_report(g, g.rules@.len()), WarningKind::OneOrMoreOneOrMore),
{
    let kind = WarningKind::OneOrMoreOneOrMore;
    let root = g.rules@[r].expr_idx;
    let a = nth_in_chain(g, root, k);
    let ta = trail_at(g, empty_trail(), root, k);
    let tb = step(g, ta, a).0;
    let b = nth_in_chain(g, a, m);
    assert(tb.oom_oom.len() > 0);
    assert forall|fuel: nat| fuel > 0 && walk_ends(g, b, fuel) implies has_kind(
        #[trigger] run(g, tb, b, fuel).1,
        kind,
    ) by {
        let ch = next_in_chain(g, b);
        let tc = step(g, tb, b).0;
        assert(tc.oom_oom.len() >= 2);
        lemma_pending_oom_oom(g, tc, ch, (fuel - 1) as nat);
        lemma_run_link(g, tb, b, fuel);
        lemma_has_kind_concat(step(g, tb, b).1, run(g, tc, ch, (fuel - 1) as nat).1, kind);
    }
    lemma_pair_in_rule(g, r, k, m, kind_is(kind));
}

/// `(e+)*`: a `*` in the chain of a rule whose operand leads, through rule
/// calls only, to a `+` gives a warning of that kind.
pub proof fn law_oom_zom_reported(g: AGrammar, r: int, k: nat, m: nat)
    requires
        pair_in_rule(g, r, k, m),
        pair_first(g, r, k) is ZeroOrMore,
        pair_second(g, r, k, m) is OneOrMore,
    ensures
        has_kind(chaining_report(g, g.rules@.len()), WarningKind::OneOrMoreZeroOrMore),
{
    let kind = WarningKind::OneOrMoreZeroOrMore;
    let root = g.rules@[r].expr_idx;
    let a = nth_in_chain(g, root, k);
    let ta = trail_at(g, empty_trail(), root, k);
    let tb = step(g, ta, a).0;
    let b = nth_in_chain(g, a, m);
    assert(tb.oom_zom.len() > 0);
    assert forall|fuel: nat| fuel > 0 && walk_ends(g, b, fuel) implies has_kind(
        #[trigger] run(g, tb, b, fuel).1,
        kind,
    ) by {
        let ws = step(g, tb, b).1;
        assert(ws[0].kind == kind);
        lemma_step_warns(g, tb, b, fuel, kind_is(kind));
    }
    lemma_pair_in_rule(g, r, k, m, kind_is(kind));
}

proof fn lemma_quiet_rest(g: AGrammar, t: Trail, i: usize, fuel: nat)
    requires
        t.and_and.len() <= 1,
        t.oom_oom.len() <= 1,
        count_in_chain(g, i, fuel, |e: Expression| is_operator(e)) == 0,
    ensures
        run(g, t, i, fuel).1 == Seq::<Warning>::empty(),
    decreases fuel,
{
    if fuel > 0 {
        match g.exprs@[i as int] {
            Expression::NonTerminalSymbol(id) => {
                lemma_quiet_rest(g, t, g.rule_expr(id), (fuel - 1) as nat);
            },
            Expression::ZeroOrMore(_) => {},
            Expression::OneOrMore(_) => {},
            Expression::NotPredicate(_) => {},
            Expression::AndPredicate(_) => {},
            _ => {
                assert(on_other(g, t).1 =~= Seq::<Warning>::empty());
            },
        }
    }
}

proof fn lemma_quiet(g: AGrammar, i: usize, fuel: nat)
    requires
        count_in_chain(g, i, fuel, |e: Expression| is_operator(e)) <= 1,
    ensures
        run(g, empty_trail(), i, fuel).1 == Seq::<Warning>::empty(),
    decreases fuel,
{
    let t = empty_trail();
    if fuel > 0 {
        let f = (fuel - 1) as nat;
        match g.exprs@[i as int] {
            Expression::NonTerminalSymbol(id) => {
                lemma_quiet(g, g.rule_expr(id), f);
            },
            Expression::ZeroOrMore(ch) => {
                let (t1, w1) = on_zero_or_more(g, t, i);
                assert(w1 =~= Seq::<Warning>::empty());
                lemma_quiet_rest(g, t1, ch, f);
            },
            Expression::OneOrMore(ch) => {
                let (t1, w1) = on_one_or_more(g, t, i, ch);
                assert(w1 =~= Seq::<Warning>::empty());
                lemma_quiet_rest(g, t1, ch, f);
            },
            Expression::NotPredicate(ch) => {
                let (t1, w1) = on_not(g, t, i, ch);
                assert(w1 =~= Seq::<Warning>::empty());
                lemma_quiet_rest(g, t1, ch, f);
            },
            Expression::AndPredicate(ch) => {
                let (t1, w1) = on_and(g, t, i, ch);
                assert(w1 =~= Seq::<Warning>::empty());
                lemma_quiet_rest(g, t1, ch, f);
            },
            _ => {
                assert(on_other(g, t).1 =~= Seq::<Warning>::empty());
            },
        }
    }
}

/// No useless chain, no warning: when the chain of every rule goes through
/// at most one predicate or repetition, the analysis reports nothing.
pub proof fn law_single_operators_quiet(g: AGrammar)
    requires
        g.wf(),
        forall|r: int|
            0 <= r < g.rules@.len() ==> count_in_chain(
                g,
                #[trigger] g.rules@[r].expr_idx,
                g.exprs@.len(),
                |e: Expression| is_operator(e),
            ) <= 1,
    ensures
        chaining_report(g, g.rules@.len()) == Seq::<Warning>::empty(),
{
    lemma_quiet_prefix(g, g.rules@.len());
}

proof fn lemma_quiet_prefix(g: AGrammar, n: nat)
    requires
        n <= g.rules@.len(),
        forall|r: int|
            0 <= r < g.rules@.len() ==> count_in_chain(
                g,
                #[trigger] g.rules@[r].expr_idx,
                g.exprs@.len(),
                |e: Expression| is_operator(e),
            ) <= 1,
    ensures
        chaining_report(g, n) == Seq::<Warning>::empty(),
    decreases n,
{
    if n > 0 {
        lemma_quiet_prefix(g, (n - 1) as nat);
        let r = n - 1;
        assert(count_in_chain(g, g.rules@[r].expr_idx, g.exprs@.len(), |e: Expression| is_operator(e)) <= 1);
        lemma_quiet(g, g.rules@[r].expr_idx, g.exprs@.len());
        assert(chaining_report(g, n) =~= Seq::<Warning>::empty());
    }
}


/// Following a chain gives the same in two grammars with the same calls.
proof fn lemma_run_same(g: AGrammar, h: AGrammar, t: Trail, i: usize, fuel: nat)
    requires
        g.wf(),
        same_calls(g, h),
        i < g.exprs@.len(),
    ensures
        run(h, t, i, fuel) == run(g, t, i, fuel),
    decreases fuel,
{
    if fuel > 0 {
        let f = (fuel - 1) as nat;
        lemma_next_below(g, i);
        assert(h.exprs@[i as int] == g.exprs@[i as int]);
        match g.exprs@[i as int] {
            Expression::NonTerminalSymbol(id) => {
                assert(g.has_rule(id));
                lemma_run_same(g, h, t, g.rule_expr(id), f);
            },
            Expression::ZeroOrMore(ch) => {
                assert(on_zero_or_more(h, t, i) == on_zero_or_more(g, t, i));
                lemma_run_same(g, h, on_zero_or_more(g, t, i).0, ch, f);
            },
            Expression::OneOrMore(ch) => {
                assert(on_one_or_more(h, t, i, ch) == on_one_or_more(g, t, i, ch));
                lemma_run_same(g, h, on_one_or_more(g, t, i, ch).0, ch, f);
            },
            Expression::NotPredicate(ch) => {
                assert(on_not(h, t, i, ch) == on_not(g, t, i, ch));
                lemma_run_same(g, h, on_not(g, t, i, ch).0, ch, f);
            },
            Expression::AndPredicate(ch) => {
                assert(on_and(h, t, i, ch) == on_and(g, t, i, ch));
                lemma_run_same(g, h, on_and(g, t, i, ch).0, ch, f);
            },
            _ => {
                assert(on_other(h, t) == on_other(g, t));
            },
        }
    }
}

/// The order of the rules does not matter: when `h` holds the rules of `g`
/// (no two of them named alike) in another order, `h` can be analysed when
/// `g` can, and each rule gets the same warnings in both. The report of `h`
/// is thus that of `g` with its blocks of warnings in the new order.
pub proof fn law_rule_order(g: AGrammar, h: AGrammar, p: Seq<int>)
    requires
        g.wf(),
        names_distinct(g),
        reordered(g, h, p),
    ensures
        h.wf(),
        rules_walk_end(h) == rules_walk_end(g),
        forall|j: int| 0 <= j < h.rules@.len() ==> #[trigger] rule_report(h, j) == rule_report(g, p[j]),
{
    lemma_reordered(g, h, p);
    let n = g.exprs@.len();
    assert forall|j: int| 0 <= j < h.rules@.len() implies #[trigger] rule_report(h, j) == rule_report(
        g,
        p[j],
    ) by {
        assert(h.rules@[j] == g.rules@[p[j]]);
        assert(g.rules@[p[j]].expr_idx < n);
        lemma_run_same(g, h, empty_trail(), g.rules@[p[j]].expr_idx, n);
    }
    assert forall|j: int| 0 <= j < h.rules@.len() implies walk_ends(h, #[trigger] h.rules@[j].expr_idx, h.exprs@.len())
        == walk_ends(g, g.rules@[p[j]].expr_idx, n) by {
        assert(h.rules@[j] == g.rules@[p[j]]);
        assert(g.rules@[p[j]].expr_idx < n);
        lemma_walk_ends_same(g, h, g.rules@[p[j]].expr_idx, n);
    }
    if rules_walk_end(g) {
        assert forall|j: int| 0 <= j < h.rules@.len() implies walk_ends(h, #[trigger] h.rules@[j].expr_idx, h.exprs@.len()) by {
            assert(walk_ends(g, g.rules@[p[j]].expr_idx, n));
        }
    }
    if rules_walk_end(h) {
        assert forall|r: int| 0 <= r < g.rules@.len() implies walk_ends(g, #[trigger] g.rules@[r].expr_idx, n) by {
            // rule `r` of `g` is taken by some rule of `h`
            let taken = g.rules@[r];
            assert(exists|j: int| 0 <= j < p.len() && #[trigger] p[j] == r);
            let j = choose|j: int| 0 <= j < p.len() && #[trigger] p[j] == r;
            assert(walk_ends(h, h.rules@[j].expr_idx, h.exprs@.len()));
        }
    }
}


/// Once a chain ends within `fuel` expressions, more fuel changes nothing.
pub proof fn lemma_run_fuel(g: AGrammar, t: Trail, i: usize, fuel: nat, more: nat)
    requires
        walk_ends(g, i, fuel),
        fuel <= more,
    ensures
        walk_ends(g, i, more),
        run(g, t, i, more) == run(g, t, i, fuel),
    decreases fuel,
{
    let f = (fuel - 1) as nat;
    let m = (more - 1) as nat;
    match g.exprs@[i as int] {
        Expression::NonTerminalSymbol(id) => lemma_run_fuel(g, t, g.rule_expr(id), f, m),
        Expression::ZeroOrMore(ch) => lemma_run_fuel(g, on_zero_or_more(g, t, i).0, ch, f, m),
        Expression::OneOrMore(ch) => lemma_run_fuel(g, on_one_or_more(g, t, i, ch).0, ch, f, m),
        Expression::NotPredicate(ch) => lemma_run_fuel(g, on_not(g, t, i, ch).0, ch, f, m),
        Expression::AndPredicate(ch) => lemma_run_fuel(g, on_and(g, t, i, ch).0, ch, f, m),
        _ => {},
    }
}

/// A rule call does nothing by itself: the chain from a call ends exactly
/// when the chain from the called rule's expression does, and following it
/// gives the same warnings and leaves the same operators remembered.
pub proof fn law_call_transparent(g: AGrammar, t: Trail, i: usize, fuel: nat)
    requires
        g.exprs@[i as int] is NonTerminalSymbol,
        walk_ends(g, i, fuel),
    ensures
        walk_ends(g, next_in_chain(g, i), fuel),
        run(g, t, i, fuel) == run(g, t, next_in_chain(g, i), fuel),
{
    lemma_run_fuel(g, t, next_in_chain(g, i), (fuel - 1) as nat, fuel);
}


/// The operators of the run remembered in `t`, each with its operand.
pub open spec fn run_pairs(plus: bool, t: Trail) -> Seq<(usize, usize)> {
    if plus {
        t.oom_oom
    } else {
        t.and_and
    }
}

/// The warning on a run of operators from `first` to the one whose operand
/// is `operand`: for `&`, from the start of the first to the start of that
/// operand; for `+`, from the end of the first to the end of that operand.
pub open spec fn run_warning(g: AGrammar, plus: bool, first: usize, operand: usize) -> Warning {
    if plus {
        warn_between(
            WarningKind::OneOrMoreOneOrMore,
            g.spans@[first as int].hi,
            g.spans@[operand as int].hi,
        )
    } else {
        warn_between(WarningKind::AndAnd, g.spans@[first as int].lo, g.spans@[operand as int].lo)
    }
}

proof fn lemma_trail_next(g: AGrammar, t: Trail, i: usize, x: nat)
    ensures
        trail_at(g, t, i, x + 1) == step(g, trail_at(g, t, i, x), nth_in_chain(g, i, x)).0,
{
    lemma_trail_split(g, t, i, x, 1);
    let tx = trail_at(g, t, i, x);
    let z = nth_in_chain(g, i, x);
    assert(trail_at(g, tx, z, 1) == trail_at(g, step(g, tx, z).0, next_in_chain(g, z), 0));
}

/// Nothing of a run is remembered at its first operator.
proof fn lemma_run_starts_empty(g: AGrammar, i: usize, plus: bool, k: nat)
    requires
        forall|j: nat|
            j < k && (forall|s: nat| j < s < k ==> (#[trigger] expr_at(g, i, s)) is NonTerminalSymbol)
                ==> !run_op(plus, #[trigger] expr_at(g, i, j)),
    ensures
        run_pairs(plus, trail_at(g, empty_trail(), i, k)).len() == 0,
    decreases k,
{
    if k > 0 {
        let x = (k - 1) as nat;
        let tx = trail_at(g, empty_trail(), i, x);
        let z = nth_in_chain(g, i, x);
        lemma_trail_next(g, empty_trail(), i, x);
        assert(!run_op(plus, expr_at(g, i, x)));
        if expr_at(g, i, x) is NonTerminalSymbol {
            assert forall|j: nat|
                j < x && (forall|s: nat| j < s < x ==> (#[trigger] expr_at(g, i, s)) is NonTerminalSymbol)
                    implies !run_op(plus, #[trigger] expr_at(g, i, j)) by {
                assert forall|s: nat| j < s < k implies (#[trigger] expr_at(g, i, s)) is NonTerminalSymbol by {
                    if s < x {
                        assert(expr_at(g, i, s) is NonTerminalSymbol);
                    }
                }
            }
            lemma_run_starts_empty(g, i, plus, x);
        } else {
            assert(run_pairs(plus, step(g, tx, z).0) =~= Seq::<(usize, usize)>::empty());
        }
    }
}

/// Along a run, its first operator stays first in what is remembered.
proof fn lemma_run_head(g: AGrammar, i: usize, plus: bool, k: nat, l: nat, e: nat, x: nat)
    requires
        maximal_run(g, i, plus, k, l, e),
        k < x <= l + 1,
    ensures
        run_pairs(plus, trail_at(g, empty_trail(), i, x)).len() >= 1,
        run_pairs(plus, trail_at(g, empty_trail(), i, x))[0].0 == nth_in_chain(g, i, k),
        x == l + 1 ==> run_pairs(plus, trail_at(g, empty_trail(), i, x)).len() >= 2,
        x == l + 1 ==> run_pairs(plus, trail_at(g, empty_trail(), i, x)).last() == (
            nth_in_chain(g, i, l),
            next_in_chain(g, nth_in_chain(g, i, l)),
        ),
    decreases x,
{
    let y = (x - 1) as nat;
    let ty = trail_at(g, empty_trail(), i, y);
    let z = nth_in_chain(g, i, y);
    lemma_trail_next(g, empty_trail(), i, y);
    if y == k {
        lemma_run_starts_empty(g, i, plus, k);
    } else {
        lemma_run_head(g, i, plus, k, l, e, y);
        assert(run_op(plus, expr_at(g, i, y)) || expr_at(g, i, y) is NonTerminalSymbol);
    }
}

/// Rule calls change nothing remembered: when steps `l + 1` to `x - 1` of
/// the chain from `i` are calls, what is remembered at step `x` is what is
/// remembered at step `l + 1`.
proof fn lemma_calls_hold(g: AGrammar, i: usize, l: nat, e: nat, x: nat)
    requires
        forall|s: nat| l < s < e ==> (#[trigger] expr_at(g, i, s)) is NonTerminalSymbol,
        l < x <= e,
    ensures
        trail_at(g, empty_trail(), i, x) == trail_at(g, empty_trail(), i, l + 1),
    decreases x,
{
    if x > l + 1 {
        let y = (x - 1) as nat;
        lemma_calls_hold(g, i, l, e, y);
        lemma_trail_next(g, empty_trail(), i, y);
        assert(expr_at(g, i, y) is NonTerminalSymbol);
    }
}

/// Warnings given by a run that ends: the expression that ends it gives the
/// warning on the run.
proof fn lemma_run_closed(g: AGrammar, plus: bool, t: Trail, z: usize, fuel: nat)
    requires
        fuel > 0,
        run_pairs(plus, t).len() >= 2,
        !run_op(plus, g.exprs@[z as int]),
        !(g.exprs@[z as int] is NonTerminalSymbol),
    ensures
        has_such(
            run(g, t, z, fuel).1,
            is_warning(run_warning(g, plus, run_pairs(plus, t)[0].0, run_pairs(plus, t).last().1)),
        ),
{
    let pairs = run_pairs(plus, t);
    let w0 = run_warning(g, plus, pairs[0].0, pairs.last().1);
    let p = is_warning(w0);
    let ws = if is_link(g.exprs@[z as int]) {
        step(g, t, z).1
    } else {
        run(g, t, z, fuel).1
    };
    let wa = verify_and_and(g, t).1;
    let wo = verify_oom_oom(g, verify_and_and(g, t).0).1;
    match g.exprs@[z as int] {
        Expression::ZeroOrMore(_) => {
            let t0 = Trail { oom_zom: t.oom_zom.push(z), ..t };
            let (t1, w1) = verify_and_and(g, t0);
            let w2 = verify_oom_oom(g, t1).1;
            assert(ws == w1 + w2);
            if plus {
                assert(w2[0] == w0);
                assert(ws[w1.len() as int] == w0);
            } else {
                assert(w1[0] == w0);
                assert(ws[0] == w0);
            }
            assert(p(ws[if plus { w1.len() as int } else { 0 }]));
        },
        Expression::OneOrMore(ch) => {
            let oz = t.oom_zom;
            let t0 = Trail {
                oom_zom: if oz.len() > 0 {
                    oz.remove(0)
                } else {
                    oz
                },
                oom_oom: t.oom_oom.push((z, ch)),
                ..t
            };
            let w_front = warn_if(
                oz.len() > 0,
                warn_between(
                    WarningKind::OneOrMoreZeroOrMore,
                    g.spans@[ch as int].hi,
                    g.spans@[oz[0] as int].hi,
                ),
            );
            let w1 = verify_and_and(g, t0).1;
            assert(ws == w_front + w1);
            assert(w1[0] == w0);
            assert(p(ws[w_front.len() as int]));
        },
        Expression::NotPredicate(ch) => {
            let nn = t.not_not;
            let nn1 = if nn.len() > 0 {
                nn.remove(0)
            } else {
                nn
            };
            let t0 = Trail { not_not: nn1.push(z), not_and: t.not_and.push(z), ..t };
            let (t1, w1) = verify_and_and(g, t0);
            let w2 = verify_oom_oom(g, t1).1;
            let w_front = ws.subrange(0, ws.len() - w1.len() - w2.len());
            assert(ws =~= w_front + w1 + w2);
            if plus {
                assert(w2[0] == w0);
                assert(ws[(w_front.len() + w1.len()) as int] == w0);
                assert(p(ws[(w_front.len() + w1.len()) as int]));
            } else {
                assert(w1[0] == w0);
                assert(ws[w_front.len() as int] == w0);
                assert(p(ws[w_front.len() as int]));
            }
        },
        Expression::AndPredicate(ch) => {
            let t0 = Trail {
                and_and: t.and_and.push((z, ch)),
                and_not: t.and_not.push(z),
                ..t
            };
            let w1 = verify_oom_oom(g, t0).1;
            let w_front = ws.subrange(0, ws.len() - w1.len());
            assert(ws =~= w_front + w1);
            assert(w1[0] == w0);
            assert(p(ws[w_front.len() as int]));
        },
        _ => {
            assert(ws == wa + wo);
            if plus {
                assert(wo[0] == w0);
                assert(p(ws[wa.len() as int]));
            } else {
                assert(wa[0] == w0);
                assert(p(ws[0]));
            }
        },
    }
    if is_link(g.exprs@[z as int]) {
        lemma_step_warns(g, t, z, fuel, p);
    }
}


/// One warning per run: in the chain of a rule, a run of two or more `&`
/// (of two or more `+` when `plus` holds), with only rule calls among them
/// and none of the same operator reached through calls only right before
/// or right after it, gets a warning over the source from its first
/// operator to the operand of its last.
pub proof fn law_run_reported(g: AGrammar, r: int, plus: bool, k: nat, l: nat, e: nat)
    requires
        g.wf(),
        rules_walk_end(g),
        0 <= r < g.rules@.len(),
        links_before(g, g.rules@[r].expr_idx, k),
        maximal_run(g, g.rules@[r].expr_idx, plus, k, l, e),
    ensures
        chaining_report(g, g.rules@.len()).contains(
            run_warning(
                g,
                plus,
                nth_in_chain(g, g.rules@[r].expr_idx, k),
                next_in_chain(g, nth_in_chain(g, g.rules@[r].expr_idx, l)),
            ),
        ),
{
    let root = g.rules@[r].expr_idx;
    let n = g.exprs@.len();
    let w0 = run_warning(g, plus, nth_in_chain(g, root, k), next_in_chain(g, nth_in_chain(g, root, l)));
    let p = is_warning(w0);
    assert forall|s: nat| s < e implies is_link(#[trigger] g.exprs@[nth_in_chain(g, root, s) as int]) by {
        if s >= k {
            if s == k || s == l {
                assert(run_op(plus, expr_at(g, root, s)));
            } else if s < l {
                assert(run_op(plus, expr_at(g, root, s)) || expr_at(g, root, s) is NonTerminalSymbol);
            } else {
                assert(expr_at(g, root, s) is NonTerminalSymbol);
            }
        }
    }
    lemma_run_head(g, root, plus, k, l, e, l + 1);
    lemma_calls_hold(g, root, l, e, e);
    let te = trail_at(g, empty_trail(), root, e);
    assert(walk_ends(g, root, n));
    lemma_walk_ends_after(g, root, n, e);
    lemma_run_closed(g, plus, te, nth_in_chain(g, root, e), (n - e) as nat);
    lemma_rule_step(g, r, e, p);
    lemma_such_contains(chaining_report(g, g.rules@.len()), w0);
}


/// `e` opens the pattern: `&` for `&(!e)` when `and_first` holds, `!` for
/// `!(&e)` otherwise.
pub open spec fn lead_op(and_first: bool, e: Expression) -> bool {
    if and_first {
        e is AndPredicate
    } else {
        e is NotPredicate
    }
}

/// `e` closes the pattern: `!` for `&(!e)`, `&` for `!(&e)`.
pub open spec fn closing_op(and_first: bool, e: Expression) -> bool {
    if and_first {
        e is NotPredicate
    } else {
        e is AndPredicate
    }
}

/// The opening operators remembered in `t`.
pub open spec fn led(and_first: bool, t: Trail) -> Seq<usize> {
    if and_first {
        t.and_not
    } else {
        t.not_and
    }
}

/// The warning on the pattern from the opening operator `first` to the
/// closing one whose operand is `operand`: from the start of the one to the
/// start of the other.
pub open spec fn led_warning(g: AGrammar, and_first: bool, first: usize, operand: usize) -> Warning {
    warn_between(
        if and_first {
            WarningKind::AndNot
        } else {
            WarningKind::NotAnd
        },
        g.spans@[first as int].lo,
        g.spans@[operand as int].lo,
    )
}

/// Steps `k` to `l` of the chain from `i` are opening operators of the
/// pattern, with only rule calls among them, that nothing before extends
/// (no opening operator reached through calls only before step `k`), and
/// the expression at step `e`, after only rule calls, closes the pattern.
pub open spec fn led_run(g: AGrammar, i: usize, and_first: bool, k: nat, l: nat, e: nat) -> bool {
    &&& k <= l < e
    &&& lead_op(and_first, expr_at(g, i, k))
    &&& lead_op(and_first, expr_at(g, i, l))
    &&& forall|s: nat|
        k < s < l ==> lead_op(and_first, #[trigger] expr_at(g, i, s)) || expr_at(g, i, s) is NonTerminalSymbol
    &&& forall|s: nat| l < s < e ==> (#[trigger] expr_at(g, i, s)) is NonTerminalSymbol
    &&& closing_op(and_first, expr_at(g, i, e))
    &&& forall|j: nat|
        j < k && (forall|s: nat| j < s < k ==> (#[trigger] expr_at(g, i, s)) is NonTerminalSymbol)
            ==> !lead_op(and_first, #[trigger] expr_at(g, i, j))
}

/// No opening operator is remembered at the first of a run of them.
proof fn lemma_led_starts_empty(g: AGrammar, i: usize, and_first: bool, k: nat)
    requires
        forall|j: nat|
            j < k && (forall|s: nat| j < s < k ==> (#[trigger] expr_at(g, i, s)) is NonTerminalSymbol)
                ==> !lead_op(and_first, #[trigger] expr_at(g, i, j)),
    ensures
        led(and_first, trail_at(g, empty_trail(), i, k)).len() == 0,
    decreases k,
{
    if k > 0 {
        let x = (k - 1) as nat;
        let tx = trail_at(g, empty_trail(), i, x);
        let z = nth_in_chain(g, i, x);
        lemma_trail_next(g, empty_trail(), i, x);
        assert(!lead_op(and_first, expr_at(g, i, x)));
        if expr_at(g, i, x) is NonTerminalSymbol {
            assert forall|j: nat|
                j < x && (forall|s: nat| j < s < x ==> (#[trigger] expr_at(g, i, s)) is NonTerminalSymbol)
                    implies !lead_op(and_first, #[trigger] expr_at(g, i, j)) by {
                assert forall|s: nat| j < s < k implies (#[trigger] expr_at(g, i, s)) is NonTerminalSymbol by {
                    if s < x {
                        assert(expr_at(g, i, s) is NonTerminalSymbol);
                    }
                }
            }
            lemma_led_starts_empty(g, i, and_first, x);
        } else {
            assert(led(and_first, step(g, tx, z).0) =~= Seq::<usize>::empty());
        }
    }
}

/// Along a run of opening operators, the first stays first in what is
/// remembered.
proof fn lemma_led_head(g: AGrammar, i: usize, and_first: bool, k: nat, l: nat, e: nat, x: nat)
    requires
        led_run(g, i, and_first, k, l, e),
        k < x <= l + 1,
    ensures
        led(and_first, trail_at(g, empty_trail(), i, x)).len() >= 1,
        led(and_first, trail_at(g, empty_trail(), i, x))[0] == nth_in_chain(g, i, k),
    decreases x,
{
    let y = (x - 1) as nat;
    lemma_trail_next(g, empty_trail(), i, y);
    if y == k {
        lemma_led_starts_empty(g, i, and_first, k);
    } else {
        lemma_led_head(g, i, and_first, k, l, e, y);
        assert(lead_op(and_first, expr_at(g, i, y)) || expr_at(g, i, y) is NonTerminalSymbol);
    }
}

/// `&(!e)` and `!(&e)` through runs: in the chain of a rule, a run of `&`
/// (of `!` when `and_first` fails), with only rule calls among them and
/// none reached through calls only right before it, that leads through
/// rule calls only to a `!` (to an `&`) gets a warning over the source from
/// the start of the first operator of the run to the start of the operand
/// of the closing one.
pub proof fn law_led_reported(g: AGrammar, r: int, and_first: bool, k: nat, l: nat, e: nat)
    requires
        g.wf(),
        rules_walk_end(g),
        0 <= r < g.rules@.len(),
        links_before(g, g.rules@[r].expr_idx, k),
        led_run(g, g.rules@[r].expr_idx, and_first, k, l, e),
    ensures
        chaining_report(g, g.rules@.len()).contains(
            led_warning(
                g,
                and_first,
                nth_in_chain(g, g.rules@[r].expr_idx, k),
                next_in_chain(g, nth_in_chain(g, g.rules@[r].expr_idx, e)),
            ),
        ),
{
    let root = g.rules@[r].expr_idx;
    let n = g.exprs@.len();
    let z = nth_in_chain(g, root, e);
    let w0 = led_warning(g, and_first, nth_in_chain(g, root, k), next_in_chain(g, z));
    let p = is_warning(w0);
    assert forall|s: nat| s < e implies is_link(#[trigger] g.exprs@[nth_in_chain(g, root, s) as int]) by {
        if s >= k {
            if s == k || s == l {
                assert(lead_op(and_first, expr_at(g, root, s)));
            } else if s < l {
                assert(lead_op(and_first, expr_at(g, root, s)) || expr_at(g, root, s) is NonTerminalSymbol);
            } else {
                assert(expr_at(g, root, s) is NonTerminalSymbol);
            }
        }
    }
    lemma_led_head(g, root, and_first, k, l, e, l + 1);
    lemma_calls_hold(g, root, l, e, e);
    let te = trail_at(g, empty_trail(), root, e);
    assert(walk_ends(g, root, n));
    lemma_walk_ends_after(g, root, n, e);
    let ws = step(g, te, z).1;
    if and_first {
        let nn = te.not_not;
        let w_nn = warn_if(
            nn.len() > 0,
            warn_between(WarningKind::NotNot, g.spans@[nn[0] as int].lo, g.spans@[next_in_chain(g, z) as int].lo),
        );
        assert(ws[w_nn.len() as int] == w0);
        assert(p(ws[w_nn.len() as int]));
    } else {
        assert(ws[0] == w0);
        assert(p(ws[0]));
    }
    lemma_step_warns(g, te, z, (n - e) as nat, p);
    lemma_rule_step(g, r, e, p);
    lemma_such_contains(chaining_report(g, g.rules@.len()), w0);
}


/// Steps `k` to `l` of the chain from `i` are `*`, with only rule calls
/// among them; no `*` is reached before step `k` through rule calls and
/// `+` only; and the expression at step `e`, after only rule calls, is a
/// `+`.
pub open spec fn star_run(g: AGrammar, i: usize, k: nat, l: nat, e: nat) -> bool {
    &&& k <= l < e
    &&& expr_at(g, i, k) is ZeroOrMore
    &&& expr_at(g, i, l) is ZeroOrMore
    &&& forall|s: nat|
        k < s < l ==> (#[trigger] expr_at(g, i, s)) is ZeroOrMore || expr_at(g, i, s) is NonTerminalSymbol
    &&& forall|s: nat| l < s < e ==> (#[trigger] expr_at(g, i, s)) is NonTerminalSymbol
    &&& expr_at(g, i, e) is OneOrMore
    &&& forall|j: nat|
        j < k && (forall|s: nat|
            j < s < k ==> (#[trigger] expr_at(g, i, s)) is NonTerminalSymbol || expr_at(g, i, s) is OneOrMore)
            ==> !(#[trigger] expr_at(g, i, j) is ZeroOrMore)
}

/// No `*` is remembered at the first of a run of them.
proof fn lemma_star_starts_empty(g: AGrammar, i: usize, k: nat)
    requires
        forall|j: nat|
            j < k && (forall|s: nat|
                j < s < k ==> (#[trigger] expr_at(g, i, s)) is NonTerminalSymbol || expr_at(g, i, s) is OneOrMore)
                ==> !(#[trigger] expr_at(g, i, j) is ZeroOrMore),
    ensures
        trail_at(g, empty_trail(), i, k).oom_zom.len() == 0,
    decreases k,
{
    if k > 0 {
        let x = (k - 1) as nat;
        let tx = trail_at(g, empty_trail(), i, x);
        let z = nth_in_chain(g, i, x);
        lemma_trail_next(g, empty_trail(), i, x);
        assert(!(expr_at(g, i, x) is ZeroOrMore));
        if expr_at(g, i, x) is NonTerminalSymbol || expr_at(g, i, x) is OneOrMore {
            assert forall|j: nat|
                j < x && (forall|s: nat|
                    j < s < x ==> (#[trigger] expr_at(g, i, s)) is NonTerminalSymbol || expr_at(g, i, s) is OneOrMore)
                    implies !(#[trigger] expr_at(g, i, j) is ZeroOrMore) by {
                assert forall|s: nat| j < s < k implies (#[trigger] expr_at(g, i, s)) is NonTerminalSymbol
                    || expr_at(g, i, s) is OneOrMore by {
                    if s < x {
                        assert(expr_at(g, i, s) is NonTerminalSymbol || expr_at(g, i, s) is OneOrMore);
                    }
                }
            }
            lemma_star_starts_empty(g, i, x);
        } else {
            assert(step(g, tx, z).0.oom_zom =~= Seq::<usize>::empty());
        }
    }
}

/// Along a run of `*`, the first stays first in what is remembered.
proof fn lemma_star_head(g: AGrammar, i: usize, k: nat, l: nat, e: nat, x: nat)
    requires
        star_run(g, i, k, l, e),
        k < x <= l + 1,
    ensures
        trail_at(g, empty_trail(), i, x).oom_zom.len() >= 1,
        trail_at(g, empty_trail(), i, x).oom_zom[0] == nth_in_chain(g, i, k),
    decreases x,
{
    let y = (x - 1) as nat;
    lemma_trail_next(g, empty_trail(), i, y);
    if y == k {
        lemma_star_starts_empty(g, i, k);
    } else {
        lemma_star_head(g, i, k, l, e, y);
        assert(expr_at(g, i, y) is ZeroOrMore || expr_at(g, i, y) is NonTerminalSymbol);
    }
}

/// `(e+)*` through runs: in the chain of a rule, a run of `*`, with only
/// rule calls among them and no `*` reached before it through rule calls
/// and `+` only, that leads through rule calls only to a `+` gets a warning
/// over the source from the end of the operand of the `+` to the end of the
/// first `*` of the run.
pub proof fn law_star_run_reported(g: AGrammar, r: int, k: nat, l: nat, e: nat)
    requires
        g.wf(),
        rules_walk_end(g),
        0 <= r < g.rules@.len(),
        links_before(g, g.rules@[r].expr_idx, k),
        star_run(g, g.rules@[r].expr_idx, k, l, e),
    ensures
        chaining_report(g, g.rules@.len()).contains(
            warn_between(
                WarningKind::OneOrMoreZeroOrMore,
                g.spans@[next_in_chain(g, nth_in_chain(g, g.rules@[r].expr_idx, e)) as int].hi,
                g.spans@[nth_in_chain(g, g.rules@[r].expr_idx, k) as int].hi,
            ),
        ),
{
    let root = g.rules@[r].expr_idx;
    let n = g.exprs@.len();
    let z = nth_in_chain(g, root, e);
    let w0 = warn_between(
        WarningKind::OneOrMoreZeroOrMore,
        g.spans@[next_in_chain(g, z) as int].hi,
        g.spans@[nth_in_chain(g, root, k) as int].hi,
    );
    let p = is_warning(w0);
    assert forall|s: nat| s < e implies is_link(#[trigger] g.exprs@[nth_in_chain(g, root, s) as int]) by {
        if s >= k {
            if s == k || s == l {
                assert(expr_at(g, root, s) is ZeroOrMore);
            } else if s < l {
                assert(expr_at(g, root, s) is ZeroOrMore || expr_at(g, root, s) is NonTerminalSymbol);
            } else {
                assert(expr_at(g, root, s) is NonTerminalSymbol);
            }
        }
    }
    lemma_star_head(g, root, k, l, e, l + 1);
    lemma_calls_hold(g, root, l, e, e);
    let te = trail_at(g, empty_trail(), root, e);
    assert(walk_ends(g, root, n));
    lemma_walk_ends_after(g, root, n, e);
    let ws = step(g, te, z).1;
    assert(ws[0] == w0);
    assert(p(ws[0]));
    lemma_step_warns(g, te, z, (n - e) as nat, p);
    lemma_rule_step(g, r, e, p);
    lemma_such_contains(chaining_report(g, g.rules@.len()), w0);
}

} // verus!
