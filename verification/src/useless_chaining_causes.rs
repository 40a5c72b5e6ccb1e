//! Every warning of the counting analysis of useless chains has a cause: a
//! pattern of its kind on the chain of the rule that it was given for,
//! whose operators are linked through rule calls (and, for some patterns,
//! more operators of the same kind); the warning names the operator that
//! the pattern ends with (for `(e+)*`, the `*`; for the note on an `&`, the
//! expression before that `&`).
use vstd::prelude::*;

use crate::middle::analysis::ast::{AGrammar, Expression, Warning, WarningKind};
use crate::middle::analysis::chain::{
    allowed,
    lemma_contains_concat,
    lemma_leads_one,
    lemma_leads_step,
    lemma_on_chain_next,
    lemma_on_chain_root,
    leads_to,
    next_in_chain,
    on_chain,
    Via,
};
use crate::middle::analysis::chaining_causes::{is_op, Op};
use crate::useless_chaining::{
    and_and_report,
    chaining_report,
    cleared,
    on_and,
    on_not,
    on_one_or_more,
    on_other,
    on_zero_or_more,
    oom_oom_report,
    oom_zom_report,
    rule_report,
    run,
    warn_at,
    warn_if,
    Counters,
};

verus! {

/// `w` is the warning that the counting analysis gives on the pattern that
/// goes from the operator `x` to the operator `y`: `!` to `!` or to `&`
/// through calls and `!`; `&` to `&` or to `!` through calls and `&`; `+`
/// to `+` through calls and `+` (each on `y`); `*` to `+` through calls and
/// `*` (on `x`); and the note that an `&` at `x` gives on the expression
/// before it.
pub open spec fn counted_pattern(g: AGrammar, w: Warning, x: usize, y: usize) -> bool {
    let ex = g.exprs@[x as int];
    let ey = g.exprs@[y as int];
    match w.kind {
        WarningKind::NotNot => ex is NotPredicate && ey is NotPredicate && leads_to(g, x, y, Via::Nots)
            && w == warn_at(g, WarningKind::NotNot, y as int),
        WarningKind::NotAnd => ex is NotPredicate && ey is AndPredicate && leads_to(g, x, y, Via::Nots)
            && w == warn_at(g, WarningKind::NotAnd, y as int),
        WarningKind::AndAnd => ex is AndPredicate && ey is AndPredicate && leads_to(g, x, y, Via::Ands)
            && w == warn_at(g, WarningKind::AndAnd, y as int),
        WarningKind::AndNot => ex is AndPredicate && ey is NotPredicate && leads_to(g, x, y, Via::Ands)
            && w == warn_at(g, WarningKind::AndNot, y as int),
        WarningKind::OneOrMoreOneOrMore => ex is OneOrMore && ey is OneOrMore && leads_to(
            g,
            x,
            y,
            Via::Pluses,
        ) && w == warn_at(g, WarningKind::OneOrMoreOneOrMore, y as int),
        WarningKind::OneOrMoreZeroOrMore => ex is ZeroOrMore && ey is OneOrMore && leads_to(
            g,
            x,
            y,
            Via::Stars,
        ) && w == warn_at(g, WarningKind::OneOrMoreZeroOrMore, x as int),
        WarningKind::AndPredicateNote => ex is AndPredicate && w == warn_at(
            g,
            WarningKind::AndPredicateNote,
            x - 1,
        ),
        _ => false,
    }
}

/// Some pattern on the chain from `root` gives the warning `w`.
pub open spec fn counted_cause(g: AGrammar, root: usize, w: Warning) -> bool {
    exists|x: usize, y: usize| on_chain(g, root, x) && #[trigger] counted_pattern(g, w, x, y)
}

/// Every warning of `ws` has its pattern on the chain from `root`.
pub open spec fn all_caused(g: AGrammar, root: usize, ws: Seq<Warning>) -> bool {
    forall|w: Warning| ws.contains(w) ==> counted_cause(g, root, w)
}

/// Some operator `op` on the chain from `root` leads to `i` through what
/// `via` allows.
pub open spec fn marked(g: AGrammar, root: usize, op: Op, i: usize, via: Via) -> bool {
    exists|x: usize|
        is_op(op, g.exprs@[x as int]) && on_chain(g, root, x) && #[trigger] leads_to(g, x, i, via)
}

/// The operator `op` at `y`, on the chain from `root`, leads to `i` through
/// what `via` allows.
pub open spec fn last_ok(g: AGrammar, root: usize, y: usize, op: Op, i: usize, via: Via) -> bool {
    is_op(op, g.exprs@[y as int]) && on_chain(g, root, y) && leads_to(g, y, i, via)
}

/// Each counter that is not zero at `i`, on the chain from `root`, counts
/// operators met before that still lead to `i`.
pub open spec fn counters_ok(g: AGrammar, root: usize, c: Counters, i: usize) -> bool {
    &&& c.not_not >= 1 ==> marked(g, root, Op::Not, i, Via::Nots)
    &&& c.not_and >= 1 ==> marked(g, root, Op::Not, i, Via::Nots)
    &&& c.and_not >= 1 ==> marked(g, root, Op::And, i, Via::Ands)
    &&& c.and_and.0 >= 1 ==> last_ok(g, root, c.and_and.1, Op::And, i, Via::Ands)
    &&& c.and_and.0 >= 2 ==> marked(g, root, Op::And, c.and_and.1, Via::Ands)
    &&& c.oom_oom.0 >= 1 ==> last_ok(g, root, c.oom_oom.1, Op::Plus, i, Via::Pluses)
    &&& c.oom_oom.0 >= 2 ==> marked(g, root, Op::Plus, c.oom_oom.1, Via::Pluses)
    &&& c.oom_zom.0 >= 1 ==> last_ok(g, root, c.oom_zom.1, Op::Star, i, Via::Stars)
}

proof fn lemma_marked_advance(g: AGrammar, root: usize, op: Op, i: usize, via: Via)
    requires
        marked(g, root, op, i, via),
        allowed(via, g.exprs@[i as int]),
    ensures
        marked(g, root, op, next_in_chain(g, i), via),
{
    let x = choose|x: usize|
        is_op(op, g.exprs@[x as int]) && on_chain(g, root, x) && #[trigger] leads_to(g, x, i, via);
    lemma_leads_step(g, x, i, via);
}

proof fn lemma_marked_here(g: AGrammar, root: usize, op: Op, i: usize, via: Via)
    requires
        is_op(op, g.exprs@[i as int]),
        on_chain(g, root, i),
    ensures
        marked(g, root, op, next_in_chain(g, i), via),
        last_ok(g, root, i, op, next_in_chain(g, i), via),
{
    lemma_leads_one(g, i, via);
}

proof fn lemma_concat_caused(g: AGrammar, root: usize, a: Seq<Warning>, b: Seq<Warning>)
    requires
        all_caused(g, root, a),
        all_caused(g, root, b),
    ensures
        all_caused(g, root, a + b),
{
    assert forall|w: Warning| (a + b).contains(w) implies counted_cause(g, root, w) by {
        lemma_contains_concat(a, b, w);
    }
}

proof fn lemma_one_caused(g: AGrammar, root: usize, cond: bool, w0: Warning, x: usize, y: usize)
    requires
        cond ==> on_chain(g, root, x) && counted_pattern(g, w0, x, y),
    ensures
        all_caused(g, root, warn_if(cond, w0)),
{
    assert forall|w: Warning| warn_if(cond, w0).contains(w) implies counted_cause(g, root, w) by {
        let j = choose|j: int| 0 <= j < warn_if(cond, w0).len() && warn_if(cond, w0)[j] == w;
        assert(w == w0);
    }
}

proof fn lemma_reports_caused(g: AGrammar, root: usize, c: Counters, i: usize)
    requires
        counters_ok(g, root, c, i),
    ensures
        all_caused(g, root, and_and_report(g, c)),
        all_caused(g, root, oom_oom_report(g, c)),
{
    let aa = c.and_and;
    let w_aa = warn_at(g, WarningKind::AndAnd, aa.1 as int);
    if aa.0 >= 2 {
        let x = choose|x: usize|
            is_op(Op::And, g.exprs@[x as int]) && on_chain(g, root, x) && #[trigger] leads_to(
                g,
                x,
                aa.1,
                Via::Ands,
            );
        assert(counted_pattern(g, w_aa, x, aa.1));
        lemma_one_caused(g, root, true, w_aa, x, aa.1);
    } else {
        lemma_one_caused(g, root, false, w_aa, 0, 0);
    }
    let oo = c.oom_oom;
    let w_oo = warn_at(g, WarningKind::OneOrMoreOneOrMore, oo.1 as int);
    if oo.0 >= 2 {
        let x = choose|x: usize|
            is_op(Op::Plus, g.exprs@[x as int]) && on_chain(g, root, x) && #[trigger] leads_to(
                g,
                x,
                oo.1,
                Via::Pluses,
            );
        assert(counted_pattern(g, w_oo, x, oo.1));
        lemma_one_caused(g, root, true, w_oo, x, oo.1);
    } else {
        lemma_one_caused(g, root, false, w_oo, 0, 0);
    }
}

proof fn lemma_run_caused(g: AGrammar, root: usize, c: Counters, i: usize, fuel: nat)
    requires
        counters_ok(g, root, c, i),
        on_chain(g, root, i),
    ensures
        all_caused(g, root, run(g, c, i, fuel).1),
    decreases fuel,
{
    if fuel == 0 {
        assert(run(g, c, i, fuel).1 =~= Seq::<Warning>::empty());
        return;
    }
    let f = (fuel - 1) as nat;
    let j = next_in_chain(g, i);
    lemma_on_chain_next(g, root, i);
    lemma_reports_caused(g, root, c, i);
    let aa = and_and_report(g, c);
    let oo = oom_oom_report(g, c);
    match g.exprs@[i as int] {
        Expression::NonTerminalSymbol(id) => {
            if c.not_not >= 1 || c.not_and >= 1 {
                lemma_marked_advance(g, root, Op::Not, i, Via::Nots);
            }
            if c.and_not >= 1 {
                lemma_marked_advance(g, root, Op::And, i, Via::Ands);
            }
            if c.and_and.0 >= 1 {
                lemma_leads_step(g, c.and_and.1, i, Via::Ands);
            }
            if c.oom_oom.0 >= 1 {
                lemma_leads_step(g, c.oom_oom.1, i, Via::Pluses);
            }
            if c.oom_zom.0 >= 1 {
                lemma_leads_step(g, c.oom_zom.1, i, Via::Stars);
            }
            lemma_run_caused(g, root, c, j, f);
        },
        Expression::ZeroOrMore(ch) => {
            let (c1, w1) = on_zero_or_more(g, c, i);
            lemma_concat_caused(g, root, aa, oo);
            assert(w1 == aa + oo);
            lemma_marked_here(g, root, Op::Star, i, Via::Stars);
            lemma_run_caused(g, root, c1, ch, f);
            lemma_concat_caused(g, root, w1, run(g, c1, ch, f).1);
        },
        Expression::OneOrMore(ch) => {
            let (c1, w1) = on_one_or_more(g, c, i);
            let oz = oom_zom_report(g, c);
            let w_oz = warn_at(g, WarningKind::OneOrMoreZeroOrMore, c.oom_zom.1 as int);
            if c.oom_zom.0 >= 1 {
                assert(counted_pattern(g, w_oz, c.oom_zom.1, i));
            }
            lemma_one_caused(g, root, c.oom_zom.0 >= 1, w_oz, c.oom_zom.1, i);
            lemma_concat_caused(g, root, oz, aa);
            assert(w1 == oz + aa);
            lemma_marked_here(g, root, Op::Plus, i, Via::Pluses);
            if c.oom_oom.0 >= 1 {
                assert(leads_to(g, c.oom_oom.1, i, Via::Pluses));
                assert(marked(g, root, Op::Plus, i, Via::Pluses));
            }
            lemma_run_caused(g, root, c1, ch, f);
            lemma_concat_caused(g, root, w1, run(g, c1, ch, f).1);
        },
        Expression::NotPredicate(ch) => {
            let (c1, w1) = on_not(g, c, i);
            let w_nn = warn_at(g, WarningKind::NotNot, i as int);
            let w_an = warn_at(g, WarningKind::AndNot, i as int);
            if c.not_not + 1 >= 2 {
                let x = choose|x: usize|
                    is_op(Op::Not, g.exprs@[x as int]) && on_chain(g, root, x) && #[trigger] leads_to(
                        g,
                        x,
                        i,
                        Via::Nots,
                    );
                assert(counted_pattern(g, w_nn, x, i));
                lemma_one_caused(g, root, true, w_nn, x, i);
            } else {
                lemma_one_caused(g, root, false, w_nn, 0, 0);
            }
            if c.and_not + 1 >= 2 {
                let x = choose|x: usize|
                    is_op(Op::And, g.exprs@[x as int]) && on_chain(g, root, x) && #[trigger] leads_to(
                        g,
                        x,
                        i,
                        Via::Ands,
                    );
                assert(counted_pattern(g, w_an, x, i));
                lemma_one_caused(g, root, true, w_an, x, i);
            } else {
                lemma_one_caused(g, root, false, w_an, 0, 0);
            }
            let a = warn_if(c.not_not + 1 >= 2, w_nn);
            let b = warn_if(c.and_not + 1 >= 2, w_an);
            lemma_concat_caused(g, root, a, b);
            lemma_concat_caused(g, root, a + b, aa);
            lemma_concat_caused(g, root, a + b + aa, oo);
            assert(w1 == a + b + aa + oo);
            lemma_marked_here(g, root, Op::Not, i, Via::Nots);
            lemma_run_caused(g, root, c1, ch, f);
            lemma_concat_caused(g, root, w1, run(g, c1, ch, f).1);
        },
        Expression::AndPredicate(ch) => {
            let (c1, w1) = on_and(g, c, i);
            let w_na = warn_at(g, WarningKind::NotAnd, i as int);
            let w_note = warn_at(g, WarningKind::AndPredicateNote, i - 1);
            if c.not_and + 1 >= 2 {
                let x = choose|x: usize|
                    is_op(Op::Not, g.exprs@[x as int]) && on_chain(g, root, x) && #[trigger] leads_to(
                        g,
                        x,
                        i,
                        Via::Nots,
                    );
                assert(counted_pattern(g, w_na, x, i));
                lemma_one_caused(g, root, true, w_na, x, i);
            } else {
                lemma_one_caused(g, root, false, w_na, 0, 0);
            }
            assert(counted_pattern(g, w_note, i, i));
            lemma_one_caused(g, root, true, w_note, i, i);
            let a = warn_if(c.not_and + 1 >= 2, w_na);
            assert(seq![w_note] == warn_if(true, w_note));
            lemma_concat_caused(g, root, a, seq![w_note]);
            lemma_concat_caused(g, root, a + seq![w_note], oo);
            assert(w1 == a + seq![w_note] + oo);
            lemma_marked_here(g, root, Op::And, i, Via::Ands);
            if c.and_and.0 >= 1 {
                assert(leads_to(g, c.and_and.1, i, Via::Ands));
                assert(marked(g, root, Op::And, i, Via::Ands));
            }
            lemma_run_caused(g, root, c1, ch, f);
            lemma_concat_caused(g, root, w1, run(g, c1, ch, f).1);
        },
        _ => {
            lemma_concat_caused(g, root, aa, oo);
            assert(run(g, c, i, fuel).1 == aa + oo);
        },
    }
}

/// Every warning that a rule gets from the counting analysis has its cause
/// on the chain of that rule: a pattern of the warning's kind between
/// operators of the chain, and the warning names the operator stated by
/// `counted_pattern`. In particular a chain without an `&` gets no `!(&e)`
/// warning, and a `!(&e)` warning always names an `&`.
pub proof fn law_rule_warnings_have_causes(g: AGrammar, r: int)
    requires
        0 <= r < g.rules@.len(),
    ensures
        forall|w: Warning|
            #[trigger] rule_report(g, r).contains(w) ==> counted_cause(g, g.rules@[r].expr_idx, w),
{
    let root = g.rules@[r].expr_idx;
    lemma_on_chain_root(g, root);
    lemma_run_caused(g, root, cleared(), root, g.exprs@.len());
}

/// Every warning of the report of a grammar has its cause on the chain of
/// one of its rules.
pub proof fn law_warnings_have_causes(g: AGrammar, n: nat)
    requires
        n <= g.rules@.len(),
    ensures
        forall|w: Warning|
            #[trigger] chaining_report(g, n).contains(w) ==> exists|r: int|
                0 <= r < n && counted_cause(g, g.rules@[r].expr_idx, w),
    decreases n,
{
    if n > 0 {
        law_warnings_have_causes(g, (n - 1) as nat);
        law_rule_warnings_have_causes(g, n - 1);
        assert forall|w: Warning| #[trigger] chaining_report(g, n).contains(w) implies exists|r: int|
            0 <= r < n && counted_cause(g, g.rules@[r].expr_idx, w) by {
            lemma_contains_concat(chaining_report(g, (n - 1) as nat), rule_report(g, n - 1), w);
            if rule_report(g, n - 1).contains(w) {
                assert(counted_cause(g, g.rules@[n - 1].expr_idx, w));
            } else {
                assert(chaining_report(g, (n - 1) as nat).contains(w));
            }
        }
    }
}

} // verus!
