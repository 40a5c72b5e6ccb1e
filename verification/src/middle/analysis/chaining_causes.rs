//! Every warning of the analysis of useless chains has a cause: a pattern
//! of its kind on the chain of the rule that it was given for, whose two
//! operators are linked through rule calls (and, for some patterns, more
//! operators of the same kind), and the warning covers the source that
//! stands between them. No warning is given on a chain without its
//! pattern.
use vstd::prelude::*;

use crate::middle::analysis::ast::{AGrammar, Expression, Warning, WarningKind};
use crate::middle::analysis::chain::{
    allowed,
    lemma_contains_concat,
    lemma_leads_one,
    lemma_leads_step,
    lemma_on_chain_next,
    lemma_on_chain_root,
    leads_to,
    next_in_chain,
    on_chain,
    Via,
};
use crate::middle::analysis::useless_chaining::{
    chaining_report,
    empty_trail,
    on_and,
    on_not,
    on_one_or_more,
    on_other,
    on_zero_or_more,
    rule_report,
    run,
    verify_and_and,
    verify_oom_oom,
    warn_between,
    warn_if,
    Trail,
};

verus! {

/// An operator of a pattern.
pub enum Op {
    Not,
    And,
    Plus,
    Star,
}

/// `e` is the operator `op`.
pub open spec fn is_op(op: Op, e: Expression) -> bool {
    match op {
        Op::Not => e is NotPredicate,
        Op::And => e is AndPredicate,
        Op::Plus => e is OneOrMore,
        Op::Star => e is ZeroOrMore,
    }
}

/// `w` is the warning on the pattern that goes from the operator `x` to the
/// operator `y`: `!` to `!` through calls only; `&` to `&`, `!` to `&` or
/// `&` to `!` through calls and operators like the first; `+` to `+`
/// through calls and `+`; `*` to `+` through calls, `*` and `+`. The
/// warning covers the source from the start of `x` to the start of the
/// operand of `y` (for `+` to `+`, their ends; for `*` to `+`, from the end
/// of the operand of `y` to the end of `x`).
pub open spec fn pattern_warning(g: AGrammar, w: Warning, x: usize, y: usize) -> bool {
    let ex = g.exprs@[x as int];
    let ey = g.exprs@[y as int];
    let operand = next_in_chain(g, y);
    match w.kind {
        WarningKind::NotNot => ex is NotPredicate && ey is NotPredicate && leads_to(g, x, y, Via::Calls)
            && w == warn_between(
            WarningKind::NotNot,
            g.spans@[x as int].lo,
            g.spans@[operand as int].lo,
        ),
        WarningKind::AndAnd => ex is AndPredicate && ey is AndPredicate && leads_to(g, x, y, Via::Ands)
            && w == warn_between(
            WarningKind::AndAnd,
            g.spans@[x as int].lo,
            g.spans@[operand as int].lo,
        ),
        WarningKind::NotAnd => ex is NotPredicate && ey is AndPredicate && leads_to(g, x, y, Via::Nots)
            && w == warn_between(
            WarningKind::NotAnd,
            g.spans@[x as int].lo,
            g.spans@[operand as int].lo,
        ),
        WarningKind::AndNot => ex is AndPredicate && ey is NotPredicate && leads_to(g, x, y, Via::Ands)
            && w == warn_between(
            WarningKind::AndNot,
            g.spans@[x as int].lo,
            g.spans@[operand as int].lo,
        ),
        WarningKind::OneOrMoreOneOrMore => ex is OneOrMore && ey is OneOrMore && leads_to(
            g,
            x,
            y,
            Via::Pluses,
        ) && w == warn_between(
            WarningKind::OneOrMoreOneOrMore,
            g.spans@[x as int].hi,
            g.spans@[operand as int].hi,
        ),
        WarningKind::OneOrMoreZeroOrMore => ex is ZeroOrMore && ey is OneOrMore && leads_to(
            g,
            x,
            y,
            Via::StarsPluses,
        ) && w == warn_between(
            WarningKind::OneOrMoreZeroOrMore,
            g.spans@[operand as int].hi,
            g.spans@[x as int].hi,
        ),
        _ => false,
    }
}

/// Some pattern on the chain from `root` gives the warning `w`.
pub open spec fn justified(g: AGrammar, root: usize, w: Warning) -> bool {
    exists|x: usize, y: usize| on_chain(g, root, x) && #[trigger] pattern_warning(g, w, x, y)
}

/// Every warning of `ws` has its pattern on the chain from `root`.
pub open spec fn all_justified(g: AGrammar, root: usize, ws: Seq<Warning>) -> bool {
    forall|w: Warning| ws.contains(w) ==> justified(g, root, w)
}

/// Every operator of `s` is `op`, stands on the chain from `root`, and
/// leads to `i` through what `via` allows.
pub open spec fn marks_ok(g: AGrammar, root: usize, s: Seq<usize>, op: Op, i: usize, via: Via) -> bool {
    forall|k: int|
        0 <= k < s.len() ==> is_op(op, g.exprs@[#[trigger] s[k] as int]) && on_chain(g, root, s[k])
            && leads_to(g, s[k], i, via)
}

/// As `marks_ok` for the operators of `s`, each held with its operand, the
/// first of them leading to each other one.
pub open spec fn pairs_ok(
    g: AGrammar,
    root: usize,
    s: Seq<(usize, usize)>,
    op: Op,
    i: usize,
    via: Via,
) -> bool {
    forall|k: int|
        0 <= k < s.len() ==> {
            &&& is_op(op, g.exprs@[(#[trigger] s[k]).0 as int])
            &&& s[k].1 == next_in_chain(g, s[k].0)
            &&& on_chain(g, root, s[k].0)
            &&& leads_to(g, s[k].0, i, via)
            &&& k > 0 ==> leads_to(g, s[0].0, s[k].0, via)
        }
}

/// What is remembered at `i` on the chain from `root` has come from the
/// operators met before, and still leads to `i`.
pub open spec fn trail_ok(g: AGrammar, root: usize, t: Trail, i: usize) -> bool {
    &&& t.not_not.len() <= 1
    &&& marks_ok(g, root, t.not_not, Op::Not, i, Via::Calls)
    &&& marks_ok(g, root, t.not_and, Op::Not, i, Via::Nots)
    &&& marks_ok(g, root, t.and_not, Op::And, i, Via::Ands)
    &&& marks_ok(g, root, t.oom_zom, Op::Star, i, Via::StarsPluses)
    &&& pairs_ok(g, root, t.and_and, Op::And, i, Via::Ands)
    &&& pairs_ok(g, root, t.oom_oom, Op::Plus, i, Via::Pluses)
}

proof fn lemma_marks_advance(g: AGrammar, root: usize, s: Seq<usize>, op: Op, i: usize, via: Via)
    requires
        marks_ok(g, root, s, op, i, via),
        allowed(via, g.exprs@[i as int]),
    ensures
        marks_ok(g, root, s, op, next_in_chain(g, i), via),
{
    assert forall|k: int| 0 <= k < s.len() implies leads_to(g, #[trigger] s[k], next_in_chain(g, i), via) by {
        lemma_leads_step(g, s[k], i, via);
    }
}

proof fn lemma_marks_push(g: AGrammar, root: usize, s: Seq<usize>, op: Op, i: usize, via: Via)
    requires
        marks_ok(g, root, s, op, i, via),
        s.len() > 0 ==> allowed(via, g.exprs@[i as int]),
        is_op(op, g.exprs@[i as int]),
        on_chain(g, root, i),
    ensures
        marks_ok(g, root, s.push(i), op, next_in_chain(g, i), via),
{
    if s.len() > 0 {
        lemma_marks_advance(g, root, s, op, i, via);
    }
    lemma_leads_one(g, i, via);
    assert forall|k: int| 0 <= k < s.push(i).len() implies is_op(op, g.exprs@[#[trigger] s.push(i)[k] as int])
        && on_chain(g, root, s.push(i)[k]) && leads_to(g, s.push(i)[k], next_in_chain(g, i), via) by {
        if k < s.len() {
            assert(s.push(i)[k] == s[k]);
        }
    }
}

proof fn lemma_pairs_advance(g: AGrammar, root: usize, s: Seq<(usize, usize)>, op: Op, i: usize, via: Via)
    requires
        pairs_ok(g, root, s, op, i, via),
        allowed(via, g.exprs@[i as int]),
    ensures
        pairs_ok(g, root, s, op, next_in_chain(g, i), via),
{
    assert forall|k: int| 0 <= k < s.len() implies leads_to(g, (#[trigger] s[k]).0, next_in_chain(g, i), via) by {
        lemma_leads_step(g, s[k].0, i, via);
    }
}

proof fn lemma_pairs_push(g: AGrammar, root: usize, s: Seq<(usize, usize)>, op: Op, i: usize, via: Via)
    requires
        pairs_ok(g, root, s, op, i, via),
        allowed(via, g.exprs@[i as int]),
        is_op(op, g.exprs@[i as int]),
        on_chain(g, root, i),
    ensures
        pairs_ok(g, root, s.push((i, next_in_chain(g, i))), op, next_in_chain(g, i), via),
{
    let s2 = s.push((i, next_in_chain(g, i)));
    lemma_pairs_advance(g, root, s, op, i, via);
    lemma_leads_one(g, i, via);
    if s.len() > 0 {
        assert(leads_to(g, s[0].0, i, via));
        assert(s2[0] == s[0]);
    }
    assert forall|k: int| 0 <= k < s2.len() implies {
        &&& is_op(op, g.exprs@[(#[trigger] s2[k]).0 as int])
        &&& s2[k].1 == next_in_chain(g, s2[k].0)
        &&& on_chain(g, root, s2[k].0)
        &&& leads_to(g, s2[k].0, next_in_chain(g, i), via)
        &&& k > 0 ==> leads_to(g, s2[0].0, s2[k].0, via)
    } by {
        if k < s.len() {
            assert(s2[k] == s[k]);
        }
    }
}

proof fn lemma_concat_justified(g: AGrammar, root: usize, a: Seq<Warning>, b: Seq<Warning>)
    requires
        all_justified(g, root, a),
        all_justified(g, root, b),
    ensures
        all_justified(g, root, a + b),
{
    assert forall|w: Warning| (a + b).contains(w) implies justified(g, root, w) by {
        lemma_contains_concat(a, b, w);
    }
}

proof fn lemma_one_justified(g: AGrammar, root: usize, cond: bool, w0: Warning, x: usize, y: usize)
    requires
        cond ==> on_chain(g, root, x) && pattern_warning(g, w0, x, y),
    ensures
        all_justified(g, root, warn_if(cond, w0)),
{
    assert forall|w: Warning| warn_if(cond, w0).contains(w) implies justified(g, root, w) by {
        let j = choose|j: int| 0 <= j < warn_if(cond, w0).len() && warn_if(cond, w0)[j] == w;
        assert(w == w0);
    }
}

proof fn lemma_and_and_justified(g: AGrammar, root: usize, t: Trail, i: usize)
    requires
        pairs_ok(g, root, t.and_and, Op::And, i, Via::Ands),
    ensures
        all_justified(g, root, verify_and_and(g, t).1),
{
    let aa = t.and_and;
    if aa.len() >= 2 {
        let k = aa.len() - 1;
        assert(aa[k] == aa.last());
        assert(leads_to(g, aa[0].0, aa[k].0, Via::Ands));
        lemma_one_justified(
            g,
            root,
            true,
            verify_and_and(g, t).1[0],
            aa[0].0,
            aa.last().0,
        );
        assert(verify_and_and(g, t).1 == warn_if(true, verify_and_and(g, t).1[0]));
    } else {
        lemma_one_justified(g, root, false, verify_and_and(g, t).1[0], 0, 0);
        assert(verify_and_and(g, t).1 == warn_if(false, verify_and_and(g, t).1[0]));
    }
}

proof fn lemma_oom_oom_justified(g: AGrammar, root: usize, t: Trail, i: usize)
    requires
        pairs_ok(g, root, t.oom_oom, Op::Plus, i, Via::Pluses),
    ensures
        all_justified(g, root, verify_oom_oom(g, t).1),
{
    let oo = t.oom_oom;
    if oo.len() >= 2 {
        let k = oo.len() - 1;
        assert(oo[k] == oo.last());
        assert(leads_to(g, oo[0].0, oo[k].0, Via::Pluses));
        lemma_one_justified(
            g,
            root,
            true,
            verify_oom_oom(g, t).1[0],
            oo[0].0,
            oo.last().0,
        );
        assert(verify_oom_oom(g, t).1 == warn_if(true, verify_oom_oom(g, t).1[0]));
    } else {
        lemma_one_justified(g, root, false, verify_oom_oom(g, t).1[0], 0, 0);
        assert(verify_oom_oom(g, t).1 == warn_if(false, verify_oom_oom(g, t).1[0]));
    }
}


proof fn lemma_run_justified(g: AGrammar, root: usize, t: Trail, i: usize, fuel: nat)
    requires
        trail_ok(g, root, t, i),
        on_chain(g, root, i),
    ensures
        all_justified(g, root, run(g, t, i, fuel).1),
    decreases fuel,
{
    if fuel == 0 {
        assert(run(g, t, i, fuel).1 =~= Seq::<Warning>::empty());
        return;
    }
    let f = (fuel - 1) as nat;
    let j = next_in_chain(g, i);
    let empty_marks = Seq::<usize>::empty();
    let empty_pairs = Seq::<(usize, usize)>::empty();
    match g.exprs@[i as int] {
        Expression::NonTerminalSymbol(id) => {
            lemma_marks_advance(g, root, t.not_not, Op::Not, i, Via::Calls);
            lemma_marks_advance(g, root, t.not_and, Op::Not, i, Via::Nots);
            lemma_marks_advance(g, root, t.and_not, Op::And, i, Via::Ands);
            lemma_marks_advance(g, root, t.oom_zom, Op::Star, i, Via::StarsPluses);
            lemma_pairs_advance(g, root, t.and_and, Op::And, i, Via::Ands);
            lemma_pairs_advance(g, root, t.oom_oom, Op::Plus, i, Via::Pluses);
            lemma_on_chain_next(g, root, i);
            lemma_run_justified(g, root, t, j, f);
        },
        Expression::ZeroOrMore(ch) => {
            let t0 = Trail { oom_zom: t.oom_zom.push(i), ..t };
            let (t1, w1) = verify_and_and(g, t0);
            let (t2, w2) = verify_oom_oom(g, t1);
            let (t3, w3) = on_zero_or_more(g, t, i);
            lemma_and_and_justified(g, root, t0, i);
            lemma_oom_oom_justified(g, root, t1, i);
            lemma_concat_justified(g, root, w1, w2);
            assert(w3 == w1 + w2);
            lemma_marks_push(g, root, t.oom_zom, Op::Star, i, Via::StarsPluses);
            assert(t3.oom_zom == t.oom_zom.push(i));
            assert(t3.not_not =~= empty_marks && t3.not_and =~= empty_marks && t3.and_not
                =~= empty_marks);
            assert(t3.and_and =~= empty_pairs && t3.oom_oom =~= empty_pairs);
            lemma_on_chain_next(g, root, i);
            lemma_run_justified(g, root, t3, ch, f);
            lemma_concat_justified(g, root, w3, run(g, t3, ch, f).1);
        },
        Expression::OneOrMore(ch) => {
            let (t3, w3) = on_one_or_more(g, t, i, ch);
            let oz = t.oom_zom;
            let oz1 = if oz.len() > 0 {
                oz.remove(0)
            } else {
                oz
            };
            let t0 = Trail { oom_zom: oz1, oom_oom: t.oom_oom.push((i, ch)), ..t };
            let w0 = warn_if(
                oz.len() > 0,
                warn_between(
                    WarningKind::OneOrMoreZeroOrMore,
                    g.spans@[ch as int].hi,
                    g.spans@[oz[0] as int].hi,
                ),
            );
            let (t1, w1) = verify_and_and(g, t0);
            if oz.len() > 0 {
                assert(leads_to(g, oz[0], i, Via::StarsPluses));
                assert(pattern_warning(g, w0[0], oz[0], i));
            }
            lemma_one_justified(g, root, oz.len() > 0, w0[0], oz[0], i);
            assert(w0 == warn_if(oz.len() > 0, w0[0]));
            lemma_and_and_justified(g, root, t0, i);
            assert(w3 == w0 + w1);
            lemma_concat_justified(g, root, w0, w1);
            lemma_marks_advance(g, root, oz, Op::Star, i, Via::StarsPluses);
            assert forall|k: int| 0 <= k < oz1.len() implies is_op(
                Op::Star,
                g.exprs@[#[trigger] oz1[k] as int],
            ) && on_chain(g, root, oz1[k]) && leads_to(g, oz1[k], j, Via::StarsPluses) by {
                if oz.len() > 0 {
                    assert(oz1[k] == oz[k + 1]);
                }
            }
            lemma_pairs_push(g, root, t.oom_oom, Op::Plus, i, Via::Pluses);
            assert(t3.oom_zom == oz1);
            assert(t3.oom_oom == t.oom_oom.push((i, ch)));
            assert(t3.not_not =~= empty_marks && t3.not_and =~= empty_marks && t3.and_not
                =~= empty_marks);
            assert(t3.and_and =~= empty_pairs);
            lemma_on_chain_next(g, root, i);
            lemma_run_justified(g, root, t3, ch, f);
            lemma_concat_justified(g, root, w3, run(g, t3, ch, f).1);
        },
        Expression::NotPredicate(ch) => {
            let (t3, w3) = on_not(g, t, i, ch);
            let nn = t.not_not;
            let an = t.and_not;
            let w_nn = warn_if(
                nn.len() > 0,
                warn_between(WarningKind::NotNot, g.spans@[nn[0] as int].lo, g.spans@[ch as int].lo),
            );
            let w_an = warn_if(
                an.len() > 0,
                warn_between(WarningKind::AndNot, g.spans@[an[0] as int].lo, g.spans@[ch as int].lo),
            );
            let nn1 = if nn.len() > 0 {
                nn.remove(0)
            } else {
                nn
            };
            let t0 = Trail { not_not: nn1.push(i), not_and: t.not_and.push(i), ..t };
            let (t1, w1) = verify_and_and(g, t0);
            let (t2, w2) = verify_oom_oom(g, t1);
            if nn.len() > 0 {
                assert(pattern_warning(g, w_nn[0], nn[0], i));
            }
            lemma_one_justified(g, root, nn.len() > 0, w_nn[0], nn[0], i);
            assert(w_nn == warn_if(nn.len() > 0, w_nn[0]));
            if an.len() > 0 {
                assert(pattern_warning(g, w_an[0], an[0], i));
            }
            lemma_one_justified(g, root, an.len() > 0, w_an[0], an[0], i);
            assert(w_an == warn_if(an.len() > 0, w_an[0]));
            lemma_and_and_justified(g, root, t0, i);
            lemma_oom_oom_justified(g, root, t1, i);
            lemma_concat_justified(g, root, w_nn, w_an);
            lemma_concat_justified(g, root, w_nn + w_an, w1);
            lemma_concat_justified(g, root, w_nn + w_an + w1, w2);
            assert(w3 == w_nn + w_an + w1 + w2);
            assert(nn1 =~= empty_marks);
            lemma_marks_push(g, root, empty_marks, Op::Not, i, Via::Calls);
            assert(empty_marks.push(i) == nn1.push(i));
            lemma_marks_push(g, root, t.not_and, Op::Not, i, Via::Nots);
            assert(t3.not_not == nn1.push(i));
            assert(t3.not_and == t.not_and.push(i));
            assert(t3.and_not =~= empty_marks && t3.oom_zom =~= empty_marks);
            assert(t3.and_and =~= empty_pairs && t3.oom_oom =~= empty_pairs);
            lemma_on_chain_next(g, root, i);
            lemma_run_justified(g, root, t3, ch, f);
            lemma_concat_justified(g, root, w3, run(g, t3, ch, f).1);
        },
        Expression::AndPredicate(ch) => {
            let (t3, w3) = on_and(g, t, i, ch);
            let na = t.not_and;
            let w_na = warn_if(
                na.len() > 0,
                warn_between(WarningKind::NotAnd, g.spans@[na[0] as int].lo, g.spans@[ch as int].lo),
            );
            let t0 = Trail {
                and_and: t.and_and.push((i, ch)),
                and_not: t.and_not.push(i),
                ..t
            };
            let (t1, w1) = verify_oom_oom(g, t0);
            if na.len() > 0 {
                assert(pattern_warning(g, w_na[0], na[0], i));
            }
            lemma_one_justified(g, root, na.len() > 0, w_na[0], na[0], i);
            assert(w_na == warn_if(na.len() > 0, w_na[0]));
            lemma_oom_oom_justified(g, root, t0, i);
            lemma_concat_justified(g, root, w_na, w1);
            assert(w3 == w_na + w1);
            lemma_pairs_push(g, root, t.and_and, Op::And, i, Via::Ands);
            lemma_marks_push(g, root, t.and_not, Op::And, i, Via::Ands);
            assert(t3.and_and == t.and_and.push((i, ch)));
            assert(t3.and_not == t.and_not.push(i));
            assert(t3.not_not =~= empty_marks && t3.not_and =~= empty_marks && t3.oom_zom
                =~= empty_marks);
            assert(t3.oom_oom =~= empty_pairs);
            lemma_on_chain_next(g, root, i);
            lemma_run_justified(g, root, t3, ch, f);
            lemma_concat_justified(g, root, w3, run(g, t3, ch, f).1);
        },
        _ => {
            let (t1, w1) = verify_and_and(g, t);
            let (t2, w2) = verify_oom_oom(g, t1);
            lemma_and_and_justified(g, root, t, i);
            lemma_oom_oom_justified(g, root, t1, i);
            lemma_concat_justified(g, root, w1, w2);
            assert(run(g, t, i, fuel).1 == w1 + w2);
        },
    }
}

/// Every warning that a rule gets has its cause on the chain of that rule:
/// a pattern of the warning's kind between two operators of the chain,
/// over the source that stands between them. In particular a chain without
/// an `&` gets no `!(&e)`, `&(!e)` or `&(&e)` warning.
pub proof fn law_rule_warnings_have_causes(g: AGrammar, r: int)
    requires
        0 <= r < g.rules@.len(),
    ensures
        forall|w: Warning|
            #[trigger] rule_report(g, r).contains(w) ==> justified(g, g.rules@[r].expr_idx, w),
{
    let root = g.rules@[r].expr_idx;
    lemma_on_chain_root(g, root);
    assert(empty_trail().not_not.len() == 0);
    lemma_run_justified(g, root, empty_trail(), root, g.exprs@.len());
}

/// Every warning of the report of a grammar has its cause on the chain of
/// one of its rules.
pub proof fn law_warnings_have_causes(g: AGrammar, n: nat)
    requires
        n <= g.rules@.len(),
    ensures
        forall|w: Warning|
            #[trigger] chaining_report(g, n).contains(w) ==> exists|r: int|
                0 <= r < n && justified(g, g.rules@[r].expr_idx, w),
    decreases n,
{
    if n > 0 {
        law_warnings_have_causes(g, (n - 1) as nat);
        law_rule_warnings_have_causes(g, n - 1);
        assert forall|w: Warning| #[trigger] chaining_report(g, n).contains(w) implies exists|r: int|
            0 <= r < n && justified(g, g.rules@[r].expr_idx, w) by {
            lemma_contains_concat(chaining_report(g, (n - 1) as nat), rule_report(g, n - 1), w);
            if rule_report(g, n - 1).contains(w) {
                assert(justified(g, g.rules@[n - 1].expr_idx, w));
            } else {
                assert(chaining_report(g, (n - 1) as nat).contains(w));
            }
        }
    }
}

} // verus!
