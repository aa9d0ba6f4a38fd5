//! What is live does not depend on the inserted instructions.
use vstd::prelude::*;

use crate::borrow::Key;
use crate::erasure::{lemma_before_invoke, lemma_with_lets_keeps, lemma_with_params_keeps};
use crate::inserted::{
    adapt_expr, behind, declared_body, lemma_adapt_expr_symbols, lemma_dec_each,
    lemma_dec_for_dead_params, lemma_declare, lemma_inc_before,
};
use crate::insertion::{
    visitable, visitable_alt, visitable_in, visits, visits_alt, visits_in, ConsumePred, ContextView,
};
use crate::ir::{JoinPointId, Param, StmtView, Symbol};
use crate::liveness::{killed, live};
use crate::occurrence::{expr_symbols, param_symbols, stmt_symbols};

verus! {

/// The statement is free of reference-count instructions, no `let` mentions the variable that
/// it binds, and each join point has the parameters that the parameter map has for it.
pub open spec fn plain<'a>(param_map: Map<Key, &'a [Param]>, stmt: StmtView<'a>) -> bool
    decreases stmt,
{
    match stmt {
        StmtView::Let(symbol, expr, _, cont) => !expr_symbols(expr).contains(symbol) && plain(
            param_map,
            *cont,
        ),
        StmtView::Invoke { pass, fail, .. } => plain(param_map, *pass) && plain(param_map, *fail),
        StmtView::Switch { branches, default_branch, .. } => {
            &&& forall|i: int|
                0 <= i < branches.len() ==> plain(param_map, #[trigger] branches[i].2)
            &&& plain(param_map, *default_branch.1)
        },
        StmtView::Refcounting(_, _) => false,
        StmtView::Join { id, parameters, continuation, remainder } => {
            &&& param_symbols(parameters@) == param_symbols(param_map[Key::JoinPoint(id)]@)
            &&& plain(param_map, *continuation)
            &&& plain(param_map, *remainder)
        },
        StmtView::Ret(_)
        | StmtView::Rethrow
        | StmtView::Jump(_, _)
        | StmtView::RuntimeError(_) => true,
    }
}

/// Every variable that is live before a statement occurs in it, or is live in a join point
/// that is in scope.
pub proof fn law_live_vars_occur(stmt: StmtView, jps: Map<JoinPointId, Set<Symbol>>, x: Symbol)
    requires
        live(stmt, jps).contains(x),
    ensures
        stmt_symbols(stmt).contains(x) || exists|j: JoinPointId|
            jps.contains_key(j) && #[trigger] jps[j].contains(x),
    decreases stmt,
{
    match stmt {
        StmtView::Let(_, expr, _, cont) => {
            if !expr_symbols(expr).contains(x) {
                law_live_vars_occur(*cont, jps, x);
            }
        },
        StmtView::Invoke { pass, fail, .. } => {
            if live(*pass, jps).contains(x) {
                law_live_vars_occur(*pass, jps, x);
            } else if live(*fail, jps).contains(x) {
                law_live_vars_occur(*fail, jps, x);
            }
        },
        StmtView::Switch { branches, default_branch, .. } => {
            if live(*default_branch.1, jps).contains(x) {
                law_live_vars_occur(*default_branch.1, jps, x);
            } else if exists|i: int|
                0 <= i < branches.len() && live(#[trigger] branches[i].2, jps).contains(x) {
                let i = choose|i: int|
                    0 <= i < branches.len() && live(#[trigger] branches[i].2, jps).contains(x);
                law_live_vars_occur(branches[i].2, jps, x);
            }
        },
        StmtView::Refcounting(_, cont) => {
            if live(*cont, jps).contains(x) {
                law_live_vars_occur(*cont, jps, x);
            }
        },
        StmtView::Join { id, parameters, continuation, remainder } => {
            let body_live = live(*continuation, jps).difference(param_symbols(parameters@));
            let inner = jps.insert(id, body_live);
            law_live_vars_occur(*remainder, inner, x);
            if body_live.contains(x) {
                law_live_vars_occur(*continuation, jps, x);
            } else if !stmt_symbols(*remainder).contains(x) {
                let j = choose|j: JoinPointId|
                    inner.contains_key(j) && #[trigger] inner[j].contains(x);
                assert(jps.contains_key(j) && jps[j].contains(x));
            }
        },
        StmtView::Ret(_) | StmtView::Jump(_, _) | StmtView::Rethrow | StmtView::RuntimeError(_) => {
        },
    }
}

/// Instructions in front of a statement add at most their symbols to what is live.
pub proof fn lemma_live_behind<'a>(
    ctx: ContextView<'a>,
    out: StmtView<'a>,
    b: StmtView<'a>,
    symbols: Set<Symbol>,
    jps: Map<JoinPointId, Set<Symbol>>,
)
    requires
        behind(ctx, out, b, symbols),
    ensures
        killed(out) == killed(b),
        live(b, jps).subset_of(live(out, jps)),
        live(out, jps).subset_of(live(b, jps).union(symbols)),
    decreases out,
{
    if out != b {
        match out {
            StmtView::Refcounting(_, cont) => {
                lemma_live_behind(ctx, *cont, b, symbols, jps);
            },
            _ => {},
        }
    }
}

/// The pass reports exactly the variables that are live before the statement that it was
/// given; and the instructions that it inserts do not change what is live.
pub proof fn law_live_vars_are_kept<'a>(
    ctx: ContextView<'a>,
    stmt: StmtView<'a>,
    out: StmtView<'a>,
    live_vars: Set<Symbol>,
)
    requires
        visitable(ctx, stmt),
        visits(ctx, stmt, out, live_vars),
        plain(ctx.param_map, stmt),
    ensures
        live_vars == live(stmt, ctx.jp_live_vars),
        live(out, ctx.jp_live_vars) == live(stmt, ctx.jp_live_vars),
        killed(out) == killed(stmt),
    decreases stmt, 1nat,
{
    lemma_with_lets_keeps(ctx, stmt);
    lemma_live_in(ctx.with_lets(stmt), stmt, out, live_vars);
}

/// In whatever order the variables of a set are walked through, the pass reports the same live
/// variables.
pub proof fn law_live_vars_do_not_depend_on_order<'a>(
    ctx: ContextView<'a>,
    stmt: StmtView<'a>,
    out1: StmtView<'a>,
    live1: Set<Symbol>,
    out2: StmtView<'a>,
    live2: Set<Symbol>,
)
    requires
        visitable(ctx, stmt),
        visits(ctx, stmt, out1, live1),
        visits(ctx, stmt, out2, live2),
        plain(ctx.param_map, stmt),
    ensures
        live1 == live2,
{
    law_live_vars_are_kept(ctx, stmt, out1, live1);
    law_live_vars_are_kept(ctx, stmt, out2, live2);
}

/// [`law_live_vars_are_kept`] in a context that knows the `let` statements in front.
pub proof fn lemma_live_in<'a>(
    ctx: ContextView<'a>,
    stmt: StmtView<'a>,
    out: StmtView<'a>,
    live_vars: Set<Symbol>,
)
    requires
        visitable_in(ctx, stmt),
        visits_in(ctx, stmt, out, live_vars),
        plain(ctx.param_map, stmt),
    ensures
        live_vars == live(stmt, ctx.jp_live_vars),
        live(out, ctx.jp_live_vars) == live(stmt, ctx.jp_live_vars),
        killed(out) == killed(stmt),
    decreases stmt, 0nat,
{
    let jps = ctx.jp_live_vars;
    match stmt {
        StmtView::Let(symbol, expr, layout, cont) => {
            let (b, b_live) = choose|b: StmtView<'a>, b_live: Set<Symbol>|
                {
                    &&& visits_in(ctx, *cont, b, b_live)
                    &&& out == #[trigger] ctx.declare(symbol, expr, layout, b, b_live)
                    &&& live_vars == b_live.union(expr_symbols(expr)).remove(symbol)
                };
            lemma_live_in(ctx, *cont, b, b_live);
            lemma_declare(ctx, symbol, expr, layout, b, b_live);
            let body = declared_body(ctx, symbol, expr, b, b_live);
            let bound = StmtView::Let(
                symbol,
                adapt_expr(ctx.param_map, expr),
                layout,
                Box::new(body),
            );
            lemma_adapt_expr_symbols(ctx.param_map, expr);
            lemma_live_behind(ctx, body, b, expr_symbols(expr).insert(symbol), jps);
            lemma_live_behind(ctx, out, bound, expr_symbols(expr), jps);
            assert(live(bound, jps) =~= live(stmt, jps));
            assert(live(out, jps) =~= live(stmt, jps));
            assert(live_vars =~= live(stmt, jps));
        },
        StmtView::Invoke { symbol, call, layout, pass, fail } => {
            let (pass_out, fail_out) = choose|pass_out: StmtView<'a>, fail_out: StmtView<'a>|
                {
                    &&& visits_alt(
                        ctx.with_invoke(symbol, layout, call),
                        live_vars,
                        *pass,
                        pass_out,
                    )
                    &&& visits_alt(ctx, live_vars, *fail, fail_out)
                    &&& out == #[trigger] ctx.before_invoke(
                        call,
                        StmtView::Invoke {
                            symbol,
                            call,
                            layout,
                            pass: Box::new(pass_out),
                            fail: Box::new(fail_out),
                        },
                        live_vars,
                    )
                };
            let invoke = StmtView::Invoke {
                symbol,
                call,
                layout,
                pass: Box::new(pass_out),
                fail: Box::new(fail_out),
            };
            lemma_live_alt(ctx.with_invoke(symbol, layout, call), live_vars, *pass, pass_out);
            lemma_live_alt(ctx, live_vars, *fail, fail_out);
            lemma_before_invoke(ctx, call, invoke, live_vars);
            lemma_live_behind(ctx, out, invoke, call.arguments@.to_set(), jps);
            assert(live(invoke, jps) =~= live(stmt, jps));
            assert(live(out, jps) =~= live(stmt, jps));
        },
        StmtView::Join { id, parameters, continuation, remainder } => {
            let ps = ctx.join_params(id)@;
            let v_ctx = ctx.with_params(ps);
            let v_out = *out->Join_continuation;
            let b = *out->Join_remainder;
            let (v, v_live) = choose|v: StmtView<'a>, v_live: Set<Symbol>|
                {
                    &&& visits(v_ctx, *continuation, v, v_live)
                    &&& v_out == #[trigger] v_ctx.dec_for_dead_params(ps, v, v_live)
                };
            lemma_with_params_keeps(ctx, ps);
            law_live_vars_are_kept(v_ctx, *continuation, v, v_live);
            lemma_dec_for_dead_params(v_ctx, ps, v, v_live);
            lemma_live_behind(v_ctx, v_out, v, param_symbols(ps), jps);
            assert(live(v_out, jps).difference(param_symbols(ps)) =~= live(
                *continuation,
                jps,
            ).difference(param_symbols(parameters@)));
            law_live_vars_are_kept(
                ctx.with_join_body(id, ps, v_out),
                *remainder,
                b,
                live_vars,
            );
        },
        StmtView::Ret(_) => {
            reveal_with_fuel(live, 2);
            reveal_with_fuel(killed, 2);
            assert(live(out, jps) =~= live(stmt, jps));
        },
        StmtView::Jump(id, xs) => {
            assert(xs.len() == xs@.len());
            let ps = ctx.join_params(id);
            lemma_inc_before(
                ctx,
                xs@,
                ConsumePred::Params(ps),
                stmt,
                ctx.join_live(id),
                xs@.len(),
            );
            lemma_live_behind(ctx, out, stmt, xs@.to_set(), jps);
            assert(live(out, jps) =~= live(stmt, jps));
        },
        StmtView::Switch { branches, default_branch, .. } => {
            let bs = out->Switch_branches;
            assert forall|i: int| 0 <= i < branches.len() implies {
                &&& live(branches[i].2, jps).subset_of(live((#[trigger] bs[i]).2, jps))
                &&& live(bs[i].2, jps).subset_of(live(branches[i].2, jps).union(live_vars))
            } by {
                assert(visitable_alt(ctx, live_vars, branches[i].2));
                assert(plain(ctx.param_map, branches[i].2));
                lemma_live_alt(ctx, live_vars, branches[i].2, bs[i].2);
            }
            lemma_live_alt(ctx, live_vars, *default_branch.1, *out->Switch_default_branch.1);
            assert forall|x: Symbol| live(out, jps).contains(x) implies live_vars.contains(x) by {
                if exists|i: int| 0 <= i < bs.len() && live(#[trigger] bs[i].2, jps).contains(x) {
                    let i = choose|i: int|
                        0 <= i < bs.len() && live(#[trigger] bs[i].2, jps).contains(x);
                    assert(live(branches[i].2, jps).contains(x) || live_vars.contains(x));
                }
            }
            assert forall|x: Symbol| live_vars.contains(x) implies live(out, jps).contains(x) by {
                if exists|i: int|
                    0 <= i < branches.len() && live(#[trigger] branches[i].2, jps).contains(x) {
                    let i = choose|i: int|
                        0 <= i < branches.len() && live(#[trigger] branches[i].2, jps).contains(x);
                    assert(live(bs[i].2, jps).contains(x));
                }
            }
            assert(live(out, jps) =~= live(stmt, jps));
        },
        StmtView::Rethrow | StmtView::RuntimeError(_) | StmtView::Refcounting(_, _) => {},
    }
}

/// The decrements at the start of an alternative are of variables that are live before the
/// choice.
proof fn lemma_live_alt<'a>(
    ctx: ContextView<'a>,
    case_live: Set<Symbol>,
    stmt: StmtView<'a>,
    out: StmtView<'a>,
)
    requires
        visitable_alt(ctx, case_live, stmt),
        visits_alt(ctx, case_live, stmt, out),
        plain(ctx.param_map, stmt),
    ensures
        live(stmt, ctx.jp_live_vars).subset_of(live(out, ctx.jp_live_vars)),
        live(out, ctx.jp_live_vars).subset_of(live(stmt, ctx.jp_live_vars).union(case_live)),
        killed(out) == killed(stmt),
    decreases stmt, 2nat,
{
    let (b, b_live) = choose|b: StmtView<'a>, b_live: Set<Symbol>|
        visits(ctx, stmt, b, b_live) && #[trigger] ctx.is_dec_for_alt(case_live, b_live, b, out);
    let order = choose|order: Seq<Symbol>| #[trigger]
        ctx.dec_each(order, b) == out && order.no_duplicates() && order.to_set()
            == ctx.dead_in_alt(case_live, b_live);
    law_live_vars_are_kept(ctx, stmt, b, b_live);
    lemma_dec_each(ctx, order, b);
    lemma_live_behind(ctx, out, b, order.to_set(), ctx.jp_live_vars);
}

} // verus!
