//! The pass inserts instructions and changes nothing else.
use vstd::prelude::*;

use crate::borrow::Key;
use crate::inserted::{
    adapt_expr, behind, declared_body, lemma_dec_after_application, lemma_dec_after_lowlevel,
    lemma_dec_each, lemma_dec_for_dead_params, lemma_declare, lemma_inc_before,
};
use crate::insertion::{
    flagged, visitable, visitable_alt, visitable_in, visits, visits_alt, visits_in, visits_proc,
    ConsumePred, ContextView,
};
use crate::ir::{Call, CallType, Param, StmtView, Symbol};
use crate::occurrence::param_symbols;

verus! {

/// A statement without its reference-count instructions.
pub open spec fn erase<'a>(stmt: StmtView<'a>) -> StmtView<'a>
    decreases stmt,
{
    match stmt {
        StmtView::Let(symbol, expr, layout, cont) => StmtView::Let(
            symbol,
            expr,
            layout,
            Box::new(erase(*cont)),
        ),
        StmtView::Invoke { symbol, call, layout, pass, fail } => StmtView::Invoke {
            symbol,
            call,
            layout,
            pass: Box::new(erase(*pass)),
            fail: Box::new(erase(*fail)),
        },
        StmtView::Switch { cond_symbol, cond_layout, branches, default_branch, ret_layout } => {
            StmtView::Switch {
                cond_symbol,
                cond_layout,
                branches: Seq::new(
                    branches.len(),
                    |i: int|
                        if 0 <= i < branches.len() {
                            (branches[i].0, branches[i].1, erase(branches[i].2))
                        } else {
                            branches[i]
                        },
                ),
                default_branch: (default_branch.0, Box::new(erase(*default_branch.1))),
                ret_layout,
            }
        },
        StmtView::Refcounting(_, cont) => erase(*cont),
        StmtView::Join { id, parameters, continuation, remainder } => StmtView::Join {
            id,
            parameters,
            continuation: Box::new(erase(*continuation)),
            remainder: Box::new(erase(*remainder)),
        },
        StmtView::Ret(_)
        | StmtView::Rethrow
        | StmtView::Jump(_, _)
        | StmtView::RuntimeError(_) => stmt,
    }
}

/// A statement without its reference-count instructions, and with what the parameter map
/// knows: a join point has the parameters of its entry, and a call of an operation that takes
/// a function says whether the function owns its closure data. What stands behind an
/// instruction is left as it is.
pub open spec fn adapt<'a>(param_map: Map<Key, &'a [Param]>, stmt: StmtView<'a>) -> StmtView<'a>
    decreases stmt,
{
    match stmt {
        StmtView::Let(symbol, expr, layout, cont) => StmtView::Let(
            symbol,
            adapt_expr(param_map, expr),
            layout,
            Box::new(adapt(param_map, *cont)),
        ),
        StmtView::Invoke { symbol, call, layout, pass, fail } => StmtView::Invoke {
            symbol,
            call,
            layout,
            pass: Box::new(adapt(param_map, *pass)),
            fail: Box::new(adapt(param_map, *fail)),
        },
        StmtView::Switch { cond_symbol, cond_layout, branches, default_branch, ret_layout } => {
            StmtView::Switch {
                cond_symbol,
                cond_layout,
                branches: Seq::new(
                    branches.len(),
                    |i: int|
                        if 0 <= i < branches.len() {
                            (branches[i].0, branches[i].1, adapt(param_map, branches[i].2))
                        } else {
                            branches[i]
                        },
                ),
                default_branch: (default_branch.0, Box::new(adapt(param_map, *default_branch.1))),
                ret_layout,
            }
        },
        StmtView::Refcounting(_, cont) => erase(*cont),
        StmtView::Join { id, continuation, remainder, .. } => StmtView::Join {
            id,
            parameters: param_map[Key::JoinPoint(id)],
            continuation: Box::new(adapt(param_map, *continuation)),
            remainder: Box::new(adapt(param_map, *remainder)),
        },
        StmtView::Ret(_)
        | StmtView::Rethrow
        | StmtView::Jump(_, _)
        | StmtView::RuntimeError(_) => stmt,
    }
}

/// What stands behind inserted instructions is all that is left of them.
pub proof fn lemma_erase_behind<'a>(
    ctx: ContextView<'a>,
    out: StmtView<'a>,
    b: StmtView<'a>,
    symbols: Set<Symbol>,
)
    requires
        behind(ctx, out, b, symbols),
    ensures
        erase(out) == erase(b),
    decreases out,
{
    if out != b {
        match out {
            StmtView::Refcounting(_, cont) => {
                lemma_erase_behind(ctx, *cont, b, symbols);
            },
            _ => {},
        }
    }
}

/// The `let` statements in front of a statement change neither the parameter map nor what is
/// known of join points.
pub proof fn lemma_with_lets_keeps<'a>(ctx: ContextView<'a>, stmt: StmtView<'a>)
    ensures
        ctx.with_lets(stmt).param_map == ctx.param_map,
        ctx.with_lets(stmt).jp_live_vars == ctx.jp_live_vars,
    decreases stmt,
{
    match stmt {
        StmtView::Let(symbol, expr, layout, cont) => {
            lemma_with_lets_keeps(ctx.with_let(symbol, layout, expr), *cont);
        },
        _ => {},
    }
}

/// Parameters change neither the parameter map nor what is known of join points.
pub proof fn lemma_with_params_keeps<'a>(ctx: ContextView<'a>, ps: Seq<Param>)
    ensures
        ctx.with_params(ps).param_map == ctx.param_map,
        ctx.with_params(ps).jp_live_vars == ctx.jp_live_vars,
    decreases ps.len(),
{
    if ps.len() > 0 {
        lemma_with_params_keeps(ctx, ps.drop_last());
    }
}

/// The decrements in front of an `invoke`.
pub proof fn lemma_before_invoke<'a>(
    ctx: ContextView<'a>,
    call: Call<'a>,
    stmt: StmtView<'a>,
    invoke_live: Set<Symbol>,
)
    ensures
        behind(ctx, ctx.before_invoke(call, stmt, invoke_live), stmt, call.arguments@.to_set()),
{
    let args = call.arguments@;
    match call.call_type {
        CallType::LowLevel { op } => {
            let ps = op.borrow_signature@;
            lemma_dec_after_lowlevel(ctx, args, ps, stmt, invoke_live, flagged(args, ps));
        },
        CallType::Foreign { borrow_signature, .. } => {
            let ps = borrow_signature@;
            lemma_dec_after_lowlevel(ctx, args, ps, stmt, invoke_live, flagged(args, ps));
        },
        CallType::ByName { name, full_layout, .. } => {
            let ps = ctx.param_map[Key::Declaration(name, full_layout)];
            lemma_dec_after_application(ctx, args, ps, stmt, invoke_live, args.len());
        },
        CallType::HigherOrderLowLevel { .. } => {},
    }
}

/// The pass inserts reference-count instructions and does nothing else: without them, what
/// comes out is what went in, with the parameters of join points and the ownership of closure
/// data filled in from the parameter map.
pub proof fn law_only_instructions_inserted<'a>(
    ctx: ContextView<'a>,
    stmt: StmtView<'a>,
    out: StmtView<'a>,
    live_vars: Set<Symbol>,
)
    requires
        visitable(ctx, stmt),
        visits(ctx, stmt, out, live_vars),
    ensures
        erase(out) == adapt(ctx.param_map, stmt),
    decreases stmt, 1nat,
{
    lemma_with_lets_keeps(ctx, stmt);
    lemma_erase_visit(ctx.with_lets(stmt), stmt, out, live_vars);
}

/// In whatever order the variables of a set are walked through, the statements that the pass
/// leaves differ in their instructions only.
pub proof fn law_order_changes_instructions_only<'a>(
    ctx: ContextView<'a>,
    stmt: StmtView<'a>,
    out1: StmtView<'a>,
    live1: Set<Symbol>,
    out2: StmtView<'a>,
    live2: Set<Symbol>,
)
    requires
        visitable(ctx, stmt),
        visits(ctx, stmt, out1, live1),
        visits(ctx, stmt, out2, live2),
    ensures
        erase(out1) == erase(out2),
{
    law_only_instructions_inserted(ctx, stmt, out1, live1);
    law_only_instructions_inserted(ctx, stmt, out2, live2);
}

/// [`law_only_instructions_inserted`] in a context that knows the `let` statements in front.
pub proof fn lemma_erase_visit<'a>(
    ctx: ContextView<'a>,
    stmt: StmtView<'a>,
    out: StmtView<'a>,
    live_vars: Set<Symbol>,
)
    requires
        visitable_in(ctx, stmt),
        visits_in(ctx, stmt, out, live_vars),
    ensures
        erase(out) == adapt(ctx.param_map, stmt),
    decreases stmt, 0nat,
{
    match stmt {
        StmtView::Let(symbol, expr, layout, cont) => {
            let (b, b_live) = choose|b: StmtView<'a>, b_live: Set<Symbol>|
                {
                    &&& visits_in(ctx, *cont, b, b_live)
                    &&& out == #[trigger] ctx.declare(symbol, expr, layout, b, b_live)
                    &&& live_vars == b_live.union(
                        crate::occurrence::expr_symbols(expr),
                    ).remove(symbol)
                };
            lemma_erase_visit(ctx, *cont, b, b_live);
            lemma_declare(ctx, symbol, expr, layout, b, b_live);
            let body = declared_body(ctx, symbol, expr, b, b_live);
            let symbols = crate::occurrence::expr_symbols(expr);
            lemma_erase_behind(ctx, body, b, symbols.insert(symbol));
            lemma_erase_behind(
                ctx,
                out,
                StmtView::Let(symbol, adapt_expr(ctx.param_map, expr), layout, Box::new(body)),
                symbols,
            );
        },
        StmtView::Invoke { symbol, call, layout, pass, fail } => {
            let (pass_out, fail_out) = choose|pass_out: StmtView<'a>, fail_out: StmtView<'a>|
                {
                    &&& visits_alt(
                        ctx.with_invoke(symbol, layout, call),
                        live_vars,
                        *pass,
                        pass_out,
                    )
                    &&& visits_alt(ctx, live_vars, *fail, fail_out)
                    &&& out == #[trigger] ctx.before_invoke(
                        call,
                        StmtView::Invoke {
                            symbol,
                            call,
                            layout,
                            pass: Box::new(pass_out),
                            fail: Box::new(fail_out),
                        },
                        live_vars,
                    )
                };
            let invoke = StmtView::Invoke {
                symbol,
                call,
                layout,
                pass: Box::new(pass_out),
                fail: Box::new(fail_out),
            };
            lemma_erase_alt(ctx.with_invoke(symbol, layout, call), live_vars, *pass, pass_out);
            lemma_erase_alt(ctx, live_vars, *fail, fail_out);
            lemma_before_invoke(ctx, call, invoke, live_vars);
            lemma_erase_behind(ctx, out, invoke, call.arguments@.to_set());
        },
        StmtView::Join { id, continuation, remainder, .. } => {
            let ps = ctx.join_params(id)@;
            let v_ctx = ctx.with_params(ps);
            let v_out = *out->Join_continuation;
            let b = *out->Join_remainder;
            let (v, v_live) = choose|v: StmtView<'a>, v_live: Set<Symbol>|
                {
                    &&& visits(v_ctx, *continuation, v, v_live)
                    &&& v_out == #[trigger] v_ctx.dec_for_dead_params(ps, v, v_live)
                };
            lemma_with_params_keeps(ctx, ps);
            law_only_instructions_inserted(v_ctx, *continuation, v, v_live);
            lemma_dec_for_dead_params(v_ctx, ps, v, v_live);
            lemma_erase_behind(v_ctx, v_out, v, param_symbols(ps));
            law_only_instructions_inserted(
                ctx.with_join_body(id, ps, v_out),
                *remainder,
                b,
                live_vars,
            );
        },
        StmtView::Ret(_) => {
            reveal_with_fuel(erase, 2);
        },
        StmtView::Jump(id, xs) => {
            assert(xs.len() == xs@.len());
            let ps = ctx.join_params(id);
            lemma_inc_before(
                ctx,
                xs@,
                ConsumePred::Params(ps),
                stmt,
                ctx.join_live(id),
                xs@.len(),
            );
            lemma_erase_behind(ctx, out, stmt, xs@.to_set());
        },
        StmtView::Switch { branches, default_branch, .. } => {
            let bs = out->Switch_branches;
            assert forall|i: int| 0 <= i < branches.len() implies erase((#[trigger] bs[i]).2)
                == adapt(ctx.param_map, branches[i].2) by {
                assert(visitable_alt(ctx, live_vars, branches[i].2));
                lemma_erase_alt(ctx, live_vars, branches[i].2, bs[i].2);
            }
            lemma_erase_alt(ctx, live_vars, *default_branch.1, *out->Switch_default_branch.1);
            assert(erase(out)->Switch_branches =~= adapt(ctx.param_map, stmt)->Switch_branches);
        },
        StmtView::Rethrow | StmtView::RuntimeError(_) | StmtView::Refcounting(_, _) => {},
    }
}

/// [`law_only_instructions_inserted`] for an alternative of a choice.
proof fn lemma_erase_alt<'a>(
    ctx: ContextView<'a>,
    case_live: Set<Symbol>,
    stmt: StmtView<'a>,
    out: StmtView<'a>,
)
    requires
        visitable_alt(ctx, case_live, stmt),
        visits_alt(ctx, case_live, stmt, out),
    ensures
        erase(out) == adapt(ctx.param_map, stmt),
    decreases stmt, 2nat,
{
    let (b, b_live) = choose|b: StmtView<'a>, b_live: Set<Symbol>|
        visits(ctx, stmt, b, b_live) && #[trigger] ctx.is_dec_for_alt(case_live, b_live, b, out);
    let order = choose|order: Seq<Symbol>| #[trigger]
        ctx.dec_each(order, b) == out && order.no_duplicates() && order.to_set()
            == ctx.dead_in_alt(case_live, b_live);
    law_only_instructions_inserted(ctx, stmt, b, b_live);
    lemma_dec_each(ctx, order, b);
    lemma_erase_behind(ctx, out, b, order.to_set());
}

/// The same of a procedure.
pub proof fn law_only_instructions_inserted_in_proc<'a>(
    ctx: ContextView<'a>,
    ps: Seq<Param>,
    body: StmtView<'a>,
    out: StmtView<'a>,
)
    requires
        visitable(ctx.with_params(ps), body),
        visits_proc(ctx, ps, body, out),
    ensures
        erase(out) == adapt(ctx.param_map, body),
{
    let inner = ctx.with_params(ps);
    let (b, b_live) = choose|b: StmtView<'a>, b_live: Set<Symbol>|
        {
            &&& visits(inner, body, b, b_live)
            &&& out == #[trigger] inner.dec_for_dead_params(ps, b, b_live)
        };
    lemma_with_params_keeps(ctx, ps);
    law_only_instructions_inserted(inner, body, b, b_live);
    lemma_dec_for_dead_params(inner, ps, b, b_live);
    lemma_erase_behind(inner, out, b, param_symbols(ps));
}

} // verus!
