//! Which statements the pass can work on.
use vstd::prelude::*;

use crate::borrow::Key;
use crate::erasure::{lemma_with_lets_keeps, lemma_with_params_keeps};
use crate::insertion::{
    higher_order_shape, visitable, visitable_alt, visitable_in, visits, ContextView,
};
use crate::inserted::lemma_dec_for_dead_params;
use crate::ir::{Call, CallType, Expr, JoinPointId, Param, StmtView, Symbol};
use crate::liveness::live;
use crate::liveness_laws::{law_live_vars_are_kept, lemma_live_behind, plain};
use crate::occurrence::{call_symbols, expr_symbols, param_symbols};

verus! {

/// Every one of the symbols is in scope.
pub open spec fn in_scope(ctx: ContextView, symbols: Set<Symbol>) -> bool {
    forall|x: Symbol| #[trigger] symbols.contains(x) ==> ctx.knows(x)
}

/// The parameters of the function that is called are known. A function that is passed to an
/// operation has the parameters that the operation asks for.
pub open spec fn callable<'a>(ctx: ContextView<'a>, call: Call<'a>) -> bool {
    let args = call.arguments@;
    match call.call_type {
        CallType::ByName { name, full_layout, .. } => ctx.param_map.contains_key(
            Key::Declaration(name, full_layout),
        ),
        CallType::HigherOrderLowLevel { op, closure_layout, .. } => match higher_order_shape(
            op.op,
        ) {
            Some(shape) => {
                let ps = ctx.function_params(args, shape, closure_layout)@;
                &&& shape.function < args.len()
                &&& ctx.param_map.contains_key(
                    Key::Declaration(args[shape.function], closure_layout),
                )
                &&& forall|k: int|
                    0 <= k < shape.leading.len() && (#[trigger] shape.leading[k]) is Some
                        ==> shape.leading[k]->0 < ps.len()
            },
            None => true,
        },
        CallType::LowLevel { .. } | CallType::Foreign { .. } => true,
    }
}

/// Every variable is used in scope, and the parameters of every function that is called and
/// of every join point are known.
///
/// An operation that takes a function is not invoked, and a counted pointer that an `invoke`
/// binds is used in its `pass` branch.
pub open spec fn well_formed<'a>(ctx: ContextView<'a>, stmt: StmtView<'a>) -> bool
    decreases stmt,
{
    match stmt {
        StmtView::Let(symbol, expr, layout, cont) => {
            &&& in_scope(ctx, expr_symbols(expr))
            &&& expr matches Expr::Call(call) ==> callable(ctx, call)
            &&& well_formed(ctx.with_let(symbol, layout, expr), *cont)
        },
        StmtView::Invoke { symbol, call, layout, pass, fail } => {
            &&& in_scope(ctx, call_symbols(call))
            &&& callable(ctx, call)
            &&& !(call.call_type is HigherOrderLowLevel)
            &&& layout.refcounted ==> live(*pass, ctx.jp_live_vars).contains(symbol)
            &&& well_formed(ctx.with_invoke(symbol, layout, call), *pass)
            &&& well_formed(ctx, *fail)
        },
        StmtView::Switch { cond_symbol, branches, default_branch, .. } => {
            &&& ctx.knows(cond_symbol)
            &&& forall|i: int|
                0 <= i < branches.len() ==> well_formed(ctx, (#[trigger] branches[i]).2)
            &&& well_formed(ctx, *default_branch.1)
        },
        StmtView::Join { id, continuation, remainder, .. } => {
            let ps = ctx.join_params(id)@;
            let body_live = live(*continuation, ctx.jp_live_vars);
            &&& ctx.param_map.contains_key(Key::JoinPoint(id))
            &&& well_formed(ctx.with_params(ps), *continuation)
            &&& well_formed(
                ctx.with_join_point(id, body_live.difference(param_symbols(ps))),
                *remainder,
            )
        },
        StmtView::Jump(id, arguments) => {
            &&& ctx.param_map.contains_key(Key::JoinPoint(id))
            &&& in_scope(ctx, arguments@.to_set())
        },
        StmtView::Ret(symbol) => ctx.knows(symbol),
        StmtView::Refcounting(modify, cont) => ctx.knows(modify.symbol()) && well_formed(
            ctx,
            *cont,
        ),
        StmtView::Rethrow | StmtView::RuntimeError(_) => true,
    }
}

/// The variables that are live in the join points that are known are in scope.
pub open spec fn joins_in_scope(ctx: ContextView) -> bool {
    forall|j: JoinPointId|
        #![trigger ctx.jp_live_vars[j]]
        ctx.jp_live_vars.contains_key(j) ==> in_scope(ctx, ctx.jp_live_vars[j])
}

/// What is in scope in front of `let` statements is in scope behind them.
proof fn lemma_with_lets_knows<'a>(ctx: ContextView<'a>, stmt: StmtView<'a>, x: Symbol)
    requires
        ctx.knows(x),
    ensures
        ctx.with_lets(stmt).knows(x),
    decreases stmt,
{
    match stmt {
        StmtView::Let(symbol, expr, layout, cont) => {
            lemma_with_lets_knows(ctx.with_let(symbol, layout, expr), *cont, x);
        },
        _ => {},
    }
}

/// The variables in scope behind parameters: those from before, and the parameters.
proof fn lemma_with_params_knows<'a>(ctx: ContextView<'a>, ps: Seq<Param>, x: Symbol)
    ensures
        ctx.with_params(ps).knows(x) == (ctx.knows(x) || param_symbols(ps).contains(x)),
    decreases ps.len(),
{
    if ps.len() > 0 {
        let init = ps.drop_last();
        lemma_with_params_knows(ctx, init, x);
        assert(ps[ps.len() - 1] == ps.last());
        assert(forall|i: int| 0 <= i < init.len() ==> ps[i] == #[trigger] init[i]);
        if param_symbols(ps).contains(x) && ps.last().symbol != x {
            let i = choose|i: int| 0 <= i < ps.len() && #[trigger] ps[i].symbol == x;
            assert(init[i].symbol == x);
        }
        if param_symbols(init).contains(x) {
            let i = choose|i: int| 0 <= i < init.len() && #[trigger] init[i].symbol == x;
            assert(ps[i].symbol == x);
        }
    }
}

/// Only variables in scope are live before a well-formed statement.
pub proof fn law_live_vars_are_in_scope<'a>(ctx: ContextView<'a>, stmt: StmtView<'a>)
    requires
        well_formed(ctx, stmt),
        joins_in_scope(ctx),
        plain(ctx.param_map, stmt),
    ensures
        in_scope(ctx, live(stmt, ctx.jp_live_vars)),
    decreases stmt, 0nat,
{
    let jps = ctx.jp_live_vars;
    match stmt {
        StmtView::Let(symbol, expr, layout, cont) => {
            let inner = ctx.with_let(symbol, layout, expr);
            assert(joins_in_scope(inner));
            law_live_vars_are_in_scope(inner, *cont);
        },
        StmtView::Invoke { symbol, call, layout, pass, fail } => {
            let inner = ctx.with_invoke(symbol, layout, call);
            assert(joins_in_scope(inner));
            law_live_vars_are_in_scope(inner, *pass);
            law_live_vars_are_in_scope(ctx, *fail);
        },
        StmtView::Switch { branches, default_branch, .. } => {
            assert forall|i: int| 0 <= i < branches.len() implies in_scope(
                ctx,
                live((#[trigger] branches[i]).2, jps),
            ) by {
                law_live_vars_are_in_scope(ctx, branches[i].2);
            }
            law_live_vars_are_in_scope(ctx, *default_branch.1);
        },
        StmtView::Join { id, parameters, continuation, remainder } => {
            let ps = ctx.join_params(id)@;
            lemma_body_in_scope(ctx, ps, *continuation);
            let body_live = live(*continuation, jps).difference(param_symbols(ps));
            let outer = ctx.with_join_point(id, body_live);
            assert(joins_in_scope(outer));
            law_live_vars_are_in_scope(outer, *remainder);
            assert(body_live =~= live(*continuation, jps).difference(
                param_symbols(parameters@),
            ));
        },
        StmtView::Jump(_, _)
        | StmtView::Ret(_)
        | StmtView::Refcounting(_, _)
        | StmtView::Rethrow
        | StmtView::RuntimeError(_) => {},
    }
}

/// What is live in the body of a join point is in scope, or a parameter.
proof fn lemma_body_in_scope<'a>(ctx: ContextView<'a>, ps: Seq<Param>, body: StmtView<'a>)
    requires
        well_formed(ctx.with_params(ps), body),
        joins_in_scope(ctx),
        plain(ctx.param_map, body),
    ensures
        joins_in_scope(ctx.with_params(ps)),
        in_scope(ctx, live(body, ctx.jp_live_vars).difference(param_symbols(ps))),
    decreases body, 1nat,
{
    let inner = ctx.with_params(ps);
    lemma_with_params_keeps(ctx, ps);
    assert forall|x: Symbol| inner.knows(x) == (ctx.knows(x) || param_symbols(ps).contains(x)) by {
        lemma_with_params_knows(ctx, ps, x);
    }
    law_live_vars_are_in_scope(inner, body);
}

/// The instructions around a well-formed `let` can be worked out.
proof fn lemma_declare_defined<'a>(
    ctx: ContextView<'a>,
    w: ContextView<'a>,
    symbol: Symbol,
    expr: Expr<'a>,
)
    requires
        ctx.param_map == w.param_map,
        in_scope(ctx, expr_symbols(expr)),
        ctx.knows(symbol),
        expr matches Expr::Call(call) ==> callable(w, call),
    ensures
        ctx.declare_defined(symbol, expr),
{
    match expr {
        Expr::Reuse { arguments, .. } => {
            lemma_knows_all(ctx, arguments@, expr_symbols(expr));
        },
        Expr::Tag { arguments, .. } => {
            lemma_knows_all(ctx, arguments@, expr_symbols(expr));
        },
        Expr::Struct(arguments) => {
            lemma_knows_all(ctx, arguments@, expr_symbols(expr));
        },
        Expr::Array { elems, .. } => {
            lemma_knows_all(ctx, elems@, expr_symbols(expr));
        },
        Expr::AccessAtIndex { structure, .. } => {
            assert(expr_symbols(expr).contains(structure));
        },
        Expr::Call(call) => {
            lemma_knows_all(ctx, call.arguments@, expr_symbols(expr));
        },
        _ => {},
    }
}

/// Symbols in scope are known one by one.
proof fn lemma_knows_all(ctx: ContextView, xs: Seq<Symbol>, symbols: Set<Symbol>)
    requires
        in_scope(ctx, symbols),
        xs.to_set().subset_of(symbols),
    ensures
        ctx.knows_all(xs),
{
    assert forall|i: int| 0 <= i < xs.len() implies ctx.knows(#[trigger] xs[i]) by {
        assert(xs.to_set().contains(xs[i]));
    }
}

/// The pass can work on every well-formed statement.
pub proof fn law_well_formed_is_visitable<'a>(ctx: ContextView<'a>, stmt: StmtView<'a>)
    requires
        well_formed(ctx, stmt),
        joins_in_scope(ctx),
        plain(ctx.param_map, stmt),
    ensures
        visitable(ctx, stmt),
    decreases stmt, 1nat,
{
    lemma_visitable_in(ctx, stmt);
}

/// [`law_well_formed_is_visitable`], where the statement may start with a `let`.
proof fn lemma_visitable_in<'a>(ctx: ContextView<'a>, stmt: StmtView<'a>)
    requires
        well_formed(ctx, stmt),
        joins_in_scope(ctx),
        plain(ctx.param_map, stmt),
    ensures
        visitable_in(ctx.with_lets(stmt), stmt),
    decreases stmt, 0nat,
{
    let inner = ctx.with_lets(stmt);
    let jps = ctx.jp_live_vars;
    lemma_with_lets_keeps(ctx, stmt);
    match stmt {
        StmtView::Let(symbol, expr, layout, cont) => {
            let next = ctx.with_let(symbol, layout, expr);
            assert(joins_in_scope(next));
            lemma_visitable_in(next, *cont);
            assert forall|x: Symbol| #[trigger] expr_symbols(expr).contains(x) implies inner.knows(
                x,
            ) by {
                lemma_with_lets_knows(ctx, stmt, x);
            }
            lemma_with_lets_knows(next, *cont, symbol);
            lemma_declare_defined(inner, ctx, symbol, expr);
        },
        StmtView::Invoke { symbol, call, layout, pass, fail } => {
            let next = ctx.with_invoke(symbol, layout, call);
            assert(joins_in_scope(next));
            law_live_vars_are_in_scope(ctx, stmt);
            law_well_formed_is_visitable(next, *pass);
            law_well_formed_is_visitable(ctx, *fail);
            lemma_knows_all(ctx, call.arguments@, call_symbols(call));
            assert(visitable_alt(next, live(stmt, jps), *pass));
            assert(visitable_alt(ctx, live(stmt, jps), *fail));
        },
        StmtView::Switch { branches, default_branch, .. } => {
            law_live_vars_are_in_scope(ctx, stmt);
            let case_live = live(stmt, jps);
            assert forall|i: int| 0 <= i < branches.len() implies visitable_alt(
                ctx,
                case_live,
                #[trigger] branches[i].2,
            ) by {
                assert(well_formed(ctx, branches[i].2));
                law_well_formed_is_visitable(ctx, branches[i].2);
            }
            law_well_formed_is_visitable(ctx, *default_branch.1);
            assert(visitable_alt(ctx, case_live, *default_branch.1));
        },
        StmtView::Join { id, parameters, continuation, remainder } => {
            let ps = ctx.join_params(id)@;
            let next = ctx.with_params(ps);
            lemma_with_params_keeps(ctx, ps);
            lemma_body_in_scope(ctx, ps, *continuation);
            law_well_formed_is_visitable(next, *continuation);
            let body_live = live(*continuation, jps).difference(param_symbols(ps));
            let outer = ctx.with_join_point(id, body_live);
            assert(joins_in_scope(outer));
            law_well_formed_is_visitable(outer, *remainder);
            assert forall|v: StmtView<'a>, v_live: Set<Symbol>| #[trigger]
                visits(next, *continuation, v, v_live) implies visitable(
                ctx.with_join_body(id, ps, next.dec_for_dead_params(ps, v, v_live)),
                *remainder,
            ) by {
                law_live_vars_are_kept(next, *continuation, v, v_live);
                lemma_dec_for_dead_params(next, ps, v, v_live);
                let v_out = next.dec_for_dead_params(ps, v, v_live);
                lemma_live_behind(next, v_out, v, param_symbols(ps), jps);
                assert(live(v_out, jps).difference(param_symbols(ps)) =~= body_live);
            }
        },
        StmtView::Jump(_, arguments) => {
            lemma_knows_all(ctx, arguments@, arguments@.to_set());
        },
        StmtView::Ret(_)
        | StmtView::Refcounting(_, _)
        | StmtView::Rethrow
        | StmtView::RuntimeError(_) => {},
    }
}

} // verus!
