//! The pass works on every tidy program whose functions and join points are declared.
use vstd::prelude::*;

use crate::borrow::Key;
use crate::erasure::lemma_with_params_keeps;
use crate::insertion::{higher_order_shape, initial_context, proc_params, visitable, ContextView};
use crate::ir::{Call, CallType, Expr, JoinPointId, Layout, Param, Proc, StmtView, Symbol};
use crate::liveness::live;
use crate::occurrence::{call_symbols, expr_symbols, param_symbols};
use crate::scope::{
    function_flags, function_position, names_param, operands, passed_function, tidy, Scope,
};
use crate::totals::{
    agrees, are_params_of, joins_known, lemma_agrees_invoke, lemma_agrees_let, lemma_agrees_params,
    lemma_agrees_start, lemma_proc_params, lemma_tidy_plain, lemma_unknown_unused,
};
use crate::usage::{joins_with, law_expression_symbols, lemma_live_used, used};
use crate::well_formed::{
    callable, in_scope, joins_in_scope, law_well_formed_is_visitable, well_formed,
};

verus! {

/// The function that is called, or that is passed to an operation, is declared. What is passed to
/// an operation has enough parameters to say what becomes of the arguments.
pub open spec fn call_declared<'a>(params: Map<Key, &'a [Param]>, call: Call<'a>) -> bool {
    match call.call_type {
        CallType::ByName { name, full_layout, .. } => params.contains_key(
            Key::Declaration(name, full_layout),
        ),
        CallType::HigherOrderLowLevel { op, closure_layout, .. } => op.op is Other || {
            let args = call.arguments@;
            &&& function_position(op.op) < args.len()
            &&& params.contains_key(
                Key::Declaration(args[function_position(op.op)], closure_layout),
            )
            &&& function_flags(op.op) <= passed_function(
                params,
                op.op,
                closure_layout,
                args,
            ).len()
        },
        CallType::LowLevel { .. } | CallType::Foreign { .. } => true,
    }
}

/// All functions and join points that the statement names are declared. An operation that takes a
/// function is not invoked, and a counted pointer that an `invoke` binds is used.
pub open spec fn declared<'a>(params: Map<Key, &'a [Param]>, stmt: StmtView<'a>) -> bool
    decreases stmt,
{
    match stmt {
        StmtView::Let(_, expr, _, cont) => {
            &&& expr matches Expr::Call(call) ==> call_declared(params, call)
            &&& declared(params, *cont)
        },
        StmtView::Invoke { symbol, call, layout, pass, fail } => {
            &&& call_declared(params, call)
            &&& !(call.call_type is HigherOrderLowLevel)
            &&& layout.refcounted ==> used(*pass, symbol, Set::empty(), false)
            &&& declared(params, *pass)
            &&& declared(params, *fail)
        },
        StmtView::Switch { branches, default_branch, .. } => {
            &&& forall|i: int|
                0 <= i < branches.len() ==> declared(params, (#[trigger] branches[i]).2)
            &&& declared(params, *default_branch.1)
        },
        StmtView::Join { id, continuation, remainder, .. } => {
            &&& params.contains_key(Key::JoinPoint(id))
            &&& declared(params, *continuation)
            &&& declared(params, *remainder)
        },
        StmtView::Jump(id, _) => params.contains_key(Key::JoinPoint(id)),
        StmtView::Refcounting(_, cont) => declared(params, *cont),
        StmtView::Ret(_) | StmtView::Rethrow | StmtView::RuntimeError(_) => true,
    }
}

/// A call that is declared can be worked on.
proof fn lemma_callable<'a>(ctx: ContextView<'a>, scope: Scope<'a>, call: Call<'a>)
    requires
        agrees(ctx, scope),
        call_declared(scope.params, call),
    ensures
        callable(ctx, call),
{
    if let CallType::HigherOrderLowLevel { op, closure_layout, .. } = call.call_type {
        if let Some(shape) = higher_order_shape(op.op) {
            assert(shape.function == function_position(op.op));
            let ps = passed_function(scope.params, op.op, closure_layout, call.arguments@);
            assert forall|k: int|
                0 <= k < shape.leading.len() && (#[trigger] shape.leading[k])
                    is Some implies shape.leading[k]->0 < ps.len() by {}
        }
    }
}

/// A tidy statement whose functions and join points are declared is well formed.
proof fn lemma_well_formed<'a>(ctx: ContextView<'a>, scope: Scope<'a>, stmt: StmtView<'a>)
    requires
        agrees(ctx, scope),
        joins_known(ctx.jp_live_vars, scope),
        tidy(scope.vars.dom(), scope.params, stmt),
        declared(scope.params, stmt),
    ensures
        well_formed(ctx, stmt),
    decreases stmt,
{
    let jps = ctx.jp_live_vars;
    let vars = scope.vars.dom();
    let params = scope.params;
    assert forall|y: Symbol| vars.contains(y) implies #[trigger] ctx.knows(y) by {
        assert(scope.knows(y) == ctx.knows(y));
    }
    match stmt {
        StmtView::Let(symbol, expr, layout, cont) => {
            lemma_agrees_let(ctx, scope, symbol, layout, expr);
            let inner = scope.behind_let(symbol, layout, expr);
            assert(joins_known(jps, inner));
            lemma_well_formed(ctx.with_let(symbol, layout, expr), inner, *cont);
            assert forall|y: Symbol| #[trigger] expr_symbols(expr).contains(y) implies ctx.knows(
                y,
            ) by {
                law_expression_symbols(expr, y);
                let i = choose|i: int| 0 <= i < operands(expr).len() && operands(expr)[i] == y;
                assert(vars.contains(operands(expr)[i]));
            }
            if let Expr::Call(call) = expr {
                lemma_callable(ctx, scope, call);
            }
        },
        StmtView::Invoke { symbol, call, layout, pass, fail } => {
            lemma_agrees_invoke(ctx, scope, symbol, layout, call);
            let inner = scope.behind_invoke(symbol, layout, call);
            assert(joins_known(jps, inner));
            lemma_well_formed(ctx.with_invoke(symbol, layout, call), inner, *pass);
            lemma_well_formed(ctx, scope, *fail);
            lemma_callable(ctx, scope, call);
            assert forall|y: Symbol| #[trigger] call_symbols(call).contains(y) implies ctx.knows(
                y,
            ) by {
                let i = choose|i: int|
                    0 <= i < call.arguments@.len() && call.arguments@[i] == y;
                assert(vars.contains(call.arguments@[i]));
            }
            assert(joins_with(jps, symbol) =~= Set::empty()) by {
                assert forall|j: JoinPointId| !joins_with(jps, symbol).contains(j) by {
                    if jps.contains_key(j) && jps[j].contains(symbol) {
                        assert(scope.knows(symbol));
                        assert(vars.contains(symbol));
                    }
                }
            }
            lemma_live_used(inner.vars.dom(), params, *pass, jps, symbol);
        },
        StmtView::Switch { branches, default_branch, .. } => {
            assert forall|i: int| 0 <= i < branches.len() implies well_formed(
                ctx,
                (#[trigger] branches[i]).2,
            ) by {
                assert(tidy(vars, params, branches[i].2));
                assert(declared(params, branches[i].2));
                lemma_well_formed(ctx, scope, branches[i].2);
            }
            lemma_well_formed(ctx, scope, *default_branch.1);
        },
        StmtView::Join { id, continuation, remainder, .. } => {
            let ps = ctx.join_params(id)@;
            let inner = scope.behind_params(ps);
            lemma_agrees_params(ctx, scope, ps);
            lemma_with_params_keeps(ctx, ps);
            assert forall|y: Symbol| param_symbols(ps).contains(y) == names_param(ps, y) by {}
            assert(joins_known(jps, inner)) by {
                assert forall|j: JoinPointId, y: Symbol|
                    jps.contains_key(j) && #[trigger] jps[j].contains(y) implies inner.knows(
                    y,
                ) by {
                    assert(scope.knows(y));
                    assert(vars.contains(y));
                    assert(inner.vars.dom().contains(y));
                }
            }
            lemma_well_formed(ctx.with_params(ps), inner, *continuation);
            let body_live = live(*continuation, jps).difference(param_symbols(ps));
            let outer = ctx.with_join_point(id, body_live);
            assert forall|y: Symbol| #[trigger] body_live.contains(y) implies scope.knows(y) by {
                if !scope.knows(y) {
                    assert(!inner.vars.dom().contains(y));
                    assert forall|j: JoinPointId|
                        #![trigger jps[j]]
                        jps.contains_key(j) implies !jps[j].contains(y) by {}
                    lemma_unknown_unused(
                        inner.vars.dom(),
                        params,
                        *continuation,
                        jps,
                        Set::empty(),
                        y,
                    );
                }
            }
            assert(joins_known(outer.jp_live_vars, scope));
            assert(agrees(outer, scope)) by {
                assert forall|y: Symbol| #[trigger] scope.knows(y) implies {
                    &&& outer.counted(y) == scope.vars[y].counted
                    &&& outer.vars[y].consume == scope.vars[y].owned
                } by {}
            }
            lemma_well_formed(outer, scope, *remainder);
        },
        StmtView::Jump(_, arguments) => {
            assert forall|y: Symbol| #[trigger] arguments@.to_set().contains(y) implies ctx.knows(
                y,
            ) by {
                let i = choose|i: int| 0 <= i < arguments@.len() && arguments@[i] == y;
                assert(vars.contains(arguments@[i]));
            }
        },
        _ => {},
    }
}

/// The pass can work on every tidy statement whose functions and join points are declared.
pub proof fn law_tidy_is_visitable<'a>(
    ctx: ContextView<'a>,
    scope: Scope<'a>,
    stmt: StmtView<'a>,
)
    requires
        agrees(ctx, scope),
        joins_known(ctx.jp_live_vars, scope),
        tidy(scope.vars.dom(), scope.params, stmt),
        declared(scope.params, stmt),
    ensures
        visitable(ctx, stmt),
{
    lemma_well_formed(ctx, scope, stmt);
    lemma_tidy_plain(scope.vars.dom(), scope.params, stmt);
    assert(joins_in_scope(ctx)) by {
        assert forall|j: JoinPointId|
            #![trigger ctx.jp_live_vars[j]]
            ctx.jp_live_vars.contains_key(j) implies in_scope(ctx, ctx.jp_live_vars[j]) by {
            assert forall|y: Symbol| #[trigger] ctx.jp_live_vars[j].contains(y) implies ctx.knows(
                y,
            ) by {
                assert(scope.knows(y) == ctx.knows(y));
            }
        }
    }
    law_well_formed_is_visitable(ctx, stmt);
}

/// The pass can work on every procedure with a tidy body whose functions and join points are
/// declared.
pub proof fn law_tidy_proc_is_visitable<'a>(
    params: Map<Key, &'a [Param]>,
    proc: Proc<'a>,
    layout: Layout,
    ps: Seq<Param>,
)
    requires
        are_params_of(params, proc, layout, ps),
        tidy(Scope::at_start(params).behind_params(ps).vars.dom(), params, proc.body@),
        declared(params, proc.body@),
    ensures
        visitable(
            initial_context(params).with_params(proc_params(params, proc, layout)),
            proc.body@,
        ),
{
    lemma_proc_params(params, proc, layout, ps);
    let start = Scope::at_start(params);
    lemma_agrees_start(params);
    lemma_agrees_params(initial_context(params), start, ps);
    lemma_with_params_keeps(initial_context(params), ps);
    law_tidy_is_visitable(
        initial_context(params).with_params(ps),
        start.behind_params(ps),
        proc.body@,
    );
}

} // verus!
