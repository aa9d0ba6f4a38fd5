//! Where an instruction may stand: its variable is in scope, and a part of a structure has its own
//! reference before the structure can be given up.
use vstd::prelude::*;

use crate::borrow::Key;
use crate::erasure::{lemma_with_lets_keeps, lemma_with_params_keeps};
use crate::inserted::{
    adapt_expr, behind, declared_body, lemma_dec_each, lemma_dec_for_dead_params, lemma_declare,
    lemma_inc_before,
};
use crate::insertion::{
    initial_context, proc_params, visitable, visitable_alt, visitable_in, visits, visits_alt,
    visits_in, visits_proc, ConsumePred, ContextView,
};
use crate::ir::{Expr, JoinPointId, Layout, ModifyRc, Param, Proc, StmtView, Symbol};
use crate::liveness::live;
use crate::occurrence::{expr_symbols, param_symbols};
use crate::ownership_laws::law_nothing_before_invoke;
use crate::scope::{names_param, operands, tidy, Scope};
use crate::totals::{
    agrees, are_params_of, joins_known, lemma_agrees_invoke, lemma_agrees_let, lemma_agrees_params,
    lemma_agrees_start, lemma_join_scopes, lemma_proc_params, lemma_tidy_keeps,
    lemma_unknown_unused,
};
use crate::usage::law_expression_symbols;

verus! {

/// The statement starts with an instruction that adds to the count of `x`.
pub open spec fn starts_with_inc(stmt: StmtView, x: Symbol) -> bool {
    stmt matches StmtView::Refcounting(ModifyRc::Inc(y, _), _) && y == x
}

/// Every instruction is on a variable in scope. Directly behind `let x = expr`, where `expr` is
/// a part of an owned structure and counted, `x` gets a reference of its own: the structure, and
/// the part with it, may be given up next.
pub open spec fn placed<'a>(scope: Scope<'a>, stmt: StmtView<'a>) -> bool
    decreases stmt,
{
    match stmt {
        StmtView::Refcounting(ModifyRc::Inc(x, _), cont) => scope.knows(x) && placed(scope, *cont),
        StmtView::Refcounting(ModifyRc::Dec(x), cont) => scope.knows(x) && placed(scope, *cont),
        StmtView::Refcounting(ModifyRc::DecRef(x), cont) => scope.knows(x) && placed(scope, *cont),
        StmtView::Let(symbol, expr, layout, cont) => {
            let inner = scope.behind_let(symbol, layout, expr);
            &&& expr is AccessAtIndex && inner.owns(symbol) ==> starts_with_inc(*cont, symbol)
            &&& placed(inner, *cont)
        },
        StmtView::Invoke { symbol, call, layout, pass, fail } => {
            &&& placed(scope.behind_invoke(symbol, layout, call), *pass)
            &&& placed(scope, *fail)
        },
        StmtView::Switch { branches, default_branch, .. } => {
            &&& forall|i: int| 0 <= i < branches.len() ==> placed(scope, (#[trigger] branches[i]).2)
            &&& placed(scope, *default_branch.1)
        },
        StmtView::Join { parameters, continuation, remainder, .. } => {
            &&& placed(scope.behind_params(parameters@), *continuation)
            &&& placed(scope, *remainder)
        },
        StmtView::Ret(_)
        | StmtView::Jump(_, _)
        | StmtView::Rethrow
        | StmtView::RuntimeError(_) => true,
    }
}

/// Instructions on variables in scope may stand in front of a statement.
proof fn lemma_placed_behind<'a>(
    ctx: ContextView<'a>,
    scope: Scope<'a>,
    out: StmtView<'a>,
    b: StmtView<'a>,
    symbols: Set<Symbol>,
)
    requires
        behind(ctx, out, b, symbols),
        forall|y: Symbol| #[trigger] symbols.contains(y) ==> scope.knows(y),
        placed(scope, b),
    ensures
        placed(scope, out),
    decreases out,
{
    if out != b {
        match out {
            StmtView::Refcounting(modify, cont) => {
                lemma_placed_behind(ctx, scope, *cont, b, symbols);
                assert(symbols.contains(modify.symbol()));
            },
            _ => {},
        }
    }
}

/// Only variables in scope are live before a tidy statement.
proof fn lemma_live_known<'a>(
    scope: Scope<'a>,
    stmt: StmtView<'a>,
    jps: Map<JoinPointId, Set<Symbol>>,
)
    requires
        joins_known(jps, scope),
        tidy(scope.vars.dom(), scope.params, stmt),
    ensures
        forall|y: Symbol| #[trigger] live(stmt, jps).contains(y) ==> scope.knows(y),
{
    assert forall|y: Symbol| #[trigger] live(stmt, jps).contains(y) implies scope.knows(y) by {
        if !scope.knows(y) {
            assert(!scope.vars.dom().contains(y));
            lemma_unknown_unused(
                scope.vars.dom(),
                scope.params,
                stmt,
                jps,
                Set::<JoinPointId>::empty(),
                y,
            );
        }
    }
}

/// In what the pass leaves, every instruction is on a variable in scope, and the part of an owned
/// structure has a reference of its own before anything else is done.
pub proof fn law_instructions_are_placed<'a>(
    ctx: ContextView<'a>,
    scope: Scope<'a>,
    stmt: StmtView<'a>,
    out: StmtView<'a>,
    live_vars: Set<Symbol>,
)
    requires
        agrees(ctx, scope),
        joins_known(ctx.jp_live_vars, scope),
        tidy(scope.vars.dom(), scope.params, stmt),
        visitable(ctx, stmt),
        visits(ctx, stmt, out, live_vars),
    ensures
        placed(scope, out),
    decreases stmt, 2nat,
{
    lemma_placed_in(ctx, scope, stmt, out, live_vars);
}

/// An alternative of a choice before which `case_live` are live.
proof fn lemma_placed_alt<'a>(
    ctx: ContextView<'a>,
    scope: Scope<'a>,
    case_live: Set<Symbol>,
    stmt: StmtView<'a>,
    out: StmtView<'a>,
)
    requires
        agrees(ctx, scope),
        joins_known(ctx.jp_live_vars, scope),
        tidy(scope.vars.dom(), scope.params, stmt),
        visitable_alt(ctx, case_live, stmt),
        visits_alt(ctx, case_live, stmt, out),
        forall|y: Symbol| #[trigger] case_live.contains(y) ==> scope.knows(y),
    ensures
        placed(scope, out),
    decreases stmt, 3nat,
{
    let (b, b_live) = choose|b: StmtView<'a>, b_live: Set<Symbol>|
        visits(ctx, stmt, b, b_live) && #[trigger] ctx.is_dec_for_alt(case_live, b_live, b, out);
    let order = choose|order: Seq<Symbol>| #[trigger]
        ctx.dec_each(order, b) == out && order.no_duplicates() && order.to_set()
            == ctx.dead_in_alt(case_live, b_live);
    law_instructions_are_placed(ctx, scope, stmt, b, b_live);
    lemma_dec_each(ctx, order, b);
    assert forall|y: Symbol| #[trigger] order.to_set().contains(y) implies scope.knows(y) by {
        assert(case_live.contains(y));
    }
    lemma_placed_behind(ctx, scope, out, b, order.to_set());
}

/// `let z = v` in front of a statement in which the instructions are placed.
proof fn lemma_placed_let<'a>(
    ctx: ContextView<'a>,
    scope: Scope<'a>,
    z: Symbol,
    v: Expr<'a>,
    l: Layout,
    b: StmtView<'a>,
    b_live: Set<Symbol>,
)
    requires
        ctx.param_map == scope.params,
        ctx.declare_defined(z, v),
        forall|i: int| 0 <= i < operands(v).len() ==> scope.knows(#[trigger] operands(v)[i]),
        ctx.counted(z) == scope.behind_let(z, l, v).vars[z].counted,
        v matches Expr::AccessAtIndex { structure, .. } ==> ctx.vars[structure].consume
            == scope.vars[structure].owned,
        placed(scope.behind_let(z, l, v), b),
    ensures
        placed(scope, ctx.declare(z, v, l, b, b_live)),
{
    let w = adapt_expr(ctx.param_map, v);
    let inner = scope.behind_let(z, l, v);
    let body = declared_body(ctx, z, v, b, b_live);
    let bound = StmtView::Let(z, w, l, Box::new(body));
    assert(scope.behind_let(z, l, w) == inner);
    lemma_declare(ctx, z, v, l, b, b_live);
    assert forall|y: Symbol| #[trigger] expr_symbols(v).contains(y) implies scope.knows(y) by {
        law_expression_symbols(v, y);
    }
    let more = expr_symbols(v).insert(z);
    assert forall|y: Symbol| #[trigger] more.contains(y) implies inner.knows(y) by {
        if y != z {
            assert(scope.knows(y));
        }
    }
    lemma_placed_behind(ctx, inner, body, b, more);
    if let Expr::AccessAtIndex { structure, .. } = v {
        assert(operands(v)[0] == structure);
        assert(inner.owns(z) ==> starts_with_inc(body, z));
    }
    assert(placed(scope, bound));
    lemma_placed_behind(ctx, scope, ctx.declare(z, v, l, b, b_live), bound, expr_symbols(v));
}

/// [`law_instructions_are_placed`], where the statement may start with a `let`.
proof fn lemma_placed_in<'a>(
    w: ContextView<'a>,
    scope: Scope<'a>,
    stmt: StmtView<'a>,
    out: StmtView<'a>,
    live_vars: Set<Symbol>,
)
    requires
        agrees(w, scope),
        joins_known(w.jp_live_vars, scope),
        tidy(scope.vars.dom(), scope.params, stmt),
        visitable_in(w.with_lets(stmt), stmt),
        visits_in(w.with_lets(stmt), stmt, out, live_vars),
    ensures
        placed(scope, out),
    decreases stmt, 1nat,
{
    let ctx = w.with_lets(stmt);
    let vars = scope.vars.dom();
    let params = scope.params;
    let jps = w.jp_live_vars;
    lemma_with_lets_keeps(w, stmt);
    match stmt {
        StmtView::Let(symbol, expr, layout, cont) => {
            let (b, b_live) = choose|b: StmtView<'a>, b_live: Set<Symbol>|
                {
                    &&& visits_in(ctx, *cont, b, b_live)
                    &&& out == #[trigger] ctx.declare(symbol, expr, layout, b, b_live)
                    &&& live_vars == b_live.union(expr_symbols(expr)).remove(symbol)
                };
            let next = w.with_let(symbol, layout, expr);
            let inner = scope.behind_let(symbol, layout, expr);
            lemma_agrees_let(w, scope, symbol, layout, expr);
            assert(joins_known(next.jp_live_vars, inner));
            lemma_placed_in(next, inner, *cont, b, b_live);
            assert(inner.knows(symbol));
            lemma_tidy_keeps(next, inner.vars.dom(), params, *cont, symbol);
            assert forall|i: int| 0 <= i < operands(expr).len() implies scope.knows(
                #[trigger] operands(expr)[i],
            ) by {
                assert(vars.contains(operands(expr)[i]));
            }
            if let Expr::AccessAtIndex { structure, .. } = expr {
                assert(operands(expr)[0] == structure);
                assert(scope.knows(structure));
                lemma_tidy_keeps(w, vars, params, stmt, structure);
            }
            lemma_placed_let(ctx, scope, symbol, expr, layout, b, b_live);
        },
        StmtView::Invoke { symbol, call, layout, pass, fail } => {
            let next = w.with_invoke(symbol, layout, call);
            let inner = scope.behind_invoke(symbol, layout, call);
            let (pass_out, fail_out) = choose|pass_out: StmtView<'a>, fail_out: StmtView<'a>|
                {
                    &&& visits_alt(next, live_vars, *pass, pass_out)
                    &&& visits_alt(w, live_vars, *fail, fail_out)
                    &&& out == #[trigger] w.before_invoke(
                        call,
                        StmtView::Invoke {
                            symbol,
                            call,
                            layout,
                            pass: Box::new(pass_out),
                            fail: Box::new(fail_out),
                        },
                        live_vars,
                    )
                };
            let invoke = StmtView::Invoke {
                symbol,
                call,
                layout,
                pass: Box::new(pass_out),
                fail: Box::new(fail_out),
            };
            law_nothing_before_invoke(w, call, invoke, live_vars);
            lemma_agrees_invoke(w, scope, symbol, layout, call);
            assert(joins_known(next.jp_live_vars, inner));
            lemma_live_known(scope, stmt, jps);
            assert forall|y: Symbol| #[trigger] live_vars.contains(y) implies inner.knows(y) by {
                assert(scope.knows(y));
            }
            lemma_placed_alt(next, inner, live_vars, *pass, pass_out);
            lemma_placed_alt(w, scope, live_vars, *fail, fail_out);
        },
        StmtView::Join { id, continuation, remainder, .. } => {
            let ps = w.join_params(id)@;
            let next = w.with_params(ps);
            let inner = scope.behind_params(ps);
            let v_out = *out->Join_continuation;
            let b = *out->Join_remainder;
            let (v, v_live) = choose|v: StmtView<'a>, v_live: Set<Symbol>|
                {
                    &&& visits(next, *continuation, v, v_live)
                    &&& v_out == #[trigger] next.dec_for_dead_params(ps, v, v_live)
                };
            lemma_agrees_params(w, scope, ps);
            lemma_join_scopes(w, scope, stmt, v, v_live);
            law_instructions_are_placed(next, inner, *continuation, v, v_live);
            lemma_dec_for_dead_params(next, ps, v, v_live);
            assert forall|y: Symbol| #[trigger] param_symbols(ps).contains(y) implies inner.knows(
                y,
            ) by {
                assert(names_param(ps, y));
                assert(inner.vars.dom().contains(y));
            }
            lemma_placed_behind(next, inner, v_out, v, param_symbols(ps));
            let outer = w.with_join_body(id, ps, v_out);
            law_instructions_are_placed(outer, scope, *remainder, b, live_vars);
        },
        StmtView::Ret(x) => {
            reveal_with_fuel(placed, 2);
            assert(scope.knows(x));
        },
        StmtView::Jump(id, xs) => {
            assert(xs.len() == xs@.len());
            lemma_inc_before(
                w,
                xs@,
                ConsumePred::Params(w.join_params(id)),
                stmt,
                w.join_live(id),
                xs@.len(),
            );
            assert forall|y: Symbol| #[trigger] xs@.to_set().contains(y) implies scope.knows(
                y,
            ) by {
                let i = choose|i: int| 0 <= i < xs@.len() && xs@[i] == y;
                assert(vars.contains(xs@[i]));
            }
            lemma_placed_behind(w, scope, out, stmt, xs@.to_set());
        },
        StmtView::Switch { branches, default_branch, .. } => {
            let bs = out->Switch_branches;
            lemma_live_known(scope, stmt, jps);
            assert forall|i: int| 0 <= i < bs.len() implies placed(
                scope,
                (#[trigger] bs[i]).2,
            ) by {
                assert(visitable_alt(w, live_vars, branches[i].2));
                assert(tidy(vars, params, branches[i].2));
                lemma_placed_alt(w, scope, live_vars, branches[i].2, bs[i].2);
            }
            lemma_placed_alt(
                w,
                scope,
                live_vars,
                *default_branch.1,
                *out->Switch_default_branch.1,
            );
        },
        StmtView::Rethrow | StmtView::RuntimeError(_) | StmtView::Refcounting(_, _) => {},
    }
}

/// The same of a procedure.
pub proof fn law_instructions_are_placed_in_proc<'a>(
    params: Map<Key, &'a [Param]>,
    proc: Proc<'a>,
    layout: Layout,
    ps: Seq<Param>,
    out: StmtView<'a>,
)
    requires
        are_params_of(params, proc, layout, ps),
        tidy(Scope::at_start(params).behind_params(ps).vars.dom(), params, proc.body@),
        visitable(
            initial_context(params).with_params(proc_params(params, proc, layout)),
            proc.body@,
        ),
        visits_proc(
            initial_context(params),
            proc_params(params, proc, layout),
            proc.body@,
            out,
        ),
    ensures
        placed(Scope::at_start(params).behind_params(ps), out),
{
    lemma_proc_params(params, proc, layout, ps);
    let start = Scope::at_start(params);
    let scope = start.behind_params(ps);
    let ctx = initial_context(params).with_params(ps);
    lemma_agrees_start(params);
    lemma_agrees_params(initial_context(params), start, ps);
    lemma_with_params_keeps(initial_context(params), ps);
    let (b, b_live) = choose|b: StmtView<'a>, b_live: Set<Symbol>|
        {
            &&& visits(ctx, proc.body@, b, b_live)
            &&& out == #[trigger] ctx.dec_for_dead_params(ps, b, b_live)
        };
    assert(joins_known(ctx.jp_live_vars, scope));
    law_instructions_are_placed(ctx, scope, proc.body@, b, b_live);
    lemma_dec_for_dead_params(ctx, ps, b, b_live);
    assert forall|y: Symbol| #[trigger] param_symbols(ps).contains(y) implies scope.knows(y) by {
        assert(names_param(ps, y));
        assert(scope.vars.dom().contains(y));
    }
    lemma_placed_behind(ctx, scope, out, b, param_symbols(ps));
}

} // verus!
