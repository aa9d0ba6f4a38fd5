//! Only counted values have their count changed, and never by nothing.
use vstd::prelude::*;

use crate::borrow::Key;
use crate::erasure::{lemma_before_invoke, lemma_with_lets_keeps, lemma_with_params_keeps};
use crate::inserted::{
    adapt_expr, behind, declared_body, legal, lemma_dec_each, lemma_dec_for_dead_params,
    lemma_declare, lemma_inc_before,
};
use crate::insertion::{
    visitable, visitable_alt, visitable_in, visits, visits_alt, visits_in, visits_proc, ConsumePred,
    ContextView,
};
use crate::ir::{ModifyRc, Param, StmtView, Symbol};
use crate::occurrence::{expr_symbols, param_symbols};

verus! {

/// Does the instruction stand somewhere in a statement?
pub open spec fn holds_instruction(stmt: StmtView, modify: ModifyRc) -> bool
    decreases stmt,
{
    match stmt {
        StmtView::Let(_, _, _, cont) => holds_instruction(*cont, modify),
        StmtView::Invoke { pass, fail, .. } => holds_instruction(*pass, modify)
            || holds_instruction(*fail, modify),
        StmtView::Switch { branches, default_branch, .. } => {
            ||| exists|i: int|
                0 <= i < branches.len() && holds_instruction(#[trigger] branches[i].2, modify)
            ||| holds_instruction(*default_branch.1, modify)
        },
        StmtView::Refcounting(m, cont) => m == modify || holds_instruction(*cont, modify),
        StmtView::Join { continuation, remainder, .. } => holds_instruction(*continuation, modify)
            || holds_instruction(*remainder, modify),
        StmtView::Ret(_)
        | StmtView::Rethrow
        | StmtView::Jump(_, _)
        | StmtView::RuntimeError(_) => false,
    }
}

/// Does a `let`, an `invoke` or a join point of the statement bind `x`?
pub open spec fn rebinds<'a>(
    param_map: Map<Key, &'a [Param]>,
    stmt: StmtView<'a>,
    x: Symbol,
) -> bool
    decreases stmt,
{
    match stmt {
        StmtView::Let(symbol, _, _, cont) => symbol == x || rebinds(param_map, *cont, x),
        StmtView::Invoke { symbol, pass, fail, .. } => {
            ||| symbol == x
            ||| rebinds(param_map, *pass, x)
            ||| rebinds(param_map, *fail, x)
        },
        StmtView::Switch { branches, default_branch, .. } => {
            ||| exists|i: int|
                0 <= i < branches.len() && rebinds(param_map, #[trigger] branches[i].2, x)
            ||| rebinds(param_map, *default_branch.1, x)
        },
        StmtView::Join { id, continuation, remainder, .. } => {
            ||| param_symbols(param_map[Key::JoinPoint(id)]@).contains(x)
            ||| rebinds(param_map, *continuation, x)
            ||| rebinds(param_map, *remainder, x)
        },
        StmtView::Refcounting(_, _)
        | StmtView::Ret(_)
        | StmtView::Rethrow
        | StmtView::Jump(_, _)
        | StmtView::RuntimeError(_) => false,
    }
}

/// The instruction does not change a count by nothing.
pub open spec fn changes_something(modify: ModifyRc) -> bool {
    match modify {
        ModifyRc::Inc(_, n) => n >= 1,
        ModifyRc::Dec(_) | ModifyRc::DecRef(_) => true,
    }
}

/// Why an instruction stands behind the pass: it stood there before, or it changes the count
/// of something that is counted where it stands.
spec fn explained<'a>(ctx: ContextView<'a>, stmt: StmtView<'a>, modify: ModifyRc) -> bool {
    ||| holds_instruction(stmt, modify)
    ||| changes_something(modify) && (rebinds(ctx.param_map, stmt, modify.symbol()) || legal(
        ctx,
        modify,
    ))
}

/// An instruction that stands behind the pass in front of `b` was inserted or stands in `b`.
proof fn lemma_holds_behind<'a>(
    ctx: ContextView<'a>,
    out: StmtView<'a>,
    b: StmtView<'a>,
    symbols: Set<Symbol>,
    modify: ModifyRc,
)
    requires
        behind(ctx, out, b, symbols),
        holds_instruction(out, modify),
    ensures
        holds_instruction(b, modify) || legal(ctx, modify),
    decreases out,
{
    if out != b {
        match out {
            StmtView::Refcounting(m, cont) => {
                if m != modify {
                    lemma_holds_behind(ctx, *cont, b, symbols, modify);
                }
            },
            _ => {},
        }
    }
}

/// What the `let` statements in front of a statement do not bind stays known as it was.
proof fn lemma_with_lets_vars<'a>(ctx: ContextView<'a>, stmt: StmtView<'a>, x: Symbol)
    requires
        !rebinds(ctx.param_map, stmt, x),
    ensures
        ctx.with_lets(stmt).vars[x] == ctx.vars[x],
    decreases stmt,
{
    match stmt {
        StmtView::Let(symbol, expr, layout, cont) => {
            lemma_with_lets_vars(ctx.with_let(symbol, layout, expr), *cont, x);
        },
        _ => {},
    }
}

/// What is not among the parameters stays known as it was.
proof fn lemma_with_params_vars<'a>(ctx: ContextView<'a>, ps: Seq<Param>, x: Symbol)
    requires
        !param_symbols(ps).contains(x),
    ensures
        ctx.with_params(ps).vars[x] == ctx.vars[x],
    decreases ps.len(),
{
    if ps.len() > 0 {
        let init = ps.drop_last();
        assert(ps[ps.len() - 1].symbol == ps.last().symbol);
        assert(!param_symbols(init).contains(x)) by {
            if param_symbols(init).contains(x) {
                let i = choose|i: int| 0 <= i < init.len() && #[trigger] init[i].symbol == x;
                assert(ps[i].symbol == x);
            }
        }
        lemma_with_params_vars(ctx, init, x);
    }
}

/// An instruction of the pass never adds zero to a count; and it never adds to or takes from
/// the count of a symbol that is persistent or is never a reference, unless the statement
/// binds that symbol anew.
pub proof fn law_only_counted_values_change<'a>(
    ctx: ContextView<'a>,
    stmt: StmtView<'a>,
    out: StmtView<'a>,
    live_vars: Set<Symbol>,
    modify: ModifyRc,
)
    requires
        visitable(ctx, stmt),
        visits(ctx, stmt, out, live_vars),
        holds_instruction(out, modify),
        !holds_instruction(stmt, modify),
    ensures
        changes_something(modify),
        !(modify is DecRef) && !rebinds(ctx.param_map, stmt, modify.symbol()) ==> ctx.counted(
            modify.symbol(),
        ),
{
    lemma_explained(ctx, stmt, out, live_vars, modify);
}

/// The same of a procedure, whose parameters are known.
pub proof fn law_only_counted_values_change_in_proc<'a>(
    ctx: ContextView<'a>,
    ps: Seq<Param>,
    body: StmtView<'a>,
    out: StmtView<'a>,
    modify: ModifyRc,
)
    requires
        visitable(ctx.with_params(ps), body),
        visits_proc(ctx, ps, body, out),
        holds_instruction(out, modify),
        !holds_instruction(body, modify),
    ensures
        changes_something(modify),
        !(modify is DecRef) && !rebinds(ctx.param_map, body, modify.symbol())
            ==> ctx.with_params(ps).counted(modify.symbol()),
{
    let inner = ctx.with_params(ps);
    let (b, b_live) = choose|b: StmtView<'a>, b_live: Set<Symbol>|
        {
            &&& visits(inner, body, b, b_live)
            &&& out == #[trigger] inner.dec_for_dead_params(ps, b, b_live)
        };
    lemma_with_params_keeps(ctx, ps);
    lemma_dec_for_dead_params(inner, ps, b, b_live);
    lemma_holds_behind(inner, out, b, param_symbols(ps), modify);
    if holds_instruction(b, modify) {
        lemma_explained(inner, body, b, b_live, modify);
    }
}

/// Every instruction behind the pass is explained.
proof fn lemma_explained<'a>(
    ctx: ContextView<'a>,
    stmt: StmtView<'a>,
    out: StmtView<'a>,
    live_vars: Set<Symbol>,
    modify: ModifyRc,
)
    requires
        visitable(ctx, stmt),
        visits(ctx, stmt, out, live_vars),
        holds_instruction(out, modify),
    ensures
        explained(ctx, stmt, modify),
    decreases stmt, 1nat,
{
    lemma_with_lets_keeps(ctx, stmt);
    lemma_explained_in(ctx.with_lets(stmt), stmt, out, live_vars, modify);
    if !rebinds(ctx.param_map, stmt, modify.symbol()) {
        lemma_with_lets_vars(ctx, stmt, modify.symbol());
    }
}

/// [`lemma_explained`] in a context that knows the `let` statements in front.
proof fn lemma_explained_in<'a>(
    ctx: ContextView<'a>,
    stmt: StmtView<'a>,
    out: StmtView<'a>,
    live_vars: Set<Symbol>,
    modify: ModifyRc,
)
    requires
        visitable_in(ctx, stmt),
        visits_in(ctx, stmt, out, live_vars),
        holds_instruction(out, modify),
    ensures
        explained(ctx, stmt, modify),
    decreases stmt, 0nat,
{
    match stmt {
        StmtView::Let(symbol, expr, layout, cont) => {
            let (b, b_live) = choose|b: StmtView<'a>, b_live: Set<Symbol>|
                {
                    &&& visits_in(ctx, *cont, b, b_live)
                    &&& out == #[trigger] ctx.declare(symbol, expr, layout, b, b_live)
                    &&& live_vars == b_live.union(expr_symbols(expr)).remove(symbol)
                };
            lemma_declare(ctx, symbol, expr, layout, b, b_live);
            let body = declared_body(ctx, symbol, expr, b, b_live);
            let bound = StmtView::Let(
                symbol,
                adapt_expr(ctx.param_map, expr),
                layout,
                Box::new(body),
            );
            lemma_holds_behind(ctx, out, bound, expr_symbols(expr), modify);
            if holds_instruction(bound, modify) {
                lemma_holds_behind(ctx, body, b, expr_symbols(expr).insert(symbol), modify);
                if holds_instruction(b, modify) {
                    lemma_explained_in(ctx, *cont, b, b_live, modify);
                }
            }
        },
        StmtView::Invoke { symbol, call, layout, pass, fail } => {
            let (pass_out, fail_out) = choose|pass_out: StmtView<'a>, fail_out: StmtView<'a>|
                {
                    &&& visits_alt(
                        ctx.with_invoke(symbol, layout, call),
                        live_vars,
                        *pass,
                        pass_out,
                    )
                    &&& visits_alt(ctx, live_vars, *fail, fail_out)
                    &&& out == #[trigger] ctx.before_invoke(
                        call,
                        StmtView::Invoke {
                            symbol,
                            call,
                            layout,
                            pass: Box::new(pass_out),
                            fail: Box::new(fail_out),
                        },
                        live_vars,
                    )
                };
            let invoke = StmtView::Invoke {
                symbol,
                call,
                layout,
                pass: Box::new(pass_out),
                fail: Box::new(fail_out),
            };
            lemma_before_invoke(ctx, call, invoke, live_vars);
            lemma_holds_behind(ctx, out, invoke, call.arguments@.to_set(), modify);
            if holds_instruction(pass_out, modify) {
                lemma_explained_alt(
                    ctx.with_invoke(symbol, layout, call),
                    live_vars,
                    *pass,
                    pass_out,
                    modify,
                );
            }
            if holds_instruction(fail_out, modify) {
                lemma_explained_alt(ctx, live_vars, *fail, fail_out, modify);
            }
        },
        StmtView::Join { id, continuation, remainder, .. } => {
            let ps = ctx.join_params(id)@;
            let v_ctx = ctx.with_params(ps);
            let v_out = *out->Join_continuation;
            let b = *out->Join_remainder;
            let (v, v_live) = choose|v: StmtView<'a>, v_live: Set<Symbol>|
                {
                    &&& visits(v_ctx, *continuation, v, v_live)
                    &&& v_out == #[trigger] v_ctx.dec_for_dead_params(ps, v, v_live)
                };
            lemma_with_params_keeps(ctx, ps);
            if holds_instruction(v_out, modify) {
                lemma_dec_for_dead_params(v_ctx, ps, v, v_live);
                lemma_holds_behind(v_ctx, v_out, v, param_symbols(ps), modify);
                if !param_symbols(ps).contains(modify.symbol()) {
                    lemma_with_params_vars(ctx, ps, modify.symbol());
                }
                if holds_instruction(v, modify) {
                    lemma_explained(v_ctx, *continuation, v, v_live, modify);
                }
            } else {
                lemma_explained(
                    ctx.with_join_body(id, ps, v_out),
                    *remainder,
                    b,
                    live_vars,
                    modify,
                );
            }
        },
        StmtView::Ret(_) => {
            reveal_with_fuel(holds_instruction, 2);
        },
        StmtView::Jump(id, xs) => {
            assert(xs.len() == xs@.len());
            let ps = ctx.join_params(id);
            lemma_inc_before(
                ctx,
                xs@,
                ConsumePred::Params(ps),
                stmt,
                ctx.join_live(id),
                xs@.len(),
            );
            lemma_holds_behind(ctx, out, stmt, xs@.to_set(), modify);
        },
        StmtView::Switch { branches, default_branch, .. } => {
            let bs = out->Switch_branches;
            if holds_instruction(*out->Switch_default_branch.1, modify) {
                lemma_explained_alt(
                    ctx,
                    live_vars,
                    *default_branch.1,
                    *out->Switch_default_branch.1,
                    modify,
                );
            } else {
                let i = choose|i: int|
                    0 <= i < bs.len() && holds_instruction(#[trigger] bs[i].2, modify);
                assert(visitable_alt(ctx, live_vars, branches[i].2));
                lemma_explained_alt(ctx, live_vars, branches[i].2, bs[i].2, modify);
            }
        },
        StmtView::Rethrow | StmtView::RuntimeError(_) | StmtView::Refcounting(_, _) => {},
    }
}

/// [`lemma_explained`] for an alternative of a choice.
proof fn lemma_explained_alt<'a>(
    ctx: ContextView<'a>,
    case_live: Set<Symbol>,
    stmt: StmtView<'a>,
    out: StmtView<'a>,
    modify: ModifyRc,
)
    requires
        visitable_alt(ctx, case_live, stmt),
        visits_alt(ctx, case_live, stmt, out),
        holds_instruction(out, modify),
    ensures
        explained(ctx, stmt, modify),
    decreases stmt, 2nat,
{
    let (b, b_live) = choose|b: StmtView<'a>, b_live: Set<Symbol>|
        visits(ctx, stmt, b, b_live) && #[trigger] ctx.is_dec_for_alt(case_live, b_live, b, out);
    let order = choose|order: Seq<Symbol>| #[trigger]
        ctx.dec_each(order, b) == out && order.no_duplicates() && order.to_set()
            == ctx.dead_in_alt(case_live, b_live);
    lemma_dec_each(ctx, order, b);
    lemma_holds_behind(ctx, out, b, order.to_set(), modify);
    if holds_instruction(b, modify) {
        lemma_explained(ctx, stmt, b, b_live, modify);
    }
}

/// Wherever an instruction of the statement adds to or takes from the count of `x` and `x` is in
/// scope, `x` is counted.
pub open spec fn counted_where_changed<'a>(
    ctx: ContextView<'a>,
    stmt: StmtView<'a>,
    x: Symbol,
) -> bool
    decreases stmt,
{
    match stmt {
        StmtView::Let(symbol, expr, layout, cont) => counted_where_changed(
            ctx.with_let(symbol, layout, expr),
            *cont,
            x,
        ),
        StmtView::Invoke { symbol, call, layout, pass, fail } => {
            &&& counted_where_changed(ctx.with_invoke(symbol, layout, call), *pass, x)
            &&& counted_where_changed(ctx, *fail, x)
        },
        StmtView::Switch { branches, default_branch, .. } => {
            &&& forall|i: int|
                0 <= i < branches.len() ==> counted_where_changed(
                    ctx,
                    (#[trigger] branches[i]).2,
                    x,
                )
            &&& counted_where_changed(ctx, *default_branch.1, x)
        },
        StmtView::Refcounting(modify, cont) => {
            &&& modify.symbol() == x && !(modify is DecRef) && ctx.knows(x) ==> ctx.counted(x)
            &&& counted_where_changed(ctx, *cont, x)
        },
        StmtView::Join { id, continuation, remainder, .. } => {
            &&& counted_where_changed(ctx.with_params(ctx.join_params(id)@), *continuation, x)
            &&& counted_where_changed(ctx, *remainder, x)
        },
        StmtView::Ret(_)
        | StmtView::Rethrow
        | StmtView::Jump(_, _)
        | StmtView::RuntimeError(_) => true,
    }
}

/// `x` is not bound again where it is in scope.
pub open spec fn unshadowed<'a>(ctx: ContextView<'a>, stmt: StmtView<'a>, x: Symbol) -> bool
    decreases stmt,
{
    match stmt {
        StmtView::Let(symbol, expr, layout, cont) => {
            &&& ctx.knows(x) ==> symbol != x
            &&& unshadowed(ctx.with_let(symbol, layout, expr), *cont, x)
        },
        StmtView::Invoke { symbol, call, layout, pass, fail } => {
            &&& ctx.knows(x) ==> symbol != x
            &&& unshadowed(ctx.with_invoke(symbol, layout, call), *pass, x)
            &&& unshadowed(ctx, *fail, x)
        },
        StmtView::Switch { branches, default_branch, .. } => {
            &&& forall|i: int|
                0 <= i < branches.len() ==> unshadowed(ctx, (#[trigger] branches[i]).2, x)
            &&& unshadowed(ctx, *default_branch.1, x)
        },
        StmtView::Refcounting(_, cont) => unshadowed(ctx, *cont, x),
        StmtView::Join { id, continuation, remainder, .. } => {
            let ps = ctx.join_params(id)@;
            &&& ctx.knows(x) ==> !param_symbols(ps).contains(x)
            &&& unshadowed(ctx.with_params(ps), *continuation, x)
            &&& unshadowed(ctx, *remainder, x)
        },
        StmtView::Ret(_)
        | StmtView::Rethrow
        | StmtView::Jump(_, _)
        | StmtView::RuntimeError(_) => true,
    }
}

/// What is known of a variable that is not bound again stays known.
proof fn lemma_unshadowed_keeps<'a>(w: ContextView<'a>, stmt: StmtView<'a>, x: Symbol)
    requires
        unshadowed(w, stmt, x),
        w.knows(x),
    ensures
        w.with_lets(stmt).vars[x] == w.vars[x],
    decreases stmt,
{
    match stmt {
        StmtView::Let(symbol, expr, layout, cont) => {
            lemma_unshadowed_keeps(w.with_let(symbol, layout, expr), *cont, x);
        },
        _ => {},
    }
}

/// Contexts with the same parameters differ only where they did before.
pub proof fn lemma_with_params_same<'a>(w1: ContextView<'a>, w2: ContextView<'a>, ps: Seq<Param>)
    requires
        w1.vars == w2.vars,
        w1.param_map == w2.param_map,
    ensures
        w1.with_params(ps).vars == w2.with_params(ps).vars,
        w1.with_params(ps).param_map == w2.with_params(ps).param_map,
    decreases ps.len(),
{
    if ps.len() > 0 {
        lemma_with_params_same(w1, w2, ps.drop_last());
    }
}

/// What is known to be live in join points does not matter to either.
proof fn lemma_same_variables<'a>(
    w1: ContextView<'a>,
    w2: ContextView<'a>,
    stmt: StmtView<'a>,
    x: Symbol,
)
    requires
        w1.vars == w2.vars,
        w1.param_map == w2.param_map,
    ensures
        counted_where_changed(w1, stmt, x) == counted_where_changed(w2, stmt, x),
        unshadowed(w1, stmt, x) == unshadowed(w2, stmt, x),
    decreases stmt,
{
    match stmt {
        StmtView::Let(symbol, expr, layout, cont) => {
            lemma_same_variables(
                w1.with_let(symbol, layout, expr),
                w2.with_let(symbol, layout, expr),
                *cont,
                x,
            );
        },
        StmtView::Invoke { symbol, call, layout, pass, fail } => {
            lemma_same_variables(
                w1.with_invoke(symbol, layout, call),
                w2.with_invoke(symbol, layout, call),
                *pass,
                x,
            );
            lemma_same_variables(w1, w2, *fail, x);
        },
        StmtView::Switch { branches, default_branch, .. } => {
            assert forall|i: int| 0 <= i < branches.len() implies counted_where_changed(
                w1,
                (#[trigger] branches[i]).2,
                x,
            ) == counted_where_changed(w2, branches[i].2, x) && unshadowed(w1, branches[i].2, x)
                == unshadowed(w2, branches[i].2, x) by {
                lemma_same_variables(w1, w2, branches[i].2, x);
            }
            lemma_same_variables(w1, w2, *default_branch.1, x);
        },
        StmtView::Refcounting(_, cont) => {
            lemma_same_variables(w1, w2, *cont, x);
        },
        StmtView::Join { id, continuation, remainder, .. } => {
            let ps = w1.join_params(id)@;
            lemma_with_params_same(w1, w2, ps);
            lemma_same_variables(w1.with_params(ps), w2.with_params(ps), *continuation, x);
            lemma_same_variables(w1, w2, *remainder, x);
        },
        _ => {},
    }
}

/// Instructions that may be inserted change the count of `x` only where it is counted.
proof fn lemma_changed_behind<'a>(
    ctx: ContextView<'a>,
    out: StmtView<'a>,
    b: StmtView<'a>,
    symbols: Set<Symbol>,
    w: ContextView<'a>,
    x: Symbol,
)
    requires
        behind(ctx, out, b, symbols),
        w.knows(x) && symbols.contains(x) ==> ctx.vars[x] == w.vars[x],
        counted_where_changed(w, b, x),
    ensures
        counted_where_changed(w, out, x),
    decreases out,
{
    if out != b {
        match out {
            StmtView::Refcounting(_, cont) => {
                lemma_changed_behind(ctx, *cont, b, symbols, w, x);
            },
            _ => {},
        }
    }
}

/// Where the pass adds to or takes from the count of a variable in scope, whether it was bound
/// in front of the statement or in it, the variable is counted: it may be a reference, and it
/// is not persistent.
pub proof fn law_counted_where_changed<'a>(
    ctx: ContextView<'a>,
    stmt: StmtView<'a>,
    out: StmtView<'a>,
    live_vars: Set<Symbol>,
    x: Symbol,
)
    requires
        visitable(ctx, stmt),
        visits(ctx, stmt, out, live_vars),
        unshadowed(ctx, stmt, x),
        counted_where_changed(ctx, stmt, x),
    ensures
        counted_where_changed(ctx, out, x),
    decreases stmt, 2nat,
{
    lemma_changed_in(ctx, stmt, out, live_vars, x);
}

/// An alternative of a choice.
proof fn lemma_changed_alt<'a>(
    ctx: ContextView<'a>,
    case_live: Set<Symbol>,
    stmt: StmtView<'a>,
    out: StmtView<'a>,
    x: Symbol,
)
    requires
        visitable_alt(ctx, case_live, stmt),
        visits_alt(ctx, case_live, stmt, out),
        unshadowed(ctx, stmt, x),
        counted_where_changed(ctx, stmt, x),
    ensures
        counted_where_changed(ctx, out, x),
    decreases stmt, 3nat,
{
    let (b, b_live) = choose|b: StmtView<'a>, b_live: Set<Symbol>|
        visits(ctx, stmt, b, b_live) && #[trigger] ctx.is_dec_for_alt(case_live, b_live, b, out);
    let order = choose|order: Seq<Symbol>| #[trigger]
        ctx.dec_each(order, b) == out && order.no_duplicates() && order.to_set()
            == ctx.dead_in_alt(case_live, b_live);
    law_counted_where_changed(ctx, stmt, b, b_live, x);
    lemma_dec_each(ctx, order, b);
    lemma_changed_behind(ctx, out, b, order.to_set(), ctx, x);
}

/// [`law_counted_where_changed`], where the statement may start with a `let`.
proof fn lemma_changed_in<'a>(
    w: ContextView<'a>,
    stmt: StmtView<'a>,
    out: StmtView<'a>,
    live_vars: Set<Symbol>,
    x: Symbol,
)
    requires
        visitable_in(w.with_lets(stmt), stmt),
        visits_in(w.with_lets(stmt), stmt, out, live_vars),
        unshadowed(w, stmt, x),
        counted_where_changed(w, stmt, x),
    ensures
        counted_where_changed(w, out, x),
    decreases stmt, 1nat,
{
    let ctx = w.with_lets(stmt);
    lemma_with_lets_keeps(w, stmt);
    match stmt {
        StmtView::Let(symbol, expr, layout, cont) => {
            let (b, b_live) = choose|b: StmtView<'a>, b_live: Set<Symbol>|
                {
                    &&& visits_in(ctx, *cont, b, b_live)
                    &&& out == #[trigger] ctx.declare(symbol, expr, layout, b, b_live)
                    &&& live_vars == b_live.union(expr_symbols(expr)).remove(symbol)
                };
            let inner = w.with_let(symbol, layout, expr);
            lemma_changed_in(inner, *cont, b, b_live, x);
            lemma_declare(ctx, symbol, expr, layout, b, b_live);
            let body = declared_body(ctx, symbol, expr, b, b_live);
            let bound = StmtView::Let(
                symbol,
                adapt_expr(ctx.param_map, expr),
                layout,
                Box::new(body),
            );
            if w.knows(x) {
                lemma_unshadowed_keeps(w, stmt, x);
            }
            if inner.knows(x) {
                lemma_unshadowed_keeps(inner, *cont, x);
            }
            lemma_changed_behind(ctx, body, b, expr_symbols(expr).insert(symbol), inner, x);
            assert(w.with_let(symbol, layout, adapt_expr(ctx.param_map, expr)) == inner);
            assert(counted_where_changed(w, bound, x));
            lemma_changed_behind(ctx, out, bound, expr_symbols(expr), w, x);
        },
        StmtView::Invoke { symbol, call, layout, pass, fail } => {
            let inner = w.with_invoke(symbol, layout, call);
            let (pass_out, fail_out) = choose|pass_out: StmtView<'a>, fail_out: StmtView<'a>|
                {
                    &&& visits_alt(inner, live_vars, *pass, pass_out)
                    &&& visits_alt(w, live_vars, *fail, fail_out)
                    &&& out == #[trigger] w.before_invoke(
                        call,
                        StmtView::Invoke {
                            symbol,
                            call,
                            layout,
                            pass: Box::new(pass_out),
                            fail: Box::new(fail_out),
                        },
                        live_vars,
                    )
                };
            let invoke = StmtView::Invoke {
                symbol,
                call,
                layout,
                pass: Box::new(pass_out),
                fail: Box::new(fail_out),
            };
            lemma_changed_alt(inner, live_vars, *pass, pass_out, x);
            lemma_changed_alt(w, live_vars, *fail, fail_out, x);
            lemma_before_invoke(w, call, invoke, live_vars);
            lemma_changed_behind(w, out, invoke, call.arguments@.to_set(), w, x);
        },
        StmtView::Join { id, continuation, remainder, .. } => {
            let ps = w.join_params(id)@;
            let inner = w.with_params(ps);
            let v_out = *out->Join_continuation;
            let b = *out->Join_remainder;
            let (v, v_live) = choose|v: StmtView<'a>, v_live: Set<Symbol>|
                {
                    &&& visits(inner, *continuation, v, v_live)
                    &&& v_out == #[trigger] inner.dec_for_dead_params(ps, v, v_live)
                };
            let outer = w.with_join_body(id, ps, v_out);
            lemma_with_params_keeps(w, ps);
            law_counted_where_changed(inner, *continuation, v, v_live, x);
            lemma_dec_for_dead_params(inner, ps, v, v_live);
            lemma_changed_behind(inner, v_out, v, param_symbols(ps), inner, x);
            lemma_same_variables(w, outer, *remainder, x);
            law_counted_where_changed(outer, *remainder, b, live_vars, x);
            lemma_same_variables(w, outer, b, x);
        },
        StmtView::Ret(_) => {
            reveal_with_fuel(counted_where_changed, 2);
        },
        StmtView::Jump(id, xs) => {
            assert(xs.len() == xs@.len());
            let ps = w.join_params(id);
            lemma_inc_before(
                w,
                xs@,
                ConsumePred::Params(ps),
                stmt,
                w.join_live(id),
                xs@.len(),
            );
            lemma_changed_behind(w, out, stmt, xs@.to_set(), w, x);
        },
        StmtView::Switch { branches, default_branch, .. } => {
            let bs = out->Switch_branches;
            assert forall|i: int| 0 <= i < bs.len() implies counted_where_changed(
                w,
                (#[trigger] bs[i]).2,
                x,
            ) by {
                assert(visitable_alt(w, live_vars, branches[i].2));
                assert(unshadowed(w, branches[i].2, x));
                assert(counted_where_changed(w, branches[i].2, x));
                lemma_changed_alt(w, live_vars, branches[i].2, bs[i].2, x);
            }
            lemma_changed_alt(
                w,
                live_vars,
                *default_branch.1,
                *out->Switch_default_branch.1,
                x,
            );
        },
        StmtView::Rethrow | StmtView::RuntimeError(_) | StmtView::Refcounting(_, _) => {},
    }
}

} // verus!
