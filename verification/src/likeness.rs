//! What the pass leaves is the same program: the same statements in the same order, with
//! instructions in between.
use vstd::prelude::*;

use crate::borrow::Key;
use crate::erasure::{
    adapt, erase, law_only_instructions_inserted, law_only_instructions_inserted_in_proc,
};
use crate::inserted::adapt_expr;
use crate::insertion::{visitable, visits, visits_proc, ContextView};
use crate::ir::{CallType, Expr, JoinPointId, Param, StmtView, Symbol};
use crate::scope::{function_arity, names_param, operands, passed_function, tidy};
use crate::usage::{joins_behind, used};

verus! {

/// The statement holds no instructions.
pub open spec fn bare(stmt: StmtView) -> bool
    decreases stmt,
{
    match stmt {
        StmtView::Let(_, _, _, cont) => bare(*cont),
        StmtView::Invoke { pass, fail, .. } => bare(*pass) && bare(*fail),
        StmtView::Switch { branches, default_branch, .. } => {
            &&& forall|i: int| 0 <= i < branches.len() ==> bare((#[trigger] branches[i]).2)
            &&& bare(*default_branch.1)
        },
        StmtView::Join { continuation, remainder, .. } => bare(*continuation) && bare(*remainder),
        StmtView::Refcounting(_, _) => false,
        _ => true,
    }
}

/// `w` is the expression `v`. Only a call of an operation that takes a function may differ: it
/// says that the function owns its closure data, if the parameter for the closure data, which
/// comes behind what the operation itself passes, is not borrowed.
pub open spec fn like_expr<'a>(
    params: Map<Key, &'a [Param]>,
    v: Expr<'a>,
    w: Expr<'a>,
) -> bool {
    match v {
        Expr::Call(call) => match call.call_type {
            CallType::HigherOrderLowLevel { op, closure_layout, function_owns_closure_data } => {
                let ps = passed_function(params, op.op, closure_layout, call.arguments@);
                let k = function_arity(op.op) as int;
                let owns = !(op.op is Other) && k < ps.len() && !ps[k].borrow;
                match w {
                    Expr::Call(adapted) => {
                        &&& adapted.arguments == call.arguments
                        &&& adapted.call_type == (CallType::HigherOrderLowLevel {
                            op,
                            closure_layout,
                            function_owns_closure_data: function_owns_closure_data || owns,
                        })
                    },
                    _ => false,
                }
            },
            _ => w == v,
        },
        _ => w == v,
    }
}

/// `t` is the statement `s` with instructions in between. A join point has the parameters that the
/// program has for it.
pub open spec fn like<'a>(
    params: Map<Key, &'a [Param]>,
    s: StmtView<'a>,
    t: StmtView<'a>,
) -> bool
    decreases t,
{
    match t {
        StmtView::Refcounting(_, cont) => like(params, s, *cont),
        StmtView::Let(symbol, expr, layout, cont) => match s {
            StmtView::Let(symbol0, expr0, layout0, cont0) => {
                &&& symbol == symbol0
                &&& layout == layout0
                &&& like_expr(params, expr0, expr)
                &&& like(params, *cont0, *cont)
            },
            _ => false,
        },
        StmtView::Invoke { symbol, call, layout, pass, fail } => match s {
            StmtView::Invoke {
                symbol: symbol0,
                call: call0,
                layout: layout0,
                pass: pass0,
                fail: fail0,
            } => {
                &&& symbol == symbol0
                &&& call == call0
                &&& layout == layout0
                &&& like(params, *pass0, *pass)
                &&& like(params, *fail0, *fail)
            },
            _ => false,
        },
        StmtView::Switch { cond_symbol, cond_layout, branches, default_branch, ret_layout } => {
            match s {
                StmtView::Switch {
                    cond_symbol: cond_symbol0,
                    cond_layout: cond_layout0,
                    branches: branches0,
                    default_branch: default_branch0,
                    ret_layout: ret_layout0,
                } => {
                    &&& cond_symbol == cond_symbol0
                    &&& cond_layout == cond_layout0
                    &&& ret_layout == ret_layout0
                    &&& branches.len() == branches0.len()
                    &&& forall|i: int|
                        0 <= i < branches.len() ==> {
                            &&& (#[trigger] branches[i]).0 == branches0[i].0
                            &&& branches[i].1 == branches0[i].1
                            &&& like(params, branches0[i].2, branches[i].2)
                        }
                    &&& default_branch.0 == default_branch0.0
                    &&& like(params, *default_branch0.1, *default_branch.1)
                },
                _ => false,
            }
        },
        StmtView::Join { id, parameters, continuation, remainder } => match s {
            StmtView::Join { id: id0, continuation: continuation0, remainder: remainder0, .. } => {
                &&& id == id0
                &&& parameters == params[Key::JoinPoint(id)]
                &&& like(params, *continuation0, *continuation)
                &&& like(params, *remainder0, *remainder)
            },
            _ => false,
        },
        StmtView::Ret(_)
        | StmtView::Rethrow
        | StmtView::Jump(_, _)
        | StmtView::RuntimeError(_) => t == s,
    }
}

/// An expression as the pass leaves it is like the one that it was given.
pub proof fn lemma_like_expr<'a>(params: Map<Key, &'a [Param]>, v: Expr<'a>)
    ensures
        like_expr(params, v, adapt_expr(params, v)),
{
}

/// A statement that comes to the same without instructions is the same with instructions in
/// between.
proof fn lemma_like_erased<'a>(
    params: Map<Key, &'a [Param]>,
    s: StmtView<'a>,
    t: StmtView<'a>,
)
    requires
        bare(s),
        erase(t) == adapt(params, s),
    ensures
        like(params, s, t),
    decreases t,
{
    match t {
        StmtView::Refcounting(_, cont) => {
            lemma_like_erased(params, s, *cont);
        },
        StmtView::Let(_, _, _, cont) => match s {
            StmtView::Let(_, expr0, _, cont0) => {
                lemma_like_expr(params, expr0);
                lemma_like_erased(params, *cont0, *cont);
            },
            _ => {},
        },
        StmtView::Invoke { pass, fail, .. } => match s {
            StmtView::Invoke { pass: pass0, fail: fail0, .. } => {
                lemma_like_erased(params, *pass0, *pass);
                lemma_like_erased(params, *fail0, *fail);
            },
            _ => {},
        },
        StmtView::Switch { branches, default_branch, .. } => match s {
            StmtView::Switch { branches: branches0, default_branch: default_branch0, .. } => {
                let bs = erase(t)->Switch_branches;
                let bs0 = adapt(params, s)->Switch_branches;
                assert(bs.len() == bs0.len());
                assert forall|i: int| 0 <= i < branches.len() implies {
                    &&& (#[trigger] branches[i]).0 == branches0[i].0
                    &&& branches[i].1 == branches0[i].1
                    &&& like(params, branches0[i].2, branches[i].2)
                } by {
                    assert(bs[i] == bs0[i]);
                    assert(bare(branches0[i].2));
                    lemma_like_erased(params, branches0[i].2, branches[i].2);
                }
                lemma_like_erased(params, *default_branch0.1, *default_branch.1);
            },
            _ => {},
        },
        StmtView::Join { continuation, remainder, .. } => match s {
            StmtView::Join { continuation: continuation0, remainder: remainder0, .. } => {
                lemma_like_erased(params, *continuation0, *continuation);
                lemma_like_erased(params, *remainder0, *remainder);
            },
            _ => {},
        },
        _ => {},
    }
}

/// The pass leaves the same program with instructions in between.
pub proof fn law_same_program<'a>(
    ctx: ContextView<'a>,
    stmt: StmtView<'a>,
    out: StmtView<'a>,
    live_vars: Set<Symbol>,
)
    requires
        visitable(ctx, stmt),
        visits(ctx, stmt, out, live_vars),
        bare(stmt),
    ensures
        like(ctx.param_map, stmt, out),
{
    law_only_instructions_inserted(ctx, stmt, out, live_vars);
    lemma_like_erased(ctx.param_map, stmt, out);
}

/// The body of a procedure stays the same program.
pub proof fn law_same_program_in_proc<'a>(
    ctx: ContextView<'a>,
    ps: Seq<Param>,
    body: StmtView<'a>,
    out: StmtView<'a>,
)
    requires
        visitable(ctx.with_params(ps), body),
        visits_proc(ctx, ps, body, out),
        bare(body),
    ensures
        like(ctx.param_map, body, out),
{
    law_only_instructions_inserted_in_proc(ctx, ps, body, out);
    lemma_like_erased(ctx.param_map, body, out);
}

/// A tidy statement is bare.
pub proof fn lemma_tidy_bare<'a>(
    vars: Set<Symbol>,
    params: Map<Key, &'a [Param]>,
    stmt: StmtView<'a>,
)
    requires
        tidy(vars, params, stmt),
    ensures
        bare(stmt),
    decreases stmt,
{
    match stmt {
        StmtView::Let(symbol, _, _, cont) => {
            lemma_tidy_bare(vars.insert(symbol), params, *cont);
        },
        StmtView::Invoke { symbol, pass, fail, .. } => {
            lemma_tidy_bare(vars.insert(symbol), params, *pass);
            lemma_tidy_bare(vars, params, *fail);
        },
        StmtView::Switch { branches, default_branch, .. } => {
            assert forall|i: int| 0 <= i < branches.len() implies bare(
                (#[trigger] branches[i]).2,
            ) by {
                lemma_tidy_bare(vars, params, branches[i].2);
            }
            lemma_tidy_bare(vars, params, *default_branch.1);
        },
        StmtView::Join { id, continuation, remainder, .. } => {
            let ps = params[Key::JoinPoint(id)]@;
            lemma_tidy_bare(
                vars.union(Set::new(|y: Symbol| names_param(ps, y))),
                params,
                *continuation,
            );
            lemma_tidy_bare(vars, params, *remainder);
        },
        _ => {},
    }
}

/// The same program uses the same variables.
pub proof fn lemma_like_used<'a>(
    vars: Set<Symbol>,
    params: Map<Key, &'a [Param]>,
    s: StmtView<'a>,
    t: StmtView<'a>,
    x: Symbol,
    joins: Set<JoinPointId>,
)
    requires
        tidy(vars, params, s),
        like(params, s, t),
    ensures
        used(t, x, joins, false) == used(s, x, joins, false),
    decreases t,
{
    match t {
        StmtView::Refcounting(_, cont) => {
            lemma_like_used(vars, params, s, *cont, x, joins);
        },
        StmtView::Let(symbol, expr, _, cont) => match s {
            StmtView::Let(_, expr0, _, cont0) => {
                assert(operands(expr) == operands(expr0));
                lemma_like_used(vars.insert(symbol), params, *cont0, *cont, x, joins);
            },
            _ => {},
        },
        StmtView::Invoke { symbol, pass, fail, .. } => match s {
            StmtView::Invoke { pass: pass0, fail: fail0, .. } => {
                lemma_like_used(vars.insert(symbol), params, *pass0, *pass, x, joins);
                lemma_like_used(vars, params, *fail0, *fail, x, joins);
            },
            _ => {},
        },
        StmtView::Switch { branches, default_branch, .. } => match s {
            StmtView::Switch { branches: branches0, default_branch: default_branch0, .. } => {
                assert forall|i: int| 0 <= i < branches.len() implies used(
                    (#[trigger] branches[i]).2,
                    x,
                    joins,
                    false,
                ) == used(branches0[i].2, x, joins, false) by {
                    assert(tidy(vars, params, branches0[i].2));
                    lemma_like_used(vars, params, branches0[i].2, branches[i].2, x, joins);
                }
                assert forall|i: int| 0 <= i < branches0.len() implies used(
                    (#[trigger] branches0[i]).2,
                    x,
                    joins,
                    false,
                ) == used(branches[i].2, x, joins, false) by {}
                lemma_like_used(vars, params, *default_branch0.1, *default_branch.1, x, joins);
            },
            _ => {},
        },
        StmtView::Join { id, parameters, continuation, remainder } => match s {
            StmtView::Join {
                parameters: parameters0,
                continuation: continuation0,
                remainder: remainder0,
                ..
            } => {
                let ps = params[Key::JoinPoint(id)]@;
                let inner = vars.union(Set::new(|y: Symbol| names_param(ps, y)));
                lemma_like_used(inner, params, *continuation0, *continuation, x, joins);
                assert(names_param(ps, x) <==> names_param(parameters0@, x));
                let uses = !names_param(ps, x) && used(*continuation, x, joins, false);
                lemma_like_used(
                    vars,
                    params,
                    *remainder0,
                    *remainder,
                    x,
                    joins_behind(joins, id, uses),
                );
            },
            _ => {},
        },
        _ => {},
    }
}

/// A statement that starts with an instruction, and one that ends without a value, can always be
/// worked on: it is left as it is, and nothing is reported live before it.
pub proof fn law_left_as_it_is<'a>(
    ctx: ContextView<'a>,
    stmt: StmtView<'a>,
    out: StmtView<'a>,
    live_vars: Set<Symbol>,
)
    requires
        stmt is Refcounting || stmt is Rethrow || stmt is RuntimeError,
    ensures
        visitable(ctx, stmt),
        visits(ctx, stmt, out, live_vars) <==> out == stmt && (forall|x: Symbol|
            !#[trigger] live_vars.contains(x)),
{
    if forall|x: Symbol| !#[trigger] live_vars.contains(x) {
        assert(live_vars =~= Set::empty());
    }
}

} // verus!
