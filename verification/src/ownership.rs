//! How many references to a variable a procedure holds while it runs.
//!
//! The rules here know nothing of where instructions are inserted: they follow a finished
//! statement and count.
use vstd::prelude::*;

use crate::borrow::{Key, OWNED};
use crate::insertion::{
    consumptions, flagged, higher_order_borrows, higher_order_shape, is_borrowed, is_first,
    ConsumePred, ContextView,
};
use crate::ir::{Call, CallType, Expr, JoinPointId, ModifyRc, Param, StmtView, Symbol};
use crate::liveness::live;
use crate::occurrence::param_symbols;

verus! {

/// Is `x` a variable in scope that is counted at run time?
pub open spec fn tracked_in(ctx: ContextView, x: Symbol) -> bool {
    ctx.knows(x) && ctx.counted(x)
}

/// Does the procedure hold a reference to `x` of its own while `x` is live? A variable that is
/// not consumed is on loan: another variable, or the caller, keeps it alive.
pub open spec fn owns(ctx: ContextView, x: Symbol) -> bool {
    tracked_in(ctx, x) && ctx.vars[x].consume
}

/// The references to `x` that are held where `vars` are live.
pub open spec fn held(ctx: ContextView, vars: Set<Symbol>, x: Symbol) -> int {
    if owns(ctx, x) && vars.contains(x) {
        1
    } else {
        0
    }
}

/// How many of the positions from `lo` and below `hi` hold `x` and are owned.
pub open spec fn owned_positions(
    x: Symbol,
    xs: Seq<Symbol>,
    flags: Seq<bool>,
    lo: nat,
    hi: nat,
) -> nat
    decreases hi,
{
    if hi <= lo {
        0
    } else {
        owned_positions(x, xs, flags, lo, (hi - 1) as nat) + if xs[hi - 1] == x && flags[hi - 1]
            == OWNED {
            1nat
        } else {
            0nat
        }
    }
}

/// The borrow signature of a built-in or foreign call, and how many of its first arguments are
/// containers that outlive the call.
pub open spec fn signature<'a>(ctx: ContextView<'a>, call: Call<'a>) -> Option<(Seq<bool>, nat)> {
    match call.call_type {
        CallType::LowLevel { op } => Some((op.borrow_signature@, 0)),
        CallType::Foreign { borrow_signature, .. } => Some((borrow_signature@, 0)),
        CallType::HigherOrderLowLevel { op, closure_layout, .. } => match higher_order_shape(
            op.op,
        ) {
            Some(shape) => Some(
                (
                    higher_order_borrows(
                        shape,
                        ctx.function_params(call.arguments@, shape, closure_layout)@,
                    ),
                    shape.containers,
                ),
            ),
            None => Some((op.borrow_signature@, 0)),
        },
        CallType::ByName { .. } => None,
    }
}

/// How many references to `x` a call takes.
pub open spec fn call_takes<'a>(ctx: ContextView<'a>, call: Call<'a>, x: Symbol) -> nat {
    let args = call.arguments@;
    match call.call_type {
        CallType::ByName { name, full_layout, .. } => consumptions(
            x,
            args,
            ConsumePred::Params(ctx.param_map[Key::Declaration(name, full_layout)]),
        ),
        _ => {
            let (flags, containers) = signature(ctx, call)->0;
            owned_positions(x, args, flags, containers, flagged(args, flags))
        },
    }
}

/// Is `x` lent to a call? Then it must still be alive when the call ends.
pub open spec fn call_borrows<'a>(ctx: ContextView<'a>, call: Call<'a>, x: Symbol) -> bool {
    let args = call.arguments@;
    match call.call_type {
        CallType::ByName { name, full_layout, .. } => is_borrowed(
            x,
            args,
            ConsumePred::Params(ctx.param_map[Key::Declaration(name, full_layout)]),
        ),
        _ => {
            let (flags, containers) = signature(ctx, call)->0;
            exists|i: int|
                0 <= i < args.len() && #[trigger] args[i] == x && !(containers <= i < flagged(
                    args,
                    flags,
                ) && flags[i] == OWNED)
        },
    }
}

/// How many references to `x` an expression takes.
pub open spec fn expr_takes<'a>(ctx: ContextView<'a>, expr: Expr<'a>, x: Symbol) -> nat {
    match expr {
        Expr::Tag { arguments, .. } => consumptions(x, arguments@, ConsumePred::All),
        Expr::Struct(arguments) => consumptions(x, arguments@, ConsumePred::All),
        Expr::Array { elems, .. } => consumptions(x, elems@, ConsumePred::All),
        Expr::Reuse { symbol, arguments, .. } => consumptions(x, arguments@, ConsumePred::All)
            + if symbol == x {
            1nat
        } else {
            0nat
        },
        Expr::Reset(symbol) => if symbol == x {
            1
        } else {
            0
        },
        Expr::Call(call) => call_takes(ctx, call, x),
        Expr::AccessAtIndex { .. }
        | Expr::EmptyArray
        | Expr::Literal(_)
        | Expr::RuntimeErrorFunction(_) => 0,
    }
}

/// Is `x` lent to an expression?
pub open spec fn expr_borrows<'a>(ctx: ContextView<'a>, expr: Expr<'a>, x: Symbol) -> bool {
    match expr {
        Expr::AccessAtIndex { structure, .. } => structure == x,
        Expr::Call(call) => call_borrows(ctx, call, x),
        _ => false,
    }
}

/// May `taken` references to `x` be taken where `n` are held? If `x` is lent at the same time
/// and not on loan itself, one must be left.
pub open spec fn can_take(ctx: ContextView, x: Symbol, n: int, taken: nat, lent: bool) -> bool {
    tracked_in(ctx, x) ==> n >= taken + if lent && ctx.vars[x].consume {
        1int
    } else {
        0int
    }
}

/// The references that are held after `taken` were taken.
pub open spec fn left(ctx: ContextView, x: Symbol, n: int, taken: nat) -> int {
    if tracked_in(ctx, x) {
        n - taken
    } else {
        0
    }
}

/// The references to `x` with which the body of a join point with the parameters `ps` is
/// entered, where `m` are held besides the arguments.
pub open spec fn on_entry(ctx: ContextView, ps: Seq<Param>, x: Symbol, m: int) -> int {
    if !param_symbols(ps).contains(x) {
        m
    } else if owns(ctx.with_params(ps), x) {
        1
    } else {
        0
    }
}

/// Whichever way it takes, the statement stops with a run-time error.
pub open spec fn aborts(stmt: StmtView) -> bool
    decreases stmt,
{
    match stmt {
        StmtView::Let(_, _, _, cont) => aborts(*cont),
        StmtView::Invoke { pass, fail, .. } => aborts(*pass) && aborts(*fail),
        StmtView::Switch { branches, default_branch, .. } => {
            &&& forall|i: int| 0 <= i < branches.len() ==> aborts((#[trigger] branches[i]).2)
            &&& aborts(*default_branch.1)
        },
        StmtView::Refcounting(_, cont) => aborts(*cont),
        StmtView::Join { remainder, .. } => aborts(*remainder),
        StmtView::Jump(_, _) | StmtView::Ret(_) | StmtView::Rethrow => false,
        StmtView::RuntimeError(_) => true,
    }
}

/// A procedure that holds `n` references to `x` and runs `stmt` hands over or gives up every
/// reference to `x` exactly once, whichever way it leaves, and never uses `x` when it holds
/// none, unless `x` is on loan. A reference that `stmt` gains by binding `x` counts as well.
///
/// `entry` says how many references to `x` each join point in scope finds, its arguments
/// aside. Nothing is asked of a variable that is not in scope or not counted. A procedure that
/// stops with a run-time error need not give up anything.
pub open spec fn balanced<'a>(
    ctx: ContextView<'a>,
    stmt: StmtView<'a>,
    x: Symbol,
    n: int,
    entry: Map<JoinPointId, int>,
) -> bool
    decreases stmt,
{
    match stmt {
        StmtView::Let(symbol, expr, layout, cont) => {
            let taken = expr_takes(ctx, expr, x);
            let inner = ctx.with_let(symbol, layout, expr);
            &&& can_take(ctx, x, n, taken, expr_borrows(ctx, expr, x))
            &&& if symbol != x {
                balanced(inner, *cont, x, left(ctx, x, n, taken), entry)
            } else {
                &&& left(ctx, x, n, taken) == 0 || aborts(*cont)
                &&& if !tracked_in(inner, x) {
                    balanced(inner, *cont, x, 0, entry)
                } else if !(expr is AccessAtIndex) {
                    balanced(inner, *cont, x, 1, entry)
                } else if !owns(inner, x) {
                    balanced(inner, *cont, x, 0, entry)
                } else {
                    // The part of a structure is kept alive by the structure until it has a
                    // reference of its own.
                    match *cont {
                        StmtView::Refcounting(ModifyRc::Inc(y, k), rest) => y == x && balanced(
                            inner,
                            *rest,
                            x,
                            k as int,
                            entry,
                        ),
                        _ => false,
                    }
                }
            }
        },
        StmtView::Invoke { symbol, call, layout, pass, fail } => {
            let taken = call_takes(ctx, call, x);
            let inner = ctx.with_invoke(symbol, layout, call);
            &&& can_take(ctx, x, n, taken, call_borrows(ctx, call, x))
            &&& if symbol != x {
                balanced(inner, *pass, x, left(ctx, x, n, taken), entry)
            } else {
                &&& left(ctx, x, n, taken) == 0 || aborts(*pass)
                &&& balanced(
                    inner,
                    *pass,
                    x,
                    if tracked_in(inner, x) {
                        1
                    } else {
                        0
                    },
                    entry,
                )
            }
            &&& balanced(ctx, *fail, x, left(ctx, x, n, taken), entry)
        },
        StmtView::Switch { cond_symbol, branches, default_branch, .. } => {
            &&& cond_symbol == x && owns(ctx, x) ==> n >= 1
            &&& forall|i: int|
                0 <= i < branches.len() ==> balanced(ctx, (#[trigger] branches[i]).2, x, n, entry)
            &&& balanced(ctx, *default_branch.1, x, n, entry)
        },
        StmtView::Refcounting(modify, cont) => if modify.symbol() != x || !tracked_in(ctx, x) {
            balanced(ctx, *cont, x, n, entry)
        } else {
            match modify {
                ModifyRc::Inc(_, k) => {
                    &&& owns(ctx, x) ==> n >= 1
                    &&& balanced(ctx, *cont, x, n + k, entry)
                },
                _ => {
                    &&& n >= 1
                    &&& balanced(ctx, *cont, x, n - 1, entry)
                },
            }
        },
        StmtView::Join { id, parameters, continuation, remainder } => {
            let inner = ctx.with_params(parameters@);
            let without = entry.insert(id, 0);
            let with = entry.insert(id, 1);
            ||| {
                &&& balanced(
                    inner,
                    *continuation,
                    x,
                    on_entry(ctx, parameters@, x, 0),
                    without,
                )
                &&& balanced(ctx, *remainder, x, n, without)
            }
            ||| {
                &&& balanced(inner, *continuation, x, on_entry(ctx, parameters@, x, 1), with)
                &&& balanced(ctx, *remainder, x, n, with)
            }
        },
        StmtView::Jump(id, arguments) => {
            let pred = ConsumePred::Params(ctx.join_params(id));
            let taken = consumptions(x, arguments@, pred);
            tracked_in(ctx, x) ==> {
                &&& entry.contains_key(id)
                &&& n - taken == entry[id]
                &&& is_borrowed(x, arguments@, pred) && ctx.vars[x].consume ==> entry[id] >= 1
            }
        },
        StmtView::Ret(symbol) => tracked_in(ctx, x) ==> n == if symbol == x {
            1int
        } else {
            0int
        },
        StmtView::Rethrow => tracked_in(ctx, x) ==> n == 0,
        StmtView::RuntimeError(_) => true,
    }
}

/// A built-in or foreign call takes `x` in a way that can be accounted for without an
/// increment in front of it: either `x` is not taken, and if it is dead behind the call then
/// its first position has a borrow flag, unless what follows `aborts` in any case; or `x` is
/// owned, passed once, taken and dead behind the call.
pub open spec fn flags_fit(
    owned: bool,
    x: Symbol,
    xs: Seq<Symbol>,
    flags: Seq<bool>,
    live_after: Set<Symbol>,
    aborts: bool,
) -> bool {
    let taken = owned_positions(x, xs, flags, 0, flagged(xs, flags));
    if taken == 0 {
        owned && !live_after.contains(x) && !aborts ==> forall|i: int|
            0 <= i < xs.len() && #[trigger] xs[i] == x && is_first(xs, i) ==> i < flags.len()
    } else {
        &&& owned
        &&& !live_after.contains(x)
        &&& taken == 1
        &&& forall|i: int, j: int|
            0 <= i < j < xs.len() && #[trigger] xs[i] == x ==> #[trigger] xs[j] != x
    }
}

/// An expression takes the variable `x`, which is tracked, in a way that can be accounted for.
pub open spec fn expr_fits<'a>(
    ctx: ContextView<'a>,
    expr: Expr<'a>,
    x: Symbol,
    live_after: Set<Symbol>,
    aborts: bool,
) -> bool {
    match expr {
        Expr::Reuse { symbol, arguments, .. } => symbol == x ==> owns(ctx, x)
            && !arguments@.contains(x) && !live_after.contains(x),
        Expr::Reset(symbol) => symbol == x ==> owns(ctx, x) && !live_after.contains(x),
        Expr::Call(call) => match signature(ctx, call) {
            Some((flags, _)) => flags_fit(
                owns(ctx, x),
                x,
                call.arguments@,
                flags,
                live_after,
                aborts,
            ),
            None => true,
        },
        _ => true,
    }
}

/// The references to `x` in `stmt` can be accounted for. This asks:
///
/// - `x` is not bound again where it is in scope, nor twice among the parameters of a join
///   point;
/// - a binding of `x` is used, unless `x` is on loan or what follows aborts in any case;
/// - a structure of which `x` is a part is in scope where `x` is bound;
/// - expressions take `x` in a way that fits;
/// - an `invoke` does not take `x`;
/// - a jump leads to a join point in scope, and the variables that are live in its body are
///   known at the jump as far as `x` is concerned: a body that jumps to itself keeps no
///   reference to `x`;
/// - an argument that a join point borrows is live in its body, unless it is on loan.
pub open spec fn regular<'a>(
    ctx: ContextView<'a>,
    stmt: StmtView<'a>,
    x: Symbol,
    entry: Map<JoinPointId, int>,
) -> bool
    decreases stmt,
{
    match stmt {
        StmtView::Let(symbol, expr, layout, cont) => {
            let inner = ctx.with_let(symbol, layout, expr);
            let live_after = live(*cont, ctx.jp_live_vars);
            &&& tracked_in(ctx, x) ==> symbol != x && expr_fits(
                ctx,
                expr,
                x,
                live_after,
                aborts(*cont),
            )
            &&& symbol == x && tracked_in(inner, x) ==> {
                &&& owns(inner, x) ==> live_after.contains(x) || aborts(*cont)
                &&& expr matches Expr::AccessAtIndex { structure, .. } ==> {
                    &&& ctx.knows(structure)
                    &&& ctx.with_lets(stmt).vars[structure] == ctx.vars[structure]
                }
            }
            &&& regular(inner, *cont, x, entry)
        },
        StmtView::Invoke { symbol, call, layout, pass, fail } => {
            let inner = ctx.with_invoke(symbol, layout, call);
            &&& tracked_in(ctx, x) ==> symbol != x && call_takes(ctx, call, x) == 0
            &&& symbol == x && tracked_in(inner, x) ==> live(*pass, ctx.jp_live_vars).contains(x)
                || aborts(*pass)
            &&& regular(inner, *pass, x, entry)
            &&& regular(ctx, *fail, x, entry)
        },
        StmtView::Switch { branches, default_branch, .. } => {
            &&& forall|i: int|
                0 <= i < branches.len() ==> regular(ctx, (#[trigger] branches[i]).2, x, entry)
            &&& regular(ctx, *default_branch.1, x, entry)
        },
        StmtView::Refcounting(_, cont) => regular(ctx, *cont, x, entry),
        StmtView::Join { id, continuation, remainder, .. } => {
            let ps = ctx.join_params(id)@;
            let body_live = live(*continuation, ctx.jp_live_vars).difference(param_symbols(ps));
            let inner_entry = entry.insert(id, held(ctx, body_live, x));
            &&& param_symbols(ps).contains(x) ==> !tracked_in(ctx, x) && is_one_param(ps, x)
            &&& regular(ctx.with_params(ps), *continuation, x, inner_entry)
            &&& regular(ctx.with_join_point(id, body_live), *remainder, x, inner_entry)
        },
        StmtView::Jump(id, arguments) => tracked_in(ctx, x) ==> {
            &&& entry.contains_key(id)
            &&& entry[id] == held(ctx, ctx.join_live(id), x)
            &&& owns(ctx, x) && is_borrowed(
                x,
                arguments@,
                ConsumePred::Params(ctx.join_params(id)),
            ) ==> ctx.join_live(id).contains(x)
        },
        StmtView::Ret(_) | StmtView::Rethrow | StmtView::RuntimeError(_) => true,
    }
}

/// No two of the parameters are called `x`.
pub open spec fn is_one_param(ps: Seq<Param>, x: Symbol) -> bool {
    forall|i: int, j: int|
        0 <= i < j < ps.len() && (#[trigger] ps[i]).symbol == x ==> (#[trigger] ps[j]).symbol != x
}

} // verus!
