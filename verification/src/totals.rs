//! How much is added to, and taken from, the count of each variable at each point of a program.
use vstd::prelude::*;

use crate::borrow::{Key, BORROWED, OWNED};
use crate::erasure::{lemma_with_lets_keeps, lemma_with_params_keeps};
use crate::inserted::{
    adapt_expr, behind, declared_body, lemma_consumptions_bound, lemma_dec_each,
    lemma_dec_for_dead_params, lemma_declare,
};
use crate::insertion::{
    consumptions_upto, flagged, free_containers, higher_order_borrows, higher_order_shape,
    initial_context, is_borrowed, is_first, leading_borrow, proc_params, visitable, visitable_alt,
    visitable_in, visits, visits_alt, visits_in, visits_proc, ConsumePred, ContextView,
    HigherOrderShape,
};
use crate::ir::{Call, CallType, Expr, JoinPointId, Layout, ModifyRc, Param, Proc, StmtView, Symbol};
use crate::likeness::{law_same_program, lemma_like_used, lemma_tidy_bare};
use crate::liveness::live;
use crate::liveness_laws::{law_live_vars_are_kept, lemma_live_behind, plain};
use crate::occurrence::{expr_symbols, param_symbols};
use crate::ownership::{owned_positions, signature};
use crate::ownership_laws::{
    first_is_borrowed, law_nothing_before_invoke, lemma_first_or_before, occurs,
};
use crate::scope::{
    argument_fate, distinct_params, fates, fates_upto, flag_count, jump_fate, jump_fates,
    names_param, operand_fate, operands, tidy, Fate, Scope,
};
use crate::usage::{joins_behind, joins_with, law_expression_symbols, lemma_live_used, used};

verus! {

/// The operands that an expression is handed references to: what it is built from, and the
/// arguments of a function of the program. Built-in and foreign calls take what is held.
pub open spec fn handed(expr: Expr) -> Seq<Symbol> {
    match expr {
        Expr::Struct(arguments) => arguments@,
        Expr::Tag { arguments, .. } => arguments@,
        Expr::Array { elems, .. } => elems@,
        Expr::Reuse { arguments, .. } => arguments@,
        Expr::Call(call) => if call.call_type is ByName {
            call.arguments@
        } else {
            Seq::empty()
        },
        _ => Seq::empty(),
    }
}

/// What must be added to the count of `x` where `taken` references are taken: one for each, less
/// the one that the procedure holds, if it owns `x`, does not need `x` any more and does not lend
/// `x` at the same time.
pub open spec fn missing(scope: Scope, x: Symbol, taken: nat, lent: bool, needed: bool) -> int {
    let own: int = if scope.owns(x) && !lent && !needed {
        1
    } else {
        0
    };
    if scope.counts(x) && taken > own {
        taken - own
    } else {
        0
    }
}

/// What must be added to the count of `x` in front of an expression, where `needed` says whether
/// `x` is needed behind it.
pub open spec fn missing_for<'a>(scope: Scope<'a>, expr: Expr<'a>, x: Symbol, needed: bool) -> int {
    let xs = handed(expr);
    let fate = |i: int| operand_fate(scope.params, expr, i);
    missing(
        scope,
        x,
        fates_upto(xs, fate, x, Fate::Taken, xs.len()),
        fates_upto(xs, fate, x, Fate::Lent, xs.len()) > 0,
        needed,
    )
}

/// The first argument that is `x` has a borrow flag, and is lent by it.
pub open spec fn first_is_lent<'a>(
    params: Map<Key, &'a [Param]>,
    call: Call<'a>,
    x: Symbol,
) -> bool {
    exists|i: int|
        {
            &&& 0 <= i < call.arguments@.len()
            &&& i < flag_count(call)
            &&& #[trigger] call.arguments@[i] == x
            &&& forall|j: int| 0 <= j < i ==> call.arguments@[j] != x
            &&& argument_fate(params, call, i) is Lent
        }
}

/// Is `x` lent to an expression so that it is given up behind it, if it is not needed any more?
pub open spec fn handed_back<'a>(params: Map<Key, &'a [Param]>, expr: Expr<'a>, x: Symbol) -> bool {
    match expr {
        Expr::AccessAtIndex { structure, .. } => structure == x,
        Expr::Call(call) => if call.call_type is ByName {
            fates(params, expr, x, Fate::Lent) > 0
        } else {
            first_is_lent(params, call, x)
        },
        _ => false,
    }
}

/// How often the count of `x` is taken from behind an expression: once if `x` is owned, was lent
/// and is not needed any more.
pub open spec fn given_up_behind<'a>(
    scope: Scope<'a>,
    expr: Expr<'a>,
    x: Symbol,
    needed: bool,
) -> int {
    if scope.owns(x) && handed_back(scope.params, expr, x) && !needed {
        1
    } else {
        0
    }
}

/// How often `x` is freed without its contents behind an expression: once for each container
/// that the expression has emptied.
pub open spec fn freed_behind<'a>(scope: Scope<'a>, expr: Expr<'a>, x: Symbol) -> int {
    match expr {
        Expr::Call(_) => fates(scope.params, expr, x, Fate::Emptied) as int,
        _ => 0,
    }
}

/// How much is added to the count of `x` behind `let x = expr`: the part of an owned structure
/// gets a reference of its own.
pub open spec fn gained_behind<'a>(inner: Scope<'a>, expr: Expr<'a>, x: Symbol) -> int {
    match expr {
        Expr::AccessAtIndex { .. } => if inner.owns(x) {
            1
        } else {
            0
        },
        _ => 0,
    }
}

/// Where one of several ways is taken: `x` is given up at its start if it is owned and was
/// needed, but is not needed on this way.
pub open spec fn given_up_at_start(
    scope: Scope,
    x: Symbol,
    needed: bool,
    needed_here: bool,
) -> int {
    if scope.owns(x) && needed && !needed_here {
        1
    } else {
        0
    }
}

/// Where a procedure or the body of a join point with the parameters `ps` starts: `x` is given up
/// if it is an owned parameter that is not needed. `inner` is the scope inside.
pub open spec fn given_up_on_entry(inner: Scope, ps: Seq<Param>, x: Symbol, needed: bool) -> int {
    if names_param(ps, x) && inner.owns(x) && !needed {
        1
    } else {
        0
    }
}

/// Everything that was due for `x` has been done, but for `missing` that must be added last.
pub open spec fn done(
    scope: Scope,
    x: Symbol,
    add: int,
    take: int,
    free: int,
    missing: int,
) -> bool {
    scope.knows(x) ==> add + missing == 0 && take == 0 && free == 0
}

/// The instructions of a statement add to the count of `x`, take from it and free `x` without its
/// contents exactly as often as the program asks for, at every point where `x` is in scope.
///
/// `add`, `take` and `free` say what is still due from before the statement. `joins` are the join
/// points in scope that need `x`.
pub open spec fn totals<'a>(
    scope: Scope<'a>,
    stmt: StmtView<'a>,
    x: Symbol,
    add: int,
    take: int,
    free: int,
    joins: Set<JoinPointId>,
) -> bool
    decreases stmt,
{
    match stmt {
        StmtView::Refcounting(ModifyRc::Inc(y, k), cont) => {
            &&& k >= 1
            &&& totals(
                scope,
                *cont,
                x,
                if y == x {
                    add - k
                } else {
                    add
                },
                take,
                free,
                joins,
            )
        },
        StmtView::Refcounting(ModifyRc::Dec(y), cont) => totals(
            scope,
            *cont,
            x,
            add,
            if y == x {
                take - 1
            } else {
                take
            },
            free,
            joins,
        ),
        StmtView::Refcounting(ModifyRc::DecRef(y), cont) => totals(
            scope,
            *cont,
            x,
            add,
            take,
            if y == x {
                free - 1
            } else {
                free
            },
            joins,
        ),
        StmtView::Let(symbol, expr, layout, cont) => {
            let inner = scope.behind_let(symbol, layout, expr);
            let needed = used(*cont, x, joins, false);
            if symbol == x {
                &&& done(scope, x, add, take, free, 0)
                &&& totals(inner, *cont, x, gained_behind(inner, expr, x), 0, 0, joins)
            } else {
                &&& done(scope, x, add, take, free, missing_for(scope, expr, x, needed))
                &&& totals(
                    inner,
                    *cont,
                    x,
                    0,
                    given_up_behind(scope, expr, x, needed),
                    freed_behind(scope, expr, x),
                    joins,
                )
            }
        },
        StmtView::Invoke { symbol, call, layout, pass, fail } => {
            let inner = scope.behind_invoke(symbol, layout, call);
            let needed = used(stmt, x, joins, false);
            let in_pass = used(*pass, x, joins, false);
            let in_fail = used(*fail, x, joins, false);
            &&& done(scope, x, add, take, free, 0)
            &&& if symbol == x {
                totals(inner, *pass, x, 0, 0, 0, joins)
            } else {
                totals(
                    inner,
                    *pass,
                    x,
                    0,
                    given_up_at_start(scope, x, needed, in_pass),
                    0,
                    joins,
                )
            }
            &&& totals(scope, *fail, x, 0, given_up_at_start(scope, x, needed, in_fail), 0, joins)
        },
        StmtView::Switch { branches, default_branch, .. } => {
            let needed = used(stmt, x, joins, false);
            let in_default = used(*default_branch.1, x, joins, false);
            &&& done(scope, x, add, take, free, 0)
            &&& forall|i: int|
                0 <= i < branches.len() ==> totals(
                    scope,
                    (#[trigger] branches[i]).2,
                    x,
                    0,
                    given_up_at_start(scope, x, needed, used(branches[i].2, x, joins, false)),
                    0,
                    joins,
                )
            &&& totals(
                scope,
                *default_branch.1,
                x,
                0,
                given_up_at_start(scope, x, needed, in_default),
                0,
                joins,
            )
        },
        StmtView::Join { id, parameters, continuation, remainder } => {
            let inner = scope.behind_params(parameters@);
            let in_body = used(*continuation, x, joins, false);
            &&& done(scope, x, add, take, free, 0)
            &&& totals(
                inner,
                *continuation,
                x,
                0,
                given_up_on_entry(inner, parameters@, x, in_body),
                0,
                joins,
            )
            &&& totals(
                scope,
                *remainder,
                x,
                0,
                0,
                0,
                joins_behind(joins, id, !names_param(parameters@, x) && in_body),
            )
        },
        StmtView::Jump(id, arguments) => {
            let ps = scope.params[Key::JoinPoint(id)]@;
            done(
                scope,
                x,
                add,
                take,
                free,
                missing(
                    scope,
                    x,
                    jump_fates(ps, arguments@, x, Fate::Taken),
                    jump_fates(ps, arguments@, x, Fate::Lent) > 0,
                    joins.contains(id),
                ),
            )
        },
        StmtView::Ret(symbol) => done(
            scope,
            x,
            add,
            take,
            free,
            if symbol == x && scope.counts(x) && !scope.owns(x) {
                1
            } else {
                0
            },
        ),
        StmtView::Rethrow | StmtView::RuntimeError(_) => done(scope, x, add, take, free, 0),
    }
}

/// What the pass knows of the variables is what the program says of them.
pub open spec fn agrees<'a>(ctx: ContextView<'a>, scope: Scope<'a>) -> bool {
    &&& ctx.param_map == scope.params
    &&& forall|x: Symbol| #[trigger] scope.knows(x) == ctx.knows(x)
    &&& forall|x: Symbol| #[trigger]
        scope.knows(x) ==> {
            &&& ctx.counted(x) == scope.vars[x].counted
            &&& ctx.vars[x].consume == scope.vars[x].owned
        }
}

/// Behind a `let` they still agree.
pub proof fn lemma_agrees_let<'a>(
    ctx: ContextView<'a>,
    scope: Scope<'a>,
    symbol: Symbol,
    layout: Layout,
    expr: Expr<'a>,
)
    requires
        agrees(ctx, scope),
    ensures
        agrees(ctx.with_let(symbol, layout, expr), scope.behind_let(symbol, layout, expr)),
        scope.behind_let(symbol, layout, expr).vars.dom() == scope.vars.dom().insert(symbol),
{
    let inner = scope.behind_let(symbol, layout, expr);
    assert(inner.vars.dom() =~= scope.vars.dom().insert(symbol));
    if let Expr::AccessAtIndex { structure, .. } = expr {
        assert(scope.knows(structure) == ctx.knows(structure));
    }
    assert forall|x: Symbol| #[trigger] inner.knows(x) == ctx.with_let(
        symbol,
        layout,
        expr,
    ).knows(x) by {
        assert(scope.knows(x) == ctx.knows(x));
    }
    assert forall|x: Symbol| #[trigger] inner.knows(x) implies {
        let c = ctx.with_let(symbol, layout, expr);
        &&& c.counted(x) == inner.vars[x].counted
        &&& c.vars[x].consume == inner.vars[x].owned
    } by {
        assert(x != symbol ==> scope.knows(x));
    }
}

/// In the `pass` branch of an `invoke` they still agree.
pub proof fn lemma_agrees_invoke<'a>(
    ctx: ContextView<'a>,
    scope: Scope<'a>,
    symbol: Symbol,
    layout: Layout,
    call: Call<'a>,
)
    requires
        agrees(ctx, scope),
    ensures
        agrees(ctx.with_invoke(symbol, layout, call), scope.behind_invoke(symbol, layout, call)),
        scope.behind_invoke(symbol, layout, call).vars.dom() == scope.vars.dom().insert(symbol),
{
    let inner = scope.behind_invoke(symbol, layout, call);
    assert(inner.vars.dom() =~= scope.vars.dom().insert(symbol));
    assert forall|x: Symbol| #[trigger] inner.knows(x) == ctx.with_invoke(
        symbol,
        layout,
        call,
    ).knows(x) by {
        assert(scope.knows(x) == ctx.knows(x));
    }
    assert forall|x: Symbol| #[trigger] inner.knows(x) implies {
        let c = ctx.with_invoke(symbol, layout, call);
        &&& c.counted(x) == inner.vars[x].counted
        &&& c.vars[x].consume == inner.vars[x].owned
    } by {
        assert(x != symbol ==> scope.knows(x));
    }
}

/// Inside a procedure or a join point they still agree.
pub proof fn lemma_agrees_params<'a>(ctx: ContextView<'a>, scope: Scope<'a>, ps: Seq<Param>)
    requires
        agrees(ctx, scope),
    ensures
        agrees(ctx.with_params(ps), scope.behind_params(ps)),
        scope.behind_params(ps).params == scope.params,
        scope.behind_params(ps).vars.dom() == scope.vars.dom().union(
            Set::new(|x: Symbol| names_param(ps, x)),
        ),
    decreases ps.len(),
{
    let named = Set::new(|x: Symbol| names_param(ps, x));
    if ps.len() == 0 {
        assert(scope.vars.dom() =~= scope.vars.dom().union(named));
    } else {
        let init = ps.drop_last();
        lemma_agrees_params(ctx, scope, init);
        let before = scope.behind_params(init);
        let inner = scope.behind_params(ps);
        let c0 = ctx.with_params(init);
        let c = ctx.with_params(ps);
        assert forall|x: Symbol| #[trigger] inner.knows(x) == c.knows(x) by {
            assert(before.knows(x) == c0.knows(x));
        }
        assert forall|x: Symbol| #[trigger] inner.knows(x) implies {
            &&& c.counted(x) == inner.vars[x].counted
            &&& c.vars[x].consume == inner.vars[x].owned
        } by {
            assert(x != ps.last().symbol ==> before.knows(x));
        }
        assert forall|x: Symbol| inner.vars.dom().contains(x) <==> scope.vars.dom().union(
            named,
        ).contains(x) by {
            assert(before.vars.dom().contains(x) <==> scope.vars.dom().contains(x) || names_param(
                init,
                x,
            ));
            if names_param(init, x) {
                let i = choose|i: int| 0 <= i < init.len() && (#[trigger] init[i]).symbol == x;
                assert(ps[i].symbol == x);
            }
            assert(ps[ps.len() - 1].symbol == ps.last().symbol);
            if names_param(ps, x) && ps.last().symbol != x {
                let i = choose|i: int| 0 <= i < ps.len() && (#[trigger] ps[i]).symbol == x;
                assert(init[i].symbol == x);
            }
        }
        assert(inner.vars.dom() =~= scope.vars.dom().union(named));
    }
}

/// Before a procedure starts they agree.
pub proof fn lemma_agrees_start<'a>(params: Map<Key, &'a [Param]>)
    ensures
        agrees(initial_context(params), Scope::at_start(params)),
{
}

/// At the start of a program exactly its functions are known. They are constants: never a counted
/// reference, and never to be consumed.
pub proof fn law_functions_are_constants<'a>(params: Map<Key, &'a [Param]>, x: Symbol)
    ensures
        initial_context(params).knows(x) <==> exists|layout: Layout| #[trigger]
            params.contains_key(Key::Declaration(x, layout)),
        initial_context(params).knows(x) ==> {
            let info = initial_context(params).vars[x];
            !info.reference && info.persistent && !info.consume
        },
        initial_context(params).param_map == params,
        forall|j: JoinPointId| !#[trigger] initial_context(params).jp_live_vars.contains_key(j),
{
}

/// What is in scope stays known as it was behind the `let` statements that come next.
pub proof fn lemma_tidy_keeps<'a>(
    ctx: ContextView<'a>,
    vars: Set<Symbol>,
    params: Map<Key, &'a [Param]>,
    stmt: StmtView<'a>,
    x: Symbol,
)
    requires
        tidy(vars, params, stmt),
        vars.contains(x),
        ctx.knows(x),
    ensures
        ctx.with_lets(stmt).knows(x),
        ctx.with_lets(stmt).vars[x] == ctx.vars[x],
    decreases stmt,
{
    match stmt {
        StmtView::Let(symbol, expr, layout, cont) => {
            lemma_tidy_keeps(
                ctx.with_let(symbol, layout, expr),
                vars.insert(symbol),
                params,
                *cont,
                x,
            );
        },
        _ => {},
    }
}

/// A tidy statement is plain.
pub proof fn lemma_tidy_plain<'a>(
    vars: Set<Symbol>,
    params: Map<Key, &'a [Param]>,
    stmt: StmtView<'a>,
)
    requires
        tidy(vars, params, stmt),
    ensures
        plain(params, stmt),
    decreases stmt,
{
    match stmt {
        StmtView::Let(symbol, expr, _, cont) => {
            lemma_tidy_plain(vars.insert(symbol), params, *cont);
            law_expression_symbols(expr, symbol);
        },
        StmtView::Invoke { symbol, pass, fail, .. } => {
            lemma_tidy_plain(vars.insert(symbol), params, *pass);
            lemma_tidy_plain(vars, params, *fail);
        },
        StmtView::Switch { branches, default_branch, .. } => {
            assert forall|i: int| 0 <= i < branches.len() implies plain(
                params,
                #[trigger] branches[i].2,
            ) by {
                lemma_tidy_plain(vars, params, branches[i].2);
            }
            lemma_tidy_plain(vars, params, *default_branch.1);
        },
        StmtView::Join { id, parameters, continuation, remainder } => {
            let ps = params[Key::JoinPoint(id)]@;
            lemma_tidy_plain(
                vars.union(Set::new(|y: Symbol| names_param(ps, y))),
                params,
                *continuation,
            );
            lemma_tidy_plain(vars, params, *remainder);
            assert forall|x: Symbol| param_symbols(parameters@).contains(x) == param_symbols(
                ps,
            ).contains(x) by {
                assert(names_param(ps, x) <==> names_param(parameters@, x));
                assert(param_symbols(ps).contains(x) <==> names_param(ps, x));
                assert(param_symbols(parameters@).contains(x) <==> names_param(parameters@, x));
            }
            assert(param_symbols(parameters@) =~= param_symbols(ps));
        },
        _ => {},
    }
}

/// What is not in scope is not used, and not live.
pub proof fn lemma_unknown_unused<'a>(
    vars: Set<Symbol>,
    params: Map<Key, &'a [Param]>,
    stmt: StmtView<'a>,
    jps: Map<JoinPointId, Set<Symbol>>,
    joins: Set<JoinPointId>,
    x: Symbol,
)
    requires
        tidy(vars, params, stmt),
        !vars.contains(x),
        forall|j: JoinPointId| !#[trigger] joins.contains(j),
        forall|j: JoinPointId|
            #![trigger jps[j]]
            jps.contains_key(j) ==> !jps[j].contains(x),
    ensures
        !used(stmt, x, joins, false),
        !live(stmt, jps).contains(x),
    decreases stmt,
{
    match stmt {
        StmtView::Let(symbol, expr, _, cont) => {
            law_expression_symbols(expr, x);
            if symbol != x {
                lemma_unknown_unused(vars.insert(symbol), params, *cont, jps, joins, x);
            }
        },
        StmtView::Invoke { symbol, pass, fail, .. } => {
            if symbol != x {
                lemma_unknown_unused(vars.insert(symbol), params, *pass, jps, joins, x);
            }
            lemma_unknown_unused(vars, params, *fail, jps, joins, x);
        },
        StmtView::Switch { branches, default_branch, .. } => {
            assert forall|i: int| 0 <= i < branches.len() implies !used(
                (#[trigger] branches[i]).2,
                x,
                joins,
                false,
            ) && !live(branches[i].2, jps).contains(x) by {
                lemma_unknown_unused(vars, params, branches[i].2, jps, joins, x);
            }
            lemma_unknown_unused(vars, params, *default_branch.1, jps, joins, x);
        },
        StmtView::Join { id, parameters, continuation, remainder } => {
            let ps = params[Key::JoinPoint(id)]@;
            let inner = vars.union(Set::new(|y: Symbol| names_param(ps, y)));
            assert(names_param(ps, x) <==> names_param(parameters@, x));
            if !names_param(ps, x) {
                lemma_unknown_unused(inner, params, *continuation, jps, joins, x);
            }
            assert(param_symbols(parameters@).contains(x) <==> names_param(parameters@, x));
            let body_live = live(*continuation, jps).difference(param_symbols(parameters@));
            lemma_unknown_unused(
                vars,
                params,
                *remainder,
                jps.insert(id, body_live),
                joins_behind(joins, id, false),
                x,
            );
        },
        _ => {},
    }
}

/// Instructions in front of a statement do not use a variable.
pub proof fn lemma_used_behind<'a>(
    ctx: ContextView<'a>,
    out: StmtView<'a>,
    b: StmtView<'a>,
    symbols: Set<Symbol>,
    x: Symbol,
    joins: Set<JoinPointId>,
)
    requires
        behind(ctx, out, b, symbols),
    ensures
        used(out, x, joins, false) == used(b, x, joins, false),
    decreases out,
{
    if out != b {
        match out {
            StmtView::Refcounting(_, cont) => {
                lemma_used_behind(ctx, *cont, b, symbols, x, joins);
            },
            _ => {},
        }
    }
}

/// What is due for a variable that is not in scope does not matter.
proof fn lemma_totals_unknown<'a>(
    scope: Scope<'a>,
    stmt: StmtView<'a>,
    x: Symbol,
    add1: int,
    take1: int,
    free1: int,
    add2: int,
    take2: int,
    free2: int,
    joins: Set<JoinPointId>,
)
    requires
        !scope.knows(x),
        totals(scope, stmt, x, add1, take1, free1, joins),
    ensures
        totals(scope, stmt, x, add2, take2, free2, joins),
    decreases stmt,
{
    match stmt {
        StmtView::Refcounting(ModifyRc::Inc(y, k), cont) => {
            let (a1, a2) = if y == x {
                (add1 - k, add2 - k)
            } else {
                (add1, add2)
            };
            lemma_totals_unknown(scope, *cont, x, a1, take1, free1, a2, take2, free2, joins);
        },
        StmtView::Refcounting(ModifyRc::Dec(y), cont) => {
            let (t1, t2) = if y == x {
                (take1 - 1, take2 - 1)
            } else {
                (take1, take2)
            };
            lemma_totals_unknown(scope, *cont, x, add1, t1, free1, add2, t2, free2, joins);
        },
        StmtView::Refcounting(ModifyRc::DecRef(y), cont) => {
            let (f1, f2) = if y == x {
                (free1 - 1, free2 - 1)
            } else {
                (free1, free2)
            };
            lemma_totals_unknown(scope, *cont, x, add1, take1, f1, add2, take2, f2, joins);
        },
        _ => {},
    }
}

/// The context in which instructions were inserted says of `x` what the program does.
spec fn agrees_on(ctx: ContextView, scope: Scope, x: Symbol) -> bool {
    &&& scope.knows(x)
    &&& ctx.knows(x)
    &&& ctx.counted(x) == scope.vars[x].counted
    &&& ctx.vars[x].consume == scope.vars[x].owned
}

/// What is added to the count of `x` in front of the arguments `xs`.
spec fn incs(
    ctx: ContextView,
    xs: Seq<Symbol>,
    pred: ConsumePred,
    live_after: Set<Symbol>,
    x: Symbol,
    n: nat,
) -> int {
    let incs = ctx.incs_needed(x, xs, pred, live_after);
    if ctx.counted(x) && occurs(xs, x, n) && incs >= 1 {
        incs
    } else {
        0
    }
}

/// The increments in front of a statement.
proof fn lemma_inc_totals<'a>(
    ctx: ContextView<'a>,
    xs: Seq<Symbol>,
    pred: ConsumePred,
    b: StmtView<'a>,
    live_after: Set<Symbol>,
    n: nat,
    scope: Scope<'a>,
    x: Symbol,
    add: int,
    joins: Set<JoinPointId>,
)
    requires
        n <= xs.len() <= u64::MAX,
        totals(scope, b, x, add, 0, 0, joins),
    ensures
        totals(
            scope,
            ctx.inc_before_upto(xs, pred, b, live_after, n),
            x,
            add + incs(ctx, xs, pred, live_after, x, n),
            0,
            0,
            joins,
        ),
    decreases n,
{
    if n > 0 {
        let m = (n - 1) as nat;
        lemma_inc_totals(ctx, xs, pred, b, live_after, m, scope, x, add, joins);
        lemma_first_or_before(xs, x, n);
        lemma_consumptions_bound(xs[n - 1], xs, pred, xs.len());
    } else {
        assert(!occurs(xs, x, 0));
    }
}

/// The decrements behind a call of a function.
proof fn lemma_dec_application_totals<'a>(
    ctx: ContextView<'a>,
    xs: Seq<Symbol>,
    ps: &[Param],
    b: StmtView<'a>,
    b_live: Set<Symbol>,
    n: nat,
    scope: Scope<'a>,
    x: Symbol,
    joins: Set<JoinPointId>,
)
    requires
        n <= xs.len(),
        totals(scope, b, x, 0, 0, 0, joins),
    ensures
        totals(
            scope,
            ctx.dec_after_application_upto(xs, ps, b, b_live, n),
            x,
            0,
            if ctx.counted(x) && ctx.vars[x].consume && !b_live.contains(x) && is_borrowed(
                x,
                xs,
                ConsumePred::Params(ps),
            ) && occurs(xs, x, n) {
                1
            } else {
                0
            },
            0,
            joins,
        ),
    decreases n,
{
    if n > 0 {
        let m = (n - 1) as nat;
        lemma_dec_application_totals(ctx, xs, ps, b, b_live, m, scope, x, joins);
        lemma_first_or_before(xs, x, n);
    } else {
        assert(!occurs(xs, x, 0));
    }
}

/// The decrements behind a built-in or foreign call.
proof fn lemma_dec_lowlevel_totals<'a>(
    ctx: ContextView<'a>,
    xs: Seq<Symbol>,
    flags: Seq<bool>,
    b: StmtView<'a>,
    b_live: Set<Symbol>,
    n: nat,
    scope: Scope<'a>,
    x: Symbol,
    joins: Set<JoinPointId>,
)
    requires
        n <= flagged(xs, flags),
        totals(scope, b, x, 0, 0, 0, joins),
    ensures
        totals(
            scope,
            ctx.dec_after_lowlevel_upto(xs, flags, b, b_live, n),
            x,
            0,
            if ctx.counted(x) && ctx.vars[x].consume && !b_live.contains(x) && first_is_borrowed(
                xs,
                flags,
                x,
                n,
            ) {
                1
            } else {
                0
            },
            0,
            joins,
        ),
    decreases n,
{
    if n > 0 {
        let m = (n - 1) as nat;
        lemma_dec_lowlevel_totals(ctx, xs, flags, b, b_live, m, scope, x, joins);
        if xs[n - 1] == x && is_first(xs, n - 1) && flags[n - 1] == BORROWED {
            assert(first_is_borrowed(xs, flags, x, n));
            assert(!first_is_borrowed(xs, flags, x, m));
        } else {
            assert(first_is_borrowed(xs, flags, x, n) == first_is_borrowed(xs, flags, x, m));
        }
    } else {
        assert(!first_is_borrowed(xs, flags, x, 0));
    }
}

/// The containers that are freed behind an operation that takes a function.
proof fn lemma_free_totals<'a>(
    args: Seq<Symbol>,
    shape: HigherOrderShape,
    ps: Seq<Param>,
    b: StmtView<'a>,
    n: nat,
    scope: Scope<'a>,
    x: Symbol,
    take: int,
    joins: Set<JoinPointId>,
)
    requires
        n <= shape.leading.len(),
        totals(scope, b, x, 0, take, 0, joins),
    ensures
        totals(
            scope,
            free_containers(args, shape, ps, b, n),
            x,
            0,
            take,
            owned_positions(x, args, higher_order_borrows(shape, ps), 0, n) as int,
            joins,
        ),
    decreases n,
{
    if n > 0 {
        let m = (n - 1) as nat;
        lemma_free_totals(args, shape, ps, b, m, scope, x, take, joins);
        assert(higher_order_borrows(shape, ps)[n - 1] == leading_borrow(
            shape.leading[n - 1],
            ps,
        ));
    }
}

/// The decrements at the start of an alternative.
proof fn lemma_dec_each_totals<'a>(
    ctx: ContextView<'a>,
    order: Seq<Symbol>,
    b: StmtView<'a>,
    scope: Scope<'a>,
    x: Symbol,
    joins: Set<JoinPointId>,
)
    requires
        order.no_duplicates(),
        totals(scope, b, x, 0, 0, 0, joins),
    ensures
        totals(
            scope,
            ctx.dec_each(order, b),
            x,
            0,
            if ctx.counted(x) && order.contains(x) {
                1
            } else {
                0
            },
            0,
            joins,
        ),
    decreases order.len(),
{
    if order.len() > 0 {
        let init = order.drop_last();
        lemma_dec_each_totals(ctx, init, b, scope, x, joins);
        if order.last() == x {
            assert(!init.contains(x));
            assert(order[order.len() - 1] == x);
        } else {
            if order.contains(x) {
                let i = choose|i: int| 0 <= i < order.len() && order[i] == x;
                assert(init[i] == x);
            }
            if init.contains(x) {
                let i = choose|i: int| 0 <= i < init.len() && init[i] == x;
                assert(order[i] == x);
            }
        }
    }
}

/// The decrements for dead parameters.
proof fn lemma_dec_params_totals<'a>(
    ctx: ContextView<'a>,
    ps: Seq<Param>,
    b: StmtView<'a>,
    b_live: Set<Symbol>,
    scope: Scope<'a>,
    x: Symbol,
    joins: Set<JoinPointId>,
)
    requires
        distinct_params(ps),
        totals(scope, b, x, 0, 0, 0, joins),
    ensures
        totals(
            scope,
            ctx.dec_for_dead_params(ps, b, b_live),
            x,
            0,
            if ctx.counted(x) && exists|i: int|
                0 <= i < ps.len() && (#[trigger] ps[i]).symbol == x && ctx.is_dead_param(
                    ps[i],
                    b_live,
                ) {
                1
            } else {
                0
            },
            0,
            joins,
        ),
    decreases ps.len(),
{
    if ps.len() > 0 {
        let init = ps.drop_last();
        assert forall|i: int, j: int| 0 <= i < j < init.len() implies (#[trigger] init[i]).symbol
            != (#[trigger] init[j]).symbol by {
            assert(ps[i].symbol != ps[j].symbol);
        }
        lemma_dec_params_totals(ctx, init, b, b_live, scope, x, joins);
        assert(forall|i: int| 0 <= i < init.len() ==> ps[i] == #[trigger] init[i]);
        assert(forall|i: int| 0 <= i < init.len() ==> init[i] == #[trigger] ps[i]);
        assert(ps[ps.len() - 1] == ps.last());
        if ps.last().symbol == x {
            assert forall|i: int| 0 <= i < init.len() implies (#[trigger] init[i]).symbol != x by {
                assert(ps[i].symbol != ps[ps.len() - 1].symbol);
            }
        }
    }
}

/// There is a position of a fate where one can be found.
pub proof fn lemma_fates_positive(
    xs: Seq<Symbol>,
    f: spec_fn(int) -> Fate,
    x: Symbol,
    fate: Fate,
    n: nat,
)
    ensures
        fates_upto(xs, f, x, fate, n) > 0 <==> exists|i: int|
            0 <= i < n && #[trigger] xs[i] == x && f(i) == fate,
    decreases n,
{
    if n > 0 {
        lemma_fates_positive(xs, f, x, fate, (n - 1) as nat);
    }
}

/// What the pass counts as consumed is what is taken.
pub proof fn lemma_consumptions_taken(
    x: Symbol,
    xs: Seq<Symbol>,
    pred: ConsumePred,
    f: spec_fn(int) -> Fate,
    n: nat,
)
    requires
        forall|i: int| 0 <= i < n ==> (pred.consumes(i) <==> (#[trigger] f(i)) is Taken),
    ensures
        consumptions_upto(x, xs, pred, n) == fates_upto(xs, f, x, Fate::Taken, n),
    decreases n,
{
    if n > 0 {
        lemma_consumptions_taken(x, xs, pred, f, (n - 1) as nat);
        assert(pred.consumes(n - 1) <==> f(n - 1) is Taken);
    }
}

/// What is added in front of arguments is what is missing for them.
proof fn lemma_incs_missing<'a>(
    ctx: ContextView<'a>,
    scope: Scope<'a>,
    xs: Seq<Symbol>,
    pred: ConsumePred,
    f: spec_fn(int) -> Fate,
    live_after: Set<Symbol>,
    x: Symbol,
)
    requires
        agrees_on(ctx, scope, x),
        forall|i: int| 0 <= i < xs.len() ==> (pred.consumes(i) <==> (#[trigger] f(i)) is Taken),
        forall|i: int| 0 <= i < xs.len() ==> !((#[trigger] f(i)) is Emptied),
    ensures
        incs(ctx, xs, pred, live_after, x, xs.len()) == missing(
            scope,
            x,
            fates_upto(xs, f, x, Fate::Taken, xs.len()),
            fates_upto(xs, f, x, Fate::Lent, xs.len()) > 0,
            live_after.contains(x),
        ),
{
    let n = xs.len();
    lemma_consumptions_taken(x, xs, pred, f, n);
    lemma_fates_positive(xs, f, x, Fate::Taken, n);
    lemma_fates_positive(xs, f, x, Fate::Lent, n);
    let lent = fates_upto(xs, f, x, Fate::Lent, n) > 0;
    assert(is_borrowed(x, xs, pred) <==> lent) by {
        if is_borrowed(x, xs, pred) {
            let i = choose|i: int| 0 <= i < xs.len() && #[trigger] xs[i] == x && !pred.consumes(i);
            assert(!(f(i) is Taken));
            assert(f(i) is Lent);
        }
        if lent {
            let i = choose|i: int| 0 <= i < n && #[trigger] xs[i] == x && f(i) == Fate::Lent;
            assert(!pred.consumes(i));
        }
    }
    if fates_upto(xs, f, x, Fate::Taken, n) > 0 {
        let i = choose|i: int| 0 <= i < n && #[trigger] xs[i] == x && f(i) == Fate::Taken;
        assert(occurs(xs, x, n));
    }
}

/// The flags that the pass goes by say what becomes of the arguments of a built-in or foreign
/// call.
pub proof fn lemma_signature_fates<'a>(ctx: ContextView<'a>, call: Call<'a>, i: int)
    requires
        !(call.call_type is ByName),
        0 <= i,
    ensures
        ({
            let (flags, containers) = signature(ctx, call)->0;
            let fate = argument_fate(ctx.param_map, call, i);
            &&& flags.len() == flag_count(call)
            &&& i < containers && i < flags.len() ==> (flags[i] == OWNED <==> fate is Emptied)
            &&& containers <= i < flags.len() ==> (flags[i] == OWNED <==> fate is Taken)
            &&& i < flags.len() ==> (flags[i] == BORROWED <==> fate is Lent)
            &&& i >= flags.len() ==> fate is Lent
            &&& fate is Emptied ==> i < containers
            &&& fate is Taken ==> i >= containers
        }),
{
    match call.call_type {
        CallType::HigherOrderLowLevel { op, closure_layout, .. } => {
            if let Some(shape) = higher_order_shape(op.op) {
                let ps = ctx.function_params(call.arguments@, shape, closure_layout)@;
                let flags = higher_order_borrows(shape, ps);
                if i < shape.leading.len() {
                    assert(flags[i] == leading_borrow(shape.leading[i], ps));
                }
            }
        },
        _ => {},
    }
}

/// Positions of a fate that the flags give are counted by the flags.
pub proof fn lemma_fates_by_flags(
    x: Symbol,
    xs: Seq<Symbol>,
    flags: Seq<bool>,
    f: spec_fn(int) -> Fate,
    fate: Fate,
    lo: nat,
    hi: nat,
    n: nat,
)
    requires
        forall|i: int|
            0 <= i < n ==> ((#[trigger] f(i)) == fate <==> lo <= i < hi && flags[i] == OWNED),
    ensures
        fates_upto(xs, f, x, fate, n) == owned_positions(
            x,
            xs,
            flags,
            lo,
            if n < hi {
                n
            } else {
                hi
            },
        ),
    decreases n,
{
    if n > 0 {
        let m = (n - 1) as nat;
        lemma_fates_by_flags(x, xs, flags, f, fate, lo, hi, m);
        assert(f(n - 1) == fate <==> lo <= n - 1 < hi && flags[n - 1] == OWNED);
    }
}

/// What the pass frees and drops behind a built-in or foreign call.
proof fn lemma_flags_totals<'a>(ctx: ContextView<'a>, z: Symbol, call: Call<'a>, x: Symbol)
    requires
        !(call.call_type is ByName),
        ctx.declare_defined(z, Expr::Call(call)),
    ensures
        ({
            let xs = call.arguments@;
            let (flags, containers) = signature(ctx, call)->0;
            let f = |i: int| operand_fate(ctx.param_map, Expr::Call(call), i);
            &&& containers <= flagged(xs, flags)
            &&& fates(ctx.param_map, Expr::Call(call), x, Fate::Emptied) == owned_positions(
                x,
                xs,
                flags,
                0,
                containers,
            )
            &&& fates(ctx.param_map, Expr::Call(call), x, Fate::Taken) == owned_positions(
                x,
                xs,
                flags,
                containers,
                flagged(xs, flags),
            )
            &&& first_is_lent(ctx.param_map, call, x) <==> first_is_borrowed(
                xs,
                flags,
                x,
                flagged(xs, flags),
            )
        }),
{
    let xs = call.arguments@;
    let (flags, containers) = signature(ctx, call)->0;
    let f = |i: int| operand_fate(ctx.param_map, Expr::Call(call), i);
    let hi = flagged(xs, flags);
    lemma_signature_fates(ctx, call, 0);
    assert(containers <= hi);
    assert forall|i: int| 0 <= i < xs.len() implies ((#[trigger] f(i)) == Fate::Emptied <==> 0 <= i
        < containers && flags[i] == OWNED) by {
        lemma_signature_fates(ctx, call, i);
    }
    lemma_fates_by_flags(x, xs, flags, f, Fate::Emptied, 0, containers, xs.len());
    assert forall|i: int| 0 <= i < xs.len() implies ((#[trigger] f(i)) == Fate::Taken
        <==> containers <= i < hi && flags[i] == OWNED) by {
        lemma_signature_fates(ctx, call, i);
    }
    lemma_fates_by_flags(x, xs, flags, f, Fate::Taken, containers, hi, xs.len());
    if first_is_lent(ctx.param_map, call, x) {
        let i = choose|i: int|
            {
                &&& 0 <= i < call.arguments@.len()
                &&& i < flag_count(call)
                &&& #[trigger] call.arguments@[i] == x
                &&& forall|j: int| 0 <= j < i ==> call.arguments@[j] != x
                &&& argument_fate(ctx.param_map, call, i) is Lent
            };
        lemma_signature_fates(ctx, call, i);
        assert(xs[i] == x && is_first(xs, i));
    }
    if first_is_borrowed(xs, flags, x, hi) {
        let i = choose|i: int|
            0 <= i < hi && #[trigger] xs[i] == x && is_first(xs, i) && flags[i] == BORROWED;
        lemma_signature_fates(ctx, call, i);
        assert(call.arguments@[i] == x);
    }
}

/// What is known where `let z = v` is worked on, in front of a statement of which the totals are
/// right.
spec fn let_due<'a>(
    ctx: ContextView<'a>,
    scope: Scope<'a>,
    z: Symbol,
    v: Expr<'a>,
    l: Layout,
    b: StmtView<'a>,
    b_live: Set<Symbol>,
    x: Symbol,
    joins: Set<JoinPointId>,
) -> bool {
    let inner = scope.behind_let(z, l, v);
    &&& ctx.param_map == scope.params
    &&& scope.knows(x) ==> agrees_on(ctx, scope, x)
    &&& inner.knows(x) ==> agrees_on(ctx, inner, x)
    &&& ctx.declare_defined(z, v)
    &&& !operands(v).contains(z)
    &&& scope.knows(x) ==> x != z
    &&& inner.knows(x) ==> (b_live.contains(x) <==> used(b, x, joins, false))
    &&& totals(inner, b, x, 0, 0, 0, joins)
}

/// `let z = v` where `v` is built from operands.
proof fn lemma_consuming_totals<'a>(
    ctx: ContextView<'a>,
    scope: Scope<'a>,
    z: Symbol,
    v: Expr<'a>,
    l: Layout,
    ys: Seq<Symbol>,
    b: StmtView<'a>,
    b_live: Set<Symbol>,
    x: Symbol,
    joins: Set<JoinPointId>,
)
    requires
        let_due(ctx, scope, z, v, l, b, b_live, x, joins),
        ys.len() <= u64::MAX,
        match v {
            Expr::Tag { arguments, .. } => ys == arguments@,
            Expr::Struct(arguments) => ys == arguments@,
            Expr::Array { elems, .. } => ys == elems@,
            Expr::Reuse { arguments, .. } => ys == arguments@,
            _ => false,
        },
    ensures
        totals(scope, ctx.declare(z, v, l, b, b_live), x, 0, 0, 0, joins),
{
    let bound = StmtView::Let(z, v, l, Box::new(b));
    let f = |i: int| operand_fate(scope.params, v, i);
    if scope.knows(x) {
        lemma_incs_missing(ctx, scope, ys, ConsumePred::All, f, b_live, x);
        let more = incs(ctx, ys, ConsumePred::All, b_live, x, ys.len());
        assert(missing_for(scope, v, x, b_live.contains(x)) == more);
        assert(totals(scope, bound, x, -more, 0, 0, joins));
        lemma_inc_totals(
            ctx,
            ys,
            ConsumePred::All,
            bound,
            b_live,
            ys.len(),
            scope,
            x,
            -more,
            joins,
        );
    } else {
        if z != x {
            lemma_totals_unknown(
                scope.behind_let(z, l, v),
                b,
                x,
                0,
                0,
                0,
                0,
                given_up_behind(scope, v, x, used(b, x, joins, false)),
                freed_behind(scope, v, x),
                joins,
            );
        }
        assert(totals(scope, bound, x, 0, 0, 0, joins));
        lemma_inc_totals(
            ctx,
            ys,
            ConsumePred::All,
            bound,
            b_live,
            ys.len(),
            scope,
            x,
            0,
            joins,
        );
        lemma_totals_unknown(
            scope,
            ctx.declare(z, v, l, b, b_live),
            x,
            incs(ctx, ys, ConsumePred::All, b_live, x, ys.len()),
            0,
            0,
            0,
            0,
            0,
            joins,
        );
    }
}

/// `let z = v` where `v` is a part of a structure.
proof fn lemma_access_totals<'a>(
    ctx: ContextView<'a>,
    scope: Scope<'a>,
    z: Symbol,
    v: Expr<'a>,
    l: Layout,
    b: StmtView<'a>,
    b_live: Set<Symbol>,
    x: Symbol,
    joins: Set<JoinPointId>,
)
    requires
        let_due(ctx, scope, z, v, l, b, b_live, x, joins),
        v is AccessAtIndex,
        agrees_on(ctx, scope, v->structure),
        agrees_on(ctx, scope.behind_let(z, l, v), z),
    ensures
        totals(scope, ctx.declare(z, v, l, b, b_live), x, 0, 0, 0, joins),
{
    let inner = scope.behind_let(z, l, v);
    let structure = v->structure;
    assert(operands(v)[0] == structure);
    assert(structure != z);
    let bound = StmtView::Let(z, v, l, Box::new(declared_body(ctx, z, v, b, b_live)));
    reveal_with_fuel(totals, 4);
    reveal_with_fuel(used, 4);
    assert(ctx.declare(z, v, l, b, b_live) == bound);
    assert(handed(v) == Seq::<Symbol>::empty());
    if x == z {
    } else if scope.knows(x) {
    } else {
        lemma_totals_unknown(inner, b, x, 0, 0, 0, 0, 1, 0, joins);
        lemma_totals_unknown(inner, b, x, 0, 0, 0, 0, 0, 0, joins);
    }
}

/// `let z = v` where `v` is a call of a function of the program.
proof fn lemma_application_totals<'a>(
    ctx: ContextView<'a>,
    scope: Scope<'a>,
    z: Symbol,
    call: Call<'a>,
    l: Layout,
    b: StmtView<'a>,
    b_live: Set<Symbol>,
    x: Symbol,
    joins: Set<JoinPointId>,
)
    requires
        let_due(ctx, scope, z, Expr::Call(call), l, b, b_live, x, joins),
        call.call_type is ByName,
        call.arguments@.len() <= u64::MAX,
    ensures
        totals(scope, ctx.declare(z, Expr::Call(call), l, b, b_live), x, 0, 0, 0, joins),
{
    let v = Expr::Call(call);
    let inner = scope.behind_let(z, l, v);
    let xs = call.arguments@;
    let n = xs.len();
    let ps = ctx.param_map[Key::Declaration(
        call.call_type->ByName_name,
        call.call_type->full_layout,
    )];
    let pred = ConsumePred::Params(ps);
    let f = |i: int| operand_fate(scope.params, v, i);
    let body = ctx.dec_after_application(xs, ps, b, b_live);
    let bound = StmtView::Let(z, v, l, Box::new(body));
    lemma_dec_application_totals(ctx, xs, ps, b, b_live, n, inner, x, joins);
    crate::inserted::lemma_dec_after_application(ctx, xs, ps, b, b_live, n);
    lemma_used_behind(ctx, body, b, xs.to_set(), x, joins);
    let d: int = if ctx.counted(x) && ctx.vars[x].consume && !b_live.contains(x) && is_borrowed(
        x,
        xs,
        pred,
    ) && occurs(xs, x, n) {
        1
    } else {
        0
    };
    assert(occurs(xs, x, n) <==> xs.contains(x)) by {
        if xs.contains(x) {
            let i = choose|i: int| 0 <= i < xs.len() && xs[i] == x;
            assert(xs[i] == x);
        }
    }
    assert(fates(scope.params, v, x, Fate::Emptied) == 0) by {
        lemma_fates_positive(xs, f, x, Fate::Emptied, n);
    }
    let more = incs(ctx, xs, pred, b_live, x, n);
    if scope.knows(x) {
        lemma_incs_missing(ctx, scope, xs, pred, f, b_live, x);
        lemma_fates_positive(xs, f, x, Fate::Lent, n);
        assert(fates(scope.params, v, x, Fate::Lent) > 0 <==> is_borrowed(x, xs, pred)) by {
            if is_borrowed(x, xs, pred) {
                let i = choose|i: int|
                    0 <= i < xs.len() && #[trigger] xs[i] == x && !pred.consumes(i);
                assert(f(i) is Lent);
            }
            if fates(scope.params, v, x, Fate::Lent) > 0 {
                let i = choose|i: int| 0 <= i < n && #[trigger] xs[i] == x && f(i) == Fate::Lent;
                assert(!pred.consumes(i));
            }
        }
        assert(is_borrowed(x, xs, pred) ==> occurs(xs, x, n));
        assert(d == given_up_behind(scope, v, x, used(body, x, joins, false)));
        assert(more == missing_for(scope, v, x, used(body, x, joins, false)));
        assert(totals(scope, bound, x, -more, 0, 0, joins));
        lemma_inc_totals(ctx, xs, pred, bound, b_live, n, scope, x, -more, joins);
    } else {
        if z == x {
            assert(d == 0);
        } else {
            lemma_totals_unknown(
                inner,
                body,
                x,
                0,
                d,
                0,
                0,
                given_up_behind(scope, v, x, used(body, x, joins, false)),
                freed_behind(scope, v, x),
                joins,
            );
        }
        assert(totals(scope, bound, x, 0, 0, 0, joins));
        lemma_inc_totals(ctx, xs, pred, bound, b_live, n, scope, x, 0, joins);
        lemma_totals_unknown(
            scope,
            ctx.declare(z, v, l, b, b_live),
            x,
            more,
            0,
            0,
            0,
            0,
            0,
            joins,
        );
    }
}

/// `let z = v` where `v` is a built-in or foreign call.
proof fn lemma_flagged_totals<'a>(
    ctx: ContextView<'a>,
    scope: Scope<'a>,
    z: Symbol,
    call: Call<'a>,
    l: Layout,
    b: StmtView<'a>,
    b_live: Set<Symbol>,
    x: Symbol,
    joins: Set<JoinPointId>,
)
    requires
        let_due(ctx, scope, z, Expr::Call(call), l, b, b_live, x, joins),
        !(call.call_type is ByName),
    ensures
        totals(scope, ctx.declare(z, Expr::Call(call), l, b, b_live), x, 0, 0, 0, joins),
{
    let v = Expr::Call(call);
    let inner = scope.behind_let(z, l, v);
    let xs = call.arguments@;
    let (flags, containers) = signature(ctx, call)->0;
    let hi = flagged(xs, flags);
    let body = declared_body(ctx, z, v, b, b_live);
    let w = adapt_expr(ctx.param_map, v);
    let bound = StmtView::Let(z, w, l, Box::new(body));
    lemma_flags_totals(ctx, z, call, x);
    lemma_adapted(ctx.param_map, scope, z, v, l, x);
    lemma_declare(ctx, z, v, l, b, b_live);
    lemma_used_behind(ctx, body, b, expr_symbols(v).insert(z), x, joins);
    lemma_dec_lowlevel_totals(ctx, xs, flags, b, b_live, hi, inner, x, joins);
    let mid = ctx.dec_after_lowlevel(xs, flags, b, b_live);
    let d: int = if ctx.counted(x) && ctx.vars[x].consume && !b_live.contains(x)
        && first_is_borrowed(xs, flags, x, hi) {
        1
    } else {
        0
    };
    let e = owned_positions(x, xs, flags, 0, containers) as int;
    assert(totals(inner, body, x, 0, d, e, joins)) by {
        match call.call_type {
            CallType::HigherOrderLowLevel { op, closure_layout, .. } => {
                if let Some(shape) = higher_order_shape(op.op) {
                    let ps = ctx.function_params(xs, shape, closure_layout)@;
                    lemma_free_totals(xs, shape, ps, mid, shape.containers, inner, x, d, joins);
                }
            },
            _ => {},
        }
    }
    let needed = used(body, x, joins, false);
    assert(handed(v) == Seq::<Symbol>::empty());
    assert(missing_for(scope, v, x, needed) == 0);
    if scope.knows(x) {
        assert(d == given_up_behind(scope, v, x, needed));
        assert(e == freed_behind(scope, v, x));
        assert(totals(scope, bound, x, 0, 0, 0, joins));
    } else if z == x {
        assert(!xs.contains(x));
        crate::ownership_laws::lemma_owned_positions_positive(x, xs, flags, 0, containers);
        assert(d == 0 && e == 0);
        assert(totals(scope, bound, x, 0, 0, 0, joins));
    } else {
        lemma_totals_unknown(
            inner,
            body,
            x,
            0,
            d,
            e,
            0,
            given_up_behind(scope, w, x, needed),
            freed_behind(scope, w, x),
            joins,
        );
        assert(totals(scope, bound, x, 0, 0, 0, joins));
    }
    assert(ctx.declare(z, v, l, b, b_live) == bound);
}

/// A call behind the pass asks for what the call that was given asked for.
proof fn lemma_adapted<'a>(
    params: Map<Key, &'a [Param]>,
    scope: Scope<'a>,
    z: Symbol,
    v: Expr<'a>,
    l: Layout,
    x: Symbol,
)
    requires
        params == scope.params,
        v is Call,
        !(v->Call_0.call_type is ByName),
    ensures
        ({
            let w = adapt_expr(params, v);
            &&& w is Call
            &&& !(w->Call_0.call_type is ByName)
            &&& operands(w) == operands(v)
            &&& scope.behind_let(z, l, w) == scope.behind_let(z, l, v)
            &&& forall|i: int| #[trigger]
                operand_fate(params, w, i) == operand_fate(params, v, i)
            &&& freed_behind(scope, w, x) == freed_behind(scope, v, x)
            &&& forall|needed: bool| #[trigger]
                given_up_behind(scope, w, x, needed) == given_up_behind(scope, v, x, needed)
            &&& forall|needed: bool| #[trigger]
                missing_for(scope, w, x, needed) == missing_for(scope, v, x, needed)
        }),
{
    let w = adapt_expr(params, v);
    let call = v->Call_0;
    let adapted = w->Call_0;
    assert forall|i: int| #[trigger] operand_fate(params, w, i) == operand_fate(params, v, i) by {}
    let f = |i: int| operand_fate(params, v, i);
    let g = |i: int| operand_fate(params, w, i);
    assert(f =~= g);
    assert(flag_count(adapted) == flag_count(call));
    assert(first_is_lent(params, adapted, x) == first_is_lent(params, call, x)) by {
        assert forall|i: int| #[trigger] argument_fate(params, adapted, i) == argument_fate(
            params,
            call,
            i,
        ) by {
            assert(operand_fate(params, w, i) == operand_fate(params, v, i));
        }
    }
    assert(handed(w) == Seq::<Symbol>::empty());
    assert(handed(v) == Seq::<Symbol>::empty());
}

/// Only variables in scope are live in the join points in scope.
pub open spec fn joins_known(jps: Map<JoinPointId, Set<Symbol>>, scope: Scope) -> bool {
    forall|j: JoinPointId, y: Symbol|
        jps.contains_key(j) && #[trigger] jps[j].contains(y) ==> scope.knows(y)
}

/// The instructions that the pass inserts add to, take from and free each variable exactly as
/// often as the program asks for, at every point.
pub proof fn law_totals<'a>(
    ctx: ContextView<'a>,
    scope: Scope<'a>,
    stmt: StmtView<'a>,
    out: StmtView<'a>,
    live_vars: Set<Symbol>,
    x: Symbol,
)
    requires
        agrees(ctx, scope),
        joins_known(ctx.jp_live_vars, scope),
        tidy(scope.vars.dom(), scope.params, stmt),
        visitable(ctx, stmt),
        visits(ctx, stmt, out, live_vars),
    ensures
        totals(scope, out, x, 0, 0, 0, joins_with(ctx.jp_live_vars, x)),
    decreases stmt, 2nat,
{
    lemma_totals_in(ctx, scope, stmt, out, live_vars, x);
}

/// What a tidy statement uses, the pass finds live and leaves in use.
pub proof fn lemma_used_kept<'a>(
    ctx: ContextView<'a>,
    scope: Scope<'a>,
    stmt: StmtView<'a>,
    out: StmtView<'a>,
    live_vars: Set<Symbol>,
    x: Symbol,
)
    requires
        agrees(ctx, scope),
        tidy(scope.vars.dom(), scope.params, stmt),
        visitable(ctx, stmt),
        visits(ctx, stmt, out, live_vars),
        scope.knows(x),
    ensures
        live_vars.contains(x) <==> used(out, x, joins_with(ctx.jp_live_vars, x), false),
        live(stmt, ctx.jp_live_vars).contains(x) <==> used(
            out,
            x,
            joins_with(ctx.jp_live_vars, x),
            false,
        ),
{
    let vars = scope.vars.dom();
    lemma_tidy_plain(vars, scope.params, stmt);
    lemma_tidy_bare(vars, scope.params, stmt);
    law_live_vars_are_kept(ctx, stmt, out, live_vars);
    law_same_program(ctx, stmt, out, live_vars);
    lemma_like_used(vars, scope.params, stmt, out, x, joins_with(ctx.jp_live_vars, x));
    lemma_live_used(vars, scope.params, stmt, ctx.jp_live_vars, x);
}

/// An alternative of a choice before which `case_live` are live.
proof fn lemma_totals_alt<'a>(
    ctx: ContextView<'a>,
    scope: Scope<'a>,
    case_live: Set<Symbol>,
    stmt: StmtView<'a>,
    out: StmtView<'a>,
    x: Symbol,
    take: int,
)
    requires
        agrees(ctx, scope),
        joins_known(ctx.jp_live_vars, scope),
        tidy(scope.vars.dom(), scope.params, stmt),
        visitable_alt(ctx, case_live, stmt),
        visits_alt(ctx, case_live, stmt, out),
        scope.knows(x) ==> take == given_up_at_start(
            scope,
            x,
            case_live.contains(x),
            used(out, x, joins_with(ctx.jp_live_vars, x), false),
        ),
    ensures
        totals(scope, out, x, 0, take, 0, joins_with(ctx.jp_live_vars, x)),
    decreases stmt, 3nat,
{
    let joins = joins_with(ctx.jp_live_vars, x);
    let (b, b_live) = choose|b: StmtView<'a>, b_live: Set<Symbol>|
        visits(ctx, stmt, b, b_live) && #[trigger] ctx.is_dec_for_alt(case_live, b_live, b, out);
    let order = choose|order: Seq<Symbol>| #[trigger]
        ctx.dec_each(order, b) == out && order.no_duplicates() && order.to_set()
            == ctx.dead_in_alt(case_live, b_live);
    law_totals(ctx, scope, stmt, b, b_live, x);
    lemma_dec_each(ctx, order, b);
    lemma_used_behind(ctx, out, b, order.to_set(), x, joins);
    lemma_dec_each_totals(ctx, order, b, scope, x, joins);
    assert(order.contains(x) == order.to_set().contains(x));
    let d: int = if ctx.counted(x) && order.contains(x) {
        1
    } else {
        0
    };
    if scope.knows(x) {
        lemma_used_kept(ctx, scope, stmt, b, b_live, x);
        assert(d == take);
    } else {
        lemma_totals_unknown(scope, out, x, 0, d, 0, 0, take, 0, joins);
    }
}

/// [`law_totals`], where the statement may start with a `let`.
proof fn lemma_totals_in<'a>(
    w: ContextView<'a>,
    scope: Scope<'a>,
    stmt: StmtView<'a>,
    out: StmtView<'a>,
    live_vars: Set<Symbol>,
    x: Symbol,
)
    requires
        agrees(w, scope),
        joins_known(w.jp_live_vars, scope),
        tidy(scope.vars.dom(), scope.params, stmt),
        visitable_in(w.with_lets(stmt), stmt),
        visits_in(w.with_lets(stmt), stmt, out, live_vars),
    ensures
        totals(scope, out, x, 0, 0, 0, joins_with(w.jp_live_vars, x)),
    decreases stmt, 1nat,
{
    let ctx = w.with_lets(stmt);
    let vars = scope.vars.dom();
    let params = scope.params;
    let joins = joins_with(w.jp_live_vars, x);
    lemma_with_lets_keeps(w, stmt);
    lemma_tidy_plain(vars, params, stmt);
    assert(visitable(w, stmt));
    assert(visits(w, stmt, out, live_vars));
    match stmt {
        StmtView::Let(symbol, expr, layout, cont) => {
            let (b, b_live) = choose|b: StmtView<'a>, b_live: Set<Symbol>|
                {
                    &&& visits_in(ctx, *cont, b, b_live)
                    &&& out == #[trigger] ctx.declare(symbol, expr, layout, b, b_live)
                    &&& live_vars == b_live.union(expr_symbols(expr)).remove(symbol)
                };
            let next = w.with_let(symbol, layout, expr);
            let inner = scope.behind_let(symbol, layout, expr);
            lemma_agrees_let(w, scope, symbol, layout, expr);
            assert(joins_known(next.jp_live_vars, inner));
            lemma_totals_in(next, inner, *cont, b, b_live, x);
            assert(visitable(next, *cont));
            assert(visits(next, *cont, b, b_live));
            assert forall|y: Symbol| #[trigger] inner.knows(y) implies agrees_on(
                ctx,
                inner,
                y,
            ) by {
                lemma_tidy_keeps(next, inner.vars.dom(), params, *cont, y);
            }
            assert forall|y: Symbol| #[trigger] scope.knows(y) implies agrees_on(
                ctx,
                scope,
                y,
            ) by {
                lemma_tidy_keeps(w, vars, params, stmt, y);
            }
            if inner.knows(x) {
                lemma_used_kept(next, inner, *cont, b, b_live, x);
            }
            assert(!operands(expr).contains(symbol));
            assert(let_due(ctx, scope, symbol, expr, layout, b, b_live, x, joins));
            if let Expr::AccessAtIndex { structure, .. } = expr {
                assert(operands(expr)[0] == structure);
                assert(scope.knows(structure));
            }
            assert(inner.knows(symbol));
            lemma_let_totals(ctx, scope, symbol, expr, layout, b, b_live, x, joins);
        },
        StmtView::Invoke { .. } => {
            lemma_totals_invoke(w, scope, stmt, out, live_vars, x);
        },
        StmtView::Join { .. } => {
            lemma_totals_join(w, scope, stmt, out, live_vars, x);
        },
        StmtView::Ret(_) => {
            reveal_with_fuel(totals, 2);
            assert(scope.knows(x) ==> agrees_on(w, scope, x));
        },
        StmtView::Jump(id, xs) => {
            assert(xs.len() == xs@.len());
            let ps = w.join_params(id);
            let pred = ConsumePred::Params(ps);
            let f = |i: int| jump_fate(ps@, i);
            let more = incs(w, xs@, pred, w.join_live(id), x, xs@.len());
            if scope.knows(x) {
                assert(agrees_on(w, scope, x));
                lemma_incs_missing(w, scope, xs@, pred, f, w.join_live(id), x);
                assert(joins.contains(id) <==> w.join_live(id).contains(x));
                assert(totals(scope, stmt, x, -more, 0, 0, joins));
                lemma_inc_totals(
                    w,
                    xs@,
                    pred,
                    stmt,
                    w.join_live(id),
                    xs@.len(),
                    scope,
                    x,
                    -more,
                    joins,
                );
            } else {
                assert(totals(scope, stmt, x, 0, 0, 0, joins));
                lemma_inc_totals(
                    w,
                    xs@,
                    pred,
                    stmt,
                    w.join_live(id),
                    xs@.len(),
                    scope,
                    x,
                    0,
                    joins,
                );
                lemma_totals_unknown(scope, out, x, more, 0, 0, 0, 0, 0, joins);
            }
        },
        StmtView::Switch { branches, default_branch, .. } => {
            let bs = out->Switch_branches;
            let needed = used(out, x, joins, false);
            if scope.knows(x) {
                lemma_used_kept(w, scope, stmt, out, live_vars, x);
            }
            assert forall|i: int| 0 <= i < bs.len() implies totals(
                scope,
                (#[trigger] bs[i]).2,
                x,
                0,
                given_up_at_start(scope, x, needed, used(bs[i].2, x, joins, false)),
                0,
                joins,
            ) by {
                assert(visitable_alt(w, live_vars, branches[i].2));
                assert(tidy(vars, params, branches[i].2));
                lemma_totals_alt(
                    w,
                    scope,
                    live_vars,
                    branches[i].2,
                    bs[i].2,
                    x,
                    given_up_at_start(scope, x, needed, used(bs[i].2, x, joins, false)),
                );
            }
            let d = *out->Switch_default_branch.1;
            lemma_totals_alt(
                w,
                scope,
                live_vars,
                *default_branch.1,
                d,
                x,
                given_up_at_start(scope, x, needed, used(d, x, joins, false)),
            );
        },
        StmtView::Rethrow | StmtView::RuntimeError(_) | StmtView::Refcounting(_, _) => {},
    }
}

/// `let z = v` in front of a statement of which the totals are right.
proof fn lemma_let_totals<'a>(
    ctx: ContextView<'a>,
    scope: Scope<'a>,
    z: Symbol,
    v: Expr<'a>,
    l: Layout,
    b: StmtView<'a>,
    b_live: Set<Symbol>,
    x: Symbol,
    joins: Set<JoinPointId>,
)
    requires
        let_due(ctx, scope, z, v, l, b, b_live, x, joins),
        v matches Expr::AccessAtIndex { structure, .. } ==> agrees_on(ctx, scope, structure),
        agrees_on(ctx, scope.behind_let(z, l, v), z),
    ensures
        totals(scope, ctx.declare(z, v, l, b, b_live), x, 0, 0, 0, joins),
{
    match v {
        Expr::Reuse { arguments, .. } => {
            assert(arguments.len() == arguments@.len());
            lemma_consuming_totals(ctx, scope, z, v, l, arguments@, b, b_live, x, joins);
        },
        Expr::Tag { arguments, .. } => {
            assert(arguments.len() == arguments@.len());
            lemma_consuming_totals(ctx, scope, z, v, l, arguments@, b, b_live, x, joins);
        },
        Expr::Struct(arguments) => {
            assert(arguments.len() == arguments@.len());
            lemma_consuming_totals(ctx, scope, z, v, l, arguments@, b, b_live, x, joins);
        },
        Expr::Array { elems, .. } => {
            assert(elems.len() == elems@.len());
            lemma_consuming_totals(ctx, scope, z, v, l, elems@, b, b_live, x, joins);
        },
        Expr::AccessAtIndex { .. } => {
            lemma_access_totals(ctx, scope, z, v, l, b, b_live, x, joins);
        },
        Expr::Call(call) => {
            assert(call.arguments.len() == call.arguments@.len());
            if call.call_type is ByName {
                lemma_application_totals(ctx, scope, z, call, l, b, b_live, x, joins);
            } else {
                lemma_flagged_totals(ctx, scope, z, call, l, b, b_live, x, joins);
            }
        },
        Expr::EmptyArray
        | Expr::Literal(_)
        | Expr::Reset(_)
        | Expr::RuntimeErrorFunction(_) => {
            assert(handed(v) == Seq::<Symbol>::empty());
            if !scope.knows(x) && z != x {
                lemma_totals_unknown(
                    scope.behind_let(z, l, v),
                    b,
                    x,
                    0,
                    0,
                    0,
                    0,
                    given_up_behind(scope, v, x, used(b, x, joins, false)),
                    freed_behind(scope, v, x),
                    joins,
                );
            }
        },
    }
}

/// An `invoke`.
proof fn lemma_totals_invoke<'a>(
    w: ContextView<'a>,
    scope: Scope<'a>,
    stmt: StmtView<'a>,
    out: StmtView<'a>,
    live_vars: Set<Symbol>,
    x: Symbol,
)
    requires
        stmt is Invoke,
        agrees(w, scope),
        joins_known(w.jp_live_vars, scope),
        tidy(scope.vars.dom(), scope.params, stmt),
        visitable_in(w, stmt),
        visits_in(w, stmt, out, live_vars),
    ensures
        totals(scope, out, x, 0, 0, 0, joins_with(w.jp_live_vars, x)),
    decreases stmt, 0nat,
{
    let joins = joins_with(w.jp_live_vars, x);
    assert(visitable(w, stmt));
    assert(visits(w, stmt, out, live_vars));
    match stmt {
        StmtView::Invoke { symbol, call, layout, pass, fail } => {
            let next = w.with_invoke(symbol, layout, call);
            let inner = scope.behind_invoke(symbol, layout, call);
            let (pass_out, fail_out) = choose|pass_out: StmtView<'a>, fail_out: StmtView<'a>|
                {
                    &&& visits_alt(next, live_vars, *pass, pass_out)
                    &&& visits_alt(w, live_vars, *fail, fail_out)
                    &&& out == #[trigger] w.before_invoke(
                        call,
                        StmtView::Invoke {
                            symbol,
                            call,
                            layout,
                            pass: Box::new(pass_out),
                            fail: Box::new(fail_out),
                        },
                        live_vars,
                    )
                };
            let invoke = StmtView::Invoke {
                symbol,
                call,
                layout,
                pass: Box::new(pass_out),
                fail: Box::new(fail_out),
            };
            law_nothing_before_invoke(w, call, invoke, live_vars);
            lemma_agrees_invoke(w, scope, symbol, layout, call);
            assert(joins_known(next.jp_live_vars, inner));
            if scope.knows(x) {
                lemma_used_kept(w, scope, stmt, out, live_vars, x);
            }
            let needed = used(out, x, joins, false);
            let in_pass = used(pass_out, x, joins, false);
            let in_fail = used(fail_out, x, joins, false);
            let take: int = if symbol == x {
                0
            } else {
                given_up_at_start(scope, x, needed, in_pass)
            };
            if symbol == x {
                assert(!live_vars.contains(x)) by {
                    assert forall|j: JoinPointId| !#[trigger] joins.contains(j) by {
                        if joins.contains(j) {
                            assert(w.jp_live_vars[j].contains(x));
                        }
                    }
                    lemma_unknown_unused(
                        scope.vars.dom(),
                        scope.params,
                        stmt,
                        w.jp_live_vars,
                        joins,
                        x,
                    );
                }
            }
            lemma_totals_alt(next, inner, live_vars, *pass, pass_out, x, take);
            lemma_totals_alt(
                w,
                scope,
                live_vars,
                *fail,
                fail_out,
                x,
                given_up_at_start(scope, x, needed, in_fail),
            );
        },
        _ => {},
    }
}

/// What the pass knows in the body of a join point, and in what comes before it runs, is what the
/// program says there; and only variables in scope are live in the body.
pub proof fn lemma_join_scopes<'a>(
    w: ContextView<'a>,
    scope: Scope<'a>,
    stmt: StmtView<'a>,
    v: StmtView<'a>,
    v_live: Set<Symbol>,
)
    requires
        stmt is Join,
        agrees(w, scope),
        joins_known(w.jp_live_vars, scope),
        tidy(scope.vars.dom(), scope.params, stmt),
        ({
            let ps = w.join_params(stmt->Join_id)@;
            visits(w.with_params(ps), *stmt->Join_continuation, v, v_live)
        }),
        visitable(
            w.with_params(w.join_params(stmt->Join_id)@),
            *stmt->Join_continuation,
        ),
    ensures
        ({
            let id = stmt->Join_id;
            let ps = w.join_params(id)@;
            let next = w.with_params(ps);
            let inner = scope.behind_params(ps);
            let outer = w.with_join_body(id, ps, next.dec_for_dead_params(ps, v, v_live));
            &&& agrees(next, inner)
            &&& inner.vars.dom() == scope.vars.dom().union(
                Set::new(|x: Symbol| names_param(ps, x)),
            )
            &&& next.jp_live_vars == w.jp_live_vars
            &&& joins_known(next.jp_live_vars, inner)
            &&& agrees(outer, scope)
            &&& joins_known(outer.jp_live_vars, scope)
        }),
{
    let jps = w.jp_live_vars;
    match stmt {
        StmtView::Join { id, continuation, .. } => {
            let ps = w.join_params(id)@;
            let next = w.with_params(ps);
            let inner = scope.behind_params(ps);
            let v_out = next.dec_for_dead_params(ps, v, v_live);
            lemma_agrees_params(w, scope, ps);
            lemma_with_params_keeps(w, ps);
            lemma_tidy_plain(inner.vars.dom(), scope.params, *continuation);
            law_live_vars_are_kept(next, *continuation, v, v_live);
            assert(joins_known(jps, inner)) by {
                assert forall|j: JoinPointId, y: Symbol|
                    jps.contains_key(j) && #[trigger] jps[j].contains(y) implies inner.knows(
                    y,
                ) by {
                    assert(scope.knows(y));
                    assert(scope.vars.dom().contains(y));
                    assert(inner.vars.dom().contains(y));
                }
            }
            lemma_dec_for_dead_params(next, ps, v, v_live);
            lemma_live_behind(next, v_out, v, param_symbols(ps), jps);
            let body_live = live(v_out, jps).difference(param_symbols(ps));
            let outer = w.with_join_body(id, ps, v_out);
            assert forall|y: Symbol| param_symbols(ps).contains(y) == names_param(ps, y) by {}
            assert forall|y: Symbol| #[trigger] body_live.contains(y) implies scope.knows(y) by {
                if !scope.knows(y) {
                    assert(!inner.vars.dom().contains(y));
                    let none = Set::<JoinPointId>::empty();
                    assert forall|j: JoinPointId|
                        #![trigger jps[j]]
                        jps.contains_key(j) implies !jps[j].contains(y) by {}
                    lemma_unknown_unused(
                        inner.vars.dom(),
                        scope.params,
                        *continuation,
                        jps,
                        none,
                        y,
                    );
                }
            }
            assert(joins_known(outer.jp_live_vars, scope));
            assert(agrees(outer, scope)) by {
                assert forall|y: Symbol| #[trigger] scope.knows(y) implies {
                    &&& outer.counted(y) == scope.vars[y].counted
                    &&& outer.vars[y].consume == scope.vars[y].owned
                } by {}
            }
        },
        _ => {},
    }
}

/// A join point.
proof fn lemma_totals_join<'a>(
    w: ContextView<'a>,
    scope: Scope<'a>,
    stmt: StmtView<'a>,
    out: StmtView<'a>,
    live_vars: Set<Symbol>,
    x: Symbol,
)
    requires
        stmt is Join,
        agrees(w, scope),
        joins_known(w.jp_live_vars, scope),
        tidy(scope.vars.dom(), scope.params, stmt),
        visitable_in(w, stmt),
        visits_in(w, stmt, out, live_vars),
    ensures
        totals(scope, out, x, 0, 0, 0, joins_with(w.jp_live_vars, x)),
    decreases stmt, 0nat,
{
    let jps = w.jp_live_vars;
    let joins = joins_with(jps, x);
    let vars = scope.vars.dom();
    match stmt {
        StmtView::Join { id, parameters, continuation, remainder } => {
            let ps = w.join_params(id)@;
            let next = w.with_params(ps);
            let inner = scope.behind_params(ps);
            let v_out = *out->Join_continuation;
            let b = *out->Join_remainder;
            let (v, v_live) = choose|v: StmtView<'a>, v_live: Set<Symbol>|
                {
                    &&& visits(next, *continuation, v, v_live)
                    &&& v_out == #[trigger] next.dec_for_dead_params(ps, v, v_live)
                };
            lemma_agrees_params(w, scope, ps);
            lemma_with_params_keeps(w, ps);
            lemma_tidy_plain(inner.vars.dom(), scope.params, *continuation);
            law_live_vars_are_kept(next, *continuation, v, v_live);
            lemma_join_scopes(w, scope, stmt, v, v_live);
            law_totals(next, inner, *continuation, v, v_live, x);
            lemma_dec_for_dead_params(next, ps, v, v_live);
            lemma_live_behind(next, v_out, v, param_symbols(ps), jps);
            lemma_used_behind(next, v_out, v, param_symbols(ps), x, joins);
            let body_live = live(v_out, jps).difference(param_symbols(ps));
            let outer = w.with_join_body(id, ps, v_out);
            assert forall|y: Symbol| param_symbols(ps).contains(y) == names_param(ps, y) by {}
            law_totals(outer, scope, *remainder, b, live_vars, x);
            // the parameters
            let in_body = used(v_out, x, joins, false);
            let dead: int = if next.counted(x) && exists|i: int|
                0 <= i < ps.len() && (#[trigger] ps[i]).symbol == x && next.is_dead_param(
                    ps[i],
                    v_live,
                ) {
                1
            } else {
                0
            };
            lemma_dec_params_totals(next, ps, v, v_live, inner, x, joins);
            if inner.knows(x) {
                lemma_used_kept(next, inner, *continuation, v, v_live, x);
                lemma_param_standing(scope, ps, x);
                assert(dead == given_up_on_entry(inner, ps, x, in_body));
            } else {
                lemma_totals_unknown(
                    inner,
                    v_out,
                    x,
                    0,
                    dead,
                    0,
                    0,
                    given_up_on_entry(inner, ps, x, in_body),
                    0,
                    joins,
                );
            }
            // the join points that need `x`
            let uses = !names_param(ps, x) && in_body;
            assert(body_live.contains(x) == uses) by {
                if inner.knows(x) {
                    lemma_used_kept(next, inner, *continuation, v, v_live, x);
                } else {
                    assert forall|j: JoinPointId| !#[trigger] joins.contains(j) by {
                        if joins.contains(j) {
                            assert(jps[j].contains(x));
                            assert(scope.knows(x));
                            assert(scope.vars.dom().contains(x));
                            assert(inner.vars.dom().contains(x));
                        }
                    }
                    lemma_unknown_unused(
                        inner.vars.dom(),
                        scope.params,
                        *continuation,
                        jps,
                        joins,
                        x,
                    );
                    lemma_tidy_bare(inner.vars.dom(), scope.params, *continuation);
                    law_same_program(next, *continuation, v, v_live);
                    lemma_like_used(
                        inner.vars.dom(),
                        scope.params,
                        *continuation,
                        v,
                        x,
                        joins,
                    );
                }
            }
            assert(joins_with(outer.jp_live_vars, x) =~= joins_behind(joins, id, uses));
        },
        _ => {},
    }
}

/// How a parameter stands inside.
pub proof fn lemma_param_standing<'a>(scope: Scope<'a>, ps: Seq<Param>, x: Symbol)
    requires
        distinct_params(ps),
    ensures
        forall|i: int|
            0 <= i < ps.len() && (#[trigger] ps[i]).symbol == x ==> {
                &&& scope.behind_params(ps).knows(x)
                &&& scope.behind_params(ps).vars[x].counted == ps[i].layout.holds_refcounted
                &&& scope.behind_params(ps).vars[x].owned == !ps[i].borrow
            },
        !names_param(ps, x) ==> {
            &&& scope.behind_params(ps).knows(x) == scope.knows(x)
            &&& scope.behind_params(ps).vars[x] == scope.vars[x]
        },
    decreases ps.len(),
{
    if ps.len() > 0 {
        let init = ps.drop_last();
        assert forall|i: int, j: int| 0 <= i < j < init.len() implies (#[trigger] init[i]).symbol
            != (#[trigger] init[j]).symbol by {
            assert(ps[i].symbol != ps[j].symbol);
        }
        lemma_param_standing(scope, init, x);
        assert(ps[ps.len() - 1] == ps.last());
        assert forall|i: int| 0 <= i < ps.len() && (#[trigger] ps[i]).symbol == x implies {
            &&& scope.behind_params(ps).knows(x)
            &&& scope.behind_params(ps).vars[x].counted == ps[i].layout.holds_refcounted
            &&& scope.behind_params(ps).vars[x].owned == !ps[i].borrow
        } by {
            if i < ps.len() - 1 {
                assert(init[i].symbol == x);
                assert(ps[i].symbol != ps[ps.len() - 1].symbol);
            }
        }
        if !names_param(ps, x) {
            if names_param(init, x) {
                let i = choose|i: int| 0 <= i < init.len() && (#[trigger] init[i]).symbol == x;
                assert(ps[i].symbol == x);
            }
        }
    }
}

/// `ps` are the parameters of a procedure of the given layout: those that the program has for it,
/// or one owned parameter for each argument if it has none.
pub open spec fn are_params_of(
    params: Map<Key, &[Param]>,
    proc: Proc,
    layout: Layout,
    ps: Seq<Param>,
) -> bool {
    if params.contains_key(Key::Declaration(proc.name, layout)) {
        ps == params[Key::Declaration(proc.name, layout)]@
    } else {
        &&& ps.len() == proc.args@.len()
        &&& forall|i: int|
            0 <= i < ps.len() ==> {
                &&& (#[trigger] ps[i]).symbol == proc.args@[i].1
                &&& ps[i].layout == proc.args@[i].0
                &&& !ps[i].borrow
            }
    }
}

/// The pass works on the parameters of the procedure.
pub proof fn lemma_proc_params<'a>(
    params: Map<Key, &'a [Param]>,
    proc: Proc<'a>,
    layout: Layout,
    ps: Seq<Param>,
)
    requires
        are_params_of(params, proc, layout, ps),
    ensures
        proc_params(params, proc, layout) == ps,
{
    assert(proc_params(params, proc, layout) =~= ps);
}

/// The instructions that the pass inserts into a procedure add to, take from and free each
/// variable exactly as often as the program asks for, at every point. In front of the body each
/// owned parameter that is counted and not needed is given up once, and no other variable is.
pub proof fn law_totals_in_proc<'a>(
    params: Map<Key, &'a [Param]>,
    proc: Proc<'a>,
    layout: Layout,
    ps: Seq<Param>,
    out: StmtView<'a>,
    x: Symbol,
)
    requires
        are_params_of(params, proc, layout, ps),
        distinct_params(ps),
        tidy(Scope::at_start(params).behind_params(ps).vars.dom(), params, proc.body@),
        visitable(
            initial_context(params).with_params(proc_params(params, proc, layout)),
            proc.body@,
        ),
        visits_proc(
            initial_context(params),
            proc_params(params, proc, layout),
            proc.body@,
            out,
        ),
    ensures
        ({
            let scope = Scope::at_start(params).behind_params(ps);
            let needed = used(out, x, Set::empty(), false);
            totals(
                scope,
                out,
                x,
                0,
                given_up_on_entry(scope, ps, x, needed),
                0,
                Set::empty(),
            )
        }),
{
    lemma_proc_params(params, proc, layout, ps);
    let body = proc.body@;
    let start = Scope::at_start(params);
    let scope = start.behind_params(ps);
    let ctx = initial_context(params).with_params(ps);
    let joins = joins_with(ctx.jp_live_vars, x);
    lemma_agrees_start(params);
    lemma_agrees_params(initial_context(params), start, ps);
    lemma_with_params_keeps(initial_context(params), ps);
    assert(joins =~= Set::empty());
    let (b, b_live) = choose|b: StmtView<'a>, b_live: Set<Symbol>|
        {
            &&& visits(ctx, body, b, b_live)
            &&& out == #[trigger] ctx.dec_for_dead_params(ps, b, b_live)
        };
    law_totals(ctx, scope, body, b, b_live, x);
    lemma_dec_params_totals(ctx, ps, b, b_live, scope, x, joins);
    lemma_dec_for_dead_params(ctx, ps, b, b_live);
    lemma_used_behind(ctx, out, b, param_symbols(ps), x, joins);
    let dead: int = if ctx.counted(x) && exists|i: int|
        0 <= i < ps.len() && (#[trigger] ps[i]).symbol == x && ctx.is_dead_param(ps[i], b_live) {
        1
    } else {
        0
    };
    let due = given_up_on_entry(scope, ps, x, used(out, x, Set::empty(), false));
    if scope.knows(x) {
        lemma_used_kept(ctx, scope, body, b, b_live, x);
        lemma_param_standing(start, ps, x);
        assert(dead == due);
    } else {
        lemma_totals_unknown(scope, out, x, 0, dead, 0, 0, due, 0, joins);
    }
}

} // verus!
