//! Every reference that a procedure is handed or gains is given up exactly once, where what is
//! handed, gained and taken is read off layouts and borrow flags.
use vstd::prelude::*;

use crate::borrow::{Key, OWNED};
use crate::erasure::lemma_with_params_keeps;
use crate::insertion::{
    consumptions, flagged, initial_context, is_borrowed, is_first, proc_params, visitable, visits,
    visits_proc, ConsumePred, ContextView,
};
use crate::ir::{Call, CallType, Expr, JoinPointId, Layout, ModifyRc, Param, Proc, StmtView, Symbol};
use crate::liveness::live;
use crate::occurrence::param_symbols;
use crate::ownership::{
    aborts, balanced, call_borrows, call_takes, expr_borrows, expr_takes, flags_fit, held,
    is_one_param, owned_positions, owns, regular, signature, tracked_in,
};
use crate::ownership_laws::{law_references_balanced, law_references_balanced_in_proc};
use crate::scope::{
    distinct_params, fates, fates_upto, flag_count, jump_fate, jump_fates, names_param,
    operand_fate, operands, tidy, Fate, Scope,
};
use crate::totals::{
    agrees, are_params_of, joins_known, lemma_agrees_invoke, lemma_agrees_let, lemma_agrees_params,
    lemma_agrees_start, lemma_consumptions_taken, lemma_fates_by_flags, lemma_fates_positive,
    lemma_param_standing, lemma_proc_params, lemma_signature_fates, lemma_tidy_keeps,
    lemma_tidy_plain, lemma_unknown_unused, lemma_used_kept,
};
use crate::usage::{joins_behind, joins_with, lemma_live_used, used};

verus! {

/// How many references to `x` an expression takes from the procedure.
pub open spec fn takes<'a>(scope: Scope<'a>, expr: Expr<'a>, x: Symbol) -> nat {
    fates(scope.params, expr, x, Fate::Taken)
}

/// Must `x` still be there when an expression has been worked out? It must where it was lent, and
/// where it is a container that was emptied.
pub open spec fn keeps<'a>(scope: Scope<'a>, expr: Expr<'a>, x: Symbol) -> bool {
    fates(scope.params, expr, x, Fate::Lent) + fates(scope.params, expr, x, Fate::Emptied) > 0
}

/// Does a procedure that holds `n` references to `x` hold enough for an expression?
pub open spec fn enough<'a>(scope: Scope<'a>, expr: Expr<'a>, x: Symbol, n: int) -> bool {
    scope.counts(x) ==> n >= takes(scope, expr, x) + if keeps(scope, expr, x) && scope.owns(x) {
        1int
    } else {
        0int
    }
}

/// The references to `x` that are left behind an expression.
pub open spec fn rest<'a>(scope: Scope<'a>, expr: Expr<'a>, x: Symbol, n: int) -> int {
    if scope.counts(x) {
        n - takes(scope, expr, x)
    } else {
        0
    }
}

/// A procedure that holds `n` references to `x` and runs `stmt` gives up every reference to `x`
/// exactly once, whichever way it leaves, and never uses `x` when it holds none, unless `x` is on
/// loan. A reference that it gains by binding `x` counts as well.
///
/// `entry` says how many references to `x` each join point in scope finds, its arguments aside. A
/// procedure that stops with a run-time error need not give up anything.
pub open spec fn settled<'a>(
    scope: Scope<'a>,
    stmt: StmtView<'a>,
    x: Symbol,
    n: int,
    entry: Map<JoinPointId, int>,
) -> bool
    decreases stmt,
{
    match stmt {
        StmtView::Let(symbol, expr, layout, cont) => {
            let inner = scope.behind_let(symbol, layout, expr);
            let m = rest(scope, expr, x, n);
            &&& enough(scope, expr, x, n)
            &&& if symbol != x {
                settled(inner, *cont, x, m, entry)
            } else {
                &&& m == 0 || aborts(*cont)
                &&& if !inner.counts(x) {
                    settled(inner, *cont, x, 0, entry)
                } else if !(expr is AccessAtIndex) {
                    settled(inner, *cont, x, 1, entry)
                } else if !inner.owns(x) {
                    settled(inner, *cont, x, 0, entry)
                } else {
                    // The structure keeps its part alive until the part has a reference of its
                    // own.
                    match *cont {
                        StmtView::Refcounting(ModifyRc::Inc(y, k), behind) => {
                            &&& y == x
                            &&& settled(inner, *behind, x, k as int, entry)
                        },
                        _ => false,
                    }
                }
            }
        },
        StmtView::Invoke { symbol, call, layout, pass, fail } => {
            let inner = scope.behind_invoke(symbol, layout, call);
            let m = rest(scope, Expr::Call(call), x, n);
            &&& enough(scope, Expr::Call(call), x, n)
            &&& if symbol != x {
                settled(inner, *pass, x, m, entry)
            } else {
                &&& m == 0 || aborts(*pass)
                &&& settled(
                    inner,
                    *pass,
                    x,
                    if inner.counts(x) {
                        1
                    } else {
                        0
                    },
                    entry,
                )
            }
            &&& settled(scope, *fail, x, m, entry)
        },
        StmtView::Switch { cond_symbol, branches, default_branch, .. } => {
            &&& cond_symbol == x && scope.owns(x) ==> n >= 1
            &&& forall|i: int|
                0 <= i < branches.len() ==> settled(scope, (#[trigger] branches[i]).2, x, n, entry)
            &&& settled(scope, *default_branch.1, x, n, entry)
        },
        StmtView::Refcounting(ModifyRc::Inc(y, k), cont) => if y != x || !scope.counts(x) {
            settled(scope, *cont, x, n, entry)
        } else {
            &&& scope.owns(x) ==> n >= 1
            &&& settled(scope, *cont, x, n + k, entry)
        },
        StmtView::Refcounting(ModifyRc::Dec(y), cont) => if y != x || !scope.counts(x) {
            settled(scope, *cont, x, n, entry)
        } else {
            &&& n >= 1
            &&& settled(scope, *cont, x, n - 1, entry)
        },
        StmtView::Refcounting(ModifyRc::DecRef(y), cont) => if y != x || !scope.counts(x) {
            settled(scope, *cont, x, n, entry)
        } else {
            &&& n >= 1
            &&& settled(scope, *cont, x, n - 1, entry)
        },
        StmtView::Join { id, parameters, continuation, remainder } => {
            let inner = scope.behind_params(parameters@);
            ||| {
                &&& settled(
                    inner,
                    *continuation,
                    x,
                    found(scope, parameters@, x, 0),
                    entry.insert(id, 0),
                )
                &&& settled(scope, *remainder, x, n, entry.insert(id, 0))
            }
            ||| {
                &&& settled(
                    inner,
                    *continuation,
                    x,
                    found(scope, parameters@, x, 1),
                    entry.insert(id, 1),
                )
                &&& settled(scope, *remainder, x, n, entry.insert(id, 1))
            }
        },
        StmtView::Jump(id, arguments) => {
            let ps = scope.params[Key::JoinPoint(id)]@;
            scope.counts(x) ==> {
                &&& entry.contains_key(id)
                &&& n - jump_fates(ps, arguments@, x, Fate::Taken) == entry[id]
                &&& jump_fates(ps, arguments@, x, Fate::Lent) > 0 && scope.owns(x) ==> entry[id]
                    >= 1
            }
        },
        StmtView::Ret(symbol) => scope.counts(x) ==> n == if symbol == x {
            1int
        } else {
            0int
        },
        StmtView::Rethrow => scope.counts(x) ==> n == 0,
        StmtView::RuntimeError(_) => true,
    }
}

/// The references to `x` that the body of a join point with the parameters `ps` finds, where `m`
/// are held besides the arguments: one if `x` is an owned parameter.
pub open spec fn found<'a>(scope: Scope<'a>, ps: Seq<Param>, x: Symbol, m: int) -> int {
    if !names_param(ps, x) {
        m
    } else if scope.behind_params(ps).owns(x) {
        1
    } else {
        0
    }
}

/// The references to `x` that are held where `needed` says whether `x` is needed.
pub open spec fn holds(scope: Scope, x: Symbol, needed: bool) -> int {
    if scope.owns(x) && needed {
        1
    } else {
        0
    }
}

/// A built-in or foreign call takes the counted variable `x` in a way that can be accounted for
/// without an increment in front of it: either `x` is not taken, and if it is not needed any more
/// then its first position has a borrow flag, unless what follows aborts; or `x` is owned, passed
/// once, taken, and not needed any more.
pub open spec fn call_fits<'a>(
    scope: Scope<'a>,
    call: Call<'a>,
    x: Symbol,
    needed: bool,
    aborts: bool,
) -> bool {
    let xs = call.arguments@;
    let v = Expr::Call(call);
    let taken = fates(scope.params, v, x, Fate::Taken) + fates(scope.params, v, x, Fate::Emptied);
    if taken == 0 {
        scope.owns(x) && !needed && !aborts ==> forall|i: int|
            0 <= i < xs.len() && #[trigger] xs[i] == x && (forall|j: int|
                0 <= j < i ==> xs[j] != x) ==> i < flag_count(call)
    } else {
        &&& scope.owns(x)
        &&& !needed
        &&& taken == 1
        &&& forall|i: int, j: int|
            0 <= i < j < xs.len() && #[trigger] xs[i] == x ==> #[trigger] xs[j] != x
    }
}

/// The references to `x` in a tidy statement can be accounted for. This asks:
///
/// - a binding of `x` is used, unless `x` is on loan or not counted, or what follows aborts;
/// - a built-in or foreign call, a `reset` or a `reuse` takes `x` in a way that fits;
/// - an `invoke` does not take `x`;
/// - a jump leads to a join point in scope; a body that jumps to itself keeps no reference to `x`;
/// - an argument that a join point borrows is needed in its body, unless it is on loan.
pub open spec fn orderly<'a>(
    scope: Scope<'a>,
    stmt: StmtView<'a>,
    x: Symbol,
    entry: Map<JoinPointId, int>,
    joins: Set<JoinPointId>,
) -> bool
    decreases stmt,
{
    match stmt {
        StmtView::Let(symbol, expr, layout, cont) => {
            let inner = scope.behind_let(symbol, layout, expr);
            let needed = used(*cont, x, joins, false);
            &&& scope.counts(x) ==> match expr {
                Expr::Reuse { symbol: token, arguments, .. } => token == x ==> scope.owns(x)
                    && !arguments@.contains(x) && !needed,
                Expr::Reset(token) => token == x ==> scope.owns(x) && !needed,
                Expr::Call(call) => call.call_type is ByName || call_fits(
                    scope,
                    call,
                    x,
                    needed,
                    aborts(*cont),
                ),
                _ => true,
            }
            &&& symbol == x && inner.owns(x) ==> needed || aborts(*cont)
            &&& orderly(inner, *cont, x, entry, joins)
        },
        StmtView::Invoke { symbol, call, layout, pass, fail } => {
            let inner = scope.behind_invoke(symbol, layout, call);
            &&& scope.counts(x) ==> takes(scope, Expr::Call(call), x) == 0
            &&& symbol == x && inner.counts(x) ==> used(*pass, x, joins, false) || aborts(*pass)
            &&& orderly(inner, *pass, x, entry, joins)
            &&& orderly(scope, *fail, x, entry, joins)
        },
        StmtView::Switch { branches, default_branch, .. } => {
            &&& forall|i: int|
                0 <= i < branches.len() ==> orderly(
                    scope,
                    (#[trigger] branches[i]).2,
                    x,
                    entry,
                    joins,
                )
            &&& orderly(scope, *default_branch.1, x, entry, joins)
        },
        StmtView::Join { id, continuation, remainder, .. } => {
            let ps = scope.params[Key::JoinPoint(id)]@;
            let uses = !names_param(ps, x) && used(*continuation, x, joins, false);
            let inner_entry = entry.insert(id, holds(scope, x, uses));
            &&& orderly(scope.behind_params(ps), *continuation, x, inner_entry, joins)
            &&& orderly(scope, *remainder, x, inner_entry, joins_behind(joins, id, uses))
        },
        StmtView::Jump(id, arguments) => {
            let ps = scope.params[Key::JoinPoint(id)]@;
            scope.counts(x) ==> {
                &&& entry.contains_key(id)
                &&& entry[id] == holds(scope, x, joins.contains(id))
                &&& scope.owns(x) && jump_fates(ps, arguments@, x, Fate::Lent) > 0
                    ==> joins.contains(id)
            }
        },
        StmtView::Refcounting(_, cont) => orderly(scope, *cont, x, entry, joins),
        StmtView::Ret(_) | StmtView::Rethrow | StmtView::RuntimeError(_) => true,
    }
}

/// Contexts that agree say the same of a variable.
proof fn lemma_same_standing<'a>(ctx: ContextView<'a>, scope: Scope<'a>, x: Symbol)
    requires
        agrees(ctx, scope),
    ensures
        tracked_in(ctx, x) == scope.counts(x),
        owns(ctx, x) == scope.owns(x),
        ctx.knows(x) == scope.knows(x),
{
    assert(scope.knows(x) == ctx.knows(x));
}

/// What is taken and what is kept, for arguments that go to parameters.
proof fn lemma_params_fates(
    x: Symbol,
    xs: Seq<Symbol>,
    ps: &[Param],
    f: spec_fn(int) -> Fate,
)
    requires
        forall|i: int| (#[trigger] f(i)) == jump_fate(ps@, i),
    ensures
        consumptions(x, xs, ConsumePred::Params(ps)) == fates_upto(
            xs,
            f,
            x,
            Fate::Taken,
            xs.len(),
        ),
        is_borrowed(x, xs, ConsumePred::Params(ps)) <==> fates_upto(
            xs,
            f,
            x,
            Fate::Lent,
            xs.len(),
        ) > 0,
        fates_upto(xs, f, x, Fate::Emptied, xs.len()) == 0,
{
    let n = xs.len();
    let pred = ConsumePred::Params(ps);
    lemma_consumptions_taken(x, xs, pred, f, n);
    lemma_fates_positive(xs, f, x, Fate::Lent, n);
    lemma_fates_positive(xs, f, x, Fate::Emptied, n);
    if is_borrowed(x, xs, pred) {
        let i = choose|i: int| 0 <= i < xs.len() && #[trigger] xs[i] == x && !pred.consumes(i);
        assert(f(i) is Lent);
    }
    if fates_upto(xs, f, x, Fate::Lent, n) > 0 {
        let i = choose|i: int| 0 <= i < n && #[trigger] xs[i] == x && f(i) == Fate::Lent;
        assert(!pred.consumes(i));
    }
}

/// What becomes of the arguments of a call, by the flags that the pass goes by.
proof fn lemma_call_fates<'a>(ctx: ContextView<'a>, scope: Scope<'a>, call: Call<'a>, x: Symbol)
    requires
        ctx.param_map == scope.params,
    ensures
        call_takes(ctx, call, x) == takes(scope, Expr::Call(call), x),
        call_borrows(ctx, call, x) == keeps(scope, Expr::Call(call), x),
{
    let xs = call.arguments@;
    let v = Expr::Call(call);
    let f = |i: int| operand_fate(scope.params, v, i);
    lemma_fates_positive(xs, f, x, Fate::Lent, xs.len());
    lemma_fates_positive(xs, f, x, Fate::Emptied, xs.len());
    match call.call_type {
        CallType::ByName { name, full_layout, .. } => {
            lemma_params_fates(x, xs, ctx.param_map[Key::Declaration(name, full_layout)], f);
        },
        _ => {
            let (flags, containers) = signature(ctx, call)->0;
            let hi = flagged(xs, flags);
            lemma_signature_fates(ctx, call, 0);
            assert forall|i: int| 0 <= i < xs.len() implies ((#[trigger] f(i)) == Fate::Taken
                <==> containers <= i < hi && flags[i] == OWNED) by {
                lemma_signature_fates(ctx, call, i);
            }
            lemma_fates_by_flags(x, xs, flags, f, Fate::Taken, containers, hi, xs.len());
            if call_borrows(ctx, call, x) {
                let i = choose|i: int|
                    0 <= i < xs.len() && #[trigger] xs[i] == x && !(containers <= i < hi
                        && flags[i] == OWNED);
                assert(!(f(i) is Taken));
                assert(f(i) is Lent || f(i) is Emptied);
            }
            if keeps(scope, v, x) {
                let i = choose|i: int|
                    0 <= i < xs.len() && #[trigger] xs[i] == x && (f(i) == Fate::Lent || f(i)
                        == Fate::Emptied);
                assert(!(f(i) is Taken));
            }
        },
    }
}

/// Positions that are all taken are counted as consumed.
proof fn lemma_all_taken(x: Symbol, xs: Seq<Symbol>, f: spec_fn(int) -> Fate)
    requires
        forall|i: int| (#[trigger] f(i)) is Taken,
    ensures
        consumptions(x, xs, ConsumePred::All) == fates_upto(xs, f, x, Fate::Taken, xs.len()),
        fates_upto(xs, f, x, Fate::Lent, xs.len()) == 0,
        fates_upto(xs, f, x, Fate::Emptied, xs.len()) == 0,
{
    lemma_consumptions_taken(x, xs, ConsumePred::All, f, xs.len());
    lemma_fates_positive(xs, f, x, Fate::Lent, xs.len());
    lemma_fates_positive(xs, f, x, Fate::Emptied, xs.len());
}

/// A longer list of operands has the same fates at the same positions.
proof fn lemma_fates_prefix(
    xs: Seq<Symbol>,
    y: Symbol,
    f: spec_fn(int) -> Fate,
    x: Symbol,
    fate: Fate,
    n: nat,
)
    requires
        n <= xs.len(),
    ensures
        fates_upto(xs.push(y), f, x, fate, n) == fates_upto(xs, f, x, fate, n),
    decreases n,
{
    if n > 0 {
        lemma_fates_prefix(xs, y, f, x, fate, (n - 1) as nat);
    }
}

/// What becomes of the operands of an expression, by what the pass goes by.
proof fn lemma_expr_fates<'a>(ctx: ContextView<'a>, scope: Scope<'a>, expr: Expr<'a>, x: Symbol)
    requires
        ctx.param_map == scope.params,
    ensures
        expr_takes(ctx, expr, x) == takes(scope, expr, x),
        expr_borrows(ctx, expr, x) == keeps(scope, expr, x),
{
    let f = |i: int| operand_fate(scope.params, expr, i);
    match expr {
        Expr::Tag { arguments, .. } => {
            lemma_all_taken(x, arguments@, f);
        },
        Expr::Struct(arguments) => {
            lemma_all_taken(x, arguments@, f);
        },
        Expr::Array { elems, .. } => {
            lemma_all_taken(x, elems@, f);
        },
        Expr::Reuse { symbol, arguments, .. } => {
            let xs = arguments@;
            let n = xs.len();
            lemma_all_taken(x, xs, f);
            lemma_all_taken(x, xs.push(symbol), f);
            lemma_fates_prefix(xs, symbol, f, x, Fate::Taken, n);
            assert(xs.push(symbol)[n as int] == symbol);
            assert(xs.push(symbol).len() == n + 1);
        },
        Expr::Reset(symbol) => {
            reveal_with_fuel(fates_upto, 3);
            assert(operands(expr)[0] == symbol);
        },
        Expr::AccessAtIndex { structure, .. } => {
            reveal_with_fuel(fates_upto, 3);
            assert(operands(expr)[0] == structure);
        },
        Expr::Call(call) => {
            lemma_call_fates(ctx, scope, call, x);
        },
        Expr::EmptyArray | Expr::Literal(_) | Expr::RuntimeErrorFunction(_) => {
            reveal_with_fuel(fates_upto, 2);
        },
    }
}

/// What is balanced for the pass is settled.
proof fn lemma_settled<'a>(
    ctx: ContextView<'a>,
    scope: Scope<'a>,
    stmt: StmtView<'a>,
    x: Symbol,
    n: int,
    entry: Map<JoinPointId, int>,
)
    requires
        agrees(ctx, scope),
        balanced(ctx, stmt, x, n, entry),
    ensures
        settled(scope, stmt, x, n, entry),
    decreases stmt,
{
    lemma_same_standing(ctx, scope, x);
    match stmt {
        StmtView::Let(symbol, expr, layout, cont) => {
            let next = ctx.with_let(symbol, layout, expr);
            let inner = scope.behind_let(symbol, layout, expr);
            lemma_agrees_let(ctx, scope, symbol, layout, expr);
            lemma_same_standing(next, inner, x);
            lemma_expr_fates(ctx, scope, expr, x);
            if symbol != x {
                lemma_settled(next, inner, *cont, x, rest(scope, expr, x, n), entry);
            } else if !inner.counts(x) {
                lemma_settled(next, inner, *cont, x, 0, entry);
            } else if !(expr is AccessAtIndex) {
                lemma_settled(next, inner, *cont, x, 1, entry);
            } else if !inner.owns(x) {
                lemma_settled(next, inner, *cont, x, 0, entry);
            } else {
                match *cont {
                    StmtView::Refcounting(ModifyRc::Inc(_, k), behind) => {
                        lemma_settled(next, inner, *behind, x, k as int, entry);
                    },
                    _ => {},
                }
            }
        },
        StmtView::Invoke { symbol, call, layout, pass, fail } => {
            let next = ctx.with_invoke(symbol, layout, call);
            let inner = scope.behind_invoke(symbol, layout, call);
            lemma_agrees_invoke(ctx, scope, symbol, layout, call);
            lemma_same_standing(next, inner, x);
            lemma_call_fates(ctx, scope, call, x);
            let m = rest(scope, Expr::Call(call), x, n);
            let n_pass = if symbol != x {
                m
            } else if inner.counts(x) {
                1
            } else {
                0
            };
            lemma_settled(next, inner, *pass, x, n_pass, entry);
            lemma_settled(ctx, scope, *fail, x, m, entry);
        },
        StmtView::Switch { branches, default_branch, .. } => {
            assert forall|i: int| 0 <= i < branches.len() implies settled(
                scope,
                (#[trigger] branches[i]).2,
                x,
                n,
                entry,
            ) by {
                lemma_settled(ctx, scope, branches[i].2, x, n, entry);
            }
            lemma_settled(ctx, scope, *default_branch.1, x, n, entry);
        },
        StmtView::Refcounting(modify, cont) => {
            let m = if modify.symbol() != x || !scope.counts(x) {
                n
            } else {
                match modify {
                    ModifyRc::Inc(_, k) => n + k,
                    _ => n - 1,
                }
            };
            lemma_settled(ctx, scope, *cont, x, m, entry);
        },
        StmtView::Join { id, parameters, continuation, remainder } => {
            let ps = parameters@;
            let next = ctx.with_params(ps);
            let inner = scope.behind_params(ps);
            lemma_agrees_params(ctx, scope, ps);
            lemma_same_standing(next, inner, x);
            assert(param_symbols(ps).contains(x) <==> names_param(ps, x));
            let without = entry.insert(id, 0);
            let with = entry.insert(id, 1);
            let start0 = found(scope, ps, x, 0);
            let start1 = found(scope, ps, x, 1);
            if balanced(next, *continuation, x, start0, without) && balanced(
                ctx,
                *remainder,
                x,
                n,
                without,
            ) {
                lemma_settled(next, inner, *continuation, x, start0, without);
                lemma_settled(ctx, scope, *remainder, x, n, without);
            } else {
                lemma_settled(next, inner, *continuation, x, start1, with);
                lemma_settled(ctx, scope, *remainder, x, n, with);
            }
        },
        StmtView::Jump(id, arguments) => {
            let ps = ctx.join_params(id);
            lemma_params_fates(x, arguments@, ps, |i: int| jump_fate(ps@, i));
        },
        _ => {},
    }
}

/// What is taken or emptied, counted by the flags.
proof fn lemma_all_owned(
    x: Symbol,
    xs: Seq<Symbol>,
    flags: Seq<bool>,
    f: spec_fn(int) -> Fate,
    hi: nat,
    n: nat,
)
    requires
        forall|i: int|
            0 <= i < n ==> (!((#[trigger] f(i)) is Lent) <==> i < hi && flags[i] == OWNED),
    ensures
        fates_upto(xs, f, x, Fate::Taken, n) + fates_upto(xs, f, x, Fate::Emptied, n)
            == owned_positions(
            x,
            xs,
            flags,
            0,
            if n < hi {
                n
            } else {
                hi
            },
        ),
    decreases n,
{
    if n > 0 {
        lemma_all_owned(x, xs, flags, f, hi, (n - 1) as nat);
        assert(!(f(n - 1) is Lent) <==> n - 1 < hi && flags[n - 1] == OWNED);
    }
}

/// A call that fits, fits by the flags that the pass goes by.
proof fn lemma_call_fits<'a>(
    ctx: ContextView<'a>,
    scope: Scope<'a>,
    call: Call<'a>,
    x: Symbol,
    live_after: Set<Symbol>,
    aborts: bool,
)
    requires
        agrees(ctx, scope),
        !(call.call_type is ByName),
        call_fits(scope, call, x, live_after.contains(x), aborts),
    ensures
        flags_fit(
            owns(ctx, x),
            x,
            call.arguments@,
            (signature(ctx, call)->0).0,
            live_after,
            aborts,
        ),
{
    let xs = call.arguments@;
    let v = Expr::Call(call);
    let f = |i: int| operand_fate(scope.params, v, i);
    let (flags, containers) = signature(ctx, call)->0;
    let hi = flagged(xs, flags);
    lemma_same_standing(ctx, scope, x);
    lemma_signature_fates(ctx, call, 0);
    assert forall|i: int| 0 <= i < xs.len() implies (!((#[trigger] f(i)) is Lent) <==> i < hi
        && flags[i] == OWNED) by {
        lemma_signature_fates(ctx, call, i);
    }
    lemma_all_owned(x, xs, flags, f, hi, xs.len());
    assert forall|i: int| 0 <= i < xs.len() implies (is_first(xs, i) <==> forall|j: int|
        0 <= j < i ==> xs[j] != #[trigger] xs[i]) by {}
}

/// What is orderly is regular for the pass.
proof fn lemma_regular<'a>(
    ctx: ContextView<'a>,
    scope: Scope<'a>,
    stmt: StmtView<'a>,
    x: Symbol,
    entry: Map<JoinPointId, int>,
)
    requires
        agrees(ctx, scope),
        joins_known(ctx.jp_live_vars, scope),
        tidy(scope.vars.dom(), scope.params, stmt),
        orderly(scope, stmt, x, entry, joins_with(ctx.jp_live_vars, x)),
    ensures
        regular(ctx, stmt, x, entry),
    decreases stmt,
{
    let jps = ctx.jp_live_vars;
    let joins = joins_with(jps, x);
    let vars = scope.vars.dom();
    let params = scope.params;
    lemma_same_standing(ctx, scope, x);
    match stmt {
        StmtView::Let(symbol, expr, layout, cont) => {
            let next = ctx.with_let(symbol, layout, expr);
            let inner = scope.behind_let(symbol, layout, expr);
            lemma_agrees_let(ctx, scope, symbol, layout, expr);
            lemma_same_standing(next, inner, x);
            assert(joins_known(jps, inner));
            lemma_regular(next, inner, *cont, x, entry);
            let live_after = live(*cont, jps);
            if inner.knows(x) {
                lemma_live_used(inner.vars.dom(), params, *cont, jps, x);
            }
            if scope.counts(x) {
                if let Expr::Call(call) = expr {
                    if !(call.call_type is ByName) {
                        lemma_call_fits(ctx, scope, call, x, live_after, aborts(*cont));
                    }
                }
            }
            if let Expr::AccessAtIndex { structure, .. } = expr {
                assert(operands(expr)[0] == structure);
                assert(vars.contains(structure));
                assert(scope.knows(structure) == ctx.knows(structure));
                lemma_tidy_keeps(ctx, vars, params, stmt, structure);
            }
        },
        StmtView::Invoke { symbol, call, layout, pass, fail } => {
            let next = ctx.with_invoke(symbol, layout, call);
            let inner = scope.behind_invoke(symbol, layout, call);
            lemma_agrees_invoke(ctx, scope, symbol, layout, call);
            lemma_same_standing(next, inner, x);
            lemma_call_fates(ctx, scope, call, x);
            assert(joins_known(jps, inner));
            lemma_regular(next, inner, *pass, x, entry);
            lemma_regular(ctx, scope, *fail, x, entry);
            if inner.knows(x) {
                lemma_live_used(inner.vars.dom(), params, *pass, jps, x);
            }
        },
        StmtView::Switch { branches, default_branch, .. } => {
            assert forall|i: int| 0 <= i < branches.len() implies regular(
                ctx,
                (#[trigger] branches[i]).2,
                x,
                entry,
            ) by {
                assert(tidy(vars, params, branches[i].2));
                lemma_regular(ctx, scope, branches[i].2, x, entry);
            }
            lemma_regular(ctx, scope, *default_branch.1, x, entry);
        },
        StmtView::Join { id, parameters, continuation, remainder } => {
            let ps = ctx.join_params(id)@;
            let next = ctx.with_params(ps);
            let inner = scope.behind_params(ps);
            lemma_agrees_params(ctx, scope, ps);
            lemma_with_params_keeps(ctx, ps);
            lemma_same_standing(next, inner, x);
            assert forall|y: Symbol| param_symbols(ps).contains(y) == names_param(ps, y) by {}
            assert(joins_known(jps, inner)) by {
                assert forall|j: JoinPointId, y: Symbol|
                    jps.contains_key(j) && #[trigger] jps[j].contains(y) implies inner.knows(
                    y,
                ) by {
                    assert(scope.knows(y));
                    assert(vars.contains(y));
                    assert(inner.vars.dom().contains(y));
                }
            }
            let body_live = live(*continuation, jps).difference(param_symbols(ps));
            let uses = !names_param(ps, x) && used(*continuation, x, joins, false);
            assert(body_live.contains(x) == uses) by {
                if inner.vars.dom().contains(x) {
                    lemma_live_used(inner.vars.dom(), params, *continuation, jps, x);
                } else {
                    assert forall|j: JoinPointId| !#[trigger] joins.contains(j) by {
                        if joins.contains(j) {
                            assert(jps[j].contains(x));
                            assert(inner.knows(x));
                        }
                    }
                    lemma_unknown_unused(
                        inner.vars.dom(),
                        params,
                        *continuation,
                        jps,
                        joins,
                        x,
                    );
                }
            }
            let outer = ctx.with_join_point(id, body_live);
            assert forall|y: Symbol| #[trigger] body_live.contains(y) implies scope.knows(y) by {
                if !scope.knows(y) {
                    assert(!inner.vars.dom().contains(y));
                    assert forall|j: JoinPointId|
                        #![trigger jps[j]]
                        jps.contains_key(j) implies !jps[j].contains(y) by {}
                    lemma_unknown_unused(
                        inner.vars.dom(),
                        params,
                        *continuation,
                        jps,
                        Set::empty(),
                        y,
                    );
                }
            }
            assert(joins_known(outer.jp_live_vars, scope));
            assert(agrees(outer, scope)) by {
                assert forall|y: Symbol| #[trigger] scope.knows(y) implies {
                    &&& outer.counted(y) == scope.vars[y].counted
                    &&& outer.vars[y].consume == scope.vars[y].owned
                } by {}
            }
            assert(joins_with(outer.jp_live_vars, x) =~= joins_behind(joins, id, uses));
            let inner_entry = entry.insert(id, holds(scope, x, uses));
            lemma_regular(next, inner, *continuation, x, inner_entry);
            lemma_regular(outer, scope, *remainder, x, inner_entry);
            if names_param(ps, x) {
                assert(!vars.contains(x));
                assert(is_one_param(ps, x)) by {
                    assert forall|i: int, j: int|
                        0 <= i < j < ps.len() && (#[trigger] ps[i]).symbol == x implies (
                    #[trigger] ps[j]).symbol != x by {
                        assert(ps[i].symbol != ps[j].symbol);
                    }
                }
            }
        },
        StmtView::Jump(id, arguments) => {
            let ps = ctx.join_params(id);
            lemma_params_fates(x, arguments@, ps, |i: int| jump_fate(ps@, i));
            assert(joins.contains(id) <==> ctx.join_live(id).contains(x));
        },
        _ => {},
    }
}

/// What the pass leaves of a statement gives up every reference to `x` exactly once, where the
/// references to `x` can be accounted for: it starts with one reference if `x` is owned and
/// needed, and with none otherwise.
pub proof fn law_references_settled<'a>(
    ctx: ContextView<'a>,
    scope: Scope<'a>,
    stmt: StmtView<'a>,
    out: StmtView<'a>,
    live_vars: Set<Symbol>,
    x: Symbol,
    entry: Map<JoinPointId, int>,
)
    requires
        agrees(ctx, scope),
        joins_known(ctx.jp_live_vars, scope),
        tidy(scope.vars.dom(), scope.params, stmt),
        orderly(scope, stmt, x, entry, joins_with(ctx.jp_live_vars, x)),
        visitable(ctx, stmt),
        visits(ctx, stmt, out, live_vars),
    ensures
        settled(
            scope,
            out,
            x,
            holds(scope, x, used(out, x, joins_with(ctx.jp_live_vars, x), false)),
            entry,
        ),
{
    lemma_regular(ctx, scope, stmt, x, entry);
    lemma_tidy_plain(scope.vars.dom(), scope.params, stmt);
    law_references_balanced(ctx, stmt, out, live_vars, x, entry);
    lemma_settled(ctx, scope, out, x, held(ctx, live_vars, x), entry);
    lemma_same_standing(ctx, scope, x);
    if scope.knows(x) {
        lemma_used_kept(ctx, scope, stmt, out, live_vars, x);
    }
}

/// A procedure gives up every reference to `x` exactly once, where the references to `x` can be
/// accounted for. It starts with one reference to each parameter that is counted and not
/// borrowed, whether the body uses the parameter or not.
pub proof fn law_references_settled_in_proc<'a>(
    params: Map<Key, &'a [Param]>,
    proc: Proc<'a>,
    layout: Layout,
    ps: Seq<Param>,
    out: StmtView<'a>,
    x: Symbol,
)
    requires
        are_params_of(params, proc, layout, ps),
        distinct_params(ps),
        tidy(Scope::at_start(params).behind_params(ps).vars.dom(), params, proc.body@),
        orderly(
            Scope::at_start(params).behind_params(ps),
            proc.body@,
            x,
            Map::empty(),
            Set::empty(),
        ),
        visitable(
            initial_context(params).with_params(proc_params(params, proc, layout)),
            proc.body@,
        ),
        visits_proc(
            initial_context(params),
            proc_params(params, proc, layout),
            proc.body@,
            out,
        ),
    ensures
        ({
            let scope = Scope::at_start(params).behind_params(ps);
            settled(scope, out, x, holds(scope, x, true), Map::empty())
        }),
        forall|i: int|
            0 <= i < ps.len() && (#[trigger] ps[i]).symbol == x ==> (Scope::at_start(
                params,
            ).behind_params(ps).owns(x) <==> ps[i].layout.holds_refcounted && !ps[i].borrow),
{
    lemma_proc_params(params, proc, layout, ps);
    let body = proc.body@;
    let start = Scope::at_start(params);
    let scope = start.behind_params(ps);
    let ctx = initial_context(params).with_params(ps);
    lemma_agrees_start(params);
    lemma_agrees_params(initial_context(params), start, ps);
    lemma_with_params_keeps(initial_context(params), ps);
    assert(joins_with(ctx.jp_live_vars, x) =~= Set::empty());
    lemma_regular(ctx, scope, body, x, Map::empty());
    lemma_tidy_plain(scope.vars.dom(), params, body);
    assert(is_one_param(ps, x)) by {
        assert forall|i: int, j: int|
            0 <= i < j < ps.len() && (#[trigger] ps[i]).symbol == x implies (
        #[trigger] ps[j]).symbol != x by {
            assert(ps[i].symbol != ps[j].symbol);
        }
    }
    law_references_balanced_in_proc(params, ps, body, out, x);
    lemma_same_standing(ctx, scope, x);
    lemma_settled(ctx, scope, out, x, holds(scope, x, true), Map::empty());
    lemma_param_standing(start, ps, x);
}

} // verus!
