//! Which instructions stand in front of, and behind, a single statement, and in which order.
use vstd::prelude::*;

use crate::borrow::Key;
use crate::inserted::{adapt_expr, lemma_inc_before};
use crate::insertion::{
    consumptions, flagged, free_containers, higher_order_borrows, higher_order_shape, is_borrowed,
    is_first, leading_borrow, visits, ConsumePred, ContextView, HigherOrderShape,
};
use crate::ir::{Call, CallType, Expr, JoinPointId, Layout, ModifyRc, Param, StmtView, Symbol};
use crate::likeness::{lemma_like_expr, like_expr};
use crate::liveness_laws::lemma_live_behind;
use crate::ownership::signature;
use crate::scope::{argument_fate, fates_upto, flag_count, jump_fate, Fate};
use crate::totals::{handed, lemma_consumptions_taken, lemma_fates_positive, lemma_signature_fates};

verus! {

/// `b` behind the instructions that are due for the first `n` positions of a list; that for the
/// last position comes first.
pub open spec fn in_front<'a>(
    n: nat,
    due: spec_fn(int) -> Option<ModifyRc>,
    b: StmtView<'a>,
) -> StmtView<'a>
    decreases n,
{
    if n == 0 {
        b
    } else {
        let rest = in_front((n - 1) as nat, due, b);
        match due(n - 1) {
            Some(modify) => StmtView::Refcounting(modify, Box::new(rest)),
            None => rest,
        }
    }
}

/// The same is due at each position.
proof fn lemma_in_front_same<'a>(
    n: nat,
    f: spec_fn(int) -> Option<ModifyRc>,
    g: spec_fn(int) -> Option<ModifyRc>,
    b: StmtView<'a>,
)
    requires
        forall|i: int| 0 <= i < n ==> #[trigger] f(i) == g(i),
    ensures
        in_front(n, f, b) == in_front(n, g, b),
    decreases n,
{
    if n > 0 {
        lemma_in_front_same((n - 1) as nat, f, g, b);
        assert(f(n - 1) == g(n - 1));
    }
}

/// Positions at which nothing is due do not matter.
proof fn lemma_in_front_short<'a>(
    n: nat,
    m: nat,
    f: spec_fn(int) -> Option<ModifyRc>,
    b: StmtView<'a>,
)
    requires
        m <= n,
        forall|i: int| m <= i < n ==> (#[trigger] f(i)) is None,
    ensures
        in_front(n, f, b) == in_front(m, f, b),
    decreases n,
{
    if m < n {
        lemma_in_front_short((n - 1) as nat, m, f, b);
        assert(f(n - 1) is None);
    }
}

/// Whether a position takes the variable that is passed there. It does, unless it has a parameter
/// that is borrowed.
pub open spec fn passed_fate(pred: ConsumePred, i: int) -> Fate {
    match pred {
        ConsumePred::All => Fate::Taken,
        ConsumePred::Params(ps) => jump_fate(ps@, i),
    }
}

/// What stands at position `i` of `xs` stands there for the first time.
pub open spec fn new_at(xs: Seq<Symbol>, i: int) -> bool {
    forall|j: int| 0 <= j < i ==> xs[j] != xs[i]
}

/// The increment that is due for position `i` where `xs` are passed and `needed` are needed
/// afterwards. Each variable gets what it needs at its first position: a reference for each
/// position that takes it, less the one that the procedure holds, if it is to be consumed, is not
/// lent at the same time, and is not needed afterwards.
pub open spec fn inc_due(
    ctx: ContextView,
    xs: Seq<Symbol>,
    pred: ConsumePred,
    needed: Set<Symbol>,
    i: int,
) -> Option<ModifyRc> {
    let x = xs[i];
    let info = ctx.vars[x];
    let fate = |j: int| passed_fate(pred, j);
    let taken = fates_upto(xs, fate, x, Fate::Taken, xs.len());
    let lent = fates_upto(xs, fate, x, Fate::Lent, xs.len()) > 0;
    let amount = if info.consume && !lent && !needed.contains(x) {
        taken - 1
    } else {
        taken as int
    };
    if info.reference && !info.persistent && new_at(xs, i) && amount >= 1 {
        Some(ModifyRc::Inc(x, amount as u64))
    } else {
        None
    }
}

/// The decrement that is due for `x` where it is dead, if it is counted and must be consumed.
pub open spec fn dec_due(ctx: ContextView, x: Symbol, dead: bool) -> Option<ModifyRc> {
    let info = ctx.vars[x];
    if info.reference && !info.persistent && info.consume && dead {
        Some(ModifyRc::Dec(x))
    } else {
        None
    }
}

/// `x` is passed to a borrowed parameter.
pub open spec fn lent_to(xs: Seq<Symbol>, ps: Seq<Param>, x: Symbol) -> bool {
    exists|j: int| 0 <= j < xs.len() && j < ps.len() && #[trigger] xs[j] == x && ps[j].borrow
}

/// The increments in front of a statement that is passed `xs`.
pub proof fn law_increments<'a>(
    ctx: ContextView<'a>,
    xs: Seq<Symbol>,
    pred: ConsumePred,
    b: StmtView<'a>,
    needed: Set<Symbol>,
)
    ensures
        ctx.inc_before(xs, pred, b, needed) == in_front(
            xs.len(),
            |i: int| inc_due(ctx, xs, pred, needed, i),
            b,
        ),
{
    lemma_increments(ctx, xs, pred, b, needed, xs.len());
}

/// [`law_increments`] for the first positions.
proof fn lemma_increments<'a>(
    ctx: ContextView<'a>,
    xs: Seq<Symbol>,
    pred: ConsumePred,
    b: StmtView<'a>,
    needed: Set<Symbol>,
    n: nat,
)
    requires
        n <= xs.len(),
    ensures
        ctx.inc_before_upto(xs, pred, b, needed, n) == in_front(
            n,
            |i: int| inc_due(ctx, xs, pred, needed, i),
            b,
        ),
    decreases n,
{
    if n > 0 {
        lemma_increments(ctx, xs, pred, b, needed, (n - 1) as nat);
        let x = xs[n - 1];
        let f = |j: int| passed_fate(pred, j);
        lemma_consumptions_taken(x, xs, pred, f, xs.len());
        lemma_fates_positive(xs, f, x, Fate::Lent, xs.len());
        assert(is_borrowed(x, xs, pred) <==> fates_upto(xs, f, x, Fate::Lent, xs.len()) > 0) by {
            if is_borrowed(x, xs, pred) {
                let i = choose|i: int|
                    0 <= i < xs.len() && #[trigger] xs[i] == x && !pred.consumes(i);
                assert(f(i) == Fate::Lent);
            }
        }
        assert(consumptions(x, xs, pred) == fates_upto(xs, f, x, Fate::Taken, xs.len()));
        assert(is_first(xs, n - 1) <==> new_at(xs, n - 1));
    }
}

/// The decrements behind a call of a function with the parameters `ps`: each variable that was
/// lent and is dead is given up at its first position.
pub proof fn law_decrements_behind_application<'a>(
    ctx: ContextView<'a>,
    xs: Seq<Symbol>,
    ps: &[Param],
    b: StmtView<'a>,
    needed: Set<Symbol>,
)
    ensures
        ctx.dec_after_application(xs, ps, b, needed) == in_front(
            xs.len(),
            |i: int|
                dec_due(
                    ctx,
                    xs[i],
                    new_at(xs, i) && lent_to(xs, ps@, xs[i]) && !needed.contains(xs[i]),
                ),
            b,
        ),
{
    lemma_decrements_behind_application(ctx, xs, ps, b, needed, xs.len());
}

/// [`law_decrements_behind_application`] for the first positions.
proof fn lemma_decrements_behind_application<'a>(
    ctx: ContextView<'a>,
    xs: Seq<Symbol>,
    ps: &[Param],
    b: StmtView<'a>,
    needed: Set<Symbol>,
    n: nat,
)
    requires
        n <= xs.len(),
    ensures
        ctx.dec_after_application_upto(xs, ps, b, needed, n) == in_front(
            n,
            |i: int|
                dec_due(
                    ctx,
                    xs[i],
                    new_at(xs, i) && lent_to(xs, ps@, xs[i]) && !needed.contains(xs[i]),
                ),
            b,
        ),
    decreases n,
{
    if n > 0 {
        lemma_decrements_behind_application(ctx, xs, ps, b, needed, (n - 1) as nat);
        let x = xs[n - 1];
        let pred = ConsumePred::Params(ps);
        assert(is_borrowed(x, xs, pred) <==> lent_to(xs, ps@, x)) by {
            if is_borrowed(x, xs, pred) {
                let i = choose|i: int|
                    0 <= i < xs.len() && #[trigger] xs[i] == x && !pred.consumes(i);
                assert(xs[i] == x);
            }
            if lent_to(xs, ps@, x) {
                let i = choose|i: int|
                    0 <= i < xs.len() && i < ps@.len() && #[trigger] xs[i] == x && ps@[i].borrow;
                assert(!pred.consumes(i));
            }
        }
        assert(is_first(xs, n - 1) <==> new_at(xs, n - 1));
    }
}

/// The decrements behind a built-in or foreign call with the borrow flags `flags`: each variable
/// that is lent at its first position and is dead is given up there.
pub proof fn law_decrements_behind_builtin<'a>(
    ctx: ContextView<'a>,
    xs: Seq<Symbol>,
    flags: Seq<bool>,
    b: StmtView<'a>,
    needed: Set<Symbol>,
)
    ensures
        ctx.dec_after_lowlevel(xs, flags, b, needed) == in_front(
            xs.len(),
            |i: int|
                dec_due(
                    ctx,
                    xs[i],
                    i < flags.len() && flags[i] && new_at(xs, i) && !needed.contains(xs[i]),
                ),
            b,
        ),
{
    lemma_decrements_behind_builtin(ctx, xs, flags, b, needed, flagged(xs, flags));
    lemma_in_front_short(
        xs.len(),
        flagged(xs, flags),
        |i: int|
            dec_due(
                ctx,
                xs[i],
                i < flags.len() && flags[i] && new_at(xs, i) && !needed.contains(xs[i]),
            ),
        b,
    );
}

/// [`law_decrements_behind_builtin`] for the first positions.
proof fn lemma_decrements_behind_builtin<'a>(
    ctx: ContextView<'a>,
    xs: Seq<Symbol>,
    flags: Seq<bool>,
    b: StmtView<'a>,
    needed: Set<Symbol>,
    n: nat,
)
    requires
        n <= flagged(xs, flags),
    ensures
        ctx.dec_after_lowlevel_upto(xs, flags, b, needed, n) == in_front(
            n,
            |i: int|
                dec_due(
                    ctx,
                    xs[i],
                    i < flags.len() && flags[i] && new_at(xs, i) && !needed.contains(xs[i]),
                ),
            b,
        ),
    decreases n,
{
    if n > 0 {
        lemma_decrements_behind_builtin(ctx, xs, flags, b, needed, (n - 1) as nat);
        assert(is_first(xs, n - 1) <==> new_at(xs, n - 1));
    }
}

/// The decrements for dead parameters: each parameter that holds a counted pointer, is not
/// borrowed and is dead is given up.
pub proof fn law_decrements_for_params<'a>(
    ctx: ContextView<'a>,
    ps: Seq<Param>,
    b: StmtView<'a>,
    needed: Set<Symbol>,
)
    ensures
        ctx.dec_for_dead_params(ps, b, needed) == in_front(
            ps.len(),
            |i: int| param_dec_due(ctx, ps[i], needed),
            b,
        ),
    decreases ps.len(),
{
    if ps.len() > 0 {
        let init = ps.drop_last();
        law_decrements_for_params(ctx, init, b, needed);
        lemma_in_front_same(
            init.len(),
            |i: int| param_dec_due(ctx, init[i], needed),
            |i: int| param_dec_due(ctx, ps[i], needed),
            b,
        );
    }
}

/// The decrement that is due for a parameter.
pub open spec fn param_dec_due(ctx: ContextView, p: Param, needed: Set<Symbol>) -> Option<
    ModifyRc,
> {
    let info = ctx.vars[p.symbol];
    if info.reference && !info.persistent && p.layout.holds_refcounted && !p.borrow
        && !needed.contains(p.symbol) {
        Some(ModifyRc::Dec(p.symbol))
    } else {
        None
    }
}

/// The decrements at the start of an alternative, where the variables that are live before the
/// choice are walked through in the order of `symbols`.
pub proof fn law_decrements_for_alternative<'a>(
    ctx: ContextView<'a>,
    symbols: Seq<Symbol>,
    b: StmtView<'a>,
    needed: Set<Symbol>,
)
    ensures
        ctx.dec_each(ctx.dead_among(symbols, needed), b) == in_front(
            symbols.len(),
            |i: int| dec_due(ctx, symbols[i], !needed.contains(symbols[i])),
            b,
        ),
    decreases symbols.len(),
{
    if symbols.len() > 0 {
        let init = symbols.drop_last();
        let x = symbols.last();
        law_decrements_for_alternative(ctx, init, b, needed);
        lemma_in_front_same(
            init.len(),
            |i: int| dec_due(ctx, init[i], !needed.contains(init[i])),
            |i: int| dec_due(ctx, symbols[i], !needed.contains(symbols[i])),
            b,
        );
        let rest = ctx.dead_among(init, needed);
        assert(rest.push(x).drop_last() =~= rest);
    }
}

/// Which positions take what they are passed where `v` is built.
pub open spec fn taking<'a>(ctx: ContextView<'a>, v: Expr<'a>) -> ConsumePred<'a> {
    match v {
        Expr::Call(call) => match call.call_type {
            CallType::ByName { name, full_layout, .. } => ConsumePred::Params(
                ctx.param_map[Key::Declaration(name, full_layout)],
            ),
            _ => ConsumePred::All,
        },
        _ => ConsumePred::All,
    }
}

/// The decrement that is due for the argument at position `i` behind a built-in or foreign call:
/// at its first position, if it has a flag and is lent there, and is dead.
pub open spec fn lent_dec_due<'a>(
    ctx: ContextView<'a>,
    call: Call<'a>,
    needed: Set<Symbol>,
    i: int,
) -> Option<ModifyRc> {
    let xs = call.arguments@;
    dec_due(
        ctx,
        xs[i],
        i < flag_count(call) && argument_fate(ctx.param_map, call, i) is Lent && new_at(xs, i)
            && !needed.contains(xs[i]),
    )
}

/// The argument at position `i` is freed, without its contents, behind a built-in or foreign call
/// that has emptied it.
pub open spec fn free_due<'a>(ctx: ContextView<'a>, call: Call<'a>, i: int) -> Option<ModifyRc> {
    if argument_fate(ctx.param_map, call, i) is Emptied {
        Some(ModifyRc::DecRef(call.arguments@[i]))
    } else {
        None
    }
}

/// `b` behind the instructions that are due behind `let z = v`.
pub open spec fn behind_let_of<'a>(
    ctx: ContextView<'a>,
    z: Symbol,
    v: Expr<'a>,
    b: StmtView<'a>,
    needed: Set<Symbol>,
) -> StmtView<'a> {
    match v {
        // the part gets its reference before the structure is given up
        Expr::AccessAtIndex { structure, .. } => {
            let rest = match dec_due(ctx, structure, !needed.contains(structure)) {
                Some(modify) => StmtView::Refcounting(modify, Box::new(b)),
                None => b,
            };
            let part = ctx.vars[z];
            if ctx.vars[structure].consume && part.reference && !part.persistent {
                StmtView::Refcounting(ModifyRc::Inc(z, 1), Box::new(rest))
            } else {
                rest
            }
        },
        Expr::Call(call) => {
            let xs = call.arguments@;
            match call.call_type {
                CallType::ByName { name, full_layout, .. } => {
                    let ps = ctx.param_map[Key::Declaration(name, full_layout)]@;
                    in_front(
                        xs.len(),
                        |i: int|
                            dec_due(
                                ctx,
                                xs[i],
                                new_at(xs, i) && lent_to(xs, ps, xs[i]) && !needed.contains(xs[i]),
                            ),
                        b,
                    )
                },
                // emptied containers are freed first
                _ => in_front(
                    xs.len(),
                    |i: int| free_due(ctx, call, i),
                    in_front(xs.len(), |i: int| lent_dec_due(ctx, call, needed, i), b),
                ),
            }
        },
        _ => b,
    }
}

/// The containers that are freed behind a built-in operation that takes a function.
proof fn lemma_freed<'a>(
    ctx: ContextView<'a>,
    call: Call<'a>,
    shape: HigherOrderShape,
    ps: Seq<Param>,
    b: StmtView<'a>,
    n: nat,
)
    requires
        call.call_type matches CallType::HigherOrderLowLevel { op, closure_layout, .. }
            && higher_order_shape(op.op) == Some(shape) && ps == ctx.function_params(
            call.arguments@,
            shape,
            closure_layout,
        )@,
        n <= shape.containers,
    ensures
        free_containers(call.arguments@, shape, ps, b, n) == in_front(
            n,
            |i: int| free_due(ctx, call, i),
            b,
        ),
    decreases n,
{
    if n > 0 {
        lemma_freed(ctx, call, shape, ps, b, (n - 1) as nat);
        lemma_signature_fates(ctx, call, n - 1);
        assert(shape.containers <= shape.leading.len());
        let flags = higher_order_borrows(shape, ps);
        assert(flags[n - 1] == leading_borrow(shape.leading[n - 1], ps));
    }
}

/// The decrements behind a built-in or foreign call are those for what is lent to it.
proof fn lemma_lent_decs<'a>(
    ctx: ContextView<'a>,
    call: Call<'a>,
    b: StmtView<'a>,
    needed: Set<Symbol>,
)
    requires
        !(call.call_type is ByName),
    ensures
        ctx.dec_after_lowlevel(call.arguments@, (signature(ctx, call)->0).0, b, needed) == in_front(
            call.arguments@.len(),
            |i: int| lent_dec_due(ctx, call, needed, i),
            b,
        ),
{
    let xs = call.arguments@;
    let flags = (signature(ctx, call)->0).0;
    law_decrements_behind_builtin(ctx, xs, flags, b, needed);
    let f = |i: int|
        dec_due(
            ctx,
            xs[i],
            i < flags.len() && flags[i] && new_at(xs, i) && !needed.contains(xs[i]),
        );
    let g = |i: int| lent_dec_due(ctx, call, needed, i);
    assert forall|i: int| 0 <= i < xs.len() implies #[trigger] f(i) == g(i) by {
        lemma_signature_fates(ctx, call, i);
    }
    lemma_in_front_same(xs.len(), f, g, b);
}

/// `let z = v` stands behind the increments for what it is handed, and in front of the
/// instructions for what it gives back. The expression is the same, but for what a call says of
/// the ownership of closure data.
pub proof fn law_let<'a>(
    ctx: ContextView<'a>,
    z: Symbol,
    v: Expr<'a>,
    l: Layout,
    b: StmtView<'a>,
    needed: Set<Symbol>,
) -> (w: Expr<'a>)
    requires
        ctx.declare_defined(z, v),
    ensures
        like_expr(ctx.param_map, v, w),
        ctx.declare(z, v, l, b, needed) == in_front(
            handed(v).len(),
            |i: int| inc_due(ctx, handed(v), taking(ctx, v), needed, i),
            StmtView::Let(z, w, l, Box::new(behind_let_of(ctx, z, v, b, needed))),
        ),
{
    let w = adapt_expr(ctx.param_map, v);
    lemma_like_expr(ctx.param_map, v);
    let bound = StmtView::Let(z, w, l, Box::new(behind_let_of(ctx, z, v, b, needed)));
    let xs = handed(v);
    law_increments(ctx, xs, taking(ctx, v), bound, needed);
    match v {
        Expr::Call(call) => {
            let args = call.arguments@;
            match call.call_type {
                CallType::ByName { name, full_layout, .. } => {
                    let ps = ctx.param_map[Key::Declaration(name, full_layout)];
                    law_decrements_behind_application(ctx, args, ps, b, needed);
                },
                CallType::HigherOrderLowLevel { op, closure_layout, .. } => {
                    lemma_lent_decs(ctx, call, b, needed);
                    let inner = in_front(
                        args.len(),
                        |i: int| lent_dec_due(ctx, call, needed, i),
                        b,
                    );
                    let f = |i: int| free_due(ctx, call, i);
                    match higher_order_shape(op.op) {
                        Some(shape) => {
                            let ps = ctx.function_params(args, shape, closure_layout)@;
                            lemma_freed(ctx, call, shape, ps, inner, shape.containers);
                            assert forall|i: int| shape.containers <= i < args.len() implies (
                            #[trigger] f(i)) is None by {
                                lemma_signature_fates(ctx, call, i);
                            }
                            lemma_in_front_short(args.len(), shape.containers, f, inner);
                        },
                        None => {
                            lemma_in_front_short(args.len(), 0, f, inner);
                        },
                    }
                },
                _ => {
                    lemma_lent_decs(ctx, call, b, needed);
                    let inner = in_front(
                        args.len(),
                        |i: int| lent_dec_due(ctx, call, needed, i),
                        b,
                    );
                    lemma_in_front_short(args.len(), 0, |i: int| free_due(ctx, call, i), inner);
                },
            }
        },
        _ => {},
    }
    w
}

/// A variable that is returned is given to the caller: if the procedure does not own it, a
/// reference is added first. Only that variable is live before.
pub proof fn law_return<'a>(
    ctx: ContextView<'a>,
    x: Symbol,
    out: StmtView<'a>,
    live_vars: Set<Symbol>,
)
    requires
        visits(ctx, StmtView::Ret(x), out, live_vars),
    ensures
        forall|y: Symbol| #[trigger] live_vars.contains(y) <==> y == x,
        ({
            let info = ctx.vars[x];
            out == if info.reference && !info.persistent && !info.consume {
                StmtView::Refcounting(ModifyRc::Inc(x, 1), Box::new(StmtView::Ret(x)))
            } else {
                StmtView::Ret(x)
            }
        }),
{
}

/// A jump stands behind the increments for its arguments, where what is live in the join point is
/// needed afterwards. Its arguments, and what is live in the join point, are live before.
pub proof fn law_jump<'a>(
    ctx: ContextView<'a>,
    id: JoinPointId,
    xs: &'a [Symbol],
    out: StmtView<'a>,
    live_vars: Set<Symbol>,
)
    requires
        visits(ctx, StmtView::Jump(id, xs), out, live_vars),
    ensures
        ({
            let needed = Set::new(
                |y: Symbol| ctx.jp_live_vars.contains_key(id) && ctx.jp_live_vars[id].contains(y),
            );
            let pred = ConsumePred::Params(ctx.param_map[Key::JoinPoint(id)]);
            &&& out == in_front(
                xs@.len(),
                |i: int| inc_due(ctx, xs@, pred, needed, i),
                StmtView::Jump(id, xs),
            )
            &&& forall|y: Symbol| #[trigger]
                live_vars.contains(y) <==> xs@.contains(y) || needed.contains(y)
        }),
{
    let needed = Set::new(
        |y: Symbol| ctx.jp_live_vars.contains_key(id) && ctx.jp_live_vars[id].contains(y),
    );
    let stmt = StmtView::Jump(id, xs);
    let pred = ConsumePred::Params(ctx.join_params(id));
    assert(needed =~= ctx.join_live(id));
    law_increments(ctx, xs@, pred, stmt, needed);
    assert(xs.len() == xs@.len());
    lemma_inc_before(ctx, xs@, pred, stmt, needed, xs@.len());
    lemma_live_behind(ctx, out, stmt, xs@.to_set(), ctx.jp_live_vars);
}

} // verus!
