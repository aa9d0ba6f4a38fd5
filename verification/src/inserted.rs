//! Where the inserted instructions stand: in front of the statement that they are for, and
//! on which symbols.
use vstd::prelude::*;

use crate::borrow::Key;
use crate::insertion::{
    consumptions_upto, flagged, free_containers, higher_order_borrows, higher_order_call,
    higher_order_shape, ConsumePred, ContextView, HigherOrderShape,
};
use crate::ir::{Call, CallType, Expr, Layout, LowLevel, ModifyRc, Param, StmtView, Symbol};
use crate::occurrence::{expr_symbols, param_symbols};

verus! {

/// May the instruction be inserted in a context? A persistent value is never counted, nor is
/// a value that is never a reference, and nothing is ever added zero times. Freeing a
/// container does not ask whether it is counted.
pub open spec fn legal(ctx: ContextView, modify: ModifyRc) -> bool {
    match modify {
        ModifyRc::Inc(x, n) => ctx.counted(x) && n >= 1,
        ModifyRc::Dec(x) => ctx.counted(x),
        ModifyRc::DecRef(_) => true,
    }
}

/// `out` is `b` behind instructions that may be inserted in the context `ctx`, on symbols
/// among `symbols`.
pub open spec fn behind<'a>(
    ctx: ContextView<'a>,
    out: StmtView<'a>,
    b: StmtView<'a>,
    symbols: Set<Symbol>,
) -> bool
    decreases out,
{
    out == b || match out {
        StmtView::Refcounting(modify, cont) => {
            &&& legal(ctx, modify)
            &&& symbols.contains(modify.symbol())
            &&& behind(ctx, *cont, b, symbols)
        },
        _ => false,
    }
}

/// Two stretches of instructions make one.
pub proof fn lemma_behind_trans<'a>(
    ctx: ContextView<'a>,
    out: StmtView<'a>,
    mid: StmtView<'a>,
    b: StmtView<'a>,
    symbols: Set<Symbol>,
)
    requires
        behind(ctx, out, mid, symbols),
        behind(ctx, mid, b, symbols),
    ensures
        behind(ctx, out, b, symbols),
    decreases out,
{
    if out != mid {
        match out {
            StmtView::Refcounting(_, cont) => {
                lemma_behind_trans(ctx, *cont, mid, b, symbols);
            },
            _ => {},
        }
    }
}

/// Instructions on some symbols are instructions on more symbols.
pub proof fn lemma_behind_subset<'a>(
    ctx: ContextView<'a>,
    out: StmtView<'a>,
    b: StmtView<'a>,
    symbols: Set<Symbol>,
    more: Set<Symbol>,
)
    requires
        behind(ctx, out, b, symbols),
        symbols.subset_of(more),
    ensures
        behind(ctx, out, b, more),
    decreases out,
{
    if out != b {
        match out {
            StmtView::Refcounting(_, cont) => {
                lemma_behind_subset(ctx, *cont, b, symbols, more);
            },
            _ => {},
        }
    }
}

/// A variable is not consumed more often than there are positions.
pub proof fn lemma_consumptions_bound(x: Symbol, ys: Seq<Symbol>, pred: ConsumePred, n: nat)
    ensures
        consumptions_upto(x, ys, pred, n) <= n,
    decreases n,
{
    if n > 0 {
        lemma_consumptions_bound(x, ys, pred, (n - 1) as nat);
    }
}

/// The increments in front of a statement.
pub proof fn lemma_inc_before<'a>(
    ctx: ContextView<'a>,
    xs: Seq<Symbol>,
    pred: ConsumePred,
    b: StmtView<'a>,
    live_after: Set<Symbol>,
    n: nat,
)
    requires
        n <= xs.len() <= u64::MAX,
    ensures
        behind(ctx, ctx.inc_before_upto(xs, pred, b, live_after, n), b, xs.to_set()),
    decreases n,
{
    if n > 0 {
        lemma_inc_before(ctx, xs, pred, b, live_after, (n - 1) as nat);
        let x = xs[n - 1];
        assert(xs.to_set().contains(x));
        lemma_consumptions_bound(x, xs, pred, xs.len());
    }
}

/// The decrements behind a call of a function.
pub proof fn lemma_dec_after_application<'a>(
    ctx: ContextView<'a>,
    xs: Seq<Symbol>,
    ps: &[Param],
    b: StmtView<'a>,
    b_live: Set<Symbol>,
    n: nat,
)
    requires
        n <= xs.len(),
    ensures
        behind(ctx, ctx.dec_after_application_upto(xs, ps, b, b_live, n), b, xs.to_set()),
    decreases n,
{
    if n > 0 {
        lemma_dec_after_application(ctx, xs, ps, b, b_live, (n - 1) as nat);
        assert(xs.to_set().contains(xs[n - 1]));
    }
}

/// The decrements behind a built-in or foreign call.
pub proof fn lemma_dec_after_lowlevel<'a>(
    ctx: ContextView<'a>,
    xs: Seq<Symbol>,
    ps: Seq<bool>,
    b: StmtView<'a>,
    b_live: Set<Symbol>,
    n: nat,
)
    requires
        n <= flagged(xs, ps),
    ensures
        behind(ctx, ctx.dec_after_lowlevel_upto(xs, ps, b, b_live, n), b, xs.to_set()),
    decreases n,
{
    if n > 0 {
        lemma_dec_after_lowlevel(ctx, xs, ps, b, b_live, (n - 1) as nat);
        assert(xs.to_set().contains(xs[n - 1]));
    }
}

/// The containers that are freed behind a call of an operation that takes a function.
pub proof fn lemma_free_containers<'a>(
    ctx: ContextView<'a>,
    args: Seq<Symbol>,
    shape: HigherOrderShape,
    ps: Seq<Param>,
    b: StmtView<'a>,
    n: nat,
)
    requires
        n <= args.len(),
    ensures
        behind(ctx, free_containers(args, shape, ps, b, n), b, args.to_set()),
    decreases n,
{
    if n > 0 {
        lemma_free_containers(ctx, args, shape, ps, b, (n - 1) as nat);
        assert(args.to_set().contains(args[n - 1]));
    }
}

/// The decrements for dead parameters.
pub proof fn lemma_dec_for_dead_params<'a>(
    ctx: ContextView<'a>,
    ps: Seq<Param>,
    b: StmtView<'a>,
    b_live: Set<Symbol>,
)
    ensures
        behind(ctx, ctx.dec_for_dead_params(ps, b, b_live), b, param_symbols(ps)),
    decreases ps.len(),
{
    if ps.len() > 0 {
        let init = ps.drop_last();
        lemma_dec_for_dead_params(ctx, init, b, b_live);
        assert(param_symbols(init).subset_of(param_symbols(ps))) by {
            assert forall|x: Symbol| param_symbols(init).contains(x) implies param_symbols(
                ps,
            ).contains(x) by {
                let i = choose|i: int| 0 <= i < init.len() && #[trigger] init[i].symbol == x;
                assert(ps[i].symbol == x);
            }
        }
        lemma_behind_subset(
            ctx,
            ctx.dec_for_dead_params(init, b, b_live),
            b,
            param_symbols(init),
            param_symbols(ps),
        );
        assert(ps[ps.len() - 1].symbol == ps.last().symbol);
    }
}

/// The decrements at the start of an alternative.
pub proof fn lemma_dec_each<'a>(ctx: ContextView<'a>, order: Seq<Symbol>, b: StmtView<'a>)
    ensures
        behind(ctx, ctx.dec_each(order, b), b, order.to_set()),
    decreases order.len(),
{
    if order.len() > 0 {
        let init = order.drop_last();
        lemma_dec_each(ctx, init, b);
        assert(init.push(order.last()) =~= order);
        crate::collections::lemma_to_set_push(init, order.last());
        lemma_behind_subset(ctx, ctx.dec_each(init, b), b, init.to_set(), order.to_set());
    }
}

/// The expression that a `let` of `v` holds behind the pass: a call of an operation that takes
/// a function says whether the function owns its closure data.
pub open spec fn adapt_expr<'a>(param_map: Map<Key, &'a [Param]>, v: Expr<'a>) -> Expr<'a> {
    match v {
        Expr::Call(call) => match call.call_type {
            CallType::HigherOrderLowLevel { op, closure_layout, .. } => match higher_order_shape(
                op.op,
            ) {
                Some(shape) => Expr::Call(
                    higher_order_call(
                        op,
                        closure_layout,
                        call,
                        shape,
                        param_map[Key::Declaration(
                            call.arguments@[shape.function],
                            closure_layout,
                        )]@,
                    ),
                ),
                None => v,
            },
            _ => v,
        },
        _ => v,
    }
}

/// Adapting an expression keeps the symbols that it mentions.
pub proof fn lemma_adapt_expr_symbols<'a>(param_map: Map<Key, &'a [Param]>, v: Expr<'a>)
    ensures
        expr_symbols(adapt_expr(param_map, v)) == expr_symbols(v),
{
}

/// The body of the `let` that stands behind the pass for `let z = v` in front of `b`: `b`
/// behind instructions.
pub open spec fn declared_body<'a>(
    ctx: ContextView<'a>,
    z: Symbol,
    v: Expr<'a>,
    b: StmtView<'a>,
    b_live: Set<Symbol>,
) -> StmtView<'a> {
    match v {
        Expr::AccessAtIndex { structure, .. } => {
            let b = ctx.dec_if_needed(structure, b, b_live);
            if ctx.vars[structure].consume {
                ctx.add_inc(z, 1, b)
            } else {
                b
            }
        },
        Expr::Call(call) => {
            let args = call.arguments@;
            match call.call_type {
                CallType::LowLevel { op } => ctx.dec_after_lowlevel(
                    args,
                    op.borrow_signature@,
                    b,
                    b_live,
                ),
                CallType::Foreign { borrow_signature, .. } => ctx.dec_after_lowlevel(
                    args,
                    borrow_signature@,
                    b,
                    b_live,
                ),
                CallType::HigherOrderLowLevel { op, closure_layout, .. } => {
                    match higher_order_shape(op.op) {
                        Some(shape) => {
                            let ps = ctx.function_params(args, shape, closure_layout)@;
                            free_containers(
                                args,
                                shape,
                                ps,
                                ctx.dec_after_lowlevel(
                                    args,
                                    higher_order_borrows(shape, ps),
                                    b,
                                    b_live,
                                ),
                                shape.containers,
                            )
                        },
                        None => ctx.dec_after_lowlevel(args, op.borrow_signature@, b, b_live),
                    }
                },
                CallType::ByName { name, full_layout, .. } => ctx.dec_after_application(
                    args,
                    ctx.param_map[Key::Declaration(name, full_layout)],
                    b,
                    b_live,
                ),
            }
        },
        _ => b,
    }
}

/// What stands behind the pass for `let z = v` in front of `b`: instructions on symbols of
/// `v`, the `let`, instructions on symbols of `v` and on `z`, and `b`.
pub proof fn lemma_declare<'a>(
    ctx: ContextView<'a>,
    z: Symbol,
    v: Expr<'a>,
    l: Layout,
    b: StmtView<'a>,
    b_live: Set<Symbol>,
)
    requires
        ctx.declare_defined(z, v),
    ensures
        ({
            let body = declared_body(ctx, z, v, b, b_live);
            let bound = StmtView::Let(z, adapt_expr(ctx.param_map, v), l, Box::new(body));
            &&& behind(ctx, ctx.declare(z, v, l, b, b_live), bound, expr_symbols(v))
            &&& behind(ctx, body, b, expr_symbols(v).insert(z))
        }),
{
    let body = declared_body(ctx, z, v, b, b_live);
    let symbols = expr_symbols(v).insert(z);
    let bound = StmtView::Let(z, adapt_expr(ctx.param_map, v), l, Box::new(body));
    match v {
        Expr::Reuse { arguments, .. } => {
            assert(arguments.len() == arguments@.len());
            lemma_inc_before(ctx, arguments@, ConsumePred::All, bound, b_live, arguments@.len());
            lemma_behind_subset(
                ctx,
                ctx.declare(z, v, l, b, b_live),
                bound,
                arguments@.to_set(),
                expr_symbols(v),
            );
        },
        Expr::Tag { arguments, .. } => {
            assert(arguments.len() == arguments@.len());
            lemma_inc_before(ctx, arguments@, ConsumePred::All, bound, b_live, arguments@.len());
        },
        Expr::Struct(arguments) => {
            assert(arguments.len() == arguments@.len());
            lemma_inc_before(ctx, arguments@, ConsumePred::All, bound, b_live, arguments@.len());
        },
        Expr::Array { elems, .. } => {
            assert(elems.len() == elems@.len());
            lemma_inc_before(ctx, elems@, ConsumePred::All, bound, b_live, elems@.len());
        },
        Expr::AccessAtIndex { structure, .. } => {
            reveal_with_fuel(behind, 3);
            assert(expr_symbols(v).contains(structure));
        },
        Expr::Call(call) => {
            let args = call.arguments@;
            assert(call.arguments.len() == args.len());
            match call.call_type {
                CallType::LowLevel { op } => {
                    let ps = op.borrow_signature@;
                    lemma_dec_after_lowlevel(ctx, args, ps, b, b_live, flagged(args, ps));
                    lemma_behind_subset(ctx, body, b, args.to_set(), symbols);
                },
                CallType::Foreign { borrow_signature, .. } => {
                    let ps = borrow_signature@;
                    lemma_dec_after_lowlevel(ctx, args, ps, b, b_live, flagged(args, ps));
                    lemma_behind_subset(ctx, body, b, args.to_set(), symbols);
                },
                CallType::HigherOrderLowLevel { op, closure_layout, .. } => {
                    match higher_order_shape(op.op) {
                        Some(shape) => {
                            let ps = ctx.function_params(args, shape, closure_layout)@;
                            let flags = higher_order_borrows(shape, ps);
                            let mid = ctx.dec_after_lowlevel(args, flags, b, b_live);
                            lemma_dec_after_lowlevel(
                                ctx,
                                args,
                                flags,
                                b,
                                b_live,
                                flagged(args, flags),
                            );
                            lemma_free_containers(ctx, args, shape, ps, mid, shape.containers);
                            lemma_behind_trans(ctx, body, mid, b, args.to_set());
                            lemma_behind_subset(ctx, body, b, args.to_set(), symbols);
                        },
                        None => {
                            let ps = op.borrow_signature@;
                            lemma_dec_after_lowlevel(ctx, args, ps, b, b_live, flagged(args, ps));
                            lemma_behind_subset(ctx, body, b, args.to_set(), symbols);
                        },
                    }
                },
                CallType::ByName { name, full_layout, .. } => {
                    let ps = ctx.param_map[Key::Declaration(name, full_layout)];
                    lemma_dec_after_application(ctx, args, ps, b, b_live, args.len());
                    lemma_behind_subset(ctx, body, b, args.to_set(), symbols);
                    lemma_inc_before(
                        ctx,
                        args,
                        ConsumePred::Params(ps),
                        bound,
                        b_live,
                        args.len(),
                    );
                },
            }
        },
        Expr::EmptyArray
        | Expr::Literal(_)
        | Expr::Reset(_)
        | Expr::RuntimeErrorFunction(_) => {},
    }
}

} // verus!
