//! Every reference that can be accounted for is given up exactly once.
use vstd::prelude::*;

use crate::borrow::{Key, BORROWED, OWNED};
use crate::counting::lemma_with_params_same;
use crate::erasure::{
    adapt, erase, lemma_erase_behind, lemma_erase_visit, lemma_with_lets_keeps,
    lemma_with_params_keeps,
};
use crate::insertion::{
    consumptions, consumptions_upto, flagged, free_containers, higher_order_borrows,
    higher_order_shape, initial_context, is_borrowed, is_first, leading_borrow, param_info,
    visitable, visitable_alt, visitable_in, visits, visits_alt, visits_in, visits_proc, ConsumePred,
    ContextView, HigherOrderShape,
};
use crate::inserted::{
    adapt_expr, behind, declared_body, lemma_consumptions_bound, lemma_dec_each,
    lemma_dec_for_dead_params,
};
use crate::ir::{Call, CallType, Expr, JoinPointId, Layout, ModifyRc, Param, StmtView, Symbol};
use crate::liveness::{killed, live};
use crate::liveness_laws::{law_live_vars_are_kept, lemma_live_behind, lemma_live_in, plain};
use crate::occurrence::{expr_symbols, param_symbols};
use crate::ownership::{
    aborts, balanced, call_borrows, call_takes, can_take, expr_fits, expr_takes, flags_fit, held,
    is_one_param, left, on_entry, owned_positions, owns, regular, signature, tracked_in,
};

verus! {

/// Does `x` stand at one of the first `n` positions?
pub open spec fn occurs(xs: Seq<Symbol>, x: Symbol, n: nat) -> bool {
    exists|i: int| 0 <= i < n && #[trigger] xs[i] == x
}

/// The context `ctx` in which instructions were inserted and the context `w` in which they run
/// agree on `x` as far as `x` is tracked.
spec fn agree(ctx: ContextView, w: ContextView, x: Symbol) -> bool {
    tracked_in(w, x) ==> ctx.knows(x) && ctx.vars[x] == w.vars[x]
}

/// Instructions on other variables do not matter.
proof fn lemma_behind_other<'a>(
    ctx: ContextView<'a>,
    out: StmtView<'a>,
    b: StmtView<'a>,
    symbols: Set<Symbol>,
    w: ContextView<'a>,
    x: Symbol,
    n: int,
    entry: Map<JoinPointId, int>,
)
    requires
        behind(ctx, out, b, symbols),
        !symbols.contains(x) || !tracked_in(w, x),
        balanced(w, b, x, n, entry),
    ensures
        balanced(w, out, x, n, entry),
    decreases out,
{
    if out != b {
        match out {
            StmtView::Refcounting(_, cont) => {
                lemma_behind_other(ctx, *cont, b, symbols, w, x, n, entry);
            },
            _ => {},
        }
    }
}

/// What is added to the count of `x` in front of the arguments `xs`.
spec fn added(
    ctx: ContextView,
    xs: Seq<Symbol>,
    pred: ConsumePred,
    live_after: Set<Symbol>,
    x: Symbol,
    n: nat,
) -> int {
    let incs = ctx.incs_needed(x, xs, pred, live_after);
    if occurs(xs, x, n) && incs >= 1 {
        incs
    } else {
        0
    }
}

/// The increments in front of a statement add what it takes more than is held.
proof fn lemma_inc_balanced<'a>(
    ctx: ContextView<'a>,
    xs: Seq<Symbol>,
    pred: ConsumePred,
    b: StmtView<'a>,
    live_after: Set<Symbol>,
    n: nat,
    w: ContextView<'a>,
    x: Symbol,
    k: int,
    entry: Map<JoinPointId, int>,
)
    requires
        n <= xs.len() <= u64::MAX,
        agree(ctx, w, x),
        tracked_in(w, x) ==> balanced(
            w,
            b,
            x,
            k + added(ctx, xs, pred, live_after, x, n),
            entry,
        ),
        !tracked_in(w, x) ==> balanced(w, b, x, k, entry),
        owns(w, x) && occurs(xs, x, n) ==> k >= 1,
    ensures
        balanced(w, ctx.inc_before_upto(xs, pred, b, live_after, n), x, k, entry),
    decreases n,
{
    if n > 0 {
        let y = xs[n - 1];
        let m = (n - 1) as nat;
        lemma_consumptions_bound(y, xs, pred, xs.len());
        lemma_first_or_before(xs, x, n);
        if y == x && is_first(xs, n - 1) {
            let more = added(ctx, xs, pred, live_after, x, n);
            if tracked_in(w, x) {
                lemma_inc_balanced(ctx, xs, pred, b, live_after, m, w, x, k + more, entry);
            } else {
                lemma_inc_balanced(ctx, xs, pred, b, live_after, m, w, x, k, entry);
            }
        } else {
            lemma_inc_balanced(ctx, xs, pred, b, live_after, m, w, x, k, entry);
        }
    } else {
        assert(!occurs(xs, x, 0));
    }
}

/// The decrements behind a call of a function take one reference to `x`, or none.
proof fn lemma_dec_application_balanced<'a>(
    ctx: ContextView<'a>,
    xs: Seq<Symbol>,
    ps: &[Param],
    b: StmtView<'a>,
    b_live: Set<Symbol>,
    n: nat,
    w: ContextView<'a>,
    x: Symbol,
    k: int,
    entry: Map<JoinPointId, int>,
)
    requires
        n <= xs.len(),
        agree(ctx, w, x),
        k >= 0,
        balanced(w, b, x, k, entry),
    ensures
        balanced(
            w,
            ctx.dec_after_application_upto(xs, ps, b, b_live, n),
            x,
            if owns(w, x) && !b_live.contains(x) && is_borrowed(x, xs, ConsumePred::Params(ps))
                && occurs(xs, x, n) {
                k + 1
            } else {
                k
            },
            entry,
        ),
    decreases n,
{
    if n > 0 {
        let m = (n - 1) as nat;
        lemma_dec_application_balanced(ctx, xs, ps, b, b_live, m, w, x, k, entry);
        lemma_first_or_before(xs, x, n);
    } else {
        assert(!occurs(xs, x, 0));
    }
}

/// The last of `n` positions holds `x` for the first time, or it changes nothing.
pub proof fn lemma_first_or_before(xs: Seq<Symbol>, x: Symbol, n: nat)
    requires
        0 < n <= xs.len(),
    ensures
        xs[n - 1] == x && is_first(xs, n - 1) ==> occurs(xs, x, n) && !occurs(
            xs,
            x,
            (n - 1) as nat,
        ),
        !(xs[n - 1] == x && is_first(xs, n - 1)) ==> occurs(xs, x, n) == occurs(
            xs,
            x,
            (n - 1) as nat,
        ),
{
    let m = (n - 1) as nat;
    if xs[n - 1] == x && is_first(xs, n - 1) {
        assert(occurs(xs, x, n));
    } else if occurs(xs, x, n) {
        let i = choose|i: int| 0 <= i < n && #[trigger] xs[i] == x;
        if i == n - 1 {
            let j = choose|j: int| 0 <= j < n - 1 && #[trigger] xs[j] == x;
            assert(xs[j] == x);
        }
        assert(occurs(xs, x, m));
    }
}

/// Does `x` stand for the first time at one of the first `n` positions, and is that one
/// borrowed?
pub open spec fn first_is_borrowed(xs: Seq<Symbol>, flags: Seq<bool>, x: Symbol, n: nat) -> bool {
    exists|i: int|
        0 <= i < n && #[trigger] xs[i] == x && is_first(xs, i) && flags[i] == BORROWED
}

/// The decrements behind a built-in or foreign call take one reference to `x`, or none.
proof fn lemma_dec_lowlevel_balanced<'a>(
    ctx: ContextView<'a>,
    xs: Seq<Symbol>,
    flags: Seq<bool>,
    b: StmtView<'a>,
    b_live: Set<Symbol>,
    n: nat,
    w: ContextView<'a>,
    x: Symbol,
    k: int,
    entry: Map<JoinPointId, int>,
)
    requires
        n <= flagged(xs, flags),
        agree(ctx, w, x),
        k >= 0,
        balanced(w, b, x, k, entry),
    ensures
        balanced(
            w,
            ctx.dec_after_lowlevel_upto(xs, flags, b, b_live, n),
            x,
            if owns(w, x) && !b_live.contains(x) && first_is_borrowed(xs, flags, x, n) {
                k + 1
            } else {
                k
            },
            entry,
        ),
    decreases n,
{
    if n > 0 {
        let m = (n - 1) as nat;
        lemma_dec_lowlevel_balanced(ctx, xs, flags, b, b_live, m, w, x, k, entry);
        if xs[n - 1] == x && is_first(xs, n - 1) && flags[n - 1] == BORROWED {
            assert(first_is_borrowed(xs, flags, x, n));
            assert(!first_is_borrowed(xs, flags, x, m));
        } else {
            assert(first_is_borrowed(xs, flags, x, n) == first_is_borrowed(xs, flags, x, m));
        }
    } else {
        assert(!first_is_borrowed(xs, flags, x, 0));
    }
}

/// Freeing the containers takes one reference to `x` for each of them that is `x` and owned.
proof fn lemma_free_containers_balanced<'a>(
    args: Seq<Symbol>,
    shape: HigherOrderShape,
    ps: Seq<Param>,
    b: StmtView<'a>,
    n: nat,
    w: ContextView<'a>,
    x: Symbol,
    k: int,
    entry: Map<JoinPointId, int>,
)
    requires
        n <= shape.leading.len(),
        k >= 0,
        balanced(w, b, x, k, entry),
    ensures
        balanced(
            w,
            free_containers(args, shape, ps, b, n),
            x,
            if tracked_in(w, x) {
                k + owned_positions(x, args, higher_order_borrows(shape, ps), 0, n)
            } else {
                k
            },
            entry,
        ),
    decreases n,
{
    if n > 0 {
        let m = (n - 1) as nat;
        lemma_free_containers_balanced(args, shape, ps, b, m, w, x, k, entry);
        assert(higher_order_borrows(shape, ps)[n - 1] == leading_borrow(
            shape.leading[n - 1],
            ps,
        ));
    }
}

/// The decrements at the start of an alternative take one reference to `x` where it is among
/// them.
proof fn lemma_dec_each_balanced<'a>(
    ctx: ContextView<'a>,
    order: Seq<Symbol>,
    b: StmtView<'a>,
    w: ContextView<'a>,
    x: Symbol,
    k: int,
    entry: Map<JoinPointId, int>,
)
    requires
        order.no_duplicates(),
        agree(ctx, w, x),
        k >= 0,
        balanced(w, b, x, k, entry),
    ensures
        balanced(
            w,
            ctx.dec_each(order, b),
            x,
            if tracked_in(w, x) && order.contains(x) {
                k + 1
            } else {
                k
            },
            entry,
        ),
    decreases order.len(),
{
    if order.len() > 0 {
        let init = order.drop_last();
        lemma_dec_each_balanced(ctx, init, b, w, x, k, entry);
        if order.last() == x {
            assert(!init.contains(x));
            assert(order.contains(x)) by {
                assert(order[order.len() - 1] == x);
            }
        } else {
            assert(order.contains(x) == init.contains(x)) by {
                if order.contains(x) {
                    let i = choose|i: int| 0 <= i < order.len() && order[i] == x;
                    assert(init[i] == x);
                }
                if init.contains(x) {
                    let i = choose|i: int| 0 <= i < init.len() && init[i] == x;
                    assert(order[i] == x);
                }
            }
        }
    }
}

/// The decrements for dead parameters take one reference to `x` where it is one of them.
proof fn lemma_dec_params_balanced<'a>(
    ctx: ContextView<'a>,
    ps: Seq<Param>,
    b: StmtView<'a>,
    b_live: Set<Symbol>,
    w: ContextView<'a>,
    x: Symbol,
    k: int,
    entry: Map<JoinPointId, int>,
)
    requires
        is_one_param(ps, x),
        agree(ctx, w, x),
        k >= 0,
        balanced(w, b, x, k, entry),
    ensures
        balanced(
            w,
            ctx.dec_for_dead_params(ps, b, b_live),
            x,
            if tracked_in(w, x) && exists|i: int|
                0 <= i < ps.len() && #[trigger] ps[i].symbol == x && ctx.is_dead_param(
                    ps[i],
                    b_live,
                ) {
                k + 1
            } else {
                k
            },
            entry,
        ),
    decreases ps.len(),
{
    if ps.len() > 0 {
        let init = ps.drop_last();
        assert forall|i: int, j: int|
            0 <= i < j < init.len() && (#[trigger] init[i]).symbol == x implies (
        #[trigger] init[j]).symbol != x by {
            assert(ps[i].symbol == x);
            assert(ps[j].symbol != x);
        }
        lemma_dec_params_balanced(ctx, init, b, b_live, w, x, k, entry);
        if ps.last().symbol == x {
            assert(forall|i: int| 0 <= i < init.len() ==> (#[trigger] init[i]).symbol != x) by {
                assert forall|i: int| 0 <= i < init.len() implies (#[trigger] init[i]).symbol
                    != x by {
                    assert(ps[i] == init[i]);
                    assert(ps[ps.len() - 1].symbol == x);
                }
            }
            assert(ps[ps.len() - 1].symbol == x);
        } else {
            assert(forall|i: int| 0 <= i < init.len() ==> ps[i] == #[trigger] init[i]);
            assert(forall|i: int| 0 <= i < init.len() ==> init[i] == #[trigger] ps[i]);
        }
    }
}

/// A variable that stays in scope keeps what is known of it.
proof fn lemma_regular_keeps<'a>(
    w: ContextView<'a>,
    stmt: StmtView<'a>,
    x: Symbol,
    entry: Map<JoinPointId, int>,
)
    requires
        regular(w, stmt, x, entry),
        tracked_in(w, x),
    ensures
        w.with_lets(stmt).knows(x),
        w.with_lets(stmt).vars[x] == w.vars[x],
    decreases stmt,
{
    match stmt {
        StmtView::Let(symbol, expr, layout, cont) => {
            lemma_regular_keeps(w.with_let(symbol, layout, expr), *cont, x, entry);
        },
        _ => {},
    }
}

/// A variable is consumed where it stands in a position that is consumed, and nowhere else.
pub proof fn lemma_consumptions_positive(x: Symbol, xs: Seq<Symbol>, pred: ConsumePred, n: nat)
    ensures
        consumptions_upto(x, xs, pred, n) >= 1 <==> exists|i: int|
            0 <= i < n && #[trigger] xs[i] == x && pred.consumes(i),
    decreases n,
{
    if n > 0 {
        lemma_consumptions_positive(x, xs, pred, (n - 1) as nat);
    }
}

/// There are owned positions where one can be found.
pub proof fn lemma_owned_positions_positive(
    x: Symbol,
    xs: Seq<Symbol>,
    flags: Seq<bool>,
    lo: nat,
    hi: nat,
)
    ensures
        owned_positions(x, xs, flags, lo, hi) >= 1 <==> exists|i: int|
            lo <= i < hi && #[trigger] xs[i] == x && flags[i] == OWNED,
    decreases hi,
{
    if hi > lo {
        lemma_owned_positions_positive(x, xs, flags, lo, (hi - 1) as nat);
    }
}

/// The owned positions of two stretches add up.
proof fn lemma_owned_positions_split(
    x: Symbol,
    xs: Seq<Symbol>,
    flags: Seq<bool>,
    mid: nat,
    hi: nat,
)
    requires
        mid <= hi,
    ensures
        owned_positions(x, xs, flags, 0, hi) == owned_positions(x, xs, flags, 0, mid)
            + owned_positions(x, xs, flags, mid, hi),
    decreases hi,
{
    if hi > mid {
        lemma_owned_positions_split(x, xs, flags, mid, (hi - 1) as nat);
    }
}

/// The references to `x` that are held behind a built-in or foreign call: one where `x` is
/// live, and one where nothing gave up a reference that is not needed any more.
spec fn kept(
    owned: bool,
    x: Symbol,
    xs: Seq<Symbol>,
    flags: Seq<bool>,
    live_after: Set<Symbol>,
) -> int {
    let hi = flagged(xs, flags);
    let forgotten = xs.contains(x) && owned_positions(x, xs, flags, 0, hi) == 0
        && !first_is_borrowed(xs, flags, x, hi);
    if owned && (live_after.contains(x) || forgotten) {
        1
    } else {
        0
    }
}

/// The references to `x` before a built-in or foreign call that fits suffice for it, and those
/// behind it are what is left. Some are left that are not needed any more only where what
/// follows aborts.
proof fn lemma_flags_fit(
    owned: bool,
    x: Symbol,
    xs: Seq<Symbol>,
    flags: Seq<bool>,
    containers: nat,
    live_after: Set<Symbol>,
    aborts: bool,
)
    requires
        flags_fit(owned, x, xs, flags, live_after, aborts),
        containers <= flagged(xs, flags),
    ensures
        ({
            let before: int = if owned && (live_after.contains(x) || xs.contains(x)) {
                1
            } else {
                0
            };
            let after = kept(owned, x, xs, flags, live_after);
            let taken = owned_positions(x, xs, flags, containers, flagged(xs, flags));
            let freed = owned_positions(x, xs, flags, 0, containers);
            let dropped: int = if owned && !live_after.contains(x) && first_is_borrowed(
                xs,
                flags,
                x,
                flagged(xs, flags),
            ) {
                1
            } else {
                0
            };
            let lent = exists|i: int|
                0 <= i < xs.len() && #[trigger] xs[i] == x && !(containers <= i < flagged(
                    xs,
                    flags,
                ) && flags[i] == OWNED);
            &&& before == after + taken + freed + dropped
            &&& after == 0 || (owned && live_after.contains(x)) || (owned && aborts)
            &&& before >= taken + if lent && owned {
                1int
            } else {
                0int
            }
        }),
{
    let hi = flagged(xs, flags);
    lemma_owned_positions_split(x, xs, flags, containers, hi);
    lemma_owned_positions_positive(x, xs, flags, 0, hi);
    lemma_owned_positions_positive(x, xs, flags, 0, containers);
    lemma_owned_positions_positive(x, xs, flags, containers, hi);
    if owned_positions(x, xs, flags, 0, hi) == 0 {
        if xs.contains(x) {
            let i = choose|i: int| 0 <= i < xs.len() && xs[i] == x;
            lemma_has_first(xs, x, i);
            let f = choose|f: int| 0 <= f < xs.len() && #[trigger] xs[f] == x && is_first(xs, f);
            if owned && !live_after.contains(x) && !aborts {
                assert(f < flags.len());
                assert(first_is_borrowed(xs, flags, x, hi));
            }
        } else {
            assert(!first_is_borrowed(xs, flags, x, hi));
        }
    } else {
        let i = choose|i: int| 0 <= i < hi && #[trigger] xs[i] == x && flags[i] == OWNED;
        assert(xs.contains(x));
        assert(!first_is_borrowed(xs, flags, x, hi));
    }
}

/// What stands somewhere stands somewhere for the first time.
proof fn lemma_has_first(xs: Seq<Symbol>, x: Symbol, i: int)
    requires
        0 <= i < xs.len(),
        xs[i] == x,
    ensures
        exists|f: int| 0 <= f < xs.len() && #[trigger] xs[f] == x && is_first(xs, f),
    decreases i,
{
    if !is_first(xs, i) {
        let j = choose|j: int| 0 <= j < i && #[trigger] xs[j] == x;
        lemma_has_first(xs, x, j);
    }
}

/// What is known where `let z = v` is worked on, in front of a statement that is balanced.
spec fn let_ready<'a>(
    ctx: ContextView<'a>,
    w: ContextView<'a>,
    z: Symbol,
    v: Expr<'a>,
    l: Layout,
    b: StmtView<'a>,
    b_live: Set<Symbol>,
    x: Symbol,
    entry: Map<JoinPointId, int>,
) -> bool {
    let inner = w.with_let(z, l, v);
    &&& ctx.param_map == w.param_map
    &&& agree(ctx, w, x)
    &&& agree(ctx, inner, x)
    &&& ctx.declare_defined(z, v)
    &&& !expr_symbols(v).contains(z)
    &&& tracked_in(w, x) ==> z != x && expr_fits(w, v, x, b_live, aborts(b))
    &&& balanced(inner, b, x, held_behind(w, z, v, l, b_live, x), entry)
}

/// The references to `x` that are held behind `let z = v`.
spec fn held_behind<'a>(
    w: ContextView<'a>,
    z: Symbol,
    v: Expr<'a>,
    l: Layout,
    b_live: Set<Symbol>,
    x: Symbol,
) -> int {
    let inner = w.with_let(z, l, v);
    let flags = match v {
        Expr::Call(call) => signature(w, call),
        _ => None,
    };
    if z == x {
        if owns(inner, x) {
            1
        } else {
            0
        }
    } else {
        match flags {
            Some((flags, _)) => kept(owns(w, x), x, v->Call_0.arguments@, flags, b_live),
            None => held(inner, b_live, x),
        }
    }
}

/// `let z = v` where `v` consumes all of `ys`.
proof fn lemma_consuming_balanced<'a>(
    ctx: ContextView<'a>,
    w: ContextView<'a>,
    z: Symbol,
    v: Expr<'a>,
    l: Layout,
    ys: Seq<Symbol>,
    b: StmtView<'a>,
    b_live: Set<Symbol>,
    x: Symbol,
    entry: Map<JoinPointId, int>,
)
    requires
        let_ready(ctx, w, z, v, l, b, b_live, x, entry),
        ys.len() <= u64::MAX,
        match v {
            Expr::Tag { arguments, .. } => ys == arguments@,
            Expr::Struct(arguments) => ys == arguments@,
            Expr::Array { elems, .. } => ys == elems@,
            Expr::Reuse { arguments, .. } => ys == arguments@,
            _ => false,
        },
    ensures
        balanced(
            w,
            ctx.declare(z, v, l, b, b_live),
            x,
            held(w, b_live.union(expr_symbols(v)).remove(z), x),
            entry,
        ),
{
    let bound = StmtView::Let(z, v, l, Box::new(b));
    let before = held(w, b_live.union(expr_symbols(v)).remove(z), x);
    let more = added(ctx, ys, ConsumePred::All, b_live, x, ys.len());
    lemma_consumptions_positive(x, ys, ConsumePred::All, ys.len());
    assert(!is_borrowed(x, ys, ConsumePred::All));
    assert(occurs(ys, x, ys.len()) == ys.to_set().contains(x));
    assert(occurs(ys, x, ys.len()) == (consumptions(x, ys, ConsumePred::All) >= 1));
    if tracked_in(w, x) {
        assert(balanced(w, bound, x, before + more, entry));
    } else {
        assert(balanced(w, bound, x, before, entry));
    }
    lemma_inc_balanced(
        ctx,
        ys,
        ConsumePred::All,
        bound,
        b_live,
        ys.len(),
        w,
        x,
        before,
        entry,
    );
}

/// `let z = v` where `v` is a part of a structure.
proof fn lemma_access_balanced<'a>(
    ctx: ContextView<'a>,
    w: ContextView<'a>,
    z: Symbol,
    v: Expr<'a>,
    l: Layout,
    b: StmtView<'a>,
    b_live: Set<Symbol>,
    x: Symbol,
    entry: Map<JoinPointId, int>,
)
    requires
        let_ready(ctx, w, z, v, l, b, b_live, x, entry),
        v is AccessAtIndex,
        z == x && tracked_in(w.with_let(z, l, v), x) ==> {
            let structure = v->structure;
            w.knows(structure) && ctx.vars[structure] == w.vars[structure]
        },
    ensures
        balanced(
            w,
            ctx.declare(z, v, l, b, b_live),
            x,
            held(w, b_live.union(expr_symbols(v)).remove(z), x),
            entry,
        ),
{
    let inner = w.with_let(z, l, v);
    let structure = v->structure;
    assert(expr_symbols(v).contains(structure));
    let dropped = ctx.dec_if_needed(structure, b, b_live);
    reveal_with_fuel(balanced, 3);
    if x == z {
        assert(balanced(inner, dropped, x, held_behind(w, z, v, l, b_live, x), entry));
    } else if x == structure && owns(w, x) {
        assert(balanced(inner, dropped, x, 1, entry));
    } else {
        assert(balanced(inner, dropped, x, held(inner, b_live, x), entry));
    }
}

/// `let z = v` where `v` is a call of a function of the program.
proof fn lemma_application_balanced<'a>(
    ctx: ContextView<'a>,
    w: ContextView<'a>,
    z: Symbol,
    call: Call<'a>,
    l: Layout,
    b: StmtView<'a>,
    b_live: Set<Symbol>,
    x: Symbol,
    entry: Map<JoinPointId, int>,
)
    requires
        let_ready(ctx, w, z, Expr::Call(call), l, b, b_live, x, entry),
        call.call_type is ByName,
        call.arguments@.len() <= u64::MAX,
    ensures
        balanced(
            w,
            ctx.declare(z, Expr::Call(call), l, b, b_live),
            x,
            held(w, b_live.union(call.arguments@.to_set()).remove(z), x),
            entry,
        ),
{
    let v = Expr::Call(call);
    let inner = w.with_let(z, l, v);
    let xs = call.arguments@;
    let ps = ctx.param_map[Key::Declaration(
        call.call_type->ByName_name,
        call.call_type->full_layout,
    )];
    let pred = ConsumePred::Params(ps);
    let body = ctx.dec_after_application(xs, ps, b, b_live);
    let bound = StmtView::Let(z, v, l, Box::new(body));
    let before = held(w, b_live.union(xs.to_set()).remove(z), x);
    let more = added(ctx, xs, pred, b_live, x, xs.len());
    let after = held_behind(w, z, v, l, b_live, x);
    lemma_consumptions_positive(x, xs, pred, xs.len());
    lemma_dec_application_balanced(ctx, xs, ps, b, b_live, xs.len(), inner, x, after, entry);
    assert(occurs(xs, x, xs.len()) == xs.to_set().contains(x));
    assert(is_borrowed(x, xs, pred) ==> occurs(xs, x, xs.len()));
    assert(consumptions(x, xs, pred) >= 1 ==> occurs(xs, x, xs.len()));
    if tracked_in(w, x) {
        assert(balanced(w, bound, x, before + more, entry));
    } else {
        assert(balanced(w, bound, x, before, entry));
    }
    lemma_inc_balanced(ctx, xs, pred, bound, b_live, xs.len(), w, x, before, entry);
}

/// The references to `x` that the decrements behind a built-in or foreign call take.
spec fn dropped(
    ctx: ContextView,
    xs: Seq<Symbol>,
    flags: Seq<bool>,
    b_live: Set<Symbol>,
    x: Symbol,
) -> int {
    if owns(ctx, x) && !b_live.contains(x) && first_is_borrowed(xs, flags, x, flagged(xs, flags)) {
        1
    } else {
        0
    }
}

/// The instructions behind a built-in or foreign call.
proof fn lemma_flagged_body<'a>(
    ctx: ContextView<'a>,
    w: ContextView<'a>,
    z: Symbol,
    call: Call<'a>,
    b: StmtView<'a>,
    b_live: Set<Symbol>,
    x: Symbol,
    k: int,
    entry: Map<JoinPointId, int>,
)
    requires
        ctx.declare_defined(z, Expr::Call(call)),
        agree(ctx, w, x),
        k >= 0,
        balanced(w, b, x, k, entry),
        !(call.call_type is ByName),
    ensures
        ({
            let xs = call.arguments@;
            let (flags, containers) = signature(ctx, call)->0;
            &&& containers <= flagged(xs, flags)
            &&& balanced(
                w,
                declared_body(ctx, z, Expr::Call(call), b, b_live),
                x,
                k + dropped(w, xs, flags, b_live, x) + if tracked_in(w, x) {
                    owned_positions(x, xs, flags, 0, containers) as int
                } else {
                    0
                },
                entry,
            )
        }),
{
    let xs = call.arguments@;
    let (flags, containers) = signature(ctx, call)->0;
    let hi = flagged(xs, flags);
    lemma_dec_lowlevel_balanced(ctx, xs, flags, b, b_live, hi, w, x, k, entry);
    let mid = ctx.dec_after_lowlevel(xs, flags, b, b_live);
    let d = dropped(w, xs, flags, b_live, x);
    assert(balanced(w, mid, x, k + d, entry));
    match call.call_type {
        CallType::HigherOrderLowLevel { op, closure_layout, .. } => {
            if let Some(shape) = higher_order_shape(op.op) {
                let ps = ctx.function_params(xs, shape, closure_layout)@;
                lemma_free_containers_balanced(
                    xs,
                    shape,
                    ps,
                    mid,
                    shape.containers,
                    w,
                    x,
                    k + d,
                    entry,
                );
            }
        },
        _ => {},
    }
}

/// `let z = v` where `v` is a built-in or foreign call.
proof fn lemma_flagged_balanced<'a>(
    ctx: ContextView<'a>,
    w: ContextView<'a>,
    z: Symbol,
    call: Call<'a>,
    l: Layout,
    b: StmtView<'a>,
    b_live: Set<Symbol>,
    x: Symbol,
    entry: Map<JoinPointId, int>,
)
    requires
        let_ready(ctx, w, z, Expr::Call(call), l, b, b_live, x, entry),
        !(call.call_type is ByName),
    ensures
        balanced(
            w,
            ctx.declare(z, Expr::Call(call), l, b, b_live),
            x,
            held(w, b_live.union(call.arguments@.to_set()).remove(z), x),
            entry,
        ),
{
    let v = Expr::Call(call);
    let inner = w.with_let(z, l, v);
    let xs = call.arguments@;
    let before = held(w, b_live.union(xs.to_set()).remove(z), x);
    let after = held_behind(w, z, v, l, b_live, x);
    let (flags, containers) = signature(ctx, call)->0;
    let body = declared_body(ctx, z, v, b, b_live);
    let out = StmtView::Let(z, adapt_expr(ctx.param_map, v), l, Box::new(body));
    lemma_flagged_body(ctx, inner, z, call, b, b_live, x, after, entry);
    lemma_same_signature(ctx, w, call);
    let taken = call_takes(w, call, x);
    let freed = owned_positions(x, xs, flags, 0, containers);
    assert(xs.contains(x) == xs.to_set().contains(x));
    if tracked_in(w, x) {
        lemma_flags_fit(owns(w, x), x, xs, flags, containers, b_live, aborts(b));
        assert(before == after + taken + freed + dropped(inner, xs, flags, b_live, x));
        assert(can_take(w, x, before, taken, call_borrows(w, call, x)));
        assert(balanced(inner, body, x, left(w, x, before, taken), entry));
    } else if z == x {
        lemma_owned_positions_positive(x, xs, flags, 0, containers);
        assert(freed == 0);
        assert(dropped(inner, xs, flags, b_live, x) == 0);
        assert(balanced(inner, body, x, after, entry));
    } else {
        assert(balanced(inner, body, x, 0, entry));
    }
    assert(balanced(w, out, x, before, entry));
}

/// The flags of a call are those of the call that stands behind the pass.
proof fn lemma_same_signature<'a>(ctx: ContextView<'a>, w: ContextView<'a>, call: Call<'a>)
    requires
        ctx.param_map == w.param_map,
        !(call.call_type is ByName),
    ensures
        signature(w, call) == signature(ctx, call),
        adapt_expr(ctx.param_map, Expr::Call(call)) matches Expr::Call(adapted) && {
            &&& adapted.arguments == call.arguments
            &&& !(adapted.call_type is ByName)
            &&& signature(w, adapted) == signature(w, call)
        },
{
}

/// A variable that stays in scope is not taken out of a set of live variables.
proof fn lemma_regular_not_killed<'a>(
    w: ContextView<'a>,
    stmt: StmtView<'a>,
    x: Symbol,
    entry: Map<JoinPointId, int>,
)
    requires
        regular(w, stmt, x, entry),
        tracked_in(w, x),
    ensures
        !killed(stmt).contains(x),
    decreases stmt,
{
    match stmt {
        StmtView::Let(symbol, expr, layout, cont) => {
            lemma_regular_not_killed(w.with_let(symbol, layout, expr), *cont, x, entry);
        },
        StmtView::Invoke { symbol, call, layout, pass, fail } => {
            lemma_regular_not_killed(w.with_invoke(symbol, layout, call), *pass, x, entry);
            lemma_regular_not_killed(w, *fail, x, entry);
        },
        StmtView::Refcounting(_, cont) => {
            lemma_regular_not_killed(w, *cont, x, entry);
        },
        StmtView::Join { id, continuation, remainder, .. } => {
            let ps = w.join_params(id)@;
            let body_live = live(*continuation, w.jp_live_vars).difference(param_symbols(ps));
            lemma_regular_not_killed(
                w.with_join_point(id, body_live),
                *remainder,
                x,
                entry.insert(id, held(w, body_live, x)),
            );
        },
        _ => {},
    }
}

/// No decrement comes behind a call of a function while all arguments are live.
proof fn lemma_no_dec_application<'a>(
    ctx: ContextView<'a>,
    xs: Seq<Symbol>,
    ps: &[Param],
    b: StmtView<'a>,
    b_live: Set<Symbol>,
    n: nat,
)
    requires
        n <= xs.len(),
        xs.to_set().subset_of(b_live),
    ensures
        ctx.dec_after_application_upto(xs, ps, b, b_live, n) == b,
    decreases n,
{
    if n > 0 {
        lemma_no_dec_application(ctx, xs, ps, b, b_live, (n - 1) as nat);
        assert(xs.to_set().contains(xs[n - 1]));
    }
}

/// No decrement comes behind a built-in or foreign call while all arguments are live.
proof fn lemma_no_dec_lowlevel<'a>(
    ctx: ContextView<'a>,
    xs: Seq<Symbol>,
    flags: Seq<bool>,
    b: StmtView<'a>,
    b_live: Set<Symbol>,
    n: nat,
)
    requires
        n <= flagged(xs, flags),
        xs.to_set().subset_of(b_live),
    ensures
        ctx.dec_after_lowlevel_upto(xs, flags, b, b_live, n) == b,
    decreases n,
{
    if n > 0 {
        lemma_no_dec_lowlevel(ctx, xs, flags, b, b_live, (n - 1) as nat);
        assert(xs.to_set().contains(xs[n - 1]));
    }
}

/// The arguments of an `invoke` are live before it, so no decrement comes in front of it.
pub proof fn law_nothing_before_invoke<'a>(
    ctx: ContextView<'a>,
    call: Call<'a>,
    stmt: StmtView<'a>,
    invoke_live: Set<Symbol>,
)
    requires
        call.arguments@.to_set().subset_of(invoke_live),
    ensures
        ctx.before_invoke(call, stmt, invoke_live) == stmt,
{
    let xs = call.arguments@;
    match call.call_type {
        CallType::LowLevel { op } => {
            let flags = op.borrow_signature@;
            lemma_no_dec_lowlevel(ctx, xs, flags, stmt, invoke_live, flagged(xs, flags));
        },
        CallType::Foreign { borrow_signature, .. } => {
            let flags = borrow_signature@;
            lemma_no_dec_lowlevel(ctx, xs, flags, stmt, invoke_live, flagged(xs, flags));
        },
        CallType::ByName { name, full_layout, .. } => {
            let ps = ctx.param_map[Key::Declaration(name, full_layout)];
            lemma_no_dec_application(ctx, xs, ps, stmt, invoke_live, xs.len());
        },
        CallType::HigherOrderLowLevel { .. } => {},
    }
}

/// What is known of a variable in a context with parameters.
proof fn lemma_with_params_vars<'a>(ctx: ContextView<'a>, ps: Seq<Param>, x: Symbol)
    ensures
        !param_symbols(ps).contains(x) ==> {
            &&& ctx.with_params(ps).knows(x) == ctx.knows(x)
            &&& ctx.with_params(ps).vars[x] == ctx.vars[x]
        },
        param_symbols(ps).contains(x) ==> {
            &&& ctx.with_params(ps).knows(x)
            &&& exists|i: int|
                0 <= i < ps.len() && #[trigger] ps[i].symbol == x && ctx.with_params(ps).vars[x]
                    == param_info(ps[i])
        },
    decreases ps.len(),
{
    if ps.len() > 0 {
        let init = ps.drop_last();
        lemma_with_params_vars(ctx, init, x);
        assert(ps[ps.len() - 1] == ps.last());
        assert(forall|i: int| 0 <= i < init.len() ==> ps[i] == #[trigger] init[i]);
        if ps.last().symbol != x {
            if param_symbols(ps).contains(x) {
                let i = choose|i: int| 0 <= i < ps.len() && #[trigger] ps[i].symbol == x;
                assert(init[i].symbol == x);
                let j = choose|j: int|
                    0 <= j < init.len() && #[trigger] init[j].symbol == x && ctx.with_params(
                        init,
                    ).vars[x] == param_info(init[j]);
                assert(ps[j].symbol == x);
            }
            if param_symbols(init).contains(x) {
                let i = choose|i: int| 0 <= i < init.len() && #[trigger] init[i].symbol == x;
                assert(ps[i].symbol == x);
            }
        }
    }
}

/// Instructions do not change whether a statement aborts.
proof fn lemma_aborts_erase(stmt: StmtView)
    ensures
        aborts(erase(stmt)) == aborts(stmt),
    decreases stmt,
{
    match stmt {
        StmtView::Let(_, _, _, cont) => {
            lemma_aborts_erase(*cont);
        },
        StmtView::Invoke { pass, fail, .. } => {
            lemma_aborts_erase(*pass);
            lemma_aborts_erase(*fail);
        },
        StmtView::Switch { branches, default_branch, .. } => {
            let bs = erase(stmt)->Switch_branches;
            assert forall|i: int| 0 <= i < branches.len() implies aborts((#[trigger] bs[i]).2)
                == aborts(branches[i].2) by {
                lemma_aborts_erase(branches[i].2);
            }
            assert(forall|i: int| 0 <= i < branches.len() ==> aborts((#[trigger] branches[i]).2)
                == aborts(bs[i].2));
            lemma_aborts_erase(*default_branch.1);
        },
        StmtView::Refcounting(_, cont) => {
            lemma_aborts_erase(*cont);
        },
        StmtView::Join { remainder, .. } => {
            lemma_aborts_erase(*remainder);
        },
        _ => {},
    }
}

/// What the pass changes besides inserting does not change whether a statement aborts.
proof fn lemma_aborts_adapt<'a>(param_map: Map<Key, &'a [Param]>, stmt: StmtView<'a>)
    ensures
        aborts(adapt(param_map, stmt)) == aborts(stmt),
    decreases stmt,
{
    match stmt {
        StmtView::Let(_, _, _, cont) => {
            lemma_aborts_adapt(param_map, *cont);
        },
        StmtView::Invoke { pass, fail, .. } => {
            lemma_aborts_adapt(param_map, *pass);
            lemma_aborts_adapt(param_map, *fail);
        },
        StmtView::Switch { branches, default_branch, .. } => {
            let bs = adapt(param_map, stmt)->Switch_branches;
            assert forall|i: int| 0 <= i < branches.len() implies aborts((#[trigger] bs[i]).2)
                == aborts(branches[i].2) by {
                lemma_aborts_adapt(param_map, branches[i].2);
            }
            assert(forall|i: int| 0 <= i < branches.len() ==> aborts((#[trigger] branches[i]).2)
                == aborts(bs[i].2));
            lemma_aborts_adapt(param_map, *default_branch.1);
        },
        StmtView::Refcounting(_, cont) => {
            lemma_aborts_erase(*cont);
        },
        StmtView::Join { remainder, .. } => {
            lemma_aborts_adapt(param_map, *remainder);
        },
        _ => {},
    }
}

/// A statement aborts behind the pass if it did before.
proof fn lemma_aborts_kept<'a>(
    ctx: ContextView<'a>,
    stmt: StmtView<'a>,
    out: StmtView<'a>,
    live_vars: Set<Symbol>,
)
    requires
        visitable_in(ctx, stmt),
        visits_in(ctx, stmt, out, live_vars),
    ensures
        aborts(out) == aborts(stmt),
{
    lemma_erase_visit(ctx, stmt, out, live_vars);
    lemma_aborts_erase(out);
    lemma_aborts_adapt(ctx.param_map, stmt);
}

/// An alternative aborts behind the pass if it did before.
proof fn lemma_aborts_alt<'a>(
    ctx: ContextView<'a>,
    case_live: Set<Symbol>,
    stmt: StmtView<'a>,
    out: StmtView<'a>,
)
    requires
        visitable_alt(ctx, case_live, stmt),
        visits_alt(ctx, case_live, stmt, out),
    ensures
        aborts(out) == aborts(stmt),
{
    let (b, b_live) = choose|b: StmtView<'a>, b_live: Set<Symbol>|
        visits(ctx, stmt, b, b_live) && #[trigger] ctx.is_dec_for_alt(case_live, b_live, b, out);
    let order = choose|order: Seq<Symbol>| #[trigger]
        ctx.dec_each(order, b) == out && order.no_duplicates() && order.to_set()
            == ctx.dead_in_alt(case_live, b_live);
    lemma_dec_each(ctx, order, b);
    lemma_erase_behind(ctx, out, b, order.to_set());
    lemma_aborts_erase(out);
    lemma_aborts_erase(b);
    lemma_aborts_kept(ctx.with_lets(stmt), stmt, b, b_live);
}

/// A statement that aborts does not mind more references.
proof fn lemma_aborts_more<'a>(
    w: ContextView<'a>,
    stmt: StmtView<'a>,
    x: Symbol,
    n: int,
    more: int,
    entry: Map<JoinPointId, int>,
)
    requires
        aborts(stmt),
        balanced(w, stmt, x, n, entry),
        n <= more,
    ensures
        balanced(w, stmt, x, more, entry),
    decreases stmt,
{
    match stmt {
        StmtView::Let(symbol, expr, layout, cont) => {
            let taken = expr_takes(w, expr, x);
            if symbol != x {
                let inner = w.with_let(symbol, layout, expr);
                lemma_aborts_more(
                    inner,
                    *cont,
                    x,
                    left(w, x, n, taken),
                    left(w, x, more, taken),
                    entry,
                );
            }
        },
        StmtView::Invoke { symbol, call, layout, pass, fail } => {
            let taken = call_takes(w, call, x);
            let before = left(w, x, n, taken);
            let after = left(w, x, more, taken);
            if symbol != x {
                let inner = w.with_invoke(symbol, layout, call);
                lemma_aborts_more(inner, *pass, x, before, after, entry);
            }
            lemma_aborts_more(w, *fail, x, before, after, entry);
        },
        StmtView::Switch { branches, default_branch, .. } => {
            assert forall|i: int| 0 <= i < branches.len() implies balanced(
                w,
                (#[trigger] branches[i]).2,
                x,
                more,
                entry,
            ) by {
                lemma_aborts_more(w, branches[i].2, x, n, more, entry);
            }
            lemma_aborts_more(w, *default_branch.1, x, n, more, entry);
        },
        StmtView::Refcounting(modify, cont) => {
            if modify.symbol() != x || !tracked_in(w, x) {
                lemma_aborts_more(w, *cont, x, n, more, entry);
            } else {
                match modify {
                    ModifyRc::Inc(_, k) => {
                        lemma_aborts_more(w, *cont, x, n + k, more + k, entry);
                    },
                    _ => {
                        lemma_aborts_more(w, *cont, x, n - 1, more - 1, entry);
                    },
                }
            }
        },
        StmtView::Join { id, parameters, remainder, .. } => {
            if balanced(w, *remainder, x, n, entry.insert(id, 0)) {
                lemma_aborts_more(w, *remainder, x, n, more, entry.insert(id, 0));
            }
            if balanced(w, *remainder, x, n, entry.insert(id, 1)) {
                lemma_aborts_more(w, *remainder, x, n, more, entry.insert(id, 1));
            }
        },
        _ => {},
    }
}

/// More references are held behind a `let` than are needed only where what follows aborts.
proof fn lemma_held_behind<'a>(
    w: ContextView<'a>,
    ctx: ContextView<'a>,
    z: Symbol,
    v: Expr<'a>,
    l: Layout,
    b_live: Set<Symbol>,
    x: Symbol,
    aborts: bool,
)
    requires
        ctx.param_map == w.param_map,
        ctx.declare_defined(z, v),
        tracked_in(w, x) ==> z != x && expr_fits(w, v, x, b_live, aborts),
        z == x && owns(w.with_let(z, l, v), x) ==> b_live.contains(x) || aborts,
        held_behind(w, z, v, l, b_live, x) != held(w.with_let(z, l, v), b_live, x),
    ensures
        aborts,
        held(w.with_let(z, l, v), b_live, x) <= held_behind(w, z, v, l, b_live, x),
{
    if z != x {
        if let Expr::Call(call) = v {
            if let Some((flags, containers)) = signature(w, call) {
                if tracked_in(w, x) {
                    lemma_flags_fit(owns(w, x), x, call.arguments@, flags, 0, b_live, aborts);
                }
            }
        }
    }
}

/// Every reference to a variable whose references can be accounted for is given up exactly
/// once. If the pass reports `live_vars` for a statement that is [`regular`] for `x`, then what
/// it leaves is balanced for `x`, in a procedure that holds one reference to `x` if `x` is among
/// them and owned, and none otherwise.
///
/// Nothing is claimed of a variable for which the statement is not regular: for instance one
/// that is owned, bound by a `let` and never used, or one that an `invoke` takes.
pub proof fn law_references_balanced<'a>(
    ctx: ContextView<'a>,
    stmt: StmtView<'a>,
    out: StmtView<'a>,
    live_vars: Set<Symbol>,
    x: Symbol,
    entry: Map<JoinPointId, int>,
)
    requires
        visitable(ctx, stmt),
        visits(ctx, stmt, out, live_vars),
        plain(ctx.param_map, stmt),
        regular(ctx, stmt, x, entry),
    ensures
        balanced(ctx, out, x, held(ctx, live_vars, x), entry),
    decreases stmt, 2nat,
{
    lemma_balanced_in(ctx, stmt, out, live_vars, x, entry);
}

/// A procedure whose body is [`regular`] for `x` gives up every reference to `x` exactly once:
/// the one that it is handed if `x` is an owned parameter, and those that it gains.
pub proof fn law_references_balanced_in_proc<'a>(
    param_map: Map<Key, &'a [Param]>,
    ps: Seq<Param>,
    body: StmtView<'a>,
    out: StmtView<'a>,
    x: Symbol,
)
    requires
        visitable(initial_context(param_map).with_params(ps), body),
        visits_proc(initial_context(param_map), ps, body, out),
        plain(param_map, body),
        is_one_param(ps, x),
        regular(initial_context(param_map).with_params(ps), body, x, Map::empty()),
    ensures
        ({
            let ctx = initial_context(param_map).with_params(ps);
            balanced(
                ctx,
                out,
                x,
                if owns(ctx, x) {
                    1
                } else {
                    0
                },
                Map::empty(),
            )
        }),
{
    let outer = initial_context(param_map);
    let ctx = outer.with_params(ps);
    let (b, b_live) = choose|b: StmtView<'a>, b_live: Set<Symbol>|
        {
            &&& visits(ctx, body, b, b_live)
            &&& out == #[trigger] ctx.dec_for_dead_params(ps, b, b_live)
        };
    lemma_with_params_keeps(outer, ps);
    lemma_with_params_vars(outer, ps, x);
    law_references_balanced(ctx, body, b, b_live, x, Map::empty());
    lemma_dec_params_balanced(
        ctx,
        ps,
        b,
        b_live,
        ctx,
        x,
        held(ctx, b_live, x),
        Map::empty(),
    );
    if param_symbols(ps).contains(x) {
        let i = choose|i: int|
            0 <= i < ps.len() && #[trigger] ps[i].symbol == x && ctx.vars[x] == param_info(ps[i]);
        assert forall|j: int| 0 <= j < ps.len() && #[trigger] ps[j].symbol == x implies j == i by {
            assert(ps[i].symbol == x);
        }
    } else {
        assert(!tracked_in(outer, x));
        assert(!tracked_in(ctx, x));
    }
}

/// An alternative of a choice before which `case_live` are live.
proof fn lemma_balanced_alt<'a>(
    ctx: ContextView<'a>,
    case_live: Set<Symbol>,
    stmt: StmtView<'a>,
    out: StmtView<'a>,
    x: Symbol,
    n: int,
    entry: Map<JoinPointId, int>,
)
    requires
        visitable_alt(ctx, case_live, stmt),
        visits_alt(ctx, case_live, stmt, out),
        plain(ctx.param_map, stmt),
        regular(ctx, stmt, x, entry),
        if owns(ctx, x) && live(stmt, ctx.jp_live_vars).contains(x) {
            n == 1
        } else {
            n == held(ctx, case_live, x)
        },
    ensures
        balanced(ctx, out, x, n, entry),
    decreases stmt, 3nat,
{
    let (b, b_live) = choose|b: StmtView<'a>, b_live: Set<Symbol>|
        visits(ctx, stmt, b, b_live) && #[trigger] ctx.is_dec_for_alt(case_live, b_live, b, out);
    let order = choose|order: Seq<Symbol>| #[trigger]
        ctx.dec_each(order, b) == out && order.no_duplicates() && order.to_set()
            == ctx.dead_in_alt(case_live, b_live);
    law_live_vars_are_kept(ctx, stmt, b, b_live);
    law_references_balanced(ctx, stmt, b, b_live, x, entry);
    assert(order.contains(x) == order.to_set().contains(x));
    lemma_dec_each_balanced(ctx, order, b, ctx, x, held(ctx, b_live, x), entry);
}

/// [`law_references_balanced`], where the statement may start with a `let`.
proof fn lemma_balanced_in<'a>(
    w: ContextView<'a>,
    stmt: StmtView<'a>,
    out: StmtView<'a>,
    live_vars: Set<Symbol>,
    x: Symbol,
    entry: Map<JoinPointId, int>,
)
    requires
        visitable_in(w.with_lets(stmt), stmt),
        visits_in(w.with_lets(stmt), stmt, out, live_vars),
        plain(w.param_map, stmt),
        regular(w, stmt, x, entry),
    ensures
        balanced(w, out, x, held(w, live_vars, x), entry),
    decreases stmt, 1nat,
{
    let ctx = w.with_lets(stmt);
    lemma_with_lets_keeps(w, stmt);
    match stmt {
        StmtView::Let(symbol, expr, layout, cont) => {
            let (b, b_live) = choose|b: StmtView<'a>, b_live: Set<Symbol>|
                {
                    &&& visits_in(ctx, *cont, b, b_live)
                    &&& out == #[trigger] ctx.declare(symbol, expr, layout, b, b_live)
                    &&& live_vars == b_live.union(expr_symbols(expr)).remove(symbol)
                };
            let inner = w.with_let(symbol, layout, expr);
            lemma_live_in(ctx, *cont, b, b_live);
            lemma_balanced_in(inner, *cont, b, b_live, x, entry);
            if tracked_in(w, x) {
                lemma_regular_keeps(w, stmt, x, entry);
            }
            if tracked_in(inner, x) {
                lemma_regular_keeps(inner, *cont, x, entry);
            }
            lemma_aborts_kept(ctx, *cont, b, b_live);
            let now = held(inner, b_live, x);
            let more = held_behind(w, symbol, expr, layout, b_live, x);
            if more != now {
                lemma_held_behind(w, ctx, symbol, expr, layout, b_live, x, aborts(b));
                lemma_aborts_more(inner, b, x, now, more, entry);
            }
            lemma_let_balanced(ctx, w, symbol, expr, layout, b, b_live, x, entry);
        },
        StmtView::Invoke { symbol, call, layout, pass, fail } => {
            lemma_balanced_invoke(w, stmt, out, live_vars, x, entry);
        },
        StmtView::Join { id, parameters, continuation, remainder } => {
            lemma_balanced_join(w, stmt, out, live_vars, x, entry);
        },
        StmtView::Ret(_) => {
            reveal_with_fuel(balanced, 2);
        },
        StmtView::Jump(id, xs) => {
            assert(xs.len() == xs@.len());
            lemma_jump_balanced(w, id, xs, out, live_vars, x, entry);
        },
        StmtView::Switch { branches, default_branch, .. } => {
            let n = held(w, live_vars, x);
            let bs = out->Switch_branches;
            assert forall|i: int| 0 <= i < bs.len() implies balanced(
                w,
                (#[trigger] bs[i]).2,
                x,
                n,
                entry,
            ) by {
                assert(visitable_alt(w, live_vars, branches[i].2));
                assert(plain(w.param_map, branches[i].2));
                assert(regular(w, branches[i].2, x, entry));
                assert(live(branches[i].2, w.jp_live_vars).subset_of(live_vars));
                lemma_balanced_alt(w, live_vars, branches[i].2, bs[i].2, x, n, entry);
            }
            lemma_balanced_alt(
                w,
                live_vars,
                *default_branch.1,
                *out->Switch_default_branch.1,
                x,
                n,
                entry,
            );
        },
        StmtView::Rethrow | StmtView::RuntimeError(_) | StmtView::Refcounting(_, _) => {},
    }
}

/// `let z = v` in front of a statement that is balanced.
proof fn lemma_let_balanced<'a>(
    ctx: ContextView<'a>,
    w: ContextView<'a>,
    z: Symbol,
    v: Expr<'a>,
    l: Layout,
    b: StmtView<'a>,
    b_live: Set<Symbol>,
    x: Symbol,
    entry: Map<JoinPointId, int>,
)
    requires
        let_ready(ctx, w, z, v, l, b, b_live, x, entry),
        z == x && tracked_in(w.with_let(z, l, v), x) ==> (v matches Expr::AccessAtIndex {
            structure,
            ..
        } ==> w.knows(structure) && ctx.vars[structure] == w.vars[structure]),
    ensures
        balanced(
            w,
            ctx.declare(z, v, l, b, b_live),
            x,
            held(w, b_live.union(expr_symbols(v)).remove(z), x),
            entry,
        ),
{
    match v {
        Expr::Reuse { arguments, .. } => {
            assert(arguments.len() == arguments@.len());
            lemma_consuming_balanced(ctx, w, z, v, l, arguments@, b, b_live, x, entry);
        },
        Expr::Tag { arguments, .. } => {
            assert(arguments.len() == arguments@.len());
            lemma_consuming_balanced(ctx, w, z, v, l, arguments@, b, b_live, x, entry);
        },
        Expr::Struct(arguments) => {
            assert(arguments.len() == arguments@.len());
            lemma_consuming_balanced(ctx, w, z, v, l, arguments@, b, b_live, x, entry);
        },
        Expr::Array { elems, .. } => {
            assert(elems.len() == elems@.len());
            lemma_consuming_balanced(ctx, w, z, v, l, elems@, b, b_live, x, entry);
        },
        Expr::AccessAtIndex { .. } => {
            lemma_access_balanced(ctx, w, z, v, l, b, b_live, x, entry);
        },
        Expr::Call(call) => {
            assert(call.arguments.len() == call.arguments@.len());
            if call.call_type is ByName {
                lemma_application_balanced(ctx, w, z, call, l, b, b_live, x, entry);
            } else {
                lemma_flagged_balanced(ctx, w, z, call, l, b, b_live, x, entry);
            }
        },
        Expr::EmptyArray
        | Expr::Literal(_)
        | Expr::Reset(_)
        | Expr::RuntimeErrorFunction(_) => {},
    }
}

/// A jump.
proof fn lemma_jump_balanced<'a>(
    w: ContextView<'a>,
    id: JoinPointId,
    xs: &'a [Symbol],
    out: StmtView<'a>,
    live_vars: Set<Symbol>,
    x: Symbol,
    entry: Map<JoinPointId, int>,
)
    requires
        visitable_in(w, StmtView::Jump(id, xs)),
        visits_in(w, StmtView::Jump(id, xs), out, live_vars),
        regular(w, StmtView::Jump(id, xs), x, entry),
        xs@.len() <= u64::MAX,
    ensures
        balanced(w, out, x, held(w, live_vars, x), entry),
{
    let stmt = StmtView::Jump(id, xs);
    let pred = ConsumePred::Params(w.join_params(id));
    let n = xs@.len();
    lemma_live_in(w, stmt, out, live_vars);
    lemma_consumptions_positive(x, xs@, pred, n);
    assert(occurs(xs@, x, n) == xs@.to_set().contains(x));
    assert(is_borrowed(x, xs@, pred) ==> occurs(xs@, x, n));
    lemma_inc_balanced(
        w,
        xs@,
        pred,
        stmt,
        w.join_live(id),
        n,
        w,
        x,
        held(w, live_vars, x),
        entry,
    );
}

/// An `invoke`.
proof fn lemma_balanced_invoke<'a>(
    w: ContextView<'a>,
    stmt: StmtView<'a>,
    out: StmtView<'a>,
    live_vars: Set<Symbol>,
    x: Symbol,
    entry: Map<JoinPointId, int>,
)
    requires
        stmt is Invoke,
        visitable_in(w, stmt),
        visits_in(w, stmt, out, live_vars),
        plain(w.param_map, stmt),
        regular(w, stmt, x, entry),
    ensures
        balanced(w, out, x, held(w, live_vars, x), entry),
    decreases stmt, 0nat,
{
    match stmt {
        StmtView::Invoke { symbol, call, layout, pass, fail } => {
            let inner = w.with_invoke(symbol, layout, call);
            let (pass_out, fail_out) = choose|pass_out: StmtView<'a>, fail_out: StmtView<'a>|
                {
                    &&& visits_alt(inner, live_vars, *pass, pass_out)
                    &&& visits_alt(w, live_vars, *fail, fail_out)
                    &&& out == #[trigger] w.before_invoke(
                        call,
                        StmtView::Invoke {
                            symbol,
                            call,
                            layout,
                            pass: Box::new(pass_out),
                            fail: Box::new(fail_out),
                        },
                        live_vars,
                    )
                };
            let invoke = StmtView::Invoke {
                symbol,
                call,
                layout,
                pass: Box::new(pass_out),
                fail: Box::new(fail_out),
            };
            law_nothing_before_invoke(w, call, invoke, live_vars);
            let n = held(w, live_vars, x);
            let n_pass = if symbol == x && tracked_in(inner, x) {
                1
            } else {
                n
            };
            if tracked_in(w, x) {
                lemma_regular_not_killed(w, *fail, x, entry);
            }
            if symbol == x && tracked_in(inner, x) && !live(*pass, w.jp_live_vars).contains(x) {
                let n_alt = held(inner, live_vars, x);
                lemma_balanced_alt(inner, live_vars, *pass, pass_out, x, n_alt, entry);
                lemma_aborts_alt(inner, live_vars, *pass, pass_out);
                lemma_aborts_more(inner, pass_out, x, n_alt, 1, entry);
            } else {
                lemma_balanced_alt(inner, live_vars, *pass, pass_out, x, n_pass, entry);
            }
            lemma_balanced_alt(w, live_vars, *fail, fail_out, x, n, entry);
            assert(call_borrows(w, call, x) ==> call.arguments@.to_set().contains(x));
        },
        _ => {},
    }
}

/// What is known to be live in join points does not matter.
proof fn lemma_balanced_same<'a>(
    w1: ContextView<'a>,
    w2: ContextView<'a>,
    stmt: StmtView<'a>,
    x: Symbol,
    n: int,
    entry: Map<JoinPointId, int>,
)
    requires
        w1.vars == w2.vars,
        w1.param_map == w2.param_map,
        balanced(w1, stmt, x, n, entry),
    ensures
        balanced(w2, stmt, x, n, entry),
    decreases stmt,
{
    match stmt {
        StmtView::Let(symbol, expr, layout, cont) => {
            let taken = expr_takes(w1, expr, x);
            let inner1 = w1.with_let(symbol, layout, expr);
            let inner2 = w2.with_let(symbol, layout, expr);
            if symbol != x {
                lemma_balanced_same(inner1, inner2, *cont, x, left(w1, x, n, taken), entry);
            } else if !tracked_in(inner1, x) {
                lemma_balanced_same(inner1, inner2, *cont, x, 0, entry);
            } else if !(expr is AccessAtIndex) {
                lemma_balanced_same(inner1, inner2, *cont, x, 1, entry);
            } else if !owns(inner1, x) {
                lemma_balanced_same(inner1, inner2, *cont, x, 0, entry);
            } else {
                match *cont {
                    StmtView::Refcounting(ModifyRc::Inc(_, k), rest) => {
                        lemma_balanced_same(inner1, inner2, *rest, x, k as int, entry);
                    },
                    _ => {},
                }
            }
        },
        StmtView::Invoke { symbol, call, layout, pass, fail } => {
            let taken = call_takes(w1, call, x);
            let inner1 = w1.with_invoke(symbol, layout, call);
            let inner2 = w2.with_invoke(symbol, layout, call);
            let n_pass = if symbol != x {
                left(w1, x, n, taken)
            } else if tracked_in(inner1, x) {
                1
            } else {
                0
            };
            lemma_balanced_same(inner1, inner2, *pass, x, n_pass, entry);
            lemma_balanced_same(w1, w2, *fail, x, left(w1, x, n, taken), entry);
        },
        StmtView::Switch { branches, default_branch, .. } => {
            assert forall|i: int| 0 <= i < branches.len() implies balanced(
                w2,
                (#[trigger] branches[i]).2,
                x,
                n,
                entry,
            ) by {
                lemma_balanced_same(w1, w2, branches[i].2, x, n, entry);
            }
            lemma_balanced_same(w1, w2, *default_branch.1, x, n, entry);
        },
        StmtView::Refcounting(modify, cont) => {
            let m = if modify.symbol() != x || !tracked_in(w1, x) {
                n
            } else {
                match modify {
                    ModifyRc::Inc(_, k) => n + k,
                    _ => n - 1,
                }
            };
            lemma_balanced_same(w1, w2, *cont, x, m, entry);
        },
        StmtView::Join { id, parameters, continuation, remainder } => {
            let inner1 = w1.with_params(parameters@);
            let inner2 = w2.with_params(parameters@);
            lemma_with_params_same(w1, w2, parameters@);
            let without = entry.insert(id, 0);
            let with = entry.insert(id, 1);
            let start0 = on_entry(w1, parameters@, x, 0);
            let start1 = on_entry(w1, parameters@, x, 1);
            if balanced(inner1, *continuation, x, start0, without) && balanced(
                w1,
                *remainder,
                x,
                n,
                without,
            ) {
                lemma_balanced_same(inner1, inner2, *continuation, x, start0, without);
                lemma_balanced_same(w1, w2, *remainder, x, n, without);
            } else {
                lemma_balanced_same(inner1, inner2, *continuation, x, start1, with);
                lemma_balanced_same(w1, w2, *remainder, x, n, with);
            }
        },
        _ => {},
    }
}

/// A join point.
proof fn lemma_balanced_join<'a>(
    w: ContextView<'a>,
    stmt: StmtView<'a>,
    out: StmtView<'a>,
    live_vars: Set<Symbol>,
    x: Symbol,
    entry: Map<JoinPointId, int>,
)
    requires
        stmt is Join,
        visitable_in(w, stmt),
        visits_in(w, stmt, out, live_vars),
        plain(w.param_map, stmt),
        regular(w, stmt, x, entry),
    ensures
        balanced(w, out, x, held(w, live_vars, x), entry),
    decreases stmt, 0nat,
{
    match stmt {
        StmtView::Join { id, parameters, continuation, remainder } => {
            let ps = w.join_params(id)@;
            let inner = w.with_params(ps);
            let jps = w.jp_live_vars;
            let v_out = *out->Join_continuation;
            let b = *out->Join_remainder;
            let (v, v_live) = choose|v: StmtView<'a>, v_live: Set<Symbol>|
                {
                    &&& visits(inner, *continuation, v, v_live)
                    &&& v_out == #[trigger] inner.dec_for_dead_params(ps, v, v_live)
                };
            lemma_with_params_keeps(w, ps);
            law_live_vars_are_kept(inner, *continuation, v, v_live);
            lemma_dec_for_dead_params(inner, ps, v, v_live);
            lemma_live_behind(inner, v_out, v, param_symbols(ps), jps);
            let body_live = live(*continuation, jps).difference(param_symbols(ps));
            assert(live(v_out, jps).difference(param_symbols(ps)) =~= body_live);
            let m = held(w, body_live, x);
            let inner_entry = entry.insert(id, m);
            law_references_balanced(inner, *continuation, v, v_live, x, inner_entry);
            law_references_balanced(
                w.with_join_body(id, ps, v_out),
                *remainder,
                b,
                live_vars,
                x,
                inner_entry,
            );
            lemma_balanced_same(
                w.with_join_body(id, ps, v_out),
                w,
                b,
                x,
                held(w, live_vars, x),
                inner_entry,
            );
            lemma_with_params_vars(w, ps, x);
            let start = on_entry(w, ps, x, m);
            if !param_symbols(ps).contains(x) {
                lemma_behind_other(
                    inner,
                    v_out,
                    v,
                    param_symbols(ps),
                    inner,
                    x,
                    held(inner, v_live, x),
                    inner_entry,
                );
                assert(held(inner, v_live, x) == start);
            } else {
                let i = choose|i: int|
                    0 <= i < ps.len() && #[trigger] ps[i].symbol == x && inner.vars[x]
                        == param_info(ps[i]);
                lemma_dec_params_balanced(
                    inner,
                    ps,
                    v,
                    v_live,
                    inner,
                    x,
                    held(inner, v_live, x),
                    inner_entry,
                );
                assert forall|j: int|
                    0 <= j < ps.len() && #[trigger] ps[j].symbol == x implies j == i by {
                    assert(ps[i].symbol == x);
                }
            }
            assert(balanced(inner, v_out, x, start, inner_entry));
            assert(balanced(w, b, x, held(w, live_vars, x), inner_entry));
            assert(m == 0 || m == 1);
        },
        _ => {},
    }
}

} // verus!
