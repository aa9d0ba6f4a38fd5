//! What the analyses of a statement mean: which symbols stand in it, which of them are free, and
//! which variables may still be used.
use vstd::prelude::*;

use crate::borrow::Key;
use crate::ir::{Expr, JoinPointId, ModifyRc, Param, StmtView, Symbol};
use crate::liveness::{killed, live};
use crate::occurrence::{bound_symbols, expr_symbols, param_symbols, stmt_symbols};
use crate::scope::{names_param, operands, tidy};

verus! {

/// The statement `t` stands somewhere in `s`, or is `s`.
pub open spec fn part_of<'a>(s: StmtView<'a>, t: StmtView<'a>) -> bool
    decreases s,
{
    s == t || match s {
        StmtView::Let(_, _, _, cont) => part_of(*cont, t),
        StmtView::Invoke { pass, fail, .. } => part_of(*pass, t) || part_of(*fail, t),
        StmtView::Switch { branches, default_branch, .. } => {
            ||| part_of(*default_branch.1, t)
            ||| exists|i: int| 0 <= i < branches.len() && part_of((#[trigger] branches[i]).2, t)
        },
        StmtView::Refcounting(_, cont) => part_of(*cont, t),
        StmtView::Join { continuation, remainder, .. } => part_of(*continuation, t) || part_of(
            *remainder,
            t,
        ),
        StmtView::Ret(_)
        | StmtView::Rethrow
        | StmtView::Jump(_, _)
        | StmtView::RuntimeError(_) => false,
    }
}

/// The statement, its parts aside, binds `x`.
pub open spec fn binds(t: StmtView, x: Symbol) -> bool {
    match t {
        StmtView::Let(symbol, _, _, _) => symbol == x,
        StmtView::Invoke { symbol, .. } => symbol == x,
        _ => false,
    }
}

/// The statement, its parts aside, names `x`.
pub open spec fn names(t: StmtView, x: Symbol) -> bool {
    match t {
        StmtView::Let(symbol, expr, _, _) => symbol == x || operands(expr).contains(x),
        StmtView::Invoke { symbol, call, .. } => symbol == x || call.arguments@.contains(x),
        StmtView::Switch { cond_symbol, .. } => cond_symbol == x,
        StmtView::Ret(symbol) => symbol == x,
        StmtView::Refcounting(ModifyRc::Inc(symbol, _), _) => symbol == x,
        StmtView::Refcounting(ModifyRc::Dec(symbol), _) => symbol == x,
        StmtView::Refcounting(ModifyRc::DecRef(symbol), _) => symbol == x,
        StmtView::Join { parameters, .. } => names_param(parameters@, x),
        StmtView::Jump(_, arguments) => arguments@.contains(x),
        StmtView::Rethrow | StmtView::RuntimeError(_) => false,
    }
}

/// The symbols that stand in a statement and that nothing in it binds.
pub open spec fn free_symbols(stmt: StmtView) -> Set<Symbol> {
    stmt_symbols(stmt).difference(bound_symbols(stmt))
}

/// The symbols of an expression are its operands: each operand is one of them, and there are no
/// others.
pub proof fn law_expression_symbols(expr: Expr, x: Symbol)
    ensures
        expr_symbols(expr).contains(x) <==> operands(expr).contains(x),
{
    match expr {
        Expr::Reuse { symbol, arguments, .. } => {
            let xs = arguments@.push(symbol);
            assert(xs[arguments@.len() as int] == symbol);
            if arguments@.contains(x) {
                let i = choose|i: int| 0 <= i < arguments@.len() && arguments@[i] == x;
                assert(xs[i] == x);
            }
        },
        Expr::Reset(symbol) => {
            assert(operands(expr)[0] == symbol);
        },
        Expr::AccessAtIndex { structure, .. } => {
            assert(operands(expr)[0] == structure);
        },
        _ => {},
    }
}

/// A symbol that is named anywhere in a statement occurs in it.
pub proof fn law_named_occurs<'a>(s: StmtView<'a>, t: StmtView<'a>, x: Symbol)
    requires
        part_of(s, t),
        names(t, x),
    ensures
        stmt_symbols(s).contains(x),
    decreases s,
{
    if s == t {
        if let StmtView::Let(_, expr, _, _) = s {
            law_expression_symbols(expr, x);
        }
    } else {
        match s {
            StmtView::Let(_, _, _, cont) => {
                law_named_occurs(*cont, t, x);
            },
            StmtView::Invoke { pass, fail, .. } => {
                if part_of(*pass, t) {
                    law_named_occurs(*pass, t, x);
                } else {
                    law_named_occurs(*fail, t, x);
                }
            },
            StmtView::Switch { branches, default_branch, .. } => {
                if part_of(*default_branch.1, t) {
                    law_named_occurs(*default_branch.1, t, x);
                } else {
                    let i = choose|i: int|
                        0 <= i < branches.len() && part_of((#[trigger] branches[i]).2, t);
                    law_named_occurs(branches[i].2, t, x);
                }
            },
            StmtView::Refcounting(_, cont) => {
                law_named_occurs(*cont, t, x);
            },
            StmtView::Join { continuation, remainder, .. } => {
                if part_of(*continuation, t) {
                    law_named_occurs(*continuation, t, x);
                } else {
                    law_named_occurs(*remainder, t, x);
                }
            },
            _ => {},
        }
    }
}

/// A symbol that occurs in a statement is named somewhere in it: in the part that is returned.
pub proof fn law_occurring_is_named<'a>(s: StmtView<'a>, x: Symbol) -> (t: StmtView<'a>)
    requires
        stmt_symbols(s).contains(x),
    ensures
        part_of(s, t),
        names(t, x),
    decreases s,
{
    if let StmtView::Let(_, expr, _, _) = s {
        law_expression_symbols(expr, x);
    }
    if names(s, x) {
        s
    } else {
        match s {
            StmtView::Let(_, _, _, cont) => law_occurring_is_named(*cont, x),
            StmtView::Invoke { pass, fail, .. } => if stmt_symbols(*pass).contains(x) {
                law_occurring_is_named(*pass, x)
            } else {
                law_occurring_is_named(*fail, x)
            },
            StmtView::Switch { branches, default_branch, .. } => if stmt_symbols(
                *default_branch.1,
            ).contains(x) {
                law_occurring_is_named(*default_branch.1, x)
            } else {
                let i = choose|i: int|
                    0 <= i < branches.len() && stmt_symbols(#[trigger] branches[i].2).contains(x);
                let t = law_occurring_is_named(branches[i].2, x);
                assert(part_of(branches[i].2, t));
                t
            },
            StmtView::Refcounting(_, cont) => law_occurring_is_named(*cont, x),
            StmtView::Join { continuation, remainder, .. } => if stmt_symbols(
                *continuation,
            ).contains(x) {
                law_occurring_is_named(*continuation, x)
            } else {
                law_occurring_is_named(*remainder, x)
            },
            _ => s,
        }
    }
}

/// What a `let` or an `invoke` anywhere in a statement binds is bound in the statement, whatever
/// its layout and whatever it is bound to; so it is not free.
pub proof fn law_bound_is_not_free<'a>(s: StmtView<'a>, t: StmtView<'a>, x: Symbol)
    requires
        part_of(s, t),
        binds(t, x),
    ensures
        bound_symbols(s).contains(x),
        !free_symbols(s).contains(x),
    decreases s,
{
    if s != t {
        match s {
            StmtView::Let(_, _, _, cont) => {
                law_bound_is_not_free(*cont, t, x);
            },
            StmtView::Invoke { pass, fail, .. } => {
                if part_of(*pass, t) {
                    law_bound_is_not_free(*pass, t, x);
                } else {
                    law_bound_is_not_free(*fail, t, x);
                }
            },
            StmtView::Switch { branches, default_branch, .. } => {
                if part_of(*default_branch.1, t) {
                    law_bound_is_not_free(*default_branch.1, t, x);
                } else {
                    let i = choose|i: int|
                        0 <= i < branches.len() && part_of((#[trigger] branches[i]).2, t);
                    law_bound_is_not_free(branches[i].2, t, x);
                }
            },
            StmtView::Refcounting(_, cont) => {
                law_bound_is_not_free(*cont, t, x);
            },
            StmtView::Join { continuation, remainder, .. } => {
                if part_of(*continuation, t) {
                    law_bound_is_not_free(*continuation, t, x);
                } else {
                    law_bound_is_not_free(*remainder, t, x);
                }
            },
            _ => {},
        }
    }
}

/// A symbol that is bound in a statement is bound by a `let` or an `invoke` in it: by the part
/// that is returned.
pub proof fn law_bound_has_binding<'a>(s: StmtView<'a>, x: Symbol) -> (t: StmtView<'a>)
    requires
        bound_symbols(s).contains(x),
    ensures
        part_of(s, t),
        binds(t, x),
    decreases s,
{
    if binds(s, x) {
        s
    } else {
        match s {
            StmtView::Let(_, _, _, cont) => law_bound_has_binding(*cont, x),
            StmtView::Invoke { pass, fail, .. } => if bound_symbols(*pass).contains(x) {
                law_bound_has_binding(*pass, x)
            } else {
                law_bound_has_binding(*fail, x)
            },
            StmtView::Switch { branches, default_branch, .. } => if bound_symbols(
                *default_branch.1,
            ).contains(x) {
                law_bound_has_binding(*default_branch.1, x)
            } else {
                let i = choose|i: int|
                    0 <= i < branches.len() && bound_symbols(#[trigger] branches[i].2).contains(x);
                let t = law_bound_has_binding(branches[i].2, x);
                assert(part_of(branches[i].2, t));
                t
            },
            StmtView::Refcounting(_, cont) => law_bound_has_binding(*cont, x),
            StmtView::Join { continuation, remainder, .. } => if bound_symbols(
                *continuation,
            ).contains(x) {
                law_bound_has_binding(*continuation, x)
            } else {
                law_bound_has_binding(*remainder, x)
            },
            _ => s,
        }
    }
}

/// What is free in `let x = v` in front of a statement is free in the statement or an operand of
/// `v`, and it is neither `x` nor bound in the statement.
pub proof fn law_free_in_let<'a>(
    symbol: Symbol,
    expr: Expr<'a>,
    layout: crate::ir::Layout,
    cont: StmtView<'a>,
    x: Symbol,
)
    ensures
        free_symbols(StmtView::Let(symbol, expr, layout, Box::new(cont))).contains(x) <==> {
            &&& free_symbols(cont).contains(x) || operands(expr).contains(x)
            &&& x != symbol
            &&& !bound_symbols(cont).contains(x)
        },
{
    law_expression_symbols(expr, x);
}

/// In a tidy statement a variable that is in scope is free if it is named, and nothing is free
/// but the variables in scope and the parameters of join points. So a closed statement without
/// join points has no free variables.
pub proof fn law_free_in_tidy<'a>(
    vars: Set<Symbol>,
    params: Map<Key, &'a [Param]>,
    stmt: StmtView<'a>,
    x: Symbol,
)
    requires
        tidy(vars, params, stmt),
    ensures
        vars.contains(x) ==> (free_symbols(stmt).contains(x) <==> stmt_symbols(stmt).contains(x)),
        free_symbols(stmt).contains(x) ==> vars.contains(x) || is_join_param(stmt, x),
        !has_join(stmt) ==> !is_join_param(stmt, x),
    decreases stmt,
{
    match stmt {
        StmtView::Let(symbol, expr, _, cont) => {
            law_free_in_tidy(vars.insert(symbol), params, *cont, x);
            law_expression_symbols(expr, x);
        },
        StmtView::Invoke { symbol, pass, fail, .. } => {
            law_free_in_tidy(vars.insert(symbol), params, *pass, x);
            law_free_in_tidy(vars, params, *fail, x);
        },
        StmtView::Switch { branches, default_branch, .. } => {
            assert forall|i: int| 0 <= i < branches.len() implies {
                let b = (#[trigger] branches[i]).2;
                &&& vars.contains(x) ==> (free_symbols(b).contains(x) <==> stmt_symbols(
                    b,
                ).contains(x))
                &&& free_symbols(b).contains(x) ==> vars.contains(x) || is_join_param(b, x)
                &&& !has_join(b) ==> !is_join_param(b, x)
            } by {
                law_free_in_tidy(vars, params, branches[i].2, x);
            }
            law_free_in_tidy(vars, params, *default_branch.1, x);
            if stmt_symbols(stmt).contains(x) && !bound_symbols(stmt).contains(x) && x
                != stmt->cond_symbol && !stmt_symbols(*default_branch.1).contains(x) {
                let i = choose|i: int|
                    0 <= i < branches.len() && stmt_symbols(#[trigger] branches[i].2).contains(x);
                assert(!bound_symbols(branches[i].2).contains(x));
            }
            if vars.contains(x) {
                assert forall|i: int| 0 <= i < branches.len() implies !bound_symbols(
                    (#[trigger] branches[i]).2,
                ).contains(x) by {
                    lemma_tidy_not_bound(vars, params, branches[i].2, x);
                }
                lemma_tidy_not_bound(vars, params, *default_branch.1, x);
            }
        },
        StmtView::Join { id, parameters, continuation, remainder } => {
            let ps = params[Key::JoinPoint(id)]@;
            let inner = vars.union(Set::new(|y: Symbol| names_param(ps, y)));
            law_free_in_tidy(inner, params, *continuation, x);
            law_free_in_tidy(vars, params, *remainder, x);
            assert(names_param(ps, x) <==> names_param(parameters@, x));
        },
        _ => {},
    }
    if vars.contains(x) {
        lemma_tidy_not_bound(vars, params, stmt, x);
    }
}

/// A tidy statement does not bind what is in scope.
pub proof fn lemma_tidy_not_bound<'a>(
    vars: Set<Symbol>,
    params: Map<Key, &'a [Param]>,
    stmt: StmtView<'a>,
    x: Symbol,
)
    requires
        tidy(vars, params, stmt),
        vars.contains(x),
    ensures
        !bound_symbols(stmt).contains(x),
        !is_join_param(stmt, x),
    decreases stmt,
{
    match stmt {
        StmtView::Let(symbol, _, _, cont) => {
            lemma_tidy_not_bound(vars.insert(symbol), params, *cont, x);
        },
        StmtView::Invoke { symbol, pass, fail, .. } => {
            lemma_tidy_not_bound(vars.insert(symbol), params, *pass, x);
            lemma_tidy_not_bound(vars, params, *fail, x);
        },
        StmtView::Switch { branches, default_branch, .. } => {
            assert forall|i: int| 0 <= i < branches.len() implies !bound_symbols(
                (#[trigger] branches[i]).2,
            ).contains(x) && !is_join_param(branches[i].2, x) by {
                lemma_tidy_not_bound(vars, params, branches[i].2, x);
            }
            lemma_tidy_not_bound(vars, params, *default_branch.1, x);
        },
        StmtView::Join { id, parameters, continuation, remainder } => {
            let ps = params[Key::JoinPoint(id)]@;
            let inner = vars.union(Set::new(|y: Symbol| names_param(ps, y)));
            lemma_tidy_not_bound(inner, params, *continuation, x);
            lemma_tidy_not_bound(vars, params, *remainder, x);
            assert(names_param(ps, x) <==> names_param(parameters@, x));
        },
        _ => {},
    }
}

/// `x` is a parameter of a join point in the statement.
pub open spec fn is_join_param(stmt: StmtView, x: Symbol) -> bool
    decreases stmt,
{
    match stmt {
        StmtView::Let(_, _, _, cont) => is_join_param(*cont, x),
        StmtView::Invoke { pass, fail, .. } => is_join_param(*pass, x) || is_join_param(*fail, x),
        StmtView::Switch { branches, default_branch, .. } => {
            ||| is_join_param(*default_branch.1, x)
            ||| exists|i: int|
                0 <= i < branches.len() && is_join_param((#[trigger] branches[i]).2, x)
        },
        StmtView::Refcounting(_, cont) => is_join_param(*cont, x),
        StmtView::Join { parameters, continuation, remainder, .. } => {
            ||| names_param(parameters@, x)
            ||| is_join_param(*continuation, x)
            ||| is_join_param(*remainder, x)
        },
        _ => false,
    }
}

/// There is a join point in the statement.
pub open spec fn has_join(stmt: StmtView) -> bool
    decreases stmt,
{
    match stmt {
        StmtView::Let(_, _, _, cont) => has_join(*cont),
        StmtView::Invoke { pass, fail, .. } => has_join(*pass) || has_join(*fail),
        StmtView::Switch { branches, default_branch, .. } => {
            ||| has_join(*default_branch.1)
            ||| exists|i: int| 0 <= i < branches.len() && has_join((#[trigger] branches[i]).2)
        },
        StmtView::Refcounting(_, cont) => has_join(*cont),
        StmtView::Join { .. } => true,
        _ => false,
    }
}

/// `x` may be used when the statement runs: there is a way through it on which `x` is named
/// before it is bound again. `joins` are the join points in scope whose bodies may use `x`. Where
/// `counting` is set, an instruction on `x` is a use.
pub open spec fn used(
    stmt: StmtView,
    x: Symbol,
    joins: Set<JoinPointId>,
    counting: bool,
) -> bool
    decreases stmt,
{
    match stmt {
        StmtView::Let(symbol, expr, _, cont) => {
            ||| operands(expr).contains(x)
            ||| symbol != x && used(*cont, x, joins, counting)
        },
        StmtView::Invoke { symbol, call, pass, fail, .. } => {
            ||| call.arguments@.contains(x)
            ||| symbol != x && used(*pass, x, joins, counting)
            ||| used(*fail, x, joins, counting)
        },
        StmtView::Switch { cond_symbol, branches, default_branch, .. } => {
            ||| cond_symbol == x
            ||| used(*default_branch.1, x, joins, counting)
            ||| exists|i: int|
                0 <= i < branches.len() && used((#[trigger] branches[i]).2, x, joins, counting)
        },
        StmtView::Refcounting(modify, cont) => {
            ||| counting && names(stmt, x)
            ||| used(*cont, x, joins, counting)
        },
        StmtView::Join { id, parameters, continuation, remainder } => used(
            *remainder,
            x,
            joins_behind(
                joins,
                id,
                !names_param(parameters@, x) && used(*continuation, x, joins, counting),
            ),
            counting,
        ),
        StmtView::Jump(id, arguments) => arguments@.contains(x) || joins.contains(id),
        StmtView::Ret(symbol) => symbol == x,
        StmtView::Rethrow | StmtView::RuntimeError(_) => false,
    }
}

/// The join points that may use a variable, where the join point `id` does so or not.
pub open spec fn joins_behind(
    joins: Set<JoinPointId>,
    id: JoinPointId,
    uses: bool,
) -> Set<JoinPointId> {
    if uses {
        joins.insert(id)
    } else {
        joins.remove(id)
    }
}

/// The join points in which `x` is live.
pub open spec fn joins_with(jps: Map<JoinPointId, Set<Symbol>>, x: Symbol) -> Set<JoinPointId> {
    Set::new(|j: JoinPointId| jps.contains_key(j) && jps[j].contains(x))
}

/// A `let` or an `invoke` somewhere in the statement binds `x`.
pub open spec fn binds_somewhere(stmt: StmtView, x: Symbol) -> bool
    decreases stmt,
{
    binds(stmt, x) || match stmt {
        StmtView::Let(_, _, _, cont) => binds_somewhere(*cont, x),
        StmtView::Invoke { pass, fail, .. } => binds_somewhere(*pass, x) || binds_somewhere(
            *fail,
            x,
        ),
        StmtView::Switch { branches, default_branch, .. } => {
            ||| binds_somewhere(*default_branch.1, x)
            ||| exists|i: int|
                0 <= i < branches.len() && binds_somewhere((#[trigger] branches[i]).2, x)
        },
        StmtView::Refcounting(_, cont) => binds_somewhere(*cont, x),
        StmtView::Join { continuation, remainder, .. } => binds_somewhere(*continuation, x)
            || binds_somewhere(*remainder, x),
        _ => false,
    }
}

/// A `let` or an `invoke` binds `x` outside the alternatives of a switch and outside the bodies
/// of join points.
pub open spec fn binds_on_the_way(stmt: StmtView, x: Symbol) -> bool
    decreases stmt,
{
    binds(stmt, x) || match stmt {
        StmtView::Let(_, _, _, cont) => binds_on_the_way(*cont, x),
        StmtView::Invoke { pass, fail, .. } => binds_on_the_way(*pass, x) || binds_on_the_way(
            *fail,
            x,
        ),
        StmtView::Refcounting(_, cont) => binds_on_the_way(*cont, x),
        StmtView::Join { remainder, .. } => binds_on_the_way(*remainder, x),
        _ => false,
    }
}

/// No `invoke` binds `x` or has a `fail` branch that does, and `x` is not bound behind an
/// instruction on it.
pub open spec fn untangled(stmt: StmtView, x: Symbol) -> bool
    decreases stmt,
{
    match stmt {
        StmtView::Let(_, _, _, cont) => untangled(*cont, x),
        StmtView::Invoke { symbol, pass, fail, .. } => {
            &&& symbol != x
            &&& !binds_on_the_way(*fail, x)
            &&& untangled(*pass, x)
            &&& untangled(*fail, x)
        },
        StmtView::Switch { branches, default_branch, .. } => {
            &&& forall|i: int| 0 <= i < branches.len() ==> untangled((#[trigger] branches[i]).2, x)
            &&& untangled(*default_branch.1, x)
        },
        StmtView::Refcounting(_, cont) => {
            &&& names(stmt, x) ==> !binds_on_the_way(*cont, x)
            &&& untangled(*cont, x)
        },
        StmtView::Join { continuation, remainder, .. } => untangled(*continuation, x) && untangled(
            *remainder,
            x,
        ),
        _ => true,
    }
}

/// A walk through a statement takes `x` out of a set of variables if, and only if, the statement
/// binds `x` on the way.
pub proof fn law_taken_out_where_bound(stmt: StmtView, x: Symbol)
    ensures
        killed(stmt).contains(x) <==> binds_on_the_way(stmt, x),
    decreases stmt,
{
    match stmt {
        StmtView::Let(_, _, _, cont) => {
            law_taken_out_where_bound(*cont, x);
        },
        StmtView::Invoke { pass, fail, .. } => {
            law_taken_out_where_bound(*pass, x);
            law_taken_out_where_bound(*fail, x);
        },
        StmtView::Refcounting(_, cont) => {
            law_taken_out_where_bound(*cont, x);
        },
        StmtView::Join { remainder, .. } => {
            law_taken_out_where_bound(*remainder, x);
        },
        _ => {},
    }
}

/// A variable is live before a statement if, and only if, it may be used when the statement runs.
pub proof fn law_live_iff_used(stmt: StmtView, jps: Map<JoinPointId, Set<Symbol>>, x: Symbol)
    requires
        untangled(stmt, x),
    ensures
        live(stmt, jps).contains(x) <==> used(stmt, x, joins_with(jps, x), true),
    decreases stmt,
{
    match stmt {
        StmtView::Let(_, expr, _, cont) => {
            law_expression_symbols(expr, x);
            law_live_iff_used(*cont, jps, x);
        },
        StmtView::Invoke { pass, fail, .. } => {
            law_live_iff_used(*pass, jps, x);
            law_live_iff_used(*fail, jps, x);
            law_taken_out_where_bound(*fail, x);
        },
        StmtView::Switch { branches, default_branch, .. } => {
            law_live_iff_used(*default_branch.1, jps, x);
            assert forall|i: int| 0 <= i < branches.len() implies (live(
                (#[trigger] branches[i]).2,
                jps,
            ).contains(x) <==> used(branches[i].2, x, joins_with(jps, x), true)) by {
                law_live_iff_used(branches[i].2, jps, x);
            }
        },
        StmtView::Refcounting(_, cont) => {
            law_live_iff_used(*cont, jps, x);
            law_taken_out_where_bound(*cont, x);
        },
        StmtView::Join { id, parameters, continuation, remainder } => {
            law_live_iff_used(*continuation, jps, x);
            let body_live = live(*continuation, jps).difference(param_symbols(parameters@));
            law_live_iff_used(*remainder, jps.insert(id, body_live), x);
            assert(param_symbols(parameters@).contains(x) <==> names_param(parameters@, x));
            assert(joins_with(jps.insert(id, body_live), x) =~= joins_behind(
                joins_with(jps, x),
                id,
                body_live.contains(x),
            ));
        },
        _ => {},
    }
}

/// A walk that starts at the ends of a statement and comes to its front has met a use of `x` and
/// has not met a binding of `x` since. The walk goes through the `pass` branch of an `invoke`
/// before the `fail` branch, and it meets an instruction before the statement behind it.
pub open spec fn met(stmt: StmtView, x: Symbol, joins: Set<JoinPointId>) -> bool
    decreases stmt,
{
    match stmt {
        StmtView::Let(symbol, expr, _, cont) => {
            ||| operands(expr).contains(x)
            ||| symbol != x && met(*cont, x, joins)
        },
        StmtView::Invoke { symbol, call, pass, fail, .. } => {
            ||| call.arguments@.contains(x)
            ||| symbol != x && met(*pass, x, joins) && !binds_on_the_way(*fail, x)
            ||| symbol != x && met(*fail, x, joins)
        },
        StmtView::Switch { cond_symbol, branches, default_branch, .. } => {
            ||| cond_symbol == x
            ||| met(*default_branch.1, x, joins)
            ||| exists|i: int| 0 <= i < branches.len() && met((#[trigger] branches[i]).2, x, joins)
        },
        StmtView::Refcounting(_, cont) => {
            ||| names(stmt, x) && !binds_on_the_way(*cont, x)
            ||| met(*cont, x, joins)
        },
        StmtView::Join { id, parameters, continuation, remainder } => met(
            *remainder,
            x,
            joins_behind(
                joins,
                id,
                !names_param(parameters@, x) && met(*continuation, x, joins),
            ),
        ),
        StmtView::Jump(id, arguments) => arguments@.contains(x) || joins.contains(id),
        StmtView::Ret(symbol) => symbol == x,
        StmtView::Rethrow | StmtView::RuntimeError(_) => false,
    }
}

/// A variable is live before a statement, whatever the statement binds and wherever, if, and only
/// if, the walk that collects the live variables has met it.
pub proof fn law_live_iff_met(stmt: StmtView, jps: Map<JoinPointId, Set<Symbol>>, x: Symbol)
    ensures
        live(stmt, jps).contains(x) <==> met(stmt, x, joins_with(jps, x)),
    decreases stmt,
{
    match stmt {
        StmtView::Let(_, expr, _, cont) => {
            law_expression_symbols(expr, x);
            law_live_iff_met(*cont, jps, x);
        },
        StmtView::Invoke { pass, fail, .. } => {
            law_live_iff_met(*pass, jps, x);
            law_live_iff_met(*fail, jps, x);
            law_taken_out_where_bound(*fail, x);
        },
        StmtView::Switch { branches, default_branch, .. } => {
            law_live_iff_met(*default_branch.1, jps, x);
            assert forall|i: int| 0 <= i < branches.len() implies (live(
                (#[trigger] branches[i]).2,
                jps,
            ).contains(x) <==> met(branches[i].2, x, joins_with(jps, x))) by {
                law_live_iff_met(branches[i].2, jps, x);
            }
        },
        StmtView::Refcounting(_, cont) => {
            law_live_iff_met(*cont, jps, x);
            law_taken_out_where_bound(*cont, x);
        },
        StmtView::Join { id, parameters, continuation, remainder } => {
            law_live_iff_met(*continuation, jps, x);
            let body_live = live(*continuation, jps).difference(param_symbols(parameters@));
            law_live_iff_met(*remainder, jps.insert(id, body_live), x);
            assert(param_symbols(parameters@).contains(x) <==> names_param(parameters@, x));
            assert(joins_with(jps.insert(id, body_live), x) =~= joins_behind(
                joins_with(jps, x),
                id,
                body_live.contains(x),
            ));
        },
        _ => {},
    }
}

/// Without instructions it does not matter whether they are uses.
pub proof fn lemma_used_plain<'a>(
    vars: Set<Symbol>,
    params: Map<Key, &'a [Param]>,
    stmt: StmtView<'a>,
    x: Symbol,
    joins: Set<JoinPointId>,
)
    requires
        tidy(vars, params, stmt),
    ensures
        used(stmt, x, joins, true) == used(stmt, x, joins, false),
    decreases stmt,
{
    match stmt {
        StmtView::Let(symbol, _, _, cont) => {
            lemma_used_plain(vars.insert(symbol), params, *cont, x, joins);
        },
        StmtView::Invoke { symbol, pass, fail, .. } => {
            lemma_used_plain(vars.insert(symbol), params, *pass, x, joins);
            lemma_used_plain(vars, params, *fail, x, joins);
        },
        StmtView::Switch { branches, default_branch, .. } => {
            lemma_used_plain(vars, params, *default_branch.1, x, joins);
            assert forall|i: int| 0 <= i < branches.len() implies used(
                (#[trigger] branches[i]).2,
                x,
                joins,
                true,
            ) == used(branches[i].2, x, joins, false) by {
                lemma_used_plain(vars, params, branches[i].2, x, joins);
            }
        },
        StmtView::Join { id, parameters, continuation, remainder } => {
            let ps = params[Key::JoinPoint(id)]@;
            let inner = vars.union(Set::new(|y: Symbol| names_param(ps, y)));
            lemma_used_plain(inner, params, *continuation, x, joins);
            let uses = !names_param(parameters@, x) && used(*continuation, x, joins, true);
            lemma_used_plain(vars, params, *remainder, x, joins_behind(joins, id, uses));
        },
        _ => {},
    }
}

/// A tidy statement is untangled for what is in scope.
pub proof fn lemma_tidy_untangled<'a>(
    vars: Set<Symbol>,
    params: Map<Key, &'a [Param]>,
    stmt: StmtView<'a>,
    x: Symbol,
)
    requires
        tidy(vars, params, stmt),
        vars.contains(x),
    ensures
        untangled(stmt, x),
        !binds_on_the_way(stmt, x),
    decreases stmt,
{
    match stmt {
        StmtView::Let(symbol, _, _, cont) => {
            lemma_tidy_untangled(vars.insert(symbol), params, *cont, x);
        },
        StmtView::Invoke { symbol, pass, fail, .. } => {
            lemma_tidy_untangled(vars.insert(symbol), params, *pass, x);
            lemma_tidy_untangled(vars, params, *fail, x);
        },
        StmtView::Switch { branches, default_branch, .. } => {
            assert forall|i: int| 0 <= i < branches.len() implies untangled(
                (#[trigger] branches[i]).2,
                x,
            ) by {
                lemma_tidy_untangled(vars, params, branches[i].2, x);
            }
            lemma_tidy_untangled(vars, params, *default_branch.1, x);
        },
        StmtView::Join { id, continuation, remainder, .. } => {
            let ps = params[Key::JoinPoint(id)]@;
            let inner = vars.union(Set::new(|y: Symbol| names_param(ps, y)));
            lemma_tidy_untangled(inner, params, *continuation, x);
            lemma_tidy_untangled(vars, params, *remainder, x);
        },
        _ => {},
    }
}

/// In a tidy statement a variable in scope is live if, and only if, it may be used.
pub proof fn lemma_live_used<'a>(
    vars: Set<Symbol>,
    params: Map<Key, &'a [Param]>,
    stmt: StmtView<'a>,
    jps: Map<JoinPointId, Set<Symbol>>,
    x: Symbol,
)
    requires
        tidy(vars, params, stmt),
        vars.contains(x),
    ensures
        live(stmt, jps).contains(x) <==> used(stmt, x, joins_with(jps, x), false),
{
    lemma_tidy_untangled(vars, params, stmt, x);
    law_live_iff_used(stmt, jps, x);
    lemma_used_plain(vars, params, stmt, x, joins_with(jps, x));
}

/// The statement, or a part of it, names `x`.
pub open spec fn named_somewhere(stmt: StmtView, x: Symbol) -> bool
    decreases stmt,
{
    names(stmt, x) || match stmt {
        StmtView::Let(_, _, _, cont) => named_somewhere(*cont, x),
        StmtView::Invoke { pass, fail, .. } => named_somewhere(*pass, x) || named_somewhere(
            *fail,
            x,
        ),
        StmtView::Switch { branches, default_branch, .. } => {
            ||| named_somewhere(*default_branch.1, x)
            ||| exists|i: int|
                0 <= i < branches.len() && named_somewhere((#[trigger] branches[i]).2, x)
        },
        StmtView::Refcounting(_, cont) => named_somewhere(*cont, x),
        StmtView::Join { continuation, remainder, .. } => named_somewhere(*continuation, x)
            || named_somewhere(*remainder, x),
        _ => false,
    }
}

/// What occurs in a statement is what it names somewhere, and what is bound in it is what it
/// binds somewhere.
pub proof fn law_named_and_bound(stmt: StmtView, x: Symbol)
    ensures
        stmt_symbols(stmt).contains(x) <==> named_somewhere(stmt, x),
        bound_symbols(stmt).contains(x) <==> binds_somewhere(stmt, x),
    decreases stmt,
{
    match stmt {
        StmtView::Let(_, expr, _, cont) => {
            law_named_and_bound(*cont, x);
            law_expression_symbols(expr, x);
        },
        StmtView::Invoke { pass, fail, .. } => {
            law_named_and_bound(*pass, x);
            law_named_and_bound(*fail, x);
        },
        StmtView::Switch { branches, default_branch, .. } => {
            law_named_and_bound(*default_branch.1, x);
            assert forall|i: int| 0 <= i < branches.len() implies {
                &&& stmt_symbols((#[trigger] branches[i]).2).contains(x) <==> named_somewhere(
                    branches[i].2,
                    x,
                )
                &&& bound_symbols(branches[i].2).contains(x) <==> binds_somewhere(branches[i].2, x)
            } by {
                law_named_and_bound(branches[i].2, x);
            }
        },
        StmtView::Refcounting(_, cont) => {
            law_named_and_bound(*cont, x);
        },
        StmtView::Join { continuation, remainder, .. } => {
            law_named_and_bound(*continuation, x);
            law_named_and_bound(*remainder, x);
        },
        _ => {},
    }
}

} // verus!
