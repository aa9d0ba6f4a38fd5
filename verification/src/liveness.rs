//! Which variables are live before a statement.
use vstd::prelude::*;

use crate::collections::{copy_set, extend_with_set, extend_with_slice, MutMap, MutSet};
use crate::ir::{
    branch_views, branches_node_count, lemma_branch_node_count, node_count, Branches, Expr,
    JoinPointId, Param, Stmt, StmtView, Symbol,
};
use crate::occurrence::{
    call_symbols, expr_symbols, occuring_variables_call, occuring_variables_expr, param_symbols,
};
use crate::scope::operands;
use crate::usage::{
    binds_on_the_way, joins_with, law_live_iff_met, law_live_iff_used, law_taken_out_where_bound,
    met, untangled, used,
};

verus! {

/// A set of live variables.
pub type LiveVarSet = MutSet<Symbol>;

/// For each join point in scope, the variables that are live in its body.
pub type JPLiveVarMap = MutMap<JoinPointId, LiveVarSet>;

/// The mathematical counterpart of a [`JPLiveVarMap`].
pub open spec fn jp_view(m: JPLiveVarMap) -> Map<JoinPointId, Set<Symbol>> {
    m@.map_values(|vars: LiveVarSet| vars@)
}

/// The variables that a walk through a statement takes out of a set of variables that are
/// live for another reason: those that are bound on the way, outside the alternatives of a
/// switch and outside the bodies of join points.
pub open spec fn killed(stmt: StmtView) -> Set<Symbol>
    decreases stmt,
{
    match stmt {
        StmtView::Let(symbol, _, _, cont) => killed(*cont).insert(symbol),
        StmtView::Invoke { symbol, pass, fail, .. } => killed(*pass).union(killed(*fail)).insert(
            symbol,
        ),
        StmtView::Refcounting(_, cont) => killed(*cont),
        StmtView::Join { remainder, .. } => killed(*remainder),
        StmtView::Switch { .. }
        | StmtView::Ret(_)
        | StmtView::Jump(_, _)
        | StmtView::Rethrow
        | StmtView::RuntimeError(_) => Set::empty(),
    }
}

/// The variables that are live before a statement, where `jps` says which variables are
/// live in the join points that are in scope. A jump to any other join point keeps alive
/// its arguments only.
pub open spec fn live(stmt: StmtView, jps: Map<JoinPointId, Set<Symbol>>) -> Set<Symbol>
    decreases stmt,
{
    match stmt {
        StmtView::Let(symbol, expr, _, cont) => live(*cont, jps).remove(symbol).union(
            expr_symbols(expr),
        ),
        StmtView::Invoke { symbol, call, pass, fail, .. } => live(*fail, jps).union(
            live(*pass, jps).difference(killed(*fail)),
        ).remove(symbol).union(call_symbols(call)),
        StmtView::Ret(symbol) => set![symbol],
        StmtView::Refcounting(modify, cont) => live(*cont, jps).union(
            set![modify.symbol()].difference(killed(*cont)),
        ),
        StmtView::Join { id, parameters, continuation, remainder } => live(
            *remainder,
            jps.insert(id, live(*continuation, jps).difference(param_symbols(parameters@))),
        ),
        StmtView::Jump(id, arguments) => if jps.contains_key(id) {
            arguments@.to_set().union(jps[id])
        } else {
            arguments@.to_set()
        },
        StmtView::Switch { cond_symbol, branches, default_branch, .. } => Set::new(
            |x: Symbol|
                exists|i: int|
                    0 <= i < branches.len() && live(#[trigger] branches[i].2, jps).contains(x),
        ).union(live(*default_branch.1, jps)).insert(cond_symbol),
        StmtView::Rethrow | StmtView::RuntimeError(_) => Set::empty(),
    }
}

/// The variables that are live before a `let` of `expr`, where `v` are those that are live
/// behind it and the bound variable is not looked at.
pub fn update_live_vars<'a>(expr: &Expr<'a>, v: &LiveVarSet) -> (r: LiveVarSet)
    ensures
        r@ == v@.union(expr_symbols(*expr)),
        forall|x: Symbol| #[trigger]
            r@.contains(x) <==> v@.contains(x) || operands(*expr).contains(x),
{
    let mut v = copy_set(v);
    occuring_variables_expr(expr, &mut v);
    v
}

/// Takes the symbols of a list of parameters out of `vars`.
fn remove_params(vars: &mut LiveVarSet, params: &[Param])
    ensures
        final(vars)@ == old(vars)@.difference(param_symbols(params@)),
{
    let ghost start = vars@;
    let mut i: usize = 0;
    while i < params.len()
        invariant
            i <= params.len(),
            forall|x: Symbol| #[trigger]
                vars@.contains(x) <==> start.contains(x) && !(exists|k: int|
                    0 <= k < i && #[trigger] params@[k].symbol == x),
        decreases params.len() - i,
    {
        vars.remove(&params[i].symbol);
        i += 1;
    }
    assert(vars@ =~= start.difference(param_symbols(params@)));
}

/// Adds to `vars` the variables that are live before `stmt`; what `stmt` binds on the way
/// is taken out of `vars` first.
pub fn collect_stmt(stmt: &Stmt<'_>, jp_live_vars: &JPLiveVarMap, vars: LiveVarSet) -> (r:
    LiveVarSet)
    ensures
        r@ == live(stmt@, jp_view(*jp_live_vars)).union(vars@.difference(killed(stmt@))),
        forall|x: Symbol|
            untangled(stmt@, x) ==> (#[trigger] r@.contains(x) <==> used(
                stmt@,
                x,
                joins_with(jp_view(*jp_live_vars), x),
                true,
            ) || vars@.contains(x) && !binds_on_the_way(stmt@, x)),
        forall|x: Symbol| #[trigger]
            r@.contains(x) <==> met(stmt@, x, joins_with(jp_view(*jp_live_vars), x))
                || vars@.contains(x) && !binds_on_the_way(stmt@, x),
    decreases node_count(stmt@), 0nat,
{
    let ghost jps = jp_view(*jp_live_vars);
    let ghost start = vars@;
    let mut vars = vars;
    match *stmt {
        Stmt::Let(symbol, ref expr, _, cont) => {
            vars = collect_stmt(cont, jp_live_vars, vars);
            vars.remove(&symbol);
            let mut result: LiveVarSet = MutSet::new();
            occuring_variables_expr(expr, &mut result);
            extend_with_set(&mut vars, &result);
        },
        Stmt::Invoke { symbol, ref call, pass, fail, .. } => {
            vars = collect_stmt(pass, jp_live_vars, vars);
            vars = collect_stmt(fail, jp_live_vars, vars);
            vars.remove(&symbol);
            let mut result: LiveVarSet = MutSet::new();
            occuring_variables_call(call, &mut result);
            extend_with_set(&mut vars, &result);
        },
        Stmt::Ret(symbol) => {
            vars.insert(symbol);
        },
        Stmt::Refcounting(modify, cont) => {
            let symbol = modify.get_symbol();
            vars.insert(symbol);
            vars = collect_stmt(cont, jp_live_vars, vars);
        },
        Stmt::Join { id: j, parameters, remainder: b, continuation: v } => {
            let mut j_live_vars = collect_stmt(v, jp_live_vars, MutSet::new());
            remove_params(&mut j_live_vars, parameters);
            let ghost j_live = j_live_vars@;
            let mut inner_jp_live_vars = jp_live_vars.clone();
            inner_jp_live_vars.insert(j, j_live_vars);
            proof {
                assert(j_live =~= live(v@, jps).difference(param_symbols(parameters@)));
                assert(jp_view(inner_jp_live_vars) =~= jps.insert(j, j_live));
            }
            vars = collect_stmt(b, &inner_jp_live_vars, vars);
        },
        Stmt::Jump(id, arguments) => {
            extend_with_slice(&mut vars, arguments);
            // No join point of that name may be known: then it adds nothing.
            if let Some(jvars) = jp_live_vars.get(&id) {
                extend_with_set(&mut vars, jvars);
            }
        },
        Stmt::Switch { cond_symbol, branches, default_branch, .. } => {
            vars.insert(cond_symbol);
            vars = collect_branches(&branches, jp_live_vars, vars);
            let alternative = collect_stmt(default_branch.1, jp_live_vars, copy_set(&vars));
            extend_with_set(&mut vars, &alternative);
        },
        Stmt::Rethrow => {},
        Stmt::RuntimeError(_) => {},
    }
    assert(vars@ =~= live(stmt@, jps).union(start.difference(killed(stmt@))));
    proof {
        assert forall|x: Symbol| untangled(stmt@, x) implies (#[trigger] vars@.contains(x)
            <==> used(stmt@, x, joins_with(jps, x), true) || start.contains(x) && !binds_on_the_way(
            stmt@,
            x,
        )) by {
            law_live_iff_used(stmt@, jps, x);
            law_taken_out_where_bound(stmt@, x);
        }
        assert forall|x: Symbol| #[trigger] vars@.contains(x) <==> met(
            stmt@,
            x,
            joins_with(jps, x),
        ) || start.contains(x) && !binds_on_the_way(stmt@, x) by {
            law_live_iff_met(stmt@, jps, x);
            law_taken_out_where_bound(stmt@, x);
        }
    }
    vars
}

/// Adds to `vars` the variables that are live before one of the branches.
fn collect_branches(branches: &Branches<'_>, jp_live_vars: &JPLiveVarMap, vars: LiveVarSet) -> (r:
    LiveVarSet)
    ensures
        forall|x: Symbol| #[trigger]
            r@.contains(x) <==> vars@.contains(x) || exists|i: int|
                0 <= i < branches@.len() && live(
                    #[trigger] branches@[i].2,
                    jp_view(*jp_live_vars),
                ).contains(x),
    decreases branches_node_count(branches@), 1nat,
{
    let ghost jps = jp_view(*jp_live_vars);
    let ghost start = vars@;
    let mut vars = vars;
    let items = branches.as_slice();
    let mut i: usize = 0;
    while i < items.len()
        invariant
            i <= items.len(),
            branches@ == branch_views(items@),
            jps == jp_view(*jp_live_vars),
            forall|x: Symbol| #[trigger]
                vars@.contains(x) <==> start.contains(x) || exists|k: int|
                    0 <= k < i && live(#[trigger] branches@[k].2, jps).contains(x),
        decreases items.len() - i,
    {
        proof {
            assert(branches@[i as int].2 == items@[i as int].2@);
            lemma_branch_node_count(branches@, i as int);
        }
        let alternative = collect_stmt(&items[i].2, jp_live_vars, copy_set(&vars));
        extend_with_set(&mut vars, &alternative);
        i += 1;
    }
    vars
}

/// Records in `m` which variables are live in the body `v` of the join point `j` with the
/// parameters `ys`.
pub fn update_jp_live_vars(j: JoinPointId, ys: &[Param], v: &Stmt<'_>, m: &mut JPLiveVarMap)
    ensures
        jp_view(*final(m)) == jp_view(*old(m)).insert(
            j,
            live(v@, jp_view(*old(m))).difference(param_symbols(ys@)),
        ),
{
    let ghost jps = jp_view(*m);
    let mut j_live_vars = collect_stmt(v, m, MutSet::new());
    remove_params(&mut j_live_vars, ys);
    let ghost j_live = j_live_vars@;
    m.insert(j, j_live_vars);
    proof {
        assert(j_live =~= live(v@, jps).difference(param_symbols(ys@)));
        assert(jp_view(*m) =~= jps.insert(j, j_live));
    }
}

} // verus!
