//! Which symbols occur in expressions and statements.
use vstd::prelude::*;

use crate::collections::{extend_with_slice, MutSet};
use crate::ir::{
    branch_views, branches_node_count, node_count, BranchInfo, Call, Expr, Param, Stmt, StmtView,
    Symbol,
};
use crate::scope::operands;
use crate::usage::{binds_somewhere, law_expression_symbols, law_named_and_bound, named_somewhere};

verus! {

/// The symbols that a call mentions. The name of the function that is called is a static
/// constant of the program, so it is not among them.
pub open spec fn call_symbols(call: Call) -> Set<Symbol> {
    call.arguments@.to_set()
}

/// The symbols that an expression mentions.
pub open spec fn expr_symbols(expr: Expr) -> Set<Symbol> {
    match expr {
        Expr::AccessAtIndex { structure, .. } => set![structure],
        Expr::Call(call) => call_symbols(call),
        Expr::Tag { arguments, .. } => arguments@.to_set(),
        Expr::Struct(arguments) => arguments@.to_set(),
        Expr::Array { elems, .. } => elems@.to_set(),
        Expr::Reuse { symbol, arguments, .. } => arguments@.to_set().insert(symbol),
        Expr::Reset(symbol) => set![symbol],
        Expr::EmptyArray | Expr::RuntimeErrorFunction(_) | Expr::Literal(_) => Set::empty(),
    }
}

/// The symbols of a list of parameters.
pub open spec fn param_symbols(params: Seq<Param>) -> Set<Symbol> {
    Set::new(|x: Symbol| exists|i: int| 0 <= i < params.len() && #[trigger] params[i].symbol == x)
}

/// The symbols that occur anywhere in a statement, bound or not.
pub open spec fn stmt_symbols(stmt: StmtView) -> Set<Symbol>
    decreases stmt,
{
    match stmt {
        StmtView::Let(symbol, expr, _, cont) => expr_symbols(expr).insert(symbol).union(
            stmt_symbols(*cont),
        ),
        StmtView::Invoke { symbol, call, pass, fail, .. } => call_symbols(call).insert(
            symbol,
        ).union(stmt_symbols(*pass)).union(stmt_symbols(*fail)),
        StmtView::Ret(symbol) => set![symbol],
        StmtView::Refcounting(modify, cont) => stmt_symbols(*cont).insert(modify.symbol()),
        StmtView::Jump(_, arguments) => arguments@.to_set(),
        StmtView::Join { parameters, continuation, remainder, .. } => param_symbols(
            parameters@,
        ).union(stmt_symbols(*continuation)).union(stmt_symbols(*remainder)),
        StmtView::Switch { cond_symbol, branches, default_branch, .. } => Set::new(
            |x: Symbol|
                exists|i: int|
                    0 <= i < branches.len() && stmt_symbols(#[trigger] branches[i].2).contains(x),
        ).union(stmt_symbols(*default_branch.1)).insert(cond_symbol),
        StmtView::Rethrow | StmtView::RuntimeError(_) => Set::empty(),
    }
}

/// The symbols that a `let` or an `invoke` binds anywhere in a statement.
pub open spec fn bound_symbols(stmt: StmtView) -> Set<Symbol>
    decreases stmt,
{
    match stmt {
        StmtView::Let(symbol, _, _, cont) => bound_symbols(*cont).insert(symbol),
        StmtView::Invoke { symbol, pass, fail, .. } => bound_symbols(*pass).union(
            bound_symbols(*fail),
        ).insert(symbol),
        StmtView::Refcounting(_, cont) => bound_symbols(*cont),
        StmtView::Join { continuation, remainder, .. } => bound_symbols(*continuation).union(
            bound_symbols(*remainder),
        ),
        StmtView::Switch { branches, default_branch, .. } => Set::new(
            |x: Symbol|
                exists|i: int|
                    0 <= i < branches.len() && bound_symbols(#[trigger] branches[i].2).contains(x),
        ).union(bound_symbols(*default_branch.1)),
        StmtView::Ret(_)
        | StmtView::Jump(_, _)
        | StmtView::Rethrow
        | StmtView::RuntimeError(_) => Set::empty(),
    }
}

/// The symbols that occur in one of the statements of a work list.
spec fn pending_symbols(stack: Seq<&Stmt>) -> Set<Symbol>
    decreases stack.len(),
{
    if stack.len() == 0 {
        Set::empty()
    } else {
        pending_symbols(stack.drop_last()).union(stmt_symbols(stack.last()@))
    }
}

/// The symbols that are bound in one of the statements of a work list.
spec fn pending_bound(stack: Seq<&Stmt>) -> Set<Symbol>
    decreases stack.len(),
{
    if stack.len() == 0 {
        Set::empty()
    } else {
        pending_bound(stack.drop_last()).union(bound_symbols(stack.last()@))
    }
}

/// The number of nodes of the statements of a work list.
spec fn pending_nodes(stack: Seq<&Stmt>) -> nat
    decreases stack.len(),
{
    if stack.len() == 0 {
        0
    } else {
        pending_nodes(stack.drop_last()) + node_count(stack.last()@)
    }
}

/// What pushing a statement onto a work list changes.
proof fn lemma_pending_push<'b, 'a>(stack: Seq<&'b Stmt<'a>>, stmt: &'b Stmt<'a>)
    ensures
        pending_symbols(stack.push(stmt)) == pending_symbols(stack).union(stmt_symbols(stmt@)),
        pending_bound(stack.push(stmt)) == pending_bound(stack).union(bound_symbols(stmt@)),
        pending_nodes(stack.push(stmt)) == pending_nodes(stack) + node_count(stmt@),
{
    assert(stack.push(stmt).drop_last() =~= stack);
}

/// The symbols that occur in `stmt` and that no `let` or `invoke` of `stmt` binds.
pub fn free_variables(stmt: &Stmt<'_>) -> (r: MutSet<Symbol>)
    ensures
        r@ == stmt_symbols(stmt@).difference(bound_symbols(stmt@)),
        forall|x: Symbol| #[trigger]
            r@.contains(x) <==> named_somewhere(stmt@, x) && !binds_somewhere(stmt@, x),
{
    proof {
        assert forall|x: Symbol| #[trigger] stmt_symbols(stmt@).contains(x) <==> named_somewhere(
            stmt@,
            x,
        ) by {
            law_named_and_bound(stmt@, x);
        }
        assert forall|x: Symbol| #[trigger] bound_symbols(stmt@).contains(x) <==> binds_somewhere(
            stmt@,
            x,
        ) by {
            law_named_and_bound(stmt@, x);
        }
    }
    let (mut occuring, bound) = occuring_variables(stmt);
    let ghost all = occuring@;
    for s in iter: bound.iter()
        invariant
            occuring@ == all.difference(
                iter.seq().unref().take(iter.index() as int).to_set(),
            ),
            iter.seq().unref().to_set() == bound@,
            iter.index() == iter.seq().len() ==> occuring@ == all.difference(bound@),
    {
        proof {
            let items = iter.seq().unref();
            let n = iter.index() as int;
            assert(items.take(n + 1) =~= items.take(n).push(items[n]));
            crate::collections::lemma_to_set_push(items.take(n), items[n]);
        }
        occuring.remove(s);
        proof {
            let items = iter.seq().unref();
            let n = iter.index() as int;
            assert(occuring@ =~= all.difference(items.take(n + 1).to_set()));
            assert(items.take(items.len() as int) =~= items);
        }
    }
    occuring
}

/// The symbols that occur in `stmt`, and the symbols that are bound in it.
pub fn occuring_variables(stmt: &Stmt<'_>) -> (r: (MutSet<Symbol>, MutSet<Symbol>))
    ensures
        r.0@ == stmt_symbols(stmt@),
        r.1@ == bound_symbols(stmt@),
        forall|x: Symbol| #[trigger] r.0@.contains(x) <==> named_somewhere(stmt@, x),
        forall|x: Symbol| #[trigger] r.1@.contains(x) <==> binds_somewhere(stmt@, x),
{
    proof {
        assert forall|x: Symbol| #[trigger] stmt_symbols(stmt@).contains(x) <==> named_somewhere(
            stmt@,
            x,
        ) by {
            law_named_and_bound(stmt@, x);
        }
        assert forall|x: Symbol| #[trigger] bound_symbols(stmt@).contains(x) <==> binds_somewhere(
            stmt@,
            x,
        ) by {
            law_named_and_bound(stmt@, x);
        }
    }
    let mut stack: Vec<&Stmt<'_>> = Vec::new();
    let mut result: MutSet<Symbol> = MutSet::new();
    let mut bound_variables: MutSet<Symbol> = MutSet::new();
    proof {
        lemma_pending_push(stack@, stmt);
    }
    stack.push(stmt);
    assert(result@.union(pending_symbols(stack@)) =~= stmt_symbols(stmt@));
    assert(bound_variables@.union(pending_bound(stack@)) =~= bound_symbols(stmt@));

    while stack.len() > 0
        invariant
            result@.union(pending_symbols(stack@)) == stmt_symbols(stmt@),
            bound_variables@.union(pending_bound(stack@)) == bound_symbols(stmt@),
        decreases pending_nodes(stack@),
    {
        let ghost before = stack@;
        let ghost seen = result@;
        let ghost bound_seen = bound_variables@;
        let top = stack.pop().unwrap();
        let ghost rest = stack@;
        match *top {
            Stmt::Let(symbol, ref expr, _, cont) => {
                occuring_variables_expr(expr, &mut result);
                result.insert(symbol);
                bound_variables.insert(symbol);
                proof {
                    lemma_pending_push(rest, cont);
                }
                stack.push(cont);
            },
            Stmt::Invoke { symbol, ref call, pass, fail, .. } => {
                occuring_variables_call(call, &mut result);
                result.insert(symbol);
                bound_variables.insert(symbol);
                proof {
                    lemma_pending_push(rest, pass);
                    lemma_pending_push(rest.push(pass), fail);
                }
                stack.push(pass);
                stack.push(fail);
            },
            Stmt::Ret(symbol) => {
                result.insert(symbol);
            },
            Stmt::Rethrow => {},
            Stmt::Refcounting(modify, cont) => {
                let symbol = modify.get_symbol();
                result.insert(symbol);
                proof {
                    lemma_pending_push(rest, cont);
                }
                stack.push(cont);
            },
            Stmt::Jump(_, arguments) => {
                extend_with_slice(&mut result, arguments);
            },
            Stmt::Join { parameters, continuation, remainder, .. } => {
                extend_with_params(&mut result, parameters);
                proof {
                    lemma_pending_push(rest, continuation);
                    lemma_pending_push(rest.push(continuation), remainder);
                }
                stack.push(continuation);
                stack.push(remainder);
            },
            Stmt::Switch { cond_symbol, branches, default_branch, .. } => {
                result.insert(cond_symbol);
                push_branches(branches.as_slice(), &mut stack);
                let ghost with_branches = stack@;
                proof {
                    lemma_pending_push(with_branches, default_branch.1);
                    assert(bound_seen.union(pending_bound(before)) =~= bound_variables@.union(
                        pending_bound(with_branches.push(default_branch.1)),
                    ));
                }
                stack.push(default_branch.1);
            },
            Stmt::RuntimeError(_) => {},
        }
        assert(seen.union(pending_symbols(before)) =~= result@.union(pending_symbols(stack@)));
        assert(bound_seen.union(pending_bound(before)) =~= bound_variables@.union(
            pending_bound(stack@),
        ));
    }
    assert(result@.union(pending_symbols(stack@)) =~= result@);
    assert(bound_variables@.union(pending_bound(stack@)) =~= bound_variables@);
    (result, bound_variables)
}

/// Pushes the bodies of the given branches onto a work list.
fn push_branches<'b, 'a>(branches: &'b [(u64, BranchInfo, Stmt<'a>)], stack: &mut Vec<&'b Stmt<'a>>)
    ensures
        pending_symbols(final(stack)@) == pending_symbols(old(stack)@).union(
            Set::new(
                |x: Symbol|
                    exists|i: int|
                        0 <= i < branches@.len() && stmt_symbols(
                            #[trigger] branch_views(branches@)[i].2,
                        ).contains(x),
            ),
        ),
        pending_bound(final(stack)@) == pending_bound(old(stack)@).union(
            Set::new(
                |x: Symbol|
                    exists|i: int|
                        0 <= i < branches@.len() && bound_symbols(
                            #[trigger] branch_views(branches@)[i].2,
                        ).contains(x),
            ),
        ),
        pending_nodes(final(stack)@) == pending_nodes(old(stack)@) + branches_node_count(
            branch_views(branches@),
        ),
{
    let ghost start = stack@;
    let ghost views = branch_views(branches@);
    let mut i: usize = 0;
    while i < branches.len()
        invariant
            i <= branches.len(),
            views == branch_views(branches@),
            forall|x: Symbol| #[trigger]
                pending_symbols(stack@).contains(x) <==> pending_symbols(start).contains(x)
                    || exists|k: int|
                    0 <= k < i && stmt_symbols(#[trigger] views[k].2).contains(x),
            forall|x: Symbol| #[trigger]
                pending_bound(stack@).contains(x) <==> pending_bound(start).contains(x)
                    || exists|k: int|
                    0 <= k < i && bound_symbols(#[trigger] views[k].2).contains(x),
            pending_nodes(stack@) == pending_nodes(start) + branches_node_count(
                views.take(i as int),
            ),
        decreases branches.len() - i,
    {
        proof {
            lemma_pending_push(stack@, &branches@[i as int].2);
            assert(views.take(i + 1).drop_last() =~= views.take(i as int));
            assert(views[i as int].2 == branches@[i as int].2@);
        }
        stack.push(&branches[i].2);
        i += 1;
    }
    assert(views.take(i as int) =~= views);
    assert(pending_symbols(stack@) =~= pending_symbols(start).union(
        Set::new(
            |x: Symbol|
                exists|k: int|
                    0 <= k < branches@.len() && stmt_symbols(
                        #[trigger] branch_views(branches@)[k].2,
                    ).contains(x),
        ),
    ));
    assert(pending_bound(stack@) =~= pending_bound(start).union(
        Set::new(
            |x: Symbol|
                exists|k: int|
                    0 <= k < branches@.len() && bound_symbols(
                        #[trigger] branch_views(branches@)[k].2,
                    ).contains(x),
        ),
    ));
}

/// Adds the symbols of a list of parameters to `result`.
fn extend_with_params(result: &mut MutSet<Symbol>, params: &[Param])
    ensures
        final(result)@ == old(result)@.union(param_symbols(params@)),
{
    let ghost start = result@;
    let mut i: usize = 0;
    while i < params.len()
        invariant
            i <= params.len(),
            forall|x: Symbol| #[trigger]
                result@.contains(x) <==> start.contains(x) || exists|k: int|
                    0 <= k < i && #[trigger] params@[k].symbol == x,
        decreases params.len() - i,
    {
        result.insert(params[i].symbol);
        i += 1;
    }
    assert(result@ =~= start.union(param_symbols(params@)));
}

/// Adds the symbols that a call mentions to `result`.
pub fn occuring_variables_call(call: &Call<'_>, result: &mut MutSet<Symbol>)
    ensures
        final(result)@ == old(result)@.union(call_symbols(*call)),
        final(result)@ == old(result)@.union(call.arguments@.to_set()),
{
    extend_with_slice(result, call.arguments);
}

/// Adds the symbols that an expression mentions to `result`.
pub fn occuring_variables_expr(expr: &Expr<'_>, result: &mut MutSet<Symbol>)
    ensures
        final(result)@ == old(result)@.union(expr_symbols(*expr)),
        forall|x: Symbol| #[trigger]
            final(result)@.contains(x) <==> old(result)@.contains(x) || operands(*expr).contains(x),
{
    proof {
        assert forall|x: Symbol| #[trigger] expr_symbols(*expr).contains(x) <==> operands(
            *expr,
        ).contains(x) by {
            law_expression_symbols(*expr, x);
        }
    }
    let ghost start = result@;
    match expr {
        Expr::AccessAtIndex { structure, .. } => {
            result.insert(*structure);
        },
        Expr::Call(call) => occuring_variables_call(call, result),
        Expr::Tag { arguments, .. } => extend_with_slice(result, arguments),
        Expr::Struct(arguments) => extend_with_slice(result, arguments),
        Expr::Array { elems, .. } => extend_with_slice(result, elems),
        Expr::Reuse { symbol, arguments, .. } => {
            extend_with_slice(result, arguments);
            result.insert(*symbol);
        },
        Expr::Reset(x) => {
            result.insert(*x);
        },
        Expr::EmptyArray | Expr::RuntimeErrorFunction(_) | Expr::Literal(_) => {},
    }
    assert(result@ =~= start.union(expr_symbols(*expr)));
}

} // verus!
