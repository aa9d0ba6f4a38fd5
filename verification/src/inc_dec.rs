//! The insertion of explicit reference-count instructions.
//!
//! The statements that come in are meant to be free of such instructions: the pass runs
//! before any optimization that works on them.
use vstd::prelude::*;

use crate::arena::{
    alloc_in, let_chain_as_slice, let_chain_items, let_chain_new_in, let_chain_push,
    slice_from_iter_in,
};
use crate::borrow::{Key, ParamMap, BORROWED, OWNED};
use crate::collections::{set_elements, MutMap, MutSet};
use crate::insertion::{
    behind_lets, consumptions, consumptions_upto, flagged, free_containers, higher_order_borrows,
    higher_order_shape, initial_context, is_borrowed, is_first, owned_params_of, proc_params,
    visitable, visitable_alt, visitable_in, visits, visits_alt, visits_in, visits_proc, ConsumePred,
    ContextView, VarInfo,
};
use crate::ir::{
    branch_views, branches_node_count, lemma_branch_node_count, node_count, Branch, Branches, Call,
    CallType, Expr, JoinPointId, Layout, LowLevel, LowLevelOp, ModifyRc, Param, Proc, Stmt,
    StmtView, Symbol,
};
use crate::likeness::like_expr;
pub use crate::liveness::collect_stmt;
use crate::liveness::{
    jp_view, live, update_jp_live_vars, update_live_vars, JPLiveVarMap, LiveVarSet,
};
use crate::occurrence::expr_symbols;
pub use crate::occurrence::{free_variables, occuring_variables, occuring_variables_expr};
use crate::scope::{fates_upto, names_param, operands, Fate};
use crate::steps::{
    behind_let_of, dec_due, in_front, inc_due, law_decrements_behind_application,
    law_decrements_behind_builtin, law_decrements_for_alternative, law_decrements_for_params,
    law_increments, law_let, lent_to, new_at, param_dec_due, passed_fate, taking,
};
use crate::totals::{handed, lemma_consumptions_taken};
use crate::usage::law_expression_symbols;
use bumpalo::Bump;

verus! {

/// What is known of each variable.
pub type VarMap = MutMap<Symbol, VarInfo>;

/// The declarations of join points.
pub struct LocalContext<'a> {
    join_points: MutMap<JoinPointId, (&'a [Param], &'a Stmt<'a>)>,
}

impl<'a> View for LocalContext<'a> {
    type V = Map<JoinPointId, (&'a [Param], &'a Stmt<'a>)>;

    closed spec fn view(&self) -> Map<JoinPointId, (&'a [Param], &'a Stmt<'a>)> {
        self.join_points@
    }
}

impl<'a> Default for LocalContext<'a> {
    /// No declarations.
    fn default() -> (r: Self)
        ensures
            r@ == Map::<JoinPointId, (&'a [Param], &'a Stmt<'a>)>::empty(),
    {
        LocalContext { join_points: MutMap::new() }
    }
}

impl<'a> Clone for LocalContext<'a> {
    /// The same declarations.
    fn clone(&self) -> (r: Self)
        ensures
            r@ == self@,
    {
        LocalContext { join_points: self.join_points.clone() }
    }
}

/// What is known at a point of a procedure.
pub struct Context<'a> {
    arena: &'a Bump,
    vars: VarMap,
    /// For each join point, the live variables.
    jp_live_vars: JPLiveVarMap,
    /// The join point declarations.
    local_context: LocalContext<'a>,
    param_map: &'a ParamMap<'a>,
}

impl<'a> View for Context<'a> {
    type V = ContextView<'a>;

    closed spec fn view(&self) -> ContextView<'a> {
        ContextView {
            vars: self.vars@,
            jp_live_vars: jp_view(self.jp_live_vars),
            param_map: self.param_map@,
        }
    }
}

impl<'a> Clone for Context<'a> {
    /// A context that knows the same.
    fn clone(&self) -> (r: Self)
        ensures
            r@ == self@,
            r.declarations() == self.declarations(),
    {
        Context {
            arena: self.arena,
            vars: self.vars.clone(),
            jp_live_vars: self.jp_live_vars.clone(),
            local_context: self.local_context.clone(),
            param_map: self.param_map,
        }
    }
}

/// Is `xs[i]` the first occurrence of its symbol in `xs`?
pub fn is_first_occurence(xs: &[Symbol], i: usize) -> (r: bool)
    requires
        i < xs@.len(),
    ensures
        r == is_first(xs@, i as int),
        r <==> forall|j: int| 0 <= j < i ==> xs@[j] != xs@[i as int],
{
    let s = xs[i];
    let mut j: usize = 0;
    while j < i
        invariant
            j <= i < xs@.len(),
            s == xs@[i as int],
            forall|k: int| 0 <= k < j ==> xs@[k] != s,
        decreases i - j,
    {
        if xs[j] == s {
            return false;
        }
        j += 1;
    }
    true
}

impl<'b> ConsumePred<'b> {
    /// Is the argument at position `i` consumed?
    pub fn is_consumed(&self, i: usize) -> (r: bool)
        ensures
            r == self.consumes(i as int),
            r <==> match *self {
                ConsumePred::All => true,
                ConsumePred::Params(ps) => i >= ps@.len() || !ps@[i as int].borrow,
            },
    {
        match self {
            ConsumePred::All => true,
            // default to owned arguments
            ConsumePred::Params(ps) => match ps.get(i) {
                Some(param) => !param.borrow,
                None => true,
            },
        }
    }
}

/// The number of times that `x` is consumed, where `ys` are the arguments and
/// `consume_param_pred` tells which positions are consumed.
pub fn get_num_consumptions(
    x: Symbol,
    ys: &[Symbol],
    consume_param_pred: ConsumePred<'_>,
) -> (r: usize)
    ensures
        r == consumptions(x, ys@, consume_param_pred),
        r == fates_upto(
            ys@,
            |i: int| passed_fate(consume_param_pred, i),
            x,
            Fate::Taken,
            ys@.len(),
        ),
{
    proof {
        lemma_consumptions_taken(
            x,
            ys@,
            consume_param_pred,
            |i: int| passed_fate(consume_param_pred, i),
            ys@.len(),
        );
    }
    let mut n: usize = 0;
    let mut i: usize = 0;
    while i < ys.len()
        invariant
            i <= ys@.len(),
            n <= i,
            n == consumptions_upto(x, ys@, consume_param_pred, i as nat),
        decreases ys@.len() - i,
    {
        if ys[i] == x && consume_param_pred.is_consumed(i) {
            n += 1;
        }
        i += 1;
    }
    n
}

/// Does `x` also occur in `ys` in a position that is not consumed? That is, is it also passed
/// as a borrowed reference?
pub fn is_borrow_param_help(
    x: Symbol,
    ys: &[Symbol],
    consume_param_pred: ConsumePred<'_>,
) -> (r: bool)
    ensures
        r == is_borrowed(x, ys@, consume_param_pred),
        r <==> exists|i: int|
            0 <= i < ys@.len() && #[trigger] ys@[i] == x && passed_fate(
                consume_param_pred,
                i,
            ) is Lent,
{
    let mut i: usize = 0;
    while i < ys.len()
        invariant
            i <= ys@.len(),
            forall|k: int|
                0 <= k < i && #[trigger] ys@[k] == x ==> consume_param_pred.consumes(k),
        decreases ys@.len() - i,
    {
        if ys[i] == x && !consume_param_pred.is_consumed(i) {
            return true;
        }
        i += 1;
    }
    false
}

/// Is `x` passed in `ys` as a borrowed reference, where `ps` are the parameters? Arguments
/// without a parameter are owned.
pub fn is_borrow_param(x: Symbol, ys: &[Symbol], ps: &[Param]) -> (r: bool)
    ensures
        r == is_borrowed(x, ys@, ConsumePred::Params(ps)),
        r <==> exists|i: int|
            0 <= i < ys@.len() && i < ps@.len() && #[trigger] ys@[i] == x && ps@[i].borrow,
{
    is_borrow_param_help(x, ys, ConsumePred::Params(ps))
}

/// Must the variable that is bound to `e` be consumed? The projection of a variable that is
/// not consumed need not be.
pub fn consume_expr(m: &VarMap, e: &Expr<'_>) -> (r: bool)
    ensures
        r == match *e {
            Expr::AccessAtIndex { structure, .. } => m@.contains_key(structure)
                ==> m@[structure].consume,
            _ => true,
        },
{
    match e {
        Expr::AccessAtIndex { structure, .. } => match m.get(structure) {
            Some(info) => info.consume,
            None => true,
        },
        _ => true,
    }
}

/// Must the variable that is bound by a call be consumed? It always must.
pub fn consume_call(_m: &VarMap, _call: &Call<'_>) -> (r: bool)
    ensures
        r,
{
    true
}

/// `b`, where `borrow` says that `argument` is borrowed; otherwise `b` behind an instruction
/// that frees `argument` and leaves its contents alone.
fn decref_if_owned<'a>(arena: &'a Bump, borrow: bool, argument: Symbol, b: &'a Stmt<'a>) -> (r:
    &'a Stmt<'a>)
    ensures
        r@ == if borrow {
            b@
        } else {
            StmtView::Refcounting(ModifyRc::DecRef(argument), Box::new(b@))
        },
{
    if !borrow {
        alloc_in(arena, Stmt::Refcounting(ModifyRc::DecRef(argument), b))
    } else {
        b
    }
}

/// The call of an operation that takes a function, where `closure_data` is the parameter of
/// the function that stands for the closure data.
fn create_call<'a>(
    op: LowLevel<'a>,
    closure_layout: Layout,
    call: Call<'a>,
    closure_data: Option<&Param>,
) -> (r: Expr<'a>)
    ensures
        r == Expr::Call(
            if closure_data is Some && closure_data->0.borrow == OWNED {
                Call {
                    call_type: CallType::HigherOrderLowLevel {
                        op,
                        closure_layout,
                        function_owns_closure_data: true,
                    },
                    arguments: call.arguments,
                }
            } else {
                call
            },
        ),
{
    if let Some(p) = closure_data {
        if p.borrow == OWNED {
            return Expr::Call(
                Call {
                    call_type: CallType::HigherOrderLowLevel {
                        op,
                        closure_layout,
                        function_owns_closure_data: true,
                    },
                    arguments: call.arguments,
                },
            );
        }
    }
    Expr::Call(call)
}

impl<'a> Context<'a> {
    /// The join points that are declared.
    pub closed spec fn declarations(self) -> Map<JoinPointId, (&'a [Param], &'a Stmt<'a>)> {
        self.local_context@
    }

    /// The context at the start of a program, in which no join point is declared. The
    /// functions that `param_map` has an entry for are taken for global constants: they are
    /// never counted nor consumed.
    pub fn new(arena: &'a Bump, param_map: &'a ParamMap<'a>) -> (r: Self)
        ensures
            r@ == initial_context(param_map@),
            forall|x: Symbol| #[trigger]
                r@.vars.contains_key(x) <==> exists|layout: Layout| #[trigger]
                    param_map@.contains_key(Key::Declaration(x, layout)),
            forall|x: Symbol| #[trigger]
                r@.vars.contains_key(x) ==> r@.vars[x] == (VarInfo {
                    reference: false,
                    persistent: true,
                    consume: false,
                }),
            r@.jp_live_vars == Map::<JoinPointId, Set<Symbol>>::empty(),
            r@.param_map == param_map@,
            r.declarations() == Map::<JoinPointId, (&'a [Param], &'a Stmt<'a>)>::empty(),
    {
        let mut vars: VarMap = MutMap::new();
        let symbols = param_map.declared();
        let ghost constant = VarInfo { reference: false, persistent: true, consume: false };
        let mut i: usize = 0;
        while i < symbols.len()
            invariant
                i <= symbols@.len(),
                constant == (VarInfo { reference: false, persistent: true, consume: false }),
                forall|x: Symbol| #[trigger]
                    vars@.contains_key(x) <==> symbols@.take(i as int).to_set().contains(x),
                forall|x: Symbol| #[trigger] vars@.contains_key(x) ==> vars@[x] == constant,
            decreases symbols@.len() - i,
        {
            proof {
                let before = symbols@.take(i as int);
                assert(symbols@.take(i + 1) =~= before.push(symbols@[i as int]));
                crate::collections::lemma_to_set_push(before, symbols@[i as int]);
            }
            vars.insert(
                symbols[i],
                VarInfo { reference: false, persistent: true, consume: false },
            );
            i += 1;
        }
        let r = Context {
            arena,
            vars,
            jp_live_vars: MutMap::new(),
            local_context: LocalContext::default(),
            param_map,
        };
        proof {
            assert(symbols@.take(i as int) =~= symbols@);
            assert(r@.vars =~= initial_context(param_map@).vars);
            assert(r@.jp_live_vars =~= Map::<JoinPointId, Set<Symbol>>::empty());
        }
        r
    }

    /// What is known of `symbol`.
    pub fn get_var_info(&self, symbol: Symbol) -> (r: VarInfo)
        requires
            self@.knows(symbol),
        ensures
            r == self@.vars[symbol],
    {
        *self.vars.get(&symbol).unwrap()
    }

    /// Adds `inc_amount` to the count of `symbol` in front of `stmt`, where it is counted.
    pub fn add_inc(&self, symbol: Symbol, inc_amount: u64, stmt: &'a Stmt<'a>) -> (r: &'a Stmt<'a>)
        requires
            inc_amount > 0,
            self@.knows(symbol),
        ensures
            r@ == self@.add_inc(symbol, inc_amount, stmt@),
            r@ == if self@.vars[symbol].reference && !self@.vars[symbol].persistent {
                StmtView::Refcounting(ModifyRc::Inc(symbol, inc_amount), Box::new(stmt@))
            } else {
                stmt@
            },
    {
        let info = self.get_var_info(symbol);
        if info.persistent {
            // persistent values are never reference counted
            return stmt;
        }
        // if this symbol is never a reference, nothing is emitted
        if !info.reference {
            return stmt;
        }
        alloc_in(self.arena, Stmt::Refcounting(ModifyRc::Inc(symbol, inc_amount), stmt))
    }

    /// Takes one from the count of `symbol` in front of `stmt`, where it is counted.
    pub fn add_dec(&self, symbol: Symbol, stmt: &'a Stmt<'a>) -> (r: &'a Stmt<'a>)
        requires
            self@.knows(symbol),
        ensures
            r@ == self@.add_dec(symbol, stmt@),
            r@ == if self@.vars[symbol].reference && !self@.vars[symbol].persistent {
                StmtView::Refcounting(ModifyRc::Dec(symbol), Box::new(stmt@))
            } else {
                stmt@
            },
    {
        let info = self.get_var_info(symbol);
        if info.persistent {
            // persistent values are never reference counted
            return stmt;
        }
        // if this symbol is never a reference, nothing is emitted
        if !info.reference {
            return stmt;
        }
        alloc_in(self.arena, Stmt::Refcounting(ModifyRc::Dec(symbol), stmt))
    }

    /// `b` behind the increments that passing `xs` asks for, where every position consumes
    /// its argument.
    pub fn add_inc_before_consume_all(
        &self,
        xs: &[Symbol],
        b: &'a Stmt<'a>,
        live_vars_after: &LiveVarSet,
    ) -> (r: &'a Stmt<'a>)
        requires
            self@.knows_all(xs@),
        ensures
            r@ == self@.inc_before(xs@, ConsumePred::All, b@, live_vars_after@),
            r@ == in_front(
                xs@.len(),
                |i: int| inc_due(self@, xs@, ConsumePred::All, live_vars_after@, i),
                b@,
            ),
    {
        self.add_inc_before_help(xs, ConsumePred::All, b, live_vars_after)
    }

    /// `b` behind the increments that passing `xs` asks for, where `consume_param_pred` tells
    /// which positions consume their argument.
    pub fn add_inc_before_help(
        &self,
        xs: &[Symbol],
        consume_param_pred: ConsumePred<'_>,
        b: &'a Stmt<'a>,
        live_vars_after: &LiveVarSet,
    ) -> (r: &'a Stmt<'a>)
        requires
            self@.knows_all(xs@),
        ensures
            r@ == self@.inc_before(xs@, consume_param_pred, b@, live_vars_after@),
            r@ == in_front(
                xs@.len(),
                |i: int| inc_due(self@, xs@, consume_param_pred, live_vars_after@, i),
                b@,
            ),
    {
        proof {
            law_increments(self@, xs@, consume_param_pred, b@, live_vars_after@);
        }
        let mut out = b;
        let mut i: usize = 0;
        while i < xs.len()
            invariant
                i <= xs@.len(),
                self@.knows_all(xs@),
                out@ == self@.inc_before_upto(
                    xs@,
                    consume_param_pred,
                    b@,
                    live_vars_after@,
                    i as nat,
                ),
            decreases xs@.len() - i,
        {
            let x = xs[i];
            let info = self.get_var_info(x);
            if !info.reference || !is_first_occurence(xs, i) {
                // nothing is passed on here
            } else {
                // the number of times the argument is consumed
                let num_consumptions = get_num_consumptions(x, xs, consume_param_pred);
                // `x` is not a variable that must be consumed by the current procedure
                let need_not_consume = !info.consume;
                // `x` is live behind the instruction
                let is_live_after = live_vars_after.contains(&x);
                // `x` is used in a position that is passed as a borrowed reference
                let is_borrowed = is_borrow_param_help(x, xs, consume_param_pred);
                proof {
                    if !is_borrowed {
                        lemma_consumed_somewhere(x, xs@, consume_param_pred, i as int);
                    }
                }
                let num_incs: usize = if need_not_consume || is_live_after || is_borrowed {
                    num_consumptions
                } else {
                    num_consumptions - 1
                };
                if num_incs >= 1 {
                    out = self.add_inc(x, num_incs as u64, out);
                }
            }
            i += 1;
        }
        out
    }

    /// `b` behind the increments that passing `xs` to the parameters `ps` asks for.
    pub fn add_inc_before(
        &self,
        xs: &[Symbol],
        ps: &[Param],
        b: &'a Stmt<'a>,
        live_vars_after: &LiveVarSet,
    ) -> (r: &'a Stmt<'a>)
        requires
            self@.knows_all(xs@),
        ensures
            r@ == self@.inc_before(xs@, ConsumePred::Params(ps), b@, live_vars_after@),
            r@ == in_front(
                xs@.len(),
                |i: int| inc_due(self@, xs@, ConsumePred::Params(ps), live_vars_after@, i),
                b@,
            ),
    {
        self.add_inc_before_help(xs, ConsumePred::Params(ps), b, live_vars_after)
    }

    /// Takes one from the count of `x` in front of `b` where `x` must be consumed and is dead
    /// in `b`.
    pub fn add_dec_if_needed(&self, x: Symbol, b: &'a Stmt<'a>, b_live_vars: &LiveVarSet) -> (r:
        &'a Stmt<'a>)
        requires
            self@.knows(x),
        ensures
            r@ == self@.dec_if_needed(x, b@, b_live_vars@),
            r@ == match dec_due(self@, x, !b_live_vars@.contains(x)) {
                Some(modify) => StmtView::Refcounting(modify, Box::new(b@)),
                None => b@,
            },
    {
        if self.must_consume(x) && !b_live_vars.contains(&x) {
            self.add_dec(x, b)
        } else {
            b
        }
    }

    /// Must the current procedure consume `x`?
    pub fn must_consume(&self, x: Symbol) -> (r: bool)
        requires
            self@.knows(x),
        ensures
            r == self@.must_consume(x),
            r <==> self@.vars[x].reference && self@.vars[x].consume,
    {
        let info = self.get_var_info(x);
        info.reference && info.consume
    }

    /// `b` behind a decrement for each argument of a call with the parameters `ps` that must
    /// be consumed, that the call has borrowed and that is dead in `b`.
    ///
    /// An argument may occur more than once, as in `f x y x`: only its first occurrence
    /// counts.
    pub fn add_dec_after_application(
        &self,
        xs: &[Symbol],
        ps: &[Param],
        b: &'a Stmt<'a>,
        b_live_vars: &LiveVarSet,
    ) -> (r: &'a Stmt<'a>)
        requires
            self@.knows_all(xs@),
        ensures
            r@ == self@.dec_after_application(xs@, ps, b@, b_live_vars@),
            r@ == in_front(
                xs@.len(),
                |i: int|
                    dec_due(
                        self@,
                        xs@[i],
                        new_at(xs@, i) && lent_to(xs@, ps@, xs@[i]) && !b_live_vars@.contains(
                            xs@[i],
                        ),
                    ),
                b@,
            ),
    {
        proof {
            law_decrements_behind_application(self@, xs@, ps, b@, b_live_vars@);
        }
        let mut out = b;
        let mut i: usize = 0;
        while i < xs.len()
            invariant
                i <= xs@.len(),
                self@.knows_all(xs@),
                out@ == self@.dec_after_application_upto(xs@, ps, b@, b_live_vars@, i as nat),
            decreases xs@.len() - i,
        {
            let x = xs[i];
            if self.must_consume(x) && is_first_occurence(xs, i) && is_borrow_param(x, xs, ps)
                && !b_live_vars.contains(&x) {
                out = self.add_dec(x, out);
            }
            i += 1;
        }
        out
    }

    /// `b` behind a decrement for each argument of a built-in or foreign call with the borrow
    /// signature `ps` that must be consumed, that the call has borrowed and that is dead in
    /// `b`.
    ///
    /// An argument may occur more than once, as in `f x y x`: only its first occurrence
    /// counts.
    pub fn add_dec_after_lowlevel(
        &self,
        xs: &[Symbol],
        ps: &[bool],
        b: &'a Stmt<'a>,
        b_live_vars: &LiveVarSet,
    ) -> (r: &'a Stmt<'a>)
        requires
            self@.dec_after_lowlevel_defined(xs@, ps@),
        ensures
            r@ == self@.dec_after_lowlevel(xs@, ps@, b@, b_live_vars@),
            r@ == in_front(
                xs@.len(),
                |i: int|
                    dec_due(
                        self@,
                        xs@[i],
                        i < ps@.len() && ps@[i] && new_at(xs@, i) && !b_live_vars@.contains(xs@[i]),
                    ),
                b@,
            ),
    {
        proof {
            law_decrements_behind_builtin(self@, xs@, ps@, b@, b_live_vars@);
        }
        let mut out = b;
        let mut i: usize = 0;
        while i < xs.len() && i < ps.len()
            invariant
                i <= flagged(xs@, ps@),
                self@.dec_after_lowlevel_defined(xs@, ps@),
                out@ == self@.dec_after_lowlevel_upto(xs@, ps@, b@, b_live_vars@, i as nat),
            decreases xs@.len() - i,
        {
            let x = xs[i];
            let is_borrow = ps[i];
            if self.must_consume(x) && is_first_occurence(xs, i) && is_borrow
                && !b_live_vars.contains(&x) {
                out = self.add_dec(x, out);
            }
            i += 1;
        }
        out
    }

    /// `let z = call` in front of `b`, with the instructions that the call asks for.
    pub fn visit_call(
        &self,
        z: Symbol,
        call_type: CallType<'a>,
        arguments: &'a [Symbol],
        l: Layout,
        b: &'a Stmt<'a>,
        b_live_vars: &LiveVarSet,
    ) -> (r: &'a Stmt<'a>)
        requires
            self@.call_defined(Call { call_type, arguments }),
        ensures
            r@ == self@.visit_call(z, Call { call_type, arguments }, l, b@, b_live_vars@),
            ({
                let v = Expr::Call(Call { call_type, arguments });
                exists|w: Expr<'a>| #[trigger]
                    like_expr(self@.param_map, v, w) && r@ == in_front(
                        handed(v).len(),
                        |i: int| inc_due(self@, handed(v), taking(self@, v), b_live_vars@, i),
                        StmtView::Let(
                            z,
                            w,
                            l,
                            Box::new(behind_let_of(self@, z, v, b@, b_live_vars@)),
                        ),
                    )
            }),
    {
        let call = Call { call_type, arguments };
        proof {
            let _ = law_let(self@, z, Expr::Call(call), l, b@, b_live_vars@);
        }
        match call_type {
            CallType::LowLevel { op } => {
                let b = self.add_dec_after_lowlevel(
                    arguments,
                    op.borrow_signature,
                    b,
                    b_live_vars,
                );
                alloc_in(self.arena, Stmt::Let(z, Expr::Call(call), l, b))
            },
            CallType::HigherOrderLowLevel { op, closure_layout, .. } => {
                self.visit_higher_order_call(z, op, closure_layout, call, l, b, b_live_vars)
            },
            CallType::Foreign { borrow_signature, .. } => {
                let b = self.add_dec_after_lowlevel(arguments, borrow_signature, b, b_live_vars);
                alloc_in(self.arena, Stmt::Let(z, Expr::Call(call), l, b))
            },
            CallType::ByName { name, full_layout, .. } => {
                // get the borrow signature
                let ps = self.param_map.get_symbol(name, full_layout).unwrap();
                let b = self.add_dec_after_application(arguments, ps, b, b_live_vars);
                let b = alloc_in(self.arena, Stmt::Let(z, Expr::Call(call), l, b));
                self.add_inc_before(arguments, ps, b, b_live_vars)
            },
        }
    }

    /// `let z = call` in front of `b`, where `call` is of a built-in operation that takes a
    /// function.
    fn visit_higher_order_call(
        &self,
        z: Symbol,
        op: LowLevel<'a>,
        closure_layout: Layout,
        call: Call<'a>,
        l: Layout,
        b: &'a Stmt<'a>,
        b_live_vars: &LiveVarSet,
    ) -> (r: &'a Stmt<'a>)
        requires
            call.call_type matches CallType::HigherOrderLowLevel { op: o, closure_layout: c, .. }
                && o == op && c == closure_layout,
            self@.call_defined(call),
        ensures
            r@ == self@.visit_call(z, call, l, b@, b_live_vars@),
    {
        let arguments = call.arguments;
        let function = BORROWED;
        let closure_data = BORROWED;
        let ghost shape = higher_order_shape(op.op)->0;
        let ghost ps = self@.function_params(arguments@, shape, closure_layout)@;
        match op.op {
            LowLevelOp::ListMap
            | LowLevelOp::ListKeepIf
            | LowLevelOp::ListKeepOks
            | LowLevelOp::ListKeepErrs => {
                let function_ps = self.param_map.get_symbol(
                    arguments[1],
                    closure_layout,
                ).unwrap();
                assert(shape.leading[0] == Some(0int));
                let borrows = [function_ps[0].borrow, function, closure_data];
                assert(borrows@ =~= higher_order_borrows(shape, ps));
                let b = self.add_dec_after_lowlevel(arguments, borrows.as_slice(), b, b_live_vars);
                // if the list is owned, then all elements have been consumed, but not the
                // list itself
                let b = decref_if_owned(self.arena, function_ps[0].borrow, arguments[0], b);
                proof {
                    reveal_with_fuel(free_containers, 2);
                }
                let v = create_call(op, closure_layout, call, function_ps.get(1));
                alloc_in(self.arena, Stmt::Let(z, v, l, b))
            },
            LowLevelOp::ListMapWithIndex => {
                let function_ps = self.param_map.get_symbol(
                    arguments[1],
                    closure_layout,
                ).unwrap();
                assert(shape.leading[0] == Some(1int));
                let borrows = [function_ps[1].borrow, function, closure_data];
                assert(borrows@ =~= higher_order_borrows(shape, ps));
                let b = self.add_dec_after_lowlevel(arguments, borrows.as_slice(), b, b_live_vars);
                let b = decref_if_owned(self.arena, function_ps[1].borrow, arguments[0], b);
                proof {
                    reveal_with_fuel(free_containers, 2);
                }
                let v = create_call(op, closure_layout, call, function_ps.get(2));
                alloc_in(self.arena, Stmt::Let(z, v, l, b))
            },
            LowLevelOp::ListMap2 => {
                let function_ps = self.param_map.get_symbol(
                    arguments[2],
                    closure_layout,
                ).unwrap();
                assert(shape.leading[0] == Some(0int));
                assert(shape.leading[1] == Some(1int));
                let borrows = [
                    function_ps[0].borrow,
                    function_ps[1].borrow,
                    function,
                    closure_data,
                ];
                assert(borrows@ =~= higher_order_borrows(shape, ps));
                let b = self.add_dec_after_lowlevel(arguments, borrows.as_slice(), b, b_live_vars);
                let b = decref_if_owned(self.arena, function_ps[0].borrow, arguments[0], b);
                let b = decref_if_owned(self.arena, function_ps[1].borrow, arguments[1], b);
                proof {
                    reveal_with_fuel(free_containers, 3);
                }
                let v = create_call(op, closure_layout, call, function_ps.get(2));
                alloc_in(self.arena, Stmt::Let(z, v, l, b))
            },
            LowLevelOp::ListMap3 => {
                let function_ps = self.param_map.get_symbol(
                    arguments[3],
                    closure_layout,
                ).unwrap();
                assert(shape.leading[0] == Some(0int));
                assert(shape.leading[1] == Some(1int));
                assert(shape.leading[2] == Some(2int));
                let borrows = [
                    function_ps[0].borrow,
                    function_ps[1].borrow,
                    function_ps[2].borrow,
                    function,
                    closure_data,
                ];
                assert(borrows@ =~= higher_order_borrows(shape, ps));
                let b = self.add_dec_after_lowlevel(arguments, borrows.as_slice(), b, b_live_vars);
                let b = decref_if_owned(self.arena, function_ps[0].borrow, arguments[0], b);
                let b = decref_if_owned(self.arena, function_ps[1].borrow, arguments[1], b);
                let b = decref_if_owned(self.arena, function_ps[2].borrow, arguments[2], b);
                proof {
                    reveal_with_fuel(free_containers, 4);
                }
                let v = create_call(op, closure_layout, call, function_ps.get(3));
                alloc_in(self.arena, Stmt::Let(z, v, l, b))
            },
            LowLevelOp::ListSortWith => {
                let function_ps = self.param_map.get_symbol(
                    arguments[1],
                    closure_layout,
                ).unwrap();
                let borrows = [OWNED, function, closure_data];
                assert(borrows@ =~= higher_order_borrows(shape, ps));
                let b = self.add_dec_after_lowlevel(arguments, borrows.as_slice(), b, b_live_vars);
                let v = create_call(op, closure_layout, call, function_ps.get(2));
                alloc_in(self.arena, Stmt::Let(z, v, l, b))
            },
            LowLevelOp::ListWalk
            | LowLevelOp::ListWalkUntil
            | LowLevelOp::ListWalkBackwards
            | LowLevelOp::DictWalk => {
                let function_ps = self.param_map.get_symbol(
                    arguments[2],
                    closure_layout,
                ).unwrap();
                assert(shape.leading[0] == Some(0int));
                assert(shape.leading[1] == Some(1int));
                // the data structure is taken as the first argument of the folded function,
                // the default as the second one
                let borrows = [
                    function_ps[0].borrow,
                    function_ps[1].borrow,
                    function,
                    closure_data,
                ];
                assert(borrows@ =~= higher_order_borrows(shape, ps));
                let b = self.add_dec_after_lowlevel(arguments, borrows.as_slice(), b, b_live_vars);
                let b = decref_if_owned(self.arena, function_ps[0].borrow, arguments[0], b);
                proof {
                    reveal_with_fuel(free_containers, 2);
                }
                let v = create_call(op, closure_layout, call, function_ps.get(2));
                alloc_in(self.arena, Stmt::Let(z, v, l, b))
            },
            LowLevelOp::Other(_) => {
                let b = self.add_dec_after_lowlevel(
                    arguments,
                    op.borrow_signature,
                    b,
                    b_live_vars,
                );
                alloc_in(self.arena, Stmt::Let(z, Expr::Call(call), l, b))
            },
        }
    }

    /// `let z = v` in front of `b`, with the instructions that `v` asks for, and the variables
    /// that are live before it.
    pub fn visit_variable_declaration(
        &self,
        z: Symbol,
        v: Expr<'a>,
        l: Layout,
        b: &'a Stmt<'a>,
        b_live_vars: &LiveVarSet,
    ) -> (r: (&'a Stmt<'a>, LiveVarSet))
        requires
            self@.declare_defined(z, v),
        ensures
            r.0@ == self@.declare(z, v, l, b@, b_live_vars@),
            exists|w: Expr<'a>| #[trigger]
                like_expr(self@.param_map, v, w) && r.0@ == in_front(
                    handed(v).len(),
                    |i: int| inc_due(self@, handed(v), taking(self@, v), b_live_vars@, i),
                    StmtView::Let(
                        z,
                        w,
                        l,
                        Box::new(behind_let_of(self@, z, v, b@, b_live_vars@)),
                    ),
                ),
            r.1@ == b_live_vars@.union(expr_symbols(v)).remove(z),
            forall|x: Symbol| #[trigger]
                r.1@.contains(x) <==> x != z && (b_live_vars@.contains(x) || operands(v).contains(
                    x,
                )),
    {
        proof {
            let _ = law_let(self@, z, v, l, b@, b_live_vars@);
            assert forall|x: Symbol| #[trigger] expr_symbols(v).contains(x) <==> operands(
                v,
            ).contains(x) by {
                law_expression_symbols(v, x);
            }
        }
        let mut live_vars = update_live_vars(&v, b_live_vars);
        live_vars.remove(&z);
        let new_b = match v {
            Expr::Reuse { arguments: ys, .. } => self.add_inc_before_consume_all(
                ys,
                alloc_in(self.arena, Stmt::Let(z, v, l, b)),
                b_live_vars,
            ),
            Expr::Tag { arguments: ys, .. } => self.add_inc_before_consume_all(
                ys,
                alloc_in(self.arena, Stmt::Let(z, v, l, b)),
                b_live_vars,
            ),
            Expr::Struct(ys) => self.add_inc_before_consume_all(
                ys,
                alloc_in(self.arena, Stmt::Let(z, v, l, b)),
                b_live_vars,
            ),
            Expr::Array { elems: ys, .. } => self.add_inc_before_consume_all(
                ys,
                alloc_in(self.arena, Stmt::Let(z, v, l, b)),
                b_live_vars,
            ),
            Expr::AccessAtIndex { structure: x, .. } => {
                let b = self.add_dec_if_needed(x, b, b_live_vars);
                let info_x = self.get_var_info(x);
                let b = if info_x.consume {
                    self.add_inc(z, 1, b)
                } else {
                    b
                };
                alloc_in(self.arena, Stmt::Let(z, v, l, b))
            },
            Expr::Call(Call { call_type, arguments }) => self.visit_call(
                z,
                call_type,
                arguments,
                l,
                b,
                b_live_vars,
            ),
            Expr::EmptyArray
            | Expr::Literal(_)
            | Expr::Reset(_)
            | Expr::RuntimeErrorFunction(_) => {
                // an empty array is always stack-allocated
                // function pointers are persistent
                alloc_in(self.arena, Stmt::Let(z, v, l, b))
            },
        };
        (new_b, live_vars)
    }

    /// The context behind an `invoke` of `call` that binds `symbol`.
    pub fn update_var_info_invoke(&self, symbol: Symbol, layout: &Layout, call: &Call<'a>) -> (r:
        Self)
        ensures
            r@ == self@.with_invoke(symbol, *layout, *call),
            r@.vars == self@.vars.insert(
                symbol,
                VarInfo {
                    reference: layout.holds_refcounted,
                    persistent: call.arguments@.len() == 0,
                    consume: true,
                },
            ),
            r@.jp_live_vars == self@.jp_live_vars,
            r@.param_map == self@.param_map,
            r.declarations() == self.declarations(),
    {
        // is this value a constant?
        let persistent = call.arguments.is_empty();
        // must this value be consumed?
        let consume = consume_call(&self.vars, call);
        self.update_var_info_help(symbol, layout, persistent, consume)
    }

    /// The context behind a `let` that binds `symbol` to `expr`.
    pub fn update_var_info(&self, symbol: Symbol, layout: &Layout, expr: &Expr<'a>) -> (r: Self)
        ensures
            r@ == self@.with_let(symbol, *layout, *expr),
            r@.vars == self@.vars.insert(
                symbol,
                VarInfo {
                    reference: layout.holds_refcounted,
                    persistent: false,
                    consume: match *expr {
                        Expr::AccessAtIndex { structure, .. } => self@.vars.contains_key(structure)
                            ==> self@.vars[structure].consume,
                        _ => true,
                    },
                },
            ),
            r@.jp_live_vars == self@.jp_live_vars,
            r@.param_map == self@.param_map,
            r.declarations() == self.declarations(),
    {
        // is this value a constant?
        let persistent = false;
        // must this value be consumed?
        let consume = consume_expr(&self.vars, expr);
        self.update_var_info_help(symbol, layout, persistent, consume)
    }

    /// The context in which `symbol` is known.
    pub fn update_var_info_help(
        &self,
        symbol: Symbol,
        layout: &Layout,
        persistent: bool,
        consume: bool,
    ) -> (r: Self)
        ensures
            r@ == self@.with_var(
                symbol,
                VarInfo { reference: layout.holds_refcounted, persistent, consume },
            ),
            r.declarations() == self.declarations(),
    {
        // are there incs and decs on this value?
        let reference = layout.contains_refcounted();
        let info = VarInfo { reference, persistent, consume };
        let mut ctx = self.clone();
        ctx.vars.insert(symbol, info);
        ctx
    }

    /// The context in which the parameters are known.
    pub fn update_var_info_with_params(&self, ps: &[Param]) -> (r: Self)
        ensures
            r@ == self@.with_params(ps@),
            r.declarations() == self.declarations(),
            r@.jp_live_vars == self@.jp_live_vars,
            r@.param_map == self@.param_map,
            forall|x: Symbol| #[trigger]
                r@.vars.contains_key(x) <==> self@.vars.contains_key(x) || names_param(ps@, x),
            forall|x: Symbol|
                self@.vars.contains_key(x) && !names_param(ps@, x) ==> #[trigger] r@.vars[x]
                    == self@.vars[x],
            forall|i: int|
                0 <= i < ps@.len() && !names_param(ps@.skip(i + 1), ps@[i].symbol)
                    ==> #[trigger] r@.vars[ps@[i].symbol] == (VarInfo {
                    reference: ps@[i].layout.holds_refcounted,
                    persistent: false,
                    consume: !ps@[i].borrow,
                }),
    {
        let mut ctx = self.clone();
        let mut i: usize = 0;
        assert(ps@.take(0) =~= Seq::<Param>::empty());
        while i < ps.len()
            invariant
                i <= ps@.len(),
                ctx@ == self@.with_params(ps@.take(i as int)),
                ctx.declarations() == self.declarations(),
            decreases ps@.len() - i,
        {
            let p = ps[i];
            let info = VarInfo {
                reference: p.layout.contains_refcounted(),
                consume: !p.borrow,
                persistent: false,
            };
            assert(ps@.take(i + 1).drop_last() =~= ps@.take(i as int));
            ctx.vars.insert(p.symbol, info);
            i += 1;
        }
        assert(ps@.take(i as int) =~= ps@);
        proof {
            lemma_with_params(self@, ps@);
        }
        ctx
    }

    /// `b` behind a decrement for each parameter that is a reference, not borrowed and dead in
    /// `b`: these parameters must be consumed.
    pub fn add_dec_for_dead_params(
        &self,
        ps: &[Param],
        b: &'a Stmt<'a>,
        b_live_vars: &LiveVarSet,
    ) -> (r: &'a Stmt<'a>)
        requires
            self@.dec_for_dead_params_defined(ps@, b_live_vars@),
        ensures
            r@ == self@.dec_for_dead_params(ps@, b@, b_live_vars@),
            r@ == in_front(
                ps@.len(),
                |i: int| param_dec_due(self@, ps@[i], b_live_vars@),
                b@,
            ),
    {
        proof {
            law_decrements_for_params(self@, ps@, b@, b_live_vars@);
        }
        let mut out = b;
        let mut i: usize = 0;
        assert(ps@.take(0) =~= Seq::<Param>::empty());
        while i < ps.len()
            invariant
                i <= ps@.len(),
                self@.dec_for_dead_params_defined(ps@, b_live_vars@),
                out@ == self@.dec_for_dead_params(ps@.take(i as int), b@, b_live_vars@),
            decreases ps@.len() - i,
        {
            let p = ps[i];
            assert(ps@.take(i + 1).drop_last() =~= ps@.take(i as int));
            if !p.borrow && p.layout.contains_refcounted() && !b_live_vars.contains(&p.symbol) {
                out = self.add_dec(p.symbol, out);
            }
            i += 1;
        }
        assert(ps@.take(i as int) =~= ps@);
        out
    }

    /// `b` behind a decrement for each variable that must be consumed, that is live before a
    /// choice and that is dead in the alternative `b`.
    pub fn add_dec_for_alt(
        &self,
        case_live_vars: &LiveVarSet,
        alt_live_vars: &LiveVarSet,
        b: &'a Stmt<'a>,
    ) -> (r: &'a Stmt<'a>)
        requires
            self@.dec_for_alt_defined(case_live_vars@, alt_live_vars@),
        ensures
            self@.is_dec_for_alt(case_live_vars@, alt_live_vars@, b@, r@),
    {
        let symbols = set_elements(case_live_vars);
        proof {
            self@.lemma_dead_among(symbols@, case_live_vars@, alt_live_vars@);
        }
        self.add_dec_for_alt_in_order(symbols.as_slice(), alt_live_vars, b)
    }

    /// `b` behind a decrement for each of the symbols that must be consumed and that is dead in
    /// the alternative `b`; the last one comes first.
    pub fn add_dec_for_alt_in_order(
        &self,
        symbols: &[Symbol],
        alt_live_vars: &LiveVarSet,
        b: &'a Stmt<'a>,
    ) -> (r: &'a Stmt<'a>)
        requires
            self@.dec_for_alt_defined(symbols@.to_set(), alt_live_vars@),
        ensures
            r@ == self@.dec_each(self@.dead_among(symbols@, alt_live_vars@), b@),
            r@ == in_front(
                symbols@.len(),
                |i: int| dec_due(self@, symbols@[i], !alt_live_vars@.contains(symbols@[i])),
                b@,
            ),
    {
        proof {
            law_decrements_for_alternative(self@, symbols@, b@, alt_live_vars@);
        }
        let mut out = b;
        let mut i: usize = 0;
        assert(symbols@.take(0) =~= Seq::<Symbol>::empty());
        while i < symbols.len()
            invariant
                i <= symbols@.len(),
                self@.dec_for_alt_defined(symbols@.to_set(), alt_live_vars@),
                out@ == self@.dec_each(
                    self@.dead_among(symbols@.take(i as int), alt_live_vars@),
                    b@,
                ),
            decreases symbols@.len() - i,
        {
            let x = symbols[i];
            proof {
                assert(symbols@.to_set().contains(x));
                assert(symbols@.take(i + 1).drop_last() =~= symbols@.take(i as int));
                let before = self@.dead_among(symbols@.take(i as int), alt_live_vars@);
                assert(before.push(x).drop_last() =~= before);
            }
            if !alt_live_vars.contains(&x) && self.must_consume(x) {
                out = self.add_dec(x, out);
            }
            i += 1;
        }
        assert(symbols@.take(i as int) =~= symbols@);
        out
    }

    /// `stmt` with its instructions inserted, and the variables that are live before it.
    ///
    /// Chains of `let` statements can be very long, especially for large literals, so they are
    /// worked on in a loop.
    pub fn visit_stmt(&self, stmt: &'a Stmt<'a>) -> (r: (&'a Stmt<'a>, LiveVarSet))
        requires
            visitable(self@, stmt@),
        ensures
            visits(self@, stmt@, r.0@, r.1@),
            stmt@ is Rethrow || stmt@ is RuntimeError || stmt@ is Refcounting ==> r.0@ == stmt@
                && r.1@ == Set::<Symbol>::empty(),
        decreases node_count(stmt@), 2nat,
    {
        let ghost full = self@.with_lets(stmt@);
        let ghost whole = stmt@;
        let mut cont = stmt;
        let mut triples = let_chain_new_in(self.arena);
        let ghost mut n: nat = 0;
        loop
            invariant_except_break
                visitable_in(full, cont@),
                n > 0 ==> node_count(cont@) < node_count(whole),
                n == 0 ==> cont == stmt,
            invariant
                whole == stmt@,
                let_chain_items(triples).len() == n,
                cont@ == behind_lets(whole, n),
                forall|i: int|
                    0 <= i < n ==> is_let(
                        behind_lets(whole, i as nat),
                        #[trigger] let_chain_items(triples)[i],
                        behind_lets(whole, (i + 1) as nat),
                    ) && full.declare_defined(
                        let_chain_items(triples)[i].0,
                        let_chain_items(triples)[i].1,
                    ),
            ensures
                !(cont@ is Let),
                visitable_in(full, cont@),
                n > 0 ==> node_count(cont@) < node_count(whole),
                n == 0 ==> cont == stmt,
            decreases node_count(cont@),
        {
            match *cont {
                Stmt::Let(symbol, expr, layout, new_cont) => {
                    let_chain_push(&mut triples, (symbol, expr, layout));
                    cont = new_cont;
                    proof {
                        n = n + 1;
                    }
                },
                _ => {
                    break;
                },
            }
        }
        let items = let_chain_as_slice(&triples);
        if items.is_empty() {
            assert(full == self@);
            return self.visit_node(stmt);
        }
        let mut ctx = self.clone();
        let mut i: usize = 0;
        while i < items.len()
            invariant
                i <= items@.len(),
                items@.len() == n,
                forall|k: int|
                    0 <= k < n ==> is_let(
                        behind_lets(whole, k as nat),
                        #[trigger] items@[k],
                        behind_lets(whole, (k + 1) as nat),
                    ),
                ctx@.with_lets(behind_lets(whole, i as nat)) == full,
            decreases items@.len() - i,
        {
            let (symbol, expr, layout) = items[i];
            assert(is_let(
                behind_lets(whole, i as nat),
                items@[i as int],
                behind_lets(whole, (i + 1) as nat),
            ));
            ctx = ctx.update_var_info(symbol, &layout, &expr);
            i += 1;
        }
        assert(ctx@ == full);
        let (mut b, mut b_live_vars) = ctx.visit_stmt(cont);
        let mut k: usize = items.len();
        while k > 0
            invariant
                k <= items@.len(),
                items@.len() == n,
                ctx@ == full,
                forall|j: int|
                    0 <= j < n ==> is_let(
                        behind_lets(whole, j as nat),
                        #[trigger] items@[j],
                        behind_lets(whole, (j + 1) as nat),
                    ) && full.declare_defined(items@[j].0, items@[j].1),
                visits_in(full, behind_lets(whole, k as nat), b@, b_live_vars@),
            decreases k,
        {
            let (symbol, expr, layout) = items[k - 1];
            assert(is_let(
                behind_lets(whole, (k - 1) as nat),
                items@[k - 1],
                behind_lets(whole, k as nat),
            ));
            let pair = ctx.visit_variable_declaration(symbol, expr, layout, b, &b_live_vars);
            b = pair.0;
            b_live_vars = pair.1;
            k -= 1;
        }
        (b, b_live_vars)
    }

    /// [`visit_stmt`](Context::visit_stmt) for a statement that is not a `let`.
    fn visit_node(&self, stmt: &'a Stmt<'a>) -> (r: (&'a Stmt<'a>, LiveVarSet))
        requires
            !(stmt@ is Let),
            visitable_in(self@, stmt@),
        ensures
            visits_in(self@, stmt@, r.0@, r.1@),
        decreases node_count(stmt@), 1nat,
    {
        match *stmt {
            Stmt::Let(_, _, _, _) => vstd::pervasive::unreached(),
            Stmt::Invoke { .. } => self.visit_invoke(stmt),
            Stmt::Join { .. } => self.visit_join(stmt),
            Stmt::Ret(x) => {
                let info = self.get_var_info(x);
                let mut live_vars: LiveVarSet = MutSet::new();
                live_vars.insert(x);
                assert(live_vars@ =~= set![x]);
                if info.reference && !info.consume {
                    (self.add_inc(x, 1, stmt), live_vars)
                } else {
                    (stmt, live_vars)
                }
            },
            Stmt::Rethrow => (stmt, MutSet::new()),
            Stmt::Jump(j, xs) => {
                let empty: LiveVarSet = MutSet::new();
                let j_live_vars = match self.jp_live_vars.get(&j) {
                    Some(vars) => vars,
                    None => &empty,
                };
                assert(j_live_vars@ == self@.join_live(j));
                let ps = self.param_map.get_join_point(j);
                let b = self.add_inc_before(xs, ps, stmt, j_live_vars);
                let b_live_vars = collect_stmt(b, &self.jp_live_vars, MutSet::new());
                assert(b_live_vars@ =~= live(b@, self@.jp_live_vars));
                (b, b_live_vars)
            },
            Stmt::Switch { .. } => self.visit_switch(stmt),
            Stmt::RuntimeError(_) => (stmt, MutSet::new()),
            Stmt::Refcounting(_, _) => (stmt, MutSet::new()),
        }
    }

    /// An alternative of a choice before which `case_live_vars` are live.
    fn visit_alt(&self, case_live_vars: &LiveVarSet, stmt: &'a Stmt<'a>) -> (r: &'a Stmt<'a>)
        requires
            visitable_alt(self@, case_live_vars@, stmt@),
        ensures
            visits_alt(self@, case_live_vars@, stmt@, r@),
        decreases node_count(stmt@), 3nat,
    {
        let (b, alt_live_vars) = self.visit_stmt(stmt);
        self.add_dec_for_alt(case_live_vars, &alt_live_vars, b)
    }

    /// [`visit_stmt`](Context::visit_stmt) for an `invoke`.
    fn visit_invoke(&self, stmt: &'a Stmt<'a>) -> (r: (&'a Stmt<'a>, LiveVarSet))
        requires
            stmt@ is Invoke,
            visitable_in(self@, stmt@),
        ensures
            visits_in(self@, stmt@, r.0@, r.1@),
        decreases node_count(stmt@), 0nat,
    {
        // live vars of the whole expression
        let invoke_live_vars = collect_stmt(stmt, &self.jp_live_vars, MutSet::new());
        assert(invoke_live_vars@ =~= live(stmt@, self@.jp_live_vars));
        match *stmt {
            Stmt::Invoke { symbol, call, layout, pass, fail } => {
                // the result of an invoke should be present in the pass branch: otherwise it
                // would be dead
                let pass_live_vars = collect_stmt(pass, &self.jp_live_vars, MutSet::new());
                assert(pass_live_vars@ =~= live(pass@, self@.jp_live_vars));
                if !pass_live_vars.contains(&symbol) && layout.is_refcounted() {
                    vstd::pervasive::unreached::<()>();
                }
                let fail_out = self.visit_alt(&invoke_live_vars, fail);
                let pass_ctx = self.update_var_info_invoke(symbol, &layout, &call);
                let pass_out = pass_ctx.visit_alt(&invoke_live_vars, pass);
                let invoke = Stmt::Invoke { symbol, call, layout, pass: pass_out, fail: fail_out };
                let cont = alloc_in(self.arena, invoke);
                let out = match call.call_type {
                    CallType::LowLevel { op } => self.add_dec_after_lowlevel(
                        call.arguments,
                        op.borrow_signature,
                        cont,
                        &invoke_live_vars,
                    ),
                    CallType::HigherOrderLowLevel { .. } => vstd::pervasive::unreached(),
                    CallType::Foreign { borrow_signature, .. } => self.add_dec_after_lowlevel(
                        call.arguments,
                        borrow_signature,
                        cont,
                        &invoke_live_vars,
                    ),
                    CallType::ByName { name, full_layout, .. } => {
                        // get the borrow signature
                        let ps = self.param_map.get_symbol(name, full_layout).unwrap();
                        self.add_dec_after_application(
                            call.arguments,
                            ps,
                            cont,
                            &invoke_live_vars,
                        )
                    },
                };
                assert(out@ == self@.before_invoke(
                    call,
                    StmtView::Invoke {
                        symbol,
                        call,
                        layout,
                        pass: Box::new(pass_out@),
                        fail: Box::new(fail_out@),
                    },
                    invoke_live_vars@,
                ));
                (out, invoke_live_vars)
            },
            _ => vstd::pervasive::unreached(),
        }
    }

    /// [`visit_stmt`](Context::visit_stmt) for a join point.
    fn visit_join(&self, stmt: &'a Stmt<'a>) -> (r: (&'a Stmt<'a>, LiveVarSet))
        requires
            stmt@ is Join,
            visitable_in(self@, stmt@),
        ensures
            visits_in(self@, stmt@, r.0@, r.1@),
        decreases node_count(stmt@), 0nat,
    {
        match *stmt {
            Stmt::Join { id: j, remainder, continuation, .. } => {
                // get the parameters with borrow signature
                let xs = self.param_map.get_join_point(j);
                let v_ctx = self.update_var_info_with_params(xs);
                let (v, v_live_vars) = v_ctx.visit_stmt(continuation);
                proof {
                    ctx_knows_params(self@, xs@);
                }
                let v_out = v_ctx.add_dec_for_dead_params(xs, v, &v_live_vars);
                let mut ctx = self.clone();
                update_jp_live_vars(j, xs, v_out, &mut ctx.jp_live_vars);
                assert(ctx@ =~= self@.with_join_body(j, xs@, v_out@));
                let (b, b_live_vars) = ctx.visit_stmt(remainder);
                let out = alloc_in(
                    self.arena,
                    Stmt::Join { id: j, parameters: xs, remainder: b, continuation: v_out },
                );
                (out, b_live_vars)
            },
            _ => vstd::pervasive::unreached(),
        }
    }

    /// [`visit_stmt`](Context::visit_stmt) for a switch.
    fn visit_switch(&self, stmt: &'a Stmt<'a>) -> (r: (&'a Stmt<'a>, LiveVarSet))
        requires
            stmt@ is Switch,
            visitable_in(self@, stmt@),
        ensures
            visits_in(self@, stmt@, r.0@, r.1@),
        decreases node_count(stmt@), 0nat,
    {
        let case_live_vars = collect_stmt(stmt, &self.jp_live_vars, MutSet::new());
        assert(case_live_vars@ =~= live(stmt@, self@.jp_live_vars));
        match *stmt {
            Stmt::Switch { cond_symbol, cond_layout, branches, default_branch, ret_layout } => {
                let branches_out = self.visit_branches(&case_live_vars, &branches);
                let default_out = self.visit_alt(&case_live_vars, default_branch.1);
                let switch = alloc_in(
                    self.arena,
                    Stmt::Switch {
                        cond_symbol,
                        branches: branches_out,
                        default_branch: (default_branch.0, default_out),
                        cond_layout,
                        ret_layout,
                    },
                );
                (switch, case_live_vars)
            },
            _ => vstd::pervasive::unreached(),
        }
    }

    /// The branches of a switch before which `case_live_vars` are live.
    fn visit_branches(&self, case_live_vars: &LiveVarSet, branches: &Branches<'a>) -> (r: Branches<
        'a,
    >)
        requires
            forall|i: int|
                0 <= i < branches@.len() ==> visitable_alt(
                    self@,
                    case_live_vars@,
                    #[trigger] branches@[i].2,
                ),
        ensures
            r@.len() == branches@.len(),
            forall|i: int|
                #![trigger r@[i]]
                #![trigger branches@[i]]
                0 <= i < branches@.len() ==> {
                    &&& r@[i].0 == branches@[i].0
                    &&& r@[i].1 == branches@[i].1
                    &&& visits_alt(self@, case_live_vars@, branches@[i].2, r@[i].2)
                },
        decreases branches_node_count(branches@), 4nat,
    {
        let items = branches.as_slice();
        let mut out: Vec<Branch<'a>> = Vec::new();
        let mut i: usize = 0;
        while i < items.len()
            invariant
                i <= items@.len(),
                branches@ == branch_views(items@),
                out@.len() == i,
                forall|k: int|
                    0 <= k < branches@.len() ==> visitable_alt(
                        self@,
                        case_live_vars@,
                        #[trigger] branches@[k].2,
                    ),
                forall|k: int|
                    0 <= k < i ==> {
                        &&& (#[trigger] out@[k]).0 == branches@[k].0
                        &&& out@[k].1 == branches@[k].1
                        &&& visits_alt(self@, case_live_vars@, branches@[k].2, out@[k].2@)
                    },
            decreases items@.len() - i,
        {
            let (label, info, _) = items[i];
            proof {
                assert(branches@[i as int].2 == items@[i as int].2@);
                lemma_branch_node_count(branches@, i as int);
            }
            let b = self.visit_alt(case_live_vars, &items[i].2);
            out.push((label, info, *b));
            i += 1;
        }
        Branches::new(slice_from_iter_in(out, self.arena))
    }
}

impl<'a> ContextView<'a> {
    /// Walking through the variables that are live before a choice, in whatever order, finds
    /// those that are dead in an alternative, each of them once.
    proof fn lemma_dead_among(
        self,
        symbols: Seq<Symbol>,
        case_live: Set<Symbol>,
        alt_live: Set<Symbol>,
    )
        requires
            symbols.no_duplicates(),
            symbols.to_set() == case_live,
        ensures
            self.dead_among(symbols, alt_live).no_duplicates(),
            self.dead_among(symbols, alt_live).to_set() == self.dead_in_alt(case_live, alt_live),
        decreases symbols.len(),
    {
        if symbols.len() == 0 {
            assert(self.dead_in_alt(case_live, alt_live) =~= Set::empty());
        } else {
            let init = symbols.drop_last();
            let x = symbols.last();
            self.lemma_dead_among(init, init.to_set(), alt_live);
            let rest = self.dead_among(init, alt_live);
            assert(init.push(x) =~= symbols);
            crate::collections::lemma_to_set_push(init, x);
            crate::collections::lemma_to_set_push(rest, x);
            assert(!init.contains(x));
            assert(!rest.contains(x)) by {
                if rest.contains(x) {
                    assert(rest.to_set().contains(x));
                    assert(init.to_set().contains(x));
                }
            }
            assert(self.dead_among(symbols, alt_live).to_set() =~= self.dead_in_alt(
                case_live,
                alt_live,
            ));
        }
    }
}

/// `stmt` is a `let` of the given binding in front of `cont`.
spec fn is_let<'a>(
    stmt: StmtView<'a>,
    binding: (Symbol, Expr<'a>, Layout),
    cont: StmtView<'a>,
) -> bool {
    stmt == StmtView::Let(binding.0, binding.1, binding.2, Box::new(cont))
}

/// A variable that occurs in `xs` and is nowhere borrowed is consumed there.
proof fn lemma_consumed_somewhere(x: Symbol, xs: Seq<Symbol>, pred: ConsumePred, i: int)
    requires
        0 <= i < xs.len(),
        xs[i] == x,
        pred.consumes(i),
    ensures
        consumptions(x, xs, pred) >= 1,
{
    lemma_consumed_upto(x, xs, pred, i, xs.len());
}

/// A variable that is consumed at position `i` is consumed in any longer stretch.
proof fn lemma_consumed_upto(x: Symbol, xs: Seq<Symbol>, pred: ConsumePred, i: int, n: nat)
    requires
        0 <= i < n <= xs.len(),
        xs[i] == x,
        pred.consumes(i),
    ensures
        consumptions_upto(x, xs, pred, n) >= 1,
    decreases n,
{
    if i < n - 1 {
        lemma_consumed_upto(x, xs, pred, i, (n - 1) as nat);
    }
}

/// The statement `stmt` of the main function, with its instructions inserted.
pub fn visit_declaration<'a>(
    arena: &'a Bump,
    param_map: &'a ParamMap<'a>,
    stmt: &'a Stmt<'a>,
) -> (r: &'a Stmt<'a>)
    requires
        visitable(initial_context(param_map@), stmt@),
    ensures
        exists|live_vars: Set<Symbol>| visits(initial_context(param_map@), stmt@, r@, live_vars),
{
    let ctx = Context::new(arena, param_map);
    let params: &[Param] = &[];
    let ctx = ctx.update_var_info_with_params(params);
    let (b, b_live_vars) = ctx.visit_stmt(stmt);
    ctx.add_dec_for_dead_params(params, b, &b_live_vars)
}

/// Inserts the instructions into the body of `proc`, which has the layout `layout`. Without an
/// entry for the procedure, its arguments are owned.
pub fn visit_proc<'a>(
    arena: &'a Bump,
    param_map: &'a ParamMap<'a>,
    proc: &mut Proc<'a>,
    layout: Layout,
)
    requires
        visitable(
            initial_context(param_map@).with_params(proc_params(param_map@, *old(proc), layout)),
            old(proc).body@,
        ),
    ensures
        visits_proc(
            initial_context(param_map@),
            proc_params(param_map@, *old(proc), layout),
            old(proc).body@,
            final(proc).body@,
        ),
        final(proc).name == old(proc).name,
        final(proc).args == old(proc).args,
        final(proc).ret_layout == old(proc).ret_layout,
{
    let ctx = Context::new(arena, param_map);
    let params: &[Param] = match param_map.get_symbol(proc.name, layout) {
        Some(slice) => slice,
        None => slice_from_iter_in(owned_params(proc.args), arena),
    };
    let stmt: &'a Stmt<'a> = alloc_in(arena, proc.body);
    let ctx = ctx.update_var_info_with_params(params);
    let (b, b_live_vars) = ctx.visit_stmt(stmt);
    proof {
        ctx_knows_params(initial_context(param_map@), params@);
    }
    let b = ctx.add_dec_for_dead_params(params, b, &b_live_vars);
    proc.body = *b;
}

/// One owned parameter for each argument.
fn owned_params(args: &[(Layout, Symbol)]) -> (r: Vec<Param>)
    ensures
        r@ == owned_params_of(args@),
{
    let mut r: Vec<Param> = Vec::new();
    let mut i: usize = 0;
    while i < args.len()
        invariant
            i <= args@.len(),
            r@ == owned_params_of(args@.take(i as int)),
        decreases args@.len() - i,
    {
        let (layout, symbol) = args[i];
        r.push(Param { symbol, borrow: OWNED, layout });
        i += 1;
        assert(r@ =~= owned_params_of(args@.take(i as int)));
    }
    assert(args@.take(i as int) =~= args@);
    r
}

/// In a context with more parameters, what is known of a parameter is said by the last one of its
/// name, and what is known of the other variables stays.
proof fn lemma_with_params<'a>(ctx: ContextView<'a>, ps: Seq<Param>)
    ensures
        ctx.with_params(ps).jp_live_vars == ctx.jp_live_vars,
        ctx.with_params(ps).param_map == ctx.param_map,
        forall|x: Symbol| #[trigger]
            ctx.with_params(ps).vars.contains_key(x) <==> ctx.vars.contains_key(x) || names_param(
                ps,
                x,
            ),
        forall|x: Symbol|
            ctx.vars.contains_key(x) && !names_param(ps, x) ==> #[trigger] ctx.with_params(
                ps,
            ).vars[x] == ctx.vars[x],
        forall|i: int|
            0 <= i < ps.len() && !names_param(ps.skip(i + 1), ps[i].symbol)
                ==> #[trigger] ctx.with_params(ps).vars[ps[i].symbol] == (VarInfo {
                reference: ps[i].layout.holds_refcounted,
                persistent: false,
                consume: !ps[i].borrow,
            }),
    decreases ps.len(),
{
    if ps.len() > 0 {
        let front = ps.drop_last();
        lemma_with_params(ctx, front);
        assert forall|x: Symbol| #[trigger]
            names_param(ps, x) <==> names_param(front, x) || x == ps.last().symbol by {
            assert(ps[ps.len() - 1] == ps.last());
            if names_param(front, x) {
                let k = choose|k: int| 0 <= k < front.len() && (#[trigger] front[k]).symbol == x;
                assert(ps[k].symbol == x);
            }
            if names_param(ps, x) && x != ps.last().symbol {
                let k = choose|k: int| 0 <= k < ps.len() && (#[trigger] ps[k]).symbol == x;
                assert(front[k].symbol == x);
            }
        }
        assert forall|i: int|
            0 <= i < ps.len() && !names_param(ps.skip(i + 1), ps[i].symbol) implies
            #[trigger] ctx.with_params(ps).vars[ps[i].symbol] == (VarInfo {
            reference: ps[i].layout.holds_refcounted,
            persistent: false,
            consume: !ps[i].borrow,
        }) by {
            if i < ps.len() - 1 {
                let rest = ps.skip(i + 1);
                assert(rest[rest.len() - 1] == ps.last());
                assert(front[i] == ps[i]);
                if names_param(front.skip(i + 1), ps[i].symbol) {
                    let short = front.skip(i + 1);
                    let k = choose|k: int|
                        0 <= k < short.len() && (#[trigger] short[k]).symbol == ps[i].symbol;
                    assert(rest[k].symbol == ps[i].symbol);
                }
            }
        }
    }
}

/// The parameters are known in the context of the procedure.
proof fn ctx_knows_params<'a>(ctx: ContextView<'a>, ps: Seq<Param>)
    ensures
        forall|i: int| 0 <= i < ps.len() ==> ctx.with_params(ps).knows(#[trigger] ps[i].symbol),
    decreases ps.len(),
{
    if ps.len() > 0 {
        ctx_knows_params(ctx, ps.drop_last());
        assert forall|i: int| 0 <= i < ps.len() implies ctx.with_params(ps).knows(
            #[trigger] ps[i].symbol,
        ) by {
            if i < ps.len() - 1 {
                assert(ps.drop_last()[i].symbol == ps[i].symbol);
            }
        }
    }
}

} // verus!
