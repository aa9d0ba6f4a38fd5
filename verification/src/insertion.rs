//! Which reference-count instructions are inserted, and where.
//!
//! Everything here is stated over the views of statements and contexts. The functions that
//! do the work are methods of [`Context`](crate::inc_dec::Context).
use vstd::prelude::*;

use crate::borrow::{declared_symbols, Key, BORROWED, OWNED};
use crate::ir::{
    Call, CallType, Expr, JoinPointId, Layout, LowLevel, LowLevelOp, ModifyRc, Param, Proc,
    StmtView, Symbol,
};
use crate::liveness::live;
use crate::occurrence::{expr_symbols, param_symbols};

verus! {

/// What is known of a variable.
#[derive(Clone, Copy, Debug, PartialEq, Eq, Structural)]
pub struct VarInfo {
    /// The variable may be a reference (a pointer) at run time.
    pub reference: bool,
    /// The variable is statically known to be marked persistent at run time.
    pub persistent: bool,
    /// The count of the variable must be consumed.
    pub consume: bool,
}

/// Which positions of an argument list hand over a reference to the callee.
#[derive(Clone, Copy, Debug)]
pub enum ConsumePred<'b> {
    /// Every position.
    All,
    /// The positions whose parameter is not borrowed, and those without a parameter.
    Params(&'b [Param]),
}

impl<'b> ConsumePred<'b> {
    /// Is the argument at position `i` consumed? Without a parameter, an argument is owned.
    pub open spec fn consumes(self, i: int) -> bool {
        match self {
            ConsumePred::All => true,
            ConsumePred::Params(ps) => i < ps@.len() ==> !ps@[i].borrow,
        }
    }
}

/// The mathematical counterpart of a [`Context`](crate::inc_dec::Context).
#[verifier::ext_equal]
pub ghost struct ContextView<'a> {
    pub vars: Map<Symbol, VarInfo>,
    /// For each join point in scope, the variables that are live in its body.
    pub jp_live_vars: Map<JoinPointId, Set<Symbol>>,
    pub param_map: Map<Key, &'a [Param]>,
}

/// Is `xs[i]` the first occurrence of its symbol in `xs`?
pub open spec fn is_first(xs: Seq<Symbol>, i: int) -> bool {
    forall|j: int| 0 <= j < i ==> xs[j] != xs[i]
}

/// How many of the first `n` positions of `ys` hold `x` and are consumed.
pub open spec fn consumptions_upto(x: Symbol, ys: Seq<Symbol>, pred: ConsumePred, n: nat) -> nat
    decreases n,
{
    if n == 0 {
        0
    } else {
        consumptions_upto(x, ys, pred, (n - 1) as nat) + if ys[n - 1] == x && pred.consumes(n - 1) {
            1nat
        } else {
            0nat
        }
    }
}

/// How many positions of `ys` hold `x` and are consumed.
pub open spec fn consumptions(x: Symbol, ys: Seq<Symbol>, pred: ConsumePred) -> nat {
    consumptions_upto(x, ys, pred, ys.len())
}

/// Does `x` also occur in `ys` in a position that is not consumed?
pub open spec fn is_borrowed(x: Symbol, ys: Seq<Symbol>, pred: ConsumePred) -> bool {
    exists|i: int|
        0 <= i < ys.len() && #[trigger] ys[i] == x && !pred.consumes(i)
}

/// How the arguments of a built-in operation that takes a function are treated.
pub ghost struct HigherOrderShape {
    /// The position of the function among the arguments.
    pub function: int,
    /// For each argument in front of the function: the parameter of the function whose flag
    /// says how the argument is taken, or nothing where the operation owns it.
    pub leading: Seq<Option<int>>,
    /// How many of the leading arguments are containers that are freed, without their
    /// contents, where the function owns the contents.
    pub containers: nat,
    /// The parameter of the function that stands for the closure data.
    pub closure_data: int,
}

/// The shape of each operation that takes a function.
pub open spec fn higher_order_shape(op: LowLevelOp) -> Option<HigherOrderShape> {
    match op {
        LowLevelOp::ListMap
        | LowLevelOp::ListKeepIf
        | LowLevelOp::ListKeepOks
        | LowLevelOp::ListKeepErrs => Some(
            HigherOrderShape {
                function: 1,
                leading: seq![Some(0)],
                containers: 1,
                closure_data: 1,
            },
        ),
        LowLevelOp::ListMapWithIndex => Some(
            HigherOrderShape {
                function: 1,
                leading: seq![Some(1)],
                containers: 1,
                closure_data: 2,
            },
        ),
        LowLevelOp::ListMap2 => Some(
            HigherOrderShape {
                function: 2,
                leading: seq![Some(0), Some(1)],
                containers: 2,
                closure_data: 2,
            },
        ),
        LowLevelOp::ListMap3 => Some(
            HigherOrderShape {
                function: 3,
                leading: seq![Some(0), Some(1), Some(2)],
                containers: 3,
                closure_data: 3,
            },
        ),
        LowLevelOp::ListSortWith => Some(
            HigherOrderShape { function: 1, leading: seq![None], containers: 0, closure_data: 2 },
        ),
        LowLevelOp::ListWalk
        | LowLevelOp::ListWalkUntil
        | LowLevelOp::ListWalkBackwards
        | LowLevelOp::DictWalk => Some(
            HigherOrderShape {
                function: 2,
                leading: seq![Some(0), Some(1)],
                containers: 1,
                closure_data: 2,
            },
        ),
        LowLevelOp::Other(_) => None,
    }
}

/// The flag of a leading argument, where the function has the parameters `ps`.
pub open spec fn leading_borrow(leading: Option<int>, ps: Seq<Param>) -> bool {
    match leading {
        Some(p) => ps[p].borrow,
        None => OWNED,
    }
}

/// The borrow signature of an operation that takes a function with the parameters `ps`. The
/// function and its closure data are borrowed.
pub open spec fn higher_order_borrows(shape: HigherOrderShape, ps: Seq<Param>) -> Seq<bool> {
    Seq::new(shape.leading.len(), |k: int| leading_borrow(shape.leading[k], ps)) + seq![
        BORROWED,
        BORROWED,
    ]
}

/// The call of an operation that takes a function with the parameters `ps`: where the
/// function owns its closure data, the call says so.
pub open spec fn higher_order_call<'a>(
    op: LowLevel<'a>,
    closure_layout: Layout,
    call: Call<'a>,
    shape: HigherOrderShape,
    ps: Seq<Param>,
) -> Call<'a> {
    if shape.closure_data < ps.len() && ps[shape.closure_data].borrow == OWNED {
        Call {
            call_type: CallType::HigherOrderLowLevel {
                op,
                closure_layout,
                function_owns_closure_data: true,
            },
            arguments: call.arguments,
        }
    } else {
        call
    }
}

/// Frees the first `n` arguments, without their contents, where the function with the
/// parameters `ps` owns the contents; the last argument is freed first.
pub open spec fn free_containers<'a>(
    args: Seq<Symbol>,
    shape: HigherOrderShape,
    ps: Seq<Param>,
    b: StmtView<'a>,
    n: nat,
) -> StmtView<'a>
    decreases n,
{
    if n == 0 {
        b
    } else {
        let rest = free_containers(args, shape, ps, b, (n - 1) as nat);
        if leading_borrow(shape.leading[n - 1], ps) {
            rest
        } else {
            StmtView::Refcounting(ModifyRc::DecRef(args[n - 1]), Box::new(rest))
        }
    }
}

/// How many arguments of a built-in or foreign call have a borrow flag.
pub open spec fn flagged(xs: Seq<Symbol>, ps: Seq<bool>) -> nat {
    if xs.len() <= ps.len() {
        xs.len()
    } else {
        ps.len()
    }
}

impl<'a> ContextView<'a> {
    /// Is anything known of `x`?
    pub open spec fn knows(self, x: Symbol) -> bool {
        self.vars.contains_key(x)
    }

    /// Is something known of each of the symbols?
    pub open spec fn knows_all(self, xs: Seq<Symbol>) -> bool {
        forall|i: int| 0 <= i < xs.len() ==> self.knows(#[trigger] xs[i])
    }

    /// Is `x` counted at run time? A persistent value never is, nor is a value that is never
    /// a reference.
    pub open spec fn counted(self, x: Symbol) -> bool {
        self.vars[x].reference && !self.vars[x].persistent
    }

    /// Must the current procedure consume `x`?
    pub open spec fn must_consume(self, x: Symbol) -> bool {
        self.vars[x].reference && self.vars[x].consume
    }

    /// Adds `n` to the count of `x` in front of `b`.
    pub open spec fn add_inc(self, x: Symbol, n: u64, b: StmtView<'a>) -> StmtView<'a> {
        if self.counted(x) {
            StmtView::Refcounting(ModifyRc::Inc(x, n), Box::new(b))
        } else {
            b
        }
    }

    /// Takes one from the count of `x` in front of `b`.
    pub open spec fn add_dec(self, x: Symbol, b: StmtView<'a>) -> StmtView<'a> {
        if self.counted(x) {
            StmtView::Refcounting(ModifyRc::Dec(x), Box::new(b))
        } else {
            b
        }
    }

    /// How much must be added to the count of `x` before it is passed in `xs`: one for each
    /// position that consumes it, less the reference that the procedure holds itself, where
    /// that one can be handed over.
    pub open spec fn incs_needed(
        self,
        x: Symbol,
        xs: Seq<Symbol>,
        pred: ConsumePred,
        live_after: Set<Symbol>,
    ) -> int {
        if !self.vars[x].consume || live_after.contains(x) || is_borrowed(x, xs, pred) {
            consumptions(x, xs, pred) as int
        } else {
            consumptions(x, xs, pred) - 1
        }
    }

    /// `b` behind the increments for the first `n` positions of `xs`.
    pub open spec fn inc_before_upto(
        self,
        xs: Seq<Symbol>,
        pred: ConsumePred,
        b: StmtView<'a>,
        live_after: Set<Symbol>,
        n: nat,
    ) -> StmtView<'a>
        decreases n,
    {
        if n == 0 {
            b
        } else {
            let rest = self.inc_before_upto(xs, pred, b, live_after, (n - 1) as nat);
            let x = xs[n - 1];
            let incs = self.incs_needed(x, xs, pred, live_after);
            if self.vars[x].reference && is_first(xs, n - 1) && incs >= 1 {
                self.add_inc(x, incs as u64, rest)
            } else {
                rest
            }
        }
    }

    /// `b` behind the increments that passing `xs` asks for.
    pub open spec fn inc_before(
        self,
        xs: Seq<Symbol>,
        pred: ConsumePred,
        b: StmtView<'a>,
        live_after: Set<Symbol>,
    ) -> StmtView<'a> {
        self.inc_before_upto(xs, pred, b, live_after, xs.len())
    }

    /// Takes one from the count of `x` in front of `b` where `x` must be consumed and is dead
    /// in `b`.
    pub open spec fn dec_if_needed(
        self,
        x: Symbol,
        b: StmtView<'a>,
        b_live: Set<Symbol>,
    ) -> StmtView<'a> {
        if self.must_consume(x) && !b_live.contains(x) {
            self.add_dec(x, b)
        } else {
            b
        }
    }

    /// `b` behind the decrements for the first `n` arguments of a call with the parameters
    /// `ps`: one for each argument that must be consumed, that the call has borrowed and that
    /// is dead in `b`.
    pub open spec fn dec_after_application_upto(
        self,
        xs: Seq<Symbol>,
        ps: &[Param],
        b: StmtView<'a>,
        b_live: Set<Symbol>,
        n: nat,
    ) -> StmtView<'a>
        decreases n,
    {
        if n == 0 {
            b
        } else {
            let rest = self.dec_after_application_upto(xs, ps, b, b_live, (n - 1) as nat);
            let x = xs[n - 1];
            if is_first(xs, n - 1) && is_borrowed(x, xs, ConsumePred::Params(ps)) {
                self.dec_if_needed(x, rest, b_live)
            } else {
                rest
            }
        }
    }

    /// `b` behind the decrements for the arguments of a call with the parameters `ps`.
    pub open spec fn dec_after_application(
        self,
        xs: Seq<Symbol>,
        ps: &[Param],
        b: StmtView<'a>,
        b_live: Set<Symbol>,
    ) -> StmtView<'a> {
        self.dec_after_application_upto(xs, ps, b, b_live, xs.len())
    }

    /// `b` behind the decrements for the first `n` arguments of a built-in or foreign call
    /// with the borrow signature `ps`.
    pub open spec fn dec_after_lowlevel_upto(
        self,
        xs: Seq<Symbol>,
        ps: Seq<bool>,
        b: StmtView<'a>,
        b_live: Set<Symbol>,
        n: nat,
    ) -> StmtView<'a>
        decreases n,
    {
        if n == 0 {
            b
        } else {
            let rest = self.dec_after_lowlevel_upto(xs, ps, b, b_live, (n - 1) as nat);
            if is_first(xs, n - 1) && ps[n - 1] == BORROWED {
                self.dec_if_needed(xs[n - 1], rest, b_live)
            } else {
                rest
            }
        }
    }

    /// `b` behind the decrements for the arguments of a built-in or foreign call with the
    /// borrow signature `ps`. Arguments without a flag are left alone.
    pub open spec fn dec_after_lowlevel(
        self,
        xs: Seq<Symbol>,
        ps: Seq<bool>,
        b: StmtView<'a>,
        b_live: Set<Symbol>,
    ) -> StmtView<'a> {
        self.dec_after_lowlevel_upto(xs, ps, b, b_live, flagged(xs, ps))
    }

    /// Can those decrements be worked out?
    pub open spec fn dec_after_lowlevel_defined(self, xs: Seq<Symbol>, ps: Seq<bool>) -> bool {
        forall|i: int| 0 <= i < flagged(xs, ps) ==> self.knows(#[trigger] xs[i])
    }

    /// Is the parameter a reference that is not borrowed and is dead in a statement before
    /// which `b_live` are live?
    pub open spec fn is_dead_param(self, p: Param, b_live: Set<Symbol>) -> bool {
        !p.borrow && p.layout.holds_refcounted && !b_live.contains(p.symbol)
    }

    /// `b` behind a decrement for each parameter that is a reference, not borrowed and dead
    /// in `b`.
    pub open spec fn dec_for_dead_params(
        self,
        ps: Seq<Param>,
        b: StmtView<'a>,
        b_live: Set<Symbol>,
    ) -> StmtView<'a>
        decreases ps.len(),
    {
        if ps.len() == 0 {
            b
        } else {
            let rest = self.dec_for_dead_params(ps.drop_last(), b, b_live);
            if self.is_dead_param(ps.last(), b_live) {
                self.add_dec(ps.last().symbol, rest)
            } else {
                rest
            }
        }
    }

    /// Can those decrements be worked out?
    pub open spec fn dec_for_dead_params_defined(
        self,
        ps: Seq<Param>,
        b_live: Set<Symbol>,
    ) -> bool {
        forall|i: int|
            0 <= i < ps.len() && self.is_dead_param(#[trigger] ps[i], b_live) ==> self.knows(
                ps[i].symbol,
            )
    }

    /// `b` behind a decrement for each of the symbols; the last one comes first.
    pub open spec fn dec_each(self, order: Seq<Symbol>, b: StmtView<'a>) -> StmtView<'a>
        decreases order.len(),
    {
        if order.len() == 0 {
            b
        } else {
            self.add_dec(order.last(), self.dec_each(order.drop_last(), b))
        }
    }

    /// The variables that must be consumed at the start of an alternative: they are live
    /// before the choice and dead in the alternative.
    pub open spec fn dead_in_alt(self, case_live: Set<Symbol>, alt_live: Set<Symbol>) -> Set<
        Symbol,
    > {
        Set::new(
            |x: Symbol| case_live.contains(x) && !alt_live.contains(x) && self.must_consume(x),
        )
    }

    /// Those of the symbols that must be consumed and that are dead in an alternative.
    pub open spec fn dead_among(self, symbols: Seq<Symbol>, alt_live: Set<Symbol>) -> Seq<Symbol>
        decreases symbols.len(),
    {
        if symbols.len() == 0 {
            Seq::empty()
        } else {
            let rest = self.dead_among(symbols.drop_last(), alt_live);
            let x = symbols.last();
            if !alt_live.contains(x) && self.must_consume(x) {
                rest.push(x)
            } else {
                rest
            }
        }
    }

    /// `out` is `b` behind a decrement for each variable that is dead in an alternative. The
    /// order of these decrements is not fixed.
    pub open spec fn is_dec_for_alt(
        self,
        case_live: Set<Symbol>,
        alt_live: Set<Symbol>,
        b: StmtView<'a>,
        out: StmtView<'a>,
    ) -> bool {
        exists|order: Seq<Symbol>| #[trigger]
            self.dec_each(order, b) == out && order.no_duplicates() && order.to_set()
                == self.dead_in_alt(case_live, alt_live)
    }

    /// Can those decrements be worked out?
    pub open spec fn dec_for_alt_defined(
        self,
        case_live: Set<Symbol>,
        alt_live: Set<Symbol>,
    ) -> bool {
        forall|x: Symbol| #[trigger]
            case_live.contains(x) && !alt_live.contains(x) ==> self.knows(x)
    }

    /// `let z = call` in front of `b`, with the instructions that the call asks for.
    pub open spec fn visit_call(
        self,
        z: Symbol,
        call: Call<'a>,
        l: Layout,
        b: StmtView<'a>,
        b_live: Set<Symbol>,
    ) -> StmtView<'a> {
        let args = call.arguments@;
        match call.call_type {
            CallType::LowLevel { op } => self.let_flagged(
                z,
                call,
                l,
                op.borrow_signature@,
                b,
                b_live,
            ),
            CallType::Foreign { borrow_signature, .. } => self.let_flagged(
                z,
                call,
                l,
                borrow_signature@,
                b,
                b_live,
            ),
            CallType::HigherOrderLowLevel { op, closure_layout, .. } => match higher_order_shape(
                op.op,
            ) {
                Some(shape) => {
                    let ps = self.function_params(args, shape, closure_layout)@;
                    let b = self.dec_after_lowlevel(
                        args,
                        higher_order_borrows(shape, ps),
                        b,
                        b_live,
                    );
                    let b = free_containers(args, shape, ps, b, shape.containers);
                    StmtView::Let(
                        z,
                        Expr::Call(higher_order_call(op, closure_layout, call, shape, ps)),
                        l,
                        Box::new(b),
                    )
                },
                None => self.let_flagged(z, call, l, op.borrow_signature@, b, b_live),
            },
            CallType::ByName { name, full_layout, .. } => {
                let ps = self.param_map[Key::Declaration(name, full_layout)];
                let b = self.dec_after_application(args, ps, b, b_live);
                self.inc_before(
                    args,
                    ConsumePred::Params(ps),
                    StmtView::Let(z, Expr::Call(call), l, Box::new(b)),
                    b_live,
                )
            },
        }
    }

    /// `let z = call` in front of `b`, where the call has the borrow signature `ps`.
    pub open spec fn let_flagged(
        self,
        z: Symbol,
        call: Call<'a>,
        l: Layout,
        ps: Seq<bool>,
        b: StmtView<'a>,
        b_live: Set<Symbol>,
    ) -> StmtView<'a> {
        StmtView::Let(
            z,
            Expr::Call(call),
            l,
            Box::new(self.dec_after_lowlevel(call.arguments@, ps, b, b_live)),
        )
    }

    /// The parameters of the function that is passed to an operation of the given shape.
    pub open spec fn function_params(
        self,
        args: Seq<Symbol>,
        shape: HigherOrderShape,
        closure_layout: Layout,
    ) -> &'a [Param] {
        self.param_map[Key::Declaration(args[shape.function], closure_layout)]
    }

    /// Can the instructions around a call be worked out?
    pub open spec fn call_defined(self, call: Call<'a>) -> bool {
        let args = call.arguments@;
        match call.call_type {
            CallType::LowLevel { op } => self.dec_after_lowlevel_defined(
                args,
                op.borrow_signature@,
            ),
            CallType::Foreign { borrow_signature, .. } => self.dec_after_lowlevel_defined(
                args,
                borrow_signature@,
            ),
            CallType::HigherOrderLowLevel { op, closure_layout, .. } => match higher_order_shape(
                op.op,
            ) {
                Some(shape) => {
                    let ps = self.function_params(args, shape, closure_layout)@;
                    &&& shape.function < args.len()
                    &&& self.param_map.contains_key(
                        Key::Declaration(args[shape.function], closure_layout),
                    )
                    &&& forall|k: int|
                        0 <= k < shape.leading.len() && (#[trigger] shape.leading[k]) is Some
                            ==> shape.leading[k]->0 < ps.len()
                    &&& self.dec_after_lowlevel_defined(args, higher_order_borrows(shape, ps))
                },
                None => self.dec_after_lowlevel_defined(args, op.borrow_signature@),
            },
            CallType::ByName { name, full_layout, .. } => {
                let ps = self.param_map[Key::Declaration(name, full_layout)];
                &&& self.param_map.contains_key(Key::Declaration(name, full_layout))
                &&& self.knows_all(args)
            },
        }
    }

    /// `let z = v` in front of `b`, with the instructions that `v` asks for.
    pub open spec fn declare(
        self,
        z: Symbol,
        v: Expr<'a>,
        l: Layout,
        b: StmtView<'a>,
        b_live: Set<Symbol>,
    ) -> StmtView<'a> {
        match v {
            Expr::Reuse { arguments, .. } => self.declare_consuming(z, v, l, arguments@, b, b_live),
            Expr::Tag { arguments, .. } => self.declare_consuming(z, v, l, arguments@, b, b_live),
            Expr::Struct(arguments) => self.declare_consuming(z, v, l, arguments@, b, b_live),
            Expr::Array { elems, .. } => self.declare_consuming(z, v, l, elems@, b, b_live),
            Expr::AccessAtIndex { structure, .. } => {
                let b = self.dec_if_needed(structure, b, b_live);
                let b = if self.vars[structure].consume {
                    self.add_inc(z, 1, b)
                } else {
                    b
                };
                StmtView::Let(z, v, l, Box::new(b))
            },
            Expr::Call(call) => self.visit_call(z, call, l, b, b_live),
            Expr::EmptyArray
            | Expr::Literal(_)
            | Expr::Reset(_)
            | Expr::RuntimeErrorFunction(_) => StmtView::Let(z, v, l, Box::new(b)),
        }
    }

    /// `let z = v` in front of `b`, where `v` consumes all of `ys`.
    pub open spec fn declare_consuming(
        self,
        z: Symbol,
        v: Expr<'a>,
        l: Layout,
        ys: Seq<Symbol>,
        b: StmtView<'a>,
        b_live: Set<Symbol>,
    ) -> StmtView<'a> {
        self.inc_before(ys, ConsumePred::All, StmtView::Let(z, v, l, Box::new(b)), b_live)
    }

    /// Can the instructions around `let z = v` be worked out?
    pub open spec fn declare_defined(self, z: Symbol, v: Expr<'a>) -> bool {
        match v {
            Expr::Reuse { arguments, .. } => self.knows_all(arguments@),
            Expr::Tag { arguments, .. } => self.knows_all(arguments@),
            Expr::Struct(arguments) => self.knows_all(arguments@),
            Expr::Array { elems, .. } => self.knows_all(elems@),
            Expr::AccessAtIndex { structure, .. } => self.knows(structure) && (
            self.vars[structure].consume ==> self.knows(z)),
            Expr::Call(call) => self.call_defined(call),
            Expr::EmptyArray
            | Expr::Literal(_)
            | Expr::Reset(_)
            | Expr::RuntimeErrorFunction(_) => true,
        }
    }

    /// The context in which `x` is known as `info`.
    pub open spec fn with_var(self, x: Symbol, info: VarInfo) -> Self {
        ContextView { vars: self.vars.insert(x, info), ..self }
    }

    /// Must the variable that is bound to `v` be consumed? The projection of a variable that
    /// is not consumed need not be.
    pub open spec fn consume_expr(self, v: Expr<'a>) -> bool {
        match v {
            Expr::AccessAtIndex { structure, .. } => self.knows(structure)
                ==> self.vars[structure].consume,
            _ => true,
        }
    }

    /// The context behind `let x = v`.
    pub open spec fn with_let(self, x: Symbol, layout: Layout, v: Expr<'a>) -> Self {
        self.with_var(
            x,
            VarInfo {
                reference: layout.holds_refcounted,
                persistent: false,
                consume: self.consume_expr(v),
            },
        )
    }

    /// The context behind an `invoke` that binds `x`. The result of a call without arguments
    /// is a constant.
    pub open spec fn with_invoke(self, x: Symbol, layout: Layout, call: Call<'a>) -> Self {
        self.with_var(
            x,
            VarInfo {
                reference: layout.holds_refcounted,
                persistent: call.arguments@.len() == 0,
                consume: true,
            },
        )
    }

    /// The context in which the parameters are known. Those that are borrowed need not be
    /// consumed.
    pub open spec fn with_params(self, ps: Seq<Param>) -> Self
        decreases ps.len(),
    {
        if ps.len() == 0 {
            self
        } else {
            self.with_params(ps.drop_last()).with_var(ps.last().symbol, param_info(ps.last()))
        }
    }

    /// The context in which `vars` are known to be live in the join point `id`.
    pub open spec fn with_join_point(self, id: JoinPointId, vars: Set<Symbol>) -> Self {
        ContextView { jp_live_vars: self.jp_live_vars.insert(id, vars), ..self }
    }

    /// The context behind the `let` statements that `stmt` starts with.
    pub open spec fn with_lets(self, stmt: StmtView<'a>) -> Self
        decreases stmt,
    {
        match stmt {
            StmtView::Let(symbol, expr, layout, cont) => self.with_let(
                symbol,
                layout,
                expr,
            ).with_lets(*cont),
            _ => self,
        }
    }

    /// The parameters of the join point `id`.
    pub open spec fn join_params(self, id: JoinPointId) -> &'a [Param] {
        self.param_map[Key::JoinPoint(id)]
    }

    /// The variables that are live in the join point `id`, as far as it is known.
    pub open spec fn join_live(self, id: JoinPointId) -> Set<Symbol> {
        if self.jp_live_vars.contains_key(id) {
            self.jp_live_vars[id]
        } else {
            Set::empty()
        }
    }

    /// The context in which the join point `id` with the parameters `ps` has the body `v`.
    pub open spec fn with_join_body(
        self,
        id: JoinPointId,
        ps: Seq<Param>,
        v: StmtView<'a>,
    ) -> Self {
        self.with_join_point(id, live(v, self.jp_live_vars).difference(param_symbols(ps)))
    }

    /// `stmt`, an `invoke` of `call`, behind the decrements that the call asks for.
    pub open spec fn before_invoke(
        self,
        call: Call<'a>,
        stmt: StmtView<'a>,
        invoke_live: Set<Symbol>,
    ) -> StmtView<'a> {
        let args = call.arguments@;
        match call.call_type {
            CallType::LowLevel { op } => self.dec_after_lowlevel(
                args,
                op.borrow_signature@,
                stmt,
                invoke_live,
            ),
            CallType::Foreign { borrow_signature, .. } => self.dec_after_lowlevel(
                args,
                borrow_signature@,
                stmt,
                invoke_live,
            ),
            CallType::ByName { name, full_layout, .. } => self.dec_after_application(
                args,
                self.param_map[Key::Declaration(name, full_layout)],
                stmt,
                invoke_live,
            ),
            CallType::HigherOrderLowLevel { .. } => stmt,
        }
    }

    /// Can those decrements be worked out? An operation that takes a function cannot be
    /// invoked.
    pub open spec fn before_invoke_defined(self, call: Call<'a>) -> bool {
        let args = call.arguments@;
        match call.call_type {
            CallType::LowLevel { op } => self.dec_after_lowlevel_defined(
                args,
                op.borrow_signature@,
            ),
            CallType::Foreign { borrow_signature, .. } => self.dec_after_lowlevel_defined(
                args,
                borrow_signature@,
            ),
            CallType::ByName { name, full_layout, .. } => {
                &&& self.param_map.contains_key(Key::Declaration(name, full_layout))
                &&& self.knows_all(args)
            },
            CallType::HigherOrderLowLevel { .. } => false,
        }
    }
}

/// The statement behind the first `n` of the `let` statements that `stmt` starts with.
pub open spec fn behind_lets(stmt: StmtView, n: nat) -> StmtView
    decreases n,
{
    if n == 0 {
        stmt
    } else {
        match behind_lets(stmt, (n - 1) as nat) {
            StmtView::Let(_, _, _, cont) => *cont,
            other => other,
        }
    }
}

/// What is known of a parameter.
pub open spec fn param_info(p: Param) -> VarInfo {
    VarInfo { reference: p.layout.holds_refcounted, persistent: false, consume: !p.borrow }
}

/// `out` is `stmt` with its instructions inserted, and `live_vars` are the variables that
/// are live before it.
///
/// All the `let` statements that `stmt` starts with are known when the first of them is
/// worked on.
pub open spec fn visits<'a>(
    ctx: ContextView<'a>,
    stmt: StmtView<'a>,
    out: StmtView<'a>,
    live_vars: Set<Symbol>,
) -> bool
    decreases stmt, 1nat,
{
    visits_in(ctx.with_lets(stmt), stmt, out, live_vars)
}

/// `out` is the alternative `stmt` of a choice before which `case_live` are live, with its
/// instructions inserted, behind a decrement for each variable that is dead in it.
pub open spec fn visits_alt<'a>(
    ctx: ContextView<'a>,
    case_live: Set<Symbol>,
    stmt: StmtView<'a>,
    out: StmtView<'a>,
) -> bool
    decreases stmt, 2nat,
{
    exists|b: StmtView<'a>, b_live: Set<Symbol>|
        visits(ctx, stmt, b, b_live) && #[trigger] ctx.is_dec_for_alt(case_live, b_live, b, out)
}

/// `out` is `stmt` with its instructions inserted, in a context that knows the `let`
/// statements that `stmt` starts with.
pub open spec fn visits_in<'a>(
    ctx: ContextView<'a>,
    stmt: StmtView<'a>,
    out: StmtView<'a>,
    live_vars: Set<Symbol>,
) -> bool
    decreases stmt, 0nat,
{
    match stmt {
        StmtView::Let(symbol, expr, layout, cont) => exists|b: StmtView<'a>, b_live: Set<Symbol>|
            {
                &&& visits_in(ctx, *cont, b, b_live)
                &&& out == #[trigger] ctx.declare(symbol, expr, layout, b, b_live)
                &&& live_vars == b_live.union(expr_symbols(expr)).remove(symbol)
            },
        StmtView::Invoke { symbol, call, layout, pass, fail } => {
            &&& live_vars == live(stmt, ctx.jp_live_vars)
            &&& exists|pass_out: StmtView<'a>, fail_out: StmtView<'a>|
                {
                    &&& visits_alt(
                        ctx.with_invoke(symbol, layout, call),
                        live_vars,
                        *pass,
                        pass_out,
                    )
                    &&& visits_alt(ctx, live_vars, *fail, fail_out)
                    &&& out == #[trigger] ctx.before_invoke(
                        call,
                        StmtView::Invoke {
                            symbol,
                            call,
                            layout,
                            pass: Box::new(pass_out),
                            fail: Box::new(fail_out),
                        },
                        live_vars,
                    )
                }
        },
        StmtView::Join { id, continuation, remainder, .. } => {
            let ps = ctx.join_params(id);
            match out {
                StmtView::Join { id: id_out, parameters, continuation: v_out, remainder: b } => {
                    &&& id_out == id
                    &&& parameters == ps
                    &&& exists|v: StmtView<'a>, v_live: Set<Symbol>|
                        {
                            &&& visits(ctx.with_params(ps@), *continuation, v, v_live)
                            &&& *v_out == #[trigger] ctx.with_params(ps@).dec_for_dead_params(
                                ps@,
                                v,
                                v_live,
                            )
                        }
                    &&& visits(ctx.with_join_body(id, ps@, *v_out), *remainder, *b, live_vars)
                },
                _ => false,
            }
        },
        StmtView::Ret(x) => {
            &&& live_vars == set![x]
            &&& out == if ctx.vars[x].reference && !ctx.vars[x].consume {
                ctx.add_inc(x, 1, stmt)
            } else {
                stmt
            }
        },
        StmtView::Jump(id, xs) => {
            &&& out == ctx.inc_before(
                xs@,
                ConsumePred::Params(ctx.join_params(id)),
                stmt,
                ctx.join_live(id),
            )
            &&& live_vars == live(out, ctx.jp_live_vars)
        },
        StmtView::Switch { cond_symbol, cond_layout, branches, default_branch, ret_layout } => {
            &&& live_vars == live(stmt, ctx.jp_live_vars)
            &&& match out {
                StmtView::Switch {
                    cond_symbol: cond_symbol_out,
                    cond_layout: cond_layout_out,
                    branches: bs,
                    default_branch: d,
                    ret_layout: ret_layout_out,
                } => {
                    &&& cond_symbol_out == cond_symbol
                    &&& cond_layout_out == cond_layout
                    &&& ret_layout_out == ret_layout
                    &&& bs.len() == branches.len()
                    &&& forall|i: int|
                        #![trigger bs[i]]
                        #![trigger branches[i]]
                        0 <= i < branches.len() ==> {
                            &&& bs[i].0 == branches[i].0
                            &&& bs[i].1 == branches[i].1
                            &&& visits_alt(ctx, live_vars, branches[i].2, bs[i].2)
                        }
                    &&& d.0 == default_branch.0
                    &&& visits_alt(ctx, live_vars, *default_branch.1, *d.1)
                },
                _ => false,
            }
        },
        StmtView::Rethrow | StmtView::RuntimeError(_) | StmtView::Refcounting(_, _) => {
            &&& out == stmt
            &&& live_vars == Set::<Symbol>::empty()
        },
    }
}

/// Can the instructions for `stmt` be worked out? Something must be known of every variable
/// whose count may have to change, and the parameters of every function that is called and
/// of every join point must be known. Where an `invoke` binds a counted pointer, its `pass`
/// branch must use it.
pub open spec fn visitable<'a>(ctx: ContextView<'a>, stmt: StmtView<'a>) -> bool
    decreases stmt, 1nat,
{
    visitable_in(ctx.with_lets(stmt), stmt)
}

/// Can the instructions for the alternative `stmt` be worked out?
pub open spec fn visitable_alt<'a>(
    ctx: ContextView<'a>,
    case_live: Set<Symbol>,
    stmt: StmtView<'a>,
) -> bool
    decreases stmt, 2nat,
{
    &&& visitable(ctx, stmt)
    &&& forall|b: StmtView<'a>, b_live: Set<Symbol>| #[trigger]
        visits(ctx, stmt, b, b_live) ==> ctx.dec_for_alt_defined(case_live, b_live)
}

/// Can the instructions for `stmt` be worked out, in a context that knows the `let`
/// statements that `stmt` starts with?
pub open spec fn visitable_in<'a>(ctx: ContextView<'a>, stmt: StmtView<'a>) -> bool
    decreases stmt, 0nat,
{
    match stmt {
        StmtView::Let(symbol, expr, _, cont) => {
            &&& ctx.declare_defined(symbol, expr)
            &&& visitable_in(ctx, *cont)
        },
        StmtView::Invoke { symbol, call, layout, pass, fail } => {
            let invoke_live = live(stmt, ctx.jp_live_vars);
            &&& layout.refcounted ==> live(*pass, ctx.jp_live_vars).contains(symbol)
            &&& ctx.before_invoke_defined(call)
            &&& visitable_alt(ctx.with_invoke(symbol, layout, call), invoke_live, *pass)
            &&& visitable_alt(ctx, invoke_live, *fail)
        },
        StmtView::Join { id, continuation, remainder, .. } => {
            let ps = ctx.join_params(id)@;
            let inner = ctx.with_params(ps);
            &&& ctx.param_map.contains_key(Key::JoinPoint(id))
            &&& visitable(inner, *continuation)
            &&& forall|v: StmtView<'a>, v_live: Set<Symbol>| #[trigger]
                visits(inner, *continuation, v, v_live) ==> visitable(
                    ctx.with_join_body(id, ps, inner.dec_for_dead_params(ps, v, v_live)),
                    *remainder,
                )
        },
        StmtView::Ret(x) => ctx.knows(x),
        StmtView::Jump(id, xs) => {
            &&& ctx.param_map.contains_key(Key::JoinPoint(id))
            &&& ctx.knows_all(xs@)
        },
        StmtView::Switch { branches, default_branch, .. } => {
            let case_live = live(stmt, ctx.jp_live_vars);
            &&& forall|i: int|
                0 <= i < branches.len() ==> visitable_alt(
                    ctx,
                    case_live,
                    #[trigger] branches[i].2,
                )
            &&& visitable_alt(ctx, case_live, *default_branch.1)
        },
        StmtView::Rethrow | StmtView::RuntimeError(_) | StmtView::Refcounting(_, _) => true,
    }
}

/// The context at the start of a program with the given parameter map. The functions of the
/// program are global constants: they are never counted nor consumed.
pub open spec fn initial_context<'a>(param_map: Map<Key, &'a [Param]>) -> ContextView<'a> {
    ContextView {
        vars: Map::new(
            |x: Symbol| declared_symbols(param_map).contains(x),
            |x: Symbol| VarInfo { reference: false, persistent: true, consume: false },
        ),
        jp_live_vars: Map::empty(),
        param_map,
    }
}

/// One owned parameter for each argument.
pub open spec fn owned_params_of(args: Seq<(Layout, Symbol)>) -> Seq<Param> {
    Seq::new(
        args.len(),
        |i: int| Param { symbol: args[i].1, borrow: OWNED, layout: args[i].0 },
    )
}

/// The parameters of a procedure of the given layout. Without an entry in the parameter map
/// its arguments are owned.
pub open spec fn proc_params(
    param_map: Map<Key, &[Param]>,
    proc: Proc,
    layout: Layout,
) -> Seq<Param> {
    if param_map.contains_key(Key::Declaration(proc.name, layout)) {
        param_map[Key::Declaration(proc.name, layout)]@
    } else {
        owned_params_of(proc.args@)
    }
}

/// `out` is the body of a procedure with the parameters `ps`, with its instructions inserted,
/// behind a decrement for each parameter that is a reference, not borrowed and dead in the
/// body.
pub open spec fn visits_proc<'a>(
    ctx: ContextView<'a>,
    ps: Seq<Param>,
    body: StmtView<'a>,
    out: StmtView<'a>,
) -> bool {
    exists|b: StmtView<'a>, b_live: Set<Symbol>|
        {
            &&& visits(ctx.with_params(ps), body, b, b_live)
            &&& out == #[trigger] ctx.with_params(ps).dec_for_dead_params(ps, b, b_live)
        }
}

} // verus!
