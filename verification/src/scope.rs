//! What a program says of its variables and calls: which variables are in scope, which of them
//! are counted and which are owned, and what becomes of the arguments of a call.
//!
//! All of it is read off layouts and borrow flags.
use vstd::prelude::*;

use crate::borrow::Key;
use crate::ir::{Call, CallType, Expr, Layout, LowLevelOp, Param, StmtView, Symbol};

verus! {

/// How a variable stands in a procedure.
pub ghost struct Standing {
    /// The variable is counted at run time.
    pub counted: bool,
    /// The procedure must give up a reference to the variable. Otherwise the variable is on
    /// loan: someone else keeps it alive.
    pub owned: bool,
}

/// The variables in scope, and the parameters of the functions and join points of the program.
#[verifier::ext_equal]
pub ghost struct Scope<'a> {
    pub vars: Map<Symbol, Standing>,
    pub params: Map<Key, &'a [Param]>,
}

/// The symbols that an expression names, in order.
pub open spec fn operands(expr: Expr) -> Seq<Symbol> {
    match expr {
        Expr::Literal(_) | Expr::EmptyArray | Expr::RuntimeErrorFunction(_) => Seq::empty(),
        Expr::Struct(arguments) => arguments@,
        Expr::Tag { arguments, .. } => arguments@,
        Expr::Array { elems, .. } => elems@,
        Expr::Reuse { symbol, arguments, .. } => arguments@.push(symbol),
        Expr::Reset(symbol) => seq![symbol],
        Expr::AccessAtIndex { structure, .. } => seq![structure],
        Expr::Call(call) => call.arguments@,
    }
}

/// One of the parameters is called `x`.
pub open spec fn names_param(ps: Seq<Param>, x: Symbol) -> bool {
    exists|i: int| 0 <= i < ps.len() && (#[trigger] ps[i]).symbol == x
}

impl<'a> Scope<'a> {
    /// Before a procedure starts, only the functions of the program are in scope. They are not
    /// counted, and nobody owns them.
    pub open spec fn at_start(params: Map<Key, &'a [Param]>) -> Self {
        Scope {
            vars: Map::new(
                |x: Symbol|
                    exists|layout: Layout| #[trigger]
                        params.contains_key(Key::Declaration(x, layout)),
                |x: Symbol| Standing { counted: false, owned: false },
            ),
            params,
        }
    }

    /// Is `x` in scope?
    pub open spec fn knows(self, x: Symbol) -> bool {
        self.vars.contains_key(x)
    }

    /// Is `x` a counted variable in scope?
    pub open spec fn counts(self, x: Symbol) -> bool {
        self.vars.contains_key(x) && self.vars[x].counted
    }

    /// Is `x` a counted variable of which the procedure must give up a reference?
    pub open spec fn owns(self, x: Symbol) -> bool {
        self.counts(x) && self.vars[x].owned
    }

    /// Behind `let x = expr`: `x` is counted if its layout holds a counted pointer. It is owned,
    /// unless it is part of a structure that is on loan.
    pub open spec fn behind_let(self, x: Symbol, layout: Layout, expr: Expr<'a>) -> Self {
        let on_loan = expr matches Expr::AccessAtIndex { structure, .. } && self.knows(structure)
            && !self.vars[structure].owned;
        Scope {
            vars: self.vars.insert(
                x,
                Standing { counted: layout.holds_refcounted, owned: !on_loan },
            ),
            ..self
        }
    }

    /// In the `pass` branch of an `invoke` that binds `x`: the result of a call without arguments
    /// is a constant, and constants are not counted.
    pub open spec fn behind_invoke(self, x: Symbol, layout: Layout, call: Call<'a>) -> Self {
        Scope {
            vars: self.vars.insert(
                x,
                Standing {
                    counted: layout.holds_refcounted && call.arguments@.len() > 0,
                    owned: true,
                },
            ),
            ..self
        }
    }

    /// Inside a procedure or a join point with the parameters `ps`: a parameter is counted if
    /// its layout holds a counted pointer, and owned unless it is borrowed.
    pub open spec fn behind_params(self, ps: Seq<Param>) -> Self
        decreases ps.len(),
    {
        if ps.len() == 0 {
            self
        } else {
            let before = self.behind_params(ps.drop_last());
            let p = ps.last();
            Scope {
                vars: before.vars.insert(
                    p.symbol,
                    Standing { counted: p.layout.holds_refcounted, owned: !p.borrow },
                ),
                ..before
            }
        }
    }
}

/// What becomes of a reference that is passed as an argument.
pub ghost enum Fate {
    /// The callee looks at it; the caller still has it when the call is over.
    Lent,
    /// The callee takes it.
    Taken,
    /// The callee takes what is inside of a container; the caller frees the empty container.
    Emptied,
}

/// The fate of an argument whose flag is at position `i`, if there is one. Without a flag the
/// argument is lent.
pub open spec fn flag_fate(flags: Seq<bool>, i: int) -> Fate {
    if i < flags.len() && !flags[i] {
        Fate::Taken
    } else {
        Fate::Lent
    }
}

/// The fate of a container whose elements are passed to a parameter.
pub open spec fn element_fate(p: Param) -> Fate {
    if p.borrow {
        Fate::Lent
    } else {
        Fate::Emptied
    }
}

/// The position of the function among the arguments of an operation that takes one.
pub open spec fn function_position(op: LowLevelOp) -> int {
    match op {
        LowLevelOp::ListMap => 1,
        LowLevelOp::ListKeepIf => 1,
        LowLevelOp::ListKeepOks => 1,
        LowLevelOp::ListKeepErrs => 1,
        LowLevelOp::ListMapWithIndex => 1,
        LowLevelOp::ListSortWith => 1,
        LowLevelOp::ListMap2 => 2,
        LowLevelOp::ListMap3 => 3,
        LowLevelOp::ListWalk => 2,
        LowLevelOp::ListWalkUntil => 2,
        LowLevelOp::ListWalkBackwards => 2,
        LowLevelOp::DictWalk => 2,
        LowLevelOp::Other(_) => 0,
    }
}

/// How many values an operation passes to its function besides the closure data.
pub open spec fn function_arity(op: LowLevelOp) -> nat {
    match op {
        // an element
        LowLevelOp::ListMap => 1,
        LowLevelOp::ListKeepIf => 1,
        LowLevelOp::ListKeepOks => 1,
        LowLevelOp::ListKeepErrs => 1,
        // an index and an element
        LowLevelOp::ListMapWithIndex => 2,
        // an element of each list
        LowLevelOp::ListMap2 => 2,
        LowLevelOp::ListMap3 => 3,
        // two elements to be put in order
        LowLevelOp::ListSortWith => 2,
        // an element and the state so far
        LowLevelOp::ListWalk => 2,
        LowLevelOp::ListWalkUntil => 2,
        LowLevelOp::ListWalkBackwards => 2,
        LowLevelOp::DictWalk => 2,
        LowLevelOp::Other(_) => 0,
    }
}

/// How many parameters the function must have so that the fate of the arguments is known.
pub open spec fn function_flags(op: LowLevelOp) -> nat {
    match op {
        LowLevelOp::ListSortWith => 0,
        _ => function_arity(op),
    }
}

/// The parameters of the function that is passed to an operation.
pub open spec fn passed_function<'a>(
    params: Map<Key, &'a [Param]>,
    op: LowLevelOp,
    closure_layout: Layout,
    args: Seq<Symbol>,
) -> Seq<Param> {
    params[Key::Declaration(args[function_position(op)], closure_layout)]@
}

/// The fate of the argument at position `i` of an operation that is passed a function with the
/// parameters `ps`.
pub open spec fn operation_fate(op: LowLevelOp, flags: Seq<bool>, ps: Seq<Param>, i: int) -> Fate {
    match op {
        // the elements of the list are the first thing that the function is passed
        LowLevelOp::ListMap
        | LowLevelOp::ListKeepIf
        | LowLevelOp::ListKeepOks
        | LowLevelOp::ListKeepErrs => if i == 0 {
            element_fate(ps[0])
        } else {
            Fate::Lent
        },
        // the function is passed the index, and then the element
        LowLevelOp::ListMapWithIndex => if i == 0 {
            element_fate(ps[1])
        } else {
            Fate::Lent
        },
        // the function is passed an element of each list
        LowLevelOp::ListMap2 => if i == 0 {
            element_fate(ps[0])
        } else if i == 1 {
            element_fate(ps[1])
        } else {
            Fate::Lent
        },
        LowLevelOp::ListMap3 => if i == 0 {
            element_fate(ps[0])
        } else if i == 1 {
            element_fate(ps[1])
        } else if i == 2 {
            element_fate(ps[2])
        } else {
            Fate::Lent
        },
        // the list is sorted in place
        LowLevelOp::ListSortWith => if i == 0 {
            Fate::Taken
        } else {
            Fate::Lent
        },
        // the function is passed an element of the structure, and then the state, which starts
        // as the default
        LowLevelOp::ListWalk
        | LowLevelOp::ListWalkUntil
        | LowLevelOp::ListWalkBackwards
        | LowLevelOp::DictWalk => if i == 0 {
            element_fate(ps[0])
        } else if i == 1 && !ps[1].borrow {
            Fate::Taken
        } else {
            Fate::Lent
        },
        LowLevelOp::Other(_) => flag_fate(flags, i),
    }
}

/// The fate of the argument at position `i` of a call. The callee takes it if the parameter there
/// is not borrowed, whatever its layout.
pub open spec fn argument_fate<'a>(params: Map<Key, &'a [Param]>, call: Call<'a>, i: int) -> Fate {
    match call.call_type {
        CallType::ByName { name, full_layout, .. } => {
            let ps = params[Key::Declaration(name, full_layout)]@;
            if i < ps.len() && ps[i].borrow {
                Fate::Lent
            } else {
                Fate::Taken
            }
        },
        CallType::LowLevel { op } => flag_fate(op.borrow_signature@, i),
        CallType::Foreign { borrow_signature, .. } => flag_fate(borrow_signature@, i),
        CallType::HigherOrderLowLevel { op, closure_layout, .. } => operation_fate(
            op.op,
            op.borrow_signature@,
            passed_function(params, op.op, closure_layout, call.arguments@),
            i,
        ),
    }
}

/// How many of the first arguments of a built-in or foreign call have a borrow flag. For an
/// operation that takes a function these are the arguments in front of the function, the
/// function and its closure data.
pub open spec fn flag_count(call: Call) -> nat {
    match call.call_type {
        CallType::ByName { .. } => 0,
        CallType::LowLevel { op } => op.borrow_signature@.len(),
        CallType::Foreign { borrow_signature, .. } => borrow_signature@.len(),
        CallType::HigherOrderLowLevel { op, .. } => if op.op is Other {
            op.borrow_signature@.len()
        } else {
            (function_position(op.op) + 2) as nat
        },
    }
}

/// The fate of the operand at position `i` of an expression: what is built in holds what it is
/// built from.
pub open spec fn operand_fate<'a>(params: Map<Key, &'a [Param]>, expr: Expr<'a>, i: int) -> Fate {
    match expr {
        Expr::Call(call) => argument_fate(params, call, i),
        Expr::AccessAtIndex { .. } => Fate::Lent,
        _ => Fate::Taken,
    }
}

/// How many of the first `n` positions hold `x` and meet the fate `fate`.
pub open spec fn fates_upto(
    xs: Seq<Symbol>,
    fates: spec_fn(int) -> Fate,
    x: Symbol,
    fate: Fate,
    n: nat,
) -> nat
    decreases n,
{
    if n == 0 {
        0
    } else {
        let rest = fates_upto(xs, fates, x, fate, (n - 1) as nat);
        if xs[n - 1] == x && fates(n - 1) == fate {
            rest + 1
        } else {
            rest
        }
    }
}

/// How many operands of an expression are `x` and meet the fate `fate`.
pub open spec fn fates<'a>(
    params: Map<Key, &'a [Param]>,
    expr: Expr<'a>,
    x: Symbol,
    fate: Fate,
) -> nat {
    fates_upto(
        operands(expr),
        |i: int| operand_fate(params, expr, i),
        x,
        fate,
        operands(expr).len(),
    )
}

/// The fate of the argument at position `i` of a jump to a join point with the parameters `ps`.
pub open spec fn jump_fate(ps: Seq<Param>, i: int) -> Fate {
    if i < ps.len() && ps[i].borrow {
        Fate::Lent
    } else {
        Fate::Taken
    }
}

/// How many arguments of a jump are `x` and meet the fate `fate`.
pub open spec fn jump_fates(ps: Seq<Param>, args: Seq<Symbol>, x: Symbol, fate: Fate) -> nat {
    fates_upto(args, |i: int| jump_fate(ps, i), x, fate, args.len())
}

/// Every variable is used in scope, none is bound again where it is in scope, and there are no
/// instructions. `vars` are the variables in scope.
pub open spec fn tidy<'a>(
    vars: Set<Symbol>,
    params: Map<Key, &'a [Param]>,
    stmt: StmtView<'a>,
) -> bool
    decreases stmt,
{
    match stmt {
        StmtView::Let(symbol, expr, _, cont) => {
            &&& all_in(operands(expr), vars)
            &&& !vars.contains(symbol)
            &&& tidy(vars.insert(symbol), params, *cont)
        },
        StmtView::Invoke { symbol, call, pass, fail, .. } => {
            &&& all_in(call.arguments@, vars)
            &&& !vars.contains(symbol)
            &&& tidy(vars.insert(symbol), params, *pass)
            &&& tidy(vars, params, *fail)
        },
        StmtView::Switch { cond_symbol, branches, default_branch, .. } => {
            &&& vars.contains(cond_symbol)
            &&& forall|i: int|
                0 <= i < branches.len() ==> tidy(vars, params, (#[trigger] branches[i]).2)
            &&& tidy(vars, params, *default_branch.1)
        },
        StmtView::Join { id, parameters, continuation, remainder } => {
            let ps = params[Key::JoinPoint(id)]@;
            &&& forall|x: Symbol| #[trigger]
                names_param(ps, x) <==> names_param(parameters@, x)
            &&& forall|x: Symbol| #[trigger] names_param(ps, x) ==> !vars.contains(x)
            &&& distinct_params(ps)
            &&& tidy(
                vars.union(Set::new(|x: Symbol| names_param(ps, x))),
                params,
                *continuation,
            )
            &&& tidy(vars, params, *remainder)
        },
        StmtView::Jump(_, arguments) => all_in(arguments@, vars),
        StmtView::Ret(symbol) => vars.contains(symbol),
        StmtView::Rethrow | StmtView::RuntimeError(_) => true,
        StmtView::Refcounting(_, _) => false,
    }
}

/// All of the symbols are among `vars`.
pub open spec fn all_in(xs: Seq<Symbol>, vars: Set<Symbol>) -> bool {
    forall|i: int| 0 <= i < xs.len() ==> vars.contains(#[trigger] xs[i])
}

/// No two parameters have the same name.
pub open spec fn distinct_params(ps: Seq<Param>) -> bool {
    forall|i: int, j: int|
        0 <= i < j < ps.len() ==> (#[trigger] ps[i]).symbol != (#[trigger] ps[j]).symbol
}

} // verus!
