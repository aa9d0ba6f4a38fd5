//! The intermediate representation that the pass reads and rewrites.
//!
//! Statements live in an arena and refer to each other by shared reference, so
//! every node is `Copy`. The mathematical counterpart of a statement is a
//! [`StmtView`], in which the branches of a switch are a sequence.
use vstd::prelude::*;

verus! {

/// An interned name.
pub type Symbol = u64;

/// The name of a join point.
pub type JoinPointId = u64;

/// A memory layout, reduced to its identity and to what reference counting asks of it.
#[derive(Clone, Copy, Debug, PartialEq, Eq, Structural)]
pub struct Layout {
    /// Tells apart layouts that answer the two questions below alike.
    pub id: u64,
    /// A value of this layout is itself a pointer to a counted cell.
    pub refcounted: bool,
    /// A value of this layout is, or holds somewhere inside, a counted pointer.
    pub holds_refcounted: bool,
}

impl Layout {
    /// Is a value of this layout itself reference counted?
    pub fn is_refcounted(&self) -> (r: bool)
        ensures
            r == self.refcounted,
    {
        self.refcounted
    }

    /// Does a value of this layout contain anything that is reference counted?
    pub fn contains_refcounted(&self) -> (r: bool)
        ensures
            r == self.holds_refcounted,
    {
        self.holds_refcounted
    }
}

/// The built-in operations. The ones that take a function argument are told apart;
/// every other operation is known by its number.
#[derive(Clone, Copy, Debug, PartialEq, Eq, Structural)]
pub enum LowLevelOp {
    ListMap,
    ListKeepIf,
    ListKeepOks,
    ListKeepErrs,
    ListMapWithIndex,
    ListMap2,
    ListMap3,
    ListSortWith,
    ListWalk,
    ListWalkUntil,
    ListWalkBackwards,
    DictWalk,
    Other(u64),
}

/// A built-in operation together with its borrow signature: one flag per
/// argument, [`BORROWED`](crate::borrow::BORROWED) or [`OWNED`](crate::borrow::OWNED).
#[derive(Clone, Copy, Debug)]
pub struct LowLevel<'a> {
    pub op: LowLevelOp,
    pub borrow_signature: &'a [bool],
}

/// What a call calls.
#[derive(Clone, Copy, Debug)]
pub enum CallType<'a> {
    /// A top-level function of the program.
    ByName { name: Symbol, full_layout: Layout, ret_layout: Layout, arg_layouts: &'a [Layout] },
    /// A function outside the program, with one borrow flag per argument.
    Foreign { foreign_symbol: u64, ret_layout: Layout, borrow_signature: &'a [bool] },
    /// A built-in operation.
    LowLevel { op: LowLevel<'a> },
    /// A built-in operation that takes a function and its closure data.
    HigherOrderLowLevel {
        op: LowLevel<'a>,
        closure_layout: Layout,
        function_owns_closure_data: bool,
    },
}

/// A call: what is called, and the arguments.
#[derive(Clone, Copy, Debug)]
pub struct Call<'a> {
    pub call_type: CallType<'a>,
    pub arguments: &'a [Symbol],
}

/// A literal. A floating-point literal is held by its bit pattern.
#[derive(Clone, Copy, Debug)]
pub enum Literal<'a> {
    Int(i128),
    Float(u64),
    Str(&'a str),
    Bool(bool),
    Byte(u8),
}

/// The right-hand side of a `let`.
#[derive(Clone, Copy, Debug)]
pub enum Expr<'a> {
    Literal(Literal<'a>),
    Call(Call<'a>),
    Tag { tag_layout: Layout, tag_id: u8, arguments: &'a [Symbol] },
    Struct(&'a [Symbol]),
    AccessAtIndex { index: u64, field_layouts: &'a [Layout], structure: Symbol },
    Array { elem_layout: Layout, elems: &'a [Symbol] },
    EmptyArray,
    Reuse { symbol: Symbol, tag_layout: Layout, tag_id: u8, arguments: &'a [Symbol] },
    Reset(Symbol),
    RuntimeErrorFunction(&'a str),
}

/// A parameter of a function or of a join point.
#[derive(Clone, Copy, Debug, PartialEq, Eq, Structural)]
pub struct Param {
    pub symbol: Symbol,
    /// The callee only borrows the argument.
    pub borrow: bool,
    pub layout: Layout,
}

/// A reference-count instruction.
#[derive(Clone, Copy, Debug, PartialEq, Eq, Structural)]
pub enum ModifyRc {
    /// Add to the count.
    Inc(Symbol, u64),
    /// Take one from the count, and release the contents when it reaches zero.
    Dec(Symbol),
    /// Take one from the count, and leave the contents alone.
    DecRef(Symbol),
}

impl ModifyRc {
    /// The symbol whose count an instruction changes.
    pub open spec fn symbol(self) -> Symbol {
        match self {
            ModifyRc::Inc(symbol, _) => symbol,
            ModifyRc::Dec(symbol) => symbol,
            ModifyRc::DecRef(symbol) => symbol,
        }
    }

    /// The symbol whose count this instruction changes.
    pub fn get_symbol(&self) -> (r: Symbol)
        ensures
            r == self.symbol(),
            match *self {
                ModifyRc::Inc(x, _) => r == x,
                ModifyRc::Dec(x) => r == x,
                ModifyRc::DecRef(x) => r == x,
            },
    {
        match self {
            ModifyRc::Inc(symbol, _) => *symbol,
            ModifyRc::Dec(symbol) => *symbol,
            ModifyRc::DecRef(symbol) => *symbol,
        }
    }
}

/// What is known of the scrutinee inside a branch.
#[derive(Clone, Copy, Debug, PartialEq, Eq, Structural)]
pub enum BranchInfo {
    Unknown,
    Constructor { scrutinee: Symbol, layout: Layout, tag_id: u8 },
}

/// A statement.
#[derive(Clone, Copy)]
pub enum Stmt<'a> {
    Let(Symbol, Expr<'a>, Layout, &'a Stmt<'a>),
    /// A call that may fail: `symbol` is bound in `pass`.
    Invoke {
        symbol: Symbol,
        call: Call<'a>,
        layout: Layout,
        pass: &'a Stmt<'a>,
        fail: &'a Stmt<'a>,
    },
    Switch {
        cond_symbol: Symbol,
        cond_layout: Layout,
        branches: Branches<'a>,
        default_branch: (BranchInfo, &'a Stmt<'a>),
        ret_layout: Layout,
    },
    Ret(Symbol),
    Rethrow,
    Refcounting(ModifyRc, &'a Stmt<'a>),
    /// A local continuation: `remainder` may jump to `continuation`.
    Join {
        id: JoinPointId,
        parameters: &'a [Param],
        continuation: &'a Stmt<'a>,
        remainder: &'a Stmt<'a>,
    },
    Jump(JoinPointId, &'a [Symbol]),
    RuntimeError(&'a str),
}

/// A branch of a switch: the label it is taken for, what is known inside, and its body.
pub type Branch<'a> = (u64, BranchInfo, Stmt<'a>);

/// The branches of a switch, apart from the default one.
#[derive(Clone, Copy)]
pub struct Branches<'a> {
    items: &'a [Branch<'a>],
    model: Ghost<Seq<(u64, BranchInfo, StmtView<'a>)>>,
}

/// The mathematical counterpart of a [`Stmt`].
pub ghost enum StmtView<'a> {
    Let(Symbol, Expr<'a>, Layout, Box<StmtView<'a>>),
    Invoke {
        symbol: Symbol,
        call: Call<'a>,
        layout: Layout,
        pass: Box<StmtView<'a>>,
        fail: Box<StmtView<'a>>,
    },
    Switch {
        cond_symbol: Symbol,
        cond_layout: Layout,
        branches: Seq<(u64, BranchInfo, StmtView<'a>)>,
        default_branch: (BranchInfo, Box<StmtView<'a>>),
        ret_layout: Layout,
    },
    Ret(Symbol),
    Rethrow,
    Refcounting(ModifyRc, Box<StmtView<'a>>),
    Join {
        id: JoinPointId,
        parameters: &'a [Param],
        continuation: Box<StmtView<'a>>,
        remainder: Box<StmtView<'a>>,
    },
    Jump(JoinPointId, &'a [Symbol]),
    RuntimeError(&'a str),
}

impl<'a> View for Stmt<'a> {
    type V = StmtView<'a>;

    open spec fn view(&self) -> StmtView<'a>
        decreases self,
    {
        match *self {
            Stmt::Let(symbol, expr, layout, cont) => StmtView::Let(
                symbol,
                expr,
                layout,
                Box::new(cont.view()),
            ),
            Stmt::Invoke { symbol, call, layout, pass, fail } => StmtView::Invoke {
                symbol,
                call,
                layout,
                pass: Box::new(pass.view()),
                fail: Box::new(fail.view()),
            },
            Stmt::Switch { cond_symbol, cond_layout, branches, default_branch, ret_layout } => {
                StmtView::Switch {
                    cond_symbol,
                    cond_layout,
                    branches: branches.view(),
                    default_branch: (default_branch.0, Box::new(default_branch.1.view())),
                    ret_layout,
                }
            },
            Stmt::Ret(symbol) => StmtView::Ret(symbol),
            Stmt::Rethrow => StmtView::Rethrow,
            Stmt::Refcounting(modify, cont) => StmtView::Refcounting(
                modify,
                Box::new(cont.view()),
            ),
            Stmt::Join { id, parameters, continuation, remainder } => StmtView::Join {
                id,
                parameters,
                continuation: Box::new(continuation.view()),
                remainder: Box::new(remainder.view()),
            },
            Stmt::Jump(id, arguments) => StmtView::Jump(id, arguments),
            Stmt::RuntimeError(message) => StmtView::RuntimeError(message),
        }
    }
}

impl<'a> View for Branches<'a> {
    type V = Seq<(u64, BranchInfo, StmtView<'a>)>;

    closed spec fn view(&self) -> Seq<(u64, BranchInfo, StmtView<'a>)> {
        self.model@
    }
}

/// The views of a sequence of branches.
pub open spec fn branch_views<'a>(items: Seq<Branch<'a>>) -> Seq<(u64, BranchInfo, StmtView<'a>)> {
    Seq::new(items.len(), |i: int| (items[i].0, items[i].1, items[i].2@))
}

impl<'a> Branches<'a> {
    /// The recorded sequence is that of the branches held.
    #[verifier::type_invariant]
    closed spec fn recorded(self) -> bool {
        self.model@ == branch_views(self.items@)
    }

    /// The given branches, in the given order.
    pub fn new(items: &'a [Branch<'a>]) -> (r: Self)
        ensures
            r@ == branch_views(items@),
    {
        Branches { items, model: Ghost(branch_views(items@)) }
    }

    /// The branches, in order.
    pub fn as_slice(&self) -> (r: &'a [Branch<'a>])
        ensures
            self@ == branch_views(r@),
    {
        proof {
            use_type_invariant(self);
        }
        self.items
    }
}

/// The number of nodes of a statement.
pub open spec fn node_count(stmt: StmtView) -> nat
    decreases stmt,
{
    match stmt {
        StmtView::Let(_, _, _, cont) => 1 + node_count(*cont),
        StmtView::Invoke { pass, fail, .. } => 1 + node_count(*pass) + node_count(*fail),
        StmtView::Switch { branches, default_branch, .. } => 1 + branches_node_count(branches)
            + node_count(*default_branch.1),
        StmtView::Refcounting(_, cont) => 1 + node_count(*cont),
        StmtView::Join { continuation, remainder, .. } => 1 + node_count(*continuation)
            + node_count(*remainder),
        StmtView::Ret(_)
        | StmtView::Rethrow
        | StmtView::Jump(_, _)
        | StmtView::RuntimeError(_) => 1,
    }
}

/// The number of nodes of all the given branches.
pub open spec fn branches_node_count(branches: Seq<(u64, BranchInfo, StmtView)>) -> nat
    decreases branches,
{
    if branches.len() == 0 {
        0
    } else {
        branches_node_count(branches.drop_last()) + node_count(branches.last().2)
    }
}

/// A branch has at most as many nodes as all the branches together.
pub proof fn lemma_branch_node_count(branches: Seq<(u64, BranchInfo, StmtView)>, i: int)
    requires
        0 <= i < branches.len(),
    ensures
        node_count(branches[i].2) <= branches_node_count(branches),
    decreases branches.len(),
{
    if i < branches.len() - 1 {
        lemma_branch_node_count(branches.drop_last(), i);
    }
}

/// A procedure: its name, its arguments with their layouts, and its body.
#[derive(Clone, Copy)]
pub struct Proc<'a> {
    pub name: Symbol,
    pub args: &'a [(Layout, Symbol)],
    pub body: Stmt<'a>,
    pub ret_layout: Layout,
}

} // verus!
