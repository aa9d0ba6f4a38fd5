use bumpalo::Bump;
use rc_insert::borrow::{Key, ParamMap, BORROWED, OWNED};
use rc_insert::collections::{MutMap, MutSet};
use rc_insert::inc_dec::{collect_stmt, occuring_variables, visit_proc, Context};
use rc_insert::ir::{
    BranchInfo, Branches, Call, CallType, Expr, Layout, ModifyRc, Param, Proc, Stmt, Symbol,
};
use rc_insert::liveness::JPLiveVarMap;

const F: Symbol = 100;
const G: Symbol = 200;

fn pointer() -> Layout {
    Layout { id: 1, refcounted: true, holds_refcounted: true }
}

fn number() -> Layout {
    Layout { id: 2, refcounted: false, holds_refcounted: false }
}

fn holder() -> Layout {
    Layout { id: 3, refcounted: false, holds_refcounted: true }
}

fn param(symbol: Symbol, borrow: bool) -> Param {
    Param { symbol, borrow, layout: pointer() }
}

fn call<'a>(arguments: &'a [Symbol]) -> Call<'a> {
    Call {
        call_type: CallType::ByName {
            name: G,
            full_layout: number(),
            ret_layout: pointer(),
            arg_layouts: &[],
        },
        arguments,
    }
}

fn bind<'a>(
    arena: &'a Bump,
    symbol: Symbol,
    expr: Expr<'a>,
    layout: Layout,
    cont: Stmt<'a>,
) -> Stmt<'a> {
    Stmt::Let(symbol, expr, layout, arena.alloc(cont))
}

/// A program with every kind of statement. The parameters are 1, 2 and 3; the number 4 decides.
///
/// ```text
/// join 7 [10] { let 11 = struct [10 2]; ret 11 }
/// switch 4
///   0: let 5 = 1.0; let 6 = call G [5 3]; jump 7 [6]
///   1: invoke 8 = foreign [2 3] { let 9 = struct [8 1]; ret 9 } else { rethrow }
///   else: fail
/// ```
fn program<'a>(arena: &'a Bump) -> Stmt<'a> {
    let continuation =
        bind(arena, 11, Expr::Struct(&[10, 2]), pointer(), Stmt::Ret(11));
    let part = Expr::AccessAtIndex { index: 0, field_layouts: &[], structure: 1 };
    let first = bind(
        arena,
        5,
        part,
        pointer(),
        bind(arena, 6, Expr::Call(call(&[5, 3])), pointer(), Stmt::Jump(7, &[6])),
    );
    let foreign = Call {
        call_type: CallType::Foreign {
            foreign_symbol: 1,
            ret_layout: holder(),
            borrow_signature: &[true, true],
        },
        arguments: &[2, 3],
    };
    let second = Stmt::Invoke {
        symbol: 8,
        call: foreign,
        layout: holder(),
        pass: arena.alloc(bind(arena, 9, Expr::Struct(&[8, 1]), pointer(), Stmt::Ret(9))),
        fail: arena.alloc(Stmt::Rethrow),
    };
    let branches = arena.alloc([
        (0, BranchInfo::Unknown, first),
        (1, BranchInfo::Unknown, second),
    ]);
    let switch = Stmt::Switch {
        cond_symbol: 4,
        cond_layout: number(),
        branches: Branches::new(branches),
        default_branch: (BranchInfo::Unknown, arena.alloc(Stmt::RuntimeError("no"))),
        ret_layout: pointer(),
    };
    let ps = arena.alloc([param(10, OWNED)]);
    Stmt::Join {
        id: 7,
        parameters: ps,
        continuation: arena.alloc(continuation),
        remainder: arena.alloc(switch),
    }
}

fn parameters(borrow: bool) -> [Param; 4] {
    [
        param(1, borrow),
        param(2, borrow),
        param(3, borrow),
        Param { symbol: 4, borrow: OWNED, layout: number() },
    ]
}

fn with_map<'a>(map: &mut ParamMap<'a>, own: &'a [Param], g: &'a [Param], join: &'a [Param]) {
    map.insert(Key::Declaration(F, number()), own);
    map.insert(Key::Declaration(G, number()), g);
    map.insert(Key::JoinPoint(7), join);
}

/// One line for each node; instructions are left out where `with_instructions` is not set.
fn lines(stmt: &Stmt, with_instructions: bool, out: &mut Vec<String>) {
    match stmt {
        Stmt::Let(symbol, expr, layout, cont) => {
            out.push(format!("let {} {:?} {:?}", symbol, expr, layout));
            lines(cont, with_instructions, out);
        }
        Stmt::Invoke { symbol, call, layout, pass, fail } => {
            out.push(format!("invoke {} {:?} {:?}", symbol, call, layout));
            lines(pass, with_instructions, out);
            lines(fail, with_instructions, out);
        }
        Stmt::Switch { cond_symbol, branches, default_branch, .. } => {
            out.push(format!("switch {}", cond_symbol));
            for branch in branches.as_slice() {
                out.push(format!("branch {} {:?}", branch.0, branch.1));
                lines(&branch.2, with_instructions, out);
            }
            out.push(format!("default {:?}", default_branch.0));
            lines(default_branch.1, with_instructions, out);
        }
        Stmt::Ret(symbol) => out.push(format!("ret {}", symbol)),
        Stmt::Rethrow => out.push(format!("rethrow")),
        Stmt::Refcounting(modify, cont) => {
            if with_instructions {
                out.push(format!("{:?}", modify));
            }
            lines(cont, with_instructions, out);
        }
        Stmt::Join { id, parameters, continuation, remainder } => {
            out.push(format!("join {} {:?}", id, parameters));
            lines(continuation, with_instructions, out);
            lines(remainder, with_instructions, out);
        }
        Stmt::Jump(id, arguments) => out.push(format!("jump {} {:?}", id, arguments)),
        Stmt::RuntimeError(message) => out.push(format!("fail {}", message)),
    }
}

fn lines_of(stmt: &Stmt, with_instructions: bool) -> Vec<String> {
    let mut out: Vec<String> = Vec::new();
    lines(stmt, with_instructions, &mut out);
    out
}

fn modifications(stmt: &Stmt, out: &mut Vec<ModifyRc>) {
    match stmt {
        Stmt::Let(_, _, _, cont) => modifications(cont, out),
        Stmt::Invoke { pass, fail, .. } => {
            modifications(pass, out);
            modifications(fail, out);
        }
        Stmt::Switch { branches, default_branch, .. } => {
            for branch in branches.as_slice() {
                modifications(&branch.2, out);
            }
            modifications(default_branch.1, out);
        }
        Stmt::Refcounting(modify, cont) => {
            out.push(*modify);
            modifications(cont, out);
        }
        Stmt::Join { continuation, remainder, .. } => {
            modifications(continuation, out);
            modifications(remainder, out);
        }
        Stmt::Ret(_) | Stmt::Rethrow | Stmt::Jump(_, _) | Stmt::RuntimeError(_) => {}
    }
}

fn sorted(set: &MutSet<Symbol>) -> Vec<Symbol> {
    let mut r: Vec<Symbol> = Vec::new();
    for x in set.iter() {
        r.push(*x);
    }
    r.sort();
    r
}

type Counts = MutMap<Symbol, i64>;

fn gain(counts: &mut Counts, x: Symbol, n: i64) {
    let old = match counts.get(&x) {
        Some(c) => *c,
        None => return,
    };
    assert!(old + n >= 0);
    counts.insert(x, old + n);
}

fn all_given_up(counts: &Counts) {
    for (_, c) in counts.iter() {
        assert_eq!(*c, 0);
    }
}

/// Follows a statement along every way and counts. `counts` has an entry for every counted
/// variable in scope. Every argument of `G` is owned by the callee but the last, and every
/// argument of a foreign call is borrowed.
fn run<'a>(
    stmt: &Stmt<'a>,
    mut counts: Counts,
    joins: &MutMap<u64, (&'a [Param], &'a Stmt<'a>)>,
) {
    match stmt {
        Stmt::Let(symbol, expr, layout, cont) => {
            let mut n: i64 = 1;
            match expr {
                Expr::Struct(arguments) => {
                    for x in arguments.iter() {
                        gain(&mut counts, *x, -1);
                    }
                }
                Expr::AccessAtIndex { .. } => n = 0,
                Expr::Call(call) => {
                    for x in call.arguments[..call.arguments.len() - 1].iter() {
                        gain(&mut counts, *x, -1);
                    }
                }
                _ => panic!("not in the program"),
            }
            if layout.holds_refcounted {
                counts.insert(*symbol, n);
            }
            run(cont, counts, joins);
        }
        Stmt::Invoke { symbol, pass, fail, .. } => {
            run(fail, counts.clone(), joins);
            counts.insert(*symbol, 1);
            run(pass, counts, joins);
        }
        Stmt::Switch { branches, default_branch, .. } => {
            for branch in branches.as_slice() {
                run(&branch.2, counts.clone(), joins);
            }
            run(default_branch.1, counts, joins);
        }
        Stmt::Ret(symbol) => {
            gain(&mut counts, *symbol, -1);
            all_given_up(&counts);
        }
        Stmt::Rethrow => all_given_up(&counts),
        Stmt::Refcounting(modify, cont) => {
            match modify {
                ModifyRc::Inc(x, n) => gain(&mut counts, *x, *n as i64),
                ModifyRc::Dec(x) => gain(&mut counts, *x, -1),
                ModifyRc::DecRef(x) => gain(&mut counts, *x, -1),
            }
            run(cont, counts, joins);
        }
        Stmt::Join { id, parameters, continuation, remainder } => {
            let mut inner = joins.clone();
            inner.insert(*id, (*parameters, *continuation));
            run(remainder, counts, &inner);
        }
        Stmt::Jump(id, arguments) => {
            let (parameters, continuation) = joins.get(id).unwrap();
            for x in arguments.iter() {
                gain(&mut counts, *x, -1);
            }
            for p in parameters.iter() {
                counts.insert(p.symbol, 1);
            }
            run(continuation, counts, joins);
        }
        Stmt::RuntimeError(_) => {}
    }
}

fn pass_over(borrow: bool, check: fn(&Stmt, &Stmt)) {
    let arena = Bump::new();
    let own = parameters(borrow);
    let g = [param(20, OWNED), param(21, BORROWED)];
    let join = [param(10, OWNED)];
    let mut map = ParamMap::new();
    with_map(&mut map, &own, &g, &join);
    let body = program(&arena);
    let mut proc = Proc { name: F, args: &[], body, ret_layout: pointer() };
    visit_proc(&arena, &map, &mut proc, number());
    check(&body, &proc.body);
}

#[test]
fn pass_inserts_instructions_and_nothing_else() {
    for borrow in [OWNED, BORROWED] {
        pass_over(borrow, |body, out| {
            assert_eq!(lines_of(out, false), lines_of(body, true));
            assert!(lines_of(out, true).len() > lines_of(body, true).len());
        });
    }
}

#[test]
fn pass_changes_counted_values_only() {
    for borrow in [OWNED, BORROWED] {
        pass_over(borrow, |_, out| {
            let mut found: Vec<ModifyRc> = Vec::new();
            modifications(out, &mut found);
            assert!(!found.is_empty());
            for modify in found.iter() {
                assert!(modify.get_symbol() != 4);
                assert!(modify.get_symbol() != G);
                if let ModifyRc::Inc(_, n) = modify {
                    assert!(*n >= 1);
                }
            }
        });
    }
}

#[test]
fn pass_keeps_the_live_variables() {
    let arena = Bump::new();
    let own = parameters(OWNED);
    let g = [param(20, OWNED), param(21, BORROWED)];
    let join = [param(10, OWNED)];
    let mut map = ParamMap::new();
    with_map(&mut map, &own, &g, &join);
    let body = program(&arena);
    let ctx = Context::new(&arena, &map).update_var_info_with_params(&own);
    let (out, live_vars) = ctx.visit_stmt(&body);
    let jps: JPLiveVarMap = MutMap::new();
    assert_eq!(sorted(&live_vars), vec![1, 2, 3, 4]);
    assert_eq!(sorted(&collect_stmt(&body, &jps, MutSet::new())), vec![1, 2, 3, 4]);
    assert_eq!(sorted(&collect_stmt(out, &jps, MutSet::new())), vec![1, 2, 3, 4]);
    let (all, _) = occuring_variables(&body);
    for x in live_vars.iter() {
        assert!(all.contains(x));
    }
}

#[test]
fn runs_of_the_pass_differ_in_instructions_only() {
    let arena = Bump::new();
    let own = parameters(OWNED);
    let g = [param(20, OWNED), param(21, BORROWED)];
    let join = [param(10, OWNED)];
    let mut map = ParamMap::new();
    with_map(&mut map, &own, &g, &join);
    let body = program(&arena);
    let ctx = Context::new(&arena, &map).update_var_info_with_params(&own);
    let (out1, live1) = ctx.visit_stmt(&body);
    let ctx = Context::new(&arena, &map).update_var_info_with_params(&own);
    let (out2, live2) = ctx.visit_stmt(&body);
    assert_eq!(lines_of(out1, false), lines_of(out2, false));
    assert_eq!(sorted(&live1), sorted(&live2));
}

#[test]
fn every_reference_is_given_up_once() {
    pass_over(OWNED, |_, out| {
        let mut counts: Counts = MutMap::new();
        counts.insert(1, 1);
        counts.insert(2, 1);
        counts.insert(3, 1);
        run(out, counts, &MutMap::new());
    });
    pass_over(BORROWED, |_, out| {
        let mut counts: Counts = MutMap::new();
        counts.insert(1, 0);
        counts.insert(2, 0);
        counts.insert(3, 0);
        run(out, counts, &MutMap::new());
    });
}

#[test]
fn result_that_is_never_used_is_not_given_up() {
    let arena = Bump::new();
    let own = [param(1, OWNED)];
    let map = ParamMap::new();
    let body = bind(&arena, 2, Expr::EmptyArray, pointer(), Stmt::Ret(1));
    let ctx = Context::new(&arena, &map).update_var_info_with_params(&own);
    let (out, _) = ctx.visit_stmt(&body);
    assert_eq!(lines_of(out, true), lines_of(&body, true));
}

#[test]
fn body_that_jumps_to_itself_gives_up_what_it_still_needs() {
    let arena = Bump::new();
    let own = [param(1, OWNED), param(2, OWNED)];
    let join = [param(10, OWNED)];
    let mut map = ParamMap::new();
    map.insert(Key::JoinPoint(7), &join);
    let branches = [(0, BranchInfo::Unknown, Stmt::Jump(7, &[10]))];
    let last = bind(&arena, 11, Expr::Struct(&[10, 2]), pointer(), Stmt::Ret(11));
    let continuation = Stmt::Switch {
        cond_symbol: 10,
        cond_layout: pointer(),
        branches: Branches::new(&branches),
        default_branch: (BranchInfo::Unknown, &last),
        ret_layout: pointer(),
    };
    let remainder = Stmt::Jump(7, &[1]);
    let body = Stmt::Join {
        id: 7,
        parameters: &join,
        continuation: &continuation,
        remainder: &remainder,
    };
    let ctx = Context::new(&arena, &map).update_var_info_with_params(&own);
    let (out, _) = ctx.visit_stmt(&body);
    let mut found: Vec<ModifyRc> = Vec::new();
    modifications(out, &mut found);
    assert_eq!(found, vec![ModifyRc::Dec(2)]);
}

#[test]
fn numbers_that_a_procedure_binds_are_never_counted() {
    let arena = Bump::new();
    let map = ParamMap::new();
    let inner = bind(&arena, 2, Expr::Struct(&[1, 1]), pointer(), Stmt::Ret(2));
    let body = bind(&arena, 1, Expr::EmptyArray, number(), inner);
    let ctx = Context::new(&arena, &map);
    let (out, live_vars) = ctx.visit_stmt(&body);
    assert_eq!(lines_of(out, true), lines_of(&body, true));
    assert!(live_vars.is_empty());
    let body = bind(&arena, 1, Expr::EmptyArray, holder(), inner);
    let (out, _) = ctx.visit_stmt(&body);
    let mut found: Vec<ModifyRc> = Vec::new();
    modifications(out, &mut found);
    assert_eq!(found, vec![ModifyRc::Inc(1, 1)]);
}
