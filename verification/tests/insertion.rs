use bumpalo::Bump;
use rc_insert::borrow::{Key, ParamMap, BORROWED, OWNED};
use rc_insert::collections::MutSet;
use rc_insert::inc_dec::{visit_declaration, visit_proc, Context};
use rc_insert::ir::{
    Branch, BranchInfo, Branches, Call, CallType, Expr, Layout, Literal, LowLevel, LowLevelOp,
    ModifyRc, Param, Proc, Stmt, Symbol,
};

const X: Symbol = 1;
const Y: Symbol = 2;
const Z: Symbol = 3;
const W: Symbol = 4;
const F: Symbol = 100;
const G: Symbol = 200;

/// A counted pointer.
fn pointer() -> Layout {
    Layout { id: 1, refcounted: true, holds_refcounted: true }
}

/// A value that holds a counted pointer.
fn holder() -> Layout {
    Layout { id: 2, refcounted: false, holds_refcounted: true }
}

/// A number.
fn number() -> Layout {
    Layout { id: 3, refcounted: false, holds_refcounted: false }
}

/// The layout of a function.
fn function() -> Layout {
    Layout { id: 4, refcounted: false, holds_refcounted: false }
}

fn owned(symbol: Symbol) -> Param {
    Param { symbol, borrow: OWNED, layout: pointer() }
}

fn borrowed(symbol: Symbol) -> Param {
    Param { symbol, borrow: BORROWED, layout: pointer() }
}

fn symbols(xs: &[Symbol]) -> String {
    let mut r = String::new();
    for x in xs {
        if !r.is_empty() {
            r.push(' ');
        }
        r.push_str(&format!("{}", x));
    }
    r
}

fn show_call(call: &Call) -> String {
    let name = match call.call_type {
        CallType::ByName { name, .. } => format!("call {}", name),
        CallType::Foreign { foreign_symbol, .. } => format!("foreign {}", foreign_symbol),
        CallType::LowLevel { op } => format!("{:?}", op.op),
        CallType::HigherOrderLowLevel { op, function_owns_closure_data, .. } => {
            format!("{:?} owns {}", op.op, function_owns_closure_data)
        }
    };
    format!("{} [{}]", name, symbols(call.arguments))
}

fn show_expr(expr: &Expr) -> String {
    match expr {
        Expr::Literal(Literal::Int(n)) => format!("{}", n),
        Expr::Literal(_) => format!("literal"),
        Expr::Call(call) => show_call(call),
        Expr::Tag { tag_id, arguments, .. } => format!("tag {} [{}]", tag_id, symbols(arguments)),
        Expr::Struct(arguments) => format!("struct [{}]", symbols(arguments)),
        Expr::AccessAtIndex { index, structure, .. } => format!("{}.{}", structure, index),
        Expr::Array { elems, .. } => format!("array [{}]", symbols(elems)),
        Expr::EmptyArray => format!("array []"),
        Expr::Reuse { symbol, arguments, .. } => {
            format!("reuse {} [{}]", symbol, symbols(arguments))
        }
        Expr::Reset(symbol) => format!("reset {}", symbol),
        Expr::RuntimeErrorFunction(message) => format!("error {}", message),
    }
}

fn show_modify(modify: &ModifyRc) -> String {
    match modify {
        ModifyRc::Inc(x, n) => format!("inc {} {}", x, n),
        ModifyRc::Dec(x) => format!("dec {}", x),
        ModifyRc::DecRef(x) => format!("decref {}", x),
    }
}

fn show(stmt: &Stmt) -> String {
    match stmt {
        Stmt::Let(symbol, expr, _, cont) => {
            format!("let {} = {}; {}", symbol, show_expr(expr), show(cont))
        }
        Stmt::Invoke { symbol, call, pass, fail, .. } => format!(
            "invoke {} = {} {{ {} }} else {{ {} }}",
            symbol,
            show_call(call),
            show(pass),
            show(fail)
        ),
        Stmt::Switch { cond_symbol, branches, default_branch, .. } => {
            let mut r = format!("switch {}", cond_symbol);
            for branch in branches.as_slice() {
                r.push_str(&format!(" {}: {{ {} }}", branch.0, show(&branch.2)));
            }
            r.push_str(&format!(" else {{ {} }}", show(default_branch.1)));
            r
        }
        Stmt::Ret(symbol) => format!("ret {}", symbol),
        Stmt::Rethrow => format!("rethrow"),
        Stmt::Refcounting(modify, cont) => format!("{}; {}", show_modify(modify), show(cont)),
        Stmt::Join { id, parameters, continuation, remainder } => {
            let mut names: Vec<Symbol> = Vec::new();
            for p in parameters.iter() {
                names.push(p.symbol);
            }
            format!(
                "join {} [{}] {{ {} }} {}",
                id,
                symbols(&names),
                show(continuation),
                show(remainder)
            )
        }
        Stmt::Jump(id, arguments) => format!("jump {} [{}]", id, symbols(arguments)),
        Stmt::RuntimeError(message) => format!("fail {}", message),
    }
}

fn struct_of<'a>(xs: &'a [Symbol]) -> Expr<'a> {
    Expr::Struct(xs)
}

fn access<'a>(structure: Symbol) -> Expr<'a> {
    Expr::AccessAtIndex { index: 0, field_layouts: &[], structure }
}

fn call_of<'a>(name: Symbol, arguments: &'a [Symbol]) -> Call<'a> {
    Call {
        call_type: CallType::ByName {
            name,
            full_layout: function(),
            ret_layout: pointer(),
            arg_layouts: &[],
        },
        arguments,
    }
}

fn lowlevel<'a>(flags: &'a [bool], arguments: &'a [Symbol]) -> Call<'a> {
    Call {
        call_type: CallType::LowLevel {
            op: LowLevel { op: LowLevelOp::Other(7), borrow_signature: flags },
        },
        arguments,
    }
}

fn foreign<'a>(flags: &'a [bool], arguments: &'a [Symbol]) -> Call<'a> {
    Call {
        call_type: CallType::Foreign {
            foreign_symbol: 8,
            ret_layout: pointer(),
            borrow_signature: flags,
        },
        arguments,
    }
}

fn higher_order<'a>(op: LowLevelOp, arguments: &'a [Symbol]) -> Call<'a> {
    Call {
        call_type: CallType::HigherOrderLowLevel {
            op: LowLevel { op, borrow_signature: &[true, false] },
            closure_layout: function(),
            function_owns_closure_data: false,
        },
        arguments,
    }
}

/// A chain of `let` statements of the pointer layout in front of `last`.
fn lets<'a>(arena: &'a Bump, bindings: &[(Symbol, Expr<'a>)], last: Stmt<'a>) -> Stmt<'a> {
    let mut stmt = last;
    for (symbol, expr) in bindings.iter().rev() {
        stmt = Stmt::Let(*symbol, *expr, pointer(), arena.alloc(stmt));
    }
    stmt
}

/// The body of a procedure `F` with the given parameters, behind the pass. The parameter map
/// has `extra` besides.
fn body_of(params: &[Param], extra: &[(Key, &[Param])], body: Stmt) -> String {
    let arena = Bump::new();
    let mut map = ParamMap::new();
    map.insert(Key::Declaration(F, function()), params);
    for (key, ps) in extra {
        map.insert(*key, ps);
    }
    let mut proc = Proc { name: F, args: &[], body, ret_layout: pointer() };
    visit_proc(&arena, &map, &mut proc, function());
    assert_eq!(proc.name, F);
    assert_eq!(proc.ret_layout, pointer());
    show(&proc.body)
}

#[test]
fn last_use_hands_over_the_reference() {
    let arena = Bump::new();
    let body = lets(&arena, &[(Z, struct_of(&[X, Y]))], Stmt::Ret(Z));
    assert_eq!(body_of(&[owned(X), owned(Y)], &[], body), "let 3 = struct [1 2]; ret 3");
}

#[test]
fn repeated_use_in_one_expression() {
    let arena = Bump::new();
    let body = lets(&arena, &[(Z, struct_of(&[X, X, X]))], Stmt::Ret(Z));
    assert_eq!(body_of(&[owned(X)], &[], body), "inc 1 2; let 3 = struct [1 1 1]; ret 3");
}

#[test]
fn use_before_the_last_one() {
    let arena = Bump::new();
    let body = lets(&arena, &[(Z, struct_of(&[X])), (W, struct_of(&[Z, X]))], Stmt::Ret(W));
    assert_eq!(
        body_of(&[owned(X)], &[], body),
        "inc 1 1; let 3 = struct [1]; let 4 = struct [3 1]; ret 4"
    );
}

#[test]
fn borrowed_parameter_is_not_handed_over() {
    let arena = Bump::new();
    let body = lets(&arena, &[(Z, struct_of(&[X, X]))], Stmt::Ret(Z));
    assert_eq!(body_of(&[borrowed(X)], &[], body), "inc 1 2; let 3 = struct [1 1]; ret 3");
}

#[test]
fn increments_come_in_reverse_order() {
    let arena = Bump::new();
    let body = lets(&arena, &[(Z, struct_of(&[X, Y]))], Stmt::Ret(Z));
    assert_eq!(
        body_of(&[borrowed(X), borrowed(Y)], &[], body),
        "inc 2 1; inc 1 1; let 3 = struct [1 2]; ret 3"
    );
}

#[test]
fn numbers_are_never_counted() {
    let arena = Bump::new();
    let params = [Param { symbol: X, borrow: BORROWED, layout: number() }];
    let body = lets(&arena, &[(Z, struct_of(&[X, X]))], Stmt::Ret(Z));
    assert_eq!(body_of(&params, &[], body), "let 3 = struct [1 1]; ret 3");
    let params = [Param { symbol: X, borrow: OWNED, layout: number() }, owned(Y)];
    assert_eq!(body_of(&params, &[], Stmt::Ret(Y)), "ret 2");
}

#[test]
fn return_of_a_parameter() {
    assert_eq!(body_of(&[owned(X)], &[], Stmt::Ret(X)), "ret 1");
    assert_eq!(body_of(&[borrowed(X)], &[], Stmt::Ret(X)), "inc 1 1; ret 1");
}

#[test]
fn dead_parameters_are_given_up() {
    assert_eq!(body_of(&[owned(X), owned(Y)], &[], Stmt::Ret(Y)), "dec 1; ret 2");
    assert_eq!(
        body_of(&[owned(X), owned(Y), owned(W)], &[], Stmt::Ret(W)),
        "dec 2; dec 1; ret 4"
    );
    assert_eq!(body_of(&[borrowed(X), owned(Y)], &[], Stmt::Ret(Y)), "ret 2");
}

#[test]
fn part_of_an_owned_structure() {
    let arena = Bump::new();
    let body = lets(&arena, &[(Z, access(X))], Stmt::Ret(Z));
    assert_eq!(body_of(&[owned(X)], &[], body), "let 3 = 1.0; inc 3 1; dec 1; ret 3");
    let body = lets(&arena, &[(Z, access(X)), (W, struct_of(&[X, Z]))], Stmt::Ret(W));
    assert_eq!(
        body_of(&[owned(X)], &[], body),
        "let 3 = 1.0; inc 3 1; let 4 = struct [1 3]; ret 4"
    );
}

#[test]
fn part_of_a_borrowed_structure() {
    let arena = Bump::new();
    let body = lets(&arena, &[(Z, access(X)), (W, access(Z))], Stmt::Ret(W));
    assert_eq!(
        body_of(&[borrowed(X)], &[], body),
        "let 3 = 1.0; let 4 = 3.0; inc 4 1; ret 4"
    );
}

#[test]
fn tags_arrays_and_reuse_consume_their_arguments() {
    let arena = Bump::new();
    let tag = Expr::Tag { tag_layout: pointer(), tag_id: 5, arguments: &[X, X] };
    let body = lets(&arena, &[(Z, tag)], Stmt::Ret(Z));
    assert_eq!(body_of(&[owned(X)], &[], body), "inc 1 1; let 3 = tag 5 [1 1]; ret 3");
    let array = Expr::Array { elem_layout: pointer(), elems: &[X, X] };
    let body = lets(&arena, &[(Z, array)], Stmt::Ret(Z));
    assert_eq!(body_of(&[owned(X)], &[], body), "inc 1 1; let 3 = array [1 1]; ret 3");
    let reuse = Expr::Reuse { symbol: W, tag_layout: pointer(), tag_id: 5, arguments: &[X, X] };
    let body = lets(&arena, &[(W, Expr::Reset(Y)), (Z, reuse)], Stmt::Ret(Z));
    assert_eq!(
        body_of(&[owned(X), owned(Y)], &[], body),
        "let 4 = reset 2; inc 1 1; let 3 = reuse 4 [1 1]; ret 3"
    );
}

#[test]
fn constants_need_no_instructions() {
    let arena = Bump::new();
    let body = lets(
        &arena,
        &[
            (Z, Expr::EmptyArray),
            (W, Expr::Literal(Literal::Int(42))),
            (5, Expr::RuntimeErrorFunction("oops")),
            (6, struct_of(&[Z, W, 5])),
        ],
        Stmt::Ret(6),
    );
    assert_eq!(
        body_of(&[], &[], body),
        "let 3 = array []; let 4 = 42; let 5 = error oops; let 6 = struct [3 4 5]; ret 6"
    );
}

#[test]
fn call_of_a_function() {
    let arena = Bump::new();
    let ps = [owned(10), borrowed(11)];
    let extra: [(Key, &[Param]); 1] = [(Key::Declaration(G, function()), &ps)];
    let body = lets(&arena, &[(Z, Expr::Call(call_of(G, &[X, Y])))], Stmt::Ret(Z));
    assert_eq!(
        body_of(&[owned(X), owned(Y)], &extra, body),
        "let 3 = call 200 [1 2]; dec 2; ret 3"
    );
    assert_eq!(
        body_of(&[borrowed(X), borrowed(Y)], &extra, body),
        "inc 1 1; let 3 = call 200 [1 2]; ret 3"
    );
    let body = lets(&arena, &[(Z, Expr::Call(call_of(G, &[X, X])))], Stmt::Ret(Z));
    assert_eq!(
        body_of(&[owned(X)], &extra, body),
        "inc 1 1; let 3 = call 200 [1 1]; dec 1; ret 3"
    );
}

#[test]
fn call_with_the_function_itself_as_argument() {
    let arena = Bump::new();
    let ps = [owned(10)];
    let extra: [(Key, &[Param]); 1] = [(Key::Declaration(G, function()), &ps)];
    let body = lets(&arena, &[(Z, Expr::Call(call_of(G, &[G])))], Stmt::Ret(Z));
    assert_eq!(body_of(&[], &extra, body), "let 3 = call 200 [200]; ret 3");
}

#[test]
fn built_in_and_foreign_calls_follow_their_signature() {
    let arena = Bump::new();
    let body = lets(&arena, &[(Z, Expr::Call(lowlevel(&[true, false], &[X, Y])))], Stmt::Ret(Z));
    assert_eq!(
        body_of(&[owned(X), owned(Y)], &[], body),
        "let 3 = Other(7) [1 2]; dec 1; ret 3"
    );
    let body = lets(&arena, &[(Z, Expr::Call(foreign(&[true, true], &[X, Y])))], Stmt::Ret(Z));
    assert_eq!(
        body_of(&[owned(X), owned(Y)], &[], body),
        "let 3 = foreign 8 [1 2]; dec 2; dec 1; ret 3"
    );
    assert_eq!(
        body_of(&[borrowed(X), owned(Y)], &[], body),
        "let 3 = foreign 8 [1 2]; dec 2; ret 3"
    );
}

#[test]
fn only_the_first_flag_of_a_repeated_argument_counts() {
    let arena = Bump::new();
    let body = lets(&arena, &[(Z, Expr::Call(lowlevel(&[false, true], &[X, X])))], Stmt::Ret(Z));
    assert_eq!(body_of(&[owned(X)], &[], body), "let 3 = Other(7) [1 1]; ret 3");
    let body = lets(&arena, &[(Z, Expr::Call(lowlevel(&[true, true], &[X, X])))], Stmt::Ret(Z));
    assert_eq!(body_of(&[owned(X)], &[], body), "let 3 = Other(7) [1 1]; dec 1; ret 3");
}

#[test]
fn arguments_without_a_flag_are_left_alone() {
    let arena = Bump::new();
    let body = lets(&arena, &[(Z, Expr::Call(lowlevel(&[true], &[X, Y])))], Stmt::Ret(Z));
    assert_eq!(
        body_of(&[owned(X), owned(Y)], &[], body),
        "let 3 = Other(7) [1 2]; dec 1; ret 3"
    );
}

/// The pass over `let 9 = op(arguments); ret 9`, where the arguments but for the function `G`
/// are owned parameters and `G` has the given parameters.
fn higher_order_body(op: LowLevelOp, arguments: &[Symbol], ps: &[Param]) -> String {
    let arena = Bump::new();
    let mut params: Vec<Param> = Vec::new();
    for x in arguments {
        if *x != G {
            params.push(owned(*x));
        }
    }
    let extra: [(Key, &[Param]); 1] = [(Key::Declaration(G, function()), ps)];
    let body = lets(&arena, &[(9, Expr::Call(higher_order(op, arguments)))], Stmt::Ret(9));
    body_of(&params, &extra, body)
}

#[test]
fn operations_over_the_elements_of_a_list() {
    let ops = [
        (LowLevelOp::ListMap, "ListMap"),
        (LowLevelOp::ListKeepIf, "ListKeepIf"),
        (LowLevelOp::ListKeepOks, "ListKeepOks"),
        (LowLevelOp::ListKeepErrs, "ListKeepErrs"),
    ];
    for (op, name) in ops {
        assert_eq!(
            higher_order_body(op, &[X, G, Y], &[borrowed(10), borrowed(11)]),
            format!("let 9 = {} owns false [1 200 2]; dec 2; dec 1; ret 9", name)
        );
        assert_eq!(
            higher_order_body(op, &[X, G, Y], &[owned(10), owned(11)]),
            format!("let 9 = {} owns true [1 200 2]; decref 1; dec 2; ret 9", name)
        );
        assert_eq!(
            higher_order_body(op, &[X, G, Y], &[owned(10)]),
            format!("let 9 = {} owns false [1 200 2]; decref 1; dec 2; ret 9", name)
        );
    }
}

#[test]
fn map_with_index_asks_for_the_second_parameter() {
    let op = LowLevelOp::ListMapWithIndex;
    assert_eq!(
        higher_order_body(op, &[X, G, Y], &[owned(10), borrowed(11), owned(12)]),
        "let 9 = ListMapWithIndex owns true [1 200 2]; dec 2; dec 1; ret 9"
    );
    assert_eq!(
        higher_order_body(op, &[X, G, Y], &[borrowed(10), owned(11)]),
        "let 9 = ListMapWithIndex owns false [1 200 2]; decref 1; dec 2; ret 9"
    );
}

#[test]
fn maps_over_several_lists() {
    assert_eq!(
        higher_order_body(
            LowLevelOp::ListMap2,
            &[X, Y, G, W],
            &[owned(10), owned(11), owned(12)]
        ),
        "let 9 = ListMap2 owns true [1 2 200 4]; decref 2; decref 1; dec 4; ret 9"
    );
    assert_eq!(
        higher_order_body(
            LowLevelOp::ListMap2,
            &[X, Y, G, W],
            &[owned(10), borrowed(11), borrowed(12)]
        ),
        "let 9 = ListMap2 owns false [1 2 200 4]; decref 1; dec 4; dec 2; ret 9"
    );
    assert_eq!(
        higher_order_body(
            LowLevelOp::ListMap3,
            &[X, Y, Z, G, W],
            &[owned(10), borrowed(11), owned(12), owned(13)]
        ),
        "let 9 = ListMap3 owns true [1 2 3 200 4]; decref 3; decref 1; dec 4; dec 2; ret 9"
    );
}

#[test]
fn sort_owns_its_list() {
    let op = LowLevelOp::ListSortWith;
    assert_eq!(
        higher_order_body(op, &[X, G, Y], &[borrowed(10), borrowed(11), owned(12)]),
        "let 9 = ListSortWith owns true [1 200 2]; dec 2; ret 9"
    );
    assert_eq!(
        higher_order_body(op, &[X, G, Y], &[]),
        "let 9 = ListSortWith owns false [1 200 2]; dec 2; ret 9"
    );
}

#[test]
fn walks_free_the_structure_only() {
    let ops = [
        (LowLevelOp::ListWalk, "ListWalk"),
        (LowLevelOp::ListWalkUntil, "ListWalkUntil"),
        (LowLevelOp::ListWalkBackwards, "ListWalkBackwards"),
        (LowLevelOp::DictWalk, "DictWalk"),
    ];
    for (op, name) in ops {
        assert_eq!(
            higher_order_body(op, &[X, Y, G, W], &[owned(10), owned(11), owned(12)]),
            format!("let 9 = {} owns true [1 2 200 4]; decref 1; dec 4; ret 9", name)
        );
        assert_eq!(
            higher_order_body(op, &[X, Y, G, W], &[borrowed(10), borrowed(11)]),
            format!("let 9 = {} owns false [1 2 200 4]; dec 4; dec 2; dec 1; ret 9", name)
        );
    }
}

#[test]
fn containers_are_freed_even_if_they_are_not_counted() {
    let arena = Bump::new();
    let ps = [owned(10)];
    let extra: [(Key, &[Param]); 1] = [(Key::Declaration(G, function()), &ps)];
    let params = [Param { symbol: X, borrow: OWNED, layout: number() }];
    let call = higher_order(LowLevelOp::ListMap, &[X, G]);
    let body = lets(&arena, &[(9, Expr::Call(call))], Stmt::Ret(9));
    assert_eq!(
        body_of(&params, &extra, body),
        "let 9 = ListMap owns false [1 200]; decref 1; ret 9"
    );
}

#[test]
fn other_operations_with_a_function_follow_their_signature() {
    assert_eq!(
        higher_order_body(LowLevelOp::Other(3), &[X, Y], &[]),
        "let 9 = Other(3) owns false [1 2]; dec 1; ret 9"
    );
}

fn branch<'a>(label: u64, stmt: Stmt<'a>) -> Branch<'a> {
    (label, BranchInfo::Unknown, stmt)
}

#[test]
fn alternatives_give_up_what_is_dead_in_them() {
    let branches = [branch(0, Stmt::Ret(X)), branch(1, Stmt::Ret(Y))];
    let last = Stmt::RuntimeError("no");
    let body = Stmt::Switch {
        cond_symbol: X,
        cond_layout: pointer(),
        branches: Branches::new(&branches),
        default_branch: (BranchInfo::Unknown, &last),
        ret_layout: pointer(),
    };
    let out = body_of(&[owned(X), owned(Y)], &[], body);
    let one = "switch 1 0: { dec 2; ret 1 } 1: { dec 1; ret 2 } else { dec 1; dec 2; fail no }";
    let other = "switch 1 0: { dec 2; ret 1 } 1: { dec 1; ret 2 } else { dec 2; dec 1; fail no }";
    assert!(out == one || out == other);
    assert_eq!(
        body_of(&[borrowed(X), borrowed(Y)], &[], body),
        "switch 1 0: { inc 1 1; ret 1 } 1: { inc 2 1; ret 2 } else { fail no }"
    );
}

#[test]
fn branch_labels_and_information_are_kept() {
    let arena = Bump::new();
    let info = BranchInfo::Constructor { scrutinee: X, layout: pointer(), tag_id: 6 };
    let branches = [(17, info, Stmt::Ret(X))];
    let last = Stmt::Ret(X);
    let stmt = Stmt::Switch {
        cond_symbol: X,
        cond_layout: holder(),
        branches: Branches::new(&branches),
        default_branch: (info, &last),
        ret_layout: number(),
    };
    let map = ParamMap::new();
    let ctx = Context::new(&arena, &map).update_var_info_with_params(&[owned(X)]);
    let (out, live_vars) = ctx.visit_stmt(&stmt);
    assert_eq!(live_vars.len(), 1);
    assert!(live_vars.contains(&X));
    match out {
        Stmt::Switch { cond_symbol, cond_layout, branches, default_branch, ret_layout } => {
            assert_eq!(*cond_symbol, X);
            assert_eq!(*cond_layout, holder());
            assert_eq!(*ret_layout, number());
            assert_eq!(branches.as_slice().len(), 1);
            assert_eq!(branches.as_slice()[0].0, 17);
            assert_eq!(branches.as_slice()[0].1, info);
            assert_eq!(default_branch.0, info);
        }
        _ => panic!("not a switch"),
    }
}

#[test]
fn decrements_in_a_given_order() {
    let arena = Bump::new();
    let map = ParamMap::new();
    let ctx = Context::new(&arena, &map).update_var_info_with_params(&[
        owned(X),
        borrowed(Y),
        owned(Z),
        owned(W),
    ]);
    let mut alt_live = MutSet::new();
    alt_live.insert(W);
    let last = Stmt::Ret(W);
    let out = ctx.add_dec_for_alt_in_order(&[X, Y, Z, W], &alt_live, &last);
    assert_eq!(show(out), "dec 3; dec 1; ret 4");
    let mut case_live = MutSet::new();
    case_live.insert(W);
    case_live.insert(Y);
    case_live.insert(Z);
    assert_eq!(show(ctx.add_dec_for_alt(&case_live, &alt_live, &last)), "dec 3; ret 4");
}

#[test]
fn join_point_with_a_live_variable_in_its_body() {
    let arena = Bump::new();
    let ps = [owned(10)];
    let extra: [(Key, &[Param]); 1] = [(Key::JoinPoint(7), &ps)];
    let continuation = lets(&arena, &[(11, struct_of(&[10, Y]))], Stmt::Ret(11));
    let remainder = Stmt::Jump(7, &[X]);
    let body = Stmt::Join {
        id: 7,
        parameters: &ps,
        continuation: &continuation,
        remainder: &remainder,
    };
    assert_eq!(
        body_of(&[owned(X), owned(Y)], &extra, body),
        "join 7 [10] { let 11 = struct [10 2]; ret 11 } jump 7 [1]"
    );
    assert_eq!(
        body_of(&[borrowed(X), borrowed(Y)], &extra, body),
        "join 7 [10] { inc 2 1; let 11 = struct [10 2]; ret 11 } inc 1 1; jump 7 [1]"
    );
}

#[test]
fn jump_that_passes_a_variable_which_the_body_needs() {
    let arena = Bump::new();
    let ps = [owned(10)];
    let extra: [(Key, &[Param]); 1] = [(Key::JoinPoint(7), &ps)];
    let continuation = lets(&arena, &[(11, struct_of(&[10, X]))], Stmt::Ret(11));
    let remainder = Stmt::Jump(7, &[X]);
    let body = Stmt::Join {
        id: 7,
        parameters: &ps,
        continuation: &continuation,
        remainder: &remainder,
    };
    assert_eq!(
        body_of(&[owned(X)], &extra, body),
        "join 7 [10] { let 11 = struct [10 1]; ret 11 } inc 1 1; jump 7 [1]"
    );
}

#[test]
fn join_point_takes_its_parameters_from_the_map() {
    let ps = [borrowed(10)];
    let extra: [(Key, &[Param]); 1] = [(Key::JoinPoint(7), &ps)];
    let continuation = Stmt::Ret(10);
    let remainder = Stmt::Jump(7, &[X]);
    let written = [owned(10)];
    let body = Stmt::Join {
        id: 7,
        parameters: &written,
        continuation: &continuation,
        remainder: &remainder,
    };
    assert_eq!(
        body_of(&[borrowed(X)], &extra, body),
        "join 7 [10] { inc 10 1; ret 10 } jump 7 [1]"
    );
}

#[test]
fn dead_parameters_of_join_points_are_given_up() {
    let arena = Bump::new();
    let ps = [owned(10), borrowed(11), owned(12)];
    let mut map = ParamMap::new();
    map.insert(Key::JoinPoint(7), &ps);
    let ctx = Context::new(&arena, &map).update_var_info_with_params(&[owned(X), owned(Y)]);
    let continuation = Stmt::Ret(Y);
    let remainder = Stmt::Jump(7, &[X, X, X]);
    let stmt = Stmt::Join {
        id: 7,
        parameters: &ps,
        continuation: &continuation,
        remainder: &remainder,
    };
    let (out, live_vars) = ctx.visit_stmt(&stmt);
    assert_eq!(
        show(out),
        "join 7 [10 11 12] { dec 12; dec 10; ret 2 } inc 1 2; jump 7 [1 1 1]"
    );
    assert_eq!(live_vars.len(), 2);
    assert!(live_vars.contains(&X));
    assert!(live_vars.contains(&Y));
    let ps = [owned(10)];
    let mut map = ParamMap::new();
    map.insert(Key::JoinPoint(7), &ps);
    let ctx = Context::new(&arena, &map).update_var_info_with_params(&[owned(X), owned(Y)]);
    let remainder = Stmt::Jump(7, &[X]);
    let stmt = Stmt::Join {
        id: 7,
        parameters: &ps,
        continuation: &continuation,
        remainder: &remainder,
    };
    let (out, _) = ctx.visit_stmt(&stmt);
    assert_eq!(show(out), "join 7 [10] { dec 10; ret 2 } jump 7 [1]");
}

#[test]
fn arguments_without_a_parameter_are_owned() {
    let arena = Bump::new();
    let ps = [borrowed(10)];
    let extra: [(Key, &[Param]); 2] =
        [(Key::Declaration(G, function()), &ps), (Key::JoinPoint(7), &[])];
    let body = lets(&arena, &[(Z, Expr::Call(call_of(G, &[X, Y, Y])))], Stmt::Ret(Z));
    assert_eq!(
        body_of(&[owned(X), owned(Y)], &extra, body),
        "inc 2 1; let 3 = call 200 [1 2 2]; dec 1; ret 3"
    );
    let continuation = Stmt::RuntimeError("no");
    let remainder = Stmt::Jump(7, &[X, X]);
    let body = Stmt::Join {
        id: 7,
        parameters: &[],
        continuation: &continuation,
        remainder: &remainder,
    };
    assert_eq!(body_of(&[owned(X)], &extra, body), "join 7 [] { fail no } inc 1 1; jump 7 [1 1]");
}

#[test]
fn invoke_may_bind_a_counted_pointer() {
    let arena = Bump::new();
    let map = ParamMap::new();
    let ctx = Context::new(&arena, &map);
    let pass = Stmt::Ret(Z);
    let fail = Stmt::Rethrow;
    let stmt = Stmt::Invoke {
        symbol: Z,
        call: foreign(&[], &[]),
        layout: pointer(),
        pass: &pass,
        fail: &fail,
    };
    let (out, live_vars) = ctx.visit_stmt(&stmt);
    assert_eq!(show(out), "invoke 3 = foreign 8 [] { ret 3 } else { rethrow }");
    assert!(live_vars.is_empty());
    let stmt = Stmt::Invoke {
        symbol: Z,
        call: foreign(&[true], &[X]),
        layout: pointer(),
        pass: &pass,
        fail: &fail,
    };
    assert_eq!(
        body_of(&[owned(X)], &[], stmt),
        "invoke 3 = foreign 8 [1] { dec 1; ret 3 } else { dec 1; rethrow }"
    );
}

#[test]
fn jump_to_a_join_point_that_is_not_in_scope() {
    let arena = Bump::new();
    let ps = [owned(10), owned(11)];
    let mut map = ParamMap::new();
    map.insert(Key::JoinPoint(7), &ps);
    let ctx = Context::new(&arena, &map).update_var_info_with_params(&[owned(X)]);
    let stmt = Stmt::Jump(7, &[X, X]);
    let (out, live_vars) = ctx.visit_stmt(&stmt);
    assert_eq!(show(out), "inc 1 1; jump 7 [1 1]");
    assert_eq!(live_vars.len(), 1);
}

#[test]
fn invoke_keeps_its_arguments_until_the_call_is_over() {
    let ps = [borrowed(10), borrowed(11)];
    let extra: [(Key, &[Param]); 1] = [(Key::Declaration(G, function()), &ps)];
    let pass = Stmt::Ret(Z);
    let fail = Stmt::Rethrow;
    let body = Stmt::Invoke {
        symbol: Z,
        call: call_of(G, &[X, X]),
        layout: holder(),
        pass: &pass,
        fail: &fail,
    };
    assert_eq!(
        body_of(&[owned(X)], &extra, body),
        "invoke 3 = call 200 [1 1] { dec 1; ret 3 } else { dec 1; rethrow }"
    );
    let body = Stmt::Invoke {
        symbol: Z,
        call: foreign(&[true], &[X]),
        layout: holder(),
        pass: &pass,
        fail: &fail,
    };
    assert_eq!(
        body_of(&[owned(X)], &[], body),
        "invoke 3 = foreign 8 [1] { dec 1; ret 3 } else { dec 1; rethrow }"
    );
    let body = Stmt::Invoke {
        symbol: Z,
        call: lowlevel(&[true], &[X]),
        layout: holder(),
        pass: &pass,
        fail: &fail,
    };
    assert_eq!(
        body_of(&[borrowed(X)], &[], body),
        "invoke 3 = Other(7) [1] { ret 3 } else { rethrow }"
    );
}

#[test]
fn result_of_an_invoke_without_arguments_is_a_constant() {
    let arena = Bump::new();
    let extra: [(Key, &[Param]); 1] = [(Key::Declaration(G, function()), &[])];
    let pass = lets(&arena, &[(W, struct_of(&[Z, Z]))], Stmt::Ret(W));
    let fail = Stmt::Rethrow;
    let body = Stmt::Invoke {
        symbol: Z,
        call: call_of(G, &[]),
        layout: holder(),
        pass: &pass,
        fail: &fail,
    };
    assert_eq!(
        body_of(&[], &extra, body),
        "invoke 3 = call 200 [] { let 4 = struct [3 3]; ret 4 } else { rethrow }"
    );
}

#[test]
fn instructions_that_are_there_already_end_the_walk() {
    let last = Stmt::Ret(Y);
    let body = Stmt::Refcounting(ModifyRc::Inc(X, 3), &last);
    assert_eq!(
        body_of(&[owned(X), borrowed(Y)], &[], body),
        "dec 1; inc 1 3; ret 2"
    );
}

#[test]
fn procedure_without_an_entry_owns_its_arguments() {
    let arena = Bump::new();
    let mut map = ParamMap::new();
    let ps = [borrowed(X), borrowed(Y)];
    map.insert(Key::Declaration(F, holder()), &ps);
    let args = [(pointer(), X), (pointer(), Y)];
    let mut proc = Proc { name: F, args: &args, body: Stmt::Ret(Y), ret_layout: pointer() };
    visit_proc(&arena, &map, &mut proc, function());
    assert_eq!(show(&proc.body), "dec 1; ret 2");
    assert_eq!(proc.args.len(), 2);
    let mut proc = Proc { name: F, args: &args, body: Stmt::Ret(Y), ret_layout: pointer() };
    visit_proc(&arena, &map, &mut proc, holder());
    assert_eq!(show(&proc.body), "inc 2 1; ret 2");
}

#[test]
fn declaration_without_parameters() {
    let arena = Bump::new();
    let mut map = ParamMap::new();
    let ps = [borrowed(10)];
    map.insert(Key::Declaration(G, function()), &ps);
    let stmt = lets(
        &arena,
        &[(X, Expr::EmptyArray), (Y, Expr::Call(call_of(G, &[X])))],
        Stmt::Ret(Y),
    );
    let out = visit_declaration(&arena, &map, &stmt);
    assert_eq!(show(out), "let 1 = array []; let 2 = call 200 [1]; dec 1; ret 2");
}

#[test]
fn long_chains_of_lets() {
    let arena = Bump::new();
    let map = ParamMap::new();
    let mut stmt: &Stmt = arena.alloc(Stmt::Ret(0));
    let n: u64 = 50000;
    for i in 0..n {
        let literal = Expr::Literal(Literal::Int(1));
        stmt = arena.alloc(Stmt::Let(n - 1 - i, literal, pointer(), stmt));
    }
    let mut out = visit_declaration(&arena, &map, stmt);
    for i in 0..n {
        match out {
            Stmt::Let(symbol, _, _, cont) => {
                assert_eq!(*symbol, i);
                out = cont;
            }
            _ => panic!("not a let"),
        }
    }
    assert_eq!(show(out), "ret 0");
}
