use bumpalo::Bump;
use rc_insert::borrow::{Key, ParamMap, BORROWED, OWNED};
use rc_insert::collections::{MutMap, MutSet};
use rc_insert::inc_dec::{
    get_num_consumptions, is_borrow_param, is_borrow_param_help, is_first_occurence, Context,
};
use rc_insert::insertion::ConsumePred;
use rc_insert::ir::{
    BranchInfo, Branches, Call, CallType, Expr, Layout, Literal, LowLevel, LowLevelOp, ModifyRc,
    Param, Stmt, Symbol,
};
use rc_insert::liveness::{collect_stmt, update_jp_live_vars, update_live_vars, JPLiveVarMap};
use rc_insert::occurrence::{free_variables, occuring_variables, occuring_variables_expr};

fn pointer() -> Layout {
    Layout { id: 1, refcounted: true, holds_refcounted: true }
}

fn param(symbol: Symbol, borrow: bool) -> Param {
    Param { symbol, borrow, layout: pointer() }
}

fn sorted(set: &MutSet<Symbol>) -> Vec<Symbol> {
    let mut r: Vec<Symbol> = Vec::new();
    for x in set.iter() {
        r.push(*x);
    }
    r.sort();
    r
}

fn set_of(xs: &[Symbol]) -> MutSet<Symbol> {
    let mut r = MutSet::new();
    for x in xs {
        r.insert(*x);
    }
    r
}

fn call<'a>(arguments: &'a [Symbol]) -> Call<'a> {
    Call {
        call_type: CallType::LowLevel {
            op: LowLevel { op: LowLevelOp::Other(0), borrow_signature: &[] },
        },
        arguments,
    }
}

#[test]
fn first_occurrences() {
    assert!(is_first_occurence(&[5, 6, 5], 0));
    assert!(is_first_occurence(&[5, 6, 5], 1));
    assert!(!is_first_occurence(&[5, 6, 5], 2));
}

#[test]
fn numbers_of_consumptions() {
    let ps = [param(10, OWNED), param(11, BORROWED), param(12, OWNED)];
    assert_eq!(get_num_consumptions(5, &[5, 5, 5], ConsumePred::All), 3);
    assert_eq!(get_num_consumptions(5, &[5, 5, 5], ConsumePred::Params(&ps)), 2);
    assert_eq!(get_num_consumptions(5, &[6, 5, 6], ConsumePred::Params(&ps)), 0);
    assert_eq!(get_num_consumptions(7, &[6, 5, 6], ConsumePred::All), 0);
    assert_eq!(get_num_consumptions(7, &[7, 7, 7, 7, 7], ConsumePred::Params(&ps)), 4);
}

#[test]
fn borrowed_positions() {
    let ps = [param(10, OWNED), param(11, BORROWED)];
    assert!(is_borrow_param(5, &[6, 5], &ps));
    assert!(!is_borrow_param(6, &[6, 5], &ps));
    assert!(is_borrow_param(5, &[5, 5], &ps));
    assert!(is_borrow_param(5, &[6, 5, 5], &ps));
    assert!(!is_borrow_param(7, &[6, 5, 7], &ps));
    assert!(!is_borrow_param(5, &[5], &[]));
    assert!(!is_borrow_param_help(5, &[5, 5], ConsumePred::All));
}

#[test]
fn symbols_of_expressions() {
    let cases: [(Expr, Vec<Symbol>); 9] = [
        (Expr::Literal(Literal::Int(1)), vec![9]),
        (Expr::EmptyArray, vec![9]),
        (Expr::RuntimeErrorFunction("x"), vec![9]),
        (Expr::Struct(&[3, 1, 3]), vec![1, 3, 9]),
        (Expr::Tag { tag_layout: pointer(), tag_id: 0, arguments: &[2] }, vec![2, 9]),
        (Expr::Array { elem_layout: pointer(), elems: &[4] }, vec![4, 9]),
        (
            Expr::Reuse { symbol: 5, tag_layout: pointer(), tag_id: 0, arguments: &[6] },
            vec![5, 6, 9],
        ),
        (Expr::Reset(7), vec![7, 9]),
        (Expr::AccessAtIndex { index: 0, field_layouts: &[], structure: 8 }, vec![8, 9]),
    ];
    for (expr, expected) in cases.iter() {
        let mut result = set_of(&[9]);
        occuring_variables_expr(expr, &mut result);
        assert_eq!(sorted(&result), *expected);
        assert_eq!(sorted(&update_live_vars(expr, &set_of(&[9]))), *expected);
    }
}

#[test]
fn name_of_a_called_function_does_not_occur() {
    let named = Call {
        call_type: CallType::ByName {
            name: 77,
            full_layout: pointer(),
            ret_layout: pointer(),
            arg_layouts: &[],
        },
        arguments: &[1, 2],
    };
    let mut result = MutSet::new();
    occuring_variables_expr(&Expr::Call(named), &mut result);
    assert_eq!(sorted(&result), vec![1, 2]);
}

#[test]
fn symbols_of_statements() {
    let ret = Stmt::Ret(4);
    let fail = Stmt::Rethrow;
    let inner = Stmt::Let(4, Expr::Struct(&[1, 3]), pointer(), &ret);
    let invoke = Stmt::Invoke {
        symbol: 3,
        call: call(&[2]),
        layout: pointer(),
        pass: &inner,
        fail: &fail,
    };
    let (all, bound) = occuring_variables(&invoke);
    assert_eq!(sorted(&all), vec![1, 2, 3, 4]);
    assert_eq!(sorted(&bound), vec![3, 4]);
    assert_eq!(sorted(&free_variables(&invoke)), vec![1, 2]);
}

#[test]
fn parameters_of_join_points_occur_but_are_not_bound() {
    let ps = [param(10, OWNED)];
    let continuation = Stmt::Ret(10);
    let remainder = Stmt::Jump(7, &[1]);
    let join = Stmt::Join {
        id: 7,
        parameters: &ps,
        continuation: &continuation,
        remainder: &remainder,
    };
    let (all, bound) = occuring_variables(&join);
    assert_eq!(sorted(&all), vec![1, 10]);
    assert!(bound.is_empty());
    assert_eq!(sorted(&free_variables(&join)), vec![1, 10]);
}

#[test]
fn symbols_of_switches_and_instructions() {
    let last = Stmt::RuntimeError("no");
    let counted = Stmt::Refcounting(ModifyRc::DecRef(6), &last);
    let branches = [(0, BranchInfo::Unknown, Stmt::Ret(2)), (1, BranchInfo::Unknown, Stmt::Ret(3))];
    let switch = Stmt::Switch {
        cond_symbol: 1,
        cond_layout: pointer(),
        branches: Branches::new(&branches),
        default_branch: (BranchInfo::Unknown, &counted),
        ret_layout: pointer(),
    };
    let (all, bound) = occuring_variables(&switch);
    assert_eq!(sorted(&all), vec![1, 2, 3, 6]);
    assert!(bound.is_empty());
    let jps: JPLiveVarMap = MutMap::new();
    assert_eq!(sorted(&collect_stmt(&switch, &jps, MutSet::new())), vec![1, 2, 3, 6]);
}

#[test]
fn live_variables_of_lets() {
    let ret = Stmt::Ret(4);
    let stmt = Stmt::Let(4, Expr::Struct(&[1, 3]), pointer(), &ret);
    let jps: JPLiveVarMap = MutMap::new();
    assert_eq!(sorted(&collect_stmt(&stmt, &jps, MutSet::new())), vec![1, 3]);
    assert_eq!(sorted(&collect_stmt(&stmt, &jps, set_of(&[4, 5]))), vec![1, 3, 5]);
}

#[test]
fn variable_that_a_let_mentions_and_binds_is_live() {
    let ret = Stmt::Ret(4);
    let stmt = Stmt::Let(4, Expr::Struct(&[4]), pointer(), &ret);
    let jps: JPLiveVarMap = MutMap::new();
    assert_eq!(sorted(&collect_stmt(&stmt, &jps, MutSet::new())), vec![4]);
    let arena = Bump::new();
    let map = ParamMap::new();
    let ctx = Context::new(&arena, &map).update_var_info_with_params(&[param(4, OWNED)]);
    let (_, live_vars) = ctx.visit_stmt(&stmt);
    assert!(live_vars.is_empty());
}

#[test]
fn live_variables_of_join_points() {
    let ps = [param(10, OWNED)];
    let inner_ret = Stmt::Ret(11);
    let continuation = Stmt::Let(11, Expr::Struct(&[10, 2]), pointer(), &inner_ret);
    let remainder = Stmt::Jump(7, &[1]);
    let join = Stmt::Join {
        id: 7,
        parameters: &ps,
        continuation: &continuation,
        remainder: &remainder,
    };
    let mut jps: JPLiveVarMap = MutMap::new();
    assert_eq!(sorted(&collect_stmt(&join, &jps, MutSet::new())), vec![1, 2]);
    assert_eq!(sorted(&collect_stmt(&remainder, &jps, MutSet::new())), vec![1]);
    update_jp_live_vars(7, &ps, &continuation, &mut jps);
    assert_eq!(jps.len(), 1);
    assert_eq!(sorted(jps.get(&7).unwrap()), vec![2]);
    assert_eq!(sorted(&collect_stmt(&remainder, &jps, MutSet::new())), vec![1, 2]);
}

#[test]
fn live_variables_of_an_invoke() {
    let pass = Stmt::Ret(3);
    let fail = Stmt::Ret(5);
    let invoke = Stmt::Invoke {
        symbol: 3,
        call: call(&[2]),
        layout: pointer(),
        pass: &pass,
        fail: &fail,
    };
    let jps: JPLiveVarMap = MutMap::new();
    assert_eq!(sorted(&collect_stmt(&invoke, &jps, MutSet::new())), vec![2, 5]);
    assert_eq!(sorted(&collect_stmt(&Stmt::Rethrow, &jps, set_of(&[1]))), vec![1]);
}

#[test]
fn parameter_map_entries() {
    let a = [param(1, OWNED)];
    let b = [param(2, BORROWED)];
    let other = Layout { id: 9, refcounted: false, holds_refcounted: false };
    let mut map = ParamMap::new();
    assert!(map.get_symbol(5, pointer()).is_none());
    map.insert(Key::Declaration(5, pointer()), &a);
    map.insert(Key::Declaration(5, other), &b);
    map.insert(Key::JoinPoint(5), &b);
    assert_eq!(map.get_symbol(5, pointer()).unwrap()[0].symbol, 1);
    assert_eq!(map.get_symbol(5, other).unwrap()[0].symbol, 2);
    assert!(map.get_symbol(6, other).is_none());
    map.insert(Key::Declaration(5, pointer()), &b);
    assert_eq!(map.get_symbol(5, pointer()).unwrap()[0].symbol, 2);
    assert_eq!(map.get_join_point(5)[0].symbol, 2);
    assert_eq!(map.declared(), vec![5]);
}

#[test]
fn functions_of_the_program_are_constants() {
    let arena = Bump::new();
    let a = [param(1, OWNED)];
    let mut map = ParamMap::new();
    map.insert(Key::Declaration(5, pointer()), &a);
    let ctx = Context::new(&arena, &map);
    let info = ctx.get_var_info(5);
    assert!(!info.reference);
    assert!(info.persistent);
    assert!(!info.consume);
    assert!(!ctx.must_consume(5));
}

#[test]
fn what_is_known_of_variables() {
    let arena = Bump::new();
    let map = ParamMap::new();
    let ctx = Context::new(&arena, &map)
        .update_var_info_with_params(&[param(1, OWNED), param(2, BORROWED)]);
    assert!(ctx.must_consume(1));
    assert!(!ctx.must_consume(2));
    let part = Expr::AccessAtIndex { index: 0, field_layouts: &[], structure: 2 };
    let ctx = ctx.update_var_info(3, &pointer(), &part);
    assert!(!ctx.must_consume(3));
    let ctx = ctx.update_var_info(4, &pointer(), &Expr::EmptyArray);
    assert!(ctx.must_consume(4));
    assert!(!ctx.get_var_info(4).persistent);
    let ctx = ctx.update_var_info_invoke(6, &pointer(), &call(&[1]));
    assert!(!ctx.get_var_info(6).persistent);
    let ctx = ctx.update_var_info_invoke(6, &pointer(), &call(&[]));
    assert!(ctx.get_var_info(6).persistent);
    assert!(ctx.get_var_info(6).consume);
}
