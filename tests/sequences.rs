use std::collections::HashMap;
use std::collections::HashSet;

use rvs::ast::BinaryOpcode;
use rvs::ast::Function;
use rvs::ast::Item;
use rvs::ast::Method;
use rvs::ast::Node;
use rvs::ast::UnaryOpcode;
use rvs::bind::BindError;
use rvs::context::Context;
use rvs::context::NotFound;
use rvs::expr::Expr;
use rvs::variable::Variable;

fn num(v: u32) -> Box<Node> {
    Box::new(Node::Number(v))
}

fn ident(name: &str) -> Box<Node> {
    Box::new(Node::Identifier(name.to_string()))
}

fn assign(name: &str, value: Node) -> Node {
    Node::Assignment(ident(name), Box::new(value))
}

fn statement(name: &str, value: Node) -> Item {
    Item::Single(Box::new(assign(name, value)))
}

fn call(f: Function, args: Vec<Box<Node>>) -> Node {
    Node::Function(f, args)
}

fn pattern(lo: u32, hi: u32) -> Box<Node> {
    Box::new(call(Function::Pattern, vec![num(lo), num(hi)]))
}

fn bound(items: Vec<Item>) -> Context {
    let mut context = Context::new();
    for item in items.iter() {
        context.bind(item).unwrap();
    }
    context
}

fn handle(context: &Context, name: &str) -> usize {
    context.lookup(name).unwrap()
}

fn first_value(seed: u32, value: Node) -> u32 {
    let mut context = Context::new();
    context.seed(seed);
    context.bind(&statement("a", value)).unwrap();
    let h = handle(&context, "a");
    context.next(h).unwrap()
}

fn full_range() -> Node {
    call(Function::Range, vec![num(0), num(0xffff_ffff)])
}

#[test]
fn unary() {
    let statements = vec![assign(
        "a",
        Node::BinaryOperation(
            Box::new(Node::UnaryOperation(UnaryOpcode::Neg, num(0))),
            BinaryOpcode::Add,
            num(1),
        ),
    )];
    assert_eq!(
        format!("{:?}", statements),
        "[Assignment(Identifier(\"a\"), BinaryOperation(UnaryOperation(Neg, Number(0)), Add, Number(1)))]"
    );
}

#[test]
fn expr() {
    let expr = Expr::new(Expr::constant(1), BinaryOpcode::Add, Expr::constant(2));
    let mut variable = Variable::new(expr, 0);

    assert_eq!(variable.next(), 3);
    assert_eq!(variable.next(), 3);
}

#[test]
fn yields_each_value_once_per_cycle() {
    let mut a = bound(vec![statement(
        "a",
        call(Function::Unique, vec![num(1), num(2), num(4), num(8)]),
    )]);
    let h = handle(&a, "a");

    let mut actual: HashMap<u32, u32> = HashMap::new();
    for i in 1..25 {
        let expected: HashMap<u32, u32> =
            [(1, i), (2, i), (4, i), (8, i)].iter().cloned().collect();

        for _ in 0..4 {
            let entry = actual.entry(a.next(h).unwrap()).or_insert(0);
            *entry += 1;
        }

        assert_eq!(expected, actual);
    }
}

#[test]
fn selects_another_subexpr_when_current_subexpr_done() {
    let mut a = bound(vec![statement(
        "a",
        call(Function::Unique, vec![pattern(0, 1), pattern(2, 3)]),
    )]);
    let h = handle(&a, "a");

    for _ in 0..100 {
        let value = a.next(h).unwrap();

        match value {
            0 => {
                assert_eq!(a.next(h).unwrap(), 1);
                assert_eq!(a.next(h).unwrap(), 2);
                assert_eq!(a.next(h).unwrap(), 3);
            }
            2 => {
                assert_eq!(a.next(h).unwrap(), 3);
                assert_eq!(a.next(h).unwrap(), 0);
                assert_eq!(a.next(h).unwrap(), 1);
            }
            _ => {
                panic!("unreachable");
            }
        }
    }
}

fn test_done(children: Vec<Box<Node>>, expected_cycle: Vec<bool>) {
    let mut a = bound(vec![statement("a", call(Function::Unique, children))]);
    let h = handle(&a, "a");

    assert_eq!(a.done(h).unwrap(), false);

    let n = expected_cycle.len();
    let expected: Vec<(u32, bool)> = expected_cycle
        .into_iter()
        .cycle()
        .take(16)
        .map(|done| (0, done))
        .collect();
    let actual: Vec<(u32, bool)> =
        (0..16).map(|_| (a.next(h).unwrap(), a.done(h).unwrap())).collect();

    assert_eq!(n * (16 / n), 16);
    assert_eq!(actual, expected);
}

#[test]
fn done_when_all_done2() {
    test_done(vec![num(0), num(0), num(0), num(0)], vec![false, false, false, true]);
}

#[test]
fn unique_round_of_single_value_patterns() {
    // Pattern(0, 0) completes a cycle on every value, so a round of two of
    // them ends on every second call.
    test_done(vec![pattern(0, 0), pattern(0, 0)], vec![false, true]);
}

#[test]
fn reverse() {
    let mut context = bound(vec![statement("a", call(Function::Range, vec![num(1), num(0)]))]);
    let h = handle(&context, "a");

    let expected: HashSet<u32> = [0, 1].iter().cloned().collect();
    let mut actual: HashSet<u32> = HashSet::new();

    for _ in 0..10 {
        actual.insert(context.next(h).unwrap());
    }

    assert_eq!(expected, actual);
}

#[test]
fn same() {
    let mut context = bound(vec![statement("a", call(Function::Range, vec![num(1), num(1)]))]);
    let h = handle(&context, "a");

    for _ in 0..10 {
        assert_eq!(context.next(h).unwrap(), 1);
    }
}

#[test]
fn rvsc_basic() {
    let seed0_value0 = first_value(0, full_range());
    let seed1_value0 = first_value(1, full_range());
    let seed0_value1 = first_value(0, full_range());
    let seed1_value1 = first_value(1, full_range());

    assert!(seed0_value0 != seed1_value0);
    assert_eq!(seed0_value0, seed0_value1);
    assert_eq!(seed1_value0, seed1_value1);
}

#[test]
fn require() {
    // The expansion of `require 'require.rvs'`, a file of `a = 5; b = 1;`.
    let required = Item::Multiple(vec![
        statement("a", Node::Number(5)),
        statement("b", Node::Number(1)),
    ]);
    let mut context = bound(vec![required]);

    let a = handle(&context, "a");
    assert_eq!(context.next(a).unwrap(), 5);
    let b = handle(&context, "b");
    assert_eq!(context.next(b).unwrap(), 1);
}

#[test]
fn rvsc_parse_basic() {
    let mut context = bound(vec![statement("a", Node::Number(5))]);
    assert!(context.lookup("a").is_some());
    let h = handle(&context, "a");
    assert_eq!(context.next(h).unwrap(), 5);
}

#[test]
fn rvsc_range() {
    let mut context = bound(vec![statement("a", call(Function::Range, vec![num(0), num(1)]))]);
    let h = handle(&context, "a");
    let value = context.next(h).unwrap();
    assert!(value == 0 || value == 1);
}

#[test]
fn rvsc_parse_error() {
    // `a = 1; 1 = b;`: the second statement assigns to a number.
    let mut context = Context::new();
    assert_eq!(context.bind(&statement("a", Node::Number(1))), Ok(()));
    let bad = Item::Single(Box::new(Node::Assignment(num(1), ident("b"))));
    assert!(context.bind(&bad).is_err());
}

#[test]
fn file() {
    // A file of `a = 5;`, then the statement `b = 3`.
    let file = Item::Multiple(vec![statement("a", Node::Number(5))]);
    let mut context = bound(vec![file, statement("b", Node::Number(3))]);

    let a = handle(&context, "a");
    assert!(a != 0);
    assert_eq!(context.next(a).unwrap(), 5);

    let b = handle(&context, "b");
    assert!(b != 0);
    assert_eq!(context.next(b).unwrap(), 3);
}

#[test]
fn override_rv() {
    let mut context = Context::new();
    context.bind(&Item::Multiple(vec![
        statement("a", Node::Number(0)),
        statement("a", Node::Number(1)),
    ])).unwrap();
    let first = handle(&context, "a");
    context.bind(&statement("a", Node::Number(2))).unwrap();

    let h = handle(&context, "a");
    assert!(h != 0);
    assert_eq!(h, first);
    assert_eq!(context.next(h).unwrap(), 2);
}

#[test]
fn rvsc_not_found() {
    let context = Context::new();
    assert_eq!(context.lookup("a"), None);
}

#[test]
fn rvsc_found() {
    let context = bound(vec![statement("a", Node::Number(5))]);
    assert!(handle(&context, "a") != 0);
}

#[test]
fn rvsc_next_found() {
    let mut context = bound(vec![statement("a", Node::Number(5))]);
    let h = handle(&context, "a");
    assert!(h != 0);
    assert_eq!(context.next(h).unwrap(), 5);
}

#[test]
fn c_api_basic() {
    let mut context = bound(vec![statement("a", Node::Number(5))]);
    assert!(context.lookup("a").is_some());
    let h = handle(&context, "a");
    assert_eq!(context.next(h), Ok(5));
}

#[test]
fn c_api_range() {
    let mut context = bound(vec![statement("a", call(Function::Range, vec![num(0), num(1)]))]);
    let h = handle(&context, "a");
    let value = context.next(h).unwrap();
    assert!(value == 0 || value == 1);
}

#[test]
fn c_api_parse_error() {
    let mut context = Context::new();
    assert_eq!(context.bind(&statement("a", Node::Number(1))), Ok(()));
    let bad = Item::Single(Box::new(Node::Assignment(num(1), ident("b"))));
    assert_eq!(context.bind(&bad), Err(BindError::Malformed));
}

#[test]
fn c_api_find_not_found() {
    let context = Context::new();
    assert_eq!(context.lookup("a"), None);
}

#[test]
fn c_api_found() {
    let context = bound(vec![statement("a", Node::Number(5))]);
    assert_eq!(context.lookup("a"), Some(1));
}

#[test]
fn c_api_next_found() {
    let mut context = bound(vec![statement("a", Node::Number(5))]);
    let h = handle(&context, "a");
    assert_eq!(h, 1);
    assert_eq!(context.next(h), Ok(5));
}

#[test]
fn c_api_not_found() {
    let mut context = Context::new();
    let handle = 1;
    let mut value: u32 = 0;
    match context.next(handle) {
        Ok(v) => value = v,
        Err(e) => assert_eq!(e, NotFound { handle: 1 }),
    }
    assert_eq!(value, 0);
}

#[test]
fn method_next_shares_state_and_prev_reads_it() {
    let mut context = bound(vec![
        statement("a", *pattern(0, 3)),
        statement("b", Node::VariableMethodCall("a".to_string(), Method::Next)),
        statement("c", Node::VariableMethodCall("a".to_string(), Method::Prev)),
    ]);
    let a = handle(&context, "a");
    let b = handle(&context, "b");
    let c = handle(&context, "c");

    assert_eq!(context.next(a), Ok(0));
    assert_eq!(context.next(b), Ok(1));
    assert_eq!(context.next(c), Ok(1));
    assert_eq!(context.next(a), Ok(2));
    assert_eq!(context.prev(c), Ok(1));
    assert_eq!(context.next(c), Ok(2));
}

#[test]
fn copy_starts_from_the_definition() {
    let mut context = bound(vec![statement("a", *pattern(5, 7))]);
    let a = handle(&context, "a");
    assert_eq!(context.next(a), Ok(5));
    assert_eq!(context.next(a), Ok(6));

    context
        .bind(&statement("b", Node::VariableMethodCall("a".to_string(), Method::Copy)))
        .unwrap();
    let b = handle(&context, "b");
    assert_eq!(context.next(b), Ok(5));
    assert_eq!(context.next(a), Ok(7));
    assert_eq!(context.next(b), Ok(6));
}
