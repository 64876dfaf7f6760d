use std::collections::HashSet;

use rvs::ast::BinaryOpcode;
use rvs::ast::Function;
use rvs::ast::Item;
use rvs::ast::Method;
use rvs::ast::Node;
use rvs::ast::UnaryOpcode;
use rvs::bind::BindError;
use rvs::context::Context;
use rvs::context::NotFound;
use rvs::searchpath::SearchPath;
use rvs::source::entries;
use rvs::source::Entry;

fn num(v: u32) -> Box<Node> {
    Box::new(Node::Number(v))
}

fn statement(name: &str, value: Node) -> Item {
    Item::Single(Box::new(Node::Assignment(
        Box::new(Node::Identifier(name.to_string())),
        Box::new(value),
    )))
}

fn call(f: Function, args: Vec<Box<Node>>) -> Node {
    Node::Function(f, args)
}

fn pattern(lo: u32, hi: u32) -> Node {
    call(Function::Pattern, vec![num(lo), num(hi)])
}

fn method(name: &str, m: Method) -> Node {
    Node::VariableMethodCall(name.to_string(), m)
}

fn single(value: Node) -> (Context, usize) {
    let mut context = Context::new();
    context.bind(&statement("a", value)).unwrap();
    let h = context.lookup("a").unwrap();
    (context, h)
}

fn binary_value(l: u32, op: BinaryOpcode, r: u32) -> u32 {
    let (mut context, h) = single(Node::BinaryOperation(num(l), op, num(r)));
    context.next(h).unwrap()
}

fn stream(seed: u32, n: usize) -> Vec<u32> {
    let mut context = Context::new();
    context.seed(seed);
    context.bind(&statement("a", call(Function::Range, vec![num(0), num(0xffff_ffff)]))).unwrap();
    context.bind(&statement("b", call(Function::Unique, vec![num(1), num(2), num(3)]))).unwrap();
    context.bind(&statement(
        "c",
        Node::BinaryOperation(Box::new(method("a", Method::Next)), BinaryOpcode::Xor, Box::new(method("b", Method::Next))),
    )).unwrap();
    let c = context.lookup("c").unwrap();
    (0..n).map(|_| context.next(c).unwrap()).collect()
}

#[test]
fn binary_operators() {
    assert_eq!(binary_value(7, BinaryOpcode::Or, 8), 15);
    assert_eq!(binary_value(6, BinaryOpcode::Xor, 3), 5);
    assert_eq!(binary_value(6, BinaryOpcode::And, 3), 2);
    assert_eq!(binary_value(1, BinaryOpcode::Shl, 31), 0x8000_0000);
    assert_eq!(binary_value(1, BinaryOpcode::Shl, 32), 0);
    assert_eq!(binary_value(256, BinaryOpcode::Shr, 4), 16);
    assert_eq!(binary_value(256, BinaryOpcode::Shr, 40), 0);
    assert_eq!(binary_value(0xffff_ffff, BinaryOpcode::Add, 2), 1);
    assert_eq!(binary_value(1, BinaryOpcode::Sub, 2), 0xffff_ffff);
    assert_eq!(binary_value(0x1_0000, BinaryOpcode::Mul, 0x1_0001), 0x1_0000);
    assert_eq!(binary_value(7, BinaryOpcode::Div, 2), 3);
    assert_eq!(binary_value(7, BinaryOpcode::Div, 0), 0);
    assert_eq!(binary_value(7, BinaryOpcode::Mod, 4), 3);
    assert_eq!(binary_value(7, BinaryOpcode::Mod, 0), 7);
}

#[test]
fn negation_of_zero_plus_one_wraps_to_zero() {
    let (mut context, h) = single(Node::BinaryOperation(
        Box::new(Node::UnaryOperation(UnaryOpcode::Neg, num(0))),
        BinaryOpcode::Add,
        num(1),
    ));
    assert_eq!(context.next(h), Ok(0));
}

#[test]
fn operator_symbols() {
    assert_eq!(BinaryOpcode::Shl.symbol(), "<<");
    assert_eq!(BinaryOpcode::Mod.symbol(), "%");
    assert_eq!(UnaryOpcode::Neg.symbol(), "~");
}

#[test]
fn binary_done_when_either_side_is_done() {
    let (mut context, h) = single(Node::BinaryOperation(
        Box::new(pattern(0, 1)),
        BinaryOpcode::Add,
        Box::new(pattern(0, 2)),
    ));
    let mut seen = Vec::new();
    for _ in 0..6 {
        let v = context.next(h).unwrap();
        seen.push((v, context.done(h).unwrap()));
    }
    assert_eq!(
        seen,
        vec![(0, false), (2, true), (2, true), (1, true), (1, false), (3, true)]
    );
}

#[test]
fn pattern_wraps_and_is_done_on_its_upper_bound() {
    let (mut context, h) = single(pattern(3, 5));
    let mut seen = Vec::new();
    for _ in 0..4 {
        let v = context.next(h).unwrap();
        seen.push((v, context.done(h).unwrap()));
    }
    assert_eq!(seen, vec![(3, false), (4, false), (5, true), (3, false)]);
}

#[test]
fn prev_and_done_before_the_first_step() {
    let (mut context, h) = single(pattern(3, 5));
    assert_eq!(context.prev(h), Ok(0));
    assert_eq!(context.done(h), Ok(false));
    assert_eq!(context.next(h), Ok(3));
    assert_eq!(context.prev(h), Ok(3));
    assert_eq!(context.prev(h), Ok(3));
}

#[test]
fn invalid_handles_are_not_found() {
    let (mut context, h) = single(Node::Number(5));
    assert_eq!(h, 1);
    assert_eq!(context.next(0), Err(NotFound { handle: 0 }));
    assert_eq!(context.prev(0), Err(NotFound { handle: 0 }));
    assert_eq!(context.done(0), Err(NotFound { handle: 0 }));
    assert_eq!(context.next(2), Err(NotFound { handle: 2 }));
    assert_eq!(context.prev(2), Err(NotFound { handle: 2 }));
    assert_eq!(context.done(2), Err(NotFound { handle: 2 }));
    assert_eq!(context.next(1), Ok(5));
}

#[test]
fn clear_invalidates_every_handle() {
    let (mut context, h) = single(Node::Number(5));
    context.clear();
    assert_eq!(context.len(), 0);
    assert_eq!(context.lookup("a"), None);
    assert_eq!(context.next(h), Err(NotFound { handle: h }));
}

#[test]
fn same_seed_reproduces_every_value() {
    assert_eq!(stream(7, 100), stream(7, 100));
    assert!(stream(7, 20) != stream(8, 20));
}

#[test]
fn sequences_of_one_seed_draw_independently() {
    let mut context = Context::new();
    context.seed(3);
    let range = || call(Function::Range, vec![num(0), num(0xffff_ffff)]);
    context.bind(&statement("a", range())).unwrap();
    context.bind(&statement("b", range())).unwrap();
    let a = context.lookup("a").unwrap();
    let b = context.lookup("b").unwrap();
    let xs: Vec<u32> = (0..8).map(|_| context.next(a).unwrap()).collect();
    let ys: Vec<u32> = (0..8).map(|_| context.next(b).unwrap()).collect();
    assert!(xs != ys);
}

#[test]
fn sample_with_replacement_uses_every_child() {
    let (mut context, h) = single(call(Function::Sample, vec![num(1), num(2), num(3)]));
    let mut seen = HashSet::new();
    for _ in 0..100 {
        let v = context.next(h).unwrap();
        assert!(v == 1 || v == 2 || v == 3);
        assert_eq!(context.done(h), Ok(true));
        seen.insert(v);
    }
    assert_eq!(seen.len(), 3);
}

#[test]
fn sample_follows_a_child_until_it_is_done() {
    let (mut context, h) = single(call(Function::Sample, vec![Box::new(pattern(0, 2)), Box::new(pattern(10, 12))]));
    for _ in 0..30 {
        let first = context.next(h).unwrap();
        assert!(first == 0 || first == 10);
        assert_eq!(context.done(h), Ok(false));
        assert_eq!(context.next(h), Ok(first + 1));
        assert_eq!(context.next(h), Ok(first + 2));
        assert_eq!(context.done(h), Ok(true));
    }
}

#[test]
fn unique_reshuffles_between_rounds() {
    let (mut context, h) = single(call(Function::Unique, (0..6).map(num).collect()));
    let mut orders = HashSet::new();
    for _ in 0..30 {
        let round: Vec<u32> = (0..6).map(|_| context.next(h).unwrap()).collect();
        let mut sorted = round.clone();
        sorted.sort();
        assert_eq!(sorted, vec![0, 1, 2, 3, 4, 5]);
        orders.insert(round);
    }
    assert!(orders.len() > 1);
}

#[test]
fn weighted_sample_picks_by_weight() {
    let pairs = vec![
        Box::new(Node::WeightedPair(1, num(7))),
        Box::new(Node::WeightedPair(3, num(9))),
    ];
    let (mut context, h) = single(call(Function::WeightedSample, pairs));
    let mut seen = HashSet::new();
    for _ in 0..200 {
        let v = context.next(h).unwrap();
        assert!(v == 7 || v == 9);
        seen.insert(v);
    }
    assert_eq!(seen.len(), 2);
}

#[test]
fn weighted_sample_refuses_a_zero_weight() {
    let pairs = vec![
        Box::new(Node::WeightedPair(0, num(7))),
        Box::new(Node::WeightedPair(3, num(9))),
    ];
    let mut context = Context::new();
    assert_eq!(
        context.bind(&statement("a", call(Function::WeightedSample, pairs))),
        Err(BindError::Malformed)
    );
    assert_eq!(context.len(), 0);
}

#[test]
fn empty_sample_is_malformed() {
    let mut context = Context::new();
    assert_eq!(
        context.bind(&statement("a", call(Function::Sample, vec![]))),
        Err(BindError::Malformed)
    );
}

#[test]
fn unresolved_identifier() {
    let mut context = Context::new();
    assert_eq!(
        context.bind(&statement("a", method("b", Method::Next))),
        Err(BindError::UnresolvedIdentifier("b".to_string()))
    );
    assert_eq!(
        context.bind(&statement("a", Node::Identifier("a".to_string()))),
        Err(BindError::UnresolvedIdentifier("a".to_string()))
    );
    assert_eq!(context.lookup("a"), None);
}

#[test]
fn identifier_reads_the_named_sequence() {
    let mut context = Context::new();
    context.bind(&statement("a", pattern(1, 3))).unwrap();
    context.bind(&statement("b", Node::Identifier("a".to_string()))).unwrap();
    let a = context.lookup("a").unwrap();
    let b = context.lookup("b").unwrap();
    assert_eq!(context.next(b), Ok(1));
    assert_eq!(context.next(a), Ok(2));
    assert_eq!(context.next(b), Ok(3));
    assert_eq!(context.done(b), Ok(true));
}

#[test]
fn cyclic_redefinition_is_refused() {
    let mut context = Context::new();
    context.bind(&statement("a", Node::Number(1))).unwrap();
    context.bind(&statement("b", method("a", Method::Next))).unwrap();
    assert_eq!(
        context.bind(&statement("a", method("b", Method::Next))),
        Err(BindError::CyclicReference("a".to_string()))
    );
    assert_eq!(
        context.bind(&statement("a", method("a", Method::Prev))),
        Err(BindError::CyclicReference("a".to_string()))
    );
    let a = context.lookup("a").unwrap();
    assert_eq!(context.next(a), Ok(1));
}

#[test]
fn redefinition_that_reads_a_later_sequence() {
    let mut context = Context::new();
    context.bind(&statement("a", Node::Number(1))).unwrap();
    context.bind(&statement("b", method("a", Method::Next))).unwrap();
    context.bind(&statement("c", pattern(4, 6))).unwrap();
    context.bind(&statement("a", method("c", Method::Next))).unwrap();
    let b = context.lookup("b").unwrap();
    assert_eq!(context.next(b), Ok(4));
    assert_eq!(context.next(b), Ok(5));
}

#[test]
fn require_failure_binds_nothing_of_the_entry() {
    let mut context = Context::new();
    let entry = Item::Multiple(vec![
        statement("a", Node::Number(5)),
        Item::Multiple(vec![Item::RequireError("missing.rvs".to_string(), "not found".to_string())]),
    ]);
    assert_eq!(
        context.bind(&entry),
        Err(BindError::RequireIO("missing.rvs".to_string(), "not found".to_string()))
    );
    assert_eq!(context.lookup("a"), None);
}

#[test]
fn failing_statement_keeps_the_ones_before_it() {
    let mut context = Context::new();
    let entry = Item::Multiple(vec![
        statement("a", Node::Number(5)),
        statement("b", method("x", Method::Next)),
        statement("c", Node::Number(6)),
    ]);
    assert_eq!(
        context.bind(&entry),
        Err(BindError::UnresolvedIdentifier("x".to_string()))
    );
    assert_eq!(context.lookup("a"), Some(1));
    assert_eq!(context.lookup("b"), None);
    assert_eq!(context.lookup("c"), None);
}

fn color_enum(items: Vec<(&str, Option<u32>)>) -> Item {
    let items = items
        .into_iter()
        .map(|(name, value)| Box::new(Node::EnumItem(name.to_string(), value.map(num))))
        .collect();
    Item::Single(Box::new(Node::Enum("Color".to_string(), items)))
}

fn item(en: &str, name: &str) -> Node {
    Node::EnumItemInst(en.to_string(), name.to_string())
}

#[test]
fn enum_items_count_on_from_the_last_value() {
    let mut context = Context::new();
    context.bind(&color_enum(vec![("Red", None), ("Green", Some(5)), ("Blue", None)])).unwrap();
    context.bind(&statement("r", item("Color", "Red"))).unwrap();
    context.bind(&statement("g", item("Color", "Green"))).unwrap();
    context.bind(&statement("b", item("Color", "Blue"))).unwrap();
    context.bind(&statement("c", Node::EnumInst("Color".to_string()))).unwrap();
    context.bind(&statement(
        "p",
        call(Function::Pattern, vec![Box::new(item("Color", "Green")), Box::new(item("Color", "Blue"))]),
    )).unwrap();
    let values: Vec<u32> = ["r", "g", "b", "c", "p", "p"]
        .iter()
        .map(|n| {
            let h = context.lookup(n).unwrap();
            context.next(h).unwrap()
        })
        .collect();
    assert_eq!(values, vec![0, 5, 6, 0, 5, 6]);
}

#[test]
fn enum_item_value_wraps_after_the_largest() {
    let mut context = Context::new();
    context.bind(&color_enum(vec![("Max", Some(0xffff_ffff)), ("Next", None)])).unwrap();
    context.bind(&statement("n", item("Color", "Next"))).unwrap();
    let h = context.lookup("n").unwrap();
    assert_eq!(context.next(h), Ok(0));
}

#[test]
fn duplicate_enum_item() {
    let mut context = Context::new();
    assert_eq!(
        context.bind(&color_enum(vec![("Red", None), ("Red", Some(2))])),
        Err(BindError::DuplicateEnumItem("Color".to_string(), "Red".to_string()))
    );
}

#[test]
fn unknown_enum_and_item() {
    let mut context = Context::new();
    assert_eq!(
        context.bind(&statement("a", item("Color", "Red"))),
        Err(BindError::UnresolvedIdentifier("Color".to_string()))
    );
    context.bind(&color_enum(vec![("Red", None)])).unwrap();
    assert_eq!(
        context.bind(&statement("a", item("Color", "Blue"))),
        Err(BindError::UnresolvedIdentifier("Blue".to_string()))
    );
}

#[test]
fn search_path_components_skip_empty_entries() {
    assert_eq!(SearchPath::components("a::b:"), vec!["a".to_string(), "b".to_string()]);
    assert_eq!(SearchPath::components(""), Vec::<String>::new());
}

#[test]
fn search_path_reports_every_missing_entry_and_keeps_the_rest() {
    let e = SearchPath::from_string("x:y:z", &vec![false, true, false]).err().unwrap();
    assert_eq!(e.missing, vec!["x".to_string(), "z".to_string()]);
    assert_eq!(e.kept.paths, vec!["y".to_string()]);

    let p = SearchPath::from_string("x::y", &vec![true, true]).ok().unwrap();
    assert_eq!(p.paths, vec!["x".to_string(), "y".to_string()]);
}

#[test]
fn search_path_new_and_add() {
    let mut p = SearchPath::new(vec!["a".to_string()]);
    p.add("b".to_string());
    assert_eq!(p.paths, vec!["a".to_string(), "b".to_string()]);
}

#[test]
fn source_entries_are_statements_or_files() {
    assert_eq!(
        entries("../examples/basic.rvs;b = 3"),
        vec![Entry::File("../examples/basic.rvs".to_string()), Entry::Statement("b = 3;".to_string())]
    );
    assert_eq!(
        entries("a = 1;\n1 = b;"),
        vec![Entry::Statement("a = 1;".to_string()), Entry::Statement("\n1 = b;".to_string())]
    );
    assert_eq!(
        entries("require '../examples/require.rvs'"),
        vec![Entry::Statement("require '../examples/require.rvs';".to_string())]
    );
    assert_eq!(entries(";;"), Vec::<Entry>::new());
}
