use naga_glsl::ast::{FunctionDeclaration, FunctionKind, Overload};
use naga_glsl::callgraph::collect_call_handles;
use naga_glsl::ir::{Expression, Function, Module, Span, Statement, SwitchCase, SwitchValue};
use naga_glsl::remap::{remap_call_handles, remap_call_result_handles};
use naga_glsl::sort::sort_functions_topologically;

fn call(function: usize) -> Statement {
    Statement::Call { function, arguments: Vec::new(), result: None }
}

fn function(name: &str, body: Vec<Statement>) -> Function {
    Function { name: Some(name.to_string()), expressions: Vec::new(), body }
}

fn module(functions: Vec<Function>) -> Module {
    let spans = (0..functions.len() as u32).map(|i| Span { start: i, end: i + 1 }).collect();
    Module { functions, spans, entry_points: Vec::new() }
}

fn names(m: &Module) -> Vec<String> {
    m.functions.iter().map(|f| f.name.clone().unwrap()).collect()
}

fn decl(name: &str, kinds: Vec<FunctionKind>) -> (String, FunctionDeclaration) {
    let overloads = kinds
        .into_iter()
        .map(|kind| Overload { parameters: Vec::new(), kind, defined: true, internal: false, void: false })
        .collect();
    (name.to_string(), FunctionDeclaration { overloads })
}

fn kinds(decls: &[(String, FunctionDeclaration)]) -> Vec<Vec<FunctionKind>> {
    decls.iter().map(|(_, d)| d.overloads.iter().map(|o| o.kind).collect()).collect()
}

fn calls_of(f: &Function) -> Vec<usize> {
    let mut callees = Vec::new();
    collect_call_handles(&f.body, &mut callees);
    callees
}

#[test]
fn collect_calls_in_source_order() {
    let block = vec![
        call(4),
        Statement::Emit { start: 0, end: 2 },
        Statement::If { condition: 0, accept: vec![call(1)], reject: vec![call(2), call(3)] },
        Statement::Switch {
            selector: 1,
            cases: vec![
                SwitchCase { value: SwitchValue::U32(0), body: vec![call(5)], fall_through: false },
                SwitchCase { value: SwitchValue::Default, body: vec![Statement::Kill, call(6)], fall_through: false },
            ],
        },
        Statement::Loop {
            body: vec![Statement::Block(vec![call(7)]), Statement::Break],
            continuing: vec![call(8), Statement::Continue],
            break_if: None,
        },
        Statement::Store { pointer: 1, value: 2 },
        call(4),
    ];
    let mut callees = vec![99];
    collect_call_handles(&block, &mut callees);
    assert_eq!(callees, vec![99, 4, 1, 2, 3, 5, 6, 7, 8, 4]);
}

#[test]
fn collect_calls_of_empty_block() {
    let mut callees = vec![1, 2];
    collect_call_handles(&Vec::new(), &mut callees);
    assert_eq!(callees, vec![1, 2]);
}

#[test]
fn remap_calls_in_nested_blocks() {
    let mut block = vec![
        call(0),
        Statement::Block(vec![call(1), Statement::If { condition: 3, accept: vec![call(2)], reject: Vec::new() }]),
        Statement::Emit { start: 1, end: 3 },
    ];
    remap_call_handles(&mut block, &[2, 0, 1]);
    assert!(matches!(block[0], Statement::Call { function: 2, .. }));
    match &block[1] {
        Statement::Block(inner) => {
            assert!(matches!(inner[0], Statement::Call { function: 0, .. }));
            match &inner[1] {
                Statement::If { condition, accept, reject } => {
                    assert_eq!(*condition, 3);
                    assert!(matches!(accept[0], Statement::Call { function: 1, .. }));
                    assert!(reject.is_empty());
                }
                _ => panic!("if expected"),
            }
        }
        _ => panic!("block expected"),
    }
    assert!(matches!(block[2], Statement::Emit { start: 1, end: 3 }));
}

#[test]
fn remap_call_results_only() {
    let mut expressions = vec![
        Expression::CallResult(0),
        Expression::Load { pointer: 0 },
        Expression::CallResult(2),
        Expression::Binary { op: 1, left: 0, right: 2 },
        Expression::FunctionArgument(0),
    ];
    remap_call_result_handles(&mut expressions, &[1, 2, 0]);
    assert_eq!(
        expressions,
        vec![
            Expression::CallResult(1),
            Expression::Load { pointer: 0 },
            Expression::CallResult(0),
            Expression::Binary { op: 1, left: 0, right: 2 },
            Expression::FunctionArgument(0),
        ]
    );
}

#[test]
fn sort_chain_reverses_order() {
    // a -> b -> c
    let mut m = module(vec![function("a", vec![call(1)]), function("b", vec![call(2)]), function("c", Vec::new())]);
    let mut decls = vec![
        decl("a", vec![FunctionKind::Call(0)]),
        decl("b", vec![FunctionKind::Call(1), FunctionKind::Macro(9)]),
        decl("c", vec![FunctionKind::Call(2)]),
    ];
    sort_functions_topologically(&mut m, &mut decls);
    assert_eq!(names(&m), vec!["c", "b", "a"]);
    assert_eq!(calls_of(&m.functions[1]), vec![0]);
    assert_eq!(calls_of(&m.functions[2]), vec![1]);
    assert_eq!(m.spans, vec![Span { start: 2, end: 3 }, Span { start: 1, end: 2 }, Span { start: 0, end: 1 }]);
    assert_eq!(
        kinds(&decls),
        vec![
            vec![FunctionKind::Call(2)],
            vec![FunctionKind::Call(1), FunctionKind::Macro(9)],
            vec![FunctionKind::Call(0)],
        ]
    );
    assert_eq!(decls[0].0, "a");
}

#[test]
fn sorted_calls_go_to_earlier_functions() {
    let mut m = module(vec![
        function("f0", vec![call(3), call(1)]),
        function("f1", vec![call(4)]),
        function("f2", Vec::new()),
        function("f3", vec![call(2), call(4)]),
        function("f4", Vec::new()),
    ]);
    let mut decls = Vec::new();
    sort_functions_topologically(&mut m, &mut decls);
    // Post-order from f0: f2, f4, f3, f1, f0.
    assert_eq!(names(&m), vec!["f2", "f4", "f3", "f1", "f0"]);
    for (i, f) in m.functions.iter().enumerate() {
        for callee in calls_of(f) {
            assert!(callee < i);
        }
    }
}

#[test]
fn sort_leaves_cycle_alone() {
    let mut m = module(vec![
        function("leaf_caller", vec![call(1)]),
        function("x", vec![call(2)]),
        function("y", vec![call(1)]),
    ]);
    let mut decls = vec![decl("x", vec![FunctionKind::Call(1)])];
    sort_functions_topologically(&mut m, &mut decls);
    assert_eq!(names(&m), vec!["leaf_caller", "x", "y"]);
    assert_eq!(calls_of(&m.functions[0]), vec![1]);
    assert_eq!(kinds(&decls), vec![vec![FunctionKind::Call(1)]]);
}

#[test]
fn sort_leaves_ordered_module_alone() {
    let mut m = module(vec![function("a", Vec::new()), function("b", vec![call(0)]), function("c", vec![call(0), call(1)])]);
    let mut decls = vec![decl("c", vec![FunctionKind::Call(2)])];
    sort_functions_topologically(&mut m, &mut decls);
    assert_eq!(names(&m), vec!["a", "b", "c"]);
    assert_eq!(calls_of(&m.functions[2]), vec![0, 1]);
    assert_eq!(kinds(&decls), vec![vec![FunctionKind::Call(2)]]);
}

#[test]
fn sort_empty_and_single() {
    let mut empty = module(Vec::new());
    let mut decls = Vec::new();
    sort_functions_topologically(&mut empty, &mut decls);
    assert!(empty.functions.is_empty());

    let mut single = module(vec![function("only", vec![call(0)])]);
    sort_functions_topologically(&mut single, &mut decls);
    assert_eq!(names(&single), vec!["only"]);
    assert_eq!(calls_of(&single.functions[0]), vec![0]);
}

#[test]
fn sorting_twice_changes_nothing_more() {
    let make = || module(vec![function("a", vec![call(2)]), function("b", Vec::new()), function("c", vec![call(1)])]);
    let mut m = make();
    let mut decls = vec![decl("a", vec![FunctionKind::Call(0)])];
    sort_functions_topologically(&mut m, &mut decls);
    assert_eq!(names(&m), vec!["b", "c", "a"]);
    assert_eq!(kinds(&decls), vec![vec![FunctionKind::Call(2)]]);
    sort_functions_topologically(&mut m, &mut decls);
    assert_eq!(names(&m), vec!["b", "c", "a"]);
    assert_eq!(calls_of(&m.functions[2]), vec![1]);
    assert_eq!(kinds(&decls), vec![vec![FunctionKind::Call(2)]]);
}

#[test]
fn identity_renumbering_changes_nothing() {
    let mut block = vec![
        call(1),
        Statement::Loop { body: vec![call(0)], continuing: vec![Statement::Block(vec![call(2)])], break_if: Some(1) },
    ];
    remap_call_handles(&mut block, &[0, 1, 2]);
    assert!(matches!(block[0], Statement::Call { function: 1, .. }));
    match &block[1] {
        Statement::Loop { body, continuing, break_if } => {
            assert!(matches!(body[0], Statement::Call { function: 0, .. }));
            assert!(matches!(&continuing[0], Statement::Block(inner) if matches!(inner[0], Statement::Call { function: 2, .. })));
            assert_eq!(*break_if, Some(1));
        }
        _ => panic!("loop expected"),
    }
}

#[test]
fn renumbering_then_inverse_restores_block() {
    let original = || vec![
        call(0),
        Statement::Switch {
            selector: 2,
            cases: vec![SwitchCase { value: SwitchValue::I32(-1), body: vec![call(1), call(2)], fall_through: false }],
        },
    ];
    let mut block = original();
    let remap = [2, 0, 1];
    let inverse = [1, 2, 0];
    remap_call_handles(&mut block, &remap);
    let mut first = Vec::new();
    collect_call_handles(&block, &mut first);
    assert_eq!(first, vec![2, 0, 1]);
    remap_call_handles(&mut block, &inverse);
    let mut back = Vec::new();
    collect_call_handles(&block, &mut back);
    let mut expected = Vec::new();
    collect_call_handles(&original(), &mut expected);
    assert_eq!(back, expected);
}

#[test]
fn sorting_keeps_calls_matched_with_results() {
    let mut main = function("main", vec![Statement::Call { function: 1, arguments: vec![], result: Some(0) }]);
    main.expressions = vec![Expression::CallResult(1)];
    let mut m = module(vec![main, function("f", Vec::new())]);
    let mut decls = Vec::new();
    sort_functions_topologically(&mut m, &mut decls);
    assert_eq!(names(&m), vec!["f", "main"]);
    match m.functions[1].body[0] {
        Statement::Call { function, result: Some(e), .. } => {
            assert_eq!(m.functions[1].expressions[e], Expression::CallResult(function));
            assert_eq!(function, 0);
        }
        _ => panic!("call expected"),
    }
}

#[test]
fn sort_stops_at_first_cycle() {
    // 0 calls 1 and 2; 2 calls 0: the search lists 1, then meets the cycle.
    let mut m = module(vec![function("a", vec![call(1), call(2)]), function("b", Vec::new()), function("c", vec![call(0)])]);
    let mut decls = vec![decl("a", vec![FunctionKind::Call(0)])];
    sort_functions_topologically(&mut m, &mut decls);
    assert_eq!(names(&m), vec!["a", "b", "c"]);
    assert_eq!(kinds(&decls), vec![vec![FunctionKind::Call(0)]]);
}
