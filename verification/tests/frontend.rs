use naga_glsl::ast::{FunctionDeclaration, FunctionKind, Overload, Profile};
use naga_glsl::error::{Error, ErrorKind};
use naga_glsl::frontend::{Frontend, Options, ParsedShader, ShaderMetadata};
use naga_glsl::ir::{Expression, Function, Module, ShaderStage, Span, Statement, SwitchCase, SwitchValue};

fn call(function: usize) -> Statement {
    Statement::Call { function, arguments: Vec::new(), result: None }
}

fn function(name: &str, body: Vec<Statement>) -> Function {
    Function { name: Some(name.to_string()), expressions: Vec::new(), body }
}

fn overload(kind: FunctionKind, defined: bool, parameters: Vec<usize>) -> Overload {
    Overload { parameters, kind, defined, internal: false, void: true }
}

fn decl(name: &str, overloads: Vec<Overload>) -> (String, FunctionDeclaration) {
    (name.to_string(), FunctionDeclaration { overloads })
}

fn module(functions: Vec<Function>) -> Module {
    let spans = (0..functions.len() as u32).map(|i| Span { start: 10 * i, end: 10 * i + 5 }).collect();
    Module { functions, spans, entry_points: Vec::new() }
}

fn shader(module: Module, declarations: Vec<(String, FunctionDeclaration)>) -> ParsedShader {
    ParsedShader {
        version: 450,
        profile: Profile::Core,
        workgroup_size: [None, None, None],
        early_fragment_tests: false,
        extensions: Vec::new(),
        errors: Vec::new(),
        declarations,
        types: Vec::new(),
        globals: Vec::new(),
        entry_args: Vec::new(),
        outcome: Ok(module),
    }
}

fn names(m: &Module) -> Vec<String> {
    m.functions.iter().map(|f| f.name.clone().unwrap_or_default()).collect()
}

fn main_decl(handle: usize) -> (String, FunctionDeclaration) {
    decl("main", vec![overload(FunctionKind::Call(handle), true, Vec::new())])
}

fn error(kind: ErrorKind, start: u32) -> Error {
    Error { kind, meta: Span { start, end: start + 1 } }
}

fn is_missing_entry_point(e: &Error) -> bool {
    matches!(&e.kind, ErrorKind::SemanticError(msg) if msg == "Missing entry point")
        && e.meta == Span { start: 0, end: 0 }
}

#[test]
fn options_from_stage() {
    let options = Options::from(ShaderStage::Vertex);
    assert_eq!(options.stage, ShaderStage::Vertex);
    assert!(options.defines.is_empty());
}

#[test]
fn default_metadata() {
    let frontend = Frontend::default();
    let meta = frontend.metadata();
    assert_eq!(meta.version, 0);
    assert_eq!(meta.profile, Profile::Core);
    assert_eq!(meta.stage, ShaderStage::Vertex);
    assert_eq!(meta.workgroup_size, [0, 0, 0]);
    assert!(!meta.early_fragment_tests);
    assert!(meta.extensions.is_empty());
}

#[test]
fn metadata_reset_per_stage() {
    let mut meta = ShaderMetadata::default();
    meta.version = 460;
    meta.early_fragment_tests = true;
    meta.extensions.push("GL_EXT_debug_printf".to_string());
    meta.reset(ShaderStage::Compute);
    assert_eq!(meta.version, 0);
    assert_eq!(meta.stage, ShaderStage::Compute);
    assert_eq!(meta.workgroup_size, [1, 1, 1]);
    assert!(!meta.early_fragment_tests);
    assert!(meta.extensions.is_empty());
    meta.reset(ShaderStage::Fragment);
    assert_eq!(meta.workgroup_size, [0, 0, 0]);
    meta.reset(ShaderStage::Mesh);
    assert_eq!(meta.workgroup_size, [1, 1, 1]);
    meta.reset(ShaderStage::Task);
    assert_eq!(meta.workgroup_size, [1, 1, 1]);
}

#[test]
fn parse_puts_callees_first() {
    // main (0) calls helper (1): helper must come first.
    let m = module(vec![function("main", vec![call(1)]), function("helper", Vec::new())]);
    let decls = vec![main_decl(0), decl("helper", vec![overload(FunctionKind::Call(1), true, vec![7])])];
    let mut frontend = Frontend::default();
    let result = frontend.parse(&Options::from(ShaderStage::Vertex), shader(m, decls));
    let out = result.ok().expect("parse succeeds");
    assert_eq!(names(&out), vec!["helper", "main"]);
    assert!(matches!(out.functions[1].body[0], Statement::Call { function: 0, .. }));
    assert_eq!(out.spans, vec![Span { start: 10, end: 15 }, Span { start: 0, end: 5 }]);
    assert_eq!(out.entry_points.len(), 1);
    let ep = &out.entry_points[0];
    assert_eq!(ep.name, "main");
    assert_eq!(ep.stage, ShaderStage::Vertex);
    assert_eq!(ep.function, 1);
    assert_eq!(ep.workgroup_size, [0, 0, 0]);
    assert!(!ep.early_depth_test);
}

#[test]
fn parse_keeps_order_already_sorted() {
    let m = module(vec![function("helper", Vec::new()), function("main", vec![call(0), call(0)])]);
    let decls = vec![decl("helper", vec![overload(FunctionKind::Call(0), true, Vec::new())]), main_decl(1)];
    let mut frontend = Frontend::default();
    let out = frontend.parse(&Options::from(ShaderStage::Fragment), shader(m, decls)).ok().unwrap();
    assert_eq!(names(&out), vec!["helper", "main"]);
    assert_eq!(out.entry_points[0].function, 1);
    assert_eq!(out.spans, vec![Span { start: 0, end: 5 }, Span { start: 10, end: 15 }]);
}

#[test]
fn parse_keeps_order_on_mutual_recursion() {
    // a (0) calls main (2), main calls b (1), b calls a: a cycle.
    let m = module(vec![
        function("a", vec![call(2)]),
        function("b", vec![call(0)]),
        function("main", vec![call(1)]),
    ]);
    let mut frontend = Frontend::default();
    let out = frontend.parse(&Options::from(ShaderStage::Vertex), shader(m, vec![main_decl(2)])).ok().unwrap();
    assert_eq!(names(&out), vec!["a", "b", "main"]);
    assert_eq!(out.entry_points[0].function, 2);
    assert!(matches!(out.functions[0].body[0], Statement::Call { function: 2, .. }));
}

#[test]
fn parse_keeps_self_recursive_function() {
    let m = module(vec![function("main", vec![call(0)])]);
    let mut frontend = Frontend::default();
    let out = frontend.parse(&Options::from(ShaderStage::Vertex), shader(m, vec![main_decl(0)])).ok().unwrap();
    assert_eq!(names(&out), vec!["main"]);
    assert_eq!(out.entry_points[0].function, 0);
}

#[test]
fn parse_diamond_depth_first_order() {
    // main (0) calls left (1) and right (2); both call leaf (3).
    let m = module(vec![
        function("main", vec![call(1), call(2)]),
        function("left", vec![call(3)]),
        function("right", vec![call(3)]),
        function("leaf", Vec::new()),
    ]);
    let mut frontend = Frontend::default();
    let out = frontend.parse(&Options::from(ShaderStage::Compute), shader(m, vec![main_decl(0)])).ok().unwrap();
    assert_eq!(names(&out), vec!["leaf", "left", "right", "main"]);
    assert!(matches!(out.functions[1].body[0], Statement::Call { function: 0, .. }));
    assert!(matches!(out.functions[2].body[0], Statement::Call { function: 0, .. }));
    assert!(matches!(out.functions[3].body[0], Statement::Call { function: 1, .. }));
    assert!(matches!(out.functions[3].body[1], Statement::Call { function: 2, .. }));
    assert_eq!(out.entry_points[0].function, 3);
    assert_eq!(out.entry_points[0].workgroup_size, [1, 1, 1]);
}

#[test]
fn parse_renumbers_nested_calls_and_call_results() {
    let body = vec![
        Statement::If {
            condition: 0,
            accept: vec![call(1)],
            reject: vec![Statement::Block(vec![call(2)])],
        },
        Statement::Switch {
            selector: 0,
            cases: vec![
                SwitchCase { value: SwitchValue::I32(1), body: vec![call(1)], fall_through: true },
                SwitchCase { value: SwitchValue::Default, body: vec![call(2)], fall_through: false },
            ],
        },
        Statement::Loop { body: vec![call(1)], continuing: vec![call(2)], break_if: Some(3) },
        Statement::Call { function: 2, arguments: vec![4, 5], result: Some(6) },
        Statement::Return { value: None },
    ];
    let mut main = function("main", body);
    main.expressions = vec![Expression::Literal(3), Expression::CallResult(2), Expression::CallResult(1)];
    let m = module(vec![main, function("one", Vec::new()), function("two", Vec::new())]);
    let mut frontend = Frontend::default();
    let out = frontend.parse(&Options::from(ShaderStage::Vertex), shader(m, vec![main_decl(0)])).ok().unwrap();
    // Post-order: one (1), two (2), main (0).
    assert_eq!(names(&out), vec!["one", "two", "main"]);
    let main = &out.functions[2];
    match &main.body[0] {
        Statement::If { condition, accept, reject } => {
            assert_eq!(*condition, 0);
            assert!(matches!(accept[0], Statement::Call { function: 0, .. }));
            match &reject[0] {
                Statement::Block(inner) => assert!(matches!(inner[0], Statement::Call { function: 1, .. })),
                _ => panic!("block expected"),
            }
        }
        _ => panic!("if expected"),
    }
    match &main.body[1] {
        Statement::Switch { cases, .. } => {
            assert!(matches!(cases[0].body[0], Statement::Call { function: 0, .. }));
            assert_eq!(cases[0].value, SwitchValue::I32(1));
            assert!(cases[0].fall_through);
            assert!(matches!(cases[1].body[0], Statement::Call { function: 1, .. }));
        }
        _ => panic!("switch expected"),
    }
    match &main.body[2] {
        Statement::Loop { body, continuing, break_if } => {
            assert!(matches!(body[0], Statement::Call { function: 0, .. }));
            assert!(matches!(continuing[0], Statement::Call { function: 1, .. }));
            assert_eq!(*break_if, Some(3));
        }
        _ => panic!("loop expected"),
    }
    match &main.body[3] {
        Statement::Call { function, arguments, result } => {
            assert_eq!(*function, 1);
            assert_eq!(arguments, &vec![4, 5]);
            assert_eq!(*result, Some(6));
        }
        _ => panic!("call expected"),
    }
    assert!(matches!(main.body[4], Statement::Return { value: None }));
    assert_eq!(
        main.expressions,
        vec![Expression::Literal(3), Expression::CallResult(1), Expression::CallResult(0)]
    );
    assert_eq!(out.entry_points[0].function, 2);
}

#[test]
fn parse_missing_entry_point() {
    let m = module(vec![function("helper", Vec::new())]);
    let decls = vec![decl("helper", vec![overload(FunctionKind::Call(0), true, Vec::new())])];
    let mut frontend = Frontend::default();
    let errors = frontend.parse(&Options::from(ShaderStage::Vertex), shader(m, decls)).err().unwrap();
    assert_eq!(errors.errors.len(), 1);
    assert!(is_missing_entry_point(&errors.errors[0]));
}

#[test]
fn parse_main_not_usable_as_entry_point() {
    // A prototype, an overload with parameters and a builtin cannot serve.
    let decls = vec![decl(
        "main",
        vec![
            overload(FunctionKind::Call(0), false, Vec::new()),
            overload(FunctionKind::Call(0), true, vec![3]),
            overload(FunctionKind::Macro(4), true, Vec::new()),
        ],
    )];
    let m = module(vec![function("main", Vec::new())]);
    let mut frontend = Frontend::default();
    let errors = frontend.parse(&Options::from(ShaderStage::Vertex), shader(m, decls)).err().unwrap();
    assert_eq!(errors.errors.len(), 1);
    assert!(is_missing_entry_point(&errors.errors[0]));
}

#[test]
fn parse_picks_first_usable_main_overload() {
    let decls = vec![decl(
        "main",
        vec![
            overload(FunctionKind::Call(0), true, vec![3]),
            overload(FunctionKind::Call(1), true, Vec::new()),
            overload(FunctionKind::Call(0), true, Vec::new()),
        ],
    )];
    let m = module(vec![function("main_with_arg", Vec::new()), function("main", Vec::new())]);
    let mut frontend = Frontend::default();
    let out = frontend.parse(&Options::from(ShaderStage::Vertex), shader(m, decls)).ok().unwrap();
    assert_eq!(out.entry_points[0].function, 1);
}

#[test]
fn parse_reports_phase_error_after_earlier_errors() {
    let mut parsed = shader(module(Vec::new()), Vec::new());
    parsed.errors = vec![error(ErrorKind::UnknownType("vec5".to_string()), 3)];
    parsed.outcome = Err(error(ErrorKind::EndOfFile, 40));
    let mut frontend = Frontend::default();
    let errors = frontend.parse(&Options::from(ShaderStage::Vertex), parsed).err().unwrap();
    assert_eq!(frontend.metadata().version, 450);
    assert_eq!(errors.errors.len(), 2);
    assert!(matches!(&errors.errors[0].kind, ErrorKind::UnknownType(t) if t == "vec5"));
    assert_eq!(errors.errors[0].meta, Span { start: 3, end: 4 });
    assert!(matches!(errors.errors[1].kind, ErrorKind::EndOfFile));
    assert_eq!(errors.errors[1].meta, Span { start: 40, end: 41 });
}

#[test]
fn parse_with_recovered_errors_fails() {
    let m = module(vec![function("main", Vec::new())]);
    let mut parsed = shader(m, vec![main_decl(0)]);
    parsed.errors = vec![
        error(ErrorKind::UnknownVariable("x".to_string()), 1),
        error(ErrorKind::InvalidVersion(999), 2),
    ];
    let mut frontend = Frontend::default();
    let errors = frontend.parse(&Options::from(ShaderStage::Vertex), parsed).err().unwrap();
    assert_eq!(errors.errors.len(), 2);
    assert!(matches!(&errors.errors[0].kind, ErrorKind::UnknownVariable(v) if v == "x"));
    assert!(matches!(errors.errors[1].kind, ErrorKind::InvalidVersion(999)));
}

#[test]
fn parse_with_recovered_errors_and_no_main() {
    let mut parsed = shader(module(vec![function("f", Vec::new())]), Vec::new());
    parsed.errors = vec![error(ErrorKind::InvalidProfile("es".to_string()), 1)];
    let mut frontend = Frontend::default();
    let errors = frontend.parse(&Options::from(ShaderStage::Vertex), parsed).err().unwrap();
    assert_eq!(errors.errors.len(), 2);
    assert!(matches!(&errors.errors[0].kind, ErrorKind::InvalidProfile(p) if p == "es"));
    assert!(is_missing_entry_point(&errors.errors[1]));
}

#[test]
fn parse_records_directives() {
    let m = module(vec![function("main", Vec::new())]);
    let mut parsed = shader(m, vec![main_decl(0)]);
    parsed.version = 460;
    parsed.workgroup_size = [Some(8), None, Some(2)];
    parsed.early_fragment_tests = true;
    parsed.extensions = vec!["GL_ARB_compute_shader".to_string()];
    let mut frontend = Frontend::default();
    let out = frontend.parse(&Options::from(ShaderStage::Compute), parsed).ok().unwrap();
    let meta = frontend.metadata();
    assert_eq!(meta.version, 460);
    assert_eq!(meta.stage, ShaderStage::Compute);
    assert_eq!(meta.workgroup_size, [8, 1, 2]);
    assert!(meta.early_fragment_tests);
    assert_eq!(meta.extensions, vec!["GL_ARB_compute_shader".to_string()]);
    assert_eq!(out.entry_points[0].workgroup_size, [8, 1, 2]);
    assert!(out.entry_points[0].early_depth_test);
    assert_eq!(out.entry_points[0].stage, ShaderStage::Compute);
}

#[test]
fn frontend_is_reusable() {
    let mut frontend = Frontend::default();
    // First: a compute shader with directives and an error.
    let mut first = shader(module(vec![function("main", Vec::new())]), vec![main_decl(0)]);
    first.version = 460;
    first.workgroup_size = [Some(4), Some(4), Some(4)];
    first.extensions = vec!["GL_EXT_a".to_string()];
    first.errors = vec![error(ErrorKind::NotImplemented("x".to_string()), 0)];
    assert!(frontend.parse(&Options::from(ShaderStage::Compute), first).is_err());

    // Second: a plain vertex shader; nothing of the first remains.
    let make = || shader(module(vec![function("main", vec![call(1)]), function("f", Vec::new())]), vec![main_decl(0)]);
    let reused = frontend.parse(&Options::from(ShaderStage::Vertex), make()).ok().unwrap();
    let meta = frontend.metadata();
    assert_eq!(meta.version, 450);
    assert_eq!(meta.workgroup_size, [0, 0, 0]);
    assert!(meta.extensions.is_empty());

    let mut fresh_frontend = Frontend::default();
    let fresh = fresh_frontend.parse(&Options::from(ShaderStage::Vertex), make()).ok().unwrap();
    assert_eq!(names(&reused), names(&fresh));
    assert_eq!(reused.spans, fresh.spans);
    assert_eq!(reused.entry_points[0].function, fresh.entry_points[0].function);
}

#[test]
fn parse_adds_exactly_one_entry_point() {
    let m = module(vec![function("helper", Vec::new()), function("main", vec![call(0)])]);
    let decls = vec![main_decl(1), decl("helper", vec![overload(FunctionKind::Call(0), true, Vec::new())])];
    let mut frontend = Frontend::default();
    let out = frontend.parse(&Options::from(ShaderStage::Fragment), shader(m, decls)).ok().unwrap();
    assert_eq!(out.entry_points.len(), 1);
    assert_eq!(out.entry_points[0].name, "main");
    assert_eq!(out.entry_points[0].stage, ShaderStage::Fragment);
    assert_eq!(out.entry_points[0].function, 1);
}

#[test]
fn parse_is_determined_by_its_input() {
    let make = || {
        let m = module(vec![
            function("main", vec![call(2), call(1)]),
            function("b", vec![call(2)]),
            function("c", Vec::new()),
        ]);
        shader(m, vec![main_decl(0), decl("b", vec![overload(FunctionKind::Call(1), true, vec![1])])])
    };
    let mut used = Frontend::default();
    let first = used.parse(&Options::from(ShaderStage::Vertex), make()).ok().unwrap();
    let second = used.parse(&Options::from(ShaderStage::Vertex), make()).ok().unwrap();
    assert_eq!(names(&first), vec!["c", "b", "main"]);
    assert_eq!(names(&first), names(&second));
    assert_eq!(first.spans, second.spans);
    for (f, g) in first.functions.iter().zip(second.functions.iter()) {
        let calls = |f: &Function| {
            f.body.iter().map(|s| match s { Statement::Call { function, .. } => *function, _ => usize::MAX }).collect::<Vec<_>>()
        };
        assert_eq!(calls(f), calls(g));
    }
    assert_eq!(first.entry_points[0].function, second.entry_points[0].function);
    assert_eq!(first.entry_points[0].function, 2);
}

#[test]
fn fatal_error_keeps_declared_names() {
    let mut parsed = shader(module(Vec::new()), vec![decl("helper_declared_early", vec![overload(FunctionKind::Call(0), false, Vec::new())])]);
    parsed.types = vec![("LightBlock".to_string(), 3)];
    parsed.outcome = Err(error(ErrorKind::EndOfFile, 9));
    let mut frontend = Frontend::default();
    let errors = frontend.parse(&Options::from(ShaderStage::Vertex), parsed).err().unwrap();
    assert_eq!(errors.errors.len(), 1);
    let state = format!("{:?}", frontend);
    assert!(state.contains("helper_declared_early"));
    assert!(state.contains("LightBlock"));
}
