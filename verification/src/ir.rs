//! The intermediate representation that the frontend fills: functions made
//! of statement blocks and expression lists, indexed by plain handles.

use vstd::prelude::*;

verus! {

/// A range of bytes in the shader source.
#[derive(Clone, Copy, Debug, PartialEq, Eq)]
pub struct Span {
    pub start: u32,
    pub end: u32,
}

impl Span {
    /// The span that covers nothing, at the start of the source.
    pub fn empty() -> (s: Span)
        ensures
            s.start == 0 && s.end == 0,
    {
        Span { start: 0, end: 0 }
    }
}

/// The stage of the pipeline that a shader runs in.
#[derive(Clone, Copy, Debug, PartialEq, Eq)]
pub enum ShaderStage {
    Vertex,
    Fragment,
    Compute,
    Task,
    Mesh,
}

/// Whether a stage runs in workgroups (and so has a workgroup size).
pub open spec fn spec_compute_like(stage: ShaderStage) -> bool {
    match stage {
        ShaderStage::Vertex | ShaderStage::Fragment => false,
        ShaderStage::Compute | ShaderStage::Task | ShaderStage::Mesh => true,
    }
}

impl ShaderStage {
    /// Whether this stage runs in workgroups.
    pub fn compute_like(self) -> (b: bool)
        ensures
            b == spec_compute_like(self),
    {
        match self {
            ShaderStage::Vertex | ShaderStage::Fragment => false,
            ShaderStage::Compute | ShaderStage::Task | ShaderStage::Mesh => true,
        }
    }
}

/// The value a `switch` case matches.
#[derive(Clone, Copy, Debug, PartialEq, Eq)]
pub enum SwitchValue {
    I32(i32),
    U32(u32),
    Default,
}

/// One case of a `switch` statement.
#[derive(Debug)]
pub struct SwitchCase {
    pub value: SwitchValue,
    pub body: Vec<Statement>,
    pub fall_through: bool,
}

/// A statement of a function body. Handles of expressions and functions are
/// indices into the function's expression list and the module's function list.
#[derive(Debug)]
#[allow(inconsistent_fields)]
pub enum Statement {
    /// Evaluates the expressions in the half-open range.
    Emit { start: usize, end: usize },
    /// A nested block.
    Block(Vec<Statement>),
    If { condition: usize, accept: Vec<Statement>, reject: Vec<Statement> },
    Switch { selector: usize, cases: Vec<SwitchCase> },
    Loop { body: Vec<Statement>, continuing: Vec<Statement>, break_if: Option<usize> },
    Break,
    Continue,
    Return { value: Option<usize> },
    Kill,
    Store { pointer: usize, value: usize },
    /// Calls the function `function` of the module.
    Call { function: usize, arguments: Vec<usize>, result: Option<usize> },
}

/// An expression of a function. Only `CallResult` refers to a function.
#[derive(Clone, Copy, Debug, PartialEq, Eq)]
pub enum Expression {
    Literal(i64),
    FunctionArgument(u32),
    GlobalVariable(usize),
    LocalVariable(usize),
    Load { pointer: usize },
    Binary { op: u8, left: usize, right: usize },
    /// The result of the call of the function with this handle.
    CallResult(usize),
}

/// A function of the module.
#[derive(Debug)]
pub struct Function {
    pub name: Option<String>,
    pub expressions: Vec<Expression>,
    pub body: Vec<Statement>,
}

impl Default for Function {
    /// An unnamed function with no expressions and an empty body.
    fn default() -> (f: Function)
        ensures
            f.name is None,
            f.expressions@.len() == 0,
            f.body@.len() == 0,
    {
        Function { name: None, expressions: Vec::new(), body: Vec::new() }
    }
}

/// The entry point of the module: the stage it serves and the handle of the
/// user function (`main`) that it runs.
#[derive(Debug)]
pub struct EntryPoint {
    pub name: String,
    pub stage: ShaderStage,
    pub early_depth_test: bool,
    pub workgroup_size: [u32; 3],
    pub function: usize,
}

/// A shader module: its functions with their source spans, and its entry
/// points.
#[derive(Debug)]
pub struct Module {
    pub functions: Vec<Function>,
    pub spans: Vec<Span>,
    pub entry_points: Vec<EntryPoint>,
}

// ---------------------------------------------------------------------------
// The calls that a block makes, in the order in which they stand.

/// The handles of the functions called in `b`, in source order, nested
/// blocks included where they stand.
pub open spec fn block_calls(b: Seq<Statement>) -> Seq<usize>
    decreases b,
{
    if b.len() == 0 {
        Seq::empty()
    } else {
        block_calls(b.drop_last()) + stmt_calls(b.last())
    }
}

/// The handles of the functions called in `s` and the blocks it holds.
pub open spec fn stmt_calls(s: Statement) -> Seq<usize>
    decreases s,
{
    match s {
        Statement::Call { function, .. } => seq![function],
        Statement::Block(inner) => block_calls(inner@),
        Statement::If { accept, reject, .. } => block_calls(accept@) + block_calls(reject@),
        Statement::Switch { cases, .. } => cases_calls(cases@),
        Statement::Loop { body, continuing, .. } => block_calls(body@) + block_calls(continuing@),
        _ => Seq::empty(),
    }
}

/// The handles of the functions called in the bodies of `cs`, case by case.
pub open spec fn cases_calls(cs: Seq<SwitchCase>) -> Seq<usize>
    decreases cs,
{
    if cs.len() == 0 {
        Seq::empty()
    } else {
        cases_calls(cs.drop_last()) + block_calls(cs.last().body@)
    }
}

} // verus!
