//! What the parsing phases record about the declarations of a shader.

use vstd::prelude::*;

verus! {

/// The profile named by the `#version` directive.
#[derive(Clone, Copy, Debug, PartialEq, Eq)]
pub enum Profile {
    Core,
}

/// What a call of an overload turns into: a call of a function of the module
/// (by its handle), or a builtin expanded in place (by its number).
#[derive(Clone, Copy, Debug, PartialEq, Eq)]
pub enum FunctionKind {
    Call(usize),
    Macro(u32),
}

/// One overload of a function name.
#[derive(Debug)]
pub struct Overload {
    /// The handles of the types of the parameters.
    pub parameters: Vec<usize>,
    pub kind: FunctionKind,
    /// Whether a body was given (and not only a prototype).
    pub defined: bool,
    /// Whether the overload is a builtin.
    pub internal: bool,
    /// Whether the overload returns nothing.
    pub void: bool,
}

/// All the overloads declared under one name.
#[derive(Debug)]
pub struct FunctionDeclaration {
    pub overloads: Vec<Overload>,
}

/// What a global name refers to.
#[derive(Clone, Copy, Debug, PartialEq, Eq)]
pub enum GlobalLookupKind {
    Variable(usize),
    Constant(usize, usize),
    BlockSelect(usize, u32),
}

/// A global name: what it refers to, the entry argument it feeds, and
/// whether it may be written.
#[derive(Clone, Copy, Debug, PartialEq, Eq)]
pub struct GlobalLookup {
    pub kind: GlobalLookupKind,
    pub entry_arg: Option<usize>,
    pub mutable: bool,
}

/// A global variable that becomes an argument or result of the entry point.
#[derive(Debug)]
pub struct EntryArg {
    pub name: Option<String>,
    pub handle: usize,
}

} // verus!
