//! Frontend for GLSL (OpenGL Shading Language): the part that turns what the
//! parsing phases produced into a finished shader module.
//!
//! Function handles are plain indices into the module's function list.
//! After a successful parse, every function appears after the functions it
//! calls (unless calls form a cycle), the handles that refer to functions are
//! renumbered to match, and the module has an entry point that runs `main`.

pub mod ir;
pub mod callgraph;
pub mod remap;
pub mod model;
pub mod ast;
pub mod sort;
pub mod error;
pub mod frontend;

pub use ast::Profile;
pub use error::{Error, ErrorKind, ParseErrors};
pub use frontend::{Frontend, Options, ParsedShader, ShaderMetadata};
