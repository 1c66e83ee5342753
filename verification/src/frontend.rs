//! The frontend: per-shader options, the metadata of the last shader, and
//! the step that turns what the parsing phases produced into a module.

use vstd::prelude::*;
use crate::ir::{EntryPoint, Module, ShaderStage, Span, spec_compute_like};
use crate::ast::{EntryArg, FunctionDeclaration, FunctionKind, GlobalLookup, Overload, Profile};
use crate::error::{Error, ErrorKind, ParseErrors};
use crate::sort::{
    declarations_valid, module_handles_valid, sort_functions_topologically, sorted_in_call_order,
    remapped_declarations, remapped_overload, reorders_functions, call_graph, same_functions,
    same_declarations, lemma_sorting_determined,
};
use crate::callgraph::depth_first_order;

verus! {

/// Per-shader options passed to [`Frontend::parse`].
#[derive(Debug)]
pub struct Options {
    /// The shader stage in the pipeline.
    pub stage: ShaderStage,
    /// Preprocessor definitions, as if by `#define key value` for each pair;
    /// no key is defined twice (see [`names_unique`]).
    pub defines: Vec<(String, String)>,
}

impl From<ShaderStage> for Options {
    /// Options for the stage with no preprocessor definitions.
    fn from(stage: ShaderStage) -> (o: Options)
        ensures
            o.stage == stage,
            o.defines@.len() == 0,
            names_unique(o.defines@),
    {
        Options { stage, defines: Vec::new() }
    }
}

/// The generic description of `from` does not apply here: an empty list of
/// definitions is no spec value. `Options::from` states its result in its
/// own contract instead.
impl vstd::std_specs::convert::FromSpecImpl<ShaderStage> for Options {
    open spec fn obeys_from_spec() -> bool {
        false
    }

    open spec fn from_spec(stage: ShaderStage) -> Options {
        Options { stage, defines: vstd::pervasive::arbitrary() }
    }
}

/// Additional information about the GLSL shader, which might not be stored
/// in the shader module.
#[derive(Debug)]
pub struct ShaderMetadata {
    /// The GLSL version given by the `#version` directive.
    pub version: u16,
    /// The GLSL profile given by the `#version` directive.
    pub profile: Profile,
    /// The shader stage in the pipeline, from the [`Options`].
    pub stage: ShaderStage,
    /// The workgroup size: `[1; 3]` by default for compute-like stages,
    /// `[0; 3]` for the others.
    pub workgroup_size: [u32; 3],
    /// Whether early fragment tests were requested; `false` by default.
    pub early_fragment_tests: bool,
    /// The extensions required or enabled by `#extension` directives.
    pub extensions: Vec<String>,
}

/// The metadata that a parse starts from for `stage`.
pub open spec fn is_reset_metadata(m: ShaderMetadata, stage: ShaderStage) -> bool {
    let w: u32 = if spec_compute_like(stage) { 1 } else { 0 };
    &&& m.version == 0
    &&& m.profile == Profile::Core
    &&& m.stage == stage
    &&& m.workgroup_size@ == seq![w, w, w]
    &&& !m.early_fragment_tests
    &&& m.extensions@.len() == 0
}

impl ShaderMetadata {
    /// Sets the metadata back to what a parse for `stage` starts from.
    pub fn reset(&mut self, stage: ShaderStage)
        ensures
            is_reset_metadata(*final(self), stage),
    {
        self.version = 0;
        self.profile = Profile::Core;
        self.stage = stage;
        let w: u32 = if stage.compute_like() { 1 } else { 0 };
        self.workgroup_size = [w, w, w];
        self.early_fragment_tests = false;
        self.extensions.clear();
    }
}

impl Default for ShaderMetadata {
    fn default() -> (m: ShaderMetadata)
        ensures
            m.version == 0,
            m.profile == Profile::Core,
            m.stage == ShaderStage::Vertex,
            m.workgroup_size@ == seq![0u32, 0u32, 0u32],
            !m.early_fragment_tests,
            m.extensions@.len() == 0,
    {
        ShaderMetadata {
            version: 0,
            profile: Profile::Core,
            stage: ShaderStage::Vertex,
            workgroup_size: [0, 0, 0],
            early_fragment_tests: false,
            extensions: Vec::new(),
        }
    }
}

/// What the two parsing phases (signatures, then bodies) produced for one
/// shader: the directives they read, the names they declared (as far as
/// they got), the errors they reported and recovered from, and either the
/// module or the error that stopped them.
#[derive(Debug)]
pub struct ParsedShader {
    /// The version and profile of the `#version` directive.
    pub version: u16,
    pub profile: Profile,
    /// The workgroup size given by layout qualifiers, per dimension.
    pub workgroup_size: [Option<u32>; 3],
    /// Whether early fragment tests were requested.
    pub early_fragment_tests: bool,
    /// The extensions required or enabled by `#extension` directives.
    pub extensions: Vec<String>,
    /// The errors reported while parsing, in order.
    pub errors: Vec<Error>,
    /// Each function name with its overloads.
    pub declarations: Vec<(String, FunctionDeclaration)>,
    /// Each type name with the handle of its type.
    pub types: Vec<(String, usize)>,
    /// Each global name with what it refers to.
    pub globals: Vec<(String, GlobalLookup)>,
    /// The globals that become arguments or results of the entry point.
    pub entry_args: Vec<EntryArg>,
    /// The module with its functions, or the error that stopped the parse.
    pub outcome: Result<Module, Error>,
}

/// The name `main`.
pub open spec fn is_main_name(name: Seq<char>) -> bool {
    name == seq!['m', 'a', 'i', 'n']
}

/// No two entries have the same name: the list is a map from names.
pub open spec fn names_unique<V>(entries: Seq<(String, V)>) -> bool {
    forall|i: int, j: int| 0 <= i < entries.len() && 0 <= j < entries.len() && i != j
        ==> (#[trigger] entries[i]).0@ != (#[trigger] entries[j]).0@
}

/// No two of the strings are the same: the list is a set.
pub open spec fn strings_distinct(s: Seq<String>) -> bool {
    forall|i: int, j: int| 0 <= i < s.len() && 0 <= j < s.len() && i != j
        ==> (#[trigger] s[i])@ != (#[trigger] s[j])@
}

/// The overload that can serve as the entry point: the first that calls a
/// function of the module, has a body and takes no parameters.
pub open spec fn entry_overload(os: Seq<Overload>) -> Option<usize>
    decreases os.len(),
{
    if os.len() == 0 {
        None
    } else if os[0].kind is Call && os[0].defined && os[0].parameters@.len() == 0 {
        Some(os[0].kind->Call_0)
    } else {
        entry_overload(os.drop_first())
    }
}

/// The handle of the function that the entry point runs: that of the entry
/// overload declared under the name `main`, if there is one.
pub open spec fn main_function(decls: Seq<(String, FunctionDeclaration)>) -> Option<usize> {
    if exists|i: int| 0 <= i < decls.len() && is_main_name(#[trigger] decls[i].0@) {
        let i = choose|i: int| 0 <= i < decls.len() && is_main_name(#[trigger] decls[i].0@);
        entry_overload(decls[i].1.overloads@)
    } else {
        None
    }
}

/// What a parsed shader must satisfy: no extension is listed twice; the
/// handles in it name functions of its module; no function or type name is
/// declared twice; and the module has no entry point yet.
pub open spec fn parsed_shader_valid(p: ParsedShader) -> bool {
    &&& strings_distinct(p.extensions@)
    &&& names_unique(p.declarations@)
    &&& names_unique(p.types@)
    &&& p.outcome matches Ok(m) ==> {
        &&& module_handles_valid(m)
        &&& declarations_valid(p.declarations@, m.functions@.len() as int)
        &&& m.entry_points@.len() == 0
    }
}

/// The error reported where no `main` can serve as the entry point.
pub open spec fn is_missing_entry_point(e: Error) -> bool {
    &&& e.kind matches ErrorKind::SemanticError(msg) && msg@ == "Missing entry point"@
    &&& e.meta == Span { start: 0, end: 0 }
}

/// The metadata after a parse for `stage` that read the directives of `p`:
/// the reset metadata, with what the directives give in its place.
pub open spec fn is_parsed_metadata(m: ShaderMetadata, stage: ShaderStage, p: ParsedShader) -> bool {
    let w: u32 = if spec_compute_like(stage) { 1 } else { 0 };
    &&& m.version == p.version
    &&& m.profile == p.profile
    &&& m.stage == stage
    &&& forall|d: int| 0 <= d < 3 ==> #[trigger] m.workgroup_size@[d] == match p.workgroup_size@[d] {
        Some(x) => x,
        None => w,
    }
    &&& m.early_fragment_tests == p.early_fragment_tests
    &&& m.extensions == p.extensions
    &&& strings_distinct(m.extensions@)
}

/// `out` holds the entry points of `a` and one more after them: `main`, for
/// the stage of `meta`, running the function with handle `h`.
pub open spec fn adds_entry_point(a: Module, out: Module, meta: ShaderMetadata, h: usize) -> bool {
    let eps = out.entry_points@;
    &&& eps.len() == a.entry_points@.len() + 1
    &&& forall|k: int| 0 <= k < a.entry_points@.len() ==> #[trigger] eps[k] == a.entry_points@[k]
    &&& is_main_name(eps.last().name@)
    &&& eps.last().stage == meta.stage
    &&& eps.last().early_depth_test == meta.early_fragment_tests
    &&& eps.last().workgroup_size == meta.workgroup_size
    &&& eps.last().function == h
}

/// The finished module of a parse: the parsed functions sorted into call
/// order (the declarations becoming `decls`), with the entry point added.
pub open spec fn is_finished_module(
    module: Module,
    parsed_decls: Seq<(String, FunctionDeclaration)>,
    decls: Seq<(String, FunctionDeclaration)>,
    meta: ShaderMetadata,
    h: usize,
    out: Module,
) -> bool {
    &&& sorted_in_call_order(module, parsed_decls, out, decls)
    &&& adds_entry_point(module, out, meta, h)
}

/// What a parse of `parsed` for `stage` does, from the frontend state `old`
/// to `new`, returning `r`: the errors reported (those still held, then
/// those of the parsing phases, then the one that ended the parse, if any)
/// are handed out and none is kept; the metadata holds the directives; the
/// names declared are kept in the frontend, the function declarations sorted
/// with the module where there is one; and the finished module is returned
/// only where no error was reported.
pub open spec fn parse_outcome(
    old: FrontendState,
    stage: ShaderStage,
    parsed: ParsedShader,
    new: FrontendState,
    r: Result<Module, ParseErrors>,
) -> bool {
    let reported = old.errors + parsed.errors@;
    let meta = new.meta;
    let decls = new.lookup_function;
    let pd = parsed.declarations@;
    &&& new.errors.len() == 0
    &&& is_parsed_metadata(meta, stage, parsed)
    &&& new.lookup_type == parsed.types@
    &&& new.global_variables == parsed.globals@
    &&& new.entry_args == parsed.entry_args@
    &&& match parsed.outcome {
        Err(e) => {
            &&& decls == pd
            &&& r matches Err(pe) && pe.errors@ =~= reported.push(e)
        },
        Ok(module) => {
            &&& (main_function(decls) is Some) == (main_function(pd) is Some)
            &&& main_function(decls) is None ==> {
                &&& r matches Err(pe) && pe.errors@.len() == reported.len() + 1
                    && pe.errors@.drop_last() =~= reported && is_missing_entry_point(pe.errors@.last())
                &&& exists|m: Module| sorted_in_call_order(module, pd, m, decls)
            }
            &&& main_function(decls) matches Some(h) ==> if reported.len() == 0 {
                r matches Ok(out) && is_finished_module(module, pd, decls, meta, h, out)
                    && out.entry_points@.len() == module.entry_points@.len() + 1
            } else {
                &&& r matches Err(pe) && pe.errors@ =~= reported
                &&& exists|m: Module| is_finished_module(module, pd, decls, meta, h, m)
            }
        },
    }
}

/// A frontend can be reused: a parse leaves no error behind, and what a
/// parse does from a state that holds no error does not depend on that
/// state, so parsing with a used frontend is parsing with a new one.
pub proof fn lemma_frontend_reusable(
    used: FrontendState,
    fresh: FrontendState,
    stage: ShaderStage,
    parsed: ParsedShader,
    new: FrontendState,
    r: Result<Module, ParseErrors>,
)
    requires
        used.errors.len() == 0,
        fresh.errors.len() == 0,
    ensures
        parse_outcome(used, stage, parsed, new, r) == parse_outcome(fresh, stage, parsed, new, r),
        parse_outcome(used, stage, parsed, new, r) ==> new.errors.len() == 0,
{
    assert(used.errors + parsed.errors@ =~= fresh.errors + parsed.errors@);
}

/// Declarations with the same names and overloads lead to the same entry
/// function.
proof fn lemma_same_declarations_same_main(b: Seq<(String, FunctionDeclaration)>, c: Seq<(String, FunctionDeclaration)>)
    requires
        same_declarations(b, c),
        names_unique(b),
    ensures
        main_function(b) == main_function(c),
{
    if exists|i: int| 0 <= i < b.len() && is_main_name(#[trigger] b[i].0@) {
        let i = choose|i: int| 0 <= i < b.len() && is_main_name(#[trigger] b[i].0@);
        assert(c[i].0 == b[i].0);
        let ic = choose|i: int| 0 <= i < c.len() && is_main_name(#[trigger] c[i].0@);
        assert(c[ic].0 == b[ic].0);
        assert(ic == i);
        lemma_same_overloads_same_entry(b[i].1.overloads@, c[i].1.overloads@);
    } else {
        assert forall|i: int| 0 <= i < c.len() implies !is_main_name(#[trigger] c[i].0@) by {
            assert(c[i].0 == b[i].0);
        }
    }
}

proof fn lemma_same_overloads_same_entry(b: Seq<Overload>, c: Seq<Overload>)
    requires
        b.len() == c.len(),
        forall|j: int| 0 <= j < b.len() ==> {
            &&& (#[trigger] b[j]).kind == c[j].kind
            &&& b[j].parameters == c[j].parameters
            &&& b[j].defined == c[j].defined
        },
    ensures
        entry_overload(b) == entry_overload(c),
    decreases b.len(),
{
    if b.len() > 0 {
        assert(b[0].kind == c[0].kind);
        assert forall|j: int| 0 <= j < b.drop_first().len() implies {
            &&& (#[trigger] b.drop_first()[j]).kind == c.drop_first()[j].kind
            &&& b.drop_first()[j].parameters == c.drop_first()[j].parameters
            &&& b.drop_first()[j].defined == c.drop_first()[j].defined
        } by {
            assert(b[j + 1].kind == c[j + 1].kind);
        }
        lemma_same_overloads_same_entry(b.drop_first(), c.drop_first());
    }
}

/// Sorting keeps the names of the declarations.
proof fn lemma_sorting_keeps_names(
    a: Module,
    a_decls: Seq<(String, FunctionDeclaration)>,
    b: Module,
    b_decls: Seq<(String, FunctionDeclaration)>,
)
    requires
        sorted_in_call_order(a, a_decls, b, b_decls),
        names_unique(a_decls),
    ensures
        names_unique(b_decls),
{
    if !(b.functions == a.functions && b.spans == a.spans && b_decls == a_decls) {
        let perm = depth_first_order(call_graph(a.functions@));
        let remap = choose|remap: Seq<usize>|
            #[trigger] reorders_functions(a, b, perm, remap) && remapped_declarations(a_decls, b_decls, remap);
        assert forall|i: int, j: int| 0 <= i < b_decls.len() && 0 <= j < b_decls.len() && i != j
            implies (#[trigger] b_decls[i]).0@ != (#[trigger] b_decls[j]).0@ by {
            assert(b_decls[i].0 == a_decls[i].0 && b_decls[j].0 == a_decls[j].0);
        }
    }
}

/// A parse is determined by what it parses: two outcomes that a parse of
/// the same shader may have, from frontends that hold the same errors, keep
/// the same declarations and return modules with the same content (the
/// same functions in the same order, and the same entry point), or the same
/// errors.
pub proof fn lemma_parse_determined(
    old1: FrontendState,
    old2: FrontendState,
    stage: ShaderStage,
    parsed: ParsedShader,
    new1: FrontendState,
    new2: FrontendState,
    r1: Result<Module, ParseErrors>,
    r2: Result<Module, ParseErrors>,
)
    requires
        old1.errors == old2.errors,
        parsed_shader_valid(parsed),
        parse_outcome(old1, stage, parsed, new1, r1),
        parse_outcome(old2, stage, parsed, new2, r2),
    ensures
        (r1 is Ok) == (r2 is Ok),
        r1 matches Ok(m1) ==> r2 matches Ok(m2) && {
            &&& same_functions(m1, m2)
            &&& m1.entry_points@.len() == 1 && m2.entry_points@.len() == 1
            &&& m1.entry_points@[0].name@ == m2.entry_points@[0].name@
            &&& m1.entry_points@[0].stage == m2.entry_points@[0].stage
            &&& m1.entry_points@[0].function == m2.entry_points@[0].function
            &&& m1.entry_points@[0].early_depth_test == m2.entry_points@[0].early_depth_test
            &&& m1.entry_points@[0].workgroup_size@ == m2.entry_points@[0].workgroup_size@
        },
        r1 matches Err(e1) ==> r2 matches Err(e2) && {
            &&& e1.errors@.len() == e2.errors@.len()
            &&& e1.errors@.drop_last() == e2.errors@.drop_last()
            &&& e1.errors@.last() == e2.errors@.last()
                || (is_missing_entry_point(e1.errors@.last()) && is_missing_entry_point(e2.errors@.last()))
        },
        same_declarations(new1.lookup_function, new2.lookup_function),
{
    let pd = parsed.declarations@;
    if let Ok(module) = parsed.outcome {
        let d1 = new1.lookup_function;
        let d2 = new2.lookup_function;
        let m1 = if r1 is Ok && main_function(d1) is Some { r1->Ok_0 } else {
            choose|m: Module| sorted_in_call_order(module, pd, m, d1)
        };
        let m2 = if r2 is Ok && main_function(d2) is Some { r2->Ok_0 } else {
            choose|m: Module| sorted_in_call_order(module, pd, m, d2)
        };
        if main_function(d1) is Some && !(r1 is Ok) {
            let h = main_function(d1)->Some_0;
            let w = choose|m: Module| is_finished_module(module, pd, d1, new1.meta, h, m);
            assert(sorted_in_call_order(module, pd, w, d1));
        }
        if main_function(d2) is Some && !(r2 is Ok) {
            let h = main_function(d2)->Some_0;
            let w = choose|m: Module| is_finished_module(module, pd, d2, new2.meta, h, m);
            assert(sorted_in_call_order(module, pd, w, d2));
        }
        assert(sorted_in_call_order(module, pd, m1, d1));
        assert(sorted_in_call_order(module, pd, m2, d2));
        lemma_sorting_determined(module, pd, m1, d1, m2, d2);
        lemma_sorting_keeps_names(module, pd, m1, d1);
        lemma_same_declarations_same_main(d1, d2);
        if r1 is Ok && r2 is Ok {
            assert forall|d: int| 0 <= d < 3 implies new1.meta.workgroup_size@[d] == new2.meta.workgroup_size@[d] by {
                assert(new1.meta.workgroup_size@[d] == new2.meta.workgroup_size@[d]);
            }
            assert(new1.meta.workgroup_size@ =~= new2.meta.workgroup_size@);
        }
    } else {
        assert forall|i: int| 0 <= i < pd.len() implies {
            &&& (#[trigger] new1.lookup_function[i]).0 == new2.lookup_function[i].0
            &&& new1.lookup_function[i].1.overloads@.len() == new2.lookup_function[i].1.overloads@.len()
        } by {}
    }
}

/// The frontend of the GLSL parser. Reusing one frontend for several
/// shaders is supported: each parse starts from a reset state.
#[derive(Debug)]
pub struct Frontend {
    meta: ShaderMetadata,
    lookup_function: Vec<(String, FunctionDeclaration)>,
    lookup_type: Vec<(String, usize)>,
    global_variables: Vec<(String, GlobalLookup)>,
    entry_args: Vec<EntryArg>,
    errors: Vec<Error>,
}

/// The state of a [`Frontend`] as the contracts see it.
pub struct FrontendState {
    /// The metadata of the last shader parsed.
    pub meta: ShaderMetadata,
    /// Each function name of the last shader with its overloads.
    pub lookup_function: Seq<(String, FunctionDeclaration)>,
    /// Each type name of the last shader with the handle of its type.
    pub lookup_type: Seq<(String, usize)>,
    /// Each global name of the last shader with what it refers to.
    pub global_variables: Seq<(String, GlobalLookup)>,
    /// The globals of the last shader that feed its entry point.
    pub entry_args: Seq<EntryArg>,
    /// The errors reported and not yet handed out.
    pub errors: Seq<Error>,
}

impl View for Frontend {
    type V = FrontendState;

    closed spec fn view(&self) -> FrontendState {
        FrontendState {
            meta: self.meta,
            lookup_function: self.lookup_function@,
            lookup_type: self.lookup_type@,
            global_variables: self.global_variables@,
            entry_args: self.entry_args@,
            errors: self.errors@,
        }
    }
}

impl Default for Frontend {
    fn default() -> (f: Frontend)
        ensures
            f@.meta.version == 0,
            f@.meta.profile == Profile::Core,
            f@.meta.stage == ShaderStage::Vertex,
            f@.meta.workgroup_size@ == seq![0u32, 0u32, 0u32],
            !f@.meta.early_fragment_tests,
            f@.meta.extensions@.len() == 0,
            f@.lookup_function.len() == 0,
            f@.lookup_type.len() == 0,
            f@.global_variables.len() == 0,
            f@.entry_args.len() == 0,
            f@.errors.len() == 0,
    {
        Frontend {
            meta: ShaderMetadata::default(),
            lookup_function: Vec::new(),
            lookup_type: Vec::new(),
            global_variables: Vec::new(),
            entry_args: Vec::new(),
            errors: Vec::new(),
        }
    }
}

/// Renumbering the handles of the overloads keeps which one can serve as
/// the entry point, and renumbers its handle.
proof fn lemma_entry_overload_remapped(a: Seq<Overload>, b: Seq<Overload>, r: Seq<usize>)
    requires
        b.len() == a.len(),
        forall|j: int| 0 <= j < a.len() ==> remapped_overload(a[j], #[trigger] b[j], r),
    ensures
        (entry_overload(b) is Some) == (entry_overload(a) is Some),
        entry_overload(a) matches Some(h) ==> entry_overload(b) == Some(r[h as int]),
    decreases a.len(),
{
    if a.len() > 0 {
        assert(remapped_overload(a[0], b[0], r));
        assert forall|j: int| 0 <= j < a.drop_first().len()
            implies remapped_overload(a.drop_first()[j], #[trigger] b.drop_first()[j], r) by {
            assert(remapped_overload(a[j + 1], b[j + 1], r));
        }
        lemma_entry_overload_remapped(a.drop_first(), b.drop_first(), r);
    }
}

/// Renumbering the declarations keeps whether `main` can serve as the entry
/// point, and renumbers the handle of the function it runs.
pub proof fn lemma_main_function_remapped(
    a: Seq<(String, FunctionDeclaration)>,
    b: Seq<(String, FunctionDeclaration)>,
    r: Seq<usize>,
)
    requires
        remapped_declarations(a, b, r),
        names_unique(a),
    ensures
        (main_function(b) is Some) == (main_function(a) is Some),
        main_function(a) matches Some(h) ==> main_function(b) == Some(r[h as int]),
{
    if exists|i: int| 0 <= i < a.len() && is_main_name(#[trigger] a[i].0@) {
        let i = choose|i: int| 0 <= i < a.len() && is_main_name(#[trigger] a[i].0@);
        assert(b[i].0 == a[i].0);
        assert(is_main_name(b[i].0@));
        let ib = choose|i: int| 0 <= i < b.len() && is_main_name(#[trigger] b[i].0@);
        assert(b[ib].0 == a[ib].0);
        assert(ib == i);
        lemma_entry_overload_remapped(a[i].1.overloads@, b[i].1.overloads@, r);
    } else {
        assert forall|i: int| 0 <= i < b.len() implies !is_main_name(#[trigger] b[i].0@) by {
            assert(b[i].0 == a[i].0);
        }
    }
}

/// Sorting keeps whether `main` can serve as the entry point.
proof fn lemma_sorting_keeps_main(
    a: Module,
    a_decls: Seq<(String, FunctionDeclaration)>,
    b: Module,
    b_decls: Seq<(String, FunctionDeclaration)>,
)
    requires
        sorted_in_call_order(a, a_decls, b, b_decls),
        names_unique(a_decls),
    ensures
        (main_function(b_decls) is Some) == (main_function(a_decls) is Some),
{
    if !(b.functions == a.functions && b.spans == a.spans && b_decls == a_decls) {
        let perm = depth_first_order(call_graph(a.functions@));
        let remap = choose|remap: Seq<usize>|
            #[trigger] reorders_functions(a, b, perm, remap) && remapped_declarations(a_decls, b_decls, remap);
        lemma_main_function_remapped(a_decls, b_decls, remap);
    }
}

/// After sorting, the declarations of `main` still lead to the same
/// function: the entry point found in the sorted declarations names, in the
/// sorted module, the function (with its name and span) that the one found
/// before sorting named.
pub proof fn lemma_entry_point_follows_main(
    a: Module,
    a_decls: Seq<(String, FunctionDeclaration)>,
    b: Module,
    b_decls: Seq<(String, FunctionDeclaration)>,
)
    requires
        sorted_in_call_order(a, a_decls, b, b_decls),
        module_handles_valid(a),
        declarations_valid(a_decls, a.functions@.len() as int),
        names_unique(a_decls),
    ensures
        (main_function(b_decls) is Some) == (main_function(a_decls) is Some),
        main_function(a_decls) matches Some(h) ==> main_function(b_decls) matches Some(h2) && {
            &&& h2 < b.functions@.len()
            &&& b.functions@[h2 as int].name == a.functions@[h as int].name
            &&& b.spans@[h2 as int] == a.spans@[h as int]
        },
{
    lemma_sorting_keeps_main(a, a_decls, b, b_decls);
    if let Some(h) = main_function(a_decls) {
        lemma_main_function_in_range(a_decls, a.functions@.len() as int);
        if !(b.functions == a.functions && b.spans == a.spans && b_decls == a_decls) {
            let perm = depth_first_order(call_graph(a.functions@));
            let remap = choose|remap: Seq<usize>|
                #[trigger] reorders_functions(a, b, perm, remap) && remapped_declarations(a_decls, b_decls, remap);
            lemma_main_function_remapped(a_decls, b_decls, remap);
            assert(perm.contains(h));
            let j = choose|j: int| 0 <= j < perm.len() && perm[j] == h;
            assert(remap[perm[j] as int] == j);
            assert(b.functions@[j].name == a.functions@[perm[j] as int].name);
        }
    }
}

/// The function that the entry point runs is one of the module's.
proof fn lemma_main_function_in_range(decls: Seq<(String, FunctionDeclaration)>, n: int)
    requires
        declarations_valid(decls, n),
    ensures
        main_function(decls) matches Some(h) ==> h < n,
{
    if exists|i: int| 0 <= i < decls.len() && is_main_name(#[trigger] decls[i].0@) {
        let i = choose|i: int| 0 <= i < decls.len() && is_main_name(#[trigger] decls[i].0@);
        lemma_entry_overload_in_range(decls, i, 0, n);
        assert(decls[i].1.overloads@.skip(0) =~= decls[i].1.overloads@);
    }
}

proof fn lemma_entry_overload_in_range(decls: Seq<(String, FunctionDeclaration)>, i: int, j: int, n: int)
    requires
        declarations_valid(decls, n),
        0 <= i < decls.len(),
        0 <= j <= decls[i].1.overloads@.len(),
    ensures
        entry_overload(decls[i].1.overloads@.skip(j)) matches Some(h) ==> h < n,
    decreases decls[i].1.overloads@.len() - j,
{
    let os = decls[i].1.overloads@;
    if j < os.len() {
        assert(os.skip(j)[0] == os[j]);
        assert(os.skip(j).drop_first() =~= os.skip(j + 1));
        lemma_entry_overload_in_range(decls, i, j + 1, n);
    }
}

/// The overload that serves as the entry point is the first of the list that
/// calls a function of the module, has a body and takes no parameters; where
/// none does (a prototype without a body, say, or one with parameters), no
/// overload serves.
pub proof fn lemma_entry_overload_is_first_usable(os: Seq<Overload>)
    ensures
        entry_overload(os) is None <==> forall|j: int| 0 <= j < os.len()
            ==> !((#[trigger] os[j]).kind is Call && os[j].defined && os[j].parameters@.len() == 0),
        entry_overload(os) matches Some(h) ==> exists|j: int| {
            &&& 0 <= j < os.len()
            &&& (#[trigger] os[j]).kind == FunctionKind::Call(h)
            &&& os[j].defined
            &&& os[j].parameters@.len() == 0
            &&& forall|k: int| 0 <= k < j
                ==> !((#[trigger] os[k]).kind is Call && os[k].defined && os[k].parameters@.len() == 0)
        },
    decreases os.len(),
{
    if os.len() > 0 {
        let t = os.drop_first();
        lemma_entry_overload_is_first_usable(t);
        assert forall|j: int| 0 <= j < t.len() implies #[trigger] t[j] == os[j + 1] by {}
        if !(os[0].kind is Call && os[0].defined && os[0].parameters@.len() == 0) {
            if entry_overload(t) is None {
                assert forall|j: int| 0 <= j < os.len()
                    implies !((#[trigger] os[j]).kind is Call && os[j].defined && os[j].parameters@.len() == 0) by {
                    if j > 0 {
                        assert(t[j - 1] == os[j]);
                    }
                }
            } else {
                let h = entry_overload(t)->Some_0;
                let j = choose|j: int| {
                    &&& 0 <= j < t.len()
                    &&& (#[trigger] t[j]).kind == FunctionKind::Call(h)
                    &&& t[j].defined
                    &&& t[j].parameters@.len() == 0
                    &&& forall|k: int| 0 <= k < j
                        ==> !((#[trigger] t[k]).kind is Call && t[k].defined && t[k].parameters@.len() == 0)
                };
                assert(os[j + 1] == t[j]);
                assert forall|k: int| 0 <= k < j + 1
                    implies !((#[trigger] os[k]).kind is Call && os[k].defined && os[k].parameters@.len() == 0) by {
                    if k > 0 {
                        assert(t[k - 1] == os[k]);
                    }
                }
            }
        } else {
            assert(os[0].kind == FunctionKind::Call(os[0].kind->Call_0));
        }
    }
}

/// The entry point runs the function of the first overload of `main` that
/// calls a function of the module, has a body and takes no parameters; there
/// is one exactly when `main` has such an overload. An overload without a
/// body, or with parameters, never serves.
pub proof fn lemma_main_function_is_first_usable(decls: Seq<(String, FunctionDeclaration)>)
    requires
        names_unique(decls),
    ensures
        main_function(decls) is Some <==> exists|i: int, j: int| {
            &&& 0 <= i < decls.len()
            &&& is_main_name(decls[i].0@)
            &&& 0 <= j < decls[i].1.overloads@.len()
            &&& (#[trigger] decls[i].1.overloads@[j]).kind is Call
            &&& decls[i].1.overloads@[j].defined
            &&& decls[i].1.overloads@[j].parameters@.len() == 0
        },
        main_function(decls) matches Some(h) ==> exists|i: int, j: int| {
            &&& 0 <= i < decls.len()
            &&& is_main_name(decls[i].0@)
            &&& 0 <= j < decls[i].1.overloads@.len()
            &&& (#[trigger] decls[i].1.overloads@[j]).kind == FunctionKind::Call(h)
            &&& decls[i].1.overloads@[j].defined
            &&& decls[i].1.overloads@[j].parameters@.len() == 0
            &&& forall|k: int| 0 <= k < j ==> !((#[trigger] decls[i].1.overloads@[k]).kind is Call
                && decls[i].1.overloads@[k].defined && decls[i].1.overloads@[k].parameters@.len() == 0)
        },
{
    if exists|i: int| 0 <= i < decls.len() && is_main_name(#[trigger] decls[i].0@) {
        let i = choose|i: int| 0 <= i < decls.len() && is_main_name(#[trigger] decls[i].0@);
        let os = decls[i].1.overloads@;
        lemma_entry_overload_is_first_usable(os);
        assert(main_function(decls) == entry_overload(os));
        if exists|i2: int, j: int| {
            &&& 0 <= i2 < decls.len()
            &&& is_main_name(decls[i2].0@)
            &&& 0 <= j < decls[i2].1.overloads@.len()
            &&& (#[trigger] decls[i2].1.overloads@[j]).kind is Call
            &&& decls[i2].1.overloads@[j].defined
            &&& decls[i2].1.overloads@[j].parameters@.len() == 0
        } {
            let (i2, j) = choose|i2: int, j: int| {
                &&& 0 <= i2 < decls.len()
                &&& is_main_name(decls[i2].0@)
                &&& 0 <= j < decls[i2].1.overloads@.len()
                &&& (#[trigger] decls[i2].1.overloads@[j]).kind is Call
                &&& decls[i2].1.overloads@[j].defined
                &&& decls[i2].1.overloads@[j].parameters@.len() == 0
            };
            assert(i2 == i) by {
                if i2 != i {
                    assert(decls[i2].0@ != decls[i].0@);
                }
            }
            assert(os[j] == decls[i].1.overloads@[j]);
        }
        if let Some(h) = entry_overload(os) {
            let j = choose|j: int| {
                &&& 0 <= j < os.len()
                &&& (#[trigger] os[j]).kind == FunctionKind::Call(h)
                &&& os[j].defined
                &&& os[j].parameters@.len() == 0
                &&& forall|k: int| 0 <= k < j
                    ==> !((#[trigger] os[k]).kind is Call && os[k].defined && os[k].parameters@.len() == 0)
            };
            assert(decls[i].1.overloads@[j].kind == FunctionKind::Call(h));
        }
    }
}

/// A parse returns a module only where `main` has an overload with a body
/// and no parameters; where the phases produced a module but `main` has no
/// such overload (only a prototype, say), the parse fails and the last error
/// it reports is "Missing entry point".
pub proof fn lemma_entry_point_needs_defined_main(
    old: FrontendState,
    stage: ShaderStage,
    parsed: ParsedShader,
    new: FrontendState,
    r: Result<Module, ParseErrors>,
)
    requires
        parsed_shader_valid(parsed),
        parse_outcome(old, stage, parsed, new, r),
    ensures
        r is Ok ==> exists|i: int, j: int| {
            &&& 0 <= i < parsed.declarations@.len()
            &&& is_main_name(parsed.declarations@[i].0@)
            &&& 0 <= j < parsed.declarations@[i].1.overloads@.len()
            &&& (#[trigger] parsed.declarations@[i].1.overloads@[j]).kind is Call
            &&& parsed.declarations@[i].1.overloads@[j].defined
            &&& parsed.declarations@[i].1.overloads@[j].parameters@.len() == 0
        },
        parsed.outcome is Ok && !(exists|i: int, j: int| {
            &&& 0 <= i < parsed.declarations@.len()
            &&& is_main_name(parsed.declarations@[i].0@)
            &&& 0 <= j < parsed.declarations@[i].1.overloads@.len()
            &&& (#[trigger] parsed.declarations@[i].1.overloads@[j]).kind is Call
            &&& parsed.declarations@[i].1.overloads@[j].defined
            &&& parsed.declarations@[i].1.overloads@[j].parameters@.len() == 0
        }) ==> (r matches Err(pe) && {
            &&& pe.errors@.len() == old.errors.len() + parsed.errors@.len() + 1
            &&& is_missing_entry_point(pe.errors@.last())
        }),
{
    lemma_main_function_is_first_usable(parsed.declarations@);
}

/// Finds the function that the entry point runs: the first overload of
/// `main` that calls a function of the module, has a body and takes no
/// parameters.
fn find_entry_function(decls: &Vec<(String, FunctionDeclaration)>) -> (r: Option<usize>)
    requires
        names_unique(decls@),
    ensures
        r == main_function(decls@),
{
    let main_name = "main".to_owned();
    proof {
        reveal_strlit("main");
        assert(main_name@ =~= seq!['m', 'a', 'i', 'n']);
    }
    let mut i: usize = 0;
    while i < decls.len()
        invariant
            i <= decls@.len(),
            is_main_name(main_name@),
            names_unique(decls@),
            forall|j: int| 0 <= j < i ==> !is_main_name(#[trigger] decls@[j].0@),
        decreases decls@.len() - i,
    {
        if decls[i].0 == main_name {
            proof {
                let c = choose|c: int| 0 <= c < decls@.len() && is_main_name(#[trigger] decls@[c].0@);
                assert(is_main_name(decls@[i as int].0@));
                assert(c == i);
            }
            let overloads = &decls[i].1.overloads;
            let ghost os = overloads@;
            assert(os.skip(0) =~= os);
            let mut j: usize = 0;
            while j < overloads.len()
                invariant
                    os == overloads@,
                    j <= os.len(),
                    entry_overload(os.skip(j as int)) == main_function(decls@),
                decreases os.len() - j,
            {
                proof {
                    assert(os.skip(j as int).drop_first() =~= os.skip(j + 1));
                    assert(os.skip(j as int)[0] == os[j as int]);
                }
                if let FunctionKind::Call(handle) = overloads[j].kind {
                    if overloads[j].defined && overloads[j].parameters.len() == 0 {
                        return Some(handle);
                    }
                }
                j += 1;
            }
            return None;
        }
        i += 1;
    }
    None
}

impl Frontend {
    /// Clears what the last parse left, keeping the reported errors.
    fn reset(&mut self, stage: ShaderStage)
        ensures
            is_reset_metadata(final(self)@.meta, stage),
            final(self)@.lookup_function.len() == 0,
            final(self)@.lookup_type.len() == 0,
            final(self)@.global_variables.len() == 0,
            final(self)@.entry_args.len() == 0,
            final(self)@.errors == old(self)@.errors,
    {
        self.meta.reset(stage);
        self.lookup_function.clear();
        self.lookup_type.clear();
        self.global_variables.clear();
        self.entry_args.clear();
    }

    /// Adds to `module` the entry point `main`, which runs the function with
    /// handle `function`, with the stage and the directives of this shader.
    fn add_entry_point(&self, function: usize, module: &mut Module)
        ensures
            final(module).functions == old(module).functions,
            final(module).spans == old(module).spans,
            adds_entry_point(*old(module), *final(module), self@.meta, function),
    {
        let name = "main".to_owned();
        proof {
            reveal_strlit("main");
            assert(name@ =~= seq!['m', 'a', 'i', 'n']);
        }
        module.entry_points.push(EntryPoint {
            name,
            stage: self.meta.stage,
            early_depth_test: self.meta.early_fragment_tests,
            workgroup_size: self.meta.workgroup_size,
            function,
        });
    }

    /// Sorts the functions of the parsed module into call order, together
    /// with the function declarations held by the frontend, and adds the
    /// entry point for `main`. Fails with the error of the parsing phases,
    /// or with "Missing entry point" where no overload of `main` can serve
    /// as one.
    fn parse_inner(&mut self, outcome: Result<Module, Error>) -> (r: Result<Module, Error>)
        requires
            outcome matches Ok(m) ==> {
                &&& module_handles_valid(m)
                &&& declarations_valid(old(self)@.lookup_function, m.functions@.len() as int)
                &&& names_unique(old(self)@.lookup_function)
            },
        ensures
            final(self)@.meta == old(self)@.meta,
            final(self)@.errors == old(self)@.errors,
            final(self)@.lookup_type == old(self)@.lookup_type,
            final(self)@.global_variables == old(self)@.global_variables,
            final(self)@.entry_args == old(self)@.entry_args,
            match outcome {
                Err(e) => r == Err::<Module, Error>(e) && final(self)@ == old(self)@,
                Ok(module) => {
                    let d0 = old(self)@.lookup_function;
                    let decls = final(self)@.lookup_function;
                    &&& (main_function(decls) is Some) == (main_function(d0) is Some)
                    &&& main_function(decls) matches Some(h) ==> (r matches Ok(out)
                        && is_finished_module(module, d0, decls, final(self)@.meta, h, out))
                    &&& main_function(decls) is None ==> (r matches Err(e) && is_missing_entry_point(e)
                        && exists|m: Module| sorted_in_call_order(module, d0, m, decls))
                },
            },
    {
        let mut module = match outcome {
            Ok(module) => module,
            Err(e) => {
                return Err(e);
            },
        };
        let ghost m0 = module;
        let ghost d0 = self.lookup_function@;
        assert(outcome == Ok::<Module, Error>(m0));

        // Callees before callers, as the module's validation asks.
        sort_functions_topologically(&mut module, &mut self.lookup_function);
        proof {
            lemma_sorting_keeps_main(m0, d0, module, self.lookup_function@);
        }

        match find_entry_function(&self.lookup_function) {
            Some(handle) => {
                let ghost sorted = module;
                self.add_entry_point(handle, &mut module);
                proof {
                    let decls = self.lookup_function@;
                    if !(sorted.functions == m0.functions && sorted.spans == m0.spans && decls == d0) {
                        let perm = depth_first_order(call_graph(m0.functions@));
                        let remap = choose|remap: Seq<usize>|
                            #[trigger] reorders_functions(m0, sorted, perm, remap)
                                && remapped_declarations(d0, decls, remap);
                        assert(reorders_functions(m0, module, perm, remap));
                    }
                }
                Ok(module)
            },
            None => {
                let msg = "Missing entry point".to_owned();
                proof {
                    assert(sorted_in_call_order(m0, d0, module, self.lookup_function@));
                }
                Err(Error { kind: ErrorKind::SemanticError(msg), meta: Span::empty() })
            },
        }
    }

    /// Finishes the parse of a shader, given what its parsing phases
    /// (signatures, then bodies) produced: either a module or the errors.
    ///
    /// The frontend is reset first, so that one frontend can parse several
    /// shaders. The module holds the parsed functions in call order (see
    /// [`sort_functions_topologically`]) and the entry point for `main`. It
    /// is only handed out when no error was reported; otherwise all the
    /// errors are, in the order in which they were reported.
    pub fn parse(&mut self, options: &Options, parsed: ParsedShader) -> (r: Result<Module, ParseErrors>)
        requires
            parsed_shader_valid(parsed),
        ensures
            parse_outcome(old(self)@, options.stage, parsed, final(self)@, r),
    {
        self.reset(options.stage);
        let ghost p = parsed;
        let ParsedShader {
            version,
            profile,
            workgroup_size,
            early_fragment_tests,
            extensions,
            errors,
            declarations,
            types,
            globals,
            entry_args,
            outcome,
        } = parsed;
        self.meta.version = version;
        self.meta.profile = profile;
        if let Some(x) = workgroup_size[0] {
            self.meta.workgroup_size[0] = x;
        }
        if let Some(y) = workgroup_size[1] {
            self.meta.workgroup_size[1] = y;
        }
        if let Some(z) = workgroup_size[2] {
            self.meta.workgroup_size[2] = z;
        }
        self.meta.early_fragment_tests = early_fragment_tests;
        self.meta.extensions = extensions;
        let mut errors = errors;
        self.errors.append(&mut errors);
        self.lookup_function = declarations;
        self.lookup_type = types;
        self.global_variables = globals;
        self.entry_args = entry_args;
        proof {
            assert(is_parsed_metadata(self.meta, options.stage, p));
        }

        match self.parse_inner(outcome) {
            Ok(module) => {
                if self.errors.len() == 0 {
                    Ok(module)
                } else {
                    let mut taken: Vec<Error> = Vec::new();
                    std::mem::swap(&mut taken, &mut self.errors);
                    Err(ParseErrors::from(taken))
                }
            },
            Err(e) => {
                self.errors.push(e);
                let mut taken: Vec<Error> = Vec::new();
                std::mem::swap(&mut taken, &mut self.errors);
                Err(ParseErrors::from(taken))
            },
        }
    }

    /// Returns additional information about the parsed shader which might
    /// not be stored in the module. After a failed parse it may hold only
    /// part of the information about the shader.
    pub fn metadata(&self) -> (m: &ShaderMetadata)
        ensures
            *m == self@.meta,
    {
        &self.meta
    }
}

} // verus!
