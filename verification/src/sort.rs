//! Putting the functions of a module in call order: every function after
//! the functions it calls.

use vstd::prelude::*;
use crate::ir::{Expression, Function, Module, Span, block_calls};
use crate::ast::{FunctionDeclaration, FunctionKind, Overload};
use crate::callgraph::{
    collect_call_handles, topological_dfs, dfs_state, graph_of, edges_in_range, is_walk,
    graph_has_cycle, is_topological_order, edges_go_down, dfs_from, depth_first_order,
    block_has_call, lemma_calls_are_call_statements, first_edge_end, ranks_edges_down,
    lemma_depth_first_order_starts_at_first_edge_end,
};
use crate::model::{
    block_model, results_agree_block, lemma_renumbering_keeps_results_block,
    lemma_renumbering_determined_block,
};
use crate::remap::{
    all_below, call_results, remapped_block, remapped_expr, remap_call_handles,
    remap_call_result_handles, lemma_remapped_block_calls,
};

verus! {

// ---------------------------------------------------------------------------
// Specifications

/// The call graph of a list of functions: function `i` has an edge to every
/// function that its body calls, once per call.
pub open spec fn call_graph(fs: Seq<Function>) -> Seq<Seq<usize>> {
    fs.map_values(|f: Function| block_calls(f.body@))
}

/// Every function handle held by the module's functions (calls and call
/// results) names one of its functions, and each function has a span.
pub open spec fn module_handles_valid(m: Module) -> bool {
    &&& m.spans@.len() == m.functions@.len()
    &&& forall|i: int| 0 <= i < m.functions@.len() ==> {
        &&& all_below(block_calls(#[trigger] m.functions@[i].body@), m.functions@.len() as int)
        &&& all_below(call_results(m.functions@[i].expressions@), m.functions@.len() as int)
    }
}

/// Every overload that calls a function of the module names one of its `n`
/// functions.
pub open spec fn declarations_valid(decls: Seq<(String, FunctionDeclaration)>, n: int) -> bool {
    forall|i: int, j: int|
        0 <= i < decls.len() && 0 <= j < decls[i].1.overloads@.len()
            && (#[trigger] decls[i].1.overloads@[j]).kind is Call
            ==> decls[i].1.overloads@[j].kind->Call_0 < n
}

/// The kind `k` with a function handle `h` replaced by `r[h]`.
pub open spec fn remapped_kind(k: FunctionKind, r: Seq<usize>) -> FunctionKind {
    match k {
        FunctionKind::Call(h) => FunctionKind::Call(r[h as int]),
        _ => k,
    }
}

/// `b` is the overload `a` with its function handle remapped by `r`.
pub open spec fn remapped_overload(a: Overload, b: Overload, r: Seq<usize>) -> bool {
    &&& b.kind == remapped_kind(a.kind, r)
    &&& b.parameters == a.parameters
    &&& b.defined == a.defined
    &&& b.internal == a.internal
    &&& b.void == a.void
}

/// `b` holds the declarations of `a`, under the same names and in the same
/// order, with every function handle remapped by `r`.
pub open spec fn remapped_declarations(
    a: Seq<(String, FunctionDeclaration)>,
    b: Seq<(String, FunctionDeclaration)>,
    r: Seq<usize>,
) -> bool {
    &&& b.len() == a.len()
    &&& forall|i: int| 0 <= i < a.len() ==> {
        &&& (#[trigger] b[i]).0 == a[i].0
        &&& b[i].1.overloads@.len() == a[i].1.overloads@.len()
        &&& forall|j: int| 0 <= j < a[i].1.overloads@.len() ==>
            remapped_overload(a[i].1.overloads@[j], #[trigger] b[i].1.overloads@[j], r)
    }
}

/// `perm` lists each of the `n` handles once, and `remap` sends each handle
/// to its position in `perm`.
pub open spec fn is_renumbering(perm: Seq<usize>, remap: Seq<usize>, n: int) -> bool {
    &&& perm.len() == n
    &&& perm.no_duplicates()
    &&& forall|k: int| 0 <= k < n ==> #[trigger] perm[k] < n
    &&& forall|x: usize| x < n ==> perm.contains(x)
    &&& remap.len() == n
    &&& forall|k: int| 0 <= k < n ==> remap[#[trigger] perm[k] as int] == k
}

/// `b` holds the functions of `a` in the order `perm` (function `k` of `b`
/// is function `perm[k]` of `a`, with its span), with every function handle
/// in bodies and expressions renumbered by `remap`.
pub open spec fn reorders_functions(a: Module, b: Module, perm: Seq<usize>, remap: Seq<usize>) -> bool {
    let n = a.functions@.len() as int;
    &&& is_renumbering(perm, remap, n)
    &&& b.functions@.len() == n
    &&& b.spans@.len() == n
    &&& forall|k: int| 0 <= k < n ==> {
        &&& (#[trigger] b.functions@[k]).name == a.functions@[perm[k] as int].name
        &&& b.spans@[k] == a.spans@[perm[k] as int]
        &&& b.functions@[k].expressions@ == a.functions@[perm[k] as int].expressions@.map_values(
            |e| remapped_expr(e, remap),
        )
        &&& remapped_block(a.functions@[perm[k] as int].body@, b.functions@[k].body@, remap)
    }
}

/// What sorting does to the functions of a module and to its declarations
/// (the entry points are not touched): if the call graph has
/// a cycle, or the functions are already in call order, nothing changes;
/// otherwise the functions are put in the depth-first post-order of the call
/// graph (an order in which every call goes to an earlier function), and
/// every handle is renumbered to match.
pub open spec fn sorted_in_call_order(
    a: Module,
    a_decls: Seq<(String, FunctionDeclaration)>,
    b: Module,
    b_decls: Seq<(String, FunctionDeclaration)>,
) -> bool {
    let g = call_graph(a.functions@);
    let unchanged = b.functions == a.functions && b.spans == a.spans && b_decls == a_decls;
    &&& (graph_has_cycle(g) || edges_go_down(g)) ==> unchanged
    &&& !graph_has_cycle(g) ==> edges_go_down(call_graph(b.functions@))
    &&& unchanged || exists|remap: Seq<usize>|
        #[trigger] reorders_functions(a, b, depth_first_order(g), remap)
            && remapped_declarations(a_decls, b_decls, remap)
}

// ---------------------------------------------------------------------------
// Lemmas

/// The set of handles below `n` has `n` elements.
proof fn lemma_handles_below_len(n: nat)
    requires
        n <= usize::MAX,
    ensures
        Set::new(|x: usize| x < n).finite(),
        Set::new(|x: usize| x < n).len() == n,
    decreases n,
{
    if n == 0 {
        assert(Set::new(|x: usize| x < n) =~= Set::<usize>::empty());
    } else {
        lemma_handles_below_len((n - 1) as nat);
        let m = (n - 1) as nat;
        assert(Set::new(|x: usize| x < n) =~= Set::new(|x: usize| x < m).insert(m as usize));
    }
}

/// A sequence without duplicates that holds exactly the handles below `n`
/// has length `n`.
proof fn lemma_covering_len(s: Seq<usize>, n: nat)
    requires
        n <= usize::MAX,
        s.no_duplicates(),
        forall|k: int| 0 <= k < s.len() ==> #[trigger] s[k] < n,
        forall|x: usize| x < n ==> s.contains(x),
    ensures
        s.len() == n,
{
    lemma_handles_below_len(n);
    s.unique_seq_to_set();
    assert(s.to_set() =~= Set::new(|x: usize| x < n));
}

/// The position of every node in a topological order.
proof fn lemma_topological_positions(g: Seq<Seq<usize>>, order: Seq<usize>, p: Seq<usize>, k: int)
    requires
        is_topological_order(g, order),
        forall|x: usize| x < g.len() ==> order.contains(x),
        is_walk(g, p),
        0 <= k < p.len(),
    ensures
        exists|i: int, j: int| 0 <= i < order.len() && 0 <= j < order.len()
            && order[i] == p[0] && order[j] == p[k] && j <= i - k,
    decreases k,
{
    if k == 0 {
        assert(order.contains(p[0]));
        let i = choose|i: int| 0 <= i < order.len() && order[i] == p[0];
        assert(order[i] == p[0] && order[i] == p[k]);
    } else {
        lemma_topological_positions(g, order, p, k - 1);
        let (i, j) = choose|i: int, j: int| 0 <= i < order.len() && 0 <= j < order.len()
            && order[i] == p[0] && order[j] == p[k - 1] && j <= i - (k - 1);
        assert(p[k] < g.len());
        assert(order.contains(p[k]));
        let j2 = choose|j2: int| 0 <= j2 < order.len() && order[j2] == p[k];
        assert(g[p[k - 1] as int].contains(p[k]));
        assert(g[order[j] as int].contains(order[j2]));
        assert(order[i] == p[0] && order[j2] == p[k] && j2 <= i - k);
    }
}

/// A graph with a topological order has no cycle.
proof fn lemma_topological_order_acyclic(g: Seq<Seq<usize>>, order: Seq<usize>)
    requires
        is_topological_order(g, order),
        forall|x: usize| x < g.len() ==> order.contains(x),
    ensures
        !graph_has_cycle(g),
{
    if graph_has_cycle(g) {
        let p = choose|p: Seq<usize>| #[trigger] is_walk(g, p) && g[p.last() as int].contains(p[0]);
        lemma_topological_positions(g, order, p, p.len() - 1);
        let (i, j) = choose|i: int, j: int| 0 <= i < order.len() && 0 <= j < order.len()
            && order[i] == p[0] && order[j] == p[p.len() - 1] && j <= i - (p.len() - 1);
        assert(g[order[j] as int].contains(order[i]));
    }
}

/// A finished search (every node done, nothing on the stack) has listed the
/// nodes in a topological order.
proof fn lemma_finished_search_is_topological(g: Seq<Seq<usize>>, visited: Seq<u8>, order: Seq<usize>)
    requires
        dfs_state(g, visited, order, Seq::empty()),
        forall|i: int| 0 <= i < g.len() ==> #[trigger] visited[i] == 2,
        g.len() <= usize::MAX,
    ensures
        is_topological_order(g, order),
        forall|x: usize| x < g.len() ==> order.contains(x),
{
    assert forall|x: usize| x < g.len() implies order.contains(x) by {
        assert(visited[x as int] == 2);
    }
    lemma_covering_len(order, g.len());
}

/// A module of at most one function has a cycle or is in call order.
proof fn lemma_small_graph(g: Seq<Seq<usize>>)
    requires
        g.len() <= 1,
        edges_in_range(g),
    ensures
        graph_has_cycle(g) || edges_go_down(g),
{
    if g.len() == 1 && g[0].len() > 0 {
        assert(g[0][0] < 1);
        let p = seq![0usize];
        assert(is_walk(g, p));
        assert(g[p.last() as int].contains(p[0]));
    }
}

/// After renumbering along a topological order, every call goes to an
/// earlier function.
proof fn lemma_reordered_goes_down(a: Module, b: Module, perm: Seq<usize>, remap: Seq<usize>)
    requires
        reorders_functions(a, b, perm, remap),
        is_topological_order(call_graph(a.functions@), perm),
        forall|x: usize| x < a.functions@.len() ==> perm.contains(x),
        edges_in_range(call_graph(a.functions@)),
    ensures
        edges_go_down(call_graph(b.functions@)),
{
    let g = call_graph(a.functions@);
    let h = call_graph(b.functions@);
    assert forall|u: int, k: int| 0 <= u < h.len() && 0 <= k < h[u].len() implies #[trigger] h[u][k] < u by {
        let src = perm[u] as int;
        lemma_remapped_block_calls(a.functions@[src].body@, b.functions@[u].body@, remap);
        let w = g[src][k];
        assert(h[u][k] == remap[w as int]);
        assert(g[src].contains(w));
        assert(w < g.len());
        assert(perm.contains(w));
        let j = choose|j: int| 0 <= j < perm.len() && perm[j] == w;
        assert(remap[perm[j] as int] == j);
        assert(g[perm[u] as int].contains(perm[j]));
    }
}


/// Sorting a module that has already been sorted changes nothing: its
/// functions stay as they are, and so do its declarations.
pub proof fn lemma_sorting_is_idempotent(
    a: Module,
    a_decls: Seq<(String, FunctionDeclaration)>,
    b: Module,
    b_decls: Seq<(String, FunctionDeclaration)>,
    c: Module,
    c_decls: Seq<(String, FunctionDeclaration)>,
)
    requires
        sorted_in_call_order(a, a_decls, b, b_decls),
        sorted_in_call_order(b, b_decls, c, c_decls),
    ensures
        c.functions == b.functions,
        c.spans == b.spans,
        c_decls == b_decls,
{
    let g = call_graph(a.functions@);
    if graph_has_cycle(g) {
        assert(b.functions == a.functions);
        assert(call_graph(b.functions@) == g);
    }
}

/// The call results of renumbered expressions are the renumbered call results.
proof fn lemma_call_results_remapped(es: Seq<Expression>, r: Seq<usize>)
    ensures
        call_results(es.map_values(|e: Expression| remapped_expr(e, r)))
            == call_results(es).map_values(|h: usize| r[h as int]),
    decreases es.len(),
{
    let m = es.map_values(|e: Expression| remapped_expr(e, r));
    if es.len() > 0 {
        assert(m.drop_last() =~= es.drop_last().map_values(|e: Expression| remapped_expr(e, r)));
        lemma_call_results_remapped(es.drop_last(), r);
        assert(m.last() == remapped_expr(es.last(), r));
    }
    assert(call_results(m) =~= call_results(es).map_values(|h: usize| r[h as int]));
}

/// A renumbering sends every handle to a handle.
proof fn lemma_renumbering_in_range(perm: Seq<usize>, remap: Seq<usize>, n: int, h: usize)
    requires
        is_renumbering(perm, remap, n),
        h < n,
    ensures
        remap[h as int] < n,
{
    assert(perm.contains(h));
    let j = choose|j: int| 0 <= j < perm.len() && perm[j] == h;
    assert(remap[perm[j] as int] == j);
}

/// After sorting, every function handle still names a function.
pub proof fn lemma_sorted_handles_valid(
    a: Module,
    a_decls: Seq<(String, FunctionDeclaration)>,
    b: Module,
    b_decls: Seq<(String, FunctionDeclaration)>,
)
    requires
        sorted_in_call_order(a, a_decls, b, b_decls),
        module_handles_valid(a),
        declarations_valid(a_decls, a.functions@.len() as int),
    ensures
        b.functions@.len() == a.functions@.len(),
        module_handles_valid(b),
        declarations_valid(b_decls, b.functions@.len() as int),
{
    let n = a.functions@.len() as int;
    let g = call_graph(a.functions@);
    if !(b.functions == a.functions && b.spans == a.spans && b_decls == a_decls) {
        let perm = depth_first_order(g);
        let remap = choose|remap: Seq<usize>|
            #[trigger] reorders_functions(a, b, perm, remap) && remapped_declarations(a_decls, b_decls, remap);
        assert forall|k: int| 0 <= k < n implies {
            &&& all_below(block_calls(#[trigger] b.functions@[k].body@), n)
            &&& all_below(call_results(b.functions@[k].expressions@), n)
        } by {
            let src = perm[k] as int;
            lemma_remapped_block_calls(a.functions@[src].body@, b.functions@[k].body@, remap);
            lemma_call_results_remapped(a.functions@[src].expressions@, remap);
            let ca = block_calls(a.functions@[src].body@);
            let ra = call_results(a.functions@[src].expressions@);
            assert(all_below(ca, n) && all_below(ra, n));
            assert forall|m: int| 0 <= m < ca.len() implies #[trigger] block_calls(b.functions@[k].body@)[m] < n by {
                lemma_renumbering_in_range(perm, remap, n, ca[m]);
            }
            assert forall|m: int| 0 <= m < ra.len() implies #[trigger] call_results(b.functions@[k].expressions@)[m] < n by {
                lemma_renumbering_in_range(perm, remap, n, ra[m]);
            }
        }
        assert forall|i: int, j: int|
            0 <= i < b_decls.len() && 0 <= j < b_decls[i].1.overloads@.len()
                && (#[trigger] b_decls[i].1.overloads@[j]).kind is Call
            implies b_decls[i].1.overloads@[j].kind->Call_0 < n by {
            assert(remapped_overload(a_decls[i].1.overloads@[j], b_decls[i].1.overloads@[j], remap));
            let h = a_decls[i].1.overloads@[j].kind->Call_0;
            lemma_renumbering_in_range(perm, remap, n, h);
        }
    }
}

/// After sorting, every call that stores its result still names the
/// expression that holds the result of the function it calls.
pub proof fn lemma_sorting_keeps_call_results(
    a: Module,
    a_decls: Seq<(String, FunctionDeclaration)>,
    b: Module,
    b_decls: Seq<(String, FunctionDeclaration)>,
)
    requires
        sorted_in_call_order(a, a_decls, b, b_decls),
        module_handles_valid(a),
        forall|k: int| 0 <= k < a.functions@.len()
            ==> results_agree_block(#[trigger] a.functions@[k].body@, a.functions@[k].expressions@),
    ensures
        b.functions@.len() == a.functions@.len(),
        forall|k: int| 0 <= k < b.functions@.len()
            ==> results_agree_block(#[trigger] b.functions@[k].body@, b.functions@[k].expressions@),
{
    if !(b.functions == a.functions && b.spans == a.spans && b_decls == a_decls) {
        let perm = depth_first_order(call_graph(a.functions@));
        let remap = choose|remap: Seq<usize>|
            #[trigger] reorders_functions(a, b, perm, remap) && remapped_declarations(a_decls, b_decls, remap);
        assert forall|k: int| 0 <= k < b.functions@.len()
            implies results_agree_block(#[trigger] b.functions@[k].body@, b.functions@[k].expressions@) by {
            let src = perm[k] as int;
            lemma_renumbering_keeps_results_block(
                a.functions@[src].body@,
                b.functions@[k].body@,
                a.functions@[src].expressions@,
                remap,
            );
        }
    }
}

/// `b` and `c` hold functions with the same content, in the same order,
/// with the same spans.
pub open spec fn same_functions(b: Module, c: Module) -> bool {
    &&& b.functions@.len() == c.functions@.len()
    &&& b.spans@ == c.spans@
    &&& forall|k: int| 0 <= k < b.functions@.len() ==> {
        &&& (#[trigger] b.functions@[k]).name == c.functions@[k].name
        &&& b.functions@[k].expressions@ == c.functions@[k].expressions@
        &&& block_model(b.functions@[k].body@) == block_model(c.functions@[k].body@)
    }
}

/// `b` and `c` declare the same names with the same overloads.
pub open spec fn same_declarations(b: Seq<(String, FunctionDeclaration)>, c: Seq<(String, FunctionDeclaration)>) -> bool {
    &&& b.len() == c.len()
    &&& forall|i: int| 0 <= i < b.len() ==> {
        &&& (#[trigger] b[i]).0 == c[i].0
        &&& b[i].1.overloads@.len() == c[i].1.overloads@.len()
        &&& forall|j: int| 0 <= j < b[i].1.overloads@.len() ==> {
            &&& (#[trigger] b[i].1.overloads@[j]).kind == c[i].1.overloads@[j].kind
            &&& b[i].1.overloads@[j].parameters == c[i].1.overloads@[j].parameters
            &&& b[i].1.overloads@[j].defined == c[i].1.overloads@[j].defined
            &&& b[i].1.overloads@[j].internal == c[i].1.overloads@[j].internal
            &&& b[i].1.overloads@[j].void == c[i].1.overloads@[j].void
        }
    }
}

/// Sorting is determined by what is sorted: any two results of sorting the
/// same module and declarations have the same content.
pub proof fn lemma_sorting_determined(
    a: Module,
    a_decls: Seq<(String, FunctionDeclaration)>,
    b: Module,
    b_decls: Seq<(String, FunctionDeclaration)>,
    c: Module,
    c_decls: Seq<(String, FunctionDeclaration)>,
)
    requires
        sorted_in_call_order(a, a_decls, b, b_decls),
        sorted_in_call_order(a, a_decls, c, c_decls),
    ensures
        same_functions(b, c),
        same_declarations(b_decls, c_decls),
{
    let g = call_graph(a.functions@);
    let n = a.functions@.len() as int;
    assert(a.functions.len() == n);
    let b_same = b.functions == a.functions && b.spans == a.spans && b_decls == a_decls;
    let c_same = c.functions == a.functions && c.spans == a.spans && c_decls == a_decls;
    if b_same && c_same {
        assert(same_functions(b, c));
    } else if !b_same && !c_same {
        let perm = depth_first_order(g);
        let rb = choose|remap: Seq<usize>|
            #[trigger] reorders_functions(a, b, perm, remap) && remapped_declarations(a_decls, b_decls, remap);
        let rc = choose|remap: Seq<usize>|
            #[trigger] reorders_functions(a, c, perm, remap) && remapped_declarations(a_decls, c_decls, remap);
        assert forall|h: int| 0 <= h < n implies rb[h] == rc[h] by {
            assert(perm.contains(h as usize));
            let j = choose|j: int| 0 <= j < perm.len() && perm[j] == h as usize;
            assert(rb[perm[j] as int] == j && rc[perm[j] as int] == j);
        }
        assert(rb =~= rc);
        assert forall|k: int| 0 <= k < n implies
            block_model(#[trigger] b.functions@[k].body@) == block_model(c.functions@[k].body@) by {
            lemma_renumbering_determined_block(a.functions@[perm[k] as int].body@, b.functions@[k].body@, c.functions@[k].body@, rb);
        }
        assert forall|k: int| 0 <= k < n implies b.spans@[k] == c.spans@[k] by {
            assert(b.functions@[k].name == a.functions@[perm[k] as int].name);
            assert(c.functions@[k].name == a.functions@[perm[k] as int].name);
        }
        assert(b.spans@ =~= c.spans@);
        assert forall|i: int, j: int| 0 <= i < b_decls.len() && 0 <= j < b_decls[i].1.overloads@.len()
            implies (#[trigger] b_decls[i].1.overloads@[j]).kind == c_decls[i].1.overloads@[j].kind by {
            assert(remapped_overload(a_decls[i].1.overloads@[j], b_decls[i].1.overloads@[j], rb));
            assert(remapped_overload(a_decls[i].1.overloads@[j], c_decls[i].1.overloads@[j], rb));
        }
    } else if b_same {
        assert(graph_has_cycle(g) || edges_go_down(g)) by {
            if !graph_has_cycle(g) {
                assert(call_graph(b.functions@) == g);
            }
        }
    } else {
        assert(graph_has_cycle(g) || edges_go_down(g)) by {
            if !graph_has_cycle(g) {
                assert(call_graph(c.functions@) == g);
            }
        }
    }
}

/// Where every edge of the call graph goes down, every call statement of
/// every body, at any depth and whatever its arguments and result, calls a
/// function at a lower index than the function holding it.
pub proof fn lemma_calls_go_down(fs: Seq<Function>)
    requires
        edges_go_down(call_graph(fs)),
    ensures
        forall|k: int, f: usize| 0 <= k < fs.len() && #[trigger] block_has_call(fs[k].body@, f) ==> f < k,
{
    let g = call_graph(fs);
    assert forall|k: int, f: usize| 0 <= k < fs.len() && #[trigger] block_has_call(fs[k].body@, f) implies f < k by {
        lemma_calls_are_call_statements(fs[k].body@);
        assert(g.len() == fs.len());
        assert(g[k] == block_calls(fs[k].body@));
        assert(block_calls(fs[k].body@).contains(f));
        let m = choose|m: int| 0 <= m < g[k].len() && g[k][m] == f;
        assert(0 <= m < g[k].len());
        assert(g[k][m] < k);
    }
}

/// After sorting a module whose calls form no cycle, every call statement
/// of every body, at any depth and whatever its arguments and result, calls
/// a function at a lower index than the function holding it.
pub proof fn lemma_sorted_calls_go_down(
    a: Module,
    a_decls: Seq<(String, FunctionDeclaration)>,
    b: Module,
    b_decls: Seq<(String, FunctionDeclaration)>,
)
    requires
        sorted_in_call_order(a, a_decls, b, b_decls),
        !graph_has_cycle(call_graph(a.functions@)),
    ensures
        forall|k: int, f: usize| 0 <= k < b.functions@.len() && #[trigger] block_has_call(b.functions@[k].body@, f)
            ==> f < k,
{
    lemma_calls_go_down(b.functions@);
}

/// After sorting a module whose calls form no cycle, the first function is
/// the one reached from the first function of the module by following, in
/// each function, its first call, until a function that calls nothing: the
/// depth-first search starts from the first function and goes down the
/// first call of each function it meets.
pub proof fn lemma_sorted_module_starts_with_first_leaf(
    a: Module,
    a_decls: Seq<(String, FunctionDeclaration)>,
    b: Module,
    b_decls: Seq<(String, FunctionDeclaration)>,
)
    requires
        sorted_in_call_order(a, a_decls, b, b_decls),
        !graph_has_cycle(call_graph(a.functions@)),
        module_handles_valid(a),
        0 < a.functions@.len() <= usize::MAX,
    ensures
        ({
            let leaf = first_edge_end(call_graph(a.functions@), 0, a.functions@.len());
            &&& leaf < a.functions@.len()
            &&& forall|f: usize| !block_has_call(a.functions@[leaf as int].body@, f)
            &&& b.functions@.len() == a.functions@.len()
            &&& b.functions@[0].name == a.functions@[leaf as int].name
            &&& b.spans@[0] == a.spans@[leaf as int]
        }),
{
    let g = call_graph(a.functions@);
    let n = a.functions@.len();
    assert(g.len() == n);
    assert forall|u: int, k: int| 0 <= u < g.len() && 0 <= k < g[u].len() implies #[trigger] g[u][k] < g.len() by {
        assert(g[u] == block_calls(a.functions@[u].body@));
        assert(all_below(block_calls(a.functions@[u].body@), n as int));
    }
    let leaf = first_edge_end(g, 0, n);
    if b.functions == a.functions && b.spans == a.spans && b_decls == a_decls {
        assert(edges_go_down(g));
        assert(g[0].len() == 0) by {
            if g[0].len() > 0 {
                assert(g[0][0] < 0);
            }
        }
        assert(leaf == 0);
    } else {
        let perm = depth_first_order(g);
        let remap = choose|remap: Seq<usize>|
            #[trigger] reorders_functions(a, b, perm, remap) && remapped_declarations(a_decls, b_decls, remap);
        let gb = call_graph(b.functions@);
        assert(edges_go_down(gb));
        assert(reorders_functions(a, b, perm, remap));
        assert(is_renumbering(perm, remap, n as int));
        let rank = Seq::new(n, |x: int| remap[x] as int);
        assert forall|x: int| 0 <= x < g.len() implies 0 <= #[trigger] rank[x] < g.len() by {
            lemma_renumbering_in_range(perm, remap, n as int, x as usize);
        }
        assert forall|u: int, k: int| 0 <= u < g.len() && 0 <= k < g[u].len()
            implies rank[#[trigger] g[u][k] as int] < rank[u] by {
            let uu = u as usize;
            assert(uu < n);
            assert(perm.contains(uu));
            let j = choose|j: int| 0 <= j < perm.len() && perm[j] == uu;
            assert(remap[perm[j] as int] == j);
            assert(perm[j] as int == u);
            assert(remapped_block(a.functions@[perm[j] as int].body@, (#[trigger] b.functions@[j]).body@, remap));
            lemma_remapped_block_calls(a.functions@[u].body@, b.functions@[j].body@, remap);
            assert(gb[j] == block_calls(b.functions@[j].body@));
            assert(g[u] == block_calls(a.functions@[u].body@));
            assert(gb[j][k] == remap[g[u][k] as int]);
            assert(gb[j][k] < j);
        }
        assert(ranks_edges_down(g, rank));
        lemma_depth_first_order_starts_at_first_edge_end(g, rank);
    }
    lemma_depth_first_leaf_has_no_calls(g, a.functions@, leaf);
}

/// A function whose row of the call graph is empty holds no call statement.
proof fn lemma_depth_first_leaf_has_no_calls(g: Seq<Seq<usize>>, fs: Seq<Function>, leaf: usize)
    requires
        g == call_graph(fs),
        leaf < fs.len(),
        g[leaf as int].len() == 0,
    ensures
        forall|f: usize| !block_has_call(fs[leaf as int].body@, f),
{
    lemma_calls_are_call_statements(fs[leaf as int].body@);
    assert(g[leaf as int] == block_calls(fs[leaf as int].body@));
    assert forall|f: usize| !block_has_call(fs[leaf as int].body@, f) by {
        if block_has_call(fs[leaf as int].body@, f) {
            assert(block_calls(fs[leaf as int].body@).contains(f));
        }
    }
}

/// Renumbering keeps every builtin (macro) overload as it was, and sends the
/// handle of every call overload through the map; names and the other
/// fields of the overloads stay.
pub proof fn lemma_renumbering_keeps_builtins(
    a: Seq<(String, FunctionDeclaration)>,
    b: Seq<(String, FunctionDeclaration)>,
    r: Seq<usize>,
)
    requires
        remapped_declarations(a, b, r),
    ensures
        b.len() == a.len(),
        forall|i: int, j: int| 0 <= i < a.len() && 0 <= j < a[i].1.overloads@.len() ==> {
            &&& b[i].0 == a[i].0
            &&& b[i].1.overloads@.len() == a[i].1.overloads@.len()
            &&& ((#[trigger] a[i].1.overloads@[j]).kind is Macro ==> b[i].1.overloads@[j].kind == a[i].1.overloads@[j].kind)
            &&& (a[i].1.overloads@[j].kind matches FunctionKind::Call(h)
                ==> b[i].1.overloads@[j].kind == FunctionKind::Call(r[h as int]))
            &&& b[i].1.overloads@[j].defined == a[i].1.overloads@[j].defined
            &&& b[i].1.overloads@[j].parameters == a[i].1.overloads@[j].parameters
            &&& b[i].1.overloads@[j].internal == a[i].1.overloads@[j].internal
            &&& b[i].1.overloads@[j].void == a[i].1.overloads@[j].void
        },
{
    assert forall|i: int, j: int| 0 <= i < a.len() && 0 <= j < a[i].1.overloads@.len() implies {
        &&& b[i].0 == a[i].0
        &&& b[i].1.overloads@.len() == a[i].1.overloads@.len()
        &&& ((#[trigger] a[i].1.overloads@[j]).kind is Macro ==> b[i].1.overloads@[j].kind == a[i].1.overloads@[j].kind)
        &&& (a[i].1.overloads@[j].kind matches FunctionKind::Call(h)
            ==> b[i].1.overloads@[j].kind == FunctionKind::Call(r[h as int]))
        &&& b[i].1.overloads@[j].defined == a[i].1.overloads@[j].defined
        &&& b[i].1.overloads@[j].parameters == a[i].1.overloads@[j].parameters
        &&& b[i].1.overloads@[j].internal == a[i].1.overloads@[j].internal
        &&& b[i].1.overloads@[j].void == a[i].1.overloads@[j].void
    } by {
        assert(remapped_overload(a[i].1.overloads@[j], b[i].1.overloads@[j], r));
        if let FunctionKind::Macro(m) = a[i].1.overloads@[j].kind {
            assert(remapped_kind(FunctionKind::Macro(m), r) == FunctionKind::Macro(m));
        }
    }
}

/// Sorting keeps every builtin (macro) overload of the declarations as it
/// was, under the same name at the same place.
pub proof fn lemma_sorting_keeps_builtins(
    a: Module,
    a_decls: Seq<(String, FunctionDeclaration)>,
    b: Module,
    b_decls: Seq<(String, FunctionDeclaration)>,
)
    requires
        sorted_in_call_order(a, a_decls, b, b_decls),
    ensures
        b_decls.len() == a_decls.len(),
        forall|i: int, j: int| 0 <= i < a_decls.len() && 0 <= j < a_decls[i].1.overloads@.len()
            && (#[trigger] a_decls[i].1.overloads@[j]).kind is Macro ==> {
            &&& b_decls[i].0 == a_decls[i].0
            &&& b_decls[i].1.overloads@.len() == a_decls[i].1.overloads@.len()
            &&& b_decls[i].1.overloads@[j].kind == a_decls[i].1.overloads@[j].kind
        },
{
    if !(b.functions == a.functions && b.spans == a.spans && b_decls == a_decls) {
        let perm = depth_first_order(call_graph(a.functions@));
        let remap = choose|remap: Seq<usize>|
            #[trigger] reorders_functions(a, b, perm, remap) && remapped_declarations(a_decls, b_decls, remap);
        lemma_renumbering_keeps_builtins(a_decls, b_decls, remap);
    }
}

// ---------------------------------------------------------------------------
// The sort

/// Reorders the functions of `module` so that callees come before callers
/// (a function's handle is always less than that of every function that
/// calls it), and renumbers the function handles in bodies, expressions and
/// `lookup_function` to match. Where the calls form a cycle (mutual
/// recursion) the functions keep their order; so they do where they are
/// already in call order.
pub fn sort_functions_topologically(
    module: &mut Module,
    lookup_function: &mut Vec<(String, FunctionDeclaration)>,
)
    requires
        module_handles_valid(*old(module)),
        declarations_valid(old(lookup_function)@, old(module).functions@.len() as int),
    ensures
        sorted_in_call_order(*old(module), old(lookup_function)@, *final(module), final(lookup_function)@),
        final(module).entry_points == old(module).entry_points,
        module_handles_valid(*final(module)),
        declarations_valid(final(lookup_function)@, final(module).functions@.len() as int),
{
    let ghost g = call_graph(module.functions@);
    let count = module.functions.len();
    proof {
        assert(edges_in_range(g)) by {
            assert forall|u: int, k: int| 0 <= u < g.len() && 0 <= k < g[u].len() implies #[trigger] g[u][k] < g.len() by {
                assert(all_below(block_calls(module.functions@[u].body@), count as int));
            }
        }
    }
    if count <= 1 {
        proof {
            lemma_small_graph(g);
        }
        return;
    }

    // The call graph: adj[caller] lists the callees.
    let mut adj: Vec<Vec<usize>> = Vec::with_capacity(count);
    let mut i: usize = 0;
    while i < count
        invariant
            count == module.functions@.len(),
            g == call_graph(module.functions@),
            i <= count,
            adj@.len() == i,
            forall|j: int| 0 <= j < i ==> (#[trigger] adj@[j])@ == g[j],
        decreases count - i,
    {
        let mut callees: Vec<usize> = Vec::new();
        collect_call_handles(&module.functions[i].body, &mut callees);
        adj.push(callees);
        i += 1;
    }
    proof {
        assert(graph_of(adj@) =~= g);
    }

    // Depth-first search; its post-order puts callees before callers.
    let mut visited: Vec<u8> = Vec::with_capacity(count);
    let mut i: usize = 0;
    while i < count
        invariant
            i <= count,
            visited@.len() == i,
            forall|j: int| 0 <= j < i ==> #[trigger] visited@[j] == 0,
        decreases count - i,
    {
        visited.push(0);
        i += 1;
    }
    let mut sorted_order: Vec<usize> = Vec::with_capacity(count);
    let mut has_cycle = false;
    proof {
        assert(dfs_state(g, visited@, sorted_order@, Seq::empty()));
        assert(visited@ =~= Seq::new(g.len(), |j: int| 0u8));
        assert(sorted_order@ + dfs_from(g, visited@, 0).1 =~= dfs_from(g, visited@, 0).1);
    }
    let mut i: usize = 0;
    while i < count
        invariant
            count == module.functions@.len(),
            count == adj@.len(),
            g == call_graph(module.functions@),
            graph_of(adj@) == g,
            edges_in_range(g),
            i <= count,
            !has_cycle,
            dfs_state(g, visited@, sorted_order@, Seq::empty()),
            forall|j: int| 0 <= j < i ==> #[trigger] visited@[j] == 2,
            edges_go_down(g) ==> {
                &&& sorted_order@ == Seq::new(i as nat, |j: int| j as usize)
                &&& forall|j: int| i <= j < count ==> #[trigger] visited@[j] == 0
            },
            ({
                let full = dfs_from(g, Seq::new(g.len(), |j: int| 0u8), 0);
                let rest = dfs_from(g, visited@, i as int);
                &&& full.1 == sorted_order@ + rest.1
                &&& full.2 == rest.2
            }),
            *module == *old(module),
            *lookup_function == *old(lookup_function),
            module_handles_valid(*old(module)),
            declarations_valid(old(lookup_function)@, count as int),
        decreases count - i,
    {
        if visited[i] == 0 {
            let ghost v0 = visited@;
            let ghost o0 = sorted_order@;
            let ghost r = dfs_from(g, v0, i as int);
            proof {
                if edges_go_down(g) {
                    assert forall|k: int| 0 <= k < adj@[i as int]@.len()
                        implies v0[#[trigger] adj@[i as int]@[k] as int] == 2 by {
                        assert(g[i as int][k] < i);
                    }
                }
            }
            topological_dfs(i, adj.as_slice(), visited.as_mut_slice(), &mut sorted_order, &mut has_cycle, Ghost(Seq::empty()));
            if has_cycle {
                return;
            }
            proof {
                let r1 = crate::callgraph::dfs_visit(g, v0, i as usize);
                let rest = dfs_from(g, visited@, i + 1);
                assert(r.1 =~= r1.1 + rest.1);
                assert(o0 + r.1 =~= sorted_order@ + rest.1);
            }
            proof {
                if edges_go_down(g) {
                    assert(sorted_order@ =~= Seq::new((i + 1) as nat, |j: int| j as usize));
                }
            }
        } else {
            proof {
                assert(visited@[i as int] == 2);
            }
        }
        i += 1;
    }
    proof {
        lemma_finished_search_is_topological(g, visited@, sorted_order@);
        lemma_topological_order_acyclic(g, sorted_order@);
        assert(sorted_order@ =~= depth_first_order(g));
    }

    // Already in order (the common case: no forward references)?
    let mut already_sorted = true;
    let mut i: usize = 0;
    while i < count
        invariant
            i <= count,
            sorted_order@.len() == count,
            already_sorted <==> forall|j: int| 0 <= j < i ==> #[trigger] sorted_order@[j] == j,
        decreases count - i,
    {
        if sorted_order[i] != i {
            already_sorted = false;
        }
        i += 1;
    }
    if already_sorted {
        proof {
            let o = sorted_order@;
            assert forall|u: int, k: int| 0 <= u < g.len() && 0 <= k < g[u].len() implies #[trigger] g[u][k] < u by {
                let w = g[u][k] as int;
                assert(o[u] == u && o[w] == w);
                assert(g[o[u] as int].contains(o[w]));
            }
        }
        return;
    }
    proof {
        if edges_go_down(g) {
            assert(sorted_order@ =~= Seq::new(count as nat, |j: int| j as usize));
            assert(false);
        }
    }

    // remap[old handle] = new handle
    let mut remap: Vec<usize> = Vec::with_capacity(count);
    let mut i: usize = 0;
    while i < count
        invariant
            i <= count,
            remap@.len() == i,
        decreases count - i,
    {
        remap.push(0);
        i += 1;
    }
    let mut new_idx: usize = 0;
    while new_idx < count
        invariant
            new_idx <= count,
            remap@.len() == count,
            is_topological_order(g, sorted_order@),
            sorted_order@ == depth_first_order(g),
            g.len() == count,
            forall|j: int| 0 <= j < new_idx ==> remap@[#[trigger] sorted_order@[j] as int] == j,
        decreases count - new_idx,
    {
        let old_idx = sorted_order[new_idx];
        remap[old_idx] = new_idx;
        proof {
            assert forall|j: int| 0 <= j < new_idx + 1 implies remap@[#[trigger] sorted_order@[j] as int] == j by {
                if j < new_idx {
                    assert(sorted_order@[j] != sorted_order@[new_idx as int]);
                }
            }
        }
        new_idx += 1;
    }
    let ghost perm = sorted_order@;
    proof {
        lemma_finished_search_is_topological(g, visited@, sorted_order@);
    }
    assert(is_renumbering(perm, remap@, count as int));

    // Take the functions out with their spans, then put them back in order.
    let ghost old_fns = module.functions@;
    let ghost old_spans = module.spans@;
    let mut functions_with_spans: Vec<(Function, Span)> = Vec::with_capacity(count);
    let mut i: usize = 0;
    while i < count
        invariant
            i <= count,
            module.functions@.len() == count,
            module.spans@ == old_spans,
            old_spans.len() == count,
            old_fns.len() == count,
            old_fns == old(module).functions@,
            old_spans == old(module).spans@,
            module.entry_points == old(module).entry_points,
            functions_with_spans@.len() == i,
            forall|j: int| 0 <= j < i ==> #[trigger] functions_with_spans@[j] == (old_fns[j], old_spans[j]),
            forall|j: int| i <= j < count ==> #[trigger] module.functions@[j] == old_fns[j],
        decreases count - i,
    {
        let mut function = Function::default();
        std::mem::swap(&mut module.functions[i], &mut function);
        let span = module.spans[i];
        functions_with_spans.push((function, span));
        i += 1;
    }
    module.functions.clear();
    module.spans.clear();
    let mut k: usize = 0;
    while k < count
        invariant
            k <= count,
            sorted_order@ == perm,
            is_renumbering(perm, remap@, count as int),
            functions_with_spans@.len() == count,
            old_fns.len() == count,
            old_spans.len() == count,
            old_fns == old(module).functions@,
            old_spans == old(module).spans@,
            module.functions@.len() == k,
            module.spans@.len() == k,
            module.entry_points == old(module).entry_points,
            forall|j: int| 0 <= j < k ==> {
                &&& #[trigger] module.functions@[j] == old_fns[perm[j] as int]
                &&& module.spans@[j] == old_spans[perm[j] as int]
            },
            forall|m: int| 0 <= m < count && !perm.take(k as int).contains(m as usize)
                ==> #[trigger] functions_with_spans@[m] == (old_fns[m], old_spans[m]),
        decreases count - k,
    {
        let old_idx = sorted_order[k];
        proof {
            assert(!perm.take(k as int).contains(old_idx)) by {
                if perm.take(k as int).contains(old_idx) {
                    let j = choose|j: int| 0 <= j < k && perm.take(k as int)[j] == old_idx;
                    assert(perm[j] == perm[k as int]);
                }
            }
        }
        let mut entry = (Function::default(), Span::empty());
        std::mem::swap(&mut functions_with_spans[old_idx], &mut entry);
        let (function, span) = entry;
        module.functions.push(function);
        module.spans.push(span);
        proof {
            assert forall|m: int| 0 <= m < count && !perm.take(k + 1).contains(m as usize)
                implies #[trigger] functions_with_spans@[m] == (old_fns[m], old_spans[m]) by {
                assert(perm.take(k + 1)[k as int] == old_idx);
                assert(!perm.take(k as int).contains(m as usize)) by {
                    if perm.take(k as int).contains(m as usize) {
                        let j = choose|j: int| 0 <= j < k && perm.take(k as int)[j] == m;
                        assert(perm.take(k + 1)[j] == m);
                    }
                }
            }
        }
        k += 1;
    }

    // Renumber the handles in bodies and expressions.
    let mut k: usize = 0;
    while k < count
        invariant
            k <= count,
            is_renumbering(perm, remap@, count as int),
            module_handles_valid(*old(module)),
            old_fns.len() == count,
            old_spans.len() == count,
            old_fns == old(module).functions@,
            old_spans == old(module).spans@,
            module.functions@.len() == count,
            module.spans@.len() == count,
            module.entry_points == old(module).entry_points,
            forall|j: int| 0 <= j < count ==> {
                &&& (#[trigger] module.functions@[j]).name == old_fns[perm[j] as int].name
                &&& module.spans@[j] == old_spans[perm[j] as int]
            },
            forall|j: int| 0 <= j < k ==> {
                &&& (#[trigger] module.functions@[j]).expressions@
                    == old_fns[perm[j] as int].expressions@.map_values(|e| remapped_expr(e, remap@))
                &&& remapped_block(old_fns[perm[j] as int].body@, module.functions@[j].body@, remap@)
            },
            forall|j: int| k <= j < count ==> #[trigger] module.functions@[j] == old_fns[perm[j] as int],
        decreases count - k,
    {
        proof {
            let src = perm[k as int] as int;
            assert(all_below(block_calls(old_fns[src].body@), count as int));
        }
        remap_call_handles(&mut module.functions[k].body, remap.as_slice());
        remap_call_result_handles(&mut module.functions[k].expressions, remap.as_slice());
        k += 1;
    }
    assert(reorders_functions(*old(module), *module, perm, remap@));

    // Renumber the handles of the declarations, so that the entry point is
    // found under its new handle.
    let ghost old_decls = lookup_function@;
    let mut i: usize = 0;
    while i < lookup_function.len()
        invariant
            is_renumbering(perm, remap@, count as int),
            old_decls == old(lookup_function)@,
            declarations_valid(old_decls, count as int),
            lookup_function@.len() == old_decls.len(),
            i <= old_decls.len(),
            forall|m: int| i <= m < old_decls.len() ==> #[trigger] lookup_function@[m] == old_decls[m],
            forall|m: int| 0 <= m < i ==> {
                &&& (#[trigger] lookup_function@[m]).0 == old_decls[m].0
                &&& lookup_function@[m].1.overloads@.len() == old_decls[m].1.overloads@.len()
                &&& forall|j: int| 0 <= j < old_decls[m].1.overloads@.len() ==>
                    remapped_overload(old_decls[m].1.overloads@[j], #[trigger] lookup_function@[m].1.overloads@[j], remap@)
            },
        decreases old_decls.len() - i,
    {
        let ghost before = lookup_function@;
        let overloads = &mut lookup_function[i].1.overloads;
        let ghost os = overloads@;
        let mut j: usize = 0;
        while j < overloads.len()
            invariant
                os == old_decls[i as int].1.overloads@,
                overloads@.len() == os.len(),
                j <= os.len(),
                0 <= i < old_decls.len(),
                remap@.len() == count,
                declarations_valid(old_decls, count as int),
                forall|m: int| j <= m < os.len() ==> #[trigger] overloads@[m] == os[m],
                forall|m: int| 0 <= m < j ==> remapped_overload(os[m], #[trigger] overloads@[m], remap@),
            decreases os.len() - j,
        {
            if let FunctionKind::Call(handle) = overloads[j].kind {
                proof {
                    assert(old_decls[i as int].1.overloads@[j as int] == os[j as int]);
                }
                overloads[j].kind = FunctionKind::Call(remap[handle]);
            }
            j += 1;
        }
        i += 1;
    }
    proof {
        assert(remapped_declarations(old_decls, lookup_function@, remap@));
        lemma_reordered_goes_down(*old(module), *module, perm, remap@);
        lemma_sorted_handles_valid(*old(module), old(lookup_function)@, *module, lookup_function@);
    }
}

} // verus!
