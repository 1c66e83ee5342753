//! The call graph of a module and its depth-first topological order.

use vstd::prelude::*;
use crate::ir::{Statement, SwitchCase, block_calls, stmt_calls, cases_calls};

verus! {

/// Appends to `callees` the handle of every function that `block` calls,
/// nested blocks included, in the order in which the calls stand.
pub fn collect_call_handles(block: &Vec<Statement>, callees: &mut Vec<usize>)
    ensures
        final(callees)@ == old(callees)@ + block_calls(block@),
        forall|f: usize| #[trigger] block_has_call(block@, f) ==> final(callees)@.contains(f),
        forall|f: usize| #[trigger] final(callees)@.contains(f) ==> old(callees)@.contains(f) || block_has_call(block@, f),
    decreases block@,
{
    let mut i: usize = 0;
    while i < block.len()
        invariant
            i <= block@.len(),
            callees@ == old(callees)@ + block_calls(block@.take(i as int)),
        decreases block@.len() - i,
    {
        let ghost before = callees@;
        match &block[i] {
            Statement::Call { function, .. } => {
                callees.push(*function);
            },
            Statement::Block(inner) => {
                collect_call_handles(inner, callees);
            },
            Statement::If { accept, reject, .. } => {
                collect_call_handles(accept, callees);
                collect_call_handles(reject, callees);
            },
            Statement::Switch { cases, .. } => {
                collect_case_handles(cases, callees);
            },
            Statement::Loop { body, continuing, .. } => {
                collect_call_handles(body, callees);
                collect_call_handles(continuing, callees);
            },
            _ => {},
        }
        proof {
            assert(block@.take(i + 1).drop_last() =~= block@.take(i as int));
            assert(callees@ == before + stmt_calls(block@[i as int]));
            assert(callees@ =~= old(callees)@ + block_calls(block@.take(i + 1)));
        }
        i += 1;
    }
    proof {
        assert(block@.take(block@.len() as int) =~= block@);
        lemma_calls_are_call_statements(block@);
        lemma_concat_contains(old(callees)@, block_calls(block@));
    }
}

// ---------------------------------------------------------------------------
// The calls of a block are its call statements.

/// `b` holds a call statement of the function `f`, at any depth.
pub open spec fn block_has_call(b: Seq<Statement>, f: usize) -> bool
    decreases b,
{
    b.len() > 0 && (block_has_call(b.drop_last(), f) || stmt_has_call(b.last(), f))
}

/// `s` is a call statement of `f`, or holds one in a nested block.
pub open spec fn stmt_has_call(s: Statement, f: usize) -> bool
    decreases s,
{
    match s {
        Statement::Call { function, .. } => function == f,
        Statement::Block(inner) => block_has_call(inner@, f),
        Statement::If { accept, reject, .. } => block_has_call(accept@, f) || block_has_call(reject@, f),
        Statement::Switch { cases, .. } => cases_have_call(cases@, f),
        Statement::Loop { body, continuing, .. } => block_has_call(body@, f) || block_has_call(continuing@, f),
        _ => false,
    }
}

/// The body of one of the cases holds a call statement of `f`.
pub open spec fn cases_have_call(cs: Seq<SwitchCase>, f: usize) -> bool
    decreases cs,
{
    cs.len() > 0 && (cases_have_call(cs.drop_last(), f) || block_has_call(cs.last().body@, f))
}

/// A value is in a concatenation exactly when it is in one of the parts.
pub proof fn lemma_concat_contains(x: Seq<usize>, y: Seq<usize>)
    ensures
        forall|f: usize| #[trigger] (x + y).contains(f) <==> x.contains(f) || y.contains(f),
{
    assert forall|f: usize| #[trigger] (x + y).contains(f) <==> x.contains(f) || y.contains(f) by {
        if x.contains(f) {
            let m = choose|m: int| 0 <= m < x.len() && x[m] == f;
            assert((x + y)[m] == f);
        }
        if y.contains(f) {
            let m = choose|m: int| 0 <= m < y.len() && y[m] == f;
            assert((x + y)[x.len() + m] == f);
        }
        if (x + y).contains(f) {
            let m = choose|m: int| 0 <= m < (x + y).len() && (x + y)[m] == f;
            if m < x.len() {
                assert(x[m] == f);
            } else {
                assert(y[m - x.len()] == f);
            }
        }
    }
}

/// The call graph of a block holds a function exactly when some call
/// statement of the block, at any depth and whatever its arguments and
/// result, calls it.
pub proof fn lemma_calls_are_call_statements(b: Seq<Statement>)
    ensures
        forall|f: usize| #[trigger] block_calls(b).contains(f) <==> block_has_call(b, f),
    decreases b,
{
    if b.len() > 0 {
        lemma_calls_are_call_statements(b.drop_last());
        lemma_stmt_calls_are_call_statements(b.last());
        lemma_concat_contains(block_calls(b.drop_last()), stmt_calls(b.last()));
    }
    assert forall|f: usize| #[trigger] block_calls(b).contains(f) <==> block_has_call(b, f) by {
        if b.len() == 0 {
            assert(block_calls(b) =~= Seq::<usize>::empty());
        }
    }
}

pub proof fn lemma_stmt_calls_are_call_statements(s: Statement)
    ensures
        forall|f: usize| #[trigger] stmt_calls(s).contains(f) <==> stmt_has_call(s, f),
    decreases s,
{
    match s {
        Statement::Block(inner) => {
            lemma_calls_are_call_statements(inner@);
        },
        Statement::If { accept, reject, .. } => {
            lemma_calls_are_call_statements(accept@);
            lemma_calls_are_call_statements(reject@);
            lemma_concat_contains(block_calls(accept@), block_calls(reject@));
        },
        Statement::Switch { cases, .. } => {
            lemma_cases_calls_are_call_statements(cases@);
        },
        Statement::Loop { body, continuing, .. } => {
            lemma_calls_are_call_statements(body@);
            lemma_calls_are_call_statements(continuing@);
            lemma_concat_contains(block_calls(body@), block_calls(continuing@));
        },
        _ => {},
    }
    assert forall|f: usize| #[trigger] stmt_calls(s).contains(f) <==> stmt_has_call(s, f) by {
        match s {
            Statement::Call { function, .. } => {
                assert(stmt_calls(s) == seq![function]);
                assert(stmt_calls(s)[0] == function);
                assert(stmt_has_call(s, f) == (function == f));
                if function == f {
                    assert(stmt_calls(s).contains(f));
                }
                if stmt_calls(s).contains(f) {
                    let m = choose|m: int| 0 <= m < stmt_calls(s).len() && stmt_calls(s)[m] == f;
                    assert(m == 0);
                    assert(function == f);
                }
            },
            Statement::Block(inner) => {
                assert(stmt_calls(s) == block_calls(inner@));
                assert(block_calls(inner@).contains(f) <==> block_has_call(inner@, f));
            },
            Statement::If { accept, reject, .. } => {
                assert(stmt_calls(s) == block_calls(accept@) + block_calls(reject@));
                assert((block_calls(accept@) + block_calls(reject@)).contains(f)
                    <==> block_calls(accept@).contains(f) || block_calls(reject@).contains(f));
                assert(block_calls(accept@).contains(f) <==> block_has_call(accept@, f));
                assert(block_calls(reject@).contains(f) <==> block_has_call(reject@, f));
            },
            Statement::Switch { cases, .. } => {
                assert(stmt_calls(s) == cases_calls(cases@));
                assert(cases_calls(cases@).contains(f) <==> cases_have_call(cases@, f));
            },
            Statement::Loop { body, continuing, .. } => {
                assert(stmt_calls(s) == block_calls(body@) + block_calls(continuing@));
                assert((block_calls(body@) + block_calls(continuing@)).contains(f)
                    <==> block_calls(body@).contains(f) || block_calls(continuing@).contains(f));
                assert(block_calls(body@).contains(f) <==> block_has_call(body@, f));
                assert(block_calls(continuing@).contains(f) <==> block_has_call(continuing@, f));
            },
            _ => {
                assert(stmt_calls(s) =~= Seq::<usize>::empty());
            },
        }
    }
}

pub proof fn lemma_cases_calls_are_call_statements(cs: Seq<SwitchCase>)
    ensures
        forall|f: usize| #[trigger] cases_calls(cs).contains(f) <==> cases_have_call(cs, f),
    decreases cs,
{
    if cs.len() > 0 {
        lemma_cases_calls_are_call_statements(cs.drop_last());
        lemma_calls_are_call_statements(cs.last().body@);
        lemma_concat_contains(cases_calls(cs.drop_last()), block_calls(cs.last().body@));
    }
    assert forall|f: usize| #[trigger] cases_calls(cs).contains(f) <==> cases_have_call(cs, f) by {
        if cs.len() == 0 {
            assert(cases_calls(cs) =~= Seq::<usize>::empty());
        }
    }
}

/// Appends to `callees` the calls of the case bodies, case by case.
fn collect_case_handles(cases: &Vec<SwitchCase>, callees: &mut Vec<usize>)
    ensures
        final(callees)@ == old(callees)@ + cases_calls(cases@),
    decreases cases@,
{
    let mut j: usize = 0;
    while j < cases.len()
        invariant
            j <= cases@.len(),
            callees@ == old(callees)@ + cases_calls(cases@.take(j as int)),
        decreases cases@.len() - j,
    {
        let ghost before = callees@;
        collect_call_handles(&cases[j].body, callees);
        proof {
            assert(cases@.take(j + 1).drop_last() =~= cases@.take(j as int));
            assert(cases@.take(j + 1).last() == cases@[j as int]);
            assert(callees@ =~= old(callees)@ + cases_calls(cases@.take(j + 1)));
        }
        j += 1;
    }
    proof {
        assert(cases@.take(cases@.len() as int) =~= cases@);
    }
}


// ---------------------------------------------------------------------------
// Graphs as adjacency lists: node `u` has an edge to every node in `g[u]`.

/// The adjacency lists of `adj` as sequences.
pub open spec fn graph_of(adj: Seq<Vec<usize>>) -> Seq<Seq<usize>> {
    adj.map_values(|v: Vec<usize>| v@)
}

/// Every edge of `g` ends at a node of `g`.
pub open spec fn edges_in_range(g: Seq<Seq<usize>>) -> bool {
    forall|u: int, k: int| 0 <= u < g.len() && 0 <= k < g[u].len() ==> #[trigger] g[u][k] < g.len()
}

/// `p` is a nonempty walk in `g`: each node has an edge to the next.
pub open spec fn is_walk(g: Seq<Seq<usize>>, p: Seq<usize>) -> bool {
    &&& p.len() > 0
    &&& forall|k: int| 0 <= k < p.len() ==> #[trigger] p[k] < g.len()
    &&& forall|k: int| 0 <= k < p.len() - 1 ==> g[#[trigger] p[k] as int].contains(p[k + 1])
}

/// `g` has a cycle: a walk whose last node has an edge back to its first.
pub open spec fn graph_has_cycle(g: Seq<Seq<usize>>) -> bool {
    exists|p: Seq<usize>| #[trigger] is_walk(g, p) && g[p.last() as int].contains(p[0])
}

/// `order` lists every node of `g` once, and every edge goes from a node to
/// one listed before it.
pub open spec fn is_topological_order(g: Seq<Seq<usize>>, order: Seq<usize>) -> bool {
    &&& order.len() == g.len()
    &&& order.no_duplicates()
    &&& forall|k: int| 0 <= k < order.len() ==> #[trigger] order[k] < g.len()
    &&& forall|i: int, j: int| #![trigger order[i], order[j]]
        0 <= i < order.len() && 0 <= j < order.len() && g[order[i] as int].contains(order[j])
            ==> j < i
}

/// Every edge of `g` goes to a lower node: `0, 1, 2, ...` is already a
/// topological order.
pub open spec fn edges_go_down(g: Seq<Seq<usize>>) -> bool {
    forall|u: int, k: int| 0 <= u < g.len() && 0 <= k < g[u].len() ==> #[trigger] g[u][k] < u
}

/// The number of unvisited (zero) marks.
pub open spec fn unvisited(v: Seq<u8>) -> nat {
    Set::new(|i: int| 0 <= i < v.len() && v[i] == 0).len()
}

/// The state of a depth-first search that has found no cycle yet: marks are
/// 0 (unvisited), 1 (on the stack) or 2 (done); `order` lists the done nodes
/// once each, every node after those it has edges to; `stack` lists the nodes
/// in progress, each with an edge to the next.
pub open spec fn dfs_state(g: Seq<Seq<usize>>, visited: Seq<u8>, order: Seq<usize>, stack: Seq<usize>) -> bool {
    &&& edges_in_range(g)
    &&& visited.len() == g.len()
    &&& forall|i: int| 0 <= i < visited.len() ==> #[trigger] visited[i] <= 2
    &&& order.no_duplicates()
    &&& forall|k: int| 0 <= k < order.len() ==> #[trigger] order[k] < g.len()
    &&& forall|i: int| 0 <= i < g.len() ==> (visited[i] == 2 <==> order.contains(i as usize))
    &&& stack.no_duplicates()
    &&& forall|k: int| 0 <= k < stack.len() ==> #[trigger] stack[k] < g.len()
    &&& forall|i: int| 0 <= i < g.len() ==> (visited[i] == 1 <==> stack.contains(i as usize))
    &&& forall|k: int| 0 <= k < stack.len() - 1 ==> g[#[trigger] stack[k] as int].contains(stack[k + 1])
    &&& forall|u: int, k: int|
        0 <= u < g.len() && 0 <= k < g[u].len() && visited[u] == 2 ==> visited[#[trigger] g[u][k] as int] == 2
    &&& forall|i: int, j: int| #![trigger order[i], order[j]]
        0 <= i < order.len() && 0 <= j < order.len() && g[order[i] as int].contains(order[j])
            ==> j < i
}

/// No mark goes back to unvisited.
pub open spec fn marks_kept(before: Seq<u8>, after: Seq<u8>) -> bool {
    &&& after.len() == before.len()
    &&& forall|i: int| 0 <= i < before.len() && before[i] != 0 ==> #[trigger] after[i] != 0
}

pub proof fn lemma_unvisited_shrinks(before: Seq<u8>, after: Seq<u8>, j: int)
    requires
        marks_kept(before, after),
        0 <= j < before.len(),
        before[j] == 0,
        after[j] != 0,
    ensures
        unvisited(after) < unvisited(before),
{
    let a = Set::new(|i: int| 0 <= i < after.len() && after[i] == 0);
    let b = Set::new(|i: int| 0 <= i < before.len() && before[i] == 0);
    assert(b.subset_of(vstd::set_lib::set_int_range(0, before.len() as int)));
    vstd::set_lib::lemma_int_range(0, before.len() as int);
    vstd::set_lib::lemma_len_subset(b, vstd::set_lib::set_int_range(0, before.len() as int));
    assert(a.subset_of(b.remove(j)));
    vstd::set_lib::lemma_len_subset(a, b.remove(j));
}

/// Marks that only move up leave no more unvisited nodes than before.
proof fn lemma_unvisited_no_more(before: Seq<u8>, after: Seq<u8>)
    requires
        marks_kept(before, after),
    ensures
        unvisited(after) <= unvisited(before),
{
    let a = Set::new(|i: int| 0 <= i < after.len() && after[i] == 0);
    let b = Set::new(|i: int| 0 <= i < before.len() && before[i] == 0);
    assert(b.subset_of(vstd::set_lib::set_int_range(0, before.len() as int)));
    vstd::set_lib::lemma_int_range(0, before.len() as int);
    vstd::set_lib::lemma_len_subset(b, vstd::set_lib::set_int_range(0, before.len() as int));
    assert(a.subset_of(b));
    vstd::set_lib::lemma_len_subset(a, b);
}

// ---------------------------------------------------------------------------
// The depth-first search, as a function of the graph and the marks.
//
// A search from `node` marks it 1 (in progress), searches from its
// successors in the order in which they are listed, skipping those already
// done (2); it stops at the first successor still in progress (a cycle).
// Otherwise it marks `node` 2 and lists it after everything listed while
// searching from its successors: a post-order.

/// The search from `node` over the marks `v`: the marks after it, the nodes
/// it lists (in the order in which they are finished), and whether it
/// stopped at a cycle.
pub open spec fn dfs_visit(g: Seq<Seq<usize>>, v: Seq<u8>, node: usize) -> (Seq<u8>, Seq<usize>, bool)
    decreases unvisited(v), 0int, 0int,
{
    if node < g.len() && node < v.len() && v[node as int] == 0 {
        proof {
            lemma_unvisited_shrinks(v, v.update(node as int, 1), node as int);
        }
        let r = dfs_successors(g, v.update(node as int, 1), node, 0);
        if r.2 {
            r
        } else {
            (r.0.update(node as int, 2), r.1.push(node), false)
        }
    } else {
        (v, Seq::empty(), false)
    }
}

/// The searches from the successors of `node`, from the `k`-th on, over the
/// marks `v`: the marks after them, the nodes they list, and whether one
/// stopped at a cycle (a successor in progress, or a cycle further on).
pub open spec fn dfs_successors(g: Seq<Seq<usize>>, v: Seq<u8>, node: usize, k: int) -> (Seq<u8>, Seq<usize>, bool)
    decreases unvisited(v), 1int, g[node as int].len() - k,
{
    if node < g.len() && 0 <= k < g[node as int].len() {
        let next = g[node as int][k];
        if next < v.len() && v[next as int] == 1 {
            (v, Seq::empty(), true)
        } else if next < v.len() && v[next as int] == 0 {
            let r1 = dfs_visit(g, v, next);
            if r1.2 {
                r1
            } else if unvisited(r1.0) <= unvisited(v) {
                // Always the case: the marks only move up.
                let r2 = dfs_successors(g, r1.0, node, k + 1);
                (r2.0, r1.1 + r2.1, r2.2)
            } else {
                r1
            }
        } else {
            dfs_successors(g, v, node, k + 1)
        }
    } else {
        (v, Seq::empty(), false)
    }
}

/// The search from `node` over any marks: `node` is marked in progress
/// whatever its mark was, then its successors are searched as in
/// [`dfs_visit`], which it is where `node` is unvisited.
pub open spec fn dfs_search(g: Seq<Seq<usize>>, v: Seq<u8>, node: usize) -> (Seq<u8>, Seq<usize>, bool) {
    if node < g.len() && node < v.len() {
        let r = dfs_successors(g, v.update(node as int, 1), node, 0);
        if r.2 {
            r
        } else {
            (r.0.update(node as int, 2), r.1.push(node), false)
        }
    } else {
        (v, Seq::empty(), false)
    }
}

/// A search from `node` can start in this state: the marks and the list are
/// those of a search that has found no cycle yet, `node` is unvisited, and
/// the node on top of the stack has an edge to it.
pub open spec fn search_ready(g: Seq<Seq<usize>>, visited: Seq<u8>, order: Seq<usize>, stack: Seq<usize>, node: usize) -> bool {
    &&& dfs_state(g, visited, order, stack)
    &&& visited[node as int] == 0
    &&& stack.len() > 0 ==> g[stack.last() as int].contains(node)
}

/// The searches from the nodes `i`, `i + 1`, ... in turn, each from a node
/// still unvisited, until one stops at a cycle: the marks after them, the
/// nodes they list, and whether one stopped at a cycle.
pub open spec fn dfs_from(g: Seq<Seq<usize>>, v: Seq<u8>, i: int) -> (Seq<u8>, Seq<usize>, bool)
    decreases g.len() - i,
{
    if 0 <= i < g.len() {
        if i < v.len() && v[i] == 0 {
            let r = dfs_visit(g, v, i as usize);
            if r.2 {
                r
            } else {
                let r2 = dfs_from(g, r.0, i + 1);
                (r2.0, r.1 + r2.1, r2.2)
            }
        } else {
            dfs_from(g, v, i + 1)
        }
    } else {
        (v, Seq::empty(), false)
    }
}

/// The depth-first post-order of `g`: the searches from `0, 1, 2, ...` over
/// nodes all unvisited at first, each search exploring the successors of a
/// node in the order in which they are listed.
pub open spec fn depth_first_order(g: Seq<Seq<usize>>) -> Seq<usize> {
    dfs_from(g, Seq::new(g.len(), |i: int| 0u8), 0).1
}

/// The node reached from `u` by following, from each node, its first edge,
/// at most `steps` times, or until a node without edges.
pub open spec fn first_edge_end(g: Seq<Seq<usize>>, u: usize, steps: nat) -> usize
    decreases steps,
{
    if steps > 0 && u < g.len() && g[u as int].len() > 0 {
        first_edge_end(g, g[u as int][0], (steps - 1) as nat)
    } else {
        u
    }
}

/// `rank` gives each node of `g` a rank below the number of nodes, and every
/// edge goes to a node of lower rank.
pub open spec fn ranks_edges_down(g: Seq<Seq<usize>>, rank: Seq<int>) -> bool {
    &&& rank.len() == g.len()
    &&& forall|x: int| 0 <= x < g.len() ==> 0 <= #[trigger] rank[x] < g.len()
    &&& forall|u: int, k: int| 0 <= u < g.len() && 0 <= k < g[u].len() ==> rank[#[trigger] g[u][k] as int] < rank[u]
}

/// A search from a node `u`, over marks where every node ranked no higher
/// than `u` is unvisited, finishes first the node reached from `u` by
/// following first edges: a node without edges.
proof fn lemma_visit_finishes_first_edge_end(g: Seq<Seq<usize>>, rank: Seq<int>, v: Seq<u8>, u: usize)
    requires
        edges_in_range(g),
        ranks_edges_down(g, rank),
        v.len() == g.len(),
        u < g.len(),
        forall|x: int| 0 <= x < g.len() && rank[x] <= rank[u as int] ==> #[trigger] v[x] == 0,
    ensures
        dfs_visit(g, v, u).1.len() > 0,
        forall|steps: nat| steps >= rank[u as int] ==> {
            &&& dfs_visit(g, v, u).1[0] == #[trigger] first_edge_end(g, u, steps)
            &&& first_edge_end(g, u, steps) < g.len()
            &&& g[first_edge_end(g, u, steps) as int].len() == 0
        },
    decreases rank[u as int],
{
    let v1 = v.update(u as int, 1);
    assert(rank[u as int] >= 0);
    assert(v[u as int] == 0);
    if g[u as int].len() == 0 {
        assert(dfs_successors(g, v1, u, 0) == (v1, Seq::<usize>::empty(), false));
        assert(dfs_visit(g, v, u).1 =~= seq![u]);
    } else {
        let next = g[u as int][0];
        assert(next < g.len());
        assert(rank[next as int] < rank[u as int]);
        assert forall|x: int| 0 <= x < g.len() && rank[x] <= rank[next as int] implies #[trigger] v1[x] == 0 by {
            assert(x != u);
            assert(v[x] == 0);
        }
        lemma_visit_finishes_first_edge_end(g, rank, v1, next);
        let r1 = dfs_visit(g, v1, next);
        let r = dfs_successors(g, v1, u, 0);
        assert(v1[next as int] == 0);
        assert(r.1.len() > 0 && r.1[0] == r1.1[0]) by {
            if !r1.2 && unvisited(r1.0) <= unvisited(v1) {
                let r2 = dfs_successors(g, r1.0, u, 1);
                assert(r.1 == r1.1 + r2.1);
                assert((r1.1 + r2.1)[0] == r1.1[0]);
            }
        }
        assert(dfs_visit(g, v, u).1.len() > 0 && dfs_visit(g, v, u).1[0] == r.1[0]) by {
            if !r.2 {
                assert(dfs_visit(g, v, u).1 == r.1.push(u));
            }
        }
        assert forall|steps: nat| steps >= rank[u as int] implies {
            &&& dfs_visit(g, v, u).1[0] == #[trigger] first_edge_end(g, u, steps)
            &&& first_edge_end(g, u, steps) < g.len()
            &&& g[first_edge_end(g, u, steps) as int].len() == 0
        } by {
            assert(steps > 0);
            assert(first_edge_end(g, u, steps) == first_edge_end(g, next, (steps - 1) as nat));
            assert((steps - 1) as nat >= rank[next as int]);
        }
    }
}

/// In a graph whose edges all go down in some ranking (a graph without
/// cycles), the depth-first post-order starts with the node reached from the
/// first node by following first edges, a node without edges: the search
/// from the first node goes down the first edge of each node it meets.
pub proof fn lemma_depth_first_order_starts_at_first_edge_end(g: Seq<Seq<usize>>, rank: Seq<int>)
    requires
        edges_in_range(g),
        ranks_edges_down(g, rank),
        g.len() > 0,
    ensures
        depth_first_order(g).len() > 0,
        depth_first_order(g)[0] == first_edge_end(g, 0, g.len()),
        first_edge_end(g, 0, g.len()) < g.len(),
        g[first_edge_end(g, 0, g.len()) as int].len() == 0,
{
    let zeros = Seq::new(g.len(), |i: int| 0u8);
    lemma_visit_finishes_first_edge_end(g, rank, zeros, 0);
    let r = dfs_visit(g, zeros, 0);
    assert(depth_first_order(g) == dfs_from(g, zeros, 0).1);
    if !r.2 {
        let r2 = dfs_from(g, r.0, 1);
        assert(dfs_from(g, zeros, 0).1 == r.1 + r2.1);
        assert((r.1 + r2.1)[0] == r.1[0]);
    }
}

/// `x` can be reached from `s`: some walk leads from `s` to `x`.
pub open spec fn reaches(g: Seq<Seq<usize>>, s: usize, x: usize) -> bool {
    exists|p: Seq<usize>| #[trigger] is_walk(g, p) && p[0] == s && p.last() == x
}

/// A cycle can be reached from `s`: some walk from `s` ends with an edge
/// back to one of its nodes.
pub open spec fn reaches_cycle(g: Seq<Seq<usize>>, s: usize) -> bool {
    exists|p: Seq<usize>, j: int| #![trigger is_walk(g, p), p[j]]
        is_walk(g, p) && p[0] == s && 0 <= j < p.len() && g[p.last() as int].contains(p[j])
}

/// A back edge from the top of the stack to a node on it closes a cycle.
proof fn lemma_back_edge_closes_cycle(g: Seq<Seq<usize>>, stack: Seq<usize>, next: usize)
    requires
        is_walk(g, stack),
        stack.contains(next),
        g[stack.last() as int].contains(next),
    ensures
        graph_has_cycle(g),
{
    let p = choose|p: int| 0 <= p < stack.len() && stack[p] == next;
    let c = stack.subrange(p, stack.len() as int);
    assert(c.last() == stack.last());
    assert forall|k: int| 0 <= k < c.len() - 1 implies g[#[trigger] c[k] as int].contains(c[k + 1]) by {
        assert(c[k] == stack[p + k]);
        assert(c[k + 1] == stack[p + k + 1]);
    }
    assert(is_walk(g, c));
}

/// Along a walk through listed nodes, where every edge goes back in the
/// list, the positions go down by at least one per step.
pub proof fn lemma_walk_goes_back(g: Seq<Seq<usize>>, order: Seq<usize>, p: Seq<usize>, j: int, k: int)
    requires
        forall|i: int, m: int| #![trigger order[i], order[m]]
            0 <= i < order.len() && 0 <= m < order.len() && g[order[i] as int].contains(order[m])
                ==> m < i,
        is_walk(g, p),
        forall|m: int| 0 <= m < p.len() ==> order.contains(#[trigger] p[m]),
        0 <= j <= k < p.len(),
    ensures
        exists|i1: int, i2: int| 0 <= i1 < order.len() && 0 <= i2 < order.len()
            && order[i1] == p[j] && order[i2] == p[k] && i2 <= i1 - (k - j),
    decreases k - j,
{
    if k == j {
        assert(order.contains(p[j]));
        let i = choose|i: int| 0 <= i < order.len() && order[i] == p[j];
        assert(order[i] == p[k]);
    } else {
        lemma_walk_goes_back(g, order, p, j, k - 1);
        let (i1, i2) = choose|i1: int, i2: int| 0 <= i1 < order.len() && 0 <= i2 < order.len()
            && order[i1] == p[j] && order[i2] == p[k - 1] && i2 <= i1 - (k - 1 - j);
        assert(order.contains(p[k]));
        let i3 = choose|i3: int| 0 <= i3 < order.len() && order[i3] == p[k];
        assert(g[p[k - 1] as int].contains(p[k]));
        assert(g[order[i2] as int].contains(order[i3]));
        assert(order[i1] == p[j] && order[i3] == p[k] && i3 <= i1 - (k - j));
    }
}

/// Every node of a walk from a done node is done.
proof fn lemma_walk_from_done(g: Seq<Seq<usize>>, visited: Seq<u8>, order: Seq<usize>, stack: Seq<usize>, p: Seq<usize>, k: int)
    requires
        dfs_state(g, visited, order, stack),
        is_walk(g, p),
        visited[p[0] as int] == 2,
        0 <= k < p.len(),
    ensures
        visited[p[k] as int] == 2,
    decreases k,
{
    if k > 0 {
        lemma_walk_from_done(g, visited, order, stack, p, k - 1);
        let u = p[k - 1] as int;
        assert(g[u].contains(p[k]));
        let m = choose|m: int| 0 <= m < g[u].len() && g[u][m] == p[k];
        assert(visited[g[u][m] as int] == 2);
    }
}

/// No cycle can be reached from a done node.
proof fn lemma_done_reaches_no_cycle(g: Seq<Seq<usize>>, visited: Seq<u8>, order: Seq<usize>, stack: Seq<usize>, s: usize)
    requires
        dfs_state(g, visited, order, stack),
        s < g.len(),
        visited[s as int] == 2,
    ensures
        !reaches_cycle(g, s),
{
    if reaches_cycle(g, s) {
        let (p, j) = choose|p: Seq<usize>, j: int| #![trigger is_walk(g, p), p[j]]
            is_walk(g, p) && p[0] == s && 0 <= j < p.len() && g[p.last() as int].contains(p[j]);
        assert forall|m: int| 0 <= m < p.len() implies order.contains(#[trigger] p[m]) by {
            lemma_walk_from_done(g, visited, order, stack, p, m);
        }
        lemma_walk_goes_back(g, order, p, j, p.len() - 1);
        let (i1, i2) = choose|i1: int, i2: int| 0 <= i1 < order.len() && 0 <= i2 < order.len()
            && order[i1] == p[j] && order[i2] == p[p.len() - 1] && i2 <= i1 - (p.len() - 1 - j);
        assert(g[order[i2] as int].contains(order[i1]));
    }
}

/// An edge from `node` back to a node in progress (`node` itself, or one
/// on the stack that leads to it) closes a cycle through `node`.
proof fn lemma_back_edge_reaches_cycle(g: Seq<Seq<usize>>, stack: Seq<usize>, node: usize, next: usize)
    requires
        node < g.len(),
        forall|k: int| 0 <= k < stack.len() ==> #[trigger] stack[k] < g.len(),
        forall|k: int| 0 <= k < stack.len() - 1 ==> g[#[trigger] stack[k] as int].contains(stack[k + 1]),
        stack.len() > 0 ==> g[stack.last() as int].contains(node),
        next == node || stack.contains(next),
        g[node as int].contains(next),
    ensures
        reaches_cycle(g, node),
{
    if next == node {
        let p = seq![node];
        assert(is_walk(g, p) && p[0] == node && g[p.last() as int].contains(p[0]));
    } else {
        let q = choose|q: int| 0 <= q < stack.len() && stack[q] == next;
        let p = Seq::new((stack.len() - q + 1) as nat, |m: int| if m == 0 { node } else { stack[q + m - 1] });
        assert forall|m: int| 0 <= m < p.len() implies #[trigger] p[m] < g.len() by {
            if m > 0 {
                assert(stack[q + m - 1] < g.len());
            }
        }
        assert forall|m: int| 0 <= m < p.len() - 1 implies g[#[trigger] p[m] as int].contains(p[m + 1]) by {
            if m > 0 {
                assert(g[stack[q + m - 1] as int].contains(stack[q + m - 1 + 1]));
            }
        }
        assert(p.last() == stack.last());
        assert(is_walk(g, p) && p[0] == node && g[p.last() as int].contains(p[0]));
    }
}

/// A cycle reachable from a successor of `node` is reachable from `node`.
proof fn lemma_edge_to_cycle(g: Seq<Seq<usize>>, node: usize, next: usize)
    requires
        node < g.len(),
        g[node as int].contains(next),
        reaches_cycle(g, next),
    ensures
        reaches_cycle(g, node),
{
    let (p, j) = choose|p: Seq<usize>, j: int| #![trigger is_walk(g, p), p[j]]
        is_walk(g, p) && p[0] == next && 0 <= j < p.len() && g[p.last() as int].contains(p[j]);
    let p2 = seq![node] + p;
    assert forall|m: int| 0 <= m < p2.len() implies #[trigger] p2[m] < g.len() by {
        if m > 0 {
            assert(p2[m] == p[m - 1]);
        }
    }
    assert forall|m: int| 0 <= m < p2.len() - 1 implies g[#[trigger] p2[m] as int].contains(p2[m + 1]) by {
        if m > 0 {
            assert(p2[m] == p[m - 1] && p2[m + 1] == p[m]);
        }
    }
    assert(p2.last() == p.last() && p2[j + 1] == p[j]);
    assert(is_walk(g, p2) && p2[0] == node);
}

/// What a successor of `node` reaches, `node` reaches.
proof fn lemma_edge_reaches(g: Seq<Seq<usize>>, node: usize, next: usize, x: usize)
    requires
        node < g.len(),
        g[node as int].contains(next),
        reaches(g, next, x),
    ensures
        reaches(g, node, x),
{
    let p = choose|p: Seq<usize>| #[trigger] is_walk(g, p) && p[0] == next && p.last() == x;
    let p2 = seq![node] + p;
    assert forall|m: int| 0 <= m < p2.len() implies #[trigger] p2[m] < g.len() by {
        if m > 0 {
            assert(p2[m] == p[m - 1]);
        }
    }
    assert forall|m: int| 0 <= m < p2.len() - 1 implies g[#[trigger] p2[m] as int].contains(p2[m + 1]) by {
        if m > 0 {
            assert(p2[m] == p[m - 1] && p2[m + 1] == p[m]);
        }
    }
    assert(p2.last() == p.last());
    assert(is_walk(g, p2) && p2[0] == node);
}

/// Every node reachable from a done node is done.
proof fn lemma_reached_from_done(g: Seq<Seq<usize>>, visited: Seq<u8>, order: Seq<usize>, stack: Seq<usize>, s: usize, x: usize)
    requires
        dfs_state(g, visited, order, stack),
        visited[s as int] == 2,
        reaches(g, s, x),
    ensures
        visited[x as int] == 2,
{
    let p = choose|p: Seq<usize>| #[trigger] is_walk(g, p) && p[0] == s && p.last() == x;
    lemma_walk_from_done(g, visited, order, stack, p, p.len() - 1);
}

/// After the search from a successor `next` of `node`, every node listed so
/// far was unvisited at the start and can be reached from `node`.
proof fn lemma_listed_after_visit(
    g: Seq<Seq<usize>>,
    node: usize,
    next: usize,
    start: Seq<u8>,
    before: Seq<u8>,
    acc: Seq<usize>,
    l1: Seq<usize>,
)
    requires
        node < g.len(),
        g[node as int].contains(next),
        forall|x: usize| #[trigger] acc.contains(x) ==> x < g.len() && start[x as int] == 0 && reaches(g, node, x),
        forall|x: usize| #[trigger] l1.contains(x) ==> x < g.len() && before[x as int] == 0 && reaches(g, next, x),
        forall|i: int| 0 <= i < g.len() ==> #[trigger] before[i]
            == if acc.contains(i as usize) { 2u8 } else { start[i] },
    ensures
        forall|x: usize| #[trigger] (acc + l1).contains(x) ==> x < g.len() && start[x as int] == 0 && reaches(g, node, x),
{
    assert forall|x: usize| #[trigger] (acc + l1).contains(x)
        implies x < g.len() && start[x as int] == 0 && reaches(g, node, x) by {
        let m = choose|m: int| 0 <= m < (acc + l1).len() && (acc + l1)[m] == x;
        if m < acc.len() {
            assert(acc[m] == x);
            assert(acc.contains(x));
        } else {
            assert(l1[m - acc.len()] == x);
            assert(l1.contains(x));
            lemma_edge_reaches(g, node, next, x);
            assert(before[x as int] == if acc.contains(x) { 2u8 } else { start[x as int] });
        }
    }
}

/// Marks that are 2 on a first list and then on a second are 2 on both.
proof fn lemma_marks_compose(start: Seq<u8>, mid: Seq<u8>, after: Seq<u8>, l1: Seq<usize>, l2: Seq<usize>, n: int)
    requires
        n <= usize::MAX,
        forall|i: int| 0 <= i < n ==> #[trigger] mid[i] == if l1.contains(i as usize) { 2u8 } else { start[i] },
        forall|i: int| 0 <= i < n ==> #[trigger] after[i] == if l2.contains(i as usize) { 2u8 } else { mid[i] },
    ensures
        forall|i: int| 0 <= i < n ==> #[trigger] after[i] == if (l1 + l2).contains(i as usize) { 2u8 } else { start[i] },
{
    assert forall|i: int| 0 <= i < n implies #[trigger] after[i]
        == if (l1 + l2).contains(i as usize) { 2u8 } else { start[i] } by {
        assert(mid[i] == if l1.contains(i as usize) { 2u8 } else { start[i] });
        if l2.contains(i as usize) {
            let m = choose|m: int| 0 <= m < l2.len() && l2[m] == i as usize;
            assert((l1 + l2)[l1.len() + m] == i as usize);
        } else if l1.contains(i as usize) {
            let m = choose|m: int| 0 <= m < l1.len() && l1[m] == i as usize;
            assert((l1 + l2)[m] == i as usize);
        } else if (l1 + l2).contains(i as usize) {
            let m = choose|m: int| 0 <= m < (l1 + l2).len() && (l1 + l2)[m] == i as usize;
            if m < l1.len() {
                assert(l1[m] == i as usize);
            } else {
                assert(l2[m - l1.len()] == i as usize);
            }
        }
    }
}

/// An edge from `node` to a node in progress closes a cycle reachable
/// from `node`.
proof fn lemma_back_edge(g: Seq<Seq<usize>>, visited: Seq<u8>, order: Seq<usize>, stack: Seq<usize>, node: usize, next: usize)
    requires
        dfs_state(g, visited, order, stack.push(node)),
        node < g.len(),
        stack.len() > 0 ==> g[stack.last() as int].contains(node),
        next < g.len(),
        visited[next as int] == 1,
        g[node as int].contains(next),
    ensures
        reaches_cycle(g, node),
        graph_has_cycle(g),
{
    let path = stack.push(node);
    assert(path.contains(next));
    assert(is_walk(g, path)) by {
        assert(path[path.len() - 1] == node);
    }
    lemma_back_edge_closes_cycle(g, path, next);
    assert forall|k: int| 0 <= k < stack.len() implies #[trigger] stack[k] < g.len() by {
        assert(path[k] == stack[k]);
    }
    assert forall|k: int| 0 <= k < stack.len() - 1 implies g[#[trigger] stack[k] as int].contains(stack[k + 1]) by {
        assert(path[k] == stack[k] && path[k + 1] == stack[k + 1]);
    }
    assert(next == node || stack.contains(next)) by {
        if next != node {
            let q = choose|q: int| 0 <= q < path.len() && path[q] == next;
            assert(q < stack.len() && stack[q] == next);
        }
    }
    lemma_back_edge_reaches_cycle(g, stack, node, next);
}

/// Depth-first search from `node`, exploring successors in the order in
/// which they are listed. For any marks (at most 2) and any list, its marks,
/// the nodes it appends to `order` and its cycle flag are those of
/// [`dfs_search`]; without a cycle, the appended nodes are the ones marked
/// done, all reachable from `node`. Where the search state is that of the
/// sort (see [`search_ready`]), the flag is set exactly when a cycle can be
/// reached from `node`, and without a cycle the nodes appended are exactly
/// the unvisited nodes reachable from `node`, each after the nodes it calls.
#[verifier::spinoff_prover]
#[verifier::rlimit(100)]
pub(crate) fn topological_dfs(
    node: usize,
    adj: &[Vec<usize>],
    visited: &mut [u8],
    order: &mut Vec<usize>,
    has_cycle: &mut bool,
    Ghost(stack): Ghost<Seq<usize>>,
)
    requires
        edges_in_range(graph_of(adj@)),
        old(visited)@.len() == adj@.len(),
        forall|i: int| 0 <= i < old(visited)@.len() ==> #[trigger] old(visited)@[i] <= 2,
        node < adj@.len(),
        !*old(has_cycle),
    ensures
        ({
            let r = dfs_search(graph_of(adj@), old(visited)@, node);
            &&& final(visited)@ == r.0
            &&& final(order)@ == old(order)@ + r.1
            &&& *final(has_cycle) == r.2
        }),
        forall|i: int| 0 <= i < final(visited)@.len() ==> #[trigger] final(visited)@[i] <= 2,
        marks_kept(old(visited)@, final(visited)@),
        final(visited)@[node as int] != 0,
        !*final(has_cycle) ==> final(visited)@[node as int] == 2,
        !*final(has_cycle) ==> forall|i: int| 0 <= i < old(visited)@.len() ==>
            #[trigger] final(visited)@[i] == if dfs_search(graph_of(adj@), old(visited)@, node).1.contains(i as usize) {
                2u8
            } else {
                old(visited)@[i]
            },
        !*final(has_cycle) ==> forall|x: usize| #[trigger] dfs_search(graph_of(adj@), old(visited)@, node).1.contains(x)
            ==> x < adj@.len() && reaches(graph_of(adj@), node, x) && (x == node || old(visited)@[x as int] == 0),
        search_ready(graph_of(adj@), old(visited)@, old(order)@, stack, node) ==> {
            &&& *final(has_cycle) <==> reaches_cycle(graph_of(adj@), node)
            &&& *final(has_cycle) ==> graph_has_cycle(graph_of(adj@))
            &&& !*final(has_cycle) ==> dfs_state(graph_of(adj@), final(visited)@, final(order)@, stack)
            &&& !*final(has_cycle) ==> forall|x: usize| x < adj@.len() && old(visited)@[x as int] == 0
                && #[trigger] reaches(graph_of(adj@), node, x)
                ==> dfs_search(graph_of(adj@), old(visited)@, node).1.contains(x)
        },
        old(visited)@[node as int] == 0 && (forall|k: int| 0 <= k < adj@[node as int]@.len()
            ==> old(visited)@[#[trigger] adj@[node as int]@[k] as int] == 2) ==> {
            &&& !*final(has_cycle)
            &&& final(visited)@ == old(visited)@.update(node as int, 2)
            &&& final(order)@ == old(order)@.push(node)
        },
    decreases unvisited(old(visited)@), if old(visited)@[node as int] == 0 { 0int } else { 1int },
{
    let ghost g = graph_of(adj@);
    let ghost v0 = visited@;
    let ghost o0 = order@;
    let ghost path = stack.push(node);
    let ghost start = v0.update(node as int, 1);
    let ghost ready = search_ready(g, v0, o0, stack, node);
    visited[node] = 1;
    proof {
        if ready {
            assert(!stack.contains(node));
            assert forall|k: int| 0 <= k < path.len() - 1 implies g[#[trigger] path[k] as int].contains(path[k + 1]) by {
                if k < stack.len() - 1 {
                    assert(path[k] == stack[k] && path[k + 1] == stack[k + 1]);
                }
            }
            assert forall|i: int| 0 <= i < g.len() implies (visited@[i] == 1 <==> path.contains(i as usize)) by {
                if i == node {
                    assert(path[path.len() - 1] == node);
                } else if visited@[i] == 1 {
                    let k = choose|k: int| 0 <= k < stack.len() && stack[k] == i;
                    assert(path[k] == i);
                } else if path.contains(i as usize) {
                    let k = choose|k: int| 0 <= k < path.len() && path[k] == i;
                    assert(stack[k] == i);
                }
            }
            assert(dfs_state(g, visited@, order@, path));
        }
        assert(order@ =~= o0 + order@.skip(o0.len() as int));
    }
    let succ = &adj[node];
    let mut k: usize = 0;
    while k < succ.len()
        invariant
            g == graph_of(adj@),
            edges_in_range(g),
            succ@ == g[node as int],
            node < g.len(),
            k <= succ@.len(),
            path == stack.push(node),
            ready == search_ready(g, v0, o0, stack, node),
            ready ==> dfs_state(g, visited@, order@, path),
            !*has_cycle,
            v0 == old(visited)@,
            o0 == old(order)@,
            v0.len() == g.len(),
            visited@.len() == g.len(),
            forall|i: int| 0 <= i < g.len() ==> #[trigger] visited@[i] <= 2,
            marks_kept(v0, visited@),
            visited@[node as int] == 1,
            forall|j: int| 0 <= j < k ==> visited@[#[trigger] succ@[j] as int] == 2,
            v0[node as int] == 0 && (forall|j: int| 0 <= j < succ@.len() ==> v0[#[trigger] succ@[j] as int] == 2) ==> {
                &&& visited@ == v0.update(node as int, 1)
                &&& order@ == o0
            },
            start == v0.update(node as int, 1),
            o0.len() <= order@.len(),
            order@ == o0 + order@.skip(o0.len() as int),
            ({
                let full = dfs_successors(g, start, node, 0);
                let rest = dfs_successors(g, visited@, node, k as int);
                &&& full.0 == rest.0
                &&& full.1 == order@.skip(o0.len() as int) + rest.1
                &&& full.2 == rest.2
            }),
            forall|i: int| 0 <= i < g.len() ==> #[trigger] visited@[i]
                == if order@.skip(o0.len() as int).contains(i as usize) { 2u8 } else { start[i] },
            forall|x: usize| #[trigger] order@.skip(o0.len() as int).contains(x)
                ==> x < g.len() && start[x as int] == 0 && reaches(g, node, x),
        decreases succ@.len() - k,
    {
        let next = succ[k];
        assert(g[node as int][k as int] == next);
        let ghost before = visited@;
        let ghost acc = order@.skip(o0.len() as int);
        if visited[next] == 1 {
            *has_cycle = true;
            proof {
                assert(g[node as int].contains(next));
                if ready {
                    lemma_back_edge(g, visited@, order@, stack, node, next);
                }
                assert(order@ =~= o0 + dfs_search(g, v0, node).1);
            }
            return;
        }
        if visited[next] == 0 {
            proof {
                if v0[node as int] == 0 {
                    lemma_unvisited_shrinks(v0, visited@, node as int);
                } else {
                    lemma_unvisited_no_more(v0, visited@);
                }
            }
            topological_dfs(next, adj, visited, order, has_cycle, Ghost(path));
            proof {
                let r1 = dfs_visit(g, before, next);
                assert(dfs_search(g, before, next) == r1);
                lemma_unvisited_no_more(before, visited@);
                assert(order@ =~= o0 + (acc + r1.1));
                assert(order@.skip(o0.len() as int) =~= acc + r1.1);
                if *has_cycle {
                    assert(order@ =~= o0 + dfs_search(g, v0, node).1);
                    if ready {
                        assert(search_ready(g, before, o0 + acc, path, next));
                        lemma_edge_to_cycle(g, node, next);
                    }
                } else {
                    let rest = dfs_successors(g, visited@, node, k + 1);
                    assert(dfs_successors(g, before, node, k as int).1 =~= r1.1 + rest.1);
                    assert(dfs_successors(g, start, node, 0).1 =~= order@.skip(o0.len() as int) + rest.1);
                    assert forall|x: usize| #[trigger] r1.1.contains(x) implies x < g.len() && before[x as int] == 0
                        && reaches(g, next, x) by {
                    }
                    lemma_marks_compose(start, before, visited@, acc, r1.1, g.len() as int);
                    lemma_listed_after_visit(g, node, next, start, before, acc, r1.1);
                    assert forall|j: int| 0 <= j < k + 1 implies visited@[#[trigger] succ@[j] as int] == 2 by {
                        if j < k {
                            assert(before[succ@[j] as int] == 2);
                            assert(visited@[succ@[j] as int]
                                == if r1.1.contains(succ@[j]) { 2u8 } else { before[succ@[j] as int] });
                        }
                    }
                    if ready {
                        assert(search_ready(g, before, o0 + acc, path, next));
                    }
                }
            }
            if *has_cycle {
                return;
            }
        }
        k += 1;
    }
    let ghost v1 = visited@;
    let ghost o1 = order@;
    visited[node] = 2;
    order.push(node);
    proof {
        let acc = o1.skip(o0.len() as int);
        let l = dfs_search(g, v0, node).1;
        assert(order@ =~= o0 + acc.push(node));
        assert(l =~= acc.push(node));
        assert forall|i: int| 0 <= i < v0.len() implies #[trigger] visited@[i]
            == if l.contains(i as usize) { 2u8 } else { v0[i] } by {
            if i == node {
                assert(acc.push(node)[acc.len() as int] == node);
            } else if acc.push(node).contains(i as usize) {
                let m = choose|m: int| 0 <= m < acc.push(node).len() && acc.push(node)[m] == i;
                assert(acc[m] == i);
            } else if acc.contains(i as usize) {
                let m = choose|m: int| 0 <= m < acc.len() && acc[m] == i;
                assert(acc.push(node)[m] == i);
            }
        }
        assert forall|x: usize| #[trigger] l.contains(x)
            implies x < g.len() && reaches(g, node, x) && (x == node || v0[x as int] == 0) by {
            let m = choose|m: int| 0 <= m < l.len() && l[m] == x;
            if m == acc.len() {
                let p = seq![node];
                assert(is_walk(g, p) && p[0] == node && p.last() == node);
            } else {
                assert(acc[m] == x);
                assert(acc.contains(x));
                assert(start[x as int] == 0);
            }
        }
        if ready {
            assert forall|j: int| 0 <= j < g[node as int].len() implies v1[#[trigger] g[node as int][j] as int] == 2 by {
                assert(succ@[j] == g[node as int][j]);
            }
            lemma_finish_node(g, v1, o1, visited@, order@, stack, node);
            lemma_done_reaches_no_cycle(g, visited@, order@, stack, node);
            assert forall|x: usize| x < adj@.len() && v0[x as int] == 0 && #[trigger] reaches(g, node, x)
                implies l.contains(x) by {
                lemma_reached_from_done(g, visited@, order@, stack, node, x);
            }
        }
    }
}

/// Finishing `node` (marking it done and listing it) after all its
/// successors are done keeps the search state, with `node` off the stack.
proof fn lemma_finish_node(
    g: Seq<Seq<usize>>,
    v1: Seq<u8>,
    o1: Seq<usize>,
    v2: Seq<u8>,
    o2: Seq<usize>,
    stack: Seq<usize>,
    node: usize,
)
    requires
        dfs_state(g, v1, o1, stack.push(node)),
        g.len() <= usize::MAX,
        node < g.len(),
        v1[node as int] == 1,
        forall|j: int| 0 <= j < g[node as int].len() ==> v1[#[trigger] g[node as int][j] as int] == 2,
        v2 == v1.update(node as int, 2),
        o2 == o1.push(node),
    ensures
        dfs_state(g, v2, o2, stack),
{
    let path = stack.push(node);
    let visited = v2;
    let order = o2;
    assert(!o1.contains(node));
    assert forall|i: int| 0 <= i < g.len() implies (visited[i] == 2 <==> order.contains(i as usize)) by {
        if i == node {
            assert(order[order.len() - 1] == node);
        } else if visited[i] == 2 {
            assert(o1.contains(i as usize));
            let k = choose|k: int| 0 <= k < o1.len() && o1[k] == i as usize;
            assert(order[k] == i as usize);
        } else if order.contains(i as usize) {
            let k = choose|k: int| 0 <= k < order.len() && order[k] == i as usize;
            assert(k < o1.len());
            assert(o1[k] == i as usize);
        }
    }
    assert forall|i: int| 0 <= i < g.len() implies (visited[i] == 1 <==> stack.contains(i as usize)) by {
        if stack.contains(i as usize) {
            let k = choose|k: int| 0 <= k < stack.len() && stack[k] == i;
            assert(path[k] == i);
            assert(i != node);
        }
        if i != node && v1[i] == 1 {
            let k = choose|k: int| 0 <= k < path.len() && path[k] == i;
            assert(k != path.len() - 1);
            assert(stack[k] == i);
        }
    }
    assert forall|k: int| 0 <= k < stack.len() - 1 implies g[#[trigger] stack[k] as int].contains(stack[k + 1]) by {
        assert(path[k] == stack[k] && path[k + 1] == stack[k + 1]);
    }
    assert forall|k: int| 0 <= k < stack.len() implies #[trigger] stack[k] < g.len() by {
        assert(path[k] == stack[k]);
    }
    assert(stack.no_duplicates()) by {
        assert forall|a: int, b: int| 0 <= a < stack.len() && 0 <= b < stack.len() && a != b
            implies stack[a] != stack[b] by {
            assert(path[a] == stack[a] && path[b] == stack[b]);
        }
    }
    assert forall|i: int, j: int| #![trigger order[i], order[j]]
        0 <= i < order.len() && 0 <= j < order.len() && g[order[i] as int].contains(order[j])
        implies j < i by {
        if j == order.len() - 1 && i < j {
            assert(order[i] == o1[i]);
            assert(o1.contains(o1[i]));
            let m = choose|m: int| 0 <= m < g[o1[i] as int].len() && g[o1[i] as int][m] == node;
            assert(v1[g[o1[i] as int][m] as int] == 2);
        } else if i < order.len() - 1 && j < order.len() - 1 {
            assert(order[i] == o1[i] && order[j] == o1[j]);
        } else if i == order.len() - 1 && j == i {
            let m = choose|m: int| 0 <= m < g[node as int].len() && g[node as int][m] == node;
            assert(v1[g[node as int][m] as int] == 2);
        }
    }
}

} // verus!
