//! The mathematical content of statement blocks, and what renumbering does
//! to it: renumbering by a map that fixes every called handle changes
//! nothing, renumbering and then undoing it gives the block back, and the
//! result of a renumbering is determined by the block and the map.

use vstd::prelude::*;
use crate::ir::{Expression, Statement, SwitchCase, SwitchValue, block_calls, stmt_calls, cases_calls};
use crate::remap::{all_below, remapped_block, remapped_stmt, remapped_cases, remapped_expr};

verus! {

/// What a statement holds, with its nested blocks as sequences.
#[allow(inconsistent_fields)]
pub enum StmtModel {
    Emit { start: usize, end: usize },
    Block(Seq<StmtModel>),
    If { condition: usize, accept: Seq<StmtModel>, reject: Seq<StmtModel> },
    Switch { selector: usize, cases: Seq<CaseModel> },
    Loop { body: Seq<StmtModel>, continuing: Seq<StmtModel>, break_if: Option<usize> },
    Break,
    Continue,
    Return { value: Option<usize> },
    Kill,
    Store { pointer: usize, value: usize },
    Call { function: usize, arguments: Seq<usize>, result: Option<usize> },
}

/// What a case of a `switch` holds.
pub struct CaseModel {
    pub value: SwitchValue,
    pub body: Seq<StmtModel>,
    pub fall_through: bool,
}

/// The content of a statement.
pub open spec fn stmt_model(s: Statement) -> StmtModel
    decreases s,
{
    match s {
        Statement::Emit { start, end } => StmtModel::Emit { start, end },
        Statement::Block(inner) => StmtModel::Block(block_model(inner@)),
        Statement::If { condition, accept, reject } => StmtModel::If {
            condition,
            accept: block_model(accept@),
            reject: block_model(reject@),
        },
        Statement::Switch { selector, cases } => StmtModel::Switch { selector, cases: cases_model(cases@) },
        Statement::Loop { body, continuing, break_if } => StmtModel::Loop {
            body: block_model(body@),
            continuing: block_model(continuing@),
            break_if,
        },
        Statement::Break => StmtModel::Break,
        Statement::Continue => StmtModel::Continue,
        Statement::Return { value } => StmtModel::Return { value },
        Statement::Kill => StmtModel::Kill,
        Statement::Store { pointer, value } => StmtModel::Store { pointer, value },
        Statement::Call { function, arguments, result } => StmtModel::Call {
            function,
            arguments: arguments@,
            result,
        },
    }
}

/// The content of a block, statement by statement.
pub open spec fn block_model(b: Seq<Statement>) -> Seq<StmtModel>
    decreases b,
{
    if b.len() == 0 {
        Seq::empty()
    } else {
        block_model(b.drop_last()).push(stmt_model(b.last()))
    }
}

/// The content of a list of cases, case by case.
pub open spec fn cases_model(cs: Seq<SwitchCase>) -> Seq<CaseModel>
    decreases cs,
{
    if cs.len() == 0 {
        Seq::empty()
    } else {
        cases_model(cs.drop_last()).push(CaseModel {
            value: cs.last().value,
            body: block_model(cs.last().body@),
            fall_through: cs.last().fall_through,
        })
    }
}

/// `r` sends every handle in `calls` to itself.
pub open spec fn fixes_calls(r: Seq<usize>, calls: Seq<usize>) -> bool {
    forall|h: usize| calls.contains(h) ==> r[h as int] == h
}

/// `s` undoes `r` on every handle in `calls`.
pub open spec fn undoes_on(s: Seq<usize>, r: Seq<usize>, calls: Seq<usize>) -> bool {
    forall|h: usize| calls.contains(h) ==> s[r[h as int] as int] == h
}

proof fn lemma_contains_concat(x: Seq<usize>, y: Seq<usize>)
    ensures
        forall|h: usize| x.contains(h) ==> (x + y).contains(h),
        forall|h: usize| y.contains(h) ==> (x + y).contains(h),
{
    assert forall|h: usize| x.contains(h) implies (x + y).contains(h) by {
        let m = choose|m: int| 0 <= m < x.len() && x[m] == h;
        assert((x + y)[m] == h);
    }
    assert forall|h: usize| y.contains(h) implies (x + y).contains(h) by {
        let m = choose|m: int| 0 <= m < y.len() && y[m] == h;
        assert((x + y)[x.len() + m] == h);
    }
}

// ---------------------------------------------------------------------------
// Renumbering by a map that fixes every called handle changes nothing.

/// Renumbering a block by a map that sends every handle it calls to itself
/// leaves its content as it was.
pub proof fn lemma_fixing_renumbering_block(a: Seq<Statement>, b: Seq<Statement>, r: Seq<usize>)
    requires
        remapped_block(a, b, r),
        fixes_calls(r, block_calls(a)),
    ensures
        block_model(b) == block_model(a),
    decreases a,
{
    if a.len() > 0 {
        lemma_contains_concat(block_calls(a.drop_last()), stmt_calls(a.last()));
        lemma_fixing_renumbering_block(a.drop_last(), b.drop_last(), r);
        lemma_fixing_renumbering_stmt(a.last(), b.last(), r);
    }
}

pub proof fn lemma_fixing_renumbering_stmt(a: Statement, b: Statement, r: Seq<usize>)
    requires
        remapped_stmt(a, b, r),
        fixes_calls(r, stmt_calls(a)),
    ensures
        stmt_model(b) == stmt_model(a),
    decreases a,
{
    match a {
        Statement::Call { function, .. } => {
            assert(stmt_calls(a)[0] == function);
        },
        Statement::Block(inner) => {
            if let Statement::Block(i2) = b {
                lemma_fixing_renumbering_block(inner@, i2@, r);
            }
        },
        Statement::If { accept, reject, .. } => {
            if let Statement::If { accept: a2, reject: j2, .. } = b {
                lemma_contains_concat(block_calls(accept@), block_calls(reject@));
                lemma_fixing_renumbering_block(accept@, a2@, r);
                lemma_fixing_renumbering_block(reject@, j2@, r);
            }
        },
        Statement::Switch { cases, .. } => {
            if let Statement::Switch { cases: c2, .. } = b {
                lemma_fixing_renumbering_cases(cases@, c2@, r);
            }
        },
        Statement::Loop { body, continuing, .. } => {
            if let Statement::Loop { body: b2, continuing: n2, .. } = b {
                lemma_contains_concat(block_calls(body@), block_calls(continuing@));
                lemma_fixing_renumbering_block(body@, b2@, r);
                lemma_fixing_renumbering_block(continuing@, n2@, r);
            }
        },
        _ => {},
    }
}

pub proof fn lemma_fixing_renumbering_cases(a: Seq<SwitchCase>, b: Seq<SwitchCase>, r: Seq<usize>)
    requires
        remapped_cases(a, b, r),
        fixes_calls(r, cases_calls(a)),
    ensures
        cases_model(b) == cases_model(a),
    decreases a,
{
    if a.len() > 0 {
        lemma_contains_concat(cases_calls(a.drop_last()), block_calls(a.last().body@));
        lemma_fixing_renumbering_cases(a.drop_last(), b.drop_last(), r);
        lemma_fixing_renumbering_block(a.last().body@, b.last().body@, r);
    }
}

/// Renumbering a block whose calls are below `n` by the identity on `0..n`
/// leaves its content as it was.
pub proof fn lemma_identity_renumbering(a: Seq<Statement>, b: Seq<Statement>, n: nat)
    requires
        remapped_block(a, b, Seq::new(n, |i: int| i as usize)),
        all_below(block_calls(a), n as int),
    ensures
        block_model(b) == block_model(a),
{
    let id = Seq::new(n, |i: int| i as usize);
    assert forall|h: usize| block_calls(a).contains(h) implies id[h as int] == h by {
        let m = choose|m: int| 0 <= m < block_calls(a).len() && block_calls(a)[m] == h;
        assert(h < n);
    }
    lemma_fixing_renumbering_block(a, b, id);
}

// ---------------------------------------------------------------------------
// Renumbering, then undoing it, gives the block back.

/// Renumbering a block by `r` and the result by `s`, where `s` undoes `r` on
/// every handle the block calls, gives back the content of the block.
pub proof fn lemma_round_trip_block(a: Seq<Statement>, b: Seq<Statement>, c: Seq<Statement>, r: Seq<usize>, s: Seq<usize>)
    requires
        remapped_block(a, b, r),
        remapped_block(b, c, s),
        undoes_on(s, r, block_calls(a)),
    ensures
        block_model(c) == block_model(a),
    decreases a,
{
    if a.len() > 0 {
        lemma_contains_concat(block_calls(a.drop_last()), stmt_calls(a.last()));
        lemma_round_trip_block(a.drop_last(), b.drop_last(), c.drop_last(), r, s);
        lemma_round_trip_stmt(a.last(), b.last(), c.last(), r, s);
    }
}

pub proof fn lemma_round_trip_stmt(a: Statement, b: Statement, c: Statement, r: Seq<usize>, s: Seq<usize>)
    requires
        remapped_stmt(a, b, r),
        remapped_stmt(b, c, s),
        undoes_on(s, r, stmt_calls(a)),
    ensures
        stmt_model(c) == stmt_model(a),
    decreases a,
{
    match a {
        Statement::Call { function, .. } => {
            assert(stmt_calls(a)[0] == function);
            assert(stmt_calls(a).contains(function));
        },
        Statement::Block(inner) => {
            if let Statement::Block(i2) = b {
                if let Statement::Block(i3) = c {
                    lemma_round_trip_block(inner@, i2@, i3@, r, s);
                }
            }
        },
        Statement::If { accept, reject, .. } => {
            if let Statement::If { accept: a2, reject: j2, .. } = b {
                if let Statement::If { accept: a3, reject: j3, .. } = c {
                    lemma_contains_concat(block_calls(accept@), block_calls(reject@));
                    lemma_round_trip_block(accept@, a2@, a3@, r, s);
                    lemma_round_trip_block(reject@, j2@, j3@, r, s);
                }
            }
        },
        Statement::Switch { cases, .. } => {
            if let Statement::Switch { cases: c2, .. } = b {
                if let Statement::Switch { cases: c3, .. } = c {
                    lemma_round_trip_cases(cases@, c2@, c3@, r, s);
                }
            }
        },
        Statement::Loop { body, continuing, .. } => {
            if let Statement::Loop { body: b2, continuing: n2, .. } = b {
                if let Statement::Loop { body: b3, continuing: n3, .. } = c {
                    lemma_contains_concat(block_calls(body@), block_calls(continuing@));
                    lemma_round_trip_block(body@, b2@, b3@, r, s);
                    lemma_round_trip_block(continuing@, n2@, n3@, r, s);
                }
            }
        },
        _ => {},
    }
}

pub proof fn lemma_round_trip_cases(a: Seq<SwitchCase>, b: Seq<SwitchCase>, c: Seq<SwitchCase>, r: Seq<usize>, s: Seq<usize>)
    requires
        remapped_cases(a, b, r),
        remapped_cases(b, c, s),
        undoes_on(s, r, cases_calls(a)),
    ensures
        cases_model(c) == cases_model(a),
    decreases a,
{
    if a.len() > 0 {
        lemma_contains_concat(cases_calls(a.drop_last()), block_calls(a.last().body@));
        lemma_round_trip_cases(a.drop_last(), b.drop_last(), c.drop_last(), r, s);
        lemma_round_trip_block(a.last().body@, b.last().body@, c.last().body@, r, s);
    }
}

/// Renumbering a block whose calls are below `n` by `r`, then the result by
/// the inverse of `r` on `0..n`, gives back the content of the block.
pub proof fn lemma_renumber_then_inverse(
    a: Seq<Statement>,
    b: Seq<Statement>,
    c: Seq<Statement>,
    r: Seq<usize>,
    inv: Seq<usize>,
    n: int,
)
    requires
        remapped_block(a, b, r),
        remapped_block(b, c, inv),
        all_below(block_calls(a), n),
        forall|i: int| 0 <= i < n ==> inv[#[trigger] r[i] as int] == i,
    ensures
        block_model(c) == block_model(a),
{
    assert forall|h: usize| block_calls(a).contains(h) implies inv[r[h as int] as int] == h by {
        let m = choose|m: int| 0 <= m < block_calls(a).len() && block_calls(a)[m] == h;
        assert(h < n);
    }
    lemma_round_trip_block(a, b, c, r, inv);
}

// ---------------------------------------------------------------------------
// The result of a renumbering is determined by the block and the map.

/// Two renumberings of the same block by the same map have the same content.
pub proof fn lemma_renumbering_determined_block(a: Seq<Statement>, b: Seq<Statement>, c: Seq<Statement>, r: Seq<usize>)
    requires
        remapped_block(a, b, r),
        remapped_block(a, c, r),
    ensures
        block_model(b) == block_model(c),
    decreases a,
{
    if a.len() > 0 {
        lemma_renumbering_determined_block(a.drop_last(), b.drop_last(), c.drop_last(), r);
        lemma_renumbering_determined_stmt(a.last(), b.last(), c.last(), r);
    }
}

pub proof fn lemma_renumbering_determined_stmt(a: Statement, b: Statement, c: Statement, r: Seq<usize>)
    requires
        remapped_stmt(a, b, r),
        remapped_stmt(a, c, r),
    ensures
        stmt_model(b) == stmt_model(c),
    decreases a,
{
    match a {
        Statement::Block(inner) => {
            if let Statement::Block(i2) = b {
                if let Statement::Block(i3) = c {
                    lemma_renumbering_determined_block(inner@, i2@, i3@, r);
                }
            }
        },
        Statement::If { accept, reject, .. } => {
            if let Statement::If { accept: a2, reject: j2, .. } = b {
                if let Statement::If { accept: a3, reject: j3, .. } = c {
                    lemma_renumbering_determined_block(accept@, a2@, a3@, r);
                    lemma_renumbering_determined_block(reject@, j2@, j3@, r);
                }
            }
        },
        Statement::Switch { cases, .. } => {
            if let Statement::Switch { cases: c2, .. } = b {
                if let Statement::Switch { cases: c3, .. } = c {
                    lemma_renumbering_determined_cases(cases@, c2@, c3@, r);
                }
            }
        },
        Statement::Loop { body, continuing, .. } => {
            if let Statement::Loop { body: b2, continuing: n2, .. } = b {
                if let Statement::Loop { body: b3, continuing: n3, .. } = c {
                    lemma_renumbering_determined_block(body@, b2@, b3@, r);
                    lemma_renumbering_determined_block(continuing@, n2@, n3@, r);
                }
            }
        },
        _ => {},
    }
}

pub proof fn lemma_renumbering_determined_cases(a: Seq<SwitchCase>, b: Seq<SwitchCase>, c: Seq<SwitchCase>, r: Seq<usize>)
    requires
        remapped_cases(a, b, r),
        remapped_cases(a, c, r),
    ensures
        cases_model(b) == cases_model(c),
    decreases a,
{
    if a.len() > 0 {
        lemma_renumbering_determined_cases(a.drop_last(), b.drop_last(), c.drop_last(), r);
        lemma_renumbering_determined_block(a.last().body@, b.last().body@, c.last().body@, r);
    }
}

// ---------------------------------------------------------------------------
// Calls and the expressions that hold their results.

/// Every call in `b` that stores its result names, at that place of `es`,
/// the result of a call of the same function.
pub open spec fn results_agree_block(b: Seq<Statement>, es: Seq<Expression>) -> bool
    decreases b,
{
    b.len() > 0 ==> results_agree_block(b.drop_last(), es) && results_agree_stmt(b.last(), es)
}

pub open spec fn results_agree_stmt(s: Statement, es: Seq<Expression>) -> bool
    decreases s,
{
    match s {
        Statement::Call { function, result, .. } => match result {
            Some(e) => e < es.len() && es[e as int] == Expression::CallResult(function),
            None => true,
        },
        Statement::Block(inner) => results_agree_block(inner@, es),
        Statement::If { accept, reject, .. } => results_agree_block(accept@, es) && results_agree_block(reject@, es),
        Statement::Switch { cases, .. } => results_agree_cases(cases@, es),
        Statement::Loop { body, continuing, .. } => results_agree_block(body@, es)
            && results_agree_block(continuing@, es),
        _ => true,
    }
}

pub open spec fn results_agree_cases(cs: Seq<SwitchCase>, es: Seq<Expression>) -> bool
    decreases cs,
{
    cs.len() > 0 ==> results_agree_cases(cs.drop_last(), es) && results_agree_block(cs.last().body@, es)
}

/// Renumbering the calls and the call results by the same map keeps every
/// call matched with the expression that holds its result.
pub proof fn lemma_renumbering_keeps_results_block(a: Seq<Statement>, b: Seq<Statement>, es: Seq<Expression>, r: Seq<usize>)
    requires
        remapped_block(a, b, r),
        results_agree_block(a, es),
    ensures
        results_agree_block(b, es.map_values(|e: Expression| remapped_expr(e, r))),
    decreases a,
{
    if a.len() > 0 {
        lemma_renumbering_keeps_results_block(a.drop_last(), b.drop_last(), es, r);
        lemma_renumbering_keeps_results_stmt(a.last(), b.last(), es, r);
    }
}

pub proof fn lemma_renumbering_keeps_results_stmt(a: Statement, b: Statement, es: Seq<Expression>, r: Seq<usize>)
    requires
        remapped_stmt(a, b, r),
        results_agree_stmt(a, es),
    ensures
        results_agree_stmt(b, es.map_values(|e: Expression| remapped_expr(e, r))),
    decreases a,
{
    match a {
        Statement::Block(inner) => {
            if let Statement::Block(i2) = b {
                lemma_renumbering_keeps_results_block(inner@, i2@, es, r);
            }
        },
        Statement::If { accept, reject, .. } => {
            if let Statement::If { accept: a2, reject: j2, .. } = b {
                lemma_renumbering_keeps_results_block(accept@, a2@, es, r);
                lemma_renumbering_keeps_results_block(reject@, j2@, es, r);
            }
        },
        Statement::Switch { cases, .. } => {
            if let Statement::Switch { cases: c2, .. } = b {
                lemma_renumbering_keeps_results_cases(cases@, c2@, es, r);
            }
        },
        Statement::Loop { body, continuing, .. } => {
            if let Statement::Loop { body: b2, continuing: n2, .. } = b {
                lemma_renumbering_keeps_results_block(body@, b2@, es, r);
                lemma_renumbering_keeps_results_block(continuing@, n2@, es, r);
            }
        },
        _ => {},
    }
}

pub proof fn lemma_renumbering_keeps_results_cases(a: Seq<SwitchCase>, b: Seq<SwitchCase>, es: Seq<Expression>, r: Seq<usize>)
    requires
        remapped_cases(a, b, r),
        results_agree_cases(a, es),
    ensures
        results_agree_cases(b, es.map_values(|e: Expression| remapped_expr(e, r))),
    decreases a,
{
    if a.len() > 0 {
        lemma_renumbering_keeps_results_cases(a.drop_last(), b.drop_last(), es, r);
        lemma_renumbering_keeps_results_block(a.last().body@, b.last().body@, es, r);
    }
}

} // verus!
