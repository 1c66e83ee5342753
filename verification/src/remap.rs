//! Renumbering the function handles held by statements and expressions.

use vstd::prelude::*;
use crate::ir::{Statement, SwitchCase, Expression, block_calls, stmt_calls, cases_calls};

verus! {

/// Every value of `s` is below `n`.
pub open spec fn all_below(s: Seq<usize>, n: int) -> bool {
    forall|k: int| 0 <= k < s.len() ==> #[trigger] s[k] < n
}

/// `b` is `a` with the function handle `h` of every call, nested blocks
/// included, replaced by `r[h]`; nothing else differs.
pub open spec fn remapped_stmt(a: Statement, b: Statement, r: Seq<usize>) -> bool
    decreases a,
{
    match a {
        Statement::Call { function, arguments, result } => b matches Statement::Call {
            function: f2,
            arguments: a2,
            result: r2,
        } && f2 == r[function as int] && a2@ == arguments@ && r2 == result,
        Statement::Block(inner) => b matches Statement::Block(i2) && remapped_block(inner@, i2@, r),
        Statement::If { condition, accept, reject } => b matches Statement::If {
            condition: c2,
            accept: a2,
            reject: j2,
        } && c2 == condition && remapped_block(accept@, a2@, r) && remapped_block(reject@, j2@, r),
        Statement::Switch { selector, cases } => b matches Statement::Switch {
            selector: s2,
            cases: c2,
        } && s2 == selector && remapped_cases(cases@, c2@, r),
        Statement::Loop { body, continuing, break_if } => b matches Statement::Loop {
            body: b2,
            continuing: n2,
            break_if: k2,
        } && k2 == break_if && remapped_block(body@, b2@, r) && remapped_block(continuing@, n2@, r),
        _ => b == a,
    }
}

/// `b` is the block `a` with every statement remapped by `r`.
pub open spec fn remapped_block(a: Seq<Statement>, b: Seq<Statement>, r: Seq<usize>) -> bool
    decreases a,
{
    &&& a.len() == b.len()
    &&& a.len() > 0 ==> {
        &&& remapped_block(a.drop_last(), b.drop_last(), r)
        &&& remapped_stmt(a.last(), b.last(), r)
    }
}

/// `b` is the list of cases `a` with every case body remapped by `r`.
pub open spec fn remapped_cases(a: Seq<SwitchCase>, b: Seq<SwitchCase>, r: Seq<usize>) -> bool
    decreases a,
{
    &&& a.len() == b.len()
    &&& a.len() > 0 ==> {
        &&& remapped_cases(a.drop_last(), b.drop_last(), r)
        &&& b.last().value == a.last().value
        &&& b.last().fall_through == a.last().fall_through
        &&& remapped_block(a.last().body@, b.last().body@, r)
    }
}

/// `b` is `a` but for the function handles of its call statements: every
/// other statement, and the arguments and the result of every call, nested
/// blocks included, stand in `b` as in `a`.
pub open spec fn same_but_call_handles_stmt(a: Statement, b: Statement) -> bool
    decreases a,
{
    match a {
        Statement::Call { arguments, result, .. } => b matches Statement::Call {
            arguments: a2,
            result: r2,
            ..
        } && a2@ == arguments@ && r2 == result,
        Statement::Block(inner) => b matches Statement::Block(i2) && same_but_call_handles_block(inner@, i2@),
        Statement::If { condition, accept, reject } => b matches Statement::If {
            condition: c2,
            accept: a2,
            reject: j2,
        } && c2 == condition && same_but_call_handles_block(accept@, a2@)
            && same_but_call_handles_block(reject@, j2@),
        Statement::Switch { selector, cases } => b matches Statement::Switch {
            selector: s2,
            cases: c2,
        } && s2 == selector && same_but_call_handles_cases(cases@, c2@),
        Statement::Loop { body, continuing, break_if } => b matches Statement::Loop {
            body: b2,
            continuing: n2,
            break_if: k2,
        } && k2 == break_if && same_but_call_handles_block(body@, b2@)
            && same_but_call_handles_block(continuing@, n2@),
        _ => b == a,
    }
}

/// The blocks `a` and `b` have the same statements but for the function
/// handles of their calls.
pub open spec fn same_but_call_handles_block(a: Seq<Statement>, b: Seq<Statement>) -> bool
    decreases a,
{
    &&& a.len() == b.len()
    &&& a.len() > 0 ==> {
        &&& same_but_call_handles_block(a.drop_last(), b.drop_last())
        &&& same_but_call_handles_stmt(a.last(), b.last())
    }
}

/// The cases `a` and `b` are the same but for the function handles of the
/// calls in their bodies.
pub open spec fn same_but_call_handles_cases(a: Seq<SwitchCase>, b: Seq<SwitchCase>) -> bool
    decreases a,
{
    &&& a.len() == b.len()
    &&& a.len() > 0 ==> {
        &&& same_but_call_handles_cases(a.drop_last(), b.drop_last())
        &&& b.last().value == a.last().value
        &&& b.last().fall_through == a.last().fall_through
        &&& same_but_call_handles_block(a.last().body@, b.last().body@)
    }
}

/// The expression `e` with the handle of a call result replaced by `r[h]`.
pub open spec fn remapped_expr(e: Expression, r: Seq<usize>) -> Expression {
    match e {
        Expression::CallResult(h) => Expression::CallResult(r[h as int]),
        _ => e,
    }
}

/// The handles of the call results among `es`.
pub open spec fn call_results(es: Seq<Expression>) -> Seq<usize>
    decreases es.len(),
{
    if es.len() == 0 {
        Seq::empty()
    } else {
        call_results(es.drop_last()) + match es.last() {
            Expression::CallResult(h) => seq![h],
            _ => Seq::empty(),
        }
    }
}

/// Both parts of a sequence whose values are below `n` have values below `n`.
pub proof fn lemma_all_below_concat(s1: Seq<usize>, s2: Seq<usize>, n: int)
    requires
        all_below(s1 + s2, n),
    ensures
        all_below(s1, n),
        all_below(s2, n),
{
    assert forall|k: int| 0 <= k < s1.len() implies #[trigger] s1[k] < n by {
        assert((s1 + s2)[k] == s1[k]);
    }
    assert forall|k: int| 0 <= k < s2.len() implies #[trigger] s2[k] < n by {
        assert((s1 + s2)[s1.len() + k] == s2[k]);
    }
}

// ---------------------------------------------------------------------------
// The calls of a remapped block are the remapped calls.

pub proof fn lemma_remapped_block_calls(a: Seq<Statement>, b: Seq<Statement>, r: Seq<usize>)
    requires
        remapped_block(a, b, r),
    ensures
        block_calls(b) == block_calls(a).map_values(|h: usize| r[h as int]),
    decreases a,
{
    if a.len() > 0 {
        lemma_remapped_block_calls(a.drop_last(), b.drop_last(), r);
        lemma_remapped_stmt_calls(a.last(), b.last(), r);
        assert(block_calls(b) =~= block_calls(a).map_values(|h: usize| r[h as int]));
    } else {
        assert(block_calls(b) =~= block_calls(a).map_values(|h: usize| r[h as int]));
    }
}

pub proof fn lemma_remapped_stmt_calls(a: Statement, b: Statement, r: Seq<usize>)
    requires
        remapped_stmt(a, b, r),
    ensures
        stmt_calls(b) == stmt_calls(a).map_values(|h: usize| r[h as int]),
    decreases a,
{
    match a {
        Statement::Call { .. } => {
            assert(stmt_calls(b) =~= stmt_calls(a).map_values(|h: usize| r[h as int]));
        },
        Statement::Block(inner) => {
            if let Statement::Block(i2) = b {
                lemma_remapped_block_calls(inner@, i2@, r);
            }
        },
        Statement::If { accept, reject, .. } => {
            if let Statement::If { accept: a2, reject: j2, .. } = b {
                lemma_remapped_block_calls(accept@, a2@, r);
                lemma_remapped_block_calls(reject@, j2@, r);
            }
            assert(stmt_calls(b) =~= stmt_calls(a).map_values(|h: usize| r[h as int]));
        },
        Statement::Switch { cases, .. } => {
            if let Statement::Switch { cases: c2, .. } = b {
                lemma_remapped_cases_calls(cases@, c2@, r);
            }
        },
        Statement::Loop { body, continuing, .. } => {
            if let Statement::Loop { body: b2, continuing: n2, .. } = b {
                lemma_remapped_block_calls(body@, b2@, r);
                lemma_remapped_block_calls(continuing@, n2@, r);
            }
            assert(stmt_calls(b) =~= stmt_calls(a).map_values(|h: usize| r[h as int]));
        },
        _ => {
            assert(stmt_calls(b) =~= stmt_calls(a).map_values(|h: usize| r[h as int]));
        },
    }
}

pub proof fn lemma_remapped_cases_calls(a: Seq<SwitchCase>, b: Seq<SwitchCase>, r: Seq<usize>)
    requires
        remapped_cases(a, b, r),
    ensures
        cases_calls(b) == cases_calls(a).map_values(|h: usize| r[h as int]),
    decreases a,
{
    if a.len() > 0 {
        lemma_remapped_cases_calls(a.drop_last(), b.drop_last(), r);
        lemma_remapped_block_calls(a.last().body@, b.last().body@, r);
    }
    assert(cases_calls(b) =~= cases_calls(a).map_values(|h: usize| r[h as int]));
}

/// Renumbering a block changes nothing but the function handles of its
/// calls: every other statement, and the arguments and the result of every
/// call, are kept; and the calls of the new block, in order, are those of
/// the old one sent through `r`.
pub proof fn lemma_renumbering_changes_only_call_handles(a: Seq<Statement>, b: Seq<Statement>, r: Seq<usize>)
    requires
        remapped_block(a, b, r),
    ensures
        same_but_call_handles_block(a, b),
        block_calls(b) == block_calls(a).map_values(|h: usize| r[h as int]),
    decreases a,
{
    lemma_remapped_block_calls(a, b, r);
    if a.len() > 0 {
        lemma_renumbering_changes_only_call_handles(a.drop_last(), b.drop_last(), r);
        lemma_renumbered_stmt_shape(a.last(), b.last(), r);
    }
}

proof fn lemma_renumbered_stmt_shape(a: Statement, b: Statement, r: Seq<usize>)
    requires
        remapped_stmt(a, b, r),
    ensures
        same_but_call_handles_stmt(a, b),
    decreases a,
{
    match a {
        Statement::Block(inner) => {
            if let Statement::Block(i2) = b {
                lemma_renumbering_changes_only_call_handles(inner@, i2@, r);
            }
        },
        Statement::If { accept, reject, .. } => {
            if let Statement::If { accept: a2, reject: j2, .. } = b {
                lemma_renumbering_changes_only_call_handles(accept@, a2@, r);
                lemma_renumbering_changes_only_call_handles(reject@, j2@, r);
            }
        },
        Statement::Switch { cases, .. } => {
            if let Statement::Switch { cases: c2, .. } = b {
                lemma_renumbered_cases_shape(cases@, c2@, r);
            }
        },
        Statement::Loop { body, continuing, .. } => {
            if let Statement::Loop { body: b2, continuing: n2, .. } = b {
                lemma_renumbering_changes_only_call_handles(body@, b2@, r);
                lemma_renumbering_changes_only_call_handles(continuing@, n2@, r);
            }
        },
        _ => {},
    }
}

proof fn lemma_renumbered_cases_shape(a: Seq<SwitchCase>, b: Seq<SwitchCase>, r: Seq<usize>)
    requires
        remapped_cases(a, b, r),
    ensures
        same_but_call_handles_cases(a, b),
    decreases a,
{
    if a.len() > 0 {
        lemma_renumbered_cases_shape(a.drop_last(), b.drop_last(), r);
        lemma_renumbering_changes_only_call_handles(a.last().body@, b.last().body@, r);
    }
}

/// Renumbering the call results of a list of expressions changes only the
/// call results, each to the result of the renumbered function; every other
/// expression (arguments, variables, literals, loads, operations) is kept as
/// it was, whatever the renumbering.
pub proof fn lemma_renumbering_changes_only_call_results(a: Seq<Expression>, r: Seq<usize>)
    ensures
        a.map_values(|e: Expression| remapped_expr(e, r)).len() == a.len(),
        forall|i: int| 0 <= i < a.len() ==> {
            &&& ((#[trigger] a[i]) matches Expression::CallResult(h)
                ==> a.map_values(|e: Expression| remapped_expr(e, r))[i] == Expression::CallResult(r[h as int]))
            &&& (!(a[i] is CallResult) ==> a.map_values(|e: Expression| remapped_expr(e, r))[i] == a[i])
        },
{
}

/// The calls of the first `i` statements, then those of statement `i`, are
/// the calls of the first `i + 1`.
proof fn lemma_block_calls_step(a: Seq<Statement>, i: int)
    requires
        0 <= i < a.len(),
    ensures
        block_calls(a.take(i + 1)) == block_calls(a.take(i)) + stmt_calls(a[i]),
{
    assert(a.take(i + 1).drop_last() =~= a.take(i));
}

/// The calls of a prefix of `a` come first among the calls of `a`.
proof fn lemma_block_calls_prefix(a: Seq<Statement>, i: int)
    requires
        0 <= i <= a.len(),
    ensures
        block_calls(a.take(i)).is_prefix_of(block_calls(a)),
    decreases a.len() - i,
{
    if i == a.len() {
        assert(a.take(i) =~= a);
    } else {
        lemma_block_calls_prefix(a, i + 1);
        lemma_block_calls_step(a, i);
    }
}

/// The calls of statement `i` of `a` are all below `n` when all calls of `a` are.
proof fn lemma_stmt_calls_below(a: Seq<Statement>, i: int, n: int)
    requires
        0 <= i < a.len(),
        all_below(block_calls(a), n),
    ensures
        all_below(stmt_calls(a[i]), n),
{
    lemma_block_calls_prefix(a, i + 1);
    lemma_block_calls_step(a, i);
    let pre = block_calls(a.take(i));
    assert forall|k: int| 0 <= k < stmt_calls(a[i]).len() implies #[trigger] stmt_calls(a[i])[k] < n by {
        assert(block_calls(a.take(i + 1))[pre.len() + k] == stmt_calls(a[i])[k]);
        assert(block_calls(a)[pre.len() + k] == stmt_calls(a[i])[k]);
    }
}

proof fn lemma_case_calls_below(a: Seq<SwitchCase>, j: int, n: int)
    requires
        0 <= j < a.len(),
        all_below(cases_calls(a), n),
    ensures
        all_below(block_calls(a[j].body@), n),
    decreases a.len(),
{
    lemma_all_below_concat(cases_calls(a.drop_last()), block_calls(a.last().body@), n);
    if j < a.len() - 1 {
        assert(a.drop_last()[j] == a[j]);
        lemma_case_calls_below(a.drop_last(), j, n);
    }
}

/// Replaces the handle `h` of every call in `block`, nested blocks included,
/// by `remap[h]`.
pub fn remap_call_handles(block: &mut Vec<Statement>, remap: &[usize])
    requires
        all_below(block_calls(old(block)@), remap@.len() as int),
    ensures
        remapped_block(old(block)@, final(block)@, remap@),
        same_but_call_handles_block(old(block)@, final(block)@),
        block_calls(final(block)@) == block_calls(old(block)@).map_values(|h: usize| remap@[h as int]),
    decreases old(block)@,
{
    let ghost a = block@;
    let mut i: usize = 0;
    while i < block.len()
        invariant
            a == old(block)@,
            all_below(block_calls(a), remap@.len() as int),
            block@.len() == a.len(),
            i <= a.len(),
            remapped_block(a.take(i as int), block@.take(i as int), remap@),
            forall|j: int| i <= j < a.len() ==> #[trigger] block@[j] == a[j],
        decreases a.len() - i,
    {
        proof {
            lemma_stmt_calls_below(a, i as int, remap@.len() as int);
        }
        let ghost before = block@;
        match &mut block[i] {
            Statement::Call { function, .. } => {
                proof {
                    assert(stmt_calls(a[i as int])[0] == *function);
                }
                *function = remap[*function];
            },
            Statement::Block(inner) => {
                remap_call_handles(inner, remap);
            },
            Statement::If { accept, reject, .. } => {
                proof {
                    lemma_all_below_concat(block_calls(accept@), block_calls(reject@), remap@.len() as int);
                }
                remap_call_handles(accept, remap);
                remap_call_handles(reject, remap);
            },
            Statement::Switch { cases, .. } => {
                remap_case_handles(cases, remap);
            },
            Statement::Loop { body, continuing, .. } => {
                proof {
                    lemma_all_below_concat(block_calls(body@), block_calls(continuing@), remap@.len() as int);
                }
                remap_call_handles(body, remap);
                remap_call_handles(continuing, remap);
            },
            _ => {},
        }
        proof {
            assert(remapped_stmt(a[i as int], block@[i as int], remap@));
            assert(a.take(i + 1).drop_last() =~= a.take(i as int));
            assert(block@.take(i + 1).drop_last() =~= before.take(i as int));
            assert(block@.take(i + 1).drop_last() =~= block@.take(i as int));
        }
        i += 1;
    }
    proof {
        assert(a.take(a.len() as int) =~= a);
        assert(block@.take(a.len() as int) =~= block@);
        lemma_renumbering_changes_only_call_handles(a, block@, remap@);
    }
}

/// Replaces the call handles in the body of every case.
fn remap_case_handles(cases: &mut Vec<SwitchCase>, remap: &[usize])
    requires
        all_below(cases_calls(old(cases)@), remap@.len() as int),
    ensures
        remapped_cases(old(cases)@, final(cases)@, remap@),
    decreases old(cases)@,
{
    let ghost a = cases@;
    let mut j: usize = 0;
    while j < cases.len()
        invariant
            a == old(cases)@,
            all_below(cases_calls(a), remap@.len() as int),
            cases@.len() == a.len(),
            j <= a.len(),
            remapped_cases(a.take(j as int), cases@.take(j as int), remap@),
            forall|m: int| j <= m < a.len() ==> #[trigger] cases@[m] == a[m],
        decreases a.len() - j,
    {
        proof {
            lemma_case_calls_below(a, j as int, remap@.len() as int);
        }
        let ghost before = cases@;
        remap_call_handles(&mut cases[j].body, remap);
        proof {
            assert(cases@[j as int].value == a[j as int].value);
            assert(cases@[j as int].fall_through == a[j as int].fall_through);
            assert(remapped_block(a[j as int].body@, cases@[j as int].body@, remap@));
            assert(cases@.take(j + 1).drop_last() =~= before.take(j as int));
            assert(a.take(j + 1).drop_last() =~= a.take(j as int));
            assert(cases@.take(j + 1).drop_last() =~= cases@.take(j as int));
        }
        j += 1;
    }
    proof {
        assert(a.take(a.len() as int) =~= a);
        assert(cases@.take(a.len() as int) =~= cases@);
    }
}

/// Replaces the handle `h` of every call result in `expressions` by `remap[h]`.
pub fn remap_call_result_handles(expressions: &mut Vec<Expression>, remap: &[usize])
    requires
        all_below(call_results(old(expressions)@), remap@.len() as int),
    ensures
        final(expressions)@ == old(expressions)@.map_values(|e: Expression| remapped_expr(e, remap@)),
        final(expressions)@.len() == old(expressions)@.len(),
        forall|i: int| 0 <= i < old(expressions)@.len() ==> {
            &&& ((#[trigger] old(expressions)@[i]) matches Expression::CallResult(h)
                ==> final(expressions)@[i] == Expression::CallResult(remap@[h as int]))
            &&& (!(old(expressions)@[i] is CallResult) ==> final(expressions)@[i] == old(expressions)@[i])
        },
{
    let ghost a = expressions@;
    let mut i: usize = 0;
    while i < expressions.len()
        invariant
            a == old(expressions)@,
            all_below(call_results(a), remap@.len() as int),
            expressions@.len() == a.len(),
            i <= a.len(),
            forall|j: int| 0 <= j < i ==> #[trigger] expressions@[j] == remapped_expr(a[j], remap@),
            forall|j: int| i <= j < a.len() ==> #[trigger] expressions@[j] == a[j],
        decreases a.len() - i,
    {
        if let Expression::CallResult(function) = expressions[i] {
            proof {
                lemma_call_result_below(a, i as int, remap@.len() as int);
            }
            expressions[i] = Expression::CallResult(remap[function]);
        }
        i += 1;
    }
    proof {
        assert(expressions@ =~= a.map_values(|e: Expression| remapped_expr(e, remap@)));
        lemma_renumbering_changes_only_call_results(a, remap@);
    }
}

proof fn lemma_call_result_below(a: Seq<Expression>, i: int, n: int)
    requires
        0 <= i < a.len(),
        a[i] is CallResult,
        all_below(call_results(a), n),
    ensures
        a[i]->CallResult_0 < n,
    decreases a.len(),
{
    let tail = match a.last() {
        Expression::CallResult(h) => seq![h],
        _ => Seq::<usize>::empty(),
    };
    lemma_all_below_concat(call_results(a.drop_last()), tail, n);
    if i < a.len() - 1 {
        assert(a.drop_last()[i] == a[i]);
        lemma_call_result_below(a.drop_last(), i, n);
    } else {
        assert(call_results(a).last() == a[i]->CallResult_0);
    }
}

} // verus!
