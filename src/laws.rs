//! Properties of the flow pass, proved over its specification.
use vstd::prelude::*;
use crate::diag::{DiagKind, DropEvent};
use crate::flow::{
    analysis, borrow_end, close_rest, close_scope, diag, drop_vars, is_borrow, first_hit, hit, implicit_drop, known,
    lemma_drop_vars_frame, lemma_run_stays_err, op_target, run, step, use_error, wf, FlowModel, Probe,
    VarStatus,
};
use crate::ir::{overlaps, Op, Place, VarDecl};

verus! {

/// No entry hit means no first hit; a first hit is a hit.
pub proof fn lemma_first_hit(
    ops: Seq<Op>,
    s: Seq<usize>,
    probe: Probe,
    v: usize,
    path: Seq<usize>,
    i: int,
    shared: bool,
)
    ensures
        (forall|t: int| 0 <= t < s.len() ==> !hit(ops, #[trigger] s[t], probe, v, path, i, shared))
            <==> first_hit(ops, s, probe, v, path, i, shared) is None,
        first_hit(ops, s, probe, v, path, i, shared) matches Some(j) ==> 0 <= j < s.len() && hit(
            ops,
            s[j],
            probe,
            v,
            path,
            i,
            shared,
        ),
    decreases s.len(),
{
    if s.len() > 0 {
        lemma_first_hit(ops, s.drop_last(), probe, v, path, i, shared);
        if first_hit(ops, s, probe, v, path, i, shared) is None {
            assert forall|t: int| 0 <= t < s.len() implies !hit(ops, #[trigger] s[t], probe, v, path, i, shared) by {
                if t < s.len() - 1 {
                    assert(s.drop_last()[t] == s[t]);
                }
            }
        }
        if forall|t: int| 0 <= t < s.len() ==> !hit(ops, #[trigger] s[t], probe, v, path, i, shared) {
            assert forall|t: int| 0 <= t < s.drop_last().len() implies !hit(
                ops,
                #[trigger] s.drop_last()[t],
                probe,
                v,
                path,
                i,
                shared,
            ) by {
                assert(s.drop_last()[t] == s[t]);
            }
        }
    }
}

/// Every step keeps the facts of `wf`.
pub proof fn lemma_step_wf(ops: Seq<Op>, vars: Seq<VarDecl>, m: FlowModel, i: int)
    requires
        0 <= i < ops.len() <= usize::MAX,
        wf(m, vars.len() as int, i),
    ensures
        step(ops, vars, m, i) matches Ok(m2) ==> wf(m2, vars.len() as int, i + 1),
{
    match ops[i] {
        Op::ScopeExit => {
            if m.marks.len() > 0 {
                let start = m.marks.last() as int;
                let m1 = FlowModel {
                    marks: m.marks.drop_last(),
                    decls: m.decls.subrange(0, start),
                    ..m
                };
                let vs = m.decls.subrange(start, m.decls.len() as int);
                lemma_drop_vars_frame(ops, m1, vs, i);
                let m2 = drop_vars(ops, m1, vs, i);
                assert(close_scope(ops, m, i) == m2);
                assert forall|k: int| 0 <= k < m2.marks.len() implies #[trigger] m2.marks[k] <= m2.decls.len() by {
                    assert(m.marks[k] <= m.marks[m.marks.len() - 1]);
                }
                assert forall|a: int, b: int| 0 <= a <= b < m2.marks.len() implies m2.marks[a] <= m2.marks[b] by {
                    assert(m.marks[a] <= m.marks[b]);
                }
                assert(wf(m2, vars.len() as int, i + 1));
            }
        },
        Op::ScopeEnter => {
            if m.marks.len() > 0 {
                let m2 = FlowModel { marks: m.marks.push(m.decls.len() as usize), ..m };
                assert forall|a: int, b: int| 0 <= a <= b < m2.marks.len() implies m2.marks[a] <= m2.marks[b] by {
                    if b < m.marks.len() {
                        assert(m.marks[a] <= m.marks[b]);
                    } else if a < m.marks.len() {
                        assert(m.marks[a] <= m.decls.len());
                    }
                }
            }
        },
        _ => {},
    }
}

/// Every state the pass reaches satisfies `wf`.
pub proof fn lemma_run_wf(ops: Seq<Op>, vars: Seq<VarDecl>, k: int)
    requires
        0 <= k <= ops.len() <= usize::MAX,
    ensures
        run(ops, vars, k) matches Ok(m) ==> wf(m, vars.len() as int, k),
    decreases k,
{
    if k > 0 {
        lemma_run_wf(ops, vars, k - 1);
        if let Ok(m) = run(ops, vars, k - 1) {
            lemma_step_wf(ops, vars, m, k - 1);
        }
    }
}

/// An operation that neither moves, borrows nor drops anything.
pub open spec fn quiet(op: Op) -> bool {
    match op {
        Op::Bind { .. } => true,
        Op::Read { .. } => true,
        Op::Mutate { .. } => true,
        Op::ScopeEnter => true,
        Op::ScopeExit => true,
        Op::Return { place } => place is None,
        _ => false,
    }
}

/// How many scopes are open before operation `k`, the body's own included.
pub open spec fn depth(ops: Seq<Op>, k: int) -> int
    decreases k,
{
    if k <= 0 {
        1
    } else {
        depth(ops, k - 1) + if ops[k - 1] is ScopeEnter {
            1int
        } else if ops[k - 1] is ScopeExit {
            -1int
        } else {
            0int
        }
    }
}

/// Every operation finds a scope open, and no nested scope is left open.
pub open spec fn well_nested(ops: Seq<Op>) -> bool {
    &&& forall|k: int| 0 <= k < ops.len() ==> depth(ops, k) >= 1
    &&& depth(ops, ops.len() as int) <= 1
}

/// The state of a quiet body: nothing reported, moved, borrowed or dropped
/// explicitly, and as many scopes open as the markers say.
pub open spec fn calm(m: FlowModel) -> bool {
    &&& m.diags.len() == 0
    &&& m.moves.len() == 0
    &&& m.borrows.len() == 0
    &&& forall|v: int| 0 <= v < m.status.len() ==> m.status[v] != VarStatus::Dropped
}

proof fn lemma_calm_drops(ops: Seq<Op>, m: FlowModel, vs: Seq<usize>, i: int)
    requires
        calm(m),
    ensures
        calm(drop_vars(ops, m, vs, i)),
        drop_vars(ops, m, vs, i).marks == m.marks,
    decreases vs.len(),
{
    if vs.len() > 0 {
        let m1 = implicit_drop(ops, m, vs.last(), i);
        assert(calm(m1));
        lemma_calm_drops(ops, m1, vs.drop_last(), i);
    }
}

proof fn lemma_calm_run(ops: Seq<Op>, vars: Seq<VarDecl>, k: int)
    requires
        0 <= k <= ops.len() <= usize::MAX,
        forall|j: int| 0 <= j < ops.len() ==> quiet(#[trigger] ops[j]),
        well_nested(ops),
    ensures
        run(ops, vars, k) matches Ok(m) ==> calm(m) && m.marks.len() == depth(ops, k),
    decreases k,
{
    if k > 0 {
        lemma_calm_run(ops, vars, k - 1);
        lemma_run_wf(ops, vars, k - 1);
        if let Ok(m) = run(ops, vars, k - 1) {
            let i = k - 1;
            assert(quiet(ops[i]));
            assert(depth(ops, i) >= 1);
            match ops[i] {
                Op::ScopeExit => {
                    let start = m.marks.last() as int;
                    let m1 = FlowModel {
                        marks: m.marks.drop_last(),
                        decls: m.decls.subrange(0, start),
                        ..m
                    };
                    lemma_calm_drops(ops, m1, m.decls.subrange(start, m.decls.len() as int), i);
                },
                _ => {},
            }
        }
    }
}

/// A body that never moves, borrows or explicitly drops, and whose scope
/// markers are balanced, draws no diagnostic: the implicit drops at scope
/// exits never violate anything.
pub proof fn law_quiet_body_accepted(ops: Seq<Op>, vars: Seq<VarDecl>)
    requires
        ops.len() <= usize::MAX,
        forall|j: int| 0 <= j < ops.len() ==> quiet(#[trigger] ops[j]),
        well_nested(ops),
    ensures
        analysis(ops, vars) matches Ok(m) ==> m.diags.len() == 0,
{
    let n = ops.len() as int;
    lemma_calm_run(ops, vars, n);
    if let Ok(m) = run(ops, vars, n) {
        if m.marks.len() == 1 {
            let m1 = FlowModel { marks: m.marks.drop_last(), decls: m.decls.subrange(0, m.marks.last() as int), ..m };
            lemma_calm_drops(ops, m1, m.decls.subrange(m.marks.last() as int, m.decls.len() as int), n);
            assert(close_rest(ops, m, n, 1) == close_rest(ops, close_scope(ops, m, n), n, 0));
        }
    }
}

/// Whether an operation names variable `v`.
pub open spec fn mentions(op: Op, v: usize) -> bool {
    match op {
        Op::Bind { var } => var == v,
        Op::Drop { var } => var == v,
        _ => op_target(op) matches Some(p) && p.var == v,
    }
}

proof fn lemma_never_dropped(ops: Seq<Op>, vars: Seq<VarDecl>, v: usize, k: int)
    requires
        0 <= k <= ops.len() <= usize::MAX,
        v < vars.len(),
        forall|j: int| 0 <= j < k && mentions(#[trigger] ops[j], v) ==> !(ops[j] is Drop),
    ensures
        run(ops, vars, k) matches Ok(m) ==> m.status[v as int] != VarStatus::Dropped,
    decreases k,
{
    if k > 0 {
        lemma_never_dropped(ops, vars, v, k - 1);
        lemma_run_wf(ops, vars, k - 1);
        if let Ok(m) = run(ops, vars, k - 1) {
            let i = k - 1;
            assert(mentions(ops[i], v) ==> !(ops[i] is Drop));
            match ops[i] {
                Op::ScopeExit => {
                    if m.marks.len() > 0 {
                        let start = m.marks.last() as int;
                        let m1 = FlowModel {
                            marks: m.marks.drop_last(),
                            decls: m.decls.subrange(0, start),
                            ..m
                        };
                        lemma_not_dropped_drops(ops, m1, m.decls.subrange(start, m.decls.len() as int), i, v);
                    }
                },
                _ => {},
            }
        }
    }
}

proof fn lemma_not_dropped_drops(ops: Seq<Op>, m: FlowModel, vs: Seq<usize>, i: int, v: usize)
    requires
        v < m.status.len(),
        m.status[v as int] != VarStatus::Dropped,
    ensures
        drop_vars(ops, m, vs, i).status[v as int] != VarStatus::Dropped,
        drop_vars(ops, m, vs, i).status.len() == m.status.len(),
    decreases vs.len(),
{
    if vs.len() > 0 {
        lemma_not_dropped_drops(ops, implicit_drop(ops, m, vs.last(), i), vs.drop_last(), i, v);
    }
}

/// An active accepted exclusive borrow that overlaps `p` at `j`.
pub open spec fn exclusive_blocker(ops: Seq<Op>, m: FlowModel, p: Place, j: int) -> bool {
    exists|t: int|
        0 <= t < m.borrows.len() && ops[m.borrows[t] as int] is BorrowExclusive && #[trigger] hit(
            ops,
            m.borrows[t],
            Probe::Block,
            p.var,
            p.path@,
            j,
            false,
        )
}

/// Shared borrows never conflict with shared borrows: a `ConflictingBorrow`
/// drawn by a shared borrow always names an accepted exclusive borrow of an
/// overlapping place that is still in use, and when such a borrow exists
/// (the place being usable) the shared borrow is refused with that one
/// diagnostic and not recorded.
pub proof fn law_shared_borrow(ops: Seq<Op>, vars: Seq<VarDecl>, m: FlowModel, j: int, p: Place)
    requires
        0 <= j < ops.len(),
        ops[j] == (Op::BorrowShared { place: p }),
        known(m, p.var),
    ensures
        step(ops, vars, m, j) matches Ok(m2) && (!exclusive_blocker(ops, m, p, j) ==> (m2.diags
            == m.diags || m2.diags.last().kind != DiagKind::ConflictingBorrow)) && (
        exclusive_blocker(ops, m, p, j) && use_error(ops, m, p, j) is None ==> (m2.diags.len()
            == m.diags.len() + 1 && m2.diags.last().kind == DiagKind::ConflictingBorrow
            && m2.borrows == m.borrows)) && (m2.diags.len() > m.diags.len()
            && m2.diags.last().kind == DiagKind::ConflictingBorrow ==> (m2.diags.last().related matches Some(b)
            && m.borrows.contains(b) && ops[b as int] is BorrowExclusive && hit(
            ops,
            b,
            Probe::Block,
            p.var,
            p.path@,
            j,
            false,
        ))),
{
    lemma_first_hit(ops, m.borrows, Probe::Block, p.var, p.path@, j, true);
    if let Some(k) = first_hit(ops, m.borrows, Probe::Block, p.var, p.path@, j, true) {
        assert(m.borrows.contains(m.borrows[k]));
    }
    assert(use_error(ops, m, p, j) matches Some(d) ==> d.kind != DiagKind::ConflictingBorrow);
    if !exclusive_blocker(ops, m, p, j) {
        assert forall|t: int| 0 <= t < m.borrows.len() implies !hit(ops, #[trigger] m.borrows[t], Probe::Block, p.var, p.path@, j, true) by {
            if hit(ops, m.borrows[t], Probe::Block, p.var, p.path@, j, true) {
                assert(hit(ops, m.borrows[t], Probe::Block, p.var, p.path@, j, false));
            }
        }
    } else {
        let t = choose|t: int|
            0 <= t < m.borrows.len() && ops[m.borrows[t] as int] is BorrowExclusive && #[trigger] hit(
                ops,
                m.borrows[t],
                Probe::Block,
                p.var,
                p.path@,
                j,
                false,
            );
        assert(hit(ops, m.borrows[t], Probe::Block, p.var, p.path@, j, true));
    }
}

/// The implicit drops of the variables `vs`, the last declared first.
pub open spec fn reverse_drops(vs: Seq<usize>, i: int) -> Seq<DropEvent>
    decreases vs.len(),
{
    if vs.len() == 0 {
        Seq::empty()
    } else {
        seq![DropEvent { var: vs.last(), at: i as usize }] + reverse_drops(vs.drop_last(), i)
    }
}

/// The variables declared in the innermost open scope, in order.
pub open spec fn top_scope(m: FlowModel) -> Seq<usize> {
    m.decls.subrange(m.marks.last() as int, m.decls.len() as int)
}

/// Variables still live and not moved out whole at `i`.
pub open spec fn intact(ops: Seq<Op>, m: FlowModel, vs: Seq<usize>, i: int) -> bool {
    forall|t: int|
        0 <= t < vs.len() ==> #[trigger] vs[t] < m.status.len() && m.status[vs[t] as int] == VarStatus::Live
            && first_hit(ops, m.moves, Probe::Cover, vs[t], Seq::empty(), i, false) is None
}

proof fn lemma_drop_vars_order(ops: Seq<Op>, m: FlowModel, vs: Seq<usize>, i: int)
    requires
        vs.no_duplicates(),
        intact(ops, m, vs, i),
    ensures
        drop_vars(ops, m, vs, i).drops == m.drops + reverse_drops(vs, i),
    decreases vs.len(),
{
    if vs.len() == 0 {
        assert(m.drops + reverse_drops(vs, i) =~= m.drops);
    } else {
        let v = vs.last();
        let m1 = implicit_drop(ops, m, v, i);
        assert(vs[vs.len() - 1] == v);
        assert(m1.drops == m.drops.push(DropEvent { var: v, at: i as usize }));
        assert(intact(ops, m1, vs.drop_last(), i)) by {
            assert forall|t: int| 0 <= t < vs.drop_last().len() implies #[trigger] vs.drop_last()[t] < m1.status.len()
                && m1.status[vs.drop_last()[t] as int] == VarStatus::Live && first_hit(
                ops,
                m1.moves,
                Probe::Cover,
                vs.drop_last()[t],
                Seq::empty(),
                i,
                false,
            ) is None by {
                assert(vs.drop_last()[t] == vs[t]);
                assert(vs[t] != vs[vs.len() - 1]);
            }
        }
        assert(vs.drop_last().no_duplicates());
        lemma_drop_vars_order(ops, m1, vs.drop_last(), i);
        assert(m.drops + reverse_drops(vs, i) =~= m1.drops + reverse_drops(vs.drop_last(), i));
    }
}

/// When a scope closes, its variables that are still live and not moved
/// out whole are destroyed in the reverse of their declaration order.
pub proof fn law_drop_order(ops: Seq<Op>, vars: Seq<VarDecl>, m: FlowModel, i: int)
    requires
        0 <= i < ops.len() <= usize::MAX,
        ops[i] is ScopeExit,
        m.marks.len() > 0,
        wf(m, vars.len() as int, i),
        top_scope(m).no_duplicates(),
        intact(ops, m, top_scope(m), i),
    ensures
        step(ops, vars, m, i) matches Ok(m2) && m2.drops == m.drops + reverse_drops(top_scope(m), i),
{
    let start = m.marks.last() as int;
    let m1 = FlowModel { marks: m.marks.drop_last(), decls: m.decls.subrange(0, start), ..m };
    lemma_drop_vars_order(ops, m1, top_scope(m), i);
}

/// The borrow created at `b1` is still in use when the one at `b2` is
/// created, and their places overlap.
pub open spec fn coexist(ops: Seq<Op>, b1: usize, b2: usize) -> bool {
    &&& b2 < borrow_end(ops, b1 as int)
    &&& op_target(ops[b1 as int]) is Some
    &&& op_target(ops[b2 as int]) is Some
    &&& overlaps(op_target(ops[b1 as int])->Some_0, op_target(ops[b2 as int])->Some_0)
}

/// What the accepted borrows of a state satisfy: each comes from a borrow
/// operation, they are in creation order, and two that coexist are shared.
pub open spec fn borrows_compatible(ops: Seq<Op>, bs: Seq<usize>) -> bool {
    &&& forall|t: int| 0 <= t < bs.len() ==> is_borrow(ops[#[trigger] bs[t] as int])
    &&& forall|t1: int, t2: int| 0 <= t1 < t2 < bs.len() ==> bs[t1] < bs[t2]
    &&& forall|t1: int, t2: int|
        0 <= t1 < t2 < bs.len() && coexist(ops, #[trigger] bs[t1], #[trigger] bs[t2]) ==> ops[bs[t1] as int] is BorrowShared
            && ops[bs[t2] as int] is BorrowShared
}

proof fn lemma_step_compatible(ops: Seq<Op>, vars: Seq<VarDecl>, m: FlowModel, i: int)
    requires
        0 <= i < ops.len() <= usize::MAX,
        wf(m, vars.len() as int, i),
        borrows_compatible(ops, m.borrows),
    ensures
        step(ops, vars, m, i) matches Ok(m2) ==> borrows_compatible(ops, m2.borrows),
{
    match ops[i] {
        Op::ScopeExit => {
            if m.marks.len() > 0 {
                let start = m.marks.last() as int;
                let m1 = FlowModel {
                    marks: m.marks.drop_last(),
                    decls: m.decls.subrange(0, start),
                    ..m
                };
                lemma_drop_vars_frame(ops, m1, m.decls.subrange(start, m.decls.len() as int), i);
            }
        },
        Op::BorrowShared { place } => {
            if first_hit(ops, m.borrows, Probe::Block, place.var, place.path@, i, true) is None {
                lemma_new_borrow_compatible(ops, m, place, i, true);
            }
        },
        Op::BorrowExclusive { place } => {
            if first_hit(ops, m.borrows, Probe::Block, place.var, place.path@, i, false) is None {
                lemma_new_borrow_compatible(ops, m, place, i, false);
            }
        },
        _ => {},
    }
}

proof fn lemma_new_borrow_compatible(ops: Seq<Op>, m: FlowModel, p: Place, i: int, shared: bool)
    requires
        0 <= i < ops.len() <= usize::MAX,
        (shared ==> ops[i] == (Op::BorrowShared { place: p })),
        (!shared ==> ops[i] == (Op::BorrowExclusive { place: p })),
        forall|t: int| 0 <= t < m.borrows.len() ==> m.borrows[t] < i,
        borrows_compatible(ops, m.borrows),
        first_hit(ops, m.borrows, Probe::Block, p.var, p.path@, i, shared) is None,
    ensures
        borrows_compatible(ops, m.borrows.push(i as usize)),
{
    let bs = m.borrows.push(i as usize);
    lemma_first_hit(ops, m.borrows, Probe::Block, p.var, p.path@, i, shared);
    assert forall|t1: int, t2: int|
        0 <= t1 < t2 < bs.len() && coexist(ops, #[trigger] bs[t1], #[trigger] bs[t2]) implies ops[bs[t1] as int] is BorrowShared
            && ops[bs[t2] as int] is BorrowShared by {
        if t2 == bs.len() - 1 {
            assert(bs[t1] == m.borrows[t1]);
            assert(!hit(ops, m.borrows[t1], Probe::Block, p.var, p.path@, i, shared));
        } else {
            assert(bs[t1] == m.borrows[t1] && bs[t2] == m.borrows[t2]);
        }
    }
    assert forall|t: int| 0 <= t < bs.len() implies is_borrow(ops[#[trigger] bs[t] as int]) by {
        if t < bs.len() - 1 {
            assert(bs[t] == m.borrows[t]);
        }
    }
}

/// At every point of the pass, two accepted borrows of overlapping places
/// that are in use at the same time are both shared: an exclusive borrow is
/// never accepted beside another borrow of the same storage.
pub proof fn law_accepted_borrows_compatible(ops: Seq<Op>, vars: Seq<VarDecl>, k: int)
    requires
        0 <= k <= ops.len() <= usize::MAX,
    ensures
        run(ops, vars, k) matches Ok(m) ==> borrows_compatible(ops, m.borrows),
    decreases k,
{
    if k > 0 {
        law_accepted_borrows_compatible(ops, vars, k - 1);
        lemma_run_wf(ops, vars, k - 1);
        if let Ok(m) = run(ops, vars, k - 1) {
            lemma_step_compatible(ops, vars, m, k - 1);
        }
    }
}

/// Operations that leave the ownership of `v` alone: they do not name it,
/// or they bind, read or write it.
pub open spec fn harmless(op: Op, v: usize) -> bool {
    !mentions(op, v) || op is Bind || op is Read || op is Mutate
}

/// What a step does to the recorded moves: nothing, or it records itself,
/// a move out of a place.
proof fn lemma_step_moves(ops: Seq<Op>, vars: Seq<VarDecl>, m: FlowModel, i: int)
    requires
        0 <= i < ops.len() <= usize::MAX,
        wf(m, vars.len() as int, i),
    ensures
        step(ops, vars, m, i) matches Ok(m2) ==> m2.moves == m.moves || (m2.moves == m.moves.push(
            i as usize,
        ) && (ops[i] is Move || ops[i] is Return) && op_target(ops[i]) is Some),
{
    match ops[i] {
        Op::ScopeExit => {
            if m.marks.len() > 0 {
                let start = m.marks.last() as int;
                let m1 = FlowModel {
                    marks: m.marks.drop_last(),
                    decls: m.decls.subrange(0, start),
                    ..m
                };
                lemma_drop_vars_frame(ops, m1, m.decls.subrange(start, m.decls.len() as int), i);
            }
        },
        _ => {},
    }
}

/// Every recorded move is a move or a return of a place.
proof fn lemma_run_moves(ops: Seq<Op>, vars: Seq<VarDecl>, k: int)
    requires
        0 <= k <= ops.len() <= usize::MAX,
    ensures
        run(ops, vars, k) matches Ok(m) ==> forall|t: int|
            0 <= t < m.moves.len() ==> (ops[#[trigger] m.moves[t] as int] is Move || ops[m.moves[t] as int] is Return)
                && op_target(ops[m.moves[t] as int]) is Some,
    decreases k,
{
    if k > 0 {
        lemma_run_moves(ops, vars, k - 1);
        lemma_run_wf(ops, vars, k - 1);
        if let Ok(m) = run(ops, vars, k - 1) {
            lemma_step_moves(ops, vars, m, k - 1);
        }
    }
}

/// The facts about `v` in a state reached with one move of `v`, at `k`,
/// and otherwise only harmless operations on it.
pub open spec fn one_move(ops: Seq<Op>, m: FlowModel, v: usize, k: int, i: int) -> bool {
    &&& m.status[v as int] != VarStatus::Dropped
    &&& forall|t: int|
        0 <= t < m.moves.len() && (#[trigger] op_target(ops[m.moves[t] as int]))->Some_0.var == v ==> m.moves[t]
            == k
    &&& forall|t: int| 0 <= t < m.moves.len() ==> op_target(ops[#[trigger] m.moves[t] as int]) is Some
    &&& forall|t: int|
        0 <= t < m.borrows.len() ==> (#[trigger] op_target(ops[m.borrows[t] as int]))->Some_0.var != v
    &&& forall|t: int| 0 <= t < m.borrows.len() ==> op_target(ops[#[trigger] m.borrows[t] as int]) is Some
    &&& (i > k ==> exists|t: int| 0 <= t < m.moves.len() && m.moves[t] == k)
}

proof fn lemma_one_move(ops: Seq<Op>, vars: Seq<VarDecl>, v: usize, k: int, i: int)
    requires
        0 <= k < ops.len() <= usize::MAX,
        0 <= i <= ops.len(),
        v < vars.len(),
        !vars[v as int].copy,
        (ops[k] matches Op::Move { place } && place.var == v),
        forall|t: int| 0 <= t < i && t != k ==> harmless(#[trigger] ops[t], v),
    ensures
        run(ops, vars, i) matches Ok(m) ==> one_move(ops, m, v, k, i),
    decreases i,
{
    lemma_run_wf(ops, vars, i);
    lemma_run_moves(ops, vars, i);
    law_accepted_borrows_compatible(ops, vars, i);
    lemma_never_dropped(ops, vars, v, i);
    if let Ok(m) = run(ops, vars, i) {
        assert forall|t: int|
            0 <= t < m.moves.len() && (#[trigger] op_target(ops[m.moves[t] as int]))->Some_0.var == v implies m.moves[t]
            == k by {
            if m.moves[t] != k {
                assert(harmless(ops[m.moves[t] as int], v));
            }
        }
        assert forall|t: int|
            0 <= t < m.borrows.len() implies (#[trigger] op_target(ops[m.borrows[t] as int]))->Some_0.var != v
            && op_target(ops[m.borrows[t] as int]) is Some by {
            assert(is_borrow(ops[m.borrows[t] as int]));
            assert(harmless(ops[m.borrows[t] as int], v));
        }
        if i > k {
            lemma_one_move(ops, vars, v, k, i - 1);
            lemma_run_wf(ops, vars, i - 1);
            let m0 = run(ops, vars, i - 1)->Ok_0;
            lemma_step_moves(ops, vars, m0, i - 1);
            if i - 1 == k {
                let p = ops[k]->Move_place;
                lemma_first_hit(ops, m0.moves, Probe::Cover, v, p.path@, k, false);
                lemma_first_hit(ops, m0.moves, Probe::Inside, v, p.path@, k, false);
                lemma_first_hit(ops, m0.borrows, Probe::Block, v, p.path@, k, false);
                assert(m.moves == m0.moves.push(k as usize));
                assert(m.moves[m0.moves.len() as int] == k);
            } else {
                let t0 = choose|t: int| 0 <= t < m0.moves.len() && m0.moves[t] == k;
                assert(m.moves[t0] == k);
            }
        }
    } else {
        if i > 0 {
            lemma_one_move(ops, vars, v, k, i - 1);
        }
    }
}

/// Moving a whole variable out and later reading it draws exactly one
/// diagnostic at the read, a `UseAfterMove` that points at the move, and
/// none at the move, whatever unrelated operations come before or between.
pub proof fn law_read_after_move(ops: Seq<Op>, vars: Seq<VarDecl>, v: usize, k: int, j: int)
    requires
        ops.len() <= usize::MAX,
        0 <= k < j < ops.len(),
        v < vars.len(),
        !vars[v as int].copy,
        forall|t: int| 0 <= t < j && t != k && mentions(#[trigger] ops[t], v) ==> ops[t] is Bind,
        (ops[k] matches Op::Move { place } && place.var == v && place.path@.len() == 0),
        (ops[j] matches Op::Read { place, via } && place.var == v && place.path@.len() == 0
            && via is None),
        run(ops, vars, j + 1) is Ok,
    ensures
        run(ops, vars, k) matches Ok(m0) && run(ops, vars, k + 1) matches Ok(m1) && m1.diags == m0.diags,
        run(ops, vars, j) matches Ok(mj) && run(ops, vars, j + 1) matches Ok(m2) && m2.diags
            == mj.diags.push(diag(DiagKind::UseAfterMove, Some(v), j, Some(k as usize))),
{
    assert forall|t: int| 0 <= t < j + 1 && t != k implies harmless(#[trigger] ops[t], v) by {}
    if run(ops, vars, k) is Err {
        lemma_run_stays_err(ops, vars, k, j + 1);
    }
    if run(ops, vars, k + 1) is Err {
        lemma_run_stays_err(ops, vars, k + 1, j + 1);
    }
    if run(ops, vars, j) is Err {
        lemma_run_stays_err(ops, vars, j, j + 1);
    }
    lemma_one_move(ops, vars, v, k, k);
    lemma_one_move(ops, vars, v, k, j);
    lemma_run_moves(ops, vars, k);
    let m0 = run(ops, vars, k)->Ok_0;
    let p = ops[k]->Move_place;
    lemma_run_wf(ops, vars, k);
    assert forall|t: int| 0 <= t < m0.moves.len() implies !hit(ops, #[trigger] m0.moves[t], Probe::Cover, v, p.path@, k, false)
        && !hit(ops, m0.moves[t], Probe::Inside, v, p.path@, k, false) by {
        if op_target(ops[m0.moves[t] as int])->Some_0.var == v {
            assert(m0.moves[t] < k);
        }
    }
    lemma_first_hit(ops, m0.moves, Probe::Cover, v, p.path@, k, false);
    lemma_first_hit(ops, m0.moves, Probe::Inside, v, p.path@, k, false);
    lemma_first_hit(ops, m0.borrows, Probe::Block, v, p.path@, k, false);
    let mj = run(ops, vars, j)->Ok_0;
    let q = ops[j]->Read_place;
    lemma_first_hit(ops, mj.moves, Probe::Cover, v, q.path@, j, false);
    let t0 = choose|t: int| 0 <= t < mj.moves.len() && mj.moves[t] == k;
    assert(q.path@.subrange(0, 0) =~= p.path@);
    assert(hit(ops, mj.moves[t0], Probe::Cover, v, q.path@, j, false));
}

/// Moving a field out leaves its parent partially moved: a later use of the
/// whole parent draws exactly one `PartialMoveError`, pointing at the move,
/// while a later read of a sibling field draws nothing, and the move itself
/// draws nothing either.
pub proof fn law_partial_move(
    ops: Seq<Op>,
    vars: Seq<VarDecl>,
    v: usize,
    x: usize,
    y: usize,
    k: int,
    j: int,
    l: int,
)
    requires
        ops.len() <= usize::MAX,
        0 <= k < j < l < ops.len(),
        v < vars.len(),
        !vars[v as int].copy,
        x != y,
        forall|t: int| 0 <= t < l && t != k && mentions(#[trigger] ops[t], v) ==> ops[t] is Bind || ops[t] is Read,
        (ops[k] matches Op::Move { place } && place.var == v && place.path@ == seq![x]),
        (ops[j] matches Op::Read { place, via } && place.var == v && place.path@.len() == 0
            && via is None),
        (ops[l] matches Op::Read { place, via } && place.var == v && place.path@ == seq![y]
            && via is None),
        run(ops, vars, l + 1) is Ok,
    ensures
        run(ops, vars, k) matches Ok(m0) && run(ops, vars, k + 1) matches Ok(m1) && m1.diags == m0.diags,
        run(ops, vars, j) matches Ok(mj) && run(ops, vars, j + 1) matches Ok(m2) && m2.diags
            == mj.diags.push(diag(DiagKind::PartialMoveError, Some(v), j, Some(k as usize))),
        run(ops, vars, l) matches Ok(ml) && run(ops, vars, l + 1) matches Ok(m3) && m3.diags == ml.diags,
{
    assert forall|t: int| 0 <= t < l + 1 && t != k implies harmless(#[trigger] ops[t], v) by {}
    if run(ops, vars, k) is Err {
        lemma_run_stays_err(ops, vars, k, l + 1);
    }
    if run(ops, vars, k + 1) is Err {
        lemma_run_stays_err(ops, vars, k + 1, l + 1);
    }
    if run(ops, vars, j) is Err {
        lemma_run_stays_err(ops, vars, j, l + 1);
    }
    if run(ops, vars, j + 1) is Err {
        lemma_run_stays_err(ops, vars, j + 1, l + 1);
    }
    if run(ops, vars, l) is Err {
        lemma_run_stays_err(ops, vars, l, l + 1);
    }
    lemma_one_move(ops, vars, v, k, k);
    lemma_one_move(ops, vars, v, k, j);
    lemma_one_move(ops, vars, v, k, l);
    let p = ops[k]->Move_place;
    let m0 = run(ops, vars, k)->Ok_0;
    lemma_run_wf(ops, vars, k);
    assert forall|t: int| 0 <= t < m0.moves.len() implies !hit(ops, #[trigger] m0.moves[t], Probe::Cover, v, p.path@, k, false)
        && !hit(ops, m0.moves[t], Probe::Inside, v, p.path@, k, false) by {
        if op_target(ops[m0.moves[t] as int])->Some_0.var == v {
            assert(m0.moves[t] < k);
        }
    }
    lemma_first_hit(ops, m0.moves, Probe::Cover, v, p.path@, k, false);
    lemma_first_hit(ops, m0.moves, Probe::Inside, v, p.path@, k, false);
    lemma_first_hit(ops, m0.borrows, Probe::Block, v, p.path@, k, false);
    let mj = run(ops, vars, j)->Ok_0;
    let q = ops[j]->Read_place;
    lemma_first_hit(ops, mj.moves, Probe::Cover, v, q.path@, j, false);
    lemma_first_hit(ops, mj.moves, Probe::Inside, v, q.path@, j, false);
    assert forall|t: int| 0 <= t < mj.moves.len() implies !hit(ops, #[trigger] mj.moves[t], Probe::Cover, v, q.path@, j, false) by {
        if hit(ops, mj.moves[t], Probe::Cover, v, q.path@, j, false) {
            assert(mj.moves[t] == k);
        }
    }
    let t0 = choose|t: int| 0 <= t < mj.moves.len() && mj.moves[t] == k;
    assert(q.path@ =~= p.path@.subrange(0, 0));
    assert(hit(ops, mj.moves[t0], Probe::Inside, v, q.path@, j, false));
    let ml = run(ops, vars, l)->Ok_0;
    let r = ops[l]->Read_place;
    lemma_first_hit(ops, ml.moves, Probe::Cover, v, r.path@, l, false);
    lemma_first_hit(ops, ml.moves, Probe::Inside, v, r.path@, l, false);
    assert forall|t: int| 0 <= t < ml.moves.len() implies !hit(ops, #[trigger] ml.moves[t], Probe::Cover, v, r.path@, l, false)
        && !hit(ops, ml.moves[t], Probe::Inside, v, r.path@, l, false) by {
        if op_target(ops[ml.moves[t] as int])->Some_0.var == v {
            assert(ml.moves[t] == k);
            assert(r.path@[0] == y && p.path@[0] == x);
        }
    }
}

/// An accepted borrow of a place overlapping `p` that is still used after
/// index `i`.
pub open spec fn borrowed_later(ops: Seq<Op>, m: FlowModel, p: Place, i: int) -> bool {
    exists|t: int|
        0 <= t < m.borrows.len() && #[trigger] hit(ops, m.borrows[t], Probe::Block, p.var, p.path@, i, false)
}

/// With non-lexical borrow regions, moving a usable place out is refused
/// exactly while an accepted borrow of an overlapping place still has a use
/// to come: then one `MoveWhileBorrowed` names such a borrow and nothing is
/// moved; otherwise the move is recorded and nothing is reported.
pub proof fn law_move_while_borrowed(ops: Seq<Op>, vars: Seq<VarDecl>, m: FlowModel, i: int, p: Place)
    requires
        0 <= i < ops.len(),
        ops[i] == (Op::Move { place: p }),
        known(m, p.var),
        p.var < vars.len(),
        !vars[p.var as int].copy,
        use_error(ops, m, p, i) is None,
    ensures
        step(ops, vars, m, i) matches Ok(m2) && (borrowed_later(ops, m, p, i) ==> (m2.moves == m.moves
            && m2.diags.len() == m.diags.len() + 1 && m2.diags.drop_last() == m.diags
            && m2.diags.last().kind == DiagKind::MoveWhileBorrowed && (m2.diags.last().related matches Some(
            b,
        ) && m.borrows.contains(b) && i < borrow_end(ops, b as int)))) && (!borrowed_later(ops, m, p, i) ==> (
        m2.diags == m.diags && m2.moves == m.moves.push(i as usize))),
{
    lemma_first_hit(ops, m.borrows, Probe::Block, p.var, p.path@, i, false);
    if borrowed_later(ops, m, p, i) {
        let j = first_hit(ops, m.borrows, Probe::Block, p.var, p.path@, i, false)->Some_0;
        assert(m.borrows.contains(m.borrows[j]));
        let m2 = step(ops, vars, m, i)->Ok_0;
        assert(m2.diags.drop_last() =~= m.diags);
    }
}

/// Likewise for an explicit drop of a live variable not moved out whole:
/// it is refused exactly while a borrow of any part of it has a use to
/// come.
pub proof fn law_drop_while_borrowed(ops: Seq<Op>, vars: Seq<VarDecl>, m: FlowModel, i: int, v: usize)
    requires
        0 <= i < ops.len(),
        ops[i] == (Op::Drop { var: v }),
        v < m.status.len(),
        m.status[v as int] == VarStatus::Live,
        first_hit(ops, m.moves, Probe::Cover, v, Seq::empty(), i, false) is None,
    ensures
        step(ops, vars, m, i) matches Ok(m2) && ((exists|t: int|
            0 <= t < m.borrows.len() && #[trigger] hit(ops, m.borrows[t], Probe::Block, v, Seq::empty(), i, false))
            ==> (m2.status == m.status && m2.diags.len() == m.diags.len() + 1 && m2.diags.drop_last() == m.diags
            && m2.diags.last().kind == DiagKind::MoveWhileBorrowed && (m2.diags.last().related matches Some(b)
            && m.borrows.contains(b) && i < borrow_end(ops, b as int)))) && ((forall|t: int|
            0 <= t < m.borrows.len() ==> !#[trigger] hit(ops, m.borrows[t], Probe::Block, v, Seq::empty(), i, false))
            ==> (m2.diags == m.diags && m2.status == m.status.update(v as int, VarStatus::Dropped))),
{
    lemma_first_hit(ops, m.borrows, Probe::Block, v, Seq::empty(), i, false);
    if exists|t: int|
        0 <= t < m.borrows.len() && #[trigger] hit(ops, m.borrows[t], Probe::Block, v, Seq::empty(), i, false) {
        let j = first_hit(ops, m.borrows, Probe::Block, v, Seq::empty(), i, false)->Some_0;
        assert(m.borrows.contains(m.borrows[j]));
        let m2 = step(ops, vars, m, i)->Ok_0;
        assert(m2.diags.drop_last() =~= m.diags);
    }
}

} // verus!
