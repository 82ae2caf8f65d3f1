//! The flow-sensitive pass: ownership of every place and the borrows taken
//! of it, in program order.
//!
//! The pass is specified as a state machine (`step`, `run`, `analysis`)
//! over `FlowModel`; the executable checker is proved to compute exactly it.
use vstd::prelude::*;
use crate::diag::{BorrowFact, DiagKind, Diagnostic, DropEvent, Fault, Report};
use crate::ir::{is_prefix, overlaps, path_is_prefix, places_overlap, Op, Place, Program, VarDecl};

verus! {

/// The lifecycle of a variable.
#[derive(Clone, Copy, PartialEq, Eq, Structural, Debug)]
pub enum VarStatus {
    /// Not bound yet.
    Unbound,
    /// Bound and not destroyed; some of it may have been moved out.
    Live,
    /// Destroyed by an explicit drop.
    Dropped,
    /// Its scope has closed.
    Gone,
}

/// The state of the pass between two operations.
/// `moves` and `borrows` hold the indices of the operations that moved a
/// place out and that created an accepted borrow; `decls` holds the
/// variables of the open scopes in declaration order, and `marks` the
/// position in `decls` at which each open scope starts (outermost first).
pub struct FlowModel {
    pub status: Seq<VarStatus>,
    pub moves: Seq<usize>,
    pub decls: Seq<usize>,
    pub marks: Seq<usize>,
    pub borrows: Seq<usize>,
    pub diags: Seq<Diagnostic>,
    pub drops: Seq<DropEvent>,
}

/// What a probe over recorded moves or borrows looks for.
#[derive(Clone, Copy, PartialEq, Eq, Structural, Debug)]
pub enum Probe {
    /// A move of the place itself or of a place enclosing it.
    Cover,
    /// A move of a place strictly inside it.
    Inside,
    /// An active borrow overlapping it; only exclusive ones when `shared`.
    Block,
}

/// The place an operation acts on, if any.
pub open spec fn op_target(op: Op) -> Option<Place> {
    match op {
        Op::Move { place } => Some(place),
        Op::BorrowShared { place } => Some(place),
        Op::BorrowExclusive { place } => Some(place),
        Op::Read { place, .. } => Some(place),
        Op::Mutate { place, .. } => Some(place),
        Op::Return { place } => place,
        _ => None,
    }
}

pub open spec fn is_borrow(op: Op) -> bool {
    op is BorrowShared || op is BorrowExclusive
}

/// Whether `op` is a read or write through the handle of the borrow created
/// at index `b`.
pub open spec fn uses_borrow(op: Op, b: int) -> bool {
    match op {
        Op::Read { via, .. } => via == Some(b as usize),
        Op::Mutate { via, .. } => via == Some(b as usize),
        _ => false,
    }
}

/// The last index below `k` at which the borrow created at `b` is used, or
/// `b` itself when there is none.
pub open spec fn last_use(ops: Seq<Op>, b: int, k: int) -> int
    decreases k,
{
    if k <= 0 {
        b
    } else if uses_borrow(ops[k - 1], b) {
        k - 1
    } else {
        last_use(ops, b, k - 1)
    }
}

/// Where the region of the borrow created at `b` ends: its last use.
pub open spec fn borrow_end(ops: Seq<Op>, b: int) -> int {
    last_use(ops, b, ops.len() as int)
}

/// Whether the move or borrow recorded at index `k` is what `probe` looks
/// for, relative to the place `(v, path)` and the current index `i`.
pub open spec fn hit(
    ops: Seq<Op>,
    k: usize,
    probe: Probe,
    v: usize,
    path: Seq<usize>,
    i: int,
    shared: bool,
) -> bool {
    match op_target(ops[k as int]) {
        Some(q) => q.var == v && match probe {
            Probe::Cover => is_prefix(q.path@, path),
            Probe::Inside => is_prefix(path, q.path@) && path.len() < q.path@.len(),
            Probe::Block => i < borrow_end(ops, k as int) && (is_prefix(q.path@, path)
                || is_prefix(path, q.path@)) && (!shared || ops[k as int] is BorrowExclusive),
        },
        None => false,
    }
}

/// The position of the first entry of `s` that `probe` hits.
pub open spec fn first_hit(
    ops: Seq<Op>,
    s: Seq<usize>,
    probe: Probe,
    v: usize,
    path: Seq<usize>,
    i: int,
    shared: bool,
) -> Option<int>
    decreases s.len(),
{
    if s.len() == 0 {
        None
    } else {
        match first_hit(ops, s.drop_last(), probe, v, path, i, shared) {
            Some(j) => Some(j),
            None => if hit(ops, s.last(), probe, v, path, i, shared) {
                Some(s.len() - 1)
            } else {
                None
            },
        }
    }
}

pub open spec fn diag(kind: DiagKind, var: Option<usize>, at: int, related: Option<usize>) -> Diagnostic {
    Diagnostic { kind, var, at: at as usize, related }
}

pub open spec fn report(m: FlowModel, d: Diagnostic) -> FlowModel {
    FlowModel { diags: m.diags.push(d), ..m }
}

/// A variable that an operation may name: bound and still in scope.
pub open spec fn known(m: FlowModel, v: usize) -> bool {
    v < m.status.len() && (m.status[v as int] == VarStatus::Live || m.status[v as int]
        == VarStatus::Dropped)
}

/// The ownership error of a direct use of `p`; a move is a use, so moving
/// out a value already moved out is a use after move too.
pub open spec fn use_error(ops: Seq<Op>, m: FlowModel, p: Place, i: int) -> Option<
    Diagnostic,
> {
    if m.status[p.var as int] == VarStatus::Dropped {
        Some(diag(DiagKind::UseAfterMove, Some(p.var), i, None))
    } else {
        match first_hit(ops, m.moves, Probe::Cover, p.var, p.path@, i, false) {
            Some(j) => Some(diag(DiagKind::UseAfterMove, Some(p.var), i, Some(m.moves[j]))),
            None => match first_hit(ops, m.moves, Probe::Inside, p.var, p.path@, i, false) {
                Some(j) => Some(diag(DiagKind::PartialMoveError, Some(p.var), i, Some(m.moves[j]))),
                None => None,
            },
        }
    }
}

pub open spec fn move_step(
    ops: Seq<Op>,
    vars: Seq<VarDecl>,
    m: FlowModel,
    p: Place,
    i: int,
) -> Result<FlowModel, Fault> {
    if !known(m, p.var) {
        Err(Fault { at: i as usize })
    } else {
        match use_error(ops, m, p, i) {
            Some(d) => Ok(report(m, d)),
            None => if vars[p.var as int].copy {
                Ok(m)
            } else {
                match first_hit(ops, m.borrows, Probe::Block, p.var, p.path@, i, false) {
                    Some(j) => Ok(
                        report(
                            m,
                            diag(DiagKind::MoveWhileBorrowed, Some(p.var), i, Some(m.borrows[j])),
                        ),
                    ),
                    None => Ok(FlowModel { moves: m.moves.push(i as usize), ..m }),
                }
            },
        }
    }
}

pub open spec fn borrow_step(ops: Seq<Op>, m: FlowModel, p: Place, i: int, shared: bool) -> Result<
    FlowModel,
    Fault,
> {
    if !known(m, p.var) {
        Err(Fault { at: i as usize })
    } else {
        match use_error(ops, m, p, i) {
            Some(d) => Ok(report(m, d)),
            None => match first_hit(ops, m.borrows, Probe::Block, p.var, p.path@, i, shared) {
                Some(j) => Ok(
                    report(m, diag(DiagKind::ConflictingBorrow, Some(p.var), i, Some(m.borrows[j]))),
                ),
                None => Ok(FlowModel { borrows: m.borrows.push(i as usize), ..m }),
            },
        }
    }
}

/// A read or write. Through a borrow handle it is checked by that borrow's
/// region, not by the ownership state; the handle must name an earlier
/// borrow operation whose place overlaps the one accessed, else the input
/// is malformed. A use through a borrow that was refused is let through:
/// its refusal is already reported.
pub open spec fn access_step(
    ops: Seq<Op>,
    m: FlowModel,
    p: Place,
    via: Option<usize>,
    i: int,
) -> Result<FlowModel, Fault> {
    match via {
        Some(b) => if b < i && is_borrow(ops[b as int]) && overlaps(op_target(ops[b as int])->Some_0, p) {
            Ok(m)
        } else {
            Err(Fault { at: i as usize })
        },
        None => if !known(m, p.var) {
            Err(Fault { at: i as usize })
        } else {
            match use_error(ops, m, p, i) {
                Some(d) => Ok(report(m, d)),
                None => Ok(m),
            }
        },
    }
}

pub open spec fn drop_step(ops: Seq<Op>, m: FlowModel, v: usize, i: int) -> Result<FlowModel, Fault> {
    if !known(m, v) {
        Err(Fault { at: i as usize })
    } else if m.status[v as int] == VarStatus::Dropped {
        Ok(report(m, diag(DiagKind::DoubleDrop, Some(v), i, None)))
    } else {
        match first_hit(ops, m.moves, Probe::Cover, v, Seq::empty(), i, false) {
            Some(j) => Ok(report(m, diag(DiagKind::UseAfterMove, Some(v), i, Some(m.moves[j])))),
            None => match first_hit(ops, m.borrows, Probe::Block, v, Seq::empty(), i, false) {
                Some(j) => Ok(
                    report(m, diag(DiagKind::MoveWhileBorrowed, Some(v), i, Some(m.borrows[j]))),
                ),
                None => Ok(FlowModel { status: m.status.update(v as int, VarStatus::Dropped), ..m }),
            },
        }
    }
}

pub open spec fn bind_step(m: FlowModel, v: usize, i: int) -> Result<FlowModel, Fault> {
    if v >= m.status.len() || m.status[v as int] != VarStatus::Unbound {
        Err(Fault { at: i as usize })
    } else if m.marks.len() == 0 {
        Ok(
            report(
                FlowModel { status: m.status.update(v as int, VarStatus::Live), ..m },
                diag(DiagKind::StructureError, Some(v), i, None),
            ),
        )
    } else {
        Ok(
            FlowModel {
                status: m.status.update(v as int, VarStatus::Live),
                decls: m.decls.push(v),
                ..m
            },
        )
    }
}

/// The implicit destruction of `v` when its scope closes at `i`: a variable
/// still live and not moved out whole is dropped (a borrow of it still
/// active then outlives it); every variable of the scope goes out of scope.
pub open spec fn implicit_drop(ops: Seq<Op>, m: FlowModel, v: usize, i: int) -> FlowModel {
    if v >= m.status.len() {
        m
    } else if m.status[v as int] == VarStatus::Live && first_hit(
        ops,
        m.moves,
        Probe::Cover,
        v,
        Seq::empty(),
        i,
        false,
    ) is None {
        let m1 = match first_hit(ops, m.borrows, Probe::Block, v, Seq::empty(), i, false) {
            Some(j) => report(m, diag(DiagKind::RegionTooShort, Some(v), i, Some(m.borrows[j]))),
            None => m,
        };
        FlowModel {
            status: m1.status.update(v as int, VarStatus::Gone),
            drops: m1.drops.push(DropEvent { var: v, at: i as usize }),
            ..m1
        }
    } else {
        FlowModel { status: m.status.update(v as int, VarStatus::Gone), ..m }
    }
}

/// Destroys the variables `vs` of a closing scope, the last declared first.
pub open spec fn drop_vars(ops: Seq<Op>, m: FlowModel, vs: Seq<usize>, i: int) -> FlowModel
    decreases vs.len(),
{
    if vs.len() == 0 {
        m
    } else {
        drop_vars(ops, implicit_drop(ops, m, vs.last(), i), vs.drop_last(), i)
    }
}

/// Closes the innermost open scope at `i`.
pub open spec fn close_scope(ops: Seq<Op>, m: FlowModel, i: int) -> FlowModel {
    let start = m.marks.last() as int;
    drop_vars(
        ops,
        FlowModel { marks: m.marks.drop_last(), decls: m.decls.subrange(0, start), ..m },
        m.decls.subrange(start, m.decls.len() as int),
        i,
    )
}

pub open spec fn step(ops: Seq<Op>, vars: Seq<VarDecl>, m: FlowModel, i: int) -> Result<FlowModel, Fault> {
    match ops[i] {
        Op::Bind { var } => bind_step(m, var, i),
        Op::Move { place } => move_step(ops, vars, m, place, i),
        Op::BorrowShared { place } => borrow_step(ops, m, place, i, true),
        Op::BorrowExclusive { place } => borrow_step(ops, m, place, i, false),
        Op::Read { place, via } => access_step(ops, m, place, via, i),
        Op::Mutate { place, via } => access_step(ops, m, place, via, i),
        Op::Drop { var } => drop_step(ops, m, var, i),
        Op::ScopeEnter => if m.marks.len() == 0 {
            Ok(report(m, diag(DiagKind::StructureError, None, i, None)))
        } else {
            Ok(FlowModel { marks: m.marks.push(m.decls.len() as usize), ..m })
        },
        Op::ScopeExit => if m.marks.len() == 0 {
            Ok(report(m, diag(DiagKind::StructureError, None, i, None)))
        } else {
            Ok(close_scope(ops, m, i))
        },
        Op::Return { place } => match place {
            Some(p) => move_step(ops, vars, m, p, i),
            None => Ok(m),
        },
    }
}

/// The state before the first operation: the body's own scope is open.
pub open spec fn initial(n_vars: nat) -> FlowModel {
    FlowModel {
        status: Seq::new(n_vars, |v: int| VarStatus::Unbound),
        moves: Seq::empty(),
        decls: Seq::empty(),
        marks: seq![0usize],
        borrows: Seq::empty(),
        diags: Seq::empty(),
        drops: Seq::empty(),
    }
}

/// The state after the first `k` operations.
pub open spec fn run(ops: Seq<Op>, vars: Seq<VarDecl>, k: int) -> Result<FlowModel, Fault>
    decreases k,
{
    if k <= 0 {
        Ok(initial(vars.len()))
    } else {
        match run(ops, vars, k - 1) {
            Ok(m) => step(ops, vars, m, k - 1),
            Err(f) => Err(f),
        }
    }
}

/// Closes the `k` innermost open scopes at the end `n` of the stream; each
/// one but the body's own was left unclosed, a structure error.
pub open spec fn close_rest(ops: Seq<Op>, m: FlowModel, n: int, k: nat) -> FlowModel
    decreases k,
{
    if k == 0 || m.marks.len() == 0 {
        m
    } else {
        let m1 = if m.marks.len() > 1 {
            report(m, diag(DiagKind::StructureError, None, n, None))
        } else {
            m
        };
        close_rest(ops, close_scope(ops, m1, n), n, (k - 1) as nat)
    }
}

/// The whole analysis of a body: every operation in order, then the scopes
/// left open.
pub open spec fn analysis(ops: Seq<Op>, vars: Seq<VarDecl>) -> Result<FlowModel, Fault> {
    match run(ops, vars, ops.len() as int) {
        Ok(m) => Ok(close_rest(ops, m, ops.len() as int, m.marks.len())),
        Err(f) => Err(f),
    }
}

/// The entries of `s` before position `j` hold no hit, and `s[j]` is one:
/// the first hit of `s.take(j + 1)` is at `j`; without a hit at `j` there is
/// none in `s.take(j + 1)`.
proof fn lemma_first_hit_extend(
    ops: Seq<Op>,
    s: Seq<usize>,
    j: int,
    probe: Probe,
    v: usize,
    path: Seq<usize>,
    i: int,
    shared: bool,
)
    requires
        0 <= j < s.len(),
    ensures
        first_hit(ops, s.take(j + 1), probe, v, path, i, shared) == match first_hit(
            ops,
            s.take(j),
            probe,
            v,
            path,
            i,
            shared,
        ) {
            Some(k) => Some(k),
            None => if hit(ops, s[j], probe, v, path, i, shared) {
                Some(j)
            } else {
                None
            },
        },
{
    assert(s.take(j + 1).drop_last() =~= s.take(j));
}

/// The index at which each borrow's region ends: `ends[b] == borrow_end(ops, b)`.
pub fn borrow_ends(ops: &Vec<Op>) -> (ends: Vec<usize>)
    ensures
        ends@.len() == ops@.len(),
        forall|b: int| 0 <= b < ops@.len() ==> ends@[b] as int == borrow_end(ops@, b),
{
    let n = ops.len();
    let mut ends: Vec<usize> = Vec::new();
    let mut b: usize = 0;
    while b < n
        invariant
            n == ops@.len(),
            b <= n,
            ends@.len() == b,
            forall|c: int| 0 <= c < b ==> ends@[c] == c,
        decreases n - b,
    {
        ends.push(b);
        b = b + 1;
    }
    let mut j: usize = 0;
    while j < n
        invariant
            n == ops@.len(),
            j <= n,
            ends@.len() == n,
            forall|c: int| 0 <= c < n ==> ends@[c] as int == last_use(ops@, c, j as int),
        decreases n - j,
    {
        let via = match &ops[j] {
            Op::Read { via, .. } => *via,
            Op::Mutate { via, .. } => *via,
            _ => None,
        };
        assert(forall|c: int| 0 <= c < n ==> (uses_borrow(ops@[j as int], c) <==> via == Some(c as usize)));
        if let Some(c) = via {
            if c < n {
                ends.set(c, j);
            }
        }
        j = j + 1;
    }
    ends
}

/// The place that `op` acts on.
fn target(op: &Op) -> (r: Option<&Place>)
    ensures
        match r {
            Some(q) => op_target(*op) == Some(*q),
            None => op_target(*op) is None,
        },
{
    match op {
        Op::Move { place } => Some(place),
        Op::BorrowShared { place } => Some(place),
        Op::BorrowExclusive { place } => Some(place),
        Op::Read { place, .. } => Some(place),
        Op::Mutate { place, .. } => Some(place),
        Op::Return { place } => match place {
            Some(p) => Some(p),
            None => None,
        },
        _ => None,
    }
}

/// Whether the move or borrow recorded at `k` is what `probe` looks for.
fn hits(
    ops: &Vec<Op>,
    ends: &Vec<usize>,
    k: usize,
    probe: Probe,
    v: usize,
    path: &Vec<usize>,
    i: usize,
    shared: bool,
) -> (r: bool)
    requires
        k < ops@.len(),
        ends@.len() == ops@.len(),
        forall|b: int| 0 <= b < ops@.len() ==> ends@[b] as int == borrow_end(ops@, b),
    ensures
        r == hit(ops@, k, probe, v, path@, i as int, shared),
{
    match target(&ops[k]) {
        Some(q) => {
            if q.var != v {
                return false;
            }
            match probe {
                Probe::Cover => path_is_prefix(&q.path, path),
                Probe::Inside => path_is_prefix(path, &q.path) && path.len() < q.path.len(),
                Probe::Block => {
                    let exclusive = match &ops[k] {
                        Op::BorrowExclusive { .. } => true,
                        _ => false,
                    };
                    i < ends[k] && (path_is_prefix(&q.path, path) || path_is_prefix(path, &q.path))
                        && (!shared || exclusive)
                },
            }
        },
        None => false,
    }
}

/// The position of the first entry of `s` that `probe` hits.
fn find(
    ops: &Vec<Op>,
    ends: &Vec<usize>,
    s: &Vec<usize>,
    probe: Probe,
    v: usize,
    path: &Vec<usize>,
    i: usize,
    shared: bool,
) -> (r: Option<usize>)
    requires
        ends@.len() == ops@.len(),
        forall|b: int| 0 <= b < ops@.len() ==> ends@[b] as int == borrow_end(ops@, b),
        forall|k: int| 0 <= k < s@.len() ==> s@[k] < ops@.len(),
    ensures
        match r {
            Some(j) => j < s@.len() && first_hit(ops@, s@, probe, v, path@, i as int, shared)
                == Some(j as int),
            None => first_hit(ops@, s@, probe, v, path@, i as int, shared) is None,
        },
{
    let mut j: usize = 0;
    while j < s.len()
        invariant
            j <= s@.len(),
            ends@.len() == ops@.len(),
            forall|b: int| 0 <= b < ops@.len() ==> ends@[b] as int == borrow_end(ops@, b),
            forall|k: int| 0 <= k < s@.len() ==> s@[k] < ops@.len(),
            first_hit(ops@, s@.take(j as int), probe, v, path@, i as int, shared) is None,
        decreases s@.len() - j,
    {
        proof {
            lemma_first_hit_extend(ops@, s@, j as int, probe, v, path@, i as int, shared);
        }
        if hits(ops, ends, s[j], probe, v, path, i, shared) {
            assert(s@.take(j as int + 1) =~= s@.take(j as int + 1));
            proof {
                lemma_first_hit_prefix(ops@, s@, j as int + 1, probe, v, path@, i as int, shared);
            }
            return Some(j);
        }
        j = j + 1;
    }
    assert(s@.take(j as int) =~= s@);
    None
}

/// A hit in a prefix of `s` is the first hit of `s`.
proof fn lemma_first_hit_prefix(
    ops: Seq<Op>,
    s: Seq<usize>,
    j: int,
    probe: Probe,
    v: usize,
    path: Seq<usize>,
    i: int,
    shared: bool,
)
    requires
        0 <= j <= s.len(),
        first_hit(ops, s.take(j), probe, v, path, i, shared) is Some,
    ensures
        first_hit(ops, s, probe, v, path, i, shared) == first_hit(ops, s.take(j), probe, v, path, i, shared),
    decreases s.len() - j,
{
    if j < s.len() {
        lemma_first_hit_extend(ops, s, j, probe, v, path, i, shared);
        lemma_first_hit_prefix(ops, s, j + 1, probe, v, path, i, shared);
    } else {
        assert(s.take(j) =~= s);
    }
}

/// Facts that hold of every state the pass reaches before operation `i`.
pub open spec fn wf(m: FlowModel, n_vars: int, i: int) -> bool {
    &&& m.status.len() == n_vars
    &&& m.decls.len() <= i
    &&& forall|k: int| 0 <= k < m.moves.len() ==> m.moves[k] < i
    &&& forall|k: int| 0 <= k < m.borrows.len() ==> m.borrows[k] < i
    &&& forall|k: int| 0 <= k < m.marks.len() ==> m.marks[k] <= m.decls.len()
    &&& forall|a: int, b: int| 0 <= a <= b < m.marks.len() ==> m.marks[a] <= m.marks[b]
}

pub open spec fn with_decls(m: FlowModel, d: Seq<usize>) -> FlowModel {
    FlowModel { decls: d, ..m }
}

/// The implicit drop of a variable reads nothing of the declaration list and
/// leaves it as it was.
pub proof fn lemma_implicit_drop_decls(ops: Seq<Op>, m: FlowModel, v: usize, i: int, d: Seq<usize>)
    ensures
        implicit_drop(ops, with_decls(m, d), v, i) == with_decls(implicit_drop(ops, m, v, i), d),
        implicit_drop(ops, m, v, i).decls == m.decls,
        implicit_drop(ops, m, v, i).marks == m.marks,
        implicit_drop(ops, m, v, i).moves == m.moves,
        implicit_drop(ops, m, v, i).borrows == m.borrows,
        implicit_drop(ops, m, v, i).status.len() == m.status.len(),
{
}

/// Closing a scope changes only statuses, diagnostics and drops.
pub proof fn lemma_drop_vars_frame(ops: Seq<Op>, m: FlowModel, vs: Seq<usize>, i: int)
    ensures
        drop_vars(ops, m, vs, i).decls == m.decls,
        drop_vars(ops, m, vs, i).marks == m.marks,
        drop_vars(ops, m, vs, i).moves == m.moves,
        drop_vars(ops, m, vs, i).borrows == m.borrows,
        drop_vars(ops, m, vs, i).status.len() == m.status.len(),
    decreases vs.len(),
{
    if vs.len() > 0 {
        lemma_implicit_drop_decls(ops, m, vs.last(), i, m.decls);
        lemma_drop_vars_frame(ops, implicit_drop(ops, m, vs.last(), i), vs.drop_last(), i);
    }
}

/// The facts `ends` holds about `ops`.
pub open spec fn ends_of(ops: Seq<Op>, ends: Seq<usize>) -> bool {
    &&& ends.len() == ops.len()
    &&& forall|b: int| 0 <= b < ops.len() ==> ends[b] as int == borrow_end(ops, b)
}

/// The executable state of the pass; `model` is its abstract state.
struct FlowState {
    status: Vec<VarStatus>,
    moves: Vec<usize>,
    decls: Vec<usize>,
    marks: Vec<usize>,
    borrows: Vec<usize>,
    diags: Vec<Diagnostic>,
    drops: Vec<DropEvent>,
}

impl FlowState {
    spec fn model(&self) -> FlowModel {
        FlowModel {
            status: self.status@,
            moves: self.moves@,
            decls: self.decls@,
            marks: self.marks@,
            borrows: self.borrows@,
            diags: self.diags@,
            drops: self.drops@,
        }
    }

    fn new(n_vars: usize) -> (r: FlowState)
        ensures
            r.model() == initial(n_vars as nat),
    {
        let mut status: Vec<VarStatus> = Vec::new();
        let mut k: usize = 0;
        while k < n_vars
            invariant
                k <= n_vars,
                status@.len() == k,
                forall|j: int| 0 <= j < k ==> status@[j] == VarStatus::Unbound,
            decreases n_vars - k,
        {
            status.push(VarStatus::Unbound);
            k = k + 1;
        }
        let mut marks: Vec<usize> = Vec::new();
        marks.push(0);
        let r = FlowState {
            status,
            moves: Vec::new(),
            decls: Vec::new(),
            marks,
            borrows: Vec::new(),
            diags: Vec::new(),
            drops: Vec::new(),
        };
        assert(r.model().status =~= initial(n_vars as nat).status);
        assert(r.model().marks =~= initial(n_vars as nat).marks);
        r
    }

    fn known(&self, v: usize) -> (r: bool)
        ensures
            r == known(self.model(), v),
    {
        v < self.status.len() && (self.status[v] == VarStatus::Live || self.status[v]
            == VarStatus::Dropped)
    }

    fn use_error(&self, ops: &Vec<Op>, ends: &Vec<usize>, p: &Place, i: usize) -> (r:
        Option<Diagnostic>)
        requires
            wf(self.model(), self.model().status.len() as int, i as int),
            i <= ops@.len(),
            ends_of(ops@, ends@),
            p.var < self.model().status.len(),
        ensures
            r == use_error(ops@, self.model(), *p, i as int),
    {
        if self.status[p.var] == VarStatus::Dropped {
            return Some(Diagnostic { kind: DiagKind::UseAfterMove, var: Some(p.var), at: i, related: None });
        }
        match find(ops, ends, &self.moves, Probe::Cover, p.var, &p.path, i, false) {
            Some(j) => Some(
                Diagnostic { kind: DiagKind::UseAfterMove, var: Some(p.var), at: i, related: Some(self.moves[j]) },
            ),
            None => match find(ops, ends, &self.moves, Probe::Inside, p.var, &p.path, i, false) {
                Some(j) => Some(
                    Diagnostic {
                        kind: DiagKind::PartialMoveError,
                        var: Some(p.var),
                        at: i,
                        related: Some(self.moves[j]),
                    },
                ),
                None => None,
            },
        }
    }

    fn move_place(&mut self, prog: &Program, ends: &Vec<usize>, p: &Place, i: usize) -> (r: Result<(), Fault>)
        requires
            wf(old(self).model(), prog.vars@.len() as int, i as int),
            i < prog.ops@.len(),
            ends_of(prog.ops@, ends@),
        ensures
            match move_step(prog.ops@, prog.vars@, old(self).model(), *p, i as int) {
                Ok(m) => r is Ok && final(self).model() == m,
                Err(f) => r == Err::<(), Fault>(f),
            },
    {
        if !self.known(p.var) {
            return Err(Fault { at: i });
        }
        match self.use_error(&prog.ops, ends, p, i) {
            Some(d) => {
                self.diags.push(d);
            },
            None => {
                if !prog.vars[p.var].copy {
                    match find(&prog.ops, ends, &self.borrows, Probe::Block, p.var, &p.path, i, false) {
                        Some(j) => {
                            let b = self.borrows[j];
                            self.diags.push(
                                Diagnostic {
                                    kind: DiagKind::MoveWhileBorrowed,
                                    var: Some(p.var),
                                    at: i,
                                    related: Some(b),
                                },
                            );
                        },
                        None => {
                            self.moves.push(i);
                        },
                    }
                }
            },
        }
        Ok(())
    }

    fn borrow_place(&mut self, prog: &Program, ends: &Vec<usize>, p: &Place, i: usize, shared: bool) -> (r:
        Result<(), Fault>)
        requires
            wf(old(self).model(), prog.vars@.len() as int, i as int),
            i < prog.ops@.len(),
            ends_of(prog.ops@, ends@),
        ensures
            match borrow_step(prog.ops@, old(self).model(), *p, i as int, shared) {
                Ok(m) => r is Ok && final(self).model() == m,
                Err(f) => r == Err::<(), Fault>(f),
            },
    {
        if !self.known(p.var) {
            return Err(Fault { at: i });
        }
        match self.use_error(&prog.ops, ends, p, i) {
            Some(d) => {
                self.diags.push(d);
            },
            None => match find(&prog.ops, ends, &self.borrows, Probe::Block, p.var, &p.path, i, shared) {
                Some(j) => {
                    let b = self.borrows[j];
                    self.diags.push(
                        Diagnostic {
                            kind: DiagKind::ConflictingBorrow,
                            var: Some(p.var),
                            at: i,
                            related: Some(b),
                        },
                    );
                },
                None => {
                    self.borrows.push(i);
                },
            },
        }
        Ok(())
    }

    fn access(&mut self, prog: &Program, ends: &Vec<usize>, p: &Place, via: Option<usize>, i: usize) -> (r:
        Result<(), Fault>)
        requires
            wf(old(self).model(), prog.vars@.len() as int, i as int),
            i < prog.ops@.len(),
            ends_of(prog.ops@, ends@),
        ensures
            match access_step(prog.ops@, old(self).model(), *p, via, i as int) {
                Ok(m) => r is Ok && final(self).model() == m,
                Err(f) => r == Err::<(), Fault>(f),
            },
    {
        match via {
            Some(b) => {
                if b < i {
                    match &prog.ops[b] {
                        Op::BorrowShared { place } => if places_overlap(place, p) {
                            Ok(())
                        } else {
                            Err(Fault { at: i })
                        },
                        Op::BorrowExclusive { place } => if places_overlap(place, p) {
                            Ok(())
                        } else {
                            Err(Fault { at: i })
                        },
                        _ => Err(Fault { at: i }),
                    }
                } else {
                    Err(Fault { at: i })
                }
            },
            None => {
                if !self.known(p.var) {
                    return Err(Fault { at: i });
                }
                match self.use_error(&prog.ops, ends, p, i) {
                    Some(d) => {
                        self.diags.push(d);
                    },
                    None => {},
                }
                Ok(())
            },
        }
    }

    fn drop_var(&mut self, prog: &Program, ends: &Vec<usize>, v: usize, i: usize) -> (r: Result<(), Fault>)
        requires
            wf(old(self).model(), prog.vars@.len() as int, i as int),
            i < prog.ops@.len(),
            ends_of(prog.ops@, ends@),
        ensures
            match drop_step(prog.ops@, old(self).model(), v, i as int) {
                Ok(m) => r is Ok && final(self).model() == m,
                Err(f) => r == Err::<(), Fault>(f),
            },
    {
        if !self.known(v) {
            return Err(Fault { at: i });
        }
        if self.status[v] == VarStatus::Dropped {
            self.diags.push(Diagnostic { kind: DiagKind::DoubleDrop, var: Some(v), at: i, related: None });
            return Ok(());
        }
        let whole: Vec<usize> = Vec::new();
        match find(&prog.ops, ends, &self.moves, Probe::Cover, v, &whole, i, false) {
            Some(j) => {
                let m = self.moves[j];
                self.diags.push(
                    Diagnostic { kind: DiagKind::UseAfterMove, var: Some(v), at: i, related: Some(m) },
                );
            },
            None => match find(&prog.ops, ends, &self.borrows, Probe::Block, v, &whole, i, false) {
                Some(j) => {
                    let b = self.borrows[j];
                    self.diags.push(
                        Diagnostic {
                            kind: DiagKind::MoveWhileBorrowed,
                            var: Some(v),
                            at: i,
                            related: Some(b),
                        },
                    );
                },
                None => {
                    self.status.set(v, VarStatus::Dropped);
                },
            },
        }
        Ok(())
    }

    fn implicit_drop(&mut self, ops: &Vec<Op>, ends: &Vec<usize>, v: usize, i: usize)
        requires
            wf(old(self).model(), old(self).model().status.len() as int, i as int),
            i <= ops@.len(),
            ends_of(ops@, ends@),
        ensures
            final(self).model() == implicit_drop(ops@, old(self).model(), v, i as int),
    {
        if v >= self.status.len() {
            return;
        }
        let whole: Vec<usize> = Vec::new();
        let live = self.status[v] == VarStatus::Live;
        assert(self.model().moves == self.moves@);
        assert(forall|k: int| 0 <= k < self.moves@.len() ==> self.moves@[k] < i);
        let moved = find(ops, ends, &self.moves, Probe::Cover, v, &whole, i, false);
        if live && moved.is_none() {
            match find(ops, ends, &self.borrows, Probe::Block, v, &whole, i, false) {
                Some(j) => {
                    let b = self.borrows[j];
                    self.diags.push(
                        Diagnostic { kind: DiagKind::RegionTooShort, var: Some(v), at: i, related: Some(b) },
                    );
                },
                None => {},
            }
            self.drops.push(DropEvent { var: v, at: i });
        }
        self.status.set(v, VarStatus::Gone);
    }

    fn close_scope(&mut self, ops: &Vec<Op>, ends: &Vec<usize>, i: usize)
        requires
            wf(old(self).model(), old(self).model().status.len() as int, i as int),
            old(self).model().marks.len() > 0,
            i <= ops@.len(),
            ends_of(ops@, ends@),
        ensures
            final(self).model() == close_scope(ops@, old(self).model(), i as int),
            wf(final(self).model(), old(self).model().status.len() as int, i as int),
            final(self).model().marks == old(self).model().marks.drop_last(),
    {
        let ghost m0 = self.model();
        let ghost target = close_scope(ops@, m0, i as int);
        let start = self.marks.pop().unwrap();
        proof {
            let vs = m0.decls.subrange(start as int, m0.decls.len() as int);
            assert(with_decls(self.model(), self.decls@.subrange(0, start as int))
                == FlowModel { marks: m0.marks.drop_last(), decls: m0.decls.subrange(0, start as int), ..m0 });
            assert(self.decls@.subrange(start as int, self.decls@.len() as int) == vs);
        }
        while self.decls.len() > start
            invariant
                start <= self.decls@.len(),
                i <= ops@.len(),
                ends_of(ops@, ends@),
                self.model().marks == m0.marks.drop_last(),
                forall|k: int| 0 <= k < self.marks@.len() ==> self.marks@[k] <= start,
                wf(self.model(), m0.status.len() as int, i as int),
                drop_vars(
                    ops@,
                    with_decls(self.model(), self.decls@.subrange(0, start as int)),
                    self.decls@.subrange(start as int, self.decls@.len() as int),
                    i as int,
                ) == target,
            decreases self.decls@.len(),
        {
            let ghost before = self.model();
            let v = self.decls.pop().unwrap();
            proof {
                let d0 = before.decls;
                assert(d0.subrange(start as int, d0.len() as int).drop_last() =~= self.decls@.subrange(
                    start as int,
                    self.decls@.len() as int,
                ));
                assert(d0.subrange(0, start as int) =~= self.decls@.subrange(0, start as int));
                assert(with_decls(before, d0.subrange(0, start as int)) == with_decls(
                    self.model(),
                    d0.subrange(0, start as int),
                ));
                lemma_implicit_drop_decls(ops@, self.model(), v, i as int, d0.subrange(0, start as int));
            }
            self.implicit_drop(ops, ends, v, i);
        }
        proof {
            assert(self.decls@.subrange(0, start as int) =~= self.decls@);
            assert(self.decls@.subrange(start as int, self.decls@.len() as int) =~= Seq::<usize>::empty());
            assert(with_decls(self.model(), self.decls@) == self.model());
        }
    }

    fn apply(&mut self, prog: &Program, ends: &Vec<usize>, i: usize) -> (r: Result<(), Fault>)
        requires
            wf(old(self).model(), prog.vars@.len() as int, i as int),
            i < prog.ops@.len(),
            ends_of(prog.ops@, ends@),
        ensures
            match step(prog.ops@, prog.vars@, old(self).model(), i as int) {
                Ok(m) => r is Ok && final(self).model() == m && wf(m, prog.vars@.len() as int, i + 1),
                Err(f) => r == Err::<(), Fault>(f),
            },
    {
        match &prog.ops[i] {
            Op::Bind { var } => {
                let v = *var;
                if v >= self.status.len() || self.status[v] != VarStatus::Unbound {
                    return Err(Fault { at: i });
                }
                self.status.set(v, VarStatus::Live);
                if self.marks.len() == 0 {
                    self.diags.push(
                        Diagnostic { kind: DiagKind::StructureError, var: Some(v), at: i, related: None },
                    );
                } else {
                    self.decls.push(v);
                }
                Ok(())
            },
            Op::Move { place } => self.move_place(prog, ends, place, i),
            Op::BorrowShared { place } => self.borrow_place(prog, ends, place, i, true),
            Op::BorrowExclusive { place } => self.borrow_place(prog, ends, place, i, false),
            Op::Read { place, via } => self.access(prog, ends, place, *via, i),
            Op::Mutate { place, via } => self.access(prog, ends, place, *via, i),
            Op::Drop { var } => self.drop_var(prog, ends, *var, i),
            Op::ScopeEnter => {
                if self.marks.len() == 0 {
                    self.diags.push(
                        Diagnostic { kind: DiagKind::StructureError, var: None, at: i, related: None },
                    );
                } else {
                    let d = self.decls.len();
                    self.marks.push(d);
                }
                Ok(())
            },
            Op::ScopeExit => {
                if self.marks.len() == 0 {
                    self.diags.push(
                        Diagnostic { kind: DiagKind::StructureError, var: None, at: i, related: None },
                    );
                } else {
                    self.close_scope(&prog.ops, ends, i);
                }
                Ok(())
            },
            Op::Return { place } => match place {
                Some(p) => self.move_place(prog, ends, p, i),
                None => Ok(()),
            },
        }
    }
}

/// Once the pass has met a malformed operation, it stays failed.
pub proof fn lemma_run_stays_err(ops: Seq<Op>, vars: Seq<VarDecl>, k: int, n: int)
    requires
        0 <= k <= n,
        run(ops, vars, k) is Err,
    ensures
        run(ops, vars, n) == run(ops, vars, k),
    decreases n - k,
{
    if k < n {
        lemma_run_stays_err(ops, vars, k + 1, n);
    }
}

/// The resolved regions of the accepted borrows `bs`, in order.
pub open spec fn facts(ops: Seq<Op>, bs: Seq<usize>) -> Seq<BorrowFact> {
    bs.map_values(|b: usize| BorrowFact { at: b, end: borrow_end(ops, b as int) as usize })
}

/// What `check` returns for a body whose analysis is `a`.
pub open spec fn reports(ops: Seq<Op>, a: Result<FlowModel, Fault>, r: Result<Report, Fault>) -> bool {
    match a {
        Ok(m) => r matches Ok(rep) && rep.diags@ == m.diags && rep.drops@ == m.drops
            && rep.borrows@ == facts(ops, m.borrows),
        Err(f) => r == Err::<Report, Fault>(f),
    }
}

/// Runs the whole analysis of `prog`: every diagnostic in program order,
/// the implicit drops in the order they happen, and the region of every
/// accepted borrow; or the first malformed operation.
pub fn check(prog: &Program) -> (r: Result<Report, Fault>)
    ensures
        reports(prog.ops@, analysis(prog.ops@, prog.vars@), r),
{
    let n = prog.ops.len();
    let ends = borrow_ends(&prog.ops);
    let mut st = FlowState::new(prog.vars.len());
    let mut i: usize = 0;
    while i < n
        invariant
            n == prog.ops@.len(),
            i <= n,
            ends_of(prog.ops@, ends@),
            run(prog.ops@, prog.vars@, i as int) == Ok::<FlowModel, Fault>(st.model()),
            wf(st.model(), prog.vars@.len() as int, i as int),
        decreases n - i,
    {
        match st.apply(prog, &ends, i) {
            Ok(()) => {},
            Err(f) => {
                proof {
                    lemma_run_stays_err(prog.ops@, prog.vars@, i as int + 1, n as int);
                }
                return Err(f);
            },
        }
        i = i + 1;
    }
    let ghost m = st.model();
    while st.marks.len() > 0
        invariant
            n == prog.ops@.len(),
            ends_of(prog.ops@, ends@),
            wf(st.model(), prog.vars@.len() as int, n as int),
            close_rest(prog.ops@, st.model(), n as int, st.model().marks.len())
                == close_rest(prog.ops@, m, n as int, m.marks.len()),
        decreases st.marks@.len(),
    {
        if st.marks.len() > 1 {
            st.diags.push(Diagnostic { kind: DiagKind::StructureError, var: None, at: n, related: None });
        }
        st.close_scope(&prog.ops, &ends, n);
    }
    assert(st.model().borrows == st.borrows@);
    let mut borrows: Vec<BorrowFact> = Vec::new();
    let mut k: usize = 0;
    while k < st.borrows.len()
        invariant
            k <= st.borrows@.len(),
            ends_of(prog.ops@, ends@),
            forall|j: int| 0 <= j < st.borrows@.len() ==> st.borrows@[j] < n,
            n == prog.ops@.len(),
            borrows@ == facts(prog.ops@, st.borrows@.take(k as int)),
        decreases st.borrows@.len() - k,
    {
        let b = st.borrows[k];
        borrows.push(BorrowFact { at: b, end: ends[b] });
        proof {
            assert(facts(prog.ops@, st.borrows@.take(k + 1)) =~= facts(prog.ops@, st.borrows@.take(k as int)).push(
                BorrowFact { at: b, end: borrow_end(prog.ops@, b as int) as usize },
            ));
        }
        k = k + 1;
    }
    assert(st.borrows@.take(k as int) =~= st.borrows@);
    Ok(Report { diags: st.diags, drops: st.drops, borrows })
}

/// `check` under an operation ceiling: a body longer than `ceiling`
/// operations is not analysed and draws a single `ResourceExhausted`.
pub fn check_with_ceiling(prog: &Program, ceiling: usize) -> (r: Result<Report, Fault>)
    ensures
        prog.ops@.len() > ceiling ==> (r matches Ok(rep) && rep.diags@ == seq![
            diag(DiagKind::ResourceExhausted, None, ceiling as int, None),
        ] && rep.drops@.len() == 0 && rep.borrows@.len() == 0),
        prog.ops@.len() <= ceiling ==> reports(prog.ops@, analysis(prog.ops@, prog.vars@), r),
{
    if prog.ops.len() > ceiling {
        let mut diags: Vec<Diagnostic> = Vec::new();
        diags.push(
            Diagnostic { kind: DiagKind::ResourceExhausted, var: None, at: ceiling, related: None },
        );
        assert(diags@ =~= seq![diag(DiagKind::ResourceExhausted, None, ceiling as int, None)]);
        return Ok(Report { diags, drops: Vec::new(), borrows: Vec::new() });
    }
    check(prog)
}

/// Checks independent bodies one by one: each gets its own report, and a
/// malformed body does not stop the others.
pub fn check_units(units: &Vec<Program>) -> (r: Vec<Result<Report, Fault>>)
    ensures
        r@.len() == units@.len(),
        forall|k: int|
            0 <= k < units@.len() ==> reports(units@[k].ops@, analysis(units@[k].ops@, units@[k].vars@), #[trigger] r@[k]),
{
    let mut r: Vec<Result<Report, Fault>> = Vec::new();
    let mut k: usize = 0;
    while k < units.len()
        invariant
            k <= units@.len(),
            r@.len() == k,
            forall|j: int|
                0 <= j < k ==> reports(units@[j].ops@, analysis(units@[j].ops@, units@[j].vars@), #[trigger] r@[j]),
        decreases units@.len() - k,
    {
        let one = check(&units[k]);
        r.push(one);
        k = k + 1;
    }
    r
}

} // verus!
