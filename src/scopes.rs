//! The scope tree: the nesting of the lexical scopes of a body.
use vstd::prelude::*;
use crate::diag::{DiagKind, Diagnostic};
use crate::ir::Op;

verus! {

/// One scope. Ids are given in pre-order, the body's own scope being 0;
/// `start` and `end` are the indices of its opening and closing markers
/// (0 and the stream's length for the body's own scope, unless a marker
/// closes it), and `last` is the greatest id among its descendants.
#[derive(Clone, Copy, PartialEq, Eq, Structural, Debug)]
pub struct ScopeNode {
    pub parent: Option<usize>,
    pub start: usize,
    pub end: usize,
    pub last: usize,
}

/// The scopes found so far, and the ids of those still open, outermost first.
pub struct TreeModel {
    pub nodes: Seq<ScopeNode>,
    pub open: Seq<usize>,
}

pub open spec fn tree_initial() -> TreeModel {
    TreeModel { nodes: seq![ScopeNode { parent: None, start: 0, end: 0, last: 0 }], open: seq![0usize] }
}

/// Records the scope that closes at `i` (the innermost open one).
pub open spec fn tree_close(m: TreeModel, i: int) -> TreeModel {
    let id = m.open.last() as int;
    TreeModel {
        nodes: m.nodes.update(
            id,
            ScopeNode { end: i as usize, last: (m.nodes.len() - 1) as usize, ..m.nodes[id] },
        ),
        open: m.open.drop_last(),
    }
}

/// One operation of the stream; a marker with no scope open is an error at
/// its index.
pub open spec fn tree_step(m: TreeModel, op: Op, i: int) -> Result<TreeModel, usize> {
    match op {
        Op::ScopeEnter => if m.open.len() == 0 {
            Err(i as usize)
        } else {
            Ok(
                TreeModel {
                    nodes: m.nodes.push(
                        ScopeNode {
                            parent: Some(m.open.last()),
                            start: i as usize,
                            end: i as usize,
                            last: m.nodes.len() as usize,
                        },
                    ),
                    open: m.open.push(m.nodes.len() as usize),
                },
            )
        },
        Op::ScopeExit => if m.open.len() == 0 {
            Err(i as usize)
        } else {
            Ok(tree_close(m, i))
        },
        _ => Ok(m),
    }
}

pub open spec fn tree_run(ops: Seq<Op>, k: int) -> Result<TreeModel, usize>
    decreases k,
{
    if k <= 0 {
        Ok(tree_initial())
    } else {
        match tree_run(ops, k - 1) {
            Ok(m) => tree_step(m, ops[k - 1], k - 1),
            Err(e) => Err(e),
        }
    }
}

/// The scope tree of a stream, or the index of the first marker that breaks
/// the nesting (the stream's length when a nested scope is never closed).
pub open spec fn scope_tree(ops: Seq<Op>) -> Result<Seq<ScopeNode>, usize> {
    let n = ops.len() as int;
    match tree_run(ops, n) {
        Ok(m) => if m.open.len() > 1 {
            Err(n as usize)
        } else if m.open.len() == 1 {
            Ok(tree_close(m, n).nodes)
        } else {
            Ok(m.nodes)
        },
        Err(e) => Err(e),
    }
}

pub open spec fn tree_wf(nodes: Seq<ScopeNode>, open: Seq<usize>) -> bool {
    forall|k: int| 0 <= k < open.len() ==> open[k] < nodes.len()
}

proof fn lemma_tree_run_stays_err(ops: Seq<Op>, k: int, n: int)
    requires
        0 <= k <= n,
        tree_run(ops, k) is Err,
    ensures
        tree_run(ops, n) == tree_run(ops, k),
    decreases n - k,
{
    if k < n {
        lemma_tree_run_stays_err(ops, k + 1, n);
    }
}

fn close_node(nodes: &mut Vec<ScopeNode>, open: &mut Vec<usize>, i: usize)
    requires
        old(open)@.len() > 0,
        tree_wf(old(nodes)@, old(open)@),
    ensures
        (TreeModel { nodes: final(nodes)@, open: final(open)@ }) == tree_close(
            TreeModel { nodes: old(nodes)@, open: old(open)@ },
            i as int,
        ),
        tree_wf(final(nodes)@, final(open)@),
{
    assert(open@[open@.len() - 1] < nodes@.len());
    let id = open.pop().unwrap();
    let node = nodes[id];
    let last = nodes.len() - 1;
    nodes.set(id, ScopeNode { end: i, last, ..node });
}

pub open spec fn structure_error(at: usize) -> Diagnostic {
    Diagnostic { kind: DiagKind::StructureError, var: None, at, related: None }
}

/// Builds the scope tree of `ops`, or reports the `StructureError` of the
/// first marker that breaks the nesting.
pub fn build_scopes(ops: &Vec<Op>) -> (r: Result<Vec<ScopeNode>, Diagnostic>)
    ensures
        match scope_tree(ops@) {
            Ok(t) => r matches Ok(nodes) && nodes@ == t,
            Err(e) => r == Err::<Vec<ScopeNode>, Diagnostic>(structure_error(e)),
        },
{
    let n = ops.len();
    let mut nodes: Vec<ScopeNode> = Vec::new();
    nodes.push(ScopeNode { parent: None, start: 0, end: 0, last: 0 });
    let mut open: Vec<usize> = Vec::new();
    open.push(0);
    assert(nodes@ =~= tree_initial().nodes);
    assert(open@ =~= tree_initial().open);
    let mut i: usize = 0;
    while i < n
        invariant
            n == ops@.len(),
            i <= n,
            tree_run(ops@, i as int) == Ok::<TreeModel, usize>(TreeModel { nodes: nodes@, open: open@ }),
            tree_wf(nodes@, open@),
        decreases n - i,
    {
        match &ops[i] {
            Op::ScopeEnter => {
                if open.len() == 0 {
                    proof {
                        lemma_tree_run_stays_err(ops@, i + 1, n as int);
                    }
                    return Err(Diagnostic { kind: DiagKind::StructureError, var: None, at: i, related: None });
                }
                let parent = open[open.len() - 1];
                let id = nodes.len();
                nodes.push(ScopeNode { parent: Some(parent), start: i, end: i, last: id });
                open.push(id);
            },
            Op::ScopeExit => {
                if open.len() == 0 {
                    proof {
                        lemma_tree_run_stays_err(ops@, i + 1, n as int);
                    }
                    return Err(Diagnostic { kind: DiagKind::StructureError, var: None, at: i, related: None });
                }
                close_node(&mut nodes, &mut open, i);
            },
            _ => {},
        }
        i = i + 1;
    }
    if open.len() > 1 {
        return Err(Diagnostic { kind: DiagKind::StructureError, var: None, at: n, related: None });
    }
    if open.len() == 1 {
        close_node(&mut nodes, &mut open, n);
    }
    Ok(nodes)
}

/// Whether scope `x` lies within scope `y` (or is `y`): pre-order ids make
/// this a comparison with `y`'s range of descendants (in a built tree this
/// is ancestry by parent links, see `law_scope_ranges_are_nesting`).
pub fn is_nested(nodes: &Vec<ScopeNode>, x: usize, y: usize) -> (r: bool)
    requires
        y < nodes@.len(),
    ensures
        r == (y <= x && x <= nodes@[y as int].last),
{
    y <= x && x <= nodes[y].last
}

/// Scope `y` is among the open ones.
pub open spec fn is_open(open: Seq<usize>, y: int) -> bool {
    exists|a: int| 0 <= a < open.len() && open[a] as int == y
}

/// Scope `x` is `y` or lies within it by its chain of parents.
pub open spec fn descends(nodes: Seq<ScopeNode>, y: int, x: int) -> bool
    decreases x,
{
    if x == y {
        true
    } else if x < y || x >= nodes.len() {
        false
    } else {
        match nodes[x].parent {
            Some(p) => 0 <= p < x && descends(nodes, y, p as int),
            None => false,
        }
    }
}

/// `descends` reads nothing but the parent links up to `x`.
proof fn lemma_descends_frame(a: Seq<ScopeNode>, b: Seq<ScopeNode>, y: int, x: int)
    requires
        0 <= x < a.len(),
        x < b.len(),
        forall|z: int| 0 <= z <= x ==> (#[trigger] a[z]).parent == b[z].parent,
    ensures
        descends(a, y, x) == descends(b, y, x),
    decreases x,
{
    if x != y && x >= y {
        if let Some(p) = a[x].parent {
            if 0 <= p < x {
                lemma_descends_frame(a, b, y, p as int);
            }
        }
    }
}

/// A closed scope `y` holds `x` exactly when `x` is in its id range.
pub open spec fn closed_fact(nodes: Seq<ScopeNode>, y: int, x: int) -> bool {
    nodes[y].last < nodes.len() && (descends(nodes, y, x) <==> y <= x <= nodes[y].last)
}

/// The shape of the tree while it is built: parents come first, open
/// scopes are in id order and hold every later scope, and a closed scope
/// holds exactly the ids up to its `last`, none of them open.
pub open spec fn tree_inv(m: TreeModel) -> bool {
    &&& m.nodes.len() >= 1
    &&& m.nodes.len() <= usize::MAX
    &&& m.nodes[0].parent is None
    &&& forall|x: int| 0 < x < m.nodes.len() ==> ((#[trigger] m.nodes[x].parent) matches Some(p) && p < x)
    &&& forall|a: int, b: int| 0 <= a < b < m.open.len() ==> m.open[a] < m.open[b]
    &&& forall|a: int| 0 <= a < m.open.len() ==> #[trigger] m.open[a] < m.nodes.len()
    &&& forall|a: int, x: int|
        0 <= a < m.open.len() && 0 <= x < m.nodes.len() ==> (#[trigger] descends(m.nodes, m.open[a] as int, x)
            <==> m.open[a] <= x)
    &&& forall|y: int, x: int|
        0 <= y < m.nodes.len() && !is_open(m.open, y) && 0 <= x < m.nodes.len() ==> #[trigger] closed_fact(
            m.nodes,
            y,
            x,
        )
    &&& forall|y: int, a: int|
        0 <= y < m.nodes.len() && !is_open(m.open, y) && 0 <= a < m.open.len() ==> !#[trigger] descends(
            m.nodes,
            y,
            m.open[a] as int,
        )
}

proof fn lemma_tree_close_inv(m: TreeModel, i: int)
    requires
        tree_inv(m),
        m.open.len() > 0,
    ensures
        tree_inv(tree_close(m, i)),
{
    let m2 = tree_close(m, i);
    let id = m.open.last() as int;
    let last = m.open.len() - 1;
    assert forall|y: int| 0 <= y < m2.nodes.len() && y != id && !is_open(m2.open, y) implies !#[trigger] is_open(m.open, y) by {
        if is_open(m.open, y) {
            let a = choose|a: int| 0 <= a < m.open.len() && m.open[a] as int == y;
            assert(a < last);
            assert(m2.open[a] == y);
            assert(is_open(m2.open, y));
        }
    }
    assert(!is_open(m2.open, id)) by {
        if is_open(m2.open, id) {
            let b = choose|b: int| 0 <= b < m2.open.len() && m2.open[b] as int == id;
            assert(m.open[b] < m.open[last]);
        }
    }
    assert forall|a: int, x: int| 0 <= a < m2.open.len() && 0 <= x < m2.nodes.len() implies (#[trigger] descends(
        m2.nodes,
        m2.open[a] as int,
        x,
    ) <==> m2.open[a] <= x) by {
        lemma_descends_frame(m2.nodes, m.nodes, m2.open[a] as int, x);
        assert(m2.open[a] == m.open[a]);
        assert(descends(m.nodes, m.open[a] as int, x) <==> m.open[a] <= x);
    }
    assert forall|y: int, x: int|
        0 <= y < m2.nodes.len() && !is_open(m2.open, y) && 0 <= x < m2.nodes.len() implies #[trigger] closed_fact(
        m2.nodes,
        y,
        x,
    ) by {
        lemma_descends_frame(m2.nodes, m.nodes, y, x);
        if y == id {
            assert(m.open[last] == id);
            assert(descends(m.nodes, m.open[last] as int, x) <==> m.open[last] <= x);
        } else {
            assert(!is_open(m.open, y));
            assert(m2.nodes[y] == m.nodes[y]);
            assert(closed_fact(m.nodes, y, x));
        }
    }
    assert forall|y: int, a: int|
        0 <= y < m2.nodes.len() && !is_open(m2.open, y) && 0 <= a < m2.open.len() implies !#[trigger] descends(
        m2.nodes,
        y,
        m2.open[a] as int,
    ) by {
        assert(m2.open[a] == m.open[a]);
        lemma_descends_frame(m2.nodes, m.nodes, y, m.open[a] as int);
        if y == id {
            assert(m.open[a] < m.open[last]);
        } else {
            assert(!is_open(m.open, y));
            assert(!descends(m.nodes, y, m.open[a] as int));
        }
    }
    assert forall|x: int| 0 < x < m2.nodes.len() implies ((#[trigger] m2.nodes[x].parent) matches Some(p) && p < x) by {
        assert(m2.nodes[x].parent == m.nodes[x].parent);
    }
    assert forall|a: int| 0 <= a < m2.open.len() implies #[trigger] m2.open[a] < m2.nodes.len() by {
        assert(m2.open[a] == m.open[a]);
    }
    assert forall|a: int, b: int| 0 <= a < b < m2.open.len() implies m2.open[a] < m2.open[b] by {
        assert(m.open[a] < m.open[b]);
    }
    assert(m2.nodes[0].parent == m.nodes[0].parent);
    assert(m2.nodes.len() == m.nodes.len());
    assert(m2.nodes.len() >= 1);
    assert(m2.nodes.len() <= usize::MAX);
    assert(m2.nodes[0].parent is None);
}

proof fn lemma_tree_enter_inv(m: TreeModel, i: int)
    requires
        tree_inv(m),
        m.nodes.len() < usize::MAX,
        m.open.len() > 0,
    ensures
        tree_step(m, Op::ScopeEnter, i) matches Ok(m2) && tree_inv(m2),
{
    let m2 = tree_step(m, Op::ScopeEnter, i)->Ok_0;
    let n = m.nodes.len() as int;
    let top = m.open.last() as int;
    assert(m2.nodes[n].parent == Some(top as usize));
    assert forall|y: int, x: int| 0 <= x < n implies descends(m2.nodes, y, x) == descends(m.nodes, y, x) by {
        lemma_descends_frame(m2.nodes, m.nodes, y, x);
    }
    assert forall|y: int| 0 <= y < n implies (descends(m2.nodes, y, n) <==> (y == n || descends(m.nodes, y, top))) by {
        lemma_descends_frame(m2.nodes, m.nodes, y, top);
    }
    assert forall|y: int| 0 <= y < n && !#[trigger] is_open(m2.open, y) implies !is_open(m.open, y) by {
        if is_open(m.open, y) {
            let a = choose|a: int| 0 <= a < m.open.len() && m.open[a] as int == y;
            assert(m2.open[a] == y);
        }
    }
    assert forall|a: int| 0 <= a < m.open.len() implies m.open[a] <= top by {
        if a < m.open.len() - 1 {
            assert(m.open[a] < m.open[m.open.len() - 1]);
        }
    }
    assert(descends(m.nodes, top, top) <==> top <= top) by {
        assert(m.open[m.open.len() - 1] == top);
    }
    assert forall|a: int, x: int| 0 <= a < m2.open.len() && 0 <= x < m2.nodes.len() implies (#[trigger] descends(
        m2.nodes,
        m2.open[a] as int,
        x,
    ) <==> m2.open[a] <= x) by {
        if a < m.open.len() {
            assert(m2.open[a] == m.open[a]);
            if x < n {
                assert(descends(m.nodes, m.open[a] as int, x) <==> m.open[a] <= x);
            } else {
                assert(descends(m.nodes, m.open[a] as int, top) <==> m.open[a] <= top);
            }
        } else {
            if x < n {
                assert(!descends(m2.nodes, n, x));
            }
        }
    }
    assert forall|y: int, x: int|
        0 <= y < m2.nodes.len() && !is_open(m2.open, y) && 0 <= x < m2.nodes.len() implies #[trigger] closed_fact(
        m2.nodes,
        y,
        x,
    ) by {
        if y == n {
            assert(m2.open[m2.open.len() - 1] as int == n);
            assert(is_open(m2.open, n));
        } else {
            assert(!is_open(m.open, y));
            assert(m2.nodes[y] == m.nodes[y]);
            assert(closed_fact(m.nodes, y, top));
            if x == n {
                assert(!descends(m.nodes, y, m.open[m.open.len() - 1] as int));
                lemma_descends_frame(m2.nodes, m.nodes, y, top);
                assert(!descends(m2.nodes, y, n));
            } else {
                lemma_descends_frame(m2.nodes, m.nodes, y, x);
                assert(closed_fact(m.nodes, y, x));
            }
        }
    }
    assert forall|y: int, a: int|
        0 <= y < m2.nodes.len() && !is_open(m2.open, y) && 0 <= a < m2.open.len() implies !#[trigger] descends(
        m2.nodes,
        y,
        m2.open[a] as int,
    ) by {
        if y == n {
            assert(m2.open[m2.open.len() - 1] as int == n);
            assert(is_open(m2.open, n));
        } else {
            assert(!is_open(m.open, y));
            if a < m.open.len() {
                assert(m2.open[a] == m.open[a]);
                assert(!descends(m.nodes, y, m.open[a] as int));
            } else {
                assert(!descends(m.nodes, y, m.open[m.open.len() - 1] as int));
            }
        }
    }
    assert forall|a: int, b: int| 0 <= a < b < m2.open.len() implies m2.open[a] < m2.open[b] by {
        if b < m.open.len() {
            assert(m.open[a] < m.open[b]);
        } else {
            assert(m.open[a] < m.nodes.len());
        }
    }
    assert forall|a: int| 0 <= a < m2.open.len() implies #[trigger] m2.open[a] < m2.nodes.len() by {
        if a < m.open.len() {
            assert(m.open[a] < m.nodes.len());
        }
    }
    assert forall|x: int| 0 < x < m2.nodes.len() implies ((#[trigger] m2.nodes[x].parent) matches Some(p) && p < x) by {
        if x < n {
            assert(m2.nodes[x] == m.nodes[x]);
        }
    }
    assert(m2.nodes[0] == m.nodes[0]);
    assert(m2.nodes.len() == n + 1);
}

proof fn lemma_tree_run_inv(ops: Seq<Op>, k: int)
    requires
        0 <= k <= ops.len() < usize::MAX,
    ensures
        tree_run(ops, k) matches Ok(m) ==> tree_inv(m) && m.nodes.len() <= k + 1,
    decreases k,
{
    if k == 0 {
        let m = tree_initial();
        assert forall|y: int, x: int| 0 <= y < 1 && 0 <= x < 1 implies descends(m.nodes, y, x) by {}
    } else {
        lemma_tree_run_inv(ops, k - 1);
        if let Ok(m) = tree_run(ops, k - 1) {
            match ops[k - 1] {
                Op::ScopeEnter => {
                    if m.open.len() > 0 {
                        lemma_tree_enter_inv(m, k - 1);
                    }
                },
                Op::ScopeExit => {
                    if m.open.len() > 0 {
                        lemma_tree_close_inv(m, k - 1);
                    }
                },
                _ => {},
            }
        }
    }
}

/// In a built scope tree every parent has a smaller id than its children,
/// and `y <= x <= last` of `y`, the test `is_nested` makes, holds exactly
/// when scope `x` is `y` or lies within it by its chain of parents.
pub proof fn law_scope_ranges_are_nesting(ops: Seq<Op>)
    requires
        ops.len() < usize::MAX,
    ensures
        scope_tree(ops) matches Ok(t) ==> t.len() >= 1 && t[0].parent is None && (forall|x: int|
            0 < x < t.len() ==> ((#[trigger] t[x].parent) matches Some(p) && p < x)) && (forall|y: int, x: int|
            0 <= y < t.len() && 0 <= x < t.len() ==> (y <= x <= t[y].last <==> #[trigger] descends(t, y, x))),
{
    let n = ops.len() as int;
    lemma_tree_run_inv(ops, n);
    if let Ok(m) = tree_run(ops, n) {
        if m.open.len() == 1 {
            lemma_tree_close_inv(m, n);
            let m2 = tree_close(m, n);
            assert(m2.open.len() == 0);
            assert forall|y: int| 0 <= y < m2.nodes.len() implies !#[trigger] is_open(m2.open, y) by {}
            assert forall|y: int, x: int| 0 <= y < m2.nodes.len() && 0 <= x < m2.nodes.len() implies (y <= x
                <= m2.nodes[y].last <==> #[trigger] descends(m2.nodes, y, x)) by {
                assert(closed_fact(m2.nodes, y, x));
            }
        } else if m.open.len() == 0 {
            assert forall|y: int| 0 <= y < m.nodes.len() implies !#[trigger] is_open(m.open, y) by {}
            assert forall|y: int, x: int| 0 <= y < m.nodes.len() && 0 <= x < m.nodes.len() implies (y <= x
                <= m.nodes[y].last <==> #[trigger] descends(m.nodes, y, x)) by {
                assert(closed_fact(m.nodes, y, x));
            }
        }
    }
}

} // verus!
