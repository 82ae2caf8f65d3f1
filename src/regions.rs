//! Lifetimes of function signatures: elision of the output lifetime and the
//! "outlives" constraints between named lifetimes.
use vstd::prelude::*;
use crate::diag::DiagKind;

verus! {

/// The lifetime written on a reference type.
#[derive(Clone, Copy, PartialEq, Eq, Structural, Debug)]
pub enum Lifetime {
    /// None written: elision or a fresh region decides.
    Elided,
    /// The signature's named lifetime with this index.
    Named(usize),
}

/// A region of a signature: a named lifetime, or the fresh region of the
/// unannotated reference parameter at this position.
#[derive(Clone, Copy, PartialEq, Eq, Structural, Debug)]
pub enum Region {
    Named(usize),
    Param(usize),
}

/// A function signature as far as lifetimes go. `params[k]` is `None` for a
/// parameter that is not a reference; `has_self` says that `params[0]` is
/// the receiver; `output` is `None` when the result is not a reference;
/// `(a, b)` in `bounds` reads "lifetime `a` outlives lifetime `b`".
pub struct Signature {
    pub named: usize,
    pub has_self: bool,
    pub params: Vec<Option<Lifetime>>,
    pub output: Option<Lifetime>,
    pub bounds: Vec<(usize, usize)>,
}

/// What lifetime checking finds of a signature: the region of its output,
/// when it is a reference and one is determined, and its diagnostics.
pub struct SignatureReport {
    pub output: Option<Region>,
    pub diags: Vec<DiagKind>,
}

pub open spec fn param_region(l: Option<Lifetime>, k: int) -> Option<Region> {
    match l {
        None => None,
        Some(Lifetime::Elided) => Some(Region::Param(k as usize)),
        Some(Lifetime::Named(r)) => Some(Region::Named(r)),
    }
}

/// `r` is the one and only region of the inputs.
pub open spec fn sole_input(params: Seq<Option<Lifetime>>, r: Region) -> bool {
    &&& exists|k: int| 0 <= k < params.len() && param_region(params[k], k) == Some(r)
    &&& forall|k: int|
        0 <= k < params.len() && (#[trigger] param_region(params[k], k)) is Some ==> param_region(
            params[k],
            k,
        ) == Some(r)
}

/// The elision rules for an unannotated output reference: the sole input
/// region; failing that, the receiver's region; failing that, none.
pub open spec fn elided_output(has_self: bool, params: Seq<Option<Lifetime>>) -> Option<Region> {
    if exists|r: Region| sole_input(params, r) {
        Some(choose|r: Region| sole_input(params, r))
    } else if has_self && params.len() > 0 && params[0] is Some {
        param_region(params[0], 0)
    } else {
        None
    }
}

/// The region of the output of a signature (`None`: not a reference).
pub open spec fn output_region(has_self: bool, params: Seq<Option<Lifetime>>, output: Option<
    Lifetime,
>) -> Result<Option<Region>, DiagKind> {
    match output {
        None => Ok(None),
        Some(Lifetime::Named(r)) => Ok(Some(Region::Named(r))),
        Some(Lifetime::Elided) => match elided_output(has_self, params) {
            Some(r) => Ok(Some(r)),
            None => Err(DiagKind::ElisionAmbiguity),
        },
    }
}

proof fn lemma_sole_input_unique(params: Seq<Option<Lifetime>>, r: Region, s: Region)
    requires
        sole_input(params, r),
        sole_input(params, s),
    ensures
        r == s,
{
    let k = choose|k: int| 0 <= k < params.len() && param_region(params[k], k) == Some(r);
    assert(param_region(params[k], k) is Some);
}

/// Infers the region of a signature's output by the elision rules, or
/// reports `ElisionAmbiguity` when none applies.
pub fn infer_output(has_self: bool, params: &Vec<Option<Lifetime>>, output: Option<Lifetime>) -> (r:
    Result<Option<Region>, DiagKind>)
    ensures
        r == output_region(has_self, params@, output),
{
    match output {
        None => {
            return Ok(None);
        },
        Some(Lifetime::Named(x)) => {
            return Ok(Some(Region::Named(x)));
        },
        Some(Lifetime::Elided) => {},
    }
    let mut first: Option<Region> = None;
    let mut same = true;
    let mut k: usize = 0;
    while k < params.len()
        invariant
            k <= params@.len(),
            first is None ==> same,
            first is None <==> forall|j: int| 0 <= j < k ==> (#[trigger] param_region(params@[j], j)) is None,
            first matches Some(f) ==> exists|j: int| 0 <= j < k && param_region(params@[j], j) == Some(f),
            same ==> forall|j: int| 0 <= j < k && (#[trigger] param_region(params@[j], j)) is Some ==> param_region(params@[j], j) == first,
            !same ==> exists|j: int| 0 <= j < k && (#[trigger] param_region(params@[j], j)) is Some && param_region(params@[j], j) != first,
            first is Some || same,
        decreases params@.len() - k,
    {
        let here = match params[k] {
            None => None,
            Some(Lifetime::Elided) => Some(Region::Param(k)),
            Some(Lifetime::Named(x)) => Some(Region::Named(x)),
        };
        assert(here == param_region(params@[k as int], k as int));
        match here {
            Some(h) => match first {
                None => {
                    first = Some(h);
                },
                Some(f) => {
                    if f != h {
                        same = false;
                    }
                },
            },
            None => {},
        }
        k = k + 1;
    }
    match first {
        Some(f) => {
            if same {
                assert(sole_input(params@, f));
                proof {
                    let c = choose|r: Region| sole_input(params@, r);
                    lemma_sole_input_unique(params@, f, c);
                }
                return Ok(Some(f));
            } else {
                assert forall|r: Region| !sole_input(params@, r) by {
                    if sole_input(params@, r) {
                        let j = choose|j: int| 0 <= j < params@.len() && (#[trigger] param_region(params@[j], j)) is Some && param_region(params@[j], j) != first;
                        let i = choose|i: int| 0 <= i < params@.len() && param_region(params@[i], i) == Some(f);
                        assert(param_region(params@[i], i) is Some);
                    }
                }
            }
        },
        None => {
            assert forall|r: Region| !sole_input(params@, r) by {
                if sole_input(params@, r) {
                    let i = choose|i: int| 0 <= i < params@.len() && param_region(params@[i], i) == Some(r);
                    assert(param_region(params@[i], i) is None);
                }
            }
        },
    }
    if has_self && params.len() > 0 {
        match params[0] {
            Some(Lifetime::Elided) => {
                return Ok(Some(Region::Param(0)));
            },
            Some(Lifetime::Named(x)) => {
                return Ok(Some(Region::Named(x)));
            },
            None => {},
        }
    }
    Err(DiagKind::ElisionAmbiguity)
}

/// A topological order of the lifetimes: `order` lists them so that each
/// outlives only lifetimes listed after it, and `rank` gives each one's
/// position in `order`.
pub struct Topo {
    pub rank: Vec<usize>,
    pub order: Vec<usize>,
}

/// `rank` and `order` are inverse permutations of `0..n`.
pub open spec fn inverse(rank: Seq<usize>, order: Seq<usize>, n: nat) -> bool {
    &&& rank.len() == n
    &&& order.len() == n
    &&& forall|k: int| 0 <= k < n ==> #[trigger] order[k] < n && rank[order[k] as int] == k
    &&& forall|a: int| 0 <= a < n ==> #[trigger] rank[a] < n && order[rank[a] as int] == a
}

/// `a` outlives `b` by one of the constraints.
pub open spec fn edge(bounds: Seq<(usize, usize)>, a: usize, b: usize) -> bool {
    exists|e: int| 0 <= e < bounds.len() && bounds[e] == (a, b)
}

/// `w` is a closed walk along the constraints.
pub open spec fn is_cycle(bounds: Seq<(usize, usize)>, w: Seq<usize>) -> bool {
    &&& w.len() >= 2
    &&& w[0] == w.last()
    &&& forall|j: int| 0 <= j < w.len() - 1 ==> edge(bounds, #[trigger] w[j], w[j + 1])
}

pub open spec fn acyclic(bounds: Seq<(usize, usize)>) -> bool {
    forall|w: Seq<usize>| !is_cycle(bounds, w)
}

/// Every constraint goes from a lower to a higher rank.
pub open spec fn ranks(bounds: Seq<(usize, usize)>, rank: Seq<usize>) -> bool {
    forall|e: int|
        0 <= e < bounds.len() ==> bounds[e].0 < rank.len() && bounds[e].1 < rank.len() && rank[bounds[e].0 as int]
            < rank[#[trigger] bounds[e].1 as int]
}

pub open spec fn in_range(bounds: Seq<(usize, usize)>, n: nat) -> bool {
    forall|e: int| 0 <= e < bounds.len() ==> #[trigger] bounds[e].0 < n && bounds[e].1 < n
}

/// Constraints that a ranking orders have no cycle.
pub proof fn lemma_ranked_acyclic(bounds: Seq<(usize, usize)>, rank: Seq<usize>)
    requires
        ranks(bounds, rank),
    ensures
        acyclic(bounds),
{
    assert forall|w: Seq<usize>| !is_cycle(bounds, w) by {
        if is_cycle(bounds, w) {
            lemma_rank_grows(bounds, rank, w, w.len() - 1);
        }
    }
}

proof fn lemma_rank_grows(bounds: Seq<(usize, usize)>, rank: Seq<usize>, w: Seq<usize>, j: int)
    requires
        ranks(bounds, rank),
        1 <= j < w.len(),
        forall|t: int| 0 <= t < w.len() - 1 ==> edge(bounds, #[trigger] w[t], w[t + 1]),
    ensures
        w[0] < rank.len() && w[j] < rank.len() && rank[w[0] as int] < rank[w[j] as int],
    decreases j,
{
    assert(edge(bounds, w[j - 1], w[j]));
    let e = choose|e: int| 0 <= e < bounds.len() && bounds[e] == (w[j - 1], w[j]);
    assert(rank[bounds[e].0 as int] < rank[bounds[e].1 as int]);
    if j > 1 {
        lemma_rank_grows(bounds, rank, w, j - 1);
    }
}

/// A walk without repetitions over `0..n` has at most `n` entries.
proof fn lemma_distinct_bounded(s: Seq<usize>, n: usize)
    requires
        s.no_duplicates(),
        forall|k: int| 0 <= k < s.len() ==> s[k] < n,
    ensures
        s.len() <= n,
{
    s.unique_seq_to_set();
    lemma_below_finite(n);
    vstd::set_lib::lemma_len_subset(s.to_set(), Set::new(|x: usize| x < n));
}

proof fn lemma_below_finite(n: usize)
    ensures
        Set::new(|x: usize| x < n).finite(),
        Set::new(|x: usize| x < n).len() == n,
    decreases n,
{
    if n == 0 {
        assert(Set::new(|x: usize| x < n) =~= Set::<usize>::empty());
    } else {
        let m = (n - 1) as usize;
        lemma_below_finite(m);
        assert(Set::new(|x: usize| x < m).insert(m) =~= Set::new(|x: usize| x < n));
    }
}

pub open spec fn unplaced(placed: Seq<bool>) -> nat
    decreases placed.len(),
{
    if placed.len() == 0 {
        0
    } else {
        unplaced(placed.drop_last()) + if placed.last() {
            0nat
        } else {
            1nat
        }
    }
}

proof fn lemma_unplaced_bound(placed: Seq<bool>)
    ensures
        unplaced(placed) <= placed.len(),
        unplaced(placed) == 0 ==> forall|x: int| 0 <= x < placed.len() ==> placed[x],
        (forall|x: int| 0 <= x < placed.len() ==> placed[x]) ==> unplaced(placed) == 0,
    decreases placed.len(),
{
    if placed.len() > 0 {
        lemma_unplaced_bound(placed.drop_last());
        if forall|x: int| 0 <= x < placed.len() ==> placed[x] {
            assert forall|x: int| 0 <= x < placed.drop_last().len() implies placed.drop_last()[x] by {
                assert(placed[x]);
            }
        }
        assert forall|x: int| 0 <= x < placed.len() && unplaced(placed) == 0 implies placed[x] by {
            if x < placed.len() - 1 {
                assert(placed.drop_last()[x] == placed[x]);
            }
        }
    }
}

proof fn lemma_unplaced_place(placed: Seq<bool>, x: int)
    requires
        0 <= x < placed.len(),
        !placed[x],
    ensures
        unplaced(placed.update(x, true)) + 1 == unplaced(placed),
    decreases placed.len(),
{
    if x < placed.len() - 1 {
        assert(placed.update(x, true).drop_last() =~= placed.drop_last().update(x, true));
        lemma_unplaced_place(placed.drop_last(), x);
    } else {
        assert(placed.update(x, true).drop_last() =~= placed.drop_last());
    }
}

/// A constraint `(a, x)` whose `a` is not placed yet.
fn unplaced_pred(bounds: &Vec<(usize, usize)>, placed: &Vec<bool>, x: usize) -> (r: Option<usize>)
    requires
        in_range(bounds@, placed@.len()),
    ensures
        r matches Some(a) ==> a < placed@.len() && !placed@[a as int] && edge(bounds@, a, x),
        r is None ==> forall|e: int| 0 <= e < bounds@.len() && #[trigger] bounds@[e].1 == x ==> placed@[bounds@[e].0 as int],
{
    let mut e: usize = 0;
    while e < bounds.len()
        invariant
            e <= bounds@.len(),
            in_range(bounds@, placed@.len()),
            forall|f: int| 0 <= f < e && #[trigger] bounds@[f].1 == x ==> placed@[bounds@[f].0 as int],
        decreases bounds@.len() - e,
    {
        let (a, b) = bounds[e];
        assert(bounds@[e as int].0 < placed@.len());
        if b == x && !placed[a] {
            assert(bounds@[e as int] == (a, x));
            return Some(a);
        }
        e = e + 1;
    }
    None
}

/// Orders the lifetimes `0..n` so that each outlives only those after it
/// (every constraint increases the rank); or, when the constraints form a
/// cycle, returns one such cycle.
pub fn outlives_order(n: usize, bounds: &Vec<(usize, usize)>) -> (r: Result<Topo, Vec<usize>>)
    requires
        in_range(bounds@, n as nat),
    ensures
        r matches Ok(t) ==> inverse(t.rank@, t.order@, n as nat) && ranks(bounds@, t.rank@),
        r matches Err(w) ==> is_cycle(bounds@, w@) && forall|k: int| 0 <= k < w@.len() ==> w@[k] < n,
{
    let mut placed: Vec<bool> = Vec::new();
    let mut rank: Vec<usize> = Vec::new();
    let mut x: usize = 0;
    while x < n
        invariant
            x <= n,
            placed@.len() == x,
            rank@.len() == x,
            forall|y: int| 0 <= y < x ==> !placed@[y],
        decreases n - x,
    {
        placed.push(false);
        rank.push(0);
        x = x + 1;
    }
    let mut next: usize = 0;
    let mut order: Vec<usize> = Vec::new();
    proof {
        assert forall|k: nat| k <= n implies unplaced(placed@.take(k as int)) == k by {
            lemma_unplaced_all(placed@, k);
        }
        assert(placed@.take(n as int) =~= placed@);
    }
    loop
        invariant
            placed@.len() == n,
            rank@.len() == n,
            in_range(bounds@, n as nat),
            next + unplaced(placed@) == n,
            order@.len() == next,
            forall|k: int| 0 <= k < next ==> #[trigger] order@[k] < n && placed@[order@[k] as int] && rank@[order@[k] as int] == k,
            forall|y: int| 0 <= y < n && placed@[y] ==> rank@[y] < next && order@[rank@[y] as int] == y,
            forall|e: int|
                0 <= e < bounds@.len() && placed@[#[trigger] bounds@[e].1 as int] ==> placed@[bounds@[e].0 as int]
                    && rank@[bounds@[e].0 as int] < rank@[bounds@[e].1 as int],
        decreases unplaced(placed@),
    {
        let mut found: Option<usize> = None;
        let mut y: usize = 0;
        while y < n
            invariant
                y <= n,
                placed@.len() == n,
                in_range(bounds@, n as nat),
                found matches Some(z) ==> z < n && !placed@[z as int] && forall|e: int|
                    0 <= e < bounds@.len() && #[trigger] bounds@[e].1 == z ==> placed@[bounds@[e].0 as int],
                found is None ==> forall|z: int| 0 <= z < y && !placed@[z] ==> exists|a: usize| a < n && !placed@[a as int] && edge(bounds@, a, z as usize),
            decreases n - y,
        {
            if found.is_none() && !placed[y] {
                match unplaced_pred(bounds, &placed, y) {
                    None => {
                        found = Some(y);
                    },
                    Some(a) => {},
                }
            }
            y = y + 1;
        }
        match found {
            Some(z) => {
                proof {
                    lemma_unplaced_place(placed@, z as int);
                    lemma_unplaced_bound(placed@.update(z as int, true));
                }
                placed.set(z, true);
                rank.set(z, next);
                order.push(z);
                next = next + 1;
            },
            None => {
                proof {
                    lemma_unplaced_bound(placed@);
                }
                if next == n {
                    assert forall|a: int| 0 <= a < n implies #[trigger] rank@[a] < n && order@[rank@[a] as int] == a by {
                        assert(placed@[a]);
                    }
                    return Ok(Topo { rank, order });
                }
                let mut start: usize = 0;
                while start < n && placed[start]
                    invariant
                        start <= n,
                        placed@.len() == n,
                        forall|z: int| 0 <= z < start ==> placed@[z],
                    decreases n - start,
                {
                    start = start + 1;
                }
                if start == n {
                    proof {
                        lemma_unplaced_bound(placed@);
                    }
                    return Ok(Topo { rank, order });
                }
                return Err(find_cycle(n, bounds, &placed, start));
            },
        }
    }
}

proof fn lemma_unplaced_all(placed: Seq<bool>, k: nat)
    requires
        k <= placed.len(),
        forall|y: int| 0 <= y < placed.len() ==> !placed[y],
    ensures
        unplaced(placed.take(k as int)) == k,
    decreases k,
{
    if k > 0 {
        assert(placed.take(k as int).drop_last() =~= placed.take(k - 1));
        lemma_unplaced_all(placed, (k - 1) as nat);
    }
}

/// Walks backward from an unplaced lifetime along constraints between
/// unplaced ones until it meets itself, and returns that cycle forward.
fn find_cycle(n: usize, bounds: &Vec<(usize, usize)>, placed: &Vec<bool>, start: usize) -> (w: Vec<usize>)
    requires
        placed@.len() == n,
        in_range(bounds@, n as nat),
        start < n,
        !placed@[start as int],
        forall|z: int| 0 <= z < n && !placed@[z] ==> exists|a: usize| a < n && !placed@[a as int] && edge(bounds@, a, z as usize),
    ensures
        is_cycle(bounds@, w@),
        forall|k: int| 0 <= k < w@.len() ==> w@[k] < n,
{
    let mut pos: Vec<usize> = Vec::new();
    let mut x: usize = 0;
    while x < n
        invariant
            x <= n,
            pos@.len() == x,
            forall|y: int| 0 <= y < x ==> pos@[y] == n,
        decreases n - x,
    {
        pos.push(n);
        x = x + 1;
    }
    let mut walk: Vec<usize> = Vec::new();
    let mut cur = start;
    loop
        invariant
            placed@.len() == n,
            pos@.len() == n,
            in_range(bounds@, n as nat),
            cur < n,
            !placed@[cur as int],
            forall|z: int| 0 <= z < n && !placed@[z] ==> exists|a: usize| a < n && !placed@[a as int] && edge(bounds@, a, z as usize),
            walk@.no_duplicates(),
            walk@.len() <= n,
            forall|j: int| 0 <= j < walk@.len() ==> walk@[j] < n && pos@[walk@[j] as int] == j,
            forall|y: int| 0 <= y < n && pos@[y] != n ==> pos@[y] < walk@.len() && walk@[pos@[y] as int] == y,
            forall|j: int| 0 <= j < walk@.len() - 1 ==> edge(bounds@, #[trigger] walk@[j + 1], walk@[j]),
            walk@.len() > 0 ==> edge(bounds@, cur, walk@.last()),
        decreases n - walk@.len(),
    {
        let p = pos[cur];
        if p != n {
            let last = walk.len() - 1;
            let mut w: Vec<usize> = Vec::new();
            w.push(cur);
            let mut j: usize = last + 1;
            while j > p
                invariant
                    p <= j <= last + 1,
                    last + 1 == walk@.len(),
                    p < walk@.len(),
                    walk@[p as int] == cur,
                    w@.len() == last + 2 - j,
                    w@[0] == cur,
                    forall|t: int| 1 <= t < w@.len() ==> w@[t] == walk@[last + 1 - t],
                    forall|t: int| 0 <= t < w@.len() ==> w@[t] < n,
                    forall|t: int| 0 <= t < w@.len() - 1 ==> edge(bounds@, #[trigger] w@[t], w@[t + 1]),
                    forall|k: int| 0 <= k < walk@.len() ==> walk@[k] < n,
                    forall|k: int| 0 <= k < walk@.len() - 1 ==> edge(bounds@, #[trigger] walk@[k + 1], walk@[k]),
                    edge(bounds@, cur, walk@.last()),
                decreases j,
            {
                j = j - 1;
                proof {
                    if w@.len() >= 2 {
                        assert(edge(bounds@, walk@[j as int + 1], walk@[j as int]));
                    }
                }
                w.push(walk[j]);
            }
            return w;
        }
        assert(!walk@.contains(cur)) by {
            if walk@.contains(cur) {
                let j = choose|j: int| 0 <= j < walk@.len() && walk@[j] == cur;
            }
        }
        let a = choose_pred(n, bounds, placed, cur);
        pos.set(cur, walk.len());
        walk.push(cur);
        proof {
            lemma_distinct_bounded(walk@, n);
        }
        cur = a;
    }
}

/// Some unplaced `a` with a constraint `(a, x)`.
fn choose_pred(n: usize, bounds: &Vec<(usize, usize)>, placed: &Vec<bool>, x: usize) -> (a: usize)
    requires
        placed@.len() == n,
        in_range(bounds@, n as nat),
        x < n,
        exists|a: usize| a < n && !placed@[a as int] && edge(bounds@, a, x),
    ensures
        a < n && !placed@[a as int] && edge(bounds@, a, x),
{
    match unplaced_pred(bounds, placed, x) {
        Some(a) => a,
        None => {
            proof {
                let a = choose|a: usize| a < n && !placed@[a as int] && edge(bounds@, a, x);
                let e = choose|e: int| 0 <= e < bounds@.len() && bounds@[e] == (a, x);
                assert(bounds@[e].1 == x);
            }
            0
        },
    }
}

/// Every named lifetime that a signature mentions is one it declares.
pub open spec fn names_ok(sig: Signature) -> bool {
    &&& forall|k: int|
        0 <= k < sig.params@.len() ==> (#[trigger] sig.params@[k] matches Some(Lifetime::Named(x))
            ==> x < sig.named)
    &&& (sig.output matches Some(Lifetime::Named(x)) ==> x < sig.named)
    &&& in_range(sig.bounds@, sig.named as nat)
}

/// The diagnostics of a signature whose names are all declared: a cycle
/// among its constraints, then an output that elision cannot settle.
pub open spec fn signature_diags(sig: Signature) -> Seq<DiagKind> {
    (if acyclic(sig.bounds@) {
        Seq::empty()
    } else {
        seq![DiagKind::RegionCycle]
    }) + match output_region(sig.has_self, sig.params@, sig.output) {
        Ok(_) => Seq::empty(),
        Err(k) => seq![k],
    }
}

fn names_declared(sig: &Signature) -> (r: bool)
    ensures
        r == names_ok(*sig),
{
    let mut k: usize = 0;
    while k < sig.params.len()
        invariant
            k <= sig.params@.len(),
            forall|j: int|
                0 <= j < k ==> (#[trigger] sig.params@[j] matches Some(Lifetime::Named(x)) ==> x
                    < sig.named),
        decreases sig.params@.len() - k,
    {
        if let Some(Lifetime::Named(x)) = sig.params[k] {
            if x >= sig.named {
                return false;
            }
        }
        k = k + 1;
    }
    if let Some(Lifetime::Named(x)) = sig.output {
        if x >= sig.named {
            return false;
        }
    }
    let mut e: usize = 0;
    while e < sig.bounds.len()
        invariant
            e <= sig.bounds@.len(),
            forall|f: int| 0 <= f < e ==> #[trigger] sig.bounds@[f].0 < sig.named && sig.bounds@[f].1 < sig.named,
        decreases sig.bounds@.len() - e,
    {
        let (a, b) = sig.bounds[e];
        if a >= sig.named || b >= sig.named {
            return false;
        }
        e = e + 1;
    }
    true
}

/// Checks the lifetimes of a signature: `None` when it mentions a named
/// lifetime it does not declare; otherwise the region of its output and
/// the diagnostics `signature_diags` gives.
pub fn check_signature(sig: &Signature) -> (r: Option<SignatureReport>)
    ensures
        r is None <==> !names_ok(*sig),
        r matches Some(rep) ==> rep.diags@ == signature_diags(*sig) && rep.output == match output_region(
            sig.has_self,
            sig.params@,
            sig.output,
        ) {
            Ok(o) => o,
            Err(_) => None,
        },
{
    if !names_declared(sig) {
        return None;
    }
    let mut diags: Vec<DiagKind> = Vec::new();
    match outlives_order(sig.named, &sig.bounds) {
        Ok(t) => {
            proof {
                lemma_ranked_acyclic(sig.bounds@, t.rank@);
            }
        },
        Err(w) => {
            diags.push(DiagKind::RegionCycle);
        },
    }
    let output = match infer_output(sig.has_self, &sig.params, sig.output) {
        Ok(o) => o,
        Err(k) => {
            diags.push(k);
            None
        },
    };
    assert(diags@ =~= signature_diags(*sig));
    Some(SignatureReport { output, diags })
}

/// An interval of operation indices, both ends included.
#[derive(Clone, Copy, PartialEq, Eq, Structural, Debug)]
pub struct Extent {
    pub start: usize,
    pub end: usize,
}

/// The smallest extent covering both (`None` covers nothing).
pub open spec fn join(a: Option<Extent>, b: Option<Extent>) -> Option<Extent> {
    match a {
        None => b,
        Some(x) => match b {
            None => a,
            Some(y) => Some(
                Extent {
                    start: if x.start <= y.start {
                        x.start
                    } else {
                        y.start
                    },
                    end: if x.end >= y.end {
                        x.end
                    } else {
                        y.end
                    },
                },
            ),
        },
    }
}

/// The join of the extents of the lifetimes that `a` outlives by the first
/// `k` constraints.
pub open spec fn gather(bounds: Seq<(usize, usize)>, ext: Seq<Option<Extent>>, a: usize, k: int) -> Option<
    Extent,
>
    decreases k,
{
    if k <= 0 {
        None
    } else {
        join(
            gather(bounds, ext, a, k - 1),
            if bounds[k - 1].0 == a {
                ext[bounds[k - 1].1 as int]
            } else {
                None
            },
        )
    }
}

/// `ext` resolves the constraints: each lifetime's extent is the smallest
/// one that covers its own lower bound and the extents of all lifetimes it
/// outlives.
pub open spec fn resolved(bounds: Seq<(usize, usize)>, lower: Seq<Option<Extent>>, ext: Seq<Option<Extent>>) -> bool {
    &&& ext.len() == lower.len()
    &&& forall|a: int|
        0 <= a < ext.len() ==> #[trigger] ext[a] == join(lower[a], gather(bounds, ext, a as usize, bounds.len() as int))
}

fn join_extents(a: Option<Extent>, b: Option<Extent>) -> (r: Option<Extent>)
    ensures
        r == join(a, b),
{
    match a {
        None => b,
        Some(x) => match b {
            None => a,
            Some(y) => Some(
                Extent {
                    start: if x.start <= y.start {
                        x.start
                    } else {
                        y.start
                    },
                    end: if x.end >= y.end {
                        x.end
                    } else {
                        y.end
                    },
                },
            ),
        },
    }
}

fn gather_extents(bounds: &Vec<(usize, usize)>, ext: &Vec<Option<Extent>>, a: usize) -> (r: Option<Extent>)
    requires
        in_range(bounds@, ext@.len()),
    ensures
        r == gather(bounds@, ext@, a, bounds@.len() as int),
{
    let mut acc: Option<Extent> = None;
    let mut e: usize = 0;
    while e < bounds.len()
        invariant
            e <= bounds@.len(),
            in_range(bounds@, ext@.len()),
            acc == gather(bounds@, ext@, a, e as int),
        decreases bounds@.len() - e,
    {
        let (x, y) = bounds[e];
        assert(bounds@[e as int].1 < ext@.len());
        let here = if x == a {
            ext[y]
        } else {
            None
        };
        acc = join_extents(acc, here);
        e = e + 1;
    }
    acc
}

/// What `a` gathers depends only on the lifetimes it outlives.
proof fn lemma_gather_frame(
    bounds: Seq<(usize, usize)>,
    ext: Seq<Option<Extent>>,
    ext2: Seq<Option<Extent>>,
    a: usize,
    k: int,
)
    requires
        0 <= k <= bounds.len(),
        in_range(bounds, ext.len()),
        ext.len() == ext2.len(),
        forall|e: int| 0 <= e < k && #[trigger] bounds[e].0 == a ==> ext[bounds[e].1 as int] == ext2[bounds[e].1 as int],
    ensures
        gather(bounds, ext, a, k) == gather(bounds, ext2, a, k),
    decreases k,
{
    if k > 0 {
        lemma_gather_frame(bounds, ext, ext2, a, k - 1);
    }
}

/// Resolves the extent of every lifetime `0..n` from its lower bound and
/// the constraints; or, when the constraints form a cycle, returns one.
pub fn resolve_extents(n: usize, bounds: &Vec<(usize, usize)>, lower: &Vec<Option<Extent>>) -> (r: Result<
    Vec<Option<Extent>>,
    Vec<usize>,
>)
    requires
        in_range(bounds@, n as nat),
        lower@.len() == n,
    ensures
        r matches Ok(ext) ==> resolved(bounds@, lower@, ext@),
        r matches Err(w) ==> is_cycle(bounds@, w@),
{
    let t = match outlives_order(n, bounds) {
        Ok(t) => t,
        Err(w) => {
            return Err(w);
        },
    };
    let mut ext: Vec<Option<Extent>> = Vec::new();
    let mut a: usize = 0;
    while a < n
        invariant
            a <= n,
            ext@.len() == a,
        decreases n - a,
    {
        ext.push(None);
        a = a + 1;
    }
    let mut k: usize = n;
    while k > 0
        invariant
            k <= n,
            ext@.len() == n,
            lower@.len() == n,
            in_range(bounds@, n as nat),
            inverse(t.rank@, t.order@, n as nat),
            ranks(bounds@, t.rank@),
            forall|p: int|
                k <= p < n ==> #[trigger] ext@[t.order@[p] as int] == join(
                    lower@[t.order@[p] as int],
                    gather(bounds@, ext@, t.order@[p], bounds@.len() as int),
                ),
        decreases k,
    {
        k = k - 1;
        let x = t.order[k];
        let g = gather_extents(bounds, &ext, x);
        let j = join_extents(lower[x], g);
        let ghost before = ext@;
        ext.set(x, j);
        proof {
            assert forall|e: int| 0 <= e < bounds@.len() && #[trigger] bounds@[e].0 == x implies before[bounds@[e].1 as int]
                == ext@[bounds@[e].1 as int] by {
                assert(t.rank@[bounds@[e].0 as int] < t.rank@[bounds@[e].1 as int]);
            }
            lemma_gather_frame(bounds@, before, ext@, x, bounds@.len() as int);
            assert forall|p: int| k <= p < n implies #[trigger] ext@[t.order@[p] as int] == join(
                lower@[t.order@[p] as int],
                gather(bounds@, ext@, t.order@[p], bounds@.len() as int),
            ) by {
                if p > k {
                    let y = t.order@[p];
                    assert(t.rank@[y as int] == p);
                    assert forall|e: int| 0 <= e < bounds@.len() && #[trigger] bounds@[e].0 == y implies before[bounds@[e].1 as int]
                        == ext@[bounds@[e].1 as int] by {
                        assert(t.rank@[bounds@[e].0 as int] < t.rank@[bounds@[e].1 as int]);
                    }
                    lemma_gather_frame(bounds@, before, ext@, y, bounds@.len() as int);
                }
            }
        }
    }
    assert forall|a: int| 0 <= a < ext@.len() implies #[trigger] ext@[a] == join(
        lower@[a],
        gather(bounds@, ext@, a as usize, bounds@.len() as int),
    ) by {
        assert(t.order@[t.rank@[a] as int] == a);
    }
    Ok(ext)
}

/// Whether extent `e` is not contained in `limit`.
pub open spec fn exceeds(e: Option<Extent>, limit: Option<Extent>) -> bool {
    match e {
        Some(x) => match limit {
            Some(l) => !(l.start <= x.start && x.end <= l.end),
            None => false,
        },
        None => false,
    }
}

/// The lifetimes among the first `k` whose extent exceeds their limit (the
/// extent of what they refer to), in order.
pub open spec fn too_short(ext: Seq<Option<Extent>>, limit: Seq<Option<Extent>>, k: int) -> Seq<usize>
    decreases k,
{
    if k <= 0 {
        Seq::empty()
    } else {
        too_short(ext, limit, k - 1) + if exceeds(ext[k - 1], limit[k - 1]) {
            seq![(k - 1) as usize]
        } else {
            Seq::empty()
        }
    }
}

/// The lifetimes whose resolved extent outlasts what they refer to: each
/// one is a `RegionTooShort`.
pub fn regions_too_short(ext: &Vec<Option<Extent>>, limit: &Vec<Option<Extent>>) -> (r: Vec<usize>)
    requires
        ext@.len() == limit@.len(),
    ensures
        r@ == too_short(ext@, limit@, ext@.len() as int),
{
    let mut r: Vec<usize> = Vec::new();
    let mut a: usize = 0;
    while a < ext.len()
        invariant
            a <= ext@.len(),
            ext@.len() == limit@.len(),
            r@ == too_short(ext@, limit@, a as int),
        decreases ext@.len() - a,
    {
        let over = match ext[a] {
            Some(x) => match limit[a] {
                Some(l) => !(l.start <= x.start && x.end <= l.end),
                None => false,
            },
            None => false,
        };
        if over {
            r.push(a);
            assert(r@ =~= too_short(ext@, limit@, a as int + 1));
        } else {
            assert(r@ =~= too_short(ext@, limit@, a as int + 1));
        }
        a = a + 1;
    }
    r
}

/// `outer` covers `inner` (nothing is covered by anything).
pub open spec fn covers(outer: Option<Extent>, inner: Option<Extent>) -> bool {
    match inner {
        None => true,
        Some(y) => match outer {
            Some(x) => x.start <= y.start && y.end <= x.end,
            None => false,
        },
    }
}

proof fn lemma_gather_covers(bounds: Seq<(usize, usize)>, ext: Seq<Option<Extent>>, a: usize, k: int, e: int)
    requires
        0 <= e < k <= bounds.len(),
        bounds[e].0 == a,
    ensures
        covers(gather(bounds, ext, a, k), ext[bounds[e].1 as int]),
    decreases k,
{
    if e < k - 1 {
        lemma_gather_covers(bounds, ext, a, k - 1, e);
    }
}

/// Once resolved, a lifetime's extent contains the extent of every lifetime
/// it outlives.
pub proof fn law_resolved_extents_nest(
    bounds: Seq<(usize, usize)>,
    lower: Seq<Option<Extent>>,
    ext: Seq<Option<Extent>>,
    e: int,
)
    requires
        resolved(bounds, lower, ext),
        in_range(bounds, ext.len()),
        0 <= e < bounds.len(),
    ensures
        covers(ext[bounds[e].0 as int], ext[bounds[e].1 as int]),
{
    let a = bounds[e].0;
    assert(a < ext.len());
    assert(ext[a as int] == join(lower[a as int], gather(bounds, ext, a, bounds.len() as int)));
    lemma_gather_covers(bounds, ext, a, bounds.len() as int, e);
}

} // verus!
