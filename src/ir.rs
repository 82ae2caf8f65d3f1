//! The operation stream that the checker consumes.
use vstd::prelude::*;

verus! {

/// A storage location: a variable, or a field path rooted at one.
/// The empty path stands for the whole variable.
pub struct Place {
    pub var: usize,
    pub path: Vec<usize>,
}

impl Place {
    /// The whole of variable `var`.
    pub fn whole(var: usize) -> (r: Place)
        ensures
            r.var == var,
            r.path@ == Seq::<usize>::empty(),
    {
        Place { var, path: Vec::new() }
    }

    /// Field `field` of variable `var`.
    pub fn field(var: usize, field: usize) -> (r: Place)
        ensures
            r.var == var,
            r.path@ == seq![field],
    {
        let mut path: Vec<usize> = Vec::new();
        path.push(field);
        assert(path@ =~= seq![field]);
        Place { var, path }
    }
}

/// One step of the analysed function body, in program order.
#[allow(inconsistent_fields)]
pub enum Op {
    /// Introduces a variable in the innermost open scope.
    Bind { var: usize },
    /// Transfers ownership out of a place.
    Move { place: Place },
    /// Takes a shared reference to a place.
    BorrowShared { place: Place },
    /// Takes an exclusive reference to a place.
    BorrowExclusive { place: Place },
    /// Reads a place; `via` names the borrow (by the index of the operation
    /// that created it) when the read goes through that reference.
    Read { place: Place, via: Option<usize> },
    /// Writes a place, directly or through the borrow `via`.
    Mutate { place: Place, via: Option<usize> },
    /// Destroys a whole variable explicitly.
    Drop { var: usize },
    /// Opens a nested lexical scope.
    ScopeEnter,
    /// Closes the innermost open scope.
    ScopeExit,
    /// Hands a value back to the caller, moving it out when there is one.
    Return { place: Option<Place> },
}

/// What the checker knows of a variable besides its uses.
#[derive(Clone, Copy, PartialEq, Eq, Structural, Debug)]
pub struct VarDecl {
    /// Moves of a copy-classified variable duplicate it and leave it live.
    pub copy: bool,
}

/// One function body: the variable table (indexed by variable id) and the
/// operations in program order.
pub struct Program {
    pub vars: Vec<VarDecl>,
    pub ops: Vec<Op>,
}

/// `a` is a prefix of `b`.
pub open spec fn is_prefix(a: Seq<usize>, b: Seq<usize>) -> bool {
    a.len() <= b.len() && b.subrange(0, a.len() as int) == a
}

/// Two places overlap when they share the variable and one path is a prefix
/// of the other.
pub open spec fn overlaps(p: Place, q: Place) -> bool {
    p.var == q.var && (is_prefix(p.path@, q.path@) || is_prefix(q.path@, p.path@))
}

/// Whether `a` is a prefix of `b`.
pub fn path_is_prefix(a: &Vec<usize>, b: &Vec<usize>) -> (r: bool)
    ensures
        r == is_prefix(a@, b@),
{
    if a.len() > b.len() {
        return false;
    }
    let mut k: usize = 0;
    while k < a.len()
        invariant
            k <= a.len() <= b.len(),
            forall|j: int| 0 <= j < k ==> a@[j] == b@[j],
        decreases a.len() - k,
    {
        if a[k] != b[k] {
            return false;
        }
        k = k + 1;
    }
    assert(b@.subrange(0, a@.len() as int) =~= a@);
    true
}

/// Whether two places overlap.
pub fn places_overlap(p: &Place, q: &Place) -> (r: bool)
    ensures
        r == overlaps(*p, *q),
{
    p.var == q.var && (path_is_prefix(&p.path, &q.path) || path_is_prefix(&q.path, &p.path))
}

} // verus!
