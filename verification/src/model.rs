use vstd::prelude::*;

use crate::quadrant::Quadrant;

verus! {

/// What one cell of the tree holds.
///
/// A cell is named by its path from the root: the sequence of quadrants that
/// leads from the root square down to it.  A particle's *route* from a square
/// is the sequence of quadrants it falls into, depth by depth, below that
/// square: at each step the first child square, in the order south-west,
/// south-east, north-west, north-east, that contains it; the route ends where
/// none of the four children contains it.
pub enum Cell {
    /// A cell with no particle.
    Empty,
    /// A cell holding exactly this particle, with its route from this cell's
    /// square.
    Leaf(usize, Seq<Quadrant>),
    /// A cell split into four children; the index is the particle it held
    /// when it was split.
    Internal(usize),
}

/// The abstract tree: the content of each cell, by path.
pub type Cells = Map<Seq<Quadrant>, Cell>;

/// `a` is a prefix of `b`.
pub open spec fn is_prefix(a: Seq<Quadrant>, b: Seq<Quadrant>) -> bool {
    a.len() <= b.len() && b.subrange(0, a.len() as int) == a
}

/// `a` is a proper prefix of `b`: `b` lies strictly inside the cell `a`.
pub open spec fn is_strict_prefix(a: Seq<Quadrant>, b: Seq<Quadrant>) -> bool {
    a.len() < b.len() && b.subrange(0, a.len() as int) == a
}

/// The tree made of its root cell alone, empty.
pub open spec fn root_only() -> Cells {
    map![Seq::<Quadrant>::empty() => Cell::Empty]
}

/// The leaf at `at`, holding `c` with route `rc`, is split: it becomes
/// internal, gets four empty children, and `c` moves to the child its route
/// names, unless its route ends here.
pub open spec fn split_leaf(m: Cells, at: Seq<Quadrant>, c: usize, rc: Seq<Quadrant>) -> Cells {
    let opened = m.insert(at, Cell::Internal(c))
        .insert(at.push(Quadrant::SouthWest), Cell::Empty)
        .insert(at.push(Quadrant::SouthEast), Cell::Empty)
        .insert(at.push(Quadrant::NorthWest), Cell::Empty)
        .insert(at.push(Quadrant::NorthEast), Cell::Empty);
    if rc.len() > 0 {
        opened.insert(at.push(rc[0]), Cell::Leaf(c, rc.skip(1)))
    } else {
        opened
    }
}

/// The tree after particle `p`, whose route from the square of cell `at` is
/// `r`, is inserted into the cell `at`.
///
/// An empty cell takes the particle.  An internal cell passes it to the child
/// its route names, or drops it if its route ends here.  A leaf is split (see
/// `split_leaf`) and the particle goes on into the child its route names, or
/// is dropped if its route ends here.
pub open spec fn inserted(m: Cells, at: Seq<Quadrant>, p: usize, r: Seq<Quadrant>) -> Cells
    decreases r.len(),
{
    match m[at] {
        Cell::Empty => m.insert(at, Cell::Leaf(p, r)),
        Cell::Internal(_) => {
            if r.len() > 0 {
                inserted(m, at.push(r[0]), p, r.skip(1))
            } else {
                m
            }
        },
        Cell::Leaf(c, rc) => {
            let m2 = split_leaf(m, at, c, rc);
            if r.len() > 0 {
                inserted(m2, at.push(r[0]), p, r.skip(1))
            } else {
                m2
            }
        },
    }
}

/// The tree built from the root by inserting particles `0 .. n` in order;
/// `routes[i]` is the route of particle `i` from the root square.
pub open spec fn built(routes: Seq<Seq<Quadrant>>, n: nat) -> Cells
    decreases n,
{
    if n == 0 {
        root_only()
    } else {
        let k = (n - 1) as nat;
        inserted(built(routes, k), Seq::empty(), k as usize, routes[k as int])
    }
}

/// The four children of `at`, in slot order, appended to an arena's cells.
pub open spec fn with_children(cells: Seq<Seq<Quadrant>>, at: Seq<Quadrant>) -> Seq<Seq<Quadrant>> {
    cells.push(at.push(Quadrant::SouthWest))
        .push(at.push(Quadrant::SouthEast))
        .push(at.push(Quadrant::NorthWest))
        .push(at.push(Quadrant::NorthEast))
}

/// The cells of the arena's nodes, in index order, after a particle with
/// route `r` is inserted at `at` into the tree `m` whose arena has the cells
/// `cells`: every split appends the four children of the split cell,
/// south-west first.
pub open spec fn arena_after(cells: Seq<Seq<Quadrant>>, m: Cells, at: Seq<Quadrant>, p: usize, r: Seq<Quadrant>) -> Seq<Seq<Quadrant>>
    decreases r.len(),
{
    match m[at] {
        Cell::Empty => cells,
        Cell::Internal(_) => {
            if r.len() > 0 {
                arena_after(cells, m, at.push(r[0]), p, r.skip(1))
            } else {
                cells
            }
        },
        Cell::Leaf(c, rc) => {
            let cells2 = with_children(cells, at);
            if r.len() > 0 {
                arena_after(cells2, split_leaf(m, at, c, rc), at.push(r[0]), p, r.skip(1))
            } else {
                cells2
            }
        },
    }
}

/// The cells of the arena's nodes after particles `0 .. n` are inserted at the
/// root, in order.
pub open spec fn arena_built(routes: Seq<Seq<Quadrant>>, n: nat) -> Seq<Seq<Quadrant>>
    decreases n,
{
    if n == 0 {
        seq![Seq::<Quadrant>::empty()]
    } else {
        let k = (n - 1) as nat;
        arena_after(arena_built(routes, k), built(routes, k), Seq::empty(), k as usize, routes[k as int])
    }
}

/// The cell where a descent from `at` along route `r` stops: the first cell
/// that is not internal, or the internal cell where the route ends.
pub open spec fn landing(m: Cells, at: Seq<Quadrant>, r: Seq<Quadrant>) -> Seq<Quadrant>
    decreases r.len(),
{
    if r.len() > 0 && m[at] is Internal {
        landing(m, at.push(r[0]), r.skip(1))
    } else {
        at
    }
}

/// How many first quadrants two routes share.
pub open spec fn common(a: Seq<Quadrant>, b: Seq<Quadrant>) -> nat
    decreases a.len(),
{
    if a.len() > 0 && b.len() > 0 && a[0] == b[0] {
        1 + common(a.skip(1), b.skip(1))
    } else {
        0
    }
}

/// Whether inserting a particle with route `r` at `at` leaves it in the tree:
/// it lands in an empty cell, or in a leaf whose particle's route parts from
/// its own before its own ends.
pub open spec fn keeps_newcomer(m: Cells, at: Seq<Quadrant>, r: Seq<Quadrant>) -> bool {
    let l = landing(m, at, r);
    let rl = r.skip(l.len() - at.len());
    match m[l] {
        Cell::Empty => true,
        Cell::Internal(_) => false,
        Cell::Leaf(_, rc) => common(rc, rl) < rl.len(),
    }
}

/// The particle a cell holds, or held when it was split.
pub open spec fn occupant(c: Cell) -> usize {
    match c {
        Cell::Leaf(i, _) => i,
        Cell::Internal(i) => i,
        Cell::Empty => 0,
    }
}

/// Some leaf of the tree holds particle `i`.
pub open spec fn holds(m: Cells, i: usize) -> bool {
    exists|s: Seq<Quadrant>| #[trigger] m.dom().contains(s) && m[s] is Leaf && occupant(m[s]) == i
}

/// The tree agrees with the routes from the root square: every leaf lies on
/// its particle's route and keeps the rest of that route, and every split cell
/// lies on the route of the particle it held.
pub open spec fn placed(m: Cells, routes: Seq<Seq<Quadrant>>) -> bool {
    forall|s: Seq<Quadrant>|
        #![trigger m[s]]
        m.dom().contains(s) ==> match m[s] {
            Cell::Leaf(i, rest) => i < routes.len() && routes[i as int] == s + rest,
            Cell::Internal(i) => i < routes.len() && is_prefix(s, routes[i as int]),
            Cell::Empty => true,
        }
}

/// Every particle named in the tree is below `n`.
pub open spec fn indices_below(m: Cells, n: nat) -> bool {
    forall|s: Seq<Quadrant>| #![trigger m[s]] m.dom().contains(s) && !(m[s] is Empty) ==> occupant(m[s]) < n
}

/// The shape of a quadtree: the root is there, every internal cell has its
/// four children, and only internal cells have cells below them.
pub open spec fn well_shaped(m: Cells) -> bool {
    &&& m.dom().contains(Seq::<Quadrant>::empty())
    &&& forall|s: Seq<Quadrant>, q: Quadrant|
        #![trigger m.dom().contains(s.push(q))]
        m.dom().contains(s) && m[s] is Internal ==> m.dom().contains(s.push(q))
    &&& forall|s: Seq<Quadrant>, t: Seq<Quadrant>|
        #![trigger m.dom().contains(s), m.dom().contains(t)]
        m.dom().contains(s) && m.dom().contains(t) && is_strict_prefix(s, t) ==> m[s] is Internal
}

} // verus!

verus! {

/// The four children of a cell.
pub open spec fn is_child_of(t: Seq<Quadrant>, at: Seq<Quadrant>) -> bool {
    t.len() == at.len() + 1 && t.drop_last() == at
}

pub(crate) proof fn lemma_push_prefix(at: Seq<Quadrant>, q: Quadrant)
    ensures
        is_strict_prefix(at, at.push(q)),
        forall|s: Seq<Quadrant>| #[trigger] is_strict_prefix(s, at.push(q)) ==> s == at || is_strict_prefix(s, at),
        forall|t: Seq<Quadrant>| #[trigger] is_strict_prefix(at.push(q), t) ==> is_strict_prefix(at, t),
{
    assert(at.push(q).subrange(0, at.len() as int) =~= at);
    assert forall|s: Seq<Quadrant>| #[trigger] is_strict_prefix(s, at.push(q)) implies s == at || is_strict_prefix(s, at) by {
        if s.len() == at.len() {
            assert(s =~= at);
        } else {
            assert(at.subrange(0, s.len() as int) =~= at.push(q).subrange(0, s.len() as int));
        }
    }
    assert forall|t: Seq<Quadrant>| #[trigger] is_strict_prefix(at.push(q), t) implies is_strict_prefix(at, t) by {
        assert(t.subrange(0, at.len() as int) =~= t.subrange(0, at.len() as int + 1).subrange(0, at.len() as int));
    }
}

/// Cells below a cell that is not internal are not in a well-shaped tree.
proof fn lemma_below_leaf_absent(m: Cells, at: Seq<Quadrant>, q: Quadrant)
    requires
        well_shaped(m),
        m.dom().contains(at),
        !(m[at] is Internal),
    ensures
        !m.dom().contains(at.push(q)),
        forall|t: Seq<Quadrant>| #[trigger] is_strict_prefix(at, t) ==> !m.dom().contains(t),
{
    lemma_push_prefix(at, q);
}

pub(crate) proof fn lemma_split_shape(m: Cells, at: Seq<Quadrant>, c: usize, rc: Seq<Quadrant>)
    requires
        well_shaped(m),
        m.dom().contains(at),
        m[at] is Leaf,
    ensures
        well_shaped(split_leaf(m, at, c, rc)),
        split_leaf(m, at, c, rc)[at] == Cell::Internal(c),
        forall|q: Quadrant| split_leaf(m, at, c, rc).dom().contains(#[trigger] at.push(q)),
        forall|q: Quadrant| !m.dom().contains(#[trigger] at.push(q)),
        forall|s: Seq<Quadrant>| #[trigger] split_leaf(m, at, c, rc).dom().contains(s) <==> (m.dom().contains(s) || is_child_of(s, at)),
        forall|s: Seq<Quadrant>| m.dom().contains(s) && s != at ==> #[trigger] split_leaf(m, at, c, rc)[s] == m[s],
        forall|q: Quadrant| #[trigger] split_leaf(m, at, c, rc)[at.push(q)] == (
            if rc.len() > 0 && q == rc[0] { Cell::Leaf(c, rc.skip(1)) } else { Cell::Empty }),
{
    let m2 = split_leaf(m, at, c, rc);
    lemma_push_prefix(at, Quadrant::SouthWest);
    lemma_push_prefix(at, Quadrant::SouthEast);
    lemma_push_prefix(at, Quadrant::NorthWest);
    lemma_push_prefix(at, Quadrant::NorthEast);
    assert forall|q: Quadrant| !m.dom().contains(#[trigger] at.push(q)) by {
        lemma_push_prefix(at, q);
    }
    assert forall|s: Seq<Quadrant>| #[trigger] is_child_of(s, at) <==> (s == at.push(Quadrant::SouthWest) || s == at.push(Quadrant::SouthEast) || s == at.push(Quadrant::NorthWest) || s == at.push(Quadrant::NorthEast)) by {
        if is_child_of(s, at) {
            assert(s =~= at.push(s.last()));
            match s.last() {
                Quadrant::SouthWest => {},
                Quadrant::SouthEast => {},
                Quadrant::NorthWest => {},
                Quadrant::NorthEast => {},
            }
        }
        assert(at.push(Quadrant::SouthWest).drop_last() =~= at);
        assert(at.push(Quadrant::SouthEast).drop_last() =~= at);
        assert(at.push(Quadrant::NorthWest).drop_last() =~= at);
        assert(at.push(Quadrant::NorthEast).drop_last() =~= at);
    }
    assert forall|q: Quadrant| m2.dom().contains(#[trigger] at.push(q)) by {
        match q {
            Quadrant::SouthWest => {},
            Quadrant::SouthEast => {},
            Quadrant::NorthWest => {},
            Quadrant::NorthEast => {},
        }
    }
    assert forall|q1: Quadrant, q2: Quadrant| #[trigger] at.push(q1) == #[trigger] at.push(q2) implies q1 == q2 by {
        assert(at.push(q1)[at.len() as int] == q1);
        assert(at.push(q2)[at.len() as int] == q2);
    }
    assert forall|q: Quadrant| #[trigger] m2[at.push(q)] == (
            if rc.len() > 0 && q == rc[0] { Cell::Leaf(c, rc.skip(1)) } else { Cell::Empty }) by {
        match q {
            Quadrant::SouthWest => {},
            Quadrant::SouthEast => {},
            Quadrant::NorthWest => {},
            Quadrant::NorthEast => {},
        }
    }
    // children of internal cells
    assert forall|s: Seq<Quadrant>, q: Quadrant|
        m2.dom().contains(s) && m2[s] is Internal implies m2.dom().contains(#[trigger] s.push(q)) by {
        if s == at {
        } else if is_child_of(s, at) {
            assert(m2[s] is Leaf || m2[s] is Empty);
        } else {
            assert(m.dom().contains(s.push(q)));
        }
    }
    // only internal cells have cells below them
    assert forall|s: Seq<Quadrant>, t: Seq<Quadrant>|
        #![trigger m2.dom().contains(s), m2.dom().contains(t)]
        m2.dom().contains(s) && m2.dom().contains(t) && is_strict_prefix(s, t) implies m2[s] is Internal by {
        if s == at {
        } else if is_child_of(s, at) {
            // t would lie below `at`, or be a sibling of `s`
            let q = s.last();
            assert(s =~= at.push(q));
            assert(is_strict_prefix(at, t));
            if m.dom().contains(t) {
                lemma_below_leaf_absent(m, at, q);
            } else {
                assert(is_child_of(t, at));
                assert(false);
            }
        } else {
            assert(m.dom().contains(s));
            if m.dom().contains(t) {
            } else {
                assert(is_child_of(t, at));
                let q = t.last();
                assert(t =~= at.push(q));
                assert(s == at || is_strict_prefix(s, at));
            }
        }
    }
}

} // verus!

verus! {

pub(crate) proof fn lemma_fill_shape(m: Cells, at: Seq<Quadrant>, v: Cell)
    requires
        well_shaped(m),
        m.dom().contains(at),
        !(m[at] is Internal),
        !(v is Internal),
    ensures
        well_shaped(m.insert(at, v)),
{
    let m2 = m.insert(at, v);
    assert(m2.dom() =~= m.dom());
    assert forall|s: Seq<Quadrant>, t: Seq<Quadrant>|
        #![trigger m2.dom().contains(s), m2.dom().contains(t)]
        m2.dom().contains(s) && m2.dom().contains(t) && is_strict_prefix(s, t) implies m2[s] is Internal by {
        assert(m.dom().contains(s) && m.dom().contains(t));
    }
}

} // verus!
