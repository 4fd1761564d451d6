use vstd::prelude::*;

use crate::model::{
    arena_after, built, common, holds, indices_below, inserted, is_child_of, is_prefix,
    is_strict_prefix, keeps_newcomer, landing, lemma_fill_shape, lemma_push_prefix, lemma_split_shape,
    occupant, placed, root_only, split_leaf, well_shaped, with_children, Cell, Cells,
};
use crate::quadrant::Quadrant;

verus! {

/// Stepping into the child a route names and dropping that step from the
/// route leaves the same path.
proof fn lemma_step(at: Seq<Quadrant>, r: Seq<Quadrant>)
    requires
        r.len() > 0,
    ensures
        at.push(r[0]) + r.skip(1) == at + r,
{
    assert(at.push(r[0]) + r.skip(1) =~= at + r);
}

proof fn lemma_skip_skip(r: Seq<Quadrant>, j: int)
    requires
        1 <= j <= r.len(),
    ensures
        r.skip(1).skip(j - 1) == r.skip(j),
{
    assert(r.skip(1).skip(j - 1) =~= r.skip(j));
}

/// What a split leaves in the tree: the particles it held, except possibly the
/// one of the split leaf, which stays where its route goes on.
proof fn lemma_split_holds(m: Cells, at: Seq<Quadrant>, c: usize, rc: Seq<Quadrant>)
    requires
        well_shaped(m),
        m.dom().contains(at),
        m[at] == Cell::Leaf(c, rc),
    ensures
        forall|i: usize| #[trigger] holds(split_leaf(m, at, c, rc), i) ==> holds(m, i),
        forall|i: usize| i != c && #[trigger] holds(m, i) ==> holds(split_leaf(m, at, c, rc), i),
        rc.len() > 0 ==> holds(split_leaf(m, at, c, rc), c),
{
    let m2 = split_leaf(m, at, c, rc);
    lemma_split_shape(m, at, c, rc);
    assert(m.dom().contains(at) && m[at] is Leaf && occupant(m[at]) == c);
    assert forall|i: usize| #[trigger] holds(m2, i) implies holds(m, i) by {
        let s = choose|s: Seq<Quadrant>| #[trigger] m2.dom().contains(s) && m2[s] is Leaf && occupant(m2[s]) == i;
        if s == at {
        } else if is_child_of(s, at) {
            assert(s =~= at.push(s.last()));
            assert(i == c);
        } else {
            assert(m[s] == m2[s]);
        }
    }
    assert forall|i: usize| i != c && #[trigger] holds(m, i) implies holds(m2, i) by {
        let s = choose|s: Seq<Quadrant>| #[trigger] m.dom().contains(s) && m[s] is Leaf && occupant(m[s]) == i;
        assert(s != at);
        assert(m2[s] == m[s]);
        assert(m2.dom().contains(s));
    }
    if rc.len() > 0 {
        assert(m2.dom().contains(at.push(rc[0])));
        assert(m2[at.push(rc[0])] == Cell::Leaf(c, rc.skip(1)));
    }
}

/// A split keeps the tree placed: the particle of the split leaf only moves
/// along its own route.
proof fn lemma_split_placed(m: Cells, at: Seq<Quadrant>, c: usize, rc: Seq<Quadrant>, routes: Seq<Seq<Quadrant>>)
    requires
        well_shaped(m),
        m.dom().contains(at),
        m[at] == Cell::Leaf(c, rc),
        placed(m, routes),
    ensures
        placed(split_leaf(m, at, c, rc), routes),
{
    let m2 = split_leaf(m, at, c, rc);
    lemma_split_shape(m, at, c, rc);
    assert(c < routes.len() && routes[c as int] == at + rc);
    assert((at + rc).subrange(0, at.len() as int) =~= at);
    if rc.len() > 0 {
        lemma_step(at, rc);
    }
    assert forall|s: Seq<Quadrant>| #![trigger m2[s]] m2.dom().contains(s) implies match m2[s] {
        Cell::Leaf(i, rest) => i < routes.len() && routes[i as int] == s + rest,
        Cell::Internal(i) => i < routes.len() && is_prefix(s, routes[i as int]),
        Cell::Empty => true,
    } by {
        if s == at {
        } else if is_child_of(s, at) {
            assert(s =~= at.push(s.last()));
        } else {
            assert(m[s] == m2[s]);
        }
    }
}

/// The descent from a cell of a well-shaped tree stops at a cell of the tree.
pub proof fn lemma_landing_in_tree(m: Cells, at: Seq<Quadrant>, r: Seq<Quadrant>)
    requires
        well_shaped(m),
        m.dom().contains(at),
    ensures
        m.dom().contains(landing(m, at, r)),
    decreases r.len(),
{
    if r.len() > 0 && m[at] is Internal {
        assert(m.dom().contains(at.push(r[0])));
        lemma_landing_in_tree(m, at.push(r[0]), r.skip(1));
    }
}

/// The descent follows the route: it stops after `k` of its steps, and stops
/// at an internal cell only where the route ends.
proof fn lemma_landing_on_route(m: Cells, at: Seq<Quadrant>, r: Seq<Quadrant>)
    ensures
        at.len() <= landing(m, at, r).len() <= at.len() + r.len(),
        landing(m, at, r) == at + r.take(landing(m, at, r).len() - at.len()),
        m[landing(m, at, r)] is Internal ==> landing(m, at, r).len() == at.len() + r.len(),
    decreases r.len(),
{
    if r.len() > 0 && m[at] is Internal {
        let l = landing(m, at, r);
        lemma_landing_on_route(m, at.push(r[0]), r.skip(1));
        let k = l.len() - at.len();
        assert(at.push(r[0]) + r.skip(1).take(k - 1) =~= at + r.take(k));
    } else {
        assert(at + r.take(0) =~= at);
        if m[at] is Internal {
            assert(r.len() == 0);
        }
    }
}

/// Routes that share at least all of `b`: `b` is a prefix of `a`.
proof fn lemma_common_prefix(a: Seq<Quadrant>, b: Seq<Quadrant>)
    requires
        common(a, b) >= b.len(),
    ensures
        is_prefix(b, a),
    decreases a.len(),
{
    if b.len() == 0 {
        assert(a.subrange(0, 0) =~= b);
    } else {
        lemma_common_prefix(a.skip(1), b.skip(1));
        assert(a.subrange(0, b.len() as int) =~= seq![a[0]] + a.skip(1).subrange(0, b.len() - 1));
        assert(b =~= seq![b[0]] + b.skip(1));
    }
}

proof fn lemma_prefix_concat(l: Seq<Quadrant>, x: Seq<Quadrant>, y: Seq<Quadrant>)
    requires
        is_prefix(x, y),
    ensures
        is_prefix(l + x, l + y),
{
    assert((l + y).subrange(0, (l + x).len() as int) =~= l + x);
}

/// Inserting a particle brings no particle into the tree but that one.
pub proof fn law_insert_adds_only_newcomer(m: Cells, at: Seq<Quadrant>, p: usize, r: Seq<Quadrant>)
    requires
        well_shaped(m),
        m.dom().contains(at),
    ensures
        forall|i: usize| #[trigger] holds(inserted(m, at, p, r), i) ==> holds(m, i) || i == p,
    decreases r.len(),
{
    match m[at] {
        Cell::Empty => {
            let m2 = m.insert(at, Cell::Leaf(p, r));
            assert forall|i: usize| #[trigger] holds(inserted(m, at, p, r), i) implies holds(m, i) || i == p by {
                let s = choose|s: Seq<Quadrant>| #[trigger] m2.dom().contains(s) && m2[s] is Leaf && occupant(m2[s]) == i;
                if s != at {
                    assert(m[s] == m2[s]);
                    assert(m.dom().contains(s));
                }
            }
        },
        Cell::Internal(_) => {
            if r.len() > 0 {
                assert(m.dom().contains(at.push(r[0])));
                law_insert_adds_only_newcomer(m, at.push(r[0]), p, r.skip(1));
                assert(inserted(m, at, p, r) == inserted(m, at.push(r[0]), p, r.skip(1)));
            } else {
                assert(inserted(m, at, p, r) == m);
            }
        },
        Cell::Leaf(c, rc) => {
            let m2 = split_leaf(m, at, c, rc);
            lemma_split_shape(m, at, c, rc);
            lemma_split_holds(m, at, c, rc);
            if r.len() > 0 {
                law_insert_adds_only_newcomer(m2, at.push(r[0]), p, r.skip(1));
            }
            assert forall|i: usize| #[trigger] holds(inserted(m, at, p, r), i) implies holds(m, i) || i == p by {
                if r.len() > 0 {
                    assert(holds(inserted(m2, at.push(r[0]), p, r.skip(1)), i));
                }
                if i != p {
                    assert(holds(m2, i));
                }
            }
        },
    }
}

/// Inserting a particle along its route from the root keeps the tree placed:
/// every leaf stays on the route of the particle it holds.
pub proof fn law_insert_keeps_placement(m: Cells, at: Seq<Quadrant>, p: usize, r: Seq<Quadrant>, routes: Seq<Seq<Quadrant>>)
    requires
        well_shaped(m),
        m.dom().contains(at),
        placed(m, routes),
        p < routes.len(),
        routes[p as int] == at + r,
    ensures
        placed(inserted(m, at, p, r), routes),
    decreases r.len(),
{
    match m[at] {
        Cell::Empty => {
            let m2 = m.insert(at, Cell::Leaf(p, r));
            assert forall|s: Seq<Quadrant>| #![trigger m2[s]] m2.dom().contains(s) implies match m2[s] {
                Cell::Leaf(i, rest) => i < routes.len() && routes[i as int] == s + rest,
                Cell::Internal(i) => i < routes.len() && is_prefix(s, routes[i as int]),
                Cell::Empty => true,
            } by {
                if s != at {
                    assert(m[s] == m2[s]);
                }
            }
        },
        Cell::Internal(_) => {
            if r.len() > 0 {
                assert(m.dom().contains(at.push(r[0])));
                lemma_step(at, r);
                law_insert_keeps_placement(m, at.push(r[0]), p, r.skip(1), routes);
            }
        },
        Cell::Leaf(c, rc) => {
            lemma_split_shape(m, at, c, rc);
            lemma_split_placed(m, at, c, rc, routes);
            if r.len() > 0 {
                lemma_step(at, r);
                law_insert_keeps_placement(split_leaf(m, at, c, rc), at.push(r[0]), p, r.skip(1), routes);
            }
        },
    }
}

/// A particle already in a placed tree leaves it on a later insertion along
/// the newcomer's route from the root only when its own route is a prefix of
/// the newcomer's: the two cannot be told apart down to where its route ends.
pub proof fn law_insert_displaces_only_prefix(
    m: Cells,
    at: Seq<Quadrant>,
    p: usize,
    r: Seq<Quadrant>,
    routes: Seq<Seq<Quadrant>>,
    i: usize,
)
    requires
        well_shaped(m),
        m.dom().contains(at),
        placed(m, routes),
        p < routes.len(),
        routes[p as int] == at + r,
        i != p,
        holds(m, i),
        !holds(inserted(m, at, p, r), i),
    ensures
        is_prefix(routes[i as int], routes[p as int]),
    decreases r.len(),
{
    let s = choose|s: Seq<Quadrant>| #[trigger] m.dom().contains(s) && m[s] is Leaf && occupant(m[s]) == i;
    match m[at] {
        Cell::Empty => {
            let m2 = m.insert(at, Cell::Leaf(p, r));
            assert(m2[s] == m[s] && m2.dom().contains(s));
        },
        Cell::Internal(_) => {
            if r.len() > 0 {
                assert(m.dom().contains(at.push(r[0])));
                lemma_step(at, r);
                law_insert_displaces_only_prefix(m, at.push(r[0]), p, r.skip(1), routes, i);
            }
        },
        Cell::Leaf(c, rc) => {
            let m2 = split_leaf(m, at, c, rc);
            lemma_split_shape(m, at, c, rc);
            lemma_split_holds(m, at, c, rc);
            lemma_split_placed(m, at, c, rc, routes);
            assert(routes[c as int] == at + rc);
            if i == c && rc.len() == 0 {
                assert(routes[c as int] =~= at);
                assert((at + r).subrange(0, at.len() as int) =~= at);
            } else {
                assert(holds(m2, i));
                if r.len() > 0 {
                    lemma_step(at, r);
                    law_insert_displaces_only_prefix(m2, at.push(r[0]), p, r.skip(1), routes, i);
                }
            }
        },
    }
}

/// A particle inserted into a tree that does not hold it yet stays in the
/// tree exactly when `keeps_newcomer` says so: it lands in an empty cell, or
/// in a leaf whose particle's route parts from its own before its own ends.
pub proof fn law_insert_keeps_newcomer(m: Cells, at: Seq<Quadrant>, p: usize, r: Seq<Quadrant>)
    requires
        well_shaped(m),
        m.dom().contains(at),
        !holds(m, p),
    ensures
        holds(inserted(m, at, p, r), p) <==> keeps_newcomer(m, at, r),
    decreases r.len(),
{
    match m[at] {
        Cell::Empty => {
            let m2 = m.insert(at, Cell::Leaf(p, r));
            assert(m2.dom().contains(at) && m2[at] is Leaf && occupant(m2[at]) == p);
            assert(r.skip(0) =~= r);
        },
        Cell::Internal(_) => {
            if r.len() > 0 {
                let child = at.push(r[0]);
                assert(m.dom().contains(child));
                law_insert_keeps_newcomer(m, child, p, r.skip(1));
                lemma_landing_on_route(m, child, r.skip(1));
                let l = landing(m, at, r);
                assert(l == landing(m, child, r.skip(1)));
                lemma_skip_skip(r, l.len() - at.len());
            }
        },
        Cell::Leaf(c, rc) => {
            let m2 = split_leaf(m, at, c, rc);
            lemma_split_shape(m, at, c, rc);
            lemma_split_holds(m, at, c, rc);
            assert(m.dom().contains(at) && m[at] is Leaf);
            assert(c != p);
            assert(!holds(m2, p));
            assert(r.skip(0) =~= r);
            if r.len() > 0 {
                let child = at.push(r[0]);
                assert(m2.dom().contains(child));
                assert(landing(m2, child, r.skip(1)) == child);
                assert(r.skip(1).skip(0) =~= r.skip(1));
                law_insert_keeps_newcomer(m2, child, p, r.skip(1));
            }
        },
    }
}

/// In a placed, well-shaped tree no particle sits in two leaves.
pub proof fn law_placed_leaves_unique(
    m: Cells,
    routes: Seq<Seq<Quadrant>>,
    s: Seq<Quadrant>,
    t: Seq<Quadrant>,
    i: usize,
)
    requires
        well_shaped(m),
        placed(m, routes),
        m.dom().contains(s),
        m.dom().contains(t),
        m[s] is Leaf,
        m[t] is Leaf,
        occupant(m[s]) == i,
        occupant(m[t]) == i,
    ensures
        s == t,
{
    let r = routes[i as int];
    let rs = m[s]->Leaf_1;
    let rt = m[t]->Leaf_1;
    assert(r == s + rs && r == t + rt);
    if s.len() < t.len() {
        assert(t.subrange(0, s.len() as int) =~= r.subrange(0, s.len() as int));
        assert(s =~= r.subrange(0, s.len() as int));
        assert(is_strict_prefix(s, t));
    } else if t.len() < s.len() {
        assert(s.subrange(0, t.len() as int) =~= r.subrange(0, t.len() as int));
        assert(t =~= r.subrange(0, t.len() as int));
        assert(is_strict_prefix(t, s));
    } else {
        assert(s =~= r.subrange(0, s.len() as int));
        assert(t =~= r.subrange(0, t.len() as int));
    }
}

/// Insertion at `at` only touches `at` and cells below it: the cells the tree
/// had stay, those not below `at` keep what they hold, and every new cell
/// lies strictly below `at`.
pub proof fn law_insert_changes_only_below(m: Cells, at: Seq<Quadrant>, p: usize, r: Seq<Quadrant>)
    requires
        well_shaped(m),
        m.dom().contains(at),
    ensures
        forall|s: Seq<Quadrant>| #[trigger] m.dom().contains(s) ==> inserted(m, at, p, r).dom().contains(s),
        forall|s: Seq<Quadrant>| m.dom().contains(s) && !is_prefix(at, s) ==> #[trigger] inserted(m, at, p, r)[s] == m[s],
        forall|s: Seq<Quadrant>| #[trigger] inserted(m, at, p, r).dom().contains(s) && !m.dom().contains(s)
            ==> is_strict_prefix(at, s),
    decreases r.len(),
{
    let ins = inserted(m, at, p, r);
    assert(is_prefix(at, at)) by {
        assert(at.subrange(0, at.len() as int) =~= at);
    }
    match m[at] {
        Cell::Empty => {},
        Cell::Internal(_) => {
            if r.len() > 0 {
                let child = at.push(r[0]);
                assert(m.dom().contains(child));
                law_insert_changes_only_below(m, child, p, r.skip(1));
                lemma_push_prefix(at, r[0]);
                assert forall|s: Seq<Quadrant>| m.dom().contains(s) && !is_prefix(at, s) implies #[trigger] ins[s] == m[s] by {
                    if is_prefix(child, s) {
                        assert(s.subrange(0, at.len() as int) =~= s.subrange(0, child.len() as int).subrange(0, at.len() as int));
                        assert(child.subrange(0, at.len() as int) =~= at);
                    }
                }
            }
        },
        Cell::Leaf(c, rc) => {
            let m2 = split_leaf(m, at, c, rc);
            lemma_split_shape(m, at, c, rc);
            lemma_push_prefix(at, Quadrant::SouthWest);
            assert forall|s: Seq<Quadrant>| #[trigger] is_child_of(s, at) implies is_strict_prefix(at, s) by {
                assert(s =~= at.push(s.last()));
                lemma_push_prefix(at, s.last());
            }
            if r.len() > 0 {
                let child = at.push(r[0]);
                law_insert_changes_only_below(m2, child, p, r.skip(1));
                lemma_push_prefix(at, r[0]);
                assert forall|s: Seq<Quadrant>| m.dom().contains(s) && !is_prefix(at, s) implies #[trigger] ins[s] == m[s] by {
                    assert(s != at);
                    if is_prefix(child, s) {
                        assert(s.subrange(0, at.len() as int) =~= s.subrange(0, child.len() as int).subrange(0, at.len() as int));
                        assert(child.subrange(0, at.len() as int) =~= at);
                    }
                    assert(m2.dom().contains(s));
                }
                assert forall|s: Seq<Quadrant>| m.dom().contains(s) implies #[trigger] ins.dom().contains(s) by {
                    assert(m2.dom().contains(s));
                }
                assert forall|s: Seq<Quadrant>| #[trigger] ins.dom().contains(s) && !m.dom().contains(s)
                    implies is_strict_prefix(at, s) by {
                    if !m2.dom().contains(s) {
                        assert(is_strict_prefix(child, s));
                    }
                }
            } else {
                assert forall|s: Seq<Quadrant>| m.dom().contains(s) && !is_prefix(at, s) implies #[trigger] ins[s] == m[s] by {
                    assert(s != at);
                }
            }
        },
    }
}

/// The arena only grows under insertion: the cells it had keep their places,
/// and every node added lies strictly below `at`.
pub proof fn law_arena_only_grows(cells: Seq<Seq<Quadrant>>, m: Cells, at: Seq<Quadrant>, p: usize, r: Seq<Quadrant>)
    ensures
        arena_after(cells, m, at, p, r).len() >= cells.len(),
        arena_after(cells, m, at, p, r).subrange(0, cells.len() as int) == cells,
        forall|k: int| cells.len() <= k < arena_after(cells, m, at, p, r).len()
            ==> is_strict_prefix(at, #[trigger] arena_after(cells, m, at, p, r)[k]),
    decreases r.len(),
{
    let a = arena_after(cells, m, at, p, r);
    match m[at] {
        Cell::Empty => {
            assert(a.subrange(0, cells.len() as int) =~= cells);
        },
        Cell::Internal(_) => {
            if r.len() > 0 {
                let child = at.push(r[0]);
                law_arena_only_grows(cells, m, child, p, r.skip(1));
                lemma_push_prefix(at, r[0]);
            } else {
                assert(a.subrange(0, cells.len() as int) =~= cells);
            }
        },
        Cell::Leaf(c, rc) => {
            let c2 = with_children(cells, at);
            assert(c2.subrange(0, cells.len() as int) =~= cells);
            lemma_push_prefix(at, Quadrant::SouthWest);
            lemma_push_prefix(at, Quadrant::SouthEast);
            lemma_push_prefix(at, Quadrant::NorthWest);
            lemma_push_prefix(at, Quadrant::NorthEast);
            assert forall|k: int| cells.len() <= k < c2.len() implies is_strict_prefix(at, #[trigger] c2[k]) by {
            }
            if r.len() > 0 {
                let child = at.push(r[0]);
                law_arena_only_grows(c2, split_leaf(m, at, c, rc), child, p, r.skip(1));
                lemma_push_prefix(at, r[0]);
                assert(a.subrange(0, cells.len() as int) =~= a.subrange(0, c2.len() as int).subrange(0, cells.len() as int));
                assert forall|k: int| cells.len() <= k < a.len() implies is_strict_prefix(at, #[trigger] a[k]) by {
                    if k < c2.len() {
                        assert(a[k] == a.subrange(0, c2.len() as int)[k]);
                    }
                }
            }
        },
    }
}

/// Insertion keeps the shape of a quadtree.
pub proof fn lemma_inserted_shape(m: Cells, at: Seq<Quadrant>, p: usize, r: Seq<Quadrant>)
    requires
        well_shaped(m),
        m.dom().contains(at),
    ensures
        well_shaped(inserted(m, at, p, r)),
    decreases r.len(),
{
    match m[at] {
        Cell::Empty => {
            lemma_fill_shape(m, at, Cell::Leaf(p, r));
        },
        Cell::Internal(_) => {
            if r.len() > 0 {
                assert(m.dom().contains(at.push(r[0])));
                lemma_inserted_shape(m, at.push(r[0]), p, r.skip(1));
            }
        },
        Cell::Leaf(c, rc) => {
            lemma_split_shape(m, at, c, rc);
            if r.len() > 0 {
                lemma_inserted_shape(split_leaf(m, at, c, rc), at.push(r[0]), p, r.skip(1));
            }
        },
    }
}

/// Insertion names no particle but those already named and the newcomer.
proof fn lemma_inserted_indices_below(m: Cells, at: Seq<Quadrant>, p: usize, r: Seq<Quadrant>, n: nat)
    requires
        well_shaped(m),
        m.dom().contains(at),
        indices_below(m, n),
        p < n,
    ensures
        indices_below(inserted(m, at, p, r), n),
    decreases r.len(),
{
    match m[at] {
        Cell::Empty => {
            let m2 = m.insert(at, Cell::Leaf(p, r));
            assert forall|s: Seq<Quadrant>| #![trigger m2[s]] m2.dom().contains(s) && !(m2[s] is Empty) implies occupant(m2[s]) < n by {
                if s != at {
                    assert(m2[s] == m[s]);
                }
            }
        },
        Cell::Internal(_) => {
            if r.len() > 0 {
                assert(m.dom().contains(at.push(r[0])));
                lemma_inserted_indices_below(m, at.push(r[0]), p, r.skip(1), n);
            }
        },
        Cell::Leaf(c, rc) => {
            let m2 = split_leaf(m, at, c, rc);
            lemma_split_shape(m, at, c, rc);
            assert(occupant(m[at]) < n);
            assert forall|s: Seq<Quadrant>| #![trigger m2[s]] m2.dom().contains(s) && !(m2[s] is Empty) implies occupant(m2[s]) < n by {
                if s == at {
                } else if is_child_of(s, at) {
                    assert(s =~= at.push(s.last()));
                } else {
                    assert(m2[s] == m[s]);
                }
            }
            if r.len() > 0 {
                lemma_inserted_indices_below(m2, at.push(r[0]), p, r.skip(1), n);
            }
        },
    }
}

/// The tree built from particles `0 .. n` has the shape of a quadtree, names
/// only those particles, and keeps each of them on its route.
pub proof fn lemma_built(routes: Seq<Seq<Quadrant>>, n: nat)
    requires
        n <= routes.len(),
        routes.len() <= usize::MAX,
    ensures
        well_shaped(built(routes, n)),
        placed(built(routes, n), routes),
        indices_below(built(routes, n), n),
    decreases n,
{
    if n == 0 {
        let m = root_only();
        assert(m.dom().contains(Seq::<Quadrant>::empty()));
        assert forall|s: Seq<Quadrant>, t: Seq<Quadrant>|
            #![trigger m.dom().contains(s), m.dom().contains(t)]
            m.dom().contains(s) && m.dom().contains(t) && is_strict_prefix(s, t) implies m[s] is Internal by {
            assert(s =~= t);
        }
    } else {
        let k = (n - 1) as nat;
        assert((k as usize) as int == k);
        let before = built(routes, k);
        lemma_built(routes, k);
        let r = routes[k as int];
        assert(Seq::<Quadrant>::empty() + r =~= r);
        lemma_inserted_shape(before, Seq::empty(), k as usize, r);
        law_insert_keeps_placement(before, Seq::empty(), k as usize, r, routes);
        lemma_inserted_indices_below(before, Seq::empty(), k as usize, r, n);
    }
}

/// The tree built from particles `0 .. n` holds every one of them whose route
/// is not a prefix of another one's: particles that can be told apart each
/// get a leaf of their own.
pub proof fn law_built_holds_distinguishable(routes: Seq<Seq<Quadrant>>, n: nat, i: usize)
    requires
        n <= routes.len(),
        routes.len() <= usize::MAX,
        i < n,
        forall|j: int| 0 <= j < n && j != i ==> !is_prefix(routes[i as int], #[trigger] routes[j]),
    ensures
        holds(built(routes, n), i),
    decreases n,
{
    let k = (n - 1) as nat;
    assert((k as usize) as int == k);
    let before = built(routes, k);
    let e = Seq::<Quadrant>::empty();
    lemma_built(routes, k);
    let r = routes[k as int];
    assert(e + r =~= r);
    assert(built(routes, n) == inserted(before, e, k as usize, r));
    if i == k {
        assert(!holds(before, i)) by {
            if holds(before, i) {
                let s = choose|s: Seq<Quadrant>| #[trigger] before.dom().contains(s) && before[s] is Leaf && occupant(before[s]) == i;
                assert(occupant(before[s]) < k);
            }
        }
        law_insert_keeps_newcomer(before, e, i, r);
        let l = landing(before, e, r);
        lemma_landing_on_route(before, e, r);
        lemma_landing_in_tree(before, e, r);
        let rl = r.skip(l.len() as int);
        assert(l + rl =~= r);
        match before[l] {
            Cell::Empty => {},
            Cell::Internal(c) => {
                assert(occupant(before[l]) < k);
                assert(l =~= r);
                assert(is_prefix(l, routes[c as int]));
                assert(!is_prefix(routes[i as int], routes[c as int]));
            },
            Cell::Leaf(c, rc) => {
                assert(occupant(before[l]) < k);
                assert(routes[c as int] == l + rc);
                if common(rc, rl) >= rl.len() {
                    lemma_common_prefix(rc, rl);
                    lemma_prefix_concat(l, rl, rc);
                    assert(!is_prefix(routes[i as int], routes[c as int]));
                }
            },
        }
    } else {
        law_built_holds_distinguishable(routes, k, i);
        if !holds(built(routes, n), i) {
            law_insert_displaces_only_prefix(before, e, k as usize, r, routes, i);
            assert(!is_prefix(routes[i as int], routes[k as int]));
        }
    }
}

} // verus!
