use vstd::prelude::*;

use crate::model::is_prefix;
use crate::quadrant::{lemma_slot_quadrant, quadrant_slot, Quadrant};

verus! {

/// `a` comes no later than `b` in the dictionary order of routes, quadrants
/// taken in slot order; a route comes before the routes it is a prefix of.
pub open spec fn route_le(a: Seq<Quadrant>, b: Seq<Quadrant>) -> bool
    decreases a.len(),
{
    if a.len() == 0 {
        true
    } else if b.len() == 0 {
        false
    } else if quadrant_slot(a[0]) != quadrant_slot(b[0]) {
        quadrant_slot(a[0]) < quadrant_slot(b[0])
    } else {
        route_le(a.skip(1), b.skip(1))
    }
}

/// Particle `i` appears in `order`.
pub open spec fn listed(order: Seq<usize>, i: int) -> bool {
    exists|a: int| 0 <= a < order.len() && #[trigger] order[a] == i
}

/// `order` lists every particle once, by route in dictionary order.
pub open spec fn sorted_permutation(routes: Seq<Vec<Quadrant>>, order: Seq<usize>) -> bool {
    &&& order.len() == routes.len()
    &&& forall|a: int| 0 <= a < order.len() ==> #[trigger] order[a] < routes.len()
    &&& forall|a: int, b: int| 0 <= a < b < order.len() ==> #[trigger] order[a] != #[trigger] order[b]
    &&& forall|i: int| 0 <= i < routes.len() ==> #[trigger] listed(order, i)
    &&& forall|a: int| 0 <= a < order.len() - 1 ==> route_le(routes[#[trigger] order[a] as int]@, routes[order[a + 1] as int]@)
}

/// Particle `i`'s route needs to be taken further: it is not known to be
/// complete, and it is a prefix of another particle's route, so the tree
/// could split below where it stops.
pub open spec fn needs_extending(routes: Seq<Vec<Quadrant>>, complete: Seq<bool>, i: int) -> bool {
    &&& !complete[i]
    &&& exists|j: int| 0 <= j < routes.len() && j != i && is_prefix(routes[i]@, #[trigger] routes[j]@)
}

proof fn lemma_first_step(a: Seq<Quadrant>, b: Seq<Quadrant>)
    requires
        a.len() > 0,
        b.len() > 0,
        quadrant_slot(a[0]) == quadrant_slot(b[0]),
    ensures
        a[0] == b[0],
{
    lemma_slot_quadrant(a[0]);
    lemma_slot_quadrant(b[0]);
}

proof fn lemma_split_first(a: Seq<Quadrant>)
    requires
        a.len() > 0,
    ensures
        a == seq![a[0]] + a.skip(1),
{
    assert(a =~= seq![a[0]] + a.skip(1));
}

proof fn lemma_le_trans(a: Seq<Quadrant>, b: Seq<Quadrant>, c: Seq<Quadrant>)
    requires
        route_le(a, b),
        route_le(b, c),
    ensures
        route_le(a, c),
    decreases a.len(),
{
    if a.len() > 0 && b.len() > 0 && c.len() > 0 && quadrant_slot(a[0]) == quadrant_slot(b[0])
        && quadrant_slot(b[0]) == quadrant_slot(c[0]) {
        lemma_le_trans(a.skip(1), b.skip(1), c.skip(1));
    }
}

proof fn lemma_le_antisym(a: Seq<Quadrant>, b: Seq<Quadrant>)
    requires
        route_le(a, b),
        route_le(b, a),
    ensures
        a == b,
    decreases a.len(),
{
    if a.len() == 0 {
        assert(b.len() == 0);
        assert(a =~= b);
    } else {
        lemma_first_step(a, b);
        lemma_le_antisym(a.skip(1), b.skip(1));
        lemma_split_first(a);
        lemma_split_first(b);
    }
}

proof fn lemma_prefix_le(a: Seq<Quadrant>, b: Seq<Quadrant>)
    requires
        is_prefix(a, b),
    ensures
        route_le(a, b),
    decreases a.len(),
{
    if a.len() > 0 {
        assert(b[0] == a[0]);
        assert(b.skip(1).subrange(0, a.len() - 1) =~= a.skip(1));
        lemma_prefix_le(a.skip(1), b.skip(1));
    }
}

/// A route between a route and a longer one that it is a prefix of also
/// starts with it.
proof fn lemma_between_prefix(a: Seq<Quadrant>, b: Seq<Quadrant>, c: Seq<Quadrant>)
    requires
        route_le(a, b),
        route_le(b, c),
        is_prefix(a, c),
    ensures
        is_prefix(a, b),
    decreases a.len(),
{
    if a.len() == 0 {
        assert(b.subrange(0, 0) =~= a);
    } else {
        assert(c[0] == a[0]);
        assert(b.len() > 0);
        lemma_slot_quadrant(a[0]);
        lemma_slot_quadrant(b[0]);
        assert(quadrant_slot(b[0]) == quadrant_slot(a[0]));
        lemma_first_step(a, b);
        assert(c.skip(1).subrange(0, a.len() - 1) =~= a.skip(1));
        lemma_between_prefix(a.skip(1), b.skip(1), c.skip(1));
        assert(b.subrange(0, a.len() as int) =~= seq![b[0]] + b.skip(1).subrange(0, a.len() - 1));
        lemma_split_first(a);
    }
}

proof fn lemma_sorted_pairwise(routes: Seq<Vec<Quadrant>>, order: Seq<usize>, a: int, b: int)
    requires
        sorted_permutation(routes, order),
        0 <= a <= b < order.len(),
    ensures
        route_le(routes[order[a] as int]@, routes[order[b] as int]@),
    decreases b - a,
{
    if a == b {
        assert(routes[order[a] as int]@.subrange(0, routes[order[a] as int]@.len() as int) =~= routes[order[a] as int]@);
        lemma_prefix_le(routes[order[a] as int]@, routes[order[a] as int]@);
    } else {
        lemma_sorted_pairwise(routes, order, a + 1, b);
        assert(route_le(routes[order[a] as int]@, routes[order[a + 1] as int]@));
        lemma_le_trans(routes[order[a] as int]@, routes[order[a + 1] as int]@, routes[order[b] as int]@);
    }
}

/// In dictionary order, a route is a prefix of another route exactly when it
/// is a prefix of the next one, or equals the one before.
proof fn lemma_neighbours(routes: Seq<Vec<Quadrant>>, order: Seq<usize>, a: int, complete: Seq<bool>)
    requires
        sorted_permutation(routes, order),
        complete.len() == routes.len(),
        0 <= a < order.len(),
    ensures
        needs_extending(routes, complete, order[a] as int) <==> (!complete[order[a] as int] && (
            (a + 1 < order.len() && is_prefix(routes[order[a] as int]@, routes[order[a + 1] as int]@))
            || (a > 0 && routes[order[a - 1] as int]@ == routes[order[a] as int]@))),
{
    let i = order[a] as int;
    let ri = routes[i]@;
    if a + 1 < order.len() && is_prefix(ri, routes[order[a + 1] as int]@) {
        assert(order[a] != order[a + 1]);
        assert(is_prefix(ri, routes[order[a + 1] as int]@));
    }
    if a > 0 && routes[order[a - 1] as int]@ == ri {
        assert(order[a - 1] != order[a]);
        assert(ri.subrange(0, ri.len() as int) =~= ri);
        assert(is_prefix(ri, routes[order[a - 1] as int]@));
    }
    if needs_extending(routes, complete, i) {
        let j = choose|j: int| 0 <= j < routes.len() && j != i && is_prefix(ri, #[trigger] routes[j]@);
        assert(listed(order, j));
        let b = choose|b: int| 0 <= b < order.len() && #[trigger] order[b] == j;
        let rj = routes[j]@;
        if b > a {
            lemma_sorted_pairwise(routes, order, a + 1, b);
            assert(route_le(ri, routes[order[a + 1] as int]@));
            lemma_between_prefix(ri, routes[order[a + 1] as int]@, rj);
        } else {
            assert(b != a);
            lemma_sorted_pairwise(routes, order, b, a);
            lemma_prefix_le(ri, rj);
            lemma_le_antisym(ri, rj);
            let rp = routes[order[a - 1] as int]@;
            lemma_sorted_pairwise(routes, order, b, a - 1);
            assert(route_le(rp, ri));
            lemma_le_antisym(rp, ri);
        }
    }
}

/// Whether `a` comes no later than `b` in the dictionary order of routes.
pub fn route_le_exec(a: &Vec<Quadrant>, b: &Vec<Quadrant>) -> (le: bool)
    ensures
        le == route_le(a@, b@),
        le <==> (is_prefix(a@, b@) || exists|k: int|
            #![trigger a@[k], b@[k]]
            0 <= k < a@.len() && k < b@.len() && a@.subrange(0, k) == b@.subrange(0, k)
                && quadrant_slot(a@[k]) < quadrant_slot(b@[k])),
{
    proof {
        law_route_le_is_dictionary_order(a@, b@);
    }
    let mut i: usize = 0;
    assert(a@.skip(0) =~= a@);
    assert(b@.skip(0) =~= b@);
    while i < a.len() && i < b.len()
        invariant
            0 <= i <= a.len(),
            i <= b.len(),
            route_le(a@, b@) == route_le(a@.skip(i as int), b@.skip(i as int)),
        decreases a.len() - i,
    {
        let sa = a[i].slot();
        let sb = b[i].slot();
        proof {
            assert(a@.skip(i as int)[0] == a@[i as int]);
            assert(b@.skip(i as int)[0] == b@[i as int]);
            assert(a@.skip(i as int).skip(1) =~= a@.skip(i + 1));
            assert(b@.skip(i as int).skip(1) =~= b@.skip(i + 1));
        }
        if sa != sb {
            proof {
                law_route_le_is_dictionary_order(a@, b@);
            }
            return sa < sb;
        }
        i = i + 1;
    }
    i == a.len()
}

/// Whether `a` is a prefix of `b`.
pub fn is_prefix_exec(a: &Vec<Quadrant>, b: &Vec<Quadrant>) -> (prefix: bool)
    ensures
        prefix == is_prefix(a@, b@),
{
    if a.len() > b.len() {
        return false;
    }
    let mut i: usize = 0;
    while i < a.len()
        invariant
            0 <= i <= a.len() <= b.len(),
            forall|k: int| 0 <= k < i ==> a@[k] == b@[k],
        decreases a.len() - i,
    {
        if a[i].slot() != b[i].slot() {
            proof {
                assert(b@.subrange(0, a.len() as int)[i as int] != a@[i as int]);
            }
            return false;
        }
        proof {
            lemma_slot_quadrant(a@[i as int]);
            lemma_slot_quadrant(b@[i as int]);
        }
        i = i + 1;
    }
    assert(b@.subrange(0, a.len() as int) =~= a@);
    true
}

/// Which particles' routes must be taken further before the tree is built:
/// those not known to be complete that are a prefix of another particle's
/// route.  `order` must list every particle once, by route in dictionary
/// order; otherwise, or where `complete` does not match `routes`, the answer
/// is `None`.
pub fn routes_to_extend(routes: &[Vec<Quadrant>], complete: &[bool], order: &[usize]) -> (extend: Option<Vec<bool>>)
    ensures
        extend is Some <==> (complete.len() == routes.len() && sorted_permutation(routes@, order@)),
        extend matches Some(e) ==> e.len() == routes.len()
            && forall|i: int| 0 <= i < routes.len() ==> (e[i] <==> needs_extending(routes@, complete@, i)),
{
    let n = routes.len();
    if complete.len() != n || order.len() != n {
        return None;
    }
    // where each particle stands in `order`; `n` while not seen
    let mut pos: Vec<usize> = Vec::new();
    while pos.len() < n
        invariant
            pos.len() <= n,
            forall|i: int| 0 <= i < pos.len() ==> pos[i] == n,
        decreases n - pos.len(),
    {
        pos.push(n);
    }
    let mut a: usize = 0;
    while a < n
        invariant
            n == routes.len(),
            order.len() == n,
            pos.len() == n,
            a <= n,
            forall|b: int| 0 <= b < a ==> #[trigger] order@[b] < n && pos[order@[b] as int] == b,
            forall|i: int| 0 <= i < n ==> pos[i] == n || (pos[i] < a && order@[pos[i] as int] == i),
        decreases n - a,
    {
        let i = order[a];
        if i >= n || pos[i] != n {
            proof {
                if i < n {
                    let b = pos[i as int] as int;
                    assert(order@[b] == order@[a as int]);
                }
            }
            return None;
        }
        pos.set(i, a);
        a = a + 1;
    }
    proof {
        assert forall|b: int, c: int| 0 <= b < c < n implies #[trigger] order@[b] != #[trigger] order@[c] by {
            assert(pos[order@[b] as int] == b);
            assert(pos[order@[c] as int] == c);
        }
    }
    let mut i: usize = 0;
    while i < n
        invariant
            n == routes.len(),
            order.len() == n,
            pos.len() == n,
            i <= n,
            forall|b: int| 0 <= b < n ==> #[trigger] order@[b] < n && pos[order@[b] as int] == b,
            forall|k: int| 0 <= k < n ==> pos[k] == n || (pos[k] < n && order@[pos[k] as int] == k),
            forall|k: int| 0 <= k < i ==> pos[k] < n,
        decreases n - i,
    {
        if pos[i] == n {
            proof {
                assert forall|b: int| 0 <= b < n implies order@[b] != i by {
                    assert(pos[order@[b] as int] == b);
                }
                assert(!listed(order@, i as int));
            }
            return None;
        }
        i = i + 1;
    }
    let mut a: usize = 0;
    while a + 1 < n
        invariant
            n == routes.len(),
            order.len() == n,
            a == 0 || a < n,
            forall|b: int| 0 <= b < n ==> #[trigger] order@[b] < n,
            forall|b: int| 0 <= b < a && b + 1 < n ==> route_le(routes@[#[trigger] order@[b] as int]@, routes@[order@[b + 1] as int]@),
        decreases n - a,
    {
        if !route_le_exec(&routes[order[a]], &routes[order[a + 1]]) {
            return None;
        }
        a = a + 1;
    }
    proof {
        assert forall|k: int| 0 <= k < n implies #[trigger] listed(order@, k) by {
            assert(order@[pos[k] as int] == k);
        }
        assert(sorted_permutation(routes@, order@));
    }
    let mut e: Vec<bool> = Vec::new();
    while e.len() < n
        invariant
            e.len() <= n,
            forall|k: int| 0 <= k < e.len() ==> e[k] == false,
        decreases n - e.len(),
    {
        e.push(false);
    }
    let mut a: usize = 0;
    while a < n
        invariant
            n == routes.len(),
            complete.len() == n,
            order.len() == n,
            pos.len() == n,
            e.len() == n,
            a <= n,
            sorted_permutation(routes@, order@),
            forall|k: int| 0 <= k < n ==> pos[k] < n && order@[pos[k] as int] == k,
            forall|b: int| 0 <= b < n ==> #[trigger] pos[order@[b] as int] == b,
            forall|k: int| 0 <= k < n && pos[k] < a ==> (e[k] <==> needs_extending(routes@, complete@, k)),
        decreases n - a,
    {
        let i = order[a];
        let mut want = false;
        if !complete[i] {
            if a + 1 < n && is_prefix_exec(&routes[i], &routes[order[a + 1]]) {
                want = true;
            } else if a > 0 && routes[order[a - 1]].len() == routes[i].len()
                && is_prefix_exec(&routes[order[a - 1]], &routes[i]) {
                want = true;
                proof {
                    assert(routes@[i as int]@.subrange(0, routes@[i as int]@.len() as int) =~= routes@[i as int]@);
                    assert(routes@[order@[a - 1] as int]@ =~= routes@[i as int]@);
                }
            }
        }
        proof {
            lemma_neighbours(routes@, order@, a as int, complete@);
            if a > 0 && routes@[order@[a - 1] as int]@ == routes@[i as int]@ {
                assert(routes@[i as int]@.subrange(0, routes@[i as int]@.len() as int) =~= routes@[i as int]@);
            }
            assert(pos[i as int] == a);
        }
        e.set(i, want);
        a = a + 1;
    }
    Some(e)
}

/// `route_le` is the dictionary order of routes, quadrants taken in slot
/// order: `a` comes no later than `b` exactly when `a` is a prefix of `b`, or
/// at the first quadrant where they differ, `a`'s has the smaller slot.
pub proof fn law_route_le_is_dictionary_order(a: Seq<Quadrant>, b: Seq<Quadrant>)
    ensures
        route_le(a, b) <==> (is_prefix(a, b) || exists|k: int|
            #![trigger a[k], b[k]]
            0 <= k < a.len() && k < b.len() && a.subrange(0, k) == b.subrange(0, k)
                && quadrant_slot(a[k]) < quadrant_slot(b[k])),
    decreases a.len(),
{
    if a.len() == 0 {
        assert(b.subrange(0, 0) =~= a);
    } else if b.len() == 0 {
    } else if quadrant_slot(a[0]) != quadrant_slot(b[0]) {
        lemma_slot_quadrant(a[0]);
        lemma_slot_quadrant(b[0]);
        assert(a[0] != b[0]);
        assert(a.subrange(0, 0) =~= b.subrange(0, 0));
        if quadrant_slot(a[0]) > quadrant_slot(b[0]) {
            assert forall|k: int| 0 <= k < a.len() && k < b.len() && a.subrange(0, k) == b.subrange(0, k)
                implies !(quadrant_slot(#[trigger] a[k]) < quadrant_slot(#[trigger] b[k])) by {
                if k > 0 {
                    assert(a.subrange(0, k)[0] == b.subrange(0, k)[0]);
                }
            }
            if is_prefix(a, b) {
                assert(b.subrange(0, a.len() as int)[0] == a[0]);
            }
        }
    } else {
        lemma_first_step(a, b);
        let a1 = a.skip(1);
        let b1 = b.skip(1);
        law_route_le_is_dictionary_order(a1, b1);
        // prefixes
        if is_prefix(a1, b1) {
            assert(b.subrange(0, a.len() as int) =~= seq![b[0]] + b1.subrange(0, a1.len() as int));
            lemma_split_first(a);
        }
        if is_prefix(a, b) {
            assert(b1.subrange(0, a1.len() as int) =~= b.subrange(0, a.len() as int).skip(1));
            assert(a1 =~= a.skip(1));
        }
        // first differences
        if exists|k: int| #![trigger a1[k], b1[k]]
            0 <= k < a1.len() && k < b1.len() && a1.subrange(0, k) == b1.subrange(0, k)
                && quadrant_slot(a1[k]) < quadrant_slot(b1[k]) {
            let k = choose|k: int| #![trigger a1[k], b1[k]]
                0 <= k < a1.len() && k < b1.len() && a1.subrange(0, k) == b1.subrange(0, k)
                    && quadrant_slot(a1[k]) < quadrant_slot(b1[k]);
            assert(a.subrange(0, k + 1) =~= seq![a[0]] + a1.subrange(0, k));
            assert(b.subrange(0, k + 1) =~= seq![b[0]] + b1.subrange(0, k));
            assert(a[k + 1] == a1[k] && b[k + 1] == b1[k]);
        }
        if exists|k: int| #![trigger a[k], b[k]]
            0 <= k < a.len() && k < b.len() && a.subrange(0, k) == b.subrange(0, k)
                && quadrant_slot(a[k]) < quadrant_slot(b[k]) {
            let k = choose|k: int| #![trigger a[k], b[k]]
                0 <= k < a.len() && k < b.len() && a.subrange(0, k) == b.subrange(0, k)
                    && quadrant_slot(a[k]) < quadrant_slot(b[k]);
            assert(k > 0);
            assert(a1.subrange(0, k - 1) =~= a.subrange(0, k).skip(1));
            assert(b1.subrange(0, k - 1) =~= b.subrange(0, k).skip(1));
            assert(a1[k - 1] == a[k] && b1[k - 1] == b[k]);
        }
    }
}

/// Any two routes are ordered one way or the other.
pub proof fn law_route_le_total(a: Seq<Quadrant>, b: Seq<Quadrant>)
    ensures
        route_le(a, b) || route_le(b, a),
    decreases a.len(),
{
    if a.len() > 0 && b.len() > 0 && quadrant_slot(a[0]) == quadrant_slot(b[0]) {
        law_route_le_total(a.skip(1), b.skip(1));
    }
}

} // verus!
