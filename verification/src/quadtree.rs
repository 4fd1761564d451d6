use vstd::prelude::*;

use crate::laws::law_insert_keeps_placement;
use crate::model::{
    arena_after, arena_built, built, inserted, lemma_fill_shape, lemma_split_shape, placed, root_only,
    split_leaf, well_shaped, with_children, Cell, Cells,
};
use crate::quadrant::{lemma_slot_quadrant, quadrant_slot, slot_quadrant, Quadrant};

verus! {

/// What a node of the tree holds, with the indices of its four children
/// (south-west, south-east, north-west, north-east) once it is split.
#[derive(Clone, Copy, Debug)]
pub enum NodeType {
    Empty,
    Leaf(usize),
    Internal([usize; 4]),
}

#[derive(Clone, Copy)]
struct Node {
    /// How many splits lie between the root and this node.
    depth: usize,
    /// The particle this node holds, or held when it was split; 0 while empty.
    particle_index: usize,
    kind: NodeType,
    /// For a leaf: the route its particle came with, in `Arena::routes`.
    route: usize,
    /// For a leaf: how many steps of that route lie above this node.
    consumed: usize,
}

/// The arena of nodes behind a `Quadtree`.
struct Arena {
    nodes: Vec<Node>,
    /// The routes particles came with.
    routes: Vec<Vec<Quadrant>>,
    /// The path of each node's cell from the root.
    cells: Ghost<Seq<Seq<Quadrant>>>,
}

/// The routes of all particles, as sequences.
pub open spec fn route_view(routes: Seq<Vec<Quadrant>>) -> Seq<Seq<Quadrant>> {
    Seq::new(routes.len(), |i: int| routes[i]@)
}

spec fn content(n: Node, routes: Seq<Vec<Quadrant>>) -> Cell {
    match n.kind {
        NodeType::Empty => Cell::Empty,
        NodeType::Leaf(i) => Cell::Leaf(i, routes[n.route as int]@.skip(n.consumed as int)),
        NodeType::Internal(_) => Cell::Internal(n.particle_index),
    }
}

spec fn has_cell(cells: Seq<Seq<Quadrant>>, s: Seq<Quadrant>) -> bool {
    exists|k: int| 0 <= k < cells.len() && cells[k] == s
}

spec fn view_of(nodes: Seq<Node>, cells: Seq<Seq<Quadrant>>, routes: Seq<Vec<Quadrant>>) -> Cells {
    Map::new(
        |s: Seq<Quadrant>| has_cell(cells, s),
        |s: Seq<Quadrant>| content(nodes[choose|k: int| 0 <= k < cells.len() && cells[k] == s], routes),
    )
}

spec fn injective(cells: Seq<Seq<Quadrant>>) -> bool {
    forall|j: int, k: int|
        0 <= j < cells.len() && 0 <= k < cells.len() && j != k ==> #[trigger] cells[j] != #[trigger] cells[k]
}

spec fn node_fits(nodes: Seq<Node>, cells: Seq<Seq<Quadrant>>, routes: Seq<Vec<Quadrant>>, k: int) -> bool {
    let n = nodes[k];
    &&& n.depth == cells[k].len()
    &&& cells[k].len() <= k
    &&& match n.kind {
        NodeType::Empty => n.particle_index == 0,
        NodeType::Leaf(i) => {
            &&& n.particle_index == i
            &&& n.route < routes.len()
            &&& n.consumed <= routes[n.route as int]@.len()
        },
        NodeType::Internal(ch) => {
            &&& k < ch@[0]
            &&& forall|i: int|
                0 <= i < 4 ==> #[trigger] ch@[i] == ch@[0] + i && ch@[i] < nodes.len()
                    && cells[ch@[i] as int] == cells[k].push(slot_quadrant(i))
        },
    }
}

/// Node `k` is child `i` of a node holding `t`.
pub open spec fn is_child_slot(t: NodeType, i: int, k: int) -> bool {
    match t {
        NodeType::Internal(ch) => 0 <= i < 4 && ch@[i] == k,
        _ => false,
    }
}

spec fn has_parent(nodes: Seq<Node>, k: int) -> bool {
    exists|j: int, i: int| 0 <= j < nodes.len() && #[trigger] is_child_slot(nodes[j].kind, i, k)
}

proof fn lemma_view_at(nodes: Seq<Node>, cells: Seq<Seq<Quadrant>>, routes: Seq<Vec<Quadrant>>, k: int)
    requires
        injective(cells),
        nodes.len() == cells.len(),
        0 <= k < cells.len(),
    ensures
        view_of(nodes, cells, routes).dom().contains(cells[k]),
        view_of(nodes, cells, routes)[cells[k]] == content(nodes[k], routes),
{
    let s = cells[k];
    assert(has_cell(cells, s));
    let j = choose|j: int| 0 <= j < cells.len() && cells[j] == s;
    assert(j == k);
}

proof fn lemma_view_set(nodes: Seq<Node>, cells: Seq<Seq<Quadrant>>, routes: Seq<Vec<Quadrant>>, k: int, n: Node)
    requires
        injective(cells),
        nodes.len() == cells.len(),
        0 <= k < cells.len(),
    ensures
        view_of(nodes.update(k, n), cells, routes) == view_of(nodes, cells, routes).insert(cells[k], content(n, routes)),
{
    let v0 = view_of(nodes, cells, routes);
    let v1 = view_of(nodes.update(k, n), cells, routes);
    assert forall|s: Seq<Quadrant>| v1.dom().contains(s) implies v1[s] == v0.insert(cells[k], content(n, routes))[s] by {
        let j = choose|j: int| 0 <= j < cells.len() && cells[j] == s;
        lemma_view_at(nodes, cells, routes, j);
        lemma_view_at(nodes.update(k, n), cells, routes, j);
    }
    assert(v1 =~= v0.insert(cells[k], content(n, routes)));
}

proof fn lemma_has_cell_push(cells: Seq<Seq<Quadrant>>, s: Seq<Quadrant>, t: Seq<Quadrant>)
    ensures
        has_cell(cells.push(s), t) <==> (has_cell(cells, t) || t == s),
{
    let c2 = cells.push(s);
    if has_cell(cells, t) {
        let j = choose|j: int| 0 <= j < cells.len() && cells[j] == t;
        assert(c2[j] == t);
    }
    if t == s {
        assert(c2[cells.len() as int] == t);
    }
    if has_cell(c2, t) {
        let j = choose|j: int| 0 <= j < c2.len() && c2[j] == t;
        if j < cells.len() {
            assert(cells[j] == t);
        }
    }
}

proof fn lemma_view_push(nodes: Seq<Node>, cells: Seq<Seq<Quadrant>>, routes: Seq<Vec<Quadrant>>, n: Node, s: Seq<Quadrant>)
    requires
        injective(cells),
        nodes.len() == cells.len(),
        !has_cell(cells, s),
    ensures
        injective(cells.push(s)),
        view_of(nodes.push(n), cells.push(s), routes) == view_of(nodes, cells, routes).insert(s, content(n, routes)),
{
    let c2 = cells.push(s);
    let n2 = nodes.push(n);
    assert forall|j: int, k: int|
        0 <= j < c2.len() && 0 <= k < c2.len() && j != k implies #[trigger] c2[j] != #[trigger] c2[k] by {
        if j == cells.len() {
            assert(cells[k] == c2[k]);
        } else if k == cells.len() {
            assert(cells[j] == c2[j]);
        } else {
            assert(cells[j] == c2[j] && cells[k] == c2[k]);
        }
    }
    let v0 = view_of(nodes, cells, routes);
    let v1 = view_of(n2, c2, routes);
    assert forall|t: Seq<Quadrant>| v1.dom().contains(t) <==> v0.insert(s, content(n, routes)).dom().contains(t) by {
        lemma_has_cell_push(cells, s, t);
    }
    assert forall|t: Seq<Quadrant>| v1.dom().contains(t) implies v1[t] == v0.insert(s, content(n, routes))[t] by {
        let j = choose|j: int| 0 <= j < c2.len() && c2[j] == t;
        lemma_view_at(n2, c2, routes, j);
        if j < cells.len() {
            assert(cells[j] == t);
            lemma_view_at(nodes, cells, routes, j);
        }
    }
    assert(v1 =~= v0.insert(s, content(n, routes)));
}

/// A new route does not change what the nodes hold, as long as every leaf's
/// route is one the arena had.
proof fn lemma_view_new_route(nodes: Seq<Node>, cells: Seq<Seq<Quadrant>>, routes: Seq<Vec<Quadrant>>, r: Vec<Quadrant>)
    requires
        injective(cells),
        nodes.len() == cells.len(),
        forall|k: int| 0 <= k < nodes.len() && nodes[k].kind is Leaf ==> #[trigger] nodes[k].route < routes.len(),
    ensures
        view_of(nodes, cells, routes.push(r)) == view_of(nodes, cells, routes),
{
    let v0 = view_of(nodes, cells, routes);
    let v1 = view_of(nodes, cells, routes.push(r));
    assert forall|s: Seq<Quadrant>| v1.dom().contains(s) implies v1[s] == v0[s] by {
        let j = choose|j: int| 0 <= j < cells.len() && cells[j] == s;
        lemma_view_at(nodes, cells, routes, j);
        lemma_view_at(nodes, cells, routes.push(r), j);
        if nodes[j].kind is Leaf {
            assert(routes.push(r)[nodes[j].route as int] == routes[nodes[j].route as int]);
        }
    }
    assert(v1 =~= v0);
}

impl View for Arena {
    type V = Cells;

    closed spec fn view(&self) -> Cells {
        view_of(self.nodes@, self.cells@, self.routes@)
    }
}

impl Arena {
    /// How many nodes the arena holds.
    spec fn node_count(&self) -> nat {
        self.nodes@.len()
    }

    /// The path of node `k`'s cell from the root.
    spec fn node_cell(&self, k: int) -> Seq<Quadrant> {
        self.cells@[k]
    }

    /// What node `k` holds.
    spec fn node_kind(&self, k: int) -> NodeType {
        self.nodes@[k].kind
    }

    /// Node `k` is a child of some node of the arena.
    spec fn has_parent_node(&self, k: int) -> bool {
        exists|j: int, i: int| 0 <= j < self.node_count() && #[trigger] is_child_slot(self.node_kind(j), i, k)
    }

    /// The cells of all nodes, in index order.
    spec fn arena(&self) -> Seq<Seq<Quadrant>> {
        self.cells@
    }

    /// The arena and the cells agree: node 0 is the root, each node has its
    /// own cell, the children of a split node are the four sub-cells of its
    /// cell, four consecutive nodes after it, every other node has a parent,
    /// and the cells form a quadtree.
    spec fn wf(&self) -> bool {
        let nodes = self.nodes@;
        let cells = self.cells@;
        let routes = self.routes@;
        &&& nodes.len() >= 1
        &&& cells.len() == nodes.len()
        &&& cells[0] == Seq::<Quadrant>::empty()
        &&& injective(cells)
        &&& forall|k: int| 0 <= k < nodes.len() ==> #[trigger] node_fits(nodes, cells, routes, k)
        &&& nodes.len() % 4 == 1
        &&& forall|k: int| 1 <= k < nodes.len() ==> #[trigger] has_parent(nodes, k)
        &&& well_shaped(view_of(nodes, cells, routes))
    }
}

impl Arena {
    /// Inserts particle `particle_index` into the subtree of node `node_index`;
    /// `route` is the particle's route from that node's square.
    ///
    /// An empty node takes the particle.  An internal node passes it on to the
    /// child its route names, or drops it where its route ends.  A leaf is
    /// split into four new empty children, appended to the arena; the particle
    /// it held moves into the child its route names (or is dropped where its
    /// route ends), and then the new particle goes on into the child its own
    /// route names.
    fn insert(&mut self, node_index: usize, particle_index: usize, route: Vec<Quadrant>)
        requires
            old(self).wf(),
            node_index < old(self).node_count(),
        ensures
            final(self).wf(),
            final(self)@ == inserted(old(self)@, old(self).node_cell(node_index as int), particle_index, route@),
            final(self).arena() == arena_after(old(self).arena(), old(self)@, old(self).node_cell(node_index as int), particle_index, route@),
            forall|k: int| 0 <= k < old(self).node_count() ==> #[trigger] final(self).node_cell(k) == old(self).node_cell(k),
    {
        let ghost r = route@;
        let ghost nodes0 = self.nodes@;
        let ghost routes0 = self.routes@;
        let index = self.routes.len();
        self.routes.push(route);
        proof {
            assert forall|k: int| 0 <= k < nodes0.len() && nodes0[k].kind is Leaf implies #[trigger] nodes0[k].route < routes0.len() by {
                assert(node_fits(nodes0, self.cells@, routes0, k));
            }
            lemma_view_new_route(nodes0, self.cells@, routes0, self.routes@[index as int]);
            assert forall|k: int| 0 <= k < nodes0.len() implies #[trigger] node_fits(nodes0, self.cells@, self.routes@, k) by {
                assert(node_fits(nodes0, self.cells@, routes0, k));
                if nodes0[k].kind is Leaf {
                    assert(self.routes@[nodes0[k].route as int] == routes0[nodes0[k].route as int]);
                }
            }
            assert(self.routes@[index as int]@.skip(0) =~= r);
        }
        self.insert_along(node_index, particle_index, index, 0);
    }

    /// Inserts particle `particle_index`, whose route from node `node_index`'s
    /// square is what remains of route `route` after `consumed` steps.
    fn insert_along(&mut self, node_index: usize, particle_index: usize, route: usize, consumed: usize)
        requires
            old(self).wf(),
            node_index < old(self).node_count(),
            route < old(self).routes@.len(),
            consumed <= old(self).routes@[route as int]@.len(),
        ensures
            final(self).wf(),
            final(self).routes@ == old(self).routes@,
            final(self)@ == inserted(old(self)@, old(self).node_cell(node_index as int), particle_index,
                old(self).routes@[route as int]@.skip(consumed as int)),
            final(self).arena() == arena_after(old(self).arena(), old(self)@, old(self).node_cell(node_index as int),
                particle_index, old(self).routes@[route as int]@.skip(consumed as int)),
            forall|k: int| 0 <= k < old(self).node_count() ==> #[trigger] final(self).node_cell(k) == old(self).node_cell(k),
        decreases old(self).routes@[route as int]@.len() - consumed,
    {
        let ghost m0 = self@;
        let ghost nodes0 = self.nodes@;
        let ghost cells0 = self.cells@;
        let ghost routes0 = self.routes@;
        let ghost at = self.cells@[node_index as int];
        let ghost r = routes0[route as int]@.skip(consumed as int);
        proof {
            lemma_view_at(nodes0, cells0, routes0, node_index as int);
            assert(node_fits(nodes0, cells0, routes0, node_index as int));
            if consumed < routes0[route as int]@.len() {
                assert(r[0] == routes0[route as int]@[consumed as int]);
                assert(r.skip(1) =~= routes0[route as int]@.skip(consumed + 1));
            }
        }
        let depth = self.nodes[node_index].depth;
        let kind = self.nodes[node_index].kind;
        match kind {
            NodeType::Empty => {
                let leaf = Node { depth, particle_index, kind: NodeType::Leaf(particle_index), route, consumed };
                self.nodes.set(node_index, leaf);
                proof {
                    lemma_view_set(nodes0, cells0, routes0, node_index as int, leaf);
                    lemma_fill_shape(m0, at, Cell::Leaf(particle_index, r));
                    assert forall|k: int| 0 <= k < self.nodes@.len() implies #[trigger] node_fits(self.nodes@, self.cells@, self.routes@, k) by {
                        assert(node_fits(nodes0, cells0, routes0, k));
                    }
                    assert forall|k: int| 1 <= k < self.nodes@.len() implies #[trigger] has_parent(self.nodes@, k) by {
                        assert(has_parent(nodes0, k));
                        let (j, i) = choose|j: int, i: int| 0 <= j < nodes0.len() && #[trigger] is_child_slot(nodes0[j].kind, i, k);
                        assert(is_child_slot(self.nodes@[j].kind, i, k));
                    }
                }
            },
            NodeType::Internal(children) => {
                if consumed < self.routes[route].len() {
                    let q = self.routes[route][consumed];
                    proof {
                        lemma_slot_quadrant(q);
                    }
                    let child = children[q.slot()];
                    self.insert_along(child, particle_index, route, consumed + 1);
                }
            },
            NodeType::Leaf(current) => {
                self.split(node_index);
                if consumed < self.routes[route].len() {
                    let q = self.routes[route][consumed];
                    proof {
                        lemma_slot_quadrant(q);
                    }
                    let child = self.nodes.len() - 4 + q.slot();
                    assert(self.node_cell(child as int) == at.push(q));
                    self.insert_along(child, particle_index, route, consumed + 1);
                }
            },
        }
    }

    /// Appends an empty node, at depth `depth`, for the cell `s`, which no node
    /// has yet.
    fn push_empty(&mut self, depth: usize, Ghost(s): Ghost<Seq<Quadrant>>)
        requires
            injective(old(self).cells@),
            old(self).nodes@.len() == old(self).cells@.len(),
            !has_cell(old(self).cells@, s),
        ensures
            final(self).nodes@ == old(self).nodes@.push(
                Node { depth, particle_index: 0, kind: NodeType::Empty, route: 0, consumed: 0 },
            ),
            final(self).cells@ == old(self).cells@.push(s),
            final(self).routes@ == old(self).routes@,
            injective(final(self).cells@),
            final(self)@ == old(self)@.insert(s, Cell::Empty),
    {
        let empty = Node { depth, particle_index: 0, kind: NodeType::Empty, route: 0, consumed: 0 };
        proof {
            lemma_view_push(self.nodes@, self.cells@, self.routes@, empty, s);
        }
        self.nodes.push(empty);
        self.cells = Ghost(self.cells@.push(s));
    }

    /// Splits the leaf `node_index`: four empty children are appended, the
    /// node becomes internal, and its particle moves into the child its route
    /// names unless its route ends here.
    #[verifier::rlimit(50)]
    fn split(&mut self, node_index: usize)
        requires
            old(self).wf(),
            node_index < old(self).node_count(),
            old(self).node_kind(node_index as int) is Leaf,
        ensures
            final(self).wf(),
            final(self).routes@ == old(self).routes@,
            old(self)@[old(self).node_cell(node_index as int)] matches Cell::Leaf(c, rc)
                && final(self)@ == split_leaf(old(self)@, old(self).node_cell(node_index as int), c, rc),
            final(self).node_count() == old(self).node_count() + 4,
            final(self).arena() == with_children(old(self).arena(), old(self).node_cell(node_index as int)),
            forall|k: int| 0 <= k < old(self).node_count() ==> #[trigger] final(self).node_cell(k) == old(self).node_cell(k),
            forall|q: Quadrant| #[trigger] final(self).node_cell(old(self).node_count() + quadrant_slot(q))
                == old(self).node_cell(node_index as int).push(q),
    {
        let ghost m0 = self@;
        let ghost nodes0 = self.nodes@;
        let ghost cells0 = self.cells@;
        let ghost routes0 = self.routes@;
        let ghost at = self.cells@[node_index as int];
        let old_node = self.nodes[node_index];
        let current = old_node.particle_index;
        let depth = old_node.depth;
        let ghost rc = routes0[old_node.route as int]@.skip(old_node.consumed as int);
        proof {
            lemma_view_at(nodes0, cells0, routes0, node_index as int);
            assert(node_fits(nodes0, cells0, routes0, node_index as int));
            assert(m0[at] == Cell::Leaf(current, rc));
            lemma_split_shape(m0, at, current, rc);
            assert forall|q: Quadrant| !has_cell(cells0, #[trigger] at.push(q)) by {
                if has_cell(cells0, at.push(q)) {
                    let j = choose|j: int| 0 <= j < cells0.len() && cells0[j] == at.push(q);
                    lemma_view_at(nodes0, cells0, routes0, j);
                }
            }
            assert forall|q1: Quadrant, q2: Quadrant| q1 != q2 implies #[trigger] at.push(q1) != #[trigger] at.push(q2) by {
                assert(at.push(q1)[at.len() as int] == q1);
                assert(at.push(q2)[at.len() as int] == q2);
            }
        }
        let child_index = self.nodes.len();
        self.push_empty(depth + 1, Ghost(at.push(Quadrant::SouthWest)));
        proof {
            lemma_has_cell_push(cells0, at.push(Quadrant::SouthWest), at.push(Quadrant::SouthEast));
        }
        self.push_empty(depth + 1, Ghost(at.push(Quadrant::SouthEast)));
        proof {
            let c1 = cells0.push(at.push(Quadrant::SouthWest));
            lemma_has_cell_push(cells0, at.push(Quadrant::SouthWest), at.push(Quadrant::NorthWest));
            lemma_has_cell_push(c1, at.push(Quadrant::SouthEast), at.push(Quadrant::NorthWest));
        }
        self.push_empty(depth + 1, Ghost(at.push(Quadrant::NorthWest)));
        proof {
            let c1 = cells0.push(at.push(Quadrant::SouthWest));
            let c2 = c1.push(at.push(Quadrant::SouthEast));
            lemma_has_cell_push(cells0, at.push(Quadrant::SouthWest), at.push(Quadrant::NorthEast));
            lemma_has_cell_push(c1, at.push(Quadrant::SouthEast), at.push(Quadrant::NorthEast));
            lemma_has_cell_push(c2, at.push(Quadrant::NorthWest), at.push(Quadrant::NorthEast));
        }
        self.push_empty(depth + 1, Ghost(at.push(Quadrant::NorthEast)));
        let total = self.nodes.len();
        assert(total == child_index + 4);
        let children = [child_index, child_index + 1, child_index + 2, child_index + 3];
        let split_node = Node { depth, particle_index: current, kind: NodeType::Internal(children), route: 0, consumed: 0 };
        let ghost nodes1 = self.nodes@;
        self.nodes.set(node_index, split_node);
        proof {
            lemma_view_set(nodes1, self.cells@, self.routes@, node_index as int, split_node);
        }
        if old_node.consumed < self.routes[old_node.route].len() {
            let q = self.routes[old_node.route][old_node.consumed];
            proof {
                lemma_slot_quadrant(q);
                assert(rc[0] == q);
                assert(rc.skip(1) =~= routes0[old_node.route as int]@.skip(old_node.consumed + 1));
            }
            let slot = child_index + q.slot();
            let moved = Node {
                depth: depth + 1,
                particle_index: current,
                kind: NodeType::Leaf(current),
                route: old_node.route,
                consumed: old_node.consumed + 1,
            };
            let ghost nodes1 = self.nodes@;
            self.nodes.set(slot, moved);
            proof {
                lemma_view_set(nodes1, self.cells@, self.routes@, slot as int, moved);
            }
        }
        proof {
            let m2 = split_leaf(m0, at, current, rc);
            assert(self@ =~= m2);
            assert(self.cells@ =~= with_children(cells0, at));
            assert forall|k: int| 0 <= k < self.nodes@.len() implies #[trigger] node_fits(self.nodes@, self.cells@, self.routes@, k) by {
                if k < nodes0.len() && k != node_index {
                    assert(node_fits(nodes0, cells0, routes0, k));
                    assert(self.nodes@[k] == nodes0[k]);
                    assert(self.cells@[k] == cells0[k]);
                }
            }
            assert forall|k: int| 1 <= k < self.nodes@.len() implies #[trigger] has_parent(self.nodes@, k) by {
                if k < nodes0.len() {
                    assert(has_parent(nodes0, k));
                    let (j, i) = choose|j: int, i: int| 0 <= j < nodes0.len() && #[trigger] is_child_slot(nodes0[j].kind, i, k);
                    assert(j != node_index);
                    assert(self.nodes@[j] == nodes0[j]);
                    assert(is_child_slot(self.nodes@[j].kind, i, k));
                } else {
                    assert(is_child_slot(self.nodes@[node_index as int].kind, k - child_index, k));
                }
            }
        }
    }
}

impl Arena {
    /// Builds the tree of particles `0 .. routes.len()`, where `routes[i]` is
    /// the route of particle `i` from the root square: a root cell, into which
    /// every particle is inserted in order.
    fn create(routes: Vec<Vec<Quadrant>>) -> (tree: Self)
        ensures
            tree.wf(),
            tree@ == built(route_view(routes@), routes@.len()),
            tree.arena() == arena_built(route_view(routes@), routes@.len()),
            placed(tree@, route_view(routes@)),
            tree.node_cell(0) == Seq::<Quadrant>::empty(),
    {
        let ghost rv = route_view(routes@);
        let count = routes.len();
        let root = Node { depth: 0, particle_index: 0, kind: NodeType::Empty, route: 0, consumed: 0 };
        let mut nodes: Vec<Node> = Vec::new();
        nodes.push(root);
        let mut tree = Arena { nodes, routes, cells: Ghost(Seq::<Seq<Quadrant>>::empty().push(Seq::empty())) };
        proof {
            let e = Seq::<Quadrant>::empty();
            assert(view_of(Seq::empty(), Seq::empty(), tree.routes@) =~= Map::empty());
            lemma_view_push(Seq::empty(), Seq::empty(), tree.routes@, root, e);
            assert(tree.nodes@ == Seq::<Node>::empty().push(root));
            assert(tree@ =~= root_only());
            assert(tree.cells@ =~= seq![Seq::<Quadrant>::empty()]);
            assert(node_fits(tree.nodes@, tree.cells@, tree.routes@, 0));
            assert(route_view(tree.routes@) =~= rv);
        }
        let mut n: usize = 0;
        while n < count
            invariant
                rv == route_view(tree.routes@),
                count == tree.routes@.len(),
                n <= count,
                tree.wf(),
                tree@ == built(rv, n as nat),
                tree.arena() == arena_built(rv, n as nat),
                placed(tree@, rv),
                tree.node_cell(0) == Seq::<Quadrant>::empty(),
            decreases count - n,
        {
            let ghost before = tree@;
            proof {
                let r = rv[n as int];
                assert(r == tree.routes@[n as int]@);
                assert(Seq::<Quadrant>::empty() + r =~= r);
                assert(tree.routes@[n as int]@.skip(0) =~= r);
                tree.lemma_root_in_tree();
                law_insert_keeps_placement(before, Seq::empty(), n, r, rv);
            }
            tree.insert_along(0, n, n, 0);
            proof {
                assert(((n + 1) as nat - 1) as usize == n);
            }
            n = n + 1;
        }
        tree
    }

    /// A well-formed tree has the shape of a quadtree.
    proof fn lemma_root_in_tree(&self)
        requires
            self.wf(),
        ensures
            well_shaped(self@),
            self@.dom().contains(self.node_cell(0)),
    {
        lemma_view_at(self.nodes@, self.cells@, self.routes@, 0);
    }

    /// How many nodes the arena holds.
    fn len(&self) -> (count: usize)
        ensures
            count == self.node_count(),
    {
        self.nodes.len()
    }

    /// What node `k` holds, with its children once it is split.
    fn node_type(&self, k: usize) -> (t: NodeType)
        requires
            self.wf(),
            k < self.node_count(),
        ensures
            t == self.node_kind(k as int),
            match t {
                NodeType::Empty => self@[self.node_cell(k as int)] == Cell::Empty,
                NodeType::Leaf(i) => self@[self.node_cell(k as int)] matches Cell::Leaf(j, _) && j == i,
                NodeType::Internal(ch) => {
                    &&& self@[self.node_cell(k as int)] is Internal
                    &&& forall|q: Quadrant| #![trigger ch@[quadrant_slot(q)]]
                        ch@[quadrant_slot(q)] < self.node_count()
                        && self.node_cell(ch@[quadrant_slot(q)] as int) == self.node_cell(k as int).push(q)
                },
            },
    {
        proof {
            lemma_view_at(self.nodes@, self.cells@, self.routes@, k as int);
            assert(node_fits(self.nodes@, self.cells@, self.routes@, k as int));
            assert forall|q: Quadrant| #![trigger quadrant_slot(q)] 0 <= quadrant_slot(q) < 4 && slot_quadrant(quadrant_slot(q)) == q by {
                lemma_slot_quadrant(q);
            }
        }
        self.nodes[k].kind
    }

    /// The particle node `k` holds, or held when it was split; 0 for an empty
    /// node.
    fn particle_index(&self, k: usize) -> (i: usize)
        requires
            self.wf(),
            k < self.node_count(),
        ensures
            match self@[self.node_cell(k as int)] {
                Cell::Empty => i == 0,
                Cell::Leaf(j, _) => i == j,
                Cell::Internal(j) => i == j,
            },
    {
        proof {
            lemma_view_at(self.nodes@, self.cells@, self.routes@, k as int);
            assert(node_fits(self.nodes@, self.cells@, self.routes@, k as int));
        }
        self.nodes[k].particle_index
    }

    /// How many splits lie between the root and node `k`.
    fn depth(&self, k: usize) -> (d: usize)
        requires
            self.wf(),
            k < self.node_count(),
        ensures
            d == self.node_cell(k as int).len(),
    {
        proof {
            assert(node_fits(self.nodes@, self.cells@, self.routes@, k as int));
        }
        self.nodes[k].depth
    }

    /// The arena is the tree: it holds exactly the cells of the tree, one node
    /// per cell, the root first, and those cells have the shape of a quadtree.
    /// The node count is one more than a multiple of four; a split node's
    /// children are four consecutive nodes after it; every node but the root
    /// is the child of exactly one node, at exactly one slot.
    proof fn lemma_arena_is_tree(&self)
        requires
            self.wf(),
        ensures
            well_shaped(self@),
            self.node_count() >= 1,
            self.arena().len() == self.node_count(),
            forall|k: int| 0 <= k < self.node_count() ==> #[trigger] self.arena()[k] == self.node_cell(k),
            self.node_cell(0) == Seq::<Quadrant>::empty(),
            forall|k: int| 0 <= k < self.node_count() ==> self@.dom().contains(#[trigger] self.node_cell(k)),
            forall|j: int, k: int| 0 <= j < self.node_count() && 0 <= k < self.node_count() && j != k
                ==> #[trigger] self.node_cell(j) != #[trigger] self.node_cell(k),
            forall|s: Seq<Quadrant>| #[trigger] self@.dom().contains(s)
                ==> exists|k: int| 0 <= k < self.node_count() && self.node_cell(k) == s,
            self.node_count() % 4 == 1,
            forall|k: int| 0 <= k < self.node_count() ==> (#[trigger] self.node_kind(k) matches NodeType::Internal(ch) ==> {
                &&& k < ch@[0]
                &&& ch@[0] + 3 < self.node_count()
                &&& forall|i: int| 0 <= i < 4 ==> #[trigger] ch@[i] == ch@[0] + i
            }),
            forall|k: int| 1 <= k < self.node_count() ==> #[trigger] self.has_parent_node(k),
            forall|j1: int, i1: int, j2: int, i2: int, k: int|
                0 <= j1 < self.node_count() && 0 <= j2 < self.node_count()
                && #[trigger] is_child_slot(self.node_kind(j1), i1, k) && #[trigger] is_child_slot(self.node_kind(j2), i2, k)
                ==> j1 == j2 && i1 == i2,
            forall|j: int, i: int, k: int| 0 <= j < self.node_count() && #[trigger] is_child_slot(self.node_kind(j), i, k) ==> j < k,
    {
        assert forall|k: int| 0 <= k < self.node_count() implies self@.dom().contains(#[trigger] self.node_cell(k)) by {
            lemma_view_at(self.nodes@, self.cells@, self.routes@, k);
        }
        assert forall|s: Seq<Quadrant>| #[trigger] self@.dom().contains(s)
            implies exists|k: int| 0 <= k < self.node_count() && self.node_cell(k) == s by {
            assert(has_cell(self.cells@, s));
            let k = choose|k: int| 0 <= k < self.cells@.len() && self.cells@[k] == s;
            assert(self.node_cell(k) == s);
        }
        let nodes = self.nodes@;
        let cells = self.cells@;
        assert forall|k: int| 0 <= k < self.node_count() implies (#[trigger] self.node_kind(k) matches NodeType::Internal(ch) ==> {
            &&& k < ch@[0]
            &&& ch@[0] + 3 < self.node_count()
            &&& forall|i: int| 0 <= i < 4 ==> #[trigger] ch@[i] == ch@[0] + i
        }) by {
            assert(node_fits(nodes, cells, self.routes@, k));
            if let NodeType::Internal(ch) = nodes[k].kind {
                assert(ch@[3] == ch@[0] + 3);
            }
        }
        assert forall|k: int| 1 <= k < self.node_count() implies #[trigger] self.has_parent_node(k) by {
            assert(has_parent(nodes, k));
            let (j, i) = choose|j: int, i: int| 0 <= j < nodes.len() && #[trigger] is_child_slot(nodes[j].kind, i, k);
            assert(is_child_slot(self.node_kind(j), i, k));
        }
        assert forall|j: int, i: int, k: int| 0 <= j < self.node_count() && #[trigger] is_child_slot(self.node_kind(j), i, k)
            implies j < k by {
            assert(node_fits(nodes, cells, self.routes@, j));
            if let NodeType::Internal(ch) = nodes[j].kind {
                assert(ch@[i] == ch@[0] + i);
            }
        }
        assert forall|j1: int, i1: int, j2: int, i2: int, k: int|
            0 <= j1 < self.node_count() && 0 <= j2 < self.node_count()
            && #[trigger] is_child_slot(self.node_kind(j1), i1, k) && #[trigger] is_child_slot(self.node_kind(j2), i2, k)
            implies j1 == j2 && i1 == i2 by {
            assert(node_fits(nodes, cells, self.routes@, j1));
            assert(node_fits(nodes, cells, self.routes@, j2));
            if let NodeType::Internal(ch1) = nodes[j1].kind {
                if let NodeType::Internal(ch2) = nodes[j2].kind {
                    assert(ch1@[i1] == k && ch2@[i2] == k);
                    let c1 = cells[j1].push(slot_quadrant(i1));
                    let c2 = cells[j2].push(slot_quadrant(i2));
                    assert(cells[k] == c1 && cells[k] == c2);
                    assert(c1.drop_last() =~= cells[j1]);
                    assert(c2.drop_last() =~= cells[j2]);
                    assert(cells[j1] == cells[j2]);
                    assert(j1 == j2);
                }
            }
        }
    }
}

/// A quadtree over a set of particles, kept as an arena of nodes.
///
/// The geometry is given by routes (see `crate::model::Cell`): every particle
/// comes with its route from the square of the node it is inserted at, and a
/// leaf keeps the rest of its particle's route, as it keeps its particle's
/// position.  Node 0 is the root.
pub struct Quadtree {
    inner: Arena,
}

impl View for Quadtree {
    type V = Cells;

    closed spec fn view(&self) -> Cells {
        self.inner@
    }
}

impl Quadtree {
    #[verifier::type_invariant]
    spec fn arena_is_well_formed(self) -> bool {
        self.inner.wf()
    }

    /// How many nodes the arena holds.
    pub closed spec fn node_count(&self) -> nat {
        self.inner.node_count()
    }

    /// The path of node `k`'s cell from the root.
    pub closed spec fn node_cell(&self, k: int) -> Seq<Quadrant> {
        self.inner.node_cell(k)
    }

    /// What node `k` holds.
    pub closed spec fn node_kind(&self, k: int) -> NodeType {
        self.inner.node_kind(k)
    }

    /// Node `k` is a child of some node of the arena.
    pub open spec fn has_parent_node(&self, k: int) -> bool {
        exists|j: int, i: int| 0 <= j < self.node_count() && #[trigger] is_child_slot(self.node_kind(j), i, k)
    }

    /// The cells of all nodes, in index order.
    pub closed spec fn arena(&self) -> Seq<Seq<Quadrant>> {
        self.inner.arena()
    }

    /// The arena and the cells agree: node 0 is the root, each node has its
    /// own cell, the children of a split node are the four sub-cells of its
    /// cell, four consecutive nodes after it, every other node has a parent,
    /// and the cells form a quadtree.  Every tree holds it.
    pub closed spec fn wf(&self) -> bool {
        self.inner.wf()
    }

    /// Builds the tree of particles `0 .. routes.len()`, where `routes[i]` is
    /// the route of particle `i` from the root square: a root cell, into which
    /// every particle is inserted in order.
    pub fn create(routes: Vec<Vec<Quadrant>>) -> (tree: Self)
        ensures
            tree.wf(),
            tree@ == built(route_view(routes@), routes@.len()),
            tree.arena() == arena_built(route_view(routes@), routes@.len()),
            placed(tree@, route_view(routes@)),
            tree.node_cell(0) == Seq::<Quadrant>::empty(),
    {
        Quadtree { inner: Arena::create(routes) }
    }

    /// Inserts particle `particle_index` into the subtree of node `node_index`;
    /// `route` is the particle's route from that node's square.
    ///
    /// An empty node takes the particle.  An internal node passes it on to the
    /// child its route names, or drops it where its route ends.  A leaf is
    /// split into four new empty children, appended to the arena; the particle
    /// it held moves into the child its route names (or is dropped where its
    /// route ends), and then the new particle goes on into the child its own
    /// route names.
    pub fn insert(&mut self, node_index: usize, particle_index: usize, route: Vec<Quadrant>)
        requires
            node_index < old(self).node_count(),
        ensures
            final(self).wf(),
            final(self)@ == inserted(old(self)@, old(self).node_cell(node_index as int), particle_index, route@),
            final(self).arena() == arena_after(old(self).arena(), old(self)@, old(self).node_cell(node_index as int), particle_index, route@),
            forall|k: int| 0 <= k < old(self).node_count() ==> #[trigger] final(self).node_cell(k) == old(self).node_cell(k),
    {
        proof {
            use_type_invariant(&*self);
        }
        let mut inner = Arena::create(Vec::new());
        std::mem::swap(&mut inner, &mut self.inner);
        inner.insert(node_index, particle_index, route);
        self.inner = inner;
    }

    /// How many nodes the arena holds.
    pub fn len(&self) -> (count: usize)
        ensures
            count == self.node_count(),
    {
        self.inner.len()
    }

    /// What node `k` holds, with its children once it is split.
    pub fn node_type(&self, k: usize) -> (t: NodeType)
        requires
            k < self.node_count(),
        ensures
            t == self.node_kind(k as int),
            match t {
                NodeType::Empty => self@[self.node_cell(k as int)] == Cell::Empty,
                NodeType::Leaf(i) => self@[self.node_cell(k as int)] matches Cell::Leaf(j, _) && j == i,
                NodeType::Internal(ch) => {
                    &&& self@[self.node_cell(k as int)] is Internal
                    &&& forall|q: Quadrant| #![trigger ch@[quadrant_slot(q)]]
                        ch@[quadrant_slot(q)] < self.node_count()
                        && self.node_cell(ch@[quadrant_slot(q)] as int) == self.node_cell(k as int).push(q)
                },
            },
    {
        proof {
            use_type_invariant(self);
        }
        self.inner.node_type(k)
    }

    /// The particle node `k` holds, or held when it was split; 0 for an empty
    /// node.
    pub fn particle_index(&self, k: usize) -> (i: usize)
        requires
            k < self.node_count(),
        ensures
            match self@[self.node_cell(k as int)] {
                Cell::Empty => i == 0,
                Cell::Leaf(j, _) => i == j,
                Cell::Internal(j) => i == j,
            },
    {
        proof {
            use_type_invariant(self);
        }
        self.inner.particle_index(k)
    }

    /// How many splits lie between the root and node `k`.
    pub fn depth(&self, k: usize) -> (d: usize)
        requires
            k < self.node_count(),
        ensures
            d == self.node_cell(k as int).len(),
    {
        proof {
            use_type_invariant(self);
        }
        self.inner.depth(k)
    }

    /// The arena is the tree: it holds exactly the cells of the tree, one node
    /// per cell, the root first, and those cells have the shape of a quadtree.
    /// The node count is one more than a multiple of four; a split node's
    /// children are four consecutive nodes after it; every node but the root
    /// is the child of exactly one node, at exactly one slot.
    pub proof fn lemma_arena_is_tree(&self)
        requires
            self.wf(),
        ensures
            well_shaped(self@),
            self.node_count() >= 1,
            self.arena().len() == self.node_count(),
            forall|k: int| 0 <= k < self.node_count() ==> #[trigger] self.arena()[k] == self.node_cell(k),
            self.node_cell(0) == Seq::<Quadrant>::empty(),
            forall|k: int| 0 <= k < self.node_count() ==> self@.dom().contains(#[trigger] self.node_cell(k)),
            forall|j: int, k: int| 0 <= j < self.node_count() && 0 <= k < self.node_count() && j != k
                ==> #[trigger] self.node_cell(j) != #[trigger] self.node_cell(k),
            forall|s: Seq<Quadrant>| #[trigger] self@.dom().contains(s)
                ==> exists|k: int| 0 <= k < self.node_count() && self.node_cell(k) == s,
            self.node_count() % 4 == 1,
            forall|k: int| 0 <= k < self.node_count() ==> (#[trigger] self.node_kind(k) matches NodeType::Internal(ch) ==> {
                &&& k < ch@[0]
                &&& ch@[0] + 3 < self.node_count()
                &&& forall|i: int| 0 <= i < 4 ==> #[trigger] ch@[i] == ch@[0] + i
            }),
            forall|k: int| 1 <= k < self.node_count() ==> #[trigger] self.has_parent_node(k),
            forall|j1: int, i1: int, j2: int, i2: int, k: int|
                0 <= j1 < self.node_count() && 0 <= j2 < self.node_count()
                && #[trigger] is_child_slot(self.node_kind(j1), i1, k) && #[trigger] is_child_slot(self.node_kind(j2), i2, k)
                ==> j1 == j2 && i1 == i2,
            forall|j: int, i: int, k: int| 0 <= j < self.node_count() && #[trigger] is_child_slot(self.node_kind(j), i, k) ==> j < k,
    {
        self.inner.lemma_arena_is_tree();
        assert forall|k: int| 1 <= k < self.node_count() implies #[trigger] self.has_parent_node(k) by {
            assert(self.inner.has_parent_node(k));
            let (j, i) = choose|j: int, i: int| 0 <= j < self.inner.node_count() && #[trigger] is_child_slot(self.inner.node_kind(j), i, k);
            assert(is_child_slot(self.node_kind(j), i, k));
        }
        assert forall|s: Seq<Quadrant>| #[trigger] self@.dom().contains(s)
            implies exists|k: int| 0 <= k < self.node_count() && self.node_cell(k) == s by {
            assert(self.inner@.dom().contains(s));
            let k = choose|k: int| 0 <= k < self.inner.node_count() && self.inner.node_cell(k) == s;
            assert(self.node_cell(k) == s);
        }
    }
}

} // verus!
