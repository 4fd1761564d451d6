use gravity_sim::quadrant::Quadrant;
use gravity_sim::quadtree::{NodeType, Quadtree};
use gravity_sim::routes::routes_to_extend;

use Quadrant::{NorthEast, NorthWest, SouthEast, SouthWest};

fn kinds(tree: &Quadtree) -> Vec<String> {
    (0..tree.len())
        .map(|k| match tree.node_type(k) {
            NodeType::Empty => "E".to_string(),
            NodeType::Leaf(i) => format!("L{}", i),
            NodeType::Internal(ch) => format!("I{:?}", ch),
        })
        .collect()
}

fn leaves_of(tree: &Quadtree, particle: usize) -> usize {
    (0..tree.len())
        .filter(|&k| matches!(tree.node_type(k), NodeType::Leaf(i) if i == particle))
        .count()
}

#[test]
fn create_without_particles_is_a_lone_empty_root() {
    let tree = Quadtree::create(vec![]);
    assert_eq!(tree.len(), 1);
    assert_eq!(kinds(&tree), vec!["E"]);
    assert_eq!(tree.particle_index(0), 0);
    assert_eq!(tree.depth(0), 0);
}

#[test]
fn one_particle_sits_in_the_root() {
    let routes = vec![vec![NorthWest, SouthEast]];
    let tree = Quadtree::create(routes.clone());
    assert_eq!(kinds(&tree), vec!["L0"]);
    assert_eq!(tree.particle_index(0), 0);
}

#[test]
fn two_particles_in_different_quadrants_split_the_root_once() {
    let routes = vec![vec![SouthWest], vec![NorthEast]];
    let tree = Quadtree::create(routes.clone());
    assert_eq!(kinds(&tree), vec!["I[1, 2, 3, 4]", "L0", "E", "E", "L1"]);
    assert_eq!(tree.particle_index(0), 0);
    for k in 1..5 {
        assert_eq!(tree.depth(k), 1);
    }
}

#[test]
fn particles_sharing_a_quadrant_split_again_below_it() {
    let routes = vec![vec![SouthWest, SouthEast], vec![SouthWest, NorthWest]];
    let tree = Quadtree::create(routes.clone());
    assert_eq!(
        kinds(&tree),
        vec!["I[1, 2, 3, 4]", "I[5, 6, 7, 8]", "E", "E", "E", "E", "L0", "L1", "E"]
    );
    assert_eq!(tree.particle_index(1), 0);
    assert_eq!(tree.depth(6), 2);
}

#[test]
fn a_newcomer_whose_route_ends_at_a_split_is_dropped() {
    let routes = vec![vec![SouthWest], vec![]];
    let tree = Quadtree::create(routes.clone());
    assert_eq!(kinds(&tree), vec!["I[1, 2, 3, 4]", "L0", "E", "E", "E"]);
    assert_eq!(leaves_of(&tree, 1), 0);
}

#[test]
fn a_resident_whose_route_ends_is_displaced_by_a_newcomer_continuing_it() {
    let routes = vec![vec![SouthWest], vec![SouthWest, NorthEast]];
    let tree = Quadtree::create(routes.clone());
    assert_eq!(
        kinds(&tree),
        vec!["I[1, 2, 3, 4]", "I[5, 6, 7, 8]", "E", "E", "E", "E", "E", "E", "L1"]
    );
    assert_eq!(leaves_of(&tree, 0), 0);
    assert_eq!(tree.particle_index(1), 0);
}

#[test]
fn a_newcomer_whose_route_ends_inside_a_split_cell_is_dropped() {
    let routes = vec![vec![SouthWest], vec![NorthEast], vec![]];
    let tree = Quadtree::create(routes.clone());
    assert_eq!(kinds(&tree), vec!["I[1, 2, 3, 4]", "L0", "E", "E", "L1"]);
    assert_eq!(leaves_of(&tree, 2), 0);
}

#[test]
fn particles_with_equal_routes_are_both_dropped() {
    let routes = vec![vec![SouthWest], vec![SouthWest]];
    let tree = Quadtree::create(routes.clone());
    assert_eq!(
        kinds(&tree),
        vec!["I[1, 2, 3, 4]", "I[5, 6, 7, 8]", "E", "E", "E", "E", "E", "E", "E"]
    );
}

#[test]
fn insert_goes_down_through_split_cells() {
    let routes = vec![vec![SouthWest], vec![NorthEast], vec![NorthEast, SouthEast]];
    let mut tree = Quadtree::create(routes[..2].to_vec());
    assert_eq!(kinds(&tree), vec!["I[1, 2, 3, 4]", "L0", "E", "E", "L1"]);
    tree.insert(0, 2, routes[2].clone());
    assert_eq!(
        kinds(&tree),
        vec!["I[1, 2, 3, 4]", "L0", "E", "E", "I[5, 6, 7, 8]", "E", "L2", "E", "E"]
    );
    assert_eq!(tree.particle_index(4), 1);
    assert_eq!(leaves_of(&tree, 1), 0);
}

#[test]
fn insert_into_an_empty_child_node() {
    let routes = vec![vec![SouthWest], vec![NorthEast], vec![SouthEast]];
    let mut tree = Quadtree::create(routes[..2].to_vec());
    // particle 2 lies in the south-east square and in none of its children
    tree.insert(2, 2, vec![]);
    assert_eq!(kinds(&tree), vec!["I[1, 2, 3, 4]", "L0", "L2", "E", "L1"]);
    assert_eq!(tree.particle_index(2), 2);
}

#[test]
fn inserting_a_resident_again_drops_it() {
    let routes = vec![vec![SouthWest, NorthEast]];
    let mut tree = Quadtree::create(routes.clone());
    tree.insert(0, 0, routes[0].clone());
    assert_eq!(leaves_of(&tree, 0), 0);
    assert_eq!(tree.len(), 13);
}

#[test]
fn distinguishable_particles_each_get_one_leaf() {
    let routes = vec![
        vec![SouthWest, SouthWest, NorthEast],
        vec![SouthWest, SouthWest, NorthWest],
        vec![NorthEast],
        vec![SouthWest, NorthEast],
        vec![NorthWest, SouthEast, SouthEast],
        vec![NorthWest, SouthEast, SouthWest, SouthWest],
    ];
    let tree = Quadtree::create(routes.clone());
    for i in 0..routes.len() {
        assert_eq!(leaves_of(&tree, i), 1, "particle {}", i);
    }
    // each leaf lies on its particle's route
    for k in 0..tree.len() {
        if let NodeType::Leaf(i) = tree.node_type(k) {
            assert!(tree.depth(k) <= routes[i].len());
        }
    }
}

#[test]
fn children_of_a_split_node_are_one_level_deeper() {
    let routes = vec![vec![NorthWest, NorthWest, NorthWest], vec![NorthWest, NorthWest, SouthWest]];
    let tree = Quadtree::create(routes.clone());
    assert_eq!(tree.len(), 13);
    for k in 0..tree.len() {
        if let NodeType::Internal(ch) = tree.node_type(k) {
            for c in ch {
                assert_eq!(tree.depth(c), tree.depth(k) + 1);
                assert!(c > k);
            }
        }
    }
    assert_eq!(leaves_of(&tree, 0), 1);
    assert_eq!(leaves_of(&tree, 1), 1);
}

#[test]
fn quadrant_slots_follow_child_order() {
    assert_eq!(SouthWest.slot(), 0);
    assert_eq!(SouthEast.slot(), 1);
    assert_eq!(NorthWest.slot(), 2);
    assert_eq!(NorthEast.slot(), 3);
}

#[test]
fn first_containing_takes_the_first_child_in_order() {
    assert_eq!(Quadrant::first_containing([true, true, true, true]), Some(SouthWest));
    assert_eq!(Quadrant::first_containing([false, true, false, true]), Some(SouthEast));
    assert_eq!(Quadrant::first_containing([false, false, true, true]), Some(NorthWest));
    assert_eq!(Quadrant::first_containing([false, false, false, true]), Some(NorthEast));
    assert_eq!(Quadrant::first_containing([false, false, false, false]), None);
}

#[test]
fn arena_is_a_tree_of_consecutive_child_groups() {
    let routes = vec![
        vec![SouthWest, SouthWest, NorthEast],
        vec![SouthWest, SouthWest, NorthWest],
        vec![NorthEast, SouthEast],
        vec![NorthEast, NorthEast],
        vec![SouthWest, NorthEast],
    ];
    let tree = Quadtree::create(routes.clone());
    assert_eq!(tree.len() % 4, 1);
    let mut parents = vec![0usize; tree.len()];
    for k in 0..tree.len() {
        if let NodeType::Internal(ch) = tree.node_type(k) {
            assert!(ch[0] > k);
            for (i, &c) in ch.iter().enumerate() {
                assert_eq!(c, ch[0] + i);
                parents[c] += 1;
            }
        }
    }
    assert_eq!(parents[0], 0);
    assert!(parents[1..].iter().all(|&n| n == 1));
}

#[test]
fn an_empty_node_takes_any_particle_without_a_containment_check() {
    // particle 1 lies in the north-east square, not in the south-east one
    let routes = vec![vec![SouthWest], vec![NorthEast]];
    let mut tree = Quadtree::create(routes[..1].to_vec());
    tree.insert(0, 2, vec![NorthEast]);
    assert_eq!(kinds(&tree), vec!["I[1, 2, 3, 4]", "L0", "E", "E", "L2"]);
    // seen from the south-east square, particle 1 is in none of its children
    tree.insert(2, 1, vec![]);
    assert_eq!(kinds(&tree), vec!["I[1, 2, 3, 4]", "L0", "L1", "E", "L2"]);
}

#[test]
fn an_internal_node_whose_children_miss_the_particle_changes_nothing() {
    let routes = vec![vec![SouthWest], vec![NorthEast]];
    let mut tree = Quadtree::create(routes.clone());
    let before = kinds(&tree);
    tree.insert(0, 7, vec![]);
    assert_eq!(kinds(&tree), before);
}

#[test]
fn a_split_below_the_root_moves_the_resident_by_its_own_route() {
    let routes = vec![vec![SouthWest, NorthWest], vec![NorthEast]];
    let mut tree = Quadtree::create(routes.clone());
    // node 1 is the south-west square, holding particle 0; the newcomer's
    // route is taken from that square
    tree.insert(1, 2, vec![SouthEast]);
    assert_eq!(
        kinds(&tree),
        vec!["I[1, 2, 3, 4]", "I[5, 6, 7, 8]", "E", "E", "L1", "E", "L2", "L0", "E"]
    );
}

#[test]
fn routes_to_extend_marks_cut_routes_that_others_continue() {
    let routes = vec![
        vec![SouthWest],
        vec![SouthWest, NorthEast],
        vec![NorthEast],
        vec![NorthEast],
        vec![NorthWest],
    ];
    let complete = vec![false, false, false, true, false];
    // sorted by route, slots in order: SW, SW NE, NW, NE, NE
    let order = vec![0, 1, 4, 2, 3];
    let extend = routes_to_extend(&routes, &complete, &order).unwrap();
    assert_eq!(extend, vec![true, false, true, false, false]);
    // not sorted
    assert!(routes_to_extend(&routes, &complete, &[1, 0, 4, 2, 3]).is_none());
    // not a permutation
    assert!(routes_to_extend(&routes, &complete, &[0, 0, 4, 2, 3]).is_none());
    // lengths do not match
    assert!(routes_to_extend(&routes, &complete[..4], &order).is_none());
}
