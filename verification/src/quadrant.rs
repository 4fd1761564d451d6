use vstd::prelude::*;

verus! {

/// One of the four equal sub-squares of a square cell, in the order in which
/// the tree lays out a node's children.
#[derive(Clone, Copy, PartialEq, Eq, Debug)]
pub enum Quadrant {
    SouthWest,
    SouthEast,
    NorthWest,
    NorthEast,
}

/// Position of a quadrant among a node's four children.
pub open spec fn quadrant_slot(q: Quadrant) -> int {
    match q {
        Quadrant::SouthWest => 0,
        Quadrant::SouthEast => 1,
        Quadrant::NorthWest => 2,
        Quadrant::NorthEast => 3,
    }
}

/// The quadrant at a slot among a node's four children.
pub open spec fn slot_quadrant(i: int) -> Quadrant {
    if i == 0 {
        Quadrant::SouthWest
    } else if i == 1 {
        Quadrant::SouthEast
    } else if i == 2 {
        Quadrant::NorthWest
    } else {
        Quadrant::NorthEast
    }
}

/// Slots and quadrants correspond one to one.
pub proof fn lemma_slot_quadrant(q: Quadrant)
    ensures
        0 <= quadrant_slot(q) < 4,
        slot_quadrant(quadrant_slot(q)) == q,
{
}

impl Quadrant {
    /// The slot of this quadrant among a node's four children.
    pub fn slot(self) -> (i: usize)
        ensures
            i == quadrant_slot(self),
    {
        match self {
            Quadrant::SouthWest => 0,
            Quadrant::SouthEast => 1,
            Quadrant::NorthWest => 2,
            Quadrant::NorthEast => 3,
        }
    }
}

/// The first quadrant, in slot order, whose flag is set.
pub open spec fn first_set(flags: Seq<bool>) -> Option<Quadrant> {
    if flags[0] {
        Some(Quadrant::SouthWest)
    } else if flags[1] {
        Some(Quadrant::SouthEast)
    } else if flags[2] {
        Some(Quadrant::NorthWest)
    } else if flags[3] {
        Some(Quadrant::NorthEast)
    } else {
        None
    }
}

impl Quadrant {
    /// Picks the child a point goes to, given for each child, in slot order
    /// (south-west, south-east, north-west, north-east), whether its square
    /// contains the point: the first that does, or none.
    pub fn first_containing(contains: [bool; 4]) -> (q: Option<Quadrant>)
        ensures
            q == first_set(contains@),
            q is None <==> forall|i: int| 0 <= i < 4 ==> !contains@[i],
            q matches Some(c) ==> contains@[quadrant_slot(c)]
                && forall|j: int| 0 <= j < quadrant_slot(c) ==> !contains@[j],
    {
        proof {
            law_first_set(contains@);
        }
        if contains[0] {
            Some(Quadrant::SouthWest)
        } else if contains[1] {
            Some(Quadrant::SouthEast)
        } else if contains[2] {
            Some(Quadrant::NorthWest)
        } else if contains[3] {
            Some(Quadrant::NorthEast)
        } else {
            None
        }
    }
}

/// The quadrant picked from four containment flags is the first whose flag is
/// set: its flag is set and no earlier slot's is; and none is picked exactly
/// when no flag is set.
pub proof fn law_first_set(flags: Seq<bool>)
    requires
        flags.len() == 4,
    ensures
        first_set(flags) is None <==> forall|i: int| 0 <= i < 4 ==> !flags[i],
        first_set(flags) matches Some(c) ==> flags[quadrant_slot(c)]
            && forall|j: int| 0 <= j < quadrant_slot(c) ==> !flags[j],
        forall|i: int| 0 <= i < 4 && flags[i] && (forall|j: int| 0 <= j < i ==> !flags[j])
            ==> first_set(flags) == Some(slot_quadrant(i)),
{
    assert forall|i: int| 0 <= i < 4 && flags[i] && (forall|j: int| 0 <= j < i ==> !flags[j])
        implies first_set(flags) == Some(slot_quadrant(i)) by {
        if i > 0 {
            assert(!flags[0]);
        }
        if i > 1 {
            assert(!flags[1]);
        }
        if i > 2 {
            assert(!flags[2]);
        }
    }
    if forall|i: int| 0 <= i < 4 ==> !flags[i] {
        assert(!flags[0] && !flags[1] && !flags[2] && !flags[3]);
    }
}

} // verus!
