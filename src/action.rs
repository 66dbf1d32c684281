use vstd::prelude::*;
use crate::math::{Vector2i, Vector3i};

verus! {

/// A move that the pathing entity can take: the "lines" between graph nodes.
/// Costs are fixed-point numbers in hundredths of a cost unit.
#[derive(Debug, Copy, Clone, PartialEq, Eq)]
pub struct MoveAction<P> {
    /// Cost of executing this move.
    pub cost: u64,
    /// Offset from the current position to the neighbor position.
    pub offset: P,
}

/// Identity of a graph node: the position reached, and the edge (an index
/// into the moveset) that reached it, or `None` for the start.
#[derive(Debug, Copy, Clone, PartialEq, Eq)]
pub struct SpatialAction<P> {
    pub pos: P,
    pub edge: Option<usize>,
}

impl<P: Copy> SpatialAction<P> {
    /// The identity of the start of a search.
    pub fn new_root(pos: P) -> (r: Self)
        ensures
            r.pos == pos,
            r.edge is None,
    {
        SpatialAction { pos, edge: None }
    }

    /// The identity of `pos` reached through the move at `edge`.
    pub fn new(pos: P, edge: usize) -> (r: Self)
        ensures
            r.pos == pos,
            r.edge == Some(edge),
    {
        SpatialAction { pos, edge: Some(edge) }
    }
}

/// The default moveset of a voxel walker: one unit along each horizontal axis.
pub fn default_moveset() -> (r: Vec<MoveAction<Vector3i>>)
    ensures
        r@ == seq![
            MoveAction { cost: 100, offset: Vector3i { x: 1, y: 0, z: 0 } },
            MoveAction { cost: 100, offset: Vector3i { x: -1i32, y: 0, z: 0 } },
            MoveAction { cost: 100, offset: Vector3i { x: 0, y: 0, z: 1 } },
            MoveAction { cost: 100, offset: Vector3i { x: 0, y: 0, z: -1i32 } },
        ],
{
    vec![
        MoveAction { cost: 100, offset: Vector3i::new(1, 0, 0) },
        MoveAction { cost: 100, offset: Vector3i::new(-1, 0, 0) },
        MoveAction { cost: 100, offset: Vector3i::new(0, 0, 1) },
        MoveAction { cost: 100, offset: Vector3i::new(0, 0, -1) },
    ]
}

/// Unit-cost moves in the four cardinal directions of a plane.
pub fn moveset_2d_cardinal() -> (r: Vec<MoveAction<Vector2i>>)
    ensures
        r@ == seq![
            MoveAction { cost: 100, offset: Vector2i { x: 1, y: 0 } },
            MoveAction { cost: 100, offset: Vector2i { x: -1i32, y: 0 } },
            MoveAction { cost: 100, offset: Vector2i { x: 0, y: 1 } },
            MoveAction { cost: 100, offset: Vector2i { x: 0, y: -1i32 } },
        ],
{
    vec![
        MoveAction { cost: 100, offset: Vector2i::new(1, 0) },
        MoveAction { cost: 100, offset: Vector2i::new(-1, 0) },
        MoveAction { cost: 100, offset: Vector2i::new(0, 1) },
        MoveAction { cost: 100, offset: Vector2i::new(0, -1) },
    ]
}

} // verus!
