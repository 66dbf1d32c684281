use vstd::prelude::*;
use vstd::std_specs::iter::IteratorSpec;
use crate::config::Configuration;
use crate::math::{Vector2i, Vector3i};
use crate::position::COST_SCALE;

verus! {

broadcast use {vstd::string::axiom_spec_iter, vstd::string::next_postcondition};

/// A space from which the search samples what it costs to occupy a
/// position, in hundredths of a cost unit. A space marks an impassable
/// position with the configured infinite cost.
pub trait Space<P> {
    spec fn spec_cost(&self, pos: P) -> nat;

    fn material_cost(&self, pos: P) -> (r: u64)
        ensures
            r == self.spec_cost(pos),
    ;
}

/// A voxel space with no terrain sampled into it: every voxel is open and
/// costs one unit.
pub struct VoxelSpace {}

impl VoxelSpace {
    pub fn new() -> (r: VoxelSpace) {
        VoxelSpace {}
    }
}

impl Space<Vector3i> for VoxelSpace {
    open spec fn spec_cost(&self, pos: Vector3i) -> nat {
        COST_SCALE as nat
    }

    fn material_cost(&self, pos: Vector3i) -> (r: u64) {
        COST_SCALE
    }
}

/// A two-dimensional space drawn as rows of characters: `O` a start, `G` a
/// goal, `_` empty, `*` hazardous, `X` solid. Row `y` holds the cell at
/// column `x` of position `(x, y)`.
pub struct FlatSpace {
    plane: Vec<&'static str>,
    config: Configuration,
}

/// What occupying a cell drawn as `c` costs.
pub open spec fn cell_cost(c: char, cost_inf: u64) -> nat {
    if c == 'O' || c == 'G' || c == '_' {
        COST_SCALE as nat
    } else if c == '*' {
        5 * COST_SCALE as nat
    } else {
        cost_inf as nat
    }
}

impl FlatSpace {
    pub fn new(plane: Vec<&'static str>, config: Configuration) -> (r: FlatSpace)
        ensures
            r.rows() == plane@,
            r.config() == config,
    {
        FlatSpace { plane, config }
    }

    pub closed spec fn rows(&self) -> Seq<&'static str> {
        self.plane@
    }

    pub closed spec fn config(&self) -> Configuration {
        self.config
    }

    /// The cell at `pos`, if the plane has one there.
    pub open spec fn cell_at(&self, pos: Vector2i) -> Option<char> {
        if 0 <= pos.x && 0 <= pos.y && pos.y < self.rows().len() && pos.x < self.rows()[pos.y as int]@.len() {
            Some(self.rows()[pos.y as int]@[pos.x as int])
        } else {
            None
        }
    }
}

impl Space<Vector2i> for FlatSpace {
    /// Cells cost by their character; positions off the plane are impassable.
    open spec fn spec_cost(&self, pos: Vector2i) -> nat {
        match self.cell_at(pos) {
            Some(c) => cell_cost(c, self.config().cost_inf),
            None => self.config().cost_inf as nat,
        }
    }

    fn material_cost(&self, pos: Vector2i) -> (r: u64) {
        let cost_inf = self.config.cost_inf;
        if pos.x < 0 || pos.y < 0 || pos.y as usize >= self.plane.len() {
            return cost_inf;
        }
        match nth_char(self.plane[pos.y as usize], pos.x as usize) {
            Some(c) => {
                if c == 'O' || c == 'G' || c == '_' {
                    COST_SCALE
                } else if c == '*' {
                    5 * COST_SCALE
                } else {
                    cost_inf
                }
            },
            None => cost_inf,
        }
    }
}

/// The character at `n` of `s`.
pub fn nth_char(s: &str, n: usize) -> (r: Option<char>)
    ensures
        n < s@.len() ==> r == Some(s@[n as int]),
        n >= s@.len() ==> r is None,
{
    let mut it = s.chars();
    let mut i: usize = 0;
    loop
        invariant
            it.obeys_prophetic_iter_laws(),
            it.remaining() == s@.skip(i as int),
            i <= n,
            i <= s@.len(),
        decreases s@.len() - i,
    {
        let c = it.next();
        match c {
            None => {
                return None;
            },
            Some(ch) => {
                if i == n {
                    return Some(ch);
                }
                i = i + 1;
            },
        }
    }
}

} // verus!
