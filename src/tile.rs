use vstd::prelude::*;

verus! {

/// Zoom level at which routing queries load tiles.
pub const DEFAULT_ZOOM: u8 = 14;

/// Address of a map tile: column `x`, row `y` at zoom `z`.
#[derive(Clone, Copy, Debug, PartialEq, Eq, Hash, Structural)]
pub struct Coord {
    pub x: u32,
    pub y: u32,
    pub z: u8,
}

impl Coord {
    /// The coordinate as a plain tuple, the form used as a cache key.
    pub open spec fn key(self) -> (u32, u32, u8) {
        (self.x, self.y, self.z)
    }

    pub fn to_key(&self) -> (r: (u32, u32, u8))
        ensures
            r == self.key(),
    {
        (self.x, self.y, self.z)
    }
}

/// The `k`-th tile (0 <= k < 9) of the 3x3 block centred on `c`, walking
/// columns from west to east and, inside a column, rows from north to south.
pub open spec fn window_at(c: Coord, k: int) -> Coord {
    Coord { x: (c.x + k / 3 - 1) as u32, y: (c.y + k % 3 - 1) as u32, z: c.z }
}

/// A centre whose whole 3x3 neighbourhood has valid `u32` indices.
pub open spec fn has_full_window(c: Coord) -> bool {
    1 <= c.x && c.x < u32::MAX && 1 <= c.y && c.y < u32::MAX
}

/// The nine tiles around `center` (itself included), in the order in which a
/// query loads them.
pub fn tile_window(center: Coord) -> (r: Vec<Coord>)
    requires
        has_full_window(center),
    ensures
        r@.len() == 9,
        forall|k: int| 0 <= k < 9 ==> #[trigger] r@[k] == window_at(center, k),
{
    let mut r: Vec<Coord> = Vec::new();
    let mut i: u32 = 0;
    while i < 3
        invariant
            has_full_window(center),
            i <= 3,
            r@.len() == 3 * i,
            forall|k: int| 0 <= k < 3 * i ==> #[trigger] r@[k] == window_at(center, k),
        decreases 3 - i,
    {
        let mut j: u32 = 0;
        while j < 3
            invariant
                has_full_window(center),
                i < 3,
                j <= 3,
                r@.len() == 3 * i + j,
                forall|k: int| 0 <= k < 3 * i + j ==> #[trigger] r@[k] == window_at(center, k),
            decreases 3 - j,
        {
            let c = Coord { x: center.x - 1 + i, y: center.y - 1 + j, z: center.z };
            proof {
                let k = 3 * i + j;
                assert(k / 3 == i as int && k % 3 == j as int) by (nonlinear_arith)
                    requires k == 3 * i + j, j < 3;
            }
            r.push(c);
            j = j + 1;
        }
        i = i + 1;
    }
    r
}

} // verus!
