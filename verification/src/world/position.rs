use vstd::prelude::*;

verus! {

/// Coordinate of a chunk in the regular grid of chunks.
#[derive(Clone, Copy, Debug, PartialEq, Eq, Hash, Structural)]
pub struct ChunkPosition {
    pub x: isize,
    pub y: isize,
    pub z: isize,
}

/// Coordinate of a block inside its chunk, or the extent of a chunk.
#[derive(Clone, Copy, Debug, PartialEq, Eq, Hash, Structural)]
pub struct LocalPosition {
    pub x: usize,
    pub y: usize,
    pub z: usize,
}

/// Coordinate of a block in the global grid.
#[derive(Clone, Copy, Debug, PartialEq, Eq, Hash, Structural)]
pub struct WorldPosition {
    pub x: isize,
    pub y: isize,
    pub z: isize,
}

impl ChunkPosition {
    pub fn new(x: isize, y: isize, z: isize) -> (r: ChunkPosition)
        ensures
            r == (ChunkPosition { x, y, z }),
    {
        ChunkPosition { x, y, z }
    }

    /// The component along `axis` (0, 1 or 2); 0 for any other axis.
    pub open spec fn component(self, axis: nat) -> int {
        if axis == 0 {
            self.x as int
        } else if axis == 1 {
            self.y as int
        } else if axis == 2 {
            self.z as int
        } else {
            0
        }
    }

    /// Whether this position is `other` moved by (dx, dy, dz).
    pub open spec fn is_offset_of(self, other: ChunkPosition, dx: int, dy: int, dz: int) -> bool {
        self.x == other.x + dx && self.y == other.y + dy && self.z == other.z + dz
    }

    /// The position moved by (dx, dy, dz), or `None` where a coordinate would
    /// leave the machine's range.
    pub fn offset(self, dx: isize, dy: isize, dz: isize) -> (r: Option<ChunkPosition>)
        ensures
            match r {
                Some(p) => p.is_offset_of(self, dx as int, dy as int, dz as int),
                None => !(isize::MIN <= self.x + dx <= isize::MAX)
                    || !(isize::MIN <= self.y + dy <= isize::MAX)
                    || !(isize::MIN <= self.z + dz <= isize::MAX),
            },
    {
        let x = self.x.checked_add(dx);
        let y = self.y.checked_add(dy);
        let z = self.z.checked_add(dz);
        match (x, y, z) {
            (Some(x), Some(y), Some(z)) => Some(ChunkPosition { x, y, z }),
            _ => None,
        }
    }
}

impl LocalPosition {
    pub fn new(x: usize, y: usize, z: usize) -> (r: LocalPosition)
        ensures
            r == (LocalPosition { x, y, z }),
    {
        LocalPosition { x, y, z }
    }

    /// The component along `axis` (0, 1 or 2); 0 for any other axis.
    pub open spec fn component(self, axis: nat) -> nat {
        if axis == 0 {
            self.x as nat
        } else if axis == 1 {
            self.y as nat
        } else if axis == 2 {
            self.z as nat
        } else {
            0
        }
    }

    /// Whether every component lies below the matching component of `axis`.
    pub open spec fn within(self, axis: LocalPosition) -> bool {
        self.x < axis.x && self.y < axis.y && self.z < axis.z
    }
}

impl WorldPosition {
    pub fn new(x: isize, y: isize, z: isize) -> (r: WorldPosition)
        ensures
            r == (WorldPosition { x, y, z }),
    {
        WorldPosition { x, y, z }
    }
}

/// The quotient of `a` by `n` rounded towards zero.
pub open spec fn trunc_div(a: int, n: int) -> int {
    if a >= 0 {
        a / n
    } else {
        -((-a) / n)
    }
}

/// The quotient of `a` by a positive `n`, rounded down.
pub fn floor_div(a: isize, n: isize) -> (r: isize)
    requires
        n > 0,
    ensures
        r == a as int / n as int,
{
    proof {
        vstd::arithmetic::div_mod::lemma_fundamental_div_mod(a as int, n as int);
        vstd::arithmetic::div_mod::lemma_mod_bound(a as int, n as int);
        let q = a as int / n as int;
        assert(isize::MIN <= q <= isize::MAX) by (nonlinear_arith)
            requires
                a == n * q + (a as int % n as int),
                0 <= (a as int % n as int) < n,
                n >= 1,
                isize::MIN <= a <= isize::MAX,
                isize::MIN < 0,
                isize::MAX > 0,
        ;
    }
    match a.checked_div_euclid(n) {
        Some(q) => q,
        None => 0,
    }
}

/// The remainder of `a` by a positive `n`, which is never negative.
pub fn floor_mod(a: isize, n: isize) -> (r: usize)
    requires
        n > 0,
    ensures
        r == a as int % n as int,
        r < n,
{
    proof {
        vstd::arithmetic::div_mod::lemma_mod_bound(a as int, n as int);
    }
    match a.checked_rem_euclid(n) {
        Some(m) => m as usize,
        None => 0,
    }
}

/// The quotient of `a` by a positive `n`, rounded towards zero.
pub fn toward_zero_div(a: isize, n: isize) -> (r: isize)
    requires
        n > 0,
    ensures
        r == trunc_div(a as int, n as int),
{
    proof {
        if a >= 0 {
            vstd::arithmetic::div_mod::lemma_div_pos_is_pos(a as int, n as int);
            vstd::arithmetic::div_mod::lemma_div_is_ordered_by_denominator(a as int, 1, n as int);
            vstd::arithmetic::div_mod::lemma_div_basics(a as int);
            assert((a as int) / 1 == a);
            assert(0 <= (a as int) / (n as int) <= a);
        } else {
            vstd::arithmetic::div_mod::lemma_div_pos_is_pos(-(a as int), n as int);
            vstd::arithmetic::div_mod::lemma_div_is_ordered_by_denominator(
                -(a as int),
                1,
                n as int,
            );
            vstd::arithmetic::div_mod::lemma_div_basics(-(a as int));
            let m = -(a as int);
            assert((a as int) * -1 == m);
            assert(m / 1 == m);
            assert(0 <= m / (n as int) <= m);
            assert((m / (n as int)) * -1 == -(m / (n as int)));
        }
    }
    match a.checked_div(n) {
        Some(q) => q,
        None => 0,
    }
}

} // verus!
