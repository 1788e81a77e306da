use vstd::prelude::*;

verus! {

/// Orientation of the triangle at lattice cell `(x, y)`: `-1` when
/// `x + y` is even, `1` when it is odd.  The orientation decides which
/// way the triangle points, and with it the sprite flip and the
/// centroid offset of a piece standing on the cell.
pub open spec fn spec_parity(x: int, y: int) -> int {
    if (x + y) % 2 == 0 {
        -1
    } else {
        1
    }
}

/// A cell address on the triangular lattice: a pair of signed integers.
#[derive(Clone, Copy, PartialEq, Eq, Structural, Debug, Hash)]
pub struct Coord(pub isize, pub isize);

impl Coord {
    /// Orientation classifier of this cell: `-1` or `1`.
    pub fn parity(self) -> (r: isize)
        ensures
            r == spec_parity(self.0 as int, self.1 as int),
    {
        let x: i64 = self.0 as i64;
        let y: i64 = self.1 as i64;
        let bit: i64 = (x ^ y) & 1;
        proof {
            lemma_xor_low_bit(x, y);
        }
        if bit == 0 {
            -1
        } else {
            1
        }
    }

    /// Component-wise sum, used to apply a shear delta to a cell.
    pub fn add(self, rhs: Coord) -> (r: Coord)
        requires
            isize::MIN <= self.0 + rhs.0 <= isize::MAX,
            isize::MIN <= self.1 + rhs.1 <= isize::MAX,
        ensures
            r.0 == self.0 + rhs.0,
            r.1 == self.1 + rhs.1,
    {
        Coord(self.0 + rhs.0, self.1 + rhs.1)
    }

    /// Component-wise difference, used to form a shear delta.
    pub fn sub(self, rhs: Coord) -> (r: Coord)
        requires
            isize::MIN <= self.0 - rhs.0 <= isize::MAX,
            isize::MIN <= self.1 - rhs.1 <= isize::MAX,
        ensures
            r.0 == self.0 - rhs.0,
            r.1 == self.1 - rhs.1,
    {
        Coord(self.0 - rhs.0, self.1 - rhs.1)
    }
}

/// The low bit of `x ^ y` is `0` exactly when `x + y` is even.
pub proof fn lemma_xor_low_bit(x: i64, y: i64)
    ensures
        ((x ^ y) & 1) == 0 <==> (x + y) % 2 == 0,
        ((x ^ y) & 1) == 0 || ((x ^ y) & 1) == 1,
{
    assert(((x ^ y) & 1) == 0 || ((x ^ y) & 1) == 1) by (bit_vector);
    assert(x & 1 == x % 2) by (bit_vector);
    assert(y & 1 == y % 2) by (bit_vector);
    assert(((x ^ y) & 1) == 0 <==> (x & 1) == (y & 1)) by (bit_vector);
    assert((x + y) % 2 == 0 <==> (x as int) % 2 == (y as int) % 2);
}

/// The parity classifier takes no value besides `-1` and `1`, is kept
/// by a step of two along either axis, and flips under a step of one.
pub proof fn lemma_parity_laws(x: int, y: int)
    ensures
        spec_parity(x, y) == -1 || spec_parity(x, y) == 1,
        spec_parity(x, y) == spec_parity(x + 2, y),
        spec_parity(x, y) == spec_parity(x, y + 2),
        spec_parity(x, y) != spec_parity(x + 1, y),
{
}

} // verus!
