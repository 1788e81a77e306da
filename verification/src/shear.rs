use vstd::prelude::*;

use crate::coord::Coord;
use crate::coord::spec_parity;
use crate::store::Tile;
use crate::store::TileStore;

verus! {

/// The two endpoints lie on a horizontal lattice axis.
pub open spec fn is_horizontal(o: Coord, e: Coord) -> bool {
    o.1 == e.1
}

/// The two endpoints lie on the first diagonal lattice axis.
pub open spec fn is_diag_a(o: Coord, e: Coord) -> bool {
    e.0 - o.0 == e.1 - o.1
}

/// The two endpoints lie on the second diagonal lattice axis.
pub open spec fn is_diag_b(o: Coord, e: Coord) -> bool {
    o.0 - e.0 == e.1 - o.1
}

/// A shear request is accepted when its endpoints share a parity and
/// lie on one of the three lattice axes.
pub open spec fn shear_accepted(o: Coord, e: Coord) -> bool {
    &&& spec_parity(o.0 as int, o.1 as int) == spec_parity(e.0 as int, e.1 as int)
    &&& (is_horizontal(o, e) || is_diag_a(o, e) || is_diag_b(o, e))
}

/// Whether cell `c` lies in the closed half-plane that an accepted
/// shear from `o` to `e` translates.  The axes are tried in the order
/// horizontal, first diagonal, second diagonal; `o == e` satisfies
/// all three and takes the horizontal branch.
pub open spec fn shear_selected(c: Coord, o: Coord, e: Coord) -> bool {
    let p = spec_parity(o.0 as int, o.1 as int);
    if is_horizontal(o, e) {
        c.1 * p >= o.1 * p
    } else if is_diag_a(o, e) {
        (c.0 - o.0) * p >= (c.1 - o.1) * p
    } else if is_diag_b(o, e) {
        (o.0 - c.0) * p >= (c.1 - o.1) * p
    } else {
        false
    }
}

/// The board after a shear from `o` to `e`: on an accepted request
/// every selected cell is re-keyed by the translation `e - o`, all
/// tiles and the entry order stay; a rejected request changes
/// nothing.  No collision check is made: a translated key may come to
/// coincide with an untouched one, and which tile then "wins" a later
/// lookup is left open by design.
pub open spec fn spec_shear(s: Seq<(Coord, Tile)>, o: Coord, e: Coord) -> Seq<(Coord, Tile)> {
    if shear_accepted(o, e) {
        s.map_values(
            |p: (Coord, Tile)|
                if shear_selected(p.0, o, e) {
                    (
                        Coord(
                            (p.0.0 + e.0 - o.0) as isize,
                            (p.0.1 + e.1 - o.1) as isize,
                        ),
                        p.1,
                    )
                } else {
                    p
                },
        )
    } else {
        s
    }
}

/// Machine-limit bound for a shear: every selected cell, once
/// translated, must still fit the coordinate word.
pub open spec fn shear_fits(s: Seq<(Coord, Tile)>, o: Coord, e: Coord) -> bool {
    shear_accepted(o, e) ==> forall|k: int|
        0 <= k < s.len() && shear_selected((#[trigger] s[k]).0, o, e) ==> isize::MIN <= s[k].0.0
            + e.0 - o.0 <= isize::MAX && isize::MIN <= s[k].0.1 + e.1 - o.1 <= isize::MAX
}

impl TileStore {
    /// Board-wide shear: translates the closed half-plane through
    /// `origin`, along the lattice axis on which `end` lies, so that
    /// `origin` lands on `end`.  A request whose endpoints differ in
    /// parity or lie on no axis is rejected: no change, no signal.
    /// An accepted request signals exactly once however many cells
    /// moved.
    pub fn shear(&mut self, origin: Coord, end: Coord) -> (signaled: bool)
        requires
            shear_fits(old(self)@, origin, end),
        ensures
            signaled == shear_accepted(origin, end),
            final(self)@ == spec_shear(old(self)@, origin, end),
            final(self)@.len() == old(self)@.len(),
    {
        if origin.parity() != end.parity() {
            return false;
        }
        let p = origin.parity();
        let o0 = origin.0 as i128;
        let o1 = origin.1 as i128;
        let e0 = end.0 as i128;
        let e1 = end.1 as i128;
        let horizontal = origin.1 == end.1;
        let diag_a = e0 - o0 == e1 - o1;
        let diag_b = o0 - e0 == e1 - o1;
        if !horizontal && !diag_a && !diag_b {
            return false;
        }
        let dx = e0 - o0;
        let dy = e1 - o1;
        let ghost orig = self@;
        let n = self.cells.len();
        let mut i: usize = 0;
        while i < n
            invariant
                i <= n,
                n == orig.len(),
                self@.len() == orig.len(),
                shear_accepted(origin, end),
                shear_fits(orig, origin, end),
                p == spec_parity(origin.0 as int, origin.1 as int),
                horizontal == is_horizontal(origin, end),
                diag_a == is_diag_a(origin, end),
                diag_b == is_diag_b(origin, end),
                o0 == origin.0 as int,
                o1 == origin.1 as int,
                e0 == end.0 as int,
                e1 == end.1 as int,
                dx == end.0 - origin.0,
                dy == end.1 - origin.1,
                forall|k: int| i <= k < orig.len() ==> self@[k] == orig[k],
                forall|k: int| 0 <= k < i ==> self@[k] == spec_shear(orig, origin, end)[k],
            decreases n - i,
        {
            let (c, t) = self.cells[i];
            let selected: bool = if horizontal {
                if p == 1 {
                    c.1 >= origin.1
                } else {
                    c.1 <= origin.1
                }
            } else if diag_a {
                let lhs = c.0 as i128 - o0;
                let rhs = c.1 as i128 - o1;
                if p == 1 {
                    lhs >= rhs
                } else {
                    lhs <= rhs
                }
            } else {
                let lhs = o0 - c.0 as i128;
                let rhs = c.1 as i128 - o1;
                if p == 1 {
                    lhs >= rhs
                } else {
                    lhs <= rhs
                }
            };
            proof {
                assert(self@[i as int] == orig[i as int]);
                assert(selected == shear_selected(c, origin, end));
            }
            if selected {
                let nx = c.0 as i128 + dx;
                let ny = c.1 as i128 + dy;
                self.cells[i] = (Coord(nx as isize, ny as isize), t);
            }
            i += 1;
        }
        proof {
            assert(self@ =~= spec_shear(orig, origin, end));
        }
        true
    }
}

/// A shear whose two endpoints coincide is always accepted on the
/// horizontal branch with a zero translation: the board is unchanged
/// and exactly one signal is owed.
pub proof fn lemma_shear_identity(s: Seq<(Coord, Tile)>, o: Coord)
    ensures
        shear_accepted(o, o),
        is_horizontal(o, o),
        spec_shear(s, o, o) == s,
{
    assert(spec_shear(s, o, o) =~= s);
}

} // verus!
