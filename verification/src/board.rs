use vstd::prelude::*;

use crate::coord::Coord;
use crate::coord::spec_parity;
use crate::store::Piece;
use crate::store::Tile;
use crate::store::TileStore;
use crate::store::contains_coord;
use crate::store::lemma_first_index_push;
use crate::store::lemma_first_index_bounds;

verus! {

/// Greatest column magnitude of row `y` of the starting board:
/// `5 - min(|y|, |y + 1|)`, a hexagon-like trapezoidal region.
pub open spec fn initial_bound(y: int) -> int {
    let a = if y >= 0 {
        y
    } else {
        -y
    };
    let b = if y + 1 >= 0 {
        y + 1
    } else {
        -(y + 1)
    };
    if a <= b {
        5 - a
    } else {
        5 - b
    }
}

/// Whether cell `(x, y)` belongs to the starting board.
pub open spec fn in_initial_region(x: int, y: int) -> bool {
    &&& -3 <= y < 3
    &&& -initial_bound(y) <= x <= initial_bound(y)
}

/// Starting occupant of cell `(x, y)`: blue pieces fill the two back
/// rows on cells of one orientation, red pieces fill two rows on the
/// other, and the piece in the middle column of each filled row is
/// promoted.
pub open spec fn initial_piece(x: int, y: int) -> Option<Piece> {
    if spec_parity(x, y) == 1 && (y == -2 || y == -3) {
        Some(Piece::Blue(x == 0))
    } else if spec_parity(x, y) == -1 && (y == 1 || y == 2) {
        Some(Piece::Red(x == 0))
    } else {
        None
    }
}

/// Entries laid down before reaching column `x` of row `y`, walking
/// the starting region row-major.
pub open spec fn placed_before(c: Coord, y: int, x: int) -> bool {
    &&& in_initial_region(c.0 as int, c.1 as int)
    &&& (c.1 < y || (c.1 == y && c.0 < x))
}

/// Builds the starting board: the trapezoidal region of rows `-3`
/// through `2`, each cell seeded by `initial_piece`.
pub fn create_board() -> (r: TileStore)
    ensures
        r.wf(),
        forall|k: int|
            0 <= k < r@.len() ==> in_initial_region(
                (#[trigger] r@[k]).0.0 as int,
                r@[k].0.1 as int,
            ) && r@[k].1 == (Tile { piece: initial_piece(r@[k].0.0 as int, r@[k].0.1 as int) }),
        forall|c: Coord|
            in_initial_region(c.0 as int, c.1 as int) ==> #[trigger] contains_coord(r@, c),
{
    let mut store = TileStore::new();
    let mut y: isize = -3;
    while y < 3
        invariant
            -3 <= y <= 3,
            store.wf(),
            forall|k: int|
                0 <= k < store@.len() ==> placed_before((#[trigger] store@[k]).0, y as int, -6)
                    && store@[k].1 == (Tile {
                    piece: initial_piece(store@[k].0.0 as int, store@[k].0.1 as int),
                }),
            forall|c: Coord| placed_before(c, y as int, -6) ==> #[trigger] contains_coord(store@, c),
        decreases 3 - y,
    {
        let ya: isize = if y >= 0 {
            y
        } else {
            -y
        };
        let y1a: isize = if y + 1 >= 0 {
            y + 1
        } else {
            -(y + 1)
        };
        let m: isize = if ya <= y1a {
            ya
        } else {
            y1a
        };
        let b: isize = 5 - m;
        proof {
            assert(b == initial_bound(y as int));
        }
        let mut x: isize = -b;
        while x <= b
            invariant
                -3 <= y < 3,
                2 <= b <= 5,
                b == initial_bound(y as int),
                -b <= x <= b + 1,
                store.wf(),
                forall|k: int|
                    0 <= k < store@.len() ==> placed_before(
                        (#[trigger] store@[k]).0,
                        y as int,
                        x as int,
                    ) && store@[k].1 == (Tile {
                        piece: initial_piece(store@[k].0.0 as int, store@[k].0.1 as int),
                    }),
                forall|c: Coord|
                    placed_before(c, y as int, x as int) ==> #[trigger] contains_coord(store@, c),
            decreases b + 1 - x,
        {
            let here = Coord(x, y);
            let p = here.parity();
            let piece: Option<Piece> = if p == 1 && (y == -2 || y == -3) {
                Some(Piece::Blue(x == 0))
            } else if p == -1 && (y == 1 || y == 2) {
                Some(Piece::Red(x == 0))
            } else {
                None
            };
            proof {
                assert(piece == initial_piece(x as int, y as int));
            }
            let ghost before = store@;
            let entry = (here, Tile { piece });
            store.cells.push(entry);
            proof {
                assert(store@ == before.push(entry));
                assert forall|i: int, j: int|
                    0 <= i < store@.len() && 0 <= j < store@.len() && i != j implies store@[i].0
                    != store@[j].0 by {
                    if i == store@.len() - 1 {
                        assert(placed_before(before[j].0, y as int, x as int));
                    } else if j == store@.len() - 1 {
                        assert(placed_before(before[i].0, y as int, x as int));
                    }
                }
                assert forall|c: Coord|
                    placed_before(c, y as int, x as int + 1) implies #[trigger] contains_coord(
                    store@,
                    c,
                ) by {
                    lemma_first_index_push(before, entry, c);
                    lemma_first_index_bounds(before, c);
                    if placed_before(c, y as int, x as int) {
                        assert(contains_coord(before, c));
                    } else {
                        assert(c == here);
                    }
                }
            }
            x += 1;
        }
        proof {
            assert forall|c: Coord|
                placed_before(c, y as int + 1, -6) implies #[trigger] contains_coord(store@, c) by {
                assert(placed_before(c, y as int, b as int + 1));
            }
            assert forall|k: int|
                0 <= k < store@.len() implies placed_before(
                (#[trigger] store@[k]).0,
                y as int + 1,
                -6,
            ) by {
                assert(placed_before(store@[k].0, y as int, b as int + 1));
            }
        }
        y += 1;
    }
    proof {
        assert forall|c: Coord|
            in_initial_region(c.0 as int, c.1 as int) implies #[trigger] contains_coord(store@, c)
            by {
            assert(placed_before(c, 3, -6));
        }
    }
    store
}

} // verus!
