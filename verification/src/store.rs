use vstd::prelude::*;

use crate::bounds::center_x;
use crate::bounds::center_y;
use crate::bounds::max_x;
use crate::bounds::max_y;
use crate::bounds::min_x;
use crate::bounds::min_y;
use crate::bounds::spec_recenter;
use crate::bounds::lemma_extrema;
use crate::coord::Coord;

verus! {

/// Bound under which a coordinate component takes part in the
/// bounding-box arithmetic without overflow: twice the component must
/// fit the machine word.
pub open spec fn coord_half_range(c: Coord) -> bool {
    &&& isize::MIN <= 2 * c.0
    &&& 2 * c.0 <= isize::MAX
    &&& isize::MIN <= 2 * c.1
    &&& 2 * c.1 <= isize::MAX
}

/// A game token: blue or red, each carrying a "promoted" flag.
#[derive(Clone, Copy, PartialEq, Eq, Debug)]
pub enum Piece {
    Blue(bool),
    Red(bool),
}

/// A board cell, optionally occupied by a piece.
#[derive(Clone, Copy, PartialEq, Eq, Debug)]
pub struct Tile {
    pub piece: Option<Piece>,
}

/// Index of the first entry of `s` whose coordinate is `c`, or `-1`
/// when no entry has it.
pub open spec fn first_index(s: Seq<(Coord, Tile)>, c: Coord) -> int
    decreases s.len(),
{
    if s.len() == 0 {
        -1
    } else if s[0].0 == c {
        0
    } else if first_index(s.skip(1), c) == -1 {
        -1
    } else {
        1 + first_index(s.skip(1), c)
    }
}

/// Whether some entry of `s` has coordinate `c`.
pub open spec fn contains_coord(s: Seq<(Coord, Tile)>, c: Coord) -> bool {
    first_index(s, c) >= 0
}

/// One when the tile holds a piece, zero when it is empty.
pub open spec fn tile_occ(t: Tile) -> int {
    if t.piece is Some {
        1
    } else {
        0
    }
}

/// Number of occupied cells of `s`: the board's total piece count.
pub open spec fn count_pieces(s: Seq<(Coord, Tile)>) -> int
    decreases s.len(),
{
    if s.len() == 0 {
        0
    } else {
        tile_occ(s[0].1) + count_pieces(s.skip(1))
    }
}

/// The board after a move from `o` to `e`: when both coordinates are
/// present their tiles are exchanged, keys and order untouched;
/// otherwise nothing changes.
pub open spec fn spec_move(s: Seq<(Coord, Tile)>, o: Coord, e: Coord) -> Seq<(Coord, Tile)> {
    let i = first_index(s, o);
    let j = first_index(s, e);
    if i >= 0 && j >= 0 {
        s.update(i, (s[i].0, s[j].1)).update(j, (s[j].0, s[i].1))
    } else {
        s
    }
}

/// The board after setting the occupant of `c`: when the coordinate
/// is present its tile is overwritten; otherwise nothing changes.
pub open spec fn spec_set(s: Seq<(Coord, Tile)>, c: Coord, piece: Option<Piece>) -> Seq<
    (Coord, Tile),
> {
    let i = first_index(s, c);
    if i >= 0 {
        s.update(i, (c, Tile { piece }))
    } else {
        s
    }
}

/// The keyed collection of board cells: each entry pairs a coordinate
/// with the tile stored there.  Coordinates are unique by construction
/// (`wf`); the order of entries carries no meaning.
pub struct TileStore {
    pub cells: Vec<(Coord, Tile)>,
}

impl View for TileStore {
    type V = Seq<(Coord, Tile)>;

    open spec fn view(&self) -> Seq<(Coord, Tile)> {
        self.cells@
    }
}

impl TileStore {
    /// Well-formedness: no coordinate is stored twice.
    pub open spec fn wf(&self) -> bool {
        forall|i: int, j: int|
            0 <= i < self@.len() && 0 <= j < self@.len() && i != j ==> self@[i].0 != self@[j].0
    }

    /// An empty board.
    pub fn new() -> (r: TileStore)
        ensures
            r@ == Seq::<(Coord, Tile)>::empty(),
            r.wf(),
    {
        let r = TileStore { cells: Vec::new() };
        proof {
            assert(r@ =~= Seq::<(Coord, Tile)>::empty());
        }
        r
    }

    /// Number of stored cells.
    pub fn len(&self) -> (n: usize)
        ensures
            n == self@.len(),
    {
        self.cells.len()
    }

    /// The cell at position `i` of the iteration order.
    pub fn cell_at(&self, i: usize) -> (r: (Coord, Tile))
        requires
            i < self@.len(),
        ensures
            r == self@[i as int],
    {
        self.cells[i]
    }

    /// Adds a cell, unless its coordinate is already present; keeps
    /// uniqueness of keys.
    pub fn add_cell(&mut self, c: Coord, t: Tile) -> (added: bool)
        ensures
            added == !contains_coord(old(self)@, c),
            added ==> final(self)@ == old(self)@.push((c, t)),
            !added ==> final(self)@ == old(self)@,
            old(self).wf() ==> final(self).wf(),
    {
        let found = self.find_coord(c);
        match found {
            Option::Some(_) => false,
            Option::None => {
                self.cells.push((c, t));
                proof {
                    assert forall|i: int, j: int|
                        0 <= i < self@.len() && 0 <= j < self@.len() && i != j && old(self).wf()
                        implies self@[i].0 != self@[j].0 by {
                        if i == self@.len() - 1 {
                            lemma_first_index_not_found(old(self)@, c, j);
                        } else if j == self@.len() - 1 {
                            lemma_first_index_not_found(old(self)@, c, i);
                        }
                    }
                }
                true
            },
        }
    }

    /// Position of the first (with unique keys: the only) entry whose
    /// coordinate is `c`.
    pub fn find_coord(&self, c: Coord) -> (r: Option<usize>)
        ensures
            r matches Some(i) ==> i == first_index(self@, c) && i < self@.len() && self@[
                i as int].0 == c,
            r is None ==> first_index(self@, c) == -1,
    {
        let n = self.cells.len();
        let mut i: usize = 0;
        proof {
            lemma_first_index_bounds(self@, c);
        }
        while i < n
            invariant
                0 <= i <= n,
                n == self@.len(),
                first_index(self@, c) == -1 || first_index(self@, c) >= i,
            decreases n - i,
        {
            if self.cells[i].0 == c {
                proof {
                    lemma_first_index_bounds(self@, c);
                    lemma_first_index_first(self@, c, i as int);
                }
                return Some(i);
            }
            proof {
                lemma_first_index_skip_one(self@, c, i as int);
            }
            i += 1;
        }
        proof {
            lemma_first_index_bounds(self@, c);
        }
        None
    }

    /// Tile at coordinate `c`, if the coordinate exists on the board.
    pub fn get(&self, c: Coord) -> (r: Option<Tile>)
        ensures
            contains_coord(self@, c) ==> r == Some(self@[first_index(self@, c)].1),
            !contains_coord(self@, c) ==> r is None,
    {
        match self.find_coord(c) {
            Some(i) => Some(self.cells[i].1),
            None => None,
        }
    }

    /// Overwrites the piece of the cell at `c`.  A missing coordinate
    /// is a silent no-op by design, not an error; the result says
    /// whether a cell was written (and so whether a re-render is owed).
    pub fn set_piece(&mut self, c: Coord, piece: Option<Piece>) -> (signaled: bool)
        ensures
            signaled == contains_coord(old(self)@, c),
            final(self)@ == spec_set(old(self)@, c, piece),
            old(self).wf() ==> final(self).wf(),
    {
        match self.find_coord(c) {
            Some(i) => {
                self.cells[i] = (c, Tile { piece });
                proof {
                    assert(self@ =~= old(self)@.update(first_index(old(self)@, c), (c, Tile { piece })));
                }
                true
            },
            None => false,
        }
    }
    /// Exchanges the occupants of `origin` and `end`, the empty case
    /// included.  When either coordinate is missing the board is left
    /// alone; a signal is owed in every case — a documented quirk of
    /// the move operation, asymmetric with `set_piece`.  The total
    /// piece count over the board is conserved.
    pub fn move_piece(&mut self, origin: Coord, end: Coord) -> (signaled: bool)
        ensures
            signaled,
            final(self)@ == spec_move(old(self)@, origin, end),
            final(self)@.len() == old(self)@.len(),
            count_pieces(final(self)@) == count_pieces(old(self)@),
            old(self).wf() ==> final(self).wf(),
    {
        let oi = self.find_coord(origin);
        let oj = self.find_coord(end);
        proof {
            lemma_first_index_bounds(self@, origin);
            lemma_first_index_bounds(self@, end);
        }
        if let (Some(i), Some(j)) = (oi, oj) {
            let ti = self.cells[i].1;
            let tj = self.cells[j].1;
            let ghost before = self@;
            self.cells[i] = (origin, tj);
            self.cells[j] = (end, ti);
            proof {
                assert(before.update(i as int, (before[i as int].0, before[j as int].1))[j as int]
                    == before[j as int]) by {
                    if i != j {
                    }
                }
                assert(self@ =~= spec_move(before, origin, end));
                lemma_count_update(before, i as int, (origin, tj));
                lemma_count_update(
                    before.update(i as int, (origin, tj)),
                    j as int,
                    (end, ti),
                );
            }
        } else {
            proof {
                assert(self@ =~= spec_move(self@, origin, end));
            }
        }
        true
    }

    /// Bounding box of the stored coordinates, as
    /// `((min x, max x), (min y, max y))`.  An empty board keeps the
    /// fold's sentinels: the extreme machine values.
    pub fn bounding_box(&self) -> (r: ((isize, isize), (isize, isize)))
        ensures
            r.0.0 == min_x(self@),
            r.0.1 == max_x(self@),
            r.1.0 == min_y(self@),
            r.1.1 == max_y(self@),
    {
        let n = self.cells.len();
        let mut minx: isize = isize::MAX;
        let mut maxx: isize = isize::MIN;
        let mut miny: isize = isize::MAX;
        let mut maxy: isize = isize::MIN;
        let mut i: usize = 0;
        while i < n
            invariant
                i <= n,
                n == self@.len(),
                minx == min_x(self@.take(i as int)),
                maxx == max_x(self@.take(i as int)),
                miny == min_y(self@.take(i as int)),
                maxy == max_y(self@.take(i as int)),
            decreases n - i,
        {
            proof {
                assert(self@.take(i + 1).drop_last() =~= self@.take(i as int));
                assert(self@.take(i + 1).last() == self@[i as int]);
            }
            let (c, _) = self.cells[i];
            if c.0 < minx {
                minx = c.0;
            }
            if c.0 > maxx {
                maxx = c.0;
            }
            if c.1 < miny {
                miny = c.1;
            }
            if c.1 > maxy {
                maxy = c.1;
            }
            i += 1;
        }
        proof {
            assert(self@.take(n as int) =~= self@);
        }
        ((minx, maxx), (miny, maxy))
    }

    /// Shifts every key so that the board is centred near the origin:
    /// the midpoint of the bounding box, forced even (truncating
    /// division by four, then doubling) so that each cell keeps its
    /// parity, is subtracted from every stored coordinate.
    pub fn recenter(&mut self)
        requires
            forall|k: int| 0 <= k < old(self)@.len() ==> coord_half_range(#[trigger] old(self)@[k].0),
        ensures
            final(self)@ == spec_recenter(old(self)@),
            old(self).wf() ==> final(self).wf(),
    {
        let ((minx, maxx), (miny, maxy)) = self.bounding_box();
        proof {
            if self@.len() > 0 {
                lemma_extrema(self@);
            }
        }
        let cx: isize = (minx + maxx) / 4 * 2;
        let cy: isize = (miny + maxy) / 4 * 2;
        proof {
            assert(cx == center_x(self@));
            assert(cy == center_y(self@));
        }
        let ghost orig = self@;
        let n = self.cells.len();
        let mut i: usize = 0;
        while i < n
            invariant
                i <= n,
                n == orig.len(),
                self@.len() == orig.len(),
                cx == center_x(orig),
                cy == center_y(orig),
                forall|k: int| 0 <= k < orig.len() ==> coord_half_range(#[trigger] orig[k].0),
                forall|k: int| i <= k < orig.len() ==> self@[k] == orig[k],
                forall|k: int| 0 <= k < i ==> self@[k] == spec_recenter(orig)[k],
                isize::MIN <= 2 * cx <= isize::MAX,
                isize::MIN <= 2 * cy <= isize::MAX,
            decreases n - i,
        {
            let (c, t) = self.cells[i];
            proof {
                assert(self@[i as int] == orig[i as int]);
                assert(coord_half_range(orig[i as int].0));
            }
            self.cells[i] = (Coord(c.0 - cx, c.1 - cy), t);
            i += 1;
        }
        proof {
            assert(self@ =~= spec_recenter(orig));
        }
    }
}

/// `first_index` returns `-1` or a valid position holding `c`.
pub proof fn lemma_first_index_bounds(s: Seq<(Coord, Tile)>, c: Coord)
    ensures
        first_index(s, c) == -1 || (0 <= first_index(s, c) < s.len() && s[first_index(s, c)].0
            == c),
    decreases s.len(),
{
    if s.len() > 0 && s[0].0 != c {
        lemma_first_index_bounds(s.skip(1), c);
    }
}

/// No entry before `first_index` holds `c`; in particular, if position
/// `i` holds `c`, then `first_index` is at most `i`.
pub proof fn lemma_first_index_first(s: Seq<(Coord, Tile)>, c: Coord, i: int)
    requires
        0 <= i < s.len(),
        s[i].0 == c,
    ensures
        0 <= first_index(s, c) <= i,
    decreases s.len(),
{
    if s[0].0 != c {
        lemma_first_index_first(s.skip(1), c, i - 1);
    }
}

/// When `c` is absent, no position holds it.
pub proof fn lemma_first_index_not_found(s: Seq<(Coord, Tile)>, c: Coord, i: int)
    requires
        first_index(s, c) == -1,
        0 <= i < s.len(),
    ensures
        s[i].0 != c,
    decreases s.len(),
{
    lemma_first_index_bounds(s.skip(1), c);
    if i > 0 {
        lemma_first_index_not_found(s.skip(1), c, i - 1);
    }
}

/// Overwriting one entry changes the piece count by the difference
/// of the occupancies of the new and the old tile.
pub proof fn lemma_count_update(s: Seq<(Coord, Tile)>, i: int, v: (Coord, Tile))
    requires
        0 <= i < s.len(),
    ensures
        count_pieces(s.update(i, v)) == count_pieces(s) - tile_occ(s[i].1) + tile_occ(v.1),
    decreases s.len(),
{
    if i == 0 {
        assert(s.update(0, v).skip(1) =~= s.skip(1));
    } else {
        assert(s.update(i, v).skip(1) =~= s.skip(1).update(i - 1, v));
        assert(s.update(i, v)[0] == s[0]);
        lemma_count_update(s.skip(1), i - 1, v);
    }
}

/// Appending an entry leaves the position of an already present
/// coordinate alone; an absent one is found exactly when the new
/// entry carries it.
pub proof fn lemma_first_index_push(s: Seq<(Coord, Tile)>, p: (Coord, Tile), c: Coord)
    ensures
        first_index(s, c) >= 0 ==> first_index(s.push(p), c) == first_index(s, c),
        first_index(s, c) == -1 && p.0 == c ==> first_index(s.push(p), c) == s.len(),
        first_index(s, c) == -1 && p.0 != c ==> first_index(s.push(p), c) == -1,
    decreases s.len(),
{
    lemma_first_index_bounds(s, c);
    if s.len() == 0 {
        assert(s.push(p).skip(1) =~= Seq::<(Coord, Tile)>::empty());
        assert(first_index(Seq::<(Coord, Tile)>::empty(), c) == -1);
    } else {
        assert(s.push(p).skip(1) =~= s.skip(1).push(p));
        assert(s.push(p)[0] == s[0]);
        lemma_first_index_push(s.skip(1), p, c);
        lemma_first_index_bounds(s.skip(1), c);
    }
}

/// Relates `first_index` to a scan that has ruled out position `i`.
proof fn lemma_first_index_skip_one(s: Seq<(Coord, Tile)>, c: Coord, i: int)
    requires
        0 <= i < s.len(),
        s[i].0 != c,
        first_index(s, c) == -1 || first_index(s, c) >= i,
    ensures
        first_index(s, c) == -1 || first_index(s, c) >= i + 1,
{
    lemma_first_index_bounds(s, c);
}

} // verus!
