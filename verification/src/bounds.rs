use vstd::prelude::*;

use crate::coord::Coord;
use crate::store::Tile;

verus! {

/// Truncating division by four: rounds toward zero, as the host
/// machine's signed division does.
pub open spec fn tdiv4(a: int) -> int {
    if a >= 0 {
        a / 4
    } else {
        -((-a) / 4)
    }
}

/// Least x-coordinate of the keys of `s`; the greatest `isize` value
/// when `s` is empty, so that an empty fold keeps the sentinel.
pub open spec fn min_x(s: Seq<(Coord, Tile)>) -> int
    decreases s.len(),
{
    if s.len() == 0 {
        isize::MAX as int
    } else if min_x(s.drop_last()) <= s.last().0.0 as int {
        min_x(s.drop_last())
    } else {
        s.last().0.0 as int
    }
}

/// Greatest x-coordinate of the keys of `s`, or the least `isize`
/// value when `s` is empty.
pub open spec fn max_x(s: Seq<(Coord, Tile)>) -> int
    decreases s.len(),
{
    if s.len() == 0 {
        isize::MIN as int
    } else if max_x(s.drop_last()) >= s.last().0.0 as int {
        max_x(s.drop_last())
    } else {
        s.last().0.0 as int
    }
}

/// Least y-coordinate of the keys of `s`, or the greatest `isize`
/// value when `s` is empty.
pub open spec fn min_y(s: Seq<(Coord, Tile)>) -> int
    decreases s.len(),
{
    if s.len() == 0 {
        isize::MAX as int
    } else if min_y(s.drop_last()) <= s.last().0.1 as int {
        min_y(s.drop_last())
    } else {
        s.last().0.1 as int
    }
}

/// Greatest y-coordinate of the keys of `s`, or the least `isize`
/// value when `s` is empty.
pub open spec fn max_y(s: Seq<(Coord, Tile)>) -> int
    decreases s.len(),
{
    if s.len() == 0 {
        isize::MIN as int
    } else if max_y(s.drop_last()) >= s.last().0.1 as int {
        max_y(s.drop_last())
    } else {
        s.last().0.1 as int
    }
}

/// x-component of the recentering shift of `s`: the midpoint of the
/// x-range, forced to an even value by dividing by four (truncating)
/// before the final doubling, so that cell parity is kept.
pub open spec fn center_x(s: Seq<(Coord, Tile)>) -> int {
    tdiv4(min_x(s) + max_x(s)) * 2
}

/// y-component of the recentering shift of `s`.
pub open spec fn center_y(s: Seq<(Coord, Tile)>) -> int {
    tdiv4(min_y(s) + max_y(s)) * 2
}

/// `s` with the recentering shift subtracted from every key; tiles
/// and order are untouched.
pub open spec fn spec_recenter(s: Seq<(Coord, Tile)>) -> Seq<(Coord, Tile)> {
    s.map_values(
        |p: (Coord, Tile)|
            (Coord((p.0.0 - center_x(s)) as isize, (p.0.1 - center_y(s)) as isize), p.1),
    )
}

/// Both components of every key of `s`, when doubled, fit the machine
/// word; under this bound the recentering arithmetic cannot overflow.
pub open spec fn keys_half_range(s: Seq<(Coord, Tile)>) -> bool {
    forall|k: int|
        0 <= k < s.len() ==> isize::MIN <= 2 * (#[trigger] s[k].0).0 && 2 * s[k].0.0 <= isize::MAX
            && isize::MIN <= 2 * s[k].0.1 && 2 * s[k].0.1 <= isize::MAX
}

/// `s` with `(dx, dy)` subtracted from every key.
pub open spec fn translate(s: Seq<(Coord, Tile)>, dx: int, dy: int) -> Seq<(Coord, Tile)> {
    s.map_values(|p: (Coord, Tile)| (Coord((p.0.0 - dx) as isize, (p.0.1 - dy) as isize), p.1))
}

/// Truncating division by four leaves a remainder of magnitude at
/// most three, on the side of the dividend's sign.
proof fn lemma_tdiv4_residue(a: int)
    ensures
        a >= 0 ==> 0 <= a - 4 * tdiv4(a) <= 3,
        a < 0 ==> -3 <= a - 4 * tdiv4(a) <= 0,
        -3 <= a <= 3 ==> tdiv4(a) == 0,
{
}

/// Subtracting one shift from every key moves all four extrema by
/// exactly that shift, provided the shifted keys stay in range.
proof fn lemma_extrema_translate(s: Seq<(Coord, Tile)>, dx: int, dy: int)
    requires
        s.len() > 0,
        forall|k: int|
            0 <= k < s.len() ==> isize::MIN <= (#[trigger] s[k].0).0 - dx <= isize::MAX
                && isize::MIN <= s[k].0.1 - dy <= isize::MAX,
    ensures
        min_x(translate(s, dx, dy)) == min_x(s) - dx,
        max_x(translate(s, dx, dy)) == max_x(s) - dx,
        min_y(translate(s, dx, dy)) == min_y(s) - dy,
        max_y(translate(s, dx, dy)) == max_y(s) - dy,
    decreases s.len(),
{
    let t = translate(s, dx, dy);
    assert(t.last() == (Coord((s.last().0.0 - dx) as isize, (s.last().0.1 - dy) as isize),
        s.last().1));
    lemma_extrema(s);
    if s.len() == 1 {
        assert(t.drop_last() =~= translate(s.drop_last(), dx, dy));
        assert(t.drop_last().len() == 0);
        assert(min_x(t.drop_last()) == isize::MAX as int);
        assert(max_x(t.drop_last()) == isize::MIN as int);
        assert(min_y(t.drop_last()) == isize::MAX as int);
        assert(max_y(t.drop_last()) == isize::MIN as int);
        assert(min_x(s.drop_last()) == isize::MAX as int);
        assert(max_x(s.drop_last()) == isize::MIN as int);
        assert(min_y(s.drop_last()) == isize::MAX as int);
        assert(max_y(s.drop_last()) == isize::MIN as int);
        assert(min_x(t) == t.last().0.0 as int);
        assert(max_x(t) == t.last().0.0 as int);
        assert(min_y(t) == t.last().0.1 as int);
        assert(max_y(t) == t.last().0.1 as int);
    } else {
        assert forall|k: int| 0 <= k < s.len() - 1 implies s.drop_last()[k] == s[k] by {}
        lemma_extrema_translate(s.drop_last(), dx, dy);
        assert(t.drop_last() =~= translate(s.drop_last(), dx, dy));
    }
}

/// Recentering is idempotent: recentering an already recentered board
/// leaves it unchanged, because the second shift computes to zero.
pub proof fn lemma_recenter_idempotent(s: Seq<(Coord, Tile)>)
    requires
        keys_half_range(s),
    ensures
        spec_recenter(spec_recenter(s)) == spec_recenter(s),
{
    if s.len() == 0 {
        assert(spec_recenter(s) =~= s);
        assert(spec_recenter(spec_recenter(s)) =~= s);
    } else {
        lemma_extrema(s);
        let sumx = min_x(s) + max_x(s);
        let sumy = min_y(s) + max_y(s);
        let cx = center_x(s);
        let cy = center_y(s);
        lemma_tdiv4_residue(sumx);
        lemma_tdiv4_residue(sumy);
        let r = spec_recenter(s);
        assert(r =~= translate(s, cx, cy));
        lemma_extrema_translate(s, cx, cy);
        assert(min_x(r) + max_x(r) == sumx - 2 * cx);
        assert(min_y(r) + max_y(r) == sumy - 2 * cy);
        assert(sumx - 2 * cx == sumx - 4 * tdiv4(sumx));
        lemma_tdiv4_residue(sumx - 4 * tdiv4(sumx));
        lemma_tdiv4_residue(sumy - 4 * tdiv4(sumy));
        assert(center_x(r) == 0);
        assert(center_y(r) == 0);
        assert(spec_recenter(r) =~= r);
    }
}

/// For a non-empty sequence, each extremum lies within the keys:
/// it bounds every key on its side and some key attains it.
pub proof fn lemma_extrema(s: Seq<(Coord, Tile)>)
    requires
        s.len() > 0,
    ensures
        forall|k: int|
            0 <= k < s.len() ==> min_x(s) <= #[trigger] s[k].0.0 && s[k].0.0 <= max_x(s) && min_y(
                s,
            ) <= s[k].0.1 && s[k].0.1 <= max_y(s),
        exists|k: int| 0 <= k < s.len() && #[trigger] s[k].0.0 == min_x(s),
        exists|k: int| 0 <= k < s.len() && #[trigger] s[k].0.0 == max_x(s),
        exists|k: int| 0 <= k < s.len() && #[trigger] s[k].0.1 == min_y(s),
        exists|k: int| 0 <= k < s.len() && #[trigger] s[k].0.1 == max_y(s),
    decreases s.len(),
{
    if s.len() > 1 {
        lemma_extrema(s.drop_last());
        assert(s.last() == s[s.len() - 1]);
        let t = s.drop_last();
        assert forall|k: int|
            0 <= k < s.len() implies min_x(s) <= #[trigger] s[k].0.0 && s[k].0.0 <= max_x(s)
            && min_y(s) <= s[k].0.1 && s[k].0.1 <= max_y(s) by {
            if k < s.len() - 1 {
                assert(t[k] == s[k]);
                assert(min_x(t) <= t[k].0.0 && t[k].0.0 <= max_x(t));
                assert(min_y(t) <= t[k].0.1 && t[k].0.1 <= max_y(t));
            }
        }
        if min_x(t) <= s.last().0.0 {
            let k = choose|k: int| 0 <= k < t.len() && #[trigger] t[k].0.0 == min_x(t);
            assert(s[k].0.0 == min_x(s));
        } else {
            assert(s[s.len() - 1].0.0 == min_x(s));
        }
        if max_x(t) >= s.last().0.0 {
            let k = choose|k: int| 0 <= k < t.len() && #[trigger] t[k].0.0 == max_x(t);
            assert(s[k].0.0 == max_x(s));
        } else {
            assert(s[s.len() - 1].0.0 == max_x(s));
        }
        if min_y(t) <= s.last().0.1 {
            let k = choose|k: int| 0 <= k < t.len() && #[trigger] t[k].0.1 == min_y(t);
            assert(s[k].0.1 == min_y(s));
        } else {
            assert(s[s.len() - 1].0.1 == min_y(s));
        }
        if max_y(t) >= s.last().0.1 {
            let k = choose|k: int| 0 <= k < t.len() && #[trigger] t[k].0.1 == max_y(t);
            assert(s[k].0.1 == max_y(s));
        } else {
            assert(s[s.len() - 1].0.1 == max_y(s));
        }
    } else {
        assert(s.last() == s[0]);
        assert(s.drop_last().len() == 0);
        assert(min_x(s.drop_last()) == isize::MAX as int);
        assert(max_x(s.drop_last()) == isize::MIN as int);
        assert(min_y(s.drop_last()) == isize::MAX as int);
        assert(max_y(s.drop_last()) == isize::MIN as int);
        assert(s[0].0.0 == min_x(s) && s[0].0.0 == max_x(s));
        assert(s[0].0.1 == min_y(s) && s[0].0.1 == max_y(s));
    }
}

} // verus!
