use vstd::prelude::*;

use crate::coord::Coord;
use crate::shear::shear_fits;
use crate::shear::spec_shear;
use crate::shear::shear_accepted;
use crate::store::Piece;
use crate::store::Tile;
use crate::store::TileStore;
use crate::store::contains_coord;
use crate::store::spec_move;
use crate::store::spec_set;

verus! {

/// A typed action, parsed from one line of text and applied to the
/// board in queue order.
#[derive(Clone, Copy, PartialEq, Eq, Debug)]
pub enum ActionEvent {
    Move(Coord, Coord),
    Shear(Coord, Coord),
    SetPiece(Coord, Option<Piece>),
}

/// The board after one action.
pub open spec fn spec_apply(s: Seq<(Coord, Tile)>, a: ActionEvent) -> Seq<(Coord, Tile)> {
    match a {
        ActionEvent::Move(o, e) => spec_move(s, o, e),
        ActionEvent::Shear(o, e) => spec_shear(s, o, e),
        ActionEvent::SetPiece(c, p) => spec_set(s, c, p),
    }
}

/// Whether one action asks for a re-render: a move always does, a
/// shear only when accepted, a set only when its coordinate exists.
pub open spec fn spec_apply_signal(s: Seq<(Coord, Tile)>, a: ActionEvent) -> bool {
    match a {
        ActionEvent::Move(o, e) => true,
        ActionEvent::Shear(o, e) => shear_accepted(o, e),
        ActionEvent::SetPiece(c, p) => contains_coord(s, c),
    }
}

/// Machine-limit bound for one action on board `s`: only a shear can
/// move keys, so only a shear is constrained.
pub open spec fn action_fits(s: Seq<(Coord, Tile)>, a: ActionEvent) -> bool {
    match a {
        ActionEvent::Shear(o, e) => shear_fits(s, o, e),
        _ => true,
    }
}

/// The board after a queue of actions, applied in order.
pub open spec fn spec_apply_all(s: Seq<(Coord, Tile)>, acts: Seq<ActionEvent>) -> Seq<
    (Coord, Tile),
>
    decreases acts.len(),
{
    if acts.len() == 0 {
        s
    } else {
        spec_apply_all(spec_apply(s, acts[0]), acts.skip(1))
    }
}

/// Whether some action of the queue asks for a re-render, each judged
/// against the board state it meets.
pub open spec fn spec_signal_all(s: Seq<(Coord, Tile)>, acts: Seq<ActionEvent>) -> bool
    decreases acts.len(),
{
    if acts.len() == 0 {
        false
    } else {
        spec_apply_signal(s, acts[0]) || spec_signal_all(spec_apply(s, acts[0]), acts.skip(1))
    }
}

/// Machine-limit bound for a queue: each action must fit the board
/// state it meets.
pub open spec fn all_steps_fit(s: Seq<(Coord, Tile)>, acts: Seq<ActionEvent>) -> bool
    decreases acts.len(),
{
    if acts.len() == 0 {
        true
    } else {
        action_fits(s, acts[0]) && all_steps_fit(spec_apply(s, acts[0]), acts.skip(1))
    }
}

/// Applies one action to the board and reports whether a re-render
/// is owed.
pub fn apply_action(store: &mut TileStore, a: ActionEvent) -> (signaled: bool)
    requires
        action_fits(old(store)@, a),
    ensures
        final(store)@ == spec_apply(old(store)@, a),
        signaled == spec_apply_signal(old(store)@, a),
{
    match a {
        ActionEvent::Move(o, e) => store.move_piece(o, e),
        ActionEvent::Shear(o, e) => store.shear(o, e),
        ActionEvent::SetPiece(c, p) => store.set_piece(c, p),
    }
}

/// Drains one tick's action queue in order and reports whether any
/// action asked for a re-render — the per-tick update flag, raised at
/// most once however many actions mutated the board.
pub fn apply_actions(store: &mut TileStore, acts: &Vec<ActionEvent>) -> (signaled: bool)
    requires
        all_steps_fit(old(store)@, acts@),
    ensures
        final(store)@ == spec_apply_all(old(store)@, acts@),
        signaled == spec_signal_all(old(store)@, acts@),
{
    let ghost orig = store@;
    let n = acts.len();
    let mut i: usize = 0;
    let mut signaled = false;
    proof {
        assert(acts@.skip(0) =~= acts@);
    }
    while i < n
        invariant
            i <= n,
            n == acts@.len(),
            all_steps_fit(store@, acts@.skip(i as int)),
            spec_apply_all(orig, acts@) == spec_apply_all(store@, acts@.skip(i as int)),
            spec_signal_all(orig, acts@) == (signaled || spec_signal_all(
                store@,
                acts@.skip(i as int),
            )),
        decreases n - i,
    {
        proof {
            assert(acts@.skip(i as int)[0] == acts@[i as int]);
            assert(acts@.skip(i as int).skip(1) =~= acts@.skip(i as int + 1));
        }
        let s = apply_action(store, acts[i]);
        signaled = signaled || s;
        i += 1;
    }
    proof {
        assert(acts@.skip(n as int) =~= Seq::<ActionEvent>::empty());
    }
    signaled
}

} // verus!
