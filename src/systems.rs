use vstd::prelude::*;

use crate::board::Board;
use crate::coordinates::Coordinates;

verus! {

/// Asks for the cell at these coordinates to be revealed.
#[derive(Debug, Clone, Copy, PartialEq, Eq, Structural)]
pub struct TileDiscoverEvent(pub Coordinates);

/// Asks for the flag on the cell at these coordinates to be toggled.
#[derive(Debug, Clone, Copy, PartialEq, Eq, Structural)]
pub struct TileMarkEvent(pub Coordinates);

/// A mine has been discovered: the game is lost.
#[derive(Debug, Clone, Copy, PartialEq, Eq, Structural)]
pub struct BombExplosionEvent;

/// Turns a pointer action into requests. `coordinates` is the cell under the
/// pointer, if any; a released left button asks to reveal it, a released right
/// button to toggle its flag. Nothing is asked for a cell outside the grid.
pub fn handle_input(
    board: &Board,
    coordinates: Option<Coordinates>,
    left_released: bool,
    right_released: bool,
) -> (r: (Option<TileDiscoverEvent>, Option<TileMarkEvent>))
    ensures
        r.0 == (match coordinates {
            Some(c) if left_released && board.tile_map.in_grid(c) => Some(TileDiscoverEvent(c)),
            _ => None,
        }),
        r.1 == (match coordinates {
            Some(c) if right_released && board.tile_map.in_grid(c) => Some(TileMarkEvent(c)),
            _ => None,
        }),
{
    match coordinates {
        Some(c) => {
            let in_grid = c.x < board.tile_map.width && c.y < board.tile_map.height;
            let discover = if left_released && in_grid {
                Some(TileDiscoverEvent(c))
            } else {
                None
            };
            let mark = if right_released && in_grid {
                Some(TileMarkEvent(c))
            } else {
                None
            };
            (discover, mark)
        },
        None => (None, None),
    }
}

/// Carries out a request to reveal a cell: returns the cells discovered, as
/// `Board::flood_discovery` does, and an explosion when the cell holds a mine and
/// carries no flag.
pub fn handle_discover_event(board: &mut Board, event: TileDiscoverEvent) -> (r: (
    Vec<Coordinates>,
    Option<BombExplosionEvent>,
))
    requires
        old(board).wf(),
    ensures
        final(board).wf(),
        r.0@.no_duplicates(),
        r.0@.to_set() == old(board).flood(event.0),
        final(board).discovered() == old(board).discovered().union(r.0@.to_set()),
        final(board).flagged() == old(board).flagged(),
        final(board).tile_map == old(board).tile_map,
        r.1 is Some <==> (old(board).tile_map.is_mine(event.0) && !old(board).flagged().contains(event.0)),
{
    let c = event.0;
    let explodes = !board.is_flag_at(&c) && board.tile_map.is_bomb_at(c);
    let discovered = board.flood_discovery(c);
    let explosion = if explodes {
        Some(BombExplosionEvent)
    } else {
        None
    };
    (discovered, explosion)
}

} // verus!
