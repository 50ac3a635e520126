//! A saved game: the plain record that persistence collaborators store
//! and retrieve, keyed by session id and player name. The engine neither
//! defines the storage schema nor depends on it.

use vstd::prelude::*;

verus! {

/// One stored play session: an id, the player's name, and an opaque
/// serialized form of the grid snapshot.
#[derive(Debug)]
pub struct SudokuSession {
    pub id: i64,
    pub player_name: String,
    pub game_state: String,
}

} // verus!
