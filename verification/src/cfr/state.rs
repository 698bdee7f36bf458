//! The interface between a game and a trainer that plays it against
//! itself: a game starts states, and a state tells who is to move, what
//! they may do and where that leads.

use vstd::prelude::*;
use std::hash::Hash;

verus! {

/// A state of a game.
pub trait GameState: Sized {
    /// Key associated with the game state
    type Key: Hash + Eq;

    /// The state is one that the game accepts.
    spec fn valid(&self) -> bool;

    /// The number of players of the game.
    spec fn player_count_spec(&self) -> int;

    /// The action may be taken in this state.
    spec fn allows(&self, action: usize) -> bool;

    /// Checks that the state is one that the game accepts.
    fn is_valid(&self) -> (r: bool)
        ensures
            r == self.valid(),
    ;

    /// Checks that the action may be taken in this state.
    fn allows_action(&self, action: usize) -> (r: bool)
        requires
            self.valid(),
        ensures
            r == self.allows(action),
    ;

    /// Gets the active player for the given game state
    fn active_player(&self) -> (p: usize)
        requires
            self.valid(),
        ensures
            p < self.player_count_spec(),
    ;

    /// Fetches all the available actions in the current game state
    fn valid_actions(&self) -> (actions: Vec<usize>)
        requires
            self.valid(),
        ensures
            forall|i: int| 0 <= i < actions@.len() ==> self.allows(#[trigger] actions@[i]),
    ;

    /// Gets the key associated with the game state
    fn state_key(&self) -> (key: Self::Key)
        requires
            self.valid(),
    ;

    /// Returns the next state of the game by applying the provided action
    /// for the currently active player
    fn next_state(&self, action: usize) -> (next: Option<Self>)
        requires
            self.valid(),
            self.allows(action),
        ensures
            next matches Some(s) && s.valid() && s.player_count_spec() == self.player_count_spec(),
    ;

    /// Checks if the current state is terminal
    fn is_terminal(&self) -> (r: bool)
        requires
            self.valid(),
    ;

    /// Gets the payout for the player at this state
    fn get_reward(&self, player: usize) -> (r: i32)
        requires
            self.valid(),
            player < self.player_count_spec(),
    ;
}

/// A game.
pub trait Game {
    /// Associated state type for the game
    type State: GameState;

    /// The game is one that can be played.
    spec fn valid(&self) -> bool;

    /// The number of players of the game.
    spec fn player_count_spec(&self) -> int;

    /// Checks that the game is one that can be played.
    fn is_valid(&self) -> (r: bool)
        ensures
            r == self.valid(),
    ;

    /// Returns the number of players in the game state
    fn num_players(&self) -> (n: usize)
        requires
            self.valid(),
        ensures
            n == self.player_count_spec(),
    ;

    /// Returns the number of actions possible in any state in the game.
    /// This does not mean that all actions are valid, just that the game
    /// supports a finite number of actions
    fn num_actions(&self) -> (n: usize)
        requires
            self.valid(),
    ;

    /// Starts the game and retrieves the initial state
    fn start(&self) -> (state: Self::State)
        requires
            self.valid(),
        ensures
            state.valid(),
            state.player_count_spec() == self.player_count_spec(),
    ;

    /// Resets the game to an initial state and clears all scores/actions
    /// of each player
    fn reset(&mut self)
        ensures
            final(self).valid() == old(self).valid(),
            final(self).player_count_spec() == old(self).player_count_spec(),
    ;
}

} // verus!
