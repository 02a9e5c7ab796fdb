//! Gamesweet
//!
//! `gamesweet` is a library defining a common interface for turn-based board
//! games, together with policies that pick a turn for the player to move.
use vstd::prelude::*;
use vstd::std_specs::cmp::PartialEqSpec;

pub mod ai;

verus! {

/// A deterministic, turn-based game with perfect information.
///
/// The ghost functions are the game as mathematics, and the methods compute
/// them. A verified implementation defines the ghost functions and proves its
/// methods against them. Each has a default that says nothing of its value,
/// so that a game written without proofs gives the methods alone. Every
/// policy in this crate is proved against the contracts below and knows
/// nothing else of a game.
pub trait Game: Clone + Sized {
    type Player: Clone + PartialEq;

    type Turn: Clone;

    /// The player to move.
    open spec fn mover(&self) -> Self::Player {
        arbitrary()
    }

    /// The legal turns, in the order in which `turns` lists them.
    open spec fn legal(&self) -> Seq<Self::Turn> {
        arbitrary()
    }

    /// The position that `turn` leads to.
    open spec fn after(&self, turn: Self::Turn) -> Self {
        arbitrary()
    }

    /// Whether the game is over.
    open spec fn finished(&self) -> bool {
        arbitrary()
    }

    /// The winner of a finished game; `None` is a draw.
    open spec fn victor(&self) -> Option<Self::Player> {
        arbitrary()
    }

    /// A bound on the number of turns that can still be played. Every legal
    /// turn lowers it, so every play-through ends.
    open spec fn horizon(&self) -> nat {
        arbitrary()
    }

    /// Get the current player.
    fn player(&self) -> (p: Self::Player)
        ensures
            p == self.mover(),
    ;

    /// Get all legal turns. A game that is not over has at least one.
    fn turns(&self) -> (v: Vec<Self::Turn>)
        ensures
            v@ == self.legal(),
            !self.finished() ==> v@.len() > 0,
    ;

    /// Play a turn of the game. A legal turn is accepted and moves the game to
    /// the position after it; `false` means that the turn was turned down.
    fn play(&mut self, turn: Self::Turn) -> (ok: bool)
        ensures
            old(self).legal().contains(turn) ==> ok && *final(self) == old(self).after(turn)
                && final(self).horizon() < old(self).horizon(),
    ;

    /// Check if the game is over.
    fn over(&self) -> (b: bool)
        ensures
            b == self.finished(),
    ;

    /// Get the winner of the game.
    fn winner(&self) -> (w: Option<Self::Player>)
        ensures
            w == self.victor(),
    ;
}

/// What the policies ask of a game's types beyond the methods of `Game`: a
/// clone of a position or of a turn is that position or turn again, and `==`
/// on players tells whether they are the same player.
pub open spec fn faithful<G: Game>() -> bool {
    &&& G::Player::obeys_eq_spec()
    &&& forall|a: G::Player, b: G::Player| #[trigger] a.eq_spec(&b) <==> a == b
    &&& forall|a: G, b: G| #[trigger] cloned(a, b) ==> a == b
    &&& forall|a: G::Turn, b: G::Turn| #[trigger] cloned(a, b) ==> a == b
}

/// The two sides of a match, each with the policy that picks its turns.
pub struct Config<G: Game, A: Fn(&G) -> G::Turn, B: Fn(&G) -> G::Turn> {
    player1: (G::Player, A),
    player2: (G::Player, B),
}

impl<G: Game, A: Fn(&G) -> G::Turn, B: Fn(&G) -> G::Turn> Config<G, A, B> {
    /// The first side: its player and its policy.
    pub closed spec fn first(&self) -> (G::Player, A) {
        self.player1
    }

    /// The second side: its player and its policy.
    pub closed spec fn second(&self) -> (G::Player, B) {
        self.player2
    }

    /// Create a new Config. The two sides must be different players.
    pub fn new(player1: (G::Player, A), player2: (G::Player, B)) -> (config: Self)
        requires
            faithful::<G>(),
            player1.0 != player2.0,
        ensures
            config.first() == player1,
            config.second() == player2,
    {
        Config { player1, player2 }
    }

    /// Whether `turn` asks the policy of the first side: it does when the
    /// first side's player is to move, and asks the second side's otherwise.
    pub open spec fn first_to_move(&self, game: &G) -> bool {
        self.first().0 == game.mover()
    }

    /// Whether one of the two sides is to move in `game`.
    pub fn knows(&self, game: &G) -> (known: bool)
        requires
            faithful::<G>(),
        ensures
            known == (self.first().0 == game.mover() || self.second().0 == game.mover()),
    {
        let player = game.player();
        self.player1.0 == player || self.player2.0 == player
    }

    /// Get a turn for a player: the turn that the policy of the player to
    /// move picks. One of the two sides must be to move.
    pub fn turn(&self, game: &G) -> (turn: G::Turn)
        requires
            faithful::<G>(),
            self.first().0 == game.mover() || self.second().0 == game.mover(),
            self.first_to_move(game) ==> self.first().1.requires((game,)),
            !self.first_to_move(game) ==> self.second().1.requires((game,)),
        ensures
            self.first_to_move(game) ==> self.first().1.ensures((game,), turn),
            !self.first_to_move(game) ==> self.second().1.ensures((game,), turn),
    {
        if self.player1.0 == game.player() {
            (self.player1.1)(game)
        } else {
            (self.player2.1)(game)
        }
    }
}

} // verus!
