//! A repeated trust game: two strategies play rounds of cooperate-or-cheat
//! and collect the classic payoffs.
use vstd::prelude::*;

verus! {

/// What a round's two moves amount to.
#[derive(Clone, Copy, Debug, PartialEq, Eq, Structural)]
pub enum RoundOutcome {
    BothCooperated,
    LeftCheated,
    RightCheated,
    BothCheated,
}

/// The built-in kinds of players.
#[derive(Clone, Copy, Debug, PartialEq, Eq, Structural)]
pub enum AgentType {
    Cheating,
    Cooperating,
    Grudger,
    Copycat,
    Detective,
}

/// One move of the game.
#[derive(Clone, Copy, Debug, PartialEq, Eq, Structural)]
pub enum Tactics {
    Cheat,
    Cooperate,
}

/// A player: it announces a move, learns the opponent's move, and keeps a
/// score.  The score may only change through `update_score`.
pub trait Strategy: Sized {
    /// The player's accumulated score.
    spec fn spec_score(&self) -> i32;

    /// The move the player will make next.
    spec fn spec_step(&self) -> Tactics;

    /// Learns the opponent's last move; never changes the score.
    fn update_strategy(&mut self, opponent_step: Tactics)
        ensures
            final(self).spec_score() == old(self).spec_score(),
    ;

    /// The player's next move.
    fn step(&self) -> (r: Tactics)
        ensures
            r == self.spec_step(),
    ;

    fn get_score(&self) -> (r: i32)
        ensures
            r == self.spec_score(),
    ;

    /// Adds `add` to the score, which must stay within its type.
    fn update_score(&mut self, add: i32)
        requires
            i32::MIN <= old(self).spec_score() + add <= i32::MAX,
        ensures
            final(self).spec_score() == old(self).spec_score() + add,
    ;
}

/// What the left player gains from a round.
pub open spec fn left_payoff(l: Tactics, r: Tactics) -> int {
    match (l, r) {
        (Tactics::Cheat, Tactics::Cheat) => 0,
        (Tactics::Cheat, Tactics::Cooperate) => 3,
        (Tactics::Cooperate, Tactics::Cheat) => -1,
        (Tactics::Cooperate, Tactics::Cooperate) => 2,
    }
}

/// How a round with the given moves is reported.
pub open spec fn outcome_of(l: Tactics, r: Tactics) -> RoundOutcome {
    match (l, r) {
        (Tactics::Cheat, Tactics::Cheat) => RoundOutcome::BothCheated,
        (Tactics::Cheat, Tactics::Cooperate) => RoundOutcome::LeftCheated,
        (Tactics::Cooperate, Tactics::Cheat) => RoundOutcome::RightCheated,
        (Tactics::Cooperate, Tactics::Cooperate) => RoundOutcome::BothCooperated,
    }
}

/// Two strategies playing against each other.
pub struct Game<L: Strategy, R: Strategy> {
    pub left_player: L,
    pub right_player: R,
}

impl<L: Strategy, R: Strategy> Game<L, R> {
    pub fn new(left: L, right: R) -> (r: Self)
        ensures
            r.left_player == left,
            r.right_player == right,
    {
        Self { left_player: left, right_player: right }
    }

    pub fn left_score(&self) -> (r: i32)
        ensures
            r == self.left_player.spec_score(),
    {
        self.left_player.get_score()
    }

    pub fn right_score(&self) -> (r: i32)
        ensures
            r == self.right_player.spec_score(),
    {
        self.right_player.get_score()
    }

    /// Plays one round: both players move, learn the opponent's move, and
    /// collect the payoff for the pair of moves.
    pub fn play_round(&mut self) -> (r: RoundOutcome)
        requires
            i32::MIN + 1 <= old(self).left_player.spec_score() <= i32::MAX - 3,
            i32::MIN + 1 <= old(self).right_player.spec_score() <= i32::MAX - 3,
        ensures
            r == outcome_of(old(self).left_player.spec_step(), old(self).right_player.spec_step()),
            final(self).left_player.spec_score() == old(self).left_player.spec_score()
                + left_payoff(
                old(self).left_player.spec_step(),
                old(self).right_player.spec_step(),
            ),
            final(self).right_player.spec_score() == old(self).right_player.spec_score()
                + left_payoff(
                old(self).right_player.spec_step(),
                old(self).left_player.spec_step(),
            ),
    {
        let l = self.left_player.step();
        let r = self.right_player.step();
        self.left_player.update_strategy(r);
        self.right_player.update_strategy(l);
        let left_add: i32;
        let right_add: i32;
        let result = match (l, r) {
            (Tactics::Cheat, Tactics::Cheat) => {
                left_add = 0;
                right_add = 0;
                RoundOutcome::BothCheated
            },
            (Tactics::Cheat, Tactics::Cooperate) => {
                left_add = 3;
                right_add = -1;
                RoundOutcome::LeftCheated
            },
            (Tactics::Cooperate, Tactics::Cheat) => {
                left_add = -1;
                right_add = 3;
                RoundOutcome::RightCheated
            },
            (Tactics::Cooperate, Tactics::Cooperate) => {
                left_add = 2;
                right_add = 2;
                RoundOutcome::BothCooperated
            },
        };
        self.left_player.update_score(left_add);
        self.right_player.update_score(right_add);
        result
    }
}

/// A score and a planned next move: the state every built-in agent keeps.
pub struct Player {
    pub score: i32,
    pub next_step: Tactics,
}

impl Player {
    fn new(start_tactics: Tactics) -> (r: Self)
        ensures
            r.score == 0,
            r.next_step == start_tactics,
    {
        Player { score: 0, next_step: start_tactics }
    }
}

/// Always cheats.
pub struct CheatingAgent {
    pub player: Player,
}

impl Strategy for CheatingAgent {
    open spec fn spec_score(&self) -> i32 {
        self.player.score
    }

    open spec fn spec_step(&self) -> Tactics {
        self.player.next_step
    }

    fn update_strategy(&mut self, _opponent_step: Tactics) {
    }

    fn step(&self) -> (r: Tactics) {
        self.player.next_step
    }

    fn get_score(&self) -> (r: i32) {
        self.player.score
    }

    fn update_score(&mut self, add: i32) {
        self.player.score = self.player.score + add;
    }
}

impl core::default::Default for CheatingAgent {
    fn default() -> (r: Self)
        ensures
            r.player.score == 0,
            r.player.next_step == Tactics::Cheat,
    {
        CheatingAgent { player: Player::new(Tactics::Cheat) }
    }
}

/// Always cooperates.
pub struct CooperatingAgent {
    pub player: Player,
}

impl core::default::Default for CooperatingAgent {
    fn default() -> (r: Self)
        ensures
            r.player.score == 0,
            r.player.next_step == Tactics::Cooperate,
    {
        CooperatingAgent { player: Player::new(Tactics::Cooperate) }
    }
}

impl Strategy for CooperatingAgent {
    open spec fn spec_score(&self) -> i32 {
        self.player.score
    }

    open spec fn spec_step(&self) -> Tactics {
        self.player.next_step
    }

    fn update_strategy(&mut self, _opponent_step: Tactics) {
    }

    fn step(&self) -> (r: Tactics) {
        self.player.next_step
    }

    fn get_score(&self) -> (r: i32) {
        self.player.score
    }

    fn update_score(&mut self, add: i32) {
        self.player.score = self.player.score + add;
    }
}

/// Cooperates until cheated once, then cheats forever.
pub struct GrudgerAgent {
    pub player: Player,
    pub cheated_back: bool,
}

impl core::default::Default for GrudgerAgent {
    fn default() -> (r: Self)
        ensures
            r.player.score == 0,
            r.player.next_step == Tactics::Cooperate,
            !r.cheated_back,
    {
        GrudgerAgent { player: Player::new(Tactics::Cooperate), cheated_back: false }
    }
}

impl Strategy for GrudgerAgent {
    open spec fn spec_score(&self) -> i32 {
        self.player.score
    }

    open spec fn spec_step(&self) -> Tactics {
        self.player.next_step
    }

    fn update_strategy(&mut self, opponent_step: Tactics) {
        if !self.cheated_back && opponent_step == Tactics::Cheat {
            self.cheated_back = true;
            self.player.next_step = Tactics::Cheat;
        }
    }

    fn step(&self) -> (r: Tactics) {
        self.player.next_step
    }

    fn get_score(&self) -> (r: i32) {
        self.player.score
    }

    fn update_score(&mut self, add: i32) {
        self.player.score = self.player.score + add;
    }
}

/// Repeats the opponent's last move.
pub struct CopycatAgent {
    pub player: Player,
}

impl core::default::Default for CopycatAgent {
    fn default() -> (r: Self)
        ensures
            r.player.score == 0,
            r.player.next_step == Tactics::Cooperate,
    {
        Self { player: Player::new(Tactics::Cooperate) }
    }
}

impl Strategy for CopycatAgent {
    open spec fn spec_score(&self) -> i32 {
        self.player.score
    }

    open spec fn spec_step(&self) -> Tactics {
        self.player.next_step
    }

    fn update_strategy(&mut self, opponent_step: Tactics) {
        self.player.next_step = opponent_step;
    }

    fn step(&self) -> (r: Tactics) {
        self.player.next_step
    }

    fn get_score(&self) -> (r: i32) {
        self.player.score
    }

    fn update_score(&mut self, add: i32) {
        self.player.score = self.player.score + add;
    }
}

/// Probes with a fixed opening, then either mirrors a cheater or exploits a
/// constant cooperator.
pub struct DetectiveAgent {
    pub player: Player,
    pub rounde: i32,
    pub cheated_back: bool,
    pub copycat: CopycatAgent,
}

impl core::default::Default for DetectiveAgent {
    fn default() -> (r: Self)
        ensures
            r.player.score == 0,
            r.player.next_step == Tactics::Cooperate,
            r.rounde == 0,
            !r.cheated_back,
    {
        Self {
            player: Player::new(Tactics::Cooperate),
            rounde: 0,
            cheated_back: false,
            copycat: CopycatAgent { player: Player::new(Tactics::Cooperate) },
        }
    }
}

impl Strategy for DetectiveAgent {
    open spec fn spec_score(&self) -> i32 {
        self.player.score
    }

    open spec fn spec_step(&self) -> Tactics {
        self.player.next_step
    }

    fn update_strategy(&mut self, opponent_step: Tactics) {
        if self.rounde <= 2 {
            if self.rounde == 0 {
                self.player.next_step = Tactics::Cheat;
            } else if self.rounde == 1 {
                self.player.next_step = Tactics::Cooperate;
            } else if self.rounde == 2 {
                self.player.next_step = Tactics::Cooperate;
            }
            self.rounde = self.rounde + 1;
            if !self.cheated_back && opponent_step == Tactics::Cheat {
                self.cheated_back = true;
            }
        } else if self.cheated_back {
            self.copycat.update_strategy(opponent_step);
            self.player.next_step = self.copycat.player.next_step;
        } else {
            self.player.next_step = Tactics::Cheat;
        }
    }

    fn step(&self) -> (r: Tactics) {
        self.player.next_step
    }

    fn get_score(&self) -> (r: i32) {
        self.player.score
    }

    fn update_score(&mut self, add: i32) {
        self.player.score = self.player.score + add;
    }
}

} // verus!
