use ripgzip::CheatingAgent;
use ripgzip::CooperatingAgent;
use ripgzip::CopycatAgent;
use ripgzip::DetectiveAgent;
use ripgzip::Game;
use ripgzip::GrudgerAgent;
use ripgzip::RoundOutcome;

#[test]
fn cheater_exploits_cooperator() {
    let mut game = Game::new(CheatingAgent::default(), CooperatingAgent::default());
    assert_eq!(game.play_round(), RoundOutcome::LeftCheated);
    assert_eq!(game.left_score(), 3);
    assert_eq!(game.right_score(), -1);
    assert_eq!(game.play_round(), RoundOutcome::LeftCheated);
    assert_eq!(game.left_score(), 6);
    assert_eq!(game.right_score(), -2);
}

#[test]
fn copycat_mirrors_the_cheater() {
    let mut game = Game::new(CopycatAgent::default(), CheatingAgent::default());
    // The copycat cooperates first, then mirrors the cheat forever.
    assert_eq!(game.play_round(), RoundOutcome::RightCheated);
    assert_eq!(game.play_round(), RoundOutcome::BothCheated);
    assert_eq!(game.play_round(), RoundOutcome::BothCheated);
    assert_eq!(game.left_score(), -1);
    assert_eq!(game.right_score(), 3);
}

#[test]
fn grudger_holds_the_grudge() {
    let mut game = Game::new(GrudgerAgent::default(), CheatingAgent::default());
    assert_eq!(game.play_round(), RoundOutcome::RightCheated);
    // Once cheated, the grudger cheats back in every later round.
    assert_eq!(game.play_round(), RoundOutcome::BothCheated);
    assert_eq!(game.play_round(), RoundOutcome::BothCheated);
}

#[test]
fn cooperators_keep_cooperating() {
    let mut game = Game::new(CooperatingAgent::default(), CooperatingAgent::default());
    for _ in 0..5 {
        assert_eq!(game.play_round(), RoundOutcome::BothCooperated);
    }
    assert_eq!(game.left_score(), 10);
    assert_eq!(game.right_score(), 10);
}

#[test]
fn detective_probes_then_exploits() {
    // Against a constant cooperator the detective never sees a cheat and
    // settles on cheating after its four probing rounds.
    let mut game = Game::new(DetectiveAgent::default(), CooperatingAgent::default());
    assert_eq!(game.play_round(), RoundOutcome::BothCooperated);
    assert_eq!(game.play_round(), RoundOutcome::LeftCheated);
    assert_eq!(game.play_round(), RoundOutcome::BothCooperated);
    assert_eq!(game.play_round(), RoundOutcome::BothCooperated);
    assert_eq!(game.play_round(), RoundOutcome::LeftCheated);
    assert_eq!(game.play_round(), RoundOutcome::LeftCheated);
}
