use gamesweet::ai::mcts::THRESHOLD;
use gamesweet::Config;

#[test]
fn mcts_it_works() {
    let result = 2 + 2;
    assert_eq!(result, 4);
}

#[test]
fn lib_it_works() {
    let result = 2 + 2;
    assert_eq!(result, 4);
}

#[test]
fn the_default_threshold_is_three() {
    assert_eq!(THRESHOLD, 3);
    assert_eq!(gamesweet::ai::mcts::DURATION, 995);
    assert_eq!(gamesweet::ai::mcts::ROOT, 0);
    assert_eq!(gamesweet::ai::mcts::SENTINEL, usize::MAX);
}

#[derive(Clone, Debug, PartialEq)]
struct Coin {
    heads_to_move: bool,
}

impl gamesweet::Game for Coin {
    type Player = bool;
    type Turn = u8;

    fn player(&self) -> bool {
        self.heads_to_move
    }

    fn turns(&self) -> Vec<u8> {
        vec![0]
    }

    fn play(&mut self, turn: u8) -> bool {
        if turn == 0 {
            self.heads_to_move = !self.heads_to_move;
            true
        } else {
            false
        }
    }

    fn over(&self) -> bool {
        false
    }

    fn winner(&self) -> Option<bool> {
        None
    }
}

fn seven(_: &Coin) -> u8 {
    7
}

fn nine(_: &Coin) -> u8 {
    9
}

#[test]
fn config_asks_the_policy_of_the_player_to_move() {
    let config = Config::new((true, seven), (false, nine));
    assert_eq!(config.turn(&Coin { heads_to_move: true }), 7);
    assert_eq!(config.turn(&Coin { heads_to_move: false }), 9);
}

#[test]
fn config_follows_the_game_as_it_changes_sides() {
    let config = Config::new((false, seven), (true, nine));
    let mut coin = Coin { heads_to_move: true };
    assert_eq!(config.turn(&coin), 9);
    assert!(gamesweet::Game::play(&mut coin, 0));
    assert_eq!(config.turn(&coin), 7);
}

#[test]
fn config_knows_its_two_sides() {
    let config = Config::new((true, seven), (false, nine));
    assert!(config.knows(&Coin { heads_to_move: true }));
    assert!(config.knows(&Coin { heads_to_move: false }));
}

#[derive(Clone, Debug, PartialEq)]
struct Three {
    to_move: u8,
}

impl gamesweet::Game for Three {
    type Player = u8;
    type Turn = u8;

    fn player(&self) -> u8 {
        self.to_move
    }

    fn turns(&self) -> Vec<u8> {
        vec![1]
    }

    fn play(&mut self, turn: u8) -> bool {
        self.to_move = (self.to_move + turn) % 3;
        true
    }

    fn over(&self) -> bool {
        false
    }

    fn winner(&self) -> Option<u8> {
        None
    }
}

fn pass(_: &Three) -> u8 {
    1
}

#[test]
fn config_does_not_know_a_third_player() {
    let config = Config::new((0u8, pass), (1u8, pass));
    assert!(config.knows(&Three { to_move: 0 }));
    assert!(config.knows(&Three { to_move: 1 }));
    assert!(!config.knows(&Three { to_move: 2 }));
    assert_eq!(config.turn(&Three { to_move: 1 }), 1);
}
