use trilines::gamestate::{Card, GameState, PlayedCard};
use trilines::gen::ply;
use trilines::search::{minimax, State};

fn fresh_deck() -> Vec<Card> {
    let mut deck = Vec::new();
    for n in 0..54 {
        deck.push(Card { num: n });
    }
    deck
}

#[test]
fn can_play_forward() {
    let gst = GameState {
        board: vec![vec![], vec![], vec![]],
        hands: vec![vec![Card { num: 0 }]],
        deck: vec![],
        turn: 0,
    };
    assert![gst.can_play(0, 0)];
}

#[test]
fn can_play_backward() {
    let gst = GameState {
        board: vec![vec![PlayedCard { card: Card { num: 1 }, own: 1 }], vec![], vec![]],
        hands: vec![vec![Card { num: 0 }]],
        deck: vec![],
        turn: 0,
    };
    assert![gst.can_play(0, 0)];
}

#[test]
fn cannot_play_backward() {
    let gst = GameState {
        board: vec![vec![PlayedCard { card: Card { num: 1 }, own: 0 }], vec![], vec![]],
        hands: vec![vec![Card { num: 0 }]],
        deck: vec![],
        turn: 0,
    };
    assert![!gst.can_play(0, 0)];
}

#[test]
fn card_values_are_ceilings() {
    assert_eq!(Card::value(&Card { num: 0 }), 0);
    assert_eq!(Card::value(&Card { num: 1 }), 1);
    assert_eq!(Card::value(&Card { num: 6 }), 1);
    assert_eq!(Card::value(&Card { num: 7 }), 2);
    assert_eq!(Card::value(&Card { num: 30 }), 5);
    assert_eq!(Card::value(&Card { num: 53 }), 9);
}

#[test]
fn deterministic_deal_two_players() {
    let gst = GameState::new_from_deck(2, fresh_deck());
    assert_eq!(gst.turn, 0);
    assert_eq!(gst.hands.len(), 2);
    assert_eq!(gst.hands[0].len(), 13);
    assert_eq!(gst.hands[1].len(), 13);
    for i in 0..13 {
        assert_eq!(gst.hands[0][i].num, i as i32);
        assert_eq!(gst.hands[1][i].num, 13 + i as i32);
    }
    assert_eq!(gst.deck.len(), 28);
    assert_eq!(gst.deck[0].num, 26);
    assert_eq!(gst.deck[27].num, 53);
    for line in &gst.board {
        assert!(line.is_empty());
    }
}

#[test]
fn play_onto_empty_line() {
    let mut gst = GameState::new_from_deck(2, fresh_deck());
    gst.play(0, 0);
    assert_eq!(gst.board[0].len(), 1);
    assert_eq!(gst.board[0][0].card.num, 0);
    assert_eq!(gst.board[0][0].own, 0);
    assert!(!gst.hands[0].iter().any(|c| c.num == 0));
    assert!(gst.can_play(0, 1));
}

#[test]
fn capture_reassigns_lone_trailing_card() {
    let mut gst = GameState {
        board: vec![vec![PlayedCard { card: Card { num: 5 }, own: 1 }], vec![], vec![]],
        hands: vec![vec![Card { num: 0 }], vec![]],
        deck: vec![],
        turn: 0,
    };
    gst.play(0, 0);
    assert_eq!(gst.board[0].len(), 2);
    assert_eq!(gst.board[0][0].card.num, 5);
    assert_eq!(gst.board[0][0].own, 0);
    assert_eq!(gst.board[0][1].card.num, 0);
    assert_eq!(gst.board[0][1].own, 0);
}

#[test]
fn capture_stops_at_first_lower_card() {
    let mut gst = GameState {
        board: vec![
            vec![
                PlayedCard { card: Card { num: 2 }, own: 1 },
                PlayedCard { card: Card { num: 10 }, own: 1 },
                PlayedCard { card: Card { num: 17 }, own: 1 },
            ],
            vec![],
            vec![],
        ],
        hands: vec![vec![Card { num: 3 }], vec![]],
        deck: vec![],
        turn: 0,
    };
    gst.play(0, 3);
    let owners: Vec<i32> = gst.board[0].iter().map(|p| p.own).collect();
    let nums: Vec<i32> = gst.board[0].iter().map(|p| p.card.num).collect();
    assert_eq!(nums, vec![2, 10, 17, 3]);
    assert_eq!(owners, vec![1, 0, 0, 0]);
}

#[test]
fn discard_removes_only_that_card() {
    let mut gst = GameState {
        board: vec![vec![], vec![], vec![]],
        hands: vec![vec![Card { num: 3 }, Card { num: 7 }]],
        deck: vec![],
        turn: 0,
    };
    gst.discard(0, 3);
    assert_eq!(gst.hands[0].len(), 1);
    assert_eq!(gst.hands[0][0].num, 7);
    gst.discard(0, 40);
    assert_eq!(gst.hands[0].len(), 1);
}

#[test]
fn draw_takes_deck_front() {
    let mut gst = GameState {
        board: vec![vec![], vec![], vec![]],
        hands: vec![vec![]],
        deck: vec![Card { num: 5 }, Card { num: 9 }],
        turn: 0,
    };
    assert!(gst.can_draw(0));
    gst.draw(0);
    assert_eq!(gst.hands[0].len(), 1);
    assert_eq!(gst.hands[0][0].num, 5);
    assert_eq!(gst.deck.len(), 1);
    assert_eq!(gst.deck[0].num, 9);
    gst.draw(0);
    assert!(!gst.can_draw(0));
}

#[test]
fn lohi_scans_from_the_tail() {
    let gst = GameState {
        board: vec![
            vec![
                PlayedCard { card: Card { num: 3 }, own: 0 },
                PlayedCard { card: Card { num: 5 }, own: 0 },
                PlayedCard { card: Card { num: 4 }, own: 0 },
            ],
            vec![],
            vec![],
        ],
        hands: vec![vec![]],
        deck: vec![],
        turn: 0,
    };
    assert_eq!(gst.lohi(0), (3, 4));
    assert_eq!(gst.lohi(1), (-1, 0));
}

#[test]
fn eval_is_score_difference_and_negates_on_turn_swap() {
    let board = vec![
        vec![PlayedCard { card: Card { num: 6 }, own: 0 }],
        vec![PlayedCard { card: Card { num: 30 }, own: 1 }],
        vec![],
    ];
    let gst = GameState {
        board: board.clone(),
        hands: vec![vec![], vec![]],
        deck: vec![],
        turn: 0,
    };
    assert_eq!(gst.value(0), 1);
    assert_eq!(gst.value(1), 5);
    assert_eq!(gst.eval(), 1 - 5);
    let swapped = GameState { board, hands: vec![vec![], vec![]], deck: vec![], turn: 1 };
    assert_eq!(swapped.eval(), 5 - 1);
    assert_eq!(swapped.eval(), -gst.eval());
}

#[test]
fn minimax_at_depth_zero_is_eval() {
    let gst = GameState::new_from_deck(2, fresh_deck());
    assert_eq!(minimax(&gst, 0, true), gst.eval());
    assert_eq!(minimax(&gst, 0, false), gst.eval());
}

#[test]
fn successor_count_is_three_per_playable_card() {
    let gst = GameState {
        board: vec![vec![], vec![], vec![]],
        hands: vec![
            vec![Card { num: 0 }, Card { num: 18 }, Card { num: 36 }],
            vec![Card { num: 1 }],
        ],
        deck: vec![Card { num: 40 }],
        turn: 0,
    };
    let nexts = ply(gst);
    assert_eq!(nexts.len(), 9);
}

#[test]
fn successors_come_in_play_fold_draw_order() {
    let gst = GameState {
        board: vec![vec![], vec![], vec![]],
        hands: vec![vec![Card { num: 0 }], vec![Card { num: 1 }]],
        deck: vec![Card { num: 40 }],
        turn: 0,
    };
    let nexts = ply(gst);
    assert_eq!(nexts.len(), 3);
    for next in &nexts {
        assert_eq!(next.turn, 1);
    }
    assert_eq!(nexts[0].board[0].len(), 1);
    assert_eq!(nexts[0].board[0][0].card.num, 0);
    assert!(nexts[0].hands[0].is_empty());
    assert_eq!(nexts[0].deck.len(), 1);
    assert!(nexts[1].board[0].is_empty());
    assert!(nexts[1].hands[0].is_empty());
    assert_eq!(nexts[1].deck.len(), 1);
    assert!(nexts[2].board[0].is_empty());
    assert_eq!(nexts[2].hands[0].len(), 1);
    assert_eq!(nexts[2].hands[0][0].num, 40);
    assert!(nexts[2].deck.is_empty());
}

#[test]
fn minimax_at_depth_one_takes_the_best_reply_value() {
    let gst = GameState {
        board: vec![vec![], vec![], vec![]],
        hands: vec![vec![Card { num: 6 }], vec![]],
        deck: vec![],
        turn: 0,
    };
    // Two successors: play 6 (worth 1 to player 0, so -1 for player 1 at
    // the leaf) or fold it (0).  The maximizer takes the larger leaf.
    assert_eq!(minimax(&gst, 1, true), 0);
    assert_eq!(minimax(&gst, 1, false), -1);
}

fn count_all_cards(gst: &GameState) -> Vec<usize> {
    let mut counts = vec![0usize; 54];
    for c in &gst.deck {
        counts[c.num as usize] += 1;
    }
    for hand in &gst.hands {
        for c in hand {
            counts[c.num as usize] += 1;
        }
    }
    for line in &gst.board {
        for p in line {
            counts[p.card.num as usize] += 1;
        }
    }
    counts
}

#[test]
fn deal_play_and_draw_conserve_the_deck() {
    let mut gst = GameState::new_from_deck(2, fresh_deck());
    assert!(count_all_cards(&gst).iter().all(|&c| c == 1));
    gst.play(0, 0);
    assert!(count_all_cards(&gst).iter().all(|&c| c == 1));
    gst.draw(1);
    assert!(count_all_cards(&gst).iter().all(|&c| c == 1));
    gst.discard(1, 13);
    let counts = count_all_cards(&gst);
    assert_eq!(counts[13], 0);
    assert_eq!(counts.iter().sum::<usize>(), 53);
}

#[test]
fn shuffled_deal_still_holds_every_card_once() {
    let gst = GameState::new(2);
    assert_eq!(gst.hands.len(), 2);
    assert_eq!(gst.hands[0].len(), 13);
    assert_eq!(gst.hands[1].len(), 13);
    assert_eq!(gst.deck.len(), 28);
    assert_eq!(gst.turn, 0);
    assert!(count_all_cards(&gst).iter().all(|&c| c == 1));
}

#[test]
fn current_player_follows_the_turn() {
    let mut gst = GameState::new_from_deck(3, fresh_deck());
    assert_eq!(gst.get_current_player(), 0);
    gst.turn = 1;
    assert_eq!(gst.get_current_player(), 1);
    gst.turn = 3;
    assert_eq!(gst.get_current_player(), 0);
}
