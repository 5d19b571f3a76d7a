use acquire_rs::bank::Bank;
use acquire_rs::board::{Board, Position};
use acquire_rs::chain::HotelChain;
use acquire_rs::chain_manager::HotelChainManager;
use acquire_rs::demo::{fusion_pair, random_fusion_pair};
use acquire_rs::error::GameError;
use acquire_rs::fusion::{
    exchange_options, fusion_trade_order, pair_order, pay_fusion_bonuses, player_fusion_order, settle_fusion_stocks,
};
use acquire_rs::game::{draw_card, finish_turn, init_position_cards, GameManager, Round, Settings};
use acquire_rs::logic::{
    can_game_continue, extend_chain, fusion_plan, longest_chain, play_card, start_chain, FusionPlan, PlacementFollowUp,
};
use acquire_rs::placement::IllegalPlacement;
use acquire_rs::player::Player;
use acquire_rs::purchase::stocks_can_be_bought;

fn chain_with(
    m: &mut HotelChainManager,
    board: &mut Board,
    bank: &mut Bank,
    chain: HotelChain,
    positions: Vec<Position>,
) {
    let mut p = Player::new(vec![], 9, false);
    m.start_chain(chain, positions, board, &mut p, bank).unwrap();
}

#[test]
fn going_right_then_left_returns() {
    let p = Position::new('C', 5);
    assert_eq!(p.next().unwrap().prev(), Some(p));
    assert_eq!(p.prev().unwrap().next(), Some(p));
    assert_eq!(p.down().unwrap().up(), Some(p));
    assert_eq!(p.up().unwrap().down(), Some(p));
    assert_eq!(Position::new('A', 3).up(), None);
    assert_eq!(Position::new('I', 3).down(), None);
}

#[test]
fn placed_hotel_is_read_back() {
    let mut board = Board::new();
    let p = Position::new('D', 7);
    board.place_hotel(&p).unwrap();
    assert_eq!(board.is_hotel_placed(&p), Some(None));
    assert_eq!(board.is_hotel_placed(&Position::new('D', 8)), None);
    board.update_hotel(HotelChain::Festival, &p).unwrap();
    assert_eq!(board.is_hotel_placed(&p), Some(Some(HotelChain::Festival)));
}

#[test]
fn placing_twice_is_refused() {
    let mut board = Board::new();
    let p = Position::new('E', 1);
    board.place_hotel(&p).unwrap();
    assert_eq!(board.place_hotel(&p), Err(GameError::HotelAlreadyPlaced(p)));
    assert_eq!(
        board.update_hotel(HotelChain::Luxor, &Position::new('E', 2)),
        Err(GameError::HotelNotPlaced(Position::new('E', 2)))
    );
}

#[test]
fn deck_and_hands_hold_every_position_once() {
    let game = GameManager::new(3, Settings::new_default()).unwrap();
    let mut all: Vec<Position> = game.position_cards.clone();
    for player in &game.players {
        assert_eq!(player.analyzed_cards.len(), 6);
        for card in &player.analyzed_cards {
            all.push(card.position);
        }
    }
    assert_eq!(all.len(), 108);
    for p in init_position_cards() {
        assert_eq!(all.iter().filter(|q| **q == p).count(), 1);
    }
    for (i, player) in game.players.iter().enumerate() {
        assert_eq!(player.id as usize, i);
        assert_eq!(player.money, 6000);
    }
}

#[test]
fn invalid_player_counts_are_refused() {
    assert!(matches!(GameManager::new(1, Settings::new_default()), Err(GameError::InvalidPlayerCount(1))));
    assert!(matches!(GameManager::new(7, Settings::new_default()), Err(GameError::InvalidPlayerCount(7))));
}

#[test]
fn starting_a_game_places_one_card_per_player() {
    let mut game = GameManager::new(4, Settings::new_default()).unwrap();
    let cards = game.start_game().unwrap();
    assert_eq!(cards.len(), 4);
    assert_eq!(game.position_cards.len(), 108 - 24 - 4);
    for c in &cards {
        assert_eq!(game.board.is_hotel_placed(c), Some(None));
        assert!(!game.position_cards.contains(c));
    }
    assert!(matches!(game.start_game(), Err(GameError::GameAlreadyStarted)));
}

#[test]
fn a_round_starts_once() {
    let mut round = Round::new(3);
    assert_eq!(round.start_round(), Ok(()));
    assert_eq!(round.start_round(), Err(GameError::RoundAlreadyStarted));
    assert_eq!(round.number, 3);
}

#[test]
fn drawn_cards_leave_the_deck() {
    let mut deck = vec![Position::new('A', 1), Position::new('B', 2), Position::new('C', 3)];
    let c = draw_card(&mut deck).unwrap().unwrap();
    assert_eq!(deck.len(), 2);
    assert!(!deck.contains(&c));
    assert!([Position::new('A', 1), Position::new('B', 2), Position::new('C', 3)].contains(&c));
    let mut empty: Vec<Position> = vec![];
    assert_eq!(draw_card(&mut empty), Ok(None));
}

#[test]
fn turn_ends_the_game_without_a_hotel() {
    let board = Board::new();
    let m = HotelChainManager::new();
    let mut player = Player::new(vec![], 0, false);
    let mut deck = vec![Position::new('A', 1)];
    assert_eq!(finish_turn(&mut player, &mut deck, &board, &m, false, false), (true, None));
    assert_eq!(deck.len(), 1);
    assert_eq!(finish_turn(&mut player, &mut deck, &board, &m, true, false), (false, Some(Position::new('A', 1))));
    assert_eq!(player.analyzed_cards.len(), 1);
    assert_eq!(finish_turn(&mut player, &mut deck, &board, &m, true, false), (false, None));
}

#[test]
fn traders_run_from_the_fusing_player_to_the_last_seat_then_the_first() {
    assert_eq!(fusion_trade_order(2, 4), vec![2, 3, 0, 0, 0]);
    assert_eq!(fusion_trade_order(0, 3), vec![0, 1, 2, 0]);
}

#[test]
fn exchange_options_are_accepted_numbers() {
    assert_eq!(exchange_options(7, 2), vec![0, 2, 4]);
    assert_eq!(exchange_options(6, 5), vec![0, 2, 4, 6]);
    assert_eq!(exchange_options(1, 5), vec![0]);
}

#[test]
fn fusion_stocks_are_settled() {
    let mut board = Board::new();
    let mut bank = Bank::new();
    let mut m = HotelChainManager::new();
    chain_with(&mut m, &mut board, &mut bank, HotelChain::Airport, vec![Position::new('A', 1), Position::new('A', 2)]);
    let mut player = Player::new(vec![], 0, false);
    player.owned_stocks.set_stocks(&HotelChain::Airport, 7);
    let r = settle_fusion_stocks(&mut player, &HotelChain::Airport, &HotelChain::Festival, &mut bank, &m, 4, 2);
    assert_eq!(r, Ok((4, 2, 1)));
    assert_eq!(*player.owned_stocks.stocks_for_hotel(&HotelChain::Festival), 2);
    assert_eq!(*player.owned_stocks.stocks_for_hotel(&HotelChain::Airport), 1);
    assert_eq!(player.money, 6000 + 2 * 200);
    assert_eq!(
        settle_fusion_stocks(&mut player, &HotelChain::Airport, &HotelChain::Festival, &mut bank, &m, 1, 0),
        Err(GameError::OddExchange(1))
    );
}

#[test]
fn exchange_refused_without_stocks_of_the_survivor() {
    let mut bank = Bank::new();
    bank.set_stocks(&HotelChain::Festival, 1);
    let mut player = Player::new(vec![], 0, false);
    player.owned_stocks.set_stocks(&HotelChain::Airport, 4);
    assert_eq!(
        bank.exchange_stock(&mut player, 4, &HotelChain::Airport, &HotelChain::Festival),
        Err(GameError::NotEnoughStocksToExchange)
    );
    assert_eq!(*player.owned_stocks.stocks_for_hotel(&HotelChain::Airport), 4);
}

#[test]
fn selling_more_than_owned_is_refused() {
    let mut bank = Bank::new();
    let m = HotelChainManager::new();
    let mut player = Player::new(vec![], 0, false);
    assert_eq!(
        bank.sell_stock(&mut player, 3, &HotelChain::Luxor, &m),
        Err(GameError::NotEnoughStocksToSell { wanted: 3, owned: 0 })
    );
}

#[test]
fn bonuses_of_a_fused_chain_are_paid() {
    let mut board = Board::new();
    let mut bank = Bank::new();
    let mut m = HotelChainManager::new();
    chain_with(&mut m, &mut board, &mut bank, HotelChain::Imperial, vec![Position::new('A', 1), Position::new('A', 2)]);
    let mut players = vec![Player::new(vec![], 0, false), Player::new(vec![], 1, false)];
    assert!(matches!(
        pay_fusion_bonuses(&HotelChain::Imperial, &mut players, &mut bank, &m),
        Err(GameError::ShareholdersNotSet(HotelChain::Imperial))
    ));
    players[0].owned_stocks.set_stocks(&HotelChain::Imperial, 3);
    players[1].owned_stocks.set_stocks(&HotelChain::Imperial, 1);
    let paid = pay_fusion_bonuses(&HotelChain::Imperial, &mut players, &mut bank, &m).unwrap();
    assert_eq!(paid.len(), 2);
    assert_eq!(players[0].money, 6000 + 3000);
    assert_eq!(players[1].money, 6000 + 1500);
}

#[test]
fn player_chosen_fusion_order() {
    let chains = vec![HotelChain::Airport, HotelChain::Continental, HotelChain::Festival];
    assert_eq!(
        player_fusion_order(&chains, HotelChain::Continental, &vec![2, 1]),
        Ok(vec![HotelChain::Festival, HotelChain::Airport, HotelChain::Continental])
    );
    assert_eq!(player_fusion_order(&chains, HotelChain::Continental, &vec![1, 1]), Err(GameError::InvalidFusionOrder));
    assert_eq!(player_fusion_order(&chains, HotelChain::Luxor, &vec![1, 2]), Err(GameError::InvalidFusionOrder));
    assert_eq!(
        player_fusion_order(&vec![HotelChain::Airport, HotelChain::Luxor], HotelChain::Luxor, &vec![1]),
        Err(GameError::InvalidFusionChainCount(2))
    );
    assert_eq!(pair_order(HotelChain::Airport, HotelChain::Luxor, 2), Some((HotelChain::Luxor, HotelChain::Airport)));
    assert_eq!(pair_order(HotelChain::Airport, HotelChain::Luxor, 3), None);
}

#[test]
fn longest_chain_survives_and_smallest_goes_first() {
    let mut board = Board::new();
    let mut bank = Bank::new();
    let mut m = HotelChainManager::new();
    chain_with(&mut m, &mut board, &mut bank, HotelChain::Airport, vec![Position::new('A', 1), Position::new('A', 2)]);
    chain_with(
        &mut m,
        &mut board,
        &mut bank,
        HotelChain::Luxor,
        vec![Position::new('C', 1), Position::new('C', 2), Position::new('C', 3), Position::new('C', 4)],
    );
    chain_with(
        &mut m,
        &mut board,
        &mut bank,
        HotelChain::Festival,
        vec![Position::new('E', 1), Position::new('E', 2), Position::new('E', 3)],
    );
    let plan = fusion_plan(&vec![HotelChain::Airport, HotelChain::Luxor, HotelChain::Festival], &m).unwrap();
    assert_eq!(
        plan,
        FusionPlan::Fixed { order: vec![HotelChain::Airport, HotelChain::Festival], survivor: HotelChain::Luxor }
    );
    assert_eq!(fusion_plan(&vec![HotelChain::Airport], &m), Err(GameError::InvalidFusionChainCount(1)));
}

#[test]
fn fusing_inactive_chains_is_refused() {
    let mut board = Board::new();
    let mut m = HotelChainManager::new();
    assert_eq!(
        m.fuse_chains(&HotelChain::Luxor, &HotelChain::Airport, &mut board),
        Err(GameError::FusionChainMissing { alive: HotelChain::Luxor, dead: HotelChain::Airport })
    );
}

#[test]
fn founding_needs_two_hotels_and_a_free_chain() {
    let mut board = Board::new();
    let mut bank = Bank::new();
    let mut m = HotelChainManager::new();
    let mut p = Player::new(vec![], 0, false);
    assert_eq!(
        m.start_chain(HotelChain::Luxor, vec![Position::new('A', 1)], &mut board, &mut p, &mut bank),
        Err(GameError::NotEnoughBuildings(HotelChain::Luxor))
    );
    m.start_chain(HotelChain::Luxor, vec![Position::new('A', 1), Position::new('A', 2)], &mut board, &mut p, &mut bank)
        .unwrap();
    assert_eq!(*p.owned_stocks.stocks_for_hotel(&HotelChain::Luxor), 1);
    assert_eq!(
        m.start_chain(HotelChain::Luxor, vec![Position::new('C', 1), Position::new('C', 2)], &mut board, &mut p, &mut bank),
        Err(GameError::ChainAlreadyFounded(HotelChain::Luxor))
    );
    let mut board2 = Board::new();
    assert_eq!(
        extend_chain(HotelChain::Festival, vec![Position::new('B', 1)], &mut m, &mut board2),
        Err(GameError::ChainNotFounded(HotelChain::Festival))
    );
}

#[test]
fn founding_by_a_player_updates_the_shareholders() {
    let mut board = Board::new();
    let mut bank = Bank::new();
    let mut m = HotelChainManager::new();
    let mut players = vec![Player::new(vec![], 0, false), Player::new(vec![], 1, false)];
    start_chain(
        vec![Position::new('A', 1), Position::new('A', 2)],
        1,
        HotelChain::Prestige,
        &mut players,
        &mut m,
        &mut board,
        &mut bank,
    )
    .unwrap();
    assert_eq!(*players[1].owned_stocks.stocks_for_hotel(&HotelChain::Prestige), 1);
    assert!(bank.is_largest_shareholder(1, &HotelChain::Prestige));
    assert!(!bank.is_largest_shareholder(0, &HotelChain::Prestige));
}

#[test]
fn playing_cards() {
    let mut board = Board::new();
    let mut m = HotelChainManager::new();
    let mut bank = Bank::new();
    let mut player = Player::new(
        vec![Position::new('F', 2), Position::new('A', 3), Position::new('C', 2), Position::new('B', 2)],
        0,
        false,
    );
    assert!(matches!(
        play_card(&mut player, &Position::new('I', 9), &mut board, &mut m),
        Err(GameError::CardNotFound(_))
    ));
    assert!(matches!(play_card(&mut player, &Position::new('F', 2), &mut board, &mut m), Ok(PlacementFollowUp::Done)));
    assert_eq!(board.is_hotel_placed(&Position::new('F', 2)), Some(None));
    assert_eq!(player.analyzed_cards.len(), 3);
    chain_with(&mut m, &mut board, &mut bank, HotelChain::Airport, vec![Position::new('A', 1), Position::new('A', 2)]);
    assert!(matches!(play_card(&mut player, &Position::new('A', 3), &mut board, &mut m), Ok(PlacementFollowUp::Done)));
    assert_eq!(m.chain_length(&HotelChain::Airport), 3);
    assert!(matches!(play_card(&mut player, &Position::new('C', 2), &mut board, &mut m), Ok(PlacementFollowUp::Done)));
    match play_card(&mut player, &Position::new('B', 2), &mut board, &mut m) {
        Ok(PlacementFollowUp::Fuse(_, _)) => panic!("no second chain is near"),
        Ok(PlacementFollowUp::FoundChain(_)) => panic!("a chain is near"),
        Ok(PlacementFollowUp::Done) => {},
        Err(e) => panic!("{:?}", e),
    }
    assert_eq!(m.chain_length(&HotelChain::Airport), 5);
}

#[test]
fn playing_an_illegal_card_is_refused() {
    let mut board = Board::new();
    let mut m = HotelChainManager::new();
    let mut bank = Bank::new();
    let mut rows = Vec::new();
    for (i, c) in HotelChain::iterator().iter().enumerate() {
        let letter = ['A', 'C', 'E', 'G', 'I', 'A', 'C'][i];
        let start = if i < 5 { 1 } else { 7 };
        rows.push((c.clone(), vec![Position::new(letter, start), Position::new(letter, start + 1)]));
    }
    for (c, ps) in rows {
        chain_with(&mut m, &mut board, &mut bank, c, ps);
    }
    board.place_hotel(&Position::new('E', 9)).unwrap();
    let mut player = Player::new(vec![Position::new('E', 10)], 0, false);
    assert_eq!(
        play_card(&mut player, &Position::new('E', 10), &mut board, &mut m).unwrap_err(),
        GameError::PlacementIllegal(Position::new('E', 10), IllegalPlacement::ChainStartIllegal)
    );
    assert_eq!(player.analyzed_cards.len(), 1);
}

#[test]
fn stocks_that_can_be_bought() {
    assert_eq!(stocks_can_be_bought(1000, 3, 300, 5), 3);
    assert_eq!(stocks_can_be_bought(700, 3, 300, 5), 2);
    assert_eq!(stocks_can_be_bought(1000, 1, 300, 5), 1);
    assert_eq!(stocks_can_be_bought(1000, 3, 300, 0), 0);
    assert_eq!(stocks_can_be_bought(100, 3, 300, 5), 0);
}

#[test]
fn buying_stocks_by_the_rules() {
    let mut board = Board::new();
    let mut bank = Bank::new();
    let mut m = HotelChainManager::new();
    chain_with(&mut m, &mut board, &mut bank, HotelChain::Airport, vec![Position::new('A', 1), Position::new('A', 2)]);
    let mut player = Player::new(vec![], 0, false);
    assert_eq!(
        player.buy_stocks(&mut bank, &m, &vec![(HotelChain::Airport, 2), (HotelChain::Luxor, 1)]),
        Err(GameError::PurchaseNotAllowed)
    );
    assert_eq!(player.buy_stocks(&mut bank, &m, &vec![(HotelChain::Airport, 4)]), Err(GameError::PurchaseNotAllowed));
    assert_eq!(player.buy_stocks(&mut bank, &m, &vec![(HotelChain::Airport, 3)]), Ok(()));
    assert_eq!(player.money, 6000 - 600);
    assert_eq!(*player.owned_stocks.stocks_for_hotel(&HotelChain::Airport), 3);
    assert_eq!(*bank.stocks_for_sale.stocks_for_hotel(&HotelChain::Airport), 25 - 1 - 3);
}

#[test]
fn removing_a_card_not_held_is_refused() {
    let mut player = Player::new(vec![Position::new('A', 1)], 0, false);
    assert!(matches!(player.remove_card(&Position::new('B', 1)), Err(GameError::CardNotFound(_))));
    assert_eq!(player.remove_card(&Position::new('A', 1)).unwrap().position, Position::new('A', 1));
}

#[test]
fn the_edges_of_the_board_have_no_further_columns() {
    assert_eq!(Position::new('B', 12).next(), None);
    assert_eq!(Position::new('B', 1).prev(), None);
    assert_eq!(Position::new('B', 11).next(), Some(Position::new('B', 12)));
    assert_eq!(Position::new('B', 2).prev(), Some(Position::new('B', 1)));
}

#[test]
fn neighbours_stay_on_the_board() {
    let corner = Position::new('A', 1).neighbours();
    assert_eq!(corner, vec![Position::new('A', 2), Position::new('B', 1)]);
    let other_corner = Position::new('I', 12).neighbours();
    assert_eq!(other_corner, vec![Position::new('I', 11), Position::new('H', 12)]);
    let edge = Position::new('E', 12).neighbours();
    assert_eq!(edge, vec![Position::new('F', 12), Position::new('E', 11), Position::new('D', 12)]);
    assert_eq!(Position::new('E', 6).neighbours().len(), 4);
}

#[test]
fn two_equally_long_chains_have_no_longest() {
    let mut board = Board::new();
    let mut bank = Bank::new();
    let mut m = HotelChainManager::new();
    chain_with(&mut m, &mut board, &mut bank, HotelChain::Luxor, vec![Position::new('A', 1), Position::new('A', 2)]);
    chain_with(&mut m, &mut board, &mut bank, HotelChain::Festival, vec![Position::new('C', 1), Position::new('C', 2)]);
    assert_eq!(longest_chain(&HotelChain::Luxor, &HotelChain::Festival, None, None, &m), None);
    chain_with(&mut m, &mut board, &mut bank, HotelChain::Imperial, vec![
        Position::new('E', 1),
        Position::new('E', 2),
        Position::new('E', 3),
    ]);
    assert_eq!(
        longest_chain(&HotelChain::Imperial, &HotelChain::Festival, None, None, &m),
        Some(HotelChain::Imperial)
    );
}

#[test]
fn a_full_board_cannot_continue() {
    let mut board = Board::new();
    let m = HotelChainManager::new();
    assert!(can_game_continue(&board, &m));
    for c in ['A', 'B', 'C', 'D', 'E', 'F', 'G', 'H', 'I'] {
        for i in 1..=12 {
            board.place_hotel(&Position::new(c, i)).unwrap();
        }
    }
    assert!(!can_game_continue(&board, &m));
}

#[test]
fn shareholders_do_not_depend_on_the_order_of_players() {
    let holdings = [(0u32, 3u32), (1, 5), (2, 3), (3, 1)];
    let make = |order: &[usize]| {
        let mut players = Vec::new();
        for &k in order {
            let (id, n) = holdings[k];
            let mut p = Player::new(vec![], id, false);
            p.add_stocks(&HotelChain::Oriental, n);
            players.push(p);
        }
        let mut bank = Bank::new();
        bank.update_largest_shareholders(&players);
        bank
    };
    let forward = make(&[0, 1, 2, 3]);
    let backward = make(&[3, 2, 1, 0]);
    for bank in [&forward, &backward] {
        assert!(bank.is_largest_shareholder(1, &HotelChain::Oriental));
        assert!(!bank.is_largest_shareholder(0, &HotelChain::Oriental));
        assert!(bank.is_second_largest_shareholder(0, &HotelChain::Oriental));
        assert!(bank.is_second_largest_shareholder(2, &HotelChain::Oriental));
        assert!(!bank.is_second_largest_shareholder(3, &HotelChain::Oriental));
        assert!(!bank.is_second_largest_shareholder(1, &HotelChain::Oriental));
    }
}

#[test]
fn the_board_has_nine_rows_of_twelve() {
    let mut board = Board::new();
    assert_eq!(board.pieces.len(), 9);
    assert!(board.pieces.iter().all(|row| row.len() == 12));
    assert_eq!(board.pieces[0][0].position, Position::new('A', 1));
    assert_eq!(board.pieces[8][11].position, Position::new('I', 12));
    assert_eq!(board.pieces[3][6].position, Position::new('D', 7));
    board.place_hotel(&Position::new('D', 7)).unwrap();
    assert!(board.pieces[3][6].piece_set);
    assert!(!board.pieces[3][5].piece_set);
}

#[test]
fn a_whole_fusion_gives_the_survivor_every_hotel() {
    let mut board = Board::new();
    let mut bank = Bank::new();
    let mut m = HotelChainManager::new();
    chain_with(&mut m, &mut board, &mut bank, HotelChain::Luxor, vec![
        Position::new('C', 1),
        Position::new('C', 2),
        Position::new('C', 3),
    ]);
    chain_with(&mut m, &mut board, &mut bank, HotelChain::Festival, vec![Position::new('E', 2), Position::new('F', 2)]);
    chain_with(&mut m, &mut board, &mut bank, HotelChain::Airport, vec![Position::new('D', 3), Position::new('D', 4)]);
    let origin = Position::new('D', 2);
    board.place_hotel(&origin).unwrap();
    let order = vec![HotelChain::Festival, HotelChain::Airport];
    assert_eq!(m.fuse_all_into(&HotelChain::Luxor, &order, origin, &mut board), Ok(()));
    assert_eq!(m.chain_length(&HotelChain::Luxor), 3 + 2 + 2 + 1);
    assert!(!m.chain_status(&HotelChain::Festival));
    assert!(!m.chain_status(&HotelChain::Airport));
    for p in [Position::new('E', 2), Position::new('F', 2), Position::new('D', 3), Position::new('D', 4), origin] {
        assert_eq!(board.is_hotel_placed(&p), Some(Some(HotelChain::Luxor)));
    }
}

#[test]
fn a_whole_fusion_needs_the_hotel_at_the_origin_and_active_chains() {
    let mut board = Board::new();
    let mut bank = Bank::new();
    let mut m = HotelChainManager::new();
    chain_with(&mut m, &mut board, &mut bank, HotelChain::Luxor, vec![Position::new('C', 1), Position::new('C', 2)]);
    chain_with(&mut m, &mut board, &mut bank, HotelChain::Festival, vec![Position::new('E', 1), Position::new('E', 2)]);
    let origin = Position::new('D', 1);
    assert_eq!(
        m.fuse_all_into(&HotelChain::Luxor, &vec![HotelChain::Imperial], origin, &mut board),
        Err(GameError::FusionChainMissing { alive: HotelChain::Luxor, dead: HotelChain::Imperial })
    );
    assert_eq!(
        m.fuse_all_into(&HotelChain::Luxor, &vec![HotelChain::Festival], origin, &mut board),
        Err(GameError::HotelNotPlaced(origin))
    );
}

#[test]
fn the_longer_chain_survives_a_demonstration_fusion() {
    let mut board = Board::new();
    let mut bank = Bank::new();
    let mut m = HotelChainManager::new();
    chain_with(&mut m, &mut board, &mut bank, HotelChain::Luxor, vec![Position::new('A', 1), Position::new('A', 2)]);
    chain_with(&mut m, &mut board, &mut bank, HotelChain::Festival, vec![
        Position::new('C', 1),
        Position::new('C', 2),
        Position::new('C', 3),
    ]);
    let chains = vec![HotelChain::Luxor, HotelChain::Festival];
    assert_eq!(fusion_pair(&chains, 0, 1, &m), (HotelChain::Festival, HotelChain::Luxor));
    assert_eq!(fusion_pair(&chains, 1, 0, &m), (HotelChain::Festival, HotelChain::Luxor));
    assert_eq!(random_fusion_pair(&chains, &m), Some((HotelChain::Festival, HotelChain::Luxor)));
    assert_eq!(random_fusion_pair(&vec![HotelChain::Luxor], &m), None);
}

#[test]
fn fusing_a_chain_into_itself_ends_it() {
    let mut board = Board::new();
    let mut bank = Bank::new();
    let mut m = HotelChainManager::new();
    chain_with(&mut m, &mut board, &mut bank, HotelChain::Luxor, vec![Position::new('A', 1), Position::new('A', 2)]);
    assert_eq!(m.fuse_chains(&HotelChain::Luxor, &HotelChain::Luxor, &mut board), Ok(()));
    assert!(!m.chain_status(&HotelChain::Luxor));
    assert_eq!(m.chain_length(&HotelChain::Luxor), 0);
}
