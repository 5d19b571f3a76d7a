use acquire_rs::bank::Bank;
use acquire_rs::board::{Board, Position};
use acquire_rs::chain::{HotelChain, PriceLevel};
use acquire_rs::chain_manager::HotelChainManager;
use acquire_rs::error::GameError;
use acquire_rs::game::{GameManager, Settings};
use acquire_rs::player::Player;
use acquire_rs::stock::stock_price;

#[test]
fn base_game_surrounding_positions_correct() {
    let position = Position::new('B', 3);
    let position_prev = Position::new('B', 2);
    let position_next = Position::new('B', 4);
    let position_up = Position::new('A', 3);
    let position_down = Position::new('C', 3);
    assert_eq!(position_prev, position.prev().unwrap());
    assert_eq!(position_next, position.next().unwrap());
    assert_eq!(position_up, position.up().unwrap());
    assert_eq!(position_down, position.down().unwrap());
}

#[test]
fn is_hotel_placed() -> Result<(), GameError> {
    let mut board = Board::new();
    let position = Position::new('H', 5);
    board.place_hotel(&position)?;
    assert!(board.is_hotel_placed(&position).is_some());
    let position2 = Position::new('G', 3);
    board.place_hotel_debug(position2, HotelChain::Luxor)?;
    assert!(board.is_hotel_placed(&position2).unwrap().is_some());
    assert!(board.is_hotel_placed(&Position::new('F', 4)).is_none());
    Ok(())
}

#[test]
fn hotel_names_correct() {
    assert_eq!("Airport", HotelChain::Airport.to_string());
    assert_eq!("Continental", HotelChain::Continental.to_string());
    assert_eq!("Festival", HotelChain::Festival.to_string());
    assert_eq!("Imperial", HotelChain::Imperial.to_string());
    assert_eq!("Luxor", HotelChain::Luxor.to_string());
    assert_eq!("Oriental", HotelChain::Oriental.to_string());
    assert_eq!("Prestige", HotelChain::Prestige.to_string());
}

#[test]
fn stock_price_correct() {
    assert_eq!(stock_price(PriceLevel::Low, 2), 200);
    assert_eq!(stock_price(PriceLevel::Low, 40), 900);
    assert_eq!(stock_price(PriceLevel::Medium, 4), 500);
    assert_eq!(stock_price(PriceLevel::Medium, 20), 800);
    assert_eq!(stock_price(PriceLevel::High, 4), 600);
    assert_eq!(stock_price(PriceLevel::High, 20), 900);
}

#[test]
fn base_game_stock_price_correct() -> Result<(), GameError> {
    let mut game_manager = GameManager::new(2, Settings::new_default()).unwrap();
    game_manager.hotel_chain_manager.start_chain(
        HotelChain::Airport,
        vec![Position::new('A', 1), Position::new('A', 2)],
        &mut game_manager.board,
        &mut Player::new(Vec::new(), 1, false),
        &mut game_manager.bank,
    )?;
    game_manager.hotel_chain_manager.start_chain(
        HotelChain::Imperial,
        vec![Position::new('B', 3), Position::new('C', 3), Position::new('C', 4)],
        &mut game_manager.board,
        &mut Player::new(Vec::new(), 1, false),
        &mut game_manager.bank,
    )?;
    game_manager.hotel_chain_manager.start_chain(
        HotelChain::Continental,
        vec![Position::new('H', 1), Position::new('H', 2), Position::new('H', 3), Position::new('H', 4)],
        &mut game_manager.board,
        &mut Player::new(Vec::new(), 1, false),
        &mut game_manager.bank,
    )?;
    println!("Number of hotels: {}", game_manager.hotel_chain_manager.chain_length(&HotelChain::Airport));
    assert_eq!(Bank::stock_price(&game_manager.hotel_chain_manager, &HotelChain::Airport), 200);
    assert_eq!(Bank::stock_price(&game_manager.hotel_chain_manager, &HotelChain::Imperial), 400);
    assert_eq!(Bank::stock_price(&game_manager.hotel_chain_manager, &HotelChain::Continental), 600);
    Ok(())
}

fn is_error(input: Result<(), GameError>) -> bool {
    match input {
        Err(_) => true,
        Ok(_) => false,
    }
}

#[test]
fn buy_stock_errors_work() {
    let mut game = GameManager::new(2, Settings::new_default()).unwrap();
    // Test if Hotel is not active error works
    let mut input = game.bank.buy_stock(&game.hotel_chain_manager, &HotelChain::Airport, game.players.get_mut(0).unwrap());
    assert!(is_error(input));
    // Test if no stocks left error works
    game.bank.stocks_for_sale.set_stocks(&HotelChain::Airport, 0);
    input = game.bank.buy_stock(&game.hotel_chain_manager, &HotelChain::Airport, game.players.get_mut(0).unwrap());
    assert!(is_error(input));
    // Test if not enough money error works
    game.bank.stocks_for_sale.set_stocks(&HotelChain::Airport, 5);
    game.players.get_mut(0).unwrap().money = 0;
    input = game.bank.buy_stock(&game.hotel_chain_manager, &HotelChain::Airport, game.players.get_mut(0).unwrap());
    assert!(is_error(input));
}

#[test]
fn exchange_stocks_works() -> Result<(), GameError> {
    let mut bank = Bank::new();
    let mut player = Player::new(vec![], 0, false);
    let dead = HotelChain::Airport;
    let alive = HotelChain::Festival;
    player.owned_stocks.increase_stocks(&dead, 6);
    bank.exchange_stock(&mut player, 6, &dead, &HotelChain::Festival)?;
    assert_eq!(*player.owned_stocks.stocks_for_hotel(&alive), 3);
    Ok(())
}

#[test]
fn largest_shareholders_correct() {
    let mut game_manager = GameManager::new(4, Settings::new_default()).unwrap();
    let mut index = 0;
    while index < 4 {
        let player = game_manager.players.get_mut(index).unwrap();
        match index {
            0 => {
                player.owned_stocks.set_stocks(&HotelChain::Airport, 7);
                player.owned_stocks.set_stocks(&HotelChain::Continental, 10);
                player.owned_stocks.set_stocks(&HotelChain::Festival, 5);
                player.owned_stocks.set_stocks(&HotelChain::Imperial, 7);
            }
            1 => {
                player.owned_stocks.set_stocks(&HotelChain::Airport, 2);
                player.owned_stocks.set_stocks(&HotelChain::Continental, 10);
                player.owned_stocks.set_stocks(&HotelChain::Festival, 3);
            }
            2 => {
                player.owned_stocks.set_stocks(&HotelChain::Festival, 3);
                player.owned_stocks.set_stocks(&HotelChain::Continental, 10);
            }
            3 => {
                player.owned_stocks.set_stocks(&HotelChain::Festival, 3);
            }
            _ => (),
        }
        index += 1;
    }
    game_manager.bank.update_largest_shareholders(&game_manager.players);
    let bank = &game_manager.bank;
    let id = |i: usize| game_manager.players.get(i).unwrap().id;
    // Test case 1: one largest and one second largest shareholder
    assert!(bank.is_largest_shareholder(id(0), &HotelChain::Airport));
    assert!(bank.is_second_largest_shareholder(id(1), &HotelChain::Airport));
    // Test case 2: multiple largest shareholders
    assert!(bank.is_largest_shareholder(id(0), &HotelChain::Continental));
    assert!(bank.is_second_largest_shareholder(id(0), &HotelChain::Continental));
    assert!(bank.is_largest_shareholder(id(1), &HotelChain::Continental));
    assert!(bank.is_second_largest_shareholder(id(1), &HotelChain::Continental));
    assert!(bank.is_largest_shareholder(id(2), &HotelChain::Continental));
    assert!(bank.is_second_largest_shareholder(id(2), &HotelChain::Continental));
    // Test case 3: one largest and multiple second largest shareholders
    assert!(bank.is_largest_shareholder(id(0), &HotelChain::Festival));
    assert!(bank.is_second_largest_shareholder(id(1), &HotelChain::Festival));
    assert!(bank.is_second_largest_shareholder(id(2), &HotelChain::Festival));
    assert!(bank.is_second_largest_shareholder(id(3), &HotelChain::Festival));
    // Test case 4: one player is largest and second largest shareholder
    assert!(bank.is_largest_shareholder(id(0), &HotelChain::Imperial));
    assert!(bank.is_second_largest_shareholder(id(0), &HotelChain::Imperial));
    assert!(!bank.is_largest_shareholder(id(1), &HotelChain::Imperial));
    assert!(!bank.is_second_largest_shareholder(id(1), &HotelChain::Imperial));
}

#[test]
fn sell_stock_works() -> Result<(), GameError> {
    let mut bank = Bank::new();
    let mut board = Board::new();
    let mut hotel_chain_manager = HotelChainManager::new();
    let player = Player::new(vec![], 0, false);
    let mut players = vec![player];
    let chain = HotelChain::Airport;
    // Test error
    assert!(bank.sell_stock(players.get_mut(0).unwrap(), 4, &chain, &hotel_chain_manager).is_err());
    hotel_chain_manager.start_chain(
        chain,
        vec![Position::new('A', 1), Position::new('A', 2)],
        &mut board,
        players.get_mut(0).unwrap(),
        &mut bank,
    )?;
    bank.update_largest_shareholders(&players);
    bank.give_majority_shareholder_bonuses(&mut players, &chain, &hotel_chain_manager)?;
    assert_eq!(players.get(0).unwrap().money, 9000);
    Ok(())
}

#[test]
fn give_majority_shareholder_bonuses_works() -> Result<(), GameError> {
    // Basic scenario setup
    let mut bank = Bank::new();
    let mut board = Board::new();
    let mut players = Vec::new();
    players.push(Player::new(vec![], 0, false));
    players.push(Player::new(vec![], 1, false));
    players.push(Player::new(vec![], 2, false));
    let mut hotel_chain_manager = HotelChainManager::new();
    let chain = HotelChain::Imperial;
    let player = players.get_mut(0).unwrap();
    hotel_chain_manager.start_chain(
        chain,
        vec![Position::new('A', 1), Position::new('A', 2)],
        &mut board,
        player,
        &mut bank,
    )?;
    bank.buy_stock(&hotel_chain_manager, &chain, player)?;
    player.money = 6000;
    // 1. 1 Player largest and second largest
    bank.update_largest_shareholders(&players);
    bank.give_majority_shareholder_bonuses(&mut players, &chain, &hotel_chain_manager)?;
    let player = players.get_mut(0).unwrap();
    assert_eq!(player.money, 10500);
    // 2. More than 1 player largest and second largest
    player.money = 6000;
    let player2 = players.get_mut(1).unwrap();
    bank.buy_stock(&hotel_chain_manager, &chain, player2)?;
    bank.buy_stock(&hotel_chain_manager, &chain, player2)?;
    player2.money = 6000;
    bank.update_largest_shareholders(&players);
    bank.give_majority_shareholder_bonuses(&mut players, &chain, &hotel_chain_manager)?;
    let player = players.get_mut(0).unwrap();
    assert_eq!(player.money, 8300);
    let player2 = players.get_mut(1).unwrap();
    assert_eq!(player2.money, 8300);
    // 3. 1 Player largest and more than 1 player second largest
    let player = players.get_mut(0).unwrap();
    bank.buy_stock(&hotel_chain_manager, &chain, player)?;
    player.money = 6000;
    let player2 = players.get_mut(1).unwrap();
    player2.money = 6000;
    let player3 = players.get_mut(2).unwrap();
    bank.buy_stock(&hotel_chain_manager, &chain, player3)?;
    bank.buy_stock(&hotel_chain_manager, &chain, player3)?;
    player3.money = 6000;
    bank.update_largest_shareholders(&players);
    bank.give_majority_shareholder_bonuses(&mut players, &chain, &hotel_chain_manager)?;
    let player = players.get_mut(0).unwrap();
    assert_eq!(player.money, 9000);
    let player2 = players.get_mut(1).unwrap();
    assert_eq!(player2.money, 6800);
    let player3 = players.get_mut(1).unwrap();
    assert_eq!(player3.money, 6800);
    Ok(())
}
