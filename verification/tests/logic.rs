use acquire_rs::bank::Bank;
use acquire_rs::board::{Board, Position};
use acquire_rs::chain::HotelChain;
use acquire_rs::chain_manager::HotelChainManager;
use acquire_rs::error::GameError;
use acquire_rs::logic::{can_game_continue, check_end_condition, longest_chain};
use acquire_rs::placement::{analyze_position, surrounding_positions, IllegalPlacement, PlaceHotelCase};
use acquire_rs::player::Player;

#[test]
fn logic_surrounding_positions_correct() -> Result<(), GameError> {
    let origin = Position::new('B', 2);
    let surrounding_positions = surrounding_positions(&origin);
    let should = vec![Position::new('B', 1), Position::new('B', 3), Position::new('A', 2), Position::new('C', 2)];
    for position in should {
        assert!(surrounding_positions.contains(&position));
    }
    Ok(())
}

#[test]
fn longest_chain_works() -> Result<(), GameError> {
    let mut board = Board::new();
    let mut bank = Bank::new();
    let mut hotel_chain_manager = HotelChainManager::new();
    let mut players = vec![Player::new(vec![], 0, false), Player::new(vec![], 1, false)];
    let chain1 = &HotelChain::Luxor;
    let chain2 = &HotelChain::Festival;
    let chain3 = &HotelChain::Imperial;
    let chain4 = &HotelChain::Continental;
    hotel_chain_manager.start_chain(
        *chain1,
        vec![Position::new('E', 3), Position::new('E', 4)],
        &mut board,
        players.get_mut(0).unwrap(),
        &mut bank,
    )?;
    hotel_chain_manager.start_chain(
        *chain2,
        vec![Position::new('C', 5), Position::new('D', 5)],
        &mut board,
        players.get_mut(0).unwrap(),
        &mut bank,
    )?;
    hotel_chain_manager.start_chain(
        *chain3,
        vec![Position::new('F', 5), Position::new('G', 5), Position::new('H', 5)],
        &mut board,
        players.get_mut(0).unwrap(),
        &mut bank,
    )?;
    hotel_chain_manager.start_chain(
        *chain4,
        vec![Position::new('E', 6), Position::new('E', 7)],
        &mut board,
        players.get_mut(0).unwrap(),
        &mut bank,
    )?;
    assert_eq!(longest_chain(chain1, chain3, None, None, &hotel_chain_manager).unwrap(), *chain3);
    assert_eq!(longest_chain(chain1, chain2, Some(chain3), None, &hotel_chain_manager).unwrap(), *chain3);
    assert_eq!(
        longest_chain(chain1, chain2, Some(chain3), Some(chain4), &hotel_chain_manager).unwrap(),
        *chain3
    );
    Ok(())
}

#[test]
fn analyze_allowed_positions() -> Result<(), GameError> {
    let mut board = Board::new();
    let mut bank = Bank::new();
    let mut hotel_chain_manager = HotelChainManager::new();
    // Place some test hotels
    board.place_hotel(&Position::new('B', 2))?;
    let chain1 = vec![Position::new('H', 3), Position::new('H', 4)];
    let chain2 = vec![Position::new('G', 6), Position::new('H', 6)];
    for chain in &chain1 {
        board.place_hotel(chain)?;
    }
    for chain in &chain2 {
        board.place_hotel(chain)?;
    }
    hotel_chain_manager.start_chain(HotelChain::Airport, chain1, &mut board, &mut Player::new(vec![], 0, false), &mut bank)?;
    hotel_chain_manager.start_chain(
        HotelChain::Continental,
        chain2,
        &mut board,
        &mut Player::new(vec![], 0, false),
        &mut bank,
    )?;
    println!("Start new chain name: {}", PlaceHotelCase::NewChain(vec![]).kind_name());
    // Case 1: Isolated hotel
    assert_eq!(analyze_position(&Position::new('F', 2), &board, &hotel_chain_manager), PlaceHotelCase::SingleHotel);
    // Case 2: Start new chain
    assert_eq!(analyze_position(&Position::new('C', 2), &board, &hotel_chain_manager).kind_name(), "NewChain");
    // Case 3: Extend chain
    assert_eq!(analyze_position(&Position::new('I', 4), &board, &hotel_chain_manager).kind_name(), "ExtendsChain");
    // Case 4: Fusion
    assert_eq!(analyze_position(&Position::new('H', 5), &board, &hotel_chain_manager).kind_name(), "Fusion");
    Ok(())
}

#[test]
fn analyze_illegal_positions() -> Result<(), GameError> {
    let mut board = Board::new();
    let mut bank = Bank::new();
    let mut hotel_chain_manager = HotelChainManager::new();
    let mut player = Player::new(vec![Position::new('B', 3), Position::new('E', 6)], 0, false);
    // Place some test hotels
    let mut positions1 = Vec::new();
    let mut positions2 = Vec::new();
    for i in 1..=12 {
        let position1 = Position::new('A', i);
        let position2 = Position::new('C', i);
        board.place_hotel(&position1)?;
        board.place_hotel(&position2)?;
        positions1.push(position1);
        positions2.push(position2);
    }
    // Test fusion illegal
    hotel_chain_manager.start_chain(HotelChain::Airport, positions1, &mut board, &mut player, &mut bank)?;
    hotel_chain_manager.start_chain(HotelChain::Continental, positions2, &mut board, &mut player, &mut bank)?;
    assert_eq!(
        analyze_position(&Position::new('B', 3), &board, &hotel_chain_manager),
        PlaceHotelCase::Illegal(IllegalPlacement::FusionIllegal)
    );
    // Test start new chain illegal
    hotel_chain_manager.start_chain(
        HotelChain::Festival,
        vec![Position::new('E', 1), Position::new('E', 2)],
        &mut board,
        &mut player,
        &mut bank,
    )?;
    hotel_chain_manager.start_chain(
        HotelChain::Imperial,
        vec![Position::new('G', 1), Position::new('G', 2)],
        &mut board,
        &mut player,
        &mut bank,
    )?;
    hotel_chain_manager.start_chain(
        HotelChain::Luxor,
        vec![Position::new('I', 1), Position::new('I', 2)],
        &mut board,
        &mut player,
        &mut bank,
    )?;
    hotel_chain_manager.start_chain(
        HotelChain::Oriental,
        vec![Position::new('G', 11), Position::new('G', 12)],
        &mut board,
        &mut player,
        &mut bank,
    )?;
    hotel_chain_manager.start_chain(
        HotelChain::Prestige,
        vec![Position::new('E', 11), Position::new('E', 12)],
        &mut board,
        &mut player,
        &mut bank,
    )?;
    board.place_hotel(&Position::new('E', 5))?;
    println!("Available chains: {:?}", hotel_chain_manager.available_chains());
    player.analyze_cards(&board, &hotel_chain_manager);
    assert!(player.only_illegal_cards());
    assert_eq!(
        analyze_position(&Position::new('E', 6), &board, &hotel_chain_manager),
        PlaceHotelCase::Illegal(IllegalPlacement::ChainStartIllegal)
    );
    Ok(())
}

#[test]
fn is_end_game_condition_met_working() -> Result<(), GameError> {
    let mut board = Board::new();
    let mut hotel_chain_manager = HotelChainManager::new();
    let mut bank = Bank::new();
    let mut player = Player::new(vec![], 0, false);
    let mut positions = Vec::new();
    // Check no end condition is met
    assert!(check_end_condition(&board, &hotel_chain_manager).is_none());
    for c in vec!['A', 'B', 'C', 'D'] {
        for i in 1..=12 {
            positions.push(Position::new(c, i));
        }
    }
    hotel_chain_manager.start_chain(HotelChain::Luxor, positions, &mut board, &mut player, &mut bank)?;
    // Check end condition is met when one hotel has 41 or more hotels
    assert!(check_end_condition(&board, &hotel_chain_manager).is_some());
    let mut board = Board::new();
    let mut hotel_chain_manager = HotelChainManager::new();
    for c in vec!['A', 'C', 'E', 'G', 'I'] {
        let mut positions = Vec::new();
        for i in 1..=12 {
            positions.push(Position::new(c, i));
        }
        let chain = match c {
            'A' => HotelChain::Airport,
            'C' => HotelChain::Continental,
            'E' => HotelChain::Luxor,
            'G' => HotelChain::Oriental,
            'I' => HotelChain::Prestige,
            _ => HotelChain::Imperial,
        };
        hotel_chain_manager.start_chain(chain, positions, &mut board, &mut player, &mut bank)?;
    }
    // Check all hotels 10 or more and no place to found new
    assert!(check_end_condition(&board, &hotel_chain_manager).is_some());
    assert!(!can_game_continue(&board, &hotel_chain_manager));
    Ok(())
}
