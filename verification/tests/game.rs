use acquire_rs::board::Position;
use acquire_rs::chain::HotelChain;
use acquire_rs::error::GameError;
use acquire_rs::game::{draw_card, GameManager, Round, Settings};
use acquire_rs::player::Player;

fn setup_hotel(
    game_manager: &mut GameManager,
    player: &mut Player,
    _round: &Round,
    hotel_chain: &HotelChain,
) -> Result<(), GameError> {
    let mut cards: Vec<Position> = Vec::new();
    for _i in 1..=13 {
        cards.push(draw_card(&mut game_manager.position_cards)?.unwrap());
    }
    for card in &cards {
        game_manager.board.place_hotel(card)?;
    }
    game_manager.hotel_chain_manager.start_chain(
        *hotel_chain,
        cards,
        &mut game_manager.board,
        player,
        &mut game_manager.bank,
    )?;
    Ok(())
}

#[test]
fn chain_status_and_length_correct() -> Result<(), GameError> {
    let mut game_manager = GameManager::new(2, Settings::new_default()).unwrap();
    let round = Round::new(1);
    for hotel_chain in HotelChain::iterator() {
        setup_hotel(&mut game_manager, &mut Player::new(vec![], 1, false), &round, &hotel_chain)?;
        assert_eq!(game_manager.hotel_chain_manager.chain_status(&hotel_chain), true);
        assert_eq!(game_manager.hotel_chain_manager.chain_length(&hotel_chain), 13);
    }
    Ok(())
}

#[test]
fn fusion_correct() -> Result<(), GameError> {
    let mut game_manager = GameManager::new(2, Settings::new_default()).unwrap();
    let round = Round::new(1);
    let mut player = Player::new(vec![Position::new('A', 1)], 0, false);
    let hotel_chain_1 = &HotelChain::Airport;
    let hotel_chain_2 = &HotelChain::Continental;
    setup_hotel(&mut game_manager, &mut player, &round, hotel_chain_1)?;
    setup_hotel(&mut game_manager, &mut player, &round, hotel_chain_2)?;
    game_manager.hotel_chain_manager.fuse_chains(
        &HotelChain::Continental,
        &HotelChain::Airport,
        &mut game_manager.board,
    )?;
    assert_eq!(game_manager.hotel_chain_manager.chain_status(hotel_chain_1), false);
    assert_eq!(game_manager.hotel_chain_manager.chain_status(hotel_chain_2), true);
    assert_eq!(game_manager.hotel_chain_manager.chain_length(hotel_chain_1), 0);
    assert_eq!(game_manager.hotel_chain_manager.chain_length(hotel_chain_2), 26);
    Ok(())
}

#[test]
fn draw_card_works() {
    let mut game = GameManager::new(2, Settings::new(false, false, false)).unwrap();
    draw_card(&mut game.position_cards).unwrap();
    draw_card(&mut game.position_cards).unwrap();
    assert_eq!(game.position_cards.len(), 94);
    game = GameManager::new(6, Settings::new(false, false, false)).unwrap();
    draw_card(&mut game.position_cards).unwrap();
    assert_eq!(game.position_cards.len(), 71);
}

#[test]
fn position_card_amount_correctly_initialized() {
    let mut index = 0;
    while index <= 1000 {
        let game = GameManager::new(2, Settings::new_default()).unwrap();
        assert_eq!(game.position_cards.len(), 96);
        index += 1;
    }
}
