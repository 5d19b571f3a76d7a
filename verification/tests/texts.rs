use acquire_rs::bank::Bank;
use acquire_rs::board::{Board, Position};
use acquire_rs::chain::HotelChain;
use acquire_rs::chain_manager::HotelChainManager;
use acquire_rs::demo::{
    is_neighbour_free, random_concatenated_positions, random_neighbour, try_neighbour, update_placed_hotels,
};
use acquire_rs::display::{main_ui, stock_status_symbol};
use acquire_rs::game::base::{HotelChain as BaseChain, Piece as BasePiece};
use acquire_rs::game::{Round, Settings};
use acquire_rs::placement::AnalyzedPosition;
use acquire_rs::player::Player;
use acquire_rs::protocol::{
    broadcast_targets, frame_message, init_message, other_players, parse_join_message, parse_server_line, trim,
    ClientCommand, JoinMessage,
};
use acquire_rs::tui::App;
use acquire_rs::utils::{generate_number_vector, get_content_from_vec, remove_content_from_vec};

#[test]
fn positions_are_written_by_letter_and_number() {
    assert_eq!(Position::new('B', 3).to_string(), "B3");
    assert_eq!(Position::new('I', 12).to_string(), "I12");
    assert_eq!(AnalyzedPosition::new_unchecked(Position::new('C', 4)).to_string(), "C4");
}

#[test]
fn pieces_are_shown_in_their_colours() {
    let mut board = Board::new();
    assert_eq!(board.piece_at(0).print_text(true), "\x1b[37m \x1b[39m");
    assert_eq!(board.piece_at(13).print_text(false), "\x1b[37mB 2\x1b[39m");
    board.place_hotel(&Position::new('A', 1)).unwrap();
    assert_eq!(board.piece_at(0).print_text(true), "\x1b[97mX\x1b[39m");
    assert_eq!(board.piece_at(0).print_text(false), "\x1b[97mXXX\x1b[39m");
    board.update_hotel(HotelChain::Airport, &Position::new('A', 1)).unwrap();
    assert_eq!(board.piece_at(0).print_text(true), "\x1b[38;2;107;141;165mA\x1b[39m");
    assert_eq!(board.piece_at(0).print_text(false), "\x1b[38;2;107;141;165m A \x1b[39m");
}

#[test]
fn board_state_lines() {
    let board = Board::new();
    let small = board.get_board_state(true);
    assert_eq!(small.len(), 10);
    let empty = "\x1b[37m \x1b[39m";
    assert_eq!(small[0], format!("A {}", format!("{}  ", empty).repeat(12)));
    assert_eq!(small[9], "  1  2  3  4  5  6  7  8  9 10 11 12 ");
    let large = board.get_board_state(false);
    assert_eq!(large.len(), 18);
    assert_eq!(large[1], "--------------------------------------------------");
    assert_eq!(large[2], format!("B {}", format!("| {} ", empty).repeat(12)));
    assert_eq!(large[17], "    1   2   3   4   5   6   7   8   9  10  11  12  ");
}

#[test]
fn player_status_lines() {
    let player = Player::new(vec![Position::new('A', 1)], 0, false);
    let ui = player.player_ui();
    assert_eq!(ui.len(), 3);
    assert_eq!(ui[0], "\x1b[92mMoney:\x1b[39m 6000€");
    assert_eq!(ui[1], "\x1b[92mCards: \x1b[39m(\x1b[94m1\x1b[39m) A1");
    assert!(ui[2].starts_with("\x1b[92mStocks: \x1b[39m\x1b[38;2;107;141;165mAirport\x1b[39m: 0, "));
}

#[test]
fn main_ui_shows_board_round_and_chains() {
    let board = Board::new();
    let bank = Bank::new();
    let m = HotelChainManager::new();
    let settings = Settings::new_default();
    let player = Player::new(vec![], 0, false);
    let name = String::from("Player 1");
    let round = Round::new(2);
    let ui = main_ui(Some(&player), Some(&name), &board, &settings, Some(&round), &bank, &m);
    assert_eq!(ui.len(), 18 + 1 + 3 + 3 + 1 + 4 + 7);
    assert_eq!(ui[18], "");
    assert_eq!(ui[19], "Round 2");
    assert_eq!(ui[20], "Current player: Player 1");
    assert_eq!(ui[21], "Player 1, your status:");
    let none = main_ui(None, None, &board, &settings, None, &bank, &m);
    assert_eq!(none[19], "Round 0 - Game has not been started yet");
    assert_eq!(none.len(), 18 + 1 + 1 + 1 + 4 + 7);
    let gray = "\x1b[38;2;105;105;105m";
    assert_eq!(
        none[none.len() - 7],
        format!(
            "{}Airport     \x1b[39m{}[L]\x1b[39m{}||    0   ||         ||   0  ||    0\x1b[39m {} ||    0€ ||            0€       ||            0€\x1b[39m",
            gray, gray, gray, gray
        )
    );
}

#[test]
fn shareholder_star() {
    let mut board = Board::new();
    let mut bank = Bank::new();
    let mut m = HotelChainManager::new();
    let mut players = vec![Player::new(vec![], 0, false)];
    m.start_chain(HotelChain::Luxor, vec![Position::new('A', 1), Position::new('A', 2)], &mut board, &mut players[0], &mut bank)
        .unwrap();
    bank.update_largest_shareholders(&players);
    assert_eq!(stock_status_symbol(&bank, &m, &HotelChain::Luxor, 0, true), "\x1b[38;2;225;215;0m*\x1b[39m");
    assert_eq!(stock_status_symbol(&bank, &m, &HotelChain::Luxor, 0, false), " ");
    assert_eq!(stock_status_symbol(&bank, &m, &HotelChain::Airport, 0, true), " ");
}

#[test]
fn server_lines_are_understood() {
    assert_eq!(parse_server_line("$Printlnhello\n"), ClientCommand::Println(String::from("hello")));
    assert_eq!(parse_server_line("$Printhello\n"), ClientCommand::Print(String::from("hello")));
    assert_eq!(parse_server_line("$InputName? \n"), ClientCommand::Input(String::from("Name? ")));
    assert_eq!(parse_server_line("$Ping\n"), ClientCommand::Ping);
    assert_eq!(parse_server_line("$TERMINATEbad\n"), ClientCommand::Terminate(String::from("bad\n")));
    assert_eq!(parse_server_line("$GameEnded\n"), ClientCommand::GameEnded);
    assert_eq!(parse_server_line("hello"), ClientCommand::Unknown);
    // A print of a text that starts with "ln" reads as a print with a line break.
    assert_eq!(parse_server_line("$Printlnx\n"), ClientCommand::Println(String::from("x")));
}

#[test]
fn framed_lines_read_back() {
    let frames = frame_message("hello\nworld", "$Println");
    assert_eq!(frames, vec![String::from("$Printlnhello\n"), String::from("$Printlnworld\n")]);
    for (f, t) in frames.iter().zip(["hello", "world"]) {
        assert_eq!(parse_server_line(f), ClientCommand::Println(String::from(t)));
    }
    assert_eq!(frame_message("", "$Print"), vec![String::from("$Print\n")]);
}

#[test]
fn join_messages_read_back() {
    let line = init_message(true, " Bob ");
    assert_eq!(line, "$Inittrue$Name Bob \n");
    match parse_join_message(&line) {
        JoinMessage::Join { small_board, name } => {
            assert!(small_board);
            assert_eq!(name, "Bob");
        },
        other => panic!("{:?}", other),
    }
    assert!(matches!(parse_join_message("$Initfalse"), JoinMessage::Malformed));
    assert!(matches!(parse_join_message("hello"), JoinMessage::NotJoin));
    assert_eq!(trim("  a b \t\n"), "a b");
    assert_eq!(trim(" \n "), "");
}

#[test]
fn broadcasts_reach_each_screen_once() {
    assert_eq!(broadcast_targets(&vec![false, true, false, true]), vec![0, 1, 3]);
    assert_eq!(broadcast_targets(&vec![true, true]), vec![0, 1]);
    let players = vec![
        Player::new_named(vec![], 0, false, String::from("Ann")),
        Player::new_named(vec![], 1, false, String::from("Bob")),
        Player::new_named(vec![], 2, false, String::from("Cid")),
    ];
    assert_eq!(other_players(&players, "Bob"), vec![0, 2]);
}

#[test]
fn number_vectors_and_lookups() {
    assert_eq!(generate_number_vector(3, 6), vec![3, 4, 5, 6]);
    assert_eq!(generate_number_vector(5, 3), Vec::<u32>::new());
    let mut v = vec![1u32, 3, 5, 3];
    assert_eq!(remove_content_from_vec(3, &mut v), Ok(()));
    assert_eq!(v, vec![1, 5, 3]);
    assert!(remove_content_from_vec(7, &mut v).is_err());
    assert_eq!(get_content_from_vec(5, &v), Ok(&5));
    assert!(get_content_from_vec(9, &v).is_err());
}

#[test]
fn demo_layout_keeps_chains_apart() {
    let mut placed: Vec<(Position, HotelChain)> = Vec::new();
    update_placed_hotels(&HotelChain::Airport, &vec![Position::new('B', 2), Position::new('B', 3)], &mut placed);
    assert!(is_neighbour_free(&HotelChain::Airport, Position::new('B', 4), &placed));
    assert!(!is_neighbour_free(&HotelChain::Luxor, Position::new('B', 4), &placed));
    let mut allowed = vec![Position::new('C', 3), Position::new('B', 5)];
    assert_eq!(try_neighbour(&HotelChain::Luxor, Position::new('C', 4), 2, &mut allowed, &placed), None);
    assert_eq!(allowed.len(), 2);
    assert_eq!(
        try_neighbour(&HotelChain::Airport, Position::new('B', 4), 0, &mut allowed, &placed),
        Some(Position::new('B', 5))
    );
    assert_eq!(allowed, vec![Position::new('C', 3)]);
    let mut allowed_all: Vec<Position> = acquire_rs::game::init_position_cards();
    let path = random_concatenated_positions(&HotelChain::Festival, Position::new('E', 6), &mut allowed_all, &placed);
    assert_eq!(path[0], Position::new('E', 6));
    assert_eq!(allowed_all.len() + path.len() - 1, 108);
}

#[test]
fn base_pieces_and_chains() {
    assert_eq!(BasePiece { placed: true, chain: Some(BaseChain::Luxor) }.to_string(), "L");
    assert_eq!(BasePiece { placed: false, chain: None }.to_string(), " ");
    assert_eq!(BaseChain::Prestige.identifier(), 'P');
    let _app = App::new();
}

#[test]
fn random_neighbour_found_when_every_direction_is_open() {
    let placed: Vec<(Position, HotelChain)> = Vec::new();
    let mut allowed = acquire_rs::game::init_position_cards();
    let found = random_neighbour(&HotelChain::Luxor, Position::new('E', 6), &mut allowed, &placed).unwrap();
    assert!(Position::new('E', 6).neighbours().contains(&found));
    assert_eq!(allowed.len(), 107);
    assert!(!allowed.contains(&found));
}
