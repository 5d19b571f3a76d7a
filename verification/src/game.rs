//! The game as a whole: its settings, the deck of position cards, the players and the rounds.
pub mod base;

use vstd::multiset::Multiset;
use vstd::prelude::*;

use crate::bank::Bank;
use crate::board::{cell_position, lemma_cell_index_injective, lemma_cell_position_index, letter_at, on_board, Board, Position};
use crate::chain::HotelChain;
use crate::chain_manager::HotelChainManager;
use crate::error::GameError;
use crate::placement::{spec_analyze, AnalyzedPosition};
use crate::player::{default_name, Player};
use crate::random::random_up_to;

verus! {

broadcast use vstd::seq_lib::group_to_multiset_ensures;

/// Stores the settings
#[derive(Clone, Copy, Debug, PartialEq, Eq, Structural)]
pub struct Settings {
    /// Whether the board is printed small.
    pub small_board: bool,
    /// Stores if some extra information should be hidden from the player.
    ///
    /// E.g. If the player is the largest shareholder
    pub hide_extra_info: bool,
    /// Stores if some dialogues should be skipped
    pub skip_dialogues: bool,
}

impl Settings {
    /// Creates the settings; the first flag says whether the board is printed small.
    pub fn new(large_board: bool, hide_extra_info: bool, skip_dialogues: bool) -> (s: Self)
        ensures
            s.small_board == large_board,
            s.hide_extra_info == hide_extra_info,
            s.skip_dialogues == skip_dialogues,
    {
        Self { small_board: large_board, hide_extra_info, skip_dialogues }
    }

    /// Returns a new Settings object with default settings
    pub fn new_default() -> (s: Self)
        ensures
            !s.small_board,
            !s.hide_extra_info,
            !s.skip_dialogues,
    {
        Self { small_board: false, hide_extra_info: false, skip_dialogues: false }
    }
}

/// Every position of the board once, row by row: the cards of a new deck.
pub open spec fn full_deck() -> Seq<Position> {
    Seq::new(108, |i: int| cell_position(i))
}

/// The positions of the hand cards of a player, in order.
pub open spec fn hand(p: Player) -> Seq<Position> {
    p.analyzed_cards@.map_values(|a: AnalyzedPosition| a.position)
}

/// The hand cards of all players, together.
pub open spec fn all_hands(ps: Seq<Player>) -> Multiset<Position>
    decreases ps.len(),
{
    if ps.len() == 0 {
        Multiset::empty()
    } else {
        all_hands(ps.drop_last()).add(hand(ps.last()).to_multiset())
    }
}

/// The deck holds each position at most once, and only positions of the board on which no hotel
/// has been placed.
pub open spec fn deck_fits(deck: Seq<Position>, board: Board) -> bool {
    &&& forall|p: Position| #[trigger] deck.to_multiset().count(p) <= 1
    &&& forall|i: int| 0 <= i < deck.len() ==> on_board(#[trigger] deck[i]) && board.placed(deck[i]) is None
}

/// A player as the game deals them: named by the id, with the starting money, no stocks and six
/// hand cards.
pub open spec fn fresh_player(p: Player, id: int, small_board: bool) -> bool {
    &&& p.id == id
    &&& p.name@ == default_name(id as u32)
    &&& p.money == 6000
    &&& p.small_board == small_board
    &&& forall|c: HotelChain| #[trigger] p.owned_stocks.count(c) == 0
    &&& p.analyzed_cards@.len() == 6
}

/// Draws the card at the index from the deck.
pub fn draw_card_at(position_cards: &mut Vec<Position>, index: usize) -> (c: Position)
    requires
        index < old(position_cards)@.len(),
    ensures
        c == old(position_cards)@[index as int],
        final(position_cards)@ == old(position_cards)@.remove(index as int),
        old(position_cards)@.to_multiset() == final(position_cards)@.to_multiset().insert(c),
{
    let c = position_cards.remove(index);
    proof {
        assert(old(position_cards)@.remove(index as int).to_multiset() =~= old(position_cards)@.to_multiset().remove(c));
    }
    c
}

/// Draws a random card from a deck that is not empty.
fn draw_random_card(position_cards: &mut Vec<Position>) -> (c: Position)
    requires
        old(position_cards)@.len() > 0,
    ensures
        exists|i: int|
            0 <= i < old(position_cards)@.len() && c == old(position_cards)@[i]
                && final(position_cards)@ == old(position_cards)@.remove(i),
        old(position_cards)@.to_multiset() == final(position_cards)@.to_multiset().insert(c),
{
    let index = random_up_to(position_cards.len() - 1);
    draw_card_at(position_cards, index)
}

/// Tries to draw a card from the position_cards deck.
/// # Returns
/// * `Ok(None)` - No card is left that could be drawn
/// * `Ok(Some(position))` - Card has been drawn successfully
///
/// The card is one of the deck's, chosen at random, and leaves the deck.
pub fn draw_card(position_cards: &mut Vec<Position>) -> (r: Result<Option<Position>, GameError>)
    ensures
        old(position_cards)@.len() == 0 ==> r == Ok::<Option<Position>, GameError>(None)
            && final(position_cards)@ == old(position_cards)@,
        old(position_cards)@.len() > 0 ==> (r matches Ok(Some(c)) && exists|i: int|
            0 <= i < old(position_cards)@.len() && c == old(position_cards)@[i] && final(position_cards)@
                == old(position_cards)@.remove(i)),
        r matches Ok(Some(c)) ==> old(position_cards)@.to_multiset()
            == final(position_cards)@.to_multiset().insert(c),
{
    if position_cards.len() == 0 {
        return Ok(None);
    }
    Ok(Some(draw_random_card(position_cards)))
}

/// Initializes all position cards and puts them in the vector
pub fn init_position_cards() -> (cards: Vec<Position>)
    ensures
        cards@ == full_deck(),
{
    let mut cards: Vec<Position> = Vec::new();
    let mut row: usize = 0;
    while row < 9
        invariant
            row <= 9,
            cards@.len() == row * 12,
            forall|i: int| 0 <= i < cards@.len() ==> #[trigger] cards@[i] == cell_position(i),
        decreases 9 - row,
    {
        let c = letter_at(row);
        let mut number: u32 = 1;
        while number <= 12
            invariant
                row < 9,
                1 <= number <= 13,
                c == crate::board::letters()[row as int],
                cards@.len() == row * 12 + number - 1,
                forall|i: int| 0 <= i < cards@.len() ==> #[trigger] cards@[i] == cell_position(i),
            decreases 13 - number,
        {
            proof {
                let i = row * 12 + number - 1;
                assert(i / 12 == row && i % 12 == number - 1) by (nonlinear_arith)
                    requires
                        i == row * 12 + number - 1,
                        1 <= number <= 12,
                ;
            }
            cards.push(Position::new(c, number));
            number = number + 1;
        }
        row = row + 1;
    }
    assert(cards@ =~= full_deck());
    cards
}

/// Draws six random cards from the deck.
fn deal_hand(position_cards: &mut Vec<Position>) -> (h: Vec<Position>)
    requires
        old(position_cards)@.len() >= 6,
    ensures
        h@.len() == 6,
        final(position_cards)@.len() == old(position_cards)@.len() - 6,
        old(position_cards)@.to_multiset() == final(position_cards)@.to_multiset().add(h@.to_multiset()),
{
    let mut h: Vec<Position> = Vec::new();
    let mut k: usize = 0;
    while k < 6
        invariant
            k <= 6,
            old(position_cards)@.len() >= 6,
            h@.len() == k,
            position_cards@.len() == old(position_cards)@.len() - k,
            old(position_cards)@.to_multiset() == position_cards@.to_multiset().add(h@.to_multiset()),
        decreases 6 - k,
    {
        let ghost before = position_cards@;
        let ghost hb = h@;
        let c = draw_random_card(position_cards);
        h.push(c);
        proof {
            assert(h@.to_multiset() =~= hb.to_multiset().insert(c));
            assert(before.to_multiset() =~= position_cards@.to_multiset().insert(c));
            assert(old(position_cards)@.to_multiset() =~= position_cards@.to_multiset().add(h@.to_multiset()));
        }
        k = k + 1;
    }
    h
}

/// The hand of a player is the sequence of positions of their analyzed cards.
proof fn lemma_hand_of(p: Player, cards: Seq<Position>)
    requires
        p.analyzed_cards@.len() == cards.len(),
        forall|i: int| 0 <= i < cards.len() ==> (#[trigger] p.analyzed_cards@[i]).position == cards[i],
    ensures
        hand(p) == cards,
{
    assert(hand(p) =~= cards);
}

/// Deals six cards to each player.
fn init_players(number_of_players: u32, position_cards: &mut Vec<Position>, small_board: bool) -> (players:
    Vec<Player>)
    requires
        number_of_players <= 6,
        old(position_cards)@.len() >= 6 * number_of_players,
    ensures
        players@.len() == number_of_players,
        forall|i: int| 0 <= i < players@.len() ==> fresh_player(#[trigger] players@[i], i, small_board),
        final(position_cards)@.len() == old(position_cards)@.len() - 6 * number_of_players,
        old(position_cards)@.to_multiset() == final(position_cards)@.to_multiset().add(all_hands(players@)),
{
    let mut players: Vec<Player> = Vec::new();
    let mut id: u32 = 0;
    while id < number_of_players
        invariant
            id <= number_of_players <= 6,
            players@.len() == id,
            forall|i: int| 0 <= i < players@.len() ==> fresh_player(#[trigger] players@[i], i, small_board),
            position_cards@.len() == old(position_cards)@.len() - 6 * id,
            old(position_cards)@.len() >= 6 * number_of_players,
            old(position_cards)@.to_multiset() == position_cards@.to_multiset().add(all_hands(players@)),
        decreases number_of_players - id,
    {
        let ghost before = position_cards@;
        let ghost pb = players@;
        let cards = deal_hand(position_cards);
        let ghost cards_seq = cards@;
        let player = Player::new(cards, id, small_board);
        players.push(player);
        proof {
            lemma_hand_of(player, cards_seq);
            assert(players@.drop_last() =~= pb);
            assert(all_hands(players@) == all_hands(pb).add(cards_seq.to_multiset()));
            assert(old(position_cards)@.to_multiset() =~= position_cards@.to_multiset().add(all_hands(players@)));
        }
        id = id + 1;
    }
    players
}

/// A new deck holds each position once, all of them on the board.
proof fn lemma_full_deck_fits(board: Board)
    requires
        board.wf(),
        forall|i: int| 0 <= i < 108 ==> !(#[trigger] board.cells()[i]).piece_set,
    ensures
        deck_fits(full_deck(), board),
{
    let d = full_deck();
    assert forall|i: int| 0 <= i < d.len() implies on_board(#[trigger] d[i]) && board.placed(d[i]) is None by {
        lemma_cell_position_index(i);
    }
    assert forall|p: Position| #[trigger] d.to_multiset().count(p) <= 1 by {
        lemma_count_at_most_one(d, p);
    }
}

/// A sequence of distinct positions holds each position at most once.
proof fn lemma_count_at_most_one(d: Seq<Position>, p: Position)
    requires
        d == full_deck(),
    ensures
        d.to_multiset().count(p) <= 1,
{
    assert forall|i: int, j: int| 0 <= i < j < d.len() implies d[i] != d[j] by {
        lemma_cell_position_index(i);
        lemma_cell_position_index(j);
    }
    assert(d.no_duplicates());
    d.lemma_multiset_has_no_duplicates();
}

/// Contains all variables required to play a game.
/// This is the main interface to access game functions.
pub struct GameManager {
    /// The board that belongs to this game
    pub board: Board,
    /// The bank that manages the stocks and the money
    pub bank: Bank,
    /// The hotel manager for this game
    pub hotel_chain_manager: HotelChainManager,
    /// The positions that can be drawn
    pub position_cards: Vec<Position>,
    /// A vector that contains all players that participate in the game
    pub players: Vec<Player>,
    /// Stores if the game has been started
    pub game_started: bool,
    /// Stores the settings
    pub settings: Settings,
}

impl GameManager {
    /// The board and the chains are well formed, and the deck fits the board.
    pub open spec fn wf(&self) -> bool {
        &&& self.board.wf()
        &&& self.hotel_chain_manager.wf()
        &&& deck_fits(self.position_cards@, self.board)
    }

    /// Initializes a new game for 2 to 6 players: a fresh board, bank and chains, and six random
    /// cards from the deck for each player.
    pub fn new(number_of_players: u32, settings: Settings) -> (r: Result<Self, GameError>)
        ensures
            r is Err <==> number_of_players < 2 || number_of_players > 6,
            r matches Err(e) ==> e == GameError::InvalidPlayerCount(number_of_players),
            r matches Ok(g) ==> {
                &&& g.wf()
                &&& !g.game_started
                &&& g.settings == settings
                &&& forall|i: int| 0 <= i < 108 ==> !(#[trigger] g.board.cells()[i]).piece_set
                    && g.board.cells()[i].chain is None
                &&& forall|c: HotelChain| #[trigger] g.bank.stocks_for_sale.count(c) == 25
                &&& forall|c: HotelChain|
                    (#[trigger] g.bank.largest_shareholders.largest_shareholder.at(c))@.len() == 0
                        && g.bank.largest_shareholders.second_largest_shareholder.at(c)@.len() == 0
                &&& forall|c: HotelChain| !(#[trigger] g.hotel_chain_manager.is_active(c))
                &&& g.players@.len() == number_of_players
                &&& forall|i: int|
                    0 <= i < g.players@.len() ==> fresh_player(#[trigger] g.players@[i], i, settings.small_board)
                &&& g.position_cards@.len() == 108 - 6 * number_of_players
                &&& g.position_cards@.to_multiset().add(all_hands(g.players@)) == full_deck().to_multiset()
            },
    {
        if number_of_players < 2 || number_of_players > 6 {
            return Err(GameError::InvalidPlayerCount(number_of_players));
        }
        let mut position_cards = init_position_cards();
        let players = init_players(number_of_players, &mut position_cards, settings.small_board);
        let board = Board::new();
        proof {
            lemma_full_deck_fits(board);
            let d = full_deck();
            assert forall|p: Position| #[trigger] position_cards@.to_multiset().count(p) <= 1 by {
                assert(d.to_multiset().count(p) <= 1);
            }
            assert forall|i: int| 0 <= i < position_cards@.len() implies on_board(
                #[trigger] position_cards@[i],
            ) && board.placed(position_cards@[i]) is None by {
                let p = position_cards@[i];
                assert(position_cards@.to_multiset().count(p) > 0);
                assert(d.to_multiset().count(p) > 0);
                assert(d.contains(p));
                let j = choose|j: int| 0 <= j < d.len() && d[j] == p;
                assert(d[j] == p);
            }
        }
        Ok(Self {
            board,
            position_cards,
            bank: Bank::new(),
            hotel_chain_manager: HotelChainManager::new(),
            players,
            game_started: false,
            settings,
        })
    }
    /// Starts the game that has been created previously: each player draws a card, in the
    /// players' order, and a hotel is placed on the position of each drawn card.
    /// Returns the drawn cards, or an error when the game has already been started.
    /// The rounds that follow are played by the caller.
    pub fn start_game(&mut self) -> (r: Result<Vec<Position>, GameError>)
        requires
            old(self).wf(),
            old(self).position_cards@.len() >= old(self).players@.len(),
        ensures
            final(self).wf(),
            old(self).game_started ==> r == Err::<Vec<Position>, GameError>(GameError::GameAlreadyStarted)
                && *final(self) == *old(self),
            !old(self).game_started ==> r is Ok,
            r matches Ok(cards) ==> {
                &&& final(self).game_started
                &&& cards@.len() == old(self).players@.len()
                &&& old(self).position_cards@.to_multiset() == final(self).position_cards@.to_multiset().add(
                    cards@.to_multiset(),
                )
                &&& forall|i: int|
                    0 <= i < cards@.len() ==> final(self).board.placed(#[trigger] cards@[i]) == Some(
                        old(self).board.piece(cards@[i]).chain,
                    )
                &&& forall|p: Position| !cards@.contains(p) ==> #[trigger] final(self).board.placed(p) == old(self).board.placed(p)
                &&& final(self).players == old(self).players
                &&& final(self).bank == old(self).bank
                &&& final(self).hotel_chain_manager == old(self).hotel_chain_manager
                &&& final(self).settings == old(self).settings
            },
    {
        if self.game_started {
            return Err(GameError::GameAlreadyStarted);
        }
        self.game_started = true;
        let mut cards: Vec<Position> = Vec::new();
        let n = self.players.len();
        let mut k: usize = 0;
        while k < n
            invariant
                k <= n == self.players@.len(),
                old(self).players == self.players,
                old(self).bank == self.bank,
                old(self).hotel_chain_manager == self.hotel_chain_manager,
                old(self).settings == self.settings,
                self.game_started,
                self.wf(),
                cards@.len() == k,
                self.position_cards@.len() == old(self).position_cards@.len() - k,
                old(self).position_cards@.len() >= n,
                old(self).position_cards@.to_multiset() == self.position_cards@.to_multiset().add(
                    cards@.to_multiset(),
                ),
                forall|i: int|
                    0 <= i < cards@.len() ==> self.board.placed(#[trigger] cards@[i]) == Some(
                        old(self).board.piece(cards@[i]).chain,
                    ),
                forall|p: Position|
                    !cards@.contains(p) && on_board(p) ==> #[trigger] self.board.piece(p) == old(self).board.piece(p),
            decreases n - k,
        {
            let ghost deck = self.position_cards@;
            let ghost cb = cards@;
            let ghost board_before = self.board;
            let c = draw_random_card(&mut self.position_cards);
            let ghost i0 = choose|i: int| 0 <= i < deck.len() && c == deck[i] && self.position_cards@ == deck.remove(i);
            proof {
                assert(deck[i0] == c);
                assert(on_board(c) && board_before.placed(c) is None);
                assert(deck.to_multiset().count(c) <= 1);
                assert(self.position_cards@.to_multiset().count(c) == 0);
                assert(!self.position_cards@.contains(c));
                assert(!cb.contains(c)) by {
                    if cb.contains(c) {
                        assert(cb.to_multiset().count(c) > 0);
                        assert(old(self).position_cards@.to_multiset().count(c) >= 2);
                    }
                }
            }
            let placed = self.board.place_hotel(&c);
            assert(placed is Ok);
            cards.push(c);
            proof {
                assert(cards@.to_multiset() =~= cb.to_multiset().insert(c));
                assert(old(self).position_cards@.to_multiset() =~= self.position_cards@.to_multiset().add(
                    cards@.to_multiset(),
                ));
                assert forall|q: Position| q != c && on_board(q) implies #[trigger] self.board.piece(q)
                    == board_before.piece(q) by {
                    lemma_cell_index_injective(c, q);
                }
                assert(cards@[cb.len() as int] == c);
                assert forall|i: int| 0 <= i < cards@.len() implies self.board.placed(#[trigger] cards@[i]) == Some(
                    old(self).board.piece(cards@[i]).chain,
                ) by {
                    if i < cb.len() {
                        assert(cards@[i] == cb[i]);
                        assert(cb[i] != c);
                    } else {
                        assert(cards@[i] == c);
                        assert(!cb.contains(c));
                        assert(board_before.placed(c) == old(self).board.placed(c));
                        assert(board_before.piece(c) == old(self).board.piece(c));
                    }
                }
                assert forall|p: Position| !cards@.contains(p) && on_board(p) implies #[trigger] self.board.piece(p)
                    == old(self).board.piece(p) by {
                    assert(p != c);
                    assert(!cb.contains(p)) by {
                        if cb.contains(p) {
                            let j = choose|j: int| 0 <= j < cb.len() && cb[j] == p;
                            assert(cards@[j] == p);
                        }
                    }
                }
                assert forall|j: int| 0 <= j < self.position_cards@.len() implies on_board(
                    #[trigger] self.position_cards@[j],
                ) && self.board.placed(self.position_cards@[j]) is None by {
                    let q = self.position_cards@[j];
                    assert(self.position_cards@.contains(q));
                    assert(q != c);
                    assert(self.board.piece(q) == board_before.piece(q));
                    let jj = if j < i0 { j } else { j + 1 };
                    assert(deck[jj] == q);
                }
                assert forall|q: Position| #[trigger] self.position_cards@.to_multiset().count(q) <= 1 by {
                    assert(deck.to_multiset().count(q) <= 1);
                }
            }
            k = k + 1;
        }
        Ok(cards)
    }
}

/// Ends a player's turn, once the hotel has been placed and the stocks have been bought:
/// the game ends with this turn when the player chose to end it or when they placed no hotel;
/// otherwise the player draws a card, if the deck has one left.
/// # Returns
/// * `(true, None)` - The game ends
/// * `(false, card)` - The game goes on; `card` is the card the player drew, if any
pub fn finish_turn(
    player: &mut Player,
    position_cards: &mut Vec<Position>,
    board: &Board,
    hotel_chain_manager: &HotelChainManager,
    hotel_placed: bool,
    end_chosen: bool,
) -> (r: (bool, Option<Position>))
    requires
        board.wf(),
        hotel_chain_manager.wf(),
    ensures
        r.0 == (end_chosen || !hotel_placed),
        r.0 || old(position_cards)@.len() == 0 ==> r.1 is None && *final(player) == *old(player) && final(position_cards)@ == old(position_cards)@,
        !r.0 && old(position_cards)@.len() > 0 ==> (r.1 matches Some(c) && (exists|i: int|
            0 <= i < old(position_cards)@.len() && c == old(position_cards)@[i]
                && final(position_cards)@ == old(position_cards)@.remove(i)) && *final(player) == old(player).with_cards(final(player).analyzed_cards) && exists|card: AnalyzedPosition|
            card.position == c && card.place_hotel_case@ == spec_analyze(c, *board, *hotel_chain_manager)
                && #[trigger] final(player).analyzed_cards@.to_multiset() == old(player).analyzed_cards@.to_multiset().insert(card)),
{
    if end_chosen || !hotel_placed {
        return (true, None);
    }
    if position_cards.len() == 0 {
        return (false, None);
    }
    let card = draw_random_card(position_cards);
    player.add_card(&card, board, hotel_chain_manager);
    (false, Some(card))
}

/// Manages a single round. A round consists of each player doing a move.
#[derive(Clone, Copy, Debug, PartialEq, Eq, Structural)]
pub struct Round {
    pub started: bool,
    pub number: u32,
}

impl Round {
    /// Creates a new round
    pub fn new(number: u32) -> (r: Self)
        ensures
            !r.started,
            r.number == number,
    {
        Self { started: false, number }
    }

    /// Starts the round. A round can be started once; its turns are played by the caller, one
    /// for each player.
    pub fn start_round(&mut self) -> (r: Result<(), GameError>)
        ensures
            old(self).started ==> r == Err::<(), GameError>(GameError::RoundAlreadyStarted),
            !old(self).started ==> r is Ok,
            final(self).started,
            final(self).number == old(self).number,
    {
        if self.started {
            return Err(GameError::RoundAlreadyStarted);
        }
        self.started = true;
        Ok(())
    }
}

} // verus!
