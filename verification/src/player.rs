//! The players: their money, stocks and hand cards.
use vstd::prelude::*;
use vstd::string::*;

use crate::board::{Board, Position};
use crate::chain::HotelChain;
use crate::chain_manager::HotelChainManager;
use crate::error::GameError;
use crate::placement::{spec_analyze, AnalyzedPosition, CaseModel};
use crate::stock::Stocks;
use crate::text::{decimal, push_decimal};

verus! {

broadcast use vstd::seq_lib::group_to_multiset_ensures;

/// Stores all variables that belong to the player
pub struct Player {
    /// The money the player currently has
    pub money: u32,
    /// The stocks that the player currently owns
    pub owned_stocks: Stocks,
    /// Contains the cards that the player currently has on his hand
    pub analyzed_cards: Vec<AnalyzedPosition>,
    /// The id of the player (the index at which this player is stored in the players vector of
    /// the game).
    pub id: u32,
    /// The name of the player
    pub name: String,
    /// If the board should be printed small
    pub small_board: bool,
}

/// The order of the hand cards: by row letter, then by column.
pub open spec fn position_le(a: Position, b: Position) -> bool {
    ||| (a.letter as u32) < (b.letter as u32)
    ||| (a.letter as u32) == (b.letter as u32) && a.number <= b.number
}

/// The cards are sorted by their positions.
pub open spec fn cards_sorted(s: Seq<AnalyzedPosition>) -> bool {
    forall|i: int, j: int| 0 <= i < j < s.len() ==> position_le(#[trigger] s[i].position, #[trigger] s[j].position)
}

/// Compares two positions in the order of the hand cards.
fn position_less_equal(a: &Position, b: &Position) -> (r: bool)
    ensures
        r == position_le(*a, *b),
{
    let la = a.letter as u32;
    let lb = b.letter as u32;
    la < lb || (la == lb && a.number <= b.number)
}

/// The name that a player gets when none is given: "Player " and the number that follows the id.
pub open spec fn default_name(id: u32) -> Seq<char> {
    "Player "@ + decimal((id + 1) as nat)
}

impl Player {
    /// The player with other stocks and everything else the same.
    pub open spec fn with_stocks(self, s: Stocks) -> Player {
        Player { owned_stocks: s, ..self }
    }

    /// The player with other money and everything else the same.
    pub open spec fn with_money(self, m: u32) -> Player {
        Player { money: m, ..self }
    }

    /// The player with other hand cards and everything else the same.
    pub open spec fn with_cards(self, c: Vec<AnalyzedPosition>) -> Player {
        Player { analyzed_cards: c, ..self }
    }

    /// creates a new player, named "Player " and the number that follows the id
    pub fn new(start_cards: Vec<Position>, id: u32, small_board: bool) -> (p: Self)
        requires
            id < u32::MAX,
        ensures
            p.name@ == default_name(id),
            p.money == 6000,
            p.id == id,
            p.small_board == small_board,
            forall|c: HotelChain| #[trigger] p.owned_stocks.count(c) == 0,
            p.analyzed_cards@.len() == start_cards@.len(),
            forall|i: int|
                0 <= i < start_cards@.len() ==> (#[trigger] p.analyzed_cards@[i]).position == start_cards@[i]
                    && p.analyzed_cards@[i].place_hotel_case@ == CaseModel::SingleHotel,
    {
        let mut name = String::from_str("Player ");
        push_decimal(&mut name, id + 1);
        Player::new_named(start_cards, id, small_board, name)
    }

    /// Creates a new player with a custom name
    pub fn new_named(start_cards: Vec<Position>, id: u32, small_board: bool, name: String) -> (p: Self)
        ensures
            p.name == name,
            p.money == 6000,
            p.id == id,
            p.small_board == small_board,
            forall|c: HotelChain| #[trigger] p.owned_stocks.count(c) == 0,
            p.analyzed_cards@.len() == start_cards@.len(),
            forall|i: int|
                0 <= i < start_cards@.len() ==> (#[trigger] p.analyzed_cards@[i]).position == start_cards@[i]
                    && p.analyzed_cards@[i].place_hotel_case@ == CaseModel::SingleHotel,
    {
        let mut cards: Vec<AnalyzedPosition> = Vec::new();
        let mut i: usize = 0;
        while i < start_cards.len()
            invariant
                i <= start_cards@.len(),
                cards@.len() == i,
                forall|j: int|
                    0 <= j < i ==> (#[trigger] cards@[j]).position == start_cards@[j]
                        && cards@[j].place_hotel_case@ == CaseModel::SingleHotel,
            decreases start_cards@.len() - i,
        {
            cards.push(AnalyzedPosition::new_unchecked(start_cards[i]));
            i = i + 1;
        }
        Self { money: 6000, owned_stocks: Stocks::new(), analyzed_cards: cards, id, name, small_board }
    }

    /// Add money to the player
    pub fn add_money(&mut self, money: u32)
        requires
            old(self).money + money <= u32::MAX,
        ensures
            *final(self) == old(self).with_money((old(self).money + money) as u32),
    {
        self.money = self.money + money;
    }

    /// Remove money from the player
    pub fn remove_money(&mut self, money: u32)
        requires
            old(self).money >= money,
        ensures
            *final(self) == old(self).with_money((old(self).money - money) as u32),
    {
        self.money = self.money - money;
    }

    /// Add stocks that the player owns
    pub fn add_stocks(&mut self, chain: &HotelChain, amount: u32)
        requires
            old(self).owned_stocks.count(*chain) + amount <= u32::MAX,
        ensures
            *final(self) == old(self).with_stocks(final(self).owned_stocks),
            old(self).owned_stocks.updated(
                *chain,
                (old(self).owned_stocks.count(*chain) + amount) as u32,
                final(self).owned_stocks,
            ),
    {
        self.owned_stocks.increase_stocks(chain, amount);
    }

    /// Remove stocks that the player owns
    pub fn remove_stocks(&mut self, chain: &HotelChain, amount: u32)
        requires
            old(self).owned_stocks.count(*chain) >= amount,
        ensures
            *final(self) == old(self).with_stocks(final(self).owned_stocks),
            old(self).owned_stocks.updated(
                *chain,
                (old(self).owned_stocks.count(*chain) - amount) as u32,
                final(self).owned_stocks,
            ),
    {
        self.owned_stocks.decrease_stocks(chain, amount);
    }

    /// Returns true if the player has no cards that can be played
    pub fn only_illegal_cards(&self) -> (b: bool)
        ensures
            b == forall|i: int|
                0 <= i < self.analyzed_cards@.len() ==> (#[trigger] self.analyzed_cards@[i]).place_hotel_case@ is Illegal,
    {
        let mut i: usize = 0;
        while i < self.analyzed_cards.len()
            invariant
                i <= self.analyzed_cards@.len(),
                forall|j: int| 0 <= j < i ==> (#[trigger] self.analyzed_cards@[j]).place_hotel_case@ is Illegal,
            decreases self.analyzed_cards@.len() - i,
        {
            if !self.analyzed_cards[i].is_illegal() {
                return false;
            }
            i = i + 1;
        }
        true
    }

    /// Sorts the players current hand cards by their positions: by row, then by column.
    pub fn sort_cards(&mut self)
        ensures
            *final(self) == old(self).with_cards(final(self).analyzed_cards),
            cards_sorted(final(self).analyzed_cards@),
            final(self).analyzed_cards@.to_multiset() == old(self).analyzed_cards@.to_multiset(),
    {
        let mut rest: Vec<AnalyzedPosition> = Vec::new();
        std::mem::swap(&mut rest, &mut self.analyzed_cards);
        let ghost initial = rest@;
        let mut sorted: Vec<AnalyzedPosition> = Vec::new();
        while rest.len() > 0
            invariant
                cards_sorted(sorted@),
                sorted@.to_multiset().add(rest@.to_multiset()) == initial.to_multiset(),
            decreases rest@.len(),
        {
            let ghost before = rest@;
            let card = rest.pop().unwrap();
            proof {
                assert(before =~= rest@.push(card));
            }
            let mut k: usize = 0;
            while k < sorted.len() && !position_less_equal(&card.position, &sorted[k].position)
                invariant
                    k <= sorted@.len(),
                    forall|j: int| 0 <= j < k ==> !position_le(card.position, #[trigger] sorted@[j].position),
                decreases sorted@.len() - k,
            {
                k = k + 1;
            }
            let ghost old_sorted = sorted@;
            sorted.insert(k, card);
            proof {
                assert forall|i: int, j: int| 0 <= i < j < sorted@.len() implies position_le(
                    #[trigger] sorted@[i].position,
                    #[trigger] sorted@[j].position,
                ) by {
                    if j < k {
                        assert(sorted@[i] == old_sorted[i] && sorted@[j] == old_sorted[j]);
                    } else if j == k {
                        assert(sorted@[i] == old_sorted[i]);
                        assert(!position_le(card.position, old_sorted[i].position));
                    } else if i < k {
                        assert(sorted@[i] == old_sorted[i] && sorted@[j] == old_sorted[j - 1]);
                        if k < old_sorted.len() {
                            assert(position_le(card.position, old_sorted[k as int].position));
                            if j - 1 > k {
                                assert(position_le(old_sorted[k as int].position, old_sorted[j - 1].position));
                            }
                            assert(!position_le(card.position, old_sorted[i].position));
                        }
                    } else if i == k {
                        assert(sorted@[j] == old_sorted[j - 1]);
                        assert(position_le(card.position, old_sorted[k as int].position));
                        if j - 1 > k {
                            assert(position_le(old_sorted[k as int].position, old_sorted[j - 1].position));
                        }
                    } else {
                        assert(sorted@[i] == old_sorted[i - 1] && sorted@[j] == old_sorted[j - 1]);
                    }
                }
                assert(sorted@.to_multiset() == old_sorted.to_multiset().insert(card));
                assert(before.to_multiset() == rest@.to_multiset().insert(card));
                assert(sorted@.to_multiset().add(rest@.to_multiset()) =~= old_sorted.to_multiset().add(
                    before.to_multiset(),
                ));
            }
        }
        proof {
            assert(rest@.to_multiset() =~= vstd::multiset::Multiset::empty());
            assert(sorted@.to_multiset() =~= initial.to_multiset());
        }
        self.analyzed_cards = sorted;
    }

    /// Removes a card from the players inventory (after the cards have been sorted).
    /// Returns the removed card when the card has been removed successfully.
    /// Otherwise an error is returned.
    pub fn remove_card(&mut self, position: &Position) -> (r: Result<AnalyzedPosition, GameError>)
        ensures
            *final(self) == old(self).with_cards(final(self).analyzed_cards),
            cards_sorted(final(self).analyzed_cards@),
            (exists|i: int|
                0 <= i < old(self).analyzed_cards@.len() && (#[trigger] old(self).analyzed_cards@[i]).position
                    == *position) <==> r is Ok,
            r matches Ok(card) ==> card.position == *position && final(self).analyzed_cards@.to_multiset()
                == old(self).analyzed_cards@.to_multiset().remove(card),
            r is Err ==> r == Err::<AnalyzedPosition, GameError>(GameError::CardNotFound(*position))
                && final(self).analyzed_cards@.to_multiset() == old(self).analyzed_cards@.to_multiset(),
    {
        self.sort_cards();
        let ghost sorted = self.analyzed_cards@;
        let mut index: usize = 0;
        while index < self.analyzed_cards.len()
            invariant
                self.analyzed_cards@ == sorted,
                *self == old(self).with_cards(self.analyzed_cards),
                cards_sorted(sorted),
                sorted.to_multiset() == old(self).analyzed_cards@.to_multiset(),
                index <= sorted.len(),
                forall|j: int| 0 <= j < index ==> (#[trigger] sorted[j]).position != *position,
            decreases sorted.len() - index,
        {
            if self.analyzed_cards[index].position == *position {
                let card = self.analyzed_cards.remove(index);
                proof {
                    assert(sorted.remove(index as int).to_multiset() == sorted.to_multiset().remove(
                        sorted[index as int],
                    ));
                    lemma_multiset_position_exists(old(self).analyzed_cards@, sorted, *position, index as int);
                    assert forall|i: int, j: int| 0 <= i < j < self.analyzed_cards@.len() implies position_le(
                        #[trigger] self.analyzed_cards@[i].position,
                        #[trigger] self.analyzed_cards@[j].position,
                    ) by {
                        if i >= index {
                            assert(self.analyzed_cards@[i] == sorted[i + 1]);
                            assert(self.analyzed_cards@[j] == sorted[j + 1]);
                        } else if j >= index {
                            assert(self.analyzed_cards@[i] == sorted[i]);
                            assert(self.analyzed_cards@[j] == sorted[j + 1]);
                        } else {
                            assert(self.analyzed_cards@[i] == sorted[i]);
                            assert(self.analyzed_cards@[j] == sorted[j]);
                        }
                    }
                }
                return Ok(card);
            }
            index = index + 1;
        }
        proof {
            lemma_multiset_position_absent(old(self).analyzed_cards@, sorted, *position);
        }
        Err(GameError::CardNotFound(*position))
    }

    /// Adds a card to the players inventory, analyzes the position and sorts the cards.
    pub fn add_card(&mut self, position: &Position, board: &Board, hotel_chain_manager: &HotelChainManager)
        requires
            board.wf(),
            hotel_chain_manager.wf(),
        ensures
            *final(self) == old(self).with_cards(final(self).analyzed_cards),
            cards_sorted(final(self).analyzed_cards@),
            exists|card: AnalyzedPosition|
                card.position == *position && card.place_hotel_case@ == spec_analyze(
                    *position,
                    *board,
                    *hotel_chain_manager,
                ) && #[trigger] final(self).analyzed_cards@.to_multiset() == old(
                    self,
                ).analyzed_cards@.to_multiset().insert(card),
    {
        let card = AnalyzedPosition::new(*position, board, hotel_chain_manager);
        let ghost c = card;
        self.analyzed_cards.push(card);
        proof {
            assert(self.analyzed_cards@.to_multiset() == old(self).analyzed_cards@.to_multiset().insert(c));
        }
        self.sort_cards();
    }

    /// Analyzes the players hand cards and updates the place hotel case value
    pub fn analyze_cards(&mut self, board: &Board, hotel_chain_manager: &HotelChainManager)
        requires
            board.wf(),
            hotel_chain_manager.wf(),
        ensures
            *final(self) == old(self).with_cards(final(self).analyzed_cards),
            final(self).analyzed_cards@.len() == old(self).analyzed_cards@.len(),
            forall|i: int|
                0 <= i < final(self).analyzed_cards@.len() ==> (#[trigger] final(self).analyzed_cards@[i]).position
                    == old(self).analyzed_cards@[i].position && final(self).analyzed_cards@[i].place_hotel_case@
                    == spec_analyze(old(self).analyzed_cards@[i].position, *board, *hotel_chain_manager),
    {
        let n = self.analyzed_cards.len();
        let mut i: usize = 0;
        while i < n
            invariant
                board.wf(),
                hotel_chain_manager.wf(),
                n == old(self).analyzed_cards@.len(),
                i <= n,
                self.analyzed_cards@.len() == n,
                *self == old(self).with_cards(self.analyzed_cards),
                forall|j: int|
                    i <= j < n ==> #[trigger] self.analyzed_cards@[j] == old(self).analyzed_cards@[j],
                forall|j: int|
                    0 <= j < i ==> (#[trigger] self.analyzed_cards@[j]).position == old(self).analyzed_cards@[j].position
                        && self.analyzed_cards@[j].place_hotel_case@ == spec_analyze(
                        old(self).analyzed_cards@[j].position,
                        *board,
                        *hotel_chain_manager,
                    ),
            decreases n - i,
        {
            self.analyzed_cards[i].check(board, hotel_chain_manager);
            i = i + 1;
        }
    }
}

/// A card at a position is in a sequence exactly when it is in any sequence with the same multiset.
proof fn lemma_multiset_position_exists(a: Seq<AnalyzedPosition>, b: Seq<AnalyzedPosition>, p: Position, k: int)
    requires
        a.to_multiset() == b.to_multiset(),
        0 <= k < b.len(),
        b[k].position == p,
    ensures
        exists|i: int| 0 <= i < a.len() && (#[trigger] a[i]).position == p,
{
    assert(b.contains(b[k]));
    assert(b.to_multiset().count(b[k]) > 0);
    assert(a.contains(b[k]));
    let i = choose|i: int| 0 <= i < a.len() && a[i] == b[k];
    assert(a[i].position == p);
}

/// No card at a position is in a sequence when none is in a sequence with the same multiset.
proof fn lemma_multiset_position_absent(a: Seq<AnalyzedPosition>, b: Seq<AnalyzedPosition>, p: Position)
    requires
        a.to_multiset() == b.to_multiset(),
        forall|j: int| 0 <= j < b.len() ==> (#[trigger] b[j]).position != p,
    ensures
        !exists|i: int| 0 <= i < a.len() && (#[trigger] a[i]).position == p,
{
    if exists|i: int| 0 <= i < a.len() && (#[trigger] a[i]).position == p {
        let i = choose|i: int| 0 <= i < a.len() && (#[trigger] a[i]).position == p;
        assert(a.contains(a[i]));
        assert(a.to_multiset().count(a[i]) > 0);
        assert(b.contains(a[i]));
        let j = choose|j: int| 0 <= j < b.len() && b[j] == a[i];
        assert(b[j].position == p);
    }
}

/// Returns the player with the name if they exist.
pub fn player_by_name<'a>(name: &str, players: &'a Vec<Player>) -> (r: Option<&'a Player>)
    ensures
        r is None ==> forall|i: int| 0 <= i < players@.len() ==> (#[trigger] players@[i]).name@ != name@,
        r matches Some(p) ==> exists|i: int|
            0 <= i < players@.len() && *p == players@[i] && (forall|j: int|
                0 <= j < i ==> (#[trigger] players@[j]).name@ != name@),
        r matches Some(p) ==> p.name@ == name@,
{
    let mut i: usize = 0;
    while i < players.len()
        invariant
            i <= players@.len(),
            forall|j: int| 0 <= j < i ==> (#[trigger] players@[j]).name@ != name@,
        decreases players@.len() - i,
    {
        let player = &players[i];
        if str_equal(player.name.as_str(), name) {
            return Some(player);
        }
        i = i + 1;
    }
    None
}

/// Returns a reference to the player with the entered id
pub fn player_by_id(id: u32, players: &Vec<Player>) -> (r: Option<&Player>)
    ensures
        r is None ==> forall|i: int| 0 <= i < players@.len() ==> (#[trigger] players@[i]).id != id,
        r matches Some(p) ==> exists|i: int|
            0 <= i < players@.len() && *p == players@[i] && (forall|j: int|
                0 <= j < i ==> (#[trigger] players@[j]).id != id),
        r matches Some(p) ==> p.id == id,
{
    let mut i: usize = 0;
    while i < players.len()
        invariant
            i <= players@.len(),
            forall|j: int| 0 <= j < i ==> (#[trigger] players@[j]).id != id,
        decreases players@.len() - i,
    {
        let player = &players[i];
        if player.id == id {
            return Some(player);
        }
        i = i + 1;
    }
    None
}

/// Whether two strings hold the same characters.
pub fn str_equal(a: &str, b: &str) -> (r: bool)
    ensures
        r == (a@ == b@),
{
    let n = a.unicode_len();
    if n != b.unicode_len() {
        return false;
    }
    let mut i: usize = 0;
    while i < n
        invariant
            n == a@.len(),
            n == b@.len(),
            i <= n,
            forall|j: int| 0 <= j < i ==> a@[j] == b@[j],
        decreases n - i,
    {
        if a.get_char(i) != b.get_char(i) {
            return false;
        }
        i = i + 1;
    }
    assert(a@ =~= b@);
    true
}

} // verus!
