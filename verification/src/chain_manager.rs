//! Manages the currently active hotel chains and the hotels that belong to them.
use vstd::prelude::*;
use vstd::string::*;

use crate::bank::Bank;
use crate::board::{cell_index, lemma_cell_index_position, on_board, Board, Piece, Position};
use crate::chain::{chain_order, lemma_chain_order_complete, HotelChain, PerChain};
use crate::error::GameError;
use crate::player::Player;

verus! {

/// Store the currently active hotel chains
pub struct HotelChainManager {
    /// Stores the active hotel chains and the buildings that belong to the chain
    active_chains: PerChain<Option<Vec<Position>>>,
}

/// The chains of `s` that are active (`active == true`) or not active, in the order of `s`.
pub open spec fn chains_with_status(m: HotelChainManager, s: Seq<HotelChain>, active: bool) -> Seq<
    HotelChain,
>
    decreases s.len(),
{
    if s.len() == 0 {
        Seq::empty()
    } else {
        let rest = chains_with_status(m, s.drop_last(), active);
        if m.is_active(s.last()) == active {
            rest.push(s.last())
        } else {
            rest
        }
    }
}

/// The text that shows in which range of the price table a chain of `n` hotels stands.
pub open spec fn spec_price_range(n: int) -> Seq<char> {
    if n == 0 {
        ""@
    } else if n == 2 {
        "    [2]"@
    } else if n == 3 {
        "    [3]"@
    } else if n == 4 {
        "    [4]"@
    } else if n == 5 {
        "    [5]"@
    } else if 6 <= n <= 10 {
        " [6-10]"@
    } else if 11 <= n <= 20 {
        "[11-20]"@
    } else if 21 <= n <= 30 {
        "[21-30]"@
    } else if 31 <= n <= 40 {
        "[31-40]"@
    } else {
        " [41++]"@
    }
}

/// The board's pieces after the hotels at the positions `ps` have been marked as placed and
/// as belonging to `chain`, one after the other.
pub open spec fn pieces_with_chain(pieces: Seq<Piece>, chain: HotelChain, ps: Seq<Position>) -> Seq<
    Piece,
>
    decreases ps.len(),
{
    if ps.len() == 0 {
        pieces
    } else {
        let prev = pieces_with_chain(pieces, chain, ps.drop_last());
        let i = cell_index(ps.last());
        prev.update(i, Piece { piece_set: true, chain: Some(chain), position: prev[i].position })
    }
}

/// The index of the first position of `ps` that is not on the board, or the length of `ps`.
pub open spec fn first_off_board(ps: Seq<Position>) -> int
    decreases ps.len(),
{
    if ps.len() == 0 {
        0
    } else if !on_board(ps[0]) {
        0
    } else {
        1 + first_off_board(ps.drop_first())
    }
}

/// The index of the first position of `ps` where no hotel has been placed, or the length of `ps`.
pub open spec fn first_unplaced(board: Board, ps: Seq<Position>) -> int
    decreases ps.len(),
{
    if ps.len() == 0 {
        0
    } else if board.placed(ps[0]) is None {
        0
    } else {
        1 + first_unplaced(board, ps.drop_first())
    }
}

/// The first position off the board is one of the positions, or just past them.
pub proof fn lemma_first_off_board_bounds(ps: Seq<Position>)
    ensures
        0 <= first_off_board(ps) <= ps.len(),
    decreases ps.len(),
{
    if ps.len() > 0 {
        lemma_first_off_board_bounds(ps.drop_first());
    }
}

/// `first_off_board` is the index of the first position that is off the board.
pub proof fn lemma_first_off_board(ps: Seq<Position>, i: int)
    requires
        0 <= i <= ps.len(),
        forall|j: int| 0 <= j < i ==> on_board(#[trigger] ps[j]),
        i == ps.len() || !on_board(ps[i]),
    ensures
        first_off_board(ps) == i,
    decreases i,
{
    if i > 0 {
        let t = ps.drop_first();
        assert forall|j: int| 0 <= j < i - 1 implies on_board(#[trigger] t[j]) by {
            assert(t[j] == ps[j + 1]);
        }
        lemma_first_off_board(t, i - 1);
    }
}

/// `first_unplaced` is the index of the first position without a hotel.
pub proof fn lemma_first_unplaced(board: Board, ps: Seq<Position>, i: int)
    requires
        0 <= i <= ps.len(),
        forall|j: int| 0 <= j < i ==> (#[trigger] board.placed(ps[j])) is Some,
        i == ps.len() || board.placed(ps[i]) is None,
    ensures
        first_unplaced(board, ps) == i,
    decreases i,
{
    if i > 0 {
        let t = ps.drop_first();
        assert forall|j: int| 0 <= j < i - 1 implies (#[trigger] board.placed(t[j])) is Some by {
            assert(t[j] == ps[j + 1]);
            assert(board.placed(ps[j + 1]) is Some);
        }
        lemma_first_unplaced(board, t, i - 1);
    }
}

/// Marking hotels as belonging to a chain keeps every piece at its field.
pub proof fn lemma_pieces_with_chain_positions(pieces: Seq<Piece>, chain: HotelChain, ps: Seq<Position>)
    requires
        forall|j: int| 0 <= j < ps.len() ==> on_board(#[trigger] ps[j]),
        pieces.len() == 108,
    ensures
        pieces_with_chain(pieces, chain, ps).len() == 108,
        forall|i: int|
            0 <= i < 108 ==> (#[trigger] pieces_with_chain(pieces, chain, ps)[i]).position == pieces[i].position,
    decreases ps.len(),
{
    if ps.len() > 0 {
        lemma_pieces_with_chain_positions(pieces, chain, ps.drop_last());
        lemma_cell_index_position(ps.last());
    }
}

/// After the hotels have been marked, each of them stands on the board and belongs to the chain.
pub proof fn lemma_pieces_with_chain_placed(pieces: Seq<Piece>, chain: HotelChain, ps: Seq<Position>, k: int)
    requires
        forall|j: int| 0 <= j < ps.len() ==> on_board(#[trigger] ps[j]),
        pieces.len() == 108,
        0 <= k < ps.len(),
    ensures
        pieces_with_chain(pieces, chain, ps)[cell_index(ps[k])].piece_set,
        pieces_with_chain(pieces, chain, ps)[cell_index(ps[k])].chain == Some(chain),
    decreases ps.len(),
{
    lemma_pieces_with_chain_positions(pieces, chain, ps.drop_last());
    lemma_cell_index_position(ps.last());
    lemma_cell_index_position(ps[k]);
    if k < ps.len() - 1 {
        assert(ps.drop_last()[k] == ps[k]);
        lemma_pieces_with_chain_placed(pieces, chain, ps.drop_last(), k);
    }
}

/// What founding the chain with the hotels at the positions does, from the chains `m0`, the
/// board `b0`, the player `p0` and the bank `k0` to `m1`, `b1`, `p1` and `k1` with the result
/// `r`: a chain needs two hotels and must not be active; then it becomes active with these
/// hotels, which are placed where needed and show the chain, up to the first position that is
/// not on the board; when all are on the board the player gets a bonus stock, if the bank has
/// one left.
pub open spec fn chain_founded(
    m0: HotelChainManager,
    m1: HotelChainManager,
    b0: Board,
    b1: Board,
    p0: Player,
    p1: Player,
    k0: Bank,
    k1: Bank,
    chain: HotelChain,
    positions: Seq<Position>,
    r: Result<(), GameError>,
) -> bool {
    let k = first_off_board(positions);
    &&& m1.wf()
    &&& b1.wf()
    &&& positions.len() < 2 ==> r == Err::<(), GameError>(GameError::NotEnoughBuildings(chain)) && m1 == m0
        && b1.cells() == b0.cells() && p1 == p0 && k1 == k0
    &&& positions.len() >= 2 && m0.is_active(chain) ==> r == Err::<(), GameError>(
        GameError::ChainAlreadyFounded(chain),
    ) && m1 == m0 && b1.cells() == b0.cells() && p1 == p0 && k1 == k0
    &&& positions.len() >= 2 && !m0.is_active(chain) ==> {
        &&& m1.is_active(chain)
        &&& m1.positions(chain) == positions
        &&& m0.agrees_except(m1, chain, chain)
        &&& b1.cells() == pieces_with_chain(b0.cells(), chain, positions.take(k))
        &&& k < positions.len() ==> r == Err::<(), GameError>(GameError::HotelNotPlaced(positions[k])) && p1 == p0
            && k1 == k0
        &&& k == positions.len() ==> r is Ok && k0.bonus_given(chain, p0, k1, p1)
    }
}

/// A chain founded on some hotels is active with exactly that many hotels, and every other
/// chain keeps its status and its hotels; so a chain that was never founded stays inactive and
/// empty.
pub proof fn lemma_founded_chain_length(
    m0: HotelChainManager,
    m1: HotelChainManager,
    b0: Board,
    b1: Board,
    p0: Player,
    p1: Player,
    k0: Bank,
    k1: Bank,
    chain: HotelChain,
    positions: Seq<Position>,
)
    requires
        chain_founded(m0, m1, b0, b1, p0, p1, k0, k1, chain, positions, Ok(())),
    ensures
        m1.is_active(chain),
        m1.length(chain) == positions.len(),
        forall|d: HotelChain| d != chain ==> #[trigger] m1.is_active(d) == m0.is_active(d) && m1.length(d) == m0.length(d),
{
    m0.lemma_agrees_except(m1, chain, chain);
}

impl HotelChainManager {
    /// Whether the chain is active.
    pub closed spec fn is_active(&self, c: HotelChain) -> bool {
        self.active_chains.at(c) is Some
    }

    /// The hotels of the chain, in the order in which they joined it (empty when it is not active).
    pub closed spec fn positions(&self, c: HotelChain) -> Seq<Position> {
        match self.active_chains.at(c) {
            Some(v) => v@,
            None => Seq::empty(),
        }
    }

    /// The number of hotels of the chain.
    pub open spec fn length(&self, c: HotelChain) -> int {
        self.positions(c).len() as int
    }

    /// Every chain has at most `u32::MAX` hotels, so that its length can be returned.
    pub open spec fn wf(&self) -> bool {
        forall|c: HotelChain| #[trigger] self.length(c) <= u32::MAX
    }

    /// The chains that are not active, in the game's order of chains.
    pub open spec fn inactive_chains(&self) -> Seq<HotelChain> {
        chains_with_status(*self, chain_order(), false)
    }

    /// The chains that are active, in the game's order of chains.
    pub open spec fn spec_active_chains(&self) -> Seq<HotelChain> {
        chains_with_status(*self, chain_order(), true)
    }

    /// The two managers agree on every chain other than `a` and `b`.
    pub closed spec fn agrees_except(&self, other: HotelChainManager, a: HotelChain, b: HotelChain) -> bool {
        forall|d: HotelChain| d != a && d != b ==> #[trigger] self.active_chains.at(d) == other.active_chains.at(d)
    }

    /// Managers that agree on a chain have the same hotels and status for it.
    pub proof fn lemma_agrees_except(&self, other: HotelChainManager, a: HotelChain, b: HotelChain)
        requires
            self.agrees_except(other, a, b),
        ensures
            forall|d: HotelChain|
                d != a && d != b ==> #[trigger] other.positions(d) == self.positions(d) && other.is_active(d)
                    == self.is_active(d),
    {
        assert forall|d: HotelChain| d != a && d != b implies #[trigger] other.positions(d) == self.positions(d)
            && other.is_active(d) == self.is_active(d) by {
            assert(self.active_chains.at(d) == other.active_chains.at(d));
        }
    }

    /// Agreement outside two chains carries over from one manager to the next.
    pub proof fn lemma_agrees_except_trans(&self, m2: HotelChainManager, m3: HotelChainManager, a: HotelChain, b: HotelChain)
        requires
            self.agrees_except(m2, a, b),
            m2.agrees_except(m3, a, b),
        ensures
            self.agrees_except(m3, a, b),
    {
        assert forall|d: HotelChain| d != a && d != b implies #[trigger] self.active_chains.at(d) == m3.active_chains.at(d) by {
            assert(self.active_chains.at(d) == m2.active_chains.at(d));
        }
    }

    /// Every manager agrees with itself.
    pub proof fn lemma_agrees_except_refl(&self, a: HotelChain, b: HotelChain)
        ensures
            self.agrees_except(*self, a, b),
    {
    }

    /// Whether the chain can no longer be fused into another one.
    pub open spec fn spec_is_safe(&self, c: HotelChain) -> bool {
        self.length(c) >= 11
    }

    /// A chain is safe from being fused exactly when it has 11 hotels or more: one hotel more
    /// keeps it safe, and a chain of 10 hotels is not.
    pub proof fn lemma_safe_from_eleven(&self, c: HotelChain)
        ensures
            self.spec_is_safe(c) <==> self.length(c) > 10,
            self.length(c) <= 10 ==> !self.spec_is_safe(c),
    {
    }

    /// An inactive chain has no hotels.
    pub proof fn lemma_inactive_empty(&self, c: HotelChain)
        ensures
            !self.is_active(c) ==> self.length(c) == 0,
    {
    }

    /// Create a new hotel manager that is used to manage the currently active hotel chains
    pub fn new() -> (m: Self)
        ensures
            m.wf(),
            forall|c: HotelChain| !(#[trigger] m.is_active(c)) && m.length(c) == 0,
    {
        Self { active_chains: PerChain::uniform_none() }
    }

    /// Returns the number of hotels currently built for the specified chain.
    /// If the chain is not active 0 is returned
    pub fn chain_length(&self, hotel: &HotelChain) -> (n: u32)
        requires
            self.wf(),
        ensures
            n == self.length(*hotel),
    {
        match self.active_chains.get(*hotel) {
            None => 0,
            Some(v) => {
                assert(self.length(*hotel) <= u32::MAX);
                v.len() as u32
            },
        }
    }

    /// Returns true if the chain is currently active
    pub fn chain_status(&self, hotel: &HotelChain) -> (b: bool)
        ensures
            b == self.is_active(*hotel),
    {
        self.active_chains.get(*hotel).is_some()
    }

    /// Returns the range in which the current price level of the chain is
    pub fn price_range(&self, hotel: &HotelChain) -> (s: String)
        ensures
            s@ == spec_price_range(self.length(*hotel)),
    {
        let chains: usize = match self.active_chains.get(*hotel) {
            Some(v) => v.len(),
            None => 0,
        };
        let range = if chains == 0 {
            ""
        } else if chains == 2 {
            "    [2]"
        } else if chains == 3 {
            "    [3]"
        } else if chains == 4 {
            "    [4]"
        } else if chains == 5 {
            "    [5]"
        } else if 6 <= chains && chains <= 10 {
            " [6-10]"
        } else if 11 <= chains && chains <= 20 {
            "[11-20]"
        } else if 21 <= chains && chains <= 30 {
            "[21-30]"
        } else if 31 <= chains && chains <= 40 {
            "[31-40]"
        } else {
            " [41++]"
        };
        String::from_str(range)
    }

    /// Start a new chain.
    /// The hotels on the board are updated to show the chain; a hotel that has not been
    /// placed is placed first.
    /// The player will be given one stock as start-up bonus, if the bank has one left.
    /// # Returns
    /// A result containing 'Ok()' when the chain has been founded successfully
    #[verifier::loop_isolation(false)]
    pub fn start_chain(
        &mut self,
        hotel_chain: HotelChain,
        positions: Vec<Position>,
        board: &mut Board,
        player: &mut Player,
        bank: &mut Bank,
    ) -> (r: Result<(), GameError>)
        requires
            old(self).wf(),
            old(board).wf(),
            old(player).owned_stocks.count(hotel_chain) < u32::MAX,
            positions@.len() <= u32::MAX,
        ensures
            chain_founded(
                *old(self),
                *final(self),
                *old(board),
                *final(board),
                *old(player),
                *final(player),
                *old(bank),
                *final(bank),
                hotel_chain,
                positions@,
                r,
            ),
    {
        if positions.len() < 2 {
            return Err(GameError::NotEnoughBuildings(hotel_chain));
        }
        if self.chain_status(&hotel_chain) {
            return Err(GameError::ChainAlreadyFounded(hotel_chain));
        }
        let ghost old_self = *self;
        let ghost old_pieces = board.cells();
        let n = positions.len();
        let mut i: usize = 0;
        while i < n
            invariant
                n == positions@.len(),
                i <= n,
                *self == old_self,
                board.wf(),
                forall|j: int| 0 <= j < i ==> on_board(#[trigger] positions@[j]),
                board.cells() == pieces_with_chain(old_pieces, hotel_chain, positions@.take(i as int)),
            decreases n - i,
        {
            let position = positions[i];
            if board.is_hotel_placed(&position).is_none() {
                let _ = board.place_hotel(&position);
            }
            let ghost before = board.cells();
            let updated = board.update_hotel(hotel_chain, &position);
            if updated.is_err() {
                proof {
                    lemma_first_off_board(positions@, i as int);
                }
                self.active_chains.set(hotel_chain, Some(positions));
                proof {
                    assert(self.positions(hotel_chain) == positions@);
                    assert(old_self.agrees_except(*self, hotel_chain, hotel_chain));
                    assert forall|c: HotelChain| #[trigger] self.length(c) <= u32::MAX by {
                    assert(old_self.length(c) <= u32::MAX);
                        if c != hotel_chain {
                            assert(self.positions(c) == old_self.positions(c));
                        }
                    }
                }
                return Err(GameError::HotelNotPlaced(position));
            }
            proof {
                lemma_cell_index_position(position);
                assert(positions@.take(i + 1).drop_last() =~= positions@.take(i as int));
                assert(positions@.take(i + 1).last() == position);
                assert(board.cells() =~= pieces_with_chain(old_pieces, hotel_chain, positions@.take(i + 1)));
            }
            i = i + 1;
        }
        proof {
            lemma_first_off_board(positions@, n as int);
            assert(positions@.take(n as int) =~= positions@);
        }
        self.active_chains.set(hotel_chain, Some(positions));
        proof {
            assert(old_self.agrees_except(*self, hotel_chain, hotel_chain));
            assert forall|c: HotelChain| #[trigger] self.length(c) <= u32::MAX by {
                    assert(old_self.length(c) <= u32::MAX);
                if c != hotel_chain {
                    assert(self.positions(c) == old_self.positions(c));
                }
            }
        }
        let _ = bank.give_bonus_stock(&hotel_chain, player);
        Ok(())
    }

    /// Adds a hotel to an existing chain.
    /// Also updates the entry in the board.
    /// # Returns
    /// * `Ok()` - When the hotel was successfully added
    /// * `Err(Error)` - When the hotel chain does not exist, or no hotel stands at the position
    pub fn add_hotel_to_chain(&mut self, hotel_chain: &HotelChain, position: Position, board: &mut Board) -> (r:
        Result<(), GameError>)
        requires
            old(self).wf(),
            old(board).wf(),
            old(self).length(*hotel_chain) < u32::MAX,
        ensures
            final(self).wf(),
            final(board).wf(),
            !old(self).is_active(*hotel_chain) ==> r == Err::<(), GameError>(
                GameError::ChainNotFounded(*hotel_chain),
            ) && *final(self) == *old(self) && final(board).cells() == old(board).cells(),
            old(self).is_active(*hotel_chain) ==> {
                &&& final(self).is_active(*hotel_chain)
                &&& final(self).positions(*hotel_chain) == old(self).positions(*hotel_chain).push(position)
                &&& old(self).agrees_except(*final(self), *hotel_chain, *hotel_chain)
                &&& old(board).placed(position) is None ==> r == Err::<(), GameError>(
                    GameError::HotelNotPlaced(position),
                ) && final(board).cells() == old(board).cells()
                &&& old(board).placed(position) is Some ==> r is Ok && final(board).cells()
                    == old(board).with_piece(position, Piece { chain: Some(*hotel_chain), ..old(board).piece(position) })
            },
    {
        if !self.chain_status(hotel_chain) {
            return Err(GameError::ChainNotFounded(*hotel_chain));
        }
        let ghost old_self = *self;
        let previous = self.active_chains.replace(*hotel_chain, None);
        let mut hotels = match previous {
            Some(v) => v,
            None => Vec::new(),
        };
        hotels.push(position);
        let ghost pushed = hotels@;
        assert(pushed == old_self.positions(*hotel_chain).push(position));
        self.active_chains.set(*hotel_chain, Some(hotels));
        proof {
            assert(self.positions(*hotel_chain) == pushed);
            assert(old_self.agrees_except(*self, *hotel_chain, *hotel_chain));
            assert forall|c: HotelChain| #[trigger] self.length(c) <= u32::MAX by {
                    assert(old_self.length(c) <= u32::MAX);
                if c != *hotel_chain {
                    assert(self.positions(c) == old_self.positions(c));
                }
            }
        }
        board.update_hotel(*hotel_chain, &position)
    }

    /// Fuses the two hotel chains into one: the hotels of `dead` join `alive` and `dead` is no
    /// longer active.
    /// Will update the board and the active chains.
    /// # Returns
    /// * `Ok()` - When the hotels where merged successfully
    /// * `Err(Error)` - When the merge was not successful
    #[verifier::loop_isolation(false)]
    pub fn fuse_chains(&mut self, alive: &HotelChain, dead: &HotelChain, board: &mut Board) -> (r: Result<
        (),
        GameError,
    >)
        requires
            old(self).wf(),
            old(board).wf(),
            old(self).length(*alive) + old(self).length(*dead) <= u32::MAX,
        ensures
            final(self).wf(),
            final(board).wf(),
            !(old(self).is_active(*alive) && old(self).is_active(*dead)) ==> r == Err::<(), GameError>(
                GameError::FusionChainMissing { alive: *alive, dead: *dead },
            ) && *final(self) == *old(self) && final(board).cells() == old(board).cells(),
            old(self).is_active(*alive) && old(self).is_active(*dead) ==> {
                let d = old(self).positions(*dead);
                let k = first_unplaced(*old(board), d);
                &&& old(self).agrees_except(*final(self), *alive, *dead)
                &&& final(board).cells() == pieces_with_chain(old(board).cells(), *alive, d.take(k))
                &&& k < d.len() ==> r == Err::<(), GameError>(GameError::HotelNotPlaced(d[k]))
                    && final(self).is_active(*alive)
                    && final(self).positions(*alive) == old(self).positions(*alive) + d.take(k + 1)
                    && (*alive != *dead ==> final(self).is_active(*dead) && final(self).positions(*dead) == d)
                &&& k == d.len() ==> r is Ok && !final(self).is_active(*dead) && (*alive != *dead
                    ==> final(self).is_active(*alive) && final(self).positions(*alive) == old(self).positions(*alive)
                    + d)
            },
    {
        if !(self.chain_status(alive) && self.chain_status(dead)) {
            return Err(GameError::FusionChainMissing { alive: *alive, dead: *dead });
        }
        let ghost old_self = *self;
        let ghost old_board = *board;
        let dead_hotels: Vec<Position> = match self.active_chains.get(*dead) {
            Some(v) => v.clone(),
            None => Vec::new(),
        };
        let ghost d = old_self.positions(*dead);
        assert(dead_hotels@ =~= d);
        let mut alive_hotels: Vec<Position> = match self.active_chains.replace(*alive, None) {
            Some(v) => v,
            None => Vec::new(),
        };
        let ghost a = alive_hotels@;
        assert(a == old_self.positions(*alive));
        let n = dead_hotels.len();
        let mut i: usize = 0;
        while i < n
            invariant
                n == d.len(),
                dead_hotels@ == d,
                i <= n,
                board.wf(),
                old_board.wf(),
                alive_hotels@ == a + d.take(i as int),
                a.len() + d.len() <= u32::MAX,
                forall|j: int| 0 <= j < i ==> (#[trigger] old_board.placed(d[j])) is Some,
                forall|j: int| 0 <= j < i ==> on_board(#[trigger] d[j]),
                board.cells() == pieces_with_chain(old_board.cells(), *alive, d.take(i as int)),
                self.active_chains.at(*alive) is None,
                old_self.wf(),
                forall|c: HotelChain| c != *alive ==> #[trigger] self.active_chains.at(c) == old_self.active_chains.at(c),
            decreases n - i,
        {
            let position = dead_hotels[i];
            alive_hotels.push(position);
            proof {
                lemma_pieces_with_chain_positions(old_board.cells(), *alive, d.take(i as int));
                if on_board(position) {
                    lemma_cell_index_position(position);
                    let prefix = d.take(i as int);
                    assert forall|j: int| 0 <= j < prefix.len() implies on_board(#[trigger] prefix[j])
                        && old_board.cells()[cell_index(prefix[j])].piece_set by {
                        assert(prefix[j] == d[j]);
                        assert(old_board.placed(d[j]) is Some);
                    }
                    // the placed flag at the position is the one of the old board
                    lemma_placed_kept(old_board.cells(), *alive, prefix, position);
                }
            }
            let updated = board.update_hotel(*alive, &position);
            if updated.is_err() {
                proof {
                    if on_board(position) {
                        assert(old_board.placed(position) is None);
                    }
                    lemma_first_unplaced(old_board, d, i as int);
                    assert(d.take(i + 1) =~= d.take(i as int).push(position));
                }
                self.active_chains.set(*alive, Some(alive_hotels));
                proof {
                    assert(alive_hotels@ =~= a + d.take(i + 1));
                    assert(self.positions(*alive) == alive_hotels@);
                    assert forall|c: HotelChain| #[trigger] self.length(c) <= u32::MAX by {
                    assert(old_self.length(c) <= u32::MAX);
                        if c != *alive {
                            assert(self.positions(c) == old_self.positions(c));
                        }
                    }
                    assert(old_self.agrees_except(*self, *alive, *dead));
                }
                return Err(GameError::HotelNotPlaced(position));
            }
            proof {
                assert(old_board.placed(position) is Some);
                assert(d.take(i + 1).drop_last() =~= d.take(i as int));
                assert(d.take(i + 1).last() == position);
                assert(board.cells() =~= pieces_with_chain(old_board.cells(), *alive, d.take(i + 1)));
                assert(alive_hotels@ =~= a + d.take(i + 1));
            }
            i = i + 1;
        }
        proof {
            lemma_first_unplaced(old_board, d, n as int);
            assert(d.take(n as int) =~= d);
        }
        self.active_chains.set(*alive, Some(alive_hotels));
        self.active_chains.set(*dead, None);
        proof {
            if *alive != *dead {
                assert(self.positions(*alive) == a + d);
            }
            assert forall|c: HotelChain| #[trigger] self.length(c) <= u32::MAX by {
                    assert(old_self.length(c) <= u32::MAX);
                if c != *alive && c != *dead {
                    assert(self.positions(c) == old_self.positions(c));
                }
            }
            assert(old_self.agrees_except(*self, *alive, *dead));
        }
        Ok(())
    }

    /// Returns the chains that have been founded and not fused away, in the game's order.
    pub fn active_chains(&self) -> (v: Vec<HotelChain>)
        ensures
            v@ == self.spec_active_chains(),
    {
        self.chains_by_status(true)
    }

    /// Returns the chains whose status is `active`, in the game's order.
    fn chains_by_status(&self, active: bool) -> (v: Vec<HotelChain>)
        ensures
            v@ == chains_with_status(*self, chain_order(), active),
    {
        let all = HotelChain::iterator();
        let mut found = Vec::new();
        let mut i: usize = 0;
        while i < all.len()
            invariant
                all@ == chain_order(),
                i <= all@.len(),
                found@ == chains_with_status(*self, all@.take(i as int), active),
            decreases all@.len() - i,
        {
            let chain = all[i];
            if self.chain_status(&chain) == active {
                found.push(chain);
            }
            proof {
                assert(all@.take(i + 1).drop_last() =~= all@.take(i as int));
            }
            i = i + 1;
        }
        proof {
            assert(all@.take(all@.len() as int) =~= all@);
        }
        found
    }

    /// Returns a vector of hotel chains that can still be started.
    /// If no hotel chains are left `None` is returned.
    pub fn available_chains(&self) -> (r: Option<Vec<HotelChain>>)
        ensures
            r is None <==> forall|c: HotelChain| #[trigger] self.is_active(c),
            r matches Some(v) ==> v@ == self.inactive_chains(),
    {
        let available = self.chains_by_status(false);
        proof {
            self.lemma_inactive_chains_members();
        }
        if available.len() == 0 {
            return None;
        }
        Some(available)
    }

    /// A chain is in `inactive_chains` exactly when it is not active.
    pub proof fn lemma_inactive_chains_members(&self)
        ensures
            forall|c: HotelChain| #[trigger] self.inactive_chains().contains(c) <==> !self.is_active(c),
            self.inactive_chains().len() == 0 <==> forall|c: HotelChain| #[trigger] self.is_active(c),
    {
        assert forall|c: HotelChain| #[trigger] self.inactive_chains().contains(c) <==> !self.is_active(c) by {
            lemma_chain_order_complete(c);
            lemma_chains_with_status_contains(*self, chain_order(), false, c);
        }
        if self.inactive_chains().len() == 0 {
            assert forall|c: HotelChain| #[trigger] self.is_active(c) by {
                if !self.is_active(c) {
                    assert(self.inactive_chains().contains(c));
                }
            }
        } else {
            let c = self.inactive_chains()[0];
            assert(self.inactive_chains().contains(c));
        }
    }

    /// Returns true if the chain is safe. This means that it can no longer be fused into another chain.
    pub fn is_chain_safe(&self, chain: &HotelChain) -> (b: bool)
        requires
            self.wf(),
        ensures
            b == self.spec_is_safe(*chain),
    {
        self.chain_length(&chain) >= 11
    }
}

/// A chain is in the filtered sequence when it is in `s` and has the status.
pub proof fn lemma_chains_with_status_contains(m: HotelChainManager, s: Seq<HotelChain>, active: bool, c: HotelChain)
    ensures
        chains_with_status(m, s, active).contains(c) <==> s.contains(c) && m.is_active(c) == active,
    decreases s.len(),
{
    if s.len() > 0 {
        lemma_chains_with_status_contains(m, s.drop_last(), active, c);
        if s.contains(c) && s.last() != c {
            let j = choose|j: int| 0 <= j < s.len() && s[j] == c;
            assert(s.drop_last()[j] == c);
        }
        if s.drop_last().contains(c) {
            let j = choose|j: int| 0 <= j < s.drop_last().len() && s.drop_last()[j] == c;
            assert(s[j] == c);
        }
        let r = chains_with_status(m, s.drop_last(), active);
        if m.is_active(s.last()) == active {
            if r.push(s.last()).contains(c) && s.last() != c {
                let j = choose|j: int| 0 <= j < r.push(s.last()).len() && r.push(s.last())[j] == c;
                assert(r[j] == c);
            }
            if r.contains(c) {
                let j = choose|j: int| 0 <= j < r.len() && r[j] == c;
                assert(r.push(s.last())[j] == c);
            }
            if s.last() == c {
                assert(r.push(s.last())[r.len() as int] == c);
            }
        }
    }
}

/// Marking hotels that have all been placed as belonging to a chain changes no placed flag.
pub proof fn lemma_placed_kept(pieces: Seq<Piece>, chain: HotelChain, ps: Seq<Position>, p: Position)
    requires
        pieces.len() == 108,
        on_board(p),
        forall|j: int| 0 <= j < ps.len() ==> on_board(#[trigger] ps[j]) && pieces[cell_index(ps[j])].piece_set,
    ensures
        pieces_with_chain(pieces, chain, ps)[cell_index(p)].piece_set == pieces[cell_index(p)].piece_set,
    decreases ps.len(),
{
    lemma_cell_index_position(p);
    if ps.len() > 0 {
        let t = ps.drop_last();
        assert forall|j: int| 0 <= j < t.len() implies on_board(#[trigger] t[j]) && pieces[cell_index(t[j])].piece_set by {
            assert(t[j] == ps[j]);
        }
        lemma_placed_kept(pieces, chain, t, p);
        lemma_pieces_with_chain_positions(pieces, chain, t);
        lemma_cell_index_position(ps.last());
        assert(on_board(ps[ps.len() - 1]) && pieces[cell_index(ps[ps.len() - 1])].piece_set);
        let prev = pieces_with_chain(pieces, chain, t);
        let i = cell_index(ps.last());
        assert(pieces_with_chain(pieces, chain, ps) == prev.update(
            i,
            Piece { piece_set: true, chain: Some(chain), position: prev[i].position },
        ));
    }
}

/// Marking hotels that have been placed as belonging to a chain keeps the fields of the board
/// and their placed flags.
pub proof fn lemma_pieces_with_chain_positions_placed(old_board: Board, chain: HotelChain, ps: Seq<Position>, i: int)
    requires
        old_board.wf(),
        0 <= i < ps.len(),
        forall|j: int| 0 <= j < i ==> (#[trigger] old_board.placed(ps[j])) is Some,
    ensures
        pieces_with_chain(old_board.cells(), chain, ps.take(i)).len() == 108,
        forall|k: int|
            0 <= k < 108 ==> (#[trigger] pieces_with_chain(old_board.cells(), chain, ps.take(i))[k]).position
                == old_board.cells()[k].position,
        on_board(ps[i]) ==> pieces_with_chain(old_board.cells(), chain, ps.take(i))[cell_index(ps[i])].piece_set
            == old_board.piece(ps[i]).piece_set,
{
    let t = ps.take(i);
    assert forall|j: int| 0 <= j < t.len() implies on_board(#[trigger] t[j])
        && old_board.cells()[cell_index(t[j])].piece_set by {
        assert(t[j] == ps[j]);
        assert(old_board.placed(ps[j]) is Some);
    }
    lemma_pieces_with_chain_positions(old_board.cells(), chain, t);
    if on_board(ps[i]) {
        lemma_placed_kept(old_board.cells(), chain, t, ps[i]);
    }
}

/// What `first_unplaced` finds: every position before it has a hotel, and the one it names
/// has none.
pub proof fn lemma_first_unplaced_found(board: Board, ps: Seq<Position>)
    ensures
        0 <= first_unplaced(board, ps) <= ps.len(),
        forall|j: int| 0 <= j < first_unplaced(board, ps) ==> (#[trigger] board.placed(ps[j])) is Some,
        first_unplaced(board, ps) < ps.len() ==> board.placed(ps[first_unplaced(board, ps)]) is None,
    decreases ps.len(),
{
    if ps.len() > 0 && board.placed(ps[0]) is Some {
        let t = ps.drop_first();
        lemma_first_unplaced_found(board, t);
        assert forall|j: int| 0 <= j < first_unplaced(board, ps) implies (#[trigger] board.placed(ps[j])) is Some by {
            if j > 0 {
                assert(ps[j] == t[j - 1]);
            }
        }
        if first_unplaced(board, ps) < ps.len() {
            assert(ps[first_unplaced(board, ps)] == t[first_unplaced(board, t)]);
        }
    }
}

/// Marking the hotels at `a` and then those at `b` is marking those at `a` followed by `b`.
pub proof fn lemma_pieces_with_chain_append(pieces: Seq<Piece>, chain: HotelChain, a: Seq<Position>, b: Seq<Position>)
    ensures
        pieces_with_chain(pieces_with_chain(pieces, chain, a), chain, b) == pieces_with_chain(pieces, chain, a + b),
    decreases b.len(),
{
    if b.len() == 0 {
        assert(a + b =~= a);
    } else {
        lemma_pieces_with_chain_append(pieces, chain, a, b.drop_last());
        assert((a + b).drop_last() =~= a + b.drop_last());
        assert((a + b).last() == b.last());
    }
}

/// The hotels of the chains, one chain after the other.
pub open spec fn positions_of_all(m: HotelChainManager, cs: Seq<HotelChain>) -> Seq<Position>
    decreases cs.len(),
{
    if cs.len() == 0 {
        Seq::empty()
    } else {
        positions_of_all(m, cs.drop_last()) + m.positions(cs.last())
    }
}

/// Taking one chain more adds its hotels at the end.
proof fn lemma_positions_of_all_step(m: HotelChainManager, cs: Seq<HotelChain>, k: int)
    requires
        0 <= k < cs.len(),
    ensures
        positions_of_all(m, cs.take(k + 1)) == positions_of_all(m, cs.take(k)) + m.positions(cs[k]),
{
    assert(cs.take(k + 1).drop_last() =~= cs.take(k));
}

/// The hotels of the first chains are no more than those of all chains.
proof fn lemma_positions_of_all_prefix_len(m: HotelChainManager, cs: Seq<HotelChain>, k: int)
    requires
        0 <= k <= cs.len(),
    ensures
        positions_of_all(m, cs.take(k)).len() <= positions_of_all(m, cs).len(),
    decreases cs.len() - k,
{
    if k < cs.len() {
        lemma_positions_of_all_step(m, cs, k);
        lemma_positions_of_all_prefix_len(m, cs, k + 1);
    } else {
        assert(cs.take(k) =~= cs);
    }
}

/// Every hotel of one of the chains is among the hotels of all of them.
proof fn lemma_positions_of_all_contains(m: HotelChainManager, cs: Seq<HotelChain>, j: int, x: Position)
    requires
        0 <= j < cs.len(),
        m.positions(cs[j]).contains(x),
    ensures
        positions_of_all(m, cs).contains(x),
    decreases cs.len(),
{
    let t = cs.drop_last();
    let a = positions_of_all(m, t);
    let b = m.positions(cs.last());
    if j < t.len() {
        assert(t[j] == cs[j]);
        lemma_positions_of_all_contains(m, t, j, x);
        let i = choose|i: int| 0 <= i < a.len() && a[i] == x;
        assert((a + b)[i] == x);
    } else {
        let i = choose|i: int| 0 <= i < b.len() && b[i] == x;
        assert((a + b)[a.len() + i] == x);
    }
}

/// A fusion at `origin` of the chains `cs` into `survivor` can be carried out: the chains are
/// active, and a hotel stands at the origin and at every position of the chains that are fused.
pub open spec fn fusion_possible(
    m: HotelChainManager,
    board: Board,
    survivor: HotelChain,
    cs: Seq<HotelChain>,
    origin: Position,
) -> bool {
    &&& m.is_active(survivor)
    &&& forall|k: int| 0 <= k < cs.len() ==> m.is_active(#[trigger] cs[k])
    &&& forall|k: int|
        0 <= k < positions_of_all(m, cs).len() ==> board.placed(#[trigger] positions_of_all(m, cs)[k]) is Some
    &&& board.placed(origin) is Some
}

impl HotelChainManager {
    /// Completes a fusion on the board: the chains of `dead` are fused, one after the other,
    /// into `survivor`, and the hotel at `origin` joins it.
    /// # Returns
    /// * `Ok(())` - When every chain was fused and the hotel joined the survivor
    /// * `Err(Error)` - When a chain is not active or a hotel is missing from the board
    #[verifier::spinoff_prover]
    #[verifier::rlimit(40)]
    pub fn fuse_all_into(&mut self, survivor: &HotelChain, dead: &Vec<HotelChain>, origin: Position, board: &mut Board) -> (r:
        Result<(), GameError>)
        requires
            old(self).wf(),
            old(board).wf(),
            dead@.no_duplicates(),
            !dead@.contains(*survivor),
            old(self).length(*survivor) + positions_of_all(*old(self), dead@).len() < u32::MAX,
        ensures
            final(self).wf(),
            final(board).wf(),
            r is Ok <==> fusion_possible(*old(self), *old(board), *survivor, dead@, origin),
            r is Ok ==> {
                &&& final(self).is_active(*survivor)
                &&& final(self).positions(*survivor) == old(self).positions(*survivor) + positions_of_all(
                    *old(self),
                    dead@,
                ) + seq![origin]
                &&& forall|k: int| 0 <= k < dead@.len() ==> !final(self).is_active(#[trigger] dead@[k])
                &&& forall|c: HotelChain|
                    c != *survivor && !dead@.contains(c) ==> #[trigger] final(self).positions(c) == old(
                        self,
                    ).positions(c) && final(self).is_active(c) == old(self).is_active(c)
                &&& final(board).cells() == pieces_with_chain(
                    old(board).cells(),
                    *survivor,
                    positions_of_all(*old(self), dead@).push(origin),
                )
            },
            r matches Err(e) ==> match e {
                GameError::FusionChainMissing { alive, dead: d } => alive == *survivor && dead@.contains(d) && !(old(
                    self,
                ).is_active(*survivor) && old(self).is_active(d)),
                GameError::HotelNotPlaced(p) => old(board).placed(p) is None && (p == origin || positions_of_all(
                    *old(self),
                    dead@,
                ).contains(p)),
                GameError::ChainNotFounded(c) => c == *survivor && !old(self).is_active(*survivor),
                _ => false,
            },
    {
        let ghost m0 = *self;
        let ghost b0 = *board;
        let ghost all = positions_of_all(m0, dead@);
        if !self.chain_status(survivor) {
            if dead.len() == 0 {
                return Err(GameError::ChainNotFounded(*survivor));
            }
            return Err(GameError::FusionChainMissing { alive: *survivor, dead: dead[0] });
        }
        proof {
            assert(dead@.take(0) =~= Seq::<HotelChain>::empty());
            assert(m0.positions(*survivor) + positions_of_all(m0, dead@.take(0)) =~= m0.positions(*survivor));
        }
        let mut k: usize = 0;
        while k < dead.len()
            invariant
                m0 == *old(self),
                b0 == *old(board),
                m0.wf(),
                b0.wf(),
                self.wf(),
                board.wf(),
                k <= dead@.len(),
                dead@.no_duplicates(),
                !dead@.contains(*survivor),
                m0.length(*survivor) + all.len() < u32::MAX,
                all == positions_of_all(m0, dead@),
                m0.is_active(*survivor),
                self.is_active(*survivor),
                self.positions(*survivor) == m0.positions(*survivor) + positions_of_all(m0, dead@.take(k as int)),
                forall|j: int| 0 <= j < k ==> !self.is_active(#[trigger] dead@[j]) && m0.is_active(dead@[j]),
                forall|c: HotelChain|
                    c != *survivor && !dead@.take(k as int).contains(c) ==> #[trigger] self.active_chains.at(c)
                        == m0.active_chains.at(c),
                forall|j: int|
                    0 <= j < positions_of_all(m0, dead@.take(k as int)).len() ==> (#[trigger] b0.placed(
                        positions_of_all(m0, dead@.take(k as int))[j],
                    )) is Some,
                board.cells() == pieces_with_chain(b0.cells(), *survivor, positions_of_all(m0, dead@.take(k as int))),
            decreases dead@.len() - k,
        {
            let d = dead[k];
            let ghost before = *self;
            let ghost board_before = *board;
            let ghost done = positions_of_all(m0, dead@.take(k as int));
            proof {
                assert(d != *survivor);
                assert(!dead@.take(k as int).contains(d)) by {
                    if dead@.take(k as int).contains(d) {
                        let j = choose|j: int| 0 <= j < k && dead@.take(k as int)[j] == d;
                        assert(dead@[j] == dead@[k as int]);
                    }
                }
                assert(self.active_chains.at(d) == m0.active_chains.at(d));
                lemma_positions_of_all_step(m0, dead@, k as int);
                lemma_positions_of_all_prefix_len(m0, dead@, k + 1);
                // every field of the board reads as on the board before the fusion
                assert forall|j: int| 0 <= j < done.len() implies on_board(#[trigger] done[j])
                    && b0.cells()[cell_index(done[j])].piece_set by {
                    assert(b0.placed(done[j]) is Some);
                }
                lemma_pieces_with_chain_positions(b0.cells(), *survivor, done);
                assert forall|q: Position| #[trigger] board.placed(q) == b0.placed(q) || (board.placed(q) is Some
                    && b0.placed(q) is Some) by {
                    if on_board(q) {
                        lemma_placed_kept(b0.cells(), *survivor, done, q);
                    }
                }
            }
            let fused = self.fuse_chains(survivor, &d, board);
            if fused.is_err() {
                proof {
                    let dd = m0.positions(d);
                    if m0.is_active(d) {
                        let f = first_unplaced(board_before, dd);
                        lemma_first_unplaced_found(board_before, dd);
                        assert(f < dd.len());
                        assert(dd.contains(dd[f]));
                        lemma_positions_of_all_contains(m0, dead@, k as int, dd[f]);
                        assert(b0.placed(dd[f]) is None);
                    } else {
                        assert(dead@.contains(d));
                    }
                    if fusion_possible(m0, b0, *survivor, dead@, origin) {
                        assert(m0.is_active(dead@[k as int]));
                        let f = first_unplaced(board_before, dd);
                        let x = dd[f];
                        let i = choose|i: int| 0 <= i < all.len() && all[i] == x;
                        assert(b0.placed(all[i]) is Some);
                    }
                }
                return fused;
            }
            proof {
                let dd = m0.positions(d);
                lemma_first_unplaced_found(board_before, dd);
                assert(dd.take(dd.len() as int) =~= dd);
                before.lemma_agrees_except(*self, *survivor, d);
                lemma_pieces_with_chain_append(b0.cells(), *survivor, done, dd);
                assert(positions_of_all(m0, dead@.take(k + 1)) == done + dd);
                assert(self.positions(*survivor) =~= m0.positions(*survivor) + positions_of_all(m0, dead@.take(k + 1)));
                assert forall|j: int| 0 <= j < k + 1 implies !self.is_active(#[trigger] dead@[j]) && m0.is_active(dead@[j]) by {
                    if j < k {
                        assert(dead@[j] != d);
                        assert(dead@[j] != *survivor);
                    }
                }
                assert forall|c: HotelChain| c != *survivor && !dead@.take(k + 1).contains(c) implies #[trigger] self.active_chains.at(c)
                    == m0.active_chains.at(c) by {
                    assert(dead@.take(k + 1)[k as int] == d);
                    if dead@.take(k as int).contains(c) {
                        let j = choose|j: int| 0 <= j < k && dead@.take(k as int)[j] == c;
                        assert(dead@.take(k + 1)[j] == c);
                    }
                    assert(c != d);
                    assert(before.active_chains.at(c) == self.active_chains.at(c));
                }
                assert forall|j: int| 0 <= j < (done + dd).len() implies (#[trigger] b0.placed((done + dd)[j])) is Some by {
                    if j >= done.len() {
                        assert((done + dd)[j] == dd[j - done.len()]);
                        assert(board_before.placed(dd[j - done.len()]) is Some);
                    }
                }
            }
            k = k + 1;
        }
        proof {
            assert(dead@.take(k as int) =~= dead@);
            assert forall|q: Position| #[trigger] board.placed(q) is Some <==> b0.placed(q) is Some by {
                if on_board(q) {
                    assert forall|j: int| 0 <= j < all.len() implies on_board(#[trigger] all[j])
                        && b0.cells()[cell_index(all[j])].piece_set by {
                        assert(b0.placed(all[j]) is Some);
                    }
                    lemma_placed_kept(b0.cells(), *survivor, all, q);
                }
            }
        }
        let ghost before = *self;
        let ghost board_before = *board;
        let added = self.add_hotel_to_chain(survivor, origin, board);
        proof {
            before.lemma_agrees_except(*self, *survivor, *survivor);
            if added is Ok {
                lemma_cell_index_position(origin);
                lemma_pieces_with_chain_append(b0.cells(), *survivor, all, seq![origin]);
                assert(all + seq![origin] =~= all.push(origin));
                assert(pieces_with_chain(board_before.cells(), *survivor, seq![origin]) =~= board_before.with_piece(
                    origin,
                    Piece { chain: Some(*survivor), ..board_before.piece(origin) },
                )) by {
                    assert(seq![origin].drop_last() =~= Seq::<Position>::empty());
                    reveal_with_fuel(pieces_with_chain, 2);
                    assert(board_before.piece(origin).piece_set);
                }
                assert(self.positions(*survivor) =~= m0.positions(*survivor) + all + seq![origin]);
                assert forall|c: HotelChain| c != *survivor && !dead@.contains(c) implies #[trigger] self.positions(c)
                    == m0.positions(c) && self.is_active(c) == m0.is_active(c) by {
                    assert(before.active_chains.at(c) == m0.active_chains.at(c));
                }
                assert forall|j: int| 0 <= j < dead@.len() implies !self.is_active(#[trigger] dead@[j]) by {
                    assert(dead@[j] != *survivor);
                }
                assert(self.is_active(*survivor));
                assert(board.cells() == pieces_with_chain(b0.cells(), *survivor, all.push(origin)));
                assert(self.positions(*survivor) == m0.positions(*survivor) + all + seq![origin]);
            }
        }
        added
    }
}

impl<T> PerChain<Option<T>> {
    /// A table with no value for any chain.
    pub fn uniform_none() -> (t: Self)
        ensures
            forall|c: HotelChain| #[trigger] t.at(c) is None,
    {
        PerChain {
            airport: None,
            continental: None,
            festival: None,
            imperial: None,
            luxor: None,
            oriental: None,
            prestige: None,
        }
    }
}

} // verus!
