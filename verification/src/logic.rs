//! The rules of the game: when the game may end, which chain survives a fusion, and
//! extending chains.
use vstd::prelude::*;
use vstd::string::*;

use crate::bank::{spec_largest, spec_second, Bank};
use crate::board::{on_board, spec_neighbours, Board, Piece, Position};
use crate::chain::{chain_order, lemma_chain_order_complete, HotelChain};
use crate::chain_manager::{chain_founded, first_unplaced, lemma_first_unplaced, pieces_with_chain, HotelChainManager};
use crate::error::GameError;
use crate::placement::{
    analyze_position, lemma_extension_small, spec_analyze, AnalyzedPosition, PlaceHotelCase,
};
use crate::player::Player;

verus! {

/// The different ways the game can end.
#[derive(Clone, Copy, Debug, PartialEq, Eq, Structural)]
pub enum EndCondition {
    /// The game can be finished when all chains on the board have more than 10 hotels and
    /// when there is no space to found a new chain
    AllChainsMoreThan10HotelsAndNoSpaceForNewChain,
    /// The game can be finished when at least one chain has 41 or more hotels
    OneChain41OrMoreHotels,
}

/// Every active chain has more than 10 hotels.
pub open spec fn active_chains_large(m: HotelChainManager) -> bool {
    forall|c: HotelChain| #[trigger] m.is_active(c) ==> m.length(c) > 10
}

/// Placing a hotel at the position would found a chain, or it would stand alone next to a
/// free field where a second single hotel would found one.
pub open spec fn room_for_new_chain_at(board: Board, m: HotelChainManager, p: Position) -> bool {
    let a = spec_analyze(p, board, m);
    ||| a is NewChain
    ||| a is SingleHotel && exists|j: int|
        0 <= j < spec_neighbours(p).len() && spec_analyze(#[trigger] spec_neighbours(p)[j], board, m) is SingleHotel
}

/// Whether the end condition is met on the board.
pub open spec fn spec_condition_met(e: EndCondition, board: Board, m: HotelChainManager) -> bool {
    match e {
        EndCondition::AllChainsMoreThan10HotelsAndNoSpaceForNewChain => {
            &&& active_chains_large(m)
            &&& forall|i: int|
                0 <= i < 108 ==> !room_for_new_chain_at(board, m, (#[trigger] board.cells()[i]).position)
        },
        EndCondition::OneChain41OrMoreHotels => exists|c: HotelChain| #[trigger] m.length(c) >= 41,
    }
}

/// The game may end because all chains are large only when no active chain has 10 or fewer
/// hotels, whatever the board; it may end because of one large chain exactly when some chain
/// has 41 or more hotels. So while an active chain has 10 or fewer hotels and no chain has 41,
/// no end condition is met.
pub proof fn lemma_end_conditions(board: Board, m: HotelChainManager)
    ensures
        (exists|c: HotelChain| m.is_active(c) && m.length(c) <= 10) ==> !spec_condition_met(
            EndCondition::AllChainsMoreThan10HotelsAndNoSpaceForNewChain,
            board,
            m,
        ),
        spec_condition_met(EndCondition::OneChain41OrMoreHotels, board, m) <==> exists|c: HotelChain|
            m.length(c) >= 41,
        (exists|c: HotelChain| m.is_active(c) && m.length(c) <= 10) && (forall|c: HotelChain| m.length(c) <= 40)
            ==> spec_check_end(board, m) is None,
{
    if exists|c: HotelChain| m.is_active(c) && m.length(c) <= 10 {
        let c = choose|c: HotelChain| m.is_active(c) && m.length(c) <= 10;
        assert(!active_chains_large(m)) by {
            assert(m.is_active(c));
        }
    }
}

/// The description of the end condition.
pub open spec fn spec_end_description(e: EndCondition) -> Seq<char> {
    match e {
        EndCondition::AllChainsMoreThan10HotelsAndNoSpaceForNewChain => "All chains have at least 10 hotels and no new chains can be founded"@,
        EndCondition::OneChain41OrMoreHotels => "One chain has 41 or more hotels"@,
    }
}

/// The end conditions, in the order in which they are checked.
pub open spec fn end_condition_order() -> Seq<EndCondition> {
    seq![EndCondition::AllChainsMoreThan10HotelsAndNoSpaceForNewChain, EndCondition::OneChain41OrMoreHotels]
}

impl EndCondition {
    /// Checks whether the condition is met.
    pub fn is_condition_met(&self, board: &Board, hotel_chain_manager: &HotelChainManager) -> (b: bool)
        requires
            board.wf(),
            hotel_chain_manager.wf(),
        ensures
            b == spec_condition_met(*self, *board, *hotel_chain_manager),
    {
        match *self {
            Self::AllChainsMoreThan10HotelsAndNoSpaceForNewChain => {
                if !all_active_chains_large(hotel_chain_manager) {
                    return false;
                }
                no_room_anywhere(board, hotel_chain_manager)
            },
            Self::OneChain41OrMoreHotels => {
                let chains = HotelChain::iterator();
                let mut i: usize = 0;
                while i < chains.len()
                    invariant
                        *self == EndCondition::OneChain41OrMoreHotels,
                        hotel_chain_manager.wf(),
                        chains@ == chain_order(),
                        i <= chains@.len(),
                        forall|j: int| 0 <= j < i ==> hotel_chain_manager.length(#[trigger] chains@[j]) < 41,
                    decreases chains@.len() - i,
                {
                    if hotel_chain_manager.chain_length(&chains[i]) >= 41 {
                        assert(hotel_chain_manager.length(chains@[i as int]) >= 41);
                        return true;
                    }
                    i = i + 1;
                }
                proof {
                    assert forall|c: HotelChain| #[trigger] hotel_chain_manager.length(c) < 41 by {
                        lemma_chain_order_complete(c);
                        let j = choose|j: int| 0 <= j < 7 && chains@[j] == c;
                        assert(hotel_chain_manager.length(chains@[j]) < 41);
                    }
                }
                false
            },
        }
    }

    /// Returns a description on the end condition
    pub fn description(&self) -> (s: String)
        ensures
            s@ == spec_end_description(*self),
    {
        match self {
            Self::AllChainsMoreThan10HotelsAndNoSpaceForNewChain => String::from_str(
                "All chains have at least 10 hotels and no new chains can be founded",
            ),
            Self::OneChain41OrMoreHotels => String::from_str("One chain has 41 or more hotels"),
        }
    }

    /// Returns all end conditions, in the order in which they are checked.
    pub fn iterator() -> (v: Vec<EndCondition>)
        ensures
            v@ == end_condition_order(),
    {
        let v = vec![EndCondition::AllChainsMoreThan10HotelsAndNoSpaceForNewChain, EndCondition::OneChain41OrMoreHotels];
        assert(v@ =~= end_condition_order());
        v
    }
}

/// Whether no field of the board leaves room for a new chain.
fn no_room_anywhere(board: &Board, m: &HotelChainManager) -> (b: bool)
    requires
        board.wf(),
        m.wf(),
    ensures
        b == forall|i: int| 0 <= i < 108 ==> !room_for_new_chain_at(*board, *m, (#[trigger] board.cells()[i]).position),
{
    let mut i: usize = 0;
    while i < 108
        invariant
            board.wf(),
            m.wf(),
            i <= 108,
            forall|j: int| 0 <= j < i ==> !room_for_new_chain_at(*board, *m, (#[trigger] board.cells()[j]).position),
        decreases 108 - i,
    {
        let position = board.piece_at(i).position;
        if room_for_new_chain(&position, board, m) {
            assert(room_for_new_chain_at(*board, *m, board.cells()[i as int].position));
            return false;
        }
        i = i + 1;
    }
    true
}

/// Whether every active chain has more than 10 hotels.
fn all_active_chains_large(m: &HotelChainManager) -> (b: bool)
    requires
        m.wf(),
    ensures
        b == active_chains_large(*m),
{
    let chains = HotelChain::iterator();
    let mut i: usize = 0;
    while i < chains.len()
        invariant
            m.wf(),
            chains@ == chain_order(),
            i <= chains@.len(),
            forall|j: int| 0 <= j < i ==> #[trigger] m.is_active(chains@[j]) ==> m.length(chains@[j]) > 10,
        decreases chains@.len() - i,
    {
        let chain = chains[i];
        if m.chain_status(&chain) {
            if m.chain_length(&chain) <= 10 {
                return false;
            }
        }
        i = i + 1;
    }
    proof {
        assert forall|c: HotelChain| #[trigger] m.is_active(c) implies m.length(c) > 10 by {
            lemma_chain_order_complete(c);
            let j = choose|j: int| 0 <= j < 7 && chains@[j] == c;
            assert(m.is_active(chains@[j]));
        }
    }
    true
}

/// Whether a hotel at the position would found a chain, or would stand alone next to a field
/// where a second single hotel would found one.
fn room_for_new_chain(position: &Position, board: &Board, m: &HotelChainManager) -> (b: bool)
    requires
        board.wf(),
        m.wf(),
    ensures
        b == room_for_new_chain_at(*board, *m, *position),
{
    let case = analyze_position(position, board, m);
    match case {
        crate::placement::PlaceHotelCase::NewChain(_positions) => true,
        crate::placement::PlaceHotelCase::SingleHotel => {
            let neighbours = position.neighbours();
            let mut j: usize = 0;
            while j < neighbours.len()
                invariant
                    board.wf(),
                    m.wf(),
                    spec_analyze(*position, *board, *m) is SingleHotel,
                    neighbours@ == spec_neighbours(*position),
                    j <= neighbours@.len(),
                    forall|k: int|
                        0 <= k < j ==> !(spec_analyze(#[trigger] neighbours@[k], *board, *m) is SingleHotel),
                decreases neighbours@.len() - j,
            {
                let other = analyze_position(&neighbours[j], board, m);
                if let crate::placement::PlaceHotelCase::SingleHotel = other {
                    assert(spec_analyze(neighbours@[j as int], *board, *m) is SingleHotel);
                    return true;
                }
                j = j + 1;
            }
            false
        },
        _ => false,
    }
}

/// The first end condition, in the order of `end_condition_order`, that is met.
pub open spec fn spec_check_end(board: Board, m: HotelChainManager) -> Option<EndCondition> {
    if spec_condition_met(EndCondition::AllChainsMoreThan10HotelsAndNoSpaceForNewChain, board, m) {
        Some(EndCondition::AllChainsMoreThan10HotelsAndNoSpaceForNewChain)
    } else if spec_condition_met(EndCondition::OneChain41OrMoreHotels, board, m) {
        Some(EndCondition::OneChain41OrMoreHotels)
    } else {
        None
    }
}

/// Checks if the game state meets at least one condition because of which the game can be
/// finished.
/// # Returns
/// * `None` - No ending condition is met.
/// * `Some(condition)` - The first condition that is met.
pub fn check_end_condition(board: &Board, hotel_chain_manager: &HotelChainManager) -> (r: Option<EndCondition>)
    requires
        board.wf(),
        hotel_chain_manager.wf(),
    ensures
        r == spec_check_end(*board, *hotel_chain_manager),
{
    let conditions = EndCondition::iterator();
    let mut i: usize = 0;
    while i < conditions.len()
        invariant
            board.wf(),
            hotel_chain_manager.wf(),
            conditions@ == end_condition_order(),
            i <= conditions@.len(),
            forall|j: int|
                0 <= j < i ==> !spec_condition_met(#[trigger] conditions@[j], *board, *hotel_chain_manager),
        decreases conditions@.len() - i,
    {
        if conditions[i].is_condition_met(board, hotel_chain_manager) {
            return Some(conditions[i]);
        }
        i = i + 1;
    }
    proof {
        assert(!spec_condition_met(conditions@[0], *board, *hotel_chain_manager));
        assert(!spec_condition_met(conditions@[1], *board, *hotel_chain_manager));
    }
    None
}

/// Some field holds no hotel yet and a hotel could be placed there.
pub open spec fn spec_can_continue(board: Board, m: HotelChainManager) -> bool {
    exists|i: int|
        0 <= i < 108 && !(#[trigger] board.cells()[i]).piece_set && !(spec_analyze(
            board.cells()[i].position,
            board,
            m,
        ) is Illegal)
}

/// Checks if there are still positions on the board left that could be played.
/// If there are none false is returned.
/// Used to determine if the game will finish definitely.
pub fn can_game_continue(board: &Board, hotel_chain_manager: &HotelChainManager) -> (b: bool)
    requires
        board.wf(),
        hotel_chain_manager.wf(),
    ensures
        b == spec_can_continue(*board, *hotel_chain_manager),
{
    let mut i: usize = 0;
    while i < 108
        invariant
            board.wf(),
            hotel_chain_manager.wf(),
            i <= 108,
            forall|j: int|
                0 <= j < i ==> !(!(#[trigger] board.cells()[j]).piece_set && !(spec_analyze(
                    board.cells()[j].position,
                    *board,
                    *hotel_chain_manager,
                ) is Illegal)),
        decreases 108 - i,
    {
        let piece = board.piece_at(i);
        if !piece.piece_set {
            let case = analyze_position(&piece.position, board, hotel_chain_manager);
            if !case.is_illegal() {
                return true;
            }
        }
        i = i + 1;
    }
    false
}

/// The longest of two to four chains, if one is longer than all others; `None` when no
/// chain is strictly longer than every other one.
pub open spec fn spec_longest_chain(
    c1: HotelChain,
    c2: HotelChain,
    c3: Option<HotelChain>,
    c4: Option<HotelChain>,
    m: HotelChainManager,
) -> Option<HotelChain> {
    let l1 = m.length(c1);
    let l2 = m.length(c2);
    if c3 is Some && c4 is Some {
        let l3 = m.length(c3->0);
        let l4 = m.length(c4->0);
        if l1 > l2 && l1 > l3 && l1 > l4 {
            Some(c1)
        } else if l2 > l1 && l2 > l3 && l2 > l4 {
            Some(c2)
        } else if l3 > l1 && l3 > l2 && l3 > l4 {
            c3
        } else if l4 > l1 && l4 > l2 && l4 > l3 {
            c4
        } else {
            None
        }
    } else if c3 is Some {
        let l3 = m.length(c3->0);
        if l1 > l2 && l1 > l3 {
            Some(c1)
        } else if l2 > l1 && l2 > l3 {
            Some(c2)
        } else if l3 > l1 && l3 > l2 {
            c3
        } else {
            None
        }
    } else if l1 > l2 {
        Some(c1)
    } else if l2 > l1 {
        Some(c2)
    } else {
        None
    }
}

/// The chains given to `longest_chain`: the first two, then the third and the fourth where
/// they are given.
pub open spec fn given_chains(c1: HotelChain, c2: HotelChain, c3: Option<HotelChain>, c4: Option<HotelChain>) -> Seq<
    HotelChain,
> {
    match (c3, c4) {
        (Some(x), Some(y)) => seq![c1, c2, x, y],
        (Some(x), None) => seq![c1, c2, x],
        _ => seq![c1, c2],
    }
}

/// The chain is among `cs` and longer than every other chain of `cs`.
pub open spec fn strictly_longest(cs: Seq<HotelChain>, c: HotelChain, m: HotelChainManager) -> bool {
    cs.contains(c) && forall|d: HotelChain| #[trigger] cs.contains(d) && d != c ==> m.length(c) > m.length(d)
}

/// Of distinct chains, the longest one is the chain that is longer than every other one;
/// when no chain is, there is none.
pub proof fn lemma_longest_is_strictly_longest(
    c1: HotelChain,
    c2: HotelChain,
    c3: Option<HotelChain>,
    c4: Option<HotelChain>,
    m: HotelChainManager,
)
    requires
        c4 is Some ==> c3 is Some,
        given_chains(c1, c2, c3, c4).no_duplicates(),
    ensures
        forall|c: HotelChain|
            spec_longest_chain(c1, c2, c3, c4, m) == Some(c) <==> strictly_longest(
                given_chains(c1, c2, c3, c4),
                c,
                m,
            ),
        spec_longest_chain(c1, c2, c3, c4, m) is None <==> !exists|c: HotelChain|
            strictly_longest(given_chains(c1, c2, c3, c4), c, m),
{
    let cs = given_chains(c1, c2, c3, c4);
    let r = spec_longest_chain(c1, c2, c3, c4, m);
    assert(cs[0] == c1 && cs[1] == c2);
    assert(cs.contains(c1) && cs.contains(c2));
    assert(cs[0] != cs[1]);
    if c3 is Some {
        assert(cs[2] == c3->0 && cs.contains(c3->0));
        assert(cs[0] != cs[2] && cs[1] != cs[2]);
    }
    if c4 is Some {
        assert(cs[3] == c4->0 && cs.contains(c4->0));
        assert(cs[0] != cs[3] && cs[1] != cs[3] && cs[2] != cs[3]);
    }
    assert forall|d: HotelChain| cs.contains(d) implies d == c1 || d == c2 || c3 == Some(d) || c4 == Some(d) by {
        let k = choose|k: int| 0 <= k < cs.len() && cs[k] == d;
    }
    assert forall|c: HotelChain| r == Some(c) implies strictly_longest(cs, c, m) by {
        assert forall|d: HotelChain| #[trigger] cs.contains(d) && d != c implies m.length(c) > m.length(d) by {}
    }
    assert forall|c: HotelChain| strictly_longest(cs, c, m) implies r == Some(c) by {
        assert(c != c1 ==> m.length(c) > m.length(c1));
        assert(c != c2 ==> m.length(c) > m.length(c2));
        if c3 is Some {
            assert(c != c3->0 ==> m.length(c) > m.length(c3->0));
        }
        if c4 is Some {
            assert(c != c4->0 ==> m.length(c) > m.length(c4->0));
        }
    }
    if r is Some {
        assert(strictly_longest(cs, r->0, m));
    }
}

/// Determines what the longest chain is.
/// # Returns
/// * 'Some(chain)' - The chain that is the longest
/// * `None` - No chain is the longest
pub fn longest_chain(
    chain1: &HotelChain,
    chain2: &HotelChain,
    chain3: Option<&HotelChain>,
    chain4: Option<&HotelChain>,
    hotel_chain_manager: &HotelChainManager,
) -> (r: Option<HotelChain>)
    requires
        hotel_chain_manager.wf(),
    ensures
        r == spec_longest_chain(
            *chain1,
            *chain2,
            match chain3 {
                Some(c) => Some(*c),
                None => None,
            },
            match chain4 {
                Some(c) => Some(*c),
                None => None,
            },
            *hotel_chain_manager,
        ),
{
    let chain1_length = hotel_chain_manager.chain_length(chain1);
    let chain2_length = hotel_chain_manager.chain_length(chain2);
    if let (Some(c3), Some(c4)) = (chain3, chain4) {
        let chain3_length = hotel_chain_manager.chain_length(c3);
        let chain4_length = hotel_chain_manager.chain_length(c4);
        if chain1_length > chain2_length && chain1_length > chain3_length && chain1_length > chain4_length {
            return Some(*chain1);
        }
        if chain2_length > chain1_length && chain2_length > chain3_length && chain2_length > chain4_length {
            return Some(*chain2);
        }
        if chain3_length > chain1_length && chain3_length > chain2_length && chain3_length > chain4_length {
            return Some(*c3);
        }
        if chain4_length > chain1_length && chain4_length > chain2_length && chain4_length > chain3_length {
            return Some(*c4);
        }
        return None;
    }
    if let Some(c3) = chain3 {
        let chain3_length = hotel_chain_manager.chain_length(c3);
        if chain1_length > chain2_length && chain1_length > chain3_length {
            return Some(*chain1);
        }
        if chain2_length > chain1_length && chain2_length > chain3_length {
            return Some(*chain2);
        }
        if chain3_length > chain1_length && chain3_length > chain2_length {
            return Some(*c3);
        }
        return None;
    }
    if chain1_length > chain2_length {
        Some(*chain1)
    } else if chain2_length > chain1_length {
        Some(*chain2)
    } else {
        None
    }
}

/// The order of a fusion of two chains: the shorter chain (first) is fused into the longer
/// one (second); when they are equally long the player who started the fusion decides.
pub open spec fn spec_fusion_order(c1: HotelChain, c2: HotelChain, m: HotelChainManager) -> Option<
    (HotelChain, HotelChain),
> {
    if m.length(c1) > m.length(c2) {
        Some((c2, c1))
    } else if m.length(c1) < m.length(c2) {
        Some((c1, c2))
    } else {
        None
    }
}

/// Determines which of two chains survives the fusion.
/// # Returns
/// * `Some((dead, alive))` - `dead` is fused into `alive`
/// * `None` - The chains are equally long: the player who started the fusion decides
pub fn resolve_fusion_order(chain1: &HotelChain, chain2: &HotelChain, hotel_chain_manager: &HotelChainManager) -> (r:
    Option<(HotelChain, HotelChain)>)
    requires
        hotel_chain_manager.wf(),
    ensures
        r == spec_fusion_order(*chain1, *chain2, *hotel_chain_manager),
{
    let l1 = hotel_chain_manager.chain_length(chain1);
    let l2 = hotel_chain_manager.chain_length(chain2);
    if l1 > l2 {
        Some((*chain2, *chain1))
    } else if l1 < l2 {
        Some((*chain1, *chain2))
    } else {
        None
    }
}

/// How the chains of a fusion are fused into one.
#[derive(Clone, Debug, PartialEq, Eq)]
pub enum FusionPlan {
    /// The chains of `order` are fused, one after the other, into `survivor`.
    Fixed { order: Vec<HotelChain>, survivor: HotelChain },
    /// The two chains are equally long and the player who started the fusion decides their
    /// order: with no survivor, which one survives; with a survivor, which one is fused into
    /// it first.
    PlayerOrdersPair { first: HotelChain, second: HotelChain, survivor: Option<HotelChain> },
    /// The player who started the fusion decides the whole order.
    PlayerOrdersAll,
}

/// The fusion plan of the chains `cs`, by the rules: the longest chain survives, the smaller
/// chains are fused in the order of their size, and ties are resolved by the player.
pub open spec fn spec_fusion_plan(cs: Seq<HotelChain>, m: HotelChainManager) -> Option<(Seq<HotelChain>, Option<HotelChain>, u8)> {
    if cs.len() == 2 {
        match spec_fusion_order(cs[0], cs[1], m) {
            Some((dead, alive)) => Some((seq![dead], Some(alive), 0u8)),
            None => Some((seq![cs[0], cs[1]], None, 1u8)),
        }
    } else if cs.len() == 3 {
        match spec_longest_chain(cs[0], cs[1], Some(cs[2]), None, m) {
            Some(longest) => {
                let others = if longest == cs[0] {
                    (cs[1], cs[2])
                } else if longest == cs[1] {
                    (cs[0], cs[2])
                } else {
                    (cs[0], cs[1])
                };
                match spec_fusion_order(others.0, others.1, m) {
                    Some((dead1, dead2)) => Some((seq![dead1, dead2], Some(longest), 0u8)),
                    None => Some((seq![others.0, others.1], Some(longest), 1u8)),
                }
            },
            None => Some((Seq::empty(), None, 2u8)),
        }
    } else if cs.len() == 4 {
        Some((Seq::empty(), None, 2u8))
    } else {
        None
    }
}

/// A fusion that the rules decide alone follows them: the surviving chain is longer than every
/// chain fused into it, and the smaller chains are fused smallest first.
pub proof fn lemma_fusion_plan_follows_rules(cs: Seq<HotelChain>, m: HotelChainManager)
    ensures
        match spec_fusion_plan(cs, m) {
            Some((order, Some(survivor), kind)) => kind == 0 ==> {
                &&& forall|i: int| 0 <= i < order.len() ==> m.length(#[trigger] order[i]) < m.length(survivor)
                &&& forall|i: int, j: int|
                    0 <= i < j < order.len() ==> m.length(#[trigger] order[i]) < m.length(#[trigger] order[j])
            },
            _ => true,
        },
{
}

/// A fusion of two chains of different lengths is fixed by the rules: the shorter chain is
/// fused into the longer one. Only when they are equally long does the player decide which
/// one survives.
pub proof fn lemma_fusion_plan_of_two(c0: HotelChain, c1: HotelChain, m: HotelChainManager)
    ensures
        m.length(c0) > m.length(c1) ==> spec_fusion_plan(seq![c0, c1], m) == Some((seq![c1], Some(c0), 0u8)),
        m.length(c0) < m.length(c1) ==> spec_fusion_plan(seq![c0, c1], m) == Some((seq![c0], Some(c1), 0u8)),
        m.length(c0) == m.length(c1) ==> spec_fusion_plan(seq![c0, c1], m) == Some(
            (seq![c0, c1], None::<HotelChain>, 1u8),
        ),
{
    let cs = seq![c0, c1];
    assert(cs.len() == 2 && cs[0] == c0 && cs[1] == c1);
}

/// A fusion of three chains: when one chain is longer than both others it survives, and the
/// other two are fused into it smaller first, or in the order the player chooses when they are
/// equally long; when no chain is longer than both others the player decides everything.
pub proof fn lemma_fusion_plan_of_three(c0: HotelChain, c1: HotelChain, c2: HotelChain, m: HotelChainManager)
    ensures
        ({
            let cs = seq![c0, c1, c2];
            let l0 = m.length(c0);
            let l1 = m.length(c1);
            let l2 = m.length(c2);
            &&& l0 > l1 && l0 > l2 && l1 < l2 ==> spec_fusion_plan(cs, m) == Some((seq![c1, c2], Some(c0), 0u8))
            &&& l0 > l1 && l0 > l2 && l1 > l2 ==> spec_fusion_plan(cs, m) == Some((seq![c2, c1], Some(c0), 0u8))
            &&& l0 > l1 && l0 > l2 && l1 == l2 ==> spec_fusion_plan(cs, m) == Some((seq![c1, c2], Some(c0), 1u8))
            &&& l1 > l0 && l1 > l2 && l0 < l2 ==> spec_fusion_plan(cs, m) == Some((seq![c0, c2], Some(c1), 0u8))
            &&& l1 > l0 && l1 > l2 && l0 > l2 ==> spec_fusion_plan(cs, m) == Some((seq![c2, c0], Some(c1), 0u8))
            &&& l1 > l0 && l1 > l2 && l0 == l2 ==> spec_fusion_plan(cs, m) == Some((seq![c0, c2], Some(c1), 1u8))
            &&& l2 > l0 && l2 > l1 && l0 < l1 ==> spec_fusion_plan(cs, m) == Some((seq![c0, c1], Some(c2), 0u8))
            &&& l2 > l0 && l2 > l1 && l0 > l1 ==> spec_fusion_plan(cs, m) == Some((seq![c1, c0], Some(c2), 0u8))
            &&& l2 > l0 && l2 > l1 && l0 == l1 ==> spec_fusion_plan(cs, m) == Some((seq![c0, c1], Some(c2), 1u8))
            &&& !(l0 > l1 && l0 > l2) && !(l1 > l0 && l1 > l2) && !(l2 > l0 && l2 > l1) ==> spec_fusion_plan(cs, m)
                == Some((Seq::<HotelChain>::empty(), None::<HotelChain>, 2u8))
        }),
{
    let cs = seq![c0, c1, c2];
    assert(cs.len() == 3 && cs[0] == c0 && cs[1] == c1 && cs[2] == c2);
}

/// Four chains are always ordered by the player; fewer than two or more than four chains
/// make no fusion.
pub proof fn lemma_fusion_plan_counts(cs: Seq<HotelChain>, m: HotelChainManager)
    ensures
        cs.len() == 4 ==> spec_fusion_plan(cs, m) == Some((Seq::<HotelChain>::empty(), None::<HotelChain>, 2u8)),
        (cs.len() < 2 || cs.len() > 4) <==> spec_fusion_plan(cs, m) is None,
{
}

impl FusionPlan {
    /// The plan as the chains it names, the survivor it names and its kind (0 fixed, 1 pair,
    /// 2 all by the player).
    pub open spec fn model(&self) -> (Seq<HotelChain>, Option<HotelChain>, u8) {
        match self {
            FusionPlan::Fixed { order, survivor } => (order@, Some(*survivor), 0u8),
            FusionPlan::PlayerOrdersPair { first, second, survivor } => (seq![*first, *second], *survivor, 1u8),
            FusionPlan::PlayerOrdersAll => (Seq::empty(), None, 2u8),
        }
    }
}

/// Determines in which order the chains of a fusion are fused, as far as the rules decide it.
/// # Returns
/// * `Err` - When fewer than two or more than four chains are given
pub fn fusion_plan(chains: &Vec<HotelChain>, hotel_chain_manager: &HotelChainManager) -> (r: Result<FusionPlan, GameError>)
    requires
        hotel_chain_manager.wf(),
    ensures
        spec_fusion_plan(chains@, *hotel_chain_manager) is None ==> r == Err::<FusionPlan, GameError>(
            GameError::InvalidFusionChainCount(chains@.len() as usize),
        ),
        spec_fusion_plan(chains@, *hotel_chain_manager) matches Some(p) ==> r matches Ok(plan) && plan.model() == p,
{
    let n = chains.len();
    if n == 2 {
        match resolve_fusion_order(&chains[0], &chains[1], hotel_chain_manager) {
            Some((dead, alive)) => {
                let order = vec![dead];
                assert(order@ =~= seq![dead]);
                Ok(FusionPlan::Fixed { order, survivor: alive })
            },
            None => {
                let r = FusionPlan::PlayerOrdersPair { first: chains[0], second: chains[1], survivor: None };
                assert(r.model().0 =~= seq![chains@[0], chains@[1]]);
                Ok(r)
            },
        }
    } else if n == 3 {
        match longest_chain(&chains[0], &chains[1], Some(&chains[2]), None, hotel_chain_manager) {
            Some(longest) => {
                let (o1, o2) = if longest == chains[0] {
                    (chains[1], chains[2])
                } else if longest == chains[1] {
                    (chains[0], chains[2])
                } else {
                    (chains[0], chains[1])
                };
                match resolve_fusion_order(&o1, &o2, hotel_chain_manager) {
                    Some((dead1, dead2)) => {
                        let order = vec![dead1, dead2];
                        assert(order@ =~= seq![dead1, dead2]);
                        Ok(FusionPlan::Fixed { order, survivor: longest })
                    },
                    None => {
                        let r = FusionPlan::PlayerOrdersPair { first: o1, second: o2, survivor: Some(longest) };
                        assert(r.model().0 =~= seq![o1, o2]);
                        Ok(r)
                    },
                }
            },
            None => Ok(FusionPlan::PlayerOrdersAll),
        }
    } else if n == 4 {
        Ok(FusionPlan::PlayerOrdersAll)
    } else {
        Err(GameError::InvalidFusionChainCount(n))
    }
}

/// What extending the chain by the hotels at the positions does, from the chains `m0` and the
/// board `b0` to the chains `m1` and the board `b1` with the result `r`: the hotels join the
/// chain one after the other, until one of them has not been placed; a chain that is not
/// active cannot be extended.
pub open spec fn chain_extended(
    m0: HotelChainManager,
    m1: HotelChainManager,
    b0: Board,
    b1: Board,
    chain: HotelChain,
    positions: Seq<Position>,
    r: Result<(), GameError>,
) -> bool {
    let k = first_unplaced(b0, positions);
    &&& m1.wf()
    &&& b1.wf()
    &&& positions.len() > 0 && !m0.is_active(chain) ==> r == Err::<(), GameError>(GameError::ChainNotFounded(chain))
        && m1 == m0 && b1.cells() == b0.cells()
    &&& positions.len() == 0 ==> r is Ok && m1 == m0 && b1.cells() == b0.cells()
    &&& m0.is_active(chain) ==> m1.is_active(chain)
    &&& m0.agrees_except(m1, chain, chain)
    &&& m0.is_active(chain) ==> b1.cells() == pieces_with_chain(b0.cells(), chain, positions.take(k))
    &&& m0.is_active(chain) && k < positions.len() ==> r == Err::<(), GameError>(GameError::HotelNotPlaced(positions[k]))
        && m1.positions(chain) == m0.positions(chain) + positions.take(k + 1)
    &&& m0.is_active(chain) && k == positions.len() ==> r is Ok && m1.positions(chain) == m0.positions(chain)
        + positions
}

/// The hotel that is placed by the player extends a chain: the hotels at the positions
/// join the chain one after the other, until one of them has not been placed.
pub fn extend_chain(
    chain: HotelChain,
    positions: Vec<Position>,
    hotel_chain_manager: &mut HotelChainManager,
    board: &mut Board,
) -> (r: Result<(), GameError>)
    requires
        old(hotel_chain_manager).wf(),
        old(board).wf(),
        old(hotel_chain_manager).length(chain) + positions@.len() <= u32::MAX,
    ensures
        chain_extended(
            *old(hotel_chain_manager),
            *final(hotel_chain_manager),
            *old(board),
            *final(board),
            chain,
            positions@,
            r,
        ),
{
    let ghost old_board = *board;
    proof {
        old(hotel_chain_manager).lemma_agrees_except_refl(chain, chain);
    }
    let n = positions.len();
    let mut i: usize = 0;
    while i < n
        invariant
            n == positions@.len(),
            i <= n,
            old_board == *old(board),
            old_board.wf(),
            board.wf(),
            hotel_chain_manager.wf(),
            old(hotel_chain_manager).length(chain) + n <= u32::MAX,
            i > 0 ==> old(hotel_chain_manager).is_active(chain),
            i == 0 ==> *hotel_chain_manager == *old(hotel_chain_manager) && board.cells() == old_board.cells(),
            hotel_chain_manager.is_active(chain) == old(hotel_chain_manager).is_active(chain),
            forall|j: int| 0 <= j < i ==> (#[trigger] old_board.placed(positions@[j])) is Some,
            old(hotel_chain_manager).is_active(chain) ==> hotel_chain_manager.positions(chain) == old(hotel_chain_manager).positions(chain) + positions@.take(i as int),
            old(hotel_chain_manager).agrees_except(*hotel_chain_manager, chain, chain),
            board.cells() == pieces_with_chain(old_board.cells(), chain, positions@.take(i as int)),
        decreases n - i,
    {
        let position = positions[i];
        proof {
            crate::chain_manager::lemma_pieces_with_chain_positions_placed(old_board, chain, positions@, i as int);
        }
        let ghost before = *hotel_chain_manager;
        let added = hotel_chain_manager.add_hotel_to_chain(&chain, position, board);
        if added.is_err() {
            proof {
                if old(hotel_chain_manager).is_active(chain) {
                    old(hotel_chain_manager).lemma_agrees_except_trans(before, *hotel_chain_manager, chain, chain);
                } else {
                    old(hotel_chain_manager).lemma_agrees_except_refl(chain, chain);
                }
                if old(hotel_chain_manager).is_active(chain) {
                    lemma_first_unplaced(old_board, positions@, i as int);
                    assert(positions@.take(i + 1) =~= positions@.take(i as int).push(position));
                    let k = first_unplaced(*old(board), positions@);
                    assert(k == i);
                    assert(hotel_chain_manager.positions(chain) =~= old(hotel_chain_manager).positions(chain)
                        + positions@.take(k + 1));
                    assert(board.cells() == pieces_with_chain(old(board).cells(), chain, positions@.take(k)));
                }
            }
            return added;
        }
        proof {
            assert(positions@.take(i + 1) =~= positions@.take(i as int).push(position));
            assert(positions@.take(i + 1).drop_last() =~= positions@.take(i as int));
            old(hotel_chain_manager).lemma_agrees_except_trans(before, *hotel_chain_manager, chain, chain);
        }
        i = i + 1;
    }
    proof {
        assert(positions@.take(n as int) =~= positions@);
        if old(hotel_chain_manager).is_active(chain) {
            lemma_first_unplaced(old_board, positions@, n as int);
        }
    }
    Ok(())
}

/// What remains to be decided after a card has been played.
#[derive(Debug)]
pub enum PlacementFollowUp {
    /// Nothing: the hotel stands alone, or it extended a chain.
    Done,
    /// The hotel founds a chain together with these hotels: the player chooses which chain.
    FoundChain(Vec<Position>),
    /// The hotel at the position joins these chains: they are fused.
    Fuse(Vec<HotelChain>, Position),
}

/// The pieces of the board after a hotel was placed at the position, where none stood.
pub open spec fn pieces_after_placing(b: Board, p: Position) -> Seq<Piece> {
    if on_board(p) {
        b.with_piece(p, Piece { piece_set: true, ..b.piece(p) })
    } else {
        b.cells()
    }
}

/// The result without its value.
pub open spec fn unit_result(r: Result<PlacementFollowUp, GameError>) -> Result<(), GameError> {
    match r {
        Ok(_) => Ok(()),
        Err(e) => Err(e),
    }
}

/// Whether the player holds a card for the position.
pub open spec fn holds_card(player: Player, p: Position) -> bool {
    exists|i: int| 0 <= i < player.analyzed_cards@.len() && (#[trigger] player.analyzed_cards@[i]).position == p
}

/// Checks whether the player holds a card for the position.
fn holds_position(player: &Player, position: &Position) -> (b: bool)
    ensures
        b == holds_card(*player, *position),
{
    let mut i: usize = 0;
    while i < player.analyzed_cards.len()
        invariant
            i <= player.analyzed_cards@.len(),
            forall|j: int| 0 <= j < i ==> (#[trigger] player.analyzed_cards@[j]).position != *position,
        decreases player.analyzed_cards@.len() - i,
    {
        if player.analyzed_cards[i].position == *position {
            return true;
        }
        i = i + 1;
    }
    false
}

/// The player plays the card of the position: the card leaves their hand, the hotel is
/// placed, and when it extends a chain the chain is extended. What happens is determined by
/// the board as it stands.
/// # Returns
/// * `Ok(follow_up)` - What remains to be decided: the chain that the player founds, or the
///   fusion
/// * `Err` - When the player has no such card, when the hotel must not be placed there, or
///   when placing the hotel or extending the chain failed
pub fn play_card(
    player: &mut Player,
    position: &Position,
    board: &mut Board,
    hotel_chain_manager: &mut HotelChainManager,
) -> (r: Result<PlacementFollowUp, GameError>)
    requires
        old(board).wf(),
        old(hotel_chain_manager).wf(),
        forall|c: HotelChain| #[trigger] old(hotel_chain_manager).length(c) + 5 <= u32::MAX,
    ensures
        final(board).wf(),
        final(hotel_chain_manager).wf(),
        ({
            let case = spec_analyze(*position, *old(board), *old(hotel_chain_manager));
            let unchanged = *final(player) == *old(player) && final(board).cells() == old(board).cells()
                && *final(hotel_chain_manager) == *old(hotel_chain_manager);
            let set = on_board(*position) && old(board).piece(*position).piece_set;
            &&& !holds_card(*old(player), *position) ==> r == Err::<PlacementFollowUp, GameError>(
                GameError::CardNotFound(*position),
            ) && unchanged
            &&& holds_card(*old(player), *position) && case is Illegal ==> r == Err::<PlacementFollowUp, GameError>(
                GameError::PlacementIllegal(*position, case->Illegal_0),
            ) && unchanged
            &&& holds_card(*old(player), *position) && !(case is Illegal) ==> {
                &&& *final(player) == old(player).with_cards(final(player).analyzed_cards)
                &&& exists|card: AnalyzedPosition|
                    card.position == *position && #[trigger] final(player).analyzed_cards@.to_multiset() == old(player).analyzed_cards@.to_multiset().remove(card)
                &&& set ==> r == Err::<PlacementFollowUp, GameError>(GameError::HotelAlreadyPlaced(*position))
                    && final(board).cells() == old(board).cells() && *final(hotel_chain_manager) == *old(hotel_chain_manager)
                &&& !set && case is SingleHotel ==> r == Ok::<PlacementFollowUp, GameError>(PlacementFollowUp::Done)
                    && final(board).cells() == pieces_after_placing(*old(board), *position) && *final(hotel_chain_manager) == *old(hotel_chain_manager)
                &&& !set && case is NewChain ==> (r matches Ok(PlacementFollowUp::FoundChain(v)) && v@
                    == case->NewChain_0) && final(board).cells() == pieces_after_placing(*old(board), *position)
                    && *final(hotel_chain_manager) == *old(hotel_chain_manager)
                &&& !set && case is Fusion ==> (r matches Ok(PlacementFollowUp::Fuse(v, o)) && v@ == case->Fusion_0
                    && o == case->Fusion_1) && final(board).cells() == pieces_after_placing(*old(board), *position)
                    && *final(hotel_chain_manager) == *old(hotel_chain_manager)
                &&& !set && case is ExtendsChain ==> (r is Ok ==> r == Ok::<PlacementFollowUp, GameError>(
                    PlacementFollowUp::Done,
                )) && exists|b: Board|
                    b.cells() == pieces_after_placing(*old(board), *position) && #[trigger] chain_extended(
                        *old(hotel_chain_manager),
                        *final(hotel_chain_manager),
                        b,
                        *final(board),
                        case->ExtendsChain_0,
                        case->ExtendsChain_1,
                        unit_result(r),
                    )
            }
        }),
{
    if !holds_position(player, position) {
        return Err(GameError::CardNotFound(*position));
    }
    let case = analyze_position(position, board, hotel_chain_manager);
    if let PlaceHotelCase::Illegal(reason) = case {
        return Err(GameError::PlacementIllegal(*position, reason));
    }
    let removed = player.remove_card(position);
    assert(removed is Ok);
    let ghost b0 = *board;
    let placed = board.place_hotel(position);
    if let Err(e) = placed {
        return Err(e);
    }
    assert(board.cells() == pieces_after_placing(b0, *position));
    match case {
        PlaceHotelCase::SingleHotel => Ok(PlacementFollowUp::Done),
        PlaceHotelCase::NewChain(positions) => Ok(PlacementFollowUp::FoundChain(positions)),
        PlaceHotelCase::ExtendsChain(chain, positions) => {
            proof {
                lemma_extension_small(*position, b0, *hotel_chain_manager);
            }
            let ghost b1 = *board;
            let ghost m1 = *hotel_chain_manager;
            let ghost ps = positions@;
            let extended = extend_chain(chain, positions, hotel_chain_manager, board);
            let r = match extended {
                Ok(()) => Ok(PlacementFollowUp::Done),
                Err(e) => Err(e),
            };
            assert(unit_result(r) == extended) by {
                match extended {
                    Ok(u) => {
                        assert(u == ());
                    },
                    Err(e) => {},
                }
            }
            assert(chain_extended(m1, *hotel_chain_manager, b1, *board, chain, ps, unit_result(r)));
            r
        },
        PlaceHotelCase::Fusion(chains, origin) => Ok(PlacementFollowUp::Fuse(chains, origin)),
        PlaceHotelCase::Illegal(reason) => Err(GameError::PlacementIllegal(*position, reason)),
    }
}

/// The player at `player_index` founds the chain that they chose with the hotels at the
/// positions; then the largest shareholders of every chain are determined anew.
pub fn start_chain(
    positions: Vec<Position>,
    player_index: usize,
    chain: HotelChain,
    players: &mut Vec<Player>,
    hotel_chain_manager: &mut HotelChainManager,
    board: &mut Board,
    bank: &mut Bank,
) -> (r: Result<(), GameError>)
    requires
        player_index < old(players)@.len(),
        old(hotel_chain_manager).wf(),
        old(board).wf(),
        old(players)@[player_index as int].owned_stocks.count(chain) < u32::MAX,
        positions@.len() <= u32::MAX,
    ensures
        final(players)@.len() == old(players)@.len(),
        forall|j: int|
            0 <= j < old(players)@.len() && j != player_index ==> #[trigger] final(players)@[j] == old(players)@[j],
        chain_founded(
            *old(hotel_chain_manager),
            *final(hotel_chain_manager),
            *old(board),
            *final(board),
            old(players)@[player_index as int],
            final(players)@[player_index as int],
            *old(bank),
            (Bank { stocks_for_sale: final(bank).stocks_for_sale, largest_shareholders: old(bank).largest_shareholders }),
            chain,
            positions@,
            r,
        ),
        r is Err ==> final(bank).largest_shareholders == old(bank).largest_shareholders,
        r is Ok ==> forall|c: HotelChain|
            (#[trigger] final(bank).largest_shareholders.largest_shareholder.at(c))@ == spec_largest(final(players)@, c)
                && final(bank).largest_shareholders.second_largest_shareholder.at(c)@ == spec_second(
                final(players)@,
                c,
            ),
{
    let mut player = players.remove(player_index);
    let ghost p0 = player;
    let ghost ps = positions@;
    let founded = hotel_chain_manager.start_chain(chain, positions, board, &mut player, bank);
    proof {
        assert(chain_founded(
            *old(hotel_chain_manager),
            *hotel_chain_manager,
            *old(board),
            *board,
            p0,
            player,
            *old(bank),
            *bank,
            chain,
            ps,
            founded,
        ));
        crate::chain_manager::lemma_first_off_board_bounds(ps);
        if ps.len() >= 2 && !old(hotel_chain_manager).is_active(chain)
            && crate::chain_manager::first_off_board(ps) == ps.len() {
            assert(old(bank).bonus_given(chain, p0, *bank, player));
        }
    }
    players.insert(player_index, player);
    proof {
        assert(players@ =~= old(players)@.update(player_index as int, player));
        assert(bank.largest_shareholders == old(bank).largest_shareholders);
        assert(*bank == (Bank { stocks_for_sale: bank.stocks_for_sale, largest_shareholders: old(bank).largest_shareholders }));
    }
    if founded.is_err() {
        return founded;
    }
    let ghost k1 = *bank;
    bank.update_largest_shareholders(players);
    Ok(())
}

} // verus!
