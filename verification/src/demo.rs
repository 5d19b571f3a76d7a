//! Setting up a demonstration game: chains of hotels laid out at random on the board, so that
//! chains of different chains never touch.
use vstd::prelude::*;

use crate::board::{spec_down, spec_neighbours, spec_next, spec_prev, spec_up, Position};
use crate::chain::HotelChain;
use crate::chain_manager::HotelChainManager;
use crate::random::random_up_to;

verus! {

broadcast use vstd::seq_lib::group_to_multiset_ensures;

/// The chain of the hotel at the position, by the hotels laid out so far: the latest entry
/// for the position counts.
pub open spec fn chain_at(placed: Seq<(Position, HotelChain)>, p: Position) -> Option<HotelChain>
    decreases placed.len(),
{
    if placed.len() == 0 {
        None
    } else if placed.last().0 == p {
        Some(placed.last().1)
    } else {
        chain_at(placed.drop_last(), p)
    }
}

/// Returns the chain of the hotel at the position, by the hotels laid out so far.
pub fn placed_chain(placed: &Vec<(Position, HotelChain)>, p: &Position) -> (r: Option<HotelChain>)
    ensures
        r == chain_at(placed@, *p),
{
    let mut i: usize = placed.len();
    assert(placed@.take(i as int) =~= placed@);
    while i > 0
        invariant
            i <= placed@.len(),
            chain_at(placed@, *p) == chain_at(placed@.take(i as int), *p),
        decreases i,
    {
        proof {
            assert(placed@.take(i as int).drop_last() =~= placed@.take(i - 1));
        }
        if placed[i - 1].0 == *p {
            return Some(placed[i - 1].1);
        }
        i = i - 1;
    }
    proof {
        assert(placed@.take(0) =~= Seq::<(Position, HotelChain)>::empty());
    }
    None
}

/// Records that the hotels belong to the chain.
pub fn update_placed_hotels(chain: &HotelChain, new_hotels: &Vec<Position>, placed_hotels: &mut Vec<(Position, HotelChain)>)
    ensures
        forall|p: Position|
            #[trigger] chain_at(final(placed_hotels)@, p) == if new_hotels@.contains(p) {
                Some(*chain)
            } else {
                chain_at(old(placed_hotels)@, p)
            },
{
    let mut i: usize = 0;
    while i < new_hotels.len()
        invariant
            i <= new_hotels@.len(),
            forall|p: Position|
                #[trigger] chain_at(placed_hotels@, p) == if new_hotels@.take(i as int).contains(p) {
                    Some(*chain)
                } else {
                    chain_at(old(placed_hotels)@, p)
                },
        decreases new_hotels@.len() - i,
    {
        let ghost before = placed_hotels@;
        assert(forall|p: Position| #[trigger] chain_at(before, p) == if new_hotels@.take(i as int).contains(p) {
            Some(*chain)
        } else {
            chain_at(old(placed_hotels)@, p)
        });
        placed_hotels.push((new_hotels[i], *chain));
        proof {
            assert(new_hotels@.take(i + 1) =~= new_hotels@.take(i as int).push(new_hotels@[i as int]));
            assert forall|p: Position| #[trigger] chain_at(placed_hotels@, p) == if new_hotels@.take(i + 1).contains(p) {
                Some(*chain)
            } else {
                chain_at(old(placed_hotels)@, p)
            } by {
                assert(placed_hotels@.drop_last() =~= before);
                assert(placed_hotels@.last() == (new_hotels@[i as int], *chain));
                let t = new_hotels@.take(i as int);
                assert(chain_at(before, p) == if t.contains(p) {
                    Some(*chain)
                } else {
                    chain_at(old(placed_hotels)@, p)
                });
                let t1 = new_hotels@.take(i + 1);
                if p == new_hotels@[i as int] {
                    assert(t1[i as int] == p);
                } else {
                    if t1.contains(p) {
                        let k = choose|k: int| 0 <= k < t1.len() && t1[k] == p;
                        assert(t[k] == p);
                    }
                    if t.contains(p) {
                        let k = choose|k: int| 0 <= k < t.len() && t[k] == p;
                        assert(t1[k] == p);
                    }
                }
            }
        }
        i = i + 1;
    }
    assert(new_hotels@.take(new_hotels@.len() as int) =~= new_hotels@);
}

/// No neighbour of the position holds a hotel of another chain.
pub open spec fn spec_neighbour_free(chain: HotelChain, origin: Position, placed: Seq<(Position, HotelChain)>) -> bool {
    forall|i: int|
        0 <= i < spec_neighbours(origin).len() ==> match chain_at(placed, #[trigger] spec_neighbours(origin)[i]) {
            Some(c) => c == chain,
            None => true,
        }
}

/// Checks that no neighbour of the position holds a hotel of another chain.
pub fn is_neighbour_free(chain: &HotelChain, origin: Position, placed_hotels: &Vec<(Position, HotelChain)>) -> (b:
    bool)
    ensures
        b == spec_neighbour_free(*chain, origin, placed_hotels@),
{
    let neighbours = origin.neighbours();
    let mut i: usize = 0;
    while i < neighbours.len()
        invariant
            neighbours@ == spec_neighbours(origin),
            i <= neighbours@.len(),
            forall|j: int|
                0 <= j < i ==> match chain_at(placed_hotels@, #[trigger] spec_neighbours(origin)[j]) {
                    Some(c) => c == *chain,
                    None => true,
                },
        decreases neighbours@.len() - i,
    {
        if let Some(c) = placed_chain(placed_hotels, &neighbours[i]) {
            if c != *chain {
                return false;
            }
        }
        i = i + 1;
    }
    true
}

/// The position one step from the origin in the direction: 0 right, 1 down, 2 left, 3 up.
pub open spec fn step(origin: Position, direction: usize) -> Option<Position> {
    if direction == 0 {
        spec_next(origin)
    } else if direction == 1 {
        spec_down(origin)
    } else if direction == 2 {
        spec_prev(origin)
    } else if direction == 3 {
        spec_up(origin)
    } else {
        None
    }
}

/// Takes the position one step from the origin in the direction, when it is still allowed and
/// none of its neighbours holds a hotel of another chain; it is then no longer allowed.
pub fn try_neighbour(
    chain: &HotelChain,
    origin: Position,
    direction: usize,
    allowed_positions: &mut Vec<Position>,
    placed_hotels: &Vec<(Position, HotelChain)>,
) -> (r: Option<Position>)
    ensures
        r matches Some(p) ==> step(origin, direction) == Some(p) && spec_neighbour_free(*chain, p, placed_hotels@)
            && exists|i: int|
            0 <= i < old(allowed_positions)@.len() && old(allowed_positions)@[i] == p && final(allowed_positions)@
                == old(allowed_positions)@.remove(i),
        r is None ==> final(allowed_positions)@ == old(allowed_positions)@,
        r is None && step(origin, direction) is Some ==> !old(allowed_positions)@.contains(
            step(origin, direction)->0,
        ) || !spec_neighbour_free(*chain, step(origin, direction)->0, placed_hotels@),
{
    let position = if direction == 0 {
        origin.next()
    } else if direction == 1 {
        origin.down()
    } else if direction == 2 {
        origin.prev()
    } else if direction == 3 {
        origin.up()
    } else {
        None
    };
    let p = match position {
        None => {
            return None;
        },
        Some(p) => p,
    };
    let mut i: usize = 0;
    while i < allowed_positions.len()
        invariant
            i <= allowed_positions@.len(),
            allowed_positions@ == old(allowed_positions)@,
            step(origin, direction) == Some(p),
            forall|j: int| 0 <= j < i ==> allowed_positions@[j] != p,
        decreases allowed_positions@.len() - i,
    {
        if allowed_positions[i] == p {
            if !is_neighbour_free(chain, p, placed_hotels) {
                assert(allowed_positions@[i as int] == p);
                return None;
            }
            allowed_positions.remove(i);
            return Some(p);
        }
        i = i + 1;
    }
    None
}

/// Every step from the origin leads to a position that is allowed and whose neighbours hold no
/// hotel of another chain, so that any direction drawn succeeds.
pub open spec fn every_step_open(
    chain: HotelChain,
    origin: Position,
    allowed: Seq<Position>,
    placed: Seq<(Position, HotelChain)>,
) -> bool {
    forall|d: usize|
        d < 4 ==> (#[trigger] step(origin, d)) is Some && allowed.contains(step(origin, d)->0)
            && spec_neighbour_free(chain, step(origin, d)->0, placed)
}

/// A random neighbour of the origin that may join the chain: two random directions are tried.
/// When every direction leads to a position that may join, one is found.
pub fn random_neighbour(
    chain: &HotelChain,
    origin: Position,
    allowed_positions: &mut Vec<Position>,
    placed_hotels: &Vec<(Position, HotelChain)>,
) -> (r: Option<Position>)
    ensures
        r matches Some(p) ==> spec_neighbours(origin).contains(p) && spec_neighbour_free(*chain, p, placed_hotels@)
            && exists|i: int|
            0 <= i < old(allowed_positions)@.len() && old(allowed_positions)@[i] == p && final(allowed_positions)@
                == old(allowed_positions)@.remove(i),
        r is None ==> final(allowed_positions)@ == old(allowed_positions)@,
        every_step_open(*chain, origin, old(allowed_positions)@, placed_hotels@) ==> r is Some,
{
    let mut attempt: u32 = 0;
    while attempt < 2
        invariant
            allowed_positions@ == old(allowed_positions)@,
            attempt > 0 ==> !every_step_open(*chain, origin, old(allowed_positions)@, placed_hotels@),
        decreases 2 - attempt,
    {
        let direction = random_up_to(3);
        let found = try_neighbour(chain, origin, direction, allowed_positions, placed_hotels);
        if let Some(p) = found {
            proof {
                lemma_step_is_neighbour(origin, direction);
            }
            return Some(p);
        }
        assert(!every_step_open(*chain, origin, old(allowed_positions)@, placed_hotels@)) by {
            if every_step_open(*chain, origin, old(allowed_positions)@, placed_hotels@) {
                assert(step(origin, direction) is Some);
            }
        }
        attempt = attempt + 1;
    }
    None
}

/// A step in one of the four directions is a neighbour.
proof fn lemma_step_is_neighbour(origin: Position, direction: usize)
    ensures
        step(origin, direction) matches Some(p) ==> spec_neighbours(origin).contains(p),
{
    let s = seq![spec_next(origin), spec_down(origin), spec_prev(origin), spec_up(origin)];
    reveal_with_fuel(crate::board::somes, 5);
    assert(s.drop_last().drop_last().drop_last().drop_last() =~= Seq::<Option<Position>>::empty());
    assert(s.drop_last().drop_last().drop_last() =~= seq![spec_next(origin)]);
    assert(s.drop_last().drop_last() =~= seq![spec_next(origin), spec_down(origin)]);
    assert(s.drop_last() =~= seq![spec_next(origin), spec_down(origin), spec_prev(origin)]);
    if let Some(p) = step(origin, direction) {
        let n = spec_neighbours(origin);
        let k = crate::board::somes(s.drop_last().drop_last().drop_last()).len();
        if direction == 0 {
            assert(n[0] == p);
        } else if direction == 1 {
            let t = crate::board::somes(s.drop_last().drop_last());
            assert(t[t.len() - 1] == p);
            assert(n[t.len() - 1] == p);
        } else if direction == 2 {
            let t = crate::board::somes(s.drop_last());
            assert(t[t.len() - 1] == p);
            assert(n[t.len() - 1] == p);
        } else {
            assert(n[n.len() - 1] == p);
        }
    }
}

/// A path of hotels for the chain from the origin: each hotel is a neighbour of the one before
/// and was allowed; the path has a random length of up to 42 hotels, shorter when no
/// neighbour is found.
pub fn random_concatenated_positions(
    chain: &HotelChain,
    origin: Position,
    allowed_positions: &mut Vec<Position>,
    placed_hotels: &Vec<(Position, HotelChain)>,
) -> (v: Vec<Position>)
    ensures
        1 <= v@.len() <= 42,
        v@[0] == origin,
        forall|k: int| 1 <= k < v@.len() ==> spec_neighbours(v@[k - 1]).contains(#[trigger] v@[k]),
        old(allowed_positions)@.to_multiset() == final(allowed_positions)@.to_multiset().add(
            v@.skip(1).to_multiset(),
        ),
{
    let size = random_up_to(40) + 1;
    let mut positions: Vec<Position> = Vec::new();
    positions.push(origin);
    let mut i: usize = 0;
    while i < size
        invariant
            size <= 41,
            i <= size,
            positions@.len() == i + 1,
            positions@[0] == origin,
            forall|k: int| 1 <= k < positions@.len() ==> spec_neighbours(positions@[k - 1]).contains(
                #[trigger] positions@[k],
            ),
            old(allowed_positions)@.to_multiset() == allowed_positions@.to_multiset().add(
                positions@.skip(1).to_multiset(),
            ),
        decreases size - i,
    {
        let ghost before = allowed_positions@;
        let ghost pb = positions@;
        match random_neighbour(chain, positions[i], allowed_positions, placed_hotels) {
            Some(value) => {
                positions.push(value);
                proof {
                    let j = choose|j: int|
                        0 <= j < before.len() && before[j] == value && allowed_positions@ == before.remove(j);
                    assert(before.to_multiset() =~= allowed_positions@.to_multiset().insert(value));
                    assert(positions@.skip(1) =~= pb.skip(1).push(value));
                    assert(old(allowed_positions)@.to_multiset() =~= allowed_positions@.to_multiset().add(
                        positions@.skip(1).to_multiset(),
                    ));
                }
            },
            None => {
                return positions;
            },
        }
        i = i + 1;
    }
    positions
}

/// Draws a random position from a list that is not empty.
pub fn draw_card(allowed_cards: &mut Vec<Position>) -> (p: Position)
    requires
        old(allowed_cards)@.len() > 0,
    ensures
        exists|i: int|
            0 <= i < old(allowed_cards)@.len() && p == old(allowed_cards)@[i] && final(allowed_cards)@ == old(allowed_cards)@.remove(i),
{
    let random_number = random_up_to(allowed_cards.len() - 1);
    allowed_cards.remove(random_number)
}

/// The chains of a demonstration fusion, the one that survives first: the chain at `i`
/// survives unless it has fewer hotels than the chain at `j`.
pub open spec fn spec_fusion_pair(chains: Seq<HotelChain>, i: int, j: int, m: HotelChainManager) -> (
    HotelChain,
    HotelChain,
) {
    if m.length(chains[i]) < m.length(chains[j]) {
        (chains[j], chains[i])
    } else {
        (chains[i], chains[j])
    }
}

/// Returns the chains at `i` and `j`, the one that survives the fusion first.
pub fn fusion_pair(chains: &Vec<HotelChain>, i: usize, j: usize, hotel_chain_manager: &HotelChainManager) -> (r: (
    HotelChain,
    HotelChain,
))
    requires
        i < chains@.len(),
        j < chains@.len(),
        hotel_chain_manager.wf(),
    ensures
        r == spec_fusion_pair(chains@, i as int, j as int, *hotel_chain_manager),
{
    let chain1 = chains[i];
    let chain2 = chains[j];
    if hotel_chain_manager.chain_length(&chain1) < hotel_chain_manager.chain_length(&chain2) {
        (chain2, chain1)
    } else {
        (chain1, chain2)
    }
}

/// Two different places of `chains` drawn at random, the second among the places other than
/// the first, and the chains there, the one that survives the fusion first; `None` when there
/// are fewer than two chains.
pub fn random_fusion_pair(chains: &Vec<HotelChain>, hotel_chain_manager: &HotelChainManager) -> (r: Option<
    (HotelChain, HotelChain),
>)
    requires
        hotel_chain_manager.wf(),
    ensures
        r is None <==> chains@.len() < 2,
        r matches Some(pair) ==> exists|i: int, j: int|
            0 <= i < chains@.len() && 0 <= j < chains@.len() && i != j && pair == spec_fusion_pair(
                chains@,
                i,
                j,
                *hotel_chain_manager,
            ),
{
    if chains.len() < 2 {
        return None;
    }
    let i = random_up_to(chains.len() - 1);
    let drawn = random_up_to(chains.len() - 2);
    let j = if drawn < i {
        drawn
    } else {
        drawn + 1
    };
    Some(fusion_pair(chains, i, j, hotel_chain_manager))
}

} // verus!
