//! Fusions of hotel chains: the bonuses for the chain that is fused away, the order in which
//! the players trade its stocks, what a player may exchange and what they decided, and the
//! order of the chains that the player who started the fusion chose.
use vstd::prelude::*;

use crate::bank::{
    holding, lemma_ids_holding_members, lemma_max_below, lemma_shareholders_present, no_bound, spec_largest,
    spec_payouts, spec_second, total_for, Bank, Payout,
};
use crate::chain::HotelChain;
use crate::chain_manager::HotelChainManager;
use crate::error::GameError;
use crate::player::Player;
use crate::stock::spec_stock_price;

verus! {

broadcast use vstd::seq_lib::group_seq_properties;

/// The order in which the players are asked to trade their stocks of a chain that is fused
/// away: `n + 1` turns, starting with the player who placed the hotel and going on to the last
/// seat; every turn after the last seat goes to the first seat.
pub open spec fn spec_trade_order(start: int, n: int) -> Seq<int> {
    Seq::new((n + 1) as nat, |i: int| if start + i < n { start + i } else { 0 })
}

/// Returns the indices of the players in the order in which they are asked to trade their
/// stocks of a chain that is fused away.
pub fn fusion_trade_order(player_index: usize, player_count: usize) -> (v: Vec<usize>)
    requires
        player_index < player_count,
        player_count < usize::MAX,
    ensures
        v@.len() == player_count + 1,
        forall|i: int|
            0 <= i < v@.len() ==> v@[i] == #[trigger] spec_trade_order(player_index as int, player_count as int)[i],
{
    let mut v: Vec<usize> = Vec::new();
    let mut i: usize = 0;
    while i <= player_count
        invariant
            player_index < player_count < usize::MAX,
            i <= player_count + 1,
            v@.len() == i,
            forall|j: int|
                0 <= j < i ==> v@[j] == #[trigger] spec_trade_order(player_index as int, player_count as int)[j],
        decreases player_count + 1 - i,
    {
        let index = if i < player_count - player_index {
            player_index + i
        } else {
            0
        };
        v.push(index);
        i = i + 1;
    }
    v
}

/// Every turn of the trade order goes to a seat at the table; the player who placed the hotel
/// is asked first, and every seat from theirs to the last, and the first seat, get a turn.
pub proof fn lemma_trade_order_reaches(start: int, n: int, j: int)
    requires
        0 <= start < n,
        0 <= j < n,
        j >= start || j == 0,
    ensures
        spec_trade_order(start, n).len() == n + 1,
        spec_trade_order(start, n)[0] == start,
        spec_trade_order(start, n).contains(j),
        forall|i: int| 0 <= i < n + 1 ==> 0 <= #[trigger] spec_trade_order(start, n)[i] < n,
        forall|i: int| 0 <= i < n - start ==> #[trigger] spec_trade_order(start, n)[i] == start + i,
        forall|i: int| n - start <= i < n + 1 ==> #[trigger] spec_trade_order(start, n)[i] == 0,
{
    let o = spec_trade_order(start, n);
    if j >= start {
        assert(o[j - start] == j);
    } else {
        assert(o[n] == 0);
    }
}

/// The numbers of stocks that a player who owns `owned` stocks of the chain that is fused
/// away may exchange two for one, when the bank has `bank_alive` stocks of the surviving chain
/// left: the even numbers up to `owned` whose half the bank can give, in increasing order.
pub open spec fn spec_exchange_options(owned: int, bank_alive: int) -> Seq<u32> {
    let k = if owned / 2 <= bank_alive {
        owned / 2
    } else {
        bank_alive
    };
    Seq::new((k + 1) as nat, |j: int| (2 * j) as u32)
}

/// Returns the numbers of stocks that the player may exchange in a fusion.
pub fn exchange_options(owned: u32, bank_alive: u32) -> (v: Vec<u32>)
    ensures
        v@ == spec_exchange_options(owned as int, bank_alive as int),
{
    let mut v: Vec<u32> = Vec::new();
    let mut i: u64 = 0;
    while i <= owned as u64
        invariant
            i <= owned + 1,
            v@ == Seq::new(
                (if (i + 1) / 2 <= bank_alive + 1 {
                    (i + 1) / 2
                } else {
                    bank_alive + 1
                }) as nat,
                |j: int| (2 * j) as u32,
            ),
        decreases owned + 1 - i,
    {
        if i % 2 == 0 && bank_alive as u64 >= i / 2 {
            let ghost before = v@;
            v.push(i as u32);
            assert(v@ =~= Seq::new(
                (if (i + 2) / 2 <= bank_alive + 1 {
                    (i + 2) / 2
                } else {
                    bank_alive + 1
                }) as nat,
                |j: int| (2 * j) as u32,
            ));
        } else {
            assert(v@ =~= Seq::new(
                (if (i + 2) / 2 <= bank_alive + 1 {
                    (i + 2) / 2
                } else {
                    bank_alive + 1
                }) as nat,
                |j: int| (2 * j) as u32,
            ));
        }
        i = i + 1;
    }
    assert(v@ =~= spec_exchange_options(owned as int, bank_alive as int));
    v
}

/// Every number of stocks that a player is offered to exchange in a fusion is one the bank
/// accepts: it is even, the player owns that many, and the bank has half of it left.
pub proof fn lemma_exchange_options_accepted(owned: u32, bank_alive: u32, k: int)
    requires
        0 <= k < spec_exchange_options(owned as int, bank_alive as int).len(),
    ensures
        ({
            let x = spec_exchange_options(owned as int, bank_alive as int)[k];
            &&& x % 2 == 0
            &&& x <= owned
            &&& x / 2 <= bank_alive
        }),
{
}

/// Every number of stocks the bank accepts in an exchange is offered: each even number up to
/// the stocks the player owns whose half the bank has left; the offers rise one after the other.
pub proof fn lemma_exchange_options_complete(owned: u32, bank_alive: u32, x: u32)
    requires
        x % 2 == 0,
        x <= owned,
        x / 2 <= bank_alive,
    ensures
        spec_exchange_options(owned as int, bank_alive as int).contains(x),
        forall|i: int, j: int|
            0 <= i < j < spec_exchange_options(owned as int, bank_alive as int).len() ==> #[trigger] spec_exchange_options(
                owned as int,
                bank_alive as int,
            )[i] < #[trigger] spec_exchange_options(owned as int, bank_alive as int)[j],
{
    let o = spec_exchange_options(owned as int, bank_alive as int);
    let j = x / 2;
    assert(x == 2 * j);
    assert(o[j as int] == x);
}

/// The price of a stock of the chain now.
pub open spec fn price_of(c: HotelChain, m: HotelChainManager) -> int {
    spec_stock_price(c.spec_price_level(), m.length(c))
}

/// Carries out what a player decided for their stocks of the chain `dead` that is fused into
/// `alive`: first `to_exchange` of them are exchanged two for one into stocks of `alive`, then
/// `to_sell` of them are sold at the current price; the others are kept.
/// # Returns
/// * `Ok((exchanged, sold, kept))` - When the stocks were traded
/// * `Err` - When the exchange is refused by the bank (an odd number, or too few stocks of
///   `alive` left); then nothing has changed
pub fn settle_fusion_stocks(
    player: &mut Player,
    dead: &HotelChain,
    alive: &HotelChain,
    bank: &mut Bank,
    hotel_chain_manager: &HotelChainManager,
    to_exchange: u32,
    to_sell: u32,
) -> (r: Result<(u32, u32, u32), GameError>)
    requires
        hotel_chain_manager.wf(),
        *dead != *alive,
        to_exchange + to_sell <= old(player).owned_stocks.count(*dead),
        old(bank).stocks_for_sale.count(*dead) + to_exchange + to_sell <= u32::MAX,
        old(player).owned_stocks.count(*alive) + to_exchange / 2 <= u32::MAX,
        old(player).money + to_sell * price_of(*dead, *hotel_chain_manager) <= u32::MAX,
    ensures
        to_exchange > 0 && to_exchange % 2 != 0 ==> r == Err::<(u32, u32, u32), GameError>(
            GameError::OddExchange(to_exchange),
        ),
        to_exchange > 0 && to_exchange % 2 == 0 && old(bank).stocks_for_sale.count(*alive) < to_exchange / 2 ==> r
            == Err::<(u32, u32, u32), GameError>(GameError::NotEnoughStocksToExchange),
        r is Err ==> *final(player) == *old(player) && *final(bank) == *old(bank),
        (to_exchange == 0 || (to_exchange % 2 == 0 && old(bank).stocks_for_sale.count(*alive) >= to_exchange / 2))
            ==> {
            &&& r == Ok::<(u32, u32, u32), GameError>(
                (to_exchange, to_sell, (old(player).owned_stocks.count(*dead) - to_exchange - to_sell) as u32),
            )
            &&& *final(player) == old(player).with_stocks(final(player).owned_stocks).with_money(
                (old(player).money + to_sell * price_of(*dead, *hotel_chain_manager)) as u32,
            )
            &&& final(bank).largest_shareholders == old(bank).largest_shareholders
            &&& forall|c: HotelChain|
                #![trigger final(player).owned_stocks.count(c)]
                final(player).owned_stocks.count(c) == old(player).owned_stocks.count(c) - (if c == *dead {
                    to_exchange + to_sell
                } else {
                    0
                }) + (if c == *alive {
                    to_exchange / 2
                } else {
                    0
                })
            &&& forall|c: HotelChain|
                #![trigger final(bank).stocks_for_sale.count(c)]
                final(bank).stocks_for_sale.count(c) == old(bank).stocks_for_sale.count(c) + (if c == *dead {
                    to_exchange + to_sell
                } else {
                    0
                }) - (if c == *alive {
                    to_exchange / 2
                } else {
                    0
                })
        },
{
    let ghost p0 = *player;
    let ghost b0 = *bank;
    if to_exchange > 0 {
        let exchanged = bank.exchange_stock(player, to_exchange, dead, alive);
        if let Err(e) = exchanged {
            return Err(e);
        }
    }
    let ghost p1 = *player;
    let ghost b1 = *bank;
    assert(p1.owned_stocks.count(*dead) == p0.owned_stocks.count(*dead) - to_exchange);
    assert(p1.money == p0.money);
    if to_sell > 0 {
        let sold = bank.sell_stock(player, to_sell, dead, hotel_chain_manager);
        assert(sold is Ok);
    } else {
        assert(to_sell * price_of(*dead, *hotel_chain_manager) == 0);
    }
    proof {
        assert forall|c: HotelChain| #[trigger] player.owned_stocks.count(c) == p0.owned_stocks.count(c) - (if c
            == *dead {
            to_exchange + to_sell
        } else {
            0
        }) + (if c == *alive {
            to_exchange / 2
        } else {
            0
        }) by {
            assert(p1.owned_stocks.count(c) == p0.owned_stocks.count(c) - (if c == *dead {
                to_exchange as int
            } else {
                0
            }) + (if c == *alive {
                to_exchange / 2
            } else {
                0
            }));
        }
    }
    let kept = *player.owned_stocks.stocks_for_hotel(dead);
    Ok((to_exchange, to_sell, kept))
}

/// Every bonus of a chain goes to one of its largest or second largest shareholders.
proof fn lemma_payout_ids(l: Seq<u32>, s: Seq<u32>, price: int, k: int)
    requires
        0 <= k < spec_payouts(l, s, price).len(),
        l.len() == 1 ==> s.len() > 0,
    ensures
        l.contains(spec_payouts(l, s, price)[k].player_id) || s.contains(spec_payouts(l, s, price)[k].player_id),
{
    let ps = spec_payouts(l, s, price);
    if l.len() == 1 {
        if k == 0 {
            assert(ps[0].player_id == l[0]);
        } else if s.len() == 1 {
            assert(ps[1].player_id == s[0]);
        } else {
            assert(ps[k].player_id == s[k - 1]);
        }
    } else {
        assert(ps[k].player_id == l[k]);
    }
}

/// Every largest or second largest shareholder of a chain is a player.
proof fn lemma_shareholder_ids(ps: Seq<Player>, c: HotelChain, id: u32)
    requires
        spec_largest(ps, c).contains(id) || spec_second(ps, c).contains(id),
    ensures
        exists|i: int| 0 <= i < ps.len() && (#[trigger] ps[i]).id == id,
{
    let m = max_below_of(ps, c);
    lemma_ids_holding_members(ps, c, m);
    lemma_max_below(ps, c, no_bound());
    lemma_max_below(ps, c, m);
    lemma_ids_holding_members(ps, c, crate::bank::max_below(ps, c, m));
    if spec_largest(ps, c).contains(id) {
        let j = choose|j: int| 0 <= j < spec_largest(ps, c).len() && spec_largest(ps, c)[j] == id;
        assert(crate::bank::ids_holding(ps, c, m)[j] == id);
    } else {
        let j = choose|j: int| 0 <= j < spec_second(ps, c).len() && spec_second(ps, c)[j] == id;
        if spec_largest(ps, c).len() != 1 || crate::bank::max_below(ps, c, m) == 0 {
            assert(crate::bank::ids_holding(ps, c, m)[j] == id);
        } else {
            assert(crate::bank::ids_holding(ps, c, crate::bank::max_below(ps, c, m))[j] == id);
        }
    }
}

/// The largest number of stocks of the chain that a player owns.
pub open spec fn max_below_of(ps: Seq<Player>, c: HotelChain) -> int {
    crate::bank::max_below(ps, c, no_bound())
}

/// The bonuses that the shareholders of the chain get, by the players' stocks.
pub open spec fn fusion_bonuses(ps: Seq<Player>, c: HotelChain, m: HotelChainManager) -> Seq<Payout> {
    spec_payouts(spec_largest(ps, c), spec_second(ps, c), price_of(c, m))
}

/// Pays the majority shareholder bonuses for the chain `dead` that is fused away: the
/// largest and second largest shareholders of every chain are determined anew from the
/// players' stocks first.
/// # Returns
/// * `Ok(bonuses)` - The bonuses that were paid, in order
/// * `Err` - When no player owns a stock of the chain; then no money was paid
pub fn pay_fusion_bonuses(
    dead: &HotelChain,
    players: &mut Vec<Player>,
    bank: &mut Bank,
    hotel_chain_manager: &HotelChainManager,
) -> (r: Result<Vec<Payout>, GameError>)
    requires
        hotel_chain_manager.wf(),
        forall|i: int| 0 <= i < old(players)@.len() ==> (#[trigger] old(players)@[i]).id == i,
        forall|i: int|
            0 <= i < old(players)@.len() ==> (#[trigger] old(players)@[i]).money + total_for(
                fusion_bonuses(old(players)@, *dead, *hotel_chain_manager),
                i,
            ) <= u32::MAX,
    ensures
        final(bank).stocks_for_sale == old(bank).stocks_for_sale,
        forall|c: HotelChain|
            (#[trigger] final(bank).largest_shareholders.largest_shareholder.at(c))@ == spec_largest(old(players)@, c),
        forall|c: HotelChain|
            (#[trigger] final(bank).largest_shareholders.second_largest_shareholder.at(c))@ == spec_second(
                old(players)@,
                c,
            ),
        (forall|i: int| 0 <= i < old(players)@.len() ==> holding(#[trigger] old(players)@[i], *dead) == 0) ==> r
            == Err::<Vec<Payout>, GameError>(GameError::ShareholdersNotSet(*dead)) && final(players)@ == old(
            players,
        )@,
        (exists|i: int| 0 <= i < old(players)@.len() && holding(#[trigger] old(players)@[i], *dead) > 0) ==> {
            let bonuses = fusion_bonuses(old(players)@, *dead, *hotel_chain_manager);
            &&& r matches Ok(v) && v@ == bonuses
            &&& final(players)@.len() == old(players)@.len()
            &&& forall|i: int|
                0 <= i < old(players)@.len() ==> #[trigger] final(players)@[i] == old(players)@[i].with_money(
                    (old(players)@[i].money + total_for(bonuses, i)) as u32,
                )
        },
{
    bank.update_largest_shareholders(players);
    let ghost ps = players@;
    proof {
        lemma_shareholders_present(ps, *dead);
        let bonuses = fusion_bonuses(ps, *dead, *hotel_chain_manager);
        assert(bank.spec_bonuses(*dead, *hotel_chain_manager) == bonuses);
        assert forall|k: int| 0 <= k < bonuses.len() implies (#[trigger] bonuses[k]).player_id < ps.len() by {
            lemma_payout_ids(spec_largest(ps, *dead), spec_second(ps, *dead), price_of(*dead, *hotel_chain_manager), k);
            lemma_shareholder_ids(ps, *dead, bonuses[k].player_id);
        }
    }
    bank.give_majority_shareholder_bonuses(players, dead, hotel_chain_manager)
}

/// Whether a chain is another one than `survivor`.
pub open spec fn is_other(survivor: HotelChain) -> spec_fn(HotelChain) -> bool {
    |c: HotelChain| c != survivor
}

/// The chains other than `survivor`, in their order.
pub open spec fn others(chains: Seq<HotelChain>, survivor: HotelChain) -> Seq<HotelChain> {
    chains.filter(is_other(survivor))
}

/// `positions` gives each of `k` chains its own place from 1 to `k`.
pub open spec fn is_placing(positions: Seq<u32>, k: int) -> bool {
    &&& positions.len() == k
    &&& forall|j: int| 0 <= j < k ==> 1 <= #[trigger] positions[j] <= k
    &&& forall|i: int, j: int| 0 <= i < j < k ==> #[trigger] positions[i] != #[trigger] positions[j]
}

/// An order that the player chose for three or four chains, in the form `player_fusion_order`
/// gives it, holds every chain of the fusion, the survivor last; the other chains stand at the
/// places the player gave them.
pub proof fn lemma_player_order_holds_all(
    chains: Seq<HotelChain>,
    survivor: HotelChain,
    positions: Seq<u32>,
    order: Seq<HotelChain>,
)
    requires
        3 <= chains.len() <= 4,
        others(chains, survivor).len() == chains.len() - 1,
        is_placing(positions, chains.len() - 1),
        order.len() == chains.len(),
        order[chains.len() - 1] == survivor,
        forall|j: int|
            0 <= j < chains.len() - 1 ==> order[positions[j] - 1] == #[trigger] others(chains, survivor)[j],
    ensures
        forall|c: HotelChain| #[trigger] chains.contains(c) ==> order.contains(c),
        forall|i: int| 0 <= i < chains.len() - 1 ==> #[trigger] order[i] != survivor,
{
    let k = chains.len() - 1;
    let o = others(chains, survivor);
    assert forall|c: HotelChain| #[trigger] chains.contains(c) implies order.contains(c) by {
        if c == survivor {
            assert(order[k] == c);
        } else {
            let i = choose|i: int| 0 <= i < chains.len() && chains[i] == c;
            chains.lemma_filter_contains(is_other(survivor), i);
            let j = choose|j: int| 0 <= j < o.len() && o[j] == c;
            assert(1 <= positions[j] <= k);
            assert(order[positions[j] - 1] == c);
        }
    }
    assert forall|i: int| 0 <= i < chains.len() - 1 implies #[trigger] order[i] != survivor by {
        // the places are k distinct numbers from 1 to k, so every place is taken
        lemma_places_cover(positions, k, i + 1);
        let j = choose|j: int| 0 <= j < k && positions[j] == i + 1;
        assert(order[i] == o[j]);
        chains.lemma_filter_pred(is_other(survivor), j);
    }
}

/// When `k` chains get distinct places from 1 to `k`, every place is taken.
proof fn lemma_places_cover(positions: Seq<u32>, k: int, p: int)
    requires
        is_placing(positions, k),
        1 <= p <= k <= 4,
    ensures
        exists|j: int| 0 <= j < k && positions[j] == p,
{
    let s = positions.to_set();
    let full = Set::new(|x: u32| 1 <= x <= k);
    assert(positions.no_duplicates()) by {
        assert forall|i: int, j: int| 0 <= i < positions.len() && 0 <= j < positions.len() && i != j implies positions[i]
            != positions[j] by {
            if i < j {
                assert(positions[i] != positions[j]);
            } else {
                assert(positions[j] != positions[i]);
            }
        }
    }
    positions.unique_seq_to_set();
    assert(s.subset_of(full)) by {
        assert forall|x: u32| s.contains(x) implies full.contains(x) by {
            let j = choose|j: int| 0 <= j < positions.len() && positions[j] == x;
        }
    }
    lemma_range_set_len(k);
    let q = p as u32;
    assert(q == p);
    assert(s.len() == k);
    if !s.contains(q) {
        let smaller = full.remove(q);
        assert(full.contains(q));
        assert(smaller.len() == k - 1);
        assert(s.subset_of(smaller));
        vstd::set_lib::lemma_len_subset(s, smaller);
        assert(false);
    }
    assert(s.contains(q));
    let j = choose|j: int| 0 <= j < positions.len() && positions[j] == q;
    assert(0 <= j < k && positions[j] == p);
}

/// The numbers from 1 to `k` are `k` numbers.
proof fn lemma_range_set_len(k: int)
    requires
        0 <= k <= 4,
    ensures
        Set::new(|x: u32| 1 <= x <= k).finite(),
        Set::new(|x: u32| 1 <= x <= k).len() == k,
    decreases k,
{
    let full = Set::new(|x: u32| 1 <= x <= k);
    if k == 0 {
        assert(full =~= Set::<u32>::empty());
    } else {
        lemma_range_set_len(k - 1);
        let smaller = Set::new(|x: u32| 1 <= x <= k - 1);
        assert(full =~= smaller.insert(k as u32));
    }
}

/// Returns the chains other than the survivor, in their order.
fn chains_without(chains: &Vec<HotelChain>, survivor: HotelChain) -> (v: Vec<HotelChain>)
    ensures
        v@ == others(chains@, survivor),
{
    let mut v: Vec<HotelChain> = Vec::new();
    let mut i: usize = 0;
    while i < chains.len()
        invariant
            i <= chains@.len(),
            v@ == others(chains@.take(i as int), survivor),
        decreases chains@.len() - i,
    {
        let c = chains[i];
        proof {
            assert(chains@.take(i + 1) =~= chains@.take(i as int).push(c));
            chains@.take(i as int).lemma_filter_push(c, is_other(survivor));
        }
        if c != survivor {
            v.push(c);
        }
        i = i + 1;
    }
    assert(chains@.take(chains@.len() as int) =~= chains@);
    v
}

/// Checks that the positions place each of `k` chains on its own place from 1 to `k`.
fn check_placing(positions: &Vec<u32>, k: usize) -> (b: bool)
    ensures
        b == is_placing(positions@, k as int),
{
    if positions.len() != k {
        return false;
    }
    let mut i: usize = 0;
    while i < k
        invariant
            positions@.len() == k,
            i <= k,
            forall|j: int| 0 <= j < i ==> 1 <= #[trigger] positions@[j] <= k,
            forall|a: int, b: int| 0 <= a < b < k && a < i ==> #[trigger] positions@[a] != #[trigger] positions@[b],
        decreases k - i,
    {
        if positions[i] < 1 || positions[i] as usize > k {
            return false;
        }
        let mut j: usize = i + 1;
        while j < k
            invariant
                positions@.len() == k,
                i < j <= k,
                forall|b: int| i < b < j ==> positions@[i as int] != #[trigger] positions@[b],
            decreases k - j,
        {
            if positions[i] == positions[j] {
                return false;
            }
            j = j + 1;
        }
        i = i + 1;
    }
    true
}

/// The order of the chains of a fusion that the player who started it chose: `survivor`
/// survives, and the other chains, in their order, get the places given by `positions`, from
/// 1 to one less than the number of chains. The chain at place 1 is fused first.
/// # Returns
/// * `Ok(order)` - The chains in the order in which they are fused, the survivor last
/// * `Err` - When fewer than three or more than four chains are given, or when the survivor
///   is not one of them or the places do not give each other chain its own place
pub fn player_fusion_order(chains: &Vec<HotelChain>, survivor: HotelChain, positions: &Vec<u32>) -> (r: Result<
    Vec<HotelChain>,
    GameError,
>)
    ensures
        chains@.len() < 3 || chains@.len() > 4 ==> r == Err::<Vec<HotelChain>, GameError>(
            GameError::InvalidFusionChainCount(chains@.len() as usize),
        ),
        3 <= chains@.len() <= 4 && !(others(chains@, survivor).len() == chains@.len() - 1 && is_placing(
            positions@,
            chains@.len() - 1,
        )) ==> r == Err::<Vec<HotelChain>, GameError>(GameError::InvalidFusionOrder),
        3 <= chains@.len() <= 4 && others(chains@, survivor).len() == chains@.len() - 1 && is_placing(
            positions@,
            chains@.len() - 1,
        ) ==> (r matches Ok(order) && order@.len() == chains@.len() && order@[chains@.len() - 1] == survivor
            && forall|j: int|
            0 <= j < chains@.len() - 1 ==> order@[positions@[j] - 1] == #[trigger] others(chains@, survivor)[j]),
{
    let n = chains.len();
    if n < 3 || n > 4 {
        return Err(GameError::InvalidFusionChainCount(n));
    }
    let rest = chains_without(chains, survivor);
    if rest.len() != n - 1 || !check_placing(positions, n - 1) {
        return Err(GameError::InvalidFusionOrder);
    }
    let mut order: Vec<HotelChain> = Vec::new();
    let mut i: usize = 0;
    while i < n
        invariant
            i <= n,
            order@.len() == i,
            forall|j: int| 0 <= j < i ==> order@[j] == survivor,
        decreases n - i,
    {
        order.push(survivor);
        i = i + 1;
    }
    let k = n - 1;
    let mut j: usize = 0;
    while j < k
        invariant
            k == n - 1,
            3 <= n <= 4,
            order@.len() == n,
            rest@.len() == k,
            is_placing(positions@, k as int),
            j <= k,
            order@[k as int] == survivor,
            forall|a: int| 0 <= a < j ==> order@[positions@[a] - 1] == #[trigger] rest@[a],
        decreases k - j,
    {
        let place = positions[j] as usize - 1;
        order.set(place, rest[j]);
        proof {
            assert forall|a: int| 0 <= a < j implies order@[positions@[a] - 1] == #[trigger] rest@[a] by {
                assert(positions@[a] != positions@[j as int]);
            }
        }
        j = j + 1;
    }
    Ok(order)
}

/// The order of two equally long chains that the player chose: with choice 1 the first chain
/// is fused into the second, with choice 2 the second into the first.
/// # Returns
/// * `Some((dead, alive))` - `dead` is fused into `alive`
/// * `None` - The choice is neither 1 nor 2
pub fn pair_order(first: HotelChain, second: HotelChain, choice: u32) -> (r: Option<(HotelChain, HotelChain)>)
    ensures
        choice == 1 ==> r == Some((first, second)),
        choice == 2 ==> r == Some((second, first)),
        choice != 1 && choice != 2 ==> r is None,
{
    if choice == 1 {
        Some((first, second))
    } else if choice == 2 {
        Some((second, first))
    } else {
        None
    }
}

} // verus!
