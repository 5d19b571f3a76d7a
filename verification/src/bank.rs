//! Manages the stocks that are for sale, the largest shareholders and the bonuses.
use vstd::prelude::*;

use crate::chain::{HotelChain, PerChain};
use crate::chain_manager::HotelChainManager;
use crate::error::GameError;
use crate::player::Player;
use crate::stock::{lemma_stock_price_bounded, spec_stock_price, Stocks};

verus! {

/// Stores who the largest and second largest shareholders of each chain are.
pub struct LargestShareholders {
    /// Contains what the player ids of the largest shareholder for the specified hotel are
    pub largest_shareholder: PerChain<Vec<u32>>,
    /// Contains what the player ids of the second largest shareholder for the specified chain are
    pub second_largest_shareholder: PerChain<Vec<u32>>,
}

impl LargestShareholders {
    /// No shareholders for any chain.
    pub fn new() -> (s: Self)
        ensures
            forall|c: HotelChain| (#[trigger] s.largest_shareholder.at(c))@.len() == 0,
            forall|c: HotelChain| (#[trigger] s.second_largest_shareholder.at(c))@.len() == 0,
    {
        Self { largest_shareholder: PerChain::uniform_empty(), second_largest_shareholder: PerChain::uniform_empty() }
    }
}

impl<T> PerChain<Vec<T>> {
    /// A table with an empty vector for every chain.
    pub fn uniform_empty() -> (t: Self)
        ensures
            forall|c: HotelChain| (#[trigger] t.at(c))@.len() == 0,
    {
        PerChain {
            airport: Vec::new(),
            continental: Vec::new(),
            festival: Vec::new(),
            imperial: Vec::new(),
            luxor: Vec::new(),
            oriental: Vec::new(),
            prestige: Vec::new(),
        }
    }
}

/// The bank holds the stocks that are for sale and knows the largest shareholders.
pub struct Bank {
    pub stocks_for_sale: Stocks,
    /// Stores the currently largest and second largest shareholders
    pub largest_shareholders: LargestShareholders,
}

/// The number of stocks of the chain that the player owns.
pub open spec fn holding(p: Player, c: HotelChain) -> int {
    p.owned_stocks.count(c) as int
}

/// One more than the largest number of stocks that anyone can own.
pub open spec fn no_bound() -> int {
    0x1_0000_0000
}

/// The largest number of stocks of the chain below `bound` that a player of `ps` owns (0 if none).
pub open spec fn max_below(ps: Seq<Player>, c: HotelChain, bound: int) -> int
    decreases ps.len(),
{
    if ps.len() == 0 {
        0
    } else {
        let rest = max_below(ps.drop_last(), c, bound);
        let x = holding(ps.last(), c);
        if x < bound && x > rest {
            x
        } else {
            rest
        }
    }
}

/// The ids of the players of `ps` that own exactly `k` stocks of the chain, in order.
pub open spec fn ids_holding(ps: Seq<Player>, c: HotelChain, k: int) -> Seq<u32>
    decreases ps.len(),
{
    if ps.len() == 0 {
        Seq::empty()
    } else {
        let rest = ids_holding(ps.drop_last(), c, k);
        if holding(ps.last(), c) == k {
            rest.push(ps.last().id)
        } else {
            rest
        }
    }
}

/// The largest shareholders of the chain: the players that own the most stocks of it
/// (nobody, when nobody owns any).
pub open spec fn spec_largest(ps: Seq<Player>, c: HotelChain) -> Seq<u32> {
    let m = max_below(ps, c, no_bound());
    if m == 0 {
        Seq::empty()
    } else {
        ids_holding(ps, c, m)
    }
}

/// The second largest shareholders of the chain. When several players share the first
/// place they share the second place too; when one player owns the most stocks, the second
/// place goes to the players with the next highest number, or, when nobody else owns any,
/// to the largest shareholder.
pub open spec fn spec_second(ps: Seq<Player>, c: HotelChain) -> Seq<u32> {
    let l = spec_largest(ps, c);
    if l.len() != 1 {
        l
    } else {
        let m2 = max_below(ps, c, max_below(ps, c, no_bound()));
        if m2 == 0 {
            l
        } else {
            ids_holding(ps, c, m2)
        }
    }
}

/// Why a player receives a bonus.
#[derive(Clone, Copy, Debug, PartialEq, Eq, Structural)]
pub enum BonusRank {
    /// The only largest shareholder.
    Largest,
    /// The only second largest shareholder.
    SecondLargest,
    /// One of several largest shareholders, who share both bonuses.
    OneOfLargest,
    /// One of several second largest shareholders, who share the second bonus.
    OneOfSecondLargest,
}

/// A bonus paid to a player.
#[derive(Clone, Copy, Debug, PartialEq, Eq, Structural)]
pub struct Payout {
    pub player_id: u32,
    pub amount: u32,
    pub rank: BonusRank,
}

/// The amount rounded up to the next multiple of 100.
pub open spec fn round_up_100(x: int) -> int {
    (x + 99) / 100 * 100
}

/// The bonuses paid for a chain whose stock costs `price`, with the largest shareholders `l`
/// and the second largest shareholders `s`: the largest bonus is ten times the price, the
/// second bonus five times. A sole largest shareholder gets the largest bonus and the second
/// largest shareholders share the second one; several largest shareholders share both.
/// Shared bonuses are rounded up to the next 100.
pub open spec fn spec_payouts(l: Seq<u32>, s: Seq<u32>, price: int) -> Seq<Payout> {
    let lb = price * 10;
    let sb = price * 5;
    if l.len() == 1 {
        seq![Payout { player_id: l[0], amount: lb as u32, rank: BonusRank::Largest }] + if s.len() == 1 {
            seq![Payout { player_id: s[0], amount: sb as u32, rank: BonusRank::SecondLargest }]
        } else {
            s.map_values(
                |id: u32|
                    Payout {
                        player_id: id,
                        amount: round_up_100(sb / (s.len() as int)) as u32,
                        rank: BonusRank::OneOfSecondLargest,
                    },
            )
        }
    } else {
        l.map_values(
            |id: u32|
                Payout {
                    player_id: id,
                    amount: round_up_100((lb + sb) / (l.len() as int)) as u32,
                    rank: BonusRank::OneOfLargest,
                },
        )
    }
}

/// Rounding up to the next 100 gives a multiple of 100 that is at least the amount and less
/// than 100 more.
pub proof fn lemma_round_up_100(x: int)
    requires
        x >= 0,
    ensures
        round_up_100(x) % 100 == 0,
        x <= round_up_100(x) < x + 100,
{
    assert(round_up_100(x) % 100 == 0 && x <= round_up_100(x) < x + 100) by (nonlinear_arith)
        requires
            x >= 0,
            round_up_100(x) == (x + 99) / 100 * 100,
    ;
}

/// The bonuses for a chain whose stock costs `price`: a sole largest shareholder gets ten
/// times the price; a sole second largest shareholder five times the price; several second
/// largest shareholders each get an equal part of five times the price, rounded up to the next
/// 100; several largest shareholders each get an equal part of fifteen times the price, rounded
/// up to the next 100, and nobody else gets anything.
pub proof fn lemma_payouts_amounts(l: Seq<u32>, s: Seq<u32>, price: int)
    requires
        0 <= price <= 1200,
    ensures
        ({
            let ps = spec_payouts(l, s, price);
            &&& l.len() == 1 ==> ps.len() >= 1 && ps[0] == Payout {
                player_id: l[0],
                amount: (10 * price) as u32,
                rank: BonusRank::Largest,
            } && (10 * price) as u32 == 10 * price
            &&& l.len() == 1 && s.len() == 1 ==> ps.len() == 2 && ps[1] == Payout {
                player_id: s[0],
                amount: (5 * price) as u32,
                rank: BonusRank::SecondLargest,
            } && (5 * price) as u32 == 5 * price
            &&& l.len() == 1 && s.len() != 1 ==> ps.len() == 1 + s.len() && forall|k: int|
                0 <= k < s.len() ==> {
                    let p = #[trigger] ps[1 + k];
                    &&& p.player_id == s[k]
                    &&& p.rank == BonusRank::OneOfSecondLargest
                    &&& p.amount % 100 == 0
                    &&& (5 * price) / (s.len() as int) <= p.amount < (5 * price) / (s.len() as int) + 100
                }
            &&& l.len() != 1 ==> ps.len() == l.len() && forall|k: int|
                0 <= k < l.len() ==> {
                    let p = #[trigger] ps[k];
                    &&& p.player_id == l[k]
                    &&& p.rank == BonusRank::OneOfLargest
                    &&& p.amount % 100 == 0
                    &&& (15 * price) / (l.len() as int) <= p.amount < (15 * price) / (l.len() as int) + 100
                }
        }),
{
    let ps = spec_payouts(l, s, price);
    if l.len() == 1 && s.len() >= 2 {
        let x = (5 * price) / (s.len() as int);
        vstd::arithmetic::div_mod::lemma_div_pos_is_pos(5 * price, s.len() as int);
        vstd::arithmetic::div_mod::lemma_div_is_ordered_by_denominator(5 * price, 1, s.len() as int);
        vstd::arithmetic::div_mod::lemma_div_basics(5 * price);
        lemma_round_up_100(x);
        assert forall|k: int| 0 <= k < s.len() implies {
            let p = #[trigger] ps[1 + k];
            &&& p.player_id == s[k]
            &&& p.rank == BonusRank::OneOfSecondLargest
            &&& p.amount % 100 == 0
            &&& (5 * price) / (s.len() as int) <= p.amount < (5 * price) / (s.len() as int) + 100
        } by {
            assert(ps[1 + k].amount == round_up_100(x) as u32);
        }
    }
    if l.len() >= 2 {
        let x = (15 * price) / (l.len() as int);
        assert(10 * price + 5 * price == 15 * price);
        vstd::arithmetic::div_mod::lemma_div_pos_is_pos(15 * price, l.len() as int);
        vstd::arithmetic::div_mod::lemma_div_is_ordered_by_denominator(15 * price, 1, l.len() as int);
        vstd::arithmetic::div_mod::lemma_div_basics(15 * price);
        lemma_round_up_100(x);
        assert forall|k: int| 0 <= k < l.len() implies {
            let p = #[trigger] ps[k];
            &&& p.player_id == l[k]
            &&& p.rank == BonusRank::OneOfLargest
            &&& p.amount % 100 == 0
            &&& (15 * price) / (l.len() as int) <= p.amount < (15 * price) / (l.len() as int) + 100
        } by {
            assert(ps[k].amount == round_up_100(x) as u32);
        }
    }
}

/// The sum of the bonuses that the player with the id receives.
pub open spec fn total_for(ps: Seq<Payout>, id: int) -> int
    decreases ps.len(),
{
    if ps.len() == 0 {
        0
    } else {
        total_for(ps.drop_last(), id) + if ps.last().player_id == id {
            ps.last().amount as int
        } else {
            0
        }
    }
}

/// A prefix of the bonuses gives no more than all of them.
pub proof fn lemma_total_for_prefix(ps: Seq<Payout>, k: int, id: int)
    requires
        0 <= k <= ps.len(),
    ensures
        total_for(ps.take(k), id) <= total_for(ps, id),
        total_for(ps.take(k), id) >= 0,
    decreases ps.len() - k,
{
    if k < ps.len() {
        lemma_total_for_prefix(ps, k + 1, id);
        assert(ps.take(k + 1).drop_last() =~= ps.take(k));
    } else {
        assert(ps.take(k) =~= ps);
    }
    lemma_total_for_nonneg(ps.take(k), id);
}

/// Sums of bonuses are never negative.
pub proof fn lemma_total_for_nonneg(ps: Seq<Payout>, id: int)
    ensures
        total_for(ps, id) >= 0,
    decreases ps.len(),
{
    if ps.len() > 0 {
        lemma_total_for_nonneg(ps.drop_last(), id);
    }
}

/// The largest holding below the bound is at least every holding below the bound, and is
/// the holding of some player when it is not 0.
pub proof fn lemma_max_below(ps: Seq<Player>, c: HotelChain, b: int)
    ensures
        max_below(ps, c, b) >= 0,
        forall|i: int| 0 <= i < ps.len() && holding(#[trigger] ps[i], c) < b ==> holding(ps[i], c) <= max_below(ps, c, b),
        max_below(ps, c, b) > 0 ==> max_below(ps, c, b) < b && ids_holding(ps, c, max_below(ps, c, b)).len() > 0,
    decreases ps.len(),
{
    if ps.len() > 0 {
        let t = ps.drop_last();
        lemma_max_below(t, c, b);
        assert forall|i: int| 0 <= i < ps.len() && holding(#[trigger] ps[i], c) < b implies holding(ps[i], c)
            <= max_below(ps, c, b) by {
            if i < t.len() {
                assert(ps[i] == t[i]);
            }
        }
        let m = max_below(ps, c, b);
        if m > 0 && m == max_below(t, c, b) {
            lemma_ids_holding_grows(ps, c, m);
        }
    }
}

/// Adding a player to the end keeps every id found before.
proof fn lemma_ids_holding_grows(ps: Seq<Player>, c: HotelChain, k: int)
    requires
        ps.len() > 0,
    ensures
        ids_holding(ps, c, k).len() >= ids_holding(ps.drop_last(), c, k).len(),
{
}

/// Nobody is a largest shareholder of a chain exactly when nobody owns a stock of it; and
/// whenever there are largest shareholders there are second largest shareholders too.
pub proof fn lemma_shareholders_present(ps: Seq<Player>, c: HotelChain)
    ensures
        spec_largest(ps, c).len() == 0 <==> forall|i: int| 0 <= i < ps.len() ==> holding(#[trigger] ps[i], c) == 0,
        spec_largest(ps, c).len() == 0 ==> spec_second(ps, c).len() == 0,
        spec_largest(ps, c).len() > 0 ==> spec_second(ps, c).len() > 0,
{
    lemma_max_below(ps, c, no_bound());
    let m = max_below(ps, c, no_bound());
    assert forall|i: int| 0 <= i < ps.len() implies holding(#[trigger] ps[i], c) < no_bound() by {
        assert(ps[i].owned_stocks.count(c) <= u32::MAX);
    }
    if m > 0 {
        lemma_ids_holding_members(ps, c, m);
        let id = spec_largest(ps, c)[0];
        let i = choose|i: int| 0 <= i < ps.len() && ps[i].id == id && holding(ps[i], c) == m;
        assert(holding(ps[i], c) != 0);
    }
    if spec_largest(ps, c).len() == 1 {
        lemma_max_below(ps, c, m);
    }
}

/// Each largest shareholder of a chain owns the most stocks of it: no player owns more.
pub proof fn lemma_largest_hold_most(ps: Seq<Player>, c: HotelChain, k: int)
    requires
        0 <= k < spec_largest(ps, c).len(),
    ensures
        exists|i: int|
            0 <= i < ps.len() && (#[trigger] ps[i]).id == spec_largest(ps, c)[k] && forall|j: int|
                0 <= j < ps.len() ==> holding(#[trigger] ps[j], c) <= holding(ps[i], c),
{
    let m = max_below(ps, c, no_bound());
    lemma_max_below(ps, c, no_bound());
    lemma_ids_holding_members(ps, c, m);
    assert forall|j: int| 0 <= j < ps.len() implies holding(#[trigger] ps[j], c) < no_bound() by {
        assert(ps[j].owned_stocks.count(c) <= u32::MAX);
    }
    let id = spec_largest(ps, c)[k];
    assert(ids_holding(ps, c, m)[k] == id);
    let i = choose|i: int| 0 <= i < ps.len() && (#[trigger] ps[i]).id == ids_holding(ps, c, m)[k] && holding(ps[i], c) == m;
    assert forall|j: int| 0 <= j < ps.len() implies holding(#[trigger] ps[j], c) <= holding(ps[i], c) by {
        assert(holding(ps[j], c) < no_bound());
    }
}

/// Every id found holding `k` stocks is the id of a player holding `k` stocks.
pub proof fn lemma_ids_holding_members(ps: Seq<Player>, c: HotelChain, k: int)
    ensures
        forall|j: int|
            0 <= j < ids_holding(ps, c, k).len() ==> exists|i: int|
                0 <= i < ps.len() && (#[trigger] ps[i]).id == #[trigger] ids_holding(ps, c, k)[j] && holding(
                    ps[i],
                    c,
                ) == k,
    decreases ps.len(),
{
    if ps.len() > 0 {
        let t = ps.drop_last();
        lemma_ids_holding_members(t, c, k);
        assert forall|j: int| 0 <= j < ids_holding(ps, c, k).len() implies exists|i: int|
            0 <= i < ps.len() && (#[trigger] ps[i]).id == #[trigger] ids_holding(ps, c, k)[j] && holding(ps[i], c)
                == k by {
            if j < ids_holding(t, c, k).len() {
                let i = choose|i: int|
                    0 <= i < t.len() && (#[trigger] t[i]).id == #[trigger] ids_holding(t, c, k)[j] && holding(t[i], c) == k;
                assert(ps[i] == t[i]);
            } else {
                assert(ps[ps.len() - 1].id == ids_holding(ps, c, k)[j]);
            }
        }
    }
}

/// Every player holding `k` stocks has its id among those found holding `k` stocks.
pub proof fn lemma_ids_holding_complete(ps: Seq<Player>, c: HotelChain, k: int)
    ensures
        forall|i: int|
            0 <= i < ps.len() && holding(#[trigger] ps[i], c) == k ==> ids_holding(ps, c, k).contains(ps[i].id),
    decreases ps.len(),
{
    if ps.len() > 0 {
        let t = ps.drop_last();
        lemma_ids_holding_complete(t, c, k);
        assert forall|i: int| 0 <= i < ps.len() && holding(#[trigger] ps[i], c) == k implies ids_holding(
            ps,
            c,
            k,
        ).contains(ps[i].id) by {
            let r = ids_holding(ps, c, k);
            if i < t.len() {
                assert(t[i] == ps[i]);
                let rt = ids_holding(t, c, k);
                let x = choose|x: int| 0 <= x < rt.len() && rt[x] == ps[i].id;
                assert(r[x] == ps[i].id);
            } else {
                assert(r[r.len() - 1] == ps[i].id);
            }
        }
    }
}

/// No player owns more stocks of the chain than the player at index `i`.
pub open spec fn owns_most(ps: Seq<Player>, c: HotelChain, i: int) -> bool {
    &&& 0 <= i < ps.len()
    &&& forall|j: int| 0 <= j < ps.len() ==> holding(#[trigger] ps[j], c) <= holding(ps[i], c)
}

/// The player at index `i` owns stocks of the chain, fewer than the most, and no other
/// player with fewer than the most owns more than it.
pub open spec fn owns_next_most(ps: Seq<Player>, c: HotelChain, i: int) -> bool {
    &&& 0 <= i < ps.len()
    &&& holding(ps[i], c) > 0
    &&& !owns_most(ps, c, i)
    &&& forall|j: int| 0 <= j < ps.len() && !owns_most(ps, c, j) ==> holding(#[trigger] ps[j], c) <= holding(ps[i], c)
}

/// No two players share an id.
pub open spec fn distinct_ids(ps: Seq<Player>) -> bool {
    forall|i: int, j: int| 0 <= i < ps.len() && 0 <= j < ps.len() && i != j ==> (#[trigger] ps[i]).id != (#[trigger] ps[j]).id
}

/// Every holding is below `no_bound`, the greatest holding is reached by some player when it
/// is not 0, and owning the most means holding that greatest number.
proof fn lemma_top(ps: Seq<Player>, c: HotelChain)
    ensures
        forall|i: int| 0 <= i < ps.len() ==> holding(#[trigger] ps[i], c) < no_bound(),
        forall|i: int| 0 <= i < ps.len() ==> holding(#[trigger] ps[i], c) <= max_below(ps, c, no_bound()),
        max_below(ps, c, no_bound()) >= 0,
        max_below(ps, c, no_bound()) > 0 ==> exists|i: int|
            0 <= i < ps.len() && holding(#[trigger] ps[i], c) == max_below(ps, c, no_bound()),
        forall|i: int| 0 <= i < ps.len() && max_below(ps, c, no_bound()) > 0 ==> (owns_most(ps, c, i) <==> holding(
            #[trigger] ps[i],
            c,
        ) == max_below(ps, c, no_bound())),
{
    let m = max_below(ps, c, no_bound());
    assert forall|i: int| 0 <= i < ps.len() implies holding(#[trigger] ps[i], c) < no_bound() by {
        assert(ps[i].owned_stocks.count(c) <= u32::MAX);
    }
    lemma_max_below(ps, c, no_bound());
    if m > 0 {
        lemma_ids_holding_members(ps, c, m);
        let k = choose|k: int| 0 <= k < ps.len() && (#[trigger] ps[k]).id == ids_holding(ps, c, m)[0] && holding(ps[k], c) == m;
        assert forall|i: int| 0 <= i < ps.len() implies (owns_most(ps, c, i) <==> holding(#[trigger] ps[i], c) == m) by {
            if owns_most(ps, c, i) {
                assert(holding(ps[k], c) <= holding(ps[i], c));
            }
        }
    }
}

/// Nobody is found holding `k` stocks exactly when no player holds `k` stocks.
proof fn lemma_ids_holding_empty(ps: Seq<Player>, c: HotelChain, k: int)
    ensures
        ids_holding(ps, c, k).len() == 0 <==> forall|i: int| 0 <= i < ps.len() ==> holding(#[trigger] ps[i], c) != k,
{
    lemma_ids_holding_members(ps, c, k);
    lemma_ids_holding_complete(ps, c, k);
    if ids_holding(ps, c, k).len() > 0 {
        let i = choose|i: int| 0 <= i < ps.len() && (#[trigger] ps[i]).id == ids_holding(ps, c, k)[0] && holding(ps[i], c) == k;
    }
}

/// One id is found holding `k` stocks exactly when one player holds `k` stocks.
proof fn lemma_ids_holding_single(ps: Seq<Player>, c: HotelChain, k: int)
    ensures
        ids_holding(ps, c, k).len() == 1 <==> exists|i: int|
            0 <= i < ps.len() && holding(#[trigger] ps[i], c) == k && forall|j: int|
                0 <= j < ps.len() && holding(#[trigger] ps[j], c) == k ==> j == i,
    decreases ps.len(),
{
    if ps.len() > 0 {
        let t = ps.drop_last();
        let n = t.len() as int;
        lemma_ids_holding_single(t, c, k);
        lemma_ids_holding_empty(t, c, k);
        assert forall|j: int| 0 <= j < n implies #[trigger] t[j] == ps[j] by {}
        if holding(ps[n], c) != k {
            if ids_holding(ps, c, k).len() == 1 {
                let i = choose|i: int|
                    0 <= i < t.len() && holding(#[trigger] t[i], c) == k && forall|j: int|
                        0 <= j < t.len() && holding(#[trigger] t[j], c) == k ==> j == i;
                assert(holding(ps[i], c) == k);
                assert forall|j: int| 0 <= j < ps.len() && holding(#[trigger] ps[j], c) == k implies j == i by {
                    if j < n {
                        assert(holding(t[j], c) == k);
                    }
                }
            }
            if exists|i: int|
                0 <= i < ps.len() && holding(#[trigger] ps[i], c) == k && forall|j: int|
                    0 <= j < ps.len() && holding(#[trigger] ps[j], c) == k ==> j == i {
                let i = choose|i: int|
                    0 <= i < ps.len() && holding(#[trigger] ps[i], c) == k && forall|j: int|
                        0 <= j < ps.len() && holding(#[trigger] ps[j], c) == k ==> j == i;
                assert(holding(t[i], c) == k);
                assert forall|j: int| 0 <= j < t.len() && holding(#[trigger] t[j], c) == k implies j == i by {
                    assert(holding(ps[j], c) == k);
                }
            }
        } else {
            if ids_holding(ps, c, k).len() == 1 {
                assert(ids_holding(t, c, k).len() == 0);
                assert forall|j: int| 0 <= j < ps.len() && holding(#[trigger] ps[j], c) == k implies j == n by {
                    if j < n {
                        assert(holding(t[j], c) != k);
                    }
                }
            }
            if exists|i: int|
                0 <= i < ps.len() && holding(#[trigger] ps[i], c) == k && forall|j: int|
                    0 <= j < ps.len() && holding(#[trigger] ps[j], c) == k ==> j == i {
                let i = choose|i: int|
                    0 <= i < ps.len() && holding(#[trigger] ps[i], c) == k && forall|j: int|
                        0 <= j < ps.len() && holding(#[trigger] ps[j], c) == k ==> j == i;
                assert(i == n);
                assert forall|j: int| 0 <= j < t.len() implies holding(#[trigger] t[j], c) != k by {
                    if holding(t[j], c) == k {
                        assert(holding(ps[j], c) == k);
                    }
                }
            }
        }
    }
}

/// The largest shareholders of a chain are exactly the players that own stocks of it and
/// own the most of them, whatever the order of the players.
pub proof fn lemma_largest_exact(ps: Seq<Player>, c: HotelChain)
    ensures
        forall|id: u32|
            spec_largest(ps, c).contains(id) <==> exists|i: int|
                owns_most(ps, c, i) && #[trigger] ps[i].id == id && holding(ps[i], c) > 0,
{
    let m = max_below(ps, c, no_bound());
    lemma_top(ps, c);
    lemma_ids_holding_members(ps, c, m);
    lemma_ids_holding_complete(ps, c, m);
    assert forall|id: u32| spec_largest(ps, c).contains(id) implies exists|i: int|
        owns_most(ps, c, i) && #[trigger] ps[i].id == id && holding(ps[i], c) > 0 by {
        let l = spec_largest(ps, c);
        let x = choose|x: int| 0 <= x < l.len() && l[x] == id;
        let i = choose|i: int| 0 <= i < ps.len() && (#[trigger] ps[i]).id == ids_holding(ps, c, m)[x] && holding(ps[i], c) == m;
        assert(owns_most(ps, c, i));
    }
    assert forall|id: u32| (exists|i: int| owns_most(ps, c, i) && #[trigger] ps[i].id == id && holding(ps[i], c) > 0) implies spec_largest(ps, c).contains(id) by {
        let i = choose|i: int| owns_most(ps, c, i) && #[trigger] ps[i].id == id && holding(ps[i], c) > 0;
        assert(holding(ps[i], c) <= m);
        assert(m > 0);
        assert(holding(ps[i], c) == m);
    }
}

/// One player alone owns the most stocks of the chain, and owns some.
pub open spec fn sole_largest(ps: Seq<Player>, c: HotelChain) -> bool {
    exists|i: int|
        owns_most(ps, c, i) && holding(ps[i], c) > 0 && forall|j: int|
            #[trigger] owns_most(ps, c, j) ==> ps[j].id == ps[i].id
}

/// When the players have distinct ids, there is one largest shareholder exactly when one
/// player alone owns the most stocks of the chain.
pub proof fn lemma_sole_largest(ps: Seq<Player>, c: HotelChain)
    requires
        distinct_ids(ps),
    ensures
        spec_largest(ps, c).len() == 1 <==> sole_largest(ps, c),
{
    let m = max_below(ps, c, no_bound());
    lemma_top(ps, c);
    if m > 0 {
        lemma_ids_holding_single(ps, c, m);
        if spec_largest(ps, c).len() == 1 {
            let i = choose|i: int|
                0 <= i < ps.len() && holding(#[trigger] ps[i], c) == m && forall|j: int|
                    0 <= j < ps.len() && holding(#[trigger] ps[j], c) == m ==> j == i;
            assert(owns_most(ps, c, i));
            assert forall|j: int| #[trigger] owns_most(ps, c, j) implies ps[j].id == ps[i].id by {
                assert(holding(ps[j], c) == m);
            }
        }
        if sole_largest(ps, c) {
            let i = choose|i: int|
                owns_most(ps, c, i) && holding(ps[i], c) > 0 && forall|j: int|
                    #[trigger] owns_most(ps, c, j) ==> ps[j].id == ps[i].id;
            assert(holding(ps[i], c) == m);
            assert forall|j: int| 0 <= j < ps.len() && holding(#[trigger] ps[j], c) == m implies j == i by {
                assert(owns_most(ps, c, j));
                if j != i {
                    assert(ps[j].id != ps[i].id);
                }
            }
        }
    } else {
        if sole_largest(ps, c) {
            let i = choose|i: int|
                owns_most(ps, c, i) && holding(ps[i], c) > 0 && forall|j: int|
                    #[trigger] owns_most(ps, c, j) ==> ps[j].id == ps[i].id;
            assert(holding(ps[i], c) <= m);
        }
    }
}

/// The second largest shareholders of a chain: when there is not exactly one largest
/// shareholder they are the largest shareholders; otherwise they are the players that own
/// the next most stocks, or the largest shareholder when nobody else owns any.
pub proof fn lemma_second_exact(ps: Seq<Player>, c: HotelChain)
    ensures
        spec_largest(ps, c).len() != 1 ==> spec_second(ps, c) == spec_largest(ps, c),
        spec_largest(ps, c).len() == 1 ==> forall|id: u32|
            spec_second(ps, c).contains(id) <==> (exists|i: int| owns_next_most(ps, c, i) && #[trigger] ps[i].id == id)
                || (spec_largest(ps, c).contains(id) && !exists|i: int| owns_next_most(ps, c, i)),
{
    let m = max_below(ps, c, no_bound());
    lemma_top(ps, c);
    if spec_largest(ps, c).len() == 1 {
        assert(m > 0);
        let m2 = max_below(ps, c, m);
        lemma_max_below(ps, c, m);
        lemma_ids_holding_members(ps, c, m2);
        lemma_ids_holding_complete(ps, c, m2);
        assert forall|i: int| 0 <= i < ps.len() implies (owns_next_most(ps, c, i) <==> (m2 > 0 && holding(
            #[trigger] ps[i],
            c,
        ) == m2)) by {
            if owns_next_most(ps, c, i) {
                assert(holding(ps[i], c) < m);
                assert(m2 > 0);
                let k = choose|k: int|
                    0 <= k < ps.len() && (#[trigger] ps[k]).id == ids_holding(ps, c, m2)[0] && holding(ps[k], c) == m2;
                assert(!owns_most(ps, c, k));
                assert(holding(ps[k], c) <= holding(ps[i], c));
            }
            if m2 > 0 && holding(ps[i], c) == m2 {
                assert(!owns_most(ps, c, i));
                assert forall|j: int| 0 <= j < ps.len() && !owns_most(ps, c, j) implies holding(#[trigger] ps[j], c)
                    <= holding(ps[i], c) by {
                    assert(holding(ps[j], c) < m);
                }
            }
        }
        if m2 > 0 {
            let k = choose|k: int|
                0 <= k < ps.len() && (#[trigger] ps[k]).id == ids_holding(ps, c, m2)[0] && holding(ps[k], c) == m2;
            assert(owns_next_most(ps, c, k));
            assert forall|id: u32| spec_second(ps, c).contains(id) implies (exists|i: int|
                owns_next_most(ps, c, i) && #[trigger] ps[i].id == id) by {
                let r = spec_second(ps, c);
                let x = choose|x: int| 0 <= x < r.len() && r[x] == id;
                let i = choose|i: int|
                    0 <= i < ps.len() && (#[trigger] ps[i]).id == ids_holding(ps, c, m2)[x] && holding(ps[i], c) == m2;
                assert(owns_next_most(ps, c, i));
            }
            assert forall|id: u32| (exists|i: int| owns_next_most(ps, c, i) && #[trigger] ps[i].id == id) implies spec_second(
                ps,
                c,
            ).contains(id) by {
                let i = choose|i: int| owns_next_most(ps, c, i) && #[trigger] ps[i].id == id;
                assert(holding(ps[i], c) == m2);
            }
        } else {
            assert forall|i: int| !owns_next_most(ps, c, i) by {
                if owns_next_most(ps, c, i) {
                    assert(holding(ps[i], c) == m2);
                }
            }
        }
    }
}

/// The same players, in any order.
pub open spec fn same_players(ps: Seq<Player>, qs: Seq<Player>) -> bool {
    forall|p: Player| ps.contains(p) <==> qs.contains(p)
}

/// Owning the most does not depend on the order of the players.
proof fn lemma_owns_most_transfer(ps: Seq<Player>, qs: Seq<Player>, c: HotelChain, i: int, i2: int)
    requires
        same_players(ps, qs),
        0 <= i < ps.len(),
        0 <= i2 < qs.len(),
        ps[i] == qs[i2],
    ensures
        owns_most(ps, c, i) ==> owns_most(qs, c, i2),
{
    if owns_most(ps, c, i) {
        assert forall|j: int| 0 <= j < qs.len() implies holding(#[trigger] qs[j], c) <= holding(qs[i2], c) by {
            assert(qs.contains(qs[j]));
            let j2 = choose|k: int| 0 <= k < ps.len() && ps[k] == qs[j];
            assert(holding(ps[j2], c) <= holding(ps[i], c));
        }
    }
}

/// Owning the next most does not depend on the order of the players.
proof fn lemma_owns_next_most_transfer(ps: Seq<Player>, qs: Seq<Player>, c: HotelChain, i: int, i2: int)
    requires
        same_players(ps, qs),
        0 <= i < ps.len(),
        0 <= i2 < qs.len(),
        ps[i] == qs[i2],
    ensures
        owns_next_most(ps, c, i) ==> owns_next_most(qs, c, i2),
{
    if owns_next_most(ps, c, i) {
        lemma_owns_most_transfer(qs, ps, c, i2, i);
        assert forall|j: int| 0 <= j < qs.len() && !owns_most(qs, c, j) implies holding(#[trigger] qs[j], c)
            <= holding(qs[i2], c) by {
            assert(qs.contains(qs[j]));
            let j2 = choose|k: int| 0 <= k < ps.len() && ps[k] == qs[j];
            lemma_owns_most_transfer(ps, qs, c, j2, j);
            assert(holding(ps[j2], c) <= holding(ps[i], c));
        }
    }
}

/// Whether one player alone owns the most does not depend on the order of the players.
proof fn lemma_sole_largest_transfer(ps: Seq<Player>, qs: Seq<Player>, c: HotelChain)
    requires
        same_players(ps, qs),
    ensures
        sole_largest(ps, c) ==> sole_largest(qs, c),
{
    if sole_largest(ps, c) {
        let i = choose|i: int|
            owns_most(ps, c, i) && holding(ps[i], c) > 0 && forall|j: int|
                #[trigger] owns_most(ps, c, j) ==> ps[j].id == ps[i].id;
        assert(ps.contains(ps[i]));
        let i2 = choose|k: int| 0 <= k < qs.len() && qs[k] == ps[i];
        lemma_owns_most_transfer(ps, qs, c, i, i2);
        assert forall|j: int| #[trigger] owns_most(qs, c, j) implies qs[j].id == qs[i2].id by {
            assert(qs.contains(qs[j]));
            let j2 = choose|k: int| 0 <= k < ps.len() && ps[k] == qs[j];
            lemma_owns_most_transfer(qs, ps, c, j, j2);
        }
    }
}

/// Every largest or second largest shareholder found among `ps` is found among the same
/// players in another order.
proof fn lemma_shareholders_transfer(ps: Seq<Player>, qs: Seq<Player>, c: HotelChain)
    requires
        distinct_ids(ps),
        distinct_ids(qs),
        same_players(ps, qs),
    ensures
        forall|id: u32| spec_largest(ps, c).contains(id) ==> spec_largest(qs, c).contains(id),
        forall|id: u32| spec_second(ps, c).contains(id) ==> spec_second(qs, c).contains(id),
{
    assert(same_players(qs, ps));
    lemma_largest_exact(ps, c);
    lemma_largest_exact(qs, c);
    lemma_second_exact(ps, c);
    lemma_second_exact(qs, c);
    lemma_sole_largest(ps, c);
    lemma_sole_largest(qs, c);
    lemma_sole_largest_transfer(ps, qs, c);
    lemma_sole_largest_transfer(qs, ps, c);
    assert forall|id: u32| spec_largest(ps, c).contains(id) implies spec_largest(qs, c).contains(id) by {
        let i = choose|i: int| owns_most(ps, c, i) && #[trigger] ps[i].id == id && holding(ps[i], c) > 0;
        assert(ps.contains(ps[i]));
        let i2 = choose|k: int| 0 <= k < qs.len() && qs[k] == ps[i];
        lemma_owns_most_transfer(ps, qs, c, i, i2);
        assert(owns_most(qs, c, i2) && qs[i2].id == id && holding(qs[i2], c) > 0);
    }
    if spec_largest(ps, c).len() == 1 {
        assert forall|i: int| #![trigger owns_next_most(qs, c, i)] owns_next_most(qs, c, i) implies exists|i1: int|
            owns_next_most(ps, c, i1) by {
            assert(qs.contains(qs[i]));
            let i1 = choose|k: int| 0 <= k < ps.len() && ps[k] == qs[i];
            lemma_owns_next_most_transfer(qs, ps, c, i, i1);
        }
        assert forall|id: u32| spec_second(ps, c).contains(id) implies spec_second(qs, c).contains(id) by {
            if exists|i: int| owns_next_most(ps, c, i) && #[trigger] ps[i].id == id {
                let i = choose|i: int| owns_next_most(ps, c, i) && #[trigger] ps[i].id == id;
                assert(ps.contains(ps[i]));
                let i2 = choose|k: int| 0 <= k < qs.len() && qs[k] == ps[i];
                lemma_owns_next_most_transfer(ps, qs, c, i, i2);
                assert(owns_next_most(qs, c, i2) && qs[i2].id == id);
            }
        }
    }
}

/// Who the largest and second largest shareholders of a chain are does not depend on the
/// order in which the players are looked at.
pub proof fn lemma_shareholders_any_order(ps: Seq<Player>, qs: Seq<Player>, c: HotelChain)
    requires
        distinct_ids(ps),
        distinct_ids(qs),
        same_players(ps, qs),
    ensures
        forall|id: u32| spec_largest(ps, c).contains(id) <==> spec_largest(qs, c).contains(id),
        forall|id: u32| spec_second(ps, c).contains(id) <==> spec_second(qs, c).contains(id),
{
    lemma_shareholders_transfer(ps, qs, c);
    lemma_shareholders_transfer(qs, ps, c);
}

/// Once the shareholders of a chain were brought up to date for players with distinct ids,
/// a player counts as a largest shareholder exactly when it owns stocks of the chain and
/// nobody owns more; and, when one player alone owns the most, as a second largest
/// shareholder exactly when it owns the next most, or is that player and nobody else owns any.
pub proof fn lemma_shareholder_ranks(bank: Bank, ps: Seq<Player>, c: HotelChain, i: int)
    requires
        bank.largest_shareholders.largest_shareholder.at(c)@ == spec_largest(ps, c),
        bank.largest_shareholders.second_largest_shareholder.at(c)@ == spec_second(ps, c),
        distinct_ids(ps),
        0 <= i < ps.len(),
    ensures
        bank.largest_shareholders.largest_shareholder.at(c)@.contains(ps[i].id) <==> holding(ps[i], c) > 0
            && owns_most(ps, c, i),
        !sole_largest(ps, c) ==> (bank.largest_shareholders.second_largest_shareholder.at(c)@.contains(ps[i].id)
            <==> holding(ps[i], c) > 0 && owns_most(ps, c, i)),
        sole_largest(ps, c) ==> (bank.largest_shareholders.second_largest_shareholder.at(c)@.contains(ps[i].id)
            <==> owns_next_most(ps, c, i) || (owns_most(ps, c, i) && !exists|j: int| owns_next_most(ps, c, j))),
{
    lemma_largest_exact(ps, c);
    lemma_second_exact(ps, c);
    lemma_sole_largest(ps, c);
    let id = ps[i].id;
    if spec_largest(ps, c).contains(id) {
        let k = choose|k: int| owns_most(ps, c, k) && #[trigger] ps[k].id == id && holding(ps[k], c) > 0;
        assert(k == i);
    }
    if sole_largest(ps, c) {
        if exists|k: int| owns_next_most(ps, c, k) && #[trigger] ps[k].id == id {
            let k = choose|k: int| owns_next_most(ps, c, k) && #[trigger] ps[k].id == id;
            assert(k == i);
        }
        if owns_next_most(ps, c, i) {
            assert(owns_next_most(ps, c, i) && ps[i].id == id);
        }
    }
}

impl Bank {
    /// The bank after `player` has received one stock of the chain for free, if the bank had
    /// one left; when it had none, nothing changed.
    pub open spec fn bonus_given(self, c: HotelChain, player: Player, bank2: Bank, player2: Player) -> bool {
        if self.stocks_for_sale.count(c) > 0 {
            &&& self.stocks_for_sale.updated(c, (self.stocks_for_sale.count(c) - 1) as u32, bank2.stocks_for_sale)
            &&& bank2.largest_shareholders == self.largest_shareholders
            &&& player2 == player.with_stocks(player2.owned_stocks)
            &&& player.owned_stocks.updated(c, (player.owned_stocks.count(c) + 1) as u32, player2.owned_stocks)
        } else {
            bank2 == self && player2 == player
        }
    }

    /// The number of stocks of the chain that can be bought: none when the chain is not active.
    pub open spec fn available(&self, c: HotelChain, m: HotelChainManager) -> int {
        if m.is_active(c) {
            self.stocks_for_sale.count(c) as int
        } else {
            0
        }
    }

    /// Creates a new bank with all 25 stocks of every chain and no shareholders.
    pub fn new() -> (b: Self)
        ensures
            forall|c: HotelChain| #[trigger] b.stocks_for_sale.count(c) == 25,
            forall|c: HotelChain| (#[trigger] b.largest_shareholders.largest_shareholder.at(c))@.len() == 0,
            forall|c: HotelChain| (#[trigger] b.largest_shareholders.second_largest_shareholder.at(c))@.len() == 0,
    {
        let largest_shareholders = LargestShareholders::new();
        let b = Self { stocks_for_sale: Stocks::new_bank(), largest_shareholders };
        b
    }

    /// Returns how many stocks of the given chain are available to be bought.
    /// If the chain does not exist 0 is returned.
    pub fn stocks_available(&self, chain: &HotelChain, hotel_chain_manager: &HotelChainManager) -> (n: u32)
        ensures
            n == self.available(*chain, *hotel_chain_manager),
    {
        if !hotel_chain_manager.chain_status(chain) {
            return 0;
        }
        *self.stocks_for_sale.stocks_for_hotel(chain)
    }

    /// Returns the current price for a stock of the given chain
    pub fn stock_price(hotel_chain_manager: &HotelChainManager, chain: &HotelChain) -> (p: u32)
        requires
            hotel_chain_manager.wf(),
        ensures
            p == spec_stock_price(chain.spec_price_level(), hotel_chain_manager.length(*chain)),
            p <= 1200,
    {
        proof {
            lemma_stock_price_bounded(chain.spec_price_level(), hotel_chain_manager.length(*chain));
        }
        chain.stock_value(hotel_chain_manager.chain_length(chain))
    }

    /// Set the stocks of the given chain that the bank has left to sell
    pub fn set_stocks(&mut self, chain: &HotelChain, value: u32)
        ensures
            old(self).stocks_for_sale.updated(*chain, value, final(self).stocks_for_sale),
            final(self).largest_shareholders == old(self).largest_shareholders,
    {
        self.stocks_for_sale.set_stocks(chain, value);
    }

    /// Buy a single stock from the bank.
    /// # Returns
    /// * `Ok(())` - When stock was successfully bought
    /// * `Err` - When no stock is available, or the player cannot pay it
    pub fn buy_stock(&mut self, hotel_chain_manager: &HotelChainManager, hotel: &HotelChain, player: &mut Player) -> (r:
        Result<(), GameError>)
        requires
            hotel_chain_manager.wf(),
            old(player).owned_stocks.count(*hotel) < u32::MAX,
        ensures
            ({
                let price = spec_stock_price(hotel.spec_price_level(), hotel_chain_manager.length(*hotel));
                &&& old(self).available(*hotel, *hotel_chain_manager) == 0 ==> r == Err::<(), GameError>(
                    GameError::NoStocksAvailable(*hotel),
                )
                &&& old(self).available(*hotel, *hotel_chain_manager) > 0 && old(player).money < price ==> r
                    == Err::<(), GameError>(GameError::NotEnoughMoney(*hotel))
                &&& old(self).available(*hotel, *hotel_chain_manager) > 0 && old(player).money >= price ==> r is Ok
                &&& r is Err ==> *final(self) == *old(self) && *final(player) == *old(player)
                &&& r is Ok ==> {
                    &&& old(self).available(*hotel, *hotel_chain_manager) > 0 && old(player).money >= price
                    &&& old(self).stocks_for_sale.updated(
                        *hotel,
                        (old(self).stocks_for_sale.count(*hotel) - 1) as u32,
                        final(self).stocks_for_sale,
                    )
                    &&& final(self).largest_shareholders == old(self).largest_shareholders
                    &&& old(player).owned_stocks.updated(
                        *hotel,
                        (old(player).owned_stocks.count(*hotel) + 1) as u32,
                        final(player).owned_stocks,
                    )
                    &&& *final(player) == old(player).with_stocks(final(player).owned_stocks).with_money(
                        (old(player).money - price) as u32,
                    )
                }
            }),
            forall|c: HotelChain|
                #![trigger final(self).stocks_for_sale.count(c)]
                final(self).stocks_for_sale.count(c) + final(player).owned_stocks.count(c)
                    == old(self).stocks_for_sale.count(c) + old(player).owned_stocks.count(c),
    {
        let stock_available = self.stocks_available(hotel, hotel_chain_manager);
        if stock_available == 0 {
            return Err(GameError::NoStocksAvailable(*hotel));
        }
        let stock_price = Bank::stock_price(hotel_chain_manager, hotel);
        if player.money < stock_price {
            return Err(GameError::NotEnoughMoney(*hotel));
        }
        self.stocks_for_sale.decrease_stocks(hotel, 1);
        player.add_stocks(hotel, 1);
        player.remove_money(stock_price);
        Ok(())
    }

    /// Sell a number of stocks of the chain back to the bank, at the current price.
    /// # Returns
    /// * `Err` - When the player tries to sell more stocks than they have
    pub fn sell_stock(&mut self, player: &mut Player, amount: u32, chain: &HotelChain, hotel_chain_manager: &HotelChainManager) -> (r:
        Result<(), GameError>)
        requires
            hotel_chain_manager.wf(),
            old(self).stocks_for_sale.count(*chain) + amount <= u32::MAX,
            old(player).money + amount * spec_stock_price(chain.spec_price_level(), hotel_chain_manager.length(*chain))
                <= u32::MAX,
        ensures
            old(player).owned_stocks.count(*chain) < amount ==> r == Err::<(), GameError>(
                GameError::NotEnoughStocksToSell { wanted: amount, owned: old(player).owned_stocks.count(*chain) },
            ) && *final(self) == *old(self) && *final(player) == *old(player),
            old(player).owned_stocks.count(*chain) >= amount ==> {
                let price = spec_stock_price(chain.spec_price_level(), hotel_chain_manager.length(*chain));
                &&& r is Ok
                &&& old(self).stocks_for_sale.updated(
                    *chain,
                    (old(self).stocks_for_sale.count(*chain) + amount) as u32,
                    final(self).stocks_for_sale,
                )
                &&& final(self).largest_shareholders == old(self).largest_shareholders
                &&& old(player).owned_stocks.updated(
                    *chain,
                    (old(player).owned_stocks.count(*chain) - amount) as u32,
                    final(player).owned_stocks,
                )
                &&& *final(player) == old(player).with_stocks(final(player).owned_stocks).with_money(
                    (old(player).money + amount * price) as u32,
                )
            },
            forall|c: HotelChain|
                #![trigger final(self).stocks_for_sale.count(c)]
                final(self).stocks_for_sale.count(c) + final(player).owned_stocks.count(c)
                    == old(self).stocks_for_sale.count(c) + old(player).owned_stocks.count(c),
    {
        let player_stocks = *player.owned_stocks.stocks_for_hotel(chain);
        let money = player.money;
        if player_stocks < amount {
            return Err(GameError::NotEnoughStocksToSell { wanted: amount, owned: player_stocks });
        }
        let stock_price = Bank::stock_price(hotel_chain_manager, chain);
        // Move stocks from players inventory to the bank
        player.remove_stocks(chain, amount);
        self.stocks_for_sale.increase_stocks(chain, amount);
        // Give money to player
        assert(stock_price * amount == amount * stock_price) by (nonlinear_arith);
        assert(stock_price * amount <= u32::MAX) by (nonlinear_arith)
            requires
                stock_price * amount == amount * stock_price,
                money + amount * stock_price <= u32::MAX,
        ;
        player.add_money(stock_price * amount);
        Ok(())
    }

    /// Exchanges stocks of the chain `dead` into stocks of `alive`: two for one.
    /// # Returns
    /// * `Err` - When `to_exchange` is odd, or when the bank has fewer than `to_exchange / 2`
    /// stocks of `alive` left
    pub fn exchange_stock(&mut self, player: &mut Player, to_exchange: u32, dead: &HotelChain, alive: &HotelChain) -> (r:
        Result<(), GameError>)
        requires
            old(player).owned_stocks.count(*dead) >= to_exchange,
            old(self).stocks_for_sale.count(*dead) + to_exchange <= u32::MAX,
            old(player).owned_stocks.count(*alive) + to_exchange / 2 <= u32::MAX,
        ensures
            to_exchange % 2 != 0 ==> r == Err::<(), GameError>(GameError::OddExchange(to_exchange)),
            to_exchange % 2 == 0 && old(self).stocks_for_sale.count(*alive) < to_exchange / 2 ==> r == Err::<
                (),
                GameError,
            >(GameError::NotEnoughStocksToExchange),
            to_exchange % 2 == 0 && old(self).stocks_for_sale.count(*alive) >= to_exchange / 2 ==> r is Ok,
            r is Err ==> *final(self) == *old(self) && *final(player) == *old(player),
            r is Ok ==> {
                &&& to_exchange % 2 == 0 && old(self).stocks_for_sale.count(*alive) >= to_exchange / 2
                &&& *final(player) == old(player).with_stocks(final(player).owned_stocks)
                &&& final(self).largest_shareholders == old(self).largest_shareholders
                &&& forall|c: HotelChain|
                    #![trigger final(player).owned_stocks.count(c)]
                    final(player).owned_stocks.count(c) == old(player).owned_stocks.count(c) - (if c == *dead {
                        to_exchange as int
                    } else {
                        0
                    }) + (if c == *alive {
                        to_exchange as int / 2
                    } else {
                        0
                    })
                &&& forall|c: HotelChain|
                    #![trigger final(self).stocks_for_sale.count(c)]
                    final(self).stocks_for_sale.count(c) == old(self).stocks_for_sale.count(c) + (if c == *dead {
                        to_exchange as int
                    } else {
                        0
                    }) - (if c == *alive {
                        to_exchange as int / 2
                    } else {
                        0
                    })
            },
            forall|c: HotelChain|
                #![trigger final(self).stocks_for_sale.count(c)]
                final(self).stocks_for_sale.count(c) + final(player).owned_stocks.count(c)
                    == old(self).stocks_for_sale.count(c) + old(player).owned_stocks.count(c),
    {
        let available_to_exchange = *self.stocks_for_sale.stocks_for_hotel(alive);
        if to_exchange % 2 != 0 {
            return Err(GameError::OddExchange(to_exchange));
        }
        if available_to_exchange < to_exchange / 2 {
            // Not enough stocks available for exchange
            return Err(GameError::NotEnoughStocksToExchange);
        }
        // Trade stocks
        player.remove_stocks(dead, to_exchange);
        self.stocks_for_sale.increase_stocks(dead, to_exchange);
        self.stocks_for_sale.decrease_stocks(alive, to_exchange / 2);
        player.add_stocks(alive, to_exchange / 2);
        Ok(())
    }

    /// Gives one stock of the hotel chain to the player for free, if the bank has one left.
    /// Returns whether the player received the stock.
    pub fn give_bonus_stock(&mut self, chain: &HotelChain, player: &mut Player) -> (given: bool)
        requires
            old(player).owned_stocks.count(*chain) < u32::MAX,
        ensures
            given == (old(self).stocks_for_sale.count(*chain) > 0),
            old(self).bonus_given(*chain, *old(player), *final(self), *final(player)),
    {
        if *self.stocks_for_sale.stocks_for_hotel(chain) == 0 {
            return false;
        }
        self.stocks_for_sale.decrease_stocks(chain, 1);
        // Give stock to player
        player.add_stocks(chain, 1);
        true
    }

    /// Updates who the largest and second largest shareholders of every chain are.
    /// For that the stocks of each player are compared to one another.
    #[verifier::spinoff_prover]
    pub fn update_largest_shareholders(&mut self, players: &Vec<Player>)
        ensures
            final(self).stocks_for_sale == old(self).stocks_for_sale,
            forall|c: HotelChain|
                (#[trigger] final(self).largest_shareholders.largest_shareholder.at(c))@ == spec_largest(players@, c),
            forall|c: HotelChain|
                (#[trigger] final(self).largest_shareholders.second_largest_shareholder.at(c))@ == spec_second(players@, c),
    {
        let ghost old_stocks = self.stocks_for_sale;
        self.largest_shareholders = LargestShareholders::new();
        let chains = HotelChain::iterator();
        let mut i: usize = 0;
        while i < chains.len()
            invariant
                chains@ == crate::chain::chain_order(),
                i <= chains@.len(),
                self.stocks_for_sale == old_stocks,
                forall|j: int|
                    0 <= j < i ==> (#[trigger] self.largest_shareholders.largest_shareholder.at(chains@[j]))@
                        == spec_largest(players@, chains@[j])
                        && self.largest_shareholders.second_largest_shareholder.at(chains@[j])@ == spec_second(
                        players@,
                        chains@[j],
                    ),
            decreases chains@.len() - i,
        {
            let chain = chains[i];
            let (largest, second) = shareholders_of(players, chain);
            let ghost before = self.largest_shareholders;
            self.largest_shareholders.largest_shareholder.set(chain, largest);
            self.largest_shareholders.second_largest_shareholder.set(chain, second);
            proof {
                assert(self.largest_shareholders.largest_shareholder.at(chain)@ == spec_largest(players@, chain));
                assert(self.largest_shareholders.second_largest_shareholder.at(chain)@ == spec_second(players@, chain));
                assert(forall|d: HotelChain| d != chain ==> #[trigger] self.largest_shareholders.largest_shareholder.at(d)
                    == before.largest_shareholder.at(d));
                assert(forall|d: HotelChain| d != chain ==> #[trigger] self.largest_shareholders.second_largest_shareholder.at(d)
                    == before.second_largest_shareholder.at(d));
                assert forall|j: int| 0 <= j < i + 1 implies (#[trigger] self.largest_shareholders.largest_shareholder.at(
                    chains@[j],
                ))@ == spec_largest(players@, chains@[j])
                    && self.largest_shareholders.second_largest_shareholder.at(chains@[j])@ == spec_second(
                    players@,
                    chains@[j],
                ) by {
                    if j < i {
                        crate::chain::lemma_chain_order_complete(chain);
                        assert(chains@[j] != chains@[i as int]);
                        assert(before.largest_shareholder.at(chains@[j])@ == spec_largest(players@, chains@[j]));
                        assert(self.largest_shareholders.largest_shareholder.at(chains@[j])
                            == before.largest_shareholder.at(chains@[j]));
                        assert(self.largest_shareholders.second_largest_shareholder.at(chains@[j])
                            == before.second_largest_shareholder.at(chains@[j]));
                    }
                }
            }
            i = i + 1;
        }
        proof {
            assert forall|c: HotelChain|
                (#[trigger] self.largest_shareholders.largest_shareholder.at(c))@ == spec_largest(players@, c) by {
                crate::chain::lemma_chain_order_complete(c);
                let j = choose|j: int| 0 <= j < 7 && chains@[j] == c;
                assert(self.largest_shareholders.largest_shareholder.at(chains@[j])@ == spec_largest(players@, chains@[j]));
            }
            assert forall|c: HotelChain|
                (#[trigger] self.largest_shareholders.second_largest_shareholder.at(c))@ == spec_second(players@, c) by {
                crate::chain::lemma_chain_order_complete(c);
                let j = choose|j: int| 0 <= j < 7 && chains@[j] == c;
                assert(self.largest_shareholders.largest_shareholder.at(chains@[j])@ == spec_largest(players@, chains@[j]));
            }
        }
    }

    /// The bonuses that the largest and second largest shareholders get for the chain.
    pub open spec fn spec_bonuses(&self, chain: HotelChain, m: HotelChainManager) -> Seq<Payout> {
        spec_payouts(
            self.largest_shareholders.largest_shareholder.at(chain)@,
            self.largest_shareholders.second_largest_shareholder.at(chain)@,
            spec_stock_price(chain.spec_price_level(), m.length(chain)),
        )
    }

    /// Gives the largest and second largest shareholders their bonuses and returns the
    /// bonuses that were paid, in the order in which they were paid, so that the players
    /// can be told.
    /// # Returns
    /// * `Err` - When no largest shareholders are known for the chain
    pub fn give_majority_shareholder_bonuses(
        &self,
        players: &mut Vec<Player>,
        chain: &HotelChain,
        hotel_chain_manager: &HotelChainManager,
    ) -> (r: Result<Vec<Payout>, GameError>)
        requires
            hotel_chain_manager.wf(),
            ({
                let l = self.largest_shareholders.largest_shareholder.at(*chain)@;
                let s = self.largest_shareholders.second_largest_shareholder.at(*chain)@;
                &&& l.len() == 1 ==> s.len() > 0
                &&& l.len() == 0 ==> s.len() == 0
            }),
            forall|k: int|
                0 <= k < self.spec_bonuses(*chain, *hotel_chain_manager).len() ==> (#[trigger] self.spec_bonuses(
                    *chain,
                    *hotel_chain_manager,
                )[k]).player_id < old(players)@.len(),
            forall|i: int|
                0 <= i < old(players)@.len() ==> (#[trigger] old(players)@[i]).money + total_for(
                    self.spec_bonuses(*chain, *hotel_chain_manager),
                    i,
                ) <= u32::MAX,
        ensures
            self.largest_shareholders.largest_shareholder.at(*chain)@.len() == 0 ==> r == Err::<
                Vec<Payout>,
                GameError,
            >(GameError::ShareholdersNotSet(*chain)) && final(players)@ == old(players)@,
            self.largest_shareholders.largest_shareholder.at(*chain)@.len() > 0 ==> {
                let bonuses = self.spec_bonuses(*chain, *hotel_chain_manager);
                &&& r matches Ok(v) && v@ == bonuses
                &&& final(players)@.len() == old(players)@.len()
                &&& forall|i: int|
                    0 <= i < old(players)@.len() ==> #[trigger] final(players)@[i] == old(players)@[i].with_money(
                        (old(players)@[i].money + total_for(bonuses, i)) as u32,
                    )
            },
    {
        let largest = self.largest_shareholders.largest_shareholder.get(*chain);
        let second = self.largest_shareholders.second_largest_shareholder.get(*chain);
        // Check if largest shareholders are set.
        if largest.len() == 0 && second.len() == 0 {
            return Err(GameError::ShareholdersNotSet(*chain));
        }
        let price = Bank::stock_price(hotel_chain_manager, chain);
        let largest_bonus = price * 10;
        let second_bonus = price * 5;
        let mut payouts: Vec<Payout> = Vec::new();
        let ghost l = largest@;
        let ghost s = second@;
        if largest.len() == 1 {
            payouts.push(Payout { player_id: largest[0], amount: largest_bonus, rank: BonusRank::Largest });
            if second.len() == 1 {
                payouts.push(Payout { player_id: second[0], amount: second_bonus, rank: BonusRank::SecondLargest });
                proof {
                    assert(payouts@ =~= spec_payouts(l, s, price as int));
                }
            } else {
                let share: usize = (second_bonus as usize) / second.len();
                let bonus: u32 = ((share + 99) / 100 * 100) as u32;
                let mut k: usize = 0;
                while k < second.len()
                    invariant
                        s == second@,
                        k <= s.len(),
                        s.len() != 1,
                        l.len() == 1,
                        bonus == round_up_100((price * 5) as int / (s.len() as int)),
                        payouts@ == seq![Payout { player_id: l[0], amount: largest_bonus, rank: BonusRank::Largest }]
                            + s.take(k as int).map_values(
                            |id: u32| Payout { player_id: id, amount: bonus, rank: BonusRank::OneOfSecondLargest },
                        ),
                    decreases s.len() - k,
                {
                    payouts.push(Payout { player_id: second[k], amount: bonus, rank: BonusRank::OneOfSecondLargest });
                    proof {
                        assert(s.take(k + 1) =~= s.take(k as int).push(s[k as int]));
                        assert(payouts@ =~= seq![Payout { player_id: l[0], amount: largest_bonus, rank: BonusRank::Largest }]
                            + s.take(k + 1).map_values(
                            |id: u32| Payout { player_id: id, amount: bonus, rank: BonusRank::OneOfSecondLargest },
                        ));
                    }
                    k = k + 1;
                }
                proof {
                    assert(s.take(s.len() as int) =~= s);
                    assert(payouts@ =~= spec_payouts(l, s, price as int));
                }
            }
        } else {
            let share: usize = ((largest_bonus + second_bonus) as usize) / largest.len();
            let bonus: u32 = ((share + 99) / 100 * 100) as u32;
            let mut k: usize = 0;
            while k < largest.len()
                invariant
                    l == largest@,
                    k <= l.len(),
                    l.len() > 1,
                    bonus == round_up_100((price * 10 + price * 5) as int / (l.len() as int)),
                    payouts@ == l.take(k as int).map_values(
                        |id: u32| Payout { player_id: id, amount: bonus, rank: BonusRank::OneOfLargest },
                    ),
                decreases l.len() - k,
            {
                payouts.push(Payout { player_id: largest[k], amount: bonus, rank: BonusRank::OneOfLargest });
                proof {
                    assert(l.take(k + 1) =~= l.take(k as int).push(l[k as int]));
                    assert(payouts@ =~= l.take(k + 1).map_values(
                        |id: u32| Payout { player_id: id, amount: bonus, rank: BonusRank::OneOfLargest },
                    ));
                }
                k = k + 1;
            }
            proof {
                assert(l.take(l.len() as int) =~= l);
                assert(payouts@ =~= spec_payouts(l, s, price as int));
            }
        }
        assert(payouts@ == self.spec_bonuses(*chain, *hotel_chain_manager));
        pay_out(players, &payouts);
        Ok(payouts)
    }

    /// Checks if the player is one of the largest shareholders for the chain.
    pub fn is_largest_shareholder(&self, player_id: u32, chain: &HotelChain) -> (b: bool)
        ensures
            b == self.largest_shareholders.largest_shareholder.at(*chain)@.contains(player_id),
    {
        contains_id(self.largest_shareholders.largest_shareholder.get(*chain), player_id)
    }

    /// Checks if the player is one of the second largest shareholders for the chain.
    pub fn is_second_largest_shareholder(&self, player_id: u32, chain: &HotelChain) -> (b: bool)
        ensures
            b == self.largest_shareholders.second_largest_shareholder.at(*chain)@.contains(player_id),
    {
        contains_id(self.largest_shareholders.second_largest_shareholder.get(*chain), player_id)
    }
}

/// Adds every bonus to the money of the player it is paid to.
fn pay_out(players: &mut Vec<Player>, payouts: &Vec<Payout>)
    requires
        forall|k: int| 0 <= k < payouts@.len() ==> (#[trigger] payouts@[k]).player_id < old(players)@.len(),
        forall|i: int|
            0 <= i < old(players)@.len() ==> (#[trigger] old(players)@[i]).money + total_for(payouts@, i) <= u32::MAX,
    ensures
        final(players)@.len() == old(players)@.len(),
        forall|i: int|
            0 <= i < old(players)@.len() ==> #[trigger] final(players)@[i] == old(players)@[i].with_money(
                (old(players)@[i].money + total_for(payouts@, i)) as u32,
            ),
{
    let ghost initial = players@;
    let mut k: usize = 0;
    while k < payouts.len()
        invariant
            k <= payouts@.len(),
            players@.len() == initial.len(),
            initial == old(players)@,
            forall|k: int| 0 <= k < payouts@.len() ==> (#[trigger] payouts@[k]).player_id < initial.len(),
            forall|i: int| 0 <= i < initial.len() ==> (#[trigger] initial[i]).money + total_for(payouts@, i) <= u32::MAX,
            forall|i: int|
                0 <= i < initial.len() ==> #[trigger] players@[i] == initial[i].with_money(
                    (initial[i].money + total_for(payouts@.take(k as int), i)) as u32,
                ),
        decreases payouts@.len() - k,
    {
        let payout = payouts[k];
        let idx = payout.player_id as usize;
        proof {
            assert(payouts@.take(k + 1).drop_last() =~= payouts@.take(k as int));
            lemma_total_for_prefix(payouts@, k + 1, idx as int);
            lemma_total_for_prefix(payouts@, k as int, idx as int);
        }
        players[idx].add_money(payout.amount);
        proof {
            assert forall|i: int| 0 <= i < initial.len() implies #[trigger] players@[i] == initial[i].with_money(
                (initial[i].money + total_for(payouts@.take(k + 1), i)) as u32,
            ) by {
                assert(payouts@.take(k + 1).last() == payout);
                lemma_total_for_prefix(payouts@, k as int, i);
            }
        }
        k = k + 1;
    }
    proof {
        assert(payouts@.take(payouts@.len() as int) =~= payouts@);
    }
}

/// Whether the vector holds the id.
fn contains_id(v: &Vec<u32>, id: u32) -> (b: bool)
    ensures
        b == v@.contains(id),
{
    let mut i: usize = 0;
    while i < v.len()
        invariant
            i <= v@.len(),
            forall|j: int| 0 <= j < i ==> v@[j] != id,
        decreases v@.len() - i,
    {
        if v[i] == id {
            return true;
        }
        i = i + 1;
    }
    false
}

/// The largest number of stocks of the chain below `bound` that a player owns (0 if none).
fn max_holding(players: &Vec<Player>, chain: HotelChain, bound: u64) -> (m: u32)
    ensures
        m == max_below(players@, chain, bound as int),
{
    let mut m: u32 = 0;
    let mut i: usize = 0;
    while i < players.len()
        invariant
            i <= players@.len(),
            m == max_below(players@.take(i as int), chain, bound as int),
        decreases players@.len() - i,
    {
        proof {
            assert(players@.take(i + 1).drop_last() =~= players@.take(i as int));
        }
        let x = *players[i].owned_stocks.stocks_for_hotel(&chain);
        if (x as u64) < bound && x > m {
            m = x;
        }
        i = i + 1;
    }
    proof {
        assert(players@.take(players@.len() as int) =~= players@);
    }
    m
}

/// The ids of the players that own exactly `k` stocks of the chain, in order.
fn ids_with_holding(players: &Vec<Player>, chain: HotelChain, k: u32) -> (v: Vec<u32>)
    ensures
        v@ == ids_holding(players@, chain, k as int),
{
    let mut v: Vec<u32> = Vec::new();
    let mut i: usize = 0;
    while i < players.len()
        invariant
            i <= players@.len(),
            v@ == ids_holding(players@.take(i as int), chain, k as int),
        decreases players@.len() - i,
    {
        proof {
            assert(players@.take(i + 1).drop_last() =~= players@.take(i as int));
        }
        if *players[i].owned_stocks.stocks_for_hotel(&chain) == k {
            v.push(players[i].id);
        }
        i = i + 1;
    }
    proof {
        assert(players@.take(players@.len() as int) =~= players@);
    }
    v
}

/// Computes the largest and the second largest shareholders of the chain.
fn shareholders_of(players: &Vec<Player>, chain: HotelChain) -> (r: (Vec<u32>, Vec<u32>))
    ensures
        r.0@ == spec_largest(players@, chain),
        r.1@ == spec_second(players@, chain),
{
    let first = max_holding(players, chain, 0x1_0000_0000u64);
    if first == 0 {
        return (Vec::new(), Vec::new());
    }
    let largest = ids_with_holding(players, chain, first);
    if largest.len() != 1 {
        let copy = ids_with_holding(players, chain, first);
        return (largest, copy);
    }
    let next = max_holding(players, chain, first as u64);
    if next == 0 {
        let copy = ids_with_holding(players, chain, first);
        return (largest, copy);
    }
    let second = ids_with_holding(players, chain, next);
    (largest, second)
}

} // verus!
