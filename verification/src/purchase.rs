//! Buying stocks at the end of a turn: at most three stocks of active chains, as far as the
//! player's money and the bank's stocks go.
use vstd::prelude::*;

use crate::bank::Bank;
use crate::chain::HotelChain;
use crate::chain_manager::HotelChainManager;
use crate::error::GameError;
use crate::fusion::price_of;
use crate::player::Player;

verus! {

/// How many stocks at the price the money pays for, at most three.
pub open spec fn spec_affordable(money: int, price: int) -> int {
    if money >= 3 * price {
        3
    } else if money >= 2 * price {
        2
    } else if money >= price {
        1
    } else {
        0
    }
}

/// How many stocks of a chain the player may still buy: as many as the money pays for, at
/// most the stocks that the player may still buy this turn and at most the stocks the bank has
/// left.
pub open spec fn spec_can_buy(money: int, stocks_left: int, price: int, bank_available: int) -> int {
    let a = spec_affordable(money, price);
    let b = if a <= stocks_left {
        a
    } else {
        stocks_left
    };
    if b <= bank_available {
        b
    } else {
        bank_available
    }
}

/// The number of stocks a player is offered is the most they may buy: no more than three, no
/// more than they may still buy this turn, no more than the bank has left and no more than
/// their money pays for; and it is one of these limits, so one stock more would break one.
pub proof fn lemma_can_buy_is_the_most(money: u32, stocks_left: u32, price: u32, bank_available: u32)
    ensures
        ({
            let r = spec_can_buy(money as int, stocks_left as int, price as int, bank_available as int);
            &&& 0 <= r <= 3
            &&& r <= stocks_left
            &&& r <= bank_available
            &&& r * price <= money
            &&& r == 3 || r == stocks_left || r == bank_available || (r + 1) * price > money
        }),
{
    let r = spec_can_buy(money as int, stocks_left as int, price as int, bank_available as int);
    let a = spec_affordable(money as int, price as int);
    assert(a * price <= money && (a == 3 || (a + 1) * price > money)) by (nonlinear_arith)
        requires
            a == spec_affordable(money as int, price as int),
            0 <= price,
            0 <= money,
    ;
    assert(r <= a);
    assert(r * price <= a * price) by (nonlinear_arith)
        requires
            0 <= r <= a,
            0 <= price,
    ;
}

/// Returns how many stocks of a chain the player may still buy.
pub fn stocks_can_be_bought(money_available: u32, stocks_left: u32, stock_price: u32, bank_available: u32) -> (n: u32)
    ensures
        n == spec_can_buy(money_available as int, stocks_left as int, stock_price as int, bank_available as int),
{
    let money = money_available as u64;
    let price = stock_price as u64;
    let mut money_for_stocks: u32 = 0;
    if money >= price {
        money_for_stocks = 1;
    }
    if money >= price * 2 {
        money_for_stocks = 2;
    }
    if money >= price * 3 {
        money_for_stocks = 3;
    }
    let mut n = if money_for_stocks <= stocks_left {
        money_for_stocks
    } else {
        stocks_left
    };
    if bank_available < n {
        n = bank_available;
    }
    n
}

/// The number of stocks of the chain in the purchases.
pub open spec fn bought(p: Seq<(HotelChain, u32)>, c: HotelChain) -> int
    decreases p.len(),
{
    if p.len() == 0 {
        0
    } else {
        bought(p.drop_last(), c) + if p.last().0 == c {
            p.last().1 as int
        } else {
            0
        }
    }
}

/// The number of stocks in the purchases.
pub open spec fn total_count(p: Seq<(HotelChain, u32)>) -> int
    decreases p.len(),
{
    if p.len() == 0 {
        0
    } else {
        total_count(p.drop_last()) + p.last().1
    }
}

/// What the purchases cost at the current prices.
pub open spec fn total_cost(p: Seq<(HotelChain, u32)>, m: HotelChainManager) -> int
    decreases p.len(),
{
    if p.len() == 0 {
        0
    } else {
        total_cost(p.drop_last(), m) + p.last().1 * price_of(p.last().0, m)
    }
}

/// The purchases keep the rules: only stocks of active chains, at most three in all, no more of
/// a chain than the bank has left, and no more than the player's money pays for.
pub open spec fn purchase_allowed(p: Seq<(HotelChain, u32)>, bank: Bank, m: HotelChainManager, money: int) -> bool {
    &&& forall|i: int| 0 <= i < p.len() ==> m.is_active((#[trigger] p[i]).0)
    &&& total_count(p) <= 3
    &&& forall|c: HotelChain| #[trigger] bought(p, c) <= bank.stocks_for_sale.count(c)
    &&& total_cost(p, m) <= money
}

/// A purchase of stocks of one active chain keeps the rules exactly when it buys no more
/// than the number of stocks the player is offered with three stocks still allowed this turn.
pub proof fn lemma_single_purchase(c: HotelChain, n: u32, bank: Bank, m: HotelChainManager, money: u32)
    requires
        m.is_active(c),
        price_of(c, m) > 0,
    ensures
        purchase_allowed(seq![(c, n)], bank, m, money as int) <==> n <= spec_can_buy(
            money as int,
            3,
            price_of(c, m),
            bank.stocks_for_sale.count(c) as int,
        ),
{
    let p = seq![(c, n)];
    let price = price_of(c, m);
    assert(p.drop_last() =~= Seq::<(HotelChain, u32)>::empty());
    assert(p.last() == (c, n));
    reveal_with_fuel(total_count, 2);
    reveal_with_fuel(total_cost, 2);
    reveal_with_fuel(bought, 2);
    assert(total_count(p) == n);
    assert(total_cost(p, m) == n * price);
    assert forall|d: HotelChain| #[trigger] bought(p, d) == if d == c { n as int } else { 0 } by {}
    assert forall|i: int| 0 <= i < p.len() implies m.is_active((#[trigger] p[i]).0) by {}
    let a = spec_affordable(money as int, price);
    assert((n * price <= money && n <= 3) <==> n <= a) by (nonlinear_arith)
        requires
            a == spec_affordable(money as int, price),
            price > 0,
            0 <= n,
            0 <= money,
    ;
    let b = bank.stocks_for_sale.count(c) as int;
    assert(a <= 3);
    assert(spec_can_buy(money as int, 3, price, b) == if a <= b { a } else { b });
    if n <= spec_can_buy(money as int, 3, price, b) {
        assert(n <= a && n <= b);
        assert(forall|d: HotelChain| #[trigger] bought(p, d) <= bank.stocks_for_sale.count(d));
        assert(purchase_allowed(p, bank, m, money as int));
    }
    if purchase_allowed(p, bank, m, money as int) {
        assert(bought(p, c) <= bank.stocks_for_sale.count(c));
        assert(n <= b);
        assert(n <= a);
    }
}

/// The sums over a prefix of the purchases are no larger than over all of them, and none is
/// negative.
proof fn lemma_prefix_sums(p: Seq<(HotelChain, u32)>, k: int, m: HotelChainManager)
    requires
        0 <= k <= p.len(),
    ensures
        forall|c: HotelChain|
            0 <= #[trigger] bought(p.take(k), c) && bought(p.take(k), c) + (if k < p.len() && p[k].0 == c {
                p[k].1 as int
            } else {
                0
            }) <= bought(p, c),
        0 <= total_count(p.take(k)) <= total_count(p),
        0 <= total_cost(p.take(k), m) && total_cost(p.take(k), m) + (if k < p.len() {
            p[k].1 * price_of(p[k].0, m)
        } else {
            0
        }) <= total_cost(p, m),
    decreases p.len() - k,
{
    if k < p.len() {
        lemma_prefix_sums(p, k + 1, m);
        lemma_sums_nonneg(p.take(k), m);
        let t = p.take(k + 1);
        assert(t.drop_last() =~= p.take(k));
        assert(t.last() == p[k]);
        assert(0 <= p[k].1 * price_of(p[k].0, m)) by (nonlinear_arith)
            requires
                0 <= p[k].1,
                0 <= price_of(p[k].0, m),
        ;
        assert forall|c: HotelChain|
            0 <= #[trigger] bought(p.take(k), c) && bought(p.take(k), c) + (if k < p.len() && p[k].0 == c {
                p[k].1 as int
            } else {
                0
            }) <= bought(p, c) by {
            assert(bought(t, c) == bought(p.take(k), c) + (if p[k].0 == c {
                p[k].1 as int
            } else {
                0
            }));
            assert(0 <= bought(t, c));
            assert(0 <= bought(p.take(k), c));
            assert(bought(t, c) + (if k + 1 < p.len() && p[k + 1].0 == c {
                p[k + 1].1 as int
            } else {
                0
            }) <= bought(p, c));
        }
        assert(total_count(t) == total_count(p.take(k)) + p[k].1);
        assert(total_cost(t, m) == total_cost(p.take(k), m) + p[k].1 * price_of(p[k].0, m));
    } else {
        assert(p.take(k) =~= p);
        lemma_sums_nonneg(p, m);
    }
}

/// No sum over purchases is negative.
proof fn lemma_sums_nonneg(p: Seq<(HotelChain, u32)>, m: HotelChainManager)
    ensures
        forall|c: HotelChain| 0 <= #[trigger] bought(p, c),
        0 <= total_count(p),
        0 <= total_cost(p, m),
    decreases p.len(),
{
    if p.len() > 0 {
        lemma_sums_nonneg(p.drop_last(), m);
        assert(0 <= p.last().1 * price_of(p.last().0, m)) by (nonlinear_arith)
            requires
                0 <= p.last().1,
                0 <= price_of(p.last().0, m),
        ;
        assert forall|c: HotelChain| 0 <= #[trigger] bought(p, c) by {
            assert(0 <= bought(p.drop_last(), c));
        }
    }
}

/// No chain is bought more often than stocks are bought.
proof fn lemma_bought_le_count(p: Seq<(HotelChain, u32)>, c: HotelChain)
    ensures
        bought(p, c) <= total_count(p),
    decreases p.len(),
{
    if p.len() > 0 {
        lemma_bought_le_count(p.drop_last(), c);
    }
}

/// Checks the purchases against the rules.
fn check_purchase(purchases: &Vec<(HotelChain, u32)>, player: &Player, bank: &Bank, m: &HotelChainManager) -> (b:
    bool)
    requires
        m.wf(),
    ensures
        b == purchase_allowed(purchases@, *bank, *m, player.money as int),
{
    let ghost p = purchases@;
    let n = purchases.len();
    let mut count: u64 = 0;
    let mut cost: u64 = 0;
    let mut i: usize = 0;
    while i < n
        invariant
            n == p.len(),
            p == purchases@,
            m.wf(),
            i <= n,
            count == total_count(p.take(i as int)),
            cost == total_cost(p.take(i as int), *m),
            count <= 3,
            cost <= player.money,
            forall|j: int| 0 <= j < i ==> m.is_active((#[trigger] p[j]).0),
        decreases n - i,
    {
        let (c, k) = purchases[i];
        proof {
            assert(p.take(i + 1).drop_last() =~= p.take(i as int));
            assert(p.take(i + 1).last() == p[i as int]);
        }
        if !m.chain_status(&c) {
            return false;
        }
        if count + k as u64 > 3 {
            proof {
                lemma_prefix_sums(p, i + 1, *m);
            }
            return false;
        }
        let price = Bank::stock_price(m, &c) as u64;
        let k64 = k as u64;
        assert(k64 * price <= 3 * 1200) by (nonlinear_arith)
            requires
                k64 <= 3,
                price <= 1200,
        ;
        if cost + k64 * price > player.money as u64 {
            proof {
                lemma_prefix_sums(p, i + 1, *m);
            }
            return false;
        }
        count = count + k as u64;
        cost = cost + k64 * price;
        i = i + 1;
    }
    proof {
        assert(p.take(n as int) =~= p);
    }
    let chains = HotelChain::iterator();
    let mut j: usize = 0;
    while j < chains.len()
        invariant
            chains@ == crate::chain::chain_order(),
            j <= chains@.len(),
            p == purchases@,
            n == p.len(),
            total_count(p) <= 3,
            m.wf(),
            forall|a: int| 0 <= a < j ==> bought(p, #[trigger] chains@[a]) <= bank.stocks_for_sale.count(chains@[a]),
        decreases chains@.len() - j,
    {
        let c = chains[j];
        let mut sum: u64 = 0;
        let mut i: usize = 0;
        while i < n
            invariant
                n == p.len(),
                p == purchases@,
                total_count(p) <= 3,
                i <= n,
                sum == bought(p.take(i as int), c),
            decreases n - i,
        {
            proof {
                assert(p.take(i + 1).drop_last() =~= p.take(i as int));
                assert(p.take(i + 1).last() == p[i as int]);
                lemma_bought_le_count(p.take(i + 1), c);
                lemma_prefix_sums(p, i + 1, *m);
            }
            if purchases[i].0 == c {
                sum = sum + purchases[i].1 as u64;
            }
            i = i + 1;
        }
        proof {
            assert(p.take(n as int) =~= p);
        }
        if sum > *bank.stocks_for_sale.stocks_for_hotel(&c) as u64 {
            return false;
        }
        j = j + 1;
    }
    proof {
        assert forall|c: HotelChain| #[trigger] bought(p, c) <= bank.stocks_for_sale.count(c) by {
            crate::chain::lemma_chain_order_complete(c);
            let a = choose|a: int| 0 <= a < 7 && chains@[a] == c;
            assert(bought(p, chains@[a]) <= bank.stocks_for_sale.count(chains@[a]));
        }
    }
    true
}

impl Player {
    /// The player buys the stocks of the purchases (a chain and a number of its stocks each),
    /// one after the other, from the bank at the current prices. The purchases must keep the
    /// rules of buying: at most three stocks of active chains, as far as the bank's stocks and
    /// the player's money go.
    /// # Returns
    /// * `Ok(())` - When the stocks were bought
    /// * `Err` - When the purchases break the rules; then nothing was bought
    pub fn buy_stocks(&mut self, bank: &mut Bank, hotel_chain_manager: &HotelChainManager, purchases: &Vec<
        (HotelChain, u32),
    >) -> (r: Result<(), GameError>)
        requires
            hotel_chain_manager.wf(),
            forall|c: HotelChain| #[trigger] old(self).owned_stocks.count(c) + 3 <= u32::MAX,
        ensures
            r is Ok <==> purchase_allowed(purchases@, *old(bank), *hotel_chain_manager, old(self).money as int),
            r is Err ==> r == Err::<(), GameError>(GameError::PurchaseNotAllowed) && *final(self) == *old(self)
                && *final(bank) == *old(bank),
            r is Ok ==> {
                &&& *final(self) == old(self).with_stocks(final(self).owned_stocks).with_money(
                    (old(self).money - total_cost(purchases@, *hotel_chain_manager)) as u32,
                )
                &&& forall|c: HotelChain|
                    #[trigger] final(self).owned_stocks.count(c) == old(self).owned_stocks.count(c) + bought(
                        purchases@,
                        c,
                    )
                &&& forall|c: HotelChain|
                    #[trigger] final(bank).stocks_for_sale.count(c) == old(bank).stocks_for_sale.count(c) - bought(
                        purchases@,
                        c,
                    )
                &&& final(bank).largest_shareholders == old(bank).largest_shareholders
            },
    {
        if !check_purchase(purchases, self, bank, hotel_chain_manager) {
            return Err(GameError::PurchaseNotAllowed);
        }
        let ghost p = purchases@;
        let ghost p0 = *self;
        let ghost b0 = *bank;
        let n = purchases.len();
        let mut i: usize = 0;
        proof {
            lemma_bought_le_count(p, HotelChain::Airport);
            assert(p.take(0) =~= Seq::<(HotelChain, u32)>::empty());
        }
        while i < n
            invariant
                n == p.len(),
                p == purchases@,
                hotel_chain_manager.wf(),
                purchase_allowed(p, b0, *hotel_chain_manager, p0.money as int),
                forall|c: HotelChain| #[trigger] p0.owned_stocks.count(c) + 3 <= u32::MAX,
                i <= n,
                *self == p0.with_stocks(self.owned_stocks).with_money(
                    (p0.money - total_cost(p.take(i as int), *hotel_chain_manager)) as u32,
                ),
                p0.money - total_cost(p.take(i as int), *hotel_chain_manager) >= 0,
                bank.largest_shareholders == b0.largest_shareholders,
                forall|c: HotelChain|
                    #[trigger] self.owned_stocks.count(c) == p0.owned_stocks.count(c) + bought(p.take(i as int), c),
                forall|c: HotelChain|
                    #[trigger] bank.stocks_for_sale.count(c) == b0.stocks_for_sale.count(c) - bought(p.take(i as int), c),
            decreases n - i,
        {
            let (c, k) = purchases[i];
            let ghost t = p.take(i as int);
            proof {
                lemma_prefix_sums(p, i as int, *hotel_chain_manager);
                lemma_sums_nonneg(t, *hotel_chain_manager);
                lemma_bought_le_count(p, c);
                assert(p.take(i + 1).drop_last() =~= t);
                assert(p.take(i + 1).last() == p[i as int]);
            }
            let ghost price = price_of(c, *hotel_chain_manager);
            let mut j: u32 = 0;
            while j < k
                invariant
                    hotel_chain_manager.wf(),
                    hotel_chain_manager.is_active(c),
                    j <= k,
                    price == price_of(c, *hotel_chain_manager),
                    bought(t, c) + k <= bought(p, c),
                    bought(p, c) <= b0.stocks_for_sale.count(c),
                    bought(p, c) <= 3,
                    bought(t, c) >= 0,
                    total_cost(t, *hotel_chain_manager) >= 0,
                    p0.money - total_cost(t, *hotel_chain_manager) >= k * price,
                    price >= 0,
                    forall|d: HotelChain| #[trigger] p0.owned_stocks.count(d) + 3 <= u32::MAX,
                    *self == p0.with_stocks(self.owned_stocks).with_money(
                        (p0.money - total_cost(t, *hotel_chain_manager) - j * price) as u32,
                    ),
                    bank.largest_shareholders == b0.largest_shareholders,
                    forall|d: HotelChain|
                        #[trigger] self.owned_stocks.count(d) == p0.owned_stocks.count(d) + bought(t, d) + (if d == c {
                            j as int
                        } else {
                            0
                        }),
                    forall|d: HotelChain|
                        #[trigger] bank.stocks_for_sale.count(d) == b0.stocks_for_sale.count(d) - bought(t, d) - (if d
                            == c {
                            j as int
                        } else {
                            0
                        }),
                decreases k - j,
            {
                assert(p0.money - total_cost(t, *hotel_chain_manager) - j * price >= price) by (nonlinear_arith)
                    requires
                        p0.money - total_cost(t, *hotel_chain_manager) >= k * price,
                        j < k,
                        price >= 0,
                ;
                assert(0 <= j * price) by (nonlinear_arith)
                    requires
                        price >= 0,
                ;
                assert(total_cost(t, *hotel_chain_manager) >= 0);
                assert(self.money == p0.money - total_cost(t, *hotel_chain_manager) - j * price);
                assert(self.owned_stocks.count(c) < u32::MAX);
                assert(bank.stocks_for_sale.count(c) > 0);
                assert(bank.available(c, *hotel_chain_manager) > 0);
                let ghost before = self.owned_stocks;
                let bought_one = bank.buy_stock(hotel_chain_manager, &c, self);
                assert(bought_one is Ok);
                assert forall|d: HotelChain| #[trigger] self.owned_stocks.count(d) == before.count(d) + (if d == c {
                    1int
                } else {
                    0
                }) by {
                    assert(before.updated(c, (before.count(c) + 1) as u32, self.owned_stocks));
                }
                assert((j + 1) * price == j * price + price) by (nonlinear_arith);
                j = j + 1;
            }
            proof {
                assert(total_cost(p.take(i + 1), *hotel_chain_manager) == total_cost(t, *hotel_chain_manager) + k
                    * price);
                assert forall|d: HotelChain| #[trigger] bought(p.take(i + 1), d) == bought(t, d) + (if d == c {
                    k as int
                } else {
                    0
                }) by {}
            }
            i = i + 1;
        }
        proof {
            assert(p.take(n as int) =~= p);
        }
        Ok(())
    }
}

} // verus!
