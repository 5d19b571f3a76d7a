//! Stocks of the hotel chains and their prices.
use vstd::prelude::*;

use crate::chain::{HotelChain, PerChain, PriceLevel};

verus! {

/// How many stocks a player owns, or the bank has left, of each hotel chain.
#[derive(Clone, Copy, Debug, PartialEq, Eq)]
pub struct Stocks {
    pub stocks: PerChain<u32>,
}

impl Stocks {
    /// The number of stocks of the chain.
    pub open spec fn count(&self, c: HotelChain) -> u32 {
        self.stocks.at(c)
    }

    /// Two stock tables that differ at most at the chain `c`, where `other` holds `v`.
    pub open spec fn updated(&self, c: HotelChain, v: u32, other: Stocks) -> bool {
        self.stocks.updated(c, v, other.stocks)
    }

    /// A table with no stocks.
    pub fn new() -> (s: Self)
        ensures
            forall|c: HotelChain| #[trigger] s.count(c) == 0,
    {
        Stocks { stocks: PerChain::uniform(0) }
    }

    /// A table with the 25 stocks of every chain that the bank holds at the start.
    pub fn new_bank() -> (s: Self)
        ensures
            forall|c: HotelChain| #[trigger] s.count(c) == 25,
    {
        Stocks { stocks: PerChain::uniform(25) }
    }

    /// Returns the number of stocks of the chain.
    pub fn stocks_for_hotel(&self, chain: &HotelChain) -> (r: &u32)
        ensures
            *r == self.count(*chain),
    {
        self.stocks.get(*chain)
    }

    /// Sets the number of stocks of the chain to `value`.
    pub fn set_stocks(&mut self, chain: &HotelChain, value: u32)
        ensures
            old(self).updated(*chain, value, *final(self)),
    {
        self.stocks.set(*chain, value);
    }

    /// Increases the number of stocks of the chain by `value`.
    pub fn increase_stocks(&mut self, chain: &HotelChain, value: u32)
        requires
            old(self).count(*chain) + value <= u32::MAX,
        ensures
            old(self).updated(*chain, (old(self).count(*chain) + value) as u32, *final(self)),
    {
        let v = *self.stocks.get(*chain);
        self.stocks.set(*chain, v + value);
    }

    /// Decreases the number of stocks of the chain by `value`.
    pub fn decrease_stocks(&mut self, chain: &HotelChain, value: u32)
        requires
            old(self).count(*chain) >= value,
        ensures
            old(self).updated(*chain, (old(self).count(*chain) - value) as u32, *final(self)),
    {
        let v = *self.stocks.get(*chain);
        self.stocks.set(*chain, v - value);
    }
}

/// The step of the price table that a chain of `n` hotels stands on.
pub open spec fn price_step(n: int) -> int {
    if n <= 2 {
        0
    } else if n == 3 {
        1
    } else if n == 4 {
        2
    } else if n == 5 {
        3
    } else if n <= 10 {
        4
    } else if n <= 20 {
        5
    } else if n <= 30 {
        6
    } else if n <= 40 {
        7
    } else {
        8
    }
}

/// How many steps the price level adds to the price table.
pub open spec fn price_offset(level: PriceLevel) -> int {
    match level {
        PriceLevel::Low => 0,
        PriceLevel::Medium => 1,
        PriceLevel::High => 2,
    }
}

/// The base prices of a single stock: 200, 300, ..., 1200.
pub open spec fn base_price(step: int) -> int {
    200 + 100 * step
}

/// The price of a single stock of a chain of the price level with `n` hotels.
/// A chain of fewer than two hotels has stocks that are worth nothing.
pub open spec fn spec_stock_price(level: PriceLevel, n: int) -> int {
    if n < 2 {
        0
    } else {
        base_price(price_step(n) + price_offset(level))
    }
}

/// Calculates the current price of a single stock.
/// # Arguments
/// * `price_level` - The price level of the chain
/// * `number_of_hotels` - The number of hotels that belong to the chain
pub fn stock_price(price_level: PriceLevel, number_of_hotels: u32) -> (p: u32)
    ensures
        p == spec_stock_price(price_level, number_of_hotels as int),
{
    if number_of_hotels < 2 {
        return 0;
    }
    let offset: u32 = match price_level {
        PriceLevel::Low => 0,
        PriceLevel::Medium => 1,
        PriceLevel::High => 2,
    };
    let step: u32 = if number_of_hotels == 2 {
        0
    } else if number_of_hotels == 3 {
        1
    } else if number_of_hotels == 4 {
        2
    } else if number_of_hotels == 5 {
        3
    } else if number_of_hotels <= 10 {
        4
    } else if number_of_hotels <= 20 {
        5
    } else if number_of_hotels <= 30 {
        6
    } else if number_of_hotels <= 40 {
        7
    } else {
        8
    };
    200 + 100 * (step + offset)
}

/// A stock never costs more than 1200: the highest entry of the price table.
pub proof fn lemma_stock_price_bounded(level: PriceLevel, n: int)
    ensures
        0 <= spec_stock_price(level, n) <= 1200,
{
}

/// A chain with more hotels has stocks that are worth at least as much.
pub proof fn lemma_stock_price_monotonic_in_hotels(level: PriceLevel, n: int, m: int)
    requires
        n <= m,
    ensures
        spec_stock_price(level, n) <= spec_stock_price(level, m),
{
}

/// With the same number of hotels, a higher price level gives a price at least as high.
pub proof fn lemma_stock_price_monotonic_in_level(low: PriceLevel, high: PriceLevel, n: int)
    requires
        price_offset(low) <= price_offset(high),
    ensures
        spec_stock_price(low, n) <= spec_stock_price(high, n),
{
}

/// The price table of a stock: a chain of 2, 3, 4 or 5 hotels of the low price level costs
/// 200, 300, 400 or 500; of 6 to 10 hotels 600; of 11 to 20 hotels 700; of 21 to 30 hotels
/// 800; of 31 to 40 hotels 900; of 41 or more 1000. The medium level costs 100 more and the
/// high level 200 more; a chain of fewer than two hotels has stocks worth nothing.
pub proof fn lemma_stock_price_table(n: int)
    ensures
        n < 2 ==> spec_stock_price(PriceLevel::Low, n) == 0 && spec_stock_price(PriceLevel::Medium, n) == 0
            && spec_stock_price(PriceLevel::High, n) == 0,
        n == 2 ==> spec_stock_price(PriceLevel::Low, n) == 200,
        n == 3 ==> spec_stock_price(PriceLevel::Low, n) == 300,
        n == 4 ==> spec_stock_price(PriceLevel::Low, n) == 400,
        n == 5 ==> spec_stock_price(PriceLevel::Low, n) == 500,
        6 <= n <= 10 ==> spec_stock_price(PriceLevel::Low, n) == 600,
        11 <= n <= 20 ==> spec_stock_price(PriceLevel::Low, n) == 700,
        21 <= n <= 30 ==> spec_stock_price(PriceLevel::Low, n) == 800,
        31 <= n <= 40 ==> spec_stock_price(PriceLevel::Low, n) == 900,
        n >= 41 ==> spec_stock_price(PriceLevel::Low, n) == 1000,
        n >= 2 ==> spec_stock_price(PriceLevel::Medium, n) == spec_stock_price(PriceLevel::Low, n) + 100
            && spec_stock_price(PriceLevel::High, n) == spec_stock_price(PriceLevel::Low, n) + 200,
{
}

} // verus!
