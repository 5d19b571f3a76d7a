//! The hotel chains of the game, their price levels and a table that holds one
//! value per chain.
use vstd::prelude::*;
use vstd::string::*;

use crate::stock::{spec_stock_price, stock_price};

verus! {

/// All different hotel chains that exist in the game.
#[derive(Clone, Copy, Debug, PartialEq, Eq, Hash, Structural)]
pub enum HotelChain {
    Airport,
    Continental,
    Festival,
    Imperial,
    Luxor,
    Oriental,
    Prestige,
}

/// The price level of a hotel chain. It raises the value of a stock.
#[derive(Clone, Copy, Debug, PartialEq, Eq, Structural)]
pub enum PriceLevel {
    Low,
    Medium,
    High,
}

/// A colour given by its red, green and blue parts.
#[derive(Clone, Copy, Debug, PartialEq, Eq, Structural)]
pub struct Rgb(pub u8, pub u8, pub u8);

/// The order in which the chains are walked through everywhere in the game.
pub open spec fn chain_order() -> Seq<HotelChain> {
    seq![
        HotelChain::Airport,
        HotelChain::Festival,
        HotelChain::Imperial,
        HotelChain::Luxor,
        HotelChain::Oriental,
        HotelChain::Prestige,
        HotelChain::Continental,
    ]
}

/// The order in which the price levels are walked through.
pub open spec fn price_level_order() -> Seq<PriceLevel> {
    seq![PriceLevel::Low, PriceLevel::Medium, PriceLevel::High]
}

/// Every chain occurs in `chain_order` exactly once.
pub proof fn lemma_chain_order_complete(c: HotelChain)
    ensures
        chain_order().contains(c),
        chain_order().len() == 7,
        chain_order().no_duplicates(),
{
    let s = chain_order();
    assert(s[0] == HotelChain::Airport);
    assert(s[1] == HotelChain::Festival);
    assert(s[2] == HotelChain::Imperial);
    assert(s[3] == HotelChain::Luxor);
    assert(s[4] == HotelChain::Oriental);
    assert(s[5] == HotelChain::Prestige);
    assert(s[6] == HotelChain::Continental);
    match c {
        HotelChain::Airport => assert(s[0] == c),
        HotelChain::Festival => assert(s[1] == c),
        HotelChain::Imperial => assert(s[2] == c),
        HotelChain::Luxor => assert(s[3] == c),
        HotelChain::Oriental => assert(s[4] == c),
        HotelChain::Prestige => assert(s[5] == c),
        HotelChain::Continental => assert(s[6] == c),
    }
}

impl HotelChain {
    pub open spec fn spec_identifier(self) -> char {
        match self {
            HotelChain::Airport => 'A',
            HotelChain::Continental => 'C',
            HotelChain::Festival => 'F',
            HotelChain::Imperial => 'I',
            HotelChain::Luxor => 'L',
            HotelChain::Oriental => 'O',
            HotelChain::Prestige => 'P',
        }
    }

    pub open spec fn spec_color(self) -> Rgb {
        match self {
            HotelChain::Airport => Rgb(107, 141, 165),
            HotelChain::Continental => Rgb(32, 64, 136),
            HotelChain::Festival => Rgb(12, 106, 88),
            HotelChain::Imperial => Rgb(198, 83, 80),
            HotelChain::Luxor => Rgb(231, 219, 0),
            HotelChain::Oriental => Rgb(184, 96, 20),
            HotelChain::Prestige => Rgb(99, 47, 107),
        }
    }

    pub open spec fn spec_price_level(self) -> PriceLevel {
        match self {
            HotelChain::Airport => PriceLevel::Low,
            HotelChain::Continental => PriceLevel::High,
            HotelChain::Festival => PriceLevel::Low,
            HotelChain::Imperial => PriceLevel::Medium,
            HotelChain::Luxor => PriceLevel::Medium,
            HotelChain::Oriental => PriceLevel::Medium,
            HotelChain::Prestige => PriceLevel::High,
        }
    }

    pub open spec fn spec_name(self) -> Seq<char> {
        match self {
            HotelChain::Airport => "Airport"@,
            HotelChain::Continental => "Continental"@,
            HotelChain::Festival => "Festival"@,
            HotelChain::Imperial => "Imperial"@,
            HotelChain::Luxor => "Luxor"@,
            HotelChain::Oriental => "Oriental"@,
            HotelChain::Prestige => "Prestige"@,
        }
    }

    /// Returns the identifier (one letter) of the hotel chain.
    pub fn identifier(&self) -> (c: char)
        ensures
            c == self.spec_identifier(),
    {
        match *self {
            HotelChain::Airport => 'A',
            HotelChain::Continental => 'C',
            HotelChain::Festival => 'F',
            HotelChain::Imperial => 'I',
            HotelChain::Luxor => 'L',
            HotelChain::Oriental => 'O',
            HotelChain::Prestige => 'P',
        }
    }

    /// Returns the colour in which the hotel chain is shown.
    pub fn color(&self) -> (c: Rgb)
        ensures
            c == self.spec_color(),
    {
        match *self {
            HotelChain::Airport => Rgb(107, 141, 165),
            HotelChain::Continental => Rgb(32, 64, 136),
            HotelChain::Festival => Rgb(12, 106, 88),
            HotelChain::Imperial => Rgb(198, 83, 80),
            HotelChain::Luxor => Rgb(231, 219, 0),
            HotelChain::Oriental => Rgb(184, 96, 20),
            HotelChain::Prestige => Rgb(99, 47, 107),
        }
    }

    /// Returns all hotel chains, in the order in which the game walks through them.
    pub fn iterator() -> (v: Vec<HotelChain>)
        ensures
            v@ == chain_order(),
    {
        let v = vec![
            HotelChain::Airport,
            HotelChain::Festival,
            HotelChain::Imperial,
            HotelChain::Luxor,
            HotelChain::Oriental,
            HotelChain::Prestige,
            HotelChain::Continental,
        ];
        assert(v@ =~= chain_order());
        v
    }

    /// Returns the value of a single stock of the hotel chain, when `number_of_hotels`
    /// hotels belong to the chain.
    pub fn stock_value(&self, number_of_hotels: u32) -> (v: u32)
        ensures
            v == spec_stock_price(self.spec_price_level(), number_of_hotels as int),
    {
        stock_price(self.price_level(), number_of_hotels)
    }

    /// Airport and Festival are the cheap chains, Imperial, Luxor and Oriental the middle
    /// ones and Continental and Prestige the dear ones: with as many hotels, a stock of a dear
    /// chain costs 100 more than one of a middle chain, which costs 100 more than one of a cheap
    /// chain.
    pub proof fn lemma_price_levels(n: int)
        ensures
            HotelChain::Airport.spec_price_level() == PriceLevel::Low,
            HotelChain::Festival.spec_price_level() == PriceLevel::Low,
            HotelChain::Imperial.spec_price_level() == PriceLevel::Medium,
            HotelChain::Luxor.spec_price_level() == PriceLevel::Medium,
            HotelChain::Oriental.spec_price_level() == PriceLevel::Medium,
            HotelChain::Continental.spec_price_level() == PriceLevel::High,
            HotelChain::Prestige.spec_price_level() == PriceLevel::High,
            n >= 2 ==> spec_stock_price(HotelChain::Luxor.spec_price_level(), n) == spec_stock_price(
                HotelChain::Airport.spec_price_level(),
                n,
            ) + 100 && spec_stock_price(HotelChain::Prestige.spec_price_level(), n) == spec_stock_price(
                HotelChain::Luxor.spec_price_level(),
                n,
            ) + 100,
    {
    }

    /// Returns the price level of the hotel chain.
    pub fn price_level(&self) -> (p: PriceLevel)
        ensures
            p == self.spec_price_level(),
    {
        match *self {
            HotelChain::Airport => PriceLevel::Low,
            HotelChain::Continental => PriceLevel::High,
            HotelChain::Festival => PriceLevel::Low,
            HotelChain::Imperial => PriceLevel::Medium,
            HotelChain::Luxor => PriceLevel::Medium,
            HotelChain::Oriental => PriceLevel::Medium,
            HotelChain::Prestige => PriceLevel::High,
        }
    }

    /// Returns the name of the hotel chain.
    pub fn name(&self) -> (s: &'static str)
        ensures
            s@ == self.spec_name(),
    {
        match *self {
            HotelChain::Airport => "Airport",
            HotelChain::Continental => "Continental",
            HotelChain::Festival => "Festival",
            HotelChain::Imperial => "Imperial",
            HotelChain::Luxor => "Luxor",
            HotelChain::Oriental => "Oriental",
            HotelChain::Prestige => "Prestige",
        }
    }

    /// The text that shows the hotel chain: its name.
    pub fn to_string(&self) -> (s: String)
        ensures
            s@ == self.spec_name(),
    {
        String::from_str(self.name())
    }
}

impl PriceLevel {
    /// Returns all price levels, from the lowest to the highest.
    pub fn iterator() -> (v: Vec<PriceLevel>)
        ensures
            v@ == price_level_order(),
    {
        let v = vec![PriceLevel::Low, PriceLevel::Medium, PriceLevel::High];
        assert(v@ =~= price_level_order());
        v
    }
}

/// One value for each of the seven hotel chains.
#[derive(Clone, Copy, Debug, PartialEq, Eq)]
pub struct PerChain<T> {
    pub airport: T,
    pub continental: T,
    pub festival: T,
    pub imperial: T,
    pub luxor: T,
    pub oriental: T,
    pub prestige: T,
}

impl<T> PerChain<T> {
    /// The value that belongs to the chain.
    pub open spec fn at(&self, c: HotelChain) -> T {
        match c {
            HotelChain::Airport => self.airport,
            HotelChain::Continental => self.continental,
            HotelChain::Festival => self.festival,
            HotelChain::Imperial => self.imperial,
            HotelChain::Luxor => self.luxor,
            HotelChain::Oriental => self.oriental,
            HotelChain::Prestige => self.prestige,
        }
    }

    /// Two tables that differ at most at the chain `c`, where `other` holds `v`.
    pub open spec fn updated(&self, c: HotelChain, v: T, other: Self) -> bool {
        &&& other.at(c) == v
        &&& forall|d: HotelChain| d != c ==> #[trigger] other.at(d) == self.at(d)
    }

    /// A table that holds the same value for every chain.
    pub fn uniform(v: T) -> (t: Self)
        where
            T: Copy,
        ensures
            forall|c: HotelChain| #[trigger] t.at(c) == v,
    {
        PerChain {
            airport: v,
            continental: v,
            festival: v,
            imperial: v,
            luxor: v,
            oriental: v,
            prestige: v,
        }
    }

    /// Returns the value that belongs to the chain.
    pub fn get(&self, c: HotelChain) -> (r: &T)
        ensures
            *r == self.at(c),
    {
        match c {
            HotelChain::Airport => &self.airport,
            HotelChain::Continental => &self.continental,
            HotelChain::Festival => &self.festival,
            HotelChain::Imperial => &self.imperial,
            HotelChain::Luxor => &self.luxor,
            HotelChain::Oriental => &self.oriental,
            HotelChain::Prestige => &self.prestige,
        }
    }

    /// Sets the value that belongs to the chain and returns the value that was there.
    pub fn replace(&mut self, c: HotelChain, v: T) -> (prev: T)
        ensures
            prev == old(self).at(c),
            old(self).updated(c, v, *final(self)),
    {
        let mut v = v;
        match c {
            HotelChain::Airport => std::mem::swap(&mut self.airport, &mut v),
            HotelChain::Continental => std::mem::swap(&mut self.continental, &mut v),
            HotelChain::Festival => std::mem::swap(&mut self.festival, &mut v),
            HotelChain::Imperial => std::mem::swap(&mut self.imperial, &mut v),
            HotelChain::Luxor => std::mem::swap(&mut self.luxor, &mut v),
            HotelChain::Oriental => std::mem::swap(&mut self.oriental, &mut v),
            HotelChain::Prestige => std::mem::swap(&mut self.prestige, &mut v),
        }
        v
    }

    /// Sets the value that belongs to the chain.
    pub fn set(&mut self, c: HotelChain, v: T)
        ensures
            old(self).updated(c, v, *final(self)),
    {
        let _ = self.replace(c, v);
    }
}

} // verus!
