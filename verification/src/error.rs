//! The errors of the game's operations.
use vstd::prelude::*;

use crate::board::Position;
use crate::chain::HotelChain;
use crate::placement::IllegalPlacement;

verus! {

/// Why an operation of the game was refused.
#[derive(Clone, Copy, Debug, PartialEq, Eq, Structural)]
pub enum GameError {
    /// A hotel was to be placed where one has been placed already.
    HotelAlreadyPlaced(Position),
    /// A hotel was to be changed where none has been placed.
    HotelNotPlaced(Position),
    /// The bank has no stocks of the chain left, or the chain is not active.
    NoStocksAvailable(HotelChain),
    /// The player cannot pay the stock.
    NotEnoughMoney(HotelChain),
    /// The player tried to sell more stocks than they own.
    NotEnoughStocksToSell { wanted: u32, owned: u32 },
    /// An odd number of stocks cannot be exchanged two for one.
    OddExchange(u32),
    /// The bank has too few stocks of the surviving chain left for the exchange.
    NotEnoughStocksToExchange,
    /// No largest shareholders are known for the chain.
    ShareholdersNotSet(HotelChain),
    /// A chain needs at least two hotels to be founded.
    NotEnoughBuildings(HotelChain),
    /// The chain has been founded already.
    ChainAlreadyFounded(HotelChain),
    /// The chain has not been founded.
    ChainNotFounded(HotelChain),
    /// At least one of the chains of a fusion is not active.
    FusionChainMissing { alive: HotelChain, dead: HotelChain },
    /// The player does not hold the card.
    CardNotFound(Position),
    /// A hotel must not be placed at the position, for the reason given.
    PlacementIllegal(Position, IllegalPlacement),
    /// A game is played by 2 to 6 players.
    InvalidPlayerCount(u32),
    /// The game has been started already.
    GameAlreadyStarted,
    /// The round has been started already.
    RoundAlreadyStarted,
    /// The value is not in the vector.
    ValueNotFound,
    /// A fusion takes two to four chains.
    InvalidFusionChainCount(usize),
    /// The stocks to be bought break the rules of buying.
    PurchaseNotAllowed,
    /// The order of a fusion does not name the surviving chain, or does not give each other
    /// chain its own place.
    InvalidFusionOrder,
}

} // verus!
