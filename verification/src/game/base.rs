//! The data of a game as the terminal user interface keeps it: a board of any size, whose
//! pieces are found by their coordinates, and the cards that point to them.
use vstd::prelude::*;

use crate::chain::Rgb;
use crate::error::GameError;

verus! {

/// Contains all variables required to play a game.
pub struct Game {
    pub board: Board,
}

/// All different hotel chains in the game
#[derive(Clone, Copy, Debug, PartialEq, Eq, Structural)]
pub enum HotelChain {
    Airport,
    Continental,
    Festival,
    Imperial,
    Luxor,
    Oriental,
    Prestige,
}

impl HotelChain {
    /// Character identifier of this hotel chain
    pub fn identifier(&self) -> (c: char)
        ensures
            c == match *self {
                HotelChain::Airport => 'A',
                HotelChain::Continental => 'C',
                HotelChain::Festival => 'F',
                HotelChain::Imperial => 'I',
                HotelChain::Luxor => 'L',
                HotelChain::Oriental => 'O',
                HotelChain::Prestige => 'P',
            },
    {
        match self {
            HotelChain::Airport => 'A',
            HotelChain::Continental => 'C',
            HotelChain::Festival => 'F',
            HotelChain::Imperial => 'I',
            HotelChain::Luxor => 'L',
            HotelChain::Oriental => 'O',
            HotelChain::Prestige => 'P',
        }
    }

    /// Color of that hotel chain
    pub fn color(&self) -> (c: Rgb)
        ensures
            c == match *self {
                HotelChain::Airport => Rgb(107, 141, 165),
                HotelChain::Continental => Rgb(32, 64, 136),
                HotelChain::Festival => Rgb(12, 106, 88),
                HotelChain::Imperial => Rgb(198, 83, 80),
                HotelChain::Luxor => Rgb(231, 219, 0),
                HotelChain::Oriental => Rgb(184, 96, 20),
                HotelChain::Prestige => Rgb(99, 47, 107),
            },
    {
        match self {
            HotelChain::Airport => Rgb(107, 141, 165),
            HotelChain::Continental => Rgb(32, 64, 136),
            HotelChain::Festival => Rgb(12, 106, 88),
            HotelChain::Imperial => Rgb(198, 83, 80),
            HotelChain::Luxor => Rgb(231, 219, 0),
            HotelChain::Oriental => Rgb(184, 96, 20),
            HotelChain::Prestige => Rgb(99, 47, 107),
        }
    }
}

/// A piece on the board
#[derive(Clone, Copy, Debug, PartialEq, Eq, Structural)]
pub struct Piece {
    /// True when the piece is placed on the board.
    pub placed: bool,
    pub chain: Option<HotelChain>,
}

impl Piece {
    /// How the piece is written: the identifier of its chain, or a space.
    pub fn to_string(&self) -> (s: String)
        ensures
            s@ == match self.chain {
                None => seq![' '],
                Some(c) => seq![c.identifier_spec()],
            },
    {
        let mut s = String::new();
        match self.chain {
            None => crate::text::push_char(&mut s, ' '),
            Some(c) => crate::text::push_char(&mut s, c.identifier()),
        }
        assert(s@ =~= match self.chain {
            None => seq![' '],
            Some(c) => seq![c.identifier_spec()],
        });
        s
    }
}

impl HotelChain {
    /// The character identifier of the chain.
    pub open spec fn identifier_spec(self) -> char {
        match self {
            HotelChain::Airport => 'A',
            HotelChain::Continental => 'C',
            HotelChain::Festival => 'F',
            HotelChain::Imperial => 'I',
            HotelChain::Luxor => 'L',
            HotelChain::Oriental => 'O',
            HotelChain::Prestige => 'P',
        }
    }
}

/// The board on which the hotels are placed.
///
/// Stores currently placed hotels.
pub struct Board {
    /// The pieces on the board
    ///
    /// pieces[0] is y coordinate
    ///
    /// pieces[1] is x coordinate
    pub pieces: Vec<Vec<Piece>>,
}

/// The board has `rows` rows of `columns` pieces each, none of them placed.
pub open spec fn empty_board(b: Board, rows: int, columns: int) -> bool {
    &&& b.pieces@.len() == rows
    &&& forall|i: int|
        0 <= i < rows ==> (#[trigger] b.pieces@[i])@.len() == columns && forall|j: int|
            0 <= j < columns ==> (#[trigger] b.pieces@[i]@[j]) == (Piece { placed: false, chain: None })
}

impl Board {
    /// Create a new board with the specified dimensions: `dimensions.1` rows of
    /// `dimensions.0` pieces each.
    pub fn new(dimensions: (u8, u8)) -> (r: Result<Self, GameError>)
        ensures
            r matches Ok(b) && empty_board(b, dimensions.1 as int, dimensions.0 as int),
    {
        let mut pieces: Vec<Vec<Piece>> = Vec::new();
        let mut i: u8 = 0;
        while i < dimensions.1
            invariant
                i <= dimensions.1,
                pieces@.len() == i,
                forall|k: int|
                    0 <= k < i ==> (#[trigger] pieces@[k])@.len() == dimensions.0 && forall|j: int|
                        0 <= j < dimensions.0 ==> (#[trigger] pieces@[k]@[j]) == (Piece { placed: false, chain: None }),
            decreases dimensions.1 - i,
        {
            let mut inner: Vec<Piece> = Vec::new();
            let mut j: u8 = 0;
            while j < dimensions.0
                invariant
                    j <= dimensions.0,
                    inner@.len() == j,
                    forall|k: int| 0 <= k < j ==> (#[trigger] inner@[k]) == (Piece { placed: false, chain: None }),
                decreases dimensions.0 - j,
            {
                inner.push(Piece { placed: false, chain: None });
                j = j + 1;
            }
            pieces.push(inner);
            i = i + 1;
        }
        Ok(Self { pieces })
    }
}

impl Default for Board {
    /// The board of the game: 12 rows of 9 pieces each.
    fn default() -> (b: Self)
        ensures
            empty_board(b, 12, 9),
    {
        Self::new((9, 12)).unwrap()
    }
}

/// A card that a player can play to place a hotel on the board.
pub struct Card {
    pub num: u8,
    pub letter: char,
}

impl Card {
    /// Returns the coordinates of this card in the vector: the number counted from 0, and the
    /// letter counted from `A` (by the lowest byte of its code).
    pub fn to_vec_coordinates(&self) -> (r: (u8, u8))
        requires
            self.num >= 1,
            (self.letter as u32) % 256 >= 65,
        ensures
            r.0 == self.num - 1,
            r.1 == (self.letter as u32) % 256 - 65,
    {
        let x = self.num - 1;
        let code: u32 = self.letter as u32;
        let low: u8 = (code % 256) as u8;
        let y = low - 65;
        (x, y)
    }
}

} // verus!
