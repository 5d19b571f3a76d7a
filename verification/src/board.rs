//! The game board: positions, the pieces that stand on it and the board itself.
use vstd::prelude::*;

use crate::chain::HotelChain;
use crate::error::GameError;

verus! {

/// The letters of the rows of the board, from the top to the bottom.
pub const LETTERS: [char; 9] = ['A', 'B', 'C', 'D', 'E', 'F', 'G', 'H', 'I'];

/// The number of rows of the board.
pub const ROWS: usize = 9;

/// The number of columns of the board.
pub const COLUMNS: usize = 12;

/// The letters of the rows, as a sequence.
pub open spec fn letters() -> Seq<char> {
    seq!['A', 'B', 'C', 'D', 'E', 'F', 'G', 'H', 'I']
}

/// The row of the letter, if the letter names a row.
pub open spec fn spec_letter_index(letter: char) -> Option<int> {
    if letter == 'A' {
        Some(0)
    } else if letter == 'B' {
        Some(1)
    } else if letter == 'C' {
        Some(2)
    } else if letter == 'D' {
        Some(3)
    } else if letter == 'E' {
        Some(4)
    } else if letter == 'F' {
        Some(5)
    } else if letter == 'G' {
        Some(6)
    } else if letter == 'H' {
        Some(7)
    } else if letter == 'I' {
        Some(8)
    } else {
        None
    }
}

/// The letter of the row below, if there is one.
pub open spec fn spec_next_letter(letter: char) -> Option<char> {
    match spec_letter_index(letter) {
        Some(i) => if i < 8 { Some(letters()[i + 1]) } else { None },
        None => None,
    }
}

/// The letter of the row above, if there is one.
pub open spec fn spec_prev_letter(letter: char) -> Option<char> {
    match spec_letter_index(letter) {
        Some(i) => if i > 0 { Some(letters()[i - 1]) } else { None },
        None => None,
    }
}

/// The letter at a row names that row again.
pub proof fn lemma_letters_indexed(i: int)
    requires
        0 <= i < 9,
    ensures
        spec_letter_index(letters()[i]) == Some(i),
{
    let s = letters();
    assert(s[0] == 'A' && s[1] == 'B' && s[2] == 'C' && s[3] == 'D' && s[4] == 'E');
    assert(s[5] == 'F' && s[6] == 'G' && s[7] == 'H' && s[8] == 'I');
}

/// A letter names a row only if it is the letter of that row.
pub proof fn lemma_letter_index_inverse(letter: char)
    ensures
        spec_letter_index(letter) matches Some(i) ==> 0 <= i < 9 && letters()[i] == letter,
{
    let s = letters();
    assert(s[0] == 'A' && s[1] == 'B' && s[2] == 'C' && s[3] == 'D' && s[4] == 'E');
    assert(s[5] == 'F' && s[6] == 'G' && s[7] == 'H' && s[8] == 'I');
}

/// Going one column right and then one left comes back to the position, and so does going
/// one left and then one right, for the columns of the board.
pub proof fn lemma_next_prev_inverse(p: Position)
    requires
        1 <= p.number <= 12,
    ensures
        spec_next(p) matches Some(q) ==> spec_prev(q) == Some(p),
        spec_prev(p) matches Some(q) ==> spec_next(q) == Some(p),
{
}

/// Going one row down and then one up comes back to the position, and so does going one row
/// up and then one down.
pub proof fn lemma_up_down_inverse(p: Position)
    ensures
        spec_down(p) matches Some(q) ==> spec_up(q) == Some(p),
        spec_up(p) matches Some(q) ==> spec_down(q) == Some(p),
{
    lemma_letter_index_inverse(p.letter);
    if let Some(i) = spec_letter_index(p.letter) {
        if i < 8 {
            lemma_letters_indexed(i + 1);
        }
        if i > 0 {
            lemma_letters_indexed(i - 1);
        }
    }
}

/// Returns the letter of the row `i`.
pub fn letter_at(i: usize) -> (c: char)
    requires
        i < 9,
    ensures
        c == letters()[i as int],
{
    proof {
        assert(LETTERS@ =~= letters());
    }
    LETTERS[i]
}

/// Returns the row of the letter, if the letter names a row.
fn letter_to_index(letter: char) -> (r: Option<usize>)
    ensures
        r matches Some(i) ==> spec_letter_index(letter) == Some(i as int),
        r is None ==> spec_letter_index(letter) is None,
{
    let mut index: usize = 0;
    while index < 9
        invariant
            index <= 9,
            forall|j: int| 0 <= j < index ==> letters()[j] != letter,
        decreases 9 - index,
    {
        if letter == letter_at(index) {
            proof {
                lemma_letters_indexed(index as int);
            }
            return Some(index);
        }
        index = index + 1;
    }
    proof {
        lemma_letter_index_inverse(letter);
    }
    None
}

/// Returns the next letter if there is one.
/// B would return C
pub fn next_letter(letter: char) -> (r: Option<char>)
    ensures
        r == spec_next_letter(letter),
{
    let index = letter_to_index(letter);
    match index {
        None => None,
        Some(i) => {
            if i == 8 {
                None
            } else {
                Some(letter_at(i + 1))
            }
        },
    }
}

/// Returns the previous letter if there is one.
/// B would return A
pub fn prev_letter(letter: char) -> (r: Option<char>)
    ensures
        r == spec_prev_letter(letter),
{
    let index = letter_to_index(letter);
    match index {
        None => None,
        Some(i) => {
            if i == 0 {
                None
            } else {
                Some(letter_at(i - 1))
            }
        },
    }
}

/// Symbolizes a position on the board.
#[derive(Clone, Copy, Debug, PartialEq, Eq, Hash, Structural)]
pub struct Position {
    pub letter: char,
    pub number: u32,
}

/// The position of the same row, one column further right, if the board has a column there.
pub open spec fn spec_next(p: Position) -> Option<Position> {
    if p.number >= 12 {
        None
    } else {
        Some(Position { letter: p.letter, number: (p.number + 1) as u32 })
    }
}

/// The position of the same row, one column further left, if the board has a column there.
pub open spec fn spec_prev(p: Position) -> Option<Position> {
    if p.number <= 1 {
        None
    } else {
        Some(Position { letter: p.letter, number: (p.number - 1) as u32 })
    }
}

/// The position in the same column, one row up.
pub open spec fn spec_up(p: Position) -> Option<Position> {
    match spec_prev_letter(p.letter) {
        Some(l) => Some(Position { letter: l, number: p.number }),
        None => None,
    }
}

/// The position in the same column, one row down.
pub open spec fn spec_down(p: Position) -> Option<Position> {
    match spec_next_letter(p.letter) {
        Some(l) => Some(Position { letter: l, number: p.number }),
        None => None,
    }
}

/// The sequence of the values that are present, in order.
pub open spec fn somes(s: Seq<Option<Position>>) -> Seq<Position>
    decreases s.len(),
{
    if s.len() == 0 {
        Seq::empty()
    } else {
        let rest = somes(s.drop_last());
        match s.last() {
            Some(p) => rest.push(p),
            None => rest,
        }
    }
}

/// The neighbours of a position: right, down, left and up, those that exist.
pub open spec fn spec_neighbours(p: Position) -> Seq<Position> {
    somes(seq![spec_next(p), spec_down(p), spec_prev(p), spec_up(p)])
}

/// Pushes the value onto the vector if it is present.
fn push_some(v: &mut Vec<Position>, o: Option<Position>)
    ensures
        final(v)@ == match o {
            Some(p) => old(v)@.push(p),
            None => old(v)@,
        },
{
    if let Some(p) = o {
        v.push(p);
    }
}

impl Position {
    /// Creates a new position
    pub fn new(letter: char, number: u32) -> (p: Self)
        ensures
            p.letter == letter,
            p.number == number,
    {
        Self { letter, number }
    }

    /// Returns the next position.
    /// Input B3 would return B4.
    pub fn next(&self) -> (r: Option<Position>)
        ensures
            r == spec_next(*self),
    {
        if self.number >= 12 {
            return None;
        }
        Some(Position::new(self.letter, self.number + 1))
    }

    /// Returns the previous position.
    /// Input B3 would return B2.
    pub fn prev(&self) -> (r: Option<Position>)
        ensures
            r == spec_prev(*self),
    {
        if self.number <= 1 {
            return None;
        }
        Some(Position::new(self.letter, self.number - 1))
    }

    /// Returns the position that is above this position.
    /// Input B3 would return A3.
    pub fn up(&self) -> (r: Option<Position>)
        ensures
            r == spec_up(*self),
    {
        match prev_letter(self.letter) {
            Some(letter) => Some(Position::new(letter, self.number)),
            None => None,
        }
    }

    /// Returns the position that is below this position.
    /// Input B3 would return C3.
    pub fn down(&self) -> (r: Option<Position>)
        ensures
            r == spec_down(*self),
    {
        match next_letter(self.letter) {
            Some(letter) => Some(Position::new(letter, self.number)),
            None => None,
        }
    }

    /// Returns the neighbouring positions
    pub fn neighbours(&self) -> (v: Vec<Position>)
        ensures
            v@ == spec_neighbours(*self),
    {
        let mut neighbours = Vec::new();
        push_some(&mut neighbours, self.next());
        push_some(&mut neighbours, self.down());
        push_some(&mut neighbours, self.prev());
        push_some(&mut neighbours, self.up());
        proof {
            let s = seq![spec_next(*self), spec_down(*self), spec_prev(*self), spec_up(*self)];
            assert(s.drop_last().drop_last().drop_last().drop_last() =~= Seq::<Option<Position>>::empty());
            assert(s.drop_last().drop_last().drop_last() =~= seq![spec_next(*self)]);
            assert(s.drop_last().drop_last() =~= seq![spec_next(*self), spec_down(*self)]);
            assert(s.drop_last() =~= seq![spec_next(*self), spec_down(*self), spec_prev(*self)]);
            reveal_with_fuel(somes, 5);
        }
        neighbours
    }
}

/// Whether the position names a field of the board.
pub open spec fn on_board(p: Position) -> bool {
    &&& spec_letter_index(p.letter) is Some
    &&& 1 <= p.number <= 12
}

/// Whether two positions lie side by side: in the same row and neighbouring columns, or in
/// the same column and neighbouring rows.
pub open spec fn adjacent(p: Position, q: Position) -> bool {
    ||| p.letter == q.letter && (q.number == p.number + 1 || p.number == q.number + 1)
    ||| {
        &&& p.number == q.number
        &&& spec_letter_index(p.letter) is Some
        &&& spec_letter_index(q.letter) is Some
        &&& {
            let i = spec_letter_index(p.letter)->0;
            let j = spec_letter_index(q.letter)->0;
            j == i + 1 || i == j + 1
        }
    }
}

/// The neighbours of a field of the board are exactly the fields of the board beside it,
/// each named once: two in a corner, three on an edge, four elsewhere.
pub proof fn lemma_neighbours_on_board(p: Position)
    requires
        on_board(p),
    ensures
        forall|q: Position| spec_neighbours(p).contains(q) <==> on_board(q) && adjacent(p, q),
        spec_neighbours(p).no_duplicates(),
        2 <= spec_neighbours(p).len() <= 4,
{
    let s = seq![spec_next(p), spec_down(p), spec_prev(p), spec_up(p)];
    assert(s.drop_last().drop_last().drop_last().drop_last() =~= Seq::<Option<Position>>::empty());
    assert(s.drop_last().drop_last().drop_last() =~= seq![spec_next(p)]);
    assert(s.drop_last().drop_last() =~= seq![spec_next(p), spec_down(p)]);
    assert(s.drop_last() =~= seq![spec_next(p), spec_down(p), spec_prev(p)]);
    reveal_with_fuel(somes, 5);
    let i = spec_letter_index(p.letter)->0;
    lemma_letter_index_inverse(p.letter);
    if i < 8 {
        lemma_letters_indexed(i + 1);
    }
    if i > 0 {
        lemma_letters_indexed(i - 1);
    }
    let n = spec_neighbours(p);
    assert forall|q: Position| n.contains(q) implies on_board(q) && adjacent(p, q) by {
        let k = choose|k: int| 0 <= k < n.len() && n[k] == q;
    }
    assert forall|q: Position| on_board(q) && adjacent(p, q) implies n.contains(q) by {
        lemma_letter_index_inverse(q.letter);
        let a: int = if spec_next(p) is Some { 1 } else { 0 };
        let b: int = if spec_down(p) is Some { 1 } else { 0 };
        if p.letter == q.letter && q.number == p.number + 1 {
            assert(n[0] == q);
        } else if p.letter == q.letter && p.number == q.number + 1 {
            assert(n[a + b] == q);
        } else {
            let j = spec_letter_index(q.letter)->0;
            if j == i + 1 {
                assert(n[a] == q);
            } else {
                assert(n[n.len() - 1] == q);
            }
        }
    }
}

/// The index of the field of the position in the board's list of pieces.
pub open spec fn cell_index(p: Position) -> int {
    spec_letter_index(p.letter)->0 * 12 + p.number - 1
}

/// The position of the field at the index of the board's list of pieces.
pub open spec fn cell_position(i: int) -> Position {
    Position { letter: letters()[i / 12], number: (i % 12 + 1) as u32 }
}

/// Symbolizes a single piece that can be placed on the board
#[derive(Clone, Copy, Debug, PartialEq, Eq, Structural)]
pub struct Piece {
    /// Stores what hotel chain this piece belongs to
    pub chain: Option<HotelChain>,
    /// Stores the position on the board of this piece
    pub position: Position,
    /// Stores if the piece has been set yet
    pub piece_set: bool,
}

/// The board object that contains all information about the current state of the board.
/// It holds nine rows, A to I, of twelve pieces each, for the columns 1 to 12.
pub struct Board {
    pub pieces: Vec<Vec<Piece>>,
}

/// The row and the column of a field index: the index is twelve times the row plus the column.
proof fn lemma_row_column(i: int)
    requires
        0 <= i < 108,
    ensures
        0 <= i / 12 < 9,
        0 <= i % 12 < 12,
        i == (i / 12) * 12 + i % 12,
{
    assert(0 <= i / 12 < 9 && 0 <= i % 12 < 12 && i == (i / 12) * 12 + i % 12) by (nonlinear_arith)
        requires
            0 <= i < 108,
    ;
}

/// A new, empty piece of the field in row `r` and column `k + 1`.
spec fn fresh_piece(r: int, k: int) -> Piece {
    Piece { chain: None, position: Position { letter: letters()[r], number: (k + 1) as u32 }, piece_set: false }
}

/// The field index and the position of a field name each other.
pub proof fn lemma_cell_index_position(p: Position)
    requires
        on_board(p),
    ensures
        0 <= cell_index(p) < 108,
        cell_position(cell_index(p)) == p,
{
    lemma_letter_index_inverse(p.letter);
    let r = spec_letter_index(p.letter)->0;
    let i = cell_index(p);
    assert(i / 12 == r && i % 12 == p.number - 1) by (nonlinear_arith)
        requires
            i == r * 12 + p.number - 1,
            1 <= p.number <= 12,
            0 <= r < 9,
    ;
}

/// The position of every field is on the board, and its index is the field again.
pub proof fn lemma_cell_position_index(i: int)
    requires
        0 <= i < 108,
    ensures
        on_board(cell_position(i)),
        cell_index(cell_position(i)) == i,
{
    lemma_letters_indexed(i / 12);
    assert(i == (i / 12) * 12 + i % 12) by (nonlinear_arith);
}

/// Two positions of the board on different fields have different field indices.
pub proof fn lemma_cell_index_injective(p: Position, q: Position)
    requires
        on_board(p),
        on_board(q),
        p != q,
    ensures
        cell_index(p) != cell_index(q),
{
    lemma_cell_index_position(p);
    lemma_cell_index_position(q);
}

/// What is read back after a hotel has been placed where none stood: the hotel stands there,
/// with the chain the piece had, and every other position reads as before.
pub proof fn lemma_place_then_read(b0: Board, b1: Board, p: Position, piece: Piece, q: Position)
    requires
        b0.wf(),
        on_board(p),
        piece.position == p,
        piece.piece_set,
        b1.cells() == b0.with_piece(p, piece),
    ensures
        b1.placed(p) == Some(piece.chain),
        q != p ==> b1.placed(q) == b0.placed(q),
{
    lemma_cell_index_position(p);
    if q != p && on_board(q) {
        lemma_cell_index_injective(p, q);
    }
}

impl Board {
    /// The pieces of the board field by field, row after row: A1 to A12, then B1 to B12,
    /// and so on.
    pub closed spec fn cells(&self) -> Seq<Piece> {
        Seq::new(108, |i: int| self.pieces@[i / 12]@[i % 12])
    }

    /// The board holds nine rows of twelve pieces, each with its field's position.
    pub open spec fn wf(&self) -> bool {
        &&& self.pieces@.len() == 9
        &&& forall|r: int| 0 <= r < 9 ==> (#[trigger] self.pieces@[r])@.len() == 12
        &&& self.cells().len() == 108
        &&& forall|i: int| 0 <= i < 108 ==> #[trigger] self.cells()[i].position == cell_position(i)
    }

    /// The piece of the field at index `i` is the piece in its row and column.
    proof fn lemma_cell(&self, i: int)
        requires
            0 <= i < 108,
        ensures
            self.cells().len() == 108,
            self.cells()[i] == self.pieces@[i / 12]@[i % 12],
    {
    }

    /// Returns the piece of the field at index `i`.
    fn get_cell(&self, i: usize) -> (p: Piece)
        requires
            self.wf(),
            i < 108,
        ensures
            p == self.cells()[i as int],
    {
        proof {
            lemma_row_column(i as int);
            self.lemma_cell(i as int);
        }
        self.pieces[i / 12][i % 12]
    }

    /// Replaces the piece of the field at index `i` by one with the same position.
    fn set_cell(&mut self, i: usize, piece: Piece)
        requires
            old(self).wf(),
            i < 108,
            piece.position == cell_position(i as int),
        ensures
            final(self).wf(),
            final(self).cells() == old(self).cells().update(i as int, piece),
    {
        proof {
            lemma_row_column(i as int);
        }
        let r = i / 12;
        let c = i % 12;
        let mut row = self.pieces.remove(r);
        row.set(c, piece);
        self.pieces.insert(r, row);
        proof {
            let ghost before = old(self).pieces@;
            assert(self.pieces@ =~= before.update(r as int, row));
            assert forall|j: int| 0 <= j < 108 implies #[trigger] self.cells()[j] == old(self).cells().update(
                i as int,
                piece,
            )[j] by {
                lemma_row_column(j);
                old(self).lemma_cell(j);
                self.lemma_cell(j);
            }
            assert(self.cells() =~= old(self).cells().update(i as int, piece));
            assert forall|q: int| 0 <= q < 9 implies (#[trigger] self.pieces@[q])@.len() == 12 by {
                if q != r {
                    assert(self.pieces@[q] == before[q]);
                }
            }
        }
    }

    /// The piece that stands on the field of the position.
    pub open spec fn piece(&self, p: Position) -> Piece {
        self.cells()[cell_index(p)]
    }

    /// What stands at the position: `None` when no hotel has been placed there (or the
    /// position is not on the board), `Some(chain)` with the chain of the hotel otherwise.
    pub open spec fn placed(&self, p: Position) -> Option<Option<HotelChain>> {
        if on_board(p) && self.piece(p).piece_set {
            Some(self.piece(p).chain)
        } else {
            None
        }
    }

    /// The board after the piece at the position was replaced by `piece`.
    pub open spec fn with_piece(&self, p: Position, piece: Piece) -> Seq<Piece> {
        self.cells().update(cell_index(p), piece)
    }

    /// Creates a new board and initializes it
    pub fn new() -> (b: Self)
        ensures
            b.wf(),
            forall|i: int| 0 <= i < 108 ==> !(#[trigger] b.cells()[i]).piece_set && b.cells()[i].chain is None,
    {
        let mut pieces: Vec<Vec<Piece>> = Vec::new();
        let mut row: usize = 0;
        while row < 9
            invariant
                row <= 9,
                pieces@.len() == row,
                forall|r: int| 0 <= r < row ==> (#[trigger] pieces@[r])@.len() == 12,
                forall|r: int, k: int| 0 <= r < row && 0 <= k < 12 ==> #[trigger] pieces@[r]@[k] == fresh_piece(r, k),
            decreases 9 - row,
        {
            let c = letter_at(row);
            let mut line: Vec<Piece> = Vec::new();
            let mut number: u32 = 1;
            while number <= 12
                invariant
                    row < 9,
                    1 <= number <= 13,
                    c == letters()[row as int],
                    line@.len() == number - 1,
                    forall|k: int| 0 <= k < line@.len() ==> #[trigger] line@[k] == fresh_piece(row as int, k),
                decreases 13 - number,
            {
                line.push(Piece { chain: None, position: Position::new(c, number), piece_set: false });
                number = number + 1;
            }
            pieces.push(line);
            row = row + 1;
        }
        let b = Self { pieces };
        proof {
            assert forall|i: int| 0 <= i < 108 implies #[trigger] b.cells()[i] == fresh_piece(i / 12, i % 12) by {
                lemma_row_column(i);
                b.lemma_cell(i);
            }
        }
        b
    }

    /// Returns the index of the field of the position, if it is on the board.
    fn index_of(&self, position: &Position) -> (r: Option<usize>)
        requires
            self.wf(),
        ensures
            r matches Some(i) ==> on_board(*position) && i == cell_index(*position),
            r is None ==> !on_board(*position),
    {
        match letter_to_index(position.letter) {
            None => None,
            Some(row) => {
                if position.number < 1 || position.number > 12 {
                    None
                } else {
                    Some(row * 12 + (position.number - 1) as usize)
                }
            },
        }
    }

    /// Places a hotel at the designated coordinates. Does not check if this placement is valid
    /// according to the game rules.
    /// # Return
    /// Ok when the hotel was placed correctly (or the position is not on the board)
    /// Error when the hotel was already placed
    pub fn place_hotel(&mut self, position: &Position) -> (r: Result<(), GameError>)
        requires
            old(self).wf(),
        ensures
            final(self).wf(),
            !on_board(*position) ==> r is Ok && final(self).cells() == old(self).cells(),
            on_board(*position) && old(self).piece(*position).piece_set ==> r == Err::<(), GameError>(
                GameError::HotelAlreadyPlaced(*position),
            ) && final(self).cells() == old(self).cells(),
            on_board(*position) && !old(self).piece(*position).piece_set ==> r is Ok
                && final(self).cells() == old(self).with_piece(
                *position,
                Piece { piece_set: true, ..old(self).piece(*position) },
            ),
    {
        match self.index_of(position) {
            None => Ok(()),
            Some(i) => {
                let piece = self.get_cell(i);
                if piece.piece_set {
                    Err(GameError::HotelAlreadyPlaced(*position))
                } else {
                    self.set_cell(i, Piece { piece_set: true, ..piece });
                    Ok(())
                }
            },
        }
    }

    /// Place a hotel of the chain on the board without abiding by the game rules
    pub fn place_hotel_debug(&mut self, position: Position, chain: HotelChain) -> (r: Result<(), GameError>)
        requires
            old(self).wf(),
        ensures
            final(self).wf(),
            !on_board(position) ==> r is Ok && final(self).cells() == old(self).cells(),
            on_board(position) && old(self).piece(position).piece_set ==> r == Err::<(), GameError>(
                GameError::HotelAlreadyPlaced(position),
            ) && final(self).cells() == old(self).cells(),
            on_board(position) && !old(self).piece(position).piece_set ==> r is Ok
                && final(self).cells() == old(self).with_piece(
                position,
                Piece { piece_set: true, chain: Some(chain), ..old(self).piece(position) },
            ),
    {
        match self.index_of(&position) {
            None => Ok(()),
            Some(i) => {
                let piece = self.get_cell(i);
                if piece.piece_set {
                    Err(GameError::HotelAlreadyPlaced(position))
                } else {
                    self.set_cell(i, Piece { piece_set: true, chain: Some(chain), ..piece });
                    Ok(())
                }
            },
        }
    }

    /// Updates the hotel of the piece at the specified position.
    /// Will overwrite any chain that stands there.
    /// # Returns
    /// * `Ok(())` - When the piece as updated successfully
    /// * `Err(Error)` - When the piece is not placed on the board
    pub fn update_hotel(&mut self, hotel_chain: HotelChain, position: &Position) -> (r: Result<(), GameError>)
        requires
            old(self).wf(),
        ensures
            final(self).wf(),
            old(self).placed(*position) is None ==> r == Err::<(), GameError>(
                GameError::HotelNotPlaced(*position),
            ) && final(self).cells() == old(self).cells(),
            old(self).placed(*position) is Some ==> r is Ok && final(self).cells() == old(self).with_piece(
                *position,
                Piece { chain: Some(hotel_chain), ..old(self).piece(*position) },
            ),
    {
        match self.index_of(position) {
            None => Err(GameError::HotelNotPlaced(*position)),
            Some(i) => {
                let piece = self.get_cell(i);
                if piece.piece_set {
                    self.set_cell(i, Piece { chain: Some(hotel_chain), ..piece });
                    Ok(())
                } else {
                    Err(GameError::HotelNotPlaced(*position))
                }
            },
        }
    }

    /// Checks if a hotel has been placed at the position.
    /// # Returns
    /// * `None` - Hotel has not been placed
    /// * `Some(None)` - When the hotel has been placed but it does not belong to any chain
    /// * `Some(HotelChain)` - When the hotel has been placed and belongs to a chain
    pub fn is_hotel_placed(&self, position: &Position) -> (r: Option<Option<HotelChain>>)
        requires
            self.wf(),
        ensures
            r == self.placed(*position),
    {
        match self.index_of(position) {
            None => None,
            Some(i) => {
                let piece = self.get_cell(i);
                if !piece.piece_set {
                    None
                } else {
                    Some(piece.chain)
                }
            },
        }
    }

    /// Returns the piece at the index of the board's list.
    pub fn piece_at(&self, i: usize) -> (p: Piece)
        requires
            self.wf(),
            i < 108,
        ensures
            p == self.cells()[i as int],
    {
        self.get_cell(i)
    }
}

} // verus!
