//! The texts that the game shows: coloured names and cards, the board, and the players' status.
use owo_colors::{AnsiColors, DynColors, OwoColorize};
use vstd::prelude::*;
use vstd::string::*;

use crate::bank::Bank;
use crate::board::{letter_at, letters, Board, Piece, Position};
use crate::chain::{chain_order, HotelChain, PriceLevel, Rgb};
use crate::chain_manager::{spec_price_range, HotelChainManager};
use crate::game::{Round, Settings};
use crate::placement::{spec_reason, AnalyzedPosition, CaseModel, PlaceHotelCase};
use crate::player::Player;
use crate::stock::spec_stock_price;
use crate::text::{
    decimal, pad_left, pad_right, push_char, push_decimal, push_decimal_padded, push_decimal_usize, push_padded_right,
    spaces,
};

verus! {

/// The colours in which texts are shown on the terminal.
#[derive(Clone, Copy, Debug, PartialEq, Eq, Structural)]
pub enum TextColor {
    /// A colour given by its red, green and blue parts.
    Rgb(u8, u8, u8),
    Green,
    Red,
    Yellow,
    White,
    BrightGreen,
    BrightBlue,
    BrightWhite,
}

/// The escape sequence that switches the terminal's text to the colour.
pub open spec fn color_code(c: TextColor) -> Seq<char> {
    match c {
        TextColor::Rgb(r, g, b) => "\x1b[38;2;"@ + decimal(r as nat) + ";"@ + decimal(g as nat) + ";"@ + decimal(
            b as nat,
        ) + "m"@,
        TextColor::Green => "\x1b[32m"@,
        TextColor::Red => "\x1b[31m"@,
        TextColor::Yellow => "\x1b[33m"@,
        TextColor::White => "\x1b[37m"@,
        TextColor::BrightGreen => "\x1b[92m"@,
        TextColor::BrightBlue => "\x1b[94m"@,
        TextColor::BrightWhite => "\x1b[97m"@,
    }
}

/// The text shown in the colour: the colour's escape sequence, the text, and the sequence
/// that switches back to the terminal's own colour.
pub open spec fn spec_paint(text: Seq<char>, c: TextColor) -> Seq<char> {
    color_code(c) + text + "\x1b[39m"@
}

/// Shows the text in the colour (`owo_colors::OwoColorize::color` with the matching
/// `DynColors`, turned into a `String`). The contract restates what the crate writes for a
/// foreground colour: the escape sequence of the colour, the text, and `ESC [39m`.
#[verifier::external_body]
pub(crate) fn paint(text: &str, color: TextColor) -> (s: String)
    ensures
        s@ == spec_paint(text@, color),
{
    let c = match color {
        TextColor::Rgb(r, g, b) => DynColors::Rgb(r, g, b),
        TextColor::Green => DynColors::Ansi(AnsiColors::Green),
        TextColor::Red => DynColors::Ansi(AnsiColors::Red),
        TextColor::Yellow => DynColors::Ansi(AnsiColors::Yellow),
        TextColor::White => DynColors::Ansi(AnsiColors::White),
        TextColor::BrightGreen => DynColors::Ansi(AnsiColors::BrightGreen),
        TextColor::BrightBlue => DynColors::Ansi(AnsiColors::BrightBlue),
        TextColor::BrightWhite => DynColors::Ansi(AnsiColors::BrightWhite),
    };
    text.color(c).to_string()
}

/// The colour of a chain.
pub open spec fn chain_color(c: HotelChain) -> TextColor {
    let Rgb(r, g, b) = c.spec_color();
    TextColor::Rgb(r, g, b)
}

/// The grey in which what cannot be used is shown.
pub open spec fn gray() -> TextColor {
    TextColor::Rgb(105, 105, 105)
}

/// Returns the colour of a chain.
pub fn chain_text_color(c: &HotelChain) -> (t: TextColor)
    ensures
        t == chain_color(*c),
{
    let Rgb(r, g, b) = c.color();
    TextColor::Rgb(r, g, b)
}

/// Appends the text, shown in the colour, to the string.
pub fn push_painted(s: &mut String, t: &str, c: TextColor)
    ensures
        final(s)@ == old(s)@ + spec_paint(t@, c),
{
    let p = paint(t, c);
    s.append(p.as_str());
}

/// How a position is written: its letter and its number.
pub open spec fn spec_position_text(p: Position) -> Seq<char> {
    seq![p.letter] + decimal(p.number as nat)
}

impl Position {
    /// Returns how the position is written, such as `B3`.
    pub fn to_string(&self) -> (s: String)
        ensures
            s@ == spec_position_text(*self),
    {
        let mut s = String::new();
        push_char(&mut s, self.letter);
        push_decimal(&mut s, self.number);
        assert(s@ =~= spec_position_text(*self));
        s
    }
}

/// How a piece of the board is shown: a placed hotel by the letter of its chain in the chain's
/// colour, or by `X` when it belongs to no chain; an empty field by a space, or, when not
/// compact, by its position.
pub open spec fn spec_piece_text(piece: Piece, compact: bool) -> Seq<char> {
    if piece.piece_set {
        match piece.chain {
            Some(c) => if compact {
                spec_paint(seq![c.spec_identifier()], chain_color(c))
            } else {
                spec_paint(seq![' ', c.spec_identifier(), ' '], chain_color(c))
            },
            None => if compact {
                spec_paint("X"@, TextColor::BrightWhite)
            } else {
                spec_paint("XXX"@, TextColor::BrightWhite)
            },
        }
    } else if compact {
        spec_paint(" "@, TextColor::White)
    } else {
        spec_paint(seq![piece.position.letter] + pad_left(decimal(piece.position.number as nat), 2), TextColor::White)
    }
}

impl Piece {
    /// Returns how the piece is shown on the board.
    pub fn print_text(&self, compact: bool) -> (s: String)
        ensures
            s@ == spec_piece_text(*self, compact),
    {
        if self.piece_set {
            match self.chain {
                Some(c) => {
                    let mut t = String::new();
                    if !compact {
                        push_char(&mut t, ' ');
                    }
                    push_char(&mut t, c.identifier());
                    if !compact {
                        push_char(&mut t, ' ');
                    }
                    let s = paint(t.as_str(), chain_text_color(&c));
                    proof {
                        if compact {
                            assert(t@ =~= seq![c.spec_identifier()]);
                        } else {
                            assert(t@ =~= seq![' ', c.spec_identifier(), ' ']);
                        }
                    }
                    s
                },
                None => {
                    if compact {
                        paint("X", TextColor::BrightWhite)
                    } else {
                        paint("XXX", TextColor::BrightWhite)
                    }
                },
            }
        } else if compact {
            paint(" ", TextColor::White)
        } else {
            let mut t = String::new();
            push_char(&mut t, self.position.letter);
            push_decimal_padded(&mut t, self.position.number, 2);
            assert(t@ =~= seq![self.position.letter] + pad_left(decimal(self.position.number as nat), 2));
            paint(t.as_str(), TextColor::White)
        }
    }
}

/// The line that separates two rows of the large board.
pub open spec fn separator() -> Seq<char> {
    "--------------------------------------------------"@
}

/// The cells of the first `k` fields of the row, as shown on the board.
pub open spec fn row_cells(board: Board, row: int, k: int, small: bool) -> Seq<char>
    decreases k,
{
    if k <= 0 {
        Seq::empty()
    } else {
        let t = spec_piece_text(board.cells()[row * 12 + k - 1], true);
        row_cells(board, row, k - 1, small) + if small {
            t + "  "@
        } else {
            "| "@ + t + " "@
        }
    }
}

/// The line of a row of the board: its letter and its twelve fields.
pub open spec fn row_line(board: Board, row: int, small: bool) -> Seq<char> {
    seq![letters()[row], ' '] + row_cells(board, row, 12, small)
}

/// The numbers of the first `k` columns, as written under the board.
pub open spec fn column_numbers(k: int, small: bool) -> Seq<char>
    decreases k,
{
    if k <= 0 {
        Seq::empty()
    } else {
        column_numbers(k - 1, small) + pad_left(decimal(k as nat), 2) + if small {
            " "@
        } else {
            "  "@
        }
    }
}

/// The line under the board with the numbers of the columns.
pub open spec fn numbers_line(small: bool) -> Seq<char> {
    (if small {
        " "@
    } else {
        "   "@
    }) + column_numbers(12, small)
}

/// The lines of the first `n` rows of the board; on the large board a separator stands
/// between two rows.
pub open spec fn rows_lines(board: Board, n: int, small: bool) -> Seq<Seq<char>>
    decreases n,
{
    if n <= 0 {
        Seq::empty()
    } else {
        rows_lines(board, n - 1, small) + (if n > 1 && !small {
            seq![separator()]
        } else {
            Seq::empty()
        }) + seq![row_line(board, n - 1, small)]
    }
}

/// The lines that show the board: its nine rows and the numbers of the columns.
pub open spec fn spec_board_state(board: Board, small: bool) -> Seq<Seq<char>> {
    rows_lines(board, 9, small) + seq![numbers_line(small)]
}

/// The texts of the strings.
pub open spec fn texts(v: Seq<String>) -> Seq<Seq<char>> {
    v.map_values(|s: String| s@)
}

/// The texts of strings with one more string are the texts with one more text.
pub proof fn lemma_texts_push(v: Seq<String>, s: String)
    ensures
        texts(v.push(s)) == texts(v).push(s@),
{
    assert(texts(v.push(s)) =~= texts(v).push(s@));
}

/// Returns the line of a row of the board.
fn board_row_line(board: &Board, row: usize, small_board: bool) -> (s: String)
    requires
        board.wf(),
        row < 9,
    ensures
        s@ == row_line(*board, row as int, small_board),
{
    let mut s = String::new();
    push_char(&mut s, letter_at(row));
    push_char(&mut s, ' ');
    let mut k: usize = 0;
    while k < 12
        invariant
            board.wf(),
            row < 9,
            k <= 12,
            s@ == seq![letters()[row as int], ' '] + row_cells(*board, row as int, k as int, small_board),
        decreases 12 - k,
    {
        let t = board.piece_at(row * 12 + k).print_text(true);
        if small_board {
            s.append(t.as_str());
            s.append("  ");
        } else {
            s.append("| ");
            s.append(t.as_str());
            s.append(" ");
        }
        proof {
            assert(s@ =~= seq![letters()[row as int], ' '] + row_cells(*board, row as int, k + 1, small_board));
        }
        k = k + 1;
    }
    s
}

impl Board {
    /// Returns a vector that contains strings that describe the current state of the board.
    pub fn get_board_state(&self, small_board: bool) -> (v: Vec<String>)
        requires
            self.wf(),
        ensures
            texts(v@) == spec_board_state(*self, small_board),
    {
        let mut v: Vec<String> = Vec::new();
        let mut row: usize = 0;
        while row < 9
            invariant
                self.wf(),
                row <= 9,
                texts(v@) == rows_lines(*self, row as int, small_board),
            decreases 9 - row,
        {
            let ghost before = v@;
            if row > 0 && !small_board {
                v.push(String::from_str("--------------------------------------------------"));
            }
            v.push(board_row_line(self, row, small_board));
            proof {
                assert(texts(v@) =~= rows_lines(*self, row + 1, small_board));
            }
            row = row + 1;
        }
        let mut line = String::new();
        if small_board {
            line.append(" ");
        } else {
            line.append("   ");
        }
        let mut x: u32 = 1;
        while x <= 12
            invariant
                1 <= x <= 13,
                line@ == (if small_board {
                    " "@
                } else {
                    "   "@
                }) + column_numbers(x - 1, small_board),
            decreases 13 - x,
        {
            push_decimal_padded(&mut line, x, 2);
            if small_board {
                line.append(" ");
            } else {
                line.append("  ");
            }
            proof {
                assert(line@ =~= (if small_board {
                    " "@
                } else {
                    "   "@
                }) + column_numbers(x as int, small_board));
            }
            x = x + 1;
        }
        let ghost before = v@;
        v.push(line);
        proof {
            assert(texts(v@) =~= spec_board_state(*self, small_board));
        }
        v
    }
}

/// What playing the card does, as shown next to it.
pub open spec fn spec_action(case: CaseModel) -> Seq<char> {
    match case {
        CaseModel::NewChain(_) => spec_paint("Start chain"@, TextColor::Green),
        CaseModel::ExtendsChain(c, ps) => "Extend "@ + spec_paint(c.spec_name(), chain_color(c)) + " by "@ + decimal(
            ps.len(),
        ) + " hotel(s)"@,
        CaseModel::Fusion(_, _) => spec_paint("Fuse chains"@, TextColor::Green),
        CaseModel::Illegal(r) => "Illegal: "@ + spec_reason(r),
        CaseModel::SingleHotel => Seq::empty(),
    }
}

/// How a hand card is shown: its position, and what playing it does in brackets; an illegal
/// card is shown in grey.
pub open spec fn spec_card_text(a: AnalyzedPosition) -> Seq<char> {
    let p = spec_position_text(a.position);
    let action = spec_action(a.place_hotel_case@);
    match a.place_hotel_case@ {
        CaseModel::SingleHotel => p,
        CaseModel::Illegal(_) => spec_paint(p + " ["@ + action + "]"@, gray()),
        _ => p + " ["@ + action + "]"@,
    }
}

/// Appends what playing the card does.
fn push_action(s: &mut String, case: &PlaceHotelCase)
    ensures
        final(s)@ == old(s)@ + spec_action(case@),
{
    match case {
        PlaceHotelCase::NewChain(_positions) => push_painted(s, "Start chain", TextColor::Green),
        PlaceHotelCase::ExtendsChain(chain, positions) => {
            s.append("Extend ");
            push_painted(s, chain.name(), chain_text_color(chain));
            s.append(" by ");
            push_decimal_usize(s, positions.len());
            s.append(" hotel(s)");
            assert(s@ =~= old(s)@ + spec_action(case@));
        },
        PlaceHotelCase::Fusion(_chains, _origin) => push_painted(s, "Fuse chains", TextColor::Green),
        PlaceHotelCase::Illegal(reason) => {
            s.append("Illegal: ");
            let r = reason.reason();
            s.append(r.as_str());
            assert(s@ =~= old(s)@ + spec_action(case@));
        },
        PlaceHotelCase::SingleHotel => {
            assert(s@ =~= old(s)@ + spec_action(case@));
        },
    }
}

impl AnalyzedPosition {
    /// Returns how the card is shown.
    pub fn to_string(&self) -> (s: String)
        ensures
            s@ == spec_card_text(*self),
    {
        let mut t = self.position.to_string();
        match &self.place_hotel_case {
            PlaceHotelCase::SingleHotel => t,
            PlaceHotelCase::Illegal(_reason) => {
                t.append(" [");
                push_action(&mut t, &self.place_hotel_case);
                t.append("]");
                paint(t.as_str(), TextColor::Rgb(105, 105, 105))
            },
            _ => {
                t.append(" [");
                push_action(&mut t, &self.place_hotel_case);
                t.append("]");
                t
            },
        }
    }
}

/// The entry of the hand card at index `i` in the player's status: its number, in grey when
/// the card cannot be played, and the card.
pub open spec fn card_entry(i: int, a: AnalyzedPosition) -> Seq<char> {
    if a.place_hotel_case@ is Illegal {
        spec_paint("("@ + decimal((i + 1) as nat) + ")"@, gray()) + " "@ + spec_card_text(a)
    } else {
        "("@ + spec_paint(decimal((i + 1) as nat), TextColor::BrightBlue) + ") "@ + spec_card_text(a)
    }
}

/// The entries of the first `k` hand cards, separated by commas.
pub open spec fn card_entries(cards: Seq<AnalyzedPosition>, k: int) -> Seq<char>
    decreases k,
{
    if k <= 0 {
        Seq::empty()
    } else {
        card_entries(cards, k - 1) + (if k > 1 {
            ", "@
        } else {
            Seq::empty()
        }) + card_entry(k - 1, cards[k - 1])
    }
}

/// The entries of the player's stocks of the first `k` chains, separated by commas.
pub open spec fn stock_entries(p: Player, k: int) -> Seq<char>
    decreases k,
{
    if k <= 0 {
        Seq::empty()
    } else {
        let c = chain_order()[k - 1];
        stock_entries(p, k - 1) + (if k > 1 {
            ", "@
        } else {
            Seq::empty()
        }) + spec_paint(c.spec_name(), chain_color(c)) + ": "@ + decimal(p.owned_stocks.count(c) as nat)
    }
}

/// The player's status: their money, their hand cards and their stocks.
pub open spec fn spec_player_ui(p: Player) -> Seq<Seq<char>> {
    seq![
        spec_paint("Money:"@, TextColor::BrightGreen) + " "@ + decimal(p.money as nat) + "€"@,
        spec_paint("Cards: "@, TextColor::BrightGreen) + card_entries(p.analyzed_cards@, p.analyzed_cards@.len() as int),
        spec_paint("Stocks: "@, TextColor::BrightGreen) + stock_entries(p, 7),
    ]
}

/// Appends the entry of the hand card at the index, after a comma unless it is the first.
fn push_card_entry(s: &mut String, index: usize, card: &AnalyzedPosition)
    requires
        index < usize::MAX,
    ensures
        final(s)@ == old(s)@ + (if index > 0 {
            ", "@
        } else {
            Seq::empty()
        }) + card_entry(index as int, *card),
{
    if index > 0 {
        s.append(", ");
    }
    let ghost mid = s@;
    if card.is_illegal() {
        let mut number = String::from_str("(");
        push_decimal_usize(&mut number, index + 1);
        number.append(")");
        push_painted(s, number.as_str(), TextColor::Rgb(105, 105, 105));
        s.append(" ");
    } else {
        s.append("(");
        let mut number = String::new();
        push_decimal_usize(&mut number, index + 1);
        push_painted(s, number.as_str(), TextColor::BrightBlue);
        s.append(") ");
    }
    let text = card.to_string();
    s.append(text.as_str());
    assert(s@ =~= mid + card_entry(index as int, *card));
    assert(s@ =~= old(s)@ + (if index > 0 {
        ", "@
    } else {
        Seq::empty()
    }) + card_entry(index as int, *card));
}

impl Player {
    /// Returns the current state of the player
    pub fn player_ui(&self) -> (v: Vec<String>)
        ensures
            texts(v@) == spec_player_ui(*self),
    {
        let mut ui: Vec<String> = Vec::new();
        let mut money = paint("Money:", TextColor::BrightGreen);
        money.append(" ");
        push_decimal(&mut money, self.money);
        money.append("€");
        ui.push(money);
        let mut cards = paint("Cards: ", TextColor::BrightGreen);
        let ghost head = cards@;
        let n = self.analyzed_cards.len();
        let mut index: usize = 0;
        while index < n
            invariant
                n == self.analyzed_cards@.len(),
                index <= n,
                cards@ == head + card_entries(self.analyzed_cards@, index as int),
            decreases n - index,
        {
            push_card_entry(&mut cards, index, &self.analyzed_cards[index]);
            proof {
                assert(cards@ =~= head + card_entries(self.analyzed_cards@, index + 1));
            }
            index = index + 1;
        }
        ui.push(cards);
        let mut stocks = paint("Stocks: ", TextColor::BrightGreen);
        let ghost head2 = stocks@;
        let chains = HotelChain::iterator();
        let mut i: usize = 0;
        while i < chains.len()
            invariant
                chains@ == chain_order(),
                i <= 7,
                stocks@ == head2 + stock_entries(*self, i as int),
            decreases 7 - i,
        {
            if i > 0 {
                stocks.append(", ");
            }
            let c = chains[i];
            push_painted(&mut stocks, c.name(), chain_text_color(&c));
            stocks.append(": ");
            push_decimal(&mut stocks, *self.owned_stocks.stocks_for_hotel(&c));
            proof {
                assert(stocks@ =~= head2 + stock_entries(*self, i + 1));
            }
            i = i + 1;
        }
        ui.push(stocks);
        proof {
            assert(texts(ui@) =~= spec_player_ui(*self));
        }
        ui
    }
}

/// The star that marks a largest (gold) or second largest (silver) shareholder of an active
/// chain, when extra information is shown; a space otherwise.
pub open spec fn spec_status_symbol(bank: Bank, m: HotelChainManager, c: HotelChain, id: u32, show: bool) -> Seq<char> {
    if !m.is_active(c) || !show {
        " "@
    } else if bank.largest_shareholders.largest_shareholder.at(c)@.contains(id) {
        spec_paint("*"@, TextColor::Rgb(225, 215, 0))
    } else if bank.largest_shareholders.second_largest_shareholder.at(c)@.contains(id) {
        spec_paint("*"@, TextColor::Rgb(192, 192, 192))
    } else {
        " "@
    }
}

/// Returns the star that marks the player as largest or second largest shareholder.
pub fn stock_status_symbol(
    bank: &Bank,
    hotel_manager: &HotelChainManager,
    chain: &HotelChain,
    player_id: u32,
    show_symbol: bool,
) -> (s: String)
    ensures
        s@ == spec_status_symbol(*bank, *hotel_manager, *chain, player_id, show_symbol),
{
    if !hotel_manager.chain_status(chain) || !show_symbol {
        return String::from_str(" ");
    }
    if bank.is_largest_shareholder(player_id, chain) {
        return paint("*", TextColor::Rgb(225, 215, 0));
    }
    if bank.is_second_largest_shareholder(player_id, chain) {
        return paint("*", TextColor::Rgb(192, 192, 192));
    }
    String::from_str(" ")
}

/// The letter of a price level.
pub open spec fn level_letter(l: PriceLevel) -> Seq<char> {
    match l {
        PriceLevel::Low => "L"@,
        PriceLevel::Medium => "M"@,
        PriceLevel::High => "H"@,
    }
}

/// The colour of a price level.
pub open spec fn level_color(l: PriceLevel) -> TextColor {
    match l {
        PriceLevel::Low => TextColor::Red,
        PriceLevel::Medium => TextColor::Yellow,
        PriceLevel::High => TextColor::Green,
    }
}

/// The player's value, when there is one.
pub open spec fn opt_player(o: Option<&Player>) -> Option<Player> {
    match o {
        Some(p) => Some(*p),
        None => None,
    }
}

/// The price level of the chain in brackets: its letter in the level's colour when the chain is
/// active, all in grey otherwise.
pub open spec fn spec_level_text(c: HotelChain, active: bool) -> Seq<char> {
    let letter = level_letter(c.spec_price_level());
    if active {
        "["@ + spec_paint(letter, level_color(c.spec_price_level())) + "]"@
    } else {
        spec_paint("["@ + letter + "]"@, gray())
    }
}

/// The numbers about the chain's hotels and stocks: hotels, price range, the bank's stocks and
/// the player's stocks.
pub open spec fn spec_hotel_numbers(n: int, available: int, held: int) -> Seq<char> {
    "||   "@ + pad_left(decimal(n as nat), 2) + "   || "@ + pad_right(spec_price_range(n), 7) + " ||  "@ + pad_left(
        decimal(available as nat),
        2,
    ) + "  ||   "@ + pad_left(decimal(held as nat), 2)
}

/// The stock price and the two bonuses for a price.
pub open spec fn spec_price_numbers(price: int) -> Seq<char> {
    " || "@ + pad_left(decimal(price as nat), 4) + "€ ||        "@ + pad_left(decimal((price * 10) as nat), 5)
        + "€       ||        "@ + pad_left(decimal((price * 5) as nat), 5) + "€"@
}

/// The line of the game's statistics for a chain: its name, its price level, its hotels and
/// their price range, the bank's stocks, the player's stocks and whether they are a largest
/// shareholder, the stock price and the two bonuses; an inactive chain is shown in grey.
pub open spec fn spec_stats_line(
    c: HotelChain,
    player: Option<Player>,
    bank: Bank,
    m: HotelChainManager,
    settings: Settings,
) -> Seq<char> {
    let active = m.is_active(c);
    let color = if active {
        TextColor::White
    } else {
        gray()
    };
    let name_color = if active {
        chain_color(c)
    } else {
        gray()
    };
    let held: int = match player {
        None => 0,
        Some(p) => p.owned_stocks.count(c) as int,
    };
    let symbol = match player {
        None => " "@,
        Some(p) => spec_status_symbol(bank, m, c, p.id, !settings.hide_extra_info),
    };
    spec_paint(pad_right(c.spec_name(), 12), name_color) + spec_level_text(c, active) + spec_paint(
        spec_hotel_numbers(m.length(c), bank.available(c, m), held),
        color,
    ) + symbol + spec_paint(spec_price_numbers(spec_stock_price(c.spec_price_level(), m.length(c))), color)
}

/// Returns the price level of the chain in brackets.
fn level_text(c: &HotelChain, active: bool) -> (s: String)
    ensures
        s@ == spec_level_text(*c, active),
{
    let letter = match c.price_level() {
        PriceLevel::Low => "L",
        PriceLevel::Medium => "M",
        PriceLevel::High => "H",
    };
    let level_color = match c.price_level() {
        PriceLevel::Low => TextColor::Red,
        PriceLevel::Medium => TextColor::Yellow,
        PriceLevel::High => TextColor::Green,
    };
    if active {
        let mut line = String::from_str("[");
        push_painted(&mut line, letter, level_color);
        line.append("]");
        line
    } else {
        let mut t = String::from_str("[");
        t.append(letter);
        t.append("]");
        paint(t.as_str(), TextColor::Rgb(105, 105, 105))
    }
}

/// Returns the numbers about the chain's hotels and stocks.
fn hotel_numbers(n: u32, range: &str, available: u32, held: u32) -> (s: String)
    requires
        range@ == spec_price_range(n as int),
    ensures
        s@ == spec_hotel_numbers(n as int, available as int, held as int),
{
    let mut first = String::from_str("||   ");
    push_decimal_padded(&mut first, n, 2);
    first.append("   || ");
    push_padded_right(&mut first, range, 7);
    first.append(" ||  ");
    push_decimal_padded(&mut first, available, 2);
    first.append("  ||   ");
    push_decimal_padded(&mut first, held, 2);
    first
}

/// Returns the stock price and the two bonuses.
fn price_numbers(price: u32) -> (s: String)
    requires
        price <= 1200,
    ensures
        s@ == spec_price_numbers(price as int),
{
    let mut second = String::from_str(" || ");
    push_decimal_padded(&mut second, price, 4);
    second.append("€ ||        ");
    push_decimal_padded(&mut second, price * 10, 5);
    second.append("€       ||        ");
    push_decimal_padded(&mut second, price * 5, 5);
    second.append("€");
    second
}

/// Returns the line of the game's statistics for a chain.
fn stats_line(
    c: &HotelChain,
    player: Option<&Player>,
    bank: &Bank,
    m: &HotelChainManager,
    settings: &Settings,
) -> (s: String)
    requires
        m.wf(),
    ensures
        s@ == spec_stats_line(*c, opt_player(player), *bank, *m, *settings),
{
    let active = m.chain_status(c);
    let color = if active {
        TextColor::White
    } else {
        TextColor::Rgb(105, 105, 105)
    };
    let name_color = if active {
        chain_text_color(c)
    } else {
        TextColor::Rgb(105, 105, 105)
    };
    let mut name = String::new();
    push_padded_right(&mut name, c.name(), 12);
    let mut line = paint(name.as_str(), name_color);
    let level = level_text(c, active);
    line.append(level.as_str());
    let held: u32 = match player {
        None => 0,
        Some(p) => *p.owned_stocks.stocks_for_hotel(c),
    };
    let range = m.price_range(c);
    let first = hotel_numbers(m.chain_length(c), range.as_str(), bank.stocks_available(c, m), held);
    push_painted(&mut line, first.as_str(), color);
    let symbol = match player {
        None => String::from_str(" "),
        Some(p) => stock_status_symbol(bank, m, c, p.id, !settings.hide_extra_info),
    };
    line.append(symbol.as_str());
    let second = price_numbers(Bank::stock_price(m, c));
    push_painted(&mut line, second.as_str(), color);
    proof {
        let ghost sp = spec_stats_line(*c, opt_player(player), *bank, *m, *settings);
        assert(line@ =~= sp);
    }
    line
}

/// The statistics lines of the first `k` chains.
pub open spec fn stats_lines(player: Option<Player>, bank: Bank, m: HotelChainManager, settings: Settings, k: int) -> Seq<
    Seq<char>,
>
    decreases k,
{
    if k <= 0 {
        Seq::empty()
    } else {
        stats_lines(player, bank, m, settings, k - 1).push(spec_stats_line(chain_order()[k - 1], player, bank, m, settings))
    }
}

/// The lines about the round: its number, whose turn it is, and the player's status.
pub open spec fn round_lines(player: Option<Player>, name: Option<Seq<char>>, round: Option<Round>) -> Seq<Seq<char>> {
    match round {
        None => seq!["Round 0 - Game has not been started yet"@],
        Some(r) => seq![
            "Round "@ + decimal(r.number as nat),
            match name {
                None => "Current player: None"@,
                Some(n) => "Current player: "@ + n,
            },
        ] + match player {
            None => seq!["Player unavailable"@],
            Some(p) => seq![p.name@ + ", your status:"@] + spec_player_ui(p),
        },
    }
}

/// Appends the lines about the round.
fn push_round_lines(
    ui: &mut Vec<String>,
    player: Option<&Player>,
    current_player_name: Option<&String>,
    round: Option<&Round>,
)
    ensures
        texts(final(ui)@) == texts(old(ui)@) + round_lines(
            opt_player(player),
            match current_player_name {
                Some(n) => Some(n@),
                None => None,
            },
            match round {
                Some(r) => Some(*r),
                None => None,
            },
        ),
{
    match round {
        None => {
            let t = String::from_str("Round 0 - Game has not been started yet");
            proof {
                lemma_texts_push(ui@, t);
            }
            ui.push(t);
        },
        Some(r) => {
            let mut number = String::from_str("Round ");
            push_decimal(&mut number, r.number);
            proof {
                lemma_texts_push(ui@, number);
            }
            ui.push(number);
            match current_player_name {
                None => {
                    let t = String::from_str("Current player: None");
                    proof {
                        lemma_texts_push(ui@, t);
                    }
                    ui.push(t);
                },
                Some(name) => {
                    let mut line = String::from_str("Current player: ");
                    line.append(name.as_str());
                    proof {
                        lemma_texts_push(ui@, line);
                    }
                    ui.push(line);
                },
            }
            match player {
                None => {
                    let t = String::from_str("Player unavailable");
                    proof {
                        lemma_texts_push(ui@, t);
                    }
                    ui.push(t);
                },
                Some(p) => {
                    let mut line = p.name.clone();
                    line.append(", your status:");
                    proof {
                        lemma_texts_push(ui@, line);
                    }
                    ui.push(line);
                    let status = p.player_ui();
                    let mut i: usize = 0;
                    let ghost before = texts(ui@);
                    while i < status.len()
                        invariant
                            i <= status@.len(),
                            texts(ui@) == before + texts(status@).take(i as int),
                        decreases status@.len() - i,
                    {
                        let line = status[i].clone();
                        let ghost u0 = ui@;
                        ui.push(line);
                        proof {
                            assert(texts(ui@) =~= texts(u0).push(status@[i as int]@));
                            assert(texts(status@).take(i + 1) =~= texts(status@).take(i as int).push(status@[i as int]@));
                            assert(texts(ui@) =~= before + texts(status@).take(i + 1));
                        }
                        i = i + 1;
                    }
                    proof {
                        assert(texts(status@).take(status@.len() as int) =~= texts(status@));
                    }
                },
            }
        },
    }
    proof {
        assert(texts(ui@) =~= texts(old(ui)@) + round_lines(
            opt_player(player),
            match current_player_name {
                Some(n) => Some(n@),
                None => None,
            },
            match round {
                Some(r) => Some(*r),
                None => None,
            },
        ));
    }
}

/// The head of the table of the game's statistics.
pub open spec fn stats_head() -> Seq<Seq<char>> {
    seq![
        spec_paint("Game stats:"@, TextColor::BrightGreen),
        spaces(15) + "||      Hotels       ||        Stocks          ||      Bonuses for the majority shareholders"@,
        spaces(15) + "|| Number ||  Range  || Bank || Owned || Value || Largest shareholder || Second largest shareholder"@,
        "=================================================================================================================="@,
    ]
}

/// The main user interface: the board (small as the player, or else the settings, want it),
/// the round, the player's status, and the statistics of every chain.
pub open spec fn spec_main_ui(
    player: Option<Player>,
    name: Option<Seq<char>>,
    board: Board,
    settings: Settings,
    round: Option<Round>,
    bank: Bank,
    m: HotelChainManager,
) -> Seq<Seq<char>> {
    let small = match player {
        Some(p) => p.small_board,
        None => settings.small_board,
    };
    spec_board_state(board, small) + seq![Seq::<char>::empty()] + round_lines(player, name, round) + seq![
        Seq::<char>::empty(),
    ] + stats_head()
        + stats_lines(player, bank, m, settings, 7)
}

/// Returns the main user interface.
/// # Arguments
/// * `player` - The player for which the money, cards and stocks should be displayed
/// * `current_player_name` - The name of the player whose turn it is
/// * `board` - The current game board
/// * `settings` - The games settings
/// * `round` - The current game round
/// * `bank` - The bank of the game
/// * `hotel_chain_manager` - The hotel chain manager of the game
pub fn main_ui(
    player: Option<&Player>,
    current_player_name: Option<&String>,
    board: &Board,
    settings: &Settings,
    round: Option<&Round>,
    bank: &Bank,
    hotel_chain_manager: &HotelChainManager,
) -> (v: Vec<String>)
    requires
        board.wf(),
        hotel_chain_manager.wf(),
    ensures
        texts(v@) == spec_main_ui(
            opt_player(player),
            match current_player_name {
                Some(n) => Some(n@),
                None => None,
            },
            *board,
            *settings,
            match round {
                Some(r) => Some(*r),
                None => None,
            },
            *bank,
            *hotel_chain_manager,
        ),
{
    let small_board = match player {
        Some(p) => p.small_board,
        None => settings.small_board,
    };
    let mut ui = board.get_board_state(small_board);
    let empty = String::new();
    proof {
        lemma_texts_push(ui@, empty);
    }
    ui.push(empty);
    let ghost head = texts(ui@);
    assert(head =~= spec_board_state(*board, small_board) + seq![Seq::<char>::empty()]);
    push_round_lines(&mut ui, player, current_player_name, round);
    let ghost middle = texts(ui@);
    assert(middle == head + round_lines(
        opt_player(player),
        match current_player_name {
            Some(n) => Some(n@),
            None => None,
        },
        match round {
            Some(r) => Some(*r),
            None => None,
        },
    ));
    let empty2 = String::new();
    proof {
        lemma_texts_push(ui@, empty2);
    }
    ui.push(empty2);
    let stats_title = paint("Game stats:", TextColor::BrightGreen);
    proof {
        lemma_texts_push(ui@, stats_title);
    }
    ui.push(stats_title);
    let mut head1 = String::new();
    crate::text::push_spaces(&mut head1, 15);
    head1.append("||      Hotels       ||        Stocks          ||      Bonuses for the majority shareholders");
    proof {
        lemma_texts_push(ui@, head1);
    }
    ui.push(head1);
    let mut head2 = String::new();
    crate::text::push_spaces(&mut head2, 15);
    head2.append("|| Number ||  Range  || Bank || Owned || Value || Largest shareholder || Second largest shareholder");
    proof {
        lemma_texts_push(ui@, head2);
    }
    ui.push(head2);
    let equals = String::from_str("==================================================================================================================");
    proof {
        lemma_texts_push(ui@, equals);
    }
    ui.push(equals);
    assert(texts(ui@) =~= middle + seq![Seq::<char>::empty()] + stats_head());
    let ghost before_stats = texts(ui@);
    let chains = HotelChain::iterator();
    let mut i: usize = 0;
    while i < chains.len()
        invariant
            chains@ == chain_order(),
            i <= 7,
            hotel_chain_manager.wf(),
            texts(ui@) == before_stats + stats_lines(opt_player(player), *bank, *hotel_chain_manager, *settings, i as int),
        decreases 7 - i,
    {
        let line = stats_line(&chains[i], player, bank, hotel_chain_manager, settings);
        let ghost u0 = ui@;
        ui.push(line);
        proof {
            assert(texts(ui@) =~= texts(u0).push(line@));
            assert(texts(ui@) =~= before_stats + stats_lines(
                opt_player(player),
                *bank,
                *hotel_chain_manager,
                *settings,
                i + 1,
            ));
        }
        i = i + 1;
    }
    proof {
        let sp = spec_main_ui(
            opt_player(player),
            match current_player_name {
                Some(n) => Some(n@),
                None => None,
            },
            *board,
            *settings,
            match round {
                Some(r) => Some(*r),
                None => None,
            },
            *bank,
            *hotel_chain_manager,
        );
        assert(texts(ui@) =~= sp);
    }
    ui
}

} // verus!
