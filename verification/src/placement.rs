//! What happens when a hotel is placed: the analysis of a position of the board.
use vstd::prelude::*;
use vstd::string::*;

use crate::board::{
    adjacent, lemma_letter_index_inverse, lemma_letters_indexed, on_board, somes, spec_down,
    spec_letter_index, spec_next, spec_prev, spec_up, Board, Position,
};
use crate::chain::HotelChain;
use crate::chain_manager::HotelChainManager;

verus! {

/// The different ways a hotel placement can be illegal
#[derive(Clone, Copy, Debug, PartialEq, Eq, Structural)]
pub enum IllegalPlacement {
    /// Signals that no more chains can be started
    ChainStartIllegal,
    /// Signals that a fusion is illegal because it would fuse chains that can no
    /// longer be fused
    FusionIllegal,
}

/// The different cases that can happen when a hotel is placed
#[derive(Clone, Debug, PartialEq, Eq)]
pub enum PlaceHotelCase {
    /// No hotel stands next to the position.
    SingleHotel,
    /// The hotel founds a new chain together with these hotels (the placed one is last).
    NewChain(Vec<Position>),
    /// The hotel and these hotels (the placed one is last) join the chain.
    ExtendsChain(HotelChain, Vec<Position>),
    /// The hotel at the position joins these chains into one.
    Fusion(Vec<HotelChain>, Position),
    /// The hotel must not be placed there.
    Illegal(IllegalPlacement),
}

/// The mathematical value of a `PlaceHotelCase`.
pub enum CaseModel {
    SingleHotel,
    NewChain(Seq<Position>),
    ExtendsChain(HotelChain, Seq<Position>),
    Fusion(Seq<HotelChain>, Position),
    Illegal(IllegalPlacement),
}

impl View for PlaceHotelCase {
    type V = CaseModel;

    open spec fn view(&self) -> CaseModel {
        match self {
            PlaceHotelCase::SingleHotel => CaseModel::SingleHotel,
            PlaceHotelCase::NewChain(v) => CaseModel::NewChain(v@),
            PlaceHotelCase::ExtendsChain(c, v) => CaseModel::ExtendsChain(*c, v@),
            PlaceHotelCase::Fusion(v, p) => CaseModel::Fusion(v@, *p),
            PlaceHotelCase::Illegal(i) => CaseModel::Illegal(*i),
        }
    }
}

/// The name of the case, as `kind_name` returns it.
pub open spec fn spec_kind_name(c: CaseModel) -> Seq<char> {
    match c {
        CaseModel::SingleHotel => "SingleHotel"@,
        CaseModel::NewChain(_) => "NewChain"@,
        CaseModel::ExtendsChain(_, _) => "ExtendsChain"@,
        CaseModel::Fusion(_, _) => "Fusion"@,
        CaseModel::Illegal(_) => "Illegal"@,
    }
}

impl PlaceHotelCase {
    /// Returns the type name for the case
    pub fn kind_name(&self) -> (s: String)
        ensures
            s@ == spec_kind_name(self@),
    {
        match self {
            Self::SingleHotel => String::from_str("SingleHotel"),
            Self::NewChain(_vec) => String::from_str("NewChain"),
            Self::ExtendsChain(_chain, _vec) => String::from_str("ExtendsChain"),
            Self::Fusion(_vec, _origin) => String::from_str("Fusion"),
            Self::Illegal(_illegal) => String::from_str("Illegal"),
        }
    }

    /// Whether the case is an illegal placement.
    pub fn is_illegal(&self) -> (b: bool)
        ensures
            b == (self@ is Illegal),
    {
        match self {
            PlaceHotelCase::Illegal(_reason) => true,
            _ => false,
        }
    }
}

/// The brief reason why a hotel cannot be placed.
pub open spec fn spec_reason(i: IllegalPlacement) -> Seq<char> {
    match i {
        IllegalPlacement::FusionIllegal => "Fusion illegal"@,
        IllegalPlacement::ChainStartIllegal => "Chain start illegal"@,
    }
}

/// The detailed reason why a hotel cannot be placed.
pub open spec fn spec_description(i: IllegalPlacement) -> Seq<char> {
    match i {
        IllegalPlacement::FusionIllegal => "The piece would start a fusion between chains that can no longer be fused."@,
        IllegalPlacement::ChainStartIllegal => "The piece would start a new chain but all 7 chains are already active."@,
    }
}

impl IllegalPlacement {
    /// Returns a string that contains the brief reason why this hotel can not be placed
    pub fn reason(&self) -> (s: String)
        ensures
            s@ == spec_reason(*self),
    {
        match self {
            IllegalPlacement::FusionIllegal => String::from_str("Fusion illegal"),
            IllegalPlacement::ChainStartIllegal => String::from_str("Chain start illegal"),
        }
    }

    /// Returns a string that contains the detailed reason why this hotel can not be placed
    pub fn description(&self) -> (s: String)
        ensures
            s@ == spec_description(*self),
    {
        match self {
            IllegalPlacement::FusionIllegal => String::from_str(
                "The piece would start a fusion between chains that can no longer be fused.",
            ),
            IllegalPlacement::ChainStartIllegal => String::from_str(
                "The piece would start a new chain but all 7 chains are already active.",
            ),
        }
    }
}

/// The surrounding positions of a position: up, down, right and left, those that exist.
pub open spec fn spec_surrounding(origin: Position) -> Seq<Position> {
    somes(seq![spec_up(origin), spec_down(origin), spec_next(origin), spec_prev(origin)])
}

/// The positions of `ps` where a hotel stands that belongs to no chain, in order.
pub open spec fn loose_hotels(board: Board, ps: Seq<Position>) -> Seq<Position>
    decreases ps.len(),
{
    if ps.len() == 0 {
        Seq::empty()
    } else {
        let rest = loose_hotels(board, ps.drop_last());
        if board.placed(ps.last()) == Some(None::<HotelChain>) {
            rest.push(ps.last())
        } else {
            rest
        }
    }
}

/// The chains of the hotels at the positions `ps`, each once, in the order of first appearance.
pub open spec fn adjacent_chains(board: Board, ps: Seq<Position>) -> Seq<HotelChain>
    decreases ps.len(),
{
    if ps.len() == 0 {
        Seq::empty()
    } else {
        let rest = adjacent_chains(board, ps.drop_last());
        match board.placed(ps.last()) {
            Some(Some(c)) => if rest.contains(c) {
                rest
            } else {
                rest.push(c)
            },
            _ => rest,
        }
    }
}

/// How many of the chains are safe from being fused.
pub open spec fn count_safe(m: HotelChainManager, cs: Seq<HotelChain>) -> int
    decreases cs.len(),
{
    if cs.len() == 0 {
        0
    } else {
        count_safe(m, cs.drop_last()) + if m.spec_is_safe(cs.last()) {
            1int
        } else {
            0
        }
    }
}

/// What happens when a hotel is placed at `origin`:
/// 1. no hotel nearby: a single hotel;
/// 2. only hotels of no chain nearby: a new chain, unless all chains are active;
/// 3. one chain nearby: the chain is extended by the hotel and the loose hotels nearby;
/// 4. several chains nearby: a fusion, unless two or more of them are safe.
pub open spec fn spec_analyze(origin: Position, board: Board, m: HotelChainManager) -> CaseModel {
    let ps = spec_surrounding(origin);
    let hotels = loose_hotels(board, ps);
    let chains = adjacent_chains(board, ps);
    if chains.len() == 0 && hotels.len() == 0 {
        CaseModel::SingleHotel
    } else if chains.len() == 0 {
        if forall|c: HotelChain| #[trigger] m.is_active(c) {
            CaseModel::Illegal(IllegalPlacement::ChainStartIllegal)
        } else {
            CaseModel::NewChain(hotels.push(origin))
        }
    } else if chains.len() == 1 {
        CaseModel::ExtendsChain(chains[0], hotels.push(origin))
    } else if count_safe(m, chains) >= 2 {
        CaseModel::Illegal(IllegalPlacement::FusionIllegal)
    } else {
        CaseModel::Fusion(chains, origin)
    }
}

/// A position has at most four surrounding positions.
pub proof fn lemma_surrounding_len(origin: Position)
    ensures
        spec_surrounding(origin).len() <= 4,
{
    lemma_somes_len(seq![spec_up(origin), spec_down(origin), spec_next(origin), spec_prev(origin)]);
}

/// The surrounding positions of a field of the board are exactly the fields of the board
/// beside it, each named once.
pub proof fn lemma_surrounding_on_board(origin: Position)
    requires
        on_board(origin),
    ensures
        forall|q: Position|
            spec_surrounding(origin).contains(q) <==> on_board(q) && adjacent(origin, q),
        spec_surrounding(origin).no_duplicates(),
{
    let p = origin;
    let s = seq![spec_up(p), spec_down(p), spec_next(p), spec_prev(p)];
    assert(s.drop_last().drop_last().drop_last().drop_last() =~= Seq::<Option<Position>>::empty());
    assert(s.drop_last().drop_last().drop_last() =~= seq![spec_up(p)]);
    assert(s.drop_last().drop_last() =~= seq![spec_up(p), spec_down(p)]);
    assert(s.drop_last() =~= seq![spec_up(p), spec_down(p), spec_next(p)]);
    reveal_with_fuel(somes, 5);
    let i = spec_letter_index(p.letter)->0;
    lemma_letter_index_inverse(p.letter);
    if i < 8 {
        lemma_letters_indexed(i + 1);
    }
    if i > 0 {
        lemma_letters_indexed(i - 1);
    }
    let n = spec_surrounding(p);
    assert forall|q: Position| n.contains(q) implies on_board(q) && adjacent(p, q) by {
        let k = choose|k: int| 0 <= k < n.len() && n[k] == q;
    }
    assert forall|q: Position| on_board(q) && adjacent(p, q) implies n.contains(q) by {
        lemma_letter_index_inverse(q.letter);
        let a: int = if spec_up(p) is Some { 1 } else { 0 };
        let b: int = if spec_down(p) is Some { 1 } else { 0 };
        if p.letter == q.letter && q.number == p.number + 1 {
            assert(n[a + b] == q);
        } else if p.letter == q.letter && p.number == q.number + 1 {
            assert(n[n.len() - 1] == q);
        } else {
            let j = spec_letter_index(q.letter)->0;
            if j == i + 1 {
                assert(n[a] == q);
            } else {
                assert(n[0] == q);
            }
        }
    }
}

/// A hotel of the chain stands at one of the positions `ps`.
pub open spec fn chain_near(board: Board, ps: Seq<Position>, c: HotelChain) -> bool {
    exists|i: int| 0 <= i < ps.len() && board.placed(#[trigger] ps[i]) == Some(Some(c))
}

/// A hotel, of a chain or of none, stands at one of the positions `ps`.
pub open spec fn hotel_near(board: Board, ps: Seq<Position>) -> bool {
    exists|i: int| 0 <= i < ps.len() && (#[trigger] board.placed(ps[i])) is Some
}

/// The chains found at the positions are each named once, and they are exactly the chains
/// of the hotels that stand there.
pub proof fn lemma_adjacent_chains(board: Board, ps: Seq<Position>)
    ensures
        adjacent_chains(board, ps).no_duplicates(),
        forall|c: HotelChain| #[trigger] adjacent_chains(board, ps).contains(c) <==> chain_near(board, ps, c),
    decreases ps.len(),
{
    if ps.len() > 0 {
        let t = ps.drop_last();
        lemma_adjacent_chains(board, t);
        let rest = adjacent_chains(board, t);
        let r = adjacent_chains(board, ps);
        assert forall|c: HotelChain| #[trigger] r.contains(c) <==> chain_near(board, ps, c) by {
            if chain_near(board, t, c) {
                let i = choose|i: int| 0 <= i < t.len() && board.placed(#[trigger] t[i]) == Some(Some(c));
                assert(ps[i] == t[i]);
            }
            if chain_near(board, ps, c) {
                let i = choose|i: int| 0 <= i < ps.len() && board.placed(#[trigger] ps[i]) == Some(Some(c));
                if i < t.len() {
                    assert(ps[i] == t[i]);
                    assert(chain_near(board, t, c));
                }
            }
            if r.contains(c) && !rest.contains(c) {
                assert(r == rest.push(c));
                assert(board.placed(ps[ps.len() - 1]) == Some(Some(c)));
            }
            if rest.contains(c) {
                let k = choose|k: int| 0 <= k < rest.len() && rest[k] == c;
                assert(r[k] == c);
            }
            if chain_near(board, ps, c) && !chain_near(board, t, c) {
                let i = choose|i: int| 0 <= i < ps.len() && board.placed(#[trigger] ps[i]) == Some(Some(c));
                assert(i == ps.len() - 1);
                assert(r[r.len() - 1] == c);
            }
        }
    }
}

/// No hotel of no chain is found at the positions exactly when none stands there.
pub proof fn lemma_loose_hotels(board: Board, ps: Seq<Position>)
    ensures
        loose_hotels(board, ps).len() == 0 <==> forall|i: int|
            0 <= i < ps.len() ==> board.placed(#[trigger] ps[i]) != Some(None::<HotelChain>),
    decreases ps.len(),
{
    if ps.len() > 0 {
        let t = ps.drop_last();
        let n = t.len() as int;
        lemma_loose_hotels(board, t);
        assert forall|i: int| 0 <= i < t.len() implies #[trigger] t[i] == ps[i] by {}
        if loose_hotels(board, ps).len() == 0 {
            assert(loose_hotels(board, t).len() == 0);
            assert(board.placed(ps[n]) != Some(None::<HotelChain>));
            assert forall|i: int| 0 <= i < ps.len() implies board.placed(#[trigger] ps[i]) != Some(None::<HotelChain>) by {
                if i < n {
                    assert(board.placed(t[i]) != Some(None::<HotelChain>));
                }
            }
        }
        if forall|i: int| 0 <= i < ps.len() ==> board.placed(#[trigger] ps[i]) != Some(None::<HotelChain>) {
            assert forall|i: int| 0 <= i < t.len() implies board.placed(#[trigger] t[i]) != Some(None::<HotelChain>) by {
                assert(board.placed(ps[i]) != Some(None::<HotelChain>));
            }
            assert(board.placed(ps[n]) != Some(None::<HotelChain>));
        }
    }
}

/// At least one of the chains is safe exactly when one of them is.
proof fn lemma_count_safe_one(m: HotelChainManager, cs: Seq<HotelChain>)
    ensures
        count_safe(m, cs) >= 0,
        count_safe(m, cs) >= 1 <==> exists|i: int| 0 <= i < cs.len() && m.spec_is_safe(#[trigger] cs[i]),
    decreases cs.len(),
{
    if cs.len() > 0 {
        let t = cs.drop_last();
        lemma_count_safe_one(m, t);
        if exists|i: int| 0 <= i < t.len() && m.spec_is_safe(#[trigger] t[i]) {
            let i = choose|i: int| 0 <= i < t.len() && m.spec_is_safe(#[trigger] t[i]);
            assert(cs[i] == t[i]);
        }
        if exists|i: int| 0 <= i < cs.len() && m.spec_is_safe(#[trigger] cs[i]) {
            let i = choose|i: int| 0 <= i < cs.len() && m.spec_is_safe(#[trigger] cs[i]);
            if i < t.len() {
                assert(cs[i] == t[i]);
            }
        }
    }
}

/// At least two of the chains are safe exactly when two of them, at different places, are.
proof fn lemma_count_safe_two(m: HotelChainManager, cs: Seq<HotelChain>)
    ensures
        count_safe(m, cs) >= 2 <==> exists|i: int, j: int|
            0 <= i < j < cs.len() && m.spec_is_safe(#[trigger] cs[i]) && m.spec_is_safe(#[trigger] cs[j]),
    decreases cs.len(),
{
    if cs.len() > 0 {
        let t = cs.drop_last();
        let n = t.len() as int;
        lemma_count_safe_two(m, t);
        lemma_count_safe_one(m, t);
        if count_safe(m, cs) >= 2 {
            if count_safe(m, t) >= 2 {
                let (i, j) = choose|i: int, j: int|
                    0 <= i < j < t.len() && m.spec_is_safe(#[trigger] t[i]) && m.spec_is_safe(#[trigger] t[j]);
                assert(cs[i] == t[i] && cs[j] == t[j]);
            } else {
                let i = choose|i: int| 0 <= i < t.len() && m.spec_is_safe(#[trigger] t[i]);
                assert(cs[i] == t[i]);
                assert(m.spec_is_safe(cs[n]));
            }
        }
        if exists|i: int, j: int|
            0 <= i < j < cs.len() && m.spec_is_safe(#[trigger] cs[i]) && m.spec_is_safe(#[trigger] cs[j]) {
            let (i, j) = choose|i: int, j: int|
                0 <= i < j < cs.len() && m.spec_is_safe(#[trigger] cs[i]) && m.spec_is_safe(#[trigger] cs[j]);
            assert(cs[i] == t[i]);
            if j < n {
                assert(cs[j] == t[j]);
            }
        }
    }
}

/// A hotel placed where no hotel stands around it stands alone.
pub proof fn lemma_analyze_alone(origin: Position, board: Board, m: HotelChainManager)
    requires
        !hotel_near(board, spec_surrounding(origin)),
    ensures
        spec_analyze(origin, board, m) is SingleHotel,
{
    let ps = spec_surrounding(origin);
    let chains = adjacent_chains(board, ps);
    lemma_adjacent_chains(board, ps);
    lemma_loose_hotels(board, ps);
    if chains.len() > 0 {
        assert(chains.contains(chains[0]));
        let c = chains[0];
        let i = choose|i: int| 0 <= i < ps.len() && board.placed(#[trigger] ps[i]) == Some(Some(c));
    }
    assert forall|i: int| 0 <= i < ps.len() implies board.placed(#[trigger] ps[i]) != Some(None::<HotelChain>) by {
        if board.placed(ps[i]) == Some(None::<HotelChain>) {
            assert(hotel_near(board, ps));
        }
    }
}

/// A hotel placed next to hotels of no chain only founds a new chain that ends with it,
/// unless all chains are active, when the placement is illegal.
pub proof fn lemma_analyze_new_chain(origin: Position, board: Board, m: HotelChainManager)
    requires
        hotel_near(board, spec_surrounding(origin)),
        forall|c: HotelChain| !chain_near(board, spec_surrounding(origin), c),
    ensures
        (forall|c: HotelChain| #[trigger] m.is_active(c)) ==> spec_analyze(origin, board, m) == CaseModel::Illegal(
            IllegalPlacement::ChainStartIllegal,
        ),
        !(forall|c: HotelChain| #[trigger] m.is_active(c)) ==> (spec_analyze(origin, board, m) matches CaseModel::NewChain(
            hs,
        ) && hs.len() > 0 && hs.last() == origin),
{
    let ps = spec_surrounding(origin);
    let chains = adjacent_chains(board, ps);
    lemma_adjacent_chains(board, ps);
    lemma_loose_hotels(board, ps);
    if chains.len() > 0 {
        assert(chains.contains(chains[0]));
    }
    let i = choose|i: int| 0 <= i < ps.len() && (#[trigger] board.placed(ps[i])) is Some;
    if board.placed(ps[i]) != Some(None::<HotelChain>) {
        assert(chain_near(board, ps, board.placed(ps[i])->0->0));
    }
}

/// A hotel placed next to hotels of a single chain (and perhaps hotels of no chain) extends
/// that chain, each chain counted once however many of its hotels touch the placed one.
pub proof fn lemma_analyze_extends(origin: Position, board: Board, m: HotelChainManager, c: HotelChain)
    requires
        chain_near(board, spec_surrounding(origin), c),
        forall|d: HotelChain| chain_near(board, spec_surrounding(origin), d) ==> d == c,
    ensures
        spec_analyze(origin, board, m) matches CaseModel::ExtendsChain(e, hs) && e == c && hs.len() > 0 && hs.last()
            == origin,
{
    let ps = spec_surrounding(origin);
    let chains = adjacent_chains(board, ps);
    lemma_adjacent_chains(board, ps);
    assert(chains.contains(c));
    if chains.len() > 1 {
        assert(chains.contains(chains[0]) && chains.contains(chains[1]));
        assert(chains[0] != chains[1]);
    }
    assert(chains.contains(chains[0]));
}

/// A hotel placed next to hotels of two or more chains fuses exactly those chains, each named
/// once, unless two of them are safe, when the placement is illegal.
pub proof fn lemma_analyze_fusion(origin: Position, board: Board, m: HotelChainManager, c: HotelChain, d: HotelChain)
    requires
        chain_near(board, spec_surrounding(origin), c),
        chain_near(board, spec_surrounding(origin), d),
        c != d,
    ensures
        ({
            let ps = spec_surrounding(origin);
            let a = spec_analyze(origin, board, m);
            &&& a is Fusion || a == CaseModel::Illegal(IllegalPlacement::FusionIllegal)
            &&& a matches CaseModel::Fusion(cs, o) ==> o == origin && cs.no_duplicates() && cs.len() >= 2
                && forall|e: HotelChain| #[trigger] cs.contains(e) <==> chain_near(board, ps, e)
            &&& a == CaseModel::Illegal(IllegalPlacement::FusionIllegal) <==> exists|e: HotelChain, f: HotelChain|
                e != f && chain_near(board, ps, e) && chain_near(board, ps, f) && m.spec_is_safe(e) && m.spec_is_safe(f)
        }),
{
    let ps = spec_surrounding(origin);
    let chains = adjacent_chains(board, ps);
    lemma_adjacent_chains(board, ps);
    lemma_count_safe_two(m, chains);
    assert(chains.contains(c) && chains.contains(d));
    let i = choose|i: int| 0 <= i < chains.len() && chains[i] == c;
    let j = choose|j: int| 0 <= j < chains.len() && chains[j] == d;
    assert(chains.len() >= 2);
    if count_safe(m, chains) >= 2 {
        let (x, y) = choose|x: int, y: int|
            0 <= x < y < chains.len() && m.spec_is_safe(#[trigger] chains[x]) && m.spec_is_safe(#[trigger] chains[y]);
        assert(chains.contains(chains[x]) && chains.contains(chains[y]));
        assert(chains[x] != chains[y]);
    }
    if exists|e: HotelChain, f: HotelChain|
        e != f && chain_near(board, ps, e) && chain_near(board, ps, f) && m.spec_is_safe(e) && m.spec_is_safe(f) {
        let (e, f) = choose|e: HotelChain, f: HotelChain|
            e != f && chain_near(board, ps, e) && chain_near(board, ps, f) && m.spec_is_safe(e) && m.spec_is_safe(f);
        assert(chains.contains(e) && chains.contains(f));
        let x = choose|x: int| 0 <= x < chains.len() && chains[x] == e;
        let y = choose|y: int| 0 <= y < chains.len() && chains[y] == f;
        if x < y {
            assert(m.spec_is_safe(chains[x]) && m.spec_is_safe(chains[y]));
        } else {
            assert(m.spec_is_safe(chains[y]) && m.spec_is_safe(chains[x]));
        }
    }
}

/// There are no more values present than values.
proof fn lemma_somes_len(s: Seq<Option<Position>>)
    ensures
        somes(s).len() <= s.len(),
    decreases s.len(),
{
    if s.len() > 0 {
        lemma_somes_len(s.drop_last());
    }
}

/// There are no more loose hotels than positions.
pub proof fn lemma_loose_hotels_len(board: Board, ps: Seq<Position>)
    ensures
        loose_hotels(board, ps).len() <= ps.len(),
    decreases ps.len(),
{
    if ps.len() > 0 {
        lemma_loose_hotels_len(board, ps.drop_last());
    }
}

/// A chain is extended by at most five hotels at once: the placed one and four around it.
pub proof fn lemma_extension_small(origin: Position, board: Board, m: HotelChainManager)
    ensures
        spec_analyze(origin, board, m) matches CaseModel::ExtendsChain(_, ps) ==> ps.len() <= 5,
{
    lemma_surrounding_len(origin);
    lemma_loose_hotels_len(board, spec_surrounding(origin));
}

/// Pushes the position onto the vector if it is present.
fn push_some(v: &mut Vec<Position>, o: Option<Position>)
    ensures
        final(v)@ == match o {
            Some(p) => old(v)@.push(p),
            None => old(v)@,
        },
{
    if let Some(p) = o {
        v.push(p);
    }
}

/// Analyzes the surrounding positions of the piece and returns them
pub fn surrounding_positions(origin: &Position) -> (v: Vec<Position>)
    ensures
        v@ == spec_surrounding(*origin),
{
    let mut neighbours: Vec<Position> = Vec::new();
    push_some(&mut neighbours, origin.up());
    push_some(&mut neighbours, origin.down());
    push_some(&mut neighbours, origin.next());
    push_some(&mut neighbours, origin.prev());
    proof {
        let s = seq![spec_up(*origin), spec_down(*origin), spec_next(*origin), spec_prev(*origin)];
        assert(s.drop_last().drop_last().drop_last().drop_last() =~= Seq::<Option<Position>>::empty());
        assert(s.drop_last().drop_last().drop_last() =~= seq![spec_up(*origin)]);
        assert(s.drop_last().drop_last() =~= seq![spec_up(*origin), spec_down(*origin)]);
        assert(s.drop_last() =~= seq![spec_up(*origin), spec_down(*origin), spec_next(*origin)]);
        reveal_with_fuel(somes, 5);
    }
    neighbours
}

/// Returns whether the vector holds the chain.
fn contains_chain(v: &Vec<HotelChain>, c: HotelChain) -> (b: bool)
    ensures
        b == v@.contains(c),
{
    let mut i: usize = 0;
    while i < v.len()
        invariant
            i <= v@.len(),
            forall|j: int| 0 <= j < i ==> v@[j] != c,
        decreases v@.len() - i,
    {
        if v[i] == c {
            return true;
        }
        i = i + 1;
    }
    false
}

/// Analyzes the position of the card.
/// Returns the case to which the position belongs
pub fn analyze_position(origin: &Position, board: &Board, hotel_chain_manager: &HotelChainManager) -> (c:
    PlaceHotelCase)
    requires
        board.wf(),
        hotel_chain_manager.wf(),
    ensures
        c@ == spec_analyze(*origin, *board, *hotel_chain_manager),
{
    let surrounding_positions: Vec<Position> = surrounding_positions(origin);
    let ghost ps = surrounding_positions@;
    // Stores the surrounding chains
    let mut surrounding_chains: Vec<HotelChain> = Vec::new();
    // Stores the surrounding hotels that do not belong to any chain
    let mut surrounding_hotels: Vec<Position> = Vec::new();
    let mut i: usize = 0;
    while i < surrounding_positions.len()
        invariant
            board.wf(),
            ps == surrounding_positions@,
            i <= ps.len(),
            surrounding_hotels@ == loose_hotels(*board, ps.take(i as int)),
            surrounding_chains@ == adjacent_chains(*board, ps.take(i as int)),
        decreases ps.len() - i,
    {
        let position = surrounding_positions[i];
        proof {
            assert(ps.take(i + 1).drop_last() =~= ps.take(i as int));
            assert(ps.take(i + 1).last() == position);
        }
        if let Some(value) = board.is_hotel_placed(&position) {
            match value {
                None => surrounding_hotels.push(position),
                Some(chain) => {
                    // Add each chain only once
                    if !contains_chain(&surrounding_chains, chain) {
                        surrounding_chains.push(chain);
                    }
                },
            }
        }
        i = i + 1;
    }
    proof {
        assert(ps.take(ps.len() as int) =~= ps);
    }
    // Case 1: No hotel is nearby
    if surrounding_chains.len() == 0 && surrounding_hotels.len() == 0 {
        return PlaceHotelCase::SingleHotel;
    }
    // Case 2: New chain
    if surrounding_chains.len() == 0 {
        if hotel_chain_manager.available_chains().is_none() {
            return PlaceHotelCase::Illegal(IllegalPlacement::ChainStartIllegal);
        }
        let mut founding_members = surrounding_hotels;
        founding_members.push(*origin);
        return PlaceHotelCase::NewChain(founding_members);
    }
    // Case 3: Extends chain
    if surrounding_chains.len() == 1 {
        let mut new_members = surrounding_hotels;
        new_members.push(*origin);
        return PlaceHotelCase::ExtendsChain(surrounding_chains[0], new_members);
    }
    // Case 4: Fusion
    let mut cant_fuse: usize = 0;
    let mut j: usize = 0;
    while j < surrounding_chains.len()
        invariant
            hotel_chain_manager.wf(),
            j <= surrounding_chains@.len(),
            cant_fuse == count_safe(*hotel_chain_manager, surrounding_chains@.take(j as int)),
            cant_fuse <= j,
        decreases surrounding_chains@.len() - j,
    {
        proof {
            assert(surrounding_chains@.take(j + 1).drop_last() =~= surrounding_chains@.take(j as int));
        }
        if hotel_chain_manager.is_chain_safe(&surrounding_chains[j]) {
            cant_fuse = cant_fuse + 1;
        }
        j = j + 1;
    }
    proof {
        assert(surrounding_chains@.take(surrounding_chains@.len() as int) =~= surrounding_chains@);
    }
    // If two or more chains are safe from being fused the placement of the hotel is illegal.
    if cant_fuse >= 2 {
        return PlaceHotelCase::Illegal(IllegalPlacement::FusionIllegal);
    }
    PlaceHotelCase::Fusion(surrounding_chains, *origin)
}

/// A position of the board that has been analyzed: what happens when a hotel is placed there.
#[derive(Clone, Debug, PartialEq, Eq)]
pub struct AnalyzedPosition {
    pub position: Position,
    pub place_hotel_case: PlaceHotelCase,
}

impl AnalyzedPosition {
    /// Analyzes the position to return a new analyzed position
    pub fn new(position: Position, board: &Board, hotel_chain_manager: &HotelChainManager) -> (a: Self)
        requires
            board.wf(),
            hotel_chain_manager.wf(),
        ensures
            a.position == position,
            a.place_hotel_case@ == spec_analyze(position, *board, *hotel_chain_manager),
    {
        let place_hotel_case = analyze_position(&position, board, hotel_chain_manager);
        Self { position, place_hotel_case }
    }

    /// Creates a new analyzed position without analyzing the position.
    /// Should only be used when the players cards are initialized for the first time.
    /// The place hotel case will be set to single hotel.
    pub fn new_unchecked(position: Position) -> (a: Self)
        ensures
            a.position == position,
            a.place_hotel_case@ == CaseModel::SingleHotel,
    {
        Self { position, place_hotel_case: PlaceHotelCase::SingleHotel }
    }

    /// Analyzes the position again and updates the place hotel case value
    pub fn check(&mut self, board: &Board, hotel_chain_manager: &HotelChainManager)
        requires
            board.wf(),
            hotel_chain_manager.wf(),
        ensures
            final(self).position == old(self).position,
            final(self).place_hotel_case@ == spec_analyze(old(self).position, *board, *hotel_chain_manager),
    {
        self.place_hotel_case = analyze_position(&self.position, board, hotel_chain_manager);
    }

    /// Checks if this position is illegal
    pub fn is_illegal(&self) -> (b: bool)
        ensures
            b == (self.place_hotel_case@ is Illegal),
    {
        self.place_hotel_case.is_illegal()
    }
}

/// Analyzes the players hand cards and returns the analyzed positions, in the order of the
/// cards. Illegal positions are included.
pub fn analyze_cards(player_cards: &Vec<Position>, board: &Board, hotel_chain_manager: &HotelChainManager) -> (v:
    Vec<AnalyzedPosition>)
    requires
        board.wf(),
        hotel_chain_manager.wf(),
    ensures
        v@.len() == player_cards@.len(),
        forall|i: int|
            0 <= i < v@.len() ==> (#[trigger] v@[i]).position == player_cards@[i]
                && v@[i].place_hotel_case@ == spec_analyze(player_cards@[i], *board, *hotel_chain_manager),
{
    let mut analyzed_cards: Vec<AnalyzedPosition> = Vec::new();
    let mut i: usize = 0;
    while i < player_cards.len()
        invariant
            board.wf(),
            hotel_chain_manager.wf(),
            i <= player_cards@.len(),
            analyzed_cards@.len() == i,
            forall|j: int|
                0 <= j < i ==> (#[trigger] analyzed_cards@[j]).position == player_cards@[j]
                    && analyzed_cards@[j].place_hotel_case@ == spec_analyze(
                    player_cards@[j],
                    *board,
                    *hotel_chain_manager,
                ),
        decreases player_cards@.len() - i,
    {
        analyzed_cards.push(AnalyzedPosition::new(player_cards[i], board, hotel_chain_manager));
        i = i + 1;
    }
    analyzed_cards
}

} // verus!
