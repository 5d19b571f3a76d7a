//! The lines that the server and the clients of a game on the local network exchange: the
//! commands that a client understands, the message with which it joins, and who receives a
//! message that is sent to all.
use vstd::prelude::*;
use vstd::string::*;

use crate::player::Player;
use crate::player::str_equal;

verus! {

/// Whether the text starts with the prefix.
pub open spec fn starts_with(s: Seq<char>, prefix: Seq<char>) -> bool {
    s.len() >= prefix.len() && s.take(prefix.len() as int) == prefix
}

/// The text without its last character (the text itself when it is empty).
pub open spec fn without_last(s: Seq<char>) -> Seq<char> {
    if s.len() > 0 {
        s.drop_last()
    } else {
        s
    }
}

/// A command that the server sends to a client, as the client understands it.
#[derive(Clone, Debug, PartialEq, Eq)]
pub enum ClientCommand {
    /// Print the text and a line break.
    Println(String),
    /// Print the text.
    Print(String),
    /// Print the text and send back what the user enters.
    Input(String),
    /// Answer that the client is there.
    Ping,
    /// The game has been canceled, for the reason given.
    Terminate(String),
    /// The game is over.
    GameEnded,
    /// Nothing the client understands: it waits for the next line.
    Unknown,
}

/// The command as a value: its kind (0 print with line break, 1 print, 2 input, 3 ping,
/// 4 terminate, 5 game ended, 6 unknown) and its text.
pub open spec fn command_model(c: ClientCommand) -> (u8, Seq<char>) {
    match c {
        ClientCommand::Println(t) => (0u8, t@),
        ClientCommand::Print(t) => (1u8, t@),
        ClientCommand::Input(t) => (2u8, t@),
        ClientCommand::Ping => (3u8, Seq::empty()),
        ClientCommand::Terminate(t) => (4u8, t@),
        ClientCommand::GameEnded => (5u8, Seq::empty()),
        ClientCommand::Unknown => (6u8, Seq::empty()),
    }
}

/// What a line received from the server means: the command that it starts with, and the text
/// after it. The texts to be printed lose their last character (the line break); the reason
/// of a cancellation keeps it.
pub open spec fn spec_parse_line(line: Seq<char>) -> (u8, Seq<char>) {
    if starts_with(line, "$Println"@) {
        (0u8, without_last(line.skip(8)))
    } else if starts_with(line, "$Print"@) {
        (1u8, without_last(line.skip(6)))
    } else if starts_with(line, "$Input"@) {
        (2u8, without_last(line.skip(6)))
    } else if starts_with(line, "$Ping"@) {
        (3u8, Seq::empty())
    } else if starts_with(line, "$TERMINATE"@) {
        (4u8, line.skip(10))
    } else if starts_with(line, "$GameEnded"@) {
        (5u8, Seq::empty())
    } else {
        (6u8, Seq::empty())
    }
}

/// Whether the text starts with the prefix.
pub fn text_starts_with(s: &str, prefix: &str) -> (b: bool)
    ensures
        b == starts_with(s@, prefix@),
{
    let n = prefix.unicode_len();
    if s.unicode_len() < n {
        return false;
    }
    let mut i: usize = 0;
    while i < n
        invariant
            n == prefix@.len(),
            n <= s@.len(),
            i <= n,
            forall|j: int| 0 <= j < i ==> s@[j] == prefix@[j],
        decreases n - i,
    {
        if s.get_char(i) != prefix.get_char(i) {
            assert(s@.take(n as int)[i as int] != prefix@[i as int]);
            return false;
        }
        i = i + 1;
    }
    assert(s@.take(n as int) =~= prefix@);
    true
}

/// The text after the first `k` characters, without its last character when `drop` is set.
fn rest_of(line: &str, k: usize, drop: bool) -> (s: String)
    requires
        k <= line@.len(),
    ensures
        s@ == if drop {
            without_last(line@.skip(k as int))
        } else {
            line@.skip(k as int)
        },
{
    let n = line.unicode_len();
    let end = if drop && n > k {
        n - 1
    } else {
        n
    };
    let t = line.substring_char(k, end);
    let s = String::from_str(t);
    assert(s@ =~= if drop {
        without_last(line@.skip(k as int))
    } else {
        line@.skip(k as int)
    });
    s
}

/// Tells what a line received from the server means.
pub fn parse_server_line(line: &str) -> (c: ClientCommand)
    ensures
        command_model(c) == spec_parse_line(line@),
{
    proof {
        reveal_strlit("$Println");
        reveal_strlit("$Print");
        reveal_strlit("$Input");
        reveal_strlit("$Ping");
        reveal_strlit("$TERMINATE");
        reveal_strlit("$GameEnded");
    }
    if text_starts_with(line, "$Println") {
        ClientCommand::Println(rest_of(line, 8, true))
    } else if text_starts_with(line, "$Print") {
        ClientCommand::Print(rest_of(line, 6, true))
    } else if text_starts_with(line, "$Input") {
        ClientCommand::Input(rest_of(line, 6, true))
    } else if text_starts_with(line, "$Ping") {
        ClientCommand::Ping
    } else if text_starts_with(line, "$TERMINATE") {
        ClientCommand::Terminate(rest_of(line, 10, false))
    } else if text_starts_with(line, "$GameEnded") {
        ClientCommand::GameEnded
    } else {
        ClientCommand::Unknown
    }
}

/// The message with which a client joins a game: whether it shows the board small, and the
/// player's name.
pub open spec fn spec_init_message(small_board: bool, name: Seq<char>) -> Seq<char> {
    "$Init"@ + (if small_board {
        "true"@
    } else {
        "false"@
    }) + "$Name"@ + name + "\n"@
}

/// Returns the message with which a client joins a game.
pub fn init_message(small_board: bool, name: &str) -> (s: String)
    ensures
        s@ == spec_init_message(small_board, name@),
{
    let mut s = String::from_str("$Init");
    if small_board {
        s.append("true");
    } else {
        s.append("false");
    }
    s.append("$Name");
    s.append(name);
    s.append("\n");
    s
}

/// Whether the character is white space (the characters of Unicode's `White_Space`, as
/// `char::is_whitespace` tells them).
pub open spec fn is_white(c: char) -> bool {
    let n = c as u32;
    ||| 9 <= n <= 13
    ||| n == 32
    ||| n == 0x85
    ||| n == 0xA0
    ||| n == 0x1680
    ||| 0x2000 <= n <= 0x200A
    ||| n == 0x2028
    ||| n == 0x2029
    ||| n == 0x202F
    ||| n == 0x205F
    ||| n == 0x3000
}

/// Checks whether the character is white space.
fn white(c: char) -> (b: bool)
    ensures
        b == is_white(c),
{
    let n = c as u32;
    (9 <= n && n <= 13) || n == 32 || n == 0x85 || n == 0xA0 || n == 0x1680 || (0x2000 <= n && n <= 0x200A) || n
        == 0x2028 || n == 0x2029 || n == 0x202F || n == 0x205F || n == 0x3000
}

/// The text without the white space at its start and at its end.
pub open spec fn trimmed(s: Seq<char>) -> Seq<char> {
    let a = first_non_white(s, 0);
    let b = last_non_white_end(s, s.len() as int);
    if a < b {
        s.subrange(a, b)
    } else {
        Seq::empty()
    }
}

/// The index of the first character from `i` on that is not white space (the length when
/// there is none).
pub open spec fn first_non_white(s: Seq<char>, i: int) -> int
    decreases s.len() - i,
{
    if i >= s.len() || i < 0 {
        s.len() as int
    } else if !is_white(s[i]) {
        i
    } else {
        first_non_white(s, i + 1)
    }
}

/// One past the index of the last character before `j` that is not white space (0 when there
/// is none).
pub open spec fn last_non_white_end(s: Seq<char>, j: int) -> int
    decreases j,
{
    if j <= 0 || j > s.len() {
        0
    } else if !is_white(s[j - 1]) {
        j
    } else {
        last_non_white_end(s, j - 1)
    }
}

/// The end found from `j` down is never past `j`.
proof fn lemma_last_non_white_end(s: Seq<char>, j: int)
    ensures
        last_non_white_end(s, j) <= if j > 0 {
            j
        } else {
            0
        },
        last_non_white_end(s, j) >= 0,
    decreases j,
{
    if j > 0 && j <= s.len() {
        lemma_last_non_white_end(s, j - 1);
    }
}

/// Returns the text without the white space at its start and at its end.
pub fn trim(s: &str) -> (t: String)
    ensures
        t@ == trimmed(s@),
{
    let n = s.unicode_len();
    let mut a: usize = 0;
    while a < n && white(s.get_char(a))
        invariant
            n == s@.len(),
            a <= n,
            first_non_white(s@, 0) == first_non_white(s@, a as int),
        decreases n - a,
    {
        a = a + 1;
    }
    let mut b: usize = n;
    while b > a && white(s.get_char(b - 1))
        invariant
            n == s@.len(),
            a <= b <= n,
            last_non_white_end(s@, n as int) == last_non_white_end(s@, b as int),
        decreases b,
    {
        b = b - 1;
    }
    proof {
        lemma_last_non_white_end(s@, b as int);
    }
    if a < b {
        let t = String::from_str(s.substring_char(a, b));
        t
    } else {
        String::new()
    }
}

/// The index of the first place from `i` on where `p` stands in `s`.
pub open spec fn find_from(s: Seq<char>, p: Seq<char>, i: int) -> Option<int>
    decreases s.len() - i,
{
    if i < 0 || i + p.len() > s.len() {
        None
    } else if s.subrange(i, i + p.len()) == p {
        Some(i)
    } else if i >= s.len() {
        None
    } else {
        find_from(s, p, i + 1)
    }
}

/// A place found is a place from `i` on where `p` stands.
proof fn lemma_find_from(s: Seq<char>, p: Seq<char>, i: int)
    ensures
        find_from(s, p, i) matches Some(k) ==> i <= k && k + p.len() <= s.len() && s.subrange(k, k + p.len()) == p,
    decreases s.len() - i,
{
    if !(i < 0 || i + p.len() > s.len()) && s.subrange(i, i + p.len()) != p && i < s.len() {
        lemma_find_from(s, p, i + 1);
    }
}

/// What a client says when it joins.
#[derive(Debug)]
pub enum JoinMessage {
    /// The line is no join message.
    NotJoin,
    /// The line starts as a join message but names no player.
    Malformed,
    /// The client joins: whether it shows the board small, and the player's name.
    Join { small_board: bool, name: String },
}

/// The join message as a value: its kind (0 no join message, 1 malformed, 2 join), whether
/// the board is small, and the name.
pub open spec fn join_model(j: JoinMessage) -> (u8, bool, Seq<char>) {
    match j {
        JoinMessage::NotJoin => (0u8, false, Seq::empty()),
        JoinMessage::Malformed => (1u8, false, Seq::empty()),
        JoinMessage::Join { small_board, name } => (2u8, small_board, name@),
    }
}

/// What a line that a client sends when it joins means: after `$Init` comes `true` when the
/// board is small, then `$Name` and the name, whose surrounding white space is dropped.
pub open spec fn spec_parse_join(line: Seq<char>) -> (u8, bool, Seq<char>) {
    if !starts_with(line, "$Init"@) {
        (0u8, false, Seq::empty())
    } else {
        let rest = line.skip(5);
        match find_from(rest, "$Name"@, 0) {
            None => (1u8, false, Seq::empty()),
            Some(k) => (2u8, rest.take(k) == "true"@, trimmed(rest.skip(k + 5))),
        }
    }
}

/// Finds the first place from `i` on where `p` stands in `s`.
fn find_text(s: &str, p: &str, i: usize) -> (r: Option<usize>)
    requires
        i <= s@.len(),
    ensures
        match r {
            Some(k) => find_from(s@, p@, i as int) == Some(k as int),
            None => find_from(s@, p@, i as int) is None,
        },
    decreases s@.len() - i,
{
    let n = s.unicode_len();
    let m = p.unicode_len();
    if m > n - i {
        return None;
    }
    let part = s.substring_char(i, i + m);
    if m == 0 {
        assert(part@ =~= p@);
    }
    if str_equal(part, p) {
        return Some(i);
    }
    find_text(s, p, i + 1)
}

/// Tells what a client says when it joins.
pub fn parse_join_message(line: &str) -> (j: JoinMessage)
    ensures
        join_model(j) == spec_parse_join(line@),
{
    proof {
        reveal_strlit("$Init");
        reveal_strlit("$Name");
    }
    if !text_starts_with(line, "$Init") {
        return JoinMessage::NotJoin;
    }
    let n = line.unicode_len();
    let rest = line.substring_char(5, n);
    assert(rest@ =~= line@.skip(5));
    let found = find_text(rest, "$Name", 0);
    proof {
        lemma_find_from(rest@, "$Name"@, 0);
    }
    match found {
        None => JoinMessage::Malformed,
        Some(k) => {
            let first = rest.substring_char(0, k);
            let small_board = str_equal(first, "true");
            let len = rest.unicode_len();
            let after = rest.substring_char(k + 5, len);
            assert(first@ =~= rest@.take(k as int));
            assert(after@ =~= rest@.skip(k + 5));
            JoinMessage::Join { small_board, name: trim(after) }
        },
    }
}

/// The pieces of the text between its line breaks (one piece when it has none).
pub open spec fn split_lines(s: Seq<char>) -> Seq<Seq<char>>
    decreases s.len(),
{
    if s.len() == 0 {
        seq![Seq::empty()]
    } else {
        let r = split_lines(s.drop_last());
        if s.last() == '\n' {
            r.push(Seq::empty())
        } else {
            r.update(r.len() - 1, r.last().push(s.last()))
        }
    }
}

/// There is always at least one piece.
proof fn lemma_split_lines_len(s: Seq<char>)
    ensures
        split_lines(s).len() >= 1,
    decreases s.len(),
{
    if s.len() > 0 {
        lemma_split_lines_len(s.drop_last());
    }
}

/// The lines sent to a client for a text: each piece of the text between its line breaks,
/// after the command and followed by a line break.
pub open spec fn spec_frames(text: Seq<char>, command: Seq<char>) -> Seq<Seq<char>> {
    split_lines(text).map_values(|piece: Seq<char>| command + piece + "\n"@)
}

/// Returns the lines to send to a client for the text and the command.
pub fn frame_message(text: &str, command: &str) -> (v: Vec<String>)
    ensures
        v@.map_values(|s: String| s@) == spec_frames(text@, command@),
{
    let n = text.unicode_len();
    let mut pieces: Vec<String> = Vec::new();
    let mut current = String::new();
    let mut i: usize = 0;
    while i < n
        invariant
            n == text@.len(),
            i <= n,
            pieces@.map_values(|s: String| s@).push(current@) == split_lines(text@.take(i as int)),
        decreases n - i,
    {
        let c = text.get_char(i);
        let ghost before = pieces@.map_values(|s: String| s@).push(current@);
        proof {
            assert(text@.take(i + 1).drop_last() =~= text@.take(i as int));
            assert(text@.take(i + 1).last() == c);
        }
        if c == '\n' {
            let done = current;
            pieces.push(done);
            current = String::new();
            assert(pieces@.map_values(|s: String| s@).push(current@) =~= before.push(Seq::empty()));
        } else {
            crate::text::push_char(&mut current, c);
            assert(pieces@.map_values(|s: String| s@).push(current@) =~= before.update(
                before.len() - 1,
                before.last().push(c),
            ));
        }
        i = i + 1;
    }
    assert(text@.take(n as int) =~= text@);
    pieces.push(current);
    let ghost parts = pieces@.map_values(|s: String| s@);
    assert(parts == split_lines(text@));
    let mut frames: Vec<String> = Vec::new();
    let mut k: usize = 0;
    while k < pieces.len()
        invariant
            k <= pieces@.len(),
            parts == pieces@.map_values(|s: String| s@),
            frames@.map_values(|s: String| s@) == parts.take(k as int).map_values(
                |piece: Seq<char>| command@ + piece + "\n"@,
            ),
        decreases pieces@.len() - k,
    {
        let mut line = String::from_str(command);
        line.append(pieces[k].as_str());
        line.append("\n");
        let ghost fb = frames@;
        frames.push(line);
        proof {
            assert(frames@.map_values(|s: String| s@) =~= fb.map_values(|s: String| s@).push(line@));
            assert(parts.take(k + 1) =~= parts.take(k as int).push(parts[k as int]));
            assert(frames@.map_values(|s: String| s@) =~= parts.take(k + 1).map_values(
                |piece: Seq<char>| command@ + piece + "\n"@,
            ));
        }
        k = k + 1;
    }
    assert(parts.take(pieces@.len() as int) =~= parts);
    frames
}

/// The players that receive a message sent to all, by whether each plays on the network: every
/// player on the network, and the first player at this machine (the others at this machine
/// share its screen).
pub open spec fn spec_broadcast_targets(remote: Seq<bool>, k: int) -> Seq<usize>
    decreases k,
{
    if k <= 0 {
        Seq::empty()
    } else {
        let rest = spec_broadcast_targets(remote, k - 1);
        if remote[k - 1] || forall|j: int| 0 <= j < k - 1 ==> #[trigger] remote[j] {
            rest.push((k - 1) as usize)
        } else {
            rest
        }
    }
}

/// Returns the players that receive a message sent to all.
pub fn broadcast_targets(remote: &Vec<bool>) -> (v: Vec<usize>)
    ensures
        v@ == spec_broadcast_targets(remote@, remote@.len() as int),
{
    let mut v: Vec<usize> = Vec::new();
    let mut written_to_console = false;
    let mut i: usize = 0;
    while i < remote.len()
        invariant
            i <= remote@.len(),
            v@ == spec_broadcast_targets(remote@, i as int),
            written_to_console <==> exists|j: int| 0 <= j < i && !#[trigger] remote@[j],
        decreases remote@.len() - i,
    {
        if !remote[i] {
            if !written_to_console {
                v.push(i);
                written_to_console = true;
            }
        } else {
            v.push(i);
        }
        proof {
            if !remote@[i as int] {
                assert(!remote@[i as int]);
            }
        }
        i = i + 1;
    }
    v
}

/// The players other than the one with the name, who receive a message about that player's
/// move.
pub open spec fn spec_other_players(ps: Seq<Player>, name: Seq<char>, k: int) -> Seq<usize>
    decreases k,
{
    if k <= 0 {
        Seq::empty()
    } else {
        let rest = spec_other_players(ps, name, k - 1);
        if ps[k - 1].name@ != name {
            rest.push((k - 1) as usize)
        } else {
            rest
        }
    }
}

/// Returns the players other than the one with the name.
pub fn other_players(players: &Vec<Player>, current_player_name: &str) -> (v: Vec<usize>)
    ensures
        v@ == spec_other_players(players@, current_player_name@, players@.len() as int),
{
    let mut v: Vec<usize> = Vec::new();
    let mut i: usize = 0;
    while i < players.len()
        invariant
            i <= players@.len(),
            v@ == spec_other_players(players@, current_player_name@, i as int),
        decreases players@.len() - i,
    {
        if !str_equal(players[i].name.as_str(), current_player_name) {
            v.push(i);
        }
        i = i + 1;
    }
    v
}

/// A line framed for a client is read back as the command it was framed with and the piece of
/// text, when the piece holds no line break; a text printed without a line break is read back
/// so too unless it starts with `ln`, which makes its line look like a print with a line break.
pub proof fn lemma_frame_then_parse(piece: Seq<char>)
    ensures
        spec_parse_line("$Println"@ + piece + "\n"@) == (0u8, piece),
        spec_parse_line("$Input"@ + piece + "\n"@) == (2u8, piece),
        !starts_with(piece, "ln"@) ==> spec_parse_line("$Print"@ + piece + "\n"@) == (1u8, piece),
{
    reveal_strlit("$Println");
    reveal_strlit("$Print");
    reveal_strlit("$Input");
    reveal_strlit("\n");
    reveal_strlit("ln");
    let l1 = "$Println"@ + piece + "\n"@;
    assert(l1.take(8) =~= "$Println"@);
    assert(l1.skip(8).drop_last() =~= piece);
    let l2 = "$Input"@ + piece + "\n"@;
    assert(l2.take(6) =~= "$Input"@);
    assert(l2.skip(6).drop_last() =~= piece);
    assert(l2[1] == 'I');
    if l2.len() >= 8 {
        assert(l2.take(8)[1] != "$Println"@[1]);
    }
    let l3 = "$Print"@ + piece + "\n"@;
    assert(l3.take(6) =~= "$Print"@);
    assert(l3.skip(6).drop_last() =~= piece);
    if !starts_with(piece, "ln"@) && l3.len() >= 8 {
        if l3.take(8) =~= "$Println"@ {
            assert(l3.take(8)[6] == "$Println"@[6]);
            assert(l3.take(8)[7] == "$Println"@[7]);
            assert(l3[6] == 'l' && l3[7] == 'n');
            if piece.len() == 0 {
                assert(l3[6] == '\n');
            } else if piece.len() == 1 {
                assert(l3[7] == '\n');
            } else {
                assert(l3[6] == piece[0] && l3[7] == piece[1]);
                assert(piece.take(2) =~= "ln"@);
            }
        }
    }
}

/// The search finds `p` at `k` when no character from `i` up to `k` starts it.
proof fn lemma_find_at(s: Seq<char>, p: Seq<char>, i: int, k: int)
    requires
        0 <= i <= k,
        p.len() > 0,
        k + p.len() <= s.len(),
        s.subrange(k, k + p.len()) == p,
        forall|j: int| i <= j < k ==> s[j] != p[0],
    ensures
        find_from(s, p, i) == Some(k),
    decreases k - i,
{
    if i < k {
        assert(s.subrange(i, i + p.len())[0] != p[0]);
        lemma_find_at(s, p, i + 1, k);
    }
}

/// What a client writes when it joins is read back by the server: whether the board is small,
/// and the name without the white space around it.
pub proof fn lemma_join_round_trip(small_board: bool, name: Seq<char>)
    ensures
        spec_parse_join(spec_init_message(small_board, name)) == (2u8, small_board, trimmed(name)),
{
    reveal_strlit("$Init");
    reveal_strlit("$Name");
    reveal_strlit("true");
    reveal_strlit("false");
    reveal_strlit("\n");
    let tf = if small_board {
        "true"@
    } else {
        "false"@
    };
    let line = spec_init_message(small_board, name);
    assert(line.take(5) =~= "$Init"@);
    let rest = line.skip(5);
    assert(rest =~= tf + "$Name"@ + name + "\n"@);
    let k = tf.len() as int;
    assert(rest.subrange(k, k + 5) =~= "$Name"@);
    assert forall|j: int| 0 <= j < k implies rest[j] != "$Name"@[0] by {
        assert(rest[j] == tf[j]);
    }
    lemma_find_at(rest, "$Name"@, 0, k);
    assert(rest.take(k) =~= tf);
    assert(rest.skip(k + 5) =~= name + "\n"@);
    if !small_board {
        assert(tf.len() != "true"@.len());
    }
    assert(name + "\n"@ =~= name.push('\n'));
    assert(is_white('\n'));
    lemma_trim_white_end(name, '\n');
}

/// Below the end of `s`, the end search sees the same characters in `s` with one more.
proof fn lemma_last_end_push(s: Seq<char>, c: char, j: int)
    requires
        0 <= j <= s.len(),
    ensures
        last_non_white_end(s.push(c), j) == last_non_white_end(s, j),
    decreases j,
{
    if j > 0 {
        assert(s.push(c)[j - 1] == s[j - 1]);
        lemma_last_end_push(s, c, j - 1);
    }
}

/// With one more white character, the start search finds the same start, or the new end when
/// the text is all white.
proof fn lemma_first_push_white(s: Seq<char>, c: char, i: int)
    requires
        is_white(c),
        0 <= i <= s.len(),
    ensures
        first_non_white(s.push(c), i) == if first_non_white(s, i) < s.len() {
            first_non_white(s, i)
        } else {
            s.len() + 1int
        },
        i <= first_non_white(s, i) <= s.len(),
    decreases s.len() - i,
{
    if i < s.len() {
        assert(s.push(c)[i] == s[i]);
        lemma_first_push_white(s, c, i + 1);
    } else {
        assert(s.push(c)[i] == c);
        assert(first_non_white(s.push(c), i + 1) == s.len() + 1);
    }
}

/// White space at the end of a text does not change the trimmed text.
pub proof fn lemma_trim_white_end(s: Seq<char>, c: char)
    requires
        is_white(c),
    ensures
        trimmed(s.push(c)) == trimmed(s),
{
    lemma_first_push_white(s, c, 0);
    lemma_last_end_push(s, c, s.len() as int);
    lemma_last_non_white_end(s, s.len() as int);
    let t = s.push(c);
    assert(t[s.len() as int] == c);
    assert(last_non_white_end(t, t.len() as int) == last_non_white_end(t, s.len() as int));
    let a = first_non_white(s, 0);
    let b = last_non_white_end(s, s.len() as int);
    if a < b {
        assert(t.subrange(a, b) =~= s.subrange(a, b));
    }
}

} // verus!
