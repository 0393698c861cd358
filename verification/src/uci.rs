use vstd::prelude::*;
use vstd::string::StringExecFns;
use crate::text::{
    chars_to_string, eq_text, parse_uint, split_lines, split_words, text_chars, uint_value, words,
    lines_of,
};
use crate::types::Color;
use crate::search::{SearchLimits, SearchResult, instant_now, search, search_outcome};
use crate::game::{Game, STARTPOS_FEN, first_with_text};
use crate::fen::{fen_spec, fen_fields};
use crate::movegen::{ep_capture_onto_own, legal_moves, playable};
use crate::mv::{Move, move_text};
use crate::position::{FenError, Position, State, after_move, state_before};
use std::time::{Duration, Instant};

verus! {

/// The deepest a timed search goes.
pub const TIMED_SEARCH_MAX_DEPTH: u8 = 64;
/// Milliseconds kept back from every time budget.
pub const CLOCK_SAFETY_MS: u64 = 10;
/// Moves counted as left in the period when the GUI does not say.
pub const DEFAULT_MOVES_TO_GO: u64 = 30;

/// A command of the UCI protocol that the engine acts on.
#[derive(Debug, Clone, PartialEq, Eq)]
pub enum UciCommand {
    Uci,
    IsReady,
    UciNewGame,
    Quit,
    Stop,
    Position(PositionCommand),
    Go(GoCommand),
    Ignore,
}

/// A `position` command: where to start and the moves to play from there.
#[derive(Debug, Clone, PartialEq, Eq)]
pub struct PositionCommand {
    pub base: PositionBase,
    pub moves: Vec<String>,
}

/// The start of a `position` command.
#[derive(Debug, Clone, PartialEq, Eq)]
pub enum PositionBase {
    Startpos,
    Fen(String),
}

/// The limits a `go` command gives; fields it does not name are `None`.
#[derive(Debug, Clone, Copy, Default, PartialEq, Eq)]
pub struct GoCommand {
    pub depth: Option<u8>,
    pub movetime_ms: Option<u64>,
    pub wtime_ms: Option<u64>,
    pub btime_ms: Option<u64>,
    pub winc_ms: Option<u64>,
    pub binc_ms: Option<u64>,
    pub movestogo: Option<u32>,
}

/// The words of a text as character sequences.
pub open spec fn word_views(ws: Seq<Vec<char>>) -> Seq<Seq<char>> {
    ws.map_values(|w: Vec<char>| w@)
}

/// Words joined with single spaces.
pub open spec fn join_words(ws: Seq<Seq<char>>) -> Seq<char>
    decreases ws.len(),
{
    if ws.len() == 0 {
        seq![]
    } else if ws.len() == 1 {
        ws[0]
    } else {
        join_words(ws.drop_last()) + seq![' '] + ws.last()
    }
}

/// The moves after a position's start: none, or the words after `moves`.
pub open spec fn moves_part(rest: Seq<Seq<char>>) -> Option<Seq<Seq<char>>> {
    if rest.len() == 0 {
        Some(seq![])
    } else if rest[0] == "moves"@ {
        Some(rest.drop_first())
    } else {
        None
    }
}

/// The meaning of the words after `position`: the FEN text (none for the
/// start position) and the move words; `None` when malformed.
pub open spec fn position_spec(t: Seq<Seq<char>>) -> Option<(Option<Seq<char>>, Seq<Seq<char>>)> {
    if t.len() == 0 {
        None
    } else if t[0] == "startpos"@ {
        match moves_part(t.drop_first()) {
            Some(m) => Some((None, m)),
            None => None,
        }
    } else if t[0] == "fen"@ {
        if t.len() < 7 {
            None
        } else {
            match moves_part(t.skip(7)) {
                Some(m) => Some((Some(join_words(t.subrange(1, 7))), m)),
                None => None,
            }
        }
    } else {
        None
    }
}

/// The FEN text of a position start, none for the start position.
pub open spec fn base_view(b: PositionBase) -> Option<Seq<char>> {
    match b {
        PositionBase::Startpos => None,
        PositionBase::Fen(s) => Some(s@),
    }
}

/// The moves of a position command as character sequences.
pub open spec fn moves_view(ms: Seq<String>) -> Seq<Seq<char>> {
    ms.map_values(|s: String| s@)
}

/// A `go` command that names nothing.
pub open spec fn no_limits() -> GoCommand {
    GoCommand {
        depth: None,
        movetime_ms: None,
        wtime_ms: None,
        btime_ms: None,
        winc_ms: None,
        binc_ms: None,
        movestogo: None,
    }
}

/// The number after the word at `i`, when there is one and it fits `max`.
pub open spec fn value_after(t: Seq<Seq<char>>, i: int, max: nat) -> Option<nat> {
    if i + 1 < t.len() {
        uint_value(t[i + 1], max)
    } else {
        None
    }
}

/// Reads `go` arguments from word `i` on: a known key takes the number that
/// follows it (a missing or bad number makes the command malformed), an
/// unknown word is skipped.
pub open spec fn go_scan(t: Seq<Seq<char>>, i: int, acc: GoCommand) -> Option<GoCommand>
    decreases t.len() - i,
{
    if i >= t.len() || i < 0 {
        Some(acc)
    } else {
        let key = t[i];
        if key == "depth"@ {
            match value_after(t, i, 255) {
                Some(v) => go_scan(t, i + 2, GoCommand { depth: Some(v as u8), ..acc }),
                None => None,
            }
        } else if key == "movetime"@ {
            match value_after(t, i, u64::MAX as nat) {
                Some(v) => go_scan(t, i + 2, GoCommand { movetime_ms: Some(v as u64), ..acc }),
                None => None,
            }
        } else if key == "wtime"@ {
            match value_after(t, i, u64::MAX as nat) {
                Some(v) => go_scan(t, i + 2, GoCommand { wtime_ms: Some(v as u64), ..acc }),
                None => None,
            }
        } else if key == "btime"@ {
            match value_after(t, i, u64::MAX as nat) {
                Some(v) => go_scan(t, i + 2, GoCommand { btime_ms: Some(v as u64), ..acc }),
                None => None,
            }
        } else if key == "winc"@ {
            match value_after(t, i, u64::MAX as nat) {
                Some(v) => go_scan(t, i + 2, GoCommand { winc_ms: Some(v as u64), ..acc }),
                None => None,
            }
        } else if key == "binc"@ {
            match value_after(t, i, u64::MAX as nat) {
                Some(v) => go_scan(t, i + 2, GoCommand { binc_ms: Some(v as u64), ..acc }),
                None => None,
            }
        } else if key == "movestogo"@ {
            match value_after(t, i, u32::MAX as nat) {
                Some(v) => go_scan(t, i + 2, GoCommand { movestogo: Some(v as u32), ..acc }),
                None => None,
            }
        } else {
            go_scan(t, i + 1, acc)
        }
    }
}

/// The meaning of the words after `go`: the limits, `None` when malformed
/// or when no limit is named.
pub open spec fn go_spec(t: Seq<Seq<char>>) -> Option<GoCommand> {
    match go_scan(t, 0, no_limits()) {
        Some(g) => if g == no_limits() {
            None
        } else {
            Some(g)
        },
        None => None,
    }
}

/// Whether a command is what a line says: its first word names the
/// command, and `position` and `go` read the words after it.
#[verifier::opaque]
pub open spec fn command_of(line: Seq<char>, r: UciCommand) -> bool {
    let t = words(line);
    if t.len() == 0 {
        r is Ignore
    } else if t[0] == "uci"@ {
        r is Uci
    } else if t[0] == "isready"@ {
        r is IsReady
    } else if t[0] == "ucinewgame"@ {
        r is UciNewGame
    } else if t[0] == "quit"@ {
        r is Quit
    } else if t[0] == "stop"@ {
        r is Stop
    } else if t[0] == "position"@ {
        match position_spec(t.drop_first()) {
            None => r is Ignore,
            Some((base, moves)) => r matches UciCommand::Position(pc) && base_view(pc.base) == base
                && moves_view(pc.moves@) == moves,
        }
    } else if t[0] == "go"@ {
        match go_spec(t.drop_first()) {
            None => r is Ignore,
            Some(g) => r == UciCommand::Go(g),
        }
    } else {
        r is Ignore
    }
}

/// Reads one line of the UCI protocol.
pub fn parse_command(line: &str) -> (r: UciCommand)
    ensures
        command_of(line@, r),
{
    proof {
        reveal(command_of);
    }
    let chars = text_chars(line);
    let tokens = split_words(&chars);
    assert(word_views(tokens@) == words(line@));
    if tokens.len() == 0 {
        return UciCommand::Ignore;
    }
    assert(tokens@[0]@ == words(line@)[0]);
    let first = &tokens[0];
    if eq_text(first, "uci") {
        UciCommand::Uci
    } else if eq_text(first, "isready") {
        UciCommand::IsReady
    } else if eq_text(first, "ucinewgame") {
        UciCommand::UciNewGame
    } else if eq_text(first, "quit") {
        UciCommand::Quit
    } else if eq_text(first, "stop") {
        UciCommand::Stop
    } else if eq_text(first, "position") {
        let rest = words_from(&tokens, 1);
        parse_position(&rest)
    } else if eq_text(first, "go") {
        let rest = words_from(&tokens, 1);
        parse_go(&rest)
    } else {
        UciCommand::Ignore
    }
}

fn copy_chars(v: &Vec<char>) -> (r: Vec<char>)
    ensures
        r@ == v@,
{
    let mut r: Vec<char> = Vec::new();
    let mut i: usize = 0;
    while i < v.len()
        invariant
            i <= v@.len(),
            r@ == v@.take(i as int),
        decreases v@.len() - i,
    {
        r.push(v[i]);
        i = i + 1;
        assert(r@ =~= v@.take(i as int));
    }
    assert(v@.take(v@.len() as int) =~= v@);
    r
}

/// The words from index `start` on.
fn words_from(tokens: &Vec<Vec<char>>, start: usize) -> (r: Vec<Vec<char>>)
    requires
        start <= tokens@.len(),
    ensures
        word_views(r@) == word_views(tokens@).skip(start as int),
{
    let mut r: Vec<Vec<char>> = Vec::new();
    let mut i: usize = start;
    while i < tokens.len()
        invariant
            start <= i <= tokens@.len(),
            word_views(r@) == word_views(tokens@).subrange(start as int, i as int),
        decreases tokens@.len() - i,
    {
        assert(tokens@[i as int]@ == word_views(tokens@)[i as int]);
        let ghost old_v = word_views(r@);
        let item = copy_chars(&tokens[i]);
        r.push(item);
        i = i + 1;
        assert(word_views(r@) =~= old_v.push(item@));
        assert(word_views(tokens@).subrange(start as int, i as int) =~= word_views(tokens@).subrange(start as int, i - 1).push(word_views(tokens@)[i - 1]));
    }
    assert(word_views(tokens@).subrange(start as int, tokens@.len() as int) =~= word_views(tokens@).skip(start as int));
    r
}

/// The words from index `start` on, as strings.
fn strings_from(tokens: &Vec<Vec<char>>, start: usize) -> (r: Vec<String>)
    requires
        start <= tokens@.len(),
    ensures
        moves_view(r@) == word_views(tokens@).skip(start as int),
{
    let mut r: Vec<String> = Vec::new();
    let mut i: usize = start;
    while i < tokens.len()
        invariant
            start <= i <= tokens@.len(),
            moves_view(r@) == word_views(tokens@).subrange(start as int, i as int),
        decreases tokens@.len() - i,
    {
        assert(tokens@[i as int]@ == word_views(tokens@)[i as int]);
        let ghost old_v = moves_view(r@);
        let item = chars_to_string(&tokens[i]);
        r.push(item);
        i = i + 1;
        assert(moves_view(r@) =~= old_v.push(item@));
        assert(word_views(tokens@).subrange(start as int, i as int) =~= word_views(tokens@).subrange(start as int, i - 1).push(word_views(tokens@)[i - 1]));
    }
    assert(word_views(tokens@).subrange(start as int, tokens@.len() as int) =~= word_views(tokens@).skip(start as int));
    r
}

/// Reads the words after `position`.
fn parse_position(tokens: &Vec<Vec<char>>) -> (r: UciCommand)
    ensures
        match position_spec(word_views(tokens@)) {
            None => r is Ignore,
            Some((base, moves)) => r matches UciCommand::Position(pc) && base_view(pc.base) == base
                && moves_view(pc.moves@) == moves,
        },
{
    let ghost t = word_views(tokens@);
    if tokens.len() == 0 {
        return UciCommand::Ignore;
    }
    assert(tokens@[0]@ == t[0]);
    let (base, rest_start) = if eq_text(&tokens[0], "startpos") {
        (PositionBase::Startpos, 1usize)
    } else if eq_text(&tokens[0], "fen") {
        if tokens.len() < 7 {
            return UciCommand::Ignore;
        }
        let mut fen: Vec<char> = Vec::new();
        let mut k: usize = 1;
        while k < 7
            invariant
                1 <= k <= 7,
                tokens@.len() >= 7,
                t == word_views(tokens@),
                fen@ == join_words(t.subrange(1, k as int)),
            decreases 7 - k,
        {
            assert(tokens@[k as int]@ == t[k as int]);
            let ghost before = fen@;
            if k > 1 {
                fen.push(' ');
            }
            let mut c: usize = 0;
            let word = &tokens[k];
            while c < word.len()
                invariant
                    c <= word@.len(),
                    fen@ == (if k > 1 {
                        before + seq![' ']
                    } else {
                        before
                    }) + word@.take(c as int),
                decreases word@.len() - c,
            {
                fen.push(word[c]);
                c = c + 1;
                assert(fen@ =~= (if k > 1 {
                    before + seq![' ']
                } else {
                    before
                }) + word@.take(c as int));
            }
            assert(word@.take(word@.len() as int) =~= word@);
            let ghost ws = t.subrange(1, k + 1);
            assert(ws.drop_last() =~= t.subrange(1, k as int));
            if k == 1 {
                assert(before =~= Seq::<char>::empty());
                assert(fen@ =~= join_words(ws));
            }
            k = k + 1;
        }
        (PositionBase::Fen(chars_to_string(&fen)), 7usize)
    } else {
        return UciCommand::Ignore;
    };
    let ghost rest = t.skip(rest_start as int);
    if rest_start == 1 {
        assert(rest =~= t.drop_first());
    }
    let moves: Vec<String> = if tokens.len() == rest_start {
        assert(rest =~= Seq::<Seq<char>>::empty());
        Vec::new()
    } else {
        assert(tokens@[rest_start as int]@ == rest[0]);
        if eq_text(&tokens[rest_start], "moves") {
            let m = strings_from(tokens, rest_start + 1);
            assert(t.skip(rest_start + 1) =~= rest.drop_first());
            m
        } else {
            return UciCommand::Ignore;
        }
    };
    proof {
        if rest_start == 1 {
            assert(moves_view(Seq::<String>::empty()) =~= Seq::<Seq<char>>::empty());
        } else {
            assert(moves_view(Seq::<String>::empty()) =~= Seq::<Seq<char>>::empty());
        }
    }
    UciCommand::Position(PositionCommand { base, moves })
}

/// Reads the number after the word at `index`; on success `index` moves
/// past it.
fn parse_next(tokens: &Vec<Vec<char>>, index: &mut usize, max: u64) -> (r: Option<u64>)
    requires
        *old(index) <= tokens@.len(),
    ensures
        r matches Some(v) ==> value_after(word_views(tokens@), *old(index) - 1, max as nat) == Some(v as nat)
            && *final(index) == *old(index) + 1,
        r is None ==> value_after(word_views(tokens@), *old(index) - 1, max as nat) is None,
{
    if *index >= tokens.len() {
        return None;
    }
    assert(tokens@[*index as int]@ == word_views(tokens@)[*index as int]);
    match parse_uint(&tokens[*index], max) {
        Some(v) => {
            *index = *index + 1;
            Some(v)
        },
        None => None,
    }
}

/// Reads the words after `go`.
fn parse_go(tokens: &Vec<Vec<char>>) -> (r: UciCommand)
    ensures
        match go_spec(word_views(tokens@)) {
            None => r is Ignore,
            Some(g) => r == UciCommand::Go(g),
        },
{
    let ghost t = word_views(tokens@);
    let mut go = GoCommand {
        depth: None,
        movetime_ms: None,
        wtime_ms: None,
        btime_ms: None,
        winc_ms: None,
        binc_ms: None,
        movestogo: None,
    };
    let mut index: usize = 0;
    while index < tokens.len()
        invariant
            index <= tokens@.len(),
            t == word_views(tokens@),
            go_scan(t, 0, no_limits()) == go_scan(t, index as int, go),
        decreases tokens@.len() - index,
    {
        let ghost i = index as int;
        assert(tokens@[i]@ == t[i]);
        let key = &tokens[index];
        index = index + 1;
        if eq_text(key, "depth") {
            match parse_next(tokens, &mut index, 255) {
                Some(v) => go.depth = Some(v as u8),
                None => return UciCommand::Ignore,
            }
        } else if eq_text(key, "movetime") {
            match parse_next(tokens, &mut index, u64::MAX) {
                Some(v) => go.movetime_ms = Some(v),
                None => return UciCommand::Ignore,
            }
        } else if eq_text(key, "wtime") {
            match parse_next(tokens, &mut index, u64::MAX) {
                Some(v) => go.wtime_ms = Some(v),
                None => return UciCommand::Ignore,
            }
        } else if eq_text(key, "btime") {
            match parse_next(tokens, &mut index, u64::MAX) {
                Some(v) => go.btime_ms = Some(v),
                None => return UciCommand::Ignore,
            }
        } else if eq_text(key, "winc") {
            match parse_next(tokens, &mut index, u64::MAX) {
                Some(v) => go.winc_ms = Some(v),
                None => return UciCommand::Ignore,
            }
        } else if eq_text(key, "binc") {
            match parse_next(tokens, &mut index, u64::MAX) {
                Some(v) => go.binc_ms = Some(v),
                None => return UciCommand::Ignore,
            }
        } else if eq_text(key, "movestogo") {
            match parse_next(tokens, &mut index, 4294967295) {
                Some(v) => go.movestogo = Some(v as u32),
                None => return UciCommand::Ignore,
            }
        }
    }
    let empty = go.depth.is_none() && go.movetime_ms.is_none() && go.wtime_ms.is_none()
        && go.btime_ms.is_none() && go.winc_ms.is_none() && go.binc_ms.is_none()
        && go.movestogo.is_none();
    if empty {
        assert(go == no_limits());
        UciCommand::Ignore
    } else {
        UciCommand::Go(go)
    }
}

/// The name of what `Duration::from_millis` returns for a number of
/// milliseconds.
pub uninterp spec fn duration_of_millis(ms: u64) -> Duration;

/// `Duration::from_millis`; the result is named `duration_of_millis`.
#[verifier::external_body]
fn duration_from_millis(ms: u64) -> (d: Duration)
    ensures
        d == duration_of_millis(ms),
{
    Duration::from_millis(ms)
}

/// `Instant::checked_add`: the instant a duration after `now`, if the
/// clock can represent it. The arithmetic of clock readings is not
/// modelled, so nothing is promised of the answer.
#[verifier::external_body]
fn instant_after(now: Instant, budget: Duration) -> Option<Instant> {
    now.checked_add(budget)
}

/// A budget less the safety margin, at least one millisecond.
pub open spec fn margin_spec(ms: u64) -> u64 {
    if ms > CLOCK_SAFETY_MS {
        (ms - CLOCK_SAFETY_MS) as u64
    } else {
        1
    }
}

/// The remaining time of the side to move.
pub open spec fn remaining_of(go: GoCommand, side: Color) -> Option<u64> {
    match side {
        Color::White => go.wtime_ms,
        Color::Black => go.btime_ms,
    }
}

/// The increment of the side to move, zero when not given.
pub open spec fn increment_of(go: GoCommand, side: Color) -> u64 {
    match side {
        Color::White => match go.winc_ms {
            Some(v) => v,
            None => 0,
        },
        Color::Black => match go.binc_ms {
            Some(v) => v,
            None => 0,
        },
    }
}

/// Moves left in the period: as given, 30 when not given, at least one.
pub open spec fn moves_to_go_of(go: GoCommand) -> u64 {
    let m: u64 = match go.movestogo {
        Some(v) => v as u64,
        None => DEFAULT_MOVES_TO_GO,
    };
    if m < 1 {
        1
    } else {
        m
    }
}

/// The clock share before the margin: an even share of the remaining time
/// plus the increment.
pub open spec fn clock_share(go: GoCommand, side: Color, remaining: u64) -> int {
    remaining / moves_to_go_of(go) + increment_of(go, side)
}

/// Whether the clock share fits in a `u64`.
pub open spec fn budget_fits(go: GoCommand, side: Color) -> bool {
    go.movetime_ms is None ==> match remaining_of(go, side) {
        Some(rem) => clock_share(go, side, rem) <= u64::MAX,
        None => true,
    }
}

/// The thinking time in milliseconds a `go` command allows: the move time
/// when given, otherwise the clock share; less the safety margin. None
/// without a clock for the side to move or with a share of zero.
pub open spec fn budget_ms(go: GoCommand, side: Color) -> Option<u64> {
    match go.movetime_ms {
        Some(mt) => Some(margin_spec(mt)),
        None => match remaining_of(go, side) {
            None => None,
            Some(rem) => {
                let share = clock_share(go, side, rem);
                if share == 0 {
                    None
                } else {
                    Some(margin_spec(share as u64))
                }
            },
        },
    }
}

fn apply_safety_margin(ms: u64) -> (r: u64)
    ensures
        r == margin_spec(ms),
{
    let s = ms.saturating_sub(CLOCK_SAFETY_MS);
    if s < 1 {
        1
    } else {
        s
    }
}

/// Checks that the clock share of a `go` command can be computed.
pub fn budget_computable(go: &GoCommand, side_to_move: Color) -> (r: bool)
    ensures
        r == budget_fits(*go, side_to_move),
{
    if go.movetime_ms.is_some() {
        return true;
    }
    let remaining = match side_to_move {
        Color::White => go.wtime_ms,
        Color::Black => go.btime_ms,
    };
    match remaining {
        None => true,
        Some(rem) => {
            let mtg = moves_to_go(go);
            let inc = increment(go, side_to_move);
            rem / mtg <= u64::MAX - inc
        },
    }
}

fn moves_to_go(go: &GoCommand) -> (r: u64)
    ensures
        r == moves_to_go_of(*go),
        r >= 1,
{
    let m: u64 = match go.movestogo {
        Some(v) => v as u64,
        None => DEFAULT_MOVES_TO_GO,
    };
    if m < 1 {
        1
    } else {
        m
    }
}

fn increment(go: &GoCommand, side_to_move: Color) -> (r: u64)
    ensures
        r == increment_of(*go, side_to_move),
{
    match side_to_move {
        Color::White => match go.winc_ms {
            Some(v) => v,
            None => 0,
        },
        Color::Black => match go.binc_ms {
            Some(v) => v,
            None => 0,
        },
    }
}

/// The clock share without a move time: the side's remaining time split
/// over the moves to go (as given, at least one; 30 when not given), plus
/// the side's own increment whenever it is given, whether or not the
/// moves to go are; less a margin of 10 ms, at least 1 ms; none without a
/// remaining time or with a share of zero.
pub proof fn lemma_clock_budget(go: GoCommand, side: Color)
    requires
        go.movetime_ms is None,
    ensures
        ({
            let rem = match side {
                Color::White => go.wtime_ms,
                Color::Black => go.btime_ms,
            };
            let inc: int = match side {
                Color::White => if go.winc_ms is Some { go.winc_ms->0 as int } else { 0 },
                Color::Black => if go.binc_ms is Some { go.binc_ms->0 as int } else { 0 },
            };
            let mtg: int = match go.movestogo {
                Some(m) => if m == 0 { 1 } else { m as int },
                None => 30,
            };
            match rem {
                None => budget_ms(go, side) is None,
                Some(r) => {
                    let share = r as int / mtg + inc;
                    &&& share == 0 ==> budget_ms(go, side) is None
                    &&& share > 0 && share <= u64::MAX ==> budget_ms(go, side) == Some(
                        (if share > 10 { share - 10 } else { 1 }) as u64,
                    )
                }
            }
        }),
{
}

/// Giving the side to move more increment lengthens its clock share by
/// exactly that much, with or without moves to go.
pub proof fn lemma_increment_adds(go: GoCommand, extra: u64)
    requires
        go.movetime_ms is None,
        go.wtime_ms is Some,
        go.winc_ms is Some,
    ensures
        clock_share(GoCommand { winc_ms: Some((go.winc_ms->0 + extra) as u64), ..go }, Color::White, go.wtime_ms->0)
            == clock_share(go, Color::White, go.wtime_ms->0) + extra || go.winc_ms->0 + extra > u64::MAX,
{
}

/// The thinking time a `go` command allows the side to move.
pub fn time_budget_for_go(go: &GoCommand, side_to_move: Color) -> (r: Option<Duration>)
    requires
        budget_fits(*go, side_to_move),
    ensures
        r == match budget_ms(*go, side_to_move) {
            Some(ms) => Some(duration_of_millis(ms)),
            None => None,
        },
{
    match go.movetime_ms {
        Some(movetime_ms) => {
            return Some(duration_from_millis(apply_safety_margin(movetime_ms)));
        },
        None => {},
    }
    let remaining = match side_to_move {
        Color::White => go.wtime_ms,
        Color::Black => go.btime_ms,
    };
    let remaining_ms = match remaining {
        Some(v) => v,
        None => {
            return None;
        },
    };
    let increment_ms = increment(go, side_to_move);
    let mtg = moves_to_go(go);
    let budget_ms = remaining_ms / mtg + increment_ms;
    if budget_ms == 0 {
        None
    } else {
        Some(duration_from_millis(apply_safety_margin(budget_ms)))
    }
}

/// The search limits for a `go` command: a fixed depth when one is named,
/// otherwise a timed search to `TIMED_SEARCH_MAX_DEPTH` plies that ends the
/// budget after `now`; none without a budget, or when the clock cannot
/// represent the deadline.
pub fn search_limits_for_go(go: &GoCommand, side_to_move: Color, now: Instant) -> (r: Option<SearchLimits>)
    requires
        go.depth is None ==> budget_fits(*go, side_to_move),
    ensures
        go.depth matches Some(d) ==> r == Some(SearchLimits { depth: d, deadline: None }),
        go.depth is None && budget_ms(*go, side_to_move) is None ==> r is None,
        go.depth is None && r is Some ==> budget_ms(*go, side_to_move) is Some && r->0.depth
            == TIMED_SEARCH_MAX_DEPTH && r->0.deadline is Some,
{
    match go.depth {
        Some(depth) => {
            return Some(SearchLimits::depth(depth));
        },
        None => {},
    }
    let budget = match time_budget_for_go(go, side_to_move) {
        Some(b) => b,
        None => {
            return None;
        },
    };
    match instant_after(now, budget) {
        Some(deadline) => Some(SearchLimits::timed(TIMED_SEARCH_MAX_DEPTH, deadline)),
        None => None,
    }
}

/// What the engine sends back for one line, and whether the session ends.
pub struct Reply {
    pub output: String,
    pub quit: bool,
}

/// A UCI session: the game that `position` commands set up.
pub struct UciSession {
    game: Game,
}

/// Whether a position can be searched and have moves played: a consistent
/// position with its kings tracked, no en passant capture that would land
/// on a piece of the side to move, room in the halfmove clock, and room in
/// the move number when Black is to move.
pub fn is_playable(pos: &Position) -> (r: bool)
    requires
        pos.wf(),
        pos.kings_tracked(),
    ensures
        r == playable(*pos),
{
    let counter_room = match pos.side_to_move {
        Color::White => true,
        Color::Black => pos.fullmove_number < 65535,
    };
    !ep_capture_onto_own(pos) && pos.halfmove_clock < 65535 && counter_room
}

/// The game that playing the move texts in turn from `pos` leads to: the
/// position and the states of the moves; `None` when a text names no legal
/// move or a position on the way cannot take a move.
#[verifier::opaque]
pub open spec fn replay(pos: Position, texts: Seq<Seq<char>>) -> Option<(Position, Seq<State>)>
    decreases texts.len(),
{
    if texts.len() == 0 {
        Some((pos, seq![]))
    } else if !playable(pos) {
        None
    } else {
        match first_with_text(legal_moves(pos), texts[0]) {
            None => None,
            Some(i) => {
                let m = legal_moves(pos)[i];
                match replay(after_move(pos, m), texts.drop_first()) {
                    Some((p, h)) => Some((p, seq![state_before(pos, m)] + h)),
                    None => None,
                }
            },
        }
    }
}

/// Replaying a list of move texts plays the first one and replays the rest.
proof fn lemma_replay_step(pos: Position, texts: Seq<Seq<char>>, i: int, after: Position)
    requires
        texts.len() > 0,
        playable(pos),
        first_with_text(legal_moves(pos), texts[0]) == Some(i),
        after == after_move(pos, legal_moves(pos)[i]),
    ensures
        replay(pos, texts) == match replay(after, texts.drop_first()) {
            Some((p, h)) => Some((p, seq![state_before(pos, legal_moves(pos)[i])] + h)),
            None => None::<(Position, Seq<State>)>,
        },
{
    reveal(replay);
}

/// Replaying fails where the position cannot take a move or the text names
/// no legal move.
proof fn lemma_replay_stuck(pos: Position, texts: Seq<Seq<char>>)
    requires
        texts.len() > 0,
        !playable(pos) || first_with_text(legal_moves(pos), texts[0]) is None,
    ensures
        replay(pos, texts) is None,
{
    reveal(replay);
}

/// Replaying no move text leaves the position as it is.
proof fn lemma_replay_empty(pos: Position, texts: Seq<Seq<char>>)
    requires
        texts.len() == 0,
    ensures
        replay(pos, texts) == Some((pos, Seq::<State>::empty())),
{
    reveal(replay);
}

/// A position a `position` command can start from: the start position (as
/// `STARTPOS_FEN` describes it), or the position a FEN text describes.
pub open spec fn start_of(fen: Option<Seq<char>>, start: Position) -> bool {
    &&& start.wf()
    &&& start.kings_tracked()
    &&& match fen {
        None => fen_spec(STARTPOS_FEN@) == Ok::<_, FenError>(fen_fields(start)),
        Some(f) => fen_spec(f) == Ok::<_, FenError>(fen_fields(start)),
    }
}

/// Whether a game is the one a `position` command sets up.
pub open spec fn set_up(fen: Option<Seq<char>>, moves: Seq<Seq<char>>, pos: Position, history: Seq<State>) -> bool {
    exists|start: Position| #[trigger] start_of(fen, start) && replay(start, moves) == Some((pos, history))
}

/// Whether a `position` command cannot set up a game: its FEN text is
/// refused, or its moves cannot be played from where it starts.
pub open spec fn set_up_fails(fen: Option<Seq<char>>, moves: Seq<Seq<char>>) -> bool {
    ||| fen matches Some(f) && fen_spec(f) is Err
    ||| exists|start: Position| #[trigger] start_of(fen, start) && replay(start, moves) is None
}

/// The game a `position` command describes: the start, then each move
/// played in turn; `Err` when the FEN is refused, a move is not legal, or
/// the position cannot take another move.
fn game_from_position_command(command: PositionCommand) -> (r: Result<Game, ()>)
    ensures
        r matches Ok(g) ==> g.pos.wf() && g.pos.kings_tracked() && set_up(
            base_view(command.base),
            moves_view(command.moves@),
            g.pos,
            g.history@,
        ),
        r is Err ==> set_up_fails(base_view(command.base), moves_view(command.moves@)),
{
    let ghost fen = base_view(command.base);
    let ghost texts = moves_view(command.moves@);
    let mut game = match command.base {
        PositionBase::Startpos => Game::startpos(),
        PositionBase::Fen(fen) => match Game::from_fen(fen.as_str()) {
            Ok(g) => g,
            Err(_) => {
                return Err(());
            },
        },
    };
    let ghost start = game.pos;
    assert(start_of(fen, start));
    let n = command.moves.len();
    let mut i: usize = 0;
    assert(texts.skip(0) =~= texts);
    proof {
        match replay(start, texts) {
            Some((p, h)) => {
                assert(game.history@ + h =~= h);
            },
            None => {},
        }
    }
    while i < n
        invariant
            i <= n,
            n == command.moves@.len(),
            texts == moves_view(command.moves@),
            fen == base_view(command.base),
            start_of(fen, start),
            game.pos.wf(),
            game.pos.kings_tracked(),
            replay(start, texts) == match replay(game.pos, texts.skip(i as int)) {
                Some((p, h)) => Some((p, game.history@ + h)),
                None => None::<(Position, Seq<State>)>,
            },
        decreases n - i,
    {
        let ghost rest = texts.skip(i as int);
        assert(rest[0] == command.moves@[i as int]@);
        assert(rest.drop_first() =~= texts.skip(i + 1));
        if !is_playable(&game.pos) {
            proof {
                lemma_replay_stuck(game.pos, rest);
                assert(start_of(fen, start) && replay(start, texts) is None);
            }
            return Err(());
        }
        let ghost before_pos = game.pos;
        let ghost before_hist = game.history@;
        match game.apply_uci_move(command.moves[i].as_str()) {
            Ok(m) => {
                proof {
                    let k = first_with_text(legal_moves(before_pos), rest[0])->0;
                    lemma_replay_step(before_pos, rest, k, game.pos);
                    let st = game.history@.last();
                    assert(game.history@ =~= before_hist + seq![st]);
                    match replay(game.pos, texts.skip(i + 1)) {
                        Some((p, h)) => {
                            assert(before_hist + (seq![st] + h) =~= game.history@ + h);
                        },
                        None => {},
                    }
                }
            },
            Err(_) => {
                proof {
                    lemma_replay_stuck(before_pos, rest);
                    assert(start_of(fen, start) && replay(start, texts) is None);
                }
                return Err(());
            },
        }
        i = i + 1;
    }
    proof {
        assert(texts.skip(n as int) =~= Seq::<Seq<char>>::empty());
        lemma_replay_empty(game.pos, texts.skip(n as int));
        assert(game.history@ + Seq::<State>::empty() =~= game.history@);
    }
    Ok(game)
}

/// What a `go` command may answer: nothing, a null move, or a legal move.
pub open spec fn go_reply(pos: Position, out: Seq<char>) -> bool {
    ||| out.len() == 0
    ||| out == "bestmove 0000\n"@
    ||| exists|m: Move| legal_moves(pos).contains(m) && out == "bestmove "@ + move_text(m) + "\n"@
}

/// The line that names a search result's best move, or the null move.
pub open spec fn bestmove_text(r: SearchResult) -> Seq<char> {
    match r.best_move {
        Some(m) => "bestmove "@ + move_text(m) + "\n"@,
        None => "bestmove 0000\n"@,
    }
}

/// What a `go` command with given limits is answered: a fixed-depth search
/// of a position that can be searched names the best move of an answer that
/// `search` can give; a position that cannot be searched gets the null move;
/// a timed search is answered only when the clock gives a budget, and then
/// as a search to the deepest depth with a deadline, or with the null move
/// for a position that cannot be searched; nothing is sent without a budget
/// or when the clock cannot represent the deadline.
pub open spec fn go_answer(pos: Position, history: Seq<State>, go: GoCommand, out: Seq<char>) -> bool {
    &&& go.depth matches Some(d) ==> if playable(pos) {
        exists|r: SearchResult|
            #[trigger] search_outcome(pos, history, SearchLimits { depth: d, deadline: None }, r) && out
                == bestmove_text(r)
    } else {
        out == "bestmove 0000\n"@
    }
    &&& go.depth is None && !(budget_fits(go, pos.side_to_move) && budget_ms(go, pos.side_to_move) is Some)
        ==> out.len() == 0
    &&& go.depth is None && out.len() > 0 ==> {
        &&& budget_fits(go, pos.side_to_move)
        &&& budget_ms(go, pos.side_to_move) is Some
        &&& !playable(pos) ==> out == "bestmove 0000\n"@
        &&& playable(pos) ==> exists|limits: SearchLimits, r: SearchResult|
            limits.depth == TIMED_SEARCH_MAX_DEPTH && limits.deadline is Some && #[trigger] search_outcome(
                pos,
                history,
                limits,
                r,
            ) && out == bestmove_text(r)
    }
}

/// Which command a line holds follows its first word alone, but for the
/// `position` and `go` lines that are malformed.
proof fn lemma_command_keyword(line: Seq<char>, c: UciCommand)
    requires
        command_of(line, c),
    ensures
        c is Uci <==> keyword(line) == "uci"@,
        c is IsReady <==> keyword(line) == "isready"@,
        c is UciNewGame <==> keyword(line) == "ucinewgame"@,
        c is Quit <==> keyword(line) == "quit"@,
        c is Stop <==> keyword(line) == "stop"@,
        c is Position ==> keyword(line) == "position"@,
        c matches UciCommand::Position(pc) ==> position_spec(words(line).drop_first()) == Some(
            (base_view(pc.base), moves_view(pc.moves@)),
        ),
        c is Go ==> keyword(line) == "go"@,
        keyword(line) == "go"@ ==> c is Go || c is Ignore,
        keyword(line) == "position"@ ==> c is Position || c is Ignore,
        keyword(line) == "position"@ && c is Ignore ==> position_spec(words(line).drop_first()) is None,
        c matches UciCommand::Go(g) ==> go_spec(words(line).drop_first()) == Some(g),
        keyword(line) == "go"@ && c is Ignore ==> go_spec(words(line).drop_first()) is None,
{
    reveal(command_of);
    reveal_strlit("uci");
    reveal_strlit("isready");
    reveal_strlit("ucinewgame");
    reveal_strlit("quit");
    reveal_strlit("stop");
    reveal_strlit("position");
    reveal_strlit("go");
    assert("quit"@[0] != "stop"@[0]);
    assert("go"@.len() == 2 && "uci"@.len() == 3 && "isready"@.len() == 7 && "ucinewgame"@.len() == 10);
    assert("quit"@.len() == 4 && "stop"@.len() == 4 && "position"@.len() == 8);
    let t = words(line);
    if t.len() > 0 && t[0] == "go"@ {
        assert(t[0] != "uci"@ && t[0] != "isready"@ && t[0] != "ucinewgame"@);
        assert(t[0] != "quit"@ && t[0] != "stop"@ && t[0] != "position"@);
    }
    if t.len() > 0 && t[0] == "position"@ {
        assert(t[0] != "uci"@ && t[0] != "isready"@ && t[0] != "ucinewgame"@);
        assert(t[0] != "quit"@ && t[0] != "stop"@);
    }
}

/// The first word of a line, empty for a blank line.
pub open spec fn keyword(line: Seq<char>) -> Seq<char> {
    if words(line).len() == 0 {
        seq![]
    } else {
        words(line)[0]
    }
}

/// What a session sends for a line and how it changes: `uci` and
/// `isready` are answered, `ucinewgame` returns to the start position,
/// `position` sets up the game it describes or keeps the game, `go` answers
/// with a legal move, a null move or nothing, and any other line changes
/// nothing and is not answered.
pub open spec fn answers(line: Seq<char>, before: UciSession, after: UciSession, out: Seq<char>) -> bool {
    let k = keyword(line);
    &&& k == "uci"@ ==> out == "id name chesszilla\nid author chesszilla\nuciok\n"@
    &&& k == "isready"@ ==> out == "readyok\n"@
    &&& k != "uci"@ && k != "isready"@ && k != "go"@ ==> out.len() == 0
    &&& k != "ucinewgame"@ && k != "position"@ ==> after.pos() == before.pos() && after.history()
        == before.history()
    &&& k == "ucinewgame"@ ==> after.history().len() == 0 && fen_spec(STARTPOS_FEN@) == Ok::<_, FenError>(
        fen_fields(after.pos()),
    )
    &&& k == "position"@ ==> match position_spec(words(line).drop_first()) {
        None => after.pos() == before.pos() && after.history() == before.history(),
        Some((fen, moves)) => set_up(fen, moves, after.pos(), after.history()) || (set_up_fails(
            fen,
            moves,
        ) && after.pos() == before.pos() && after.history() == before.history()),
    }
    &&& k == "go"@ ==> go_reply(before.pos(), out)
    &&& k == "go"@ ==> match go_spec(words(line).drop_first()) {
        None => out.len() == 0,
        Some(g) => go_answer(before.pos(), before.history(), g, out),
    }
}

/// Texts joined one after another.
pub open spec fn joined(outs: Seq<Seq<char>>) -> Seq<char>
    decreases outs.len(),
{
    if outs.len() == 0 {
        seq![]
    } else {
        joined(outs.drop_last()) + outs.last()
    }
}

/// A run of a session over lines: it starts fresh, answers each line in
/// turn, and stops after the first `quit` line or at the end of the input.
pub open spec fn session_run(lines: Seq<Seq<char>>, trace: Seq<UciSession>, outs: Seq<Seq<char>>) -> bool {
    &&& trace.len() == outs.len() + 1
    &&& outs.len() <= lines.len()
    &&& trace[0].wf()
    &&& trace[0].history().len() == 0
    &&& fen_spec(STARTPOS_FEN@) == Ok::<_, FenError>(
        fen_fields(trace[0].pos()),
    )
    &&& forall|j: int|
        0 <= j < outs.len() ==> answers(lines[j], trace[j], #[trigger] trace[j + 1], outs[j])
    &&& forall|j: int| 0 <= j < outs.len() - 1 ==> keyword(#[trigger] lines[j]) != "quit"@
    &&& outs.len() < lines.len() ==> outs.len() > 0 && keyword(lines[outs.len() - 1]) == "quit"@
}

impl UciSession {
    /// The current position.
    pub closed spec fn pos(self) -> Position {
        self.game.pos
    }

    /// The states of the moves that led to the current position.
    pub closed spec fn history(self) -> Seq<State> {
        self.game.history@
    }

    /// The current position is consistent and its kings are tracked.
    pub open spec fn wf(self) -> bool {
        self.pos().wf() && self.pos().kings_tracked()
    }

    /// A session at the start position.
    pub fn new() -> (r: Self)
        ensures
            r.wf(),
            r.history().len() == 0,
            fen_spec(STARTPOS_FEN@) == Ok::<_, FenError>(
                fen_fields(r.pos()),
            ),
    {
        UciSession { game: Game::startpos() }
    }

    /// Answers one line of the protocol: `uci` and `isready` are answered,
    /// `ucinewgame` returns to the start position, `position` sets up the
    /// game it describes (or keeps the game when it cannot), `go` searches
    /// and names the best move, `quit` ends the session, anything else is
    /// ignored.
    pub fn handle_line(&mut self, line: &str) -> (r: Reply)
        requires
            old(self).wf(),
        ensures
            final(self).wf(),
            r.quit == (keyword(line@) == "quit"@),
            answers(line@, *old(self), *final(self), r.output@),
    {
        let command = parse_command(line);
        proof {
            lemma_command_keyword(line@, command);
        }
        match command {
            UciCommand::Uci => Reply {
                output: String::from_str("id name chesszilla\nid author chesszilla\nuciok\n"),
                quit: false,
            },
            UciCommand::IsReady => Reply { output: String::from_str("readyok\n"), quit: false },
            UciCommand::UciNewGame => {
                self.game = Game::startpos();
                Reply { output: String::new(), quit: false }
            },
            UciCommand::Position(position) => {
                let ghost pc = position;
                assert(moves_view(pc.moves@).len() == pc.moves@.len());
                match game_from_position_command(position) {
                    Ok(next_game) => {
                        self.game = next_game;
                    },
                    Err(_) => {},
                }
                Reply { output: String::new(), quit: false }
            },
            UciCommand::Go(go) => {
                let output = self.go(&go);
                Reply { output, quit: false }
            },
            UciCommand::Stop | UciCommand::Ignore => Reply { output: String::new(), quit: false },
            UciCommand::Quit => Reply { output: String::new(), quit: true },
        }
    }

    /// Searches the current position within the limits of a `go` command
    /// and names the best move; nothing when the command allows no search.
    fn go(&mut self, go: &GoCommand) -> (r: String)
        requires
            old(self).wf(),
        ensures
            final(self).pos() == old(self).pos(),
            final(self).history() == old(self).history(),
            go_reply(old(self).pos(), r@),
            go_answer(old(self).pos(), old(self).history(), *go, r@),
    {
        let side = self.game.pos.side_to_move;
        if go.depth.is_none() && !budget_computable(go, side) {
            return String::new();
        }
        let now = instant_now();
        let limits = match search_limits_for_go(go, side, now) {
            Some(l) => l,
            None => {
                return String::new();
            },
        };
        if !is_playable(&self.game.pos) {
            return String::from_str("bestmove 0000\n");
        }
        let ghost p0 = self.game.pos;
        let ghost h0 = self.game.history@;
        let result = search(&mut self.game.pos, self.game.history.as_slice(), limits);
        let out = match result.best_move {
            Some(best_move) => {
                let mut out = String::from_str("bestmove ");
                let text = best_move.to_uci();
                out.append(text.as_str());
                out.append("\n");
                proof {
                    assert(out@ == "bestmove "@ + move_text(best_move) + "\n"@);
                }
                out
            },
            None => String::from_str("bestmove 0000\n"),
        };
        proof {
            assert(search_outcome(p0, h0, limits, result));
            assert(out@ == bestmove_text(result));
        }
        out
    }
}

/// Runs a session over the lines of `input` and returns everything it sent.
pub fn run_uci(input: &str) -> (r: String)
    ensures
        exists|trace: Seq<UciSession>, outs: Seq<Seq<char>>|
            #[trigger] session_run(lines_of(input@), trace, outs) && r@ == joined(outs),
{
    let chars = text_chars(input);
    let lines = split_lines(&chars);
    let ghost ls = lines_of(input@);
    assert(lines@.map_values(|w: Vec<char>| w@) == ls);
    let mut session = UciSession::new();
    let mut out = String::new();
    let ghost mut trace: Seq<UciSession> = seq![session];
    let ghost mut outs: Seq<Seq<char>> = seq![];
    let n = lines.len();
    let mut i: usize = 0;
    let mut stopped = false;
    while i < n && !stopped
        invariant
            i <= n,
            n == ls.len(),
            lines@.map_values(|w: Vec<char>| w@) == ls,
            session.wf(),
            trace.len() == i + 1,
            outs.len() == i,
            trace.last() == session,
            out@ == joined(outs),
            trace[0].wf(),
            trace[0].history().len() == 0,
            fen_spec(STARTPOS_FEN@) == Ok::<_, FenError>(
                fen_fields(trace[0].pos()),
            ),
            forall|j: int| 0 <= j < outs.len() ==> answers(ls[j], trace[j], #[trigger] trace[j + 1], outs[j]),
            forall|j: int| 0 <= j < outs.len() - 1 ==> keyword(#[trigger] ls[j]) != "quit"@,
            stopped ==> i > 0 && keyword(ls[i - 1]) == "quit"@,
            !stopped && i > 0 ==> keyword(ls[i - 1]) != "quit"@,
        decreases n - i,
    {
        assert(lines@[i as int]@ == ls[i as int]);
        let line = chars_to_string(&lines[i]);
        let ghost before = session;
        let reply = session.handle_line(line.as_str());
        out.append(reply.output.as_str());
        proof {
            let old_outs = outs;
            let old_trace = trace;
            outs = outs.push(reply.output@);
            trace = trace.push(session);
            assert(outs.drop_last() =~= old_outs);
            assert forall|j: int| 0 <= j < outs.len() implies answers(ls[j], trace[j], #[trigger] trace[j + 1], outs[j]) by {
                if j < old_outs.len() {
                    assert(old_trace[j + 1] == trace[j + 1]);
                }
            }
        }
        if reply.quit {
            stopped = true;
        }
        i = i + 1;
    }
    proof {
        assert(session_run(ls, trace, outs));
    }
    out
}

} // verus!
