use vstd::prelude::*;
use crate::eval::{Score, evaluate, eval_spec, material_value, material_spec};
use crate::movegen::{
    generate_legal, in_check, attacked, legal_moves, good_move, sound, playable, pawn_dir,
    lemma_legal_good, lemma_sound_after,
};
use crate::mv::{Move, lemma_move_fields_in_range};
use crate::position::{
    Position, State, board_after, captured_by, capture_square_of, made, mover, rook_from_of,
    rook_to_of, repetitions, lemma_made_can_unmake, lemma_unmake_restores, after_move, state_before,
    lemma_after_move,
};
use crate::types::{Color, Piece, PieceKind, Square};
use std::time::Instant;

verus! {

/// How far a pawn still has to go to reach the far rank.
pub open spec fn pawn_steps(p: Piece, s: int) -> int {
    if p.color() == Color::White {
        7 - s / 8
    } else {
        s / 8
    }
}

/// Weight of a square's content for the progress measure: one per piece,
/// plus the remaining steps of a pawn.
pub open spec fn sq_weight(v: Option<Piece>, s: int) -> int {
    match v {
        None => 0,
        Some(p) => 1 + if p.kind() == PieceKind::Pawn {
            pawn_steps(p, s)
        } else {
            0
        },
    }
}

/// Total weight of the first `n` squares.
pub open spec fn weight_sum(b: Seq<Option<Piece>>, n: nat) -> int
    decreases n,
{
    if n == 0 {
        0
    } else {
        weight_sum(b, (n - 1) as nat) + sq_weight(b[n - 1], n - 1)
    }
}

/// A measure that every move of a position not yet drawn by the fifty-move
/// rule makes smaller: captures and pawn moves lower the board weight, every
/// other move brings the fifty-move draw one step closer.
pub open spec fn qmeasure(pos: Position) -> int {
    weight_sum(pos.board@, 64) * 101 + if pos.halfmove_clock < 100 {
        100 - pos.halfmove_clock
    } else {
        0
    }
}

proof fn lemma_weight_update(b: Seq<Option<Piece>>, s: int, v: Option<Piece>, n: nat)
    requires
        0 <= s < b.len(),
        n <= b.len(),
    ensures
        weight_sum(b.update(s, v), n) == weight_sum(b, n) + if s < n {
            sq_weight(v, s) - sq_weight(b[s], s)
        } else {
            0
        },
    decreases n,
{
    if n > 0 {
        lemma_weight_update(b, s, v, (n - 1) as nat);
    }
}

proof fn lemma_weight_bounds(b: Seq<Option<Piece>>, n: nat)
    requires
        n <= b.len(),
        n <= 64,
    ensures
        0 <= weight_sum(b, n) <= 8 * n,
    decreases n,
{
    if n > 0 {
        lemma_weight_bounds(b, (n - 1) as nat);
    }
}

/// The measure of any position lies between 0 and 64 * 8 * 101 + 100.
pub proof fn lemma_qmeasure_bounds(pos: Position)
    ensures
        0 <= qmeasure(pos) <= 51812,
{
    lemma_weight_bounds(pos.board@, 64);
}

/// A good move made from a sound position with a halfmove clock under 100
/// makes the measure strictly smaller.
#[verifier::spinoff_prover]
#[verifier::rlimit(40)]
pub proof fn lemma_qmeasure_decreases(pos: Position, m: Move, mid: Position, st: State)
    requires
        sound(pos),
        pos.halfmove_clock < 100,
        good_move(pos, m),
        made(pos, m, mid, st),
    ensures
        qmeasure(mid) < qmeasure(pos),
        mid.fullmove_number <= pos.fullmove_number + 1,
{
    lemma_move_fields_in_range(m);
    let b = pos.board@;
    let from = m.from().0 as int;
    let to = m.to().0 as int;
    let cs = capture_square_of(m).0 as int;
    let piece = mover(pos, m);
    let cap = captured_by(pos, m);
    let b1 = if cap is Some {
        b.update(cs, None)
    } else {
        b
    };
    let w = weight_sum(b, 64);
    if cap is Some {
        lemma_weight_update(b, cs, None, 64);
    }
    let w1 = weight_sum(b1, 64);
    assert(cap is Some ==> w1 <= w - 1);
    assert(cap is None ==> w1 == w);
    assert(b1[from] == Some(piece));
    assert(b1[to] is None);
    let b2a = b1.update(from, None);
    lemma_weight_update(b1, from, None, 64);
    assert(b2a[to] is None);
    let d = pawn_dir(pos.side_to_move);
    match m.promotion() {
        Some(k) => {
            let promoted = Piece::from(piece.color(), k);
            lemma_weight_update(b2a, to, Some(promoted), 64);
            assert(piece.kind() == PieceKind::Pawn);
            assert(pawn_steps(piece, from) >= 1);
            assert(weight_sum(board_after(pos, m), 64) <= w1 - 1);
        },
        None => {
            let b2 = b2a.update(to, Some(piece));
            lemma_weight_update(b2a, to, Some(piece), 64);
            if piece.kind() == PieceKind::Pawn {
                assert(pawn_steps(piece, to) < pawn_steps(piece, from));
            }
            if m.is_castling() {
                let rf = rook_from_of(m).0 as int;
                let rt = rook_to_of(m).0 as int;
                let rook = Piece::from(piece.color(), PieceKind::Rook);
                assert(b2[rf] == Some(rook));
                let b3 = b2.update(rf, None);
                lemma_weight_update(b2, rf, None, 64);
                assert(b3[rt] is None);
                lemma_weight_update(b3, rt, Some(rook), 64);
                assert(board_after(pos, m) == b3.update(rt, Some(rook)));
            }
        },
    }
}

/// The score of being mated at the root; mates further away score closer to zero.
pub const MATE_SCORE: Score = 30000;
/// The bound of the root window.
pub const INF: Score = 32000;
/// Slots of the table a search uses.
pub const DEFAULT_TT_ENTRIES: usize = 1048576;
/// Scores beyond this magnitude are mate scores.
pub const TT_MATE_THRESHOLD: Score = 29000;
/// The largest score magnitude; scores stay within `-MAX_SCORE..=MAX_SCORE`
/// so that negating one never overflows.
pub const MAX_SCORE: Score = 2147483647;

/// Whether a stored score is exact or bounds the true score from one side.
#[derive(Debug, Clone, Copy, PartialEq, Eq, Structural)]
pub enum TtBound {
    Exact,
    Lower,
    Upper,
}

/// A search result remembered for a position hash.
#[derive(Debug, Clone, Copy, PartialEq, Eq, Structural)]
pub struct TtEntry {
    pub key: u64,
    pub depth: u8,
    pub score: Score,
    pub bound: TtBound,
    pub best_move: Option<Move>,
}

/// A table of search results, one slot per hash residue.
#[derive(Debug, Clone)]
pub struct TranspositionTable {
    entries: Vec<Option<TtEntry>>,
}

/// The slot of a key in a table with `len` slots.
pub open spec fn slot_of(key: u64, len: int) -> int {
    (key as usize) as int % len
}

/// What a probe finds: the entry in the key's slot, if it has that key.
pub open spec fn probe_spec(slots: Seq<Option<TtEntry>>, key: u64) -> Option<TtEntry> {
    match slots[slot_of(key, slots.len() as int)] {
        Some(e) => if e.key == key {
            Some(e)
        } else {
            None
        },
        None => None,
    }
}

/// Whether storing an entry replaces what its slot holds: an empty slot, the
/// same key, or an entry searched no deeper.
pub open spec fn replaces(slots: Seq<Option<TtEntry>>, entry: TtEntry) -> bool {
    match slots[slot_of(entry.key, slots.len() as int)] {
        None => true,
        Some(old) => old.key == entry.key || entry.depth >= old.depth,
    }
}

/// The slots after storing an entry.
pub open spec fn store_spec(slots: Seq<Option<TtEntry>>, entry: TtEntry) -> Seq<Option<TtEntry>> {
    if replaces(slots, entry) {
        slots.update(slot_of(entry.key, slots.len() as int), Some(entry))
    } else {
        slots
    }
}

impl TranspositionTable {
    /// The slots of the table.
    pub closed spec fn slots(self) -> Seq<Option<TtEntry>> {
        self.entries@
    }

    /// A table has at least one slot.
    pub open spec fn wf(self) -> bool {
        self.slots().len() >= 1
    }

    /// A table of empty slots; at least one slot.
    pub fn new(entry_count: usize) -> (r: Self)
        ensures
            r.wf(),
            r.slots().len() == if entry_count > 1 {
                entry_count as int
            } else {
                1
            },
            forall|i: int| 0 <= i < r.slots().len() ==> r.slots()[i] is None,
    {
        let n = if entry_count > 1 {
            entry_count
        } else {
            1
        };
        let mut entries: Vec<Option<TtEntry>> = Vec::new();
        let mut i: usize = 0;
        while i < n
            invariant
                i <= n,
                entries@.len() == i,
                forall|j: int| 0 <= j < i ==> entries@[j] is None,
            decreases n - i,
        {
            entries.push(None);
            i = i + 1;
        }
        TranspositionTable { entries }
    }

    /// The entry stored for exactly this key, if any.
    pub fn probe(&self, key: u64) -> (r: Option<TtEntry>)
        requires
            self.wf(),
        ensures
            r == probe_spec(self.slots(), key),
    {
        let idx = self.index(key);
        match self.entries[idx] {
            Some(entry) => if entry.key == key {
                Some(entry)
            } else {
                None
            },
            None => None,
        }
    }

    /// Stores an entry in its key's slot unless that slot holds another key
    /// searched deeper.
    pub fn store(&mut self, entry: TtEntry)
        requires
            old(self).wf(),
        ensures
            final(self).wf(),
            final(self).slots() == store_spec(old(self).slots(), entry),
    {
        let index = self.index(entry.key);
        let replace = match self.entries[index] {
            None => true,
            Some(old) => old.key == entry.key || entry.depth >= old.depth,
        };
        if replace {
            self.entries.set(index, Some(entry));
        }
    }

    fn index(&self, key: u64) -> (r: usize)
        requires
            self.wf(),
        ensures
            r == slot_of(key, self.slots().len() as int),
            r < self.slots().len(),
    {
        (key as usize) % self.entries.len()
    }
}

/// Once stored, an entry is found again under its key when it replaced its
/// slot's content; otherwise the slot, and every probe, is unchanged.
pub proof fn lemma_store_then_probe(slots: Seq<Option<TtEntry>>, entry: TtEntry, key: u64)
    requires
        slots.len() >= 1,
    ensures
        replaces(slots, entry) ==> probe_spec(store_spec(slots, entry), entry.key) == Some(entry),
        !replaces(slots, entry) ==> probe_spec(store_spec(slots, entry), key) == probe_spec(slots, key),
        slot_of(key, slots.len() as int) != slot_of(entry.key, slots.len() as int) ==> probe_spec(
            store_spec(slots, entry),
            key,
        ) == probe_spec(slots, key),
{
}

/// Clamps a wide score into `-MAX_SCORE..=MAX_SCORE`.
pub open spec fn clamp_spec(x: int) -> int {
    if x > MAX_SCORE {
        MAX_SCORE as int
    } else if x < -MAX_SCORE {
        -MAX_SCORE
    } else {
        x
    }
}

fn clamp_score(x: i64) -> (r: Score)
    ensures
        r == clamp_spec(x as int),
{
    if x > MAX_SCORE as i64 {
        MAX_SCORE
    } else if x < -(MAX_SCORE as i64) {
        -MAX_SCORE
    } else {
        x as i32
    }
}

/// A mate score as stored: distance counted from the stored node rather than the root.
pub open spec fn to_tt_spec(score: int, ply: int) -> int {
    if score > TT_MATE_THRESHOLD {
        clamp_spec(score + ply)
    } else if score < -TT_MATE_THRESHOLD {
        clamp_spec(score - ply)
    } else {
        score
    }
}

/// A stored mate score read back at a node `ply` plies from the root.
pub open spec fn from_tt_spec(score: int, ply: int) -> int {
    if score > TT_MATE_THRESHOLD {
        clamp_spec(score - ply)
    } else if score < -TT_MATE_THRESHOLD {
        clamp_spec(score + ply)
    } else {
        score
    }
}

/// A score as stored in the table: mate scores counted from the node.
pub fn score_to_tt(score: Score, ply: Score) -> (r: Score)
    ensures
        r == to_tt_spec(score as int, ply as int),
{
    if score > TT_MATE_THRESHOLD {
        clamp_score(score as i64 + ply as i64)
    } else if score < -TT_MATE_THRESHOLD {
        clamp_score(score as i64 - ply as i64)
    } else {
        score
    }
}

/// A stored score read back at a node `ply` plies from the root.
pub fn score_from_tt(score: Score, ply: Score) -> (r: Score)
    ensures
        r == from_tt_spec(score as int, ply as int),
{
    if score > TT_MATE_THRESHOLD {
        clamp_score(score as i64 - ply as i64)
    } else if score < -TT_MATE_THRESHOLD {
        clamp_score(score as i64 + ply as i64)
    } else {
        score
    }
}

/// Storing a score at some ply and reading it back at the same ply gives the
/// score back, as long as no clamping happens.
pub proof fn lemma_tt_round_trip(score: int, ply: int)
    requires
        0 <= ply,
        -MAX_SCORE + ply <= score <= MAX_SCORE - ply,
    ensures
        from_tt_spec(to_tt_spec(score, ply), ply) == score,
{
}

/// The score an entry yields at a node: deep enough, and either exact or a
/// bound that already decides the window.
pub open spec fn entry_score_spec(entry: TtEntry, depth: u8, alpha: int, beta: int, ply: int) -> Option<int> {
    if entry.depth < depth {
        None
    } else {
        let score = from_tt_spec(entry.score as int, ply);
        match entry.bound {
            TtBound::Exact => Some(score),
            TtBound::Lower => if score >= beta {
                Some(score)
            } else {
                None
            },
            TtBound::Upper => if score <= alpha {
                Some(score)
            } else {
                None
            },
        }
    }
}

/// The score a stored entry gives a node, when it is deep enough and decides the window.
pub fn score_from_tt_entry(entry: TtEntry, depth: u8, alpha: Score, beta: Score, ply: Score) -> (r: Option<Score>)
    ensures
        r matches Some(s) ==> entry_score_spec(entry, depth, alpha as int, beta as int, ply as int) == Some(s as int),
        r is None ==> entry_score_spec(entry, depth, alpha as int, beta as int, ply as int) is None,
        r matches Some(s) ==> -MAX_SCORE <= s <= MAX_SCORE,
{
    if entry.depth < depth {
        return None;
    }
    let score = score_from_tt(entry.score, ply);
    match entry.bound {
        TtBound::Exact => Some(score),
        TtBound::Lower => if score >= beta {
            Some(score)
        } else {
            None
        },
        TtBound::Upper => if score <= alpha {
            Some(score)
        } else {
            None
        },
    }
}

/// The score the table gives a node without searching it, if any.
pub fn probe_tt(tt: &TranspositionTable, key: u64, depth: u8, alpha: Score, beta: Score, ply: Score) -> (r: Option<Score>)
    requires
        tt.wf(),
    ensures
        r matches Some(s) ==> (probe_spec(tt.slots(), key) matches Some(e) && entry_score_spec(e, depth, alpha as int, beta as int, ply as int) == Some(s as int)),
        r is None ==> (probe_spec(tt.slots(), key) matches Some(e) ==> entry_score_spec(e, depth, alpha as int, beta as int, ply as int) is None),
{
    match tt.probe(key) {
        Some(entry) => score_from_tt_entry(entry, depth, alpha, beta, ply),
        None => None,
    }
}

/// Inserts `x` into `s` scanning from the end: past every element whose key
/// is smaller, and after the first one from the end whose key is not.
pub open spec fn insert_desc(s: Seq<(Move, int)>, x: (Move, int)) -> Seq<(Move, int)>
    decreases s.len(),
{
    if s.len() == 0 {
        seq![x]
    } else if s.last().1 >= x.1 {
        s.push(x)
    } else {
        insert_desc(s.drop_last(), x).push(s.last())
    }
}

/// Stable sort by descending key: elements with equal keys keep their order.
pub open spec fn stable_sort_desc(s: Seq<(Move, int)>) -> Seq<(Move, int)>
    decreases s.len(),
{
    if s.len() == 0 {
        seq![]
    } else {
        insert_desc(stable_sort_desc(s.drop_last()), s.last())
    }
}

/// Moves paired with their keys.
pub open spec fn keyed(ms: Seq<Move>, ks: Seq<i64>) -> Seq<(Move, int)> {
    Seq::new(ms.len(), |i: int| (ms[i], ks[i] as int))
}

/// The moves of a keyed sequence.
pub open spec fn moves_of(s: Seq<(Move, int)>) -> Seq<Move> {
    s.map_values(|p: (Move, int)| p.0)
}

proof fn lemma_insert_step(s: Seq<(Move, int)>, x: (Move, int), j: int)
    requires
        0 < j <= s.len(),
        s[j - 1].1 < x.1,
    ensures
        insert_desc(s.take(j), x) + s.subrange(j, s.len() as int) == insert_desc(s.take(j - 1), x) + s.subrange(j - 1, s.len() as int),
{
    assert(s.take(j).drop_last() =~= s.take(j - 1));
    assert(s.take(j).last() == s[j - 1]);
    assert(insert_desc(s.take(j), x) == insert_desc(s.take(j - 1), x).push(s[j - 1]));
    assert(insert_desc(s.take(j - 1), x).push(s[j - 1]) + s.subrange(j, s.len() as int) =~= insert_desc(s.take(j - 1), x) + s.subrange(j - 1, s.len() as int));
}

proof fn lemma_insert_stop(s: Seq<(Move, int)>, x: (Move, int), j: int)
    requires
        0 <= j <= s.len(),
        j == 0 || s[j - 1].1 >= x.1,
    ensures
        insert_desc(s.take(j), x) == s.take(j).push(x),
{
    if j > 0 {
        assert(s.take(j).last() == s[j - 1]);
    } else {
        assert(s.take(0) =~= Seq::<(Move, int)>::empty());
        assert(seq![x] =~= Seq::<(Move, int)>::empty().push(x));
    }
}

/// Sorts moves by descending key, keeping the order of moves with equal keys.
#[verifier::spinoff_prover]
#[verifier::rlimit(40)]
fn sort_desc(moves: &mut [Move], keys: &mut Vec<i64>)
    requires
        old(keys)@.len() == old(moves)@.len(),
    ensures
        final(moves)@.len() == old(moves)@.len(),
        final(keys)@.len() == old(keys)@.len(),
        keyed(final(moves)@, final(keys)@) == stable_sort_desc(keyed(old(moves)@, old(keys)@)),
{
    let ghost orig = keyed(moves@, keys@);
    let n = moves.len();
    if n == 0 {
        assert(keyed(moves@, keys@) =~= stable_sort_desc(orig));
        return;
    }
    let mut i: usize = 1;
    assert(orig.take(1).drop_last() =~= Seq::<(Move, int)>::empty());
    assert(keyed(moves@, keys@).take(1) =~= stable_sort_desc(orig.take(1))) by {
        let t1 = orig.take(1);
        assert(t1.drop_last() =~= Seq::<(Move, int)>::empty());
        assert(stable_sort_desc(t1.drop_last()) =~= Seq::<(Move, int)>::empty());
        assert(insert_desc(Seq::<(Move, int)>::empty(), t1.last()) == seq![t1.last()]);
        assert(keyed(moves@, keys@).take(1) =~= seq![t1.last()]);
    }
    while i < n
        invariant
            1 <= i <= n,
            moves@.len() == n,
            keys@.len() == n,
            orig.len() == n,
            keyed(moves@, keys@).take(i as int) == stable_sort_desc(orig.take(i as int)),
            keyed(moves@, keys@).subrange(i as int, n as int) == orig.subrange(i as int, n as int),
        decreases n - i,
    {
        let ghost start = keyed(moves@, keys@);
        let ghost sorted = keyed(moves@, keys@).take(i as int);
        let ghost rest = keyed(moves@, keys@).subrange(i as int + 1, n as int);
        let x = moves[i];
        let kx = keys[i];
        let ghost xp = (x, kx as int);
        assert(orig[i as int] == xp) by {
            assert(keyed(moves@, keys@).subrange(i as int, n as int)[0] == orig.subrange(i as int, n as int)[0]);
        }
        let mut j: usize = i;
        assert(sorted.take(j as int) =~= sorted);
        assert(sorted.subrange(j as int, i as int) =~= Seq::<(Move, int)>::empty());
        while j > 0 && keys[j - 1] < kx
            invariant
                j <= i,
                i < n,
                moves@.len() == n,
                keys@.len() == n,
                sorted.len() == i,
                keyed(moves@, keys@).take(j as int) == sorted.take(j as int),
                keyed(moves@, keys@).subrange(j as int + 1, i as int + 1) == sorted.subrange(j as int, i as int),
                keyed(moves@, keys@).subrange(i as int + 1, n as int) == rest,
                insert_desc(sorted, xp) == insert_desc(sorted.take(j as int), xp) + sorted.subrange(j as int, i as int),
                xp == (x, kx as int),
            decreases j,
        {
            proof {
                assert(keyed(moves@, keys@).take(j as int)[j - 1] == sorted.take(j as int)[j - 1]);
                lemma_insert_step(sorted, xp, j as int);
            }
            let ghost before = keyed(moves@, keys@);
            let mv = moves[j - 1];
            let k = keys[j - 1];
            moves[j] = mv;
            keys.set(j, k);
            j = j - 1;
            proof {
                let now = keyed(moves@, keys@);
                assert(now.take(j as int) =~= sorted.take(j as int)) by {
                    assert forall|t: int| 0 <= t < j implies now[t] == before[t] by {}
                    assert forall|t: int| 0 <= t < j implies #[trigger] before.take(j + 1)[t] == sorted.take(j + 1)[t] by {}
                }
                assert(now.subrange(j as int + 1, i as int + 1) =~= sorted.subrange(j as int, i as int)) by {
                    assert(before.take(j + 1)[j as int] == sorted.take(j + 1)[j as int]);
                    assert forall|t: int| j + 1 < t < i + 1 implies now[t] == before[t] by {}
                    assert forall|t: int| j + 2 <= t < i + 1 implies #[trigger] before[t] == sorted[t - 1] by {
                        assert(before.subrange(j + 2, i + 1)[t - j - 2] == sorted.subrange(j + 1, i as int)[t - j - 2]);
                    }
                }
                assert(now.subrange(i as int + 1, n as int) =~= rest) by {
                    assert forall|t: int| i + 1 <= t < n implies now[t] == before[t] by {}
                }
            }
        }
        proof {
            if j > 0 {
                assert(keyed(moves@, keys@).take(j as int)[j - 1] == sorted.take(j as int)[j - 1]);
            }
            lemma_insert_stop(sorted, xp, j as int);
        }
        let ghost before = keyed(moves@, keys@);
        moves[j] = x;
        keys.set(j, kx);
        i = i + 1;
        proof {
            let now = keyed(moves@, keys@);
            assert(orig.take(i as int).drop_last() =~= orig.take(i - 1));
            assert(orig.take(i as int).last() == xp);
            assert(stable_sort_desc(orig.take(i as int)) == insert_desc(sorted, xp));
            assert(now.take(i as int) =~= sorted.take(j as int).push(xp) + sorted.subrange(j as int, i - 1)) by {
                assert forall|t: int| 0 <= t < j implies now[t] == before[t] && before.take(j as int)[t] == sorted.take(j as int)[t] by {}
                assert forall|t: int| j < t < i implies now[t] == before[t] && before.subrange(j + 1, i as int)[t - j - 1] == sorted.subrange(j as int, i - 1)[t - j - 1] by {}
            }
            assert(now.subrange(i as int, n as int) =~= orig.subrange(i as int, n as int)) by {
                assert forall|t: int| i <= t < n implies now[t] == before[t] && before.subrange(i as int, n as int)[t - i] == rest[t - i] by {}
                assert forall|t: int| i <= t < n implies rest[t - i] == orig[t] by {
                    assert(start.subrange(i - 1, n as int)[t - i + 1] == orig.subrange(i - 1, n as int)[t - i + 1]);
                }
            }
        }
    }
    assert(keyed(moves@, keys@).take(n as int) =~= keyed(moves@, keys@));
    assert(orig.take(n as int) =~= orig);
}

/// Moves paired with a key computed from each move.
pub open spec fn keyed_by(ms: Seq<Move>, key: spec_fn(Move) -> int) -> Seq<(Move, int)> {
    Seq::new(ms.len(), |i: int| (ms[i], key(ms[i])))
}

/// The moves reordered by descending key, moves with equal keys keeping
/// their order.
pub open spec fn ordered_by(ms: Seq<Move>, key: spec_fn(Move) -> int) -> Seq<Move> {
    moves_of(stable_sort_desc(keyed_by(ms, key)))
}

/// Whether a keyed sequence has non-increasing keys.
pub open spec fn keys_desc(s: Seq<(Move, int)>) -> bool {
    forall|i: int, j: int| 0 <= i < j < s.len() ==> #[trigger] s[i].1 >= #[trigger] s[j].1
}

proof fn lemma_insert_desc_facts(s: Seq<(Move, int)>, x: (Move, int))
    ensures
        moves_of(insert_desc(s, x)).to_multiset() == moves_of(s).to_multiset().insert(x.0),
        insert_desc(s, x).len() == s.len() + 1,
        keys_desc(s) ==> keys_desc(insert_desc(s, x)),
        forall|k: int| 0 <= k < insert_desc(s, x).len() ==> (#[trigger] insert_desc(s, x)[k] == x
            || s.contains(insert_desc(s, x)[k])),
    decreases s.len(),
{
    broadcast use vstd::seq_lib::group_to_multiset_ensures;
    let r = insert_desc(s, x);
    if s.len() == 0 {
        assert(moves_of(r) =~= seq![x.0]);
        assert(moves_of(s) =~= Seq::<Move>::empty());
        assert(seq![x.0] =~= Seq::<Move>::empty().push(x.0));
    } else if s.last().1 >= x.1 {
        assert(moves_of(r) =~= moves_of(s).push(x.0));
        assert forall|k: int| 0 <= k < r.len() implies (#[trigger] r[k] == x || s.contains(r[k])) by {
            if k < s.len() {
                assert(r[k] == s[k]);
            }
        }
    } else {
        let d = s.drop_last();
        lemma_insert_desc_facts(d, x);
        let rd = insert_desc(d, x);
        assert(moves_of(r) =~= moves_of(rd).push(s.last().0));
        assert(s =~= d.push(s.last()));
        assert(moves_of(s) =~= moves_of(d).push(s.last().0));
        assert forall|k: int| 0 <= k < r.len() implies (#[trigger] r[k] == x || s.contains(r[k])) by {
            if k < rd.len() {
                assert(r[k] == rd[k]);
                if rd[k] != x {
                    let t = choose|t: int| 0 <= t < d.len() && d[t] == rd[k];
                    assert(s[t] == rd[k]);
                }
            } else {
                assert(r[k] == s[s.len() - 1]);
            }
        }
        if keys_desc(s) {
            assert(keys_desc(d));
            assert forall|i: int, j: int| 0 <= i < j < r.len() implies #[trigger] r[i].1 >= #[trigger] r[j].1 by {
                if j == r.len() - 1 {
                    assert(r[j] == s.last());
                    if rd[i] == x {
                    } else {
                        let t = choose|t: int| 0 <= t < d.len() && d[t] == rd[i];
                        assert(s[t] == rd[i]);
                        assert(s[t].1 >= s[s.len() - 1].1);
                    }
                } else {
                    assert(r[i] == rd[i] && r[j] == rd[j]);
                }
            }
        }
    }
}

/// Sorting keeps every element, as many times as it occurs, and leaves the
/// keys in non-increasing order.
pub proof fn lemma_stable_sort_desc(s: Seq<(Move, int)>)
    ensures
        moves_of(stable_sort_desc(s)).to_multiset() == moves_of(s).to_multiset(),
        stable_sort_desc(s).len() == s.len(),
        keys_desc(stable_sort_desc(s)),
        forall|k: int| 0 <= k < s.len() ==> s.contains(#[trigger] stable_sort_desc(s)[k]),
    decreases s.len(),
{
    broadcast use vstd::seq_lib::group_to_multiset_ensures;
    if s.len() > 0 {
        let d = s.drop_last();
        lemma_stable_sort_desc(d);
        lemma_insert_desc_facts(stable_sort_desc(d), s.last());
        assert(s =~= d.push(s.last()));
        assert(moves_of(s) =~= moves_of(d).push(s.last().0));
        let r = stable_sort_desc(s);
        assert forall|k: int| 0 <= k < s.len() implies s.contains(#[trigger] r[k]) by {
            if r[k] != s.last() {
                let sd = stable_sort_desc(d);
                let t = choose|t: int| 0 <= t < sd.len() && sd[t] == r[k];
                let u = choose|u: int| 0 <= u < d.len() && d[u] == sd[t];
                assert(s[u] == r[k]);
            } else {
                assert(s[s.len() - 1] == r[k]);
            }
        }
    } else {
        assert(moves_of(s) =~= moves_of(stable_sort_desc(s)));
    }
}

/// Ordering moves by a key is a permutation of them that lists them by
/// non-increasing key.
pub proof fn lemma_ordered_by(ms: Seq<Move>, key: spec_fn(Move) -> int)
    ensures
        ordered_by(ms, key).to_multiset() == ms.to_multiset(),
        ordered_by(ms, key).len() == ms.len(),
        forall|i: int, j: int|
            0 <= i < j < ms.len() ==> key(#[trigger] ordered_by(ms, key)[i]) >= key(
                #[trigger] ordered_by(ms, key)[j],
            ),
{
    let kb = keyed_by(ms, key);
    lemma_stable_sort_desc(kb);
    assert(moves_of(kb) =~= ms);
    let r = stable_sort_desc(kb);
    assert forall|k: int| 0 <= k < r.len() implies #[trigger] r[k].1 == key(r[k].0) by {
        let t = choose|t: int| 0 <= t < kb.len() && kb[t] == r[k];
    }
    assert forall|i: int, j: int| 0 <= i < j < ms.len() implies key(#[trigger] ordered_by(ms, key)[i]) >= key(
        #[trigger] ordered_by(ms, key)[j]) by {
        assert(r[i].1 == key(r[i].0));
        assert(r[j].1 == key(r[j].0));
    }
}

/// Value of a promotion piece for ordering, zero for other moves.
pub open spec fn promo_value(mv: Move) -> int {
    match mv.promotion() {
        Some(k) => material_spec(k) as int,
        None => 0,
    }
}

/// Ordering score of a move: captures first, then promotions by the value
/// of the new piece.
pub open spec fn move_order_spec(mv: Move) -> int {
    (if mv.is_capture() {
        10000int
    } else {
        0
    }) + promo_value(mv)
}

/// Ordering key with a preferred move from the table placed before all others.
pub open spec fn hash_order_key(mv: Move, hash_move: Option<Move>) -> int {
    (if hash_move == Some(mv) {
        100000int
    } else {
        0
    }) + move_order_spec(mv)
}

/// Moves that quiescence search looks at: captures and promotions.
pub open spec fn is_quiescence_spec(mv: Move) -> bool {
    mv.is_capture() || mv.promotion() is Some
}

/// The kind of piece a capture takes, looked up on its capture square.
pub open spec fn victim_spec(pos: Position, mv: Move) -> Option<PieceKind> {
    if mv.is_capture() {
        match pos.board[capture_square_of(mv).0 as int] {
            Some(p) => Some(p.kind()),
            None => None,
        }
    } else {
        None
    }
}

/// The kind of piece that makes a capture.
pub open spec fn attacker_spec(pos: Position, mv: Move) -> Option<PieceKind> {
    if mv.is_capture() {
        match pos.board[mv.from().0 as int] {
            Some(p) => Some(p.kind()),
            None => None,
        }
    } else {
        None
    }
}

/// Quiescence ordering score: most valuable victim first, then least
/// valuable attacker, plus the value of a promotion.
pub open spec fn quiescence_order_spec(pos: Position, mv: Move) -> int {
    let capture = match (victim_spec(pos, mv), attacker_spec(pos, mv)) {
        (Some(v), Some(a)) => 10000 + material_spec(v) * 10 - material_spec(a),
        _ => if mv.is_capture() {
            10000int
        } else {
            0
        },
    };
    capture + promo_value(mv)
}

/// The value of a piece kind when ordering moves.
pub fn material_value_for_ordering(kind: PieceKind) -> (r: Score)
    ensures
        r == material_spec(kind),
{
    material_value(kind)
}

/// The ordering score of a move: captures, then promotions by value.
pub fn move_order_score(mv: Move) -> (r: Score)
    ensures
        r == move_order_spec(mv),
        0 <= r <= 10900,
{
    let capture_score: Score = if mv.is_capture() {
        10000
    } else {
        0
    };
    let promotion_score: Score = match mv.promotion() {
        Some(k) => material_value_for_ordering(k),
        None => 0,
    };
    capture_score + promotion_score
}

/// Whether quiescence search looks at a move: captures and promotions.
pub fn is_quiescence_move(mv: Move) -> (r: bool)
    ensures
        r == is_quiescence_spec(mv),
{
    mv.is_capture() || mv.promotion().is_some()
}

/// The square of the piece a capture takes.
pub fn capture_square(mv: Move) -> (r: Square)
    ensures
        r == capture_square_of(mv),
        r.0 < 64,
{
    proof {
        lemma_move_fields_in_range(mv);
    }
    if mv.is_en_passant() {
        Square::from_file_rank(mv.to().file(), mv.from().rank())
    } else {
        mv.to()
    }
}

/// The kind of piece a capture takes, if any.
pub fn capture_victim(pos: &Position, mv: Move) -> (r: Option<PieceKind>)
    ensures
        r == victim_spec(*pos, mv),
{
    if mv.is_capture() {
        match pos.piece_at(capture_square(mv)) {
            Some(piece) => Some(piece.kind()),
            None => None,
        }
    } else {
        None
    }
}

/// The kind of piece that makes a capture, if any.
pub fn capture_attacker(pos: &Position, mv: Move) -> (r: Option<PieceKind>)
    ensures
        r == attacker_spec(*pos, mv),
{
    proof {
        lemma_move_fields_in_range(mv);
    }
    if mv.is_capture() {
        match pos.piece_at(mv.from()) {
            Some(piece) => Some(piece.kind()),
            None => None,
        }
    } else {
        None
    }
}

/// The quiescence ordering score: most valuable victim, least valuable attacker, promotion value.
pub fn quiescence_move_order_score(pos: &Position, mv: Move) -> (r: Score)
    ensures
        r == quiescence_order_spec(*pos, mv),
        0 <= r <= 19900,
{
    let capture_score: Score = match (capture_victim(pos, mv), capture_attacker(pos, mv)) {
        (Some(victim), Some(attacker)) => 10000 + material_value_for_ordering(victim) * 10
            - material_value_for_ordering(attacker),
        _ => if mv.is_capture() {
            10000
        } else {
            0
        },
    };
    let promotion_score: Score = match mv.promotion() {
        Some(k) => material_value_for_ordering(k),
        None => 0,
    };
    capture_score + promotion_score
}

/// Orders moves with the table's move first, then by `move_order_score`,
/// keeping the given order among moves that score the same.
pub fn order_moves_with_hash_move(moves: &mut [Move], hash_move: Option<Move>)
    ensures
        final(moves)@ == ordered_by(old(moves)@, |m: Move| hash_order_key(m, hash_move)),
{
    let ghost key = |m: Move| hash_order_key(m, hash_move);
    let n = moves.len();
    let mut keys: Vec<i64> = Vec::new();
    let mut i: usize = 0;
    while i < n
        invariant
            i <= n,
            n == moves@.len(),
            keys@.len() == i,
            forall|t: int| 0 <= t < i ==> keys@[t] as int == hash_order_key(moves@[t], hash_move),
        decreases n - i,
    {
        let mv = moves[i];
        let is_hash = match hash_move {
            Some(h) => h == mv,
            None => false,
        };
        let hash_score: i64 = if is_hash {
            100000
        } else {
            0
        };
        keys.push(hash_score + move_order_score(mv) as i64);
        i = i + 1;
    }
    let ghost before = moves@;
    assert(keyed(moves@, keys@) =~= keyed_by(before, key));
    sort_desc(moves, &mut keys);
    assert(moves_of(keyed(moves@, keys@)) =~= moves@);
}

/// Orders moves by `move_order_score`, keeping the given order among moves
/// that score the same.
pub fn order_moves(moves: &mut [Move])
    ensures
        final(moves)@ == ordered_by(old(moves)@, |m: Move| move_order_spec(m)),
{
    let ghost before = moves@;
    order_moves_with_hash_move(moves, None);
    assert(keyed_by(before, |m: Move| hash_order_key(m, None)) =~= keyed_by(before, |m: Move| move_order_spec(m)));
}

/// Orders moves by `quiescence_move_order_score`, keeping the given order
/// among moves that score the same.
pub fn order_quiescence_moves(pos: &Position, moves: &mut [Move])
    ensures
        final(moves)@ == ordered_by(old(moves)@, |m: Move| quiescence_order_spec(*pos, m)),
{
    let ghost key = |m: Move| quiescence_order_spec(*pos, m);
    let n = moves.len();
    let mut keys: Vec<i64> = Vec::new();
    let mut i: usize = 0;
    while i < n
        invariant
            i <= n,
            n == moves@.len(),
            keys@.len() == i,
            forall|t: int| 0 <= t < i ==> keys@[t] as int == quiescence_order_spec(*pos, moves@[t]),
        decreases n - i,
    {
        let mv = moves[i];
        keys.push(quiescence_move_order_score(pos, mv) as i64);
        i = i + 1;
    }
    let ghost before = moves@;
    assert(keyed(moves@, keys@) =~= keyed_by(before, key));
    sort_desc(moves, &mut keys);
    assert(moves_of(keyed(moves@, keys@)) =~= moves@);
}

/// `std::time::Instant`, a reading of the monotonic clock; opaque here.
#[verifier::external_type_specification]
#[verifier::external_body]
pub struct ExInstant(Instant);

/// Reads the clock with `Instant::now`. Nothing is promised of the reading.
#[verifier::external_body]
pub(crate) fn instant_now() -> Instant {
    Instant::now()
}

/// Compares two clock readings with `Instant`'s `>=`. The order of readings
/// is not modelled, so nothing is promised of the answer.
#[verifier::external_body]
fn instant_reached(now: &Instant, deadline: &Instant) -> bool {
    *now >= *deadline
}

/// Whether the clock has reached the deadline; never without a deadline.
fn deadline_expired(deadline: Option<Instant>) -> (r: bool)
    ensures
        deadline is None ==> !r,
{
    match deadline {
        Some(d) => {
            let now = instant_now();
            instant_reached(&now, &d)
        },
        None => false,
    }
}

/// Drawn by the fifty-move rule or by threefold repetition.
pub open spec fn is_draw_spec(pos: Position, history: Seq<State>) -> bool {
    pos.halfmove_clock >= 100 || repetitions(pos, history) >= 3
}

/// A position is drawn exactly when the fifty-move rule applies (a
/// halfmove clock of 100 or more) or it has occurred at least three times
/// since the last capture or pawn move, as `Position::repetition_count`
/// counts; a position seen only twice is not drawn.
pub proof fn lemma_draw_rule(pos: Position, history: Seq<State>)
    ensures
        is_draw_spec(pos, history) <==> (pos.halfmove_clock >= 100 || repetitions(pos, history) >= 3),
        pos.halfmove_clock < 100 && repetitions(pos, history) <= 2 ==> !is_draw_spec(pos, history),
{
}

/// Whether the side to move is in check.
pub open spec fn in_check_spec(pos: Position) -> bool {
    attacked(pos.board@, pos.king_sq[pos.side_to_move.idx() as int], pos.side_to_move.opposit())
}

/// Score of a position without legal moves: mated, counted from the root,
/// or stalemate.
pub open spec fn terminal_spec(pos: Position, ply: int) -> int {
    if in_check_spec(pos) {
        -MATE_SCORE + ply
    } else {
        0
    }
}

/// Plies played since the start of move one: each move adds exactly one.
pub open spec fn ply_index(pos: Position) -> int {
    2 * pos.fullmove_number + if pos.side_to_move == Color::Black {
        1int
    } else {
        0
    }
}

/// A node counter one higher, wrapping past the largest value.
pub open spec fn next_count(n: u64) -> u64 {
    if n == u64::MAX {
        0
    } else {
        (n + 1) as u64
    }
}

fn count_node(nodes: &mut u64)
    ensures
        *final(nodes) == next_count(*old(nodes)),
{
    if *nodes == u64::MAX {
        *nodes = 0;
    } else {
        *nodes = *nodes + 1;
    }
}

/// Whether the position is drawn by the fifty-move rule or by repetition.
pub fn is_draw(pos: &Position, history: &[State]) -> (r: bool)
    ensures
        r == is_draw_spec(*pos, history@),
{
    pos.halfmove_clock >= 100 || pos.is_threefold_repetition(history)
}

/// The score of a position without legal moves.
pub fn terminal_score(pos: &Position, ply: Score) -> (r: Score)
    requires
        MATE_SCORE - MAX_SCORE <= ply,
    ensures
        r == terminal_spec(*pos, ply as int),
{
    if in_check(pos, pos.side_to_move) {
        -MATE_SCORE + ply
    } else {
        0
    }
}

/// The quiescence moves among `moves`, in order.
fn quiescence_moves_of(moves: &Vec<Move>) -> (r: Vec<Move>)
    ensures
        r@ == quiescence_list(moves@),
        forall|k: int| 0 <= k < r@.len() ==> moves@.contains(#[trigger] r@[k]),
{
    let ghost pred = |m: Move| is_quiescence_spec(m);
    let mut r: Vec<Move> = Vec::new();
    let n = moves.len();
    let mut i: usize = 0;
    while i < n
        invariant
            i <= n,
            n == moves@.len(),
            pred == (|m: Move| is_quiescence_spec(m)),
            r@ == moves@.take(i as int).filter(pred),
            forall|k: int| 0 <= k < r@.len() ==> moves@.contains(#[trigger] r@[k]),
        decreases n - i,
    {
        let mv = moves[i];
        proof {
            reveal(Seq::filter);
            assert(moves@.take(i + 1).drop_last() =~= moves@.take(i as int));
            assert(moves@.take(i + 1).last() == mv);
        }
        if is_quiescence_move(mv) {
            r.push(mv);
            proof {
                assert forall|k: int| 0 <= k < r@.len() implies moves@.contains(#[trigger] r@[k]) by {
                    if k == r@.len() - 1 {
                        assert(moves@[i as int] == r@[k]);
                    }
                }
            }
        }
        i = i + 1;
    }
    assert(moves@.take(n as int) =~= moves@);
    r
}

/// Black is to move with the move number at its largest: no move can be
/// made, since Black's move would carry the move number past it.
pub open spec fn counter_full(pos: Position) -> bool {
    pos.side_to_move == Color::Black && pos.fullmove_number == 65535
}

/// A score as fail-hard search reports it in the window `alpha..beta`.
pub open spec fn window_clamp(v: int, alpha: int, beta: int) -> int {
    if v >= beta {
        beta
    } else if v > alpha {
        v
    } else {
        alpha
    }
}

/// Whether Black is to move with the move number at its largest.
pub fn counter_is_full(pos: &Position) -> (r: bool)
    ensures
        r == counter_full(*pos),
{
    match pos.side_to_move {
        Color::White => false,
        Color::Black => pos.fullmove_number == 65535,
    }
}

/// What a finished quiescence search returns: zero for a draw, the static
/// evaluation reported in the window where the move number leaves no move,
/// the terminal score without moves, otherwise a score inside the window that
/// the side to move can claim by standing pat, and the window's upper end
/// when standing pat already reaches it.
#[verifier::opaque]
pub open spec fn quiescence_facts(pos: Position, history: Seq<State>, alpha: int, beta: int, ply: int, s: int) -> bool {
    let stand_pat = eval_spec(pos.board@, pos.side_to_move);
    &&& -MAX_SCORE <= s
    &&& is_draw_spec(pos, history) ==> s == 0
    &&& !is_draw_spec(pos, history) && counter_full(pos) ==> s == window_clamp(stand_pat, alpha, beta)
    &&& !is_draw_spec(pos, history) && !counter_full(pos) && legal_moves(pos).len() == 0 ==> s == terminal_spec(pos, ply)
    &&& !is_draw_spec(pos, history) && !counter_full(pos) && legal_moves(pos).len() > 0 ==> {
        &&& alpha <= beta ==> alpha <= s <= beta
        &&& !in_check_spec(pos) ==> s >= (if stand_pat < beta {
            stand_pat
        } else {
            beta
        })
        &&& !in_check_spec(pos) && stand_pat >= beta ==> s == beta
    }
}

/// The moves quiescence search looks at when not in check.
pub open spec fn quiescence_list(ms: Seq<Move>) -> Seq<Move> {
    ms.filter(|m: Move| is_quiescence_spec(m))
}

/// The larger of two numbers.
pub open spec fn max_int(a: int, b: int) -> int {
    if a >= b {
        a
    } else {
        b
    }
}

/// The quiescence value of a position, seen from the side to move, looking
/// at most `fuel` plies deep: zero for a draw, the terminal score without
/// legal moves, the best reply value when in check, and otherwise the best
/// of standing pat and the values of the captures and promotions.
pub open spec fn qvalue(pos: Position, history: Seq<State>, ply: int, fuel: nat) -> int
    decreases fuel, 0nat,
{
    if fuel == 0 {
        0
    } else if is_draw_spec(pos, history) {
        0
    } else if counter_full(pos) {
        eval_spec(pos.board@, pos.side_to_move)
    } else if legal_moves(pos).len() == 0 {
        terminal_spec(pos, ply)
    } else if in_check_spec(pos) {
        qmax(pos, history, ply, (fuel - 1) as nat, legal_moves(pos))
    } else {
        let stand_pat = eval_spec(pos.board@, pos.side_to_move);
        let qs = quiescence_list(legal_moves(pos));
        if qs.len() == 0 {
            stand_pat
        } else {
            max_int(stand_pat, qmax(pos, history, ply, (fuel - 1) as nat, qs))
        }
    }
}

/// The value of a move for the side that makes it: the negated quiescence
/// value of the position it leads to.
pub open spec fn move_value(pos: Position, history: Seq<State>, ply: int, fuel: nat, m: Move) -> int
    decreases fuel, 1nat,
{
    -qvalue(after_move(pos, m), history.push(state_before(pos, m)), ply + 1, fuel)
}

/// The best value among the moves of a non-empty list.
pub open spec fn qmax(pos: Position, history: Seq<State>, ply: int, fuel: nat, ms: Seq<Move>) -> int
    decreases fuel, ms.len() + 2,
{
    if ms.len() <= 1 {
        move_value(pos, history, ply, fuel, ms[0])
    } else {
        max_int(qmax(pos, history, ply, fuel, ms.drop_last()), move_value(pos, history, ply, fuel, ms.last()))
    }
}

/// What a fail-hard alpha-beta search returns for a node of value `v`
/// searched with the window `alpha..beta`: at most `alpha` when the value is,
/// at least `beta` when the value is, and the value itself inside the window.
pub open spec fn fail_hard(r: int, v: int, alpha: int, beta: int) -> bool {
    &&& v <= alpha ==> r <= alpha
    &&& v >= beta ==> r >= beta
    &&& alpha < v < beta ==> r == v
}

/// Quiescence search with a proper window returns the quiescence value as
/// fail-hard alpha-beta does, for every look-ahead deep enough for the
/// position.
#[verifier::opaque]
pub open spec fn quiescence_law(pos: Position, history: Seq<State>, alpha: int, beta: int, ply: int, s: int) -> bool {
    alpha < beta ==> forall|f: nat|
        f > qmeasure(pos) ==> #[trigger] fail_hard(s, qvalue(pos, history, ply, f), alpha, beta)
}

/// The best move value is at least the value of every move of the list,
/// and is the value of one of them.
proof fn lemma_qmax_bounds(pos: Position, history: Seq<State>, ply: int, fuel: nat, ms: Seq<Move>)
    requires
        ms.len() > 0,
    ensures
        forall|k: int| 0 <= k < ms.len() ==> qmax(pos, history, ply, fuel, ms) >= #[trigger] move_value(
            pos,
            history,
            ply,
            fuel,
            ms[k],
        ),
        exists|k: int| 0 <= k < ms.len() && qmax(pos, history, ply, fuel, ms) == #[trigger] move_value(
            pos,
            history,
            ply,
            fuel,
            ms[k],
        ),
    decreases ms.len(),
{
    if ms.len() > 1 {
        let d = ms.drop_last();
        lemma_qmax_bounds(pos, history, ply, fuel, d);
        assert forall|k: int| 0 <= k < ms.len() implies qmax(pos, history, ply, fuel, ms) >= #[trigger] move_value(
            pos,
            history,
            ply,
            fuel,
            ms[k],
        ) by {
            if k < d.len() {
                assert(d[k] == ms[k]);
            }
        }
        if qmax(pos, history, ply, fuel, ms) == move_value(pos, history, ply, fuel, ms.last()) {
            assert(ms[ms.len() - 1] == ms.last());
        } else {
            let k = choose|k: int| 0 <= k < d.len() && qmax(pos, history, ply, fuel, d) == #[trigger] move_value(
                pos,
                history,
                ply,
                fuel,
                d[k],
            );
            assert(ms[k] == d[k]);
        }
    } else {
        assert(move_value(pos, history, ply, fuel, ms[0]) == qmax(pos, history, ply, fuel, ms));
    }
}

/// Two lists holding the same moves have the same best value.
proof fn lemma_qmax_same_moves(pos: Position, history: Seq<State>, ply: int, fuel: nat, s: Seq<Move>, t: Seq<Move>)
    requires
        s.len() > 0,
        t.len() > 0,
        forall|x: Move| s.contains(x) <==> t.contains(x),
    ensures
        qmax(pos, history, ply, fuel, s) == qmax(pos, history, ply, fuel, t),
{
    lemma_qmax_bounds(pos, history, ply, fuel, s);
    lemma_qmax_bounds(pos, history, ply, fuel, t);
    let ks = choose|k: int| 0 <= k < s.len() && qmax(pos, history, ply, fuel, s) == #[trigger] move_value(
        pos,
        history,
        ply,
        fuel,
        s[k],
    );
    let kt = choose|k: int| 0 <= k < t.len() && qmax(pos, history, ply, fuel, t) == #[trigger] move_value(
        pos,
        history,
        ply,
        fuel,
        t[k],
    );
    assert(s.contains(s[ks]));
    assert(t.contains(s[ks]));
    let j = choose|j: int| 0 <= j < t.len() && t[j] == s[ks];
    assert(move_value(pos, history, ply, fuel, t[j]) <= qmax(pos, history, ply, fuel, t));
    assert(t.contains(t[kt]));
    assert(s.contains(t[kt]));
    let j2 = choose|j: int| 0 <= j < s.len() && s[j] == t[kt];
    assert(move_value(pos, history, ply, fuel, s[j2]) <= qmax(pos, history, ply, fuel, s));
}

/// The search value after the first `i` moves of a list: the starting
/// alpha, raised to the best of the moves seen.
pub open spec fn prefix_best(pos: Position, history: Seq<State>, ply: int, fuel: nat, ord: Seq<Move>, i: int, a0: int) -> int {
    if i <= 0 {
        a0
    } else {
        max_int(a0, qmax(pos, history, ply, (fuel - 1) as nat, ord.take(i)))
    }
}

/// One step of the alpha-beta loop: raising alpha with a fail-hard child
/// result keeps alpha the best seen so far while it stays under beta, and
/// reaching beta means the move is worth at least beta.
proof fn lemma_alpha_step(
    pos: Position,
    history: Seq<State>,
    ply: int,
    fuel: nat,
    ord: Seq<Move>,
    i: int,
    a0: int,
    a_old: int,
    beta: int,
    c: int,
    a_new: int,
)
    requires
        fuel >= 1,
        0 <= i < ord.len(),
        a_old == prefix_best(pos, history, ply, fuel, ord, i, a0),
        a_old < beta,
        fail_hard(c, -move_value(pos, history, ply, (fuel - 1) as nat, ord[i]), -beta, -a_old),
        a_new == max_int(a_old, -c),
    ensures
        a_new < beta ==> a_new == prefix_best(pos, history, ply, fuel, ord, i + 1, a0),
        a_new >= beta ==> move_value(pos, history, ply, (fuel - 1) as nat, ord[i]) >= beta,
{
    let f = (fuel - 1) as nat;
    let t = ord.take(i + 1);
    if i > 0 {
        assert(t.drop_last() =~= ord.take(i));
        assert(t.last() == ord[i]);
        assert(qmax(pos, history, ply, f, t) == max_int(qmax(pos, history, ply, f, ord.take(i)), move_value(pos, history, ply, f, ord[i])));
    } else {
        assert(t.len() == 1);
        assert(t[0] == ord[0]);
    }
}

/// A move worth at least beta makes the node worth at least beta.
proof fn lemma_quiescence_cut(
    pos: Position,
    history: Seq<State>,
    ply: int,
    fuel: nat,
    ord: Seq<Move>,
    list: Seq<Move>,
    i: int,
    beta: int,
)
    requires
        fuel >= 1,
        !is_draw_spec(pos, history),
        !counter_full(pos),
        legal_moves(pos).len() > 0,
        list == (if in_check_spec(pos) {
            legal_moves(pos)
        } else {
            quiescence_list(legal_moves(pos))
        }),
        forall|x: Move| list.contains(x) <==> ord.contains(x),
        0 <= i < ord.len(),
        move_value(pos, history, ply, (fuel - 1) as nat, ord[i]) >= beta,
    ensures
        qvalue(pos, history, ply, fuel) >= beta,
{
    assert(ord.contains(ord[i]));
    let k = choose|k: int| 0 <= k < list.len() && list[k] == ord[i];
    lemma_qmax_bounds(pos, history, ply, (fuel - 1) as nat, list);
    assert(move_value(pos, history, ply, (fuel - 1) as nat, list[k]) <= qmax(pos, history, ply, (fuel - 1) as nat, list));
}

/// When every move has been searched without reaching beta, alpha is the
/// node's value clamped into the window.
proof fn lemma_quiescence_end(
    pos: Position,
    history: Seq<State>,
    ply: int,
    fuel: nat,
    ord: Seq<Move>,
    list: Seq<Move>,
    alpha: int,
    beta: int,
    a0: int,
    a: int,
)
    requires
        fuel >= 1,
        !is_draw_spec(pos, history),
        !counter_full(pos),
        legal_moves(pos).len() > 0,
        list == (if in_check_spec(pos) {
            legal_moves(pos)
        } else {
            quiescence_list(legal_moves(pos))
        }),
        ord.len() == list.len(),
        forall|x: Move| list.contains(x) <==> ord.contains(x),
        a0 == (if in_check_spec(pos) {
            alpha
        } else {
            max_int(alpha, eval_spec(pos.board@, pos.side_to_move))
        }),
        alpha < beta,
        a < beta,
        a == prefix_best(pos, history, ply, fuel, ord, ord.len() as int, a0),
    ensures
        fail_hard(a, qvalue(pos, history, ply, fuel), alpha, beta),
{
    let f = (fuel - 1) as nat;
    if ord.len() > 0 {
        assert(ord.take(ord.len() as int) =~= ord);
        lemma_qmax_same_moves(pos, history, ply, f, list, ord);
    }
}

/// The law at the end of the quiescence loop.
proof fn lemma_quiescence_law_end(pos: Position, history: Seq<State>, ply: int, ord: Seq<Move>, alpha: int, beta: int, a0: int, a: int)
    requires
        qloop_law(pos, history, ply, ord, ord.len() as int, a0, alpha, beta, a),
    ensures
        quiescence_law(pos, history, alpha, beta, ply, a),
{
    reveal(quiescence_law);
    reveal(qloop_law);
    let list = if in_check_spec(pos) {
        legal_moves(pos)
    } else {
        quiescence_list(legal_moves(pos))
    };
    if alpha < beta {
        assert forall|f: nat| f > qmeasure(pos) implies #[trigger] fail_hard(a, qvalue(pos, history, ply, f), alpha, beta) by {
            assert(prefix_best(pos, history, ply, f, ord, ord.len() as int, a0) == a);
            lemma_quiescence_end(pos, history, ply, f, ord, list, alpha, beta, a0, a);
        }
    }
}

/// The law for the nodes decided without searching a move.
proof fn lemma_quiescence_law_leaf(pos: Position, history: Seq<State>, alpha: int, beta: int, ply: int, s: int)
    requires
        0 <= qmeasure(pos),
        is_draw_spec(pos, history) ==> s == 0,
        !is_draw_spec(pos, history) && counter_full(pos) ==> s == window_clamp(
            eval_spec(pos.board@, pos.side_to_move),
            alpha,
            beta,
        ),
        !is_draw_spec(pos, history) && !counter_full(pos) && legal_moves(pos).len() == 0 ==> s == terminal_spec(pos, ply),
        !is_draw_spec(pos, history) && !counter_full(pos) && legal_moves(pos).len() > 0 ==> !in_check_spec(pos) && eval_spec(
            pos.board@,
            pos.side_to_move,
        ) >= beta && s == beta,
    ensures
        quiescence_law(pos, history, alpha, beta, ply, s),
{
    reveal(quiescence_law);
    if alpha < beta {
        assert forall|f: nat| f > qmeasure(pos) implies #[trigger] fail_hard(s, qvalue(pos, history, ply, f), alpha, beta) by {
            if !is_draw_spec(pos, history) && !counter_full(pos) && legal_moves(pos).len() > 0 {
                let qs = quiescence_list(legal_moves(pos));
                let sp = eval_spec(pos.board@, pos.side_to_move);
                if qs.len() > 0 {
                    assert(max_int(sp, qmax(pos, history, ply, (f - 1) as nat, qs)) >= sp);
                }
            }
        }
    }
}

/// Where the quiescence loop stands after `i` of the moves `ord`: `ord`
/// holds the moves the node looks at, `a0` is alpha after standing pat, and
/// `a` is alpha raised to the best value seen.
#[verifier::opaque]
spec fn qloop_law(
    pos: Position,
    history: Seq<State>,
    ply: int,
    ord: Seq<Move>,
    i: int,
    a0: int,
    alpha: int,
    beta: int,
    a: int,
) -> bool {
    let list = if in_check_spec(pos) {
        legal_moves(pos)
    } else {
        quiescence_list(legal_moves(pos))
    };
    &&& !is_draw_spec(pos, history)
    &&& !counter_full(pos)
    &&& legal_moves(pos).len() > 0
    &&& 0 <= qmeasure(pos)
    &&& ord.len() == list.len()
    &&& forall|x: Move| list.contains(x) <==> ord.contains(x)
    &&& a0 == (if in_check_spec(pos) {
        alpha
    } else {
        max_int(alpha, eval_spec(pos.board@, pos.side_to_move))
    })
    &&& 0 <= i <= ord.len()
    &&& i == 0 ==> a == a0
    &&& alpha < beta ==> a < beta
    &&& alpha < beta ==> forall|f: nat|
        f > qmeasure(pos) ==> #[trigger] prefix_best(pos, history, ply, f, ord, i, a0) == a
}

proof fn lemma_qloop_init(pos: Position, history: Seq<State>, ply: int, ord: Seq<Move>, list: Seq<Move>, alpha: int, beta: int, a0: int)
    requires
        !is_draw_spec(pos, history),
        !counter_full(pos),
        legal_moves(pos).len() > 0,
        0 <= qmeasure(pos),
        list == (if in_check_spec(pos) {
            legal_moves(pos)
        } else {
            quiescence_list(legal_moves(pos))
        }),
        ord.len() == list.len(),
        forall|x: Move| list.contains(x) <==> ord.contains(x),
        a0 == (if in_check_spec(pos) {
            alpha
        } else {
            max_int(alpha, eval_spec(pos.board@, pos.side_to_move))
        }),
        !in_check_spec(pos) ==> eval_spec(pos.board@, pos.side_to_move) < beta,
    ensures
        qloop_law(pos, history, ply, ord, 0, a0, alpha, beta, a0),
{
    reveal(qloop_law);
}

/// The moves the quiescence loop goes through are good moves of the
/// position, and the loop starts at alpha after standing pat.
proof fn lemma_quiescence_setup(
    pos: Position,
    history: Seq<State>,
    ply: int,
    listed: Seq<Move>,
    ord: Seq<Move>,
    alpha: int,
    beta: int,
    a0: int,
)
    requires
        playable(pos),
        !is_draw_spec(pos, history),
        !counter_full(pos),
        legal_moves(pos).len() > 0,
        0 <= qmeasure(pos),
        listed == (if in_check_spec(pos) {
            legal_moves(pos)
        } else {
            quiescence_list(legal_moves(pos))
        }),
        forall|k: int| 0 <= k < listed.len() ==> legal_moves(pos).contains(#[trigger] listed[k]),
        ord == ordered_by(listed, |m: Move| quiescence_order_spec(pos, m)),
        a0 == (if in_check_spec(pos) {
            alpha
        } else {
            max_int(alpha, eval_spec(pos.board@, pos.side_to_move))
        }),
        !in_check_spec(pos) ==> eval_spec(pos.board@, pos.side_to_move) < beta,
    ensures
        all_good_list(pos, ord),
        qloop_law(pos, history, ply, ord, 0, a0, alpha, beta, a0),
{
    broadcast use vstd::seq_lib::group_to_multiset_ensures;
    lemma_legal_good(pos);
    reveal(all_good_list);
    lemma_ordered_by(listed, |m: Move| quiescence_order_spec(pos, m));
    assert forall|x: Move| listed.contains(x) <==> ord.contains(x) by {
        if listed.contains(x) {
            assert(listed.to_multiset().count(x) > 0);
        }
        if ord.contains(x) {
            assert(ord.to_multiset().count(x) > 0);
        }
    }
    lemma_qloop_init(pos, history, ply, ord, listed, alpha, beta, a0);
    assert forall|k: int| 0 <= k < ord.len() implies good_move(pos, #[trigger] ord[k]) by {
        assert(ord.contains(ord[k]));
        let t = choose|t: int| 0 <= t < listed.len() && listed[t] == ord[k];
        assert(legal_moves(pos).contains(listed[t]));
        let u = choose|u: int| 0 <= u < legal_moves(pos).len() && legal_moves(pos)[u] == listed[t];
    }
}

/// What one searched move does to the quiescence loop: alpha stays the best
/// value seen while under beta, and reaching beta settles the node.
proof fn lemma_quiescence_child(
    pos: Position,
    history: Seq<State>,
    ply: int,
    ord: Seq<Move>,
    i: int,
    a0: int,
    alpha: int,
    beta: int,
    a_old: int,
    c: int,
    a_new: int,
    mid: Position,
)
    requires
        qloop_law(pos, history, ply, ord, i, a0, alpha, beta, a_old),
        i < ord.len(),
        mid == after_move(pos, ord[i]),
        0 <= qmeasure(mid) < qmeasure(pos),
        quiescence_law(mid, history.push(state_before(pos, ord[i])), -beta, -a_old, ply + 1, c),
        a_new == max_int(a_old, -c),
    ensures
        a_new < beta ==> qloop_law(pos, history, ply, ord, i + 1, a0, alpha, beta, a_new),
        a_new >= beta ==> quiescence_law(pos, history, alpha, beta, ply, beta),
{
    reveal(quiescence_law);
    reveal(qloop_law);
    let list = if in_check_spec(pos) {
        legal_moves(pos)
    } else {
        quiescence_list(legal_moves(pos))
    };
    let mv = ord[i];
    let h1 = history.push(state_before(pos, mv));
    if alpha < beta {
        assert forall|f: nat| f > qmeasure(pos) && a_new < beta implies #[trigger] prefix_best(pos, history, ply, f, ord, i + 1, a0) == a_new by {
            let g = (f - 1) as nat;
            assert(g > qmeasure(mid));
            assert(fail_hard(c, qvalue(mid, h1, ply + 1, g), -beta, -a_old));
            assert(qvalue(mid, h1, ply + 1, g) == -move_value(pos, history, ply, g, mv));
            assert(prefix_best(pos, history, ply, f, ord, i, a0) == a_old);
            lemma_alpha_step(pos, history, ply, f, ord, i, a0, a_old, beta, c, a_new);
        }
        assert forall|f: nat| f > qmeasure(pos) && a_new >= beta implies #[trigger] fail_hard(beta, qvalue(pos, history, ply, f), alpha, beta) by {
            let g = (f - 1) as nat;
            assert(g > qmeasure(mid));
            assert(fail_hard(c, qvalue(mid, h1, ply + 1, g), -beta, -a_old));
            assert(qvalue(mid, h1, ply + 1, g) == -move_value(pos, history, ply, g, mv));
            assert(prefix_best(pos, history, ply, f, ord, i, a0) == a_old);
            lemma_alpha_step(pos, history, ply, f, ord, i, a0, a_old, beta, c, a_new);
            lemma_quiescence_cut(pos, history, ply, f, ord, list, i, beta);
        }
    }
}

/// A quiescence search ends at once, after counting one node: on a draw,
/// without legal moves, or when standing pat reaches the window's top.
#[verifier::opaque]
pub open spec fn quiescence_leaf(pos: Position, history: Seq<State>, beta: int) -> bool {
    ||| is_draw_spec(pos, history)
    ||| counter_full(pos)
    ||| legal_moves(pos).len() == 0
    ||| !in_check_spec(pos) && eval_spec(pos.board@, pos.side_to_move) >= beta
}

/// A good move adds one ply.
proof fn lemma_ply_after(pos: Position, m: Move, mid: Position, st: State)
    requires
        made(pos, m, mid, st),
    ensures
        ply_index(mid) == ply_index(pos) + 1,
{
}

/// Every move of a list is a good move of the position.
#[verifier::opaque]
spec fn all_good_list(pos: Position, ms: Seq<Move>) -> bool {
    forall|k: int| 0 <= k < ms.len() ==> good_move(pos, #[trigger] ms[k])
}

proof fn lemma_good_at(pos: Position, ms: Seq<Move>, k: int)
    requires
        all_good_list(pos, ms),
        0 <= k < ms.len(),
    ensures
        good_move(pos, ms[k]),
{
    reveal(all_good_list);
}

/// A good move made from a sound position.
#[verifier::opaque]
spec fn stepped(before: Position, mv: Move, after: Position, st: State) -> bool {
    &&& sound(before)
    &&& good_move(before, mv)
    &&& made(before, mv, after, st)
}

/// Makes a good move of a sound position not drawn by the fifty-move rule.
fn play(pos: &mut Position, mv: Move) -> (st: State)
    requires
        sound(*old(pos)),
        old(pos).halfmove_clock < 100,
        good_move(*old(pos), mv),
    ensures
        stepped(*old(pos), mv, *final(pos), st),
        sound(*final(pos)),
        0 <= qmeasure(*final(pos)) < qmeasure(*old(pos)),
        ply_index(*final(pos)) == ply_index(*old(pos)) + 1,
        *final(pos) == after_move(*old(pos), mv),
        st == state_before(*old(pos), mv),
{
    let ghost p0 = *pos;
    let st = pos.make_move(mv);
    proof {
        reveal(stepped);
        lemma_after_move(p0, mv, *pos, st);
        lemma_sound_after(p0, mv, *pos, st);
        lemma_qmeasure_decreases(p0, mv, *pos, st);
        lemma_qmeasure_bounds(*pos);
        lemma_ply_after(p0, mv, *pos, st);
    }
    st
}

/// Takes back a move made by `play`.
fn take_back(pos: &mut Position, mv: Move, st: State, Ghost(before): Ghost<Position>)
    requires
        stepped(before, mv, *old(pos), st),
    ensures
        *final(pos) == before,
{
    let ghost mid = *pos;
    proof {
        reveal(stepped);
        lemma_made_can_unmake(before, mv, mid, st);
    }
    pos.unmake_move(mv, st);
    proof {
        lemma_unmake_restores(before, mv, mid, st, *pos);
    }
}

/// Searches captures and promotions (every move when in check) until the
/// position is quiet, with a fail-hard window. `None` when the deadline
/// passed; the position and history are left as they were.
#[verifier::spinoff_prover]
#[verifier::rlimit(100)]
pub fn quiescence(
    pos: &mut Position,
    history: &mut Vec<State>,
    alpha: Score,
    beta: Score,
    ply: Score,
    nodes: &mut u64,
    deadline: Option<Instant>,
) -> (r: Option<Score>)
    requires
        sound(*old(pos)),
        -MAX_SCORE <= alpha,
        -MAX_SCORE <= beta,
        MATE_SCORE - MAX_SCORE <= ply,
        ply + qmeasure(*old(pos)) < MAX_SCORE,
    ensures
        *final(pos) == *old(pos),
        final(history)@ == old(history)@,
        deadline is None ==> r is Some,
        r matches Some(s) ==> -MAX_SCORE <= s,
        r matches Some(s) ==> quiescence_facts(
            *old(pos),
            old(history)@,
            alpha as int,
            beta as int,
            ply as int,
            s as int,
        ),
        r is Some && quiescence_leaf(*old(pos), old(history)@, beta as int) ==> *final(nodes)
            == next_count(*old(nodes)),
        r matches Some(s) ==> quiescence_law(
            *old(pos),
            old(history)@,
            alpha as int,
            beta as int,
            ply as int,
            s as int,
        ),
    decreases qmeasure(*old(pos)),
{
    proof {
        reveal(quiescence_facts);
        reveal(quiescence_leaf);
        lemma_qmeasure_bounds(*pos);
    }
    if deadline_expired(deadline) {
        return None;
    }
    count_node(nodes);
    if is_draw(pos, history) {
        proof {
            lemma_quiescence_law_leaf(*pos, history@, alpha as int, beta as int, ply as int, 0);
        }
        return Some(0);
    }
    if counter_is_full(pos) {
        let sp = evaluate(pos);
        let s = if sp >= beta {
            beta
        } else if sp > alpha {
            sp
        } else {
            alpha
        };
        proof {
            lemma_quiescence_law_leaf(*pos, history@, alpha as int, beta as int, ply as int, s as int);
        }
        return Some(s);
    }
    proof {
        lemma_qmeasure_bounds(*pos);
    }
    let checked = in_check(pos, pos.side_to_move);
    let mut moves: Vec<Move> = Vec::new();
    generate_legal(pos, &mut moves);
    if moves.len() == 0 {
        let t = terminal_score(pos, ply);
        proof {
            lemma_quiescence_law_leaf(*pos, history@, alpha as int, beta as int, ply as int, t as int);
        }
        return Some(t);
    }
    let mut a = alpha;
    if !checked {
        let stand_pat = evaluate(pos);
        if stand_pat >= beta {
            proof {
                lemma_quiescence_law_leaf(*pos, history@, alpha as int, beta as int, ply as int, beta as int);
            }
            return Some(beta);
        }
        if stand_pat > a {
            a = stand_pat;
        }
        moves = quiescence_moves_of(&moves);
    }
    let ghost listed = moves@;
    proof {
        if checked {
            assert forall|k: int| 0 <= k < listed.len() implies legal_moves(*pos).contains(#[trigger] listed[k]) by {
                assert(legal_moves(*pos)[k] == listed[k]);
            }
        }
    }
    order_quiescence_moves(pos, moves.as_mut_slice());
    let ghost p0 = *pos;
    let ghost h0 = history@;
    let ghost stand_pat = eval_spec(p0.board@, p0.side_to_move);
    let ghost a0 = a as int;
    let ghost qm0 = qmeasure(p0);
    proof {
        lemma_quiescence_setup(p0, h0, ply as int, listed, moves@, alpha as int, beta as int, a0);
    }
    let n = moves.len();
    let mut i: usize = 0;
    while i < n
        invariant
            *pos == p0,
            p0 == *old(pos),
            history@ == h0,
            h0 == old(history)@,
            sound(p0),
            p0.halfmove_clock < 100,
            MATE_SCORE - MAX_SCORE <= ply,
            ply + qmeasure(p0) < MAX_SCORE,
            qmeasure(p0) == qmeasure(*old(pos)),
            -MAX_SCORE <= beta,
            n == moves@.len(),
            i <= n,
            all_good_list(p0, moves@),
            alpha <= a,
            alpha <= beta ==> a <= beta,
            i > 0 ==> a < beta,
            checked == in_check_spec(p0),
            !checked ==> stand_pat <= a,
            !checked ==> stand_pat < beta,
            !is_draw_spec(p0, h0),
            legal_moves(p0).len() > 0,
            stand_pat == eval_spec(p0.board@, p0.side_to_move),
            -MAX_SCORE <= a,
            qm0 == qmeasure(p0),
            qloop_law(p0, h0, ply as int, moves@, i as int, a0, alpha as int, beta as int, a as int),
        decreases n - i,
    {
        proof {
            reveal(quiescence_facts);
            reveal(quiescence_leaf);
        }
        let mv = moves[i];
        proof {
            lemma_good_at(p0, moves@, i as int);
        }
        let ghost a_old = a as int;
        let state = play(pos, mv);
        let ghost mid = *pos;
        history.push(state);
        let child = quiescence(pos, history, -beta, -a, ply + 1, nodes, deadline);
        history.pop();
        assert(history@ =~= h0);
        take_back(pos, mv, state, Ghost(p0));
        match child {
            None => {
                return None;
            },
            Some(child_score) => {
                let score = -child_score;
                if score > a {
                    a = score;
                }
                proof {
                    lemma_quiescence_child(p0, h0, ply as int, moves@, i as int, a0, alpha as int, beta as int,
                        a_old, child_score as int, a as int, mid);
                }
                if a >= beta {
                    return Some(beta);
                }
            },
        }
        i = i + 1;
    }
    proof {
        assert(i == n);
        lemma_quiescence_law_end(p0, h0, ply as int, moves@, alpha as int, beta as int, a0, a as int);
    }
    Some(a)
}

/// What the table answers for a node without searching it: the stored
/// entry for the key, when it is deep enough and exact or a bound that
/// already decides the window.
pub open spec fn table_cut(
    slots: Seq<Option<TtEntry>>,
    key: u64,
    depth: u8,
    alpha: int,
    beta: int,
    ply: int,
) -> Option<int> {
    match probe_spec(slots, key) {
        Some(e) => entry_score_spec(e, depth, alpha, beta, ply),
        None => None,
    }
}

/// How a searched score relates to the window it was searched with.
pub open spec fn bound_of(score: int, alpha: int, beta: int) -> TtBound {
    if score <= alpha {
        TtBound::Upper
    } else if score >= beta {
        TtBound::Lower
    } else {
        TtBound::Exact
    }
}

/// An entry that records a searched score of the position.
pub open spec fn records(e: TtEntry, pos: Position, depth: u8, score: int, ply: int, bound: TtBound) -> bool {
    &&& e.key == pos.zobrist
    &&& e.depth == depth
    &&& e.score == to_tt_spec(score, ply)
    &&& e.bound == bound
    &&& e.best_move matches Some(m) ==> legal_moves(pos).contains(m)
}

/// The best of the negated child scores among the first `i` searched
/// moves, starting from the lowest score.
pub open spec fn best_prefix(cs: Seq<int>, i: int) -> int
    decreases i,
{
    if i <= 0 {
        -INF as int
    } else {
        max_int(best_prefix(cs, i - 1), -cs[i - 1])
    }
}

/// The lower end of the window after the first `i` searched moves.
pub open spec fn alpha_prefix(alpha: int, cs: Seq<int>, i: int) -> int {
    if i <= 0 {
        alpha
    } else {
        max_int(alpha, best_prefix(cs, i))
    }
}

/// The first move, among the first `i`, whose negated child score raised
/// the best score; none when no move rose above the lowest score.
pub open spec fn best_move_prefix(ord: Seq<Move>, cs: Seq<int>, i: int) -> Option<Move>
    decreases i,
{
    if i <= 0 {
        None
    } else if -cs[i - 1] > best_prefix(cs, i - 1) {
        Some(ord[i - 1])
    } else {
        best_move_prefix(ord, cs, i - 1)
    }
}

/// The move the table suggests to try first.
pub open spec fn hash_move_of(slots: Seq<Option<TtEntry>>, key: u64) -> Option<Move> {
    match probe_spec(slots, key) {
        Some(e) => e.best_move,
        None => None,
    }
}

/// The table changed only in slots that now hold entries of depth at most
/// `d`.
pub open spec fn shallow_changes(before: Seq<Option<TtEntry>>, after: Seq<Option<TtEntry>>, d: int) -> bool {
    &&& after.len() == before.len()
    &&& forall|k: int|
        0 <= k < after.len() ==> #[trigger] after[k] == before[k] || (after[k] is Some && after[k]->0.depth
            <= d)
}

/// The entry a searched node stores.
pub open spec fn searched_entry(pos: Position, depth: u8, alpha: int, beta: int, ply: int, ord: Seq<Move>, cs: Seq<int>) -> TtEntry {
    let s = best_prefix(cs, cs.len() as int);
    TtEntry {
        key: pos.zobrist,
        depth,
        score: to_tt_spec(s, ply) as i32,
        bound: bound_of(s, alpha, beta),
        best_move: best_move_prefix(ord, cs, cs.len() as int),
    }
}

/// What a finished negamax search returns and does to the table: zero for
/// a draw, the table's answer when it decides, the quiescence result at
/// depth zero or where the move number leaves Black no move, the terminal
/// score without legal moves, and otherwise the
/// alpha-beta combination of its children: the moves in hash-move order are
/// searched one ply shallower, each with the window the earlier ones left,
/// until one reaches `beta`; the score is the best negated child score, and
/// the entry recording it, with the first move that reached it, is stored
/// over what the children stored and is found again wherever it replaced
/// the slot.
#[verifier::opaque]
pub open spec fn negamax_facts(
    pos: Position,
    history: Seq<State>,
    depth: u8,
    alpha: int,
    beta: int,
    ply: int,
    s: int,
    before: Seq<Option<TtEntry>>,
    after: Seq<Option<TtEntry>>,
) -> bool
    decreases depth, 1nat,
{
    let draw = is_draw_spec(pos, history);
    let cut = table_cut(before, pos.zobrist, depth, alpha, beta, ply);
    &&& draw ==> s == 0 && after == before
    &&& !draw && cut is Some ==> s == cut->0 && after == before
    &&& !draw && cut is None && (depth == 0 || counter_full(pos)) ==> quiescence_facts(pos, history, alpha, beta, ply, s)
        && quiescence_law(pos, history, alpha, beta, ply, s) && after == before
    &&& !draw && cut is None && depth > 0 && !counter_full(pos) && legal_moves(pos).len() == 0 ==> {
        &&& s == terminal_spec(pos, ply)
        &&& exists|e: TtEntry|
            records(e, pos, depth, s, ply, TtBound::Exact) && e.best_move is None && after
                == #[trigger] store_spec(before, e)
    }
    &&& !draw && cut is None && depth > 0 && !counter_full(pos) && legal_moves(pos).len() > 0 ==> {
        let ord = ordered_by(legal_moves(pos), |m: Move| hash_order_key(m, hash_move_of(before, pos.zobrist)));
        exists|cs: Seq<int>, ts: Seq<Seq<Option<TtEntry>>>|
            {
                &&& #[trigger] searched(pos, history, depth, alpha, beta, ply, ord, cs, ts)
                &&& ts[0] == before
                &&& shallow_changes(before, ts.last(), depth - 1)
                &&& s == best_prefix(cs, cs.len() as int)
                &&& records(searched_entry(pos, depth, alpha, beta, ply, ord, cs), pos, depth, s, ply, bound_of(s, alpha, beta))
                &&& after == store_spec(ts.last(), searched_entry(pos, depth, alpha, beta, ply, ord, cs))
                &&& replaces(before, searched_entry(pos, depth, alpha, beta, ply, ord, cs)) ==> probe_spec(after, pos.zobrist)
                    == Some(searched_entry(pos, depth, alpha, beta, ply, ord, cs))
            }
    }
}

/// The moves `ord` of a node were searched in order with child scores `cs`,
/// the table going through `ts`: each child was searched one ply shallower
/// with the window the moves before it left, as negamax does, and the
/// search stopped at the first move that reached `beta`, or after all.
#[verifier::opaque]
pub open spec fn searched(
    pos: Position,
    history: Seq<State>,
    depth: u8,
    alpha: int,
    beta: int,
    ply: int,
    ord: Seq<Move>,
    cs: Seq<int>,
    ts: Seq<Seq<Option<TtEntry>>>,
) -> bool
    decreases depth, 0nat,
{
    &&& depth > 0
    &&& 1 <= cs.len() <= ord.len()
    &&& ts.len() == cs.len() + 1
    &&& forall|i: int|
        0 <= i < cs.len() ==> negamax_facts(
            after_move(pos, ord[i]),
            history.push(state_before(pos, ord[i])),
            (depth - 1) as u8,
            -beta,
            -alpha_prefix(alpha, cs, i),
            ply + 1,
            #[trigger] cs[i],
            ts[i],
            ts[i + 1],
        )
    &&& forall|i: int| 0 <= i < cs.len() - 1 ==> #[trigger] alpha_prefix(alpha, cs, i + 1) < beta
    &&& cs.len() == ord.len() || alpha_prefix(alpha, cs, cs.len() as int) >= beta
}

/// Every move of a list is a legal move of the position.
#[verifier::opaque]
spec fn all_legal_list(pos: Position, ms: Seq<Move>) -> bool {
    forall|k: int| 0 <= k < ms.len() ==> legal_moves(pos).contains(#[trigger] ms[k])
}

/// A reordering of the legal moves holds good, legal moves only.
proof fn lemma_ordered_legal(pos: Position, ms: Seq<Move>, key: spec_fn(Move) -> int)
    requires
        playable(pos),
        ms == legal_moves(pos),
    ensures
        all_good_list(pos, ordered_by(ms, key)),
        all_legal_list(pos, ordered_by(ms, key)),
        ordered_by(ms, key).len() == ms.len(),
{
    broadcast use vstd::seq_lib::group_to_multiset_ensures;
    reveal(all_good_list);
    reveal(all_legal_list);
    lemma_legal_good(pos);
    lemma_ordered_by(ms, key);
    let o = ordered_by(ms, key);
    assert forall|k: int| 0 <= k < o.len() implies legal_moves(pos).contains(#[trigger] o[k]) by {
        assert(o.to_multiset().count(o[k]) > 0);
    }
    assert forall|k: int| 0 <= k < o.len() implies good_move(pos, #[trigger] o[k]) by {
        assert(legal_moves(pos).contains(o[k]));
        let t = choose|t: int| 0 <= t < ms.len() && ms[t] == o[k];
    }
}

proof fn lemma_legal_at(pos: Position, ms: Seq<Move>, k: int)
    requires
        all_legal_list(pos, ms),
        0 <= k < ms.len(),
    ensures
        legal_moves(pos).contains(ms[k]),
{
    reveal(all_legal_list);
}

/// The first moves of `ord` were searched as `searched` describes, none of
/// them but possibly the last reaching `beta`.
#[verifier::opaque]
spec fn loop_done(
    pos: Position,
    history: Seq<State>,
    depth: u8,
    alpha: int,
    beta: int,
    ply: int,
    ord: Seq<Move>,
    cs: Seq<int>,
    ts: Seq<Seq<Option<TtEntry>>>,
) -> bool {
    &&& forall|i: int|
        0 <= i < cs.len() ==> negamax_facts(
            after_move(pos, ord[i]),
            history.push(state_before(pos, ord[i])),
            (depth - 1) as u8,
            -beta,
            -alpha_prefix(alpha, cs, i),
            ply + 1,
            #[trigger] cs[i],
            ts[i],
            ts[i + 1],
        )
    &&& forall|i: int| 0 <= i < cs.len() - 1 ==> #[trigger] alpha_prefix(alpha, cs, i + 1) < beta
}

proof fn lemma_shallow_trans(
    a: Seq<Option<TtEntry>>,
    b: Seq<Option<TtEntry>>,
    c: Seq<Option<TtEntry>>,
    d: int,
)
    requires
        shallow_changes(a, b, d),
        shallow_changes(b, c, d),
    ensures
        shallow_changes(a, c, d),
{
    assert forall|k: int| 0 <= k < c.len() implies #[trigger] c[k] == a[k] || (c[k] is Some && c[k]->0.depth
        <= d) by {
        assert(c[k] == b[k] || (c[k] is Some && c[k]->0.depth <= d));
        assert(b[k] == a[k] || (b[k] is Some && b[k]->0.depth <= d));
    }
}

/// Storing an entry deeper than every change keeps the changes shallow
/// enough, and the entry is found afterwards wherever it would have
/// replaced the slot's original content.
proof fn lemma_store_shallow(before: Seq<Option<TtEntry>>, mid: Seq<Option<TtEntry>>, e: TtEntry, d: int)
    requires
        shallow_changes(before, mid, d),
        before.len() >= 1,
        e.depth == d + 1,
    ensures
        shallow_changes(before, store_spec(mid, e), d + 1),
        replaces(before, e) ==> probe_spec(store_spec(mid, e), e.key) == Some(e),
{
    let after = store_spec(mid, e);
    let k0 = slot_of(e.key, before.len() as int);
    assert(mid[k0] == before[k0] || (mid[k0] is Some && mid[k0]->0.depth <= d));
    assert forall|k: int| 0 <= k < after.len() implies #[trigger] after[k] == before[k] || (after[k] is Some
        && after[k]->0.depth <= d + 1) by {
        assert(mid[k] == before[k] || (mid[k] is Some && mid[k]->0.depth <= d));
    }
}

/// Best score, window and best move over one more child score.
proof fn lemma_prefix_push(ord: Seq<Move>, cs: Seq<int>, c: int, k: int)
    requires
        0 <= k <= cs.len(),
    ensures
        best_prefix(cs.push(c), k) == best_prefix(cs, k),
        best_move_prefix(ord, cs.push(c), k) == best_move_prefix(ord, cs, k),
    decreases k,
{
    if k > 0 {
        lemma_prefix_push(ord, cs, c, k - 1);
        assert(cs.push(c)[k - 1] == cs[k - 1]);
    }
}

proof fn lemma_best_monotone(cs: Seq<int>, i: int, j: int)
    requires
        0 <= i <= j <= cs.len(),
    ensures
        best_prefix(cs, i) <= best_prefix(cs, j),
    decreases j - i,
{
    if i < j {
        lemma_best_monotone(cs, i, j - 1);
    }
}

/// One more searched child extends the record of the loop.
proof fn lemma_loop_step(
    pos: Position,
    history: Seq<State>,
    depth: u8,
    alpha: int,
    beta: int,
    ply: int,
    ord: Seq<Move>,
    cs: Seq<int>,
    ts: Seq<Seq<Option<TtEntry>>>,
    c: int,
    t: Seq<Option<TtEntry>>,
)
    requires
        loop_done(pos, history, depth, alpha, beta, ply, ord, cs, ts),
        ts.len() == cs.len() + 1,
        cs.len() < ord.len(),
        cs.len() > 0 ==> alpha_prefix(alpha, cs, cs.len() as int) < beta,
        negamax_facts(
            after_move(pos, ord[cs.len() as int]),
            history.push(state_before(pos, ord[cs.len() as int])),
            (depth - 1) as u8,
            -beta,
            -alpha_prefix(alpha, cs, cs.len() as int),
            ply + 1,
            c,
            ts.last(),
            t,
        ),
    ensures
        loop_done(pos, history, depth, alpha, beta, ply, ord, cs.push(c), ts.push(t)),
{
    reveal(loop_done);
    let cs1 = cs.push(c);
    let ts1 = ts.push(t);
    let n = cs.len() as int;
    assert forall|i: int| 0 <= i <= n implies #[trigger] alpha_prefix(alpha, cs1, i) == alpha_prefix(alpha, cs, i) by {
        lemma_prefix_push(ord, cs, c, i);
    }
    assert forall|i: int| 0 <= i < cs1.len() implies #[trigger] negamax_facts(
        after_move(pos, ord[i]),
        history.push(state_before(pos, ord[i])),
        (depth - 1) as u8,
        -beta,
        -alpha_prefix(alpha, cs1, i),
        ply + 1,
        cs1[i],
        ts1[i],
        ts1[i + 1],
    ) by {
        assert(alpha_prefix(alpha, cs1, i) == alpha_prefix(alpha, cs, i));
        if i < n {
            assert(cs1[i] == cs[i]);
            assert(ts1[i] == ts[i]);
            assert(ts1[i + 1] == ts[i + 1]);
        } else {
            assert(ts1[i] == ts.last());
        }
    }
    assert forall|i: int| 0 <= i < cs1.len() - 1 implies #[trigger] alpha_prefix(alpha, cs1, i + 1) < beta by {
        assert(alpha_prefix(alpha, cs1, i + 1) == alpha_prefix(alpha, cs, i + 1));
        if i < n - 1 {
        } else {
        }
    }
}

/// A finished loop is a searched node.
proof fn lemma_loop_searched(
    pos: Position,
    history: Seq<State>,
    depth: u8,
    alpha: int,
    beta: int,
    ply: int,
    ord: Seq<Move>,
    cs: Seq<int>,
    ts: Seq<Seq<Option<TtEntry>>>,
)
    requires
        loop_done(pos, history, depth, alpha, beta, ply, ord, cs, ts),
        depth > 0,
        1 <= cs.len() <= ord.len(),
        ts.len() == cs.len() + 1,
        cs.len() == ord.len() || alpha_prefix(alpha, cs, cs.len() as int) >= beta,
    ensures
        searched(pos, history, depth, alpha, beta, ply, ord, cs, ts),
{
    reveal(loop_done);
    assert forall|i: int| 0 <= i < cs.len() implies #[trigger] negamax_facts(
        after_move(pos, ord[i]),
        history.push(state_before(pos, ord[i])),
        (depth - 1) as u8,
        -beta,
        -alpha_prefix(alpha, cs, i),
        ply + 1,
        cs[i],
        ts[i],
        ts[i + 1],
    ) by {}
    assert forall|i: int| 0 <= i < cs.len() - 1 implies #[trigger] alpha_prefix(alpha, cs, i + 1) < beta by {}
    reveal(negamax_facts);
    reveal_with_fuel(searched, 1);
}

/// Negamax search with alpha-beta pruning and the transposition table; at
/// depth zero it hands over to quiescence search. `None` when the deadline
/// passed; the position and history are left as they were.
#[verifier::spinoff_prover]
#[verifier::rlimit(100)]
pub fn negamax(
    pos: &mut Position,
    history: &mut Vec<State>,
    depth: u8,
    alpha: Score,
    beta: Score,
    ply: Score,
    nodes: &mut u64,
    deadline: Option<Instant>,
    tt: &mut TranspositionTable,
) -> (r: Option<Score>)
    requires
        sound(*old(pos)),
        old(tt).wf(),
        -MAX_SCORE <= alpha,
        -MAX_SCORE <= beta,
        MATE_SCORE - MAX_SCORE <= ply,
        ply + depth + 51812 < MAX_SCORE,
    ensures
        *final(pos) == *old(pos),
        final(history)@ == old(history)@,
        final(tt).wf(),
        final(tt).slots().len() == old(tt).slots().len(),
        shallow_changes(old(tt).slots(), final(tt).slots(), depth as int),
        deadline is None ==> r is Some,
        r matches Some(s) ==> -MAX_SCORE <= s,
        r matches Some(s) ==> negamax_facts(
            *old(pos),
            old(history)@,
            depth,
            alpha as int,
            beta as int,
            ply as int,
            s as int,
            old(tt).slots(),
            final(tt).slots(),
        ),
    decreases depth,
{
    proof {
        reveal(negamax_facts);
    }
    if deadline_expired(deadline) {
        return None;
    }
    count_node(nodes);
    if is_draw(pos, history) {
        return Some(0);
    }
    let key = pos.zobrist;
    let tt_entry = tt.probe(key);
    let cut = match tt_entry {
        Some(entry) => score_from_tt_entry(entry, depth, alpha, beta, ply),
        None => None,
    };
    match cut {
        Some(score) => {
            return Some(score);
        },
        None => {},
    }
    if depth == 0 || counter_is_full(pos) {
        proof {
            lemma_qmeasure_bounds(*pos);
        }
        return quiescence(pos, history, alpha, beta, ply, nodes, deadline);
    }
    proof {
        lemma_qmeasure_bounds(*pos);
    }
    let mut moves: Vec<Move> = Vec::new();
    generate_legal(pos, &mut moves);
    if moves.len() == 0 {
        let score = terminal_score(pos, ply);
        let entry = TtEntry {
            key,
            depth,
            score: score_to_tt(score, ply),
            bound: TtBound::Exact,
            best_move: None,
        };
        let ghost before = tt.slots();
        tt.store(entry);
        proof {
            assert(records(entry, *pos, depth, score as int, ply as int, TtBound::Exact));
            assert(tt.slots() == store_spec(before, entry));
            assert(shallow_changes(before, tt.slots(), depth as int));
        }
        return Some(score);
    }
    let hash_move = match tt_entry {
        Some(e) => e.best_move,
        None => None,
    };
    let ghost listed = moves@;
    order_moves_with_hash_move(moves.as_mut_slice(), hash_move);
    let ghost p0 = *pos;
    let ghost h0 = history@;
    let ghost slots0 = tt.slots();
    let ghost mut cs: Seq<int> = Seq::empty();
    let ghost mut ts: Seq<Seq<Option<TtEntry>>> = seq![slots0];
    proof {
        lemma_ordered_legal(p0, listed, |m: Move| hash_order_key(m, hash_move));
        assert(hash_move == hash_move_of(slots0, key));
        assert(loop_done(p0, h0, depth, alpha as int, beta as int, ply as int, moves@, cs, ts)) by {
            reveal(loop_done);
        }
    }
    let n = moves.len();
    let mut a = alpha;
    let mut best_score: Score = -INF;
    let mut best_move: Option<Move> = None;
    let mut i: usize = 0;
    while i < n
        invariant_except_break
            cs.len() == i,
            cs.len() > 0 ==> a < beta,
        invariant
            *pos == p0,
            p0 == *old(pos),
            history@ == h0,
            h0 == old(history)@,
            sound(p0),
            p0.halfmove_clock < 100,
            MATE_SCORE - MAX_SCORE <= ply,
            ply + depth + 51812 < MAX_SCORE,
            depth > 0,
            -MAX_SCORE <= beta,
            -MAX_SCORE <= a,
            alpha <= a,
            -MAX_SCORE <= best_score,
            n == moves@.len(),
            i <= n,
            all_good_list(p0, moves@),
            all_legal_list(p0, moves@),
            best_move matches Some(m) ==> legal_moves(p0).contains(m),
            tt.wf(),
            tt.slots().len() == slots0.len(),
            slots0.len() == old(tt).slots().len(),
            slots0 == old(tt).slots(),
            ts.len() == cs.len() + 1,
            ts[0] == slots0,
            ts.last() == tt.slots(),
            shallow_changes(slots0, tt.slots(), depth - 1),
            cs.len() <= n,
            a == alpha_prefix(alpha as int, cs, cs.len() as int),
            best_score == best_prefix(cs, cs.len() as int),
            best_move == best_move_prefix(moves@, cs, cs.len() as int),
            loop_done(p0, h0, depth, alpha as int, beta as int, ply as int, moves@, cs, ts),
        ensures
            cs.len() == n || (1 <= cs.len() && a >= beta),
        decreases n - i,
    {
        let mv = moves[i];
        proof {
            lemma_good_at(p0, moves@, i as int);
            lemma_legal_at(p0, moves@, i as int);
        }
        let ghost before_child = tt.slots();
        let state = play(pos, mv);
        history.push(state);
        let child = negamax(pos, history, depth - 1, -beta, -a, ply + 1, nodes, deadline, tt);
        history.pop();
        assert(history@ =~= h0);
        take_back(pos, mv, state, Ghost(p0));
        match child {
            None => {
                return None;
            },
            Some(child_score) => {
                let ghost cs0 = cs;
                let ghost ts0 = ts;
                proof {
                    cs = cs.push(child_score as int);
                    ts = ts.push(tt.slots());
                    lemma_shallow_trans(slots0, before_child, tt.slots(), depth - 1);
                    lemma_prefix_push(moves@, cs0, child_score as int, cs0.len() as int);
                    lemma_loop_step(p0, h0, depth, alpha as int, beta as int, ply as int, moves@, cs0, ts0, child_score as int, tt.slots());
                }
                let score = -child_score;
                if score > best_score {
                    best_score = score;
                    best_move = Some(mv);
                }
                if best_score > a {
                    a = best_score;
                }
                if a >= beta {
                    break;
                }
            },
        }
        i = i + 1;
    }
    let bound = if best_score <= alpha {
        TtBound::Upper
    } else if best_score >= beta {
        TtBound::Lower
    } else {
        TtBound::Exact
    };
    let entry = TtEntry { key, depth, score: score_to_tt(best_score, ply), bound, best_move };
    let ghost mid = tt.slots();
    tt.store(entry);
    proof {
        assert(records(entry, p0, depth, best_score as int, ply as int, bound_of(best_score as int, alpha as int, beta as int)));
        assert(tt.slots() == store_spec(mid, entry));
        assert(!is_draw_spec(p0, h0));
        let ord = ordered_by(legal_moves(p0), |m: Move| hash_order_key(m, hash_move_of(slots0, key)));
        assert(moves@ == ord);
        assert(entry == searched_entry(p0, depth, alpha as int, beta as int, ply as int, ord, cs));
        lemma_loop_searched(p0, h0, depth, alpha as int, beta as int, ply as int, ord, cs, ts);
        lemma_store_shallow(slots0, mid, entry, depth - 1);
        assert(searched(p0, h0, depth, alpha as int, beta as int, ply as int, ord, cs, ts));
    }
    Some(best_score)
}

/// Bounds of a search: a depth, and optionally a deadline.
#[derive(Debug, Clone, Copy, PartialEq, Eq)]
pub struct SearchLimits {
    pub depth: u8,
    pub deadline: Option<Instant>,
}

impl SearchLimits {
    /// A search to a fixed depth without a deadline.
    pub fn depth(depth: u8) -> (r: Self)
        ensures
            r.depth == depth,
            r.deadline is None,
    {
        SearchLimits { depth, deadline: None }
    }

    /// An iterative search up to `max_depth` that stops at the deadline.
    pub fn timed(max_depth: u8, deadline: Instant) -> (r: Self)
        ensures
            r.depth == max_depth,
            r.deadline == Some(deadline),
    {
        SearchLimits { depth: max_depth, deadline: Some(deadline) }
    }
}

/// The outcome of a search.
#[derive(Debug, Clone, Copy, PartialEq, Eq)]
pub struct SearchResult {
    pub best_move: Option<Move>,
    pub score: Score,
    pub nodes: u64,
}

fn copy_history(history: &[State]) -> (r: Vec<State>)
    ensures
        r@ == history@,
{
    let mut r: Vec<State> = Vec::new();
    let mut i: usize = 0;
    while i < history.len()
        invariant
            i <= history@.len(),
            r@ == history@.take(i as int),
        decreases history@.len() - i,
    {
        r.push(history[i]);
        i = i + 1;
        assert(r@ =~= history@.take(i as int));
    }
    assert(history@.take(history@.len() as int) =~= history@);
    r
}

/// What a finished search from the root reports: a legal best move if any;
/// at depth zero no move and the quiescence score; otherwise zero for a
/// draw, the terminal score without legal moves, and when no move was
/// chosen among legal moves, the lowest score.
#[verifier::opaque]
pub open spec fn root_facts(pos: Position, history: Seq<State>, depth: u8, r: SearchResult) -> bool {
    let draw = is_draw_spec(pos, history);
    &&& r.best_move matches Some(m) ==> legal_moves(pos).contains(m)
    &&& -MAX_SCORE <= r.score
    &&& depth == 0 ==> r.best_move is None && quiescence_facts(pos, history, -INF as int, INF as int, 0, r.score as int)
        && quiescence_law(pos, history, -INF as int, INF as int, 0, r.score as int)
    &&& depth > 0 && draw ==> r.best_move is None && r.score == 0
    &&& depth > 0 && !draw && legal_moves(pos).len() == 0 ==> r.best_move is None && r.score
        == terminal_spec(pos, 0)
    &&& depth > 0 && !draw && legal_moves(pos).len() > 0 && r.best_move is None ==> r.score == -INF
}

/// What a depth-one search from an empty table finds in a position not
/// drawn with legal moves: for every look-ahead deep enough, the score is
/// the best move value as fail-hard search within `-INF..INF` reports it,
/// and when that value lies strictly inside, the best move is a legal move
/// of exactly that value.
#[verifier::opaque]
pub open spec fn depth_one_law(pos: Position, history: Seq<State>, r: SearchResult) -> bool {
    !is_draw_spec(pos, history) && legal_moves(pos).len() > 0 ==> forall|f: nat|
        f > qmeasure(pos) ==> {
            &&& #[trigger] fail_hard(
                r.score as int,
                qmax(pos, history, 0, (f - 1) as nat, legal_moves(pos)),
                -INF as int,
                INF as int,
            )
            &&& -INF < qmax(pos, history, 0, (f - 1) as nat, legal_moves(pos)) < INF ==> r.best_move is Some
                && legal_moves(pos).contains(r.best_move->0) && move_value(
                pos,
                history,
                0,
                (f - 1) as nat,
                r.best_move->0,
            ) == r.score
        }
}

/// Where the root loop of a depth-one search stands after `i` of the
/// moves `ord`: `a` is the best score so far and `best` the move that
/// reached it.
#[verifier::opaque]
spec fn rloop_law(pos: Position, history: Seq<State>, ord: Seq<Move>, i: int, a: int, best: Option<Move>) -> bool {
    let ms = legal_moves(pos);
    &&& 0 <= i <= ord.len()
    &&& ord.len() == ms.len()
    &&& forall|x: Move| ms.contains(x) <==> ord.contains(x)
    &&& !is_draw_spec(pos, history)
    &&& ms.len() > 0
    &&& 0 <= qmeasure(pos)
    &&& i == 0 ==> a == -INF && best is None
    &&& a >= -INF
    &&& a < INF ==> forall|f: nat|
        f > qmeasure(pos) ==> #[trigger] prefix_best(pos, history, 0, f, ord, i, -INF as int) == a
    &&& a >= INF ==> i > 0 && forall|f: nat|
        f > qmeasure(pos) ==> #[trigger] qmax(pos, history, 0, (f - 1) as nat, ord.take(i)) >= INF
    &&& -INF < a < INF ==> best is Some && ord.take(i).contains(best->0) && forall|f: nat|
        f > qmeasure(pos) ==> #[trigger] move_value(pos, history, 0, (f - 1) as nat, best->0) == a
}

proof fn lemma_rloop_init(pos: Position, history: Seq<State>, ord: Seq<Move>)
    requires
        playable(pos),
        !is_draw_spec(pos, history),
        legal_moves(pos).len() > 0,
        ord == ordered_by(legal_moves(pos), |m: Move| move_order_spec(m)),
    ensures
        rloop_law(pos, history, ord, 0, -INF as int, None),
{
    broadcast use vstd::seq_lib::group_to_multiset_ensures;
    reveal(rloop_law);
    lemma_qmeasure_bounds(pos);
    let ms = legal_moves(pos);
    lemma_ordered_by(ms, |m: Move| move_order_spec(m));
    assert forall|x: Move| ms.contains(x) <==> ord.contains(x) by {
        if ms.contains(x) {
            assert(ms.to_multiset().count(x) > 0);
        }
        if ord.contains(x) {
            assert(ord.to_multiset().count(x) > 0);
        }
    }
}

/// One root move searched at depth zero: the best score and move stay the
/// best of the moves seen.
proof fn lemma_rloop_step_at(
    pos: Position,
    history: Seq<State>,
    ord: Seq<Move>,
    i: int,
    a_old: int,
    c: int,
    a_new: int,
    mid: Position,
    f: nat,
)
    requires
        0 <= i < ord.len(),
        f > qmeasure(pos),
        mid == after_move(pos, ord[i]),
        0 <= qmeasure(mid) < qmeasure(pos),
        a_old < INF,
        forall|g: nat| g > qmeasure(mid) ==> #[trigger] fail_hard(c, qvalue(mid, history.push(state_before(pos, ord[i])), 1, g), -INF as int, -a_old),
        prefix_best(pos, history, 0, f, ord, i, -INF as int) == a_old,
        a_new == max_int(a_old, -c),
    ensures
        a_new < INF ==> prefix_best(pos, history, 0, f, ord, i + 1, -INF as int) == a_new,
        a_new >= INF ==> qmax(pos, history, 0, (f - 1) as nat, ord.take(i + 1)) >= INF,
        -c > a_old && a_new < INF ==> move_value(pos, history, 0, (f - 1) as nat, ord[i]) == a_new,
{
    let mv = ord[i];
    let h1 = history.push(state_before(pos, mv));
    let g = (f - 1) as nat;
    let t = ord.take(i + 1);
    assert(g > qmeasure(mid));
    assert(fail_hard(c, qvalue(mid, h1, 1, g), -INF as int, -a_old));
    assert(qvalue(mid, h1, 1, g) == -move_value(pos, history, 0, g, mv));
    lemma_alpha_step(pos, history, 0, f, ord, i, -INF as int, a_old, INF as int, c, a_new);
    if i > 0 {
        assert(t.drop_last() =~= ord.take(i));
        assert(t.last() == mv);
        assert(qmax(pos, history, 0, g, t) == max_int(qmax(pos, history, 0, g, ord.take(i)), move_value(pos, history, 0, g, mv)));
    } else {
        assert(t.len() == 1);
        assert(t[0] == mv);
    }
}

/// One root move searched at depth zero: the best score and move stay the
/// best of the moves seen.
proof fn lemma_rloop_child(
    pos: Position,
    history: Seq<State>,
    ord: Seq<Move>,
    i: int,
    a_old: int,
    best_old: Option<Move>,
    c: int,
    a_new: int,
    best_new: Option<Move>,
    mid: Position,
)
    requires
        rloop_law(pos, history, ord, i, a_old, best_old),
        0 <= i < ord.len(),
        mid == after_move(pos, ord[i]),
        0 <= qmeasure(mid) < qmeasure(pos),
        quiescence_law(mid, history.push(state_before(pos, ord[i])), -INF as int, -a_old, 1, c),
        a_new == max_int(a_old, -c),
        best_new == (if -c > a_old {
            Some(ord[i])
        } else {
            best_old
        }),
    ensures
        rloop_law(pos, history, ord, i + 1, a_new, best_new),
{
    reveal(rloop_law);
    reveal(quiescence_law);
    let mv = ord[i];
    let t = ord.take(i + 1);
    assert(t.len() == i + 1);
    assert forall|k: int| 0 <= k < i implies #[trigger] t[k] == ord.take(i)[k] by {}
    if a_old < INF {
        assert forall|f: nat| f > qmeasure(pos) && a_new < INF implies #[trigger] prefix_best(pos, history, 0, f, ord, i + 1, -INF as int) == a_new by {
            lemma_rloop_step_at(pos, history, ord, i, a_old, c, a_new, mid, f);
        }
        assert forall|f: nat| f > qmeasure(pos) && a_new >= INF implies #[trigger] qmax(pos, history, 0, (f - 1) as nat, ord.take(i + 1)) >= INF by {
            lemma_rloop_step_at(pos, history, ord, i, a_old, c, a_new, mid, f);
        }
        if -c > a_old {
            assert(t[i] == mv);
            assert(t.contains(mv));
            assert forall|f: nat| f > qmeasure(pos) && a_new < INF implies #[trigger] move_value(pos, history, 0, (f - 1) as nat, mv) == a_new by {
                lemma_rloop_step_at(pos, history, ord, i, a_old, c, a_new, mid, f);
            }
        } else if -INF < a_new < INF {
            let m = best_old->0;
            let k = choose|k: int| 0 <= k < ord.take(i).len() && ord.take(i)[k] == m;
            assert(t[k] == m);
        }
    } else {
        assert forall|f: nat| f > qmeasure(pos) implies #[trigger] qmax(pos, history, 0, (f - 1) as nat, t) >= INF by {
            let g = (f - 1) as nat;
            assert(qmax(pos, history, 0, g, ord.take(i)) >= INF);
            assert(t.drop_last() =~= ord.take(i));
            assert(t.last() == mv);
            assert(qmax(pos, history, 0, g, t) == max_int(qmax(pos, history, 0, g, ord.take(i)), move_value(pos, history, 0, g, mv)));
        }
    }
}

/// After every root move, the loop's score and move satisfy the depth-one law.
proof fn lemma_rloop_end(pos: Position, history: Seq<State>, ord: Seq<Move>, a: int, best: Option<Move>, r: SearchResult)
    requires
        rloop_law(pos, history, ord, ord.len() as int, a, best),
        r.score == a,
        r.best_move == best,
    ensures
        depth_one_law(pos, history, r),
{
    reveal(rloop_law);
    reveal(depth_one_law);
    let ms = legal_moves(pos);
    assert(ord.take(ord.len() as int) =~= ord);
    assert forall|f: nat| f > qmeasure(pos) implies {
        &&& #[trigger] fail_hard(r.score as int, qmax(pos, history, 0, (f - 1) as nat, ms), -INF as int, INF as int)
        &&& -INF < qmax(pos, history, 0, (f - 1) as nat, ms) < INF ==> r.best_move is Some
            && ms.contains(r.best_move->0) && move_value(pos, history, 0, (f - 1) as nat, r.best_move->0) == r.score
    } by {
        let g = (f - 1) as nat;
        lemma_qmax_same_moves(pos, history, 0, g, ms, ord);
        if a < INF {
            assert(prefix_best(pos, history, 0, f, ord, ord.len() as int, -INF as int) == a);
        } else {
            assert(qmax(pos, history, 0, g, ord.take(ord.len() as int)) >= INF);
        }
        if -INF < qmax(pos, history, 0, g, ms) < INF {
            assert(a < INF);
            assert(-INF < a);
        }
    }
}

/// A depth-zero search from an empty table leaves it empty and satisfies
/// the quiescence law.
proof fn lemma_depth_zero_fresh(
    pos: Position,
    history: Seq<State>,
    alpha: int,
    beta: int,
    ply: int,
    s: int,
    before: Seq<Option<TtEntry>>,
    after: Seq<Option<TtEntry>>,
)
    requires
        negamax_facts(pos, history, 0, alpha, beta, ply, s, before, after),
        before.len() >= 1,
        forall|k: int| 0 <= k < before.len() ==> #[trigger] before[k] is None,
    ensures
        after == before,
        quiescence_law(pos, history, alpha, beta, ply, s),
{
    reveal(negamax_facts);
    lemma_qmeasure_bounds(pos);
    let k = slot_of(pos.zobrist, before.len() as int);
    assert(before[k] is None);
    if is_draw_spec(pos, history) {
        lemma_quiescence_law_leaf(pos, history, alpha, beta, ply, s);
    }
}

/// The children of the first moves of `ord` were searched, each one ply
/// shallower with the window the moves before it left.
#[verifier::opaque]
pub open spec fn children_done(
    pos: Position,
    history: Seq<State>,
    depth: u8,
    alpha: int,
    beta: int,
    ply: int,
    ord: Seq<Move>,
    cs: Seq<int>,
    ts: Seq<Seq<Option<TtEntry>>>,
) -> bool {
    forall|i: int|
        0 <= i < cs.len() ==> negamax_facts(
            after_move(pos, ord[i]),
            history.push(state_before(pos, ord[i])),
            (depth - 1) as u8,
            -beta,
            -alpha_prefix(alpha, cs, i),
            ply + 1,
            #[trigger] cs[i],
            ts[i],
            ts[i + 1],
        )
}

/// A root search of every move in ordering order, each child searched one
/// ply shallower with the window `-INF..-best` of the moves before it: the
/// score is the best negated child score and the move the first that
/// reached it, the table starting as `before`.
pub open spec fn root_searched(pos: Position, history: Seq<State>, depth: u8, before: Seq<Option<TtEntry>>, r: SearchResult) -> bool {
    let ord = ordered_by(legal_moves(pos), |m: Move| move_order_spec(m));
    exists|cs: Seq<int>, ts: Seq<Seq<Option<TtEntry>>>|
        {
            &&& #[trigger] children_done(pos, history, depth, -INF as int, INF as int, 0, ord, cs, ts)
            &&& cs.len() == ord.len()
            &&& ts.len() == cs.len() + 1
            &&& ts[0] == before
            &&& r.score == best_prefix(cs, cs.len() as int)
            &&& r.best_move == best_move_prefix(ord, cs, cs.len() as int)
        }
}

proof fn lemma_children_step(
    pos: Position,
    history: Seq<State>,
    depth: u8,
    alpha: int,
    beta: int,
    ply: int,
    ord: Seq<Move>,
    cs: Seq<int>,
    ts: Seq<Seq<Option<TtEntry>>>,
    c: int,
    t: Seq<Option<TtEntry>>,
)
    requires
        children_done(pos, history, depth, alpha, beta, ply, ord, cs, ts),
        ts.len() == cs.len() + 1,
        cs.len() < ord.len(),
        negamax_facts(
            after_move(pos, ord[cs.len() as int]),
            history.push(state_before(pos, ord[cs.len() as int])),
            (depth - 1) as u8,
            -beta,
            -alpha_prefix(alpha, cs, cs.len() as int),
            ply + 1,
            c,
            ts.last(),
            t,
        ),
    ensures
        children_done(pos, history, depth, alpha, beta, ply, ord, cs.push(c), ts.push(t)),
{
    reveal(children_done);
    let cs1 = cs.push(c);
    let ts1 = ts.push(t);
    let n = cs.len() as int;
    assert forall|i: int| 0 <= i < cs1.len() implies negamax_facts(
        after_move(pos, ord[i]),
        history.push(state_before(pos, ord[i])),
        (depth - 1) as u8,
        -beta,
        -alpha_prefix(alpha, cs1, i),
        ply + 1,
        #[trigger] cs1[i],
        ts1[i],
        ts1[i + 1],
    ) by {
        lemma_prefix_push(ord, cs, c, i);
        if i < n {
            assert(cs1[i] == cs[i]);
            assert(ts1[i] == ts[i]);
            assert(ts1[i + 1] == ts[i + 1]);
        } else {
            assert(ts1[i] == ts.last());
        }
    }
}

/// Searches every root move to the given depth and keeps the best.
#[verifier::spinoff_prover]
#[verifier::rlimit(100)]
fn fixed_depth_search(
    pos: &mut Position,
    history: &[State],
    depth: u8,
    deadline: Option<Instant>,
    tt: &mut TranspositionTable,
) -> (r: Option<SearchResult>)
    requires
        sound(*old(pos)),
        old(tt).wf(),
        !counter_full(*old(pos)),
    ensures
        *final(pos) == *old(pos),
        final(tt).wf(),
        final(tt).slots().len() == old(tt).slots().len(),
        deadline is None ==> r is Some,
        r matches Some(res) ==> root_facts(*old(pos), history@, depth, res),
        r matches Some(res) ==> (depth > 0 && !is_draw_spec(*old(pos), history@) && legal_moves(*old(pos)).len()
            > 0 ==> root_searched(*old(pos), history@, depth, old(tt).slots(), res)),
        depth == 1 && (forall|k: int| 0 <= k < old(tt).slots().len() ==> #[trigger] old(tt).slots()[k] is None)
            ==> (r matches Some(res) ==> depth_one_law(*old(pos), history@, res)),
{
    proof {
        reveal(root_facts);
        reveal(depth_one_law);
    }
    let ghost fresh = depth == 1 && (forall|k: int| 0 <= k < tt.slots().len() ==> #[trigger] tt.slots()[k] is None);
    if deadline_expired(deadline) {
        return None;
    }
    let mut nodes: u64 = 1;
    let mut hist = copy_history(history);
    if depth == 0 {
        proof {
            lemma_qmeasure_bounds(*pos);
        }
        let q = quiescence(pos, &mut hist, -INF, INF, 0, &mut nodes, deadline);
        return match q {
            Some(score) => Some(SearchResult { best_move: None, score, nodes }),
            None => None,
        };
    }
    if is_draw(pos, &hist) {
        return Some(SearchResult { best_move: None, score: 0, nodes });
    }
    proof {
        lemma_qmeasure_bounds(*pos);
    }
    let mut moves: Vec<Move> = Vec::new();
    generate_legal(pos, &mut moves);
    if moves.len() == 0 {
        let score = terminal_score(pos, 0);
        return Some(SearchResult { best_move: None, score, nodes });
    }
    let ghost listed = moves@;
    order_moves(moves.as_mut_slice());
    let ghost p0 = *pos;
    let ghost h0 = hist@;
    proof {
        lemma_ordered_legal(p0, listed, |m: Move| move_order_spec(m));
        lemma_rloop_init(p0, h0, moves@);
    }
    let n = moves.len();
    let mut best_move: Option<Move> = None;
    let mut best_score: Score = -INF;
    let mut a: Score = -INF;
    let mut i: usize = 0;
    let ghost slots0 = tt.slots();
    let ghost mut cs: Seq<int> = Seq::empty();
    let ghost mut ts: Seq<Seq<Option<TtEntry>>> = seq![slots0];
    proof {
        assert(children_done(p0, h0, depth, -INF as int, INF as int, 0, moves@, cs, ts)) by {
            reveal(children_done);
        }
    }
    while i < n
        invariant
            slots0 == old(tt).slots(),
            cs.len() == i,
            ts.len() == i + 1,
            ts[0] == slots0,
            ts.last() == tt.slots(),
            a == alpha_prefix(-INF as int, cs, i as int),
            best_score == best_prefix(cs, i as int),
            best_move == best_move_prefix(moves@, cs, i as int),
            children_done(p0, h0, depth, -INF as int, INF as int, 0, moves@, cs, ts),
            *pos == p0,
            p0 == *old(pos),
            hist@ == h0,
            h0 == history@,
            sound(p0),
            p0.halfmove_clock < 100,
            !counter_full(p0),
            depth > 0,
            -INF <= a,
            -INF <= best_score,
            best_move is None ==> best_score == -INF,
            n == moves@.len(),
            i <= n,
            all_good_list(p0, moves@),
            all_legal_list(p0, moves@),
            best_move matches Some(m) ==> legal_moves(p0).contains(m),
            tt.wf(),
            tt.slots().len() == old(tt).slots().len(),
            a == best_score,
            fresh == (depth == 1 && (forall|k: int| 0 <= k < old(tt).slots().len() ==> #[trigger] old(tt).slots()[k] is None)),
            fresh ==> forall|k: int| 0 <= k < tt.slots().len() ==> #[trigger] tt.slots()[k] is None,
            fresh ==> rloop_law(p0, h0, moves@, i as int, a as int, best_move),
        decreases n - i,
    {
        let mv = moves[i];
        proof {
            lemma_good_at(p0, moves@, i as int);
            lemma_legal_at(p0, moves@, i as int);
        }
        let ghost a_old = a as int;
        let ghost best_old = best_move;
        let ghost slots_before = tt.slots();
        let state = play(pos, mv);
        let ghost mid = *pos;
        let ghost h1 = h0.push(state);
        hist.push(state);
        let child = negamax(pos, &mut hist, depth - 1, -INF, -a, 1, &mut nodes, deadline, tt);
        hist.pop();
        assert(hist@ =~= h0);
        take_back(pos, mv, state, Ghost(p0));
        match child {
            None => {
                return None;
            },
            Some(child_score) => {
                proof {
                    lemma_children_step(p0, h0, depth, -INF as int, INF as int, 0, moves@, cs, ts, child_score as int, tt.slots());
                    lemma_prefix_push(moves@, cs, child_score as int, cs.len() as int);
                    lemma_best_monotone(cs, 0, cs.len() as int);
                    cs = cs.push(child_score as int);
                    ts = ts.push(tt.slots());
                }
                let score = -child_score;
                if score > best_score {
                    best_score = score;
                    best_move = Some(mv);
                }
                if best_score > a {
                    a = best_score;
                }
                proof {
                    if fresh {
                        lemma_depth_zero_fresh(mid, h1, -INF as int, -a_old, 1, child_score as int, slots_before, tt.slots());
                        lemma_rloop_child(p0, h0, moves@, i as int, a_old, best_old, child_score as int, a as int, best_move, mid);
                    }
                }
            },
        }
        i = i + 1;
    }
    let r = SearchResult { best_move, score: best_score, nodes };
    proof {
        assert(moves@ == ordered_by(legal_moves(p0), |m: Move| move_order_spec(m)));
        assert(children_done(p0, h0, depth, -INF as int, INF as int, 0, moves@, cs, ts));
        if fresh {
            lemma_rloop_end(p0, h0, moves@, a as int, best_move, r);
        }
    }
    Some(r)
}

/// What the fallback answer holds: the first legal move in ordering order
/// with the static evaluation, or no move with the terminal score.
pub open spec fn fallback_spec(pos: Position, r: SearchResult) -> bool {
    let ms = legal_moves(pos);
    &&& r.nodes == 1
    &&& ms.len() > 0 ==> r.best_move == Some(ordered_by(ms, |m: Move| move_order_spec(m))[0])
        && r.score == eval_spec(pos.board@, pos.side_to_move)
    &&& ms.len() == 0 ==> r.best_move is None && r.score == terminal_spec(pos, 0)
}

/// An answer without searching: the first move in ordering order.
fn fallback_result(pos: &mut Position) -> (r: SearchResult)
    requires
        playable(*old(pos)),
    ensures
        *final(pos) == *old(pos),
        fallback_spec(*old(pos), r),
{
    let mut moves: Vec<Move> = Vec::new();
    generate_legal(pos, &mut moves);
    order_moves(moves.as_mut_slice());
    proof {
        lemma_ordered_by(legal_moves(*pos), |m: Move| move_order_spec(m));
    }
    if moves.len() > 0 {
        SearchResult { best_move: Some(moves[0]), score: evaluate(pos), nodes: 1 }
    } else {
        SearchResult { best_move: None, score: terminal_score(pos, 0), nodes: 1 }
    }
}

/// What every answer of a search holds: a best move, if any, is legal; a
/// position without legal moves gets none; and a position not drawn with
/// legal moves gets one unless every move scored the lowest score.
pub open spec fn answer_facts(pos: Position, history: Seq<State>, r: SearchResult) -> bool {
    &&& r.best_move matches Some(m) ==> legal_moves(pos).contains(m)
    &&& legal_moves(pos).len() == 0 ==> r.best_move is None
    &&& !is_draw_spec(pos, history) && legal_moves(pos).len() > 0 && r.best_move is None ==> r.score
        == -INF
}

proof fn lemma_root_answer(pos: Position, history: Seq<State>, depth: u8, r: SearchResult)
    requires
        root_facts(pos, history, depth, r),
        depth > 0,
    ensures
        answer_facts(pos, history, r),
{
    reveal(root_facts);
}

proof fn lemma_fallback_answer(pos: Position, history: Seq<State>, r: SearchResult)
    requires
        fallback_spec(pos, r),
    ensures
        answer_facts(pos, history, r),
{
    broadcast use vstd::seq_lib::group_to_multiset_ensures;
    let ms = legal_moves(pos);
    if ms.len() > 0 {
        lemma_ordered_by(ms, |m: Move| move_order_spec(m));
        let o = ordered_by(ms, |m: Move| move_order_spec(m));
        assert(o.to_multiset().count(o[0]) > 0);
    }
}

/// A root search to depth `d` from the table `before` that answered `r`.
pub open spec fn completed_at(
    pos: Position,
    history: Seq<State>,
    d: u8,
    before: Seq<Option<TtEntry>>,
    r: SearchResult,
) -> bool {
    &&& root_facts(pos, history, d, r)
    &&& !is_draw_spec(pos, history) && legal_moves(pos).len() > 0 ==> root_searched(pos, history, d, before, r)
}

/// What iterative deepening to `max` plies answers: the answer of a
/// finished root search to some depth from 1 to `max`, or, when none
/// finished, the answer without searching.
pub open spec fn deepened(pos: Position, history: Seq<State>, max: u8, r: SearchResult) -> bool {
    ||| fallback_spec(pos, r)
    ||| exists|d: u8, before: Seq<Option<TtEntry>>|
        1 <= d <= max && #[trigger] completed_at(pos, history, d, before, r)
}

/// The facts of a finished root search concern only its move and score.
proof fn lemma_completed_same(
    pos: Position,
    history: Seq<State>,
    d: u8,
    before: Seq<Option<TtEntry>>,
    r1: SearchResult,
    r2: SearchResult,
)
    requires
        completed_at(pos, history, d, before, r1),
        r1.best_move == r2.best_move,
        r1.score == r2.score,
    ensures
        completed_at(pos, history, d, before, r2),
{
    reveal(root_facts);
    if !is_draw_spec(pos, history) && legal_moves(pos).len() > 0 {
        let ord = ordered_by(legal_moves(pos), |m: Move| move_order_spec(m));
        let (cs, ts) = choose|cs: Seq<int>, ts: Seq<Seq<Option<TtEntry>>>|
            {
                &&& #[trigger] children_done(pos, history, d, -INF as int, INF as int, 0, ord, cs, ts)
                &&& cs.len() == ord.len()
                &&& ts.len() == cs.len() + 1
                &&& ts[0] == before
                &&& r1.score == best_prefix(cs, cs.len() as int)
                &&& r1.best_move == best_move_prefix(ord, cs, cs.len() as int)
            };
        assert(children_done(pos, history, d, -INF as int, INF as int, 0, ord, cs, ts));
    }
}

/// Where iterative deepening stands: the answer of the deepest search that
/// finished, the depth to search next, the nodes counted so far, and
/// whether deepening has stopped.
#[derive(Debug, Clone, Copy)]
pub struct Deepening {
    pub best: Option<SearchResult>,
    pub next_depth: u16,
    pub total_nodes: u64,
    pub done: bool,
}

/// A search answer with its node count replaced.
pub open spec fn with_nodes(f: SearchResult, nodes: u64) -> SearchResult {
    SearchResult { best_move: f.best_move, score: f.score, nodes }
}

/// One step of iterative deepening, given what the clock answered before
/// the search at `state.next_depth` (`expired`) and that search's answer
/// (`None` when the deadline passed during it). Deepening stops when the
/// clock expired or the search did not finish, keeping the last finished
/// answer; otherwise the finished answer becomes the best, with the nodes
/// of all finished searches, and deepening goes on to the next depth
/// unless the answer names no move or the depth limit `max` was reached.
pub fn deepening_step(state: Deepening, expired: bool, finished: Option<SearchResult>, max: u8) -> (r: Deepening)
    requires
        state.next_depth <= max,
    ensures
        expired || finished is None ==> r.done && r.best == state.best && r.next_depth == state.next_depth
            && r.total_nodes == state.total_nodes,
        !expired && finished is Some ==> {
            let f = finished->0;
            &&& r.total_nodes == vstd::wrapping::u64_specs::wrapping_add(state.total_nodes, f.nodes)
            &&& r.best == Some(with_nodes(f, r.total_nodes))
            &&& r.next_depth == state.next_depth + 1
            &&& r.done == (f.best_move is None || state.next_depth >= max)
        },
{
    if expired {
        return Deepening { best: state.best, next_depth: state.next_depth, total_nodes: state.total_nodes, done: true };
    }
    match finished {
        None => Deepening { best: state.best, next_depth: state.next_depth, total_nodes: state.total_nodes, done: true },
        Some(f) => {
            let total = state.total_nodes.wrapping_add(f.nodes);
            let done = f.best_move.is_none() || state.next_depth >= max as u16;
            Deepening {
                best: Some(SearchResult { best_move: f.best_move, score: f.score, nodes: total }),
                next_depth: state.next_depth + 1,
                total_nodes: total,
                done,
            }
        },
    }
}

/// What the clock and the search answered for one depth of iterative
/// deepening: whether the deadline had passed before it, and the search's
/// answer (`None` when it was not run or did not finish).
pub type DepthRecord = (bool, Option<SearchResult>);

/// Deepening goes on from the record of depth `k + 1`: the clock had not
/// expired, the search finished with a move, and the depth limit `max` was
/// not reached.
pub open spec fn goes_deeper(e: DepthRecord, k: int, max: u8) -> bool {
    !e.0 && e.1 is Some && e.1->0.best_move is Some && k + 1 < max
}

/// How iterative deepening to `max` plies runs, as the records of depths
/// 1, 2, ... show: it goes to the next depth after every depth that lets it
/// and stops at the first that does not; no search is run once the clock
/// has expired.
pub open spec fn deepening_law(max: u8, trace: Seq<DepthRecord>) -> bool {
    &&& 1 <= trace.len() <= max
    &&& forall|k: int| 0 <= k < trace.len() - 1 ==> #[trigger] goes_deeper(trace[k], k, max)
    &&& !goes_deeper(trace.last(), trace.len() - 1, max)
    &&& forall|k: int| 0 <= k < trace.len() ==> (#[trigger] trace[k]).0 ==> trace[k].1 is None
}

/// The answer of the deepest search that finished, if any.
pub open spec fn deepest_finished(trace: Seq<DepthRecord>) -> Option<SearchResult> {
    if trace.len() == 0 {
        None
    } else if !trace.last().0 && trace.last().1 is Some {
        trace.last().1
    } else if trace.len() >= 2 {
        trace[trace.len() - 2].1
    } else {
        None
    }
}

/// Under the deepening law, a depth that finished with a move below the
/// limit while the clock had not expired is always followed by a search at
/// the next depth, and no depth finished deeper than the one whose answer
/// is given.
pub proof fn lemma_deepening_law(max: u8, trace: Seq<DepthRecord>)
    requires
        deepening_law(max, trace),
    ensures
        forall|k: int|
            0 <= k < trace.len() && !(#[trigger] trace[k]).0 && trace[k].1 is Some && trace[k].1->0.best_move is Some
                && k + 1 < max ==> k + 1 < trace.len(),
        deepest_finished(trace) matches Some(f) ==> exists|k: int|
            0 <= k < trace.len() && #[trigger] trace[k].1 == Some(f) && !trace[k].0 && (forall|j: int|
                k < j < trace.len() ==> !(!trace[j].0 && trace[j].1 is Some)),
{
    let n = trace.len() as int;
    assert forall|k: int|
        0 <= k < trace.len() && !(#[trigger] trace[k]).0 && trace[k].1 is Some && trace[k].1->0.best_move is Some
            && k + 1 < max implies k + 1 < trace.len() by {
        if k == n - 1 {
            assert(goes_deeper(trace.last(), n - 1, max));
        }
    }
    if let Some(f) = deepest_finished(trace) {
        if !trace.last().0 && trace.last().1 is Some {
            assert(trace[n - 1].1 == Some(f));
        } else {
            assert(goes_deeper(trace[n - 2], n - 2, max));
            assert(trace[n - 2].1 == Some(f));
        }
    }
}

/// A timed answer as iterative deepening to `max` plies gives it, for some
/// run of clock answers: the deepest finished search's move and score, or
/// the answer without searching when none finished; every finished search
/// a root search to its depth.
pub open spec fn deepening_answer(pos: Position, history: Seq<State>, max: u8, r: SearchResult) -> bool {
    exists|trace: Seq<DepthRecord>|
        {
            &&& #[trigger] deepening_law(max, trace)
            &&& match deepest_finished(trace) {
                Some(f) => r.best_move == f.best_move && r.score == f.score,
                None => fallback_spec(pos, r),
            }
            &&& forall|k: int|
                0 <= k < trace.len() && !(#[trigger] trace[k]).0 && trace[k].1 is Some ==> exists|
                    before: Seq<Option<TtEntry>>,
                | #[trigger] completed_at(pos, history, (k + 1) as u8, before, trace[k].1->0)
        }
}

/// Deepens the search one ply at a time until the depth limit, the
/// deadline, or an answer without a move, and answers with the deepest
/// search that finished; with the records of what the clock and the search
/// answered at each depth.
fn iterative_search(
    pos: &mut Position,
    history: &[State],
    limits: SearchLimits,
    tt: &mut TranspositionTable,
) -> (r: (SearchResult, Ghost<Seq<DepthRecord>>))
    requires
        playable(*old(pos)),
        old(tt).wf(),
    ensures
        *final(pos) == *old(pos),
        answer_facts(*old(pos), history@, r.0),
        deepened(*old(pos), history@, limits.depth, r.0),
        limits.depth >= 1 ==> deepening_law(limits.depth, r.1@),
        limits.depth >= 1 ==> match deepest_finished(r.1@) {
            Some(f) => r.0.best_move == f.best_move && r.0.score == f.score,
            None => fallback_spec(*old(pos), r.0),
        },
        forall|k: int|
            0 <= k < r.1@.len() && !(#[trigger] r.1@[k]).0 && r.1@[k].1 is Some ==> exists|
                before: Seq<Option<TtEntry>>,
            | #[trigger] completed_at(*old(pos), history@, (k + 1) as u8, before, r.1@[k].1->0),
{
    let ghost p0 = *pos;
    if limits.depth == 0 {
        let r = fallback_result(pos);
        proof {
            lemma_fallback_answer(p0, history@, r);
        }
        return (r, Ghost(Seq::empty()));
    }
    let mut state = Deepening { best: None, next_depth: 1, total_nodes: 0, done: false };
    let ghost mut bd: u8 = 1;
    let ghost mut bt: Seq<Option<TtEntry>> = tt.slots();
    let ghost mut trace: Seq<DepthRecord> = Seq::empty();
    let ghost mut tabs: Seq<Seq<Option<TtEntry>>> = Seq::empty();
    let ghost max = limits.depth;
    while !state.done
        invariant
            *pos == p0,
            p0 == *old(pos),
            playable(p0),
            tt.wf(),
            max == limits.depth,
            limits.depth >= 1,
            1 <= state.next_depth <= limits.depth + 1,
            !state.done ==> state.next_depth <= limits.depth,
            state.best matches Some(b) ==> answer_facts(p0, history@, b),
            state.best matches Some(b) ==> 1 <= bd <= limits.depth && completed_at(p0, history@, bd, bt, b),
            !state.done ==> trace.len() == state.next_depth - 1,
            !state.done ==> forall|k: int| 0 <= k < trace.len() ==> #[trigger] goes_deeper(trace[k], k, max),
            state.done ==> deepening_law(max, trace),
            forall|k: int| 0 <= k < trace.len() ==> (#[trigger] trace[k]).0 ==> trace[k].1 is None,
            state.best is Some <==> deepest_finished(trace) is Some,
            state.best matches Some(b) ==> b.best_move == deepest_finished(trace)->0.best_move && b.score
                == deepest_finished(trace)->0.score,
            tabs.len() == trace.len(),
            forall|k: int|
                0 <= k < trace.len() && !(#[trigger] trace[k]).0 && trace[k].1 is Some ==> completed_at(
                    p0,
                    history@,
                    (k + 1) as u8,
                    tabs[k],
                    trace[k].1->0,
                ),
        decreases limits.depth + 1 - state.next_depth, if state.done { 0int } else { 1int },
    {
        let d = state.next_depth;
        let expired = deadline_expired(limits.deadline);
        let ghost slots_d = tt.slots();
        let finished = if expired {
            None
        } else {
            fixed_depth_search(pos, history, d as u8, limits.deadline, tt)
        };
        proof {
            if !expired {
                if let Some(f) = finished {
                    lemma_root_answer(p0, history@, d as u8, f);
                    assert(completed_at(p0, history@, d as u8, slots_d, f));
                }
            }
        }
        let ghost old_trace = trace;
        let ghost old_tabs = tabs;
        proof {
            trace = trace.push((expired, finished));
            tabs = tabs.push(slots_d);
            assert forall|k: int| 0 <= k < old_trace.len() implies trace[k] == old_trace[k] && tabs[k] == old_tabs[k] by {}
            assert(trace.last() == (expired, finished));
        }
        state = deepening_step(state, expired, finished, limits.depth);
        proof {
            if !expired {
                if let Some(f) = finished {
                    let b = state.best.unwrap();
                    lemma_completed_same(p0, history@, d as u8, slots_d, f, b);
                    reveal(root_facts);
                    bd = d as u8;
                    bt = slots_d;
                }
            }
            if old_trace.len() >= 1 {
                assert(goes_deeper(old_trace[old_trace.len() - 1], old_trace.len() - 1, max));
                assert(trace[trace.len() - 2] == old_trace.last());
            }
            assert forall|k: int| 0 <= k < trace.len() implies (#[trigger] trace[k]).0 ==> trace[k].1 is None by {
                if k < old_trace.len() {
                    assert(trace[k] == old_trace[k]);
                }
            }
            assert forall|k: int|
                0 <= k < trace.len() && !(#[trigger] trace[k]).0 && trace[k].1 is Some implies completed_at(
                    p0,
                    history@,
                    (k + 1) as u8,
                    tabs[k],
                    trace[k].1->0,
                ) by {
                if k < old_trace.len() {
                    assert(trace[k] == old_trace[k]);
                    assert(tabs[k] == old_tabs[k]);
                }
            }
            if state.done {
                assert forall|k: int| 0 <= k < trace.len() - 1 implies #[trigger] goes_deeper(trace[k], k, max) by {
                    assert(trace[k] == old_trace[k]);
                }
            } else {
                assert forall|k: int| 0 <= k < trace.len() implies #[trigger] goes_deeper(trace[k], k, max) by {
                    if k < old_trace.len() {
                        assert(trace[k] == old_trace[k]);
                    }
                }
            }
        }
    }
    let ghost t = trace;
    proof {
        assert forall|k: int|
            0 <= k < t.len() && !(#[trigger] t[k]).0 && t[k].1 is Some implies exists|
                before: Seq<Option<TtEntry>>,
            | #[trigger] completed_at(p0, history@, (k + 1) as u8, before, t[k].1->0) by {
            assert(completed_at(p0, history@, (k + 1) as u8, tabs[k], t[k].1->0));
        }
    }
    match state.best {
        Some(b) => (b, Ghost(t)),
        None => {
            let r = fallback_result(pos);
            proof {
                lemma_fallback_answer(p0, history@, r);
            }
            (r, Ghost(t))
        },
    }
}

/// The slots of a new table of `n` slots.
pub open spec fn fresh_slots(n: nat) -> Seq<Option<TtEntry>> {
    Seq::new(n, |k: int| None::<TtEntry>)
}

/// Everything `search` promises of its answer for a position, history and
/// limits.
pub open spec fn search_outcome(pos: Position, history: Seq<State>, limits: SearchLimits, r: SearchResult) -> bool {
    &&& r.best_move matches Some(m) ==> legal_moves(pos).contains(m)
    &&& legal_moves(pos).len() == 0 ==> r.best_move is None
    &&& limits.depth > 0 ==> answer_facts(pos, history, r)
    &&& limits.deadline is None ==> root_facts(pos, history, limits.depth, r)
    &&& limits.deadline is None && limits.depth > 0 && !is_draw_spec(pos, history)
        && legal_moves(pos).len() > 0 ==> root_searched(pos, history, limits.depth, fresh_slots(DEFAULT_TT_ENTRIES as nat), r)
    &&& limits.deadline is Some && limits.depth > 0 ==> deepened(
        pos,
        history,
        limits.depth,
        r,
    )
    &&& limits.deadline is Some && limits.depth > 1 ==> deepening_answer(pos, history, limits.depth, r)
    &&& limits.deadline is None && limits.depth == 1 ==> depth_one_law(
        pos,
        history,
        r,
    )
}

/// Searches the position within the limits and reports the best move found.
/// A fixed-depth search without a deadline is deterministic; a timed search
/// deepens until the deadline and answers with the deepest finished search,
/// or the first move in ordering order when none finished. A node where
/// Black is to move with the move number at its largest is not searched
/// deeper and scores its static evaluation. The position is left as it was.
pub fn search(pos: &mut Position, history: &[State], limits: SearchLimits) -> (r: SearchResult)
    requires
        playable(*old(pos)),
    ensures
        *final(pos) == *old(pos),
        r.best_move matches Some(m) ==> legal_moves(*old(pos)).contains(m),
        legal_moves(*old(pos)).len() == 0 ==> r.best_move is None,
        limits.depth > 0 ==> answer_facts(*old(pos), history@, r),
        limits.deadline is None ==> root_facts(
            *old(pos),
            history@,
            limits.depth,
            r,
        ),
        limits.deadline is None && limits.depth == 1
            ==> depth_one_law(*old(pos), history@, r),
        limits.deadline is None && limits.depth > 0 && !is_draw_spec(
            *old(pos),
            history@,
        ) && legal_moves(*old(pos)).len() > 0 ==> root_searched(
            *old(pos),
            history@,
            limits.depth,
            fresh_slots(DEFAULT_TT_ENTRIES as nat),
            r,
        ),
        limits.deadline is Some && limits.depth > 0 ==> deepened(
            *old(pos),
            history@,
            limits.depth,
            r,
        ),
        limits.deadline is Some && limits.depth > 1 ==> deepening_answer(*old(pos), history@, limits.depth, r),
{
    let ghost p0 = *pos;
    let mut tt = TranspositionTable::new(DEFAULT_TT_ENTRIES);
    proof {
        assert(tt.slots() =~= fresh_slots(DEFAULT_TT_ENTRIES as nat));
    }
    if limits.deadline.is_some() && limits.depth > 1 {
        let (r, trace) = iterative_search(pos, history, limits, &mut tt);
        proof {
            assert(deepening_law(limits.depth, trace@));
        }
        return r;
    }
    match fixed_depth_search(pos, history, limits.depth, limits.deadline, &mut tt) {
        Some(result) => {
            proof {
                reveal(root_facts);
                if limits.depth > 0 {
                    lemma_root_answer(p0, history@, limits.depth, result);
                    assert(completed_at(p0, history@, limits.depth, fresh_slots(DEFAULT_TT_ENTRIES as nat), result));
                }
            }
            result
        },
        None => {
            let r = fallback_result(pos);
            proof {
                lemma_fallback_answer(p0, history@, r);
            }
            r
        },
    }
}

} // verus!
