//! Chess engine: negamax search with alpha-beta pruning over the moves of
//! `rules`, with captures tried first.
//!
//! The value of a position is `board_value`: plain negamax without pruning,
//! over the moves in the order the search tries them. The pruned search is
//! proved to return that value whenever it lies strictly inside the search
//! window, and a bound on it otherwise; `choose_move` is proved to return the
//! first move of best value.

use vstd::prelude::*;

use crate::chess::rules::{
    after, all_legal, all_legal_moves, apply_move, at, in_check, is_in_check, moves_wf, mv_wf,
    piece_at, square_of, status_for, status_of, ChessMove, Color, Kind, MoveFlag, Piece, Square,
    Squares, Status,
};

verus! {

pub const MATE_SCORE: i32 = 100_000;

pub const CHECK_BONUS: i32 = 30;

pub const PAWN_VALUE: i32 = 100;

pub const KNIGHT_VALUE: i32 = 320;

pub const BISHOP_VALUE: i32 = 330;

pub const ROOK_VALUE: i32 = 500;

pub const QUEEN_VALUE: i32 = 900;

pub const KING_VALUE: i32 = 20_000;

/// Ordering bonus of a capture: larger than any difference of two piece
/// values plus every other bonus, so that captures always come first.
pub const CAPTURE_BASE: i32 = 100_000;

/// Largest magnitude of a position score.
pub const SCORE_BOUND: i32 = 1_400_000;

/// Positional bonus per square from White's side (Black reads the ranks
/// mirrored).
pub const PAWN_TABLE: [i32; 64] = [
    0, 0, 0, 0, 0, 0, 0, 0, 50, 50, 50, 50, 50, 50, 50, 50, 10, 10, 20, 30, 30, 20, 10, 10, 5, 5,
    10, 25, 25, 10, 5, 5, 0, 0, 0, 20, 20, 0, 0, 0, 5, -5, -10, 0, 0, -10, -5, 5, 5, 10, 10, -20,
    -20, 10, 10, 5, 0, 0, 0, 0, 0, 0, 0, 0,
];

pub const KNIGHT_TABLE: [i32; 64] = [
    -50, -40, -30, -30, -30, -30, -40, -50, -40, -20, 0, 0, 0, 0, -20, -40, -30, 0, 10, 15, 15,
    10, 0, -30, -30, 5, 15, 20, 20, 15, 5, -30, -30, 0, 15, 20, 20, 15, 0, -30, -30, 5, 10, 15,
    15, 10, 5, -30, -40, -20, 0, 5, 5, 0, -20, -40, -50, -40, -30, -30, -30, -30, -40, -50,
];

pub const BISHOP_TABLE: [i32; 64] = [
    -20, -10, -10, -10, -10, -10, -10, -20, -10, 0, 0, 0, 0, 0, 0, -10, -10, 0, 5, 10, 10, 5, 0,
    -10, -10, 5, 5, 10, 10, 5, 5, -10, -10, 0, 10, 10, 10, 10, 0, -10, -10, 10, 10, 10, 10, 10,
    10, -10, -10, 5, 0, 0, 0, 0, 5, -10, -20, -10, -10, -10, -10, -10, -10, -20,
];

pub const ROOK_TABLE: [i32; 64] = [
    0, 0, 0, 0, 0, 0, 0, 0, 5, 10, 10, 10, 10, 10, 10, 5, -5, 0, 0, 0, 0, 0, 0, -5, -5, 0, 0, 0,
    0, 0, 0, -5, -5, 0, 0, 0, 0, 0, 0, -5, -5, 0, 0, 0, 0, 0, 0, -5, -5, 0, 0, 0, 0, 0, 0, -5,
    5, 10, 10, 10, 10, 10, 10, 5,
];

pub const QUEEN_TABLE: [i32; 64] = [
    -20, -10, -10, -5, -5, -10, -10, -20, -10, 0, 0, 0, 0, 0, 0, -10, -10, 0, 5, 5, 5, 5, 0, -10,
    -5, 0, 5, 5, 5, 5, 0, -5, 0, 0, 5, 5, 5, 5, 0, -5, -10, 5, 5, 5, 5, 5, 0, -10, -10, 0, 5, 0,
    0, 0, 0, -10, -20, -10, -10, -5, -5, -10, -10, -20,
];

pub const KING_MID_TABLE: [i32; 64] = [
    -30, -40, -40, -50, -50, -40, -40, -30, -30, -40, -40, -50, -50, -40, -40, -30, -30, -40,
    -40, -50, -50, -40, -40, -30, -30, -40, -40, -50, -50, -40, -40, -30, -20, -30, -30, -40,
    -40, -30, -30, -20, -10, -20, -20, -20, -20, -20, -20, -10, 20, 20, 0, 0, 0, 0, 20, 20, 20,
    30, 10, 0, 0, 10, 30, 20,
];

// ---------------------------------------------------------------------------
// Model
// ---------------------------------------------------------------------------

pub open spec fn material(kind: Kind) -> int {
    match kind {
        Kind::Pawn => PAWN_VALUE as int,
        Kind::Knight => KNIGHT_VALUE as int,
        Kind::Bishop => BISHOP_VALUE as int,
        Kind::Rook => ROOK_VALUE as int,
        Kind::Queen => QUEEN_VALUE as int,
        Kind::King => KING_VALUE as int,
    }
}

/// Table index of `sq` seen from the side of `color`.
pub open spec fn table_index(color: Color, sq: Square) -> int {
    if color == Color::White {
        sq.idx()
    } else {
        (7 - sq.rank) * 8 + sq.file
    }
}

pub open spec fn positional(kind: Kind, color: Color, sq: Square) -> int {
    let i = table_index(color, sq);
    match kind {
        Kind::Pawn => PAWN_TABLE@[i] as int,
        Kind::Knight => KNIGHT_TABLE@[i] as int,
        Kind::Bishop => BISHOP_TABLE@[i] as int,
        Kind::Rook => ROOK_TABLE@[i] as int,
        Kind::Queen => QUEEN_TABLE@[i] as int,
        Kind::King => KING_MID_TABLE@[i] as int,
    }
}

/// Material and position of the pieces on indices below `n`, counted for
/// `color` and against its opponent.
pub open spec fn material_upto(b: Seq<Option<Piece>>, color: Color, n: int) -> int
    decreases n,
{
    if n <= 0 {
        0
    } else {
        let rest = material_upto(b, color, n - 1);
        match b[n - 1] {
            Some(p) => {
                let v = material(p.kind) + positional(p.kind, p.color, square_of(n - 1));
                if p.color == color {
                    rest + v
                } else {
                    rest - v
                }
            },
            None => rest,
        }
    }
}

/// Static evaluation of a position from the side of `color`.
pub open spec fn evaluation(b: Seq<Option<Piece>>, ep: Option<Square>, color: Color, st: Status) -> int {
    match st {
        Status::Checkmate { winner } => if winner == color {
            MATE_SCORE as int
        } else {
            -MATE_SCORE
        },
        Status::Stalemate => 0,
        _ => material_upto(b, color, 64) - (if in_check(b, color) {
            CHECK_BONUS as int
        } else {
            0
        }) + (if in_check(b, color.other()) {
            CHECK_BONUS as int
        } else {
            0
        }) + (if ep is Some {
            if color == Color::White {
                1int
            } else {
                -1
            }
        } else {
            0
        }),
    }
}

/// A move that takes a piece (en passant included).
pub open spec fn is_capture(b: Seq<Option<Piece>>, mv: ChessMove) -> bool {
    at(b, mv.to) is Some || mv.flag == MoveFlag::EnPassant
}

/// Ordering key: every capture before every other move (among captures the
/// most valuable victim and the cheapest attacker first), then promotions,
/// then castling.
pub open spec fn order_key(b: Seq<Option<Piece>>, mv: ChessMove) -> int {
    (if mv.flag == MoveFlag::Castle {
        5int
    } else {
        0
    }) + (if is_capture(b, mv) {
        CAPTURE_BASE + match (at(b, mv.to), at(b, mv.from)) {
            (Some(c), Some(m)) => material(c.kind) - material(m.kind),
            _ => 0,
        }
    } else {
        0
    }) + (if mv.flag == MoveFlag::Promotion {
        900int
    } else {
        0
    })
}

/// Inserts `mv` after every move of `s` whose key is at least its own.
pub open spec fn insert_by_key(b: Seq<Option<Piece>>, s: Seq<ChessMove>, mv: ChessMove) -> Seq<
    ChessMove,
>
    decreases s.len(),
{
    if s.len() == 0 {
        seq![mv]
    } else if order_key(b, s[0]) < order_key(b, mv) {
        seq![mv] + s
    } else {
        seq![s[0]] + insert_by_key(b, s.drop_first(), mv)
    }
}

/// `s` sorted by decreasing key, keeping the order of equal keys.
pub open spec fn ordered(b: Seq<Option<Piece>>, s: Seq<ChessMove>) -> Seq<ChessMove>
    decreases s.len(),
{
    if s.len() == 0 {
        seq![]
    } else {
        insert_by_key(b, ordered(b, s.drop_last()), s.last())
    }
}

/// The moves the search tries, in the order it tries them.
pub open spec fn search_moves(b: Seq<Option<Piece>>, ep: Option<Square>, color: Color) -> Seq<
    ChessMove,
> {
    ordered(b, all_legal(b, ep, color))
}

pub open spec fn max(a: int, b: int) -> int {
    if a >= b {
        a
    } else {
        b
    }
}

/// Negamax value of a position for `color` searched `depth` plies deep.
pub open spec fn board_value(b: Seq<Option<Piece>>, ep: Option<Square>, color: Color, depth: nat) -> int
    decreases depth, 1nat, 0nat,
{
    let st = status_of(b, ep, color);
    if depth == 0 || st is Checkmate || st is Stalemate {
        evaluation(b, ep, color, st)
    } else {
        let moves = search_moves(b, ep, color);
        if moves.len() == 0 {
            evaluation(b, ep, color, st)
        } else {
            best_reply(b, ep, color, moves, depth)
        }
    }
}

/// Value for `color` of playing `mv` and letting the opponent search
/// `depth` plies.
pub open spec fn reply_value(b: Seq<Option<Piece>>, color: Color, mv: ChessMove, depth: nat) -> int
    decreases depth, 2nat, 0nat,
{
    let next = after(b, mv);
    -board_value(next.0, next.1, color.other(), depth)
}

/// Best reply value among `moves` (a sentinel below every score when empty).
pub open spec fn best_reply(
    b: Seq<Option<Piece>>,
    ep: Option<Square>,
    color: Color,
    moves: Seq<ChessMove>,
    depth: nat,
) -> int
    decreases depth, 0nat, moves.len(),
{
    if moves.len() == 0 || depth == 0 {
        i32::MIN + 1
    } else if moves.len() == 1 {
        reply_value(b, color, moves[0], (depth - 1) as nat)
    } else {
        max(
            best_reply(b, ep, color, moves.drop_last(), depth),
            reply_value(b, color, moves.last(), (depth - 1) as nat),
        )
    }
}

/// Index of the first move of `moves` with the greatest reply value.
pub open spec fn first_best(b: Seq<Option<Piece>>, color: Color, moves: Seq<ChessMove>, depth: nat) -> int
    decreases moves.len(),
{
    if moves.len() <= 1 {
        0
    } else {
        let k = first_best(b, color, moves.drop_last(), depth);
        if reply_value(b, color, moves.last(), depth) > reply_value(b, color, moves[k], depth) {
            moves.len() - 1
        } else {
            k
        }
    }
}

/// The move `choose_move` picks: the first of best value among the moves in
/// search order, or `None` without legal moves.
pub open spec fn best_move_of(b: Seq<Option<Piece>>, ep: Option<Square>, color: Color, depth: nat) -> Option<
    ChessMove,
> {
    let moves = search_moves(b, ep, color);
    if moves.len() == 0 {
        None
    } else {
        Some(moves[first_best(b, color, moves, (depth - 1) as nat)])
    }
}

// ---------------------------------------------------------------------------
// Lemmas
// ---------------------------------------------------------------------------

/// `insert_by_key` places `mv` right before the first move with a smaller key.
proof fn lemma_insert_at(b: Seq<Option<Piece>>, s: Seq<ChessMove>, mv: ChessMove, p: int)
    requires
        0 <= p <= s.len(),
        forall|j: int| 0 <= j < p ==> order_key(b, #[trigger] s[j]) >= order_key(b, mv),
        p < s.len() ==> order_key(b, s[p]) < order_key(b, mv),
    ensures
        insert_by_key(b, s, mv) == s.insert(p, mv),
    decreases s.len(),
{
    if s.len() == 0 {
        assert(s.insert(p, mv) =~= seq![mv]);
    } else if p == 0 {
        assert(s.insert(p, mv) =~= seq![mv] + s);
    } else {
        let t = s.drop_first();
        assert forall|j: int| 0 <= j < p - 1 implies order_key(b, #[trigger] t[j]) >= order_key(
            b,
            mv,
        ) by {
            assert(t[j] == s[j + 1]);
        }
        lemma_insert_at(b, t, mv, p - 1);
        assert(seq![s[0]] + t.insert(p - 1, mv) =~= s.insert(p, mv));
    }
}

/// Keys never increase along `s`.
pub open spec fn keys_descending(b: Seq<Option<Piece>>, s: Seq<ChessMove>) -> bool {
    forall|i: int, j: int| 0 <= i < j < s.len() ==> order_key(b, #[trigger] s[i]) >= order_key(b, #[trigger] s[j])
}

proof fn lemma_insert_multiset(b: Seq<Option<Piece>>, s: Seq<ChessMove>, mv: ChessMove)
    ensures
        insert_by_key(b, s, mv).to_multiset() =~= s.to_multiset().insert(mv),
    decreases s.len(),
{
    broadcast use vstd::seq_lib::group_to_multiset_ensures, vstd::multiset::group_multiset_axioms;
    if s.len() == 0 {
        assert(seq![mv] =~= s.push(mv));
    } else if order_key(b, s[0]) < order_key(b, mv) {
        vstd::seq_lib::lemma_multiset_commutative(seq![mv], s);
        assert(seq![mv] =~= Seq::<ChessMove>::empty().push(mv));
    } else {
        let rest = s.drop_first();
        lemma_insert_multiset(b, rest, mv);
        vstd::seq_lib::lemma_multiset_commutative(seq![s[0]], insert_by_key(b, rest, mv));
        vstd::seq_lib::lemma_multiset_commutative(seq![s[0]], rest);
        assert(seq![s[0]] + rest =~= s);
        assert(seq![s[0]] =~= Seq::<ChessMove>::empty().push(s[0]));
    }
}

proof fn lemma_ordered_multiset(b: Seq<Option<Piece>>, s: Seq<ChessMove>)
    ensures
        ordered(b, s).to_multiset() =~= s.to_multiset(),
    decreases s.len(),
{
    broadcast use vstd::seq_lib::group_to_multiset_ensures, vstd::multiset::group_multiset_axioms;
    if s.len() > 0 {
        lemma_ordered_multiset(b, s.drop_last());
        lemma_insert_multiset(b, ordered(b, s.drop_last()), s.last());
        assert(s.drop_last().push(s.last()) =~= s);
    }
}

proof fn lemma_insert_sorted(b: Seq<Option<Piece>>, s: Seq<ChessMove>, mv: ChessMove)
    requires
        keys_descending(b, s),
    ensures
        keys_descending(b, insert_by_key(b, s, mv)),
    decreases s.len(),
{
    let r = insert_by_key(b, s, mv);
    if s.len() == 0 {
    } else if order_key(b, s[0]) < order_key(b, mv) {
        assert forall|i: int, j: int| 0 <= i < j < r.len() implies order_key(b, #[trigger] r[i]) >= order_key(
            b,
            #[trigger] r[j],
        ) by {
            assert(r[j] == s[j - 1]);
            if i > 0 {
                assert(r[i] == s[i - 1]);
            } else if j - 1 > 0 {
                assert(order_key(b, s[0]) >= order_key(b, s[j - 1]));
            }
        }
    } else {
        let rest = s.drop_first();
        let t = insert_by_key(b, rest, mv);
        assert(keys_descending(b, rest)) by {
            assert forall|i: int, j: int| 0 <= i < j < rest.len() implies order_key(b, #[trigger] rest[i]) >= order_key(
                b,
                #[trigger] rest[j],
            ) by {
                assert(rest[i] == s[i + 1] && rest[j] == s[j + 1]);
            }
        }
        lemma_insert_sorted(b, rest, mv);
        lemma_insert_contains(b, rest, mv);
        assert(r == seq![s[0]] + t);
        assert forall|i: int, j: int| 0 <= i < j < r.len() implies order_key(b, #[trigger] r[i]) >= order_key(
            b,
            #[trigger] r[j],
        ) by {
            assert(r[j] == t[j - 1]);
            if i > 0 {
                assert(r[i] == t[i - 1]);
            } else {
                assert(r[i] == s[0]);
                assert(t.contains(t[j - 1]));
                if t[j - 1] != mv {
                    assert(rest.contains(t[j - 1]));
                    let k = choose|k: int| 0 <= k < rest.len() && rest[k] == t[j - 1];
                    assert(rest[k] == s[k + 1]);
                    assert(order_key(b, s[0]) >= order_key(b, s[k + 1]));
                }
            }
        }
    }
}

proof fn lemma_ordered_sorted(b: Seq<Option<Piece>>, s: Seq<ChessMove>)
    ensures
        keys_descending(b, ordered(b, s)),
    decreases s.len(),
{
    if s.len() > 0 {
        lemma_ordered_sorted(b, s.drop_last());
        lemma_insert_sorted(b, ordered(b, s.drop_last()), s.last());
    }
}

/// A capture's key exceeds that of every other move.
proof fn lemma_capture_keys(b: Seq<Option<Piece>>, mv: ChessMove)
    ensures
        is_capture(b, mv) ==> order_key(b, mv) >= CAPTURE_BASE - KING_VALUE,
        !is_capture(b, mv) ==> order_key(b, mv) <= 905,
{
}

proof fn lemma_captures_first(b: Seq<Option<Piece>>, s: Seq<ChessMove>)
    requires
        keys_descending(b, s),
    ensures
        forall|i: int, j: int|
            0 <= i < j < s.len() && is_capture(b, #[trigger] s[j]) ==> is_capture(b, #[trigger] s[i]),
{
    assert forall|i: int, j: int| 0 <= i < j < s.len() && is_capture(b, #[trigger] s[j]) implies is_capture(
        b,
        #[trigger] s[i],
    ) by {
        lemma_capture_keys(b, s[i]);
        lemma_capture_keys(b, s[j]);
        assert(order_key(b, s[i]) >= order_key(b, s[j]));
    }
}

/// Inserting keeps every move and adds `mv`.
proof fn lemma_insert_contains(b: Seq<Option<Piece>>, s: Seq<ChessMove>, mv: ChessMove)
    ensures
        insert_by_key(b, s, mv).len() == s.len() + 1,
        forall|y: ChessMove| #[trigger]
            insert_by_key(b, s, mv).contains(y) <==> (s.contains(y) || y == mv),
    decreases s.len(),
{
    if s.len() == 0 {
        let r = seq![mv];
        assert(insert_by_key(b, s, mv) =~= r);
        assert forall|y: ChessMove| #[trigger] r.contains(y) <==> (s.contains(y) || y == mv) by {
            if y == mv {
                assert(r[0] == y);
            }
        }
    } else if order_key(b, s[0]) < order_key(b, mv) {
        let r = seq![mv] + s;
        assert(insert_by_key(b, s, mv) == r);
        assert forall|y: ChessMove| #[trigger] r.contains(y) <==> (s.contains(y) || y == mv) by {
            if s.contains(y) {
                let j = choose|j: int| 0 <= j < s.len() && s[j] == y;
                assert(r[j + 1] == y);
            }
            if r.contains(y) && y != mv {
                let j = choose|j: int| 0 <= j < r.len() && r[j] == y;
                assert(s[j - 1] == y);
            }
            if y == mv {
                assert(r[0] == y);
            }
        }
    } else {
        let t = s.drop_first();
        lemma_insert_contains(b, t, mv);
        let it = insert_by_key(b, t, mv);
        let r = seq![s[0]] + it;
        assert(insert_by_key(b, s, mv) == r);
        assert forall|y: ChessMove| #[trigger] r.contains(y) <==> (s.contains(y) || y == mv) by {
            if s.contains(y) {
                let j = choose|j: int| 0 <= j < s.len() && s[j] == y;
                if j == 0 {
                    assert(r[0] == y);
                } else {
                    assert(t[j - 1] == y);
                    assert(t.contains(y));
                    assert(it.contains(y));
                    let k = choose|k: int| 0 <= k < it.len() && it[k] == y;
                    assert(r[k + 1] == y);
                }
            }
            if y == mv {
                assert(it.contains(y));
                let k = choose|k: int| 0 <= k < it.len() && it[k] == y;
                assert(r[k + 1] == y);
            }
            if r.contains(y) && y != mv {
                let j = choose|j: int| 0 <= j < r.len() && r[j] == y;
                if j == 0 {
                    assert(s[0] == y);
                } else {
                    assert(it[j - 1] == y);
                    assert(it.contains(y));
                    assert(t.contains(y));
                    let k = choose|k: int| 0 <= k < t.len() && t[k] == y;
                    assert(s[k + 1] == y);
                }
            }
        }
    }
}

/// Ordering keeps the moves: it only permutes them.
pub proof fn lemma_ordered_contains(b: Seq<Option<Piece>>, s: Seq<ChessMove>)
    ensures
        ordered(b, s).len() == s.len(),
        forall|y: ChessMove| #[trigger] ordered(b, s).contains(y) <==> s.contains(y),
    decreases s.len(),
{
    if s.len() > 0 {
        let t = s.drop_last();
        lemma_ordered_contains(b, t);
        lemma_insert_contains(b, ordered(b, t), s.last());
        assert forall|y: ChessMove| #[trigger] ordered(b, s).contains(y) <==> s.contains(y) by {
            if t.contains(y) {
                let j = choose|j: int| 0 <= j < t.len() && t[j] == y;
                assert(s[j] == y);
            }
            if y == s.last() {
                assert(s[s.len() - 1] == y);
            }
            if s.contains(y) && y != s.last() {
                let j = choose|j: int| 0 <= j < s.len() && s[j] == y;
                assert(t[j] == y);
            }
        }
    }
}

/// Ordered well-formed moves stay well formed.
proof fn lemma_ordered_wf(b: Seq<Option<Piece>>, s: Seq<ChessMove>)
    requires
        moves_wf(b, s),
    ensures
        moves_wf(b, ordered(b, s)),
{
    lemma_ordered_contains(b, s);
    let o = ordered(b, s);
    assert forall|k: int| 0 <= k < o.len() implies #[trigger] mv_wf(b, o[k]) by {
        assert(o.contains(o[k]));
        let j = choose|j: int| 0 <= j < s.len() && s[j] == o[k];
        assert(mv_wf(b, s[j]));
    }
}

/// The best reply over a prefix is at most the best reply over all moves.
proof fn lemma_best_reply_prefix(
    b: Seq<Option<Piece>>,
    ep: Option<Square>,
    color: Color,
    s: Seq<ChessMove>,
    k: int,
    depth: nat,
)
    requires
        1 <= k <= s.len(),
        depth > 0,
    ensures
        best_reply(b, ep, color, s.take(k), depth) <= best_reply(b, ep, color, s, depth),
    decreases s.len(),
{
    if k == s.len() {
        assert(s.take(k) =~= s);
    } else {
        let t = s.drop_last();
        lemma_best_reply_prefix(b, ep, color, t, k, depth);
        assert(t.take(k) =~= s.take(k));
    }
}

/// Adding one move to a prefix.
proof fn lemma_best_reply_step(
    b: Seq<Option<Piece>>,
    ep: Option<Square>,
    color: Color,
    s: Seq<ChessMove>,
    i: int,
    depth: nat,
)
    requires
        0 <= i < s.len(),
        depth > 0,
    ensures
        i == 0 ==> best_reply(b, ep, color, s.take(i + 1), depth) == reply_value(
            b,
            color,
            s[i],
            (depth - 1) as nat,
        ),
        i > 0 ==> best_reply(b, ep, color, s.take(i + 1), depth) == max(
            best_reply(b, ep, color, s.take(i), depth),
            reply_value(b, color, s[i], (depth - 1) as nat),
        ),
        i > 0 ==> first_best(b, color, s.take(i + 1), (depth - 1) as nat) == if reply_value(
            b,
            color,
            s[i],
            (depth - 1) as nat,
        ) > reply_value(
            b,
            color,
            s[first_best(b, color, s.take(i), (depth - 1) as nat)],
            (depth - 1) as nat,
        ) {
            i
        } else {
            first_best(b, color, s.take(i), (depth - 1) as nat)
        },
{
    assert(s.take(i + 1).drop_last() =~= s.take(i));
    assert(s.take(i + 1).last() == s[i]);
    if i > 0 {
        lemma_first_best_range(b, color, s.take(i), (depth - 1) as nat);
        let k = first_best(b, color, s.take(i), (depth - 1) as nat);
        assert(s.take(i)[k] == s[k]);
        assert(s.take(i + 1)[k] == s[k]);
    }
}

proof fn lemma_first_best_range(b: Seq<Option<Piece>>, color: Color, s: Seq<ChessMove>, depth: nat)
    requires
        s.len() > 0,
    ensures
        0 <= first_best(b, color, s, depth) < s.len(),
    decreases s.len(),
{
    if s.len() > 1 {
        lemma_first_best_range(b, color, s.drop_last(), depth);
    }
}

/// The best reply value is the value of the first best move.
proof fn lemma_first_best_value(
    b: Seq<Option<Piece>>,
    ep: Option<Square>,
    color: Color,
    s: Seq<ChessMove>,
    depth: nat,
)
    requires
        s.len() > 0,
        depth > 0,
    ensures
        0 <= first_best(b, color, s, (depth - 1) as nat) < s.len(),
        best_reply(b, ep, color, s, depth) == reply_value(
            b,
            color,
            s[first_best(b, color, s, (depth - 1) as nat)],
            (depth - 1) as nat,
        ),
    decreases s.len(),
{
    lemma_first_best_range(b, color, s, (depth - 1) as nat);
    if s.len() > 1 {
        let t = s.drop_last();
        lemma_first_best_value(b, ep, color, t, depth);
        let k = first_best(b, color, t, (depth - 1) as nat);
        assert(t[k] == s[k]);
    }
}

// ---------------------------------------------------------------------------
// Evaluation
// ---------------------------------------------------------------------------

/// Material value of a piece kind.
fn material_value(kind: Kind) -> (v: i32)
    ensures
        v == material(kind),
        100 <= v <= 20_000,
{
    match kind {
        Kind::Pawn => PAWN_VALUE,
        Kind::Knight => KNIGHT_VALUE,
        Kind::Bishop => BISHOP_VALUE,
        Kind::Rook => ROOK_VALUE,
        Kind::Queen => QUEEN_VALUE,
        Kind::King => KING_VALUE,
    }
}

/// Positional bonus of a piece of `kind` and `color` on `sq`.
fn positional_bonus(kind: Kind, color: Color, sq: Square) -> (v: i32)
    requires
        sq.inb(),
    ensures
        v == positional(kind, color, sq),
        -50 <= v <= 50,
{
    let idx = if color == Color::White {
        sq.index()
    } else {
        Square::new(sq.file, 7 - sq.rank).index()
    };
    match kind {
        Kind::Pawn => PAWN_TABLE[idx],
        Kind::Knight => KNIGHT_TABLE[idx],
        Kind::Bishop => BISHOP_TABLE[idx],
        Kind::Rook => ROOK_TABLE[idx],
        Kind::Queen => QUEEN_TABLE[idx],
        Kind::King => KING_MID_TABLE[idx],
    }
}

/// Static score of the position for `color`: mate and stalemate scores, else
/// material and position, a bonus for giving check and a tie-break for an
/// open en passant target.
fn evaluate(squares: &Squares, en_passant: Option<Square>, color: Color, status: Status) -> (v: i32)
    ensures
        v == evaluation(squares@, en_passant, color, status),
        -SCORE_BOUND <= v <= SCORE_BOUND,
{
    match status {
        Status::Checkmate { winner } => {
            return if winner == color {
                MATE_SCORE
            } else {
                -MATE_SCORE
            };
        },
        Status::Stalemate => return 0,
        _ => {},
    }
    let mut score: i32 = 0;
    let mut rank: i32 = 0;
    while rank < 8
        invariant
            0 <= rank <= 8,
            score == material_upto(squares@, color, rank * 8),
            -20_050 * (rank * 8) <= score <= 20_050 * (rank * 8),
        decreases 8 - rank,
    {
        let mut file: i32 = 0;
        while file < 8
            invariant
                0 <= rank < 8,
                0 <= file <= 8,
                score == material_upto(squares@, color, rank * 8 + file),
                -20_050 * (rank * 8 + file) <= score <= 20_050 * (rank * 8 + file),
            decreases 8 - file,
        {
            let sq = Square::new(file, rank);
            assert(square_of(rank * 8 + file) == sq);
            if let Some(piece) = squares[sq.index()] {
                let value = material_value(piece.kind) + positional_bonus(piece.kind, piece.color, sq);
                if piece.color == color {
                    score += value;
                } else {
                    score -= value;
                }
            }
            file += 1;
        }
        rank += 1;
    }
    if is_in_check(squares, color) {
        score -= CHECK_BONUS;
    }
    if is_in_check(squares, color.opposite()) {
        score += CHECK_BONUS;
    }
    if en_passant.is_some() {
        score += if color == Color::White {
            1
        } else {
            -1
        };
    }
    score
}

// ---------------------------------------------------------------------------
// Move ordering
// ---------------------------------------------------------------------------

/// Ordering key of a move (captures first).
fn move_order_score(squares: &Squares, mv: ChessMove) -> (v: i32)
    ensures
        v == order_key(squares@, mv),
{
    let mut score: i32 = 0;
    if mv.flag == MoveFlag::Castle {
        score += 5;
    }
    if piece_at(squares, mv.to).is_some() || mv.flag == MoveFlag::EnPassant {
        score += CAPTURE_BASE;
        if let Some(captured) = piece_at(squares, mv.to) {
            if let Some(mover) = piece_at(squares, mv.from) {
                score += material_value(captured.kind) - material_value(mover.kind);
            }
        }
    }
    if mv.flag == MoveFlag::Promotion {
        score += 900;
    }
    score
}

/// Sorts the moves by decreasing key, keeping the order of equal keys, so that
/// alpha-beta pruning sees captures first: the result holds the same moves,
/// and every capture comes before every other move.
fn order_moves(moves: &mut Vec<ChessMove>, squares: &Squares)
    ensures
        final(moves)@ == ordered(squares@, old(moves)@),
        final(moves)@.to_multiset() == old(moves)@.to_multiset(),
        forall|i: int, j: int|
            0 <= i < j < final(moves)@.len() && is_capture(squares@, #[trigger] final(moves)@[j]) ==> is_capture(
                squares@,
                #[trigger] final(moves)@[i],
            ),
{
    proof {
        lemma_ordered_multiset(squares@, moves@);
        lemma_ordered_sorted(squares@, moves@);
        lemma_captures_first(squares@, ordered(squares@, moves@));
    }
    let ghost b = squares@;
    let mut sorted: Vec<ChessMove> = Vec::new();
    let mut i: usize = 0;
    while i < moves.len()
        invariant
            i <= moves@.len(),
            b == squares@,
            sorted@ == ordered(b, moves@.take(i as int)),
        decreases moves.len() - i,
    {
        let mv = moves[i];
        let key = move_order_score(squares, mv);
        let mut p: usize = 0;
        while p < sorted.len()
            invariant_except_break
                b == squares@,
                p <= sorted@.len(),
                forall|j: int| 0 <= j < p ==> order_key(b, #[trigger] sorted@[j]) >= key,
            ensures
                p <= sorted@.len(),
                forall|j: int| 0 <= j < p ==> order_key(b, #[trigger] sorted@[j]) >= key,
                p < sorted@.len() ==> order_key(b, sorted@[p as int]) < key,
            decreases sorted.len() - p,
        {
            if move_order_score(squares, sorted[p]) < key {
                break;
            }
            p += 1;
        }
        proof {
            lemma_insert_at(b, sorted@, mv, p as int);
            assert(moves@.take(i + 1).drop_last() =~= moves@.take(i as int));
            assert(moves@.take(i + 1).last() == mv);
        }
        sorted.insert(p, mv);
        i += 1;
    }
    assert(moves@.take(moves@.len() as int) =~= moves@);
    *moves = sorted;
}

// ---------------------------------------------------------------------------
// Search
// ---------------------------------------------------------------------------

/// Alpha-beta negamax. The result `r` is exact inside the window and a bound
/// outside it: `alpha < r < beta` gives the value itself, `r <= alpha` an
/// upper bound and `r >= beta` a lower bound.
fn negamax(
    squares: &Squares,
    en_passant: Option<Square>,
    color: Color,
    depth: u8,
    alpha: i32,
    beta: i32,
) -> (r: i32)
    requires
        i32::MIN < alpha < beta,
    ensures
        -SCORE_BOUND <= r <= SCORE_BOUND,
        alpha < r < beta ==> r == board_value(squares@, en_passant, color, depth as nat),
        r <= alpha ==> board_value(squares@, en_passant, color, depth as nat) <= r,
        r >= beta ==> board_value(squares@, en_passant, color, depth as nat) >= r,
    decreases depth,
{
    let ghost b = squares@;
    let ghost v = board_value(b, en_passant, color, depth as nat);
    let status = status_for(squares, en_passant, color);
    if depth == 0 || matches!(status, Status::Checkmate { .. } | Status::Stalemate) {
        return evaluate(squares, en_passant, color, status);
    }
    let mut moves = all_legal_moves(squares, en_passant, color);
    if moves.is_empty() {
        return evaluate(squares, en_passant, color, status);
    }
    proof {
        lemma_ordered_wf(b, moves@);
        lemma_ordered_contains(b, moves@);
    }
    order_moves(&mut moves, squares);
    let ghost ms = moves@;
    assert(v == best_reply(b, en_passant, color, ms, depth as nat));
    let mut best: i32 = i32::MIN + 1;
    let mut a: i32 = alpha;
    let mut i: usize = 0;
    while i < moves.len()
        invariant
            b == squares@,
            moves@ == ms,
            ms.len() > 0,
            moves_wf(b, ms),
            depth > 0,
            v == best_reply(b, en_passant, color, ms, depth as nat),
            v == board_value(b, en_passant, color, depth as nat),
            i32::MIN < alpha < beta,
            i <= ms.len(),
            a as int == max(alpha as int, best as int),
            best < beta,
            i == 0 ==> best == i32::MIN + 1,
            i > 0 ==> -SCORE_BOUND <= best <= SCORE_BOUND,
            i > 0 && best <= alpha ==> best_reply(b, en_passant, color, ms.take(i as int), depth as nat) <= best,
            i > 0 && best > alpha ==> best_reply(b, en_passant, color, ms.take(i as int), depth as nat) == best,
        decreases ms.len() - i,
    {
        let mv = moves[i];
        assert(mv_wf(b, ms[i as int]));
        let (next, ep) = apply_move(squares, mv);
        let child = negamax(&next, ep, color.opposite(), depth - 1, -beta, -a);
        let score = -child;
        proof {
            lemma_best_reply_step(b, en_passant, color, ms, i as int, depth as nat);
        }
        if score > best {
            best = score;
        }
        if score > a {
            a = score;
        }
        if a >= beta {
            proof {
                lemma_best_reply_prefix(b, en_passant, color, ms, i + 1, depth as nat);
            }
            return best;
        }
        i += 1;
    }
    assert(ms.take(ms.len() as int) =~= ms);
    best
}

/// Picks the best legal move for `color` searching `depth` plies, or `None`
/// when `color` has no legal move.
pub fn choose_move(squares: &Squares, en_passant: Option<Square>, color: Color, depth: u8) -> (r:
    Option<ChessMove>)
    requires
        depth >= 1,
    ensures
        r == best_move_of(squares@, en_passant, color, depth as nat),
{
    let ghost b = squares@;
    let moves = all_legal_moves(squares, en_passant, color);
    if moves.is_empty() {
        proof {
            lemma_ordered_contains(b, moves@);
        }
        return None;
    }
    let mut best_move = moves[0];
    let mut best_score: i32 = i32::MIN;
    let mut alpha: i32 = i32::MIN + 1;
    let beta: i32 = i32::MAX;
    let mut ordered = moves;
    proof {
        lemma_ordered_wf(b, ordered@);
        lemma_ordered_contains(b, ordered@);
    }
    order_moves(&mut ordered, squares);
    let ghost ms = ordered@;
    let ghost d = (depth - 1) as nat;
    let mut i: usize = 0;
    while i < ordered.len()
        invariant
            b == squares@,
            ordered@ == ms,
            ms == search_moves(b, en_passant, color),
            ms.len() > 0,
            moves_wf(b, ms),
            depth >= 1,
            d == depth - 1,
            beta == i32::MAX,
            i <= ms.len(),
            i == 0 ==> best_score == i32::MIN && alpha == i32::MIN + 1,
            i > 0 ==> {
                &&& 0 <= first_best(b, color, ms.take(i as int), d) < i
                &&& best_move == ms[first_best(b, color, ms.take(i as int), d)]
                &&& best_score as int == best_reply(b, en_passant, color, ms.take(i as int), depth as nat)
                &&& best_score as int == reply_value(b, color, best_move, d)
                &&& alpha == best_score
                &&& -SCORE_BOUND <= best_score <= SCORE_BOUND
            },
        decreases ms.len() - i,
    {
        let mv = ordered[i];
        assert(mv_wf(b, ms[i as int]));
        let (next, ep) = apply_move(squares, mv);
        let child = negamax(&next, ep, color.opposite(), depth - 1, -beta, -alpha);
        let score = -child;
        proof {
            lemma_best_reply_step(b, en_passant, color, ms, i as int, depth as nat);
            if i > 0 {
                lemma_first_best_range(b, color, ms.take(i as int), d);
                lemma_first_best_value(b, en_passant, color, ms.take(i as int), depth as nat);
            }
            assert(ms.take(i + 1)[i as int] == ms[i as int]);
        }
        if score > best_score {
            best_score = score;
            best_move = mv;
        }
        if score > alpha {
            alpha = score;
        }
        proof {
            lemma_first_best_range(b, color, ms.take(i + 1), d);
            lemma_first_best_value(b, en_passant, color, ms.take(i + 1), depth as nat);
            assert(ms.take(i + 1)[first_best(b, color, ms.take(i + 1), d)] == ms[first_best(b, color, ms.take(i + 1), d)]);
        }
        i += 1;
    }
    assert(ms.take(ms.len() as int) =~= ms);
    Some(best_move)
}

/// Law: the engine only plays legal moves, and passes only when there is
/// none; the chosen move never leaves its own king in check.
pub proof fn chosen_move_is_legal(b: Seq<Option<Piece>>, ep: Option<Square>, color: Color, depth: nat)
    requires
        depth >= 1,
    ensures
        best_move_of(b, ep, color, depth) is None <==> all_legal(b, ep, color).len() == 0,
        best_move_of(b, ep, color, depth) matches Some(mv) ==> all_legal(b, ep, color).contains(mv)
            && !in_check(after(b, mv).0, color),
{
    let legal = all_legal(b, ep, color);
    lemma_ordered_contains(b, legal);
    let ms = search_moves(b, ep, color);
    if ms.len() > 0 {
        lemma_first_best_range(b, color, ms, (depth - 1) as nat);
        let mv = ms[first_best(b, color, ms, (depth - 1) as nat)];
        assert(ms.contains(mv));
        crate::chess::rules::legal_moves_keep_king_safe(b, ep, color, mv);
    }
}

/// The first best move is at least as good as every move.
proof fn lemma_first_best_max(b: Seq<Option<Piece>>, color: Color, s: Seq<ChessMove>, depth: nat)
    requires
        s.len() > 0,
    ensures
        forall|k: int|
            0 <= k < s.len() ==> reply_value(b, color, s[first_best(b, color, s, depth)], depth) >= reply_value(
                b,
                color,
                #[trigger] s[k],
                depth,
            ),
    decreases s.len(),
{
    lemma_first_best_range(b, color, s, depth);
    if s.len() > 1 {
        let t = s.drop_last();
        lemma_first_best_max(b, color, t, depth);
        lemma_first_best_range(b, color, t, depth);
        let j = first_best(b, color, t, depth);
        assert(t[j] == s[j]);
        assert forall|k: int| 0 <= k < s.len() implies reply_value(b, color, s[first_best(b, color, s, depth)], depth)
            >= reply_value(b, color, #[trigger] s[k], depth) by {
            if k < t.len() {
                assert(t[k] == s[k]);
            }
        }
    }
}

/// One ply deep, a move is worth the mate score exactly when it mates, as
/// long as the material after it stays below that score.
proof fn lemma_mate_value(b: Seq<Option<Piece>>, color: Color, mv: ChessMove)
    requires
        material_upto(after(b, mv).0, color, 64) < MATE_SCORE - CHECK_BONUS - 1,
    ensures
        reply_value(b, color, mv, 0) == MATE_SCORE <==> status_of(after(b, mv).0, after(b, mv).1, color.other())
            == (Status::Checkmate { winner: color }),
        reply_value(b, color, mv, 0) <= MATE_SCORE,
{
    let next = after(b, mv);
    lemma_material_mirror(next.0, color, 64);
    assert(color.other().other() == color);
}

/// Law: searching one ply deep, the engine takes an immediate checkmate
/// when one is on offer, as long as no move leaves a material balance that
/// reaches the mate score.
pub proof fn takes_mate_in_one(b: Seq<Option<Piece>>, ep: Option<Square>, color: Color, mate: ChessMove)
    requires
        all_legal(b, ep, color).contains(mate),
        status_of(after(b, mate).0, after(b, mate).1, color.other()) == (Status::Checkmate { winner: color }),
        forall|mv: ChessMove|
            #[trigger] all_legal(b, ep, color).contains(mv) ==> material_upto(after(b, mv).0, color, 64)
                < MATE_SCORE - CHECK_BONUS - 1,
    ensures
        best_move_of(b, ep, color, 1) matches Some(r) && status_of(after(b, r).0, after(b, r).1, color.other())
            == (Status::Checkmate { winner: color }),
{
    let legal = all_legal(b, ep, color);
    lemma_ordered_contains(b, legal);
    let ms = search_moves(b, ep, color);
    assert(ms.contains(mate));
    let k = choose|k: int| 0 <= k < ms.len() && ms[k] == mate;
    lemma_first_best_max(b, color, ms, 0);
    lemma_first_best_range(b, color, ms, 0);
    let r = ms[first_best(b, color, ms, 0)];
    assert(ms.contains(r));
    assert(legal.contains(r));
    lemma_mate_value(b, color, mate);
    lemma_mate_value(b, color, r);
    assert(reply_value(b, color, r, 0) >= reply_value(b, color, ms[k], 0));
}

/// Every move before the first best one is worth strictly less.
proof fn lemma_first_best_strict(b: Seq<Option<Piece>>, color: Color, s: Seq<ChessMove>, depth: nat)
    requires
        s.len() > 0,
    ensures
        forall|j: int|
            0 <= j < first_best(b, color, s, depth) ==> reply_value(b, color, #[trigger] s[j], depth) < reply_value(
                b,
                color,
                s[first_best(b, color, s, depth)],
                depth,
            ),
    decreases s.len(),
{
    if s.len() > 1 {
        let t = s.drop_last();
        lemma_first_best_strict(b, color, t, depth);
        lemma_first_best_max(b, color, t, depth);
        lemma_first_best_range(b, color, t, depth);
        let k = first_best(b, color, t, depth);
        assert(t[k] == s[k]);
        assert forall|j: int| 0 <= j < first_best(b, color, s, depth) implies reply_value(b, color, #[trigger] s[j], depth)
            < reply_value(b, color, s[first_best(b, color, s, depth)], depth) by {
            assert(t[j] == s[j]);
        }
    }
}

/// Law: searched at least one ply deep, a position where the game goes on
/// is worth, for the side to move, the best over its legal moves of the
/// opponent's value after the move, negated and searched one ply less; at
/// depth zero, or once the game is over, it is the static evaluation.
pub proof fn board_value_is_negamax(b: Seq<Option<Piece>>, ep: Option<Square>, color: Color, depth: nat)
    ensures
        (depth == 0 || status_of(b, ep, color) is Checkmate || status_of(b, ep, color) is Stalemate)
            ==> board_value(b, ep, color, depth) == evaluation(b, ep, color, status_of(b, ep, color)),
        depth >= 1 && !(status_of(b, ep, color) is Checkmate) && !(status_of(b, ep, color) is Stalemate) ==> {
            &&& all_legal(b, ep, color).len() > 0
            &&& forall|mv: ChessMove|
                #[trigger] all_legal(b, ep, color).contains(mv) ==> board_value(b, ep, color, depth) >= -board_value(
                    after(b, mv).0,
                    after(b, mv).1,
                    color.other(),
                    (depth - 1) as nat,
                )
            &&& exists|mv: ChessMove|
                #[trigger] all_legal(b, ep, color).contains(mv) && board_value(b, ep, color, depth) == -board_value(
                    after(b, mv).0,
                    after(b, mv).1,
                    color.other(),
                    (depth - 1) as nat,
                )
        },
{
    let st = status_of(b, ep, color);
    if depth >= 1 && !(st is Checkmate) && !(st is Stalemate) {
        let legal = all_legal(b, ep, color);
        lemma_ordered_contains(b, legal);
        let ms = search_moves(b, ep, color);
        let d = (depth - 1) as nat;
        assert(ms.len() > 0);
        lemma_first_best_value(b, ep, color, ms, depth);
        lemma_first_best_max(b, color, ms, d);
        let r = ms[first_best(b, color, ms, d)];
        assert(ms.contains(r));
        assert forall|mv: ChessMove| #[trigger] legal.contains(mv) implies board_value(b, ep, color, depth)
            >= -board_value(after(b, mv).0, after(b, mv).1, color.other(), d) by {
            assert(ms.contains(mv));
            let k = choose|k: int| 0 <= k < ms.len() && ms[k] == mv;
            assert(reply_value(b, color, ms[k], d) <= reply_value(b, color, r, d));
        }
        assert(legal.contains(r));
    }
}

/// Law: the engine values each legal move by the opponent's value of the
/// position after it, negated and searched `depth - 1` plies, so that from
/// two plies on the opponent's best answer counts; it plays a move of
/// greatest value, the first such in search order.
pub proof fn chosen_move_is_best(b: Seq<Option<Piece>>, ep: Option<Square>, color: Color, depth: nat)
    requires
        depth >= 1,
    ensures
        best_move_of(b, ep, color, depth) matches Some(r) ==> {
            let d = (depth - 1) as nat;
            let ms = search_moves(b, ep, color);
            &&& all_legal(b, ep, color).contains(r)
            &&& forall|mv: ChessMove|
                #[trigger] all_legal(b, ep, color).contains(mv) ==> -board_value(after(b, r).0, after(b, r).1, color.other(), d)
                    >= -board_value(after(b, mv).0, after(b, mv).1, color.other(), d)
            &&& exists|k: int|
                0 <= k < ms.len() && ms[k] == r && forall|j: int|
                    0 <= j < k ==> -board_value(after(b, #[trigger] ms[j]).0, after(b, ms[j]).1, color.other(), d)
                        < -board_value(after(b, r).0, after(b, r).1, color.other(), d)
        },
{
    let legal = all_legal(b, ep, color);
    lemma_ordered_contains(b, legal);
    let ms = search_moves(b, ep, color);
    let d = (depth - 1) as nat;
    if ms.len() > 0 {
        lemma_first_best_range(b, color, ms, d);
        lemma_first_best_max(b, color, ms, d);
        lemma_first_best_strict(b, color, ms, d);
        let k = first_best(b, color, ms, d);
        let r = ms[k];
        assert(ms.contains(r));
        assert forall|mv: ChessMove| #[trigger] legal.contains(mv) implies -board_value(after(b, r).0, after(b, r).1, color.other(), d)
            >= -board_value(after(b, mv).0, after(b, mv).1, color.other(), d) by {
            assert(ms.contains(mv));
            let j = choose|j: int| 0 <= j < ms.len() && ms[j] == mv;
            assert(reply_value(b, color, ms[j], d) <= reply_value(b, color, r, d));
        }
        assert forall|j: int| 0 <= j < k implies -board_value(after(b, #[trigger] ms[j]).0, after(b, ms[j]).1, color.other(), d)
            < -board_value(after(b, r).0, after(b, r).1, color.other(), d) by {
            assert(reply_value(b, color, ms[j], d) < reply_value(b, color, r, d));
        }
    }
}

proof fn lemma_material_mirror(b: Seq<Option<Piece>>, color: Color, n: int)
    ensures
        material_upto(b, color, n) == -material_upto(b, color.other(), n),
    decreases n,
{
    if n > 0 {
        lemma_material_mirror(b, color, n - 1);
    }
}

/// Law: the evaluation is zero-sum: what one side gains, the other loses.
pub proof fn evaluation_is_zero_sum(b: Seq<Option<Piece>>, ep: Option<Square>, color: Color, st: Status)
    ensures
        evaluation(b, ep, color, st) == -evaluation(b, ep, color.other(), st),
{
    lemma_material_mirror(b, color, 64);
    assert(color.other().other() == color);
}

} // verus!
