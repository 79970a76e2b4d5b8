//! Chess rules: board representation, move generation, check detection and
//! game status.
//!
//! The board is a plain array of 64 optional pieces indexed by
//! `rank * 8 + file`. Every function here is pure: it reads a board and
//! returns a new value, leaving rendering and input to the caller.
//!
//! The contracts are stated over `Seq<Option<Piece>>`, the view of the board
//! array, by the spec functions of this module. Move lists are specified as
//! exact sequences, in generation order, because the search in `ai` depends
//! on that order.

use vstd::prelude::*;

verus! {

/// Piece colour.
#[derive(Clone, Copy, PartialEq, Eq, Structural, Debug, Hash)]
pub enum Color {
    White,
    Black,
}

impl Color {
    /// The other colour.
    pub open spec fn other(self) -> Color {
        match self {
            Color::White => Color::Black,
            Color::Black => Color::White,
        }
    }

    /// The other colour.
    #[verifier::when_used_as_spec(other)]
    pub fn opposite(self) -> (c: Color)
        ensures
            c == self.other(),
    {
        match self {
            Color::White => Color::Black,
            Color::Black => Color::White,
        }
    }

    /// Korean display label of the colour.
    pub fn label_ko(self) -> (s: &'static str)
        ensures
            self == Color::White ==> s@ == "백(White)"@,
            self == Color::Black ==> s@ == "흑(Black)"@,
    {
        match self {
            Color::White => "백(White)",
            Color::Black => "흑(Black)",
        }
    }
}

/// Piece kind.
#[derive(Clone, Copy, PartialEq, Eq, Structural, Debug, Hash)]
pub enum Kind {
    Pawn,
    Knight,
    Bishop,
    Rook,
    Queen,
    King,
}

impl Kind {
    /// The letter drawn on a piece of this kind.
    pub fn letter(self) -> (s: &'static str)
        ensures
            self == Kind::Pawn ==> s@ == "P"@,
            self == Kind::Knight ==> s@ == "N"@,
            self == Kind::Bishop ==> s@ == "B"@,
            self == Kind::Rook ==> s@ == "R"@,
            self == Kind::Queen ==> s@ == "Q"@,
            self == Kind::King ==> s@ == "K"@,
    {
        match self {
            Kind::Pawn => "P",
            Kind::Knight => "N",
            Kind::Bishop => "B",
            Kind::Rook => "R",
            Kind::Queen => "Q",
            Kind::King => "K",
        }
    }
}

/// A piece on a square.
#[derive(Clone, Copy, PartialEq, Eq, Structural, Debug)]
pub struct Piece {
    pub color: Color,
    pub kind: Kind,
    /// Whether the piece has moved at least once (castling, double pawn push).
    pub has_moved: bool,
}

impl Piece {
    /// A piece that has not moved yet.
    pub fn new(color: Color, kind: Kind) -> (p: Piece)
        ensures
            p == (Piece { color, kind, has_moved: false }),
    {
        Piece { color, kind, has_moved: false }
    }
}

/// Board coordinate: `file` 0 = a .. 7 = h, `rank` 0 = rank 1 .. 7 = rank 8.
/// White starts on ranks 0 and 1 and moves towards higher ranks.
#[derive(Clone, Copy, PartialEq, Eq, Structural, Debug, Hash)]
pub struct Square {
    pub file: i32,
    pub rank: i32,
}

impl Square {
    /// The square lies on the board.
    pub open spec fn inb(self) -> bool {
        0 <= self.file < 8 && 0 <= self.rank < 8
    }

    /// Position of the square in the board array.
    pub open spec fn idx(self) -> int {
        self.rank * 8 + self.file
    }

    /// The square `(df, dr)` away.
    pub open spec fn shifted(self, df: int, dr: int) -> Square {
        Square { file: (self.file + df) as i32, rank: (self.rank + dr) as i32 }
    }

    /// Small offsets from the square do not overflow `i32`.
    pub open spec fn movable(self) -> bool {
        i32::MIN + 16 <= self.file <= i32::MAX - 16 && i32::MIN + 16 <= self.rank <= i32::MAX - 16
    }

    pub fn new(file: i32, rank: i32) -> (s: Square)
        ensures
            s.file == file,
            s.rank == rank,
    {
        Square { file, rank }
    }

    #[verifier::when_used_as_spec(inb)]
    pub fn in_bounds(self) -> (b: bool)
        ensures
            b == self.inb(),
    {
        0 <= self.file && self.file < 8 && 0 <= self.rank && self.rank < 8
    }

    pub fn index(self) -> (i: usize)
        requires
            i32::MIN <= self.rank * 8 <= i32::MAX,
            i32::MIN <= self.rank * 8 + self.file <= i32::MAX,
        ensures
            i == (self.rank * 8 + self.file) as usize,
    {
        (self.rank * 8 + self.file) as usize
    }

    pub fn offset(self, df: i32, dr: i32) -> (s: Square)
        requires
            i32::MIN <= self.file + df <= i32::MAX,
            i32::MIN <= self.rank + dr <= i32::MAX,
        ensures
            s == self.shifted(df as int, dr as int),
    {
        Square::new(self.file + df, self.rank + dr)
    }
}

/// The 64 squares, indexed by `Square::index()`.
pub type Squares = [Option<Piece>; 64];

/// Special kinds of move.
#[derive(Clone, Copy, PartialEq, Eq, Structural, Debug)]
pub enum MoveFlag {
    Normal,
    /// Pawn advancing two squares (creates an en passant target).
    DoublePawn,
    /// En passant capture.
    EnPassant,
    /// Castling.
    Castle,
    /// Promotion (always to a queen).
    Promotion,
}

/// A move.
#[derive(Clone, Copy, PartialEq, Eq, Structural, Debug)]
pub struct ChessMove {
    pub from: Square,
    pub to: Square,
    pub flag: MoveFlag,
}

/// Progress of the game for the side to move.
#[derive(Clone, Copy, PartialEq, Eq, Structural, Debug)]
pub enum Status {
    Ongoing,
    Check,
    Checkmate { winner: Color },
    Stalemate,
}

// ---------------------------------------------------------------------------
// Model
// ---------------------------------------------------------------------------

/// The square with array index `i`.
pub open spec fn square_of(i: int) -> Square {
    Square { file: (i % 8) as i32, rank: (i / 8) as i32 }
}

/// The content of a square, `None` off the board.
pub open spec fn at(b: Seq<Option<Piece>>, s: Square) -> Option<Piece> {
    if s.inb() {
        b[s.idx()]
    } else {
        None
    }
}

/// `p` is a piece of the given colour and kind.
pub open spec fn holds(p: Option<Piece>, color: Color, kind: Kind) -> bool {
    match p {
        Some(q) => q.color == color && q.kind == kind,
        None => false,
    }
}

/// Rank direction in which pawns of `c` advance.
pub open spec fn pawn_dir(c: Color) -> int {
    if c == Color::White {
        1
    } else {
        -1
    }
}

/// A king-like step direction.
pub open spec fn unit_dir(df: int, dr: int) -> bool {
    -1 <= df <= 1 && -1 <= dr <= 1 && !(df == 0 && dr == 0)
}

/// Steps left before a ray in direction `(df, dr)` leaves the board.
pub open spec fn ray_measure(cur: Square, df: int, dr: int) -> int {
    if df > 0 {
        8 - cur.file
    } else if df < 0 {
        cur.file + 1
    } else if dr > 0 {
        8 - cur.rank
    } else {
        cur.rank + 1
    }
}

/// The first piece met walking from `cur` (included) in direction `(df, dr)`.
pub open spec fn ray_first(b: Seq<Option<Piece>>, cur: Square, df: int, dr: int) -> Option<
    Piece,
>
    decreases ray_measure(cur, df, dr),
{
    if cur.inb() && unit_dir(df, dr) {
        match b[cur.idx()] {
            Some(p) => Some(p),
            None => ray_first(b, cur.shifted(df, dr), df, dr),
        }
    } else {
        None
    }
}

/// The first piece seen from `from` in direction `(df, dr)` has colour `by`
/// and one of `kinds`.
pub open spec fn ray_hit(
    b: Seq<Option<Piece>>,
    from: Square,
    df: int,
    dr: int,
    by: Color,
    kinds: Seq<Kind>,
) -> bool {
    match ray_first(b, from.shifted(df, dr), df, dr) {
        Some(p) => p.color == by && kinds.contains(p.kind),
        None => false,
    }
}

pub const KNIGHT: [(i32, i32); 8] = [
    (1, 2),
    (2, 1),
    (2, -1),
    (1, -2),
    (-1, -2),
    (-2, -1),
    (-2, 1),
    (-1, 2),
];

/// King steps, in the order of a loop over `df` then `dr` in `-1..=1`.
pub const KING_STEPS: [(i32, i32); 8] = [
    (-1, -1),
    (-1, 0),
    (-1, 1),
    (0, -1),
    (0, 1),
    (1, -1),
    (1, 0),
    (1, 1),
];

pub const DIAG: [(i32, i32); 4] = [(1, 1), (1, -1), (-1, 1), (-1, -1)];

pub const ORTHO: [(i32, i32); 4] = [(1, 0), (-1, 0), (0, 1), (0, -1)];

pub open spec fn knight_at(b: Seq<Option<Piece>>, t: Square, by: Color, i: int) -> bool {
    holds(at(b, t.shifted(KNIGHT@[i].0 as int, KNIGHT@[i].1 as int)), by, Kind::Knight)
}

pub open spec fn king_at(b: Seq<Option<Piece>>, t: Square, by: Color, i: int) -> bool {
    holds(at(b, t.shifted(KING_STEPS@[i].0 as int, KING_STEPS@[i].1 as int)), by, Kind::King)
}

pub open spec fn diag_hit(b: Seq<Option<Piece>>, t: Square, by: Color, i: int) -> bool {
    ray_hit(b, t, DIAG@[i].0 as int, DIAG@[i].1 as int, by, seq![Kind::Bishop, Kind::Queen])
}

pub open spec fn ortho_hit(b: Seq<Option<Piece>>, t: Square, by: Color, i: int) -> bool {
    ray_hit(b, t, ORTHO@[i].0 as int, ORTHO@[i].1 as int, by, seq![Kind::Rook, Kind::Queen])
}

/// Square `t` is attacked by a piece of colour `by`.
pub open spec fn attacked(b: Seq<Option<Piece>>, t: Square, by: Color) -> bool {
    ||| holds(at(b, t.shifted(-1, -pawn_dir(by))), by, Kind::Pawn)
    ||| holds(at(b, t.shifted(1, -pawn_dir(by))), by, Kind::Pawn)
    ||| exists|i: int| 0 <= i < 8 && #[trigger] knight_at(b, t, by, i)
    ||| exists|i: int| 0 <= i < 8 && #[trigger] king_at(b, t, by, i)
    ||| exists|i: int| 0 <= i < 4 && #[trigger] diag_hit(b, t, by, i)
    ||| exists|i: int| 0 <= i < 4 && #[trigger] ortho_hit(b, t, by, i)
}

/// The first king of `color` at array index `i` or later.
pub open spec fn first_king_from(b: Seq<Option<Piece>>, color: Color, i: int) -> Option<Square>
    decreases 64 - i,
{
    if i < 0 || i >= 64 {
        None
    } else if holds(b[i], color, Kind::King) {
        Some(square_of(i))
    } else {
        first_king_from(b, color, i + 1)
    }
}

/// The king of `color` (the first one in index order) is attacked.
pub open spec fn in_check(b: Seq<Option<Piece>>, color: Color) -> bool {
    match first_king_from(b, color, 0) {
        Some(k) => attacked(b, k, color.other()),
        None => false,
    }
}

/// The square of the pawn taken by an en passant capture landing on `to`.
pub open spec fn ep_victim(to: Square, color: Color) -> Square {
    Square { file: to.file, rank: (to.rank - pawn_dir(color)) as i32 }
}

/// `mv` can be applied to `b` without leaving the board.
pub open spec fn mv_wf(b: Seq<Option<Piece>>, mv: ChessMove) -> bool {
    &&& mv.from.inb()
    &&& mv.to.inb()
    &&& mv.flag == MoveFlag::EnPassant ==> match b[mv.from.idx()] {
        Some(p) => ep_victim(mv.to, p.color).inb(),
        None => true,
    }
}

pub open spec fn moves_wf(b: Seq<Option<Piece>>, s: Seq<ChessMove>) -> bool {
    forall|k: int| 0 <= k < s.len() ==> #[trigger] mv_wf(b, s[k])
}

/// The piece after it moved.
pub open spec fn moved(p: Piece) -> Piece {
    Piece { color: p.color, kind: p.kind, has_moved: true }
}

/// Board and en passant target after `mv`.
pub open spec fn after(b: Seq<Option<Piece>>, mv: ChessMove) -> (Seq<Option<Piece>>, Option<
    Square,
>) {
    match b[mv.from.idx()] {
        None => (b, None),
        Some(p0) => {
            let p = moved(p0);
            let b1 = b.update(mv.from.idx(), None);
            match mv.flag {
                MoveFlag::EnPassant => (
                    b1.update(ep_victim(mv.to, p.color).idx(), None).update(mv.to.idx(), Some(p)),
                    None,
                ),
                MoveFlag::Castle => {
                    let b2 = b1.update(mv.to.idx(), Some(p));
                    let rook_from = Square { file: if mv.to.file == 6 { 7 } else { 0 }, rank: mv.from.rank };
                    let rook_to = Square { file: if mv.to.file == 6 { 5 } else { 3 }, rank: mv.from.rank };
                    match b2[rook_from.idx()] {
                        Some(r) => (
                            b2.update(rook_from.idx(), None).update(rook_to.idx(), Some(moved(r))),
                            None,
                        ),
                        None => (b2, None),
                    }
                },
                MoveFlag::Promotion => (
                    b1.update(
                        mv.to.idx(),
                        Some(Piece { color: p.color, kind: Kind::Queen, has_moved: true }),
                    ),
                    None,
                ),
                MoveFlag::DoublePawn => (
                    b1.update(mv.to.idx(), Some(p)),
                    Some(Square { file: mv.from.file, rank: (mv.from.rank + pawn_dir(p.color)) as i32 }),
                ),
                MoveFlag::Normal => (b1.update(mv.to.idx(), Some(p)), None),
            }
        },
    }
}

// ---------------------------------------------------------------------------
// Move generation model
// ---------------------------------------------------------------------------

/// A normal move.
pub open spec fn plain(from: Square, to: Square) -> ChessMove {
    ChessMove { from, to, flag: MoveFlag::Normal }
}

/// `p` is a piece of colour `color`.
pub open spec fn own(p: Option<Piece>, color: Color) -> bool {
    match p {
        Some(q) => q.color == color,
        None => false,
    }
}

/// A single step (knight or king): allowed onto an empty square or an enemy.
pub open spec fn step(b: Seq<Option<Piece>>, from: Square, df: int, dr: int, color: Color) -> Seq<
    ChessMove,
> {
    let to = from.shifted(df, dr);
    if to.inb() && !own(b[to.idx()], color) {
        seq![plain(from, to)]
    } else {
        seq![]
    }
}

/// Steps by each offset of `offs`, in order.
pub open spec fn steps(b: Seq<Option<Piece>>, from: Square, color: Color, offs: Seq<(i32, i32)>) -> Seq<
    ChessMove,
>
    decreases offs.len(),
{
    if offs.len() == 0 {
        seq![]
    } else {
        steps(b, from, color, offs.drop_last()) + step(
            b,
            from,
            offs.last().0 as int,
            offs.last().1 as int,
            color,
        )
    }
}

/// Sliding moves of a piece on `from` along the ray that continues at `cur`.
pub open spec fn slide_ray(
    b: Seq<Option<Piece>>,
    from: Square,
    cur: Square,
    df: int,
    dr: int,
    color: Color,
) -> Seq<ChessMove>
    decreases ray_measure(cur, df, dr),
{
    if cur.inb() && unit_dir(df, dr) {
        match b[cur.idx()] {
            None => seq![plain(from, cur)] + slide_ray(b, from, cur.shifted(df, dr), df, dr, color),
            Some(p) => if p.color != color {
                seq![plain(from, cur)]
            } else {
                seq![]
            },
        }
    } else {
        seq![]
    }
}

/// Sliding moves along each direction of `dirs`, in order.
pub open spec fn slides(b: Seq<Option<Piece>>, from: Square, color: Color, dirs: Seq<(i32, i32)>) -> Seq<
    ChessMove,
>
    decreases dirs.len(),
{
    if dirs.len() == 0 {
        seq![]
    } else {
        let (df, dr) = dirs.last();
        slides(b, from, color, dirs.drop_last()) + slide_ray(
            b,
            from,
            from.shifted(df as int, dr as int),
            df as int,
            dr as int,
            color,
        )
    }
}

pub open spec fn start_rank(c: Color) -> int {
    if c == Color::White {
        1
    } else {
        6
    }
}

pub open spec fn promo_rank(c: Color) -> int {
    if c == Color::White {
        7
    } else {
        0
    }
}

/// A pawn move to `to`, turned into a promotion on the last rank.
pub open spec fn pawn_push(from: Square, to: Square, promo: int, flag: MoveFlag) -> Seq<ChessMove> {
    if to.rank == promo {
        seq![ChessMove { from, to, flag: MoveFlag::Promotion }]
    } else {
        seq![ChessMove { from, to, flag }]
    }
}

/// Forward pawn moves: one square, then two from the start rank.
pub open spec fn pawn_advances(b: Seq<Option<Piece>>, from: Square, color: Color) -> Seq<ChessMove> {
    let one = from.shifted(0, pawn_dir(color));
    let two = from.shifted(0, 2 * pawn_dir(color));
    if one.inb() && b[one.idx()] is None {
        pawn_push(from, one, promo_rank(color), MoveFlag::Normal) + if from.rank == start_rank(color)
            && two.inb() && b[two.idx()] is None {
            seq![ChessMove { from, to: two, flag: MoveFlag::DoublePawn }]
        } else {
            seq![]
        }
    } else {
        seq![]
    }
}

/// Diagonal pawn capture towards file offset `df`, en passant included.
pub open spec fn pawn_capture(
    b: Seq<Option<Piece>>,
    ep: Option<Square>,
    from: Square,
    color: Color,
    df: int,
) -> Seq<ChessMove> {
    let to = from.shifted(df, pawn_dir(color));
    if !to.inb() {
        seq![]
    } else {
        match b[to.idx()] {
            Some(p) => if p.color != color {
                pawn_push(from, to, promo_rank(color), MoveFlag::Normal)
            } else {
                seq![]
            },
            None => if ep == Some(to) {
                seq![ChessMove { from, to, flag: MoveFlag::EnPassant }]
            } else {
                seq![]
            },
        }
    }
}

pub open spec fn pawn_moves_of(
    b: Seq<Option<Piece>>,
    ep: Option<Square>,
    from: Square,
    color: Color,
) -> Seq<ChessMove> {
    pawn_advances(b, from, color) + pawn_capture(b, ep, from, color, -1) + pawn_capture(
        b,
        ep,
        from,
        color,
        1,
    )
}

/// The square `(file, rank)`.
pub open spec fn sq(file: int, rank: int) -> Square {
    Square { file: file as i32, rank: rank as i32 }
}

/// An unmoved rook of `color` stands on `at`.
pub open spec fn rook_home(b: Seq<Option<Piece>>, at: Square, color: Color) -> bool {
    b[at.idx()] == Some(Piece { color, kind: Kind::Rook, has_moved: false })
}

pub open spec fn castle_move(from: Square, file: int) -> ChessMove {
    ChessMove { from, to: sq(file, from.rank as int), flag: MoveFlag::Castle }
}

/// Castling moves of an unmoved king on `from` that is not in check: the
/// squares between king and rook are empty and the squares the king crosses
/// are not attacked.
pub open spec fn castles(b: Seq<Option<Piece>>, from: Square, king: Piece) -> Seq<ChessMove> {
    let r = from.rank as int;
    let enemy = king.color.other();
    if king.has_moved || attacked(b, from, enemy) {
        seq![]
    } else {
        (if rook_home(b, sq(7, r), king.color) && b[sq(5, r).idx()] is None && b[sq(
            6,
            r,
        ).idx()] is None && !attacked(b, sq(5, r), enemy) && !attacked(b, sq(6, r), enemy) {
            seq![castle_move(from, 6)]
        } else {
            seq![]
        }) + (if rook_home(b, sq(0, r), king.color) && b[sq(1, r).idx()] is None && b[sq(
            2,
            r,
        ).idx()] is None && b[sq(3, r).idx()] is None && !attacked(b, sq(3, r), enemy) && !attacked(
            b,
            sq(2, r),
            enemy,
        ) {
            seq![castle_move(from, 2)]
        } else {
            seq![]
        })
    }
}

/// Pseudo-legal moves of the piece on `from`, ignoring whether its own king
/// is left in check.
pub open spec fn pseudo_moves(b: Seq<Option<Piece>>, ep: Option<Square>, from: Square) -> Seq<
    ChessMove,
> {
    match at(b, from) {
        None => seq![],
        Some(p) => match p.kind {
            Kind::Pawn => pawn_moves_of(b, ep, from, p.color),
            Kind::Knight => steps(b, from, p.color, KNIGHT@),
            Kind::King => steps(b, from, p.color, KING_STEPS@) + castles(b, from, p),
            Kind::Bishop => slides(b, from, p.color, DIAG@),
            Kind::Rook => slides(b, from, p.color, ORTHO@),
            Kind::Queen => slides(b, from, p.color, DIAG@) + slides(b, from, p.color, ORTHO@),
        },
    }
}

/// The moves of `s` after which the king of `color` is not in check.
pub open spec fn safe_moves(b: Seq<Option<Piece>>, color: Color, s: Seq<ChessMove>) -> Seq<
    ChessMove,
>
    decreases s.len(),
{
    if s.len() == 0 {
        seq![]
    } else {
        let rest = safe_moves(b, color, s.drop_last());
        if in_check(after(b, s.last()).0, color) {
            rest
        } else {
            rest.push(s.last())
        }
    }
}

/// Legal moves of the piece on `from`.
pub open spec fn legal_moves(b: Seq<Option<Piece>>, ep: Option<Square>, from: Square) -> Seq<
    ChessMove,
> {
    match at(b, from) {
        Some(p) => safe_moves(b, p.color, pseudo_moves(b, ep, from)),
        None => seq![],
    }
}

/// Legal moves of the pieces of `color` on array indices below `n`.
pub open spec fn legal_upto(b: Seq<Option<Piece>>, ep: Option<Square>, color: Color, n: int) -> Seq<
    ChessMove,
>
    decreases n,
{
    if n <= 0 {
        seq![]
    } else {
        legal_upto(b, ep, color, n - 1) + if own(b[n - 1], color) {
            legal_moves(b, ep, square_of(n - 1))
        } else {
            seq![]
        }
    }
}

/// All legal moves of `color`, square by square in index order.
pub open spec fn all_legal(b: Seq<Option<Piece>>, ep: Option<Square>, color: Color) -> Seq<
    ChessMove,
> {
    legal_upto(b, ep, color, 64)
}

/// Game status for the side `to_move`.
pub open spec fn status_of(b: Seq<Option<Piece>>, ep: Option<Square>, to_move: Color) -> Status {
    let has_moves = all_legal(b, ep, to_move).len() > 0;
    let check = in_check(b, to_move);
    if has_moves {
        if check {
            Status::Check
        } else {
            Status::Ongoing
        }
    } else if check {
        Status::Checkmate { winner: to_move.other() }
    } else {
        Status::Stalemate
    }
}

// ---------------------------------------------------------------------------
// Board queries
// ---------------------------------------------------------------------------

/// The standard starting position.
pub open spec fn start_position() -> Seq<Option<Piece>> {
    Seq::new(
        64,
        |i: int|
            {
                let file = i % 8;
                let rank = i / 8;
                let back = if file == 0 || file == 7 {
                    Kind::Rook
                } else if file == 1 || file == 6 {
                    Kind::Knight
                } else if file == 2 || file == 5 {
                    Kind::Bishop
                } else if file == 3 {
                    Kind::Queen
                } else {
                    Kind::King
                };
                if rank == 0 {
                    Some(Piece { color: Color::White, kind: back, has_moved: false })
                } else if rank == 1 {
                    Some(Piece { color: Color::White, kind: Kind::Pawn, has_moved: false })
                } else if rank == 6 {
                    Some(Piece { color: Color::Black, kind: Kind::Pawn, has_moved: false })
                } else if rank == 7 {
                    Some(Piece { color: Color::Black, kind: back, has_moved: false })
                } else {
                    None
                }
            },
    )
}

/// Builds the standard chess starting position.
pub fn initial_squares() -> (sq: Squares)
    ensures
        sq@ == start_position(),
{
    let mut sq: Squares = [None;64];
    let back_rank = [
        Kind::Rook,
        Kind::Knight,
        Kind::Bishop,
        Kind::Queen,
        Kind::King,
        Kind::Bishop,
        Kind::Knight,
        Kind::Rook,
    ];
    let mut file: usize = 0;
    while file < 8
        invariant
            file <= 8,
            back_rank@ == seq![
                Kind::Rook,
                Kind::Knight,
                Kind::Bishop,
                Kind::Queen,
                Kind::King,
                Kind::Bishop,
                Kind::Knight,
                Kind::Rook,
            ],
            forall|i: int|
                0 <= i < 64 ==> #[trigger] sq@[i] == (if i % 8 < file {
                    start_position()[i]
                } else {
                    None
                }),
        decreases 8 - file,
    {
        let kind = back_rank[file];
        let f = file as i32;
        sq[Square::new(f, 0).index()] = Some(Piece::new(Color::White, kind));
        sq[Square::new(f, 1).index()] = Some(Piece::new(Color::White, Kind::Pawn));
        sq[Square::new(f, 7).index()] = Some(Piece::new(Color::Black, kind));
        sq[Square::new(f, 6).index()] = Some(Piece::new(Color::Black, Kind::Pawn));
        file += 1;
    }
    sq
}

/// The piece on `sq`, or `None` when `sq` is empty or off the board.
pub fn piece_at(squares: &Squares, sq: Square) -> (p: Option<Piece>)
    ensures
        p == at(squares@, sq),
{
    if sq.in_bounds() {
        squares[sq.index()]
    } else {
        None
    }
}

/// `kinds` holds `k`.
fn kind_among(kinds: &[Kind], k: Kind) -> (r: bool)
    ensures
        r == kinds@.contains(k),
{
    let mut i: usize = 0;
    while i < kinds.len()
        invariant
            i <= kinds@.len(),
            forall|j: int| 0 <= j < i ==> kinds@[j] != k,
        decreases kinds.len() - i,
    {
        if kinds[i] == k {
            return true;
        }
        i += 1;
    }
    false
}

/// Walking from `from` in direction `(df, dr)`, the first piece met has
/// colour `by` and one of `kinds`.
fn ray_hits(squares: &Squares, from: Square, df: i32, dr: i32, by: Color, kinds: &[Kind]) -> (r:
    bool)
    requires
        from.movable(),
        unit_dir(df as int, dr as int),
    ensures
        r == ray_hit(squares@, from, df as int, dr as int, by, kinds@),
{
    let ghost start = from.shifted(df as int, dr as int);
    let mut cur = from.offset(df, dr);
    while cur.in_bounds()
        invariant
            unit_dir(df as int, dr as int),
            start == from.shifted(df as int, dr as int),
            ray_first(squares@, cur, df as int, dr as int) == ray_first(
                squares@,
                start,
                df as int,
                dr as int,
            ),
        decreases ray_measure(cur, df as int, dr as int),
    {
        if let Some(p) = squares[cur.index()] {
            assert(ray_first(squares@, cur, df as int, dr as int) == Some(p));
            let hit = p.color == by && kind_among(kinds, p.kind);
            return hit;
        }
        cur = cur.offset(df, dr);
    }
    false
}

/// Square `target` is attacked by a piece of colour `by` (used for check
/// detection and for the safety of the squares a castling king crosses).
pub fn is_square_attacked(squares: &Squares, target: Square, by: Color) -> (r: bool)
    requires
        target.movable(),
    ensures
        r == attacked(squares@, target, by),
{
    let pawn_dir: i32 = match by {
        Color::White => 1,
        Color::Black => -1,
    };
    if let Some(p) = piece_at(squares, target.offset(-1, -pawn_dir)) {
        if p.color == by && p.kind == Kind::Pawn {
            return true;
        }
    }
    if let Some(p) = piece_at(squares, target.offset(1, -pawn_dir)) {
        if p.color == by && p.kind == Kind::Pawn {
            return true;
        }
    }
    let mut i: usize = 0;
    while i < 8
        invariant
            i <= 8,
            target.movable(),
            forall|j: int| 0 <= j < i ==> !knight_at(squares@, target, by, j),
        decreases 8 - i,
    {
        let (df, dr) = KNIGHT[i];
        if let Some(p) = piece_at(squares, target.offset(df, dr)) {
            if p.color == by && p.kind == Kind::Knight {
                assert(knight_at(squares@, target, by, i as int));
                return true;
            }
        }
        i += 1;
    }
    let mut i: usize = 0;
    while i < 8
        invariant
            i <= 8,
            target.movable(),
            forall|j: int| 0 <= j < i ==> !king_at(squares@, target, by, j),
        decreases 8 - i,
    {
        let (df, dr) = KING_STEPS[i];
        if let Some(p) = piece_at(squares, target.offset(df, dr)) {
            if p.color == by && p.kind == Kind::King {
                assert(king_at(squares@, target, by, i as int));
                return true;
            }
        }
        i += 1;
    }
    let bishop_queen = [Kind::Bishop, Kind::Queen];
    let mut i: usize = 0;
    while i < 4
        invariant
            i <= 4,
            target.movable(),
            bishop_queen@ == seq![Kind::Bishop, Kind::Queen],
            forall|j: int| 0 <= j < i ==> !diag_hit(squares@, target, by, j),
        decreases 4 - i,
    {
        let (df, dr) = DIAG[i];
        if ray_hits(squares, target, df, dr, by, &bishop_queen) {
            assert(diag_hit(squares@, target, by, i as int));
            return true;
        }
        i += 1;
    }
    let rook_queen = [Kind::Rook, Kind::Queen];
    let mut i: usize = 0;
    while i < 4
        invariant
            i <= 4,
            target.movable(),
            rook_queen@ == seq![Kind::Rook, Kind::Queen],
            forall|j: int| 0 <= j < i ==> !ortho_hit(squares@, target, by, j),
        decreases 4 - i,
    {
        let (df, dr) = ORTHO[i];
        if ray_hits(squares, target, df, dr, by, &rook_queen) {
            assert(ortho_hit(squares@, target, by, i as int));
            return true;
        }
        i += 1;
    }
    false
}

/// Square of the king of `color` (the first one in index order).
pub fn find_king(squares: &Squares, color: Color) -> (k: Option<Square>)
    ensures
        k == first_king_from(squares@, color, 0),
        k matches Some(s) ==> s.inb() && holds(squares@[s.idx()], color, Kind::King),
{
    let mut rank: i32 = 0;
    while rank < 8
        invariant
            0 <= rank <= 8,
            first_king_from(squares@, color, 0) == first_king_from(squares@, color, rank * 8),
        decreases 8 - rank,
    {
        let mut file: i32 = 0;
        while file < 8
            invariant
                0 <= rank < 8,
                0 <= file <= 8,
                first_king_from(squares@, color, 0) == first_king_from(
                    squares@,
                    color,
                    rank * 8 + file,
                ),
            decreases 8 - file,
        {
            let s = Square::new(file, rank);
            if let Some(p) = squares[s.index()] {
                if p.color == color && p.kind == Kind::King {
                    assert(square_of(rank * 8 + file) == s);
                    return Some(s);
                }
            }
            file += 1;
        }
        rank += 1;
    }
    None
}

/// The king of `color` is in check.
pub fn is_in_check(squares: &Squares, color: Color) -> (r: bool)
    ensures
        r == in_check(squares@, color),
{
    match find_king(squares, color) {
        Some(king) => is_square_attacked(squares, king, color.opposite()),
        None => false,
    }
}

/// Applies `mv`, returning the new board and the new en passant target; the
/// given board is left unchanged.
pub fn apply_move(squares: &Squares, mv: ChessMove) -> (r: (Squares, Option<Square>))
    requires
        mv_wf(squares@, mv),
    ensures
        r.0@ == after(squares@, mv).0,
        r.1 == after(squares@, mv).1,
{
    let mut next = *squares;
    let mut new_en_passant = None;
    let mut piece = match next[mv.from.index()] {
        Some(p) => p,
        None => return (next, None),
    };
    piece.has_moved = true;
    next[mv.from.index()] = None;
    match mv.flag {
        MoveFlag::EnPassant => {
            let dir: i32 = if piece.color == Color::White {
                1
            } else {
                -1
            };
            let captured = Square::new(mv.to.file, mv.to.rank - dir);
            next[captured.index()] = None;
            next[mv.to.index()] = Some(piece);
        },
        MoveFlag::Castle => {
            next[mv.to.index()] = Some(piece);
            let (rook_from_file, rook_to_file): (i32, i32) = if mv.to.file == 6 {
                (7, 5)
            } else {
                (0, 3)
            };
            let rook_from = Square::new(rook_from_file, mv.from.rank);
            let rook_to = Square::new(rook_to_file, mv.from.rank);
            if let Some(rook) = next[rook_from.index()] {
                let mut rook = rook;
                rook.has_moved = true;
                next[rook_from.index()] = None;
                next[rook_to.index()] = Some(rook);
            }
        },
        MoveFlag::Promotion => {
            piece.kind = Kind::Queen;
            next[mv.to.index()] = Some(piece);
        },
        MoveFlag::DoublePawn => {
            let dir: i32 = if piece.color == Color::White {
                1
            } else {
                -1
            };
            new_en_passant = Some(Square::new(mv.from.file, mv.from.rank + dir));
            next[mv.to.index()] = Some(piece);
        },
        MoveFlag::Normal => {
            next[mv.to.index()] = Some(piece);
        },
    }
    (next, new_en_passant)
}

/// A one-square move (knight or king): allowed onto an empty square or onto
/// an enemy piece.
fn push_step(
    squares: &Squares,
    from: Square,
    df: i32,
    dr: i32,
    color: Color,
    moves: &mut Vec<ChessMove>,
)
    requires
        from.inb(),
        -2 <= df <= 2,
        -2 <= dr <= 2,
        moves_wf(squares@, old(moves)@),
    ensures
        final(moves)@ == old(moves)@ + step(squares@, from, df as int, dr as int, color),
        moves_wf(squares@, final(moves)@),
{
    let to = from.offset(df, dr);
    if !to.in_bounds() {
        return;
    }
    let blocked = match squares[to.index()] {
        Some(p) => p.color == color,
        None => false,
    };
    if !blocked {
        moves.push(ChessMove { from, to, flag: MoveFlag::Normal });
    }
}

/// Sliding moves (bishop, rook, queen) along each direction of `dirs`.
fn slide(
    squares: &Squares,
    from: Square,
    color: Color,
    dirs: &[(i32, i32)],
    moves: &mut Vec<ChessMove>,
)
    requires
        from.inb(),
        forall|i: int| 0 <= i < dirs@.len() ==> unit_dir(#[trigger] dirs@[i].0 as int, dirs@[i].1 as int),
        moves_wf(squares@, old(moves)@),
    ensures
        final(moves)@ == old(moves)@ + slides(squares@, from, color, dirs@),
        moves_wf(squares@, final(moves)@),
{
    let ghost base = moves@;
    let mut i: usize = 0;
    while i < dirs.len()
        invariant
            i <= dirs@.len(),
            from.inb(),
            forall|i: int| 0 <= i < dirs@.len() ==> unit_dir(#[trigger] dirs@[i].0 as int, dirs@[i].1 as int),
            moves@ == base + slides(squares@, from, color, dirs@.take(i as int)),
            moves_wf(squares@, moves@),
        decreases dirs.len() - i,
    {
        let (df, dr) = dirs[i];
        assert(unit_dir(dirs@[i as int].0 as int, dirs@[i as int].1 as int));
        let ghost before = moves@;
        let ghost start = from.shifted(df as int, dr as int);
        let mut to = from.offset(df, dr);
        while to.in_bounds()
            invariant_except_break
                unit_dir(df as int, dr as int),
                from.inb(),
                moves@ + slide_ray(squares@, from, to, df as int, dr as int, color) == before
                    + slide_ray(squares@, from, start, df as int, dr as int, color),
                moves_wf(squares@, moves@),
            ensures
                moves@ == before + slide_ray(squares@, from, start, df as int, dr as int, color),
                moves_wf(squares@, moves@),
            decreases ray_measure(to, df as int, dr as int),
        {
            match squares[to.index()] {
                None => {
                    moves.push(ChessMove { from, to, flag: MoveFlag::Normal });
                    assert(moves@ + slide_ray(squares@, from, to.shifted(df as int, dr as int), df as int, dr as int, color)
                        =~= before + slide_ray(squares@, from, start, df as int, dr as int, color));
                },
                Some(p) => {
                    if p.color != color {
                        moves.push(ChessMove { from, to, flag: MoveFlag::Normal });
                    }
                    assert(moves@ =~= before + slide_ray(squares@, from, start, df as int, dr as int, color));
                    break;
                },
            }
            to = to.offset(df, dr);
        }
        assert(dirs@.take(i + 1).drop_last() =~= dirs@.take(i as int));
        assert(moves@ =~= base + slides(squares@, from, color, dirs@.take(i + 1)));
        i += 1;
    }
    assert(dirs@.take(dirs@.len() as int) =~= dirs@);
}

/// Adds a pawn move to `to`, as a promotion when `to` is on the last rank.
fn push_pawn_forward(
    from: Square,
    to: Square,
    promo_rank: i32,
    flag: MoveFlag,
    moves: &mut Vec<ChessMove>,
)
    ensures
        final(moves)@ == old(moves)@ + pawn_push(from, to, promo_rank as int, flag),
{
    if to.rank == promo_rank {
        moves.push(ChessMove { from, to, flag: MoveFlag::Promotion });
    } else {
        moves.push(ChessMove { from, to, flag });
    }
}

/// Pawn pushes and captures, en passant included.
fn pawn_moves(
    squares: &Squares,
    en_passant: Option<Square>,
    from: Square,
    piece: Piece,
    moves: &mut Vec<ChessMove>,
)
    requires
        from.inb(),
        squares@[from.idx()] == Some(piece),
        moves_wf(squares@, old(moves)@),
    ensures
        final(moves)@ == old(moves)@ + pawn_moves_of(squares@, en_passant, from, piece.color),
        moves_wf(squares@, final(moves)@),
{
    let ghost b = squares@;
    let ghost base = moves@;
    let dir: i32 = if piece.color == Color::White {
        1
    } else {
        -1
    };
    let start_rank: i32 = if piece.color == Color::White {
        1
    } else {
        6
    };
    let promo_rank: i32 = if piece.color == Color::White {
        7
    } else {
        0
    };
    let one = from.offset(0, dir);
    if one.in_bounds() {
        if squares[one.index()].is_none() {
            push_pawn_forward(from, one, promo_rank, MoveFlag::Normal, moves);
            let two = from.offset(0, dir * 2);
            if from.rank == start_rank && two.in_bounds() {
                if squares[two.index()].is_none() {
                    moves.push(ChessMove { from, to: two, flag: MoveFlag::DoublePawn });
                }
            }
        }
    }
    assert(moves@ =~= base + pawn_advances(b, from, piece.color));
    let ghost mid = moves@;
    let mut k: usize = 0;
    while k < 2
        invariant
            k <= 2,
            from.inb(),
            squares@[from.idx()] == Some(piece),
            dir as int == pawn_dir(piece.color),
            promo_rank as int == self::promo_rank(piece.color),
            moves_wf(squares@, moves@),
            k == 0 ==> moves@ == mid,
            k == 1 ==> moves@ == mid + pawn_capture(b, en_passant, from, piece.color, -1),
            k == 2 ==> moves@ == mid + pawn_capture(b, en_passant, from, piece.color, -1)
                + pawn_capture(b, en_passant, from, piece.color, 1),
            b == squares@,
        decreases 2 - k,
    {
        let df: i32 = if k == 0 {
            -1
        } else {
            1
        };
        let ghost prev = moves@;
        let to = from.offset(df, dir);
        if to.in_bounds() {
            match squares[to.index()] {
                Some(p) => {
                    if p.color != piece.color {
                        push_pawn_forward(from, to, promo_rank, MoveFlag::Normal, moves);
                    }
                },
                None => {
                    match en_passant {
                        Some(ep) => {
                            if ep == to {
                                moves.push(ChessMove { from, to, flag: MoveFlag::EnPassant });
                            }
                        },
                        None => {},
                    }
                },
            }
        }
        assert(moves@ =~= prev + pawn_capture(b, en_passant, from, piece.color, df as int));
        k += 1;
    }
}

/// An unmoved rook of `color` stands on `at`.
fn rook_unmoved(squares: &Squares, at: Square, color: Color) -> (r: bool)
    requires
        at.inb(),
    ensures
        r == rook_home(squares@, at, color),
{
    match squares[at.index()] {
        Some(p) => p.kind == Kind::Rook && p.color == color && !p.has_moved,
        None => false,
    }
}

/// Castling moves of the king `king` standing on `from`.
fn castling_moves(squares: &Squares, from: Square, king: Piece, moves: &mut Vec<ChessMove>)
    requires
        from.inb(),
        moves_wf(squares@, old(moves)@),
    ensures
        final(moves)@ == old(moves)@ + castles(squares@, from, king),
        moves_wf(squares@, final(moves)@),
{
    if king.has_moved {
        return;
    }
    if is_square_attacked(squares, from, king.color.opposite()) {
        return;
    }
    let ghost base = moves@;
    let rank = from.rank;
    let enemy = king.color.opposite();
    let f5_empty = squares[Square::new(5, rank).index()].is_none();
    let f6_empty = squares[Square::new(6, rank).index()].is_none();
    if rook_unmoved(squares, Square::new(7, rank), king.color) && f5_empty && f6_empty
        && !is_square_attacked(squares, Square::new(5, rank), enemy) && !is_square_attacked(
        squares,
        Square::new(6, rank),
        enemy,
    ) {
        moves.push(ChessMove { from, to: Square::new(6, rank), flag: MoveFlag::Castle });
    }
    let f1_empty = squares[Square::new(1, rank).index()].is_none();
    let f2_empty = squares[Square::new(2, rank).index()].is_none();
    let f3_empty = squares[Square::new(3, rank).index()].is_none();
    if rook_unmoved(squares, Square::new(0, rank), king.color) && f1_empty && f2_empty && f3_empty
        && !is_square_attacked(squares, Square::new(3, rank), enemy) && !is_square_attacked(
        squares,
        Square::new(2, rank),
        enemy,
    ) {
        moves.push(ChessMove { from, to: Square::new(2, rank), flag: MoveFlag::Castle });
    }
    assert(moves@ =~= base + castles(squares@, from, king));
}

/// Pseudo-legal moves of the piece on `from` (own king safety not checked).
fn pseudo_moves_from(squares: &Squares, en_passant: Option<Square>, from: Square) -> (moves: Vec<
    ChessMove,
>)
    ensures
        moves@ == pseudo_moves(squares@, en_passant, from),
        moves_wf(squares@, moves@),
{
    let piece = match piece_at(squares, from) {
        Some(p) => p,
        None => return Vec::new(),
    };
    let mut moves: Vec<ChessMove> = Vec::new();
    match piece.kind {
        Kind::Pawn => pawn_moves(squares, en_passant, from, piece, &mut moves),
        Kind::Knight => {
            let mut i: usize = 0;
            while i < 8
                invariant
                    i <= 8,
                    from.inb(),
                    moves@ == steps(squares@, from, piece.color, KNIGHT@.take(i as int)),
                    moves_wf(squares@, moves@),
                decreases 8 - i,
            {
                let (df, dr) = KNIGHT[i];
                push_step(squares, from, df, dr, piece.color, &mut moves);
                assert(KNIGHT@.take(i + 1).drop_last() =~= KNIGHT@.take(i as int));
                i += 1;
            }
            assert(KNIGHT@.take(8) =~= KNIGHT@);
        },
        Kind::King => {
            let mut i: usize = 0;
            while i < 8
                invariant
                    i <= 8,
                    from.inb(),
                    moves@ == steps(squares@, from, piece.color, KING_STEPS@.take(i as int)),
                    moves_wf(squares@, moves@),
                decreases 8 - i,
            {
                let (df, dr) = KING_STEPS[i];
                push_step(squares, from, df, dr, piece.color, &mut moves);
                assert(KING_STEPS@.take(i + 1).drop_last() =~= KING_STEPS@.take(i as int));
                i += 1;
            }
            assert(KING_STEPS@.take(8) =~= KING_STEPS@);
            castling_moves(squares, from, piece, &mut moves);
        },
        Kind::Bishop => slide(squares, from, piece.color, &DIAG, &mut moves),
        Kind::Rook => slide(squares, from, piece.color, &ORTHO, &mut moves),
        Kind::Queen => {
            slide(squares, from, piece.color, &DIAG, &mut moves);
            slide(squares, from, piece.color, &ORTHO, &mut moves);
        },
    }
    assert(moves@ =~= pseudo_moves(squares@, en_passant, from));
    moves
}

/// Legal moves of the piece on `from`: its pseudo-legal moves after which its
/// own king is not in check.
pub fn legal_moves_from(squares: &Squares, en_passant: Option<Square>, from: Square) -> (moves: Vec<
    ChessMove,
>)
    ensures
        moves@ == legal_moves(squares@, en_passant, from),
        moves_wf(squares@, moves@),
{
    let piece = match piece_at(squares, from) {
        Some(p) => p,
        None => return Vec::new(),
    };
    let pseudo = pseudo_moves_from(squares, en_passant, from);
    let mut moves: Vec<ChessMove> = Vec::new();
    let mut i: usize = 0;
    while i < pseudo.len()
        invariant
            i <= pseudo@.len(),
            pseudo@ == pseudo_moves(squares@, en_passant, from),
            moves_wf(squares@, pseudo@),
            moves@ == safe_moves(squares@, piece.color, pseudo@.take(i as int)),
            moves_wf(squares@, moves@),
        decreases pseudo.len() - i,
    {
        let mv = pseudo[i];
        assert(mv_wf(squares@, pseudo@[i as int]));
        let (next, _) = apply_move(squares, mv);
        if !is_in_check(&next, piece.color) {
            moves.push(mv);
        }
        assert(pseudo@.take(i + 1).drop_last() =~= pseudo@.take(i as int));
        i += 1;
    }
    assert(pseudo@.take(pseudo@.len() as int) =~= pseudo@);
    moves
}

/// All legal moves of `color`, square by square in index order.
pub fn all_legal_moves(squares: &Squares, en_passant: Option<Square>, color: Color) -> (moves: Vec<
    ChessMove,
>)
    ensures
        moves@ == all_legal(squares@, en_passant, color),
        moves_wf(squares@, moves@),
{
    let mut moves: Vec<ChessMove> = Vec::new();
    let mut rank: i32 = 0;
    while rank < 8
        invariant
            0 <= rank <= 8,
            moves@ == legal_upto(squares@, en_passant, color, rank * 8),
            moves_wf(squares@, moves@),
        decreases 8 - rank,
    {
        let mut file: i32 = 0;
        while file < 8
            invariant
                0 <= rank < 8,
                0 <= file <= 8,
                moves@ == legal_upto(squares@, en_passant, color, rank * 8 + file),
                moves_wf(squares@, moves@),
            decreases 8 - file,
        {
            let s = Square::new(file, rank);
            assert(square_of(rank * 8 + file) == s);
            if let Some(p) = squares[s.index()] {
                if p.color == color {
                    let mut more = legal_moves_from(squares, en_passant, s);
                    moves.append(&mut more);
                }
            }
            assert(moves@ =~= legal_upto(squares@, en_passant, color, rank * 8 + file + 1));
            file += 1;
        }
        rank += 1;
    }
    moves
}

/// Game status for the side `to_move`, after the previous move.
pub fn status_for(squares: &Squares, en_passant: Option<Square>, to_move: Color) -> (st: Status)
    ensures
        st == status_of(squares@, en_passant, to_move),
{
    let has_moves = !all_legal_moves(squares, en_passant, to_move).is_empty();
    let in_check = is_in_check(squares, to_move);
    if has_moves {
        if in_check {
            Status::Check
        } else {
            Status::Ongoing
        }
    } else if in_check {
        Status::Checkmate { winner: to_move.opposite() }
    } else {
        Status::Stalemate
    }
}

// ---------------------------------------------------------------------------
// Laws
// ---------------------------------------------------------------------------

proof fn lemma_safe_moves(b: Seq<Option<Piece>>, color: Color, s: Seq<ChessMove>)
    ensures
        forall|mv: ChessMove| #[trigger]
            safe_moves(b, color, s).contains(mv) ==> s.contains(mv) && !in_check(after(b, mv).0, color),
    decreases s.len(),
{
    if s.len() > 0 {
        let t = s.drop_last();
        lemma_safe_moves(b, color, t);
        let rest = safe_moves(b, color, t);
        assert forall|mv: ChessMove| #[trigger]
            safe_moves(b, color, s).contains(mv) implies s.contains(mv) && !in_check(after(b, mv).0, color) by {
            if rest.contains(mv) {
                let j = choose|j: int| 0 <= j < t.len() && t[j] == mv;
                assert(s[j] == mv);
            } else {
                let r = safe_moves(b, color, s);
                let j = choose|j: int| 0 <= j < r.len() && r[j] == mv;
                if j < rest.len() {
                    assert(rest[j] == mv);
                }
                assert(mv == s.last());
                assert(s[s.len() - 1] == mv);
            }
        }
    }
}

proof fn lemma_legal_upto(b: Seq<Option<Piece>>, ep: Option<Square>, color: Color, n: int)
    requires
        n <= 64,
    ensures
        forall|mv: ChessMove| #[trigger]
            legal_upto(b, ep, color, n).contains(mv) ==> !in_check(after(b, mv).0, color),
    decreases n,
{
    if n > 0 {
        lemma_legal_upto(b, ep, color, n - 1);
        let rest = legal_upto(b, ep, color, n - 1);
        let sq = square_of(n - 1);
        assert(sq.inb() && sq.idx() == n - 1);
        assert forall|mv: ChessMove| #[trigger]
            legal_upto(b, ep, color, n).contains(mv) implies !in_check(after(b, mv).0, color) by {
            let all = legal_upto(b, ep, color, n);
            let j = choose|j: int| 0 <= j < all.len() && all[j] == mv;
            if j < rest.len() {
                assert(rest[j] == mv);
                assert(rest.contains(mv));
            } else {
                let p = b[n - 1]->0;
                let chunk = safe_moves(b, p.color, pseudo_moves(b, ep, sq));
                lemma_safe_moves(b, p.color, pseudo_moves(b, ep, sq));
                assert(chunk[j - rest.len()] == mv);
                assert(chunk.contains(mv));
            }
        }
    }
}

/// Law: a legal move never leaves the mover's own king in check.
pub proof fn legal_moves_keep_king_safe(
    b: Seq<Option<Piece>>,
    ep: Option<Square>,
    color: Color,
    mv: ChessMove,
)
    requires
        all_legal(b, ep, color).contains(mv),
    ensures
        !in_check(after(b, mv).0, color),
{
    lemma_legal_upto(b, ep, color, 64);
}

/// Law: the legal moves from a square are among all legal moves of the
/// colour of the piece standing there.
pub proof fn legal_moves_from_square_are_legal(
    b: Seq<Option<Piece>>,
    ep: Option<Square>,
    from: Square,
    mv: ChessMove,
)
    requires
        b.len() == 64,
        legal_moves(b, ep, from).contains(mv),
    ensures
        at(b, from) is Some,
        all_legal(b, ep, at(b, from)->0.color).contains(mv),
{
    let p = at(b, from)->0;
    lemma_legal_upto_contains(b, ep, p.color, from.idx() + 1, 64, from);
    let all = all_legal(b, ep, p.color);
    let chunk = legal_moves(b, ep, from);
    let j = choose|j: int| 0 <= j < chunk.len() && chunk[j] == mv;
    assert(square_of(from.idx()) == from);
    let pre = legal_upto(b, ep, p.color, from.idx());
    assert(legal_upto(b, ep, p.color, from.idx() + 1) == pre + chunk);
    assert((pre + chunk)[pre.len() + j] == mv);
    let k = pre.len() + j;
    assert(all[k] == mv);
}

/// Later prefixes extend earlier ones.
proof fn lemma_legal_upto_contains(
    b: Seq<Option<Piece>>,
    ep: Option<Square>,
    color: Color,
    m: int,
    n: int,
    from: Square,
)
    requires
        0 <= m <= n,
    ensures
        legal_upto(b, ep, color, n).len() >= legal_upto(b, ep, color, m).len(),
        forall|k: int|
            0 <= k < legal_upto(b, ep, color, m).len() ==> #[trigger] legal_upto(b, ep, color, n)[k]
                == legal_upto(b, ep, color, m)[k],
    decreases n - m,
{
    if n > m {
        lemma_legal_upto_contains(b, ep, color, m, n - 1, from);
    }
}

/// `mv` starts on `from` and ends on the board, on a square without a piece
/// of `color`.
pub open spec fn lands(b: Seq<Option<Piece>>, from: Square, color: Color, mv: ChessMove) -> bool {
    &&& mv.from == from
    &&& mv.to.inb()
    &&& !own(b[mv.to.idx()], color)
}

/// Every move of `s` lands as `lands` says.
pub open spec fn all_land(b: Seq<Option<Piece>>, from: Square, color: Color, s: Seq<ChessMove>) -> bool {
    forall|k: int| 0 <= k < s.len() ==> #[trigger] lands(b, from, color, s[k])
}

proof fn lemma_land_concat(
    b: Seq<Option<Piece>>,
    from: Square,
    color: Color,
    a: Seq<ChessMove>,
    c: Seq<ChessMove>,
)
    requires
        all_land(b, from, color, a),
        all_land(b, from, color, c),
    ensures
        all_land(b, from, color, a + c),
{
    assert forall|k: int| 0 <= k < (a + c).len() implies #[trigger] lands(b, from, color, (a + c)[k]) by {
        if k < a.len() {
            assert(lands(b, from, color, a[k]));
        } else {
            assert(lands(b, from, color, c[k - a.len()]));
        }
    }
}

proof fn lemma_steps_land(b: Seq<Option<Piece>>, from: Square, color: Color, offs: Seq<(i32, i32)>)
    ensures
        all_land(b, from, color, steps(b, from, color, offs)),
    decreases offs.len(),
{
    if offs.len() > 0 {
        lemma_steps_land(b, from, color, offs.drop_last());
        let c = step(b, from, offs.last().0 as int, offs.last().1 as int, color);
        assert(all_land(b, from, color, c));
        lemma_land_concat(b, from, color, steps(b, from, color, offs.drop_last()), c);
    }
}

proof fn lemma_ray_land(
    b: Seq<Option<Piece>>,
    from: Square,
    cur: Square,
    df: int,
    dr: int,
    color: Color,
)
    ensures
        all_land(b, from, color, slide_ray(b, from, cur, df, dr, color)),
    decreases ray_measure(cur, df, dr),
{
    if cur.inb() && unit_dir(df, dr) {
        if b[cur.idx()] is None {
            lemma_ray_land(b, from, cur.shifted(df, dr), df, dr, color);
            let a: Seq<ChessMove> = seq![plain(from, cur)];
            assert(all_land(b, from, color, a));
            lemma_land_concat(b, from, color, a, slide_ray(b, from, cur.shifted(df, dr), df, dr, color));
        }
    }
}

proof fn lemma_slides_land(b: Seq<Option<Piece>>, from: Square, color: Color, dirs: Seq<(i32, i32)>)
    ensures
        all_land(b, from, color, slides(b, from, color, dirs)),
    decreases dirs.len(),
{
    if dirs.len() > 0 {
        let (df, dr) = dirs.last();
        lemma_slides_land(b, from, color, dirs.drop_last());
        lemma_ray_land(b, from, from.shifted(df as int, dr as int), df as int, dr as int, color);
        lemma_land_concat(
            b,
            from,
            color,
            slides(b, from, color, dirs.drop_last()),
            slide_ray(b, from, from.shifted(df as int, dr as int), df as int, dr as int, color),
        );
    }
}

proof fn lemma_pawn_land(b: Seq<Option<Piece>>, ep: Option<Square>, from: Square, color: Color)
    ensures
        all_land(b, from, color, pawn_moves_of(b, ep, from, color)),
{
    let adv = pawn_advances(b, from, color);
    let one = from.shifted(0, pawn_dir(color));
    if one.inb() && b[one.idx()] is None {
        let tail: Seq<ChessMove> = if from.rank == start_rank(color) && from.shifted(
            0,
            2 * pawn_dir(color),
        ).inb() && b[from.shifted(0, 2 * pawn_dir(color)).idx()] is None {
            seq![ChessMove { from, to: from.shifted(0, 2 * pawn_dir(color)), flag: MoveFlag::DoublePawn }]
        } else {
            seq![]
        };
        let head = pawn_push(from, one, promo_rank(color), MoveFlag::Normal);
        assert(all_land(b, from, color, head));
        assert(all_land(b, from, color, tail));
        lemma_land_concat(b, from, color, head, tail);
    }
    let l = pawn_capture(b, ep, from, color, -1);
    let r = pawn_capture(b, ep, from, color, 1);
    assert(all_land(b, from, color, l));
    assert(all_land(b, from, color, r));
    lemma_land_concat(b, from, color, adv, l);
    lemma_land_concat(b, from, color, adv + l, r);
}

proof fn lemma_castles_land(b: Seq<Option<Piece>>, from: Square, king: Piece)
    requires
        from.inb(),
    ensures
        all_land(b, from, king.color, castles(b, from, king)),
{
    let r = from.rank as int;
    let enemy = king.color.other();
    if !(king.has_moved || attacked(b, from, enemy)) {
        let short: Seq<ChessMove> = if rook_home(b, sq(7, r), king.color) && b[sq(5, r).idx()] is None
            && b[sq(6, r).idx()] is None && !attacked(b, sq(5, r), enemy) && !attacked(b, sq(6, r), enemy) {
            seq![castle_move(from, 6)]
        } else {
            seq![]
        };
        let long: Seq<ChessMove> = if rook_home(b, sq(0, r), king.color) && b[sq(1, r).idx()] is None
            && b[sq(2, r).idx()] is None && b[sq(3, r).idx()] is None && !attacked(b, sq(3, r), enemy)
            && !attacked(b, sq(2, r), enemy) {
            seq![castle_move(from, 2)]
        } else {
            seq![]
        };
        assert(all_land(b, from, king.color, short));
        assert(all_land(b, from, king.color, long));
        lemma_land_concat(b, from, king.color, short, long);
        assert(castles(b, from, king) == short + long);
    }
}

proof fn lemma_pseudo_land(b: Seq<Option<Piece>>, ep: Option<Square>, from: Square)
    requires
        at(b, from) is Some,
    ensures
        all_land(b, from, at(b, from)->0.color, pseudo_moves(b, ep, from)),
{
    let p = at(b, from)->0;
    match p.kind {
        Kind::Pawn => lemma_pawn_land(b, ep, from, p.color),
        Kind::Knight => lemma_steps_land(b, from, p.color, KNIGHT@),
        Kind::King => {
            lemma_steps_land(b, from, p.color, KING_STEPS@);
            lemma_castles_land(b, from, p);
            lemma_land_concat(b, from, p.color, steps(b, from, p.color, KING_STEPS@), castles(b, from, p));
        },
        Kind::Bishop => lemma_slides_land(b, from, p.color, DIAG@),
        Kind::Rook => lemma_slides_land(b, from, p.color, ORTHO@),
        Kind::Queen => {
            lemma_slides_land(b, from, p.color, DIAG@);
            lemma_slides_land(b, from, p.color, ORTHO@);
            lemma_land_concat(
                b,
                from,
                p.color,
                slides(b, from, p.color, DIAG@),
                slides(b, from, p.color, ORTHO@),
            );
        },
    }
}

/// Law: a legal move of the piece on `from` starts there, ends on the board
/// on a square that holds no piece of its own colour, and leaves its own king
/// out of check; an empty square has no legal moves.
pub proof fn legal_moves_from_land(
    b: Seq<Option<Piece>>,
    ep: Option<Square>,
    from: Square,
    mv: ChessMove,
)
    requires
        legal_moves(b, ep, from).contains(mv),
    ensures
        at(b, from) is Some,
        mv.from == from,
        mv.to.inb(),
        !own(b[mv.to.idx()], at(b, from)->0.color),
        !in_check(after(b, mv).0, at(b, from)->0.color),
{
    let p = at(b, from)->0;
    let ps = pseudo_moves(b, ep, from);
    lemma_safe_moves(b, p.color, ps);
    lemma_pseudo_land(b, ep, from);
    let j = choose|j: int| 0 <= j < ps.len() && ps[j] == mv;
    assert(lands(b, from, p.color, ps[j]));
}

proof fn lemma_upto_shape(b: Seq<Option<Piece>>, ep: Option<Square>, color: Color, n: int)
    requires
        0 <= n <= 64,
    ensures
        forall|k: int|
            0 <= k < legal_upto(b, ep, color, n).len() ==> {
                let mv = #[trigger] legal_upto(b, ep, color, n)[k];
                &&& 0 <= mv.from.idx() < n
                &&& mv.from.inb()
                &&& own(b[mv.from.idx()], color)
                &&& legal_moves(b, ep, mv.from).contains(mv)
            },
        forall|j: int, k: int|
            0 <= j < k < legal_upto(b, ep, color, n).len() ==> (#[trigger] legal_upto(b, ep, color, n)[j]).from.idx()
                <= (#[trigger] legal_upto(b, ep, color, n)[k]).from.idx(),
    decreases n,
{
    if n > 0 {
        lemma_upto_shape(b, ep, color, n - 1);
        let rest = legal_upto(b, ep, color, n - 1);
        let all = legal_upto(b, ep, color, n);
        let s = square_of(n - 1);
        assert(s.inb() && s.idx() == n - 1);
        if own(b[n - 1], color) {
            let chunk = legal_moves(b, ep, s);
            assert(all == rest + chunk);
            assert forall|k: int| rest.len() <= k < all.len() implies {
                let mv = #[trigger] all[k];
                &&& mv.from == s
                &&& legal_moves(b, ep, mv.from).contains(mv)
            } by {
                assert(all[k] == chunk[k - rest.len()]);
                assert(chunk.contains(chunk[k - rest.len()]));
                legal_moves_from_land(b, ep, s, chunk[k - rest.len()]);
            }
            assert forall|k: int| 0 <= k < rest.len() implies #[trigger] all[k] == rest[k] by {}
        } else {
            assert(all =~= rest);
        }
    }
}

/// Law: a move is among all legal moves of `color` exactly when a piece of
/// `color` stands on its start square and the move is among that piece's
/// legal moves; the moves come grouped by start square, in board order.
pub proof fn all_legal_moves_by_square(
    b: Seq<Option<Piece>>,
    ep: Option<Square>,
    color: Color,
    mv: ChessMove,
)
    requires
        b.len() == 64,
    ensures
        all_legal(b, ep, color).contains(mv) <==> (own(at(b, mv.from), color) && legal_moves(
            b,
            ep,
            mv.from,
        ).contains(mv)),
        forall|j: int, k: int|
            0 <= j < k < all_legal(b, ep, color).len() ==> (#[trigger] all_legal(b, ep, color)[j]).from.idx()
                <= (#[trigger] all_legal(b, ep, color)[k]).from.idx(),
{
    lemma_upto_shape(b, ep, color, 64);
    let all = all_legal(b, ep, color);
    if all.contains(mv) {
        let k = choose|k: int| 0 <= k < all.len() && all[k] == mv;
        assert(all[k] == mv);
    }
    if own(at(b, mv.from), color) && legal_moves(b, ep, mv.from).contains(mv) {
        legal_moves_from_square_are_legal(b, ep, mv.from, mv);
    }
}

proof fn lemma_nodup_concat(a: Seq<ChessMove>, c: Seq<ChessMove>)
    requires
        a.no_duplicates(),
        c.no_duplicates(),
        a.disjoint(c),
    ensures
        (a + c).no_duplicates(),
{
    let s = a + c;
    assert forall|i: int, j: int| 0 <= i < s.len() && 0 <= j < s.len() && i != j implies s[i] != s[j] by {
        if i < a.len() && j < a.len() {
            assert(a[i] != a[j]);
        } else if i >= a.len() && j >= a.len() {
            assert(c[i - a.len()] != c[j - a.len()]);
        } else if i < a.len() {
            assert(a[i] != c[j - a.len()]);
        } else {
            assert(a[j] != c[i - a.len()]);
        }
    }
}

proof fn lemma_safe_nodup(b: Seq<Option<Piece>>, color: Color, s: Seq<ChessMove>)
    requires
        s.no_duplicates(),
    ensures
        safe_moves(b, color, s).no_duplicates(),
    decreases s.len(),
{
    if s.len() > 0 {
        let t = s.drop_last();
        assert(t.no_duplicates()) by {
            assert forall|i: int, j: int| 0 <= i < t.len() && 0 <= j < t.len() && i != j implies t[i] != t[j] by {
                assert(s[i] != s[j]);
            }
        }
        lemma_safe_nodup(b, color, t);
        lemma_safe_moves(b, color, t);
        let rest = safe_moves(b, color, t);
        if !in_check(after(b, s.last()).0, color) {
            if rest.contains(s.last()) {
                let j = choose|j: int| 0 <= j < t.len() && t[j] == s.last();
                assert(s[j] == s[s.len() - 1]);
            }
            assert forall|i: int, j: int|
                0 <= i < rest.push(s.last()).len() && 0 <= j < rest.push(s.last()).len() && i != j implies rest.push(
                s.last(),
            )[i] != rest.push(s.last())[j] by {
                if i < rest.len() && j < rest.len() {
                    assert(rest[i] != rest[j]);
                } else if i < rest.len() {
                    assert(rest.contains(rest[i]));
                } else if j < rest.len() {
                    assert(rest.contains(rest[j]));
                }
            }
        }
    }
}

/// `to` is `from` moved by one of the offsets of `offs`.
pub open spec fn off_target(from: Square, to: Square, offs: Seq<(i32, i32)>) -> bool {
    exists|i: int| 0 <= i < offs.len() && to == from.shifted(#[trigger] offs[i].0 as int, offs[i].1 as int)
}

/// The offsets are small and pairwise different.
pub open spec fn offsets_ok(offs: Seq<(i32, i32)>) -> bool {
    &&& forall|i: int| 0 <= i < offs.len() ==> -2 <= #[trigger] offs[i].0 <= 2 && -2 <= offs[i].1 <= 2
    &&& forall|i: int, j: int| 0 <= i < j < offs.len() ==> #[trigger] offs[i] != #[trigger] offs[j]
}

proof fn lemma_steps_nodup(b: Seq<Option<Piece>>, from: Square, color: Color, offs: Seq<(i32, i32)>)
    requires
        from.inb(),
        offsets_ok(offs),
    ensures
        steps(b, from, color, offs).no_duplicates(),
        forall|k: int|
            0 <= k < steps(b, from, color, offs).len() ==> off_target(
                from,
                (#[trigger] steps(b, from, color, offs)[k]).to,
                offs,
            ) && steps(b, from, color, offs)[k].flag == MoveFlag::Normal,
    decreases offs.len(),
{
    if offs.len() > 0 {
        let t = offs.drop_last();
        assert(offsets_ok(t)) by {
            assert forall|i: int| 0 <= i < t.len() implies -2 <= #[trigger] t[i].0 <= 2 && -2 <= t[i].1 <= 2 by {
                assert(t[i] == offs[i]);
            }
            assert forall|i: int, j: int| 0 <= i < j < t.len() implies #[trigger] t[i] != #[trigger] t[j] by {
                assert(offs[i] != offs[j]);
            }
        }
        lemma_steps_nodup(b, from, color, t);
        let a = steps(b, from, color, t);
        let l = offs.last();
        let c = step(b, from, l.0 as int, l.1 as int, color);
        let n = offs.len() - 1;
        assert(offs[n] == l);
        assert(a.disjoint(c)) by {
            assert forall|i: int, j: int| 0 <= i < a.len() && 0 <= j < c.len() implies a[i] != c[j] by {
                assert(off_target(from, a[i].to, t));
                let q = choose|q: int| 0 <= q < t.len() && a[i].to == from.shifted(#[trigger] t[q].0 as int, t[q].1 as int);
                assert(t[q] == offs[q]);
                assert(offs[q] != offs[n]);
            }
        }
        lemma_nodup_concat(a, c);
        let s = a + c;
        assert forall|k: int| 0 <= k < s.len() implies off_target(from, (#[trigger] s[k]).to, offs) && s[k].flag
            == MoveFlag::Normal by {
            if k < a.len() {
                assert(s[k] == a[k]);
                assert(off_target(from, a[k].to, t));
                let q = choose|q: int| 0 <= q < t.len() && a[k].to == from.shifted(#[trigger] t[q].0 as int, t[q].1 as int);
                assert(t[q] == offs[q]);
            } else {
                assert(s[k] == c[k - a.len()]);
                assert(s[k].to == from.shifted(offs[n].0 as int, offs[n].1 as int));
            }
        }
    }
}

/// `k` steps of size `d`, for `d` in `-1..=1`.
pub open spec fn scale(k: int, d: int) -> int {
    if d > 0 {
        k
    } else if d < 0 {
        -k
    } else {
        0
    }
}

/// `to` lies on the ray that starts at `cur` (included) in direction `(df, dr)`.
pub open spec fn on_ray(cur: Square, to: Square, df: int, dr: int) -> bool {
    exists|k: int| k >= 0 && #[trigger] scale(k, df) == to.file - cur.file && scale(k, dr) == to.rank - cur.rank
}

proof fn lemma_ray_nodup(
    b: Seq<Option<Piece>>,
    from: Square,
    cur: Square,
    df: int,
    dr: int,
    color: Color,
)
    ensures
        slide_ray(b, from, cur, df, dr, color).no_duplicates(),
        forall|k: int|
            0 <= k < slide_ray(b, from, cur, df, dr, color).len() ==> on_ray(
                cur,
                (#[trigger] slide_ray(b, from, cur, df, dr, color)[k]).to,
                df,
                dr,
            ),
    decreases ray_measure(cur, df, dr),
{
    let s = slide_ray(b, from, cur, df, dr, color);
    if cur.inb() && unit_dir(df, dr) {
        assert(scale(0, df) == 0 && scale(0, dr) == 0);
        if b[cur.idx()] is None {
            let nxt = cur.shifted(df, dr);
            lemma_ray_nodup(b, from, nxt, df, dr, color);
            let a: Seq<ChessMove> = seq![plain(from, cur)];
            let c = slide_ray(b, from, nxt, df, dr, color);
            assert forall|k: int| 0 <= k < c.len() implies on_ray(cur, (#[trigger] c[k]).to, df, dr)
                && c[k].to != cur by {
                assert(on_ray(nxt, c[k].to, df, dr));
                let m = choose|m: int| m >= 0 && #[trigger] scale(m, df) == c[k].to.file - nxt.file && scale(m, dr)
                    == c[k].to.rank - nxt.rank;
                assert(scale(m + 1, df) == c[k].to.file - cur.file && scale(m + 1, dr) == c[k].to.rank
                    - cur.rank);
            }
            assert(a.disjoint(c)) by {
                assert forall|i: int, j: int| 0 <= i < a.len() && 0 <= j < c.len() implies a[i] != c[j] by {
                    assert(c[j].to != cur);
                }
            }
            lemma_nodup_concat(a, c);
            assert forall|k: int| 0 <= k < s.len() implies on_ray(cur, (#[trigger] s[k]).to, df, dr) by {
                if k == 0 {
                    assert(s[k].to == cur);
                } else {
                    assert(s[k] == c[k - 1]);
                }
            }
        } else {
            assert forall|k: int| 0 <= k < s.len() implies on_ray(cur, (#[trigger] s[k]).to, df, dr) by {
                assert(s[k].to == cur);
            }
        }
    }
}

/// The directions are unit steps and pairwise different.
pub open spec fn dirs_ok(dirs: Seq<(i32, i32)>) -> bool {
    &&& forall|i: int| 0 <= i < dirs.len() ==> unit_dir(#[trigger] dirs[i].0 as int, dirs[i].1 as int)
    &&& forall|i: int, j: int| 0 <= i < j < dirs.len() ==> #[trigger] dirs[i] != #[trigger] dirs[j]
}

/// `to` lies on the ray from `from` in one of the directions of `dirs`.
pub open spec fn ray_target(from: Square, to: Square, dirs: Seq<(i32, i32)>) -> bool {
    exists|i: int|
        0 <= i < dirs.len() && on_ray(
            from.shifted(#[trigger] dirs[i].0 as int, dirs[i].1 as int),
            to,
            dirs[i].0 as int,
            dirs[i].1 as int,
        )
}

/// Rays from one square in two different directions share no square.
proof fn lemma_rays_apart(from: Square, a: (i32, i32), c: (i32, i32), to: Square)
    requires
        from.inb(),
        unit_dir(a.0 as int, a.1 as int),
        unit_dir(c.0 as int, c.1 as int),
        a != c,
        on_ray(from.shifted(a.0 as int, a.1 as int), to, a.0 as int, a.1 as int),
    ensures
        !on_ray(from.shifted(c.0 as int, c.1 as int), to, c.0 as int, c.1 as int),
{
    let ca = from.shifted(a.0 as int, a.1 as int);
    let cc = from.shifted(c.0 as int, c.1 as int);
    let m = choose|m: int| m >= 0 && #[trigger] scale(m, a.0 as int) == to.file - ca.file && scale(m, a.1 as int)
        == to.rank - ca.rank;
    if on_ray(cc, to, c.0 as int, c.1 as int) {
        let n = choose|n: int| n >= 0 && #[trigger] scale(n, c.0 as int) == to.file - cc.file && scale(
            n,
            c.1 as int,
        ) == to.rank - cc.rank;
        assert(scale(m + 1, a.0 as int) == to.file - from.file);
        assert(scale(m + 1, a.1 as int) == to.rank - from.rank);
        assert(scale(n + 1, c.0 as int) == to.file - from.file);
        assert(scale(n + 1, c.1 as int) == to.rank - from.rank);
        assert(a.0 == c.0 && a.1 == c.1);
    }
}

proof fn lemma_slides_nodup(b: Seq<Option<Piece>>, from: Square, color: Color, dirs: Seq<(i32, i32)>)
    requires
        from.inb(),
        dirs_ok(dirs),
    ensures
        slides(b, from, color, dirs).no_duplicates(),
        forall|k: int|
            0 <= k < slides(b, from, color, dirs).len() ==> ray_target(
                from,
                (#[trigger] slides(b, from, color, dirs)[k]).to,
                dirs,
            ),
    decreases dirs.len(),
{
    if dirs.len() > 0 {
        let t = dirs.drop_last();
        assert(dirs_ok(t)) by {
            assert forall|i: int| 0 <= i < t.len() implies unit_dir(#[trigger] t[i].0 as int, t[i].1 as int) by {
                assert(t[i] == dirs[i]);
            }
            assert forall|i: int, j: int| 0 <= i < j < t.len() implies #[trigger] t[i] != #[trigger] t[j] by {
                assert(dirs[i] != dirs[j]);
            }
        }
        lemma_slides_nodup(b, from, color, t);
        let n = dirs.len() - 1;
        let l = dirs[n];
        assert(dirs.last() == l);
        let st = from.shifted(l.0 as int, l.1 as int);
        lemma_ray_nodup(b, from, st, l.0 as int, l.1 as int, color);
        let a = slides(b, from, color, t);
        let c = slide_ray(b, from, st, l.0 as int, l.1 as int, color);
        assert(unit_dir(l.0 as int, l.1 as int));
        assert(a.disjoint(c)) by {
            assert forall|i: int, j: int| 0 <= i < a.len() && 0 <= j < c.len() implies a[i] != c[j] by {
                assert(ray_target(from, a[i].to, t));
                let q = choose|q: int|
                    0 <= q < t.len() && on_ray(
                        from.shifted(#[trigger] t[q].0 as int, t[q].1 as int),
                        a[i].to,
                        t[q].0 as int,
                        t[q].1 as int,
                    );
                assert(t[q] == dirs[q]);
                assert(dirs[q] != dirs[n]);
                assert(unit_dir(dirs[q].0 as int, dirs[q].1 as int));
                assert(on_ray(st, c[j].to, l.0 as int, l.1 as int));
                lemma_rays_apart(from, dirs[q], l, a[i].to);
            }
        }
        lemma_nodup_concat(a, c);
        let s = a + c;
        assert(s == slides(b, from, color, dirs));
        assert forall|k: int| 0 <= k < s.len() implies ray_target(from, (#[trigger] s[k]).to, dirs) by {
            if k < a.len() {
                assert(s[k] == a[k]);
                assert(ray_target(from, a[k].to, t));
                let q = choose|q: int|
                    0 <= q < t.len() && on_ray(
                        from.shifted(#[trigger] t[q].0 as int, t[q].1 as int),
                        a[k].to,
                        t[q].0 as int,
                        t[q].1 as int,
                    );
                assert(t[q] == dirs[q]);
            } else {
                assert(s[k] == c[k - a.len()]);
                assert(on_ray(st, c[k - a.len()].to, l.0 as int, l.1 as int));
            }
        }
    }
}

proof fn lemma_pawn_nodup(b: Seq<Option<Piece>>, ep: Option<Square>, from: Square, color: Color)
    requires
        from.inb(),
    ensures
        pawn_moves_of(b, ep, from, color).no_duplicates(),
{
    let adv = pawn_advances(b, from, color);
    let l = pawn_capture(b, ep, from, color, -1);
    let r = pawn_capture(b, ep, from, color, 1);
    assert(adv.len() <= 2);
    assert(forall|k: int| 0 <= k < adv.len() ==> (#[trigger] adv[k]).to.file == from.file);
    assert(adv.len() == 2 ==> adv[0].to.rank != adv[1].to.rank);
    assert(l.len() <= 1 && r.len() <= 1);
    assert(forall|k: int| 0 <= k < l.len() ==> (#[trigger] l[k]).to.file == from.file - 1);
    assert(forall|k: int| 0 <= k < r.len() ==> (#[trigger] r[k]).to.file == from.file + 1);
    assert(adv.no_duplicates());
    assert(l.no_duplicates());
    assert(r.no_duplicates());
    assert(adv.disjoint(l)) by {
        assert forall|i: int, j: int| 0 <= i < adv.len() && 0 <= j < l.len() implies adv[i] != l[j] by {
            assert(adv[i].to.file == from.file);
            assert(l[j].to.file == from.file - 1);
        }
    }
    lemma_nodup_concat(adv, l);
    let al = adv + l;
    assert(al.disjoint(r)) by {
        assert forall|i: int, j: int| 0 <= i < al.len() && 0 <= j < r.len() implies al[i] != r[j] by {
            assert(r[j].to.file == from.file + 1);
            if i < adv.len() {
                assert(al[i] == adv[i]);
            } else {
                assert(al[i] == l[i - adv.len()]);
            }
        }
    }
    lemma_nodup_concat(al, r);
}

proof fn lemma_king_nodup(b: Seq<Option<Piece>>, from: Square, king: Piece)
    requires
        from.inb(),
    ensures
        (steps(b, from, king.color, KING_STEPS@) + castles(b, from, king)).no_duplicates(),
{
    let ks = KING_STEPS@;
    assert(offsets_ok(ks)) by {
        assert forall|i: int| 0 <= i < ks.len() implies -2 <= #[trigger] ks[i].0 <= 2 && -2 <= ks[i].1 <= 2 by {
            assert(i == 0 || i == 1 || i == 2 || i == 3 || i == 4 || i == 5 || i == 6 || i == 7);
        }
        assert forall|i: int, j: int| 0 <= i < j < ks.len() implies #[trigger] ks[i] != #[trigger] ks[j] by {
            assert(i == 0 || i == 1 || i == 2 || i == 3 || i == 4 || i == 5 || i == 6 || i == 7);
            assert(j == 0 || j == 1 || j == 2 || j == 3 || j == 4 || j == 5 || j == 6 || j == 7);
        }
    }
    lemma_steps_nodup(b, from, king.color, ks);
    let a = steps(b, from, king.color, ks);
    let c = castles(b, from, king);
    assert(c.len() <= 2);
    assert(forall|k: int| 0 <= k < c.len() ==> (#[trigger] c[k]).flag == MoveFlag::Castle);
    assert(c.len() == 2 ==> c[0].to.file == 6 && c[1].to.file == 2);
    assert(c.no_duplicates());
    assert(a.disjoint(c)) by {
        assert forall|i: int, j: int| 0 <= i < a.len() && 0 <= j < c.len() implies a[i] != c[j] by {
            assert(a[i].flag == MoveFlag::Normal);
            assert(c[j].flag == MoveFlag::Castle);
        }
    }
    lemma_nodup_concat(a, c);
}

proof fn lemma_knight_nodup(b: Seq<Option<Piece>>, from: Square, color: Color)
    requires
        from.inb(),
    ensures
        steps(b, from, color, KNIGHT@).no_duplicates(),
{
    let ks = KNIGHT@;
    assert(offsets_ok(ks)) by {
        assert forall|i: int| 0 <= i < ks.len() implies -2 <= #[trigger] ks[i].0 <= 2 && -2 <= ks[i].1 <= 2 by {
            assert(i == 0 || i == 1 || i == 2 || i == 3 || i == 4 || i == 5 || i == 6 || i == 7);
        }
        assert forall|i: int, j: int| 0 <= i < j < ks.len() implies #[trigger] ks[i] != #[trigger] ks[j] by {
            assert(i == 0 || i == 1 || i == 2 || i == 3 || i == 4 || i == 5 || i == 6 || i == 7);
            assert(j == 0 || j == 1 || j == 2 || j == 3 || j == 4 || j == 5 || j == 6 || j == 7);
        }
    }
    lemma_steps_nodup(b, from, color, ks);
}

proof fn lemma_line_dirs()
    ensures
        dirs_ok(DIAG@),
        dirs_ok(ORTHO@),
        forall|i: int| 0 <= i < 4 ==> (#[trigger] DIAG@[i]).0 != 0 && DIAG@[i].1 != 0,
        forall|i: int| 0 <= i < 4 ==> (#[trigger] ORTHO@[i]).0 == 0 || ORTHO@[i].1 == 0,
{
    let d = DIAG@;
    let o = ORTHO@;
    assert forall|i: int| 0 <= i < d.len() implies unit_dir(#[trigger] d[i].0 as int, d[i].1 as int) by {
        assert(i == 0 || i == 1 || i == 2 || i == 3);
    }
    assert forall|i: int, j: int| 0 <= i < j < d.len() implies #[trigger] d[i] != #[trigger] d[j] by {
        assert(i == 0 || i == 1 || i == 2 || i == 3);
        assert(j == 0 || j == 1 || j == 2 || j == 3);
    }
    assert forall|i: int| 0 <= i < o.len() implies unit_dir(#[trigger] o[i].0 as int, o[i].1 as int) by {
        assert(i == 0 || i == 1 || i == 2 || i == 3);
    }
    assert forall|i: int, j: int| 0 <= i < j < o.len() implies #[trigger] o[i] != #[trigger] o[j] by {
        assert(i == 0 || i == 1 || i == 2 || i == 3);
        assert(j == 0 || j == 1 || j == 2 || j == 3);
    }
    assert forall|i: int| 0 <= i < 4 implies (#[trigger] d[i]).0 != 0 && d[i].1 != 0 by {
        assert(i == 0 || i == 1 || i == 2 || i == 3);
    }
    assert forall|i: int| 0 <= i < 4 implies (#[trigger] o[i]).0 == 0 || o[i].1 == 0 by {
        assert(i == 0 || i == 1 || i == 2 || i == 3);
    }
}

proof fn lemma_queen_nodup(b: Seq<Option<Piece>>, from: Square, color: Color)
    requires
        from.inb(),
    ensures
        (slides(b, from, color, DIAG@) + slides(b, from, color, ORTHO@)).no_duplicates(),
{
    lemma_line_dirs();
    lemma_slides_nodup(b, from, color, DIAG@);
    lemma_slides_nodup(b, from, color, ORTHO@);
    let a = slides(b, from, color, DIAG@);
    let c = slides(b, from, color, ORTHO@);
    assert(a.disjoint(c)) by {
        assert forall|i: int, j: int| 0 <= i < a.len() && 0 <= j < c.len() implies a[i] != c[j] by {
            assert(ray_target(from, a[i].to, DIAG@));
            let q = choose|q: int|
                0 <= q < DIAG@.len() && on_ray(
                    from.shifted(#[trigger] DIAG@[q].0 as int, DIAG@[q].1 as int),
                    a[i].to,
                    DIAG@[q].0 as int,
                    DIAG@[q].1 as int,
                );
            assert(ray_target(from, c[j].to, ORTHO@));
            let w = choose|w: int|
                0 <= w < ORTHO@.len() && on_ray(
                    from.shifted(#[trigger] ORTHO@[w].0 as int, ORTHO@[w].1 as int),
                    c[j].to,
                    ORTHO@[w].0 as int,
                    ORTHO@[w].1 as int,
                );
            assert(unit_dir(DIAG@[q].0 as int, DIAG@[q].1 as int));
            assert(unit_dir(ORTHO@[w].0 as int, ORTHO@[w].1 as int));
            assert(DIAG@[q] != ORTHO@[w]);
            if a[i] == c[j] {
                lemma_rays_apart(from, DIAG@[q], ORTHO@[w], a[i].to);
            }
        }
    }
    lemma_nodup_concat(a, c);
}

proof fn lemma_pseudo_nodup(b: Seq<Option<Piece>>, ep: Option<Square>, from: Square)
    ensures
        pseudo_moves(b, ep, from).no_duplicates(),
{
    if at(b, from) is Some {
        let p = at(b, from)->0;
        lemma_line_dirs();
        match p.kind {
            Kind::Pawn => lemma_pawn_nodup(b, ep, from, p.color),
            Kind::Knight => lemma_knight_nodup(b, from, p.color),
            Kind::King => lemma_king_nodup(b, from, p),
            Kind::Bishop => lemma_slides_nodup(b, from, p.color, DIAG@),
            Kind::Rook => lemma_slides_nodup(b, from, p.color, ORTHO@),
            Kind::Queen => lemma_queen_nodup(b, from, p.color),
        }
    }
}

/// Law: no move appears twice among the legal moves of a square.
pub proof fn legal_moves_from_are_distinct(b: Seq<Option<Piece>>, ep: Option<Square>, from: Square)
    ensures
        legal_moves(b, ep, from).no_duplicates(),
{
    if at(b, from) is Some {
        lemma_pseudo_nodup(b, ep, from);
        lemma_safe_nodup(b, at(b, from)->0.color, pseudo_moves(b, ep, from));
    }
}

/// `b2` and `b` hold the same on every square but `t`.
pub open spec fn same_but(b: Seq<Option<Piece>>, b2: Seq<Option<Piece>>, t: Square) -> bool {
    &&& b.len() == 64
    &&& b2.len() == 64
    &&& forall|i: int| 0 <= i < 64 && i != t.idx() ==> #[trigger] b2[i] == b[i]
}

proof fn lemma_ray_ignores_start(
    b: Seq<Option<Piece>>,
    b2: Seq<Option<Piece>>,
    t: Square,
    cur: Square,
    df: int,
    dr: int,
)
    requires
        t.inb(),
        same_but(b, b2, t),
        unit_dir(df, dr),
        on_ray(t.shifted(df, dr), cur, df, dr),
    ensures
        ray_first(b2, cur, df, dr) == ray_first(b, cur, df, dr),
    decreases ray_measure(cur, df, dr),
{
    let st = t.shifted(df, dr);
    let m = choose|m: int| m >= 0 && #[trigger] scale(m, df) == cur.file - st.file && scale(m, dr) == cur.rank
        - st.rank;
    if cur.inb() {
        assert(cur != t);
        assert(cur.idx() != t.idx());
        assert(b2[cur.idx()] == b[cur.idx()]);
        if b[cur.idx()] is None {
            let nxt = cur.shifted(df, dr);
            assert(scale(m + 1, df) == nxt.file - st.file && scale(m + 1, dr) == nxt.rank - st.rank);
            lemma_ray_ignores_start(b, b2, t, nxt, df, dr);
        }
    }
}

proof fn lemma_hit_ignores_start(
    b: Seq<Option<Piece>>,
    b2: Seq<Option<Piece>>,
    t: Square,
    d: (i32, i32),
    by: Color,
    kinds: Seq<Kind>,
)
    requires
        t.inb(),
        same_but(b, b2, t),
        unit_dir(d.0 as int, d.1 as int),
    ensures
        ray_hit(b2, t, d.0 as int, d.1 as int, by, kinds) == ray_hit(b, t, d.0 as int, d.1 as int, by, kinds),
{
    let st = t.shifted(d.0 as int, d.1 as int);
    assert(scale(0, d.0 as int) == 0 && scale(0, d.1 as int) == 0);
    lemma_ray_ignores_start(b, b2, t, st, d.0 as int, d.1 as int);
}

proof fn lemma_near_ignores_start(b: Seq<Option<Piece>>, b2: Seq<Option<Piece>>, t: Square, df: int, dr: int)
    requires
        t.inb(),
        same_but(b, b2, t),
        -2 <= df <= 2,
        -2 <= dr <= 2,
        !(df == 0 && dr == 0),
    ensures
        at(b2, t.shifted(df, dr)) == at(b, t.shifted(df, dr)),
{
    let s = t.shifted(df, dr);
    if s.inb() {
        assert(s.idx() != t.idx());
        assert(b2[s.idx()] == b[s.idx()]);
    }
}

/// Law: whether a square is attacked does not depend on what stands on the
/// square itself.
pub proof fn attack_ignores_target(b: Seq<Option<Piece>>, b2: Seq<Option<Piece>>, t: Square, by: Color)
    requires
        t.inb(),
        same_but(b, b2, t),
    ensures
        attacked(b2, t, by) == attacked(b, t, by),
{
    lemma_near_ignores_start(b, b2, t, -1, -pawn_dir(by));
    lemma_near_ignores_start(b, b2, t, 1, -pawn_dir(by));
    assert forall|i: int| 0 <= i < 8 implies #[trigger] knight_at(b2, t, by, i) == knight_at(b, t, by, i) by {
        assert(i == 0 || i == 1 || i == 2 || i == 3 || i == 4 || i == 5 || i == 6 || i == 7);
        lemma_near_ignores_start(b, b2, t, KNIGHT@[i].0 as int, KNIGHT@[i].1 as int);
    }
    assert forall|i: int| 0 <= i < 8 implies #[trigger] king_at(b2, t, by, i) == king_at(b, t, by, i) by {
        assert(i == 0 || i == 1 || i == 2 || i == 3 || i == 4 || i == 5 || i == 6 || i == 7);
        lemma_near_ignores_start(b, b2, t, KING_STEPS@[i].0 as int, KING_STEPS@[i].1 as int);
    }
    lemma_line_dirs();
    assert forall|i: int| 0 <= i < 4 implies #[trigger] diag_hit(b2, t, by, i) == diag_hit(b, t, by, i) by {
        assert(unit_dir(DIAG@[i].0 as int, DIAG@[i].1 as int));
        lemma_hit_ignores_start(b, b2, t, DIAG@[i], by, seq![Kind::Bishop, Kind::Queen]);
    }
    assert forall|i: int| 0 <= i < 4 implies #[trigger] ortho_hit(b2, t, by, i) == ortho_hit(b, t, by, i) by {
        assert(unit_dir(ORTHO@[i].0 as int, ORTHO@[i].1 as int));
        lemma_hit_ignores_start(b, b2, t, ORTHO@[i], by, seq![Kind::Rook, Kind::Queen]);
    }
    if attacked(b, t, by) {
        if exists|i: int| 0 <= i < 8 && #[trigger] knight_at(b, t, by, i) {
            let i = choose|i: int| 0 <= i < 8 && #[trigger] knight_at(b, t, by, i);
            assert(knight_at(b2, t, by, i));
        }
        if exists|i: int| 0 <= i < 8 && #[trigger] king_at(b, t, by, i) {
            let i = choose|i: int| 0 <= i < 8 && #[trigger] king_at(b, t, by, i);
            assert(king_at(b2, t, by, i));
        }
        if exists|i: int| 0 <= i < 4 && #[trigger] diag_hit(b, t, by, i) {
            let i = choose|i: int| 0 <= i < 4 && #[trigger] diag_hit(b, t, by, i);
            assert(diag_hit(b2, t, by, i));
        }
        if exists|i: int| 0 <= i < 4 && #[trigger] ortho_hit(b, t, by, i) {
            let i = choose|i: int| 0 <= i < 4 && #[trigger] ortho_hit(b, t, by, i);
            assert(ortho_hit(b2, t, by, i));
        }
    }
    if attacked(b2, t, by) {
        if exists|i: int| 0 <= i < 8 && #[trigger] knight_at(b2, t, by, i) {
            let i = choose|i: int| 0 <= i < 8 && #[trigger] knight_at(b2, t, by, i);
            assert(knight_at(b, t, by, i));
        }
        if exists|i: int| 0 <= i < 8 && #[trigger] king_at(b2, t, by, i) {
            let i = choose|i: int| 0 <= i < 8 && #[trigger] king_at(b2, t, by, i);
            assert(king_at(b, t, by, i));
        }
        if exists|i: int| 0 <= i < 4 && #[trigger] diag_hit(b2, t, by, i) {
            let i = choose|i: int| 0 <= i < 4 && #[trigger] diag_hit(b2, t, by, i);
            assert(diag_hit(b, t, by, i));
        }
        if exists|i: int| 0 <= i < 4 && #[trigger] ortho_hit(b2, t, by, i) {
            let i = choose|i: int| 0 <= i < 4 && #[trigger] ortho_hit(b2, t, by, i);
            assert(ortho_hit(b, t, by, i));
        }
    }
}

/// The square at the same place seen from the other side of the board.
pub open spec fn mirror(q: Square) -> Square {
    Square { file: q.file, rank: (7 - q.rank) as i32 }
}

/// The piece with its colour swapped.
pub open spec fn recolor(p: Option<Piece>) -> Option<Piece> {
    match p {
        Some(q) => Some(Piece { color: q.color.other(), kind: q.kind, has_moved: q.has_moved }),
        None => None,
    }
}

/// `b2` is `b` turned upside down with the colours of all pieces swapped.
pub open spec fn mirrored(b: Seq<Option<Piece>>, b2: Seq<Option<Piece>>) -> bool {
    &&& b.len() == 64
    &&& b2.len() == 64
    &&& forall|q: Square| q.inb() ==> #[trigger] b2[mirror(q).idx()] == recolor(b[q.idx()])
}

/// A square near the board.
pub open spec fn near_board(q: Square) -> bool {
    -3 <= q.file <= 10 && -3 <= q.rank <= 10
}

proof fn lemma_at_mirror(b: Seq<Option<Piece>>, b2: Seq<Option<Piece>>, s: Square)
    requires
        mirrored(b, b2),
        near_board(s),
    ensures
        at(b2, mirror(s)) == recolor(at(b, s)),
{
    if s.inb() {
        assert(b2[mirror(s).idx()] == recolor(b[s.idx()]));
    }
}

proof fn lemma_ray_mirror(b: Seq<Option<Piece>>, b2: Seq<Option<Piece>>, cur: Square, df: int, dr: int)
    requires
        mirrored(b, b2),
        near_board(cur),
        unit_dir(df, dr),
    ensures
        ray_first(b2, mirror(cur), df, -dr) == recolor(ray_first(b, cur, df, dr)),
    decreases ray_measure(cur, df, dr),
{
    if cur.inb() {
        assert(b2[mirror(cur).idx()] == recolor(b[cur.idx()]));
        if b[cur.idx()] is None {
            let nxt = cur.shifted(df, dr);
            assert(mirror(cur).shifted(df, -dr) == mirror(nxt));
            lemma_ray_mirror(b, b2, nxt, df, dr);
        }
    }
}

proof fn lemma_hit_mirror(
    b: Seq<Option<Piece>>,
    b2: Seq<Option<Piece>>,
    t: Square,
    df: int,
    dr: int,
    by: Color,
    kinds: Seq<Kind>,
)
    requires
        mirrored(b, b2),
        t.inb(),
        unit_dir(df, dr),
    ensures
        ray_hit(b2, mirror(t), df, -dr, by.other(), kinds) == ray_hit(b, t, df, dr, by, kinds),
{
    let st = t.shifted(df, dr);
    assert(mirror(t).shifted(df, -dr) == mirror(st));
    lemma_ray_mirror(b, b2, st, df, dr);
}

/// Where each offset of `KNIGHT` goes when the board is turned upside down.
pub open spec fn knight_flip(i: int) -> int {
    if i < 4 {
        3 - i
    } else {
        11 - i
    }
}

/// Where each offset of `KING_STEPS` goes when the board is turned upside down.
pub open spec fn king_flip(i: int) -> int {
    if i < 3 {
        2 - i
    } else if i < 5 {
        7 - i
    } else if i == 6 {
        6
    } else {
        12 - i
    }
}

/// Where each direction of `DIAG` goes when the board is turned upside down.
pub open spec fn diag_flip(i: int) -> int {
    if i % 2 == 0 {
        i + 1
    } else {
        i - 1
    }
}

/// Where each direction of `ORTHO` goes when the board is turned upside down.
pub open spec fn ortho_flip(i: int) -> int {
    if i < 2 {
        i
    } else {
        5 - i
    }
}

/// Law: turning the board upside down and swapping the colours of all pieces
/// swaps the roles: the turned square is attacked by the other colour exactly
/// when the square was attacked.
pub proof fn attack_mirrors(b: Seq<Option<Piece>>, b2: Seq<Option<Piece>>, t: Square, by: Color)
    requires
        t.inb(),
        mirrored(b, b2),
    ensures
        attacked(b2, mirror(t), by.other()) == attacked(b, t, by),
{
    let m = mirror(t);
    let ob = by.other();
    assert(pawn_dir(ob) == -pawn_dir(by));
    let pl = t.shifted(-1, -pawn_dir(by));
    let pr = t.shifted(1, -pawn_dir(by));
    assert(m.shifted(-1, -pawn_dir(ob)) == mirror(pl));
    assert(m.shifted(1, -pawn_dir(ob)) == mirror(pr));
    lemma_at_mirror(b, b2, pl);
    lemma_at_mirror(b, b2, pr);
    assert forall|i: int| 0 <= i < 8 implies #[trigger] knight_at(b2, m, ob, i) == knight_at(b, t, by, knight_flip(i))
        && 0 <= knight_flip(i) < 8 && knight_flip(knight_flip(i)) == i by {
        assert(i == 0 || i == 1 || i == 2 || i == 3 || i == 4 || i == 5 || i == 6 || i == 7);
        let j = knight_flip(i);
        let s = t.shifted(KNIGHT@[j].0 as int, KNIGHT@[j].1 as int);
        assert(m.shifted(KNIGHT@[i].0 as int, KNIGHT@[i].1 as int) == mirror(s));
        lemma_at_mirror(b, b2, s);
    }
    assert forall|i: int| 0 <= i < 8 implies #[trigger] king_at(b2, m, ob, i) == king_at(b, t, by, king_flip(i))
        && 0 <= king_flip(i) < 8 && king_flip(king_flip(i)) == i by {
        assert(i == 0 || i == 1 || i == 2 || i == 3 || i == 4 || i == 5 || i == 6 || i == 7);
        let j = king_flip(i);
        let s = t.shifted(KING_STEPS@[j].0 as int, KING_STEPS@[j].1 as int);
        assert(m.shifted(KING_STEPS@[i].0 as int, KING_STEPS@[i].1 as int) == mirror(s));
        lemma_at_mirror(b, b2, s);
    }
    lemma_line_dirs();
    assert forall|i: int| 0 <= i < 4 implies #[trigger] diag_hit(b2, m, ob, i) == diag_hit(b, t, by, diag_flip(i))
        && 0 <= diag_flip(i) < 4 && diag_flip(diag_flip(i)) == i by {
        assert(i == 0 || i == 1 || i == 2 || i == 3);
        let j = diag_flip(i);
        assert(DIAG@[i].0 == DIAG@[j].0 && DIAG@[i].1 == -DIAG@[j].1);
        lemma_hit_mirror(b, b2, t, DIAG@[j].0 as int, DIAG@[j].1 as int, by, seq![Kind::Bishop, Kind::Queen]);
    }
    assert forall|i: int| 0 <= i < 4 implies #[trigger] ortho_hit(b2, m, ob, i) == ortho_hit(b, t, by, ortho_flip(i))
        && 0 <= ortho_flip(i) < 4 && ortho_flip(ortho_flip(i)) == i by {
        assert(i == 0 || i == 1 || i == 2 || i == 3);
        let j = ortho_flip(i);
        assert(ORTHO@[i].0 == ORTHO@[j].0 && ORTHO@[i].1 == -ORTHO@[j].1);
        lemma_hit_mirror(b, b2, t, ORTHO@[j].0 as int, ORTHO@[j].1 as int, by, seq![Kind::Rook, Kind::Queen]);
    }
    if exists|i: int| 0 <= i < 8 && #[trigger] knight_at(b, t, by, i) {
        let i = choose|i: int| 0 <= i < 8 && #[trigger] knight_at(b, t, by, i);
        assert(knight_at(b2, m, ob, knight_flip(i)));
    }
    if exists|i: int| 0 <= i < 8 && #[trigger] knight_at(b2, m, ob, i) {
        let i = choose|i: int| 0 <= i < 8 && #[trigger] knight_at(b2, m, ob, i);
        assert(knight_at(b, t, by, knight_flip(i)));
    }
    if exists|i: int| 0 <= i < 8 && #[trigger] king_at(b, t, by, i) {
        let i = choose|i: int| 0 <= i < 8 && #[trigger] king_at(b, t, by, i);
        assert(king_at(b2, m, ob, king_flip(i)));
    }
    if exists|i: int| 0 <= i < 8 && #[trigger] king_at(b2, m, ob, i) {
        let i = choose|i: int| 0 <= i < 8 && #[trigger] king_at(b2, m, ob, i);
        assert(king_at(b, t, by, king_flip(i)));
    }
    if exists|i: int| 0 <= i < 4 && #[trigger] diag_hit(b, t, by, i) {
        let i = choose|i: int| 0 <= i < 4 && #[trigger] diag_hit(b, t, by, i);
        assert(diag_hit(b2, m, ob, diag_flip(i)));
    }
    if exists|i: int| 0 <= i < 4 && #[trigger] diag_hit(b2, m, ob, i) {
        let i = choose|i: int| 0 <= i < 4 && #[trigger] diag_hit(b2, m, ob, i);
        assert(diag_hit(b, t, by, diag_flip(i)));
    }
    if exists|i: int| 0 <= i < 4 && #[trigger] ortho_hit(b, t, by, i) {
        let i = choose|i: int| 0 <= i < 4 && #[trigger] ortho_hit(b, t, by, i);
        assert(ortho_hit(b2, m, ob, ortho_flip(i)));
    }
    if exists|i: int| 0 <= i < 4 && #[trigger] ortho_hit(b2, m, ob, i) {
        let i = choose|i: int| 0 <= i < 4 && #[trigger] ortho_hit(b2, m, ob, i);
        assert(ortho_hit(b, t, by, ortho_flip(i)));
    }
}

/// No move of `s` is a castling move.
pub open spec fn no_castling(s: Seq<ChessMove>) -> bool {
    forall|k: int| 0 <= k < s.len() ==> (#[trigger] s[k]).flag != MoveFlag::Castle
}

proof fn lemma_no_castling_concat(a: Seq<ChessMove>, c: Seq<ChessMove>)
    requires
        no_castling(a),
        no_castling(c),
    ensures
        no_castling(a + c),
{
    assert forall|k: int| 0 <= k < (a + c).len() implies (#[trigger] (a + c)[k]).flag != MoveFlag::Castle by {
        if k < a.len() {
            assert((a + c)[k] == a[k]);
        } else {
            assert((a + c)[k] == c[k - a.len()]);
        }
    }
}

proof fn lemma_steps_no_castling(b: Seq<Option<Piece>>, from: Square, color: Color, offs: Seq<(i32, i32)>)
    ensures
        no_castling(steps(b, from, color, offs)),
    decreases offs.len(),
{
    if offs.len() > 0 {
        lemma_steps_no_castling(b, from, color, offs.drop_last());
        lemma_no_castling_concat(
            steps(b, from, color, offs.drop_last()),
            step(b, from, offs.last().0 as int, offs.last().1 as int, color),
        );
    }
}

proof fn lemma_ray_no_castling(b: Seq<Option<Piece>>, from: Square, cur: Square, df: int, dr: int, color: Color)
    ensures
        no_castling(slide_ray(b, from, cur, df, dr, color)),
    decreases ray_measure(cur, df, dr),
{
    if cur.inb() && unit_dir(df, dr) && b[cur.idx()] is None {
        lemma_ray_no_castling(b, from, cur.shifted(df, dr), df, dr, color);
        lemma_no_castling_concat(seq![plain(from, cur)], slide_ray(b, from, cur.shifted(df, dr), df, dr, color));
    }
}

proof fn lemma_slides_no_castling(b: Seq<Option<Piece>>, from: Square, color: Color, dirs: Seq<(i32, i32)>)
    ensures
        no_castling(slides(b, from, color, dirs)),
    decreases dirs.len(),
{
    if dirs.len() > 0 {
        let (df, dr) = dirs.last();
        lemma_slides_no_castling(b, from, color, dirs.drop_last());
        lemma_ray_no_castling(b, from, from.shifted(df as int, dr as int), df as int, dr as int, color);
        lemma_no_castling_concat(
            slides(b, from, color, dirs.drop_last()),
            slide_ray(b, from, from.shifted(df as int, dr as int), df as int, dr as int, color),
        );
    }
}

/// A castling move among the pseudo-legal moves of a square is one of the
/// castling moves of the king standing there.
proof fn lemma_castle_source(b: Seq<Option<Piece>>, ep: Option<Square>, from: Square, mv: ChessMove)
    requires
        pseudo_moves(b, ep, from).contains(mv),
        mv.flag == MoveFlag::Castle,
    ensures
        at(b, from) is Some,
        at(b, from)->0.kind == Kind::King,
        castles(b, from, at(b, from)->0).contains(mv),
{
    let p = at(b, from)->0;
    let ps = pseudo_moves(b, ep, from);
    let j = choose|j: int| 0 <= j < ps.len() && ps[j] == mv;
    match p.kind {
        Kind::Pawn => {
            let adv = pawn_advances(b, from, p.color);
            let l = pawn_capture(b, ep, from, p.color, -1);
            let r = pawn_capture(b, ep, from, p.color, 1);
            assert(no_castling(adv));
            assert(no_castling(l));
            assert(no_castling(r));
            lemma_no_castling_concat(adv, l);
            lemma_no_castling_concat(adv + l, r);
            assert(ps[j].flag != MoveFlag::Castle);
        },
        Kind::Knight => {
            lemma_steps_no_castling(b, from, p.color, KNIGHT@);
            assert(ps[j].flag != MoveFlag::Castle);
        },
        Kind::King => {
            let a = steps(b, from, p.color, KING_STEPS@);
            let c = castles(b, from, p);
            lemma_steps_no_castling(b, from, p.color, KING_STEPS@);
            if j < a.len() {
                assert(ps[j] == a[j]);
            } else {
                assert(ps[j] == c[j - a.len()]);
            }
        },
        Kind::Bishop => {
            lemma_slides_no_castling(b, from, p.color, DIAG@);
            assert(ps[j].flag != MoveFlag::Castle);
        },
        Kind::Rook => {
            lemma_slides_no_castling(b, from, p.color, ORTHO@);
            assert(ps[j].flag != MoveFlag::Castle);
        },
        Kind::Queen => {
            lemma_slides_no_castling(b, from, p.color, DIAG@);
            lemma_slides_no_castling(b, from, p.color, ORTHO@);
            lemma_no_castling_concat(slides(b, from, p.color, DIAG@), slides(b, from, p.color, ORTHO@));
            assert(ps[j].flag != MoveFlag::Castle);
        },
    }
}

/// Law: a castling move is offered only for an unmoved king that is not in
/// check. It goes two files along the king's own rank to file 6 or file 2;
/// the unmoved rook of the king's colour stands in that corner (file 7 or
/// file 0), every square strictly between king and rook is empty (files 5
/// and 6 on the king's side, files 1, 2 and 3 on the queen's side), and the
/// squares the king crosses and lands on are not attacked.
pub proof fn castling_needs_a_clear_path(b: Seq<Option<Piece>>, ep: Option<Square>, from: Square, mv: ChessMove)
    requires
        legal_moves(b, ep, from).contains(mv),
        mv.flag == MoveFlag::Castle,
    ensures
        from.inb(),
        mv.from == from,
        b[from.idx()] matches Some(k) && k.kind == Kind::King && !k.has_moved && !attacked(b, from, k.color.other()),
        mv.to == sq(6, from.rank as int) || mv.to == sq(2, from.rank as int),
        mv.to == sq(6, from.rank as int) ==> {
            let c = b[from.idx()]->0.color;
            let r = from.rank as int;
            &&& b[sq(7, r).idx()] == Some(Piece { color: c, kind: Kind::Rook, has_moved: false })
            &&& b[sq(5, r).idx()] is None
            &&& b[sq(6, r).idx()] is None
            &&& !attacked(b, sq(5, r), c.other())
            &&& !attacked(b, sq(6, r), c.other())
        },
        mv.to == sq(2, from.rank as int) ==> {
            let c = b[from.idx()]->0.color;
            let r = from.rank as int;
            &&& b[sq(0, r).idx()] == Some(Piece { color: c, kind: Kind::Rook, has_moved: false })
            &&& b[sq(1, r).idx()] is None
            &&& b[sq(2, r).idx()] is None
            &&& b[sq(3, r).idx()] is None
            &&& !attacked(b, sq(3, r), c.other())
            &&& !attacked(b, sq(2, r), c.other())
        },
{
    let p = at(b, from)->0;
    let ps = pseudo_moves(b, ep, from);
    lemma_safe_moves(b, p.color, ps);
    lemma_castle_source(b, ep, from, mv);
    let c = castles(b, from, p);
    let j = choose|j: int| 0 <= j < c.len() && c[j] == mv;
    assert(c[j] == mv);
}

proof fn lemma_safe_keeps(b: Seq<Option<Piece>>, color: Color, s: Seq<ChessMove>, mv: ChessMove)
    requires
        s.contains(mv),
        !in_check(after(b, mv).0, color),
    ensures
        safe_moves(b, color, s).contains(mv),
    decreases s.len(),
{
    if s.last() == mv {
        let r = safe_moves(b, color, s.drop_last());
        assert(r.push(mv)[r.len() as int] == mv);
    } else {
        let j = choose|j: int| 0 <= j < s.len() && s[j] == mv;
        assert(s.drop_last()[j] == mv);
        lemma_safe_keeps(b, color, s.drop_last(), mv);
        let r = safe_moves(b, color, s.drop_last());
        let k = choose|k: int| 0 <= k < r.len() && r[k] == mv;
        if !in_check(after(b, s.last()).0, color) {
            assert(r.push(s.last())[k] == mv);
        }
    }
}

/// Law: an unmoved king that is not in check may castle towards a corner
/// holding its unmoved rook when every square between them is empty, the
/// squares it crosses and lands on are not attacked, and its king is safe
/// afterwards.
pub proof fn castling_offered_when_clear(b: Seq<Option<Piece>>, ep: Option<Square>, from: Square, c: Color)
    requires
        b.len() == 64,
        from.inb(),
        b[from.idx()] == Some(Piece { color: c, kind: Kind::King, has_moved: false }),
        !attacked(b, from, c.other()),
    ensures
        ({
            let r = from.rank as int;
            let mv = ChessMove { from, to: sq(6, r), flag: MoveFlag::Castle };
            &&& b[sq(7, r).idx()] == Some(Piece { color: c, kind: Kind::Rook, has_moved: false })
            &&& b[sq(5, r).idx()] is None
            &&& b[sq(6, r).idx()] is None
            &&& !attacked(b, sq(5, r), c.other())
            &&& !attacked(b, sq(6, r), c.other())
            &&& !in_check(after(b, mv).0, c)
        }) ==> legal_moves(b, ep, from).contains(ChessMove { from, to: sq(6, from.rank as int), flag: MoveFlag::Castle }),
        ({
            let r = from.rank as int;
            let mv = ChessMove { from, to: sq(2, r), flag: MoveFlag::Castle };
            &&& b[sq(0, r).idx()] == Some(Piece { color: c, kind: Kind::Rook, has_moved: false })
            &&& b[sq(1, r).idx()] is None
            &&& b[sq(2, r).idx()] is None
            &&& b[sq(3, r).idx()] is None
            &&& !attacked(b, sq(3, r), c.other())
            &&& !attacked(b, sq(2, r), c.other())
            &&& !in_check(after(b, mv).0, c)
        }) ==> legal_moves(b, ep, from).contains(ChessMove { from, to: sq(2, from.rank as int), flag: MoveFlag::Castle }),
{
    let p = Piece { color: c, kind: Kind::King, has_moved: false };
    let r = from.rank as int;
    let a = steps(b, from, c, KING_STEPS@);
    let cs = castles(b, from, p);
    let ps = pseudo_moves(b, ep, from);
    assert(ps == a + cs);
    let m6 = ChessMove { from, to: sq(6, r), flag: MoveFlag::Castle };
    let m2 = ChessMove { from, to: sq(2, r), flag: MoveFlag::Castle };
    if b[sq(7, r).idx()] == Some(Piece { color: c, kind: Kind::Rook, has_moved: false }) && b[sq(5, r).idx()] is None
        && b[sq(6, r).idx()] is None && !attacked(b, sq(5, r), c.other()) && !attacked(b, sq(6, r), c.other())
        && !in_check(after(b, m6).0, c) {
        assert(cs[0] == m6);
        assert(ps[a.len() as int] == m6);
        lemma_safe_keeps(b, c, ps, m6);
    }
    if b[sq(0, r).idx()] == Some(Piece { color: c, kind: Kind::Rook, has_moved: false }) && b[sq(1, r).idx()] is None
        && b[sq(2, r).idx()] is None && b[sq(3, r).idx()] is None && !attacked(b, sq(3, r), c.other())
        && !attacked(b, sq(2, r), c.other()) && !in_check(after(b, m2).0, c) {
        assert(cs[cs.len() - 1] == m2);
        assert(ps[a.len() + cs.len() - 1] == m2);
        lemma_safe_keeps(b, c, ps, m2);
    }
}

/// Law: castling from the king's home file 4 puts the king, marked as moved,
/// on its target square and the corner rook, marked as moved, on the square
/// the king crossed (file 3 on the queen's side, file 5 on the king's side).
/// The squares between the rook's new square and the corner are empty
/// afterwards, and every other square keeps what it held.
pub proof fn castling_moves_the_rook(b: Seq<Option<Piece>>, ep: Option<Square>, from: Square, mv: ChessMove)
    requires
        legal_moves(b, ep, from).contains(mv),
        mv.flag == MoveFlag::Castle,
        from.file == 4,
        b.len() == 64,
    ensures
        ({
            let a = after(b, mv).0;
            let r = from.rank as int;
            let k = b[from.idx()]->0;
            let rook = Piece { color: k.color, kind: Kind::Rook, has_moved: true };
            let king = Piece { color: k.color, kind: Kind::King, has_moved: true };
            &&& a.len() == 64
            &&& a[mv.to.idx()] == Some(king)
            &&& a[from.idx()] is None
            &&& mv.to == sq(2, r) ==> {
                &&& a[sq(3, r).idx()] == Some(rook)
                &&& a[sq(0, r).idx()] is None
                &&& a[sq(1, r).idx()] is None
                &&& forall|i: int|
                    0 <= i < 64 && i != sq(0, r).idx() && i != sq(2, r).idx() && i != sq(3, r).idx() && i
                        != from.idx() ==> #[trigger] a[i] == b[i]
            }
            &&& mv.to == sq(6, r) ==> {
                &&& a[sq(5, r).idx()] == Some(rook)
                &&& a[sq(7, r).idx()] is None
                &&& forall|i: int|
                    0 <= i < 64 && i != sq(7, r).idx() && i != sq(6, r).idx() && i != sq(5, r).idx() && i
                        != from.idx() ==> #[trigger] a[i] == b[i]
            }
        }),
{
    castling_needs_a_clear_path(b, ep, from, mv);
    let r = from.rank as int;
    let p0 = b[from.idx()]->0;
    let p = moved(p0);
    let b1 = b.update(from.idx(), None);
    let b2 = b1.update(mv.to.idx(), Some(p));
    assert(from == sq(4, r));
    assert(sq(0, r).idx() == r * 8 && sq(1, r).idx() == r * 8 + 1 && sq(2, r).idx() == r * 8 + 2);
    assert(sq(3, r).idx() == r * 8 + 3 && sq(5, r).idx() == r * 8 + 5 && sq(6, r).idx() == r * 8 + 6);
    assert(sq(7, r).idx() == r * 8 + 7 && from.idx() == r * 8 + 4);
    if mv.to == sq(2, r) {
        assert(b2[sq(0, r).idx()] == b[sq(0, r).idx()]);
        assert(after(b, mv).0 == b2.update(sq(0, r).idx(), None).update(
            sq(3, r).idx(),
            Some(moved(b[sq(0, r).idx()]->0)),
        ));
    } else {
        assert(b2[sq(7, r).idx()] == b[sq(7, r).idx()]);
        assert(after(b, mv).0 == b2.update(sq(7, r).idx(), None).update(
            sq(5, r).idx(),
            Some(moved(b[sq(7, r).idx()]->0)),
        ));
    }
}

/// A piece of colour `by` and kind `kind` stands on the square `(file, rank)`.
pub open spec fn stands(b: Seq<Option<Piece>>, file: int, rank: int, by: Color, kind: Kind) -> bool {
    &&& 0 <= file < 8
    &&& 0 <= rank < 8
    &&& b[rank * 8 + file] matches Some(p) && p.color == by && p.kind == kind
}

/// A pawn of `by` stands diagonally behind `t` as seen in `by`'s direction of
/// advance (White advances towards higher ranks, Black towards lower).
pub open spec fn pawn_attack(b: Seq<Option<Piece>>, t: Square, by: Color) -> bool {
    let back = if by == Color::White {
        t.rank - 1
    } else {
        t.rank + 1
    };
    stands(b, t.file - 1, back, by, Kind::Pawn) || stands(b, t.file + 1, back, by, Kind::Pawn)
}

/// `(df, dr)` is a knight's jump: one square one way and two the other.
pub open spec fn knight_jump(df: int, dr: int) -> bool {
    ||| (df == 1 || df == -1) && (dr == 2 || dr == -2)
    ||| (df == 2 || df == -2) && (dr == 1 || dr == -1)
}

/// A knight of `by` stands a knight's jump away from `t`.
pub open spec fn knight_attack(b: Seq<Option<Piece>>, t: Square, by: Color) -> bool {
    exists|f: int, r: int| knight_jump(f - t.file, r - t.rank) && #[trigger] stands(b, f, r, by, Kind::Knight)
}

/// A king of `by` stands on a square next to `t`.
pub open spec fn king_attack(b: Seq<Option<Piece>>, t: Square, by: Color) -> bool {
    exists|f: int, r: int|
        -1 <= f - t.file <= 1 && -1 <= r - t.rank <= 1 && !(f == t.file && r == t.rank) && #[trigger] stands(
            b,
            f,
            r,
            by,
            Kind::King,
        )
}

/// The `m`-th square from `t` in direction `(df, dr)` is on the board and
/// empty.
pub open spec fn empty_step(b: Seq<Option<Piece>>, t: Square, df: int, dr: int, m: int) -> bool {
    let f = t.file + scale(m, df);
    let r = t.rank + scale(m, dr);
    &&& 0 <= f < 8
    &&& 0 <= r < 8
    &&& b[r * 8 + f] is None
}

/// Walking from `t` in direction `(df, dr)`, the `k`-th square holds a piece
/// of `by` and kind `kind`, and every square before it is on the board and
/// empty.
pub open spec fn line_attack(b: Seq<Option<Piece>>, t: Square, df: int, dr: int, k: int, by: Color, kind: Kind) -> bool {
    &&& k >= 1
    &&& stands(b, t.file + scale(k, df), t.rank + scale(k, dr), by, kind)
    &&& forall|m: int| 1 <= m < k ==> #[trigger] empty_step(b, t, df, dr, m)
}

/// Along `(df, dr)`, a bishop or queen of `by` sees `t` on a diagonal, or a
/// rook or queen of `by` on a rank or a file, from `k` squares away.
pub open spec fn sees(b: Seq<Option<Piece>>, t: Square, df: int, dr: int, k: int, by: Color) -> bool {
    ||| (df == 1 || df == -1) && (dr == 1 || dr == -1) && (line_attack(b, t, df, dr, k, by, Kind::Bishop)
        || line_attack(b, t, df, dr, k, by, Kind::Queen))
    ||| (df == 0 && (dr == 1 || dr == -1) || dr == 0 && (df == 1 || df == -1)) && (line_attack(
        b,
        t,
        df,
        dr,
        k,
        by,
        Kind::Rook,
    ) || line_attack(b, t, df, dr, k, by, Kind::Queen))
}

/// Some bishop, rook or queen of `by` sees `t` with nothing in between.
pub open spec fn slider_attack(b: Seq<Option<Piece>>, t: Square, by: Color) -> bool {
    exists|df: int, dr: int, k: int| #[trigger] sees(b, t, df, dr, k, by)
}

/// The first piece on a ray is a piece of `by` and `kind` exactly when some
/// square of the ray holds one with only empty squares before it.
proof fn lemma_ray_line(
    b: Seq<Option<Piece>>,
    t: Square,
    df: int,
    dr: int,
    n: int,
    cur: Square,
    by: Color,
    kind: Kind,
)
    requires
        b.len() == 64,
        t.inb(),
        unit_dir(df, dr),
        n >= 1,
        cur.file == t.file + scale(n, df),
        cur.rank == t.rank + scale(n, dr),
        forall|m: int| 1 <= m < n ==> #[trigger] empty_step(b, t, df, dr, m),
    ensures
        (ray_first(b, cur, df, dr) matches Some(p) && p.color == by && p.kind == kind) <==> exists|k: int|
            k >= n && #[trigger] line_attack(b, t, df, dr, k, by, kind),
    decreases ray_measure(cur, df, dr),
{
    let f = cur.file as int;
    let r = cur.rank as int;
    if exists|k: int| k >= n && #[trigger] line_attack(b, t, df, dr, k, by, kind) {
        let k = choose|k: int| k >= n && #[trigger] line_attack(b, t, df, dr, k, by, kind);
        if k > n {
            assert(empty_step(b, t, df, dr, n));
        }
    }
    if cur.inb() {
        assert(cur.idx() == r * 8 + f);
        if b[cur.idx()] is None {
            let nxt = cur.shifted(df, dr);
            assert(scale(n + 1, df) == scale(n, df) + df && scale(n + 1, dr) == scale(n, dr) + dr);
            assert(empty_step(b, t, df, dr, n));
            assert forall|m: int| 1 <= m < n + 1 implies #[trigger] empty_step(b, t, df, dr, m) by {
                if m < n {
                    assert(empty_step(b, t, df, dr, m));
                }
            }
            lemma_ray_line(b, t, df, dr, n + 1, nxt, by, kind);
            if exists|k: int| k >= n && #[trigger] line_attack(b, t, df, dr, k, by, kind) {
                let k = choose|k: int| k >= n && #[trigger] line_attack(b, t, df, dr, k, by, kind);
                assert(k >= n + 1);
                assert(line_attack(b, t, df, dr, k, by, kind));
            }
            if exists|k: int| k >= n + 1 && #[trigger] line_attack(b, t, df, dr, k, by, kind) {
                let k = choose|k: int| k >= n + 1 && #[trigger] line_attack(b, t, df, dr, k, by, kind);
                assert(line_attack(b, t, df, dr, k, by, kind));
            }
        } else {
            if ray_first(b, cur, df, dr) matches Some(p) && p.color == by && p.kind == kind {
                assert(line_attack(b, t, df, dr, n, by, kind));
            }
        }
    }
}

proof fn lemma_two_kinds(k1: Kind, k2: Kind, k: Kind)
    ensures
        seq![k1, k2].contains(k) <==> (k == k1 || k == k2),
{
    if k == k1 {
        assert(seq![k1, k2][0] == k);
    }
    if k == k2 {
        assert(seq![k1, k2][1] == k);
    }
}

/// A ray hit by one of two kinds is a line attack by one of them.
proof fn lemma_hit_line(b: Seq<Option<Piece>>, t: Square, df: int, dr: int, by: Color, k1: Kind, k2: Kind)
    requires
        b.len() == 64,
        t.inb(),
        unit_dir(df, dr),
    ensures
        ray_hit(b, t, df, dr, by, seq![k1, k2]) <==> ((exists|k: int| #[trigger] line_attack(b, t, df, dr, k, by, k1))
            || (exists|k: int| #[trigger] line_attack(b, t, df, dr, k, by, k2))),
{
    let cur = t.shifted(df, dr);
    assert(scale(1, df) == df && scale(1, dr) == dr);
    lemma_ray_line(b, t, df, dr, 1, cur, by, k1);
    lemma_ray_line(b, t, df, dr, 1, cur, by, k2);
    if let Some(p) = ray_first(b, cur, df, dr) {
        lemma_two_kinds(k1, k2, p.kind);
    }
    if exists|k: int| #[trigger] line_attack(b, t, df, dr, k, by, k1) {
        let k = choose|k: int| #[trigger] line_attack(b, t, df, dr, k, by, k1);
        assert(exists|j: int| j >= 1 && #[trigger] line_attack(b, t, df, dr, j, by, k1));
    }
    if exists|k: int| #[trigger] line_attack(b, t, df, dr, k, by, k2) {
        let k = choose|k: int| #[trigger] line_attack(b, t, df, dr, k, by, k2);
        assert(exists|j: int| j >= 1 && #[trigger] line_attack(b, t, df, dr, j, by, k2));
    }
}

proof fn lemma_knight_attack(b: Seq<Option<Piece>>, t: Square, by: Color)
    requires
        t.inb(),
    ensures
        (exists|i: int| 0 <= i < 8 && #[trigger] knight_at(b, t, by, i)) <==> knight_attack(b, t, by),
{
    if exists|i: int| 0 <= i < 8 && #[trigger] knight_at(b, t, by, i) {
        let i = choose|i: int| 0 <= i < 8 && #[trigger] knight_at(b, t, by, i);
        assert(i == 0 || i == 1 || i == 2 || i == 3 || i == 4 || i == 5 || i == 6 || i == 7);
        let df = KNIGHT@[i].0 as int;
        let dr = KNIGHT@[i].1 as int;
        assert(knight_jump(df, dr));
        assert(stands(b, t.file + df, t.rank + dr, by, Kind::Knight));
    }
    if knight_attack(b, t, by) {
        let (f, r) = choose|f: int, r: int| knight_jump(f - t.file, r - t.rank) && #[trigger] stands(b, f, r, by, Kind::Knight);
        let df = f - t.file;
        let dr = r - t.rank;
        if df == 1 && dr == 2 {
            assert(knight_at(b, t, by, 0));
        } else if df == 2 && dr == 1 {
            assert(knight_at(b, t, by, 1));
        } else if df == 2 && dr == -1 {
            assert(knight_at(b, t, by, 2));
        } else if df == 1 && dr == -2 {
            assert(knight_at(b, t, by, 3));
        } else if df == -1 && dr == -2 {
            assert(knight_at(b, t, by, 4));
        } else if df == -2 && dr == -1 {
            assert(knight_at(b, t, by, 5));
        } else if df == -2 && dr == 1 {
            assert(knight_at(b, t, by, 6));
        } else {
            assert(knight_at(b, t, by, 7));
        }
    }
}

proof fn lemma_king_attack(b: Seq<Option<Piece>>, t: Square, by: Color)
    requires
        t.inb(),
    ensures
        (exists|i: int| 0 <= i < 8 && #[trigger] king_at(b, t, by, i)) <==> king_attack(b, t, by),
{
    if exists|i: int| 0 <= i < 8 && #[trigger] king_at(b, t, by, i) {
        let i = choose|i: int| 0 <= i < 8 && #[trigger] king_at(b, t, by, i);
        assert(i == 0 || i == 1 || i == 2 || i == 3 || i == 4 || i == 5 || i == 6 || i == 7);
        let df = KING_STEPS@[i].0 as int;
        let dr = KING_STEPS@[i].1 as int;
        assert(stands(b, t.file + df, t.rank + dr, by, Kind::King));
    }
    if king_attack(b, t, by) {
        let (f, r) = choose|f: int, r: int|
            -1 <= f - t.file <= 1 && -1 <= r - t.rank <= 1 && !(f == t.file && r == t.rank) && #[trigger] stands(
                b,
                f,
                r,
                by,
                Kind::King,
            );
        let df = f - t.file;
        let dr = r - t.rank;
        if df == -1 && dr == -1 {
            assert(king_at(b, t, by, 0));
        } else if df == -1 && dr == 0 {
            assert(king_at(b, t, by, 1));
        } else if df == -1 && dr == 1 {
            assert(king_at(b, t, by, 2));
        } else if df == 0 && dr == -1 {
            assert(king_at(b, t, by, 3));
        } else if df == 0 && dr == 1 {
            assert(king_at(b, t, by, 4));
        } else if df == 1 && dr == -1 {
            assert(king_at(b, t, by, 5));
        } else if df == 1 && dr == 0 {
            assert(king_at(b, t, by, 6));
        } else {
            assert(king_at(b, t, by, 7));
        }
    }
}

proof fn lemma_slider_attack(b: Seq<Option<Piece>>, t: Square, by: Color)
    requires
        b.len() == 64,
        t.inb(),
    ensures
        ((exists|i: int| 0 <= i < 4 && #[trigger] diag_hit(b, t, by, i)) || (exists|i: int|
            0 <= i < 4 && #[trigger] ortho_hit(b, t, by, i))) <==> slider_attack(b, t, by),
{
    lemma_line_dirs();
    if exists|i: int| 0 <= i < 4 && #[trigger] diag_hit(b, t, by, i) {
        let i = choose|i: int| 0 <= i < 4 && #[trigger] diag_hit(b, t, by, i);
        assert(i == 0 || i == 1 || i == 2 || i == 3);
        let df = DIAG@[i].0 as int;
        let dr = DIAG@[i].1 as int;
        lemma_hit_line(b, t, df, dr, by, Kind::Bishop, Kind::Queen);
        if exists|k: int| #[trigger] line_attack(b, t, df, dr, k, by, Kind::Bishop) {
            let k = choose|k: int| #[trigger] line_attack(b, t, df, dr, k, by, Kind::Bishop);
            assert(sees(b, t, df, dr, k, by));
        } else {
            let k = choose|k: int| #[trigger] line_attack(b, t, df, dr, k, by, Kind::Queen);
            assert(sees(b, t, df, dr, k, by));
        }
    }
    if exists|i: int| 0 <= i < 4 && #[trigger] ortho_hit(b, t, by, i) {
        let i = choose|i: int| 0 <= i < 4 && #[trigger] ortho_hit(b, t, by, i);
        assert(i == 0 || i == 1 || i == 2 || i == 3);
        let df = ORTHO@[i].0 as int;
        let dr = ORTHO@[i].1 as int;
        lemma_hit_line(b, t, df, dr, by, Kind::Rook, Kind::Queen);
        if exists|k: int| #[trigger] line_attack(b, t, df, dr, k, by, Kind::Rook) {
            let k = choose|k: int| #[trigger] line_attack(b, t, df, dr, k, by, Kind::Rook);
            assert(sees(b, t, df, dr, k, by));
        } else {
            let k = choose|k: int| #[trigger] line_attack(b, t, df, dr, k, by, Kind::Queen);
            assert(sees(b, t, df, dr, k, by));
        }
    }
    if slider_attack(b, t, by) {
        let (df, dr, k) = choose|df: int, dr: int, k: int| #[trigger] sees(b, t, df, dr, k, by);
        if (df == 1 || df == -1) && (dr == 1 || dr == -1) {
            let i: int = if df == 1 && dr == 1 {
                0
            } else if df == 1 {
                1
            } else if dr == 1 {
                2
            } else {
                3
            };
            assert(DIAG@[i].0 == df && DIAG@[i].1 == dr);
            lemma_hit_line(b, t, df, dr, by, Kind::Bishop, Kind::Queen);
            assert(diag_hit(b, t, by, i));
        } else {
            let i: int = if df == 1 {
                0
            } else if df == -1 {
                1
            } else if dr == 1 {
                2
            } else {
                3
            };
            assert(ORTHO@[i].0 == df && ORTHO@[i].1 == dr);
            lemma_hit_line(b, t, df, dr, by, Kind::Rook, Kind::Queen);
            assert(ortho_hit(b, t, by, i));
        }
    }
}

/// Law: a square on the board is attacked by colour `by` exactly when a pawn
/// of `by` stands diagonally behind it (one file to either side, one rank
/// back against `by`'s direction of advance), a knight of `by` stands a
/// knight's jump away, a king of `by` stands next to it, or a bishop, rook
/// or queen of `by` sees it along its lines of movement with only empty
/// squares in between.
pub proof fn attacked_means_a_piece_reaches(b: Seq<Option<Piece>>, t: Square, by: Color)
    requires
        b.len() == 64,
        t.inb(),
    ensures
        attacked(b, t, by) <==> (pawn_attack(b, t, by) || knight_attack(b, t, by) || king_attack(b, t, by)
            || slider_attack(b, t, by)),
{
    lemma_knight_attack(b, t, by);
    lemma_king_attack(b, t, by);
    lemma_slider_attack(b, t, by);
}

/// A diagonal unit step.
pub open spec fn diagonal(df: int, dr: int) -> bool {
    (df == 1 || df == -1) && (dr == 1 || dr == -1)
}

/// A unit step along a rank or a file.
pub open spec fn straight(df: int, dr: int) -> bool {
    df == 0 && (dr == 1 || dr == -1) || dr == 0 && (df == 1 || df == -1)
}

/// `mv` goes `k >= 1` steps of `(df, dr)` from its start, over squares that
/// are on the board and empty.
pub open spec fn slides_to(b: Seq<Option<Piece>>, mv: ChessMove, df: int, dr: int, k: int) -> bool {
    &&& k >= 1
    &&& mv.to.file == mv.from.file + scale(k, df)
    &&& mv.to.rank == mv.from.rank + scale(k, dr)
    &&& forall|m: int| 1 <= m < k ==> #[trigger] empty_step(b, mv.from, df, dr, m)
}

/// The pawn rules for a move of a pawn of colour `c`: one step straight
/// ahead onto an empty square, two from its starting rank over an empty
/// square onto an empty one, or one step diagonally ahead onto an enemy
/// piece or, en passant, onto the empty en passant square; a move onto the
/// last rank is a promotion.
pub open spec fn pawn_rule(b: Seq<Option<Piece>>, ep: Option<Square>, mv: ChessMove, c: Color) -> bool {
    let dir: int = if c == Color::White {
        1
    } else {
        -1
    };
    let last: int = if c == Color::White {
        7
    } else {
        0
    };
    let start: int = if c == Color::White {
        1
    } else {
        6
    };
    let fd = mv.to.file - mv.from.file;
    let rd = mv.to.rank - mv.from.rank;
    let push_flag = if mv.to.rank == last {
        MoveFlag::Promotion
    } else {
        MoveFlag::Normal
    };
    ||| fd == 0 && rd == dir && b[mv.to.idx()] is None && mv.flag == push_flag
    ||| fd == 0 && rd == 2 * dir && mv.from.rank == start && b[sq(mv.from.file as int, mv.from.rank + dir).idx()] is None
        && b[mv.to.idx()] is None && mv.flag == MoveFlag::DoublePawn
    ||| (fd == 1 || fd == -1) && rd == dir && (b[mv.to.idx()] matches Some(q) && q.color != c) && mv.flag == push_flag
    ||| (fd == 1 || fd == -1) && rd == dir && b[mv.to.idx()] is None && ep == Some(mv.to) && mv.flag
        == MoveFlag::EnPassant
}

proof fn lemma_ray_geom(
    b: Seq<Option<Piece>>,
    from: Square,
    cur: Square,
    df: int,
    dr: int,
    n: int,
    color: Color,
)
    requires
        from.inb(),
        unit_dir(df, dr),
        n >= 1,
        cur.file == from.file + scale(n, df),
        cur.rank == from.rank + scale(n, dr),
        forall|m: int| 1 <= m < n ==> #[trigger] empty_step(b, from, df, dr, m),
    ensures
        forall|j: int|
            0 <= j < slide_ray(b, from, cur, df, dr, color).len() ==> {
                let mv = #[trigger] slide_ray(b, from, cur, df, dr, color)[j];
                &&& mv.from == from
                &&& mv.flag == MoveFlag::Normal
                &&& exists|k: int| #[trigger] slides_to(b, mv, df, dr, k)
            },
    decreases ray_measure(cur, df, dr),
{
    let s = slide_ray(b, from, cur, df, dr, color);
    if cur.inb() {
        assert(slides_to(b, plain(from, cur), df, dr, n));
        if b[cur.idx()] is None {
            let nxt = cur.shifted(df, dr);
            assert(scale(n + 1, df) == scale(n, df) + df && scale(n + 1, dr) == scale(n, dr) + dr);
            assert(cur.idx() == cur.rank * 8 + cur.file);
            assert(empty_step(b, from, df, dr, n));
            assert forall|m: int| 1 <= m < n + 1 implies #[trigger] empty_step(b, from, df, dr, m) by {
                if m < n {
                    assert(empty_step(b, from, df, dr, m));
                }
            }
            lemma_ray_geom(b, from, nxt, df, dr, n + 1, color);
            let c = slide_ray(b, from, nxt, df, dr, color);
            assert forall|j: int| 0 <= j < s.len() implies {
                let mv = #[trigger] s[j];
                &&& mv.from == from
                &&& mv.flag == MoveFlag::Normal
                &&& exists|k: int| #[trigger] slides_to(b, mv, df, dr, k)
            } by {
                if j > 0 {
                    assert(s[j] == c[j - 1]);
                }
            }
        }
    }
}

proof fn lemma_slides_geom(b: Seq<Option<Piece>>, from: Square, color: Color, dirs: Seq<(i32, i32)>)
    requires
        from.inb(),
        forall|i: int| 0 <= i < dirs.len() ==> unit_dir(#[trigger] dirs[i].0 as int, dirs[i].1 as int),
    ensures
        forall|j: int|
            0 <= j < slides(b, from, color, dirs).len() ==> {
                let mv = #[trigger] slides(b, from, color, dirs)[j];
                &&& mv.from == from
                &&& mv.flag == MoveFlag::Normal
                &&& exists|i: int, k: int|
                    0 <= i < dirs.len() && #[trigger] slides_to(b, mv, dirs[i].0 as int, dirs[i].1 as int, k)
            },
    decreases dirs.len(),
{
    if dirs.len() > 0 {
        let t = dirs.drop_last();
        let n = dirs.len() - 1;
        let (df, dr) = dirs.last();
        assert(dirs[n] == dirs.last());
        assert forall|i: int| 0 <= i < t.len() implies unit_dir(#[trigger] t[i].0 as int, t[i].1 as int) by {
            assert(t[i] == dirs[i]);
        }
        lemma_slides_geom(b, from, color, t);
        let st = from.shifted(df as int, dr as int);
        assert(unit_dir(df as int, dr as int));
        assert(scale(1, df as int) == df && scale(1, dr as int) == dr);
        lemma_ray_geom(b, from, st, df as int, dr as int, 1, color);
        let a = slides(b, from, color, t);
        let c = slide_ray(b, from, st, df as int, dr as int, color);
        let s = slides(b, from, color, dirs);
        assert(s == a + c);
        assert forall|j: int| 0 <= j < s.len() implies {
            let mv = #[trigger] s[j];
            &&& mv.from == from
            &&& mv.flag == MoveFlag::Normal
            &&& exists|i: int, k: int|
                0 <= i < dirs.len() && #[trigger] slides_to(b, mv, dirs[i].0 as int, dirs[i].1 as int, k)
        } by {
            if j < a.len() {
                assert(s[j] == a[j]);
                let (i, k) = choose|i: int, k: int|
                    0 <= i < t.len() && #[trigger] slides_to(b, a[j], t[i].0 as int, t[i].1 as int, k);
                assert(t[i] == dirs[i]);
                assert(slides_to(b, s[j], dirs[i].0 as int, dirs[i].1 as int, k));
            } else {
                assert(s[j] == c[j - a.len()]);
                let k = choose|k: int| #[trigger] slides_to(b, c[j - a.len()], df as int, dr as int, k);
                assert(slides_to(b, s[j], dirs[n].0 as int, dirs[n].1 as int, k));
            }
        }
    }
}

/// Law: every legal move follows the way its piece moves. A knight jumps one
/// square one way and two the other; a king steps to a neighbouring square
/// or castles; a bishop slides diagonally, a rook along a rank or a file and
/// a queen either way, over empty squares only; a pawn follows the pawn
/// rules. Only pawns promote, step twice or take en passant, and only kings
/// castle.
pub proof fn pieces_move_as_they_should(b: Seq<Option<Piece>>, ep: Option<Square>, from: Square, mv: ChessMove)
    requires
        b.len() == 64,
        legal_moves(b, ep, from).contains(mv),
    ensures
        b[from.idx()] is Some,
        mv.from == from,
        ({
            let p = b[from.idx()]->0;
            let fd = mv.to.file - from.file;
            let rd = mv.to.rank - from.rank;
            &&& p.kind == Kind::Knight ==> mv.flag == MoveFlag::Normal && knight_jump(fd, rd)
            &&& p.kind == Kind::King ==> mv.flag == MoveFlag::Castle || mv.flag == MoveFlag::Normal && -1 <= fd <= 1
                && -1 <= rd <= 1 && !(fd == 0 && rd == 0)
            &&& p.kind == Kind::Bishop ==> mv.flag == MoveFlag::Normal && exists|df: int, dr: int, k: int|
                diagonal(df, dr) && #[trigger] slides_to(b, mv, df, dr, k)
            &&& p.kind == Kind::Rook ==> mv.flag == MoveFlag::Normal && exists|df: int, dr: int, k: int|
                straight(df, dr) && #[trigger] slides_to(b, mv, df, dr, k)
            &&& p.kind == Kind::Queen ==> mv.flag == MoveFlag::Normal && exists|df: int, dr: int, k: int|
                (diagonal(df, dr) || straight(df, dr)) && #[trigger] slides_to(b, mv, df, dr, k)
            &&& p.kind == Kind::Pawn ==> pawn_rule(b, ep, mv, p.color)
        }),
{
    legal_moves_from_land(b, ep, from, mv);
    let p = at(b, from)->0;
    let ps = pseudo_moves(b, ep, from);
    lemma_safe_moves(b, p.color, ps);
    let j = choose|j: int| 0 <= j < ps.len() && ps[j] == mv;
    lemma_line_dirs();
    match p.kind {
        Kind::Knight => {
            let ks = KNIGHT@;
            assert(offsets_ok(ks)) by {
                assert forall|i: int| 0 <= i < ks.len() implies -2 <= #[trigger] ks[i].0 <= 2 && -2 <= ks[i].1 <= 2 by {
                    assert(i == 0 || i == 1 || i == 2 || i == 3 || i == 4 || i == 5 || i == 6 || i == 7);
                }
                assert forall|i: int, k: int| 0 <= i < k < ks.len() implies #[trigger] ks[i] != #[trigger] ks[k] by {
                    assert(i == 0 || i == 1 || i == 2 || i == 3 || i == 4 || i == 5 || i == 6 || i == 7);
                    assert(k == 0 || k == 1 || k == 2 || k == 3 || k == 4 || k == 5 || k == 6 || k == 7);
                }
            }
            lemma_steps_nodup(b, from, p.color, ks);
            assert(off_target(from, ps[j].to, ks));
            let i = choose|i: int| 0 <= i < ks.len() && ps[j].to == from.shifted(#[trigger] ks[i].0 as int, ks[i].1 as int);
            assert(i == 0 || i == 1 || i == 2 || i == 3 || i == 4 || i == 5 || i == 6 || i == 7);
        },
        Kind::King => {
            let ks = KING_STEPS@;
            assert(offsets_ok(ks)) by {
                assert forall|i: int| 0 <= i < ks.len() implies -2 <= #[trigger] ks[i].0 <= 2 && -2 <= ks[i].1 <= 2 by {
                    assert(i == 0 || i == 1 || i == 2 || i == 3 || i == 4 || i == 5 || i == 6 || i == 7);
                }
                assert forall|i: int, k: int| 0 <= i < k < ks.len() implies #[trigger] ks[i] != #[trigger] ks[k] by {
                    assert(i == 0 || i == 1 || i == 2 || i == 3 || i == 4 || i == 5 || i == 6 || i == 7);
                    assert(k == 0 || k == 1 || k == 2 || k == 3 || k == 4 || k == 5 || k == 6 || k == 7);
                }
            }
            lemma_steps_nodup(b, from, p.color, ks);
            let a = steps(b, from, p.color, ks);
            let c = castles(b, from, p);
            if j < a.len() {
                assert(ps[j] == a[j]);
                assert(off_target(from, a[j].to, ks));
                let i = choose|i: int| 0 <= i < ks.len() && a[j].to == from.shifted(#[trigger] ks[i].0 as int, ks[i].1 as int);
                assert(i == 0 || i == 1 || i == 2 || i == 3 || i == 4 || i == 5 || i == 6 || i == 7);
            } else {
                assert(ps[j] == c[j - a.len()]);
            }
        },
        Kind::Bishop => {
            lemma_slides_geom(b, from, p.color, DIAG@);
            let (i, k) = choose|i: int, k: int|
                0 <= i < DIAG@.len() && #[trigger] slides_to(b, ps[j], DIAG@[i].0 as int, DIAG@[i].1 as int, k);
            assert(i == 0 || i == 1 || i == 2 || i == 3);
            assert(diagonal(DIAG@[i].0 as int, DIAG@[i].1 as int));
        },
        Kind::Rook => {
            lemma_slides_geom(b, from, p.color, ORTHO@);
            let (i, k) = choose|i: int, k: int|
                0 <= i < ORTHO@.len() && #[trigger] slides_to(b, ps[j], ORTHO@[i].0 as int, ORTHO@[i].1 as int, k);
            assert(i == 0 || i == 1 || i == 2 || i == 3);
            assert(straight(ORTHO@[i].0 as int, ORTHO@[i].1 as int));
        },
        Kind::Queen => {
            lemma_slides_geom(b, from, p.color, DIAG@);
            lemma_slides_geom(b, from, p.color, ORTHO@);
            let a = slides(b, from, p.color, DIAG@);
            let c = slides(b, from, p.color, ORTHO@);
            if j < a.len() {
                assert(ps[j] == a[j]);
                let (i, k) = choose|i: int, k: int|
                    0 <= i < DIAG@.len() && #[trigger] slides_to(b, a[j], DIAG@[i].0 as int, DIAG@[i].1 as int, k);
                assert(i == 0 || i == 1 || i == 2 || i == 3);
                assert(diagonal(DIAG@[i].0 as int, DIAG@[i].1 as int));
            } else {
                assert(ps[j] == c[j - a.len()]);
                let (i, k) = choose|i: int, k: int|
                    0 <= i < ORTHO@.len() && #[trigger] slides_to(b, c[j - a.len()], ORTHO@[i].0 as int, ORTHO@[i].1 as int, k);
                assert(i == 0 || i == 1 || i == 2 || i == 3);
                assert(straight(ORTHO@[i].0 as int, ORTHO@[i].1 as int));
            }
        },
        Kind::Pawn => {
            let adv = pawn_advances(b, from, p.color);
            let l = pawn_capture(b, ep, from, p.color, -1);
            let r = pawn_capture(b, ep, from, p.color, 1);
            assert(ps == adv + l + r);
            if j < adv.len() {
                assert(ps[j] == adv[j]);
            } else if j < adv.len() + l.len() {
                assert(ps[j] == l[j - adv.len()]);
            } else {
                assert(ps[j] == r[j - adv.len() - l.len()]);
            }
        },
    }
}

proof fn lemma_steps_has(b: Seq<Option<Piece>>, from: Square, color: Color, offs: Seq<(i32, i32)>, i: int)
    requires
        0 <= i < offs.len(),
        from.shifted(offs[i].0 as int, offs[i].1 as int).inb(),
        !own(b[from.shifted(offs[i].0 as int, offs[i].1 as int).idx()], color),
    ensures
        steps(b, from, color, offs).contains(plain(from, from.shifted(offs[i].0 as int, offs[i].1 as int))),
    decreases offs.len(),
{
    let t = offs.drop_last();
    let a = steps(b, from, color, t);
    let c = step(b, from, offs.last().0 as int, offs.last().1 as int, color);
    let mv = plain(from, from.shifted(offs[i].0 as int, offs[i].1 as int));
    if i == offs.len() - 1 {
        assert(c[0] == mv);
        assert((a + c)[a.len() as int] == mv);
    } else {
        assert(t[i] == offs[i]);
        lemma_steps_has(b, from, color, t, i);
        let k = choose|k: int| 0 <= k < a.len() && a[k] == mv;
        assert((a + c)[k] == mv);
    }
}

proof fn lemma_ray_has(
    b: Seq<Option<Piece>>,
    from: Square,
    cur: Square,
    df: int,
    dr: int,
    n: int,
    k: int,
    color: Color,
)
    requires
        from.inb(),
        unit_dir(df, dr),
        1 <= n <= k,
        cur.file == from.file + scale(n, df),
        cur.rank == from.rank + scale(n, dr),
        forall|m: int| n <= m < k ==> #[trigger] empty_step(b, from, df, dr, m),
        sq(from.file + scale(k, df), from.rank + scale(k, dr)).inb(),
        !own(b[sq(from.file + scale(k, df), from.rank + scale(k, dr)).idx()], color),
    ensures
        slide_ray(b, from, cur, df, dr, color).contains(plain(from, sq(from.file + scale(k, df), from.rank + scale(k, dr)))),
    decreases ray_measure(cur, df, dr),
{
    let target = sq(from.file + scale(k, df), from.rank + scale(k, dr));
    let s = slide_ray(b, from, cur, df, dr, color);
    if k == n {
        assert(cur == target);
        assert(s[0] == plain(from, target));
    } else {
        assert(empty_step(b, from, df, dr, n));
        assert(cur.inb());
        assert(cur.idx() == cur.rank * 8 + cur.file);
        let nxt = cur.shifted(df, dr);
        assert(scale(n + 1, df) == scale(n, df) + df && scale(n + 1, dr) == scale(n, dr) + dr);
        lemma_ray_has(b, from, nxt, df, dr, n + 1, k, color);
        let c = slide_ray(b, from, nxt, df, dr, color);
        let j = choose|j: int| 0 <= j < c.len() && c[j] == plain(from, target);
        assert(s[j + 1] == c[j]);
    }
}

proof fn lemma_slides_has(b: Seq<Option<Piece>>, from: Square, color: Color, dirs: Seq<(i32, i32)>, i: int, k: int)
    requires
        from.inb(),
        0 <= i < dirs.len(),
        unit_dir(dirs[i].0 as int, dirs[i].1 as int),
        k >= 1,
        forall|m: int| 1 <= m < k ==> #[trigger] empty_step(b, from, dirs[i].0 as int, dirs[i].1 as int, m),
        sq(from.file + scale(k, dirs[i].0 as int), from.rank + scale(k, dirs[i].1 as int)).inb(),
        !own(b[sq(from.file + scale(k, dirs[i].0 as int), from.rank + scale(k, dirs[i].1 as int)).idx()], color),
    ensures
        slides(b, from, color, dirs).contains(
            plain(from, sq(from.file + scale(k, dirs[i].0 as int), from.rank + scale(k, dirs[i].1 as int))),
        ),
    decreases dirs.len(),
{
    let t = dirs.drop_last();
    let (df, dr) = dirs.last();
    let st = from.shifted(df as int, dr as int);
    let a = slides(b, from, color, t);
    let c = slide_ray(b, from, st, df as int, dr as int, color);
    let mv = plain(from, sq(from.file + scale(k, dirs[i].0 as int), from.rank + scale(k, dirs[i].1 as int)));
    assert(slides(b, from, color, dirs) == a + c);
    if i == dirs.len() - 1 {
        assert(dirs[i] == dirs.last());
        assert(scale(1, df as int) == df && scale(1, dr as int) == dr);
        lemma_ray_has(b, from, st, df as int, dr as int, 1, k, color);
        let j = choose|j: int| 0 <= j < c.len() && c[j] == mv;
        assert((a + c)[a.len() + j] == mv);
    } else {
        assert(t[i] == dirs[i]);
        lemma_slides_has(b, from, color, t, i, k);
        let j = choose|j: int| 0 <= j < a.len() && a[j] == mv;
        assert((a + c)[j] == mv);
    }
}

/// `mv` follows the way the piece `p` moves (castling aside): see
/// `pieces_move_as_they_should`.
pub open spec fn follows_piece_rules(b: Seq<Option<Piece>>, ep: Option<Square>, mv: ChessMove, p: Piece) -> bool {
    let fd = mv.to.file - mv.from.file;
    let rd = mv.to.rank - mv.from.rank;
    ||| p.kind == Kind::Knight && mv.flag == MoveFlag::Normal && knight_jump(fd, rd)
    ||| p.kind == Kind::King && mv.flag == MoveFlag::Normal && -1 <= fd <= 1 && -1 <= rd <= 1 && !(fd == 0 && rd == 0)
    ||| p.kind == Kind::Bishop && mv.flag == MoveFlag::Normal && exists|df: int, dr: int, k: int|
        diagonal(df, dr) && #[trigger] slides_to(b, mv, df, dr, k)
    ||| p.kind == Kind::Rook && mv.flag == MoveFlag::Normal && exists|df: int, dr: int, k: int|
        straight(df, dr) && #[trigger] slides_to(b, mv, df, dr, k)
    ||| p.kind == Kind::Queen && mv.flag == MoveFlag::Normal && exists|df: int, dr: int, k: int|
        (diagonal(df, dr) || straight(df, dr)) && #[trigger] slides_to(b, mv, df, dr, k)
    ||| p.kind == Kind::Pawn && pawn_rule(b, ep, mv, p.color)
}

/// Law: every move that follows the way its piece moves, ends on the board on
/// a square without a piece of the mover's colour and leaves the mover's king
/// out of check is among the legal moves of its start square.
pub proof fn legal_moves_are_all_there(b: Seq<Option<Piece>>, ep: Option<Square>, from: Square, mv: ChessMove)
    requires
        b.len() == 64,
        from.inb(),
        mv.from == from,
        mv.to.inb(),
        b[from.idx()] is Some,
        !own(b[mv.to.idx()], b[from.idx()]->0.color),
        !in_check(after(b, mv).0, b[from.idx()]->0.color),
        follows_piece_rules(b, ep, mv, b[from.idx()]->0),
    ensures
        legal_moves(b, ep, from).contains(mv),
{
    let p = b[from.idx()]->0;
    let c = p.color;
    let ps = pseudo_moves(b, ep, from);
    let fd = mv.to.file - from.file;
    let rd = mv.to.rank - from.rank;
    lemma_line_dirs();
    if p.kind == Kind::Knight {
        let ks = KNIGHT@;
        let i: int = if fd == 1 && rd == 2 {
            0
        } else if fd == 2 && rd == 1 {
            1
        } else if fd == 2 && rd == -1 {
            2
        } else if fd == 1 && rd == -2 {
            3
        } else if fd == -1 && rd == -2 {
            4
        } else if fd == -2 && rd == -1 {
            5
        } else if fd == -2 && rd == 1 {
            6
        } else {
            7
        };
        assert(from.shifted(ks[i].0 as int, ks[i].1 as int) == mv.to);
        lemma_steps_has(b, from, c, ks, i);
    } else if p.kind == Kind::King {
        let ks = KING_STEPS@;
        let i: int = if fd == -1 && rd == -1 {
            0
        } else if fd == -1 && rd == 0 {
            1
        } else if fd == -1 && rd == 1 {
            2
        } else if fd == 0 && rd == -1 {
            3
        } else if fd == 0 && rd == 1 {
            4
        } else if fd == 1 && rd == -1 {
            5
        } else if fd == 1 && rd == 0 {
            6
        } else {
            7
        };
        assert(from.shifted(ks[i].0 as int, ks[i].1 as int) == mv.to);
        lemma_steps_has(b, from, c, ks, i);
        let a = steps(b, from, c, ks);
        let j = choose|j: int| 0 <= j < a.len() && a[j] == mv;
        assert(ps[j] == mv);
    } else if p.kind == Kind::Pawn {
        let adv = pawn_advances(b, from, c);
        let l = pawn_capture(b, ep, from, c, -1);
        let r = pawn_capture(b, ep, from, c, 1);
        assert(ps == adv + l + r);
        if fd == 0 && (rd == 1 || rd == -1) {
            assert(mv.to == from.shifted(0, pawn_dir(c)));
            assert(adv[0] == mv);
            assert(ps[0] == mv);
        } else if fd == 0 {
            assert(mv.to == from.shifted(0, 2 * pawn_dir(c)));
            assert(adv[1] == mv);
            assert(ps[1] == mv);
        } else if fd == -1 {
            assert(mv.to == from.shifted(-1, pawn_dir(c)));
            assert(l[0] == mv);
            assert(ps[adv.len() as int] == mv);
        } else {
            assert(mv.to == from.shifted(1, pawn_dir(c)));
            assert(r[0] == mv);
            assert(ps[(adv.len() + l.len()) as int] == mv);
        }
    } else {
        let (df, dr, k) = choose|df: int, dr: int, k: int|
            (diagonal(df, dr) || straight(df, dr)) && #[trigger] slides_to(b, mv, df, dr, k);
        assert(mv.to == sq(from.file + scale(k, df), from.rank + scale(k, dr)));
        assert(mv == plain(from, mv.to));
        let dirs = if diagonal(df, dr) {
            DIAG@
        } else {
            ORTHO@
        };
        let i: int = if diagonal(df, dr) {
            if df == 1 && dr == 1 {
                0
            } else if df == 1 {
                1
            } else if dr == 1 {
                2
            } else {
                3
            }
        } else {
            if df == 1 {
                0
            } else if df == -1 {
                1
            } else if dr == 1 {
                2
            } else {
                3
            }
        };
        assert(dirs[i].0 == df && dirs[i].1 == dr);
        lemma_slides_has(b, from, c, dirs, i, k);
        if p.kind == Kind::Queen {
            let a = slides(b, from, c, DIAG@);
            let o = slides(b, from, c, ORTHO@);
            if diagonal(df, dr) {
                let j = choose|j: int| 0 <= j < a.len() && a[j] == mv;
                assert((a + o)[j] == mv);
            } else {
                let j = choose|j: int| 0 <= j < o.len() && o[j] == mv;
                assert((a + o)[a.len() + j] == mv);
            }
        }
    }
    assert(ps.contains(mv));
    lemma_safe_keeps(b, c, ps, mv);
}

/// Law: playing a legal move that is not a castling move leaves its start
/// square empty and puts on its target square the moving piece, marked as
/// moved, or for a promotion a moved queen of the same colour. An en passant
/// capture also empties the square of the pawn taken, beside the start square
/// on the target's file; nothing else changes. Only a double pawn step
/// leaves an en passant square, the one it passed over.
pub proof fn moves_take_effect(b: Seq<Option<Piece>>, ep: Option<Square>, from: Square, mv: ChessMove)
    requires
        b.len() == 64,
        legal_moves(b, ep, from).contains(mv),
        mv.flag != MoveFlag::Castle,
    ensures
        ({
            let a = after(b, mv).0;
            let p = b[from.idx()]->0;
            let victim = sq(mv.to.file as int, from.rank as int);
            &&& b[from.idx()] is Some
            &&& a.len() == 64
            &&& a[from.idx()] is None
            &&& mv.flag == MoveFlag::Promotion ==> a[mv.to.idx()] == Some(
                Piece { color: p.color, kind: Kind::Queen, has_moved: true },
            )
            &&& mv.flag != MoveFlag::Promotion ==> a[mv.to.idx()] == Some(
                Piece { color: p.color, kind: p.kind, has_moved: true },
            )
            &&& mv.flag == MoveFlag::EnPassant ==> victim.inb() && a[victim.idx()] is None && victim != mv.to
                && victim != from
            &&& forall|i: int|
                0 <= i < 64 && i != from.idx() && i != mv.to.idx() && !(mv.flag == MoveFlag::EnPassant && i
                    == victim.idx()) ==> #[trigger] a[i] == b[i]
            &&& mv.flag == MoveFlag::DoublePawn ==> after(b, mv).1 == Some(
                sq(from.file as int, (from.rank + mv.to.rank) / 2),
            )
            &&& mv.flag != MoveFlag::DoublePawn ==> after(b, mv).1 is None
        }),
{
    legal_moves_from_land(b, ep, from, mv);
    pieces_move_as_they_should(b, ep, from, mv);
}

proof fn lemma_first_king(b: Seq<Option<Piece>>, color: Color, i: int)
    requires
        0 <= i <= 64,
    ensures
        first_king_from(b, color, i) matches Some(s) ==> s.inb() && i <= s.idx() < 64 && holds(b[s.idx()], color, Kind::King),
        first_king_from(b, color, i) is None ==> forall|j: int| i <= j < 64 ==> !holds(#[trigger] b[j], color, Kind::King),
    decreases 64 - i,
{
    if i < 64 {
        lemma_first_king(b, color, i + 1);
        let s = square_of(i);
        assert(s.inb() && s.idx() == i);
    }
}

/// Law: with exactly one king of `c` on the board, `c` is in check exactly
/// when that king's square is attacked by the other colour; without a king
/// of `c`, `c` is never in check.
pub proof fn check_means_the_king_is_attacked(b: Seq<Option<Piece>>, c: Color, k: Square)
    ensures
        (forall|j: int| 0 <= j < 64 ==> !holds(#[trigger] b[j], c, Kind::King)) ==> !in_check(b, c),
        k.inb() && holds(b[k.idx()], c, Kind::King) && (forall|j: int|
            0 <= j < 64 && j != k.idx() ==> !holds(#[trigger] b[j], c, Kind::King)) ==> (in_check(b, c) <==> attacked(
            b,
            k,
            c.other(),
        )),
{
    lemma_first_king(b, c, 0);
    if let Some(s) = first_king_from(b, c, 0) {
        assert(holds(b[s.idx()], c, Kind::King));
        if k.inb() && holds(b[k.idx()], c, Kind::King) && (forall|j: int|
            0 <= j < 64 && j != k.idx() ==> !holds(#[trigger] b[j], c, Kind::King)) {
            assert(s.idx() == k.idx());
            assert(s == k);
        }
    }
}

/// Law: the side to move is checkmated (the other side wins) when it has no
/// legal move and is in check, stalemated when it has no legal move and is
/// not in check, in check when it has a move and is in check, and otherwise
/// the game goes on.
pub proof fn status_law(b: Seq<Option<Piece>>, ep: Option<Square>, c: Color)
    ensures
        (status_of(b, ep, c) == Status::Checkmate { winner: c.other() }) <==> (all_legal(b, ep, c).len() == 0
            && in_check(b, c)),
        (status_of(b, ep, c) is Checkmate) ==> status_of(b, ep, c) == (Status::Checkmate { winner: c.other() }),
        (status_of(b, ep, c) == Status::Stalemate) <==> (all_legal(b, ep, c).len() == 0 && !in_check(b, c)),
        (status_of(b, ep, c) == Status::Check) <==> (all_legal(b, ep, c).len() > 0 && in_check(b, c)),
        (status_of(b, ep, c) == Status::Ongoing) <==> (all_legal(b, ep, c).len() > 0 && !in_check(b, c)),
{
}

/// Law: colours alternate.
pub proof fn opposite_is_involution(c: Color)
    ensures
        c.other().other() == c,
        c.other() != c,
{
}

} // verus!
