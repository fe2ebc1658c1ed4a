use vstd::prelude::*;

use crate::grid;
use crate::grid::Mark;
use crate::rng;
use crate::DecodeError;
use crate::GameStatus;
use crate::IllegalMoveError;

verus! {

/// The grid a connect-four transport string stands for: the empty string
/// is accepted as a fresh board, anything else must follow the grammar of
/// five rows of seven cells, cells joined by spaces, rows joined by dots.
pub open spec fn decoded(s: Seq<char>) -> Option<Seq<Option<Mark>>> {
    if s.len() == 0 {
        Some(grid::blank_cells(35))
    } else {
        grid::parse(s, true, 7, 35)
    }
}

/// No cell carries a mark.
pub open spec fn board_blank(cells: Seq<Option<Mark>>) -> bool {
    forall|k: int| 0 <= k < cells.len() ==> cells[k] is None
}

/// Every cell of the top row is taken; with gravity intact this means the
/// whole board is.
pub open spec fn top_full(cells: Seq<Option<Mark>>) -> bool {
    forall|c: int| 0 <= c < 7 ==> grid::cell_at(cells, 7, 0, c) is Some
}

/// Chips rest on chips: below every taken cell the cell is taken too.
pub open spec fn gravity_ok(cells: Seq<Option<Mark>>) -> bool {
    forall|r: int, c: int|
        0 <= r < 4 && 0 <= c < 7 && #[trigger] grid::cell_at(cells, 7, r, c) is Some
            ==> grid::cell_at(cells, 7, r + 1, c) is Some
}

/// The lowest empty row of column `col` at or above row `r`, counting rows
/// downward; `-1` when the column is full up to row `r`.
pub open spec fn drop_row_from(cells: Seq<Option<Mark>>, col: int, r: int) -> int
    decreases r + 1,
{
    if r < 0 {
        -1
    } else if cells[r * 7 + col] is None {
        r
    } else {
        drop_row_from(cells, col, r - 1)
    }
}

/// The row where a chip dropped into column `col` comes to rest: the
/// lowest empty row of the column, `-1` when the column is full.
pub open spec fn drop_row(cells: Seq<Option<Mark>>, col: int) -> int {
    drop_row_from(cells, col, 4)
}

/// The game is over: somebody completed a run of four, or the top row is
/// full.
pub open spec fn terminal(cells: Seq<Option<Mark>>) -> bool {
    ||| grid::has_line(cells, 5, 7, 4, Mark::X)
    ||| grid::has_line(cells, 5, 7, 4, Mark::O)
    ||| top_full(cells)
}

/// What a reported status is allowed to say of a grid: a win or loss names
/// a mark with a completed run of four, a draw is a filled-up board with
/// no such run, and in-progress is everything else.
pub open spec fn status_ok(cells: Seq<Option<Mark>>, st: GameStatus) -> bool {
    let x_wins = grid::has_line(cells, 5, 7, 4, Mark::X);
    let o_wins = grid::has_line(cells, 5, 7, 4, Mark::O);
    &&& (st is Win ==> x_wins)
    &&& (st is Loss ==> o_wins)
    &&& ((st is Win || st is Loss) <==> (x_wins || o_wins))
    &&& (st is Draw <==> (!x_wins && !o_wins && top_full(cells)))
    &&& (st is InProgress <==> (!x_wins && !o_wins && !top_full(cells)))
}

/// What `drop_row_from` finds: an empty cell with only taken cells below
/// it, or a column that is taken from `r` all the way down.
proof fn lemma_drop_row_from(cells: Seq<Option<Mark>>, col: int, r: int)
    requires
        0 <= col < 7,
        r < 5,
    ensures
        drop_row_from(cells, col, r) >= 0 ==> {
            let d = drop_row_from(cells, col, r);
            &&& 0 <= d <= r
            &&& cells[d * 7 + col] is None
            &&& forall|r2: int| d < r2 <= r ==> grid::cell_at(cells, 7, r2, col) is Some
        },
        drop_row_from(cells, col, r) < 0 ==> forall|r2: int|
            0 <= r2 <= r ==> grid::cell_at(cells, 7, r2, col) is Some,
    decreases r + 1,
{
    if r >= 0 && !(cells[r * 7 + col] is None) {
        lemma_drop_row_from(cells, col, r - 1);
    }
}

/// What the landing row of a column tells about the column's cells.
pub proof fn lemma_drop_row(cells: Seq<Option<Mark>>, col: int)
    requires
        0 <= col < 7,
    ensures
        drop_row(cells, col) >= 0 ==> {
            let d = drop_row(cells, col);
            &&& 0 <= d < 5
            &&& cells[d * 7 + col] is None
            &&& forall|r2: int| d < r2 < 5 ==> grid::cell_at(cells, 7, r2, col) is Some
        },
        drop_row(cells, col) < 0 ==> forall|r2: int|
            0 <= r2 < 5 ==> grid::cell_at(cells, 7, r2, col) is Some,
{
    lemma_drop_row_from(cells, col, 4);
}

/// A 5-by-7 connect-four board, row-major with row 0 on top. The human
/// plays `X`, the engine answers with `O`; chips fall to the lowest empty
/// row of their column.
pub struct Board {
    chips: Vec<Option<Mark>>,
}

impl View for Board {
    type V = Seq<Option<Mark>>;

    closed spec fn view(&self) -> Seq<Option<Mark>> {
        self.chips@
    }
}

impl Board {
    /// The board always holds exactly thirty-five cells.
    pub open spec fn wf(self) -> bool {
        self@.len() == 35
    }

    /// A fresh, all-empty board.
    pub fn new() -> (b: Board)
        ensures
            b.wf(),
            b@ =~= grid::blank_cells(35),
    {
        let mut chips: Vec<Option<Mark>> = Vec::new();
        let mut k: usize = 0;
        while k < 35
            invariant
                k <= 35,
                chips@ =~= grid::blank_cells(k as int),
            decreases 35 - k,
        {
            chips.push(None);
            assert(chips@ =~= grid::blank_cells(k + 1));
            k = k + 1;
        }
        Board { chips }
    }

    /// Reads a transport string. The empty string stands for a fresh
    /// board; every other string must be exactly the encoding of some
    /// board, else it is rejected.
    pub fn from(encoding: &str) -> (r: Result<Board, DecodeError>)
        ensures
            match r {
                Ok(b) => b.wf() && decoded(encoding@) == Some(b@),
                Err(e) => decoded(encoding@) is None && e == DecodeError::Malformed,
            },
    {
        if encoding.unicode_len() == 0 {
            Ok(Board::new())
        } else {
            match grid::decode_cells(encoding, true, 7, 35) {
                Ok(chips) => Ok(Board { chips }),
                Err(e) => Err(e),
            }
        }
    }

    /// Writes the transport string: rows joined by dots, the cells of a
    /// row joined by spaces, an empty cell contributing no character.
    pub fn encode(&self) -> (s: String)
        requires
            self.wf(),
        ensures
            s@ == grid::encoded(self@, true, 7),
    {
        grid::encode_cells(&self.chips, true, 7)
    }

    /// Drops `player`'s chip into `col`: it comes to rest in the lowest
    /// empty row of that column. Rejected, with the board untouched, when
    /// the column is off the board or full.
    pub fn make_move(&mut self, col: usize, player: Mark) -> (r: Result<(), IllegalMoveError>)
        requires
            old(self).wf(),
        ensures
            final(self).wf(),
            match r {
                Ok(()) => col < 7 && drop_row(old(self)@, col as int) >= 0 && final(self)@ == old(
                    self,
                )@.update(drop_row(old(self)@, col as int) * 7 + col, Some(player)),
                Err(_) => *final(self) == *old(self) && (col >= 7 || drop_row(
                    old(self)@,
                    col as int,
                ) < 0),
            },
    {
        if col >= 7 {
            return Err(IllegalMoveError);
        }
        let mut i: usize = 5;
        while i > 0
            invariant
                self.wf(),
                *self == *old(self),
                col < 7,
                i <= 5,
                drop_row(self@, col as int) == drop_row_from(self@, col as int, i - 1),
            decreases i,
        {
            let r = i - 1;
            match self.chips[r * 7 + col] {
                None => {
                    assert(drop_row(self@, col as int) == r);
                    self.chips.set(r * 7 + col, Some(player));
                    return Ok(());
                },
                Some(_) => {
                    assert(drop_row_from(self@, col as int, i - 1) == drop_row_from(
                        self@,
                        col as int,
                        i - 2,
                    ));
                },
            }
            i = i - 1;
        }
        Err(IllegalMoveError)
    }

    /// The top row holds no empty cell; under gravity, the whole board is
    /// then full and no further chip can be dropped.
    pub fn is_full(&self) -> (r: bool)
        requires
            self.wf(),
        ensures
            r == top_full(self@),
    {
        let mut c: usize = 0;
        while c < 7
            invariant
                self.wf(),
                c <= 7,
                forall|c2: int| 0 <= c2 < c ==> grid::cell_at(self@, 7, 0, c2) is Some,
            decreases 7 - c,
        {
            match self.chips[c] {
                None => {
                    assert(grid::cell_at(self@, 7, 0, c as int) is None);
                    return false;
                },
                Some(_) => {
                    assert(grid::cell_at(self@, 7, 0, c as int) is Some);
                },
            }
            c = c + 1;
        }
        true
    }

    /// The mark of a completed run of four, if there is one.
    pub fn has_win(&self) -> (w: Option<Mark>)
        requires
            self.wf(),
        ensures
            match w {
                Some(m) => grid::has_line(self@, 5, 7, 4, m),
                None => forall|m: Mark| !grid::has_line(self@, 5, 7, 4, m),
            },
    {
        grid::find_win(&self.chips, 5, 7, 4)
    }

    /// The state of the game: a win for whoever completed a run of four, a
    /// draw on a filled-up board, in-progress otherwise.
    pub fn get_state(&self) -> (st: GameStatus)
        requires
            self.wf(),
        ensures
            status_ok(self@, st),
    {
        match self.has_win() {
            Some(Mark::X) => GameStatus::Win,
            Some(Mark::O) => GameStatus::Loss,
            None => {
                if self.is_full() {
                    GameStatus::Draw
                } else {
                    GameStatus::InProgress
                }
            },
        }
    }

    /// The mark on cell `(row, col)`, if any; row 0 is the top row.
    pub fn cell(&self, row: usize, col: usize) -> (c: Option<Mark>)
        requires
            self.wf(),
            row < 5,
            col < 7,
        ensures
            c == self@[row * 7 + col],
    {
        self.chips[row * 7 + col]
    }

    /// No cell carries a mark yet.
    pub fn is_blank(&self) -> (r: bool)
        requires
            self.wf(),
        ensures
            r == board_blank(self@),
    {
        let mut k: usize = 0;
        while k < 35
            invariant
                self.wf(),
                k <= 35,
                forall|k2: int| 0 <= k2 < k ==> self@[k2] is None,
            decreases 35 - k,
        {
            match self.chips[k] {
                Some(_) => {
                    return false;
                },
                None => {
                },
            }
            k = k + 1;
        }
        true
    }

    /// All columns whose top cell is still empty, left to right.
    pub fn open_columns(&self) -> (v: Vec<usize>)
        requires
            self.wf(),
        ensures
            forall|k: int|
                0 <= k < v@.len() ==> (#[trigger] v@[k]) < 7 && grid::cell_at(
                    self@,
                    7,
                    0,
                    v@[k] as int,
                ) is None,
            forall|c: usize|
                c < 7 && grid::cell_at(self@, 7, 0, c as int) is None ==> #[trigger] v@.contains(c),
            forall|k1: int, k2: int| 0 <= k1 < k2 < v@.len() ==> #[trigger] v@[k1] < #[trigger] v@[k2],
    {
        let mut v: Vec<usize> = Vec::new();
        let mut c: usize = 0;
        while c < 7
            invariant
                self.wf(),
                c <= 7,
                forall|k: int|
                    0 <= k < v@.len() ==> (#[trigger] v@[k]) < 7 && grid::cell_at(
                        self@,
                        7,
                        0,
                        v@[k] as int,
                    ) is None,
                forall|c2: usize|
                    c2 < c && grid::cell_at(self@, 7, 0, c2 as int) is None
                        ==> #[trigger] v@.contains(c2),
                forall|k: int| 0 <= k < v@.len() ==> (#[trigger] v@[k]) < c,
                forall|k1: int, k2: int|
                    0 <= k1 < k2 < v@.len() ==> #[trigger] v@[k1] < #[trigger] v@[k2],
            decreases 7 - c,
        {
            let ghost old_v = v@;
            let open_col = match self.chips[c] {
                None => true,
                Some(_) => false,
            };
            if open_col {
                v.push(c);
            }
            proof {
                assert(grid::cell_at(self@, 7, 0, c as int) == self@[c as int]);
                if open_col {
                    assert(v@[v@.len() - 1] == c);
                    assert(v@.contains(c));
                }
                assert forall|c2: usize| c2 < 7 && old_v.contains(c2) implies #[trigger] v@.contains(
                    c2,
                ) by {
                    let k = choose|k: int| 0 <= k < old_v.len() && old_v[k] == c2;
                    assert(v@[k] == c2);
                };
                assert forall|k1: int, k2: int|
                    0 <= k1 < k2 < v@.len() implies #[trigger] v@[k1] < #[trigger] v@[k2] by {
                    assert(v@[k1] == old_v[k1]);
                    if k2 < old_v.len() {
                        assert(v@[k2] == old_v[k2]);
                    } else {
                        assert(v@[k2] == c);
                    }
                };
            }
            c = c + 1;
        }
        v
    }

    /// The engine's reply: a chip dropped into a uniformly random column
    /// whose top cell is still open. The chosen column is never a full
    /// one; at least one column must still be open.
    pub fn opponent_move(&mut self)
        requires
            old(self).wf(),
            !top_full(old(self)@),
        ensures
            final(self).wf(),
            exists|c: int|
                0 <= c < 7 && grid::cell_at(old(self)@, 7, 0, c) is None && drop_row(old(self)@, c)
                    >= 0 && final(self)@ == old(self)@.update(
                    drop_row(old(self)@, c) * 7 + c,
                    Some(Mark::O),
                ),
    {
        let choices = self.open_columns();
        proof {
            let cw = choose|cw: int| 0 <= cw < 7 && !(grid::cell_at(old(self)@, 7, 0, cw) is Some);
            assert(choices@.contains((cw as usize)));
            assert(choices@.len() > 0);
        }
        let k = rng::rand_below(choices.len());
        let col = choices[k];
        let ghost c = col as int;
        proof {
            lemma_drop_row(self@, c);
            assert(grid::cell_at(self@, 7, 0, c) == self@[c]);
            if drop_row(self@, c) < 0 {
                assert(self@[0 * 7 + c] is Some);
            }
        }
        let r = self.make_move(col, Mark::O);
        proof {
            assert(r is Ok);
        }
    }

    /// The row where a chip dropped into `col` would come to rest, if the
    /// column still has room.
    pub fn landing_row(&self, col: usize) -> (r: Option<usize>)
        requires
            self.wf(),
            col < 7,
        ensures
            match r {
                Some(row) => row < 5 && drop_row(self@, col as int) == row,
                None => drop_row(self@, col as int) < 0,
            },
    {
        let mut i: usize = 5;
        while i > 0
            invariant
                self.wf(),
                col < 7,
                i <= 5,
                drop_row(self@, col as int) == drop_row_from(self@, col as int, i - 1),
            decreases i,
        {
            let r = i - 1;
            match self.chips[r * 7 + col] {
                None => {
                    return Some(r);
                },
                Some(_) => {
                    assert(drop_row_from(self@, col as int, i - 1) == drop_row_from(
                        self@,
                        col as int,
                        i - 2,
                    ));
                },
            }
            i = i - 1;
        }
        None
    }

    /// For each column, the transport string of this board after the
    /// human drops an `X` there — or nothing where the column is full.
    pub fn move_encodings(&self) -> (v: Vec<Option<String>>)
        requires
            self.wf(),
        ensures
            v@.len() == 7,
            forall|c: int|
                0 <= c < 7 ==> match #[trigger] v@[c] {
                    Some(s) => drop_row(self@, c) >= 0 && s@ == grid::encoded(
                        self@.update(drop_row(self@, c) * 7 + c, Some(Mark::X)),
                        true,
                        7,
                    ),
                    None => drop_row(self@, c) < 0,
                },
    {
        let mut v: Vec<Option<String>> = Vec::new();
        let mut c: usize = 0;
        while c < 7
            invariant
                self.wf(),
                c <= 7,
                v@.len() == c,
                forall|c2: int|
                    0 <= c2 < c ==> match #[trigger] v@[c2] {
                        Some(s) => drop_row(self@, c2) >= 0 && s@ == grid::encoded(
                            self@.update(drop_row(self@, c2) * 7 + c2, Some(Mark::X)),
                            true,
                            7,
                        ),
                        None => drop_row(self@, c2) < 0,
                    },
            decreases 7 - c,
        {
            match self.landing_row(c) {
                Some(row) => {
                    proof {
                        lemma_drop_row(self@, c as int);
                    }
                    let cand = grid::with_cell(&self.chips, row * 7 + c, Mark::X);
                    let s = grid::encode_cells(&cand, true, 7);
                    v.push(Some(s));
                },
                None => {
                    v.push(None);
                },
            }
            c = c + 1;
        }
        v
    }
}

/// What one served round must produce from the decoded board `d`: a round
/// asked for with no incoming state serves a fresh board untouched, a
/// finished board passes through untouched — in particular the engine
/// never answers a move that completed the human's run — and otherwise the
/// engine has dropped its `O` into some open column; the reported status
/// describes the resulting board.
pub open spec fn play_ok(
    s: Seq<char>,
    d: Seq<Option<Mark>>,
    b: Seq<Option<Mark>>,
    st: GameStatus,
) -> bool {
    &&& ((s.len() == 0 || terminal(d)) ==> b == d)
    &&& ((s.len() > 0 && !terminal(d)) ==> exists|c: int|
        0 <= c < 7 && grid::cell_at(d, 7, 0, c) is None && drop_row(d, c) >= 0 && b == d.update(
            drop_row(d, c) * 7 + c,
            Some(Mark::O),
        ))
    &&& status_ok(b, st)
}

/// One full round of connect-four as the page sees it: read the incoming
/// state (which already contains the human's move), answer with a chip in
/// a random open column unless there was no incoming state or the game is
/// over, and report the final board and its status.
pub fn play(encoding: &str) -> (r: Result<(Board, GameStatus), DecodeError>)
    ensures
        match r {
            Ok(pair) => pair.0.wf() && match decoded(encoding@) {
                Some(d) => play_ok(encoding@, d, pair.0@, pair.1),
                None => false,
            },
            Err(e) => decoded(encoding@) is None && e == DecodeError::Malformed,
        },
{
    let fresh = encoding.unicode_len() == 0;
    match Board::from(encoding) {
        Err(e) => Err(e),
        Ok(mut b) => {
            let st0 = b.get_state();
            let advance = !fresh && match st0 {
                GameStatus::InProgress => true,
                _ => false,
            };
            if advance {
                b.opponent_move();
            }
            let st = b.get_state();
            Ok((b, st))
        },
    }
}

/// A dropped chip preserves gravity: it comes to rest on the column's
/// topmost chip or on the floor, so chips keep resting on chips.
pub proof fn lemma_move_keeps_gravity(d: Seq<Option<Mark>>, col: int, m: Mark)
    requires
        d.len() == 35,
        0 <= col < 7,
        gravity_ok(d),
        drop_row(d, col) >= 0,
    ensures
        gravity_ok(d.update(drop_row(d, col) * 7 + col, Some(m))),
{
    let dr = drop_row(d, col);
    lemma_drop_row(d, col);
    let b = d.update(dr * 7 + col, Some(m));
    assert forall|r: int, c: int|
        0 <= r < 4 && 0 <= c < 7 && #[trigger] grid::cell_at(b, 7, r, c) is Some implies grid::cell_at(
        b,
        7,
        r + 1,
        c,
    ) is Some by {
        assert(r * 7 + c == dr * 7 + col ==> r == dr && c == col);
        assert((r + 1) * 7 + c == dr * 7 + col ==> r + 1 == dr && c == col);
        if r == dr && c == col {
            // the fresh chip: the cell below it was already taken
            assert(grid::cell_at(d, 7, r + 1, c) is Some);
        } else {
            // an old chip: gravity held for it in the old board, and the
            // cell below it can only have gained a chip
            assert(grid::cell_at(b, 7, r, c) == grid::cell_at(d, 7, r, c));
            assert(grid::cell_at(d, 7, r + 1, c) is Some);
        }
    };
}

/// With gravity intact, column `c` is taken from the top down to row `r`
/// whenever its top cell is taken.
proof fn lemma_col_filled(d: Seq<Option<Mark>>, c: int, r: int)
    requires
        d.len() == 35,
        gravity_ok(d),
        0 <= c < 7,
        0 <= r < 5,
        grid::cell_at(d, 7, 0, c) is Some,
    ensures
        grid::cell_at(d, 7, r, c) is Some,
    decreases r,
{
    if r > 0 {
        lemma_col_filled(d, c, r - 1);
    }
}

/// With gravity intact, a full top row means every cell of the board is
/// taken: checking the top row suffices to detect the draw.
pub proof fn lemma_top_full_is_full(d: Seq<Option<Mark>>)
    requires
        d.len() == 35,
        gravity_ok(d),
        top_full(d),
    ensures
        forall|k: int| 0 <= k < 35 ==> d[k] is Some,
{
    assert forall|k: int| 0 <= k < 35 implies d[k] is Some by {
        let r = k / 7;
        let c = k % 7;
        assert(r * 7 + c == k);
        lemma_col_filled(d, c, r);
        assert(grid::cell_at(d, 7, r, c) is Some);
    };
}

/// Round trip: the transport string written for any board reads back as
/// exactly that board.
pub proof fn lemma_round_trip(b: Board)
    requires
        b.wf(),
    ensures
        decoded(grid::encoded(b@, true, 7)) == Some(b@),
{
    grid::lemma_parse_encoded(b@, true, 7);
    assert(grid::encoded(b@, true, 7).len() > 0);
}

/// Round trip the other way: a non-empty transport string that decodes
/// re-encodes to exactly itself.
pub proof fn lemma_round_trip_string(s: Seq<char>, cells: Seq<Option<Mark>>)
    requires
        s.len() > 0,
        decoded(s) == Some(cells),
    ensures
        grid::encoded(cells, true, 7) == s,
{
    grid::lemma_encoded_parse(s, cells, true, 7, 35);
}

} // verus!
