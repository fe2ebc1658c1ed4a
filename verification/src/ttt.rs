use vstd::prelude::*;

use crate::grid;
use crate::grid::Mark;
use crate::rng;
use crate::DecodeError;
use crate::GameStatus;
use crate::IllegalMoveError;

verus! {

/// Every cell of the grid carries a mark.
pub open spec fn board_full(cells: Seq<Option<Mark>>) -> bool {
    forall|k: int| 0 <= k < cells.len() ==> cells[k] is Some
}

/// The grid a tic-tac-toe transport string stands for: the empty string is
/// accepted as a fresh board, anything else must follow the grammar of
/// nine cells joined by single spaces.
pub open spec fn decoded(s: Seq<char>) -> Option<Seq<Option<Mark>>> {
    if s.len() == 0 {
        Some(grid::blank_cells(9))
    } else {
        grid::parse(s, false, 3, 9)
    }
}

/// The game is over: somebody completed a row of three, or no cell is left.
pub open spec fn terminal(cells: Seq<Option<Mark>>) -> bool {
    ||| grid::has_line(cells, 3, 3, 3, Mark::X)
    ||| grid::has_line(cells, 3, 3, 3, Mark::O)
    ||| board_full(cells)
}

/// What a reported status is allowed to say of a grid: a win or loss names
/// a mark that completed a row of three, a draw is a full board with no
/// such row, and in-progress is everything else.
pub open spec fn status_ok(cells: Seq<Option<Mark>>, st: GameStatus) -> bool {
    let x_wins = grid::has_line(cells, 3, 3, 3, Mark::X);
    let o_wins = grid::has_line(cells, 3, 3, 3, Mark::O);
    &&& (st is Win ==> x_wins)
    &&& (st is Loss ==> o_wins)
    &&& ((st is Win || st is Loss) <==> (x_wins || o_wins))
    &&& (st is Draw <==> (!x_wins && !o_wins && board_full(cells)))
    &&& (st is InProgress <==> (!x_wins && !o_wins && !board_full(cells)))
}

/// A 3-by-3 tic-tac-toe board, row-major. The human plays `X`, the engine
/// answers with `O`.
pub struct Board {
    chips: Vec<Option<Mark>>,
}

impl View for Board {
    type V = Seq<Option<Mark>>;

    closed spec fn view(&self) -> Seq<Option<Mark>> {
        self.chips@
    }
}

impl Board {
    /// The board always holds exactly nine cells.
    pub open spec fn wf(self) -> bool {
        self@.len() == 9
    }

    /// A fresh, all-empty board.
    pub fn new() -> (b: Board)
        ensures
            b.wf(),
            b@ =~= grid::blank_cells(9),
    {
        let mut chips: Vec<Option<Mark>> = Vec::new();
        let mut k: usize = 0;
        while k < 9
            invariant
                k <= 9,
                chips@ =~= grid::blank_cells(k as int),
            decreases 9 - k,
        {
            chips.push(None);
            assert(chips@ =~= grid::blank_cells(k + 1));
            k = k + 1;
        }
        Board { chips }
    }

    /// Reads a transport string. The empty string stands for a fresh
    /// board; every other string must be exactly the encoding of some
    /// board, else it is rejected.
    pub fn from(encoding: &str) -> (r: Result<Board, DecodeError>)
        ensures
            match r {
                Ok(b) => b.wf() && decoded(encoding@) == Some(b@),
                Err(e) => decoded(encoding@) is None && e == DecodeError::Malformed,
            },
    {
        if encoding.unicode_len() == 0 {
            Ok(Board::new())
        } else {
            match grid::decode_cells(encoding, false, 3, 9) {
                Ok(chips) => Ok(Board { chips }),
                Err(e) => Err(e),
            }
        }
    }

    /// Writes the transport string: the nine cells row-major, joined by
    /// single spaces, an empty cell contributing no character.
    pub fn encode(&self) -> (s: String)
        requires
            self.wf(),
        ensures
            s@ == grid::encoded(self@, false, 3),
    {
        grid::encode_cells(&self.chips, false, 3)
    }

    /// Places `player`'s mark on cell `(row, col)`. Rejected, with the
    /// board untouched, when the coordinate is off the board or the cell
    /// is already taken.
    pub fn make_move(&mut self, row: usize, col: usize, player: Mark) -> (r: Result<
        (),
        IllegalMoveError,
    >)
        requires
            old(self).wf(),
        ensures
            final(self).wf(),
            match r {
                Ok(()) => row < 3 && col < 3 && old(self)@[row * 3 + col] is None && final(self)@
                    == old(self)@.update(row * 3 + col, Some(player)),
                Err(_) => *final(self) == *old(self) && (row >= 3 || col >= 3 || old(self)@[row * 3
                    + col] is Some),
            },
    {
        if row < 3 && col < 3 {
            let k = row * 3 + col;
            match self.chips[k] {
                None => {
                    self.chips.set(k, Some(player));
                    Ok(())
                },
                Some(_) => Err(IllegalMoveError),
            }
        } else {
            Err(IllegalMoveError)
        }
    }

    /// Every cell is taken.
    pub fn is_full(&self) -> (r: bool)
        requires
            self.wf(),
        ensures
            r == board_full(self@),
    {
        let mut k: usize = 0;
        while k < 9
            invariant
                self.wf(),
                k <= 9,
                forall|k2: int| 0 <= k2 < k ==> self@[k2] is Some,
            decreases 9 - k,
        {
            match self.chips[k] {
                None => {
                    return false;
                },
                Some(_) => {
                },
            }
            k = k + 1;
        }
        true
    }

    /// The mark of a completed row of three, if there is one.
    pub fn has_win(&self) -> (w: Option<Mark>)
        requires
            self.wf(),
        ensures
            match w {
                Some(m) => grid::has_line(self@, 3, 3, 3, m),
                None => forall|m: Mark| !grid::has_line(self@, 3, 3, 3, m),
            },
    {
        grid::find_win(&self.chips, 3, 3, 3)
    }

    /// The state of the game: a win for whoever completed a row of three,
    /// a draw on a full board, in-progress otherwise.
    pub fn get_state(&self) -> (st: GameStatus)
        requires
            self.wf(),
        ensures
            status_ok(self@, st),
    {
        match self.has_win() {
            Some(Mark::X) => GameStatus::Win,
            Some(Mark::O) => GameStatus::Loss,
            None => {
                if self.is_full() {
                    GameStatus::Draw
                } else {
                    GameStatus::InProgress
                }
            },
        }
    }

    /// All coordinates whose cell is still empty, in row-major order.
    pub fn empty_cells(&self) -> (v: Vec<(usize, usize)>)
        requires
            self.wf(),
        ensures
            forall|k: int|
                0 <= k < v@.len() ==> (#[trigger] v@[k]).0 < 3 && v@[k].1 < 3 && self@[v@[k].0 * 3
                    + v@[k].1] is None,
            forall|i: usize, j: usize|
                i < 3 && j < 3 && self@[i * 3 + j] is None ==> #[trigger] v@.contains(((i, j))),
            forall|k1: int, k2: int|
                0 <= k1 < k2 < v@.len() ==> (#[trigger] v@[k1]).0 * 3 + v@[k1].1 < (
                #[trigger] v@[k2]).0 * 3 + v@[k2].1,
    {
        let mut v: Vec<(usize, usize)> = Vec::new();
        let mut i: usize = 0;
        while i < 3
            invariant
                self.wf(),
                i <= 3,
                forall|k: int|
                    0 <= k < v@.len() ==> (#[trigger] v@[k]).0 < 3 && v@[k].1 < 3
                        && self@[v@[k].0 * 3 + v@[k].1] is None,
                forall|i2: usize, j2: usize|
                    i2 < i && j2 < 3 && self@[i2 * 3 + j2] is None ==> #[trigger] v@.contains(
                        ((i2, j2)),
                    ),
                forall|k: int| 0 <= k < v@.len() ==> (#[trigger] v@[k]).0 * 3 + v@[k].1 < i * 3,
                forall|k1: int, k2: int|
                    0 <= k1 < k2 < v@.len() ==> (#[trigger] v@[k1]).0 * 3 + v@[k1].1 < (
                    #[trigger] v@[k2]).0 * 3 + v@[k2].1,
            decreases 3 - i,
        {
            let mut j: usize = 0;
            while j < 3
                invariant
                    self.wf(),
                    i < 3,
                    j <= 3,
                    forall|k: int|
                        0 <= k < v@.len() ==> (#[trigger] v@[k]).0 < 3 && v@[k].1 < 3
                            && self@[v@[k].0 * 3 + v@[k].1] is None,
                    forall|i2: usize, j2: usize|
                        i2 < i && j2 < 3 && self@[i2 * 3 + j2] is None ==> #[trigger] v@.contains(
                            ((i2, j2)),
                        ),
                    forall|j2: usize|
                        j2 < j && self@[i * 3 + j2] is None ==> #[trigger] v@.contains(((i, j2))),
                    forall|k: int|
                        0 <= k < v@.len() ==> (#[trigger] v@[k]).0 * 3 + v@[k].1 < i * 3 + j,
                    forall|k1: int, k2: int|
                        0 <= k1 < k2 < v@.len() ==> (#[trigger] v@[k1]).0 * 3 + v@[k1].1 < (
                        #[trigger] v@[k2]).0 * 3 + v@[k2].1,
                decreases 3 - j,
            {
                let ghost old_v = v@;
                let cell_empty = match self.chips[i * 3 + j] {
                    None => true,
                    Some(_) => false,
                };
                if cell_empty {
                    v.push((i, j));
                }
                proof {
                    if cell_empty {
                        assert(v@[v@.len() - 1] == ((i, j)));
                        assert(v@.contains(((i, j))));
                    }
                    assert forall|i2: usize, j2: usize|
                        i2 < 3 && j2 < 3 && old_v.contains(((i2, j2))) implies #[trigger] v@.contains(
                        ((i2, j2)),
                    ) by {
                        let k = choose|k: int| 0 <= k < old_v.len() && old_v[k] == ((i2, j2));
                        assert(v@[k] == ((i2, j2)));
                    };
                    assert forall|k1: int, k2: int|
                        0 <= k1 < k2 < v@.len() implies (#[trigger] v@[k1]).0 * 3 + v@[k1].1 < (
                    #[trigger] v@[k2]).0 * 3 + v@[k2].1 by {
                        assert(v@[k1] == old_v[k1]);
                        if k2 < old_v.len() {
                            assert(v@[k2] == old_v[k2]);
                        } else {
                            assert(v@[k2] == ((i, j)));
                        }
                    };
                }
                j = j + 1;
            }
            i = i + 1;
        }
        v
    }

    /// The engine's reply: a uniformly random empty cell receives an `O`.
    /// On a full board nothing happens. The chosen cell is always one that
    /// was empty.
    pub fn opponent_move(&mut self)
        requires
            old(self).wf(),
        ensures
            final(self).wf(),
            board_full(old(self)@) ==> final(self)@ == old(self)@,
            !board_full(old(self)@) ==> exists|p: int|
                0 <= p < 9 && old(self)@[p] is None && final(self)@ == old(self)@.update(
                    p,
                    Some(Mark::O),
                ),
    {
        let choices = self.empty_cells();
        if choices.len() > 0 {
            let k = rng::rand_below(choices.len());
            let (i, j) = choices[k];
            let ghost p = i * 3 + j;
            let r = self.make_move(i, j, Mark::O);
            proof {
                assert(old(self)@[p as int] is None);
                assert(r is Ok);
                assert(self@ == old(self)@.update(p as int, Some(Mark::O)));
            }
        } else {
            proof {
                assert forall|k: int| 0 <= k < 9 implies self@[k] is Some by {
                    let i = (k / 3) as usize;
                    let j = (k % 3) as usize;
                    assert(i * 3 + j == k);
                    if self@[i * 3 + j] is None {
                        assert(choices@.contains(((i, j))));
                    }
                };
            }
        }
    }
    /// The mark on cell `(row, col)`, if any.
    pub fn cell(&self, row: usize, col: usize) -> (c: Option<Mark>)
        requires
            self.wf(),
            row < 3,
            col < 3,
        ensures
            c == self@[row * 3 + col],
    {
        self.chips[row * 3 + col]
    }

    /// No cell carries a mark yet.
    pub fn is_blank(&self) -> (r: bool)
        requires
            self.wf(),
        ensures
            r == board_blank(self@),
    {
        let mut k: usize = 0;
        while k < 9
            invariant
                self.wf(),
                k <= 9,
                forall|k2: int| 0 <= k2 < k ==> self@[k2] is None,
            decreases 9 - k,
        {
            match self.chips[k] {
                Some(_) => {
                    return false;
                },
                None => {
                },
            }
            k = k + 1;
        }
        true
    }

    /// For each cell, the transport string of this board after the human
    /// puts an `X` there — or nothing where the cell is already taken.
    pub fn move_encodings(&self) -> (v: Vec<Option<String>>)
        requires
            self.wf(),
        ensures
            v@.len() == 9,
            forall|k: int|
                0 <= k < 9 ==> match #[trigger] v@[k] {
                    Some(s) => self@[k] is None && s@ == grid::encoded(
                        self@.update(k, Some(Mark::X)),
                        false,
                        3,
                    ),
                    None => self@[k] is Some,
                },
    {
        let mut v: Vec<Option<String>> = Vec::new();
        let mut k: usize = 0;
        while k < 9
            invariant
                self.wf(),
                k <= 9,
                v@.len() == k,
                forall|q: int|
                    0 <= q < k ==> match #[trigger] v@[q] {
                        Some(s) => self@[q] is None && s@ == grid::encoded(
                            self@.update(q, Some(Mark::X)),
                            false,
                            3,
                        ),
                        None => self@[q] is Some,
                    },
            decreases 9 - k,
        {
            match self.chips[k] {
                None => {
                    let cand = grid::with_cell(&self.chips, k, Mark::X);
                    let s = grid::encode_cells(&cand, false, 3);
                    v.push(Some(s));
                },
                Some(_) => {
                    v.push(None);
                },
            }
            k = k + 1;
        }
        v
    }
}

/// No cell carries a mark.
pub open spec fn board_blank(cells: Seq<Option<Mark>>) -> bool {
    forall|k: int| 0 <= k < cells.len() ==> cells[k] is None
}

/// What one served round must produce from the decoded board `d`: a fresh
/// or already-finished board passes through untouched — in particular the
/// engine never answers a move that completed the human's row — and
/// otherwise the engine has put its `O` into exactly one formerly empty
/// cell; the reported status describes the resulting board.
pub open spec fn play_ok(d: Seq<Option<Mark>>, b: Seq<Option<Mark>>, st: GameStatus) -> bool {
    &&& ((board_blank(d) || terminal(d)) ==> b == d)
    &&& ((!board_blank(d) && !terminal(d)) ==> exists|p: int|
        0 <= p < 9 && d[p] is None && b == d.update(p, Some(Mark::O)))
    &&& status_ok(b, st)
}

/// One full round of tic-tac-toe as the page sees it: read the incoming
/// state (which already contains the human's move), answer with a random
/// engine move unless the board is fresh or the game is over, and report
/// the final board and its status.
pub fn play(encoding: &str) -> (r: Result<(Board, GameStatus), DecodeError>)
    ensures
        match r {
            Ok(pair) => pair.0.wf() && match decoded(encoding@) {
                Some(d) => play_ok(d, pair.0@, pair.1),
                None => false,
            },
            Err(e) => decoded(encoding@) is None && e == DecodeError::Malformed,
        },
{
    match Board::from(encoding) {
        Err(e) => Err(e),
        Ok(mut b) => {
            let fresh = b.is_blank();
            let st0 = b.get_state();
            let advance = !fresh && match st0 {
                GameStatus::InProgress => true,
                _ => false,
            };
            if advance {
                b.opponent_move();
            }
            let st = b.get_state();
            Ok((b, st))
        },
    }
}

/// Round trip: the transport string written for any board reads back as
/// exactly that board.
pub proof fn lemma_round_trip(b: Board)
    requires
        b.wf(),
    ensures
        decoded(grid::encoded(b@, false, 3)) == Some(b@),
{
    grid::lemma_parse_encoded(b@, false, 3);
    assert(grid::encoded(b@, false, 3).len() > 0);
}

/// Round trip the other way: a non-empty transport string that decodes
/// re-encodes to exactly itself.
pub proof fn lemma_round_trip_string(s: Seq<char>, cells: Seq<Option<Mark>>)
    requires
        s.len() > 0,
        decoded(s) == Some(cells),
    ensures
        grid::encoded(cells, false, 3) == s,
{
    grid::lemma_encoded_parse(s, cells, false, 3, 9);
}

} // verus!
