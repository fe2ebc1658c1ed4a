use vstd::prelude::*;

use crate::rng;
use crate::DecodeError;
use crate::GameStatus;

verus! {

/// One cell of the battleship grid. `Untried` and `Ship` both render as
/// unrevealed water to the player; `Hit` and `Miss` are revealed shots.
#[derive(Clone, Copy, PartialEq, Eq, Structural, Debug)]
pub enum Tile {
    Hit,
    Miss,
    Untried,
    Ship,
}

/// The tile of a nested row-major grid at row `i`, column `j`.
pub open spec fn tile_at(b: Seq<Vec<Tile>>, i: int, j: int) -> Tile {
    b[i]@[j]
}

/// The grid has `rows` rows of `cols` tiles each.
pub open spec fn grid_wf(b: Seq<Vec<Tile>>, rows: int, cols: int) -> bool {
    b.len() == rows && forall|i: int| 0 <= i < rows ==> (#[trigger] b[i])@.len() == cols
}

/// How many tiles of a row equal `t`.
pub open spec fn row_count(row: Seq<Tile>, t: Tile) -> int
    decreases row.len(),
{
    if row.len() == 0 {
        0
    } else {
        row_count(row.drop_last(), t) + if row.last() == t {
            1 as int
        } else {
            0 as int
        }
    }
}

/// How many tiles of the whole grid equal `t`.
pub open spec fn grid_count(b: Seq<Vec<Tile>>, t: Tile) -> int
    decreases b.len(),
{
    if b.len() == 0 {
        0
    } else {
        grid_count(b.drop_last(), t) + row_count(b.last()@, t)
    }
}

/// No shot has been taken: every tile is still water or hidden ship.
pub open spec fn unrevealed(b: Seq<Vec<Tile>>) -> bool {
    forall|i: int, j: int|
        0 <= i < b.len() && 0 <= j < b[i]@.len() ==> (#[trigger] tile_at(b, i, j) == Tile::Untried
            || tile_at(b, i, j) == Tile::Ship)
}

/// A row's count of any tile lies between zero and the row's width.
proof fn lemma_row_count_bounds(row: Seq<Tile>, t: Tile)
    ensures
        0 <= row_count(row, t) <= row.len(),
    decreases row.len(),
{
    if row.len() > 0 {
        lemma_row_count_bounds(row.drop_last(), t);
    }
}

/// Overwriting one tile moves the row's count by the difference between
/// what leaves and what arrives.
proof fn lemma_row_count_update(row: Seq<Tile>, j: int, v: Tile, t: Tile)
    requires
        0 <= j < row.len(),
    ensures
        row_count(row.update(j, v), t) == row_count(row, t) - (if row[j] == t {
            1 as int
        } else {
            0 as int
        }) + (if v == t {
            1 as int
        } else {
            0 as int
        }),
    decreases row.len(),
{
    let n = row.len() - 1;
    if j == n {
        assert(row.update(j, v).drop_last() =~= row.drop_last());
    } else {
        assert(row.update(j, v).drop_last() =~= row.drop_last().update(j, v));
        lemma_row_count_update(row.drop_last(), j, v, t);
    }
}

/// Replacing one row moves the grid's count by the difference between the
/// old and the new row's counts.
proof fn lemma_grid_count_update(b: Seq<Vec<Tile>>, i: int, newrow: Vec<Tile>, t: Tile)
    requires
        0 <= i < b.len(),
    ensures
        grid_count(b.update(i, newrow), t) == grid_count(b, t) - row_count(b[i]@, t) + row_count(
            newrow@,
            t,
        ),
    decreases b.len(),
{
    let n = b.len() - 1;
    if i == n {
        assert(b.update(i, newrow).drop_last() =~= b.drop_last());
    } else {
        assert(b.update(i, newrow).drop_last() =~= b.drop_last().update(i, newrow));
        lemma_grid_count_update(b.drop_last(), i, newrow, t);
    }
}

/// A tile that occurs nowhere in a row counts zero.
proof fn lemma_row_count_absent(row: Seq<Tile>, t: Tile)
    requires
        forall|j: int| 0 <= j < row.len() ==> row[j] != t,
    ensures
        row_count(row, t) == 0,
    decreases row.len(),
{
    if row.len() > 0 {
        lemma_row_count_absent(row.drop_last(), t);
    }
}

/// A tile that occurs nowhere in the grid counts zero.
proof fn lemma_grid_count_absent(b: Seq<Vec<Tile>>, t: Tile)
    requires
        forall|i: int, j: int| 0 <= i < b.len() && 0 <= j < b[i]@.len() ==> tile_at(b, i, j) != t,
    ensures
        grid_count(b, t) == 0,
    decreases b.len(),
{
    if b.len() > 0 {
        assert forall|i: int, j: int|
            0 <= i < b.drop_last().len() && 0 <= j < b.drop_last()[i]@.len() implies tile_at(
            b.drop_last(),
            i,
            j,
        ) != t by {
            assert(tile_at(b, i, j) != t);
        };
        lemma_grid_count_absent(b.drop_last(), t);
        assert forall|j: int| 0 <= j < b.last()@.len() implies b.last()@[j] != t by {
            assert(tile_at(b, b.len() - 1, j) != t);
        };
        lemma_row_count_absent(b.last()@, t);
    }
}

/// Overwrites one tile of the grid, leaving every other tile in place.
fn set_tile(board: &mut Vec<Vec<Tile>>, i: usize, j: usize, t: Tile)
    requires
        i < old(board)@.len(),
        j < old(board)@[i as int]@.len(),
    ensures
        final(board)@.len() == old(board)@.len(),
        forall|i2: int|
            0 <= i2 < old(board)@.len() && i2 != i ==> final(board)@[i2] == old(board)@[i2],
        final(board)@[i as int]@ == old(board)@[i as int]@.update(j as int, t),
{
    board[i].set(j, t);
}

/// What one shot does to the tile it lands on: a hidden ship is hit,
/// untried water is a miss, an already-revealed tile stays as it is.
pub open spec fn revealed_tile(t: Tile) -> Tile {
    match t {
        Tile::Ship => Tile::Hit,
        Tile::Untried => Tile::Miss,
        _ => t,
    }
}

/// Applies one shot at `(i, j)`: reveals the tile there and touches
/// nothing else. Firing at an already-revealed tile changes nothing, so a
/// repeated shot is a no-op on the board.
pub fn fire(board: &mut Vec<Vec<Tile>>, i: usize, j: usize)
    requires
        i < old(board)@.len(),
        j < old(board)@[i as int]@.len(),
    ensures
        final(board)@.len() == old(board)@.len(),
        forall|i2: int|
            0 <= i2 < old(board)@.len() && i2 != i ==> final(board)@[i2] == old(board)@[i2],
        final(board)@[i as int]@ == old(board)@[i as int]@.update(
            j as int,
            revealed_tile(tile_at(old(board)@, i as int, j as int)),
        ),
{
    let t = board[i][j];
    match t {
        Tile::Ship => {
            set_tile(board, i, j, Tile::Hit);
        },
        Tile::Untried => {
            set_tile(board, i, j, Tile::Miss);
        },
        _ => {
            proof {
                assert(old(board)@[i as int]@ =~= old(board)@[i as int]@.update(
                    j as int,
                    revealed_tile(tile_at(old(board)@, i as int, j as int)),
                ));
            }
        },
    }
}

/// No tile counts below zero.
proof fn lemma_grid_count_nonneg(b: Seq<Vec<Tile>>, t: Tile)
    ensures
        grid_count(b, t) >= 0,
    decreases b.len(),
{
    if b.len() > 0 {
        lemma_grid_count_nonneg(b.drop_last(), t);
        lemma_row_count_bounds(b.last()@, t);
    }
}

/// Hits stay within the fleet: whenever the hits and the still-hidden
/// ship tiles together fit under a bound — as they do on a fresh board,
/// whose hidden ship tiles fleet creation bounds by the ships' combined
/// length, and as every shot preserves — the hits alone fit under it too.
pub proof fn lemma_hits_bounded(b: Seq<Vec<Tile>>, max: int)
    requires
        grid_count(b, Tile::Hit) + grid_count(b, Tile::Ship) <= max,
    ensures
        grid_count(b, Tile::Hit) <= max,
{
    lemma_grid_count_nonneg(b, Tile::Ship);
}

/// A shot never changes the combined number of hits and hidden ship
/// tiles, and raises the hit count by at most one: hits can never exceed
/// the ship tiles that were ever placed.
pub proof fn lemma_fire_conserves(b: Seq<Vec<Tile>>, a: Seq<Vec<Tile>>, i: int, j: int)
    requires
        a.len() == b.len(),
        0 <= i < b.len(),
        0 <= j < b[i]@.len(),
        forall|i2: int| 0 <= i2 < b.len() && i2 != i ==> a[i2] == b[i2],
        a[i]@ == b[i]@.update(j, revealed_tile(tile_at(b, i, j))),
    ensures
        grid_count(a, Tile::Hit) + grid_count(a, Tile::Ship) == grid_count(b, Tile::Hit)
            + grid_count(b, Tile::Ship),
        grid_count(b, Tile::Hit) <= grid_count(a, Tile::Hit) <= grid_count(b, Tile::Hit) + 1,
        grid_count(a, Tile::Miss) >= grid_count(b, Tile::Miss),
{
    assert(a =~= b.update(i, a[i]));
    lemma_grid_count_update(b, i, a[i], Tile::Hit);
    lemma_grid_count_update(b, i, a[i], Tile::Ship);
    lemma_grid_count_update(b, i, a[i], Tile::Miss);
    lemma_row_count_update(b[i]@, j, revealed_tile(tile_at(b, i, j)), Tile::Hit);
    lemma_row_count_update(b[i]@, j, revealed_tile(tile_at(b, i, j)), Tile::Ship);
    lemma_row_count_update(b[i]@, j, revealed_tile(tile_at(b, i, j)), Tile::Miss);
}

/// Counts the revealed hits on the board.
pub fn count_hits(board: &Vec<Vec<Tile>>, rows: usize, cols: usize) -> (n: usize)
    requires
        grid_wf(board@, rows as int, cols as int),
        rows <= 100,
        cols <= 100,
    ensures
        n == grid_count(board@, Tile::Hit),
{
    let mut total: usize = 0;
    let mut i: usize = 0;
    while i < rows
        invariant
            grid_wf(board@, rows as int, cols as int),
            rows <= 100,
            cols <= 100,
            i <= rows,
            total <= i * cols,
            total == grid_count(board@.take(i as int), Tile::Hit),
        decreases rows - i,
    {
        let row = &board[i];
        let mut rowc: usize = 0;
        let mut j: usize = 0;
        while j < cols
            invariant
                row@.len() == cols,
                cols <= 100,
                j <= cols,
                rowc <= j,
                rowc == row_count(row@.take(j as int), Tile::Hit),
            decreases cols - j,
        {
            let is_hit = match row[j] {
                Tile::Hit => true,
                _ => false,
            };
            proof {
                assert(row@.take(j + 1).drop_last() =~= row@.take(j as int));
                assert(row@.take(j + 1).last() == row@[j as int]);
            }
            if is_hit {
                rowc = rowc + 1;
            }
            j = j + 1;
        }
        proof {
            assert(row@.take(cols as int) =~= row@);
            assert(board@.take(i + 1).drop_last() =~= board@.take(i as int));
            assert(board@.take(i + 1).last() == board@[i as int]);
            assert((i + 1) * cols == i * cols + cols && i * cols + cols <= rows * cols
                && rows * cols <= 10000) by (nonlinear_arith)
                requires
                    i < rows,
                    rows <= 100,
                    cols <= 100,
            ;
        }
        total = total + rowc;
        i = i + 1;
    }
    proof {
        assert(board@.take(rows as int) =~= board@);
    }
    total
}

/// The game's outcome for a board and a remaining shot budget: a win as
/// soon as every ship tile is hit — even on the last shot — a loss when
/// the budget has just run out, in-progress otherwise.
pub fn check_terminal(
    board: &Vec<Vec<Tile>>,
    rows: usize,
    cols: usize,
    moves_left: i32,
    max_hits: usize,
) -> (st: GameStatus)
    requires
        grid_wf(board@, rows as int, cols as int),
        rows <= 100,
        cols <= 100,
    ensures
        (st is Win) <==> grid_count(board@, Tile::Hit) == max_hits,
        (st is Loss) <==> (grid_count(board@, Tile::Hit) != max_hits && moves_left == 0),
        (st is InProgress) <==> (grid_count(board@, Tile::Hit) != max_hits && moves_left != 0),
        !(st is Draw),
{
    let hits = count_hits(board, rows, cols);
    if hits == max_hits {
        GameStatus::Win
    } else if moves_left == 0 {
        GameStatus::Loss
    } else {
        GameStatus::InProgress
    }
}

/// The cells a ship of length `len` would occupy from `(r, c)` onward.
pub open spec fn in_segment(i: int, j: int, r: int, c: int, len: int, horiz: bool) -> bool {
    if horiz {
        i == r && c <= j < c + len
    } else {
        j == c && r <= i < r + len
    }
}

/// Row of the `t`-th cell of such a ship.
pub open spec fn seg_i(r: int, t: int, horiz: bool) -> int {
    if horiz {
        r
    } else {
        r + t
    }
}

/// Column of the `t`-th cell of such a ship.
pub open spec fn seg_j(c: int, t: int, horiz: bool) -> int {
    if horiz {
        c + t
    } else {
        c
    }
}

/// A ship hull of the given length lies entirely on the board when
/// anchored at `(r, c)` with this orientation.
pub open spec fn seg_in_bounds(rows: int, cols: int, r: int, c: int, len: int, horiz: bool) -> bool {
    if horiz {
        0 <= r < rows && 0 <= c && c + len <= cols
    } else {
        0 <= r && r + len <= rows && 0 <= c < cols
    }
}

/// Ship `k` of the request list was placed and its hull covers `(i, j)`.
/// A placement record entry is the hull's anchor row, anchor column and
/// orientation; `None` stands for a ship that placement gave up on.
pub open spec fn placed_covers(
    ships: Seq<usize>,
    pl: Seq<Option<(int, int, bool)>>,
    k: int,
    i: int,
    j: int,
) -> bool {
    match pl[k] {
        Some(seg) => in_segment(i, j, seg.0, seg.1, ships[k] as int, seg.2),
        None => false,
    }
}

/// `pl` is a faithful placement record for board `b`: one entry per
/// recorded ship, every placed hull a straight in-bounds segment of its
/// ship's requested length, no two hulls sharing a cell, and the board's
/// ship tiles exactly the placed hulls' cells — so every ship is either
/// fully on the board or wholly absent, and ships never overlap.
pub open spec fn fleet_laid(
    b: Seq<Vec<Tile>>,
    rows: int,
    cols: int,
    ships: Seq<usize>,
    pl: Seq<Option<(int, int, bool)>>,
) -> bool {
    &&& pl.len() <= ships.len()
    &&& forall|k: int|
        0 <= k < pl.len() ==> match #[trigger] pl[k] {
            Some(seg) => seg_in_bounds(rows, cols, seg.0, seg.1, ships[k] as int, seg.2),
            None => true,
        }
    &&& forall|k1: int, k2: int, i: int, j: int|
        #![trigger placed_covers(ships, pl, k1, i, j), placed_covers(ships, pl, k2, i, j)]
        0 <= k1 < k2 < pl.len() && placed_covers(ships, pl, k1, i, j) ==> !placed_covers(
            ships,
            pl,
            k2,
            i,
            j,
        )
    &&& forall|i: int, j: int|
        0 <= i < rows && 0 <= j < cols ==> (#[trigger] tile_at(b, i, j) == Tile::Ship
            <==> exists|k: int| 0 <= k < pl.len() && #[trigger] placed_covers(ships, pl, k, i, j))
}

/// The combined length of the ships a placement record says were placed.
pub open spec fn placed_total(ships: Seq<usize>, pl: Seq<Option<(int, int, bool)>>) -> int
    decreases pl.len(),
{
    if pl.len() == 0 {
        0
    } else {
        placed_total(ships, pl.drop_last()) + if pl.last() is Some {
            ships[pl.len() - 1] as int
        } else {
            0 as int
        }
    }
}

/// Every cell a placed hull covers lies on the board and carries a ship
/// tile.
proof fn lemma_hull_cells_are_ship(
    b: Seq<Vec<Tile>>,
    rows: int,
    cols: int,
    ships: Seq<usize>,
    pl: Seq<Option<(int, int, bool)>>,
    k: int,
    i: int,
    j: int,
)
    requires
        fleet_laid(b, rows, cols, ships, pl),
        0 <= k < pl.len(),
        placed_covers(ships, pl, k, i, j),
    ensures
        0 <= i < rows && 0 <= j < cols,
        tile_at(b, i, j) == Tile::Ship,
{
    assert(match pl[k] {
        Some(seg) => seg_in_bounds(rows, cols, seg.0, seg.1, ships[k] as int, seg.2),
        None => true,
    });
}

/// A ship that placement gave up on adds nothing to the record.
proof fn lemma_fleet_extend_none(
    b: Seq<Vec<Tile>>,
    rows: int,
    cols: int,
    ships: Seq<usize>,
    pl: Seq<Option<(int, int, bool)>>,
)
    requires
        pl.len() < ships.len(),
        fleet_laid(b, rows, cols, ships, pl),
    ensures
        fleet_laid(b, rows, cols, ships, pl.push(None)),
{
    let pl2 = pl.push(None);
    assert forall|k1: int, k2: int, i: int, j: int|
        #![trigger placed_covers(ships, pl2, k1, i, j), placed_covers(ships, pl2, k2, i, j)]
        0 <= k1 < k2 < pl2.len() && placed_covers(ships, pl2, k1, i, j) implies !placed_covers(
        ships,
        pl2,
        k2,
        i,
        j,
    ) by {
        if k2 < pl.len() {
            assert(pl2[k1] == pl[k1]);
            assert(pl2[k2] == pl[k2]);
            assert(placed_covers(ships, pl, k1, i, j));
            assert(!placed_covers(ships, pl, k2, i, j));
        } else {
            assert(pl2[k2] is None);
        }
    };
    assert forall|i: int, j: int| 0 <= i < rows && 0 <= j < cols implies (#[trigger] tile_at(
        b,
        i,
        j,
    ) == Tile::Ship <==> exists|k: int|
        0 <= k < pl2.len() && #[trigger] placed_covers(ships, pl2, k, i, j)) by {
        if tile_at(b, i, j) == Tile::Ship {
            let k = choose|k: int| 0 <= k < pl.len() && #[trigger] placed_covers(ships, pl, k, i, j);
            assert(pl2[k] == pl[k]);
            assert(placed_covers(ships, pl2, k, i, j));
        }
        if exists|k: int| 0 <= k < pl2.len() && #[trigger] placed_covers(ships, pl2, k, i, j) {
            let k = choose|k: int|
                0 <= k < pl2.len() && #[trigger] placed_covers(ships, pl2, k, i, j);
            if k < pl.len() {
                assert(pl2[k] == pl[k]);
                assert(placed_covers(ships, pl, k, i, j));
            } else {
                assert(pl2[k] is None);
            }
        }
    };
}

/// Writing a ship onto cells that were all untried water extends the
/// record by that ship: the fresh hull cannot touch an older one, whose
/// cells already carried ship tiles.
proof fn lemma_fleet_extend_placed(
    b0: Seq<Vec<Tile>>,
    b1: Seq<Vec<Tile>>,
    rows: int,
    cols: int,
    ships: Seq<usize>,
    pl: Seq<Option<(int, int, bool)>>,
    r: int,
    c: int,
    horiz: bool,
)
    requires
        pl.len() < ships.len(),
        fleet_laid(b0, rows, cols, ships, pl),
        seg_in_bounds(rows, cols, r, c, ships[pl.len() as int] as int, horiz),
        forall|i: int, j: int|
            0 <= i < rows && 0 <= j < cols ==> #[trigger] tile_at(b1, i, j) == (if in_segment(
                i,
                j,
                r,
                c,
                ships[pl.len() as int] as int,
                horiz,
            ) {
                Tile::Ship
            } else {
                tile_at(b0, i, j)
            }),
        forall|i: int, j: int|
            0 <= i < rows && 0 <= j < cols && in_segment(
                i,
                j,
                r,
                c,
                ships[pl.len() as int] as int,
                horiz,
            ) ==> #[trigger] tile_at(b0, i, j) == Tile::Untried,
    ensures
        fleet_laid(b1, rows, cols, ships, pl.push(Some((r, c, horiz)))),
{
    let kn = pl.len() as int;
    let len = ships[kn] as int;
    let pl2 = pl.push(Some((r, c, horiz)));
    assert forall|k: int|
        0 <= k < pl2.len() implies match #[trigger] pl2[k] {
        Some(seg) => seg_in_bounds(rows, cols, seg.0, seg.1, ships[k] as int, seg.2),
        None => true,
    } by {
        if k < kn {
            assert(pl2[k] == pl[k]);
        } else {
            assert(pl2[k] == Some((r, c, horiz)));
        }
    };
    assert forall|k1: int, k2: int, i: int, j: int|
        #![trigger placed_covers(ships, pl2, k1, i, j), placed_covers(ships, pl2, k2, i, j)]
        0 <= k1 < k2 < pl2.len() && placed_covers(ships, pl2, k1, i, j) implies !placed_covers(
        ships,
        pl2,
        k2,
        i,
        j,
    ) by {
        assert(pl2[k1] == pl[k1]);
        if k2 < kn {
            assert(pl2[k2] == pl[k2]);
            assert(placed_covers(ships, pl, k1, i, j));
            assert(!placed_covers(ships, pl, k2, i, j));
        } else {
            assert(pl2[k2] == Some((r, c, horiz)));
            if placed_covers(ships, pl2, k2, i, j) {
                assert(placed_covers(ships, pl, k1, i, j));
                lemma_hull_cells_are_ship(b0, rows, cols, ships, pl, k1, i, j);
                assert(in_segment(i, j, r, c, len, horiz));
                assert(tile_at(b0, i, j) == Tile::Untried);
            }
        }
    };
    assert forall|i: int, j: int| 0 <= i < rows && 0 <= j < cols implies (#[trigger] tile_at(
        b1,
        i,
        j,
    ) == Tile::Ship <==> exists|k: int|
        0 <= k < pl2.len() && #[trigger] placed_covers(ships, pl2, k, i, j)) by {
        if in_segment(i, j, r, c, len, horiz) {
            assert(tile_at(b1, i, j) == Tile::Ship);
            assert(pl2[kn] == Some((r, c, horiz)));
            assert(placed_covers(ships, pl2, kn, i, j));
        } else {
            assert(tile_at(b1, i, j) == tile_at(b0, i, j));
            if tile_at(b1, i, j) == Tile::Ship {
                let k = choose|k: int|
                    0 <= k < pl.len() && #[trigger] placed_covers(ships, pl, k, i, j);
                assert(pl2[k] == pl[k]);
                assert(placed_covers(ships, pl2, k, i, j));
            }
            if exists|k: int| 0 <= k < pl2.len() && #[trigger] placed_covers(ships, pl2, k, i, j) {
                let k = choose|k: int|
                    0 <= k < pl2.len() && #[trigger] placed_covers(ships, pl2, k, i, j);
                if k < kn {
                    assert(pl2[k] == pl[k]);
                    assert(placed_covers(ships, pl, k, i, j));
                } else {
                    assert(pl2[k] == Some((r, c, horiz)));
                    assert(in_segment(i, j, r, c, len, horiz));
                }
            }
        }
    };
}

/// A record's placed lengths sum to at most the requested total.
proof fn lemma_placed_total_bound(ships: Seq<usize>, pl: Seq<Option<(int, int, bool)>>)
    requires
        pl.len() <= ships.len(),
    ensures
        0 <= placed_total(ships, pl) <= ships_total(ships.take(pl.len() as int)),
    decreases pl.len(),
{
    if pl.len() > 0 {
        lemma_placed_total_bound(ships, pl.drop_last());
        lemma_ships_total_take(ships, pl.len() - 1);
    }
}

/// A record whose first ship was placed sums to at least that ship's
/// length.
proof fn lemma_placed_total_first(ships: Seq<usize>, pl: Seq<Option<(int, int, bool)>>)
    requires
        1 <= pl.len() <= ships.len(),
        pl[0] is Some,
    ensures
        placed_total(ships, pl) >= ships[0],
    decreases pl.len(),
{
    if pl.len() == 1 {
        assert(pl.last() == pl[0]);
        assert(pl.drop_last().len() == 0);
        assert(placed_total(ships, pl.drop_last()) == 0);
    } else {
        assert(pl.drop_last()[0] == pl[0]);
        lemma_placed_total_first(ships, pl.drop_last());
    }
}

/// The combined length of a list of ships.
pub open spec fn ships_total(s: Seq<usize>) -> int
    decreases s.len(),
{
    if s.len() == 0 {
        0
    } else {
        ships_total(s.drop_last()) + s.last()
    }
}

proof fn lemma_ships_total_take(s: Seq<usize>, k: int)
    requires
        0 <= k < s.len(),
    ensures
        ships_total(s.take(k + 1)) == ships_total(s.take(k)) + s[k],
{
    assert(s.take(k + 1).drop_last() =~= s.take(k));
    assert(s.take(k + 1).last() == s[k]);
}

/// One placement attempt: if every cell the ship would cover is still
/// untried water, the ship is written there; otherwise the board is left
/// exactly as it was.
fn try_place(
    board: &mut Vec<Vec<Tile>>,
    rows: usize,
    cols: usize,
    r: usize,
    c: usize,
    len: usize,
    horiz: bool,
) -> (placed: bool)
    requires
        grid_wf(old(board)@, rows as int, cols as int),
        1 <= len,
        horiz ==> r < rows && c + len <= cols,
        !horiz ==> r + len <= rows && c < cols,
    ensures
        grid_wf(final(board)@, rows as int, cols as int),
        placed ==> forall|i: int, j: int|
            0 <= i < rows && 0 <= j < cols ==> #[trigger] tile_at(final(board)@, i, j) == (
            if in_segment(i, j, r as int, c as int, len as int, horiz) {
                Tile::Ship
            } else {
                tile_at(old(board)@, i, j)
            }),
        placed ==> forall|i: int, j: int|
            0 <= i < rows && 0 <= j < cols && in_segment(i, j, r as int, c as int, len as int, horiz)
                ==> #[trigger] tile_at(old(board)@, i, j) == Tile::Untried,
        placed ==> grid_count(final(board)@, Tile::Ship) == grid_count(old(board)@, Tile::Ship)
            + len && grid_count(final(board)@, Tile::Hit) == grid_count(old(board)@, Tile::Hit)
            && grid_count(final(board)@, Tile::Miss) == grid_count(old(board)@, Tile::Miss),
        !placed ==> *final(board) == *old(board),
        !placed ==> exists|i: int, j: int|
            0 <= i < rows && 0 <= j < cols && in_segment(i, j, r as int, c as int, len as int, horiz)
                && #[trigger] tile_at(old(board)@, i, j) != Tile::Untried,
{
    let ghost rows_i = rows as int;
    let ghost cols_i = cols as int;
    let ghost r_i = r as int;
    let ghost c_i = c as int;
    let ghost len_i = len as int;
    // first pass: the whole segment must still be untried water
    let mut t: usize = 0;
    while t < len
        invariant
            grid_wf(board@, rows_i, cols_i),
            *board == *old(board),
            rows_i == rows as int,
            cols_i == cols as int,
            r_i == r as int,
            c_i == c as int,
            len_i == len as int,
            1 <= len,
            horiz ==> r < rows && c + len <= cols,
            !horiz ==> r + len <= rows && c < cols,
            t <= len,
            forall|t2: int|
                0 <= t2 < t ==> #[trigger] tile_at(
                    board@,
                    seg_i(r_i, t2, horiz),
                    seg_j(c_i, t2, horiz),
                ) == Tile::Untried,
        decreases len - t,
    {
        let ii = if horiz {
            r
        } else {
            r + t
        };
        let jj = if horiz {
            c + t
        } else {
            c
        };
        let free = match board[ii][jj] {
            Tile::Untried => true,
            _ => false,
        };
        if !free {
            proof {
                assert(in_segment(ii as int, jj as int, r_i, c_i, len_i, horiz));
                assert(tile_at(board@, ii as int, jj as int) != Tile::Untried);
            }
            return false;
        }
        assert(tile_at(board@, seg_i(r_i, t as int, horiz), seg_j(c_i, t as int, horiz))
            == Tile::Untried);
        t = t + 1;
    }
    proof {
        assert forall|i: int, j: int|
            0 <= i < rows && 0 <= j < cols && in_segment(i, j, r_i, c_i, len_i, horiz) implies #[trigger] tile_at(
            board@,
            i,
            j,
        ) == Tile::Untried by {
            let t2 = if horiz {
                j - c_i
            } else {
                i - r_i
            };
            assert(tile_at(board@, seg_i(r_i, t2, horiz), seg_j(c_i, t2, horiz)) == Tile::Untried);
        };
    }
    // second pass: write the ship
    let mut t: usize = 0;
    while t < len
        invariant
            grid_wf(board@, rows_i, cols_i),
            rows_i == rows as int,
            cols_i == cols as int,
            r_i == r as int,
            c_i == c as int,
            len_i == len as int,
            1 <= len,
            horiz ==> r < rows && c + len <= cols,
            !horiz ==> r + len <= rows && c < cols,
            t <= len,
            forall|i: int, j: int|
                0 <= i < rows && 0 <= j < cols && in_segment(i, j, r_i, c_i, len_i, horiz)
                    ==> #[trigger] tile_at(old(board)@, i, j) == Tile::Untried,
            forall|i: int, j: int|
                0 <= i < rows && 0 <= j < cols ==> #[trigger] tile_at(board@, i, j) == (
                if in_segment(i, j, r_i, c_i, t as int, horiz) {
                    Tile::Ship
                } else {
                    tile_at(old(board)@, i, j)
                }),
            grid_count(board@, Tile::Ship) == grid_count(old(board)@, Tile::Ship) + t,
            grid_count(board@, Tile::Hit) == grid_count(old(board)@, Tile::Hit),
            grid_count(board@, Tile::Miss) == grid_count(old(board)@, Tile::Miss),
        decreases len - t,
    {
        let ii = if horiz {
            r
        } else {
            r + t
        };
        let jj = if horiz {
            c + t
        } else {
            c
        };
        let ghost prev = board@;
        proof {
            assert(tile_at(prev, ii as int, jj as int) == Tile::Untried);
        }
        set_tile(board, ii, jj, Tile::Ship);
        proof {
            assert(board@ =~= prev.update(ii as int, board@[ii as int]));
            lemma_grid_count_update(prev, ii as int, board@[ii as int], Tile::Ship);
            lemma_grid_count_update(prev, ii as int, board@[ii as int], Tile::Hit);
            lemma_grid_count_update(prev, ii as int, board@[ii as int], Tile::Miss);
            lemma_row_count_update(prev[ii as int]@, jj as int, Tile::Ship, Tile::Ship);
            lemma_row_count_update(prev[ii as int]@, jj as int, Tile::Ship, Tile::Hit);
            lemma_row_count_update(prev[ii as int]@, jj as int, Tile::Ship, Tile::Miss);
            assert forall|i: int, j: int| 0 <= i < rows && 0 <= j < cols implies #[trigger] tile_at(
                board@,
                i,
                j,
            ) == (if in_segment(i, j, r_i, c_i, t + 1, horiz) {
                Tile::Ship
            } else {
                tile_at(old(board)@, i, j)
            }) by {
                assert(tile_at(prev, i, j) == (if in_segment(i, j, r_i, c_i, t as int, horiz) {
                    Tile::Ship
                } else {
                    tile_at(old(board)@, i, j)
                }));
            };
        }
        t = t + 1;
    }
    true
}

/// Builds a fresh board of untried water and hides the given ships in it:
/// each ship picks a random orientation, then tries random positions
/// until one fits, giving up on that ship after a hundred collisions.
/// However the draws fall, some placement record vouches for the board:
/// the ship tiles are exactly a union of pairwise-disjoint straight
/// in-bounds hulls, at most one per requested ship and each of exactly
/// that ship's length, so the ship-tile count is the sum of the placed
/// ships' lengths. The first ship always finds room on the still-empty
/// board, and no shot is recorded yet.
pub fn create_battleship_game(rows: usize, cols: usize, ships: &[usize]) -> (board: Vec<
    Vec<Tile>,
>)
    requires
        1 <= rows <= 100,
        1 <= cols <= 100,
        forall|k: int|
            0 <= k < ships@.len() ==> 1 <= #[trigger] ships@[k] && ships@[k] < rows && ships@[k]
                < cols,
    ensures
        grid_wf(board@, rows as int, cols as int),
        unrevealed(board@),
        grid_count(board@, Tile::Hit) == 0,
        grid_count(board@, Tile::Miss) == 0,
        0 <= grid_count(board@, Tile::Ship) <= ships_total(ships@),
        ships@.len() > 0 ==> grid_count(board@, Tile::Ship) >= ships@[0],
        exists|pl: Seq<Option<(int, int, bool)>>|
            #[trigger] fleet_laid(board@, rows as int, cols as int, ships@, pl) && pl.len()
                == ships@.len() && grid_count(board@, Tile::Ship) == placed_total(ships@, pl) && (
            ships@.len() > 0 ==> pl[0] is Some),
{
    let ghost rows_i = rows as int;
    let ghost cols_i = cols as int;
    let mut board: Vec<Vec<Tile>> = Vec::new();
    let mut i: usize = 0;
    while i < rows
        invariant
            i <= rows,
            board@.len() == i,
            forall|i2: int| 0 <= i2 < i ==> (#[trigger] board@[i2])@.len() == cols,
            forall|i2: int, j2: int|
                0 <= i2 < i && 0 <= j2 < cols ==> #[trigger] tile_at(board@, i2, j2)
                    == Tile::Untried,
        decreases rows - i,
    {
        let mut row: Vec<Tile> = Vec::new();
        let mut j: usize = 0;
        while j < cols
            invariant
                j <= cols,
                row@.len() == j,
                forall|j2: int| 0 <= j2 < j ==> row@[j2] == Tile::Untried,
            decreases cols - j,
        {
            row.push(Tile::Untried);
            j = j + 1;
        }
        let ghost prev = board@;
        board.push(row);
        proof {
            assert forall|i2: int, j2: int|
                0 <= i2 < i + 1 && 0 <= j2 < cols implies #[trigger] tile_at(board@, i2, j2)
                == Tile::Untried by {
                if i2 == i {
                    assert(board@[i2] == row);
                } else {
                    assert(board@[i2] == prev[i2]);
                    assert(tile_at(prev, i2, j2) == Tile::Untried);
                }
            };
        }
        i = i + 1;
    }
    let ghost mut pl: Seq<Option<(int, int, bool)>> = Seq::empty();
    proof {
        lemma_grid_count_absent(board@, Tile::Ship);
        lemma_grid_count_absent(board@, Tile::Hit);
        lemma_grid_count_absent(board@, Tile::Miss);
        assert(fleet_laid(board@, rows_i, cols_i, ships@, pl));
    }
    let mut k: usize = 0;
    while k < ships.len()
        invariant
            1 <= rows <= 100,
            1 <= cols <= 100,
            rows_i == rows as int,
            cols_i == cols as int,
            forall|k2: int|
                0 <= k2 < ships@.len() ==> 1 <= #[trigger] ships@[k2] && ships@[k2] < rows
                    && ships@[k2] < cols,
            k <= ships@.len(),
            grid_wf(board@, rows_i, cols_i),
            unrevealed(board@),
            grid_count(board@, Tile::Hit) == 0,
            grid_count(board@, Tile::Miss) == 0,
            pl.len() == k,
            fleet_laid(board@, rows_i, cols_i, ships@, pl),
            grid_count(board@, Tile::Ship) == placed_total(ships@, pl),
            k > 0 && ships@.len() > 0 ==> pl[0] is Some,
        decreases ships@.len() - k,
    {
        let length = ships[k];
        let orient = rng::rand_below(2);
        let ghost mut placement: Option<(int, int, bool)> = None;
        if k == 0 {
            proof {
                // nothing is recorded yet, so nothing is a ship tile, and
                // nothing has been revealed: the board is all water
                assert forall|i2: int, j2: int|
                    0 <= i2 < rows_i && 0 <= j2 < cols_i implies #[trigger] tile_at(board@, i2, j2)
                    == Tile::Untried by {
                    assert(board@[i2]@.len() == cols_i);
                    assert(tile_at(board@, i2, j2) != Tile::Ship);
                };
            }
        }
        let mut attempt: usize = 0;
        let mut placed = false;
        while attempt < 100 && !placed
            invariant
                1 <= rows <= 100,
                1 <= cols <= 100,
                rows_i == rows as int,
                cols_i == cols as int,
                k < ships@.len(),
                pl.len() == k,
                length == ships@[k as int],
                1 <= length && length < rows && length < cols,
                attempt <= 100,
                grid_wf(board@, rows_i, cols_i),
                unrevealed(board@),
                grid_count(board@, Tile::Hit) == 0,
                grid_count(board@, Tile::Miss) == 0,
                !placed ==> placement is None && fleet_laid(board@, rows_i, cols_i, ships@, pl)
                    && grid_count(board@, Tile::Ship) == placed_total(ships@, pl),
                placed ==> placement is Some && fleet_laid(
                    board@,
                    rows_i,
                    cols_i,
                    ships@,
                    pl.push(placement),
                ) && grid_count(board@, Tile::Ship) == placed_total(ships@, pl.push(placement)),
                k == 0 && attempt > 0 ==> placed,
                k == 0 && !placed ==> forall|i2: int, j2: int|
                    0 <= i2 < rows_i && 0 <= j2 < cols_i ==> #[trigger] tile_at(board@, i2, j2)
                        == Tile::Untried,
            decreases 100 - attempt,
        {
            let ghost before = board@;
            let horizontal = orient == 0;
            let (rr, cc) = if horizontal {
                (rng::rand_below(rows), rng::rand_below(cols - length))
            } else {
                (rng::rand_below(rows - length), rng::rand_below(cols))
            };
            placed = try_place(&mut board, rows, cols, rr, cc, length, horizontal);
            proof {
                if placed {
                    placement = Some((rr as int, cc as int, horizontal));
                    assert(seg_in_bounds(
                        rows_i,
                        cols_i,
                        rr as int,
                        cc as int,
                        length as int,
                        horizontal,
                    ));
                    lemma_fleet_extend_placed(
                        before,
                        board@,
                        rows_i,
                        cols_i,
                        ships@,
                        pl,
                        rr as int,
                        cc as int,
                        horizontal,
                    );
                    assert(pl.push(placement).drop_last() =~= pl);
                    assert(pl.push(placement).last() == placement);
                    assert forall|i2: int, j2: int|
                        0 <= i2 < board@.len() && 0 <= j2 < board@[i2]@.len() implies (
                    #[trigger] tile_at(board@, i2, j2) == Tile::Untried || tile_at(board@, i2, j2)
                        == Tile::Ship) by {
                        assert(tile_at(before, i2, j2) == Tile::Untried || tile_at(before, i2, j2)
                            == Tile::Ship);
                    };
                } else {
                    if k == 0 {
                        // the whole board was still water, so this attempt
                        // cannot have collided with anything
                        let (wi, wj) = choose|wi: int, wj: int|
                            0 <= wi < rows_i && 0 <= wj < cols_i && in_segment(
                                wi,
                                wj,
                                rr as int,
                                cc as int,
                                length as int,
                                horizontal,
                            ) && #[trigger] tile_at(before, wi, wj) != Tile::Untried;
                        assert(tile_at(before, wi, wj) == Tile::Untried);
                        assert(false);
                    }
                }
            }
            attempt = attempt + 1;
        }
        proof {
            if !placed {
                lemma_fleet_extend_none(board@, rows_i, cols_i, ships@, pl);
                assert(pl.push(None).drop_last() =~= pl);
                assert(pl.push(None).last() == None::<(int, int, bool)>);
                placement = None;
            }
            let ghost pl_old = pl;
            pl = pl.push(placement);
            if k == 0 {
                assert(placed);
                assert(pl[0] == placement);
            } else {
                if ships@.len() > 0 && k > 0 {
                    assert(pl[0] == pl_old[0]);
                }
            }
        }
        k = k + 1;
    }
    proof {
        lemma_placed_total_bound(ships@, pl);
        assert(ships@.take(pl.len() as int) =~= ships@);
        if ships@.len() > 0 {
            lemma_placed_total_first(ships@, pl);
        }
        assert(fleet_laid(board@, rows_i, cols_i, ships@, pl));
    }
    board
}

/// The starting shot budget: six tenths of the cell count, rounded up —
/// the least number of shots that covers six tenths of the board.
pub fn shot_budget(rows: usize, cols: usize) -> (n: usize)
    requires
        1 <= rows <= 100,
        1 <= cols <= 100,
    ensures
        n == ((rows * cols) * 6 + 9) / 10,
        10 * n >= 6 * (rows * cols),
        10 * (n - 1) < 6 * (rows * cols),
{
    assert(1 <= rows * cols <= 10000) by (nonlinear_arith)
        requires
            1 <= rows <= 100,
            1 <= cols <= 100,
    ;
    let p = rows * cols;
    let n = (p * 6 + 9) / 10;
    assert(10 * n >= 6 * p && 10 * (n - 1) < 6 * p) by (nonlinear_arith)
        requires
            1 <= p <= 10000,
            n == (p * 6 + 9) / 10,
    ;
    n
}

/// The character is a decimal digit.
pub open spec fn is_digit(ch: char) -> bool {
    48 <= ch as int <= 57
}

/// The numeric value of a decimal digit character.
pub open spec fn digit_val(ch: char) -> int {
    ch as int - 48
}

/// The number a string of decimal digits denotes, most significant first.
pub open spec fn dec_val(s: Seq<char>) -> int
    decreases s.len(),
{
    if s.len() == 0 {
        0
    } else {
        dec_val(s.drop_last()) * 10 + digit_val(s.last())
    }
}

/// A non-empty run of decimal digits.
pub open spec fn all_digits(s: Seq<char>) -> bool {
    s.len() > 0 && forall|i: int| 0 <= i < s.len() ==> is_digit(#[trigger] s[i])
}

/// The string is two digit runs with one comma between them, split at `p`.
pub open spec fn comma_split_at(s: Seq<char>, p: int) -> bool {
    &&& 0 <= p < s.len()
    &&& s[p] == ','
    &&& all_digits(s.take(p))
    &&& all_digits(s.skip(p + 1))
}

/// The string is a well-formed coordinate pair `row,column`.
pub open spec fn well_formed_coord(s: Seq<char>) -> bool {
    exists|p: int| comma_split_at(s, p)
}

/// A string holds at most one well-formed comma split: the digits on
/// either side cannot themselves hold a comma.
proof fn lemma_only_split(s: Seq<char>, p: int)
    requires
        0 <= p < s.len(),
        s[p] == ',',
        forall|k: int| 0 <= k < p ==> s[k] != ',',
    ensures
        forall|p2: int| comma_split_at(s, p2) ==> p2 == p,
{
    assert forall|p2: int| comma_split_at(s, p2) implies p2 == p by {
        if p2 > p {
            assert(s.take(p2)[p] == s[p]);
            assert(is_digit(s.take(p2)[p]));
            assert(',' as int == 44);
            assert(false);
        }
    };
}

/// Reads a `row,column` move: two decimal numbers joined by one comma.
/// Anything else is malformed; a coordinate off the board is out of
/// range.
pub fn parse_coord(s: &str, rows: usize, cols: usize) -> (r: Result<
    (usize, usize),
    DecodeError,
>)
    requires
        1 <= rows <= 100,
        1 <= cols <= 100,
    ensures
        match r {
            Ok(ij) => {
                &&& ij.0 < rows && ij.1 < cols
                &&& well_formed_coord(s@)
                &&& forall|p: int|
                    comma_split_at(s@, p) ==> ij.0 == dec_val(s@.take(p)) && ij.1 == dec_val(
                        s@.skip(p + 1),
                    )
            },
            Err(DecodeError::Malformed) => !well_formed_coord(s@),
            Err(DecodeError::OutOfRange) => well_formed_coord(s@) && forall|p: int|
                comma_split_at(s@, p) ==> (dec_val(s@.take(p)) >= rows || dec_val(s@.skip(p + 1))
                    >= cols),
        },
{
    let n = s.unicode_len();
    // find the first comma
    let mut p: usize = 0;
    while p < n
        invariant_except_break
            n == s@.len(),
            p <= n,
            forall|k: int| 0 <= k < p ==> s@[k] != ',',
        ensures
            n == s@.len(),
            p <= n,
            forall|k: int| 0 <= k < p ==> s@[k] != ',',
            p < n ==> s@[p as int] == ',',
        decreases n - p,
    {
        if s.get_char(p) == ',' {
            break ;
        }
        p = p + 1;
    }
    if p == n {
        proof {
            assert forall|p2: int| !comma_split_at(s@, p2) by {
                if 0 <= p2 < n {
                    assert(s@[p2] != ',');
                }
            };
        }
        return Err(DecodeError::Malformed);
    }
    proof {
        lemma_only_split(s@, p as int);
    }
    if p == 0 {
        proof {
            assert(!all_digits(s@.take(0)));
        }
        return Err(DecodeError::Malformed);
    }
    // left digit run: the row
    let mut acc_i: usize = 0;
    let mut big_i = false;
    let mut k: usize = 0;
    while k < p
        invariant
            n == s@.len(),
            0 < p < n,
            s@[p as int] == ',',
            forall|k2: int| 0 <= k2 < p ==> s@[k2] != ',',
            1 <= rows <= 100,
            k <= p,
            forall|k2: int| 0 <= k2 < k ==> is_digit(#[trigger] s@[k2]),
            !big_i ==> acc_i == dec_val(s@.take(k as int)) && acc_i < rows,
            big_i ==> dec_val(s@.take(k as int)) >= rows,
        decreases p - k,
    {
        let c = s.get_char(k);
        let u = c as u32;
        if u < 48 || u > 57 {
            proof {
                assert(!is_digit(s@[k as int]));
                lemma_only_split(s@, p as int);
                assert forall|p2: int| !comma_split_at(s@, p2) by {
                    if comma_split_at(s@, p2) {
                        assert(p2 == p);
                        assert(is_digit(s@.take(p as int)[k as int]));
                    }
                };
            }
            return Err(DecodeError::Malformed);
        }
        let d = (u - 48) as usize;
        proof {
            assert(s@.take(k + 1).drop_last() =~= s@.take(k as int));
            assert(s@.take(k + 1).last() == s@[k as int]);
            assert(d == digit_val(s@[k as int]));
        }
        if !big_i {
            let nv = acc_i * 10 + d;
            if nv >= rows {
                big_i = true;
                assert(dec_val(s@.take(k + 1)) >= rows);
            } else {
                acc_i = nv;
            }
        } else {
            assert(dec_val(s@.take(k + 1)) == dec_val(s@.take(k as int)) * 10 + digit_val(
                s@[k as int],
            ));
        }
        k = k + 1;
    }
    // right digit run: the column
    let ghost right = s@.skip(p + 1);
    if p + 1 == n {
        proof {
            assert forall|p2: int| !comma_split_at(s@, p2) by {
                if comma_split_at(s@, p2) {
                    assert(p2 == p);
                    assert(s@.skip(p + 1).len() == 0);
                }
            };
        }
        return Err(DecodeError::Malformed);
    }
    let mut acc_j: usize = 0;
    let mut big_j = false;
    let mut k: usize = p + 1;
    while k < n
        invariant
            n == s@.len(),
            0 < p < n,
            p + 1 <= k <= n,
            s@[p as int] == ',',
            forall|k2: int| 0 <= k2 < p ==> s@[k2] != ',',
            1 <= cols <= 100,
            right == s@.skip(p + 1),
            forall|k2: int| p + 1 <= k2 < k ==> is_digit(#[trigger] s@[k2]),
            !big_j ==> acc_j == dec_val(s@.subrange(p + 1, k as int)) && acc_j < cols,
            big_j ==> dec_val(s@.subrange(p + 1, k as int)) >= cols,
        decreases n - k,
    {
        let c = s.get_char(k);
        let u = c as u32;
        if u < 48 || u > 57 {
            proof {
                assert(!is_digit(s@[k as int]));
                lemma_only_split(s@, p as int);
                assert forall|p2: int| !comma_split_at(s@, p2) by {
                    if comma_split_at(s@, p2) {
                        assert(p2 == p);
                        assert(s@.skip(p + 1)[k - p - 1] == s@[k as int]);
                        assert(is_digit(s@.skip(p + 1)[k - p - 1]));
                    }
                };
            }
            return Err(DecodeError::Malformed);
        }
        let d = (u - 48) as usize;
        proof {
            assert(s@.subrange(p + 1, k + 1).drop_last() =~= s@.subrange(p + 1, k as int));
            assert(s@.subrange(p + 1, k + 1).last() == s@[k as int]);
            assert(d == digit_val(s@[k as int]));
        }
        if !big_j {
            let nv = acc_j * 10 + d;
            if nv >= cols {
                big_j = true;
                assert(dec_val(s@.subrange(p + 1, k + 1)) >= cols);
            } else {
                acc_j = nv;
            }
        } else {
            assert(dec_val(s@.subrange(p + 1, k + 1)) == dec_val(s@.subrange(p + 1, k as int)) * 10
                + digit_val(s@[k as int]));
        }
        k = k + 1;
    }
    proof {
        assert(s@.take(p as int) =~= s@.take(p as int));
        assert(s@.subrange(p + 1, n as int) =~= s@.skip(p + 1));
        assert(comma_split_at(s@, p as int));
    }
    if big_i || big_j {
        return Err(DecodeError::OutOfRange);
    }
    Ok((acc_i, acc_j))
}

/// The shape of a board after one shot at `(i, j)`: that tile revealed,
/// every other tile untouched.
pub open spec fn fired(b: Seq<Vec<Tile>>, a: Seq<Vec<Tile>>, i: int, j: int) -> bool {
    &&& a.len() == b.len()
    &&& forall|i2: int| 0 <= i2 < b.len() && i2 != i ==> a[i2] == b[i2]
    &&& a[i]@ == b[i]@.update(j, revealed_tile(tile_at(b, i, j)))
}

/// What a reported battleship outcome must say of a board and budget.
pub open spec fn terminal_ok(
    b: Seq<Vec<Tile>>,
    moves_left: int,
    max_hits: int,
    st: GameStatus,
) -> bool {
    &&& ((st is Win) <==> grid_count(b, Tile::Hit) == max_hits)
    &&& ((st is Loss) <==> (grid_count(b, Tile::Hit) != max_hits && moves_left == 0))
    &&& ((st is InProgress) <==> (grid_count(b, Tile::Hit) != max_hits && moves_left != 0))
    &&& !(st is Draw)
}

/// One served battleship round: if a move was submitted, read its
/// coordinate, reveal that tile and spend one shot — the shot is spent
/// even when the tile was already revealed — then report the outcome. A
/// coordinate that cannot be read leaves board and budget untouched.
pub fn battleship_turn(
    board: &mut Vec<Vec<Tile>>,
    rows: usize,
    cols: usize,
    moves_left: &mut i32,
    mv: Option<&str>,
    max_hits: usize,
) -> (r: Result<GameStatus, DecodeError>)
    requires
        grid_wf(old(board)@, rows as int, cols as int),
        1 <= rows <= 100,
        1 <= cols <= 100,
        *old(moves_left) > i32::MIN,
    ensures
        grid_wf(final(board)@, rows as int, cols as int),
        match mv {
            None => r is Ok && *final(board) == *old(board) && *final(moves_left) == *old(
                moves_left,
            ),
            Some(s) => match r {
                Ok(_) => {
                    &&& well_formed_coord(s@)
                    &&& *final(moves_left) == *old(moves_left) - 1
                    &&& forall|p: int|
                        comma_split_at(s@, p) ==> dec_val(s@.take(p)) < rows && dec_val(
                            s@.skip(p + 1),
                        ) < cols && fired(
                            old(board)@,
                            final(board)@,
                            dec_val(s@.take(p)),
                            dec_val(s@.skip(p + 1)),
                        )
                },
                Err(e) => {
                    &&& *final(board) == *old(board)
                    &&& *final(moves_left) == *old(moves_left)
                    &&& (e == DecodeError::Malformed <==> !well_formed_coord(s@))
                    &&& (e == DecodeError::OutOfRange ==> forall|p: int|
                        comma_split_at(s@, p) ==> (dec_val(s@.take(p)) >= rows || dec_val(
                            s@.skip(p + 1),
                        ) >= cols))
                },
            },
        },
        match r {
            Ok(st) => terminal_ok(
                final(board)@,
                *final(moves_left) as int,
                max_hits as int,
                st,
            ),
            Err(_) => true,
        },
{
    match mv {
        None => {
            let st = check_terminal(board, rows, cols, *moves_left, max_hits);
            Ok(st)
        },
        Some(s) => {
            match parse_coord(s, rows, cols) {
                Err(e) => Err(e),
                Ok((i, j)) => {
                    let ghost pre = board@;
                    fire(board, i, j);
                    proof {
                        assert forall|i2: int|
                            0 <= i2 < rows implies (#[trigger] board@[i2])@.len() == cols by {
                            if i2 == i {
                                assert(board@[i2]@ == pre[i2]@.update(
                                    j as int,
                                    revealed_tile(tile_at(pre, i as int, j as int)),
                                ));
                            } else {
                                assert(board@[i2] == pre[i2]);
                            }
                        };
                    }
                    *moves_left = *moves_left - 1;
                    let st = check_terminal(board, rows, cols, *moves_left, max_hits);
                    Ok(st)
                },
            }
        },
    }
}

} // verus!
