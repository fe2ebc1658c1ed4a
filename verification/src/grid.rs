use vstd::prelude::*;

verus! {

/// A player's mark in the two turn-based games: `X` for the human,
/// `O` for the engine.
#[derive(Clone, Copy, PartialEq, Eq, Structural, Debug)]
pub enum Mark {
    X,
    O,
}

/// The characters a single cell contributes to the transport string:
/// nothing for an empty cell, one letter for a mark.
pub open spec fn cell_chars(c: Option<Mark>) -> Seq<char> {
    match c {
        None => seq![],
        Some(Mark::X) => seq!['X'],
        Some(Mark::O) => seq!['O'],
    }
}

/// The separator written just before cell `k` (`k >= 1`): a `'.'` at a row
/// boundary when the grid is encoded with dotted rows, a `' '` otherwise.
pub open spec fn sep_char(dotted: bool, cols: int, k: int) -> char {
    if dotted && k % cols == 0 {
        '.'
    } else {
        ' '
    }
}

/// The transport encoding of the first `k` cells of a grid: the cells'
/// characters joined by the separators `sep_char` prescribes.
pub open spec fn encoded_prefix(cells: Seq<Option<Mark>>, dotted: bool, cols: int, k: int) -> Seq<
    char,
>
    decreases k,
{
    if k <= 0 {
        seq![]
    } else if k == 1 {
        cell_chars(cells[0])
    } else {
        encoded_prefix(cells, dotted, cols, k - 1) + seq![sep_char(dotted, cols, k - 1)]
            + cell_chars(cells[k - 1])
    }
}

/// The transport encoding of a whole grid.
pub open spec fn encoded(cells: Seq<Option<Mark>>, dotted: bool, cols: int) -> Seq<char> {
    encoded_prefix(cells, dotted, cols, cells.len() as int)
}

/// Writes the transport string of a flat row-major grid: cells joined by
/// single separators, an empty cell contributing nothing between them.
pub fn encode_cells(cells: &Vec<Option<Mark>>, dotted: bool, cols: usize) -> (r: String)
    requires
        cells@.len() >= 1,
        cols >= 1,
    ensures
        r@ == encoded(cells@, dotted, cols as int),
{
    let n = cells.len();
    let mut out = String::new();
    let mut k: usize = 0;
    while k < n
        invariant
            n == cells@.len(),
            1 <= n,
            cols >= 1,
            k <= n,
            out@ == encoded_prefix(cells@, dotted, cols as int, k as int),
        decreases n - k,
    {
        proof {
            reveal_strlit(" ");
            reveal_strlit(".");
            reveal_strlit("X");
            reveal_strlit("O");
        }
        if k > 0 {
            if dotted && k % cols == 0 {
                out.append(".");
                assert(out@ =~= encoded_prefix(cells@, dotted, cols as int, k as int) + seq![
                    sep_char(dotted, cols as int, k as int),
                ]);
            } else {
                out.append(" ");
                assert(out@ =~= encoded_prefix(cells@, dotted, cols as int, k as int) + seq![
                    sep_char(dotted, cols as int, k as int),
                ]);
            }
        }
        match cells[k] {
            None => {
            },
            Some(Mark::X) => {
                out.append("X");
            },
            Some(Mark::O) => {
                out.append("O");
            },
        }
        if k > 0 {
            assert(out@ =~= encoded_prefix(cells@, dotted, cols as int, k as int) + seq![
                sep_char(dotted, cols as int, k as int),
            ] + cell_chars(cells@[k as int]));
        } else {
            assert(out@ =~= cell_chars(cells@[0]));
        }
        k = k + 1;
    }
    out
}

/// State of the transport-string parser after some prefix of the input:
/// either the prefix already broke the grammar, or the parser stands at cell
/// `idx` (having written `cells`), with `filled` saying whether cell `idx`
/// has received its letter.
pub enum ParseState {
    Bad,
    At { idx: int, filled: bool, cells: Seq<Option<Mark>> },
}

/// All-empty parser grid of `ncells` cells.
pub open spec fn blank_cells(ncells: int) -> Seq<Option<Mark>> {
    Seq::new(ncells as nat, |i: int| None::<Mark>)
}

/// One step of the transport-string parser.
pub open spec fn parse_step(
    st: ParseState,
    dotted: bool,
    cols: int,
    ncells: int,
    c: char,
) -> ParseState {
    match st {
        ParseState::Bad => ParseState::Bad,
        ParseState::At { idx, filled, cells } => {
            if c == ' ' || c == '.' {
                if idx + 1 < ncells && c == sep_char(dotted, cols, idx + 1) {
                    ParseState::At { idx: idx + 1, filled: false, cells }
                } else {
                    ParseState::Bad
                }
            } else if c == 'X' || c == 'O' {
                if filled {
                    ParseState::Bad
                } else {
                    ParseState::At {
                        idx,
                        filled: true,
                        cells: cells.update(
                            idx,
                            Some(if c == 'X' { Mark::X } else { Mark::O }),
                        ),
                    }
                }
            } else {
                ParseState::Bad
            }
        },
    }
}

/// The parser's state after reading all of `s`, starting from a blank grid.
pub open spec fn parse_prefix(s: Seq<char>, dotted: bool, cols: int, ncells: int) -> ParseState
    decreases s.len(),
{
    if s.len() == 0 {
        ParseState::At { idx: 0, filled: false, cells: blank_cells(ncells) }
    } else {
        parse_step(parse_prefix(s.drop_last(), dotted, cols, ncells), dotted, cols, ncells, s.last())
    }
}

/// The grid a transport string stands for, if the string follows the
/// grammar exactly: all `ncells` cells present, each empty or one letter,
/// joined by the prescribed separators.
pub open spec fn parse(s: Seq<char>, dotted: bool, cols: int, ncells: int) -> Option<
    Seq<Option<Mark>>,
> {
    match parse_prefix(s, dotted, cols, ncells) {
        ParseState::Bad => None,
        ParseState::At { idx, filled, cells } => if idx == ncells - 1 {
            Some(cells)
        } else {
            None
        },
    }
}

/// Reading one more character applies one parser step.
proof fn lemma_parse_snoc(s: Seq<char>, c: char, dotted: bool, cols: int, ncells: int)
    ensures
        parse_prefix(s.push(c), dotted, cols, ncells) == parse_step(
            parse_prefix(s, dotted, cols, ncells),
            dotted,
            cols,
            ncells,
            c,
        ),
{
    assert(s.push(c).drop_last() =~= s);
    assert(s.push(c).last() == c);
}

/// Once a prefix breaks the grammar, the whole string does.
proof fn lemma_bad_prefix(s: Seq<char>, j: int, dotted: bool, cols: int, ncells: int)
    requires
        0 <= j <= s.len(),
        parse_prefix(s.take(j), dotted, cols, ncells) is Bad,
    ensures
        parse_prefix(s, dotted, cols, ncells) is Bad,
    decreases s.len() - j,
{
    if j == s.len() {
        assert(s.take(j) =~= s);
    } else {
        assert(s.take(j + 1) =~= s.take(j).push(s[j]));
        lemma_parse_snoc(s.take(j), s[j], dotted, cols, ncells);
        lemma_bad_prefix(s, j + 1, dotted, cols, ncells);
    }
}

/// The first `k` cells of `cells`, the rest blanked out.
pub open spec fn masked(cells: Seq<Option<Mark>>, k: int) -> Seq<Option<Mark>> {
    Seq::new(cells.len(), |i: int| if i < k { cells[i] } else { None })
}

proof fn lemma_parse_encoded_prefix(cells: Seq<Option<Mark>>, dotted: bool, cols: int, k: int)
    requires
        1 <= cols,
        1 <= k <= cells.len(),
    ensures
        parse_prefix(
            encoded_prefix(cells, dotted, cols, k),
            dotted,
            cols,
            cells.len() as int,
        ) == (ParseState::At { idx: k - 1, filled: cells[k - 1] is Some, cells: masked(cells, k) }),
    decreases k,
{
    let n = cells.len() as int;
    if k == 1 {
        match cells[0] {
            None => {
                assert(encoded_prefix(cells, dotted, cols, 1) =~= Seq::<char>::empty());
                assert(masked(cells, 1) =~= blank_cells(n));
            },
            Some(m) => {
                let ch = if m is X { 'X' } else { 'O' };
                assert(encoded_prefix(cells, dotted, cols, 1) =~= seq![ch]);
                assert(seq![ch].drop_last() =~= Seq::<char>::empty());
                assert(seq![ch].last() == ch);
                assert(masked(cells, 1) =~= blank_cells(n).update(0, Some(m)));
            },
        }
    } else {
        lemma_parse_encoded_prefix(cells, dotted, cols, k - 1);
        let ek = encoded_prefix(cells, dotted, cols, k - 1);
        let sep = sep_char(dotted, cols, k - 1);
        let mid = ParseState::At { idx: k - 1, filled: false, cells: masked(cells, k - 1) };
        assert(ek.push(sep).drop_last() =~= ek);
        lemma_parse_snoc(ek, sep, dotted, cols, n);
        match cells[k - 1] {
            None => {
                assert(encoded_prefix(cells, dotted, cols, k) =~= ek.push(sep));
                assert(masked(cells, k - 1) =~= masked(cells, k));
            },
            Some(m) => {
                let ch = if m is X { 'X' } else { 'O' };
                assert(encoded_prefix(cells, dotted, cols, k) =~= ek.push(sep).push(ch));
                lemma_parse_snoc(ek.push(sep), ch, dotted, cols, n);
                assert(masked(cells, k - 1).update(k - 1, Some(m)) =~= masked(cells, k));
            },
        }
    }
}

/// Decoding is a left inverse of encoding: the transport string written for
/// any full grid parses back to exactly that grid.
pub proof fn lemma_parse_encoded(cells: Seq<Option<Mark>>, dotted: bool, cols: int)
    requires
        1 <= cols,
        1 <= cells.len(),
    ensures
        parse(encoded(cells, dotted, cols), dotted, cols, cells.len() as int) == Some(cells),
{
    let n = cells.len() as int;
    lemma_parse_encoded_prefix(cells, dotted, cols, n);
    assert(masked(cells, n) =~= cells);
}

/// Encodings agree on grids that agree on the encoded cells.
proof fn lemma_encoded_prefix_agree(
    a: Seq<Option<Mark>>,
    b: Seq<Option<Mark>>,
    dotted: bool,
    cols: int,
    k: int,
)
    requires
        forall|i: int| 0 <= i < k ==> a[i] == b[i],
    ensures
        encoded_prefix(a, dotted, cols, k) == encoded_prefix(b, dotted, cols, k),
    decreases k,
{
    if k > 1 {
        lemma_encoded_prefix_agree(a, b, dotted, cols, k - 1);
    }
}

/// Whatever grid a parser prefix has accumulated, the input read so far is
/// exactly that grid's encoding up to the current cell; later cells are
/// still blank.
proof fn lemma_parse_prefix_shape(s: Seq<char>, dotted: bool, cols: int, ncells: int)
    requires
        1 <= cols,
        1 <= ncells,
        parse_prefix(s, dotted, cols, ncells) is At,
    ensures
        ({
            let st = parse_prefix(s, dotted, cols, ncells);
            let idx = st->At_idx;
            let filled = st->At_filled;
            let cells = st->At_cells;
            &&& 0 <= idx < ncells
            &&& cells.len() == ncells
            &&& forall|j: int| idx < j < ncells ==> cells[j] is None
            &&& !filled ==> cells[idx] is None
            &&& s == encoded_prefix(cells, dotted, cols, idx + 1)
        }),
    decreases s.len(),
{
    if s.len() == 0 {
        assert(encoded_prefix(blank_cells(ncells), dotted, cols, 1) =~= Seq::<char>::empty());
    } else {
        let prev = s.drop_last();
        let c = s.last();
        assert(prev.push(c) =~= s);
        lemma_parse_snoc(prev, c, dotted, cols, ncells);
        lemma_parse_prefix_shape(prev, dotted, cols, ncells);
        let st0 = parse_prefix(prev, dotted, cols, ncells);
        let idx0 = st0->At_idx;
        let cells0 = st0->At_cells;
        let st = parse_prefix(s, dotted, cols, ncells);
        if c == ' ' || c == '.' {
            // a separator was accepted: cell idx0 is closed, cell idx0 + 1 opens
            assert(st == (ParseState::At { idx: idx0 + 1, filled: false, cells: cells0 }));
            assert(cell_chars(cells0[idx0 + 1]) =~= Seq::<char>::empty());
            assert(s =~= encoded_prefix(cells0, dotted, cols, idx0 + 1) + seq![
                sep_char(dotted, cols, idx0 + 1),
            ] + cell_chars(cells0[idx0 + 1]));
        } else {
            // a letter was accepted into the still-empty cell idx0
            let m = if c == 'X' { Mark::X } else { Mark::O };
            let cells1 = cells0.update(idx0, Some(m));
            assert(st == (ParseState::At { idx: idx0, filled: true, cells: cells1 }));
            lemma_encoded_prefix_agree(cells0, cells1, dotted, cols, idx0);
            if idx0 == 0 {
                assert(prev =~= Seq::<char>::empty());
                assert(s =~= cell_chars(cells1[0]));
            } else {
                assert(cell_chars(cells0[idx0]) =~= Seq::<char>::empty());
                assert(s =~= encoded_prefix(cells1, dotted, cols, idx0) + seq![
                    sep_char(dotted, cols, idx0),
                ] + cell_chars(cells1[idx0]));
            }
        }
    }
}

/// Encoding is a left inverse of decoding: a transport string that parses
/// is exactly the encoding of the grid it parses to.
pub proof fn lemma_encoded_parse(
    s: Seq<char>,
    cells: Seq<Option<Mark>>,
    dotted: bool,
    cols: int,
    ncells: int,
)
    requires
        1 <= cols,
        1 <= ncells,
        parse(s, dotted, cols, ncells) == Some(cells),
    ensures
        encoded(cells, dotted, cols) == s,
        cells.len() == ncells,
{
    lemma_parse_prefix_shape(s, dotted, cols, ncells);
}

/// Reads a transport string back into a flat row-major grid, strictly:
/// any string that the grammar does not produce is rejected.
pub fn decode_cells(s: &str, dotted: bool, cols: usize, ncells: usize) -> (r: Result<
    Vec<Option<Mark>>,
    crate::DecodeError,
>)
    requires
        1 <= ncells,
        1 <= cols,
    ensures
        match r {
            Ok(cells) => parse(s@, dotted, cols as int, ncells as int) == Some(cells@)
                && cells@.len() == ncells,
            Err(e) => parse(s@, dotted, cols as int, ncells as int) is None && e
                == crate::DecodeError::Malformed,
        },
{
    let n = s.unicode_len();
    let mut cells: Vec<Option<Mark>> = Vec::new();
    let mut j: usize = 0;
    while j < ncells
        invariant
            j <= ncells,
            cells@ =~= blank_cells(j as int),
        decreases ncells - j,
    {
        cells.push(None);
        assert(cells@ =~= blank_cells(j + 1));
        j = j + 1;
    }
    let mut idx: usize = 0;
    let mut filled: bool = false;
    let mut i: usize = 0;
    let n_chars = n;
    while i < n_chars
        invariant
            n_chars == s@.len(),
            i <= n_chars,
            1 <= cols,
            1 <= ncells,
            idx < ncells,
            cells@.len() == ncells,
            parse_prefix(s@.take(i as int), dotted, cols as int, ncells as int)
                == (ParseState::At { idx: idx as int, filled, cells: cells@ }),
        decreases n_chars - i,
    {
        let c = s.get_char(i);
        proof {
            assert(s@.take(i + 1) =~= s@.take(i as int).push(s@[i as int]));
            lemma_parse_snoc(s@.take(i as int), c, dotted, cols as int, ncells as int);
        }
        if c == ' ' || c == '.' {
            let expect_dot = dotted && (idx + 1) % cols == 0;
            if idx + 1 < ncells && ((c == '.') == expect_dot) {
                idx = idx + 1;
                filled = false;
            } else {
                proof {
                    lemma_bad_prefix(s@, i + 1, dotted, cols as int, ncells as int);
                }
                return Err(crate::DecodeError::Malformed);
            }
        } else if c == 'X' || c == 'O' {
            if filled {
                proof {
                    lemma_bad_prefix(s@, i + 1, dotted, cols as int, ncells as int);
                }
                return Err(crate::DecodeError::Malformed);
            }
            let m = if c == 'X' {
                Mark::X
            } else {
                Mark::O
            };
            cells.set(idx, Some(m));
            filled = true;
        } else {
            proof {
                lemma_bad_prefix(s@, i + 1, dotted, cols as int, ncells as int);
            }
            return Err(crate::DecodeError::Malformed);
        }
        i = i + 1;
    }
    proof {
        assert(s@.take(n_chars as int) =~= s@);
    }
    if idx == ncells - 1 {
        Ok(cells)
    } else {
        Err(crate::DecodeError::Malformed)
    }
}

/// A copy of a grid with one cell overwritten by a mark.
pub fn with_cell(cells: &Vec<Option<Mark>>, k: usize, m: Mark) -> (v: Vec<Option<Mark>>)
    requires
        k < cells@.len(),
    ensures
        v@ =~= cells@.update(k as int, Some(m)),
{
    let n = cells.len();
    let mut v: Vec<Option<Mark>> = Vec::new();
    let mut t: usize = 0;
    while t < n
        invariant
            n == cells@.len(),
            k < n,
            t <= n,
            v@.len() == t,
            forall|q: int|
                0 <= q < t ==> #[trigger] v@[q] == (if q == k {
                    Some(m)
                } else {
                    cells@[q]
                }),
        decreases n - t,
    {
        if t == k {
            v.push(Some(m));
        } else {
            v.push(cells[t]);
        }
        t = t + 1;
    }
    v
}

/// Row step of scan direction `d`: across, down, down-right, down-left.
pub open spec fn dir_dr(d: int) -> int {
    if d == 0 {
        0
    } else {
        1
    }
}

/// Column step of scan direction `d`.
pub open spec fn dir_dc(d: int) -> int {
    if d == 0 {
        1
    } else if d == 1 {
        0
    } else if d == 2 {
        1
    } else {
        -1
    }
}

/// The cell of a flat row-major grid at row `r`, column `c`.
pub open spec fn cell_at(cells: Seq<Option<Mark>>, cols: int, r: int, c: int) -> Option<Mark> {
    cells[r * cols + c]
}

/// The `l`-th cell of the ray that starts at `(r, c)` and runs in
/// direction `d` lies on the board and carries mark `m`.
pub open spec fn run_cell_ok(
    cells: Seq<Option<Mark>>,
    rows: int,
    cols: int,
    r: int,
    c: int,
    d: int,
    l: int,
    m: Mark,
) -> bool {
    &&& 0 <= r + dir_dr(d) * l < rows
    &&& 0 <= c + dir_dc(d) * l < cols
    &&& cell_at(cells, cols, r + dir_dr(d) * l, c + dir_dc(d) * l) == Some(m)
}

/// `runlen` consecutive cells marked `m`, starting at `(r, c)`, running in
/// direction `d`, all on the board.
pub open spec fn line_at(
    cells: Seq<Option<Mark>>,
    rows: int,
    cols: int,
    runlen: int,
    r: int,
    c: int,
    d: int,
    m: Mark,
) -> bool {
    forall|l: int| 0 <= l < runlen ==> #[trigger] run_cell_ok(cells, rows, cols, r, c, d, l, m)
}

/// Mark `m` has a completed line somewhere on the board: a horizontal,
/// vertical or diagonal run of `runlen` cells. A run read in the opposite
/// direction is the same run read from its other end, so four directions
/// cover all eight.
pub open spec fn has_line(
    cells: Seq<Option<Mark>>,
    rows: int,
    cols: int,
    runlen: int,
    m: Mark,
) -> bool {
    exists|r: int, c: int, d: int|
        0 <= r < rows && 0 <= c < cols && 0 <= d < 4 && #[trigger] line_at(
            cells,
            rows,
            cols,
            runlen,
            r,
            c,
            d,
            m,
        )
}

/// No completed line starts at any scan position before row `r`, column `c`.
pub open spec fn no_line_before(
    cells: Seq<Option<Mark>>,
    rows: int,
    cols: int,
    runlen: int,
    r: int,
    c: int,
) -> bool {
    forall|r2: int, c2: int, d2: int, m2: Mark|
        0 <= r2 < rows && 0 <= c2 < cols && 0 <= d2 < 4 && (r2 < r || (r2 == r && c2 < c))
            ==> !#[trigger] line_at(cells, rows, cols, runlen, r2, c2, d2, m2)
}

/// Checks one candidate run: every cell of the ray from `(r, c)` in
/// direction `d` within the run length is on the board and marked `m`.
fn check_line(
    cells: &Vec<Option<Mark>>,
    rows: usize,
    cols: usize,
    runlen: usize,
    r: usize,
    c: usize,
    d: usize,
    m: Mark,
) -> (b: bool)
    requires
        cells@.len() == rows * cols,
        1 <= rows <= 10000,
        1 <= cols <= 10000,
        1 <= runlen <= 10000,
        r < rows,
        c < cols,
        d < 4,
    ensures
        b == line_at(cells@, rows as int, cols as int, runlen as int, r as int, c as int, d as int, m),
{
    let dr: i64 = if d == 0 {
        0
    } else {
        1
    };
    let dc: i64 = if d == 0 {
        1
    } else if d == 1 {
        0
    } else if d == 2 {
        1
    } else {
        -1
    };
    assert(dr == dir_dr(d as int) && dc == dir_dc(d as int));
    let mut l: usize = 0;
    while l < runlen
        invariant
            cells@.len() == rows * cols,
            1 <= rows <= 10000,
            1 <= cols <= 10000,
            1 <= runlen <= 10000,
            r < rows,
            c < cols,
            d < 4,
            l <= runlen,
            dr == dir_dr(d as int),
            dc == dir_dc(d as int),
            forall|l2: int|
                0 <= l2 < l ==> #[trigger] run_cell_ok(
                    cells@,
                    rows as int,
                    cols as int,
                    r as int,
                    c as int,
                    d as int,
                    l2,
                    m,
                ),
        decreases runlen - l,
    {
        let rr: i64 = r as i64 + dr * (l as i64);
        let cc: i64 = c as i64 + dc * (l as i64);
        if rr < 0 || rr >= rows as i64 || cc < 0 || cc >= cols as i64 {
            assert(!run_cell_ok(
                cells@,
                rows as int,
                cols as int,
                r as int,
                c as int,
                d as int,
                l as int,
                m,
            ));
            return false;
        }
        let ru = rr as usize;
        let cu = cc as usize;
        assert(ru * cols + cu < rows * cols && rows * cols <= 100000000) by (nonlinear_arith)
            requires
                ru < rows,
                cu < cols,
                1 <= cols,
                rows <= 10000,
                cols <= 10000,
        ;
        let here = cells[ru * cols + cu];
        let hit = match here {
            Some(mm) => mm == m,
            None => false,
        };
        if !hit {
            assert(cell_at(cells@, cols as int, rr as int, cc as int) !== Some(m));
            assert(!run_cell_ok(
                cells@,
                rows as int,
                cols as int,
                r as int,
                c as int,
                d as int,
                l as int,
                m,
            ));
            return false;
        }
        assert(run_cell_ok(
            cells@,
            rows as int,
            cols as int,
            r as int,
            c as int,
            d as int,
            l as int,
            m,
        ));
        l = l + 1;
    }
    true
}

/// Scans every cell as a potential line start in the four directions and
/// returns a mark that has a completed run, or `None` when no mark has one.
pub fn find_win(cells: &Vec<Option<Mark>>, rows: usize, cols: usize, runlen: usize) -> (w: Option<
    Mark,
>)
    requires
        cells@.len() == rows * cols,
        1 <= rows <= 10000,
        1 <= cols <= 10000,
        1 <= runlen <= 10000,
    ensures
        match w {
            Some(m) => has_line(cells@, rows as int, cols as int, runlen as int, m),
            None => forall|m: Mark|
                !has_line(cells@, rows as int, cols as int, runlen as int, m),
        },
{
    let ghost rows_i = rows as int;
    let ghost cols_i = cols as int;
    let ghost run_i = runlen as int;
    let mut r: usize = 0;
    while r < rows
        invariant
            cells@.len() == rows * cols,
            1 <= rows <= 10000,
            1 <= cols <= 10000,
            1 <= runlen <= 10000,
            rows_i == rows as int,
            cols_i == cols as int,
            run_i == runlen as int,
            r <= rows,
            no_line_before(cells@, rows_i, cols_i, run_i, r as int, 0),
        decreases rows - r,
    {
        let mut c: usize = 0;
        while c < cols
            invariant
                cells@.len() == rows * cols,
                1 <= rows <= 10000,
                1 <= cols <= 10000,
                1 <= runlen <= 10000,
                rows_i == rows as int,
                cols_i == cols as int,
                run_i == runlen as int,
                r < rows,
                c <= cols,
                no_line_before(cells@, rows_i, cols_i, run_i, r as int, c as int),
            decreases cols - c,
        {
            assert(r * cols + c < rows * cols && rows * cols <= 100000000) by (nonlinear_arith)
                requires
                    r < rows,
                    c < cols,
                    1 <= cols,
                    rows <= 10000,
                    cols <= 10000,
            ;
            let start = cells[r * cols + c];
            match start {
                None => {
                    assert forall|d2: int, m2: Mark| 0 <= d2 < 4 implies !line_at(
                        cells@,
                        rows_i,
                        cols_i,
                        run_i,
                        r as int,
                        c as int,
                        d2,
                        m2,
                    ) by {
                        assert(!run_cell_ok(
                            cells@,
                            rows_i,
                            cols_i,
                            r as int,
                            c as int,
                            d2,
                            0,
                            m2,
                        ));
                    };
                },
                Some(m) => {
                    let mut d: usize = 0;
                    while d < 4
                        invariant
                            cells@.len() == rows * cols,
                            1 <= rows <= 10000,
                            1 <= cols <= 10000,
                            1 <= runlen <= 10000,
                            rows_i == rows as int,
                            cols_i == cols as int,
                            run_i == runlen as int,
                            r < rows,
                            c < cols,
                            d <= 4,
                            cell_at(cells@, cols_i, r as int, c as int) == Some(m),
                            forall|d2: int|
                                0 <= d2 < d ==> !#[trigger] line_at(
                                    cells@,
                                    rows_i,
                                    cols_i,
                                    run_i,
                                    r as int,
                                    c as int,
                                    d2,
                                    m,
                                ),
                        decreases 4 - d,
                    {
                        if check_line(cells, rows, cols, runlen, r, c, d, m) {
                            assert(has_line(cells@, rows_i, cols_i, run_i, m));
                            return Some(m);
                        }
                        d = d + 1;
                    }
                    assert forall|d2: int, m2: Mark| 0 <= d2 < 4 implies !line_at(
                        cells@,
                        rows_i,
                        cols_i,
                        run_i,
                        r as int,
                        c as int,
                        d2,
                        m2,
                    ) by {
                        if m2 !== m {
                            assert(!run_cell_ok(
                                cells@,
                                rows_i,
                                cols_i,
                                r as int,
                                c as int,
                                d2,
                                0,
                                m2,
                            ));
                        }
                    };
                },
            }
            c = c + 1;
        }
        r = r + 1;
    }
    assert forall|m: Mark| !has_line(cells@, rows_i, cols_i, run_i, m) by {
        if has_line(cells@, rows_i, cols_i, run_i, m) {
            let (r2, c2, d2) = choose|r2: int, c2: int, d2: int|
                0 <= r2 < rows_i && 0 <= c2 < cols_i && 0 <= d2 < 4 && #[trigger] line_at(
                    cells@,
                    rows_i,
                    cols_i,
                    run_i,
                    r2,
                    c2,
                    d2,
                    m,
                );
            assert(!line_at(cells@, rows_i, cols_i, run_i, r2, c2, d2, m));
        }
    };
    None
}

} // verus!
