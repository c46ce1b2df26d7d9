//! The board: a square grid of cells with running token counts, and the
//! slide operation that shifts one row or column toward an edge.

use vstd::prelude::*;

verus! {

/// One cell of the board: a blocking token, a protected token, or empty.
#[derive(Clone, Copy, Debug, PartialEq, Eq, Structural)]
pub enum RoomState {
    Oni,
    Fuku,
    Vacant,
}

/// The four directions a row or column can slide toward.
#[derive(Clone, Copy, Debug, PartialEq, Eq, Structural)]
pub enum Direction {
    Left,
    Right,
    Up,
    Down,
}

/// One slide: a direction and the index of the row (Left/Right) or
/// column (Up/Down) it moves.
#[derive(Clone, Copy, Debug, PartialEq, Eq, Structural)]
pub struct Operation {
    pub dir: Direction,
    pub index: usize,
}

/// Some cell of row `y` in columns `[begin, end)` holds a protected token.
pub open spec fn fuku_in_row(g: Seq<Seq<RoomState>>, y: int, begin: int, end: int) -> bool {
    exists|j: int| begin <= j < end && #[trigger] g[y][j] == RoomState::Fuku
}

/// Some cell of column `x` in rows `[begin, end)` holds a protected token.
pub open spec fn fuku_in_col(g: Seq<Seq<RoomState>>, x: int, begin: int, end: int) -> bool {
    exists|i: int| begin <= i < end && #[trigger] g[i][x] == RoomState::Fuku
}

/// The blocking token at `(i, j)` has a protected token somewhere in each
/// of its four rays to the board edges.
pub open spec fn locked_at(g: Seq<Seq<RoomState>>, n: int, i: int, j: int) -> bool {
    &&& g[i][j] == RoomState::Oni
    &&& fuku_in_col(g, j, 0, i)
    &&& fuku_in_col(g, j, i + 1, n)
    &&& fuku_in_row(g, i, 0, j)
    &&& fuku_in_row(g, i, j + 1, n)
}

/// Some blocking token on the board is surrounded by protected tokens in
/// all four directions.
pub open spec fn locked(g: Seq<Seq<RoomState>>, n: int) -> bool {
    exists|i: int, j: int| 0 <= i < n && 0 <= j < n && #[trigger] locked_at(g, n, i, j)
}

/// 1 if the cell holds a token of kind `k`, else 0.
pub open spec fn cell_count(c: RoomState, k: RoomState) -> int {
    if c == k {
        1int
    } else {
        0int
    }
}

/// How many cells of a line hold a token of kind `k`.
pub open spec fn row_count(row: Seq<RoomState>, k: RoomState) -> int
    decreases row.len(),
{
    if row.len() == 0 {
        0int
    } else {
        cell_count(row[0], k) + row_count(row.drop_first(), k)
    }
}

/// The mathematical grid behind a vector of rows.
pub open spec fn grid_of(rows: Seq<Vec<RoomState>>) -> Seq<Seq<RoomState>> {
    rows.map(|i: int, r: Vec<RoomState>| r@)
}

/// How many cells of a grid hold a token of kind `k`.
pub open spec fn grid_count(g: Seq<Seq<RoomState>>, k: RoomState) -> int
    decreases g.len(),
{
    if g.len() == 0 {
        0int
    } else {
        row_count(g[0], k) + grid_count(g.drop_first(), k)
    }
}

/// The grid is an `n` by `n` square.
pub open spec fn square(g: Seq<Seq<RoomState>>, n: int) -> bool {
    g.len() == n && forall|i: int| 0 <= i < n ==> (#[trigger] g[i]).len() == n
}

/// A line slid one step toward index 0: the first cell falls off and the
/// far end becomes vacant.
pub open spec fn shift_low(line: Seq<RoomState>) -> Seq<RoomState> {
    line.drop_first().push(RoomState::Vacant)
}

/// A line slid one step toward the last index: the last cell falls off
/// and index 0 becomes vacant.
pub open spec fn shift_high(line: Seq<RoomState>) -> Seq<RoomState> {
    seq![RoomState::Vacant] + line.drop_last()
}

/// Column `x` of the grid, read top to bottom.
pub open spec fn col_of(g: Seq<Seq<RoomState>>, x: int) -> Seq<RoomState> {
    Seq::new(g.len(), |i: int| g[i][x])
}

/// The grid with column `x` replaced by `line`.
pub open spec fn with_col(g: Seq<Seq<RoomState>>, x: int, line: Seq<RoomState>) -> Seq<
    Seq<RoomState>,
> {
    Seq::new(g.len(), |i: int| g[i].update(x, line[i]))
}

/// The grid after one slide.
pub open spec fn apply_op(g: Seq<Seq<RoomState>>, op: Operation) -> Seq<Seq<RoomState>> {
    let x = op.index as int;
    match op.dir {
        Direction::Left => g.update(x, shift_low(g[x])),
        Direction::Right => g.update(x, shift_high(g[x])),
        Direction::Up => with_col(g, x, shift_low(col_of(g, x))),
        Direction::Down => with_col(g, x, shift_high(col_of(g, x))),
    }
}

/// The cell that falls off the board when `op` is applied to `g`.
pub open spec fn ejected(g: Seq<Seq<RoomState>>, op: Operation) -> RoomState {
    let x = op.index as int;
    match op.dir {
        Direction::Left => g[x][0],
        Direction::Right => g[x][g[x].len() - 1],
        Direction::Up => g[0][x],
        Direction::Down => g[g.len() - 1][x],
    }
}

/// The grid after a whole sequence of slides, applied in order.
pub open spec fn apply_ops(g: Seq<Seq<RoomState>>, ops: Seq<Operation>) -> Seq<Seq<RoomState>>
    decreases ops.len(),
{
    if ops.len() == 0 {
        g
    } else {
        apply_ops(apply_op(g, ops[0]), ops.drop_first())
    }
}

/// The board: its dimension, its grid, and running counts of both token
/// kinds, kept consistent with the grid by every mutation.
#[derive(Debug, PartialEq)]
pub struct BoardState {
    pub n: usize,
    pub board: Vec<Vec<RoomState>>,
    pub num_oni: usize,
    pub num_fuku: usize,
}

impl View for BoardState {
    type V = Seq<Seq<RoomState>>;

    open spec fn view(&self) -> Seq<Seq<RoomState>> {
        grid_of(self.board@)
    }
}

impl BoardState {
    /// The board is a square of its stated dimension and both counts
    /// agree with the grid.
    pub open spec fn wf(&self) -> bool {
        &&& square(self@, self.n as int)
        &&& self.num_oni == grid_count(self@, RoomState::Oni)
        &&& self.num_fuku == grid_count(self@, RoomState::Fuku)
    }
}

// ------------------------------------------------------------------
// Counting lemmas
// ------------------------------------------------------------------

pub proof fn lemma_row_count_bounds(row: Seq<RoomState>, k: RoomState)
    ensures
        0 <= row_count(row, k) <= row.len(),
    decreases row.len(),
{
    if row.len() > 0 {
        lemma_row_count_bounds(row.drop_first(), k);
    }
}

pub proof fn lemma_grid_count_nonneg(g: Seq<Seq<RoomState>>, k: RoomState)
    ensures
        0 <= grid_count(g, k),
    decreases g.len(),
{
    if g.len() > 0 {
        lemma_row_count_bounds(g[0], k);
        lemma_grid_count_nonneg(g.drop_first(), k);
    }
}

/// A cell of kind `k` makes its line's count at least 1.
pub proof fn lemma_row_count_cell(row: Seq<RoomState>, j: int, k: RoomState)
    requires
        0 <= j < row.len(),
        row[j] == k,
    ensures
        row_count(row, k) >= 1,
    decreases row.len(),
{
    lemma_row_count_bounds(row.drop_first(), k);
    if j > 0 {
        lemma_row_count_cell(row.drop_first(), j - 1, k);
    }
}

/// The count of a grid is at least the count of any one of its rows.
pub proof fn lemma_grid_count_row(g: Seq<Seq<RoomState>>, i: int, k: RoomState)
    requires
        0 <= i < g.len(),
    ensures
        grid_count(g, k) >= row_count(g[i], k),
    decreases g.len(),
{
    lemma_row_count_bounds(g[0], k);
    lemma_grid_count_nonneg(g.drop_first(), k);
    if i > 0 {
        lemma_grid_count_row(g.drop_first(), i - 1, k);
        lemma_row_count_bounds(g[i], k);
    }
}

/// A cell of kind `k` makes the grid's count at least 1.
pub proof fn lemma_grid_count_cell(g: Seq<Seq<RoomState>>, i: int, j: int, k: RoomState)
    requires
        0 <= i < g.len(),
        0 <= j < g[i].len(),
        g[i][j] == k,
    ensures
        grid_count(g, k) >= 1,
{
    lemma_row_count_cell(g[i], j, k);
    lemma_grid_count_row(g, i, k);
}

/// Updating one cell moves the line's count by the difference of the two
/// cells.
pub proof fn lemma_row_count_update(row: Seq<RoomState>, j: int, v: RoomState, k: RoomState)
    requires
        0 <= j < row.len(),
    ensures
        row_count(row.update(j, v), k) == row_count(row, k) - cell_count(row[j], k) + cell_count(
            v,
            k,
        ),
    decreases row.len(),
{
    if j == 0 {
        assert(row.update(0, v).drop_first() =~= row.drop_first());
    } else {
        assert(row.update(j, v).drop_first() =~= row.drop_first().update(j - 1, v));
        lemma_row_count_update(row.drop_first(), j - 1, v, k);
    }
}

pub proof fn lemma_row_count_push(row: Seq<RoomState>, v: RoomState, k: RoomState)
    ensures
        row_count(row.push(v), k) == row_count(row, k) + cell_count(v, k),
    decreases row.len(),
{
    reveal_with_fuel(row_count, 2);
    if row.len() == 0 {
        assert(row.push(v)[0] == v);
        assert(row.push(v).drop_first() =~= Seq::<RoomState>::empty());
    } else {
        assert(row.push(v).drop_first() =~= row.drop_first().push(v));
        lemma_row_count_push(row.drop_first(), v, k);
    }
}

/// A line without any cell of kind `k` counts zero of them.
pub proof fn lemma_row_count_none(row: Seq<RoomState>, k: RoomState)
    requires
        forall|j: int| 0 <= j < row.len() ==> row[j] != k,
    ensures
        row_count(row, k) == 0,
    decreases row.len(),
{
    if row.len() > 0 {
        lemma_row_count_none(row.drop_first(), k);
    }
}

/// Counting a concatenation counts both parts.
pub proof fn lemma_row_count_add(a: Seq<RoomState>, b: Seq<RoomState>, k: RoomState)
    ensures
        row_count(a + b, k) == row_count(a, k) + row_count(b, k),
    decreases a.len(),
{
    if a.len() == 0 {
        assert(a + b =~= b);
    } else {
        assert((a + b).drop_first() =~= a.drop_first() + b);
        assert((a + b)[0] == a[0]);
        lemma_row_count_add(a.drop_first(), b, k);
    }
}

/// A line's count splits at any cut point.
pub proof fn lemma_row_count_split(row: Seq<RoomState>, m: int, k: RoomState)
    requires
        0 <= m <= row.len(),
    ensures
        row_count(row, k) == row_count(row.take(m), k) + row_count(row.skip(m), k),
{
    assert(row =~= row.take(m) + row.skip(m));
    lemma_row_count_add(row.take(m), row.skip(m), k);
}

/// A grid with no cell of kind `k` counts zero of them.
pub proof fn lemma_grid_count_none(g: Seq<Seq<RoomState>>, k: RoomState)
    requires
        forall|p: int, q: int|
            0 <= p < g.len() && 0 <= q < g[p].len() ==> #[trigger] g[p][q] != k,
    ensures
        grid_count(g, k) == 0,
    decreases g.len(),
{
    if g.len() > 0 {
        lemma_row_count_none(g[0], k);
        assert forall|p: int, q: int|
            0 <= p < g.drop_first().len() && 0 <= q < g.drop_first()[p].len() implies #[trigger] g.drop_first()[p][q]
            != k by {
            assert(g.drop_first()[p] == g[p + 1]);
        }
        lemma_grid_count_none(g.drop_first(), k);
    }
}

/// A count over a grid never exceeds the number of its cells.
pub proof fn lemma_grid_count_upper(g: Seq<Seq<RoomState>>, m: int, k: RoomState)
    requires
        forall|i: int| 0 <= i < g.len() ==> (#[trigger] g[i]).len() <= m,
        0 <= m,
    ensures
        grid_count(g, k) <= g.len() * m,
    decreases g.len(),
{
    if g.len() == 0 {
    } else {
        lemma_row_count_bounds(g[0], k);
        assert forall|i: int| 0 <= i < g.drop_first().len() implies (#[trigger] g.drop_first()[i]).len()
            <= m by {
            assert(g.drop_first()[i] == g[i + 1]);
        }
        lemma_grid_count_upper(g.drop_first(), m, k);
        assert((g.len() - 1) * m + m == g.len() * m) by (nonlinear_arith);
    }
}

/// Replacing one row moves the grid's count by the difference of the two
/// rows' counts.
pub proof fn lemma_grid_count_update(
    g: Seq<Seq<RoomState>>,
    i: int,
    r: Seq<RoomState>,
    k: RoomState,
)
    requires
        0 <= i < g.len(),
    ensures
        grid_count(g.update(i, r), k) == grid_count(g, k) - row_count(g[i], k) + row_count(r, k),
    decreases g.len(),
{
    if i == 0 {
        assert(g.update(0, r).drop_first() =~= g.drop_first());
    } else {
        assert(g.update(i, r).drop_first() =~= g.drop_first().update(i - 1, r));
        lemma_grid_count_update(g.drop_first(), i - 1, r, k);
    }
}

/// A slide toward index 0 removes exactly the first cell from the line's
/// count of any token kind.
pub proof fn lemma_shift_low_count(line: Seq<RoomState>, k: RoomState)
    requires
        line.len() >= 1,
        k != RoomState::Vacant,
    ensures
        row_count(shift_low(line), k) == row_count(line, k) - cell_count(line[0], k),
{
    lemma_row_count_push(line.drop_first(), RoomState::Vacant, k);
}

/// A slide toward the last index removes exactly the last cell from the
/// line's count of any token kind.
pub proof fn lemma_shift_high_count(line: Seq<RoomState>, k: RoomState)
    requires
        line.len() >= 1,
        k != RoomState::Vacant,
    ensures
        row_count(shift_high(line), k) == row_count(line, k) - cell_count(line.last(), k),
{
    assert(shift_high(line).drop_first() =~= line.drop_last());
    assert(line.drop_last().push(line.last()) =~= line);
    lemma_row_count_push(line.drop_last(), line.last(), k);
}

/// Replacing one column moves the grid's count by the difference of the
/// two columns' counts.
pub proof fn lemma_with_col_count(
    g: Seq<Seq<RoomState>>,
    x: int,
    line: Seq<RoomState>,
    k: RoomState,
)
    requires
        line.len() == g.len(),
        0 <= x,
        forall|i: int| 0 <= i < g.len() ==> x < (#[trigger] g[i]).len(),
    ensures
        grid_count(with_col(g, x, line), k) == grid_count(g, k) - row_count(col_of(g, x), k)
            + row_count(line, k),
    decreases g.len(),
{
    if g.len() == 0 {
    } else {
        let gt = g.drop_first();
        let lt = line.drop_first();
        assert forall|i: int| 0 <= i < gt.len() implies x < (#[trigger] gt[i]).len() by {
            assert(gt[i] == g[i + 1]);
        }
        assert(with_col(g, x, line).drop_first() =~~= with_col(gt, x, lt));
        assert(col_of(g, x).drop_first() =~= col_of(gt, x));
        lemma_with_col_count(gt, x, lt, k);
        lemma_row_count_update(g[0], x, line[0], k);
        assert(with_col(g, x, line)[0] == g[0].update(x, line[0]));
    }
}

/// One slide removes exactly the ejected cell from the grid's count of
/// any token kind.
pub proof fn lemma_apply_op_count(g: Seq<Seq<RoomState>>, op: Operation, n: int, k: RoomState)
    requires
        square(g, n),
        op.index < n,
        k != RoomState::Vacant,
    ensures
        grid_count(apply_op(g, op), k) == grid_count(g, k) - cell_count(ejected(g, op), k),
{
    let x = op.index as int;
    match op.dir {
        Direction::Left => {
            lemma_shift_low_count(g[x], k);
            lemma_grid_count_update(g, x, shift_low(g[x]), k);
        },
        Direction::Right => {
            lemma_shift_high_count(g[x], k);
            lemma_grid_count_update(g, x, shift_high(g[x]), k);
        },
        Direction::Up => {
            lemma_shift_low_count(col_of(g, x), k);
            lemma_with_col_count(g, x, shift_low(col_of(g, x)), k);
        },
        Direction::Down => {
            lemma_shift_high_count(col_of(g, x), k);
            lemma_with_col_count(g, x, shift_high(col_of(g, x)), k);
        },
    }
}

/// A slide keeps the grid square.
pub proof fn lemma_apply_op_square(g: Seq<Seq<RoomState>>, op: Operation, n: int)
    requires
        square(g, n),
        op.index < n,
    ensures
        square(apply_op(g, op), n),
{
    let x = op.index as int;
    match op.dir {
        Direction::Left => {
            assert(shift_low(g[x]).len() == n);
        },
        Direction::Right => {
            assert(shift_high(g[x]).len() == n);
        },
        Direction::Up => {
            assert forall|i: int| 0 <= i < n implies (#[trigger] apply_op(g, op)[i]).len()
                == n by {
                assert(apply_op(g, op)[i] == g[i].update(x, shift_low(col_of(g, x))[i]));
            }
        },
        Direction::Down => {
            assert forall|i: int| 0 <= i < n implies (#[trigger] apply_op(g, op)[i]).len()
                == n by {
                assert(apply_op(g, op)[i] == g[i].update(x, shift_high(col_of(g, x))[i]));
            }
        },
    }
}

/// One slide changes only the cells of its own line: a row slide leaves
/// every other row identical, a column slide leaves every cell outside
/// that column identical.
pub proof fn lemma_apply_op_locality(g: Seq<Seq<RoomState>>, op: Operation, n: int)
    requires
        square(g, n),
        op.index < n,
    ensures
        (op.dir == Direction::Left || op.dir == Direction::Right) ==> forall|p: int|
            0 <= p < n && p != op.index ==> #[trigger] apply_op(g, op)[p] == g[p],
        (op.dir == Direction::Up || op.dir == Direction::Down) ==> forall|i: int, j: int|
            0 <= i < n && 0 <= j < n && j != op.index ==> #[trigger] apply_op(g, op)[i][j] == g[i][j],
{
    let x = op.index as int;
    match op.dir {
        Direction::Left | Direction::Right => {},
        Direction::Up | Direction::Down => {
            let line = if op.dir == Direction::Up {
                shift_low(col_of(g, x))
            } else {
                shift_high(col_of(g, x))
            };
            assert forall|i: int, j: int|
                0 <= i < n && 0 <= j < n && j != x implies #[trigger] apply_op(g, op)[i][j] == g[i][j] by {
                assert(apply_op(g, op)[i] == g[i].update(x, line[i]));
            }
        },
    }
}

/// A Left slide of a row whose leftmost cell holds a blocking token
/// removes exactly that token: the blocking count drops by one, the
/// protected count is untouched, every other cell of the row moves one
/// place left with the last cell becoming empty, and no other row
/// changes.
pub proof fn lemma_left_edge_ejection(g: Seq<Seq<RoomState>>, r: usize, n: int)
    requires
        square(g, n),
        r < n,
        g[r as int][0] == RoomState::Oni,
    ensures
        grid_count(apply_op(g, Operation { dir: Direction::Left, index: r }), RoomState::Oni)
            == grid_count(g, RoomState::Oni) - 1,
        grid_count(apply_op(g, Operation { dir: Direction::Left, index: r }), RoomState::Fuku)
            == grid_count(g, RoomState::Fuku),
        apply_op(g, Operation { dir: Direction::Left, index: r })[r as int] == shift_low(
            g[r as int],
        ),
        forall|p: int|
            0 <= p < n && p != r ==> #[trigger] apply_op(
                g,
                Operation { dir: Direction::Left, index: r },
            )[p] == g[p],
{
    let op = Operation { dir: Direction::Left, index: r };
    lemma_apply_op_count(g, op, n, RoomState::Oni);
    lemma_apply_op_count(g, op, n, RoomState::Fuku);
    lemma_apply_op_locality(g, op, n);
}

/// Applying a concatenation of slide sequences is applying one after the
/// other.
pub proof fn lemma_apply_ops_concat(g: Seq<Seq<RoomState>>, a: Seq<Operation>, b: Seq<Operation>)
    ensures
        apply_ops(g, a + b) == apply_ops(apply_ops(g, a), b),
    decreases a.len(),
{
    if a.len() == 0 {
        assert(a + b =~= b);
    } else {
        assert((a + b).drop_first() =~= a.drop_first() + b);
        assert((a + b)[0] == a[0]);
        lemma_apply_ops_concat(apply_op(g, a[0]), a.drop_first(), b);
    }
}

/// One more slide of a prefix extends the prefix's effect by one step.
pub proof fn lemma_apply_ops_take_step(g: Seq<Seq<RoomState>>, ops: Seq<Operation>, k: int)
    requires
        0 <= k < ops.len(),
    ensures
        apply_ops(g, ops.take(k + 1)) == apply_op(apply_ops(g, ops.take(k)), ops[k]),
{
    reveal_with_fuel(apply_ops, 2);
    assert(ops.take(k + 1) =~= ops.take(k) + seq![ops[k]]);
    lemma_apply_ops_concat(g, ops.take(k), seq![ops[k]]);
    assert(seq![ops[k]].drop_first() =~= Seq::<Operation>::empty());
}

/// A sequence of in-range slides keeps the grid square.
pub proof fn lemma_apply_ops_square(g: Seq<Seq<RoomState>>, ops: Seq<Operation>, n: int)
    requires
        square(g, n),
        forall|k: int| 0 <= k < ops.len() ==> (#[trigger] ops[k]).index < n,
    ensures
        square(apply_ops(g, ops), n),
    decreases ops.len(),
{
    if ops.len() > 0 {
        lemma_apply_op_square(g, ops[0], n);
        lemma_apply_ops_square(apply_op(g, ops[0]), ops.drop_first(), n);
    }
}

/// Slides never add tokens: over any sequence of slides a token count can
/// only go down.
pub proof fn lemma_apply_ops_mono(
    g: Seq<Seq<RoomState>>,
    ops: Seq<Operation>,
    n: int,
    k: RoomState,
)
    requires
        square(g, n),
        forall|t: int| 0 <= t < ops.len() ==> (#[trigger] ops[t]).index < n,
        k != RoomState::Vacant,
    ensures
        grid_count(apply_ops(g, ops), k) <= grid_count(g, k),
    decreases ops.len(),
{
    if ops.len() > 0 {
        lemma_apply_op_count(g, ops[0], n, k);
        lemma_apply_op_square(g, ops[0], n);
        lemma_apply_ops_mono(apply_op(g, ops[0]), ops.drop_first(), n, k);
    }
}

/// If a token count is unchanged across a whole sequence of slides, it is
/// unchanged at every intermediate step as well.
pub proof fn lemma_apply_ops_prefix_count(
    g: Seq<Seq<RoomState>>,
    ops: Seq<Operation>,
    n: int,
    k: RoomState,
    t: int,
)
    requires
        square(g, n),
        forall|p: int| 0 <= p < ops.len() ==> (#[trigger] ops[p]).index < n,
        k != RoomState::Vacant,
        grid_count(apply_ops(g, ops), k) == grid_count(g, k),
        0 <= t <= ops.len(),
    ensures
        grid_count(apply_ops(g, ops.take(t)), k) == grid_count(g, k),
{
    let h = apply_ops(g, ops.take(t));
    assert(ops =~= ops.take(t) + ops.skip(t));
    lemma_apply_ops_concat(g, ops.take(t), ops.skip(t));
    assert(forall|p: int| 0 <= p < ops.take(t).len() ==> (#[trigger] ops.take(t)[p]).index < n);
    lemma_apply_ops_mono(g, ops.take(t), n, k);
    lemma_apply_ops_square(g, ops.take(t), n);
    assert(forall|p: int| 0 <= p < ops.skip(t).len() ==> (#[trigger] ops.skip(t)[p]).index < n);
    lemma_apply_ops_mono(h, ops.skip(t), n, k);
}

/// Read one cell of a grid held as a vector of rows.
pub(crate) fn get_cell(rows: &Vec<Vec<RoomState>>, i: usize, j: usize) -> (c: RoomState)
    requires
        i < grid_of(rows@).len(),
        j < grid_of(rows@)[i as int].len(),
    ensures
        c == grid_of(rows@)[i as int][j as int],
{
    rows[i][j]
}

/// Write one cell of a grid held as a vector of rows.
pub(crate) fn set_cell(rows: &mut Vec<Vec<RoomState>>, i: usize, j: usize, v: RoomState)
    requires
        i < grid_of(old(rows)@).len(),
        j < grid_of(old(rows)@)[i as int].len(),
    ensures
        grid_of(final(rows)@) == grid_of(old(rows)@).update(
            i as int,
            grid_of(old(rows)@)[i as int].update(j as int, v),
        ),
{
    rows[i][j] = v;
    proof {
        assert(grid_of(rows@) =~~= grid_of(old(rows)@).update(
            i as int,
            grid_of(old(rows)@)[i as int].update(j as int, v),
        ));
    }
}

impl Direction {
    /// The single-character rendering of a direction in the output format.
    pub open spec fn symbol_spec(self) -> char {
        match self {
            Direction::Left => 'L',
            Direction::Right => 'R',
            Direction::Up => 'U',
            Direction::Down => 'D',
        }
    }

    pub fn symbol(self) -> (c: char)
        ensures
            c == self.symbol_spec(),
    {
        match self {
            Direction::Left => 'L',
            Direction::Right => 'R',
            Direction::Up => 'U',
            Direction::Down => 'D',
        }
    }
}

impl BoardState {
    /// True if some cell of row `y` in columns `[begin, end)` holds a
    /// protected token.
    #[verifier::loop_isolation(false)]
    pub fn exists_fuku_in_row(&self, y: usize, begin: usize, end: usize) -> (r: bool)
        requires
            self.wf(),
            y < self.n,
            begin <= end <= self.n,
        ensures
            r == fuku_in_row(self@, y as int, begin as int, end as int),
    {
        let mut j = begin;
        while j < end
            invariant
                begin <= j <= end,
                forall|q: int| begin <= q < j ==> #[trigger] self@[y as int][q] != RoomState::Fuku,
            decreases end - j,
        {
            if self.board[y][j] == RoomState::Fuku {
                assert(self@[y as int][j as int] == RoomState::Fuku);
                return true;
            }
            j += 1;
        }
        false
    }

    /// True if some cell of column `x` in rows `[begin, end)` holds a
    /// protected token.
    #[verifier::loop_isolation(false)]
    pub fn exists_fuku_in_col(&self, x: usize, begin: usize, end: usize) -> (r: bool)
        requires
            self.wf(),
            x < self.n,
            begin <= end <= self.n,
        ensures
            r == fuku_in_col(self@, x as int, begin as int, end as int),
    {
        let mut i = begin;
        while i < end
            invariant
                begin <= i <= end,
                forall|q: int| begin <= q < i ==> #[trigger] self@[q][x as int] != RoomState::Fuku,
            decreases end - i,
        {
            if self.board[i][x] == RoomState::Fuku {
                assert(self@[i as int][x as int] == RoomState::Fuku);
                return true;
            }
            i += 1;
        }
        false
    }

    /// True if some blocking token can no longer be ejected in any of the
    /// four directions without disturbing a protected token.
    #[verifier::loop_isolation(false)]
    pub fn exists_oni_around_all_fuku(&self) -> (r: bool)
        requires
            self.wf(),
        ensures
            r == locked(self@, self.n as int),
    {
        let n = self.n;
        let mut i: usize = 0;
        while i < n
            invariant
                i <= n,
                forall|p: int, q: int|
                    0 <= p < i && 0 <= q < n ==> !#[trigger] locked_at(self@, n as int, p, q),
            decreases n - i,
        {
            let mut j: usize = 0;
            while j < n
                invariant
                    j <= n,
                    forall|q: int|
                        0 <= q < j ==> !#[trigger] locked_at(self@, n as int, i as int, q),
                decreases n - j,
            {
                if get_cell(&self.board, i, j) == RoomState::Oni {
                    let can_fall = !self.exists_fuku_in_col(j, 0, i) || !self.exists_fuku_in_col(
                        j,
                        i + 1,
                        n,
                    ) || !self.exists_fuku_in_row(i, 0, j) || !self.exists_fuku_in_row(i, j + 1, n);
                    if !can_fall {
                        assert(locked_at(self@, n as int, i as int, j as int));
                        return true;
                    }
                }
                j += 1;
            }
            i += 1;
        }
        false
    }

    /// An independent copy of the board, used for scratch simulation.
    #[verifier::loop_isolation(false)]
    pub fn duplicate(&self) -> (r: BoardState)
        ensures
            r.n == self.n,
            r.num_oni == self.num_oni,
            r.num_fuku == self.num_fuku,
            r@ == self@,
    {
        let mut rows: Vec<Vec<RoomState>> = Vec::new();
        let mut i: usize = 0;
        let len = self.board.len();
        while i < len
            invariant
                i <= len,
                rows@.len() == i,
                forall|p: int| 0 <= p < i ==> (#[trigger] rows@[p])@ == self.board@[p]@,
            decreases len - i,
        {
            let mut row: Vec<RoomState> = Vec::new();
            let rlen = self.board[i].len();
            let mut j: usize = 0;
            while j < rlen
                invariant
                    j <= rlen,
                    row@.len() == j,
                    forall|q: int| 0 <= q < j ==> #[trigger] row@[q] == self.board@[i as int]@[q],
                decreases rlen - j,
            {
                row.push(self.board[i][j]);
                j += 1;
            }
            assert(row@ =~= self.board@[i as int]@);
            rows.push(row);
            i += 1;
        }
        let r = BoardState { n: self.n, board: rows, num_oni: self.num_oni, num_fuku: self.num_fuku };
        assert(r@ =~~= self@);
        r
    }

    /// Slide the row (Left/Right) or column (Up/Down) named by the
    /// operation one step toward its edge.  The cell at that edge falls
    /// off the board, the matching count is lowered when it held a token,
    /// and the vacated far cell becomes empty.
    #[verifier::loop_isolation(false)]
    pub fn apply(&mut self, operation: &Operation)
        requires
            old(self).wf(),
            operation.index < old(self).n,
        ensures
            final(self).n == old(self).n,
            final(self).wf(),
            final(self)@ == apply_op(old(self)@, *operation),
            final(self).num_oni as int == old(self).num_oni - cell_count(
                ejected(old(self)@, *operation),
                RoomState::Oni,
            ),
            final(self).num_fuku as int == old(self).num_fuku - cell_count(
                ejected(old(self)@, *operation),
                RoomState::Fuku,
            ),
    {
        let idx = operation.index;
        let n = self.n;
        let ghost g0 = self@;
        match operation.dir {
            Direction::Left => {
                let e = get_cell(&self.board, idx, 0);
                proof {
                    if e != RoomState::Vacant {
                        lemma_grid_count_cell(g0, idx as int, 0, e);
                    }
                }
                match e {
                    RoomState::Oni => { self.num_oni = self.num_oni - 1; },
                    RoomState::Fuku => { self.num_fuku = self.num_fuku - 1; },
                    RoomState::Vacant => {},
                }
                let mut j: usize = 0;
                while j < n - 1
                    invariant
                        j <= n - 1,
                        self.n == n,
                        self.num_oni == old(self).num_oni - cell_count(
                            g0[idx as int][0],
                            RoomState::Oni,
                        ),
                        self.num_fuku == old(self).num_fuku - cell_count(
                            g0[idx as int][0],
                            RoomState::Fuku,
                        ),
                        self@.len() == n,
                        forall|p: int| 0 <= p < n && p != idx ==> #[trigger] self@[p] == g0[p],
                        self@[idx as int].len() == n,
                        forall|q: int|
                            0 <= q < j ==> #[trigger] self@[idx as int][q] == g0[idx as int][q + 1],
                        forall|q: int|
                            j <= q < n ==> #[trigger] self@[idx as int][q] == g0[idx as int][q],
                    decreases n - 1 - j,
                {
                    let v = get_cell(&self.board, idx, j + 1);
                    set_cell(&mut self.board, idx, j, v);
                    j += 1;
                }
                set_cell(&mut self.board, idx, n - 1, RoomState::Vacant);
                assert(self@ =~~= apply_op(g0, *operation));
            },
            Direction::Right => {
                let e = get_cell(&self.board, idx, n - 1);
                proof {
                    if e != RoomState::Vacant {
                        lemma_grid_count_cell(g0, idx as int, n as int - 1, e);
                    }
                }
                match e {
                    RoomState::Oni => { self.num_oni = self.num_oni - 1; },
                    RoomState::Fuku => { self.num_fuku = self.num_fuku - 1; },
                    RoomState::Vacant => {},
                }
                let mut j: usize = n - 1;
                while j >= 1
                    invariant
                        j <= n - 1,
                        self.n == n,
                        self.num_oni == old(self).num_oni - cell_count(
                            g0[idx as int][n - 1],
                            RoomState::Oni,
                        ),
                        self.num_fuku == old(self).num_fuku - cell_count(
                            g0[idx as int][n - 1],
                            RoomState::Fuku,
                        ),
                        self@.len() == n,
                        forall|p: int| 0 <= p < n && p != idx ==> #[trigger] self@[p] == g0[p],
                        self@[idx as int].len() == n,
                        forall|q: int|
                            j < q < n ==> #[trigger] self@[idx as int][q] == g0[idx as int][q - 1],
                        forall|q: int|
                            0 <= q <= j ==> #[trigger] self@[idx as int][q] == g0[idx as int][q],
                    decreases j,
                {
                    let v = get_cell(&self.board, idx, j - 1);
                    set_cell(&mut self.board, idx, j, v);
                    j -= 1;
                }
                set_cell(&mut self.board, idx, 0, RoomState::Vacant);
                assert(self@ =~~= apply_op(g0, *operation));
            },
            Direction::Up => {
                let e = get_cell(&self.board, 0, idx);
                proof {
                    if e != RoomState::Vacant {
                        lemma_grid_count_cell(g0, 0, idx as int, e);
                    }
                }
                match e {
                    RoomState::Oni => { self.num_oni = self.num_oni - 1; },
                    RoomState::Fuku => { self.num_fuku = self.num_fuku - 1; },
                    RoomState::Vacant => {},
                }
                let mut i: usize = 0;
                while i < n - 1
                    invariant
                        i <= n - 1,
                        self.n == n,
                        self.num_oni == old(self).num_oni - cell_count(
                            g0[0][idx as int],
                            RoomState::Oni,
                        ),
                        self.num_fuku == old(self).num_fuku - cell_count(
                            g0[0][idx as int],
                            RoomState::Fuku,
                        ),
                        self@.len() == n,
                        forall|p: int|
                            0 <= p < i ==> #[trigger] self@[p] == g0[p].update(
                                idx as int,
                                g0[p + 1][idx as int],
                            ),
                        forall|p: int| i <= p < n ==> #[trigger] self@[p] == g0[p],
                    decreases n - 1 - i,
                {
                    let v = get_cell(&self.board, i + 1, idx);
                    set_cell(&mut self.board, i, idx, v);
                    i += 1;
                }
                set_cell(&mut self.board, n - 1, idx, RoomState::Vacant);
                assert(self@ =~~= apply_op(g0, *operation));
            },
            Direction::Down => {
                let e = get_cell(&self.board, n - 1, idx);
                proof {
                    if e != RoomState::Vacant {
                        lemma_grid_count_cell(g0, n as int - 1, idx as int, e);
                    }
                }
                match e {
                    RoomState::Oni => { self.num_oni = self.num_oni - 1; },
                    RoomState::Fuku => { self.num_fuku = self.num_fuku - 1; },
                    RoomState::Vacant => {},
                }
                let mut i: usize = n - 1;
                while i >= 1
                    invariant
                        i <= n - 1,
                        self.n == n,
                        self.num_oni == old(self).num_oni - cell_count(
                            g0[n - 1][idx as int],
                            RoomState::Oni,
                        ),
                        self.num_fuku == old(self).num_fuku - cell_count(
                            g0[n - 1][idx as int],
                            RoomState::Fuku,
                        ),
                        self@.len() == n,
                        forall|p: int|
                            i < p < n ==> #[trigger] self@[p] == g0[p].update(
                                idx as int,
                                g0[p - 1][idx as int],
                            ),
                        forall|p: int| 0 <= p <= i ==> #[trigger] self@[p] == g0[p],
                    decreases i,
                {
                    let v = get_cell(&self.board, i - 1, idx);
                    set_cell(&mut self.board, i, idx, v);
                    i -= 1;
                }
                set_cell(&mut self.board, 0, idx, RoomState::Vacant);
                assert(self@ =~~= apply_op(g0, *operation));
            },
        }
        proof {
            lemma_apply_op_count(g0, *operation, n as int, RoomState::Oni);
            lemma_apply_op_count(g0, *operation, n as int, RoomState::Fuku);
            lemma_apply_op_square(g0, *operation, n as int);
        }
    }
}

} // verus!
