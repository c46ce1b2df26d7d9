//! The planner: for one blocking token, the cheapest safe slide sequence
//! that ejects it, with an optional compensating reverse slide sequence.

use vstd::prelude::*;
use crate::board::{
    RoomState, Direction, Operation, BoardState, fuku_in_row, fuku_in_col, locked,
    row_count, grid_count, square, shift_low, shift_high, col_of, with_col, apply_op, apply_ops,
    lemma_row_count_cell, lemma_grid_count_update, lemma_with_col_count, lemma_apply_op_square,
    lemma_apply_ops_concat, lemma_apply_ops_square, lemma_row_count_none, lemma_row_count_split,
    lemma_row_count_add, lemma_shift_low_count, lemma_shift_high_count,
    lemma_apply_ops_take_step, lemma_apply_ops_prefix_count,
};

verus! {

/// The opposite of a direction, used for the compensating slides.
pub open spec fn rev_dir(d: Direction) -> Direction {
    match d {
        Direction::Left => Direction::Right,
        Direction::Right => Direction::Left,
        Direction::Up => Direction::Down,
        Direction::Down => Direction::Up,
    }
}

/// How many slides toward `d` eject the token at `(y, x)` off the edge.
pub open spec fn dir_cost(n: int, y: int, x: int, d: Direction) -> int {
    match d {
        Direction::Left => x + 1,
        Direction::Right => n - x,
        Direction::Up => y + 1,
        Direction::Down => n - y,
    }
}

/// Sliding toward `d` is safe for the token at `(y, x)`: no protected
/// token sits between it and that edge, so none would be ejected.
pub open spec fn dir_safe(g: Seq<Seq<RoomState>>, n: int, y: int, x: int, d: Direction) -> bool {
    match d {
        Direction::Left => !fuku_in_row(g, y, 0, x),
        Direction::Right => !fuku_in_row(g, y, x + 1, n),
        Direction::Up => !fuku_in_col(g, x, 0, y),
        Direction::Down => !fuku_in_col(g, x, y + 1, n),
    }
}

/// The index of the line a slide toward `d` moves: the row for
/// Left/Right, the column for Up/Down.
pub open spec fn dir_line(y: int, x: int, d: Direction) -> int {
    match d {
        Direction::Left | Direction::Right => y,
        Direction::Up | Direction::Down => x,
    }
}

/// One step of the candidate scan: take the new candidate only when it is
/// usable and strictly cheaper than the best so far.
pub open spec fn pick(cur: Option<(Direction, int)>, ok: bool, d: Direction, c: int) -> Option<
    (Direction, int),
> {
    match cur {
        Option::None => if ok {
            Some((d, c))
        } else {
            None
        },
        Option::Some(best) => if ok && c < best.1 {
            Some((d, c))
        } else {
            cur
        },
    }
}

/// The direction and cost the planner chooses for the token at `(y, x)`:
/// the cheapest safe direction, ties broken in the fixed order Left,
/// Right, Up, Down.  None when no direction is safe.
pub open spec fn plan_choice(g: Seq<Seq<RoomState>>, n: int, y: int, x: int) -> Option<
    (Direction, int),
> {
    pick(
        pick(
            pick(
                pick(None, dir_safe(g, n, y, x, Direction::Left), Direction::Left, x + 1),
                dir_safe(g, n, y, x, Direction::Right),
                Direction::Right,
                n - x,
            ),
            dir_safe(g, n, y, x, Direction::Up),
            Direction::Up,
            y + 1,
        ),
        dir_safe(g, n, y, x, Direction::Down),
        Direction::Down,
        n - y,
    )
}

/// `k` copies of the same slide.
pub open spec fn rep_op(d: Direction, idx: usize, k: nat) -> Seq<Operation> {
    Seq::new(k, |i: int| Operation { dir: d, index: idx })
}

/// The move sequence the planner emits for the blocking token at
/// `(y, x)`: the cheapest safe slide repeated until the token falls off,
/// then, when the moved line still holds a protected token and the slid
/// board has a fully surrounded blocking token, the same number of
/// reverse slides.
pub open spec fn plan_moves(g: Seq<Seq<RoomState>>, n: int, y: int, x: int) -> Option<
    Seq<Operation>,
> {
    match plan_choice(g, n, y, x) {
        Option::None => None,
        Option::Some(dc) => {
            let d = dc.0;
            let c = dc.1;
            let idx = dir_line(y, x, d);
            let fwd = rep_op(d, idx as usize, c as nat);
            let line_clear = match d {
                Direction::Left | Direction::Right => !fuku_in_row(g, idx, 0, n),
                Direction::Up | Direction::Down => !fuku_in_col(g, idx, 0, n),
            };
            if line_clear {
                Some(fwd)
            } else if !locked(apply_ops(g, fwd), n) {
                Some(fwd)
            } else {
                Some(fwd + rep_op(rev_dir(d), idx as usize, c as nat))
            }
        },
    }
}

// ------------------------------------------------------------------
// Repeated slides of one line
// ------------------------------------------------------------------

/// A line after `k` slides toward index 0: every cell moves `k` places
/// down and the freed cells are vacant.
pub open spec fn shift_low_k(line: Seq<RoomState>, k: int) -> Seq<RoomState> {
    Seq::new(line.len(), |j: int| if j + k < line.len() {
        line[j + k]
    } else {
        RoomState::Vacant
    })
}

/// A line after `k` slides toward the far end: every cell moves `k`
/// places up and the freed cells are vacant.
pub open spec fn shift_high_k(line: Seq<RoomState>, k: int) -> Seq<RoomState> {
    Seq::new(line.len(), |j: int| if j - k >= 0 {
        line[j - k]
    } else {
        RoomState::Vacant
    })
}

/// The line a slide toward `d` produces after `k` steps.
pub open spec fn line_shift_k(line: Seq<RoomState>, d: Direction, k: int) -> Seq<RoomState> {
    match d {
        Direction::Left | Direction::Up => shift_low_k(line, k),
        Direction::Right | Direction::Down => shift_high_k(line, k),
    }
}

proof fn lemma_shift_low_k_step(line: Seq<RoomState>, k: int)
    requires
        line.len() >= 1,
        k >= 0,
    ensures
        shift_low(shift_low_k(line, k)) == shift_low_k(line, k + 1),
{
    assert(shift_low(shift_low_k(line, k)) =~= shift_low_k(line, k + 1));
}

proof fn lemma_shift_high_k_step(line: Seq<RoomState>, k: int)
    requires
        line.len() >= 1,
        k >= 0,
    ensures
        shift_high(shift_high_k(line, k)) == shift_high_k(line, k + 1),
{
    assert(shift_high(shift_high_k(line, k)) =~= shift_high_k(line, k + 1));
}

/// `k` repetitions of one row slide shift that row by `k` and touch
/// nothing else.
pub proof fn lemma_rep_row(g: Seq<Seq<RoomState>>, n: int, idx: usize, d: Direction, k: nat)
    requires
        square(g, n),
        idx < n,
        d == Direction::Left || d == Direction::Right,
    ensures
        apply_ops(g, rep_op(d, idx, k)) == g.update(
            idx as int,
            line_shift_k(g[idx as int], d, k as int),
        ),
    decreases k,
{
    let x = idx as int;
    if k == 0 {
        assert(rep_op(d, idx, 0) =~= Seq::<Operation>::empty());
        assert(line_shift_k(g[x], d, 0) =~= g[x]);
        assert(g.update(x, g[x]) =~= g);
    } else {
        let op = Operation { dir: d, index: idx };
        let g1 = apply_op(g, op);
        assert(rep_op(d, idx, k)[0] == op);
        assert(rep_op(d, idx, k).drop_first() =~= rep_op(d, idx, (k - 1) as nat));
        lemma_apply_op_square(g, op, n);
        lemma_rep_row(g1, n, idx, d, (k - 1) as nat);
        if d == Direction::Left {
            lemma_shift_low_k_step(g[x], 0);
            assert(g1[x] == shift_low_k(g[x], 1));
            assert(shift_low_k(shift_low_k(g[x], 1), k - 1) =~= shift_low_k(g[x], k as int));
        } else {
            lemma_shift_high_k_step(g[x], 0);
            assert(g1[x] == shift_high_k(g[x], 1));
            assert(shift_high_k(shift_high_k(g[x], 1), k - 1) =~= shift_high_k(g[x], k as int));
        }
        assert(g1.update(x, line_shift_k(g[x], d, k as int)) =~~= g.update(
            x,
            line_shift_k(g[x], d, k as int),
        ));
    }
}

/// `k` repetitions of one column slide shift that column by `k` and touch
/// nothing else.
pub proof fn lemma_rep_col(g: Seq<Seq<RoomState>>, n: int, idx: usize, d: Direction, k: nat)
    requires
        square(g, n),
        idx < n,
        d == Direction::Up || d == Direction::Down,
    ensures
        apply_ops(g, rep_op(d, idx, k)) == with_col(
            g,
            idx as int,
            line_shift_k(col_of(g, idx as int), d, k as int),
        ),
    decreases k,
{
    let x = idx as int;
    let col = col_of(g, x);
    if k == 0 {
        assert(rep_op(d, idx, 0) =~= Seq::<Operation>::empty());
        assert(line_shift_k(col, d, 0) =~= col);
        assert(with_col(g, x, col) =~~= g);
    } else {
        let op = Operation { dir: d, index: idx };
        let g1 = apply_op(g, op);
        assert(rep_op(d, idx, k)[0] == op);
        assert(rep_op(d, idx, k).drop_first() =~= rep_op(d, idx, (k - 1) as nat));
        lemma_apply_op_square(g, op, n);
        lemma_rep_col(g1, n, idx, d, (k - 1) as nat);
        let l1 = if d == Direction::Up {
            shift_low(col)
        } else {
            shift_high(col)
        };
        assert(g1 == with_col(g, x, l1));
        assert(col_of(g1, x) =~= l1) by {
            assert forall|i: int| 0 <= i < g.len() implies col_of(g1, x)[i] == l1[i] by {
                assert(g1[i] == g[i].update(x, l1[i]));
            }
        }
        if d == Direction::Up {
            lemma_shift_low_k_step(col, 0);
            assert(l1 =~= shift_low_k(col, 1));
            assert(shift_low_k(shift_low_k(col, 1), k - 1) =~= shift_low_k(col, k as int));
        } else {
            lemma_shift_high_k_step(col, 0);
            assert(l1 =~= shift_high_k(col, 1));
            assert(shift_high_k(shift_high_k(col, 1), k - 1) =~= shift_high_k(col, k as int));
        }
        assert(with_col(g1, x, line_shift_k(col, d, k as int)) =~~= with_col(
            g,
            x,
            line_shift_k(col, d, k as int),
        )) by {
            assert forall|i: int| 0 <= i < g.len() implies with_col(g1, x, line_shift_k(col, d, k as int))[i]
                =~= with_col(g, x, line_shift_k(col, d, k as int))[i] by {
                assert(g1[i] == g[i].update(x, l1[i]));
            }
        }
    }
}

// ------------------------------------------------------------------
// Token counts of shifted lines
// ------------------------------------------------------------------

/// After `c` slides toward index 0 the line's tokens are those of its
/// original cells from `c` on: the first `c` cells fell off.
proof fn lemma_shift_low_k_count(line: Seq<RoomState>, c: int, k: RoomState)
    requires
        0 <= c <= line.len(),
        k != RoomState::Vacant,
    ensures
        row_count(shift_low_k(line, c), k) == row_count(line.skip(c), k),
{
    let vac = Seq::new(c as nat, |i: int| RoomState::Vacant);
    assert(shift_low_k(line, c) =~= line.skip(c) + vac);
    lemma_row_count_add(line.skip(c), vac, k);
    lemma_row_count_none(vac, k);
}

/// After `c` slides toward the far end the line's tokens are those of its
/// first `len - c` original cells: the last `c` cells fell off.
proof fn lemma_shift_high_k_count(line: Seq<RoomState>, c: int, k: RoomState)
    requires
        0 <= c <= line.len(),
        k != RoomState::Vacant,
    ensures
        row_count(shift_high_k(line, c), k) == row_count(line.take(line.len() - c), k),
{
    let vac = Seq::new(c as nat, |i: int| RoomState::Vacant);
    assert(shift_high_k(line, c) =~= vac + line.take(line.len() - c));
    lemma_row_count_add(vac, line.take(line.len() - c), k);
    lemma_row_count_none(vac, k);
}

/// Slides toward the far end of a line whose last `c` cells are vacant
/// eject only vacant cells, so its token counts stay put.
proof fn lemma_shift_high_k_vacant(line: Seq<RoomState>, m: int, c: int, k: RoomState)
    requires
        0 <= m <= c <= line.len(),
        k != RoomState::Vacant,
        forall|j: int| line.len() - c <= j < line.len() ==> line[j] == RoomState::Vacant,
    ensures
        row_count(shift_high_k(line, m), k) == row_count(line, k),
    decreases m,
{
    if m == 0 {
        assert(shift_high_k(line, 0) =~= line);
    } else {
        lemma_shift_high_k_vacant(line, m - 1, c, k);
        let l1 = shift_high_k(line, m - 1);
        lemma_shift_high_k_step(line, m - 1);
        assert(l1.last() == line[line.len() - m]);
        lemma_shift_high_count(l1, k);
    }
}

/// Slides toward index 0 of a line whose first `c` cells are vacant eject
/// only vacant cells, so its token counts stay put.
proof fn lemma_shift_low_k_vacant(line: Seq<RoomState>, m: int, c: int, k: RoomState)
    requires
        0 <= m <= c <= line.len(),
        k != RoomState::Vacant,
        forall|j: int| 0 <= j < c ==> line[j] == RoomState::Vacant,
    ensures
        row_count(shift_low_k(line, m), k) == row_count(line, k),
    decreases m,
{
    if m == 0 {
        assert(shift_low_k(line, 0) =~= line);
    } else {
        lemma_shift_low_k_vacant(line, m - 1, c, k);
        let l1 = shift_low_k(line, m - 1);
        lemma_shift_low_k_step(line, m - 1);
        assert(l1[0] == line[m - 1]);
        lemma_shift_low_count(l1, k);
    }
}

// ------------------------------------------------------------------
// What the chosen plan does to the board
// ------------------------------------------------------------------

/// The choice the planner makes is a safe direction carrying its own
/// cost, and that cost is between 1 and `n`.
proof fn lemma_choice_props(g: Seq<Seq<RoomState>>, n: int, y: int, x: int)
    requires
        0 <= y < n,
        0 <= x < n,
        plan_choice(g, n, y, x) is Some,
    ensures
        dir_safe(g, n, y, x, plan_choice(g, n, y, x)->Some_0.0),
        plan_choice(g, n, y, x)->Some_0.1 == dir_cost(n, y, x, plan_choice(g, n, y, x)->Some_0.0),
        1 <= plan_choice(g, n, y, x)->Some_0.1 <= n,
{
}

/// The forward slides of the plan eject the targeted blocking token and
/// possibly further blocking tokens, but never a protected token.
proof fn lemma_forward_counts(g: Seq<Seq<RoomState>>, n: int, y: int, x: int, d: Direction)
    requires
        square(g, n),
        0 <= y < n,
        0 <= x < n,
        n <= usize::MAX,
        g[y][x] == RoomState::Oni,
        dir_safe(g, n, y, x, d),
    ensures
        ({
            let c = dir_cost(n, y, x, d);
            let gk = apply_ops(g, rep_op(d, dir_line(y, x, d) as usize, c as nat));
            &&& grid_count(gk, RoomState::Fuku) == grid_count(g, RoomState::Fuku)
            &&& grid_count(gk, RoomState::Oni) < grid_count(g, RoomState::Oni)
        }),
{
    let c = dir_cost(n, y, x, d);
    let idx = dir_line(y, x, d);
    let iu = idx as usize;
    assert(iu as int == idx);
    match d {
        Direction::Left => {
            let row = g[y];
            lemma_rep_row(g, n, iu, d, c as nat);
            lemma_grid_count_update(g, y, shift_low_k(row, c), RoomState::Fuku);
            lemma_grid_count_update(g, y, shift_low_k(row, c), RoomState::Oni);
            lemma_shift_low_k_count(row, c, RoomState::Fuku);
            lemma_shift_low_k_count(row, c, RoomState::Oni);
            lemma_row_count_split(row, c, RoomState::Fuku);
            lemma_row_count_split(row, c, RoomState::Oni);
            assert forall|j: int| 0 <= j < c implies row.take(c)[j] != RoomState::Fuku by {
                assert(row.take(c)[j] == g[y][j]);
            }
            lemma_row_count_none(row.take(c), RoomState::Fuku);
            assert(row.take(c)[x] == RoomState::Oni);
            lemma_row_count_cell(row.take(c), x, RoomState::Oni);
        },
        Direction::Right => {
            let row = g[y];
            lemma_rep_row(g, n, iu, d, c as nat);
            lemma_grid_count_update(g, y, shift_high_k(row, c), RoomState::Fuku);
            lemma_grid_count_update(g, y, shift_high_k(row, c), RoomState::Oni);
            lemma_shift_high_k_count(row, c, RoomState::Fuku);
            lemma_shift_high_k_count(row, c, RoomState::Oni);
            lemma_row_count_split(row, n - c, RoomState::Fuku);
            lemma_row_count_split(row, n - c, RoomState::Oni);
            assert forall|j: int| 0 <= j < row.skip(n - c).len() implies #[trigger] row.skip(
                n - c,
            )[j] != RoomState::Fuku by {
                assert(row.skip(n - c)[j] == g[y][j + x]);
            }
            lemma_row_count_none(row.skip(n - c), RoomState::Fuku);
            assert(row.skip(n - c)[0] == RoomState::Oni);
            lemma_row_count_cell(row.skip(n - c), 0, RoomState::Oni);
        },
        Direction::Up => {
            let col = col_of(g, x);
            lemma_rep_col(g, n, iu, d, c as nat);
            lemma_with_col_count(g, x, shift_low_k(col, c), RoomState::Fuku);
            lemma_with_col_count(g, x, shift_low_k(col, c), RoomState::Oni);
            lemma_shift_low_k_count(col, c, RoomState::Fuku);
            lemma_shift_low_k_count(col, c, RoomState::Oni);
            lemma_row_count_split(col, c, RoomState::Fuku);
            lemma_row_count_split(col, c, RoomState::Oni);
            assert forall|j: int| 0 <= j < c implies col.take(c)[j] != RoomState::Fuku by {
                assert(col.take(c)[j] == g[j][x]);
            }
            lemma_row_count_none(col.take(c), RoomState::Fuku);
            assert(col.take(c)[y] == RoomState::Oni);
            lemma_row_count_cell(col.take(c), y, RoomState::Oni);
        },
        Direction::Down => {
            let col = col_of(g, x);
            lemma_rep_col(g, n, iu, d, c as nat);
            lemma_with_col_count(g, x, shift_high_k(col, c), RoomState::Fuku);
            lemma_with_col_count(g, x, shift_high_k(col, c), RoomState::Oni);
            lemma_shift_high_k_count(col, c, RoomState::Fuku);
            lemma_shift_high_k_count(col, c, RoomState::Oni);
            lemma_row_count_split(col, n - c, RoomState::Fuku);
            lemma_row_count_split(col, n - c, RoomState::Oni);
            assert forall|j: int| 0 <= j < col.skip(n - c).len() implies #[trigger] col.skip(
                n - c,
            )[j] != RoomState::Fuku by {
                assert(col.skip(n - c)[j] == g[j + y][x]);
            }
            lemma_row_count_none(col.skip(n - c), RoomState::Fuku);
            assert(col.skip(n - c)[0] == RoomState::Oni);
            lemma_row_count_cell(col.skip(n - c), 0, RoomState::Oni);
        },
    }
}

/// The compensating reverse slides eject only vacant cells: they change
/// no token count.
proof fn lemma_reverse_counts(g: Seq<Seq<RoomState>>, n: int, y: int, x: int, d: Direction)
    requires
        square(g, n),
        0 <= y < n,
        0 <= x < n,
        n <= usize::MAX,
        dir_safe(g, n, y, x, d),
    ensures
        ({
            let c = dir_cost(n, y, x, d);
            let iu = dir_line(y, x, d) as usize;
            let gk = apply_ops(g, rep_op(d, iu, c as nat));
            let gr = apply_ops(gk, rep_op(rev_dir(d), iu, c as nat));
            &&& grid_count(gr, RoomState::Fuku) == grid_count(gk, RoomState::Fuku)
            &&& grid_count(gr, RoomState::Oni) == grid_count(gk, RoomState::Oni)
        }),
{
    let c = dir_cost(n, y, x, d);
    let idx = dir_line(y, x, d);
    let iu = idx as usize;
    assert(iu as int == idx);
    let gk = apply_ops(g, rep_op(d, iu, c as nat));
    match d {
        Direction::Left => {
            let row = g[y];
            lemma_rep_row(g, n, iu, d, c as nat);
            let l1 = shift_low_k(row, c);
            assert(gk[y] == l1);
            lemma_apply_ops_square(g, rep_op(d, iu, c as nat), n);
            lemma_rep_row(gk, n, iu, Direction::Right, c as nat);
            lemma_grid_count_update(gk, y, shift_high_k(l1, c), RoomState::Fuku);
            lemma_grid_count_update(gk, y, shift_high_k(l1, c), RoomState::Oni);
            lemma_shift_high_k_vacant(l1, c, c, RoomState::Fuku);
            lemma_shift_high_k_vacant(l1, c, c, RoomState::Oni);
        },
        Direction::Right => {
            let row = g[y];
            lemma_rep_row(g, n, iu, d, c as nat);
            let l1 = shift_high_k(row, c);
            assert(gk[y] == l1);
            lemma_apply_ops_square(g, rep_op(d, iu, c as nat), n);
            lemma_rep_row(gk, n, iu, Direction::Left, c as nat);
            lemma_grid_count_update(gk, y, shift_low_k(l1, c), RoomState::Fuku);
            lemma_grid_count_update(gk, y, shift_low_k(l1, c), RoomState::Oni);
            lemma_shift_low_k_vacant(l1, c, c, RoomState::Fuku);
            lemma_shift_low_k_vacant(l1, c, c, RoomState::Oni);
        },
        Direction::Up => {
            let col = col_of(g, x);
            lemma_rep_col(g, n, iu, d, c as nat);
            let l1 = shift_low_k(col, c);
            lemma_apply_ops_square(g, rep_op(d, iu, c as nat), n);
            assert(col_of(gk, x) =~= l1) by {
                assert forall|i: int| 0 <= i < n implies col_of(gk, x)[i] == l1[i] by {
                    assert(gk[i] == g[i].update(x, l1[i]));
                }
            }
            lemma_rep_col(gk, n, iu, Direction::Down, c as nat);
            lemma_with_col_count(gk, x, shift_high_k(l1, c), RoomState::Fuku);
            lemma_with_col_count(gk, x, shift_high_k(l1, c), RoomState::Oni);
            lemma_shift_high_k_vacant(l1, c, c, RoomState::Fuku);
            lemma_shift_high_k_vacant(l1, c, c, RoomState::Oni);
        },
        Direction::Down => {
            let col = col_of(g, x);
            lemma_rep_col(g, n, iu, d, c as nat);
            let l1 = shift_high_k(col, c);
            lemma_apply_ops_square(g, rep_op(d, iu, c as nat), n);
            assert(col_of(gk, x) =~= l1) by {
                assert forall|i: int| 0 <= i < n implies col_of(gk, x)[i] == l1[i] by {
                    assert(gk[i] == g[i].update(x, l1[i]));
                }
            }
            lemma_rep_col(gk, n, iu, Direction::Up, c as nat);
            lemma_with_col_count(gk, x, shift_low_k(l1, c), RoomState::Fuku);
            lemma_with_col_count(gk, x, shift_low_k(l1, c), RoomState::Oni);
            lemma_shift_low_k_vacant(l1, c, c, RoomState::Fuku);
            lemma_shift_low_k_vacant(l1, c, c, RoomState::Oni);
        },
    }
}

/// What the emitted plan does to the board: every move stays on the
/// board, no protected token is ever ejected, and at least one blocking
/// token — the targeted one — is.
pub proof fn lemma_plan_counts(g: Seq<Seq<RoomState>>, n: int, y: int, x: int)
    requires
        square(g, n),
        0 <= y < n,
        0 <= x < n,
        n <= usize::MAX,
        g[y][x] == RoomState::Oni,
        plan_moves(g, n, y, x) is Some,
    ensures
        ({
            let ops = plan_moves(g, n, y, x)->Some_0;
            &&& forall|t: int| 0 <= t < ops.len() ==> (#[trigger] ops[t]).index < n
            &&& square(apply_ops(g, ops), n)
            &&& grid_count(apply_ops(g, ops), RoomState::Fuku) == grid_count(g, RoomState::Fuku)
            &&& grid_count(apply_ops(g, ops), RoomState::Oni) < grid_count(g, RoomState::Oni)
        }),
{
    let ops = plan_moves(g, n, y, x)->Some_0;
    let d = plan_choice(g, n, y, x)->Some_0.0;
    let c = plan_choice(g, n, y, x)->Some_0.1;
    lemma_choice_props(g, n, y, x);
    let idx = dir_line(y, x, d);
    let iu = idx as usize;
    assert(iu as int == idx);
    let fwd = rep_op(d, iu, c as nat);
    let rev = rep_op(rev_dir(d), iu, c as nat);
    lemma_forward_counts(g, n, y, x, d);
    assert(forall|t: int| 0 <= t < fwd.len() ==> (#[trigger] fwd[t]).index < n);
    assert(forall|t: int| 0 <= t < rev.len() ==> (#[trigger] rev[t]).index < n);
    lemma_apply_ops_square(g, fwd, n);
    if ops == fwd {
        assert(forall|t: int| 0 <= t < ops.len() ==> (#[trigger] ops[t]).index < n);
    } else {
        assert(ops == fwd + rev);
        lemma_apply_ops_concat(g, fwd, rev);
        lemma_reverse_counts(g, n, y, x, d);
        let gk = apply_ops(g, fwd);
        lemma_apply_ops_square(gk, rev, n);
        assert(forall|t: int| 0 <= t < ops.len() ==> (#[trigger] ops[t]).index < n) by {
            assert(forall|t: int|
                0 <= t < ops.len() ==> ops[t] == (if t < fwd.len() {
                    fwd[t]
                } else {
                    rev[t - fwd.len()]
                }));
        }
    }
}

/// Safety of the plan: simulating any prefix of the emitted moves never
/// removes a protected token — after every single slide the protected
/// count still equals the starting one.
pub proof fn lemma_plan_prefix_safety(g: Seq<Seq<RoomState>>, n: int, y: int, x: int, t: int)
    requires
        square(g, n),
        0 <= y < n,
        0 <= x < n,
        n <= usize::MAX,
        g[y][x] == RoomState::Oni,
        plan_moves(g, n, y, x) is Some,
        0 <= t <= plan_moves(g, n, y, x)->Some_0.len(),
    ensures
        grid_count(apply_ops(g, plan_moves(g, n, y, x)->Some_0.take(t)), RoomState::Fuku)
            == grid_count(g, RoomState::Fuku),
{
    let ops = plan_moves(g, n, y, x)->Some_0;
    lemma_plan_counts(g, n, y, x);
    lemma_apply_ops_prefix_count(g, ops, n, RoomState::Fuku, t);
}

// ------------------------------------------------------------------
// Executable planner
// ------------------------------------------------------------------

/// The candidate held by the executable scan, as the spec-level option.
spec fn cand(dir: Option<Direction>, c: int) -> Option<(Direction, int)> {
    match dir {
        Option::None => None,
        Option::Some(d) => Some((d, c)),
    }
}

/// The opposite of a direction.
pub fn get_rev_dir(dir: Direction) -> (r: Direction)
    ensures
        r == rev_dir(dir),
{
    match dir {
        Direction::Left => Direction::Right,
        Direction::Right => Direction::Left,
        Direction::Up => Direction::Down,
        Direction::Down => Direction::Up,
    }
}

/// Emit the chosen plan: `min_op` slides toward `d`, then the
/// compensation decision of the planner.
#[verifier::loop_isolation(false)]
#[verifier::rlimit(60)]
fn emit_plan(board_state: &BoardState, y: usize, x: usize, d: Direction, min_op: usize, index: usize) -> (res: Vec<Operation>)
    requires
        board_state.wf(),
        y < board_state.n,
        x < board_state.n,
        plan_choice(board_state@, board_state.n as int, y as int, x as int) == Some(
            (d, min_op as int),
        ),
        index as int == dir_line(y as int, x as int, d),
    ensures
        res@ == plan_moves(board_state@, board_state.n as int, y as int, x as int)->Some_0,
{
    let n = board_state.n;
    let ghost g = board_state@;
    let ghost ni = n as int;

    let mut res_v: Vec<Operation> = Vec::new();
    let mut t: usize = 0;
    while t < min_op
        invariant
            t <= min_op,
            res_v@.len() == t,
            forall|i: int| 0 <= i < t ==> res_v@[i] == (Operation { dir: d, index }),
        decreases min_op - t,
    {
        res_v.push(Operation { dir: d, index });
        t += 1;
    }
    proof {
        assert(res_v@ =~= rep_op(d, index, min_op as nat));
    }

    let line_clear = match d {
        Direction::Left | Direction::Right => !board_state.exists_fuku_in_row(index, 0, n),
        Direction::Up | Direction::Down => !board_state.exists_fuku_in_col(x, 0, n),
    };
    if line_clear {
        return res_v;
    }

    let mut after_board = board_state.duplicate();
    let mut t2: usize = 0;
    while t2 < res_v.len()
        invariant
            t2 <= res_v.len(),
            after_board.n == n,
            after_board.wf(),
            after_board@ == apply_ops(g, res_v@.take(t2 as int)),
            res_v@ == rep_op(d, index, min_op as nat),
        decreases res_v.len() - t2,
    {
        proof {
            lemma_apply_ops_take_step(g, res_v@, t2 as int);
        }
        let op = res_v[t2];
        after_board.apply(&op);
        t2 += 1;
    }
    proof {
        assert(res_v@.take(res_v@.len() as int) =~= res_v@);
    }

    if !after_board.exists_oni_around_all_fuku() {
        return res_v;
    }

    let rd = get_rev_dir(d);
    let ghost fwd = res_v@;
    let mut t3: usize = 0;
    while t3 < min_op
        invariant
            t3 <= min_op,
            res_v@ == fwd + rep_op(rd, index, t3 as nat),
        decreases min_op - t3,
    {
        res_v.push(Operation { dir: rd, index });
        t3 += 1;
        proof {
            assert(res_v@ =~= fwd + rep_op(rd, index, t3 as nat));
        }
    }
    res_v
}

/// The move sequence that ejects the blocking token at `(y, x)`: the
/// cheapest safe slide repeated until the token falls off the edge,
/// followed - when the moved line still holds a protected token and the
/// slid board would leave some blocking token fully surrounded - by the
/// same number of reverse slides.  None when no direction is safe.
#[verifier::loop_isolation(false)]
pub fn fall_oni_and_reset(y: usize, x: usize, board_state: &BoardState) -> (res: Option<
    Vec<Operation>,
>)
    requires
        board_state.wf(),
        y < board_state.n,
        x < board_state.n,
        board_state@[y as int][x as int] == RoomState::Oni,
    ensures
        res is Some <==> plan_choice(
            board_state@,
            board_state.n as int,
            y as int,
            x as int,
        ) is Some,
        res is Some ==> res->Some_0@ == plan_moves(
            board_state@,
            board_state.n as int,
            y as int,
            x as int,
        )->Some_0,
{
    let n = board_state.n;
    let ghost g = board_state@;
    let ghost ni = n as int;
    let ghost yi = y as int;
    let ghost xi = x as int;

    let mut dir: Option<Direction> = None;
    let mut min_op: usize = 0;
    let mut index: usize = 0;

    if !board_state.exists_fuku_in_row(y, 0, x) {
        dir = Some(Direction::Left);
        min_op = x + 1;
        index = y;
    }
    let ghost p1 = pick(None, dir_safe(g, ni, yi, xi, Direction::Left), Direction::Left, xi + 1);
    proof {
        assert(cand(dir, min_op as int) == p1);
    }

    if !board_state.exists_fuku_in_row(y, x + 1, n) && (dir.is_none() || n - x < min_op) {
        dir = Some(Direction::Right);
        min_op = n - x;
        index = y;
    }
    let ghost p2 = pick(p1, dir_safe(g, ni, yi, xi, Direction::Right), Direction::Right, ni - xi);
    proof {
        assert(cand(dir, min_op as int) == p2);
    }

    if !board_state.exists_fuku_in_col(x, 0, y) && (dir.is_none() || y + 1 < min_op) {
        dir = Some(Direction::Up);
        min_op = y + 1;
        index = x;
    }
    let ghost p3 = pick(p2, dir_safe(g, ni, yi, xi, Direction::Up), Direction::Up, yi + 1);
    proof {
        assert(cand(dir, min_op as int) == p3);
    }

    if !board_state.exists_fuku_in_col(x, y + 1, n) && (dir.is_none() || n - y < min_op) {
        dir = Some(Direction::Down);
        min_op = n - y;
        index = x;
    }
    proof {
        assert(cand(dir, min_op as int) == plan_choice(g, ni, yi, xi));
        assert(dir is Some ==> index as int == dir_line(yi, xi, dir->0));
    }

    match dir {
        Option::None => None,
        Option::Some(d) => Some(emit_plan(board_state, y, x, d, min_op, index)),
    }
}

} // verus!
