//! The driver: repeatedly locate the first blocking token in row-major
//! order, ask the planner for its move sequence, and apply it, until no
//! blocking token remains.

use vstd::prelude::*;
use crate::board::{
    RoomState, Operation, BoardState, grid_count, square, apply_ops, lemma_grid_count_none,
    lemma_grid_count_nonneg, lemma_apply_ops_take_step, lemma_apply_ops_concat, get_cell,
};
use crate::planner::{plan_moves, lemma_plan_counts, fall_oni_and_reset};

verus! {

/// The first cell at or after `j` in the line that holds a blocking
/// token.
pub open spec fn first_oni_in_row(row: Seq<RoomState>, j: int) -> Option<int>
    decreases row.len() - j,
{
    if j < 0 || j >= row.len() {
        None
    } else if row[j] == RoomState::Oni {
        Some(j)
    } else {
        first_oni_in_row(row, j + 1)
    }
}

/// The first blocking token at or after row `i`, scanning row-major.
pub open spec fn first_oni_from(g: Seq<Seq<RoomState>>, i: int) -> Option<(int, int)>
    decreases g.len() - i,
{
    if i < 0 || i >= g.len() {
        None
    } else {
        match first_oni_in_row(g[i], 0) {
            Option::Some(j) => Some((i, j)),
            Option::None => first_oni_from(g, i + 1),
        }
    }
}

/// The first blocking token of the board in row-major scan order.
pub open spec fn first_oni(g: Seq<Seq<RoomState>>) -> Option<(int, int)> {
    first_oni_from(g, 0)
}

proof fn lemma_first_oni_in_row_props(row: Seq<RoomState>, j: int)
    requires
        0 <= j <= row.len(),
    ensures
        match first_oni_in_row(row, j) {
            Option::Some(r) => j <= r < row.len() && row[r] == RoomState::Oni && forall|q: int|
                j <= q < r ==> row[q] != RoomState::Oni,
            Option::None => forall|q: int| j <= q < row.len() ==> row[q] != RoomState::Oni,
        },
    decreases row.len() - j,
{
    if j < row.len() && row[j] != RoomState::Oni {
        lemma_first_oni_in_row_props(row, j + 1);
    }
}

proof fn lemma_first_oni_from_props(g: Seq<Seq<RoomState>>, i: int)
    requires
        0 <= i <= g.len(),
    ensures
        match first_oni_from(g, i) {
            Option::Some(yx) => i <= yx.0 < g.len() && 0 <= yx.1 < g[yx.0].len()
                && g[yx.0][yx.1] == RoomState::Oni,
            Option::None => forall|p: int, q: int|
                i <= p < g.len() && 0 <= q < g[p].len() ==> #[trigger] g[p][q] != RoomState::Oni,
        },
    decreases g.len() - i,
{
    if i < g.len() {
        lemma_first_oni_in_row_props(g[i], 0);
        if first_oni_in_row(g[i], 0) is None {
            lemma_first_oni_from_props(g, i + 1);
        }
    }
}

/// The position where the executable scan stops is the spec-level first
/// blocking token.
proof fn lemma_first_oni_unique(g: Seq<Seq<RoomState>>, y: int, x: int)
    requires
        0 <= y < g.len(),
        0 <= x < g[y].len(),
        g[y][x] == RoomState::Oni,
        forall|p: int, q: int|
            0 <= p < y && 0 <= q < g[p].len() ==> #[trigger] g[p][q] != RoomState::Oni,
        forall|q: int| 0 <= q < x ==> g[y][q] != RoomState::Oni,
    ensures
        first_oni(g) == Some((y, x)),
{
    lemma_first_in_row_unique(g[y], x);
    lemma_first_oni_from_unique(g, y, x, 0);
}

proof fn lemma_first_in_row_unique(row: Seq<RoomState>, x: int)
    requires
        0 <= x < row.len(),
        row[x] == RoomState::Oni,
        forall|q: int| 0 <= q < x ==> row[q] != RoomState::Oni,
    ensures
        first_oni_in_row(row, 0) == Some(x),
{
    lemma_first_in_row_unique_from(row, x, 0);
}

proof fn lemma_first_in_row_unique_from(row: Seq<RoomState>, x: int, j: int)
    requires
        0 <= j <= x < row.len(),
        row[x] == RoomState::Oni,
        forall|q: int| j <= q < x ==> row[q] != RoomState::Oni,
    ensures
        first_oni_in_row(row, j) == Some(x),
    decreases x - j,
{
    if j < x {
        lemma_first_in_row_unique_from(row, x, j + 1);
    }
}

proof fn lemma_first_oni_from_unique(g: Seq<Seq<RoomState>>, y: int, x: int, i: int)
    requires
        0 <= i <= y < g.len(),
        first_oni_in_row(g[y], 0) == Some(x),
        forall|p: int, q: int|
            i <= p < y && 0 <= q < g[p].len() ==> #[trigger] g[p][q] != RoomState::Oni,
    ensures
        first_oni_from(g, i) == Some((y, x)),
    decreases y - i,
{
    if i < y {
        lemma_first_oni_in_row_props(g[i], 0);
        lemma_first_oni_from_unique(g, y, x, i + 1);
    }
}

/// When an option of moves is present, put `pre` in front of it.
pub open spec fn prepend_plan(pre: Seq<Operation>, rest: Option<Seq<Operation>>) -> Option<
    Seq<Operation>,
> {
    match rest {
        Option::None => None,
        Option::Some(s) => Some(pre + s),
    }
}

/// The whole move sequence the solver emits for a board: plan for the
/// first blocking token in scan order, slide the board accordingly, and
/// continue until no blocking token remains.  None when the solver would
/// get stuck on a token with no safe direction.
pub open spec fn solve_spec(g: Seq<Seq<RoomState>>, n: int) -> Option<Seq<Operation>>
    decreases grid_count(g, RoomState::Oni),
    when square(g, n) && 0 <= n <= usize::MAX via lemma_solve_spec_dec
{
    if grid_count(g, RoomState::Oni) <= 0 {
        Some(Seq::empty())
    } else {
        match first_oni(g) {
            Option::None => None,
            Option::Some(yx) => match plan_moves(g, n, yx.0, yx.1) {
                Option::None => None,
                Option::Some(ops) => prepend_plan(ops, solve_spec(apply_ops(g, ops), n)),
            },
        }
    }
}

#[via_fn]
proof fn lemma_solve_spec_dec(g: Seq<Seq<RoomState>>, n: int) {
    lemma_grid_count_nonneg(g, RoomState::Oni);
    if grid_count(g, RoomState::Oni) > 0 {
        lemma_first_oni_from_props(g, 0);
        match first_oni(g) {
            Option::None => {},
            Option::Some(yx) => {
                match plan_moves(g, n, yx.0, yx.1) {
                    Option::None => {},
                    Option::Some(ops) => {
                        lemma_plan_counts(g, n, yx.0, yx.1);
                        lemma_grid_count_nonneg(apply_ops(g, ops), RoomState::Oni);
                    },
                }
            },
        }
    }
}

/// The position of the first blocking token in row-major scan order.
#[verifier::loop_isolation(false)]
pub fn find_oni(board_state: &BoardState) -> (r: (usize, usize))
    requires
        board_state.wf(),
        board_state.num_oni > 0,
    ensures
        first_oni(board_state@) == Some((r.0 as int, r.1 as int)),
        r.0 < board_state.n,
        r.1 < board_state.n,
        board_state@[r.0 as int][r.1 as int] == RoomState::Oni,
{
    let n = board_state.n;
    let mut i: usize = 0;
    while i < n
        invariant
            i <= n,
            forall|p: int, q: int|
                0 <= p < i && 0 <= q < board_state@[p].len() ==> #[trigger] board_state@[p][q]
                    != RoomState::Oni,
        decreases n - i,
    {
        let mut j: usize = 0;
        while j < n
            invariant
                j <= n,
                forall|q: int|
                    0 <= q < j ==> #[trigger] board_state@[i as int][q] != RoomState::Oni,
            decreases n - j,
        {
            if get_cell(&board_state.board, i, j) == RoomState::Oni {
                proof {
                    lemma_first_oni_unique(board_state@, i as int, j as int);
                }
                return (i, j);
            }
            j += 1;
        }
        i += 1;
    }
    proof {
        lemma_grid_count_none(board_state@, RoomState::Oni);
        assert(false);
    }
    (0, 0)
}

/// Solve the board: repeatedly plan for the first blocking token in scan
/// order and apply the plan, until no blocking token remains.  The moves
/// come back in emission order; None when some blocking token is left
/// with no safe direction, which the spec-level run reaches in the same
/// way.
#[verifier::loop_isolation(false)]
#[verifier::rlimit(60)]
pub fn solve(board_state: &mut BoardState) -> (res: Option<Vec<Operation>>)
    requires
        old(board_state).wf(),
    ensures
        final(board_state).wf(),
        final(board_state).n == old(board_state).n,
        res is Some <==> solve_spec(old(board_state)@, old(board_state).n as int) is Some,
        res is Some ==> res->Some_0@ == solve_spec(
            old(board_state)@,
            old(board_state).n as int,
        )->Some_0,
        res is Some ==> final(board_state)@ == apply_ops(old(board_state)@, res->Some_0@),
        res is Some ==> final(board_state).num_oni == 0,
{
    let ghost g0 = old(board_state)@;
    let n = board_state.n;
    let ghost ni = n as int;
    let mut ans: Vec<Operation> = Vec::new();
    while board_state.num_oni > 0
        invariant
            board_state.wf(),
            board_state.n == n,
            board_state@ == apply_ops(g0, ans@),
            solve_spec(g0, ni) == prepend_plan(ans@, solve_spec(board_state@, ni)),
        decreases board_state.num_oni,
    {
        let yx = find_oni(board_state);
        let y = yx.0;
        let x = yx.1;
        let ops_opt = fall_oni_and_reset(y, x, board_state);
        match ops_opt {
            Option::None => {
                proof {
                    assert(solve_spec(board_state@, ni) is None);
                }
                return None;
            },
            Option::Some(ops) => {
                let ghost entry = board_state@;
                let ghost ans0 = ans@;
                proof {
                    lemma_plan_counts(entry, ni, y as int, x as int);
                    assert(solve_spec(entry, ni) == prepend_plan(
                        ops@,
                        solve_spec(apply_ops(entry, ops@), ni),
                    ));
                }
                let mut t: usize = 0;
                while t < ops.len()
                    invariant
                        t <= ops.len(),
                        board_state.wf(),
                        board_state.n == n,
                        board_state@ == apply_ops(entry, ops@.take(t as int)),
                        ans@ == ans0 + ops@.take(t as int),
                    decreases ops.len() - t,
                {
                    proof {
                        lemma_apply_ops_take_step(entry, ops@, t as int);
                        assert(ans0 + ops@.take(t as int + 1) =~= (ans0 + ops@.take(
                            t as int,
                        )).push(ops@[t as int]));
                    }
                    let op = ops[t];
                    board_state.apply(&op);
                    ans.push(op);
                    t += 1;
                }
                proof {
                    assert(ops@.take(ops@.len() as int) =~= ops@);
                    lemma_apply_ops_concat(g0, ans0, ops@);
                    assert(ans@ =~= ans0 + ops@);
                    let r = solve_spec(board_state@, ni);
                    assert(prepend_plan(ans0, prepend_plan(ops@, r)) == prepend_plan(
                        ans0 + ops@,
                        r,
                    )) by {
                        match r {
                            Option::None => {},
                            Option::Some(rest) => {
                                assert(ans0 + (ops@ + rest) =~= (ans0 + ops@) + rest);
                            },
                        }
                    }
                }
            },
        }
    }
    proof {
        assert(solve_spec(board_state@, ni) == Some(Seq::<Operation>::empty()));
        assert(ans@ + Seq::<Operation>::empty() =~= ans@);
    }
    Some(ans)
}

} // verus!
