//! Reading a board from its text form: whitespace-separated runs of the
//! characters `x` (blocking), `o` (protected) and `.` (empty), one run
//! per row.

use vstd::prelude::*;
use crate::board::{
    RoomState, BoardState, grid_of, grid_count, square, cell_count, lemma_grid_count_none,
    lemma_grid_count_upper, lemma_grid_count_update, lemma_row_count_update, set_cell,
};

verus! {

/// A whitespace separator in the board text.
pub open spec fn is_space_char(c: char) -> bool {
    c == ' ' || c == '\n' || c == '\t' || c == '\r'
}

/// A character that denotes a cell.
pub open spec fn valid_cell_char(c: char) -> bool {
    c == 'x' || c == 'o' || c == '.'
}

/// The cell a character stands for.
pub open spec fn cell_of_char(c: char) -> RoomState {
    if c == 'x' {
        RoomState::Oni
    } else if c == 'o' {
        RoomState::Fuku
    } else {
        RoomState::Vacant
    }
}

/// The length of the leading run of non-whitespace characters.
pub open spec fn token_len(s: Seq<char>) -> nat
    decreases s.len(),
{
    if s.len() == 0 || is_space_char(s[0]) {
        0
    } else {
        1 + token_len(s.drop_first())
    }
}

proof fn lemma_token_len_le(s: Seq<char>)
    ensures
        token_len(s) <= s.len(),
    decreases s.len(),
{
    if s.len() > 0 && !is_space_char(s[0]) {
        lemma_token_len_le(s.drop_first());
    }
}

/// The maximal whitespace-free runs of the text, in order.
pub open spec fn rows_of(s: Seq<char>) -> Seq<Seq<char>>
    decreases s.len(),
    when true via lemma_rows_of_dec
{
    if s.len() == 0 {
        Seq::empty()
    } else if is_space_char(s[0]) {
        rows_of(s.drop_first())
    } else {
        seq![s.take(token_len(s) as int)] + rows_of(s.skip(token_len(s) as int))
    }
}

#[via_fn]
proof fn lemma_rows_of_dec(s: Seq<char>) {
    lemma_token_len_le(s);
}

/// The text is a well-formed board of dimension `n`: exactly `n` runs,
/// each of exactly `n` cell characters.
pub open spec fn valid_board_text(n: int, s: Seq<char>) -> bool {
    &&& rows_of(s).len() == n
    &&& forall|i: int| 0 <= i < n ==> (#[trigger] rows_of(s)[i]).len() == n
    &&& forall|i: int, j: int|
        0 <= i < n && 0 <= j < n ==> valid_cell_char(#[trigger] rows_of(s)[i][j])
}

/// The grid a well-formed text denotes, character by character.
pub open spec fn grid_of_text(s: Seq<char>) -> Seq<Seq<RoomState>> {
    rows_of(s).map(|i: int, row: Seq<char>| row.map(|j: int, c: char| cell_of_char(c)))
}

/// Skipping a whitespace character does not change the runs.
proof fn lemma_rows_step_space(s: Seq<char>, p: int)
    requires
        0 <= p < s.len(),
        is_space_char(s[p]),
    ensures
        rows_of(s.skip(p)) == rows_of(s.skip(p + 1)),
{
    assert(s.skip(p).drop_first() =~= s.skip(p + 1));
}

/// At the head of a run, the runs are that token followed by the runs of
/// the rest.
proof fn lemma_rows_step_token(s: Seq<char>, p: int, e: int)
    requires
        0 <= p < s.len(),
        !is_space_char(s[p]),
        e == token_len(s.skip(p)),
    ensures
        rows_of(s.skip(p)) == seq![s.skip(p).take(e)] + rows_of(s.skip(p + e)),
        1 <= e <= s.len() - p,
{
    let u = s.skip(p);
    lemma_token_len_le(u);
    assert(u.skip(e) =~= s.skip(p + e));
}

/// The token length is exactly the distance to the next whitespace.
proof fn lemma_token_len_at(u: Seq<char>, e: int)
    requires
        0 <= e <= u.len(),
        forall|q: int| 0 <= q < e ==> !is_space_char(#[trigger] u[q]),
        e == u.len() || is_space_char(u[e]),
    ensures
        token_len(u) == e,
    decreases e,
{
    if e > 0 {
        assert(!is_space_char(u[0]));
        assert forall|q: int| 0 <= q < e - 1 implies !is_space_char(#[trigger] u.drop_first()[q]) by {
            assert(u.drop_first()[q] == u[q + 1]);
        }
        if e - 1 < u.drop_first().len() {
            assert(u.drop_first()[e - 1] == u[e]);
        }
        lemma_token_len_at(u.drop_first(), e - 1);
    }
}

/// A run covers at least its whitespace-free prefix.
proof fn lemma_token_len_ge(u: Seq<char>, m: int)
    requires
        0 <= m <= u.len(),
        forall|q: int| 0 <= q < m ==> !is_space_char(#[trigger] u[q]),
    ensures
        token_len(u) >= m,
    decreases m,
{
    if m > 0 {
        assert forall|q: int| 0 <= q < m - 1 implies !is_space_char(#[trigger] u.drop_first()[q]) by {
            assert(u.drop_first()[q] == u[q + 1]);
        }
        lemma_token_len_ge(u.drop_first(), m - 1);
    }
}

/// A completed run: the characters from `pos - col` to `pos` form one
/// whole row of the text, and the scan position moves past it.
proof fn lemma_row_done(s: Seq<char>, pos: int, col: int, row_idx: int)
    requires
        0 <= pos - col,
        pos <= s.len(),
        1 <= col,
        forall|q: int| pos - col <= q < pos ==> !is_space_char(#[trigger] s[q]),
        pos == s.len() || is_space_char(s[pos]),
        rows_of(s.skip(pos - col)) == rows_of(s).skip(row_idx),
        0 <= row_idx <= rows_of(s).len(),
    ensures
        row_idx < rows_of(s).len(),
        rows_of(s)[row_idx].len() == col,
        forall|j: int| 0 <= j < col ==> #[trigger] rows_of(s)[row_idx][j] == s[pos - col + j],
        rows_of(s).skip(row_idx + 1) == rows_of(s.skip(pos)),
{
    let tstart = pos - col;
    let u = s.skip(tstart);
    assert forall|q: int| 0 <= q < col implies !is_space_char(#[trigger] u[q]) by {
        assert(u[q] == s[tstart + q]);
    }
    if pos < s.len() {
        assert(u[col] == s[pos]);
    }
    assert(u.len() == s.len() - tstart);
    lemma_token_len_at(u, col);
    lemma_rows_step_token(s, tstart, col);
    assert(rows_of(s).skip(row_idx).len() >= 1);
    assert(row_idx < rows_of(s).len());
    assert(rows_of(s).skip(row_idx)[0] == rows_of(s)[row_idx]);
    assert(rows_of(s)[row_idx] == u.take(col));
    assert forall|j: int| 0 <= j < col implies #[trigger] rows_of(s)[row_idx][j] == s[tstart
        + j] by {
        assert(u.take(col)[j] == u[j]);
    }
    assert((seq![u.take(col)] + rows_of(s.skip(tstart + col))).drop_first() =~= rows_of(
        s.skip(pos),
    ));
    assert(rows_of(s).skip(row_idx).drop_first() =~= rows_of(s).skip(row_idx + 1));
}

/// A run that still goes on at `pos`: the row under scan is at least one
/// character longer than what was read so far, and its next character is
/// the one at `pos`.
proof fn lemma_row_extends(s: Seq<char>, pos: int, col: int, row_idx: int)
    requires
        0 <= col <= pos,
        pos < s.len(),
        forall|q: int| pos - col <= q < pos ==> !is_space_char(#[trigger] s[q]),
        !is_space_char(s[pos]),
        rows_of(s.skip(pos - col)) == rows_of(s).skip(row_idx),
        0 <= row_idx <= rows_of(s).len(),
    ensures
        row_idx < rows_of(s).len(),
        rows_of(s)[row_idx].len() >= col + 1,
        rows_of(s)[row_idx][col] == s[pos],
{
    let tstart = pos - col;
    let u = s.skip(tstart);
    assert(u.len() == s.len() - tstart);
    assert forall|q: int| 0 <= q < col + 1 implies !is_space_char(#[trigger] u[q]) by {
        assert(u[q] == s[tstart + q]);
    }
    lemma_token_len_ge(u, col + 1);
    let e = token_len(u) as int;
    lemma_rows_step_token(s, tstart, e);
    assert(rows_of(s).skip(row_idx).len() >= 1);
    assert(row_idx < rows_of(s).len());
    assert(rows_of(s).skip(row_idx)[0] == rows_of(s)[row_idx]);
    assert(rows_of(s)[row_idx] == u.take(e));
    assert(u.take(e)[col] == u[col]);
    assert(u[col] == s[pos]);
}

/// An `n` by `n` grid of vacant cells.
#[verifier::loop_isolation(false)]
fn empty_rows(n: usize) -> (rows: Vec<Vec<RoomState>>)
    ensures
        square(grid_of(rows@), n as int),
        forall|i: int, j: int|
            0 <= i < n && 0 <= j < n ==> #[trigger] grid_of(rows@)[i][j] == RoomState::Vacant,
{
    let mut rows: Vec<Vec<RoomState>> = Vec::new();
    let mut i: usize = 0;
    while i < n
        invariant
            i <= n,
            rows@.len() == i,
            forall|p: int| 0 <= p < i ==> (#[trigger] rows@[p])@.len() == n,
            forall|p: int, q: int|
                0 <= p < i && 0 <= q < n ==> #[trigger] rows@[p]@[q] == RoomState::Vacant,
        decreases n - i,
    {
        let mut row: Vec<RoomState> = Vec::new();
        let mut j: usize = 0;
        while j < n
            invariant
                j <= n,
                row@.len() == j,
                forall|q: int| 0 <= q < j ==> #[trigger] row@[q] == RoomState::Vacant,
            decreases n - j,
        {
            row.push(RoomState::Vacant);
            j += 1;
        }
        rows.push(row);
        i += 1;
    }
    rows
}

/// Put a token into a vacant cell and keep the running counts true to
/// the grid.
fn put_cell(
    rows: &mut Vec<Vec<RoomState>>,
    num_oni: &mut usize,
    num_fuku: &mut usize,
    i: usize,
    j: usize,
    v: RoomState,
) -> (r: ())
    requires
        square(grid_of(old(rows)@), old(rows)@.len() as int),
        (old(rows)@.len() as int) * (old(rows)@.len() as int) <= usize::MAX,
        i < old(rows)@.len(),
        j < old(rows)@.len(),
        grid_of(old(rows)@)[i as int][j as int] == RoomState::Vacant,
        *old(num_oni) == grid_count(grid_of(old(rows)@), RoomState::Oni),
        *old(num_fuku) == grid_count(grid_of(old(rows)@), RoomState::Fuku),
    ensures
        grid_of(final(rows)@) == grid_of(old(rows)@).update(
            i as int,
            grid_of(old(rows)@)[i as int].update(j as int, v),
        ),
        *final(num_oni) == grid_count(grid_of(final(rows)@), RoomState::Oni),
        *final(num_fuku) == grid_count(grid_of(final(rows)@), RoomState::Fuku),
{
    let ghost g0 = grid_of(rows@);
    let ghost n = rows@.len() as int;
    set_cell(rows, i, j, v);
    proof {
        let g1 = grid_of(rows@);
        lemma_grid_count_update(g0, i as int, g0[i as int].update(j as int, v), RoomState::Oni);
        lemma_grid_count_update(g0, i as int, g0[i as int].update(j as int, v), RoomState::Fuku);
        lemma_row_count_update(g0[i as int], j as int, v, RoomState::Oni);
        lemma_row_count_update(g0[i as int], j as int, v, RoomState::Fuku);
        assert(forall|p: int| 0 <= p < g1.len() ==> (#[trigger] g1[p]).len() <= n);
        lemma_grid_count_upper(g1, n, RoomState::Oni);
        lemma_grid_count_upper(g1, n, RoomState::Fuku);
    }
    match v {
        RoomState::Oni => {
            *num_oni = *num_oni + 1;
        },
        RoomState::Fuku => {
            *num_fuku = *num_fuku + 1;
        },
        RoomState::Vacant => {},
    }
}

/// Build a board from its text form: `board_size` whitespace-separated
/// runs of exactly `board_size` cell characters each.  Any other shape,
/// and any character besides `x`, `o`, `.` and whitespace, is rejected.
#[verifier::loop_isolation(false)]
#[verifier::rlimit(100)]
pub fn generate_board_from_string(board_size: usize, board_str: &str) -> (res: Option<BoardState>)
    requires
        (board_size as int) * (board_size as int) <= usize::MAX,
    ensures
        res is Some <==> valid_board_text(board_size as int, board_str@),
        res is Some ==> res->Some_0.wf(),
        res is Some ==> res->Some_0.n == board_size,
        res is Some ==> res->Some_0@ == grid_of_text(board_str@),
{
    let n = board_size;
    let ghost s = board_str@;
    let ghost ni = n as int;
    let len = board_str.unicode_len();

    let mut rows_v = empty_rows(n);
    let mut num_oni: usize = 0;
    let mut num_fuku: usize = 0;
    let mut pos: usize = 0;
    let mut col: usize = 0;
    let mut row_idx: usize = 0;

    proof {
        assert(s.skip(0) =~= s);
        assert(rows_of(s).skip(0) =~= rows_of(s));
        lemma_grid_count_none(grid_of(rows_v@), RoomState::Oni);
        lemma_grid_count_none(grid_of(rows_v@), RoomState::Fuku);
    }

    while pos < len
        invariant
            pos <= len,
            len == s.len(),
            col <= pos,
            col <= n,
            row_idx <= n,
            col > 0 ==> row_idx < n,
            row_idx <= rows_of(s).len(),
            rows_of(s.skip(pos - col)) == rows_of(s).skip(row_idx as int),
            forall|q: int|
                pos - col <= q < pos ==> !is_space_char(#[trigger] s[q]) && valid_cell_char(s[q]),
            forall|i: int| 0 <= i < row_idx ==> (#[trigger] rows_of(s)[i]).len() == ni,
            forall|i: int, j: int|
                0 <= i < row_idx && 0 <= j < ni ==> valid_cell_char(#[trigger] rows_of(s)[i][j]),
            forall|i: int, j: int|
                0 <= i < row_idx && 0 <= j < ni ==> #[trigger] grid_of(rows_v@)[i][j]
                    == cell_of_char(rows_of(s)[i][j]),
            forall|j: int|
                0 <= j < col ==> #[trigger] grid_of(rows_v@)[row_idx as int][j] == cell_of_char(
                    s[pos - col + j],
                ),
            forall|i: int, j: int|
                row_idx <= i < ni && 0 <= j < ni && (i > row_idx || j >= col)
                    ==> #[trigger] grid_of(rows_v@)[i][j] == RoomState::Vacant,
            square(grid_of(rows_v@), ni),
            num_oni == grid_count(grid_of(rows_v@), RoomState::Oni),
            num_fuku == grid_count(grid_of(rows_v@), RoomState::Fuku),
        decreases len - pos,
    {
        let c = board_str.get_char(pos);
        if c == ' ' || c == '\n' || c == '\t' || c == '\r' {
            if col > 0 {
                proof {
                    lemma_row_done(s, pos as int, col as int, row_idx as int);
                }
                if col < n {
                    proof {
                        assert(!valid_board_text(ni, s)) by {
                            if valid_board_text(ni, s) {
                                assert(rows_of(s)[row_idx as int].len() == ni);
                            }
                        }
                    }
                    return None;
                }
                row_idx += 1;
                col = 0;
            }
            proof {
                lemma_rows_step_space(s, pos as int);
            }
            pos += 1;
        } else {
            if col == 0 && row_idx == n {
                proof {
                    lemma_row_extends(s, pos as int, 0, row_idx as int);
                    assert(!valid_board_text(ni, s));
                }
                return None;
            }
            if col == n {
                proof {
                    lemma_row_extends(s, pos as int, col as int, row_idx as int);
                    assert(!valid_board_text(ni, s)) by {
                        if valid_board_text(ni, s) {
                            assert(rows_of(s)[row_idx as int].len() == ni);
                        }
                    }
                }
                return None;
            }
            let v: RoomState;
            if c == 'x' {
                v = RoomState::Oni;
            } else if c == 'o' {
                v = RoomState::Fuku;
            } else if c == '.' {
                v = RoomState::Vacant;
            } else {
                proof {
                    lemma_row_extends(s, pos as int, col as int, row_idx as int);
                    assert(!valid_board_text(ni, s)) by {
                        if valid_board_text(ni, s) {
                            assert(valid_cell_char(rows_of(s)[row_idx as int][col as int]));
                        }
                    }
                }
                return None;
            }
            put_cell(&mut rows_v, &mut num_oni, &mut num_fuku, row_idx, col, v);
            col += 1;
            pos += 1;
        }
    }
    if col > 0 {
        proof {
            lemma_row_done(s, pos as int, col as int, row_idx as int);
        }
        if col < n {
            proof {
                assert(!valid_board_text(ni, s)) by {
                    if valid_board_text(ni, s) {
                        assert(rows_of(s)[row_idx as int].len() == ni);
                    }
                }
            }
            return None;
        }
        row_idx += 1;
        col = 0;
    }
    proof {
        assert(s.skip(len as int) =~= Seq::<char>::empty());
        assert(rows_of(s).skip(row_idx as int).len() == 0);
        assert(rows_of(s).len() == row_idx as int);
    }
    if row_idx != n {
        return None;
    }
    proof {
        assert(valid_board_text(ni, s));
        assert(grid_of(rows_v@) =~~= grid_of_text(s));
    }
    Some(BoardState { n, board: rows_v, num_oni, num_fuku })
}

} // verus!
