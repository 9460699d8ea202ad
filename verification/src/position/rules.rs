//! The effect of moves on the pieces of a board, stated over the stacks' piece sequences,
//! and the fact that undoing a stack movement restores the board.
use vstd::prelude::*;

use super::utils::{Color, Piece, Role, Stack};

verus! {

/// A board as the pieces of each square, bottom first, indexed by square.
pub type BoardPieces = Seq<Seq<Piece>>;

/// Pushing `pieces` one by one, bottom first, onto a stack: each push flattens the piece below.
pub open spec fn push_all(stack: Seq<Piece>, pieces: Seq<Piece>) -> Seq<Piece>
    decreases pieces.len(),
{
    if pieces.len() == 0 {
        stack
    } else {
        Stack::flattened(push_all(stack, pieces.drop_last())).push(pieces.last())
    }
}

pub open spec fn is_flat(p: Piece) -> bool {
    p.spec_role() == Role::Flat
}

/// The top piece, if any, is a flat.
pub open spec fn top_is_flat_or_empty(stack: Seq<Piece>) -> bool {
    stack.len() > 0 ==> is_flat(stack.last())
}

/// All pieces but the last are flats.
pub open spec fn flats_below_top(pieces: Seq<Piece>) -> bool {
    forall|i: int| 0 <= i < pieces.len() - 1 ==> #[trigger] is_flat(pieces[i])
}

/// The number of pieces carried on from step `i` of a movement with piece counts `ts`.
pub open spec fn next_take(ts: Seq<nat>, i: int) -> nat {
    if i + 1 < ts.len() {
        ts[i + 1]
    } else {
        0
    }
}

/// The top `t` pieces of a stack.
pub open spec fn top_pieces(stack: Seq<Piece>, t: nat) -> Seq<Piece> {
    stack.subrange(stack.len() - t, stack.len() as int)
}

/// The pieces dropped at step `i` of a movement: the bottom pieces of those still carried.
pub open spec fn dropped_at(carried: Seq<Piece>, ts: Seq<nat>, i: int) -> Seq<Piece> {
    carried.subrange(ts[0] - ts[i], ts[0] - next_take(ts, i))
}

/// The board after the first `k` steps of a movement from `origin` along the squares `path`,
/// carrying `ts[i]` pieces onto `path[i]`. The taken pieces leave the origin first.
pub open spec fn spread_prefix(board: BoardPieces, origin: int, path: Seq<int>, ts: Seq<nat>, k: nat) -> BoardPieces
    decreases k,
{
    if k == 0 {
        board.update(origin, board[origin].subrange(0, board[origin].len() - ts[0]))
    } else {
        let prev = spread_prefix(board, origin, path, ts, (k - 1) as nat);
        let target = path[k - 1];
        prev.update(
            target,
            push_all(board[target], dropped_at(top_pieces(board[origin], ts[0]), ts, k - 1)),
        )
    }
}

/// The board after a whole movement.
pub open spec fn spread(board: BoardPieces, origin: int, path: Seq<int>, ts: Seq<nat>) -> BoardPieces {
    spread_prefix(board, origin, path, ts, ts.len())
}

/// The number of pieces left on each square of a movement.
pub open spec fn pieces_left_behind(ts: Seq<nat>) -> Seq<u8> {
    Seq::new(ts.len(), |i: int| (ts[i] - next_take(ts, i)) as u8)
}

/// Undoing the first `k` steps of a movement: the pieces left on `path[i]` go back onto
/// the origin.
pub open spec fn unspread_prefix(board: BoardPieces, origin: int, path: Seq<int>, left: Seq<u8>, k: nat) -> BoardPieces
    decreases k,
{
    if k == 0 {
        board
    } else {
        let prev = unspread_prefix(board, origin, path, left, (k - 1) as nat);
        let target = path[k - 1];
        let m = left[k - 1] as int;
        let stack = prev[target];
        prev.update(target, stack.subrange(0, stack.len() - m)).update(
            origin,
            push_all(prev[origin], stack.subrange(stack.len() - m, stack.len() as int)),
        )
    }
}

/// The sum of the first `n` counts.
pub open spec fn sum_u8(counts: Seq<u8>, n: nat) -> int
    decreases n,
{
    if n == 0 {
        0
    } else {
        sum_u8(counts, (n - 1) as nat) + counts[n - 1] as int
    }
}

pub proof fn lemma_sum_u8_mono(counts: Seq<u8>, k: nat, n: nat)
    requires
        k <= n,
    ensures
        sum_u8(counts, k) <= sum_u8(counts, n),
        k > 0 ==> sum_u8(counts, k) == sum_u8(counts, (k - 1) as nat) + counts[k - 1] as int,
    decreases n,
{
    if k < n {
        lemma_sum_u8_mono(counts, k, (n - 1) as nat);
    }
}

pub proof fn lemma_unspread_prefix_len(board: BoardPieces, origin: int, path: Seq<int>, left: Seq<u8>, k: nat)
    requires
        k <= path.len(),
        0 <= origin < board.len(),
        forall|i: int| 0 <= i < path.len() ==> 0 <= #[trigger] path[i] < board.len(),
    ensures
        unspread_prefix(board, origin, path, left, k).len() == board.len(),
    decreases k,
{
    if k > 0 {
        lemma_unspread_prefix_len(board, origin, path, left, (k - 1) as nat);
    }
}

/// The pieces left on the squares of a movement add up to the pieces taken.
pub proof fn lemma_sum_left_behind(ts: Seq<nat>, k: nat)
    requires
        1 <= k <= ts.len(),
        forall|i: int, j: int| 0 <= i < j < ts.len() ==> #[trigger] ts[i] > #[trigger] ts[j],
        forall|i: int| 0 <= i < ts.len() ==> #[trigger] ts[i] <= 8,
    ensures
        sum_u8(pieces_left_behind(ts), k) == ts[0] - next_take(ts, k - 1),
    decreases k,
{
    let left = pieces_left_behind(ts);
    if k < ts.len() {
        assert(ts[k - 1] > ts[k as int]);
    }
    assert(left[k - 1] as int == ts[k - 1] - next_take(ts, k - 1));
    if k > 1 {
        lemma_sum_left_behind(ts, (k - 1) as nat);
        assert(ts[k - 2] > ts[k - 1]);
        assert(next_take(ts, k - 2) == ts[k - 1]);
    } else {
        assert(sum_u8(left, 0) == 0);
    }
}

/// A square that the first `k` undo steps neither take from nor give to keeps its pieces.
pub proof fn lemma_unspread_prefix_untouched(board: BoardPieces, origin: int, path: Seq<int>, left: Seq<u8>, k: nat, j: int)
    requires
        k <= path.len(),
        j != origin,
        forall|i: int| 0 <= i < k ==> path[i] != j,
        0 <= origin < board.len(),
        0 <= j < board.len(),
        forall|i: int| 0 <= i < path.len() ==> 0 <= #[trigger] path[i] < board.len(),
    ensures
        unspread_prefix(board, origin, path, left, k)[j] == board[j],
    decreases k,
{
    if k > 0 {
        lemma_unspread_prefix_untouched(board, origin, path, left, (k - 1) as nat, j);
        lemma_unspread_prefix_len(board, origin, path, left, (k - 1) as nat);
    }
}

/// Turning the top flat of a stack back into a wall of the same color.
pub open spec fn rebuild_wall(stack: Seq<Piece>) -> Seq<Piece> {
    stack.update(
        stack.len() - 1,
        Piece::spec_from_role_color(Role::Wall, stack.last().spec_color()),
    )
}

/// Undoing a whole movement, and restoring the wall it flattened, if any.
pub open spec fn unspread(board: BoardPieces, origin: int, path: Seq<int>, left: Seq<u8>, flattens: bool) -> BoardPieces {
    let b = unspread_prefix(board, origin, path, left, left.len());
    if flattens {
        let last = path[left.len() - 1];
        b.update(last, rebuild_wall(b[last]))
    } else {
        b
    }
}

/// Whether a path of squares is usable for a movement: distinct squares, none of them the origin.
pub open spec fn path_distinct(origin: int, path: Seq<int>) -> bool {
    &&& forall|i: int| 0 <= i < path.len() ==> #[trigger] path[i] != origin
    &&& forall|i: int, j: int| 0 <= i < j < path.len() ==> #[trigger] path[i] != #[trigger] path[j]
}

/// The conditions under which a movement is legal, as far as the pieces are concerned:
/// enough pieces in the origin, strictly decreasing counts, only the last square may hold a
/// wall (then to be flattened by a lone capstone), and no square holds a capstone.
pub open spec fn movement_fits(board: BoardPieces, origin: int, path: Seq<int>, ts: Seq<nat>) -> bool {
    let n = ts.len();
    &&& 0 <= origin < board.len()
    &&& n >= 1
    &&& path.len() == n
    &&& forall|i: int| 0 <= i < n ==> 0 <= #[trigger] path[i] < board.len()
    &&& path_distinct(origin, path)
    &&& ts[0] <= board[origin].len()
    &&& ts[0] <= 8
    &&& forall|i: int| 0 <= i < n ==> #[trigger] ts[i] >= 1
    &&& forall|i: int, j: int| 0 <= i < j < n ==> #[trigger] ts[i] > #[trigger] ts[j]
    &&& forall|i: int| 0 <= i < n - 1 ==> top_is_flat_or_empty(#[trigger] board[path[i]])
    &&& board[path[n - 1]].len() > 0 ==> board[path[n - 1]].last().spec_role() != Role::Cap
    &&& flats_below_top(board[origin])
    &&& forall|i: int| 0 <= i < board.len() ==> flats_below_top(#[trigger] board[i])
    &&& (board[path[n - 1]].len() > 0 && board[path[n - 1]].last().spec_role() == Role::Wall) ==> (
    board[origin].last().spec_role() == Role::Cap && ts[n - 1] == 1)
}

/// Whether the movement flattens a wall on its last square.
pub open spec fn flattens_wall(board: BoardPieces, path: Seq<int>, ts: Seq<nat>) -> bool {
    let last = board[path[ts.len() - 1]];
    last.len() > 0 && last.last().spec_role() == Role::Wall
}

pub proof fn lemma_flattened_of_flat_top(stack: Seq<Piece>)
    requires
        top_is_flat_or_empty(stack),
    ensures
        Stack::flattened(stack) == stack,
{
    if stack.len() > 0 {
        let p = stack.last();
        assert(Piece::spec_from_role_color(Role::Flat, p.spec_color()) == p);
        assert(Stack::flattened(stack) =~= stack);
    }
}

/// Pushing pieces whose lower members are flats onto a stack with a flat (or no) top piece
/// appends them.
pub proof fn lemma_push_all_appends(stack: Seq<Piece>, pieces: Seq<Piece>)
    requires
        top_is_flat_or_empty(stack),
        flats_below_top(pieces),
    ensures
        push_all(stack, pieces) == stack + pieces,
    decreases pieces.len(),
{
    if pieces.len() > 0 {
        let init = pieces.drop_last();
        assert(flats_below_top(init));
        lemma_push_all_appends(stack, init);
        if init.len() > 0 {
            assert(is_flat(pieces[init.len() - 1]));
            assert((stack + init).last() == init.last());
            lemma_flattened_of_flat_top(stack + init);
        } else {
            assert(stack + init =~= stack);
            lemma_flattened_of_flat_top(stack);
        }
        assert(stack + pieces =~= (stack + init).push(pieces.last()));
    }
}

/// Pushing onto any stack: its top is flattened, then the pieces are appended.
pub proof fn lemma_push_all_general(stack: Seq<Piece>, pieces: Seq<Piece>)
    requires
        flats_below_top(pieces),
        pieces.len() > 0,
    ensures
        push_all(stack, pieces) == Stack::flattened(stack) + pieces,
    decreases pieces.len(),
{
    let init = pieces.drop_last();
    if init.len() == 0 {
        assert(push_all(stack, init) == stack);
        assert(Stack::flattened(stack) + pieces =~= Stack::flattened(stack).push(pieces.last()));
    } else {
        assert(flats_below_top(init));
        lemma_push_all_general(stack, init);
        let f = Stack::flattened(stack) + init;
        assert(is_flat(pieces[init.len() - 1]));
        assert(f.last() == init.last());
        lemma_flattened_of_flat_top(f);
        assert(Stack::flattened(stack) + pieces =~= f.push(pieces.last()));
    }
}

pub proof fn lemma_flattened_shape(stack: Seq<Piece>)
    ensures
        Stack::flattened(stack).len() == stack.len(),
        top_is_flat_or_empty(Stack::flattened(stack)),
        forall|i: int| 0 <= i < stack.len() - 1 ==> #[trigger] Stack::flattened(stack)[i] == stack[i],
        stack.len() > 0 ==> Stack::flattened(stack).last().spec_color() == stack.last().spec_color(),
{
}

/// Undoing a legal movement gives back the board it started from.
pub proof fn lemma_unspread_spread(board: BoardPieces, origin: int, path: Seq<int>, ts: Seq<nat>)
    requires
        movement_fits(board, origin, path, ts),
    ensures
        unspread(
            spread(board, origin, path, ts),
            origin,
            path,
            pieces_left_behind(ts),
            flattens_wall(board, path, ts),
        ) == board,
{
    let n = ts.len();
    let o_stack = board[origin];
    let h = o_stack.len();
    let t1 = ts[0];
    let carried = top_pieces(o_stack, t1);
    let after = spread(board, origin, path, ts);
    let left = pieces_left_behind(ts);
    // Facts about the spread board.
    lemma_spread_prefix_facts(board, origin, path, ts, n);
    lemma_unspread_steps(board, origin, path, ts, n);
    let u = unspread_prefix(after, origin, path, left, n);
    assert(u[origin] =~= o_stack) by {
        assert(next_take(ts, n - 1) == 0);
        assert(carried.subrange(0, ts[0] as int) =~= carried);
    }
    let last = path[n - 1];
    assert forall|i: int| 0 <= i < board.len() && i != last implies #[trigger] u[i] == board[i] by {
        if i != origin && exists|j: int| 0 <= j < n && path[j] == i {
            let j = choose|j: int| 0 <= j < n && path[j] == i;
            assert(j < n - 1);
            lemma_flattened_of_flat_top(board[i]);
        }
    }
    let b_last = board[last];
    assert(u[last] == Stack::flattened(b_last));
    if flattens_wall(board, path, ts) {
        let top = b_last.last();
        assert(rebuild_wall(u[last]) =~= b_last) by {
            assert(Piece::spec_from_role_color(Role::Wall, top.spec_color()) == top);
        }
        assert(u.update(last, rebuild_wall(u[last])) =~= board);
    } else {
        lemma_flattened_of_flat_top(b_last);
        assert(u =~= board);
    }
}

/// After `k` steps of a movement, the origin holds its remaining pieces and each visited
/// square holds its old pieces, flattened on top, with the dropped pieces on them.
pub proof fn lemma_spread_prefix_facts(board: BoardPieces, origin: int, path: Seq<int>, ts: Seq<nat>, k: nat)
    requires
        movement_fits(board, origin, path, ts),
        k <= ts.len(),
    ensures
        spread_prefix(board, origin, path, ts, k).len() == board.len(),
        spread_prefix(board, origin, path, ts, k)[origin] == board[origin].subrange(
            0,
            board[origin].len() - ts[0],
        ),
        forall|i: int| 0 <= i < k ==> #[trigger] spread_prefix(board, origin, path, ts, k)[path[i]]
            == Stack::flattened(board[path[i]]) + dropped_at(top_pieces(board[origin], ts[0]), ts, i),
        forall|i: int| 0 <= i < ts.len() ==> flats_below_top(
            #[trigger] dropped_at(top_pieces(board[origin], ts[0]), ts, i),
        ),
        forall|i: int| 0 <= i < ts.len() ==> #[trigger] dropped_at(top_pieces(board[origin], ts[0]), ts, i).len()
            == ts[i] - next_take(ts, i),
        forall|j: int|
            0 <= j < board.len() && j != origin && (forall|i: int| 0 <= i < k ==> path[i] != j)
                ==> #[trigger] spread_prefix(board, origin, path, ts, k)[j] == board[j],
    decreases k,
{
    let n = ts.len();
    let carried = top_pieces(board[origin], ts[0]);
    assert forall|i: int| 0 <= i < n implies flats_below_top(#[trigger] dropped_at(carried, ts, i))
        && dropped_at(carried, ts, i).len() == ts[i] - next_take(ts, i) by {
        let d = dropped_at(carried, ts, i);
        if i + 1 < n {
            assert(ts[i] > ts[i + 1]);
        }
        if i > 0 {
            assert(ts[0] > ts[i]);
        }
        assert forall|m: int| 0 <= m < d.len() - 1 implies #[trigger] is_flat(d[m]) by {
            let pos = board[origin].len() - ts[0] + ts[0] - ts[i] + m;
            assert(d[m] == board[origin][pos]);
            assert(pos < board[origin].len() - 1);
        }
    }
    if k > 0 {
        lemma_spread_prefix_facts(board, origin, path, ts, (k - 1) as nat);
        let target = path[k - 1];
        lemma_push_all_general(board[target], dropped_at(carried, ts, k - 1));
    }
}

/// Undoing steps one at a time takes back exactly the pieces dropped.
pub proof fn lemma_unspread_steps(board: BoardPieces, origin: int, path: Seq<int>, ts: Seq<nat>, k: nat)
    requires
        movement_fits(board, origin, path, ts),
        k <= ts.len(),
    ensures
        ({
            let after = spread(board, origin, path, ts);
            let u = unspread_prefix(after, origin, path, pieces_left_behind(ts), k);
            let carried = top_pieces(board[origin], ts[0]);
            &&& u.len() == board.len()
            &&& u[origin] == board[origin].subrange(0, board[origin].len() - ts[0]) + carried.subrange(
                0,
                ts[0] - (if k == 0 { ts[0] } else { next_take(ts, k - 1) }),
            )
            &&& forall|i: int| 0 <= i < k ==> #[trigger] u[path[i]] == Stack::flattened(board[path[i]])
            &&& forall|i: int| k <= i < ts.len() ==> #[trigger] u[path[i]] == after[path[i]]
            &&& forall|j: int|
                0 <= j < board.len() && j != origin && (forall|i: int| 0 <= i < ts.len() ==> path[i] != j)
                    ==> #[trigger] u[j] == board[j]
        }),
    decreases k,
{
    let n = ts.len();
    let after = spread(board, origin, path, ts);
    let left = pieces_left_behind(ts);
    let carried = top_pieces(board[origin], ts[0]);
    lemma_spread_prefix_facts(board, origin, path, ts, n);
    if k == 0 {
        assert(carried.subrange(0, 0) =~= Seq::<Piece>::empty());
        assert(after[origin] + carried.subrange(0, 0) =~= after[origin]);
    } else {
        lemma_unspread_steps(board, origin, path, ts, (k - 1) as nat);
        let prev = unspread_prefix(after, origin, path, left, (k - 1) as nat);
        let target = path[k - 1];
        let d = dropped_at(carried, ts, k - 1);
        let m = left[k - 1] as int;
        assert(m == d.len());
        assert(prev[target] == Stack::flattened(board[target]) + d);
        lemma_flattened_shape(board[target]);
        let st = prev[target];
        assert(st.subrange(0, st.len() - m) =~= Stack::flattened(board[target]));
        assert(st.subrange(st.len() - m, st.len() as int) =~= d);
        // The origin so far holds its remaining pieces plus the chunks taken back.
        let base = board[origin].subrange(0, board[origin].len() - ts[0]);
        let before = if k - 1 == 0 { ts[0] } else { next_take(ts, k - 2) };
        assert(before == ts[k - 1]);
        let so_far = base + carried.subrange(0, ts[0] - before);
        assert(prev[origin] == so_far);
        assert(so_far =~= board[origin].subrange(0, board[origin].len() - ts[k - 1]));
        if so_far.len() > 0 {
            let idx = so_far.len() - 1;
            assert(so_far[idx] == board[origin][idx]);
            assert(idx < board[origin].len() - 1);
        }
        lemma_push_all_appends(so_far, d);
        assert(so_far + d =~= base + carried.subrange(0, ts[0] - next_take(ts, k - 1)));
    }
}

} // verus!
