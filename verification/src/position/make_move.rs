//! Playing and taking back moves.
use vstd::prelude::*;

use super::bits::lemma_xor_facts;
use super::collections::{new_piece_array, new_u8_array, piece_array_contents, piece_array_len, piece_array_pop, piece_array_push, u8_array_contents, u8_array_get, u8_array_len, u8_array_push};
use super::mv::{ExpMove, Move, ReverseMove, ReverseMoveView};
use super::rules::{dropped_at, flattens_wall, movement_fits, next_take, pieces_left_behind, push_all, rebuild_wall, spread, spread_prefix, sum_u8, top_pieces, unspread, unspread_prefix, BoardPieces};
use super::square::{valid_size, Square};
use super::utils::{takes_below, Color, Direction, Piece, Role, Stack, StackMovement};
use super::zobrist::{spec_to_move_key, spec_top_key, zobrist_to_move, zobrist_top_stones};
use super::{Position, PositionView};

verus! {

impl<const S: usize> PositionView<S> {
    /// The board of a well-formed position has flats below every top piece.
    pub proof fn lemma_board_flats(self)
        requires
            self.wf(),
        ensures
            self.board().len() == S * S,
            forall|i: int| 0 <= i < S * S ==> super::rules::flats_below_top(#[trigger] self.board()[i]),
            forall|i: int| 0 <= i < S * S ==> (#[trigger] self.board()[i]).len() == self.stacks[i].height,
    {
        assert forall|i: int| 0 <= i < S * S implies super::rules::flats_below_top(#[trigger] self.board()[i]) by {
            let st = self.stacks[i];
            assert forall|m: int| 0 <= m < st@.len() - 1 implies #[trigger] super::rules::is_flat(st@[m]) by {
                if super::bits::bit(st.bitboard.board, m as u64) {
                } else {
                }
            }
        }
    }

    /// The squares of a movement path are on the board, distinct, and not the origin.
    pub proof fn lemma_path(origin: Square<S>, direction: Direction, n: nat)
        requires
            valid_size(S),
            origin.valid(),
            forall|i: int| 0 <= i < n ==> (#[trigger] origin.spec_jump_direction(direction, i + 1)) is Some,
        ensures
            forall|i: int| 0 <= i < n ==> 0 <= #[trigger] Self::path(origin, direction, n)[i] < S * S,
            forall|i: int| 0 <= i < n ==> (#[trigger] origin.spec_jump_direction(direction, i + 1)).unwrap().valid(),
            super::rules::path_distinct(origin.inner as int, Self::path(origin, direction, n)),
    {
        let path = Self::path(origin, direction, n);
        assert forall|i: int| 0 <= i < n implies (#[trigger] origin.spec_jump_direction(direction, i + 1)).unwrap().valid() by {
            origin.lemma_jump_valid(direction, i + 1);
        }
        assert forall|i: int| 0 <= i < n implies 0 <= #[trigger] path[i] < S * S by {
            origin.lemma_jump_valid(direction, i + 1);
        }
        assert forall|i: int| 0 <= i < n implies #[trigger] path[i] != origin.inner as int by {
            origin.lemma_jump_step(direction, 0);
            origin.lemma_jumps_distinct(direction, 0, i + 1);
        }
        assert forall|i: int, j: int| 0 <= i < j < n implies #[trigger] path[i] != #[trigger] path[j] by {
            origin.lemma_jumps_distinct(direction, i + 1, j + 1);
        }
    }

    /// A movement that follows the rules satisfies what the board-level movement needs.
    pub proof fn lemma_movement_fits(self, origin: Square<S>, direction: Direction, sm: StackMovement<S>)
        requires
            self.wf(),
            self.movement_rules(origin, direction, sm),
        ensures
            movement_fits(self.board(), origin.inner as int, Self::path(origin, direction, sm@.len()), sm@),
            forall|i: int| 0 <= i < sm@.len() ==> 1 <= #[trigger] sm@[i] <= 8,
    {
        let ts = sm@;
        let n = ts.len();
        let b = self.board();
        let path = Self::path(origin, direction, n);
        super::utils::lemma_takes_below_shape(sm.data, 8);
        self.lemma_board_flats();
        Self::lemma_path(origin, direction, n);
        assert forall|i: int| 0 <= i < n - 1 implies super::rules::top_is_flat_or_empty(#[trigger] b[path[i]]) by {
            let sq = origin.spec_jump_direction(direction, i + 1).unwrap();
            assert(self.top(sq) == self.stacks[path[i]].top_stone);
        }
        let last_sq = origin.spec_jump_direction(direction, n as int).unwrap();
        assert(path[n - 1] == last_sq.inner);
        assert(b[origin.inner as int].len() > 0);
    }
}

impl<const S: usize> Position<S> {
    /// The origin of a movement and the `n` squares it visits.
    fn movement_squares(origin: Square<S>, direction: Direction, n: usize) -> (squares: Vec<Square<S>>)
        requires
            valid_size(S),
            origin.valid(),
            n <= 8,
            forall|i: int| 0 <= i < n ==> (#[trigger] origin.spec_jump_direction(direction, i + 1)) is Some,
        ensures
            squares.len() == n + 1,
            forall|i: int| 0 <= i <= n ==> Some(#[trigger] squares@[i]) == origin.spec_jump_direction(direction, i),
            forall|i: int| 0 <= i <= n ==> (#[trigger] squares@[i]).valid(),
            squares@.map_values(|sq: Square<S>| sq.inner as int) == PositionView::<S>::path_with_origin(origin, direction, n as nat),
    {
        let mut squares: Vec<Square<S>> = Vec::new();
        squares.push(origin);
        proof {
            origin.lemma_jump_step(direction, 0);
        }
        let mut current = origin;
        let mut i: usize = 0;
        while i < n
            invariant
                valid_size(S),
                origin.valid(),
                i <= n,
                n <= 8,
                forall|k: int| 0 <= k < n ==> (#[trigger] origin.spec_jump_direction(direction, k + 1)) is Some,
                squares.len() == i + 1,
                current == squares@[i as int],
                forall|k: int| 0 <= k <= i ==> Some(#[trigger] squares@[k]) == origin.spec_jump_direction(direction, k),
                forall|k: int| 0 <= k <= i ==> (#[trigger] squares@[k]).valid(),
            decreases n - i,
        {
            proof {
                origin.lemma_jump_step(direction, i as int);
                origin.lemma_jump_valid(direction, i as int);
                origin.lemma_jump_valid(direction, i as int + 1);
                assert(origin.spec_jump_direction(direction, i as int + 1) is Some);
            }
            let next = current.go_direction_const(direction).unwrap();
            squares.push(next);
            current = next;
            i = i + 1;
        }
        proof {
            let path = PositionView::<S>::path_with_origin(origin, direction, n as nat);
            let m = squares@.map_values(|sq: Square<S>| sq.inner as int);
            assert(m =~= path) by {
                assert forall|k: int| 0 <= k <= n implies #[trigger] m[k] == path[k] by {
                    if k > 0 {
                        assert(path[k] == PositionView::<S>::path(origin, direction, n as nat)[k - 1]);
                    }
                }
            }
        }
        squares
    }

    /// Plays a legal move. Returns the information needed to take it back.
    pub fn do_move(&mut self, mv: Move<S>) -> (rev: ReverseMove<S>)
        requires
            old(self).wf(),
            old(self)@.playable(mv),
            old(self)@.move_fits(mv),
            old(self).half_moves_played < usize::MAX,
        ensures
            old(self)@.move_effect(mv, final(self)@, rev@),
    {
        let ghost p = self@;
        let old_hash = self.hash;
        let rev = match mv.expand() {
            ExpMove::Place(role, to) => {
                let color_to_place = if self.half_moves_played > 1 {
                    self.to_move
                } else {
                    self.to_move.flip()
                };
                let piece = Piece::from_role_color(role, color_to_place);
                let mut to_stack = self.get_stack(to);
                proof {
                    assert(to_stack@ =~= Seq::<Piece>::empty());
                }
                to_stack.push(piece);
                proof {
                    assert(to_stack@ =~= seq![piece]);
                }
                self.set_stack(to, to_stack);
                match (color_to_place, role) {
                    (Color::White, Role::Flat) => self.white_stones_left = self.white_stones_left - 1,
                    (Color::White, Role::Wall) => self.white_stones_left = self.white_stones_left - 1,
                    (Color::White, Role::Cap) => self.white_caps_left = self.white_caps_left - 1,
                    (Color::Black, Role::Flat) => self.black_stones_left = self.black_stones_left - 1,
                    (Color::Black, Role::Wall) => self.black_stones_left = self.black_stones_left - 1,
                    (Color::Black, Role::Cap) => self.black_caps_left = self.black_caps_left - 1,
                }
                self.hash = self.hash ^ zobrist_top_stones::<S>(to, piece);
                // This move is irreversible, so previous positions are never repeated from here
                self.hash_history.clear();
                proof {
                    assert(self@.board() =~= p.board().update(to.inner as int, seq![piece])) by {
                        assert(Stack::flattened(Seq::<Piece>::empty()) =~= Seq::<Piece>::empty());
                    }
                }
                ReverseMove::Place(to)
            },
            ExpMove::Move(square, direction, stack_movement) => {
                let rev = self.do_movement(square, direction, stack_movement);
                // The position before the move may be repeated later
                self.hash_history.push(old_hash);
                rev
            },
        };
        self.moves.push(mv);
        self.half_moves_played = self.half_moves_played + 1;
        let k1 = zobrist_to_move::<S>(self.to_move);
        self.hash = self.hash ^ k1;
        self.to_move = self.to_move.flip();
        let k2 = zobrist_to_move::<S>(self.to_move);
        self.hash = self.hash ^ k2;
        rev
    }

    /// Plays a legal stack movement: the board and the hash change.
    #[verifier::rlimit(80)]
    fn do_movement(&mut self, origin: Square<S>, direction: Direction, sm: StackMovement<S>) -> (rev: ReverseMove<S>)
        requires
            old(self).wf(),
            old(self)@.movement_rules(origin, direction, sm),
            forall|i: int|
                0 <= i < sm@.len() ==> old(self)@.stack(origin.spec_jump_direction(direction, i + 1).unwrap()).height
                    + sm@[i] <= 64,
        ensures
            final(self).wf(),
            ({
                let n = sm@.len();
                let squares = PositionView::<S>::path_with_origin(origin, direction, n);
                let path = PositionView::<S>::path(origin, direction, n);
                &&& final(self)@.board() == spread(old(self)@.board(), origin.inner as int, path, sm@)
                &&& final(self).hash == old(self).hash ^ super::spec_squares_hash(S as int, squares, old(self).stacks@, n + 1)
                    ^ super::spec_squares_hash(S as int, squares, final(self).stacks@, n + 1)
                &&& rev@ == ReverseMoveView::Move(
                    origin,
                    direction,
                    sm,
                    pieces_left_behind(sm@),
                    flattens_wall(old(self)@.board(), path, sm@),
                )
            }),
            final(self).to_move == old(self).to_move,
            final(self).white_stones_left == old(self).white_stones_left,
            final(self).black_stones_left == old(self).black_stones_left,
            final(self).white_caps_left == old(self).white_caps_left,
            final(self).black_caps_left == old(self).black_caps_left,
            final(self).half_moves_played == old(self).half_moves_played,
            final(self).moves@ == old(self).moves@,
            final(self).komi == old(self).komi,
            final(self).hash_history@ == old(self).hash_history@,
    {
        let ghost p = self@;
        let ghost b0 = p.board();
        let ghost ts = sm@;
        proof {
            p.lemma_movement_fits(origin, direction, sm);
            p.lemma_board_flats();
        }
        let n = sm.len();
        let ghost path = PositionView::<S>::path(origin, direction, n as nat);
        proof {
            PositionView::<S>::lemma_path(origin, direction, n as nat);
            super::rules::lemma_spread_prefix_facts(b0, origin.inner as int, path, ts, 0);
        }
        let squares = Self::movement_squares(origin, direction, n);
        let ghost carried = top_pieces(b0[origin.inner as int], ts[0]);
        let h0 = self.hash;
        self.hash = self.xor_squares_hash(&squares, self.hash);
        let ghost h1 = self.hash;

        let mut it = sm.into_iter();
        let first = it.next().unwrap().pieces_to_take;
        proof {
            assert(it@ =~= ts.subrange(1, n as int));
            origin.lemma_jump_step(direction, 0);
            assert(carried.len() == first);
        }
        let mut moving = new_piece_array();
        let mut stack = self.get_stack(origin);
        let ghost o_stack = stack;
        let mut k: u8 = 0;
        while k < first
            invariant
                k <= first,
                first == ts[0],
                first <= o_stack.height,
                first <= 8,
                o_stack.wf(),
                stack.wf(),
                stack@ == o_stack@.subrange(0, o_stack@.len() - k),
                piece_array_contents(moving).len() == k,
                forall|j: int| 0 <= j < k ==> #[trigger] piece_array_contents(moving)[j] == o_stack@[o_stack@.len() - 1 - j],
            decreases first - k,
        {
            let piece = stack.pop().unwrap();
            piece_array_push(&mut moving, piece);
            k = k + 1;
        }
        self.set_stack(origin, stack);
        proof {
            assert(o_stack == p.stacks[origin.inner as int]);
            assert(self@.board() =~= spread_prefix(b0, origin.inner as int, path, ts, 0));
            assert forall|j: int| 0 <= j < first implies #[trigger] piece_array_contents(moving)[j] == carried[first - 1 - j] by {}
        }

        let mut left = new_u8_array();
        let mut flattens = false;
        let mut step: usize = 0;
        while step < n
            invariant
                valid_size(S),
                self.wf(),
                n == ts.len(),
                1 <= n <= 8,
                step <= n,
                squares.len() == n + 1,
                forall|i: int| 0 <= i <= n ==> (#[trigger] squares@[i]).valid(),
                forall|i: int| 0 <= i < n ==> #[trigger] squares@[i + 1].inner == path[i],
                squares@[0] == origin,
                movement_fits(b0, origin.inner as int, path, ts),
                forall|i: int| 0 <= i < n ==> 1 <= #[trigger] ts[i] <= 8,
                forall|i: int| 0 <= i < n ==> #[trigger] p.stacks[path[i]].height + ts[i] <= 64,
                b0 == p.board(),
                p.wf(),
                carried == top_pieces(b0[origin.inner as int], ts[0]),
                first == ts[0],
                self@.board() == spread_prefix(b0, origin.inner as int, path, ts, step as nat),
                step < n ==> it@ == ts.subrange(step as int + 1, n as int),
                step == n ==> it@.len() == 0,
                piece_array_contents(moving).len() == (if step < n { ts[step as int] } else { 0 }),
                forall|j: int| 0 <= j < piece_array_contents(moving).len() ==> #[trigger] piece_array_contents(moving)[j] == carried[first - 1 - j],
                u8_array_contents(left) == pieces_left_behind(ts).subrange(0, step as int),
                flattens == (step == n && flattens_wall(b0, path, ts)),
                self.hash == h1,
                self.to_move == p.to_move,
                self.white_stones_left == p.white_stones_left,
                self.black_stones_left == p.black_stones_left,
                self.white_caps_left == p.white_caps_left,
                self.black_caps_left == p.black_caps_left,
                self.half_moves_played == p.half_moves_played,
                self.moves@ == p.moves,
                self.komi == p.komi,
                self.hash_history@ == p.hash_history,
            decreases n - step,
        {
            let ghost before = self@;
            let next_take_here: u8 = match it.next() {
                Some(m) => m.pieces_to_take,
                None => 0,
            };
            proof {
                if step + 1 < n {
                    assert(it@ =~= ts.subrange(step as int + 2, n as int));
                }
                assert(next_take_here == next_take(ts, step as int));
                super::rules::lemma_spread_prefix_facts(b0, origin.inner as int, path, ts, step as nat);
                super::rules::lemma_spread_prefix_facts(b0, origin.inner as int, path, ts, n as nat);
            }
            let to = squares[step + 1];
            let to_stack0 = self.get_stack(to);
            proof {
                let j = path[step as int];
                assert(forall|i: int| 0 <= i < step ==> path[i] != j);
                assert(j != origin.inner as int);
                assert(spread_prefix(b0, origin.inner as int, path, ts, step as nat)[j] == b0[j]);
                assert(self@.board()[j] == self.stacks@[j]@);
                assert(to_stack0@ == b0[j]);
                assert(b0[j] == p.stacks[j]@);
                to_stack0.lemma_view_injective(p.stacks[j]);
                assert(to_stack0 == p.stacks[path[step as int]]);
            }
            if step + 1 == n {
                if let Some(top) = to_stack0.top_stone {
                    if top.role() == Role::Wall {
                        flattens = true;
                    }
                }
            }
            let held = piece_array_len(&moving) as u8;
            u8_array_push(&mut left, held - next_take_here);
            let mut to_stack = to_stack0;
            let ghost dropped = dropped_at(carried, ts, step as int);
            while piece_array_len(&moving) > next_take_here as usize
                invariant
                    to_stack.wf(),
                    to_stack0.wf(),
                    carried.len() == first,
                    held == ts[step as int],
                    next_take_here == next_take(ts, step as int),
                    next_take_here <= piece_array_contents(moving).len() <= held,
                    held <= 8,
                    to_stack0.height + held <= 64,
                    first == ts[0],
                    held <= first,
                    forall|j: int| 0 <= j < piece_array_contents(moving).len() ==> #[trigger] piece_array_contents(moving)[j] == carried[first - 1 - j],
                    to_stack@ == push_all(to_stack0@, carried.subrange(first - held, first - piece_array_contents(moving).len())),
                    to_stack.height == to_stack0.height + held - piece_array_contents(moving).len(),
                decreases piece_array_contents(moving).len(),
            {
                let ghost before_len = piece_array_contents(moving).len();
                let piece = piece_array_pop(&mut moving).unwrap();
                to_stack.push(piece);
                assert(to_stack@.len() == to_stack.height);
                proof {
                    let sub = carried.subrange(first - held, first - before_len + 1);
                    assert(sub.drop_last() =~= carried.subrange(first - held, first - before_len));
                    assert(sub.last() == piece);
                }
            }
            self.set_stack(to, to_stack);
            proof {
                assert(carried.subrange(first - held, first - next_take_here) =~= dropped);
                assert(self@.board() =~= spread_prefix(b0, origin.inner as int, path, ts, (step + 1) as nat));
                assert(pieces_left_behind(ts).subrange(0, step as int + 1) =~= u8_array_contents(left));
                if step + 1 < n {
                    assert(next_take_here == ts[step as int + 1]);
                }
            }
            step = step + 1;
        }
        self.hash = self.xor_squares_hash(&squares, self.hash);
        proof {
            lemma_xor_facts(h0, 0, 0);
            assert(pieces_left_behind(ts).subrange(0, n as int) =~= pieces_left_behind(ts));
        }
        ReverseMove::Move(origin, direction, sm, left, flattens)
    }
}

impl<const S: usize> Position<S> {
    /// Takes back a move, given the information that `do_move` returned for it.
    pub fn reverse_move(&mut self, reverse_move: ReverseMove<S>)
        requires
            old(self).wf(),
            old(self)@.can_undo(reverse_move@),
        ensures
            old(self)@.undo_effect(reverse_move@, final(self)@),
    {
        let ghost p = self@;
        match reverse_move {
            ReverseMove::Place(square) => {
                let mut stack = self.get_stack(square);
                let piece = stack.pop().unwrap();
                self.set_stack(square, stack);
                self.hash = self.hash ^ zobrist_top_stones::<S>(square, piece);
                match piece {
                    Piece::WhiteFlat | Piece::WhiteWall => self.white_stones_left = self.white_stones_left + 1,
                    Piece::WhiteCap => self.white_caps_left = self.white_caps_left + 1,
                    Piece::BlackFlat | Piece::BlackWall => self.black_stones_left = self.black_stones_left + 1,
                    Piece::BlackCap => self.black_caps_left = self.black_caps_left + 1,
                }
                proof {
                    assert(self@.board() =~= p.board().update(square.inner as int, p.board()[square.inner as int].drop_last()));
                }
            },
            ReverseMove::Move(from, direction, stack_movement, pieces_left_behind, flattens_wall) => {
                self.undo_movement(from, direction, stack_movement, pieces_left_behind, flattens_wall);
            },
        }
        self.moves.pop();
        self.hash_history.pop();
        self.half_moves_played = self.half_moves_played - 1;
        let k1 = zobrist_to_move::<S>(self.to_move);
        self.hash = self.hash ^ k1;
        self.to_move = self.to_move.flip();
        let k2 = zobrist_to_move::<S>(self.to_move);
        self.hash = self.hash ^ k2;
        proof {
            if p.moves.len() > 0 {
                assert(self.moves@ =~= p.moves.drop_last());
            }
            if p.hash_history.len() > 0 {
                assert(self.hash_history@ =~= p.hash_history.drop_last());
            }
        }
    }

    /// Moves the pieces left behind by a stack movement back onto its origin.
    fn undo_movement(
        &mut self,
        from: Square<S>,
        direction: Direction,
        stack_movement: StackMovement<S>,
        left: arrayvec::ArrayVec<u8, 8>,
        flattens: bool,
    )
        requires
            old(self).wf(),
            old(self)@.half_moves_played > 0,
            old(self)@.can_undo(ReverseMoveView::Move(from, direction, stack_movement, u8_array_contents(left), flattens)),
        ensures
            final(self).wf(),
            ({
                let lv = u8_array_contents(left);
                let n = lv.len();
                let squares = PositionView::<S>::path_with_origin(from, direction, n);
                &&& final(self)@.board() == unspread(old(self)@.board(), from.inner as int, PositionView::<S>::path(from, direction, n), lv, flattens)
                &&& final(self).hash == old(self).hash ^ super::spec_squares_hash(S as int, squares, old(self).stacks@, n + 1)
                    ^ super::spec_squares_hash(S as int, squares, final(self).stacks@, n + 1)
            }),
            final(self).to_move == old(self).to_move,
            final(self).white_stones_left == old(self).white_stones_left,
            final(self).black_stones_left == old(self).black_stones_left,
            final(self).white_caps_left == old(self).white_caps_left,
            final(self).black_caps_left == old(self).black_caps_left,
            final(self).half_moves_played == old(self).half_moves_played,
            final(self).moves@ == old(self).moves@,
            final(self).komi == old(self).komi,
            final(self).hash_history@ == old(self).hash_history@,
    {
        let ghost p = self@;
        let ghost b0 = p.board();
        let ghost lv = u8_array_contents(left);
        let n = stack_movement.len();
        let ghost path = PositionView::<S>::path(from, direction, n as nat);
        proof {
            PositionView::<S>::lemma_path(from, direction, n as nat);
            p.lemma_board_flats();
            from.lemma_jump_step(direction, 0);
        }
        let squares = Self::movement_squares(from, direction, n);
        let h0 = self.hash;
        self.hash = self.xor_squares_hash(&squares, self.hash);
        let ghost h1 = self.hash;
        let mut step: usize = 0;
        while step < u8_array_len(&left)
            invariant
                valid_size(S),
                self.wf(),
                p.wf(),
                b0 == p.board(),
                lv == u8_array_contents(left),
                n == lv.len(),
                1 <= n <= 8,
                step <= n,
                squares.len() == n + 1,
                forall|i: int| 0 <= i <= n ==> (#[trigger] squares@[i]).valid(),
                forall|i: int| 0 <= i < n ==> #[trigger] squares@[i + 1].inner == path[i],
                squares@[0] == from,
                super::rules::path_distinct(from.inner as int, path),
                path.len() == n,
                forall|i: int| 0 <= i < n ==> 0 <= #[trigger] path[i] < S * S,
                forall|i: int| 0 <= i < n ==> #[trigger] lv[i] <= p.stacks[path[i]].height,
                forall|i: int| 0 <= i < n ==> #[trigger] lv[i] <= 8,
                flattens ==> p.stacks[path[n - 1]].height > lv[n - 1],
                p.stack(from).height + sum_u8(lv, n as nat) <= 64,
                self@.board() == unspread_prefix(b0, from.inner as int, path, lv, step as nat),
                self@.stack(from).height == p.stack(from).height + sum_u8(lv, step as nat),
                forall|i: int| step <= i < n ==> #[trigger] self.stacks@[path[i]] == p.stacks[path[i]],
                self.hash == h1,
                self.to_move == p.to_move,
                self.white_stones_left == p.white_stones_left,
                self.black_stones_left == p.black_stones_left,
                self.white_caps_left == p.white_caps_left,
                self.black_caps_left == p.black_caps_left,
                self.half_moves_played == p.half_moves_played,
                self.moves@ == p.moves,
                self.komi == p.komi,
                self.hash_history@ == p.hash_history,
            decreases n - step,
        {
            proof {
                super::rules::lemma_sum_u8_mono(lv, (step + 1) as nat, n as nat);
            }
            let to = squares[step + 1];
            let m = u8_array_get(&left, step);
            let mut to_stack = self.get_stack(to);
            let ghost t0 = to_stack;
            let mut temp = new_piece_array();
            let mut j: u8 = 0;
            while j < m
                invariant
                    j <= m,
                    m <= t0.height,
                    m <= 8,
                    t0.wf(),
                    to_stack.wf(),
                    to_stack@ == t0@.subrange(0, t0@.len() - j),
                    piece_array_contents(temp).len() == j,
                    forall|i: int| 0 <= i < j ==> #[trigger] piece_array_contents(temp)[i] == t0@[t0@.len() - 1 - i],
                decreases m - j,
            {
                let piece = to_stack.pop().unwrap();
                piece_array_push(&mut temp, piece);
                j = j + 1;
            }
            self.set_stack(to, to_stack);
            let mut from_stack = self.get_stack(from);
            let ghost f0 = from_stack;
            let ghost moved = t0@.subrange(t0@.len() - m, t0@.len() as int);
            while piece_array_len(&temp) > 0
                invariant
                    f0.wf(),
                    from_stack.wf(),
                    m <= t0.height,
                    m <= 8,
                    t0.wf(),
                    f0.height + m <= 64,
                    moved == t0@.subrange(t0@.len() - m, t0@.len() as int),
                    piece_array_contents(temp).len() <= m,
                    forall|i: int| 0 <= i < piece_array_contents(temp).len() ==> #[trigger] piece_array_contents(temp)[i] == t0@[t0@.len() - 1 - i],
                    from_stack@ == push_all(f0@, moved.subrange(0, m - piece_array_contents(temp).len())),
                    from_stack.height == f0.height + m - piece_array_contents(temp).len(),
                decreases piece_array_contents(temp).len(),
            {
                let ghost before_len = piece_array_contents(temp).len();
                let piece = piece_array_pop(&mut temp).unwrap();
                from_stack.push(piece);
                assert(from_stack@.len() == from_stack.height);
                proof {
                    let sub = moved.subrange(0, m - before_len + 1);
                    assert(sub.drop_last() =~= moved.subrange(0, m - before_len));
                    assert(sub.last() == piece);
                }
            }
            self.set_stack(from, from_stack);
            proof {
                let j = path[step as int];
                assert(moved.subrange(0, m as int) =~= moved);
                let prev = unspread_prefix(b0, from.inner as int, path, lv, step as nat);
                assert(prev[j] == t0@);
                assert(prev[from.inner as int] == f0@);
                assert(self@.board() =~= unspread_prefix(b0, from.inner as int, path, lv, (step + 1) as nat));
            }
            step = step + 1;
        }
        if flattens {
            proof {
                let t = path[n - 1];
                super::rules::lemma_unspread_prefix_untouched(b0, from.inner as int, path, lv, (n - 1) as nat, t);
                let prev = unspread_prefix(b0, from.inner as int, path, lv, (n - 1) as nat);
                super::rules::lemma_unspread_prefix_len(b0, from.inner as int, path, lv, (n - 1) as nat);
                assert(prev[t] == b0[t]);
                assert(unspread_prefix(b0, from.inner as int, path, lv, n as nat)[t] == prev[t].subrange(0, prev[t].len() - lv[n - 1]));
                assert(b0[t].len() == p.stacks[t].height);
                assert(self@.board()[t] == self.stacks@[t]@);
                assert(squares@[n as int].inner == t);
                assert(self.stacks@[t]@.len() > 0);
            }
            let last = squares[n];
            let mut st = self.get_stack(last);
            let top = st.top_stone.unwrap();
            let wall = Piece::from_role_color(Role::Wall, top.color());
            st.replace_top(wall);
            self.set_stack(last, st);
            proof {
                assert(self@.board() =~= unspread(b0, from.inner as int, path, lv, flattens));
            }
        }
        self.hash = self.xor_squares_hash(&squares, self.hash);
    }
}

/// Taking back a legal move restores the position it was played in, except that after a
/// placement the record of earlier hashes stays empty, since a placement clears it.
pub proof fn lemma_reverse_move_restores<const S: usize>(
    p: PositionView<S>,
    mv: Move<S>,
    q: PositionView<S>,
    rev: ReverseMoveView<S>,
    r: PositionView<S>,
)
    requires
        p.wf(),
        p.playable(mv),
        p.move_fits(mv),
        p.move_effect(mv, q, rev),
        q.undo_effect(rev, r),
    ensures
        q.can_undo(rev),
        r.stacks == p.stacks,
        r.to_move == p.to_move,
        r.white_stones_left == p.white_stones_left,
        r.black_stones_left == p.black_stones_left,
        r.white_caps_left == p.white_caps_left,
        r.black_caps_left == p.black_caps_left,
        r.half_moves_played == p.half_moves_played,
        r.moves == p.moves,
        r.komi == p.komi,
        r.hash == p.hash,
        r.hash_history == (if mv.spec_is_placement() { Seq::<u64>::empty() } else { p.hash_history }),
{
    lemma_can_undo_after_move(p, mv, q, rev);
    let kp = spec_to_move_key(S as int, p.to_move);
    let kq = spec_to_move_key(S as int, q.to_move);
    assert(r.moves =~= p.moves);
    match mv.spec_expand() {
        ExpMove::Place(role, square) => {
            let piece = Piece::spec_from_role_color(role, p.color_to_place());
            let i = square.inner as int;
            assert(q.board()[i] == seq![piece]);
            assert(q.stacks[i]@ == seq![piece]);
            assert(q.stacks[i].wf());
            assert(q.stacks[i]@[0] == piece);
            assert(q.stacks[i].height == 1);
            assert(q.stack(square).top_stone.unwrap() == piece);
            assert(r.board() =~= p.board()) by {
                assert(p.board()[i] =~= Seq::<Piece>::empty());
                assert(seq![piece].drop_last() =~= Seq::<Piece>::empty());
            }
            lemma_stacks_from_board(p, r);
            let t = spec_top_key(S as int, i, piece);
            let h = p.hash;
            assert(((((((h ^ t) ^ kp) ^ kq) ^ t) ^ kq) ^ kp) == h) by (bit_vector);
            assert(r.stones_left(p.color_to_place()) == p.stones_left(p.color_to_place()));
            assert(r.caps_left(p.color_to_place()) == p.caps_left(p.color_to_place()));
            if p.color_to_place() == Color::White {
            } else {
            }
        },
        ExpMove::Move(origin, direction, sm) => {
            let n = sm@.len();
            let path = PositionView::<S>::path(origin, direction, n);
            p.lemma_movement_fits(origin, direction, sm);
            super::rules::lemma_unspread_spread(p.board(), origin.inner as int, path, sm@);
            assert(r.board() == p.board());
            lemma_stacks_from_board(p, r);
            let squares = PositionView::<S>::path_with_origin(origin, direction, n);
            let xp = super::spec_squares_hash(S as int, squares, p.stacks, n + 1);
            let xq = super::spec_squares_hash(S as int, squares, q.stacks, n + 1);
            let h = p.hash;
            assert(((((((((h ^ xp) ^ xq) ^ kp) ^ kq) ^ xq) ^ xp) ^ kq) ^ kp) == h) by (bit_vector);
            assert(r.hash_history =~= p.hash_history);
        },
    }
}

/// Two well-formed positions whose squares hold the same pieces have the same stacks.
proof fn lemma_stacks_from_board<const S: usize>(p: PositionView<S>, r: PositionView<S>)
    requires
        p.wf(),
        r.wf(),
        p.board() == r.board(),
    ensures
        p.stacks == r.stacks,
{
    assert forall|i: int| 0 <= i < p.stacks.len() implies #[trigger] p.stacks[i] == r.stacks[i] by {
        assert(p.board()[i] == r.board()[i]);
        p.stacks[i].lemma_view_injective(r.stacks[i]);
    }
    assert(p.stacks =~= r.stacks);
}

/// The position after a legal move can be taken back with the reverse move that was returned.
proof fn lemma_can_undo_after_move<const S: usize>(p: PositionView<S>, mv: Move<S>, q: PositionView<S>, rev: ReverseMoveView<S>)
    requires
        p.wf(),
        p.playable(mv),
        p.move_fits(mv),
        p.move_effect(mv, q, rev),
    ensures
        q.can_undo(rev),
{
    match mv.spec_expand() {
        ExpMove::Place(role, square) => {
            let piece = Piece::spec_from_role_color(role, p.color_to_place());
            let i = square.inner as int;
            assert(q.board()[i] == seq![piece]);
            assert(q.stacks[i]@ == seq![piece]);
            assert(q.stacks[i].wf());
            assert(q.stacks[i]@[0] == piece);
            assert(q.stacks[i].height == 1);
            assert(q.stack(square).top_stone.unwrap() == piece);
        },
        ExpMove::Move(origin, direction, sm) => {
            let ts = sm@;
            let n = ts.len();
            let path = PositionView::<S>::path(origin, direction, n);
            let b = p.board();
            p.lemma_movement_fits(origin, direction, sm);
            p.lemma_board_flats();
            super::utils::lemma_takes_below_len(sm.data, 8);
            super::rules::lemma_spread_prefix_facts(b, origin.inner as int, path, ts, n);
            super::rules::lemma_sum_left_behind(ts, n);
            let left = pieces_left_behind(ts);
            assert forall|i: int| 0 <= i < n implies #[trigger] left[i] <= q.stacks[path[i]].height by {
                assert(q.board()[path[i]] == q.stacks[path[i]]@);
            }
            assert(q.board()[origin.inner as int] == q.stacks[origin.inner as int]@);
            if flattens_wall(b, path, ts) {
                let t = path[n - 1];
                assert(q.board()[t] == q.stacks[t]@);
                super::rules::lemma_flattened_shape(b[t]);
            }
        },
    }
}

} // verus!

verus! {

impl<const S: usize> Position<S> {
    /// Whether a legal move keeps every stack within the 64 pieces a stack holds, and, in the
    /// opening, the player whose flat is placed has one left.
    pub fn move_fits(&self, mv: Move<S>) -> (b: bool)
        requires
            self.wf(),
            self@.legal_move(mv) || self@.playable(mv),
        ensures
            b == self@.move_fits(mv),
    {
        proof {
            super::square::lemma_size::<S>();
        }
        match mv.expand() {
            ExpMove::Place(_, _) => {
                if self.half_moves_played < 2 {
                    match self.to_move {
                        Color::White => self.black_stones_left > 0,
                        Color::Black => self.white_stones_left > 0,
                    }
                } else {
                    true
                }
            },
            ExpMove::Move(origin, direction, sm) => {
                let ghost ts = sm@;
                proof {
                    super::utils::lemma_takes_below_shape(sm.data, 8);
                    super::utils::lemma_takes_below_len(sm.data, 8);
                }
                let n = sm.len();
                let mut it = sm.into_iter();
                let mut i: usize = 0;
                while i < n
                    invariant
                        self.wf(),
                        self@.legal_move(mv) || self@.playable(mv),
                        mv.spec_expand() == ExpMove::Move(origin, direction, sm),
                        ts == sm@,
                        n == ts.len(),
                        i <= n,
                        it@ == ts.subrange(i as int, n as int),
                        forall|j: int| 0 <= j < ts.len() ==> 1 <= #[trigger] ts[j] <= 8,
                        forall|j: int|
                            0 <= j < i ==> self@.stack(origin.spec_jump_direction(direction, j + 1).unwrap()).height
                                + #[trigger] ts[j] <= 64,
                    decreases n - i,
                {
                    let movement = it.next().unwrap();
                    proof {
                        assert(origin.spec_jump_direction(direction, i + 1) is Some);
                        origin.lemma_jump_valid(direction, i + 1);
                    }
                    let square = origin.jump_valid_direction(direction, (i + 1) as u8);
                    let height = self.stacks[square.inner as usize].height;
                    if height as u16 + movement.pieces_to_take as u16 > 64 {
                        return false;
                    }
                    i = i + 1;
                }
                true
            },
        }
    }
}

} // verus!
