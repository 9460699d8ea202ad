//! The pieces a stack movement leaves on top of the squares it passes.
use vstd::prelude::*;

use super::square::Square;
use super::utils::{Piece, StackMovement};
use super::Position;

verus! {

/// What is left on top of the origin square when `t` pieces are taken from a stack: nothing when
/// the whole stack is taken, else the piece just below those taken.
pub open spec fn left_behind(stack: Seq<Piece>, t: nat) -> Option<Piece> {
    if stack.len() - t == 0 {
        None
    } else {
        Some(stack[stack.len() - t - 1])
    }
}

impl<const S: usize> Position<S> {
    /// For each step of a stack movement from `square`, the piece that taking its pieces from the
    /// stack there leaves on top, then the stack's top piece.
    pub fn top_stones_left_behind_by_move(&self, square: Square<S>, stack_movement: &StackMovement<S>) -> (r: Vec<
        Option<Piece>,
    >)
        requires
            self.wf(),
            square.valid(),
            forall|k: int| 0 <= k < stack_movement@.len() ==> #[trigger] stack_movement@[k] <= self@.stack(square)@.len(),
        ensures
            r@ == stack_movement@.map_values(|t: nat| left_behind(self@.stack(square)@, t)).push(
                self@.stack(square).top_stone,
            ),
    {
        let stack = self.get_stack(square);
        let ghost m = stack_movement@;
        let ghost f = |t: nat| left_behind(stack@, t);
        let mut it = stack_movement.into_iter();
        let mut r: Vec<Option<Piece>> = Vec::new();
        let ghost mut k: int = 0;
        proof {
            assert(it@ == m.skip(0));
        }
        loop
            invariant
                stack.wf(),
                stack == self@.stack(square),
                f == (|t: nat| left_behind(stack@, t)),
                forall|j: int| 0 <= j < m.len() ==> #[trigger] m[j] <= stack@.len(),
                0 <= k <= m.len(),
                it@ == m.skip(k),
                r@ == m.take(k).map_values(f),
            ensures
                r@ == m.map_values(f),
            decreases it@.len(),
        {
            match it.next() {
                None => {
                    proof {
                        assert(k == m.len());
                        assert(m.take(k) =~= m);
                        assert(r@ == m.map_values(f));
                    }
                    break;
                },
                Some(movement) => {
                    proof {
                        assert(m.skip(k)[0] == m[k]);
                    }
                    let t = movement.pieces_to_take;
                    let piece_index = stack.height - t;
                    let left = if piece_index == 0 {
                        None
                    } else {
                        stack.get(piece_index - 1)
                    };
                    r.push(left);
                    proof {
                        assert(m.take(k + 1).map_values(f) =~= m.take(k).map_values(f).push(f(m[k])));
                        assert(m.skip(k).drop_first() =~= m.skip(k + 1));
                        k = k + 1;
                    }
                },
            }
        }
        proof {
            assert(m.map_values(f) =~= stack_movement@.map_values(|t: nat| left_behind(self@.stack(square)@, t)));
        }
        r.push(stack.top_stone);
        r
    }
}

} // verus!
