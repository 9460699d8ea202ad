//! The symmetries of a position: its mirror images and rotations, and the swap of the colors.
use vstd::prelude::*;

use vstd::arithmetic::div_mod::{lemma_fundamental_div_mod, lemma_mod_pos_bound};

use super::square::{lemma_size, valid_size};
use super::utils::{Piece, Role, Stack};
use super::{Position, PositionView};

verus! {

/// The square whose stack moves to square `i`, for square number `rank + file * s`: kind 0
/// mirrors the ranks, kind 1 the files, kind 2 rotates the board a quarter turn, and any other
/// kind leaves the board as it is.
pub open spec fn square_source(kind: int, s: int, i: int) -> int {
    let rank = i % s;
    let file = i / s;
    if kind == 0 {
        file * s + (s - 1 - rank)
    } else if kind == 1 {
        (s - 1 - file) * s + rank
    } else if kind == 2 {
        rank * s + (s - 1 - file)
    } else {
        i
    }
}

/// The position with its stacks moved as `square_source` says, all else kept.
pub open spec fn rearranged<const S: usize>(p: PositionView<S>, kind: int) -> PositionView<S> {
    PositionView { stacks: Seq::new(p.stacks.len(), |i: int| p.stacks[square_source(kind, S as int, i)]), ..p }
}

/// The pieces of a stack with their colors swapped.
pub open spec fn flipped_pieces(s: Seq<Piece>) -> Seq<Piece> {
    s.map_values(|p: Piece| p.spec_flip_color())
}

/// The position with the colors of all pieces swapped, the reserves swapped and the other player
/// to move; its stacks are described by `flips_stacks`.
pub open spec fn flips_colors_of<const S: usize>(q: PositionView<S>, p: PositionView<S>) -> bool {
    &&& q.stacks.len() == p.stacks.len()
    &&& forall|i: int| 0 <= i < p.stacks.len() ==> (#[trigger] q.stacks[i])@ == flipped_pieces(p.stacks[i]@)
    &&& q.to_move == p.to_move.spec_flip()
    &&& q.white_stones_left == p.black_stones_left
    &&& q.black_stones_left == p.white_stones_left
    &&& q.white_caps_left == p.black_caps_left
    &&& q.black_caps_left == p.white_caps_left
    &&& q.half_moves_played == p.half_moves_played
    &&& q.moves == p.moves
    &&& q.komi == p.komi
    &&& q.hash == p.hash
    &&& q.hash_history == p.hash_history
}

proof fn lemma_source_in_range(kind: int, s: int, i: int)
    requires
        1 <= s <= 8,
        0 <= i < s * s,
    ensures
        0 <= i % s < s,
        0 <= i / s < s,
        0 <= square_source(kind, s, i) < s * s,
{
    lemma_fundamental_div_mod(i, s);
    lemma_mod_pos_bound(i, s);
    let rank = i % s;
    let file = i / s;
    assert(0 <= file < s) by (nonlinear_arith)
        requires
            i == s * file + rank,
            0 <= rank < s,
            0 <= i < s * s,
            s >= 1,
    ;
    assert(0 <= square_source(kind, s, i) < s * s) by (nonlinear_arith)
        requires
            0 <= rank < s,
            0 <= file < s,
            0 <= i < s * s,
            square_source(kind, s, i) == if kind == 0 {
                file * s + (s - 1 - rank)
            } else if kind == 1 {
                (s - 1 - file) * s + rank
            } else if kind == 2 {
                rank * s + (s - 1 - file)
            } else {
                i
            },
    ;
}

proof fn lemma_rearrange_uniform<const S: usize>(q: PositionView<S>, kind: int, st: Stack)
    requires
        valid_size(S),
        q.stacks.len() == S * S,
        forall|i: int| 0 <= i < S * S ==> #[trigger] q.stacks[i] == st,
    ensures
        rearranged(q, kind) == q,
{
    lemma_size::<S>();
    assert forall|i: int| 0 <= i < S * S implies #[trigger] rearranged(q, kind).stacks[i] == q.stacks[i] by {
        lemma_source_in_range(kind, S as int, i);
    }
    assert(rearranged(q, kind).stacks =~= q.stacks);
    assert(rearranged(q, kind) =~= q);
}

/// A position with no pieces on the board, such as the start position, is its own image under
/// each of the 8 symmetries.
pub proof fn lemma_empty_board_symmetric<const S: usize>(p: Position<S>)
    requires
        p.wf(),
        forall|i: int| 0 <= i < S * S ==> (#[trigger] p.stacks@[i])@.len() == 0,
    ensures
        forall|k: int| 0 <= k < 8 ==> #[trigger] p.symmetry_view(k) == p@,
{
    let q = p@;
    Stack::lemma_default_wf();
    assert forall|i: int| 0 <= i < S * S implies #[trigger] q.stacks[i] == Stack::default_spec() by {
        assert(q.stacks[i]@ =~= Stack::default_spec()@);
        q.stacks[i].lemma_view_injective(Stack::default_spec());
    }
    lemma_rearrange_uniform(q, 0, Stack::default_spec());
    lemma_rearrange_uniform(q, 1, Stack::default_spec());
    lemma_rearrange_uniform(q, 2, Stack::default_spec());
}

/// A copy of a vector.
fn copy_vec<T: Copy>(v: &Vec<T>) -> (r: Vec<T>)
    ensures
        r@ == v@,
{
    let mut r: Vec<T> = Vec::new();
    let mut i: usize = 0;
    while i < v.len()
        invariant
            i <= v.len(),
            r@ == v@.take(i as int),
        decreases v.len() - i,
    {
        r.push(v[i]);
        i = i + 1;
        assert(r@ =~= v@.take(i as int));
    }
    assert(v@.take(v.len() as int) =~= v@);
    r
}

/// The stack with the colors of its pieces swapped.
fn flip_stack_colors(s: Stack) -> (r: Stack)
    requires
        s.wf(),
    ensures
        r.wf(),
        r@ == flipped_pieces(s@),
{
    let mut r = Stack::empty();
    let mut h: u8 = 0;
    proof {
        assert(r@ =~= flipped_pieces(s@.take(0)));
    }
    while h < s.height
        invariant
            s.wf(),
            h <= s.height,
            r.wf(),
            r.height == h,
            r@ == flipped_pieces(s@.take(h as int)),
        decreases s.height - h,
    {
        let piece = s.get(h).unwrap();
        let ghost before = r@;
        proof {
            s.lemma_view_buried_flats();
            assert(r@.len() == h);
            if h > 0 {
                let last = s@[h - 1];
                assert(last.spec_role() == Role::Flat);
                assert(before.last() == last.spec_flip_color());
                assert(Stack::flattened(before) =~= before);
            } else {
                assert(Stack::flattened(before) =~= before);
            }
        }
        r.push(piece.flip_color());
        h = h + 1;
        proof {
            assert(r@ =~= flipped_pieces(s@.take(h as int)));
        }
    }
    proof {
        assert(s@.take(s.height as int) =~= s@);
    }
    r
}

impl<const S: usize> Position<S> {
    /// The position with its stacks moved as `square_source` says for `kind`.
    fn rearrange(&self, kind: u8) -> (r: Position<S>)
        requires
            self.wf(),
        ensures
            r.wf(),
            r@ == rearranged(self@, kind as int),
    {
        proof {
            lemma_size::<S>();
        }
        let n = S * S;
        let mut stacks: Vec<Stack> = Vec::new();
        let mut i: usize = 0;
        while i < n
            invariant
                self.wf(),
                n == S * S,
                9 <= n <= 64,
                valid_size(S),
                i <= n,
                stacks@.len() == i,
                forall|k: int| 0 <= k < i ==> #[trigger] stacks@[k] == self.stacks@[square_source(kind as int, S as int, k)],
                forall|k: int| 0 <= k < i ==> (#[trigger] stacks@[k]).wf(),
            decreases n - i,
        {
            proof {
                lemma_source_in_range(kind as int, S as int, i as int);
            }
            let rank = i % S;
            let file = i / S;
            let j = if kind == 0 {
                file * S + (S - 1 - rank)
            } else if kind == 1 {
                (S - 1 - file) * S + rank
            } else if kind == 2 {
                rank * S + (S - 1 - file)
            } else {
                i
            };
            proof {
                assert(j as int == square_source(kind as int, S as int, i as int));
            }
            stacks.push(self.stacks[j]);
            i = i + 1;
        }
        let r = Position {
            stacks,
            to_move: self.to_move,
            white_stones_left: self.white_stones_left,
            black_stones_left: self.black_stones_left,
            white_caps_left: self.white_caps_left,
            black_caps_left: self.black_caps_left,
            half_moves_played: self.half_moves_played,
            moves: copy_vec(&self.moves),
            komi: self.komi,
            hash: self.hash,
            hash_history: copy_vec(&self.hash_history),
        };
        proof {
            assert(r@.stacks =~= Seq::new(self@.stacks.len(), |k: int| self@.stacks[square_source(kind as int, S as int, k)]));
            assert(r@ =~= rearranged(self@, kind as int));
        }
        r
    }

    /// The position mirrored north to south: each stack moves to the other end of its file.
    pub fn flip_board_y(&self) -> (r: Position<S>)
        requires
            self.wf(),
        ensures
            r.wf(),
            r@ == rearranged(self@, 0),
    {
        self.rearrange(0)
    }

    /// The position mirrored west to east: each stack moves to the other end of its rank.
    pub fn flip_board_x(&self) -> (r: Position<S>)
        requires
            self.wf(),
        ensures
            r.wf(),
            r@ == rearranged(self@, 1),
    {
        self.rearrange(1)
    }

    /// The position turned a quarter turn.
    pub fn rotate_board(&self) -> (r: Position<S>)
        requires
            self.wf(),
        ensures
            r.wf(),
            r@ == rearranged(self@, 2),
    {
        self.rearrange(2)
    }

    /// The position with the colors of all pieces and of the reserves swapped, and the other
    /// player to move.
    pub fn flip_colors(&self) -> (r: Position<S>)
        requires
            self.wf(),
        ensures
            r.wf(),
            flips_colors_of(r@, self@),
    {
        proof {
            lemma_size::<S>();
        }
        let n = S * S;
        let mut stacks: Vec<Stack> = Vec::new();
        let mut i: usize = 0;
        while i < n
            invariant
                self.wf(),
                n == S * S,
                i <= n,
                stacks@.len() == i,
                forall|k: int| 0 <= k < i ==> (#[trigger] stacks@[k])@ == flipped_pieces(self.stacks@[k]@),
                forall|k: int| 0 <= k < i ==> (#[trigger] stacks@[k]).wf(),
            decreases n - i,
        {
            stacks.push(flip_stack_colors(self.stacks[i]));
            i = i + 1;
        }
        Position {
            stacks,
            to_move: self.to_move.flip(),
            white_stones_left: self.black_stones_left,
            black_stones_left: self.white_stones_left,
            white_caps_left: self.black_caps_left,
            black_caps_left: self.white_caps_left,
            half_moves_played: self.half_moves_played,
            moves: copy_vec(&self.moves),
            komi: self.komi,
            hash: self.hash,
            hash_history: copy_vec(&self.hash_history),
        }
    }

    /// All 8 symmetries of the board: the position itself, its two mirror images, its three
    /// rotations, and the mirror images of its quarter turn.
    pub fn symmetries(&self) -> (r: Vec<Position<S>>)
        requires
            self.wf(),
        ensures
            r.len() == 8,
            forall|k: int| 0 <= k < 8 ==> (#[trigger] r@[k]).wf(),
            r@[0]@ == self@,
            r@[1]@ == rearranged(self@, 1),
            r@[2]@ == rearranged(self@, 0),
            r@[3]@ == rearranged(self@, 2),
            r@[4]@ == rearranged(rearranged(self@, 2), 2),
            r@[5]@ == rearranged(rearranged(rearranged(self@, 2), 2), 2),
            r@[6]@ == rearranged(rearranged(self@, 2), 1),
            r@[7]@ == rearranged(rearranged(self@, 2), 0),
            forall|k: int| 0 <= k < 8 ==> (#[trigger] r@[k])@ == self.symmetry_view(k),
    {
        let same = self.rearrange(3);
        proof {
            assert(same@.stacks =~= self@.stacks);
            assert(same@ =~= self@);
        }
        let rotated = self.rotate_board();
        let rotated2 = rotated.rotate_board();
        let rotated3 = rotated2.rotate_board();
        let mut r: Vec<Position<S>> = Vec::new();
        r.push(same);
        r.push(self.flip_board_x());
        r.push(self.flip_board_y());
        r.push(rotated.rearrange(3));
        r.push(rotated2);
        r.push(rotated3);
        r.push(rotated.flip_board_x());
        r.push(rotated.flip_board_y());
        proof {
            assert(r@[3]@.stacks =~= rotated@.stacks);
            assert(r@[3]@ =~= rotated@);
            assert forall|k: int| 0 <= k < 8 implies (#[trigger] r@[k])@ == self.symmetry_view(k) by {}
        }
        r
    }

    /// All 16 symmetries of the board, counting the swap of the colors as a symmetry: each of
    /// the 8 symmetries, followed by it with its colors swapped.
    pub fn symmetries_with_swapped_colors(&self) -> (r: Vec<Position<S>>)
        requires
            self.wf(),
        ensures
            r.len() == 16,
            forall|k: int| 0 <= k < 8 ==> (#[trigger] r@[2 * k]).wf() && r@[2 * k]@ == self.symmetry_view(k),
            forall|k: int| 0 <= k < 8 ==> flips_colors_of((#[trigger] r@[2 * k + 1])@, self.symmetry_view(k)),
    {
        let syms = self.symmetries();
        let mut r: Vec<Position<S>> = Vec::new();
        let mut k: usize = 0;
        while k < 8
            invariant
                self.wf(),
                syms.len() == 8,
                forall|m: int| 0 <= m < 8 ==> (#[trigger] syms@[m]).wf(),
                forall|m: int| 0 <= m < 8 ==> (#[trigger] syms@[m])@ == self.symmetry_view(m),
                k <= 8,
                r.len() == 2 * k,
                forall|m: int| 0 <= m < k ==> (#[trigger] r@[2 * m]).wf() && r@[2 * m]@ == self.symmetry_view(m),
                forall|m: int| 0 <= m < k ==> flips_colors_of((#[trigger] r@[2 * m + 1])@, self.symmetry_view(m)),
            decreases 8 - k,
        {
            let same = syms[k].rearrange(3);
            proof {
                assert(same@.stacks =~= syms@[k as int]@.stacks);
                assert(same@ =~= syms@[k as int]@);
            }
            let flipped = syms[k].flip_colors();
            let ghost before = r@;
            r.push(same);
            r.push(flipped);
            proof {
                assert forall|m: int| 0 <= m < k + 1 implies (#[trigger] r@[2 * m]).wf() && r@[2 * m]@
                    == self.symmetry_view(m) by {
                    if m < k {
                        assert(r@[2 * m] == before[2 * m]);
                    }
                }
                assert forall|m: int| 0 <= m < k + 1 implies flips_colors_of(
                    (#[trigger] r@[2 * m + 1])@,
                    self.symmetry_view(m),
                ) by {
                    if m < k {
                        assert(r@[2 * m + 1] == before[2 * m + 1]);
                    }
                }
            }
            k = k + 1;
        }
        r
    }

    /// The symmetry number `k` of the position, in the order `symmetries` gives them.
    pub open spec fn symmetry_view(&self, k: int) -> PositionView<S> {
        if k == 0 {
            self@
        } else if k == 1 {
            rearranged(self@, 1)
        } else if k == 2 {
            rearranged(self@, 0)
        } else if k == 3 {
            rearranged(self@, 2)
        } else if k == 4 {
            rearranged(rearranged(self@, 2), 2)
        } else if k == 5 {
            rearranged(rearranged(rearranged(self@, 2), 2), 2)
        } else if k == 6 {
            rearranged(rearranged(self@, 2), 1)
        } else {
            rearranged(rearranged(self@, 2), 0)
        }
    }
}

} // verus!
