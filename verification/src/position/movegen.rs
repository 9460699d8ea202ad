//! Move generation: every legal move of a position, each listed once.
use vstd::prelude::*;

use arrayvec::ArrayVec;

use super::collections::{new_u8_array255, u8_array255_contents, u8_array255_get, u8_array255_len, u8_array255_push};
use super::mv::{ExpMove, Move};
use super::square::{valid_size, Square};
use super::utils::{bit8, lemma_bit8_ext, lemma_bit8_ops, lemma_takes_below_shape, strictly_decreasing_within, takes_below, Color, Direction, Piece, Role, StackMovement};
use super::{square, Position, PositionView};

verus! {

/// 2 to the power `n`.
pub open spec fn two_pow(n: nat) -> nat
    decreases n,
{
    if n == 0 {
        1
    } else {
        2 * two_pow((n - 1) as nat)
    }
}

proof fn lemma_two_pow_pos(n: nat)
    ensures
        two_pow(n) >= 1,
        n <= 8 ==> two_pow(n) <= 256,
    decreases n,
{
    if n > 0 {
        lemma_two_pow_pos((n - 1) as nat);
    }
    assert(two_pow(0) == 1);
    assert(two_pow(1) == 2);
    assert(two_pow(2) == 4);
    assert(two_pow(3) == 8);
    assert(two_pow(4) == 16);
    assert(two_pow(5) == 32);
    assert(two_pow(6) == 64);
    assert(two_pow(7) == 128);
    assert(two_pow(8) == 256);
    if n <= 8 {
        lemma_two_pow_step(8);
    }
}

/// Bytes with the same piece counts are equal.
pub proof fn lemma_takes_injective(a: u8, b: u8)
    requires
        takes_below(a, 8) == takes_below(b, 8),
    ensures
        a == b,
{
    lemma_takes_below_shape(a, 8);
    lemma_takes_below_shape(b, 8);
    assert forall|j: u8| j < 8 implies #[trigger] bit8(a, j) == bit8(b, j) by {
        let t = (j + 1) as nat;
        assert(takes_below(a, 8).contains(t) == bit8(a, j));
        assert(takes_below(b, 8).contains(t) == bit8(b, j));
    }
    lemma_bit8_ext(a, b);
}

/// A byte fits an `S`x`S` board exactly when its piece counts are at most `S`.
pub proof fn lemma_fits_iff_counts<const S: usize>(x: u8)
    requires
        valid_size(S),
    ensures
        StackMovement::<S>::fits(x) <==> (forall|i: int| 0 <= i < takes_below(x, 8).len() ==> #[trigger] takes_below(x, 8)[i] <= S),
{
    let s = S as u8;
    lemma_takes_below_shape(x, 8);
    let ts = takes_below(x, 8);
    if S < 8 {
        assert((x >> s == 0) == ((s <= 0 ==> (x >> 0u8) & 1u8 == 0) && (s <= 1 ==> (x >> 1u8) & 1u8 == 0)
            && (s <= 2 ==> (x >> 2u8) & 1u8 == 0) && (s <= 3 ==> (x >> 3u8) & 1u8 == 0) && (s <= 4 ==> (x
            >> 4u8) & 1u8 == 0) && (s <= 5 ==> (x >> 5u8) & 1u8 == 0) && (s <= 6 ==> (x >> 6u8) & 1u8 == 0)
            && (s <= 7 ==> (x >> 7u8) & 1u8 == 0))) by (bit_vector)
            requires
                s < 8,
        ;
        assert forall|j: u8| j < 8 implies ((x >> j) & 1u8 == 0) == !#[trigger] bit8(x, j) by {
            lemma_bit8_ops(x, 0, j);
        }
        if StackMovement::<S>::fits(x) {
            assert forall|i: int| 0 <= i < ts.len() implies #[trigger] ts[i] <= S by {
                let t = ts[i];
                assert(ts.contains(t));
                assert(bit8(x, (t - 1) as u8));
            }
        }
        if forall|i: int| 0 <= i < ts.len() ==> #[trigger] ts[i] <= S {
            assert forall|j: u8| s <= j < 8 implies !#[trigger] bit8(x, j) by {
                if bit8(x, j) {
                    assert(ts.contains((j + 1) as nat));
                    let i = choose|i: int| 0 <= i < ts.len() && ts[i] == (j + 1) as nat;
                    assert(ts[i] > S);
                }
            }
            assert(!bit8(x, 7) || s > 7);
            assert(!bit8(x, 6) || s > 6);
            assert(!bit8(x, 5) || s > 5);
            assert(!bit8(x, 4) || s > 4);
            assert(!bit8(x, 3) || s > 3);
        }
    }
}

impl<const S: usize> PositionView<S> {
    /// The top piece of a square is a flat, or there is none.
    pub open spec fn passable(self, square: Square<S>) -> bool {
        match self.top(square) {
            None => true,
            Some(p) => p.spec_role() == Role::Flat,
        }
    }

    /// The counts of pieces carried so far along a spread, all steps on passable squares.
    pub open spec fn valid_prefix(self, origin: Square<S>, direction: Direction, pre: Seq<nat>) -> bool {
        &&& strictly_decreasing_within(pre, S as nat)
        &&& pre.len() > 0 ==> pre[0] <= self.stack(origin).height
        &&& forall|i: int| 0 <= i < pre.len() ==> (#[trigger] origin.spec_jump_direction(direction, i + 1)) is Some
        &&& forall|i: int| 0 <= i < pre.len() ==> self.passable(#[trigger] origin.spec_jump_direction(direction, i + 1).unwrap())
    }

    /// The counts `ts` describe a spread from `origin` that follows the rules: all squares but
    /// the last are passable, and the last is passable or a wall that a lone capstone flattens.
    pub open spec fn valid_spread(self, origin: Square<S>, direction: Direction, ts: Seq<nat>) -> bool {
        let n = ts.len();
        &&& n >= 1
        &&& self.valid_prefix(origin, direction, ts.subrange(0, n - 1))
        &&& strictly_decreasing_within(ts, S as nat)
        &&& ts[0] <= self.stack(origin).height
        &&& origin.spec_jump_direction(direction, n as int) is Some
        &&& match self.top(origin.spec_jump_direction(direction, n as int).unwrap()) {
            None => true,
            Some(p) => p.spec_role() == Role::Flat || (p.spec_role() == Role::Wall && self.top(
                origin,
            ).unwrap().spec_role() == Role::Cap && ts[n - 1] == 1),
        }
    }
}

/// `p` is a prefix of `q`.
pub open spec fn is_prefix(p: Seq<nat>, q: Seq<nat>) -> bool {
    p.len() <= q.len() && q.subrange(0, p.len() as int) == p
}

/// `x` describes a rule-following spread that continues the counts `pre`.
pub open spec fn continues<const S: usize>(pos: PositionView<S>, origin: Square<S>, direction: Direction, pre: Seq<nat>, x: u8) -> bool {
    &&& x != 0
    &&& is_prefix(pre, takes_below(x, 8))
    &&& takes_below(x, 8).len() > pre.len()
    &&& pos.valid_spread(origin, direction, takes_below(x, 8))
}

/// The most pieces that can be carried on from the current square.
pub open spec fn max_take_spec(k: nat, carried: nat, size: nat) -> nat {
    if k == 0 {
        if carried < size { carried } else { size }
    } else {
        if carried - 1 < size { (carried - 1) as nat } else { size }
    }
}

proof fn lemma_two_pow_step(n: nat)
    ensures
        two_pow(n + 1) == 2 * two_pow(n),
        forall|m: nat| m <= n ==> #[trigger] two_pow(m) <= two_pow(n),
    decreases n,
{
    if n > 0 {
        lemma_two_pow_step((n - 1) as nat);
        assert forall|m: nat| m <= n implies #[trigger] two_pow(m) <= two_pow(n) by {
            if m < n {
                assert(two_pow(m) <= two_pow((n - 1) as nat));
            }
        }
    }
}

impl<const S: usize> PositionView<S> {
    /// Continuing a spread beyond step `k` needs the square `k + 1` steps away.
    proof fn lemma_continue_needs_square(self, origin: Square<S>, direction: Direction, pre: Seq<nat>, x: u8)
        requires
            valid_size(S),
            origin.valid(),
            continues(self, origin, direction, pre, x),
        ensures
            origin.spec_jump_direction(direction, pre.len() as int + 1) is Some,
            takes_below(x, 8).len() > pre.len() + 1 ==> self.passable(origin.spec_jump_direction(direction, pre.len() as int + 1).unwrap()),
            takes_below(x, 8)[pre.len() as int] <= S,
            pre.len() > 0 ==> takes_below(x, 8)[pre.len() as int] < pre[pre.len() - 1],
            pre.len() == 0 ==> takes_below(x, 8)[0] <= self.stack(origin).height,
    {
        let ts = takes_below(x, 8);
        let k = pre.len() as int;
        let n = ts.len();
        if n > k + 1 {
            let sub = ts.subrange(0, n - 1);
            assert(sub[k] == ts[k]);
            assert(origin.spec_jump_direction(direction, k + 1) is Some);
        }
        if k > 0 {
            assert(ts[k - 1] == pre[k - 1]);
        }
    }

    /// The counts `pre` followed by `take`, ending on a passable square, form a rule-following spread.
    proof fn lemma_finish_on_passable(self, origin: Square<S>, direction: Direction, pre: Seq<nat>, take: nat)
        requires
            valid_size(S),
            pre.len() == 0 || self.valid_prefix(origin, direction, pre),
            1 <= take <= S,
            pre.len() > 0 ==> take < pre[pre.len() - 1],
            pre.len() == 0 ==> take <= self.stack(origin).height,
            origin.spec_jump_direction(direction, pre.len() as int + 1) is Some,
            self.passable(origin.spec_jump_direction(direction, pre.len() as int + 1).unwrap()),
        ensures
            self.valid_prefix(origin, direction, pre.push(take)),
            self.valid_spread(origin, direction, pre.push(take)),
    {
        let ts = pre.push(take);
        assert(ts.subrange(0, ts.len() - 1) =~= pre);
        assert forall|i: int, j: int| 0 <= i < j < ts.len() implies #[trigger] ts[i] > #[trigger] ts[j] by {
            if j == ts.len() - 1 && i < j {
                if i < pre.len() - 1 {
                    assert(pre[i] > pre[pre.len() - 1]);
                }
            }
        }
    }
}

impl<const S: usize> Position<S> {
    /// Adds to `movements` every spread that continues the partial one, which has carried
    /// `pieces_carried` pieces onto `square`, `k` steps from the origin. The spreads that
    /// continue to the next square are listed before the one that stops there, for each number
    /// of pieces carried on, smallest first.
    #[verifier::rlimit(60)]
    fn generate_spreads(
        &self,
        direction: Direction,
        origin: Square<S>,
        square: Square<S>,
        k: usize,
        pieces_carried: u8,
        partial: StackMovement<S>,
        is_cap: bool,
        movements: &mut ArrayVec<u8, 255>,
    )
        requires
            self.wf(),
            origin.valid(),
            self@.top(origin) is Some,
            is_cap == (self@.top(origin).unwrap().spec_role() == Role::Cap),
            k < 8,
            origin.spec_jump_direction(direction, k as int) == Some(square),
            partial@.len() == k,
            k == 0 ==> pieces_carried == self@.stack(origin).height && partial.data == 0,
            k > 0 ==> pieces_carried == partial@[k - 1] && self@.valid_prefix(origin, direction, partial@),
            forall|j: u8| j < 8 && j + 1 < pieces_carried ==> !#[trigger] bit8(partial.data, j),
            u8_array255_contents(*old(movements)).len() + two_pow(max_take_spec(k as nat, pieces_carried as nat, S as nat)) - 1 <= 255,
        ensures
            ({
                let before = u8_array255_contents(*old(movements));
                let after = u8_array255_contents(*final(movements));
                let seg = after.skip(before.len() as int);
                &&& after.len() >= before.len()
                &&& after.subrange(0, before.len() as int) == before
                &&& seg.len() <= two_pow(max_take_spec(k as nat, pieces_carried as nat, S as nat)) - 1
                &&& forall|x: u8| #[trigger] seg.contains(x) <==> continues(self@, origin, direction, partial@, x)
            }),
        decreases 8 - k,
    {
        let ghost before = u8_array255_contents(*movements);
        let ghost pre = partial@;
        proof {
            origin.lemma_jump_valid(direction, k as int);
            origin.lemma_jump_step(direction, k as int);
            lemma_takes_below_shape(partial.data, 8);
            lemma_two_pow_pos(max_take_spec(k as nat, pieces_carried as nat, S as nat));
            if k == 0 {
                assert forall|j: u8| j < 8 implies !#[trigger] bit8(partial.data, j) by {
                    lemma_bit8_ops(0, 0, j);
                }
            }
        }
        let max_take: u8 = if k == 0 {
            if pieces_carried < S as u8 { pieces_carried } else { S as u8 }
        } else {
            if pieces_carried - 1 < S as u8 { pieces_carried - 1 } else { S as u8 }
        };
        let neighbour = match square.go_direction_const(direction) {
            None => {
                proof {
                    assert(u8_array255_contents(*movements).skip(before.len() as int) =~= Seq::<u8>::empty());
                    assert(u8_array255_contents(*movements).subrange(0, before.len() as int) =~= before);
                    assert forall|x: u8| !continues(self@, origin, direction, pre, x) by {
                        if continues(self@, origin, direction, pre, x) {
                            self@.lemma_continue_needs_square(origin, direction, pre, x);
                        }
                    }
                }
                return;
            },
            Some(neighbour) => neighbour,
        };
        proof {
            origin.lemma_jump_valid(direction, k as int + 1);
            assert(k + 1 < 8);
        }
        let neighbour_piece = self.stacks[neighbour.inner as usize].top_stone;
        let blocked = match neighbour_piece {
            None => false,
            Some(pc) => if is_cap { pc.role() == Role::Cap } else { pc.role() != Role::Flat },
        };
        if blocked {
            proof {
                assert(u8_array255_contents(*movements).skip(before.len() as int) =~= Seq::<u8>::empty());
                assert(u8_array255_contents(*movements).subrange(0, before.len() as int) =~= before);
                assert forall|x: u8| !continues(self@, origin, direction, pre, x) by {
                    if continues(self@, origin, direction, pre, x) {
                        self@.lemma_continue_needs_square(origin, direction, pre, x);
                    }
                }
            }
            return;
        }
        let onto_wall = match neighbour_piece {
            None => false,
            Some(pc) => pc.role() == Role::Wall,
        };
        if onto_wall && max_take > 0 {
            // Only the capstone alone may move onto a wall, flattening it.
            let new_movement = partial.with_take(1);
            u8_array255_push(movements, new_movement.data);
            proof {
                let after = u8_array255_contents(*movements);
                let seg = after.skip(before.len() as int);
                assert(seg =~= seq![new_movement.data]);
                assert(after.subrange(0, before.len() as int) =~= before);
                lemma_two_pow_step(0);
                lemma_two_pow_step(max_take as nat);
                assert(takes_below(new_movement.data, 8) == pre.push(1));
                assert(pre.push(1).subrange(0, k as int) =~= pre);
                assert(pre.push(1).subrange(0, pre.push(1).len() - 1) =~= pre);
                lemma_takes_below_shape(new_movement.data, 8);
                assert forall|x: u8| #[trigger] seg.contains(x) <==> continues(self@, origin, direction, pre, x) by {
                    if continues(self@, origin, direction, pre, x) {
                        self@.lemma_continue_needs_square(origin, direction, pre, x);
                        let ts = takes_below(x, 8);
                        assert(ts.len() == k + 1);
                        assert(ts =~= pre.push(1));
                        lemma_takes_injective(x, new_movement.data);
                        assert(seg[0] == x);
                    }
                    if seg.contains(x) {
                        assert(x == new_movement.data);
                        lemma_bit8_ops(partial.data, 0, 0);
                        assert(bit8(x, 0));
                        if x == 0 {
                            lemma_bit8_ops(0, 0, 0);
                        }
                    }
                }
            }
            return;
        }
        let mut take: u8 = 1;
        while take <= max_take
            invariant
                self.wf(),
                origin.valid(),
                valid_size(S),
                self@.top(origin) is Some,
                is_cap == (self@.top(origin).unwrap().spec_role() == Role::Cap),
                k + 1 < 8,
                pre == partial@,
                pre.len() == k,
                k == 0 ==> pieces_carried == self@.stack(origin).height && partial.data == 0,
                k > 0 ==> pieces_carried == pre[k - 1] && self@.valid_prefix(origin, direction, pre),
                forall|j: u8| j < 8 && j + 1 < pieces_carried ==> !#[trigger] bit8(partial.data, j),
                k == 0 ==> forall|j: u8| j < 8 ==> !#[trigger] bit8(partial.data, j),
                max_take == max_take_spec(k as nat, pieces_carried as nat, S as nat),
                max_take <= S,
                1 <= take <= max_take + 1,
                origin.spec_jump_direction(direction, k as int + 1) == Some(neighbour),
                neighbour.valid(),
                max_take > 0 ==> self@.passable(neighbour),
                before.len() + two_pow(max_take as nat) - 1 <= 255,
                ({
                    let after = u8_array255_contents(*movements);
                    let seg = after.skip(before.len() as int);
                    &&& after.len() >= before.len()
                    &&& after.subrange(0, before.len() as int) == before
                    &&& seg.len() <= two_pow((take - 1) as nat) - 1
                    &&& forall|x: u8| #[trigger] seg.contains(x) <==> (continues(self@, origin, direction, pre, x)
                        && takes_below(x, 8)[k as int] < take)
                }),
            decreases max_take + 1 - take,
        {
            let ghost mid = u8_array255_contents(*movements);
            proof {
                lemma_two_pow_step((take - 1) as nat);
                lemma_two_pow_step(max_take as nat);
                lemma_two_pow_pos((take - 1) as nat);
                assert(two_pow(take as nat) <= two_pow(max_take as nat));
                if k > 0 {
                    assert(take < pieces_carried);
                }
            }
            let new_movement = partial.with_take(take);
            proof {
                lemma_takes_below_shape(new_movement.data, 8);
                assert(new_movement@ == pre.push(take as nat));
                assert forall|j: u8| j < 8 && j + 1 < take implies !#[trigger] bit8(new_movement.data, j) by {
                    lemma_bit8_ops(partial.data, (take - 1) as u8, j);
                }
                self@.lemma_finish_on_passable(origin, direction, pre, take as nat);
                assert(max_take_spec((k + 1) as nat, take as nat, S as nat) == (take - 1) as nat);
            }
            self.generate_spreads(direction, origin, neighbour, k + 1, take, new_movement, is_cap, movements);
            let ghost mid2 = u8_array255_contents(*movements);
            u8_array255_push(movements, new_movement.data);
            proof {
                let after = u8_array255_contents(*movements);
                let seg = after.skip(before.len() as int);
                let old_seg = mid.skip(before.len() as int);
                let child = mid2.skip(mid.len() as int);
                assert(seg =~= old_seg + child + seq![new_movement.data]);
                assert(after.subrange(0, before.len() as int) =~= before) by {
                    assert(mid2.subrange(0, mid.len() as int) == mid);
                    assert(mid.subrange(0, before.len() as int) == before);
                }
                let npre = pre.push(take as nat);
                assert forall|x: u8| #[trigger] seg.contains(x) <==> (continues(self@, origin, direction, pre, x)
                    && takes_below(x, 8)[k as int] < take + 1) by {
                    let ts = takes_below(x, 8);
                    if continues(self@, origin, direction, pre, x) && ts[k as int] < take + 1 {
                        if ts[k as int] < take {
                            assert(old_seg.contains(x));
                            let i = choose|i: int| 0 <= i < old_seg.len() && old_seg[i] == x;
                            assert(seg[i] == x);
                        } else if ts.len() == k + 1 {
                            assert(ts =~= npre);
                            lemma_takes_injective(x, new_movement.data);
                            assert(seg[seg.len() - 1] == x);
                        } else {
                            assert(ts.subrange(0, k as int + 1) =~= npre);
                            assert(continues(self@, origin, direction, npre, x));
                            assert(child.contains(x));
                            let i = choose|i: int| 0 <= i < child.len() && child[i] == x;
                            assert(seg[old_seg.len() + i] == x);
                        }
                    }
                    if seg.contains(x) {
                        let i = choose|i: int| 0 <= i < seg.len() && seg[i] == x;
                        if i < old_seg.len() {
                            assert(old_seg.contains(x));
                        } else if i < old_seg.len() + child.len() {
                            assert(child[i - old_seg.len()] == x);
                            assert(child.contains(x));
                            assert(ts.subrange(0, k as int + 1) == npre);
                            assert(ts.subrange(0, k as int) =~= pre) by {
                                assert(npre.subrange(0, k as int) =~= pre);
                            }
                            assert(ts[k as int] == npre[k as int]);
                        } else {
                            assert(x == new_movement.data);
                            assert(ts == npre);
                            assert(npre.subrange(0, k as int) =~= pre);
                            assert(ts.len() > 0);
                            lemma_bit8_ops(partial.data, (take - 1) as u8, (take - 1) as u8);
                            lemma_bit8_ops(0, 0, (take - 1) as u8);
                        }
                    }
                }
            }
            take = take + 1;
        }
        proof {
            let after = u8_array255_contents(*movements);
            let seg = after.skip(before.len() as int);
            assert forall|x: u8| #[trigger] seg.contains(x) <==> continues(self@, origin, direction, pre, x) by {
                if continues(self@, origin, direction, pre, x) {
                    self@.lemma_continue_needs_square(origin, direction, pre, x);
                    let ts = takes_below(x, 8);
                    if k > 0 {
                        assert(ts[k as int] < pieces_carried);
                    }
                    if ts.len() == k + 1 && max_take == 0 {
                        assert(false);
                    }
                }
            }
        }
    }
}

impl<const S: usize> PositionView<S> {
    /// The moves of one square that follow the rules from the third ply on: placements on an
    /// empty square while the side to move has pieces of that kind left, and stack movements.
    pub open spec fn square_move_rules(self, mv: Move<S>, square: Square<S>) -> bool {
        &&& mv.wf()
        &&& mv.spec_square() == square
        &&& match mv.spec_expand() {
            ExpMove::Place(role, sq) => {
                &&& self.stack(sq).height == 0
                &&& if role == Role::Cap {
                    self.caps_left(self.to_move) > 0
                } else {
                    self.stones_left(self.to_move) > 0
                }
            },
            ExpMove::Move(origin, direction, sm) => self.movement_rules(origin, direction, sm),
        }
    }

    /// A well-formed stack movement from `square` in `direction` that follows the rules.
    pub open spec fn is_spread_from(self, mv: Move<S>, square: Square<S>, direction: Direction) -> bool {
        &&& mv.wf()
        &&& match mv.spec_expand() {
            ExpMove::Move(o, d, sm) => o == square && d == direction && self.movement_rules(o, d, sm),
            ExpMove::Place(_, _) => false,
        }
    }

    /// The rules of a movement, stated through its piece counts.
    pub proof fn lemma_movement_rules_continues(self, origin: Square<S>, direction: Direction, x: u8)
        requires
            self.wf(),
            origin.valid(),
        ensures
            self.movement_rules(origin, direction, StackMovement { data: x }) <==> (
                self.top(origin) matches Some(p) && p.spec_color() == self.to_move
                && continues(self, origin, direction, Seq::empty(), x)),
    {
        let ts = takes_below(x, 8);
        let sm = StackMovement::<S> { data: x };
        assert(sm@ == ts);
        lemma_takes_below_shape(x, 8);
        lemma_fits_iff_counts::<S>(x);
        let n = ts.len();
        if x == 0 {
            assert forall|j: u8| j < 8 implies !#[trigger] bit8(x, j) by {
                lemma_bit8_ops(0, 0, j);
            }
            super::utils::lemma_takes_below_skip(x, 8, 0);
            assert(n == 0);
        } else {
            super::utils::lemma_highest_bit(x);
            let lz = vstd::std_specs::bits::u8_leading_zeros(x);
            assert(ts.contains((8 - lz) as nat));
            assert(n > 0);
        }
        assert(is_prefix(Seq::empty(), ts)) by {
            assert(ts.subrange(0, 0) =~= Seq::<nat>::empty());
        }
        if n >= 1 {
            let sub = ts.subrange(0, n - 1);
            if self.movement_rules(origin, direction, sm) {
                assert(StackMovement::<S>::fits(x));
                assert(strictly_decreasing_within(ts, S as nat));
                assert(self.valid_prefix(origin, direction, sub)) by {
                    assert forall|i: int, j: int| 0 <= i < j < sub.len() implies #[trigger] sub[i] > #[trigger] sub[j] by {
                        assert(sub[i] == ts[i] && sub[j] == ts[j]);
                    }
                    assert forall|i: int| 0 <= i < sub.len() implies (#[trigger] origin.spec_jump_direction(direction, i + 1)) is Some by {
                        assert(origin.spec_jump_direction(direction, i + 1) is Some);
                    }
                    assert forall|i: int| 0 <= i < sub.len() implies self.passable(#[trigger] origin.spec_jump_direction(direction, i + 1).unwrap()) by {
                        assert(origin.spec_jump_direction(direction, i + 1) is Some);
                    }
                }
                let k = n - 1;
                assert(origin.spec_jump_direction(direction, k + 1) is Some);
                assert(self.valid_spread(origin, direction, ts));
                assert(continues(self, origin, direction, Seq::empty(), x));
            }
            if (self.top(origin) matches Some(p) && p.spec_color() == self.to_move) && continues(self, origin, direction, Seq::empty(), x) {
                assert(self.valid_spread(origin, direction, ts));
                assert(self.valid_prefix(origin, direction, sub));
                assert forall|i: int| 0 <= i < n implies (#[trigger] origin.spec_jump_direction(direction, i + 1)) is Some by {
                    if i < n - 1 {
                        assert(sub[i] == ts[i]);
                        assert(origin.spec_jump_direction(direction, i + 1) is Some);
                    } else {
                        assert(i + 1 == n);
                    }
                }
                assert forall|i: int| 0 <= i < n - 1 implies match #[trigger] self.top(origin.spec_jump_direction(direction, i + 1).unwrap()) {
                    None => true,
                    Some(p) => p.spec_role() == Role::Flat,
                } by {
                    assert(self.passable(origin.spec_jump_direction(direction, i + 1).unwrap()));
                }
                assert(StackMovement::<S>::fits(x));
                assert(self.movement_rules(origin, direction, sm));
            }
        }
    }
}

impl<const S: usize> Position<S> {
    /// Adds every stack movement from `square` in `direction`.
    fn push_spreads(&self, square: Square<S>, direction: Direction, moves: &mut Vec<Move<S>>)
        requires
            self.wf(),
            square.valid(),
            self@.top(square) matches Some(p) && p.spec_color() == self.to_move,
        ensures
            final(moves)@.len() >= old(moves)@.len(),
            final(moves)@.subrange(0, old(moves)@.len() as int) == old(moves)@,
            forall|mv: Move<S>| #[trigger] final(moves)@.skip(old(moves)@.len() as int).contains(mv) <==> self@.is_spread_from(mv, square, direction),
    {
        let ghost before = moves@;
        let top = self.stacks[square.inner as usize].top_stone.unwrap();
        let is_cap = top.role() == Role::Cap;
        let mut movements = new_u8_array255();
        proof {
            square.lemma_jump_step(direction, 0);
            square::lemma_size::<S>();
            lemma_two_pow_pos(max_take_spec(0, self@.stack(square).height as nat, S as nat));
            lemma_two_pow_step(8);
            lemma_takes_below_shape(0, 8);
            assert(forall|j: u8| j < 8 ==> !#[trigger] bit8(0u8, j)) by {
                assert forall|j: u8| j < 8 implies !#[trigger] bit8(0u8, j) by {
                    lemma_bit8_ops(0, 0, j);
                }
            }
            super::utils::lemma_takes_below_skip(0, 8, 0);
            assert forall|j: u8| j < 8 && j + 1 < self@.stack(square).height implies !#[trigger] bit8(0u8, j) by {
                lemma_bit8_ops(0, 0, j);
            }
        }
        self.generate_spreads(direction, square, square, 0, self.stacks[square.inner as usize].height, StackMovement::new(), is_cap, &mut movements);
        let ghost found = u8_array255_contents(movements);
        proof {
            assert(found.skip(0) =~= found);
        }
        let n = u8_array255_len(&movements);
        let mut i: usize = 0;
        while i < n
            invariant
                self.wf(),
                square.valid(),
                valid_size(S),
                n == found.len(),
                found == u8_array255_contents(movements),
                i <= n,
                forall|x: u8| #[trigger] found.contains(x) <==> continues(self@, square, direction, Seq::empty(), x),
                moves@.len() == before.len() + i,
                moves@.subrange(0, before.len() as int) == before,
                forall|j: int| 0 <= j < i ==> (#[trigger] moves@[before.len() + j]).wf() && moves@[before.len() + j].spec_expand()
                    == ExpMove::Move(square, direction, StackMovement::<S> { data: found[j] }),
            decreases n - i,
        {
            let data = u8_array255_get(&movements, i);
            proof {
                assert(found.contains(data));
                lemma_fits_iff_counts::<S>(data);
                lemma_takes_below_shape(data, 8);
            }
            moves.push(Move::movement(square, direction, StackMovement::from_u8(data)));
            i = i + 1;
        }
        proof {
            let seg = moves@.skip(before.len() as int);
            assert forall|mv: Move<S>| #[trigger] seg.contains(mv) <==> self@.is_spread_from(mv, square, direction) by {
                if seg.contains(mv) {
                    let j = choose|j: int| 0 <= j < seg.len() && seg[j] == mv;
                    assert(moves@[before.len() + j] == mv);
                    assert(found.contains(found[j]));
                    self@.lemma_movement_rules_continues(square, direction, found[j]);
                }
                if self@.is_spread_from(mv, square, direction) {
                    let sm = StackMovement::<S> { data: (mv.inner >> 8u16) as u8 };
                    self@.lemma_movement_rules_continues(square, direction, sm.data);
                    assert(found.contains(sm.data));
                    let j = choose|j: int| 0 <= j < found.len() && found[j] == sm.data;
                    let other = moves@[before.len() + j];
                    mv.lemma_expand_injective(other);
                    assert(seg[j] == mv);
                }
            }
        }
    }
}

impl<const S: usize> Position<S> {
    /// Adds the placements and stack movements of one square, following the rules from the
    /// third ply on.
    pub fn generate_moves_for_square(&self, square: Square<S>, moves: &mut Vec<Move<S>>)
        requires
            self.wf(),
            square.valid(),
        ensures
            final(moves)@.len() >= old(moves)@.len(),
            final(moves)@.subrange(0, old(moves)@.len() as int) == old(moves)@,
            forall|mv: Move<S>| #[trigger] final(moves)@.skip(old(moves)@.len() as int).contains(mv) <==> self@.square_move_rules(mv, square),
    {
        let ghost before = moves@;
        let stack = self.stacks[square.inner as usize];
        let us = self.to_move;
        match stack.top_stone {
            None => {
                let stones = if us == Color::White { self.white_stones_left } else { self.black_stones_left };
                let caps = if us == Color::White { self.white_caps_left } else { self.black_caps_left };
                if stones > 0 {
                    moves.push(Move::placement(Role::Flat, square));
                    moves.push(Move::placement(Role::Wall, square));
                }
                if caps > 0 {
                    moves.push(Move::placement(Role::Cap, square));
                }
                proof {
                    let seg = moves@.skip(before.len() as int);
                    assert(moves@.subrange(0, before.len() as int) =~= before);
                    assert forall|mv: Move<S>| #[trigger] seg.contains(mv) <==> self@.square_move_rules(mv, square) by {
                        if seg.contains(mv) {
                            let j = choose|j: int| 0 <= j < seg.len() && seg[j] == mv;
                            assert(moves@[before.len() + j] == mv);
                        }
                        if self@.square_move_rules(mv, square) {
                            match mv.spec_expand() {
                                ExpMove::Place(role, sq) => {
                                    assert(sq == square);
                                    if stones > 0 {
                                        if role == Role::Flat {
                                            mv.lemma_expand_injective(seg[0]);
                                        } else if role == Role::Wall {
                                            mv.lemma_expand_injective(seg[1]);
                                        } else {
                                            mv.lemma_expand_injective(seg[2]);
                                        }
                                    } else {
                                        mv.lemma_expand_injective(seg[0]);
                                    }
                                },
                                ExpMove::Move(o, d, sm) => {
                                    assert(o == square);
                                },
                            }
                        }
                    }
                }
            },
            Some(piece) => {
                if piece.color() == us {
                    let ghost m0 = moves@;
                    self.push_spreads(square, Direction::North, moves);
                    let ghost m1 = moves@;
                    self.push_spreads(square, Direction::West, moves);
                    let ghost m2 = moves@;
                    self.push_spreads(square, Direction::East, moves);
                    let ghost m3 = moves@;
                    self.push_spreads(square, Direction::South, moves);
                    proof {
                        let m4 = moves@;
                        let s1 = m1.skip(m0.len() as int);
                        let s2 = m2.skip(m1.len() as int);
                        let s3 = m3.skip(m2.len() as int);
                        let s4 = m4.skip(m3.len() as int);
                        let seg = m4.skip(before.len() as int);
                        assert(seg =~= s1 + s2 + s3 + s4) by {
                            assert(m4.subrange(0, m3.len() as int) == m3);
                            assert(m3.subrange(0, m2.len() as int) == m2);
                            assert(m2.subrange(0, m1.len() as int) == m1);
                        }
                        assert(m4.subrange(0, before.len() as int) =~= before) by {
                            assert(m4.subrange(0, m3.len() as int) == m3);
                            assert(m3.subrange(0, m2.len() as int) == m2);
                            assert(m2.subrange(0, m1.len() as int) == m1);
                            assert(m1.subrange(0, m0.len() as int) == m0);
                        }
                        assert forall|mv: Move<S>| #[trigger] seg.contains(mv) <==> self@.square_move_rules(mv, square) by {
                            if seg.contains(mv) {
                                let j = choose|j: int| 0 <= j < seg.len() && seg[j] == mv;
                                if j < s1.len() {
                                    assert(s1.contains(mv));
                                } else if j < s1.len() + s2.len() {
                                    assert(s2[j - s1.len()] == mv);
                                    assert(s2.contains(mv));
                                } else if j < s1.len() + s2.len() + s3.len() {
                                    assert(s3[j - s1.len() - s2.len()] == mv);
                                    assert(s3.contains(mv));
                                } else {
                                    assert(s4[j - s1.len() - s2.len() - s3.len()] == mv);
                                    assert(s4.contains(mv));
                                }
                            }
                            if self@.square_move_rules(mv, square) {
                                match mv.spec_expand() {
                                    ExpMove::Place(role, sq) => {
                                        assert(sq == square);
                                    },
                                    ExpMove::Move(o, d, sm) => {
                                        assert(o == square);
                                        match d {
                                            Direction::North => {
                                                assert(s1.contains(mv));
                                                let i = choose|i: int| 0 <= i < s1.len() && s1[i] == mv;
                                                assert(seg[i] == mv);
                                            },
                                            Direction::West => {
                                                assert(s2.contains(mv));
                                                let i = choose|i: int| 0 <= i < s2.len() && s2[i] == mv;
                                                assert(seg[s1.len() + i] == mv);
                                            },
                                            Direction::East => {
                                                assert(s3.contains(mv));
                                                let i = choose|i: int| 0 <= i < s3.len() && s3[i] == mv;
                                                assert(seg[s1.len() + s2.len() + i] == mv);
                                            },
                                            Direction::South => {
                                                assert(s4.contains(mv));
                                                let i = choose|i: int| 0 <= i < s4.len() && s4[i] == mv;
                                                assert(seg[s1.len() + s2.len() + s3.len() + i] == mv);
                                            },
                                        }
                                    },
                                }
                            }
                        }
                    }
                } else {
                    proof {
                        assert(moves@.skip(before.len() as int) =~= Seq::<Move<S>>::empty());
                        assert(moves@.subrange(0, before.len() as int) =~= before);
                        assert forall|mv: Move<S>| !self@.square_move_rules(mv, square) by {
                            if self@.square_move_rules(mv, square) {
                                match mv.spec_expand() {
                                    ExpMove::Place(role, sq) => {
                                        assert(sq == square);
                                    },
                                    ExpMove::Move(o, d, sm) => {
                                        assert(o == square);
                                    },
                                }
                            }
                        }
                    }
                }
            },
        }
    }

    /// Adds all legal moves to the provided vector. Some notes on the interpretation of the rules:
    /// * Suicide moves are considered legal, and are generated like any other move.
    /// This includes moves that complete a road for the opponent without creating an own road,
    /// and moves that fill the board when that would result in an immediate loss.
    ///
    /// * Capstones are not counted towards a flat win, but all capstones must also be placed to trigger a flat win.
    ///
    /// * A game is considered a draw after a three-fold repetition of the same position.
    pub fn generate_moves(&self, moves: &mut Vec<Move<S>>)
        requires
            self.wf(),
        ensures
            final(moves)@.len() >= old(moves)@.len(),
            final(moves)@.subrange(0, old(moves)@.len() as int) == old(moves)@,
            forall|mv: Move<S>| #[trigger] final(moves)@.skip(old(moves)@.len() as int).contains(mv) <==> self@.legal_move(mv),
    {
        let ghost before = moves@;
        let squares = super::squares_iterator::<S>();
        proof {
            square::lemma_size::<S>();
        }
        let n = squares.len();
        let mut i: usize = 0;
        let opening = self.half_moves_played < 2;
        while i < n
            invariant
                self.wf(),
                valid_size(S),
                n == S * S,
                squares.len() == n,
                forall|k: int| 0 <= k < n ==> (#[trigger] squares@[k]).inner == k && squares@[k].valid(),
                i <= n,
                opening == (self.half_moves_played < 2),
                moves@.len() >= before.len(),
                moves@.subrange(0, before.len() as int) == before,
                forall|mv: Move<S>| #[trigger] moves@.skip(before.len() as int).contains(mv) <==> (self@.legal_move(mv) && mv.spec_square().inner < i),
            decreases n - i,
        {
            let square = squares[i];
            let ghost m0 = moves@;
            if opening {
                if self.stacks[square.inner as usize].height == 0 {
                    moves.push(Move::placement(Role::Flat, square));
                }
            } else {
                self.generate_moves_for_square(square, moves);
            }
            proof {
                let m1 = moves@;
                let old_seg = m0.skip(before.len() as int);
                let added = m1.skip(m0.len() as int);
                let seg = m1.skip(before.len() as int);
                assert(m1.subrange(0, m0.len() as int) =~= m0);
                assert(seg =~= old_seg + added);
                assert(m1.subrange(0, before.len() as int) =~= before);
                assert forall|mv: Move<S>| #[trigger] seg.contains(mv) <==> (self@.legal_move(mv) && mv.spec_square().inner < i + 1) by {
                    if seg.contains(mv) {
                        let j = choose|j: int| 0 <= j < seg.len() && seg[j] == mv;
                        if j < old_seg.len() {
                            assert(old_seg.contains(mv));
                        } else {
                            assert(added[j - old_seg.len()] == mv);
                            assert(added.contains(mv));
                        }
                    }
                    if self@.legal_move(mv) && mv.spec_square().inner < i + 1 {
                        if mv.spec_square().inner < i {
                            assert(old_seg.contains(mv));
                            let j = choose|j: int| 0 <= j < old_seg.len() && old_seg[j] == mv;
                            assert(seg[j] == mv);
                        } else {
                            assert(mv.spec_square() == square);
                            if opening {
                                match mv.spec_expand() {
                                    ExpMove::Place(role, sq) => {
                                        assert(added.len() == 1);
                                        mv.lemma_expand_injective(added[0]);
                                    },
                                    ExpMove::Move(o, d, sm) => {},
                                }
                            } else {
                                assert(self@.square_move_rules(mv, square));
                            }
                            assert(added.contains(mv));
                            let j = choose|j: int| 0 <= j < added.len() && added[j] == mv;
                            assert(seg[old_seg.len() + j] == mv);
                        }
                    }
                }
            }
            i = i + 1;
        }
        proof {
            assert forall|mv: Move<S>| self@.legal_move(mv) implies mv.spec_square().inner < n by {}
        }
    }

    /// Whether a move may be played here: a placement on an empty square while the side to move
    /// has a piece of that kind left, or a stack movement that follows the rules.
    pub open spec fn spec_move_is_legal(&self, mv: Move<S>) -> bool {
        match mv.spec_expand() {
            ExpMove::Place(role, square) => {
                &&& self@.stack(square).height == 0
                &&& if role == Role::Cap {
                    self@.caps_left(self.to_move) > 0
                } else {
                    self@.stones_left(self.to_move) > 0
                }
            },
            ExpMove::Move(origin, direction, sm) => self@.movement_rules(origin, direction, sm),
        }
    }

    pub fn move_is_legal(&self, mv: Move<S>) -> (b: bool)
        requires
            self.wf(),
            mv.wf(),
        ensures
            b == self.spec_move_is_legal(mv),
            self.half_moves_played >= 2 ==> b == self@.legal_move(mv),
            (mv.spec_expand() matches ExpMove::Place(Role::Cap, _)) && b ==> self@.caps_left(self@.to_move) >= 1,
    {
        proof {
            if self.half_moves_played >= 2 {
                lemma_move_is_legal_follows_rules(self, mv);
            }
        }
        match mv.expand() {
            ExpMove::Place(role, square) => {
                let empty = self.stacks[square.inner as usize].height == 0;
                match (role, self.to_move) {
                    (Role::Flat, Color::White) | (Role::Wall, Color::White) => empty && self.white_stones_left > 0,
                    (Role::Flat, Color::Black) | (Role::Wall, Color::Black) => empty && self.black_stones_left > 0,
                    (Role::Cap, Color::White) => empty && self.white_caps_left > 0,
                    (Role::Cap, Color::Black) => empty && self.black_caps_left > 0,
                }
            },
            ExpMove::Move(square, _, _) => {
                let mut legal_moves: Vec<Move<S>> = Vec::new();
                self.generate_moves_for_square(square, &mut legal_moves);
                proof {
                    assert(legal_moves@.skip(0) =~= legal_moves@);
                }
                let mut i: usize = 0;
                while i < legal_moves.len()
                    invariant
                        i <= legal_moves.len(),
                        forall|k: int| 0 <= k < i ==> legal_moves@[k] != mv,
                        forall|m: Move<S>| #[trigger] legal_moves@.contains(m) <==> self@.square_move_rules(m, square),
                    decreases legal_moves.len() - i,
                {
                    if legal_moves[i].inner == mv.inner {
                        proof {
                            assert(legal_moves@[i as int] == mv);
                            assert(legal_moves@.contains(mv));
                            assert(self@.square_move_rules(mv, square));
                        }
                        return true;
                    }
                    i = i + 1;
                }
                proof {
                    if self@.square_move_rules(mv, square) {
                        assert(legal_moves@.contains(mv));
                    }
                }
                false
            },
        }
    }
}

/// After the opening, a move passes `move_is_legal` exactly when the rules that
/// `generate_moves` follows allow it; so a capstone is placed only while the player to move
/// has one left, whatever stones they have.
pub proof fn lemma_move_is_legal_follows_rules<const S: usize>(position: &Position<S>, mv: Move<S>)
    requires
        mv.wf(),
        position.half_moves_played >= 2,
    ensures
        position.spec_move_is_legal(mv) == position@.legal_move(mv),
        (mv.spec_expand() matches ExpMove::Place(Role::Cap, _)) && position.spec_move_is_legal(mv)
            ==> position@.caps_left(position@.to_move) >= 1,
{
}

} // verus!
