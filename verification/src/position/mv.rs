//! Moves: placements and stack movements, packed into 16 bits.
use vstd::prelude::*;

use arrayvec::ArrayVec;

use super::collections::u8_array_contents;
use super::square::{valid_size, Square};
use super::utils::{bit8, lemma_bit8_ops, Direction, Role, StackMovement};

verus! {

/// A move, with its parts spelled out.
#[derive(Clone, Copy, PartialEq, Eq, Debug)]
pub enum ExpMove<const S: usize> {
    Place(Role, Square<S>),
    Move(Square<S>, Direction, StackMovement<S>),
}

/// A move in compact form: bits 0-5 hold the square, bits 6-7 the role or direction,
/// and bits 8-15 the stack movement, which is zero for placements.
#[derive(Clone, Copy, PartialEq, Eq, Debug, Hash)]
pub struct Move<const S: usize> {
    pub inner: u16,
}

proof fn lemma_pack_placement(sq: u8, r: u8)
    requires
        sq < 64,
        r < 4,
    ensures
        ((sq as u16) | ((r as u16) << 6u16)) >> 8u16 == 0,
        (((sq as u16) | ((r as u16) << 6u16)) as u8) & 63u8 == sq,
        (((sq as u16) | ((r as u16) << 6u16)) as u8) >> 6u8 == r,
{
    assert(sq < 64 && r < 4 ==> ((((sq as u16) | ((r as u16) << 6u16)) >> 8u16 == 0) && ((((sq
        as u16) | ((r as u16) << 6u16)) as u8) & 63u8 == sq) && ((((sq as u16) | ((r as u16)
        << 6u16)) as u8) >> 6u8 == r))) by (bit_vector);
}

proof fn lemma_pack_movement(sq: u8, d: u8, m: u8)
    requires
        sq < 64,
        d < 4,
        m != 0,
    ensures
        ((sq as u16) | ((d as u16) << 6u16) | ((m as u16) << 8u16)) >> 8u16 == m as u16,
        ((sq as u16) | ((d as u16) << 6u16) | ((m as u16) << 8u16)) >> 8u16 != 0,
        (((sq as u16) | ((d as u16) << 6u16) | ((m as u16) << 8u16)) as u8) & 63u8 == sq,
        ((((sq as u16) | ((d as u16) << 6u16) | ((m as u16) << 8u16)) as u8) >> 6u8) & 3u8 == d,
{
    assert(sq < 64 && d < 4 && m != 0 ==> ((((sq as u16) | ((d as u16) << 6u16) | ((m as u16)
        << 8u16)) >> 8u16 == m as u16) && ((((sq as u16) | ((d as u16) << 6u16) | ((m as u16)
        << 8u16)) as u8) & 63u8 == sq) && (((((sq as u16) | ((d as u16) << 6u16) | ((m as u16)
        << 8u16)) as u8) >> 6u8) & 3u8 == d))) by (bit_vector);
}

proof fn lemma_unpack(x: u16)
    ensures
        (x as u8) & 63u8 < 64,
        ((x as u8) >> 6u8) & 3u8 < 4,
        (x as u8) >> 6u8 < 4,
        x >> 8u16 < 256,
{
    assert(((x as u8) & 63u8 < 64) && (((x as u8) >> 6u8) & 3u8 < 4) && ((x as u8) >> 6u8 < 4) && (x
        >> 8u16 < 256)) by (bit_vector);
}

proof fn lemma_unpack_repack(x: u16)
    ensures
        x >> 8u16 == 0 ==> x == (((x as u8) & 63u8) as u16) | ((((x as u8) >> 6u8) as u16) << 6u16),
        x >> 8u16 != 0 ==> x == (((x as u8) & 63u8) as u16) | (((((x as u8) >> 6u8) & 3u8) as u16) << 6u16)
            | ((((x >> 8u16) as u8) as u16) << 8u16),
{
    assert((x >> 8u16 == 0 ==> x == (((x as u8) & 63u8) as u16) | ((((x as u8) >> 6u8) as u16) << 6u16))
        && (x >> 8u16 != 0 ==> x == (((x as u8) & 63u8) as u16) | (((((x as u8) >> 6u8) & 3u8) as u16)
        << 6u16) | ((((x >> 8u16) as u8) as u16) << 8u16))) by (bit_vector);
}

impl<const S: usize> Move<S> {
    /// Well-formed moves with the same parts are the same move.
    pub proof fn lemma_expand_injective(self, other: Move<S>)
        requires
            self.wf(),
            other.wf(),
            self.spec_expand() == other.spec_expand(),
        ensures
            self == other,
    {
        lemma_unpack_repack(self.inner);
        lemma_unpack_repack(other.inner);
        lemma_unpack(self.inner);
        lemma_unpack(other.inner);
        if self.spec_is_placement() {
            let r1 = ((self.inner as u8) >> 6u8) as nat;
            let r2 = ((other.inner as u8) >> 6u8) as nat;
            assert(Role::spec_from_disc(r1).spec_disc() == r1);
            assert(Role::spec_from_disc(r2).spec_disc() == r2);
        } else {
            let d1 = (((self.inner as u8) >> 6u8) & 3u8) as nat;
            let d2 = (((other.inner as u8) >> 6u8) & 3u8) as nat;
            assert(Direction::spec_from_disc(d1).spec_disc() == d1);
            assert(Direction::spec_from_disc(d2).spec_disc() == d2);
        }
    }

    pub open spec fn spec_is_placement(self) -> bool {
        self.inner >> 8u16 == 0
    }

    pub open spec fn spec_square(self) -> Square<S> {
        Square { inner: (self.inner as u8) & 63u8 }
    }

    /// A move is well formed when its square is on the board, a placement names one of
    /// the three roles, and a movement only uses the lowest `S` bits.
    pub open spec fn wf(self) -> bool {
        &&& self.spec_square().valid()
        &&& self.spec_is_placement() ==> (self.inner as u8) >> 6u8 < 3
        &&& !self.spec_is_placement() ==> StackMovement::<S>::fits((self.inner >> 8u16) as u8)
    }

    /// The parts of a compact move.
    pub open spec fn spec_expand(self) -> ExpMove<S> {
        if self.spec_is_placement() {
            ExpMove::Place(Role::spec_from_disc(((self.inner as u8) >> 6u8) as nat), self.spec_square())
        } else {
            ExpMove::Move(
                self.spec_square(),
                Direction::spec_from_disc((((self.inner as u8) >> 6u8) & 3u8) as nat),
                StackMovement { data: (self.inner >> 8u16) as u8 },
            )
        }
    }

    pub fn compress(mv: ExpMove<S>) -> (m: Move<S>)
        requires
            match mv {
                ExpMove::Place(_, sq) => sq.valid(),
                ExpMove::Move(sq, _, sm) => sq.valid() && sm.data != 0 && StackMovement::<S>::fits(sm.data),
            },
            valid_size(S),
        ensures
            m.spec_expand() == mv,
            m.wf(),
    {
        match mv {
            ExpMove::Place(role, square) => Self::placement(role, square),
            ExpMove::Move(square, direction, stack_movement) => {
                Self::movement(square, direction, stack_movement)
            },
        }
    }

    pub fn placement(role: Role, square: Square<S>) -> (m: Move<S>)
        requires
            square.valid(),
            valid_size(S),
        ensures
            m.spec_expand() == ExpMove::Place(role, square),
            m.wf(),
    {
        proof {
            assert(S * S <= 64) by (nonlinear_arith)
                requires
                    S <= 8,
            ;
            lemma_pack_placement(square.inner, role.spec_disc() as u8);
        }
        Move { inner: (square.into_inner() as u16) | ((role.disc() as u16) << 6u16) }
    }

    pub fn movement(square: Square<S>, direction: Direction, stack_movement: StackMovement<S>) -> (m: Move<S>)
        requires
            square.valid(),
            valid_size(S),
            stack_movement.data != 0,
            StackMovement::<S>::fits(stack_movement.data),
        ensures
            m.spec_expand() == ExpMove::Move(square, direction, stack_movement),
            m.wf(),
    {
        proof {
            assert(S * S <= 64) by (nonlinear_arith)
                requires
                    S <= 8,
            ;
            lemma_pack_movement(square.inner, direction.spec_disc() as u8, stack_movement.data);
        }
        Move {
            inner: (square.into_inner() as u16) | ((direction.disc() as u16) << 6u16) | ((
            stack_movement.into_inner() as u16) << 8u16),
        }
    }

    pub fn expand(self) -> (e: ExpMove<S>)
        requires
            self.wf(),
        ensures
            e == self.spec_expand(),
    {
        proof {
            lemma_unpack(self.inner);
        }
        if self.inner >> 8u16 == 0 {
            ExpMove::Place(
                Role::from_disc((self.inner as u8) >> 6u8),
                Square::from_u8((self.inner as u8) & 63u8),
            )
        } else {
            ExpMove::Move(
                Square::from_u8((self.inner as u8) & 63u8),
                Direction::from_disc(((self.inner as u8) >> 6u8) & 3u8),
                StackMovement::from_u8((self.inner >> 8u16) as u8),
            )
        }
    }

    pub fn is_placement(self) -> (b: bool)
        ensures
            b == self.spec_is_placement(),
            b == (self.spec_expand() is Place),
    {
        self.inner >> 8u16 == 0
    }

    pub fn origin_square(self) -> (sq: Square<S>)
        requires
            self.wf(),
        ensures
            sq == self.spec_square(),
            sq.valid(),
    {
        Square::from_u8((self.inner as u8) & 63u8)
    }
}

impl<const S: usize> ExpMove<S> {
    pub open spec fn spec_origin_square(self) -> Square<S> {
        match self {
            ExpMove::Place(_, sq) => sq,
            ExpMove::Move(sq, _, _) => sq,
        }
    }

    pub fn origin_square(&self) -> (sq: Square<S>)
        ensures
            sq == self.spec_origin_square(),
    {
        match self {
            ExpMove::Place(_, sq) => *sq,
            ExpMove::Move(sq, _, _) => *sq,
        }
    }
}

/// The counterpart of `Move`. When applied to a `Position`, it fully reverses the accompanying `Move`.
/// For a stack movement it records how many pieces were left on each square and whether
/// a wall was flattened.
pub enum ReverseMove<const S: usize> {
    Place(Square<S>),
    Move(Square<S>, Direction, StackMovement<S>, ArrayVec<u8, 8>, bool),
}

/// A reverse move with the pieces left behind as a sequence.
pub enum ReverseMoveView<const S: usize> {
    Place(Square<S>),
    Move(Square<S>, Direction, StackMovement<S>, Seq<u8>, bool),
}

impl<const S: usize> ReverseMove<S> {
    pub open spec fn view(self) -> ReverseMoveView<S> {
        match self {
            ReverseMove::Place(sq) => ReverseMoveView::Place(sq),
            ReverseMove::Move(sq, d, sm, left, flat) => ReverseMoveView::Move(
                sq,
                d,
                sm,
                u8_array_contents(left),
                flat,
            ),
        }
    }
}

} // verus!
