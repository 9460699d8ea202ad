//! Connected groups of road pieces, and roads: groups that join two opposite edges of the board.
use vstd::prelude::*;

use super::bitboard::BitBoard;
use super::bits::bit;
use super::square::{valid_size, Square};
use super::utils::{AbstractBoard, Direction};

verus! {

/// `b` is one step from `a` in some direction.
pub open spec fn step<const S: usize>(a: int, b: int) -> bool {
    &&& 0 <= a < S * S
    &&& 0 <= b < S * S
    &&& exists|d: Direction| #[trigger] Square::<S> { inner: a as u8 }.spec_go_direction(d) == Some(Square::<S> { inner: b as u8 })
}

/// A path of squares, each one step from the one before, all holding a piece of `road`.
pub open spec fn road_path<const S: usize>(road: u64, path: Seq<int>) -> bool {
    &&& path.len() > 0
    &&& forall|i: int| 0 <= i < path.len() ==> 0 <= #[trigger] path[i] < S * S && bit(road, path[i] as u64)
    &&& forall|i: int| 0 <= i < path.len() - 1 ==> step::<S>(#[trigger] path[i], path[i + 1])
}

/// `b` can be reached from `a` through the pieces of `road`.
pub open spec fn reaches<const S: usize>(road: u64, a: int, b: int) -> bool {
    exists|path: Seq<int>| #[trigger] road_path::<S>(road, path) && path[0] == a && path.last() == b
}

pub open spec fn first_line<const S: usize>(a: int) -> bool {
    0 <= a < S
}

pub open spec fn last_line<const S: usize>(a: int) -> bool {
    (S - 1) * S <= a < S * S
}

pub open spec fn first_column<const S: usize>(a: int) -> bool {
    exists|y: int| 0 <= y < S && a == #[trigger] (y * S)
}

pub open spec fn last_column<const S: usize>(a: int) -> bool {
    exists|y: int| 0 <= y < S && a == #[trigger] (y * S) + S - 1
}

/// `a` and `b` lie on opposite edges: the first line and the last, or the first column and the last.
pub open spec fn spans<const S: usize>(a: int, b: int) -> bool {
    ||| first_line::<S>(a) && last_line::<S>(b)
    ||| first_column::<S>(a) && last_column::<S>(b)
}

/// The pieces of `road` hold a road: a connected group of them touches two opposite edges.
pub open spec fn has_road<const S: usize>(road: u64) -> bool {
    exists|r: int, a: int, b: int|
        #![trigger reaches::<S>(road, r, a), reaches::<S>(road, r, b)]
        reaches::<S>(road, r, a) && reaches::<S>(road, r, b) && spans::<S>(a, b)
}

/// The number of squares with no group yet.
pub open spec fn zeros(s: Seq<u8>) -> nat
    decreases s.len(),
{
    if s.len() == 0 {
        0
    } else {
        zeros(s.drop_last()) + if s.last() == 0 {
            1nat
        } else {
            0nat
        }
    }
}

/// Labels only ever go from 0 to something else.
proof fn lemma_zeros_monotone(s1: Seq<u8>, s2: Seq<u8>)
    requires
        s1.len() == s2.len(),
        forall|i: int| 0 <= i < s1.len() && s2[i] == 0 ==> #[trigger] s1[i] == 0,
    ensures
        zeros(s2) <= zeros(s1),
        (exists|i: int| 0 <= i < s1.len() && s1[i] == 0 && #[trigger] s2[i] != 0) ==> zeros(s2) < zeros(s1),
    decreases s1.len(),
{
    if s1.len() > 0 {
        let n = s1.len() - 1;
        assert forall|i: int| 0 <= i < n && s2.drop_last()[i] == 0 implies #[trigger] s1.drop_last()[i] == 0 by {
            assert(s2[i] == 0);
        }
        lemma_zeros_monotone(s1.drop_last(), s2.drop_last());
        if exists|i: int| 0 <= i < s1.len() && s1[i] == 0 && #[trigger] s2[i] != 0 {
            let i = choose|i: int| 0 <= i < s1.len() && s1[i] == 0 && #[trigger] s2[i] != 0;
            if i < n {
                assert(s1.drop_last()[i] == 0 && s2.drop_last()[i] != 0);
            }
        }
    }
}

pub proof fn lemma_zeros_bound(s: Seq<u8>)
    ensures
        zeros(s) <= s.len(),
    decreases s.len(),
{
    if s.len() > 0 {
        lemma_zeros_bound(s.drop_last());
    }
}

/// Steps go both ways.
pub proof fn lemma_step_symmetric<const S: usize>(a: int, b: int)
    requires
        valid_size(S),
        step::<S>(a, b),
    ensures
        step::<S>(b, a),
{
    let sa = Square::<S> { inner: a as u8 };
    let sb = Square::<S> { inner: b as u8 };
    let d = choose|d: Direction| #[trigger] sa.spec_go_direction(d) == Some(sb);
    sa.lemma_rank_file();
    sb.lemma_rank_file();
    let (r, f) = super::square::spec_jump(S as int, sa.spec_rank(), sa.spec_file(), d, 1).unwrap();
    Square::<S>::lemma_from_rank_file(r, f);
    assert(sb.spec_rank() == r && sb.spec_file() == f);
    assert(sb.spec_go_direction(d.spec_reverse()) == Some(sa));
}

/// Labels of groups: every piece of `road` on the first `n` squares has a label, pieces one
/// step apart have the same label, and all pieces with one label are reached from one root.
pub open spec fn groups_ok<const S: usize>(road: u64, labels: Seq<u8>, id0: int, id: int, roots: Seq<int>) -> bool {
    &&& roots.len() == id - id0
    &&& forall|x: int|
        0 <= x < S * S && labels[x] != 0 && bit(road, x as u64) ==> id0 <= #[trigger] labels[x] < id
    &&& forall|x: int, y: int|
        step::<S>(x, y) && bit(road, x as u64) && bit(road, y as u64) && labels[x] != 0 && labels[y] != 0
            ==> #[trigger] labels[x] == #[trigger] labels[y]
    &&& forall|x: int|
        0 <= x < S * S && bit(road, x as u64) && labels[x] != 0 ==> reaches::<S>(
            road,
            roots[#[trigger] labels[x] - id0],
            x,
        )
    &&& forall|l: int| 0 <= l < roots.len() ==> 0 <= #[trigger] roots[l] < S * S && bit(road, roots[l] as u64)
        && labels[roots[l]] == id0 + l
}

/// Every piece of `road` one step from a labelled one is labelled.
pub open spec fn groups_closed<const S: usize>(road: u64, labels: Seq<u8>) -> bool {
    forall|x: int, y: int|
        step::<S>(x, y) && bit(road, x as u64) && bit(road, y as u64) && labels[x] != 0 ==> #[trigger] labels[y]
            != 0 && #[trigger] labels[x] != 0
}

proof fn lemma_reach_step<const S: usize>(road: u64, r: int, x: int, y: int)
    requires
        reaches::<S>(road, r, x),
        step::<S>(x, y),
        bit(road, y as u64),
    ensures
        reaches::<S>(road, r, y),
{
    let path = choose|path: Seq<int>| #[trigger] road_path::<S>(road, path) && path[0] == r && path.last() == x;
    let p2 = path.push(y);
    assert forall|i: int| 0 <= i < p2.len() - 1 implies step::<S>(#[trigger] p2[i], p2[i + 1]) by {
        if i < path.len() - 1 {
            assert(p2[i] == path[i] && p2[i + 1] == path[i + 1]);
        } else {
            assert(p2[i] == x);
        }
    }
    assert forall|i: int| 0 <= i < p2.len() implies 0 <= #[trigger] p2[i] < S * S && bit(road, p2[i] as u64) by {
        if i < path.len() {
            assert(p2[i] == path[i]);
        }
    }
    assert(road_path::<S>(road, p2));
}

proof fn lemma_reach_self<const S: usize>(road: u64, r: int)
    requires
        0 <= r < S * S,
        bit(road, r as u64),
    ensures
        reaches::<S>(road, r, r),
{
    let p = seq![r];
    assert(road_path::<S>(road, p));
}

} // verus!

verus! {

/// From `old` to `new`, labels only appear, as `id`, on pieces of `road`.
pub open spec fn grows<const S: usize>(old: Seq<u8>, new: Seq<u8>, road: u64, id: u8) -> bool {
    &&& new.len() == old.len()
    &&& forall|x: int|
        0 <= x < old.len() ==> (old[x] != 0 ==> #[trigger] new[x] == old[x]) && (new[x] != old[x] ==> old[x] == 0
            && new[x] == id && bit(road, x as u64))
}

/// Every piece with label `id` is reached from `root`.
pub open spec fn in_component<const S: usize>(labels: Seq<u8>, road: u64, id: u8, root: int) -> bool {
    forall|x: int| 0 <= x < S * S && #[trigger] labels[x] == id ==> bit(road, x as u64) && reaches::<S>(road, root, x)
}

/// The groups with labels other than `id` are complete.
pub open spec fn others_closed<const S: usize>(labels: Seq<u8>, road: u64, id: u8) -> bool {
    forall|x: int, y: int|
        #[trigger] step::<S>(x, y) && bit(road, x as u64) && bit(road, y as u64) && labels[x] != 0 && labels[x] != id
            ==> labels[y] != 0
}

/// Pieces one step apart that both have a label have the same one.
pub open spec fn consistent<const S: usize>(labels: Seq<u8>, road: u64) -> bool {
    forall|x: int, y: int|
        #[trigger] step::<S>(x, y) && bit(road, x as u64) && bit(road, y as u64) && labels[x] != 0 && labels[y]
            != 0 ==> labels[x] == labels[y]
}

/// Every piece that got a label between `old` and `new` has all its neighbours in `road` labelled.
pub open spec fn closed_since<const S: usize>(old: Seq<u8>, new: Seq<u8>, road: u64) -> bool {
    forall|x: int, y: int|
        #[trigger] step::<S>(x, y) && bit(road, x as u64) && bit(road, y as u64) && old[x] == 0 && new[x] != 0
            ==> new[y] != 0
}

proof fn lemma_grows_trans<const S: usize>(a: Seq<u8>, b: Seq<u8>, c: Seq<u8>, road: u64, id: u8)
    requires
        grows::<S>(a, b, road, id),
        grows::<S>(b, c, road, id),
    ensures
        grows::<S>(a, c, road, id),
{
    assert forall|x: int| 0 <= x < a.len() implies (a[x] != 0 ==> #[trigger] c[x] == a[x]) && (c[x] != a[x] ==> a[x]
        == 0 && c[x] == id && bit(road, x as u64)) by {
        assert(b[x] == a[x] || (a[x] == 0 && b[x] == id));
        assert(c[x] == b[x] || (b[x] == 0 && c[x] == id));
    }
}

/// The neighbour of `square` in `direction`, if it holds a piece of `road`, has a label.
pub open spec fn neighbour_labelled<const S: usize>(square: Square<S>, direction: Direction, road: u64, labels: Seq<u8>) -> bool {
    match square.spec_go_direction(direction) {
        Some(n) => bit(road, n.inner as u64) ==> labels[n.inner as int] != 0,
        None => true,
    }
}

/// Gives the label `id` to the group of `square`, and to every piece of `road` connected to it.
fn connect_component<const S: usize>(
    road_pieces: BitBoard,
    components: &mut AbstractBoard<u8, S>,
    square: Square<S>,
    id: u8,
    Ghost(root): Ghost<int>,
)
    requires
        valid_size(S),
        old(components)@.len() == S * S,
        square.valid(),
        id > 0,
        bit(road_pieces.board, square.inner as u64),
        old(components)@[square.inner as int] == 0,
        reaches::<S>(road_pieces.board, root, square.inner as int),
        in_component::<S>(old(components)@, road_pieces.board, id, root),
        others_closed::<S>(old(components)@, road_pieces.board, id),
        consistent::<S>(old(components)@, road_pieces.board),
    ensures
        grows::<S>(old(components)@, final(components)@, road_pieces.board, id),
        final(components)@[square.inner as int] == id,
        in_component::<S>(final(components)@, road_pieces.board, id, root),
        consistent::<S>(final(components)@, road_pieces.board),
        closed_since::<S>(old(components)@, final(components)@, road_pieces.board),
        zeros(final(components)@) < zeros(old(components)@),
    decreases zeros(old(components)@),
{
    let ghost road = road_pieces.board;
    let ghost start = components@;
    let ghost sq = square.inner as int;
    proof {
        super::square::lemma_size::<S>();
    }
    components.set(square, id);
    proof {
        assert forall|x: int, y: int|
            #[trigger] step::<S>(x, y) && bit(road, x as u64) && bit(road, y as u64) && components@[x] != 0
                && components@[y] != 0 implies components@[x] == components@[y] by {
            if x == sq && y != sq {
                lemma_step_symmetric::<S>(x, y);
                assert(step::<S>(y, x));
            }
        }
        lemma_zeros_monotone(start, components@);
        assert(start[sq] == 0 && components@[sq] != 0);
    }
    let directions = [Direction::North, Direction::West, Direction::East, Direction::South];
    let mut k: usize = 0;
    while k < 4
        invariant
            valid_size(S),
            S * S <= 64,
            square.valid(),
            id > 0,
            start == old(components)@,
            sq == square.inner as int,
            road == road_pieces.board,
            bit(road, sq as u64),
            directions@ == seq![Direction::North, Direction::West, Direction::East, Direction::South],
            k <= 4,
            start.len() == S * S,
            start[sq] == 0,
            reaches::<S>(road, root, sq),
            others_closed::<S>(start, road, id),
            grows::<S>(start, components@, road, id),
            components@[sq] == id,
            in_component::<S>(components@, road, id, root),
            consistent::<S>(components@, road),
            zeros(components@) < zeros(start),
            forall|x: int, y: int|
                #[trigger] step::<S>(x, y) && bit(road, x as u64) && bit(road, y as u64) && start[x] == 0
                    && components@[x] != 0 && x != sq ==> components@[y] != 0,
            forall|j: int| 0 <= j < k ==> neighbour_labelled(square, #[trigger] directions@[j], road, components@),
        decreases 4 - k,
    {
        let d = directions[k];
        let ghost before = components@;
        if let Some(neighbour) = square.go_direction_const(d) {
            if road_pieces.get_square(neighbour) && components.get(neighbour) == 0 {
                proof {
                    assert(step::<S>(sq, neighbour.inner as int));
                    lemma_reach_step::<S>(road, root, sq, neighbour.inner as int);
                    assert forall|x: int, y: int|
                        #[trigger] step::<S>(x, y) && bit(road, x as u64) && bit(road, y as u64) && before[x] != 0
                            && before[x] != id implies before[y] != 0 by {
                        assert(start[x] == before[x]);
                    }
                }
                connect_component(road_pieces, components, neighbour, id, Ghost(root));
                proof {
                    lemma_grows_trans::<S>(start, before, components@, road, id);
                    lemma_zeros_monotone(start, components@);
                    assert forall|x: int, y: int|
                        #[trigger] step::<S>(x, y) && bit(road, x as u64) && bit(road, y as u64) && start[x] == 0
                            && components@[x] != 0 && x != sq implies components@[y] != 0 by {
                        if before[x] != 0 {
                            assert(before[y] != 0);
                        }
                    }
                }
            }
        }
        proof {
            assert forall|j: int| 0 <= j < k + 1 implies neighbour_labelled(
                square,
                #[trigger] directions@[j],
                road,
                components@,
            ) by {
                square.lemma_jump_valid(directions@[j], 1);
                if j < k {
                    assert(neighbour_labelled(square, directions@[j], road, before));
                }
                match square.spec_go_direction(directions@[j]) {
                    Some(n) => {
                        if before[n.inner as int] != 0 {
                            assert(components@[n.inner as int] == before[n.inner as int]);
                        }
                    },
                    None => {},
                }
            }
        }
        k = k + 1;
    }
    proof {
        assert(directions@[0] == Direction::North);
        assert(directions@[1] == Direction::West);
        assert(directions@[2] == Direction::East);
        assert(directions@[3] == Direction::South);
        assert(neighbour_labelled(square, Direction::North, road, components@));
        assert(neighbour_labelled(square, Direction::West, road, components@));
        assert(neighbour_labelled(square, Direction::East, road, components@));
        assert(neighbour_labelled(square, Direction::South, road, components@));
        assert forall|x: int, y: int|
            #[trigger] step::<S>(x, y) && bit(road, x as u64) && bit(road, y as u64) && start[x] == 0
                && components@[x] != 0 implies components@[y] != 0 by {
            if x == sq {
                let d = choose|d: Direction|
                    #[trigger] Square::<S> { inner: x as u8 }.spec_go_direction(d) == Some(
                        Square::<S> { inner: y as u8 },
                    );
                assert(square == Square::<S> { inner: x as u8 });
                assert(neighbour_labelled(square, d, road, components@));
            }
        }
    }
}

} // verus!

verus! {

/// Every labelled piece of `road` has all its neighbours in `road` labelled.
pub open spec fn all_closed<const S: usize>(labels: Seq<u8>, road: u64) -> bool {
    forall|x: int, y: int|
        #[trigger] step::<S>(x, y) && bit(road, x as u64) && bit(road, y as u64) && labels[x] != 0 ==> labels[y]
            != 0
}

/// Labels the connected groups of `road_pieces` with consecutive ids, starting from `id`,
/// and leaves `id` one past the last one used.
pub fn connected_components_graph<const S: usize>(
    road_pieces: BitBoard,
    components: &mut AbstractBoard<u8, S>,
    id: &mut u8,
)
    requires
        valid_size(S),
        old(components)@.len() == S * S,
        forall|x: int| 0 <= x < S * S && bit(road_pieces.board, x as u64) ==> #[trigger] old(components)@[x] == 0,
        forall|x: int| 0 <= x < S * S ==> #[trigger] old(components)@[x] < *old(id),
        1 <= *old(id),
        *old(id) + S * S <= u8::MAX,
    ensures
        final(components)@.len() == S * S,
        forall|x: int|
            0 <= x < S * S && !bit(road_pieces.board, x as u64) ==> #[trigger] final(components)@[x] == old(
                components,
            )@[x],
        forall|x: int|
            0 <= x < S * S && bit(road_pieces.board, x as u64) ==> *old(id) <= #[trigger] final(components)@[x]
                < *final(id),
        *final(id) - *old(id) + zeros(final(components)@) <= zeros(old(components)@),
        exists|roots: Seq<int>|
            groups_ok::<S>(road_pieces.board, final(components)@, *old(id) as int, *final(id) as int, roots),
{
    proof {
        super::square::lemma_size::<S>();
        lemma_zeros_bound(components@);
    }
    let ghost road = road_pieces.board;
    let ghost start = components@;
    let ghost id0 = *id as int;
    let ghost mut roots: Seq<int> = Seq::empty();
    let n = S * S;
    let mut i: usize = 0;
    while i < n
        invariant
            valid_size(S),
            n == S * S,
            n <= 64,
            i <= n,
            road == road_pieces.board,
            start.len() == n,
            components@.len() == n,
            1 <= id0 <= *id,
            id0 + S * S <= u8::MAX,
            zeros(start) <= n,
            *id - id0 + zeros(components@) <= zeros(start),
            forall|x: int| 0 <= x < n && !bit(road, x as u64) ==> #[trigger] components@[x] == start[x],
            forall|x: int| 0 <= x < i && bit(road, x as u64) ==> #[trigger] components@[x] != 0,
            forall|x: int| 0 <= x < n ==> #[trigger] start[x] < id0,
            forall|x: int| 0 <= x < n && bit(road, x as u64) ==> #[trigger] start[x] == 0,
            all_closed::<S>(components@, road),
            groups_ok::<S>(road, components@, id0, *id as int, roots),
        decreases n - i,
    {
        let square = Square::<S>::from_u8(i as u8);
        if components.get(square) == 0 && road_pieces.get_square(square) {
            let ghost before = components@;
            let ghost label = *id;
            proof {
                lemma_reach_self::<S>(road, i as int);
                assert forall|x: int| 0 <= x < S * S && #[trigger] before[x] == label implies bit(road, x as u64)
                    && reaches::<S>(road, i as int, x) by {
                    if bit(road, x as u64) {
                        assert(id0 <= before[x] < label);
                    } else {
                        assert(before[x] == start[x]);
                        assert(start[x] < id0);
                    }
                }
            }
            connect_component(road_pieces, components, square, *id, Ghost(i as int));
            proof {
                lemma_zeros_monotone(before, components@);
                roots = roots.push(i as int);
                assert forall|x: int| 0 <= x < n && !bit(road, x as u64) implies #[trigger] components@[x]
                    == start[x] by {
                    assert(components@[x] == before[x]);
                }
                assert forall|x: int, y: int|
                    #[trigger] step::<S>(x, y) && bit(road, x as u64) && bit(road, y as u64) && components@[x]
                        != 0 implies components@[y] != 0 by {
                    if before[x] != 0 {
                        assert(before[y] != 0);
                    }
                }
            }
            *id = *id + 1;
            proof {
                let l = components@;
                assert forall|x: int| 0 <= x < S * S && l[x] != 0 && bit(road, x as u64) implies id0
                    <= #[trigger] l[x] < *id by {
                    if before[x] != 0 {
                        assert(l[x] == before[x]);
                    }
                }
                assert forall|x: int|
                    0 <= x < S * S && bit(road, x as u64) && l[x] != 0 implies reaches::<S>(
                    road,
                    roots[#[trigger] l[x] - id0],
                    x,
                ) by {
                    if before[x] != 0 {
                        assert(l[x] == before[x]);
                    } else {
                        assert(l[x] == label);
                    }
                }
                assert forall|m: int| 0 <= m < roots.len() implies 0 <= #[trigger] roots[m] < S * S && bit(
                    road,
                    roots[m] as u64,
                ) && l[roots[m]] == id0 + m by {
                    if m < roots.len() - 1 {
                        assert(before[roots[m]] == id0 + m);
                    }
                }
            }
        }
        proof {
            if bit(road, i as u64) {
                assert(components@[i as int] != 0);
            }
        }
        i = i + 1;
    }
}

} // verus!

verus! {

/// Some piece with label `l` lies on an edge, and another on the opposite edge.
pub open spec fn label_spans<const S: usize>(labels: Seq<u8>, l: int) -> bool {
    ||| (exists|a: int| first_line::<S>(a) && #[trigger] labels[a] == l) && (exists|b: int|
        last_line::<S>(b) && #[trigger] labels[b] == l)
    ||| (exists|a: int| first_column::<S>(a) && #[trigger] labels[a] == l) && (exists|b: int|
        last_column::<S>(b) && #[trigger] labels[b] == l)
}

/// Along a path of `road`, the label does not change.
proof fn lemma_path_label<const S: usize>(road: u64, labels: Seq<u8>, path: Seq<int>, id0: int, id: int, roots: Seq<int>)
    requires
        groups_ok::<S>(road, labels, id0, id, roots),
        forall|x: int| 0 <= x < S * S && bit(road, x as u64) ==> #[trigger] labels[x] != 0,
        road_path::<S>(road, path),
    ensures
        forall|i: int| 0 <= i < path.len() ==> labels[#[trigger] path[i]] == labels[path[0]],
{
    assert forall|i: int| 0 <= i < path.len() implies labels[#[trigger] path[i]] == labels[path[0]] by {
        lemma_path_label_upto::<S>(road, labels, path, id0, id, roots, i);
    }
}

proof fn lemma_path_label_upto<const S: usize>(
    road: u64,
    labels: Seq<u8>,
    path: Seq<int>,
    id0: int,
    id: int,
    roots: Seq<int>,
    i: int,
)
    requires
        groups_ok::<S>(road, labels, id0, id, roots),
        forall|x: int| 0 <= x < S * S && bit(road, x as u64) ==> #[trigger] labels[x] != 0,
        road_path::<S>(road, path),
        0 <= i < path.len(),
    ensures
        labels[path[i]] == labels[path[0]],
    decreases i,
{
    if i > 0 {
        lemma_path_label_upto::<S>(road, labels, path, id0, id, roots, i - 1);
        assert(step::<S>(path[i - 1], path[i]));
        assert(0 <= path[i - 1] < S * S && bit(road, path[i - 1] as u64));
        assert(0 <= path[i] < S * S && bit(road, path[i] as u64));
        assert(labels[path[i - 1]] != 0 && labels[path[i]] != 0);
    }
}

/// The pieces of `road` hold a road exactly when one of their labels spans the board.
pub proof fn lemma_has_road_iff<const S: usize>(road: u64, labels: Seq<u8>, id0: int, id: int, roots: Seq<int>)
    requires
        groups_ok::<S>(road, labels, id0, id, roots),
        labels.len() == S * S,
        forall|x: int| 0 <= x < S * S && bit(road, x as u64) ==> #[trigger] labels[x] != 0,
        forall|x: int| 0 <= x < S * S && !bit(road, x as u64) ==> !(id0 <= #[trigger] labels[x] < id),
    ensures
        has_road::<S>(road) <==> exists|l: int| id0 <= l < id && #[trigger] label_spans::<S>(labels, l),
{
    if has_road::<S>(road) {
        let (r, a, b) = choose|r: int, a: int, b: int|
            #![trigger reaches::<S>(road, r, a), reaches::<S>(road, r, b)]
            reaches::<S>(road, r, a) && reaches::<S>(road, r, b) && spans::<S>(a, b);
        let pa = choose|path: Seq<int>| #[trigger] road_path::<S>(road, path) && path[0] == r && path.last() == a;
        let pb = choose|path: Seq<int>| #[trigger] road_path::<S>(road, path) && path[0] == r && path.last() == b;
        lemma_path_label::<S>(road, labels, pa, id0, id, roots);
        lemma_path_label::<S>(road, labels, pb, id0, id, roots);
        assert(labels[pa[pa.len() - 1]] == labels[r]);
        assert(labels[pb[pb.len() - 1]] == labels[r]);
        assert(0 <= pa[0] < S * S && bit(road, pa[0] as u64));
        let l = labels[r] as int;
        assert(labels[a] == l && labels[b] == l);
        assert(label_spans::<S>(labels, l));
    }
    if exists|l: int| id0 <= l < id && #[trigger] label_spans::<S>(labels, l) {
        let l = choose|l: int| id0 <= l < id && #[trigger] label_spans::<S>(labels, l);
        let r = roots[l - id0];
        let (a, b) = if (exists|a: int| first_line::<S>(a) && #[trigger] labels[a] == l) && (exists|b: int|
            last_line::<S>(b) && #[trigger] labels[b] == l) {
            (
                choose|a: int| first_line::<S>(a) && #[trigger] labels[a] == l,
                choose|b: int| last_line::<S>(b) && #[trigger] labels[b] == l,
            )
        } else {
            (
                choose|a: int| first_column::<S>(a) && #[trigger] labels[a] == l,
                choose|b: int| last_column::<S>(b) && #[trigger] labels[b] == l,
            )
        };
        assert(spans::<S>(a, b));
        assert(0 <= a < S * S) by {
            assert(S <= S * S) by (nonlinear_arith);
            if first_column::<S>(a) {
                let y = choose|y: int| 0 <= y < S && a == #[trigger] (y * S);
                assert(0 <= y * S < S * S) by (nonlinear_arith)
                    requires
                        0 <= y < S,
                ;
            }
        }
        assert(0 <= b < S * S) by {
            if last_column::<S>(b) {
                let y = choose|y: int| 0 <= y < S && b == #[trigger] (y * S) + S - 1;
                assert(0 <= y * S + S - 1 < S * S) by (nonlinear_arith)
                    requires
                        0 <= y < S,
                ;
            }
        }
        assert(bit(road, a as u64) && bit(road, b as u64));
        assert(reaches::<S>(road, r, a));
        assert(reaches::<S>(road, r, b));
    }
}

} // verus!
