//! Board coordinates and the knight move generator.

use vstd::prelude::*;

verus! {

/// A board square: `x` grows to the right, `y` grows downward.
/// Also used for board dimensions, read as (width, height).
#[derive(Copy, Clone, Debug, PartialEq, Eq, Structural)]
pub struct Pos {
    pub x: usize,
    pub y: usize,
}

/// Dimensions are usable when both extents are positive and the square
/// count fits in a `usize`.
pub open spec fn dims_ok(dims: Pos) -> bool {
    &&& 1 <= dims.x
    &&& 1 <= dims.y
    &&& dims.x * dims.y <= usize::MAX
}

/// `p` lies on a board of the given dimensions.
pub open spec fn in_bounds(dims: Pos, p: Pos) -> bool {
    p.x < dims.x && p.y < dims.y
}

pub open spec fn abs_diff(a: int, b: int) -> int {
    if a >= b {
        a - b
    } else {
        b - a
    }
}

/// The legality rule for a single knight move: a displacement of
/// (±1, ±2) or (±2, ±1).
pub open spec fn is_knight_jump(a: Pos, b: Pos) -> bool {
    let dx = abs_diff(a.x as int, b.x as int);
    let dy = abs_diff(a.y as int, b.y as int);
    (dx == 1 && dy == 2) || (dx == 2 && dy == 1)
}

/// One candidate destination: a singleton if (`nx`, `ny`) is on the
/// board, else empty.
pub open spec fn cand(dims: Pos, nx: int, ny: int) -> Seq<Pos> {
    if 0 <= nx < dims.x && 0 <= ny < dims.y {
        seq![Pos { x: nx as usize, y: ny as usize }]
    } else {
        Seq::empty()
    }
}

/// The legal knight destinations from `p`, in the fixed generation
/// order: right-down, right-up, left-down, left-up, down-right,
/// down-left, up-right, up-left.  This order determines the
/// enumeration order of tours.
pub open spec fn knight_moves(dims: Pos, p: Pos) -> Seq<Pos> {
    cand(dims, p.x + 2, p.y + 1) + cand(dims, p.x + 2, p.y - 1) + cand(dims, p.x - 2, p.y + 1)
        + cand(dims, p.x - 2, p.y - 1) + cand(dims, p.x + 1, p.y + 2) + cand(
        dims,
        p.x - 1,
        p.y + 2,
    ) + cand(dims, p.x + 1, p.y - 2) + cand(dims, p.x - 1, p.y - 2)
}

/// All squares of `s` are legal knight destinations from `p` on the
/// board.
pub open spec fn all_jumps_from(dims: Pos, p: Pos, s: Seq<Pos>) -> bool {
    forall|i: int|
        0 <= i < s.len() ==> {
            &&& in_bounds(dims, #[trigger] s[i])
            &&& is_knight_jump(p, s[i])
            &&& s[i] != p
        }
}

/// Every generated destination is on the board, is one knight jump
/// away from `p`, and differs from `p`; at most eight are generated.
#[verifier::rlimit(50)]
pub proof fn lemma_knight_moves_sound(dims: Pos, p: Pos)
    ensures
        knight_moves(dims, p).len() <= 8,
        all_jumps_from(dims, p, knight_moves(dims, p)),
{
    let s1 = cand(dims, p.x + 2, p.y + 1);
    let s2 = s1 + cand(dims, p.x + 2, p.y - 1);
    let s3 = s2 + cand(dims, p.x - 2, p.y + 1);
    let s4 = s3 + cand(dims, p.x - 2, p.y - 1);
    let s5 = s4 + cand(dims, p.x + 1, p.y + 2);
    let s6 = s5 + cand(dims, p.x - 1, p.y + 2);
    let s7 = s6 + cand(dims, p.x + 1, p.y - 2);
    let s8 = s7 + cand(dims, p.x - 1, p.y - 2);
    assert(all_jumps_from(dims, p, s1));
    assert(all_jumps_from(dims, p, s2));
    assert(all_jumps_from(dims, p, s3));
    assert(all_jumps_from(dims, p, s4));
    assert(all_jumps_from(dims, p, s5));
    assert(all_jumps_from(dims, p, s6));
    assert(all_jumps_from(dims, p, s7));
    assert(all_jumps_from(dims, p, s8));
    assert(knight_moves(dims, p) =~= s8);
}

/// The generator is complete: every square one knight jump from `p`
/// that lies on the board is among the generated destinations.
pub proof fn lemma_knight_moves_complete(dims: Pos, p: Pos, q: Pos)
    requires
        in_bounds(dims, q),
        is_knight_jump(p, q),
    ensures
        knight_moves(dims, p).contains(q),
{
    let km = knight_moves(dims, p);
    if q.x == p.x + 2 && q.y == p.y + 1 {
        assert(km[cand(dims, p.x + 2, p.y + 1).len() - 1] == q);
    } else if q.x == p.x + 2 && q.y + 1 == p.y {
        assert(km[cand(dims, p.x + 2, p.y + 1).len() + cand(dims, p.x + 2, p.y - 1).len() - 1]
            == q);
    } else if q.x + 2 == p.x && q.y == p.y + 1 {
        let pre = cand(dims, p.x + 2, p.y + 1) + cand(dims, p.x + 2, p.y - 1);
        assert(km[pre.len() + cand(dims, p.x - 2, p.y + 1).len() - 1] == q);
    } else if q.x + 2 == p.x && q.y + 1 == p.y {
        let pre = cand(dims, p.x + 2, p.y + 1) + cand(dims, p.x + 2, p.y - 1) + cand(
            dims,
            p.x - 2,
            p.y + 1,
        );
        assert(km[pre.len() + cand(dims, p.x - 2, p.y - 1).len() - 1] == q);
    } else if q.x == p.x + 1 && q.y == p.y + 2 {
        let pre = cand(dims, p.x + 2, p.y + 1) + cand(dims, p.x + 2, p.y - 1) + cand(
            dims,
            p.x - 2,
            p.y + 1,
        ) + cand(dims, p.x - 2, p.y - 1);
        assert(km[pre.len() + cand(dims, p.x + 1, p.y + 2).len() - 1] == q);
    } else if q.x + 1 == p.x && q.y == p.y + 2 {
        let pre = cand(dims, p.x + 2, p.y + 1) + cand(dims, p.x + 2, p.y - 1) + cand(
            dims,
            p.x - 2,
            p.y + 1,
        ) + cand(dims, p.x - 2, p.y - 1) + cand(dims, p.x + 1, p.y + 2);
        assert(km[pre.len() + cand(dims, p.x - 1, p.y + 2).len() - 1] == q);
    } else if q.x == p.x + 1 && q.y + 2 == p.y {
        let pre = cand(dims, p.x + 2, p.y + 1) + cand(dims, p.x + 2, p.y - 1) + cand(
            dims,
            p.x - 2,
            p.y + 1,
        ) + cand(dims, p.x - 2, p.y - 1) + cand(dims, p.x + 1, p.y + 2) + cand(
            dims,
            p.x - 1,
            p.y + 2,
        );
        assert(km[pre.len() + cand(dims, p.x + 1, p.y - 2).len() - 1] == q);
    } else {
        assert(q.x + 1 == p.x && q.y + 2 == p.y);
        assert(km[km.len() - 1] == q);
    }
}

/// The four destinations two files away: right-down, right-up,
/// left-down, left-up.
fn add_wide_jumps(dimensions: Pos, from_pos: Pos, acc: &mut Vec<Pos>)
    requires
        in_bounds(dimensions, from_pos),
    ensures
        final(acc)@ == old(acc)@ + cand(dimensions, from_pos.x + 2, from_pos.y + 1) + cand(
            dimensions,
            from_pos.x + 2,
            from_pos.y - 1,
        ) + cand(dimensions, from_pos.x - 2, from_pos.y + 1) + cand(
            dimensions,
            from_pos.x - 2,
            from_pos.y - 1,
        ),
{
    let x = from_pos.x;
    let y = from_pos.y;
    let w = dimensions.x;
    let h = dimensions.y;

    // to the right
    if w - x > 2 {
        if h - y > 1 {
            acc.push(Pos { x: x + 2, y: y + 1 });
        }
        if y >= 1 {
            acc.push(Pos { x: x + 2, y: y - 1 });
        }
    }
    proof {
        assert(acc@ =~= old(acc)@ + cand(dimensions, from_pos.x + 2, from_pos.y + 1) + cand(
            dimensions,
            from_pos.x + 2,
            from_pos.y - 1,
        ));
    }
    // to the left
    if x >= 2 {
        if h - y > 1 {
            acc.push(Pos { x: x - 2, y: y + 1 });
        }
        if y >= 1 {
            acc.push(Pos { x: x - 2, y: y - 1 });
        }
    }
    proof {
        assert(acc@ =~= old(acc)@ + cand(dimensions, from_pos.x + 2, from_pos.y + 1) + cand(
            dimensions,
            from_pos.x + 2,
            from_pos.y - 1,
        ) + cand(dimensions, from_pos.x - 2, from_pos.y + 1) + cand(
            dimensions,
            from_pos.x - 2,
            from_pos.y - 1,
        ));
    }
}

/// The four destinations two ranks away: down-right, down-left,
/// up-right, up-left.
fn add_tall_jumps(dimensions: Pos, from_pos: Pos, acc: &mut Vec<Pos>)
    requires
        in_bounds(dimensions, from_pos),
    ensures
        final(acc)@ == old(acc)@ + cand(dimensions, from_pos.x + 1, from_pos.y + 2) + cand(
            dimensions,
            from_pos.x - 1,
            from_pos.y + 2,
        ) + cand(dimensions, from_pos.x + 1, from_pos.y - 2) + cand(
            dimensions,
            from_pos.x - 1,
            from_pos.y - 2,
        ),
{
    let x = from_pos.x;
    let y = from_pos.y;
    let w = dimensions.x;
    let h = dimensions.y;

    // down
    if h - y > 2 {
        if w - x > 1 {
            acc.push(Pos { x: x + 1, y: y + 2 });
        }
        if x >= 1 {
            acc.push(Pos { x: x - 1, y: y + 2 });
        }
    }
    proof {
        assert(acc@ =~= old(acc)@ + cand(dimensions, from_pos.x + 1, from_pos.y + 2) + cand(
            dimensions,
            from_pos.x - 1,
            from_pos.y + 2,
        ));
    }
    // up
    if y >= 2 {
        if w - x > 1 {
            acc.push(Pos { x: x + 1, y: y - 2 });
        }
        if x >= 1 {
            acc.push(Pos { x: x - 1, y: y - 2 });
        }
    }
    proof {
        assert(acc@ =~= old(acc)@ + cand(dimensions, from_pos.x + 1, from_pos.y + 2) + cand(
            dimensions,
            from_pos.x - 1,
            from_pos.y + 2,
        ) + cand(dimensions, from_pos.x + 1, from_pos.y - 2) + cand(
            dimensions,
            from_pos.x - 1,
            from_pos.y - 2,
        ));
    }
}

/// The move generator: appends to `acc` every legal knight destination
/// from `from_pos`, in the fixed generation order.  Pure boundary
/// filtering; occupancy is the caller's concern.
#[verifier::rlimit(50)]
pub fn add_jumps(dimensions: Pos, from_pos: Pos, acc: &mut Vec<Pos>)
    requires
        in_bounds(dimensions, from_pos),
    ensures
        final(acc)@ == old(acc)@ + knight_moves(dimensions, from_pos),
{
    add_wide_jumps(dimensions, from_pos, acc);
    add_tall_jumps(dimensions, from_pos, acc);
    proof {
        assert(acc@ =~= old(acc)@ + knight_moves(dimensions, from_pos));
    }
}

} // verus!
