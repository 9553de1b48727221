//! The backtracking engine: a ghost model of the explicit-stack
//! depth-first search, its well-formedness invariant, and the proofs
//! that every emitted path is a knight's tour and that the search
//! terminates.

use vstd::prelude::*;
use vstd::set_lib::lemma_int_range;
use vstd::set_lib::lemma_len_subset;
use vstd::set_lib::lemma_subset_equality;
use vstd::set_lib::set_int_range;
use vstd::pervasive::VecAdditionalExecFns;
use crate::moves::abs_diff;
use crate::moves::add_jumps;
use crate::moves::all_jumps_from;
use crate::moves::dims_ok;
use crate::moves::in_bounds;
use crate::moves::is_knight_jump;
use crate::moves::knight_moves;
use crate::moves::lemma_knight_moves_sound;
use crate::moves::Pos;

verus! {

/// The mathematical state of one search: board dimensions, the
/// visitation grid (row-major), the explicit stack of
/// (square, pending-close) entries, and the visited-square count.
#[verifier::ext_equal]
pub ghost struct StateV {
    pub dims: Pos,
    pub board: Seq<bool>,
    pub stack: Seq<(Pos, bool)>,
    pub visited: nat,
}

/// Row-major cell index of `p`.
pub open spec fn sq_index(dims: Pos, p: Pos) -> int {
    p.x * dims.y + p.y
}

/// An on-board square's cell index lies within the grid.
pub proof fn lemma_sq_index_bounds(dims: Pos, p: Pos)
    requires
        in_bounds(dims, p),
    ensures
        0 <= sq_index(dims, p) < dims.x * dims.y,
{
    assert(p.x * dims.y + p.y < dims.x * dims.y) by (nonlinear_arith)
        requires
            p.x < dims.x,
            p.y < dims.y,
    ;
}

/// Distinct on-board squares have distinct cell indices.
pub proof fn lemma_sq_index_injective(dims: Pos, p: Pos, q: Pos)
    requires
        in_bounds(dims, p),
        in_bounds(dims, q),
        sq_index(dims, p) == sq_index(dims, q),
    ensures
        p == q,
{
    assert(p.x == q.x && p.y == q.y) by (nonlinear_arith)
        requires
            p.y < dims.y,
            q.y < dims.y,
            p.x * dims.y + p.y == q.x * dims.y + q.y,
    ;
}

/// The squares of the in-progress path: the stack's pending-close
/// entries, bottom to top.
pub open spec fn path_of(stack: Seq<(Pos, bool)>) -> Seq<Pos>
    decreases stack.len(),
{
    if stack.len() == 0 {
        Seq::empty()
    } else if stack.last().1 {
        path_of(stack.drop_last()).push(stack.last().0)
    } else {
        path_of(stack.drop_last())
    }
}

/// The path is never longer than the stack that encodes it.
pub proof fn lemma_path_of_len(stack: Seq<(Pos, bool)>)
    ensures
        path_of(stack).len() <= stack.len(),
    decreases stack.len(),
{
    if stack.len() > 0 {
        lemma_path_of_len(stack.drop_last());
    }
}

/// A stack entry for square `p` is sound relative to the path `below`
/// it: on the board, not yet on that path, and either the search's
/// start square (empty path) or a knight jump from the path's last
/// square.
pub open spec fn entry_ok(dims: Pos, start: Pos, p: Pos, below: Seq<Pos>) -> bool {
    &&& in_bounds(dims, p)
    &&& !below.contains(p)
    &&& if below.len() == 0 {
        p == start
    } else {
        is_knight_jump(below.last(), p)
    }
}

/// Structural invariant of the stack: every entry is sound relative to
/// the path formed by the pending-close entries beneath it.
pub open spec fn stack_ok(dims: Pos, start: Pos, stack: Seq<(Pos, bool)>) -> bool
    decreases stack.len(),
{
    if stack.len() == 0 {
        true
    } else {
        stack_ok(dims, start, stack.drop_last()) && entry_ok(
            dims,
            start,
            stack.last().0,
            path_of(stack.drop_last()),
        )
    }
}

/// A well-formed partial path: all squares on the board and distinct,
/// starting from `start`, consecutive squares one knight jump apart.
pub open spec fn path_ok(dims: Pos, start: Pos, path: Seq<Pos>) -> bool {
    &&& forall|i: int| 0 <= i < path.len() ==> in_bounds(dims, #[trigger] path[i])
    &&& path.len() > 0 ==> path[0] == start
    &&& forall|i: int, j: int| 0 <= i < j < path.len() ==> path[i] != path[j]
    &&& forall|i: int| 0 <= i < path.len() - 1 ==> is_knight_jump(#[trigger] path[i], path[i + 1])
}

/// A complete knight's tour from `start`: a well-formed path covering
/// exactly width x height squares.
pub open spec fn is_tour(dims: Pos, start: Pos, t: Seq<Pos>) -> bool {
    path_ok(dims, start, t) && t.len() == dims.x * dims.y
}

/// A sound stack encodes a well-formed partial path.
pub proof fn lemma_stack_ok_path(dims: Pos, start: Pos, stack: Seq<(Pos, bool)>)
    requires
        stack_ok(dims, start, stack),
    ensures
        path_ok(dims, start, path_of(stack)),
    decreases stack.len(),
{
    if stack.len() > 0 {
        lemma_stack_ok_path(dims, start, stack.drop_last());
        let rest = stack.drop_last();
        let p = stack.last().0;
        if stack.last().1 {
            let pp = path_of(rest).push(p);
            assert(forall|i: int|
                0 <= i < path_of(rest).len() ==> pp[i] == #[trigger] path_of(rest)[i]);
            assert(pp.last() == p);
            assert forall|i: int, j: int| 0 <= i < j < pp.len() implies pp[i] != pp[j] by {
                if j == pp.len() - 1 {
                    assert(path_of(rest).contains(path_of(rest)[i]));
                }
            }
        }
    }
}

/// The state's visitation grid marks exactly the squares of the
/// current path.
pub open spec fn board_matches(v: StateV) -> bool {
    forall|p: Pos|
        in_bounds(v.dims, p) ==> (v.board[sq_index(v.dims, p)] <==> path_of(v.stack).contains(p))
}

/// Well-formedness of a search state for start square `start`.
pub open spec fn wf_state(v: StateV, start: Pos) -> bool {
    &&& dims_ok(v.dims)
    &&& in_bounds(v.dims, start)
    &&& v.board.len() == v.dims.x * v.dims.y
    &&& stack_ok(v.dims, start, v.stack)
    &&& v.visited == path_of(v.stack).len()
    &&& board_matches(v)
}

/// The candidate entries that one advance step appends: the unvisited
/// squares of `ms` (in order), tagged pending-close = false.
pub open spec fn cands_of(dims: Pos, board: Seq<bool>, ms: Seq<Pos>) -> Seq<(Pos, bool)>
    decreases ms.len(),
{
    if ms.len() == 0 {
        Seq::empty()
    } else {
        cands_of(dims, board, ms.drop_last()) + if !board[sq_index(dims, ms.last())] {
            seq![(ms.last(), false)]
        } else {
            Seq::empty()
        }
    }
}

/// Filtering for unvisited squares never lengthens the move list.
pub proof fn lemma_cands_of_len(dims: Pos, board: Seq<bool>, ms: Seq<Pos>)
    ensures
        cands_of(dims, board, ms).len() <= ms.len(),
    decreases ms.len(),
{
    if ms.len() > 0 {
        lemma_cands_of_len(dims, board, ms.drop_last());
    }
}

/// One iteration of the search loop, as a function of the state:
/// returns the next state and the tour emitted by this iteration, if
/// any.  An empty stack is a fixed point.
pub open spec fn spec_step(v: StateV) -> (StateV, Option<Seq<Pos>>) {
    if v.stack.len() == 0 {
        (v, None)
    } else {
        let p = v.stack.last().0;
        let rest = v.stack.drop_last();
        if v.stack.last().1 {
            // retreat: clear the square, shrink the path
            (
                StateV {
                    board: v.board.update(sq_index(v.dims, p), false),
                    stack: rest,
                    visited: (v.visited - 1) as nat,
                    ..v
                },
                None,
            )
        } else {
            // advance: mark the square, re-push pending-close, then
            // push the unvisited knight destinations
            let board2 = v.board.update(sq_index(v.dims, p), true);
            let stack2 = rest.push((p, true));
            let emit: Option<Seq<Pos>> = if v.visited + 1 == v.dims.x * v.dims.y {
                Some(path_of(stack2))
            } else {
                None
            };
            let stack3 = stack2 + cands_of(v.dims, board2, knight_moves(v.dims, p));
            (StateV { board: board2, stack: stack3, visited: (v.visited + 1) as nat, ..v }, emit)
        }
    }
}

/// Membership in a sequence extended by one square.
pub proof fn lemma_push_contains(s: Seq<Pos>, p: Pos, q: Pos)
    ensures
        s.push(p).contains(q) <==> (s.contains(q) || q == p),
{
    if s.contains(q) {
        let i = choose|i: int| 0 <= i < s.len() && s[i] == q;
        assert(s.push(p)[i] == q);
    }
    if q == p {
        assert(s.push(p).last() == q);
    }
    if s.push(p).contains(q) {
        let i = choose|i: int| 0 <= i < s.push(p).len() && s.push(p)[i] == q;
        if i < s.len() {
            assert(s[i] == q);
        }
    }
}

/// Pigeonhole over the board: a duplicate-free sequence of on-board
/// squares has at most width x height entries, and one of exactly that
/// length visits every square of the board.
pub proof fn lemma_distinct_squares(dims: Pos, s: Seq<Pos>)
    requires
        forall|i: int, j: int| 0 <= i < j < s.len() ==> s[i] != s[j],
        forall|i: int| 0 <= i < s.len() ==> in_bounds(dims, #[trigger] s[i]),
    ensures
        s.len() <= dims.x * dims.y,
        s.len() == dims.x * dims.y ==> (forall|q: Pos| in_bounds(dims, q) ==> s.contains(q)),
{
    broadcast use vstd::set::group_set_axioms;

    let total = (dims.x * dims.y) as int;
    let t = s.map_values(|p: Pos| sq_index(dims, p));
    assert(t.no_duplicates()) by {
        assert forall|i: int, j: int|
            0 <= i < t.len() && 0 <= j < t.len() && i != j implies t[i] != t[j] by {
            if t[i] == t[j] {
                lemma_sq_index_injective(dims, s[i], s[j]);
            }
        }
    }
    let range = set_int_range(0, total);
    lemma_int_range(0, total);
    assert(t.to_set().subset_of(range)) by {
        assert forall|a: int| t.to_set().contains(a) implies range.contains(a) by {
            let i = choose|i: int| 0 <= i < t.len() && t[i] == a;
            lemma_sq_index_bounds(dims, s[i]);
        }
    }
    t.unique_seq_to_set();
    lemma_len_subset(t.to_set(), range);
    if s.len() == dims.x * dims.y {
        lemma_subset_equality(t.to_set(), range);
        assert forall|q: Pos| in_bounds(dims, q) implies s.contains(q) by {
            lemma_sq_index_bounds(dims, q);
            assert(range.contains(sq_index(dims, q)));
            assert(t.contains(sq_index(dims, q)));
            let i = choose|i: int| 0 <= i < t.len() && t[i] == sq_index(dims, q);
            lemma_sq_index_injective(dims, s[i], q);
            assert(s[i] == q);
        }
    }
}

/// Appending the unvisited knight destinations of the path's last
/// square keeps the stack sound and leaves the path unchanged.
pub proof fn lemma_cands_extend(
    dims: Pos,
    start: Pos,
    stack: Seq<(Pos, bool)>,
    board: Seq<bool>,
    ms: Seq<Pos>,
    p: Pos,
)
    requires
        stack_ok(dims, start, stack),
        path_of(stack).len() > 0,
        path_of(stack).last() == p,
        all_jumps_from(dims, p, ms),
        forall|q: Pos|
            in_bounds(dims, q) ==> (board[sq_index(dims, q)] <==> path_of(stack).contains(q)),
    ensures
        stack_ok(dims, start, stack + cands_of(dims, board, ms)),
        path_of(stack + cands_of(dims, board, ms)) == path_of(stack),
    decreases ms.len(),
{
    if ms.len() == 0 {
        assert(stack + cands_of(dims, board, ms) =~= stack);
    } else {
        let ms0 = ms.drop_last();
        let q = ms.last();
        assert(all_jumps_from(dims, p, ms0)) by {
            assert(forall|i: int| 0 <= i < ms0.len() ==> ms0[i] == #[trigger] ms[i]);
        }
        lemma_cands_extend(dims, start, stack, board, ms0, p);
        let a = stack + cands_of(dims, board, ms0);
        assert(ms[ms.len() - 1] == q);
        if !board[sq_index(dims, q)] {
            let b = a.push((q, false));
            assert(stack + cands_of(dims, board, ms) =~= b);
            assert(b.drop_last() =~= a);
            assert(b.last() == (q, false));
            assert(path_of(b) == path_of(a));
            assert(entry_ok(dims, start, q, path_of(a)));
            assert(stack_ok(dims, start, b));
        } else {
            assert(stack + cands_of(dims, board, ms) =~= a);
        }
    }
}

/// One step of the loop preserves well-formedness, and anything it
/// emits is a complete knight's tour from `start`.
pub proof fn lemma_step_preserves_wf(v: StateV, start: Pos)
    requires
        wf_state(v, start),
    ensures
        wf_state(spec_step(v).0, start),
        spec_step(v).0.dims == v.dims,
        match spec_step(v).1 {
            Some(t) => is_tour(v.dims, start, t),
            None => true,
        },
{
    let st = v.stack;
    if st.len() > 0 {
        let p = st.last().0;
        let rest = st.drop_last();
        let pp = path_of(rest);
        assert(entry_ok(v.dims, start, p, pp));
        lemma_sq_index_bounds(v.dims, p);
        if st.last().1 {
            // retreat: the path loses its last square
            let v2 = spec_step(v).0;
            assert(path_of(st) == pp.push(p));
            assert(v2.visited == pp.len());
            assert(board_matches(v2)) by {
                assert forall|q: Pos|
                    in_bounds(v.dims, q) implies (v2.board[sq_index(v.dims, q)]
                    <==> path_of(v2.stack).contains(q)) by {
                    lemma_sq_index_bounds(v.dims, q);
                    lemma_push_contains(pp, p, q);
                    if q != p && sq_index(v.dims, q) == sq_index(v.dims, p) {
                        lemma_sq_index_injective(v.dims, q, p);
                    }
                }
            }
        } else {
            // advance: the path gains `p`, then candidates are pushed
            let board2 = v.board.update(sq_index(v.dims, p), true);
            let stack2 = rest.push((p, true));
            assert(path_of(st) == pp);
            assert(stack2.drop_last() =~= rest);
            assert(stack2.last() == (p, true));
            assert(stack_ok(v.dims, start, stack2));
            assert(path_of(stack2) == pp.push(p));
            assert forall|q: Pos|
                in_bounds(v.dims, q) implies (board2[sq_index(v.dims, q)] <==> path_of(
                stack2,
            ).contains(q)) by {
                lemma_sq_index_bounds(v.dims, q);
                lemma_push_contains(pp, p, q);
                if q != p && sq_index(v.dims, q) == sq_index(v.dims, p) {
                    lemma_sq_index_injective(v.dims, q, p);
                }
            }
            lemma_knight_moves_sound(v.dims, p);
            lemma_cands_extend(v.dims, start, stack2, board2, knight_moves(v.dims, p), p);
            let v2 = spec_step(v).0;
            assert(path_of(v2.stack) == pp.push(p));
            assert(v2.visited == pp.len() + 1);
            assert(board_matches(v2));
            match spec_step(v).1 {
                Some(t) => {
                    assert(t == path_of(stack2));
                    lemma_stack_ok_path(v.dims, start, stack2);
                    assert(t.len() == v.visited + 1);
                    assert(is_tour(v.dims, start, t));
                },
                None => {},
            }
        }
    }
}

/// Work bound for one pending candidate with `r` unvisited squares
/// left (the candidate itself included): an advance and a retreat,
/// plus at most eight deeper candidates.
pub open spec fn weight_h(r: nat) -> nat
    decreases r,
{
    if r <= 1 {
        2
    } else {
        2 + 8 * weight_h((r - 1) as nat)
    }
}

pub open spec fn cand_weight(total: nat, depth: nat) -> nat {
    weight_h(if total > depth {
        (total - depth) as nat
    } else {
        0
    })
}

pub open spec fn entry_weight(total: nat, e: (Pos, bool), depth: nat) -> nat {
    if e.1 {
        1
    } else {
        cand_weight(total, depth)
    }
}

/// Termination measure of the search loop: total remaining work over
/// all stack entries, each weighed at its own depth.
pub open spec fn potential(total: nat, stack: Seq<(Pos, bool)>) -> nat
    decreases stack.len(),
{
    if stack.len() == 0 {
        0
    } else {
        potential(total, stack.drop_last()) + entry_weight(
            total,
            stack.last(),
            path_of(stack.drop_last()).len(),
        )
    }
}

pub open spec fn spec_potential(v: StateV) -> nat {
    potential((v.dims.x * v.dims.y) as nat, v.stack)
}

/// Appending candidate entries adds their (depth-determined) weights
/// to the potential and leaves the path unchanged.
pub proof fn lemma_pot_append_cands(
    dims: Pos,
    total: nat,
    stack: Seq<(Pos, bool)>,
    board: Seq<bool>,
    ms: Seq<Pos>,
)
    ensures
        path_of(stack + cands_of(dims, board, ms)) == path_of(stack),
        potential(total, stack + cands_of(dims, board, ms)) == potential(total, stack) + cands_of(
            dims,
            board,
            ms,
        ).len() * cand_weight(total, path_of(stack).len()),
    decreases ms.len(),
{
    let w = cand_weight(total, path_of(stack).len());
    if ms.len() == 0 {
        assert(stack + cands_of(dims, board, ms) =~= stack);
    } else {
        let ms0 = ms.drop_last();
        let q = ms.last();
        lemma_pot_append_cands(dims, total, stack, board, ms0);
        let a = stack + cands_of(dims, board, ms0);
        let n0 = cands_of(dims, board, ms0).len();
        if !board[sq_index(dims, q)] {
            let b = a.push((q, false));
            assert(stack + cands_of(dims, board, ms) =~= b);
            assert(b.drop_last() =~= a);
            assert(b.last() == (q, false));
            assert(path_of(b) == path_of(a));
            assert(potential(total, b) == potential(total, a) + w);
            assert((n0 + 1) * w == n0 * w + w) by (nonlinear_arith);
            assert(cands_of(dims, board, ms).len() == n0 + 1);
        } else {
            assert(stack + cands_of(dims, board, ms) =~= a);
        }
    }
}

/// When every destination is already marked, nothing is pushed.
pub proof fn lemma_cands_of_all_visited(dims: Pos, board: Seq<bool>, ms: Seq<Pos>)
    requires
        forall|i: int| 0 <= i < ms.len() ==> board[sq_index(dims, #[trigger] ms[i])],
    ensures
        cands_of(dims, board, ms).len() == 0,
    decreases ms.len(),
{
    if ms.len() > 0 {
        let ms0 = ms.drop_last();
        assert(forall|i: int| 0 <= i < ms0.len() ==> ms0[i] == #[trigger] ms[i]);
        lemma_cands_of_all_visited(dims, board, ms0);
        assert(ms[ms.len() - 1] == ms.last());
    }
}

/// Each iteration on a non-empty stack strictly decreases the
/// potential: the search terminates.
pub proof fn lemma_step_decreases(v: StateV, start: Pos)
    requires
        wf_state(v, start),
        v.stack.len() > 0,
    ensures
        spec_potential(spec_step(v).0) < spec_potential(v),
{
    let total = (v.dims.x * v.dims.y) as nat;
    let st = v.stack;
    let p = st.last().0;
    let rest = st.drop_last();
    let pp = path_of(rest);
    assert(entry_ok(v.dims, start, p, pp));
    lemma_sq_index_bounds(v.dims, p);
    if st.last().1 {
        assert(spec_potential(spec_step(v).0) == potential(total, rest));
        assert(spec_potential(v) == potential(total, rest) + 1);
    } else {
        let d = pp.len();
        lemma_stack_ok_path(v.dims, start, rest);
        // the extended path pp + p is duplicate-free and on the board,
        // so it has at most `total` squares
        let ppp = pp.push(p);
        assert(forall|i: int| 0 <= i < pp.len() ==> ppp[i] == #[trigger] pp[i]);
        assert(forall|i: int, j: int| 0 <= i < j < ppp.len() ==> ppp[i] != ppp[j]) by {
            assert(forall|i: int|
                0 <= i < pp.len() && ppp[i] == p ==> pp.contains(#[trigger] ppp[i]));
        }
        lemma_distinct_squares(v.dims, ppp);
        assert(d + 1 <= total);
        let r = (total - d) as nat;
        let board2 = v.board.update(sq_index(v.dims, p), true);
        let stack2 = rest.push((p, true));
        assert(stack2.drop_last() =~= rest);
        assert(stack2.last() == (p, true));
        assert(path_of(stack2) == ppp);
        assert(potential(total, stack2) == potential(total, rest) + 1);
        let ms = knight_moves(v.dims, p);
        let cs = cands_of(v.dims, board2, ms);
        lemma_pot_append_cands(v.dims, total, stack2, board2, ms);
        assert(spec_potential(spec_step(v).0) == potential(total, rest) + 1 + cs.len()
            * cand_weight(total, d + 1));
        assert(spec_potential(v) == potential(total, rest) + cand_weight(total, d));
        assert(cand_weight(total, d) == weight_h(r));
        lemma_knight_moves_sound(v.dims, p);
        if r == 1 {
            // the path is full: every candidate square is marked, so
            // nothing is pushed
            assert(ppp.len() == total);
            assert(forall|q: Pos| in_bounds(v.dims, q) ==> ppp.contains(q));
            assert forall|i: int| 0 <= i < ms.len() implies board2[sq_index(
                v.dims,
                #[trigger] ms[i],
            )] by {
                let q = ms[i];
                lemma_sq_index_bounds(v.dims, q);
                lemma_push_contains(pp, p, q);
                if q != p && sq_index(v.dims, q) == sq_index(v.dims, p) {
                    lemma_sq_index_injective(v.dims, q, p);
                }
                assert(ppp.contains(q));
            }
            lemma_cands_of_all_visited(v.dims, board2, ms);
            assert(weight_h(r) == 2);
        } else {
            assert(weight_h(r) == 2 + 8 * weight_h((r - 1) as nat));
            assert(cand_weight(total, d + 1) == weight_h((r - 1) as nat));
            lemma_cands_of_len(v.dims, board2, ms);
            assert(cs.len() <= 8);
            assert(cs.len() * weight_h((r - 1) as nat) <= 8 * weight_h((r - 1) as nat))
                by (nonlinear_arith)
                requires
                    cs.len() <= 8,
            ;
        }
    }
}

/// `n` iterations of the loop from `v`.
pub open spec fn spec_steps(v: StateV, n: nat) -> StateV
    decreases n,
{
    if n == 0 {
        v
    } else {
        spec_steps(spec_step(v).0, (n - 1) as nat)
    }
}

pub open spec fn emit_seq(e: Option<Seq<Pos>>) -> Seq<Seq<Pos>> {
    match e {
        Some(t) => seq![t],
        None => Seq::empty(),
    }
}

/// The tours emitted during the first `n` iterations from `v`, in
/// emission order.
pub open spec fn spec_trace(v: StateV, n: nat) -> Seq<Seq<Pos>>
    decreases n,
{
    if n == 0 {
        Seq::empty()
    } else {
        emit_seq(spec_step(v).1) + spec_trace(spec_step(v).0, (n - 1) as nat)
    }
}

/// Unrolling a run at its tail: one more iteration extends the trace
/// by that iteration's emission.
pub proof fn lemma_steps_snoc(v: StateV, n: nat)
    ensures
        spec_steps(v, n + 1) == spec_step(spec_steps(v, n)).0,
        spec_trace(v, n + 1) == spec_trace(v, n) + emit_seq(spec_step(spec_steps(v, n)).1),
    decreases n,
{
    if n == 0 {
        assert(spec_steps(spec_step(v).0, 0) == spec_step(v).0);
        assert(spec_steps(v, 1) == spec_steps(spec_step(v).0, 0));
        assert(spec_trace(v, 1) =~= emit_seq(spec_step(v).1) + spec_trace(spec_step(v).0, 0));
        assert(spec_trace(v, 1) =~= spec_trace(v, 0) + emit_seq(spec_step(spec_steps(v, 0)).1));
    } else {
        let v1 = spec_step(v).0;
        lemma_steps_snoc(v1, (n - 1) as nat);
        assert(spec_steps(v, n + 1) == spec_steps(v1, n));
        assert(spec_steps(v, n) == spec_steps(v1, (n - 1) as nat));
        assert(spec_steps(v1, (n - 1) as nat + 1) == spec_step(spec_steps(v1, (n - 1) as nat)).0);
        assert(spec_trace(v, n + 1) =~= spec_trace(v, n) + emit_seq(spec_step(spec_steps(v, n)).1));
    }
}

/// Runs compose: `m + n` iterations are `m`, then `n` from where `m`
/// left off, and the traces concatenate accordingly.
pub proof fn lemma_steps_add(v: StateV, m: nat, n: nat)
    ensures
        spec_steps(v, m + n) == spec_steps(spec_steps(v, m), n),
        spec_trace(v, m + n) == spec_trace(v, m) + spec_trace(spec_steps(v, m), n),
    decreases m,
{
    if m == 0 {
        assert(spec_trace(v, n) =~= spec_trace(v, 0) + spec_trace(spec_steps(v, 0), n));
    } else {
        let v1 = spec_step(v).0;
        lemma_steps_add(v1, (m - 1) as nat, n);
        assert(m + n - 1 == (m - 1) as nat + n);
        assert(spec_trace(v, m + n) =~= spec_trace(v, m) + spec_trace(spec_steps(v, m), n));
    }
}

/// An exhausted search stays exhausted and emits nothing more.
pub proof fn lemma_empty_run(v: StateV, n: nat)
    requires
        v.stack.len() == 0,
    ensures
        spec_steps(v, n) == v,
        spec_trace(v, n) == Seq::<Seq<Pos>>::empty(),
    decreases n,
{
    if n > 0 {
        assert(spec_step(v).0 == v);
        lemma_empty_run(v, (n - 1) as nat);
        assert(spec_trace(v, n) =~= Seq::<Seq<Pos>>::empty());
    }
}

/// Once the stack has emptied, running longer changes nothing.
pub proof fn lemma_run_stable(v: StateV, n: nat, m: nat)
    requires
        spec_steps(v, n).stack.len() == 0,
        n <= m,
    ensures
        spec_steps(v, m) == spec_steps(v, n),
        spec_trace(v, m) == spec_trace(v, n),
{
    let k = (m - n) as nat;
    lemma_steps_add(v, n, k);
    lemma_empty_run(spec_steps(v, n), k);
    assert(spec_trace(v, m) =~= spec_trace(v, n));
}

/// The engine is deterministic: any two complete runs from the same
/// state (however many iterations each was given past exhaustion)
/// emit exactly the same tours in the same order.  Hence the batch
/// and lazy strategies, which both pin their output to a complete
/// run's trace, return identical ordered results, and re-running
/// either on the same input reproduces its output.
pub proof fn lemma_enumeration_deterministic(v: StateV, n1: nat, n2: nat)
    requires
        spec_steps(v, n1).stack.len() == 0,
        spec_steps(v, n2).stack.len() == 0,
    ensures
        spec_trace(v, n1) == spec_trace(v, n2),
{
    if n1 <= n2 {
        lemma_run_stable(v, n1, n2);
    } else {
        lemma_run_stable(v, n2, n1);
    }
}

/// The path of a concatenated stack is the concatenation of the
/// paths.
pub proof fn lemma_path_of_concat(a: Seq<(Pos, bool)>, b: Seq<(Pos, bool)>)
    ensures
        path_of(a + b) == path_of(a) + path_of(b),
    decreases b.len(),
{
    if b.len() == 0 {
        assert(a + b =~= a);
        assert(path_of(a) + path_of(b) =~= path_of(a));
    } else {
        let b0 = b.drop_last();
        lemma_path_of_concat(a, b0);
        assert((a + b).drop_last() =~= a + b0);
        assert((a + b).last() == b.last());
        if b.last().1 {
            assert(path_of(a + b) == (path_of(a) + path_of(b0)).push(b.last().0));
            assert((path_of(a) + path_of(b0)).push(b.last().0) =~= path_of(a) + path_of(
                b0,
            ).push(b.last().0));
        }
    }
}

/// Well-formedness holds along a whole run, not only across one step.
pub proof fn lemma_steps_preserve_wf(v: StateV, start: Pos, n: nat)
    requires
        wf_state(v, start),
    ensures
        wf_state(spec_steps(v, n), start),
        spec_steps(v, n).dims == v.dims,
    decreases n,
{
    if n > 0 {
        lemma_step_preserves_wf(v, start);
        lemma_steps_preserve_wf(spec_step(v).0, start, (n - 1) as nat);
    }
}

/// Every well-formed search runs dry: some number of iterations
/// empties the stack.
pub proof fn lemma_run_terminates(v: StateV, start: Pos)
    requires
        wf_state(v, start),
    ensures
        exists|n: nat| #[trigger] spec_steps(v, n).stack.len() == 0,
    decreases spec_potential(v),
{
    if v.stack.len() == 0 {
        assert(spec_steps(v, 0).stack.len() == 0);
    } else {
        lemma_step_preserves_wf(v, start);
        lemma_step_decreases(v, start);
        lemma_run_terminates(spec_step(v).0, start);
        let n = choose|n: nat| #[trigger] spec_steps(spec_step(v).0, n).stack.len() == 0;
        assert(spec_steps(v, n + 1) == spec_steps(spec_step(v).0, n));
        assert(spec_steps(v, n + 1).stack.len() == 0);
    }
}

/// Every cell index names a board square.
pub proof fn lemma_sq_index_surjective(dims: Pos, i: int)
    requires
        dims_ok(dims),
        0 <= i < dims.x * dims.y,
    ensures
        exists|q: Pos| in_bounds(dims, q) && #[trigger] sq_index(dims, q) == i,
{
    let h = dims.y as int;
    let x = i / h;
    let y = i % h;
    assert(0 <= y < h && i == h * (i / h) + i % h) by {
        vstd::arithmetic::div_mod::lemma_fundamental_div_mod(i, h);
        vstd::arithmetic::div_mod::lemma_mod_bound(i, h);
    }
    assert(x < dims.x) by (nonlinear_arith)
        requires
            0 <= i < dims.x * dims.y,
            x == i / (dims.y as int),
            0 <= i % (dims.y as int),
            i == (dims.y as int) * x + i % (dims.y as int),
            dims.y >= 1,
    ;
    assert(0 <= x) by {
        vstd::arithmetic::div_mod::lemma_div_pos_is_pos(i, h);
    }
    let q = Pos { x: x as usize, y: y as usize };
    assert(q.x as int == x && q.y as int == y);
    assert(q.x * dims.y + q.y == x * h + y);
    assert(x * h == h * x) by (nonlinear_arith);
    assert(in_bounds(dims, q) && sq_index(dims, q) == i);
}

/// A state whose whole stack is one pending-close entry retreats once
/// and stops, emitting nothing.
pub proof fn lemma_single_close_trace(w: StateV, k: nat)
    requires
        w.stack.len() == 1,
        w.stack.last().1,
    ensures
        spec_trace(w, k) == Seq::<Seq<Pos>>::empty(),
        k >= 1 ==> spec_steps(w, k).stack.len() == 0,
    decreases k,
{
    if k > 0 {
        let w1 = spec_step(w).0;
        assert(w1.stack =~= w.stack.drop_last());
        assert(w1.stack.len() == 0);
        lemma_empty_run(w1, (k - 1) as nat);
        assert(spec_steps(w, k) == spec_steps(w1, (k - 1) as nat));
        assert(spec_trace(w, k) =~= Seq::<Seq<Pos>>::empty());
    }
}

/// One step of two searches whose stacks differ only in a prefix with
/// the same pending-close squares: both act on the shared suffix, so
/// the grids, counts and emissions stay equal and the suffix stays
/// shared.
pub proof fn lemma_lockstep_step(
    v1: StateV,
    v2: StateV,
    c1: Seq<(Pos, bool)>,
    c2: Seq<(Pos, bool)>,
    d: Seq<(Pos, bool)>,
)
    requires
        v1.dims == v2.dims,
        v1.board == v2.board,
        v1.visited == v2.visited,
        v1.stack == c1 + d,
        v2.stack == c2 + d,
        path_of(c1) == path_of(c2),
        d.len() > 0,
    ensures
        spec_step(v1).0.dims == v1.dims,
        spec_step(v2).0.dims == v2.dims,
        spec_step(v1).0.board == spec_step(v2).0.board,
        spec_step(v1).0.visited == spec_step(v2).0.visited,
        spec_step(v1).1 == spec_step(v2).1,
        exists|d2: Seq<(Pos, bool)>|
            #![trigger c1 + d2]
            spec_step(v1).0.stack == c1 + d2 && spec_step(v2).0.stack == c2 + d2,
{
    let e = d.last();
    let d0 = d.drop_last();
    assert(v1.stack.last() == e);
    assert(v2.stack.last() == e);
    assert(v1.stack.drop_last() =~= c1 + d0);
    assert(v2.stack.drop_last() =~= c2 + d0);
    if e.1 {
        assert(spec_step(v1).0.stack == c1 + d0 && spec_step(v2).0.stack == c2 + d0);
    } else {
        let p = e.0;
        let board2 = v1.board.update(sq_index(v1.dims, p), true);
        let d1 = d0.push((p, true));
        assert((c1 + d0).push((p, true)) =~= c1 + d1);
        assert((c2 + d0).push((p, true)) =~= c2 + d1);
        let cs = cands_of(v1.dims, board2, knight_moves(v1.dims, p));
        let d2 = d1 + cs;
        assert((c1 + d1) + cs =~= c1 + d2);
        assert((c2 + d1) + cs =~= c2 + d2);
        assert(spec_step(v1).0.stack == c1 + d2 && spec_step(v2).0.stack == c2 + d2);
        if v1.visited + 1 == v1.dims.x * v1.dims.y {
            lemma_path_of_concat(c1, d1);
            lemma_path_of_concat(c2, d1);
            assert(path_of((c1 + d0).push((p, true))) == path_of(c1) + path_of(d1));
            assert(path_of((c2 + d0).push((p, true))) == path_of(c2) + path_of(d1));
        }
    }
}

/// Two searches that share a stack suffix run in lockstep until the
/// suffix is used up: at that moment each is back to its own prefix,
/// with identical grids, counts, and emitted tours.
pub proof fn lemma_lockstep(
    v1: StateV,
    v2: StateV,
    c1: Seq<(Pos, bool)>,
    c2: Seq<(Pos, bool)>,
    d: Seq<(Pos, bool)>,
    n: nat,
)
    requires
        v1.dims == v2.dims,
        v1.board == v2.board,
        v1.visited == v2.visited,
        v1.stack == c1 + d,
        v2.stack == c2 + d,
        path_of(c1) == path_of(c2),
        spec_steps(v2, n).stack.len() == 0,
    ensures
        exists|t: nat|
            #![trigger spec_steps(v1, t)]
            {
                &&& t <= n
                &&& spec_steps(v1, t).stack == c1
                &&& spec_steps(v2, t).stack == c2
                &&& spec_steps(v1, t).dims == v1.dims
                &&& spec_steps(v2, t).dims == v2.dims
                &&& spec_steps(v1, t).board == spec_steps(v2, t).board
                &&& spec_steps(v1, t).visited == spec_steps(v2, t).visited
                &&& spec_trace(v1, t) == spec_trace(v2, t)
            },
    decreases n,
{
    if d.len() == 0 {
        let t: nat = 0;
        assert(v1.stack =~= c1);
        assert(v2.stack =~= c2);
        assert(spec_steps(v1, t).stack == c1);
        assert(spec_steps(v2, t).stack == c2);
        assert(spec_trace(v1, t) == spec_trace(v2, t));
    } else if n == 0 {
        assert(spec_steps(v2, 0) == v2);
        assert(v2.stack.len() > 0);
        assert(false);
    } else {
        lemma_lockstep_step(v1, v2, c1, c2, d);
        let w1 = spec_step(v1).0;
        let w2 = spec_step(v2).0;
        let d2 = choose|d2: Seq<(Pos, bool)>| #![trigger c1 + d2] w1.stack == c1 + d2 && w2.stack == c2 + d2;
        assert(spec_steps(v2, n) == spec_steps(w2, (n - 1) as nat));
        lemma_lockstep(w1, w2, c1, c2, d2, (n - 1) as nat);
        let t0 = choose|t: nat|
            #![trigger spec_steps(w1, t)]
            {
                &&& t <= (n - 1) as nat
                &&& spec_steps(w1, t).stack == c1
                &&& spec_steps(w2, t).stack == c2
                &&& spec_steps(w1, t).dims == w1.dims
                &&& spec_steps(w2, t).dims == w2.dims
                &&& spec_steps(w1, t).board == spec_steps(w2, t).board
                &&& spec_steps(w1, t).visited == spec_steps(w2, t).visited
                &&& spec_trace(w1, t) == spec_trace(w2, t)
            };
        let t = t0 + 1;
        assert(spec_steps(v1, t) == spec_steps(w1, t0));
        assert(spec_steps(v2, t) == spec_steps(w2, t0));
        assert(spec_trace(v1, t) == emit_seq(spec_step(v1).1) + spec_trace(w1, t0));
        assert(spec_trace(v2, t) == emit_seq(spec_step(v2).1) + spec_trace(w2, t0));
    }
}

/// A knight's tour visits every board square exactly once: together
/// with the duplicate-freedom built into `is_tour`, every square of
/// the board occurs in the tour (and so occurs exactly once).
pub proof fn lemma_tour_covers_board(dims: Pos, start: Pos, t: Seq<Pos>)
    requires
        is_tour(dims, start, t),
    ensures
        forall|q: Pos| in_bounds(dims, q) ==> t.contains(q),
{
    lemma_distinct_squares(dims, t);
}

/// On a board at most two files wide, every legal jump moves exactly
/// two ranks, so the rank parity along any path never changes.
#[verifier::rlimit(50)]
pub proof fn lemma_narrow_y_parity(dims: Pos, start: Pos, t: Seq<Pos>, i: int)
    requires
        dims.x < 3,
        path_ok(dims, start, t),
        0 <= i < t.len(),
    ensures
        t[i].y % 2 == t[0].y % 2,
    decreases i,
{
    if i > 0 {
        lemma_narrow_y_parity(dims, start, t, i - 1);
        let a = t[i - 1];
        let b = t[i];
        assert(is_knight_jump(a, b));
        assert(in_bounds(dims, a) && in_bounds(dims, b));
        assert(abs_diff(a.x as int, b.x as int) < 2);
        assert(abs_diff(a.y as int, b.y as int) == 2);
        assert(b.y == a.y + 2 || a.y == b.y + 2);
        assert(b.y % 2 == a.y % 2);
    }
}

/// The same on a board at most two ranks tall: the file parity along
/// any path never changes.
#[verifier::rlimit(50)]
pub proof fn lemma_narrow_x_parity(dims: Pos, start: Pos, t: Seq<Pos>, i: int)
    requires
        dims.y < 3,
        path_ok(dims, start, t),
        0 <= i < t.len(),
    ensures
        t[i].x % 2 == t[0].x % 2,
    decreases i,
{
    if i > 0 {
        lemma_narrow_x_parity(dims, start, t, i - 1);
        let a = t[i - 1];
        let b = t[i];
        assert(is_knight_jump(a, b));
        assert(in_bounds(dims, a) && in_bounds(dims, b));
        assert(abs_diff(a.y as int, b.y as int) < 2);
        assert(abs_diff(a.x as int, b.x as int) == 2);
        assert(b.x == a.x + 2 || a.x == b.x + 2);
        assert(b.x % 2 == a.x % 2);
    }
}

/// A board with more than one square but width or height below three
/// admits no tour.  On such a board every legal jump is forced to
/// displace by two along the longer side, which freezes the parity of
/// that coordinate along the whole path; a tour, though, must cover
/// two adjacent squares of opposite parity.  (In the degenerate strip
/// of height or width one, no jump fits at all.)
pub proof fn lemma_no_tour_on_narrow_board(dims: Pos, start: Pos, t: Seq<Pos>)
    requires
        dims.x < 3 || dims.y < 3,
        dims.x * dims.y > 1,
    ensures
        !is_tour(dims, start, t),
{
    if is_tour(dims, start, t) {
        assert(t.len() >= 2);
        lemma_tour_covers_board(dims, start, t);
        if dims.x < 3 {
            if dims.y == 1 {
                // a jump would have to move a rank that does not exist
                assert(is_knight_jump(t[0], t[1]));
                assert(in_bounds(dims, t[0]) && in_bounds(dims, t[1]));
            } else {
                let q0 = Pos { x: 0, y: 0 };
                let q1 = Pos { x: 0, y: 1 };
                assert(in_bounds(dims, q0) && in_bounds(dims, q1));
                assert(t.contains(q0) && t.contains(q1));
                let i0 = choose|k: int| 0 <= k < t.len() && t[k] == q0;
                let i1 = choose|k: int| 0 <= k < t.len() && t[k] == q1;
                lemma_narrow_y_parity(dims, start, t, i0);
                lemma_narrow_y_parity(dims, start, t, i1);
            }
        } else {
            if dims.x == 1 {
                assert(is_knight_jump(t[0], t[1]));
                assert(in_bounds(dims, t[0]) && in_bounds(dims, t[1]));
            } else {
                let q0 = Pos { x: 0, y: 0 };
                let q1 = Pos { x: 1, y: 0 };
                assert(in_bounds(dims, q0) && in_bounds(dims, q1));
                assert(t.contains(q0) && t.contains(q1));
                let i0 = choose|k: int| 0 <= k < t.len() && t[k] == q0;
                let i1 = choose|k: int| 0 <= k < t.len() && t[k] == q1;
                lemma_narrow_x_parity(dims, start, t, i0);
                lemma_narrow_x_parity(dims, start, t, i1);
            }
        }
    }
}

/// The one-square board has exactly one tour, the trivial one: any
/// complete run from its initial state emits the single-square path
/// and nothing else.
pub proof fn lemma_one_square_board(dims: Pos, start: Pos, n: nat)
    requires
        dims.x == 1,
        dims.y == 1,
        in_bounds(dims, start),
        spec_steps(init_state(dims, start), n).stack.len() == 0,
    ensures
        spec_trace(init_state(dims, start), n) == seq![seq![start]],
{
    let v0 = init_state(dims, start);
    assert(spec_steps(v0, 0) == v0);
    assert(n > 0);
    let st = v0.stack;
    assert(st.last() == (start, false));
    assert(st.drop_last() =~= Seq::<(Pos, bool)>::empty());
    assert(knight_moves(dims, start) =~= Seq::<Pos>::empty());
    let stack2 = st.drop_last().push((start, true));
    assert(stack2 =~= seq![(start, true)]);
    assert(path_of(stack2.drop_last()) == Seq::<Pos>::empty()) by {
        assert(stack2.drop_last() =~= Seq::<(Pos, bool)>::empty());
    }
    assert(path_of(stack2) == Seq::<Pos>::empty().push(start));
    assert(cands_of(v0.dims, v0.board.update(sq_index(dims, start), true), knight_moves(dims, start))
        == Seq::<(Pos, bool)>::empty());
    let v1 = spec_step(v0).0;
    assert(v1.stack =~= seq![(start, true)]);
    assert(spec_step(v0).1 == Some(Seq::<Pos>::empty().push(start)));
    lemma_single_close_trace(v1, (n - 1) as nat);
    assert(spec_trace(v0, n) =~= seq![seq![start]]) by {
        assert(spec_trace(v0, n) == emit_seq(spec_step(v0).1) + spec_trace(v1, (n - 1) as nat));
        assert(emit_seq(spec_step(v0).1) =~= seq![Seq::<Pos>::empty().push(start)]);
        assert(Seq::<Pos>::empty().push(start) =~= seq![start]);
    }
}

/// The all-false visitation grid.
pub open spec fn empty_board(dims: Pos) -> Seq<bool> {
    Seq::new((dims.x * dims.y) as nat, |i: int| false)
}

/// The state a fresh search begins in: nothing visited, the start
/// square pending as the one candidate.
pub open spec fn init_state(dims: Pos, start: Pos) -> StateV {
    StateV {
        dims,
        board: empty_board(dims),
        stack: seq![(start, false)],
        visited: 0,
    }
}

/// A fresh search state is well-formed.
pub proof fn lemma_init_wf(dims: Pos, start: Pos)
    requires
        dims_ok(dims),
        in_bounds(dims, start),
    ensures
        wf_state(init_state(dims, start), start),
{
    let v = init_state(dims, start);
    let st = v.stack;
    assert(st.drop_last() =~= Seq::<(Pos, bool)>::empty());
    assert(path_of(st.drop_last()) == Seq::<Pos>::empty());
    assert(st.last() == (start, false));
    assert(stack_ok(dims, start, st.drop_last()));
    assert(entry_ok(dims, start, start, path_of(st.drop_last())));
    assert(stack_ok(dims, start, st));
    assert(path_of(st) == Seq::<Pos>::empty());
    assert forall|q: Pos|
        in_bounds(dims, q) implies (v.board[sq_index(dims, q)] <==> path_of(v.stack).contains(
        q,
    )) by {
        lemma_sq_index_bounds(dims, q);
        assert(!v.board[sq_index(dims, q)]);
        assert(!path_of(v.stack).contains(q));
    }
}

pub open spec fn opt_tour_view(r: Option<Vec<Pos>>) -> Option<Seq<Pos>> {
    match r {
        Some(t) => Some(t@),
        None => None,
    }
}

/// A fresh all-false visitation grid.
pub fn empty_board_vec(dims: Pos) -> (b: Vec<bool>)
    requires
        dims_ok(dims),
    ensures
        b@ == empty_board(dims),
{
    let total = dims.x * dims.y;
    let mut board: Vec<bool> = Vec::new();
    let mut k: usize = 0;
    while k < total
        invariant
            k <= total,
            board@.len() == k,
            forall|i: int| 0 <= i < k ==> !board@[i],
        decreases total - k,
    {
        board.push(false);
        k = k + 1;
    }
    proof {
        assert(board@ =~= empty_board(dims));
    }
    board
}

/// One in-progress search: the visitation grid (row-major), the
/// explicit stack and the visited count, together with the ghost
/// start square it was created for.  Used directly, it is the lazy
/// strategy: each `next_tour` call resumes the loop and returns at
/// the next emitted tour.
pub struct SearchState {
    pub dims: Pos,
    pub board: Vec<bool>,
    pub stack: Vec<(Pos, bool)>,
    pub visited: usize,
    pub start: Ghost<Pos>,
}

impl View for SearchState {
    type V = StateV;

    open spec fn view(&self) -> StateV {
        StateV {
            dims: self.dims,
            board: self.board@,
            stack: self.stack@,
            visited: self.visited as nat,
        }
    }
}

impl SearchState {
    pub open spec fn wf(&self) -> bool {
        wf_state(self@, self.start@)
    }

    /// Begin a search of the given board from `start`.
    pub fn new(dims: Pos, start: Pos) -> (s: SearchState)
        requires
            dims_ok(dims),
            in_bounds(dims, start),
        ensures
            s.wf(),
            s@ == init_state(dims, start),
            s.start@ == start,
            s.dims == dims,
    {
        let board = empty_board_vec(dims);
        let mut stack: Vec<(Pos, bool)> = Vec::new();
        stack.push((start, false));
        let s = SearchState { dims, board, stack, visited: 0, start: Ghost(start) };
        proof {
            assert(s@.board =~= empty_board(dims));
            assert(s@.stack =~= seq![(start, false)]);
            assert(s@ =~= init_state(dims, start));
            lemma_init_wf(dims, start);
        }
        s
    }

    /// Run one iteration of the search loop; returns the tour this
    /// iteration emitted, if any.  The new state and the emission are
    /// exactly those of `spec_step` on the old state.
    #[verifier::rlimit(100)]
    pub fn step(&mut self) -> (r: Option<Vec<Pos>>)
        requires
            old(self).wf(),
        ensures
            final(self).wf(),
            final(self).start@ == old(self).start@,
            final(self).dims == old(self).dims,
            final(self)@ == spec_step(old(self)@).0,
            opt_tour_view(r) == spec_step(old(self)@).1,
            match r {
                Some(t) => is_tour(old(self).dims, old(self).start@, t@),
                None => true,
            },
    {
        if self.stack.len() == 0 {
            return None;
        }
        let e = self.stack.pop().unwrap();
        let p = e.0;
        let closing = e.1;
        let ghost rest = old(self)@.stack.drop_last();
        let ghost pp = path_of(rest);
        proof {
            assert(self.stack@ =~= rest);
            assert(entry_ok(old(self)@.dims, old(self).start@, p, pp));
            lemma_sq_index_bounds(self.dims, p);
            lemma_step_preserves_wf(old(self)@, old(self).start@);
        }
        let idx = p.x * self.dims.y + p.y;
        if closing {
            proof {
                assert(path_of(old(self)@.stack) == pp.push(p));
            }
            self.board.set(idx, false);
            self.visited = self.visited - 1;
            proof {
                assert(self@ =~= spec_step(old(self)@).0);
            }
            None
        } else {
            proof {
                assert(path_of(old(self)@.stack) == pp);
                lemma_path_of_len(rest);
            }
            self.board.set(idx, true);
            self.visited = self.visited + 1;
            self.stack.push((p, true));
            let ghost stack2 = rest.push((p, true));
            let ghost board2 = old(self)@.board.update(sq_index(old(self)@.dims, p), true);
            proof {
                assert(self.stack@ == stack2);
                assert(self.board@ == board2);
            }
            let target = self.dims.x * self.dims.y;
            let mut result: Option<Vec<Pos>> = None;
            if self.visited == target {
                let mut t: Vec<Pos> = Vec::new();
                let mut i: usize = 0;
                while i < self.stack.len()
                    invariant
                        i <= self.stack@.len(),
                        self.stack@ == stack2,
                        t@ == path_of(stack2.take(i as int)),
                    decreases self.stack@.len() - i,
                {
                    proof {
                        assert(stack2.take(i as int + 1).drop_last() =~= stack2.take(i as int));
                        assert(stack2.take(i as int + 1).last() == stack2[i as int]);
                    }
                    let entry = self.stack[i];
                    if entry.1 {
                        t.push(entry.0);
                    }
                    i = i + 1;
                }
                proof {
                    assert(stack2.take(stack2.len() as int) =~= stack2);
                    assert(t@ == path_of(stack2));
                }
                result = Some(t);
            }
            let mut acc: Vec<Pos> = Vec::new();
            add_jumps(self.dims, p, &mut acc);
            proof {
                assert(acc@ == knight_moves(old(self)@.dims, p));
                lemma_knight_moves_sound(old(self)@.dims, p);
            }
            let ghost vis2 = self.visited;
            let ghost res2 = result;
            let mut j: usize = 0;
            while j < acc.len()
                invariant
                    j <= acc@.len(),
                    acc@ == knight_moves(old(self)@.dims, p),
                    all_jumps_from(old(self)@.dims, p, acc@),
                    self.dims == old(self)@.dims,
                    self.start == old(self).start,
                    self.visited == vis2,
                    self.board@ == board2,
                    board2.len() == old(self)@.board.len(),
                    old(self).wf(),
                    self.stack@ == stack2 + cands_of(old(self)@.dims, board2, acc@.take(j as int)),
                decreases acc@.len() - j,
            {
                proof {
                    assert(acc@.take(j as int + 1).drop_last() =~= acc@.take(j as int));
                    assert(acc@.take(j as int + 1).last() == acc@[j as int]);
                    lemma_sq_index_bounds(self.dims, acc@[j as int]);
                }
                let q = acc[j];
                let qidx = q.x * self.dims.y + q.y;
                if !self.board[qidx] {
                    self.stack.push((q, false));
                }
                proof {
                    assert(self.stack@ =~= stack2 + cands_of(
                        old(self)@.dims,
                        board2,
                        acc@.take(j as int + 1),
                    ));
                }
                j = j + 1;
            }
            proof {
                assert(acc@.take(acc@.len() as int) =~= acc@);
                assert(self@ =~= spec_step(old(self)@).0);
            }
            result
        }
    }

    /// The lazy strategy's "produce next": resume the loop where it
    /// left off and return the next emitted tour, or `None` once the
    /// stack has emptied and the search is exhausted.  The iterations
    /// consumed emit exactly the returned tour (or nothing).
    pub fn next_tour(&mut self) -> (r: Option<Vec<Pos>>)
        requires
            old(self).wf(),
        ensures
            final(self).wf(),
            final(self).start@ == old(self).start@,
            final(self).dims == old(self).dims,
            exists|n: nat|
                final(self)@ == spec_steps(old(self)@, n) && spec_trace(old(self)@, n) == emit_seq(
                    opt_tour_view(r),
                ),
            spec_potential(final(self)@) <= spec_potential(old(self)@),
            match r {
                Some(t) => is_tour(old(self).dims, old(self).start@, t@) && spec_potential(
                    final(self)@,
                ) < spec_potential(old(self)@),
                None => final(self)@.stack.len() == 0,
            },
    {
        proof {
            assert(spec_steps(old(self)@, 0) == self@);
            assert(spec_trace(old(self)@, 0) == Seq::<Seq<Pos>>::empty());
        }
        loop
            invariant
                self.wf(),
                self.start@ == old(self).start@,
                self.dims == old(self).dims,
                exists|n: nat|
                    self@ == spec_steps(old(self)@, n) && spec_trace(old(self)@, n) == Seq::<
                        Seq<Pos>,
                    >::empty(),
                spec_potential(self@) <= spec_potential(old(self)@),
            decreases spec_potential(self@),
        {
            let ghost pre = self@;
            let ghost pre_pot = spec_potential(self@);
            let r = self.step();
            proof {
                let n = choose|n: nat|
                    pre == spec_steps(old(self)@, n) && spec_trace(old(self)@, n) == Seq::<
                        Seq<Pos>,
                    >::empty();
                lemma_steps_snoc(old(self)@, n);
                assert(self@ == spec_steps(old(self)@, n + 1));
                assert(spec_trace(old(self)@, n + 1) =~= emit_seq(spec_step(pre).1));
                if pre.stack.len() > 0 {
                    lemma_step_decreases(pre, self.start@);
                }
            }
            match r {
                Some(t) => {
                    return Some(t);
                },
                None => {
                    if self.stack.len() == 0 {
                        return None;
                    }
                    proof {
                        if pre.stack.len() == 0 {
                            assert(self@ == pre);
                        }
                        assert(spec_potential(self@) < pre_pot);
                    }
                },
            }
        }
    }

    /// Drain the search to exhaustion, returning every remaining tour
    /// in emission order: the trace of a complete run.
    pub fn collect_tours(&mut self) -> (tours: Vec<Vec<Pos>>)
        requires
            old(self).wf(),
        ensures
            final(self).wf(),
            final(self)@.stack.len() == 0,
            forall|i: int|
                0 <= i < tours@.len() ==> is_tour(
                    old(self).dims,
                    old(self).start@,
                    #[trigger] tours@[i]@,
                ),
            exists|n: nat|
                spec_steps(old(self)@, n).stack.len() == 0 && tours@.map_values(|t: Vec<Pos>| t@)
                    == spec_trace(old(self)@, n),
    {
        let mut tours: Vec<Vec<Pos>> = Vec::new();
        proof {
            assert(tours@.map_values(|t: Vec<Pos>| t@) =~= spec_trace(old(self)@, 0));
        }
        loop
            invariant
                self.wf(),
                self.start@ == old(self).start@,
                self.dims == old(self).dims,
                forall|i: int|
                    0 <= i < tours@.len() ==> is_tour(
                        old(self).dims,
                        old(self).start@,
                        #[trigger] tours@[i]@,
                    ),
                exists|n: nat|
                    self@ == spec_steps(old(self)@, n) && tours@.map_values(|t: Vec<Pos>| t@)
                        == spec_trace(old(self)@, n),
            decreases spec_potential(self@),
        {
            let ghost pre = self@;
            let ghost pre_tours = tours@;
            let r = self.next_tour();
            proof {
                let n0 = choose|n: nat|
                    pre == spec_steps(old(self)@, n) && pre_tours.map_values(|t: Vec<Pos>| t@)
                        == spec_trace(old(self)@, n);
                let n1 = choose|n: nat|
                    self@ == spec_steps(pre, n) && spec_trace(pre, n) == emit_seq(opt_tour_view(r));
                lemma_steps_add(old(self)@, n0, n1);
                assert(self@ == spec_steps(old(self)@, n0 + n1));
                assert(spec_trace(old(self)@, n0 + n1) == spec_trace(old(self)@, n0) + spec_trace(
                    pre,
                    n1,
                ));
            }
            match r {
                Some(t) => {
                    let ghost tv = t@;
                    tours.push(t);
                    proof {
                        assert(tours@.map_values(|t: Vec<Pos>| t@) =~= pre_tours.map_values(
                            |t: Vec<Pos>| t@,
                        ) + seq![tv]);
                    }
                },
                None => {
                    proof {
                        assert(tours@.map_values(|t: Vec<Pos>| t@) =~= pre_tours.map_values(
                            |t: Vec<Pos>| t@,
                        ) + emit_seq(opt_tour_view(r)));
                    }
                    return tours;
                },
            }
        }
    }
}

} // verus!
