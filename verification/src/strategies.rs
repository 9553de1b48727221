//! The three ways tours leave the engine.
//!
//! - Batch: [`solve_batch`] runs one search to exhaustion and returns
//!   the full list.
//! - Lazy: a [`SearchState`](crate::engine::SearchState) driven by
//!   `next_tour` yields one tour per call.
//! - Concurrent fan-out: [`branch_seeds`] builds one independent
//!   search per legal first move; a host may run each seed on its own
//!   thread (each owns its grid and stack exclusively) and funnel the
//!   tours into one channel.

use vstd::prelude::*;
use crate::engine::cands_of;
use crate::engine::spec_step;
use crate::engine::empty_board;
use crate::engine::empty_board_vec;
use crate::engine::lemma_enumeration_deterministic;
use crate::engine::lemma_init_wf;
use crate::engine::lemma_lockstep;
use crate::engine::lemma_path_of_concat;
use crate::engine::lemma_run_terminates;
use crate::engine::lemma_single_close_trace;
use crate::engine::lemma_sq_index_surjective;
use crate::engine::lemma_step_preserves_wf;
use crate::engine::lemma_steps_add;
use crate::engine::lemma_steps_preserve_wf;
use crate::engine::init_state;
use crate::engine::is_tour;
use crate::engine::lemma_push_contains;
use crate::engine::lemma_sq_index_bounds;
use crate::engine::lemma_sq_index_injective;
use crate::engine::path_of;
use crate::engine::spec_steps;
use crate::engine::spec_trace;
use crate::engine::sq_index;
use crate::engine::stack_ok;
use crate::engine::wf_state;
use crate::engine::entry_ok;
use crate::engine::board_matches;
use crate::engine::SearchState;
use crate::engine::StateV;
use crate::moves::add_jumps;
use crate::moves::all_jumps_from;
use crate::moves::dims_ok;
use crate::moves::in_bounds;
use crate::moves::is_knight_jump;
use crate::moves::knight_moves;
use crate::moves::lemma_knight_moves_sound;
use crate::moves::Pos;

verus! {

/// Batch strategy: run the whole search from `start` and return every
/// tour, in the engine's deterministic emission order.  The result is
/// pinned to the trace of a complete run from the initial state, so
/// it equals what the lazy strategy yields when drained.
pub fn solve_batch(dims: Pos, start: Pos) -> (tours: Vec<Vec<Pos>>)
    requires
        dims_ok(dims),
        in_bounds(dims, start),
    ensures
        forall|i: int| 0 <= i < tours@.len() ==> is_tour(dims, start, #[trigger] tours@[i]@),
        exists|n: nat|
            spec_steps(init_state(dims, start), n).stack.len() == 0 && tours@.map_values(
                |t: Vec<Pos>| t@,
            ) == spec_trace(init_state(dims, start), n),
{
    let mut search = SearchState::new(dims, start);
    search.collect_tours()
}

/// The state a fan-out branch starts in: `start` already visited and
/// pending its close, the branch's first move `m` the one candidate.
pub open spec fn branch_state(dims: Pos, start: Pos, m: Pos) -> StateV {
    StateV {
        dims,
        board: empty_board(dims).update(sq_index(dims, start), true),
        stack: seq![(start, true), (m, false)],
        visited: 1,
    }
}

/// A branch's seeded state is well-formed.
pub proof fn lemma_branch_wf(dims: Pos, start: Pos, m: Pos)
    requires
        dims_ok(dims),
        in_bounds(dims, start),
        in_bounds(dims, m),
        is_knight_jump(start, m),
        m != start,
    ensures
        wf_state(branch_state(dims, start, m), start),
{
    let v = branch_state(dims, start, m);
    let st = v.stack;
    let base = st.drop_last();
    assert(base =~= seq![(start, true)]);
    assert(base.drop_last() =~= Seq::<(Pos, bool)>::empty());
    assert(path_of(base.drop_last()) == Seq::<Pos>::empty());
    assert(base.last() == (start, true));
    assert(entry_ok(dims, start, start, path_of(base.drop_last())));
    assert(stack_ok(dims, start, base.drop_last()));
    assert(stack_ok(dims, start, base));
    assert(path_of(base) == Seq::<Pos>::empty().push(start));
    assert(st.last() == (m, false));
    assert(path_of(base).len() == 1 && path_of(base).last() == start);
    assert(!path_of(base).contains(m)) by {
        lemma_push_contains(Seq::<Pos>::empty(), start, m);
    }
    assert(entry_ok(dims, start, m, path_of(base)));
    assert(stack_ok(dims, start, st));
    assert(path_of(st) == path_of(base));
    lemma_sq_index_bounds(dims, start);
    assert(board_matches(v)) by {
        assert forall|q: Pos|
            in_bounds(dims, q) implies (v.board[sq_index(dims, q)] <==> path_of(v.stack).contains(
            q,
        )) by {
            lemma_sq_index_bounds(dims, q);
            lemma_push_contains(Seq::<Pos>::empty(), start, q);
            if q != start && sq_index(dims, q) == sq_index(dims, start) {
                lemma_sq_index_injective(dims, q, start);
            }
        }
    }
}

/// Fan-out dispatcher: one independent, fully seeded search per legal
/// first move from `start`, in the move generator's order.  Each seed
/// owns its grid and stack exclusively — no state is shared — so the
/// seeds may be run on separate threads; each seed's own emission
/// order is deterministic, while the interleaving across seeds is the
/// host's affair.  If `start` has no legal first move (including the
/// one-square board, whose sole tour the caller must special-case, as
/// batch and lazy handle it), no seed is produced.
pub fn branch_seeds(dims: Pos, start: Pos) -> (seeds: Vec<SearchState>)
    requires
        dims_ok(dims),
        in_bounds(dims, start),
    ensures
        seeds@.len() == knight_moves(dims, start).len(),
        forall|i: int|
            0 <= i < seeds@.len() ==> {
                &&& (#[trigger] seeds@[i]).wf()
                &&& seeds@[i].start@ == start
                &&& seeds@[i].dims == dims
                &&& seeds@[i]@ == branch_state(dims, start, knight_moves(dims, start)[i])
            },
{
    let mut acc: Vec<Pos> = Vec::new();
    add_jumps(dims, start, &mut acc);
    proof {
        lemma_knight_moves_sound(dims, start);
        lemma_sq_index_bounds(dims, start);
    }
    let mut board = empty_board_vec(dims);
    let sidx = start.x * dims.y + start.y;
    board.set(sidx, true);
    let mut seeds: Vec<SearchState> = Vec::new();
    let mut i: usize = 0;
    while i < acc.len()
        invariant
            i <= acc@.len(),
            dims_ok(dims),
            in_bounds(dims, start),
            acc@ == knight_moves(dims, start),
            all_jumps_from(dims, start, acc@),
            board@ == empty_board(dims).update(sq_index(dims, start), true),
            seeds@.len() == i,
            forall|j: int|
                0 <= j < i ==> {
                    &&& (#[trigger] seeds@[j]).wf()
                    &&& seeds@[j].start@ == start
                    &&& seeds@[j].dims == dims
                    &&& seeds@[j]@ == branch_state(dims, start, knight_moves(dims, start)[j])
                },
        decreases acc@.len() - i,
    {
        let m = acc[i];
        let branch_board = clone_board(&board);
        let mut stack: Vec<(Pos, bool)> = Vec::new();
        stack.push((start, true));
        stack.push((m, false));
        let seed = SearchState {
            dims,
            board: branch_board,
            stack,
            visited: 1,
            start: Ghost(start),
        };
        proof {
            assert(seed@.stack =~= seq![(start, true), (m, false)]);
            assert(seed@ =~= branch_state(dims, start, m));
            assert(is_knight_jump(start, m) && m != start && in_bounds(dims, m));
            lemma_branch_wf(dims, start, m);
        }
        seeds.push(seed);
        i = i + 1;
    }
    seeds
}

/// Candidate entries for the given squares, in order.
pub open spec fn tag(ms: Seq<Pos>) -> Seq<(Pos, bool)> {
    ms.map_values(|q: Pos| (q, false))
}

/// Candidate entries alone carry no path.
pub proof fn lemma_path_of_tag(ms: Seq<Pos>)
    ensures
        path_of(tag(ms)) == Seq::<Pos>::empty(),
    decreases ms.len(),
{
    if ms.len() == 0 {
        assert(tag(ms) =~= Seq::<(Pos, bool)>::empty());
    } else {
        assert(tag(ms).drop_last() =~= tag(ms.drop_last()));
        assert(tag(ms).last() == (ms.last(), false));
        lemma_path_of_tag(ms.drop_last());
    }
}

/// When no destination is marked yet, every one is pushed.
pub proof fn lemma_cands_all_unvisited(dims: Pos, board: Seq<bool>, ms: Seq<Pos>)
    requires
        forall|i: int| 0 <= i < ms.len() ==> !board[sq_index(dims, #[trigger] ms[i])],
    ensures
        cands_of(dims, board, ms) == tag(ms),
    decreases ms.len(),
{
    if ms.len() == 0 {
        assert(cands_of(dims, board, ms) =~= tag(ms));
    } else {
        let ms0 = ms.drop_last();
        assert(forall|i: int| 0 <= i < ms0.len() ==> ms0[i] == #[trigger] ms[i]);
        lemma_cands_all_unvisited(dims, board, ms0);
        assert(ms[ms.len() - 1] == ms.last());
        assert(!board[sq_index(dims, ms.last())]);
        assert(cands_of(dims, board, ms) =~= tag(ms0).push((ms.last(), false)));
        assert(tag(ms) =~= tag(ms0).push((ms.last(), false)));
    }
}

/// The batch search's state right after its first iteration, with the
/// candidate first moves `ms` still pending: `start` visited and
/// awaiting its close, one candidate entry per move.
pub open spec fn batch_mid_state(dims: Pos, start: Pos, ms: Seq<Pos>) -> StateV {
    StateV {
        dims,
        board: empty_board(dims).update(sq_index(dims, start), true),
        stack: seq![(start, true)] + tag(ms),
        visited: 1,
    }
}

/// The tours of the branches for first moves `ms`, each branch run to
/// completion (`ns[i]` iterations suffice for branch `i`), read in
/// reverse branch order — the order the depth-first engine visits
/// them in, since the last-pushed candidate is explored first.
pub open spec fn rev_branch_traces(dims: Pos, start: Pos, ms: Seq<Pos>, ns: Seq<nat>) -> Seq<
    Seq<Pos>,
>
    decreases ms.len(),
{
    if ms.len() == 0 {
        Seq::empty()
    } else {
        spec_trace(branch_state(dims, start, ms.last()), ns.last()) + rev_branch_traces(
            dims,
            start,
            ms.drop_last(),
            ns.drop_last(),
        )
    }
}

/// Peeling off pending first moves one at a time: a complete run of
/// the batch search with moves `ms` pending emits exactly the
/// branches' complete traces, last move first.
pub proof fn lemma_peel(dims: Pos, start: Pos, ms: Seq<Pos>, ns: Seq<nat>, nb: nat)
    requires
        dims_ok(dims),
        in_bounds(dims, start),
        wf_state(batch_mid_state(dims, start, ms), start),
        spec_steps(batch_mid_state(dims, start, ms), nb).stack.len() == 0,
        ns.len() == ms.len(),
        forall|i: int|
            0 <= i < ms.len() ==> spec_steps(
                #[trigger] branch_state(dims, start, ms[i]),
                ns[i],
            ).stack.len() == 0,
    ensures
        spec_trace(batch_mid_state(dims, start, ms), nb) == rev_branch_traces(
            dims,
            start,
            ms,
            ns,
        ),
    decreases ms.len(),
{
    let b = batch_mid_state(dims, start, ms);
    let total = dims.x * dims.y;
    if ms.len() == 0 {
        assert(b.stack =~= seq![(start, true)]) by {
            assert(tag(ms) =~= Seq::<(Pos, bool)>::empty());
        }
        lemma_single_close_trace(b, nb);
    } else {
        let ms0 = ms.drop_last();
        let m = ms.last();
        let ns0 = ns.drop_last();
        let c1 = seq![(start, true)] + tag(ms0);
        let c2 = seq![(start, true)];
        let d = seq![(m, false)];
        assert(b.stack =~= c1 + d) by {
            assert(forall|i: int| 0 <= i < ms0.len() ==> ms0[i] == #[trigger] ms[i]);
        }
        let v2 = branch_state(dims, start, m);
        assert(v2.stack =~= c2 + d);
        assert(path_of(c1) == path_of(c2)) by {
            lemma_path_of_concat(c2, tag(ms0));
            lemma_path_of_tag(ms0);
            assert(c1 == c2 + tag(ms0));
            assert(path_of(c2) + Seq::<Pos>::empty() =~= path_of(c2));
        }
        let n2 = ns.last();
        assert(ms[ms.len() - 1] == m && ns[ns.len() - 1] == n2);
        assert(spec_steps(branch_state(dims, start, m), n2).stack.len() == 0);
        lemma_lockstep(b, v2, c1, c2, d, n2);
        let t = choose|t: nat|
            #![trigger spec_steps(b, t)]
            {
                &&& t <= n2
                &&& spec_steps(b, t).stack == c1
                &&& spec_steps(v2, t).stack == c2
                &&& spec_steps(b, t).dims == b.dims
                &&& spec_steps(v2, t).dims == v2.dims
                &&& spec_steps(b, t).board == spec_steps(v2, t).board
                &&& spec_steps(b, t).visited == spec_steps(v2, t).visited
                &&& spec_trace(b, t) == spec_trace(v2, t)
            };
        let w = spec_steps(b, t);
        lemma_steps_preserve_wf(b, start, t);
        // the run that used up the last candidate restored the grid:
        // exactly `start` is on the path again
        assert(path_of(c1) == Seq::<Pos>::empty().push(start)) by {
            assert(c2.drop_last() =~= Seq::<(Pos, bool)>::empty());
            assert(path_of(c2.drop_last()) == Seq::<Pos>::empty());
            assert(c2.last() == (start, true));
            assert(path_of(c2) == path_of(c2.drop_last()).push(start));
        }
        let board0 = empty_board(dims).update(sq_index(dims, start), true);
        assert(w.board.len() == total);
        lemma_sq_index_bounds(dims, start);
        assert(w.board =~= board0) by {
            assert forall|i: int| 0 <= i < w.board.len() implies w.board[i] == board0[i] by {
                lemma_sq_index_surjective(dims, i);
                let q = choose|q: Pos| in_bounds(dims, q) && #[trigger] sq_index(dims, q) == i;
                lemma_push_contains(Seq::<Pos>::empty(), start, q);
                if q != start && sq_index(dims, q) == sq_index(dims, start) {
                    lemma_sq_index_injective(dims, q, start);
                }
                assert(w.board[sq_index(dims, q)] <==> path_of(w.stack).contains(q));
            }
        }
        let b0 = batch_mid_state(dims, start, ms0);
        assert(w =~= b0);
        lemma_run_terminates(b0, start);
        let nr = choose|n: nat| #[trigger] spec_steps(b0, n).stack.len() == 0;
        assert(forall|i: int| 0 <= i < ms0.len() ==> ms0[i] == #[trigger] ms[i]);
        assert(forall|i: int| 0 <= i < ns0.len() ==> ns0[i] == #[trigger] ns[i]);
        assert forall|i: int|
            0 <= i < ms0.len() implies spec_steps(
            #[trigger] branch_state(dims, start, ms0[i]),
            ns0[i],
        ).stack.len() == 0 by {
            assert(branch_state(dims, start, ms0[i]) == branch_state(dims, start, ms[i]));
        }
        lemma_peel(dims, start, ms0, ns0, nr);
        // splice the runs back together
        lemma_steps_add(b, t, nr);
        assert(spec_steps(b, t + nr) == spec_steps(b0, nr));
        assert(spec_trace(b, t + nr) == spec_trace(b, t) + spec_trace(b0, nr));
        lemma_steps_add(v2, t, (n2 - t) as nat);
        assert(t + (n2 - t) as nat == n2);
        lemma_single_close_trace(spec_steps(v2, t), (n2 - t) as nat);
        assert(spec_trace(v2, n2) =~= spec_trace(v2, t));
        assert(spec_trace(b, t + nr) == spec_trace(v2, n2) + rev_branch_traces(
            dims,
            start,
            ms0,
            ns0,
        ));
        assert(spec_trace(b, t + nr) == rev_branch_traces(dims, start, ms, ns));
        lemma_enumeration_deterministic(b, nb, t + nr);
    }
}

/// The concurrent fan-out is equivalent in content to the batch run:
/// a complete run from the initial state emits exactly the
/// concatenation of the branches' complete traces, in reverse branch
/// order.  In particular the multiset of tours delivered by the
/// branches — however their emissions interleave on the way to a
/// shared channel — is the multiset the batch strategy returns.
pub proof fn lemma_fanout_covers_batch(dims: Pos, start: Pos, n: nat, ns: Seq<nat>)
    requires
        dims_ok(dims),
        in_bounds(dims, start),
        dims.x * dims.y > 1,
        spec_steps(init_state(dims, start), n).stack.len() == 0,
        ns.len() == knight_moves(dims, start).len(),
        forall|i: int|
            0 <= i < knight_moves(dims, start).len() ==> spec_steps(
                #[trigger] branch_state(dims, start, knight_moves(dims, start)[i]),
                ns[i],
            ).stack.len() == 0,
    ensures
        spec_trace(init_state(dims, start), n) == rev_branch_traces(
            dims,
            start,
            knight_moves(dims, start),
            ns,
        ),
{
    let v0 = init_state(dims, start);
    let km = knight_moves(dims, start);
    let total = dims.x * dims.y;
    lemma_init_wf(dims, start);
    assert(spec_steps(v0, 0) == v0);
    assert(n > 0);
    // the first iteration advances onto `start` and queues every
    // legal first move
    let st = v0.stack;
    assert(st.last() == (start, false));
    assert(st.drop_last() =~= Seq::<(Pos, bool)>::empty());
    let board1 = empty_board(dims).update(sq_index(dims, start), true);
    lemma_knight_moves_sound(dims, start);
    lemma_sq_index_bounds(dims, start);
    assert forall|i: int| 0 <= i < km.len() implies !board1[sq_index(dims, #[trigger] km[i])] by {
        lemma_sq_index_bounds(dims, km[i]);
        if sq_index(dims, km[i]) == sq_index(dims, start) {
            lemma_sq_index_injective(dims, km[i], start);
        }
    }
    lemma_cands_all_unvisited(dims, board1, km);
    let b = batch_mid_state(dims, start, km);
    assert(spec_step(v0).0.stack =~= b.stack) by {
        assert(st.drop_last().push((start, true)) =~= seq![(start, true)]);
    }
    assert(spec_step(v0).0 =~= b);
    assert(spec_step(v0).1 == None::<Seq<Pos>>);
    lemma_step_preserves_wf(v0, start);
    assert(spec_steps(v0, n) == spec_steps(b, (n - 1) as nat));
    assert(spec_trace(v0, n) =~= spec_trace(b, (n - 1) as nat));
    lemma_peel(dims, start, km, ns, (n - 1) as nat);
}

/// An exclusive copy of a visitation grid, for seeding one branch.
fn clone_board(board: &Vec<bool>) -> (r: Vec<bool>)
    ensures
        r@ == board@,
{
    let r = board.clone();
    proof {
        assert(r@ =~= board@);
    }
    r
}

} // verus!
