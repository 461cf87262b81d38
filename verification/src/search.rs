//! The breadth-first solvers.
//!
//! Both solvers run the same search: a first-in-first-out frontier of
//! traversal states and a visited set keyed by (position, keys held). A
//! state is expanded into one candidate per open direction of its cell;
//! a candidate whose key is already visited is discarded, every other
//! candidate is marked visited and enqueued. The first state dequeued
//! whose cell is the exit is the answer; an exhausted frontier means the
//! maze has no solution.
//!
//! The function [`bfs_model`] states that search as a recursive spec
//! function; each solver's contract says that it returns exactly the
//! result of [`bfs_model`]. The spec function burns one unit of fuel per
//! dequeue; [`search_fuel`] is enough fuel to finish, because every
//! enqueue adds one entry to the visited set and the visited set can never
//! outgrow the state space (rows x columns x possible key counts).

use vstd::prelude::*;

use vstd::arithmetic::div_mod::lemma_fundamental_div_mod_converse;
use vstd::set_lib::lemma_int_range;
use vstd::set_lib::lemma_len_subset;
use vstd::set_lib::set_int_range;

use crate::grid::Direction;
use crate::grid::MazeCell;
use crate::grid::array2d_cells;
use crate::grid::cell_at;
use crate::grid::cell_wf;
use crate::grid::grid_wf;
use crate::grid::in_bounds;
use crate::grid::opposite;
use crate::grid::table_get;
use crate::state::MazeState;
use crate::state::get_new_state_if_neighbour_valid;
use crate::state::get_valid_neighbours;
use crate::state::StateModel;
use crate::state::expand_model;
use crate::state::door_pair;
use crate::state::door_steps_in_range;
use crate::state::doors_symmetric;
use crate::state::lemma_expansion_preserves_door_symmetry;
use crate::state::lemma_without_pair_contains;
use crate::state::models_of;
use crate::state::neighbour_pos;
use crate::state::opt_model;
use crate::state::successor_model;
use crate::state::without_pair;
use crate::state::without_pos;

verus! {

/// The visited-set key of a state: its position and the keys it holds.
/// The same cell may be revisited with a different key count, so the key
/// count is part of the key.
pub open spec fn sig_of(m: StateModel) -> (usize, usize, u32) {
    (m.pos.0, m.pos.1, m.held)
}

/// One candidate offered to the frontier: discarded when its key is
/// already visited, otherwise marked visited and enqueued.
pub open spec fn enqueue_one(
    qv: (Seq<StateModel>, Seq<(usize, usize, u32)>),
    m: StateModel,
) -> (Seq<StateModel>, Seq<(usize, usize, u32)>) {
    if qv.1.contains(sig_of(m)) {
        qv
    } else {
        (qv.0.push(m), qv.1.push(sig_of(m)))
    }
}

/// A list of candidates offered to the frontier, in list order.
pub open spec fn enqueue_all(
    qv: (Seq<StateModel>, Seq<(usize, usize, u32)>),
    ms: Seq<StateModel>,
) -> (Seq<StateModel>, Seq<(usize, usize, u32)>)
    decreases ms.len(),
{
    if ms.len() == 0 {
        qv
    } else {
        enqueue_one(enqueue_all(qv, ms.drop_last()), ms.last())
    }
}

/// The breadth-first search itself: dequeue in order, stop at the first
/// exit cell, otherwise expand every open direction and offer the
/// candidates to the frontier. One unit of fuel pays for one dequeue;
/// with fuel to spare the result is the search's answer.
pub open spec fn bfs_model(
    grid: Seq<Seq<MazeCell>>,
    queue: Seq<StateModel>,
    visited: Seq<(usize, usize, u32)>,
    fuel: nat,
) -> Option<StateModel>
    decreases fuel,
{
    if fuel == 0 || queue.len() == 0 {
        None
    } else {
        let s = queue[0];
        if !in_bounds(grid, s.pos) {
            None
        } else if cell_at(grid, s.pos).end_of_maze {
            Some(s)
        } else {
            let qv = enqueue_all(
                (queue.drop_first(), visited),
                expand_model(cell_at(grid, s.pos).available_directions@, s),
            );
            bfs_model(grid, qv.0, qv.1, (fuel - 1) as nat)
        }
    }
}

/// The keys a search starting from `init` can ever hold at once: the keys
/// in hand plus every key still on the grid.
pub open spec fn key_allowance(init: StateModel) -> int {
    init.held + init.keys.len()
}

/// The number of distinct visited-set keys a search from `init` can meet.
pub open spec fn state_space(grid: Seq<Seq<MazeCell>>, init: StateModel) -> int {
    grid.len() * grid[0].len() * (key_allowance(init) + 1)
}

/// Fuel that provably outlasts the search from `init`.
pub open spec fn search_fuel(grid: Seq<Seq<MazeCell>>, init: StateModel) -> nat {
    (state_space(grid, init) + 1) as nat
}

/// The answer of the whole search for a maze and an initial state.
pub open spec fn search_result(grid: Seq<Seq<MazeCell>>, init: StateModel) -> Option<StateModel> {
    bfs_model(grid, seq![init], seq![sig_of(init)], search_fuel(grid, init))
}

/// A state the search can hold: on the grid, with no more keys reachable
/// than the allowance.
pub open spec fn state_ok(grid: Seq<Seq<MazeCell>>, kmax: int, m: StateModel) -> bool {
    &&& in_bounds(grid, m.pos)
    &&& m.held + m.keys.len() <= kmax
}

/// A visited-set key inside the state space.
pub open spec fn sig_in_box(
    grid: Seq<Seq<MazeCell>>,
    kmax: int,
    g: (usize, usize, u32),
) -> bool {
    g.0 < grid.len() && g.1 < grid[0].len() && g.2 <= kmax
}

proof fn lemma_without_pos_len(keys: Seq<(usize, usize)>, p: (usize, usize))
    ensures
        without_pos(keys, p).len() <= keys.len(),
        keys.contains(p) ==> without_pos(keys, p).len() < keys.len(),
    decreases keys.len(),
{
    if keys.len() > 0 {
        lemma_without_pos_len(keys.drop_last(), p);
        if keys.contains(p) && keys.last() != p {
            let i = choose|i: int| 0 <= i < keys.len() && keys[i] == p;
            assert(keys.drop_last()[i] == p);
            assert(keys.drop_last().contains(p));
        }
    }
}

/// A successor taken along an open direction of a well-formed grid stays
/// on the grid and never raises the sum of keys held and keys remaining.
proof fn lemma_successor_ok(
    grid: Seq<Seq<MazeCell>>,
    kmax: int,
    m: StateModel,
    d: Direction,
    ns: StateModel,
)
    requires
        grid_wf(grid),
        state_ok(grid, kmax, m),
        cell_at(grid, m.pos).available_directions@.contains(d),
        successor_model(m, d) == Some(ns),
    ensures
        state_ok(grid, kmax, ns),
        ns.held + ns.keys.len() <= m.held + m.keys.len(),
{
    assert(cell_wf(grid, m.pos.0 as int, m.pos.1 as int));
    let np = neighbour_pos(m.pos, d);
    assert(grid[np.0 as int].len() == grid[0].len());
    assert(grid[m.pos.0 as int].len() == grid[0].len());
    if m.keys.contains(np) {
        lemma_without_pos_len(m.keys, np);
    }
}

/// Every successor in an expansion list is `state_ok` and respects the
/// key allowance of its parent.
proof fn lemma_expand_all_ok(
    grid: Seq<Seq<MazeCell>>,
    kmax: int,
    m: StateModel,
    dirs: Seq<Direction>,
)
    requires
        grid_wf(grid),
        state_ok(grid, kmax, m),
        forall|j: int|
            0 <= j < dirs.len() ==> cell_at(grid, m.pos).available_directions@.contains(
                #[trigger] dirs[j],
            ),
    ensures
        forall|k: int|
            0 <= k < expand_model(dirs, m).len() ==> state_ok(
                grid,
                kmax,
                #[trigger] expand_model(dirs, m)[k],
            ),
    decreases dirs.len(),
{
    if dirs.len() > 0 {
        assert(forall|j: int|
            0 <= j < dirs.drop_last().len() ==> cell_at(
                grid,
                m.pos,
            ).available_directions@.contains(#[trigger] dirs.drop_last()[j]));
        lemma_expand_all_ok(grid, kmax, m, dirs.drop_last());
        assert(dirs.contains(dirs.last()));
        match successor_model(m, dirs.last()) {
            Some(ns) => {
                lemma_successor_ok(grid, kmax, m, dirs.last(), ns);
            },
            None => {},
        }
        let full = expand_model(dirs, m);
        let rest = expand_model(dirs.drop_last(), m);
        assert forall|k: int| 0 <= k < full.len() implies state_ok(grid, kmax, full[k]) by {
            if k < rest.len() {
                assert(full[k] == rest[k]);
            }
        }
    }
}

proof fn lemma_encode_unique(a: (usize, usize, u32), b: (usize, usize, u32), c: int, k1: int)
    requires
        0 < c,
        0 < k1,
        a.1 < c,
        b.1 < c,
        a.2 < k1,
        b.2 < k1,
        a.0 * c * k1 + a.1 * k1 + a.2 == b.0 * c * k1 + b.1 * k1 + b.2,
    ensures
        a == b,
{
    let e = a.0 * c * k1 + a.1 * k1 + a.2;
    assert(a.0 * c * k1 + a.1 * k1 + a.2 == (a.0 * c + a.1) * k1 + a.2) by (nonlinear_arith);
    assert(b.0 * c * k1 + b.1 * k1 + b.2 == (b.0 * c + b.1) * k1 + b.2) by (nonlinear_arith);
    assert(0 <= a.0 * c + a.1) by (nonlinear_arith)
        requires
            0 < c,
            0 <= a.0,
            0 <= a.1,
    ;
    assert(0 <= b.0 * c + b.1) by (nonlinear_arith)
        requires
            0 < c,
            0 <= b.0,
            0 <= b.1,
    ;
    lemma_fundamental_div_mod_converse(e, k1, a.0 * c + a.1, a.2 as int);
    lemma_fundamental_div_mod_converse(e, k1, b.0 * c + b.1, b.2 as int);
    assert(a.0 * c + a.1 == b.0 * c + b.1);
    assert(a.2 == b.2);
    let e2 = a.0 * c + a.1;
    lemma_fundamental_div_mod_converse(e2, c, a.0 as int, a.1 as int);
    lemma_fundamental_div_mod_converse(e2, c, b.0 as int, b.1 as int);
    assert(a.0 == b.0 && a.1 == b.1);
}

proof fn lemma_encode_in_range(s: (usize, usize, u32), r: int, c: int, k1: int)
    requires
        s.0 < r,
        s.1 < c,
        s.2 < k1,
    ensures
        0 <= s.0 * c * k1 + s.1 * k1 + s.2 < r * c * k1,
{
    assert(0 <= s.0 * c * k1 + s.1 * k1 + s.2 < r * c * k1) by (nonlinear_arith)
        requires
            0 <= s.0 < r,
            0 <= s.1 < c,
            0 <= s.2 < k1,
    ;
}

/// A duplicate-free list of visited-set keys that all lie in the state
/// space is no longer than the state space.
proof fn lemma_visited_bounded(
    grid: Seq<Seq<MazeCell>>,
    kmax: int,
    v: Seq<(usize, usize, u32)>,
)
    requires
        0 <= kmax,
        v.no_duplicates(),
        forall|j: int| 0 <= j < v.len() ==> sig_in_box(grid, kmax, #[trigger] v[j]),
    ensures
        v.len() <= grid.len() * grid[0].len() * (kmax + 1),
{
    let r = grid.len() as int;
    let c = grid[0].len() as int;
    let k1 = kmax + 1;
    if v.len() == 0 {
        assert(0 <= r * c * k1) by (nonlinear_arith)
            requires
                0 <= r,
                0 <= c,
                0 < k1,
        ;
    } else {
        assert(sig_in_box(grid, kmax, v[0]));
        assert(0 < r && 0 < c);
        let enc = |s: (usize, usize, u32)| s.0 * c * k1 + s.1 * k1 + s.2;
        let ev = v.map_values(enc);
        assert forall|i: int, j: int| 0 <= i < ev.len() && 0 <= j < ev.len() && i != j implies ev[i]
            != ev[j] by {
            if ev[i] == ev[j] {
                lemma_encode_unique(v[i], v[j], c, k1);
            }
        }
        assert(ev.no_duplicates());
        ev.unique_seq_to_set();
        let range = set_int_range(0, r * c * k1);
        lemma_int_range(0, r * c * k1);
        assert forall|x: int| ev.to_set().contains(x) implies range.contains(x) by {
            let i = choose|i: int| 0 <= i < ev.len() && ev[i] == x;
            lemma_encode_in_range(v[i], r, c, k1);
        }
        assert(ev.to_set().subset_of(range));
        lemma_len_subset(ev.to_set(), range);
    }
}

/// One grid step: some direction open at `a` leads to `b`.
pub open spec fn step_open(grid: Seq<Seq<MazeCell>>, a: (usize, usize), b: (usize, usize)) -> bool {
    exists|d: Direction|
        cell_at(grid, a).available_directions@.contains(d) && b == neighbour_pos(a, d)
}

/// The whole walk of a state: the positions already walked, then the
/// current position.
pub open spec fn full_path(m: StateModel) -> Seq<(usize, usize)> {
    m.path.push(m.pos)
}

/// Every adjacent pair of the walk starts on the grid and crosses a
/// passage that is open in the grid.
pub open spec fn path_connected(grid: Seq<Seq<MazeCell>>, m: StateModel) -> bool {
    forall|i: int|
        0 <= i < full_path(m).len() - 1 ==> in_bounds(grid, #[trigger] full_path(m)[i])
            && step_open(grid, full_path(m)[i], full_path(m)[i + 1])
}

proof fn lemma_successor_path(
    grid: Seq<Seq<MazeCell>>,
    m: StateModel,
    d: Direction,
    ns: StateModel,
)
    requires
        in_bounds(grid, m.pos),
        path_connected(grid, m),
        cell_at(grid, m.pos).available_directions@.contains(d),
        successor_model(m, d) == Some(ns),
    ensures
        path_connected(grid, ns),
        full_path(ns)[0] == full_path(m)[0],
{
    let fp = full_path(m);
    let fpn = full_path(ns);
    assert(fpn =~= fp.push(ns.pos));
    assert forall|i: int| 0 <= i < fpn.len() - 1 implies in_bounds(grid, #[trigger] fpn[i])
        && step_open(grid, fpn[i], fpn[i + 1]) by {
        if i < fp.len() - 1 {
            assert(fpn[i] == fp[i]);
            assert(fpn[i + 1] == fp[i + 1]);
            assert(in_bounds(grid, fp[i]) && step_open(grid, fp[i], fp[i + 1]));
        } else {
            assert(fpn[i] == m.pos);
            assert(fpn[i + 1] == ns.pos);
            assert(ns.pos == neighbour_pos(m.pos, d));
        }
    }
}

proof fn lemma_expand_all_path(
    grid: Seq<Seq<MazeCell>>,
    m: StateModel,
    dirs: Seq<Direction>,
)
    requires
        in_bounds(grid, m.pos),
        path_connected(grid, m),
        forall|j: int|
            0 <= j < dirs.len() ==> cell_at(grid, m.pos).available_directions@.contains(
                #[trigger] dirs[j],
            ),
    ensures
        forall|k: int|
            0 <= k < expand_model(dirs, m).len() ==> path_connected(
                grid,
                #[trigger] expand_model(dirs, m)[k],
            ) && full_path(expand_model(dirs, m)[k])[0] == full_path(m)[0],
    decreases dirs.len(),
{
    if dirs.len() > 0 {
        assert(forall|j: int|
            0 <= j < dirs.drop_last().len() ==> cell_at(
                grid,
                m.pos,
            ).available_directions@.contains(#[trigger] dirs.drop_last()[j]));
        lemma_expand_all_path(grid, m, dirs.drop_last());
        assert(dirs.contains(dirs.last()));
        match successor_model(m, dirs.last()) {
            Some(ns) => {
                lemma_successor_path(grid, m, dirs.last(), ns);
            },
            None => {},
        }
        let full = expand_model(dirs, m);
        let rest = expand_model(dirs.drop_last(), m);
        assert forall|k: int| 0 <= k < full.len() implies path_connected(grid, full[k])
            && full_path(full[k])[0] == full_path(m)[0] by {
            if k < rest.len() {
                assert(full[k] == rest[k]);
            }
        }
    }
}

proof fn lemma_enqueue_all_elems(
    qv: (Seq<StateModel>, Seq<(usize, usize, u32)>),
    ms: Seq<StateModel>,
)
    ensures
        forall|i: int|
            0 <= i < enqueue_all(qv, ms).0.len() ==> qv.0.contains(
                #[trigger] enqueue_all(qv, ms).0[i],
            ) || ms.contains(enqueue_all(qv, ms).0[i]),
    decreases ms.len(),
{
    if ms.len() > 0 {
        lemma_enqueue_all_elems(qv, ms.drop_last());
        let prev = enqueue_all(qv, ms.drop_last());
        let cur = enqueue_all(qv, ms);
        assert forall|i: int| 0 <= i < cur.0.len() implies qv.0.contains(#[trigger] cur.0[i])
            || ms.contains(cur.0[i]) by {
            if i < prev.0.len() {
                assert(cur.0[i] == prev.0[i]);
                if ms.drop_last().contains(prev.0[i]) {
                    let j = choose|j: int|
                        0 <= j < ms.drop_last().len() && ms.drop_last()[j] == prev.0[i];
                    assert(ms[j] == prev.0[i]);
                }
            } else {
                assert(cur.0[i] == ms.last());
                assert(ms[ms.len() - 1] == ms.last());
            }
        }
    }
}

/// Every answer the search model gives stands on an exit cell, and its
/// walk crosses only open passages, provided every state in the starting
/// frontier does.
proof fn lemma_bfs_model_path(
    grid: Seq<Seq<MazeCell>>,
    queue: Seq<StateModel>,
    visited: Seq<(usize, usize, u32)>,
    fuel: nat,
    start: (usize, usize),
)
    requires
        grid_wf(grid),
        forall|i: int|
            0 <= i < queue.len() ==> in_bounds(grid, (#[trigger] queue[i]).pos) && path_connected(
                grid,
                queue[i],
            ) && full_path(queue[i])[0] == start,
    ensures
        bfs_model(grid, queue, visited, fuel) matches Some(m) ==> in_bounds(grid, m.pos)
            && cell_at(grid, m.pos).end_of_maze && path_connected(grid, m) && full_path(m)[0]
            == start,
    decreases fuel,
{
    if fuel == 0 || queue.len() == 0 {
    } else {
        let s = queue[0];
        assert(in_bounds(grid, s.pos) && path_connected(grid, s));
        if !in_bounds(grid, s.pos) {
        } else if cell_at(grid, s.pos).end_of_maze {
        } else {
            let dirs = cell_at(grid, s.pos).available_directions@;
            assert(forall|j: int| 0 <= j < dirs.len() ==> dirs.contains(#[trigger] dirs[j]));
            lemma_expand_all_path(grid, s, dirs);
            lemma_expand_all_ok(grid, s.held + s.keys.len(), s, dirs);
            let succs = expand_model(dirs, s);
            let qv = enqueue_all((queue.drop_first(), visited), succs);
            lemma_enqueue_all_elems((queue.drop_first(), visited), succs);
            assert forall|i: int| 0 <= i < qv.0.len() implies in_bounds(
                grid,
                (#[trigger] qv.0[i]).pos,
            ) && path_connected(grid, qv.0[i]) && full_path(qv.0[i])[0] == start by {
                if queue.drop_first().contains(qv.0[i]) {
                    let j = choose|j: int|
                        0 <= j < queue.drop_first().len() && queue.drop_first()[j] == qv.0[i];
                    assert(queue[j + 1] == qv.0[i]);
                } else {
                    let k = choose|k: int| 0 <= k < succs.len() && succs[k] == qv.0[i];
                    assert(state_ok(grid, s.held + s.keys.len(), succs[k]));
                }
            }
            lemma_bfs_model_path(grid, qv.0, qv.1, (fuel - 1) as nat, start);
        }
    }
}

/// How one batch of candidates changes the frontier and the visited set:
/// both grow only at the end, in step with each other, and every pushed
/// state is a batch member whose key is recorded beside it; every batch
/// member's key is in the visited set afterwards.
proof fn lemma_enqueue_all_shape(
    qv: (Seq<StateModel>, Seq<(usize, usize, u32)>),
    ms: Seq<StateModel>,
)
    requires
        qv.1.no_duplicates(),
    ensures
        ({
            let res = enqueue_all(qv, ms);
            &&& res.0.len() >= qv.0.len()
            &&& forall|i: int| 0 <= i < qv.0.len() ==> res.0[i] == qv.0[i]
            &&& res.1.len() >= qv.1.len()
            &&& forall|j: int| 0 <= j < qv.1.len() ==> res.1[j] == qv.1[j]
            &&& res.1.len() - qv.1.len() == res.0.len() - qv.0.len()
            &&& forall|i: int|
                qv.0.len() <= i < res.0.len() ==> ms.contains(#[trigger] res.0[i]) && res.1[i
                    - qv.0.len() + qv.1.len()] == sig_of(res.0[i])
            &&& forall|k: int| 0 <= k < ms.len() ==> res.1.contains(sig_of(#[trigger] ms[k]))
            &&& res.1.no_duplicates()
        }),
    decreases ms.len(),
{
    if ms.len() > 0 {
        lemma_enqueue_all_shape(qv, ms.drop_last());
        let prev = enqueue_all(qv, ms.drop_last());
        let res = enqueue_all(qv, ms);
        assert(res == enqueue_one(prev, ms.last()));
        assert(forall|k: int|
            0 <= k < ms.drop_last().len() ==> prev.1.contains(sig_of(#[trigger] ms.drop_last()[k])));
        assert forall|k: int| 0 <= k < ms.len() implies res.1.contains(
            sig_of(#[trigger] ms[k]),
        ) by {
            if k < ms.len() - 1 {
                assert(ms.drop_last()[k] == ms[k]);
                assert(prev.1.contains(sig_of(ms[k])));
                let j = choose|j: int| 0 <= j < prev.1.len() && prev.1[j] == sig_of(ms[k]);
                assert(res.1[j] == sig_of(ms[k]));
            } else {
                assert(ms[k] == ms.last());
                if prev.1.contains(sig_of(ms.last())) {
                    let j = choose|j: int|
                        0 <= j < prev.1.len() && prev.1[j] == sig_of(ms.last());
                    assert(res.1[j] == sig_of(ms.last()));
                } else {
                    assert(res.1[prev.1.len() as int] == sig_of(ms.last()));
                }
            }
        }
        assert forall|i: int| qv.0.len() <= i < res.0.len() implies ms.contains(
            #[trigger] res.0[i],
        ) && res.1[i - qv.0.len() + qv.1.len()] == sig_of(res.0[i]) by {
            if i < prev.0.len() {
                assert(res.0[i] == prev.0[i]);
                assert(ms.drop_last().contains(prev.0[i]));
                let k = choose|k: int|
                    0 <= k < ms.drop_last().len() && ms.drop_last()[k] == prev.0[i];
                assert(ms[k] == prev.0[i]);
            } else {
                assert(res.0[i] == ms.last());
                assert(ms[ms.len() - 1] == ms.last());
            }
        }
    }
}

/// A walk across the grid: a starting position and zero or more open
/// steps, every position on the grid.
pub open spec fn is_walk(grid: Seq<Seq<MazeCell>>, w: Seq<(usize, usize)>) -> bool {
    &&& w.len() >= 1
    &&& forall|i: int| 0 <= i < w.len() ==> in_bounds(grid, #[trigger] w[i])
    &&& forall|i: int| 0 <= i < w.len() - 1 ==> step_open(grid, #[trigger] w[i], w[i + 1])
}

/// How many steps a state has walked.
pub open spec fn level_of(m: StateModel) -> int {
    m.path.len() as int
}

/// In a state without locked doors, every direction yields a successor:
/// one more step walked, still no doors, standing one step away.
proof fn lemma_expand_doorless(m: StateModel, dirs: Seq<Direction>)
    requires
        m.doors == Seq::<(usize, usize, Direction)>::empty(),
    ensures
        expand_model(dirs, m).len() == dirs.len(),
        forall|k: int|
            0 <= k < dirs.len() ==> {
                &&& (#[trigger] expand_model(dirs, m)[k]).pos == neighbour_pos(m.pos, dirs[k])
                &&& expand_model(dirs, m)[k].path == m.path.push(m.pos)
                &&& expand_model(dirs, m)[k].doors == Seq::<(usize, usize, Direction)>::empty()
            },
    decreases dirs.len(),
{
    if dirs.len() > 0 {
        lemma_expand_doorless(m, dirs.drop_last());
        let full = expand_model(dirs, m);
        let rest = expand_model(dirs.drop_last(), m);
        assert(!m.doors.contains((m.pos.0, m.pos.1, dirs.last())));
        assert forall|k: int| 0 <= k < dirs.len() implies {
            &&& (#[trigger] full[k]).pos == neighbour_pos(m.pos, dirs[k])
            &&& full[k].path == m.path.push(m.pos)
            &&& full[k].doors == Seq::<(usize, usize, Direction)>::empty()
        } by {
            if k < dirs.len() - 1 {
                assert(full[k] == rest[k]);
                assert(dirs.drop_last()[k] == dirs[k]);
            } else {
                assert(dirs[k] == dirs.last());
            }
        }
    }
}

/// A search position is accounted for: either a frontier state stands on
/// it at the level at which it was first reached, or it has been
/// expanded, so every neighbour behind an open direction is reached at
/// most one level later.
spec fn frontier_closed_at(
    grid: Seq<Seq<MazeCell>>,
    q: Seq<StateModel>,
    hist: Map<(usize, usize), int>,
    p: (usize, usize),
) -> bool {
    ||| exists|i: int| 0 <= i < q.len() && (#[trigger] q[i]).pos == p && level_of(q[i]) == hist[p]
    ||| {
        &&& !cell_at(grid, p).end_of_maze
        &&& forall|k: int|
            0 <= k < cell_at(grid, p).available_directions@.len() ==> hist.dom().contains(
                neighbour_pos(p, #[trigger] cell_at(grid, p).available_directions@[k]),
            ) && hist[neighbour_pos(p, cell_at(grid, p).available_directions@[k])] <= hist[p] + 1
    }
}

/// Everything the minimality argument carries through the search: the
/// frontier's levels never decrease and span at most two values; every
/// reached position is accounted for; and the structural facts the
/// solvers already maintain.
spec fn search_inv(
    grid: Seq<Seq<MazeCell>>,
    kmax: int,
    q: Seq<StateModel>,
    v: Seq<(usize, usize, u32)>,
    hist: Map<(usize, usize), int>,
) -> bool {
    &&& grid_wf(grid)
    &&& 0 <= kmax <= u32::MAX
    &&& forall|i: int, j: int|
        0 <= i <= j < q.len() ==> level_of(#[trigger] q[i]) <= level_of(#[trigger] q[j])
            && level_of(q[j]) <= level_of(q[i]) + 1
    &&& forall|i: int| 0 <= i < q.len() ==> state_ok(grid, kmax, #[trigger] q[i])
    &&& forall|i: int|
        0 <= i < q.len() ==> (#[trigger] q[i]).doors == Seq::<(usize, usize, Direction)>::empty()
    &&& v.no_duplicates()
    &&& forall|j: int| 0 <= j < v.len() ==> sig_in_box(grid, kmax, #[trigger] v[j])
    &&& forall|j: int|
        0 <= j < v.len() ==> hist.dom().contains(((#[trigger] v[j]).0, v[j].1))
    &&& forall|i: int|
        0 <= i < q.len() ==> hist.dom().contains((#[trigger] q[i]).pos) && hist[q[i].pos]
            <= level_of(q[i])
    &&& forall|p: (usize, usize)| #[trigger] hist.dom().contains(p) ==> 0 <= hist[p]
    &&& forall|p: (usize, usize)|
        #[trigger] hist.dom().contains(p) ==> frontier_closed_at(grid, q, hist, p)
    &&& q.len() > 0 ==> forall|p: (usize, usize)|
        #[trigger] hist.dom().contains(p) ==> hist[p] <= level_of(q[0]) + 1
}

/// Following a walk from a reached position must run into the frontier:
/// some frontier state stands on the walk, no more steps deep than the
/// walk itself.
proof fn lemma_walk_meets_frontier(
    grid: Seq<Seq<MazeCell>>,
    kmax: int,
    q: Seq<StateModel>,
    v: Seq<(usize, usize, u32)>,
    hist: Map<(usize, usize), int>,
    w: Seq<(usize, usize)>,
)
    requires
        search_inv(grid, kmax, q, v, hist),
        is_walk(grid, w),
        hist.dom().contains(w[0]),
        cell_at(grid, w.last()).end_of_maze,
    ensures
        exists|i: int, j: int|
            0 <= i < q.len() && 0 <= j < w.len() && (#[trigger] q[i]).pos == #[trigger] w[j]
                && level_of(q[i]) <= hist[w[0]] + j,
    decreases w.len(),
{
    assert(frontier_closed_at(grid, q, hist, w[0]));
    if exists|i: int|
        0 <= i < q.len() && (#[trigger] q[i]).pos == w[0] && level_of(q[i]) == hist[w[0]] {
        let i = choose|i: int|
            0 <= i < q.len() && (#[trigger] q[i]).pos == w[0] && level_of(q[i]) == hist[w[0]];
        assert(q[i].pos == w[0] && level_of(q[i]) <= hist[w[0]] + 0);
    } else {
        assert(!cell_at(grid, w[0]).end_of_maze);
        assert(w.len() >= 2) by {
            if w.len() == 1 {
                assert(w.last() == w[0]);
            }
        }
        assert(step_open(grid, w[0], w[1]));
        let d = choose|d: Direction|
            cell_at(grid, w[0]).available_directions@.contains(d) && w[1] == neighbour_pos(
                w[0],
                d,
            );
        let k = choose|k: int|
            0 <= k < cell_at(grid, w[0]).available_directions@.len() && cell_at(
                grid,
                w[0],
            ).available_directions@[k] == d;
        assert(hist.dom().contains(w[1]) && hist[w[1]] <= hist[w[0]] + 1);
        let w2 = w.drop_first();
        assert(is_walk(grid, w2)) by {
            assert(forall|i: int| 0 <= i < w2.len() ==> #[trigger] w2[i] == w[i + 1]);
            assert(forall|i: int|
                0 <= i < w2.len() - 1 ==> step_open(grid, #[trigger] w2[i], w2[i + 1]));
        }
        assert(w2.last() == w.last());
        assert(w2[0] == w[1]);
        lemma_walk_meets_frontier(grid, kmax, q, v, hist, w2);
        let (i2, j2) = choose|i: int, j: int|
            0 <= i < q.len() && 0 <= j < w2.len() && (#[trigger] q[i]).pos == #[trigger] w2[j]
                && level_of(q[i]) <= hist[w2[0]] + j;
        assert(w2[j2] == w[j2 + 1]);
        assert(q[i2].pos == w[j2 + 1] && level_of(q[i2]) <= hist[w[0]] + (j2 + 1));
    }
}

/// The answer of a door-free search is no deeper than any walk to an
/// exit that starts on a reached position.
proof fn lemma_bfs_model_minimal(
    grid: Seq<Seq<MazeCell>>,
    kmax: int,
    space: int,
    q: Seq<StateModel>,
    v: Seq<(usize, usize, u32)>,
    hist: Map<(usize, usize), int>,
    fuel: nat,
    w: Seq<(usize, usize)>,
)
    requires
        search_inv(grid, kmax, q, v, hist),
        space == grid.len() * grid[0].len() * (kmax + 1),
        fuel >= q.len() + space - v.len(),
        is_walk(grid, w),
        hist.dom().contains(w[0]),
        cell_at(grid, w.last()).end_of_maze,
    ensures
        bfs_model(grid, q, v, fuel) matches Some(m) && level_of(m) <= hist[w[0]] + w.len() - 1,
    decreases fuel,
{
    lemma_walk_meets_frontier(grid, kmax, q, v, hist, w);
    let (iw, jw) = choose|i: int, j: int|
        0 <= i < q.len() && 0 <= j < w.len() && (#[trigger] q[i]).pos == #[trigger] w[j]
            && level_of(q[i]) <= hist[w[0]] + j;
    assert(q.len() > 0);
    lemma_visited_bounded(grid, kmax, v);
    assert(fuel >= 1);
    let s0 = q[0];
    assert(state_ok(grid, kmax, s0));
    if cell_at(grid, s0.pos).end_of_maze {
        assert(level_of(q[0]) <= level_of(q[iw]));
        assert(bfs_model(grid, q, v, fuel) == Some(s0));
    } else {
        let dirs = cell_at(grid, s0.pos).available_directions@;
        let succs = expand_model(dirs, s0);
        assert(forall|j: int| 0 <= j < dirs.len() ==> dirs.contains(#[trigger] dirs[j]));
        lemma_expand_all_ok(grid, kmax, s0, dirs);
        lemma_expand_doorless(s0, dirs);
        let qv0 = (q.drop_first(), v);
        let qv1 = enqueue_all(qv0, succs);
        lemma_enqueue_all_shape(qv0, succs);
        let q1 = qv1.0;
        let v1 = qv1.1;
        let lvl0 = level_of(s0);
        let base = q.len() - 1;

        assert(forall|i: int| 0 <= i < base ==> #[trigger] q1[i] == q[i + 1]);
        assert(forall|k: int|
            0 <= k < succs.len() ==> level_of(#[trigger] succs[k]) == lvl0 + 1);
        assert forall|i: int| base <= i < q1.len() implies {
            &&& level_of(#[trigger] q1[i]) == lvl0 + 1
            &&& state_ok(grid, kmax, q1[i])
            &&& q1[i].doors == Seq::<(usize, usize, Direction)>::empty()
            &&& exists|k: int| 0 <= k < succs.len() && #[trigger] succs[k] == q1[i]
        } by {
            assert(succs.contains(q1[i]));
            let k = choose|k: int| 0 <= k < succs.len() && succs[k] == q1[i];
            assert(state_ok(grid, kmax, succs[k]));
        }

        let hist1 = Map::<(usize, usize), int>::new(
            |p: (usize, usize)|
                hist.dom().contains(p) || (exists|k: int|
                    0 <= k < succs.len() && (#[trigger] succs[k]).pos == p),
            |p: (usize, usize)|
                if hist.dom().contains(p) {
                    hist[p]
                } else {
                    lvl0 + 1
                },
        );
        assert(forall|p: (usize, usize)|
            hist.dom().contains(p) ==> #[trigger] hist1.dom().contains(p) && hist1[p] == hist[p]);
        assert(forall|k: int|
            0 <= k < succs.len() ==> hist1.dom().contains((#[trigger] succs[k]).pos));

        // every new visited key belongs to a pushed frontier state
        assert forall|j: int| v.len() <= j < v1.len() implies {
            &&& #[trigger] v1[j] == sig_of(q1[j - v.len() + base])
            &&& base <= j - v.len() + base < q1.len()
        } by {
            let i = j - v.len() + base;
            assert(v1.len() - v.len() == q1.len() - base);
            assert(v1[i - base + v.len()] == sig_of(q1[i]));
        }

        // the levels of the new frontier continue the old ones
        assert forall|i: int, j: int| 0 <= i <= j < q1.len() implies level_of(#[trigger] q1[i])
            <= level_of(#[trigger] q1[j]) && level_of(q1[j]) <= level_of(q1[i]) + 1 by {
            if i < base {
                assert(q1[i] == q[i + 1]);
                assert(level_of(q[0]) <= level_of(q[i + 1]) <= level_of(q[0]) + 1);
            }
            if j < base {
                assert(q1[j] == q[j + 1]);
                assert(level_of(q[i + 1]) <= level_of(q[j + 1]) <= level_of(q[i + 1]) + 1);
            }
        }

        // every reached position is still accounted for
        assert forall|p: (usize, usize)| #[trigger] hist1.dom().contains(p) implies
            frontier_closed_at(grid, q1, hist1, p) by {
            if hist.dom().contains(p) {
                assert(frontier_closed_at(grid, q, hist, p));
                if exists|i: int|
                    0 <= i < q.len() && (#[trigger] q[i]).pos == p && level_of(q[i]) == hist[p] {
                    if exists|i: int|
                        1 <= i < q.len() && (#[trigger] q[i]).pos == p && level_of(q[i])
                            == hist[p] {
                        let i = choose|i: int|
                            1 <= i < q.len() && (#[trigger] q[i]).pos == p && level_of(q[i])
                                == hist[p];
                        assert(q1[i - 1] == q[i]);
                        assert(q1[i - 1].pos == p && level_of(q1[i - 1]) == hist1[p]);
                    } else {
                        // the only frontier state on p was the one expanded
                        assert(s0.pos == p && hist[p] == lvl0);
                        assert(!cell_at(grid, p).end_of_maze);
                        assert forall|k: int|
                            0 <= k < cell_at(grid, p).available_directions@.len() implies
                            hist1.dom().contains(
                                neighbour_pos(
                                    p,
                                    #[trigger] cell_at(grid, p).available_directions@[k],
                                ),
                            ) && hist1[neighbour_pos(
                                p,
                                cell_at(grid, p).available_directions@[k],
                            )] <= hist1[p] + 1 by {
                            let np = neighbour_pos(p, dirs[k]);
                            assert(succs[k].pos == np);
                            if hist.dom().contains(np) {
                                assert(hist[np] <= level_of(q[0]) + 1);
                            }
                        }
                    }
                } else {
                    assert(!cell_at(grid, p).end_of_maze);
                    assert forall|k: int|
                        0 <= k < cell_at(grid, p).available_directions@.len() implies
                        hist1.dom().contains(
                            neighbour_pos(
                                p,
                                #[trigger] cell_at(grid, p).available_directions@[k],
                            ),
                        ) && hist1[neighbour_pos(
                            p,
                            cell_at(grid, p).available_directions@[k],
                        )] <= hist1[p] + 1 by {
                        let np = neighbour_pos(p, cell_at(grid, p).available_directions@[k]);
                        assert(hist.dom().contains(np) && hist[np] <= hist[p] + 1);
                    }
                }
            } else {
                let k = choose|k: int| 0 <= k < succs.len() && (#[trigger] succs[k]).pos == p;
                assert(v1.contains(sig_of(succs[k])));
                let j = choose|j: int| 0 <= j < v1.len() && v1[j] == sig_of(succs[k]);
                if j < v.len() {
                    assert(v[j] == sig_of(succs[k]));
                    assert(hist.dom().contains((v[j].0, v[j].1)));
                    assert((v[j].0, v[j].1) == p);
                    assert(false);
                }
                let i = j - v.len() + base;
                assert(v1[j] == sig_of(q1[i]));
                assert(sig_of(q1[i]) == sig_of(succs[k]));
                assert(q1[i].pos == p);
                assert(level_of(q1[i]) == lvl0 + 1 && hist1[p] == lvl0 + 1);
            }
        }

        assert(search_inv(grid, kmax, q1, v1, hist1)) by {
            assert forall|j: int| 0 <= j < v1.len() implies sig_in_box(
                grid,
                kmax,
                #[trigger] v1[j],
            ) && hist1.dom().contains((v1[j].0, v1[j].1)) by {
                if j < v.len() {
                    assert(v1[j] == v[j]);
                } else {
                    let i = j - v.len() + base;
                    assert(v1[j] == sig_of(q1[i]));
                    assert(state_ok(grid, kmax, q1[i]));
                    assert(grid[q1[i].pos.0 as int].len() == grid[0].len());
                }
            }
            assert forall|i: int| 0 <= i < q1.len() implies hist1.dom().contains(
                (#[trigger] q1[i]).pos,
            ) && hist1[q1[i].pos] <= level_of(q1[i]) by {
                if i < base {
                    assert(q1[i] == q[i + 1]);
                    assert(hist.dom().contains(q[i + 1].pos));
                } else {
                    if hist.dom().contains(q1[i].pos) {
                        assert(hist[q1[i].pos] <= level_of(q[0]) + 1);
                    }
                }
            }
            if q1.len() > 0 {
                assert(level_of(q1[0]) >= lvl0) by {
                    if 0 < base {
                        assert(q1[0] == q[1]);
                        assert(level_of(q[0]) <= level_of(q[1]));
                    }
                }
                assert forall|p: (usize, usize)| #[trigger] hist1.dom().contains(p) implies
                    hist1[p] <= level_of(q1[0]) + 1 by {
                    if hist.dom().contains(p) {
                        assert(hist[p] <= level_of(q[0]) + 1);
                    }
                }
            }
        }

        assert(q1.len() - base == v1.len() - v.len());
        assert(fuel - 1 >= q1.len() + space - v1.len());
        assert(hist1.dom().contains(w[0]) && hist1[w[0]] == hist[w[0]]);
        lemma_bfs_model_minimal(grid, kmax, space, q1, v1, hist1, (fuel - 1) as nat, w);
        assert(bfs_model(grid, q, v, fuel) == bfs_model(grid, q1, v1, (fuel - 1) as nat));
    }
}

/// Law: a returned state stands on an exit cell, its walk starts where
/// the initial state's walk starts, and every adjacent pair of positions
/// in the walk corresponds to an open direction in the grid.
pub proof fn lemma_search_result_path_valid(grid: Seq<Seq<MazeCell>>, init: StateModel)
    requires
        grid_wf(grid),
        in_bounds(grid, init.pos),
        path_connected(grid, init),
    ensures
        search_result(grid, init) matches Some(m) ==> in_bounds(grid, m.pos) && cell_at(
            grid,
            m.pos,
        ).end_of_maze && path_connected(grid, m) && full_path(m)[0] == full_path(init)[0],
{
    let q0 = seq![init];
    assert(q0[0] == init);
    lemma_bfs_model_path(grid, q0, seq![sig_of(init)], search_fuel(grid, init), full_path(init)[0]);
}

/// Law: in a maze with no locked doors, the search is complete and its
/// answer is shortest. Whenever some walk leads from the start to an
/// exit, the search returns a state that took no more steps than that
/// walk; and by [`lemma_search_result_path_valid`] the answer itself is
/// such a walk, so the number of steps taken is exactly the
/// breadth-first distance from the start to the nearest exit, keys
/// ignored.
pub proof fn lemma_no_doors_shortest(
    grid: Seq<Seq<MazeCell>>,
    init: StateModel,
    w: Seq<(usize, usize)>,
)
    requires
        grid_wf(grid),
        in_bounds(grid, init.pos),
        init.doors == Seq::<(usize, usize, Direction)>::empty(),
        init.held + init.keys.len() <= u32::MAX,
        is_walk(grid, w),
        w[0] == init.pos,
        cell_at(grid, w.last()).end_of_maze,
    ensures
        search_result(grid, init) matches Some(m) && m.path.len() <= init.path.len() + w.len()
            - 1,
{
    let kmax = key_allowance(init);
    let space = state_space(grid, init);
    let q0 = seq![init];
    let v0 = seq![sig_of(init)];
    let hist0 = Map::<(usize, usize), int>::empty().insert(init.pos, level_of(init));
    assert(grid[init.pos.0 as int].len() == grid[0].len());
    assert(search_inv(grid, kmax, q0, v0, hist0)) by {
        assert(q0[0] == init);
        assert(v0[0] == sig_of(init));
        assert(sig_in_box(grid, kmax, sig_of(init)));
        assert(hist0.dom().contains(init.pos) && hist0[init.pos] == level_of(init));
        assert(frontier_closed_at(grid, q0, hist0, init.pos)) by {
            assert(q0[0].pos == init.pos && level_of(q0[0]) == hist0[init.pos]);
        }
    }
    lemma_visited_bounded(grid, kmax, v0);
    assert(search_fuel(grid, init) >= q0.len() + space - v0.len());
    lemma_bfs_model_minimal(grid, kmax, space, q0, v0, hist0, search_fuel(grid, init), w);
}

proof fn lemma_without_pos_contains(keys: Seq<(usize, usize)>, p: (usize, usize), x: (usize, usize))
    ensures
        without_pos(keys, p).contains(x) <==> (keys.contains(x) && x != p),
    decreases keys.len(),
{
    if keys.len() > 0 {
        lemma_without_pos_contains(keys.drop_last(), p, x);
        assert(keys.drop_last().contains(x) ==> keys.contains(x));
        if keys.contains(x) && x != keys.last() {
            let i = choose|i: int| 0 <= i < keys.len() && keys[i] == x;
            assert(keys.drop_last()[i] == x);
        }
        let rest = without_pos(keys.drop_last(), p);
        if keys.last() != p {
            if x == keys.last() {
                assert(rest.push(keys.last())[rest.len() as int] == x);
            } else if rest.contains(x) {
                let i = choose|i: int| 0 <= i < rest.len() && rest[i] == x;
                assert(rest.push(keys.last())[i] == x);
            }
            assert forall|y: (usize, usize)| rest.push(keys.last()).contains(y) implies
                rest.contains(y) || y == keys.last() by {
                let i = choose|i: int|
                    0 <= i < rest.push(keys.last()).len() && rest.push(keys.last())[i] == y;
                if i < rest.len() {
                    assert(rest[i] == y);
                }
            }
        }
    }
}

proof fn lemma_without_pos_exact(keys: Seq<(usize, usize)>, p: (usize, usize))
    requires
        keys.no_duplicates(),
    ensures
        without_pos(keys, p).no_duplicates(),
        without_pos(keys, p).len() == keys.len() - (if keys.contains(p) {
            1int
        } else {
            0int
        }),
    decreases keys.len(),
{
    if keys.len() > 0 {
        let prefix = keys.drop_last();
        assert(prefix.no_duplicates());
        lemma_without_pos_exact(prefix, p);
        let rest = without_pos(prefix, p);
        if keys.contains(p) && keys.last() != p {
            let i = choose|i: int| 0 <= i < keys.len() && keys[i] == p;
            assert(prefix[i] == p);
        }
        if keys.last() == p {
            assert(!prefix.contains(p));
        }
        if prefix.contains(p) {
            assert(keys.contains(p));
        }
        if keys.last() != p {
            lemma_without_pos_contains(prefix, p, keys.last());
            assert(!rest.contains(keys.last()));
            let out = rest.push(keys.last());
            assert forall|i: int, j: int| 0 <= i < j < out.len() implies out[i] != out[j] by {
                if j < rest.len() {
                    assert(out[i] == rest[i] && out[j] == rest[j]);
                } else {
                    assert(out[j] == keys.last() && out[i] == rest[i]);
                    assert(rest.contains(rest[i]));
                }
            }
        }
    }
}

proof fn lemma_without_pair_exact(
    doors: Seq<(usize, usize, Direction)>,
    a: (usize, usize, Direction),
    b: (usize, usize, Direction),
)
    requires
        doors.no_duplicates(),
        a != b,
    ensures
        without_pair(doors, a, b).no_duplicates(),
        without_pair(doors, a, b).len() == doors.len() - (if doors.contains(a) {
            1int
        } else {
            0int
        }) - (if doors.contains(b) {
            1int
        } else {
            0int
        }),
    decreases doors.len(),
{
    if doors.len() > 0 {
        let prefix = doors.drop_last();
        assert(prefix.no_duplicates());
        lemma_without_pair_exact(prefix, a, b);
        let rest = without_pair(prefix, a, b);
        let last = doors.last();
        if doors.contains(a) && last != a {
            let i = choose|i: int| 0 <= i < doors.len() && doors[i] == a;
            assert(prefix[i] == a);
        }
        if doors.contains(b) && last != b {
            let i = choose|i: int| 0 <= i < doors.len() && doors[i] == b;
            assert(prefix[i] == b);
        }
        if last == a || last == b {
            assert(!prefix.contains(last));
        }
        if prefix.contains(a) {
            assert(doors.contains(a));
        }
        if prefix.contains(b) {
            assert(doors.contains(b));
        }
        if last != a && last != b {
            lemma_without_pair_contains(prefix, a, b, last);
            assert(!rest.contains(last));
            let out = rest.push(last);
            assert forall|i: int, j: int| 0 <= i < j < out.len() implies out[i] != out[j] by {
                if j < rest.len() {
                    assert(out[i] == rest[i] && out[j] == rest[j]);
                } else {
                    assert(out[j] == last && out[i] == rest[i]);
                    assert(rest.contains(rest[i]));
                }
            }
        }
    }
}

/// The books of one search branch against its initial state: the doors
/// still locked and the keys still on the grid come from the initial
/// ones, both lists stay duplicate-free, door symmetry holds, and the
/// balance closes — twice the keys gained and spent equals the door
/// sides removed, so every unlocked door was paid for by a key that was
/// held at the start or picked up on this very branch.
pub open spec fn key_accounting(init: StateModel, m: StateModel) -> bool {
    &&& init.held + init.keys.len() <= u32::MAX
    &&& m.held + m.keys.len() <= init.held + init.keys.len()
    &&& m.keys.no_duplicates()
    &&& m.doors.no_duplicates()
    &&& doors_symmetric(m.doors)
    &&& forall|i: int| 0 <= i < m.doors.len() ==> init.doors.contains(#[trigger] m.doors[i])
    &&& forall|i: int| 0 <= i < m.doors.len() ==> door_steps_in_range(#[trigger] m.doors[i])
    &&& forall|i: int| 0 <= i < m.keys.len() ==> init.keys.contains(#[trigger] m.keys[i])
    &&& 2 * (init.held - m.held + init.keys.len() - m.keys.len()) == init.doors.len()
        - m.doors.len()
}

proof fn lemma_successor_accounting(init: StateModel, m: StateModel, d: Direction, ns: StateModel)
    requires
        key_accounting(init, m),
        successor_model(m, d) == Some(ns),
    ensures
        key_accounting(init, ns),
{
    let np = neighbour_pos(m.pos, d);
    let here = (m.pos.0, m.pos.1, d);
    let there = (np.0, np.1, opposite(d));
    if m.doors.contains(here) {
        let ih = choose|i: int| 0 <= i < m.doors.len() && m.doors[i] == here;
        assert(door_steps_in_range(here));
        assert(door_pair(here) == there);
        assert(m.doors.contains(there));
        assert(here != there);
        lemma_without_pair_exact(m.doors, here, there);
        assert forall|i: int| 0 <= i < ns.doors.len() implies init.doors.contains(
            #[trigger] ns.doors[i],
        ) && door_steps_in_range(ns.doors[i]) by {
            lemma_without_pair_contains(m.doors, here, there, ns.doors[i]);
            let j = choose|j: int| 0 <= j < m.doors.len() && m.doors[j] == ns.doors[i];
        }
        lemma_expansion_preserves_door_symmetry(m, d, ns);
    }
    if m.keys.contains(np) {
        lemma_without_pos_exact(m.keys, np);
        assert forall|i: int| 0 <= i < ns.keys.len() implies init.keys.contains(
            #[trigger] ns.keys[i],
        ) by {
            lemma_without_pos_contains(m.keys, np, ns.keys[i]);
            let j = choose|j: int| 0 <= j < m.keys.len() && m.keys[j] == ns.keys[i];
        }
    }
}

proof fn lemma_expand_all_accounting(init: StateModel, m: StateModel, dirs: Seq<Direction>)
    requires
        key_accounting(init, m),
    ensures
        forall|k: int|
            0 <= k < expand_model(dirs, m).len() ==> key_accounting(
                init,
                #[trigger] expand_model(dirs, m)[k],
            ),
    decreases dirs.len(),
{
    if dirs.len() > 0 {
        lemma_expand_all_accounting(init, m, dirs.drop_last());
        match successor_model(m, dirs.last()) {
            Some(ns) => {
                lemma_successor_accounting(init, m, dirs.last(), ns);
            },
            None => {},
        }
        let full = expand_model(dirs, m);
        let rest = expand_model(dirs.drop_last(), m);
        assert forall|k: int| 0 <= k < full.len() implies key_accounting(init, full[k]) by {
            if k < rest.len() {
                assert(full[k] == rest[k]);
            }
        }
    }
}

proof fn lemma_bfs_model_accounting(
    init: StateModel,
    grid: Seq<Seq<MazeCell>>,
    queue: Seq<StateModel>,
    visited: Seq<(usize, usize, u32)>,
    fuel: nat,
)
    requires
        forall|i: int| 0 <= i < queue.len() ==> key_accounting(init, #[trigger] queue[i]),
    ensures
        bfs_model(grid, queue, visited, fuel) matches Some(m) ==> key_accounting(init, m),
    decreases fuel,
{
    if fuel == 0 || queue.len() == 0 {
    } else {
        let s = queue[0];
        if !in_bounds(grid, s.pos) {
        } else if cell_at(grid, s.pos).end_of_maze {
        } else {
            let dirs = cell_at(grid, s.pos).available_directions@;
            lemma_expand_all_accounting(init, s, dirs);
            let succs = expand_model(dirs, s);
            let qv = enqueue_all((queue.drop_first(), visited), succs);
            lemma_enqueue_all_elems((queue.drop_first(), visited), succs);
            assert forall|i: int| 0 <= i < qv.0.len() implies key_accounting(
                init,
                #[trigger] qv.0[i],
            ) by {
                if queue.drop_first().contains(qv.0[i]) {
                    let j = choose|j: int|
                        0 <= j < queue.drop_first().len() && queue.drop_first()[j] == qv.0[i];
                    assert(queue[j + 1] == qv.0[i]);
                } else {
                    let k = choose|k: int| 0 <= k < succs.len() && succs[k] == qv.0[i];
                }
            }
            lemma_bfs_model_accounting(init, grid, qv.0, qv.1, (fuel - 1) as nat);
        }
    }
}

/// Law: a locked door is only ever crossed with a key in hand, and every
/// key spent was held at the start or picked up earlier on the same
/// branch. For any state the search returns, the remaining doors and
/// keys come from the initial ones, the doors keep both sides of every
/// wall together, and the books close: twice the key balance equals the
/// number of door sides removed.
pub proof fn lemma_search_result_key_accounting(grid: Seq<Seq<MazeCell>>, init: StateModel)
    requires
        init.held + init.keys.len() <= u32::MAX,
        init.keys.no_duplicates(),
        init.doors.no_duplicates(),
        doors_symmetric(init.doors),
        forall|i: int| 0 <= i < init.doors.len() ==> door_steps_in_range(#[trigger] init.doors[i]),
    ensures
        search_result(grid, init) matches Some(m) ==> key_accounting(init, m),
{
    let q0 = seq![init];
    assert(q0[0] == init);
    assert(key_accounting(init, init));
    lemma_bfs_model_accounting(init, grid, q0, seq![sig_of(init)], search_fuel(grid, init));
}

/// A state the successor rule can produce from `init` in exactly `n`
/// applications. Each application is one move under the door and key
/// rules: a locked door blocks the move unless a key is in hand at that
/// moment, spending it unlocks both sides, and a key on the entered
/// cell is picked up afterwards.
pub open spec fn reachable_by_rules(init: StateModel, m: StateModel, n: nat) -> bool
    decreases n,
{
    if n == 0 {
        m == init
    } else {
        exists|p: StateModel, d: Direction|
            reachable_by_rules(init, p, (n - 1) as nat) && successor_model(p, d) == Some(m)
    }
}

proof fn lemma_expand_all_reachable(init: StateModel, m: StateModel, dirs: Seq<Direction>, n: nat)
    requires
        reachable_by_rules(init, m, n),
    ensures
        forall|k: int|
            0 <= k < expand_model(dirs, m).len() ==> reachable_by_rules(
                init,
                #[trigger] expand_model(dirs, m)[k],
                n + 1,
            ),
    decreases dirs.len(),
{
    if dirs.len() > 0 {
        lemma_expand_all_reachable(init, m, dirs.drop_last(), n);
        let full = expand_model(dirs, m);
        let rest = expand_model(dirs.drop_last(), m);
        assert forall|k: int| 0 <= k < full.len() implies reachable_by_rules(
            init,
            full[k],
            n + 1,
        ) by {
            if k < rest.len() {
                assert(full[k] == rest[k]);
            } else {
                let ns = full[k];
                assert(successor_model(m, dirs.last()) == Some(ns));
                assert(reachable_by_rules(init, m, ((n + 1) - 1) as nat));
            }
        }
    }
}

proof fn lemma_bfs_model_reachable(
    init: StateModel,
    grid: Seq<Seq<MazeCell>>,
    queue: Seq<StateModel>,
    visited: Seq<(usize, usize, u32)>,
    fuel: nat,
)
    requires
        forall|i: int|
            0 <= i < queue.len() ==> level_of(#[trigger] queue[i]) >= level_of(init)
                && reachable_by_rules(
                init,
                queue[i],
                (level_of(queue[i]) - level_of(init)) as nat,
            ),
    ensures
        bfs_model(grid, queue, visited, fuel) matches Some(m) ==> level_of(m) >= level_of(init)
            && reachable_by_rules(init, m, (level_of(m) - level_of(init)) as nat),
    decreases fuel,
{
    if fuel == 0 || queue.len() == 0 {
    } else {
        let s = queue[0];
        if !in_bounds(grid, s.pos) {
        } else if cell_at(grid, s.pos).end_of_maze {
        } else {
            let dirs = cell_at(grid, s.pos).available_directions@;
            let n = (level_of(s) - level_of(init)) as nat;
            lemma_expand_all_reachable(init, s, dirs, n);
            let succs = expand_model(dirs, s);
            assert(forall|k: int|
                0 <= k < succs.len() ==> level_of(#[trigger] succs[k]) == level_of(s) + 1) by {
                lemma_expand_all_path_lengths(s, dirs);
            }
            let qv = enqueue_all((queue.drop_first(), visited), succs);
            lemma_enqueue_all_elems((queue.drop_first(), visited), succs);
            assert forall|i: int| 0 <= i < qv.0.len() implies level_of(#[trigger] qv.0[i])
                >= level_of(init) && reachable_by_rules(
                init,
                qv.0[i],
                (level_of(qv.0[i]) - level_of(init)) as nat,
            ) by {
                if queue.drop_first().contains(qv.0[i]) {
                    let j = choose|j: int|
                        0 <= j < queue.drop_first().len() && queue.drop_first()[j] == qv.0[i];
                    assert(queue[j + 1] == qv.0[i]);
                } else {
                    let k = choose|k: int| 0 <= k < succs.len() && succs[k] == qv.0[i];
                    assert(level_of(succs[k]) == level_of(s) + 1);
                    assert(reachable_by_rules(init, succs[k], n + 1));
                }
            }
            lemma_bfs_model_reachable(init, grid, qv.0, qv.1, (fuel - 1) as nat);
        }
    }
}

proof fn lemma_expand_all_path_lengths(m: StateModel, dirs: Seq<Direction>)
    ensures
        forall|k: int|
            0 <= k < expand_model(dirs, m).len() ==> level_of(#[trigger] expand_model(dirs, m)[k])
                == level_of(m) + 1,
    decreases dirs.len(),
{
    if dirs.len() > 0 {
        lemma_expand_all_path_lengths(m, dirs.drop_last());
        let full = expand_model(dirs, m);
        let rest = expand_model(dirs.drop_last(), m);
        assert forall|k: int| 0 <= k < full.len() implies level_of(full[k]) == level_of(m)
            + 1 by {
            if k < rest.len() {
                assert(full[k] == rest[k]);
            }
        }
    }
}

/// Law: a returned state is produced from the initial state by the
/// successor rule alone, one application per step of its path. So every
/// move it ever took obeyed the door and key rules at the moment it was
/// taken: a locked door was crossed only with a key then in hand —
/// picked up at an earlier step or part of the initial allotment — and
/// spending it removed both sides of that wall.
pub proof fn lemma_search_result_by_rules(grid: Seq<Seq<MazeCell>>, init: StateModel)
    ensures
        search_result(grid, init) matches Some(m) ==> m.path.len() >= init.path.len()
            && reachable_by_rules(init, m, (m.path.len() - init.path.len()) as nat),
{
    let q0 = seq![init];
    assert(q0[0] == init);
    assert(reachable_by_rules(init, init, 0));
    lemma_bfs_model_reachable(init, grid, q0, seq![sig_of(init)], search_fuel(grid, init));
}

proof fn lemma_bfs_model_exit(
    grid: Seq<Seq<MazeCell>>,
    queue: Seq<StateModel>,
    visited: Seq<(usize, usize, u32)>,
    fuel: nat,
)
    ensures
        bfs_model(grid, queue, visited, fuel) matches Some(m) ==> in_bounds(grid, m.pos)
            && cell_at(grid, m.pos).end_of_maze,
    decreases fuel,
{
    if fuel == 0 || queue.len() == 0 {
    } else {
        let s = queue[0];
        if !in_bounds(grid, s.pos) {
        } else if cell_at(grid, s.pos).end_of_maze {
        } else {
            let qv = enqueue_all(
                (queue.drop_first(), visited),
                expand_model(cell_at(grid, s.pos).available_directions@, s),
            );
            lemma_bfs_model_exit(grid, qv.0, qv.1, (fuel - 1) as nat);
        }
    }
}

/// Law: a maze whose exits no sequence of rule-valid moves can reach
/// has no solution — the search reports the absent value, a normal
/// outcome, never an answer.
pub proof fn lemma_unreachable_exit_yields_none(grid: Seq<Seq<MazeCell>>, init: StateModel)
    requires
        forall|m: StateModel, n: nat|
            #[trigger] reachable_by_rules(init, m, n) ==> !(in_bounds(grid, m.pos) && cell_at(
                grid,
                m.pos,
            ).end_of_maze),
    ensures
        search_result(grid, init) is None,
{
    if search_result(grid, init) is Some {
        let m = search_result(grid, init)->Some_0;
        lemma_search_result_by_rules(grid, init);
        lemma_bfs_model_exit(grid, seq![init], seq![sig_of(init)], search_fuel(grid, init));
        assert(reachable_by_rules(init, m, (m.path.len() - init.path.len()) as nat));
        assert(false);
    }
}

/// Law: the solvers only read the maze and the initial state, and their
/// answer is a function of the two, so running a solver twice on the
/// same pair yields the same path.
pub proof fn lemma_solver_deterministic(
    grid: Seq<Seq<MazeCell>>,
    init: StateModel,
    r1: Option<MazeState>,
    r2: Option<MazeState>,
)
    requires
        opt_model(r1) == search_result(grid, init),
        opt_model(r2) == search_result(grid, init),
    ensures
        (r1 is Some) <==> (r2 is Some),
        r1 matches Some(s1) ==> r2 matches Some(s2) && s1@.path == s2@.path && s1@.pos
            == s2@.pos && s1@.held == s2@.held,
{
}

/// Law: the sequential and the work-per-branch solver agree on every
/// maze — in particular on one with no locked doors — both in whether a
/// solution exists and in the returned walk, so the paths have identical
/// minimal length.
pub proof fn lemma_parallel_agrees_with_sequential(
    grid: Seq<Seq<MazeCell>>,
    init: StateModel,
    r1: Option<MazeState>,
    r2: Option<MazeState>,
)
    requires
        opt_model(r1) == search_result(grid, init),
        opt_model(r2) == search_result(grid, init),
    ensures
        (r1 is Some) <==> (r2 is Some),
        r1 matches Some(s1) ==> r2 matches Some(s2) && s1@.path.len() == s2@.path.len()
            && s1@.path == s2@.path && s1@.pos == s2@.pos,
{
}

fn sigs_contain(visited: &Vec<(usize, usize, u32)>, s: &(usize, usize, u32)) -> (r: bool)
    ensures
        r == visited@.contains(*s),
{
    let mut i: usize = 0;
    while i < visited.len()
        invariant
            i <= visited@.len(),
            forall|j: int| 0 <= j < i ==> visited@[j] != *s,
        decreases visited@.len() - i,
    {
        if visited[i].0 == s.0 && visited[i].1 == s.1 && visited[i].2 == s.2 {
            return true;
        }
        i = i + 1;
    }
    false
}

/// The check-and-insert of the visited set: marks a key visited and says
/// whether it was new. A caller enqueues the candidate exactly when the
/// key was new.
pub fn mark_visited_if_new(visited: &mut Vec<(usize, usize, u32)>, sig: (usize, usize, u32)) -> (fresh:
    bool)
    ensures
        fresh == !old(visited)@.contains(sig),
        fresh ==> final(visited)@ == old(visited)@.push(sig),
        !fresh ==> final(visited)@ == old(visited)@,
{
    if sigs_contain(visited, &sig) {
        false
    } else {
        visited.push(sig);
        true
    }
}

/// The sequential solver: breadth-first search from the initial state,
/// returning the first traversal state dequeued on an exit cell, or
/// nothing when the frontier runs dry. The result is exactly
/// [`search_result`] of the maze and the initial state.
pub fn solve_maze_bfs(
    maze_table: &array2d::Array2D<MazeCell>,
    initial_maze_state: MazeState,
) -> (r: Option<MazeState>)
    requires
        grid_wf(array2d_cells(*maze_table)),
        in_bounds(array2d_cells(*maze_table), initial_maze_state@.pos),
        initial_maze_state@.held + initial_maze_state@.keys.len() <= u32::MAX,
    ensures
        opt_model(r) == search_result(array2d_cells(*maze_table), initial_maze_state@),
{
    let ghost grid = array2d_cells(*maze_table);
    let ghost init = initial_maze_state@;
    let ghost kmax = key_allowance(init);
    let ghost space = state_space(grid, init);
    let ghost fuel0 = search_fuel(grid, init);
    let ghost mut fuel = fuel0;

    let mut visited: Vec<(usize, usize, u32)> = Vec::new();
    visited.push(
        (
            initial_maze_state.current_position.0,
            initial_maze_state.current_position.1,
            initial_maze_state.num_keys_to_use,
        ),
    );

    let mut bfs_queue: std::collections::VecDeque<MazeState> =
        std::collections::VecDeque::new();
    bfs_queue.push_back(initial_maze_state);

    let mut maze_end_state: Option<MazeState> = None;

    proof {
        assert(models_of(bfs_queue@) =~= seq![init]);
        assert(visited@ =~= seq![sig_of(init)]);
        assert(space >= 0) by {
            lemma_visited_bounded(grid, kmax, seq![sig_of(init)]);
        }
    }

    while bfs_queue.len() != 0
        invariant_except_break
            maze_end_state is None,
            bfs_model(grid, seq![init], seq![sig_of(init)], fuel0) == bfs_model(
                grid,
                models_of(bfs_queue@),
                visited@,
                fuel,
            ),
        invariant
            grid == array2d_cells(*maze_table),
            grid_wf(grid),
            kmax == key_allowance(init),
            0 <= kmax <= u32::MAX,
            space == state_space(grid, init),
            fuel0 == search_fuel(grid, init),
            forall|i: int|
                0 <= i < bfs_queue@.len() ==> state_ok(grid, kmax, (#[trigger] bfs_queue@[i])@),
            visited@.no_duplicates(),
            forall|j: int| 0 <= j < visited@.len() ==> sig_in_box(grid, kmax, #[trigger] visited@[j]),
            fuel >= bfs_queue@.len() + space - visited@.len(),
        ensures
            opt_model(maze_end_state) == bfs_model(grid, seq![init], seq![sig_of(init)], fuel0),
        decreases fuel,
    {
        let ghost pre_q = models_of(bfs_queue@);
        let ghost pre_v = visited@;
        proof {
            lemma_visited_bounded(grid, kmax, visited@);
            assert(fuel >= 1);
        }
        let current_maze_state = bfs_queue.pop_front().unwrap();
        let ghost cur = current_maze_state@;
        proof {
            assert(cur == pre_q[0]);
            assert(models_of(bfs_queue@) =~= pre_q.drop_first());
            assert(state_ok(grid, kmax, cur));
        }
        let current_maze_cell = match table_get(
            maze_table,
            current_maze_state.current_position.0,
            current_maze_state.current_position.1,
        ) {
            Some(cell) => cell,
            None => {
                return vstd::pervasive::unreached();
            },
        };
        let ghost dirs = cell_at(grid, cur.pos).available_directions@;

        if current_maze_cell.end_of_maze {
            proof {
                assert(bfs_model(grid, pre_q, pre_v, fuel) == Some(cur));
            }
            maze_end_state = Some(current_maze_state);
            break ;
        }

        let valid_neighbours = get_valid_neighbours(maze_table, &current_maze_state);
        let ghost succs = models_of(valid_neighbours@);
        proof {
            assert(succs == expand_model(dirs, cur));
            assert(forall|j: int| 0 <= j < dirs.len() ==> dirs.contains(#[trigger] dirs[j]));
            lemma_expand_all_ok(grid, kmax, cur, dirs);
        }

        let mut k: usize = 0;
        while k < valid_neighbours.len()
            invariant
                grid == array2d_cells(*maze_table),
                grid_wf(grid),
                kmax == key_allowance(init),
                0 <= kmax <= u32::MAX,
                space == state_space(grid, init),
                models_of(valid_neighbours@) == succs,
                forall|j: int|
                    0 <= j < succs.len() ==> state_ok(grid, kmax, #[trigger] succs[j]),
                k <= succs.len(),
                (models_of(bfs_queue@), visited@) == enqueue_all(
                    (pre_q.drop_first(), pre_v),
                    succs.take(k as int),
                ),
                forall|i: int|
                    0 <= i < bfs_queue@.len() ==> state_ok(grid, kmax, (#[trigger] bfs_queue@[i])@),
                visited@.no_duplicates(),
                forall|j: int|
                    0 <= j < visited@.len() ==> sig_in_box(grid, kmax, #[trigger] visited@[j]),
                bfs_queue@.len() + pre_v.len() == pre_q.len() - 1 + visited@.len(),
            decreases succs.len() - k,
        {
            let neighbour_state = valid_neighbours[k].duplicate();
            let nsig = (
                neighbour_state.current_position.0,
                neighbour_state.current_position.1,
                neighbour_state.num_keys_to_use,
            );
            proof {
                assert(neighbour_state@ == succs[k as int]);
                assert(nsig == sig_of(succs[k as int]));
                assert(state_ok(grid, kmax, succs[k as int]));
                assert(grid[succs[k as int].pos.0 as int].len() == grid[0].len());
            }
            let ghost mid_q = models_of(bfs_queue@);
            let ghost mid_v = visited@;
            let fresh = mark_visited_if_new(&mut visited, nsig);
            if fresh {
                bfs_queue.push_back(neighbour_state);
                proof {
                    assert(models_of(bfs_queue@) =~= mid_q.push(succs[k as int]));
                }
            }
            proof {
                assert(succs.take(k + 1).drop_last() =~= succs.take(k as int));
                assert(succs.take(k + 1).last() == succs[k as int]);
                assert((models_of(bfs_queue@), visited@) == enqueue_one(
                    (mid_q, mid_v),
                    succs[k as int],
                ));
            }
            k = k + 1;
        }
        proof {
            assert(succs.take(succs.len() as int) =~= succs);
            assert((models_of(bfs_queue@), visited@) == enqueue_all(
                (pre_q.drop_first(), pre_v),
                succs,
            ));
            assert(bfs_model(grid, pre_q, pre_v, fuel) == bfs_model(
                grid,
                models_of(bfs_queue@),
                visited@,
                (fuel - 1) as nat,
            ));
            fuel = (fuel - 1) as nat;
        }
    }

    maze_end_state
}

/// The work-per-branch solver: the same breadth-first search, but each
/// open direction of the node being expanded is handled as one worker
/// task of its own — compute the candidate with
/// [`get_new_state_if_neighbour_valid`], then check-and-insert into the
/// visited set and, only when new, push onto the frontier. All tasks of
/// one expansion step finish before the next dequeue, so the dequeue
/// order is the sequential solver's; here the tasks run to completion in
/// spawn order, one schedule of that burst. A driver that runs the burst
/// on real threads makes the same per-task calls under a lock.
/// The result is exactly [`search_result`] of the maze and the initial
/// state, the same as [`solve_maze_bfs`].
pub fn solve_maze_bfs_parallel(
    maze_table: &array2d::Array2D<MazeCell>,
    initial_maze_state: MazeState,
) -> (r: Option<MazeState>)
    requires
        grid_wf(array2d_cells(*maze_table)),
        in_bounds(array2d_cells(*maze_table), initial_maze_state@.pos),
        initial_maze_state@.held + initial_maze_state@.keys.len() <= u32::MAX,
    ensures
        opt_model(r) == search_result(array2d_cells(*maze_table), initial_maze_state@),
{
    let ghost grid = array2d_cells(*maze_table);
    let ghost init = initial_maze_state@;
    let ghost kmax = key_allowance(init);
    let ghost space = state_space(grid, init);
    let ghost fuel0 = search_fuel(grid, init);
    let ghost mut fuel = fuel0;

    let mut visited: Vec<(usize, usize, u32)> = Vec::new();
    visited.push(
        (
            initial_maze_state.current_position.0,
            initial_maze_state.current_position.1,
            initial_maze_state.num_keys_to_use,
        ),
    );

    let mut bfs_queue: std::collections::VecDeque<MazeState> =
        std::collections::VecDeque::new();
    bfs_queue.push_back(initial_maze_state);

    let mut maze_end_state: Option<MazeState> = None;

    proof {
        assert(models_of(bfs_queue@) =~= seq![init]);
        assert(visited@ =~= seq![sig_of(init)]);
        assert(space >= 0) by {
            lemma_visited_bounded(grid, kmax, seq![sig_of(init)]);
        }
    }

    while bfs_queue.len() != 0
        invariant_except_break
            maze_end_state is None,
            bfs_model(grid, seq![init], seq![sig_of(init)], fuel0) == bfs_model(
                grid,
                models_of(bfs_queue@),
                visited@,
                fuel,
            ),
        invariant
            grid == array2d_cells(*maze_table),
            grid_wf(grid),
            kmax == key_allowance(init),
            0 <= kmax <= u32::MAX,
            space == state_space(grid, init),
            fuel0 == search_fuel(grid, init),
            forall|i: int|
                0 <= i < bfs_queue@.len() ==> state_ok(grid, kmax, (#[trigger] bfs_queue@[i])@),
            visited@.no_duplicates(),
            forall|j: int| 0 <= j < visited@.len() ==> sig_in_box(grid, kmax, #[trigger] visited@[j]),
            fuel >= bfs_queue@.len() + space - visited@.len(),
        ensures
            opt_model(maze_end_state) == bfs_model(grid, seq![init], seq![sig_of(init)], fuel0),
        decreases fuel,
    {
        let ghost pre_q = models_of(bfs_queue@);
        let ghost pre_v = visited@;
        proof {
            lemma_visited_bounded(grid, kmax, visited@);
            assert(fuel >= 1);
        }
        let current_maze_state = bfs_queue.pop_front().unwrap();
        let ghost cur = current_maze_state@;
        proof {
            assert(cur == pre_q[0]);
            assert(models_of(bfs_queue@) =~= pre_q.drop_first());
            assert(state_ok(grid, kmax, cur));
        }
        let current_maze_cell = match table_get(
            maze_table,
            current_maze_state.current_position.0,
            current_maze_state.current_position.1,
        ) {
            Some(cell) => cell,
            None => {
                return vstd::pervasive::unreached();
            },
        };
        let ghost dirs = cell_at(grid, cur.pos).available_directions@;
        proof {
            assert(cell_wf(grid, cur.pos.0 as int, cur.pos.1 as int));
        }

        if current_maze_cell.end_of_maze {
            proof {
                assert(bfs_model(grid, pre_q, pre_v, fuel) == Some(cur));
            }
            maze_end_state = Some(current_maze_state);
            break ;
        }

        let mut j: usize = 0;
        while j < current_maze_cell.available_directions.len()
            invariant
                grid == array2d_cells(*maze_table),
                grid_wf(grid),
                kmax == key_allowance(init),
                0 <= kmax <= u32::MAX,
                space == state_space(grid, init),
                *current_maze_cell == cell_at(grid, cur.pos),
                dirs == current_maze_cell.available_directions@,
                cell_wf(grid, cur.pos.0 as int, cur.pos.1 as int),
                state_ok(grid, kmax, cur),
                current_maze_state@ == cur,
                j <= dirs.len(),
                (models_of(bfs_queue@), visited@) == enqueue_all(
                    (pre_q.drop_first(), pre_v),
                    expand_model(dirs.take(j as int), cur),
                ),
                forall|i: int|
                    0 <= i < bfs_queue@.len() ==> state_ok(grid, kmax, (#[trigger] bfs_queue@[i])@),
                visited@.no_duplicates(),
                forall|i: int|
                    0 <= i < visited@.len() ==> sig_in_box(grid, kmax, #[trigger] visited@[i]),
                bfs_queue@.len() + pre_v.len() == pre_q.len() - 1 + visited@.len(),
            decreases dirs.len() - j,
        {
            let direction = current_maze_cell.available_directions[j];
            proof {
                assert(dirs.contains(dirs[j as int]));
            }
            let ghost mid_q = models_of(bfs_queue@);
            let ghost mid_v = visited@;
            let candidate = get_new_state_if_neighbour_valid(
                &current_maze_state,
                current_maze_cell,
                direction,
            );
            match candidate {
                Some(neighbour_state) => {
                    proof {
                        lemma_successor_ok(grid, kmax, cur, direction, neighbour_state@);
                        assert(grid[neighbour_state@.pos.0 as int].len() == grid[0].len());
                    }
                    let nsig = (
                        neighbour_state.current_position.0,
                        neighbour_state.current_position.1,
                        neighbour_state.num_keys_to_use,
                    );
                    let fresh = mark_visited_if_new(&mut visited, nsig);
                    if fresh {
                        bfs_queue.push_back(neighbour_state);
                        proof {
                            assert(models_of(bfs_queue@) =~= mid_q.push(
                                expand_model(dirs.take(j + 1), cur).last(),
                            ));
                        }
                    }
                },
                None => {},
            }
            proof {
                assert(dirs.take(j + 1).drop_last() =~= dirs.take(j as int));
                assert(dirs.take(j + 1).last() == dirs[j as int]);
                match successor_model(cur, dirs[j as int]) {
                    Some(ns) => {
                        assert(expand_model(dirs.take(j + 1), cur) =~= expand_model(
                            dirs.take(j as int),
                            cur,
                        ).push(ns));
                        assert((models_of(bfs_queue@), visited@) == enqueue_one(
                            (mid_q, mid_v),
                            ns,
                        ));
                        assert(expand_model(dirs.take(j + 1), cur).drop_last() =~= expand_model(
                            dirs.take(j as int),
                            cur,
                        ));
                    },
                    None => {
                        assert(expand_model(dirs.take(j + 1), cur) =~= expand_model(
                            dirs.take(j as int),
                            cur,
                        ));
                    },
                }
            }
            j = j + 1;
        }
        proof {
            assert(dirs.take(dirs.len() as int) =~= dirs);
            assert((models_of(bfs_queue@), visited@) == enqueue_all(
                (pre_q.drop_first(), pre_v),
                expand_model(dirs, cur),
            ));
            assert(bfs_model(grid, pre_q, pre_v, fuel) == bfs_model(
                grid,
                models_of(bfs_queue@),
                visited@,
                (fuel - 1) as nat,
            ));
            fuel = (fuel - 1) as nat;
        }
    }

    maze_end_state
}

} // verus!
