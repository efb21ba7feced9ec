use vstd::prelude::*;
use crate::physical::{in_i32, shifted, shift_fits, Physical};
use crate::grid::{cell_index, cell_indexable, indexable, GridMap, Id};
use crate::heuristic::{abs_diff_spec, manhattan, saturate_u32};
use crate::mover::{lemma_difference_exact, new_points, top_goal_removed, Mover};
use crate::queue::{is_top_priority, no_entries, queue_is_empty, queue_new, queue_pop, queue_push, queue_entries};
use crate::single::{lemma_round_single_close, lemma_single_zero, quotient_key, round_single, round_to_single, single_of_i32, single_of_int, single_quotient_key};

verus! {

/// The route planner: neighbour expansion on the occupancy grid, its
/// distance estimate, and the simplification of found paths.
pub struct NavigationSystem;

/// The state of the path simplification after some points: the points kept
/// so far, whether the last step had no horizontal component, the
/// description of the last recorded slope (see [`quotient_key`]), and the
/// last point seen.
pub type SimplifyState = (Seq<(i32, i32)>, bool, (int, int, int), (i32, i32));

/// `out` with its last point replaced by `pt` (unchanged when empty).
pub open spec fn replace_last(out: Seq<(i32, i32)>, pt: (i32, i32)) -> Seq<(i32, i32)> {
    if out.len() > 0 {
        out.update(out.len() - 1, pt)
    } else {
        out
    }
}

/// One step of the path simplification, taking in point `pt`. Steps are
/// measured in single precision: a new point is kept when the path leaves
/// a vertical run, turns vertical, or changes slope; otherwise it replaces
/// the last kept point.
pub open spec fn simplify_step(st: SimplifyState, pt: (i32, i32)) -> SimplifyState {
    let out = st.0;
    let last_zero = st.1;
    let slope = st.2;
    let last_pos = st.3;
    let fdx = single_of_int(pt.0 - last_pos.0);
    let fdy = single_of_int(pt.1 - last_pos.1);
    let new_zero = fdx == 0;
    if last_zero {
        if !new_zero {
            (out.push(pt), new_zero, quotient_key(fdy, fdx), pt)
        } else {
            (replace_last(out, pt), new_zero, slope, pt)
        }
    } else if new_zero {
        (out.push(pt), new_zero, slope, pt)
    } else {
        let new_slope = quotient_key(fdy, fdx);
        if slope != new_slope {
            (out.push(pt), new_zero, new_slope, pt)
        } else {
            (replace_last(out, pt), new_zero, new_slope, pt)
        }
    }
}

/// The simplification state after taking in the first `k` points of `path`.
pub open spec fn simplify_prefix(path: Seq<(i32, i32)>, k: nat) -> SimplifyState
    decreases k,
{
    if k == 0 {
        (Seq::empty(), true, (0, 0, 0), path[0])
    } else {
        simplify_step(simplify_prefix(path, (k - 1) as nat), path[k - 1])
    }
}

/// The simplified form of `path`.
pub open spec fn simplified(path: Seq<(i32, i32)>) -> Seq<(i32, i32)> {
    simplify_prefix(path, path.len()).0
}

/// Every step between consecutive points of `path` has coordinates that
/// fit an `i32`.
pub open spec fn steps_fit(path: Seq<(i32, i32)>) -> bool {
    forall|k: int| 0 < k < path.len() ==> in_i32((#[trigger] path[k]).0 - path[k - 1].0) && in_i32(path[k].1 - path[k - 1].1)
}

/// `v as f32 as i32`: `v` in single precision, saturated back into `i32`.
pub open spec fn through_single(v: int) -> int {
    let f = single_of_int(v);
    if f > i32::MAX {
        i32::MAX as int
    } else if f < i32::MIN {
        i32::MIN as int
    } else {
        f
    }
}

/// The `k`-th neighbour candidate of `pos` (`0 <= k < 9`): row by row from
/// the offset `(-1, -1)` to `(1, 1)`, the position itself included.
pub open spec fn candidate(pos: (i32, i32), k: int) -> (int, int) {
    (pos.0 + (k % 3 - 1), pos.1 + (k / 3 - 1))
}

/// `true` when cell `c` is obstructed by an object other than `id`.
pub open spec fn blocks(map: GridMap, id: Id, c: (i32, i32)) -> bool {
    let e = map.storage@[cell_index(map.width, c)];
    e.0 && e.1 != id
}

/// `true` when scanning `cells` from index `k` reads only existing grid
/// slots up to (and including) the first cell that blocks `id`.
pub open spec fn scan_safe(map: GridMap, id: Id, cells: Seq<(i32, i32)>, k: int) -> bool
    decreases cells.len() - k,
{
    if k < 0 || k >= cells.len() {
        true
    } else {
        indexable(map, cells[k]) && (blocks(map, id, cells[k]) || scan_safe(map, id, cells, k + 1))
    }
}

/// The cells an object with relative cells `taken` covers when standing at
/// `p`, the position having gone through single precision.
pub open spec fn footprint(taken: Seq<(i32, i32)>, p: (int, int)) -> Seq<(i32, i32)> {
    shifted(taken, through_single(p.0), through_single(p.1))
}

/// `true` when none of `cells` blocks `id`.
pub open spec fn unobstructed(map: GridMap, id: Id, cells: Seq<(i32, i32)>) -> bool {
    forall|j: int| 0 <= j < cells.len() ==> !blocks(map, id, #[trigger] cells[j])
}

/// The inputs on which expanding `pos` computes in range and reads only
/// existing grid slots.
pub open spec fn expansion_safe(id: Id, pos: (i32, i32), taken: Seq<(i32, i32)>, map: GridMap) -> bool {
    forall|k: int| 0 <= k < 9 ==> {
        let c = #[trigger] candidate(pos, k);
        &&& in_i32(c.0)
        &&& in_i32(c.1)
        &&& shift_fits(taken, through_single(c.0), through_single(c.1))
        &&& scan_safe(map, id, footprint(taken, c), 0)
    }
}

/// The traversable neighbours among the first `k` candidates of `pos`, each
/// at step cost 1.
pub open spec fn neighbours_upto(id: Id, pos: (i32, i32), taken: Seq<(i32, i32)>, map: GridMap, k: nat) -> Seq<((i32, i32), u32)>
    decreases k,
{
    if k == 0 {
        Seq::empty()
    } else {
        let prev = neighbours_upto(id, pos, taken, map, (k - 1) as nat);
        let c = candidate(pos, k - 1);
        if unobstructed(map, id, footprint(taken, c)) {
            prev.push(((c.0 as i32, c.1 as i32), 1u32))
        } else {
            prev
        }
    }
}

/// The planner's estimate between two grid points: the Manhattan distance in
/// single precision, multiplied by the single-precision constant 1.14
/// (exactly `9563013 / 2^23`), rounded, and truncated back to `u32`.
pub open spec fn planner_estimate(o: (i32, i32), e: (i32, i32)) -> int {
    let f = round_single(manhattan(o, e) as nat);
    saturate_u32(round_single(f * 9563013) as int / 8388608)
}

/// The inputs on which the planner's estimate computes in `i32`: both
/// coordinate differences, either way round, and their sum.
pub open spec fn planner_comparable(o: (i32, i32), e: (i32, i32)) -> bool {
    &&& in_i32(o.0 - e.0)
    &&& in_i32(e.0 - o.0)
    &&& in_i32(o.1 - e.1)
    &&& in_i32(e.1 - o.1)
    &&& in_i32(manhattan(o, e))
}

/// The larger of `x` and `y` minus the smaller, in `i32` (the `absdiff` of
/// the path-finding library).
fn absdiff(x: i32, y: i32) -> (r: i32)
    requires
        in_i32(x - y),
        in_i32(y - x),
    ensures
        r == abs_diff_spec(x as int, y as int),
{
    if x < y {
        y - x
    } else {
        x - y
    }
}

/// The input of the stand-alone search: who searches, with which shape, on
/// which grid.
pub struct InputData {
    pub id: Id,
    pub obj: Physical,
    pub map: GridMap,
}

/// The positions `path` simplified, then without its first point when it
/// has one: the waypoints a body already on its way is offered.
pub open spec fn onward_route(path: Seq<(i32, i32)>) -> Seq<(i32, i32)> {
    let p = simplified(path);
    if p.len() > 0 { p.drop_first() } else { p }
}

/// `true` when `route` holds a point that is not among `moves`.
pub open spec fn route_differs(route: Seq<(i32, i32)>, moves: Seq<(i32, i32)>) -> bool {
    new_points(route, moves).len() > 0
}

/// A path offered by the search can be simplified.
pub open spec fn search_result_usable(found: Option<Vec<(i32, i32)>>) -> bool {
    found matches Some(path) ==> path.len() > 0 && steps_fit(path@)
}

/// The outcome of a search as plain values: the positions of the path
/// found, or `None`.
pub open spec fn found_view(found: Option<Vec<(i32, i32)>>) -> Option<Seq<(i32, i32)>> {
    match found {
        Some(path) => Some(path@),
        None => None,
    }
}

/// `true` when both coordinates of `p` lie in `[-2^24, 2^24]`, where every
/// integer is exact in single precision.
pub open spec fn in_search_box(p: (i32, i32)) -> bool {
    &&& -0x100_0000 <= p.0 <= 0x100_0000
    &&& -0x100_0000 <= p.1 <= 0x100_0000
}

/// The inputs on which the route search from `start` to `goal`, for an
/// object occupying the relative cells `taken`, is known to return without
/// overflow: the object occupies no cell and both ends lie in the search
/// box.
///
/// With no occupied cell every candidate is traversable, each expansion
/// reads no grid slot, and the goal is reached by a straight run of at most
/// `2^25` steps. Until the goal is taken from the frontier, the frontier
/// holds a position of that run whose cost plus estimate is below `2^27`,
/// so every position taken out has an estimate below `2^27`: it lies within
/// `2^27` of the goal, its neighbours' coordinates and estimates fit their
/// types (`i32`, and below `2^30` for `u32` sums of cost and estimate), and
/// only finitely many positions, each re-entered only at a lower cost, are
/// ever taken out.
pub open spec fn search_safe(start: (i32, i32), goal: (i32, i32), taken: Seq<(i32, i32)>) -> bool {
    &&& taken.len() == 0
    &&& in_search_box(start)
    &&& in_search_box(goal)
}

/// One step of a route: `a` can be expanded and `b` is among its traversable
/// neighbours.
pub open spec fn search_step(id: Id, taken: Seq<(i32, i32)>, map: GridMap, a: (i32, i32), b: (i32, i32)) -> bool {
    &&& expansion_safe(id, a, taken, map)
    &&& neighbours_upto(id, a, taken, map, 9).contains((b, 1u32))
}

/// `path` leads from `start` to `goal`, each point a traversable neighbour
/// of the one before it.
pub open spec fn route_between(id: Id, start: (i32, i32), goal: (i32, i32), taken: Seq<(i32, i32)>, map: GridMap, path: Seq<(i32, i32)>) -> bool {
    &&& path.len() > 0
    &&& path[0] == start
    &&& path.last() == goal
    &&& forall|k: int| 0 < k < path.len() ==> search_step(id, taken, map, path[k - 1], #[trigger] path[k])
}

/// The path an A* search of the path-finding library returns from `start`
/// to `goal` over the neighbours of [`NavigationSystem::successors`] (for the
/// object of identity `id` occupying the relative cells `taken`, on a grid of
/// the given width and storage), with the estimate of
/// [`NavigationSystem::distance`]; `None` when it finds none.
pub uninterp spec fn astar_route(start: (i32, i32), goal: (i32, i32), id: Id, taken: Seq<(i32, i32)>, width: u32, storage: Seq<(bool, Id)>) -> Option<Seq<(i32, i32)>>;

/// The route a search from `start` finds for `obj` towards `goal` on `map`.
pub open spec fn searched_route(start: (i32, i32), goal: (i32, i32), id: Id, obj: Physical, map: GridMap) -> Option<Seq<(i32, i32)>> {
    astar_route(start, goal, id, obj.taken(), map.width, map.storage@)
}

/// `pathfinding::prelude::astar` from `start` to `goal`, expanding with
/// [`NavigationSystem::successors`] and estimating with
/// [`NavigationSystem::distance`]. Trusted: its result is the named
/// [`astar_route`] of its arguments; a path it returns starts at `start`,
/// ends at `goal`, and links each point to the next by a traversable
/// neighbour of a point the search expanded (the library follows the parent
/// recorded when a neighbour was reached); on the inputs of
/// [`search_safe`] the search returns and every expansion and estimate it
/// makes is in range. Which of several shortest paths it returns, and
/// whether it finds one, is left to the name.
#[verifier::external_body]
fn search_route(start: (i32, i32), goal: (i32, i32), id: Id, obj: &Physical, map: &GridMap) -> (found: Option<Vec<(i32, i32)>>)
    requires
        search_safe(start, goal, obj.taken()),
    ensures
        found_view(found) == astar_route(start, goal, id, obj.taken(), map.width, map.storage@),
        found matches Some(path) ==> route_between(id, start, goal, obj.taken(), *map, path@),
{
    pathfinding::prelude::astar(
        &start,
        |p| NavigationSystem::successors(&id, p, obj, map),
        |p| NavigationSystem::distance(p, &goal),
        |p| NavigationSystem::reached(p, &goal),
    ).map(|(path, _)| path)
}

/// Every traversable neighbour of `pos` among its first `k` candidates is
/// one of those candidates, read back as `i32`.
proof fn lemma_neighbour_is_candidate(id: Id, pos: (i32, i32), taken: Seq<(i32, i32)>, map: GridMap, k: nat)
    ensures
        forall|i: int| 0 <= i < neighbours_upto(id, pos, taken, map, k).len() ==> exists|j: int| 0 <= j < k
            && (#[trigger] neighbours_upto(id, pos, taken, map, k)[i]).0 == (candidate(pos, j).0 as i32, candidate(pos, j).1 as i32),
    decreases k,
{
    if k > 0 {
        lemma_neighbour_is_candidate(id, pos, taken, map, (k - 1) as nat);
        let prev = neighbours_upto(id, pos, taken, map, (k - 1) as nat);
        let cur = neighbours_upto(id, pos, taken, map, k);
        assert forall|i: int| 0 <= i < cur.len() implies exists|j: int| 0 <= j < k
            && (#[trigger] cur[i]).0 == (candidate(pos, j).0 as i32, candidate(pos, j).1 as i32) by {
            if i < prev.len() {
                assert(cur[i] == prev[i]);
                let j = choose|j: int| 0 <= j < k - 1 && prev[i].0 == (candidate(pos, j).0 as i32, candidate(pos, j).1 as i32);
                assert(0 <= j < k);
            } else {
                assert(cur[i].0 == (candidate(pos, k - 1).0 as i32, candidate(pos, k - 1).1 as i32));
            }
        }
    }
}

/// A route's steps move each coordinate by at most one, so the route can be
/// simplified.
proof fn lemma_route_steps_fit(id: Id, start: (i32, i32), goal: (i32, i32), taken: Seq<(i32, i32)>, map: GridMap, path: Seq<(i32, i32)>)
    requires
        route_between(id, start, goal, taken, map, path),
    ensures
        steps_fit(path),
{
    assert forall|k: int| 0 < k < path.len() implies in_i32((#[trigger] path[k]).0 - path[k - 1].0) && in_i32(path[k].1 - path[k - 1].1) by {
        let a = path[k - 1];
        let b = path[k];
        assert(search_step(id, taken, map, a, b));
        let ns = neighbours_upto(id, a, taken, map, 9);
        lemma_neighbour_is_candidate(id, a, taken, map, 9);
        let i = choose|i: int| 0 <= i < ns.len() && ns[i] == (b, 1u32);
        let j = choose|j: int| 0 <= j < 9 && (#[trigger] ns[i]).0 == (candidate(a, j).0 as i32, candidate(a, j).1 as i32);
        let c = candidate(a, j);
        assert(in_i32(c.0) && in_i32(c.1));
        assert(-1 <= j % 3 - 1 <= 1 && -1 <= j / 3 - 1 <= 1);
    }
}

/// How a body's route follows from the outcome `found` of a search towards
/// its current goal (see [`NavigationSystem::plan`]): `before` is the body
/// before, `after` the body after.
pub open spec fn plan_outcome(before: Mover, after: Mover, found: Option<Seq<(i32, i32)>>) -> bool {
    &&& after.session_value() == before.session_value()
    &&& (before.top_goal() is None <==> before.goals() == no_entries())
    &&& before.top_goal() is None ==> {
        &&& after.goals() == before.goals()
        &&& after.moves() == Seq::<(i32, i32)>::empty()
    }
    &&& before.top_goal() matches Some(g) ==> before.moves().len() == 0 ==> match found {
        None => {
            &&& after.moves() == before.moves()
            &&& top_goal_removed(before.goals().remove(g), after.goals())
        },
        Some(path) => {
            &&& after.moves() == simplified(path)
            &&& after.goals() == before.goals().remove(g)
        },
    }
    &&& before.top_goal() matches Some(g) ==> before.moves().len() > 0 ==> match found {
        None => {
            &&& after.moves() == before.moves()
            &&& after.goals() == before.goals().remove(g)
        },
        Some(path) => {
            &&& after.goals() == before.goals()
            &&& after.top_goal() == before.top_goal()
            &&& after.moves() == (if route_differs(onward_route(path), before.moves()) {
                onward_route(path)
            } else {
                before.moves()
            })
        },
    }
}

/// The outcome of a search for a body at `start` towards its current goal:
/// the route of [`searched_route`], or `None` when no goal is queued.
pub open spec fn route_to_top_goal(mover: Mover, start: (i32, i32), id: Id, obj: Physical, map: GridMap) -> Option<Seq<(i32, i32)>> {
    match mover.top_goal() {
        Some(g) => searched_route(start, g, id, obj, map),
        None => None,
    }
}

/// The search a body plans with runs from the body's own position to its
/// top goal: with a goal `g` queued its outcome is the A* route from `start`
/// to `g`, and with none nothing is searched.
pub proof fn lemma_route_to_top_goal(mover: Mover, start: (i32, i32), id: Id, obj: Physical, map: GridMap)
    ensures
        mover.top_goal() is None ==> route_to_top_goal(mover, start, id, obj, map) is None,
        mover.top_goal() matches Some(g) ==> route_to_top_goal(mover, start, id, obj, map)
            == astar_route(start, g, id, obj.taken(), map.width, map.storage@),
{
}

/// What a route update does, case by case, in terms of the simplified path:
/// with no goal the waypoints are cleared; with a goal `g` and no waypoints,
/// a found path's simplified form becomes the waypoints and `g` is dropped,
/// while a failed search drops `g` and keeps the waypoints empty; with a
/// goal and waypoints, a failed search drops `g` only, and a found path whose
/// simplified form holds, after its first point, a point that is not a
/// waypoint replaces the waypoints by all of that simplified form after its
/// first point, in order (otherwise the waypoints stay), the goals unchanged.
pub proof fn lemma_plan_cases(before: Mover, after: Mover, found: Option<Seq<(i32, i32)>>)
    requires
        plan_outcome(before, after, found),
    ensures
        after.session_value() == before.session_value(),
        before.top_goal() is None ==> after.moves().len() == 0 && after.goals() == before.goals(),
        before.top_goal() matches Some(g) ==> before.moves().len() == 0 ==> (found matches Some(path) ==> {
            &&& after.moves() == simplified(path)
            &&& after.goals() == before.goals().remove(g)
            &&& !after.goals().contains_key(g)
        }),
        before.top_goal() matches Some(g) ==> before.moves().len() == 0 ==> found is None ==> {
            &&& after.moves().len() == 0
            &&& !after.goals().contains_key(g)
            &&& forall|h: (i32, i32)| #[trigger] after.goals().contains_key(h)
                ==> before.goals().contains_key(h) && after.goals()[h] == before.goals()[h]
        },
        before.top_goal() matches Some(g) ==> before.moves().len() > 0 ==> found is None ==> {
            &&& after.moves() == before.moves()
            &&& after.goals() == before.goals().remove(g)
        },
        before.top_goal() matches Some(g) ==> before.moves().len() > 0 ==> (found matches Some(path) ==> {
            &&& after.goals() == before.goals()
            &&& (exists|i: int| 1 <= i < simplified(path).len() && !before.moves().contains(#[trigger] simplified(path)[i])) ==> {
                &&& after.moves().len() + 1 == simplified(path).len()
                &&& forall|i: int| 0 <= i < after.moves().len() ==> #[trigger] after.moves()[i] == simplified(path)[i + 1]
            }
            &&& !(exists|i: int| 1 <= i < simplified(path).len() && !before.moves().contains(#[trigger] simplified(path)[i]))
                ==> after.moves() == before.moves()
        }),
{
    if let Some(g) = before.top_goal() {
        if before.moves().len() == 0 && found is None {
            let rest = before.goals().remove(g);
            if rest != no_entries() {
                let h = choose|h: (i32, i32)| {
                    &&& #[trigger] rest.contains_key(h)
                    &&& is_top_priority(rest, rest[h])
                    &&& after.goals() == rest.remove(h)
                };
            }
        }
        if before.moves().len() > 0 && found is Some {
            let path = found->0;
            let s = simplified(path);
            let on = onward_route(path);
            lemma_difference_exact(on, before.moves());
            if exists|i: int| 1 <= i < s.len() && !before.moves().contains(#[trigger] s[i]) {
                let i = choose|i: int| 1 <= i < s.len() && !before.moves().contains(#[trigger] s[i]);
                assert(on[i - 1] == s[i]);
                assert(route_differs(on, before.moves()));
            } else if route_differs(on, before.moves()) {
                let i = choose|i: int| 0 <= i < on.len() && !before.moves().contains(#[trigger] on[i]);
                assert(on[i] == s[i + 1]);
            }
        }
    }
}

/// Pops the origin and expands it, then reports an empty path: the search
/// explores nothing past its start.
pub fn find_path(origin: (i32, i32), end: (i32, i32), d: InputData) -> (path: Vec<(i32, i32)>)
    requires
        expansion_safe(d.id, origin, d.obj.taken(), d.map),
    ensures
        path@ == Seq::<(i32, i32)>::empty(),
{
    let path: Vec<(i32, i32)> = Vec::new();
    let curr = origin;
    let mut frontier = queue_new();
    let _ = queue_push(&mut frontier, curr, 0);
    while !queue_is_empty(&frontier)
        invariant
            expansion_safe(d.id, origin, d.obj.taken(), d.map),
            queue_entries(frontier) == no_entries() || queue_entries(frontier) == no_entries().insert(origin, 0),
            path@ == Seq::<(i32, i32)>::empty(),
        decreases (if queue_entries(frontier) == no_entries() { 0int } else { 1int }),
    {
        let top = queue_pop(&mut frontier);
        match top {
            Some((pos, _)) => {
                proof {
                    assert(pos == origin);
                    assert(queue_entries(frontier) =~= no_entries());
                }
                let _ = NavigationSystem::successors(&d.id, &pos, &d.obj, &d.map);
            },
            None => {},
        }
    }
    path
}

proof fn lemma_simplify_prefix_bounds(path: Seq<(i32, i32)>, k: nat)
    requires
        0 < k <= path.len(),
    ensures
        simplify_prefix(path, k).0.len() < k,
        forall|i: int| 0 <= i < simplify_prefix(path, k).0.len() ==> path.contains(#[trigger] simplify_prefix(path, k).0[i]),
        simplify_prefix(path, k).3 == path[k - 1],
    decreases k,
{
    let st = simplify_prefix(path, k);
    if k == 1 {
        let init = simplify_prefix(path, 0);
        assert(init.0 == Seq::<(i32, i32)>::empty() && init.1 && init.3 == path[0]);
        assert(single_of_int(path[0].0 - path[0].0) == 0);
        assert(st == simplify_step(init, path[0]));
        assert(st.0.len() == 0);
    } else {
        lemma_simplify_prefix_bounds(path, (k - 1) as nat);
        let prev = simplify_prefix(path, (k - 1) as nat);
        assert forall|i: int| 0 <= i < st.0.len() implies path.contains(#[trigger] st.0[i]) by {
            if i < prev.0.len() && st.0[i] == prev.0[i] {
                assert(path.contains(prev.0[i]));
            } else {
                assert(st.0[i] == path[k - 1]);
            }
        }
    }
}

/// Simplifying a path keeps fewer points than it had (its first point is
/// never kept), and every kept point is a point of the path.
pub proof fn lemma_simplified_within_path(path: Seq<(i32, i32)>)
    requires
        path.len() > 0,
    ensures
        simplified(path).len() < path.len(),
        forall|i: int| 0 <= i < simplified(path).len() ==> path.contains(#[trigger] simplified(path)[i]),
{
    lemma_simplify_prefix_bounds(path, path.len());
}

/// `true` when some step among the first `k` points of `path` moves
/// horizontally.
pub open spec fn moves_horizontally(path: Seq<(i32, i32)>, k: int) -> bool {
    exists|j: int| 0 < j < k && (#[trigger] path[j]).0 != path[j - 1].0
}

proof fn lemma_prefix_ends_at_current(path: Seq<(i32, i32)>, k: nat)
    requires
        0 < k <= path.len(),
    ensures
        moves_horizontally(path, k as int) ==> {
            &&& simplify_prefix(path, k).0.len() > 0
            &&& simplify_prefix(path, k).0.last() == path[k - 1]
        },
        !moves_horizontally(path, k as int) ==> simplify_prefix(path, k).1,
    decreases k,
{
    lemma_simplify_prefix_bounds(path, k);
    let st = simplify_prefix(path, k);
    if k == 1 {
        lemma_single_zero(0);
        assert(st == simplify_step(simplify_prefix(path, 0), path[0]));
    } else {
        lemma_prefix_ends_at_current(path, (k - 1) as nat);
        lemma_simplify_prefix_bounds(path, (k - 1) as nat);
        let prev = simplify_prefix(path, (k - 1) as nat);
        let pt = path[k - 1];
        assert(prev.3 == path[k - 2]);
        lemma_single_zero(pt.0 - prev.3.0);
        assert(st == simplify_step(prev, pt));
        if moves_horizontally(path, k - 1) {
            let j = choose|j: int| 0 < j < k - 1 && (#[trigger] path[j]).0 != path[j - 1].0;
            assert(0 < j < k && path[j].0 != path[j - 1].0);
        } else if pt.0 != path[k - 2].0 {
            assert(path[k - 1].0 != path[(k - 1) - 1].0);
        } else {
            assert forall|j: int| 0 < j < k implies !((#[trigger] path[j]).0 != path[j - 1].0) by {
                if j < k - 1 {
                    assert(!(0 < j < k - 1 && path[j].0 != path[j - 1].0));
                }
            }
        }
    }
}

proof fn lemma_straight_prefix(path: Seq<(i32, i32)>, d: (int, int), k: nat)
    requires
        2 <= k <= path.len(),
        d.0 != 0,
        forall|i: int| 0 < i < path.len() ==> (#[trigger] path[i]).0 - path[i - 1].0 == d.0 && path[i].1 - path[i - 1].1 == d.1,
    ensures
        simplify_prefix(path, k).0 == seq![path[k - 1]],
        !simplify_prefix(path, k).1,
        simplify_prefix(path, k).2 == quotient_key(single_of_int(d.1), single_of_int(d.0)),
        simplify_prefix(path, k).3 == path[k - 1],
    decreases k,
{
    lemma_single_zero(d.0);
    lemma_single_zero(0);
    assert(path[1].0 - path[0].0 == d.0 && path[1].1 - path[0].1 == d.1);
    if k == 2 {
        let s0 = simplify_prefix(path, 0);
        let s1 = simplify_prefix(path, 1);
        assert(s1 == simplify_step(s0, path[0]));
        assert(s1.0 == Seq::<(i32, i32)>::empty() && s1.1 && s1.3 == path[0]);
        assert(simplify_prefix(path, 2) == simplify_step(s1, path[1]));
        assert(seq![path[1]] =~= Seq::<(i32, i32)>::empty().push(path[1]));
    } else {
        lemma_straight_prefix(path, d, (k - 1) as nat);
        let prev = simplify_prefix(path, (k - 1) as nat);
        assert(path[k - 1].0 - path[k - 2].0 == d.0 && path[k - 1].1 - path[k - 2].1 == d.1);
        assert(simplify_prefix(path, k) == simplify_step(prev, path[k - 1]));
        assert(seq![path[k - 2]].update(0, path[k - 1]) =~= seq![path[k - 1]]);
    }
}

/// A straight run, every step the same offset with a horizontal component,
/// simplifies to its last point alone: no point between its ends is kept.
pub proof fn lemma_simplified_straight_run(path: Seq<(i32, i32)>, d: (int, int))
    requires
        path.len() >= 2,
        d.0 != 0,
        forall|i: int| 0 < i < path.len() ==> (#[trigger] path[i]).0 - path[i - 1].0 == d.0 && path[i].1 - path[i - 1].1 == d.1,
    ensures
        simplified(path) == seq![path.last()],
{
    lemma_straight_prefix(path, d, path.len());
}

/// A path that steps off horizontally and then turns (its second step is
/// vertical, or has another single-precision slope) keeps the corner and
/// its end.
pub proof fn lemma_simplified_keeps_turn(a: (i32, i32), b: (i32, i32), c: (i32, i32))
    requires
        b.0 != a.0,
        c.0 == b.0 || quotient_key(single_of_int(c.1 - b.1), single_of_int(c.0 - b.0))
            != quotient_key(single_of_int(b.1 - a.1), single_of_int(b.0 - a.0)),
    ensures
        simplified(seq![a, b, c]) == seq![b, c],
{
    let path = seq![a, b, c];
    lemma_straight_prefix(seq![a, b], (b.0 - a.0, b.1 - a.1), 2);
    lemma_single_zero(c.0 - b.0);
    assert(simplify_prefix(path, 2) == simplify_prefix(seq![a, b], 2)) by {
        assert(simplify_prefix(path, 0) == simplify_prefix(seq![a, b], 0));
        assert(simplify_prefix(path, 1) == simplify_prefix(seq![a, b], 1));
    }
    assert(simplify_prefix(path, 3) == simplify_step(simplify_prefix(path, 2), c));
    assert(seq![b].push(c) =~= seq![b, c]);
}

/// Once a path has moved horizontally, its simplified form ends at the
/// path's last point.
pub proof fn lemma_simplified_ends_at_last(path: Seq<(i32, i32)>)
    requires
        path.len() > 0,
        moves_horizontally(path, path.len() as int),
    ensures
        simplified(path).len() > 0,
        simplified(path).last() == path.last(),
{
    lemma_prefix_ends_at_current(path, path.len());
}

proof fn lemma_prefix_subsequence(path: Seq<(i32, i32)>, k: nat) -> (idx: Seq<int>)
    requires
        0 < k <= path.len(),
    ensures
        idx.len() == simplify_prefix(path, k).0.len(),
        forall|i: int| 0 <= i < idx.len() ==> 1 <= #[trigger] idx[i] < k && simplify_prefix(path, k).0[i] == path[idx[i]],
        forall|i: int, j: int| 0 <= i < j < idx.len() ==> #[trigger] idx[i] < #[trigger] idx[j],
    decreases k,
{
    lemma_simplify_prefix_bounds(path, k);
    if k == 1 {
        Seq::empty()
    } else {
        let prev_idx = lemma_prefix_subsequence(path, (k - 1) as nat);
        lemma_simplify_prefix_bounds(path, (k - 1) as nat);
        let prev = simplify_prefix(path, (k - 1) as nat);
        let st = simplify_prefix(path, k);
        let pt = path[k - 1];
        assert(st == simplify_step(prev, pt));
        if st.0.len() == prev.0.len() + 1 && st.0 == prev.0.push(pt) {
            let idx = prev_idx.push(k - 1);
            assert forall|i: int| 0 <= i < idx.len() implies 1 <= #[trigger] idx[i] < k && st.0[i] == path[idx[i]] by {
                if i < prev_idx.len() {
                    assert(idx[i] == prev_idx[i]);
                }
            }
            assert forall|i: int, j: int| 0 <= i < j < idx.len() implies #[trigger] idx[i] < #[trigger] idx[j] by {
                if j < prev_idx.len() {
                    assert(idx[i] == prev_idx[i] && idx[j] == prev_idx[j]);
                } else {
                    assert(idx[i] == prev_idx[i]);
                }
            }
            idx
        } else {
            assert(st.0 == replace_last(prev.0, pt));
            if prev.0.len() == 0 {
                prev_idx
            } else {
                let last = prev_idx.len() - 1;
                let idx = prev_idx.update(last, k - 1);
                assert forall|i: int| 0 <= i < idx.len() implies 1 <= #[trigger] idx[i] < k && st.0[i] == path[idx[i]] by {
                    if i < last {
                        assert(idx[i] == prev_idx[i]);
                    }
                }
                assert forall|i: int, j: int| 0 <= i < j < idx.len() implies #[trigger] idx[i] < #[trigger] idx[j] by {
                    assert(idx[i] == prev_idx[i]);
                    if j < last {
                        assert(idx[j] == prev_idx[j]);
                    }
                }
                idx
            }
        }
    }
}

/// The simplified form of a path is a subsequence of the path without its
/// first point: the returned indices, all at least 1 and strictly
/// increasing, pick out its points in order.
pub proof fn lemma_simplified_subsequence(path: Seq<(i32, i32)>) -> (idx: Seq<int>)
    requires
        path.len() > 0,
    ensures
        idx.len() == simplified(path).len(),
        forall|i: int| 0 <= i < idx.len() ==> 1 <= #[trigger] idx[i] < path.len() && simplified(path)[i] == path[idx[i]],
        forall|i: int, j: int| 0 <= i < j < idx.len() ==> #[trigger] idx[i] < #[trigger] idx[j],
{
    lemma_prefix_subsequence(path, path.len())
}

proof fn lemma_prefix_shift(path: Seq<(i32, i32)>, a: int, b: int, k: nat)
    requires
        0 < path.len(),
        k <= path.len(),
        shift_fits(path, a, b),
    ensures
        simplify_prefix(shifted(path, a, b), k).0 == shifted(simplify_prefix(path, k).0, a, b),
        simplify_prefix(shifted(path, a, b), k).1 == simplify_prefix(path, k).1,
        simplify_prefix(shifted(path, a, b), k).2 == simplify_prefix(path, k).2,
        simplify_prefix(shifted(path, a, b), k).3 == ((simplify_prefix(path, k).3.0 + a) as i32, (simplify_prefix(path, k).3.1 + b) as i32),
        simplify_prefix(path, k).3 == path[if k == 0 { 0 } else { k - 1 }],
    decreases k,
{
    let q = shifted(path, a, b);
    if k == 0 {
        assert(simplify_prefix(path, 0).0 == Seq::<(i32, i32)>::empty());
        assert(shifted(Seq::<(i32, i32)>::empty(), a, b) =~= Seq::<(i32, i32)>::empty());
    } else {
        lemma_prefix_shift(path, a, b, (k - 1) as nat);
        let prev = simplify_prefix(path, (k - 1) as nat);
        let prevq = simplify_prefix(q, (k - 1) as nat);
        let pt = path[k - 1];
        let ptq = q[k - 1];
        let li: int = if k - 1 == 0 { 0 } else { k - 2 };
        assert(prev.3 == path[li]);
        assert(in_i32(path[li].0 + a) && in_i32(path[li].1 + b));
        assert(in_i32(path[k - 1].0 + a) && in_i32(path[k - 1].1 + b));
        assert(ptq == ((pt.0 + a) as i32, (pt.1 + b) as i32));
        assert(ptq.0 - prevq.3.0 == pt.0 - prev.3.0);
        assert(ptq.1 - prevq.3.1 == pt.1 - prev.3.1);
        assert(simplify_prefix(q, k) == simplify_step(prevq, ptq));
        assert(simplify_prefix(path, k) == simplify_step(prev, pt));
        let out = prev.0;
        assert(shifted(out.push(pt), a, b) =~= shifted(out, a, b).push(ptq));
        if out.len() > 0 {
            assert(shifted(out.update(out.len() - 1, pt), a, b) =~= shifted(out, a, b).update(out.len() - 1, ptq));
        }
    }
}

/// Moving every point of a path by the same offset moves its simplified
/// form by that offset (when the moved points fit an `i32`).
pub proof fn lemma_simplified_shift(path: Seq<(i32, i32)>, a: int, b: int)
    requires
        path.len() > 0,
        shift_fits(path, a, b),
    ensures
        simplified(shifted(path, a, b)) == shifted(simplified(path), a, b),
{
    lemma_prefix_shift(path, a, b, path.len());
}

/// A position has at most nine traversable neighbours (itself included),
/// each at step cost 1.
pub proof fn lemma_neighbours_bounded(id: Id, pos: (i32, i32), taken: Seq<(i32, i32)>, map: GridMap, k: nat)
    ensures
        neighbours_upto(id, pos, taken, map, k).len() <= k,
        forall|i: int| 0 <= i < neighbours_upto(id, pos, taken, map, k).len() ==> (#[trigger] neighbours_upto(id, pos, taken, map, k)[i]).1 == 1,
    decreases k,
{
    if k > 0 {
        lemma_neighbours_bounded(id, pos, taken, map, (k - 1) as nat);
    }
}

/// The planner's estimate does not depend on the direction of travel, and
/// it is zero from a point to itself.
pub proof fn lemma_planner_estimate_symmetric(o: (i32, i32), e: (i32, i32))
    ensures
        planner_estimate(o, e) == planner_estimate(e, o),
        planner_estimate(o, o) == 0,
{
    assert(manhattan(o, e) == manhattan(e, o));
    assert(manhattan(o, o) == 0);
    assert(round_single(0) == 0);
}

/// An object that occupies no cell can step to each of the nine positions
/// around it (itself included), row by row from `(-1, -1)`, each at cost 1,
/// whatever the grid holds and however large it is.
pub proof fn lemma_neighbours_of_empty_shape(id: Id, pos: (i32, i32), taken: Seq<(i32, i32)>, map: GridMap)
    requires
        taken.len() == 0,
    ensures
        neighbours_upto(id, pos, taken, map, 9) == seq![
            (((pos.0 - 1) as i32, (pos.1 - 1) as i32), 1u32),
            ((pos.0, (pos.1 - 1) as i32), 1u32),
            (((pos.0 + 1) as i32, (pos.1 - 1) as i32), 1u32),
            (((pos.0 - 1) as i32, pos.1), 1u32),
            ((pos.0, pos.1), 1u32),
            (((pos.0 + 1) as i32, pos.1), 1u32),
            (((pos.0 - 1) as i32, (pos.1 + 1) as i32), 1u32),
            ((pos.0, (pos.1 + 1) as i32), 1u32),
            (((pos.0 + 1) as i32, (pos.1 + 1) as i32), 1u32),
        ],
{
    assert forall|k: int| 0 <= k < 9 implies unobstructed(map, id, #[trigger] footprint(taken, candidate(pos, k))) by {
        assert(footprint(taken, candidate(pos, k)).len() == 0);
    }
    let c0 = candidate(pos, 0);
    let c1 = candidate(pos, 1);
    let c2 = candidate(pos, 2);
    let c3 = candidate(pos, 3);
    let c4 = candidate(pos, 4);
    let c5 = candidate(pos, 5);
    let c6 = candidate(pos, 6);
    let c7 = candidate(pos, 7);
    let c8 = candidate(pos, 8);
    assert(c0 == (pos.0 - 1, pos.1 - 1) && c1 == (pos.0 + 0, pos.1 - 1) && c2 == (pos.0 + 1, pos.1 - 1));
    assert(c3 == (pos.0 - 1, pos.1 + 0) && c4 == (pos.0 + 0, pos.1 + 0) && c5 == (pos.0 + 1, pos.1 + 0));
    assert(c6 == (pos.0 - 1, pos.1 + 1) && c7 == (pos.0 + 0, pos.1 + 1) && c8 == (pos.0 + 1, pos.1 + 1));
    reveal_with_fuel(neighbours_upto, 10);
    assert(neighbours_upto(id, pos, taken, map, 9) =~= seq![
        (((pos.0 - 1) as i32, (pos.1 - 1) as i32), 1u32),
        ((pos.0, (pos.1 - 1) as i32), 1u32),
        (((pos.0 + 1) as i32, (pos.1 - 1) as i32), 1u32),
        (((pos.0 - 1) as i32, pos.1), 1u32),
        ((pos.0, pos.1), 1u32),
        (((pos.0 + 1) as i32, pos.1), 1u32),
        (((pos.0 - 1) as i32, (pos.1 + 1) as i32), 1u32),
        ((pos.0, (pos.1 + 1) as i32), 1u32),
        (((pos.0 + 1) as i32, (pos.1 + 1) as i32), 1u32),
    ]);
}

/// The planner's estimate depends on the two points only through their
/// Manhattan distance: points as far apart estimate alike, in particular
/// with the axes swapped.
pub proof fn lemma_planner_estimate_by_manhattan(o: (i32, i32), e: (i32, i32), o2: (i32, i32), e2: (i32, i32))
    ensures
        manhattan(o, e) == manhattan(o2, e2) ==> planner_estimate(o, e) == planner_estimate(o2, e2),
        planner_estimate(o, e) == planner_estimate((o.1, o.0), (e.1, e.0)),
{
}

/// The planner's estimate is 1.14 times the Manhattan distance `m`,
/// truncated, up to single-precision error: for `m` below `2^24`,
/// `100 * estimate` is at most `114 * m` (plus `114 * m / 2^23`) and more
/// than `114 * m - 100` (less `126 * m / 2^23`). Below `2^16` the estimate
/// is therefore `114 * m / 100` rounded down, or at a multiple of 50 possibly
/// one less.
pub proof fn lemma_planner_estimate_scaled(o: (i32, i32), e: (i32, i32))
    requires
        manhattan(o, e) < 0x1000000,
    ensures
        8388608 * (100 * planner_estimate(o, e) - 114 * manhattan(o, e)) <= 114 * manhattan(o, e),
        8388608 * (114 * manhattan(o, e) - 100 * planner_estimate(o, e)) < 126 * manhattan(o, e) + 838860800,
{
    let m = manhattan(o, e);
    assert(round_single(m as nat) == m);
    let x: int = m * 9563013;
    lemma_round_single_close(x as nat);
    let r: int = round_single(x as nat) as int;
    let est: int = r / 8388608;
    vstd::arithmetic::div_mod::lemma_fundamental_div_mod(r, 8388608);
    vstd::arithmetic::div_mod::lemma_mod_pos_bound(r, 8388608);
    assert(est * 8388608 <= r < est * 8388608 + 8388608);
    assert(est <= u32::MAX);
    assert(planner_estimate(o, e) == est);
}

/// `v as f32 as i32`.
fn through_single_i32(v: i32) -> (r: i32)
    ensures
        r == through_single(v as int),
{
    let f = single_of_i32(v);
    if f > 0x7fff_ffff {
        0x7fff_ffff
    } else if f < -0x8000_0000 {
        -0x8000_0000
    } else {
        f as i32
    }
}

impl NavigationSystem {
    /// `true` exactly when expanding `pos` for the object `obj` of identity
    /// `id` computes in range and reads only existing grid slots, so that
    /// [`NavigationSystem::successors`] can expand it.
    pub fn expansion_is_safe(id: &Id, pos: &(i32, i32), obj: &Physical, map: &GridMap) -> (r: bool)
        ensures
            r == expansion_safe(*id, *pos, obj.taken(), *map),
    {
        let mut iy: i32 = -1;
        while iy < 2
            invariant
                -1 <= iy <= 2,
                forall|k: int| 0 <= k < (iy + 1) * 3 ==> {
                    let c = #[trigger] candidate(*pos, k);
                    &&& in_i32(c.0)
                    &&& in_i32(c.1)
                    &&& shift_fits(obj.taken(), through_single(c.0), through_single(c.1))
                    &&& scan_safe(*map, *id, footprint(obj.taken(), c), 0)
                },
            decreases 2 - iy,
        {
            let mut ix: i32 = -1;
            while ix < 2
                invariant
                    -1 <= iy < 2,
                    -1 <= ix <= 2,
                    forall|k: int| 0 <= k < (iy + 1) * 3 + ix + 1 ==> {
                        let c = #[trigger] candidate(*pos, k);
                        &&& in_i32(c.0)
                        &&& in_i32(c.1)
                        &&& shift_fits(obj.taken(), through_single(c.0), through_single(c.1))
                        &&& scan_safe(*map, *id, footprint(obj.taken(), c), 0)
                    },
                decreases 2 - ix,
            {
                let ghost k: int = (iy + 1) * 3 + ix + 1;
                proof {
                    assert(k % 3 == ix + 1 && k / 3 == iy + 1);
                    assert(candidate(*pos, k) == (ix + pos.0, iy + pos.1));
                }
                let px: i64 = ix as i64 + pos.0 as i64;
                let py: i64 = iy as i64 + pos.1 as i64;
                if px < -0x8000_0000 || px > 0x7fff_ffff || py < -0x8000_0000 || py > 0x7fff_ffff {
                    return false;
                }
                let rx = through_single_i32(px as i32);
                let ry = through_single_i32(py as i32);
                if !obj.can_place_at((rx, ry)) {
                    return false;
                }
                let vol = obj.get_taken_space((rx, ry));
                let ghost cells = footprint(obj.taken(), candidate(*pos, k));
                proof {
                    assert(vol@ == cells);
                }
                let mut t: usize = 0;
                let mut blocked = false;
                while t < vol.len() && !blocked
                    invariant
                        t <= vol.len(),
                        vol@ == cells,
                        0 <= k < 9,
                        cells == footprint(obj.taken(), candidate(*pos, k)),
                        blocked ==> scan_safe(*map, *id, cells, 0),
                        !blocked ==> scan_safe(*map, *id, cells, 0) == scan_safe(*map, *id, cells, t as int),
                    decreases vol.len() - t,
                {
                    let c = vol[t];
                    proof {
                        assert(cells[t as int] == c);
                    }
                    if !cell_indexable(map, c) {
                        proof {
                            assert(!scan_safe(*map, *id, cells, t as int));
                            assert(!scan_safe(*map, *id, footprint(obj.taken(), candidate(*pos, k)), 0));
                            assert(0 <= k < 9);
                        }
                        return false;
                    }
                    let index: i32 = c.0 + c.1 * (map.width as i32);
                    let (obstruct, owner) = map.storage[index as usize];
                    if obstruct && owner != *id {
                        blocked = true;
                    }
                    t = t + 1;
                }
                ix = ix + 1;
            }
            iy = iy + 1;
        }
        true
    }

    /// `true` exactly when `path` is non-empty and every step between
    /// consecutive points fits an `i32`, so that
    /// [`NavigationSystem::simplify_path`] accepts it.
    pub fn path_steps_fit(path: &Vec<(i32, i32)>) -> (r: bool)
        ensures
            r == (path.len() > 0 && steps_fit(path@)),
    {
        if path.len() == 0 {
            return false;
        }
        let mut k: usize = 1;
        while k < path.len()
            invariant
                1 <= k <= path.len(),
                forall|i: int| 0 < i < k ==> in_i32((#[trigger] path@[i]).0 - path@[i - 1].0) && in_i32(path@[i].1 - path@[i - 1].1),
            decreases path.len() - k,
        {
            let a = path[k - 1];
            let b = path[k];
            let dx: i64 = b.0 as i64 - a.0 as i64;
            let dy: i64 = b.1 as i64 - a.1 as i64;
            if dx < -0x8000_0000 || dx > 0x7fff_ffff || dy < -0x8000_0000 || dy > 0x7fff_ffff {
                proof {
                    assert(path@[k as int] == b && path@[k - 1] == a);
                }
                return false;
            }
            k = k + 1;
        }
        true
    }

    /// `true` exactly when the planner's estimate between `o` and `e`
    /// computes in `i32`, so that [`NavigationSystem::distance`] accepts them.
    pub fn estimate_computable(o: &(i32, i32), e: &(i32, i32)) -> (r: bool)
        ensures
            r == planner_comparable(*o, *e),
    {
        let dx: i64 = o.0 as i64 - e.0 as i64;
        let dy: i64 = o.1 as i64 - e.1 as i64;
        if dx < -0x7fff_ffff || dx > 0x7fff_ffff || dy < -0x7fff_ffff || dy > 0x7fff_ffff {
            return false;
        }
        let adx: i64 = if dx < 0 { 0 - dx } else { dx };
        let ady: i64 = if dy < 0 { 0 - dy } else { dy };
        adx + ady <= 0x7fff_ffff
    }

    /// The planner's estimate from `o` to `e`:
    /// `(1.14 * (|dx| + |dy|) as f32) as u32` in single precision.
    pub fn distance(o: &(i32, i32), e: &(i32, i32)) -> (d: u32)
        requires
            planner_comparable(*o, *e),
        ensures
            d == planner_estimate(*o, *e),
    {
        let dx = absdiff(o.0, e.0);
        let dy = absdiff(o.1, e.1);
        let sum: i32 = dx + dy;
        let f = round_to_single(sum as u64);
        let p = round_to_single(f * 9563013);
        let v: u64 = p / 8388608;
        if v > 0xffff_ffff {
            0xffff_ffff
        } else {
            v as u32
        }
    }

    /// Updates a body's route from the outcome of a search towards its
    /// current goal, the goal `Mover::get_goal` reports (`found` is the path
    /// found, or `None` when the search failed; it is ignored when no goal is
    /// queued). With no goal the waypoints are cleared. With a goal and no
    /// waypoints, a found path becomes the waypoints, simplified, and the
    /// searched goal is dropped; when the search failed, the searched goal
    /// and then the next top goal are dropped. With a goal and waypoints, a
    /// failed search drops the searched goal; a found path, simplified and
    /// without its first point, replaces the waypoints when it holds a point
    /// they do not.
    pub fn plan(mover: &mut Mover, found: Option<Vec<(i32, i32)>>)
        requires
            search_result_usable(found),
        ensures
            plan_outcome(*old(mover), *final(mover), found_view(found)),
    {
        match mover.get_goal() {
            None => mover.set_move_vec(Vec::new()),
            Some(_) => {
                if mover.is_move_vec_empty() {
                    match found {
                        None => {
                            mover.pop_goal();
                        },
                        Some(path) => {
                            let simple = NavigationSystem::simplify_path(path);
                            mover.set_move_vec(simple);
                        },
                    }
                    mover.pop_goal();
                } else {
                    match found {
                        None => {
                            mover.pop_goal();
                        },
                        Some(path) => {
                            let mut simple = NavigationSystem::simplify_path(path);
                            if simple.len() > 0 {
                                simple.remove(0);
                            }
                            let path_diff = mover.diff_move_vec(&simple);
                            if path_diff.len() > 0 {
                                mover.set_move_vec(simple);
                            }
                        },
                    }
                }
            },
        }
    }

    /// Plans the route of a body standing at `start` (the object `obj` of
    /// identity `id` on `map`): searches from `start` to its current goal and
    /// updates its waypoints and goals from the outcome as
    /// [`NavigationSystem::plan`] does. With no goal queued nothing is
    /// searched and the waypoints are cleared.
    pub fn navigate(mover: &mut Mover, start: (i32, i32), id: Id, obj: &Physical, map: &GridMap)
        requires
            old(mover).top_goal() matches Some(g) ==> search_safe(start, g, obj.taken()),
        ensures
            plan_outcome(*old(mover), *final(mover), route_to_top_goal(*old(mover), start, id, *obj, *map)),
            old(mover).top_goal() matches Some(g) ==> (route_to_top_goal(*old(mover), start, id, *obj, *map) matches Some(path)
                ==> route_between(id, start, g, obj.taken(), *map, path)),
    {
        let found = match mover.get_goal() {
            None => None,
            Some(goal) => search_route(start, goal, id, obj, map),
        };
        proof {
            if found is Some {
                let path = found->0@;
                lemma_route_steps_fit(id, start, path.last(), obj.taken(), *map, path);
            }
        }
        NavigationSystem::plan(mover, found);
    }

    /// Plans the route as [`NavigationSystem::navigate`] does when no goal is
    /// queued or the search towards the current goal is within
    /// [`search_safe`], and reports `true`; otherwise leaves the body as it
    /// is and reports `false`.
    pub fn try_navigate(mover: &mut Mover, start: (i32, i32), id: Id, obj: &Physical, map: &GridMap) -> (ran: bool)
        ensures
            ran == (old(mover).top_goal() matches Some(g) ==> search_safe(start, g, obj.taken())),
            ran ==> plan_outcome(*old(mover), *final(mover), route_to_top_goal(*old(mover), start, id, *obj, *map)),
            ran ==> (old(mover).top_goal() matches Some(g) ==> (route_to_top_goal(*old(mover), start, id, *obj, *map) matches Some(path)
                ==> route_between(id, start, g, obj.taken(), *map, path))),
            !ran ==> *final(mover) == *old(mover),
    {
        if let Some(goal) = mover.get_goal() {
            if !NavigationSystem::search_is_safe(start, goal, obj) {
                return false;
            }
        }
        NavigationSystem::navigate(mover, start, id, obj, map);
        true
    }

    /// `true` exactly when a search from `start` to `goal` for `obj` is within
    /// [`search_safe`], so that [`NavigationSystem::navigate`] may run it.
    pub fn search_is_safe(start: (i32, i32), goal: (i32, i32), obj: &Physical) -> (r: bool)
        ensures
            r == search_safe(start, goal, obj.taken()),
    {
        obj.cell_count() == 0
            && -0x100_0000 <= start.0 && start.0 <= 0x100_0000
            && -0x100_0000 <= start.1 && start.1 <= 0x100_0000
            && -0x100_0000 <= goal.0 && goal.0 <= 0x100_0000
            && -0x100_0000 <= goal.1 && goal.1 <= 0x100_0000
    }

    /// `true` exactly when the search has reached `goal`.
    pub fn reached(p: &(i32, i32), goal: &(i32, i32)) -> (r: bool)
        ensures
            r == (*p == *goal),
    {
        p.0 == goal.0 && p.1 == goal.1
    }

    /// The neighbours of `pos` (the eight around it and `pos` itself, row by
    /// row) where the object `obj` of identity `id` would overlap no cell
    /// obstructed by another object; each comes with step cost 1.
    pub fn successors(id: &Id, pos: &(i32, i32), obj: &Physical, map: &GridMap) -> (out: Vec<((i32, i32), u32)>)
        requires
            expansion_safe(*id, *pos, obj.taken(), *map),
        ensures
            out@ == neighbours_upto(*id, *pos, obj.taken(), *map, 9),
    {
        let mut out: Vec<((i32, i32), u32)> = Vec::new();
        let mut iy: i32 = -1;
        while iy < 2
            invariant
                -1 <= iy <= 2,
                expansion_safe(*id, *pos, obj.taken(), *map),
                out@ == neighbours_upto(*id, *pos, obj.taken(), *map, ((iy + 1) * 3) as nat),
            decreases 2 - iy,
        {
            let mut ix: i32 = -1;
            while ix < 2
                invariant
                    -1 <= iy < 2,
                    -1 <= ix <= 2,
                    expansion_safe(*id, *pos, obj.taken(), *map),
                    out@ == neighbours_upto(*id, *pos, obj.taken(), *map, ((iy + 1) * 3 + ix + 1) as nat),
                decreases 2 - ix,
            {
                let ghost k: int = (iy + 1) * 3 + ix + 1;
                proof {
                    assert(k % 3 == ix + 1 && k / 3 == iy + 1);
                    assert(candidate(*pos, k) == (ix + pos.0, iy + pos.1));
                }
                let mut traversable = true;
                let px: i32 = ix + pos.0;
                let py: i32 = iy + pos.1;
                let rx = through_single_i32(px);
                let ry = through_single_i32(py);
                let vol = obj.get_taken_space((rx, ry));
                let ghost cells = footprint(obj.taken(), candidate(*pos, k));
                proof {
                    assert(vol@ == cells);
                }
                let mut t: usize = 0;
                while t < vol.len() && traversable
                    invariant
                        t <= vol.len(),
                        vol@ == cells,
                        scan_safe(*map, *id, cells, 0),
                        traversable ==> scan_safe(*map, *id, cells, t as int),
                        traversable ==> forall|j: int| 0 <= j < t ==> !blocks(*map, *id, #[trigger] cells[j]),
                        !traversable ==> exists|j: int| 0 <= j < t && blocks(*map, *id, #[trigger] cells[j]),
                    decreases vol.len() - t,
                {
                    let (x, y) = vol[t];
                    proof {
                        assert(cells[t as int] == (x, y));
                    }
                    let index: i32 = x + y * (map.width as i32);
                    let (obstruct, owner) = map.storage[index as usize];
                    if obstruct {
                        if owner != *id {
                            traversable = false;
                        }
                    }
                    t = t + 1;
                }
                proof {
                    assert(traversable == unobstructed(*map, *id, cells));
                }
                if traversable {
                    out.push(((px, py), 1));
                }
                ix = ix + 1;
            }
            iy = iy + 1;
        }
        out
    }


    /// Shortens a path to the points where its direction changes, comparing
    /// step slopes in single precision. The first point is never kept, and a
    /// run of points straight up or down from the start keeps nothing.
    pub fn simplify_path(path: Vec<(i32, i32)>) -> (out: Vec<(i32, i32)>)
        requires
            path.len() > 0,
            steps_fit(path@),
        ensures
            out@ == simplified(path@),
    {
        let mut out: Vec<(i32, i32)> = Vec::new();
        let mut last_dx: i64 = 0;
        let mut last_slope: (i64, u64, i64) = (0, 0, 0);
        let mut last_pos = path[0];
        let mut i: usize = 0;
        while i < path.len()
            invariant
                0 < path.len(),
                i <= path.len(),
                steps_fit(path@),
                out@ == simplify_prefix(path@, i as nat).0,
                (last_dx == 0) == simplify_prefix(path@, i as nat).1,
                last_slope.0 == simplify_prefix(path@, i as nat).2.0,
                last_slope.1 == simplify_prefix(path@, i as nat).2.1,
                last_slope.2 == simplify_prefix(path@, i as nat).2.2,
                last_pos == simplify_prefix(path@, i as nat).3,
                i == 0 ==> last_pos == path@[0],
                i > 0 ==> last_pos == path@[i - 1],
            decreases path.len() - i,
        {
            let (x, y) = path[i];
            proof {
                assert(path@[i as int] == (x, y));
            }
            let new_dx = single_of_i32(x - last_pos.0);
            let new_dy = single_of_i32(y - last_pos.1);
            let out_len = out.len();
            if last_dx == 0 {
                if new_dx != 0 {
                    out.push((x, y));
                    last_slope = single_quotient_key(new_dy, new_dx);
                } else {
                    if out_len > 0 {
                        out.set(out_len - 1, (x, y));
                    }
                }
            } else if new_dx == 0 {
                if last_dx != 0 {
                    out.push((x, y));
                } else {
                    if out_len > 0 {
                        out.set(out_len - 1, (x, y));
                    }
                }
            } else {
                let new_slope = single_quotient_key(new_dy, new_dx);
                if last_slope.0 != new_slope.0 || last_slope.1 != new_slope.1 || last_slope.2 != new_slope.2 {
                    out.push((x, y));
                } else {
                    if out_len > 0 {
                        out.set(out_len - 1, (x, y));
                    }
                }
                last_slope = new_slope;
            }
            last_dx = new_dx;
            last_pos = (x, y);
            i = i + 1;
        }
        out
    }
}

} // verus!
