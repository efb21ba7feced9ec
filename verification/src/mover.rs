use vstd::prelude::*;
use priority_queue::PriorityQueue;
use crate::physical::in_i32;
use crate::queue::{queue_entries, queue_top, no_entries, is_top_priority, queue_new, queue_push, queue_peek, queue_pop};

verus! {

/// How urgent a goal position is; a later variant outranks an earlier one.
#[derive(Clone, Copy, Debug, PartialEq, Eq, Structural, PartialOrd, Ord)]
pub enum Priority {
    Low,
    Medium,
    High,
    Critical,
}

/// The integer rank a priority is queued at: `Low` is 0, `Critical` is 3.
pub open spec fn priority_rank(p: Priority) -> i32 {
    match p {
        Priority::Low => 0,
        Priority::Medium => 1,
        Priority::High => 2,
        Priority::Critical => 3,
    }
}

/// Ranks follow the declaration order strictly, from `Low` up to
/// `Critical`, so a later priority always outranks an earlier one.
pub proof fn lemma_rank_order()
    ensures
        priority_rank(Priority::Low) < priority_rank(Priority::Medium),
        priority_rank(Priority::Medium) < priority_rank(Priority::High),
        priority_rank(Priority::High) < priority_rank(Priority::Critical),
        forall|a: Priority, b: Priority| (priority_rank(a) == priority_rank(b)) <==> a == b,
{
}

impl Priority {
    /// The rank of this priority, ordered as the variants are declared.
    pub fn rank(&self) -> (r: i32)
        ensures
            r == priority_rank(*self),
    {
        match self {
            Priority::Low => 0,
            Priority::Medium => 1,
            Priority::High => 2,
            Priority::Critical => 3,
        }
    }
}

/// The points of `path`, in order, that are not among `moves`.
pub open spec fn new_points(path: Seq<(i32, i32)>, moves: Seq<(i32, i32)>) -> Seq<(i32, i32)> {
    path.filter(|p: (i32, i32)| !moves.contains(p))
}

/// `after` is `before` with one goal of the highest rank removed, or
/// `before` itself when it holds no goal.
pub open spec fn top_goal_removed(before: Map<(i32, i32), i32>, after: Map<(i32, i32), i32>) -> bool {
    if before == no_entries() {
        after == before
    } else {
        exists|g: (i32, i32)| {
            &&& #[trigger] before.contains_key(g)
            &&& is_top_priority(before, before[g])
            &&& after == before.remove(g)
        }
    }
}

/// The navigation state of a moving body: the goal positions it wants to
/// reach, queued by priority, and the list of waypoints it is following.
pub struct Mover {
    pos_goals: PriorityQueue<(i32, i32), i32>,
    move_vec: Vec<(i32, i32)>,
    pub session: u32,
}

impl Mover {
    /// Goal positions, each with the rank of the priority it was queued at.
    pub closed spec fn goals(&self) -> Map<(i32, i32), i32> {
        queue_entries(self.pos_goals)
    }

    /// The waypoints still to visit, in order.
    pub closed spec fn moves(&self) -> Seq<(i32, i32)> {
        self.move_vec@
    }

    /// The goal at the top of the queue: the goal [`Mover::get_goal`]
    /// reports and [`Mover::pop_goal`] removes.
    pub closed spec fn top_goal(&self) -> Option<(i32, i32)> {
        match queue_top(self.pos_goals) {
            Some((g, _)) => Some(g),
            None => None,
        }
    }

    /// The session counter.
    pub closed spec fn session_value(&self) -> u32 {
        self.session
    }

    /// A body with no goals and no waypoints.
    pub fn new() -> (m: Mover)
        ensures
            m.goals() == no_entries(),
            m.moves() == Seq::<(i32, i32)>::empty(),
            m.session_value() == 0,
    {
        Mover { pos_goals: queue_new(), move_vec: Vec::new(), session: 0 }
    }

    /// The positions of `path` that are not among the current waypoints,
    /// in the order of `path` (repeats kept).
    pub fn diff_move_vec(&self, path: &Vec<(i32, i32)>) -> (out: Vec<(i32, i32)>)
        ensures
            out@ == new_points(path@, self.moves()),
    {
        let ghost keep = |p: (i32, i32)| !self.moves().contains(p);
        let mut out: Vec<(i32, i32)> = Vec::new();
        let mut i: usize = 0;
        while i < path.len()
            invariant
                i <= path.len(),
                keep == (|p: (i32, i32)| !self.moves().contains(p)),
                out@ == path@.take(i as int).filter(keep),
            decreases path.len() - i,
        {
            let pos = path[i];
            let mut in_move_vec = false;
            let mut k: usize = 0;
            while k < self.move_vec.len() && !in_move_vec
                invariant
                    k <= self.move_vec.len(),
                    in_move_vec <==> exists|j: int| 0 <= j < k && self.move_vec@[j] == pos,
                decreases self.move_vec.len() - k,
            {
                let other = self.move_vec[k];
                if pos.0 == other.0 && pos.1 == other.1 {
                    in_move_vec = true;
                }
                k = k + 1;
            }
            proof {
                if in_move_vec {
                    let j = choose|j: int| 0 <= j < k && self.move_vec@[j] == pos;
                    assert(self.moves()[j] == pos);
                } else {
                    assert forall|j: int| 0 <= j < self.moves().len() implies self.moves()[j] != pos by {
                        assert(self.move_vec@[j] != pos);
                    }
                }
                assert(in_move_vec <==> self.moves().contains(pos));
                assert(path@.take(i + 1).drop_last() =~= path@.take(i as int));
                reveal_with_fuel(Seq::<_>::filter, 1);
            }
            if !in_move_vec {
                out.push(pos);
            }
            i = i + 1;
        }
        proof {
            assert(path@.take(path.len() as int) =~= path@);
        }
        out
    }

    /// `true` when there are no waypoints left.
    pub fn is_move_vec_empty(&self) -> (r: bool)
        ensures
            r <==> self.moves().len() == 0,
    {
        self.move_vec.is_empty()
    }

    /// Replaces the waypoints; the goals are kept.
    pub fn set_move_vec(&mut self, vec: Vec<(i32, i32)>)
        ensures
            final(self).moves() == vec@,
            final(self).goals() == old(self).goals(),
            final(self).top_goal() == old(self).top_goal(),
            final(self).session_value() == old(self).session_value(),
    {
        self.move_vec = vec;
    }

    /// The next waypoint, if any.
    pub fn get_move(&self) -> (r: Option<(i32, i32)>)
        ensures
            r == (if self.moves().len() == 0 {
                None::<(i32, i32)>
            } else {
                Some(self.moves()[0])
            }),
    {
        if self.move_vec.is_empty() {
            None
        } else {
            Some(self.move_vec[0])
        }
    }

    /// Drops the next waypoint (there must be one).
    pub fn pop_move(&mut self)
        requires
            old(self).moves().len() > 0,
        ensures
            final(self).moves() == old(self).moves().drop_first(),
            final(self).goals() == old(self).goals(),
            final(self).top_goal() == old(self).top_goal(),
            final(self).session_value() == old(self).session_value(),
    {
        self.move_vec.remove(0);
    }

    /// Queues `goal` at the rank of `ord`; a goal already queued takes the new rank.
    pub fn add_goal(&mut self, goal: (i32, i32), ord: Priority)
        ensures
            final(self).goals() == old(self).goals().insert(goal, priority_rank(ord)),
            final(self).moves() == old(self).moves(),
            final(self).session_value() == old(self).session_value(),
    {
        let rank = ord.rank();
        let _ = queue_push(&mut self.pos_goals, goal, rank);
    }

    /// The goal at the top of the queue, which is of the highest queued
    /// rank, or `None` when no goal is queued.
    pub fn get_goal(&self) -> (r: Option<(i32, i32)>)
        ensures
            r == self.top_goal(),
            r is None <==> self.goals() == no_entries(),
            r matches Some(g) ==> {
                &&& self.goals().contains_key(g)
                &&& is_top_priority(self.goals(), self.goals()[g])
            },
    {
        let goal = queue_peek(&self.pos_goals);
        match goal {
            None => None,
            Some(((x, y), _)) => Some((x, y)),
        }
    }

    /// Removes the goal at the top of the queue (the goal `get_goal`
    /// reports), which is of the highest queued rank; nothing changes when
    /// no goal is queued.
    pub fn pop_goal(&mut self)
        ensures
            old(self).top_goal() is None <==> old(self).goals() == no_entries(),
            old(self).top_goal() is None ==> final(self).goals() == old(self).goals(),
            old(self).top_goal() matches Some(g) ==> {
                &&& old(self).goals().contains_key(g)
                &&& is_top_priority(old(self).goals(), old(self).goals()[g])
                &&& final(self).goals() == old(self).goals().remove(g)
            },
            top_goal_removed(old(self).goals(), final(self).goals()),
            final(self).moves() == old(self).moves(),
            final(self).session_value() == old(self).session_value(),
    {
        let top = queue_pop(&mut self.pos_goals);
        proof {
            if let Some((g, p)) = top {
                assert(old(self).goals().contains_key(g));
            }
        }
    }
}

/// Every element of a filtered sequence is an element of the sequence.
proof fn lemma_filter_within(s: Seq<(i32, i32)>, pred: spec_fn((i32, i32)) -> bool)
    ensures
        forall|i: int| 0 <= i < s.filter(pred).len() ==> s.contains(#[trigger] s.filter(pred)[i]),
    decreases s.len(),
{
    reveal_with_fuel(Seq::<_>::filter, 1);
    if s.len() > 0 {
        lemma_filter_within(s.drop_last(), pred);
        let f = s.filter(pred);
        let g = s.drop_last().filter(pred);
        assert forall|i: int| 0 <= i < f.len() implies s.contains(#[trigger] f[i]) by {
            if i < g.len() {
                assert(f[i] == g[i]);
                let k = choose|k: int| 0 <= k < s.drop_last().len() && s.drop_last()[k] == g[i];
                assert(s[k] == f[i]);
            } else {
                assert(f[i] == s.last());
                assert(s[s.len() - 1] == f[i]);
            }
        }
    }
}

/// The points of a path that are new to a body's waypoints all come from
/// the path, and none of them is a waypoint.
pub proof fn lemma_difference_points(path: Seq<(i32, i32)>, moves: Seq<(i32, i32)>)
    ensures
        forall|i: int| 0 <= i < new_points(path, moves).len() ==> path.contains(#[trigger] new_points(path, moves)[i])
            && !moves.contains(new_points(path, moves)[i]),
{
    let pred = |p: (i32, i32)| !moves.contains(p);
    lemma_filter_within(path, pred);
    assert forall|i: int| 0 <= i < path.filter(pred).len() implies !moves.contains(#[trigger] path.filter(pred)[i]) by {
        path.lemma_filter_pred(pred, i);
    }
}

/// A point is reported as new exactly when it lies on the route and is not
/// among the waypoints (whole positions compared): no such point is missed
/// and no other point is reported.
pub proof fn lemma_difference_exact(path: Seq<(i32, i32)>, moves: Seq<(i32, i32)>)
    ensures
        forall|p: (i32, i32)| path.contains(p) && !moves.contains(p) ==> #[trigger] new_points(path, moves).contains(p),
        forall|p: (i32, i32)| #[trigger] new_points(path, moves).contains(p) ==> path.contains(p) && !moves.contains(p),
        new_points(path, moves).len() > 0 <==> exists|i: int| 0 <= i < path.len() && !moves.contains(#[trigger] path[i]),
{
    let pred = |q: (i32, i32)| !moves.contains(q);
    assert forall|p: (i32, i32)| path.contains(p) && !moves.contains(p) implies #[trigger] new_points(path, moves).contains(p) by {
        let i = choose|i: int| 0 <= i < path.len() && path[i] == p;
        path.lemma_filter_contains(pred, i);
    }
    lemma_difference_points(path, moves);
    assert forall|p: (i32, i32)| #[trigger] new_points(path, moves).contains(p) implies path.contains(p) && !moves.contains(p) by {
        let i = choose|i: int| 0 <= i < new_points(path, moves).len() && new_points(path, moves)[i] == p;
    }
    if exists|i: int| 0 <= i < path.len() && !moves.contains(#[trigger] path[i]) {
        let i = choose|i: int| 0 <= i < path.len() && !moves.contains(#[trigger] path[i]);
        path.lemma_filter_contains(pred, i);
    }
    if new_points(path, moves).len() > 0 {
        let p = new_points(path, moves)[0];
        assert(new_points(path, moves).contains(p));
        let i = choose|i: int| 0 <= i < path.len() && path[i] == p;
        assert(!moves.contains(path[i]));
    }
}

/// Offering a body its own waypoints finds no new point.
pub proof fn lemma_own_route_has_no_difference(moves: Seq<(i32, i32)>)
    ensures
        new_points(moves, moves).len() == 0,
{
    let pred = |p: (i32, i32)| !moves.contains(p);
    lemma_filter_within(moves, pred);
    if moves.filter(pred).len() > 0 {
        moves.lemma_filter_pred(pred, 0);
        assert(moves.contains(moves.filter(pred)[0]));
    }
}

/// The goal a body heads for after a goal was queued ranks at least as
/// high as the goal just queued.
pub proof fn lemma_next_goal_ranks_at_least_added(goals: Map<(i32, i32), i32>, g: (i32, i32), rank: i32, next: (i32, i32))
    requires
        goals.insert(g, rank).contains_key(next),
        is_top_priority(goals.insert(g, rank), goals.insert(g, rank)[next]),
    ensures
        goals.insert(g, rank)[next] >= rank,
{
    assert(goals.insert(g, rank).contains_key(g));
}

/// The only goal of a body is the goal it heads for, and removing the top
/// goal of a body with one goal leaves it with none.
pub proof fn lemma_single_goal(g: (i32, i32), rank: i32, next: (i32, i32), after: Map<(i32, i32), i32>)
    ensures
        no_entries().insert(g, rank).contains_key(next) ==> next == g,
        top_goal_removed(no_entries().insert(g, rank), after) ==> after == no_entries(),
{
    if top_goal_removed(no_entries().insert(g, rank), after) {
        assert(no_entries().insert(g, rank).contains_key(g));
        assert(no_entries().insert(g, rank) != no_entries());
        let h = choose|h: (i32, i32)| {
            &&& #[trigger] no_entries().insert(g, rank).contains_key(h)
            &&& is_top_priority(no_entries().insert(g, rank), no_entries().insert(g, rank)[h])
            &&& after == no_entries().insert(g, rank).remove(h)
        };
        assert(after =~= no_entries());
    }
}

/// What a body should do about its next waypoint.
#[derive(Clone, Copy, Debug, PartialEq, Eq, Structural)]
pub enum Steering {
    /// No waypoint is left: slow down.
    Brake,
    /// The waypoint was within reach and has been dropped.
    Arrived,
    /// Head for the waypoint, which lies at this offset.
    Toward { dx: i32, dy: i32 },
}

/// `true` when the offset from `pos` to `w` and its squared length fit an
/// `i32`.
pub open spec fn offset_computable(w: (i32, i32), pos: (i32, i32)) -> bool {
    let dx = w.0 - pos.0;
    let dy = w.1 - pos.1;
    &&& in_i32(dx)
    &&& in_i32(dy)
    &&& in_i32(dx * dx)
    &&& in_i32(dy * dy)
    &&& in_i32(dx * dx + dy * dy)
}

/// Steers bodies towards their waypoints.
pub struct RudderSystem;

impl RudderSystem {
    /// Decides how a body standing at grid position `pos` steers: with no
    /// waypoint it brakes; a waypoint within distance 10 (squared distance
    /// at most 100, which is where the single-precision distance is at most
    /// 10.0) is reached and dropped; otherwise the body heads for it.
    pub fn steer(mover: &mut Mover, pos: (i32, i32)) -> (r: Steering)
        requires
            old(mover).moves().len() > 0 ==> offset_computable(old(mover).moves()[0], pos),
        ensures
            final(mover).goals() == old(mover).goals(),
            final(mover).top_goal() == old(mover).top_goal(),
            final(mover).session_value() == old(mover).session_value(),
            old(mover).moves().len() == 0 ==> r == Steering::Brake && final(mover).moves() == old(mover).moves(),
            old(mover).moves().len() > 0 ==> {
                let w = old(mover).moves()[0];
                let dx = w.0 - pos.0;
                let dy = w.1 - pos.1;
                if dx * dx + dy * dy <= 100 {
                    r == Steering::Arrived && final(mover).moves() == old(mover).moves().drop_first()
                } else {
                    r == (Steering::Toward { dx: dx as i32, dy: dy as i32 }) && final(mover).moves() == old(mover).moves()
                }
            },
    {
        match mover.get_move() {
            None => Steering::Brake,
            Some((x, y)) => {
                let use_x: i32 = x - pos.0;
                let use_y: i32 = y - pos.1;
                let dist2: i32 = use_x * use_x + use_y * use_y;
                if dist2 <= 100 {
                    mover.pop_move();
                    Steering::Arrived
                } else {
                    Steering::Toward { dx: use_x, dy: use_y }
                }
            },
        }
    }

    /// `true` exactly when [`RudderSystem::steer`] can compute the offset to
    /// the next waypoint of `mover` from `pos` (always, without a waypoint).
    pub fn steering_computable(mover: &Mover, pos: (i32, i32)) -> (r: bool)
        ensures
            r == (mover.moves().len() > 0 ==> offset_computable(mover.moves()[0], pos)),
    {
        match mover.get_move() {
            None => true,
            Some((x, y)) => {
                let dx: i64 = x as i64 - pos.0 as i64;
                let dy: i64 = y as i64 - pos.1 as i64;
                if dx < -0x8000_0000 || dx > 0x7fff_ffff || dy < -0x8000_0000 || dy > 0x7fff_ffff {
                    return false;
                }
                proof {
                    assert(0 <= dx * dx <= 0x4000_0000_0000_0000) by (nonlinear_arith)
                        requires -0x8000_0000 <= dx <= 0x7fff_ffff;
                    assert(0 <= dy * dy <= 0x4000_0000_0000_0000) by (nonlinear_arith)
                        requires -0x8000_0000 <= dy <= 0x7fff_ffff;
                }
                let xx: i64 = dx * dx;
                let yy: i64 = dy * dy;
                xx <= 0x7fff_ffff && yy <= 0x7fff_ffff && xx + yy <= 0x7fff_ffff
            },
        }
    }
}

/// Gives idle bodies somewhere to go.
pub struct SimpleIdle;

impl SimpleIdle {
    /// When `mover` has no goal, queues `pick` (a position chosen by the
    /// caller, typically at random on the stage) at `Low` priority; a body
    /// with a goal is left as it is.
    pub fn assign_goal(mover: &mut Mover, pick: (i32, i32))
        ensures
            old(mover).goals() == no_entries() ==> final(mover).goals() == no_entries().insert(pick, priority_rank(Priority::Low)),
            old(mover).goals() != no_entries() ==> final(mover).goals() == old(mover).goals(),
            final(mover).moves() == old(mover).moves(),
            final(mover).session_value() == old(mover).session_value(),
    {
        match mover.get_goal() {
            None => {
                mover.add_goal(pick, Priority::Low);
            },
            _ => {},
        }
    }
}

} // verus!
