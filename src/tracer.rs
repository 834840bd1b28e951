use vstd::prelude::*;
use crate::geometry::{
    closer_in_angle, div_trunc, lemma_turns_less_order, trunc_div, turns_less, Dot, COORD_LIMIT,
    UNIT, VEC_LIMIT,
};
use crate::puzzle::{DotIndex, LineComplexity, LineIndex, Puzzle};
use crate::checker::{check_path, verdict, SolutionError};

verus! {

/// Progress along an edge, in fixed-point steps: 0 is the edge's first
/// endpoint, `PROGRESS_SCALE` its second.
pub const PROGRESS_SCALE: i64 = 1_000_000;

/// How far from a node the cursor may drift, in line widths, before it
/// commits to an edge.
pub const DOT_LEAVE_RADIUS: i64 = 1;

/// A start node captures a click within this distance.
pub const START_DOT_RADIUS: i64 = 5_400;

/// The gap of a broken edge spans progress from `LINE_BREAK_WIDTH` to
/// `PROGRESS_SCALE - LINE_BREAK_WIDTH`.
pub const LINE_BREAK_WIDTH: i64 = 400_000;

/// Edge `l` joins two different nodes `a` and `b`.
pub open spec fn joins(l: LineIndex, a: DotIndex, b: DotIndex) -> bool {
    l.has(a) && l.has(b) && a != b
}

/// The node path and edge path describe one walk through the graph: edge `i`
/// joins nodes `i` and `i + 1`, no edge is followed at once by itself, and
/// while the cursor is on an edge that edge is last and leaves the last node.
pub open spec fn path_consistent(dot_path: Seq<DotIndex>, line_path: Seq<LineIndex>, at_dot: bool) -> bool {
    &&& dot_path.len() > 0
    &&& if at_dot {
        line_path.len() + 1 == dot_path.len()
    } else {
        line_path.len() == dot_path.len() && line_path.last().has(dot_path.last())
    }
    &&& forall|i: int|
        0 <= i < dot_path.len() - 1 ==> joins(#[trigger] line_path[i], dot_path[i], dot_path[i + 1])
    &&& forall|i: int|
        0 <= i < line_path.len() - 1 ==> !(#[trigger] line_path[i]).same_edge(line_path[i + 1])
}

/// The paths after the cursor, resting on a node, enters edge `line`: back
/// along the edge it arrived by (the node is given up), or onto a new edge.
pub open spec fn enter_line(
    dot_path: Seq<DotIndex>,
    line_path: Seq<LineIndex>,
    line: LineIndex,
) -> (Seq<DotIndex>, Seq<LineIndex>) {
    if line_path.len() > 0 && line_path.last().same_edge(line) {
        (dot_path.drop_last(), line_path)
    } else {
        (dot_path, line_path.push(line))
    }
}

/// The paths after the cursor, on an edge, arrives at node `dot`: the node it
/// left (the edge is given up), or a new node.
pub open spec fn arrive_dot(
    dot_path: Seq<DotIndex>,
    line_path: Seq<LineIndex>,
    dot: DotIndex,
) -> (Seq<DotIndex>, Seq<LineIndex>) {
    if dot_path.len() > 0 && dot_path.last() == dot {
        (dot_path, line_path.drop_last())
    } else {
        (dot_path.push(dot), line_path)
    }
}

/// Tracing forward across an edge and back again restores both paths
/// exactly.
pub proof fn lemma_backtrack_restores(
    dot_path: Seq<DotIndex>,
    line_path: Seq<LineIndex>,
    e: LineIndex,
)
    requires
        path_consistent(dot_path, line_path, true),
        e.has(dot_path.last()),
        e.0 != e.1,
        line_path.len() > 0 && line_path.last().same_edge(e) ==> line_path.last() == e,
    ensures
        ({
            let d = dot_path.last();
            let f = e.spec_other(d);
            let s1 = enter_line(dot_path, line_path, e);
            let s2 = arrive_dot(s1.0, s1.1, f);
            let s3 = enter_line(s2.0, s2.1, e);
            let s4 = arrive_dot(s3.0, s3.1, d);
            s4.0 == dot_path && s4.1 == line_path
        }),
{
    let d = dot_path.last();
    let f = e.spec_other(d);
    let n = dot_path.len();
    if line_path.len() > 0 && line_path.last().same_edge(e) {
        assert(joins(line_path[n - 2], dot_path[n - 2], dot_path[n - 1]));
        assert(dot_path.drop_last().last() == f);
        let lp1 = line_path.drop_last();
        if lp1.len() > 0 {
            assert(!line_path[n - 3].same_edge(line_path[n - 2]));
            assert(!lp1.last().same_edge(e));
        }
        assert(dot_path.drop_last().push(d) =~= dot_path);
        assert(lp1.push(e) =~= line_path);
    } else {
        assert(line_path.push(e).drop_last() =~= line_path);
    }
}

/// The vector from `a` to `b`.
pub open spec fn vector(a: Dot, b: Dot) -> Dot {
    Dot { x: (b.x - a.x) as i64, y: (b.y - a.y) as i64 }
}

/// The interactive path tracer: turns pointer motion into a walk through the
/// puzzle's graph.
pub struct PuzzleSolutionManager<'a> {
    puzzle: &'a Puzzle,
    dot_path: Vec<DotIndex>,
    line_path: Vec<LineIndex>,
    now_at_dot: bool,
    /// Offset of the cursor from the node it rests on.
    dot_pos: Dot,
    /// Position of the cursor along the edge it is on.
    line_progress: i64,
    is_solving: bool,
    is_drawing_solution: bool,
}

impl<'a> PuzzleSolutionManager<'a> {
    pub closed spec fn spec_puzzle(&self) -> &'a Puzzle {
        self.puzzle
    }

    pub closed spec fn spec_dot_path(&self) -> Seq<DotIndex> {
        self.dot_path@
    }

    pub closed spec fn spec_line_path(&self) -> Seq<LineIndex> {
        self.line_path@
    }

    pub closed spec fn spec_now_at_dot(&self) -> bool {
        self.now_at_dot
    }

    pub closed spec fn spec_dot_pos(&self) -> Dot {
        self.dot_pos
    }

    pub closed spec fn spec_line_progress(&self) -> int {
        self.line_progress as int
    }

    pub closed spec fn spec_is_solving(&self) -> bool {
        self.is_solving
    }

    pub closed spec fn spec_is_drawing(&self) -> bool {
        self.is_drawing_solution
    }

    /// The part of the tracer that pointer motion changes.
    pub open spec fn state(&self) -> TraceState {
        TraceState {
            dot_path: self.spec_dot_path(),
            line_path: self.spec_line_path(),
            at_dot: self.spec_now_at_dot(),
            dot_pos: self.spec_dot_pos(),
            progress: self.spec_line_progress(),
        }
    }

    /// The trace is a walk: once a trace has begun, the puzzle is well formed,
    /// the walk starts at a start node, the paths are one walk over the
    /// puzzle's edges, and the cursor's offsets lie in bounds.
    pub open spec fn path_inv(&self) -> bool {
        let puzzle = self.spec_puzzle();
        let dp = self.spec_dot_path();
        let lp = self.spec_line_path();
        &&& dp.len() == 0 ==> lp.len() == 0 && !self.spec_is_solving() && !self.spec_is_drawing()
        &&& dp.len() > 0 ==> {
            &&& puzzle.wf()
            &&& puzzle.start_dots@.contains(dp[0])
            &&& path_consistent(dp, lp, self.spec_now_at_dot())
            &&& forall|i: int| 0 <= i < dp.len() ==> puzzle.valid_dot(#[trigger] dp[i])
            &&& forall|i: int| 0 <= i < lp.len() ==> puzzle.valid_line(#[trigger] lp[i])
        }
        &&& self.spec_dot_pos().is_vector()
        &&& 0 <= self.spec_line_progress() <= PROGRESS_SCALE
    }

    /// The tracer's state is consistent: the trace is a walk, and it has
    /// crossed no broken edge.
    pub open spec fn inv(&self) -> bool {
        &&& self.path_inv()
        &&& self.spec_dot_path().len() > 0 ==> respects_breaks(self.spec_puzzle(), self.state())
    }

    pub fn new(puzzle: &'a Puzzle) -> (r: Self)
        ensures
            r.inv(),
            r.spec_puzzle() == puzzle,
            r.spec_dot_path().len() == 0,
            r.spec_line_path().len() == 0,
            !r.spec_is_solving(),
            !r.spec_is_drawing(),
            !r.spec_now_at_dot(),
    {
        PuzzleSolutionManager {
            puzzle,
            dot_path: Vec::new(),
            line_path: Vec::new(),
            now_at_dot: false,
            dot_pos: Dot::zero(),
            line_progress: 0,
            is_solving: false,
            is_drawing_solution: false,
        }
    }

    pub fn is_solving(&self) -> (r: bool)
        ensures
            r == self.spec_is_solving(),
    {
        self.is_solving
    }

    pub fn is_drawing_solution(&self) -> (r: bool)
        ensures
            r == self.spec_is_drawing(),
    {
        self.is_drawing_solution
    }

    pub fn puzzle(&self) -> (r: &'a Puzzle)
        ensures
            r == self.spec_puzzle(),
    {
        self.puzzle
    }

    pub fn dot_path(&self) -> (r: &Vec<DotIndex>)
        ensures
            r@ == self.spec_dot_path(),
    {
        &self.dot_path
    }

    pub fn line_path(&self) -> (r: &Vec<LineIndex>)
        ensures
            r@ == self.spec_line_path(),
    {
        &self.line_path
    }

    pub fn now_at_dot(&self) -> (r: bool)
        ensures
            r == self.spec_now_at_dot(),
    {
        self.now_at_dot
    }

    /// Position of the cursor along its edge, in steps of `PROGRESS_SCALE`.
    pub fn line_progress(&self) -> (r: i64)
        ensures
            r == self.spec_line_progress(),
    {
        self.line_progress
    }

    /// Offset of the cursor from the node it rests on.
    pub fn dot_pos(&self) -> (r: Dot)
        ensures
            r == self.spec_dot_pos(),
    {
        self.dot_pos
    }
}

impl<'a> PuzzleSolutionManager<'a> {
    fn get_dot(&self, dot: DotIndex) -> (r: Dot)
        requires
            self.puzzle.valid_dot(dot),
            self.puzzle.wf(),
        ensures
            r == self.puzzle.dot_pos(dot),
            r.within(COORD_LIMIT as int),
    {
        self.puzzle.dots[dot.0 as usize]
    }

    fn clear(&mut self)
        requires
            old(self).inv(),
        ensures
            final(self).inv(),
            final(self).puzzle == old(self).puzzle,
            final(self).dot_path@.len() == 0,
            final(self).line_path@.len() == 0,
            !final(self).is_solving,
            !final(self).is_drawing_solution,
            final(self).now_at_dot == old(self).now_at_dot,
    {
        self.dot_path.clear();
        self.line_path.clear();
        self.is_solving = false;
        self.is_drawing_solution = false;
    }

    fn start_from(&mut self, start_dot: DotIndex)
        requires
            old(self).inv(),
            old(self).puzzle.wf(),
            old(self).puzzle.start_dots@.contains(start_dot),
        ensures
            final(self).inv(),
            final(self).puzzle == old(self).puzzle,
            final(self).dot_path@ == seq![start_dot],
            final(self).line_path@.len() == 0,
            final(self).is_solving,
            final(self).is_drawing_solution,
            final(self).now_at_dot,
            final(self).dot_pos.is_zero(),
    {
        self.clear();
        self.is_drawing_solution = true;
        self.is_solving = true;
        self.dot_path.push(start_dot);
        self.now_at_dot = true;
        self.dot_pos = Dot::zero();
        proof {
            assert(self.dot_path@ =~= seq![start_dot]);
        }
    }

    fn last_dot(&self) -> (r: DotIndex)
        requires
            self.dot_path@.len() > 0,
        ensures
            r == self.dot_path@.last(),
    {
        self.dot_path[self.dot_path.len() - 1]
    }

    fn last_line_while_at_line(&self) -> (r: LineIndex)
        requires
            self.inv(),
            self.dot_path@.len() > 0,
            !self.now_at_dot,
        ensures
            r == self.line_path@.last(),
            r.has(self.dot_path@.last()),
            self.puzzle.valid_line(r),
    {
        self.line_path[self.line_path.len() - 1]
    }

    /// Arrival at `dot`, an endpoint of the edge the cursor is on.
    fn move_to_dot(&mut self, dot: DotIndex)
        requires
            old(self).path_inv(),
            old(self).is_solving,
            old(self).dot_path@.len() > 0,
            !old(self).now_at_dot,
            old(self).line_path@.last().has(dot),
        ensures
            final(self).path_inv(),
            final(self).dot_path@.len() > 0,
            final(self).dot_path@[0] == old(self).dot_path@[0],
            final(self).now_at_dot,
            final(self).puzzle == old(self).puzzle,
            final(self).is_solving == old(self).is_solving,
            final(self).is_drawing_solution == old(self).is_drawing_solution,
            final(self).line_progress == old(self).line_progress,
            final(self).dot_pos == old(self).dot_pos,
            (final(self).dot_path@, final(self).line_path@) == arrive_dot(
                old(self).dot_path@,
                old(self).line_path@,
                dot,
            ),
    {
        let last_dot = self.last_dot();
        let ghost dp = self.dot_path@;
        let ghost lp = self.line_path@;
        proof {
            assert(self.puzzle.valid_line(lp[lp.len() - 1]));
        }
        if dot == last_dot {
            self.line_path.pop();
            proof {
                assert(self.line_path@ =~= lp.drop_last());
            }
        } else {
            self.dot_path.push(dot);
            proof {
                let n = dp.len();
                assert(self.dot_path@ =~= dp.push(dot));
                assert(joins(lp[n - 1], dp[n - 1], dot));
                assert forall|i: int| 0 <= i < self.dot_path@.len() implies self.puzzle.valid_dot(
                    #[trigger] self.dot_path@[i],
                ) by {
                    if i == n {
                        assert(self.puzzle.valid_line(lp[n - 1]));
                    }
                }
            }
        }
        self.now_at_dot = true;
    }

    /// Departure from the node the cursor rests on, along `line`.
    fn move_to_line(&mut self, line: LineIndex)
        requires
            old(self).path_inv(),
            old(self).is_solving,
            old(self).dot_path@.len() > 0,
            old(self).now_at_dot,
            line.has(old(self).dot_path@.last()),
            old(self).puzzle.valid_line(line),
        ensures
            final(self).path_inv(),
            final(self).dot_path@.len() > 0,
            final(self).dot_path@[0] == old(self).dot_path@[0],
            !final(self).now_at_dot,
            final(self).puzzle == old(self).puzzle,
            final(self).is_solving == old(self).is_solving,
            final(self).is_drawing_solution == old(self).is_drawing_solution,
            final(self).line_progress == old(self).line_progress,
            final(self).dot_pos == old(self).dot_pos,
            (final(self).dot_path@, final(self).line_path@) == enter_line(
                old(self).dot_path@,
                old(self).line_path@,
                line,
            ),
    {
        let ghost dp = self.dot_path@;
        let ghost lp = self.line_path@;
        let n = self.line_path.len();
        if n > 0 && self.line_path[n - 1] == line {
            self.dot_path.pop();
            proof {
                assert(self.dot_path@ =~= dp.drop_last());
                assert(joins(lp[n - 1], dp[n - 1 as int], dp[n as int]));
            }
        } else {
            self.line_path.push(line);
            proof {
                assert(self.line_path@ =~= lp.push(line));
            }
        }
        self.now_at_dot = false;
    }
}

/// Edge `j` of the puzzle has `here` as an endpoint.
pub open spec fn incident(puzzle: &Puzzle, here: DotIndex, j: int) -> bool {
    0 <= j < puzzle.lines@.len() && puzzle.lines@[j].has(here)
}

/// The vector from `here` along edge `j` to its far endpoint.
pub open spec fn arm(puzzle: &Puzzle, here: DotIndex, j: int) -> Dot {
    vector(puzzle.dot_pos(here), puzzle.dot_pos(puzzle.lines@[j].spec_other(here)))
}

/// Edge `k` is, of the edges at `here`, the one whose direction makes the
/// smallest angle with `d`; among equally near edges, the first listed.
pub open spec fn is_nearest_line(puzzle: &Puzzle, here: DotIndex, d: Dot, k: int) -> bool {
    &&& incident(puzzle, here, k)
    &&& forall|j: int|
        0 <= j < k && #[trigger] incident(puzzle, here, j) ==> turns_less(
            arm(puzzle, here, k),
            arm(puzzle, here, j),
            d,
        )
    &&& forall|j: int|
        k < j < puzzle.lines@.len() && #[trigger] incident(puzzle, here, j) ==> !turns_less(
            arm(puzzle, here, j),
            arm(puzzle, here, k),
            d,
        )
}

/// The far endpoint of edge `k` lies ahead in the direction of `d`.
pub open spec fn leads_along(puzzle: &Puzzle, here: DotIndex, d: Dot, k: int) -> bool {
    arm(puzzle, here, k).spec_scalar(d) > 0
}

pub open spec fn plus_spec(a: Dot, b: Dot) -> Dot {
    Dot { x: (a.x + b.x) as i64, y: (a.y + b.y) as i64 }
}

/// Squared radius around a node that the cursor may drift within.
pub open spec fn leave_radius2(puzzle: &Puzzle) -> int {
    (puzzle.line_width * DOT_LEAVE_RADIUS) * (puzzle.line_width * DOT_LEAVE_RADIUS)
}

/// The vector of edge `line`, from its first endpoint to its second.
pub open spec fn line_vector(puzzle: &Puzzle, line: LineIndex) -> Dot {
    vector(puzzle.dot_pos(line.0), puzzle.dot_pos(line.1))
}

/// Progress near each endpoint, proportional to half a line width, within
/// which the cursor counts as having reached the node (at most half the edge).
pub open spec fn leave_margin(puzzle: &Puzzle, line: LineIndex) -> int {
    let m = (puzzle.line_width * PROGRESS_SCALE) / (2 * crate::geometry::spec_length(
        line_vector(puzzle, line),
    ));
    if m > PROGRESS_SCALE / 2 {
        PROGRESS_SCALE / 2
    } else {
        m
    }
}

/// Progress made along `line` by motion `d`: the projection of `d` on it.
pub open spec fn projection(puzzle: &Puzzle, line: LineIndex, d: Dot) -> int {
    let e = line_vector(puzzle, line);
    trunc_div(d.spec_scalar(e) * PROGRESS_SCALE, e.spec_length2())
}

pub open spec fn is_broken(puzzle: &Puzzle, line: LineIndex) -> bool {
    exists|i: int|
        0 <= i < puzzle.line_complexity@.len() && (#[trigger] puzzle.line_complexity@[i]).0.same_edge(
            line,
        ) && puzzle.line_complexity@[i].1 == LineComplexity::LineBreak
}

/// Progress made along `line` from `p` by motion `d`, stopped at the gap
/// of a broken edge.
pub open spec fn line_step(puzzle: &Puzzle, line: LineIndex, p: int, d: Dot) -> int {
    let proj = projection(puzzle, line, d);
    let max_p = LINE_BREAK_WIDTH - leave_margin(puzzle, line);
    if !is_broken(puzzle, line) {
        proj
    } else if p < PROGRESS_SCALE / 2 {
        if p + proj > max_p {
            max_p - p
        } else {
            proj
        }
    } else {
        if p + proj < PROGRESS_SCALE - max_p {
            PROGRESS_SCALE - max_p - p
        } else {
            proj
        }
    }
}

proof fn lemma_distinct_nonzero(a: Dot, b: Dot)
    requires
        a != b,
        a.within(COORD_LIMIT as int),
        b.within(COORD_LIMIT as int),
    ensures
        vector(a, b).spec_length2() > 0,
        vector(a, b).is_vector(),
{
    let v = vector(a, b);
    assert(v.x != 0 || v.y != 0);
    assert(v.x * v.x + v.y * v.y > 0) by (nonlinear_arith)
        requires
            v.x != 0 || v.y != 0,
    ;
}

impl<'a> PuzzleSolutionManager<'a> {
    /// Index of the edge at `here` nearest in angle to `d`, if `here` has an
    /// edge.
    fn nearest_line_index(&self, here: DotIndex, d: &Dot) -> (r: Option<usize>)
        requires
            self.puzzle.wf(),
            self.puzzle.valid_dot(here),
            d.is_vector(),
        ensures
            r matches Some(k) ==> is_nearest_line(self.puzzle, here, *d, k as int),
            r is None ==> forall|j: int| !incident(self.puzzle, here, j),
    {
        let puzzle = self.puzzle;
        let pos = self.get_dot(here);
        let mut best: Option<usize> = None;
        let mut best_arm = Dot::zero();
        let mut i: usize = 0;
        while i < puzzle.lines.len()
            invariant
                puzzle == self.puzzle,
                puzzle.wf(),
                puzzle.valid_dot(here),
                pos == puzzle.dot_pos(here),
                d.is_vector(),
                i <= puzzle.lines@.len(),
                best is None ==> forall|j: int| 0 <= j < i ==> !incident(puzzle, here, j),
                best matches Some(b) ==> {
                    &&& b < i
                    &&& incident(puzzle, here, b as int)
                    &&& best_arm == arm(puzzle, here, b as int)
                    &&& forall|j: int|
                        0 <= j < b && #[trigger] incident(puzzle, here, j) ==> turns_less(
                            arm(puzzle, here, b as int),
                            arm(puzzle, here, j),
                            *d,
                        )
                    &&& forall|j: int|
                        b < j < i && #[trigger] incident(puzzle, here, j) ==> !turns_less(
                            arm(puzzle, here, j),
                            arm(puzzle, here, b as int),
                            *d,
                        )
                },
            decreases puzzle.lines@.len() - i,
        {
            let line = puzzle.lines[i];
            if line.contains(here) {
                let far = line.other(here);
                proof {
                    assert(puzzle.valid_line(puzzle.lines@[i as int]));
                }
                let far_pos = self.get_dot(far);
                let v = far_pos.minus(&pos);
                proof {
                    lemma_distinct_nonzero(pos, far_pos);
                    assert(v == arm(puzzle, here, i as int));
                }
                match best {
                    None => {
                        best = Some(i);
                        best_arm = v;
                    },
                    Some(b) => {
                        if closer_in_angle(&v, &best_arm, d) {
                            proof {
                                let ab = arm(puzzle, here, b as int);
                                assert(puzzle.valid_line(puzzle.lines@[b as int]));
                                lemma_distinct_nonzero(pos, puzzle.dot_pos(puzzle.lines@[b as int].spec_other(here)));
                                assert forall|j: int|
                                    0 <= j < i && #[trigger] incident(puzzle, here, j) implies turns_less(
                                    v,
                                    arm(puzzle, here, j),
                                    *d,
                                ) by {
                                    let aj = arm(puzzle, here, j);
                                    assert(puzzle.valid_line(puzzle.lines@[j]));
                                    lemma_distinct_nonzero(pos, puzzle.dot_pos(puzzle.lines@[j].spec_other(here)));
                                    lemma_turns_less_order(v, ab, aj, *d);
                                    lemma_turns_less_order(ab, aj, v, *d);
                                    lemma_turns_less_order(aj, ab, v, *d);
                                }
                            }
                            best = Some(i);
                            best_arm = v;
                        }
                    },
                }
            }
            i += 1;
        }
        best
    }

    /// The edge at the cursor's node nearest in angle to `delta`, provided
    /// its far endpoint lies ahead in the direction of `delta`.
    fn get_near_line_on_dot(&self, delta: &Dot) -> (r: Option<LineIndex>)
        requires
            self.inv(),
            self.dot_path@.len() > 0,
            self.now_at_dot,
            delta.is_vector(),
        ensures
            r matches Some(l) ==> exists|k: int|
                is_nearest_line(self.puzzle, self.dot_path@.last(), *delta, k) && leads_along(
                    self.puzzle,
                    self.dot_path@.last(),
                    *delta,
                    k,
                ) && self.puzzle.lines@[k] == l,
            r is None ==> forall|k: int|
                is_nearest_line(self.puzzle, self.dot_path@.last(), *delta, k) ==> !leads_along(
                    self.puzzle,
                    self.dot_path@.last(),
                    *delta,
                    k,
                ),
    {
        let here = self.last_dot();
        proof {
            assert(self.puzzle.valid_dot(self.dot_path@[self.dot_path@.len() - 1]));
        }
        match self.nearest_line_index(here, delta) {
            None => None,
            Some(k) => {
                let line = self.puzzle.lines[k];
                let far = line.other(here);
                proof {
                    assert(self.puzzle.valid_line(self.puzzle.lines@[k as int]));
                }
                let v = self.get_dot(far).minus(&self.get_dot(here));
                proof {
                    lemma_distinct_nonzero(self.puzzle.dot_pos(here), self.puzzle.dot_pos(far));
                    assert forall|k2: int|
                        is_nearest_line(self.puzzle, here, *delta, k2) implies k2 == k by {
                        lemma_nearest_unique(self.puzzle, here, *delta, k2, k as int);
                    }
                }
                if v.scalar(delta) > 0 {
                    Some(line)
                } else {
                    None
                }
            },
        }
    }
}

/// The amount of motion left, counted so that every step of the tracer
/// lowers it.
pub open spec fn motion_measure(d: Dot, at_dot: bool) -> int {
    2 * d.l1() + if at_dot {
        1int
    } else {
        0int
    }
}

impl<'a> PuzzleSolutionManager<'a> {
    fn has_line_break(&self, line: LineIndex) -> (r: bool)
        ensures
            r == is_broken(self.puzzle, line),
    {
        let entries = &self.puzzle.line_complexity;
        let mut i: usize = 0;
        while i < entries.len()
            invariant
                entries@ == self.puzzle.line_complexity@,
                i <= entries@.len(),
                forall|j: int|
                    0 <= j < i ==> !((#[trigger] entries@[j]).0.same_edge(line) && entries@[j].1
                        == LineComplexity::LineBreak),
            decreases entries@.len() - i,
        {
            let (l, c) = entries[i];
            if l == line && c == LineComplexity::LineBreak {
                return true;
            }
            i += 1;
        }
        false
    }

    /// Length of edge `line`, rounded down.
    fn get_line_length(&self, line: LineIndex) -> (r: i64)
        requires
            self.puzzle.wf(),
            self.puzzle.valid_line(line),
        ensures
            r == crate::geometry::spec_length(line_vector(self.puzzle, line)),
            1 <= r <= 2_000_000,
    {
        let dot1 = self.get_dot(line.0);
        let dot2 = self.get_dot(line.1);
        proof {
            lemma_distinct_nonzero(dot1, dot2);
        }
        let v = dot2.minus(&dot1);
        let r = v.length();
        proof {
            if r == 0 {
                let n2 = v.spec_length2();
                assert(n2 < 1) by (nonlinear_arith)
                    requires
                        r == 0,
                        n2 < (r + 1) * (r + 1),
                ;
            }
        }
        r
    }

    /// Progress along `line` that motion `delta` makes.
    fn get_projection(&self, line: LineIndex, delta: &Dot) -> (r: i64)
        requires
            self.puzzle.wf(),
            self.puzzle.valid_line(line),
            delta.is_vector(),
        ensures
            r == projection(self.puzzle, line, *delta),
            -2_000_000_000_000_000_000 <= r <= 2_000_000_000_000_000_000,
    {
        let dot1 = self.get_dot(line.0);
        let dot2 = self.get_dot(line.1);
        proof {
            lemma_distinct_nonzero(dot1, dot2);
        }
        let e = dot2.minus(&dot1);
        let a = delta.scalar(&e) as i128;
        let num = a * (PROGRESS_SCALE as i128);
        let r = div_trunc(num, e.length2() as i128);
        r as i64
    }

    /// Progress within which an endpoint of `line` counts as reached.
    fn get_leave_margin(&self, line: LineIndex) -> (r: i64)
        requires
            self.puzzle.wf(),
            self.puzzle.valid_line(line),
        ensures
            r == leave_margin(self.puzzle, line),
            0 <= r <= PROGRESS_SCALE / 2,
    {
        let len = self.get_line_length(line);
        let m = (self.puzzle.line_width * PROGRESS_SCALE) / (2 * len);
        if m > PROGRESS_SCALE / 2 {
            PROGRESS_SCALE / 2
        } else {
            m
        }
    }

    /// One move of the cursor by `d`. Returns the motion still to be
    /// applied, when the move crossed onto an edge or onto a node.
    fn step(&mut self, d: Dot) -> (r: Option<Dot>)
        requires
            old(self).inv(),
            old(self).is_solving,
            d.is_vector(),
        ensures
            final(self).inv(),
            final(self).is_solving,
            final(self).puzzle == old(self).puzzle,
            final(self).is_drawing_solution == old(self).is_drawing_solution,
            final(self).dot_path@[0] == old(self).dot_path@[0],
            d.is_zero() ==> *final(self) == *old(self) && r is None,
            r matches Some(d2) ==> d2.is_vector() && motion_measure(d2, final(self).now_at_dot)
                < motion_measure(d, old(self).now_at_dot),
            (final(self).state(), r) == step_spec(old(self).puzzle, old(self).state(), d),
    {
        let ghost s0 = self.state();
        let r = self.step_core(d);
        proof {
            lemma_step_respects_breaks(self.puzzle, s0, d);
        }
        r
    }

    /// The move itself, before its effect on broken edges is shown.
    fn step_core(&mut self, d: Dot) -> (r: Option<Dot>)
        requires
            old(self).inv(),
            old(self).is_solving,
            d.is_vector(),
        ensures
            final(self).path_inv(),
            final(self).dot_path@.len() > 0,
            final(self).dot_path@[0] == old(self).dot_path@[0],
            d.is_zero() ==> *final(self) == *old(self) && r is None,
            !old(self).now_at_dot && !d.is_zero() ==> 0 <= leave_margin(
                old(self).puzzle,
                old(self).line_path@.last(),
            )
                <= PROGRESS_SCALE / 2,
            final(self).is_solving,
            final(self).puzzle == old(self).puzzle,
            final(self).is_drawing_solution == old(self).is_drawing_solution,
            r matches Some(d2) ==> d2.is_vector() && motion_measure(d2, final(self).now_at_dot)
                < motion_measure(d, old(self).now_at_dot),
            (final(self).state(), r) == step_spec(old(self).puzzle, old(self).state(), d),
    {
        if d.x == 0 && d.y == 0 {
            return None;
        }
        proof {
            assert(d.l1() >= 1);
        }
        if self.now_at_dot {
            let new_pos = self.dot_pos.plus(&d);
            let thr = self.puzzle.line_width * DOT_LEAVE_RADIUS;
            assert(0 < thr * thr <= UNIT * UNIT) by (nonlinear_arith)
                requires
                    0 < thr <= UNIT,
            ;
            let inside = if new_pos.x < -VEC_LIMIT || new_pos.x > VEC_LIMIT || new_pos.y < -VEC_LIMIT
                || new_pos.y > VEC_LIMIT {
                proof {
                    assert(new_pos.spec_length2() > leave_radius2(self.puzzle)) by (nonlinear_arith)
                        requires
                            new_pos.x < -VEC_LIMIT || new_pos.x > VEC_LIMIT || new_pos.y < -VEC_LIMIT
                                || new_pos.y > VEC_LIMIT,
                            0 < thr <= UNIT,
                            leave_radius2(self.puzzle) == thr * thr,
                            new_pos.spec_length2() == new_pos.x * new_pos.x + new_pos.y * new_pos.y,
                    ;
                }
                false
            } else {
                new_pos.length2() <= thr * thr
            };
            if inside {
                self.dot_pos = new_pos;
                return None;
            }
            match self.get_near_line_on_dot(&d) {
                None => None,
                Some(line) => {
                    let here = self.last_dot();
                    proof {
                        let k = choose|k: int|
                            is_nearest_line(self.puzzle, here, d, k) && leads_along(
                                self.puzzle,
                                here,
                                d,
                                k,
                            ) && self.puzzle.lines@[k] == line;
                        assert(self.puzzle.valid_line(self.puzzle.lines@[k]));
                        assert forall|k2: int|
                            is_nearest_line(self.puzzle, here, d, k2) implies k2 == k by {
                            lemma_nearest_unique(self.puzzle, here, d, k2, k);
                        }
                    }
                    self.move_to_line(line);
                    self.line_progress = if line.0 == here {
                        0
                    } else {
                        PROGRESS_SCALE
                    };
                    Some(d)
                },
            }
        } else {
            let line = self.last_line_while_at_line();
            let mut proj = self.get_projection(line, &d);
            let margin = self.get_leave_margin(line);
            let p = self.line_progress;
            if self.has_line_break(line) {
                let max_progress = LINE_BREAK_WIDTH - margin;
                if p < PROGRESS_SCALE / 2 {
                    if p + proj > max_progress {
                        proj = max_progress - p;
                    }
                } else {
                    if p + proj < PROGRESS_SCALE - max_progress {
                        proj = PROGRESS_SCALE - max_progress - p;
                    }
                }
            }
            let dot1 = self.get_dot(line.0);
            let dot2 = self.get_dot(line.1);
            if proj == 0 {
                return None;
            }
            if proj > 0 {
                if p + proj > PROGRESS_SCALE - margin {
                    let used = if PROGRESS_SCALE - margin - p >= 1 {
                        PROGRESS_SCALE - margin - p
                    } else {
                        1
                    };
                    let rest = proj - used;
                    self.move_to_dot(line.1);
                    let back = dot1.minus(&dot2);
                    self.dot_pos = back.scale(margin, PROGRESS_SCALE);
                    let d2 = d.scale(rest, proj);
                    proof {
                        crate::geometry::lemma_scale_shrinks(d, rest as int, proj as int);
                    }
                    Some(d2)
                } else {
                    self.line_progress = p + proj;
                    None
                }
            } else {
                if p + proj < margin {
                    let used = if p - margin >= 1 {
                        p - margin
                    } else {
                        1
                    };
                    let size = -proj;
                    let rest = size - used;
                    self.move_to_dot(line.0);
                    let ahead = dot2.minus(&dot1);
                    self.dot_pos = ahead.scale(margin, PROGRESS_SCALE);
                    let d2 = d.scale(rest, size);
                    proof {
                        crate::geometry::lemma_scale_shrinks(d, rest as int, size as int);
                    }
                    Some(d2)
                } else {
                    self.line_progress = p + proj;
                    None
                }
            }
        }
    }
}

impl<'a> PuzzleSolutionManager<'a> {
    /// Moves the cursor by `delta`, committing to edges and nodes as it
    /// crosses them, as many as the motion reaches.
    pub fn update_mouse(&mut self, delta: Dot)
        requires
            old(self).inv(),
            delta.is_vector(),
        ensures
            final(self).inv(),
            final(self).spec_puzzle() == old(self).spec_puzzle(),
            final(self).spec_is_solving() == old(self).spec_is_solving(),
            final(self).spec_is_drawing() == old(self).spec_is_drawing(),
            !old(self).spec_is_solving() || delta.is_zero() ==> *final(self) == *old(self),
            old(self).spec_is_solving() ==> final(self).spec_dot_path()[0] == old(self).spec_dot_path()[0],
            old(self).spec_is_solving() ==> final(self).state() == trace(
                old(self).spec_puzzle(),
                old(self).state(),
                delta,
            ),
    {
        if !self.is_solving || (delta.x == 0 && delta.y == 0) {
            return;
        }
        let ghost start = self.state();
        assert(start == old(self).state());
        let mut next = self.step(delta);
        loop
            invariant
                self.inv(),
                self.is_solving,
                self.puzzle == old(self).puzzle,
                self.is_drawing_solution == old(self).is_drawing_solution,
                self.dot_path@[0] == old(self).dot_path@[0],
                !delta.is_zero(),
                next matches Some(d) ==> d.is_vector(),
                trace(self.puzzle, start, delta) == match next {
                    Some(d) => trace(self.puzzle, self.state(), d),
                    None => self.state(),
                },
            ensures
                self.inv(),
                self.is_solving,
                self.puzzle == old(self).puzzle,
                self.is_drawing_solution == old(self).is_drawing_solution,
                self.dot_path@[0] == old(self).dot_path@[0],
                trace(self.puzzle, start, delta) == self.state(),
            decreases
                match next {
                    Some(d) => motion_measure(d, self.now_at_dot) + 1,
                    None => 0,
                },
        {
            match next {
                None => break,
                Some(d) => {
                    next = self.step(d);
                },
            }
        }
    }

    /// Judges the traced path, then ends the trace: a solution stays on
    /// display, anything else is cleared.
    pub fn finish_trace(&mut self) -> (r: Result<(), SolutionError>)
        requires
            old(self).inv(),
        ensures
            final(self).inv(),
            r == verdict(
                old(self).spec_puzzle(),
                old(self).spec_now_at_dot(),
                old(self).spec_dot_path(),
                old(self).spec_line_path(),
            ),
            !final(self).spec_is_solving(),
            final(self).spec_puzzle() == old(self).spec_puzzle(),
            r is Ok ==> final(self).state() == old(self).state() && final(self).spec_is_drawing()
                == old(self).spec_is_drawing(),
            r is Err ==> final(self).spec_dot_path().len() == 0 && final(self).spec_line_path().len()
                == 0 && !final(self).spec_is_drawing(),
    {
        let r = check_solution(self);
        match r {
            Ok(()) => {
                self.is_solving = false;
            },
            Err(_) => {
                self.clear();
            },
        }
        r
    }

    /// A click: while tracing, it judges and ends the trace; otherwise it
    /// starts a trace at the first start node within reach of `mouse_pos`.
    /// Returns whether a trace is now in progress.
    pub fn click(&mut self, mouse_pos: Dot) -> (r: bool)
        requires
            old(self).inv(),
            old(self).spec_puzzle().wf(),
        ensures
            final(self).inv(),
            r == final(self).spec_is_solving(),
            final(self).spec_puzzle() == old(self).spec_puzzle(),
            old(self).spec_is_solving() ==> !r && {
                let v = verdict(
                    old(self).spec_puzzle(),
                    old(self).spec_now_at_dot(),
                    old(self).spec_dot_path(),
                    old(self).spec_line_path(),
                );
                &&& v is Ok ==> final(self).state() == old(self).state() && final(self).spec_is_drawing()
                    == old(self).spec_is_drawing()
                &&& v is Err ==> final(self).spec_dot_path().len() == 0 && final(self).spec_line_path().len()
                    == 0 && !final(self).spec_is_drawing()
            },
            !old(self).spec_is_solving() ==> {
                let puzzle = old(self).spec_puzzle();
                let starts = puzzle.start_dots@;
                &&& r <==> exists|i: int|
                    0 <= i < starts.len() && #[trigger] captures(puzzle, starts[i], mouse_pos)
                &&& r ==> exists|i: int|
                    0 <= i < starts.len() && #[trigger] captures(puzzle, starts[i], mouse_pos)
                        && (forall|j: int| 0 <= j < i ==> !captures(puzzle, #[trigger] starts[j], mouse_pos))
                        && final(self).spec_dot_path() == seq![starts[i]]
                        && final(self).spec_line_path().len() == 0 && final(self).spec_now_at_dot()
                        && final(self).spec_dot_pos().is_zero() && final(self).spec_is_drawing()
                &&& !r ==> *final(self) == *old(self)
            },
    {
        if self.is_solving {
            let _ = self.finish_trace();
            return false;
        }
        let starts = &self.puzzle.start_dots;
        let mut i: usize = 0;
        while i < starts.len()
            invariant
                starts == &self.puzzle.start_dots,
                self.inv(),
                self.puzzle.wf(),
                *self == *old(self),
                !self.is_solving,
                i <= starts@.len(),
                forall|j: int| 0 <= j < i ==> !captures(self.puzzle, #[trigger] starts@[j], mouse_pos),
            decreases starts@.len() - i,
        {
            let dot_index = starts[i];
            proof {
                assert(starts@[i as int] == dot_index);
                assert(self.puzzle.start_dots@.contains(dot_index));
            }
            if self.captures_exec(dot_index, &mouse_pos) {
                self.start_from(dot_index);
                return true;
            }
            i += 1;
        }
        false
    }

    fn captures_exec(&self, dot: DotIndex, pos: &Dot) -> (r: bool)
        requires
            self.puzzle.wf(),
            self.puzzle.valid_dot(dot),
        ensures
            r == captures(self.puzzle, dot, *pos),
    {
        if !(-COORD_LIMIT <= pos.x && pos.x <= COORD_LIMIT && -COORD_LIMIT <= pos.y && pos.y
            <= COORD_LIMIT) {
            return false;
        }
        let d = self.get_dot(dot).minus(pos);
        d.length2() <= START_DOT_RADIUS * START_DOT_RADIUS
    }
}

/// The two endpoints of edge `l`, as a segment to draw.
pub open spec fn segment(puzzle: &Puzzle, l: LineIndex) -> (Dot, Dot) {
    (puzzle.dot_pos(l.0), puzzle.dot_pos(l.1))
}

/// The point at progress `p` along edge `l`.
pub open spec fn point_at(puzzle: &Puzzle, l: LineIndex, p: int) -> Dot {
    let a = puzzle.dot_pos(l.0);
    let b = puzzle.dot_pos(l.1);
    Dot {
        x: (a.x + trunc_div((b.x - a.x) * p, PROGRESS_SCALE as int)) as i64,
        y: (a.y + trunc_div((b.y - a.y) * p, PROGRESS_SCALE as int)) as i64,
    }
}

/// How far along edge `near` the cursor resting on `here` with offset `pos`
/// is drawn: its projection on the edge, measured from `here`'s end, within
/// the edge.
pub open spec fn lean_progress(puzzle: &Puzzle, near: LineIndex, here: DotIndex, pos: Dot) -> int {
    let p = projection(puzzle, near, pos) + if here == near.1 {
        PROGRESS_SCALE as int
    } else {
        0
    };
    if p < 0 {
        0
    } else if p > PROGRESS_SCALE {
        PROGRESS_SCALE as int
    } else {
        p
    }
}

impl<'a> PuzzleSolutionManager<'a> {
    /// Where the drawn path starts.
    pub fn get_start_dot_dot_draw(&self) -> (r: Dot)
        requires
            self.inv(),
            self.spec_is_drawing(),
        ensures
            r == self.spec_puzzle().dot_pos(self.spec_dot_path()[0]),
    {
        proof {
            assert(self.puzzle.valid_dot(self.dot_path@[0]));
        }
        self.get_dot(self.dot_path[0])
    }

    fn segment_of(&self, l: LineIndex) -> (r: (Dot, Dot))
        requires
            self.puzzle.wf(),
            self.puzzle.valid_line(l),
        ensures
            r == segment(self.puzzle, l),
    {
        (self.get_dot(l.0), self.get_dot(l.1))
    }

    fn point_at_exec(&self, l: LineIndex, p: i64) -> (r: Dot)
        requires
            self.puzzle.wf(),
            self.puzzle.valid_line(l),
            0 <= p <= PROGRESS_SCALE,
        ensures
            r == point_at(self.puzzle, l, p as int),
    {
        self.get_dot(l.0).interp(&self.get_dot(l.1), p, PROGRESS_SCALE)
    }

    /// The segments that draw the trace: every edge taken, with the edge
    /// the cursor is on (or leans toward, when resting on a node) drawn as
    /// far as the cursor has gone.
    pub fn get_lines_to_draw(&self) -> (r: Vec<(Dot, Dot)>)
        requires
            self.inv(),
            self.spec_is_drawing(),
        ensures
            ({
                let puzzle = self.spec_puzzle();
                let lp = self.spec_line_path();
                let last = self.spec_dot_path().last();
                &&& forall|i: int| 0 <= i < lp.len() - 1 ==> r@[i] == segment(puzzle, #[trigger] lp[i])
                &&& !self.spec_now_at_dot() ==> r@.len() == lp.len() && r@.last() == if lp.last().0
                    == last {
                    (puzzle.dot_pos(lp.last().0), point_at(puzzle, lp.last(), self.spec_line_progress()))
                } else {
                    (point_at(puzzle, lp.last(), self.spec_line_progress()), puzzle.dot_pos(lp.last().1))
                }
                &&& self.spec_now_at_dot() ==> (r@.len() == lp.len() || r@.len() == lp.len() + 1)
                &&& self.spec_now_at_dot() && (forall|k: int|
                    is_nearest_line(puzzle, last, self.spec_dot_pos(), k) ==> !leads_along(
                        puzzle,
                        last,
                        self.spec_dot_pos(),
                        k,
                    )) ==> r@.len() == lp.len() && forall|i: int|
                    0 <= i < lp.len() ==> r@[i] == segment(puzzle, #[trigger] lp[i])
                &&& forall|k: int|
                    #![trigger is_nearest_line(puzzle, last, self.spec_dot_pos(), k)]
                    self.spec_now_at_dot() && is_nearest_line(puzzle, last, self.spec_dot_pos(), k)
                        && leads_along(puzzle, last, self.spec_dot_pos(), k) ==> {
                        let near = puzzle.lines@[k];
                        let pt = point_at(
                            puzzle,
                            near,
                            lean_progress(puzzle, near, last, self.spec_dot_pos()),
                        );
                        let back = lp.len() > 0 && lp.last().same_edge(near);
                        &&& back ==> r@.len() == lp.len() && r@.last() == if last == near.1 {
                            (puzzle.dot_pos(near.0), pt)
                        } else {
                            (pt, puzzle.dot_pos(near.1))
                        }
                        &&& !back ==> r@.len() == lp.len() + 1 && (lp.len() > 0 ==> r@[lp.len() as int
                            - 1] == segment(puzzle, lp[lp.len() - 1])) && r@.last() == if last == near.0 {
                            (puzzle.dot_pos(near.0), pt)
                        } else {
                            (pt, puzzle.dot_pos(near.1))
                        }
                    }
            }),
    {
        let n = self.line_path.len();
        let mut lines: Vec<(Dot, Dot)> = Vec::new();
        let committed = if self.now_at_dot {
            n
        } else {
            n - 1
        };
        let mut i: usize = 0;
        while i < committed
            invariant
                self.inv(),
                self.dot_path@.len() > 0,
                n == self.line_path@.len(),
                committed <= n,
                i <= committed,
                lines@.len() == i,
                forall|j: int| 0 <= j < i ==> lines@[j] == segment(self.puzzle, #[trigger] self.line_path@[j]),
            decreases committed - i,
        {
            proof {
                assert(self.puzzle.valid_line(self.line_path@[i as int]));
            }
            lines.push(self.segment_of(self.line_path[i]));
            i += 1;
        }
        let last_dot = self.last_dot();
        if self.now_at_dot {
            if let Some(near) = self.get_near_line_on_dot(&self.dot_pos) {
                proof {
                    let k = choose|k: int|
                        is_nearest_line(self.puzzle, last_dot, self.dot_pos, k) && leads_along(
                            self.puzzle,
                            last_dot,
                            self.dot_pos,
                            k,
                        ) && self.puzzle.lines@[k] == near;
                    assert(self.puzzle.valid_line(self.puzzle.lines@[k]));
                    assert(self.spec_puzzle() == self.puzzle);
                    assert(self.spec_dot_path().last() == last_dot);
                    assert(self.spec_dot_pos() == self.dot_pos);
                    assert(is_nearest_line(self.spec_puzzle(), self.spec_dot_path().last(), self.spec_dot_pos(), k));
                    assert(leads_along(self.spec_puzzle(), self.spec_dot_path().last(), self.spec_dot_pos(), k));
                    assert forall|k2: int|
                        is_nearest_line(self.puzzle, last_dot, self.dot_pos, k2) implies k2 == k by {
                        lemma_nearest_unique(self.puzzle, last_dot, self.dot_pos, k2, k);
                    }
                }
                let mut proj = self.get_projection(near, &self.dot_pos);
                if last_dot == near.1 {
                    proj = proj + PROGRESS_SCALE;
                }
                let p = if proj < 0 {
                    0
                } else if proj > PROGRESS_SCALE {
                    PROGRESS_SCALE
                } else {
                    proj
                };
                let (dot1, dot2) = self.segment_of(near);
                let dot_proj = self.point_at_exec(near, p);
                if n > 0 && self.line_path[n - 1] == near {
                    lines.pop();
                    if last_dot == near.1 {
                        lines.push((dot1, dot_proj));
                    } else {
                        lines.push((dot_proj, dot2));
                    }
                } else if last_dot == near.0 {
                    lines.push((dot1, dot_proj));
                } else {
                    lines.push((dot_proj, dot2));
                }
            }
            lines
        } else {
            let last_line = self.line_path[n - 1];
            proof {
                assert(self.puzzle.valid_line(self.line_path@[n - 1]));
            }
            let (dot1, dot2) = self.segment_of(last_line);
            let dot_middle = self.point_at_exec(last_line, self.line_progress);
            if last_line.0 == last_dot {
                lines.push((dot1, dot_middle));
            } else {
                lines.push((dot_middle, dot2));
            }
            lines
        }
    }
}

/// A click at `pos` lies within reach of node `dot`.
pub open spec fn captures(puzzle: &Puzzle, dot: DotIndex, pos: Dot) -> bool {
    pos.within(COORD_LIMIT as int) && vector(pos, puzzle.dot_pos(dot)).spec_length2() <= START_DOT_RADIUS
        * START_DOT_RADIUS
}

/// Judges the path that `solution` has traced so far.
pub fn check_solution(solution: &PuzzleSolutionManager) -> (r: Result<(), SolutionError>)
    requires
        solution.inv(),
    ensures
        r == verdict(
            solution.spec_puzzle(),
            solution.spec_now_at_dot(),
            solution.spec_dot_path(),
            solution.spec_line_path(),
        ),
{
    if !solution.now_at_dot() || solution.dot_path().len() == 0 {
        return Err(SolutionError::Incomplete);
    }
    check_path(solution.puzzle(), solution.now_at_dot(), solution.dot_path(), solution.line_path())
}

/// No broken edge has been crossed: every edge of the walk but the one the
/// cursor is on is unbroken, and on a broken edge the cursor stays on the
/// side of the node it came from, short of the gap.
pub open spec fn respects_breaks(puzzle: &Puzzle, s: TraceState) -> bool {
    &&& forall|i: int| 0 <= i < s.dot_path.len() - 1 ==> !is_broken(puzzle, #[trigger] s.line_path[i])
    &&& !s.at_dot && is_broken(puzzle, s.line_path.last()) ==> if s.dot_path.last() == s.line_path.last().0 {
        s.progress < PROGRESS_SCALE / 2
    } else {
        s.progress >= PROGRESS_SCALE / 2
    }
}

/// The tracer's state, as the contracts see it.
pub struct TraceState {
    pub dot_path: Seq<DotIndex>,
    pub line_path: Seq<LineIndex>,
    pub at_dot: bool,
    pub dot_pos: Dot,
    pub progress: int,
}

/// `v` scaled by `num / den`, each component rounded toward zero.
pub open spec fn scale_spec(v: Dot, num: int, den: int) -> Dot {
    Dot { x: trunc_div(v.x * num, den) as i64, y: trunc_div(v.y * num, den) as i64 }
}

/// At most one edge at a node is nearest in angle to a motion.
pub proof fn lemma_nearest_unique(puzzle: &Puzzle, here: DotIndex, d: Dot, k1: int, k2: int)
    requires
        is_nearest_line(puzzle, here, d, k1),
        is_nearest_line(puzzle, here, d, k2),
    ensures
        k1 == k2,
{
    if k1 < k2 {
        assert(incident(puzzle, here, k1));
    } else if k2 < k1 {
        assert(incident(puzzle, here, k2));
    }
}

/// Leaving a node: while the offset stays within the leave radius the cursor
/// stays on the node; once it passes the radius, the trace enters the edge
/// nearest in angle to the motion when that edge leads along it, and never
/// another edge.
pub proof fn lemma_leave_radius(puzzle: &Puzzle, s: TraceState, d: Dot, k: int)
    requires
        s.at_dot,
        !d.is_zero(),
        is_nearest_line(puzzle, s.dot_path.last(), d, k),
    ensures
        ({
            let (s2, next) = step_spec(puzzle, s, d);
            let here = s.dot_path.last();
            let inside = plus_spec(s.dot_pos, d).spec_length2() <= leave_radius2(puzzle);
            &&& inside ==> s2.at_dot && s2.dot_path == s.dot_path && s2.line_path == s.line_path
            &&& !inside && leads_along(puzzle, here, d, k) ==> !s2.at_dot && (s2.dot_path, s2.line_path)
                == enter_line(s.dot_path, s.line_path, puzzle.lines@[k])
            &&& !inside && !leads_along(puzzle, here, d, k) ==> s2 == s
        }),
{
    let here = s.dot_path.last();
    if exists|k2: int| is_nearest_line(puzzle, here, d, k2) && leads_along(puzzle, here, d, k2) {
        let k2 = choose|k2: int| is_nearest_line(puzzle, here, d, k2) && leads_along(puzzle, here, d, k2);
        lemma_nearest_unique(puzzle, here, d, k, k2);
    }
}

/// A move never crosses a broken edge: the gap stops the cursor short of
/// the far node, so it can only come back to the node it left.
pub proof fn lemma_step_respects_breaks(puzzle: &Puzzle, s: TraceState, d: Dot)
    requires
        path_consistent(s.dot_path, s.line_path, s.at_dot),
        respects_breaks(puzzle, s),
        !s.at_dot && !d.is_zero() ==> 0 <= leave_margin(puzzle, s.line_path.last()) <= PROGRESS_SCALE
            / 2,
        0 <= s.progress <= PROGRESS_SCALE,
    ensures
        respects_breaks(puzzle, step_spec(puzzle, s, d).0),
{
    let s2 = step_spec(puzzle, s, d).0;
    let dp = s.dot_path;
    let lp = s.line_path;
    let n = dp.len();
    if d.is_zero() {
    } else if s.at_dot {
        let here = dp.last();
        let new_pos = plus_spec(s.dot_pos, d);
        if new_pos.spec_length2() <= leave_radius2(puzzle) {
        } else if exists|k: int| is_nearest_line(puzzle, here, d, k) && leads_along(puzzle, here, d, k) {
            let k = choose|k: int| is_nearest_line(puzzle, here, d, k) && leads_along(puzzle, here, d, k);
            let line = puzzle.lines@[k];
            assert(line.has(here));
            if lp.len() > 0 && lp.last().same_edge(line) {
                assert(s2.dot_path == dp.drop_last());
                assert(s2.line_path == lp);
                assert(!is_broken(puzzle, lp[n - 2]));
                assert forall|i: int| 0 <= i < s2.dot_path.len() - 1 implies !is_broken(
                    puzzle,
                    #[trigger] s2.line_path[i],
                ) by {
                    assert(i < n - 1);
                }
            } else {
                assert(s2.line_path == lp.push(line));
                assert forall|i: int| 0 <= i < s2.dot_path.len() - 1 implies !is_broken(
                    puzzle,
                    #[trigger] s2.line_path[i],
                ) by {
                    assert(s2.line_path[i] == lp[i]);
                }
            }
        }
    } else {
        let line = lp.last();
        let p = s.progress;
        let inc = line_step(puzzle, line, p, d);
        let m = leave_margin(puzzle, line);
        assert(line.has(dp.last()));
        assert(lp.len() == n);
        if inc == 0 {
        } else if inc > 0 && p + inc > PROGRESS_SCALE - m {
            if dp.last() == line.1 {
                assert(s2.line_path == lp.drop_last());
                assert(s2.dot_path == dp);
                assert forall|i: int| 0 <= i < s2.dot_path.len() - 1 implies !is_broken(
                    puzzle,
                    #[trigger] s2.line_path[i],
                ) by {
                    assert(s2.line_path[i] == lp[i]);
                }
            } else {
                assert(dp.last() == line.0);
                assert(!is_broken(puzzle, line));
                assert(s2.line_path == lp);
                assert forall|i: int| 0 <= i < s2.dot_path.len() - 1 implies !is_broken(
                    puzzle,
                    #[trigger] s2.line_path[i],
                ) by {
                    if i < n - 1 {
                    } else {
                        assert(lp[i] == line);
                    }
                }
            }
        } else if inc < 0 && p + inc < m {
            if dp.last() == line.0 {
                assert(s2.line_path == lp.drop_last());
                assert(s2.dot_path == dp);
                assert forall|i: int| 0 <= i < s2.dot_path.len() - 1 implies !is_broken(
                    puzzle,
                    #[trigger] s2.line_path[i],
                ) by {
                    assert(s2.line_path[i] == lp[i]);
                }
            } else {
                assert(dp.last() == line.1);
                assert(!is_broken(puzzle, line));
                assert(s2.line_path == lp);
                assert forall|i: int| 0 <= i < s2.dot_path.len() - 1 implies !is_broken(
                    puzzle,
                    #[trigger] s2.line_path[i],
                ) by {
                    if i < n - 1 {
                    } else {
                        assert(lp[i] == line);
                    }
                }
            }
        }
    }
}

/// One move of the tracer by motion `d`: the next state, and the motion left
/// over when the move crossed onto an edge or a node.
///
/// Resting on a node, the cursor drifts within the leave radius; beyond it,
/// it commits to the edge nearest in angle to `d` if that edge leads along
/// `d` (and carries `d` on with it), or else stays put. On an edge, it
/// advances by the projection of `d`, stopped at the gap of a broken edge;
/// crossing into the margin of an endpoint, it arrives at that node, offset
/// by the margin, and carries on with the unused share of `d`.
pub open spec fn step_spec(puzzle: &Puzzle, s: TraceState, d: Dot) -> (TraceState, Option<Dot>) {
    if d.is_zero() {
        (s, None)
    } else if s.at_dot {
        let here = s.dot_path.last();
        let new_pos = plus_spec(s.dot_pos, d);
        if new_pos.spec_length2() <= leave_radius2(puzzle) {
            (TraceState { dot_pos: new_pos, ..s }, None)
        } else if exists|k: int| is_nearest_line(puzzle, here, d, k) && leads_along(puzzle, here, d, k) {
            let k = choose|k: int| is_nearest_line(puzzle, here, d, k) && leads_along(puzzle, here, d, k);
            let line = puzzle.lines@[k];
            let paths = enter_line(s.dot_path, s.line_path, line);
            (
                TraceState {
                    dot_path: paths.0,
                    line_path: paths.1,
                    at_dot: false,
                    progress: if line.0 == here {
                        0
                    } else {
                        PROGRESS_SCALE as int
                    },
                    ..s
                },
                Some(d),
            )
        } else {
            (s, None)
        }
    } else {
        let line = s.line_path.last();
        let p = s.progress;
        let inc = line_step(puzzle, line, p, d);
        let m = leave_margin(puzzle, line);
        let e = line_vector(puzzle, line);
        if inc == 0 {
            (s, None)
        } else if inc > 0 && p + inc > PROGRESS_SCALE - m {
            // The node is reached at the edge of its margin; the share of the
            // increment past that point carries on. Both directions use up at
            // least one step, so the motion left always shrinks.
            let used = if PROGRESS_SCALE - m - p >= 1 {
                PROGRESS_SCALE - m - p
            } else {
                1
            };
            let paths = arrive_dot(s.dot_path, s.line_path, line.1);
            (
                TraceState {
                    dot_path: paths.0,
                    line_path: paths.1,
                    at_dot: true,
                    dot_pos: scale_spec(vector(e, Dot { x: 0, y: 0 }), m, PROGRESS_SCALE as int),
                    ..s
                },
                Some(scale_spec(d, inc - used, inc)),
            )
        } else if inc < 0 && p + inc < m {
            let used = if p - m >= 1 {
                p - m
            } else {
                1
            };
            let rest = -inc - used;
            let paths = arrive_dot(s.dot_path, s.line_path, line.0);
            (
                TraceState {
                    dot_path: paths.0,
                    line_path: paths.1,
                    at_dot: true,
                    dot_pos: scale_spec(e, m, PROGRESS_SCALE as int),
                    ..s
                },
                Some(scale_spec(d, rest, -inc)),
            )
        } else {
            (TraceState { progress: p + inc, ..s }, None)
        }
    }
}

/// The state reached from `s` by motion `d`, one move after another until
/// the motion is used up.
pub open spec fn trace(puzzle: &Puzzle, s: TraceState, d: Dot) -> TraceState
    decreases motion_measure(d, s.at_dot),
{
    let (s2, next) = step_spec(puzzle, s, d);
    match next {
        None => s2,
        Some(d2) => if motion_measure(d2, s2.at_dot) < motion_measure(d, s.at_dot) {
            trace(puzzle, s2, d2)
        } else {
            s2
        },
    }
}

} // verus!
