use vstd::prelude::*;
use crate::geometry::{Dot, COORD_LIMIT, UNIT};

verus! {

/// Handle of a node of a puzzle.
#[derive(Debug, Clone, Copy, PartialEq, Eq, Hash, Structural)]
pub struct DotIndex(pub u16);

/// Handle of a face (region cell) of a puzzle.
#[derive(Debug, Clone, Copy, PartialEq, Eq, Hash, Structural)]
pub struct PaneIndex(pub u16);

/// An edge between two nodes. Two values name the same edge when they have
/// the same endpoints, in either order.
#[derive(Debug, Clone, Copy)]
pub struct LineIndex(pub DotIndex, pub DotIndex);

impl LineIndex {
    pub open spec fn has(self, dot: DotIndex) -> bool {
        self.0 == dot || self.1 == dot
    }

    /// Both values join the same two nodes.
    pub open spec fn same_edge(self, o: LineIndex) -> bool {
        (self.0 == o.0 && self.1 == o.1) || (self.0 == o.1 && self.1 == o.0)
    }

    /// The endpoint that is not `dot`.
    pub open spec fn spec_other(self, dot: DotIndex) -> DotIndex {
        if self.0 == dot {
            self.1
        } else {
            self.0
        }
    }

    pub fn contains(&self, dot: DotIndex) -> (r: bool)
        ensures
            r == self.has(dot),
    {
        self.0 == dot || self.1 == dot
    }

    pub fn get0(&self) -> (r: DotIndex)
        ensures
            r == self.0,
    {
        self.0
    }

    pub fn get1(&self) -> (r: DotIndex)
        ensures
            r == self.1,
    {
        self.1
    }

    /// The endpoint across the edge from `dot`.
    pub fn other(&self, dot: DotIndex) -> (r: DotIndex)
        ensures
            r == self.spec_other(dot),
    {
        if self.0 == dot {
            self.1
        } else {
            self.0
        }
    }
}

impl PartialEq for LineIndex {
    fn eq(&self, o: &LineIndex) -> (r: bool)
        ensures
            r == self.same_edge(*o),
    {
        (self.0 == o.0 && self.1 == o.1) || (self.0 == o.1 && self.1 == o.0)
    }
}

impl vstd::std_specs::cmp::PartialEqSpecImpl for LineIndex {
    open spec fn obeys_eq_spec() -> bool {
        true
    }

    open spec fn eq_spec(&self, o: &LineIndex) -> bool {
        self.same_edge(*o)
    }
}

/// A constraint on a node.
#[derive(Debug, Clone, Copy, PartialEq, Eq, Hash, Structural)]
pub enum DotComplexity {
    /// The path must visit the node.
    BlackHexagon,
}

/// A constraint on an edge.
#[derive(Debug, Clone, Copy, PartialEq, Eq, Hash, Structural)]
pub enum LineComplexity {
    /// The path must traverse the edge.
    BlackHexagon,
    /// The edge is broken in its middle: the path may not traverse it.
    LineBreak,
}

#[derive(Debug, Clone, Copy, PartialEq, Eq, Hash, Structural)]
pub enum ComplexityColor {
    Black,
    White,
}

/// A constraint on a face.
#[derive(Debug, Clone, Copy, PartialEq, Eq, Hash, Structural)]
pub enum PaneComplexity {
    /// The face's region may hold no square of another color.
    Square(ComplexityColor),
}

/// An opaque RGB color, used only for drawing.
#[derive(Debug, Clone, Copy, PartialEq, Eq, Structural)]
pub struct Rgb(pub u8, pub u8, pub u8);

/// A puzzle: a graph of nodes and edges, the faces between the edges with
/// their adjacency, the ends a path may start and finish at, and sparse
/// constraint lists (an absent key means no constraint).
pub struct Puzzle {
    pub dots: Vec<Dot>,
    pub lines: Vec<LineIndex>,
    /// Centre of each face.
    pub panes: Vec<Dot>,
    pub cell_size: i64,
    /// For each face, the (separating edge, neighbouring face) pairs.
    pub pane_nears: Vec<Vec<(LineIndex, PaneIndex)>>,
    pub start_dots: Vec<DotIndex>,
    pub end_dots: Vec<DotIndex>,
    pub dot_complexity: Vec<(DotIndex, DotComplexity)>,
    pub line_complexity: Vec<(LineIndex, LineComplexity)>,
    pub pane_complexity: Vec<(PaneIndex, PaneComplexity)>,
    /// Drawn width of an edge, also the scale of the tracer's thresholds.
    pub line_width: i64,
    pub background_color: Rgb,
    pub puzzle_color: Rgb,
    pub solution_color: Rgb,
}

pub open spec fn dot_keys_unique(list: Seq<(DotIndex, DotComplexity)>) -> bool {
    forall|i: int, j: int| 0 <= i < j < list.len() ==> (#[trigger] list[i]).0 != (#[trigger] list[j]).0
}

/// No two entries name the same edge, in either order.
pub open spec fn line_keys_unique(list: Seq<(LineIndex, LineComplexity)>) -> bool {
    forall|i: int, j: int|
        0 <= i < j < list.len() ==> !(#[trigger] list[i]).0.same_edge((#[trigger] list[j]).0)
}

pub open spec fn pane_keys_unique(list: Seq<(PaneIndex, PaneComplexity)>) -> bool {
    forall|i: int, j: int| 0 <= i < j < list.len() ==> (#[trigger] list[i]).0 != (#[trigger] list[j]).0
}

impl Puzzle {
    pub open spec fn valid_dot(&self, d: DotIndex) -> bool {
        (d.0 as int) < self.dots@.len()
    }

    pub open spec fn dot_pos(&self, d: DotIndex) -> Dot {
        self.dots@[d.0 as int]
    }

    /// Both endpoints exist and lie at different places.
    pub open spec fn valid_line(&self, l: LineIndex) -> bool {
        self.valid_dot(l.0) && self.valid_dot(l.1) && self.dot_pos(l.0) != self.dot_pos(l.1)
    }

    pub open spec fn pane_count(&self) -> int {
        self.pane_nears@.len() as int
    }

    pub open spec fn near(&self, p: int, k: int) -> (LineIndex, PaneIndex) {
        self.pane_nears@[p]@[k]
    }

    /// Face `q` lists face `p` across the same edge `e`.
    pub open spec fn lists_back(&self, q: int, e: LineIndex, p: int) -> bool {
        exists|j: int|
            0 <= j < self.pane_nears@[q]@.len() && (#[trigger] self.near(q, j)).1.0 == p
                && self.near(q, j).0.same_edge(e)
    }

    pub open spec fn wf_dots(&self) -> bool {
        &&& self.dots@.len() <= 0xffff
        &&& forall|i: int| 0 <= i < self.dots@.len() ==> (#[trigger] self.dots@[i]).within(
            COORD_LIMIT as int,
        )
        &&& self.panes@.len() <= 0xffff
        &&& forall|i: int| 0 <= i < self.panes@.len() ==> (#[trigger] self.panes@[i]).within(
            COORD_LIMIT as int,
        )
        &&& 0 <= self.cell_size <= COORD_LIMIT
    }

    pub open spec fn wf_lines(&self) -> bool {
        forall|i: int| 0 <= i < self.lines@.len() ==> self.valid_line(#[trigger] self.lines@[i])
    }

    pub open spec fn wf_panes(&self) -> bool {
        &&& self.pane_nears@.len() <= 0xffff
        &&& forall|p: int, k: int|
            0 <= p < self.pane_count() && 0 <= k < self.pane_nears@[p]@.len() ==> (
            #[trigger] self.near(p, k)).1.0 < self.pane_count()
        &&& forall|p: int, k: int|
            0 <= p < self.pane_count() && 0 <= k < self.pane_nears@[p]@.len() ==> self.lists_back(
                #[trigger] self.near(p, k).1.0 as int,
                self.near(p, k).0,
                p,
            )
    }

    pub open spec fn wf_ends(&self) -> bool {
        &&& forall|i: int|
            0 <= i < self.start_dots@.len() ==> self.valid_dot(#[trigger] self.start_dots@[i])
        &&& forall|i: int|
            0 <= i < self.end_dots@.len() ==> self.valid_dot(#[trigger] self.end_dots@[i])
        &&& forall|i: int|
            0 <= i < self.pane_complexity@.len() ==> ((#[trigger] self.pane_complexity@[i]).0.0
                as int) < self.pane_count()
        &&& 0 < self.line_width <= UNIT
    }

    /// Each constraint list holds at most one entry per node, edge or face.
    pub open spec fn wf_keys(&self) -> bool {
        &&& dot_keys_unique(self.dot_complexity@)
        &&& line_keys_unique(self.line_complexity@)
        &&& pane_keys_unique(self.pane_complexity@)
    }

    /// The puzzle is consistent: indices lie in range, coordinates of nodes
    /// and face centres in bounds, edges have two distinct endpoints, face
    /// adjacency is symmetric (if `p` lists `(e, q)` then `q` lists `(e, p)`),
    /// and each constraint list has unique keys.
    pub open spec fn wf(&self) -> bool {
        &&& self.wf_dots()
        &&& self.wf_lines()
        &&& self.wf_panes()
        &&& self.wf_ends()
        &&& self.wf_keys()
    }
}

impl Puzzle {
    fn dots_ok(&self) -> (r: bool)
        ensures
            r == self.wf_dots(),
    {
        if self.dots.len() > 0xffff {
            return false;
        }
        let mut i: usize = 0;
        while i < self.dots.len()
            invariant
                i <= self.dots@.len(),
                forall|j: int| 0 <= j < i ==> (#[trigger] self.dots@[j]).within(COORD_LIMIT as int),
            decreases self.dots@.len() - i,
        {
            let d = self.dots[i];
            if d.x < -COORD_LIMIT || d.x > COORD_LIMIT || d.y < -COORD_LIMIT || d.y > COORD_LIMIT {
                return false;
            }
            i += 1;
        }
        if self.panes.len() > 0xffff {
            return false;
        }
        let mut i: usize = 0;
        while i < self.panes.len()
            invariant
                self.dots@.len() <= 0xffff,
                forall|j: int| 0 <= j < self.dots@.len() ==> (#[trigger] self.dots@[j]).within(COORD_LIMIT as int),
                i <= self.panes@.len(),
                forall|j: int| 0 <= j < i ==> (#[trigger] self.panes@[j]).within(COORD_LIMIT as int),
            decreases self.panes@.len() - i,
        {
            let d = self.panes[i];
            if d.x < -COORD_LIMIT || d.x > COORD_LIMIT || d.y < -COORD_LIMIT || d.y > COORD_LIMIT {
                return false;
            }
            i += 1;
        }
        0 <= self.cell_size && self.cell_size <= COORD_LIMIT
    }

    fn lines_ok(&self) -> (r: bool)
        ensures
            r == self.wf_lines(),
    {
        let n = self.dots.len();
        let mut i: usize = 0;
        while i < self.lines.len()
            invariant
                n == self.dots@.len(),
                i <= self.lines@.len(),
                forall|j: int| 0 <= j < i ==> self.valid_line(#[trigger] self.lines@[j]),
            decreases self.lines@.len() - i,
        {
            let l = self.lines[i];
            if l.0.0 as usize >= n || l.1.0 as usize >= n {
                return false;
            }
            if self.dots[l.0.0 as usize] == self.dots[l.1.0 as usize] {
                return false;
            }
            i += 1;
        }
        true
    }

    /// Whether face `q` lists face `p` across edge `e`.
    fn lists_back_exec(&self, q: usize, e: LineIndex, p: usize) -> (r: bool)
        requires
            q < self.pane_nears@.len(),
        ensures
            r == self.lists_back(q as int, e, p as int),
    {
        let near = &self.pane_nears[q];
        let mut j: usize = 0;
        while j < near.len()
            invariant
                near@ == self.pane_nears@[q as int]@,
                j <= near@.len(),
                forall|j2: int|
                    0 <= j2 < j ==> !((#[trigger] self.near(q as int, j2)).1.0 == p && self.near(
                        q as int,
                        j2,
                    ).0.same_edge(e)),
            decreases near@.len() - j,
        {
            let (l, pane) = near[j];
            proof {
                assert(self.near(q as int, j as int) == (l, pane));
            }
            if pane.0 as usize == p && l == e {
                return true;
            }
            j += 1;
        }
        false
    }

    fn panes_ok(&self) -> (r: bool)
        ensures
            r == self.wf_panes(),
    {
        let n = self.pane_nears.len();
        if n > 0xffff {
            return false;
        }
        let mut p: usize = 0;
        while p < n
            invariant
                n == self.pane_count(),
                n <= 0xffff,
                p <= n,
                forall|earlier: int, k: int|
                    0 <= earlier < p && 0 <= k < self.pane_nears@[earlier]@.len() ==> (#[trigger] self.near(
                        earlier,
                        k,
                    )).1.0 < n && self.lists_back(self.near(earlier, k).1.0 as int, self.near(earlier, k).0, earlier),
            decreases n - p,
        {
            let near = &self.pane_nears[p];
            let mut k: usize = 0;
            while k < near.len()
                invariant
                    n == self.pane_count(),
                    p < n,
                    near@ == self.pane_nears@[p as int]@,
                    k <= near@.len(),
                    forall|earlier: int, k2: int|
                        0 <= earlier < p && 0 <= k2 < self.pane_nears@[earlier]@.len() ==> (
                        #[trigger] self.near(earlier, k2)).1.0 < n && self.lists_back(
                            self.near(earlier, k2).1.0 as int,
                            self.near(earlier, k2).0,
                            earlier,
                        ),
                    forall|k2: int|
                        0 <= k2 < k ==> (#[trigger] self.near(p as int, k2)).1.0 < n
                            && self.lists_back(self.near(p as int, k2).1.0 as int, self.near(p as int, k2).0, p as int),
                decreases near@.len() - k,
            {
                let (l, q) = near[k];
                proof {
                    assert(self.near(p as int, k as int) == (l, q));
                }
                if q.0 as usize >= n {
                    return false;
                }
                if !self.lists_back_exec(q.0 as usize, l, p) {
                    return false;
                }
                k += 1;
            }
            p += 1;
        }
        true
    }

    fn ends_ok(&self) -> (r: bool)
        ensures
            r == self.wf_ends(),
    {
        let n = self.dots.len();
        let mut i: usize = 0;
        while i < self.start_dots.len()
            invariant
                n == self.dots@.len(),
                i <= self.start_dots@.len(),
                forall|j: int| 0 <= j < i ==> self.valid_dot(#[trigger] self.start_dots@[j]),
            decreases self.start_dots@.len() - i,
        {
            if self.start_dots[i].0 as usize >= n {
                return false;
            }
            i += 1;
        }
        let mut i: usize = 0;
        while i < self.end_dots.len()
            invariant
                n == self.dots@.len(),
                i <= self.end_dots@.len(),
                forall|j: int| 0 <= j < i ==> self.valid_dot(#[trigger] self.end_dots@[j]),
            decreases self.end_dots@.len() - i,
        {
            if self.end_dots[i].0 as usize >= n {
                return false;
            }
            i += 1;
        }
        let m = self.pane_nears.len();
        let mut i: usize = 0;
        while i < self.pane_complexity.len()
            invariant
                m == self.pane_count(),
                i <= self.pane_complexity@.len(),
                forall|j: int|
                    0 <= j < i ==> ((#[trigger] self.pane_complexity@[j]).0.0 as int) < m,
            decreases self.pane_complexity@.len() - i,
        {
            if self.pane_complexity[i].0.0 as usize >= m {
                return false;
            }
            i += 1;
        }
        0 < self.line_width && self.line_width <= UNIT
    }

    fn keys_ok(&self) -> (r: bool)
        ensures
            r == self.wf_keys(),
    {
        let d = &self.dot_complexity;
        let mut i: usize = 0;
        while i < d.len()
            invariant
                d@ == self.dot_complexity@,
                i <= d@.len(),
                forall|a: int, b: int| 0 <= a < b < d@.len() && a < i ==> (#[trigger] d@[a]).0 != (#[trigger] d@[b]).0,
            decreases d@.len() - i,
        {
            let mut j: usize = i + 1;
            while j < d.len()
                invariant
                    d@ == self.dot_complexity@,
                    i < d@.len(),
                    i < j <= d@.len(),
                    forall|a: int, b: int| 0 <= a < b < d@.len() && a < i ==> (#[trigger] d@[a]).0 != (#[trigger] d@[b]).0,
                    forall|b: int| i < b < j ==> d@[i as int].0 != (#[trigger] d@[b]).0,
                decreases d@.len() - j,
            {
                if d[i].0 == d[j].0 {
                    return false;
                }
                j += 1;
            }
            i += 1;
        }
        let l = &self.line_complexity;
        let mut i: usize = 0;
        while i < l.len()
            invariant
                dot_keys_unique(self.dot_complexity@),
                l@ == self.line_complexity@,
                i <= l@.len(),
                forall|a: int, b: int| 0 <= a < b < l@.len() && a < i ==> !(#[trigger] l@[a]).0.same_edge((#[trigger] l@[b]).0),
            decreases l@.len() - i,
        {
            let mut j: usize = i + 1;
            while j < l.len()
                invariant
                    l@ == self.line_complexity@,
                    i < l@.len(),
                    i < j <= l@.len(),
                    forall|a: int, b: int| 0 <= a < b < l@.len() && a < i ==> !(#[trigger] l@[a]).0.same_edge((#[trigger] l@[b]).0),
                    forall|b: int| i < b < j ==> !l@[i as int].0.same_edge((#[trigger] l@[b]).0),
                decreases l@.len() - j,
            {
                if l[i].0 == l[j].0 {
                    return false;
                }
                j += 1;
            }
            i += 1;
        }
        let q = &self.pane_complexity;
        let mut i: usize = 0;
        while i < q.len()
            invariant
                dot_keys_unique(self.dot_complexity@),
                line_keys_unique(self.line_complexity@),
                q@ == self.pane_complexity@,
                i <= q@.len(),
                forall|a: int, b: int| 0 <= a < b < q@.len() && a < i ==> (#[trigger] q@[a]).0 != (#[trigger] q@[b]).0,
            decreases q@.len() - i,
        {
            let mut j: usize = i + 1;
            while j < q.len()
                invariant
                    q@ == self.pane_complexity@,
                    i < q@.len(),
                    i < j <= q@.len(),
                    forall|a: int, b: int| 0 <= a < b < q@.len() && a < i ==> (#[trigger] q@[a]).0 != (#[trigger] q@[b]).0,
                    forall|b: int| i < b < j ==> q@[i as int].0 != (#[trigger] q@[b]).0,
                decreases q@.len() - j,
            {
                if q[i].0 == q[j].0 {
                    return false;
                }
                j += 1;
            }
            i += 1;
        }
        true
    }

    /// Checks every condition of `wf`.
    pub fn is_well_formed(&self) -> (r: bool)
        ensures
            r == self.wf(),
    {
        self.dots_ok() && self.lines_ok() && self.panes_ok() && self.ends_ok() && self.keys_ok()
    }
}

/// Nodes per side of the default grid.
pub const GRID_SIZE: usize = 5;

/// Faces per side of the default grid.
pub const PANE_SIDE: usize = 4;

/// Spacing of the default grid: the grid and a margin of one cell on each
/// side fill the unit square.
pub const CELL_SIZE: i64 = 20_000;

/// Drawn width of an edge of the default puzzle (0.035 of the unit square).
pub const DEFAULT_LINE_WIDTH: i64 = 4_200;

/// Position of node `i` (column `i / 5`, row `i % 5`) of the default grid.
pub open spec fn grid_pos(i: int) -> Dot {
    Dot { x: ((1 + i / 5) * CELL_SIZE) as i64, y: ((1 + i % 5) * CELL_SIZE) as i64 }
}

/// The edge from node (x, y) to node (x + 1, y) of the default grid.
pub open spec fn hline(x: int, y: int) -> LineIndex {
    LineIndex(DotIndex((x * 5 + y) as u16), DotIndex(((x + 1) * 5 + y) as u16))
}

/// The edge from node (x, y) to node (x, y + 1) of the default grid.
pub open spec fn vline(x: int, y: int) -> LineIndex {
    LineIndex(DotIndex((x * 5 + y) as u16), DotIndex((x * 5 + y + 1) as u16))
}

/// Edge `j` of the default puzzle: the rows of horizontal edges, then the
/// columns of vertical edges, then the edge to the end node.
pub open spec fn grid_line_at(j: int) -> LineIndex {
    if j < 20 {
        hline(j / 5, j % 5)
    } else if j < 40 {
        vline((j - 20) % 5, (j - 20) / 5)
    } else {
        LineIndex(DotIndex(25), DotIndex(24))
    }
}

/// Neighbours of face (x, y) of the default grid: left, down, right, up, as
/// far as they exist.
pub open spec fn grid_nears(x: int, y: int) -> Seq<(LineIndex, PaneIndex)> {
    let p = y * 4 + x;
    let s0 = Seq::<(LineIndex, PaneIndex)>::empty();
    let s1 = if x > 0 {
        s0.push((vline(x, y), PaneIndex((p - 1) as u16)))
    } else {
        s0
    };
    let s2 = if y > 0 {
        s1.push((hline(x, y), PaneIndex((p - 4) as u16)))
    } else {
        s1
    };
    let s3 = if x + 1 < 4 {
        s2.push((vline(x + 1, y), PaneIndex((p + 1) as u16)))
    } else {
        s2
    };
    if y + 1 < 4 {
        s3.push((hline(x, y + 1), PaneIndex((p + 4) as u16)))
    } else {
        s3
    }
}

/// Every neighbour listed by a face of the default grid lists that face
/// back, across the same edge.
proof fn lemma_grid_nears_symmetric(x: int, y: int, k: int)
    requires
        0 <= x < 4,
        0 <= y < 4,
        0 <= k < grid_nears(x, y).len(),
    ensures
        ({
            let (e, q) = grid_nears(x, y)[k];
            let qi = q.0 as int;
            &&& 0 <= qi < 16
            &&& exists|j: int|
                0 <= j < grid_nears(qi % 4, qi / 4).len() && #[trigger] grid_nears(qi % 4, qi / 4)[j]
                    == (e, PaneIndex((y * 4 + x) as u16))
        }),
{
    let p = y * 4 + x;
    let cl: int = if x > 0 {
        1
    } else {
        0
    };
    let cd: int = if y > 0 {
        1
    } else {
        0
    };
    let cr: int = if x + 1 < 4 {
        1
    } else {
        0
    };
    let s = grid_nears(x, y);
    let e = s[k].0;
    let qi = s[k].1.0 as int;
    if x > 0 && k == 0 {
        let j = (if x - 1 > 0 { 1int } else { 0int }) + cd;
        assert(qi == p - 1);
        assert(qi % 4 == x - 1 && qi / 4 == y);
        assert(grid_nears(qi % 4, qi / 4)[j] == (e, PaneIndex(p as u16)));
    } else if y > 0 && k == cl {
        let j = cl + (if y - 1 > 0 { 1int } else { 0int }) + cr;
        assert(qi == p - 4);
        assert(qi % 4 == x && qi / 4 == y - 1);
        assert(grid_nears(qi % 4, qi / 4)[j] == (e, PaneIndex(p as u16)));
    } else if x + 1 < 4 && k == cl + cd {
        assert(qi == p + 1);
        assert(qi % 4 == x + 1 && qi / 4 == y);
        assert(grid_nears(qi % 4, qi / 4)[0] == (e, PaneIndex(p as u16)));
    } else {
        assert(y + 1 < 4 && k == cl + cd + cr);
        assert(qi == p + 4);
        assert(qi % 4 == x && qi / 4 == y + 1);
        assert(grid_nears(qi % 4, qi / 4)[cl] == (e, PaneIndex(p as u16)));
    }
}

/// The edge between nodes `a` and `b` of the default grid.
fn grid_line(a: usize, b: usize) -> (r: LineIndex)
    requires
        a < 0xffff,
        b < 0xffff,
    ensures
        r == LineIndex(DotIndex(a as u16), DotIndex(b as u16)),
{
    LineIndex(DotIndex(a as u16), DotIndex(b as u16))
}

/// The edge from node (x, y) to node (x + 1, y).
fn horizontal_line(x: usize, y: usize) -> (r: LineIndex)
    requires
        x + 1 < GRID_SIZE,
        y < GRID_SIZE,
    ensures
        r == hline(x as int, y as int),
{
    grid_line(x * GRID_SIZE + y, (x + 1) * GRID_SIZE + y)
}

/// The edge from node (x, y) to node (x, y + 1).
fn vertical_line(x: usize, y: usize) -> (r: LineIndex)
    requires
        x < GRID_SIZE,
        y + 1 < GRID_SIZE,
    ensures
        r == vline(x as int, y as int),
{
    grid_line(x * GRID_SIZE + y, x * GRID_SIZE + y + 1)
}

/// The neighbours of face (x, y) of the default grid.
fn pane_neighbours(x: usize, y: usize) -> (r: Vec<(LineIndex, PaneIndex)>)
    requires
        x < PANE_SIDE,
        y < PANE_SIDE,
    ensures
        r@ == grid_nears(x as int, y as int),
{
    let m = PANE_SIDE;
    let ind = y * m + x;
    let mut near: Vec<(LineIndex, PaneIndex)> = Vec::new();
    if x > 0 {
        near.push((vertical_line(x, y), PaneIndex((ind - 1) as u16)));
    }
    if y > 0 {
        near.push((horizontal_line(x, y), PaneIndex((ind - m) as u16)));
    }
    if x + 1 < m {
        near.push((vertical_line(x + 1, y), PaneIndex((ind + 1) as u16)));
    }
    if y + 1 < m {
        near.push((horizontal_line(x, y + 1), PaneIndex((ind + m) as u16)));
    }
    proof {
        assert(near@ =~= grid_nears(x as int, y as int));
    }
    near
}

impl Default for Puzzle {
    /// The default puzzle: a 5 x 5 grid of nodes starting at its lower left
    /// corner, with an end node off its upper right corner, one node and two
    /// edges with constraints, and a black and a white square.
    fn default() -> (r: Puzzle)
        ensures
            r.wf(),
            r.dots@.len() == GRID_SIZE * GRID_SIZE + 1,
            forall|i: int| 0 <= i < 25 ==> r.dots@[i] == grid_pos(i),
            r.dots@[25] == (Dot { x: 110_000, y: 100_000 }),
            r.lines@.len() == 2 * GRID_SIZE * (GRID_SIZE - 1) + 1,
            forall|j: int| 0 <= j < r.lines@.len() ==> r.lines@[j] == grid_line_at(j),
            r.panes@.len() == PANE_SIDE * PANE_SIDE,
            r.pane_nears@.len() == PANE_SIDE * PANE_SIDE,
            forall|p: int| 0 <= p < 16 ==> r.pane_nears@[p]@ == grid_nears(p % 4, p / 4),
            r.start_dots@ == seq![DotIndex(0)],
            r.end_dots@ == seq![DotIndex(25)],
            r.dot_complexity@ == seq![(DotIndex(2), DotComplexity::BlackHexagon)],
            r.line_complexity@ == seq![
                (r.lines@[5], LineComplexity::BlackHexagon),
                (r.lines@[8], LineComplexity::LineBreak),
            ],
            r.pane_complexity@ == seq![
                (PaneIndex(3), PaneComplexity::Square(ComplexityColor::Black)),
                (PaneIndex(4), PaneComplexity::Square(ComplexityColor::White)),
            ],
            r.line_width == DEFAULT_LINE_WIDTH,
    {
        let n = GRID_SIZE;
        let mut dots: Vec<Dot> = Vec::new();
        let mut i: usize = 0;
        while i < n * n
            invariant
                n == GRID_SIZE,
                i <= 25,
                dots@.len() == i,
                forall|j: int| 0 <= j < i ==> #[trigger] dots@[j] == grid_pos(j),
            decreases 25 - i,
        {
            let x = i / n;
            let y = i % n;
            dots.push(Dot::new((1 + x as i64) * CELL_SIZE, (1 + y as i64) * CELL_SIZE));
            i += 1;
        }
        let mut lines: Vec<LineIndex> = Vec::new();
        let mut j: usize = 0;
        while j < (n - 1) * n
            invariant
                n == GRID_SIZE,
                j <= 20,
                lines@.len() == j,
                forall|j2: int| 0 <= j2 < j ==> #[trigger] lines@[j2] == grid_line_at(j2),
            decreases 20 - j,
        {
            lines.push(horizontal_line(j / n, j % n));
            j += 1;
        }
        let mut t: usize = 0;
        while t < (n - 1) * n
            invariant
                n == GRID_SIZE,
                t <= 20,
                lines@.len() == 20 + t,
                forall|j2: int| 0 <= j2 < 20 + t ==> #[trigger] lines@[j2] == grid_line_at(j2),
            decreases 20 - t,
        {
            lines.push(vertical_line(t % n, t / n));
            t += 1;
        }
        let m = PANE_SIDE;
        let mut panes: Vec<Dot> = Vec::new();
        let mut pane_nears: Vec<Vec<(LineIndex, PaneIndex)>> = Vec::new();
        let mut ind: usize = 0;
        while ind < m * m
            invariant
                m == PANE_SIDE,
                ind <= 16,
                panes@.len() == ind,
                forall|p: int| 0 <= p < ind ==> (#[trigger] panes@[p]).within(100_000),
                pane_nears@.len() == ind,
                forall|p: int| 0 <= p < ind ==> (#[trigger] pane_nears@[p])@ == grid_nears(p % 4, p / 4),
            decreases 16 - ind,
        {
            let x = ind % m;
            let y = ind / m;
            panes.push(
                Dot::new(
                    (1 + x as i64) * CELL_SIZE + CELL_SIZE / 2,
                    (1 + y as i64) * CELL_SIZE + CELL_SIZE / 2,
                ),
            );
            pane_nears.push(pane_neighbours(x, y));
            ind += 1;
        }
        dots.push(Dot::new(5 * CELL_SIZE + CELL_SIZE / 2, 5 * CELL_SIZE));
        let end_dot = dots.len() - 1;
        lines.push(grid_line(end_dot, (n - 1) * n + (n - 1)));
        proof {
            assert(lines@[40] == grid_line_at(40));
        }
        let start_dots = vec![DotIndex(0)];
        let end_dots = vec![DotIndex(end_dot as u16)];
        let dot_complexity = vec![(DotIndex(2), DotComplexity::BlackHexagon)];
        let line_complexity = vec![
            (lines[5], LineComplexity::BlackHexagon),
            (lines[8], LineComplexity::LineBreak),
        ];
        let pane_complexity = vec![
            (PaneIndex(3), PaneComplexity::Square(ComplexityColor::Black)),
            (PaneIndex(4), PaneComplexity::Square(ComplexityColor::White)),
        ];
        let r = Puzzle {
            dots,
            lines,
            panes,
            cell_size: CELL_SIZE,
            pane_nears,
            start_dots,
            end_dots,
            dot_complexity,
            line_complexity,
            pane_complexity,
            line_width: DEFAULT_LINE_WIDTH,
            background_color: Rgb(228, 165, 0),
            puzzle_color: Rgb(61, 46, 3),
            solution_color: Rgb(255, 255, 255),
        };
        proof {
            assert forall|i: int| 0 <= i < r.dots@.len() implies (#[trigger] r.dots@[i]).within(
                COORD_LIMIT as int,
            ) by {
                if i < 25 {
                    assert(r.dots@[i] == grid_pos(i));
                }
            }
            assert forall|j: int| 0 <= j < r.lines@.len() implies r.valid_line(#[trigger] r.lines@[j]) by {
                let l = grid_line_at(j);
                assert(r.lines@[j] == l);
                if j < 20 {
                    assert(r.dots@[j] == grid_pos(j));
                    assert(r.dots@[j + 5] == grid_pos(j + 5));
                } else if j < 40 {
                    let a = ((j - 20) % 5) * 5 + (j - 20) / 5;
                    assert(r.dots@[a] == grid_pos(a));
                    assert(r.dots@[a + 1] == grid_pos(a + 1));
                } else {
                    assert(r.dots@[24] == grid_pos(24));
                }
            }
            assert forall|p: int, k: int|
                0 <= p < r.pane_count() && 0 <= k < r.pane_nears@[p]@.len() implies (
                #[trigger] r.near(p, k)).1.0 < r.pane_count() && r.lists_back(
                r.near(p, k).1.0 as int,
                r.near(p, k).0,
                p,
            ) by {
                assert(r.pane_nears@[p]@ == grid_nears(p % 4, p / 4));
                lemma_grid_nears_symmetric(p % 4, p / 4, k);
                let q = r.near(p, k).1.0 as int;
                assert(r.pane_nears@[q]@ == grid_nears(q % 4, q / 4));
                let j = choose|j: int|
                    0 <= j < grid_nears(q % 4, q / 4).len() && #[trigger] grid_nears(q % 4, q / 4)[j]
                        == (r.near(p, k).0, PaneIndex(((p / 4) * 4 + p % 4) as u16));
                assert(r.near(q, j) == grid_nears(q % 4, q / 4)[j]);
            }
            assert(r.wf_panes());
            assert(r.wf_ends());
        }
        r
    }
}

} // verus!
