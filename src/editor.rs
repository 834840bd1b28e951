use vstd::prelude::*;
use crate::geometry::{Dot, COORD_LIMIT};
use crate::puzzle::{
    dot_keys_unique, line_keys_unique, pane_keys_unique, DotComplexity, DotIndex, LineComplexity, LineIndex, PaneComplexity, PaneIndex, Puzzle,
};

verus! {

/// What the editor's pointer is over.
#[derive(Debug, Clone, Copy)]
pub enum SelectedObject {
    Nothing,
    Dot(DotIndex),
    Line(LineIndex),
    Pane(PaneIndex),
}

/// Squared distance between two points.
pub open spec fn dist2(a: Dot, b: Dot) -> int {
    (b.x - a.x) * (b.x - a.x) + (b.y - a.y) * (b.y - a.y)
}

/// Point `pos` lies over edge `l`: its projection falls between the
/// endpoints, and it lies closer than `radius` to the edge.
pub open spec fn over_line(puzzle: &Puzzle, l: LineIndex, pos: Dot, radius: int) -> bool {
    let a = puzzle.dot_pos(l.0);
    let b = puzzle.dot_pos(l.1);
    let abx = b.x - a.x;
    let aby = b.y - a.y;
    let apx = pos.x - a.x;
    let apy = pos.y - a.y;
    let t = apx * abx + apy * aby;
    let n = abx * abx + aby * aby;
    let cross = apx * aby - apy * abx;
    0 <= t <= n && cross * cross < radius * radius * n
}

/// Point `pos` lies within the square of half-side `half` around `c`.
pub open spec fn over_pane(c: Dot, pos: Dot, half: int) -> bool {
    -half < pos.x - c.x < half && -half < pos.y - c.y < half
}

/// What the pointer at `pos` selects: the first node within half a line
/// width, else the first edge within half a line width, else the first face
/// whose cell holds the point, else nothing.
pub open spec fn selection(puzzle: &Puzzle, pos: Dot) -> SelectedObject {
    let r = puzzle.line_width / 2;
    let half = puzzle.cell_size / 2;
    if exists|i: int| 0 <= i < puzzle.dots@.len() && dist2(pos, #[trigger] puzzle.dots@[i]) < r * r {
        let i = choose|i: int|
            0 <= i < puzzle.dots@.len() && dist2(pos, #[trigger] puzzle.dots@[i]) < r * r && forall|j: int|
                0 <= j < i ==> !(dist2(pos, #[trigger] puzzle.dots@[j]) < r * r);
        SelectedObject::Dot(DotIndex(i as u16))
    } else if exists|i: int| 0 <= i < puzzle.lines@.len() && over_line(puzzle, #[trigger] puzzle.lines@[i], pos, r) {
        let i = choose|i: int|
            0 <= i < puzzle.lines@.len() && over_line(puzzle, #[trigger] puzzle.lines@[i], pos, r)
                && forall|j: int| 0 <= j < i ==> !over_line(puzzle, #[trigger] puzzle.lines@[j], pos, r);
        SelectedObject::Line(puzzle.lines@[i])
    } else if exists|i: int| 0 <= i < puzzle.panes@.len() && over_pane(#[trigger] puzzle.panes@[i], pos, half) {
        let i = choose|i: int|
            0 <= i < puzzle.panes@.len() && over_pane(#[trigger] puzzle.panes@[i], pos, half)
                && forall|j: int| 0 <= j < i ==> !over_pane(#[trigger] puzzle.panes@[j], pos, half);
        SelectedObject::Pane(PaneIndex(i as u16))
    } else {
        SelectedObject::Nothing
    }
}

/// The parts of a puzzle that editing a constraint list leaves alone.
pub open spec fn same_graph(a: &Puzzle, b: &Puzzle) -> bool {
    &&& a.dots@ == b.dots@
    &&& a.lines@ == b.lines@
    &&& a.panes@ == b.panes@
    &&& a.cell_size == b.cell_size
    &&& a.pane_nears@ == b.pane_nears@
    &&& a.start_dots@ == b.start_dots@
    &&& a.end_dots@ == b.end_dots@
    &&& a.line_width == b.line_width
}

/// Well-formedness depends on the graph and on the keys of the face
/// constraints only.
proof fn lemma_wf_same_graph(a: &Puzzle, b: &Puzzle)
    requires
        a.wf(),
        same_graph(a, b),
        b.wf_keys(),
        forall|i: int|
            0 <= i < b.pane_complexity@.len() ==> ((#[trigger] b.pane_complexity@[i]).0.0 as int)
                < b.pane_count(),
    ensures
        b.wf(),
{
    assert(b.wf_dots());
    assert forall|i: int| 0 <= i < b.lines@.len() implies b.valid_line(#[trigger] b.lines@[i]) by {
        assert(a.valid_line(a.lines@[i]));
    }
    assert forall|p: int, k: int|
        0 <= p < b.pane_count() && 0 <= k < b.pane_nears@[p]@.len() implies (
        #[trigger] b.near(p, k)).1.0 < b.pane_count() && b.lists_back(b.near(p, k).1.0 as int, b.near(p, k).0, p) by {
        assert(a.near(p, k) == b.near(p, k));
        assert(a.lists_back(a.near(p, k).1.0 as int, a.near(p, k).0, p));
        let q = a.near(p, k).1.0 as int;
        let j = choose|j: int|
            0 <= j < a.pane_nears@[q]@.len() && (#[trigger] a.near(q, j)).1.0 == p && a.near(q, j).0.same_edge(a.near(p, k).0);
        assert(b.near(q, j) == a.near(q, j));
    }
    assert(b.wf_panes());
    assert forall|i: int| 0 <= i < b.start_dots@.len() implies b.valid_dot(#[trigger] b.start_dots@[i]) by {
        assert(a.valid_dot(a.start_dots@[i]));
    }
    assert forall|i: int| 0 <= i < b.end_dots@.len() implies b.valid_dot(#[trigger] b.end_dots@[i]) by {
        assert(a.valid_dot(a.end_dots@[i]));
    }
    assert(b.wf_ends());
}

pub open spec fn has_dot_key(list: Seq<(DotIndex, DotComplexity)>, key: DotIndex) -> bool {
    exists|i: int| 0 <= i < list.len() && (#[trigger] list[i]).0 == key
}

pub open spec fn has_line_key(list: Seq<(LineIndex, LineComplexity)>, key: LineIndex) -> bool {
    exists|i: int| 0 <= i < list.len() && (#[trigger] list[i]).0.same_edge(key)
}

pub open spec fn has_pane_key(list: Seq<(PaneIndex, PaneComplexity)>, key: PaneIndex) -> bool {
    exists|i: int| 0 <= i < list.len() && (#[trigger] list[i]).0 == key
}

impl Puzzle {
    /// What the pointer at `pos` is over (see `selection`).
    pub fn select_at(&self, pos: Dot) -> (r: SelectedObject)
        requires
            self.wf(),
            pos.within(COORD_LIMIT as int),
        ensures
            r == selection(self, pos),
    {
        let r = self.line_width / 2;
        let half = self.cell_size / 2;
        let mut i: usize = 0;
        while i < self.dots.len()
            invariant
                self.wf(),
                pos.within(COORD_LIMIT as int),
                r == self.line_width / 2,
                i <= self.dots@.len(),
                forall|j: int| 0 <= j < i ==> !(dist2(pos, #[trigger] self.dots@[j]) < r * r),
            decreases self.dots@.len() - i,
        {
            let d = self.dots[i];
            let dx = d.x - pos.x;
            let dy = d.y - pos.y;
            assert(0 <= dx * dx <= 960_000 * 960_000) by (nonlinear_arith)
                requires
                    -960_000 <= dx <= 960_000,
            ;
            assert(0 <= dy * dy <= 960_000 * 960_000) by (nonlinear_arith)
                requires
                    -960_000 <= dy <= 960_000,
            ;
            assert(0 <= r * r <= 60_000 * 60_000) by (nonlinear_arith)
                requires
                    0 <= r <= 60_000,
            ;
            if dx * dx + dy * dy < r * r {
                proof {
                    assert(dist2(pos, self.dots@[i as int]) < r * r);
                    let c = choose|c: int|
                        0 <= c < self.dots@.len() && dist2(pos, #[trigger] self.dots@[c]) < r * r
                            && forall|j: int| 0 <= j < c ==> !(dist2(pos, #[trigger] self.dots@[j]) < r * r);
                    if c < i {
                    } else if c > i {
                        assert(!(dist2(pos, self.dots@[i as int]) < r * r));
                    }
                }
                return SelectedObject::Dot(DotIndex(i as u16));
            }
            i += 1;
        }
        let mut i: usize = 0;
        while i < self.lines.len()
            invariant
                self.wf(),
                pos.within(COORD_LIMIT as int),
                r == self.line_width / 2,
                forall|j: int| 0 <= j < self.dots@.len() ==> !(dist2(pos, #[trigger] self.dots@[j]) < r * r),
                i <= self.lines@.len(),
                forall|j: int| 0 <= j < i ==> !over_line(self, #[trigger] self.lines@[j], pos, r as int),
            decreases self.lines@.len() - i,
        {
            let l = self.lines[i];
            proof {
                assert(self.valid_line(self.lines@[i as int]));
            }
            let a = self.dots[l.0.0 as usize];
            let b = self.dots[l.1.0 as usize];
            let abx = (b.x - a.x) as i128;
            let aby = (b.y - a.y) as i128;
            let apx = (pos.x - a.x) as i128;
            let apy = (pos.y - a.y) as i128;
            assert(-1_000_000_000_000 <= apx * abx <= 1_000_000_000_000) by (nonlinear_arith)
                requires
                    -960_000 <= abx <= 960_000,
                    -960_000 <= apx <= 960_000,
            ;
            assert(-1_000_000_000_000 <= apy * aby <= 1_000_000_000_000) by (nonlinear_arith)
                requires
                    -960_000 <= aby <= 960_000,
                    -960_000 <= apy <= 960_000,
            ;
            assert(0 <= abx * abx <= 1_000_000_000_000) by (nonlinear_arith)
                requires
                    -960_000 <= abx <= 960_000,
            ;
            assert(0 <= aby * aby <= 1_000_000_000_000) by (nonlinear_arith)
                requires
                    -960_000 <= aby <= 960_000,
            ;
            assert(-1_000_000_000_000 <= apx * aby <= 1_000_000_000_000) by (nonlinear_arith)
                requires
                    -960_000 <= aby <= 960_000,
                    -960_000 <= apx <= 960_000,
            ;
            assert(-1_000_000_000_000 <= apy * abx <= 1_000_000_000_000) by (nonlinear_arith)
                requires
                    -960_000 <= abx <= 960_000,
                    -960_000 <= apy <= 960_000,
            ;
            assert(-2_000_000_000_000 <= apx * aby - apy * abx <= 2_000_000_000_000) by (nonlinear_arith)
                requires
                    -960_000 <= abx <= 960_000,
                    -960_000 <= aby <= 960_000,
                    -960_000 <= apx <= 960_000,
                    -960_000 <= apy <= 960_000,
            ;
            let t = apx * abx + apy * aby;
            let n = abx * abx + aby * aby;
            let cross = apx * aby - apy * abx;
            let rr = r as i128;
            assert(0 <= cross * cross <= 4_000_000_000_000_000_000_000_000) by (nonlinear_arith)
                requires
                    -2_000_000_000_000 <= cross <= 2_000_000_000_000,
            ;
            assert(0 <= rr * rr <= 60_000 * 60_000) by (nonlinear_arith)
                requires
                    0 <= rr <= 60_000,
            ;
            assert(0 <= rr * rr * n <= 60_000 * 60_000 * 2_000_000_000_000) by (nonlinear_arith)
                requires
                    0 <= rr <= 60_000,
                    0 <= n <= 2_000_000_000_000,
            ;
            if 0 <= t && t <= n && cross * cross < rr * rr * n {
                proof {
                    assert(over_line(self, self.lines@[i as int], pos, r as int));
                    let c = choose|c: int|
                        0 <= c < self.lines@.len() && over_line(self, #[trigger] self.lines@[c], pos, r as int)
                            && forall|j: int| 0 <= j < c ==> !over_line(self, #[trigger] self.lines@[j], pos, r as int);
                    if c > i {
                        assert(!over_line(self, self.lines@[i as int], pos, r as int));
                    }
                }
                return SelectedObject::Line(l);
            }
            i += 1;
        }
        let mut i: usize = 0;
        while i < self.panes.len()
            invariant
                self.wf(),
                pos.within(COORD_LIMIT as int),
                r == self.line_width / 2,
                half == self.cell_size / 2,
                forall|k: int| 0 <= k < self.panes@.len() ==> (#[trigger] self.panes@[k]).within(
                    COORD_LIMIT as int,
                ),
                self.panes@.len() <= 0xffff,
                forall|j: int| 0 <= j < self.dots@.len() ==> !(dist2(pos, #[trigger] self.dots@[j]) < r * r),
                forall|j: int| 0 <= j < self.lines@.len() ==> !over_line(self, #[trigger] self.lines@[j], pos, r as int),
                i <= self.panes@.len(),
                forall|j: int| 0 <= j < i ==> !over_pane(#[trigger] self.panes@[j], pos, half as int),
            decreases self.panes@.len() - i,
        {
            let c = self.panes[i];
            let dx = pos.x - c.x;
            let dy = pos.y - c.y;
            if -half < dx && dx < half && -half < dy && dy < half {
                proof {
                    assert(over_pane(self.panes@[i as int], pos, half as int));
                    let c = choose|c: int|
                        0 <= c < self.panes@.len() && over_pane(#[trigger] self.panes@[c], pos, half as int)
                            && forall|j: int| 0 <= j < c ==> !over_pane(#[trigger] self.panes@[j], pos, half as int);
                    if c > i {
                        assert(!over_pane(self.panes@[i as int], pos, half as int));
                    }
                }
                return SelectedObject::Pane(PaneIndex(i as u16));
            }
            i += 1;
        }
        SelectedObject::Nothing
    }

    /// Adds the node constraint `(key, value)`, or, where `key` already has
    /// one, takes every constraint on `key` away.
    pub fn toggle_dot_complexity(&mut self, key: DotIndex, value: DotComplexity)
        ensures
            same_graph(final(self), old(self)),
            dot_keys_unique(old(self).dot_complexity@) ==> dot_keys_unique(final(self).dot_complexity@),
            final(self).line_complexity@ == old(self).line_complexity@,
            final(self).pane_complexity@ == old(self).pane_complexity@,
            old(self).wf() ==> final(self).wf(),
            has_dot_key(old(self).dot_complexity@, key) ==> forall|e: (DotIndex, DotComplexity)|
                final(self).dot_complexity@.contains(e) <==> old(self).dot_complexity@.contains(e)
                    && e.0 != key,
            !has_dot_key(old(self).dot_complexity@, key) ==> final(self).dot_complexity@ == old(self).dot_complexity@.push((key, value)),
    {
        let n = self.dot_complexity.len();
        let mut kept: Vec<(DotIndex, DotComplexity)> = Vec::new();
        let mut found = false;
        let mut i: usize = 0;
        while i < n
            invariant
                n == self.dot_complexity@.len(),
                i <= n,
                found <==> exists|j: int| 0 <= j < i && (#[trigger] self.dot_complexity@[j]).0 == key,
                forall|e: (DotIndex, DotComplexity)|
                    kept@.contains(e) <==> exists|j: int|
                        0 <= j < i && #[trigger] self.dot_complexity@[j] == e && e.0 != key,
                dot_keys_unique(self.dot_complexity@) ==> dot_keys_unique(kept@),
            decreases n - i,
        {
            let e = self.dot_complexity[i];
            let ghost kept0 = kept@;
            if e.0 == key {
                found = true;
            } else {
                kept.push(e);
            }
            proof {
                assert forall|e2: (DotIndex, DotComplexity)|
                    #[trigger] kept@.contains(e2) <==> exists|j: int|
                        0 <= j < i + 1 && #[trigger] self.dot_complexity@[j] == e2 && e2.0 != key by {
                    if exists|j: int| 0 <= j < i + 1 && #[trigger] self.dot_complexity@[j] == e2 && e2.0 != key {
                        let j = choose|j: int| 0 <= j < i + 1 && #[trigger] self.dot_complexity@[j] == e2 && e2.0 != key;
                        if j < i {
                            assert(kept0.contains(e2));
                            let k = choose|k: int| 0 <= k < kept0.len() && kept0[k] == e2;
                            assert(kept@[k] == e2);
                        } else {
                            assert(kept@[kept@.len() - 1] == e2);
                        }
                    }
                    if kept@.contains(e2) {
                        let k = choose|k: int| 0 <= k < kept@.len() && kept@[k] == e2;
                        if k < kept0.len() {
                            assert(kept0[k] == e2);
                            assert(kept0.contains(e2));
                        } else {
                            assert(self.dot_complexity@[i as int] == e2);
                        }
                    }
                }
            }
            proof {
                if dot_keys_unique(self.dot_complexity@) {
                    assert forall|a: int, b: int| 0 <= a < b < kept@.len() implies (#[trigger] kept@[a]).0 != (#[trigger] kept@[b]).0 by {
                        if b >= kept0.len() {
                            let e2 = kept0[a];
                            assert(kept@[a] == e2);
                            assert(kept0.contains(e2));
                            let j = choose|j: int| 0 <= j < i && #[trigger] self.dot_complexity@[j] == e2 && e2.0 != key;
                            assert(self.dot_complexity@[j] == e2);
                            assert(kept@[b] == self.dot_complexity@[i as int]);
                        } else {
                            assert(kept@[a] == kept0[a] && kept@[b] == kept0[b]);
                        }
                    }
                }
            }
            i += 1;
        }
        if found {
            proof {
                assert forall|e: (DotIndex, DotComplexity)|
                    kept@.contains(e) <==> self.dot_complexity@.contains(e) && e.0 != key by {
                    if self.dot_complexity@.contains(e) && e.0 != key {
                        let j = choose|j: int| 0 <= j < n && self.dot_complexity@[j] == e;
                        assert(self.dot_complexity@[j] == e);
                    }
                }
            }
            self.dot_complexity = kept;
        } else {
            self.dot_complexity.push((key, value));
        }
        proof {
            if !has_dot_key(old(self).dot_complexity@, key) && dot_keys_unique(old(self).dot_complexity@) {
                let o = old(self).dot_complexity@;
                assert forall|a: int, b: int| 0 <= a < b < self.dot_complexity@.len() implies (#[trigger] self.dot_complexity@[a]).0 != (#[trigger] self.dot_complexity@[b]).0 by {
                    assert(self.dot_complexity@[a] == o[a]);
                    if b < o.len() {
                        assert(self.dot_complexity@[b] == o[b]);
                    }
                }
            }
            if old(self).wf() {
                lemma_wf_same_graph(old(self), self);
            }
        }
    }

    /// Adds the edge constraint `(key, value)`, or, where `key` already has
    /// one, takes every constraint on that edge away.
    pub fn toggle_line_complexity(&mut self, key: LineIndex, value: LineComplexity)
        ensures
            same_graph(final(self), old(self)),
            line_keys_unique(old(self).line_complexity@) ==> line_keys_unique(final(self).line_complexity@),
            final(self).dot_complexity@ == old(self).dot_complexity@,
            final(self).pane_complexity@ == old(self).pane_complexity@,
            old(self).wf() ==> final(self).wf(),
            has_line_key(old(self).line_complexity@, key) ==> forall|e: (LineIndex, LineComplexity)|
                final(self).line_complexity@.contains(e) <==> old(self).line_complexity@.contains(e)
                    && !e.0.same_edge(key),
            !has_line_key(old(self).line_complexity@, key) ==> final(self).line_complexity@ == old(self).line_complexity@.push((key, value)),
    {
        let n = self.line_complexity.len();
        let mut kept: Vec<(LineIndex, LineComplexity)> = Vec::new();
        let mut found = false;
        let mut i: usize = 0;
        while i < n
            invariant
                n == self.line_complexity@.len(),
                i <= n,
                found <==> exists|j: int| 0 <= j < i && (#[trigger] self.line_complexity@[j]).0.same_edge(key),
                forall|e: (LineIndex, LineComplexity)|
                    kept@.contains(e) <==> exists|j: int|
                        0 <= j < i && #[trigger] self.line_complexity@[j] == e && !e.0.same_edge(key),
                line_keys_unique(self.line_complexity@) ==> line_keys_unique(kept@),
            decreases n - i,
        {
            let e = self.line_complexity[i];
            let ghost kept0 = kept@;
            if e.0 == key {
                found = true;
            } else {
                kept.push(e);
            }
            proof {
                assert forall|e2: (LineIndex, LineComplexity)|
                    #[trigger] kept@.contains(e2) <==> exists|j: int|
                        0 <= j < i + 1 && #[trigger] self.line_complexity@[j] == e2 && !e2.0.same_edge(key) by {
                    if exists|j: int| 0 <= j < i + 1 && #[trigger] self.line_complexity@[j] == e2 && !e2.0.same_edge(key) {
                        let j = choose|j: int| 0 <= j < i + 1 && #[trigger] self.line_complexity@[j] == e2 && !e2.0.same_edge(key);
                        if j < i {
                            assert(kept0.contains(e2));
                            let k = choose|k: int| 0 <= k < kept0.len() && kept0[k] == e2;
                            assert(kept@[k] == e2);
                        } else {
                            assert(kept@[kept@.len() - 1] == e2);
                        }
                    }
                    if kept@.contains(e2) {
                        let k = choose|k: int| 0 <= k < kept@.len() && kept@[k] == e2;
                        if k < kept0.len() {
                            assert(kept0[k] == e2);
                            assert(kept0.contains(e2));
                        } else {
                            assert(self.line_complexity@[i as int] == e2);
                        }
                    }
                }
            }
            proof {
                if line_keys_unique(self.line_complexity@) {
                    assert forall|a: int, b: int| 0 <= a < b < kept@.len() implies !(#[trigger] kept@[a]).0.same_edge((#[trigger] kept@[b]).0) by {
                        if b >= kept0.len() {
                            let e2 = kept0[a];
                            assert(kept@[a] == e2);
                            assert(kept0.contains(e2));
                            let j = choose|j: int| 0 <= j < i && #[trigger] self.line_complexity@[j] == e2 && !e2.0.same_edge(key);
                            assert(self.line_complexity@[j] == e2);
                            assert(kept@[b] == self.line_complexity@[i as int]);
                        } else {
                            assert(kept@[a] == kept0[a] && kept@[b] == kept0[b]);
                        }
                    }
                }
            }
            i += 1;
        }
        if found {
            proof {
                assert forall|e: (LineIndex, LineComplexity)|
                    kept@.contains(e) <==> self.line_complexity@.contains(e) && !e.0.same_edge(key) by {
                    if self.line_complexity@.contains(e) && !e.0.same_edge(key) {
                        let j = choose|j: int| 0 <= j < n && self.line_complexity@[j] == e;
                        assert(self.line_complexity@[j] == e);
                    }
                }
            }
            self.line_complexity = kept;
        } else {
            self.line_complexity.push((key, value));
        }
        proof {
            if !has_line_key(old(self).line_complexity@, key) && line_keys_unique(old(self).line_complexity@) {
                let o = old(self).line_complexity@;
                assert forall|a: int, b: int| 0 <= a < b < self.line_complexity@.len() implies !(#[trigger] self.line_complexity@[a]).0.same_edge((#[trigger] self.line_complexity@[b]).0) by {
                    assert(self.line_complexity@[a] == o[a]);
                    if b < o.len() {
                        assert(self.line_complexity@[b] == o[b]);
                    }
                }
            }
            if old(self).wf() {
                lemma_wf_same_graph(old(self), self);
            }
        }
    }

    /// Adds the face constraint `(key, value)`, or, where `key` already has
    /// one, takes every constraint on `key` away.
    pub fn toggle_pane_complexity(&mut self, key: PaneIndex, value: PaneComplexity)
        ensures
            same_graph(final(self), old(self)),
            pane_keys_unique(old(self).pane_complexity@) ==> pane_keys_unique(final(self).pane_complexity@),
            final(self).dot_complexity@ == old(self).dot_complexity@,
            final(self).line_complexity@ == old(self).line_complexity@,
            old(self).wf() && (key.0 as int) < old(self).pane_count() ==> final(self).wf(),
            has_pane_key(old(self).pane_complexity@, key) ==> forall|e: (PaneIndex, PaneComplexity)|
                final(self).pane_complexity@.contains(e) <==> old(self).pane_complexity@.contains(e)
                    && e.0 != key,
            !has_pane_key(old(self).pane_complexity@, key) ==> final(self).pane_complexity@ == old(self).pane_complexity@.push((key, value)),
    {
        let n = self.pane_complexity.len();
        let mut kept: Vec<(PaneIndex, PaneComplexity)> = Vec::new();
        let mut found = false;
        let mut i: usize = 0;
        while i < n
            invariant
                n == self.pane_complexity@.len(),
                i <= n,
                found <==> exists|j: int| 0 <= j < i && (#[trigger] self.pane_complexity@[j]).0 == key,
                forall|e: (PaneIndex, PaneComplexity)|
                    kept@.contains(e) <==> exists|j: int|
                        0 <= j < i && #[trigger] self.pane_complexity@[j] == e && e.0 != key,
                pane_keys_unique(self.pane_complexity@) ==> pane_keys_unique(kept@),
            decreases n - i,
        {
            let e = self.pane_complexity[i];
            let ghost kept0 = kept@;
            if e.0 == key {
                found = true;
            } else {
                kept.push(e);
            }
            proof {
                assert forall|e2: (PaneIndex, PaneComplexity)|
                    #[trigger] kept@.contains(e2) <==> exists|j: int|
                        0 <= j < i + 1 && #[trigger] self.pane_complexity@[j] == e2 && e2.0 != key by {
                    if exists|j: int| 0 <= j < i + 1 && #[trigger] self.pane_complexity@[j] == e2 && e2.0 != key {
                        let j = choose|j: int| 0 <= j < i + 1 && #[trigger] self.pane_complexity@[j] == e2 && e2.0 != key;
                        if j < i {
                            assert(kept0.contains(e2));
                            let k = choose|k: int| 0 <= k < kept0.len() && kept0[k] == e2;
                            assert(kept@[k] == e2);
                        } else {
                            assert(kept@[kept@.len() - 1] == e2);
                        }
                    }
                    if kept@.contains(e2) {
                        let k = choose|k: int| 0 <= k < kept@.len() && kept@[k] == e2;
                        if k < kept0.len() {
                            assert(kept0[k] == e2);
                            assert(kept0.contains(e2));
                        } else {
                            assert(self.pane_complexity@[i as int] == e2);
                        }
                    }
                }
            }
            proof {
                if pane_keys_unique(self.pane_complexity@) {
                    assert forall|a: int, b: int| 0 <= a < b < kept@.len() implies (#[trigger] kept@[a]).0 != (#[trigger] kept@[b]).0 by {
                        if b >= kept0.len() {
                            let e2 = kept0[a];
                            assert(kept@[a] == e2);
                            assert(kept0.contains(e2));
                            let j = choose|j: int| 0 <= j < i && #[trigger] self.pane_complexity@[j] == e2 && e2.0 != key;
                            assert(self.pane_complexity@[j] == e2);
                            assert(kept@[b] == self.pane_complexity@[i as int]);
                        } else {
                            assert(kept@[a] == kept0[a] && kept@[b] == kept0[b]);
                        }
                    }
                }
            }
            i += 1;
        }
        if found {
            proof {
                assert forall|e: (PaneIndex, PaneComplexity)|
                    kept@.contains(e) <==> self.pane_complexity@.contains(e) && e.0 != key by {
                    if self.pane_complexity@.contains(e) && e.0 != key {
                        let j = choose|j: int| 0 <= j < n && self.pane_complexity@[j] == e;
                        assert(self.pane_complexity@[j] == e);
                    }
                }
            }
            self.pane_complexity = kept;
        } else {
            self.pane_complexity.push((key, value));
        }
        proof {
            if !has_pane_key(old(self).pane_complexity@, key) && pane_keys_unique(old(self).pane_complexity@) {
                let o = old(self).pane_complexity@;
                assert forall|a: int, b: int| 0 <= a < b < self.pane_complexity@.len() implies (#[trigger] self.pane_complexity@[a]).0 != (#[trigger] self.pane_complexity@[b]).0 by {
                    assert(self.pane_complexity@[a] == o[a]);
                    if b < o.len() {
                        assert(self.pane_complexity@[b] == o[b]);
                    }
                }
            }
            if old(self).wf() && (key.0 as int) < old(self).pane_count() {
                assert forall|i: int|
                    0 <= i < self.pane_complexity@.len() implies ((#[trigger] self.pane_complexity@[i]).0.0
                        as int) < self.pane_count() by {
                    let e = self.pane_complexity@[i];
                    assert(self.pane_complexity@.contains(e));
                    if e != (key, value) {
                        assert(old(self).pane_complexity@.contains(e));
                        let j = choose|j: int| 0 <= j < old(self).pane_complexity@.len() && old(self).pane_complexity@[j] == e;
                        assert(old(self).pane_complexity@[j] == e);
                    }
                }
                lemma_wf_same_graph(old(self), self);
            }
        }
    }
}

} // verus!
