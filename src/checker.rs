use vstd::prelude::*;
use vstd::set_lib::{lemma_int_range, set_int_range};
use crate::puzzle::{
    grid_nears, hline, vline, ComplexityColor, DotComplexity, DotIndex, LineComplexity, LineIndex,
    PaneComplexity, PaneIndex, Puzzle,
};

verus! {

/// Why a finished path is not a solution.
#[derive(Debug, Clone, Copy)]
pub enum SolutionError {
    /// The cursor is not resting on an end node.
    Incomplete,
    /// A node that must be visited was not.
    DotError(DotIndex),
    /// An edge that must be traversed was not, or a broken edge was.
    LineError(LineIndex),
    /// A region holds squares of two colors.
    PaneError,
}

/// The path traverses edge `l` (in either direction).
pub open spec fn on_line_path(line_path: Seq<LineIndex>, l: LineIndex) -> bool {
    exists|i: int| 0 <= i < line_path.len() && (#[trigger] line_path[i]).same_edge(l)
}

/// The adjacency in slot `k` of face `p` is not cut by the path.
pub open spec fn uncut(puzzle: &Puzzle, line_path: Seq<LineIndex>, p: int, k: int) -> bool {
    !on_line_path(line_path, puzzle.near(p, k).0)
}

/// `w` is a walk between faces whose step `i` leaves `w[i]` through its
/// adjacency slot `ks[i]`, over edges that the path does not cut.
pub open spec fn is_walk(
    puzzle: &Puzzle,
    line_path: Seq<LineIndex>,
    w: Seq<int>,
    ks: Seq<int>,
) -> bool {
    &&& w.len() == ks.len() + 1
    &&& forall|i: int| 0 <= i < w.len() ==> 0 <= #[trigger] w[i] < puzzle.pane_count()
    &&& forall|i: int|
        0 <= i < ks.len() ==> 0 <= #[trigger] ks[i] < puzzle.pane_nears@[w[i]]@.len()
            && puzzle.near(w[i], ks[i]).1.0 == w[i + 1] && uncut(puzzle, line_path, w[i], ks[i])
}

pub open spec fn reaches(puzzle: &Puzzle, line_path: Seq<LineIndex>, a: int, b: int) -> bool {
    exists|w: Seq<int>, ks: Seq<int>|
        is_walk(puzzle, line_path, w, ks) && w[0] == a && w.last() == b
}

/// Faces `a` and `b` lie in one region: some face reaches both.
pub open spec fn same_region(puzzle: &Puzzle, line_path: Seq<LineIndex>, a: int, b: int) -> bool {
    exists|c: int| reaches(puzzle, line_path, c, a) && reaches(puzzle, line_path, c, b)
}

/// Every uncut neighbour of a labelled face carries its label.
pub open spec fn closed(puzzle: &Puzzle, line_path: Seq<LineIndex>, label: Seq<usize>, p: int) -> bool {
    forall|k: int|
        0 <= k < puzzle.pane_nears@[p]@.len() && uncut(puzzle, line_path, p, k) ==> label[(
        #[trigger] puzzle.near(p, k)).1.0 as int] == label[p]
}

pub open spec fn in_component(comps: Seq<Vec<PaneIndex>>, g: int, p: int) -> bool {
    exists|j: int| 0 <= j < comps[g]@.len() && (#[trigger] comps[g]@[j]).0 == p
}

pub open spec fn in_some_component(comps: Seq<Vec<PaneIndex>>, p: int) -> bool {
    exists|g: int, j: int|
        0 <= g < comps.len() && 0 <= j < comps[g]@.len() && (#[trigger] comps[g]@[j]).0 == p
}

/// `comps` splits the faces into the regions that the path leaves: each face
/// stands in exactly one component, a component holds every uncut neighbour of
/// its members, and each member is reached from the component's first face.
pub open spec fn is_component_partition(
    puzzle: &Puzzle,
    line_path: Seq<LineIndex>,
    comps: Seq<Vec<PaneIndex>>,
) -> bool {
    &&& forall|g: int, j: int|
        0 <= g < comps.len() && 0 <= j < comps[g]@.len() ==> (#[trigger] comps[g]@[j]).0
            < puzzle.pane_count()
    &&& forall|p: int| 0 <= p < puzzle.pane_count() ==> #[trigger] in_some_component(comps, p)
    &&& forall|g1: int, j1: int, g2: int, j2: int|
        0 <= g1 < comps.len() && 0 <= j1 < comps[g1]@.len() && 0 <= g2 < comps.len() && 0 <= j2
            < comps[g2]@.len() && (#[trigger] comps[g1]@[j1]).0 == (#[trigger] comps[g2]@[j2]).0
            ==> g1 == g2 && j1 == j2
    &&& forall|g: int| 0 <= g < comps.len() ==> (#[trigger] comps[g]@).len() > 0
    &&& forall|g: int, j: int, k: int|
        0 <= g < comps.len() && 0 <= j < comps[g]@.len() && 0 <= k
            < puzzle.pane_nears@[comps[g]@[j].0 as int]@.len() && uncut(
            puzzle,
            line_path,
            comps[g]@[j].0 as int,
            k,
        ) ==> exists|j2: int|
            0 <= j2 < comps[g]@.len() && #[trigger] comps[g]@[j2] == (#[trigger] puzzle.near(
                comps[g]@[j].0 as int,
                k,
            )).1
    &&& forall|g: int, j: int|
        0 <= g < comps.len() && 0 <= j < comps[g]@.len() ==> reaches(
            puzzle,
            line_path,
            comps[g]@[0].0 as int,
            (#[trigger] comps[g]@[j]).0 as int,
        )
}

/// Labels and components agree: face `p` has label `g` exactly when it is a
/// member of component `g`.
pub open spec fn labels_match(label: Seq<usize>, comps: Seq<Vec<PaneIndex>>) -> bool {
    &&& forall|g: int, j: int|
        0 <= g < comps.len() && 0 <= j < comps[g]@.len() ==> label[(
        #[trigger] comps[g]@[j]).0 as int] == g
}

pub fn line_on_path(line_path: &Vec<LineIndex>, l: LineIndex) -> (r: bool)
    ensures
        r == on_line_path(line_path@, l),
{
    let mut i: usize = 0;
    while i < line_path.len()
        invariant
            i <= line_path@.len(),
            forall|j: int| 0 <= j < i ==> !(#[trigger] line_path@[j]).same_edge(l),
        decreases line_path@.len() - i,
    {
        if line_path[i] == l {
            return true;
        }
        i += 1;
    }
    false
}

pub fn dot_on_path(dot_path: &Vec<DotIndex>, d: DotIndex) -> (r: bool)
    ensures
        r == dot_path@.contains(d),
{
    let mut i: usize = 0;
    while i < dot_path.len()
        invariant
            i <= dot_path@.len(),
            forall|j: int| 0 <= j < i ==> dot_path@[j] != d,
        decreases dot_path@.len() - i,
    {
        if dot_path[i] == d {
            return true;
        }
        i += 1;
    }
    false
}

/// `a` and `b` name the same edge, so the path traverses both or neither.
proof fn lemma_same_edge_on_path(line_path: Seq<LineIndex>, a: LineIndex, b: LineIndex)
    requires
        a.same_edge(b),
    ensures
        on_line_path(line_path, a) == on_line_path(line_path, b),
{
    if on_line_path(line_path, a) {
        let i = choose|i: int| 0 <= i < line_path.len() && (#[trigger] line_path[i]).same_edge(a);
        assert(line_path[i].same_edge(b));
    }
    if on_line_path(line_path, b) {
        let i = choose|i: int| 0 <= i < line_path.len() && (#[trigger] line_path[i]).same_edge(b);
        assert(line_path[i].same_edge(a));
    }
}

/// Bookkeeping of the flood fill: labels, positions inside components, and
/// a walk from each labelled face's component root to the face.
pub open spec fn fill_inv(
    puzzle: &Puzzle,
    line_path: Seq<LineIndex>,
    label: Seq<usize>,
    comps: Seq<Vec<PaneIndex>>,
    pos: Seq<int>,
    walks: Seq<Seq<int>>,
    slots: Seq<Seq<int>>,
) -> bool {
    let n = puzzle.pane_count();
    &&& label.len() == n
    &&& pos.len() == n
    &&& walks.len() == n
    &&& slots.len() == n
    &&& forall|p: int| 0 <= p < n ==> #[trigger] label[p] == usize::MAX || label[p] < comps.len()
    &&& forall|p: int|
        0 <= p < n && #[trigger] label[p] != usize::MAX ==> 0 <= pos[p] < comps[label[p] as int]@.len()
            && comps[label[p] as int]@[pos[p]].0 == p
    &&& forall|g: int, j: int|
        0 <= g < comps.len() && 0 <= j < comps[g]@.len() ==> (#[trigger] comps[g]@[j]).0 < n
            && label[comps[g]@[j].0 as int] == g && pos[comps[g]@[j].0 as int] == j
    &&& forall|g: int| 0 <= g < comps.len() ==> (#[trigger] comps[g]@).len() > 0
    &&& forall|p: int|
        0 <= p < n && #[trigger] label[p] != usize::MAX ==> is_walk(
            puzzle,
            line_path,
            walks[p],
            slots[p],
        ) && walks[p][0] == comps[label[p] as int]@[0].0 && walks[p].last() == p
}

proof fn lemma_closed_after_label(
    puzzle: &Puzzle,
    line_path: Seq<LineIndex>,
    label: Seq<usize>,
    q: int,
    g: usize,
    p: int,
)
    requires
        puzzle.wf(),
        0 <= p < puzzle.pane_count(),
        label.len() == puzzle.pane_count(),
        0 <= q < label.len(),
        label[q] == usize::MAX,
        label[p] != usize::MAX,
        closed(puzzle, line_path, label, p),
    ensures
        closed(puzzle, line_path, label.update(q, g), p),
{
    let nl = label.update(q, g);
    assert forall|k: int|
        0 <= k < puzzle.pane_nears@[p]@.len() && uncut(puzzle, line_path, p, k) implies nl[(
    #[trigger] puzzle.near(p, k)).1.0 as int] == nl[p] by {
        assert(label[puzzle.near(p, k).1.0 as int] == label[p]);
    }
}

proof fn lemma_walk_extend(
    puzzle: &Puzzle,
    line_path: Seq<LineIndex>,
    w: Seq<int>,
    ks: Seq<int>,
    k: int,
)
    requires
        puzzle.wf(),
        is_walk(puzzle, line_path, w, ks),
        0 <= k < puzzle.pane_nears@[w.last()]@.len(),
        uncut(puzzle, line_path, w.last(), k),
    ensures
        is_walk(puzzle, line_path, w.push(puzzle.near(w.last(), k).1.0 as int), ks.push(k)),
{
    let q = puzzle.near(w.last(), k).1.0 as int;
    let w2 = w.push(q);
    let ks2 = ks.push(k);
    assert(0 <= q < puzzle.pane_count());
    assert forall|i: int| 0 <= i < ks2.len() implies 0 <= #[trigger] ks2[i] < puzzle.pane_nears@[w2[i]]@.len()
        && puzzle.near(w2[i], ks2[i]).1.0 == w2[i + 1] && uncut(puzzle, line_path, w2[i], ks2[i]) by {
        if i < ks.len() {
            assert(ks2[i] == ks[i]);
            assert(w2[i] == w[i]);
            assert(w2[i + 1] == w[i + 1]);
        }
    }
}

/// Labels stay constant along a walk once every face is closed.
proof fn lemma_walk_label(
    puzzle: &Puzzle,
    line_path: Seq<LineIndex>,
    label: Seq<usize>,
    w: Seq<int>,
    ks: Seq<int>,
)
    requires
        is_walk(puzzle, line_path, w, ks),
        label.len() == puzzle.pane_count(),
        forall|p: int| 0 <= p < puzzle.pane_count() ==> closed(puzzle, line_path, label, p),
    ensures
        label[w.last()] == label[w[0]],
    decreases ks.len(),
{
    if ks.len() > 0 {
        let w1 = w.drop_last();
        let ks1 = ks.drop_last();
        assert forall|i: int| 0 <= i < ks1.len() implies 0 <= #[trigger] ks1[i]
            < puzzle.pane_nears@[w1[i]]@.len() && puzzle.near(w1[i], ks1[i]).1.0 == w1[i + 1]
            && uncut(puzzle, line_path, w1[i], ks1[i]) by {
            assert(ks1[i] == ks[i]);
            assert(w1[i] == w[i]);
            assert(w1[i + 1] == w[i + 1]);
        }
        assert(forall|i: int| 0 <= i < w1.len() ==> #[trigger] w1[i] == w[i]);
        lemma_walk_label(puzzle, line_path, label, w1, ks1);
        let a = w[ks.len() - 1];
        let k = ks[ks.len() - 1];
        assert(closed(puzzle, line_path, label, a));
        assert(label[puzzle.near(a, k).1.0 as int] == label[a]);
    }
}

/// Number of faces below `i` that have no label yet.
pub open spec fn count_unlabelled(label: Seq<usize>, i: int) -> nat
    decreases i,
{
    if i <= 0 {
        0
    } else {
        count_unlabelled(label, i - 1) + if label[i - 1] == usize::MAX {
            1nat
        } else {
            0nat
        }
    }
}

proof fn lemma_count_after_label(label: Seq<usize>, q: int, g: usize, i: int)
    requires
        0 <= q < label.len(),
        0 <= i <= label.len(),
        label[q] == usize::MAX,
        g != usize::MAX,
    ensures
        q < i ==> count_unlabelled(label.update(q, g), i) + 1 == count_unlabelled(label, i),
        q >= i ==> count_unlabelled(label.update(q, g), i) == count_unlabelled(label, i),
    decreases i,
{
    if i > 0 {
        lemma_count_after_label(label, q, g, i - 1);
    }
}

/// Splits the faces into regions by flood fill and labels each face with
/// the number of its region.
fn label_components(puzzle: &Puzzle, line_path: &Vec<LineIndex>) -> (r: (
    Vec<usize>,
    Vec<Vec<PaneIndex>>,
))
    requires
        puzzle.wf(),
    ensures
        r.0@.len() == puzzle.pane_count(),
        forall|p: int| 0 <= p < puzzle.pane_count() ==> (#[trigger] r.0@[p]) < r.1@.len(),
        labels_match(r.0@, r.1@),
        forall|p: int|
            0 <= p < puzzle.pane_count() ==> #[trigger] closed(puzzle, line_path@, r.0@, p),
        forall|p: int|
            0 <= p < puzzle.pane_count() ==> reaches(
                puzzle,
                line_path@,
                r.1@[r.0@[p] as int]@[0].0 as int,
                p,
            ),
        is_component_partition(puzzle, line_path@, r.1@),
{
    let n = puzzle.pane_nears.len();
    let ghost lp = line_path@;
    let mut label: Vec<usize> = Vec::new();
    let mut i0: usize = 0;
    while i0 < n
        invariant
            i0 <= n,
            label@.len() == i0,
            forall|p: int| 0 <= p < i0 ==> label@[p] == usize::MAX,
        decreases n - i0,
    {
        label.push(usize::MAX);
        i0 += 1;
    }
    let mut comps: Vec<Vec<PaneIndex>> = Vec::new();
    let ghost mut pos: Seq<int> = Seq::new(n as nat, |i: int| 0);
    let ghost mut walks: Seq<Seq<int>> = Seq::new(n as nat, |i: int| seq![i]);
    let ghost mut slots: Seq<Seq<int>> = Seq::new(n as nat, |i: int| Seq::<int>::empty());
    let mut id: usize = 0;
    while id < n
        invariant
            n == puzzle.pane_count(),
            puzzle.wf(),
            lp == line_path@,
            id <= n,
            comps@.len() <= id,
            fill_inv(puzzle, lp, label@, comps@, pos, walks, slots),
            forall|p: int| 0 <= p < id ==> label@[p] != usize::MAX,
            forall|p: int|
                0 <= p < n && label@[p] != usize::MAX ==> #[trigger] closed(puzzle, lp, label@, p),
        decreases n - id,
    {
        if label[id] == usize::MAX {
            let g = comps.len();
            let mut cur: Vec<PaneIndex> = Vec::new();
            cur.push(PaneIndex(id as u16));
            proof {
                assert forall|p: int|
                    0 <= p < n && label@[p] != usize::MAX implies #[trigger] closed(
                    puzzle,
                    lp,
                    label@.update(id as int, g),
                    p,
                ) by {
                    lemma_closed_after_label(puzzle, lp, label@, id as int, g, p);
                }
            }
            let ghost label_before = label@;
            label.set(id, g);
            proof {
                pos = pos.update(id as int, 0);
                walks = walks.update(id as int, seq![id as int]);
                slots = slots.update(id as int, Seq::<int>::empty());
                let all = comps@.push(cur);
                assert(is_walk(puzzle, lp, seq![id as int], Seq::<int>::empty()));
                assert(all[g as int] == cur);
                assert forall|g2: int, j: int|
                    0 <= g2 < all.len() && 0 <= j < all[g2]@.len() implies (
                    #[trigger] all[g2]@[j]).0 < n && label@[all[g2]@[j].0 as int] == g2
                    && pos[all[g2]@[j].0 as int] == j by {
                    if g2 < g {
                        assert(all[g2] == comps@[g2]);
                    }
                }
                assert(fill_inv(puzzle, lp, label@, all, pos, walks, slots));
            }
            let mut stack: Vec<usize> = Vec::new();
            stack.push(id);
            proof {
                assert(stack@[0] == id);
                assert forall|p: int|
                    0 <= p < n && #[trigger] label@[p] == g implies closed(puzzle, lp, label@, p)
                        || stack@.contains(p as usize) by {
                    if p != id {
                        assert(label_before[p] == label@[p]);
                    }
                }
            }
            while stack.len() > 0
                invariant
                    n == puzzle.pane_count(),
                    puzzle.wf(),
                    lp == line_path@,
                    id < n,
                    g == comps@.len(),
                    g <= id,
                    fill_inv(puzzle, lp, label@, comps@.push(cur), pos, walks, slots),
                    forall|p: int| 0 <= p <= id ==> label@[p] != usize::MAX,
                    forall|s: int|
                        0 <= s < stack@.len() ==> #[trigger] stack@[s] < n && label@[stack@[s] as int]
                            == g,
                    forall|p: int|
                        0 <= p < n && label@[p] != usize::MAX && label@[p] < g ==> #[trigger] closed(
                            puzzle,
                            lp,
                            label@,
                            p,
                        ),
                    forall|p: int|
                        0 <= p < n && #[trigger] label@[p] == g ==> closed(puzzle, lp, label@, p)
                            || stack@.contains(p as usize),
                decreases count_unlabelled(label@, n as int), stack@.len(),
            {
                let ghost stack0 = stack@;
                let i = stack.pop().unwrap();
                let ghost after_pop = stack@;
                let ghost cnt0 = count_unlabelled(label@, n as int);
                proof {
                    assert(stack0 == after_pop.push(i));
                    assert(stack0[stack0.len() - 1] == i);
                }
                let near = &puzzle.pane_nears[i];
                let mut k: usize = 0;
                while k < near.len()
                    invariant
                        n == puzzle.pane_count(),
                        puzzle.wf(),
                        lp == line_path@,
                        i < n,
                        id < n,
                        near@ == puzzle.pane_nears@[i as int]@,
                        k <= near@.len(),
                        g == comps@.len(),
                        g <= id,
                        label@[i as int] == g,
                        fill_inv(puzzle, lp, label@, comps@.push(cur), pos, walks, slots),
                        forall|p: int| 0 <= p <= id ==> label@[p] != usize::MAX,
                        forall|s: int|
                            0 <= s < stack@.len() ==> #[trigger] stack@[s] < n && label@[stack@[s]
                                as int] == g,
                        forall|p: int|
                            0 <= p < n && label@[p] != usize::MAX && label@[p] < g
                                ==> #[trigger] closed(puzzle, lp, label@, p),
                        forall|p: int|
                            0 <= p < n && #[trigger] label@[p] == g ==> closed(puzzle, lp, label@, p)
                                || stack@.contains(p as usize) || p == i,
                        forall|k2: int|
                            0 <= k2 < k && uncut(puzzle, lp, i as int, k2) ==> label@[(
                            #[trigger] puzzle.near(i as int, k2)).1.0 as int] == g,
                        stack@.len() >= after_pop.len(),
                        forall|s: int| 0 <= s < after_pop.len() ==> stack@[s] == after_pop[s],
                        count_unlabelled(label@, n as int) + (stack@.len() - after_pop.len()) == cnt0,
                    decreases near@.len() - k,
                {
                    let (e, q) = near[k];
                    let qi = q.0 as usize;
                    let cut = line_on_path(line_path, e);
                    proof {
                        assert(puzzle.near(i as int, k as int) == (e, q));
                        assert(qi < n);
                    }
                    if !cut && label[qi] == usize::MAX {
                        let ghost old_label = label@;
                        let ghost all0 = comps@.push(cur);
                        proof {
                            assert forall|p: int|
                                0 <= p < n && label@[p] != usize::MAX && closed(puzzle, lp, label@, p)
                                    implies #[trigger] closed(
                                puzzle,
                                lp,
                                label@.update(qi as int, g),
                                p,
                            ) by {
                                lemma_closed_after_label(puzzle, lp, label@, qi as int, g, p);
                            }
                            lemma_count_after_label(label@, qi as int, g, n as int);
                            assert(label@[i as int] != usize::MAX);
                            assert(is_walk(puzzle, lp, walks[i as int], slots[i as int]));
                            assert(walks[i as int].last() == i);
                            lemma_walk_extend(puzzle, lp, walks[i as int], slots[i as int], k as int);
                        }
                        label.set(qi, g);
                        let ghost j_new = cur@.len() as int;
                        let ghost cur0 = cur@;
                        cur.push(q);
                        let ghost stack_before = stack@;
                        stack.push(qi);
                        proof {
                            pos = pos.update(qi as int, j_new);
                            walks = walks.update(qi as int, walks[i as int].push(qi as int));
                            slots = slots.update(qi as int, slots[i as int].push(k as int));
                            let all = comps@.push(cur);
                            assert(all[g as int] == cur);
                            assert forall|g2: int, j: int|
                                0 <= g2 < all.len() && 0 <= j < all[g2]@.len() implies (
                                #[trigger] all[g2]@[j]).0 < n && label@[all[g2]@[j].0 as int] == g2
                                && pos[all[g2]@[j].0 as int] == j by {
                                if g2 < g {
                                    assert(all[g2] == all0[g2]);
                                    assert(all0[g2]@[j].0 != qi);
                                } else if j < j_new {
                                    assert(all[g2]@[j] == all0[g2]@[j]);
                                    assert(all0[g2]@[j].0 != qi);
                                }
                            }
                            assert forall|p: int|
                                0 <= p < n && #[trigger] label@[p] != usize::MAX implies 0 <= pos[p]
                                < all[label@[p] as int]@.len() && all[label@[p] as int]@[pos[p]].0 == p by {
                                if p != qi {
                                    assert(old_label[p] == label@[p]);
                                    if label@[p] == g {
                                        assert(all[g as int]@[pos[p]] == all0[g as int]@[pos[p]]);
                                    } else {
                                        assert(all[label@[p] as int] == all0[label@[p] as int]);
                                    }
                                }
                            }
                            assert forall|p: int|
                                0 <= p < n && #[trigger] label@[p] != usize::MAX implies is_walk(
                                puzzle,
                                lp,
                                walks[p],
                                slots[p],
                            ) && walks[p][0] == all[label@[p] as int]@[0].0 && walks[p].last() == p by {
                                if p != qi {
                                    assert(old_label[p] == label@[p]);
                                    assert(all[label@[p] as int]@[0] == all0[label@[p] as int]@[0]);
                                } else {
                                    assert(walks[p][0] == walks[i as int][0]);
                                    assert(all[g as int]@[0] == all0[g as int]@[0]);
                                }
                            }
                            assert forall|p: int| 0 <= p < n implies #[trigger] label@[p] == usize::MAX
                                || label@[p] < all.len() by {
                                if p != qi {
                                    assert(old_label[p] == label@[p]);
                                }
                            }
                            assert forall|g2: int| 0 <= g2 < all.len() implies (#[trigger] all[g2]@).len()
                                > 0 by {
                                if g2 < g {
                                    assert(all[g2] == all0[g2]);
                                }
                            }
                            assert(fill_inv(puzzle, lp, label@, all, pos, walks, slots));
                            assert forall|p: int|
                                0 <= p < n && #[trigger] label@[p] == g implies closed(puzzle, lp, label@, p)
                                    || stack@.contains(p as usize) || p == i by {
                                if p == qi {
                                    assert(stack@[stack@.len() - 1] == qi);
                                } else {
                                    assert(old_label[p] == g);
                                    if !closed(puzzle, lp, old_label, p) && p != i {
                                        assert(stack_before.contains(p as usize));
                                        let s = choose|s: int| 0 <= s < stack_before.len() && stack_before[s] == p;
                                        assert(stack@[s] == p);
                                    }
                                }
                            }
                        }
                    } else {
                        proof {
                            if !cut {
                                let l = label@[qi as int];
                                if l < g {
                                    assert(puzzle.lists_back(qi as int, e, i as int));
                                    let j = choose|j: int|
                                        0 <= j < puzzle.pane_nears@[qi as int]@.len()
                                            && (#[trigger] puzzle.near(qi as int, j)).1.0 == i
                                            && puzzle.near(qi as int, j).0.same_edge(e);
                                    lemma_same_edge_on_path(lp, puzzle.near(qi as int, j).0, e);
                                    assert(closed(puzzle, lp, label@, qi as int));
                                    assert(label@[puzzle.near(qi as int, j).1.0 as int] == l);
                                }
                            }
                        }
                    }
                    k += 1;
                }
                proof {
                    assert(closed(puzzle, lp, label@, i as int));
                    assert forall|p: int|
                        0 <= p < n && #[trigger] label@[p] == g implies closed(puzzle, lp, label@, p)
                            || stack@.contains(p as usize) by {
                        if p != i && !closed(puzzle, lp, label@, p) {
                            assert(stack@.contains(p as usize));
                        }
                    }
                    if stack@.len() == after_pop.len() {
                        assert(stack@.len() < stack0.len());
                    }
                }
            }
            proof {
                assert forall|p: int|
                    0 <= p < n && label@[p] != usize::MAX implies #[trigger] closed(puzzle, lp, label@, p) by {
                    if label@[p] == g {
                        assert(!stack@.contains(p as usize));
                    }
                }
            }
            comps.push(cur);
        }
        id += 1;
    }
    proof {
        let c = comps@;
        assert forall|p: int| 0 <= p < n implies (#[trigger] label@[p]) < c.len() by {}
        assert forall|p: int| 0 <= p < n implies #[trigger] in_some_component(c, p) by {
            assert(c[label@[p] as int]@[pos[p]].0 == p);
        }
        assert forall|g: int, j: int, k: int|
            0 <= g < c.len() && 0 <= j < c[g]@.len() && 0 <= k
                < puzzle.pane_nears@[c[g]@[j].0 as int]@.len() && uncut(
                puzzle,
                lp,
                c[g]@[j].0 as int,
                k,
            ) implies exists|j2: int|
                0 <= j2 < c[g]@.len() && #[trigger] c[g]@[j2] == (#[trigger] puzzle.near(
                    c[g]@[j].0 as int,
                    k,
                )).1 by {
            let p = c[g]@[j].0 as int;
            assert(closed(puzzle, lp, label@, p));
            let q = puzzle.near(p, k).1.0 as int;
            assert(label@[q] == g);
            assert(c[g]@[pos[q]].0 == q);
        }
        assert forall|g: int, j: int|
            0 <= g < c.len() && 0 <= j < c[g]@.len() implies reaches(
                puzzle,
                lp,
                c[g]@[0].0 as int,
                (#[trigger] c[g]@[j]).0 as int,
            ) by {
            let p = c[g]@[j].0 as int;
            assert(label@[p] == g);
            assert(label@[p] != usize::MAX);
            assert(is_walk(puzzle, lp, walks[p], slots[p]));
            assert(walks[p][0] == c[g]@[0].0 && walks[p].last() == p);
        }
        assert forall|p: int|
            0 <= p < n implies reaches(puzzle, lp, c[label@[p] as int]@[0].0 as int, p) by {
            assert(label@[p] != usize::MAX);
            assert(is_walk(puzzle, lp, walks[p], slots[p]));
            assert(walks[p][0] == c[label@[p] as int]@[0].0 && walks[p].last() == p);
        }
        assert forall|g1: int, j1: int, g2: int, j2: int|
            0 <= g1 < c.len() && 0 <= j1 < c[g1]@.len() && 0 <= g2 < c.len() && 0 <= j2
                < c[g2]@.len() && (#[trigger] c[g1]@[j1]).0 == (#[trigger] c[g2]@[j2]).0
                implies g1 == g2 && j1 == j2 by {}
    }
    (label, comps)
}

/// Splits the faces into the regions that the path cuts the puzzle into.
pub fn find_components(puzzle: &Puzzle, line_path: &Vec<LineIndex>) -> (r: Vec<Vec<PaneIndex>>)
    requires
        puzzle.wf(),
    ensures
        is_component_partition(puzzle, line_path@, r@),
{
    let (_label, comps) = label_components(puzzle, line_path);
    comps
}

pub open spec fn dot_entry_ok(e: (DotIndex, DotComplexity), dot_path: Seq<DotIndex>) -> bool {
    match e.1 {
        DotComplexity::BlackHexagon => dot_path.contains(e.0),
    }
}

pub open spec fn line_entry_ok(e: (LineIndex, LineComplexity), line_path: Seq<LineIndex>) -> bool {
    match e.1 {
        LineComplexity::BlackHexagon => on_line_path(line_path, e.0),
        LineComplexity::LineBreak => !on_line_path(line_path, e.0),
    }
}

pub open spec fn square_color(c: PaneComplexity) -> ComplexityColor {
    match c {
        PaneComplexity::Square(color) => color,
    }
}

/// The key of the first node constraint, from position `i` on, that the path
/// breaks.
pub open spec fn first_dot_violation(
    entries: Seq<(DotIndex, DotComplexity)>,
    dot_path: Seq<DotIndex>,
    i: int,
) -> Option<DotIndex>
    decreases entries.len() - i,
{
    if i < 0 || i >= entries.len() {
        None
    } else if !dot_entry_ok(entries[i], dot_path) {
        Some(entries[i].0)
    } else {
        first_dot_violation(entries, dot_path, i + 1)
    }
}

/// The key of the first edge constraint, from position `i` on, that the path
/// breaks.
pub open spec fn first_line_violation(
    entries: Seq<(LineIndex, LineComplexity)>,
    line_path: Seq<LineIndex>,
    i: int,
) -> Option<LineIndex>
    decreases entries.len() - i,
{
    if i < 0 || i >= entries.len() {
        None
    } else if !line_entry_ok(entries[i], line_path) {
        Some(entries[i].0)
    } else {
        first_line_violation(entries, line_path, i + 1)
    }
}

/// Two squares of different colors stand in one region.
pub open spec fn regions_conflict(puzzle: &Puzzle, line_path: Seq<LineIndex>) -> bool {
    let pc = puzzle.pane_complexity@;
    exists|i: int, j: int|
        0 <= i < pc.len() && 0 <= j < pc.len() && square_color(pc[i].1) != square_color(pc[j].1)
            && #[trigger] same_region(puzzle, line_path, pc[i].0.0 as int, pc[j].0.0 as int)
}

/// The cursor rests on a node, and that node is an end.
pub open spec fn path_complete(puzzle: &Puzzle, at_dot: bool, dot_path: Seq<DotIndex>) -> bool {
    at_dot && dot_path.len() > 0 && puzzle.end_dots@.contains(dot_path.last())
}

/// What the validator answers for a path: `Incomplete` unless the path rests
/// on an end node; then the first broken node constraint, the first broken
/// edge constraint, a region with squares of two colors, in that order.
pub open spec fn verdict(
    puzzle: &Puzzle,
    at_dot: bool,
    dot_path: Seq<DotIndex>,
    line_path: Seq<LineIndex>,
) -> Result<(), SolutionError> {
    if !path_complete(puzzle, at_dot, dot_path) {
        Err(SolutionError::Incomplete)
    } else {
        match first_dot_violation(puzzle.dot_complexity@, dot_path, 0) {
            Some(d) => Err(SolutionError::DotError(d)),
            None => match first_line_violation(puzzle.line_complexity@, line_path, 0) {
                Some(l) => Err(SolutionError::LineError(l)),
                None => if regions_conflict(puzzle, line_path) {
                    Err(SolutionError::PaneError)
                } else {
                    Ok(())
                },
            },
        }
    }
}

fn check_dots(puzzle: &Puzzle, dot_path: &Vec<DotIndex>) -> (r: Option<DotIndex>)
    ensures
        r == first_dot_violation(puzzle.dot_complexity@, dot_path@, 0),
{
    let entries = &puzzle.dot_complexity;
    let mut i: usize = 0;
    while i < entries.len()
        invariant
            entries@ == puzzle.dot_complexity@,
            i <= entries@.len(),
            first_dot_violation(entries@, dot_path@, 0) == first_dot_violation(
                entries@,
                dot_path@,
                i as int,
            ),
        decreases entries@.len() - i,
    {
        let (d, c) = entries[i];
        match c {
            DotComplexity::BlackHexagon => {
                if !dot_on_path(dot_path, d) {
                    return Some(d);
                }
            },
        }
        i += 1;
    }
    None
}

fn check_lines(puzzle: &Puzzle, line_path: &Vec<LineIndex>) -> (r: Option<LineIndex>)
    ensures
        r == first_line_violation(puzzle.line_complexity@, line_path@, 0),
{
    let entries = &puzzle.line_complexity;
    let mut i: usize = 0;
    while i < entries.len()
        invariant
            entries@ == puzzle.line_complexity@,
            i <= entries@.len(),
            first_line_violation(entries@, line_path@, 0) == first_line_violation(
                entries@,
                line_path@,
                i as int,
            ),
        decreases entries@.len() - i,
    {
        let (l, c) = entries[i];
        let on_path = line_on_path(line_path, l);
        match c {
            LineComplexity::BlackHexagon => {
                if !on_path {
                    return Some(l);
                }
            },
            LineComplexity::LineBreak => {
                if on_path {
                    return Some(l);
                }
            },
        }
        i += 1;
    }
    None
}

fn color_of(c: &PaneComplexity) -> (r: ComplexityColor)
    ensures
        r == square_color(*c),
{
    match c {
        PaneComplexity::Square(color) => *color,
    }
}

/// Same-labelled faces share a region, and faces of one region share a label.
proof fn lemma_region_iff_label(
    puzzle: &Puzzle,
    line_path: Seq<LineIndex>,
    label: Seq<usize>,
    comps: Seq<Vec<PaneIndex>>,
    a: int,
    b: int,
)
    requires
        puzzle.wf(),
        0 <= a < puzzle.pane_count(),
        0 <= b < puzzle.pane_count(),
        label.len() == puzzle.pane_count(),
        forall|p: int| 0 <= p < puzzle.pane_count() ==> (#[trigger] label[p]) < comps.len(),
        forall|p: int|
            0 <= p < puzzle.pane_count() ==> #[trigger] closed(puzzle, line_path, label, p),
        forall|p: int|
            0 <= p < puzzle.pane_count() ==> reaches(
                puzzle,
                line_path,
                comps[label[p] as int]@[0].0 as int,
                p,
            ),
    ensures
        same_region(puzzle, line_path, a, b) <==> label[a] == label[b],
{
    if label[a] == label[b] {
        assert(reaches(puzzle, line_path, comps[label[a] as int]@[0].0 as int, a));
        assert(reaches(puzzle, line_path, comps[label[b] as int]@[0].0 as int, b));
    }
    if same_region(puzzle, line_path, a, b) {
        let c = choose|c: int|
            reaches(puzzle, line_path, c, a) && reaches(puzzle, line_path, c, b);
        let (w1, k1) = choose|w: Seq<int>, ks: Seq<int>|
            is_walk(puzzle, line_path, w, ks) && w[0] == c && w.last() == a;
        let (w2, k2) = choose|w: Seq<int>, ks: Seq<int>|
            is_walk(puzzle, line_path, w, ks) && w[0] == c && w.last() == b;
        lemma_walk_label(puzzle, line_path, label, w1, k1);
        lemma_walk_label(puzzle, line_path, label, w2, k2);
    }
}

fn check_panes(puzzle: &Puzzle, line_path: &Vec<LineIndex>) -> (r: bool)
    requires
        puzzle.wf(),
    ensures
        r == regions_conflict(puzzle, line_path@),
{
    let (label, comps) = label_components(puzzle, line_path);
    let entries = &puzzle.pane_complexity;
    let ghost pc = puzzle.pane_complexity@;
    let mut i: usize = 0;
    while i < entries.len()
        invariant
            entries@ == pc,
            pc == puzzle.pane_complexity@,
            puzzle.wf(),
            label@.len() == puzzle.pane_count(),
            i <= pc.len(),
            forall|p: int| 0 <= p < puzzle.pane_count() ==> (#[trigger] label@[p]) < comps@.len(),
            forall|p: int|
                0 <= p < puzzle.pane_count() ==> #[trigger] closed(puzzle, line_path@, label@, p),
            forall|p: int|
                0 <= p < puzzle.pane_count() ==> reaches(
                    puzzle,
                    line_path@,
                    comps@[label@[p] as int]@[0].0 as int,
                    p,
                ),
            forall|a: int, b: int|
                0 <= a < i && 0 <= b < pc.len() && square_color(pc[a].1) != square_color(pc[b].1)
                    ==> #[trigger] label@[pc[a].0.0 as int] != #[trigger] label@[pc[b].0.0 as int],
        decreases pc.len() - i,
    {
        let mut j: usize = 0;
        while j < entries.len()
            invariant
                entries@ == pc,
                pc == puzzle.pane_complexity@,
                puzzle.wf(),
                label@.len() == puzzle.pane_count(),
                i < pc.len(),
                forall|p: int| 0 <= p < puzzle.pane_count() ==> (#[trigger] label@[p]) < comps@.len(),
                forall|p: int|
                    0 <= p < puzzle.pane_count() ==> #[trigger] closed(puzzle, line_path@, label@, p),
                forall|p: int|
                    0 <= p < puzzle.pane_count() ==> reaches(
                        puzzle,
                        line_path@,
                        comps@[label@[p] as int]@[0].0 as int,
                        p,
                    ),
                j <= pc.len(),
                forall|a: int, b: int|
                    0 <= a < i && 0 <= b < pc.len() && square_color(pc[a].1) != square_color(
                        pc[b].1,
                    ) ==> #[trigger] label@[pc[a].0.0 as int] != #[trigger] label@[pc[b].0.0 as int],
                forall|b: int|
                    0 <= b < j && square_color(pc[i as int].1) != square_color(pc[b].1)
                        ==> label@[pc[i as int].0.0 as int] != #[trigger] label@[pc[b].0.0 as int],
            decreases pc.len() - j,
        {
            let (pane_a, color_a) = entries[i];
            let (pane_b, color_b) = entries[j];
            if color_of(&color_a) != color_of(&color_b) && label[pane_a.0 as usize] == label[pane_b.0 as usize] {
                proof {
                    lemma_region_iff_label(
                        puzzle,
                        line_path@,
                        label@,
                        comps@,
                        pane_a.0 as int,
                        pane_b.0 as int,
                    );
                    assert(same_region(puzzle, line_path@, pc[i as int].0.0 as int, pc[j as int].0.0 as int));
                }
                return true;
            }
            j += 1;
        }
        i += 1;
    }
    proof {
        if regions_conflict(puzzle, line_path@) {
            let (a, b) = choose|a: int, b: int|
                0 <= a < pc.len() && 0 <= b < pc.len() && square_color(pc[a].1) != square_color(
                    pc[b].1,
                ) && #[trigger] same_region(puzzle, line_path@, pc[a].0.0 as int, pc[b].0.0 as int);
            lemma_region_iff_label(
                puzzle,
                line_path@,
                label@,
                comps@,
                pc[a].0.0 as int,
                pc[b].0.0 as int,
            );
            assert(label@[pc[a].0.0 as int] != label@[pc[b].0.0 as int]);
        }
    }
    false
}

/// Judges a finished path against every constraint of the puzzle.
pub fn check_path(
    puzzle: &Puzzle,
    now_at_dot: bool,
    dot_path: &Vec<DotIndex>,
    line_path: &Vec<LineIndex>,
) -> (r: Result<(), SolutionError>)
    requires
        puzzle.wf(),
    ensures
        r == verdict(puzzle, now_at_dot, dot_path@, line_path@),
{
    if !now_at_dot || dot_path.len() == 0 {
        return Err(SolutionError::Incomplete);
    }
    let end_dot = dot_path[dot_path.len() - 1];
    if !dot_on_path(&puzzle.end_dots, end_dot) {
        return Err(SolutionError::Incomplete);
    }
    if let Some(d) = check_dots(puzzle, dot_path) {
        return Err(SolutionError::DotError(d));
    }
    if let Some(l) = check_lines(puzzle, line_path) {
        return Err(SolutionError::LineError(l));
    }
    if check_panes(puzzle, line_path) {
        return Err(SolutionError::PaneError);
    }
    Ok(())
}

proof fn lemma_no_dot_violation(entries: Seq<(DotIndex, DotComplexity)>, dot_path: Seq<DotIndex>, i: int)
    requires
        0 <= i <= entries.len(),
    ensures
        first_dot_violation(entries, dot_path, i) is None <==> forall|j: int|
            i <= j < entries.len() ==> dot_entry_ok(#[trigger] entries[j], dot_path),
    decreases entries.len() - i,
{
    if i < entries.len() {
        lemma_no_dot_violation(entries, dot_path, i + 1);
    }
}

proof fn lemma_no_line_violation(
    entries: Seq<(LineIndex, LineComplexity)>,
    line_path: Seq<LineIndex>,
    i: int,
)
    requires
        0 <= i <= entries.len(),
    ensures
        first_line_violation(entries, line_path, i) is None <==> forall|j: int|
            i <= j < entries.len() ==> line_entry_ok(#[trigger] entries[j], line_path),
    decreases entries.len() - i,
{
    if i < entries.len() {
        lemma_no_line_violation(entries, line_path, i + 1);
    }
}

proof fn lemma_walk_same_graph(first: &Puzzle, second: &Puzzle, lp: Seq<LineIndex>, w: Seq<int>, ks: Seq<int>)
    requires
        first.pane_nears@ == second.pane_nears@,
        is_walk(first, lp, w, ks),
    ensures
        is_walk(second, lp, w, ks),
{
    assert forall|i: int| 0 <= i < ks.len() implies 0 <= #[trigger] ks[i] < second.pane_nears@[w[i]]@.len()
        && second.near(w[i], ks[i]).1.0 == w[i + 1] && uncut(second, lp, w[i], ks[i]) by {
        assert(first.near(w[i], ks[i]) == second.near(w[i], ks[i]));
    }
}

proof fn lemma_region_same_graph(first: &Puzzle, second: &Puzzle, lp: Seq<LineIndex>, a: int, b: int)
    requires
        first.pane_nears@ == second.pane_nears@,
        same_region(first, lp, a, b),
    ensures
        same_region(second, lp, a, b),
{
    let c = choose|c: int| reaches(first, lp, c, a) && reaches(first, lp, c, b);
    let (w1, k1) = choose|w: Seq<int>, ks: Seq<int>| is_walk(first, lp, w, ks) && w[0] == c && w.last() == a;
    let (w2, k2) = choose|w: Seq<int>, ks: Seq<int>| is_walk(first, lp, w, ks) && w[0] == c && w.last() == b;
    lemma_walk_same_graph(first, second, lp, w1, k1);
    lemma_walk_same_graph(first, second, lp, w2, k2);
    assert(reaches(second, lp, c, a));
    assert(reaches(second, lp, c, b));
}

proof fn lemma_conflict_same_entries(first: &Puzzle, second: &Puzzle, lp: Seq<LineIndex>)
    requires
        first.pane_nears@ == second.pane_nears@,
        forall|e: (PaneIndex, PaneComplexity)|
            first.pane_complexity@.contains(e) ==> second.pane_complexity@.contains(e),
        regions_conflict(first, lp),
    ensures
        regions_conflict(second, lp),
{
    let pc1 = first.pane_complexity@;
    let pc2 = second.pane_complexity@;
    let (i, j) = choose|i: int, j: int|
        0 <= i < pc1.len() && 0 <= j < pc1.len() && square_color(pc1[i].1) != square_color(pc1[j].1)
            && #[trigger] same_region(first, lp, pc1[i].0.0 as int, pc1[j].0.0 as int);
    assert(pc1.contains(pc1[i]));
    assert(pc1.contains(pc1[j]));
    let i2 = choose|i2: int| 0 <= i2 < pc2.len() && pc2[i2] == pc1[i];
    let j2 = choose|j2: int| 0 <= j2 < pc2.len() && pc2[j2] == pc1[j];
    lemma_region_same_graph(first, second, lp, pc1[i].0.0 as int, pc1[j].0.0 as int);
    assert(same_region(second, lp, pc2[i2].0.0 as int, pc2[j2].0.0 as int));
}

/// Whether a path is accepted does not depend on the order of the constraint
/// lists: two puzzles with the same graph, the same ends and the same
/// constraint entries, listed in any order, accept the same paths.
pub proof fn lemma_verdict_ignores_constraint_order(
    first: &Puzzle,
    second: &Puzzle,
    at_dot: bool,
    dot_path: Seq<DotIndex>,
    line_path: Seq<LineIndex>,
)
    requires
        first.pane_nears@ == second.pane_nears@,
        first.end_dots@ == second.end_dots@,
        forall|e: (DotIndex, DotComplexity)|
            first.dot_complexity@.contains(e) <==> second.dot_complexity@.contains(e),
        forall|e: (LineIndex, LineComplexity)|
            first.line_complexity@.contains(e) <==> second.line_complexity@.contains(e),
        forall|e: (PaneIndex, PaneComplexity)|
            first.pane_complexity@.contains(e) <==> second.pane_complexity@.contains(e),
    ensures
        verdict(first, at_dot, dot_path, line_path) is Ok <==> verdict(second, at_dot, dot_path, line_path) is Ok,
{
    let d1 = first.dot_complexity@;
    let d2 = second.dot_complexity@;
    let l1 = first.line_complexity@;
    let l2 = second.line_complexity@;
    lemma_no_dot_violation(d1, dot_path, 0);
    lemma_no_dot_violation(d2, dot_path, 0);
    lemma_no_line_violation(l1, line_path, 0);
    lemma_no_line_violation(l2, line_path, 0);
    assert((forall|j: int| 0 <= j < d1.len() ==> dot_entry_ok(#[trigger] d1[j], dot_path)) <==> (
    forall|j: int| 0 <= j < d2.len() ==> dot_entry_ok(#[trigger] d2[j], dot_path))) by {
        if forall|j: int| 0 <= j < d1.len() ==> dot_entry_ok(#[trigger] d1[j], dot_path) {
            assert forall|j: int| 0 <= j < d2.len() implies dot_entry_ok(#[trigger] d2[j], dot_path) by {
                assert(d2.contains(d2[j]));
                let k = choose|k: int| 0 <= k < d1.len() && d1[k] == d2[j];
                assert(dot_entry_ok(d1[k], dot_path));
            }
        }
        if forall|j: int| 0 <= j < d2.len() ==> dot_entry_ok(#[trigger] d2[j], dot_path) {
            assert forall|j: int| 0 <= j < d1.len() implies dot_entry_ok(#[trigger] d1[j], dot_path) by {
                assert(d1.contains(d1[j]));
                let k = choose|k: int| 0 <= k < d2.len() && d2[k] == d1[j];
                assert(dot_entry_ok(d2[k], dot_path));
            }
        }
    }
    assert((forall|j: int| 0 <= j < l1.len() ==> line_entry_ok(#[trigger] l1[j], line_path)) <==> (
    forall|j: int| 0 <= j < l2.len() ==> line_entry_ok(#[trigger] l2[j], line_path))) by {
        if forall|j: int| 0 <= j < l1.len() ==> line_entry_ok(#[trigger] l1[j], line_path) {
            assert forall|j: int| 0 <= j < l2.len() implies line_entry_ok(#[trigger] l2[j], line_path) by {
                assert(l2.contains(l2[j]));
                let k = choose|k: int| 0 <= k < l1.len() && l1[k] == l2[j];
                assert(line_entry_ok(l1[k], line_path));
            }
        }
        if forall|j: int| 0 <= j < l2.len() ==> line_entry_ok(#[trigger] l2[j], line_path) {
            assert forall|j: int| 0 <= j < l1.len() implies line_entry_ok(#[trigger] l1[j], line_path) by {
                assert(l1.contains(l1[j]));
                let k = choose|k: int| 0 <= k < l2.len() && l2[k] == l1[j];
                assert(line_entry_ok(l2[k], line_path));
            }
        }
    }
    if regions_conflict(first, line_path) {
        lemma_conflict_same_entries(first, second, line_path);
    }
    if regions_conflict(second, line_path) {
        lemma_conflict_same_entries(second, first, line_path);
    }
}

/// On a complete path that meets every node constraint and traverses every
/// required edge, the validator answers `LineError` exactly when the path
/// traverses a broken edge.
pub proof fn lemma_forbidden_edge_exclusion(
    puzzle: &Puzzle,
    at_dot: bool,
    dot_path: Seq<DotIndex>,
    line_path: Seq<LineIndex>,
)
    requires
        path_complete(puzzle, at_dot, dot_path),
        forall|i: int|
            0 <= i < puzzle.dot_complexity@.len() ==> dot_entry_ok(
                #[trigger] puzzle.dot_complexity@[i],
                dot_path,
            ),
        forall|i: int|
            0 <= i < puzzle.line_complexity@.len() && (#[trigger] puzzle.line_complexity@[i]).1
                == LineComplexity::BlackHexagon ==> on_line_path(
                line_path,
                puzzle.line_complexity@[i].0,
            ),
    ensures
        verdict(puzzle, at_dot, dot_path, line_path) is Err && verdict(
            puzzle,
            at_dot,
            dot_path,
            line_path,
        )->Err_0 is LineError <==> exists|i: int|
            0 <= i < puzzle.line_complexity@.len() && (#[trigger] puzzle.line_complexity@[i]).1
                == LineComplexity::LineBreak && on_line_path(line_path, puzzle.line_complexity@[i].0),
{
    let lc = puzzle.line_complexity@;
    lemma_no_dot_violation(puzzle.dot_complexity@, dot_path, 0);
    lemma_no_line_violation(lc, line_path, 0);
    if exists|i: int|
        0 <= i < lc.len() && (#[trigger] lc[i]).1 == LineComplexity::LineBreak && on_line_path(
            line_path,
            lc[i].0,
        ) {
        let i = choose|i: int|
            0 <= i < lc.len() && (#[trigger] lc[i]).1 == LineComplexity::LineBreak && on_line_path(
                line_path,
                lc[i].0,
            );
        assert(!line_entry_ok(lc[i], line_path));
    } else {
        assert forall|j: int| 0 <= j < lc.len() implies line_entry_ok(#[trigger] lc[j], line_path) by {
            match lc[j].1 {
                LineComplexity::BlackHexagon => {},
                LineComplexity::LineBreak => {},
            }
        }
    }
}

/// Every member of a component reaches, along uncut adjacencies, only faces
/// of the same component.
proof fn lemma_walk_stays_in_component(
    puzzle: &Puzzle,
    line_path: Seq<LineIndex>,
    comps: Seq<Vec<PaneIndex>>,
    g: int,
    w: Seq<int>,
    ks: Seq<int>,
)
    requires
        is_component_partition(puzzle, line_path, comps),
        0 <= g < comps.len(),
        is_walk(puzzle, line_path, w, ks),
        in_component(comps, g, w[0]),
    ensures
        in_component(comps, g, w.last()),
    decreases ks.len(),
{
    if ks.len() > 0 {
        let w1 = w.drop_last();
        let ks1 = ks.drop_last();
        assert forall|i: int| 0 <= i < ks1.len() implies 0 <= #[trigger] ks1[i]
            < puzzle.pane_nears@[w1[i]]@.len() && puzzle.near(w1[i], ks1[i]).1.0 == w1[i + 1]
            && uncut(puzzle, line_path, w1[i], ks1[i]) by {
            assert(ks1[i] == ks[i]);
            assert(w1[i] == w[i]);
            assert(w1[i + 1] == w[i + 1]);
        }
        assert(forall|i: int| 0 <= i < w1.len() ==> #[trigger] w1[i] == w[i]);
        lemma_walk_stays_in_component(puzzle, line_path, comps, g, w1, ks1);
        let a = w[ks.len() - 1];
        let k = ks[ks.len() - 1];
        let j = choose|j: int| 0 <= j < comps[g]@.len() && (#[trigger] comps[g]@[j]).0 == a;
        assert(comps[g]@[j].0 == a);
        let j2 = choose|j2: int|
            0 <= j2 < comps[g]@.len() && #[trigger] comps[g]@[j2] == (#[trigger] puzzle.near(
                comps[g]@[j].0 as int,
                k,
            )).1;
        assert(comps[g]@[j2].0 == w.last());
    }
}

/// With no edge on the path and every face reachable from face 0, the
/// regions are one: a single component that holds every face.
pub proof fn lemma_uncut_puzzle_is_one_region(puzzle: &Puzzle, comps: Seq<Vec<PaneIndex>>)
    requires
        puzzle.wf(),
        puzzle.pane_count() > 0,
        is_component_partition(puzzle, Seq::empty(), comps),
        forall|p: int| 0 <= p < puzzle.pane_count() ==> #[trigger] reaches(puzzle, Seq::empty(), 0, p),
    ensures
        comps.len() == 1,
        comps[0]@.len() == puzzle.pane_count(),
{
    let lp = Seq::<LineIndex>::empty();
    let n = puzzle.pane_count();
    assert(in_some_component(comps, 0));
    let (g0, j0) = choose|g: int, j: int|
        0 <= g < comps.len() && 0 <= j < comps[g]@.len() && (#[trigger] comps[g]@[j]).0 == 0;
    assert forall|p: int| 0 <= p < n implies #[trigger] in_component(comps, g0, p) by {
        assert(reaches(puzzle, lp, 0, p));
        let (w, ks) = choose|w: Seq<int>, ks: Seq<int>| is_walk(puzzle, lp, w, ks) && w[0] == 0 && w.last() == p;
        assert(comps[g0]@[j0].0 == w[0]);
        lemma_walk_stays_in_component(puzzle, lp, comps, g0, w, ks);
    }
    assert(comps.len() == 1 && g0 == 0) by {
        if comps.len() > 1 || g0 != 0 {
            let g: int = if g0 == 0 {
                1
            } else {
                0
            };
            assert(comps[g]@.len() > 0);
            let p = comps[g]@[0].0 as int;
            assert(comps[g]@[0].0 < n);
            assert(in_component(comps, g0, p));
            let j = choose|j: int| 0 <= j < comps[g0]@.len() && (#[trigger] comps[g0]@[j]).0 == p;
            assert(comps[g0]@[j].0 == comps[g]@[0].0);
        }
    }
    let members = comps[0]@.map_values(|x: PaneIndex| x.0 as int);
    assert(members.no_duplicates()) by {
        assert forall|a: int, b: int| 0 <= a < members.len() && 0 <= b < members.len() && a != b
            implies members[a] != members[b] by {
            if comps[0]@[a].0 == comps[0]@[b].0 {
            }
        }
    }
    members.unique_seq_to_set();
    assert(members.to_set() =~= set_int_range(0, n)) by {
        assert forall|p: int| set_int_range(0, n).contains(p) implies members.to_set().contains(p) by {
            assert(in_component(comps, g0, p));
            let j = choose|j: int| 0 <= j < comps[g0]@.len() && (#[trigger] comps[g0]@[j]).0 == p;
            assert(members[j] == p);
        }
        assert forall|p: int| members.to_set().contains(p) implies set_int_range(0, n).contains(p) by {
            let j = choose|j: int| 0 <= j < members.len() && members[j] == p;
            assert(comps[0]@[j].0 < n);
        }
    }
    lemma_int_range(0, n);
}

/// Slot of the right-hand neighbour in the list of face (x, y) of the grid.
spec fn right_slot(x: int, y: int) -> int {
    (if x > 0 {
        1int
    } else {
        0int
    }) + (if y > 0 {
        1int
    } else {
        0int
    })
}

/// Slot of the upper neighbour in the list of face (x, y) of the grid.
spec fn up_slot(x: int, y: int) -> int {
    right_slot(x, y) + (if x + 1 < 4 {
        1int
    } else {
        0int
    })
}

/// In a 4 x 4 grid of faces, face 0 reaches every face when nothing is cut:
/// along the bottom row, then up the column.
proof fn lemma_grid_reaches(puzzle: &Puzzle, p: int)
    requires
        puzzle.pane_nears@.len() == 16,
        forall|q: int| 0 <= q < 16 ==> (#[trigger] puzzle.pane_nears@[q])@ == grid_nears(q % 4, q / 4),
        0 <= p < 16,
    ensures
        reaches(puzzle, Seq::empty(), 0, p),
{
    let lp = Seq::<LineIndex>::empty();
    let x = p % 4;
    let y = p / 4;
    let w = Seq::new((x + y + 1) as nat, |i: int| if i <= x { i } else { x + (i - x) * 4 });
    let ks = Seq::new((x + y) as nat, |i: int| if i < x { right_slot(i, 0) } else { up_slot(x, i - x) });
    assert forall|i: int| 0 <= i < w.len() implies 0 <= #[trigger] w[i] < puzzle.pane_count() by {}
    assert forall|i: int| 0 <= i < ks.len() implies 0 <= #[trigger] ks[i] < puzzle.pane_nears@[w[i]]@.len()
        && puzzle.near(w[i], ks[i]).1.0 == w[i + 1] && uncut(puzzle, lp, w[i], ks[i]) by {
        if i < x {
            assert(w[i] == i && w[i] % 4 == i && w[i] / 4 == 0);
            assert(puzzle.pane_nears@[w[i]]@ == grid_nears(i, 0));
            assert(grid_nears(i, 0)[right_slot(i, 0)] == (vline(i + 1, 0), PaneIndex((i + 1) as u16)));
            assert(w[i + 1] == i + 1);
        } else {
            let j = i - x;
            let q = x + j * 4;
            assert(w[i] == q && q % 4 == x && q / 4 == j);
            assert(puzzle.pane_nears@[q]@ == grid_nears(x, j));
            assert(grid_nears(x, j)[up_slot(x, j)] == (hline(x, j + 1), PaneIndex((q + 4) as u16)));
            assert(w[i + 1] == q + 4);
        }
    }
    assert(is_walk(puzzle, lp, w, ks));
    assert(w[0] == 0);
    assert(w.last() == x + y * 4);
}

/// In a puzzle whose faces form the default 4 x 4 grid, a path with no edge
/// leaves one region that holds all 16 faces.
pub proof fn lemma_grid_is_one_region(puzzle: &Puzzle, comps: Seq<Vec<PaneIndex>>)
    requires
        puzzle.wf(),
        puzzle.pane_nears@.len() == 16,
        forall|q: int| 0 <= q < 16 ==> (#[trigger] puzzle.pane_nears@[q])@ == grid_nears(q % 4, q / 4),
        is_component_partition(puzzle, Seq::empty(), comps),
    ensures
        comps.len() == 1,
        comps[0]@.len() == 16,
{
    assert forall|p: int| 0 <= p < puzzle.pane_count() implies #[trigger] reaches(puzzle, Seq::empty(), 0, p) by {
        lemma_grid_reaches(puzzle, p);
    }
    lemma_uncut_puzzle_is_one_region(puzzle, comps);
}

} // verus!
