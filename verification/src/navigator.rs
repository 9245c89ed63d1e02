//! Shortest-path navigation over the scene graph.
//!
//! [`SceneGraph::find_path`] performs an unweighted breadth-first search and
//! returns a path with the minimum number of transitions; ties are broken by
//! declaration order of transitions on each visited scene, and the whole
//! result is pinned to a deterministic function of the graph and endpoints.
//! [`PathExecution`] is the perception-confirmed stepper that a driver runs
//! against the real application.

use vstd::prelude::*;

use crate::actions::DeviceAction;
use crate::scene_graph::{graph_wf, Scene, SceneGraph};

verus! {

/// One step of a path: take transition `trans` of scene `scene`.
#[derive(PartialEq, Eq, Structural, Clone, Copy, Debug)]
pub struct PathStep {
    pub scene: usize,
    pub trans: usize,
}

/// Navigation cannot reach the requested scene.
#[derive(PartialEq, Eq, Structural, Clone, Copy, Debug)]
pub enum NavError {
    NotFound,
}

/// Index of the scene a step's transition leads to.
pub open spec fn step_target(scenes: Seq<Scene>, st: PathStep) -> int {
    scenes[st.scene as int].transitions@[st.trans as int].target_idx as int
}

/// `p` is a chain of transitions leading from `from` to `to`.
pub open spec fn path_valid(scenes: Seq<Scene>, from: int, p: Seq<PathStep>, to: int) -> bool
    decreases p.len(),
{
    if p.len() == 0 {
        from == to
    } else {
        &&& 0 <= from < scenes.len()
        &&& p[0].scene == from
        &&& p[0].trans < scenes[from].transitions@.len()
        &&& path_valid(scenes, step_target(scenes, p[0]), p.drop_first(), to)
    }
}

/// Some path of exactly `n` transitions leads from `from` to `to`.
pub open spec fn has_path_n(scenes: Seq<Scene>, from: int, to: int, n: int) -> bool {
    exists|p: Seq<PathStep>| #[trigger] path_valid(scenes, from, p, to) && p.len() == n
}

/// Some path leads from `from` to `to`.
pub open spec fn reachable(scenes: Seq<Scene>, from: int, to: int) -> bool {
    exists|p: Seq<PathStep>| #[trigger] path_valid(scenes, from, p, to)
}

/// `n` is the graph's true shortest-path distance from `from` to `to`.
pub open spec fn is_dist(scenes: Seq<Scene>, from: int, to: int, n: int) -> bool {
    &&& n >= 0
    &&& has_path_n(scenes, from, to, n)
    &&& forall|m: int| 0 <= m < n ==> !has_path_n(scenes, from, to, m)
}

/// The shortest-path distance from `from` to `to` (meaningful only where
/// `to` is reachable).
pub open spec fn spec_dist(scenes: Seq<Scene>, from: int, to: int) -> int {
    choose|n: int| is_dist(scenes, from, to, n)
}

/// First transition index at or after `k` whose target is at distance
/// `d - 1` from `to`, or the transition count if there is none.
pub open spec fn first_dec_idx(scenes: Seq<Scene>, u: int, to: int, d: int, k: int) -> int
    decreases scenes[u].transitions@.len() - k,
{
    if !(0 <= u < scenes.len()) {
        0
    } else if k < 0 || k >= scenes[u].transitions@.len() {
        scenes[u].transitions@.len() as int
    } else if is_dist(scenes, scenes[u].transitions@[k].target_idx as int, to, d - 1) {
        k
    } else {
        first_dec_idx(scenes, u, to, d, k + 1)
    }
}

/// The canonical shortest path of length `d` from `u` to `to`: at each scene
/// take the first transition, in declaration order, that decreases the
/// distance. This is the path a FIFO breadth-first search discovers.
pub open spec fn canonical_path(scenes: Seq<Scene>, u: int, to: int, d: int) -> Seq<PathStep>
    decreases d,
{
    if d <= 0 {
        Seq::empty()
    } else {
        let k = first_dec_idx(scenes, u, to, d, 0);
        if 0 <= u < scenes.len() && k < scenes[u].transitions@.len() {
            seq![
                PathStep { scene: u as usize, trans: k as usize },
            ] + canonical_path(scenes, scenes[u].transitions@[k].target_idx as int, to, d - 1)
        } else {
            Seq::empty()
        }
    }
}

/// A sequence of scenes that came from a `Vec`, as all graphs here do, has
/// machine-representable lengths throughout.
proof fn lemma_trans_len_bounded(s: Scene)
    ensures
        s.transitions@.len() <= usize::MAX,
{
    broadcast use vstd::std_specs::vec::axiom_spec_len;

    assert(vstd::std_specs::vec::spec_vec_len(&s.transitions) == s.transitions@.len());
}

/// Prefixing one edge onto a path gives a path one step longer.
proof fn lemma_path_extend(
    scenes: Seq<Scene>,
    u: int,
    k: int,
    m: int,
    p: Seq<PathStep>,
    to: int,
)
    requires
        scenes.len() <= usize::MAX,
        0 <= u < scenes.len(),
        0 <= k < scenes[u].transitions@.len(),
        scenes[u].transitions@[k].target_idx == m,
        path_valid(scenes, m, p, to),
    ensures
        has_path_n(scenes, u, to, p.len() as int + 1),
{
    lemma_trans_len_bounded(scenes[u]);
    let st = PathStep { scene: u as usize, trans: k as usize };
    let q = seq![st] + p;
    assert(q[0] == st);
    assert(q.drop_first() =~= p);
    assert(step_target(scenes, st) == m);
    assert(path_valid(scenes, u, q, to));
}

/// The shortest-path distance is unique.
proof fn lemma_is_dist_unique(scenes: Seq<Scene>, from: int, to: int, n1: int, n2: int)
    requires
        is_dist(scenes, from, to, n1),
        is_dist(scenes, from, to, n2),
    ensures
        n1 == n2,
{
}

/// A scene at positive distance `d` has a transition to a scene at distance
/// `d - 1`, and the first such transition is what the canonical path takes.
proof fn lemma_dist_step(scenes: Seq<Scene>, u: int, to: int, d: int)
    requires
        scenes.len() <= usize::MAX,
        graph_wf(scenes),
        d > 0,
        is_dist(scenes, u, to, d),
    ensures
        0 <= u < scenes.len(),
        exists|k: int|
            0 <= k < scenes[u].transitions@.len() && #[trigger] is_dist(
                scenes,
                scenes[u].transitions@[k].target_idx as int,
                to,
                d - 1,
            ),
{
    let p = choose|p: Seq<PathStep>| path_valid(scenes, u, p, to) && p.len() == d;
    assert(path_valid(scenes, u, p, to));
    let k = p[0].trans as int;
    let m = step_target(scenes, p[0]);
    assert(path_valid(scenes, m, p.drop_first(), to));
    assert(has_path_n(scenes, m, to, d - 1));
    assert forall|e: int| 0 <= e < d - 1 implies !has_path_n(scenes, m, to, e) by {
        if has_path_n(scenes, m, to, e) {
            let q = choose|q: Seq<PathStep>| path_valid(scenes, m, q, to) && q.len() == e;
            lemma_path_extend(scenes, u, k, m, q, to);
            assert(has_path_n(scenes, u, to, e + 1));
        }
    }
    assert(is_dist(scenes, m, to, d - 1));
}

/// What the first-decreasing-transition scan returns.
proof fn lemma_first_dec_idx_props(scenes: Seq<Scene>, u: int, to: int, d: int, k: int)
    requires
        0 <= u < scenes.len(),
        0 <= k <= scenes[u].transitions@.len(),
    ensures
        ({
            let f = first_dec_idx(scenes, u, to, d, k);
            let nt = scenes[u].transitions@.len() as int;
            &&& k <= f <= nt
            &&& (f < nt ==> is_dist(scenes, scenes[u].transitions@[f].target_idx as int, to, d - 1))
            &&& forall|j: int|
                k <= j < f ==> !is_dist(
                    scenes,
                    #[trigger] scenes[u].transitions@[j].target_idx as int,
                    to,
                    d - 1,
                )
            &&& (f == nt ==> forall|j: int|
                k <= j < nt ==> !is_dist(
                    scenes,
                    #[trigger] scenes[u].transitions@[j].target_idx as int,
                    to,
                    d - 1,
                ))
        }),
    decreases scenes[u].transitions@.len() - k,
{
    if k < scenes[u].transitions@.len() {
        if !is_dist(scenes, scenes[u].transitions@[k].target_idx as int, to, d - 1) {
            lemma_first_dec_idx_props(scenes, u, to, d, k + 1);
        }
    }
}

/// The canonical path is a valid shortest path.
proof fn lemma_canonical_valid(scenes: Seq<Scene>, u: int, to: int, d: int)
    requires
        scenes.len() <= usize::MAX,
        graph_wf(scenes),
        is_dist(scenes, u, to, d),
    ensures
        path_valid(scenes, u, canonical_path(scenes, u, to, d), to),
        canonical_path(scenes, u, to, d).len() == d,
    decreases d,
{
    if d <= 0 {
        let p = choose|p: Seq<PathStep>| path_valid(scenes, u, p, to) && p.len() == d;
        assert(p.len() == 0);
        assert(u == to);
        assert(canonical_path(scenes, u, to, d) =~= Seq::<PathStep>::empty());
    } else {
        lemma_dist_step(scenes, u, to, d);
        let k0 = choose|k: int|
            0 <= k < scenes[u].transitions@.len() && #[trigger] is_dist(
                scenes,
                scenes[u].transitions@[k].target_idx as int,
                to,
                d - 1,
            );
        lemma_first_dec_idx_props(scenes, u, to, d, 0);
        let f = first_dec_idx(scenes, u, to, d, 0);
        assert(f <= k0);
        let m = scenes[u].transitions@[f].target_idx as int;
        lemma_canonical_valid(scenes, m, to, d - 1);
        lemma_trans_len_bounded(scenes[u]);
        let st = PathStep { scene: u as usize, trans: f as usize };
        let rest = canonical_path(scenes, m, to, d - 1);
        let whole = canonical_path(scenes, u, to, d);
        assert(whole == seq![st] + rest);
        assert(whole[0] == st);
        assert(whole.drop_first() =~= rest);
        assert(step_target(scenes, st) == m);
        assert(path_valid(scenes, u, whole, to));
    }
}

/// Once every edge is relaxed, the computed distances bound the length of
/// every path: `dist[v]` is at most the length of any path from `v`.
proof fn lemma_bfs_minimal(
    scenes: Seq<Scene>,
    dist: Seq<usize>,
    to: int,
    v: int,
    p: Seq<PathStep>,
)
    requires
        graph_wf(scenes),
        dist.len() == scenes.len(),
        0 <= to < scenes.len(),
        dist[to] == 0,
        forall|u: int, k: int|
            0 <= u < scenes.len() && 0 <= k < scenes[u].transitions@.len() ==> {
                let w = #[trigger] scenes[u].transitions@[k].target_idx as int;
                dist[w] < scenes.len() ==> dist[u] < scenes.len() && dist[u] <= dist[w] + 1
            },
        path_valid(scenes, v, p, to),
    ensures
        0 <= v < scenes.len(),
        dist[v] < scenes.len(),
        dist[v] <= p.len(),
    decreases p.len(),
{
    if p.len() == 0 {
    } else {
        let m = step_target(scenes, p[0]);
        lemma_bfs_minimal(scenes, dist, to, m, p.drop_first());
    }
}


/// Some transition of scene `u` leads to scene `w`.
pub open spec fn edge_to(scenes: Seq<Scene>, u: int, w: int) -> bool {
    &&& 0 <= u < scenes.len()
    &&& exists|k: int|
        0 <= k < scenes[u].transitions@.len() && (#[trigger] scenes[u].transitions@[k]).target_idx
            == w
}

/// An edge into a scene with a path gives a path one step longer.
proof fn lemma_edge_path(scenes: Seq<Scene>, v: int, u: int, to: int, d: int)
    requires
        scenes.len() <= usize::MAX,
        edge_to(scenes, v, u),
        d >= 0,
        has_path_n(scenes, u, to, d),
    ensures
        has_path_n(scenes, v, to, d + 1),
{
    let k = choose|k: int|
        0 <= k < scenes[v].transitions@.len() && (#[trigger] scenes[v].transitions@[k]).target_idx
            == u;
    let p = choose|p: Seq<PathStep>| #[trigger] path_valid(scenes, u, p, to) && p.len() == d;
    lemma_path_extend(scenes, v, k, u, p, to);
}

/// `v` still sits in the active part of the queue.
spec fn in_active(q: Seq<usize>, head: int, v: int) -> bool {
    exists|i: int| head <= i < q.len() && q[i] == v
}

impl SceneGraph {
    /// For every scene, the scenes with a transition into it.
    fn build_reverse_adjacency(&self) -> (radj: Vec<Vec<usize>>)
        requires
            self.wf(),
        ensures
            radj@.len() == self.scenes@.len(),
            forall|w: int, l: int|
                0 <= w < radj@.len() && 0 <= l < radj@[w]@.len() ==> edge_to(
                    self.scenes@,
                    #[trigger] radj@[w]@[l] as int,
                    w,
                ),
            forall|u: int, k: int|
                0 <= u < self.scenes@.len() && 0 <= k < self.scenes@[u].transitions@.len()
                    ==> radj@[(#[trigger] self.scenes@[u].transitions@[k]).target_idx as int]@
                    .contains(u as usize),
    {
        let ghost gs = self.scenes@;
        let n = self.scenes.len();
        let mut radj: Vec<Vec<usize>> = Vec::new();
        let mut w: usize = 0;
        while w < n
            invariant
                gs == self.scenes@,
                n == gs.len(),
                self.wf(),
                w <= n,
                radj@.len() == w as int,
                forall|ww: int, l: int|
                    0 <= ww < w && 0 <= l < radj@[ww]@.len() ==> edge_to(
                        gs,
                        #[trigger] radj@[ww]@[l] as int,
                        ww,
                    ),
                forall|u: int, k: int|
                    0 <= u < gs.len() && 0 <= k < gs[u].transitions@.len() && (
                    #[trigger] gs[u].transitions@[k]).target_idx < w ==> radj@[gs[u].transitions@[k].target_idx as int]@.contains(
                        u as usize,
                    ),
            decreases n - w,
        {
            let mut row: Vec<usize> = Vec::new();
            let mut u: usize = 0;
            while u < n
                invariant
                    gs == self.scenes@,
                    n == gs.len(),
                    self.wf(),
                    w < n,
                    u <= n,
                    forall|l: int|
                        0 <= l < row@.len() ==> edge_to(gs, #[trigger] row@[l] as int, w as int),
                    forall|uu: int, k: int|
                        0 <= uu < u && 0 <= k < gs[uu].transitions@.len() && (
                        #[trigger] gs[uu].transitions@[k]).target_idx == w ==> row@.contains(
                            uu as usize,
                        ),
                decreases n - u,
            {
                let mut k: usize = 0;
                let nk = self.scenes[u].transitions.len();
                while k < nk
                    invariant
                        gs == self.scenes@,
                        n == gs.len(),
                        self.wf(),
                        w < n,
                        u < n,
                        k <= nk,
                        nk == gs[u as int].transitions@.len(),
                        forall|l: int|
                            0 <= l < row@.len() ==> edge_to(gs, #[trigger] row@[l] as int, w as int),
                        forall|uu: int, kk: int|
                            0 <= uu < u && 0 <= kk < gs[uu].transitions@.len() && (
                            #[trigger] gs[uu].transitions@[kk]).target_idx == w ==> row@.contains(
                                uu as usize,
                            ),
                        forall|kk: int|
                            0 <= kk < k && (#[trigger] gs[u as int].transitions@[kk]).target_idx
                                == w ==> row@.contains(u),
                    decreases nk - k,
                {
                    if self.scenes[u].transitions[k].target_idx == w {
                        let ghost row0 = row@;
                        row.push(u);
                        proof {
                            assert(row@[row0.len() as int] == u);
                            assert forall|y: usize| row0.contains(y) implies row@.contains(y) by {
                                let i = choose|i: int| 0 <= i < row0.len() && row0[i] == y;
                                assert(row@[i] == y);
                            }
                            assert(edge_to(gs, u as int, w as int));
                        }
                    }
                    k += 1;
                }
                u += 1;
            }
            radj.push(row);
            w += 1;
        }
        radj
    }
}



/// The scenes the search has discovered: those with a distance below the
/// sentinel `n`.
spec fn disc_of(dist: Seq<usize>, n: usize) -> Set<int> {
    Set::new(|v: int| 0 <= v < dist.len() && dist[v] < n)
}

proof fn lemma_disc_bounds(dist: Seq<usize>, n: usize)
    ensures
        disc_of(dist, n).finite(),
        disc_of(dist, n).len() <= dist.len(),
{
    vstd::set_lib::lemma_int_range(0, dist.len() as int);
    vstd::set_lib::lemma_len_subset(
        disc_of(dist, n),
        vstd::set_lib::set_int_range(0, dist.len() as int),
    );
}

proof fn lemma_disc_insert(dist: Seq<usize>, n: usize, v: int, d: usize)
    requires
        0 <= v < dist.len(),
        dist[v] == n,
        d < n,
    ensures
        disc_of(dist.update(v, d), n) =~= disc_of(dist, n).insert(v),
        disc_of(dist.update(v, d), n).len() == disc_of(dist, n).len() + 1,
{
    broadcast use vstd::set::group_set_axioms;

    lemma_disc_bounds(dist, n);
    assert(disc_of(dist.update(v, d), n) =~= disc_of(dist, n).insert(v));
    assert(!disc_of(dist, n).contains(v));
}

impl SceneGraph {
    /// Shortest-path distance from every scene to `target`, by breadth-first
    /// search over reversed edges. An entry equal to the scene count marks
    /// an unreachable scene.
    fn bfs_dists(&self, target: usize) -> (dist: Vec<usize>)
        requires
            self.wf(),
            target < self.scenes@.len(),
        ensures
            dist@.len() == self.scenes@.len(),
            forall|v: int|
                0 <= v < dist@.len() ==> #[trigger] dist@[v] <= self.scenes@.len(),
            forall|v: int|
                0 <= v < dist@.len() && #[trigger] dist@[v] < self.scenes@.len() ==> is_dist(
                    self.scenes@,
                    v,
                    target as int,
                    dist@[v] as int,
                ),
            forall|v: int|
                0 <= v < dist@.len() && #[trigger] dist@[v] == self.scenes@.len() ==> !reachable(
                    self.scenes@,
                    v,
                    target as int,
                ),
    {
        broadcast use vstd::set::group_set_axioms;

        let ghost gs = self.scenes@;
        let n = self.scenes.len();
        let ghost gn = n as int;
        let ghost gt = target as int;
        let radj = self.build_reverse_adjacency();

        let mut dist: Vec<usize> = Vec::new();
        let mut i0: usize = 0;
        while i0 < n
            invariant
                i0 <= n,
                dist@.len() == i0 as int,
                forall|v: int| 0 <= v < i0 ==> #[trigger] dist@[v] == n,
            decreases n - i0,
        {
            dist.push(n);
            i0 += 1;
        }
        dist.set(target, 0);
        let mut queue: Vec<usize> = Vec::new();
        queue.push(target);
        proof {
            broadcast use vstd::set::group_set_axioms;

            assert(disc_of(dist@, n) =~= Set::empty().insert(gt));
            assert(disc_of(dist@, n).len() == 1);
            lemma_disc_bounds(dist@, n);
            let q = Seq::<PathStep>::empty();
            assert(path_valid(gs, gt, q, gt));
            assert(has_path_n(gs, gt, gt, 0));
            assert forall|v: int| 0 <= v < gn && #[trigger] dist@[v] < n implies exists|i: int|
                0 <= i < queue@.len() && queue@[i] == v by {
                assert(v == gt);
                assert(queue@[0] == target);
            }
        }
        let mut head: usize = 0;
        while head < queue.len()
            invariant
                gs == self.scenes@,
                n == gs.len(),
                gn == n as int,
                gt == target as int,
                self.wf(),
                target < n,
                radj@.len() == gn,
                forall|w: int, l: int|
                    0 <= w < radj@.len() && 0 <= l < radj@[w]@.len() ==> edge_to(
                        gs,
                        #[trigger] radj@[w]@[l] as int,
                        w,
                    ),
                forall|u: int, k: int|
                    0 <= u < gs.len() && 0 <= k < gs[u].transitions@.len()
                        ==> radj@[(#[trigger] gs[u].transitions@[k]).target_idx as int]@.contains(
                        u as usize,
                    ),
                dist@.len() == gn,
                forall|v: int| 0 <= v < gn ==> #[trigger] dist@[v] <= n,
                dist@[gt] == 0,
                disc_of(dist@, n).len() <= gn,
                forall|v: int|
                    0 <= v < gn && #[trigger] dist@[v] < n ==> dist@[v] < disc_of(dist@, n).len(),
                head <= queue@.len(),
                forall|i: int|
                    0 <= i < queue@.len() ==> (#[trigger] queue@[i]) < n && dist@[queue@[i] as int]
                        < n,
                forall|i: int, j: int|
                    0 <= i < j < queue@.len() ==> #[trigger] queue@[i] != #[trigger] queue@[j],
                forall|i: int, j: int|
                    0 <= i <= j < queue@.len() ==> dist@[#[trigger] queue@[i] as int] <= dist@[
                        #[trigger] queue@[j] as int
                    ],
                head < queue@.len() ==> dist@[queue@[queue@.len() - 1] as int] <= dist@[queue@[
                    head as int
                ] as int] + 1,
                forall|v: int|
                    0 <= v < gn && #[trigger] dist@[v] < n ==> exists|i: int|
                        0 <= i < queue@.len() && queue@[i] == v,
                forall|v: int|
                    0 <= v < gn && #[trigger] dist@[v] < n ==> has_path_n(
                        gs,
                        v,
                        gt,
                        dist@[v] as int,
                    ),
                forall|v: int|
                    0 <= v < gn && #[trigger] dist@[v] < n && !in_active(
                        queue@,
                        head as int,
                        v,
                    ) ==> forall|l: int|
                        0 <= l < radj@[v]@.len() ==> dist@[#[trigger] radj@[v]@[l] as int] < n
                            && dist@[radj@[v]@[l] as int] <= dist@[v] + 1,
            decreases queue@.len() - head + (gn - disc_of(dist@, n).len()),
        {
            let ghost head_old = head as int;
            let u = queue[head];
            head += 1;
            let du = dist[u];
            let ghost ghead = head as int;
            proof {
                assert(!in_active(queue@, ghead, u as int)) by {
                    if in_active(queue@, ghead, u as int) {
                        let i = choose|i: int|
                            ghead <= i < queue@.len() && queue@[i] == u;
                        assert(queue@[head_old] == u);
                    }
                }
            }
            let row_len = radj[u].len();
            let ghost qd0 = queue@.len() - disc_of(dist@, n).len();
            let mut l: usize = 0;
            while l < row_len
                invariant
                    gs == self.scenes@,
                    n == gs.len(),
                    gn == n as int,
                    gt == target as int,
                    self.wf(),
                    target < n,
                    radj@.len() == gn,
                    forall|w: int, ll: int|
                        0 <= w < radj@.len() && 0 <= ll < radj@[w]@.len() ==> edge_to(
                            gs,
                            #[trigger] radj@[w]@[ll] as int,
                            w,
                        ),
                    forall|uu: int, k: int|
                        0 <= uu < gs.len() && 0 <= k < gs[uu].transitions@.len()
                            ==> radj@[(#[trigger] gs[uu].transitions@[k]).target_idx as int]@
                            .contains(uu as usize),
                    u < n,
                    l <= row_len,
                    row_len == radj@[u as int]@.len(),
                    ghead == head as int,
                    1 <= ghead <= queue@.len(),
                    queue@[ghead - 1] == u,
                    dist@[u as int] == du,
                    du < n,
                    dist@.len() == gn,
                    forall|v: int| 0 <= v < gn ==> #[trigger] dist@[v] <= n,
                    dist@[gt] == 0,
                    disc_of(dist@, n).len() <= gn,
                    queue@.len() - disc_of(dist@, n).len() == qd0,
                    forall|v: int|
                        0 <= v < gn && #[trigger] dist@[v] < n ==> dist@[v] < disc_of(
                            dist@,
                            n,
                        ).len(),
                    forall|i: int|
                        0 <= i < queue@.len() ==> (#[trigger] queue@[i]) < n && dist@[queue@[
                            i
                        ] as int] < n,
                    forall|i: int, j: int|
                        0 <= i < j < queue@.len() ==> #[trigger] queue@[i] != #[trigger] queue@[j],
                    forall|i: int, j: int|
                        0 <= i <= j < queue@.len() ==> dist@[#[trigger] queue@[i] as int] <= dist@[
                            #[trigger] queue@[j] as int
                        ],
                    forall|i: int|
                        0 <= i < queue@.len() ==> dist@[#[trigger] queue@[i] as int] <= du + 1,
                    forall|v: int|
                        0 <= v < gn && #[trigger] dist@[v] < n ==> exists|i: int|
                            0 <= i < queue@.len() && queue@[i] == v,
                    forall|v: int|
                        0 <= v < gn && #[trigger] dist@[v] < n ==> has_path_n(
                            gs,
                            v,
                            gt,
                            dist@[v] as int,
                        ),
                    forall|v: int|
                        0 <= v < gn && #[trigger] dist@[v] < n && v != u as int && !in_active(
                            queue@,
                            ghead,
                            v,
                        ) ==> forall|ll: int|
                            0 <= ll < radj@[v]@.len() ==> dist@[#[trigger] radj@[v]@[ll] as int] < n
                                && dist@[radj@[v]@[ll] as int] <= dist@[v] + 1,
                    forall|ll: int|
                        0 <= ll < l ==> dist@[#[trigger] radj@[u as int]@[ll] as int] < n && dist@[
                            radj@[u as int]@[ll] as int
                        ] <= du + 1,
                decreases row_len - l,
            {
                let v = radj[u][l];
                proof {
                    assert(edge_to(gs, v as int, u as int));
                }
                if dist[v] == n {
                    let ghost dist0 = dist@;
                    let ghost q1 = queue@;
                    dist.set(v, du + 1);
                    queue.push(v);
                    proof {
                        broadcast use vstd::set::group_set_axioms;

                        let rng = vstd::set_lib::set_int_range(0, gn);
                        vstd::set_lib::lemma_int_range(0, gn);
                        assert(disc_of(dist0, n).subset_of(rng.remove(v as int)));
                        vstd::set_lib::lemma_len_subset(disc_of(dist0, n), rng.remove(v as int));
                        assert(rng.remove(v as int).len() == gn - 1);
                        assert(du + 1 < n);
                        lemma_disc_insert(dist0, n, v as int, (du + 1) as usize);
                        lemma_disc_bounds(dist@, n);
                        assert(has_path_n(gs, u as int, gt, du as int));
                        lemma_edge_path(gs, v as int, u as int, gt, du as int);
                        assert(queue@[q1.len() as int] == v);
                        assert forall|vv: int|
                            0 <= vv < gn && #[trigger] dist@[vv] < n implies exists|i: int|
                            0 <= i < queue@.len() && queue@[i] == vv by {
                            if vv == v as int {
                                assert(queue@[q1.len() as int] == vv);
                            } else {
                                let i = choose|i: int| 0 <= i < q1.len() && q1[i] == vv;
                                assert(queue@[i] == vv);
                            }
                        }
                    }
                }
                l += 1;
            }
            proof {
                assert forall|v: int|
                    0 <= v < gn && #[trigger] dist@[v] < n && !in_active(
                        queue@,
                        ghead,
                        v,
                    ) implies forall|ll: int|
                    0 <= ll < radj@[v]@.len() ==> dist@[#[trigger] radj@[v]@[ll] as int] < n
                        && dist@[radj@[v]@[ll] as int] <= dist@[v] + 1 by {}
            }
        }
        proof {
            assert forall|v: int|
                0 <= v < gn && #[trigger] dist@[v] < n implies is_dist(
                gs,
                v,
                gt,
                dist@[v] as int,
            ) by {
                assert(has_path_n(gs, v, gt, dist@[v] as int));
                assert forall|m: int| 0 <= m < dist@[v] implies !has_path_n(gs, v, gt, m) by {
                    if has_path_n(gs, v, gt, m) {
                        let p = choose|p: Seq<PathStep>|
                            #[trigger] path_valid(gs, v, p, gt) && p.len() == m;
                        lemma_bfs_dist_minimal(gs, radj@, queue@, dist@, gt, v, p);
                    }
                }
            }
            assert forall|v: int|
                0 <= v < gn && #[trigger] dist@[v] == n implies !reachable(gs, v, gt) by {
                if reachable(gs, v, gt) {
                    let p = choose|p: Seq<PathStep>| #[trigger] path_valid(gs, v, p, gt);
                    lemma_bfs_dist_minimal(gs, radj@, queue@, dist@, gt, v, p);
                }
            }
        }
        dist
    }
}

/// After the queue is exhausted, every edge is relaxed, so the computed
/// distances bound the length of every path.
proof fn lemma_bfs_dist_minimal(
    scenes: Seq<Scene>,
    radj: Seq<Vec<usize>>,
    queue: Seq<usize>,
    dist: Seq<usize>,
    to: int,
    v: int,
    p: Seq<PathStep>,
)
    requires
        graph_wf(scenes),
        radj.len() == scenes.len(),
        dist.len() == scenes.len(),
        0 <= to < scenes.len(),
        dist[to] == 0,
        forall|u: int, k: int|
            0 <= u < scenes.len() && 0 <= k < scenes[u].transitions@.len()
                ==> radj[(#[trigger] scenes[u].transitions@[k]).target_idx as int]@.contains(
                u as usize,
            ),
        forall|w: int|
            0 <= w < scenes.len() && #[trigger] dist[w] < scenes.len() ==> forall|l: int|
                0 <= l < radj[w]@.len() ==> dist[#[trigger] radj[w]@[l] as int] < scenes.len()
                    && dist[radj[w]@[l] as int] <= dist[w] + 1,
        path_valid(scenes, v, p, to),
    ensures
        0 <= v < scenes.len(),
        dist[v] < scenes.len(),
        dist[v] <= p.len(),
    decreases p.len(),
{
    if p.len() == 0 {
    } else {
        let m = step_target(scenes, p[0]);
        lemma_bfs_dist_minimal(scenes, radj, queue, dist, to, m, p.drop_first());
        let k = p[0].trans as int;
        assert(scenes[v].transitions@[k].target_idx as int == m);
        assert(radj[m]@.contains(v as usize));
        let l = choose|l: int| 0 <= l < radj[m]@.len() && radj[m]@[l] == v as usize;
        assert(dist[radj[m]@[l] as int] <= dist[m] + 1);
    }
}


impl SceneGraph {
    /// Shortest sequence of transitions from `start` to `target`, by
    /// unweighted breadth-first search.
    ///
    /// The returned path has the graph's true minimum transition count, and
    /// ties fall to the earliest transitions in declaration order: the result
    /// is pinned to [`canonical_path`], a function of the graph and the
    /// endpoints alone, so two calls on the same input return the same path.
    /// `start == target` yields the empty path; an unreachable target is
    /// `NavError::NotFound`, distinct from any execution failure.
    pub fn find_path(&self, start: usize, target: usize) -> (r: Result<Vec<PathStep>, NavError>)
        requires
            self.wf(),
            start < self.scenes@.len(),
            target < self.scenes@.len(),
        ensures
            r is Ok <==> reachable(self.scenes@, start as int, target as int),
            r matches Ok(p) ==> {
                &&& path_valid(self.scenes@, start as int, p@, target as int)
                &&& is_dist(self.scenes@, start as int, target as int, p@.len() as int)
                &&& forall|q: Seq<PathStep>|
                    path_valid(self.scenes@, start as int, q, target as int) ==> p@.len() <= q.len()
                &&& p@ == canonical_path(
                    self.scenes@,
                    start as int,
                    target as int,
                    spec_dist(self.scenes@, start as int, target as int),
                )
            },
            start == target ==> (r matches Ok(p) && p@.len() == 0),
    {
        let ghost gs = self.scenes@;
        let ghost gt = target as int;
        let n = self.scenes.len();
        let ghost gn = n as int;
        let dist = self.bfs_dists(target);
        if dist[start] == n {
            proof {
                if start == target {
                    let q = Seq::<PathStep>::empty();
                    assert(path_valid(gs, start as int, q, gt));
                    assert(reachable(gs, start as int, gt));
                }
            }
            return Err(NavError::NotFound);
        }
        let total = dist[start];
        let ghost d0 = total as int;
        proof {
            assert(is_dist(gs, start as int, gt, d0));
            let dd = spec_dist(gs, start as int, gt);
            assert(exists|m: int| #[trigger] is_dist(gs, start as int, gt, m));
            assert(is_dist(gs, start as int, gt, dd));
            lemma_is_dist_unique(gs, start as int, gt, dd, d0);
            lemma_canonical_valid(gs, start as int, gt, d0);
            let p0 = choose|p: Seq<PathStep>|
                #[trigger] path_valid(gs, start as int, p, gt) && p.len() == d0;
            assert(reachable(gs, start as int, gt));
        }
        let mut out: Vec<PathStep> = Vec::new();
        let mut cur: usize = start;
        while cur != target
            invariant
                gs == self.scenes@,
                n == gs.len(),
                gn == n as int,
                self.wf(),
                gt == target as int,
                target < n,
                cur < n,
                dist@.len() == gn,
                forall|v: int| 0 <= v < gn ==> #[trigger] dist@[v] <= n,
                forall|v: int|
                    0 <= v < gn && #[trigger] dist@[v] < n ==> is_dist(gs, v, gt, dist@[v] as int),
                forall|v: int|
                    0 <= v < gn && #[trigger] dist@[v] == n ==> !reachable(gs, v, gt),
                dist@[cur as int] < n,
                out@.len() + dist@[cur as int] == d0,
                out@ + canonical_path(gs, cur as int, gt, dist@[cur as int] as int)
                    == canonical_path(gs, start as int, gt, d0),
            decreases dist@[cur as int],
        {
            let d = dist[cur];
            proof {
                if d == 0 {
                    assert(is_dist(gs, cur as int, gt, 0));
                    let p = choose|p: Seq<PathStep>|
                        #[trigger] path_valid(gs, cur as int, p, gt) && p.len() == 0;
                    assert(cur as int == gt);
                }
            }
            let nk = self.scenes[cur].transitions.len();
            proof {
                lemma_dist_step(gs, cur as int, gt, d as int);
                lemma_first_dec_idx_props(gs, cur as int, gt, d as int, 0);
                let k0 = choose|k: int|
                    0 <= k < gs[cur as int].transitions@.len() && #[trigger] is_dist(
                        gs,
                        gs[cur as int].transitions@[k].target_idx as int,
                        gt,
                        d - 1,
                    );
                assert(first_dec_idx(gs, cur as int, gt, d as int, 0) <= k0);
            }
            let ghost fidx = first_dec_idx(gs, cur as int, gt, d as int, 0);
            let mut k: usize = 0;
            let mut step_k: usize = 0;
            let mut found: bool = false;
            while k < nk && !found
                invariant
                    gs == self.scenes@,
                    n == gs.len(),
                    gn == n as int,
                    self.wf(),
                    gt == target as int,
                    target < n,
                    cur < n,
                    1 <= d,
                    dist@[cur as int] == d,
                    d < n,
                    dist@.len() == gn,
                    forall|v: int| 0 <= v < gn ==> #[trigger] dist@[v] <= n,
                    forall|v: int|
                        0 <= v < gn && #[trigger] dist@[v] < n ==> is_dist(
                            gs,
                            v,
                            gt,
                            dist@[v] as int,
                        ),
                    forall|v: int|
                        0 <= v < gn && #[trigger] dist@[v] == n ==> !reachable(gs, v, gt),
                    nk == gs[cur as int].transitions@.len(),
                    k <= nk,
                    fidx == first_dec_idx(gs, cur as int, gt, d as int, 0),
                    0 <= fidx < nk,
                    is_dist(gs, gs[cur as int].transitions@[fidx].target_idx as int, gt, d - 1),
                    forall|j: int|
                        0 <= j < fidx ==> !is_dist(
                            gs,
                            #[trigger] gs[cur as int].transitions@[j].target_idx as int,
                            gt,
                            d - 1,
                        ),
                    !found ==> k <= fidx,
                    found ==> step_k as int == fidx,
                decreases nk - k + (if found {
                    0int
                } else {
                    1int
                }),
            {
                let w = self.scenes[cur].transitions[k].target_idx;
                if dist[w] == d - 1 {
                    proof {
                        assert(is_dist(gs, w as int, gt, d - 1));
                        assert(k as int == fidx) by {
                            if (k as int) < fidx {
                                assert(!is_dist(
                                    gs,
                                    gs[cur as int].transitions@[k as int].target_idx as int,
                                    gt,
                                    d - 1,
                                ));
                            }
                        }
                    }
                    step_k = k;
                    found = true;
                } else {
                    proof {
                        assert(k as int != fidx) by {
                            if k as int == fidx {
                                let m = gs[cur as int].transitions@[k as int].target_idx as int;
                                assert(is_dist(gs, m, gt, d - 1));
                                if dist@[m] < n {
                                    lemma_is_dist_unique(gs, m, gt, dist@[m] as int, d - 1);
                                } else {
                                    let p = choose|p: Seq<PathStep>|
                                        #[trigger] path_valid(gs, m, p, gt) && p.len() == d - 1;
                                    assert(reachable(gs, m, gt));
                                }
                            }
                        }
                    }
                    k += 1;
                }
            }
            let w = self.scenes[cur].transitions[step_k].target_idx;
            let ghost out0 = out@;
            out.push(PathStep { scene: cur, trans: step_k });
            proof {
                let st = PathStep { scene: cur, trans: step_k };
                let rest = canonical_path(gs, w as int, gt, d - 1);
                assert(canonical_path(gs, cur as int, gt, d as int) == seq![st] + rest);
                assert(out@ =~= out0 + seq![st]);
                assert(out@ + rest =~= out0 + (seq![st] + rest));
                assert(dist@[w as int] == d - 1);
            }
            cur = w;
        }
        proof {
            assert(is_dist(gs, gt, gt, 0)) by {
                let q = Seq::<PathStep>::empty();
                assert(path_valid(gs, gt, q, gt));
                assert(has_path_n(gs, gt, gt, 0));
            }
            assert(is_dist(gs, gt, gt, dist@[gt] as int));
            lemma_is_dist_unique(gs, gt, gt, dist@[gt] as int, 0);
            assert(canonical_path(gs, gt, gt, 0) =~= Seq::<PathStep>::empty());
            assert(out@ =~= out@ + canonical_path(gs, cur as int, gt, dist@[cur as int] as int));
            assert(out@ == canonical_path(gs, start as int, gt, d0));
            lemma_canonical_valid(gs, start as int, gt, d0);
            assert forall|q: Seq<PathStep>|
                path_valid(gs, start as int, q, gt) implies out@.len() <= q.len() by {
                assert(has_path_n(gs, start as int, gt, q.len() as int));
            }
            let dd = spec_dist(gs, start as int, gt);
            assert(is_dist(gs, start as int, gt, dd));
            lemma_is_dist_unique(gs, start as int, gt, dd, d0);
        }
        Ok(out)
    }
}


/// How navigation hands control onward after reaching a scene.
pub enum NavResult {
    /// The target scene was reached and nothing takes over.
    Success,
    /// Navigation could not proceed.
    Failed,
    /// A control handler takes over on this scene; carries the scene id.
    Handover(String),
}

impl SceneGraph {
    /// What reaching this scene hands control to: its handler, if one is
    /// configured.
    pub fn nav_outcome(&self, idx: usize) -> (r: NavResult)
        requires
            idx < self.scenes@.len(),
        ensures
            self.scenes@[idx as int].handler is Some ==> (r matches NavResult::Handover(id) && id@
                == self.scenes@[idx as int].id@),
            self.scenes@[idx as int].handler is None ==> r is Success,
    {
        match &self.scenes[idx].handler {
            Some(_) => NavResult::Handover(self.scenes[idx].id.clone()),
            None => NavResult::Success,
        }
    }

    /// The trigger actions of one path step: click the transition's trigger
    /// point, then let the application settle for the transition's delay.
    pub fn step_plan(&self, st: PathStep) -> (plan: Vec<DeviceAction>)
        requires
            st.scene < self.scenes@.len(),
            st.trans < self.scenes@[st.scene as int].transitions@.len(),
        ensures
            ({
                let t = self.scenes@[st.scene as int].transitions@[st.trans as int];
                plan@ == seq![
                    DeviceAction::MoveTo { x: t.x, y: t.y, ms: 300 },
                    DeviceAction::Click,
                    DeviceAction::Wait { ms: t.post_delay_ms as u64 },
                ]
            }),
    {
        let t = &self.scenes[st.scene].transitions[st.trans];
        let mut plan: Vec<DeviceAction> = Vec::new();
        plan.push(DeviceAction::MoveTo { x: t.x, y: t.y, ms: 300 });
        plan.push(DeviceAction::Click);
        plan.push(DeviceAction::Wait { ms: t.post_delay_ms as u64 });
        proof {
            let tt = self.scenes@[st.scene as int].transitions@[st.trans as int];
            assert(plan@ =~= seq![
                DeviceAction::MoveTo { x: tt.x, y: tt.y, ms: 300 },
                DeviceAction::Click,
                DeviceAction::Wait { ms: tt.post_delay_ms as u64 },
            ]);
        }
        plan
    }

    /// Perception-confirmed step execution: after a step's trigger has been
    /// performed, progress is confirmed exactly when the re-identified scene
    /// is the transition's target. Anything else is an execution failure to
    /// surface, never to ignore.
    pub fn step_confirmed(&self, st: PathStep, observed: Option<usize>) -> (r: bool)
        requires
            st.scene < self.scenes@.len(),
            st.trans < self.scenes@[st.scene as int].transitions@.len(),
        ensures
            r <==> observed == Some(
                self.scenes@[st.scene as int].transitions@[st.trans as int].target_idx,
            ),
    {
        match observed {
            Some(o) => o == self.scenes[st.scene].transitions[st.trans].target_idx,
            None => false,
        }
    }
}

} // verus!
