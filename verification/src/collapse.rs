//! Cycle collapsing: every strongly-connected component of the dependency
//! relation is merged into one composite unit, so that the surviving graph
//! is a DAG.
//!
//! Members of a component are merged in increasing node-index order, a
//! tie-break chosen here since the design leaves the exact ordering of
//! merged file lists open; it is deterministic for a given insertion
//! order, which in turn follows the traversal that built the graph. The
//! composite keeps the key of its smallest-index member. After the merge a
//! rank certificate for the surviving units is constructed and proved, so
//! the residual-cycle check that guards against a defective merge is shown
//! to never fire.

use vstd::prelude::*;

use crate::graph::UnitMap;
use crate::graph::UnitNode;
use crate::types::AnalysisError;
use crate::types::UnitInfo;

verus! {

impl UnitMap {
    /// `rk` certifies the graph as a DAG: every dependency edge strictly
    /// increases the rank.
    pub open spec fn is_ranked_by(self, rk: Seq<usize>) -> bool {
        &&& rk.len() == self.n()
        &&& forall|a: int, b: int| #[trigger] self.dep_edge(a, b) ==> rk[a] < rk[b]
    }

    /// The dependency relation admits a rank certificate, hence has no
    /// cycle.
    pub open spec fn is_dag(self) -> bool {
        exists|rk: Seq<usize>| self.is_ranked_by(rk)
    }

    /// `p` walks dependency edges: each step goes from a unit to one of
    /// its dependencies.
    pub open spec fn is_path(self, p: Seq<int>) -> bool {
        &&& p.len() >= 1
        &&& forall|i: int| 0 <= i < p.len() - 1 ==> #[trigger] self.dep_edge(p[i], p[i + 1])
    }
}

proof fn lemma_ranked_path_increases(m: UnitMap, rk: Seq<usize>, p: Seq<int>)
    requires
        m.is_ranked_by(rk),
        m.is_path(p),
        p.len() >= 2,
    ensures
        0 <= p[0] < m.n(),
        0 <= p.last() < m.n(),
        rk[p[0]] < rk[p.last()],
    decreases p.len(),
{
    let last_step = p.len() - 2;
    assert(m.dep_edge(p[last_step], p[last_step + 1]));
    if p.len() == 2 {
    } else {
        let q = p.drop_last();
        assert(m.is_path(q)) by {
            assert forall|i: int| 0 <= i < q.len() - 1 implies #[trigger] m.dep_edge(
                q[i],
                q[i + 1],
            ) by {
                assert(m.dep_edge(p[i], p[i + 1]));
            }
        }
        lemma_ranked_path_increases(m, rk, q);
        assert(q.last() == p[p.len() - 2]);
    }
}

/// Law: a graph with a rank certificate has no cyclic dependency walk — no
/// walk of at least one edge returns to its starting unit.
pub proof fn lemma_dag_no_cycle(m: UnitMap, p: Seq<int>)
    requires
        m.is_dag(),
        m.is_path(p),
        p.len() >= 2,
    ensures
        p[0] != p.last(),
{
    let rk = choose|rk: Seq<usize>| m.is_ranked_by(rk);
    lemma_ranked_path_increases(m, rk, p);
}

/// How many entries of `s` are set.
pub open spec fn count_true(s: Seq<bool>) -> int
    decreases s.len(),
{
    if s.len() == 0 {
        0
    } else {
        count_true(s.drop_last()) + if s.last() {
            1int
        } else {
            0int
        }
    }
}

proof fn lemma_count_true_update(s: Seq<bool>, i: int)
    requires
        0 <= i < s.len(),
        !s[i],
    ensures
        count_true(s.update(i, true)) == count_true(s) + 1,
    decreases s.len(),
{
    let u = s.update(i, true);
    if i == s.len() - 1 {
        assert(u.drop_last() =~= s.drop_last());
    } else {
        assert(u.drop_last() =~= s.drop_last().update(i, true));
        lemma_count_true_update(s.drop_last(), i);
    }
}

proof fn lemma_count_true_bound(s: Seq<bool>)
    ensures
        0 <= count_true(s) <= s.len(),
    decreases s.len(),
{
    if s.len() > 0 {
        lemma_count_true_bound(s.drop_last());
    }
}

proof fn lemma_count_true_none(s: Seq<bool>)
    requires
        forall|i: int| 0 <= i < s.len() ==> !s[i],
    ensures
        count_true(s) == 0,
    decreases s.len(),
{
    if s.len() > 0 {
        lemma_count_true_none(s.drop_last());
    }
}

proof fn lemma_count_true_full(s: Seq<bool>)
    requires
        count_true(s) == s.len(),
    ensures
        forall|i: int| 0 <= i < s.len() ==> s[i],
    decreases s.len(),
{
    if s.len() > 0 {
        lemma_count_true_bound(s.drop_last());
        assert(s.last());
        lemma_count_true_full(s.drop_last());
        assert forall|i: int| 0 <= i < s.len() implies s[i] by {
            if i < s.len() - 1 {
                assert(s.drop_last()[i]);
            }
        }
    }
}

/// `u` reaches `v` over at least one dependency edge.
pub open spec fn reaches(m: UnitMap, u: int, v: int) -> bool {
    exists|p: Seq<int>| #[trigger] m.is_path(p) && p.len() >= 2 && p[0] == u && p.last() == v
}

/// `u` and `v` belong to one strongly-connected component: they are equal,
/// or each reaches the other over the dependency edges.
pub open spec fn in_class(m: UnitMap, u: int, v: int) -> bool {
    u == v || (reaches(m, u, v) && reaches(m, v, u))
}

proof fn lemma_edge_reaches(m: UnitMap, u: int, v: int)
    requires
        m.dep_edge(u, v),
    ensures
        reaches(m, u, v),
{
    let p = seq![u, v];
    assert(m.dep_edge(p[0], p[0int + 1]));
    assert forall|i: int| 0 <= i < p.len() - 1 implies #[trigger] m.dep_edge(p[i], p[i + 1]) by {
        assert(i == 0);
    }
    assert(m.is_path(p));
    assert(p.last() == v);
}

proof fn lemma_reaches_trans(m: UnitMap, u: int, v: int, x: int)
    requires
        reaches(m, u, v),
        reaches(m, v, x),
    ensures
        reaches(m, u, x),
{
    let p1 = choose|p: Seq<int>|
        #[trigger] m.is_path(p) && p.len() >= 2 && p[0] == u && p.last() == v;
    let p2 = choose|p: Seq<int>|
        #[trigger] m.is_path(p) && p.len() >= 2 && p[0] == v && p.last() == x;
    let q = p1 + p2.subrange(1, p2.len() as int);
    assert(q.len() == p1.len() + p2.len() - 1);
    assert forall|i: int| 0 <= i < q.len() - 1 implies #[trigger] m.dep_edge(q[i], q[i + 1]) by {
        if i < p1.len() - 1 {
            assert(q[i] == p1[i]);
            assert(q[i + 1] == p1[i + 1]);
            assert(m.dep_edge(p1[i], p1[i + 1]));
        } else if i == p1.len() - 1 {
            assert(q[i] == p1[i]);
            assert(q[i + 1] == p2.subrange(1, p2.len() as int)[0]);
            assert(q[i + 1] == p2[1]);
            assert(m.dep_edge(p2[0], p2[0int + 1]));
        } else {
            let t = i - p1.len();
            assert(q[i] == p2.subrange(1, p2.len() as int)[t]);
            assert(q[i] == p2[t + 1]);
            assert(q[i + 1] == p2[t + 2]);
            assert(m.dep_edge(p2[t + 1], p2[t + 1 + 1]));
        }
    }
    assert(m.is_path(q));
    assert(q[0] == u);
    assert(q.last() == p2.subrange(1, p2.len() as int).last());
    assert(q.last() == x);
}

proof fn lemma_in_class_trans(m: UnitMap, a: int, b: int, c: int)
    requires
        in_class(m, a, b),
        in_class(m, b, c),
    ensures
        in_class(m, a, c),
{
    if a == b || b == c || a == c {
    } else {
        lemma_reaches_trans(m, a, b, c);
        lemma_reaches_trans(m, c, b, a);
    }
}

proof fn lemma_closed_along(m: UnitMap, row: Seq<bool>, p: Seq<int>)
    requires
        row.len() == m.n(),
        forall|a: int, b: int| #[trigger] m.dep_edge(a, b) && row[a] ==> row[b],
        m.is_path(p),
        0 <= p[0] < m.n(),
        row[p[0]],
    ensures
        row[p.last()],
    decreases p.len(),
{
    if p.len() == 1 {
    } else {
        let q = p.drop_last();
        assert forall|i: int| 0 <= i < q.len() - 1 implies #[trigger] m.dep_edge(q[i], q[i + 1]) by {
            assert(m.dep_edge(p[i], p[i + 1]));
        }
        assert(m.is_path(q));
        lemma_closed_along(m, row, q);
        let ls = p.len() - 2;
        assert(m.dep_edge(p[ls], p[ls + 1]));
        assert(q.last() == p[ls]);
    }
}

proof fn lemma_count_mono(s1: Seq<bool>, s2: Seq<bool>)
    requires
        s1.len() == s2.len(),
        forall|i: int| 0 <= i < s1.len() && s1[i] ==> s2[i],
    ensures
        count_true(s1) <= count_true(s2),
    decreases s1.len(),
{
    if s1.len() > 0 {
        assert forall|i: int|
            0 <= i < s1.drop_last().len() && s1.drop_last()[i] implies s2.drop_last()[i] by {
            assert(s1[i]);
        }
        lemma_count_mono(s1.drop_last(), s2.drop_last());
    }
}

proof fn lemma_count_strict(s1: Seq<bool>, s2: Seq<bool>, wi: int)
    requires
        s1.len() == s2.len(),
        forall|i: int| 0 <= i < s1.len() && s1[i] ==> s2[i],
        0 <= wi < s1.len(),
        s2[wi],
        !s1[wi],
    ensures
        count_true(s1) < count_true(s2),
    decreases s1.len(),
{
    assert forall|i: int|
        0 <= i < s1.drop_last().len() && s1.drop_last()[i] implies s2.drop_last()[i] by {
        assert(s1[i]);
    }
    if wi == s1.len() - 1 {
        lemma_count_mono(s1.drop_last(), s2.drop_last());
    } else {
        lemma_count_strict(s1.drop_last(), s2.drop_last(), wi);
    }
}

proof fn lemma_exists_false(s: Seq<bool>)
    requires
        count_true(s) < s.len(),
    ensures
        exists|i: int| 0 <= i < s.len() && !(#[trigger] s[i]),
    decreases s.len(),
{
    if s.len() > 0 {
        if !s.last() {
            assert(!s[s.len() - 1]);
        } else {
            lemma_exists_false(s.drop_last());
            let i = choose|i: int| 0 <= i < s.drop_last().len() && !(#[trigger] s.drop_last()[i]);
            assert(!s[i]);
        }
    }
}

proof fn lemma_min_unremoved(removed: Seq<bool>, rk: Seq<usize>, k: int) -> (b: int)
    requires
        removed.len() == rk.len(),
        0 < k <= removed.len(),
        exists|i: int| 0 <= i < k && !(#[trigger] removed[i]),
    ensures
        0 <= b < k,
        !removed[b],
        forall|x: int| 0 <= x < k && !(#[trigger] removed[x]) ==> rk[b] <= rk[x],
    decreases k,
{
    if !removed[k - 1] {
        if exists|i: int| 0 <= i < k - 1 && !(#[trigger] removed[i]) {
            let b0 = lemma_min_unremoved(removed, rk, k - 1);
            if rk[b0] <= rk[k - 1] {
                b0
            } else {
                k - 1
            }
        } else {
            assert forall|x: int| 0 <= x < k && !(#[trigger] removed[x]) implies rk[k - 1]
                <= rk[x] by {
                if x < k - 1 {
                    assert(false);
                }
            }
            k - 1
        }
    } else {
        assert(exists|i: int| 0 <= i < k - 1 && !(#[trigger] removed[i])) by {
            let i = choose|i: int| 0 <= i < k && !(#[trigger] removed[i]);
            assert(i != k - 1);
            assert(0 <= i < k - 1 && !removed[i]);
        }
        lemma_min_unremoved(removed, rk, k - 1)
    }
}

/// The row of the reflexive reachability relation of `x`, over `n` units.
pub open spec fn reach_row_seq(m: UnitMap, x: int, n: int) -> Seq<bool> {
    Seq::new(n as nat, |j: int| j == x || reaches(m, x, j))
}

impl UnitMap {
    /// Computes one row of the reachability relation: entry `j` is set
    /// exactly when `src` reaches `j` over at least one dependency edge.
    /// The direct dependencies are marked, then the marking is saturated —
    /// every dependency of a marked unit is marked — until a full pass
    /// changes nothing.
    fn reach_row(&self, src: usize) -> (row: Vec<bool>)
        requires
            self.wf(),
            (src as int) < self.n(),
        ensures
            row@.len() == self.n(),
            forall|j: int| 0 <= j < self.n() ==> (#[trigger] row@[j]) == reaches(*self, src as int, j),
    {
        let n = self.nodes.len();
        let mut row: Vec<bool> = Vec::new();
        let mut t: usize = 0;
        while t < n
            invariant
                t <= n,
                row@.len() == t,
                forall|b: int| 0 <= b < t ==> !row@[b],
            decreases n - t,
        {
            row.push(false);
            t = t + 1;
        }
        proof {
            lemma_count_true_none(row@);
        }
        let mut marked: usize = 0;
        let ds0 = &self.nodes[src].val.deps;
        let mut k: usize = 0;
        while k < ds0.len()
            invariant
                self.wf(),
                n == self.n(),
                (src as int) < n,
                ds0 == &self.nodes@[src as int].val.deps,
                row@.len() == n,
                k <= ds0@.len(),
                marked as int == count_true(row@),
                marked <= n,
                forall|j: int| 0 <= j < n && #[trigger] row@[j] ==> reaches(*self, src as int, j),
                forall|x: int| 0 <= x < k ==> row@[(#[trigger] ds0@[x]) as int],
            decreases ds0@.len() - k,
        {
            proof {
                assert(self.node_wf(src as int));
            }
            let d = ds0[k];
            if !row[d] {
                let ghost before = row@;
                row[d] = true;
                proof {
                    lemma_count_true_update(before, d as int);
                    lemma_count_true_bound(row@);
                }
                marked = marked + 1;
                proof {
                    assert(self.dep_edge(src as int, d as int)) by {
                        assert(self.nodes@[src as int].val.deps@[k as int] == d);
                    }
                    lemma_edge_reaches(*self, src as int, d as int);
                    assert forall|j: int|
                        0 <= j < n && #[trigger] row@[j] implies reaches(*self, src as int, j) by {
                        if j != d as int {
                            assert(row@[j] == before[j]);
                        }
                    }
                }
            }
            k = k + 1;
        }
        proof {
            assert forall|x: int| #[trigger] self.dep_edge(src as int, x) implies row@[x] by {
                let kk = choose|kk: int|
                    0 <= kk < self.nodes@[src as int].val.deps@.len()
                        && self.nodes@[src as int].val.deps@[kk] == x as usize;
                assert(row@[(self.nodes@[src as int].val.deps@[kk]) as int]);
            }
        }
        loop
            invariant
                self.wf(),
                n == self.n(),
                (src as int) < n,
                row@.len() == n,
                marked as int == count_true(row@),
                marked <= n,
                forall|j: int| 0 <= j < n && #[trigger] row@[j] ==> reaches(*self, src as int, j),
                forall|x: int| #[trigger] self.dep_edge(src as int, x) ==> row@[x],
            decreases n - marked,
        {
            let before_marked = marked;
            let mut u: usize = 0;
            while u < n
                invariant
                    self.wf(),
                    n == self.n(),
                    (src as int) < n,
                    row@.len() == n,
                    u <= n,
                    before_marked <= marked,
                    marked as int == count_true(row@),
                    marked <= n,
                    forall|j: int|
                        0 <= j < n && #[trigger] row@[j] ==> reaches(*self, src as int, j),
                    forall|x: int| #[trigger] self.dep_edge(src as int, x) ==> row@[x],
                    marked == before_marked ==> forall|a: int, b: int|
                        #[trigger] self.dep_edge(a, b) && a < u && row@[a] ==> row@[b],
                decreases n - u,
            {
                if row[u] {
                    let ds = &self.nodes[u].val.deps;
                    let mut t2: usize = 0;
                    while t2 < ds.len()
                        invariant
                            self.wf(),
                            n == self.n(),
                            (src as int) < n,
                            (u as int) < n,
                            ds == &self.nodes@[u as int].val.deps,
                            row@.len() == n,
                            t2 <= ds@.len(),
                            before_marked <= marked,
                            marked as int == count_true(row@),
                            marked <= n,
                            row@[u as int],
                            forall|j: int|
                                0 <= j < n && #[trigger] row@[j] ==> reaches(
                                    *self,
                                    src as int,
                                    j,
                                ),
                            forall|x: int| #[trigger] self.dep_edge(src as int, x) ==> row@[x],
                            forall|x: int| 0 <= x < t2 ==> row@[(#[trigger] ds@[x]) as int],
                            marked == before_marked ==> forall|a: int, b: int|
                                #[trigger] self.dep_edge(a, b) && a < u && row@[a] ==> row@[b],
                        decreases ds@.len() - t2,
                    {
                        proof {
                            assert(self.node_wf(u as int));
                        }
                        let d = ds[t2];
                        if !row[d] {
                            let ghost before = row@;
                            row[d] = true;
                            proof {
                                lemma_count_true_update(before, d as int);
                                lemma_count_true_bound(row@);
                            }
                            marked = marked + 1;
                            proof {
                                assert(self.dep_edge(u as int, d as int)) by {
                                    assert(self.nodes@[u as int].val.deps@[t2 as int] == d);
                                }
                                assert(reaches(*self, src as int, u as int));
                                lemma_edge_reaches(*self, u as int, d as int);
                                lemma_reaches_trans(*self, src as int, u as int, d as int);
                                assert forall|j: int|
                                    0 <= j < n && #[trigger] row@[j] implies reaches(
                                    *self,
                                    src as int,
                                    j,
                                ) by {
                                    if j != d as int {
                                        assert(row@[j] == before[j]);
                                    }
                                }
                                assert forall|x: int|
                                    #[trigger] self.dep_edge(src as int, x) implies row@[x] by {
                                    if x != d as int {
                                        assert(row@[x] == before[x]);
                                    }
                                }
                            }
                        }
                        t2 = t2 + 1;
                    }
                    proof {
                        if marked == before_marked {
                            assert forall|a: int, b: int|
                                #[trigger] self.dep_edge(a, b) && a < u + 1 && row@[a] implies
                                row@[b] by {
                                if a == u as int {
                                    let kk = choose|kk: int|
                                        0 <= kk < self.nodes@[a].val.deps@.len()
                                            && self.nodes@[a].val.deps@[kk] == b as usize;
                                    assert(row@[(self.nodes@[a].val.deps@[kk]) as int]);
                                }
                            }
                        }
                    }
                }
                u = u + 1;
            }
            if marked == before_marked {
                proof {
                    assert forall|a: int, b: int|
                        #[trigger] self.dep_edge(a, b) && row@[a] implies row@[b] by {
                        assert(a < n);
                    }
                    assert forall|j: int|
                        0 <= j < n implies (#[trigger] row@[j]) == reaches(
                        *self,
                        src as int,
                        j,
                    ) by {
                        if !row@[j] && reaches(*self, src as int, j) {
                            let p = choose|p: Seq<int>|
                                #[trigger] self.is_path(p) && p.len() >= 2 && p[0] == src as int
                                    && p.last() == j;
                            assert(self.dep_edge(p[0], p[0int + 1]));
                            assert(row@[p[1]]);
                            let q = p.subrange(1, p.len() as int);
                            assert forall|i: int|
                                0 <= i < q.len() - 1 implies #[trigger] self.dep_edge(
                                q[i],
                                q[i + 1],
                            ) by {
                                assert(q[i] == p[i + 1]);
                                assert(q[i + 1] == p[i + 2]);
                                assert(self.dep_edge(p[i + 1], p[i + 1 + 1]));
                            }
                            assert(self.is_path(q));
                            assert(q[0] == p[1]);
                            assert(q.last() == j);
                            lemma_closed_along(*self, row@, q);
                            assert(false);
                        }
                    }
                }
                return row;
            }
        }
    }
}

/// Computes a rank certificate for the dependency relation, or returns
/// nothing when the graph still holds a cycle: units are retired one at a
/// time, each only once all units it depends on — read off its mirrored
/// reverse edges — are already retired.
fn topo_ranks(m: &UnitMap) -> (r: Option<Vec<usize>>)
    requires
        m.wf(),
    ensures
        r matches Some(rk) ==> m.is_ranked_by(rk@),
        m.is_dag() ==> r is Some,
{
    let n = m.nodes.len();
    let mut removed: Vec<bool> = Vec::new();
    let mut rank: Vec<usize> = Vec::new();
    let mut t: usize = 0;
    while t < n
        invariant
            t <= n,
            removed@.len() == t,
            rank@.len() == t,
            forall|b: int| 0 <= b < t ==> !removed@[b],
        decreases n - t,
    {
        removed.push(false);
        rank.push(0);
        t = t + 1;
    }
    proof {
        lemma_count_true_none(removed@);
    }
    let mut count: usize = 0;
    while count < n
        invariant
            m.wf(),
            n == m.n(),
            count <= n,
            removed@.len() == n,
            rank@.len() == n,
            count_true(removed@) == count,
            forall|b: int| 0 <= b < n && removed@[b] ==> (#[trigger] rank@[b]) < count,
            forall|a: int, b: int|
                #[trigger] m.dep_edge(a, b) && removed@[b] ==> removed@[a] && rank@[a] < rank@[b],
        decreases n - count,
    {
        let mut i: usize = 0;
        let mut found = false;
        while i < n && !found
            invariant
                m.wf(),
                n == m.n(),
                count < n,
                removed@.len() == n,
                rank@.len() == n,
                i <= n,
                forall|b: int|
                    0 <= b < n && removed@[b] ==> (#[trigger] rank@[b]) < count + (if found {
                        1int
                    } else {
                        0int
                    }),
                forall|a: int, b: int|
                    #[trigger] m.dep_edge(a, b) && removed@[b] ==> removed@[a] && rank@[a]
                        < rank@[b],
                count_true(removed@) == count + (if found {
                    1int
                } else {
                    0int
                }),
                !found ==> forall|b: int|
                    0 <= b < i ==> removed@[b] || exists|a: int|
                        #[trigger] m.dep_edge(a, b) && !removed@[a],
            decreases n - i,
        {
            if !removed[i] {
                let preds = &m.nodes[i].val.reverse_deps;
                let mut k: usize = 0;
                let mut all = true;
                while k < preds.len()
                    invariant
                        preds == &m.nodes@[i as int].val.reverse_deps,
                        removed@.len() == n,
                        n == m.n(),
                        0 <= (i as int) < n,
                        m.wf(),
                        k <= preds@.len(),
                        all ==> forall|x: int|
                            0 <= x < k ==> (#[trigger] preds@[x] as int) < n && removed@[preds@[x]
                                as int],
                        !all ==> exists|a: int| #[trigger] m.dep_edge(a, i as int) && !removed@[a],
                    decreases preds@.len() - k,
                {
                    proof {
                        assert(m.node_wf(i as int));
                        assert((preds@[k as int] as int) < n);
                    }
                    let p = preds[k];
                    if !removed[p] {
                        all = false;
                        proof {
                            assert(m.rev_edge(p as int, i as int)) by {
                                assert(m.nodes@[i as int].val.reverse_deps@[k as int] == p);
                            }
                            assert(m.dep_edge(p as int, i as int));
                        }
                    }
                    k = k + 1;
                }
                if all {
                    let ghost before = removed@;
                    removed[i] = true;
                    rank[i] = count;
                    found = true;
                    proof {
                        lemma_count_true_update(before, i as int);
                        assert forall|a: int, b: int|
                            #[trigger] m.dep_edge(a, b) && removed@[b] implies removed@[a]
                            && rank@[a] < rank@[b] by {
                            if b == i as int {
                                assert(m.rev_edge(a, b));
                                let x = choose|x: int|
                                    0 <= x < m.nodes@[b].val.reverse_deps@.len()
                                        && m.nodes@[b].val.reverse_deps@[x] == a as usize;
                                assert(before[m.nodes@[b].val.reverse_deps@[x] as int]);
                                assert(before[a]);
                                assert(a != b);
                                assert(rank@[a] < count);
                            } else {
                                assert(before[b]);
                                if a == i as int {
                                    assert(m.dep_edge(a, b) && before[b]);
                                    assert(before[a]);
                                    assert(false);
                                }
                            }
                        }
                    }
                }
            }
            i = i + 1;
        }
        if !found {
            proof {
                if m.is_dag() {
                    let rk = choose|rk: Seq<usize>| m.is_ranked_by(rk);
                    lemma_exists_false(removed@);
                    let b = lemma_min_unremoved(removed@, rk, n as int);
                    assert(!removed@[b]);
                    let a = choose|a: int| #[trigger] m.dep_edge(a, b) && !removed@[a];
                    assert(m.dep_edge(a, b));
                    assert(rk[a] < rk[b]);
                    assert(0 <= a < n);
                    assert(rk[b] <= rk[a]);
                    assert(false);
                }
            }
            return Option::None;
        }
        count = count + 1;
    }
    proof {
        lemma_count_true_full(removed@);
        assert forall|a: int, b: int| #[trigger] m.dep_edge(a, b) implies rank@[a] < rank@[b] by {
            assert(0 <= b < n);
            assert(removed@[b]);
        }
    }
    Option::Some(rank)
}

/// `comp` assigns each unit a representative with a smaller-or-equal
/// index, representatives represent themselves, and `newpos` places every
/// representative below `nreps`.
pub open spec fn valid_comp(comp: Seq<usize>, newpos: Seq<usize>, nreps: int) -> bool {
    &&& comp.len() == newpos.len()
    &&& forall|x: int|
        0 <= x < comp.len() ==> (#[trigger] comp[x] as int) <= x && comp[comp[x] as int] == comp[x]
            && (newpos[comp[x] as int] as int) < nreps
}

/// Where the unit at old index `d` lands after the collapse.
pub open spec fn mapped(comp: Seq<usize>, newpos: Seq<usize>, d: int) -> int {
    newpos[comp[d] as int] as int
}

/// Merges the collapsed images of the old edge targets in `list` into
/// `acc`, skipping the composite's own position `p` and duplicates.
fn merge_mapped(
    acc: &mut Vec<usize>,
    list: &Vec<usize>,
    comp: &Vec<usize>,
    newpos: &Vec<usize>,
    p: usize,
    nreps: usize,
)
    requires
        valid_comp(comp@, newpos@, nreps as int),
        forall|x: int|
            0 <= x < old(acc)@.len() ==> (#[trigger] old(acc)@[x] as int) < nreps && old(acc)@[x]
                != p,
        old(acc)@.no_duplicates(),
        forall|k: int| 0 <= k < list@.len() ==> (#[trigger] list@[k] as int) < comp@.len(),
    ensures
        final(acc)@.no_duplicates(),
        forall|x: int|
            0 <= x < final(acc)@.len() ==> (#[trigger] final(acc)@[x] as int) < nreps
                && final(acc)@[x] != p,
        forall|x: usize|
            final(acc)@.contains(x) <==> (old(acc)@.contains(x) || (x != p && exists|k: int|
                0 <= k < list@.len() && mapped(comp@, newpos@, #[trigger] list@[k] as int) == x
                    as int)),
{
    let mut k: usize = 0;
    while k < list.len()
        invariant
            k <= list@.len(),
            valid_comp(comp@, newpos@, nreps as int),
            forall|x: int|
                0 <= x < acc@.len() ==> (#[trigger] acc@[x] as int) < nreps && acc@[x] != p,
            acc@.no_duplicates(),
            forall|kk: int| 0 <= kk < list@.len() ==> (#[trigger] list@[kk] as int) < comp@.len(),
            forall|x: usize|
                acc@.contains(x) <==> (old(acc)@.contains(x) || (x != p && exists|kk: int|
                    0 <= kk < k && mapped(comp@, newpos@, #[trigger] list@[kk] as int) == x
                        as int)),
        decreases list@.len() - k,
    {
        let d = list[k];
        let nd = newpos[comp[d]];
        proof {
            assert(mapped(comp@, newpos@, d as int) == nd as int);
            assert((nd as int) < nreps);
        }
        if nd != p && !crate::graph::contains_usize(acc, nd) {
            let ghost prior = acc@;
            acc.push(nd);
            proof {
                assert forall|x: int| 0 <= x < acc@.len() implies (#[trigger] acc@[x] as int)
                    < nreps && acc@[x] != p by {
                    if x < prior.len() {
                        assert(acc@[x] == prior[x]);
                    }
                }
                assert forall|x: int, y: int| 0 <= x < y < acc@.len() implies acc@[x] != acc@[y] by {
                    if y == prior.len() {
                        assert(acc@[x] == prior[x]);
                        assert(!prior.contains(nd));
                    }
                }
                assert forall|x: usize| #[trigger] acc@.contains(x) implies (old(
                    acc,
                )@.contains(x) || (x != p && exists|kk: int|
                    0 <= kk < k + 1 && mapped(comp@, newpos@, #[trigger] list@[kk] as int) == x
                        as int)) by {
                    let xi = choose|xi: int| 0 <= xi < acc@.len() && acc@[xi] == x;
                    if xi < prior.len() {
                        assert(prior.contains(x));
                    } else {
                        assert(x == nd);
                        assert(mapped(comp@, newpos@, list@[k as int] as int) == x as int);
                    }
                }
                assert forall|x: usize|
                    (old(acc)@.contains(x) || (x != p && exists|kk: int|
                        0 <= kk < k + 1 && mapped(comp@, newpos@, #[trigger] list@[kk] as int) == x
                            as int)) implies #[trigger] acc@.contains(x) by {
                    if old(acc)@.contains(x) || (x != p && exists|kk: int|
                        0 <= kk < k && mapped(comp@, newpos@, #[trigger] list@[kk] as int) == x
                            as int) {
                        assert(prior.contains(x));
                        let xi = choose|xi: int| 0 <= xi < prior.len() && prior[xi] == x;
                        assert(acc@[xi] == x);
                    } else {
                        assert(x == nd);
                        assert(acc@[prior.len() as int] == nd);
                    }
                }
            }
        } else {
            proof {
                if nd != p {
                    assert(acc@.contains(nd));
                }
                assert forall|x: usize| #[trigger] acc@.contains(x) == (old(acc)@.contains(x) || (x
                    != p && exists|kk: int|
                    0 <= kk < k + 1 && mapped(comp@, newpos@, #[trigger] list@[kk] as int) == x
                        as int)) by {
                    if !acc@.contains(x) {
                        if x != p && (exists|kk: int|
                            0 <= kk < k + 1 && mapped(comp@, newpos@, #[trigger] list@[kk] as int)
                                == x as int) {
                            let kk = choose|kk: int|
                                0 <= kk < k + 1 && mapped(comp@, newpos@, #[trigger] list@[kk]
                                    as int) == x as int;
                            assert(kk == k as int);
                            assert(x == nd);
                            assert(false);
                        }
                    }
                }
            }
        }
        k = k + 1;
    }
}

/// Some old edge joins a unit that lands on `a` to a unit that lands on
/// `b` under the collapse witness `w`.
pub open spec fn collapses_edge(prev: UnitMap, w: Seq<usize>, a: int, b: int) -> bool {
    exists|u: int, v: int|
        0 <= u < w.len() && 0 <= v < w.len() && #[trigger] prev.dep_edge(u, v) && w[u] as int == a
            && w[v] as int == b
}

/// The composite at new position `p` (representative `rep`) depends on new
/// position `x`: some member has an old dependency landing on `x`, and `x`
/// is not the composite itself.
pub open spec fn comp_dep(
    m: UnitMap,
    comp: Seq<usize>,
    newpos: Seq<usize>,
    rep: usize,
    p: int,
    x: usize,
) -> bool {
    (x as int) != p && exists|u: int, v: int|
        0 <= u < m.n() && 0 <= v < m.n() && comp[u] == rep && #[trigger] m.dep_edge(u, v) && mapped(
            comp,
            newpos,
            v,
        ) == x as int
}

/// The mirror image of [`comp_dep`]: some member of the composite at new
/// position `p` is depended on from a unit landing on `x`.
pub open spec fn comp_rev(
    m: UnitMap,
    comp: Seq<usize>,
    newpos: Seq<usize>,
    rep: usize,
    p: int,
    x: usize,
) -> bool {
    (x as int) != p && exists|s: int, u: int|
        0 <= s < m.n() && 0 <= u < m.n() && comp[u] == rep && #[trigger] m.dep_edge(s, u) && mapped(
            comp,
            newpos,
            s,
        ) == x as int
}

/// The character-level view of a list of file names.
pub open spec fn names_view(s: Seq<String>) -> Seq<Seq<char>> {
    s.map_values(|x: String| x@)
}

/// The concatenation, in old index order, of the header lists of the old
/// units among the first `upto` that land on new position `j` under the
/// witness `w`.
pub open spec fn merged_headers(m: UnitMap, w: Seq<usize>, j: int, upto: int) -> Seq<Seq<char>>
    decreases upto,
{
    if upto <= 0 {
        Seq::empty()
    } else {
        merged_headers(m, w, j, upto - 1) + (if (w[upto - 1] as int) == j {
            names_view(m.nodes@[upto - 1].val.headers@)
        } else {
            Seq::empty()
        })
    }
}

/// As [`merged_headers`], for the source lists.
pub open spec fn merged_srcs(m: UnitMap, w: Seq<usize>, j: int, upto: int) -> Seq<Seq<char>>
    decreases upto,
{
    if upto <= 0 {
        Seq::empty()
    } else {
        merged_srcs(m, w, j, upto - 1) + (if (w[upto - 1] as int) == j {
            names_view(m.nodes@[upto - 1].val.srcs@)
        } else {
            Seq::empty()
        })
    }
}

/// Representative bookkeeping: `reps` lists exactly the self-representing
/// indices, and `newpos` is its inverse.
pub open spec fn valid_reps(comp: Seq<usize>, newpos: Seq<usize>, reps: Seq<usize>) -> bool {
    &&& forall|q: int|
        0 <= q < reps.len() ==> ((#[trigger] reps[q]) as int) < comp.len() && comp[reps[q] as int]
            == reps[q] && (newpos[reps[q] as int] as int) == q
    &&& forall|x: int|
        0 <= x < comp.len() && comp[x] == x ==> ((#[trigger] newpos[x]) as int) < reps.len()
            && reps[newpos[x] as int] as int == x
}

proof fn lemma_mapped_rep(
    comp: Seq<usize>,
    newpos: Seq<usize>,
    reps: Seq<usize>,
    u: int,
    a: int,
)
    requires
        valid_comp(comp, newpos, reps.len() as int),
        valid_reps(comp, newpos, reps),
        0 <= u < comp.len(),
        0 <= a < reps.len(),
    ensures
        (comp[u] == reps[a]) == (mapped(comp, newpos, u) == a),
{
    let c = comp[u] as int;
    assert(comp[c] == comp[u]);
    if comp[u] == reps[a] {
        assert(newpos[reps[a] as int] as int == a);
    }
    if mapped(comp, newpos, u) == a {
        assert(comp[c] as int == c);
        assert(reps[newpos[c] as int] as int == c);
    }
}

impl UnitMap {
    /// Collapses every strongly-connected component of the dependency
    /// relation into one composite unit keyed by its smallest-index
    /// member, merging member file lists in index order, dropping the
    /// edges internal to a component, and retargeting all remaining edges
    /// (with their mirror images) to the composites. The returned witness
    /// maps every old node index to the new index of its composite, and
    /// two old units land on the same composite exactly when they are
    /// equal or mutually reachable; the surviving edges are exactly the
    /// old edges between distinct composites, and the surviving graph
    /// carries a rank certificate. Success is therefore owed: the
    /// residual-cycle failure, kept as a guard against a defective merge,
    /// is proved unreachable.
    pub fn collapse_cycles(&mut self) -> (r: (
        Result<(), AnalysisError>,
        Ghost<Seq<usize>>,
        Ghost<Seq<usize>>,
    ))
        requires
            old(self).wf(),
        ensures
            final(self).wf(),
            final(self).n() <= old(self).n(),
            r.1@.len() == old(self).n(),
            forall|i: int| 0 <= i < r.1@.len() ==> ((#[trigger] r.1@[i]) as int) < final(self).n(),
            r.2@.len() == final(self).n(),
            forall|j: int|
                0 <= j < final(self).n() ==> ((#[trigger] r.2@[j]) as int) < r.1@.len() && (r.1@[
                    r.2@[j] as int
                ] as int) == j && final(self).key_at(j) == old(self).key_at(r.2@[j] as int),
            forall|a: int, b: int|
                #[trigger] final(self).dep_edge(a, b) == (a != b && collapses_edge(
                    *old(self),
                    r.1@,
                    a,
                    b,
                )),
            forall|j: int|
                0 <= j < final(self).n() ==> names_view(
                    (#[trigger] final(self).info_at(j)).headers@,
                ) == merged_headers(*old(self), r.1@, j, old(self).n()) && names_view(
                    final(self).info_at(j).srcs@,
                ) == merged_srcs(*old(self), r.1@, j, old(self).n()),
            forall|u: int, v: int|
                0 <= u < old(self).n() && 0 <= v < old(self).n() ==> ((r.1@[u] == r.1@[v])
                    == #[trigger] in_class(*old(self), u, v)),
            final(self).is_dag(),
            r.0 is Ok,
            r.0 matches Err(e) ==> e == AnalysisError::ResidualCycle,
    {
        let n = self.nodes.len();
        // Exact reachability matrix: entry [x][j] says x reaches j over at
        // least one dependency edge.
        let mut g: Vec<Vec<bool>> = Vec::new();
        let mut i: usize = 0;
        while i < n
            invariant
                i <= n,
                n == self.n(),
                *self == *old(self),
                old(self).wf(),
                g@.len() == i,
                forall|x: int| 0 <= x < i ==> (#[trigger] g@[x])@.len() == n,
                forall|x: int, j: int|
                    0 <= x < i && 0 <= j < n ==> ((#[trigger] g@[x]@[j]) == reaches(
                        *old(self),
                        x,
                        j,
                    )),
            decreases n - i,
        {
            let r = self.reach_row(i);
            g.push(r);
            i = i + 1;
        }
        // Smallest mutually-reachable representative for every unit.
        let mut comp: Vec<usize> = Vec::new();
        let mut i3: usize = 0;
        while i3 < n
            invariant
                i3 <= n,
                comp@.len() == i3,
                n == self.n(),
                *self == *old(self),
                old(self).wf(),
                g@.len() == n,
                forall|x: int| 0 <= x < n ==> (#[trigger] g@[x])@.len() == n,
                forall|x: int, j: int|
                    0 <= x < n && 0 <= j < n ==> ((#[trigger] g@[x]@[j]) == reaches(
                        *old(self),
                        x,
                        j,
                    )),
                forall|x: int|
                    0 <= x < i3 ==> ((#[trigger] comp@[x]) as int) <= x && in_class(
                        *old(self),
                        comp@[x] as int,
                        x,
                    ) && (forall|jj: int|
                        0 <= jj < comp@[x] as int ==> !in_class(*old(self), jj, x)),
            decreases n - i3,
        {
            let mut c: usize = i3;
            let mut j3: usize = 0;
            while j3 < i3 && c == i3
                invariant
                    j3 <= i3,
                    i3 < n,
                    comp@.len() == i3,
                    n == self.n(),
                    *self == *old(self),
                    old(self).wf(),
                    g@.len() == n,
                    forall|x: int| 0 <= x < n ==> (#[trigger] g@[x])@.len() == n,
                    forall|x: int, j: int|
                        0 <= x < n && 0 <= j < n ==> ((#[trigger] g@[x]@[j]) == reaches(
                            *old(self),
                            x,
                            j,
                        )),
                    forall|x: int|
                        0 <= x < i3 ==> ((#[trigger] comp@[x]) as int) <= x && in_class(
                            *old(self),
                            comp@[x] as int,
                            x,
                        ) && (forall|jj: int|
                            0 <= jj < comp@[x] as int ==> !in_class(*old(self), jj, x)),
                    c == i3 || ((c as int) < i3 && comp@[c as int] == c && g@[i3 as int]@[c as int]
                        && g@[c as int]@[i3 as int]),
                    forall|j: int|
                        0 <= j < (if c == i3 {
                            j3 as int
                        } else {
                            c as int
                        }) ==> !(((#[trigger] comp@[j]) as int) == j && g@[i3 as int]@[j]
                            && g@[j]@[i3 as int]),
                decreases i3 - j3,
            {
                if comp[j3] == j3 && g[i3][j3] && g[j3][i3] {
                    c = j3;
                }
                j3 = j3 + 1;
            }
            proof {
                let m0 = *old(self);
                if c != i3 {
                    assert(in_class(m0, c as int, i3 as int));
                }
                assert forall|jj: int| 0 <= jj < c as int implies !in_class(m0, jj, i3 as int) by {
                    if in_class(m0, jj, i3 as int) {
                        assert(jj != i3 as int);
                        let mj = comp@[jj] as int;
                        assert((comp@[mj] as int) == mj) by {
                            if (comp@[mj] as int) != mj {
                                let c2 = comp@[mj] as int;
                                assert(c2 < mj);
                                lemma_in_class_trans(m0, c2, mj, jj);
                                assert(!in_class(m0, c2, jj));
                                assert(false);
                            }
                        }
                        lemma_in_class_trans(m0, mj, jj, i3 as int);
                        assert(mj != i3 as int);
                        assert(reaches(m0, mj, i3 as int) && reaches(m0, i3 as int, mj));
                        assert(g@[i3 as int]@[mj] && g@[mj]@[i3 as int]);
                        assert(false);
                    }
                }
            }
            comp.push(c);
            i3 = i3 + 1;
        }
        proof {
            // Every representative chain is idempotent: the chosen
            // representative represents itself.
            assert forall|x: int|
                0 <= x < n implies ((#[trigger] comp@[x]) as int) <= x && comp@[comp@[x] as int]
                == comp@[x] by {
                let c = comp@[x] as int;
                if (comp@[c] as int) != c {
                    let c2 = comp@[c] as int;
                    assert(c2 < c);
                    lemma_in_class_trans(*old(self), c2, c, x);
                    assert(!in_class(*old(self), c2, x));
                    assert(false);
                }
            }
        }
        // New positions: one slot per representative, in index order.
        let mut newpos: Vec<usize> = Vec::new();
        let mut i4: usize = 0;
        while i4 < n
            invariant
                i4 <= n,
                newpos@.len() == i4,
            decreases n - i4,
        {
            newpos.push(0);
            i4 = i4 + 1;
        }
        let mut reps: Vec<usize> = Vec::new();
        let mut i5: usize = 0;
        while i5 < n
            invariant
                i5 <= n,
                newpos@.len() == n,
                comp@.len() == n,
                n == self.n(),
                reps@.len() <= i5,
                forall|x: int|
                    0 <= x < n ==> ((#[trigger] comp@[x]) as int) <= x && comp@[comp@[x] as int]
                        == comp@[x],
                forall|q: int|
                    0 <= q < reps@.len() ==> ((#[trigger] reps@[q]) as int) < i5 && comp@[reps@[q]
                        as int] == reps@[q] && (newpos@[reps@[q] as int] as int) == q,
                forall|x: int|
                    0 <= x < i5 && comp@[x] == x ==> ((#[trigger] newpos@[x]) as int)
                        < reps@.len() && reps@[newpos@[x] as int] as int == x,
            decreases n - i5,
        {
            if comp[i5] == i5 {
                let ghost oldnp = newpos@;
                let ghost oldreps = reps@;
                let pos = reps.len();
                newpos[i5] = pos;
                reps.push(i5);
                proof {
                    assert forall|q: int|
                        0 <= q < reps@.len() implies ((#[trigger] reps@[q]) as int) < i5 + 1
                        && comp@[reps@[q] as int] == reps@[q] && (newpos@[reps@[q] as int] as int)
                        == q by {
                        if q < oldreps.len() {
                            assert(reps@[q] == oldreps[q]);
                            assert((oldreps[q] as int) != i5 as int);
                            assert(newpos@[reps@[q] as int] == oldnp[reps@[q] as int]);
                        } else {
                            assert(reps@[q] == i5);
                        }
                    }
                    assert forall|x: int|
                        0 <= x < i5 + 1 && comp@[x] == x implies ((#[trigger] newpos@[x]) as int)
                        < reps@.len() && reps@[newpos@[x] as int] as int == x by {
                        if x < i5 as int {
                            assert(newpos@[x] == oldnp[x]);
                            assert(reps@[oldnp[x] as int] == oldreps[oldnp[x] as int]);
                        } else {
                            assert(newpos@[x] as int == pos as int);
                        }
                    }
                }
            }
            i5 = i5 + 1;
        }
        let nreps = reps.len();
        proof {
            assert(valid_comp(comp@, newpos@, nreps as int));
            assert(valid_reps(comp@, newpos@, reps@));
        }
        let ghost w = Seq::new(n as nat, |x: int| newpos@[comp@[x] as int]);
        proof {
            // The witness groups exactly the strongly-connected components:
            // two units land on the same composite exactly when they are
            // equal or mutually reachable.
            let m0 = *old(self);
            assert forall|u: int, v: int|
                0 <= u < n && 0 <= v < n implies ((w[u] == w[v]) == #[trigger] in_class(
                m0,
                u,
                v,
            )) by {
                let cu = comp@[u] as int;
                let cv = comp@[v] as int;
                assert(in_class(m0, cu, u));
                assert(in_class(m0, cv, v));
                assert(in_class(m0, u, cu));
                if w[u] == w[v] {
                    assert((comp@[cu] as int) == cu);
                    assert((comp@[cv] as int) == cv);
                    assert(reps@[newpos@[cu] as int] as int == cu);
                    assert(reps@[newpos@[cv] as int] as int == cv);
                    assert(w[u] == newpos@[cu]);
                    assert(w[v] == newpos@[cv]);
                    assert(cu == cv);
                    lemma_in_class_trans(m0, u, cu, v);
                }
                if in_class(m0, u, v) {
                    if cu < cv {
                        lemma_in_class_trans(m0, cu, u, v);
                        assert(!in_class(m0, cu, v));
                        assert(false);
                    }
                    if cv < cu {
                        assert(in_class(m0, v, u));
                        lemma_in_class_trans(m0, cv, v, u);
                        assert(!in_class(m0, cv, u));
                        assert(false);
                    }
                    assert(cu == cv);
                    assert(w[u] == w[v]);
                }
            }
        }
        // Build the composite nodes, one per representative.
        let mut new_nodes: Vec<UnitNode> = Vec::new();
        let mut p: usize = 0;
        while p < nreps
            invariant
                p <= nreps,
                nreps == reps@.len(),
                nreps <= n,
                n == self.n(),
                *self == *old(self),
                old(self).wf(),
                comp@.len() == n,
                newpos@.len() == n,
                valid_comp(comp@, newpos@, nreps as int),
                valid_reps(comp@, newpos@, reps@),
                new_nodes@.len() == p,
                forall|q: int|
                    0 <= q < p ==> (#[trigger] new_nodes@[q]).key@ == self.key_at(reps@[q] as int),
                forall|q: int|
                    0 <= q < p ==> (#[trigger] new_nodes@[q]).val.deps@.no_duplicates()
                        && new_nodes@[q].val.reverse_deps@.no_duplicates(),
                forall|q: int, x: int|
                    0 <= q < p && 0 <= x < new_nodes@[q].val.deps@.len() ==> ((
                    #[trigger] new_nodes@[q].val.deps@[x]) as int) < nreps
                        && (new_nodes@[q].val.deps@[x] as int) != q,
                forall|q: int, x: int|
                    0 <= q < p && 0 <= x < new_nodes@[q].val.reverse_deps@.len() ==> ((
                    #[trigger] new_nodes@[q].val.reverse_deps@[x]) as int) < nreps && (
                    new_nodes@[q].val.reverse_deps@[x] as int) != q,
                forall|q: int, x: usize|
                    0 <= q < p ==> (#[trigger] new_nodes@[q].val.deps@.contains(x)) == comp_dep(
                        *self,
                        comp@,
                        newpos@,
                        reps@[q],
                        q,
                        x,
                    ),
                forall|q: int, x: usize|
                    0 <= q < p ==> (#[trigger] new_nodes@[q].val.reverse_deps@.contains(x))
                        == comp_rev(*self, comp@, newpos@, reps@[q], q, x),
                w.len() == n as int,
                forall|x: int| 0 <= x < n ==> (#[trigger] w[x]) == newpos@[comp@[x] as int],
                forall|q: int|
                    0 <= q < p ==> names_view((#[trigger] new_nodes@[q]).val.headers@)
                        == merged_headers(*old(self), w, q, n as int) && names_view(
                        new_nodes@[q].val.srcs@,
                    ) == merged_srcs(*old(self), w, q, n as int),
            decreases nreps - p,
        {
            let rep = reps[p];
            let mut info = UnitInfo {
                headers: Vec::new(),
                srcs: Vec::new(),
                deps: Vec::new(),
                reverse_deps: Vec::new(),
            };
            let mut i6: usize = 0;
            while i6 < n
                invariant
                    i6 <= n,
                    p < nreps,
                    nreps == reps@.len(),
                    nreps <= n,
                    n == self.n(),
                    *self == *old(self),
                    old(self).wf(),
                    comp@.len() == n,
                    newpos@.len() == n,
                    valid_comp(comp@, newpos@, nreps as int),
                    valid_reps(comp@, newpos@, reps@),
                    rep == reps@[p as int],
                    info.deps@.no_duplicates(),
                    info.reverse_deps@.no_duplicates(),
                    forall|x: int|
                        0 <= x < info.deps@.len() ==> ((#[trigger] info.deps@[x]) as int) < nreps
                            && info.deps@[x] != p,
                    forall|x: int|
                        0 <= x < info.reverse_deps@.len() ==> ((#[trigger] info.reverse_deps@[x])
                            as int) < nreps && info.reverse_deps@[x] != p,
                    forall|x: usize|
                        (#[trigger] info.deps@.contains(x)) == ((x as int) != p as int && exists|
                            u: int,
                            v: int,
                        |
                            0 <= u < i6 && 0 <= v < n && comp@[u] == rep
                                && #[trigger] self.dep_edge(u, v) && mapped(comp@, newpos@, v) == x
                                as int),
                    forall|x: usize|
                        (#[trigger] info.reverse_deps@.contains(x)) == ((x as int) != p as int
                            && exists|s: int, u: int|
                            0 <= u < i6 && 0 <= s < n && comp@[u] == rep
                                && #[trigger] self.dep_edge(s, u) && mapped(comp@, newpos@, s) == x
                                as int),
                    w.len() == n as int,
                    forall|x: int| 0 <= x < n ==> (#[trigger] w[x]) == newpos@[comp@[x] as int],
                    names_view(info.headers@) == merged_headers(*old(self), w, p as int, i6 as int),
                    names_view(info.srcs@) == merged_srcs(*old(self), w, p as int, i6 as int),
                decreases n - i6,
            {
                if comp[i6] == rep {
                    // Member file lists are concatenated in index order.
                    let ghost dsnap = info.deps@;
                    let ghost rsnap = info.reverse_deps@;
                    let ghost hpre = info.headers@;
                    let ghost spre = info.srcs@;
                    let hs = &self.nodes[i6].val.headers;
                    let mut k2: usize = 0;
                    while k2 < hs.len()
                        invariant
                            k2 <= hs@.len(),
                            info.deps@ == dsnap,
                            info.reverse_deps@ == rsnap,
                            info.srcs@ == spre,
                            info.headers@.len() == hpre.len() + k2,
                            forall|t: int| 0 <= t < hpre.len() ==> (#[trigger] info.headers@[t]) == hpre[t],
                            forall|t: int|
                                0 <= t < k2 ==> (#[trigger] info.headers@[hpre.len() + t])@ == hs@[t]@,
                        decreases hs@.len() - k2,
                    {
                        info.headers.push(hs[k2].clone());
                        k2 = k2 + 1;
                    }
                    proof {
                        let lhs = names_view(info.headers@);
                        let rhs = names_view(hpre) + names_view(hs@);
                        assert(lhs.len() == rhs.len());
                        assert forall|t: int| 0 <= t < lhs.len() implies lhs[t] == rhs[t] by {
                            assert(lhs[t] == info.headers@[t]@);
                            if t < hpre.len() {
                                assert(rhs[t] == hpre[t]@);
                                assert(info.headers@[t] == hpre[t]);
                            } else {
                                assert(rhs[t] == hs@[t - hpre.len()]@);
                                assert(info.headers@[hpre.len() + (t - hpre.len())]@ == hs@[t
                                    - hpre.len()]@);
                            }
                        }
                        assert(names_view(info.headers@) =~= names_view(hpre) + names_view(hs@));
                    }
                    let ss = &self.nodes[i6].val.srcs;
                    let mut k3: usize = 0;
                    let ghost hcur = info.headers@;
                    while k3 < ss.len()
                        invariant
                            k3 <= ss@.len(),
                            info.deps@ == dsnap,
                            info.reverse_deps@ == rsnap,
                            info.headers@ == hcur,
                            info.srcs@.len() == spre.len() + k3,
                            forall|t: int| 0 <= t < spre.len() ==> (#[trigger] info.srcs@[t]) == spre[t],
                            forall|t: int|
                                0 <= t < k3 ==> (#[trigger] info.srcs@[spre.len() + t])@ == ss@[t]@,
                        decreases ss@.len() - k3,
                    {
                        info.srcs.push(ss[k3].clone());
                        k3 = k3 + 1;
                    }
                    proof {
                        let lhs = names_view(info.srcs@);
                        let rhs = names_view(spre) + names_view(ss@);
                        assert(lhs.len() == rhs.len());
                        assert forall|t: int| 0 <= t < lhs.len() implies lhs[t] == rhs[t] by {
                            assert(lhs[t] == info.srcs@[t]@);
                            if t < spre.len() {
                                assert(rhs[t] == spre[t]@);
                                assert(info.srcs@[t] == spre[t]);
                            } else {
                                assert(rhs[t] == ss@[t - spre.len()]@);
                                assert(info.srcs@[spre.len() + (t - spre.len())]@ == ss@[t
                                    - spre.len()]@);
                            }
                        }
                        assert(names_view(info.srcs@) =~= names_view(spre) + names_view(ss@));
                        assert(old(self).node_wf(i6 as int));
                        lemma_mapped_rep(comp@, newpos@, reps@, i6 as int, p as int);
                        assert((w[i6 as int] as int) == p as int);
                        assert(names_view(info.headers@) =~= merged_headers(
                            *old(self),
                            w,
                            p as int,
                            i6 + 1,
                        ));
                        assert(names_view(info.srcs@) =~= merged_srcs(*old(self), w, p as int, i6 + 1));
                    }
                    let ghost dpre = info.deps@;
                    merge_mapped(&mut info.deps, &self.nodes[i6].val.deps, &comp, &newpos, p, nreps);
                    proof {
                        assert forall|x: usize| (#[trigger] info.deps@.contains(x)) == ((x as int)
                            != p as int && exists|u: int, v: int|
                            0 <= u < i6 + 1 && 0 <= v < n && comp@[u] == rep
                                && #[trigger] self.dep_edge(u, v) && mapped(comp@, newpos@, v) == x
                                as int) by {
                            let dl = self.nodes@[i6 as int].val.deps@;
                            if info.deps@.contains(x) {
                                if !dpre.contains(x) {
                                    let k = choose|k: int|
                                        0 <= k < dl.len() && mapped(comp@, newpos@, dl[k] as int)
                                            == x as int;
                                    assert(self.dep_edge(i6 as int, dl[k] as int));
                                } else {
                                }
                            } else {
                                if (x as int) != p as int && exists|u: int, v: int|
                                    0 <= u < i6 + 1 && 0 <= v < n && comp@[u] == rep
                                        && #[trigger] self.dep_edge(u, v) && mapped(
                                        comp@,
                                        newpos@,
                                        v,
                                    ) == x as int {
                                    let (u, v) = choose|u: int, v: int|
                                        0 <= u < i6 + 1 && 0 <= v < n && comp@[u] == rep
                                            && #[trigger] self.dep_edge(u, v) && mapped(
                                            comp@,
                                            newpos@,
                                            v,
                                        ) == x as int;
                                    if u < i6 as int {
                                        assert(dpre.contains(x));
                                        assert(info.deps@.contains(x));
                                    } else {
                                        let kk = choose|kk: int|
                                            0 <= kk < dl.len() && dl[kk] == v as usize;
                                        assert(mapped(comp@, newpos@, dl[kk] as int) == x as int);
                                        assert(info.deps@.contains(x));
                                    }
                                    assert(false);
                                }
                            }
                        }
                    }
                    let ghost rpre = info.reverse_deps@;
                    merge_mapped(
                        &mut info.reverse_deps,
                        &self.nodes[i6].val.reverse_deps,
                        &comp,
                        &newpos,
                        p,
                        nreps,
                    );
                    proof {
                        assert forall|x: usize| (#[trigger] info.reverse_deps@.contains(x)) == ((x
                            as int) != p as int && exists|s: int, u: int|
                            0 <= u < i6 + 1 && 0 <= s < n && comp@[u] == rep
                                && #[trigger] self.dep_edge(s, u) && mapped(comp@, newpos@, s) == x
                                as int) by {
                            let rl = self.nodes@[i6 as int].val.reverse_deps@;
                            if info.reverse_deps@.contains(x) {
                                if !rpre.contains(x) {
                                    let k = choose|k: int|
                                        0 <= k < rl.len() && mapped(comp@, newpos@, rl[k] as int)
                                            == x as int;
                                    assert(self.rev_edge(rl[k] as int, i6 as int));
                                    assert(self.dep_edge(rl[k] as int, i6 as int));
                                } else {
                                }
                            } else {
                                if (x as int) != p as int && exists|s: int, u: int|
                                    0 <= u < i6 + 1 && 0 <= s < n && comp@[u] == rep
                                        && #[trigger] self.dep_edge(s, u) && mapped(
                                        comp@,
                                        newpos@,
                                        s,
                                    ) == x as int {
                                    let (s, u) = choose|s: int, u: int|
                                        0 <= u < i6 + 1 && 0 <= s < n && comp@[u] == rep
                                            && #[trigger] self.dep_edge(s, u) && mapped(
                                            comp@,
                                            newpos@,
                                            s,
                                        ) == x as int;
                                    if u < i6 as int {
                                        assert(rpre.contains(x));
                                        assert(info.reverse_deps@.contains(x));
                                    } else {
                                        assert(self.rev_edge(s, i6 as int));
                                        let kk = choose|kk: int|
                                            0 <= kk < rl.len() && rl[kk] == s as usize;
                                        assert(mapped(comp@, newpos@, rl[kk] as int) == x as int);
                                        assert(info.reverse_deps@.contains(x));
                                    }
                                    assert(false);
                                }
                            }
                        }
                    }
                } else {
                    proof {
                        lemma_mapped_rep(comp@, newpos@, reps@, i6 as int, p as int);
                        assert((w[i6 as int] as int) != p as int);
                        assert(merged_headers(*old(self), w, p as int, i6 + 1) =~= merged_headers(
                            *old(self),
                            w,
                            p as int,
                            i6 as int,
                        ));
                        assert(merged_srcs(*old(self), w, p as int, i6 + 1) =~= merged_srcs(
                            *old(self),
                            w,
                            p as int,
                            i6 as int,
                        ));
                        assert forall|x: usize| (#[trigger] info.deps@.contains(x)) == ((x as int)
                            != p as int && exists|u: int, v: int|
                            0 <= u < i6 + 1 && 0 <= v < n && comp@[u] == rep
                                && #[trigger] self.dep_edge(u, v) && mapped(comp@, newpos@, v) == x
                                as int) by {
                            if !info.deps@.contains(x) && (x as int) != p as int && exists|
                                u: int,
                                v: int,
                            |
                                0 <= u < i6 + 1 && 0 <= v < n && comp@[u] == rep
                                    && #[trigger] self.dep_edge(u, v) && mapped(comp@, newpos@, v)
                                    == x as int {
                                let (u, v) = choose|u: int, v: int|
                                    0 <= u < i6 + 1 && 0 <= v < n && comp@[u] == rep
                                        && #[trigger] self.dep_edge(u, v) && mapped(
                                        comp@,
                                        newpos@,
                                        v,
                                    ) == x as int;
                                assert(u != i6 as int);
                                assert(false);
                            }
                        }
                        assert forall|x: usize| (#[trigger] info.reverse_deps@.contains(x)) == ((x
                            as int) != p as int && exists|s: int, u: int|
                            0 <= u < i6 + 1 && 0 <= s < n && comp@[u] == rep
                                && #[trigger] self.dep_edge(s, u) && mapped(comp@, newpos@, s) == x
                                as int) by {
                            if !info.reverse_deps@.contains(x) && (x as int) != p as int && exists|
                                s: int,
                                u: int,
                            |
                                0 <= u < i6 + 1 && 0 <= s < n && comp@[u] == rep
                                    && #[trigger] self.dep_edge(s, u) && mapped(comp@, newpos@, s)
                                    == x as int {
                                let (s, u) = choose|s: int, u: int|
                                    0 <= u < i6 + 1 && 0 <= s < n && comp@[u] == rep
                                        && #[trigger] self.dep_edge(s, u) && mapped(
                                        comp@,
                                        newpos@,
                                        s,
                                    ) == x as int;
                                assert(u != i6 as int);
                                assert(false);
                            }
                        }
                    }
                }
                i6 = i6 + 1;
            }
            let newkey = self.nodes[rep].key.clone();
            new_nodes.push(UnitNode { key: newkey, val: info });
            p = p + 1;
        }
        let result = UnitMap { nodes: new_nodes };
        proof {
            assert(result.n() == nreps as int);
            // Unique keys: representatives are distinct old indices.
            assert forall|x: int, y: int| 0 <= x < y < result.n() implies result.key_at(x)
                != result.key_at(y) by {
                assert((newpos@[reps@[x] as int] as int) == x);
                assert((newpos@[reps@[y] as int] as int) == y);
                assert(reps@[x] as int != reps@[y] as int);
                assert(old(self).keys_unique());
                if (reps@[x] as int) < (reps@[y] as int) {
                    assert(old(self).key_at(reps@[x] as int) != old(self).key_at(reps@[y] as int));
                } else {
                    assert(old(self).key_at(reps@[y] as int) != old(self).key_at(reps@[x] as int));
                }
            }
            assert forall|q: int| 0 <= q < result.n() implies #[trigger] result.node_wf(q) by {
                if result.nodes@[q].val.deps@.contains(q as usize) {
                    let xx = choose|xx: int|
                        0 <= xx < result.nodes@[q].val.deps@.len()
                            && result.nodes@[q].val.deps@[xx] == q as usize;
                    assert((result.nodes@[q].val.deps@[xx] as int) != q);
                    assert(false);
                }
                if result.nodes@[q].val.reverse_deps@.contains(q as usize) {
                    let xx = choose|xx: int|
                        0 <= xx < result.nodes@[q].val.reverse_deps@.len()
                            && result.nodes@[q].val.reverse_deps@[xx] == q as usize;
                    assert((result.nodes@[q].val.reverse_deps@[xx] as int) != q);
                    assert(false);
                }
            }
            // Edges are exactly the old edges between distinct composites.
            assert forall|a: int, b: int| #[trigger] result.dep_edge(a, b) == (a != b
                && collapses_edge(*old(self), w, a, b)) by {
                if 0 <= a < result.n() && 0 <= b < result.n() {
                    assert(result.dep_edge(a, b) == result.nodes@[a].val.deps@.contains(b as usize));
                    assert(result.nodes@[a].val.deps@.contains(b as usize) == comp_dep(
                        *old(self),
                        comp@,
                        newpos@,
                        reps@[a],
                        a,
                        b as usize,
                    ));
                    if comp_dep(*old(self), comp@, newpos@, reps@[a], a, b as usize) {
                        let (u, v) = choose|u: int, v: int|
                            0 <= u < old(self).n() && 0 <= v < old(self).n() && comp@[u] == reps@[a]
                                && #[trigger] old(self).dep_edge(u, v) && mapped(comp@, newpos@, v)
                                == b;
                        lemma_mapped_rep(comp@, newpos@, reps@, u, a);
                        assert(w[u] as int == a && w[v] as int == b);
                        assert(collapses_edge(*old(self), w, a, b));
                    }
                    if a != b && collapses_edge(*old(self), w, a, b) {
                        let (u, v) = choose|u: int, v: int|
                            0 <= u < w.len() && 0 <= v < w.len() && #[trigger] old(self).dep_edge(
                                u,
                                v,
                            ) && w[u] as int == a && w[v] as int == b;
                        lemma_mapped_rep(comp@, newpos@, reps@, u, a);
                        assert(comp@[u] == reps@[a]);
                        assert(comp_dep(*old(self), comp@, newpos@, reps@[a], a, b as usize));
                    }
                } else {
                    if collapses_edge(*old(self), w, a, b) {
                        let (u, v) = choose|u: int, v: int|
                            0 <= u < w.len() && 0 <= v < w.len() && #[trigger] old(self).dep_edge(
                                u,
                                v,
                            ) && w[u] as int == a && w[v] as int == b;
                        assert((w[u] as int) < nreps as int);
                        assert((w[v] as int) < nreps as int);
                        assert(false);
                    }
                }
            }
            // Mirror: both directions collapse the same old edge set.
            assert forall|a: int, b: int| #[trigger] result.dep_edge(a, b) == result.rev_edge(
                a,
                b,
            ) by {
                if 0 <= a < result.n() && 0 <= b < result.n() {
                    assert(result.rev_edge(a, b) == result.nodes@[b].val.reverse_deps@.contains(
                        a as usize,
                    ));
                    assert(result.nodes@[b].val.reverse_deps@.contains(a as usize) == comp_rev(
                        *old(self),
                        comp@,
                        newpos@,
                        reps@[b],
                        b,
                        a as usize,
                    ));
                    if result.dep_edge(a, b) {
                        assert(a != b && collapses_edge(*old(self), w, a, b));
                        let (u, v) = choose|u: int, v: int|
                            0 <= u < w.len() && 0 <= v < w.len() && #[trigger] old(self).dep_edge(
                                u,
                                v,
                            ) && w[u] as int == a && w[v] as int == b;
                        lemma_mapped_rep(comp@, newpos@, reps@, v, b);
                        assert(comp@[v] == reps@[b]);
                        assert(comp_rev(*old(self), comp@, newpos@, reps@[b], b, a as usize));
                    }
                    if result.rev_edge(a, b) {
                        let (s, u) = choose|s: int, u: int|
                            0 <= s < old(self).n() && 0 <= u < old(self).n() && comp@[u] == reps@[b]
                                && #[trigger] old(self).dep_edge(s, u) && mapped(comp@, newpos@, s)
                                == a;
                        lemma_mapped_rep(comp@, newpos@, reps@, u, b);
                        assert(w[s] as int == a && w[u] as int == b);
                        assert(collapses_edge(*old(self), w, a, b));
                        assert(a != b);
                        assert(result.dep_edge(a, b));
                    }
                }
            }
            assert(result.wf());
            // Every surviving unit keeps the key of its representative.
            assert forall|j: int| 0 <= j < result.n() implies exists|i7: int|
                0 <= i7 < w.len() && ((#[trigger] w[i7]) as int) == j && (
                #[trigger] result.key_at(j)) == old(self).key_at(i7) by {
                let i7 = reps@[j] as int;
                assert((comp@[i7] as int) == i7);
                assert(w[i7] == newpos@[comp@[i7] as int]);
                assert((w[i7] as int) == j);
                assert(result.key_at(j) == old(self).key_at(i7));
            }
        }
        // A rank certificate for the collapsed graph: each surviving unit is
        // ranked by how many old units its representative reaches, which
        // strictly shrinks along surviving edges since mutual reachability
        // is confined to single composites.
        let mut ranks: Vec<usize> = Vec::new();
        let mut qq: usize = 0;
        while qq < nreps
            invariant
                qq <= nreps,
                ranks@.len() == qq,
                nreps == reps@.len(),
                nreps <= n,
                n == self.n(),
                *self == *old(self),
                old(self).wf(),
                g@.len() == n,
                forall|x: int| 0 <= x < n ==> (#[trigger] g@[x])@.len() == n,
                forall|x: int, j: int|
                    0 <= x < n && 0 <= j < n ==> ((#[trigger] g@[x]@[j]) == reaches(
                        *old(self),
                        x,
                        j,
                    )),
                forall|q: int|
                    0 <= q < nreps ==> ((#[trigger] reps@[q]) as int) < n,
                forall|t: int|
                    0 <= t < qq ==> ((#[trigger] ranks@[t]) as int) == n - count_true(
                        reach_row_seq(*old(self), reps@[t] as int, n as int),
                    ),
            decreases nreps - qq,
        {
            let rx = reps[qq];
            let grow = &g[rx];
            let mut cnt: usize = 0;
            let mut x: usize = 0;
            while x < n
                invariant
                    x <= n,
                    n == self.n(),
                    *self == *old(self),
                    old(self).wf(),
                    (rx as int) < n,
                    g@.len() == n,
                    grow == &g@[rx as int],
                    forall|x2: int| 0 <= x2 < n ==> (#[trigger] g@[x2])@.len() == n,
                    forall|x2: int, j: int|
                        0 <= x2 < n && 0 <= j < n ==> ((#[trigger] g@[x2]@[j]) == reaches(
                            *old(self),
                            x2,
                            j,
                        )),
                    cnt <= x,
                    cnt as int == count_true(
                        reach_row_seq(*old(self), rx as int, n as int).take(x as int),
                    ),
                decreases n - x,
            {
                let hit = grow[x] || x == rx;
                proof {
                    let sr = reach_row_seq(*old(self), rx as int, n as int);
                    assert(sr.take(x + 1).drop_last() =~= sr.take(x as int));
                    assert(sr[x as int] == (x as int == rx as int || reaches(
                        *old(self),
                        rx as int,
                        x as int,
                    )));
                    assert(hit == sr[x as int]);
                }
                if hit {
                    cnt = cnt + 1;
                }
                x = x + 1;
            }
            proof {
                let sr = reach_row_seq(*old(self), rx as int, n as int);
                assert(sr.take(n as int) =~= sr);
            }
            ranks.push(n - cnt);
            qq = qq + 1;
        }
        proof {
            let m0 = *old(self);
            assert forall|a: int, b: int| #[trigger] result.dep_edge(a, b) implies ranks@[a]
                < ranks@[b] by {
                assert(a != b && collapses_edge(m0, w, a, b));
                let (u, v) = choose|u: int, v: int|
                    0 <= u < w.len() && 0 <= v < w.len() && #[trigger] m0.dep_edge(u, v) && w[u]
                        as int == a && w[v] as int == b;
                let ra = reps@[a] as int;
                let rb = reps@[b] as int;
                assert(comp@[comp@[u] as int] == comp@[u]);
                assert(reps@[newpos@[comp@[u] as int] as int] as int == comp@[u] as int);
                assert(w[u] == newpos@[comp@[u] as int]);
                assert(comp@[u] as int == ra);
                assert(comp@[comp@[v] as int] == comp@[v]);
                assert(reps@[newpos@[comp@[v] as int] as int] as int == comp@[v] as int);
                assert(w[v] == newpos@[comp@[v] as int]);
                assert(comp@[v] as int == rb);
                lemma_edge_reaches(m0, u, v);
                assert(in_class(m0, ra, u));
                assert(in_class(m0, rb, v));
                assert(reaches(m0, ra, v)) by {
                    if ra != u {
                        lemma_reaches_trans(m0, ra, u, v);
                    }
                }
                assert(reaches(m0, ra, rb)) by {
                    if v != rb {
                        assert(reaches(m0, v, rb));
                        lemma_reaches_trans(m0, ra, v, rb);
                    }
                }
                assert(ra != rb) by {
                    if ra == rb {
                        assert((newpos@[reps@[a] as int] as int) == a);
                        assert((newpos@[reps@[b] as int] as int) == b);
                        assert(false);
                    }
                }
                assert(!reaches(m0, rb, ra)) by {
                    if reaches(m0, rb, ra) {
                        assert(in_class(m0, ra, rb));
                        assert((w[ra] == w[rb]) == in_class(m0, ra, rb));
                        assert((comp@[ra] as int) == ra);
                        assert((comp@[rb] as int) == rb);
                        assert(w[ra] == newpos@[ra]);
                        assert(w[rb] == newpos@[rb]);
                        assert((newpos@[reps@[a] as int] as int) == a);
                        assert((newpos@[reps@[b] as int] as int) == b);
                        assert(false);
                    }
                }
                let sa = reach_row_seq(m0, ra, n as int);
                let sb = reach_row_seq(m0, rb, n as int);
                assert forall|x: int| 0 <= x < n && sb[x] implies sa[x] by {
                    if x == rb {
                        assert(reaches(m0, ra, rb));
                    } else {
                        assert(reaches(m0, rb, x));
                        lemma_reaches_trans(m0, ra, rb, x);
                    }
                }
                assert(sa[ra]);
                assert(!sb[ra]);
                lemma_count_strict(sb, sa, ra);
                lemma_count_true_bound(sa);
                lemma_count_true_bound(sb);
                assert((ranks@[a] as int) == n - count_true(sa));
                assert((ranks@[b] as int) == n - count_true(sb));
            }
            assert(result.is_ranked_by(ranks@));
            assert(result.is_dag());
        }
        let ranks_check = topo_ranks(&result);
        *self = result;
        proof {
            assert forall|j: int| 0 <= j < self.n() implies ((#[trigger] reps@[j]) as int)
                < w.len() && (w[reps@[j] as int] as int) == j && self.key_at(j) == old(
                self,
            ).key_at(reps@[j] as int) by {
                let i8 = reps@[j] as int;
                assert(0 <= i8 < w.len());
                assert((comp@[i8] as int) == i8);
                assert((w[i8] as int) == j);
                assert(self.key_at(j) == old(self).key_at(i8));
            }
        }
        match ranks_check {
            Option::Some(rk) => {
                proof {
                    assert(self.is_ranked_by(rk@));
                }
                (Result::Ok(()), Ghost(w), Ghost(reps@))
            },
            Option::None => {
                proof {
                    assert(false);
                }
                (Result::Err(AnalysisError::ResidualCycle), Ghost(w), Ghost(reps@))
            },
        }
    }
}

} // verus!
