//! The shared node store and the graph builder.
//!
//! Units are stored in one arena: a vector of nodes, each a key with its
//! payload, deduplicated by key. Edges are indices into the arena, so two
//! units can be updated in the same statement without shared-ownership
//! machinery, and every edge is created together with its mirror image.

use vstd::prelude::*;

use crate::resolve::HeaderLib;
use crate::resolve::Resolution;
use crate::resolve::resolve_spec;
use crate::resolve::strip_directive;
use crate::types::AnalysisError;
use crate::types::KeyView;
use crate::types::UnitInfo;
use crate::types::UnitKey;
use crate::util::FileType;
use crate::util::classify_spec;
use crate::util::strip_file_name;

verus! {

/// One stored unit: its immutable key and its mutable payload.
#[verifier::ext_equal]
pub struct UnitNode {
    pub key: UnitKey,
    pub val: UnitInfo,
}

/// The node store and unit graph: a key-deduplicated arena of unit nodes
/// whose edge sets name each other by index.
#[verifier::ext_equal]
pub struct UnitMap {
    pub nodes: Vec<UnitNode>,
}

impl UnitMap {
    /// Number of stored units.
    pub open spec fn n(self) -> int {
        self.nodes@.len() as int
    }

    /// The key of the unit at index `i`.
    pub open spec fn key_at(self, i: int) -> KeyView {
        self.nodes@[i].key@
    }

    /// The payload of the unit at index `i`.
    pub open spec fn info_at(self, i: int) -> UnitInfo {
        self.nodes@[i].val
    }

    /// `a` depends on `b`.
    pub open spec fn dep_edge(self, a: int, b: int) -> bool {
        &&& 0 <= a < self.n()
        &&& 0 <= b < self.n()
        &&& self.nodes@[a].val.deps@.contains(b as usize)
    }

    /// `b` records `a` as a reverse dependency.
    pub open spec fn rev_edge(self, a: int, b: int) -> bool {
        &&& 0 <= a < self.n()
        &&& 0 <= b < self.n()
        &&& self.nodes@[b].val.reverse_deps@.contains(a as usize)
    }

    /// No two stored units share a key.
    pub open spec fn keys_unique(self) -> bool {
        forall|i: int, j: int| 0 <= i < j < self.n() ==> self.key_at(i) != self.key_at(j)
    }

    /// The edge sets of the unit at `i` hold in-bound indices, no
    /// duplicates, and never the unit itself.
    pub open spec fn node_wf(self, i: int) -> bool {
        &&& self.nodes@[i].val.deps@.no_duplicates()
        &&& self.nodes@[i].val.reverse_deps@.no_duplicates()
        &&& forall|k: int|
            0 <= k < self.nodes@[i].val.deps@.len() ==> (#[trigger] self.nodes@[i].val.deps@[k]
                as int) < self.n()
        &&& forall|k: int|
            0 <= k < self.nodes@[i].val.reverse_deps@.len() ==> (
            #[trigger] self.nodes@[i].val.reverse_deps@[k] as int) < self.n()
        &&& !self.nodes@[i].val.deps@.contains(i as usize)
        &&& !self.nodes@[i].val.reverse_deps@.contains(i as usize)
    }

    /// The mirrored-edge invariant: `b` is among `a`'s dependencies exactly
    /// when `a` is among `b`'s reverse dependencies — edges only exist as
    /// mirrored pairs.
    pub open spec fn mirrored(self) -> bool {
        forall|a: int, b: int| #[trigger] self.dep_edge(a, b) == self.rev_edge(a, b)
    }

    /// Well-formedness of the whole store: unique keys, per-node edge
    /// hygiene, and the mirrored-edge invariant.
    pub open spec fn wf(self) -> bool {
        &&& self.keys_unique()
        &&& forall|i: int| 0 <= i < self.n() ==> #[trigger] self.node_wf(i)
        &&& self.mirrored()
    }

    /// Some stored unit has key `k`.
    pub open spec fn has_key(self, k: KeyView) -> bool {
        exists|i: int| 0 <= i < self.n() && self.key_at(i) == k
    }

    /// The index of the unit with key `k` (unique when keys are unique).
    pub open spec fn index_of(self, k: KeyView) -> int {
        choose|i: int| 0 <= i < self.n() && self.key_at(i) == k
    }

    /// The store only appended nodes: every already-stored unit keeps its
    /// key and its file lists, and every appended unit has empty file
    /// lists.
    pub open spec fn grows_from(self, prev: Self) -> bool {
        &&& self.n() >= prev.n()
        &&& forall|i: int| 0 <= i < prev.n() ==> self.key_at(i) == prev.key_at(i)
        &&& forall|i: int|
            0 <= i < prev.n() ==> (#[trigger] self.info_at(i)).headers@ == prev.info_at(i).headers@
                && self.info_at(i).srcs@ == prev.info_at(i).srcs@
        &&& forall|i: int|
            prev.n() <= i < self.n() ==> (#[trigger] self.info_at(i)).headers@.len() == 0
                && self.info_at(i).srcs@.len() == 0
    }
}

/// `new` is `prior` with one more file name, `name`, appended at the end.
pub open spec fn pushed_name(new: Seq<String>, prior: Seq<String>, name: Seq<char>) -> bool {
    &&& new.len() == prior.len() + 1
    &&& new.take(prior.len() as int) == prior
    &&& new.last()@ == name
}

/// The line resolves in scope to exactly the key `kv`.
pub open spec fn line_names_key(l: Seq<char>, scope: Seq<char>, kv: KeyView) -> bool {
    match resolve_spec(l, scope) {
        Resolution::Reference { name, dir, in_scope } => in_scope && kv == (KeyView {
            name,
            root_dir: dir,
        }),
        _ => false,
    }
}

/// Some line of `lines` resolves in scope to exactly the key `kv`.
pub open spec fn some_line_names(lines: Seq<String>, scope: Seq<char>, kv: KeyView) -> bool {
    exists|j: int| 0 <= j < lines.len() && line_names_key((#[trigger] lines[j])@, scope, kv)
}

impl UnitMap {
    /// The dependency edge demanded by one directive line is present: if the
    /// line resolves in scope to a key other than the unit's own, that key
    /// is stored and the unit depends on it.
    pub open spec fn line_edge_ok(self, curr: int, l: Seq<char>, scope: Seq<char>) -> bool {
        match resolve_spec(l, scope) {
            Resolution::Reference { name, dir, in_scope } => {
                let kv = KeyView { name, root_dir: dir };
                (in_scope && kv != self.key_at(curr)) ==> (self.has_key(kv) && self.dep_edge(
                    curr,
                    self.index_of(kv),
                ))
            },
            _ => true,
        }
    }

    /// An empty store.
    pub fn new() -> (r: UnitMap)
        ensures
            r.n() == 0,
            r.wf(),
    {
        UnitMap { nodes: Vec::new() }
    }
}

/// Law: in every well-formed graph the edges are mirrored — `b` is among
/// `a`'s dependencies exactly when `a` is among `b`'s reverse
/// dependencies. Every builder and collapser method keeps graphs
/// well-formed, so this holds at every point after construction.
pub proof fn lemma_wf_edges_mirrored(m: UnitMap, a: int, b: int)
    requires
        m.wf(),
    ensures
        m.dep_edge(a, b) == m.rev_edge(a, b),
{
}

/// Law: a well-formed graph never holds a self edge, in either direction.
pub proof fn lemma_wf_no_self_edge(m: UnitMap, a: int)
    requires
        m.wf(),
    ensures
        !m.dep_edge(a, a),
        !m.rev_edge(a, a),
{
    if 0 <= a < m.n() {
        assert(m.node_wf(a));
    }
}

proof fn lemma_index_of_is(m: UnitMap, k: KeyView, i: int)
    requires
        m.keys_unique(),
        0 <= i < m.n(),
        m.key_at(i) == k,
    ensures
        m.has_key(k),
        m.index_of(k) == i,
{
    assert(m.has_key(k));
    let j = m.index_of(k);
    if i < j {
        assert(m.key_at(i) != m.key_at(j));
    } else if j < i {
        assert(m.key_at(j) != m.key_at(i));
    }
}

pub(crate) fn contains_usize(v: &Vec<usize>, x: usize) -> (b: bool)
    ensures
        b == v@.contains(x),
{
    let mut j: usize = 0;
    while j < v.len()
        invariant
            j <= v@.len(),
            forall|k: int| 0 <= k < j ==> v@[k] != x,
        decreases v@.len() - j,
    {
        if v[j] == x {
            return true;
        }
        j = j + 1;
    }
    false
}

impl UnitMap {
    /// Get-or-create for the shared node store: when a unit with this key is
    /// already stored, its index is returned and nothing changes — two calls
    /// with equal keys hand back the same underlying node. Otherwise a node
    /// with this key and a fresh, empty payload is appended.
    pub fn extract_with_create(&mut self, key: UnitKey) -> (idx: usize)
        requires
            old(self).wf(),
        ensures
            final(self).wf(),
            final(self).grows_from(*old(self)),
            (idx as int) < final(self).n(),
            final(self).key_at(idx as int) == key@,
            final(self).has_key(key@),
            final(self).index_of(key@) == idx as int,
            old(self).has_key(key@) ==> *final(self) == *old(self) && idx as int == old(
                self,
            ).index_of(key@),
            !old(self).has_key(key@) ==> final(self).n() == old(self).n() + 1 && idx as int == old(
                self,
            ).n() && final(self).nodes@ == old(self).nodes@.push(final(self).nodes@[idx as int]),
            forall|a: int, b: int|
                final(self).dep_edge(a, b) == old(self).dep_edge(a, b),
            forall|a: int, b: int|
                final(self).rev_edge(a, b) == old(self).rev_edge(a, b),
    {
        let n = self.nodes.len();
        let mut i: usize = 0;
        while i < n
            invariant
                i <= n,
                n == self.n(),
                *self == *old(self),
                old(self).wf(),
                forall|k: int| 0 <= k < i ==> self.key_at(k) != key@,
            decreases n - i,
        {
            if self.nodes[i].key == key {
                proof {
                    lemma_index_of_is(*self, key@, i as int);
                }
                return i;
            }
            i = i + 1;
        }
        proof {
            assert(!self.has_key(key@));
        }
        let ghost prev = *self;
        self.nodes.push(UnitNode { key, val: Default::default() });
        proof {
            assert forall|j: int| 0 <= j < self.n() implies #[trigger] self.node_wf(j) by {
                if j < prev.n() {
                    assert(prev.node_wf(j));
                    assert(self.nodes@[j] == prev.nodes@[j]);
                }
            }
            assert forall|a: int, b: int| #[trigger] self.dep_edge(a, b) == prev.dep_edge(
                a,
                b,
            ) by {
                if 0 <= a < self.n() && 0 <= b < self.n() {
                    if a < prev.n() {
                        assert(prev.node_wf(a));
                        assert(self.nodes@[a] == prev.nodes@[a]);
                        if self.nodes@[a].val.deps@.contains(b as usize) {
                            let k = choose|k: int|
                                0 <= k < self.nodes@[a].val.deps@.len()
                                    && self.nodes@[a].val.deps@[k] == b as usize;
                            assert((self.nodes@[a].val.deps@[k] as int) < prev.n());
                        }
                    } else {
                        assert(self.nodes@[a].val.deps@.len() == 0);
                    }
                }
            }
            assert forall|a: int, b: int| #[trigger] self.rev_edge(a, b) == prev.rev_edge(
                a,
                b,
            ) by {
                if 0 <= a < self.n() && 0 <= b < self.n() {
                    if b < prev.n() {
                        assert(prev.node_wf(b));
                        assert(self.nodes@[b] == prev.nodes@[b]);
                        if self.nodes@[b].val.reverse_deps@.contains(a as usize) {
                            let k = choose|k: int|
                                0 <= k < self.nodes@[b].val.reverse_deps@.len()
                                    && self.nodes@[b].val.reverse_deps@[k] == a as usize;
                            assert((self.nodes@[b].val.reverse_deps@[k] as int) < prev.n());
                        }
                    } else {
                        assert(self.nodes@[b].val.reverse_deps@.len() == 0);
                    }
                }
            }
            assert forall|x: int, y: int| 0 <= x < y < self.n() implies self.key_at(x)
                != self.key_at(y) by {
                if y < prev.n() {
                    assert(prev.key_at(x) != prev.key_at(y));
                } else {
                    assert(self.key_at(y) == key@);
                    assert(self.key_at(x) == prev.key_at(x));
                    assert(prev.key_at(x) != key@);
                }
            }
            assert(self.mirrored());
            lemma_index_of_is(*self, key@, prev.n());
        }
        n
    }

    /// Inserts the dependency edge `a -> b` together with its mirror image
    /// `a ∈ b.reverse_deps`, both in the same step, unless it is already
    /// present; never an edge from a unit to itself.
    fn add_edge(&mut self, a: usize, b: usize)
        requires
            old(self).wf(),
            (a as int) < old(self).n(),
            (b as int) < old(self).n(),
            a != b,
        ensures
            final(self).wf(),
            final(self).n() == old(self).n(),
            final(self).grows_from(*old(self)),
            final(self).dep_edge(a as int, b as int),
            forall|x: int, y: int| old(self).dep_edge(x, y) ==> final(self).dep_edge(x, y),
            forall|x: int, y: int|
                final(self).dep_edge(x, y) && !old(self).dep_edge(x, y) ==> x == a as int && y
                    == b as int,
    {
        let present = contains_usize(&self.nodes[a].val.deps, b);
        if present {
            return ;
        }
        let ghost prev = *self;
        let nn = self.nodes.len();
        self.nodes[a].val.deps.push(b);
        let ghost mid = *self;
        self.nodes[b].val.reverse_deps.push(a);
        proof {
            assert(self.n() == nn as int);
            assert(!prev.dep_edge(a as int, b as int));
            assert(self.nodes@ =~= prev.nodes@.update(a as int, mid.nodes@[a as int]).update(
                b as int,
                self.nodes@[b as int],
            ));
            assert(self.nodes@[a as int].val.deps@ =~= prev.nodes@[a as int].val.deps@.push(b));
            assert(self.nodes@[b as int].val.reverse_deps@ =~= prev.nodes@[b as
                int].val.reverse_deps@.push(a));
            assert(!prev.rev_edge(a as int, b as int));
            assert forall|i: int| 0 <= i < self.n() implies #[trigger] self.node_wf(i) by {
                assert(prev.node_wf(i));
                let pd = prev.nodes@[i].val.deps@;
                let pr = prev.nodes@[i].val.reverse_deps@;
                let nd = self.nodes@[i].val.deps@;
                let nr = self.nodes@[i].val.reverse_deps@;
                if i == a as int {
                    assert(nd =~= pd.push(b));
                    assert forall|x: int, y: int|
                        0 <= x < y < nd.len() implies nd[x] != nd[y] by {
                        if y == pd.len() {
                            assert(!pd.contains(b));
                            assert(nd[x] == pd[x]);
                        }
                    }
                    assert(nd.no_duplicates());
                    if nd.contains(i as usize) {
                        let k = choose|k: int| 0 <= k < nd.len() && nd[k] == i as usize;
                        if k < pd.len() {
                            assert(pd.contains(i as usize));
                        } else {
                            assert(b == a);
                        }
                        assert(false);
                    }
                }
                if i == b as int {
                    assert(nr =~= pr.push(a));
                    assert forall|x: int, y: int|
                        0 <= x < y < nr.len() implies nr[x] != nr[y] by {
                        if y == pr.len() {
                            assert(!pr.contains(a));
                            assert(nr[x] == pr[x]);
                        }
                    }
                    assert(nr.no_duplicates());
                    if nr.contains(i as usize) {
                        let k = choose|k: int| 0 <= k < nr.len() && nr[k] == i as usize;
                        if k < pr.len() {
                            assert(pr.contains(i as usize));
                        } else {
                            assert(a == b);
                        }
                        assert(false);
                    }
                }
            }
            assert forall|x: int, y: int| #[trigger] self.dep_edge(x, y) == self.rev_edge(
                x,
                y,
            ) by {
                if 0 <= x < self.n() && 0 <= y < self.n() {
                    let pd = prev.nodes@[x].val.deps@;
                    let pr = prev.nodes@[y].val.reverse_deps@;
                    let nd = self.nodes@[x].val.deps@;
                    let nr = self.nodes@[y].val.reverse_deps@;
                    if x == a as int && y == b as int {
                        assert(nd[nd.len() - 1] == b);
                        assert(nr[nr.len() - 1] == a);
                        assert(nd.contains(y as usize));
                        assert(nr.contains(x as usize));
                    } else {
                        assert(prev.dep_edge(x, y) == prev.rev_edge(x, y));
                        if x == a as int {
                            assert(nd =~= pd.push(b));
                            assert(nd.contains(y as usize) == pd.contains(y as usize)) by {
                                if nd.contains(y as usize) {
                                    let k = choose|k: int|
                                        0 <= k < nd.len() && nd[k] == y as usize;
                                    if k < pd.len() {
                                        assert(pd[k] == y as usize);
                                    } else {
                                        assert(y == b as int);
                                    }
                                }
                                if pd.contains(y as usize) {
                                    let k = choose|k: int|
                                        0 <= k < pd.len() && pd[k] == y as usize;
                                    assert(nd[k] == y as usize);
                                }
                            }
                        } else {
                            assert(nd == pd);
                        }
                        if y == b as int {
                            assert(nr =~= pr.push(a));
                            assert(nr.contains(x as usize) == pr.contains(x as usize)) by {
                                if nr.contains(x as usize) {
                                    let k = choose|k: int|
                                        0 <= k < nr.len() && nr[k] == x as usize;
                                    if k < pr.len() {
                                        assert(pr[k] == x as usize);
                                    } else {
                                        assert(x == a as int);
                                    }
                                }
                                if pr.contains(x as usize) {
                                    let k = choose|k: int|
                                        0 <= k < pr.len() && pr[k] == x as usize;
                                    assert(nr[k] == x as usize);
                                }
                            }
                        } else {
                            assert(nr == pr);
                        }
                    }
                }
            }
            assert(self.dep_edge(a as int, b as int)) by {
                let nd = self.nodes@[a as int].val.deps@;
                assert(nd[nd.len() - 1] == b);
            }
            assert forall|i: int| 0 <= i < self.n() implies #[trigger] self.key_at(i)
                == prev.key_at(i) && self.info_at(i).headers@ == prev.info_at(i).headers@
                && self.info_at(i).srcs@ == prev.info_at(i).srcs@ by {
                assert(self.nodes@.len() == prev.nodes@.len());
            }
            assert(self.keys_unique());
            assert(self.grows_from(prev));
            assert forall|x: int, y: int|
                final(self).dep_edge(x, y) && !prev.dep_edge(x, y) implies x == a as int && y
                    == b as int by {
                let nd = self.nodes@[x].val.deps@;
                let pd = prev.nodes@[x].val.deps@;
                if x != a as int {
                    assert(nd == pd);
                } else {
                    if nd.contains(y as usize) {
                        let k = choose|k: int| 0 <= k < nd.len() && nd[k] == y as usize;
                        if k < pd.len() {
                            assert(pd.contains(y as usize));
                        } else {
                            assert(y == b as int);
                        }
                    }
                }
            }
            assert forall|x: int, y: int| prev.dep_edge(x, y) implies self.dep_edge(x, y) by {
                let nd = self.nodes@[x].val.deps@;
                let pd = prev.nodes@[x].val.deps@;
                if x == a as int {
                    let k = choose|k: int| 0 <= k < pd.len() && pd[k] == y as usize;
                    assert(nd[k] == y as usize);
                } else {
                    assert(nd == pd);
                }
            }
        }
    }
}

proof fn lemma_index_stable(m1: UnitMap, m2: UnitMap, kv: KeyView)
    requires
        m2.keys_unique(),
        m2.n() >= m1.n(),
        forall|i: int| 0 <= i < m1.n() ==> m2.key_at(i) == m1.key_at(i),
        m1.has_key(kv),
    ensures
        m2.has_key(kv),
        m2.index_of(kv) == m1.index_of(kv),
{
    let i = m1.index_of(kv);
    assert(0 <= i < m1.n() && m1.key_at(i) == kv);
    lemma_index_of_is(m2, kv, i);
}

proof fn lemma_line_ok_preserved(
    m1: UnitMap,
    m2: UnitMap,
    curr: int,
    l: Seq<char>,
    scope: Seq<char>,
)
    requires
        m1.line_edge_ok(curr, l, scope),
        m2.keys_unique(),
        m2.n() >= m1.n(),
        0 <= curr < m1.n(),
        forall|i: int| 0 <= i < m1.n() ==> m2.key_at(i) == m1.key_at(i),
        forall|x: int, y: int| m1.dep_edge(x, y) ==> m2.dep_edge(x, y),
    ensures
        m2.line_edge_ok(curr, l, scope),
{
    match resolve_spec(l, scope) {
        Resolution::Reference { name, dir, in_scope } => {
            let kv = KeyView { name, root_dir: dir };
            if in_scope && kv != m2.key_at(curr) {
                assert(m2.key_at(curr) == m1.key_at(curr));
                lemma_index_stable(m1, m2, kv);
            }
        },
        _ => {},
    }
}

proof fn lemma_grows_trans(m1: UnitMap, m2: UnitMap, m3: UnitMap)
    requires
        m2.grows_from(m1),
        m3.grows_from(m2),
    ensures
        m3.grows_from(m1),
{
}

impl UnitMap {
    /// Scans the given lines of one file belonging to the unit at `curr`:
    /// every line that resolves in scope to another unit's key has that unit
    /// created on demand and a mirrored dependency edge inserted, a line
    /// resolving to the unit's own key is discarded (no self edges), and the
    /// first malformed line aborts with its index. New edges leave `curr`
    /// only, and only towards units some line names.
    pub fn add_dependency_edges(&mut self, curr: usize, lines: &Vec<String>, scope: &str) -> (r:
        Result<(), AnalysisError>)
        requires
            old(self).wf(),
            (curr as int) < old(self).n(),
        ensures
            final(self).wf(),
            final(self).grows_from(*old(self)),
            forall|x: int, y: int| old(self).dep_edge(x, y) ==> final(self).dep_edge(x, y),
            forall|x: int, y: int|
                final(self).dep_edge(x, y) && !old(self).dep_edge(x, y) ==> x == curr as int,
            forall|y: int|
                final(self).dep_edge(curr as int, y) && !old(self).dep_edge(curr as int, y)
                    ==> exists|j: int|
                    0 <= j < lines@.len() && line_names_key(
                        (#[trigger] lines@[j])@,
                        scope@,
                        final(self).key_at(y),
                    ),
            forall|i: int|
                old(self).n() <= i < final(self).n() ==> some_line_names(
                    lines@,
                    scope@,
                    (#[trigger] final(self).key_at(i)),
                ),
            r is Ok ==> forall|j: int|
                0 <= j < lines@.len() ==> !(resolve_spec((#[trigger] lines@[j])@, scope@)
                    is Malformed),
            r is Ok ==> forall|j: int|
                0 <= j < lines@.len() ==> final(self).line_edge_ok(
                    curr as int,
                    (#[trigger] lines@[j])@,
                    scope@,
                ),
            r matches Err(e) ==> e matches AnalysisError::BadDirective { line } && (line as int)
                < lines@.len() && resolve_spec(lines@[line as int]@, scope@) is Malformed && forall|
                j: int,
            |
                0 <= j < line as int ==> !(resolve_spec((#[trigger] lines@[j])@, scope@)
                    is Malformed),
    {
        let mut j: usize = 0;
        while j < lines.len()
            invariant
                j <= lines@.len(),
                old(self).wf(),
                (curr as int) < old(self).n(),
                self.wf(),
                self.grows_from(*old(self)),
                forall|x: int, y: int| old(self).dep_edge(x, y) ==> self.dep_edge(x, y),
                forall|x: int, y: int|
                    self.dep_edge(x, y) && !old(self).dep_edge(x, y) ==> x == curr as int,
                forall|y: int|
                    self.dep_edge(curr as int, y) && !old(self).dep_edge(curr as int, y)
                        ==> exists|jj: int|
                        0 <= jj < j && line_names_key(
                            (#[trigger] lines@[jj])@,
                            scope@,
                            self.key_at(y),
                        ),
                forall|jj: int|
                    0 <= jj < j ==> !(resolve_spec((#[trigger] lines@[jj])@, scope@) is Malformed),
                forall|jj: int|
                    0 <= jj < j ==> self.line_edge_ok(curr as int, (#[trigger] lines@[jj])@, scope@),
                forall|i: int|
                    old(self).n() <= i < self.n() ==> exists|jj: int|
                        0 <= jj < j && line_names_key(
                            (#[trigger] lines@[jj])@,
                            scope@,
                            (#[trigger] self.key_at(i)),
                        ),
            decreases lines@.len() - j,
        {
            let line = &lines[j];
            match strip_directive(line.as_str(), scope) {
                Result::Err(_) => {
                    proof {
                        assert forall|i: int|
                            old(self).n() <= i < self.n() implies some_line_names(
                                lines@,
                                scope@,
                                (#[trigger] self.key_at(i)),
                            ) by {
                            let jj = choose|jj: int|
                                0 <= jj < j && line_names_key(
                                    (#[trigger] lines@[jj])@,
                                    scope@,
                                    (#[trigger] self.key_at(i)),
                                );
                            assert(0 <= jj < lines@.len());
                            assert(line_names_key(lines@[jj]@, scope@, self.key_at(i)));
                        }
                    }
                    return Result::Err(AnalysisError::BadDirective { line: j });
                },
                Result::Ok(opt) => {
                    match opt {
                        Option::None => {},
                        Option::Some((dep_key, lib)) => {
                            let same = dep_key == self.nodes[curr].key;
                            if !same {
                                match lib {
                                    HeaderLib::FOLLY => {
                                        let ghost before = *self;
                                        let ghost kv = dep_key@;
                                        let dep = self.extract_with_create(dep_key);
                                        proof {
                                            let mid = *self;
                                            assert forall|jj: int| 0 <= jj < j implies
                                                mid.line_edge_ok(
                                                curr as int,
                                                (#[trigger] lines@[jj])@,
                                                scope@,
                                            ) by {
                                                lemma_line_ok_preserved(
                                                    before,
                                                    mid,
                                                    curr as int,
                                                    lines@[jj]@,
                                                    scope@,
                                                );
                                            }
                                        }
                                        let ghost mid = *self;
                                        proof {
                                            assert(self.key_at(dep as int) == kv);
                                            assert(kv != self.key_at(curr as int));
                                            assert(dep != curr);
                                        }
                                        self.add_edge(curr, dep);
                                        proof {
                                            lemma_grows_trans(*old(self), before, mid);
                                            lemma_grows_trans(*old(self), mid, *self);
                                            assert forall|jj: int| 0 <= jj < j implies
                                                self.line_edge_ok(
                                                curr as int,
                                                (#[trigger] lines@[jj])@,
                                                scope@,
                                            ) by {
                                                lemma_line_ok_preserved(
                                                    mid,
                                                    *self,
                                                    curr as int,
                                                    lines@[jj]@,
                                                    scope@,
                                                );
                                            }
                                            lemma_index_of_is(*self, kv, dep as int);
                                            assert(kv =~= (match resolve_spec(
                                                lines@[j as int]@,
                                                scope@,
                                            ) {
                                                Resolution::Reference { name, dir, in_scope } => (
                                                KeyView { name, root_dir: dir }),
                                                _ => kv,
                                            }));
                                            assert(self.line_edge_ok(
                                                curr as int,
                                                lines@[j as int]@,
                                                scope@,
                                            ));
                                            assert(line_names_key(lines@[j as int]@, scope@, kv));
                                            assert forall|i: int|
                                                old(self).n() <= i < self.n() implies exists|
                                                jj: int,
                                            |
                                                0 <= jj < j + 1 && line_names_key(
                                                    (#[trigger] lines@[jj])@,
                                                    scope@,
                                                    (#[trigger] self.key_at(i)),
                                                ) by {
                                                if i < before.n() {
                                                    let jj = choose|jj: int|
                                                        0 <= jj < j && line_names_key(
                                                            (#[trigger] lines@[jj])@,
                                                            scope@,
                                                            (#[trigger] before.key_at(i)),
                                                        );
                                                    assert(self.key_at(i) == before.key_at(i));
                                                    assert(line_names_key(
                                                        lines@[jj]@,
                                                        scope@,
                                                        self.key_at(i),
                                                    ));
                                                } else {
                                                    assert(self.key_at(i) == kv);
                                                    assert(line_names_key(
                                                        lines@[j as int]@,
                                                        scope@,
                                                        self.key_at(i),
                                                    ));
                                                }
                                            }
                                            assert forall|y: int|
                                                self.dep_edge(curr as int, y) && !old(
                                                    self,
                                                ).dep_edge(curr as int, y) implies exists|jj: int|
                                                0 <= jj < j + 1 && line_names_key(
                                                    (#[trigger] lines@[jj])@,
                                                    scope@,
                                                    self.key_at(y),
                                                ) by {
                                                if mid.dep_edge(curr as int, y) {
                                                    if before.dep_edge(curr as int, y) {
                                                        let jj = choose|jj: int|
                                                            0 <= jj < j && line_names_key(
                                                                (#[trigger] lines@[jj])@,
                                                                scope@,
                                                                before.key_at(y),
                                                            );
                                                        assert(self.key_at(y) == before.key_at(y));
                                                        assert(line_names_key(
                                                            lines@[jj]@,
                                                            scope@,
                                                            self.key_at(y),
                                                        ));
                                                    }
                                                } else {
                                                    assert(y == dep as int);
                                                    assert(line_names_key(
                                                        lines@[j as int]@,
                                                        scope@,
                                                        self.key_at(y),
                                                    ));
                                                }
                                            }
                                        }
                                    },
                                    HeaderLib::UNKNOWN => {},
                                }
                            }
                        },
                    }
                },
            }
            j = j + 1;
        }
        proof {
            assert forall|i: int|
                old(self).n() <= i < self.n() implies some_line_names(
                    lines@,
                    scope@,
                    (#[trigger] self.key_at(i)),
                ) by {
                let jj = choose|jj: int|
                    0 <= jj < j && line_names_key(
                        (#[trigger] lines@[jj])@,
                        scope@,
                        (#[trigger] self.key_at(i)),
                    );
                assert(0 <= jj < lines@.len());
                assert(line_names_key(lines@[jj]@, scope@, self.key_at(i)));
            }
        }
        Result::Ok(())
    }

    /// Takes one classified file into the graph: a file of unknown role is
    /// skipped and nothing changes; otherwise the owning unit is obtained
    /// or created under the key built from the normalized base name and the
    /// parent directory, the file name is appended to its header or source
    /// list per role, and the file's lines are scanned for dependency
    /// edges.
    pub fn add_node(&mut self, file_name: &str, parent_dir: &str, lines: &Vec<String>, scope: &str)
        -> (r: Result<(), AnalysisError>)
        requires
            old(self).wf(),
        ensures
            final(self).wf(),
            classify_spec(file_name@).1 == FileType::UNKNOWN ==> r is Ok && *final(self) == *old(
                self,
            ),
            classify_spec(file_name@).1 != FileType::UNKNOWN ==> ({
                let kv = KeyView { name: classify_spec(file_name@).0, root_dir: parent_dir@ };
                let role = classify_spec(file_name@).1;
                let idx = final(self).index_of(kv);
                let prior_headers = if old(self).has_key(kv) {
                    old(self).info_at(old(self).index_of(kv)).headers@
                } else {
                    Seq::empty()
                };
                let prior_srcs = if old(self).has_key(kv) {
                    old(self).info_at(old(self).index_of(kv)).srcs@
                } else {
                    Seq::empty()
                };
                &&& final(self).has_key(kv)
                &&& final(self).n() >= old(self).n()
                &&& forall|i: int|
                    0 <= i < old(self).n() ==> final(self).key_at(i) == old(self).key_at(i)
                &&& ((role == FileType::HEADER || role == FileType::TEMPLATE)
                    ==> pushed_name(final(self).info_at(idx).headers@, prior_headers, file_name@)
                        && final(self).info_at(idx).srcs@ =~= prior_srcs)
                &&& ((role == FileType::SOURCE || role == FileType::TEST)
                    ==> pushed_name(final(self).info_at(idx).srcs@, prior_srcs, file_name@)
                        && final(self).info_at(idx).headers@ =~= prior_headers)
                &&& forall|i: int|
                    0 <= i < old(self).n() && i != idx ==> (#[trigger] final(self).info_at(
                        i,
                    )).headers@ == old(self).info_at(i).headers@ && final(self).info_at(i).srcs@
                        == old(self).info_at(i).srcs@
                &&& forall|i: int|
                    old(self).n() <= i < final(self).n() ==> (#[trigger] final(self).key_at(i))
                        == kv || some_line_names(lines@, scope@, final(self).key_at(i))
                &&& forall|x: int, y: int| old(self).dep_edge(x, y) ==> final(self).dep_edge(x, y)
                &&& forall|x: int, y: int|
                    final(self).dep_edge(x, y) && !old(self).dep_edge(x, y) ==> x == idx
                &&& forall|y: int|
                    final(self).dep_edge(idx, y) && !old(self).dep_edge(idx, y) ==> exists|j: int|
                        0 <= j < lines@.len() && line_names_key(
                            (#[trigger] lines@[j])@,
                            scope@,
                            final(self).key_at(y),
                        )
                &&& (r is Ok ==> forall|j: int|
                    0 <= j < lines@.len() ==> !(resolve_spec((#[trigger] lines@[j])@, scope@)
                        is Malformed))
                &&& (r is Ok ==> forall|j: int|
                    0 <= j < lines@.len() ==> final(self).line_edge_ok(
                        idx,
                        (#[trigger] lines@[j])@,
                        scope@,
                    ))
                &&& (r matches Err(e) ==> e matches AnalysisError::BadDirective { line } && (line
                    as int) < lines@.len() && resolve_spec(lines@[line as int]@, scope@)
                    is Malformed && forall|j: int|
                    0 <= j < line as int ==> !(resolve_spec((#[trigger] lines@[j])@, scope@)
                        is Malformed))
            }),
    {
        let (base, role) = strip_file_name(file_name);
        if role == FileType::UNKNOWN {
            return Result::Ok(());
        }
        let key = UnitKey { name: base, root_dir: parent_dir.to_owned() };
        let ghost kv = key@;
        let idx = self.extract_with_create(key);
        let ghost created = *self;
        let nn = self.nodes.len();
        if role == FileType::HEADER || role == FileType::TEMPLATE {
            self.nodes[idx].val.headers.push(file_name.to_owned());
        } else {
            self.nodes[idx].val.srcs.push(file_name.to_owned());
        }
        proof {
            assert(self.n() == nn as int);
            assert(self.nodes@ =~= created.nodes@.update(idx as int, self.nodes@[idx as int]));
            assert forall|i: int| 0 <= i < self.n() implies #[trigger] self.node_wf(i) by {
                assert(created.node_wf(i));
                assert(self.nodes@[i].val.deps@ == created.nodes@[i].val.deps@);
                assert(self.nodes@[i].val.reverse_deps@ == created.nodes@[i].val.reverse_deps@);
            }
            assert forall|x: int, y: int| #[trigger] self.dep_edge(x, y) == created.dep_edge(
                x,
                y,
            ) by {
                if 0 <= x < self.n() && 0 <= y < self.n() {
                    assert(self.nodes@[x].val.deps@ == created.nodes@[x].val.deps@);
                }
            }
            assert forall|x: int, y: int| #[trigger] self.rev_edge(x, y) == created.rev_edge(
                x,
                y,
            ) by {
                if 0 <= x < self.n() && 0 <= y < self.n() {
                    assert(self.nodes@[y].val.reverse_deps@ == created.nodes@[y].val.reverse_deps@);
                }
            }
            assert forall|i: int| 0 <= i < self.n() implies #[trigger] self.key_at(i)
                == created.key_at(i) by {}
            assert(self.keys_unique());
            assert(self.mirrored());
            assert(self.wf());
            lemma_index_of_is(*self, kv, idx as int);
            assert(kv =~= (KeyView { name: classify_spec(file_name@).0, root_dir: parent_dir@ }));
            if old(self).has_key(kv) {
                assert(created == *old(self));
                assert(idx as int == old(self).index_of(kv));
            } else {
                assert(created.info_at(idx as int).headers@.len() == 0);
                assert(created.info_at(idx as int).headers@ =~= Seq::<String>::empty());
                assert(created.info_at(idx as int).srcs@ =~= Seq::<String>::empty());
            }
            if role == FileType::HEADER || role == FileType::TEMPLATE {
                assert(pushed_name(
                    self.info_at(idx as int).headers@,
                    created.info_at(idx as int).headers@,
                    file_name@,
                )) by {
                    assert(self.nodes@[idx as int].val.headers@.take(
                        created.nodes@[idx as int].val.headers@.len() as int,
                    ) =~= created.nodes@[idx as int].val.headers@);
                }
                assert(self.info_at(idx as int).srcs@ == created.info_at(idx as int).srcs@);
            } else {
                assert(pushed_name(
                    self.info_at(idx as int).srcs@,
                    created.info_at(idx as int).srcs@,
                    file_name@,
                )) by {
                    assert(self.nodes@[idx as int].val.srcs@.take(
                        created.nodes@[idx as int].val.srcs@.len() as int,
                    ) =~= created.nodes@[idx as int].val.srcs@);
                }
                assert(self.info_at(idx as int).headers@ == created.info_at(idx as int).headers@);
            }
        }
        let ghost filed = *self;
        let r = self.add_dependency_edges(idx, lines, scope);
        proof {
            lemma_index_of_is(*self, kv, idx as int);
            assert(self.info_at(idx as int).headers@ == filed.info_at(idx as int).headers@);
            assert(self.info_at(idx as int).srcs@ == filed.info_at(idx as int).srcs@);
            if old(self).has_key(kv) {
                assert(created == *old(self));
                assert(idx as int == old(self).index_of(kv));
            }
            assert forall|x: int, y: int| old(self).dep_edge(x, y) implies self.dep_edge(x, y) by {
                assert(created.dep_edge(x, y) == old(self).dep_edge(x, y));
                assert(filed.dep_edge(x, y) == created.dep_edge(x, y));
            }
            assert forall|x: int, y: int|
                self.dep_edge(x, y) && !old(self).dep_edge(x, y) implies x == idx as int by {
                assert(filed.dep_edge(x, y) == old(self).dep_edge(x, y));
            }
            assert forall|y: int|
                self.dep_edge(idx as int, y) && !old(self).dep_edge(idx as int, y) implies exists|
                    j: int,
                |
                    0 <= j < lines@.len() && line_names_key(
                        (#[trigger] lines@[j])@,
                        scope@,
                        self.key_at(y),
                    ) by {
                assert(filed.dep_edge(idx as int, y) == old(self).dep_edge(idx as int, y));
            }
        }
        r
    }
}

} // verus!
