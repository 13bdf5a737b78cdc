//! The hierarchy: collapsed units grouped by directory path for emission.
//!
//! Each path segment of a unit's directory is one level; a unit sits at the
//! node its full directory names, and intermediate levels exist even when
//! no unit sits on them directly. The hierarchy is only a grouping aid for
//! the emitter: it never touches the dependency edges.

use vstd::prelude::*;

use crate::graph::UnitMap;
use crate::resolve::find_char;
use crate::resolve::subvec;
use crate::resolve::eq_chars;
use crate::util::chars_string;
use crate::util::str_chars;

verus! {

/// One level of the hierarchy: the full directory path it stands for, the
/// collapsed units whose directory ends here, and its sublevels.
pub struct TrieNode {
    pub dir: String,
    pub units: Vec<usize>,
    pub children: Vec<usize>,
}

/// The directory-keyed hierarchy, stored as an arena whose first node is
/// the root (the empty directory).
pub struct UnitTrie {
    pub nodes: Vec<TrieNode>,
}

/// A child level stands for its parent's directory extended by exactly
/// one further path segment: the parent's directory is a strict prefix,
/// a separator follows it when it is non-empty, and no further separator
/// occurs after that point.
pub open spec fn child_extends(pd: Seq<char>, cd: Seq<char>) -> bool {
    &&& pd.len() < cd.len()
    &&& cd.take(pd.len() as int) == pd
    &&& (pd.len() > 0 ==> cd[pd.len() as int] == '/')
    &&& forall|t: int| pd.len() + 1 <= t < cd.len() ==> cd[t] != '/'
}

impl UnitTrie {
    /// Structural soundness: a root for the empty directory, pairwise
    /// distinct directories, duplicate-free unit lists, and in-bound child
    /// links each of which descends by exactly one path segment.
    pub open spec fn wf(self) -> bool {
        &&& self.nodes@.len() >= 1
        &&& self.nodes@[0].dir@ == Seq::<char>::empty()
        &&& forall|x: int, y: int|
            0 <= x < y < self.nodes@.len() ==> self.nodes@[x].dir@ != self.nodes@[y].dir@
        &&& forall|x: int, k: int|
            0 <= x < self.nodes@.len() && 0 <= k < self.nodes@[x].children@.len() ==> ((
            #[trigger] self.nodes@[x].children@[k]) as int) < self.nodes@.len()
        &&& forall|x: int, k: int|
            0 <= x < self.nodes@.len() && 0 <= k < self.nodes@[x].children@.len()
                ==> child_extends(
                self.nodes@[x].dir@,
                self.nodes@[(#[trigger] self.nodes@[x].children@[k]) as int].dir@,
            )
        &&& forall|x: int| 0 <= x < self.nodes@.len() ==> (#[trigger] self.nodes@[x]).units@.no_duplicates()
    }

}

proof fn lemma_first_at_before(l: Seq<char>, c: char, from: int, t: int)
    requires
        0 <= from <= t < l.len(),
        crate::resolve::first_at(l, c, from) == -1 || t < crate::resolve::first_at(l, c, from),
    ensures
        l[t] != c,
    decreases t - from,
{
    if l[from] == c {
        assert(crate::resolve::first_at(l, c, from) == from);
        assert(false);
    } else {
        assert(crate::resolve::first_at(l, c, from) == crate::resolve::first_at(l, c, from + 1));
        if from < t {
            lemma_first_at_before(l, c, from + 1, t);
        }
    }
}

fn find_dir(t: &UnitTrie, prefix: &Vec<char>) -> (r: Option<usize>)
    ensures
        match r {
            Some(x) => (x as int) < t.nodes@.len() && t.nodes@[x as int].dir@ == prefix@,
            None => forall|x: int| 0 <= x < t.nodes@.len() ==> (#[trigger] t.nodes@[x]).dir@ != prefix@,
        },
{
    let mut x: usize = 0;
    while x < t.nodes.len()
        invariant
            x <= t.nodes@.len(),
            forall|y: int| 0 <= y < x ==> (#[trigger] t.nodes@[y]).dir@ != prefix@,
        decreases t.nodes@.len() - x,
    {
        let dchars = str_chars(t.nodes[x].dir.as_str());
        if eq_chars(&dchars, prefix) {
            return Option::Some(x);
        }
        x = x + 1;
    }
    Option::None
}

impl UnitTrie {
    /// Finds or creates the node for the directory `dir`, creating every
    /// missing level on the way down from the root. Existing nodes keep
    /// their directory and their units; created nodes start with no units.
    fn ensure_path(&mut self, dir: &str) -> (idx: usize)
        requires
            old(self).wf(),
        ensures
            final(self).wf(),
            final(self).nodes@.len() >= old(self).nodes@.len(),
            forall|x: int|
                0 <= x < old(self).nodes@.len() ==> (#[trigger] final(self).nodes@[x]).dir@
                    == old(self).nodes@[x].dir@
                    && final(self).nodes@[x].units@ == old(self).nodes@[x].units@,
            forall|x: int|
                old(self).nodes@.len() <= x < final(self).nodes@.len()
                    ==> (#[trigger] final(self).nodes@[x]).units@.len() == 0,
            (idx as int) < final(self).nodes@.len(),
            final(self).nodes@[idx as int].dir@ == dir@,
    {
        let chars = str_chars(dir);
        if chars.len() == 0 {
            return 0;
        }
        let mut cur: usize = 0;
        let mut start: usize = 0;
        loop
            invariant
                old(self).wf(),
                self.wf(),
                chars@ == dir@,
                start <= chars@.len(),
                (cur as int) < self.nodes@.len(),
                self.nodes@.len() >= old(self).nodes@.len(),
                forall|x: int|
                    0 <= x < old(self).nodes@.len() ==> (#[trigger] self.nodes@[x]).dir@ == old(
                        self,
                    ).nodes@[x].dir@ && self.nodes@[x].units@ == old(self).nodes@[x].units@,
                forall|x: int|
                    old(self).nodes@.len() <= x < self.nodes@.len() ==> (#[trigger] self.nodes@[x]).units@.len()
                        == 0,
                self.nodes@[cur as int].dir@ == (if start == 0 {
                    Seq::<char>::empty()
                } else {
                    chars@.take(start as int - 1)
                }),
                start > 0 ==> chars@[start as int - 1] == '/',
            decreases chars@.len() - start,
        {
            let end = match find_char(&chars, '/', start) {
                Option::Some(e) => e,
                Option::None => chars.len(),
            };
            let prefix = subvec(&chars, 0, end);
            let node: usize = match find_dir(self, &prefix) {
                Option::Some(x) => x,
                Option::None => {
                    let nx = self.nodes.len();
                    let ghost before = *self;
                    self.nodes.push(
                        TrieNode {
                            dir: chars_string(&prefix),
                            units: Vec::new(),
                            children: Vec::new(),
                        },
                    );
                    let ghost mid = *self;
                    self.nodes[cur].children.push(nx);
                    proof {
                        assert(self.nodes@.len() == before.nodes@.len() + 1);
                        assert forall|x: int| 0 <= x < self.nodes@.len() && x != cur as int implies
                            self.nodes@[x] == mid.nodes@[x] by {}
                        assert(self.nodes@[cur as int].dir@ == mid.nodes@[cur as int].dir@);
                        assert(self.nodes@[cur as int].units@ == mid.nodes@[cur as int].units@);
                        assert forall|x: int, y: int|
                            0 <= x < y < self.nodes@.len() implies self.nodes@[x].dir@
                            != self.nodes@[y].dir@ by {
                            if y == nx as int {
                                assert(before.nodes@[x].dir@ != prefix@);
                                assert(self.nodes@[x].dir@ == before.nodes@[x].dir@);
                            } else {
                                assert(self.nodes@[x].dir@ == before.nodes@[x].dir@);
                                assert(self.nodes@[y].dir@ == before.nodes@[y].dir@);
                            }
                        }
                        assert forall|x: int, k: int|
                            0 <= x < self.nodes@.len() && 0 <= k
                                < self.nodes@[x].children@.len() implies ((
                        #[trigger] self.nodes@[x].children@[k]) as int) < self.nodes@.len() by {
                            if x == cur as int {
                                if k < mid.nodes@[x].children@.len() {
                                    assert(self.nodes@[x].children@[k] == mid.nodes@[x].children@[k]);
                                } else {
                                    assert(self.nodes@[x].children@[k] == nx);
                                }
                            }
                        }
                        assert(child_extends(
                            self.nodes@[cur as int].dir@,
                            self.nodes@[nx as int].dir@,
                        )) by {
                            let pd = self.nodes@[cur as int].dir@;
                            let cd = self.nodes@[nx as int].dir@;
                            assert(cd == prefix@);
                            assert(prefix@ =~= chars@.take(end as int));
                            if start == 0 {
                                assert(end > 0) by {
                                    if end == 0 {
                                        assert(prefix@ =~= Seq::<char>::empty());
                                        assert(before.nodes@[0].dir@ != prefix@);
                                        assert(false);
                                    }
                                }
                                assert(pd.len() == 0);
                            } else {
                                assert(pd =~= chars@.take(start as int - 1));
                                assert(end >= start);
                                assert(cd.take(pd.len() as int) =~= pd);
                                assert(pd.len() > 0 ==> cd[pd.len() as int] == chars@[start as int
                                    - 1]);
                            }
                            assert(cd.take(pd.len() as int) =~= pd);
                            assert forall|t: int| pd.len() + 1 <= t < cd.len() implies cd[t]
                                != '/' by {
                                assert(cd[t] == chars@[t]);
                                assert(t >= start as int);
                                lemma_first_at_before(chars@, '/', start as int, t);
                            }
                        }
                        assert forall|x: int, k: int|
                            0 <= x < self.nodes@.len() && 0 <= k
                                < self.nodes@[x].children@.len() implies child_extends(
                            self.nodes@[x].dir@,
                            self.nodes@[(#[trigger] self.nodes@[x].children@[k]) as int].dir@,
                        ) by {
                            if x == cur as int && k == mid.nodes@[x].children@.len() {
                                assert(self.nodes@[x].children@[k] == nx);
                            } else {
                                let c = self.nodes@[x].children@[k] as int;
                                assert(self.nodes@[x].children@[k]
                                    == before.nodes@[x].children@[k]);
                                assert((c as int) < before.nodes@.len());
                                assert(self.nodes@[x].dir@ == before.nodes@[x].dir@);
                                assert(self.nodes@[c].dir@ == before.nodes@[c].dir@);
                                assert(child_extends(
                                    before.nodes@[x].dir@,
                                    before.nodes@[c].dir@,
                                ));
                            }
                        }
                        assert(self.wf());
                    }
                    nx
                },
            };
            cur = node;
            if end == chars.len() {
                return cur;
            }
            start = end + 1;
        }
    }
}

impl UnitMap {
    /// Arranges the units into the directory hierarchy: every unit is
    /// placed at exactly one node — the one whose directory is the unit's
    /// own — with intermediate levels created as needed.
    pub fn generate_compilation_trie(&self) -> (r: (UnitTrie, Ghost<Seq<int>>))
        ensures
            r.0.wf(),
            forall|x: int, k: int|
                0 <= x < r.0.nodes@.len() && 0 <= k < r.0.nodes@[x].units@.len() ==> ((
                #[trigger] r.0.nodes@[x].units@[k]) as int) < self.n() && r.0.nodes@[x].dir@
                    == self.key_at(r.0.nodes@[x].units@[k] as int).root_dir,
            r.1@.len() == self.n(),
            forall|u: int|
                0 <= u < self.n() ==> 0 <= (#[trigger] r.1@[u]) && r.1@[u] < r.0.nodes@.len()
                    && r.0.nodes@[r.1@[u]].units@.contains(u as usize) && r.0.nodes@[r.1@[u]].dir@
                    == self.key_at(u).root_dir,
    {
        let mut trie = UnitTrie { nodes: Vec::new() };
        trie.nodes.push(TrieNode { dir: String::new(), units: Vec::new(), children: Vec::new() });
        let n = self.nodes.len();
        let ghost mut locs: Seq<int> = Seq::empty();
        let mut u: usize = 0;
        while u < n
            invariant
                u <= n,
                n == self.n(),
                trie.wf(),
                locs.len() == u as int,
                forall|x: int, k: int|
                    0 <= x < trie.nodes@.len() && 0 <= k < trie.nodes@[x].units@.len() ==> ((
                    #[trigger] trie.nodes@[x].units@[k]) as int) < u && trie.nodes@[x].dir@
                        == self.key_at(trie.nodes@[x].units@[k] as int).root_dir,
                forall|up: int|
                    0 <= up < u ==> 0 <= (#[trigger] locs[up]) && locs[up] < trie.nodes@.len()
                        && trie.nodes@[locs[up]].units@.contains(up as usize)
                        && trie.nodes@[locs[up]].dir@ == self.key_at(up).root_dir,
            decreases n - u,
        {
            let dir = self.nodes[u].key.root_dir.as_str();
            let ghost pre = trie;
            let node_idx = trie.ensure_path(dir);
            let ghost mid = trie;
            proof {
                assert forall|x: int, k: int|
                    0 <= x < trie.nodes@.len() && 0 <= k < trie.nodes@[x].units@.len() implies ((
                #[trigger] trie.nodes@[x].units@[k]) as int) < u && trie.nodes@[x].dir@
                    == self.key_at(trie.nodes@[x].units@[k] as int).root_dir by {
                    if x < pre.nodes@.len() {
                        assert(trie.nodes@[x].units@ == pre.nodes@[x].units@);
                        assert(trie.nodes@[x].dir@ == pre.nodes@[x].dir@);
                    } else {
                        assert(trie.nodes@[x].units@.len() == 0);
                    }
                }
                assert forall|up: int| 0 <= up < u implies 0 <= (#[trigger] locs[up]) && locs[up]
                    < trie.nodes@.len() && trie.nodes@[locs[up]].units@.contains(up as usize)
                    && trie.nodes@[locs[up]].dir@ == self.key_at(up).root_dir by {
                    assert(locs[up] < pre.nodes@.len());
                    assert(trie.nodes@[locs[up]].units@ == pre.nodes@[locs[up]].units@);
                    assert(trie.nodes@[locs[up]].dir@ == pre.nodes@[locs[up]].dir@);
                }
            }
            let ghost upre = trie.nodes@[node_idx as int].units@;
            trie.nodes[node_idx].units.push(u);
            proof {
                assert forall|x: int| 0 <= x < trie.nodes@.len() && x != node_idx as int implies
                    trie.nodes@[x] == mid.nodes@[x] by {}
                assert(trie.nodes@[node_idx as int].units@ =~= upre.push(u));
                assert(trie.nodes@[node_idx as int].dir@ == mid.nodes@[node_idx as int].dir@);
                assert(!upre.contains(u)) by {
                    if upre.contains(u) {
                        let k = choose|k: int| 0 <= k < upre.len() && upre[k] == u;
                        assert((mid.nodes@[node_idx as int].units@[k] as int) < u as int);
                        assert(false);
                    }
                }
                assert forall|x: int| 0 <= x < trie.nodes@.len() implies (
                #[trigger] trie.nodes@[x]).units@.no_duplicates() by {
                    if x == node_idx as int {
                        assert forall|a: int, b: int|
                            0 <= a < b < trie.nodes@[x].units@.len() implies trie.nodes@[x].units@[a]
                            != trie.nodes@[x].units@[b] by {
                            if b == upre.len() {
                                assert(trie.nodes@[x].units@[a] == upre[a]);
                            }
                        }
                    }
                }
                assert(trie.wf());
                assert forall|x: int, k: int|
                    0 <= x < trie.nodes@.len() && 0 <= k < trie.nodes@[x].units@.len() implies ((
                #[trigger] trie.nodes@[x].units@[k]) as int) < u + 1 && trie.nodes@[x].dir@
                    == self.key_at(trie.nodes@[x].units@[k] as int).root_dir by {
                    if x == node_idx as int && k == upre.len() {
                        assert(trie.nodes@[x].units@[k] == u);
                        assert(trie.nodes@[x].dir@ == self.nodes@[u as int].key.root_dir@);
                    } else {
                        assert(trie.nodes@[x].units@[k] == mid.nodes@[x].units@[k]);
                    }
                }
                assert(trie.nodes@[node_idx as int].units@.contains(u)) by {
                    assert(trie.nodes@[node_idx as int].units@[upre.len() as int] == u);
                }
                locs = locs.push(node_idx as int);
                assert forall|up: int| 0 <= up < u + 1 implies 0 <= (#[trigger] locs[up])
                    && locs[up] < trie.nodes@.len() && trie.nodes@[locs[up]].units@.contains(
                    up as usize,
                ) && trie.nodes@[locs[up]].dir@ == self.key_at(up).root_dir by {
                    if up == u as int {
                        assert(locs[up] == node_idx as int);
                    } else {
                        if locs[up] == node_idx as int {
                            assert(mid.nodes@[locs[up]].units@.contains(up as usize));
                            let k = choose|k: int| 0 <= k < upre.len() && upre[k] == up as usize;
                            assert(trie.nodes@[locs[up]].units@[k] == up as usize);
                        } else {
                            assert(trie.nodes@[locs[up]] == mid.nodes@[locs[up]]);
                        }
                    }
                }
            }
            u = u + 1;
        }
        (trie, Ghost(locs))
    }
}

} // verus!
