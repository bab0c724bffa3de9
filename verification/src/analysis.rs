//! Topology analysis of one graph section: connectivity over undirected
//! reachability, cycle detection with both directions proved, bubble pairs,
//! and the overall topology classification.
use vstd::prelude::*;

use crate::error::TsgError;
use crate::section::{GraphSection, SectionV, in_degree_spec, out_degree_spec, section_wf};

verus! {

/// The topology classes a section falls into.
#[derive(Clone, Copy, Debug, PartialEq, Eq, Structural)]
pub enum GraphTopology {
    /// Simple, many sources into one sink.
    FadeIn,
    /// Simple, one source into many sinks.
    FadeOut,
    /// Simple, many sources into many sinks.
    Bipartite,
    /// Not simple, exactly one source and one sink.
    UniquePath,
    /// Not simple, with bubbles whose branches have equal node counts.
    EquiPath,
    /// Not simple, with a bubble whose branches differ in node count.
    HeteroPath,
    /// None of the above.
    NotDefined,
}

/// Whether an edge slot joins `a` and `b` in either direction.
pub open spec fn adjacent(g: SectionV, a: int, b: int) -> bool {
    exists|k: int|
        0 <= k < g.edges.len() && ((#[trigger] g.edges[k]).source == a && g.edges[k].target == b
            || g.edges[k].source == b && g.edges[k].target == a)
}

/// Whether `b` can be reached from `a` along edges taken in either
/// direction, within `n` steps.
pub open spec fn reachable_n(g: SectionV, a: int, b: int, n: nat) -> bool
    decreases n,
{
    if a == b {
        true
    } else if n == 0 {
        false
    } else {
        exists|m: int|
            0 <= m < g.nodes.len() && adjacent(g, a, m) && reachable_n(g, m, b, (n - 1) as nat)
    }
}

/// Whether `b` can be reached from `a`, ignoring edge direction.
pub open spec fn reachable(g: SectionV, a: int, b: int) -> bool {
    exists|n: nat| reachable_n(g, a, b, n)
}

/// A set of nodes marked `true` that contains `a` and is closed under
/// adjacency contains everything reachable from `a`.
proof fn lemma_closed_contains_reachable(g: SectionV, marked: Seq<bool>, a: int, b: int, n: nat)
    requires
        marked.len() == g.nodes.len(),
        0 <= a < g.nodes.len(),
        0 <= b < g.nodes.len(),
        marked[a],
        forall|x: int, y: int|
            0 <= x < g.nodes.len() && 0 <= y < g.nodes.len() && marked[x] && adjacent(g, x, y)
                ==> marked[y],
        reachable_n(g, a, b, n),
    ensures
        marked[b],
    decreases n,
{
    if a != b {
        let m = choose|m: int|
            0 <= m < g.nodes.len() && adjacent(g, a, m) && reachable_n(g, m, b, (n - 1) as nat);
        assert(marked[m]);
        lemma_closed_contains_reachable(g, marked, m, b, (n - 1) as nat);
    }
}

/// Number of `false` entries.
pub open spec fn count_false(s: Seq<bool>) -> nat
    decreases s.len(),
{
    if s.len() == 0 {
        0
    } else {
        count_false(s.drop_last()) + if s.last() {
            0nat
        } else {
            1nat
        }
    }
}

proof fn lemma_count_false_update(s: Seq<bool>, i: int)
    requires
        0 <= i < s.len(),
        !s[i],
    ensures
        count_false(s.update(i, true)) == count_false(s) - 1,
    decreases s.len(),
{
    if i == s.len() - 1 {
        assert(s.update(i, true).drop_last() =~= s.drop_last());
    } else {
        lemma_count_false_update(s.drop_last(), i);
        assert(s.update(i, true).drop_last() =~= s.drop_last().update(i, true));
        assert(s.update(i, true).last() == s.last());
    }
}

proof fn lemma_count_false_zero(s: Seq<bool>, i: int)
    requires
        count_false(s) == 0,
        0 <= i < s.len(),
    ensures
        s[i],
    decreases s.len(),
{
    if i < s.len() - 1 {
        lemma_count_false_zero(s.drop_last(), i);
    }
}

/// A closed walk along directed edges: at least one step, returning to its
/// first node, every hop an edge of the section.
pub open spec fn is_cycle(g: SectionV, p: Seq<int>) -> bool {
    &&& p.len() >= 2
    &&& p[0] == p[p.len() - 1]
    &&& forall|i: int| 0 <= i < p.len() ==> 0 <= #[trigger] p[i] < g.nodes.len()
    &&& forall|i: int|
        0 <= i < p.len() - 1 ==> exists|k: int|
            0 <= k < g.edges.len() && (#[trigger] g.edges[k]).source == #[trigger] p[i]
                && g.edges[k].target == p[i + 1]
}

/// Whether the section has a directed cycle.
pub open spec fn has_cycle(g: SectionV) -> bool {
    exists|p: Seq<int>| is_cycle(g, p)
}

/// Along a cycle, a removal position that rises along every edge rises
/// around the whole cycle, which is impossible.
proof fn lemma_pos_rises(g: SectionV, pos: Seq<int>, p: Seq<int>, i: int)
    requires
        pos.len() == g.nodes.len(),
        forall|k: int|
            0 <= k < g.edges.len() ==> pos[(#[trigger] g.edges[k]).source] < pos[g.edges[k].target],
        is_cycle(g, p),
        0 <= i < p.len(),
    ensures
        i > 0 ==> pos[p[0]] < pos[p[i]],
    decreases i,
{
    if i > 0 {
        lemma_pos_rises(g, pos, p, i - 1);
        let k = choose|k: int|
            0 <= k < g.edges.len() && (#[trigger] g.edges[k]).source == p[i - 1]
                && g.edges[k].target == p[i];
        assert(pos[p[i - 1]] < pos[p[i]]);
    }
}

impl GraphSection {
    /// Whether every node can reach every other when edges are taken in
    /// both directions; an empty section is connected.
    pub fn is_connected(&self) -> (r: Result<bool, TsgError>)
        requires
            section_wf(self@),
        ensures
            match r {
                Ok(b) => b <==> (self@.nodes.len() == 0 || forall|v: int|
                    0 <= v < self@.nodes.len() ==> reachable(self@, 0, v)),
                Err(_) => false,
            },
    {
        let ghost g = self@;
        let n = self.nodes.len();
        if n == 0 {
            return Ok(true);
        }
        let mut marked: Vec<bool> = Vec::new();
        let mut mi: usize = 0;
        while mi < n
            invariant
                0 <= mi <= n,
                marked@.len() == mi,
                forall|k: int| 0 <= k < mi ==> !marked@[k],
            decreases n - mi,
        {
            marked.push(false);
            mi = mi + 1;
        }
        marked.set(0, true);
        proof {
            assert(reachable_n(g, 0, 0, 0));
            assert(reachable(g, 0, 0));
        }
        // Saturate: mark neighbours of marked nodes until nothing changes.
        let mut progress = true;
        while progress
            invariant
                g == self@,
                section_wf(g),
                n == g.nodes.len(),
                marked@.len() == n,
                n >= 1,
                marked@[0],
                forall|v: int| 0 <= v < n && #[trigger] marked@[v] ==> reachable(g, 0, v),
                !progress ==> forall|v: int|
                    0 <= v < n && reachable(g, 0, v) ==> #[trigger] marked@[v],
            decreases count_false(marked@) + if progress {
                1int
            } else {
                0int
            },
        {
            progress = false;
            let ghost marked_at_pass = marked@;
            let mut k: usize = 0;
            while k < self.edges.len()
                invariant
                    n == g.nodes.len(),
                    g == self@,
                    section_wf(g),
                    marked@.len() == n,
                    marked_at_pass.len() == n,
                    n >= 1,
                    marked@[0],
                    forall|v: int| 0 <= v < n && #[trigger] marked@[v] ==> reachable(g, 0, v),
                    progress ==> count_false(marked@) < count_false(marked_at_pass),
                    !progress ==> marked@ == marked_at_pass,
                    !progress ==> forall|j: int|
                        0 <= j < k ==> ((marked@[(#[trigger] g.edges[j]).source] ==> marked@[g.edges[j].target]) && (
                        marked@[g.edges[j].target] ==> marked@[g.edges[j].source])),
                decreases self.edges.len() - k,
            {
                proof {
                    assert(self.edges.deep_view()[k as int] == self.edges@[k as int]@);
                    assert(0 <= g.edges[k as int].source < n);
                    assert(0 <= g.edges[k as int].target < n);
                }
                let s = self.edges[k].source;
                let t = self.edges[k].target;
                if marked[s] && !marked[t] {
                    proof {
                        lemma_count_false_update(marked@, t as int);
                        let nr = choose|nr: nat| reachable_n(g, 0, s as int, nr);
                        assert(adjacent(g, s as int, t as int));
                        lemma_reach_step(g, 0, s as int, t as int, nr);
                    }
                    marked.set(t, true);
                    progress = true;
                } else if marked[t] && !marked[s] {
                    proof {
                        lemma_count_false_update(marked@, s as int);
                        let nr = choose|nr: nat| reachable_n(g, 0, t as int, nr);
                        assert(adjacent(g, t as int, s as int));
                        lemma_reach_step(g, 0, t as int, s as int, nr);
                    }
                    marked.set(s, true);
                    progress = true;
                }
                k = k + 1;
            }
            proof {
                if !progress {
                    // The marking is closed under adjacency: everything
                    // reachable from node 0 is marked.
                    assert forall|x: int, y: int|
                        0 <= x < n && 0 <= y < n && marked@[x] && adjacent(g, x, y)
                            implies marked@[y] by {
                        let kk = choose|kk: int|
                            0 <= kk < g.edges.len() && ((#[trigger] g.edges[kk]).source == x
                                && g.edges[kk].target == y || g.edges[kk].source == y
                                && g.edges[kk].target == x);
                        assert((marked@[g.edges[kk].source] ==> marked@[g.edges[kk].target]) && (
                        marked@[g.edges[kk].target] ==> marked@[g.edges[kk].source]));
                    }
                    assert forall|v: int|
                        0 <= v < n && reachable(g, 0, v) implies #[trigger] marked@[v] by {
                        let nr = choose|nr: nat| reachable_n(g, 0, v, nr);
                        lemma_closed_contains_reachable(g, marked@, 0, v, nr);
                    }
                }
            }
        }
        proof {
            // The loop ends only with a fruitless pass, so the final
            // marking is exactly the reachable set.
            assert(!progress ==> true);
        }
        // Marked now holds exactly the nodes reachable from node 0.
        let mut all = true;
        let mut v: usize = 0;
        while v < n
            invariant
                0 <= v <= n,
                n == g.nodes.len(),
                marked@.len() == n,
                forall|x: int| 0 <= x < n && #[trigger] marked@[x] ==> reachable(g, 0, x),
                forall|x: int| 0 <= x < n && reachable(g, 0, x) ==> #[trigger] marked@[x],
                all <==> (forall|x: int| 0 <= x < v ==> #[trigger] marked@[x]),
            decreases n - v,
        {
            if !marked[v] {
                proof {
                    assert(!marked@[v as int]);
                }
                all = false;
            }
            v = v + 1;
        }
        proof {
            if all {
                assert forall|x: int| 0 <= x < n implies reachable(g, 0, x) by {
                    assert(marked@[x]);
                }
            } else {
                let w = choose|x: int| 0 <= x < n && !marked@[x];
                assert(!reachable(g, 0, w));
            }
        }
        Ok(all)
    }
}

proof fn lemma_count_false_all_true(s: Seq<bool>)
    requires
        forall|i: int| 0 <= i < s.len() ==> s[i],
    ensures
        count_false(s) == 0,
    decreases s.len(),
{
    if s.len() > 0 {
        lemma_count_false_all_true(s.drop_last());
    }
}

impl GraphSection {
    /// The first edge slot into `v` whose source is still live.
    fn find_live_in_edge(&self, v: usize, removed: &Vec<bool>) -> (r: Option<usize>)
        requires
            section_wf(self@),
            removed@.len() == self@.nodes.len(),
            v < self@.nodes.len(),
        ensures
            match r {
                Some(k) => k < self@.edges.len() && self@.edges[k as int].target == v
                    && !removed@[self@.edges[k as int].source],
                None => forall|k: int|
                    0 <= k < self@.edges.len() && (#[trigger] self@.edges[k]).target == v
                        ==> removed@[self@.edges[k].source],
            },
    {
        let mut k: usize = 0;
        while k < self.edges.len()
            invariant
                section_wf(self@),
                removed@.len() == self@.nodes.len(),
                0 <= k <= self@.edges.len(),
                forall|j: int|
                    0 <= j < k && (#[trigger] self@.edges[j]).target == v
                        ==> removed@[self@.edges[j].source],
            decreases self.edges.len() - k,
        {
            proof {
                assert(self.edges.deep_view()[k as int] == self.edges@[k as int]@);
                assert(0 <= self@.edges[k as int].source < self@.nodes.len());
            }
            if self.edges[k].target == v && !removed[self.edges[k].source] {
                return Some(k);
            }
            k = k + 1;
        }
        None
    }

    /// Whether the section holds a directed cycle, decided by repeatedly
    /// removing nodes without live incoming edges; when some nodes cannot
    /// be removed, a concrete cycle is traced out through them.
    /// One pass over the nodes, removing every node whose incoming edges
    /// all start at removed nodes and recording its removal position.
    #[verifier::spinoff_prover]
    #[verifier::rlimit(100)]
    fn removal_pass(
        &self,
        removed: &mut Vec<bool>,
        pos: &mut Vec<usize>,
        order_len: &mut usize,
    ) -> (progress: bool)
        requires
            section_wf(self@),
            old(removed)@.len() == self@.nodes.len(),
            old(pos)@.len() == self@.nodes.len(),
            *old(order_len) <= self@.nodes.len(),
            count_false(old(removed)@) == self@.nodes.len() - *old(order_len),
            forall|v: int|
                0 <= v < self@.nodes.len() && #[trigger] old(removed)@[v] ==> old(pos)@[v] < *old(
                    order_len,
                ),
            forall|k: int|
                0 <= k < self@.edges.len() && old(removed)@[(#[trigger] self@.edges[k]).target]
                    ==> old(removed)@[self@.edges[k].source] && old(pos)@[self@.edges[k].source]
                    < old(pos)@[self@.edges[k].target],
        ensures
            final(removed)@.len() == self@.nodes.len(),
            final(pos)@.len() == self@.nodes.len(),
            *final(order_len) <= self@.nodes.len(),
            count_false(final(removed)@) == self@.nodes.len() - *final(order_len),
            forall|v: int|
                0 <= v < self@.nodes.len() && #[trigger] final(removed)@[v] ==> final(pos)@[v]
                    < *final(order_len),
            forall|k: int|
                0 <= k < self@.edges.len() && final(removed)@[(#[trigger] self@.edges[k]).target]
                    ==> final(removed)@[self@.edges[k].source] && final(pos)@[self@.edges[k].source]
                    < final(pos)@[self@.edges[k].target],
            progress ==> count_false(final(removed)@) < count_false(old(removed)@),
            !progress ==> final(removed)@ == old(removed)@ && forall|x: int|
                0 <= x < self@.nodes.len() && !(#[trigger] final(removed)@[x]) ==> exists|k: int|
                    0 <= k < self@.edges.len() && (#[trigger] self@.edges[k]).target == x
                        && !final(removed)@[self@.edges[k].source],
    {
        let ghost g = self@;
        let n = self.nodes.len();
        let mut progress = false;
        let ghost removed_at_pass = removed@;
        let mut v: usize = 0;
        while v < n
            invariant
                g == self@,
                section_wf(g),
                n == g.nodes.len(),
                removed@.len() == n,
                pos@.len() == n,
                *order_len <= n,
                count_false(removed@) == n - *order_len,
                removed_at_pass.len() == n,
                forall|x: int| 0 <= x < n && #[trigger] removed@[x] ==> pos@[x] < *order_len,
                forall|k: int|
                    0 <= k < g.edges.len() && removed@[(#[trigger] g.edges[k]).target]
                        ==> removed@[g.edges[k].source] && pos@[g.edges[k].source] < pos@[g.edges[k].target],
                progress ==> count_false(removed@) < count_false(removed_at_pass),
                !progress ==> removed@ == removed_at_pass,
                !progress ==> forall|x: int|
                    0 <= x < v && !(#[trigger] removed@[x]) ==> exists|k: int|
                        0 <= k < g.edges.len() && (#[trigger] g.edges[k]).target == x
                            && !removed@[g.edges[k].source],
            decreases n - v,
        {
            if !removed[v] {
                match self.find_live_in_edge(v, removed) {
                    Some(_) => {},
                    None => {
                        proof {
                            lemma_count_false_update(removed@, v as int);
                        }
                        let ghost removed_before = removed@;
                        let ghost pos_before = pos@;
                        removed.set(v, true);
                        pos.set(v, *order_len);
                        *order_len = *order_len + 1;
                        progress = true;
                        proof {
                            assert forall|k: int|
                                0 <= k < g.edges.len() && removed@[(
                                #[trigger] g.edges[k]).target] implies removed@[g.edges[k].source]
                                && pos@[g.edges[k].source] < pos@[g.edges[k].target] by {
                                let src = g.edges[k].source;
                                let tgt = g.edges[k].target;
                                if tgt == v {
                                    assert(removed_before[src]);
                                    assert(src != v);
                                    assert(pos@[src] == pos_before[src]);
                                    assert(pos_before[src] < *order_len - 1);
                                } else {
                                    assert(removed_before[tgt]);
                                    assert(removed_before[src]);
                                    assert(src != v && tgt != v);
                                }
                            }
                        }
                    },
                }
            }
            v = v + 1;
        }
        progress
    }

    /// Whether the section holds a directed cycle, decided by repeatedly
    /// removing nodes without live incoming edges; when some nodes cannot
    /// be removed, a concrete cycle is traced out through them.
    #[verifier::spinoff_prover]
    #[verifier::rlimit(100)]
    pub fn is_cyclic(&self) -> (r: Result<bool, TsgError>)
        requires
            section_wf(self@),
        ensures
            match r {
                Ok(b) => b <==> has_cycle(self@),
                Err(_) => false,
            },
    {
        let ghost g = self@;
        let n = self.nodes.len();
        let mut removed: Vec<bool> = Vec::new();
        let mut pos: Vec<usize> = Vec::new();
        let mut mi: usize = 0;
        while mi < n
            invariant
                0 <= mi <= n,
                removed@.len() == mi,
                pos@.len() == mi,
                forall|k: int| 0 <= k < mi ==> !removed@[k],
                count_false(removed@) == mi,
            decreases n - mi,
        {
            let ghost before = removed@;
            removed.push(false);
            pos.push(0);
            mi = mi + 1;
            proof {
                assert(removed@.drop_last() =~= before);
            }
        }
        let mut order_len: usize = 0;
        let mut progress = true;
        while progress
            invariant
                g == self@,
                section_wf(g),
                n == g.nodes.len(),
                removed@.len() == n,
                pos@.len() == n,
                order_len <= n,
                count_false(removed@) == n - order_len,
                forall|v: int| 0 <= v < n && #[trigger] removed@[v] ==> pos@[v] < order_len,
                forall|k: int|
                    0 <= k < g.edges.len() && removed@[(#[trigger] g.edges[k]).target]
                        ==> removed@[g.edges[k].source] && pos@[g.edges[k].source] < pos@[g.edges[k].target],
                !progress ==> forall|x: int|
                    0 <= x < n && !(#[trigger] removed@[x]) ==> exists|k: int|
                        0 <= k < g.edges.len() && (#[trigger] g.edges[k]).target == x
                            && !removed@[g.edges[k].source],
            decreases count_false(removed@) + if progress {
                1int
            } else {
                0int
            },
        {
            progress = self.removal_pass(&mut removed, &mut pos, &mut order_len);
        }
        if order_len == n {
            proof {
                lemma_all_removed_acyclic(g, pos@, removed@);
            }
            return Ok(false);
        }
        // Some nodes could not be removed; each keeps a live incoming
        // edge, so walking backwards through them must close a loop.
        proof {
            assert(count_false(removed@) > 0);
        }
        self.trace_cycle(&removed);
        Ok(true)
    }

    /// Walk backwards through the nodes that kept live incoming edges
    /// until the walk revisits a node, which exhibits a cycle.
    #[verifier::spinoff_prover]
    #[verifier::rlimit(100)]
    fn trace_cycle(&self, removed: &Vec<bool>)
        requires
            section_wf(self@),
            removed@.len() == self@.nodes.len(),
            count_false(removed@) > 0,
            forall|x: int|
                0 <= x < self@.nodes.len() && !(#[trigger] removed@[x]) ==> exists|k: int|
                    0 <= k < self@.edges.len() && (#[trigger] self@.edges[k]).target == x
                        && !removed@[self@.edges[k].source],
        ensures
            has_cycle(self@),
    {
        let ghost g = self@;
        let n = self.nodes.len();
        let mut start: usize = 0;
        let mut found_start = false;
        let mut sv: usize = 0;
        while sv < n
            invariant
                0 <= sv <= n,
                removed@.len() == n,
                n == self@.nodes.len(),
                !found_start ==> forall|x: int| 0 <= x < sv ==> removed@[x],
                found_start ==> start < n && !removed@[start as int],
            decreases n - sv,
        {
            if !removed[sv] && !found_start {
                start = sv;
                found_start = true;
            }
            sv = sv + 1;
        }
        if !found_start {
            proof {
                lemma_count_false_all_true(removed@);
            }
            return ;
        }
        let mut bpath: Vec<usize> = Vec::new();
        let mut seen: Vec<bool> = Vec::new();
        let mut si: usize = 0;
        while si < n
            invariant
                0 <= si <= n,
                seen@.len() == si,
                forall|k: int| 0 <= k < si ==> !seen@[k],
                count_false(seen@) == si,
            decreases n - si,
        {
            let ghost before = seen@;
            seen.push(false);
            si = si + 1;
            proof {
                assert(seen@.drop_last() =~= before);
            }
        }
        proof {
            lemma_count_false_update(seen@, start as int);
        }
        seen.set(start, true);
        bpath.push(start);
        proof {
            assert(bpath@ =~= seq![start]);
            assert forall|x: int|
                0 <= x < n && #[trigger] seen@[x] implies exists|m: int|
                0 <= m < bpath@.len() && bpath@[m] == x by {
                assert(x == start as int);
                assert(bpath@[0] == start);
            }
        }
        loop
            invariant
                g == self@,
                section_wf(g),
                n == g.nodes.len(),
                removed@.len() == n,
                seen@.len() == n,
                bpath@.len() >= 1,
                forall|m: int|
                    0 <= m < bpath@.len() ==> #[trigger] bpath@[m] < n && !removed@[bpath@[m] as int],
                forall|m: int|
                    0 <= m < bpath@.len() - 1 ==> exists|k: int|
                        0 <= k < g.edges.len() && (#[trigger] g.edges[k]).source
                            == #[trigger] bpath@[m] && g.edges[k].target == bpath@[m + 1],
                forall|x: int|
                    0 <= x < n && #[trigger] seen@[x] ==> exists|m: int|
                        0 <= m < bpath@.len() && bpath@[m] == x,
                forall|x: int|
                    0 <= x < n && !(#[trigger] removed@[x]) ==> exists|k: int|
                        0 <= k < g.edges.len() && (#[trigger] g.edges[k]).target == x
                            && !removed@[g.edges[k].source],
            decreases count_false(seen@),
        {
            let c = bpath[0];
            proof {
                assert(bpath@[0] < n && !removed@[bpath@[0] as int]);
            }
            let k = match self.find_live_in_edge(c, &removed) {
                Some(k) => k,
                None => {
                    proof {
                        assert(!removed@[c as int]);
                        assert(false);
                    }
                    return ;
                },
            };
            proof {
                assert(self.edges.deep_view()[k as int] == self.edges@[k as int]@);
                assert(0 <= g.edges[k as int].source < n);
            }
            let u = self.edges[k].source;
            if seen[u] {
                // The walk closed on itself: the prefix of the path up to
                // the earlier occurrence of this node is a cycle.
                proof {
                    let j = choose|m: int| 0 <= m < bpath@.len() && bpath@[m] == u;
                    let fwd = bpath@.take(j + 1).map_values(|x: usize| x as int);
                    let cyc = fwd + seq![bpath@[0] as int];
                    assert(cyc.len() == j + 2);
                    assert(cyc[0] == bpath@[0] as int);
                    assert(cyc[cyc.len() - 1] == bpath@[0] as int);
                    assert forall|i: int| 0 <= i < cyc.len() implies 0 <= #[trigger] cyc[i] < n by {
                        if i < j + 1 {
                            assert(cyc[i] == bpath@[i] as int);
                        }
                    }
                    assert forall|i: int|
                        0 <= i < cyc.len() - 1 implies exists|kk: int|
                        0 <= kk < g.edges.len() && (#[trigger] g.edges[kk]).source
                            == #[trigger] cyc[i] && g.edges[kk].target == cyc[i + 1] by {
                        if i < j {
                            assert(cyc[i] == bpath@[i] as int);
                            assert(cyc[i + 1] == bpath@[i + 1] as int);
                            assert(exists|kk: int|
                                0 <= kk < g.edges.len() && (#[trigger] g.edges[kk]).source
                                    == bpath@[i] && g.edges[kk].target == bpath@[i + 1]);
                        } else {
                            assert(i == j);
                            assert(cyc[i] == bpath@[j] as int);
                            assert(bpath@[j] == u);
                            assert(g.edges[k as int].source == u);
                            assert(g.edges[k as int].target == c);
                            assert(cyc[i + 1] == bpath@[0] as int);
                        }
                    }
                    assert(is_cycle(g, cyc));
                }
                return ;
            }
            proof {
                lemma_count_false_update(seen@, u as int);
            }
            seen.set(u, true);
            let ghost bp_before = bpath@;
            bpath.insert(0, u);
            proof {
                assert(bpath@ =~= seq![u] + bp_before);
                assert forall|x: int|
                    0 <= x < n && #[trigger] seen@[x] implies exists|m: int|
                    0 <= m < bpath@.len() && bpath@[m] == x by {
                    if x == u {
                        assert(bpath@[0] == u);
                    } else {
                        let m = choose|m: int| 0 <= m < bp_before.len() && bp_before[m] == x;
                        assert(bpath@[m + 1] == x);
                    }
                }
                assert forall|m: int|
                    0 <= m < bpath@.len() - 1 implies exists|k2: int|
                    0 <= k2 < g.edges.len() && (#[trigger] g.edges[k2]).source
                        == #[trigger] bpath@[m] && g.edges[k2].target == bpath@[m + 1] by {
                    if m == 0 {
                        assert(g.edges[k as int].source == u);
                        assert(g.edges[k as int].target == c);
                        assert(bpath@[0] == u);
                        assert(bpath@[1] == bp_before[0]);
                        assert(bp_before[0] == c);
                    } else {
                        assert(bpath@[m] == bp_before[m - 1]);
                        assert(bpath@[m + 1] == bp_before[m]);
                        assert(exists|k2: int|
                            0 <= k2 < g.edges.len() && (#[trigger] g.edges[k2]).source
                                == bp_before[m - 1] && g.edges[k2].target == bp_before[m]);
                    }
                }
            }
        }
    }
}

/// A removal order covering every node witnesses that the section has no
/// directed cycle.
proof fn lemma_all_removed_acyclic(g: SectionV, pos: Seq<usize>, removed: Seq<bool>)
    requires
        section_wf(g),
        pos.len() == g.nodes.len(),
        removed.len() == g.nodes.len(),
        count_false(removed) == 0,
        forall|k: int|
            0 <= k < g.edges.len() && removed[(#[trigger] g.edges[k]).target]
                ==> removed[g.edges[k].source] && pos[g.edges[k].source] < pos[g.edges[k].target],
    ensures
        !has_cycle(g),
{
    if has_cycle(g) {
        let p = choose|p: Seq<int>| is_cycle(g, p);
        let posv = Seq::new(g.nodes.len() as nat, |x: int| pos[x] as int);
        assert forall|k: int|
            0 <= k < g.edges.len() implies posv[(#[trigger] g.edges[k]).source]
            < posv[g.edges[k].target] by {
            assert(0 <= g.edges[k].source < g.nodes.len());
            assert(0 <= g.edges[k].target < g.nodes.len());
            lemma_count_false_zero(removed, g.edges[k].target);
            lemma_count_false_zero(removed, g.edges[k].source);
        }
        lemma_pos_rises(g, posv, p, p.len() - 1);
    }
}

/// What every detected bubble pair satisfies: two walks of at least two
/// nodes each that share their first and their last node and are not the
/// same sequence.
pub open spec fn bubble_pair_ok(p: (Seq<usize>, Seq<usize>)) -> bool {
    &&& p.0.len() >= 2
    &&& p.1.len() >= 2
    &&& p.0[0] == p.1[0]
    &&& p.0[p.0.len() - 1] == p.1[p.1.len() - 1]
    &&& p.0 != p.1
}

/// A walk along directed edges: live nodes, each hop an edge.
pub open spec fn walk_ok(g: SectionV, path: Seq<usize>) -> bool {
    &&& path.len() >= 1
    &&& forall|x: int| 0 <= x < path.len() ==> (#[trigger] path[x]) < g.nodes.len()
    &&& forall|x: int|
        0 <= x < path.len() - 1 ==> exists|k: int|
            0 <= k < g.edges.len() && (#[trigger] g.edges[k]).source == #[trigger] path[x]
                && g.edges[k].target == path[x + 1]
}

/// Whether an edge leads from `s` to `t`.
pub open spec fn succ_edge(g: SectionV, s: int, t: int) -> bool {
    exists|k: int|
        0 <= k < g.edges.len() && (#[trigger] g.edges[k]).source == s && g.edges[k].target == t
}

/// The full bubble-pair promise: both branches are real edge walks sharing
/// endpoints and differing, and either both detour over an intermediate
/// node or a direct edge stands beside such a detour.
pub open spec fn bubble_pair_walks(g: SectionV, p: (Seq<usize>, Seq<usize>)) -> bool {
    &&& bubble_pair_ok(p)
    &&& walk_ok(g, p.0)
    &&& walk_ok(g, p.1)
    &&& ((p.0.len() >= 3 && p.1.len() >= 3) || (p.0.len() == 2 && p.1.len() >= 3))
}

/// Whether two node-position vectors hold the same positions.
fn eq_usizes(a: &Vec<usize>, b: &Vec<usize>) -> (r: bool)
    ensures
        r == (a@ == b@),
{
    if a.len() != b.len() {
        proof {
            assert(a@ != b@);
        }
        return false;
    }
    let mut i: usize = 0;
    while i < a.len()
        invariant
            0 <= i <= a@.len(),
            a@.len() == b@.len(),
            forall|k: int| 0 <= k < i ==> a@[k] == b@[k],
        decreases a.len() - i,
    {
        if a[i] != b[i] {
            return false;
        }
        i = i + 1;
    }
    proof {
        assert(a@ =~= b@);
    }
    true
}

/// A copy of a node-position vector.
fn clone_usizes(a: &Vec<usize>) -> (r: Vec<usize>)
    ensures
        r@ == a@,
{
    let mut out: Vec<usize> = Vec::new();
    let mut i: usize = 0;
    while i < a.len()
        invariant
            0 <= i <= a@.len(),
            out@ =~= a@.take(i as int),
        decreases a.len() - i,
    {
        out.push(a[i]);
        i = i + 1;
        proof {
            assert(out@ =~= a@.take(i as int));
        }
    }
    proof {
        assert(out@ =~= a@);
    }
    out
}

impl GraphSection {
    /// Breadth-first search from `from`, keeping the first path found to
    /// each node, prefixed by `origin`; the search depth is capped so it
    /// ends on cyclic sections.  Every recorded entry is a real edge walk
    /// from `origin` ending at the entry's node.
    fn bfs_paths(&self, origin: usize, from: usize) -> (r: Vec<(usize, Vec<usize>)>)
        requires
            section_wf(self@),
            origin < self@.nodes.len(),
            from < self@.nodes.len(),
            exists|k: int|
                0 <= k < self@.edges.len() && (#[trigger] self@.edges[k]).source == origin
                    && self@.edges[k].target == from,
        ensures
            forall|m: int|
                0 <= m < r.deep_view().len() ==> walk_ok(self@, (#[trigger] r.deep_view()[m]).1)
                    && r.deep_view()[m].1[0] == origin && r.deep_view()[m].1[r.deep_view()[m].1.len()
                    - 1] == r.deep_view()[m].0,
    {
        let ghost g = self@;
        let mut visited: Vec<(usize, Vec<usize>)> = Vec::new();
        let mut first: Vec<usize> = Vec::new();
        first.push(origin);
        first.push(from);
        proof {
            assert(first@ =~= seq![origin, from]);
            assert(walk_ok(g, first@)) by {
                assert forall|x: int|
                    0 <= x < first@.len() - 1 implies exists|k: int|
                    0 <= k < g.edges.len() && (#[trigger] g.edges[k]).source
                        == #[trigger] first@[x] && g.edges[k].target == first@[x + 1] by {
                    assert(x == 0);
                    assert(first@[0] == origin && first@[1] == from);
                }
            }
        }
        let ghost firstv = first@;
        visited.push((from, first));
        proof {
            assert(visited.deep_view() =~~= seq![(from, firstv)]);
        }
        let mut qi: usize = 0;
        let mut fuel: u64 = 0xffff_ffffu64;
        while qi < visited.len() && fuel > 0
            invariant
                g == self@,
                section_wf(g),
                forall|m: int|
                    0 <= m < visited@.len() ==> (#[trigger] visited@[m]).0 < self@.nodes.len(),
                forall|m: int|
                    0 <= m < visited.deep_view().len() ==> walk_ok(
                        g,
                        (#[trigger] visited.deep_view()[m]).1,
                    ) && visited.deep_view()[m].1[0] == origin && visited.deep_view()[m].1[
                        visited.deep_view()[m].1.len() - 1
                    ] == visited.deep_view()[m].0,
            decreases fuel,
        {
            fuel = fuel - 1;
            let node = visited[qi].0;
            let depth = visited[qi].1.len();
            if depth < 102 {
                let outs = self.outgoing_of(node);
                let mut oi: usize = 0;
                while oi < outs.len()
                    invariant
                        g == self@,
                        section_wf(self@),
                        0 <= oi <= outs@.len(),
                        qi < visited@.len(),
                        node == visited@[qi as int].0,
                        forall|j: int|
                            0 <= j < outs@.len() ==> 0 <= #[trigger] outs@[j] < self@.edges.len()
                                && self@.edges[outs@[j] as int].source == node,
                        forall|m: int|
                            0 <= m < visited@.len() ==> (#[trigger] visited@[m]).0
                                < self@.nodes.len(),
                        forall|m: int|
                            0 <= m < visited.deep_view().len() ==> walk_ok(
                                g,
                                (#[trigger] visited.deep_view()[m]).1,
                            ) && visited.deep_view()[m].1[0] == origin && visited.deep_view()[m].1[
                                visited.deep_view()[m].1.len() - 1
                            ] == visited.deep_view()[m].0,
                    decreases outs.len() - oi,
                {
                    proof {
                        assert(self.edges.deep_view()[outs@[oi as int] as int]
                            == self.edges@[outs@[oi as int] as int]@);
                        assert(0 <= self@.edges[outs@[oi as int] as int].target
                            < self@.nodes.len());
                    }
                    let t = self.edges[outs[oi]].target;
                    let mut known = false;
                    let mut vi: usize = 0;
                    while vi < visited.len()
                        invariant
                            0 <= vi <= visited@.len(),
                        decreases visited.len() - vi,
                    {
                        if visited[vi].0 == t {
                            known = true;
                        }
                        vi = vi + 1;
                    }
                    if !known {
                        proof {
                            assert(visited.deep_view()[qi as int] == (
                                visited@[qi as int].0,
                                visited@[qi as int].1@,
                            ));
                        }
                        let mut path = clone_usizes(&visited[qi].1);
                        let ghost base = path@;
                        path.push(t);
                        proof {
                            assert(path@ =~= base + seq![t]);
                            let np = path@;
                            assert(walk_ok(g, np)) by {
                                assert forall|x: int|
                                    0 <= x < np.len() - 1 implies exists|k: int|
                                    0 <= k < g.edges.len() && (#[trigger] g.edges[k]).source
                                        == #[trigger] np[x] && g.edges[k].target == np[x + 1] by {
                                    if x < base.len() - 1 {
                                        assert(np[x] == base[x]);
                                        assert(np[x + 1] == base[x + 1]);
                                    } else {
                                        assert(np[x] == base[base.len() - 1]);
                                        assert(base[base.len() - 1] == node);
                                        assert(np[x + 1] == t);
                                        assert(g.edges[outs@[oi as int] as int].source == node
                                            && g.edges[outs@[oi as int] as int].target == t);
                                    }
                                }
                            }
                        }
                        let ghost prev = visited.deep_view();
                        let ghost pv = path@;
                        visited.push((t, path));
                        proof {
                            assert(visited.deep_view() =~~= prev + seq![(t, pv)]);
                        }
                    }
                    oi = oi + 1;
                }
            }
            qi = qi + 1;
        }
        visited
    }

    /// The first recorded path to `node`, when the search reached it.
    fn path_to(visited: &Vec<(usize, Vec<usize>)>, node: usize) -> (r: Option<Vec<usize>>)
        ensures
            match r {
                Some(p) => exists|m: int|
                    0 <= m < visited.deep_view().len() && (#[trigger] visited.deep_view()[m]).0
                        == node && visited.deep_view()[m].1 == p@,
                None => true,
            },
    {
        let mut i: usize = 0;
        while i < visited.len()
            invariant
                0 <= i <= visited@.len(),
            decreases visited.len() - i,
        {
            proof {
                assert(visited.deep_view()[i as int] == (
                    visited@[i as int].0,
                    visited@[i as int].1@,
                ));
            }
            if visited[i].0 == node {
                let p = clone_usizes(&visited[i].1);
                proof {
                    assert(visited.deep_view()[i as int].0 == node && visited.deep_view()[
                        i as int
                    ].1 == p@);
                }
                return Some(p);
            }
            i = i + 1;
        }
        None
    }

    /// Guard a candidate bubble pair and keep it when the two walks share
    /// their endpoints and differ; this is what every kept pair satisfies.
    fn push_bubble(&self, bubbles: &mut Vec<(Vec<usize>, Vec<usize>)>, p1: Vec<usize>, p2: Vec<usize>)
        requires
            walk_ok(self@, p1@),
            walk_ok(self@, p2@),
            (p1@.len() >= 3 && p2@.len() >= 3) || (p1@.len() == 2 && p2@.len() >= 3),
            forall|m: int|
                0 <= m < old(bubbles).deep_view().len() ==> bubble_pair_walks(
                    self@,
                    #[trigger] old(bubbles).deep_view()[m],
                ),
        ensures
            forall|m: int|
                0 <= m < final(bubbles).deep_view().len() ==> bubble_pair_walks(
                    self@,
                    #[trigger] final(bubbles).deep_view()[m],
                ),
    {
        if p1.len() < 2 || p2.len() < 2 {
            return ;
        }
        if p1[0] != p2[0] {
            return ;
        }
        if p1[p1.len() - 1] != p2[p2.len() - 1] {
            return ;
        }
        let same = eq_usizes(&p1, &p2);
        if same {
            return ;
        }
        let ghost prev = bubbles.deep_view();
        let ghost pv = (p1@, p2@);
        proof {
            assert(bubble_pair_walks(self@, pv));
        }
        bubbles.push((p1, p2));
        proof {
            assert(bubbles.deep_view() =~~= prev + seq![pv]);
            assert forall|m: int|
                0 <= m < bubbles.deep_view().len() implies bubble_pair_walks(
                self@,
                #[trigger] bubbles.deep_view()[m],
            ) by {
                if m < prev.len() {
                    assert(bubbles.deep_view()[m] == prev[m]);
                }
            }
        }
    }

    /// Detect bubble pairs: for every node with at least two distinct
    /// successors, a depth-capped search from each pair of successors
    /// looks for a common node, and a direct edge is paired with a longer
    /// alternate route to the same successor.  Every returned pair is two
    /// walks of at least two nodes sharing first and last node and
    /// differing somewhere.
    pub fn collect_bubbles(&self) -> (r: Result<Vec<(Vec<usize>, Vec<usize>)>, TsgError>)
        requires
            section_wf(self@),
        ensures
            match r {
                Ok(bubbles) => forall|m: int|
                    0 <= m < bubbles.deep_view().len() ==> bubble_pair_walks(
                        self@,
                        #[trigger] bubbles.deep_view()[m],
                    ),
                Err(_) => false,
            },
    {
        let mut bubbles: Vec<(Vec<usize>, Vec<usize>)> = Vec::new();
        let n = self.nodes.len();
        let mut s: usize = 0;
        while s < n
            invariant
                section_wf(self@),
                n == self@.nodes.len(),
                0 <= s <= n,
                forall|m: int|
                    0 <= m < bubbles.deep_view().len() ==> bubble_pair_walks(
                        self@,
                        #[trigger] bubbles.deep_view()[m],
                    ),
            decreases n - s,
        {
            let outs = self.outgoing_of(s);
            // Distinct successor targets of this node.
            let mut succs: Vec<usize> = Vec::new();
            let mut oi: usize = 0;
            while oi < outs.len()
                invariant
                    section_wf(self@),
                    n == self@.nodes.len(),
                    s < n,
                    0 <= oi <= outs@.len(),
                    forall|j: int|
                        0 <= j < outs@.len() ==> 0 <= #[trigger] outs@[j] < self@.edges.len()
                            && self@.edges[outs@[j] as int].source == s,
                    forall|j: int|
                        0 <= j < succs@.len() ==> #[trigger] succs@[j] < n && succ_edge(
                            self@,
                            s as int,
                            succs@[j] as int,
                        ),
                decreases outs.len() - oi,
            {
                proof {
                    assert(self.edges.deep_view()[outs@[oi as int] as int]
                        == self.edges@[outs@[oi as int] as int]@);
                    assert(0 <= self@.edges[outs@[oi as int] as int].target < n);
                }
                let t = self.edges[outs[oi]].target;
                let mut known = false;
                let mut si2: usize = 0;
                while si2 < succs.len()
                    invariant
                        0 <= si2 <= succs@.len(),
                    decreases succs.len() - si2,
                {
                    if succs[si2] == t {
                        known = true;
                    }
                    si2 = si2 + 1;
                }
                if !known {
                    proof {
                        assert(self@.edges[outs@[oi as int] as int].source == s
                            && self@.edges[outs@[oi as int] as int].target == t);
                        assert(succ_edge(self@, s as int, t as int));
                    }
                    succs.push(t);
                }
                oi = oi + 1;
            }
            if succs.len() >= 2 {
                let mut i: usize = 0;
                while i < succs.len()
                    invariant
                        section_wf(self@),
                        n == self@.nodes.len(),
                        s < n,
                        0 <= i <= succs@.len(),
                        forall|j: int|
                            0 <= j < succs@.len() ==> #[trigger] succs@[j] < n && succ_edge(
                                self@,
                                s as int,
                                succs@[j] as int,
                            ),
                        forall|m: int|
                            0 <= m < bubbles.deep_view().len() ==> bubble_pair_walks(
                                self@,
                                #[trigger] bubbles.deep_view()[m],
                            ),
                    decreases succs.len() - i,
                {
                    let mut j: usize = i + 1;
                    while j < succs.len()
                        invariant
                            section_wf(self@),
                            n == self@.nodes.len(),
                            s < n,
                            i < succs@.len(),
                            i < j,
                            j <= succs@.len(),
                            forall|jj: int|
                                0 <= jj < succs@.len() ==> #[trigger] succs@[jj] < n && succ_edge(
                                    self@,
                                    s as int,
                                    succs@[jj] as int,
                                ),
                            forall|m: int|
                                0 <= m < bubbles.deep_view().len() ==> bubble_pair_walks(
                                    self@,
                                    #[trigger] bubbles.deep_view()[m],
                                ),
                        decreases succs.len() - j,
                    {
                        proof {
                            assert(succ_edge(self@, s as int, succs@[i as int] as int));
                            assert(succ_edge(self@, s as int, succs@[j as int] as int));
                        }
                        let v1 = self.bfs_paths(s, succs[i]);
                        let v2 = self.bfs_paths(s, succs[j]);
                        // Pair the first paths to every node both searches
                        // reached, when both detours are longer than one
                        // step.
                        let mut ci: usize = 0;
                        while ci < v1.len()
                            invariant
                                section_wf(self@),
                                0 <= ci <= v1@.len(),
                                forall|m: int|
                                    0 <= m < v1.deep_view().len() ==> walk_ok(
                                        self@,
                                        (#[trigger] v1.deep_view()[m]).1,
                                    ),
                                forall|m: int|
                                    0 <= m < v2.deep_view().len() ==> walk_ok(
                                        self@,
                                        (#[trigger] v2.deep_view()[m]).1,
                                    ),
                                forall|m: int|
                                    0 <= m < bubbles.deep_view().len() ==> bubble_pair_walks(
                                        self@,
                                        #[trigger] bubbles.deep_view()[m],
                                    ),
                            decreases v1.len() - ci,
                        {
                            proof {
                                assert(v1.deep_view()[ci as int] == (
                                    v1@[ci as int].0,
                                    v1@[ci as int].1@,
                                ));
                            }
                            let node = v1[ci].0;
                            match GraphSection::path_to(&v2, node) {
                                Some(p2) => {
                                    let p1 = clone_usizes(&v1[ci].1);
                                    proof {
                                        assert(walk_ok(self@, p1@));
                                        let m = choose|m: int|
                                            0 <= m < v2.deep_view().len() && (
                                            #[trigger] v2.deep_view()[m]).0 == node
                                                && v2.deep_view()[m].1 == p2@;
                                        assert(walk_ok(self@, p2@));
                                    }
                                    if p1.len() >= 3 && p2.len() >= 3 {
                                        self.push_bubble(&mut bubbles, p1, p2);
                                    }
                                },
                                None => {},
                            }
                            ci = ci + 1;
                        }
                        j = j + 1;
                    }
                    i = i + 1;
                }
                // A direct edge beside a longer alternate route to the
                // same successor is a bubble as well.
                let mut ti: usize = 0;
                while ti < succs.len()
                    invariant
                        section_wf(self@),
                        n == self@.nodes.len(),
                        s < n,
                        0 <= ti <= succs@.len(),
                        forall|j: int|
                            0 <= j < succs@.len() ==> #[trigger] succs@[j] < n && succ_edge(
                                self@,
                                s as int,
                                succs@[j] as int,
                            ),
                        forall|m: int|
                            0 <= m < bubbles.deep_view().len() ==> bubble_pair_walks(
                                self@,
                                #[trigger] bubbles.deep_view()[m],
                            ),
                    decreases succs.len() - ti,
                {
                    let t = succs[ti];
                    proof {
                        assert(succ_edge(self@, s as int, succs@[ti as int] as int));
                    }
                    let mut ui: usize = 0;
                    while ui < succs.len()
                        invariant
                            section_wf(self@),
                            n == self@.nodes.len(),
                            s < n,
                            t < n,
                            succ_edge(self@, s as int, t as int),
                            ti < succs@.len(),
                            0 <= ui <= succs@.len(),
                            forall|j: int|
                                0 <= j < succs@.len() ==> #[trigger] succs@[j] < n && succ_edge(
                                    self@,
                                    s as int,
                                    succs@[j] as int,
                                ),
                            forall|m: int|
                                0 <= m < bubbles.deep_view().len() ==> bubble_pair_walks(
                                    self@,
                                    #[trigger] bubbles.deep_view()[m],
                                ),
                        decreases succs.len() - ui,
                    {
                        if succs[ui] != t {
                            proof {
                                assert(succ_edge(self@, s as int, succs@[ui as int] as int));
                            }
                            let v = self.bfs_paths(s, succs[ui]);
                            match GraphSection::path_to(&v, t) {
                                Some(alt) => {
                                    proof {
                                        let m = choose|m: int|
                                            0 <= m < v.deep_view().len() && (
                                            #[trigger] v.deep_view()[m]).0 == t && v.deep_view()[
                                            m
                                        ].1 == alt@;
                                        assert(walk_ok(self@, alt@));
                                    }
                                    if alt.len() >= 3 {
                                        let mut direct: Vec<usize> = Vec::new();
                                        direct.push(s);
                                        direct.push(t);
                                        proof {
                                            assert(direct@ =~= seq![s, t]);
                                            assert(succ_edge(self@, s as int, t as int));
                                            assert(walk_ok(self@, direct@)) by {
                                                assert forall|x: int|
                                                    0 <= x < direct@.len() - 1 implies exists|
                                                    k: int,
                                                |
                                                    0 <= k < self@.edges.len() && (
                                                    #[trigger] self@.edges[k]).source
                                                        == #[trigger] direct@[x]
                                                        && self@.edges[k].target == direct@[x
                                                        + 1] by {
                                                    assert(x == 0);
                                                    assert(direct@[0] == s && direct@[1] == t);
                                                }
                                            }
                                        }
                                        self.push_bubble(&mut bubbles, direct, alt);
                                    }
                                },
                                None => {},
                            }
                        }
                        ui = ui + 1;
                    }
                    ti = ti + 1;
                }
            }
            s = s + 1;
        }
        Ok(bubbles)
    }

    /// Whether the section holds at least one bubble pair.  A `true`
    /// answer is witnessed by a real pair of divergent-then-convergent
    /// walks; the `false` direction depends on what the bounded search
    /// reaches and is not stated.
    pub fn is_bubble(&self) -> (r: Result<bool, TsgError>)
        requires
            section_wf(self@),
        ensures
            r is Ok,
            r == Ok::<bool, TsgError>(true) ==> exists|p: (Seq<usize>, Seq<usize>)|
                #[trigger] bubble_pair_walks(self@, p),
    {
        match self.collect_bubbles() {
            Ok(bs) => {
                proof {
                    if bs.deep_view().len() > 0 {
                        assert(bubble_pair_walks(self@, bs.deep_view()[0]));
                    }
                }
                Ok(bs.len() > 0)
            },
            Err(e) => Err(e),
        }
    }

    /// Number of nodes without incoming edges.
    pub fn count_sources(&self) -> (r: usize)
        ensures
            r == source_count(self@, self@.nodes.len() as int),
    {
        let mut count: usize = 0;
        let mut v: usize = 0;
        while v < self.nodes.len()
            invariant
                0 <= v <= self@.nodes.len(),
                count == source_count(self@, v as int),
                count <= v,
            decreases self.nodes.len() - v,
        {
            if self.in_degree(v) == 0 {
                count = count + 1;
            }
            v = v + 1;
        }
        count
    }

    /// Number of nodes without outgoing edges.
    pub fn count_sinks(&self) -> (r: usize)
        ensures
            r == sink_count(self@, self@.nodes.len() as int),
    {
        let mut count: usize = 0;
        let mut v: usize = 0;
        while v < self.nodes.len()
            invariant
                0 <= v <= self@.nodes.len(),
                count == sink_count(self@, v as int),
                count <= v,
            decreases self.nodes.len() - v,
        {
            if self.out_degree(v) == 0 {
                count = count + 1;
            }
            v = v + 1;
        }
        count
    }

    /// Whether the read-continuity traversal yields only single-node
    /// paths.  A `false` answer is witnessed by an accepted walk of at
    /// least two nodes; the `true` direction depends on which walks the
    /// bounded search reaches and is not stated.
    pub fn is_simple(&self) -> (r: Result<bool, TsgError>)
        requires
            section_wf(self@),
        ensures
            r is Ok,
            r == Ok::<bool, TsgError>(false) ==> exists|p: crate::path::PathV|
                crate::path::accepted_walk(self@, p) && #[trigger] p.nodes.len() >= 2,
    {
        let paths = match self.traverse() {
            Ok(p) => p,
            Err(e) => {
                return Err(e);
            },
        };
        let mut i: usize = 0;
        while i < paths.len()
            invariant
                0 <= i <= paths@.len(),
                forall|j: int|
                    0 <= j < paths.deep_view().len() ==> crate::path::accepted_walk(
                        self@,
                        #[trigger] paths.deep_view()[j],
                    ),
            decreases paths.len() - i,
        {
            if paths[i].len() > 1 {
                proof {
                    assert(paths.deep_view()[i as int] == paths@[i as int]@);
                    let p = paths.deep_view()[i as int];
                    assert(crate::path::accepted_walk(self@, p) && p.nodes.len() >= 2);
                }
                return Ok(false);
            }
            i = i + 1;
        }
        Ok(true)
    }

    /// Whether the section is both connected and free of directed cycles.
    pub fn is_directed_acyclic_graph(&self) -> (r: Result<bool, TsgError>)
        requires
            section_wf(self@),
        ensures
            match r {
                Ok(b) => b <==> ((self@.nodes.len() == 0 || forall|v: int|
                    0 <= v < self@.nodes.len() ==> reachable(self@, 0, v)) && !has_cycle(self@)),
                Err(_) => false,
            },
    {
        let c = match self.is_connected() {
            Ok(b) => b,
            Err(e) => {
                return Err(e);
            },
        };
        let cy = match self.is_cyclic() {
            Ok(b) => b,
            Err(e) => {
                return Err(e);
            },
        };
        Ok(c && !cy)
    }

    /// The topology class of this section, derived from simplicity, the
    /// source and sink counts, and the bubbles.
    pub fn topo(&self) -> (r: Result<GraphTopology, TsgError>)
        requires
            section_wf(self@),
        ensures
            r is Ok,
            ({
                let sources = source_count(self@, self@.nodes.len() as int);
                let sinks = sink_count(self@, self@.nodes.len() as int);
                match r {
                    Ok(t) => {
                        &&& (t == GraphTopology::FadeIn ==> sources > 1 && sinks == 1)
                        &&& (t == GraphTopology::FadeOut ==> sources == 1 && sinks > 1)
                        &&& (t == GraphTopology::Bipartite ==> sources > 1 && sinks > 1)
                        &&& (t == GraphTopology::UniquePath ==> sources == 1 && sinks == 1)
                        &&& (t == GraphTopology::HeteroPath ==> exists|p: (Seq<usize>, Seq<usize>)|
                            #[trigger] bubble_pair_walks(self@, p) && p.0.len() != p.1.len())
                        &&& (t == GraphTopology::EquiPath ==> exists|p: (Seq<usize>, Seq<usize>)|
                            #[trigger] bubble_pair_walks(self@, p))
                    },
                    Err(_) => true,
                }
            }),
    {
        let simple = match self.is_simple() {
            Ok(b) => b,
            Err(e) => {
                return Err(e);
            },
        };
        let sources = self.count_sources();
        let sinks = self.count_sinks();
        if simple {
            return Ok(classify_simple(sources, sinks));
        }
        if sources == 1 && sinks == 1 {
            return Ok(GraphTopology::UniquePath);
        }
        let bubbles = match self.collect_bubbles() {
            Ok(b) => b,
            Err(e) => {
                return Err(e);
            },
        };
        if bubbles.len() == 0 {
            return Ok(GraphTopology::NotDefined);
        }
        let mut bi: usize = 0;
        while bi < bubbles.len()
            invariant
                0 <= bi <= bubbles@.len(),
                bubbles@.len() >= 1,
                forall|m: int|
                    0 <= m < bubbles.deep_view().len() ==> bubble_pair_walks(
                        self@,
                        #[trigger] bubbles.deep_view()[m],
                    ),
            decreases bubbles.len() - bi,
        {
            proof {
                assert(bubbles.deep_view()[bi as int] == (
                    bubbles@[bi as int].0@,
                    bubbles@[bi as int].1@,
                ));
            }
            if bubbles[bi].0.len() != bubbles[bi].1.len() {
                proof {
                    let p = bubbles.deep_view()[bi as int];
                    assert(bubble_pair_walks(self@, p) && p.0.len() != p.1.len());
                }
                return Ok(GraphTopology::HeteroPath);
            }
            bi = bi + 1;
        }
        proof {
            assert(bubble_pair_walks(self@, bubbles.deep_view()[0]));
        }
        Ok(GraphTopology::EquiPath)
    }
}

/// Number of sources among the first `upto` nodes.
pub open spec fn source_count(g: SectionV, upto: int) -> nat
    decreases upto,
{
    if upto <= 0 {
        0
    } else {
        source_count(g, upto - 1) + if in_degree_spec(g.edges, upto - 1) == 0 {
            1nat
        } else {
            0nat
        }
    }
}

/// Number of sinks among the first `upto` nodes.
pub open spec fn sink_count(g: SectionV, upto: int) -> nat
    decreases upto,
{
    if upto <= 0 {
        0
    } else {
        sink_count(g, upto - 1) + if out_degree_spec(g.edges, upto - 1) == 0 {
            1nat
        } else {
            0nat
        }
    }
}

/// How a simple section is classed from its source and sink counts.
pub fn classify_simple(sources: usize, sinks: usize) -> (r: GraphTopology)
    ensures
        sources > 1 && sinks == 1 ==> r == GraphTopology::FadeIn,
        sources == 1 && sinks > 1 ==> r == GraphTopology::FadeOut,
        sources > 1 && sinks > 1 ==> r == GraphTopology::Bipartite,
        !(sources > 1 && sinks == 1) && !(sources == 1 && sinks > 1) && !(sources > 1 && sinks > 1)
            ==> r == GraphTopology::NotDefined,
{
    if sources > 1 && sinks == 1 {
        GraphTopology::FadeIn
    } else if sources == 1 && sinks > 1 {
        GraphTopology::FadeOut
    } else if sources > 1 && sinks > 1 {
        GraphTopology::Bipartite
    } else {
        GraphTopology::NotDefined
    }
}

/// One more undirected step extends reachability.
proof fn lemma_reach_step(g: SectionV, a: int, b: int, c: int, n: nat)
    requires
        reachable_n(g, a, b, n),
        0 <= b < g.nodes.len(),
        0 <= c < g.nodes.len(),
        adjacent(g, b, c),
    ensures
        reachable(g, a, c),
    decreases n,
{
    if a == b {
        assert(reachable_n(g, c, c, 0));
        assert(reachable_n(g, a, c, 1)) by {
            assert(adjacent(g, a, c) && reachable_n(g, c, c, 0));
        }
    } else {
        let m = choose|m: int|
            0 <= m < g.nodes.len() && adjacent(g, a, m) && reachable_n(g, m, b, (n - 1) as nat);
        lemma_reach_step(g, m, b, c, (n - 1) as nat);
        let n2 = choose|n2: nat| reachable_n(g, m, c, n2);
        assert(reachable_n(g, a, c, n2 + 1)) by {
            if a != c {
                assert(adjacent(g, a, m) && reachable_n(g, m, c, n2));
                assert(reachable_n(g, m, c, (n2 + 1 - 1) as nat));
            }
        }
    }
}


} // verus!
