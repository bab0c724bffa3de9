//! Paths through a graph section, and the read-continuity traversal that
//! enumerates them.  A path is a value holding arena positions into its
//! section; it owns no graph data.  Every path the traversal returns walks
//! real edges, starts at a source, ends at a node without outgoing edges,
//! and all of its nodes share at least one read identifier.
use vstd::prelude::*;

use crate::attr::Attribute;
use crate::bytes::{clone_bytes, eq_bytes};
use crate::error::TsgError;
use crate::node::{NodeData, NodeV, ReadIdentity};
use crate::section::{GraphSection, SectionV, in_degree_spec, out_degree_spec, section_wf};

verus! {

/// Mathematical image of a path.
pub ghost struct PathV {
    pub nodes: Seq<usize>,
    pub edges: Seq<usize>,
    pub attributes: Seq<(Seq<u8>, u8, Seq<u8>)>,
}

/// One source-to-sink walk over a graph section: node arena positions and
/// the edge slots connecting consecutive nodes.
#[derive(Clone, Debug)]
pub struct TSGPath {
    pub nodes: Vec<usize>,
    pub edges: Vec<usize>,
    pub attributes: Vec<Attribute>,
}

impl View for TSGPath {
    type V = PathV;

    open spec fn view(&self) -> PathV {
        PathV { nodes: self.nodes@, edges: self.edges@, attributes: self.attributes.deep_view() }
    }
}

impl DeepView for TSGPath {
    type V = PathV;

    open spec fn deep_view(&self) -> PathV {
        self.view()
    }
}

/// Whether the node carries a read with this identifier.
pub open spec fn node_has_read(n: NodeV, r: Seq<u8>) -> bool {
    exists|j: int| 0 <= j < n.reads.len() && n.reads[j].0 == r
}

/// Whether every node of the walk carries a read with this identifier.
pub open spec fn path_shares(g: SectionV, nodes: Seq<usize>, r: Seq<u8>) -> bool {
    forall|k: int|
        0 <= k < nodes.len() ==> node_has_read(g.nodes[#[trigger] nodes[k] as int], r)
}

/// Whether the walk follows real edges of the section: one more node than
/// edges, all positions live, and edge `k` joining node `k` to node `k+1`.
pub open spec fn valid_path(g: SectionV, p: PathV) -> bool {
    &&& p.nodes.len() == p.edges.len() + 1
    &&& forall|k: int| 0 <= k < p.nodes.len() ==> 0 <= #[trigger] p.nodes[k] < g.nodes.len()
    &&& forall|k: int|
        0 <= k < p.edges.len() ==> 0 <= #[trigger] p.edges[k] < g.edges.len() && g.edges[p.edges[k] as int].source
            == p.nodes[k] && g.edges[p.edges[k] as int].target == p.nodes[k + 1]
}

/// What the traversal promises of every path it returns: a valid walk from
/// a source node to a node without outgoing edges, all of whose nodes share
/// at least one read identifier.
pub open spec fn complete_path(g: SectionV, p: PathV) -> bool {
    &&& valid_path(g, p)
    &&& in_degree_spec(g.edges, p.nodes[0] as int) == 0
    &&& out_degree_spec(g.edges, p.nodes[p.nodes.len() - 1] as int) == 0
    &&& exists|r: Seq<u8>| path_shares(g, p.nodes, r)
}

/// Whether some read of the node passes through (`IN`).
pub open spec fn node_has_in_read(n: NodeV) -> bool {
    exists|j: int| 0 <= j < n.reads.len() && n.reads[j].1 == ReadIdentity::IN
}

/// Whether some read identifier is carried by every node of the walk.
pub open spec fn some_shared(g: SectionV, nodes: Seq<usize>) -> bool {
    exists|rd: Seq<u8>| path_shares(g, nodes, rd)
}

/// Whether every prefix of the walk keeps at least one read identifier
/// alive: the running intersection of read sets never empties.
pub open spec fn prefix_shared(g: SectionV, nodes: Seq<usize>) -> bool {
    forall|i: int| 0 <= i < nodes.len() ==> some_shared(g, #[trigger] nodes.take(i + 1))
}

/// Whether some successor of the walk's node at `i` carries a read still
/// alive on the walk up to `i`.
pub open spec fn handoff_exists(g: SectionV, nodes: Seq<usize>, i: int) -> bool {
    exists|k: int, rd: Seq<u8>|
        0 <= k < g.edges.len() && g.edges[k].source == nodes[i] && path_shares(
            g,
            nodes.take(i + 1),
            rd,
        ) && #[trigger] node_has_read(g.nodes[(#[trigger] g.edges[k]).target], rd)
}

/// The pass-through rule: whenever a visited node carries an `IN` read and
/// has successors, some successor carries a read still alive on the walk
/// up to that node.
pub open spec fn in_rule(g: SectionV, nodes: Seq<usize>) -> bool {
    forall|i: int|
        1 <= i < nodes.len() && node_has_in_read(g.nodes[(#[trigger] nodes[i]) as int])
            && out_degree_spec(g.edges, nodes[i] as int) > 0 ==> handoff_exists(g, nodes, i)
}

/// What the traversal accepts: a complete source-to-sink walk whose first
/// node has read support, whose every prefix keeps a read alive, and which
/// obeys the pass-through rule at every visited node.
pub open spec fn accepted_walk(g: SectionV, p: PathV) -> bool {
    &&& complete_path(g, p)
    &&& g.nodes[p.nodes[0] as int].reads.len() > 0
    &&& prefix_shared(g, p.nodes)
    &&& in_rule(g, p.nodes)
}

/// Whether the result `paths` holds a single-node path for every isolated
/// node (no edges in or out, at least one read) among the first `upto`.
pub open spec fn isolated_done(g: SectionV, paths: Seq<PathV>, upto: int) -> bool {
    forall|s2: int|
        0 <= s2 < upto && in_degree_spec(g.edges, s2) == 0 && out_degree_spec(g.edges, s2) == 0
            && g.nodes[s2].reads.len() > 0 ==> exists|i: int|
            0 <= i < paths.len() && (#[trigger] paths[i]).nodes == seq![s2 as usize]
}

/// A grown path list keeps what the shorter one settled.
proof fn lemma_isolated_grow(g: SectionV, a: Seq<PathV>, b: Seq<PathV>, upto: int)
    requires
        isolated_done(g, a, upto),
        a.len() <= b.len(),
        forall|i: int| 0 <= i < a.len() ==> b[i] == a[i],
    ensures
        isolated_done(g, b, upto),
{
    assert forall|s2: int|
        0 <= s2 < upto && in_degree_spec(g.edges, s2) == 0 && out_degree_spec(g.edges, s2) == 0
            && g.nodes[s2].reads.len() > 0 implies exists|i: int|
        0 <= i < b.len() && (#[trigger] b[i]).nodes == seq![s2 as usize] by {
        let i = choose|i: int| 0 <= i < a.len() && (#[trigger] a[i]).nodes == seq![s2 as usize];
        assert(b[i].nodes == seq![s2 as usize]);
    }
}

impl TSGPath {
    /// An empty path.
    pub fn new() -> (r: TSGPath)
        ensures
            r@.nodes == Seq::<usize>::empty(),
            r@.edges == Seq::<usize>::empty(),
            r@.attributes == Seq::<(Seq<u8>, u8, Seq<u8>)>::empty(),
    {
        let r = TSGPath { nodes: Vec::new(), edges: Vec::new(), attributes: Vec::new() };
        proof {
            assert(r@.attributes =~= Seq::<(Seq<u8>, u8, Seq<u8>)>::empty());
        }
        r
    }

    /// Append a node position.
    pub fn add_node(&mut self, node: usize)
        ensures
            final(self)@.nodes == old(self)@.nodes + seq![node],
            final(self)@.edges == old(self)@.edges,
            final(self)@.attributes == old(self)@.attributes,
    {
        self.nodes.push(node);
        proof {
            assert(self@.nodes =~= old(self)@.nodes + seq![node]);
        }
    }

    /// Append an edge slot position.
    pub fn add_edge(&mut self, edge: usize)
        ensures
            final(self)@.edges == old(self)@.edges + seq![edge],
            final(self)@.nodes == old(self)@.nodes,
            final(self)@.attributes == old(self)@.attributes,
    {
        self.edges.push(edge);
        proof {
            assert(self@.edges =~= old(self)@.edges + seq![edge]);
        }
    }

    /// Whether the path holds no node.
    pub fn is_empty(&self) -> (r: bool)
        ensures
            r == (self@.nodes.len() == 0),
    {
        self.nodes.len() == 0
    }

    /// Number of nodes on the path.
    pub fn len(&self) -> (r: usize)
        ensures
            r == self@.nodes.len(),
    {
        self.nodes.len()
    }

    /// The path invariant the traversal maintains: one more node than edges.
    pub fn validate(&self) -> (r: Result<(), TsgError>)
        ensures
            r is Ok <==> self@.nodes.len() == self@.edges.len() + 1,
    {
        if self.nodes.len() >= 1 && self.nodes.len() - 1 == self.edges.len() {
            Ok(())
        } else {
            Err(TsgError::Validation(Vec::new()))
        }
    }

    /// A copy of this path.
    pub fn duplicate(&self) -> (r: TSGPath)
        ensures
            r@ == self@,
    {
        let mut nodes: Vec<usize> = Vec::new();
        let mut i: usize = 0;
        while i < self.nodes.len()
            invariant
                0 <= i <= self.nodes@.len(),
                nodes@ =~= self.nodes@.take(i as int),
            decreases self.nodes.len() - i,
        {
            nodes.push(self.nodes[i]);
            i = i + 1;
            proof {
                assert(nodes@ =~= self.nodes@.take(i as int));
            }
        }
        let mut edges: Vec<usize> = Vec::new();
        let mut j: usize = 0;
        while j < self.edges.len()
            invariant
                0 <= j <= self.edges@.len(),
                edges@ =~= self.edges@.take(j as int),
            decreases self.edges.len() - j,
        {
            edges.push(self.edges[j]);
            j = j + 1;
            proof {
                assert(edges@ =~= self.edges@.take(j as int));
            }
        }
        let attributes = clone_attrs(&self.attributes);
        let r = TSGPath { nodes, edges, attributes };
        proof {
            assert(r.nodes@ =~= self.nodes@);
            assert(r.edges@ =~= self.edges@);
        }
        r
    }
}

/// A copy of an attribute list.
pub fn clone_attrs(attrs: &Vec<Attribute>) -> (r: Vec<Attribute>)
    ensures
        r.deep_view() == attrs.deep_view(),
{
    let mut out: Vec<Attribute> = Vec::new();
    let mut i: usize = 0;
    while i < attrs.len()
        invariant
            0 <= i <= attrs@.len(),
            out.deep_view() =~~= attrs.deep_view().take(i as int),
        decreases attrs.len() - i,
    {
        let a = &attrs[i];
        let copy = Attribute {
            tag: clone_bytes(&a.tag),
            attribute_type: a.attribute_type,
            value: clone_bytes(&a.value),
        };
        let ghost prev = out.deep_view();
        let ghost cv = copy@;
        proof {
            assert(attrs.deep_view()[i as int] == attrs@[i as int]@);
        }
        out.push(copy);
        i = i + 1;
        proof {
            assert(out.deep_view() =~~= prev + seq![cv]);
            assert(out.deep_view() =~~= attrs.deep_view().take(i as int));
        }
    }
    proof {
        assert(out.deep_view() =~~= attrs.deep_view());
    }
    out
}

/// A copy of a list of byte strings.
pub fn clone_lines(v: &Vec<Vec<u8>>) -> (r: Vec<Vec<u8>>)
    ensures
        r.deep_view() == v.deep_view(),
{
    let mut out: Vec<Vec<u8>> = Vec::new();
    let mut i: usize = 0;
    while i < v.len()
        invariant
            0 <= i <= v@.len(),
            out.deep_view() =~~= v.deep_view().take(i as int),
        decreases v.len() - i,
    {
        let piece = clone_bytes(&v[i]);
        let ghost prev = out.deep_view();
        let ghost pv = piece@;
        proof {
            assert(v.deep_view()[i as int] == v@[i as int]@);
        }
        out.push(piece);
        i = i + 1;
        proof {
            assert(out.deep_view() =~~= prev + seq![pv]);
            assert(out.deep_view() =~~= v.deep_view().take(i as int));
        }
    }
    proof {
        assert(out.deep_view() =~~= v.deep_view());
    }
    out
}

/// Whether `x` occurs in the list.
pub fn contains_bytes(list: &Vec<Vec<u8>>, x: &Vec<u8>) -> (r: bool)
    ensures
        r == exists|j: int| 0 <= j < list.deep_view().len() && list.deep_view()[j] == x@,
{
    let mut i: usize = 0;
    while i < list.len()
        invariant
            0 <= i <= list@.len(),
            forall|j: int| 0 <= j < i ==> list.deep_view()[j] != x@,
        decreases list.len() - i,
    {
        proof {
            assert(list.deep_view()[i as int] == list@[i as int]@);
        }
        let same = eq_bytes(&list[i], x);
        if same {
            return true;
        }
        i = i + 1;
    }
    false
}

/// The read identifiers of a node, in record order.
fn read_ids_of(n: &NodeData) -> (r: Vec<Vec<u8>>)
    ensures
        r.deep_view().len() == n@.reads.len(),
        forall|j: int| 0 <= j < n@.reads.len() ==> r.deep_view()[j] == n@.reads[j].0,
{
    let mut out: Vec<Vec<u8>> = Vec::new();
    let mut i: usize = 0;
    while i < n.reads.len()
        invariant
            0 <= i <= n.reads@.len(),
            out.deep_view().len() == i,
            forall|j: int| 0 <= j < i ==> out.deep_view()[j] == n@.reads[j].0,
        decreases n.reads.len() - i,
    {
        let id = clone_bytes(&n.reads[i].id);
        let ghost prev = out.deep_view();
        let ghost iv = id@;
        proof {
            assert(n.reads.deep_view()[i as int] == n.reads@[i as int]@);
        }
        out.push(id);
        i = i + 1;
        proof {
            assert(out.deep_view() =~~= prev + seq![iv]);
        }
    }
    out
}

/// Whether all node positions of the walk are live in the section.
pub open spec fn path_nodes_live(g: SectionV, nodes: Seq<usize>) -> bool {
    forall|k: int| 0 <= k < nodes.len() ==> 0 <= #[trigger] nodes[k] < g.nodes.len()
}

/// Path-level analysis over one graph section.
pub trait PathAnalysis {
    /// Whether this is a "super path": at least two nodes, all live, and at
    /// least one read identifier carried by every node.  A path of fewer
    /// than two nodes is never super; a dead later node makes the answer
    /// `false`; a dead first node is an error.
    fn is_super(&self, graph: &GraphSection) -> (r: Result<bool, TsgError>)
        ensures
            match r {
                Ok(b) => b <==> (self.view_of().nodes.len() >= 2 && path_nodes_live(
                    graph@,
                    self.view_of().nodes,
                ) && exists|rd: Seq<u8>| path_shares(graph@, self.view_of().nodes, rd)),
                Err(_) => self.view_of().nodes.len() >= 2 && self.view_of().nodes[0]
                    >= graph@.nodes.len(),
            },
    ;

    /// The mathematical image of the path, for the contract above.
    spec fn view_of(&self) -> PathV;
}

impl PathAnalysis for TSGPath {
    open spec fn view_of(&self) -> PathV {
        self@
    }

    fn is_super(&self, graph: &GraphSection) -> (r: Result<bool, TsgError>) {
        let ghost g = graph@;
        if self.nodes.len() < 2 {
            return Ok(false);
        }
        let n0 = self.nodes[0];
        if n0 >= graph.nodes.len() {
            return Err(TsgError::NotFound(Vec::new()));
        }
        proof {
            assert(graph.nodes.deep_view()[n0 as int] == graph.nodes@[n0 as int]@);
        }
        let mut common = read_ids_of(&graph.nodes[n0]);
        proof {
            assert forall|j: int|
                0 <= j < common.deep_view().len() implies node_has_read(
                g.nodes[n0 as int],
                #[trigger] common.deep_view()[j],
            ) by {
                assert(common.deep_view()[j] == g.nodes[n0 as int].reads[j].0);
            }
        }
        if common.len() == 0 {
            proof {
                if exists|rd: Seq<u8>| path_shares(g, self@.nodes, rd) {
                    let rd = choose|rd: Seq<u8>| path_shares(g, self@.nodes, rd);
                    assert(node_has_read(g.nodes[self@.nodes[0] as int], rd));
                }
            }
            return Ok(false);
        }
        proof {
            assert forall|rd: Seq<u8>|
                path_shares(g, self@.nodes, rd) && path_nodes_live(g, self@.nodes)
                    implies exists|j: int|
                0 <= j < common.deep_view().len() && common.deep_view()[j] == rd by {
                assert(self@.nodes[0] == n0);
                assert(node_has_read(g.nodes[n0 as int], rd));
                let y = choose|y: int|
                    0 <= y < g.nodes[n0 as int].reads.len() && g.nodes[n0 as int].reads[y].0 == rd;
                assert(common.deep_view()[y] == rd);
            }
        }
        let mut k: usize = 1;
        while k < self.nodes.len()
            invariant
                g == graph@,
                common.deep_view().len() >= 1,
                1 <= k <= self@.nodes.len(),
                self@.nodes.len() >= 2,
                self@.nodes[0] == n0,
                n0 < g.nodes.len(),
                forall|m: int| 0 <= m < k ==> 0 <= #[trigger] self@.nodes[m] < g.nodes.len(),
                forall|j: int|
                    0 <= j < common.deep_view().len() ==> forall|m: int|
                        0 <= m < k ==> node_has_read(
                            g.nodes[#[trigger] self@.nodes[m] as int],
                            #[trigger] common.deep_view()[j],
                        ),
                forall|rd: Seq<u8>|
                    path_shares(g, self@.nodes, rd) && path_nodes_live(g, self@.nodes)
                        ==> exists|j: int|
                        0 <= j < common.deep_view().len() && common.deep_view()[j] == rd,
            decreases self.nodes.len() - k,
        {
            let nk = self.nodes[k];
            if nk >= graph.nodes.len() {
                proof {
                    assert(self@.nodes[k as int] >= g.nodes.len());
                    assert(!path_nodes_live(g, self@.nodes));
                }
                return Ok(false);
            }
            proof {
                assert(graph.nodes.deep_view()[nk as int] == graph.nodes@[nk as int]@);
            }
            let reads_k = read_ids_of(&graph.nodes[nk]);
            let mut kept: Vec<Vec<u8>> = Vec::new();
            let mut j: usize = 0;
            while j < common.len()
                invariant
                    g == graph@,
                    nk < g.nodes.len(),
                    0 <= j <= common@.len(),
                    reads_k.deep_view().len() == g.nodes[nk as int].reads.len(),
                    forall|x: int|
                        0 <= x < reads_k.deep_view().len() ==> #[trigger] reads_k.deep_view()[x]
                            == g.nodes[nk as int].reads[x].0,
                    forall|x: int|
                        0 <= x < kept.deep_view().len() ==> (exists|y: int|
                            0 <= y < common.deep_view().len() && common.deep_view()[y]
                                == #[trigger] kept.deep_view()[x]) && node_has_read(
                            g.nodes[nk as int],
                            kept.deep_view()[x],
                        ),
                    forall|y: int|
                        0 <= y < j && node_has_read(
                            g.nodes[nk as int],
                            #[trigger] common.deep_view()[y],
                        ) ==> exists|x: int|
                            0 <= x < kept.deep_view().len() && kept.deep_view()[x]
                                == common.deep_view()[y],
                decreases common.len() - j,
            {
                proof {
                    assert(common.deep_view()[j as int] == common@[j as int]@);
                }
                let keep = contains_bytes(&reads_k, &common[j]);
                if keep {
                    let copy = clone_bytes(&common[j]);
                    let ghost prevk = kept.deep_view();
                    let ghost cv = copy@;
                    proof {
                        let y = choose|y: int|
                            0 <= y < reads_k.deep_view().len() && reads_k.deep_view()[y] == copy@;
                        assert(g.nodes[nk as int].reads[y].0 == copy@);
                        assert(node_has_read(g.nodes[nk as int], copy@));
                    }
                    kept.push(copy);
                    proof {
                        assert(kept.deep_view() =~~= prevk + seq![cv]);
                        assert forall|y: int|
                            0 <= y < j + 1 && node_has_read(
                                g.nodes[nk as int],
                                #[trigger] common.deep_view()[y],
                            ) implies exists|x: int|
                            0 <= x < kept.deep_view().len() && kept.deep_view()[x]
                                == common.deep_view()[y] by {
                            if y < j {
                                let x = choose|x: int|
                                    0 <= x < prevk.len() && prevk[x] == common.deep_view()[y];
                                assert(kept.deep_view()[x] == common.deep_view()[y]);
                            } else {
                                assert(kept.deep_view()[prevk.len() as int] == cv);
                            }
                        }
                    }
                } else {
                    proof {
                        assert(!node_has_read(g.nodes[nk as int], common.deep_view()[j as int]))
                            by {
                            if node_has_read(g.nodes[nk as int], common.deep_view()[j as int]) {
                                let cj = common.deep_view()[j as int];
                                let y = choose|y: int|
                                    0 <= y < g.nodes[nk as int].reads.len()
                                        && g.nodes[nk as int].reads[y].0 == cj;
                                assert(reads_k.deep_view()[y] == cj);
                            }
                        }
                    }
                }
                j = j + 1;
            }
            let ghost old_common = common.deep_view();
            common = kept;
            k = k + 1;
            proof {
                assert forall|rd: Seq<u8>|
                    path_shares(g, self@.nodes, rd) && path_nodes_live(g, self@.nodes)
                        implies exists|x: int|
                    0 <= x < common.deep_view().len() && common.deep_view()[x] == rd by {
                    let y = choose|y: int|
                        0 <= y < old_common.len() && old_common[y] == rd;
                    assert(node_has_read(g.nodes[self@.nodes[k - 1] as int], rd));
                    assert(node_has_read(g.nodes[nk as int], old_common[y]));
                }
            }
            if common.len() == 0 {
                proof {
                    if exists|rd: Seq<u8>| path_shares(g, self@.nodes, rd) {
                        if path_nodes_live(g, self@.nodes) {
                            let rd = choose|rd: Seq<u8>| path_shares(g, self@.nodes, rd);
                            assert(exists|x: int|
                                0 <= x < common.deep_view().len() && common.deep_view()[x] == rd);
                        }
                    }
                    if !path_nodes_live(g, self@.nodes) {
                    }
                }
                if k < self.nodes.len() {
                    return Ok(false);
                }
                proof {
                    if path_nodes_live(g, self@.nodes) {
                        if exists|rd: Seq<u8>| path_shares(g, self@.nodes, rd) {
                            let rd = choose|rd: Seq<u8>| path_shares(g, self@.nodes, rd);
                            assert(exists|x: int|
                                0 <= x < common.deep_view().len() && common.deep_view()[x] == rd);
                        }
                    }
                }
                return Ok(false);
            }
        }
        proof {
            assert(path_nodes_live(g, self@.nodes));
            assert(common.deep_view().len() > 0);
            let rd = common.deep_view()[0];
            assert(path_shares(g, self@.nodes, rd)) by {
                assert forall|m: int|
                    0 <= m < self@.nodes.len() implies node_has_read(
                    g.nodes[#[trigger] self@.nodes[m] as int],
                    rd,
                ) by {
                    assert(node_has_read(g.nodes[self@.nodes[m] as int], common.deep_view()[0]));
                }
            }
        }
        Ok(true)
    }
}

/// One pending traversal state: the frontier node, the walk so far, and the
/// read identifiers still supporting the whole walk.
struct Frontier {
    node: usize,
    path: TSGPath,
    active: Vec<Vec<u8>>,
}

/// What every queued traversal state satisfies.
spec fn frontier_inv(g: SectionV, node: usize, p: PathV, active: Seq<Seq<u8>>) -> bool {
    &&& valid_path(g, p)
    &&& p.nodes.len() >= 1
    &&& p.nodes[p.nodes.len() - 1] == node
    &&& in_degree_spec(g.edges, p.nodes[0] as int) == 0
    &&& g.nodes[p.nodes[0] as int].reads.len() > 0
    &&& prefix_shared(g, p.nodes)
    &&& in_rule(g, p.nodes)
    &&& active.len() >= 1
    &&& forall|j: int| 0 <= j < active.len() ==> path_shares(g, p.nodes, #[trigger] active[j])
}

impl GraphSection {
    /// Arena positions of the edge slots leaving `v`.
    pub(crate) fn outgoing_of(&self, v: usize) -> (r: Vec<usize>)
        ensures
            r@.len() == out_degree_spec(self@.edges, v as int),
            forall|j: int|
                0 <= j < r@.len() ==> 0 <= #[trigger] r@[j] < self@.edges.len()
                    && self@.edges[r@[j] as int].source == v,
    {
        let mut out: Vec<usize> = Vec::new();
        let mut i: usize = 0;
        while i < self.edges.len()
            invariant
                0 <= i <= self@.edges.len(),
                out@.len() == out_degree_spec(self@.edges.take(i as int), v as int),
                forall|j: int|
                    0 <= j < out@.len() ==> 0 <= #[trigger] out@[j] < i
                        && self@.edges[out@[j] as int].source == v,
            decreases self.edges.len() - i,
        {
            proof {
                assert(self@.edges.take(i as int + 1).drop_last() =~= self@.edges.take(i as int));
                assert(self@.edges.take(i as int + 1).last() == self@.edges[i as int]);
                assert(self.edges.deep_view()[i as int] == self.edges@[i as int]@);
            }
            if self.edges[i].source == v {
                out.push(i);
            }
            i = i + 1;
        }
        proof {
            assert(self@.edges.take(self@.edges.len() as int) =~= self@.edges);
        }
        out
    }

    /// Whether any read of the node at `v` passes through (`IN`).
    fn has_in_reads(&self, v: usize) -> (r: bool)
        requires
            v < self@.nodes.len(),
        ensures
            r == node_has_in_read(self@.nodes[v as int]),
    {
        proof {
            assert(self.nodes.deep_view()[v as int] == self.nodes@[v as int]@);
        }
        let n = &self.nodes[v];
        let mut i: usize = 0;
        while i < n.reads.len()
            invariant
                n@ == self@.nodes[v as int],
                0 <= i <= n.reads@.len(),
                forall|j: int| 0 <= j < i ==> self@.nodes[v as int].reads[j].1 != ReadIdentity::IN,
            decreases n.reads.len() - i,
        {
            proof {
                assert(n.reads.deep_view()[i as int] == n.reads@[i as int]@);
            }
            if matches!(n.reads[i].identity, ReadIdentity::IN) {
                proof {
                    assert(self@.nodes[v as int].reads[i as int].1 == ReadIdentity::IN);
                }
                return true;
            }
            i = i + 1;
        }
        proof {
            if node_has_in_read(self@.nodes[v as int]) {
                let j = choose|j: int|
                    0 <= j < self@.nodes[v as int].reads.len() && self@.nodes[v as int].reads[j].1
                        == ReadIdentity::IN;
            }
        }
        false
    }

    /// Enumerate all maximal source-to-sink paths that keep read support:
    /// a frontier is extended along an edge only while at least one read
    /// identifier is carried by every node seen so far, and a node with
    /// pass-through (`IN`) reads must be able to hand a still-active read on
    /// to some successor unless it has no successors at all.
    ///
    /// Every returned path is an accepted walk: a complete source-to-sink
    /// walk with read support on every prefix and the pass-through rule at
    /// every visited node.  Every isolated node with read support yields
    /// its single-node path; beyond that, which accepted walks the bounded
    /// frontier search reaches is not stated.
    pub fn traverse(&self) -> (r: Result<Vec<TSGPath>, TsgError>)
        requires
            section_wf(self@),
        ensures
            r is Ok,
            match r {
                Ok(paths) => (forall|i: int|
                    0 <= i < paths.deep_view().len() ==> accepted_walk(
                        self@,
                        #[trigger] paths.deep_view()[i],
                    )) && isolated_done(self@, paths.deep_view(), self@.nodes.len() as int),
                Err(_) => false,
            },
    {
        let ghost g = self@;
        let mut all_paths: Vec<TSGPath> = Vec::new();
        // Read identifiers of every node, computed once.
        let mut cache: Vec<Vec<Vec<u8>>> = Vec::new();
        let mut ci: usize = 0;
        while ci < self.nodes.len()
            invariant
                0 <= ci <= self@.nodes.len(),
                cache@.len() == ci,
                forall|i: int, j: int|
                    0 <= i < ci && 0 <= j < cache@[i].deep_view().len() ==>
                        #[trigger] cache@[i].deep_view()[j] == self@.nodes[i].reads[j].0,
                forall|i: int|
                    0 <= i < ci ==> #[trigger] cache@[i].deep_view().len()
                        == self@.nodes[i].reads.len(),
            decreases self.nodes.len() - ci,
        {
            proof {
                assert(self.nodes.deep_view()[ci as int] == self.nodes@[ci as int]@);
            }
            let ids = read_ids_of(&self.nodes[ci]);
            let ghost idv = ids.deep_view();
            cache.push(ids);
            ci = ci + 1;
            proof {
                assert(cache@[ci - 1].deep_view() == idv);
            }
        }
        let mut s: usize = 0;
        while s < self.nodes.len()
            invariant
                section_wf(g),
                g == self@,
                0 <= s <= self@.nodes.len(),
                cache@.len() == self@.nodes.len(),
                forall|i: int, j: int|
                    0 <= i < cache@.len() && 0 <= j < cache@[i].deep_view().len() ==>
                        #[trigger] cache@[i].deep_view()[j] == self@.nodes[i].reads[j].0,
                forall|i: int|
                    0 <= i < cache@.len() ==> #[trigger] cache@[i].deep_view().len()
                        == self@.nodes[i].reads.len(),
                forall|i: int|
                    0 <= i < all_paths.deep_view().len() ==> accepted_walk(
                        g,
                        #[trigger] all_paths.deep_view()[i],
                    ),
                isolated_done(g, all_paths.deep_view(), s as int),
            decreases self.nodes.len() - s,
        {
            let deg = self.in_degree(s);
            let outs0 = self.outgoing_of(s);
            if deg == 0 && cache[s].len() > 0 && outs0.len() == 0 {
                // An isolated source-sink node is its own accepted walk.
                let mut only = TSGPath::new();
                only.add_node(s);
                let ghost pv = only@;
                proof {
                    assert(pv.nodes =~= seq![s]);
                    assert(g.nodes[s as int].reads.len() == cache@[s as int].deep_view().len());
                    assert(path_shares(g, pv.nodes, g.nodes[s as int].reads[0].0)) by {
                        assert forall|k: int|
                            0 <= k < pv.nodes.len() implies node_has_read(
                            g.nodes[#[trigger] pv.nodes[k] as int],
                            g.nodes[s as int].reads[0].0,
                        ) by {
                            assert(pv.nodes[k] == s);
                        }
                    }
                    assert(prefix_shared(g, pv.nodes)) by {
                        assert forall|i2: int|
                            0 <= i2 < pv.nodes.len() implies some_shared(
                            g,
                            #[trigger] pv.nodes.take(i2 + 1),
                        ) by {
                            assert(pv.nodes.take(i2 + 1) =~= pv.nodes);
                            assert(path_shares(g, pv.nodes, g.nodes[s as int].reads[0].0));
                        }
                    }
                    assert(accepted_walk(g, pv));
                }
                let ghost prev = all_paths.deep_view();
                all_paths.push(only);
                proof {
                    assert(all_paths.deep_view() =~~= prev + seq![pv]);
                    lemma_isolated_grow(g, prev, all_paths.deep_view(), s as int);
                    assert(isolated_done(g, all_paths.deep_view(), s as int + 1)) by {
                        assert forall|s2: int|
                            0 <= s2 < s as int + 1 && in_degree_spec(g.edges, s2) == 0
                                && out_degree_spec(g.edges, s2) == 0 && g.nodes[s2].reads.len() > 0
                                implies exists|i: int|
                            0 <= i < all_paths.deep_view().len() && (
                            #[trigger] all_paths.deep_view()[i]).nodes == seq![s2 as usize] by {
                            if s2 == s as int {
                                assert(all_paths.deep_view()[prev.len() as int].nodes == seq![s]);
                            }
                        }
                    }
                }
            } else if deg == 0 && cache[s].len() > 0 {
                // Seed a frontier at this source node.
                let mut start_path = TSGPath::new();
                start_path.add_node(s);
                let active0 = clone_lines(&cache[s]);
                proof {
                    assert(start_path@.nodes =~= seq![s]);
                    assert forall|j: int|
                        0 <= j < active0.deep_view().len() implies path_shares(
                        g,
                        start_path@.nodes,
                        #[trigger] active0.deep_view()[j],
                    ) by {
                        assert(active0.deep_view()[j] == cache@[s as int].deep_view()[j]);
                        assert(g.nodes[s as int].reads[j].0 == active0.deep_view()[j]);
                        assert(node_has_read(g.nodes[s as int], active0.deep_view()[j]));
                        assert forall|k: int|
                            0 <= k < start_path@.nodes.len() implies node_has_read(
                            g.nodes[#[trigger] start_path@.nodes[k] as int],
                            active0.deep_view()[j],
                        ) by {
                            assert(start_path@.nodes[k] == s);
                        }
                    }
                    assert(g.nodes[s as int].reads.len() == cache@[s as int].deep_view().len());
                    assert(prefix_shared(g, start_path@.nodes)) by {
                        assert forall|i2: int|
                            0 <= i2 < start_path@.nodes.len() implies some_shared(
                            g,
                            #[trigger] start_path@.nodes.take(i2 + 1),
                        ) by {
                            assert(start_path@.nodes.take(i2 + 1) =~= start_path@.nodes);
                            assert(path_shares(g, start_path@.nodes, active0.deep_view()[0]));
                        }
                    }
                    assert(in_rule(g, start_path@.nodes));
                }
                let mut queue: Vec<Frontier> = Vec::new();
                queue.push(Frontier { node: s, path: start_path, active: active0 });
                let mut qi: usize = 0;
                // The frontier search is bounded, as the bubble search is:
                // on a cyclic section with persistent read support the
                // frontier could otherwise grow forever.
                let mut fuel: u64 = 0xffff_ffff_ffff_ffffu64;
                while qi < queue.len() && fuel > 0
                    invariant
                        section_wf(g),
                        g == self@,
                        cache@.len() == self@.nodes.len(),
                        forall|i: int, j: int|
                            0 <= i < cache@.len() && 0 <= j < cache@[i].deep_view().len() ==>
                                #[trigger] cache@[i].deep_view()[j] == self@.nodes[i].reads[j].0,
                        forall|i: int|
                            0 <= i < cache@.len() ==> #[trigger] cache@[i].deep_view().len()
                                == self@.nodes[i].reads.len(),
                        0 <= qi <= queue@.len(),
                        forall|i: int|
                            0 <= i < queue@.len() ==> frontier_inv(
                                g,
                                #[trigger] queue@[i].node,
                                queue@[i].path@,
                                queue@[i].active.deep_view(),
                            ),
                        forall|i: int|
                            0 <= i < all_paths.deep_view().len() ==> accepted_walk(
                                g,
                                #[trigger] all_paths.deep_view()[i],
                            ),
                        isolated_done(g, all_paths.deep_view(), s as int),
                    decreases fuel,
                {
                    fuel = fuel - 1;
                    proof {
                        assert(frontier_inv(
                            g,
                            queue@[qi as int].node,
                            queue@[qi as int].path@,
                            queue@[qi as int].active.deep_view(),
                        ));
                    }
                    let cur_node = queue[qi].node;
                    let cur_path = queue[qi].path.duplicate();
                    let cur_active = clone_lines(&queue[qi].active);
                    let outs = self.outgoing_of(cur_node);
                    if outs.len() == 0 {
                        // A node without outgoing edges closes the path.
                        let ghost prev = all_paths.deep_view();
                        let ghost pv = cur_path@;
                        proof {
                            assert(out_degree_spec(g.edges, pv.nodes[pv.nodes.len() - 1] as int)
                                == 0);
                            assert(path_shares(g, pv.nodes, cur_active.deep_view()[0]));
                            assert(complete_path(g, pv));
                            assert(accepted_walk(g, pv));
                        }
                        all_paths.push(cur_path);
                        proof {
                            assert(all_paths.deep_view() =~~= prev + seq![pv]);
                            lemma_isolated_grow(g, prev, all_paths.deep_view(), s as int);
                        }
                    } else {
                        let mut oi: usize = 0;
                        while oi < outs.len()
                            invariant
                                section_wf(g),
                                g == self@,
                                cache@.len() == self@.nodes.len(),
                                forall|i: int, j: int|
                                    0 <= i < cache@.len() && 0 <= j < cache@[i].deep_view().len()
                                        ==> #[trigger] cache@[i].deep_view()[j]
                                        == self@.nodes[i].reads[j].0,
                                forall|i: int|
                                    0 <= i < cache@.len() ==> #[trigger] cache@[i].deep_view().len()
                                        == self@.nodes[i].reads.len(),
                                0 <= oi <= outs@.len(),
                                qi < queue@.len(),
                                forall|j: int|
                                    0 <= j < outs@.len() ==> 0 <= #[trigger] outs@[j]
                                        < self@.edges.len() && self@.edges[outs@[j] as int].source
                                        == cur_node,
                                frontier_inv(g, cur_node, cur_path@, cur_active.deep_view()),
                                forall|i: int|
                                    0 <= i < queue@.len() ==> frontier_inv(
                                        g,
                                        #[trigger] queue@[i].node,
                                        queue@[i].path@,
                                        queue@[i].active.deep_view(),
                                    ),
                                forall|i: int|
                                    0 <= i < all_paths.deep_view().len() ==> accepted_walk(
                                        g,
                                        #[trigger] all_paths.deep_view()[i],
                                    ),
                                isolated_done(g, all_paths.deep_view(), s as int),
                            decreases outs.len() - oi,
                        {
                            let k = outs[oi];
                            proof {
                                assert(self.edges.deep_view()[k as int] == self.edges@[k as int]@);
                            }
                            let t = self.edges[k].target;
                            proof {
                                assert(0 <= g.edges[k as int].target < g.nodes.len());
                            }
                            // Keep only the reads that continue onto the target.
                            let mut continuing: Vec<Vec<u8>> = Vec::new();
                            let mut ai: usize = 0;
                            while ai < cur_active.len()
                                invariant
                                    g == self@,
                                    t < g.nodes.len(),
                                    cache@.len() == self@.nodes.len(),
                                    forall|i: int, j: int|
                                        0 <= i < cache@.len() && 0 <= j < cache@[i].deep_view().len()
                                            ==> #[trigger] cache@[i].deep_view()[j]
                                            == self@.nodes[i].reads[j].0,
                                    forall|i: int|
                                        0 <= i < cache@.len() ==>
                                            #[trigger] cache@[i].deep_view().len()
                                            == self@.nodes[i].reads.len(),
                                    0 <= ai <= cur_active@.len(),
                                    forall|j: int|
                                        0 <= j < continuing.deep_view().len() ==> (exists|m: int|
                                            0 <= m < cur_active.deep_view().len()
                                                && cur_active.deep_view()[m]
                                                == #[trigger] continuing.deep_view()[j])
                                            && node_has_read(
                                            g.nodes[t as int],
                                            continuing.deep_view()[j],
                                        ),
                                decreases cur_active.len() - ai,
                            {
                                proof {
                                    assert(cur_active.deep_view()[ai as int]
                                        == cur_active@[ai as int]@);
                                }
                                let keep = contains_bytes(&cache[t], &cur_active[ai]);
                                if keep {
                                    let ghost prevc = continuing.deep_view();
                                    let copy = clone_bytes(&cur_active[ai]);
                                    let ghost cv = copy@;
                                    proof {
                                        let j = choose|j: int|
                                            0 <= j < cache@[t as int].deep_view().len()
                                                && cache@[t as int].deep_view()[j] == copy@;
                                        assert(g.nodes[t as int].reads[j].0 == copy@);
                                        assert(node_has_read(g.nodes[t as int], copy@));
                                    }
                                    continuing.push(copy);
                                    proof {
                                        assert(continuing.deep_view() =~~= prevc + seq![cv]);
                                    }
                                }
                                ai = ai + 1;
                            }
                            if continuing.len() > 0 {
                                let mut advance: bool = true;
                                let has_in = self.has_in_reads(t);
                                let nexts = self.outgoing_of(t);
                                let mut can_continue = false;
                                if has_in {
                                    // A pass-through node must hand an active
                                    // read on to some successor, unless it
                                    // has none at all.
                                    if nexts.len() > 0 {
                                        let mut ni: usize = 0;
                                        while ni < nexts.len()
                                            invariant
                                                g == self@,
                                                t < g.nodes.len(),
                                                cache@.len() == self@.nodes.len(),
                                                forall|i: int, j: int|
                                                    0 <= i < cache@.len() && 0 <= j < cache@[i].deep_view().len()
                                                        ==> #[trigger] cache@[i].deep_view()[j]
                                                        == self@.nodes[i].reads[j].0,
                                                forall|i: int|
                                                    0 <= i < cache@.len() ==>
                                                        #[trigger] cache@[i].deep_view().len()
                                                        == self@.nodes[i].reads.len(),
                                                0 <= ni <= nexts@.len(),
                                                forall|j: int|
                                                    0 <= j < nexts@.len() ==> 0 <= #[trigger] nexts@[j]
                                                        < self@.edges.len()
                                                        && self@.edges[nexts@[j] as int].source == t,
                                                section_wf(g),
                                                can_continue ==> exists|k2: int, m: int|
                                                    0 <= k2 < g.edges.len() && (
                                                    #[trigger] g.edges[k2]).source == t && 0 <= m
                                                        < continuing.deep_view().len()
                                                        && node_has_read(
                                                        g.nodes[g.edges[k2].target],
                                                        #[trigger] continuing.deep_view()[m],
                                                    ),
                                            decreases nexts.len() - ni,
                                        {
                                            proof {
                                                assert(self.edges.deep_view()[nexts@[ni as int] as int]
                                                    == self.edges@[nexts@[ni as int] as int]@);
                                            }
                                            let nt = self.edges[nexts[ni]].target;
                                            proof {
                                                assert(0 <= g.edges[nexts@[ni as int] as int].source
                                                    < g.nodes.len());
                                                assert(0 <= g.edges[nexts@[ni as int] as int].target
                                                    < g.nodes.len());
                                            }
                                            let mut ci2: usize = 0;
                                            while ci2 < continuing.len()
                                                invariant
                                                    g == self@,
                                                    t < g.nodes.len(),
                                                    nt < cache@.len(),
                                                    nt == g.edges[nexts@[ni as int] as int].target,
                                                    g.edges[nexts@[ni as int] as int].source == t,
                                                    nexts@[ni as int] < g.edges.len(),
                                                    cache@.len() == self@.nodes.len(),
                                                    forall|i: int, j: int|
                                                        0 <= i < cache@.len() && 0 <= j
                                                            < cache@[i].deep_view().len() ==>
                                                            #[trigger] cache@[i].deep_view()[j]
                                                            == self@.nodes[i].reads[j].0,
                                                    forall|i: int|
                                                        0 <= i < cache@.len() ==>
                                                            #[trigger] cache@[i].deep_view().len()
                                                            == self@.nodes[i].reads.len(),
                                                    0 <= ci2 <= continuing@.len(),
                                                    can_continue ==> exists|k2: int, m: int|
                                                        0 <= k2 < g.edges.len() && (
                                                        #[trigger] g.edges[k2]).source == t && 0
                                                            <= m < continuing.deep_view().len()
                                                            && node_has_read(
                                                            g.nodes[g.edges[k2].target],
                                                            #[trigger] continuing.deep_view()[m],
                                                        ),
                                                decreases continuing.len() - ci2,
                                            {
                                                proof {
                                                    assert(continuing.deep_view()[ci2 as int]
                                                        == continuing@[ci2 as int]@);
                                                }
                                                if contains_bytes(&cache[nt], &continuing[ci2]) {
                                                    proof {
                                                        let rd = continuing.deep_view()[ci2 as int];
                                                        let j = choose|j: int|
                                                            0 <= j < cache@[nt as int].deep_view().len()
                                                                && cache@[nt as int].deep_view()[j]
                                                                == rd;
                                                        assert(g.nodes[nt as int].reads[j].0 == rd);
                                                        assert(node_has_read(
                                                            g.nodes[nt as int],
                                                            rd,
                                                        ));
                                                        let k2 = nexts@[ni as int] as int;
                                                        assert(g.edges[k2].source == t
                                                            && g.edges[k2].target == nt
                                                            && node_has_read(
                                                            g.nodes[g.edges[k2].target],
                                                            continuing.deep_view()[ci2 as int],
                                                        ));
                                                    }
                                                    can_continue = true;
                                                }
                                                ci2 = ci2 + 1;
                                            }
                                            ni = ni + 1;
                                        }
                                        advance = can_continue;
                                    }
                                }
                                if advance {
                                    let mut new_path = cur_path.duplicate();
                                    new_path.add_edge(k);
                                    new_path.add_node(t);
                                    proof {
                                        let np = new_path@;
                                        let cp = cur_path@;
                                        assert(np.nodes == cp.nodes + seq![t]);
                                        assert(np.edges == cp.edges + seq![k]);
                                        assert forall|j: int|
                                            0 <= j < np.edges.len() implies 0 <= #[trigger] np.edges[j]
                                            < g.edges.len() && g.edges[np.edges[j] as int].source
                                            == np.nodes[j] && g.edges[np.edges[j] as int].target
                                            == np.nodes[j + 1] by {
                                            if j < cp.edges.len() {
                                                assert(np.edges[j] == cp.edges[j]);
                                                assert(np.nodes[j] == cp.nodes[j]);
                                                assert(np.nodes[j + 1] == cp.nodes[j + 1]);
                                            } else {
                                                assert(np.edges[j] == k);
                                                assert(np.nodes[j] == cp.nodes[cp.nodes.len() - 1]);
                                                assert(g.edges[k as int].source == cur_node);
                                                assert(np.nodes[j + 1] == t);
                                            }
                                        }
                                        assert(valid_path(g, np));
                                        assert forall|j: int|
                                            0 <= j < continuing.deep_view().len() implies path_shares(
                                            g,
                                            np.nodes,
                                            #[trigger] continuing.deep_view()[j],
                                        ) by {
                                            let rd = continuing.deep_view()[j];
                                            let m = choose|m: int|
                                                0 <= m < cur_active.deep_view().len()
                                                    && cur_active.deep_view()[m] == rd;
                                            assert(path_shares(g, cp.nodes, rd));
                                            assert forall|x: int|
                                                0 <= x < np.nodes.len() implies node_has_read(
                                                g.nodes[#[trigger] np.nodes[x] as int],
                                                rd,
                                            ) by {
                                                if x < cp.nodes.len() {
                                                    assert(np.nodes[x] == cp.nodes[x]);
                                                    assert(node_has_read(
                                                        g.nodes[cp.nodes[x] as int],
                                                        rd,
                                                    ));
                                                } else {
                                                    assert(np.nodes[x] == t);
                                                }
                                            }
                                        }
                                        assert(prefix_shared(g, np.nodes)) by {
                                            assert forall|i2: int|
                                                0 <= i2 < np.nodes.len() implies some_shared(
                                                g,
                                                #[trigger] np.nodes.take(i2 + 1),
                                            ) by {
                                                if i2 < cp.nodes.len() {
                                                    assert(np.nodes.take(i2 + 1) =~= cp.nodes.take(
                                                        i2 + 1,
                                                    ));
                                                    assert(some_shared(g, cp.nodes.take(i2 + 1)));
                                                } else {
                                                    assert(np.nodes.take(i2 + 1) =~= np.nodes);
                                                    assert(path_shares(
                                                        g,
                                                        np.nodes,
                                                        continuing.deep_view()[0],
                                                    ));
                                                }
                                            }
                                        }
                                        assert(in_rule(g, np.nodes)) by {
                                            assert forall|i2: int|
                                                1 <= i2 < np.nodes.len() && node_has_in_read(
                                                    g.nodes[(#[trigger] np.nodes[i2]) as int],
                                                ) && out_degree_spec(g.edges, np.nodes[i2] as int)
                                                    > 0 implies handoff_exists(
                                                g,
                                                np.nodes,
                                                i2,
                                            ) by {
                                                if i2 < cp.nodes.len() {
                                                    assert(np.nodes[i2] == cp.nodes[i2]);
                                                    assert(handoff_exists(g, cp.nodes, i2));
                                                    let (k2, rd) = choose|k2: int, rd: Seq<u8>|
                                                        0 <= k2 < g.edges.len() && g.edges[
                                                            k2
                                                        ].source == cp.nodes[i2] && path_shares(
                                                            g,
                                                            cp.nodes.take(i2 + 1),
                                                            rd,
                                                        ) && #[trigger] node_has_read(
                                                            g.nodes[(
                                                            #[trigger] g.edges[k2]).target],
                                                            rd,
                                                        );
                                                    assert(np.nodes.take(i2 + 1) =~= cp.nodes.take(
                                                        i2 + 1,
                                                    ));
                                                    assert(path_shares(
                                                        g,
                                                        np.nodes.take(i2 + 1),
                                                        rd,
                                                    ));
                                                    assert(node_has_read(
                                                        g.nodes[g.edges[k2].target],
                                                        rd,
                                                    ));
                                                } else {
                                                    assert(i2 == np.nodes.len() - 1);
                                                    assert(np.nodes[i2] == t);
                                                    assert(out_degree_spec(g.edges, t as int)
                                                        == nexts@.len());
                                                    assert(nexts@.len() > 0);
                                                    let (k2, m) = choose|k2: int, m: int|
                                                        0 <= k2 < g.edges.len() && (
                                                        #[trigger] g.edges[k2]).source == t && 0
                                                            <= m < continuing.deep_view().len()
                                                            && node_has_read(
                                                            g.nodes[g.edges[k2].target],
                                                            #[trigger] continuing.deep_view()[m],
                                                        );
                                                    let rd = continuing.deep_view()[m];
                                                    assert(np.nodes.take(i2 + 1) =~= np.nodes);
                                                    assert(path_shares(g, np.nodes, rd));
                                                    assert(node_has_read(
                                                        g.nodes[g.edges[k2].target],
                                                        rd,
                                                    ));
                                                }
                                            }
                                        }
                                        assert(frontier_inv(g, t, np, continuing.deep_view()));
                                    }
                                    let ghost prevq = queue@;
                                    queue.push(
                                        Frontier { node: t, path: new_path, active: continuing },
                                    );
                                    proof {
                                        assert forall|i: int|
                                            0 <= i < queue@.len() implies frontier_inv(
                                            g,
                                            #[trigger] queue@[i].node,
                                            queue@[i].path@,
                                            queue@[i].active.deep_view(),
                                        ) by {
                                            if i < prevq.len() {
                                                assert(queue@[i] == prevq[i]);
                                            }
                                        }
                                    }
                                    oi = oi + 1;
                                    continue ;
                                }
                            }
                            oi = oi + 1;
                        }
                    }
                    qi = qi + 1;
                }
                proof {
                    // This node keeps outgoing edges, so it is not isolated.
                    assert(out_degree_spec(g.edges, s as int) == outs0@.len());
                    assert(isolated_done(g, all_paths.deep_view(), s as int + 1)) by {
                        assert forall|s2: int|
                            0 <= s2 < s as int + 1 && in_degree_spec(g.edges, s2) == 0
                                && out_degree_spec(g.edges, s2) == 0 && g.nodes[s2].reads.len() > 0
                                implies exists|i: int|
                            0 <= i < all_paths.deep_view().len() && (
                            #[trigger] all_paths.deep_view()[i]).nodes == seq![s2 as usize] by {
                            if s2 == s as int {
                                assert(out_degree_spec(g.edges, s2) > 0);
                            }
                        }
                    }
                }
            } else {
                proof {
                    // Either edges enter this node or it has no reads.
                    assert(isolated_done(g, all_paths.deep_view(), s as int + 1)) by {
                        assert forall|s2: int|
                            0 <= s2 < s as int + 1 && in_degree_spec(g.edges, s2) == 0
                                && out_degree_spec(g.edges, s2) == 0 && g.nodes[s2].reads.len() > 0
                                implies exists|i: int|
                            0 <= i < all_paths.deep_view().len() && (
                            #[trigger] all_paths.deep_view()[i]).nodes == seq![s2 as usize] by {
                            if s2 == s as int {
                                assert(in_degree_spec(g.edges, s as int) == 0);
                                assert(cache@[s as int].deep_view().len() == 0);
                            }
                        }
                    }
                }
            }
            s = s + 1;
        }
        proof {
            assert(isolated_done(g, all_paths.deep_view(), g.nodes.len() as int));
        }
        Ok(all_paths)
    }
}

} // verus!
