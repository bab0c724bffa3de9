//! One graph section: an arena of nodes and edge slots, identifier maps for
//! both, groups and chains.  Node identifiers map one-to-one onto arena
//! positions; edge identifiers go through an explicit map, because an edge
//! re-declaration may re-point an identifier at an existing connection slot.
use vstd::prelude::*;

use crate::attr::Attribute;
use crate::bytes::eq_bytes;
use crate::edge::{EdgeData, EdgeV};
use crate::error::TsgError;
use crate::group::{Group, GroupV};
use crate::node::{NodeData, NodeV};

verus! {

/// One directed connection slot of the multigraph.
#[derive(Clone, Debug)]
pub struct EdgeSlot {
    pub source: usize,
    pub target: usize,
    pub data: EdgeData,
}

/// Mathematical image of an edge slot.
pub ghost struct EdgeSlotV {
    pub source: int,
    pub target: int,
    pub data: EdgeV,
}

impl View for EdgeSlot {
    type V = EdgeSlotV;

    open spec fn view(&self) -> EdgeSlotV {
        EdgeSlotV { source: self.source as int, target: self.target as int, data: self.data@ }
    }
}

impl DeepView for EdgeSlot {
    type V = EdgeSlotV;

    open spec fn deep_view(&self) -> EdgeSlotV {
        self.view()
    }
}

/// Mathematical image of a graph section.
pub ghost struct SectionV {
    pub id: Seq<u8>,
    pub attributes: Seq<(Seq<u8>, u8, Seq<u8>)>,
    pub nodes: Seq<NodeV>,
    pub edges: Seq<EdgeSlotV>,
    pub edge_ids: Seq<(Seq<u8>, usize)>,
    pub groups: Seq<GroupV>,
    pub chains: Seq<GroupV>,
}

/// One graph section of a document.
#[derive(Clone, Debug)]
pub struct GraphSection {
    pub id: Vec<u8>,
    pub attributes: Vec<Attribute>,
    pub nodes: Vec<NodeData>,
    pub edges: Vec<EdgeSlot>,
    pub edge_ids: Vec<(Vec<u8>, usize)>,
    pub groups: Vec<Group>,
    pub chains: Vec<Group>,
}

impl View for GraphSection {
    type V = SectionV;

    open spec fn view(&self) -> SectionV {
        SectionV {
            id: self.id@,
            attributes: self.attributes.deep_view(),
            nodes: self.nodes.deep_view(),
            edges: self.edges.deep_view(),
            edge_ids: self.edge_ids.deep_view(),
            groups: self.groups.deep_view(),
            chains: self.chains.deep_view(),
        }
    }
}

impl DeepView for GraphSection {
    type V = SectionV;

    open spec fn deep_view(&self) -> SectionV {
        self.view()
    }
}

/// Position of the node carrying `id`, or the node count when absent.
pub open spec fn node_find(nodes: Seq<NodeV>, id: Seq<u8>) -> int
    decreases nodes.len(),
{
    if nodes.len() == 0 {
        0
    } else if nodes[0].id == id {
        0
    } else {
        1 + node_find(nodes.drop_first(), id)
    }
}

pub proof fn lemma_node_find(nodes: Seq<NodeV>, id: Seq<u8>)
    ensures
        0 <= node_find(nodes, id) <= nodes.len(),
        node_find(nodes, id) < nodes.len() ==> nodes[node_find(nodes, id)].id == id,
        forall|k: int| 0 <= k < node_find(nodes, id) ==> nodes[k].id != id,
    decreases nodes.len(),
{
    if nodes.len() != 0 && nodes[0].id != id {
        lemma_node_find(nodes.drop_first(), id);
        assert forall|k: int| 0 <= k < node_find(nodes, id) implies nodes[k].id != id by {
            if k >= 1 {
                assert(nodes.drop_first()[k - 1] == nodes[k]);
            }
        }
    }
}

/// Position of the edge-identifier entry for `id`, or the entry count when
/// absent.
pub open spec fn edge_id_find(entries: Seq<(Seq<u8>, usize)>, id: Seq<u8>) -> int
    decreases entries.len(),
{
    if entries.len() == 0 {
        0
    } else if entries[0].0 == id {
        0
    } else {
        1 + edge_id_find(entries.drop_first(), id)
    }
}

pub proof fn lemma_edge_id_find(entries: Seq<(Seq<u8>, usize)>, id: Seq<u8>)
    ensures
        0 <= edge_id_find(entries, id) <= entries.len(),
        edge_id_find(entries, id) < entries.len() ==> entries[edge_id_find(entries, id)].0 == id,
        forall|k: int| 0 <= k < edge_id_find(entries, id) ==> entries[k].0 != id,
    decreases entries.len(),
{
    if entries.len() != 0 && entries[0].0 != id {
        lemma_edge_id_find(entries.drop_first(), id);
        assert forall|k: int| 0 <= k < edge_id_find(entries, id) implies entries[k].0 != id by {
            if k >= 1 {
                assert(entries.drop_first()[k - 1] == entries[k]);
            }
        }
    }
}

/// Position of the first connection slot joining `source` to `target`, or
/// the slot count when there is none.
pub open spec fn slot_find(edges: Seq<EdgeSlotV>, source: int, target: int) -> int
    decreases edges.len(),
{
    if edges.len() == 0 {
        0
    } else if edges[0].source == source && edges[0].target == target {
        0
    } else {
        1 + slot_find(edges.drop_first(), source, target)
    }
}

pub proof fn lemma_slot_find(edges: Seq<EdgeSlotV>, source: int, target: int)
    ensures
        0 <= slot_find(edges, source, target) <= edges.len(),
        slot_find(edges, source, target) < edges.len() ==> edges[slot_find(edges, source, target)].source
            == source && edges[slot_find(edges, source, target)].target == target,
        forall|k: int|
            0 <= k < slot_find(edges, source, target) ==> !(edges[k].source == source
                && edges[k].target == target),
    decreases edges.len(),
{
    if edges.len() != 0 && !(edges[0].source == source && edges[0].target == target) {
        lemma_slot_find(edges.drop_first(), source, target);
        assert forall|k: int|
            0 <= k < slot_find(edges, source, target) implies !(edges[k].source == source
            && edges[k].target == target) by {
            if k >= 1 {
                assert(edges.drop_first()[k - 1] == edges[k]);
            }
        }
    }
}

/// Structural well-formedness of a section: unique node identifiers, edge
/// slots whose endpoints are live nodes, and a sound edge-identifier map.
pub open spec fn section_wf(g: SectionV) -> bool {
    &&& forall|i: int, j: int| 0 <= i < j < g.nodes.len() ==> g.nodes[i].id != g.nodes[j].id
    &&& forall|k: int|
        0 <= k < g.edges.len() ==> 0 <= #[trigger] g.edges[k].source < g.nodes.len() && 0
            <= g.edges[k].target < g.nodes.len()
    &&& forall|i: int, j: int| 0 <= i < j < g.edge_ids.len() ==> g.edge_ids[i].0 != g.edge_ids[j].0
    &&& forall|k: int| 0 <= k < g.edge_ids.len() ==> 0 <= #[trigger] g.edge_ids[k].1 < g.edges.len()
}

/// Number of edge slots whose target is `v`.
pub open spec fn in_degree_spec(edges: Seq<EdgeSlotV>, v: int) -> nat
    decreases edges.len(),
{
    if edges.len() == 0 {
        0
    } else {
        in_degree_spec(edges.drop_last(), v) + if edges.last().target == v {
            1nat
        } else {
            0nat
        }
    }
}

/// Number of edge slots whose source is `v`.
pub open spec fn out_degree_spec(edges: Seq<EdgeSlotV>, v: int) -> nat
    decreases edges.len(),
{
    if edges.len() == 0 {
        0
    } else {
        out_degree_spec(edges.drop_last(), v) + if edges.last().source == v {
            1nat
        } else {
            0nat
        }
    }
}

/// The whole transition `add_edge` performs, as one function: resolve or
/// create the endpoints, land the payload in the first slot joining them
/// or a fresh one, and point the edge identifier at that slot.
pub open spec fn section_add_edge(
    g0: SectionV,
    source_id: Seq<u8>,
    sink_id: Seq<u8>,
    data: EdgeV,
) -> (SectionV, int) {
    let si = node_find(g0.nodes, source_id);
    let nodes1 = if si < g0.nodes.len() {
        g0.nodes
    } else {
        g0.nodes + seq![placeholder_node(source_id)]
    };
    let ti = node_find(nodes1, sink_id);
    let nodes2 = if ti < nodes1.len() {
        nodes1
    } else {
        nodes1 + seq![placeholder_node(sink_id)]
    };
    let k = slot_find(g0.edges, si, ti);
    let slot = EdgeSlotV { source: si, target: ti, data: data };
    let edges2 = if k < g0.edges.len() {
        g0.edges.update(k, slot)
    } else {
        g0.edges + seq![slot]
    };
    let e = edge_id_find(g0.edge_ids, data.id);
    let ids2 = if e < g0.edge_ids.len() {
        g0.edge_ids.update(e, (data.id, k as usize))
    } else {
        g0.edge_ids + seq![(data.id, k as usize)]
    };
    (
        SectionV {
            id: g0.id,
            attributes: g0.attributes,
            nodes: nodes2,
            edges: edges2,
            edge_ids: ids2,
            groups: g0.groups,
            chains: g0.chains,
        },
        k,
    )
}

impl GraphSection {
    /// An empty section with the given identifier.
    pub fn new(id: Vec<u8>) -> (r: GraphSection)
        ensures
            r@.id == id@,
            r@.attributes == Seq::<(Seq<u8>, u8, Seq<u8>)>::empty(),
            r@.nodes == Seq::<NodeV>::empty(),
            r@.edges == Seq::<EdgeSlotV>::empty(),
            r@.edge_ids == Seq::<(Seq<u8>, usize)>::empty(),
            r@.groups == Seq::<GroupV>::empty(),
            r@.chains == Seq::<GroupV>::empty(),
            section_wf(r@),
    {
        let r = GraphSection {
            id,
            attributes: Vec::new(),
            nodes: Vec::new(),
            edges: Vec::new(),
            edge_ids: Vec::new(),
            groups: Vec::new(),
            chains: Vec::new(),
        };
        proof {
            assert(r@.attributes =~= Seq::<(Seq<u8>, u8, Seq<u8>)>::empty());
            assert(r@.nodes =~= Seq::<NodeV>::empty());
            assert(r@.edges =~= Seq::<EdgeSlotV>::empty());
            assert(r@.edge_ids =~= Seq::<(Seq<u8>, usize)>::empty());
            assert(r@.groups =~= Seq::<GroupV>::empty());
            assert(r@.chains =~= Seq::<GroupV>::empty());
        }
        r
    }

    /// Arena position of the node with identifier `id`.
    pub fn node_index_of(&self, id: &Vec<u8>) -> (r: Option<usize>)
        ensures
            match r {
                Some(i) => node_find(self@.nodes, id@) == i && i < self@.nodes.len(),
                None => node_find(self@.nodes, id@) == self@.nodes.len(),
            },
    {
        proof {
            lemma_node_find(self@.nodes, id@);
        }
        let mut i: usize = 0;
        while i < self.nodes.len()
            invariant
                0 <= i <= self@.nodes.len(),
                forall|k: int| 0 <= k < i ==> self@.nodes[k].id != id@,
                0 <= node_find(self@.nodes, id@) <= self@.nodes.len(),
                node_find(self@.nodes, id@) < self@.nodes.len() ==> self@.nodes[node_find(
                    self@.nodes,
                    id@,
                )].id == id@,
                forall|k: int| 0 <= k < node_find(self@.nodes, id@) ==> self@.nodes[k].id != id@,
            decreases self.nodes.len() - i,
        {
            let same = eq_bytes(&self.nodes[i].id, id);
            if same {
                proof {
                    assert(self.nodes.deep_view()[i as int] == self.nodes@[i as int]@);
                    let f = node_find(self@.nodes, id@);
                    if f < i {
                        assert(self@.nodes[f].id != id@);
                    }
                    if f > i {
                        assert(self@.nodes[i as int].id != id@);
                    }
                }
                return Some(i);
            }
            proof {
                assert(self.nodes.deep_view()[i as int] == self.nodes@[i as int]@);
            }
            i = i + 1;
        }
        proof {
            if node_find(self@.nodes, id@) < self@.nodes.len() {
                assert(self@.nodes[node_find(self@.nodes, id@)].id != id@);
            }
        }
        None
    }

    /// Insert the node, or replace the payload of the node that already
    /// carries its identifier; the identifier keeps its arena position.
    #[verifier::rlimit(60)]
    pub fn add_node(&mut self, data: NodeData) -> (r: Result<usize, TsgError>)
        ensures
            r is Ok,
            ({
                let i = node_find(old(self)@.nodes, data@.id);
                &&& r == Ok::<usize, TsgError>(i as usize)
                &&& i < old(self)@.nodes.len() ==> final(self)@.nodes == old(self)@.nodes.update(
                    i,
                    data@,
                )
                &&& i == old(self)@.nodes.len() ==> final(self)@.nodes == old(self)@.nodes + seq![
                    data@,
                ]
            }),
            final(self)@.id == old(self)@.id,
            final(self)@.attributes == old(self)@.attributes,
            final(self)@.edges == old(self)@.edges,
            final(self)@.edge_ids == old(self)@.edge_ids,
            final(self)@.groups == old(self)@.groups,
            final(self)@.chains == old(self)@.chains,
            section_wf(old(self)@) ==> section_wf(final(self)@),
    {
        proof {
            lemma_node_find(self@.nodes, data@.id);
        }
        let idx = self.node_index_of(&data.id);
        match idx {
            Some(i) => {
                let ghost dv = data@;
                self.nodes.set(i, data);
                proof {
                    let g0 = old(self)@;
                    let f = node_find(g0.nodes, dv.id);
                    assert(self.nodes.deep_view() =~~= g0.nodes.update(f, dv));
                    if section_wf(g0) {
                        assert(g0.nodes[f].id == dv.id);
                        assert forall|a: int, b: int|
                            0 <= a < b < self@.nodes.len() implies self@.nodes[a].id
                            != self@.nodes[b].id by {
                            assert(self@.nodes[a].id == g0.nodes[a].id);
                            assert(self@.nodes[b].id == g0.nodes[b].id);
                        }
                        assert(self@.edges == old(self)@.edges);
                        assert(self@.edge_ids == old(self)@.edge_ids);
                        assert(self@.nodes.len() >= old(self)@.nodes.len());
                        assert(section_wf(self@));
                    }
                }
                Ok(i)
            },
            None => {
                let i = self.nodes.len();
                self.nodes.push(data);
                proof {
                    assert(self.nodes.deep_view() =~~= old(self).nodes.deep_view() + seq![data@]);
                    if section_wf(old(self)@) {
                        assert forall|a: int, b: int|
                            0 <= a < b < self@.nodes.len() implies self@.nodes[a].id
                            != self@.nodes[b].id by {
                            if b < old(self)@.nodes.len() {
                            } else {
                                assert(self@.nodes[b] == data@);
                                assert(a < node_find(old(self)@.nodes, data@.id));
                            }
                        }
                        assert(self@.edges == old(self)@.edges);
                        assert(self@.edge_ids == old(self)@.edge_ids);
                        assert(self@.nodes.len() >= old(self)@.nodes.len());
                        assert(section_wf(self@));
                    }
                }
                Ok(i)
            },
        }
    }

    /// Number of edge slots entering the node at `v`.
    pub fn in_degree(&self, v: usize) -> (r: usize)
        ensures
            r == in_degree_spec(self@.edges, v as int),
    {
        let mut count: usize = 0;
        let mut i: usize = 0;
        while i < self.edges.len()
            invariant
                0 <= i <= self@.edges.len(),
                count == in_degree_spec(self@.edges.take(i as int), v as int),
                count <= i,
            decreases self.edges.len() - i,
        {
            proof {
                assert(self@.edges.take(i as int + 1).drop_last() =~= self@.edges.take(i as int));
                assert(self@.edges.take(i as int + 1).last() == self@.edges[i as int]);
                assert(self.edges.deep_view()[i as int] == self.edges@[i as int]@);
            }
            if self.edges[i].target == v {
                count = count + 1;
            }
            i = i + 1;
        }
        proof {
            assert(self@.edges.take(self@.edges.len() as int) =~= self@.edges);
        }
        count
    }

    /// Number of edge slots leaving the node at `v`.
    pub fn out_degree(&self, v: usize) -> (r: usize)
        ensures
            r == out_degree_spec(self@.edges, v as int),
    {
        let mut count: usize = 0;
        let mut i: usize = 0;
        while i < self.edges.len()
            invariant
                0 <= i <= self@.edges.len(),
                count == out_degree_spec(self@.edges.take(i as int), v as int),
                count <= i,
            decreases self.edges.len() - i,
        {
            proof {
                assert(self@.edges.take(i as int + 1).drop_last() =~= self@.edges.take(i as int));
                assert(self@.edges.take(i as int + 1).last() == self@.edges[i as int]);
                assert(self.edges.deep_view()[i as int] == self.edges@[i as int]@);
            }
            if self.edges[i].source == v {
                count = count + 1;
            }
            i = i + 1;
        }
        proof {
            assert(self@.edges.take(self@.edges.len() as int) =~= self@.edges);
        }
        count
    }

    /// The node with identifier `id`, when it exists.
    pub fn node_by_id(&self, id: &Vec<u8>) -> (r: Option<&NodeData>)
        ensures
            match r {
                Some(n) => node_find(self@.nodes, id@) < self@.nodes.len() && n@ == self@.nodes[
                    node_find(self@.nodes, id@)
                ],
                None => node_find(self@.nodes, id@) == self@.nodes.len(),
            },
    {
        match self.node_index_of(id) {
            Some(i) => {
                proof {
                    assert(self.nodes.deep_view()[i as int] == self.nodes@[i as int]@);
                }
                Some(&self.nodes[i])
            },
            None => None,
        }
    }

    /// The node at arena position `idx`, when it is live.
    pub fn node_by_idx(&self, idx: usize) -> (r: Option<&NodeData>)
        ensures
            match r {
                Some(n) => idx < self@.nodes.len() && n@ == self@.nodes[idx as int],
                None => idx >= self@.nodes.len(),
            },
    {
        if idx < self.nodes.len() {
            proof {
                assert(self.nodes.deep_view()[idx as int] == self.nodes@[idx as int]@);
            }
            Some(&self.nodes[idx])
        } else {
            None
        }
    }

    /// Arena position of the slot the edge identifier `id` names.
    pub fn edge_index_of(&self, id: &Vec<u8>) -> (r: Option<usize>)
        ensures
            match r {
                Some(i) => edge_id_find(self@.edge_ids, id@) < self@.edge_ids.len() && i
                    == self@.edge_ids[edge_id_find(self@.edge_ids, id@)].1,
                None => edge_id_find(self@.edge_ids, id@) == self@.edge_ids.len(),
            },
    {
        proof {
            lemma_edge_id_find(self@.edge_ids, id@);
        }
        let mut i: usize = 0;
        while i < self.edge_ids.len()
            invariant
                0 <= i <= self@.edge_ids.len(),
                forall|k: int| 0 <= k < i ==> self@.edge_ids[k].0 != id@,
                0 <= edge_id_find(self@.edge_ids, id@) <= self@.edge_ids.len(),
                edge_id_find(self@.edge_ids, id@) < self@.edge_ids.len() ==> self@.edge_ids[
                    edge_id_find(self@.edge_ids, id@)
                ].0 == id@,
                forall|k: int|
                    0 <= k < edge_id_find(self@.edge_ids, id@) ==> self@.edge_ids[k].0 != id@,
            decreases self.edge_ids.len() - i,
        {
            let same = eq_bytes(&self.edge_ids[i].0, id);
            proof {
                assert(self.edge_ids.deep_view()[i as int] == (
                    self.edge_ids@[i as int].0@,
                    self.edge_ids@[i as int].1,
                ));
            }
            if same {
                proof {
                    let f = edge_id_find(self@.edge_ids, id@);
                    if f < i {
                        assert(self@.edge_ids[f].0 != id@);
                    }
                    if f > i {
                        assert(self@.edge_ids[i as int].0 != id@);
                    }
                }
                return Some(self.edge_ids[i].1);
            }
            i = i + 1;
        }
        proof {
            if edge_id_find(self@.edge_ids, id@) < self@.edge_ids.len() {
                assert(self@.edge_ids[edge_id_find(self@.edge_ids, id@)].0 != id@);
            }
        }
        None
    }

    /// The edge payload the identifier `id` names, when the identifier is
    /// known and its slot is live.
    pub fn edge_by_id(&self, id: &Vec<u8>) -> (r: Option<&EdgeData>)
        ensures
            match r {
                Some(e) => edge_id_find(self@.edge_ids, id@) < self@.edge_ids.len()
                    && 0 <= self@.edge_ids[edge_id_find(self@.edge_ids, id@)].1 < self@.edges.len()
                    && e@ == self@.edges[self@.edge_ids[edge_id_find(self@.edge_ids, id@)].1 as int].data,
                None => edge_id_find(self@.edge_ids, id@) == self@.edge_ids.len() || !(0
                    <= self@.edge_ids[edge_id_find(self@.edge_ids, id@)].1 < self@.edges.len()),
            },
    {
        match self.edge_index_of(id) {
            Some(i) => {
                if i < self.edges.len() {
                    proof {
                        assert(self.edges.deep_view()[i as int] == self.edges@[i as int]@);
                    }
                    Some(&self.edges[i].data)
                } else {
                    None
                }
            },
            None => None,
        }
    }

    /// The edge slot at arena position `idx`, when it is live.
    pub fn edge_by_idx(&self, idx: usize) -> (r: Option<&EdgeSlot>)
        ensures
            match r {
                Some(e) => idx < self@.edges.len() && e@ == self@.edges[idx as int],
                None => idx >= self@.edges.len(),
            },
    {
        if idx < self.edges.len() {
            proof {
                assert(self.edges.deep_view()[idx as int] == self.edges@[idx as int]@);
            }
            Some(&self.edges[idx])
        } else {
            None
        }
    }

    /// Position of the group carrying `id`, or `None` when absent.
    pub fn group_index_of(&self, id: &Vec<u8>) -> (r: Option<usize>)
        ensures
            match r {
                Some(i) => crate::graph::group_find(self@.groups, id@) == i && i
                    < self@.groups.len(),
                None => crate::graph::group_find(self@.groups, id@) == self@.groups.len(),
            },
    {
        proof {
            crate::graph::lemma_group_find(self@.groups, id@);
        }
        let mut i: usize = 0;
        while i < self.groups.len()
            invariant
                0 <= i <= self@.groups.len(),
                forall|k: int| 0 <= k < i ==> self@.groups[k].id() != id@,
                0 <= crate::graph::group_find(self@.groups, id@) <= self@.groups.len(),
                crate::graph::group_find(self@.groups, id@) < self@.groups.len() ==> self@.groups[
                    crate::graph::group_find(self@.groups, id@)
                ].id() == id@,
                forall|k: int|
                    0 <= k < crate::graph::group_find(self@.groups, id@) ==> self@.groups[k].id()
                        != id@,
            decreases self.groups.len() - i,
        {
            proof {
                assert(self.groups.deep_view()[i as int] == self.groups@[i as int]@);
            }
            let same = eq_bytes(self.groups[i].id(), id);
            if same {
                proof {
                    let f = crate::graph::group_find(self@.groups, id@);
                    if f < i {
                        assert(self@.groups[f].id() != id@);
                    }
                    if f > i {
                        assert(self@.groups[i as int].id() != id@);
                    }
                }
                return Some(i);
            }
            i = i + 1;
        }
        proof {
            if crate::graph::group_find(self@.groups, id@) < self@.groups.len() {
                assert(self@.groups[crate::graph::group_find(self@.groups, id@)].id() != id@);
            }
        }
        None
    }

    /// Resolve a node identifier to its arena position, creating a
    /// placeholder node when the identifier is new.
    #[verifier::rlimit(60)]
    fn resolve_node(&mut self, id: &Vec<u8>) -> (r: usize)
        ensures
            ({
                let i = node_find(old(self)@.nodes, id@);
                &&& r == i
                &&& i < old(self)@.nodes.len() ==> final(self)@.nodes == old(self)@.nodes
                &&& i == old(self)@.nodes.len() ==> final(self)@.nodes == old(self)@.nodes + seq![
                    crate::node::NodeV {
                        id: id@,
                        reference_id: Seq::empty(),
                        strand: crate::node::Strand::Forward,
                        exons: Seq::empty(),
                        reads: Seq::empty(),
                        sequence: None,
                        attributes: Seq::empty(),
                    },
                ]
                &&& r < final(self)@.nodes.len()
                &&& final(self)@.nodes[r as int].id == id@
            }),
            final(self)@.id == old(self)@.id,
            final(self)@.attributes == old(self)@.attributes,
            final(self)@.edges == old(self)@.edges,
            final(self)@.edge_ids == old(self)@.edge_ids,
            final(self)@.groups == old(self)@.groups,
            final(self)@.chains == old(self)@.chains,
            section_wf(old(self)@) ==> section_wf(final(self)@),
    {
        proof {
            lemma_node_find(self@.nodes, id@);
        }
        match self.node_index_of(id) {
            Some(i) => i,
            None => {
                let data = NodeData::placeholder(crate::bytes::clone_bytes(id));
                let i = self.nodes.len();
                self.nodes.push(data);
                proof {
                    assert(self.nodes.deep_view() =~~= old(self).nodes.deep_view() + seq![
                        crate::node::NodeV {
                            id: id@,
                            reference_id: Seq::empty(),
                            strand: crate::node::Strand::Forward,
                            exons: Seq::empty(),
                            reads: Seq::empty(),
                            sequence: None,
                            attributes: Seq::empty(),
                        },
                    ]);
                    if section_wf(old(self)@) {
                        assert forall|a: int, b: int|
                            0 <= a < b < self@.nodes.len() implies self@.nodes[a].id
                            != self@.nodes[b].id by {
                            if b >= old(self)@.nodes.len() {
                                assert(a < node_find(old(self)@.nodes, id@));
                            }
                        }
                        assert(self@.edges == old(self)@.edges);
                        assert(self@.edge_ids == old(self)@.edge_ids);
                        assert(self@.nodes.len() >= old(self)@.nodes.len());
                        assert(section_wf(self@));
                    }
                }
                i
            },
        }
    }

    /// Insert or re-declare an edge.  Missing endpoints become placeholder
    /// nodes.  The payload lands in the first slot that already joins the
    /// two endpoints, or in a fresh slot; the edge identifier is then
    /// pointed at that slot, so a re-declaration with different endpoints
    /// abandons the old connection slot rather than moving it.
    #[verifier::rlimit(100)]
    pub fn add_edge(&mut self, source_id: &Vec<u8>, sink_id: &Vec<u8>, data: EdgeData) -> (r:
        Result<usize, TsgError>)
        ensures
            r is Ok,
            ({
                let g0 = old(self)@;
                let si = node_find(g0.nodes, source_id@);
                let nodes1 = if si < g0.nodes.len() {
                    g0.nodes
                } else {
                    g0.nodes + seq![placeholder_node(source_id@)]
                };
                let ti = node_find(nodes1, sink_id@);
                let nodes2 = if ti < nodes1.len() {
                    nodes1
                } else {
                    nodes1 + seq![placeholder_node(sink_id@)]
                };
                let k = slot_find(g0.edges, si, ti);
                let slot = EdgeSlotV { source: si, target: ti, data: data@ };
                let edges2 = if k < g0.edges.len() {
                    g0.edges.update(k, slot)
                } else {
                    g0.edges + seq![slot]
                };
                let e = edge_id_find(g0.edge_ids, data@.id);
                let ids2 = if e < g0.edge_ids.len() {
                    g0.edge_ids.update(e, (data@.id, k as usize))
                } else {
                    g0.edge_ids + seq![(data@.id, k as usize)]
                };
                &&& r == Ok::<usize, TsgError>(k as usize)
                &&& final(self)@.nodes == nodes2
                &&& final(self)@.edges == edges2
                &&& final(self)@.edge_ids == ids2
            }),
            final(self)@ == section_add_edge(old(self)@, source_id@, sink_id@, data@).0,
            r == Ok::<usize, TsgError>(
                section_add_edge(old(self)@, source_id@, sink_id@, data@).1 as usize,
            ),
            final(self)@.id == old(self)@.id,
            final(self)@.attributes == old(self)@.attributes,
            final(self)@.groups == old(self)@.groups,
            final(self)@.chains == old(self)@.chains,
            section_wf(old(self)@) ==> section_wf(final(self)@),
    {
        let si = self.resolve_node(source_id);
        let ti = self.resolve_node(sink_id);
        proof {
            assert(si < self@.nodes.len());
            assert(ti < self@.nodes.len());
            lemma_slot_find(self@.edges, si as int, ti as int);
        }
        let mut k: usize = 0;
        let mut found: bool = false;
        while k < self.edges.len() && !found
            invariant
                0 <= k <= self@.edges.len(),
                !found ==> forall|j: int|
                    0 <= j < k ==> !(self@.edges[j].source == si && self@.edges[j].target == ti),
                found ==> k < self@.edges.len() && self@.edges[k as int].source == si
                    && self@.edges[k as int].target == ti && k == slot_find(
                    self@.edges,
                    si as int,
                    ti as int,
                ),
                0 <= slot_find(self@.edges, si as int, ti as int) <= self@.edges.len(),
                slot_find(self@.edges, si as int, ti as int) < self@.edges.len() ==> self@.edges[
                    slot_find(self@.edges, si as int, ti as int)
                ].source == si && self@.edges[slot_find(self@.edges, si as int, ti as int)].target
                    == ti,
                forall|j: int|
                    0 <= j < slot_find(self@.edges, si as int, ti as int) ==> !(self@.edges[j].source
                        == si && self@.edges[j].target == ti),
            decreases self.edges.len() - k + if found {
                0int
            } else {
                1int
            },
        {
            proof {
                assert(self.edges.deep_view()[k as int] == self.edges@[k as int]@);
            }
            if self.edges[k].source == si && self.edges[k].target == ti {
                found = true;
                proof {
                    let f = slot_find(self@.edges, si as int, ti as int);
                    if f < k {
                        assert(!(self@.edges[f].source == si && self@.edges[f].target == ti));
                    }
                    if f > k {
                        assert(!(self@.edges[k as int].source == si && self@.edges[k as int].target
                            == ti));
                    }
                }
            } else {
                k = k + 1;
            }
        }
        proof {
            if !found && slot_find(self@.edges, si as int, ti as int) < self@.edges.len() {
                let f = slot_find(self@.edges, si as int, ti as int);
                assert(!(self@.edges[f].source == si && self@.edges[f].target == ti));
            }
        }
        let ghost edges_before = self@.edges;
        let ghost dv = data@;
        let id_copy = crate::bytes::clone_bytes(&data.id);
        let slot = EdgeSlot { source: si, target: ti, data };
        let ghost slotv = slot@;
        let slot_idx: usize = k;
        if found {
            self.edges.set(k, slot);
            proof {
                assert(self.edges.deep_view() =~~= edges_before.update(k as int, slotv));
            }
        } else {
            self.edges.push(slot);
            proof {
                assert(self.edges.deep_view() =~~= edges_before + seq![slotv]);
            }
        }
        proof {
            lemma_edge_id_find(self@.edge_ids, id_copy@);
        }
        let mut e: usize = 0;
        let mut id_found: bool = false;
        while e < self.edge_ids.len() && !id_found
            invariant
                0 <= e <= self@.edge_ids.len(),
                !id_found ==> forall|j: int| 0 <= j < e ==> self@.edge_ids[j].0 != id_copy@,
                id_found ==> e < self@.edge_ids.len() && e == edge_id_find(
                    self@.edge_ids,
                    id_copy@,
                ),
                0 <= edge_id_find(self@.edge_ids, id_copy@) <= self@.edge_ids.len(),
                edge_id_find(self@.edge_ids, id_copy@) < self@.edge_ids.len() ==> self@.edge_ids[
                    edge_id_find(self@.edge_ids, id_copy@)
                ].0 == id_copy@,
                forall|j: int|
                    0 <= j < edge_id_find(self@.edge_ids, id_copy@) ==> self@.edge_ids[j].0
                        != id_copy@,
            decreases self.edge_ids.len() - e + if id_found {
                0int
            } else {
                1int
            },
    {
            let same = eq_bytes(&self.edge_ids[e].0, &id_copy);
            proof {
                assert(self.edge_ids.deep_view()[e as int] == (
                    self.edge_ids@[e as int].0@,
                    self.edge_ids@[e as int].1,
                ));
            }
            if same {
                id_found = true;
                proof {
                    let f = edge_id_find(self@.edge_ids, id_copy@);
                    if f < e {
                        assert(self@.edge_ids[f].0 != id_copy@);
                    }
                    if f > e {
                        assert(self@.edge_ids[e as int].0 != id_copy@);
                    }
                }
            } else {
                e = e + 1;
            }
        }
        proof {
            if !id_found && edge_id_find(self@.edge_ids, id_copy@) < self@.edge_ids.len() {
                assert(self@.edge_ids[edge_id_find(self@.edge_ids, id_copy@)].0 != id_copy@);
            }
        }
        let ghost ids_before = self@.edge_ids;
        if id_found {
            self.edge_ids.set(e, (id_copy, slot_idx));
            proof {
                assert(self.edge_ids.deep_view() =~~= ids_before.update(
                    e as int,
                    (dv.id, slot_idx),
                ));
            }
        } else {
            self.edge_ids.push((id_copy, slot_idx));
            proof {
                assert(self.edge_ids.deep_view() =~~= ids_before + seq![(dv.id, slot_idx)]);
            }
        }
        proof {
            if section_wf(old(self)@) {
                let g = self@;
                assert forall|a: int, b: int|
                    0 <= a < b < g.edge_ids.len() implies g.edge_ids[a].0 != g.edge_ids[b].0 by {
                    if id_found {
                        assert(ids_before[e as int].0 == dv.id);
                    } else {
                        if b == ids_before.len() {
                            assert(g.edge_ids[b].0 == dv.id);
                            assert(a < edge_id_find(ids_before, dv.id));
                        }
                    }
                }
                assert(si < g.nodes.len());
                assert(ti < g.nodes.len());
                assert(edges_before == old(self)@.edges);
                assert(old(self)@.nodes.len() <= g.nodes.len());
                assert forall|j: int|
                    0 <= j < g.edges.len() implies 0 <= #[trigger] g.edges[j].source < g.nodes.len()
                    && 0 <= g.edges[j].target < g.nodes.len() by {
                    if j == slot_idx {
                        assert(g.edges[j] == slotv);
                    } else if j < edges_before.len() {
                        assert(g.edges[j] == edges_before[j]);
                        assert(0 <= old(self)@.edges[j].source < old(self)@.nodes.len());
                        assert(0 <= old(self)@.edges[j].target < old(self)@.nodes.len());
                    }
                }
                assert forall|j: int|
                    0 <= j < g.edge_ids.len() implies 0 <= #[trigger] g.edge_ids[j].1
                    < g.edges.len() by {
                    if id_found {
                        if j != e {
                            assert(g.edge_ids[j] == ids_before[j]);
                        }
                    } else {
                        if j < ids_before.len() {
                            assert(g.edge_ids[j] == ids_before[j]);
                        }
                    }
                }
                assert(section_wf(g));
            }
            let g0 = old(self)@;
            lemma_node_find(g0.nodes, source_id@);
            let si_s = node_find(g0.nodes, source_id@);
            let nodes1 = if si_s < g0.nodes.len() {
                g0.nodes
            } else {
                g0.nodes + seq![placeholder_node(source_id@)]
            };
            lemma_node_find(nodes1, sink_id@);
            let ti_s = node_find(nodes1, sink_id@);
            let nodes2 = if ti_s < nodes1.len() {
                nodes1
            } else {
                nodes1 + seq![placeholder_node(sink_id@)]
            };
            assert(si as int == si_s);
            assert(ti as int == ti_s);
            assert(self@.nodes =~~= nodes2);
            lemma_slot_find(g0.edges, si_s, ti_s);
            let ks = slot_find(g0.edges, si_s, ti_s);
            assert(slot_idx as int == ks);
            let slot_s = EdgeSlotV { source: si_s, target: ti_s, data: dv };
            let edges2 = if ks < g0.edges.len() {
                g0.edges.update(ks, slot_s)
            } else {
                g0.edges + seq![slot_s]
            };
            assert(self@.edges =~~= edges2);
            lemma_edge_id_find(g0.edge_ids, dv.id);
            let e_s = edge_id_find(g0.edge_ids, dv.id);
            let ids2 = if e_s < g0.edge_ids.len() {
                g0.edge_ids.update(e_s, (dv.id, ks as usize))
            } else {
                g0.edge_ids + seq![(dv.id, ks as usize)]
            };
            assert(self@.edge_ids =~~= ids2);
            assert(self@ == section_add_edge(g0, source_id@, sink_id@, dv).0);
            assert(slot_idx as int == section_add_edge(g0, source_id@, sink_id@, dv).1);
        }
        Ok(slot_idx)
    }
}

/// The node a dangling endpoint identifier becomes.
pub open spec fn placeholder_node(id: Seq<u8>) -> NodeV {
    crate::node::NodeV {
        id: id,
        reference_id: Seq::empty(),
        strand: crate::node::Strand::Forward,
        exons: Seq::empty(),
        reads: Seq::empty(),
        sequence: None,
        attributes: Seq::empty(),
    }
}

} // verus!
