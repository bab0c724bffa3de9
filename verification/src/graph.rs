//! The whole document: headers, graph sections keyed by identifier, and
//! cross-section links, together with the line-oriented record grammar that
//! builds a document from text and writes it back out.
use vstd::prelude::*;

use crate::attr::{Attribute, attr_find, lemma_attr_find, parse_attribute_spec, upsert_attr};
use crate::bytes::{clone_bytes, eq_bytes, split_once};
use crate::edge::{EdgeData, StructuralVariant, parse_sv_spec};
use crate::error::TsgError;
use crate::group::{Group, GroupV, OrientedElement};
use crate::header::Header;
use crate::node::{NodeData, parse_node_spec};
use crate::section::{GraphSection, SectionV, section_wf};

verus! {

/// The identifier of the implicit section that records placed before any
/// `G` line fall into.
pub open spec fn default_graph_id() -> Seq<u8> {
    seq![71u8, 46u8, 103u8, 114u8, 97u8, 112u8, 104u8]
}

/// The identifier of the implicit section, as bytes: `G.graph`.
pub fn default_graph_id_bytes() -> (r: Vec<u8>)
    ensures
        r@ == default_graph_id(),
{
    let mut v: Vec<u8> = Vec::new();
    v.push(71);
    v.push(46);
    v.push(103);
    v.push(114);
    v.push(97);
    v.push(112);
    v.push(104);
    proof {
        assert(v@ =~= default_graph_id());
    }
    v
}

/// Mathematical image of a cross-section link.
pub ghost struct LinkV {
    pub id: Seq<u8>,
    pub source_graph: Seq<u8>,
    pub source_element: Seq<u8>,
    pub target_graph: Seq<u8>,
    pub target_element: Seq<u8>,
    pub link_type: Seq<u8>,
    pub attributes: Seq<(Seq<u8>, u8, Seq<u8>)>,
}

/// A link between elements of two graph sections.
#[derive(Clone, Debug)]
pub struct InterGraphLink {
    pub id: Vec<u8>,
    pub source_graph: Vec<u8>,
    pub source_element: Vec<u8>,
    pub target_graph: Vec<u8>,
    pub target_element: Vec<u8>,
    pub link_type: Vec<u8>,
    pub attributes: Vec<Attribute>,
}

impl View for InterGraphLink {
    type V = LinkV;

    open spec fn view(&self) -> LinkV {
        LinkV {
            id: self.id@,
            source_graph: self.source_graph@,
            source_element: self.source_element@,
            target_graph: self.target_graph@,
            target_element: self.target_element@,
            link_type: self.link_type@,
            attributes: self.attributes.deep_view(),
        }
    }
}

impl DeepView for InterGraphLink {
    type V = LinkV;

    open spec fn deep_view(&self) -> LinkV {
        self.view()
    }
}

/// Mathematical image of a document.
pub ghost struct DocV {
    pub headers: Seq<(Seq<u8>, Seq<u8>)>,
    pub graphs: Seq<SectionV>,
    pub links: Seq<LinkV>,
    pub current: Option<usize>,
}

/// The complete transcript segment graph document.
#[derive(Clone, Debug)]
pub struct TSGraph {
    pub headers: Vec<Header>,
    pub graphs: Vec<GraphSection>,
    pub links: Vec<InterGraphLink>,
    /// The section that records without their own `G` line belong to, while
    /// text is being read.
    pub current: Option<usize>,
}

impl View for TSGraph {
    type V = DocV;

    open spec fn view(&self) -> DocV {
        DocV {
            headers: self.headers.deep_view(),
            graphs: self.graphs.deep_view(),
            links: self.links.deep_view(),
            current: self.current,
        }
    }
}

/// Position of the section carrying `id`, or the section count when absent.
pub open spec fn section_find(graphs: Seq<SectionV>, id: Seq<u8>) -> int
    decreases graphs.len(),
{
    if graphs.len() == 0 {
        0
    } else if graphs[0].id == id {
        0
    } else {
        1 + section_find(graphs.drop_first(), id)
    }
}

pub proof fn lemma_section_find(graphs: Seq<SectionV>, id: Seq<u8>)
    ensures
        0 <= section_find(graphs, id) <= graphs.len(),
        section_find(graphs, id) < graphs.len() ==> graphs[section_find(graphs, id)].id == id,
        forall|k: int| 0 <= k < section_find(graphs, id) ==> graphs[k].id != id,
    decreases graphs.len(),
{
    if graphs.len() != 0 && graphs[0].id != id {
        lemma_section_find(graphs.drop_first(), id);
        assert forall|k: int| 0 <= k < section_find(graphs, id) implies graphs[k].id != id by {
            if k >= 1 {
                assert(graphs.drop_first()[k - 1] == graphs[k]);
            }
        }
    }
}

/// Position of the group carrying `id`, or the group count when absent.
pub open spec fn group_find(groups: Seq<GroupV>, id: Seq<u8>) -> int
    decreases groups.len(),
{
    if groups.len() == 0 {
        0
    } else if groups[0].id() == id {
        0
    } else {
        1 + group_find(groups.drop_first(), id)
    }
}

pub proof fn lemma_group_find(groups: Seq<GroupV>, id: Seq<u8>)
    ensures
        0 <= group_find(groups, id) <= groups.len(),
        group_find(groups, id) < groups.len() ==> groups[group_find(groups, id)].id() == id,
        forall|k: int| 0 <= k < group_find(groups, id) ==> groups[k].id() != id,
    decreases groups.len(),
{
    if groups.len() != 0 && groups[0].id() != id {
        lemma_group_find(groups.drop_first(), id);
        assert forall|k: int| 0 <= k < group_find(groups, id) implies groups[k].id() != id by {
            if k >= 1 {
                assert(groups.drop_first()[k - 1] == groups[k]);
            }
        }
    }
}

/// Structural well-formedness of a document: unique section identifiers,
/// well-formed sections, and a live current-section index.
pub open spec fn doc_wf(d: DocV) -> bool {
    &&& forall|i: int, j: int| 0 <= i < j < d.graphs.len() ==> d.graphs[i].id != d.graphs[j].id
    &&& forall|i: int| 0 <= i < d.graphs.len() ==> section_wf(#[trigger] d.graphs[i])
    &&& match d.current {
        Some(c) => c < d.graphs.len(),
        None => true,
    }
}

impl TSGraph {
    /// A document holding only the implicit section, which is also current.
    pub fn new() -> (r: TSGraph)
        ensures
            r@.headers == Seq::<(Seq<u8>, Seq<u8>)>::empty(),
            r@.links == Seq::<LinkV>::empty(),
            r@.graphs.len() == 1,
            r@.graphs[0].id == default_graph_id(),
            r@.graphs[0].nodes == Seq::<crate::node::NodeV>::empty(),
            r@.graphs[0].edges == Seq::<crate::section::EdgeSlotV>::empty(),
            r@.graphs[0].groups == Seq::<GroupV>::empty(),
            r@.current == Some(0usize),
            doc_wf(r@),
    {
        let section = GraphSection::new(default_graph_id_bytes());
        let mut graphs: Vec<GraphSection> = Vec::new();
        graphs.push(section);
        let r = TSGraph { headers: Vec::new(), graphs, links: Vec::new(), current: Some(0) };
        proof {
            assert(r@.headers =~= Seq::<(Seq<u8>, Seq<u8>)>::empty());
            assert(r@.links =~= Seq::<LinkV>::empty());
            assert(r@.graphs.len() == 1);
            assert(r@.graphs[0] == r.graphs@[0]@);
        }
        r
    }

    /// Position of the section with identifier `id`.
    pub fn section_index_of(&self, id: &Vec<u8>) -> (r: Option<usize>)
        ensures
            match r {
                Some(i) => section_find(self@.graphs, id@) == i && i < self@.graphs.len(),
                None => section_find(self@.graphs, id@) == self@.graphs.len(),
            },
    {
        proof {
            lemma_section_find(self@.graphs, id@);
        }
        let mut i: usize = 0;
        while i < self.graphs.len()
            invariant
                0 <= i <= self@.graphs.len(),
                forall|k: int| 0 <= k < i ==> self@.graphs[k].id != id@,
                0 <= section_find(self@.graphs, id@) <= self@.graphs.len(),
                section_find(self@.graphs, id@) < self@.graphs.len() ==> self@.graphs[section_find(
                    self@.graphs,
                    id@,
                )].id == id@,
                forall|k: int| 0 <= k < section_find(self@.graphs, id@) ==> self@.graphs[k].id != id@,
            decreases self.graphs.len() - i,
        {
            proof {
                assert(self.graphs.deep_view()[i as int] == self.graphs@[i as int]@);
            }
            let same = eq_bytes(&self.graphs[i].id, id);
            if same {
                proof {
                    let f = section_find(self@.graphs, id@);
                    if f < i {
                        assert(self@.graphs[f].id != id@);
                    }
                    if f > i {
                        assert(self@.graphs[i as int].id != id@);
                    }
                }
                return Some(i);
            }
            i = i + 1;
        }
        proof {
            if section_find(self@.graphs, id@) < self@.graphs.len() {
                assert(self@.graphs[section_find(self@.graphs, id@)].id != id@);
            }
        }
        None
    }

    /// The section with identifier `id`.
    pub fn graph(&self, id: &Vec<u8>) -> (r: Option<&GraphSection>)
        ensures
            match r {
                Some(s) => section_find(self@.graphs, id@) < self@.graphs.len() && s@
                    == self@.graphs[section_find(self@.graphs, id@)],
                None => section_find(self@.graphs, id@) == self@.graphs.len(),
            },
    {
        match self.section_index_of(id) {
            Some(i) => {
                proof {
                    assert(self.graphs.deep_view()[i as int] == self.graphs@[i as int]@);
                }
                Some(&self.graphs[i])
            },
            None => None,
        }
    }

    /// The implicit section, when the document still has it.
    pub fn default_graph(&self) -> (r: Option<&GraphSection>)
        ensures
            match r {
                Some(s) => section_find(self@.graphs, default_graph_id()) < self@.graphs.len()
                    && s@ == self@.graphs[section_find(self@.graphs, default_graph_id())],
                None => section_find(self@.graphs, default_graph_id()) == self@.graphs.len(),
            },
    {
        let id = default_graph_id_bytes();
        self.graph(&id)
    }

    /// The node `node_id` of section `graph_id`.
    pub fn node(&self, graph_id: &Vec<u8>, node_id: &Vec<u8>) -> (r: Option<&NodeData>)
        ensures
            match r {
                Some(n) => {
                    let gi = section_find(self@.graphs, graph_id@);
                    &&& gi < self@.graphs.len()
                    &&& crate::section::node_find(self@.graphs[gi].nodes, node_id@)
                        < self@.graphs[gi].nodes.len()
                    &&& n@ == self@.graphs[gi].nodes[crate::section::node_find(
                        self@.graphs[gi].nodes,
                        node_id@,
                    )]
                },
                None => section_find(self@.graphs, graph_id@) == self@.graphs.len()
                    || crate::section::node_find(
                    self@.graphs[section_find(self@.graphs, graph_id@)].nodes,
                    node_id@,
                ) == self@.graphs[section_find(self@.graphs, graph_id@)].nodes.len(),
            },
    {
        match self.graph(graph_id) {
            Some(g) => g.node_by_id(node_id),
            None => None,
        }
    }

    /// The edge `edge_id` of section `graph_id`.
    pub fn edge(&self, graph_id: &Vec<u8>, edge_id: &Vec<u8>) -> (r: Option<&EdgeData>)
        ensures
            r is Some ==> section_find(self@.graphs, graph_id@) < self@.graphs.len(),
    {
        match self.graph(graph_id) {
            Some(g) => g.edge_by_id(edge_id),
            None => None,
        }
    }

    /// Insert a node into the section `graph_id`, which must exist.
    pub fn add_node_in(&mut self, graph_id: &Vec<u8>, data: NodeData) -> (r: Result<
        usize,
        TsgError,
    >)
        ensures
            ({
                let gi = section_find(old(self)@.graphs, graph_id@);
                if gi < old(self)@.graphs.len() {
                    r is Ok && final(self)@.graphs.len() == old(self)@.graphs.len() && (forall|
                        j: int,
                    |
                        0 <= j < old(self)@.graphs.len() && j != gi ==> final(self)@.graphs[j]
                            == old(self)@.graphs[j]) && final(self)@.graphs[gi].id
                        == old(self)@.graphs[gi].id && ({
                        let i = crate::section::node_find(old(self)@.graphs[gi].nodes, data@.id);
                        &&& i < old(self)@.graphs[gi].nodes.len() ==> final(self)@.graphs[gi].nodes
                            == old(self)@.graphs[gi].nodes.update(i, data@)
                        &&& i == old(self)@.graphs[gi].nodes.len() ==> final(self)@.graphs[gi].nodes
                            == old(self)@.graphs[gi].nodes + seq![data@]
                        &&& final(self)@.graphs[gi].edges == old(self)@.graphs[gi].edges
                    })
                } else {
                    r is Err && final(self)@ == old(self)@
                }
            }),
            final(self)@.headers == old(self)@.headers,
            final(self)@.links == old(self)@.links,
            final(self)@.current == old(self)@.current,
            doc_wf(old(self)@) ==> doc_wf(final(self)@),
    {
        proof {
            lemma_section_find(self@.graphs, graph_id@);
        }
        match self.section_index_of(graph_id) {
            Some(gi) => {
                let ghost gdv = self.graphs.deep_view();
                let section = &mut self.graphs[gi];
                let res = section.add_node(data);
                proof {
                    assert(self.graphs.deep_view() =~~= gdv.update(
                        gi as int,
                        self.graphs.deep_view()[gi as int],
                    ));
                    if doc_wf(old(self)@) {
                        assert forall|i: int, j: int|
                            0 <= i < j < self@.graphs.len() implies self@.graphs[i].id
                            != self@.graphs[j].id by {
                            assert(self@.graphs[i].id == old(self)@.graphs[i].id);
                            assert(self@.graphs[j].id == old(self)@.graphs[j].id);
                        }
                        assert(doc_wf(self@));
                    }
                }
                res
            },
            None => Err(TsgError::NotFound(clone_bytes(graph_id))),
        }
    }

    /// Insert or re-declare an edge in the section `graph_id`, which must
    /// exist; missing endpoints become placeholder nodes.
    pub fn add_edge_in(
        &mut self,
        graph_id: &Vec<u8>,
        source_id: &Vec<u8>,
        sink_id: &Vec<u8>,
        data: EdgeData,
    ) -> (r: Result<usize, TsgError>)
        ensures
            ({
                let gi = section_find(old(self)@.graphs, graph_id@);
                if gi < old(self)@.graphs.len() {
                    r is Ok && final(self)@.graphs.len() == old(self)@.graphs.len() && (forall|
                        j: int,
                    |
                        0 <= j < old(self)@.graphs.len() && j != gi ==> final(self)@.graphs[j]
                            == old(self)@.graphs[j]) && final(self)@.graphs[gi].id
                        == old(self)@.graphs[gi].id
                } else {
                    r is Err && final(self)@ == old(self)@
                }
            }),
            final(self)@.headers == old(self)@.headers,
            final(self)@.links == old(self)@.links,
            final(self)@.current == old(self)@.current,
            doc_wf(old(self)@) ==> doc_wf(final(self)@),
    {
        proof {
            lemma_section_find(self@.graphs, graph_id@);
        }
        match self.section_index_of(graph_id) {
            Some(gi) => {
                let ghost gdv = self.graphs.deep_view();
                let section = &mut self.graphs[gi];
                let res = section.add_edge(source_id, sink_id, data);
                proof {
                    assert(self.graphs.deep_view() =~~= gdv.update(
                        gi as int,
                        self.graphs.deep_view()[gi as int],
                    ));
                    if doc_wf(old(self)@) {
                        assert forall|i: int, j: int|
                            0 <= i < j < self@.graphs.len() implies self@.graphs[i].id
                            != self@.graphs[j].id by {
                            assert(self@.graphs[i].id == old(self)@.graphs[i].id);
                            assert(self@.graphs[j].id == old(self)@.graphs[j].id);
                        }
                        assert(doc_wf(self@));
                    }
                }
                res
            },
            None => Err(TsgError::NotFound(clone_bytes(graph_id))),
        }
    }
}

/// One attribute-map update: replace the entry with the same tag or append.
pub open spec fn upsert_spec(
    attrs: Seq<(Seq<u8>, u8, Seq<u8>)>,
    a: (Seq<u8>, u8, Seq<u8>),
) -> Seq<(Seq<u8>, u8, Seq<u8>)> {
    let i = attr_find(attrs, a.0);
    if i < attrs.len() {
        attrs.update(i, a)
    } else {
        attrs + seq![a]
    }
}

/// Fold attribute tokens into an attribute map, or nothing when any token
/// is malformed.
pub open spec fn attrs_fold(acc: Seq<(Seq<u8>, u8, Seq<u8>)>, fs: Seq<Seq<u8>>) -> Option<
    Seq<(Seq<u8>, u8, Seq<u8>)>,
>
    decreases fs.len(),
{
    if fs.len() == 0 {
        Some(acc)
    } else {
        match parse_attribute_spec(fs[0]) {
            None => None,
            Some(a) => attrs_fold(upsert_spec(acc, a), fs.drop_first()),
        }
    }
}

/// Parse every token from `from` on as an attribute and fold it into
/// `attrs`; on any malformed token nothing changes.
pub fn parse_attrs_into(attrs: &mut Vec<Attribute>, fields: &Vec<Vec<u8>>, from: usize) -> (r:
    Result<(), TsgError>)
    requires
        from <= fields@.len(),
    ensures
        match r {
            Ok(_) => attrs_fold(old(attrs).deep_view(), fields.deep_view().skip(from as int))
                == Some(final(attrs).deep_view()),
            Err(e) => attrs_fold(old(attrs).deep_view(), fields.deep_view().skip(from as int))
                is None && final(attrs).deep_view() == old(attrs).deep_view() && e
                is InvalidRecord,
        },
{
    let ghost fs = fields.deep_view().skip(from as int);
    let mut parsed: Vec<Attribute> = Vec::new();
    let mut i: usize = from;
    while i < fields.len()
        invariant
            from <= i <= fields@.len(),
            fs == fields.deep_view().skip(from as int),
            parsed.deep_view().len() == i - from,
            forall|k: int|
                0 <= k < parsed.deep_view().len() ==> parse_attribute_spec(#[trigger] fs[k])
                    == Some(parsed.deep_view()[k]),
        decreases fields.len() - i,
    {
        proof {
            assert(fields.deep_view()[i as int] == fields@[i as int]@);
            assert(fs[i - from] == fields.deep_view()[i as int]);
        }
        match Attribute::parse(&fields[i]) {
            Ok(a) => {
                let ghost prev = parsed.deep_view();
                let ghost av = a@;
                parsed.push(a);
                proof {
                    assert(parsed.deep_view() =~~= prev + seq![av]);
                }
            },
            Err(e) => {
                proof {
                    lemma_attrs_fold_fail(old(attrs).deep_view(), fs, i - from);
                }
                return Err(e);
            },
        }
        i = i + 1;
    }
    proof {
        assert(fs.skip(0) =~= fs);
    }
    let mut j: usize = 0;
    while j < parsed.len()
        invariant
            0 <= j <= parsed@.len(),
            parsed.deep_view().len() == fs.len(),
            forall|k: int|
                0 <= k < parsed.deep_view().len() ==> parse_attribute_spec(#[trigger] fs[k])
                    == Some(parsed.deep_view()[k]),
            attrs_fold(old(attrs).deep_view(), fs) == attrs_fold(
                attrs.deep_view(),
                fs.skip(j as int),
            ),
        decreases parsed.len() - j,
    {
        proof {
            assert(parsed.deep_view()[j as int] == parsed@[j as int]@);
            assert(fs.skip(j as int).len() > 0);
            assert(fs.skip(j as int)[0] == fs[j as int]);
            assert(fs.skip(j as int).drop_first() =~= fs.skip(j as int + 1));
        }
        let a = &parsed[j];
        let copy = Attribute {
            tag: clone_bytes(&a.tag),
            attribute_type: a.attribute_type,
            value: clone_bytes(&a.value),
        };
        let ghost before = attrs.deep_view();
        proof {
            lemma_attr_find(before, copy.tag@);
        }
        upsert_attr(attrs, copy);
        proof {
            assert(attrs.deep_view() == upsert_spec(before, parsed.deep_view()[j as int]));
        }
        j = j + 1;
    }
    proof {
        assert(fs.skip(fs.len() as int) =~= Seq::<Seq<u8>>::empty());
    }
    Ok(())
}

proof fn lemma_attrs_fold_fail(acc: Seq<(Seq<u8>, u8, Seq<u8>)>, fs: Seq<Seq<u8>>, k: int)
    requires
        0 <= k < fs.len(),
        parse_attribute_spec(fs[k]) is None,
    ensures
        attrs_fold(acc, fs) is None,
    decreases fs.len(),
{
    if k > 0 {
        if parse_attribute_spec(fs[0]) is Some {
            let a = parse_attribute_spec(fs[0]).unwrap();
            lemma_attrs_fold_fail(upsert_spec(acc, a), fs.drop_first(), k - 1);
        }
    }
}

impl TSGraph {
    /// Read one `H` record: tag and value become a new header.
    pub fn parse_header_line(&mut self, fields: &Vec<Vec<u8>>) -> (r: Result<(), TsgError>)
        ensures
            match r {
                Ok(_) => {
                    &&& fields.deep_view().len() >= 3
                    &&& final(self)@.headers == old(self)@.headers + seq![
                        (fields.deep_view()[1], fields.deep_view()[2]),
                    ]
                    &&& final(self)@.graphs == old(self)@.graphs
                    &&& final(self)@.links == old(self)@.links
                    &&& final(self)@.current == old(self)@.current
                },
                Err(e) => fields.deep_view().len() < 3 && final(self)@ == old(self)@ && e
                    is InvalidRecord,
            },
            doc_wf(old(self)@) ==> doc_wf(final(self)@),
    {
        if fields.len() < 3 {
            return Err(TsgError::InvalidRecord(Vec::new()));
        }
        proof {
            assert(fields.deep_view()[1] == fields@[1]@);
            assert(fields.deep_view()[2] == fields@[2]@);
        }
        let tag = clone_bytes(&fields[1]);
        let value = clone_bytes(&fields[2]);
        let ghost prev = self.headers.deep_view();
        let h = Header { tag, value };
        let ghost hv = h@;
        self.headers.push(h);
        proof {
            assert(self.headers.deep_view() =~~= prev + seq![hv]);
            assert(self@.graphs == old(self)@.graphs);
            if doc_wf(old(self)@) {
                assert(doc_wf(self@));
            }
        }
        Ok(())
    }

    /// Read one `G` record: a fresh section with the given identifier and
    /// attributes becomes current.  A reused identifier is rejected.
    pub fn parse_graph_line(&mut self, fields: &Vec<Vec<u8>>) -> (r: Result<(), TsgError>)
        ensures
            match r {
                Ok(_) => {
                    let fdv = fields.deep_view();
                    &&& fdv.len() >= 2
                    &&& section_find(old(self)@.graphs, fdv[1]) == old(self)@.graphs.len()
                    &&& attrs_fold(Seq::empty(), fdv.skip(2)) is Some
                    &&& final(self)@.graphs.len() == old(self)@.graphs.len() + 1
                    &&& final(self)@.graphs == old(self)@.graphs + seq![
                        final(self)@.graphs[old(self)@.graphs.len() as int],
                    ]
                    &&& final(self)@.graphs[old(self)@.graphs.len() as int].id == fdv[1]
                    &&& final(self)@.graphs[old(self)@.graphs.len() as int].attributes
                        == attrs_fold(Seq::empty(), fdv.skip(2)).unwrap()
                    &&& final(self)@.graphs[old(self)@.graphs.len() as int].nodes == Seq::<
                        crate::node::NodeV,
                    >::empty()
                    &&& final(self)@.graphs[old(self)@.graphs.len() as int].edges == Seq::<
                        crate::section::EdgeSlotV,
                    >::empty()
                    &&& final(self)@.graphs[old(self)@.graphs.len() as int].groups == Seq::<
                        GroupV,
                    >::empty()
                    &&& final(self)@.current == Some(old(self)@.graphs.len() as usize)
                    &&& final(self)@.headers == old(self)@.headers
                    &&& final(self)@.links == old(self)@.links
                },
                Err(e) => final(self)@ == old(self)@ && (fields.deep_view().len() < 2 || (e
                    is Duplicate <==> section_find(old(self)@.graphs, fields.deep_view()[1]) < old(
                    self,
                )@.graphs.len())),
            },
            doc_wf(old(self)@) ==> doc_wf(final(self)@),
    {
        if fields.len() < 2 {
            return Err(TsgError::InvalidRecord(Vec::new()));
        }
        proof {
            assert(fields.deep_view()[1] == fields@[1]@);
            lemma_section_find(self@.graphs, fields@[1]@);
        }
        match self.section_index_of(&fields[1]) {
            Some(_) => Err(TsgError::Duplicate(clone_bytes(&fields[1]))),
            None => {
                let mut section = GraphSection::new(clone_bytes(&fields[1]));
                match parse_attrs_into(&mut section.attributes, fields, 2) {
                    Ok(_) => {},
                    Err(e) => {
                        return Err(e);
                    },
                }
                let idx = self.graphs.len();
                let ghost prev = self.graphs.deep_view();
                let ghost sv = section@;
                self.graphs.push(section);
                self.current = Some(idx);
                proof {
                    assert(self.graphs.deep_view() =~~= prev + seq![sv]);
                    if doc_wf(old(self)@) {
                        assert forall|i: int, j: int|
                            0 <= i < j < self@.graphs.len() implies self@.graphs[i].id
                            != self@.graphs[j].id by {
                            if j == prev.len() {
                                assert(i < section_find(old(self)@.graphs, sv.id));
                            }
                        }
                        assert(doc_wf(self@));
                    }
                }
                Ok(())
            },
        }
    }

    /// Read one `L` record: a cross-section link whose two endpoint
    /// references are `graph:element` pairs naming existing sections.
    pub fn parse_link_line(&mut self, fields: &Vec<Vec<u8>>) -> (r: Result<(), TsgError>)
        ensures
            match r {
                Ok(_) => {
                    let fdv = fields.deep_view();
                    &&& fdv.len() >= 5
                    &&& final(self)@.links.len() == old(self)@.links.len() + 1
                    &&& final(self)@.links == old(self)@.links + seq![
                        final(self)@.links[old(self)@.links.len() as int],
                    ]
                    &&& final(self)@.links[old(self)@.links.len() as int].id == fdv[1]
                    &&& final(self)@.links[old(self)@.links.len() as int].link_type == fdv[4]
                    &&& final(self)@.graphs == old(self)@.graphs
                    &&& final(self)@.headers == old(self)@.headers
                    &&& final(self)@.current == old(self)@.current
                    &&& section_find(
                        old(self)@.graphs,
                        final(self)@.links[old(self)@.links.len() as int].source_graph,
                    ) < old(self)@.graphs.len()
                    &&& section_find(
                        old(self)@.graphs,
                        final(self)@.links[old(self)@.links.len() as int].target_graph,
                    ) < old(self)@.graphs.len()
                },
                Err(_) => final(self)@ == old(self)@,
            },
            doc_wf(old(self)@) ==> doc_wf(final(self)@),
    {
        if fields.len() < 5 {
            return Err(TsgError::InvalidRecord(Vec::new()));
        }
        let source_ref = split_once(&fields[2], 58);
        let target_ref = split_once(&fields[3], 58);
        let (source_graph, source_element) = match source_ref {
            Some(p) => p,
            None => {
                return Err(TsgError::InvalidRecord(Vec::new()));
            },
        };
        let (target_graph, target_element) = match target_ref {
            Some(p) => p,
            None => {
                return Err(TsgError::InvalidRecord(Vec::new()));
            },
        };
        if self.section_index_of(&source_graph).is_none() {
            return Err(TsgError::NotFound(source_graph));
        }
        if self.section_index_of(&target_graph).is_none() {
            return Err(TsgError::NotFound(target_graph));
        }
        let mut attributes: Vec<Attribute> = Vec::new();
        match parse_attrs_into(&mut attributes, fields, 5) {
            Ok(_) => {},
            Err(e) => {
                return Err(e);
            },
        }
        proof {
            assert(fields.deep_view()[1] == fields@[1]@);
            assert(fields.deep_view()[4] == fields@[4]@);
        }
        let link = InterGraphLink {
            id: clone_bytes(&fields[1]),
            source_graph,
            source_element,
            target_graph,
            target_element,
            link_type: clone_bytes(&fields[4]),
            attributes,
        };
        let ghost prev = self.links.deep_view();
        let ghost lv = link@;
        self.links.push(link);
        proof {
            assert(self.links.deep_view() =~~= prev + seq![lv]);
        }
        Ok(())
    }
}

impl TSGraph {
    /// Read one `N` record into the current section.
    pub fn parse_node_line(&mut self, line: &Vec<u8>) -> (r: Result<(), TsgError>)
        requires
            doc_wf(old(self)@),
        ensures
            doc_wf(final(self)@),
            final(self)@.headers == old(self)@.headers,
            final(self)@.links == old(self)@.links,
            final(self)@.current == old(self)@.current,
            final(self)@.graphs.len() == old(self)@.graphs.len(),
            match r {
                Ok(_) => parse_node_spec(line@) matches Some(nv) && (old(self)@.current matches Some(gi) && ({
                    let g0 = old(self)@.graphs[gi as int];
                    let i = crate::section::node_find(g0.nodes, nv.id);
                    &&& gi < old(self)@.graphs.len()
                    &&& (forall|j: int|
                        0 <= j < old(self)@.graphs.len() && j != gi as int ==> final(self)@.graphs[j] == old(self)@.graphs[j])
                    &&& (i < g0.nodes.len() ==> final(self)@.graphs[gi as int].nodes
                        == g0.nodes.update(i, nv))
                    &&& (i == g0.nodes.len() ==> final(self)@.graphs[gi as int].nodes == g0.nodes
                        + seq![nv])
                    &&& final(self)@.graphs[gi as int].edges == g0.edges
                    &&& final(self)@.graphs[gi as int].edge_ids == g0.edge_ids
                    &&& final(self)@.graphs[gi as int].id == g0.id
                    &&& final(self)@.graphs[gi as int].attributes == g0.attributes
                    &&& final(self)@.graphs[gi as int].groups == g0.groups
                    &&& final(self)@.graphs[gi as int].chains == g0.chains
                })),
                Err(e) => final(self)@ == old(self)@ && (parse_node_spec(line@) is None || old(
                    self,
                )@.current is None),
            },
    {
        let data = match NodeData::parse(line) {
            Ok(d) => d,
            Err(e) => {
                return Err(e);
            },
        };
        let gi = match self.current {
            Some(gi) => gi,
            None => {
                return Err(TsgError::Validation(Vec::new()));
            },
        };
        let ghost gdv = self.graphs.deep_view();
        let section = &mut self.graphs[gi];
        let res = section.add_node(data);
        proof {
            assert(self.graphs.deep_view() =~~= gdv.update(
                gi as int,
                self.graphs.deep_view()[gi as int],
            ));
            assert(section_wf(old(self)@.graphs[gi as int]));
            assert(section_wf(old(self)@.graphs[gi as int]));
            assert(section_wf(self@.graphs[gi as int]));
            lemma_doc_wf_one_changed(old(self)@, self@, gi as int);
        }
        match res {
            Ok(_) => Ok(()),
            Err(e) => Err(e),
        }
    }

    /// Read one `E` record into the current section: identifier, the two
    /// endpoint identifiers, and the structural-variant descriptor.
    pub fn parse_edge_line(&mut self, fields: &Vec<Vec<u8>>) -> (r: Result<(), TsgError>)
        requires
            doc_wf(old(self)@),
        ensures
            doc_wf(final(self)@),
            final(self)@.headers == old(self)@.headers,
            final(self)@.links == old(self)@.links,
            final(self)@.current == old(self)@.current,
            final(self)@.graphs.len() == old(self)@.graphs.len(),
            match r {
                Ok(_) => parse_sv_spec(fields.deep_view()[4]) matches Some(sv) && (old(self)@.current matches Some(gi) && ({
                    &&& fields.deep_view().len() >= 5
                    &&& gi < old(self)@.graphs.len()
                    &&& (forall|j: int|
                        0 <= j < old(self)@.graphs.len() && j != gi as int ==> final(self)@.graphs[j] == old(self)@.graphs[j])
                    &&& final(self)@.graphs[gi as int] == crate::section::section_add_edge(
                        old(self)@.graphs[gi as int],
                        fields.deep_view()[2],
                        fields.deep_view()[3],
                        crate::edge::EdgeV {
                            id: fields.deep_view()[1],
                            sv: sv,
                            attributes: Seq::empty(),
                        },
                    ).0
                })),
                Err(e) => final(self)@ == old(self)@ && (fields.deep_view().len() < 5
                    || parse_sv_spec(fields.deep_view()[4]) is None || old(self)@.current is None),
            },
    {
        if fields.len() < 5 {
            return Err(TsgError::InvalidRecord(Vec::new()));
        }
        proof {
            assert(fields.deep_view()[4] == fields@[4]@);
            assert(fields.deep_view()[1] == fields@[1]@);
        }
        let sv = match StructuralVariant::parse(&fields[4]) {
            Ok(s) => s,
            Err(e) => {
                return Err(e);
            },
        };
        let gi = match self.current {
            Some(gi) => gi,
            None => {
                return Err(TsgError::Validation(Vec::new()));
            },
        };
        let data = EdgeData { id: clone_bytes(&fields[1]), sv, attributes: Vec::new() };
        let ghost dv = data@;
        let ghost gdv = self.graphs.deep_view();
        let section = &mut self.graphs[gi];
        let res = section.add_edge(&fields[2], &fields[3], data);
        proof {
            assert(self.graphs.deep_view() =~~= gdv.update(
                gi as int,
                self.graphs.deep_view()[gi as int],
            ));
            assert(section_wf(old(self)@.graphs[gi as int]));
            assert(section_wf(self@.graphs[gi as int]));
            lemma_doc_wf_one_changed(old(self)@, self@, gi as int);
            assert(dv.attributes =~= Seq::<(Seq<u8>, u8, Seq<u8>)>::empty());
            assert(dv == (crate::edge::EdgeV {
                id: fields.deep_view()[1],
                sv: dv.sv,
                attributes: Seq::empty(),
            }));
            assert(fields.deep_view()[2] == fields@[2]@);
            assert(fields.deep_view()[3] == fields@[3]@);
        }
        match res {
            Ok(_) => Ok(()),
            Err(e) => Err(e),
        }
    }

    /// Position of the group with identifier `id` in section `gi`.
    fn group_index_in(&self, gi: usize, id: &Vec<u8>) -> (r: Option<usize>)
        requires
            gi < self@.graphs.len(),
        ensures
            match r {
                Some(i) => group_find(self@.graphs[gi as int].groups, id@) == i && i
                    < self@.graphs[gi as int].groups.len(),
                None => group_find(self@.graphs[gi as int].groups, id@) == self@.graphs[
                    gi as int
                ].groups.len(),
            },
    {
        proof {
            assert(self.graphs.deep_view()[gi as int] == self.graphs@[gi as int]@);
        }
        self.graphs[gi].group_index_of(id)
    }

    /// Read one `U`, `P` or `C` record into the current section.  The tag
    /// byte selects the variant; a chain must have an odd number of
    /// elements; a reused group identifier is rejected.
    pub fn parse_group_line(&mut self, tag: u8, fields: &Vec<Vec<u8>>) -> (r: Result<(), TsgError>)
        requires
            doc_wf(old(self)@),
            tag == 85 || tag == 80 || tag == 67,
        ensures
            doc_wf(final(self)@),
            final(self)@.headers == old(self)@.headers,
            final(self)@.links == old(self)@.links,
            final(self)@.current == old(self)@.current,
            final(self)@.graphs.len() == old(self)@.graphs.len(),
            match r {
                Ok(_) => {
                    &&& fields.deep_view().len() >= 3
                    &&& old(self)@.current is Some
                    &&& ({
                        let gi = old(self)@.current.unwrap() as int;
                        &&& final(self)@.graphs[gi].groups.len() == old(
                            self,
                        )@.graphs[gi].groups.len() + 1
                        &&& final(self)@.graphs[gi].groups.last().id() == fields.deep_view()[1]
                        &&& (tag == 85 ==> final(self)@.graphs[gi].groups.last() is Unordered)
                        &&& (tag == 80 ==> final(self)@.graphs[gi].groups.last() is Ordered)
                        &&& (tag == 67 ==> final(self)@.graphs[gi].groups.last() is Chain)
                    })
                },
                Err(e) => final(self)@ == old(self)@,
            },
    {
        if fields.len() < 3 {
            return Err(TsgError::InvalidRecord(Vec::new()));
        }
        let gi = match self.current {
            Some(gi) => gi,
            None => {
                return Err(TsgError::Validation(Vec::new()));
            },
        };
        match self.group_index_in(gi, &fields[1]) {
            Some(_) => {
                return Err(TsgError::Duplicate(clone_bytes(&fields[1])));
            },
            None => {},
        }
        proof {
            assert(fields.deep_view()[1] == fields@[1]@);
        }
        let id = clone_bytes(&fields[1]);
        // Collect the element tokens after the identifier.
        let mut elements: Vec<Vec<u8>> = Vec::new();
        let mut i: usize = 2;
        while i < fields.len()
            invariant
                2 <= i <= fields@.len(),
            decreases fields.len() - i,
        {
            elements.push(clone_bytes(&fields[i]));
            i = i + 1;
        }
        let group: Group;
        let mut is_chain = false;
        if tag == 85 {
            group = Group::Unordered { id, elements, attributes: Vec::new() };
        } else if tag == 80 {
            let mut oriented: Vec<OrientedElement> = Vec::new();
            let mut j: usize = 0;
            while j < elements.len()
                invariant
                    0 <= j <= elements@.len(),
                decreases elements.len() - j,
            {
                oriented.push(OrientedElement::parse(&elements[j]));
                j = j + 1;
            }
            group = Group::Ordered { id, elements: oriented, attributes: Vec::new() };
        } else {
            if elements.len() % 2 == 0 {
                // An even count cannot alternate node/edge/node and close
                // on a node; this also rejects an empty chain.
                return Err(TsgError::InvalidRecord(Vec::new()));
            }
            is_chain = true;
            group = Group::Chain { id, elements, attributes: Vec::new() };
        }
        let ghost gdv = self.graphs.deep_view();
        let ghost gv = group@;
        if is_chain {
            let chain_copy = match &group {
                Group::Chain { id, elements, attributes } => Group::Chain {
                    id: clone_bytes(id),
                    elements: crate::path::clone_lines(elements),
                    attributes: crate::path::clone_attrs(attributes),
                },
                _ => Group::Unordered {
                    id: Vec::new(),
                    elements: Vec::new(),
                    attributes: Vec::new(),
                },
            };
            let section = &mut self.graphs[gi];
            let ghost chains_before = section.chains.deep_view();
            let ghost groups_before = section.groups.deep_view();
            section.chains.push(chain_copy);
            section.groups.push(group);
            proof {
                assert(section.groups.deep_view() =~~= groups_before + seq![gv]);
            }
        } else {
            let section = &mut self.graphs[gi];
            let ghost groups_before = section.groups.deep_view();
            section.groups.push(group);
            proof {
                assert(section.groups.deep_view() =~~= groups_before + seq![gv]);
            }
        }
        proof {
            assert(self.graphs.deep_view() =~~= gdv.update(
                gi as int,
                self.graphs.deep_view()[gi as int],
            ));
            assert forall|a: int, b: int|
                0 <= a < b < self@.graphs.len() implies self@.graphs[a].id != self@.graphs[b].id by {
                assert(self@.graphs[a].id == old(self)@.graphs[a].id);
                assert(self@.graphs[b].id == old(self)@.graphs[b].id);
            }
            assert forall|a: int|
                0 <= a < self@.graphs.len() implies section_wf(#[trigger] self@.graphs[a]) by {
                if a != gi {
                    assert(self@.graphs[a] == old(self)@.graphs[a]);
                } else {
                    assert(self@.graphs[a].nodes == old(self)@.graphs[a].nodes);
                    assert(self@.graphs[a].edges == old(self)@.graphs[a].edges);
                    assert(self@.graphs[a].edge_ids == old(self)@.graphs[a].edge_ids);
                }
            }
            assert(doc_wf(self@));
        }
        Ok(())
    }

    /// Read one `A` record: attach attributes to a node, edge, group or
    /// graph section named by kind and identifier.
    pub fn parse_attribute_line(&mut self, fields: &Vec<Vec<u8>>) -> (r: Result<(), TsgError>)
        requires
            doc_wf(old(self)@),
        ensures
            doc_wf(final(self)@),
            final(self)@.headers == old(self)@.headers,
            final(self)@.links == old(self)@.links,
            final(self)@.current == old(self)@.current,
            final(self)@.graphs.len() == old(self)@.graphs.len(),
            match r {
                Ok(_) => fields.deep_view().len() >= 4 && (exists|gi: int|
                    attrs_only_changed(old(self)@, final(self)@, gi)),
                Err(e) => final(self)@ == old(self)@,
            },
    {
        if fields.len() < 4 {
            return Err(TsgError::InvalidRecord(Vec::new()));
        }
        if fields[1].len() != 1 {
            return Err(TsgError::InvalidRecord(Vec::new()));
        }
        let kind = fields[1][0];
        let mut attrs: Vec<Attribute> = Vec::new();
        match parse_attrs_into(&mut attrs, fields, 3) {
            Ok(_) => {},
            Err(e) => {
                return Err(e);
            },
        }
        if kind == 71 {
            // Graph-section attributes attach by section identifier.
            let gi = match self.section_index_of(&fields[2]) {
                Some(gi) => gi,
                None => {
                    return Err(TsgError::NotFound(clone_bytes(&fields[2])));
                },
            };
            let ghost gdv = self.graphs.deep_view();
            let section = &mut self.graphs[gi];
            let mut k: usize = 0;
            while k < attrs.len()
                invariant
                    0 <= k <= attrs@.len(),
                    section@.id == gdv[gi as int].id,
                    section@.nodes == gdv[gi as int].nodes,
                    section@.edges == gdv[gi as int].edges,
                    section@.edge_ids == gdv[gi as int].edge_ids,
                    section@.groups == gdv[gi as int].groups,
                    section_wf(gdv[gi as int]) ==> section_wf(section@),
                decreases attrs.len() - k,
            {
                let a = &attrs[k];
                let copy = Attribute {
                    tag: clone_bytes(&a.tag),
                    attribute_type: a.attribute_type,
                    value: clone_bytes(&a.value),
                };
                upsert_attr(&mut section.attributes, copy);
                k = k + 1;
            }
            proof {
                lemma_doc_wf_one_changed(old(self)@, self@, gi as int);
                assert(attrs_only_changed(old(self)@, self@, gi as int));
            }
            return Ok(());
        }
        let gi = match self.current {
            Some(gi) => gi,
            None => {
                return Err(TsgError::Validation(Vec::new()));
            },
        };
        if kind == 78 {
            // Node attributes.
            let ni = {
                let section = &self.graphs[gi];
                proof {
                    assert(self.graphs.deep_view()[gi as int] == self.graphs@[gi as int]@);
                }
                section.node_index_of(&fields[2])
            };
            let ni = match ni {
                Some(ni) => ni,
                None => {
                    return Err(TsgError::NotFound(clone_bytes(&fields[2])));
                },
            };
            let ghost gdv = self.graphs.deep_view();
            let section = &mut self.graphs[gi];
            let ghost nodes_before = section.nodes.deep_view();
            let node = &mut section.nodes[ni];
            let mut k: usize = 0;
            while k < attrs.len()
                invariant
                    0 <= k <= attrs@.len(),
                    node@.id == nodes_before[ni as int].id,
                decreases attrs.len() - k,
            {
                let a = &attrs[k];
                let copy = Attribute {
                    tag: clone_bytes(&a.tag),
                    attribute_type: a.attribute_type,
                    value: clone_bytes(&a.value),
                };
                upsert_attr(&mut node.attributes, copy);
                k = k + 1;
            }
            proof {
                assert(section.nodes.deep_view() =~~= nodes_before.update(
                    ni as int,
                    section.nodes.deep_view()[ni as int],
                ));
                assert forall|a: int, b: int|
                    0 <= a < b < section@.nodes.len() implies section@.nodes[a].id
                    != section@.nodes[b].id by {
                    assert(section@.nodes[a].id == nodes_before[a].id);
                    assert(section@.nodes[b].id == nodes_before[b].id);
                }
                assert(section@.edges == gdv[gi as int].edges);
                assert(section@.edge_ids == gdv[gi as int].edge_ids);
                assert(section@.nodes.len() == gdv[gi as int].nodes.len());
                assert(section_wf(section@));
                lemma_doc_wf_one_changed(old(self)@, self@, gi as int);
                assert forall|n: int|
                    0 <= n < old(self)@.graphs[gi as int].nodes.len() implies (
                #[trigger] self@.graphs[gi as int].nodes[n]).id == old(
                    self,
                )@.graphs[gi as int].nodes[n].id by {
                    assert(self@.graphs[gi as int].nodes[n].id == nodes_before[n].id);
                }
                assert(attrs_only_changed(old(self)@, self@, gi as int));
            }
            return Ok(());
        }
        if kind == 69 {
            // Edge attributes, through the edge-identifier map.
            let ei = {
                let section = &self.graphs[gi];
                proof {
                    assert(self.graphs.deep_view()[gi as int] == self.graphs@[gi as int]@);
                }
                section.edge_index_of(&fields[2])
            };
            let ei = match ei {
                Some(ei) => ei,
                None => {
                    return Err(TsgError::NotFound(clone_bytes(&fields[2])));
                },
            };
            let ghost gdv = self.graphs.deep_view();
            if ei >= self.graphs[gi].edges.len() {
                return Err(TsgError::NotFound(clone_bytes(&fields[2])));
            }
            let section = &mut self.graphs[gi];
            let ghost edges_before = section.edges.deep_view();
            let slot = &mut section.edges[ei];
            let mut k: usize = 0;
            while k < attrs.len()
                invariant
                    0 <= k <= attrs@.len(),
                    slot@.source == edges_before[ei as int].source,
                    slot@.target == edges_before[ei as int].target,
                decreases attrs.len() - k,
            {
                let a = &attrs[k];
                let copy = Attribute {
                    tag: clone_bytes(&a.tag),
                    attribute_type: a.attribute_type,
                    value: clone_bytes(&a.value),
                };
                upsert_attr(&mut slot.data.attributes, copy);
                k = k + 1;
            }
            proof {
                assert(section.edges.deep_view() =~~= edges_before.update(
                    ei as int,
                    section.edges.deep_view()[ei as int],
                ));
                assert(section@.nodes == gdv[gi as int].nodes);
                assert(section@.edge_ids == gdv[gi as int].edge_ids);
                assert(section@.edges.len() == gdv[gi as int].edges.len());
                assert forall|j: int|
                    0 <= j < section@.edges.len() implies 0 <= #[trigger] section@.edges[j].source
                    < section@.nodes.len() && 0 <= section@.edges[j].target
                    < section@.nodes.len() by {
                    if j != ei {
                        assert(section@.edges[j] == edges_before[j]);
                        assert(0 <= gdv[gi as int].edges[j].source < gdv[gi as int].nodes.len());
                    } else {
                        assert(0 <= gdv[gi as int].edges[j].source < gdv[gi as int].nodes.len());
                    }
                }
                assert(section_wf(section@));
                lemma_doc_wf_one_changed(old(self)@, self@, gi as int);
                assert forall|e: int|
                    0 <= e < old(self)@.graphs[gi as int].edges.len() implies (
                #[trigger] self@.graphs[gi as int].edges[e]).source == old(
                    self,
                )@.graphs[gi as int].edges[e].source && self@.graphs[gi as int].edges[e].target
                    == old(self)@.graphs[gi as int].edges[e].target by {
                    if e != ei {
                        assert(self@.graphs[gi as int].edges[e] == edges_before[e]);
                    }
                }
                assert(attrs_only_changed(old(self)@, self@, gi as int));
            }
            return Ok(());
        }
        if kind == 85 || kind == 80 || kind == 67 {
            // Group attributes, any group variant.
            let grp = self.group_index_in(gi, &fields[2]);
            let grp = match grp {
                Some(x) => x,
                None => {
                    return Err(TsgError::NotFound(clone_bytes(&fields[2])));
                },
            };
            let ghost gdv = self.graphs.deep_view();
            let section = &mut self.graphs[gi];
            let ghost groups_before = section.groups.deep_view();
            let group = &mut section.groups[grp];
            let mut k: usize = 0;
            while k < attrs.len()
                invariant
                    0 <= k <= attrs@.len(),
                decreases attrs.len() - k,
            {
                let a = &attrs[k];
                let copy = Attribute {
                    tag: clone_bytes(&a.tag),
                    attribute_type: a.attribute_type,
                    value: clone_bytes(&a.value),
                };
                match group {
                    Group::Unordered { attributes, .. } => upsert_attr(attributes, copy),
                    Group::Ordered { attributes, .. } => upsert_attr(attributes, copy),
                    Group::Chain { attributes, .. } => upsert_attr(attributes, copy),
                }
                k = k + 1;
            }
            proof {
                assert(section@.nodes == gdv[gi as int].nodes);
                assert(section@.edges == gdv[gi as int].edges);
                assert(section@.edge_ids == gdv[gi as int].edge_ids);
                assert(section_wf(section@));
                lemma_doc_wf_one_changed(old(self)@, self@, gi as int);
                assert(attrs_only_changed(old(self)@, self@, gi as int));
            }
            return Ok(());
        }
        Err(TsgError::InvalidRecord(Vec::new()))
    }
}


/// Whether `d1` differs from `d0` only in attributes attached inside
/// section `gi`: every other section is unchanged, and in section `gi`
/// the node identifiers, edge endpoints, edge-identifier map and group
/// count are all as before.
pub open spec fn attrs_only_changed(d0: DocV, d1: DocV, gi: int) -> bool {
    let g0 = d0.graphs[gi];
    let g1 = d1.graphs[gi];
    &&& 0 <= gi < d0.graphs.len()
    &&& d1.graphs.len() == d0.graphs.len()
    &&& (forall|j: int|
        0 <= j < d0.graphs.len() && j != gi ==> d1.graphs[j] == #[trigger] d0.graphs[j])
    &&& g1.id == g0.id
    &&& g1.nodes.len() == g0.nodes.len()
    &&& (forall|n: int| 0 <= n < g0.nodes.len() ==> (#[trigger] g1.nodes[n]).id == g0.nodes[n].id)
    &&& g1.edges.len() == g0.edges.len()
    &&& (forall|e: int|
        0 <= e < g0.edges.len() ==> (#[trigger] g1.edges[e]).source == g0.edges[e].source
            && g1.edges[e].target == g0.edges[e].target)
    &&& g1.edge_ids == g0.edge_ids
    &&& g1.groups.len() == g0.groups.len()
}

/// Whether section `g` has a node, an edge identifier or a group named `id`.
pub open spec fn element_exists(g: SectionV, id: Seq<u8>) -> bool {
    ||| crate::section::node_find(g.nodes, id) < g.nodes.len()
    ||| crate::section::edge_id_find(g.edge_ids, id) < g.edge_ids.len()
    ||| group_find(g.groups, id) < g.groups.len()
}

/// Whether every element of every ordered group of `g` names something.
pub open spec fn ordered_groups_ok(g: SectionV) -> bool {
    forall|i: int|
        0 <= i < g.groups.len() ==> match #[trigger] g.groups[i] {
            GroupV::Ordered { elements, .. } => forall|j: int|
                0 <= j < elements.len() ==> element_exists(g, (#[trigger] elements[j]).0),
            _ => true,
        }
}

/// Whether every link names an existing section on both ends, and an
/// existing element inside each.
pub open spec fn links_ok(d: DocV) -> bool {
    forall|i: int|
        0 <= i < d.links.len() ==> {
            let l = #[trigger] d.links[i];
            &&& section_find(d.graphs, l.source_graph) < d.graphs.len()
            &&& element_exists(d.graphs[section_find(d.graphs, l.source_graph)], l.source_element)
            &&& section_find(d.graphs, l.target_graph) < d.graphs.len()
            &&& element_exists(d.graphs[section_find(d.graphs, l.target_graph)], l.target_element)
        }
}

/// Document-level validity: ordered groups and links resolve.
pub open spec fn doc_valid(d: DocV) -> bool {
    &&& forall|i: int| 0 <= i < d.graphs.len() ==> ordered_groups_ok(#[trigger] d.graphs[i])
    &&& links_ok(d)
}

impl GraphSection {
    /// Whether this section has a node, an edge identifier or a group
    /// named `id`.
    pub fn has_element(&self, id: &Vec<u8>) -> (r: bool)
        ensures
            r == element_exists(self@, id@),
    {
        if self.node_index_of(id).is_some() {
            return true;
        }
        if self.edge_index_of(id).is_some() {
            return true;
        }
        if self.group_index_of(id).is_some() {
            return true;
        }
        proof {
            crate::section::lemma_node_find(self@.nodes, id@);
            crate::section::lemma_edge_id_find(self@.edge_ids, id@);
            lemma_group_find(self@.groups, id@);
        }
        false
    }

    /// Snapshot of the node payloads, in arena order.
    pub fn nodes(&self) -> (r: Vec<NodeData>)
        ensures
            r.deep_view() == self@.nodes,
    {
        let mut out: Vec<NodeData> = Vec::new();
        let mut i: usize = 0;
        while i < self.nodes.len()
            invariant
                0 <= i <= self@.nodes.len(),
                out.deep_view() =~~= self@.nodes.take(i as int),
            decreases self.nodes.len() - i,
        {
            proof {
                assert(self.nodes.deep_view()[i as int] == self.nodes@[i as int]@);
            }
            let ghost prev = out.deep_view();
            let copy = clone_node(&self.nodes[i]);
            let ghost cv = copy@;
            out.push(copy);
            i = i + 1;
            proof {
                assert(out.deep_view() =~~= prev + seq![cv]);
                assert(out.deep_view() =~~= self@.nodes.take(i as int));
            }
        }
        proof {
            assert(out.deep_view() =~~= self@.nodes);
        }
        out
    }

    /// Snapshot of the edge payloads, one per edge identifier, in
    /// identifier-map order; a slot named twice appears twice.
    pub fn edges(&self) -> (r: Vec<EdgeData>)
        requires
            crate::section::section_wf(self@),
        ensures
            r.deep_view().len() == self@.edge_ids.len(),
            forall|i: int|
                0 <= i < r.deep_view().len() ==> #[trigger] r.deep_view()[i] == self@.edges[
                    self@.edge_ids[i].1 as int
                ].data,
    {
        let mut out: Vec<EdgeData> = Vec::new();
        let mut i: usize = 0;
        while i < self.edge_ids.len()
            invariant
                crate::section::section_wf(self@),
                0 <= i <= self@.edge_ids.len(),
                out.deep_view().len() == i,
                forall|k: int|
                    0 <= k < i ==> #[trigger] out.deep_view()[k] == self@.edges[
                        self@.edge_ids[k].1 as int
                    ].data,
            decreases self.edge_ids.len() - i,
        {
            proof {
                assert(self.edge_ids.deep_view()[i as int] == (
                    self.edge_ids@[i as int].0@,
                    self.edge_ids@[i as int].1,
                ));
                assert(0 <= self@.edge_ids[i as int].1 < self@.edges.len());
            }
            let slot = self.edge_ids[i].1;
            proof {
                assert(self.edges.deep_view()[slot as int] == self.edges@[slot as int]@);
            }
            let ghost prev = out.deep_view();
            let copy = clone_edge(&self.edges[slot].data);
            let ghost cv = copy@;
            out.push(copy);
            i = i + 1;
            proof {
                assert(out.deep_view() =~~= prev + seq![cv]);
            }
        }
        out
    }
}

/// A copy of a node payload.
pub fn clone_node(n: &NodeData) -> (r: NodeData)
    ensures
        r@ == n@,
{
    let mut exons: Vec<crate::node::Interval> = Vec::new();
    let mut i: usize = 0;
    while i < n.exons.exons.len()
        invariant
            0 <= i <= n.exons.exons@.len(),
            exons@ =~= n.exons.exons@.take(i as int),
        decreases n.exons.exons.len() - i,
    {
        exons.push(n.exons.exons[i]);
        i = i + 1;
        proof {
            assert(exons@ =~= n.exons.exons@.take(i as int));
        }
    }
    let mut reads: Vec<crate::node::ReadData> = Vec::new();
    let mut j: usize = 0;
    while j < n.reads.len()
        invariant
            0 <= j <= n.reads@.len(),
            reads.deep_view() =~~= n.reads.deep_view().take(j as int),
        decreases n.reads.len() - j,
    {
        proof {
            assert(n.reads.deep_view()[j as int] == n.reads@[j as int]@);
        }
        let rd = &n.reads[j];
        let ghost prev = reads.deep_view();
        let copy = crate::node::ReadData { id: clone_bytes(&rd.id), identity: rd.identity };
        let ghost cv = copy@;
        reads.push(copy);
        j = j + 1;
        proof {
            assert(reads.deep_view() =~~= prev + seq![cv]);
            assert(reads.deep_view() =~~= n.reads.deep_view().take(j as int));
        }
    }
    let sequence = match &n.sequence {
        Some(sq) => Some(clone_bytes(sq)),
        None => None,
    };
    let r = NodeData {
        id: clone_bytes(&n.id),
        reference_id: clone_bytes(&n.reference_id),
        strand: n.strand,
        exons: crate::node::Exons { exons },
        reads,
        sequence,
        attributes: crate::path::clone_attrs(&n.attributes),
    };
    proof {
        assert(r.exons.exons@ =~= n.exons.exons@);
        assert(r.reads.deep_view() =~~= n.reads.deep_view());
    }
    r
}

/// A copy of an edge payload.
pub fn clone_edge(e: &EdgeData) -> (r: EdgeData)
    ensures
        r@ == e@,
{
    EdgeData {
        id: clone_bytes(&e.id),
        sv: StructuralVariant {
            reference_name1: clone_bytes(&e.sv.reference_name1),
            reference_name2: clone_bytes(&e.sv.reference_name2),
            breakpoint1: e.sv.breakpoint1,
            breakpoint2: e.sv.breakpoint2,
            sv_type: clone_bytes(&e.sv.sv_type),
        },
        attributes: crate::path::clone_attrs(&e.attributes),
    }
}

impl TSGraph {
    /// Check that every ordered group's elements and every link's endpoints
    /// name things that exist.
    pub fn validate(&self) -> (r: Result<(), TsgError>)
        ensures
            r is Ok <==> doc_valid(self@),
    {
        let mut gi: usize = 0;
        while gi < self.graphs.len()
            invariant
                0 <= gi <= self@.graphs.len(),
                forall|i: int| 0 <= i < gi ==> ordered_groups_ok(#[trigger] self@.graphs[i]),
            decreases self.graphs.len() - gi,
        {
            proof {
                assert(self.graphs.deep_view()[gi as int] == self.graphs@[gi as int]@);
            }
            let section = &self.graphs[gi];
            let mut gr: usize = 0;
            while gr < section.groups.len()
                invariant
                    section@ == self@.graphs[gi as int],
                    gi < self@.graphs.len(),
                    0 <= gr <= section@.groups.len(),
                    forall|i: int|
                        0 <= i < gr ==> match #[trigger] section@.groups[i] {
                            GroupV::Ordered { elements, .. } => forall|j: int|
                                0 <= j < elements.len() ==> element_exists(
                                    section@,
                                    (#[trigger] elements[j]).0,
                                ),
                            _ => true,
                        },
                decreases section.groups.len() - gr,
            {
                proof {
                    assert(section.groups.deep_view()[gr as int] == section.groups@[gr as int]@);
                }
                match &section.groups[gr] {
                    Group::Ordered { elements, .. } => {
                        let mut ej: usize = 0;
                        while ej < elements.len()
                            invariant
                                section@ == self@.graphs[gi as int],
                                gi < self@.graphs.len(),
                                gr < section@.groups.len(),
                                section@.groups[gr as int] matches GroupV::Ordered {
                                    elements: ev,
                                    ..
                                } && ev == elements.deep_view(),
                                0 <= ej <= elements@.len(),
                                forall|j: int|
                                    0 <= j < ej ==> element_exists(
                                        section@,
                                        (#[trigger] elements.deep_view()[j]).0,
                                    ),
                            decreases elements.len() - ej,
                        {
                            proof {
                                assert(elements.deep_view()[ej as int] == elements@[ej as int]@);
                            }
                            let ok = section.has_element(&elements[ej].id);
                            if !ok {
                                proof {
                                    assert(!ordered_groups_ok(self@.graphs[gi as int]));
                                }
                                return Err(TsgError::Validation(clone_bytes(&elements[ej].id)));
                            }
                            ej = ej + 1;
                        }
                    },
                    _ => {},
                }
                gr = gr + 1;
            }
            gi = gi + 1;
        }
        let mut li: usize = 0;
        while li < self.links.len()
            invariant
                0 <= li <= self@.links.len(),
                forall|i: int| 0 <= i < self@.graphs.len() ==> ordered_groups_ok(
                    #[trigger] self@.graphs[i],
                ),
                forall|i: int|
                    0 <= i < li ==> {
                        let l = #[trigger] self@.links[i];
                        &&& section_find(self@.graphs, l.source_graph) < self@.graphs.len()
                        &&& element_exists(
                            self@.graphs[section_find(self@.graphs, l.source_graph)],
                            l.source_element,
                        )
                        &&& section_find(self@.graphs, l.target_graph) < self@.graphs.len()
                        &&& element_exists(
                            self@.graphs[section_find(self@.graphs, l.target_graph)],
                            l.target_element,
                        )
                    },
            decreases self.links.len() - li,
        {
            proof {
                assert(self.links.deep_view()[li as int] == self.links@[li as int]@);
            }
            let link = &self.links[li];
            let sgi = match self.section_index_of(&link.source_graph) {
                Some(x) => x,
                None => {
                    return Err(TsgError::Validation(clone_bytes(&link.id)));
                },
            };
            proof {
                assert(self.graphs.deep_view()[sgi as int] == self.graphs@[sgi as int]@);
            }
            if !self.graphs[sgi].has_element(&link.source_element) {
                return Err(TsgError::Validation(clone_bytes(&link.id)));
            }
            let tgi = match self.section_index_of(&link.target_graph) {
                Some(x) => x,
                None => {
                    return Err(TsgError::Validation(clone_bytes(&link.id)));
                },
            };
            proof {
                assert(self.graphs.deep_view()[tgi as int] == self.graphs@[tgi as int]@);
            }
            if !self.graphs[tgi].has_element(&link.target_element) {
                return Err(TsgError::Validation(clone_bytes(&link.id)));
            }
            li = li + 1;
        }
        Ok(())
    }
}



/// Whether some section of the document accepts `p` as a walk.
pub open spec fn path_of_some_section(d: DocV, p: crate::path::PathV) -> bool {
    exists|g: int| 0 <= g < d.graphs.len() && crate::path::accepted_walk(d.graphs[g], p)
}

/// Whether a chain's node elements (even positions) all resolve to nodes
/// and its inner edge elements (odd positions) to edge identifiers.
pub open spec fn chain_resolved(g: SectionV, elements: Seq<Seq<u8>>) -> bool {
    &&& forall|i: int|
        0 <= i < elements.len() && i % 2 == 0 ==> crate::section::node_find(
            g.nodes,
            #[trigger] elements[i],
        ) < g.nodes.len()
    &&& forall|i: int|
        0 <= i < elements.len() - 1 && i % 2 == 1 ==> crate::section::edge_id_find(
            g.edge_ids,
            #[trigger] elements[i],
        ) < g.edge_ids.len()
}

/// Whether the first `upto` chains of the section resolve.
pub open spec fn chains_resolved(g: SectionV, upto: int) -> bool {
    forall|c: int|
        0 <= c < upto ==> (match #[trigger] g.chains[c] {
            GroupV::Chain { elements, .. } => chain_resolved(g, elements),
            _ => true,
        })
}

/// A found node identifier stays found when nodes keep their identifiers
/// and more are appended.
proof fn lemma_node_find_stable(nodes0: Seq<crate::node::NodeV>, nodes1: Seq<crate::node::NodeV>, id: Seq<u8>)
    requires
        crate::section::node_find(nodes0, id) < nodes0.len(),
        nodes1.len() >= nodes0.len(),
        forall|i: int| 0 <= i < nodes0.len() ==> nodes1[i].id == nodes0[i].id,
    ensures
        crate::section::node_find(nodes1, id) < nodes1.len(),
    decreases nodes0.len(),
{
    if nodes0.len() > 0 {
        if nodes0[0].id == id {
            assert(nodes1[0].id == id);
        } else {
            assert(nodes1[0].id != id);
            assert(forall|i: int|
                0 <= i < nodes0.drop_first().len() ==> nodes1.drop_first()[i].id
                    == nodes0.drop_first()[i].id);
            lemma_node_find_stable(nodes0.drop_first(), nodes1.drop_first(), id);
        }
    }
}

/// A found edge identifier stays found under the same conditions.
proof fn lemma_edge_find_stable(
    ids0: Seq<(Seq<u8>, usize)>,
    ids1: Seq<(Seq<u8>, usize)>,
    id: Seq<u8>,
)
    requires
        crate::section::edge_id_find(ids0, id) < ids0.len(),
        ids1.len() >= ids0.len(),
        forall|i: int| 0 <= i < ids0.len() ==> ids1[i].0 == ids0[i].0,
    ensures
        crate::section::edge_id_find(ids1, id) < ids1.len(),
    decreases ids0.len(),
{
    if ids0.len() > 0 {
        if ids0[0].0 == id {
            assert(ids1[0].0 == id);
        } else {
            assert(ids1[0].0 != id);
            assert(forall|i: int|
                0 <= i < ids0.drop_first().len() ==> ids1.drop_first()[i].0
                    == ids0.drop_first()[i].0);
            lemma_edge_find_stable(ids0.drop_first(), ids1.drop_first(), id);
        }
    }
}

/// An identifier present at some position is found.
proof fn lemma_node_find_present(nodes: Seq<crate::node::NodeV>, id: Seq<u8>, at: int)
    requires
        0 <= at < nodes.len(),
        nodes[at].id == id,
    ensures
        crate::section::node_find(nodes, id) < nodes.len(),
{
    crate::section::lemma_node_find(nodes, id);
    if crate::section::node_find(nodes, id) == nodes.len() {
        assert(nodes[at].id != id);
    }
}

proof fn lemma_edge_find_present(ids: Seq<(Seq<u8>, usize)>, id: Seq<u8>, at: int)
    requires
        0 <= at < ids.len(),
        ids[at].0 == id,
    ensures
        crate::section::edge_id_find(ids, id) < ids.len(),
{
    crate::section::lemma_edge_id_find(ids, id);
    if crate::section::edge_id_find(ids, id) == ids.len() {
        assert(ids[at].0 != id);
    }
}

/// One mutation that keeps identifiers in place and only appends preserves
/// every resolution fact gathered so far.
proof fn lemma_resolution_stable(
    g0: SectionV,
    g1: SectionV,
    ci: int,
    elements: Seq<Seq<u8>>,
    i: int,
)
    requires
        g1.nodes.len() >= g0.nodes.len(),
        forall|x: int| 0 <= x < g0.nodes.len() ==> g1.nodes[x].id == g0.nodes[x].id,
        g1.edge_ids.len() >= g0.edge_ids.len(),
        forall|x: int| 0 <= x < g0.edge_ids.len() ==> g1.edge_ids[x].0 == g0.edge_ids[x].0,
        g1.chains == g0.chains,
        0 <= ci <= g0.chains.len(),
        chains_resolved(g0, ci),
        forall|j: int|
            0 <= j < i && j % 2 == 0 ==> crate::section::node_find(
                g0.nodes,
                #[trigger] elements[j],
            ) < g0.nodes.len(),
        forall|j: int|
            0 <= j < i && j < elements.len() - 1 && j % 2 == 1 ==> crate::section::edge_id_find(
                g0.edge_ids,
                #[trigger] elements[j],
            ) < g0.edge_ids.len(),
    ensures
        chains_resolved(g1, ci),
        forall|j: int|
            0 <= j < i && j % 2 == 0 ==> crate::section::node_find(
                g1.nodes,
                #[trigger] elements[j],
            ) < g1.nodes.len(),
        forall|j: int|
            0 <= j < i && j < elements.len() - 1 && j % 2 == 1 ==> crate::section::edge_id_find(
                g1.edge_ids,
                #[trigger] elements[j],
            ) < g1.edge_ids.len(),
{
    assert forall|j: int|
        0 <= j < i && j % 2 == 0 implies crate::section::node_find(
        g1.nodes,
        #[trigger] elements[j],
    ) < g1.nodes.len() by {
        lemma_node_find_stable(g0.nodes, g1.nodes, elements[j]);
    }
    assert forall|j: int|
        0 <= j < i && j < elements.len() - 1 && j % 2 == 1 implies crate::section::edge_id_find(
        g1.edge_ids,
        #[trigger] elements[j],
    ) < g1.edge_ids.len() by {
        lemma_edge_find_stable(g0.edge_ids, g1.edge_ids, elements[j]);
    }
    assert forall|c: int|
        0 <= c < ci implies (match #[trigger] g1.chains[c] {
        GroupV::Chain { elements: ev, .. } => chain_resolved(g1, ev),
        _ => true,
    }) by {
        match g1.chains[c] {
            GroupV::Chain { elements: ev, .. } => {
                assert(g0.chains[c] == g1.chains[c]);
                assert(chain_resolved(g0, ev));
                assert forall|x: int|
                    0 <= x < ev.len() && x % 2 == 0 implies crate::section::node_find(
                    g1.nodes,
                    #[trigger] ev[x],
                ) < g1.nodes.len() by {
                    lemma_node_find_stable(g0.nodes, g1.nodes, ev[x]);
                }
                assert forall|x: int|
                    0 <= x < ev.len() - 1 && x % 2 == 1 implies crate::section::edge_id_find(
                    g1.edge_ids,
                    #[trigger] ev[x],
                ) < g1.edge_ids.len() by {
                    lemma_edge_find_stable(g0.edge_ids, g1.edge_ids, ev[x]);
                }
            },
            _ => {},
        }
    }
}

impl GraphSection {
    /// When a section has chains but no declared nodes or edges, synthesize
    /// placeholder nodes and edges from chain membership; otherwise leave
    /// the section alone.
    #[verifier::spinoff_prover]
    #[verifier::rlimit(100)]
    pub fn ensure_graph_is_built(&mut self) -> (r: Result<(), TsgError>)
        requires
            section_wf(old(self)@),
        ensures
            r is Ok,
            section_wf(final(self)@),
            final(self)@.id == old(self)@.id,
            final(self)@.attributes == old(self)@.attributes,
            final(self)@.groups == old(self)@.groups,
            final(self)@.chains == old(self)@.chains,
            (old(self)@.nodes.len() == 0 || old(self)@.edge_ids.len() == 0) ==> chains_resolved(
                final(self)@,
                final(self)@.chains.len() as int,
            ),
    {
        if self.nodes.len() > 0 && self.edge_ids.len() > 0 {
            return Ok(());
        }
        if self.chains.len() == 0 {
            proof {
                assert(chains_resolved(self@, self@.chains.len() as int));
            }
            return Ok(());
        }
        let mut ci: usize = 0;
        while ci < self.chains.len()
            invariant
                section_wf(self@),
                self@.id == old(self)@.id,
                self@.attributes == old(self)@.attributes,
                self@.groups == old(self)@.groups,
                self@.chains == old(self)@.chains,
                0 <= ci <= self@.chains.len(),
                chains_resolved(self@, ci as int),
            decreases self.chains.len() - ci,
        {
            proof {
                assert(self.chains.deep_view()[ci as int] == self.chains@[ci as int]@);
            }
            let elements = match &self.chains[ci] {
                Group::Chain { elements, .. } => crate::path::clone_lines(elements),
                _ => Vec::new(),
            };
            let ghost is_chain = self@.chains[ci as int] is Chain;
            proof {
                if is_chain {
                    assert(self@.chains[ci as int] matches GroupV::Chain { elements: ev, .. } && ev
                        == elements.deep_view());
                }
            }
            let mut i: usize = 0;
            while i < elements.len()
                invariant
                    section_wf(self@),
                    self@.id == old(self)@.id,
                    self@.attributes == old(self)@.attributes,
                    self@.groups == old(self)@.groups,
                    self@.chains == old(self)@.chains,
                    0 <= i <= elements@.len(),
                    ci < self@.chains.len(),
                    is_chain == (self@.chains[ci as int] is Chain),
                    is_chain ==> (self@.chains[ci as int] matches GroupV::Chain {
                        elements: ev,
                        ..
                    } && ev == elements.deep_view()),
                    chains_resolved(self@, ci as int),
                    forall|j: int|
                        0 <= j < i && j % 2 == 0 ==> crate::section::node_find(
                            self@.nodes,
                            #[trigger] elements.deep_view()[j],
                        ) < self@.nodes.len(),
                    forall|j: int|
                        0 <= j < i && j < elements@.len() - 1 && j % 2 == 1
                            ==> crate::section::edge_id_find(
                            self@.edge_ids,
                            #[trigger] elements.deep_view()[j],
                        ) < self@.edge_ids.len(),
                decreases elements.len() - i,
            {
                proof {
                    assert(elements.deep_view()[i as int] == elements@[i as int]@);
                }
                let ghost g_before = self@;
                if i % 2 == 0 {
                    match self.node_index_of(&elements[i]) {
                        Some(_) => {
                            proof {
                                assert(crate::section::node_find(
                                    self@.nodes,
                                    elements.deep_view()[i as int],
                                ) < self@.nodes.len());
                            }
                        },
                        None => {
                            let data = NodeData::placeholder(clone_bytes(&elements[i]));
                            let ghost dv = data@;
                            let res = self.add_node(data);
                            match res {
                                Ok(_) => {},
                                Err(e) => {
                                    return Err(e);
                                },
                            }
                            proof {
                                crate::section::lemma_node_find(g_before.nodes, dv.id);
                                assert(self@.nodes =~~= g_before.nodes + seq![dv]);
                                assert(forall|x: int|
                                    0 <= x < g_before.nodes.len() ==> self@.nodes[x].id
                                        == g_before.nodes[x].id);
                                assert(self@.edge_ids == g_before.edge_ids);
                                lemma_resolution_stable(
                                    g_before,
                                    self@,
                                    ci as int,
                                    elements.deep_view(),
                                    i as int,
                                );
                                lemma_node_find_present(
                                    self@.nodes,
                                    dv.id,
                                    g_before.nodes.len() as int,
                                );
                            }
                        },
                    }
                } else {
                    if i + 1 < elements.len() {
                        proof {
                            assert(elements.deep_view()[i as int - 1] == elements@[i as int - 1]@);
                            assert(elements.deep_view()[i as int + 1] == elements@[i as int + 1]@);
                        }
                        match self.edge_index_of(&elements[i]) {
                            Some(_) => {
                                proof {
                                    crate::section::lemma_edge_id_find(
                                        self@.edge_ids,
                                        elements.deep_view()[i as int],
                                    );
                                }
                            },
                            None => {
                                let data = EdgeData::placeholder(clone_bytes(&elements[i]));
                                let ghost dv = data@;
                                let res = self.add_edge(&elements[i - 1], &elements[i + 1], data);
                                match res {
                                    Ok(_) => {},
                                    Err(e) => {
                                        return Err(e);
                                    },
                                }
                                proof {
                                    crate::section::lemma_edge_id_find(g_before.edge_ids, dv.id);
                                    assert(self@.nodes.len() >= g_before.nodes.len());
                                    assert(forall|x: int|
                                        0 <= x < g_before.nodes.len() ==> self@.nodes[x].id
                                            == g_before.nodes[x].id);
                                    let e = crate::section::edge_id_find(
                                        g_before.edge_ids,
                                        dv.id,
                                    );
                                    assert(self@.edge_ids.len() >= g_before.edge_ids.len());
                                    assert forall|x: int|
                                        0 <= x < g_before.edge_ids.len() implies self@.edge_ids[
                                        x
                                    ].0 == g_before.edge_ids[x].0 by {
                                        if e < g_before.edge_ids.len() && x == e {
                                            assert(g_before.edge_ids[e].0 == dv.id);
                                        }
                                    }
                                    lemma_resolution_stable(
                                        g_before,
                                        self@,
                                        ci as int,
                                        elements.deep_view(),
                                        i as int,
                                    );
                                    if e < g_before.edge_ids.len() {
                                        lemma_edge_find_present(self@.edge_ids, dv.id, e);
                                    } else {
                                        lemma_edge_find_present(
                                            self@.edge_ids,
                                            dv.id,
                                            g_before.edge_ids.len() as int,
                                        );
                                    }
                                }
                            },
                        }
                    }
                }
                i = i + 1;
            }
            proof {
                assert(chains_resolved(self@, ci as int + 1)) by {
                    assert forall|c: int|
                        0 <= c < ci as int + 1 implies (match #[trigger] self@.chains[c] {
                        GroupV::Chain { elements: ev, .. } => chain_resolved(self@, ev),
                        _ => true,
                    }) by {
                        if c == ci as int && is_chain {
                            assert(chain_resolved(self@, elements.deep_view()));
                        }
                    }
                }
            }
            ci = ci + 1;
        }
        Ok(())
    }

}

impl TSGraph {
    /// Build a document from line-oriented text.  Blank lines and `#`
    /// comments are skipped, as are lines with an unknown record tag;
    /// records land in the section opened by the latest `G` line, or in the
    /// implicit section.  Afterwards chains synthesize any missing nodes and
    /// edges, the document is validated, and an untouched implicit section
    /// is dropped.
    pub fn from_text(text: &Vec<u8>) -> (r: Result<TSGraph, TsgError>)
        ensures
            match r {
                Ok(doc) => doc_wf(doc@) && doc@.current is None && doc_valid(doc@),
                Err(_) => true,
            },
            text@.len() == 0 ==> r is Ok,
    {
        let mut doc = TSGraph::new();
        let lines = crate::bytes::split_all(text, 10);
        proof {
            if text@.len() == 0 {
                assert(crate::bytes::split_on(text@, 10) =~~= seq![Seq::<u8>::empty()]);
            }
        }
        let mut li: usize = 0;
        while li < lines.len()
            invariant
                doc_wf(doc@),
                0 <= li <= lines@.len(),
                lines.deep_view() == crate::bytes::split_on(text@, 10),
                text@.len() == 0 ==> doc@.graphs.len() == 1 && doc@.graphs[0].groups.len() == 0
                    && doc@.links.len() == 0,
            decreases lines.len() - li,
        {
            let line = &lines[li];
            proof {
                if text@.len() == 0 {
                    assert(crate::bytes::split_on(text@, 10) =~~= seq![Seq::<u8>::empty()]);
                    assert(lines@[li as int]@ == lines.deep_view()[li as int]);
                }
            }
            if line.len() == 0 || line[0] == 35 {
                li = li + 1;
                continue ;
            }
            let fs = crate::bytes::fields(line);
            if fs.len() == 0 {
                li = li + 1;
                continue ;
            }
            if fs[0].len() != 1 {
                // An unknown record tag is skipped, not fatal.
                li = li + 1;
                continue ;
            }
            let tag = fs[0][0];
            let res: Result<(), TsgError> = if tag == 72 {
                doc.parse_header_line(&fs)
            } else if tag == 71 {
                doc.parse_graph_line(&fs)
            } else if tag == 78 {
                doc.parse_node_line(line)
            } else if tag == 69 {
                doc.parse_edge_line(&fs)
            } else if tag == 85 || tag == 80 || tag == 67 {
                doc.parse_group_line(tag, &fs)
            } else if tag == 65 {
                doc.parse_attribute_line(&fs)
            } else if tag == 76 {
                doc.parse_link_line(&fs)
            } else {
                Ok(())
            };
            match res {
                Ok(_) => {},
                Err(e) => {
                    return Err(e);
                },
            }
            li = li + 1;
        }
        let mut gi: usize = 0;
        while gi < doc.graphs.len()
            invariant
                doc_wf(doc@),
                0 <= gi <= doc@.graphs.len(),
                text@.len() == 0 ==> doc@.graphs.len() == 1 && doc@.graphs[0].groups.len() == 0
                    && doc@.links.len() == 0,
            decreases doc.graphs.len() - gi,
        {
            let ghost before = doc@;
            proof {
                assert(section_wf(doc@.graphs[gi as int]));
            }
            let section = &mut doc.graphs[gi];
            let res = section.ensure_graph_is_built();
            proof {
                assert(doc.graphs.deep_view() =~~= before.graphs.update(
                    gi as int,
                    doc.graphs.deep_view()[gi as int],
                ));
                assert(section_wf(before.graphs[gi as int]));
                lemma_doc_wf_one_changed(before, doc@, gi as int);
            }
            match res {
                Ok(_) => {},
                Err(e) => {
                    return Err(e);
                },
            }
            gi = gi + 1;
        }
        match doc.validate() {
            Ok(_) => {},
            Err(e) => {
                return Err(e);
            },
        }
        let did = default_graph_id_bytes();
        match doc.section_index_of(&did) {
            Some(di) => {
                proof {
                    assert(doc.graphs.deep_view()[di as int] == doc.graphs@[di as int]@);
                }
                if doc.graphs[di].nodes.len() == 0 && doc.graphs[di].edge_ids.len() == 0
                    && doc.graphs[di].groups.len() == 0 {
                    let ghost before = doc.graphs.deep_view();
                    let _ = doc.graphs.remove(di);
                    doc.current = None;
                    proof {
                        assert(doc.graphs.deep_view() =~~= before.remove(di as int));
                        assert forall|i: int, j: int|
                            0 <= i < j < doc@.graphs.len() implies doc@.graphs[i].id
                            != doc@.graphs[j].id by {
                            let oi: int = if i < di { i } else { i + 1 };
                            let oj: int = if j < di { j } else { j + 1 };
                            assert(doc@.graphs[i] == before[oi]);
                            assert(doc@.graphs[j] == before[oj]);
                        }
                        assert forall|i: int|
                            0 <= i < doc@.graphs.len() implies section_wf(
                            #[trigger] doc@.graphs[i],
                        ) by {
                            let oi: int = if i < di { i } else { i + 1 };
                            assert(doc@.graphs[i] == before[oi]);
                        }
                        assert(doc_wf(doc@));
                    }
                    proof {
                        if text@.len() == 0 {
                            assert(doc@.graphs.len() == 0);
                            assert(doc_valid(doc@));
                        }
                    }
                    match TSGraph::revalidate_after_drop(doc) {
                        Ok(d) => {
                            return Ok(d);
                        },
                        Err(e) => {
                            return Err(e);
                        },
                    }
                }
            },
            None => {},
        }
        doc.current = None;
        proof {
            assert(doc_wf(doc@));
        }
        match doc.validate() {
            Ok(_) => Ok(doc),
            Err(e) => Err(e),
        }
    }

    /// Re-check validity after the implicit section was dropped, so links
    /// into it are caught.
    fn revalidate_after_drop(doc: TSGraph) -> (r: Result<TSGraph, TsgError>)
        requires
            doc_wf(doc@),
            doc@.current is None,
        ensures
            match r {
                Ok(d) => d@ == doc@ && doc_wf(d@) && d@.current is None && doc_valid(d@),
                Err(_) => !doc_valid(doc@),
            },
    {
        match doc.validate() {
            Ok(_) => Ok(doc),
            Err(e) => Err(e),
        }
    }

    /// The node arena positions a chain names, in chain order.
    pub fn chain_nodes(&self, graph_id: &Vec<u8>, chain_id: &Vec<u8>) -> (r: Option<Vec<usize>>)
        ensures
            match r {
                Some(v) => {
                    let gi = section_find(self@.graphs, graph_id@);
                    &&& gi < self@.graphs.len()
                    &&& group_find(self@.graphs[gi].chains, chain_id@) < self@.graphs[
                        gi
                    ].chains.len()
                    &&& (self@.graphs[gi].chains[group_find(self@.graphs[gi].chains, chain_id@)]
                        matches GroupV::Chain { elements, .. } && v@.len() == (elements.len() + 1)
                        / 2 && (forall|k: int|
                        0 <= k < v@.len() ==> crate::section::node_find(
                            self@.graphs[gi].nodes,
                            #[trigger] elements[2 * k],
                        ) < self@.graphs[gi].nodes.len() && v@[k] == crate::section::node_find(
                            self@.graphs[gi].nodes,
                            elements[2 * k],
                        )))
                },
                None => true,
            },
    {
        let gi = match self.section_index_of(graph_id) {
            Some(x) => x,
            None => {
                return None;
            },
        };
        proof {
            assert(self.graphs.deep_view()[gi as int] == self.graphs@[gi as int]@);
        }
        let section = &self.graphs[gi];
        let ghost chains = section@.chains;
        proof {
            lemma_group_find(chains, chain_id@);
        }
        let mut ci: usize = 0;
        let mut found: Option<usize> = None;
        while ci < section.chains.len() && found.is_none()
            invariant
                chains == section@.chains,
                0 <= ci <= chains.len(),
                found is None ==> forall|k: int| 0 <= k < ci ==> chains[k].id() != chain_id@,
                found matches Some(f) ==> f < chains.len() && f == group_find(chains, chain_id@),
                0 <= group_find(chains, chain_id@) <= chains.len(),
                group_find(chains, chain_id@) < chains.len() ==> chains[group_find(
                    chains,
                    chain_id@,
                )].id() == chain_id@,
                forall|k: int| 0 <= k < group_find(chains, chain_id@) ==> chains[k].id() != chain_id@,
            decreases chains.len() - ci + if found is Some {
                0int
            } else {
                1int
            },
        {
            proof {
                assert(section.chains.deep_view()[ci as int] == section.chains@[ci as int]@);
            }
            let same = eq_bytes(section.chains[ci].id(), chain_id);
            if same {
                proof {
                    let f = group_find(chains, chain_id@);
                    if f < ci {
                        assert(chains[f].id() != chain_id@);
                    }
                    if f > ci {
                        assert(chains[ci as int].id() != chain_id@);
                    }
                }
                found = Some(ci);
            } else {
                ci = ci + 1;
            }
        }
        let fi = match found {
            Some(x) => x,
            None => {
                return None;
            },
        };
        proof {
            assert(section.chains.deep_view()[fi as int] == section.chains@[fi as int]@);
        }
        match &section.chains[fi] {
            Group::Chain { elements, .. } => {
                let mut out: Vec<usize> = Vec::new();
                let mut i: usize = 0;
                while i < elements.len()
                    invariant
                        gi == section_find(self@.graphs, graph_id@),
                        gi < self@.graphs.len(),
                        section@ == self@.graphs[gi as int],
                        fi == group_find(chains, chain_id@),
                        fi < chains.len(),
                        chains == section@.chains,
                        chains[fi as int] matches GroupV::Chain { elements: ev, .. } && ev
                            == elements.deep_view(),
                        0 <= i,
                        i % 2 == 0 || i == elements@.len(),
                        i <= elements@.len(),
                        out@.len() == (i + 1) / 2,
                        forall|k: int|
                            0 <= k < out@.len() ==> crate::section::node_find(
                                section@.nodes,
                                #[trigger] elements.deep_view()[2 * k],
                            ) < section@.nodes.len() && out@[k] == crate::section::node_find(
                                section@.nodes,
                                elements.deep_view()[2 * k],
                            ),
                    decreases elements@.len() - i,
                {
                    proof {
                        assert(elements.deep_view()[i as int] == elements@[i as int]@);
                    }
                    proof {
                        assert(i % 2 == 0);
                    }
                    match section.node_index_of(&elements[i]) {
                        Some(ni) => {
                            out.push(ni);
                        },
                        None => {
                            return None;
                        },
                    }
                    if i + 1 < elements.len() {
                        i = i + 2;
                    } else {
                        i = i + 1;
                    }
                }
                proof {
                    assert(out@.len() == (elements.deep_view().len() + 1) / 2);
                }
                Some(out)
            },
            _ => None,
        }
    }

    /// The edge-slot positions a chain names, in chain order.
    pub fn chain_edges(&self, graph_id: &Vec<u8>, chain_id: &Vec<u8>) -> (r: Option<Vec<usize>>)
        ensures
            match r {
                Some(v) => {
                    let gi = section_find(self@.graphs, graph_id@);
                    &&& gi < self@.graphs.len()
                    &&& group_find(self@.graphs[gi].chains, chain_id@) < self@.graphs[
                        gi
                    ].chains.len()
                    &&& (self@.graphs[gi].chains[group_find(self@.graphs[gi].chains, chain_id@)]
                        matches GroupV::Chain { elements, .. } && v@.len() == elements.len() / 2)
                },
                None => true,
            },
    {
        let gi = match self.section_index_of(graph_id) {
            Some(x) => x,
            None => {
                return None;
            },
        };
        proof {
            assert(self.graphs.deep_view()[gi as int] == self.graphs@[gi as int]@);
        }
        let section = &self.graphs[gi];
        let ghost chains = section@.chains;
        proof {
            lemma_group_find(chains, chain_id@);
        }
        let mut ci: usize = 0;
        let mut found: Option<usize> = None;
        while ci < section.chains.len() && found.is_none()
            invariant
                chains == section@.chains,
                0 <= ci <= chains.len(),
                found is None ==> forall|k: int| 0 <= k < ci ==> chains[k].id() != chain_id@,
                found matches Some(f) ==> f < chains.len() && f == group_find(chains, chain_id@),
                0 <= group_find(chains, chain_id@) <= chains.len(),
                group_find(chains, chain_id@) < chains.len() ==> chains[group_find(
                    chains,
                    chain_id@,
                )].id() == chain_id@,
                forall|k: int| 0 <= k < group_find(chains, chain_id@) ==> chains[k].id() != chain_id@,
            decreases chains.len() - ci + if found is Some {
                0int
            } else {
                1int
            },
        {
            proof {
                assert(section.chains.deep_view()[ci as int] == section.chains@[ci as int]@);
            }
            let same = eq_bytes(section.chains[ci].id(), chain_id);
            if same {
                proof {
                    let f = group_find(chains, chain_id@);
                    if f < ci {
                        assert(chains[f].id() != chain_id@);
                    }
                    if f > ci {
                        assert(chains[ci as int].id() != chain_id@);
                    }
                }
                found = Some(ci);
            } else {
                ci = ci + 1;
            }
        }
        let fi = match found {
            Some(x) => x,
            None => {
                return None;
            },
        };
        proof {
            assert(section.chains.deep_view()[fi as int] == section.chains@[fi as int]@);
        }
        match &section.chains[fi] {
            Group::Chain { elements, .. } => {
                let mut out: Vec<usize> = Vec::new();
                let mut i: usize = 1;
                while i < elements.len()
                    invariant
                        gi == section_find(self@.graphs, graph_id@),
                        gi < self@.graphs.len(),
                        section@ == self@.graphs[gi as int],
                        fi == group_find(chains, chain_id@),
                        fi < chains.len(),
                        chains == section@.chains,
                        chains[fi as int] matches GroupV::Chain { elements: ev, .. } && ev
                            == elements.deep_view(),
                        1 <= i,
                        i % 2 == 1 || i == elements@.len(),
                        i <= elements@.len() + 1,
                        out@.len() == i / 2,
                    decreases elements@.len() + 2 - i,
                {
                    proof {
                        assert(elements.deep_view()[i as int] == elements@[i as int]@);
                        assert(i % 2 == 1);
                    }
                    match section.edge_index_of(&elements[i]) {
                        Some(ei) => {
                            out.push(ei);
                        },
                        None => {
                            return None;
                        },
                    }
                    if i + 2 <= elements.len() {
                        i = i + 2;
                    } else {
                        i = i + 1;
                    }
                }
                proof {
                    assert(out@.len() == elements.deep_view().len() / 2);
                }
                Some(out)
            },
            _ => None,
        }
    }

    /// Enumerate the read-continuity paths of the section `graph_id`.
    pub fn traverse_by_id(&self, graph_id: &Vec<u8>) -> (r: Result<Vec<crate::path::TSGPath>, TsgError>)
        requires
            doc_wf(self@),
        ensures
            match r {
                Ok(paths) => {
                    let gi = section_find(self@.graphs, graph_id@);
                    &&& gi < self@.graphs.len()
                    &&& forall|i: int|
                        0 <= i < paths.deep_view().len() ==> crate::path::accepted_walk(
                            self@.graphs[gi],
                            #[trigger] paths.deep_view()[i],
                        )
                    &&& crate::path::isolated_done(
                        self@.graphs[gi],
                        paths.deep_view(),
                        self@.graphs[gi].nodes.len() as int,
                    )
                },
                Err(_) => section_find(self@.graphs, graph_id@) == self@.graphs.len(),
            },
    {
        let gi = match self.section_index_of(graph_id) {
            Some(x) => x,
            None => {
                return Err(TsgError::NotFound(clone_bytes(graph_id)));
            },
        };
        proof {
            assert(self.graphs.deep_view()[gi as int] == self.graphs@[gi as int]@);
        }
        self.graphs[gi].traverse()
    }

    /// Enumerate the read-continuity paths of every section.  Every
    /// returned path is complete for one of the document's sections.
    pub fn traverse_all_graphs(&self) -> (r: Result<Vec<crate::path::TSGPath>, TsgError>)
        requires
            doc_wf(self@),
        ensures
            match r {
                Ok(paths) => forall|i: int|
                    0 <= i < paths.deep_view().len() ==> path_of_some_section(
                        self@,
                        #[trigger] paths.deep_view()[i],
                    ),
                Err(_) => false,
            },
    {
        let mut all: Vec<crate::path::TSGPath> = Vec::new();
        let mut gi: usize = 0;
        while gi < self.graphs.len()
            invariant
                doc_wf(self@),
                0 <= gi <= self@.graphs.len(),
                forall|i: int|
                    0 <= i < all.deep_view().len() ==> path_of_some_section(
                        self@,
                        #[trigger] all.deep_view()[i],
                    ),
            decreases self.graphs.len() - gi,
        {
            proof {
                assert(self.graphs.deep_view()[gi as int] == self.graphs@[gi as int]@);
            }
            let paths = match self.graphs[gi].traverse() {
                Ok(p) => p,
                Err(e) => {
                    return Err(e);
                },
            };
            let mut paths = paths;
            while paths.len() > 0
                invariant
                    doc_wf(self@),
                    gi < self@.graphs.len(),
                    forall|i: int|
                        0 <= i < paths.deep_view().len() ==> crate::path::accepted_walk(
                            self@.graphs[gi as int],
                            #[trigger] paths.deep_view()[i],
                        ),
                    forall|i: int|
                        0 <= i < all.deep_view().len() ==> path_of_some_section(
                            self@,
                            #[trigger] all.deep_view()[i],
                        ),
                decreases paths.len(),
            {
                let ghost before = paths.deep_view();
                let p = paths.remove(0);
                let ghost pv = p@;
                proof {
                    assert(before[0] == pv);
                    assert(paths.deep_view() =~~= before.drop_first());
                    assert(crate::path::accepted_walk(self@.graphs[gi as int], pv));
                }
                let ghost all_before = all.deep_view();
                all.push(p);
                proof {
                    assert(all.deep_view() =~~= all_before + seq![pv]);
                    assert forall|i: int|
                        0 <= i < all.deep_view().len() implies path_of_some_section(
                        self@,
                        #[trigger] all.deep_view()[i],
                    ) by {
                        if i < all_before.len() {
                            assert(all.deep_view()[i] == all_before[i]);
                        } else {
                            assert(all.deep_view()[i] == pv);
                            assert(crate::path::accepted_walk(self@.graphs[gi as int], pv));
                            assert(path_of_some_section(self@, pv));
                        }
                    }
                }
            }
            gi = gi + 1;
        }
        Ok(all)
    }
}

/// Attributes appended to a record line, each after a tab.
pub open spec fn attr_suffix(attrs: Seq<(Seq<u8>, u8, Seq<u8>)>) -> Seq<u8>
    decreases attrs.len(),
{
    if attrs.len() == 0 {
        Seq::<u8>::empty()
    } else {
        attr_suffix(attrs.drop_last()) + seq![9u8] + crate::attr::attribute_bytes(attrs.last())
    }
}

/// The `G` record line of a section.
pub open spec fn graph_decl_line(g: SectionV) -> Seq<u8> {
    seq![71u8, 9u8] + g.id + attr_suffix(g.attributes)
}

/// The `N` record lines of a section, in arena order.
pub open spec fn node_lines(nodes: Seq<crate::node::NodeV>) -> Seq<Seq<u8>>
    decreases nodes.len(),
{
    if nodes.len() == 0 {
        Seq::<Seq<u8>>::empty()
    } else {
        node_lines(nodes.drop_last()) + seq![crate::node::node_line_bytes(nodes.last())]
    }
}

/// The `E` record line of one edge slot.
pub open spec fn edge_line(g: SectionV, slot: crate::section::EdgeSlotV) -> Seq<u8> {
    seq![69u8, 9u8] + slot.data.id + seq![9u8] + g.nodes[slot.source].id + seq![9u8]
        + g.nodes[slot.target].id + seq![9u8] + crate::edge::sv_bytes(slot.data.sv)
}

/// The `E` record lines of a section, in arena order.
pub open spec fn edge_lines(g: SectionV, edges: Seq<crate::section::EdgeSlotV>) -> Seq<Seq<u8>>
    decreases edges.len(),
{
    if edges.len() == 0 {
        Seq::<Seq<u8>>::empty()
    } else {
        edge_lines(g, edges.drop_last()) + seq![edge_line(g, edges.last())]
    }
}

/// The record line of one group.
pub open spec fn group_line(gv: GroupV) -> Seq<u8> {
    match gv {
        GroupV::Unordered { id, elements, .. } => seq![85u8, 9u8] + id + seq![9u8]
            + crate::bytes::join_on(elements, 32),
        GroupV::Ordered { id, elements, .. } => seq![80u8, 9u8] + id + seq![9u8]
            + crate::bytes::join_on(
            elements.map_values(
                |e: (Seq<u8>, Option<crate::group::Orientation>)| crate::group::oriented_bytes(e),
            ),
            32,
        ),
        GroupV::Chain { id, elements, .. } => seq![67u8, 9u8] + id + seq![9u8]
            + crate::bytes::join_on(elements, 32),
    }
}

/// The record lines of a section's groups, in order.
pub open spec fn group_lines(groups: Seq<GroupV>) -> Seq<Seq<u8>>
    decreases groups.len(),
{
    if groups.len() == 0 {
        Seq::<Seq<u8>>::empty()
    } else {
        group_lines(groups.drop_last()) + seq![group_line(groups.last())]
    }
}

/// The `A` record lines attaching `attrs` to the element of kind `kind`
/// named `id`, one line per attribute.
pub open spec fn attr_lines_for(kind: u8, id: Seq<u8>, attrs: Seq<(Seq<u8>, u8, Seq<u8>)>) -> Seq<
    Seq<u8>,
>
    decreases attrs.len(),
{
    if attrs.len() == 0 {
        Seq::<Seq<u8>>::empty()
    } else {
        attr_lines_for(kind, id, attrs.drop_last()) + seq![
            seq![65u8, 9u8, kind, 9u8] + id + seq![9u8] + crate::attr::attribute_bytes(
                attrs.last(),
            ),
        ]
    }
}

/// The `A` record lines of all nodes of a section.
pub open spec fn node_attr_lines(nodes: Seq<crate::node::NodeV>) -> Seq<Seq<u8>>
    decreases nodes.len(),
{
    if nodes.len() == 0 {
        Seq::<Seq<u8>>::empty()
    } else {
        node_attr_lines(nodes.drop_last()) + attr_lines_for(
            78,
            nodes.last().id,
            nodes.last().attributes,
        )
    }
}

/// The `A` record lines of all edge slots of a section.
pub open spec fn edge_attr_lines(edges: Seq<crate::section::EdgeSlotV>) -> Seq<Seq<u8>>
    decreases edges.len(),
{
    if edges.len() == 0 {
        Seq::<Seq<u8>>::empty()
    } else {
        edge_attr_lines(edges.drop_last()) + attr_lines_for(
            69,
            edges.last().data.id,
            edges.last().data.attributes,
        )
    }
}

/// The kind byte of a group variant's `A` records.
pub open spec fn group_kind_byte(gv: GroupV) -> u8 {
    match gv {
        GroupV::Unordered { .. } => 85,
        GroupV::Ordered { .. } => 80,
        GroupV::Chain { .. } => 67,
    }
}

/// The attribute map of a group.
pub open spec fn group_attrs(gv: GroupV) -> Seq<(Seq<u8>, u8, Seq<u8>)> {
    match gv {
        GroupV::Unordered { attributes, .. } => attributes,
        GroupV::Ordered { attributes, .. } => attributes,
        GroupV::Chain { attributes, .. } => attributes,
    }
}

/// The `A` record lines of all groups of a section.
pub open spec fn group_attr_lines(groups: Seq<GroupV>) -> Seq<Seq<u8>>
    decreases groups.len(),
{
    if groups.len() == 0 {
        Seq::<Seq<u8>>::empty()
    } else {
        group_attr_lines(groups.drop_last()) + attr_lines_for(
            group_kind_byte(groups.last()),
            groups.last().id(),
            group_attrs(groups.last()),
        )
    }
}

/// All record lines of one section: declaration, nodes, edges, groups,
/// then attribute attachments.
pub open spec fn section_lines(g: SectionV) -> Seq<Seq<u8>> {
    seq![graph_decl_line(g)] + node_lines(g.nodes) + edge_lines(g, g.edges) + group_lines(g.groups)
        + node_attr_lines(g.nodes) + edge_attr_lines(g.edges) + group_attr_lines(g.groups)
}

/// The `L` record line of one link.
pub open spec fn link_line(l: LinkV) -> Seq<u8> {
    seq![76u8, 9u8] + l.id + seq![9u8] + l.source_graph + seq![58u8] + l.source_element + seq![9u8]
        + l.target_graph + seq![58u8] + l.target_element + seq![9u8] + l.link_type + attr_suffix(
        l.attributes,
    )
}

pub open spec fn link_lines(links: Seq<LinkV>) -> Seq<Seq<u8>>
    decreases links.len(),
{
    if links.len() == 0 {
        Seq::<Seq<u8>>::empty()
    } else {
        link_lines(links.drop_last()) + seq![link_line(links.last())]
    }
}

/// The lines of all sections, skipping an untouched implicit section.
pub open spec fn sections_lines(graphs: Seq<SectionV>) -> Seq<Seq<u8>>
    decreases graphs.len(),
{
    if graphs.len() == 0 {
        Seq::<Seq<u8>>::empty()
    } else {
        sections_lines(graphs.drop_last()) + if graphs.last().id == default_graph_id()
            && graphs.last().nodes.len() == 0 {
            Seq::<Seq<u8>>::empty()
        } else {
            section_lines(graphs.last())
        }
    }
}

/// The header record lines, then the writer's own `PG` header.
pub open spec fn header_lines(headers: Seq<(Seq<u8>, Seq<u8>)>) -> Seq<Seq<u8>>
    decreases headers.len(),
{
    if headers.len() == 0 {
        Seq::<Seq<u8>>::empty()
    } else {
        header_lines(headers.drop_last()) + seq![crate::header::header_bytes(headers.last())]
    }
}

/// Every record line of the document, in writing order.
pub open spec fn doc_lines(d: DocV) -> Seq<Seq<u8>> {
    header_lines(d.headers) + seq![seq![72u8, 9u8, 80u8, 71u8, 9u8, 116u8, 115u8, 103u8]]
        + sections_lines(d.graphs) + link_lines(d.links)
}

impl TSGraph {
    /// The line-oriented text serialization of this document: headers, a
    /// `PG` header naming this writer, every section's records, then the
    /// links, one record per line.  An implicit section that holds no node
    /// is left out.
    pub fn to_text(&self) -> (r: Vec<u8>)
        requires
            doc_wf(self@),
        ensures
            r@ == crate::btsg::unlines(doc_lines(self@)),
    {
        let mut lines: Vec<Vec<u8>> = Vec::new();
        let mut hi: usize = 0;
        proof {
            assert(lines.deep_view() =~~= header_lines(self@.headers.take(0)));
        }
        while hi < self.headers.len()
            invariant
                0 <= hi <= self@.headers.len(),
                lines.deep_view() == header_lines(self@.headers.take(hi as int)),
            decreases self.headers.len() - hi,
        {
            proof {
                assert(self.headers.deep_view()[hi as int] == self.headers@[hi as int]@);
                assert(self@.headers.take(hi as int + 1).drop_last() =~= self@.headers.take(
                    hi as int,
                ));
                assert(self@.headers.take(hi as int + 1).last() == self@.headers[hi as int]);
            }
            let ghost prev = lines.deep_view();
            let hl = self.headers[hi].to_bytes();
            let ghost hv = hl@;
            lines.push(hl);
            hi = hi + 1;
            proof {
                assert(lines.deep_view() =~~= prev + seq![hv]);
                assert(lines.deep_view() =~~= header_lines(self@.headers.take(hi as int)));
            }
        }
        proof {
            assert(self@.headers.take(self@.headers.len() as int) =~~= self@.headers);
        }
        let mut pg: Vec<u8> = Vec::new();
        pg.push(72);
        pg.push(9);
        pg.push(80);
        pg.push(71);
        pg.push(9);
        pg.push(116);
        pg.push(115);
        pg.push(103);
        let ghost prev_pg = lines.deep_view();
        let ghost pgv = pg@;
        lines.push(pg);
        proof {
            assert(pgv =~= seq![72u8, 9u8, 80u8, 71u8, 9u8, 116u8, 115u8, 103u8]);
            assert(lines.deep_view() =~~= prev_pg + seq![pgv]);
        }
        let mut gi: usize = 0;
        proof {
            assert(sections_lines(self@.graphs.take(0)) =~~= Seq::<Seq<u8>>::empty());
            assert(lines.deep_view() =~~= header_lines(self@.headers) + seq![
                seq![72u8, 9u8, 80u8, 71u8, 9u8, 116u8, 115u8, 103u8],
            ] + sections_lines(self@.graphs.take(0)));
        }
        while gi < self.graphs.len()
            invariant
                doc_wf(self@),
                0 <= gi <= self@.graphs.len(),
                lines.deep_view() == header_lines(self@.headers) + seq![
                    seq![72u8, 9u8, 80u8, 71u8, 9u8, 116u8, 115u8, 103u8],
                ] + sections_lines(self@.graphs.take(gi as int)),
            decreases self.graphs.len() - gi,
        {
            proof {
                assert(self.graphs.deep_view()[gi as int] == self.graphs@[gi as int]@);
                assert(self@.graphs.take(gi as int + 1).drop_last() =~= self@.graphs.take(
                    gi as int,
                ));
                assert(self@.graphs.take(gi as int + 1).last() == self@.graphs[gi as int]);
                assert(section_wf(self@.graphs[gi as int]));
            }
            let section = &self.graphs[gi];
            let id_is_default = eq_bytes(&section.id, &default_graph_id_bytes());
            if id_is_default && section.nodes.len() == 0 {
                proof {
                    assert(lines.deep_view() =~~= header_lines(self@.headers) + seq![
                        seq![72u8, 9u8, 80u8, 71u8, 9u8, 116u8, 115u8, 103u8],
                    ] + sections_lines(self@.graphs.take(gi as int + 1)));
                }
            } else {
                let sl = section_lines_of(section);
                lines = crate::btsg::concat_lines(&lines, &sl);
                proof {
                    assert(lines.deep_view() =~~= header_lines(self@.headers) + seq![
                        seq![72u8, 9u8, 80u8, 71u8, 9u8, 116u8, 115u8, 103u8],
                    ] + sections_lines(self@.graphs.take(gi as int + 1)));
                }
            }
            gi = gi + 1;
        }
        proof {
            assert(self@.graphs.take(self@.graphs.len() as int) =~~= self@.graphs);
        }
        let mut li: usize = 0;
        proof {
            assert(link_lines(self@.links.take(0)) =~~= Seq::<Seq<u8>>::empty());
            assert(lines.deep_view() =~~= header_lines(self@.headers) + seq![
                seq![72u8, 9u8, 80u8, 71u8, 9u8, 116u8, 115u8, 103u8],
            ] + sections_lines(self@.graphs) + link_lines(self@.links.take(0)));
        }
        while li < self.links.len()
            invariant
                0 <= li <= self@.links.len(),
                lines.deep_view() == header_lines(self@.headers) + seq![
                    seq![72u8, 9u8, 80u8, 71u8, 9u8, 116u8, 115u8, 103u8],
                ] + sections_lines(self@.graphs) + link_lines(self@.links.take(li as int)),
            decreases self.links.len() - li,
        {
            proof {
                assert(self.links.deep_view()[li as int] == self.links@[li as int]@);
                assert(self@.links.take(li as int + 1).drop_last() =~= self@.links.take(li as int));
                assert(self@.links.take(li as int + 1).last() == self@.links[li as int]);
            }
            let ghost prev = lines.deep_view();
            let ll = link_line_of(&self.links[li]);
            let ghost lv = ll@;
            lines.push(ll);
            li = li + 1;
            proof {
                assert(lines.deep_view() =~~= prev + seq![lv]);
                assert(lines.deep_view() =~~= header_lines(self@.headers) + seq![
                    seq![72u8, 9u8, 80u8, 71u8, 9u8, 116u8, 115u8, 103u8],
                ] + sections_lines(self@.graphs) + link_lines(self@.links.take(li as int)));
            }
        }
        proof {
            assert(self@.links.take(self@.links.len() as int) =~~= self@.links);
            assert(lines.deep_view() =~~= doc_lines(self@));
        }
        crate::btsg::emit_unlines(&lines)
    }
}

/// The attributes of a record, appended after tabs.
fn push_attr_suffix(out: &mut Vec<u8>, attrs: &Vec<Attribute>)
    ensures
        final(out)@ == old(out)@ + attr_suffix(attrs.deep_view()),
{
    let mut i: usize = 0;
    proof {
        assert(attr_suffix(attrs.deep_view().take(0)) =~= Seq::<u8>::empty());
        assert(out@ =~= old(out)@ + attr_suffix(attrs.deep_view().take(0)));
    }
    while i < attrs.len()
        invariant
            0 <= i <= attrs@.len(),
            out@ == old(out)@ + attr_suffix(attrs.deep_view().take(i as int)),
        decreases attrs.len() - i,
    {
        proof {
            assert(attrs.deep_view()[i as int] == attrs@[i as int]@);
            assert(attrs.deep_view().take(i as int + 1).drop_last() =~= attrs.deep_view().take(
                i as int,
            ));
            assert(attrs.deep_view().take(i as int + 1).last() == attrs.deep_view()[i as int]);
        }
        out.push(9);
        let ab = attrs[i].to_bytes();
        crate::bytes::push_bytes(out, &ab);
        i = i + 1;
        proof {
            assert(out@ =~= old(out)@ + attr_suffix(attrs.deep_view().take(i as int)));
        }
    }
    proof {
        assert(attrs.deep_view().take(attrs@.len() as int) =~~= attrs.deep_view());
    }
}

/// The `A` record lines for one element's attributes.
fn attr_lines_of(kind: u8, id: &Vec<u8>, attrs: &Vec<Attribute>) -> (r: Vec<Vec<u8>>)
    ensures
        r.deep_view() == attr_lines_for(kind, id@, attrs.deep_view()),
{
    let mut out: Vec<Vec<u8>> = Vec::new();
    let mut i: usize = 0;
    proof {
        assert(out.deep_view() =~~= attr_lines_for(kind, id@, attrs.deep_view().take(0)));
    }
    while i < attrs.len()
        invariant
            0 <= i <= attrs@.len(),
            out.deep_view() == attr_lines_for(kind, id@, attrs.deep_view().take(i as int)),
        decreases attrs.len() - i,
    {
        proof {
            assert(attrs.deep_view()[i as int] == attrs@[i as int]@);
            assert(attrs.deep_view().take(i as int + 1).drop_last() =~= attrs.deep_view().take(
                i as int,
            ));
            assert(attrs.deep_view().take(i as int + 1).last() == attrs.deep_view()[i as int]);
        }
        let mut line: Vec<u8> = Vec::new();
        line.push(65);
        line.push(9);
        line.push(kind);
        line.push(9);
        crate::bytes::push_bytes(&mut line, id);
        line.push(9);
        let ab = attrs[i].to_bytes();
        crate::bytes::push_bytes(&mut line, &ab);
        let ghost prev = out.deep_view();
        let ghost lv = line@;
        out.push(line);
        i = i + 1;
        proof {
            assert(lv =~= seq![65u8, 9u8, kind, 9u8] + id@ + seq![9u8]
                + crate::attr::attribute_bytes(attrs.deep_view()[i - 1]));
            assert(out.deep_view() =~~= prev + seq![lv]);
            assert(out.deep_view() =~~= attr_lines_for(kind, id@, attrs.deep_view().take(i as int)));
        }
    }
    proof {
        assert(attrs.deep_view().take(attrs@.len() as int) =~~= attrs.deep_view());
    }
    out
}

/// The record line of one link.
fn link_line_of(l: &InterGraphLink) -> (r: Vec<u8>)
    ensures
        r@ == link_line(l@),
{
    let mut out: Vec<u8> = Vec::new();
    out.push(76);
    out.push(9);
    crate::bytes::push_bytes(&mut out, &l.id);
    out.push(9);
    crate::bytes::push_bytes(&mut out, &l.source_graph);
    out.push(58);
    crate::bytes::push_bytes(&mut out, &l.source_element);
    out.push(9);
    crate::bytes::push_bytes(&mut out, &l.target_graph);
    out.push(58);
    crate::bytes::push_bytes(&mut out, &l.target_element);
    out.push(9);
    crate::bytes::push_bytes(&mut out, &l.link_type);
    push_attr_suffix(&mut out, &l.attributes);
    proof {
        assert(out@ =~= link_line(l@));
    }
    out
}

/// The record line of one group.
fn group_line_of(g: &Group) -> (r: Vec<u8>)
    ensures
        r@ == group_line(g@),
{
    match g {
        Group::Unordered { id, elements, .. } => {
            let mut out: Vec<u8> = Vec::new();
            out.push(85);
            out.push(9);
            crate::bytes::push_bytes(&mut out, id);
            out.push(9);
            let joined = crate::node::join_bytes(elements, 32);
            crate::bytes::push_bytes(&mut out, &joined);
            proof {
                assert(out@ =~= group_line(g@));
            }
            out
        },
        Group::Ordered { id, elements, .. } => {
            let mut out: Vec<u8> = Vec::new();
            out.push(80);
            out.push(9);
            crate::bytes::push_bytes(&mut out, id);
            out.push(9);
            let mut pieces: Vec<Vec<u8>> = Vec::new();
            let mut i: usize = 0;
            while i < elements.len()
                invariant
                    0 <= i <= elements@.len(),
                    pieces.deep_view() =~~= elements.deep_view().take(i as int).map_values(
                        |e: (Seq<u8>, Option<crate::group::Orientation>)|
                            crate::group::oriented_bytes(e),
                    ),
                decreases elements.len() - i,
            {
                proof {
                    assert(elements.deep_view()[i as int] == elements@[i as int]@);
                }
                let ghost prev = pieces.deep_view();
                let piece = elements[i].to_bytes();
                let ghost pv = piece@;
                pieces.push(piece);
                i = i + 1;
                proof {
                    assert(pieces.deep_view() =~~= prev + seq![pv]);
                    assert(pieces.deep_view() =~~= elements.deep_view().take(i as int).map_values(
                        |e: (Seq<u8>, Option<crate::group::Orientation>)|
                            crate::group::oriented_bytes(e),
                    ));
                }
            }
            proof {
                assert(elements.deep_view().take(elements@.len() as int)
                    =~~= elements.deep_view());
            }
            let joined = crate::node::join_bytes(&pieces, 32);
            crate::bytes::push_bytes(&mut out, &joined);
            proof {
                assert(out@ =~= group_line(g@));
            }
            out
        },
        Group::Chain { id, elements, .. } => {
            let mut out: Vec<u8> = Vec::new();
            out.push(67);
            out.push(9);
            crate::bytes::push_bytes(&mut out, id);
            out.push(9);
            let joined = crate::node::join_bytes(elements, 32);
            crate::bytes::push_bytes(&mut out, &joined);
            proof {
                assert(out@ =~= group_line(g@));
            }
            out
        },
    }
}

/// All record lines of one section.
fn section_lines_of(section: &GraphSection) -> (r: Vec<Vec<u8>>)
    requires
        section_wf(section@),
    ensures
        r.deep_view() == section_lines(section@),
{
    let ghost g = section@;
    let mut decl: Vec<u8> = Vec::new();
    decl.push(71);
    decl.push(9);
    crate::bytes::push_bytes(&mut decl, &section.id);
    push_attr_suffix(&mut decl, &section.attributes);
    let mut lines: Vec<Vec<u8>> = Vec::new();
    let ghost dv = decl@;
    lines.push(decl);
    proof {
        assert(dv =~= graph_decl_line(g));
        assert(lines.deep_view() =~~= seq![graph_decl_line(g)]);
    }
    let mut ni: usize = 0;
    proof {
        assert(node_lines(g.nodes.take(0)) =~~= Seq::<Seq<u8>>::empty());
        assert(lines.deep_view() =~~= seq![graph_decl_line(g)] + node_lines(g.nodes.take(0)));
    }
    while ni < section.nodes.len()
        invariant
            g == section@,
            0 <= ni <= g.nodes.len(),
            lines.deep_view() == seq![graph_decl_line(g)] + node_lines(g.nodes.take(ni as int)),
        decreases section.nodes.len() - ni,
    {
        proof {
            assert(section.nodes.deep_view()[ni as int] == section.nodes@[ni as int]@);
            assert(g.nodes.take(ni as int + 1).drop_last() =~= g.nodes.take(ni as int));
            assert(g.nodes.take(ni as int + 1).last() == g.nodes[ni as int]);
        }
        let ghost prev = lines.deep_view();
        let nl = section.nodes[ni].to_bytes();
        let ghost nv = nl@;
        lines.push(nl);
        ni = ni + 1;
        proof {
            assert(lines.deep_view() =~~= prev + seq![nv]);
            assert(lines.deep_view() =~~= seq![graph_decl_line(g)] + node_lines(
                g.nodes.take(ni as int),
            ));
        }
    }
    proof {
        assert(g.nodes.take(g.nodes.len() as int) =~~= g.nodes);
    }
    let mut ei: usize = 0;
    proof {
        assert(edge_lines(g, g.edges.take(0)) =~~= Seq::<Seq<u8>>::empty());
        assert(lines.deep_view() =~~= seq![graph_decl_line(g)] + node_lines(g.nodes) + edge_lines(
            g,
            g.edges.take(0),
        ));
    }
    while ei < section.edges.len()
        invariant
            g == section@,
            section_wf(g),
            0 <= ei <= g.edges.len(),
            lines.deep_view() == seq![graph_decl_line(g)] + node_lines(g.nodes) + edge_lines(
                g,
                g.edges.take(ei as int),
            ),
        decreases section.edges.len() - ei,
    {
        proof {
            assert(section.edges.deep_view()[ei as int] == section.edges@[ei as int]@);
            assert(g.edges.take(ei as int + 1).drop_last() =~= g.edges.take(ei as int));
            assert(g.edges.take(ei as int + 1).last() == g.edges[ei as int]);
            assert(0 <= g.edges[ei as int].source < g.nodes.len());
            assert(0 <= g.edges[ei as int].target < g.nodes.len());
        }
        let slot = &section.edges[ei];
        let mut el: Vec<u8> = Vec::new();
        el.push(69);
        el.push(9);
        crate::bytes::push_bytes(&mut el, &slot.data.id);
        el.push(9);
        proof {
            assert(section.nodes.deep_view()[slot.source as int] == section.nodes@[slot.source as int]@);
            assert(section.nodes.deep_view()[slot.target as int] == section.nodes@[slot.target as int]@);
        }
        crate::bytes::push_bytes(&mut el, &section.nodes[slot.source].id);
        el.push(9);
        crate::bytes::push_bytes(&mut el, &section.nodes[slot.target].id);
        el.push(9);
        let svb = slot.data.sv.to_bytes();
        crate::bytes::push_bytes(&mut el, &svb);
        let ghost prev = lines.deep_view();
        let ghost ev = el@;
        lines.push(el);
        ei = ei + 1;
        proof {
            assert(ev =~= edge_line(g, g.edges[ei - 1]));
            assert(lines.deep_view() =~~= prev + seq![ev]);
            assert(lines.deep_view() =~~= seq![graph_decl_line(g)] + node_lines(g.nodes)
                + edge_lines(g, g.edges.take(ei as int)));
        }
    }
    proof {
        assert(g.edges.take(g.edges.len() as int) =~~= g.edges);
    }
    let mut gri: usize = 0;
    proof {
        assert(group_lines(g.groups.take(0)) =~~= Seq::<Seq<u8>>::empty());
        assert(lines.deep_view() =~~= seq![graph_decl_line(g)] + node_lines(g.nodes) + edge_lines(
            g,
            g.edges,
        ) + group_lines(g.groups.take(0)));
    }
    while gri < section.groups.len()
        invariant
            g == section@,
            0 <= gri <= g.groups.len(),
            lines.deep_view() == seq![graph_decl_line(g)] + node_lines(g.nodes) + edge_lines(
                g,
                g.edges,
            ) + group_lines(g.groups.take(gri as int)),
        decreases section.groups.len() - gri,
    {
        proof {
            assert(section.groups.deep_view()[gri as int] == section.groups@[gri as int]@);
            assert(g.groups.take(gri as int + 1).drop_last() =~= g.groups.take(gri as int));
            assert(g.groups.take(gri as int + 1).last() == g.groups[gri as int]);
        }
        let ghost prev = lines.deep_view();
        let gl = group_line_of(&section.groups[gri]);
        let ghost gv = gl@;
        lines.push(gl);
        gri = gri + 1;
        proof {
            assert(lines.deep_view() =~~= prev + seq![gv]);
            assert(lines.deep_view() =~~= seq![graph_decl_line(g)] + node_lines(g.nodes)
                + edge_lines(g, g.edges) + group_lines(g.groups.take(gri as int)));
        }
    }
    proof {
        assert(g.groups.take(g.groups.len() as int) =~~= g.groups);
    }
    let ghost base = seq![graph_decl_line(g)] + node_lines(g.nodes) + edge_lines(g, g.edges)
        + group_lines(g.groups);
    let mut nai: usize = 0;
    proof {
        assert(node_attr_lines(g.nodes.take(0)) =~~= Seq::<Seq<u8>>::empty());
        assert(lines.deep_view() =~~= base + node_attr_lines(g.nodes.take(0)));
    }
    while nai < section.nodes.len()
        invariant
            g == section@,
            0 <= nai <= g.nodes.len(),
            lines.deep_view() == base + node_attr_lines(g.nodes.take(nai as int)),
        decreases section.nodes.len() - nai,
    {
        proof {
            assert(section.nodes.deep_view()[nai as int] == section.nodes@[nai as int]@);
            assert(g.nodes.take(nai as int + 1).drop_last() =~= g.nodes.take(nai as int));
            assert(g.nodes.take(nai as int + 1).last() == g.nodes[nai as int]);
        }
        let al = attr_lines_of(78, &section.nodes[nai].id, &section.nodes[nai].attributes);
        lines = crate::btsg::concat_lines(&lines, &al);
        nai = nai + 1;
        proof {
            assert(lines.deep_view() =~~= base + node_attr_lines(g.nodes.take(nai as int)));
        }
    }
    proof {
        assert(g.nodes.take(g.nodes.len() as int) =~~= g.nodes);
    }
    let mut eai: usize = 0;
    proof {
        assert(edge_attr_lines(g.edges.take(0)) =~~= Seq::<Seq<u8>>::empty());
        assert(lines.deep_view() =~~= base + node_attr_lines(g.nodes) + edge_attr_lines(
            g.edges.take(0),
        ));
    }
    while eai < section.edges.len()
        invariant
            g == section@,
            0 <= eai <= g.edges.len(),
            lines.deep_view() == base + node_attr_lines(g.nodes) + edge_attr_lines(
                g.edges.take(eai as int),
            ),
        decreases section.edges.len() - eai,
    {
        proof {
            assert(section.edges.deep_view()[eai as int] == section.edges@[eai as int]@);
            assert(g.edges.take(eai as int + 1).drop_last() =~= g.edges.take(eai as int));
            assert(g.edges.take(eai as int + 1).last() == g.edges[eai as int]);
        }
        let al = attr_lines_of(
            69,
            &section.edges[eai].data.id,
            &section.edges[eai].data.attributes,
        );
        lines = crate::btsg::concat_lines(&lines, &al);
        eai = eai + 1;
        proof {
            assert(lines.deep_view() =~~= base + node_attr_lines(g.nodes) + edge_attr_lines(
                g.edges.take(eai as int),
            ));
        }
    }
    proof {
        assert(g.edges.take(g.edges.len() as int) =~~= g.edges);
    }
    let mut gai: usize = 0;
    proof {
        assert(group_attr_lines(g.groups.take(0)) =~~= Seq::<Seq<u8>>::empty());
        assert(lines.deep_view() =~~= base + node_attr_lines(g.nodes) + edge_attr_lines(g.edges)
            + group_attr_lines(g.groups.take(0)));
    }
    while gai < section.groups.len()
        invariant
            g == section@,
            0 <= gai <= g.groups.len(),
            lines.deep_view() == base + node_attr_lines(g.nodes) + edge_attr_lines(g.edges)
                + group_attr_lines(g.groups.take(gai as int)),
        decreases section.groups.len() - gai,
    {
        proof {
            assert(section.groups.deep_view()[gai as int] == section.groups@[gai as int]@);
            assert(g.groups.take(gai as int + 1).drop_last() =~= g.groups.take(gai as int));
            assert(g.groups.take(gai as int + 1).last() == g.groups[gai as int]);
        }
        let kind: u8;
        let al: Vec<Vec<u8>>;
        match &section.groups[gai] {
            Group::Unordered { id, attributes, .. } => {
                al = attr_lines_of(85, id, attributes);
            },
            Group::Ordered { id, attributes, .. } => {
                al = attr_lines_of(80, id, attributes);
            },
            Group::Chain { id, attributes, .. } => {
                al = attr_lines_of(67, id, attributes);
            },
        }
        lines = crate::btsg::concat_lines(&lines, &al);
        gai = gai + 1;
        proof {
            assert(lines.deep_view() =~~= base + node_attr_lines(g.nodes) + edge_attr_lines(
                g.edges,
            ) + group_attr_lines(g.groups.take(gai as int)));
        }
    }
    proof {
        assert(g.groups.take(g.groups.len() as int) =~~= g.groups);
        assert(lines.deep_view() =~~= section_lines(g));
    }
    lines
}

/// When one section of a well-formed document is replaced by another with
/// the same identifier that is itself well-formed, the document stays
/// well-formed.
proof fn lemma_doc_wf_one_changed(d0: DocV, d1: DocV, gi: int)
    requires
        doc_wf(d0),
        d1.graphs.len() == d0.graphs.len(),
        d1.current == d0.current,
        forall|j: int| 0 <= j < d0.graphs.len() && j != gi ==> d1.graphs[j] == d0.graphs[j],
        0 <= gi < d0.graphs.len(),
        d1.graphs[gi].id == d0.graphs[gi].id,
        section_wf(d1.graphs[gi]),
    ensures
        doc_wf(d1),
{
    assert forall|i: int, j: int|
        0 <= i < j < d1.graphs.len() implies d1.graphs[i].id != d1.graphs[j].id by {
        assert(d1.graphs[i].id == d0.graphs[i].id);
        assert(d1.graphs[j].id == d0.graphs[j].id);
    }
    assert forall|i: int| 0 <= i < d1.graphs.len() implies section_wf(#[trigger] d1.graphs[i]) by {
        if i != gi {
            assert(d1.graphs[i] == d0.graphs[i]);
        }
    }
}

} // verus!
