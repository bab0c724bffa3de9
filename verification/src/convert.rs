//! Downstream emitters over the traversal: the FASTA and GTF text of the
//! read-continuity paths.  These consume the public query surface; the
//! logic they rest on (traversal, node model) carries the contracts.
use vstd::prelude::*;

use crate::bytes::{push_bytes, u64_dec};
use crate::error::TsgError;
use crate::graph::TSGraph;
use crate::hashing::to_hash_identifier;
use crate::node::join_bytes;
use crate::path::TSGPath;
use crate::section::GraphSection;

verus! {

/// The node identifiers a walk visits, in walk order.
pub open spec fn path_node_ids(g: crate::section::SectionV, nodes: Seq<usize>) -> Seq<Seq<u8>> {
    Seq::new(nodes.len(), |i: int| g.nodes[nodes[i] as int].id)
}

impl TSGPath {
    /// The hash-derived identifier of this path: `P.` followed by the
    /// 16-byte hash identifier of the dash-joined node identifiers.
    pub fn id(&self, section: &GraphSection) -> (r: Result<Vec<u8>, TsgError>)
        ensures
            match r {
                Ok(v) => self@.nodes.len() >= 1 && (forall|k: int|
                    0 <= k < self@.nodes.len() ==> #[trigger] self@.nodes[k]
                        < section@.nodes.len()) && v@ == seq![80u8, 46u8]
                    + crate::hashing::hash_ident(
                    crate::bytes::join_on(path_node_ids(section@, self@.nodes), 45),
                    16,
                ),
                Err(_) => self@.nodes.len() == 0 || exists|k: int|
                    0 <= k < self@.nodes.len() && #[trigger] self@.nodes[k]
                        >= section@.nodes.len(),
            },
    {
        if self.nodes.len() == 0 {
            return Err(TsgError::Validation(Vec::new()));
        }
        let mut ids: Vec<Vec<u8>> = Vec::new();
        let mut i: usize = 0;
        while i < self.nodes.len()
            invariant
                0 <= i <= self@.nodes.len(),
                forall|k: int|
                    0 <= k < i ==> #[trigger] self@.nodes[k] < section@.nodes.len(),
                ids.deep_view() =~~= path_node_ids(section@, self@.nodes.take(i as int)),
            decreases self.nodes.len() - i,
        {
            let idx = self.nodes[i];
            if idx >= section.nodes.len() {
                proof {
                    assert(self@.nodes[i as int] >= section@.nodes.len());
                }
                return Err(TsgError::NotFound(Vec::new()));
            }
            proof {
                assert(section.nodes.deep_view()[idx as int] == section.nodes@[idx as int]@);
            }
            let ghost prev = ids.deep_view();
            let copy = crate::bytes::clone_bytes(&section.nodes[idx].id);
            let ghost cv = copy@;
            ids.push(copy);
            i = i + 1;
            proof {
                assert(ids.deep_view() =~~= prev + seq![cv]);
                assert(ids.deep_view() =~~= path_node_ids(section@, self@.nodes.take(i as int)));
            }
        }
        proof {
            assert(self@.nodes.take(self@.nodes.len() as int) =~= self@.nodes);
            assert(ids.deep_view() =~~= path_node_ids(section@, self@.nodes));
        }
        let joined = join_bytes(&ids, 45);
        let digest = match to_hash_identifier(&joined, Some(16)) {
            Ok(d) => d,
            Err(e) => {
                return Err(e);
            },
        };
        let mut out: Vec<u8> = Vec::new();
        out.push(80);
        out.push(46);
        push_bytes(&mut out, &digest);
        proof {
            assert(out@ =~= seq![80u8, 46u8] + crate::hashing::hash_ident(
                crate::bytes::join_on(path_node_ids(section@, self@.nodes), 45),
                16,
            ));
        }
        Ok(out)
    }

    /// The concatenated raw sequence of the path's nodes; an error when a
    /// node is missing or carries no sequence.
    pub fn to_fa(&self, section: &GraphSection) -> (r: Result<Vec<u8>, TsgError>)
        ensures
            match r {
                Ok(_) => forall|k: int|
                    0 <= k < self@.nodes.len() ==> #[trigger] self@.nodes[k]
                        < section@.nodes.len() && section@.nodes[self@.nodes[k] as int].sequence
                        is Some,
                Err(_) => true,
            },
    {
        let mut seq_out: Vec<u8> = Vec::new();
        let mut i: usize = 0;
        while i < self.nodes.len()
            invariant
                0 <= i <= self@.nodes.len(),
                forall|k: int|
                    0 <= k < i ==> #[trigger] self@.nodes[k] < section@.nodes.len()
                        && section@.nodes[self@.nodes[k] as int].sequence is Some,
            decreases self.nodes.len() - i,
        {
            let idx = self.nodes[i];
            if idx >= section.nodes.len() {
                return Err(TsgError::NotFound(Vec::new()));
            }
            proof {
                assert(section.nodes.deep_view()[idx as int] == section.nodes@[idx as int]@);
            }
            match &section.nodes[idx].sequence {
                Some(sq) => {
                    push_bytes(&mut seq_out, sq);
                },
                None => {
                    return Err(TsgError::NotFound(Vec::new()));
                },
            }
            i = i + 1;
        }
        Ok(seq_out)
    }
}

/// A three-digit, zero-padded decimal, as exon numbering uses.
fn pad3(n: u64) -> (r: Vec<u8>) {
    let mut out: Vec<u8> = Vec::new();
    if n < 10 {
        out.push(48);
        out.push(48);
        let d = u64_dec(n);
        push_bytes(&mut out, &d);
    } else if n < 100 {
        out.push(48);
        let d = u64_dec(n);
        push_bytes(&mut out, &d);
    } else {
        let d = u64_dec(n);
        push_bytes(&mut out, &d);
    }
    out
}

/// Push one literal byte sequence built from pushes.
fn push_lit_tab_tsg(out: &mut Vec<u8>)
    ensures
        final(out)@ == old(out)@ + seq![9u8, 116u8, 115u8, 103u8, 9u8],
{
    out.push(9);
    out.push(116);
    out.push(115);
    out.push(103);
    out.push(9);
    proof {
        assert(out@ =~= old(out)@ + seq![9u8, 116u8, 115u8, 103u8, 9u8]);
    }
}

/// The FASTA text of every read-continuity path of the document: for each
/// path a `>` header naming the path, then its concatenated node
/// sequences.
pub fn to_fa(doc: &TSGraph) -> (r: Result<Vec<u8>, TsgError>)
    requires
        crate::graph::doc_wf(doc@),
    ensures
        doc@.graphs.len() == 0 ==> (r matches Ok(v) && v@ == Seq::<u8>::empty()),
{
    let mut out: Vec<u8> = Vec::new();
    let mut gi: usize = 0;
    while gi < doc.graphs.len()
        invariant
            crate::graph::doc_wf(doc@),
            0 <= gi <= doc@.graphs.len(),
            doc@.graphs.len() == 0 ==> out@.len() == 0,
        decreases doc.graphs.len() - gi,
    {
        proof {
            assert(doc.graphs.deep_view()[gi as int] == doc.graphs@[gi as int]@);
            assert(doc@.graphs.len() == doc.graphs@.len());
            assert(crate::section::section_wf(doc@.graphs[gi as int]));
        }
        let section = &doc.graphs[gi];
        let paths = match section.traverse() {
            Ok(p) => p,
            Err(e) => {
                return Err(e);
            },
        };
        let mut pi: usize = 0;
        while pi < paths.len()
            invariant
                0 <= pi <= paths@.len(),
                doc@.graphs.len() > 0,
            decreases paths.len() - pi,
        {
            let pid = match paths[pi].id(section) {
                Ok(v) => v,
                Err(e) => {
                    return Err(e);
                },
            };
            let sq = match paths[pi].to_fa(section) {
                Ok(v) => v,
                Err(e) => {
                    return Err(e);
                },
            };
            out.push(62);
            push_bytes(&mut out, &pid);
            out.push(10);
            push_bytes(&mut out, &sq);
            out.push(10);
            pi = pi + 1;
        }
        gi = gi + 1;
    }
    Ok(out)
}

/// The GTF text of every read-continuity path of the document: per path a
/// transcript line, then one exon line per exon of each node on the path,
/// every line carrying the path as `transcript_id` and the section as
/// `gene_id`.
pub fn to_gtf(doc: &TSGraph) -> (r: Result<Vec<u8>, TsgError>)
    requires
        crate::graph::doc_wf(doc@),
    ensures
        doc@.graphs.len() == 0 ==> (r matches Ok(v) && v@ == Seq::<u8>::empty()),
{
    let mut out: Vec<u8> = Vec::new();
    let mut gi: usize = 0;
    while gi < doc.graphs.len()
        invariant
            crate::graph::doc_wf(doc@),
            0 <= gi <= doc@.graphs.len(),
            doc@.graphs.len() == 0 ==> out@.len() == 0,
        decreases doc.graphs.len() - gi,
    {
        proof {
            assert(doc.graphs.deep_view()[gi as int] == doc.graphs@[gi as int]@);
            assert(doc@.graphs.len() == doc.graphs@.len());
            assert(crate::section::section_wf(doc@.graphs[gi as int]));
        }
        let section = &doc.graphs[gi];
        let paths = match section.traverse() {
            Ok(p) => p,
            Err(e) => {
                return Err(e);
            },
        };
        let mut pi: usize = 0;
        while pi < paths.len()
            invariant
                crate::graph::doc_wf(doc@),
                doc@.graphs.len() > 0,
                gi < doc@.graphs.len(),
                section@ == doc@.graphs[gi as int],
                0 <= pi <= paths@.len(),
            decreases paths.len() - pi,
        {
            let pid = match paths[pi].id(section) {
                Ok(v) => v,
                Err(e) => {
                    return Err(e);
                },
            };
            // Transcript line: placeholder coordinate fields, then the
            // shared attributes.
            out.push(46);
            push_lit_tab_tsg(&mut out);
            push_word(&mut out, 116, 114, 97, 110);  // tran
            push_word(&mut out, 115, 99, 114, 105);  // scri
            out.push(112);
            out.push(116);  // pt
            let mut fill: usize = 0;
            while fill < 6
                invariant
                    0 <= fill <= 6,
                decreases 6 - fill,
            {
                out.push(9);
                out.push(46);
                fill = fill + 1;
            }
            out.push(9);
            push_attr_pair(&mut out, &pid, section);
            out.push(10);
            // Exon lines for each node on the path.
            let path = &paths[pi];
            let mut ni: usize = 0;
            while ni < path.nodes.len()
                invariant
                    crate::graph::doc_wf(doc@),
                    gi < doc@.graphs.len(),
                    section@ == doc@.graphs[gi as int],
                    0 <= ni <= path@.nodes.len(),
                decreases path.nodes.len() - ni,
            {
                let idx = path.nodes[ni];
                if idx >= section.nodes.len() {
                    return Err(TsgError::NotFound(Vec::new()));
                }
                let node = &section.nodes[idx];
                let mut ei: usize = 0;
                while ei < node.exons.exons.len()
                    invariant
                        0 <= ei <= node.exons.exons@.len(),
                    decreases node.exons.exons.len() - ei,
                {
                    let iv = node.exons.exons[ei];
                    push_bytes(&mut out, &node.reference_id);
                    push_lit_tab_tsg(&mut out);
                    push_word(&mut out, 101, 120, 111, 110);  // exon
                    out.push(9);
                    let sb = u64_dec(iv.start);
                    push_bytes(&mut out, &sb);
                    out.push(9);
                    let eb = u64_dec(iv.end);
                    push_bytes(&mut out, &eb);
                    out.push(9);
                    out.push(46);
                    out.push(9);
                    out.push(
                        match node.strand {
                            crate::node::Strand::Forward => 43,
                            crate::node::Strand::Reverse => 45,
                        },
                    );
                    out.push(9);
                    out.push(46);
                    out.push(9);
                    // exon_id "NNN";
                    push_word(&mut out, 101, 120, 111, 110);  // exon
                    push_word(&mut out, 95, 105, 100, 32);  // _id<space>
                    out.push(34);
                    let num = if ei < 1000000 {
                        pad3((ei + 1) as u64)
                    } else {
                        pad3(0)
                    };
                    push_bytes(&mut out, &num);
                    out.push(34);
                    out.push(59);
                    out.push(32);
                    push_attr_pair(&mut out, &pid, section);
                    out.push(10);
                    ei = ei + 1;
                }
                ni = ni + 1;
            }
            pi = pi + 1;
        }
        gi = gi + 1;
    }
    Ok(out)
}

/// Push four bytes.
fn push_word(out: &mut Vec<u8>, a: u8, b: u8, c: u8, d: u8)
    ensures
        final(out)@ == old(out)@ + seq![a, b, c, d],
{
    out.push(a);
    out.push(b);
    out.push(c);
    out.push(d);
    proof {
        assert(out@ =~= old(out)@ + seq![a, b, c, d]);
    }
}

/// Push `transcript_id "<pid>"; gene_id "<section id>"; `.
fn push_attr_pair(out: &mut Vec<u8>, pid: &Vec<u8>, section: &GraphSection) {
    push_word(out, 116, 114, 97, 110);  // tran
    push_word(out, 115, 99, 114, 105);  // scri
    push_word(out, 112, 116, 95, 105);  // pt_i
    out.push(100);
    out.push(32);  // d<space>
    out.push(34);
    push_bytes(out, pid);
    out.push(34);
    out.push(59);
    out.push(32);
    push_word(out, 103, 101, 110, 101);  // gene
    push_word(out, 95, 105, 100, 32);  // _id<space>
    out.push(34);
    push_bytes(out, &section.id);
    out.push(34);
    out.push(59);
    out.push(32);
}

} // verus!
