//! Edges of the transcript segment graph: a structural-variant descriptor
//! between two breakpoints, written `ref1,ref2,bp1,bp2,type`, plus
//! attributes.
use vstd::prelude::*;

use crate::attr::Attribute;
use crate::bytes::{dec_rep, dec_value, is_dec_digits, parse_u64, push_bytes, split_all, split_on, u64_dec};
use crate::error::TsgError;

verus! {

/// Mathematical image of a structural variant.
pub ghost struct SvV {
    pub reference_name1: Seq<u8>,
    pub reference_name2: Seq<u8>,
    pub breakpoint1: u64,
    pub breakpoint2: u64,
    pub sv_type: Seq<u8>,
}

/// A genomic rearrangement between two reference positions.
#[derive(Clone, Debug)]
pub struct StructuralVariant {
    pub reference_name1: Vec<u8>,
    pub reference_name2: Vec<u8>,
    pub breakpoint1: u64,
    pub breakpoint2: u64,
    pub sv_type: Vec<u8>,
}

impl View for StructuralVariant {
    type V = SvV;

    open spec fn view(&self) -> SvV {
        SvV {
            reference_name1: self.reference_name1@,
            reference_name2: self.reference_name2@,
            breakpoint1: self.breakpoint1,
            breakpoint2: self.breakpoint2,
            sv_type: self.sv_type@,
        }
    }
}

impl DeepView for StructuralVariant {
    type V = SvV;

    open spec fn deep_view(&self) -> SvV {
        self.view()
    }
}

/// What `ref1,ref2,bp1,bp2,type` text denotes: exactly five comma-separated
/// pieces whose two middle pieces are decimal numbers.
pub open spec fn parse_sv_spec(s: Seq<u8>) -> Option<SvV> {
    let parts = split_on(s, 44);
    if parts.len() != 5 {
        None
    } else if !is_dec_digits(parts[2]) || dec_value(parts[2]) > u64::MAX {
        None
    } else if !is_dec_digits(parts[3]) || dec_value(parts[3]) > u64::MAX {
        None
    } else {
        Some(
            SvV {
                reference_name1: parts[0],
                reference_name2: parts[1],
                breakpoint1: dec_value(parts[2]) as u64,
                breakpoint2: dec_value(parts[3]) as u64,
                sv_type: parts[4],
            },
        )
    }
}

/// The `ref1,ref2,bp1,bp2,type` text of a structural variant.
pub open spec fn sv_bytes(sv: SvV) -> Seq<u8> {
    sv.reference_name1 + seq![44u8] + sv.reference_name2 + seq![44u8] + dec_rep(
        sv.breakpoint1 as nat,
    ) + seq![44u8] + dec_rep(sv.breakpoint2 as nat) + seq![44u8] + sv.sv_type
}

impl StructuralVariant {
    /// Parse `ref1,ref2,bp1,bp2,type`.
    pub fn parse(s: &Vec<u8>) -> (r: Result<StructuralVariant, TsgError>)
        ensures
            match r {
                Ok(sv) => parse_sv_spec(s@) == Some(sv@),
                Err(e) => parse_sv_spec(s@) is None && e is InvalidRecord,
            },
    {
        let parts = split_all(s, 44);
        if parts.len() != 5 {
            return Err(TsgError::InvalidRecord(Vec::new()));
        }
        proof {
            assert(parts.deep_view()[0] == parts@[0]@);
            assert(parts.deep_view()[1] == parts@[1]@);
            assert(parts.deep_view()[2] == parts@[2]@);
            assert(parts.deep_view()[3] == parts@[3]@);
            assert(parts.deep_view()[4] == parts@[4]@);
        }
        let breakpoint1 = match parse_u64(&parts[2]) {
            Some(v) => v,
            None => {
                return Err(TsgError::InvalidRecord(Vec::new()));
            },
        };
        let breakpoint2 = match parse_u64(&parts[3]) {
            Some(v) => v,
            None => {
                return Err(TsgError::InvalidRecord(Vec::new()));
            },
        };
        let ghost pdv = parts.deep_view();
        let mut parts = parts;
        let sv_type = parts.remove(4);
        let reference_name2 = parts.remove(1);
        let reference_name1 = parts.remove(0);
        let sv = StructuralVariant {
            reference_name1,
            reference_name2,
            breakpoint1,
            breakpoint2,
            sv_type,
        };
        proof {
            assert(sv.reference_name1@ == pdv[0]);
            assert(sv.reference_name2@ == pdv[1]);
            assert(sv.sv_type@ == pdv[4]);
            assert(parse_sv_spec(s@) == Some(sv@));
        }
        Ok(sv)
    }

    /// The `ref1,ref2,bp1,bp2,type` text of this structural variant.
    pub fn to_bytes(&self) -> (r: Vec<u8>)
        ensures
            r@ == sv_bytes(self@),
    {
        let mut out: Vec<u8> = Vec::new();
        push_bytes(&mut out, &self.reference_name1);
        out.push(44);
        push_bytes(&mut out, &self.reference_name2);
        out.push(44);
        let b1 = u64_dec(self.breakpoint1);
        push_bytes(&mut out, &b1);
        out.push(44);
        let b2 = u64_dec(self.breakpoint2);
        push_bytes(&mut out, &b2);
        out.push(44);
        push_bytes(&mut out, &self.sv_type);
        proof {
            assert(out@ =~= sv_bytes(self@));
        }
        out
    }
}

/// Mathematical image of an edge.
pub ghost struct EdgeV {
    pub id: Seq<u8>,
    pub sv: SvV,
    pub attributes: Seq<(Seq<u8>, u8, Seq<u8>)>,
}

/// One edge of a graph section.
#[derive(Clone, Debug)]
pub struct EdgeData {
    pub id: Vec<u8>,
    pub sv: StructuralVariant,
    pub attributes: Vec<Attribute>,
}

impl View for EdgeData {
    type V = EdgeV;

    open spec fn view(&self) -> EdgeV {
        EdgeV { id: self.id@, sv: self.sv@, attributes: self.attributes.deep_view() }
    }
}

impl DeepView for EdgeData {
    type V = EdgeV;

    open spec fn deep_view(&self) -> EdgeV {
        self.view()
    }
}

impl EdgeData {
    /// An edge holding nothing but its identifier, with an empty descriptor:
    /// what a chain names before the edge is declared.
    pub fn placeholder(id: Vec<u8>) -> (r: EdgeData)
        ensures
            r@ == (EdgeV {
                id: id@,
                sv: SvV {
                    reference_name1: Seq::empty(),
                    reference_name2: Seq::empty(),
                    breakpoint1: 0,
                    breakpoint2: 0,
                    sv_type: Seq::empty(),
                },
                attributes: Seq::empty(),
            }),
    {
        let r = EdgeData {
            id,
            sv: StructuralVariant {
                reference_name1: Vec::new(),
                reference_name2: Vec::new(),
                breakpoint1: 0,
                breakpoint2: 0,
                sv_type: Vec::new(),
            },
            attributes: Vec::new(),
        };
        proof {
            assert(r.attributes.deep_view() =~= Seq::<(Seq<u8>, u8, Seq<u8>)>::empty());
        }
        r
    }
}

} // verus!
