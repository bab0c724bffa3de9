//! Groups of graph elements: unordered sets, ordered (oriented) sequences,
//! and chains of alternating node and edge identifiers.
use vstd::prelude::*;

use crate::attr::Attribute;

verus! {

/// Orientation of an element inside an ordered group.
#[derive(Clone, Copy, Debug, PartialEq, Eq, Structural)]
pub enum Orientation {
    Forward,
    Reverse,
}

/// An element identifier with an optional orientation suffix (`+` or `-`).
#[derive(Clone, Debug)]
pub struct OrientedElement {
    pub id: Vec<u8>,
    pub orientation: Option<Orientation>,
}

impl View for OrientedElement {
    type V = (Seq<u8>, Option<Orientation>);

    open spec fn view(&self) -> (Seq<u8>, Option<Orientation>) {
        (self.id@, self.orientation)
    }
}

impl DeepView for OrientedElement {
    type V = (Seq<u8>, Option<Orientation>);

    open spec fn deep_view(&self) -> (Seq<u8>, Option<Orientation>) {
        self.view()
    }
}

/// What an oriented-element token denotes: a trailing `+` or `-` is the
/// orientation, and any other text is an identifier without one.
pub open spec fn parse_oriented_spec(s: Seq<u8>) -> (Seq<u8>, Option<Orientation>) {
    if s.len() > 0 && s.last() == 43 {
        (s.drop_last(), Some(Orientation::Forward))
    } else if s.len() > 0 && s.last() == 45 {
        (s.drop_last(), Some(Orientation::Reverse))
    } else {
        (s, None)
    }
}

impl OrientedElement {
    /// Parse one oriented-element token; every token is accepted.
    pub fn parse(s: &Vec<u8>) -> (r: OrientedElement)
        ensures
            r@ == parse_oriented_spec(s@),
    {
        if s.len() > 0 {
            let last = s[s.len() - 1];
            if last == 43 || last == 45 {
                let mut id = crate::bytes::clone_bytes(s);
                let ghost before = id@;
                id.pop();
                proof {
                    assert(id@ =~= before.drop_last());
                }
                let orientation = if last == 43 {
                    Some(Orientation::Forward)
                } else {
                    Some(Orientation::Reverse)
                };
                return OrientedElement { id, orientation };
            }
        }
        let id = crate::bytes::clone_bytes(s);
        OrientedElement { id, orientation: None }
    }

    /// The token of this element: the identifier with its suffix.
    pub fn to_bytes(&self) -> (r: Vec<u8>)
        ensures
            r@ == oriented_bytes(self@),
    {
        let mut out = crate::bytes::clone_bytes(&self.id);
        match self.orientation {
            Some(Orientation::Forward) => out.push(43),
            Some(Orientation::Reverse) => out.push(45),
            None => {},
        }
        proof {
            assert(out@ =~= oriented_bytes(self@));
        }
        out
    }
}

/// The token of an oriented element.
pub open spec fn oriented_bytes(e: (Seq<u8>, Option<Orientation>)) -> Seq<u8> {
    match e.1 {
        Some(Orientation::Forward) => e.0 + seq![43u8],
        Some(Orientation::Reverse) => e.0 + seq![45u8],
        None => e.0,
    }
}

/// Mathematical image of a group.
pub ghost enum GroupV {
    Unordered { id: Seq<u8>, elements: Seq<Seq<u8>>, attributes: Seq<(Seq<u8>, u8, Seq<u8>)> },
    Ordered {
        id: Seq<u8>,
        elements: Seq<(Seq<u8>, Option<Orientation>)>,
        attributes: Seq<(Seq<u8>, u8, Seq<u8>)>,
    },
    Chain { id: Seq<u8>, elements: Seq<Seq<u8>>, attributes: Seq<(Seq<u8>, u8, Seq<u8>)> },
}

impl GroupV {
    /// The identifier, whatever the variant.
    pub open spec fn id(self) -> Seq<u8> {
        match self {
            GroupV::Unordered { id, .. } => id,
            GroupV::Ordered { id, .. } => id,
            GroupV::Chain { id, .. } => id,
        }
    }
}

/// A named group of graph elements.
#[derive(Clone, Debug)]
pub enum Group {
    /// An unordered set of element identifiers (`U` record).
    Unordered { id: Vec<u8>, elements: Vec<Vec<u8>>, attributes: Vec<Attribute> },
    /// An ordered sequence of oriented elements (`P` record).
    Ordered { id: Vec<u8>, elements: Vec<OrientedElement>, attributes: Vec<Attribute> },
    /// A strictly alternating node/edge/node sequence (`C` record).
    Chain { id: Vec<u8>, elements: Vec<Vec<u8>>, attributes: Vec<Attribute> },
}

impl View for Group {
    type V = GroupV;

    open spec fn view(&self) -> GroupV {
        match self {
            Group::Unordered { id, elements, attributes } => GroupV::Unordered {
                id: id@,
                elements: elements.deep_view(),
                attributes: attributes.deep_view(),
            },
            Group::Ordered { id, elements, attributes } => GroupV::Ordered {
                id: id@,
                elements: elements.deep_view(),
                attributes: attributes.deep_view(),
            },
            Group::Chain { id, elements, attributes } => GroupV::Chain {
                id: id@,
                elements: elements.deep_view(),
                attributes: attributes.deep_view(),
            },
        }
    }
}

impl DeepView for Group {
    type V = GroupV;

    open spec fn deep_view(&self) -> GroupV {
        self.view()
    }
}

impl Group {
    /// The identifier of this group.
    pub fn id(&self) -> (r: &Vec<u8>)
        ensures
            r@ == self@.id(),
    {
        match self {
            Group::Unordered { id, .. } => id,
            Group::Ordered { id, .. } => id,
            Group::Chain { id, .. } => id,
        }
    }

    /// Whether this group is a chain.
    pub fn is_chain(&self) -> (r: bool)
        ensures
            r == (self@ is Chain),
    {
        match self {
            Group::Chain { .. } => true,
            _ => false,
        }
    }
}

} // verus!
