//! Document headers: tag/value pairs written `H tag value`.
use vstd::prelude::*;

use crate::bytes::push_bytes;

verus! {

/// One document header.
#[derive(Clone, Debug)]
pub struct Header {
    pub tag: Vec<u8>,
    pub value: Vec<u8>,
}

impl View for Header {
    type V = (Seq<u8>, Seq<u8>);

    open spec fn view(&self) -> (Seq<u8>, Seq<u8>) {
        (self.tag@, self.value@)
    }
}

impl DeepView for Header {
    type V = (Seq<u8>, Seq<u8>);

    open spec fn deep_view(&self) -> (Seq<u8>, Seq<u8>) {
        self.view()
    }
}

/// The `H tag value` record line of a header, tab-separated.
pub open spec fn header_bytes(h: (Seq<u8>, Seq<u8>)) -> Seq<u8> {
    seq![72u8, 9u8] + h.0 + seq![9u8] + h.1
}

impl Header {
    /// The `H` record line of this header.
    pub fn to_bytes(&self) -> (r: Vec<u8>)
        ensures
            r@ == header_bytes(self@),
    {
        let mut out: Vec<u8> = Vec::new();
        out.push(72);
        out.push(9);
        push_bytes(&mut out, &self.tag);
        out.push(9);
        push_bytes(&mut out, &self.value);
        proof {
            assert(out@ =~= header_bytes(self@));
        }
        out
    }
}

} // verus!
