//! Typed attributes attached to nodes, edges, groups, graph sections and
//! links: a tag, a one-byte type code and a raw value, written `tag:type:value`.
use vstd::prelude::*;

use crate::bytes::{dec_value, eq_bytes, find_idx, is_dec_digits, parse_u64, split_once, subvec};
use crate::error::TsgError;

verus! {

/// The attribute type codes the grammar accepts.
pub open spec fn valid_attr_type(t: u8) -> bool {
    t == 105 || t == 102 || t == 90 || t == 74 || t == 72 || t == 66
}

/// One typed attribute.
#[derive(Clone, Debug)]
pub struct Attribute {
    pub tag: Vec<u8>,
    pub attribute_type: u8,
    pub value: Vec<u8>,
}

/// What `tag:type:value` text denotes: the tag, the type code and the raw
/// value, or nothing when the text is not of that shape.  The type code is
/// the first byte of the middle piece, and anything after it is tolerated.
pub open spec fn parse_attribute_spec(s: Seq<u8>) -> Option<(Seq<u8>, u8, Seq<u8>)> {
    let i = find_idx(s, 58);
    if i == s.len() {
        None
    } else {
        let tag = s.take(i);
        let rest = s.skip(i + 1);
        let j = find_idx(rest, 58);
        if j == rest.len() {
            None
        } else {
            let tp = rest.take(j);
            let value = rest.skip(j + 1);
            if tp.len() == 0 {
                None
            } else if !valid_attr_type(tp[0]) {
                None
            } else {
                Some((tag, tp[0], value))
            }
        }
    }
}

impl Attribute {
    /// Parse `tag:type:value`; rejects text without two separators, an empty
    /// type piece, or an unknown type code.
    pub fn parse(s: &Vec<u8>) -> (r: Result<Attribute, TsgError>)
        ensures
            match r {
                Ok(a) => parse_attribute_spec(s@) == Some((a.tag@, a.attribute_type, a.value@)),
                Err(e) => parse_attribute_spec(s@) is None && e is InvalidRecord,
            },
    {
        let parts = split_once(s, 58);
        match parts {
            None => Err(TsgError::InvalidRecord(Vec::new())),
            Some((tag, rest)) => {
                match split_once(&rest, 58) {
                    None => Err(TsgError::InvalidRecord(Vec::new())),
                    Some((tp, value)) => {
                        if tp.len() == 0 {
                            return Err(TsgError::InvalidRecord(Vec::new()));
                        }
                        let t = tp[0];
                        if t == 105 || t == 102 || t == 90 || t == 74 || t == 72 || t == 66 {
                            Ok(Attribute { tag, attribute_type: t, value })
                        } else {
                            Err(TsgError::InvalidRecord(Vec::new()))
                        }
                    },
                }
            },
        }
    }

    /// The `tag:type:value` text of this attribute.
    pub fn to_bytes(&self) -> (r: Vec<u8>)
        ensures
            r@ == attribute_bytes(self@),
    {
        let mut out: Vec<u8> = Vec::new();
        let mut i: usize = 0;
        while i < self.tag.len()
            invariant
                0 <= i <= self.tag@.len(),
                out@ =~= self.tag@.take(i as int),
            decreases self.tag.len() - i,
        {
            out.push(self.tag[i]);
            i = i + 1;
            proof {
                assert(out@ =~= self.tag@.take(i as int));
            }
        }
        proof {
            assert(out@ =~= self.tag@);
        }
        out.push(58);
        out.push(self.attribute_type);
        out.push(58);
        let mut j: usize = 0;
        while j < self.value.len()
            invariant
                0 <= j <= self.value@.len(),
                out@ =~= self.tag@ + seq![58u8, self.attribute_type, 58u8] + self.value@.take(
                    j as int,
                ),
            decreases self.value.len() - j,
        {
            out.push(self.value[j]);
            j = j + 1;
            proof {
                assert(out@ =~= self.tag@ + seq![58u8, self.attribute_type, 58u8]
                    + self.value@.take(j as int));
            }
        }
        proof {
            assert(out@ =~= attribute_bytes(self@));
        }
        out
    }

    /// The integer an `i`-typed attribute holds; an error for another type
    /// or when the value is not a decimal integer that fits in `i32`.
    pub fn as_int(&self) -> (r: Result<i32, TsgError>)
        ensures
            match r {
                Ok(n) => self.attribute_type == 105 && parse_i32_spec(self.value@) == Some(n),
                Err(_) => self.attribute_type != 105 || parse_i32_spec(self.value@) is None,
            },
    {
        if self.attribute_type != 105 {
            return Err(TsgError::InvalidRecord(Vec::new()));
        }
        if self.value.len() > 0 && self.value[0] == 45 {
            let digits = subvec(&self.value, 1, self.value.len());
            proof {
                assert(digits@ =~= self.value@.skip(1));
            }
            match parse_u64(&digits) {
                Some(n) => {
                    if n <= 0x8000_0000u64 {
                        let r: i32 = if n == 0x8000_0000u64 {
                            i32::MIN
                        } else {
                            -(n as i32)
                        };
                        Ok(r)
                    } else {
                        Err(TsgError::InvalidRecord(Vec::new()))
                    }
                },
                None => Err(TsgError::InvalidRecord(Vec::new())),
            }
        } else {
            match parse_u64(&self.value) {
                Some(n) => {
                    if n <= 0x7fff_ffffu64 {
                        Ok(n as i32)
                    } else {
                        Err(TsgError::InvalidRecord(Vec::new()))
                    }
                },
                None => Err(TsgError::InvalidRecord(Vec::new())),
            }
        }
    }

    /// The raw value of a `Z`-typed attribute; an error for another type.
    pub fn as_string(&self) -> (r: Result<&Vec<u8>, TsgError>)
        ensures
            match r {
                Ok(v) => self.attribute_type == 90 && v@ == self.value@,
                Err(_) => self.attribute_type != 90,
            },
    {
        if self.attribute_type != 90 {
            return Err(TsgError::InvalidRecord(Vec::new()));
        }
        Ok(&self.value)
    }
}

impl View for Attribute {
    type V = (Seq<u8>, u8, Seq<u8>);

    open spec fn view(&self) -> (Seq<u8>, u8, Seq<u8>) {
        (self.tag@, self.attribute_type, self.value@)
    }
}

impl DeepView for Attribute {
    type V = (Seq<u8>, u8, Seq<u8>);

    open spec fn deep_view(&self) -> (Seq<u8>, u8, Seq<u8>) {
        self.view()
    }
}

/// The `tag:type:value` text of an attribute.
pub open spec fn attribute_bytes(a: (Seq<u8>, u8, Seq<u8>)) -> Seq<u8> {
    a.0 + seq![58u8, a.1, 58u8] + a.2
}

/// The signed 32-bit integer that decimal text denotes, with an optional
/// leading minus sign.
pub open spec fn parse_i32_spec(s: Seq<u8>) -> Option<i32> {
    if s.len() > 0 && s[0] == 45 {
        let digits = s.skip(1);
        if is_dec_digits(digits) && dec_value(digits) <= 0x8000_0000 {
            Some((0 - dec_value(digits)) as i32)
        } else {
            None
        }
    } else {
        if is_dec_digits(s) && dec_value(s) <= 0x7fff_ffff {
            Some(dec_value(s) as i32)
        } else {
            None
        }
    }
}

/// Tags of a list of attributes, in order.
pub open spec fn attr_tags(attrs: Seq<(Seq<u8>, u8, Seq<u8>)>) -> Seq<Seq<u8>> {
    attrs.map_values(|a: (Seq<u8>, u8, Seq<u8>)| a.0)
}

/// Whether no two attributes in the list share a tag.
pub open spec fn attr_tags_unique(attrs: Seq<(Seq<u8>, u8, Seq<u8>)>) -> bool {
    forall|i: int, j: int|
        0 <= i < j < attrs.len() ==> #[trigger] attrs[i].0 != #[trigger] attrs[j].0
}

/// Position of the attribute carrying `tag`, or the length when absent.
pub open spec fn attr_find(attrs: Seq<(Seq<u8>, u8, Seq<u8>)>, tag: Seq<u8>) -> int
    decreases attrs.len(),
{
    if attrs.len() == 0 {
        0
    } else if attrs[0].0 == tag {
        0
    } else {
        1 + attr_find(attrs.drop_first(), tag)
    }
}

pub proof fn lemma_attr_find(attrs: Seq<(Seq<u8>, u8, Seq<u8>)>, tag: Seq<u8>)
    ensures
        0 <= attr_find(attrs, tag) <= attrs.len(),
        attr_find(attrs, tag) < attrs.len() ==> attrs[attr_find(attrs, tag)].0 == tag,
        forall|k: int| 0 <= k < attr_find(attrs, tag) ==> attrs[k].0 != tag,
    decreases attrs.len(),
{
    if attrs.len() != 0 && attrs[0].0 != tag {
        lemma_attr_find(attrs.drop_first(), tag);
        assert forall|k: int| 0 <= k < attr_find(attrs, tag) implies attrs[k].0 != tag by {
            if k >= 1 {
                assert(attrs.drop_first()[k - 1] == attrs[k]);
            }
        }
    }
}

/// Replace the attribute with the same tag, or append when none carries it:
/// the map-like update the record model performs on attribute attachment.
pub fn upsert_attr(attrs: &mut Vec<Attribute>, attr: Attribute)
    ensures
        final(attrs).deep_view() == {
            let i = attr_find(old(attrs).deep_view(), attr.tag@);
            if i < old(attrs)@.len() {
                old(attrs).deep_view().update(i, attr@)
            } else {
                old(attrs).deep_view() + seq![attr@]
            }
        },
{
    proof {
        lemma_attr_find(attrs.deep_view(), attr.tag@);
    }
    let mut i: usize = 0;
    while i < attrs.len()
        invariant
            0 <= i <= attrs@.len(),
            attrs.deep_view() == old(attrs).deep_view(),
            forall|k: int| 0 <= k < i ==> old(attrs).deep_view()[k].0 != attr.tag@,
            0 <= attr_find(old(attrs).deep_view(), attr.tag@) <= old(attrs)@.len(),
            attr_find(old(attrs).deep_view(), attr.tag@) < old(attrs)@.len() ==> old(
                attrs,
            ).deep_view()[attr_find(old(attrs).deep_view(), attr.tag@)].0 == attr.tag@,
            forall|k: int|
                0 <= k < attr_find(old(attrs).deep_view(), attr.tag@) ==> old(
                    attrs,
                ).deep_view()[k].0 != attr.tag@,
        decreases attrs.len() - i,
    {
        let same = eq_bytes(&attrs[i].tag, &attr.tag);
        if same {
            proof {
                let f = attr_find(old(attrs).deep_view(), attr.tag@);
                if f < i {
                    assert(old(attrs).deep_view()[f].0 != attr.tag@);
                }
                if f > i {
                    assert(old(attrs).deep_view()[i as int].0 != attr.tag@);
                }
            }
            attrs.set(i, attr);
            proof {
                assert(attrs.deep_view() =~~= old(attrs).deep_view().update(i as int, attr@));
            }
            return ;
        }
        i = i + 1;
    }
    proof {
        let f = attr_find(old(attrs).deep_view(), attr.tag@);
        if f < old(attrs)@.len() {
            assert(old(attrs).deep_view()[f].0 != attr.tag@);
        }
    }
    attrs.push(attr);
    proof {
        assert(attrs.deep_view() =~~= old(attrs).deep_view() + seq![attr@]);
    }
}

} // verus!
