//! The binary container for the document's text serialization: a magic and
//! version header followed by typed, length-prefixed, individually
//! compressed blocks, one of which carries six string-interning tables.
use vstd::prelude::*;

use crate::bytes::{clone_bytes, eq_bytes, find_idx, le32, le32_value, lemma_le32_roundtrip, push_bytes, push_le32, read_le32, subvec};

verus! {

/// Container format version this codec reads and writes.
pub const BTSG_VERSION: u32 = 1;

/// Hard ceiling on one block's declared payload length, in bytes; a block
/// declaring more is rejected before any allocation of that size.
pub const BLOCK_SIZE_LIMIT: u32 = 100_000_000;

/// Block type identifiers.
pub const BLOCK_HEADER: u8 = 0x01;

pub const BLOCK_GRAPH: u8 = 0x02;

pub const BLOCK_NODE: u8 = 0x03;

pub const BLOCK_EDGE: u8 = 0x04;

pub const BLOCK_ATTRIBUTE: u8 = 0x05;

pub const BLOCK_CHAIN: u8 = 0x06;

pub const BLOCK_PATH: u8 = 0x07;

pub const BLOCK_LINK: u8 = 0x08;

pub const BLOCK_DICTIONARY: u8 = 0x09;

/// Errors of the container codec.
#[derive(Clone, Debug)]
pub enum BTSGError {
    /// The stream ended inside a block header or payload.
    Io(Vec<u8>),
    /// The byte compressor refused to compress or decompress.
    Compression(Vec<u8>),
    /// A block type this decoder does not accept where one is required.
    InvalidBlockType(u8),
    /// Wrong magic, wrong version, an oversized block, or malformed data.
    InvalidFormat(Vec<u8>),
    /// A malformed dictionary table.
    Dictionary(Vec<u8>),
}

/// What the byte compressor produces for given input bytes and level.  The
/// compressed form is a function of these alone, but writing it out would
/// mean restating the compressor; the decompressor's contract inverts it.
pub uninterp spec fn zstd_encoding(data: Seq<u8>, level: i32) -> Seq<u8>;

/// Relies on zstd::stream::encode_all: compressing an in-memory buffer
/// yields the zstd frame for those bytes at that level.
#[verifier::external_body]
fn zstd_compress(data: &Vec<u8>, level: i32) -> (r: Result<Vec<u8>, Vec<u8>>)
    ensures
        match r {
            Ok(v) => v@ == zstd_encoding(data@, level),
            Err(_) => true,
        },
{
    match zstd::stream::encode_all(&data[..], level) {
        Ok(v) => Ok(v),
        Err(e) => Err(format!("{}", e).into_bytes()),
    }
}

/// Relies on zstd::stream::decode_all: decompression inverts compression,
/// so a buffer that is the frame for some input decompresses back to it,
/// whatever level produced it.
#[verifier::external_body]
fn zstd_decompress(data: &Vec<u8>) -> (r: Result<Vec<u8>, Vec<u8>>)
    ensures
        match r {
            Ok(v) => forall|d: Seq<u8>, l: i32| data@ == #[trigger] zstd_encoding(d, l) ==> v@ == d,
            Err(_) => forall|d: Seq<u8>, l: i32| data@ != #[trigger] zstd_encoding(d, l),
        },
{
    match zstd::stream::decode_all(&data[..]) {
        Ok(v) => Ok(v),
        Err(e) => Err(format!("{}", e).into_bytes()),
    }
}

/// Mathematical image of an interning table.
pub ghost struct DictV {
    pub entries: Seq<(u32, Seq<u8>)>,
    pub next_id: u32,
}

/// One append-only string-interning table: a bijection between strings and
/// densely assigned numeric identifiers.
#[derive(Clone, Debug)]
pub struct StringDictionary {
    pub entries: Vec<(u32, Vec<u8>)>,
    pub next_id: u32,
}

impl View for StringDictionary {
    type V = DictV;

    open spec fn view(&self) -> DictV {
        DictV { entries: self.entries.deep_view(), next_id: self.next_id }
    }
}

/// Position of the entry holding string `s`, or the entry count when absent.
pub open spec fn dict_find(entries: Seq<(u32, Seq<u8>)>, s: Seq<u8>) -> int
    decreases entries.len(),
{
    if entries.len() == 0 {
        0
    } else if entries[0].1 == s {
        0
    } else {
        1 + dict_find(entries.drop_first(), s)
    }
}

pub proof fn lemma_dict_find(entries: Seq<(u32, Seq<u8>)>, s: Seq<u8>)
    ensures
        0 <= dict_find(entries, s) <= entries.len(),
        dict_find(entries, s) < entries.len() ==> entries[dict_find(entries, s)].1 == s,
        forall|k: int| 0 <= k < dict_find(entries, s) ==> entries[k].1 != s,
    decreases entries.len(),
{
    if entries.len() != 0 && entries[0].1 != s {
        lemma_dict_find(entries.drop_first(), s);
        assert forall|k: int| 0 <= k < dict_find(entries, s) implies entries[k].1 != s by {
            if k >= 1 {
                assert(entries.drop_first()[k - 1] == entries[k]);
            }
        }
    }
}

/// Position of the entry with identifier `id`, or the entry count.
pub open spec fn dict_find_id(entries: Seq<(u32, Seq<u8>)>, id: u32) -> int
    decreases entries.len(),
{
    if entries.len() == 0 {
        0
    } else if entries[0].0 == id {
        0
    } else {
        1 + dict_find_id(entries.drop_first(), id)
    }
}

pub proof fn lemma_dict_find_id(entries: Seq<(u32, Seq<u8>)>, id: u32)
    ensures
        0 <= dict_find_id(entries, id) <= entries.len(),
        dict_find_id(entries, id) < entries.len() ==> entries[dict_find_id(entries, id)].0 == id,
        forall|k: int| 0 <= k < dict_find_id(entries, id) ==> entries[k].0 != id,
    decreases entries.len(),
{
    if entries.len() != 0 && entries[0].0 != id {
        lemma_dict_find_id(entries.drop_first(), id);
        assert forall|k: int| 0 <= k < dict_find_id(entries, id) implies entries[k].0 != id by {
            if k >= 1 {
                assert(entries.drop_first()[k - 1] == entries[k]);
            }
        }
    }
}

/// What interning a string does to a table: the id of the entry already
/// holding the string, or a fresh entry under the next identifier.
pub open spec fn intern_spec(d: DictV, s: Seq<u8>) -> (DictV, u32) {
    let i = dict_find(d.entries, s);
    if i < d.entries.len() {
        (d, d.entries[i].0)
    } else {
        (
            DictV { entries: d.entries + seq![(d.next_id, s)], next_id: (d.next_id + 1) as u32 },
            d.next_id,
        )
    }
}

/// Interning is stable: interning a string and then interning it again
/// returns the same identifier and leaves the table unchanged; and the
/// first string interned into an empty table receives identifier 0.
pub proof fn lemma_dictionary_stable(d: DictV, s: Seq<u8>)
    ensures
        ({
            let (d1, id1) = intern_spec(d, s);
            let (d2, id2) = intern_spec(d1, s);
            id2 == id1 && d2 == d1
        }),
        d.entries.len() == 0 && d.next_id == 0 ==> intern_spec(d, s).1 == 0,
{
    let (d1, id1) = intern_spec(d, s);
    lemma_dict_find(d.entries, s);
    let i = dict_find(d.entries, s);
    if i < d.entries.len() {
        assert(intern_spec(d1, s) == (d1, id1));
    } else {
        lemma_dict_find(d1.entries, s);
        let j = dict_find(d1.entries, s);
        assert(d1.entries[d.entries.len() as int].1 == s);
        assert(j <= d.entries.len()) by {
            if j > d.entries.len() {
                assert(d1.entries[d.entries.len() as int].1 != s);
            }
        }
        assert(j == d.entries.len()) by {
            if j < d.entries.len() {
                assert(d1.entries[j] == d.entries[j]);
                assert(d.entries[j].1 == s);
                assert(i <= j);
                assert(d.entries[i].1 != s || i >= d.entries.len());
                lemma_dict_find(d.entries, s);
            }
        }
        assert(intern_spec(d1, s).1 == d1.entries[j].0);
        assert(d1.entries[j] == (d.next_id, s));
    }
}

impl StringDictionary {
    /// An empty table assigning identifiers from 0.
    pub fn new() -> (r: StringDictionary)
        ensures
            r@.entries == Seq::<(u32, Seq<u8>)>::empty(),
            r@.next_id == 0,
            dict_wf(r@),
    {
        let r = StringDictionary { entries: Vec::new(), next_id: 0 };
        proof {
            assert(r@.entries =~= Seq::<(u32, Seq<u8>)>::empty());
        }
        r
    }

    /// Intern a string: the identifier it already has, or the next free one.
    pub fn add(&mut self, s: &Vec<u8>) -> (r: u32)
        requires
            old(self)@.next_id < u32::MAX,
        ensures
            (final(self)@, r) == intern_spec(old(self)@, s@),
            dict_wf(old(self)@) ==> dict_wf(final(self)@),
    {
        proof {
            lemma_dict_find(self@.entries, s@);
        }
        let mut i: usize = 0;
        while i < self.entries.len()
            invariant
                0 <= i <= self@.entries.len(),
                forall|k: int| 0 <= k < i ==> self@.entries[k].1 != s@,
                0 <= dict_find(self@.entries, s@) <= self@.entries.len(),
                dict_find(self@.entries, s@) < self@.entries.len() ==> self@.entries[dict_find(
                    self@.entries,
                    s@,
                )].1 == s@,
                forall|k: int| 0 <= k < dict_find(self@.entries, s@) ==> self@.entries[k].1 != s@,
            decreases self.entries.len() - i,
        {
            proof {
                assert(self.entries.deep_view()[i as int] == (
                    self.entries@[i as int].0,
                    self.entries@[i as int].1@,
                ));
            }
            let same = eq_bytes(&self.entries[i].1, s);
            if same {
                proof {
                    let f = dict_find(self@.entries, s@);
                    if f < i {
                        assert(self@.entries[f].1 != s@);
                    }
                    if f > i {
                        assert(self@.entries[i as int].1 != s@);
                    }
                }
                return self.entries[i].0;
            }
            i = i + 1;
        }
        proof {
            if dict_find(self@.entries, s@) < self@.entries.len() {
                assert(self@.entries[dict_find(self@.entries, s@)].1 != s@);
            }
        }
        let id = self.next_id;
        let ghost prev = self.entries.deep_view();
        self.entries.push((id, clone_bytes(s)));
        self.next_id = id + 1;
        proof {
            assert(self.entries.deep_view() =~~= prev + seq![(id, s@)]);
            if dict_wf(old(self)@) {
                assert forall|a: int, b: int|
                    0 <= a < b < self@.entries.len() implies (#[trigger] self@.entries[a]).0 != (
                #[trigger] self@.entries[b]).0 && self@.entries[a].1 != self@.entries[b].1 by {
                    if b == prev.len() {
                        assert(self@.entries[b] == (id, s@));
                        assert(prev[a].0 < id);
                        assert(a < dict_find(prev, s@));
                    }
                }
                assert(dict_wf(self@));
            }
        }
        id
    }

    /// The string an identifier names, when it names one.
    pub fn str_of(&self, id: u32) -> (r: Option<&Vec<u8>>)
        ensures
            match r {
                Some(v) => dict_find_id(self@.entries, id) < self@.entries.len() && v@
                    == self@.entries[dict_find_id(self@.entries, id)].1,
                None => dict_find_id(self@.entries, id) == self@.entries.len(),
            },
    {
        proof {
            lemma_dict_find_id(self@.entries, id);
        }
        let mut i: usize = 0;
        while i < self.entries.len()
            invariant
                0 <= i <= self@.entries.len(),
                forall|k: int| 0 <= k < i ==> self@.entries[k].0 != id,
                0 <= dict_find_id(self@.entries, id) <= self@.entries.len(),
                dict_find_id(self@.entries, id) < self@.entries.len() ==> self@.entries[
                    dict_find_id(self@.entries, id)
                ].0 == id,
                forall|k: int| 0 <= k < dict_find_id(self@.entries, id) ==> self@.entries[k].0 != id,
            decreases self.entries.len() - i,
        {
            proof {
                assert(self.entries.deep_view()[i as int] == (
                    self.entries@[i as int].0,
                    self.entries@[i as int].1@,
                ));
            }
            if self.entries[i].0 == id {
                proof {
                    let f = dict_find_id(self@.entries, id);
                    if f < i {
                        assert(self@.entries[f].0 != id);
                    }
                    if f > i {
                        assert(self@.entries[i as int].0 != id);
                    }
                }
                return Some(&self.entries[i].1);
            }
            i = i + 1;
        }
        proof {
            if dict_find_id(self@.entries, id) < self@.entries.len() {
                assert(self@.entries[dict_find_id(self@.entries, id)].0 != id);
            }
        }
        None
    }

    /// The identifier a string has, when it has one.
    pub fn id_of(&self, s: &Vec<u8>) -> (r: Option<u32>)
        ensures
            match r {
                Some(id) => dict_find(self@.entries, s@) < self@.entries.len() && id
                    == self@.entries[dict_find(self@.entries, s@)].0,
                None => dict_find(self@.entries, s@) == self@.entries.len(),
            },
    {
        proof {
            lemma_dict_find(self@.entries, s@);
        }
        let mut i: usize = 0;
        while i < self.entries.len()
            invariant
                0 <= i <= self@.entries.len(),
                forall|k: int| 0 <= k < i ==> self@.entries[k].1 != s@,
                0 <= dict_find(self@.entries, s@) <= self@.entries.len(),
                dict_find(self@.entries, s@) < self@.entries.len() ==> self@.entries[dict_find(
                    self@.entries,
                    s@,
                )].1 == s@,
                forall|k: int| 0 <= k < dict_find(self@.entries, s@) ==> self@.entries[k].1 != s@,
            decreases self.entries.len() - i,
        {
            proof {
                assert(self.entries.deep_view()[i as int] == (
                    self.entries@[i as int].0,
                    self.entries@[i as int].1@,
                ));
            }
            let same = eq_bytes(&self.entries[i].1, s);
            if same {
                proof {
                    let f = dict_find(self@.entries, s@);
                    if f < i {
                        assert(self@.entries[f].1 != s@);
                    }
                    if f > i {
                        assert(self@.entries[i as int].1 != s@);
                    }
                }
                return Some(self.entries[i].0);
            }
            i = i + 1;
        }
        proof {
            if dict_find(self@.entries, s@) < self@.entries.len() {
                assert(self@.entries[dict_find(self@.entries, s@)].1 != s@);
            }
        }
        None
    }

    /// The serialized table: an entry count, then per entry the identifier,
    /// the string length and the string bytes, all lengths little-endian.
    pub fn write_to(&self, out: &mut Vec<u8>) -> (r: Result<(), BTSGError>)
        ensures
            r is Ok <==> (self@.entries.len() <= u32::MAX && forall|k: int|
                0 <= k < self@.entries.len() ==> (#[trigger] self@.entries[k]).1.len()
                    <= u32::MAX),
            r is Ok ==> final(out)@ == old(out)@ + dict_bytes(self@.entries),
            r is Err ==> final(out)@ == old(out)@,
    {
        if self.entries.len() > 0xffff_ffffusize {
            return Err(BTSGError::InvalidFormat(Vec::new()));
        }
        let mut probe: usize = 0;
        while probe < self.entries.len()
            invariant
                0 <= probe <= self@.entries.len(),
                forall|k: int|
                    0 <= k < probe ==> (#[trigger] self@.entries[k]).1.len() <= u32::MAX,
            decreases self.entries.len() - probe,
        {
            proof {
                assert(self.entries.deep_view()[probe as int] == (
                    self.entries@[probe as int].0,
                    self.entries@[probe as int].1@,
                ));
            }
            if self.entries[probe].1.len() > 0xffff_ffffusize {
                return Err(BTSGError::InvalidFormat(Vec::new()));
            }
            probe = probe + 1;
        }
        push_le32(out, self.entries.len() as u32);
        let mut i: usize = 0;
        while i < self.entries.len()
            invariant
                0 <= i <= self@.entries.len(),
                self@.entries.len() <= u32::MAX,
                forall|k: int|
                    0 <= k < self@.entries.len() ==> (#[trigger] self@.entries[k]).1.len()
                        <= u32::MAX,
                out@ == old(out)@ + le32(self@.entries.len() as u32) + dict_entries_bytes(
                    self@.entries.take(i as int),
                ),
            decreases self.entries.len() - i,
        {
            proof {
                assert(self.entries.deep_view()[i as int] == (
                    self.entries@[i as int].0,
                    self.entries@[i as int].1@,
                ));
                assert(self@.entries.take(i as int + 1).drop_last() =~= self@.entries.take(
                    i as int,
                ));
                assert(self@.entries.take(i as int + 1).last() == self@.entries[i as int]);
            }
            push_le32(out, self.entries[i].0);
            push_le32(out, self.entries[i].1.len() as u32);
            push_bytes(out, &self.entries[i].1);
            i = i + 1;
            proof {
                assert(out@ =~= old(out)@ + le32(self@.entries.len() as u32) + dict_entries_bytes(
                    self@.entries.take(i as int),
                ));
            }
        }
        proof {
            assert(self@.entries.take(self@.entries.len() as int) =~= self@.entries);
        }
        Ok(())
    }
}

/// The serialized entries, one after another.
pub open spec fn dict_entries_bytes(entries: Seq<(u32, Seq<u8>)>) -> Seq<u8>
    decreases entries.len(),
{
    if entries.len() == 0 {
        Seq::<u8>::empty()
    } else {
        dict_entries_bytes(entries.drop_last()) + le32(entries.last().0) + le32(
            entries.last().1.len() as u32,
        ) + entries.last().1
    }
}

/// The serialized table: count then entries.
pub open spec fn dict_bytes(entries: Seq<(u32, Seq<u8>)>) -> Seq<u8> {
    le32(entries.len() as u32) + dict_entries_bytes(entries)
}

/// One typed block: its type byte and its (compressed) payload.
#[derive(Clone, Debug)]
pub struct Block {
    pub block_type: u8,
    pub data: Vec<u8>,
}

impl Block {
    /// A block of the given type over the given payload.
    pub fn new(block_type: u8, data: Vec<u8>) -> (r: Block)
        ensures
            r.block_type == block_type,
            r.data@ == data@,
    {
        Block { block_type, data }
    }

    /// Append the serialized block: type byte, little-endian payload
    /// length, payload.
    pub fn write_to(&self, out: &mut Vec<u8>) -> (r: Result<(), BTSGError>)
        ensures
            r is Ok <==> self.data@.len() <= u32::MAX,
            r is Ok ==> final(out)@ == old(out)@ + block_bytes(self.block_type, self.data@),
            r is Err ==> final(out)@ == old(out)@,
    {
        if self.data.len() > 0xffff_ffffusize {
            return Err(BTSGError::InvalidFormat(Vec::new()));
        }
        out.push(self.block_type);
        push_le32(out, self.data.len() as u32);
        push_bytes(out, &self.data);
        proof {
            assert(out@ =~= old(out)@ + block_bytes(self.block_type, self.data@));
        }
        Ok(())
    }

    /// Read the block starting at `pos`.  A truncated header or payload is
    /// an I/O error; a declared length above the ceiling is rejected as a
    /// format error before any allocation of that size.
    pub fn read_from(data: &Vec<u8>, pos: usize) -> (r: Result<(Block, usize), BTSGError>)
        requires
            pos <= data@.len(),
        ensures
            match r {
                Ok(p) => {
                    let len = le32_value(data@.subrange(pos + 1, pos + 5)) as int;
                    &&& pos + 5 <= data@.len()
                    &&& len <= BLOCK_SIZE_LIMIT
                    &&& pos + 5 + len <= data@.len()
                    &&& p.0.block_type == data@[pos as int]
                    &&& p.0.data@ == data@.subrange(pos + 5, pos + 5 + len)
                    &&& p.1 == pos + 5 + len
                    &&& p.1 <= data@.len()
                    &&& p.1 > pos
                },
                Err(e) => {
                    ||| (pos + 5 > data@.len() && e is Io)
                    ||| (pos + 5 <= data@.len() && le32_value(data@.subrange(pos + 1, pos + 5))
                        > BLOCK_SIZE_LIMIT && e is InvalidFormat)
                    ||| (pos + 5 <= data@.len() && le32_value(data@.subrange(pos + 1, pos + 5))
                        <= BLOCK_SIZE_LIMIT && pos + 5 + le32_value(
                        data@.subrange(pos + 1, pos + 5),
                    ) > data@.len() && e is Io)
                },
            },
    {
        let total = data.len();
        if total < 5 || pos > total - 5 {
            return Err(BTSGError::Io(Vec::new()));
        }
        let block_type = data[pos];
        let len32 = read_le32(data, pos + 1);
        if len32 > BLOCK_SIZE_LIMIT {
            return Err(BTSGError::InvalidFormat(Vec::new()));
        }
        let len = len32 as usize;
        if len > total - (pos + 5) {
            return Err(BTSGError::Io(Vec::new()));
        }
        let payload = subvec(data, pos + 5, pos + 5 + len);
        Ok((Block { block_type, data: payload }, pos + 5 + len))
    }
}

/// The serialized block.
pub open spec fn block_bytes(t: u8, payload: Seq<u8>) -> Seq<u8> {
    seq![t] + le32(payload.len() as u32) + payload
}

/// The whole container over already-compressed blocks: magic, version,
/// then each block serialized.
pub open spec fn container_bytes(blocks: Seq<(u8, Seq<u8>)>) -> Seq<u8>
    decreases blocks.len(),
{
    if blocks.len() == 0 {
        magic_bytes() + le32(BTSG_VERSION)
    } else {
        container_bytes(blocks.drop_last()) + block_bytes(
            blocks.last().0,
            blocks.last().1,
        )
    }
}

/// The four magic bytes, `BTSG`.
pub open spec fn magic_bytes() -> Seq<u8> {
    seq![66u8, 84u8, 83u8, 71u8]
}

/// The blocks of a serialized container, or nothing when the magic or
/// version is wrong, a block is truncated or oversized, or trailing bytes
/// remain that are not blocks.
pub open spec fn parse_container(data: Seq<u8>) -> Option<Seq<(u8, Seq<u8>)>> {
    if data.len() < 8 {
        None
    } else if data.take(4) != magic_bytes() {
        None
    } else if le32_value(data.subrange(4, 8)) != BTSG_VERSION {
        None
    } else {
        parse_blocks(data, 8)
    }
}

/// The blocks from `pos` to the end of the stream.
pub open spec fn parse_blocks(data: Seq<u8>, pos: int) -> Option<Seq<(u8, Seq<u8>)>>
    decreases data.len() - pos,
{
    if pos == data.len() {
        Some(Seq::<(u8, Seq<u8>)>::empty())
    } else if pos + 5 > data.len() {
        None
    } else {
        let len = le32_value(data.subrange(pos + 1, pos + 5)) as int;
        if len > BLOCK_SIZE_LIMIT {
            None
        } else if pos + 5 + len > data.len() {
            None
        } else {
            match parse_blocks(data, pos + 5 + len) {
                None => None,
                Some(rest) => Some(
                    seq![(data[pos], data.subrange(pos + 5, pos + 5 + len))] + rest,
                ),
            }
        }
    }
}

/// Appending a serialized block to a parseable stream keeps it parseable,
/// with that block at the end.
proof fn lemma_parse_blocks_snoc(data: Seq<u8>, pos: int, t: u8, payload: Seq<u8>)
    requires
        0 <= pos <= data.len(),
        payload.len() <= BLOCK_SIZE_LIMIT,
        parse_blocks(data, pos) is Some,
    ensures
        parse_blocks(data + block_bytes(t, payload), pos) == Some(
            parse_blocks(data, pos).unwrap() + seq![(t, payload)],
        ),
    decreases data.len() - pos,
{
    let data2 = data + block_bytes(t, payload);
    lemma_le32_roundtrip(payload.len() as u32);
    if pos == data.len() {
        assert(data2.subrange(pos + 1, pos + 5) =~= le32(payload.len() as u32));
        assert(data2.subrange(pos + 5, pos + 5 + payload.len()) =~= payload);
        assert(data2[pos] == t);
        assert(pos + 5 + payload.len() == data2.len());
        assert(parse_blocks(data2, pos + 5 + payload.len()) == Some(
            Seq::<(u8, Seq<u8>)>::empty(),
        ));
        assert(parse_blocks(data2, pos) =~~= Some(
            parse_blocks(data, pos).unwrap() + seq![(t, payload)],
        ));
    } else {
        let len = le32_value(data.subrange(pos + 1, pos + 5)) as int;
        assert(data2.subrange(pos + 1, pos + 5) =~= data.subrange(pos + 1, pos + 5));
        assert(pos + 5 + len <= data.len());
        lemma_parse_blocks_snoc(data, pos + 5 + len, t, payload);
        assert(data2.subrange(pos + 5, pos + 5 + len) =~= data.subrange(pos + 5, pos + 5 + len));
        assert(data2[pos] == data[pos]);
        let rest = parse_blocks(data, pos + 5 + len).unwrap();
        assert(parse_blocks(data, pos) == Some(
            seq![(data[pos], data.subrange(pos + 5, pos + 5 + len))] + rest,
        ));
        assert(parse_blocks(data2, pos + 5 + len) == Some(rest + seq![(t, payload)]));
        assert(parse_blocks(data2, pos) =~~= Some(
            (seq![(data[pos], data.subrange(pos + 5, pos + 5 + len))] + rest) + seq![
                (t, payload),
            ],
        ));
    }
}

/// A container of within-limit blocks parses back to exactly those blocks.
pub proof fn lemma_container_roundtrip(blocks: Seq<(u8, Seq<u8>)>)
    requires
        forall|i: int| 0 <= i < blocks.len() ==> (#[trigger] blocks[i]).1.len() <= BLOCK_SIZE_LIMIT,
    ensures
        parse_container(container_bytes(blocks)) == Some(blocks),
    decreases blocks.len(),
{
    if blocks.len() == 0 {
        let data = container_bytes(blocks);
        assert(data == magic_bytes() + le32(BTSG_VERSION));
        assert(data.len() == 8);
        assert(data.take(4) =~= magic_bytes());
        assert(data.subrange(4, 8) =~= le32(BTSG_VERSION));
        lemma_le32_roundtrip(BTSG_VERSION);
        assert(parse_blocks(data, 8) =~~= Some(Seq::<(u8, Seq<u8>)>::empty()));
        assert(parse_container(data) =~~= Some(blocks));
    } else {
        let front = blocks.drop_last();
        assert(forall|i: int|
            0 <= i < front.len() ==> (#[trigger] front[i]).1.len() <= BLOCK_SIZE_LIMIT) by {
            assert(forall|i: int| 0 <= i < front.len() ==> front[i] == blocks[i]);
        }
        lemma_container_roundtrip(front);
        let data1 = container_bytes(front);
        assert(data1.len() >= 8);
        assert(blocks.last().1.len() <= BLOCK_SIZE_LIMIT);
        lemma_parse_blocks_snoc(data1, 8, blocks.last().0, blocks.last().1);
        let data2 = container_bytes(blocks);
        assert(data2 == data1 + block_bytes(blocks.last().0, blocks.last().1));
        assert(data2.take(4) =~= data1.take(4));
        assert(data2.subrange(4, 8) =~= data1.subrange(4, 8));
        assert(data2.len() >= 8);
        assert(parse_blocks(data2, 8) == Some(front + seq![blocks.last()]));
        assert(front + seq![blocks.last()] =~~= blocks);
        assert(parse_container(data2) =~~= Some(blocks));
    }
}

/// Lines of a text: newline-separated pieces, without a trailing empty
/// piece when the text ends in a newline.
pub open spec fn lines_of(t: Seq<u8>) -> Seq<Seq<u8>> {
    let p = crate::bytes::split_on(t, 10);
    if p.len() > 0 && p.last().len() == 0 {
        p.drop_last()
    } else {
        p
    }
}

/// The lines concatenated, each followed by a newline.
pub open spec fn unlines(ls: Seq<Seq<u8>>) -> Seq<u8>
    decreases ls.len(),
{
    if ls.len() == 0 {
        Seq::<u8>::empty()
    } else {
        unlines(ls.drop_last()) + ls.last() + seq![10u8]
    }
}

/// The lines, each preceded by a newline unless it is a `G` record line.
pub open spec fn g_filtered(ls: Seq<Seq<u8>>) -> Seq<u8>
    decreases ls.len(),
{
    if ls.len() == 0 {
        Seq::<u8>::empty()
    } else {
        g_filtered(ls.drop_last()) + if is_g_line(ls.last()) {
            Seq::<u8>::empty()
        } else {
            seq![10u8] + ls.last()
        }
    }
}

/// Whether a line is a `G` record line (starts `G` then tab).
pub open spec fn is_g_line(l: Seq<u8>) -> bool {
    l.len() >= 2 && l[0] == 71 && l[1] == 9
}

/// Whether a line holds only whitespace.
pub open spec fn line_blank(l: Seq<u8>) -> bool {
    forall|k: int| 0 <= k < l.len() ==> crate::bytes::is_ws(#[trigger] l[k])
}

/// Position of the entry keyed `id`, or the entry count.
pub open spec fn bucket_find(bs: Seq<(Seq<u8>, Seq<Seq<u8>>)>, id: Seq<u8>) -> int
    decreases bs.len(),
{
    if bs.len() == 0 {
        0
    } else if bs[0].0 == id {
        0
    } else {
        1 + bucket_find(bs.drop_first(), id)
    }
}

pub proof fn lemma_bucket_find(bs: Seq<(Seq<u8>, Seq<Seq<u8>>)>, id: Seq<u8>)
    ensures
        0 <= bucket_find(bs, id) <= bs.len(),
        bucket_find(bs, id) < bs.len() ==> bs[bucket_find(bs, id)].0 == id,
        forall|k: int| 0 <= k < bucket_find(bs, id) ==> bs[k].0 != id,
    decreases bs.len(),
{
    if bs.len() != 0 && bs[0].0 != id {
        lemma_bucket_find(bs.drop_first(), id);
        assert forall|k: int| 0 <= k < bucket_find(bs, id) implies bs[k].0 != id by {
            if k >= 1 {
                assert(bs.drop_first()[k - 1] == bs[k]);
            }
        }
    }
}

/// Append lines under a key: extend the entry with that key or open one.
pub open spec fn bucket_add(
    bs: Seq<(Seq<u8>, Seq<Seq<u8>>)>,
    id: Seq<u8>,
    ls: Seq<Seq<u8>>,
) -> Seq<(Seq<u8>, Seq<Seq<u8>>)> {
    let i = bucket_find(bs, id);
    if i < bs.len() {
        bs.update(i, (id, bs[i].1 + ls))
    } else {
        bs + seq![(id, ls)]
    }
}

/// Concatenation of two line lists.
pub fn concat_lines(a: &Vec<Vec<u8>>, b: &Vec<Vec<u8>>) -> (r: Vec<Vec<u8>>)
    ensures
        r.deep_view() == a.deep_view() + b.deep_view(),
{
    let mut out = crate::path::clone_lines(a);
    let mut i: usize = 0;
    while i < b.len()
        invariant
            0 <= i <= b@.len(),
            out.deep_view() =~~= a.deep_view() + b.deep_view().take(i as int),
        decreases b.len() - i,
    {
        proof {
            assert(b.deep_view()[i as int] == b@[i as int]@);
        }
        let ghost ob = out.deep_view();
        let l = clone_bytes(&b[i]);
        let ghost lv = l@;
        out.push(l);
        i = i + 1;
        proof {
            assert(out.deep_view() =~~= ob + seq![lv]);
            assert(out.deep_view() =~~= a.deep_view() + b.deep_view().take(i as int));
        }
    }
    proof {
        assert(b.deep_view().take(b@.len() as int) =~~= b.deep_view());
        assert(out.deep_view() =~~= a.deep_view() + b.deep_view());
    }
    out
}

/// The buckets with `lines` appended under `id`: the entry with that key is
/// extended, or a new entry is opened at the end.
pub fn bucket_added(b: &Vec<(Vec<u8>, Vec<Vec<u8>>)>, id: &Vec<u8>, lines: &Vec<Vec<u8>>) -> (r:
    Vec<(Vec<u8>, Vec<Vec<u8>>)>)
    ensures
        r.deep_view() == bucket_add(b.deep_view(), id@, lines.deep_view()),
{
    proof {
        lemma_bucket_find(b.deep_view(), id@);
    }
    let ghost bdv = b.deep_view();
    let ghost ldv = lines.deep_view();
    let mut out: Vec<(Vec<u8>, Vec<Vec<u8>>)> = Vec::new();
    let mut found: bool = false;
    let mut i: usize = 0;
    proof {
        assert(out.deep_view() =~~= bdv.take(0));
    }
    while i < b.len()
        invariant
            0 <= i <= bdv.len(),
            bdv == b.deep_view(),
            ldv == lines.deep_view(),
            0 <= bucket_find(bdv, id@) <= bdv.len(),
            bucket_find(bdv, id@) < bdv.len() ==> bdv[bucket_find(bdv, id@)].0 == id@,
            forall|k: int| 0 <= k < bucket_find(bdv, id@) ==> bdv[k].0 != id@,
            !found ==> out.deep_view() == bdv.take(i as int) && (forall|k: int|
                0 <= k < i ==> bdv[k].0 != id@),
            found ==> bucket_find(bdv, id@) < i && out.deep_view() == bdv.take(i as int).update(
                bucket_find(bdv, id@),
                (id@, bdv[bucket_find(bdv, id@)].1 + ldv),
            ),
        decreases b.len() - i,
    {
        proof {
            assert(b.deep_view()[i as int] == (b@[i as int].0@, b@[i as int].1.deep_view()));
        }
        let same = eq_bytes(&b[i].0, id);
        let ghost ob = out.deep_view();
        if same && !found {
            proof {
                let f = bucket_find(bdv, id@);
                if f < i {
                    assert(bdv[f].0 != id@);
                }
                if f > i {
                    assert(bdv[i as int].0 != id@);
                }
                assert(f == i);
            }
            let merged = concat_lines(&b[i].1, lines);
            let ghost mv = merged.deep_view();
            out.push((clone_bytes(id), merged));
            found = true;
            proof {
                assert(out.deep_view() =~~= ob + seq![(id@, mv)]);
                assert(mv == bdv[i as int].1 + ldv);
                assert(out.deep_view() =~~= bdv.take(i as int + 1).update(
                    i as int,
                    (id@, bdv[i as int].1 + ldv),
                ));
            }
        } else {
            let entry_id = clone_bytes(&b[i].0);
            let entry_lines = crate::path::clone_lines(&b[i].1);
            let ghost ev = (entry_id@, entry_lines.deep_view());
            out.push((entry_id, entry_lines));
            proof {
                assert(out.deep_view() =~~= ob + seq![ev]);
                assert(ev == bdv[i as int]);
                if found {
                    assert(out.deep_view() =~~= bdv.take(i as int + 1).update(
                        bucket_find(bdv, id@),
                        (id@, bdv[bucket_find(bdv, id@)].1 + ldv),
                    ));
                } else {
                    assert(out.deep_view() =~~= bdv.take(i as int + 1));
                }
            }
        }
        i = i + 1;
    }
    proof {
        assert(bdv.take(bdv.len() as int) =~~= bdv);
    }
    if found {
        proof {
            assert(out.deep_view() =~~= bucket_add(bdv, id@, ldv));
        }
        out
    } else {
        proof {
            if bucket_find(bdv, id@) < bdv.len() {
                assert(bdv[bucket_find(bdv, id@)].0 != id@);
            }
        }
        let ghost ob = out.deep_view();
        let copied = crate::path::clone_lines(lines);
        out.push((clone_bytes(id), copied));
        proof {
            assert(out.deep_view() =~~= ob + seq![(id@, ldv)]);
            assert(out.deep_view() =~~= bucket_add(bdv, id@, ldv));
        }
        out
    }
}

/// Mathematical image of the record grouping the encoder builds.
pub ghost struct GroupingV {
    pub headers: Seq<Seq<u8>>,
    pub sections: Seq<(Seq<u8>, Seq<Seq<u8>>)>,
    pub nodes: Seq<(Seq<u8>, Seq<Seq<u8>>)>,
    pub edges: Seq<(Seq<u8>, Seq<Seq<u8>>)>,
    pub current: Option<Seq<u8>>,
}

/// Record lines grouped by kind and owning section, as one pass over the
/// text collects them.
pub struct Grouping {
    pub headers: Vec<Vec<u8>>,
    pub sections: Vec<(Vec<u8>, Vec<Vec<u8>>)>,
    pub nodes: Vec<(Vec<u8>, Vec<Vec<u8>>)>,
    pub edges: Vec<(Vec<u8>, Vec<Vec<u8>>)>,
    pub current: Option<Vec<u8>>,
}

impl View for Grouping {
    type V = GroupingV;

    open spec fn view(&self) -> GroupingV {
        GroupingV {
            headers: self.headers.deep_view(),
            sections: self.sections.deep_view(),
            nodes: self.nodes.deep_view(),
            edges: self.edges.deep_view(),
            current: match self.current {
                Some(ref c) => Some(c@),
                None => None,
            },
        }
    }
}

/// The section the next sectionless record belongs to.
pub open spec fn cur_id(g: GroupingV) -> Seq<u8> {
    match g.current {
        Some(id) => id,
        None => crate::graph::default_graph_id(),
    }
}

/// The empty grouping.
pub open spec fn group_init() -> GroupingV {
    GroupingV {
        headers: Seq::empty(),
        sections: Seq::empty(),
        nodes: Seq::empty(),
        edges: Seq::empty(),
        current: None,
    }
}

/// How one line changes the grouping: blank lines, comments, tabless lines
/// and unknown record tags are skipped; `H` lines collect as headers; a `G`
/// line opens its section; `N` and `E` lines land in the current section's
/// node and edge groups; `A`, `C`, `P` and `L` lines land in the current
/// section's remaining-record group.
pub open spec fn group_step(g: GroupingV, l: Seq<u8>) -> GroupingV {
    if line_blank(l) {
        g
    } else if l[0] == 35 {
        g
    } else if find_idx(l, 9) == l.len() {
        g
    } else {
        let tag = l.take(find_idx(l, 9));
        let rest = l.skip(find_idx(l, 9) + 1);
        if tag.len() != 1 {
            g
        } else if tag[0] == 72 {
            GroupingV { headers: g.headers + seq![l], ..g }
        } else if tag[0] == 71 {
            let gid = if find_idx(rest, 9) < rest.len() {
                rest.take(find_idx(rest, 9))
            } else {
                rest
            };
            GroupingV {
                sections: bucket_add(g.sections, gid, seq![l]),
                current: Some(gid),
                ..g
            }
        } else if tag[0] == 78 {
            let id = cur_id(g);
            GroupingV { nodes: bucket_add(g.nodes, id, seq![l]), current: Some(id), ..g }
        } else if tag[0] == 69 {
            let id = cur_id(g);
            GroupingV { edges: bucket_add(g.edges, id, seq![l]), current: Some(id), ..g }
        } else if tag[0] == 65 || tag[0] == 67 || tag[0] == 80 || tag[0] == 76 {
            let id = cur_id(g);
            GroupingV { sections: bucket_add(g.sections, id, seq![l]), current: Some(id), ..g }
        } else {
            g
        }
    }
}

/// The grouping of a whole line sequence.
pub open spec fn group_fold(ls: Seq<Seq<u8>>) -> GroupingV
    decreases ls.len(),
{
    if ls.len() == 0 {
        group_init()
    } else {
        group_step(group_fold(ls.drop_last()), ls.last())
    }
}

/// Whether a line holds only whitespace.
fn is_blank(l: &Vec<u8>) -> (r: bool)
    ensures
        r == line_blank(l@),
{
    let mut i: usize = 0;
    while i < l.len()
        invariant
            0 <= i <= l@.len(),
            forall|k: int| 0 <= k < i ==> crate::bytes::is_ws(#[trigger] l@[k]),
        decreases l.len() - i,
    {
        let b = l[i];
        if !(b == 32 || b == 9) {
            return false;
        }
        i = i + 1;
    }
    true
}

/// Group record lines by kind and owning section, one pass.
pub fn group_lines(lines: &Vec<Vec<u8>>) -> (r: Grouping)
    ensures
        r@ == group_fold(lines.deep_view()),
{
    let mut g = Grouping {
        headers: Vec::new(),
        sections: Vec::new(),
        nodes: Vec::new(),
        edges: Vec::new(),
        current: None,
    };
    proof {
        assert(lines.deep_view().take(0) =~= Seq::<Seq<u8>>::empty());
        assert(g@.headers =~= Seq::<Seq<u8>>::empty());
        assert(g@.sections =~= Seq::<(Seq<u8>, Seq<Seq<u8>>)>::empty());
        assert(g@.nodes =~= Seq::<(Seq<u8>, Seq<Seq<u8>>)>::empty());
        assert(g@.edges =~= Seq::<(Seq<u8>, Seq<Seq<u8>>)>::empty());
    }
    let mut i: usize = 0;
    while i < lines.len()
        invariant
            0 <= i <= lines@.len(),
            g@ == group_fold(lines.deep_view().take(i as int)),
        decreases lines.len() - i,
    {
        let ghost pre = g@;
        let ghost lv = lines.deep_view()[i as int];
        proof {
            assert(lines.deep_view()[i as int] == lines@[i as int]@);
            assert(lines.deep_view().take(i as int + 1).drop_last() =~= lines.deep_view().take(
                i as int,
            ));
            assert(lines.deep_view().take(i as int + 1).last() == lv);
        }
        let l = &lines[i];
        let blank = is_blank(l);
        if blank {
        } else if l[0] == 35 {
        } else {
            match crate::bytes::split_once(l, 9) {
                None => {},
                Some((tag, rest)) => {
                    if tag.len() != 1 {
                    } else if tag[0] == 72 {
                        let ghost hs = g.headers.deep_view();
                        g.headers.push(clone_bytes(l));
                        proof {
                            assert(g.headers.deep_view() =~~= hs + seq![lv]);
                        }
                    } else if tag[0] == 71 {
                        let gid = match crate::bytes::split_once(&rest, 9) {
                            Some((gg, _)) => gg,
                            None => rest,
                        };
                        let mut one: Vec<Vec<u8>> = Vec::new();
                        one.push(clone_bytes(l));
                        proof {
                            assert(one.deep_view() =~~= seq![lv]);
                        }
                        g.sections = bucket_added(&g.sections, &gid, &one);
                        g.current = Some(gid);
                    } else if tag[0] == 78 {
                        let id = match &g.current {
                            Some(c) => clone_bytes(c),
                            None => crate::graph::default_graph_id_bytes(),
                        };
                        let mut one: Vec<Vec<u8>> = Vec::new();
                        one.push(clone_bytes(l));
                        proof {
                            assert(one.deep_view() =~~= seq![lv]);
                            assert(id@ == cur_id(pre));
                        }
                        g.nodes = bucket_added(&g.nodes, &id, &one);
                        g.current = Some(id);
                    } else if tag[0] == 69 {
                        let id = match &g.current {
                            Some(c) => clone_bytes(c),
                            None => crate::graph::default_graph_id_bytes(),
                        };
                        let mut one: Vec<Vec<u8>> = Vec::new();
                        one.push(clone_bytes(l));
                        proof {
                            assert(one.deep_view() =~~= seq![lv]);
                            assert(id@ == cur_id(pre));
                        }
                        g.edges = bucket_added(&g.edges, &id, &one);
                        g.current = Some(id);
                    } else if tag[0] == 65 || tag[0] == 67 || tag[0] == 80 || tag[0] == 76 {
                        let id = match &g.current {
                            Some(c) => clone_bytes(c),
                            None => crate::graph::default_graph_id_bytes(),
                        };
                        let mut one: Vec<Vec<u8>> = Vec::new();
                        one.push(clone_bytes(l));
                        proof {
                            assert(one.deep_view() =~~= seq![lv]);
                            assert(id@ == cur_id(pre));
                        }
                        g.sections = bucket_added(&g.sections, &id, &one);
                        g.current = Some(id);
                    }
                },
            }
        }
        i = i + 1;
        proof {
            assert(g@ == group_step(pre, lv));
            assert(g@ == group_fold(lines.deep_view().take(i as int)));
        }
    }
    proof {
        assert(lines.deep_view().take(lines@.len() as int) =~~= lines.deep_view());
    }
    g
}

/// The lines of a text, without the trailing empty piece of a final
/// newline.
pub fn text_lines(text: &Vec<u8>) -> (r: Vec<Vec<u8>>)
    ensures
        r.deep_view() == lines_of(text@),
{
    let mut ps = crate::bytes::split_all(text, 10);
    proof {
        crate::bytes::lemma_split_on_nonempty(text@, 10);
        assert(ps.deep_view()[ps@.len() - 1] == ps@[ps@.len() - 1]@);
    }
    if ps.len() > 0 && ps[ps.len() - 1].len() == 0 {
        let ghost before = ps.deep_view();
        let _ = ps.pop();
        proof {
            assert(ps.deep_view() =~~= before.drop_last());
        }
    }
    ps
}

/// The lines concatenated, each closed by a newline.
pub fn emit_unlines(lines: &Vec<Vec<u8>>) -> (r: Vec<u8>)
    ensures
        r@ == unlines(lines.deep_view()),
{
    let mut out: Vec<u8> = Vec::new();
    let mut i: usize = 0;
    proof {
        assert(unlines(lines.deep_view().take(0)) =~= Seq::<u8>::empty());
    }
    while i < lines.len()
        invariant
            0 <= i <= lines@.len(),
            out@ == unlines(lines.deep_view().take(i as int)),
        decreases lines.len() - i,
    {
        proof {
            assert(lines.deep_view()[i as int] == lines@[i as int]@);
            assert(lines.deep_view().take(i as int + 1).drop_last() =~= lines.deep_view().take(
                i as int,
            ));
            assert(lines.deep_view().take(i as int + 1).last() == lines.deep_view()[i as int]);
        }
        push_bytes(&mut out, &lines[i]);
        out.push(10);
        i = i + 1;
        proof {
            assert(out@ =~= unlines(lines.deep_view().take(i as int)));
        }
    }
    proof {
        assert(lines.deep_view().take(lines@.len() as int) =~~= lines.deep_view());
    }
    out
}

/// The payload of a section block: the `G` marker line for `id`, then the
/// section's remaining record lines, themselves purged of `G` lines.
pub fn graph_payload_of(id: &Vec<u8>, lines: &Vec<Vec<u8>>) -> (r: Vec<u8>)
    ensures
        r@ == seq![71u8, 9u8] + id@ + g_filtered(lines.deep_view()),
{
    let mut out: Vec<u8> = Vec::new();
    out.push(71);
    out.push(9);
    push_bytes(&mut out, id);
    proof {
        assert(g_filtered(lines.deep_view().take(0)) =~= Seq::<u8>::empty());
        assert(out@ =~= seq![71u8, 9u8] + id@ + g_filtered(lines.deep_view().take(0)));
    }
    let mut i: usize = 0;
    while i < lines.len()
        invariant
            0 <= i <= lines@.len(),
            out@ == seq![71u8, 9u8] + id@ + g_filtered(lines.deep_view().take(i as int)),
        decreases lines.len() - i,
    {
        proof {
            assert(lines.deep_view()[i as int] == lines@[i as int]@);
            assert(lines.deep_view().take(i as int + 1).drop_last() =~= lines.deep_view().take(
                i as int,
            ));
            assert(lines.deep_view().take(i as int + 1).last() == lines.deep_view()[i as int]);
        }
        let l = &lines[i];
        let skip_it = l.len() >= 2 && l[0] == 71 && l[1] == 9;
        if !skip_it {
            out.push(10);
            push_bytes(&mut out, l);
        }
        i = i + 1;
        proof {
            assert(out@ =~= seq![71u8, 9u8] + id@ + g_filtered(lines.deep_view().take(i as int)));
        }
    }
    proof {
        assert(lines.deep_view().take(lines@.len() as int) =~~= lines.deep_view());
    }
    out
}

/// The payload of a node or edge block: the `G` marker line for `id`, then
/// the group's record lines.
pub fn marked_payload_of(id: &Vec<u8>, lines: &Vec<Vec<u8>>) -> (r: Vec<u8>)
    ensures
        r@ == seq![71u8, 9u8] + id@ + seq![10u8] + unlines(lines.deep_view()),
{
    let mut out: Vec<u8> = Vec::new();
    out.push(71);
    out.push(9);
    push_bytes(&mut out, id);
    out.push(10);
    let tail = emit_unlines(lines);
    push_bytes(&mut out, &tail);
    proof {
        assert(out@ =~= seq![71u8, 9u8] + id@ + seq![10u8] + unlines(lines.deep_view()));
    }
    out
}

/// Compress a payload and append it to the container as one block.  The
/// ghost result is the compressed payload the block carries.
fn append_block(out: &mut Vec<u8>, t: u8, payload: &Vec<u8>, level: i32) -> (r: Result<
    Ghost<Seq<u8>>,
    BTSGError,
>)
    ensures
        match r {
            Ok(c) => c@ == zstd_encoding(payload@, level) && c@.len() <= BLOCK_SIZE_LIMIT
                && final(out)@ == old(out)@ + block_bytes(t, c@),
            Err(_) => final(out)@ == old(out)@,
        },
{
    let compressed = match zstd_compress(payload, level) {
        Ok(c) => c,
        Err(m) => {
            return Err(BTSGError::Compression(m));
        },
    };
    if compressed.len() > 100_000_000usize {
        return Err(BTSGError::InvalidFormat(Vec::new()));
    }
    let ghost cv = compressed@;
    let b = Block::new(t, compressed);
    match b.write_to(out) {
        Ok(_) => Ok(Ghost(cv)),
        Err(e) => Err(e),
    }
}

/// The header block of an encoding, when there are header lines.
pub open spec fn header_block_list(hs: Seq<Seq<u8>>, level: i32) -> Seq<(u8, Seq<u8>)> {
    if hs.len() > 0 {
        seq![(BLOCK_HEADER, zstd_encoding(unlines(hs), level))]
    } else {
        Seq::<(u8, Seq<u8>)>::empty()
    }
}

/// One section block per remaining-record group, in grouping order.
pub open spec fn section_block_list(bs: Seq<(Seq<u8>, Seq<Seq<u8>>)>, level: i32) -> Seq<
    (u8, Seq<u8>),
>
    decreases bs.len(),
{
    if bs.len() == 0 {
        Seq::<(u8, Seq<u8>)>::empty()
    } else {
        section_block_list(bs.drop_last(), level) + seq![
            (
                BLOCK_GRAPH,
                zstd_encoding(seq![71u8, 9u8] + bs.last().0 + g_filtered(bs.last().1), level),
            ),
        ]
    }
}

/// One block of type `t` per group, each payload a `G` marker line then the
/// group's lines.
pub open spec fn marked_block_list(t: u8, bs: Seq<(Seq<u8>, Seq<Seq<u8>>)>, level: i32) -> Seq<
    (u8, Seq<u8>),
>
    decreases bs.len(),
{
    if bs.len() == 0 {
        Seq::<(u8, Seq<u8>)>::empty()
    } else {
        marked_block_list(t, bs.drop_last(), level) + seq![
            (
                t,
                zstd_encoding(
                    seq![71u8, 9u8] + bs.last().0 + seq![10u8] + unlines(bs.last().1),
                    level,
                ),
            ),
        ]
    }
}

/// Every block of the encoding of `text`: the dictionary block, a header
/// block when headers exist, then the section, node and edge blocks of the
/// grouping, in that order.
pub open spec fn encode_blocks(text: Seq<u8>, dict_payload: Seq<u8>, level: i32) -> Seq<
    (u8, Seq<u8>),
> {
    let g = group_fold(lines_of(text));
    seq![(BLOCK_DICTIONARY, zstd_encoding(dict_payload, 19))] + header_block_list(g.headers, level)
        + section_block_list(g.sections, level) + marked_block_list(BLOCK_NODE, g.nodes, level)
        + marked_block_list(BLOCK_EDGE, g.edges, level)
}

/// The encoder: six interning tables and the compression level for the
/// record blocks.
pub struct BTSGCompressor {
    pub node_dict: StringDictionary,
    pub edge_dict: StringDictionary,
    pub graph_dict: StringDictionary,
    pub read_dict: StringDictionary,
    pub chromosome_dict: StringDictionary,
    pub attribute_dict: StringDictionary,
    pub compression_level: i32,
}

impl BTSGCompressor {
    /// An encoder with empty tables.
    pub fn new(compression_level: i32) -> (r: BTSGCompressor)
        ensures
            r.compression_level == compression_level,
            r.node_dict@.entries.len() == 0 && r.node_dict@.next_id == 0,
            dict_wf(r.node_dict@) && dict_wf(r.edge_dict@) && dict_wf(r.graph_dict@),
            dict_wf(r.read_dict@) && dict_wf(r.chromosome_dict@) && dict_wf(r.attribute_dict@),
    {
        BTSGCompressor {
            node_dict: StringDictionary::new(),
            edge_dict: StringDictionary::new(),
            graph_dict: StringDictionary::new(),
            read_dict: StringDictionary::new(),
            chromosome_dict: StringDictionary::new(),
            attribute_dict: StringDictionary::new(),
            compression_level,
        }
    }

    /// One pass over the record lines filling the six interning tables:
    /// graph identifiers, node identifiers (from `N` and `E` records), edge
    /// identifiers, read identifiers, chromosome names and attribute tags.
    /// The tables are serialized into the container but never consulted to
    /// rewrite the text.
    fn build_dictionaries(&mut self, lines: &Vec<Vec<u8>>) -> (r: Result<(), BTSGError>)
        ensures
            final(self).compression_level == old(self).compression_level,
            dict_wf(old(self).node_dict@) ==> dict_wf(final(self).node_dict@),
            dict_wf(old(self).edge_dict@) ==> dict_wf(final(self).edge_dict@),
            dict_wf(old(self).graph_dict@) ==> dict_wf(final(self).graph_dict@),
            dict_wf(old(self).read_dict@) ==> dict_wf(final(self).read_dict@),
            dict_wf(old(self).chromosome_dict@) ==> dict_wf(final(self).chromosome_dict@),
            dict_wf(old(self).attribute_dict@) ==> dict_wf(final(self).attribute_dict@),
    {
        let mut i: usize = 0;
        while i < lines.len()
            invariant
                0 <= i <= lines@.len(),
                self.compression_level == old(self).compression_level,
                dict_wf(old(self).node_dict@) ==> dict_wf(self.node_dict@),
                dict_wf(old(self).edge_dict@) ==> dict_wf(self.edge_dict@),
                dict_wf(old(self).graph_dict@) ==> dict_wf(self.graph_dict@),
                dict_wf(old(self).read_dict@) ==> dict_wf(self.read_dict@),
                dict_wf(old(self).chromosome_dict@) ==> dict_wf(self.chromosome_dict@),
                dict_wf(old(self).attribute_dict@) ==> dict_wf(self.attribute_dict@),
            decreases lines.len() - i,
        {
            let l = &lines[i];
            i = i + 1;
            if is_blank(l) {
                continue ;
            }
            if l[0] == 35 {
                continue ;
            }
            let (tag, rest) = match crate::bytes::split_once(l, 9) {
                Some(p) => p,
                None => {
                    continue ;
                },
            };
            if tag.len() != 1 {
                continue ;
            }
            if tag[0] == 71 {
                let gid = match crate::bytes::split_once(&rest, 9) {
                    Some((gg, _)) => gg,
                    None => rest,
                };
                if self.graph_dict.next_id == u32::MAX {
                    return Err(BTSGError::Dictionary(Vec::new()));
                }
                let _ = self.graph_dict.add(&gid);
            } else if tag[0] == 78 {
                let fs = crate::bytes::split_all(&rest, 9);
                if fs.len() >= 3 {
                    if self.node_dict.next_id == u32::MAX {
                        return Err(BTSGError::Dictionary(Vec::new()));
                    }
                    let _ = self.node_dict.add(&fs[0]);
                    let chrom_end = crate::bytes::find_byte(&fs[1], 58);
                    if chrom_end < fs[1].len() {
                        let chrom = subvec(&fs[1], 0, chrom_end);
                        if self.chromosome_dict.next_id == u32::MAX {
                            return Err(BTSGError::Dictionary(Vec::new()));
                        }
                        let _ = self.chromosome_dict.add(&chrom);
                    }
                    let reads = crate::bytes::split_all(&fs[2], 44);
                    let mut rj: usize = 0;
                    while rj < reads.len()
                        invariant
                            0 <= rj <= reads@.len(),
                            self.compression_level == old(self).compression_level,
                            dict_wf(old(self).node_dict@) ==> dict_wf(self.node_dict@),
                            dict_wf(old(self).edge_dict@) ==> dict_wf(self.edge_dict@),
                            dict_wf(old(self).graph_dict@) ==> dict_wf(self.graph_dict@),
                            dict_wf(old(self).read_dict@) ==> dict_wf(self.read_dict@),
                            dict_wf(old(self).chromosome_dict@) ==> dict_wf(
                                self.chromosome_dict@,
                            ),
                            dict_wf(old(self).attribute_dict@) ==> dict_wf(self.attribute_dict@),
                        decreases reads.len() - rj,
                    {
                        match crate::bytes::split_once(&reads[rj], 58) {
                            Some((rid, _)) => {
                                if self.read_dict.next_id == u32::MAX {
                                    return Err(BTSGError::Dictionary(Vec::new()));
                                }
                                let _ = self.read_dict.add(&rid);
                            },
                            None => {},
                        }
                        rj = rj + 1;
                    }
                }
            } else if tag[0] == 69 {
                let fs = crate::bytes::split_all(&rest, 9);
                if fs.len() >= 3 {
                    if self.edge_dict.next_id == u32::MAX || self.node_dict.next_id
                        >= u32::MAX - 1 {
                        return Err(BTSGError::Dictionary(Vec::new()));
                    }
                    let _ = self.edge_dict.add(&fs[0]);
                    let _ = self.node_dict.add(&fs[1]);
                    if self.node_dict.next_id == u32::MAX {
                        return Err(BTSGError::Dictionary(Vec::new()));
                    }
                    let _ = self.node_dict.add(&fs[2]);
                }
            } else if tag[0] == 65 {
                let fs = crate::bytes::split_all(&rest, 9);
                if fs.len() >= 3 {
                    if self.attribute_dict.next_id == u32::MAX {
                        return Err(BTSGError::Dictionary(Vec::new()));
                    }
                    let _ = self.attribute_dict.add(&fs[2]);
                }
            }
        }
        Ok(())
    }

    /// The dictionary block's decompressed payload: six tables, each after
    /// its one-byte marker.
    fn dictionary_payload(&self) -> (r: Result<Vec<u8>, BTSGError>)
        ensures
            r is Ok ==> r.unwrap()@ == seq![1u8] + dict_bytes(self.node_dict@.entries) + seq![2u8]
                + dict_bytes(self.edge_dict@.entries) + seq![3u8] + dict_bytes(
                self.graph_dict@.entries,
            ) + seq![4u8] + dict_bytes(self.read_dict@.entries) + seq![5u8] + dict_bytes(
                self.chromosome_dict@.entries,
            ) + seq![6u8] + dict_bytes(self.attribute_dict@.entries),
    {
        let mut out: Vec<u8> = Vec::new();
        out.push(1);
        match self.node_dict.write_to(&mut out) {
            Ok(_) => {},
            Err(e) => {
                return Err(e);
            },
        }
        out.push(2);
        match self.edge_dict.write_to(&mut out) {
            Ok(_) => {},
            Err(e) => {
                return Err(e);
            },
        }
        out.push(3);
        match self.graph_dict.write_to(&mut out) {
            Ok(_) => {},
            Err(e) => {
                return Err(e);
            },
        }
        out.push(4);
        match self.read_dict.write_to(&mut out) {
            Ok(_) => {},
            Err(e) => {
                return Err(e);
            },
        }
        out.push(5);
        match self.chromosome_dict.write_to(&mut out) {
            Ok(_) => {},
            Err(e) => {
                return Err(e);
            },
        }
        out.push(6);
        match self.attribute_dict.write_to(&mut out) {
            Ok(_) => {},
            Err(e) => {
                return Err(e);
            },
        }
        proof {
            assert(out@ =~= seq![1u8] + dict_bytes(self.node_dict@.entries) + seq![2u8]
                + dict_bytes(self.edge_dict@.entries) + seq![3u8] + dict_bytes(
                self.graph_dict@.entries,
            ) + seq![4u8] + dict_bytes(self.read_dict@.entries) + seq![5u8] + dict_bytes(
                self.chromosome_dict@.entries,
            ) + seq![6u8] + dict_bytes(self.attribute_dict@.entries));
        }
        Ok(out)
    }

    /// Encode the text serialization of a document into a container: a
    /// dictionary block, a header block when there are headers, then one
    /// block per section's remaining records, per section's nodes and per
    /// section's edges.  On success the result is a well-formed container
    /// whose blocks all fit the size ceiling.
    pub fn compress(&mut self, input: &Vec<u8>) -> (r: Result<Vec<u8>, BTSGError>)
        ensures
            match r {
                Ok(v) => exists|dp: Seq<u8>|
                    parse_container(v@) == Some(
                        #[trigger] encode_blocks(input@, dp, old(self).compression_level),
                    ),
                Err(_) => true,
            },
            final(self).compression_level == old(self).compression_level,
    {
        let ghost lvl = self.compression_level;
        let lines = text_lines(input);
        match self.build_dictionaries(&lines) {
            Ok(_) => {},
            Err(e) => {
                return Err(e);
            },
        }
        let grouping = group_lines(&lines);
        let mut out: Vec<u8> = Vec::new();
        out.push(66);
        out.push(84);
        out.push(83);
        out.push(71);
        push_le32(&mut out, BTSG_VERSION);
        let ghost mut blocks: Seq<(u8, Seq<u8>)> = Seq::empty();
        proof {
            assert(out@ =~= container_bytes(blocks));
        }
        let dict_payload = match self.dictionary_payload() {
            Ok(p) => p,
            Err(e) => {
                return Err(e);
            },
        };
        let ghost dp = dict_payload@;
        let ghost base1 = seq![(BLOCK_DICTIONARY, zstd_encoding(dp, 19))];
        match append_block(&mut out, BLOCK_DICTIONARY, &dict_payload, 19) {
            Ok(c) => {
                proof {
                    let prev = blocks;
                    blocks = blocks + seq![(BLOCK_DICTIONARY, c@)];
                    lemma_container_snoc(prev, BLOCK_DICTIONARY, c@);
                    assert(out@ == container_bytes(blocks));
                    lemma_blocks_bounded_snoc(prev, BLOCK_DICTIONARY, c@);
                    assert(blocks =~~= base1);
                }
            },
            Err(e) => {
                return Err(e);
            },
        }
        let ghost base2 = base1 + header_block_list(grouping@.headers, lvl);
        if grouping.headers.len() > 0 {
            let payload = emit_unlines(&grouping.headers);
            match append_block(&mut out, BLOCK_HEADER, &payload, self.compression_level) {
                Ok(c) => {
                    proof {
                        let prev = blocks;
                        blocks = blocks + seq![(BLOCK_HEADER, c@)];
                        lemma_container_snoc(prev, BLOCK_HEADER, c@);
                        assert(out@ == container_bytes(blocks));
                        lemma_blocks_bounded_snoc(prev, BLOCK_HEADER, c@);
                        assert(blocks =~~= base2);
                    }
                },
                Err(e) => {
                    return Err(e);
                },
            }
        } else {
            proof {
                assert(blocks =~~= base2);
            }
        }
        let mut si: usize = 0;
        while si < grouping.sections.len()
            invariant
                lvl == self.compression_level,
                lvl == old(self).compression_level,
                0 <= si <= grouping.sections@.len(),
                out@ == container_bytes(blocks),
                blocks == base2 + section_block_list(
                    grouping.sections.deep_view().take(si as int),
                    lvl,
                ),
                forall|k: int|
                    0 <= k < blocks.len() ==> (#[trigger] blocks[k]).1.len() <= BLOCK_SIZE_LIMIT,
            decreases grouping.sections.len() - si,
        {
            proof {
                assert(grouping.sections.deep_view()[si as int] == (
                    grouping.sections@[si as int].0@,
                    grouping.sections@[si as int].1.deep_view(),
                ));
                assert(grouping.sections.deep_view().take(si as int + 1).drop_last()
                    =~~= grouping.sections.deep_view().take(si as int));
                assert(grouping.sections.deep_view().take(si as int + 1).last()
                    == grouping.sections.deep_view()[si as int]);
            }
            let payload = graph_payload_of(&grouping.sections[si].0, &grouping.sections[si].1);
            match append_block(&mut out, BLOCK_GRAPH, &payload, self.compression_level) {
                Ok(c) => {
                    proof {
                        let prev = blocks;
                        blocks = blocks + seq![(BLOCK_GRAPH, c@)];
                        lemma_container_snoc(prev, BLOCK_GRAPH, c@);
                        assert(out@ == container_bytes(blocks));
                        lemma_blocks_bounded_snoc(prev, BLOCK_GRAPH, c@);
                        assert(blocks =~~= base2 + section_block_list(
                            grouping.sections.deep_view().take(si as int + 1),
                            lvl,
                        ));
                    }
                },
                Err(e) => {
                    return Err(e);
                },
            }
            si = si + 1;
        }
        let ghost base3 = base2 + section_block_list(grouping@.sections, lvl);
        proof {
            assert(grouping.sections.deep_view().take(grouping.sections@.len() as int)
                =~~= grouping.sections.deep_view());
            assert(blocks =~~= base3);
        }
        let mut ni: usize = 0;
        while ni < grouping.nodes.len()
            invariant
                lvl == self.compression_level,
                lvl == old(self).compression_level,
                0 <= ni <= grouping.nodes@.len(),
                out@ == container_bytes(blocks),
                blocks == base3 + marked_block_list(
                    BLOCK_NODE,
                    grouping.nodes.deep_view().take(ni as int),
                    lvl,
                ),
                forall|k: int|
                    0 <= k < blocks.len() ==> (#[trigger] blocks[k]).1.len() <= BLOCK_SIZE_LIMIT,
            decreases grouping.nodes.len() - ni,
        {
            proof {
                assert(grouping.nodes.deep_view()[ni as int] == (
                    grouping.nodes@[ni as int].0@,
                    grouping.nodes@[ni as int].1.deep_view(),
                ));
                assert(grouping.nodes.deep_view().take(ni as int + 1).drop_last()
                    =~~= grouping.nodes.deep_view().take(ni as int));
                assert(grouping.nodes.deep_view().take(ni as int + 1).last()
                    == grouping.nodes.deep_view()[ni as int]);
            }
            let payload = marked_payload_of(&grouping.nodes[ni].0, &grouping.nodes[ni].1);
            match append_block(&mut out, BLOCK_NODE, &payload, self.compression_level) {
                Ok(c) => {
                    proof {
                        let prev = blocks;
                        blocks = blocks + seq![(BLOCK_NODE, c@)];
                        lemma_container_snoc(prev, BLOCK_NODE, c@);
                        assert(out@ == container_bytes(blocks));
                        lemma_blocks_bounded_snoc(prev, BLOCK_NODE, c@);
                        assert(blocks =~~= base3 + marked_block_list(
                            BLOCK_NODE,
                            grouping.nodes.deep_view().take(ni as int + 1),
                            lvl,
                        ));
                    }
                },
                Err(e) => {
                    return Err(e);
                },
            }
            ni = ni + 1;
        }
        let ghost base4 = base3 + marked_block_list(BLOCK_NODE, grouping@.nodes, lvl);
        proof {
            assert(grouping.nodes.deep_view().take(grouping.nodes@.len() as int)
                =~~= grouping.nodes.deep_view());
            assert(blocks =~~= base4);
        }
        let mut ei: usize = 0;
        while ei < grouping.edges.len()
            invariant
                lvl == self.compression_level,
                lvl == old(self).compression_level,
                0 <= ei <= grouping.edges@.len(),
                out@ == container_bytes(blocks),
                blocks == base4 + marked_block_list(
                    BLOCK_EDGE,
                    grouping.edges.deep_view().take(ei as int),
                    lvl,
                ),
                forall|k: int|
                    0 <= k < blocks.len() ==> (#[trigger] blocks[k]).1.len() <= BLOCK_SIZE_LIMIT,
            decreases grouping.edges.len() - ei,
        {
            proof {
                assert(grouping.edges.deep_view()[ei as int] == (
                    grouping.edges@[ei as int].0@,
                    grouping.edges@[ei as int].1.deep_view(),
                ));
                assert(grouping.edges.deep_view().take(ei as int + 1).drop_last()
                    =~~= grouping.edges.deep_view().take(ei as int));
                assert(grouping.edges.deep_view().take(ei as int + 1).last()
                    == grouping.edges.deep_view()[ei as int]);
            }
            let payload = marked_payload_of(&grouping.edges[ei].0, &grouping.edges[ei].1);
            match append_block(&mut out, BLOCK_EDGE, &payload, self.compression_level) {
                Ok(c) => {
                    proof {
                        let prev = blocks;
                        blocks = blocks + seq![(BLOCK_EDGE, c@)];
                        lemma_container_snoc(prev, BLOCK_EDGE, c@);
                        assert(out@ == container_bytes(blocks));
                        lemma_blocks_bounded_snoc(prev, BLOCK_EDGE, c@);
                        assert(blocks =~~= base4 + marked_block_list(
                            BLOCK_EDGE,
                            grouping.edges.deep_view().take(ei as int + 1),
                            lvl,
                        ));
                    }
                },
                Err(e) => {
                    return Err(e);
                },
            }
            ei = ei + 1;
        }
        let ghost base5 = base4 + marked_block_list(BLOCK_EDGE, grouping@.edges, lvl);
        proof {
            assert(grouping.edges.deep_view().take(grouping.edges@.len() as int)
                =~~= grouping.edges.deep_view());
            assert(blocks =~~= base5);
        }
        proof {
            lemma_container_roundtrip(blocks);
            assert(lines.deep_view() == lines_of(input@));
            assert(grouping@ == group_fold(lines_of(input@)));
            assert(blocks =~~= encode_blocks(input@, dp, lvl));
            assert(parse_container(out@) == Some(encode_blocks(input@, dp, lvl)));
        }
        Ok(out)
    }
}

/// Block types whose payload does not influence the reassembled text:
/// the dictionary block and every unknown type.
pub open spec fn payload_ignored(t: u8) -> bool {
    !(1 <= t <= 8)
}

/// Whether `ps` lists the decompressed payloads of a well-formed
/// container: the block types match and each stored payload is some zstd
/// frame for the listed bytes.
pub open spec fn container_decodes_to(data: Seq<u8>, ps: Seq<(u8, Seq<u8>)>) -> bool {
    match parse_container(data) {
        Some(cbs) => cbs.len() == ps.len() && forall|i: int|
            0 <= i < cbs.len() ==> (#[trigger] cbs[i]).0 == ps[i].0 && exists|l: i32|
                cbs[i].1 == zstd_encoding(ps[i].1, l),
        None => false,
    }
}

/// Data that is not a well-formed container decodes to nothing.
proof fn lemma_no_decode_without_parse(data: Seq<u8>)
    requires
        parse_container(data) is None || data.len() < 8 || data.take(4) != magic_bytes()
            || le32_value(data.subrange(4, 8)) != BTSG_VERSION,
    ensures
        forall|ps: Seq<(u8, Seq<u8>)>| !container_decodes_to(data, ps),
{
}

/// When one block's stored bytes are no zstd frame at all, the container
/// decodes to nothing.
proof fn lemma_payload_undecodable(data: Seq<u8>, k: int, stored: Seq<u8>)
    requires
        parse_container(data) matches Some(cbs) && 0 <= k < cbs.len() && cbs[k].1 == stored,
        forall|d: Seq<u8>, l: i32| stored != #[trigger] zstd_encoding(d, l),
    ensures
        forall|ps: Seq<(u8, Seq<u8>)>| !container_decodes_to(data, ps),
{
    let cbs = parse_container(data).unwrap();
    assert forall|ps: Seq<(u8, Seq<u8>)>| !container_decodes_to(data, ps) by {
        if container_decodes_to(data, ps) {
            let l = choose|l: i32| cbs[k].1 == zstd_encoding(ps[k].1, l);
            assert(stored == zstd_encoding(ps[k].1, l));
        }
    }
}

/// Mathematical image of the decoder's grouping state.
pub ghost struct DecodeV {
    pub headers: Seq<Seq<u8>>,
    pub graphs: Seq<(Seq<u8>, Seq<Seq<u8>>)>,
    pub nodes: Seq<(Seq<u8>, Seq<Seq<u8>>)>,
    pub edges: Seq<(Seq<u8>, Seq<Seq<u8>>)>,
}

pub open spec fn decode_init() -> DecodeV {
    DecodeV {
        headers: Seq::empty(),
        graphs: Seq::empty(),
        nodes: Seq::empty(),
        edges: Seq::empty(),
    }
}

/// How one decoded block changes the decoder's grouping: header lines
/// collect; a section block files all its lines under the identifier after
/// the first tab of its marker line; node and edge blocks file their lines
/// after the marker under the marker's identifier; the four remaining
/// record block types file under their marker or fall back to the headers;
/// dictionary and unknown blocks change nothing.
pub open spec fn decode_step(st: DecodeV, t: u8, p: Seq<u8>) -> DecodeV {
    let ls = lines_of(p);
    if t == BLOCK_HEADER {
        DecodeV { headers: st.headers + ls, ..st }
    } else if t == BLOCK_GRAPH {
        if ls.len() > 0 && find_idx(ls[0], 9) < ls[0].len() {
            DecodeV {
                graphs: bucket_add(st.graphs, ls[0].skip(find_idx(ls[0], 9) + 1), ls),
                ..st
            }
        } else {
            st
        }
    } else if t == BLOCK_NODE || t == BLOCK_EDGE {
        if ls.len() > 0 && is_g_line(ls[0]) {
            let gid = ls[0].skip(2);
            if t == BLOCK_NODE {
                DecodeV { nodes: bucket_add(st.nodes, gid, ls.drop_first()), ..st }
            } else {
                DecodeV { edges: bucket_add(st.edges, gid, ls.drop_first()), ..st }
            }
        } else {
            st
        }
    } else if t == BLOCK_ATTRIBUTE || t == BLOCK_CHAIN || t == BLOCK_PATH || t == BLOCK_LINK {
        if ls.len() > 0 {
            if is_g_line(ls[0]) {
                DecodeV { graphs: bucket_add(st.graphs, ls[0].skip(2), ls), ..st }
            } else {
                DecodeV { headers: st.headers + ls, ..st }
            }
        } else {
            st
        }
    } else {
        st
    }
}

/// The decoder's grouping after all blocks.
pub open spec fn decode_fold(ps: Seq<(u8, Seq<u8>)>) -> DecodeV
    decreases ps.len(),
{
    if ps.len() == 0 {
        decode_init()
    } else {
        decode_step(decode_fold(ps.drop_last()), ps.last().0, ps.last().1)
    }
}

proof fn lemma_decode_fold_snoc(ps: Seq<(u8, Seq<u8>)>, t: u8, p: Seq<u8>)
    ensures
        decode_fold(ps + seq![(t, p)]) == decode_step(decode_fold(ps), t, p),
{
    assert((ps + seq![(t, p)]).drop_last() =~~= ps);
    assert((ps + seq![(t, p)]).last() == (t, p));
}

/// Two block lists whose types agree and whose payloads agree wherever the
/// payload matters fold to the same grouping.
proof fn lemma_decode_fold_congruent(a: Seq<(u8, Seq<u8>)>, b: Seq<(u8, Seq<u8>)>)
    requires
        a.len() == b.len(),
        forall|i: int|
            0 <= i < a.len() ==> (#[trigger] a[i]).0 == b[i].0 && (payload_ignored(a[i].0) || a[i].1
                == b[i].1),
    ensures
        decode_fold(a) == decode_fold(b),
    decreases a.len(),
{
    if a.len() > 0 {
        assert(forall|i: int|
            0 <= i < a.len() - 1 ==> (#[trigger] a.drop_last()[i]) == a[i] && b.drop_last()[i]
                == b[i]);
        lemma_decode_fold_congruent(a.drop_last(), b.drop_last());
        assert(a.last() == a[a.len() - 1]);
        assert(b.last() == b[a.len() - 1]);
        if payload_ignored(a.last().0) {
            assert(decode_step(decode_fold(a.drop_last()), a.last().0, a.last().1) == decode_fold(
                a.drop_last(),
            ));
            assert(decode_step(decode_fold(b.drop_last()), b.last().0, b.last().1) == decode_fold(
                b.drop_last(),
            ));
        }
    }
}

/// The lines filed under `id`, or none.
pub open spec fn bucket_lines(bs: Seq<(Seq<u8>, Seq<Seq<u8>>)>, id: Seq<u8>) -> Seq<Seq<u8>> {
    let f = bucket_find(bs, id);
    if f < bs.len() {
        bs[f].1
    } else {
        Seq::<Seq<u8>>::empty()
    }
}

/// Section entries extended with a bare `G` marker entry for every key of
/// `others` that has no section entry yet.
pub open spec fn synth_fold(
    gs: Seq<(Seq<u8>, Seq<Seq<u8>>)>,
    others: Seq<(Seq<u8>, Seq<Seq<u8>>)>,
) -> Seq<(Seq<u8>, Seq<Seq<u8>>)>
    decreases others.len(),
{
    if others.len() == 0 {
        gs
    } else {
        let gs1 = synth_fold(gs, others.drop_last());
        let id = others.last().0;
        if bucket_find(gs1, id) < gs1.len() {
            gs1
        } else {
            gs1 + seq![(id, seq![seq![71u8, 9u8] + id])]
        }
    }
}

/// The reassembled text of the section entries: per entry its first line,
/// then the node lines, edge lines and remaining lines filed under its key.
pub open spec fn graphs_emit(
    gs: Seq<(Seq<u8>, Seq<Seq<u8>>)>,
    nodes: Seq<(Seq<u8>, Seq<Seq<u8>>)>,
    edges: Seq<(Seq<u8>, Seq<Seq<u8>>)>,
) -> Seq<u8>
    decreases gs.len(),
{
    if gs.len() == 0 {
        Seq::<u8>::empty()
    } else {
        graphs_emit(gs.drop_last(), nodes, edges) + (if gs.last().1.len() > 0 {
            gs.last().1[0] + seq![10u8] + unlines(bucket_lines(nodes, gs.last().0)) + unlines(
                bucket_lines(edges, gs.last().0),
            ) + unlines(gs.last().1.drop_first())
        } else {
            Seq::<u8>::empty()
        })
    }
}

/// The whole reassembled text of a decoded grouping: headers first, then
/// every section, with bare markers synthesized for sections only node or
/// edge blocks named.
pub open spec fn emit_spec(st: DecodeV) -> Seq<u8> {
    let gs = synth_fold(synth_fold(st.graphs, st.nodes), st.edges);
    unlines(st.headers) + graphs_emit(gs, st.nodes, st.edges)
}

/// The decoder: the six interning tables read back from the container.
pub struct BTSGDecompressor {
    pub node_dict: StringDictionary,
    pub edge_dict: StringDictionary,
    pub graph_dict: StringDictionary,
    pub read_dict: StringDictionary,
    pub chromosome_dict: StringDictionary,
    pub attribute_dict: StringDictionary,
}

impl View for BTSGDecompressor {
    type V = (DictV, DictV, DictV, DictV, DictV, DictV);

    open spec fn view(&self) -> (DictV, DictV, DictV, DictV, DictV, DictV) {
        (
            self.node_dict@,
            self.edge_dict@,
            self.graph_dict@,
            self.read_dict@,
            self.chromosome_dict@,
            self.attribute_dict@,
        )
    }
}

/// Parse one serialized table at `pos`: count, then per entry identifier,
/// length and bytes.  The successor position always advances.
/// The entries and end position of a serialized table: `count` entries
/// from `p`, each an identifier, a length and that many bytes.
pub open spec fn parse_dict_entries(data: Seq<u8>, p: int, count: int) -> Option<
    (Seq<(u32, Seq<u8>)>, int),
>
    decreases count,
{
    if count <= 0 {
        Some((Seq::<(u32, Seq<u8>)>::empty(), p))
    } else if p < 0 || p + 8 > data.len() {
        None
    } else {
        let id = le32_value(data.subrange(p, p + 4));
        let len = le32_value(data.subrange(p + 4, p + 8)) as int;
        if p + 8 + len > data.len() {
            None
        } else {
            match parse_dict_entries(data, p + 8 + len, count - 1) {
                None => None,
                Some(rest) => Some(
                    (seq![(id, data.subrange(p + 8, p + 8 + len))] + rest.0, rest.1),
                ),
            }
        }
    }
}

/// The table serialized at `pos`: a count, then that many entries.
pub open spec fn parse_dict_at(data: Seq<u8>, pos: int) -> Option<(Seq<(u32, Seq<u8>)>, int)> {
    if pos < 0 || pos + 4 > data.len() {
        None
    } else {
        parse_dict_entries(data, pos + 4, le32_value(data.subrange(pos, pos + 4)) as int)
    }
}

/// A table fit to intern with: identifiers and strings pairwise distinct
/// (the bijection), every identifier below the identifier space's top.
pub open spec fn dict_entries_ok(es: Seq<(u32, Seq<u8>)>) -> bool {
    &&& forall|i: int, j: int| 0 <= i < j < es.len() ==> (#[trigger] es[i]).0 != (#[trigger] es[j]).0
    &&& forall|i: int, j: int| 0 <= i < j < es.len() ==> (#[trigger] es[i]).1 != (#[trigger] es[j]).1
    &&& forall|i: int| 0 <= i < es.len() ==> (#[trigger] es[i]).0 < u32::MAX
}

/// Structural well-formedness of a table: a bijection whose identifiers
/// stay below the next free one.
pub open spec fn dict_wf(d: DictV) -> bool {
    &&& dict_entries_ok(d.entries)
    &&& forall|i: int| 0 <= i < d.entries.len() ==> (#[trigger] d.entries[i]).0 < d.next_id
}

/// Parse one serialized table at `pos`: exactly its serialized entries,
/// rejected when the bytes are malformed or the entries are no bijection.
fn read_dict_table(data: &Vec<u8>, pos: usize) -> (r: Result<(StringDictionary, usize), BTSGError>)
    requires
        pos <= data@.len(),
    ensures
        match r {
            Ok(p) => parse_dict_at(data@, pos as int) == Some((p.0@.entries, p.1 as int)) && pos
                < p.1 <= data@.len() && dict_wf(p.0@),
            Err(_) => parse_dict_at(data@, pos as int) is None || !dict_entries_ok(
                parse_dict_at(data@, pos as int).unwrap().0,
            ),
        },
{
    let total = data.len();
    if total < 4 || pos > total - 4 {
        return Err(BTSGError::Dictionary(Vec::new()));
    }
    let count = read_le32(data, pos);
    let mut dict = StringDictionary::new();
    let mut p = pos + 4;
    let mut i: u32 = 0;
    proof {
        assert(dict@.entries =~~= Seq::<(u32, Seq<u8>)>::empty());
    }
    while i < count
        invariant
            total == data@.len(),
            pos + 4 <= p <= data@.len(),
            0 <= i <= count,
            dict@.entries.len() == i,
            dict_entries_ok(dict@.entries),
            forall|j: int|
                0 <= j < dict@.entries.len() ==> (#[trigger] dict@.entries[j]).0 < dict@.next_id,
            parse_dict_at(data@, pos as int) == (match parse_dict_entries(
                data@,
                p as int,
                (count - i) as int,
            ) {
                None => None::<(Seq<(u32, Seq<u8>)>, int)>,
                Some(rest) => Some((dict@.entries + rest.0, rest.1)),
            }),
        decreases count - i,
    {
        if total < 8 || p > total - 8 {
            return Err(BTSGError::Dictionary(Vec::new()));
        }
        let id = read_le32(data, p);
        let len32 = read_le32(data, p + 4);
        let len = len32 as usize;
        if len > total - (p + 8) {
            return Err(BTSGError::Dictionary(Vec::new()));
        }
        let s = subvec(data, p + 8, p + 8 + len);
        if id == 0xffff_ffffu32 {
            proof {
                let c = (count - i) as int;
                match parse_dict_entries(data@, p as int + 8 + len as int, c - 1) {
                    None => {
                        assert(parse_dict_entries(data@, p as int, c) is None);
                    },
                    Some(rest) => {
                        let e0 = (id, s@);
                        assert(parse_dict_entries(data@, p as int, c) == Some(
                            (seq![e0] + rest.0, rest.1),
                        ));
                        let full = dict@.entries + (seq![e0] + rest.0);
                        assert(dict@.entries + (seq![e0] + rest.0) =~~= (dict@.entries + seq![e0])
                            + rest.0);
                        assert(parse_dict_at(data@, pos as int) == Some((full, rest.1)));
                        let bad = dict@.entries.len() as int;
                        assert(full[bad] == e0);
                        assert(!dict_entries_ok(full)) by {
                            if dict_entries_ok(full) {
                                assert(full[bad].0 < u32::MAX);
                            }
                        }
                    },
                }
            }
            return Err(BTSGError::Dictionary(Vec::new()));
        }
        // Reject duplicate identifiers or strings: the table must stay a
        // bijection.
        let mut dj: usize = 0;
        while dj < dict.entries.len()
            invariant
                total == data@.len(),
                pos + 4 <= p,
                p + 8 + len <= total,
                i < count,
                id == le32_value(data@.subrange(p as int, p as int + 4)),
                len == le32_value(data@.subrange(p as int + 4, p as int + 8)),
                s@ == data@.subrange(p as int + 8, p as int + 8 + len as int),
                parse_dict_at(data@, pos as int) == (match parse_dict_entries(
                    data@,
                    p as int,
                    (count - i) as int,
                ) {
                    None => None::<(Seq<(u32, Seq<u8>)>, int)>,
                    Some(rest) => Some((dict@.entries + rest.0, rest.1)),
                }),
                0 <= dj <= dict@.entries.len(),
                forall|j: int|
                    0 <= j < dj ==> (#[trigger] dict@.entries[j]).0 != id && dict@.entries[j].1
                        != s@,
            decreases dict.entries.len() - dj,
        {
            proof {
                assert(dict.entries.deep_view()[dj as int] == (
                    dict.entries@[dj as int].0,
                    dict.entries@[dj as int].1@,
                ));
            }
            let same_id = dict.entries[dj].0 == id;
            let same_s = eq_bytes(&dict.entries[dj].1, &s);
            if same_id || same_s {
                proof {
                    let c = (count - i) as int;
                    match parse_dict_entries(data@, p as int + 8 + len as int, c - 1) {
                        None => {
                            assert(parse_dict_entries(data@, p as int, c) is None);
                        },
                        Some(rest) => {
                            let e0 = (id, s@);
                            assert(parse_dict_entries(data@, p as int, c) == Some(
                                (seq![e0] + rest.0, rest.1),
                            ));
                            let full = dict@.entries + (seq![e0] + rest.0);
                            assert(dict@.entries + (seq![e0] + rest.0) =~~= (dict@.entries + seq![
                                e0,
                            ]) + rest.0);
                            assert(parse_dict_at(data@, pos as int) == Some((full, rest.1)));
                            let bad = dict@.entries.len() as int;
                            assert(full[bad] == e0);
                            assert(full[dj as int] == dict@.entries[dj as int]);
                            assert(!dict_entries_ok(full)) by {
                                if dict_entries_ok(full) {
                                    assert(full[dj as int].0 != full[bad].0);
                                    assert(full[dj as int].1 != full[bad].1);
                                }
                            }
                        },
                    }
                }
                return Err(BTSGError::Dictionary(Vec::new()));
            }
            dj = dj + 1;
        }
        let ghost entries_before = dict@.entries;
        let ghost sv = s@;
        dict.entries.push((id, s));
        if id >= dict.next_id {
            dict.next_id = id + 1;
        }
        proof {
            assert(dict@.entries =~~= entries_before + seq![(id, sv)]);
            assert forall|a: int, b: int|
                0 <= a < b < dict@.entries.len() implies (#[trigger] dict@.entries[a]).0 != (
            #[trigger] dict@.entries[b]).0 && dict@.entries[a].1 != dict@.entries[b].1 by {
                if b == entries_before.len() {
                    assert(dict@.entries[b] == (id, sv));
                    assert(entries_before[a].0 != id && entries_before[a].1 != sv);
                }
            }
        }
        p = p + 8 + len;
        i = i + 1;
        proof {
            assert(parse_dict_at(data@, pos as int) == (match parse_dict_entries(
                data@,
                p as int,
                (count - i) as int,
            ) {
                None => None::<(Seq<(u32, Seq<u8>)>, int)>,
                Some(rest) => Some((dict@.entries + rest.0, rest.1)),
            })) by {
                match parse_dict_entries(data@, p as int, (count - i) as int) {
                    None => {},
                    Some(rest) => {
                        assert((entries_before + (seq![(id, sv)] + rest.0)) =~~= (dict@.entries
                            + rest.0));
                    },
                }
            }
        }
    }
    proof {
        assert(parse_dict_entries(data@, p as int, 0) == Some(
            (Seq::<(u32, Seq<u8>)>::empty(), p as int),
        ));
        assert(dict@.entries + Seq::<(u32, Seq<u8>)>::empty() =~~= dict@.entries);
    }
    Ok((dict, p))
}

impl StringDictionary {
    /// Parse a serialized table from `data` at `pos`: the entry count,
    /// then per entry the identifier, length and bytes.
    pub fn read_from(data: &Vec<u8>, pos: usize) -> (r: Result<(StringDictionary, usize), BTSGError>)
        requires
            pos <= data@.len(),
        ensures
            match r {
                Ok(p) => parse_dict_at(data@, pos as int) == Some((p.0@.entries, p.1 as int))
                    && pos < p.1 <= data@.len() && dict_wf(p.0@),
                Err(_) => parse_dict_at(data@, pos as int) is None || !dict_entries_ok(
                    parse_dict_at(data@, pos as int).unwrap().0,
                ),
            },
    {
        read_dict_table(data, pos)
    }
}

impl BTSGDecompressor {
    /// A decoder with empty tables.
    pub fn new() -> (r: BTSGDecompressor) {
        BTSGDecompressor {
            node_dict: StringDictionary::new(),
            edge_dict: StringDictionary::new(),
            graph_dict: StringDictionary::new(),
            read_dict: StringDictionary::new(),
            chromosome_dict: StringDictionary::new(),
            attribute_dict: StringDictionary::new(),
        }
    }

    /// Read the six tables out of a decompressed dictionary payload, each
    /// after its one-byte marker; an unknown marker is a dictionary error.
    fn read_dictionaries(&mut self, payload: &Vec<u8>) -> (r: Result<(), BTSGError>) {
        let mut pos: usize = 0;
        while pos < payload.len()
            invariant
                0 <= pos <= payload@.len(),
            decreases payload.len() - pos,
        {
            let marker = payload[pos];
            let parsed = match read_dict_table(payload, pos + 1) {
                Ok(p) => p,
                Err(e) => {
                    return Err(e);
                },
            };
            let (dict, newpos) = parsed;
            if marker == 1 {
                self.node_dict = dict;
            } else if marker == 2 {
                self.edge_dict = dict;
            } else if marker == 3 {
                self.graph_dict = dict;
            } else if marker == 4 {
                self.read_dict = dict;
            } else if marker == 5 {
                self.chromosome_dict = dict;
            } else if marker == 6 {
                self.attribute_dict = dict;
            } else {
                return Err(BTSGError::Dictionary(Vec::new()));
            }
            pos = newpos;
        }
        Ok(())
    }

    /// Decode a container back into the document's text: verify magic and
    /// version, read blocks to the end of the stream, re-associate each
    /// record block with its section through the leading `G` marker line,
    /// and reassemble headers first, then each section's `G` line, nodes,
    /// edges and remaining records.  Unknown block types are skipped; a
    /// dictionary block that fails to decode is skipped as well.  Wrong
    /// magic or version fails before anything is read, leaving the decoder
    /// unchanged; on a well-formed container of decodable payloads the
    /// result is exactly the reassembly `emit_spec` of the decoded blocks.
    pub fn decompress_to_string(&mut self, input: &Vec<u8>) -> (r: Result<Vec<u8>, BTSGError>)
        ensures
            match r {
                Ok(_) => parse_container(input@) is Some,
                Err(_) => true,
            },
            forall|ps: Seq<(u8, Seq<u8>)>|
                #[trigger] container_decodes_to(input@, ps) ==> (r matches Ok(v) && v@
                    == emit_spec(decode_fold(ps))),
            (input@.len() < 8 || input@.take(4) != magic_bytes() || le32_value(
                input@.subrange(4, 8),
            ) != BTSG_VERSION) ==> (r matches Err(e) && e is InvalidFormat) && final(self)@ == old(
                self,
            )@,
    {
        if input.len() < 8 {
            proof {
                lemma_no_decode_without_parse(input@);
            }
            return Err(BTSGError::InvalidFormat(Vec::new()));
        }
        if input[0] != 66 || input[1] != 84 || input[2] != 83 || input[3] != 71 {
            proof {
                assert(input@.take(4) != magic_bytes()) by {
                    if input@.take(4) == magic_bytes() {
                        assert(input@.take(4)[0] == 66 && input@.take(4)[1] == 84 && input@.take(
                            4,
                        )[2] == 83 && input@.take(4)[3] == 71);
                    }
                }
                lemma_no_decode_without_parse(input@);
            }
            return Err(BTSGError::InvalidFormat(Vec::new()));
        }
        let version = read_le32(input, 4);
        if version != BTSG_VERSION {
            proof {
                lemma_no_decode_without_parse(input@);
            }
            return Err(BTSGError::InvalidFormat(Vec::new()));
        }
        proof {
            assert(input@.take(4) =~= magic_bytes());
        }
        let mut headers: Vec<Vec<u8>> = Vec::new();
        let mut graphs: Vec<(Vec<u8>, Vec<Vec<u8>>)> = Vec::new();
        let mut nodes: Vec<(Vec<u8>, Vec<Vec<u8>>)> = Vec::new();
        let mut edges: Vec<(Vec<u8>, Vec<Vec<u8>>)> = Vec::new();
        let mut pos: usize = 8;
        let ghost mut done: Seq<(u8, Seq<u8>)> = Seq::empty();
        proof {
            assert(headers.deep_view() =~~= decode_fold(done).headers);
            assert(graphs.deep_view() =~~= decode_fold(done).graphs);
            assert(nodes.deep_view() =~~= decode_fold(done).nodes);
            assert(edges.deep_view() =~~= decode_fold(done).edges);
        }
        while pos < input.len()
            invariant
                8 <= pos <= input@.len(),
                input@.len() >= 8,
                input@.take(4) == magic_bytes(),
                le32_value(input@.subrange(4, 8)) == BTSG_VERSION,
                parse_blocks(input@, pos as int) is Some ==> parse_blocks(input@, 8) is Some,
                parse_container(input@) matches Some(cbs) ==> done.len() <= cbs.len()
                    && parse_blocks(input@, pos as int) == Some(cbs.skip(done.len() as int)),
                parse_container(input@) matches Some(cbs) ==> forall|i: int|
                    0 <= i < done.len() ==> (#[trigger] done[i]).0 == cbs[i].0 && (payload_ignored(
                        cbs[i].0,
                    ) || (forall|d: Seq<u8>, l: i32|
                        cbs[i].1 == #[trigger] zstd_encoding(d, l) ==> done[i].1 == d)),
                headers.deep_view() == decode_fold(done).headers,
                graphs.deep_view() == decode_fold(done).graphs,
                nodes.deep_view() == decode_fold(done).nodes,
                edges.deep_view() == decode_fold(done).edges,
            decreases input.len() - pos,
        {
            let parsed = match Block::read_from(input, pos) {
                Ok(p) => p,
                Err(e) => {
                    proof {
                        // A failing block read contradicts a parseable
                        // container, so no decodable payload list exists.
                        if parse_container(input@) is Some {
                            let cbs = parse_container(input@).unwrap();
                            assert(parse_blocks(input@, pos as int) == Some(
                                cbs.skip(done.len() as int),
                            ));
                            assert(false);
                        }
                        lemma_no_decode_without_parse(input@);
                    }
                    return Err(e);
                },
            };
            let (block, newpos) = parsed;
            let ghost blen = le32_value(input@.subrange(pos + 1, pos + 5)) as int;
            proof {
                assert(parse_blocks(input@, newpos as int) is Some ==> parse_blocks(
                    input@,
                    pos as int,
                ) is Some);
                if parse_container(input@) is Some {
                    let cbs = parse_container(input@).unwrap();
                    let rest = cbs.skip(done.len() as int);
                    assert(parse_blocks(input@, pos as int) == Some(rest));
                    assert(rest == seq![
                        (input@[pos as int], input@.subrange(pos + 5, pos + 5 + blen)),
                    ] + parse_blocks(input@, pos as int + 5 + blen).unwrap());
                    assert(rest.len() >= 1);
                    assert(rest[0] == (block.block_type, block.data@));
                    assert(cbs[done.len() as int] == rest[0]);
                    assert(parse_blocks(input@, pos as int + 5 + blen) is Some);
                    let r2 = parse_blocks(input@, pos as int + 5 + blen).unwrap();
                    assert(rest == seq![
                        (input@[pos as int], input@.subrange(pos + 5, pos + 5 + blen)),
                    ] + r2);
                    assert(r2 =~~= rest.drop_first());
                    assert(rest.drop_first() =~~= cbs.skip(done.len() as int + 1));
                    assert(newpos == pos + 5 + blen);
                    assert(parse_blocks(input@, newpos as int) == Some(
                        cbs.skip(done.len() as int + 1),
                    ));
                }
            }
            let ghost done_before = done;
            let ghost st_before = decode_fold(done);
            if block.block_type == BLOCK_DICTIONARY {
                match zstd_decompress(&block.data) {
                    Ok(payload) => {
                        let _ = self.read_dictionaries(&payload);
                    },
                    Err(_) => {},
                }
                proof {
                    done = done + seq![(block.block_type, arbitrary::<Seq<u8>>())];
                    lemma_decode_fold_snoc(done_before, block.block_type, arbitrary::<Seq<u8>>());
                    assert(decode_fold(done) == st_before);
                }
            } else if block.block_type == BLOCK_HEADER {
                let payload = match zstd_decompress(&block.data) {
                    Ok(p) => p,
                    Err(m) => {
                        proof {
                            if parse_container(input@) is Some {
                                lemma_payload_undecodable(
                                    input@,
                                    done.len() as int,
                                    block.data@,
                                );
                            } else {
                                lemma_no_decode_without_parse(input@);
                            }
                        }
                        return Err(BTSGError::Compression(m));
                    },
                };
                let ls = text_lines(&payload);
                headers = concat_lines(&headers, &ls);
                proof {
                    done = done + seq![(block.block_type, payload@)];
                    lemma_decode_fold_snoc(done_before, block.block_type, payload@);
                    assert(headers.deep_view() =~~= decode_fold(done).headers);
                }
            } else if block.block_type == BLOCK_GRAPH {
                let payload = match zstd_decompress(&block.data) {
                    Ok(p) => p,
                    Err(m) => {
                        proof {
                            if parse_container(input@) is Some {
                                lemma_payload_undecodable(
                                    input@,
                                    done.len() as int,
                                    block.data@,
                                );
                            } else {
                                lemma_no_decode_without_parse(input@);
                            }
                        }
                        return Err(BTSGError::Compression(m));
                    },
                };
                let ls = text_lines(&payload);
                proof {
                    done = done + seq![(block.block_type, payload@)];
                    lemma_decode_fold_snoc(done_before, block.block_type, payload@);
                }
                if ls.len() > 0 {
                    proof {
                        assert(ls.deep_view()[0] == ls@[0]@);
                    }
                    match crate::bytes::split_once(&ls[0], 9) {
                        Some((_, gid)) => {
                            graphs = bucket_added(&graphs, &gid, &ls);
                            proof {
                                assert(graphs.deep_view() =~~= decode_fold(done).graphs);
                            }
                        },
                        None => {
                            proof {
                                assert(graphs.deep_view() =~~= decode_fold(done).graphs);
                            }
                        },
                    }
                } else {
                    proof {
                        assert(graphs.deep_view() =~~= decode_fold(done).graphs);
                    }
                }
            } else if block.block_type == BLOCK_NODE || block.block_type == BLOCK_EDGE {
                let payload = match zstd_decompress(&block.data) {
                    Ok(p) => p,
                    Err(m) => {
                        proof {
                            if parse_container(input@) is Some {
                                lemma_payload_undecodable(
                                    input@,
                                    done.len() as int,
                                    block.data@,
                                );
                            } else {
                                lemma_no_decode_without_parse(input@);
                            }
                        }
                        return Err(BTSGError::Compression(m));
                    },
                };
                let mut ls = text_lines(&payload);
                proof {
                    done = done + seq![(block.block_type, payload@)];
                    lemma_decode_fold_snoc(done_before, block.block_type, payload@);
                }
                if ls.len() > 0 {
                    let ghost lsdv = ls.deep_view();
                    proof {
                        assert(lsdv[0] == ls@[0]@);
                    }
                    let first = ls.remove(0);
                    proof {
                        assert(ls.deep_view() =~~= lsdv.drop_first());
                        assert(first@ == lsdv[0]);
                    }
                    if first.len() >= 2 && first[0] == 71 && first[1] == 9 {
                        let gid = subvec(&first, 2, first.len());
                        proof {
                            assert(gid@ =~= first@.skip(2));
                        }
                        if block.block_type == BLOCK_NODE {
                            nodes = bucket_added(&nodes, &gid, &ls);
                            proof {
                                assert(nodes.deep_view() =~~= decode_fold(done).nodes);
                            }
                        } else {
                            edges = bucket_added(&edges, &gid, &ls);
                            proof {
                                assert(edges.deep_view() =~~= decode_fold(done).edges);
                            }
                        }
                    } else {
                        proof {
                            assert(nodes.deep_view() =~~= decode_fold(done).nodes);
                            assert(edges.deep_view() =~~= decode_fold(done).edges);
                        }
                    }
                } else {
                    proof {
                        assert(nodes.deep_view() =~~= decode_fold(done).nodes);
                        assert(edges.deep_view() =~~= decode_fold(done).edges);
                    }
                }
            } else if block.block_type == BLOCK_ATTRIBUTE || block.block_type == BLOCK_CHAIN
                || block.block_type == BLOCK_PATH || block.block_type == BLOCK_LINK {
                let payload = match zstd_decompress(&block.data) {
                    Ok(p) => p,
                    Err(m) => {
                        proof {
                            if parse_container(input@) is Some {
                                lemma_payload_undecodable(
                                    input@,
                                    done.len() as int,
                                    block.data@,
                                );
                            } else {
                                lemma_no_decode_without_parse(input@);
                            }
                        }
                        return Err(BTSGError::Compression(m));
                    },
                };
                let ls = text_lines(&payload);
                proof {
                    done = done + seq![(block.block_type, payload@)];
                    lemma_decode_fold_snoc(done_before, block.block_type, payload@);
                }
                if ls.len() > 0 {
                    proof {
                        assert(ls.deep_view()[0] == ls@[0]@);
                    }
                    if ls[0].len() >= 2 && ls[0][0] == 71 && ls[0][1] == 9 {
                        let gid = subvec(&ls[0], 2, ls[0].len());
                        proof {
                            assert(gid@ =~= ls@[0]@.skip(2));
                        }
                        graphs = bucket_added(&graphs, &gid, &ls);
                        proof {
                            assert(graphs.deep_view() =~~= decode_fold(done).graphs);
                        }
                    } else {
                        headers = concat_lines(&headers, &ls);
                        proof {
                            assert(headers.deep_view() =~~= decode_fold(done).headers);
                        }
                    }
                } else {
                    proof {
                        assert(headers.deep_view() =~~= decode_fold(done).headers);
                        assert(graphs.deep_view() =~~= decode_fold(done).graphs);
                    }
                }
            } else {
                proof {
                    done = done + seq![(block.block_type, arbitrary::<Seq<u8>>())];
                    lemma_decode_fold_snoc(done_before, block.block_type, arbitrary::<Seq<u8>>());
                }
            }
            proof {
                assert(headers.deep_view() =~~= decode_fold(done).headers);
                assert(graphs.deep_view() =~~= decode_fold(done).graphs);
                assert(nodes.deep_view() =~~= decode_fold(done).nodes);
                assert(edges.deep_view() =~~= decode_fold(done).edges);
            }
            pos = newpos;
        }
        proof {
            assert(parse_blocks(input@, input@.len() as int) is Some);
            assert(parse_container(input@) is Some);
        }
        // A node or edge group whose section block never appeared still
        // needs a section line.
        let ghost graphs0 = graphs.deep_view();
        let mut oi: usize = 0;
        proof {
            assert(graphs.deep_view() =~~= synth_fold(graphs0, nodes.deep_view().take(0)));
        }
        while oi < nodes.len()
            invariant
                0 <= oi <= nodes@.len(),
                parse_container(input@) is Some,
                graphs.deep_view() == synth_fold(graphs0, nodes.deep_view().take(oi as int)),
            decreases nodes.len() - oi,
        {
            proof {
                assert(nodes.deep_view()[oi as int] == (
                    nodes@[oi as int].0@,
                    nodes@[oi as int].1.deep_view(),
                ));
                assert(nodes.deep_view().take(oi as int + 1).drop_last()
                    =~~= nodes.deep_view().take(oi as int));
                assert(nodes.deep_view().take(oi as int + 1).last() == nodes.deep_view()[oi as int]);
            }
            let gid = clone_bytes(&nodes[oi].0);
            let ghost gpre = graphs.deep_view();
            proof {
                lemma_bucket_find(gpre, gid@);
            }
            if bucket_missing(&graphs, &gid) {
                let mut marker: Vec<Vec<u8>> = Vec::new();
                let mut gl: Vec<u8> = Vec::new();
                gl.push(71);
                gl.push(9);
                push_bytes(&mut gl, &gid);
                let ghost glv = gl@;
                marker.push(gl);
                proof {
                    assert(marker.deep_view() =~~= seq![glv]);
                    assert(glv =~= seq![71u8, 9u8] + gid@);
                }
                graphs = bucket_added(&graphs, &gid, &marker);
                proof {
                    assert(graphs.deep_view() =~~= gpre + seq![
                        (gid@, seq![seq![71u8, 9u8] + gid@]),
                    ]);
                }
            }
            oi = oi + 1;
            proof {
                assert(graphs.deep_view() =~~= synth_fold(
                    graphs0,
                    nodes.deep_view().take(oi as int),
                ));
            }
        }
        let ghost graphs1 = synth_fold(graphs0, nodes.deep_view());
        proof {
            assert(nodes.deep_view().take(nodes@.len() as int) =~~= nodes.deep_view());
            assert(graphs.deep_view() =~~= graphs1);
        }
        let mut oj: usize = 0;
        while oj < edges.len()
            invariant
                0 <= oj <= edges@.len(),
                parse_container(input@) is Some,
                graphs.deep_view() == synth_fold(graphs1, edges.deep_view().take(oj as int)),
            decreases edges.len() - oj,
        {
            proof {
                assert(edges.deep_view()[oj as int] == (
                    edges@[oj as int].0@,
                    edges@[oj as int].1.deep_view(),
                ));
                assert(edges.deep_view().take(oj as int + 1).drop_last()
                    =~~= edges.deep_view().take(oj as int));
                assert(edges.deep_view().take(oj as int + 1).last() == edges.deep_view()[oj as int]);
            }
            let gid = clone_bytes(&edges[oj].0);
            let ghost gpre = graphs.deep_view();
            proof {
                lemma_bucket_find(gpre, gid@);
            }
            if bucket_missing(&graphs, &gid) {
                let mut marker: Vec<Vec<u8>> = Vec::new();
                let mut gl: Vec<u8> = Vec::new();
                gl.push(71);
                gl.push(9);
                push_bytes(&mut gl, &gid);
                let ghost glv = gl@;
                marker.push(gl);
                proof {
                    assert(marker.deep_view() =~~= seq![glv]);
                    assert(glv =~= seq![71u8, 9u8] + gid@);
                }
                graphs = bucket_added(&graphs, &gid, &marker);
                proof {
                    assert(graphs.deep_view() =~~= gpre + seq![
                        (gid@, seq![seq![71u8, 9u8] + gid@]),
                    ]);
                }
            }
            oj = oj + 1;
            proof {
                assert(graphs.deep_view() =~~= synth_fold(
                    graphs1,
                    edges.deep_view().take(oj as int),
                ));
            }
        }
        proof {
            assert(edges.deep_view().take(edges@.len() as int) =~~= edges.deep_view());
            assert(graphs.deep_view() =~~= synth_fold(graphs1, edges.deep_view()));
        }
        let out = assemble_output(&headers, &graphs, &nodes, &edges);
        proof {
            assert(graphs.deep_view().take(graphs@.len() as int) =~~= graphs.deep_view());
            let st = decode_fold(done);
            assert forall|ps: Seq<(u8, Seq<u8>)>|
                #[trigger] container_decodes_to(input@, ps) implies out@ == emit_spec(
                decode_fold(ps),
            ) by {
                let cbs = parse_container(input@).unwrap();
                assert(cbs.skip(done.len() as int).len() == 0);
                assert(done.len() == cbs.len());
                assert(ps.len() == cbs.len());
                assert forall|i: int|
                    0 <= i < done.len() implies (#[trigger] done[i]).0 == ps[i].0 && (
                payload_ignored(done[i].0) || done[i].1 == ps[i].1) by {
                    assert(done[i].0 == cbs[i].0);
                    assert(ps[i].0 == cbs[i].0);
                    if !payload_ignored(done[i].0) {
                        let l = choose|l: i32| cbs[i].1 == zstd_encoding(ps[i].1, l);
                        assert(done[i].1 == ps[i].1);
                    }
                }
                lemma_decode_fold_congruent(done, ps);
                assert(decode_fold(ps) == st);
                assert(out@ == emit_spec(st));
            }
        }
        Ok(out)
    }
}

/// The uncompressed counterpart of `encode_blocks`: the same block types
/// with the payloads themselves.
pub open spec fn plain_header_block_list(hs: Seq<Seq<u8>>) -> Seq<(u8, Seq<u8>)> {
    if hs.len() > 0 {
        seq![(BLOCK_HEADER, unlines(hs))]
    } else {
        Seq::<(u8, Seq<u8>)>::empty()
    }
}

pub open spec fn plain_section_block_list(bs: Seq<(Seq<u8>, Seq<Seq<u8>>)>) -> Seq<(u8, Seq<u8>)>
    decreases bs.len(),
{
    if bs.len() == 0 {
        Seq::<(u8, Seq<u8>)>::empty()
    } else {
        plain_section_block_list(bs.drop_last()) + seq![
            (BLOCK_GRAPH, seq![71u8, 9u8] + bs.last().0 + g_filtered(bs.last().1)),
        ]
    }
}

pub open spec fn plain_marked_block_list(t: u8, bs: Seq<(Seq<u8>, Seq<Seq<u8>>)>) -> Seq<
    (u8, Seq<u8>),
>
    decreases bs.len(),
{
    if bs.len() == 0 {
        Seq::<(u8, Seq<u8>)>::empty()
    } else {
        plain_marked_block_list(t, bs.drop_last()) + seq![
            (t, seq![71u8, 9u8] + bs.last().0 + seq![10u8] + unlines(bs.last().1)),
        ]
    }
}

/// The decompressed payloads the encoding of `text` carries.
pub open spec fn plain_blocks(text: Seq<u8>, dict_payload: Seq<u8>) -> Seq<(u8, Seq<u8>)> {
    let g = group_fold(lines_of(text));
    seq![(BLOCK_DICTIONARY, dict_payload)] + plain_header_block_list(g.headers)
        + plain_section_block_list(g.sections) + plain_marked_block_list(BLOCK_NODE, g.nodes)
        + plain_marked_block_list(BLOCK_EDGE, g.edges)
}

proof fn lemma_plain_section_align(bs: Seq<(Seq<u8>, Seq<Seq<u8>>)>, level: i32, i: int)
    requires
        0 <= i < bs.len(),
    ensures
        section_block_list(bs, level).len() == bs.len(),
        plain_section_block_list(bs).len() == bs.len(),
        section_block_list(bs, level)[i].0 == plain_section_block_list(bs)[i].0,
        section_block_list(bs, level)[i].1 == zstd_encoding(
            plain_section_block_list(bs)[i].1,
            level,
        ),
    decreases bs.len(),
{
    lemma_list_lens(bs, BLOCK_GRAPH, level);
    lemma_list_lens(bs.drop_last(), BLOCK_GRAPH, level);
    if i < bs.len() - 1 {
        lemma_plain_section_align(bs.drop_last(), level, i);
    }
}

proof fn lemma_plain_marked_align(t: u8, bs: Seq<(Seq<u8>, Seq<Seq<u8>>)>, level: i32, i: int)
    requires
        0 <= i < bs.len(),
    ensures
        marked_block_list(t, bs, level).len() == bs.len(),
        plain_marked_block_list(t, bs).len() == bs.len(),
        marked_block_list(t, bs, level)[i].0 == plain_marked_block_list(t, bs)[i].0,
        marked_block_list(t, bs, level)[i].1 == zstd_encoding(
            plain_marked_block_list(t, bs)[i].1,
            level,
        ),
    decreases bs.len(),
{
    lemma_list_lens(bs, t, level);
    lemma_list_lens(bs.drop_last(), t, level);
    if i < bs.len() - 1 {
        lemma_plain_marked_align(t, bs.drop_last(), level, i);
    }
}

proof fn lemma_list_lens(bs: Seq<(Seq<u8>, Seq<Seq<u8>>)>, t: u8, level: i32)
    ensures
        section_block_list(bs, level).len() == bs.len(),
        plain_section_block_list(bs).len() == bs.len(),
        marked_block_list(t, bs, level).len() == bs.len(),
        plain_marked_block_list(t, bs).len() == bs.len(),
    decreases bs.len(),
{
    if bs.len() > 0 {
        lemma_list_lens(bs.drop_last(), t, level);
    }
}

/// The round trip, by composition: what `compress` promises of its output
/// is exactly what `decompress_to_string` demands of its input, so
/// decoding an encoding of `text` must succeed and return the reassembly
/// of the uncompressed block payloads of `text`.
pub proof fn lemma_round_trip_pipeline(
    text: Seq<u8>,
    dict_payload: Seq<u8>,
    level: i32,
    encoded: Seq<u8>,
)
    requires
        parse_container(encoded) == Some(encode_blocks(text, dict_payload, level)),
    ensures
        container_decodes_to(encoded, plain_blocks(text, dict_payload)),
{
    let cbs = encode_blocks(text, dict_payload, level);
    let ps = plain_blocks(text, dict_payload);
    let g = group_fold(lines_of(text));
    lemma_list_lens(g.sections, BLOCK_GRAPH, level);
    lemma_list_lens(g.nodes, BLOCK_NODE, level);
    lemma_list_lens(g.edges, BLOCK_EDGE, level);
    assert(cbs.len() == ps.len());
    assert forall|i: int|
        0 <= i < cbs.len() implies (#[trigger] cbs[i]).0 == ps[i].0 && exists|l: i32|
        cbs[i].1 == zstd_encoding(ps[i].1, l) by {
        let hb = header_block_list(g.headers, level);
        let sb = section_block_list(g.sections, level);
        let nb = marked_block_list(BLOCK_NODE, g.nodes, level);
        let base = 1 + hb.len() + sb.len() + nb.len();
        if i == 0 {
            assert(cbs[0] == (BLOCK_DICTIONARY, zstd_encoding(dict_payload, 19)));
            assert(ps[0] == (BLOCK_DICTIONARY, dict_payload));
            assert(cbs[0].1 == zstd_encoding(ps[0].1, 19i32));
        } else if i < 1 + hb.len() {
            assert(cbs[i] == (BLOCK_HEADER, zstd_encoding(unlines(g.headers), level)));
            assert(ps[i] == (BLOCK_HEADER, unlines(g.headers)));
            assert(cbs[i].1 == zstd_encoding(ps[i].1, level));
        } else if i < 1 + hb.len() + sb.len() {
            let j = i - 1 - hb.len();
            lemma_plain_section_align(g.sections, level, j);
            assert(cbs[i] == sb[j]);
            assert(ps[i] == plain_section_block_list(g.sections)[j]);
            assert(cbs[i].1 == zstd_encoding(ps[i].1, level));
        } else if i < base {
            let j = i - 1 - hb.len() - sb.len();
            lemma_plain_marked_align(BLOCK_NODE, g.nodes, level, j);
            assert(cbs[i] == nb[j]);
            assert(ps[i] == plain_marked_block_list(BLOCK_NODE, g.nodes)[j]);
            assert(cbs[i].1 == zstd_encoding(ps[i].1, level));
        } else {
            let j = i - base;
            lemma_plain_marked_align(BLOCK_EDGE, g.edges, level, j);
            assert(cbs[i] == marked_block_list(BLOCK_EDGE, g.edges, level)[j]);
            assert(ps[i] == plain_marked_block_list(BLOCK_EDGE, g.edges)[j]);
            assert(cbs[i].1 == zstd_encoding(ps[i].1, level));
        }
    }
}

/// Decode a container and build the document from the text it carries.
pub fn from_btsg(data: &Vec<u8>) -> (r: Result<crate::graph::TSGraph, BTSGError>)
    ensures
        match r {
            Ok(doc) => parse_container(data@) is Some && crate::graph::doc_wf(doc@)
                && crate::graph::doc_valid(doc@),
            Err(_) => true,
        },
        forall|ps: Seq<(u8, Seq<u8>)>|
            #[trigger] container_decodes_to(data@, ps) ==> (r is Ok || (r matches Err(e) && e
                is InvalidFormat)),
{
    let mut decoder = BTSGDecompressor::new();
    let text = match decoder.decompress_to_string(data) {
        Ok(t) => t,
        Err(e) => {
            return Err(e);
        },
    };
    match crate::graph::TSGraph::from_text(&text) {
        Ok(doc) => Ok(doc),
        Err(e) => Err(BTSGError::InvalidFormat(clone_bytes(e.context()))),
    }
}

/// Serialize the document to text and encode it into a container.
pub fn to_btsg(doc: &crate::graph::TSGraph, compression_level: i32) -> (r: Result<
    Vec<u8>,
    BTSGError,
>)
    requires
        crate::graph::doc_wf(doc@),
    ensures
        match r {
            Ok(v) => exists|dp: Seq<u8>|
                parse_container(v@) == Some(
                    #[trigger] encode_blocks(
                        unlines(crate::graph::doc_lines(doc@)),
                        dp,
                        compression_level,
                    ),
                ),
            Err(_) => true,
        },
{
    let text = doc.to_text();
    let mut encoder = BTSGCompressor::new(compression_level);
    encoder.compress(&text)
}


/// Assemble the decoded text: all header lines, then per section entry its
/// first line, the node lines, the edge lines, and its remaining lines.
#[verifier::spinoff_prover]
#[verifier::rlimit(100)]
fn assemble_output(
    headers: &Vec<Vec<u8>>,
    graphs: &Vec<(Vec<u8>, Vec<Vec<u8>>)>,
    nodes: &Vec<(Vec<u8>, Vec<Vec<u8>>)>,
    edges: &Vec<(Vec<u8>, Vec<Vec<u8>>)>,
) -> (out: Vec<u8>)
    ensures
        out@ == unlines(headers.deep_view()) + graphs_emit(
            graphs.deep_view(),
            nodes.deep_view(),
            edges.deep_view(),
        ),
{
    let mut out = emit_unlines(headers);
    let mut gi: usize = 0;
    proof {
        assert(graphs_emit(graphs.deep_view().take(0), nodes.deep_view(), edges.deep_view())
            =~= Seq::<u8>::empty());
        assert(out@ =~= unlines(headers.deep_view()) + graphs_emit(
            graphs.deep_view().take(0),
            nodes.deep_view(),
            edges.deep_view(),
        ));
    }
    while gi < graphs.len()
        invariant
            0 <= gi <= graphs@.len(),
            out@ == unlines(headers.deep_view()) + graphs_emit(
                graphs.deep_view().take(gi as int),
                nodes.deep_view(),
                edges.deep_view(),
            ),
        decreases graphs.len() - gi,
    {
        proof {
            assert(graphs.deep_view()[gi as int] == (
                graphs@[gi as int].0@,
                graphs@[gi as int].1.deep_view(),
            ));
            assert(graphs.deep_view().take(gi as int + 1).drop_last()
                =~~= graphs.deep_view().take(gi as int));
            assert(graphs.deep_view().take(gi as int + 1).last() == graphs.deep_view()[gi as int]);
        }
        let entry_lines = crate::path::clone_lines(&graphs[gi].1);
        if entry_lines.len() > 0 {
            let ghost eldv = entry_lines.deep_view();
            let mut rest = entry_lines;
            proof {
                assert(eldv[0] == rest@[0]@);
            }
            let first = rest.remove(0);
            proof {
                assert(rest.deep_view() =~~= eldv.drop_first());
                assert(first@ == eldv[0]);
            }
            push_bytes(&mut out, &first);
            out.push(10);
            match bucket_lookup(nodes, &graphs[gi].0) {
                Some(ls) => {
                    let t = emit_unlines(ls);
                    push_bytes(&mut out, &t);
                },
                None => {},
            }
            match bucket_lookup(edges, &graphs[gi].0) {
                Some(ls) => {
                    let t = emit_unlines(ls);
                    push_bytes(&mut out, &t);
                },
                None => {},
            }
            let t = emit_unlines(&rest);
            push_bytes(&mut out, &t);
            proof {
                assert(out@ =~= unlines(headers.deep_view()) + graphs_emit(
                    graphs.deep_view().take(gi as int + 1),
                    nodes.deep_view(),
                    edges.deep_view(),
                ));
            }
        } else {
            proof {
                assert(out@ =~= unlines(headers.deep_view()) + graphs_emit(
                    graphs.deep_view().take(gi as int + 1),
                    nodes.deep_view(),
                    edges.deep_view(),
                ));
            }
        }
        gi = gi + 1;
    }
    proof {
        assert(graphs.deep_view().take(graphs@.len() as int) =~~= graphs.deep_view());
    }
    out
}

/// Whether no bucket carries this key.
fn bucket_missing(b: &Vec<(Vec<u8>, Vec<Vec<u8>>)>, id: &Vec<u8>) -> (r: bool)
    ensures
        r == (bucket_find(b.deep_view(), id@) == b.deep_view().len()),
{
    proof {
        lemma_bucket_find(b.deep_view(), id@);
    }
    let mut i: usize = 0;
    while i < b.len()
        invariant
            0 <= i <= b@.len(),
            forall|k: int| 0 <= k < i ==> b.deep_view()[k].0 != id@,
            0 <= bucket_find(b.deep_view(), id@) <= b.deep_view().len(),
            bucket_find(b.deep_view(), id@) < b.deep_view().len() ==> b.deep_view()[bucket_find(
                b.deep_view(),
                id@,
            )].0 == id@,
            forall|k: int| 0 <= k < bucket_find(b.deep_view(), id@) ==> b.deep_view()[k].0 != id@,
        decreases b.len() - i,
    {
        proof {
            assert(b.deep_view()[i as int] == (b@[i as int].0@, b@[i as int].1.deep_view()));
        }
        let same = eq_bytes(&b[i].0, id);
        if same {
            proof {
                let f = bucket_find(b.deep_view(), id@);
                if f > i {
                    assert(b.deep_view()[i as int].0 != id@);
                }
            }
            return false;
        }
        i = i + 1;
    }
    proof {
        if bucket_find(b.deep_view(), id@) < b.deep_view().len() {
            assert(b.deep_view()[bucket_find(b.deep_view(), id@)].0 != id@);
        }
    }
    true
}

/// The lines of the bucket carrying this key, when one does.
fn bucket_lookup<'a>(b: &'a Vec<(Vec<u8>, Vec<Vec<u8>>)>, id: &Vec<u8>) -> (r: Option<
    &'a Vec<Vec<u8>>,
>)
    ensures
        match r {
            Some(ls) => bucket_find(b.deep_view(), id@) < b.deep_view().len() && ls.deep_view()
                == b.deep_view()[bucket_find(b.deep_view(), id@)].1,
            None => bucket_find(b.deep_view(), id@) == b.deep_view().len(),
        },
{
    proof {
        lemma_bucket_find(b.deep_view(), id@);
    }
    let mut i: usize = 0;
    while i < b.len()
        invariant
            0 <= i <= b@.len(),
            forall|k: int| 0 <= k < i ==> b.deep_view()[k].0 != id@,
            0 <= bucket_find(b.deep_view(), id@) <= b.deep_view().len(),
            bucket_find(b.deep_view(), id@) < b.deep_view().len() ==> b.deep_view()[bucket_find(
                b.deep_view(),
                id@,
            )].0 == id@,
            forall|k: int| 0 <= k < bucket_find(b.deep_view(), id@) ==> b.deep_view()[k].0 != id@,
        decreases b.len() - i,
    {
        proof {
            assert(b.deep_view()[i as int] == (b@[i as int].0@, b@[i as int].1.deep_view()));
        }
        let same = eq_bytes(&b[i].0, id);
        if same {
            proof {
                let f = bucket_find(b.deep_view(), id@);
                if f < i {
                    assert(b.deep_view()[f].0 != id@);
                }
                if f > i {
                    assert(b.deep_view()[i as int].0 != id@);
                }
            }
            return Some(&b[i].1);
        }
        i = i + 1;
    }
    proof {
        if bucket_find(b.deep_view(), id@) < b.deep_view().len() {
            assert(b.deep_view()[bucket_find(b.deep_view(), id@)].0 != id@);
        }
    }
    None
}

/// Appending one serialized block extends the container bytes by exactly
/// that block.
proof fn lemma_container_snoc(prev: Seq<(u8, Seq<u8>)>, t: u8, c: Seq<u8>)
    ensures
        container_bytes(prev + seq![(t, c)]) == container_bytes(prev) + block_bytes(t, c),
{
    let b2 = prev + seq![(t, c)];
    assert(b2.drop_last() =~~= prev);
    assert(b2.last() == (t, c));
}

/// A bounded block list stays bounded when a checked block is appended.
proof fn lemma_blocks_bounded_snoc(prev: Seq<(u8, Seq<u8>)>, t: u8, c: Seq<u8>)
    requires
        forall|k: int| 0 <= k < prev.len() ==> (#[trigger] prev[k]).1.len() <= BLOCK_SIZE_LIMIT,
        c.len() <= BLOCK_SIZE_LIMIT,
    ensures
        forall|k: int|
            0 <= k < (prev + seq![(t, c)]).len() ==> (#[trigger] (prev + seq![(t, c)])[k]).1.len()
                <= BLOCK_SIZE_LIMIT,
{
    let b2 = prev + seq![(t, c)];
    assert forall|k: int|
        0 <= k < b2.len() implies (#[trigger] b2[k]).1.len() <= BLOCK_SIZE_LIMIT by {
        if k < prev.len() {
            assert(b2[k] == prev[k]);
        } else {
            assert(b2[k] == (t, c));
        }
    }
}

} // verus!
