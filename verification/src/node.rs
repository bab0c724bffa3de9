//! Nodes of the transcript segment graph: genomic intervals ("exons"), read
//! support records, strand, optional raw sequence and attributes, together
//! with the `N` record grammar.
use vstd::prelude::*;

use crate::attr::Attribute;
use crate::bytes::{dec_rep, dec_value, fields, fields_of, is_dec_digits, join_on, parse_u64, push_bytes, split_all, split_on, u64_dec};
use crate::error::TsgError;

verus! {

/// One half-open genomic interval, written `start-end`.
#[derive(Clone, Copy, Debug, PartialEq, Eq, Structural)]
pub struct Interval {
    pub start: u64,
    pub end: u64,
}

/// The interval that `start-end` text denotes, when both pieces are decimal
/// numbers that fit in 64 bits and there is exactly one dash.
pub open spec fn parse_interval_spec(s: Seq<u8>) -> Option<Interval> {
    let parts = split_on(s, 45);
    if parts.len() != 2 {
        None
    } else if !is_dec_digits(parts[0]) || dec_value(parts[0]) > u64::MAX {
        None
    } else if !is_dec_digits(parts[1]) || dec_value(parts[1]) > u64::MAX {
        None
    } else {
        Some(Interval { start: dec_value(parts[0]) as u64, end: dec_value(parts[1]) as u64 })
    }
}

impl Interval {
    /// Parse `start-end`.
    pub fn parse(s: &Vec<u8>) -> (r: Result<Interval, TsgError>)
        ensures
            match r {
                Ok(iv) => parse_interval_spec(s@) == Some(iv),
                Err(e) => parse_interval_spec(s@) is None && e is InvalidRecord,
            },
    {
        let parts = split_all(s, 45);
        if parts.len() != 2 {
            return Err(TsgError::InvalidRecord(Vec::new()));
        }
        proof {
            assert(parts.deep_view()[0] == parts@[0]@);
            assert(parts.deep_view()[1] == parts@[1]@);
        }
        let start = match parse_u64(&parts[0]) {
            Some(v) => v,
            None => {
                return Err(TsgError::InvalidRecord(Vec::new()));
            },
        };
        let end = match parse_u64(&parts[1]) {
            Some(v) => v,
            None => {
                return Err(TsgError::InvalidRecord(Vec::new()));
            },
        };
        Ok(Interval { start, end })
    }

    /// The `start-end` text of this interval.
    pub fn to_bytes(&self) -> (r: Vec<u8>)
        ensures
            r@ == interval_bytes(*self),
    {
        let mut out = u64_dec(self.start);
        out.push(45);
        let tail = u64_dec(self.end);
        let mut i: usize = 0;
        while i < tail.len()
            invariant
                0 <= i <= tail@.len(),
                out@ =~= dec_rep(self.start as nat) + seq![45u8] + tail@.take(i as int),
                tail@ == dec_rep(self.end as nat),
            decreases tail.len() - i,
        {
            out.push(tail[i]);
            i = i + 1;
            proof {
                assert(out@ =~= dec_rep(self.start as nat) + seq![45u8] + tail@.take(i as int));
            }
        }
        proof {
            assert(out@ =~= interval_bytes(*self));
        }
        out
    }
}

/// The `start-end` text of an interval.
pub open spec fn interval_bytes(iv: Interval) -> Seq<u8> {
    dec_rep(iv.start as nat) + seq![45u8] + dec_rep(iv.end as nat)
}

/// The ordered exon list of a node, written `a-b,c-d,...`.
#[derive(Clone, Debug)]
pub struct Exons {
    pub exons: Vec<Interval>,
}

/// The intervals that comma-separated `start-end` pieces denote, or nothing
/// when any piece is malformed.
pub open spec fn parse_intervals(parts: Seq<Seq<u8>>) -> Option<Seq<Interval>>
    decreases parts.len(),
{
    if parts.len() == 0 {
        Some(Seq::<Interval>::empty())
    } else {
        match parse_interval_spec(parts[0]) {
            None => None,
            Some(iv) => match parse_intervals(parts.drop_first()) {
                None => None,
                Some(rest) => Some(seq![iv] + rest),
            },
        }
    }
}

pub open spec fn parse_exons_spec(s: Seq<u8>) -> Option<Seq<Interval>> {
    parse_intervals(split_on(s, 44))
}

proof fn lemma_parse_intervals_all(parts: Seq<Seq<u8>>, out: Seq<Interval>)
    requires
        out.len() == parts.len(),
        forall|k: int|
            0 <= k < parts.len() ==> #[trigger] parse_interval_spec(parts[k]) == Some(out[k]),
    ensures
        parse_intervals(parts) == Some(out),
    decreases parts.len(),
{
    if parts.len() > 0 {
        lemma_parse_intervals_all(parts.drop_first(), out.drop_first());
        assert(parse_intervals(parts) == Some(seq![out[0]] + out.drop_first()));
        assert(seq![out[0]] + out.drop_first() =~= out);
    }
}

proof fn lemma_parse_intervals_fail(parts: Seq<Seq<u8>>, k: int)
    requires
        0 <= k < parts.len(),
        parse_interval_spec(parts[k]) is None,
    ensures
        parse_intervals(parts) is None,
    decreases parts.len(),
{
    if k > 0 {
        if parse_interval_spec(parts[0]) is Some {
            lemma_parse_intervals_fail(parts.drop_first(), k - 1);
        }
    }
}

impl Exons {
    /// Parse `a-b,c-d,...`.
    pub fn parse(s: &Vec<u8>) -> (r: Result<Exons, TsgError>)
        ensures
            match r {
                Ok(e) => parse_exons_spec(s@) == Some(e.exons@),
                Err(e) => parse_exons_spec(s@) is None && e is InvalidRecord,
            },
    {
        let parts = split_all(s, 44);
        let mut out: Vec<Interval> = Vec::new();
        let mut i: usize = 0;
        while i < parts.len()
            invariant
                0 <= i <= parts@.len(),
                out@.len() == i,
                parts.deep_view() == split_on(s@, 44),
                forall|k: int|
                    0 <= k < i ==> #[trigger] parse_interval_spec(parts.deep_view()[k]) == Some(
                        out@[k],
                    ),
            decreases parts.len() - i,
        {
            proof {
                assert(parts.deep_view()[i as int] == parts@[i as int]@);
            }
            match Interval::parse(&parts[i]) {
                Ok(iv) => {
                    out.push(iv);
                },
                Err(e) => {
                    proof {
                        lemma_parse_intervals_fail(parts.deep_view(), i as int);
                    }
                    return Err(e);
                },
            }
            i = i + 1;
        }
        proof {
            lemma_parse_intervals_all(parts.deep_view(), out@);
        }
        Ok(Exons { exons: out })
    }

    /// The `a-b,c-d,...` text of this exon list.
    pub fn to_bytes(&self) -> (r: Vec<u8>)
        ensures
            r@ == exons_bytes(self.exons@),
    {
        let mut pieces: Vec<Vec<u8>> = Vec::new();
        let mut i: usize = 0;
        while i < self.exons.len()
            invariant
                0 <= i <= self.exons@.len(),
                pieces.deep_view() =~= self.exons@.take(i as int).map_values(
                    |iv: Interval| interval_bytes(iv),
                ),
            decreases self.exons.len() - i,
        {
            let ghost prev = pieces.deep_view();
            let piece = self.exons[i].to_bytes();
            let ghost pv = piece@;
            pieces.push(piece);
            i = i + 1;
            proof {
                assert(pieces.deep_view() =~~= prev + seq![pv]);
                assert(pieces.deep_view() =~~= self.exons@.take(i as int).map_values(
                    |iv: Interval| interval_bytes(iv),
                ));
            }
        }
        proof {
            assert(self.exons@.take(self.exons@.len() as int) =~= self.exons@);
            assert(pieces.deep_view() =~~= self.exons@.map_values(
                |iv: Interval| interval_bytes(iv),
            ));
        }
        join_bytes(&pieces, 44)
    }

    pub fn len(&self) -> (r: usize)
        ensures
            r == self.exons@.len(),
    {
        self.exons.len()
    }

    pub fn is_empty(&self) -> (r: bool)
        ensures
            r == (self.exons@.len() == 0),
    {
        self.exons.len() == 0
    }

    /// The gaps between consecutive exons, each `[end+1, start-1]`.
    pub fn introns(&self) -> (r: Vec<Interval>)
        requires
            self.exons@.len() >= 1,
            forall|k: int|
                0 <= k < self.exons@.len() ==> #[trigger] self.exons@[k].end < u64::MAX
                    && self.exons@[k].start >= 1,
        ensures
            r@.len() == self.exons@.len() - 1,
            forall|k: int|
                0 <= k < r@.len() ==> #[trigger] r@[k].start == self.exons@[k].end + 1
                    && r@[k].end == self.exons@[k + 1].start - 1,
    {
        let mut out: Vec<Interval> = Vec::new();
        let mut i: usize = 0;
        let last = self.exons.len() - 1;
        while i < last
            invariant
                0 <= i <= last,
                last == self.exons@.len() - 1,
                out@.len() == i,
                forall|k: int|
                    0 <= k < self.exons@.len() ==> #[trigger] self.exons@[k].end < u64::MAX
                        && self.exons@[k].start >= 1,
                forall|k: int|
                    0 <= k < i ==> #[trigger] out@[k].start == self.exons@[k].end + 1
                        && out@[k].end == self.exons@[k + 1].start - 1,
            decreases last - i,
        {
            let a = self.exons[i];
            let b = self.exons[i + 1];
            proof {
                assert(self.exons@[i as int].end < u64::MAX);
                assert(self.exons@[i as int + 1].end < u64::MAX);
            }
            out.push(Interval { start: a.end + 1, end: b.start - 1 });
            i = i + 1;
        }
        out
    }

    /// Total number of reference positions the exons cover.
    pub fn span(&self) -> (r: Option<u64>)
        requires
            forall|k: int|
                0 <= k < self.exons@.len() ==> #[trigger] self.exons@[k].start
                    <= self.exons@[k].end,
        ensures
            match r {
                Some(n) => n as nat == exons_span(self.exons@),
                None => exons_span(self.exons@) > u64::MAX,
            },
    {
        let mut total: u64 = 0;
        let mut i: usize = 0;
        while i < self.exons.len()
            invariant
                0 <= i <= self.exons@.len(),
                forall|k: int|
                    0 <= k < self.exons@.len() ==> #[trigger] self.exons@[k].start
                        <= self.exons@[k].end,
                total as nat == exons_span(self.exons@.take(i as int)),
            decreases self.exons.len() - i,
        {
            let iv = self.exons[i];
            proof {
                assert(self.exons@[i as int].start <= self.exons@[i as int].end);
            }
            let width = iv.end - iv.start;
            proof {
                assert(self.exons@.take(i as int + 1).drop_last() =~= self.exons@.take(i as int));
                assert(self.exons@.take(i as int + 1).last() == self.exons@[i as int]);
            }
            if width == u64::MAX || total > u64::MAX - width - 1 {
                proof {
                    assert(exons_span(self.exons@.take(i as int + 1)) > u64::MAX);
                    lemma_exons_span_monotone(self.exons@, i as int + 1);
                }
                return None;
            }
            total = total + width + 1;
            i = i + 1;
        }
        proof {
            assert(self.exons@.take(self.exons@.len() as int) =~= self.exons@);
        }
        Some(total)
    }

    pub fn first_exon(&self) -> (r: Interval)
        requires
            self.exons@.len() >= 1,
        ensures
            r == self.exons@[0],
    {
        self.exons[0]
    }

    pub fn last_exon(&self) -> (r: Interval)
        requires
            self.exons@.len() >= 1,
        ensures
            r == self.exons@[self.exons@.len() - 1],
    {
        self.exons[self.exons.len() - 1]
    }
}

/// The `a-b,c-d,...` text of an exon list.
pub open spec fn exons_bytes(exons: Seq<Interval>) -> Seq<u8> {
    join_on(exons.map_values(|iv: Interval| interval_bytes(iv)), 44)
}

/// Sum of the widths of the intervals, counting both ends.
pub open spec fn exons_span(exons: Seq<Interval>) -> nat
    decreases exons.len(),
{
    if exons.len() == 0 {
        0
    } else {
        exons_span(exons.drop_last()) + (exons.last().end - exons.last().start + 1) as nat
    }
}

/// A longer prefix of exons never covers fewer positions.
proof fn lemma_exons_span_monotone(exons: Seq<Interval>, i: int)
    requires
        0 <= i <= exons.len(),
        forall|k: int| 0 <= k < exons.len() ==> #[trigger] exons[k].start <= exons[k].end,
    ensures
        exons_span(exons.take(i)) <= exons_span(exons),
    decreases exons.len() - i,
{
    if i < exons.len() {
        lemma_exons_span_monotone(exons, i + 1);
        assert(exons.take(i + 1).drop_last() =~= exons.take(i));
        assert(exons.take(i + 1).last() == exons[i]);
    } else {
        assert(exons.take(i) =~= exons);
    }
}

/// Join byte pieces with a single separator byte.
pub fn join_bytes(pieces: &Vec<Vec<u8>>, sep: u8) -> (r: Vec<u8>)
    ensures
        r@ == join_on(pieces.deep_view(), sep),
{
    let mut out: Vec<u8> = Vec::new();
    if pieces.len() == 0 {
        proof {
            assert(out@ =~= join_on(pieces.deep_view(), sep));
        }
        return out;
    }
    let mut i: usize = 0;
    while i < pieces.len()
        invariant
            0 <= i <= pieces@.len(),
            pieces@.len() >= 1,
            out@ == join_on(pieces.deep_view().take(i as int), sep),
        decreases pieces.len() - i,
    {
        if i > 0 {
            out.push(sep);
        }
        let piece = &pieces[i];
        let mut j: usize = 0;
        let ghost base = out@;
        while j < piece.len()
            invariant
                0 <= j <= piece@.len(),
                out@ =~= base + piece@.take(j as int),
            decreases piece.len() - j,
        {
            out.push(piece[j]);
            j = j + 1;
            proof {
                assert(out@ =~= base + piece@.take(j as int));
            }
        }
        proof {
            assert(piece@.take(piece@.len() as int) =~= piece@);
            assert(pieces.deep_view()[i as int] == piece@);
            let dv = pieces.deep_view();
            if i == 0 {
                assert(dv.take(0) =~= Seq::<Seq<u8>>::empty());
                assert(dv.take(1).len() == 1 && dv.take(1)[0] == dv[0]);
                assert(out@ =~= join_on(dv.take(1), sep));
            } else {
                lemma_join_on_snoc(dv.take(i as int + 1), sep);
                assert(dv.take(i as int + 1).drop_last() =~= dv.take(i as int));
                assert(dv.take(i as int + 1).last() == dv[i as int]);
                assert(out@ =~= join_on(dv.take(i as int + 1), sep));
            }
        }
        i = i + 1;
    }
    proof {
        assert(pieces.deep_view().take(pieces@.len() as int) =~~= pieces.deep_view());
    }
    out
}

/// Whether a read begins at, passes through, or ends at a node.
#[derive(Clone, Copy, Debug, PartialEq, Eq, Structural)]
pub enum ReadIdentity {
    /// The read starts here (`SO`).
    SO,
    /// The read passes through (`IN`).
    IN,
    /// The read ends here (`SI`).
    SI,
}

/// The identity that `SO`, `IN` or `SI` text denotes.
pub open spec fn parse_identity_spec(s: Seq<u8>) -> Option<ReadIdentity> {
    if s == seq![83u8, 79u8] {
        Some(ReadIdentity::SO)
    } else if s == seq![73u8, 78u8] {
        Some(ReadIdentity::IN)
    } else if s == seq![83u8, 73u8] {
        Some(ReadIdentity::SI)
    } else {
        None
    }
}

pub open spec fn identity_bytes(id: ReadIdentity) -> Seq<u8> {
    match id {
        ReadIdentity::SO => seq![83u8, 79u8],
        ReadIdentity::IN => seq![73u8, 78u8],
        ReadIdentity::SI => seq![83u8, 73u8],
    }
}

impl ReadIdentity {
    pub fn parse(s: &Vec<u8>) -> (r: Result<ReadIdentity, TsgError>)
        ensures
            match r {
                Ok(id) => parse_identity_spec(s@) == Some(id),
                Err(e) => parse_identity_spec(s@) is None && e is InvalidRecord,
            },
    {
        if s.len() == 2 {
            let a = s[0];
            let b = s[1];
            proof {
                assert(s@ =~= seq![s@[0], s@[1]]);
            }
            if a == 83 && b == 79 {
                return Ok(ReadIdentity::SO);
            }
            if a == 73 && b == 78 {
                return Ok(ReadIdentity::IN);
            }
            if a == 83 && b == 73 {
                return Ok(ReadIdentity::SI);
            }
            Err(TsgError::InvalidRecord(Vec::new()))
        } else {
            proof {
                assert(s@.len() != 2);
                assert(seq![83u8, 79u8].len() == 2);
                assert(seq![73u8, 78u8].len() == 2);
                assert(seq![83u8, 73u8].len() == 2);
            }
            Err(TsgError::InvalidRecord(Vec::new()))
        }
    }

    pub fn to_bytes(&self) -> (r: Vec<u8>)
        ensures
            r@ == identity_bytes(*self),
    {
        let mut out: Vec<u8> = Vec::new();
        match self {
            ReadIdentity::SO => {
                out.push(83);
                out.push(79);
            },
            ReadIdentity::IN => {
                out.push(73);
                out.push(78);
            },
            ReadIdentity::SI => {
                out.push(83);
                out.push(73);
            },
        }
        proof {
            assert(out@ =~= identity_bytes(*self));
        }
        out
    }
}

/// One read supporting a node: its identifier and its identity tag,
/// written `id:IDENTITY`.
#[derive(Clone, Debug)]
pub struct ReadData {
    pub id: Vec<u8>,
    pub identity: ReadIdentity,
}

impl View for ReadData {
    type V = (Seq<u8>, ReadIdentity);

    open spec fn view(&self) -> (Seq<u8>, ReadIdentity) {
        (self.id@, self.identity)
    }
}

impl DeepView for ReadData {
    type V = (Seq<u8>, ReadIdentity);

    open spec fn deep_view(&self) -> (Seq<u8>, ReadIdentity) {
        self.view()
    }
}

/// What `id:IDENTITY` text denotes, with exactly one colon.
pub open spec fn parse_read_spec(s: Seq<u8>) -> Option<(Seq<u8>, ReadIdentity)> {
    let parts = split_on(s, 58);
    if parts.len() != 2 {
        None
    } else {
        match parse_identity_spec(parts[1]) {
            None => None,
            Some(id) => Some((parts[0], id)),
        }
    }
}

pub open spec fn read_bytes(r: (Seq<u8>, ReadIdentity)) -> Seq<u8> {
    r.0 + seq![58u8] + identity_bytes(r.1)
}

impl ReadData {
    pub fn parse(s: &Vec<u8>) -> (r: Result<ReadData, TsgError>)
        ensures
            match r {
                Ok(rd) => parse_read_spec(s@) == Some(rd@),
                Err(e) => parse_read_spec(s@) is None && e is InvalidRecord,
            },
    {
        let parts = split_all(s, 58);
        if parts.len() != 2 {
            return Err(TsgError::InvalidRecord(Vec::new()));
        }
        proof {
            assert(parts.deep_view()[0] == parts@[0]@);
            assert(parts.deep_view()[1] == parts@[1]@);
        }
        let identity = match ReadIdentity::parse(&parts[1]) {
            Ok(id) => id,
            Err(e) => {
                return Err(e);
            },
        };
        let mut parts = parts;
        let id = parts.remove(0);
        Ok(ReadData { id, identity })
    }

    pub fn to_bytes(&self) -> (r: Vec<u8>)
        ensures
            r@ == read_bytes(self@),
    {
        let mut out: Vec<u8> = Vec::new();
        push_bytes(&mut out, &self.id);
        out.push(58);
        match self.identity {
            ReadIdentity::SO => {
                out.push(83);
                out.push(79);
            },
            ReadIdentity::IN => {
                out.push(73);
                out.push(78);
            },
            ReadIdentity::SI => {
                out.push(83);
                out.push(73);
            },
        }
        proof {
            assert(out@ =~= read_bytes(self@));
        }
        out
    }
}

/// Reference strand of a node, written `+` or `-`.
#[derive(Clone, Copy, Debug, PartialEq, Eq, Structural)]
pub enum Strand {
    Forward,
    Reverse,
}

impl Default for Strand {
    fn default() -> (r: Strand)
        ensures
            r == Strand::Forward,
    {
        Strand::Forward
    }
}

pub open spec fn parse_strand_spec(s: Seq<u8>) -> Option<Strand> {
    if s == seq![43u8] {
        Some(Strand::Forward)
    } else if s == seq![45u8] {
        Some(Strand::Reverse)
    } else {
        None
    }
}

pub open spec fn strand_byte(s: Strand) -> u8 {
    match s {
        Strand::Forward => 43,
        Strand::Reverse => 45,
    }
}

impl Strand {
    pub fn parse(s: &Vec<u8>) -> (r: Result<Strand, TsgError>)
        ensures
            match r {
                Ok(st) => parse_strand_spec(s@) == Some(st),
                Err(e) => parse_strand_spec(s@) is None && e is InvalidRecord,
            },
    {
        if s.len() == 1 {
            proof {
                assert(s@ =~= seq![s@[0]]);
            }
            if s[0] == 43 {
                return Ok(Strand::Forward);
            }
            if s[0] == 45 {
                return Ok(Strand::Reverse);
            }
            Err(TsgError::InvalidRecord(Vec::new()))
        } else {
            proof {
                assert(s@.len() != 1);
            }
            Err(TsgError::InvalidRecord(Vec::new()))
        }
    }
}

/// Mathematical image of a node: what the contracts speak of.
pub ghost struct NodeV {
    pub id: Seq<u8>,
    pub reference_id: Seq<u8>,
    pub strand: Strand,
    pub exons: Seq<Interval>,
    pub reads: Seq<(Seq<u8>, ReadIdentity)>,
    pub sequence: Option<Seq<u8>>,
    pub attributes: Seq<(Seq<u8>, u8, Seq<u8>)>,
}

/// One node of a graph section.
#[derive(Clone, Debug)]
pub struct NodeData {
    pub id: Vec<u8>,
    pub reference_id: Vec<u8>,
    pub strand: Strand,
    pub exons: Exons,
    pub reads: Vec<ReadData>,
    pub sequence: Option<Vec<u8>>,
    pub attributes: Vec<Attribute>,
}

impl View for NodeData {
    type V = NodeV;

    open spec fn view(&self) -> NodeV {
        NodeV {
            id: self.id@,
            reference_id: self.reference_id@,
            strand: self.strand,
            exons: self.exons.exons@,
            reads: self.reads.deep_view(),
            sequence: match self.sequence {
                Some(ref s) => Some(s@),
                None => None,
            },
            attributes: self.attributes.deep_view(),
        }
    }
}

impl DeepView for NodeData {
    type V = NodeV;

    open spec fn deep_view(&self) -> NodeV {
        self.view()
    }
}

/// The reads that comma-separated `id:IDENTITY` pieces denote.
pub open spec fn parse_reads(parts: Seq<Seq<u8>>) -> Option<Seq<(Seq<u8>, ReadIdentity)>>
    decreases parts.len(),
{
    if parts.len() == 0 {
        Some(Seq::<(Seq<u8>, ReadIdentity)>::empty())
    } else {
        match parse_read_spec(parts[0]) {
            None => None,
            Some(rd) => match parse_reads(parts.drop_first()) {
                None => None,
                Some(rest) => Some(seq![rd] + rest),
            },
        }
    }
}

proof fn lemma_parse_reads_all(parts: Seq<Seq<u8>>, out: Seq<(Seq<u8>, ReadIdentity)>)
    requires
        out.len() == parts.len(),
        forall|k: int| 0 <= k < parts.len() ==> #[trigger] parse_read_spec(parts[k]) == Some(out[k]),
    ensures
        parse_reads(parts) == Some(out),
    decreases parts.len(),
{
    if parts.len() > 0 {
        lemma_parse_reads_all(parts.drop_first(), out.drop_first());
        assert(parse_reads(parts) == Some(seq![out[0]] + out.drop_first()));
        assert(seq![out[0]] + out.drop_first() =~= out);
    }
}

proof fn lemma_parse_reads_fail(parts: Seq<Seq<u8>>, k: int)
    requires
        0 <= k < parts.len(),
        parse_read_spec(parts[k]) is None,
    ensures
        parse_reads(parts) is None,
    decreases parts.len(),
{
    if k > 0 {
        if parse_read_spec(parts[0]) is Some {
            lemma_parse_reads_fail(parts.drop_first(), k - 1);
        }
    }
}

/// What an `N` record line denotes.  The line is tokenized on whitespace;
/// the second token is the node identifier, the third is
/// `chrom:strand:exons` (further colon-separated pieces are tolerated), the
/// fourth is the comma-separated read list, and an optional fifth is the raw
/// sequence.  Extra tokens are ignored, and the leading `N` tag is not
/// examined here.
pub open spec fn parse_node_spec(line: Seq<u8>) -> Option<NodeV> {
    let f = fields_of(line);
    if f.len() < 4 {
        None
    } else {
        let loc = split_on(f[2], 58);
        if loc.len() < 3 {
            None
        } else {
            match (parse_strand_spec(loc[1]), parse_exons_spec(loc[2]), parse_reads(
                split_on(f[3], 44),
            )) {
                (Some(strand), Some(exons), Some(reads)) => Some(
                    NodeV {
                        id: f[1],
                        reference_id: loc[0],
                        strand: strand,
                        exons: exons,
                        reads: reads,
                        sequence: if f.len() > 4 {
                            Some(f[4])
                        } else {
                            None
                        },
                        attributes: Seq::empty(),
                    },
                ),
                _ => None,
            }
        }
    }
}

impl NodeData {
    /// A node holding nothing but its identifier: what an edge endpoint
    /// becomes when it is named before it is declared.
    pub fn placeholder(id: Vec<u8>) -> (r: NodeData)
        ensures
            r@ == (NodeV {
                id: id@,
                reference_id: Seq::empty(),
                strand: Strand::Forward,
                exons: Seq::empty(),
                reads: Seq::empty(),
                sequence: None,
                attributes: Seq::empty(),
            }),
    {
        let r = NodeData {
            id,
            reference_id: Vec::new(),
            strand: Strand::Forward,
            exons: Exons { exons: Vec::new() },
            reads: Vec::new(),
            sequence: None,
            attributes: Vec::new(),
        };
        proof {
            assert(r.reads.deep_view() =~= Seq::<(Seq<u8>, ReadIdentity)>::empty());
            assert(r.attributes.deep_view() =~= Seq::<(Seq<u8>, u8, Seq<u8>)>::empty());
        }
        r
    }

    /// Parse an `N` record line.
    pub fn parse(line: &Vec<u8>) -> (r: Result<NodeData, TsgError>)
        ensures
            match r {
                Ok(n) => parse_node_spec(line@) == Some(n@),
                Err(e) => parse_node_spec(line@) is None && e is InvalidRecord,
            },
    {
        let f = fields(line);
        if f.len() < 4 {
            return Err(TsgError::InvalidRecord(Vec::new()));
        }
        proof {
            assert(f.deep_view()[1] == f@[1]@);
            assert(f.deep_view()[2] == f@[2]@);
            assert(f.deep_view()[3] == f@[3]@);
        }
        let loc = split_all(&f[2], 58);
        if loc.len() < 3 {
            return Err(TsgError::InvalidRecord(Vec::new()));
        }
        proof {
            assert(loc.deep_view()[0] == loc@[0]@);
            assert(loc.deep_view()[1] == loc@[1]@);
            assert(loc.deep_view()[2] == loc@[2]@);
        }
        let strand = match Strand::parse(&loc[1]) {
            Ok(s) => s,
            Err(e) => {
                return Err(e);
            },
        };
        let exons = match Exons::parse(&loc[2]) {
            Ok(x) => x,
            Err(e) => {
                return Err(e);
            },
        };
        let read_parts = split_all(&f[3], 44);
        let mut reads: Vec<ReadData> = Vec::new();
        let mut i: usize = 0;
        while i < read_parts.len()
            invariant
                0 <= i <= read_parts@.len(),
                reads@.len() == i,
                read_parts.deep_view() == split_on(f.deep_view()[3], 44),
                f.deep_view() == fields_of(line@),
                f.deep_view().len() >= 4,
                forall|k: int|
                    0 <= k < i ==> #[trigger] parse_read_spec(read_parts.deep_view()[k]) == Some(
                        reads.deep_view()[k],
                    ),
            decreases read_parts.len() - i,
        {
            proof {
                assert(read_parts.deep_view()[i as int] == read_parts@[i as int]@);
            }
            let ghost prev = reads.deep_view();
            match ReadData::parse(&read_parts[i]) {
                Ok(rd) => {
                    let ghost rdv = rd@;
                    reads.push(rd);
                    proof {
                        assert(reads.deep_view() =~~= prev + seq![rdv]);
                    }
                },
                Err(e) => {
                    proof {
                        lemma_parse_reads_fail(read_parts.deep_view(), i as int);
                    }
                    return Err(e);
                },
            }
            i = i + 1;
        }
        proof {
            lemma_parse_reads_all(read_parts.deep_view(), reads.deep_view());
        }
        let ghost fdv = f.deep_view();
        let ghost locdv = loc.deep_view();
        let ghost readsdv = reads.deep_view();
        let mut f = f;
        let sequence: Option<Vec<u8>> = if f.len() > 4 {
            proof {
                assert(f.deep_view()[4] == f@[4]@);
            }
            Some(f.remove(4))
        } else {
            None
        };
        let mut loc = loc;
        let reference_id = loc.remove(0);
        let id = f.remove(1);
        let n = NodeData { id, reference_id, strand, exons, reads, sequence, attributes: Vec::new() };
        proof {
            assert(n.id@ == fdv[1]);
            assert(n.reference_id@ == locdv[0]);
            assert(n.reads.deep_view() == readsdv);
            assert(n.attributes.deep_view() =~= Seq::<(Seq<u8>, u8, Seq<u8>)>::empty());
            match n.sequence {
                Some(ref s) => {
                    assert(s@ == fdv[4]);
                },
                None => {},
            }
            assert(parse_node_spec(line@) == Some(n@));
        }
        Ok(n)
    }

    /// First reference position the node covers.
    pub fn reference_start(&self) -> (r: u64)
        requires
            self@.exons.len() >= 1,
        ensures
            r == self@.exons[0].start,
    {
        self.exons.first_exon().start
    }

    /// Last reference position the node covers.
    pub fn reference_end(&self) -> (r: u64)
        requires
            self@.exons.len() >= 1,
        ensures
            r == self@.exons[self@.exons.len() - 1].end,
    {
        self.exons.last_exon().end
    }

    /// The `N` record line of this node, following the grammar the parser
    /// reads: `N id chrom:strand:exons reads [sequence]`, tab-separated.
    pub fn to_bytes(&self) -> (r: Vec<u8>)
        ensures
            r@ == node_line_bytes(self@),
    {
        let mut out: Vec<u8> = Vec::new();
        out.push(78);
        out.push(9);
        push_bytes(&mut out, &self.id);
        out.push(9);
        push_bytes(&mut out, &self.reference_id);
        out.push(58);
        match self.strand {
            Strand::Forward => out.push(43),
            Strand::Reverse => out.push(45),
        }
        out.push(58);
        let ex = self.exons.to_bytes();
        push_bytes(&mut out, &ex);
        out.push(9);
        let mut pieces: Vec<Vec<u8>> = Vec::new();
        let mut i: usize = 0;
        while i < self.reads.len()
            invariant
                0 <= i <= self.reads@.len(),
                pieces.deep_view() =~= self.reads.deep_view().take(i as int).map_values(
                    |rv: (Seq<u8>, ReadIdentity)| read_bytes(rv),
                ),
            decreases self.reads.len() - i,
        {
            let ghost prev = pieces.deep_view();
            let piece = self.reads[i].to_bytes();
            let ghost pv = piece@;
            proof {
                assert(self.reads.deep_view()[i as int] == self.reads@[i as int]@);
            }
            pieces.push(piece);
            i = i + 1;
            proof {
                assert(pieces.deep_view() =~~= prev + seq![pv]);
                assert(pieces.deep_view() =~~= self.reads.deep_view().take(i as int).map_values(
                    |rv: (Seq<u8>, ReadIdentity)| read_bytes(rv),
                ));
            }
        }
        proof {
            assert(self.reads.deep_view().take(self.reads@.len() as int) =~~= self.reads.deep_view());
        }
        let joined = join_bytes(&pieces, 44);
        push_bytes(&mut out, &joined);
        match &self.sequence {
            Some(s) => {
                out.push(9);
                push_bytes(&mut out, s);
                proof {
                    assert(out@ =~= node_line_bytes(self@));
                }
            },
            None => {
                proof {
                    assert(out@ =~= node_line_bytes(self@));
                }
            },
        }
        out
    }
}

/// The `N` record line of a node.
pub open spec fn node_line_bytes(n: NodeV) -> Seq<u8> {
    seq![78u8, 9u8] + n.id + seq![9u8] + n.reference_id + seq![58u8, strand_byte(n.strand), 58u8]
        + exons_bytes(n.exons) + seq![9u8] + join_on(
        n.reads.map_values(|rv: (Seq<u8>, ReadIdentity)| read_bytes(rv)),
        44,
    ) + match n.sequence {
        Some(s) => seq![9u8] + s,
        None => Seq::<u8>::empty(),
    }
}

/// Joining a list with at least two pieces appends the last piece after a
/// separator.
pub proof fn lemma_join_on_snoc(parts: Seq<Seq<u8>>, sep: u8)
    requires
        parts.len() >= 2,
    ensures
        join_on(parts, sep) == join_on(parts.drop_last(), sep) + seq![sep] + parts.last(),
    decreases parts.len(),
{
    if parts.len() == 2 {
        assert(parts.drop_first().len() == 1);
        assert(join_on(parts.drop_first(), sep) == parts[1]);
        assert(parts.drop_last().len() == 1);
        assert(join_on(parts.drop_last(), sep) == parts[0]);
        assert(join_on(parts, sep) =~= join_on(parts.drop_last(), sep) + seq![sep] + parts.last());
    } else {
        let d = parts.drop_first();
        lemma_join_on_snoc(d, sep);
        assert(d.drop_last() =~~= parts.drop_last().drop_first());
        assert(d.last() == parts.last());
        assert(join_on(parts, sep) == parts[0] + seq![sep] + join_on(d, sep));
        assert(parts.drop_last().len() >= 2);
        assert(join_on(parts.drop_last(), sep) == parts.drop_last()[0] + seq![sep] + join_on(
            parts.drop_last().drop_first(),
            sep,
        ));
        assert(parts.drop_last()[0] == parts[0]);
        assert(join_on(parts, sep) =~= join_on(parts.drop_last(), sep) + seq![sep] + parts.last());
    }
}

} // verus!
