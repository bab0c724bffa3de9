//! Byte-level helpers shared by the record grammar and the container codec:
//! separator splitting and joining, whitespace tokenization, and the
//! little-endian and decimal number encodings.
use vstd::prelude::*;

verus! {

/// Whitespace bytes that separate fields within a record line.
pub open spec fn is_ws(b: u8) -> bool {
    b == 32 || b == 9
}

/// The pieces of `s` delimited by `sep`; always at least one piece.
pub open spec fn split_on(s: Seq<u8>, sep: u8) -> Seq<Seq<u8>>
    decreases s.len(),
{
    if s.len() == 0 {
        seq![Seq::<u8>::empty()]
    } else if s[0] == sep {
        seq![Seq::<u8>::empty()] + split_on(s.drop_first(), sep)
    } else {
        let rest = split_on(s.drop_first(), sep);
        seq![seq![s[0]] + rest[0]] + rest.drop_first()
    }
}

pub proof fn lemma_split_on_nonempty(s: Seq<u8>, sep: u8)
    ensures
        split_on(s, sep).len() >= 1,
    decreases s.len(),
{
    if s.len() != 0 && s[0] != sep {
        lemma_split_on_nonempty(s.drop_first(), sep);
    }
}

/// The pieces joined back with `sep` between them.
pub open spec fn join_on(parts: Seq<Seq<u8>>, sep: u8) -> Seq<u8>
    decreases parts.len(),
{
    if parts.len() == 0 {
        Seq::<u8>::empty()
    } else if parts.len() == 1 {
        parts[0]
    } else {
        parts[0] + seq![sep] + join_on(parts.drop_first(), sep)
    }
}

/// First position of `sep` in `s`, or the length when absent.
pub open spec fn find_idx(s: Seq<u8>, sep: u8) -> int
    decreases s.len(),
{
    if s.len() == 0 {
        0
    } else if s[0] == sep {
        0
    } else {
        1 + find_idx(s.drop_first(), sep)
    }
}

pub proof fn lemma_find_idx(s: Seq<u8>, sep: u8)
    ensures
        0 <= find_idx(s, sep) <= s.len(),
        find_idx(s, sep) < s.len() ==> s[find_idx(s, sep)] == sep,
        forall|k: int| 0 <= k < find_idx(s, sep) ==> s[k] != sep,
    decreases s.len(),
{
    if s.len() != 0 && s[0] != sep {
        lemma_find_idx(s.drop_first(), sep);
        assert forall|k: int| 0 <= k < find_idx(s, sep) implies s[k] != sep by {
            if k >= 1 {
                assert(s.drop_first()[k - 1] == s[k]);
                assert(k - 1 < find_idx(s.drop_first(), sep));
            }
        }
    }
}

/// Position of the first `sep` byte in `v`, or `v.len()` when there is none.
pub fn find_byte(v: &Vec<u8>, sep: u8) -> (r: usize)
    ensures
        r == find_idx(v@, sep),
{
    proof {
        lemma_find_idx(v@, sep);
    }
    let mut i: usize = 0;
    while i < v.len()
        invariant
            0 <= i <= v.len(),
            forall|k: int| 0 <= k < i ==> v@[k] != sep,
            forall|k: int| 0 <= k < find_idx(v@, sep) ==> v@[k] != sep,
            0 <= find_idx(v@, sep) <= v@.len(),
            find_idx(v@, sep) < v@.len() ==> v@[find_idx(v@, sep)] == sep,
        decreases v.len() - i,
    {
        if v[i] == sep {
            proof {
                if find_idx(v@, sep) > i {
                    assert(v@[i as int] != sep);
                }
            }
            return i;
        }
        i = i + 1;
    }
    proof {
        if find_idx(v@, sep) < v@.len() {
            assert(v@[find_idx(v@, sep)] != sep);
        }
    }
    i
}

/// Copy of `v[from..to]`.
pub fn subvec(v: &Vec<u8>, from: usize, to: usize) -> (r: Vec<u8>)
    requires
        from <= to <= v@.len(),
    ensures
        r@ == v@.subrange(from as int, to as int),
{
    let mut r: Vec<u8> = Vec::new();
    let mut i: usize = from;
    while i < to
        invariant
            from <= i <= to <= v@.len(),
            r@ =~= v@.subrange(from as int, i as int),
        decreases to - i,
    {
        r.push(v[i]);
        i = i + 1;
        proof {
            assert(r@ =~= v@.subrange(from as int, i as int));
        }
    }
    r
}

/// How `split_on` decomposes at the first separator.
pub proof fn lemma_split_on_first(s: Seq<u8>, sep: u8)
    ensures
        find_idx(s, sep) == s.len() ==> split_on(s, sep) == seq![s],
        find_idx(s, sep) < s.len() ==> split_on(s, sep) == seq![s.take(find_idx(s, sep))]
            + split_on(s.skip(find_idx(s, sep) + 1), sep),
    decreases s.len(),
{
    lemma_find_idx(s, sep);
    if s.len() == 0 {
        assert(split_on(s, sep) =~~= seq![s]);
    } else if s[0] == sep {
        assert(s.take(0) =~= Seq::<u8>::empty());
        assert(s.skip(1) =~= s.drop_first());
        assert(split_on(s, sep) =~~= seq![s.take(0)] + split_on(s.skip(1), sep));
    } else {
        lemma_split_on_first(s.drop_first(), sep);
        let i = find_idx(s, sep);
        let rest = split_on(s.drop_first(), sep);
        lemma_split_on_nonempty(s.drop_first(), sep);
        lemma_find_idx(s.drop_first(), sep);
        if i == s.len() {
            assert(find_idx(s.drop_first(), sep) == s.drop_first().len());
            assert(rest == seq![s.drop_first()]);
            assert(seq![s[0]] + s.drop_first() =~= s);
            assert(split_on(s, sep) =~~= seq![s]);
        } else {
            let j = find_idx(s.drop_first(), sep);
            assert(j == i - 1);
            assert(rest == seq![s.drop_first().take(j)] + split_on(s.drop_first().skip(j + 1), sep));
            assert(s.drop_first().skip(j + 1) =~= s.skip(i + 1));
            assert(seq![s[0]] + s.drop_first().take(j) =~= s.take(i));
            lemma_split_on_nonempty(s.skip(i + 1), sep);
            assert(split_on(s, sep) == seq![seq![s[0]] + rest[0]] + rest.drop_first());
            assert(rest[0] == s.drop_first().take(j));
            assert(rest.drop_first() =~~= split_on(s.skip(i + 1), sep));
            assert(split_on(s, sep) =~~= seq![s.take(i)] + split_on(s.skip(i + 1), sep));
        }
    }
}

/// Split `v` at the first `sep`: the part before it and the part after it,
/// or `None` when `sep` does not occur.
pub fn split_once(v: &Vec<u8>, sep: u8) -> (r: Option<(Vec<u8>, Vec<u8>)>)
    ensures
        match r {
            Some(pair) => find_idx(v@, sep) < v@.len() && pair.0@ == v@.take(find_idx(v@, sep))
                && pair.1@ == v@.skip(find_idx(v@, sep) + 1),
            None => find_idx(v@, sep) == v@.len(),
        },
{
    proof {
        lemma_find_idx(v@, sep);
    }
    let i = find_byte(v, sep);
    if i == v.len() {
        None
    } else {
        let before = subvec(v, 0, i);
        let after = subvec(v, i + 1, v.len());
        proof {
            assert(before@ =~= v@.take(i as int));
            assert(after@ =~= v@.skip(i as int + 1));
        }
        Some((before, after))
    }
}

/// All pieces of `v` delimited by `sep`.
pub fn split_all(v: &Vec<u8>, sep: u8) -> (r: Vec<Vec<u8>>)
    ensures
        r.deep_view() == split_on(v@, sep),
{
    let mut out: Vec<Vec<u8>> = Vec::new();
    let mut start: usize = 0;
    let mut i: usize = 0;
    proof {
        lemma_split_on_nonempty(v@, sep);
        assert(v@.skip(0) =~= v@);
        assert(split_on(v@, sep) =~~= out.deep_view() + split_on(v@.skip(0), sep));
        assert(v@.subrange(0, 0) =~= Seq::<u8>::empty());
        lemma_split_on_nonempty(v@.skip(0), sep);
        assert(split_on(v@.skip(0), sep)[0] =~= v@.subrange(0, 0) + split_on(v@.skip(0), sep)[0]);
    }
    while i < v.len()
        invariant
            0 <= start <= i <= v@.len(),
            forall|k: int| start <= k < i ==> v@[k] != sep,
            split_on(v@, sep) == out.deep_view() + split_on(v@.skip(start as int), sep),
            split_on(v@.skip(start as int), sep).len() >= 1,
            split_on(v@.skip(start as int), sep)[0] == v@.subrange(start as int, i as int)
                + split_on(v@.skip(i as int), sep)[0],
            split_on(v@.skip(i as int), sep).len() >= 1,
        decreases v.len() - i,
    {
        proof {
            lemma_split_on_nonempty(v@.skip(i as int + 1), sep);
        }
        if v[i] == sep {
            let piece = subvec(v, start, i);
            proof {
                lemma_split_decompose(v@, start as int, i as int, sep);
            }
            let ghost prev_dv = out.deep_view();
            let ghost piece_v = piece@;
            out.push(piece);
            proof {
                assert(out.deep_view() =~~= prev_dv + seq![piece_v]);
                assert(out.deep_view() + split_on(v@.skip(i as int + 1), sep) =~~= prev_dv
                    + split_on(v@.skip(start as int), sep));
            }
            start = i + 1;
            i = i + 1;
            proof {
                assert(v@.subrange(start as int, i as int) =~= Seq::<u8>::empty());
                assert(split_on(v@.skip(start as int), sep)[0] =~= v@.subrange(
                    start as int,
                    i as int,
                ) + split_on(v@.skip(i as int), sep)[0]);
            }
        } else {
            i = i + 1;
            proof {
                let sprev = v@.skip(i as int - 1);
                assert(sprev[0] == v@[i as int - 1]);
                assert(sprev[0] != sep);
                assert(sprev.drop_first() =~= v@.skip(i as int));
                lemma_split_on_nonempty(v@.skip(i as int), sep);
                assert(split_on(sprev, sep)[0] == seq![sprev[0]] + split_on(v@.skip(i as int), sep)[0]);
                assert(v@.subrange(start as int, i as int) =~= v@.subrange(
                    start as int,
                    i as int - 1,
                ) + seq![v@[i as int - 1]]);
                assert(v@.subrange(start as int, i as int) + split_on(v@.skip(i as int), sep)[0]
                    =~= v@.subrange(start as int, i as int - 1) + split_on(sprev, sep)[0]);
            }
        }
    }
    let piece = subvec(v, start, v.len());
    proof {
        lemma_split_tail(v@, start as int, sep);
    }
    let ghost prev_dv = out.deep_view();
    let ghost piece_v = piece@;
    out.push(piece);
    proof {
        assert(out.deep_view() =~~= prev_dv + seq![piece_v]);
        assert(out.deep_view() =~~= split_on(v@, sep));
    }
    out
}

/// The maximal whitespace-free tokens of `s`, in order.
pub open spec fn fields_of(s: Seq<u8>) -> Seq<Seq<u8>>
    decreases s.len(),
{
    if s.len() == 0 {
        Seq::<Seq<u8>>::empty()
    } else if is_ws(s[0]) {
        fields_of(s.drop_first())
    } else {
        let rest = fields_of(s.drop_first());
        if s.len() > 1 && !is_ws(s[1]) {
            seq![seq![s[0]] + rest[0]] + rest.drop_first()
        } else {
            seq![seq![s[0]]] + rest
        }
    }
}

/// The fields still to come when a partial token `cur` is in hand and `rest`
/// of the line remains.
pub open spec fn fields_acc(cur: Seq<u8>, rest: Seq<u8>) -> Seq<Seq<u8>> {
    if cur.len() == 0 {
        fields_of(rest)
    } else if rest.len() > 0 && !is_ws(rest[0]) {
        seq![cur + fields_of(rest)[0]] + fields_of(rest).drop_first()
    } else {
        seq![cur] + fields_of(rest)
    }
}

proof fn lemma_fields_of_nonempty_head(s: Seq<u8>)
    requires
        s.len() > 0,
        !is_ws(s[0]),
    ensures
        fields_of(s).len() >= 1,
        fields_of(s)[0].len() >= 1,
        fields_of(s)[0][0] == s[0],
    decreases s.len(),
{
    if s.len() > 1 && !is_ws(s[1]) {
        lemma_fields_of_nonempty_head(s.drop_first());
    }
}

/// Consuming one byte of the line preserves the pending fields.
proof fn lemma_fields_acc_step(cur: Seq<u8>, rest: Seq<u8>)
    requires
        rest.len() > 0,
    ensures
        is_ws(rest[0]) && cur.len() == 0 ==> fields_acc(cur, rest) == fields_acc(
            cur,
            rest.drop_first(),
        ),
        is_ws(rest[0]) && cur.len() > 0 ==> fields_acc(cur, rest) == seq![cur] + fields_acc(
            Seq::<u8>::empty(),
            rest.drop_first(),
        ),
        !is_ws(rest[0]) ==> fields_acc(cur, rest) == fields_acc(
            cur + seq![rest[0]],
            rest.drop_first(),
        ),
{
    let d = rest.drop_first();
    if is_ws(rest[0]) {
        assert(fields_of(rest) == fields_of(d));
        if cur.len() > 0 {
            assert(fields_acc(cur, rest) =~~= seq![cur] + fields_acc(Seq::<u8>::empty(), d));
        }
    } else {
        let cur2 = cur + seq![rest[0]];
        assert(cur2.len() > 0);
        if d.len() > 0 && !is_ws(d[0]) {
            assert(fields_of(rest) == seq![seq![rest[0]] + fields_of(d)[0]] + fields_of(
                d,
            ).drop_first());
            lemma_fields_of_nonempty_head(d);
            assert(fields_of(rest)[0] == seq![rest[0]] + fields_of(d)[0]);
            assert(cur + fields_of(rest)[0] =~= cur2 + fields_of(d)[0]);
            assert(fields_of(rest).drop_first() =~~= fields_of(d).drop_first());
            if cur.len() == 0 {
                assert(cur + fields_of(rest)[0] =~= fields_of(rest)[0]);
                assert(fields_acc(cur, rest) =~~= fields_acc(cur2, d));
            } else {
                assert(fields_acc(cur, rest) =~~= fields_acc(cur2, d));
            }
        } else {
            assert(fields_of(rest) == seq![seq![rest[0]]] + fields_of(d));
            assert(fields_of(rest)[0] == seq![rest[0]]);
            assert(fields_of(rest).drop_first() =~~= fields_of(d));
            assert(cur + fields_of(rest)[0] =~= cur2);
            if cur.len() == 0 {
                assert(fields_acc(cur, rest) =~~= fields_acc(cur2, d));
            } else {
                assert(fields_acc(cur, rest) =~~= fields_acc(cur2, d));
            }
        }
    }
}

/// The whitespace-separated fields of a record line.
pub fn fields(v: &Vec<u8>) -> (r: Vec<Vec<u8>>)
    ensures
        r.deep_view() == fields_of(v@),
{
    let mut out: Vec<Vec<u8>> = Vec::new();
    let mut cur: Vec<u8> = Vec::new();
    let mut i: usize = 0;
    proof {
        assert(v@.skip(0) =~= v@);
        assert(fields_of(v@) =~~= out.deep_view() + fields_acc(cur@, v@.skip(0)));
    }
    while i < v.len()
        invariant
            0 <= i <= v@.len(),
            fields_of(v@) == out.deep_view() + fields_acc(cur@, v@.skip(i as int)),
        decreases v.len() - i,
    {
        let ghost rest = v@.skip(i as int);
        proof {
            assert(rest.len() > 0);
            assert(rest[0] == v@[i as int]);
            lemma_fields_acc_step(cur@, rest);
            assert(rest.drop_first() =~= v@.skip(i as int + 1));
        }
        let b = v[i];
        if b == 32 || b == 9 {
            if cur.len() > 0 {
                let ghost prev_dv = out.deep_view();
                let ghost cur_v = cur@;
                out.push(cur);
                cur = Vec::new();
                proof {
                    assert(out.deep_view() =~~= prev_dv + seq![cur_v]);
                    assert(out.deep_view() + fields_acc(cur@, v@.skip(i as int + 1)) =~~= prev_dv
                        + (seq![cur_v] + fields_acc(Seq::<u8>::empty(), rest.drop_first())));
                }
            }
        } else {
            let ghost cur_v = cur@;
            cur.push(b);
            proof {
                assert(cur@ =~= cur_v + seq![b]);
            }
        }
        i = i + 1;
    }
    proof {
        assert(v@.skip(v@.len() as int) =~= Seq::<u8>::empty());
    }
    if cur.len() > 0 {
        let ghost prev_dv = out.deep_view();
        let ghost cur_v = cur@;
        out.push(cur);
        proof {
            assert(fields_acc(cur_v, Seq::<u8>::empty()) =~~= seq![cur_v]);
            assert(out.deep_view() =~~= prev_dv + seq![cur_v]);
            assert(out.deep_view() =~~= fields_of(v@));
        }
    } else {
        proof {
            assert(fields_acc(cur@, Seq::<u8>::empty()) =~~= Seq::<Seq<u8>>::empty());
            assert(out.deep_view() =~~= fields_of(v@));
        }
    }
    out
}

/// Little-endian encoding of a 32-bit value, as four bytes.
pub open spec fn le32(n: u32) -> Seq<u8> {
    seq![
        (n & 0xff) as u8,
        ((n >> 8) & 0xff) as u8,
        ((n >> 16) & 0xff) as u8,
        ((n >> 24) & 0xff) as u8,
    ]
}

/// The 32-bit value that four little-endian bytes stand for.
pub open spec fn le32_value(s: Seq<u8>) -> u32
    recommends
        s.len() == 4,
{
    (s[0] as u32) | (s[1] as u32) << 8 | (s[2] as u32) << 16 | (s[3] as u32) << 24
}

/// Reading back the four bytes of `le32` yields the value again.
pub proof fn lemma_le32_roundtrip(n: u32)
    ensures
        le32_value(le32(n)) == n,
{
    let b0 = (n & 0xff) as u8;
    let b1 = ((n >> 8) & 0xff) as u8;
    let b2 = ((n >> 16) & 0xff) as u8;
    let b3 = ((n >> 24) & 0xff) as u8;
    assert(((n & 0xff) as u8 as u32) | (((n >> 8) & 0xff) as u8 as u32) << 8 | (((n >> 16) & 0xff)
        as u8 as u32) << 16 | (((n >> 24) & 0xff) as u8 as u32) << 24 == n) by (bit_vector);
    assert(le32_value(le32(n)) == (b0 as u32) | (b1 as u32) << 8 | (b2 as u32) << 16 | (b3 as u32)
        << 24);
}

/// Append the four little-endian bytes of `n` to `out`.
pub fn push_le32(out: &mut Vec<u8>, n: u32)
    ensures
        final(out)@ == old(out)@ + le32(n),
{
    out.push((n & 0xff) as u8);
    out.push(((n >> 8) & 0xff) as u8);
    out.push(((n >> 16) & 0xff) as u8);
    out.push(((n >> 24) & 0xff) as u8);
    proof {
        assert(out@ =~= old(out)@ + le32(n));
    }
}

/// Read the little-endian 32-bit value stored at `pos`.
pub fn read_le32(v: &Vec<u8>, pos: usize) -> (r: u32)
    requires
        pos + 4 <= v@.len(),
    ensures
        r == le32_value(v@.subrange(pos as int, pos as int + 4)),
{
    let l = v.len();
    proof {
        assert(pos + 4 <= l);
    }
    let b0 = v[pos] as u32;
    let b1 = v[pos + 1] as u32;
    let b2 = v[pos + 2] as u32;
    let b3 = v[pos + 3] as u32;
    proof {
        let s = v@.subrange(pos as int, pos as int + 4);
        assert(s[0] == v@[pos as int]);
        assert(s[1] == v@[pos as int + 1]);
        assert(s[2] == v@[pos as int + 2]);
        assert(s[3] == v@[pos as int + 3]);
    }
    b0 | b1 << 8 | b2 << 16 | b3 << 24
}

/// Decimal digit bytes of `n`, most significant first.
pub open spec fn dec_rep(n: nat) -> Seq<u8>
    decreases n,
{
    if n < 10 {
        seq![(48 + n) as u8]
    } else {
        dec_rep(n / 10) + seq![(48 + n % 10) as u8]
    }
}

/// The digits of `dec_rep` are always ASCII digits.
pub proof fn lemma_dec_rep_digits(n: nat)
    ensures
        dec_rep(n).len() >= 1,
        forall|k: int| 0 <= k < dec_rep(n).len() ==> 48 <= #[trigger] dec_rep(n)[k] <= 57,
    decreases n,
{
    if n >= 10 {
        lemma_dec_rep_digits(n / 10);
        assert(forall|k: int|
            0 <= k < dec_rep(n / 10).len() ==> dec_rep(n)[k] == dec_rep(n / 10)[k]);
        assert(dec_rep(n)[dec_rep(n).len() - 1] == (48 + n % 10) as u8);
    }
}

/// The decimal digits of `n`, as bytes.
pub fn u64_dec(n: u64) -> (r: Vec<u8>)
    ensures
        r@ == dec_rep(n as nat),
    decreases n,
{
    if n < 10 {
        let mut r: Vec<u8> = Vec::new();
        r.push(48 + n as u8);
        proof {
            assert(r@ =~= dec_rep(n as nat));
        }
        r
    } else {
        let mut r = u64_dec(n / 10);
        r.push(48 + (n % 10) as u8);
        proof {
            assert(r@ =~= dec_rep(n as nat));
        }
        r
    }
}

/// Whether every byte of `s` is an ASCII digit and there is at least one.
pub open spec fn is_dec_digits(s: Seq<u8>) -> bool {
    s.len() >= 1 && forall|k: int| 0 <= k < s.len() ==> 48 <= #[trigger] s[k] <= 57
}

/// The number that the digit bytes `s` denote.
pub open spec fn dec_value(s: Seq<u8>) -> nat
    decreases s.len(),
{
    if s.len() == 0 {
        0
    } else {
        dec_value(s.drop_last()) * 10 + (s.last() - 48) as nat
    }
}

proof fn lemma_dec_value_prefix_le(s: Seq<u8>, i: int)
    requires
        0 <= i <= s.len(),
        forall|k: int| 0 <= k < s.len() ==> 48 <= #[trigger] s[k] <= 57,
    ensures
        dec_value(s.take(i)) <= dec_value(s),
    decreases s.len() - i,
{
    if i < s.len() {
        lemma_dec_value_prefix_le(s, i + 1);
        assert(s.take(i + 1).drop_last() =~= s.take(i));
        assert(dec_value(s.take(i + 1)) == dec_value(s.take(i)) * 10 + (s[i] - 48) as nat);
    } else {
        assert(s.take(i) =~= s);
    }
}

/// Parse an unsigned decimal number; `None` when the bytes are not all
/// digits, are empty, or denote a value above `u64::MAX`.
pub fn parse_u64(v: &Vec<u8>) -> (r: Option<u64>)
    ensures
        match r {
            Some(n) => is_dec_digits(v@) && n as nat == dec_value(v@),
            None => !is_dec_digits(v@) || dec_value(v@) > u64::MAX,
        },
{
    if v.len() == 0 {
        return None;
    }
    let mut acc: u64 = 0;
    let mut i: usize = 0;
    while i < v.len()
        invariant
            0 <= i <= v@.len(),
            v@.len() >= 1,
            forall|k: int| 0 <= k < i ==> 48 <= #[trigger] v@[k] <= 57,
            acc as nat == dec_value(v@.take(i as int)),
        decreases v.len() - i,
    {
        let b = v[i];
        if b < 48 || b > 57 {
            return None;
        }
        let d = (b - 48) as u64;
        if acc > 0xffff_ffff_ffff_ffffu64 / 10 || (acc == 0xffff_ffff_ffff_ffffu64 / 10 && d > 5) {
            proof {
                assert(v@.take(i as int + 1).drop_last() =~= v@.take(i as int));
                assert(dec_value(v@.take(i as int + 1)) == acc as nat * 10 + d as nat);
                assert(dec_value(v@.take(i as int + 1)) > u64::MAX);
                if is_dec_digits(v@) {
                    lemma_dec_value_prefix_le(v@, i as int + 1);
                }
            }
            return None;
        }
        proof {
            assert(v@.take(i as int + 1).drop_last() =~= v@.take(i as int));
        }
        acc = acc * 10 + d;
        i = i + 1;
    }
    proof {
        assert(v@.take(v@.len() as int) =~= v@);
    }
    Some(acc)
}

/// Append all bytes of `src` to `out`.
pub fn push_bytes(out: &mut Vec<u8>, src: &Vec<u8>)
    ensures
        final(out)@ == old(out)@ + src@,
{
    let mut i: usize = 0;
    while i < src.len()
        invariant
            0 <= i <= src@.len(),
            out@ =~= old(out)@ + src@.take(i as int),
        decreases src.len() - i,
    {
        out.push(src[i]);
        i = i + 1;
        proof {
            assert(out@ =~= old(out)@ + src@.take(i as int));
        }
    }
    proof {
        assert(out@ =~= old(out)@ + src@);
    }
}

/// Copy of the whole byte vector.
pub fn clone_bytes(v: &Vec<u8>) -> (r: Vec<u8>)
    ensures
        r@ == v@,
{
    let r = subvec(v, 0, v.len());
    proof {
        assert(v@.subrange(0, v@.len() as int) =~= v@);
    }
    r
}

/// Whether two byte vectors hold the same bytes.
pub fn eq_bytes(a: &Vec<u8>, b: &Vec<u8>) -> (r: bool)
    ensures
        r == (a@ == b@),
{
    if a.len() != b.len() {
        proof {
            assert(a@ != b@);
        }
        return false;
    }
    let mut i: usize = 0;
    while i < a.len()
        invariant
            0 <= i <= a@.len(),
            a@.len() == b@.len(),
            forall|k: int| 0 <= k < i ==> a@[k] == b@[k],
        decreases a.len() - i,
    {
        if a[i] != b[i] {
            proof {
                assert(a@[i as int] != b@[i as int]);
            }
            return false;
        }
        i = i + 1;
    }
    proof {
        assert(a@ =~= b@);
    }
    true
}

/// Splitting a suffix whose first separator is at `i` peels off `v[start..i]`.
proof fn lemma_split_decompose(v: Seq<u8>, start: int, i: int, sep: u8)
    requires
        0 <= start <= i < v.len(),
        forall|k: int| start <= k < i ==> v[k] != sep,
        v[i] == sep,
    ensures
        split_on(v.skip(start), sep) == seq![v.subrange(start, i)] + split_on(v.skip(i + 1), sep),
{
    let s = v.skip(start);
    assert(forall|k: int| 0 <= k < i - start ==> s[k] == v[k + start] && s[k] != sep);
    assert(s[i - start] == sep);
    lemma_find_idx(s, sep);
    assert(find_idx(s, sep) == i - start) by {
        if find_idx(s, sep) < i - start {
            assert(s[find_idx(s, sep)] == sep);
        }
        if find_idx(s, sep) > i - start {
            assert(s[i - start] != sep);
        }
    }
    lemma_split_on_first(s, sep);
    assert(s.take(i - start) =~= v.subrange(start, i));
    assert(s.skip(i - start + 1) =~= v.skip(i + 1));
    assert(split_on(v.skip(start), sep) =~~= seq![v.subrange(start, i)] + split_on(
        v.skip(i + 1),
        sep,
    ));
}

/// A suffix with no separators splits into a single piece.
proof fn lemma_split_tail(v: Seq<u8>, start: int, sep: u8)
    requires
        0 <= start <= v.len(),
        forall|k: int| start <= k < v.len() ==> v[k] != sep,
    ensures
        split_on(v.skip(start), sep) == seq![v.subrange(start, v.len() as int)],
{
    let s = v.skip(start);
    assert(forall|k: int| 0 <= k < s.len() ==> s[k] == v[k + start]);
    lemma_find_idx(s, sep);
    assert(find_idx(s, sep) == s.len()) by {
        if find_idx(s, sep) < s.len() {
            assert(s[find_idx(s, sep)] == sep);
        }
    }
    lemma_split_on_first(s, sep);
    assert(s =~= v.subrange(start, v.len() as int));
    assert(split_on(v.skip(start), sep) =~~= seq![v.subrange(start, v.len() as int)]);
}

} // verus!
