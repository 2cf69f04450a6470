//! The checkpoint byte format.
//!
//! Parameters are framed as little-endian fixed-width fields: a 64-bit
//! length before every sequence, then the elements, each scalar as the
//! 32-bit value the caller's encoding produced. A `Linear` layer is its
//! input count, its weight rows, and its biases, in that order; a model is
//! its layers' frames concatenated in stack order, and a checkpoint appends
//! a 32-bit epoch counter. Parsing is specified as a deterministic function
//! of the bytes, and parsing an encoding returns exactly what was encoded.

use vstd::prelude::*;

verus! {

/// A byte buffer could not be decoded: it ends before the data it declares
/// (`Truncated`), or the declared shapes do not form a valid layer or do
/// not match the live model (`Corrupt`).
#[derive(Clone, Copy, Debug, PartialEq, Eq, Structural)]
pub enum DecodeError {
    Truncated,
    Corrupt,
}

/// The four little-endian bytes of `x`.
pub open spec fn u32_le_bytes(x: u32) -> Seq<u8> {
    seq![
        (x & 0xFF) as u8,
        ((x >> 8) & 0xFF) as u8,
        ((x >> 16) & 0xFF) as u8,
        ((x >> 24) & 0xFF) as u8,
    ]
}

/// The eight little-endian bytes of `x`.
pub open spec fn u64_le_bytes(x: u64) -> Seq<u8> {
    seq![
        (x & 0xFF) as u8,
        ((x >> 8) & 0xFF) as u8,
        ((x >> 16) & 0xFF) as u8,
        ((x >> 24) & 0xFF) as u8,
        ((x >> 32) & 0xFF) as u8,
        ((x >> 40) & 0xFF) as u8,
        ((x >> 48) & 0xFF) as u8,
        ((x >> 56) & 0xFF) as u8,
    ]
}

/// The value four little-endian bytes stand for.
pub open spec fn u32_from_le(b: Seq<u8>) -> u32 {
    (b[0] as u32) | ((b[1] as u32) << 8) | ((b[2] as u32) << 16) | ((b[3] as u32) << 24)
}

/// The value eight little-endian bytes stand for.
pub open spec fn u64_from_le(b: Seq<u8>) -> u64 {
    (b[0] as u64) | ((b[1] as u64) << 8) | ((b[2] as u64) << 16) | ((b[3] as u64) << 24) | ((
    b[4] as u64) << 32) | ((b[5] as u64) << 40) | ((b[6] as u64) << 48) | ((b[7] as u64) << 56)
}

pub proof fn lemma_u32_le_roundtrip(x: u32)
    ensures
        u32_from_le(u32_le_bytes(x)) == x,
{
    assert((((x & 0xFF) as u8) as u32) | ((((x >> 8) & 0xFF) as u8) as u32) << 8 | ((((x >> 16)
        & 0xFF) as u8) as u32) << 16 | ((((x >> 24) & 0xFF) as u8) as u32) << 24 == x)
        by (bit_vector);
}

pub proof fn lemma_u64_le_roundtrip(x: u64)
    ensures
        u64_from_le(u64_le_bytes(x)) == x,
{
    assert((((x & 0xFF) as u8) as u64) | ((((x >> 8) & 0xFF) as u8) as u64) << 8 | ((((x >> 16)
        & 0xFF) as u8) as u64) << 16 | ((((x >> 24) & 0xFF) as u8) as u64) << 24 | ((((x >> 32)
        & 0xFF) as u8) as u64) << 32 | ((((x >> 40) & 0xFF) as u8) as u64) << 40 | ((((x >> 48)
        & 0xFF) as u8) as u64) << 48 | ((((x >> 56) & 0xFF) as u8) as u64) << 56 == x)
        by (bit_vector);
}

/// The bytes of a run of 32-bit values, in order.
pub open spec fn vals_bytes(s: Seq<u32>) -> Seq<u8>
    decreases s.len(),
{
    if s.len() == 0 {
        Seq::empty()
    } else {
        u32_le_bytes(s.first()) + vals_bytes(s.drop_first())
    }
}

/// One length-prefixed row of 32-bit values.
pub open spec fn row_bytes(row: Seq<u32>) -> Seq<u8> {
    u64_le_bytes(row.len() as u64) + vals_bytes(row)
}

/// The rows of a weight matrix, each length-prefixed, in order.
pub open spec fn rows_bytes(w: Seq<Seq<u32>>) -> Seq<u8>
    decreases w.len(),
{
    if w.len() == 0 {
        Seq::empty()
    } else {
        row_bytes(w.first()) + rows_bytes(w.drop_first())
    }
}

/// The frame of a `Linear` layer: input count, length-prefixed weight rows,
/// length-prefixed biases.
pub open spec fn linear_bytes(n: u64, w: Seq<Seq<u32>>, b: Seq<u32>) -> Seq<u8> {
    u64_le_bytes(n) + u64_le_bytes(w.len() as u64) + rows_bytes(w) + u64_le_bytes(b.len() as u64)
        + vals_bytes(b)
}

pub proof fn lemma_vals_bytes_push(s: Seq<u32>, x: u32)
    ensures
        vals_bytes(s.push(x)) == vals_bytes(s) + u32_le_bytes(x),
    decreases s.len(),
{
    if s.len() == 0 {
        assert(s.push(x).first() == x);
        assert(s.push(x).drop_first() =~= Seq::<u32>::empty());
        assert(vals_bytes(Seq::<u32>::empty()) == Seq::<u8>::empty());
        assert(vals_bytes(s) == Seq::<u8>::empty());
        assert(vals_bytes(s.push(x)) == u32_le_bytes(x) + Seq::<u8>::empty());
        assert(vals_bytes(s.push(x)) =~= vals_bytes(s) + u32_le_bytes(x));
    } else {
        assert(s.push(x).first() == s.first());
        assert(s.push(x).drop_first() =~= s.drop_first().push(x));
        lemma_vals_bytes_push(s.drop_first(), x);
        assert(vals_bytes(s.push(x)) == u32_le_bytes(s.first()) + (vals_bytes(s.drop_first())
            + u32_le_bytes(x)));
        assert(u32_le_bytes(s.first()) + (vals_bytes(s.drop_first()) + u32_le_bytes(x)) =~= (
        u32_le_bytes(s.first()) + vals_bytes(s.drop_first())) + u32_le_bytes(x));
    }
}

pub proof fn lemma_rows_bytes_push(w: Seq<Seq<u32>>, row: Seq<u32>)
    ensures
        rows_bytes(w.push(row)) == rows_bytes(w) + row_bytes(row),
    decreases w.len(),
{
    if w.len() == 0 {
        assert(w.push(row).first() == row);
        assert(w.push(row).drop_first() =~= Seq::<Seq<u32>>::empty());
        assert(rows_bytes(Seq::<Seq<u32>>::empty()) == Seq::<u8>::empty());
        assert(rows_bytes(w) == Seq::<u8>::empty());
        assert(rows_bytes(w.push(row)) == row_bytes(row) + Seq::<u8>::empty());
        assert(rows_bytes(w.push(row)) =~= rows_bytes(w) + row_bytes(row));
    } else {
        assert(w.push(row).first() == w.first());
        assert(w.push(row).drop_first() =~= w.drop_first().push(row));
        lemma_rows_bytes_push(w.drop_first(), row);
        assert(rows_bytes(w.push(row)) == row_bytes(w.first()) + (rows_bytes(w.drop_first())
            + row_bytes(row)));
        assert(row_bytes(w.first()) + (rows_bytes(w.drop_first()) + row_bytes(row)) =~= (row_bytes(
            w.first(),
        ) + rows_bytes(w.drop_first())) + row_bytes(row));
    }
}

/// The segments of a model's layers, concatenated in stack order.
pub open spec fn concat_bytes(segs: Seq<Seq<u8>>) -> Seq<u8>
    decreases segs.len(),
{
    if segs.len() == 0 {
        Seq::empty()
    } else {
        segs.first() + concat_bytes(segs.drop_first())
    }
}

pub proof fn lemma_concat_bytes_push(segs: Seq<Seq<u8>>, seg: Seq<u8>)
    ensures
        concat_bytes(segs.push(seg)) == concat_bytes(segs) + seg,
    decreases segs.len(),
{
    if segs.len() == 0 {
        assert(segs.push(seg).first() == seg);
        assert(segs.push(seg).drop_first() =~= Seq::<Seq<u8>>::empty());
        assert(concat_bytes(Seq::<Seq<u8>>::empty()) == Seq::<u8>::empty());
        assert(concat_bytes(segs) == Seq::<u8>::empty());
        assert(concat_bytes(segs.push(seg)) == seg + Seq::<u8>::empty());
        assert(concat_bytes(segs.push(seg)) =~= concat_bytes(segs) + seg);
    } else {
        assert(segs.push(seg).first() == segs.first());
        assert(segs.push(seg).drop_first() =~= segs.drop_first().push(seg));
        lemma_concat_bytes_push(segs.drop_first(), seg);
        assert(concat_bytes(segs.push(seg)) == segs.first() + (concat_bytes(segs.drop_first())
            + seg));
        assert(segs.first() + (concat_bytes(segs.drop_first()) + seg) =~= (segs.first()
            + concat_bytes(segs.drop_first())) + seg);
    }
}

/// The 32-bit field at `pos`, if the buffer reaches that far.
pub open spec fn parse_u32_at(s: Seq<u8>, pos: int) -> Option<(u32, int)> {
    if 0 <= pos && pos + 4 <= s.len() {
        Some((u32_from_le(s.subrange(pos, pos + 4)), pos + 4))
    } else {
        None
    }
}

/// The 64-bit field at `pos`, if the buffer reaches that far.
pub open spec fn parse_u64_at(s: Seq<u8>, pos: int) -> Option<(u64, int)> {
    if 0 <= pos && pos + 8 <= s.len() {
        Some((u64_from_le(s.subrange(pos, pos + 8)), pos + 8))
    } else {
        None
    }
}

/// A run of `cnt` 32-bit fields starting at `pos`.
pub open spec fn parse_u32_run(s: Seq<u8>, pos: int, cnt: nat) -> Option<(Seq<u32>, int)>
    decreases cnt,
{
    if cnt == 0 {
        Some((Seq::empty(), pos))
    } else {
        match parse_u32_at(s, pos) {
            None => None,
            Some((v, p2)) => match parse_u32_run(s, p2, (cnt - 1) as nat) {
                None => None,
                Some((vs, p3)) => Some((seq![v] + vs, p3)),
            },
        }
    }
}

/// One length-prefixed row starting at `pos`.
pub open spec fn parse_row(s: Seq<u8>, pos: int) -> Option<(Seq<u32>, int)> {
    match parse_u64_at(s, pos) {
        None => None,
        Some((len, p2)) => parse_u32_run(s, p2, len as nat),
    }
}

/// `cnt` length-prefixed rows starting at `pos`.
pub open spec fn parse_rows(s: Seq<u8>, pos: int, cnt: nat) -> Option<(Seq<Seq<u32>>, int)>
    decreases cnt,
{
    if cnt == 0 {
        Some((Seq::empty(), pos))
    } else {
        match parse_row(s, pos) {
            None => None,
            Some((row, p2)) => match parse_rows(s, p2, (cnt - 1) as nat) {
                None => None,
                Some((rows, p3)) => Some((seq![row] + rows, p3)),
            },
        }
    }
}

/// A whole `Linear` frame starting at `pos`: the input count, the
/// length-prefixed weight rows, and the length-prefixed biases.
pub open spec fn parse_linear(s: Seq<u8>, pos: int) -> Option<((u64, Seq<Seq<u32>>, Seq<u32>), int)> {
    match parse_u64_at(s, pos) {
        None => None,
        Some((n, p1)) => match parse_u64_at(s, p1) {
            None => None,
            Some((rc, p2)) => match parse_rows(s, p2, rc as nat) {
                None => None,
                Some((w, p3)) => match parse_u64_at(s, p3) {
                    None => None,
                    Some((bc, p4)) => match parse_u32_run(s, p4, bc as nat) {
                        None => None,
                        Some((b, p5)) => Some(((n, w, b), p5)),
                    },
                },
            },
        },
    }
}

/// Parsing a 32-bit field finds the value whose bytes sit there.
pub proof fn lemma_parse_u32_of(s: Seq<u8>, pos: int, x: u32)
    requires
        0 <= pos,
        pos + 4 <= s.len(),
        s.subrange(pos, pos + 4) == u32_le_bytes(x),
    ensures
        parse_u32_at(s, pos) == Some((x, pos + 4)),
{
    lemma_u32_le_roundtrip(x);
}

/// Parsing a 64-bit field finds the value whose bytes sit there.
pub proof fn lemma_parse_u64_of(s: Seq<u8>, pos: int, x: u64)
    requires
        0 <= pos,
        pos + 8 <= s.len(),
        s.subrange(pos, pos + 8) == u64_le_bytes(x),
    ensures
        parse_u64_at(s, pos) == Some((x, pos + 8)),
{
    lemma_u64_le_roundtrip(x);
}

/// Parsing a run finds the values whose bytes sit there.
pub proof fn lemma_parse_run_of(s: Seq<u8>, pos: int, vals: Seq<u32>)
    requires
        0 <= pos,
        pos + vals_bytes(vals).len() <= s.len(),
        s.subrange(pos, pos + vals_bytes(vals).len()) == vals_bytes(vals),
    ensures
        parse_u32_run(s, pos, vals.len()) == Some((vals, pos + vals_bytes(vals).len())),
    decreases vals.len(),
{
    if vals.len() == 0 {
        assert(vals =~= Seq::<u32>::empty());
    } else {
        let head = vals.first();
        let tail = vals.drop_first();
        let hb = u32_le_bytes(head);
        let tb = vals_bytes(tail);
        assert(vals_bytes(vals) == hb + tb);
        assert forall|i: int| 0 <= i < 4 implies s.subrange(pos, pos + 4)[i] == hb[i] by {
            assert(s.subrange(pos, pos + vals_bytes(vals).len())[i] == (hb + tb)[i]);
        }
        assert(s.subrange(pos, pos + 4) =~= hb);
        lemma_parse_u32_of(s, pos, head);
        assert forall|i: int| 0 <= i < tb.len() implies s.subrange(pos + 4, pos + 4 + tb.len())[i]
            == tb[i] by {
            assert(s.subrange(pos, pos + vals_bytes(vals).len())[4 + i] == (hb + tb)[4 + i]);
        }
        assert(s.subrange(pos + 4, pos + 4 + tb.len()) =~= tb);
        lemma_parse_run_of(s, pos + 4, tail);
        assert(seq![head] + tail =~= vals);
    }
}

/// Parsing rows finds the rows whose bytes sit there.
pub proof fn lemma_parse_rows_of(s: Seq<u8>, pos: int, w: Seq<Seq<u32>>)
    requires
        0 <= pos,
        pos + rows_bytes(w).len() <= s.len(),
        s.subrange(pos, pos + rows_bytes(w).len()) == rows_bytes(w),
        forall|j: int| 0 <= j < w.len() ==> (#[trigger] w[j]).len() <= u64::MAX,
    ensures
        parse_rows(s, pos, w.len()) == Some((w, pos + rows_bytes(w).len())),
    decreases w.len(),
{
    if w.len() == 0 {
        assert(w =~= Seq::<Seq<u32>>::empty());
    } else {
        let head = w.first();
        let tail = w.drop_first();
        let hb = row_bytes(head);
        let tb = rows_bytes(tail);
        assert(rows_bytes(w) == hb + tb);
        assert forall|i: int| 0 <= i < hb.len() implies s.subrange(pos, pos + hb.len())[i]
            == hb[i] by {
            assert(s.subrange(pos, pos + rows_bytes(w).len())[i] == (hb + tb)[i]);
        }
        assert(s.subrange(pos, pos + hb.len()) =~= hb);
        assert forall|i: int| 0 <= i < 8 implies #[trigger] s.subrange(pos, pos + 8)[i]
            == u64_le_bytes(head.len() as u64)[i] by {
            assert(s.subrange(pos, pos + hb.len())[i] == (u64_le_bytes(head.len() as u64)
                + vals_bytes(head))[i]);
        }
        assert(s.subrange(pos, pos + 8) =~= u64_le_bytes(head.len() as u64));
        lemma_parse_u64_of(s, pos, head.len() as u64);
        assert forall|i: int| 0 <= i < vals_bytes(head).len() implies s.subrange(
            pos + 8,
            pos + 8 + vals_bytes(head).len(),
        )[i] == vals_bytes(head)[i] by {
            assert(s.subrange(pos, pos + hb.len())[8 + i] == (u64_le_bytes(head.len() as u64)
                + vals_bytes(head))[8 + i]);
        }
        assert(s.subrange(pos + 8, pos + 8 + vals_bytes(head).len()) =~= vals_bytes(head));
        lemma_parse_run_of(s, pos + 8, head);
        assert(head.len() <= u64::MAX);
        assert(((head.len() as u64) as nat) == head.len());
        assert(parse_row(s, pos) == Some((head, pos + hb.len())));
        assert forall|j: int| 0 <= j < tail.len() implies (#[trigger] tail[j]).len()
            <= u64::MAX by {
            assert(tail[j] == w[j + 1]);
        }
        assert forall|i: int| 0 <= i < tb.len() implies s.subrange(
            pos + hb.len(),
            pos + hb.len() + tb.len(),
        )[i] == tb[i] by {
            assert(s.subrange(pos, pos + rows_bytes(w).len())[hb.len() + i] == (hb + tb)[hb.len()
                + i]);
        }
        assert(s.subrange(pos + hb.len(), pos + hb.len() + tb.len()) =~= tb);
        lemma_parse_rows_of(s, pos + hb.len(), tail);
        assert(seq![head] + tail =~= w);
    }
}

/// Parsing a `Linear` frame finds exactly what was framed.
pub proof fn lemma_parse_linear_of(s: Seq<u8>, pos: int, n: u64, w: Seq<Seq<u32>>, b: Seq<u32>)
    requires
        0 <= pos,
        pos + linear_bytes(n, w, b).len() <= s.len(),
        s.subrange(pos, pos + linear_bytes(n, w, b).len()) == linear_bytes(n, w, b),
        w.len() <= u64::MAX,
        b.len() <= u64::MAX,
        forall|j: int| 0 <= j < w.len() ==> (#[trigger] w[j]).len() <= u64::MAX,
    ensures
        parse_linear(s, pos) == Some(((n, w, b), pos + linear_bytes(n, w, b).len())),
{
    let all = linear_bytes(n, w, b);
    let s1 = u64_le_bytes(n);
    let s2 = u64_le_bytes(w.len() as u64);
    let s3 = rows_bytes(w);
    let s4 = u64_le_bytes(b.len() as u64);
    let s5 = vals_bytes(b);
    let p1 = pos + 8;
    let p2 = p1 + 8;
    let p3 = p2 + s3.len();
    let p4 = p3 + 8;
    let p5 = p4 + s5.len();
    assert(all.len() == 8 + 8 + s3.len() + 8 + s5.len());
    assert forall|i: int| 0 <= i < all.len() implies s.subrange(pos, pos + all.len())[i]
        == all[i] by {}
    assert forall|i: int| 0 <= i < 8 implies s.subrange(pos, pos + 8)[i] == s1[i] by {
        assert(all[i] == s1[i]);
        assert(s[pos + i] == all[i]);
    }
    assert(s.subrange(pos, pos + 8) =~= s1);
    lemma_parse_u64_of(s, pos, n);
    assert forall|i: int| 0 <= i < 8 implies s.subrange(p1, p1 + 8)[i] == s2[i] by {
        assert(all[8 + i] == s2[i]);
        assert(s[p1 + i] == all[8 + i]);
    }
    assert(s.subrange(p1, p1 + 8) =~= s2);
    lemma_parse_u64_of(s, p1, w.len() as u64);
    assert forall|i: int| 0 <= i < s3.len() implies s.subrange(p2, p3)[i] == s3[i] by {
        assert(all[16 + i] == s3[i]);
        assert(s[p2 + i] == all[16 + i]);
    }
    assert(s.subrange(p2, p2 + s3.len()) =~= s3);
    lemma_parse_rows_of(s, p2, w);
    assert(((w.len() as u64) as nat) == w.len());
    assert(((b.len() as u64) as nat) == b.len());
    assert forall|i: int| 0 <= i < 8 implies s.subrange(p3, p3 + 8)[i] == s4[i] by {
        assert(all[16 + s3.len() + i] == s4[i]);
        assert(s[p3 + i] == all[16 + s3.len() + i]);
    }
    assert(s.subrange(p3, p3 + 8) =~= s4);
    lemma_parse_u64_of(s, p3, b.len() as u64);
    assert forall|i: int| 0 <= i < s5.len() implies s.subrange(p4, p4 + s5.len())[i] == s5[i] by {
        assert(all[24 + s3.len() + i] == s5[i]);
        assert(s[p4 + i] == all[24 + s3.len() + i]);
    }
    assert(s.subrange(p4, p4 + s5.len()) =~= s5);
    lemma_parse_run_of(s, p4, b);
}

/// Append the four little-endian bytes of `x`.
pub fn write_u32_le(buffer: &mut Vec<u8>, x: u32)
    ensures
        final(buffer)@ == old(buffer)@ + u32_le_bytes(x),
{
    buffer.push((x & 0xFF) as u8);
    buffer.push(((x >> 8) & 0xFF) as u8);
    buffer.push(((x >> 16) & 0xFF) as u8);
    buffer.push(((x >> 24) & 0xFF) as u8);
    proof {
        assert(buffer@ =~= old(buffer)@ + u32_le_bytes(x));
    }
}

/// Append the eight little-endian bytes of `x`.
pub fn write_u64_le(buffer: &mut Vec<u8>, x: u64)
    ensures
        final(buffer)@ == old(buffer)@ + u64_le_bytes(x),
{
    buffer.push((x & 0xFF) as u8);
    buffer.push(((x >> 8) & 0xFF) as u8);
    buffer.push(((x >> 16) & 0xFF) as u8);
    buffer.push(((x >> 24) & 0xFF) as u8);
    buffer.push(((x >> 32) & 0xFF) as u8);
    buffer.push(((x >> 40) & 0xFF) as u8);
    buffer.push(((x >> 48) & 0xFF) as u8);
    buffer.push(((x >> 56) & 0xFF) as u8);
    proof {
        assert(buffer@ =~= old(buffer)@ + u64_le_bytes(x));
    }
}

/// Read the 32-bit field at `pos`, as the parse function describes it.
pub fn read_u32_le(buffer: &Vec<u8>, pos: usize) -> (r: Option<(u32, usize)>)
    ensures
        match r {
            Some((v, p2)) => parse_u32_at(buffer@, pos as int) == Some((v, p2 as int)),
            None => parse_u32_at(buffer@, pos as int) is None,
        },
{
    let n = buffer.len();
    if n < 4 || pos > n - 4 {
        return None;
    }
    let v = (buffer[pos] as u32) | ((buffer[pos + 1] as u32) << 8) | ((buffer[pos + 2] as u32)
        << 16) | ((buffer[pos + 3] as u32) << 24);
    proof {
        assert(buffer@.subrange(pos as int, pos as int + 4)[0] == buffer@[pos as int]);
        assert(buffer@.subrange(pos as int, pos as int + 4)[1] == buffer@[pos as int + 1]);
        assert(buffer@.subrange(pos as int, pos as int + 4)[2] == buffer@[pos as int + 2]);
        assert(buffer@.subrange(pos as int, pos as int + 4)[3] == buffer@[pos as int + 3]);
    }
    Some((v, pos + 4))
}

/// Read the 64-bit field at `pos`, as the parse function describes it.
pub fn read_u64_le(buffer: &Vec<u8>, pos: usize) -> (r: Option<(u64, usize)>)
    ensures
        match r {
            Some((v, p2)) => parse_u64_at(buffer@, pos as int) == Some((v, p2 as int)),
            None => parse_u64_at(buffer@, pos as int) is None,
        },
{
    let n = buffer.len();
    if n < 8 || pos > n - 8 {
        return None;
    }
    let v = (buffer[pos] as u64) | ((buffer[pos + 1] as u64) << 8) | ((buffer[pos + 2] as u64)
        << 16) | ((buffer[pos + 3] as u64) << 24) | ((buffer[pos + 4] as u64) << 32) | ((buffer[pos
        + 5] as u64) << 40) | ((buffer[pos + 6] as u64) << 48) | ((buffer[pos + 7] as u64) << 56);
    proof {
        assert(buffer@.subrange(pos as int, pos as int + 8)[0] == buffer@[pos as int]);
        assert(buffer@.subrange(pos as int, pos as int + 8)[1] == buffer@[pos as int + 1]);
        assert(buffer@.subrange(pos as int, pos as int + 8)[2] == buffer@[pos as int + 2]);
        assert(buffer@.subrange(pos as int, pos as int + 8)[3] == buffer@[pos as int + 3]);
        assert(buffer@.subrange(pos as int, pos as int + 8)[4] == buffer@[pos as int + 4]);
        assert(buffer@.subrange(pos as int, pos as int + 8)[5] == buffer@[pos as int + 5]);
        assert(buffer@.subrange(pos as int, pos as int + 8)[6] == buffer@[pos as int + 6]);
        assert(buffer@.subrange(pos as int, pos as int + 8)[7] == buffer@[pos as int + 7]);
    }
    Some((v, pos + 8))
}

} // verus!
