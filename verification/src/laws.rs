//! What holds between writing and reading: a value written bit by bit is
//! read back unchanged, and whole bytes come out the same whether they
//! are written as bytes or bit by bit.

use vstd::prelude::*;
use vstd::arithmetic::power2::{lemma2_to64, pow2};
use crate::bit_stream::{bit_at, bit_in, bit_of_word, lemma_read_uint_bound, lemma_shl_one, read_uint};
use crate::codebook::{
    copy_spec, ilog_spec, lemma_ilog_le, lookup_table, ordered_lengths, plain_codeword_lengths,
    plain_dimensions, plain_entries, plain_head, plain_lengths, plain_lookup, CODEBOOK_SYNC,
};
use crate::errors::ParseError;
use crate::progress::{copy_fields, Progress};
use crate::setup::copy_rest;
use crate::model::{
    bits_of, byte_of_bits, byte_of_word, crc32, has_bit, lacing, le_bytes, lemma_put_bits_concat,
    lemma_put_bits_len, lemma_put_bits_push, page_flags, segment_count, OggModel, MAX_PAYLOAD,
};

verus! {

/// The bits of a byte sequence, least significant bit of each byte first.
pub open spec fn bits_of_bytes(data: Seq<u8>) -> Seq<bool> {
    Seq::new(8 * data.len(), |j: int| bit_at(data, j))
}

/// All bits that a page under construction holds, in the order in which
/// they were written.
pub open spec fn written_bits(m: OggModel) -> Seq<bool> {
    bits_of_bytes(m.payload) + m.pending
}

/// Bit `i` of the byte that up to eight bits spell is bit `i` of them.
pub proof fn lemma_bit_of_packed(s: Seq<bool>, i: int)
    requires
        0 <= i < 8,
    ensures
        bit_in(byte_of_bits(s), i) == has_bit(s, i),
{
    let b0 = has_bit(s, 0);
    let b1 = has_bit(s, 1);
    let b2 = has_bit(s, 2);
    let b3 = has_bit(s, 3);
    let b4 = has_bit(s, 4);
    let b5 = has_bit(s, 5);
    let b6 = has_bit(s, 6);
    let b7 = has_bit(s, 7);
    let k = i as u8;
    let x = byte_of_bits(s);
    assert(x == (if b0 { 1u8 << 0u8 } else { 0u8 }) | (if b1 { 1u8 << 1u8 } else { 0u8 }) | (if b2 {
        1u8 << 2u8
    } else {
        0u8
    }) | (if b3 { 1u8 << 3u8 } else { 0u8 }) | (if b4 { 1u8 << 4u8 } else { 0u8 }) | (if b5 {
        1u8 << 5u8
    } else {
        0u8
    }) | (if b6 { 1u8 << 6u8 } else { 0u8 }) | (if b7 { 1u8 << 7u8 } else { 0u8 }));
    assert(((x >> k) & 1 == 1) == ((k == 0 && b0) || (k == 1 && b1) || (k == 2 && b2) || (k == 3
        && b3) || (k == 4 && b4) || (k == 5 && b5) || (k == 6 && b6) || (k == 7 && b7)))
        by (bit_vector)
        requires
            k < 8,
            x == (if b0 { 1u8 << 0u8 } else { 0u8 }) | (if b1 { 1u8 << 1u8 } else { 0u8 }) | (if b2 {
                1u8 << 2u8
            } else {
                0u8
            }) | (if b3 { 1u8 << 3u8 } else { 0u8 }) | (if b4 { 1u8 << 4u8 } else { 0u8 }) | (if b5 {
                1u8 << 5u8
            } else {
                0u8
            }) | (if b6 { 1u8 << 6u8 } else { 0u8 }) | (if b7 { 1u8 << 7u8 } else { 0u8 }),
    ;
}

/// One more bit that fits is one more bit written.
pub proof fn lemma_put_bit_written(m: OggModel, bit: bool)
    requires
        m.wf(),
        m.bit_fits(),
    ensures
        written_bits(m.put_bit(bit)) == written_bits(m).push(bit),
{
    let after = m.put_bit(bit);
    if m.pending.len() == 7 {
        let s = m.pending.push(bit);
        let n = m.payload.len() as int;
        assert forall|j: int| 0 <= j < 8 * n + 8 implies #[trigger] written_bits(after)[j]
            == written_bits(m).push(bit)[j] by {
            if j >= 8 * n {
                lemma_bit_of_packed(s, j - 8 * n);
                assert(j / 8 == n);
                assert(j % 8 == j - 8 * n);
            } else {
                assert(j / 8 < n);
            }
        }
        assert(written_bits(after) =~= written_bits(m).push(bit));
    } else {
        assert(written_bits(after) =~= written_bits(m).push(bit));
    }
}

/// Bits that fit are written behind the bits that are there.
pub proof fn lemma_put_bits_written(m: OggModel, bits: Seq<bool>)
    requires
        m.wf(),
        m.bits_fit(bits.len()),
    ensures
        written_bits(m.put_bits(bits)) == written_bits(m) + bits,
    decreases bits.len(),
{
    if bits.len() == 0 {
        assert(written_bits(m) + bits =~= written_bits(m));
    } else {
        let head = bits.drop_last();
        assert(bits =~= head.push(bits.last()));
        lemma_put_bits_push(m, head, bits.last());
        lemma_put_bits_written(m, head);
        lemma_put_bits_len(m, head);
        lemma_put_bit_written(m.put_bits(head), bits.last());
        assert((written_bits(m) + head).push(bits.last()) =~= written_bits(m) + bits);
    }
}

/// Closing the pending bits into a byte keeps every bit written so far
/// in its place.
pub proof fn lemma_flush_keeps_bits(m: OggModel, j: int)
    requires
        m.wf(),
        m.flush_fits(),
        0 <= j < written_bits(m).len(),
    ensures
        j < 8 * m.flush_bits().payload.len(),
        bit_at(m.flush_bits().payload, j) == written_bits(m)[j],
{
    if m.pending.len() > 0 {
        let n = m.payload.len() as int;
        if j >= 8 * n {
            lemma_bit_of_packed(m.pending, j - 8 * n);
            assert(j / 8 == n);
            assert(j % 8 == j - 8 * n);
        } else {
            assert(j / 8 < n);
        }
    }
}

/// What the next higher bit adds to the low bits of a word.
proof fn lemma_low_bits_step(v: u32, k: u32)
    requires
        k < 32,
    ensures
        v as nat % pow2((k + 1) as nat) == v as nat % pow2(k as nat) + if bit_of_word(v, k) {
            pow2(k as nat)
        } else {
            0
        },
{
    let x = v as u64;
    let k64 = k as u64;
    let lo = 1u64 << k64;
    let hi = 1u64 << ((k64 + 1) as u64);
    vstd::bits::lemma_u64_pow2_no_overflow(k as nat);
    vstd::bits::lemma_u64_pow2_no_overflow((k + 1) as nat);
    vstd::bits::lemma_u64_shl_is_mul(1u64, k64);
    vstd::bits::lemma_u64_shl_is_mul(1u64, (k64 + 1) as u64);
    let mask_lo = (lo - 1) as u64;
    let mask_hi = (hi - 1) as u64;
    assert((x & mask_hi) == (x & mask_lo) + (if (v >> k) & 1 == 1 { lo } else { 0u64 }))
        by (bit_vector)
        requires
            k < 32,
            x == v as u64,
            k64 == k as u64,
            lo == 1u64 << k64,
            hi == 1u64 << ((k64 + 1) as u64),
            mask_lo == (lo - 1) as u64,
            mask_hi == (hi - 1) as u64,
    ;
    vstd::bits::lemma_u64_low_bits_mask_is_mod(x, k as nat);
    vstd::bits::lemma_u64_low_bits_mask_is_mod(x, (k + 1) as nat);
}

/// Bits that are those of a word spell the low bits of the word.
pub proof fn lemma_read_uint_of_word(data: Seq<u8>, pos: int, v: u32, width: nat)
    requires
        width <= 32,
        forall|i: int| 0 <= i < width ==> bit_at(data, pos + i) == #[trigger] bit_of_word(v, i as u32),
    ensures
        read_uint(data, pos, width) == v as nat % pow2(width),
    decreases width,
{
    lemma2_to64();
    if width > 0 {
        lemma_read_uint_of_word(data, pos, v, (width - 1) as nat);
        lemma_low_bits_step(v, (width - 1) as u32);
        assert(bit_at(data, pos + width - 1) == bit_of_word(v, (width - 1) as u32));
    }
}

/// A value of up to 32 bits that is written bit by bit, least
/// significant bit first, and closed into whole bytes is read back
/// unchanged by a reader that starts where the writer stood: at the bit
/// behind the payload and the pending bits of the page.
pub proof fn lemma_write_then_read(m: OggModel, v: u32, width: nat)
    requires
        m.wf(),
        width <= 32,
        v < pow2(width),
        m.bits_fit(width),
        m.put_bits(bits_of(v, width)).flush_fits(),
    ensures
        read_uint(
            m.put_bits(bits_of(v, width)).flush_bits().payload,
            (8 * m.payload.len() + m.pending.len()) as int,
            width,
        ) == v,
{
    let bits = bits_of(v, width);
    let written = m.put_bits(bits);
    let closed = written.flush_bits();
    let start = 8 * m.payload.len() + m.pending.len();
    lemma_put_bits_written(m, bits);
    lemma_put_bits_len(m, bits);
    assert forall|i: int| 0 <= i < width implies bit_at(closed.payload, start + i)
        == #[trigger] bit_of_word(v, i as u32) by {
        lemma_flush_keeps_bits(written, start + i);
        assert(written_bits(written)[start + i] == bits[i]);
    }
    lemma_read_uint_of_word(closed.payload, start as int, v, width);
    vstd::arithmetic::div_mod::lemma_small_mod(v as nat, pow2(width));
}

/// Fewer than eight bits on top of the pending ones stay pending.
proof fn lemma_put_bits_pending(m: OggModel, bits: Seq<bool>)
    requires
        m.pending.len() + bits.len() < 8,
    ensures
        m.put_bits(bits) == (OggModel { pending: m.pending + bits, ..m }),
    decreases bits.len(),
{
    if bits.len() == 0 {
        assert(m.pending + bits =~= m.pending);
    } else {
        lemma_put_bits_pending(m, bits.drop_last());
        assert((m.pending + bits.drop_last()).push(bits.last()) =~= m.pending + bits);
    }
}

/// Eight bits written to a page without pending bits are one byte.
proof fn lemma_put_eight_bits(m: OggModel, bits: Seq<bool>)
    requires
        m.pending.len() == 0,
        m.payload.len() < MAX_PAYLOAD,
        bits.len() == 8,
    ensures
        m.put_bits(bits) == (OggModel { payload: m.payload.push(byte_of_bits(bits)), ..m }),
{
    let head = bits.drop_last();
    lemma_put_bits_pending(m, head);
    assert(m.pending + head =~= head);
    assert(head.push(bits.last()) =~= bits);
    assert(m.pending =~= Seq::<bool>::empty());
}

/// The eight bits of byte `k` of a word spell that byte.
proof fn lemma_byte_of_word_bits(v: u32, k: u32)
    requires
        k < 4,
    ensures
        byte_of_bits(Seq::new(8, |i: int| bit_of_word(v, (8 * k + i) as u32))) == byte_of_word(
            v,
            k as int,
        ),
{
    let s = Seq::new(8, |i: int| bit_of_word(v, (8 * k + i) as u32));
    let b0 = has_bit(s, 0);
    let b1 = has_bit(s, 1);
    let b2 = has_bit(s, 2);
    let b3 = has_bit(s, 3);
    let b4 = has_bit(s, 4);
    let b5 = has_bit(s, 5);
    let b6 = has_bit(s, 6);
    let b7 = has_bit(s, 7);
    let base = (8 * k) as u32;
    assert(b0 == ((v >> base) & 1 == 1));
    assert(b1 == ((v >> ((base + 1) as u32)) & 1 == 1));
    assert(b2 == ((v >> ((base + 2) as u32)) & 1 == 1));
    assert(b3 == ((v >> ((base + 3) as u32)) & 1 == 1));
    assert(b4 == ((v >> ((base + 4) as u32)) & 1 == 1));
    assert(b5 == ((v >> ((base + 5) as u32)) & 1 == 1));
    assert(b6 == ((v >> ((base + 6) as u32)) & 1 == 1));
    assert(b7 == ((v >> ((base + 7) as u32)) & 1 == 1));
    let w = (v >> base) & 0xff;
    assert(w < 256 && (w as u8) == (if (v >> base) & 1 == 1 { 1u8 << 0u8 } else { 0u8 }) | (if (v
        >> ((base + 1) as u32)) & 1 == 1 { 1u8 << 1u8 } else { 0u8 }) | (if (v >> ((base + 2) as u32))
        & 1 == 1 { 1u8 << 2u8 } else { 0u8 }) | (if (v >> ((base + 3) as u32)) & 1 == 1 {
        1u8 << 3u8
    } else {
        0u8
    }) | (if (v >> ((base + 4) as u32)) & 1 == 1 { 1u8 << 4u8 } else { 0u8 }) | (if (v >> ((base
        + 5) as u32)) & 1 == 1 { 1u8 << 5u8 } else { 0u8 }) | (if (v >> ((base + 6) as u32)) & 1 == 1 {
        1u8 << 6u8
    } else {
        0u8
    }) | (if (v >> ((base + 7) as u32)) & 1 == 1 { 1u8 << 7u8 } else { 0u8 })) by (bit_vector)
        requires
            base <= 24,
            w == (v >> base) & 0xff,
    ;
}

/// Whole bytes written bit by bit to a page without pending bits are the
/// bytes of the value, least significant first.
proof fn lemma_bits_as_bytes(m: OggModel, v: u32, count: nat)
    requires
        m.wf(),
        m.pending.len() == 0,
        count <= 4,
        m.bytes_fit(count),
    ensures
        m.put_bits(bits_of(v, 8 * count)) == (OggModel {
            payload: m.payload + le_bytes(v, count),
            ..m
        }),
    decreases count,
{
    if count == 0 {
        assert(m.payload + le_bytes(v, 0) =~= m.payload);
    } else {
        let k = (count - 1) as nat;
        let head = bits_of(v, 8 * k);
        let oct = Seq::new(8, |i: int| bit_of_word(v, (8 * k + i) as u32));
        assert(bits_of(v, 8 * count) =~= head + oct);
        lemma_bits_as_bytes(m, v, k);
        lemma_put_bits_concat(m, head, oct);
        let mid = m.put_bits(head);
        lemma_put_eight_bits(mid, oct);
        lemma_byte_of_word_bits(v, k as u32);
        assert((m.payload + le_bytes(v, k)).push(byte_of_word(v, k as int)) =~= m.payload
            + le_bytes(v, count));
    }
}

/// Where no bits are pending, a value of a whole number of bytes that
/// fits the page leaves the writer in the same state whether it is
/// written as whole bytes or bit by bit, and fits either way.
pub proof fn lemma_whole_bytes_either_way(m: OggModel, v: u32, width: nat)
    requires
        m.wf(),
        m.pending.len() == 0,
        width % 8 == 0,
        width <= 32,
        m.write_fits(width),
    ensures
        m.bits_fit(width),
        m.write_bits(v, width) == m.put_bits(bits_of(v, width)),
{
    reveal(OggModel::write_bits);
    reveal(OggModel::write_fits);
    reveal(OggModel::put_bytes);
    lemma_bits_as_bytes(m, v, width / 8);
}


/// Every page opens with `OggS` and a zero version, carries its flags,
/// its granule position and its sequence number at their places, says
/// how many lacing values it has, ends with its payload, and holds in its
/// checksum field the checksum of itself with that field zeroed.
pub proof fn lemma_page_shape(m: OggModel, last: bool)
    requires
        m.wf(),
    ensures
        ({
            let page = m.page_bytes(last);
            let segments = segment_count(m.payload.len()) as int;
            &&& page.len() == 27 + segments + m.payload.len()
            &&& page.subrange(0, 4) == seq![0x4fu8, 0x67u8, 0x67u8, 0x53u8]
            &&& page[4] == 0
            &&& page[5] == page_flags(m.continued, m.first, last)
            &&& page.subrange(6, 10) == le_bytes(m.granule, 4)
            &&& page.subrange(18, 22) == le_bytes(m.seqno, 4)
            &&& page.subrange(22, 26) == le_bytes(
                crc32(page.take(22) + seq![0u8, 0u8, 0u8, 0u8] + page.skip(26)),
                4,
            )
            &&& page[26] == segments
            &&& page.subrange(27, 27 + segments) == lacing(m.payload.len())
            &&& page.skip(27 + segments) == m.payload
        }),
{
    let page = m.page_bytes(last);
    let crc = crc32(m.page_with_crc(last, 0));
    let segments = segment_count(m.payload.len()) as int;
    let header = m.page_header(last, crc);
    let zero = m.page_header(last, 0);
    assert(header.len() == 27 && zero.len() == 27);
    assert(page =~= header + lacing(m.payload.len()) + m.payload);
    assert(page.subrange(0, 4) =~= seq![0x4fu8, 0x67u8, 0x67u8, 0x53u8]);
    assert(page.subrange(6, 10) =~= le_bytes(m.granule, 4));
    assert(page.subrange(18, 22) =~= le_bytes(m.seqno, 4));
    assert(page.subrange(22, 26) =~= le_bytes(crc, 4));
    assert(page.subrange(27, 27 + segments) =~= lacing(m.payload.len()));
    assert(page.skip(27 + segments) =~= m.payload);
    assert(le_bytes(0, 4) =~= seq![0u8, 0u8, 0u8, 0u8]) by {
        assert(forall|i: u32| i < 4 ==> #[trigger] ((0u32 >> (8 * i)) & 0xff) == 0) by (bit_vector);
        assert forall|i: int| 0 <= i < 4 implies #[trigger] byte_of_word(0, i) == 0u8 by {
            assert(((0u32 >> (8 * (i as u32))) & 0xff) == 0);
        }
    }
    assert(page.take(22) + seq![0u8, 0u8, 0u8, 0u8] + page.skip(26) =~= m.page_with_crc(last, 0));
}

/// A flush that finds payload emits exactly one page, made of the
/// payload with the pending bits closed into it, and moves on to the next
/// sequence number; a flush that finds none emits nothing.
pub proof fn lemma_flush_emits_one_page(m: OggModel, next_continued: bool, last: bool)
    requires
        m.wf(),
        m.flush_fits(),
    ensures
        ({
            let closed = m.flush_bits();
            let after = m.flush_page(next_continued, last);
            if closed.payload.len() == 0 {
                after == m
            } else {
                &&& after.output == m.output + closed.page_bytes(last)
                &&& after.seqno == (m.seqno + 1) % 0x1_0000_0000
                &&& after.payload.len() == 0
                &&& after.pending.len() == 0
                &&& !after.first
                &&& after.continued == next_continued
                &&& after.granule == m.granule
            }
        }),
{
    reveal(OggModel::flush_page);
}

/// The bits of the input from bit `from` up to bit `to`.
pub open spec fn input_bits(data: Seq<u8>, from: nat, to: nat) -> Seq<bool> {
    Seq::new((to - from) as nat, |i: int| bit_at(data, from + i))
}

/// Whether the step from `p` to `q`, if it went well, wrote the bits that
/// it read, as they are and in their order, and left the rest of the
/// writer alone.
pub open spec fn copied(data: Seq<u8>, p: Progress, q: Progress) -> bool {
    q.err.is_none() ==> {
        &&& p.pos <= q.pos <= 8 * data.len()
        &&& q.out.wf()
        &&& written_bits(q.out) == written_bits(p.out) + input_bits(data, p.pos, q.pos)
        &&& q.out.first == p.out.first
        &&& q.out.continued == p.out.continued
        &&& q.out.granule == p.out.granule
        &&& q.out.seqno == p.out.seqno
        &&& q.out.output == p.out.output
    }
}

/// A state from which a copy can start: no error so far, a well-formed
/// writer, and a position within the input.
pub open spec fn ready(data: Seq<u8>, p: Progress) -> bool {
    p.err.is_none() && p.out.wf() && p.pos <= 8 * data.len()
}

/// What a word whose bits from `k` upwards are clear gains from bit `k`.
proof fn lemma_bit_of_sum(x: u32, k: u32, i: u32)
    requires
        k < 32,
        i < 32,
        x < pow2(k as nat),
    ensures
        bit_of_word((x + pow2(k as nat)) as u32, i) == if i == k {
            true
        } else {
            bit_of_word(x, i)
        },
        i >= k ==> !bit_of_word(x, i),
{
    lemma_shl_one(k);
    vstd::arithmetic::power2::lemma_pow2_strictly_increases(k as nat, 32);
    lemma2_to64();
    let w = 1u32 << k;
    let y = (x + w) as u32;
    assert(((y >> i) & 1 == 1) == (if i == k { true } else { (x >> i) & 1 == 1 }) && (i >= k ==> !((x
        >> i) & 1 == 1))) by (bit_vector)
        requires
            k < 32,
            i < 32,
            w == 1u32 << k,
            x < w,
            y == x + w,
    ;
}

/// The bits of the number that a field spells are the bits of the field.
pub proof fn lemma_bits_of_field(data: Seq<u8>, pos: int, width: nat, i: int)
    requires
        width <= 32,
        0 <= i < 32,
    ensures
        bit_of_word(read_uint(data, pos, width) as u32, i as u32) == (i < width && bit_at(
            data,
            pos + i,
        )),
    decreases width,
{
    lemma2_to64();
    if width == 0 {
        assert(!bit_of_word(0u32, i as u32)) by {
            let j = i as u32;
            assert(!((0u32 >> j) & 1 == 1)) by (bit_vector);
        }
    } else {
        let k = (width - 1) as nat;
        lemma_bits_of_field(data, pos, k, i);
        lemma_read_uint_bound(data, pos, k);
        lemma_read_uint_bound(data, pos, width);
        vstd::arithmetic::power2::lemma_pow2_strictly_increases(k, 32);
        if width < 32 {
            vstd::arithmetic::power2::lemma_pow2_strictly_increases(width, 32);
        }
        let low = read_uint(data, pos, k) as u32;
        lemma_bit_of_sum(low, k as u32, i as u32);
    }
}

/// A field that is read and written unchanged is copied.
pub proof fn lemma_copy_field(data: Seq<u8>, p: Progress, width: nat)
    requires
        ready(data, p),
        width <= 32,
    ensures
        copied(data, p, p.copy(data, width)),
{
    let q = p.copy(data, width);
    if q.err.is_none() {
        let v = p.peek(data, width);
        let bits = bits_of(v, width);
        lemma_put_bits_written(p.out, bits);
        lemma_put_bits_len(p.out, bits);
        assert forall|i: int| 0 <= i < width implies bits[i] == input_bits(
            data,
            p.pos,
            p.pos + width,
        )[i] by {
            lemma_bits_of_field(data, p.pos as int, width, i);
            lemma_read_uint_bound(data, p.pos as int, width);
            lemma2_to64();
            if width < 32 {
                vstd::arithmetic::power2::lemma_pow2_strictly_increases(width, 32);
            }
        }
        assert(bits =~= input_bits(data, p.pos, p.pos + width));
    }
}

/// A copy behind a copy is a copy.
pub proof fn lemma_copied_twice(data: Seq<u8>, p: Progress, q: Progress, r: Progress)
    requires
        copied(data, p, q),
        copied(data, q, r),
        r.err.is_none() ==> q.err.is_none(),
    ensures
        copied(data, p, r),
{
    if r.err.is_none() {
        let a = written_bits(p.out);
        let b = input_bits(data, p.pos, q.pos);
        let c = input_bits(data, q.pos, r.pos);
        assert(b + c =~= input_bits(data, p.pos, r.pos));
        assert((a + b) + c =~= a + (b + c));
    }
}

/// A step that does nothing is a copy.
pub proof fn lemma_copied_nothing(data: Seq<u8>, p: Progress)
    requires
        ready(data, p),
    ensures
        copied(data, p, p),
{
    assert(written_bits(p.out) + input_bits(data, p.pos, p.pos) =~= written_bits(p.out));
}

/// Fields that are read and written unchanged one after the other are
/// copied.
pub proof fn lemma_copy_fields(data: Seq<u8>, p: Progress, width: nat, count: nat)
    requires
        ready(data, p),
        width <= 32,
    ensures
        copied(data, p, copy_fields(data, p, width, count)),
    decreases count,
{
    lemma_copied_nothing(data, p);
    if count > 0 {
        let q = p.copy(data, width);
        lemma_copy_field(data, p, width);
        if q.err.is_none() {
            lemma_copy_fields(data, q, width, (count - 1) as nat);
            lemma_copied_twice(data, p, q, copy_fields(data, q, width, (count - 1) as nat));
        }
    }
}

/// Codeword lengths in run-length form are copied.
pub proof fn lemma_copy_ordered_lengths(data: Seq<u8>, p: Progress, entries: nat, current: nat)
    requires
        ready(data, p),
        entries <= u32::MAX,
    ensures
        copied(data, p, ordered_lengths(data, p, entries, current)),
    decreases 8 * data.len() - p.pos,
{
    lemma_copied_nothing(data, p);
    if current < entries {
        let width = ilog_spec((entries - current) as nat);
        lemma2_to64();
        lemma_ilog_le((entries - current) as nat, 32);
        let q = p.copy(data, width);
        lemma_copy_field(data, p, width);
        if q.err.is_none() && q.pos > p.pos {
            let next = current + p.peek(data, width) as nat;
            lemma_copy_ordered_lengths(data, q, entries, next);
            lemma_copied_twice(data, p, q, ordered_lengths(data, q, entries, next));
        }
    }
}

/// Codeword lengths in the canonical form are copied.
pub proof fn lemma_copy_plain_lengths(data: Seq<u8>, p: Progress, entries: nat, sparse: bool, i: nat)
    requires
        ready(data, p),
    ensures
        copied(data, p, plain_lengths(data, p, entries, sparse, i)),
    decreases entries - i,
{
    lemma_copied_nothing(data, p);
    if i < entries {
        let flagged = if sparse {
            p.copy(data, 1)
        } else {
            p
        };
        lemma_copy_field(data, p, 1);
        let present = !sparse || p.peek(data, 1) != 0;
        let next = if present {
            flagged.copy(data, 5)
        } else {
            flagged
        };
        if flagged.err.is_none() {
            lemma_copy_field(data, flagged, 5);
            lemma_copied_nothing(data, flagged);
            lemma_copied_twice(data, p, flagged, next);
            if next.err.is_none() {
                lemma_copy_plain_lengths(data, next, entries, sparse, i + 1);
                lemma_copied_twice(
                    data,
                    p,
                    next,
                    plain_lengths(data, next, entries, sparse, i + 1),
                );
            }
        }
    }
}

/// The rest of a full setup packet is copied as it is.
pub proof fn lemma_copy_rest_is_verbatim(data: Seq<u8>, p: Progress, end: nat)
    requires
        ready(data, p),
    ensures
        copied(data, p, copy_rest(data, p, end)),
    decreases end - p.pos,
{
    lemma_copied_nothing(data, p);
    if p.pos < end {
        let q = p.copy(data, 1);
        lemma_copy_field(data, p, 1);
        if q.err.is_none() && q.pos > p.pos {
            lemma_copy_rest_is_verbatim(data, q, end);
            lemma_copied_twice(data, p, q, copy_rest(data, q, end));
        }
    }
}

/// The head of a lookup table of type 1, read as a whole and written as
/// a whole, is what copying its four fields one by one gives.
proof fn lemma_lookup_head(data: Seq<u8>, p: Progress)
    requires
        ready(data, p),
    ensures
        ({
            let p1 = p.take(data, 32);
            let p2 = p1.take(data, 32);
            let p3 = p2.take(data, 4);
            let p4 = p3.take(data, 1);
            let q = p4.emit(p.peek(data, 32), 32).emit(p1.peek(data, 32), 32).emit(
                p2.peek(data, 4),
                4,
            ).emit(p3.peek(data, 1), 1);
            copied(data, p, q)
        }),
{
    let p1 = p.take(data, 32);
    let p2 = p1.take(data, 32);
    let p3 = p2.take(data, 4);
    let p4 = p3.take(data, 1);
    let q = p4.emit(p.peek(data, 32), 32).emit(p1.peek(data, 32), 32).emit(p2.peek(data, 4), 4).emit(
        p3.peek(data, 1),
        1,
    );
    if q.err.is_none() {
        let c1 = p.copy(data, 32);
        lemma_copy_field(data, p, 32);
        let c2 = c1.copy(data, 32);
        lemma_copy_field(data, c1, 32);
        lemma_copied_twice(data, p, c1, c2);
        let c3 = c2.copy(data, 4);
        lemma_copy_field(data, c2, 4);
        lemma_copied_twice(data, p, c2, c3);
        let c4 = c3.copy(data, 1);
        lemma_copy_field(data, c3, 1);
        lemma_copied_twice(data, p, c3, c4);
        assert(q == c4);
    }
}

/// A lookup table is copied.
pub proof fn lemma_copy_lookup_table(
    data: Seq<u8>,
    p: Progress,
    lookup_type: nat,
    entries: nat,
    dimensions: nat,
)
    requires
        ready(data, p),
    ensures
        copied(data, p, lookup_table(data, p, lookup_type, entries, dimensions)),
{
    lemma_copied_nothing(data, p);
    if lookup_type == 1 {
        let p1 = p.take(data, 32);
        let p2 = p1.take(data, 32);
        let p3 = p2.take(data, 4);
        let p4 = p3.take(data, 1);
        let value_length = p2.peek(data, 4);
        let q = p4.emit(p.peek(data, 32), 32).emit(p1.peek(data, 32), 32).emit(value_length, 4).emit(
            p3.peek(data, 1),
            1,
        );
        lemma_lookup_head(data, p);
        let q1 = q.require(dimensions >= 1, ParseError::FormatViolation);
        if q1.err.is_none() {
            lemma_read_uint_bound(data, p2.pos as int, 4);
            lemma2_to64();
            let count = crate::codebook::quantvals_spec(entries, dimensions);
            lemma_copy_fields(data, q1, (value_length + 1) as nat, count);
            lemma_copied_twice(
                data,
                p,
                q1,
                copy_fields(data, q1, (value_length + 1) as nat, count),
            );
        }
    }
}

/// The head of a canonical codebook is copied.
proof fn lemma_copy_plain_head(data: Seq<u8>, p: Progress)
    requires
        ready(data, p),
    ensures
        copied(data, p, plain_head(data, p)),
{
    let q = plain_head(data, p);
    if q.err.is_none() {
        let c1 = p.copy(data, 24);
        lemma_copy_field(data, p, 24);
        let c2 = c1.copy(data, 16);
        lemma_copy_field(data, c1, 16);
        lemma_copied_twice(data, p, c1, c2);
        let c3 = c2.copy(data, 24);
        lemma_copy_field(data, c2, 24);
        lemma_copied_twice(data, p, c2, c3);
        assert(q == c3);
    }
}

/// A codebook in the canonical form is copied as it is: where the copy
/// goes well, the bits written are the bits read, in their order, and
/// nothing else of the writer changes.
pub proof fn lemma_copy_is_verbatim(data: Seq<u8>, p: Progress)
    requires
        ready(data, p),
    ensures
        copied(data, p, copy_spec(data, p)),
{
    reveal(copy_spec);
    lemma2_to64();
    let dimensions = plain_dimensions(data, p) as nat;
    let entries = plain_entries(data, p) as nat;
    let p1 = plain_head(data, p);
    lemma_copy_plain_head(data, p);
    let p2 = plain_codeword_lengths(data, p1, entries);
    let p3 = plain_lookup(data, p2, entries, dimensions);
    if p1.err.is_none() {
        // the codeword lengths
        let a = p1.copy(data, 1);
        lemma_copy_field(data, p1, 1);
        if a.err.is_none() {
            if p1.peek(data, 1) != 0 {
                let b = a.copy(data, 5);
                lemma_copy_field(data, a, 5);
                lemma_copied_twice(data, p1, a, b);
                if b.err.is_none() {
                    lemma_copy_ordered_lengths(data, b, entries, 0);
                    lemma_copied_twice(data, p1, b, p2);
                }
            } else {
                let b = a.copy(data, 1);
                lemma_copy_field(data, a, 1);
                lemma_copied_twice(data, p1, a, b);
                if b.err.is_none() {
                    lemma_copy_plain_lengths(data, b, entries, a.peek(data, 1) != 0, 0);
                    lemma_copied_twice(data, p1, b, p2);
                }
            }
        }
        assert(copied(data, p1, p2));
        lemma_copied_twice(data, p, p1, p2);
        if p2.err.is_none() {
            let c = p2.copy(data, 4);
            lemma_copy_field(data, p2, 4);
            if c.err.is_none() {
                lemma_copy_lookup_table(data, c, p2.peek(data, 4) as nat, entries, dimensions);
                lemma_copied_twice(data, p2, c, p3);
            }
            assert(copied(data, p2, p3));
            lemma_copied_twice(data, p, p2, p3);
        }
    }
}

} // verus!
