//! The mathematical model of the page writer: what a page under
//! construction holds, how bits and bytes enter it, and which bytes a
//! finished page consists of.

use vstd::prelude::*;
use crate::bit_stream::bit_of_word;

verus! {

/// The most payload bytes that one page can carry: 255 segments of 255
/// bytes.
pub const MAX_PAYLOAD: usize = 65025;

/// The serial number that every page of the stream carries.
pub const STREAM_SERIAL: u32 = 1;

/// The generator polynomial of the page checksum.
pub const CRC_POLYNOMIAL: u32 = 0x04c11db7;

/// The bit that a flag contributes to a byte at position `i`.
pub open spec fn bit_weight(set: bool, i: u8) -> u8 {
    if set {
        1u8 << i
    } else {
        0u8
    }
}

/// Whether `bits` has a set bit at index `i`.
pub open spec fn has_bit(bits: Seq<bool>, i: int) -> bool {
    i < bits.len() && bits[i]
}

/// The byte whose bit `i` is `bits[i]`, for up to eight bits; bits that the
/// sequence lacks are zero.
pub open spec fn byte_of_bits(bits: Seq<bool>) -> u8 {
    bit_weight(has_bit(bits, 0), 0) | bit_weight(has_bit(bits, 1), 1) | bit_weight(
        has_bit(bits, 2),
        2,
    ) | bit_weight(has_bit(bits, 3), 3) | bit_weight(has_bit(bits, 4), 4) | bit_weight(
        has_bit(bits, 5),
        5,
    ) | bit_weight(has_bit(bits, 6), 6) | bit_weight(has_bit(bits, 7), 7)
}

/// The low `width` bits of `value`, least significant first.
pub open spec fn bits_of(value: u32, width: nat) -> Seq<bool> {
    Seq::new(width, |i: int| bit_of_word(value, i as u32))
}

/// Byte `i` of `value`, byte 0 being the least significant.
pub open spec fn byte_of_word(value: u32, i: int) -> u8 {
    ((value >> ((8 * i) as u32)) & 0xff) as u8
}

/// The `count` low bytes of `value`, least significant first.
pub open spec fn le_bytes(value: u32, count: nat) -> Seq<u8> {
    Seq::new(count, |i: int| byte_of_word(value, i))
}

/// One step of the checksum's shift register: shift left, and subtract the
/// polynomial when a set bit leaves at the top.
pub open spec fn crc_shift(r: u32) -> u32 {
    if r & 0x8000_0000u32 != 0 {
        (r << 1u32) ^ CRC_POLYNOMIAL
    } else {
        r << 1u32
    }
}

/// The remainder that a byte placed at the top of the register leaves
/// after eight steps.
pub open spec fn crc_table_entry(index: u8) -> u32 {
    let r0 = (index as u32) << 24u32;
    let r1 = crc_shift(r0);
    let r2 = crc_shift(r1);
    let r3 = crc_shift(r2);
    let r4 = crc_shift(r3);
    let r5 = crc_shift(r4);
    let r6 = crc_shift(r5);
    let r7 = crc_shift(r6);
    crc_shift(r7)
}

/// The register after the byte `b` has entered it.
pub open spec fn crc_step(crc: u32, b: u8) -> u32 {
    (crc << 8u32) ^ crc_table_entry(((crc >> 24u32) as u8) ^ b)
}

/// The checksum of a byte sequence: CRC-32 with the polynomial 0x04c11db7,
/// most significant bit first, register initially zero, no final inversion.
pub open spec fn crc32(bytes: Seq<u8>) -> u32
    decreases bytes.len(),
{
    if bytes.len() == 0 {
        0
    } else {
        crc_step(crc32(bytes.drop_last()), bytes.last())
    }
}

/// The number of lacing values of a page with `n` payload bytes: one per
/// full or partial run of 255 bytes plus the closing one, clamped to 255.
pub open spec fn segment_count(n: nat) -> nat {
    if n / 255 + 1 > 255 {
        255
    } else {
        n / 255 + 1
    }
}

/// Lacing value `i` of a page with `n` payload bytes.
pub open spec fn lacing_value(n: nat, i: int) -> u8 {
    if n - 255 * i >= 255 {
        255u8
    } else {
        (n - 255 * i) as u8
    }
}

/// The lacing table of a page with `n` payload bytes.
pub open spec fn lacing(n: nat) -> Seq<u8> {
    Seq::new(segment_count(n), |i: int| lacing_value(n, i))
}

/// The flag byte of a page header.
pub open spec fn page_flags(continued: bool, first: bool, last: bool) -> u8 {
    ((if continued {
        1int
    } else {
        0int
    }) + (if first {
        2int
    } else {
        0int
    }) + (if last {
        4int
    } else {
        0int
    })) as u8
}

/// The state of a page writer.
pub struct OggModel {
    /// The whole bytes of the page under construction.
    pub payload: Seq<u8>,
    /// The bits collected for the next byte, first written first.
    pub pending: Seq<bool>,
    /// Whether no page has been emitted yet.
    pub first: bool,
    /// Whether the next page continues a packet of the page before it.
    pub continued: bool,
    /// The granule position that the next page will carry.
    pub granule: u32,
    /// The sequence number that the next page will carry.
    pub seqno: u32,
    /// The bytes of all pages emitted so far.
    pub output: Seq<u8>,
}

impl OggModel {
    /// The state of a writer that has written nothing, on top of `output`.
    pub open spec fn fresh(output: Seq<u8>) -> OggModel {
        OggModel {
            payload: Seq::empty(),
            pending: Seq::empty(),
            first: true,
            continued: false,
            granule: 0,
            seqno: 0,
            output,
        }
    }

    /// The payload fits a page and fewer than eight bits are pending.
    pub open spec fn wf(self) -> bool {
        self.payload.len() <= MAX_PAYLOAD && self.pending.len() < 8
    }

    /// Whether one more bit can be taken.
    pub open spec fn bit_fits(self) -> bool {
        !(self.pending.len() == 7 && self.payload.len() >= MAX_PAYLOAD)
    }

    /// The state after one more bit; unchanged if the bit does not fit.
    pub open spec fn put_bit(self, bit: bool) -> OggModel {
        if !self.bit_fits() {
            self
        } else if self.pending.len() == 7 {
            OggModel {
                payload: self.payload.push(byte_of_bits(self.pending.push(bit))),
                pending: Seq::empty(),
                ..self
            }
        } else {
            OggModel { pending: self.pending.push(bit), ..self }
        }
    }

    /// Whether `count` more bits can be taken.
    pub open spec fn bits_fit(self, count: nat) -> bool {
        self.payload.len() + (self.pending.len() + count) / 8 <= MAX_PAYLOAD
    }

    /// The state after the bits of `bits`, in order, as far as they fit.
    pub open spec fn put_bits(self, bits: Seq<bool>) -> OggModel
        decreases bits.len(),
    {
        if bits.len() == 0 {
            self
        } else {
            self.put_bits(bits.drop_last()).put_bit(bits.last())
        }
    }

    /// Whether the pending bits can be closed into a byte.
    pub open spec fn flush_fits(self) -> bool {
        self.pending.len() == 0 || self.payload.len() < MAX_PAYLOAD
    }

    /// The state after the pending bits were closed into a byte, padded
    /// with zero bits; unchanged if there are none or the byte does not fit.
    pub open spec fn flush_bits(self) -> OggModel {
        if self.pending.len() == 0 || !self.flush_fits() {
            self
        } else {
            OggModel {
                payload: self.payload.push(byte_of_bits(self.pending)),
                pending: Seq::empty(),
                ..self
            }
        }
    }

    /// Whether `count` more whole bytes can be taken.
    pub open spec fn bytes_fit(self, count: nat) -> bool {
        self.payload.len() + count <= MAX_PAYLOAD
    }

    /// The state after whole bytes were appended behind the payload, as far
    /// as they fit. Pending bits stay pending.
    #[verifier::opaque]
    pub open spec fn put_bytes(self, bytes: Seq<u8>) -> OggModel {
        if self.bytes_fit(bytes.len()) {
            OggModel { payload: self.payload + bytes, ..self }
        } else {
            OggModel {
                payload: self.payload + bytes.take(MAX_PAYLOAD - self.payload.len()),
                ..self
            }
        }
    }

    /// Whether a write of `width` bits can be taken.
    #[verifier::opaque]
    pub open spec fn write_fits(self, width: nat) -> bool {
        if width % 8 == 0 {
            self.bytes_fit(width / 8)
        } else {
            self.bits_fit(width)
        }
    }

    /// The state after a write of the low `width` bits of `value`: as whole
    /// bytes when `width` is a multiple of eight, else bit by bit.
    #[verifier::opaque]
    pub open spec fn write_bits(self, value: u32, width: nat) -> OggModel {
        if width % 8 == 0 {
            self.put_bytes(le_bytes(value, width / 8))
        } else {
            self.put_bits(bits_of(value, width))
        }
    }

    /// The 27 bytes of the header of the page that a flush would emit,
    /// with `crc` in the checksum field.
    pub open spec fn page_header(self, last: bool, crc: u32) -> Seq<u8> {
        seq![0x4fu8, 0x67u8, 0x67u8, 0x53u8, 0u8, page_flags(self.continued, self.first, last)]
            + le_bytes(self.granule, 4) + seq![0u8, 0u8, 0u8, 0u8] + le_bytes(STREAM_SERIAL, 4)
            + le_bytes(self.seqno, 4) + le_bytes(crc, 4) + seq![
            segment_count(self.payload.len()) as u8,
        ]
    }

    /// Header, lacing table and payload of the page, with `crc` in the
    /// checksum field.
    pub open spec fn page_with_crc(self, last: bool, crc: u32) -> Seq<u8> {
        self.page_header(last, crc) + lacing(self.payload.len()) + self.payload
    }

    /// The bytes of the page that a flush would emit: the checksum is taken
    /// over the page with a zero checksum field and then stored there.
    pub open spec fn page_bytes(self, last: bool) -> Seq<u8> {
        self.page_with_crc(last, crc32(self.page_with_crc(last, 0)))
    }

    /// The state after a page flush: pending bits are closed, and a
    /// non-empty payload leaves as a page. Unchanged if the pending bits do
    /// not fit.
    #[verifier::opaque]
    pub open spec fn flush_page(self, next_continued: bool, last: bool) -> OggModel {
        let m = self.flush_bits();
        if !self.flush_fits() || m.payload.len() == 0 {
            m
        } else {
            OggModel {
                payload: Seq::empty(),
                pending: m.pending,
                first: false,
                continued: next_continued,
                granule: m.granule,
                seqno: if m.seqno == u32::MAX {
                    0
                } else {
                    (m.seqno + 1) as u32
                },
                output: m.output + m.page_bytes(last),
            }
        }
    }
}

/// Taking bits that fit keeps the writer well formed and moves the two
/// lengths as a counter of bits would.
pub proof fn lemma_put_bits_len(m: OggModel, bits: Seq<bool>)
    requires
        m.wf(),
    ensures
        m.put_bits(bits).wf(),
        m.put_bits(bits).first == m.first,
        m.put_bits(bits).continued == m.continued,
        m.put_bits(bits).granule == m.granule,
        m.put_bits(bits).seqno == m.seqno,
        m.put_bits(bits).output == m.output,
        m.bits_fit(bits.len()) ==> {
            &&& m.put_bits(bits).payload.len() == m.payload.len() + (m.pending.len() + bits.len())
                / 8
            &&& m.put_bits(bits).pending.len() == (m.pending.len() + bits.len()) % 8
        },
    decreases bits.len(),
{
    if bits.len() > 0 {
        lemma_put_bits_len(m, bits.drop_last());
    }
}

/// One more bit after others: the bits fit together exactly when the
/// earlier ones fit and the last one fits behind them.
pub proof fn lemma_put_bits_push(m: OggModel, bits: Seq<bool>, bit: bool)
    requires
        m.wf(),
    ensures
        m.put_bits(bits.push(bit)) == m.put_bits(bits).put_bit(bit),
        m.bits_fit(bits.len() + 1) <==> m.bits_fit(bits.len()) && m.put_bits(bits).bit_fits(),
{
    assert(bits.push(bit).drop_last() =~= bits);
    lemma_put_bits_len(m, bits);
}


/// A writer that cannot take a bit stays as it is, whatever bits follow.
pub proof fn lemma_put_bits_stuck(m: OggModel, bits: Seq<bool>)
    requires
        !m.bit_fits(),
    ensures
        m.put_bits(bits) == m,
    decreases bits.len(),
{
    if bits.len() > 0 {
        lemma_put_bits_stuck(m, bits.drop_last());
    }
}

/// Taking two runs of bits one after the other is taking their
/// concatenation.
pub proof fn lemma_put_bits_concat(m: OggModel, a: Seq<bool>, b: Seq<bool>)
    ensures
        m.put_bits(a + b) == m.put_bits(a).put_bits(b),
    decreases b.len(),
{
    if b.len() == 0 {
        assert(a + b =~= a);
    } else {
        assert((a + b).drop_last() =~= a + b.drop_last());
        lemma_put_bits_concat(m, a, b.drop_last());
    }
}

/// If fewer bits do not fit, more bits do not fit either.
pub proof fn lemma_bits_fit_fewer(m: OggModel, fewer: nat, more: nat)
    requires
        fewer <= more,
        m.bits_fit(more),
    ensures
        m.bits_fit(fewer),
{
}

/// A write of one bit is `put_bit`.
pub proof fn lemma_write_one_bit(m: OggModel, value: u32)
    requires
        m.wf(),
    ensures
        m.write_bits(value, 1) == m.put_bit(bit_of_word(value, 0)),
        m.write_fits(1) == m.bit_fits(),
{
    reveal(OggModel::write_bits);
    reveal(OggModel::write_fits);
    let s = bits_of(value, 1);
    assert(s.drop_last() =~= Seq::<bool>::empty());
    assert(m.put_bits(s.drop_last()) == m);
    assert(m.put_bits(s) == m.put_bits(s.drop_last()).put_bit(s.last()));
}

} // verus!
