use vstd::prelude::*;
use vstd::arithmetic::power2::{pow2, lemma2_to64};
use crate::errors::ParseError;
use crate::model::{
    bits_of, byte_of_bits, byte_of_word, crc32, crc_shift, crc_table_entry, has_bit, lacing,
    lacing_value, le_bytes, lemma_bits_fit_fewer, lemma_put_bits_concat, lemma_put_bits_len,
    lemma_put_bits_push, lemma_put_bits_stuck, lemma_write_one_bit, segment_count, OggModel,
    CRC_POLYNOMIAL, MAX_PAYLOAD, STREAM_SERIAL,
};

verus! {

/// Bit `i` of a byte sequence, counting from the least significant bit of
/// the first byte.
pub open spec fn bit_at(data: Seq<u8>, i: int) -> bool {
    bit_of_byte(data[i / 8], (i % 8) as u8)
}

/// Bit `i` of a byte, bit 0 being the least significant.
pub open spec fn bit_of_byte(byte: u8, i: u8) -> bool {
    (byte >> i) & 1 == 1
}

/// Bit `i` of a 32-bit word, bit 0 being the least significant.
pub open spec fn bit_of_word(word: u32, i: u32) -> bool {
    (word >> i) & 1 == 1
}

/// The number spelled by the `width` bits that start at bit `pos`, least
/// significant bit first.
pub open spec fn read_uint(data: Seq<u8>, pos: int, width: nat) -> nat
    decreases width,
{
    if width == 0 {
        0
    } else {
        let low = read_uint(data, pos, (width - 1) as nat);
        if bit_at(data, pos + width - 1) {
            low + pow2((width - 1) as nat)
        } else {
            low
        }
    }
}

/// `read_uint` stays below two to the power of the width.
pub proof fn lemma_read_uint_bound(data: Seq<u8>, pos: int, width: nat)
    ensures
        read_uint(data, pos, width) < pow2(width),
    decreases width,
{
    if width == 0 {
        lemma2_to64();
    } else {
        lemma_read_uint_bound(data, pos, (width - 1) as nat);
        vstd::arithmetic::power2::lemma_pow2_unfold(width);
    }
}

/// Whether the bytes are few enough for their bits to be counted in 64
/// bits.
pub open spec fn addressable(data: Seq<u8>) -> bool {
    data.len() * 8 <= u64::MAX
}

/// Whether the bytes are few enough for their bits to be counted in 64
/// bits.
pub fn is_addressable(data: &[u8]) -> (b: bool)
    ensures
        b == addressable(data@),
{
    data.len() as u64 <= 0x1fff_ffff_ffff_ffff
}

/// A reader that hands out the bits of a byte slice one at a time, least
/// significant bit of each byte first.
pub struct BitStream<'a> {
    reader: &'a [u8],
    position: usize,
    bit_buffer: u8,
    bits_left: u8,
    total_bits_read: u64,
}

impl<'a> BitStream<'a> {
    /// The bytes that the stream reads from.
    pub closed spec fn data(&self) -> Seq<u8> {
        self.reader@
    }

    /// The number of bits consumed so far, which is also the index of the
    /// next bit in `data()`.
    pub closed spec fn pos(&self) -> nat {
        self.total_bits_read as nat
    }

    /// The invariant of the reader.
    pub closed spec fn wf(&self) -> bool {
        &&& addressable(self.reader@)
        &&& self.position <= self.reader@.len()
        &&& self.bits_left < 8
        &&& self.total_bits_read == self.position * 8 - self.bits_left
        &&& self.bits_left > 0 ==> self.position > 0 && self.bit_buffer
            == self.reader@[self.position - 1]
    }

    /// A well-formed reader never runs past the end of its bytes.
    pub proof fn lemma_pos_in_range(&self)
        requires
            self.wf(),
        ensures
            self.pos() <= 8 * self.data().len(),
            addressable(self.data()),
    {
    }

    /// Starts reading at the first bit of `reader`.
    pub fn new(reader: &'a [u8]) -> (s: Self)
        requires
            addressable(reader@),
        ensures
            s.wf(),
            s.data() == reader@,
            s.pos() == 0,
    {
        BitStream { reader, position: 0, bit_buffer: 0, bits_left: 0, total_bits_read: 0 }
    }

    /// Reads one bit.
    pub fn get_bit(&mut self) -> (r: Result<bool, ParseError>)
        requires
            old(self).wf(),
        ensures
            final(self).wf(),
            final(self).data() == old(self).data(),
            match r {
                Ok(b) => {
                    &&& old(self).pos() < 8 * old(self).data().len()
                    &&& b == bit_at(old(self).data(), old(self).pos() as int)
                    &&& final(self).pos() == old(self).pos() + 1
                },
                Err(e) => {
                    &&& e == ParseError::EndOfInput
                    &&& old(self).pos() >= 8 * old(self).data().len()
                    &&& final(self).pos() == old(self).pos()
                },
            },
    {
        if self.bits_left == 0 {
            if self.position >= self.reader.len() {
                return Err(ParseError::EndOfInput);
            }
            self.bit_buffer = self.reader[self.position];
            self.position = self.position + 1;
            self.bits_left = 8;
        }
        let shift: u8 = 8 - self.bits_left;
        let byte: u8 = self.bit_buffer;
        proof {
            let i = self.total_bits_read as int;
            assert(i / 8 == self.position - 1);
            assert(i % 8 == shift as int);
        }
        self.total_bits_read = self.total_bits_read + 1;
        self.bits_left = self.bits_left - 1;
        Ok((byte >> shift) & 1 == 1)
    }

    /// The number of bits read so far.
    pub fn get_total_bits_read(&self) -> (n: u64)
        requires
            self.wf(),
        ensures
            n == self.pos(),
    {
        self.total_bits_read
    }

    /// The index of the byte that the last bit came from. Before the
    /// first bit there is no such byte.
    pub fn get_position(&self) -> (n: u64)
        requires
            self.wf(),
            self.pos() >= 1,
        ensures
            n == (self.pos() - 1) / 8,
    {
        (self.position - 1) as u64
    }
}


/// Two to the power `n`, for `n` below 32, is what shifting one by `n`
/// gives.
pub proof fn lemma_shl_one(n: u32)
    requires
        n < 32,
    ensures
        (1u32 << n) == pow2(n as nat),
{
    vstd::bits::lemma_u32_pow2_no_overflow(n as nat);
    vstd::bits::lemma_u32_shl_is_mul(1u32, n);
}

/// Setting bit `i` of a word whose bits from `i` upwards are clear adds two
/// to the power `i`.
proof fn lemma_set_bit(total: u32, i: u32)
    requires
        i < 32,
        total < pow2(i as nat),
    ensures
        (total | (1u32 << i)) == total + pow2(i as nat),
        total + pow2(i as nat) < pow2((i + 1) as nat),
{
    lemma_shl_one(i);
    vstd::arithmetic::power2::lemma_pow2_unfold((i + 1) as nat);
    let w = 1u32 << i;
    assert((total | w) == total + w) by (bit_vector)
        requires
            i < 32,
            w == 1u32 << i,
            total < w,
    ;
}

/// Reads `width` bits, least significant first, into a word.
fn read_bits(stream: &mut BitStream, width: usize) -> (r: Result<u32, ParseError>)
    requires
        old(stream).wf(),
        width <= 32,
    ensures
        final(stream).wf(),
        final(stream).data() == old(stream).data(),
        match r {
            Ok(v) => {
                &&& old(stream).pos() + width <= 8 * old(stream).data().len()
                &&& v == read_uint(old(stream).data(), old(stream).pos() as int, width as nat)
                &&& final(stream).pos() == old(stream).pos() + width
            },
            Err(e) => {
                &&& e == ParseError::EndOfInput
                &&& old(stream).pos() + width > 8 * old(stream).data().len()
                &&& final(stream).pos() == 8 * old(stream).data().len()
            },
        },
{
    let mut total: u32 = 0;
    let mut i: usize = 0;
    proof {
        lemma2_to64();
        old(stream).lemma_pos_in_range();
    }
    while i < width
        invariant
            i <= width <= 32,
            stream.wf(),
            stream.data() == old(stream).data(),
            stream.pos() == old(stream).pos() + i,
            total == read_uint(old(stream).data(), old(stream).pos() as int, i as nat),
            total < pow2(i as nat),
        decreases width - i,
    {
        match stream.get_bit() {
            Ok(bit) => {
                proof {
                    lemma_set_bit(total, i as u32);
                }
                if bit {
                    total = total | (1u32 << (i as u32));
                } else {
                    proof {
                        vstd::arithmetic::power2::lemma_pow2_unfold((i + 1) as nat);
                    }
                }
            },
            Err(e) => {
                proof {
                    stream.lemma_pos_in_range();
                }
                return Err(e);
            },
        }
        i = i + 1;
    }
    Ok(total)
}

/// An unsigned integer of `BIT_SIZE` bits.
#[derive(Debug)]
pub struct BitUint<const BIT_SIZE: usize> {
    pub total: u32,
}

impl<const BIT_SIZE: usize> BitUint<BIT_SIZE> {
    /// The value fits the width, and the width fits a 32-bit word.
    pub open spec fn wf(&self) -> bool {
        BIT_SIZE <= 32 && self.total < pow2(BIT_SIZE as nat)
    }

    /// Wraps `v`, provided that it fits in `BIT_SIZE` bits and that
    /// `BIT_SIZE` is at most 32.
    pub fn new(v: u32) -> (r: Result<Self, ParseError>)
        ensures
            match r {
                Ok(b) => b.total == v && b.wf(),
                Err(e) => e == ParseError::RangeViolation && (BIT_SIZE > 32 || v >= pow2(
                    BIT_SIZE as nat,
                )),
            },
    {
        if BIT_SIZE > 32 {
            return Err(ParseError::RangeViolation);
        }
        if BIT_SIZE < 32 {
            proof {
                lemma_shl_one(BIT_SIZE as u32);
            }
            if v >= (1u32 << (BIT_SIZE as u32)) {
                return Err(ParseError::RangeViolation);
            }
        } else {
            proof {
                lemma2_to64();
            }
        }
        Ok(Self { total: v })
    }

    /// Reads the next `BIT_SIZE` bits of `stream`, least significant first.
    /// A width above 32 is refused before any bit is read.
    pub fn read_from(stream: &mut BitStream) -> (r: Result<Self, ParseError>)
        requires
            old(stream).wf(),
        ensures
            final(stream).wf(),
            final(stream).data() == old(stream).data(),
            match r {
                Ok(b) => {
                    &&& b.wf()
                    &&& old(stream).pos() + BIT_SIZE <= 8 * old(stream).data().len()
                    &&& b.total == read_uint(
                        old(stream).data(),
                        old(stream).pos() as int,
                        BIT_SIZE as nat,
                    )
                    &&& final(stream).pos() == old(stream).pos() + BIT_SIZE
                },
                Err(e) => if BIT_SIZE > 32 {
                    e == ParseError::RangeViolation && final(stream).pos() == old(stream).pos()
                } else {
                    &&& e == ParseError::EndOfInput
                    &&& old(stream).pos() + BIT_SIZE > 8 * old(stream).data().len()
                    &&& final(stream).pos() == 8 * old(stream).data().len()
                },
            },
    {
        if BIT_SIZE > 32 {
            return Err(ParseError::RangeViolation);
        }
        let total = read_bits(stream, BIT_SIZE)?;
        proof {
            lemma_read_uint_bound(old(stream).data(), old(stream).pos() as int, BIT_SIZE as nat);
        }
        Ok(Self { total })
    }

    /// Writes the low `BIT_SIZE` bits of the value to `stream`, bit by
    /// bit, least significant first.
    pub fn write_to<O: BitOggStreamT>(&self, stream: &mut O) -> (r: Result<(), ParseError>)
        requires
            old(stream).wf(),
            BIT_SIZE <= 32,
        ensures
            final(stream).wf(),
            final(stream).model() == old(stream).model().put_bits(
                bits_of(self.total, BIT_SIZE as nat),
            ),
            r == if old(stream).model().bits_fit(BIT_SIZE as nat) {
                Ok::<(), ParseError>(())
            } else {
                Err::<(), ParseError>(ParseError::BufferExhausted)
            },
    {
        write_serial(self.total, BIT_SIZE, stream)
    }
}

/// An unsigned integer whose width is chosen at run time.
#[derive(Debug)]
pub struct BitUintV {
    pub size: usize,
    pub total: u32,
}

impl BitUintV {
    /// The value fits the width, and the width fits a 32-bit word.
    pub open spec fn wf(&self) -> bool {
        self.size <= 32 && self.total < pow2(self.size as nat)
    }

    /// Wraps `v` as a value of `size` bits, provided that it fits and that
    /// `size` is at most 32.
    pub fn new(size: usize, v: u32) -> (r: Result<Self, ParseError>)
        ensures
            match r {
                Ok(b) => b.size == size && b.total == v && b.wf(),
                Err(e) => e == ParseError::RangeViolation && (size > 32 || v >= pow2(size as nat)),
            },
    {
        if size > 32 {
            return Err(ParseError::RangeViolation);
        }
        if size < 32 {
            proof {
                lemma_shl_one(size as u32);
            }
            if v >= (1u32 << (size as u32)) {
                return Err(ParseError::RangeViolation);
            }
        } else {
            proof {
                lemma2_to64();
            }
        }
        Ok(Self { size, total: v })
    }

    /// Reads the next `size` bits of `stream`, least significant first.
    /// A width above 32 is refused before any bit is read.
    pub fn read_from(stream: &mut BitStream, size: usize) -> (r: Result<Self, ParseError>)
        requires
            old(stream).wf(),
        ensures
            final(stream).wf(),
            final(stream).data() == old(stream).data(),
            match r {
                Ok(b) => {
                    &&& b.wf()
                    &&& b.size == size
                    &&& old(stream).pos() + size <= 8 * old(stream).data().len()
                    &&& b.total == read_uint(
                        old(stream).data(),
                        old(stream).pos() as int,
                        size as nat,
                    )
                    &&& final(stream).pos() == old(stream).pos() + size
                },
                Err(e) => if size > 32 {
                    e == ParseError::RangeViolation && final(stream).pos() == old(stream).pos()
                } else {
                    &&& e == ParseError::EndOfInput
                    &&& old(stream).pos() + size > 8 * old(stream).data().len()
                    &&& final(stream).pos() == 8 * old(stream).data().len()
                },
            },
    {
        if size > 32 {
            return Err(ParseError::RangeViolation);
        }
        let total = read_bits(stream, size)?;
        proof {
            lemma_read_uint_bound(old(stream).data(), old(stream).pos() as int, size as nat);
        }
        Ok(Self { size, total })
    }

    /// Writes the low `size` bits of the value to `stream`, bit by bit,
    /// least significant first.
    pub fn write_to<O: BitOggStreamT>(&self, stream: &mut O) -> (r: Result<(), ParseError>)
        requires
            old(stream).wf(),
            self.size <= 32,
        ensures
            final(stream).wf(),
            final(stream).model() == old(stream).model().put_bits(
                bits_of(self.total, self.size as nat),
            ),
            r == if old(stream).model().bits_fit(self.size as nat) {
                Ok::<(), ParseError>(())
            } else {
                Err::<(), ParseError>(ParseError::BufferExhausted)
            },
    {
        write_serial(self.total, self.size, stream)
    }
}


/// What the rebuilding code needs from a sink of bits that frames them
/// into pages.
pub trait BitOggStreamT {
    /// The state of the sink.
    spec fn model(&self) -> OggModel;

    /// The invariant of the sink.
    spec fn wf(&self) -> bool;

    /// A well-formed sink has a well-formed state.
    proof fn lemma_model_wf(&self)
        requires
            self.wf(),
        ensures
            self.model().wf(),
    ;

    /// Writes the low `bits` bits of `value`: as whole bytes, behind the
    /// payload, when `bits` is a multiple of eight, else bit by bit. What
    /// does not fit the page is dropped and reported.
    fn write_bits(&mut self, value: u32, bits: u8) -> (r: Result<(), ParseError>)
        requires
            old(self).wf(),
            bits <= 32,
        ensures
            final(self).wf(),
            final(self).model() == old(self).model().write_bits(value, bits as nat),
            r == if old(self).model().write_fits(bits as nat) {
                Ok::<(), ParseError>(())
            } else {
                Err::<(), ParseError>(ParseError::BufferExhausted)
            },
    ;

    /// Appends whole bytes behind the payload. What does not fit the page
    /// is dropped and reported.
    fn write_all(&mut self, buf: &[u8]) -> (r: Result<(), ParseError>)
        requires
            old(self).wf(),
        ensures
            final(self).wf(),
            final(self).model() == old(self).model().put_bytes(buf@),
            r == if old(self).model().bytes_fit(buf@.len()) {
                Ok::<(), ParseError>(())
            } else {
                Err::<(), ParseError>(ParseError::BufferExhausted)
            },
    ;

    /// Closes the pending bits and emits the payload, if there is any, as
    /// one page.
    fn flush_page(&mut self, next_continued: bool, last: bool) -> (r: Result<(), ParseError>)
        requires
            old(self).wf(),
        ensures
            final(self).wf(),
            final(self).model() == old(self).model().flush_page(next_continued, last),
            r == if old(self).model().flush_fits() {
                Ok::<(), ParseError>(())
            } else {
                Err::<(), ParseError>(ParseError::BufferExhausted)
            },
    ;
}

/// Writes the low `width` bits of `value` to `stream`, one bit per call,
/// least significant first, and stops at the first bit that is refused.
fn write_serial<O: BitOggStreamT>(value: u32, width: usize, stream: &mut O) -> (r: Result<
    (),
    ParseError,
>)
    requires
        old(stream).wf(),
        width <= 32,
    ensures
        final(stream).wf(),
        final(stream).model() == old(stream).model().put_bits(bits_of(value, width as nat)),
        r == if old(stream).model().bits_fit(width as nat) {
            Ok::<(), ParseError>(())
        } else {
            Err::<(), ParseError>(ParseError::BufferExhausted)
        },
{
    let ghost m = old(stream).model();
    let ghost all = bits_of(value, width as nat);
    proof {
        old(stream).lemma_model_wf();
    }
    let mut i: usize = 0;
    while i < width
        invariant
            i <= width <= 32,
            m.wf(),
            m == old(stream).model(),
            stream.wf(),
            all == bits_of(value, width as nat),
            stream.model() == m.put_bits(all.take(i as int)),
            m.bits_fit(i as nat),
        decreases width - i,
    {
        let bit: u32 = (value >> (i as u32)) & 1;
        proof {
            let head = all.take(i as int);
            let one = if bit == 1 { 1u32 } else { 0u32 };
            assert(bit == 0 || bit == 1) by (bit_vector)
                requires
                    bit == (value >> (i as u32)) & 1,
            ;
            assert(bit_of_word(bit, 0) == (bit == 1)) by (bit_vector)
                requires
                    bit == 0 || bit == 1,
            ;
            lemma_put_bits_len(m, head);
            lemma_write_one_bit(m.put_bits(head), bit);
            assert(all.take(i + 1) =~= head.push(all[i as int]));
            lemma_put_bits_push(m, head, all[i as int]);
        }
        match stream.write_bits(bit, 1) {
            Ok(()) => {},
            Err(e) => {
                proof {
                    let head = all.take(i as int);
                    let tail = all.skip(i as int);
                    assert(all =~= head + tail);
                    lemma_put_bits_concat(m, head, tail);
                    lemma_put_bits_stuck(m.put_bits(head), tail);
                    if m.bits_fit(width as nat) {
                        lemma_bits_fit_fewer(m, (i + 1) as nat, width as nat);
                    }
                }
                return Err(e);
            },
        }
        i = i + 1;
    }
    assert(all.take(width as int) =~= all);
    Ok(())
}

const HEADER_BYTES: usize = 27;

const MAX_SEGMENTS: usize = 255;

const SEGMENT_SIZE: usize = 255;

/// A sink of bits that collects them into Ogg pages and appends each
/// finished page to a byte vector.
pub struct BitOggStream {
    writer: Vec<u8>,
    bit_buffer: u8,
    bits_stored: u8,
    page_buffer: Vec<u8>,
    first: bool,
    continued: bool,
    granule: u32,
    seqno: u32,
}

/// Bit `i` of a byte, for an index of any size.
pub open spec fn bit_in(byte: u8, i: int) -> bool {
    bit_of_byte(byte, i as u8)
}

/// A byte whose bits from `k` upwards are clear is the byte that its low
/// `k` bits spell.
proof fn lemma_byte_of_pending(b: u8, k: u8)
    requires
        k < 8,
        b >> k == 0,
    ensures
        byte_of_bits(Seq::new(k as nat, |i: int| bit_in(b, i))) == b,
{
    let s = Seq::new(k as nat, |i: int| bit_in(b, i));
    let b0 = 0 < k && bit_of_byte(b, 0);
    let b1 = 1 < k && bit_of_byte(b, 1);
    let b2 = 2 < k && bit_of_byte(b, 2);
    let b3 = 3 < k && bit_of_byte(b, 3);
    let b4 = 4 < k && bit_of_byte(b, 4);
    let b5 = 5 < k && bit_of_byte(b, 5);
    let b6 = 6 < k && bit_of_byte(b, 6);
    assert(has_bit(s, 0) == b0);
    assert(has_bit(s, 1) == b1);
    assert(has_bit(s, 2) == b2);
    assert(has_bit(s, 3) == b3);
    assert(has_bit(s, 4) == b4);
    assert(has_bit(s, 5) == b5);
    assert(has_bit(s, 6) == b6);
    assert(!has_bit(s, 7));
    assert(b == (if 0 < k && (b >> 0u8) & 1 == 1 { 1u8 << 0u8 } else { 0u8 })
        | (if 1 < k && (b >> 1u8) & 1 == 1 { 1u8 << 1u8 } else { 0u8 })
        | (if 2 < k && (b >> 2u8) & 1 == 1 { 1u8 << 2u8 } else { 0u8 })
        | (if 3 < k && (b >> 3u8) & 1 == 1 { 1u8 << 3u8 } else { 0u8 })
        | (if 4 < k && (b >> 4u8) & 1 == 1 { 1u8 << 4u8 } else { 0u8 })
        | (if 5 < k && (b >> 5u8) & 1 == 1 { 1u8 << 5u8 } else { 0u8 })
        | (if 6 < k && (b >> 6u8) & 1 == 1 { 1u8 << 6u8 } else { 0u8 })
        | 0u8) by (bit_vector)
        requires
            k < 8,
            b >> k == 0,
    ;
}

/// What setting or leaving bit `k` does to a byte whose bits from `k`
/// upwards are clear.
proof fn lemma_store_bit(b: u8, k: u8, bit: bool, i: u8)
    requires
        k < 8,
        b >> k == 0,
        i <= k,
    ensures
        ({
            let c = if bit { b | (1u8 << k) } else { b };
            &&& (k < 7 ==> c >> ((k + 1) as u8) == 0)
            &&& bit_of_byte(c, i) == if i == k { bit } else { bit_of_byte(b, i) }
        }),
{
    assert((k < 7 ==> (b | (1u8 << k)) >> ((k + 1) as u8) == 0) && (k < 7 ==> b >> ((k + 1) as u8) == 0)
        && ((((b | (1u8 << k)) >> i) & 1 == 1) == (if i == k { true } else { (b >> i) & 1 == 1 }))
        && (((b >> i) & 1 == 1) == (if i == k { false } else { (b >> i) & 1 == 1 }))) by (bit_vector)
        requires
            k < 8,
            b >> k == 0,
            i <= k,
    ;
}

impl BitOggStream {
    /// The bits collected for the next byte.
    pub closed spec fn pending(&self) -> Seq<bool> {
        Seq::new(self.bits_stored as nat, |i: int| bit_in(self.bit_buffer, i))
    }

    /// The state of the writer.
    pub closed spec fn view(&self) -> OggModel {
        OggModel {
            payload: self.page_buffer@,
            pending: self.pending(),
            first: self.first,
            continued: self.continued,
            granule: self.granule,
            seqno: self.seqno,
            output: self.writer@,
        }
    }

    /// The invariant of the writer.
    pub closed spec fn inv(&self) -> bool {
        &&& self.page_buffer@.len() <= MAX_PAYLOAD
        &&& self.bits_stored < 8
        &&& self.bit_buffer >> self.bits_stored == 0
    }

    /// A writer that has written nothing and will append its pages to
    /// `writer`.
    pub fn new(writer: Vec<u8>) -> (s: Self)
        ensures
            s.inv(),
            s@ == OggModel::fresh(writer@),
    {
        let s = Self {
            writer,
            bit_buffer: 0,
            bits_stored: 0,
            page_buffer: Vec::new(),
            first: true,
            continued: false,
            granule: 0,
            seqno: 0,
        };
        proof {
            assert(0u8 >> 0u8 == 0) by (bit_vector);
            assert(s.pending() =~= Seq::<bool>::empty());
        }
        s
    }

    /// Takes one bit. A bit that would complete a byte for which the page
    /// has no room is refused, and the writer stays as it was.
    pub fn put_bit(&mut self, bit: bool) -> (r: Result<(), ParseError>)
        requires
            old(self).inv(),
        ensures
            final(self).inv(),
            final(self)@ == old(self)@.put_bit(bit),
            r == if old(self)@.bit_fits() {
                Ok::<(), ParseError>(())
            } else {
                Err::<(), ParseError>(ParseError::BufferExhausted)
            },
    {
        let k = self.bits_stored;
        if k == 7 && self.page_buffer.len() >= MAX_PAYLOAD {
            return Err(ParseError::BufferExhausted);
        }
        let b = self.bit_buffer;
        let c = if bit { b | (1u8 << k) } else { b };
        proof {
            lemma_store_bit(b, k, bit, 0);
            assert forall|i: int| 0 <= i <= k implies #[trigger] bit_in(c, i) == (if i == k {
                bit
            } else {
                bit_in(b, i)
            }) by {
                lemma_store_bit(b, k, bit, i as u8);
            }
            assert(Seq::new((k + 1) as nat, |i: int| bit_in(c, i)) =~= old(self).pending().push(
                bit,
            ));
        }
        if k == 7 {
            proof {
                let s = old(self).pending().push(bit);
                assert(s.len() == 8);
                assert forall|i: int| 0 <= i < 8 implies s[i] == bit_in(c, i) by {}
                lemma_byte_of_full(c, s);
            }
            self.page_buffer.push(c);
            self.bit_buffer = 0;
            self.bits_stored = 0;
            proof {
                assert(0u8 >> 0u8 == 0) by (bit_vector);
                assert(self.pending() =~= Seq::<bool>::empty());
            }
        } else {
            self.bit_buffer = c;
            self.bits_stored = k + 1;
        }
        Ok(())
    }

    /// Closes the pending bits into a byte, padded with zero bits. Refused,
    /// with the writer unchanged, if the page has no room for the byte.
    pub fn flush_bits(&mut self) -> (r: Result<(), ParseError>)
        requires
            old(self).inv(),
        ensures
            final(self).inv(),
            final(self)@ == old(self)@.flush_bits(),
            r == if old(self)@.flush_fits() {
                Ok::<(), ParseError>(())
            } else {
                Err::<(), ParseError>(ParseError::BufferExhausted)
            },
    {
        if self.bits_stored != 0 {
            if self.page_buffer.len() >= MAX_PAYLOAD {
                return Err(ParseError::BufferExhausted);
            }
            proof {
                lemma_byte_of_pending(self.bit_buffer, self.bits_stored);
            }
            self.page_buffer.push(self.bit_buffer);
            self.bits_stored = 0;
            self.bit_buffer = 0;
            proof {
                assert(0u8 >> 0u8 == 0) by (bit_vector);
                assert(self.pending() =~= Seq::<bool>::empty());
            }
        }
        Ok(())
    }

    /// Closes the pending bits and, if the payload is not empty, emits it
    /// as one page: header, lacing table, payload, with the checksum of
    /// the whole in the header. Refused, with the writer unchanged, if the
    /// pending bits have no room.
    pub fn flush_page_internal(&mut self, next_continued: bool, last: bool) -> (r: Result<
        (),
        ParseError,
    >)
        requires
            old(self).inv(),
        ensures
            final(self).inv(),
            final(self)@ == old(self)@.flush_page(next_continued, last),
            r == if old(self)@.flush_fits() {
                Ok::<(), ParseError>(())
            } else {
                Err::<(), ParseError>(ParseError::BufferExhausted)
            },
    {
        reveal(OggModel::flush_page);
        self.flush_bits()?;
        if self.page_buffer.len() == 0 {
            return Ok(());
        }
        self.emit_page(next_continued, last);
        Ok(())
    }

    /// Emits the payload as one page.
    fn emit_page(&mut self, next_continued: bool, last: bool)
        requires
            old(self).inv(),
            old(self)@.payload.len() > 0,
        ensures
            final(self).inv(),
            final(self)@ == (OggModel {
                payload: Seq::empty(),
                pending: old(self)@.pending,
                first: false,
                continued: next_continued,
                granule: old(self)@.granule,
                seqno: if old(self)@.seqno == u32::MAX {
                    0
                } else {
                    (old(self)@.seqno + 1) as u32
                },
                output: old(self)@.output + old(self)@.page_bytes(last),
            }),
    {
        let ghost m = self@;
        let mut page = self.page_image(last);
        let total = page.len();
        let crc = checksum(page.as_slice(), total as i32);
        proof {
            assert(page@.take(total as int) =~= page@);
            lemma_checksum_field(m, last, crc);
        }
        store_checksum(&mut page, crc);
        assert(page@ == m.page_bytes(last));
        self.writer.extend_from_slice(page.as_slice());
        self.seqno = self.seqno.wrapping_add(1);
        self.first = false;
        self.continued = next_continued;
        self.page_buffer.clear();
        proof {
            assert(self.pending() == m.pending);
            assert(self@.payload =~= Seq::<u8>::empty());
            assert(self@.output == m.output + m.page_bytes(last));
            assert(self@.seqno == if m.seqno == u32::MAX { 0u32 } else { (m.seqno + 1) as u32 });
        }
    }

    /// The page that a flush would emit, with a zero checksum field.
    fn page_image(&self, last: bool) -> (page: Vec<u8>)
        requires
            self.inv(),
        ensures
            page@ == self@.page_with_crc(last, 0),
            page@.len() == 27 + segment_count(self@.payload.len()) + self@.payload.len(),
            page@.len() <= i32::MAX,
    {
        let ghost m = self@;
        let n = self.page_buffer.len();
        let mut segments = (n + SEGMENT_SIZE) / SEGMENT_SIZE;
        if segments > MAX_SEGMENTS {
            segments = MAX_SEGMENTS;
        }
        assert(segments == segment_count(n as nat));
        let mut page = self.header_image(last, segments);
        let mut bytes_left = n;
        let mut i: usize = 0;
        while i < segments
            invariant
                i <= segments,
                segments == segment_count(n as nat),
                n <= MAX_PAYLOAD,
                bytes_left == if n >= 255 * i { n - 255 * i } else { 0 },
                page@.len() == 27 + i,
                page@ =~= m.page_header(last, 0) + lacing(n as nat).take(i as int),
            decreases segments - i,
        {
            let lace: u8 = if bytes_left >= SEGMENT_SIZE {
                255u8
            } else {
                bytes_left as u8
            };
            assert(lace == lacing_value(n as nat, i as int));
            page.push(lace);
            bytes_left = if bytes_left >= SEGMENT_SIZE { bytes_left - SEGMENT_SIZE } else { 0 };
            i = i + 1;
        }
        assert(lacing(n as nat).take(segments as int) =~= lacing(n as nat));
        page.extend_from_slice(self.page_buffer.as_slice());
        page
    }

    /// The header of the page that a flush would emit, with a zero
    /// checksum field.
    fn header_image(&self, last: bool, segments: usize) -> (page: Vec<u8>)
        requires
            self.inv(),
            segments == segment_count(self@.payload.len()),
        ensures
            page@ == self@.page_header(last, 0),
            page@.len() == 27,
    {
        let mut page: Vec<u8> = Vec::with_capacity(HEADER_BYTES + segments + self.page_buffer.len());
        page.push(0x4f);
        page.push(0x67);
        page.push(0x67);
        page.push(0x53);
        page.push(0);
        let flags: u8 = (if self.continued { 1u8 } else { 0u8 }) + (if self.first { 2u8 } else { 0u8 }) + (if last { 4u8 } else { 0u8 });
        page.push(flags);
        push_32_le(&mut page, self.granule);
        page.push(0);
        page.push(0);
        page.push(0);
        page.push(0);
        push_32_le(&mut page, STREAM_SERIAL);
        push_32_le(&mut page, self.seqno);
        push_32_le(&mut page, 0);
        page.push(segments as u8);
        assert(page@ =~= self@.page_header(last, 0));
        page
    }

    /// Emits what is still unwritten as one more page, neither continued
    /// nor last, and hands back the bytes of all pages. Pending bits that
    /// have no room in the page are lost.
    pub fn finish(self) -> (out: Vec<u8>)
        requires
            self.inv(),
        ensures
            out@ == self@.flush_page(false, false).output,
    {
        let mut stream = self;
        let _ = stream.flush_page_internal(false, false);
        stream.writer
    }

    /// Sets the granule position that the next page will carry.
    pub fn set_granule(&mut self, g: u32)
        requires
            old(self).inv(),
        ensures
            final(self).inv(),
            final(self)@ == (OggModel { granule: g, ..old(self)@ }),
    {
        self.granule = g;
    }
}

/// Stores `v` in `buf`, least significant byte first.
pub fn write_32_le(buf: &mut [u8; 4], v: u32)
    ensures
        final(buf)@ == le_bytes(v, 4),
{
    let mut i: usize = 0;
    while i < 4
        invariant
            i <= 4,
            forall|j: int| 0 <= j < i ==> buf@[j] == byte_of_word(v, j),
        decreases 4 - i,
    {
        let shift: u32 = 8 * (i as u32);
        let w: u32 = (v >> shift) & 0xff;
        assert(w < 256) by (bit_vector)
            requires
                w == (v >> shift) & 0xff,
        ;
        buf[i] = w as u8;
        i = i + 1;
    }
    assert(buf@ =~= le_bytes(v, 4));
}

/// Stores `v` in `buf`, least significant byte first.
pub fn write_16_le(buf: &mut [u8; 2], v: u16)
    ensures
        final(buf)@ == le_bytes(v as u32, 2),
{
    let mut i: usize = 0;
    while i < 2
        invariant
            i <= 2,
            forall|j: int| 0 <= j < i ==> buf@[j] == byte_of_word(v as u32, j),
        decreases 2 - i,
    {
        let shift: u32 = 8 * (i as u32);
        let w: u32 = ((v as u32) >> shift) & 0xff;
        assert(w < 256) by (bit_vector)
            requires
                w == ((v as u32) >> shift) & 0xff,
        ;
        buf[i] = w as u8;
        i = i + 1;
    }
    assert(buf@ =~= le_bytes(v as u32, 2));
}

/// Appends `v` to `page`, least significant byte first.
fn push_32_le(page: &mut Vec<u8>, v: u32)
    ensures
        final(page)@ == old(page)@ + le_bytes(v, 4),
{
    let mut tmp = [0u8; 4];
    write_32_le(&mut tmp, v);
    page.push(tmp[0]);
    page.push(tmp[1]);
    page.push(tmp[2]);
    page.push(tmp[3]);
    assert(page@ =~= old(page)@ + le_bytes(v, 4));
}

/// Stores `crc` in the checksum field of a page.
fn store_checksum(page: &mut Vec<u8>, crc: u32)
    requires
        old(page)@.len() >= 26,
    ensures
        final(page)@ == old(page)@.take(22) + le_bytes(crc, 4) + old(page)@.skip(26),
{
    let mut tmp = [0u8; 4];
    write_32_le(&mut tmp, crc);
    page[22] = tmp[0];
    page[23] = tmp[1];
    page[24] = tmp[2];
    page[25] = tmp[3];
    assert(page@ =~= old(page)@.take(22) + le_bytes(crc, 4) + old(page)@.skip(26));
}

/// Replacing the checksum field of a page with a zero checksum by `crc`
/// gives the page with that checksum.
proof fn lemma_checksum_field(m: OggModel, last: bool, crc: u32)
    ensures
        m.page_with_crc(last, 0).take(22) + le_bytes(crc, 4) + m.page_with_crc(last, 0).skip(26)
            == m.page_with_crc(last, crc),
{
    let h0 = m.page_header(last, 0);
    let h1 = m.page_header(last, crc);
    let rest = lacing(m.payload.len()) + m.payload;
    assert(h0.len() == 27 && h1.len() == 27);
    assert(h0.take(22) =~= h1.take(22));
    assert(h1.subrange(22, 26) =~= le_bytes(crc, 4));
    assert(h0.skip(26) =~= h1.skip(26));
    assert(m.page_with_crc(last, 0) =~= h0 + rest);
    assert(m.page_with_crc(last, crc) =~= h1 + rest);
    assert((h0 + rest).take(22) =~= h0.take(22));
    assert((h0 + rest).skip(26) =~= h0.skip(26) + rest);
    assert(h1 =~= h1.take(22) + h1.subrange(22, 26) + h1.skip(26));
    assert(h0.take(22) + le_bytes(crc, 4) + (h0.skip(26) + rest) =~= h1 + rest);
}

/// One step of the checksum's shift register.
fn crc_shift_once(r: u32) -> (s: u32)
    ensures
        s == crc_shift(r),
{
    if r & 0x8000_0000u32 != 0 {
        (r << 1u32) ^ CRC_POLYNOMIAL
    } else {
        r << 1u32
    }
}

/// The table of the remainders of all 256 byte values.
fn crc_lookup() -> (table: Vec<u32>)
    ensures
        table@.len() == 256,
        forall|i: int| 0 <= i < 256 ==> table@[i] == crc_table_entry(i as u8),
{
    let mut table: Vec<u32> = Vec::with_capacity(256);
    let mut i: u32 = 0;
    while i < 256
        invariant
            i <= 256,
            table@.len() == i,
            forall|j: int| 0 <= j < i ==> table@[j] == crc_table_entry(j as u8),
        decreases 256 - i,
    {
        let r0 = i << 24u32;
        let r1 = crc_shift_once(r0);
        let r2 = crc_shift_once(r1);
        let r3 = crc_shift_once(r2);
        let r4 = crc_shift_once(r3);
        let r5 = crc_shift_once(r4);
        let r6 = crc_shift_once(r5);
        let r7 = crc_shift_once(r6);
        let r8 = crc_shift_once(r7);
        table.push(r8);
        i = i + 1;
    }
    table
}

/// The number of bytes that `checksum` covers: `bytes` of them, or all
/// where `bytes` is negative or more than there are.
pub open spec fn checksum_len(len: nat, bytes: i32) -> nat {
    if bytes < 0 || bytes > len {
        len
    } else {
        bytes as nat
    }
}

/// The checksum of the first `bytes` bytes of `data`, computed with a
/// lookup table.
pub fn checksum(data: &[u8], bytes: i32) -> (crc: u32)
    ensures
        crc == crc32(data@.take(checksum_len(data@.len(), bytes) as int)),
{
    let table = crc_lookup();
    let n: usize = if bytes < 0 || bytes as usize > data.len() {
        data.len()
    } else {
        bytes as usize
    };
    let mut crc_reg: u32 = 0;
    let mut i: usize = 0;
    while i < n
        invariant
            i <= n <= data@.len(),
            table@.len() == 256,
            forall|j: int| 0 <= j < 256 ==> table@[j] == crc_table_entry(j as u8),
            crc_reg == crc32(data@.take(i as int)),
        decreases n - i,
    {
        let b = data[i];
        let top: u32 = crc_reg >> 24u32;
        assert(top < 256) by (bit_vector)
            requires
                top == crc_reg >> 24u32,
        ;
        let index: u8 = (top as u8) ^ b;
        proof {
            assert(data@.take(i + 1).drop_last() =~= data@.take(i as int));
            assert(data@.take(i + 1).last() == b);
        }
        crc_reg = (crc_reg << 8u32) ^ table[index as usize];
        i = i + 1;
    }
    crc_reg
}

impl BitOggStreamT for BitOggStream {
    open spec fn model(&self) -> OggModel {
        self@
    }

    open spec fn wf(&self) -> bool {
        self.inv()
    }

    proof fn lemma_model_wf(&self) {
    }

    #[verifier::loop_isolation(false)]
    fn write_bits(&mut self, value: u32, bits: u8) -> (r: Result<(), ParseError>) {
        reveal(OggModel::write_bits);
        reveal(OggModel::write_fits);
        reveal(OggModel::put_bytes);
        if bits % 8 == 0 {
            let byte_count = bits / 8;
            let ghost all = le_bytes(value, byte_count as nat);
            let mut i: u8 = 0;
            while i < byte_count
                invariant
                    i <= byte_count <= 4,
                    byte_count == bits / 8,
                    bits % 8 == 0,
                    self.inv(),
                    old(self).inv(),
                    all == le_bytes(value, byte_count as nat),
                    self@ == (OggModel { payload: old(self)@.payload + all.take(i as int), ..old(self)@ }),
                decreases byte_count - i,
            {
                if self.page_buffer.len() >= MAX_PAYLOAD {
                    proof {
                        assert(all.take(i as int) =~= all.take(MAX_PAYLOAD - old(self)@.payload.len()));
                    }
                    return Err(ParseError::BufferExhausted);
                }
                let shift: u32 = (i as u32) * 8;
                let w: u32 = (value >> shift) & 0xff;
                assert(w < 256) by (bit_vector)
                    requires
                        w == (value >> shift) & 0xff,
                ;
                self.page_buffer.push(w as u8);
                proof {
                    assert(w as u8 == byte_of_word(value, i as int));
                    assert(all.take(i + 1) =~= all.take(i as int).push(all[i as int]));
                    assert(self.pending() == old(self).pending());
                    assert(self@.payload =~= old(self)@.payload + all.take(i + 1));
                }
                i = i + 1;
            }
            proof {
                assert(all.take(byte_count as int) =~= all);
            }
            Ok(())
        } else {
            let ghost m = self@;
            let ghost all = bits_of(value, bits as nat);
            let mut i: u8 = 0;
            while i < bits
                invariant
                    i <= bits <= 32,
                    bits % 8 != 0,
                    self.inv(),
                    m.wf(),
                    m == old(self)@,
                    all == bits_of(value, bits as nat),
                    self@ == m.put_bits(all.take(i as int)),
                    m.bits_fit(i as nat),
                decreases bits - i,
            {
                let bit = (value >> (i as u32)) & 1 == 1;
                proof {
                    let head = all.take(i as int);
                    lemma_put_bits_len(m, head);
                    assert(all.take(i + 1) =~= head.push(all[i as int]));
                    lemma_put_bits_push(m, head, all[i as int]);
                }
                match self.put_bit(bit) {
                    Ok(()) => {},
                    Err(e) => {
                        proof {
                            let head = all.take(i as int);
                            let tail = all.skip(i as int);
                            assert(all =~= head + tail);
                            lemma_put_bits_concat(m, head, tail);
                            lemma_put_bits_stuck(m.put_bits(head), tail);
                            if m.bits_fit(bits as nat) {
                                lemma_bits_fit_fewer(m, (i + 1) as nat, bits as nat);
                            }
                        }
                        return Err(e);
                    },
                }
                i = i + 1;
            }
            proof {
                assert(all.take(bits as int) =~= all);
            }
            Ok(())
        }
    }

    #[verifier::loop_isolation(false)]
    fn write_all(&mut self, buf: &[u8]) -> (r: Result<(), ParseError>) {
        reveal(OggModel::put_bytes);
        let mut i: usize = 0;
        while i < buf.len()
            invariant
                i <= buf@.len(),
                self.inv(),
                old(self).inv(),
                self@ == (OggModel { payload: old(self)@.payload + buf@.take(i as int), ..old(self)@ }),
            decreases buf@.len() - i,
        {
            if self.page_buffer.len() >= MAX_PAYLOAD {
                proof {
                    assert(buf@.take(i as int) =~= buf@.take(MAX_PAYLOAD - old(self)@.payload.len()));
                }
                return Err(ParseError::BufferExhausted);
            }
            self.page_buffer.push(buf[i]);
            proof {
                assert(buf@.take(i + 1) =~= buf@.take(i as int).push(buf@[i as int]));
                assert(self.pending() == old(self).pending());
                assert(self@.payload =~= old(self)@.payload + buf@.take(i + 1));
            }
            i = i + 1;
        }
        proof {
            assert(buf@.take(buf@.len() as int) =~= buf@);
        }
        Ok(())
    }

    fn flush_page(&mut self, next_continued: bool, last: bool) -> (r: Result<(), ParseError>) {
        self.flush_page_internal(next_continued, last)
    }
}

/// A byte is the byte that its eight bits spell.
proof fn lemma_byte_of_full(c: u8, s: Seq<bool>)
    requires
        s.len() == 8,
        forall|i: int| 0 <= i < 8 ==> s[i] == bit_in(c, i),
    ensures
        byte_of_bits(s) == c,
{
    assert(has_bit(s, 0) == bit_of_byte(c, 0));
    assert(has_bit(s, 1) == bit_of_byte(c, 1));
    assert(has_bit(s, 2) == bit_of_byte(c, 2));
    assert(has_bit(s, 3) == bit_of_byte(c, 3));
    assert(has_bit(s, 4) == bit_of_byte(c, 4));
    assert(has_bit(s, 5) == bit_of_byte(c, 5));
    assert(has_bit(s, 6) == bit_of_byte(c, 6));
    assert(has_bit(s, 7) == bit_of_byte(c, 7));
    assert(c == (if (c >> 0u8) & 1 == 1 { 1u8 << 0u8 } else { 0u8 })
        | (if (c >> 1u8) & 1 == 1 { 1u8 << 1u8 } else { 0u8 })
        | (if (c >> 2u8) & 1 == 1 { 1u8 << 2u8 } else { 0u8 })
        | (if (c >> 3u8) & 1 == 1 { 1u8 << 3u8 } else { 0u8 })
        | (if (c >> 4u8) & 1 == 1 { 1u8 << 4u8 } else { 0u8 })
        | (if (c >> 5u8) & 1 == 1 { 1u8 << 5u8 } else { 0u8 })
        | (if (c >> 6u8) & 1 == 1 { 1u8 << 6u8 } else { 0u8 })
        | (if (c >> 7u8) & 1 == 1 { 1u8 << 7u8 } else { 0u8 })) by (bit_vector);
}

} // verus!
