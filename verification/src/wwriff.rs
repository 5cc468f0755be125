use vstd::prelude::*;
use vstd::slice::slice_subrange;
use byteorder::{BigEndian, ByteOrder, LittleEndian};
use vstd::arithmetic::power2::lemma2_to64;
use vstd::string::StringSliceAdditionalSpecFns;
use crate::bit_stream::{
    addressable, is_addressable, BitOggStream, BitOggStreamT, BitStream, BitUint, BitUintV,
};
use crate::codebook::CodebookLibrary;
use crate::container::{
    check_loop, format_fault, format_info, has_tag, loop_end_of, loop_in_range, read_format,
    read_sample, read_vorb, sample_fault, sample_info, scan_chunks, tag_is, vorb_fault, vorb_info,
    walk_chunks, ChunkTable, ABSENT,
};
use crate::errors::ParseError;
use crate::model::{le_bytes, OggModel, MAX_PAYLOAD};
use crate::progress::Progress;
use crate::setup::{rebuild_setup_body, setup_body, SetupScan};

verus! {

/// The 16-bit number stored at `at`, least significant byte first.
pub open spec fn u16_le(data: Seq<u8>, at: int) -> nat {
    data[at] as nat + 256 * data[at + 1] as nat
}

/// The 16-bit number stored at `at`, most significant byte first.
pub open spec fn u16_be(data: Seq<u8>, at: int) -> nat {
    256 * data[at] as nat + data[at + 1] as nat
}

/// The 32-bit number stored at `at`, least significant byte first.
pub open spec fn u32_le(data: Seq<u8>, at: int) -> nat {
    data[at] as nat + 256 * data[at + 1] as nat + 65536 * data[at + 2] as nat + 16777216 * data[at
        + 3] as nat
}

/// The 32-bit number stored at `at`, most significant byte first.
pub open spec fn u32_be(data: Seq<u8>, at: int) -> nat {
    16777216 * data[at] as nat + 65536 * data[at + 1] as nat + 256 * data[at + 2] as nat + data[at
        + 3] as nat
}

/// Calls `byteorder::LittleEndian::read_u16`, which decodes the first two
/// bytes of `buf` with the least significant byte first and panics on a
/// shorter slice.
#[verifier::external_body]
fn decode_16_le(buf: &[u8]) -> (v: u16)
    requires
        buf@.len() >= 2,
    ensures
        v == u16_le(buf@, 0),
{
    LittleEndian::read_u16(buf)
}

/// Calls `byteorder::BigEndian::read_u16`, which decodes the first two
/// bytes of `buf` with the most significant byte first and panics on a
/// shorter slice.
#[verifier::external_body]
fn decode_16_be(buf: &[u8]) -> (v: u16)
    requires
        buf@.len() >= 2,
    ensures
        v == u16_be(buf@, 0),
{
    BigEndian::read_u16(buf)
}

/// Calls `byteorder::LittleEndian::read_u32`, which decodes the first four
/// bytes of `buf` with the least significant byte first and panics on a
/// shorter slice.
#[verifier::external_body]
fn decode_32_le(buf: &[u8]) -> (v: u32)
    requires
        buf@.len() >= 4,
    ensures
        v == u32_le(buf@, 0),
{
    LittleEndian::read_u32(buf)
}

/// Calls `byteorder::BigEndian::read_u32`, which decodes the first four
/// bytes of `buf` with the most significant byte first and panics on a
/// shorter slice.
#[verifier::external_body]
fn decode_32_be(buf: &[u8]) -> (v: u32)
    requires
        buf@.len() >= 4,
    ensures
        v == u32_be(buf@, 0),
{
    BigEndian::read_u32(buf)
}

/// Whether `count` bytes can be read at `offset`.
pub open spec fn readable(data: Seq<u8>, offset: int, count: int) -> bool {
    0 <= offset && offset + count <= data.len()
}

/// Reads the little-endian 16-bit number at `offset`.
pub fn read_16_le(reader: &[u8], offset: usize) -> (r: Result<u16, ParseError>)
    ensures
        match r {
            Ok(v) => readable(reader@, offset as int, 2) && v == u16_le(reader@, offset as int),
            Err(e) => e == ParseError::Io && !readable(reader@, offset as int, 2),
        },
{
    if offset > reader.len() || reader.len() - offset < 2 {
        return Err(ParseError::Io);
    }
    Ok(decode_16_le(slice_subrange(reader, offset, offset + 2)))
}

/// Reads the big-endian 16-bit number at `offset`.
pub fn read_16_be(reader: &[u8], offset: usize) -> (r: Result<u16, ParseError>)
    ensures
        match r {
            Ok(v) => readable(reader@, offset as int, 2) && v == u16_be(reader@, offset as int),
            Err(e) => e == ParseError::Io && !readable(reader@, offset as int, 2),
        },
{
    if offset > reader.len() || reader.len() - offset < 2 {
        return Err(ParseError::Io);
    }
    Ok(decode_16_be(slice_subrange(reader, offset, offset + 2)))
}

/// Reads the little-endian 32-bit number at `offset`.
pub fn read_32_le(reader: &[u8], offset: usize) -> (r: Result<u32, ParseError>)
    ensures
        match r {
            Ok(v) => readable(reader@, offset as int, 4) && v == u32_le(reader@, offset as int),
            Err(e) => e == ParseError::Io && !readable(reader@, offset as int, 4),
        },
{
    if offset > reader.len() || reader.len() - offset < 4 {
        return Err(ParseError::Io);
    }
    Ok(decode_32_le(slice_subrange(reader, offset, offset + 4)))
}

/// Reads the big-endian 32-bit number at `offset`.
pub fn read_32_be(reader: &[u8], offset: usize) -> (r: Result<u32, ParseError>)
    ensures
        match r {
            Ok(v) => readable(reader@, offset as int, 4) && v == u32_be(reader@, offset as int),
            Err(e) => e == ParseError::Io && !readable(reader@, offset as int, 4),
        },
{
    if offset > reader.len() || reader.len() - offset < 4 {
        return Err(ParseError::Io);
    }
    Ok(decode_32_be(slice_subrange(reader, offset, offset + 4)))
}


/// The 16-bit number stored at `at` in the given byte order.
pub open spec fn u16_at(data: Seq<u8>, at: int, little_endian: bool) -> nat {
    if little_endian {
        u16_le(data, at)
    } else {
        u16_be(data, at)
    }
}

/// The 32-bit number stored at `at` in the given byte order.
pub open spec fn u32_at(data: Seq<u8>, at: int, little_endian: bool) -> nat {
    if little_endian {
        u32_le(data, at)
    } else {
        u32_be(data, at)
    }
}

/// Reads the 16-bit number at `offset` in the given byte order. A
/// negative offset is past the end.
pub fn read_16(reader: &[u8], offset: i64, little_endian: bool) -> (r: Result<u16, ParseError>)
    ensures
        match r {
            Ok(v) => readable(reader@, offset as int, 2) && v == u16_at(
                reader@,
                offset as int,
                little_endian,
            ),
            Err(e) => e == ParseError::Io && !readable(reader@, offset as int, 2),
        },
{
    if offset < 0 || offset as u64 > reader.len() as u64 {
        return Err(ParseError::Io);
    }
    if little_endian {
        read_16_le(reader, offset as usize)
    } else {
        read_16_be(reader, offset as usize)
    }
}

/// Reads the 32-bit number at `offset` in the given byte order. A
/// negative offset is past the end.
pub fn read_32(reader: &[u8], offset: i64, little_endian: bool) -> (r: Result<u32, ParseError>)
    ensures
        match r {
            Ok(v) => readable(reader@, offset as int, 4) && v == u32_at(
                reader@,
                offset as int,
                little_endian,
            ),
            Err(e) => e == ParseError::Io && !readable(reader@, offset as int, 4),
        },
{
    if offset < 0 || offset as u64 > reader.len() as u64 {
        return Err(ParseError::Io);
    }
    if little_endian {
        read_32_le(reader, offset as usize)
    } else {
        read_32_be(reader, offset as usize)
    }
}

/// Whether modified packets are forced on or off.
#[derive(Debug, Clone, Copy, PartialEq, Eq, Structural)]
pub enum ForcePacketFormat {
    NoModPackets,
    ModPackets,
}

/// What a packet header says.
pub struct PacketView {
    /// Where the header starts.
    pub offset: int,
    /// The size of the header in bytes.
    pub header_size: int,
    /// The size of the payload in bytes.
    pub size: nat,
    /// The granule position.
    pub granule: u32,
}

/// The largest offset at which a packet header is looked for.
pub const MAX_OFFSET: i64 = 0x2000_0000_0000_0000;

/// The header of a packet in the modern layout: a 16-bit size, followed
/// by a 32-bit granule position unless the container leaves it out.
pub struct Packet {
    offset: i64,
    size: u16,
    absolute_granule: u32,
    no_granule: bool,
}

/// What the modern packet header at `offset` says.
pub open spec fn packet_at(data: Seq<u8>, offset: int, little_endian: bool, no_granule: bool) -> PacketView {
    PacketView {
        offset,
        header_size: if no_granule {
            2
        } else {
            6
        },
        size: u16_at(data, offset, little_endian),
        granule: if no_granule {
            0
        } else {
            u32_at(data, offset + 2, little_endian) as u32
        },
    }
}

impl Packet {
    /// What the header says.
    pub closed spec fn view(&self) -> PacketView {
        PacketView {
            offset: self.offset as int,
            header_size: if self.no_granule {
                2
            } else {
                6
            },
            size: self.size as nat,
            granule: self.absolute_granule,
        }
    }

    /// The header lies where offsets cannot overflow.
    pub closed spec fn wf(&self) -> bool {
        0 <= self.offset <= MAX_OFFSET
    }

    /// Reads the header at `offset`.
    pub fn new(reader: &[u8], offset: i64, little_endian: bool, no_granule: bool) -> (r: Result<
        Self,
        ParseError,
    >)
        requires
            addressable(reader@),
        ensures
            match r {
                Ok(p) => {
                    &&& readable(reader@, offset as int, if no_granule { 2int } else { 6int })
                    &&& p.wf()
                    &&& p@ == packet_at(reader@, offset as int, little_endian, no_granule)
                },
                Err(e) => e == ParseError::Io && !readable(
                    reader@,
                    offset as int,
                    if no_granule { 2int } else { 6int },
                ),
            },
    {
        let size = read_16(reader, offset, little_endian)?;
        let absolute_granule = if !no_granule {
            read_32(reader, offset + 2, little_endian)?
        } else {
            0
        };
        Ok(Self { offset, size, absolute_granule, no_granule })
    }

    /// The size of the header in bytes.
    pub fn header_size(&self) -> (n: i64)
        ensures
            n == self@.header_size,
    {
        if self.no_granule {
            2
        } else {
            6
        }
    }

    /// Where the payload starts.
    pub fn offset(&self) -> (n: i64)
        requires
            self.wf(),
        ensures
            n == self@.offset + self@.header_size,
    {
        self.offset + self.header_size()
    }

    /// The size of the payload in bytes.
    pub fn size(&self) -> (n: u16)
        ensures
            n == self@.size,
    {
        self.size
    }

    /// The granule position.
    pub fn granule(&self) -> (g: u32)
        ensures
            g == self@.granule,
    {
        self.absolute_granule
    }

    /// Where the next packet starts.
    pub fn next_offset(&self) -> (n: i64)
        requires
            self.wf(),
        ensures
            n == self@.offset + self@.header_size + self@.size,
    {
        self.offset + self.header_size() + self.size as i64
    }
}

/// The header of a packet in the old layout: a 32-bit size and a 32-bit
/// granule position.
pub struct Packet8 {
    offset: i64,
    size: u32,
    absolute_granule: u32,
    next_offset: i64,
}

/// What the old packet header at `offset` says.
pub open spec fn packet8_at(data: Seq<u8>, offset: int, little_endian: bool) -> PacketView {
    PacketView {
        offset,
        header_size: 8,
        size: u32_at(data, offset, little_endian),
        granule: u32_at(data, offset + 4, little_endian) as u32,
    }
}

impl Packet8 {
    /// What the header says.
    pub closed spec fn view(&self) -> PacketView {
        PacketView {
            offset: self.offset as int,
            header_size: 8,
            size: self.size as nat,
            granule: self.absolute_granule,
        }
    }

    /// The header lies where offsets cannot overflow, and the offset of
    /// the next packet is the one that was computed from it.
    pub closed spec fn wf(&self) -> bool {
        0 <= self.offset <= MAX_OFFSET && self.next_offset == self.offset + 8 + self.size
    }

    /// Reads the header at `offset`.
    pub fn new(reader: &[u8], offset: i64, little_endian: bool) -> (r: Result<Self, ParseError>)
        requires
            addressable(reader@),
        ensures
            match r {
                Ok(p) => {
                    &&& readable(reader@, offset as int, 8)
                    &&& p.wf()
                    &&& p@ == packet8_at(reader@, offset as int, little_endian)
                },
                Err(e) => e == ParseError::Io && !readable(reader@, offset as int, 8),
            },
    {
        let size = read_32(reader, offset, little_endian)?;
        let absolute_granule = read_32(reader, offset + 4, little_endian)?;
        Ok(Self { offset, size, absolute_granule, next_offset: offset + 8 + size as i64 })
    }

    /// The size of the payload in bytes.
    pub fn size(&self) -> (n: u32)
        ensures
            n == self@.size,
    {
        self.size
    }

    /// Where the payload starts.
    pub fn offset(&self) -> (n: i64)
        requires
            self.wf(),
        ensures
            n == self@.offset + 8,
    {
        self.offset + 8
    }

    /// The granule position.
    pub fn granule(&self) -> (g: u32)
        ensures
            g == self@.granule,
    {
        self.absolute_granule
    }

    /// Where the next packet starts.
    pub fn next_offset(&self) -> (n: i64)
        requires
            self.wf(),
        ensures
            n == self@.offset + 8 + self@.size,
    {
        self.next_offset
    }

    /// The size of the header in bytes.
    pub fn header_size(&self) -> (n: i64)
        ensures
            n == 8,
            n == self@.header_size,
    {
        8
    }
}

/// The six bytes that follow the type of every Vorbis header packet.
pub open spec fn vorbis_tag() -> Seq<u8> {
    seq![0x76u8, 0x6fu8, 0x72u8, 0x62u8, 0x69u8, 0x73u8]
}

/// The opening of a Vorbis header packet: its type and the tag.
pub struct VorbisPacketHeader {
    type_: u8,
}

impl VorbisPacketHeader {
    /// The type of the packet.
    pub closed spec fn view(&self) -> u8 {
        self.type_
    }

    /// The opening of a packet of type `t`.
    pub fn new(t: u8) -> (h: Self)
        ensures
            h@ == t,
    {
        Self { type_: t }
    }

    /// Writes the type as one byte and the tag behind it.
    pub fn write_to<O: BitOggStreamT>(&self, os: &mut O) -> (r: Result<(), ParseError>)
        requires
            old(os).wf(),
        ensures
            final(os).wf(),
            final(os).model() == old(os).model().write_bits(self@ as u32, 8).put_bytes(
                vorbis_tag(),
            ),
            match r {
                Ok(_) => old(os).model().bytes_fit(7),
                Err(e) => e == ParseError::BufferExhausted && !old(os).model().bytes_fit(7),
            },
            packet_opening(Progress::start(0, old(os).model()), self@).matches(
                r,
                0,
                final(os).model(),
            ),
    {
        let tag: [u8; 6] = [0x76u8, 0x6fu8, 0x72u8, 0x62u8, 0x69u8, 0x73u8];
        assert(tag@ =~= vorbis_tag());
        proof {
            reveal(OggModel::write_bits);
            reveal(OggModel::write_fits);
            reveal(OggModel::put_bytes);
            os.lemma_model_wf();
            let m = os.model();
            if !m.bytes_fit(1) {
                assert(m.write_bits(self@ as u32, 8).payload =~= m.payload);
                assert(m.put_bytes(vorbis_tag()).payload =~= m.payload);
            }
        }
        os.write_bits(self.type_ as u32, 8)?;
        os.write_all(tag.as_slice())
    }
}


/// `count` bytes from `at` on, each read from `data` and written as a
/// field of eight bits. A byte past the end cannot be read.
pub open spec fn copy_bytes(data: Seq<u8>, p: Progress, at: int, count: nat) -> Progress
    decreases count,
{
    if p.err.is_some() || count == 0 {
        p
    } else {
        let q = p.require(readable(data, at, 1), ParseError::Io).emit(data[at] as u32, 8);
        if q.err.is_some() {
            q
        } else {
            copy_bytes(data, q, at + 1, (count - 1) as nat)
        }
    }
}

/// The number of bytes of a packet of `size` bytes behind its first
/// byte.
pub open spec fn rest_of(size: nat) -> nat {
    if size >= 1 {
        (size - 1) as nat
    } else {
        0
    }
}

/// Copies `count` bytes from `at` on.
#[verifier::loop_isolation(false)]
fn write_payload<O: BitOggStreamT>(os: &mut O, data: &[u8], at: i64, count: u32) -> (r: Result<
    (),
    ParseError,
>)
    requires
        old(os).wf(),
        0 <= at <= 0x4000_0000_0000_0000,
    ensures
        final(os).wf(),
        copy_bytes(data@, Progress::start(0, old(os).model()), at as int, count as nat).matches(
            r,
            0,
            final(os).model(),
        ),
{
    let ghost whole = copy_bytes(data@, Progress::start(0, os.model()), at as int, count as nat);
    let mut i: u32 = 0;
    proof {
        lemma2_to64();
    }
    while i < count
        invariant
            i <= count,
            os.wf(),
            whole == copy_bytes(
                data@,
                Progress::start(0, os.model()),
                at + i,
                (count - i) as nat,
            ),
        decreases count - i,
    {
        let position = at + i as i64;
        if position as u64 >= data.len() as u64 {
            return Err(ParseError::Io);
        }
        let byte = data[position as usize];
        BitUint::<8>::new(byte as u32)?.write_to(os)?;
        i = i + 1;
    }
    Ok(())
}

/// The opening of a Vorbis header packet of type `t`: the type as one
/// byte and the tag.
pub open spec fn packet_opening(p: Progress, t: u8) -> Progress {
    p.write(t as u32, 8).write_all(vorbis_tag())
}

/// The decimal digits of `n` as characters.
pub open spec fn decimal_digits(n: nat) -> Seq<u8>
    decreases n,
{
    if n < 10 {
        seq![(48 + n) as u8]
    } else {
        decimal_digits(n / 10).push((48 + n % 10) as u8)
    }
}

/// Appends the decimal digits of `n` to `out`.
fn push_decimal(out: &mut Vec<u8>, n: u64)
    ensures
        final(out)@ == old(out)@ + decimal_digits(n as nat),
    decreases n,
{
    if n >= 10 {
        push_decimal(out, n / 10);
    }
    out.push(48 + (n % 10) as u8);
    proof {
        if n >= 10 {
            assert(out@ =~= old(out)@ + decimal_digits(n as nat));
        } else {
            assert(out@ =~= old(out)@ + decimal_digits(n as nat));
        }
    }
}

/// Appends the bytes of `text` to `out`.
fn push_text(out: &mut Vec<u8>, text: &str)
    ensures
        final(out)@ == old(out)@ + text.spec_bytes(),
{
    out.extend_from_slice(text.as_bytes());
}

/// The name of the producer that the comment packet carries.
pub open spec fn vendor_text() -> Seq<u8> {
    "converted from Audiokinetic Wwise by wem_converter 0.1.0".spec_bytes()
}

/// The comment that names where the loop starts.
pub open spec fn loop_start_text(n: u32) -> Seq<u8> {
    seq![0x4cu8, 0x6fu8, 0x6fu8, 0x70u8, 0x53u8, 0x74u8, 0x61u8, 0x72u8, 0x74u8, 0x3du8]
        + decimal_digits(n as nat)
}

/// The comment that names where the loop ends.
pub open spec fn loop_end_text(n: u32) -> Seq<u8> {
    seq![0x4cu8, 0x6fu8, 0x6fu8, 0x70u8, 0x45u8, 0x6eu8, 0x64u8, 0x3du8] + decimal_digits(n as nat)
}

/// A text behind its length: the length, which must fit 32 bits, then
/// the bytes, each written as a field of eight bits.
pub open spec fn counted_text(p: Progress, text: Seq<u8>) -> Progress {
    p.require(text.len() <= u32::MAX, ParseError::RangeViolation).write(
        text.len() as u32,
        32,
    ).write_all(text)
}

/// Writes bytes one by one, each as a field of eight bits.
#[verifier::loop_isolation(false)]
fn write_bytes<O: BitOggStreamT>(os: &mut O, bytes: &[u8]) -> (r: Result<(), ParseError>)
    requires
        old(os).wf(),
    ensures
        final(os).wf(),
        Progress::start(0, old(os).model()).write_all(bytes@).matches(r, 0, final(os).model()),
{
    let ghost m = os.model();
    proof {
        reveal(OggModel::write_bits);
        reveal(OggModel::write_fits);
        reveal(OggModel::put_bytes);
        os.lemma_model_wf();
    }
    let mut i: usize = 0;
    while i < bytes.len()
        invariant
            i <= bytes@.len(),
            os.wf(),
            m.bytes_fit(i as nat),
            os.model() == (OggModel { payload: m.payload + bytes@.take(i as int), ..m }),
        decreases bytes@.len() - i,
    {
        let b = bytes[i];
        proof {
            let v = b as u32;
            assert(((v >> 0u32) & 0xff) == v) by (bit_vector)
                requires
                    v < 256,
            ;
            assert(le_bytes(b as u32, 1) =~= seq![b]);
            let now = os.model();
            if now.bytes_fit(1) {
                assert(now.put_bytes(seq![b]).payload =~= m.payload + bytes@.take(i + 1));
            } else {
                assert(now.put_bytes(seq![b]).payload =~= now.payload);
                assert(bytes@.take(i as int) =~= bytes@.take(MAX_PAYLOAD - m.payload.len()));
            }
        }
        os.write_bits(b as u32, 8)?;
        i = i + 1;
    }
    proof {
        assert(bytes@.take(bytes@.len() as int) =~= bytes@);
    }
    Ok(())
}

/// Writes a text behind its length.
fn write_counted<O: BitOggStreamT>(os: &mut O, text: &[u8]) -> (r: Result<(), ParseError>)
    requires
        old(os).wf(),
    ensures
        final(os).wf(),
        counted_text(Progress::start(0, old(os).model()), text@).matches(r, 0, final(os).model()),
{
    if text.len() > 0xffff_ffff {
        return Err(ParseError::RangeViolation);
    }
    os.write_bits(text.len() as u32, 32)?;
    write_bytes(os, text)
}

/// What the converter knows of a container: where its chunks lie, what
/// its format chunks say, and how its packets are laid out.
#[derive(Debug)]
pub struct WwiseRiffVorbis {
    pub file_name: String,
    pub codebooks_name: String,
    pub infile: Vec<u8>,
    pub file_size: i64,
    pub little_endian: bool,
    pub riff_size: i64,
    pub fmt_offset: i64,
    pub cue_offset: i64,
    pub list_offset: i64,
    pub smpl_offset: i64,
    pub vorb_offset: i64,
    pub data_offset: i64,
    pub fmt_size: i64,
    pub cue_size: i64,
    pub list_size: i64,
    pub smpl_size: i64,
    pub vorb_size: i64,
    pub data_size: i64,
    pub channels: u16,
    pub sample_rate: u32,
    pub avg_bytes_per_second: u32,
    pub ext_unk: u16,
    pub subtype: u32,
    pub cue_count: u32,
    pub loop_count: u32,
    pub loop_start: u32,
    pub loop_end: u32,
    pub sample_count: u32,
    pub setup_packet_offset: u32,
    pub first_audio_packet_offset: u32,
    pub uid: u32,
    pub blocksize_0_pow: u8,
    pub blocksize_1_pow: u8,
    pub inline_codebooks: bool,
    pub full_setup: bool,
    pub header_triad_present: bool,
    pub old_packet_headers: bool,
    pub no_granule: bool,
    pub mod_packets: bool,
}

/// Whether a container opens with the tag of the little-endian layout.
pub open spec fn is_riff(data: Seq<u8>) -> bool {
    has_tag(data, 0, 0x52, 0x49, 0x46, 0x46)
}

/// Whether a container opens with the tag of the big-endian layout.
pub open spec fn is_rifx(data: Seq<u8>) -> bool {
    has_tag(data, 0, 0x52, 0x49, 0x46, 0x58)
}

/// The size of the RIFF data of a container, its header included.
pub open spec fn riff_size_of(data: Seq<u8>) -> int {
    u32_at(data, 4, !is_rifx(data)) as int + 8
}

/// The chunks of a container.
pub open spec fn chunks_of(data: Seq<u8>) -> Result<ChunkTable, ParseError> {
    walk_chunks(data, !is_rifx(data), riff_size_of(data), 12, ChunkTable::empty())
}

/// Where the Vorbis data of a container lie: in the Vorbis chunk, or
/// 0x18 bytes into the format chunk where there is none.
pub open spec fn vorb_at(table: ChunkTable) -> int {
    if table.vorb_offset == ABSENT {
        table.fmt_offset + 0x18
    } else {
        table.vorb_offset as int
    }
}

/// The first thing wrong with the chunks of a container, if anything:
/// format and data chunk must be there, a container without a Vorbis
/// chunk must have a format chunk of 0x42 bytes, and the loop must lie
/// within the samples.
pub open spec fn chunk_fault(data: Seq<u8>, table: ChunkTable) -> Option<ParseError> {
    if table.fmt_offset == ABSENT || table.data_offset == ABSENT {
        Some(ParseError::FormatViolation)
    } else if format_fault(data, table.fmt_offset as int, table.fmt_size as int).is_some() {
        format_fault(data, table.fmt_offset as int, table.fmt_size as int)
    } else if table.cue_offset != ABSENT && !readable(data, table.cue_offset as int, 4) {
        Some(ParseError::Io)
    } else if sample_fault(data, table.smpl_offset as int).is_some() {
        sample_fault(data, table.smpl_offset as int)
    } else if table.vorb_offset == ABSENT && table.fmt_size != 0x42 {
        Some(ParseError::FormatViolation)
    } else if vorb_fault(data, vorb_at(table), table.vorb_size as int).is_some() {
        vorb_fault(data, vorb_at(table), table.vorb_size as int)
    } else if !loop_in_range(
        sample_info(data, table.smpl_offset as int),
        vorb_info(data, vorb_at(table), table.vorb_size as int).sample_count,
    ) {
        Some(ParseError::RangeViolation)
    } else {
        None
    }
}

/// The first thing wrong with a container, if anything: it must hold at
/// least twelve bytes, open with `RIFF` or `RIFX`, hold all of its RIFF
/// data, name the type `WAVE`, and have chunks that fill the RIFF data
/// and are in order.
pub open spec fn container_fault(data: Seq<u8>) -> Option<ParseError> {
    if data.len() < 12 {
        Some(ParseError::FormatViolation)
    } else if !is_riff(data) && !is_rifx(data) {
        Some(ParseError::FormatViolation)
    } else if riff_size_of(data) > data.len() {
        Some(ParseError::SizeMismatch)
    } else if !has_tag(data, 8, 0x57, 0x41, 0x56, 0x45) {
        Some(ParseError::FormatViolation)
    } else {
        match chunks_of(data) {
            Err(e) => Some(e),
            Ok(table) => chunk_fault(data, table),
        }
    }
}

impl WwiseRiffVorbis {
    /// Whether the value says of the chunks what `table` says.
    pub open spec fn has_chunks(&self, table: ChunkTable) -> bool {
        &&& self.fmt_offset == table.fmt_offset
        &&& self.cue_offset == table.cue_offset
        &&& self.list_offset == table.list_offset
        &&& self.smpl_offset == table.smpl_offset
        &&& self.vorb_offset == vorb_at(table)
        &&& self.data_offset == table.data_offset
        &&& self.fmt_size == table.fmt_size
        &&& self.cue_size == table.cue_size
        &&& self.list_size == table.list_size
        &&& self.smpl_size == table.smpl_size
        &&& self.vorb_size == table.vorb_size
        &&& self.data_size == table.data_size
    }

    /// Whether the value is what a container without fault says: its
    /// layout, its chunks, and the numbers in its format, cue, sample and
    /// Vorbis chunks, all of which are stored least significant byte
    /// first.
    pub open spec fn describes(&self, data: Seq<u8>) -> bool {
        let table = chunks_of(data).unwrap();
        let format = format_info(data, table.fmt_offset as int, table.fmt_size as int);
        let sample = sample_info(data, table.smpl_offset as int);
        let vorb = vorb_info(data, vorb_at(table), table.vorb_size as int);
        &&& self.infile@ == data
        &&& self.file_size == data.len()
        &&& self.little_endian == !is_rifx(data)
        &&& self.riff_size == riff_size_of(data)
        &&& self.has_chunks(table)
        &&& self.channels == format.channels
        &&& self.sample_rate == format.sample_rate
        &&& self.avg_bytes_per_second == format.avg_bytes_per_second
        &&& self.ext_unk == format.ext_unk
        &&& self.subtype == format.subtype
        &&& self.cue_count == if table.cue_offset == ABSENT {
            0
        } else {
            u32_le(data, table.cue_offset as int) as u32
        }
        &&& self.loop_count == sample.loop_count
        &&& self.loop_start == sample.loop_start
        &&& self.loop_end == loop_end_of(sample, vorb.sample_count)
        &&& self.sample_count == vorb.sample_count
        &&& self.setup_packet_offset == vorb.setup_packet_offset
        &&& self.first_audio_packet_offset == vorb.first_audio_packet_offset
        &&& self.uid == vorb.uid
        &&& self.blocksize_0_pow == vorb.blocksize_0_pow
        &&& self.blocksize_1_pow == vorb.blocksize_1_pow
        &&& self.no_granule == vorb.no_granule
        &&& self.header_triad_present == vorb.header_triad_present
        &&& self.old_packet_headers == vorb.old_packet_headers
    }

    /// Reads what a container in memory says. The two names are kept as
    /// they are; whether the codebooks come with the stream, whether the
    /// setup packet is a full one and whether packets are modified is as
    /// the caller says.
    pub fn new(
        buf: Vec<u8>,
        file_name: &str,
        codebooks_name: &str,
        inline_codebooks: bool,
        full_setup: bool,
        force_packet_format: ForcePacketFormat,
    ) -> (r: Result<Self, ParseError>)
        requires
            addressable(buf@),
        ensures
            match r {
                Ok(w) => {
                    &&& container_fault(buf@).is_none()
                    &&& w.describes(buf@)
                    &&& w.wf()
                    &&& w.file_name@ == file_name@
                    &&& w.codebooks_name@ == codebooks_name@
                    &&& w.inline_codebooks == inline_codebooks
                    &&& w.full_setup == full_setup
                    &&& w.mod_packets == (force_packet_format == ForcePacketFormat::ModPackets)
                },
                Err(e) => container_fault(buf@) == Some(e),
            },
    {
        let data = buf.as_slice();
        let file_size = data.len();
        if file_size < 12 {
            return Err(ParseError::FormatViolation);
        }
        let little_endian = if tag_is(data, 0, 0x52, 0x49, 0x46, 0x58) {
            false
        } else if tag_is(data, 0, 0x52, 0x49, 0x46, 0x46) {
            true
        } else {
            return Err(ParseError::FormatViolation);
        };
        let riff_size = match read_32(data, 4, little_endian) {
            Ok(v) => v as i64 + 8,
            Err(e) => {
                return Err(e);
            },
        };
        if riff_size as u64 > file_size as u64 {
            return Err(ParseError::SizeMismatch);
        }
        if !tag_is(data, 8, 0x57, 0x41, 0x56, 0x45) {
            return Err(ParseError::FormatViolation);
        }
        let table = scan_chunks(data, little_endian, riff_size)?;
        if table.fmt_offset == ABSENT || table.data_offset == ABSENT {
            return Err(ParseError::FormatViolation);
        }
        let format = read_format(data, table.fmt_offset, table.fmt_size)?;
        let mut cue_count: u32 = 0;
        if table.cue_offset != ABSENT {
            cue_count = read_32(data, table.cue_offset, true)?;
        }
        let sample = read_sample(data, table.smpl_offset)?;
        let mut vorb_offset = table.vorb_offset;
        if vorb_offset == ABSENT {
            if table.fmt_size == 0x42 {
                vorb_offset = table.fmt_offset + 0x18;
            } else {
                return Err(ParseError::FormatViolation);
            }
        }
        let vorb = read_vorb(data, vorb_offset, table.vorb_size)?;
        let loop_end = check_loop(sample, vorb.sample_count)?;
        let mod_packets = match force_packet_format {
            ForcePacketFormat::NoModPackets => false,
            ForcePacketFormat::ModPackets => true,
        };
        Ok(
            WwiseRiffVorbis {
                file_name: file_name.to_owned(),
                codebooks_name: codebooks_name.to_owned(),
                infile: buf,
                file_size: file_size as i64,
                little_endian,
                riff_size,
                fmt_offset: table.fmt_offset,
                cue_offset: table.cue_offset,
                list_offset: table.list_offset,
                smpl_offset: table.smpl_offset,
                vorb_offset,
                data_offset: table.data_offset,
                fmt_size: table.fmt_size,
                cue_size: table.cue_size,
                list_size: table.list_size,
                smpl_size: table.smpl_size,
                vorb_size: table.vorb_size,
                data_size: table.data_size,
                channels: format.channels,
                sample_rate: format.sample_rate,
                avg_bytes_per_second: format.avg_bytes_per_second,
                ext_unk: format.ext_unk,
                subtype: format.subtype,
                cue_count,
                loop_count: sample.loop_count,
                loop_start: sample.loop_start,
                loop_end,
                sample_count: vorb.sample_count,
                setup_packet_offset: vorb.setup_packet_offset,
                first_audio_packet_offset: vorb.first_audio_packet_offset,
                uid: vorb.uid,
                blocksize_0_pow: vorb.blocksize_0_pow,
                blocksize_1_pow: vorb.blocksize_1_pow,
                inline_codebooks,
                full_setup,
                header_triad_present: vorb.header_triad_present,
                old_packet_headers: vorb.old_packet_headers,
                no_granule: vorb.no_granule,
                mod_packets,
            },
        )
    }

    /// The bytes are few enough to be addressed, and the data chunk lies
    /// where a chunk of a RIFF file can lie.
    pub open spec fn wf(&self) -> bool {
        &&& addressable(self.infile@)
        &&& -1 <= self.data_offset <= 0x1_0000_0008
        &&& -1 <= self.data_size <= 0xffff_ffff
    }

    /// Whether the value is well formed.
    pub fn is_well_formed(&self) -> (b: bool)
        ensures
            b == self.wf(),
    {
        is_addressable(self.infile.as_slice()) && -1 <= self.data_offset && self.data_offset
            <= 0x1_0000_0008 && -1 <= self.data_size && self.data_size <= 0xffff_ffff
    }

    /// The nominal bit rate: eight times the average number of bytes per
    /// second, as far as it fits 32 bits.
    pub open spec fn nominal_bitrate(&self) -> u32 {
        ((self.avg_bytes_per_second as int * 8) % 0x1_0000_0000) as u32
    }

    /// The size of a packet header of the modern layout in this
    /// container.
    pub open spec fn header_size(&self) -> int {
        if self.no_granule {
            2
        } else {
            6
        }
    }

    /// The identification packet on a page of its own: type 1, version 0,
    /// the channel count in one byte, the sample rate, a zero maximum bit
    /// rate, the nominal bit rate, a zero minimum bit rate, the two block
    /// size exponents in four bits each, and the framing bit.
    pub open spec fn identification_packet(&self, p: Progress) -> Progress {
        packet_opening(p, 1).write(0, 32).write(self.channels as u32, 8).write(
            self.sample_rate,
            32,
        ).write(0, 32).write(self.nominal_bitrate(), 32).write(0, 32).write(
            self.blocksize_0_pow as u32,
            4,
        ).write(self.blocksize_1_pow as u32, 4).write(1, 1).flush(false, false)
    }

    /// The comments of the comment packet: none, or where the container
    /// has a loop, its start and its end.
    pub open spec fn user_comments(&self, p: Progress) -> Progress {
        if self.loop_count == 0 {
            p.write(0, 32)
        } else {
            counted_text(
                counted_text(p.write(2, 32), loop_start_text(self.loop_start)),
                loop_end_text(self.loop_end),
            )
        }
    }

    /// The comment packet on a page of its own: type 3, the name of the
    /// producer, the comments, and the framing bit.
    pub open spec fn comment_packet(&self, p: Progress) -> Progress {
        self.user_comments(counted_text(packet_opening(p, 3), vendor_text())).write(1, 1).flush(
            false,
            false,
        )
    }

    /// Where the header of the setup packet starts.
    pub open spec fn setup_start(&self) -> int {
        self.data_offset + self.setup_packet_offset
    }

    /// What the header of the setup packet says.
    pub open spec fn setup_header(&self) -> PacketView {
        packet_at(self.infile@, self.setup_start(), self.little_endian, self.no_granule)
    }

    /// The bytes from the payload of the setup packet on.
    pub open spec fn setup_data(&self) -> Seq<u8> {
        self.infile@.skip(self.setup_start() + self.header_size())
    }

    /// The setup packet on a page of its own: type 5 and the rebuilt
    /// packet. The packet must have a readable header and a granule
    /// position of zero, must be read up to its last byte, and must end
    /// where the first audio packet starts.
    pub open spec fn setup_packet(
        &self,
        p: Progress,
        lib: CodebookLibrary,
        blockflags: Seq<bool>,
        mode_bits: int,
    ) -> SetupScan {
        let p1 = packet_opening(p, 5);
        if p1.err.is_some() {
            SetupScan { p: p1, blockflags, mode_bits }
        } else if !readable(self.infile@, self.setup_start(), self.header_size()) {
            SetupScan { p: p1.fail(ParseError::Io), blockflags, mode_bits }
        } else if self.setup_header().granule != 0 {
            SetupScan { p: p1.fail(ParseError::FormatViolation), blockflags, mode_bits }
        } else {
            let body = setup_body(
                self.setup_data(),
                Progress { pos: 0, ..p1 },
                self.inline_codebooks,
                self.full_setup,
                self.channels as nat,
                self.setup_header().size,
                lib,
                blockflags,
                mode_bits,
            );
            SetupScan {
                p: body.p.flush(false, false).require(
                    (body.p.pos + 7) / 8 == self.setup_header().size,
                    ParseError::SizeMismatch,
                ).require(
                    self.setup_start() + self.header_size() + self.setup_header().size
                        == self.data_offset + self.first_audio_packet_offset,
                    ParseError::SizeMismatch,
                ),
                blockflags: body.blockflags,
                mode_bits: body.mode_bits,
            }
        }
    }

    /// The three header packets, each on a page of its own.
    #[verifier::opaque]
    pub open spec fn header_spec(
        &self,
        out: OggModel,
        lib: CodebookLibrary,
        blockflags: Seq<bool>,
        mode_bits: int,
    ) -> SetupScan {
        let p = self.comment_packet(self.identification_packet(Progress::start(0, out)));
        self.setup_packet(Progress { pos: 0, ..p }, lib, blockflags, mode_bits)
    }

    /// Writes the identification packet.
    fn write_identification<O: BitOggStreamT>(&self, os: &mut O) -> (r: Result<(), ParseError>)
        requires
            old(os).wf(),
        ensures
            final(os).wf(),
            self.identification_packet(Progress::start(0, old(os).model())).matches(
                r,
                0,
                final(os).model(),
            ),
    {
        let vhead = VorbisPacketHeader::new(1);
        proof {
            os.lemma_model_wf();
        }
        vhead.write_to(os)?;
        os.write_bits(0, 32)?;
        os.write_bits(self.channels as u32, 8)?;
        os.write_bits(self.sample_rate, 32)?;
        os.write_bits(0, 32)?;
        os.write_bits(((self.avg_bytes_per_second as u64 * 8) % 0x1_0000_0000) as u32, 32)?;
        os.write_bits(0, 32)?;
        os.write_bits(self.blocksize_0_pow as u32, 4)?;
        os.write_bits(self.blocksize_1_pow as u32, 4)?;
        os.write_bits(1, 1)?;
        os.flush_page(false, false)
    }

    /// Writes the comments of the comment packet.
    fn write_user_comments<O: BitOggStreamT>(&self, os: &mut O) -> (r: Result<(), ParseError>)
        requires
            old(os).wf(),
        ensures
            final(os).wf(),
            self.user_comments(Progress::start(0, old(os).model())).matches(r, 0, final(os).model()),
    {
        if self.loop_count == 0 {
            os.write_bits(0, 32)
        } else {
            os.write_bits(2, 32)?;
            let mut loop_start_str: Vec<u8> = Vec::new();
            loop_start_str.push(0x4c);
            loop_start_str.push(0x6f);
            loop_start_str.push(0x6f);
            loop_start_str.push(0x70);
            loop_start_str.push(0x53);
            loop_start_str.push(0x74);
            loop_start_str.push(0x61);
            loop_start_str.push(0x72);
            loop_start_str.push(0x74);
            loop_start_str.push(0x3d);
            push_decimal(&mut loop_start_str, self.loop_start as u64);
            assert(loop_start_str@ =~= loop_start_text(self.loop_start));
            let mut loop_end_str: Vec<u8> = Vec::new();
            loop_end_str.push(0x4c);
            loop_end_str.push(0x6f);
            loop_end_str.push(0x6f);
            loop_end_str.push(0x70);
            loop_end_str.push(0x45);
            loop_end_str.push(0x6e);
            loop_end_str.push(0x64);
            loop_end_str.push(0x3d);
            push_decimal(&mut loop_end_str, self.loop_end as u64);
            assert(loop_end_str@ =~= loop_end_text(self.loop_end));
            write_counted(os, loop_start_str.as_slice())?;
            write_counted(os, loop_end_str.as_slice())
        }
    }

    /// Writes the comment packet.
    fn write_comment<O: BitOggStreamT>(&self, os: &mut O) -> (r: Result<(), ParseError>)
        requires
            old(os).wf(),
        ensures
            final(os).wf(),
            self.comment_packet(Progress::start(0, old(os).model())).matches(
                r,
                0,
                final(os).model(),
            ),
    {
        let vhead = VorbisPacketHeader::new(3);
        vhead.write_to(os)?;
        let vendor = "converted from Audiokinetic Wwise by wem_converter 0.1.0".as_bytes();
        write_counted(os, vendor)?;
        self.write_user_comments(os)?;
        os.write_bits(1, 1)?;
        os.flush_page(false, false)
    }

    /// Writes the setup packet.
    fn write_setup<O: BitOggStreamT>(
        &self,
        os: &mut O,
        mode_blockflag: &mut Vec<bool>,
        mode_bits: &mut i32,
        codebooks: &CodebookLibrary,
    ) -> (r: Result<(), ParseError>)
        requires
            self.wf(),
            old(os).wf(),
            codebooks.wf(),
        ensures
            final(os).wf(),
            self.setup_packet(
                Progress::start(0, old(os).model()),
                *codebooks,
                old(mode_blockflag)@,
                *old(mode_bits) as int,
            ).agrees(r, final(os).model(), final(mode_blockflag)@, *final(mode_bits) as int),
            r.is_ok() && !self.full_setup ==> final(mode_blockflag)@.len() >= 1 && 0 <= *final(mode_bits) <= 6,
            self.full_setup ==> final(mode_blockflag)@ == old(mode_blockflag)@ && *final(mode_bits)
                == *old(mode_bits),
    {
        let vhead = VorbisPacketHeader::new(5);
        vhead.write_to(os)?;
        let setup_packet = Packet::new(
            self.infile.as_slice(),
            self.data_offset + self.setup_packet_offset as i64,
            self.little_endian,
            self.no_granule,
        )?;
        if setup_packet.granule() != 0 {
            return Err(ParseError::FormatViolation);
        }
        let start = setup_packet.offset();
        assert(0 <= start <= self.infile@.len());
        let payload = start as usize;
        let data = slice_subrange(self.infile.as_slice(), payload, self.infile.len());
        assert(data@ =~= self.setup_data());
        assert(8 * data@.len() + 16 <= u64::MAX);
        let mut ss = BitStream::new(data);
        rebuild_setup_body(
            &mut ss,
            os,
            self.inline_codebooks,
            self.full_setup,
            self.channels,
            setup_packet.size(),
            codebooks,
            mode_blockflag,
            mode_bits,
        )?;
        os.flush_page(false, false)?;
        proof {
            ss.lemma_pos_in_range();
        }
        if (ss.get_total_bits_read() + 7) / 8 != setup_packet.size() as u64 {
            return Err(ParseError::SizeMismatch);
        }
        if setup_packet.next_offset() != self.data_offset + self.first_audio_packet_offset as i64 {
            return Err(ParseError::SizeMismatch);
        }
        Ok(())
    }

    /// Writes the three header packets of the stream to `os`, each on a
    /// page of its own. The setup packet is read from the container and
    /// rebuilt, with the codebooks of `codebooks` where the stream does
    /// not carry its own. Where the setup packet is a stripped one, the
    /// block flag of each mode is stored in `mode_blockflag` and the
    /// number of bits of a mode number in `mode_bits`.
    pub fn generate_ogg_header<O: BitOggStreamT>(
        &self,
        os: &mut O,
        mode_blockflag: &mut Vec<bool>,
        mode_bits: &mut i32,
        codebooks: &CodebookLibrary,
    ) -> (r: Result<(), ParseError>)
        requires
            self.wf(),
            old(os).wf(),
            codebooks.wf(),
        ensures
            final(os).wf(),
            self.header_spec(
                old(os).model(),
                *codebooks,
                old(mode_blockflag)@,
                *old(mode_bits) as int,
            ).agrees(r, final(os).model(), final(mode_blockflag)@, *final(mode_bits) as int),
            r.is_ok() && !self.full_setup ==> final(mode_blockflag)@.len() >= 1 && 0 <= *final(mode_bits) <= 6,
            self.full_setup ==> final(mode_blockflag)@ == old(mode_blockflag)@ && *final(mode_bits)
                == *old(mode_bits),
    {
        reveal(WwiseRiffVorbis::header_spec);
        self.write_identification(os)?;
        self.write_comment(os)?;
        self.write_setup(os, mode_blockflag, mode_bits, codebooks)
    }

    /// The line that names the layout, the channels, the sample rate and
    /// the bit rate.
    pub open spec fn format_line(&self) -> Seq<u8> {
        (if self.little_endian {
            "RIFF WAVE ".spec_bytes()
        } else {
            "RIFX WAVE ".spec_bytes()
        }) + decimal_digits(self.channels as nat) + (if self.channels != 1 {
            " channels ".spec_bytes()
        } else {
            " channel ".spec_bytes()
        }) + decimal_digits(self.sample_rate as nat) + " Hz ".spec_bytes() + decimal_digits(
            (self.avg_bytes_per_second * 8) as nat,
        ) + " bps\n".spec_bytes()
    }

    /// The line that names the loop, if there is one.
    pub open spec fn loop_line(&self) -> Seq<u8> {
        if self.loop_count != 0 {
            "loop from ".spec_bytes() + decimal_digits(self.loop_start as nat) + " to ".spec_bytes()
                + decimal_digits(self.loop_end as nat) + "\n".spec_bytes()
        } else {
            Seq::empty()
        }
    }

    /// The lines that name the packet headers and whether the three
    /// header packets are there.
    pub open spec fn headers_line(&self) -> Seq<u8> {
        (if self.old_packet_headers {
            "8 byte (old) packet headers\n".spec_bytes()
        } else if self.no_granule {
            "2 byte packet headers, no granule\n".spec_bytes()
        } else {
            "6 byte packet headers\n".spec_bytes()
        }) + (if self.header_triad_present {
            "Vorbis header triad present\n".spec_bytes()
        } else {
            Seq::empty()
        })
    }

    /// The lines that name the setup packet and the codebooks.
    pub open spec fn setup_line(&self) -> Seq<u8> {
        (if self.full_setup || self.header_triad_present {
            "full setup header\n".spec_bytes()
        } else {
            "stripped setup header\n".spec_bytes()
        }) + (if self.inline_codebooks || self.header_triad_present {
            "inline codebooks\n".spec_bytes()
        } else {
            "external codebooks (".spec_bytes() + vstd::utf8::encode_utf8(self.codebooks_name@)
                + ")\n".spec_bytes()
        })
    }

    /// The line that names the packets.
    pub open spec fn packets_line(&self) -> Seq<u8> {
        if self.mod_packets {
            "modified Vorbis packets\n".spec_bytes()
        } else {
            "standard Vorbis packets\n".spec_bytes()
        }
    }

    /// The description of the container: one line for each thing that the
    /// converter goes by.
    pub open spec fn info_text(&self) -> Seq<u8> {
        self.format_line() + self.loop_line() + self.headers_line() + self.setup_line()
            + self.packets_line()
    }

    /// Appends the line that names the layout.
    fn push_format_line(&self, text: &mut Vec<u8>)
        ensures
            final(text)@ == old(text)@ + self.format_line(),
    {
        let ghost before = text@;
        push_text(text, if self.little_endian { "RIFF WAVE " } else { "RIFX WAVE " });
        push_decimal(text, self.channels as u64);
        push_text(text, if self.channels != 1 { " channels " } else { " channel " });
        assert(text@ =~= before + ((if self.little_endian {
            "RIFF WAVE ".spec_bytes()
        } else {
            "RIFX WAVE ".spec_bytes()
        }) + decimal_digits(self.channels as nat) + (if self.channels != 1 {
            " channels ".spec_bytes()
        } else {
            " channel ".spec_bytes()
        })));
        let ghost head = text@;
        push_decimal(text, self.sample_rate as u64);
        push_text(text, " Hz ");
        push_decimal(text, self.avg_bytes_per_second as u64 * 8);
        push_text(text, " bps\n");
        assert(text@ =~= head + decimal_digits(self.sample_rate as nat) + " Hz ".spec_bytes()
            + decimal_digits((self.avg_bytes_per_second * 8) as nat) + " bps\n".spec_bytes());
        assert(text@ =~= before + self.format_line());
    }

    /// Appends the line that names the loop, if there is one.
    fn push_loop_line(&self, text: &mut Vec<u8>)
        ensures
            final(text)@ == old(text)@ + self.loop_line(),
    {
        if self.loop_count != 0 {
            push_text(text, "loop from ");
            push_decimal(text, self.loop_start as u64);
            push_text(text, " to ");
            push_decimal(text, self.loop_end as u64);
            push_text(text, "\n");
        }
        assert(text@ =~= old(text)@ + self.loop_line());
    }

    /// Appends the lines that name the packet headers.
    fn push_headers_line(&self, text: &mut Vec<u8>)
        ensures
            final(text)@ == old(text)@ + self.headers_line(),
    {
        if self.old_packet_headers {
            push_text(text, "8 byte (old) packet headers\n");
        } else if self.no_granule {
            push_text(text, "2 byte packet headers, no granule\n");
        } else {
            push_text(text, "6 byte packet headers\n");
        }
        if self.header_triad_present {
            push_text(text, "Vorbis header triad present\n");
        }
        assert(text@ =~= old(text)@ + self.headers_line());
    }

    /// Appends the lines that name the setup packet and the codebooks.
    fn push_setup_line(&self, text: &mut Vec<u8>)
        ensures
            final(text)@ == old(text)@ + self.setup_line(),
    {
        if self.full_setup || self.header_triad_present {
            push_text(text, "full setup header\n");
        } else {
            push_text(text, "stripped setup header\n");
        }
        if self.inline_codebooks || self.header_triad_present {
            push_text(text, "inline codebooks\n");
        } else {
            push_text(text, "external codebooks (");
            push_text(text, self.codebooks_name.as_str());
            push_text(text, ")\n");
        }
        assert(text@ =~= old(text)@ + self.setup_line());
    }

    /// Describes the container in lines of text, each ended by a line
    /// feed.
    pub fn print_info(&self) -> (text: Vec<u8>)
        ensures
            text@ == self.info_text(),
    {
        let mut text: Vec<u8> = Vec::new();
        self.push_format_line(&mut text);
        self.push_loop_line(&mut text);
        self.push_headers_line(&mut text);
        self.push_setup_line(&mut text);
        if self.mod_packets {
            push_text(&mut text, "modified Vorbis packets\n");
        } else {
            push_text(&mut text, "standard Vorbis packets\n");
        }
        assert(text@ =~= self.info_text());
        text
    }

    /// Where the data chunk ends.
    pub open spec fn data_end(&self) -> int {
        self.data_offset + self.data_size
    }

    /// The size of the header of an audio packet.
    pub open spec fn audio_header_size(&self) -> int {
        if self.old_packet_headers {
            8
        } else {
            self.header_size()
        }
    }

    /// What the header of the audio packet at `offset` says.
    pub open spec fn audio_header(&self, offset: int) -> PacketView {
        if self.old_packet_headers {
            packet8_at(self.infile@, offset, self.little_endian)
        } else {
            packet_at(self.infile@, offset, self.little_endian, self.no_granule)
        }
    }

    /// The block flag of the packet whose header starts at `next`, as far
    /// as the packet before it needs it: false where no whole header lies
    /// before the end of the data chunk or the packet is empty, else the
    /// flag of the mode that the first `mode_bits` bits of its payload
    /// name. The header is read in the modern layout.
    pub open spec fn next_blockflag(&self, next: int, flags: Seq<bool>, mode_bits: nat) -> Result<
        bool,
        ParseError,
    > {
        if next + self.audio_header_size() > self.data_end() {
            Ok(false)
        } else if !readable(self.infile@, next, self.header_size()) {
            Err(ParseError::Io)
        } else if packet_at(self.infile@, next, self.little_endian, self.no_granule).size == 0 {
            Ok(false)
        } else {
            let data = self.infile@.skip(next + self.header_size());
            let p = Progress::start(0, OggModel::fresh(Seq::empty()));
            if p.take(data, mode_bits).err.is_some() {
                Err(ParseError::EndOfInput)
            } else if p.peek(data, mode_bits) >= flags.len() {
                Err(ParseError::RangeViolation)
            } else {
                Ok(flags[p.peek(data, mode_bits) as int])
            }
        }
    }

    /// The mode number in the first byte of the payload at `payload`.
    pub open spec fn mode_number(&self, payload: int, mode_bits: nat) -> u32 {
        Progress::start(0, OggModel::fresh(Seq::empty())).peek(self.infile@.skip(payload), mode_bits)
    }

    /// The first byte of a modified packet, rebuilt: a zero bit for the
    /// packet type, the mode number, where the mode has a long window the
    /// flags of the window before and of the window after, and the rest
    /// of the byte. The state that comes back counts no input bits.
    #[verifier::opaque]
    pub open spec fn modified_first_byte(
        &self,
        p: Progress,
        payload: int,
        next: int,
        flags: Seq<bool>,
        mode_bits: nat,
        prev: bool,
    ) -> Progress {
        let data = self.infile@.skip(payload);
        let p1 = Progress { pos: 0, ..p.require(flags.len() > 0, ParseError::FormatViolation).emit(0, 1) };
        let mode = p1.peek(data, mode_bits);
        let p2 = p1.copy(data, mode_bits);
        let remainder = p2.peek(data, (8 - mode_bits) as nat);
        let p3 = p2.take(data, (8 - mode_bits) as nat).require(
            mode < flags.len(),
            ParseError::RangeViolation,
        );
        let p4 = if p3.err.is_none() && flags[mode as int] {
            match self.next_blockflag(next, flags, mode_bits) {
                Ok(after) => p3.emit(if prev { 1 } else { 0 }, 1).emit(if after { 1 } else { 0 }, 1),
                Err(e) => p3.fail(e),
            }
        } else {
            p3
        };
        Progress { pos: 0, ..p4.emit(remainder, (8 - mode_bits) as nat) }
    }

    /// The first byte of a packet that is not modified, copied.
    pub open spec fn plain_first_byte(&self, p: Progress, payload: int) -> Progress {
        copy_bytes(self.infile@, p, payload, 1)
    }

    /// The block flag that a packet hands on to the next: that of its
    /// mode where packets are modified, else the one it was handed.
    pub open spec fn packet_blockflag(
        &self,
        payload: int,
        flags: Seq<bool>,
        mode_bits: nat,
        prev: bool,
    ) -> bool {
        if self.mod_packets {
            flags[self.mode_number(payload, mode_bits) as int]
        } else {
            prev
        }
    }

    /// One audio packet on a page of its own. The header must be readable
    /// and lie before the end of the data chunk. A granule position of
    /// all ones is replaced by one. The page is the last one where the
    /// packet ends with the data chunk.
    #[verifier::opaque]
    pub open spec fn audio_packet(
        &self,
        out: OggModel,
        offset: int,
        flags: Seq<bool>,
        mode_bits: nat,
        prev: bool,
    ) -> Progress {
        let p = Progress::start(0, out);
        let view = self.audio_header(offset);
        let payload = offset + self.audio_header_size();
        let next = payload + view.size;
        if !readable(self.infile@, offset, self.audio_header_size()) {
            p.fail(ParseError::Io)
        } else if payload > self.data_end() {
            p.fail(ParseError::SizeMismatch)
        } else {
            let stamped = Progress::start(
                0,
                OggModel {
                    granule: if view.granule == 0xFFFF_FFFF {
                        1
                    } else {
                        view.granule
                    },
                    ..out
                },
            );
            let first = if self.mod_packets {
                self.modified_first_byte(stamped, payload, next, flags, mode_bits, prev)
            } else {
                self.plain_first_byte(stamped, payload)
            };
            copy_bytes(self.infile@, first, payload + 1, rest_of(view.size)).flush(
                false,
                next == self.data_end(),
            )
        }
    }

    /// Where the packet behind the one at `offset` starts.
    pub open spec fn next_packet(&self, offset: int) -> int {
        offset + self.audio_header_size() + self.audio_header(offset).size
    }

    /// The audio packets from `offset` to the end of the data chunk, each
    /// on a page of its own. The last packet must end with the data
    /// chunk.
    pub open spec fn audio_packets(
        &self,
        out: OggModel,
        offset: int,
        flags: Seq<bool>,
        mode_bits: nat,
        prev: bool,
    ) -> Progress
        decreases
            (if offset < self.data_end() {
                self.data_end() - offset
            } else {
                0
            }),
    {
        if offset >= self.data_end() {
            Progress::start(0, out).require(offset <= self.data_end(), ParseError::SizeMismatch)
        } else {
            let step = self.audio_packet(out, offset, flags, mode_bits, prev);
            if step.err.is_some() || self.next_packet(offset) <= offset {
                step
            } else {
                self.audio_packets(
                    step.out,
                    self.next_packet(offset),
                    flags,
                    mode_bits,
                    self.packet_blockflag(
                        offset + self.audio_header_size(),
                        flags,
                        mode_bits,
                        prev,
                    ),
                )
            }
        }
    }

    /// Looks at the packet behind the current one for its block flag.
    fn peek_next_blockflag(
        &self,
        next_offset: i64,
        packet_header_size: i64,
        mode_blockflag: &Vec<bool>,
        mode_bits: usize,
    ) -> (r: Result<bool, ParseError>)
        requires
            self.wf(),
            -1 <= next_offset <= 0x1000_0000_0000,
            packet_header_size == self.audio_header_size(),
            mode_bits <= 8,
        ensures
            r == self.next_blockflag(next_offset as int, mode_blockflag@, mode_bits as nat),
    {
        if next_offset + packet_header_size <= self.data_offset + self.data_size {
            let audio_packet = Packet::new(
                self.infile.as_slice(),
                next_offset,
                self.little_endian,
                self.no_granule,
            )?;
            if audio_packet.size() > 0 {
                let start = audio_packet.offset();
                assert(0 <= start <= self.infile@.len());
                let data = slice_subrange(self.infile.as_slice(), start as usize, self.infile.len());
                assert(data@ =~= self.infile@.skip(next_offset + self.header_size()));
                let mut ss = BitStream::new(data);
                let next_mode_number = BitUintV::read_from(&mut ss, mode_bits)?;
                if next_mode_number.total as usize >= mode_blockflag.len() {
                    return Err(ParseError::RangeViolation);
                }
                return Ok(mode_blockflag[next_mode_number.total as usize]);
            }
        }
        Ok(false)
    }

    /// Rebuilds the first byte of a modified packet and hands back the
    /// block flag of its mode.
    fn write_modified_first<O: BitOggStreamT>(
        &self,
        os: &mut O,
        payload: i64,
        next_offset: i64,
        packet_header_size: i64,
        mode_blockflag: &Vec<bool>,
        mode_bits: i32,
        prev_blockflag: bool,
    ) -> (r: Result<bool, ParseError>)
        requires
            self.wf(),
            old(os).wf(),
            0 <= payload <= self.infile@.len(),
            -1 <= next_offset <= 0x1000_0000_0000,
            packet_header_size == self.audio_header_size(),
            0 <= mode_bits <= 8,
        ensures
            final(os).wf(),
            self.modified_first_byte(
                Progress::start(0, old(os).model()),
                payload as int,
                next_offset as int,
                mode_blockflag@,
                mode_bits as nat,
                prev_blockflag,
            ).matches(r, 0, final(os).model()),
            match r {
                Ok(flag) => self.mode_number(payload as int, mode_bits as nat)
                    < mode_blockflag@.len() && flag == mode_blockflag@[self.mode_number(
                    payload as int,
                    mode_bits as nat,
                ) as int],
                Err(_) => true,
            },
    {
        reveal(WwiseRiffVorbis::modified_first_byte);
        proof {
            lemma2_to64();
        }
        if mode_blockflag.len() == 0 {
            return Err(ParseError::FormatViolation);
        }
        BitUint::<1>::new(0)?.write_to(os)?;
        let data = slice_subrange(self.infile.as_slice(), payload as usize, self.infile.len());
        assert(data@ =~= self.infile@.skip(payload as int));
        let mut ss = BitStream::new(data);
        let mode_number = BitUintV::read_from(&mut ss, mode_bits as usize)?;
        mode_number.write_to(os)?;
        let remainder = BitUintV::read_from(&mut ss, 8 - mode_bits as usize)?;
        if mode_number.total as usize >= mode_blockflag.len() {
            return Err(ParseError::RangeViolation);
        }
        let flag = mode_blockflag[mode_number.total as usize];
        if flag {
            let next_blockflag = self.peek_next_blockflag(
                next_offset,
                packet_header_size,
                mode_blockflag,
                mode_bits as usize,
            )?;
            BitUint::<1>::new(if prev_blockflag { 1 } else { 0 })?.write_to(os)?;
            BitUint::<1>::new(if next_blockflag { 1 } else { 0 })?.write_to(os)?;
        }
        remainder.write_to(os)?;
        Ok(flag)
    }

    /// Reads the header of the audio packet at `offset` and hands back
    /// the size of the header, the size of the payload, where the payload
    /// starts, the granule position, and where the next packet starts.
    fn read_audio_header(&self, offset: i64) -> (r: Result<(i64, u32, i64, u32, i64), ParseError>)
        requires
            self.wf(),
        ensures
            match r {
                Ok((header_size, size, payload, granule, next)) => {
                    &&& readable(self.infile@, offset as int, self.audio_header_size())
                    &&& header_size == self.audio_header_size()
                    &&& size == self.audio_header(offset as int).size
                    &&& payload == offset + self.audio_header_size()
                    &&& granule == self.audio_header(offset as int).granule
                    &&& next == self.next_packet(offset as int)
                },
                Err(e) => e == ParseError::Io && !readable(
                    self.infile@,
                    offset as int,
                    self.audio_header_size(),
                ),
            },
    {
        if self.old_packet_headers {
            let audio_packet = Packet8::new(self.infile.as_slice(), offset, self.little_endian)?;
            Ok(
                (
                    audio_packet.header_size(),
                    audio_packet.size(),
                    audio_packet.offset(),
                    audio_packet.granule(),
                    audio_packet.next_offset(),
                ),
            )
        } else {
            let audio_packet = Packet::new(
                self.infile.as_slice(),
                offset,
                self.little_endian,
                self.no_granule,
            )?;
            Ok(
                (
                    audio_packet.header_size(),
                    audio_packet.size() as u32,
                    audio_packet.offset(),
                    audio_packet.granule(),
                    audio_packet.next_offset(),
                ),
            )
        }
    }

    /// Writes the audio packet at `offset` on a page of its own and hands
    /// back where the next packet starts and the block flag to hand on.
    fn write_audio_packet(
        &self,
        os: &mut BitOggStream,
        offset: i64,
        mode_blockflag: &Vec<bool>,
        mode_bits: i32,
        prev_blockflag: bool,
    ) -> (r: Result<(i64, bool), ParseError>)
        requires
            self.wf(),
            old(os).inv(),
            -1 <= offset < self.data_end(),
            0 <= mode_bits <= 8,
        ensures
            final(os).inv(),
            self.audio_packet(
                old(os)@,
                offset as int,
                mode_blockflag@,
                mode_bits as nat,
                prev_blockflag,
            ).matches(r, 0, final(os)@),
            match r {
                Ok((next, flag)) => {
                    &&& next == self.next_packet(offset as int)
                    &&& next > offset
                    &&& flag == self.packet_blockflag(
                        offset + self.audio_header_size(),
                        mode_blockflag@,
                        mode_bits as nat,
                        prev_blockflag,
                    )
                },
                Err(_) => true,
            },
    {
        reveal(WwiseRiffVorbis::audio_packet);
        let (packet_header_size, size, packet_payload_offset, granule, next_offset) =
            self.read_audio_header(offset)?;
        if offset + packet_header_size > self.data_offset + self.data_size {
            return Err(ParseError::SizeMismatch);
        }
        if granule == 0xFFFF_FFFF {
            os.set_granule(1);
        } else {
            os.set_granule(granule);
        }
        let flag = if self.mod_packets {
            self.write_modified_first(
                os,
                packet_payload_offset,
                next_offset,
                packet_header_size,
                mode_blockflag,
                mode_bits,
                prev_blockflag,
            )?
        } else {
            write_payload(os, self.infile.as_slice(), packet_payload_offset, 1)?;
            prev_blockflag
        };
        let rest: u32 = if size >= 1 {
            size - 1
        } else {
            0
        };
        write_payload(os, self.infile.as_slice(), packet_payload_offset + 1, rest)?;
        os.flush_page(false, next_offset == self.data_offset + self.data_size)?;
        Ok((next_offset, flag))
    }

    /// The whole stream: the header packets and the audio packets, from a
    /// writer that has written nothing.
    pub open spec fn ogg_spec(&self, lib: CodebookLibrary) -> Progress {
        let h = self.header_spec(OggModel::fresh(Seq::empty()), lib, Seq::empty(), 0);
        if h.p.err.is_some() {
            h.p
        } else {
            self.audio_packets(
                h.p.out,
                self.data_offset + self.first_audio_packet_offset,
                h.blockflags,
                h.mode_bits as nat,
                false,
            )
        }
    }

    /// Rebuilds the whole stream and hands back its bytes: the three
    /// header packets and every audio packet of the data chunk, each on a
    /// page of its own, the last page marked as such.
    #[verifier::loop_isolation(false)]
    pub fn generate_ogg(&self, codebooks: &CodebookLibrary) -> (r: Result<Vec<u8>, ParseError>)
        requires
            self.wf(),
            codebooks.wf(),
            !self.header_triad_present,
        ensures
            match r {
                Ok(bytes) => self.ogg_spec(*codebooks).err.is_none() && bytes@ == self.ogg_spec(
                    *codebooks,
                ).out.flush_page(false, false).output,
                Err(e) => self.ogg_spec(*codebooks).err == Some(e),
            },
    {
        let mut ogg_stream = BitOggStream::new(Vec::new());
        let mut mode_blockflag: Vec<bool> = Vec::new();
        let mut prev_blockflag = false;
        let mut mode_bits: i32 = 0;
        self.generate_ogg_header(&mut ogg_stream, &mut mode_blockflag, &mut mode_bits, codebooks)?;
        let mut offset = self.data_offset + self.first_audio_packet_offset as i64;
        let end = self.data_offset + self.data_size;
        let ghost whole = self.ogg_spec(*codebooks);
        while offset < end
            invariant
                -1 <= offset,
                0 <= mode_bits <= 6,
                ogg_stream.inv(),
                whole == self.audio_packets(
                    ogg_stream@,
                    offset as int,
                    mode_blockflag@,
                    mode_bits as nat,
                    prev_blockflag,
                ),
            decreases
                (if offset < end {
                    end - offset
                } else {
                    0
                }),
        {
            let (next_offset, flag) = self.write_audio_packet(
                &mut ogg_stream,
                offset,
                &mode_blockflag,
                mode_bits,
                prev_blockflag,
            )?;
            prev_blockflag = flag;
            offset = next_offset;
        }
        if offset > end {
            return Err(ParseError::SizeMismatch);
        }
        Ok(ogg_stream.finish())
    }
}

} // verus!
