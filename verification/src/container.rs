//! The RIFF container around the Vorbis data: where its chunks lie and
//! what the format chunks say.

use vstd::prelude::*;
use crate::errors::ParseError;
use crate::wwriff::{read_16, read_32, readable, u16_le, u32_at, u32_le};

verus! {

/// Whether the four bytes at `at` are `a`, `b`, `c`, `d`.
pub open spec fn has_tag(data: Seq<u8>, at: int, a: u8, b: u8, c: u8, d: u8) -> bool {
    data[at] == a && data[at + 1] == b && data[at + 2] == c && data[at + 3] == d
}

/// Whether the four bytes at `at` are `a`, `b`, `c`, `d`.
pub(crate) fn tag_is(data: &[u8], at: usize, a: u8, b: u8, c: u8, d: u8) -> (r: bool)
    requires
        at + 4 <= data@.len(),
    ensures
        r == has_tag(data@, at as int, a, b, c, d),
{
    data[at] == a && data[at + 1] == b && data[at + 2] == c && data[at + 3] == d
}

/// The offset and the size of a chunk that the container lacks.
pub const ABSENT: i64 = -1;

/// Where the chunks of a container start and how long they are; -1 for a
/// chunk that the container lacks.
#[derive(Debug, Clone, Copy)]
pub struct ChunkTable {
    pub fmt_offset: i64,
    pub cue_offset: i64,
    pub list_offset: i64,
    pub smpl_offset: i64,
    pub vorb_offset: i64,
    pub data_offset: i64,
    pub fmt_size: i64,
    pub cue_size: i64,
    pub list_size: i64,
    pub smpl_size: i64,
    pub vorb_size: i64,
    pub data_size: i64,
}

/// Whether an offset and a size are those of no chunk or of a chunk of a
/// RIFF file.
pub open spec fn chunk_range(offset: i64, size: i64) -> bool {
    (offset == ABSENT && size == ABSENT) || (20 <= offset <= 0x1_0000_0008 && 0 <= size <= 0xffff_ffff)
}

impl ChunkTable {
    /// The table of a container without chunks.
    pub open spec fn empty() -> ChunkTable {
        ChunkTable {
            fmt_offset: ABSENT,
            cue_offset: ABSENT,
            list_offset: ABSENT,
            smpl_offset: ABSENT,
            vorb_offset: ABSENT,
            data_offset: ABSENT,
            fmt_size: ABSENT,
            cue_size: ABSENT,
            list_size: ABSENT,
            smpl_size: ABSENT,
            vorb_size: ABSENT,
            data_size: ABSENT,
        }
    }

    /// Every entry is that of no chunk or of a chunk of a RIFF file.
    pub open spec fn wf(self) -> bool {
        &&& chunk_range(self.fmt_offset, self.fmt_size)
        &&& chunk_range(self.cue_offset, self.cue_size)
        &&& chunk_range(self.list_offset, self.list_size)
        &&& chunk_range(self.smpl_offset, self.smpl_size)
        &&& chunk_range(self.vorb_offset, self.vorb_size)
        &&& chunk_range(self.data_offset, self.data_size)
    }

    /// The table with the chunk whose header starts at `at` entered: a
    /// chunk of a known type replaces an earlier one of that type.
    pub open spec fn record(self, data: Seq<u8>, at: int, size: int) -> ChunkTable {
        if has_tag(data, at, 0x66, 0x6d, 0x74, 0x20) {
            ChunkTable { fmt_offset: (at + 8) as i64, fmt_size: size as i64, ..self }
        } else if has_tag(data, at, 0x63, 0x75, 0x65, 0x20) {
            ChunkTable { cue_offset: (at + 8) as i64, cue_size: size as i64, ..self }
        } else if has_tag(data, at, 0x4c, 0x49, 0x53, 0x54) {
            ChunkTable { list_offset: (at + 8) as i64, list_size: size as i64, ..self }
        } else if has_tag(data, at, 0x73, 0x6d, 0x70, 0x6c) {
            ChunkTable { smpl_offset: (at + 8) as i64, smpl_size: size as i64, ..self }
        } else if has_tag(data, at, 0x76, 0x6f, 0x72, 0x62) {
            ChunkTable { vorb_offset: (at + 8) as i64, vorb_size: size as i64, ..self }
        } else if has_tag(data, at, 0x64, 0x61, 0x74, 0x61) {
            ChunkTable { data_offset: (at + 8) as i64, data_size: size as i64, ..self }
        } else {
            self
        }
    }
}

/// The chunks from `at` to the end of the RIFF data, entered in `table`.
/// Each chunk has a header of eight bytes, a type and a size, and the
/// last chunk must end with the RIFF data.
pub open spec fn walk_chunks(
    data: Seq<u8>,
    little_endian: bool,
    riff_size: int,
    at: int,
    table: ChunkTable,
) -> Result<ChunkTable, ParseError>
    decreases
        (if at < riff_size {
            riff_size - at
        } else {
            0
        }),
{
    if at > riff_size {
        Err(ParseError::SizeMismatch)
    } else if at == riff_size {
        Ok(table)
    } else if at + 8 > riff_size {
        Err(ParseError::SizeMismatch)
    } else {
        let size = u32_at(data, at + 4, little_endian) as int;
        walk_chunks(data, little_endian, riff_size, at + 8 + size, table.record(data, at, size))
    }
}

/// Walks the chunks of a container.
pub(crate) fn scan_chunks(data: &[u8], little_endian: bool, riff_size: i64) -> (r: Result<
    ChunkTable,
    ParseError,
>)
    requires
        8 <= riff_size <= data@.len(),
        riff_size <= 0x1_0000_0008,
    ensures
        r == walk_chunks(data@, little_endian, riff_size as int, 12, ChunkTable::empty()),
        r.is_ok() ==> r.unwrap().wf(),
{
    let mut table = ChunkTable {
        fmt_offset: ABSENT,
        cue_offset: ABSENT,
        list_offset: ABSENT,
        smpl_offset: ABSENT,
        vorb_offset: ABSENT,
        data_offset: ABSENT,
        fmt_size: ABSENT,
        cue_size: ABSENT,
        list_size: ABSENT,
        smpl_size: ABSENT,
        vorb_size: ABSENT,
        data_size: ABSENT,
    };
    let mut chunk_offset: i64 = 12;
    let total = data.len();
    while chunk_offset < riff_size
        invariant
            total == data@.len(),
            12 <= chunk_offset <= 0x2_0000_0010,
            8 <= riff_size <= data@.len(),
            riff_size <= 0x1_0000_0008,
            table.wf(),
            walk_chunks(data@, little_endian, riff_size as int, 12, ChunkTable::empty())
                == walk_chunks(data@, little_endian, riff_size as int, chunk_offset as int, table),
        decreases
            (if chunk_offset < riff_size {
                riff_size - chunk_offset
            } else {
                0
            }),
    {
        if chunk_offset + 8 > riff_size {
            return Err(ParseError::SizeMismatch);
        }
        let at = chunk_offset as usize;
        let ghost before = table;
        let chunk_size = match read_32(data, chunk_offset + 4, little_endian) {
            Ok(v) => v as i64,
            Err(e) => {
                return Err(e);
            },
        };
        if tag_is(data, at, 0x66, 0x6d, 0x74, 0x20) {
            table.fmt_offset = chunk_offset + 8;
            table.fmt_size = chunk_size;
        } else if tag_is(data, at, 0x63, 0x75, 0x65, 0x20) {
            table.cue_offset = chunk_offset + 8;
            table.cue_size = chunk_size;
        } else if tag_is(data, at, 0x4c, 0x49, 0x53, 0x54) {
            table.list_offset = chunk_offset + 8;
            table.list_size = chunk_size;
        } else if tag_is(data, at, 0x73, 0x6d, 0x70, 0x6c) {
            table.smpl_offset = chunk_offset + 8;
            table.smpl_size = chunk_size;
        } else if tag_is(data, at, 0x76, 0x6f, 0x72, 0x62) {
            table.vorb_offset = chunk_offset + 8;
            table.vorb_size = chunk_size;
        } else if tag_is(data, at, 0x64, 0x61, 0x74, 0x61) {
            table.data_offset = chunk_offset + 8;
            table.data_size = chunk_size;
        }
        assert(table == before.record(data@, chunk_offset as int, chunk_size as int));
        chunk_offset = chunk_offset + 8 + chunk_size;
    }
    if chunk_offset > riff_size {
        return Err(ParseError::SizeMismatch);
    }
    Ok(table)
}

/// What the format chunk says.
#[derive(Debug, Clone, Copy)]
pub struct FormatInfo {
    pub channels: u16,
    pub sample_rate: u32,
    pub avg_bytes_per_second: u32,
    pub ext_unk: u16,
    pub subtype: u32,
}

/// Whether the sixteen bytes at `at` are the signature that a format
/// chunk of 0x28 bytes ends with.
pub open spec fn has_signature(data: Seq<u8>, at: int) -> bool {
    &&& has_tag(data, at, 1, 0, 0, 0)
    &&& has_tag(data, at + 4, 0, 0, 0x10, 0)
    &&& has_tag(data, at + 8, 0x80, 0, 0, 0xAA)
    &&& has_tag(data, at + 12, 0, 0x38, 0x9b, 0x71)
}

/// The first thing wrong with the format chunk at `at`, if anything: the
/// codec must be 0xFFFF, block alignment and bits per sample zero, the
/// length of the extension what is left of the chunk behind 0x12 bytes,
/// and a chunk of 0x28 bytes must end with the signature. What lies past
/// the end of the data cannot be read.
pub open spec fn format_fault(data: Seq<u8>, at: int, size: int) -> Option<ParseError> {
    if !readable(data, at, 2) {
        Some(ParseError::Io)
    } else if u16_le(data, at) != 0xFFFF {
        Some(ParseError::FormatViolation)
    } else if !readable(data, at, 14) {
        Some(ParseError::Io)
    } else if u16_le(data, at + 12) != 0 {
        Some(ParseError::FormatViolation)
    } else if !readable(data, at, 16) {
        Some(ParseError::Io)
    } else if u16_le(data, at + 14) != 0 {
        Some(ParseError::FormatViolation)
    } else if !readable(data, at, 18) {
        Some(ParseError::Io)
    } else if u16_le(data, at + 16) != (size - 0x12) % 0x1_0000 {
        Some(ParseError::FormatViolation)
    } else if size - 0x12 >= 2 && !readable(data, at, 20) {
        Some(ParseError::Io)
    } else if size - 0x12 >= 6 && !readable(data, at, 24) {
        Some(ParseError::Io)
    } else if size == 0x28 && !readable(data, at, 40) {
        Some(ParseError::Io)
    } else if size == 0x28 && !has_signature(data, at + 24) {
        Some(ParseError::FormatViolation)
    } else {
        None
    }
}

/// What the format chunk at `at` says.
pub open spec fn format_info(data: Seq<u8>, at: int, size: int) -> FormatInfo {
    FormatInfo {
        channels: u16_le(data, at + 2) as u16,
        sample_rate: u32_le(data, at + 4) as u32,
        avg_bytes_per_second: u32_le(data, at + 8) as u32,
        ext_unk: if size - 0x12 >= 2 {
            u16_le(data, at + 18) as u16
        } else {
            0
        },
        subtype: if size - 0x12 >= 6 {
            u32_le(data, at + 20) as u32
        } else {
            0
        },
    }
}

/// Reads the format chunk at `at`.
pub(crate) fn read_format(data: &[u8], at: i64, size: i64) -> (r: Result<FormatInfo, ParseError>)
    requires
        20 <= at <= 0x1_0000_0008,
        0 <= size <= 0xffff_ffff,
    ensures
        r == match format_fault(data@, at as int, size as int) {
            Some(e) => Err::<FormatInfo, ParseError>(e),
            None => Ok::<FormatInfo, ParseError>(format_info(data@, at as int, size as int)),
        },
{
    if read_16(data, at, true)? != 0xFFFF {
        return Err(ParseError::FormatViolation);
    }
    let channels = read_16(data, at + 2, true)?;
    let sample_rate = read_32(data, at + 4, true)?;
    let avg_bytes_per_second = read_32(data, at + 8, true)?;
    if read_16(data, at + 12, true)? != 0 {
        return Err(ParseError::FormatViolation);
    }
    if read_16(data, at + 14, true)? != 0 {
        return Err(ParseError::FormatViolation);
    }
    let extra_len = read_16(data, at + 16, true)?;
    let extra = size - 0x12;
    let wrapped: i64 = if extra < 0 {
        extra + 0x1_0000
    } else {
        extra % 0x1_0000
    };
    if wrapped != extra_len as i64 {
        return Err(ParseError::FormatViolation);
    }
    let mut ext_unk: u16 = 0;
    let mut subtype: u32 = 0;
    if extra >= 2 {
        ext_unk = read_16(data, at + 18, true)?;
        if extra >= 6 {
            subtype = read_32(data, at + 20, true)?;
        }
    }
    if size == 0x28 {
        if at as u64 + 40 > data.len() as u64 {
            return Err(ParseError::Io);
        }
        let start = (at + 24) as usize;
        if !(tag_is(data, start, 1, 0, 0, 0) && tag_is(data, start + 4, 0, 0, 0x10, 0) && tag_is(
            data,
            start + 8,
            0x80,
            0,
            0,
            0xAA,
        ) && tag_is(data, start + 12, 0, 0x38, 0x9b, 0x71)) {
            return Err(ParseError::FormatViolation);
        }
    }
    Ok(FormatInfo { channels, sample_rate, avg_bytes_per_second, ext_unk, subtype })
}


/// What the sample chunk says of the loop.
#[derive(Debug, Clone, Copy)]
pub struct LoopInfo {
    pub loop_count: u32,
    pub loop_start: u32,
    pub loop_end: u32,
}

/// The first thing wrong with the sample chunk at `at`, if there is one:
/// it must name exactly one loop.
pub open spec fn sample_fault(data: Seq<u8>, at: int) -> Option<ParseError> {
    if at == ABSENT {
        None
    } else if !readable(data, at + 0x1C, 4) {
        Some(ParseError::Io)
    } else if u32_le(data, at + 0x1C) != 1 {
        Some(ParseError::FormatViolation)
    } else if !readable(data, at + 0x2C, 8) {
        Some(ParseError::Io)
    } else {
        None
    }
}

/// What the sample chunk at `at` says of the loop, if there is one.
pub open spec fn sample_info(data: Seq<u8>, at: int) -> LoopInfo {
    if at == ABSENT {
        LoopInfo { loop_count: 0, loop_start: 0, loop_end: 0 }
    } else {
        LoopInfo {
            loop_count: u32_le(data, at + 0x1C) as u32,
            loop_start: u32_le(data, at + 0x2C) as u32,
            loop_end: u32_le(data, at + 0x30) as u32,
        }
    }
}

/// Reads the sample chunk at `at`, if there is one.
pub(crate) fn read_sample(data: &[u8], at: i64) -> (r: Result<LoopInfo, ParseError>)
    requires
        at == ABSENT || 20 <= at <= 0x1_0000_0008,
    ensures
        r == match sample_fault(data@, at as int) {
            Some(e) => Err::<LoopInfo, ParseError>(e),
            None => Ok::<LoopInfo, ParseError>(sample_info(data@, at as int)),
        },
{
    if at == ABSENT {
        return Ok(LoopInfo { loop_count: 0, loop_start: 0, loop_end: 0 });
    }
    let loop_count = read_32(data, at + 0x1C, true)?;
    if loop_count != 1 {
        return Err(ParseError::FormatViolation);
    }
    let loop_start = read_32(data, at + 0x2C, true)?;
    let loop_end = read_32(data, at + 0x30, true)?;
    Ok(LoopInfo { loop_count, loop_start, loop_end })
}

/// What the Vorbis chunk says.
#[derive(Debug, Clone, Copy)]
pub struct VorbInfo {
    pub sample_count: u32,
    pub setup_packet_offset: u32,
    pub first_audio_packet_offset: u32,
    pub uid: u32,
    pub blocksize_0_pow: u8,
    pub blocksize_1_pow: u8,
    pub no_granule: bool,
    pub header_triad_present: bool,
    pub old_packet_headers: bool,
}

/// Whether a Vorbis chunk of this size has the short layout, in which
/// packets carry no granule position.
pub open spec fn short_vorb(size: int) -> bool {
    size == ABSENT || size == 0x2A
}

/// Whether a Vorbis chunk of this size comes with the three header
/// packets and the old packet headers.
pub open spec fn triad_vorb(size: int) -> bool {
    size == 0x28 || size == 0x2C
}

/// Where the offsets of the setup packet and of the first audio packet
/// lie in a Vorbis chunk at `at`.
pub open spec fn vorb_offsets_at(at: int, size: int) -> int {
    if short_vorb(size) {
        at + 0x10
    } else {
        at + 0x18
    }
}

/// Where the identifier and the block sizes lie in a Vorbis chunk at
/// `at`.
pub open spec fn vorb_blocks_at(at: int, size: int) -> int {
    if short_vorb(size) {
        at + 0x24
    } else {
        at + 0x2C
    }
}

/// The first thing wrong with the Vorbis chunk at `at`, if anything: its
/// size must be a known one.
pub open spec fn vorb_fault(data: Seq<u8>, at: int, size: int) -> Option<ParseError> {
    if !(short_vorb(size) || triad_vorb(size) || size == 0x32 || size == 0x34) {
        Some(ParseError::FormatViolation)
    } else if !readable(data, at, 4) {
        Some(ParseError::Io)
    } else if short_vorb(size) && !readable(data, at + 4, 4) {
        Some(ParseError::Io)
    } else if !readable(data, vorb_offsets_at(at, size), 8) {
        Some(ParseError::Io)
    } else if !triad_vorb(size) && !readable(data, vorb_blocks_at(at, size), 6) {
        Some(ParseError::Io)
    } else {
        None
    }
}

/// What the Vorbis chunk at `at` says.
pub open spec fn vorb_info(data: Seq<u8>, at: int, size: int) -> VorbInfo {
    VorbInfo {
        sample_count: u32_le(data, at) as u32,
        setup_packet_offset: u32_le(data, vorb_offsets_at(at, size)) as u32,
        first_audio_packet_offset: u32_le(data, vorb_offsets_at(at, size) + 4) as u32,
        uid: if triad_vorb(size) {
            0
        } else {
            u32_le(data, vorb_blocks_at(at, size)) as u32
        },
        blocksize_0_pow: if triad_vorb(size) {
            0
        } else {
            data[vorb_blocks_at(at, size) + 4]
        },
        blocksize_1_pow: if triad_vorb(size) {
            0
        } else {
            data[vorb_blocks_at(at, size) + 5]
        },
        no_granule: short_vorb(size),
        header_triad_present: triad_vorb(size),
        old_packet_headers: triad_vorb(size),
    }
}

/// Reads the Vorbis chunk at `at`.
pub(crate) fn read_vorb(data: &[u8], at: i64, size: i64) -> (r: Result<VorbInfo, ParseError>)
    requires
        20 <= at <= 0x1_0000_0100,
    ensures
        r == match vorb_fault(data@, at as int, size as int) {
            Some(e) => Err::<VorbInfo, ParseError>(e),
            None => Ok::<VorbInfo, ParseError>(vorb_info(data@, at as int, size as int)),
        },
{
    let short = size == ABSENT || size == 0x2A;
    let triad = size == 0x28 || size == 0x2C;
    if !(short || triad || size == 0x32 || size == 0x34) {
        return Err(ParseError::FormatViolation);
    }
    let sample_count = read_32(data, at, true)?;
    let offsets_at = if short {
        read_32(data, at + 4, true)?;
        at + 0x10
    } else {
        at + 0x18
    };
    let setup_packet_offset = read_32(data, offsets_at, true)?;
    let first_audio_packet_offset = read_32(data, offsets_at + 4, true)?;
    let mut uid: u32 = 0;
    let mut blocksize_0_pow: u8 = 0;
    let mut blocksize_1_pow: u8 = 0;
    if !triad {
        let blocks_at = if short {
            at + 0x24
        } else {
            at + 0x2C
        };
        uid = read_32(data, blocks_at, true)?;
        if blocks_at as u64 + 6 > data.len() as u64 {
            return Err(ParseError::Io);
        }
        blocksize_0_pow = data[(blocks_at + 4) as usize];
        blocksize_1_pow = data[(blocks_at + 5) as usize];
    }
    Ok(
        VorbInfo {
            sample_count,
            setup_packet_offset,
            first_audio_packet_offset,
            uid,
            blocksize_0_pow,
            blocksize_1_pow,
            no_granule: short,
            header_triad_present: triad,
            old_packet_headers: triad,
        },
    )
}

/// Where the loop of a container ends, as the converter counts it: at
/// the last sample where the container gives no end, else one behind the
/// end that it gives.
pub open spec fn loop_end_of(raw: LoopInfo, sample_count: u32) -> int {
    if raw.loop_count == 0 {
        raw.loop_end as int
    } else if raw.loop_end == 0 {
        sample_count as int
    } else {
        raw.loop_end + 1
    }
}

/// Whether the loop of a container lies within its samples.
pub open spec fn loop_in_range(raw: LoopInfo, sample_count: u32) -> bool {
    raw.loop_count == 0 || (raw.loop_start < sample_count && loop_end_of(raw, sample_count)
        <= sample_count && raw.loop_start <= loop_end_of(raw, sample_count))
}

/// Checks the loop of a container against its samples and hands back
/// where it ends.
pub(crate) fn check_loop(raw: LoopInfo, sample_count: u32) -> (r: Result<u32, ParseError>)
    ensures
        match r {
            Ok(end) => loop_in_range(raw, sample_count) && end == loop_end_of(raw, sample_count),
            Err(e) => e == ParseError::RangeViolation && !loop_in_range(raw, sample_count),
        },
{
    if raw.loop_count == 0 {
        return Ok(raw.loop_end);
    }
    let end: u32 = if raw.loop_end == 0 {
        sample_count
    } else if raw.loop_end == u32::MAX {
        return Err(ParseError::RangeViolation);
    } else {
        raw.loop_end + 1
    };
    if raw.loop_start >= sample_count || end > sample_count || raw.loop_start > end {
        return Err(ParseError::RangeViolation);
    }
    Ok(end)
}

} // verus!
