use wem_converter::bit_stream::{checksum, BitOggStream, BitOggStreamT, BitStream, BitUint};
use wem_converter::codebook::CodebookLibrary;
use wem_converter::errors::ParseError;
use wem_converter::wwriff::{
    read_16, read_16_be, read_16_le, read_32, read_32_be, read_32_le, ForcePacketFormat, Packet,
    Packet8, VorbisPacketHeader, WwiseRiffVorbis,
};

fn put(bits: &mut Vec<bool>, value: u32, width: usize) {
    for i in 0..width {
        bits.push((value >> i) & 1 == 1);
    }
}

fn pack(bits: &[bool]) -> Vec<u8> {
    let mut out = vec![0u8; (bits.len() + 7) / 8];
    for (i, &b) in bits.iter().enumerate() {
        if b {
            out[i / 8] |= 1 << (i % 8);
        }
    }
    out
}

/// Splits a stream of pages into (header, lacing, payload) triples.
fn split_pages(bytes: &[u8]) -> Vec<(Vec<u8>, Vec<u8>, Vec<u8>)> {
    let mut pages = Vec::new();
    let mut at = 0;
    while at < bytes.len() {
        let header = bytes[at..at + 27].to_vec();
        let segments = header[26] as usize;
        let lacing = bytes[at + 27..at + 27 + segments].to_vec();
        let size: usize = lacing.iter().map(|&l| l as usize).sum();
        let payload = bytes[at + 27 + segments..at + 27 + segments + size].to_vec();
        let mut page = bytes[at..at + 27 + segments + size].to_vec();
        let stored = u32::from_le_bytes([page[22], page[23], page[24], page[25]]);
        for b in &mut page[22..26] {
            *b = 0;
        }
        assert_eq!(checksum(&page, page.len() as i32), stored);
        at += 27 + segments + size;
        pages.push((header, lacing, payload));
    }
    pages
}

/// A packed codebook with one dimension and one entry: 26 bits.
fn packed_codebook() -> Vec<u8> {
    let mut bits = Vec::new();
    put(&mut bits, 1, 4);
    put(&mut bits, 1, 14);
    put(&mut bits, 1, 1);
    put(&mut bits, 1, 5);
    put(&mut bits, 1, 1);
    put(&mut bits, 0, 1);
    pack(&bits)
}

/// A codebook file that holds the packed codebook as codebook 0.
fn codebook_file() -> Vec<u8> {
    let mut file = packed_codebook();
    let end = file.len() as u32;
    file.extend_from_slice(&0u32.to_le_bytes());
    file.extend_from_slice(&end.to_le_bytes());
    file
}

/// A stripped setup packet with one codebook of the library, one floor,
/// one residue, one mapping and `modes` modes, whose block flags are
/// given: 203 bits for one mode.
fn stripped_setup(codebook_id: u32, flags: &[bool]) -> Vec<u8> {
    let mut st = Vec::new();
    put(&mut st, 0, 8);
    put(&mut st, codebook_id, 10);
    // one floor: one partition of class 0; class 0 has one dimension, no
    // subclasses and book 0; positions of four bits
    put(&mut st, 0, 6);
    put(&mut st, 1, 5);
    put(&mut st, 0, 4);
    put(&mut st, 0, 3);
    put(&mut st, 0, 2);
    put(&mut st, 1, 8);
    put(&mut st, 0, 2);
    put(&mut st, 4, 4);
    put(&mut st, 5, 4);
    // one residue of type 0 with one classification and cascade 0
    put(&mut st, 0, 6);
    put(&mut st, 0, 2);
    put(&mut st, 0, 24);
    put(&mut st, 16, 24);
    put(&mut st, 7, 24);
    put(&mut st, 0, 6);
    put(&mut st, 0, 8);
    put(&mut st, 0, 3);
    put(&mut st, 0, 1);
    // one mapping without coupling and with one submap
    put(&mut st, 0, 6);
    put(&mut st, 0, 1);
    put(&mut st, 0, 1);
    put(&mut st, 0, 2);
    put(&mut st, 0, 8);
    put(&mut st, 0, 8);
    put(&mut st, 0, 8);
    // the modes
    put(&mut st, flags.len() as u32 - 1, 6);
    for &f in flags {
        put(&mut st, f as u32, 1);
        put(&mut st, 0, 8);
    }
    pack(&st)
}

/// A container with a format chunk of 0x18 bytes, a Vorbis chunk of 0x2A
/// bytes and a data chunk that holds the setup packet and the audio
/// packets, each behind a header of two bytes.
fn container(setup: &[u8], audio: &[Vec<u8>], smpl: Option<(u32, u32)>) -> Vec<u8> {
    let mut data = Vec::new();
    data.extend_from_slice(&(setup.len() as u16).to_le_bytes());
    data.extend_from_slice(setup);
    let first_audio = data.len() as u32;
    for packet in audio {
        data.extend_from_slice(&(packet.len() as u16).to_le_bytes());
        data.extend_from_slice(packet);
    }
    let mut fmt = Vec::new();
    fmt.extend_from_slice(&0xffffu16.to_le_bytes());
    fmt.extend_from_slice(&1u16.to_le_bytes());
    fmt.extend_from_slice(&48000u32.to_le_bytes());
    fmt.extend_from_slice(&12000u32.to_le_bytes());
    fmt.extend_from_slice(&0u16.to_le_bytes());
    fmt.extend_from_slice(&0u16.to_le_bytes());
    fmt.extend_from_slice(&6u16.to_le_bytes());
    fmt.extend_from_slice(&0x0102u16.to_le_bytes());
    fmt.extend_from_slice(&4u32.to_le_bytes());
    assert_eq!(fmt.len(), 0x18);
    let mut vorb = vec![0u8; 0x2a];
    vorb[0..4].copy_from_slice(&1000u32.to_le_bytes());
    vorb[4..8].copy_from_slice(&0x4au32.to_le_bytes());
    vorb[0x10..0x14].copy_from_slice(&0u32.to_le_bytes());
    vorb[0x14..0x18].copy_from_slice(&first_audio.to_le_bytes());
    vorb[0x24..0x28].copy_from_slice(&0xabcd_ef01u32.to_le_bytes());
    vorb[0x28] = 8;
    vorb[0x29] = 11;
    let mut body = Vec::new();
    body.extend_from_slice(b"WAVE");
    body.extend_from_slice(b"fmt ");
    body.extend_from_slice(&(fmt.len() as u32).to_le_bytes());
    body.extend_from_slice(&fmt);
    if let Some((start, end)) = smpl {
        let mut chunk = vec![0u8; 0x34];
        chunk[0x1c..0x20].copy_from_slice(&1u32.to_le_bytes());
        chunk[0x2c..0x30].copy_from_slice(&start.to_le_bytes());
        chunk[0x30..0x34].copy_from_slice(&end.to_le_bytes());
        body.extend_from_slice(b"smpl");
        body.extend_from_slice(&(chunk.len() as u32).to_le_bytes());
        body.extend_from_slice(&chunk);
    }
    body.extend_from_slice(b"vorb");
    body.extend_from_slice(&(vorb.len() as u32).to_le_bytes());
    body.extend_from_slice(&vorb);
    body.extend_from_slice(b"data");
    body.extend_from_slice(&(data.len() as u32).to_le_bytes());
    body.extend_from_slice(&data);
    let mut file = Vec::new();
    file.extend_from_slice(b"RIFF");
    file.extend_from_slice(&(body.len() as u32).to_le_bytes());
    file.extend_from_slice(&body);
    file
}

fn open(file: Vec<u8>, force: ForcePacketFormat) -> WwiseRiffVorbis {
    WwiseRiffVorbis::new(file, "input.wem", "codebooks.bin", false, false, force).unwrap()
}

const IDENT_PAGE: [u8; 58] = [
    79, 103, 103, 83, 0, 2, 0, 0, 0, 0, 0, 0, 0, 0, 1, 0, 0, 0, 0, 0, 0, 0, 227, 22, 193, 193, 1,
    30, 1, 118, 111, 114, 98, 105, 115, 0, 0, 0, 0, 1, 128, 187, 0, 0, 0, 0, 0, 0, 0, 119, 1, 0, 0,
    0, 0, 0, 184, 1,
];

const CANONICAL_SETUP: [u8; 54] = [
    5, 118, 111, 114, 98, 105, 115, 0, 66, 67, 86, 1, 0, 1, 0, 0, 67, 0, 0, 0, 128, 0, 128, 0, 32,
    0, 42, 0, 0, 0, 0, 0, 0, 2, 0, 224, 0, 0, 0, 0, 0, 0, 0, 0, 0, 0, 0, 0, 0, 0, 0, 0, 0, 1,
];

#[test]
fn numbers_are_read_in_either_byte_order() {
    let data = [0x12u8, 0x34, 0x56, 0x78, 0x9a];
    assert_eq!(read_16_le(&data, 0), Ok(0x3412));
    assert_eq!(read_16_be(&data, 0), Ok(0x1234));
    assert_eq!(read_16_le(&data, 3), Ok(0x9a78));
    assert_eq!(read_16_be(&data, 3), Ok(0x789a));
    assert_eq!(read_32_le(&data, 0), Ok(0x7856_3412));
    assert_eq!(read_32_be(&data, 0), Ok(0x1234_5678));
    assert_eq!(read_32_le(&data, 1), Ok(0x9a78_5634));
    assert_eq!(read_32_be(&data, 1), Ok(0x3456_789a));
    assert_eq!(read_16(&data, 1, true), Ok(0x5634));
    assert_eq!(read_16(&data, 1, false), Ok(0x3456));
    assert_eq!(read_32(&data, 1, true), Ok(0x9a78_5634));
    assert_eq!(read_32(&data, 1, false), Ok(0x3456_789a));
}

#[test]
fn reading_past_the_end_of_the_bytes_is_an_io_error() {
    let data = [1u8, 2, 3, 4];
    assert_eq!(read_16_le(&data, 3), Err(ParseError::Io));
    assert_eq!(read_16_be(&data, 4), Err(ParseError::Io));
    assert_eq!(read_16_le(&data, usize::MAX), Err(ParseError::Io));
    assert_eq!(read_32_le(&data, 1), Err(ParseError::Io));
    assert_eq!(read_32_be(&data, 5), Err(ParseError::Io));
    assert_eq!(read_32_be(&data, usize::MAX - 1), Err(ParseError::Io));
    assert_eq!(read_16(&data, -1, true), Err(ParseError::Io));
    assert_eq!(read_32(&data, -4, false), Err(ParseError::Io));
    assert_eq!(read_32(&data, i64::MAX, false), Err(ParseError::Io));
    assert_eq!(read_32(&data, 0, false), Ok(0x0102_0304));
}

#[test]
fn a_modern_packet_header_with_granule() {
    let data = [0u8, 0x05, 0x00, 0x44, 0x33, 0x22, 0x11, 9, 9, 9, 9, 9];
    let p = Packet::new(&data, 1, true, false).unwrap();
    assert_eq!(p.header_size(), 6);
    assert_eq!(p.size(), 5);
    assert_eq!(p.granule(), 0x1122_3344);
    assert_eq!(p.offset(), 7);
    assert_eq!(p.next_offset(), 12);
    let p = Packet::new(&data, 1, false, false).unwrap();
    assert_eq!(p.size(), 0x0500);
    assert_eq!(p.granule(), 0x4433_2211);
    assert_eq!(p.next_offset(), 7 + 0x0500);
}

#[test]
fn a_modern_packet_header_without_granule() {
    let data = [0x03u8, 0x01, 7, 7, 7];
    let p = Packet::new(&data, 0, true, true).unwrap();
    assert_eq!(p.header_size(), 2);
    assert_eq!(p.size(), 0x0103);
    assert_eq!(p.granule(), 0);
    assert_eq!(p.offset(), 2);
    assert_eq!(p.next_offset(), 2 + 0x0103);
    assert!(matches!(Packet::new(&data, 4, true, true), Err(ParseError::Io)));
    assert!(matches!(Packet::new(&data, 0, true, false), Err(ParseError::Io)));
    assert!(matches!(Packet::new(&data, -1, true, true), Err(ParseError::Io)));
    assert!(Packet::new(&data, 3, true, true).is_ok());
}

#[test]
fn an_old_packet_header() {
    let data = [9u8, 9, 0x10, 0, 0, 0, 0xff, 0xff, 0xff, 0xff, 1, 2];
    let p = Packet8::new(&data, 2, true).unwrap();
    assert_eq!(p.header_size(), 8);
    assert_eq!(p.size(), 16);
    assert_eq!(p.granule(), 0xffff_ffff);
    assert_eq!(p.offset(), 10);
    assert_eq!(p.next_offset(), 26);
    let p = Packet8::new(&data, 2, false).unwrap();
    assert_eq!(p.size(), 0x1000_0000);
    assert_eq!(p.next_offset(), 10 + 0x1000_0000);
    assert!(matches!(Packet8::new(&data, 5, true), Err(ParseError::Io)));
    assert!(matches!(Packet8::new(&data, -8, true), Err(ParseError::Io)));
}

#[test]
fn a_header_packet_opens_with_its_type_and_the_tag() {
    let mut os = BitOggStream::new(Vec::new());
    VorbisPacketHeader::new(5).write_to(&mut os).unwrap();
    let pages = split_pages(&os.finish());
    assert_eq!(pages[0].2, b"\x05vorbis".to_vec());
    let mut os = BitOggStream::new(Vec::new());
    os.write_all(&vec![0u8; 65020]).unwrap();
    assert_eq!(VorbisPacketHeader::new(1).write_to(&mut os), Err(ParseError::BufferExhausted));
}

#[test]
fn a_container_is_read() {
    let setup = stripped_setup(0, &[false]);
    let file = container(&setup, &[vec![1, 2, 3]], None);
    let w = WwiseRiffVorbis::new(
        file.clone(),
        "input.wem",
        "codebooks.bin",
        true,
        true,
        ForcePacketFormat::NoModPackets,
    )
    .unwrap();
    assert_eq!(w.file_name, "input.wem");
    assert_eq!(w.codebooks_name, "codebooks.bin");
    assert_eq!(w.infile, file);
    assert_eq!(w.file_size, file.len() as i64);
    assert!(w.little_endian);
    assert_eq!(w.riff_size, file.len() as i64);
    assert_eq!((w.fmt_offset, w.fmt_size), (20, 0x18));
    assert_eq!((w.vorb_offset, w.vorb_size), (20 + 0x18 + 8, 0x2a));
    assert_eq!((w.data_offset, w.data_size), (20 + 0x18 + 8 + 0x2a + 8, 2 + 26 + 2 + 3));
    assert_eq!((w.cue_offset, w.cue_size), (-1, -1));
    assert_eq!((w.list_offset, w.list_size), (-1, -1));
    assert_eq!((w.smpl_offset, w.smpl_size), (-1, -1));
    assert_eq!(w.channels, 1);
    assert_eq!(w.sample_rate, 48000);
    assert_eq!(w.avg_bytes_per_second, 12000);
    assert_eq!(w.ext_unk, 0x0102);
    assert_eq!(w.subtype, 4);
    assert_eq!(w.cue_count, 0);
    assert_eq!((w.loop_count, w.loop_start, w.loop_end), (0, 0, 0));
    assert_eq!(w.sample_count, 1000);
    assert_eq!(w.setup_packet_offset, 0);
    assert_eq!(w.first_audio_packet_offset, 28);
    assert_eq!(w.uid, 0xabcd_ef01);
    assert_eq!((w.blocksize_0_pow, w.blocksize_1_pow), (8, 11));
    assert!(w.inline_codebooks && w.full_setup);
    assert!(w.no_granule && !w.old_packet_headers && !w.header_triad_present);
    assert!(!w.mod_packets);
    let w = open(file, ForcePacketFormat::ModPackets);
    assert!(w.mod_packets && !w.inline_codebooks && !w.full_setup);
}

#[test]
fn a_container_with_a_loop() {
    let setup = stripped_setup(0, &[false]);
    let w = open(container(&setup, &[vec![1]], Some((10, 99))), ForcePacketFormat::ModPackets);
    assert_eq!((w.loop_count, w.loop_start, w.loop_end), (1, 10, 100));
    assert_eq!(w.smpl_offset, 20 + 0x18 + 8);
    let w = open(container(&setup, &[vec![1]], Some((10, 0))), ForcePacketFormat::ModPackets);
    assert_eq!((w.loop_count, w.loop_start, w.loop_end), (1, 10, 1000));
    let w = open(container(&setup, &[vec![1]], Some((0, 999))), ForcePacketFormat::ModPackets);
    assert_eq!((w.loop_start, w.loop_end), (0, 1000));
    for (start, end) in [(1000u32, 0u32), (10, 1000), (50, 20), (0, u32::MAX)] {
        let r = WwiseRiffVorbis::new(
            container(&setup, &[vec![1]], Some((start, end))),
            "a",
            "b",
            false,
            false,
            ForcePacketFormat::ModPackets,
        );
        assert!(matches!(r, Err(ParseError::RangeViolation)));
    }
}

fn fault_of(file: Vec<u8>) -> ParseError {
    match WwiseRiffVorbis::new(file, "a", "b", false, false, ForcePacketFormat::ModPackets) {
        Ok(_) => panic!("the container was accepted"),
        Err(e) => e,
    }
}

#[test]
fn malformed_containers_are_refused() {
    let good = container(&stripped_setup(0, &[false]), &[vec![1, 2, 3]], None);
    assert_eq!(fault_of(good[..11].to_vec()), ParseError::FormatViolation);
    let mut bad = good.clone();
    bad[0] = b'X';
    assert_eq!(fault_of(bad), ParseError::FormatViolation);
    // the RIFF data are longer than the file
    assert_eq!(fault_of(good[..good.len() - 1].to_vec()), ParseError::SizeMismatch);
    let mut bad = good.clone();
    bad[8] = b'w';
    assert_eq!(fault_of(bad), ParseError::FormatViolation);
    // the last chunk runs past the RIFF data
    let mut bad = good.clone();
    let n = bad.len();
    bad[n - 37] += 1;
    assert_eq!(&bad[n - 41..n - 37], b"data");
    assert_eq!(fault_of(bad), ParseError::SizeMismatch);
    // a chunk header of less than eight bytes at the end
    let mut bad = good.clone();
    bad.extend_from_slice(&[0, 0, 0, 0]);
    let size = (bad.len() - 8) as u32;
    bad[4..8].copy_from_slice(&size.to_le_bytes());
    assert_eq!(fault_of(bad), ParseError::SizeMismatch);
    // no data chunk
    let mut bad = good.clone();
    bad[n - 41] = b'D';
    assert_eq!(fault_of(bad), ParseError::FormatViolation);
    // a wrong codec
    let mut bad = good.clone();
    bad[20] = 0xfe;
    assert_eq!(fault_of(bad), ParseError::FormatViolation);
    // a block alignment
    let mut bad = good.clone();
    bad[32] = 1;
    assert_eq!(fault_of(bad), ParseError::FormatViolation);
    // bits per sample
    let mut bad = good.clone();
    bad[34] = 16;
    assert_eq!(fault_of(bad), ParseError::FormatViolation);
    // a wrong length of the extension
    let mut bad = good.clone();
    bad[36] = 5;
    assert_eq!(fault_of(bad), ParseError::FormatViolation);
    // a Vorbis chunk of an unknown size
    let mut bad = good.clone();
    bad[20 + 0x18 + 4] = 0x2b;
    bad.push(0);
    let size = (bad.len() - 8) as u32;
    bad[4..8].copy_from_slice(&size.to_le_bytes());
    let at = bad.len() - 38;
    bad.copy_within(at - 4..at + 37, at - 3);
    assert_eq!(fault_of(bad), ParseError::FormatViolation);
}

#[test]
fn a_big_endian_container_is_told_by_its_tag() {
    let mut file = container(&stripped_setup(0, &[false]), &[vec![1, 2, 3]], None);
    file[3] = b'X';
    // the sizes are now read most significant byte first and point out
    // of the file
    assert_eq!(fault_of(file.clone()), ParseError::SizeMismatch);
    let size = (file.len() - 8) as u32;
    file[4..8].copy_from_slice(&size.to_be_bytes());
    for at in [16usize, 16 + 0x18 + 8, 16 + 0x18 + 8 + 0x2a + 8] {
        file[at..at + 4].reverse();
    }
    let w = open(file, ForcePacketFormat::NoModPackets);
    assert!(!w.little_endian);
    assert_eq!(w.channels, 1);
    assert_eq!(w.data_size, 33);
}

#[test]
fn the_description_of_a_container() {
    let setup = stripped_setup(0, &[false]);
    let w = open(container(&setup, &[vec![1]], Some((10, 99))), ForcePacketFormat::ModPackets);
    let text = String::from_utf8(w.print_info()).unwrap();
    assert_eq!(
        text,
        "RIFF WAVE 1 channel 48000 Hz 96000 bps\n\
         loop from 10 to 100\n\
         2 byte packet headers, no granule\n\
         stripped setup header\n\
         external codebooks (codebooks.bin)\n\
         modified Vorbis packets\n"
    );
    let mut w = open(container(&setup, &[vec![1]], None), ForcePacketFormat::NoModPackets);
    w.channels = 2;
    w.little_endian = false;
    w.no_granule = false;
    w.full_setup = true;
    w.inline_codebooks = true;
    w.avg_bytes_per_second = u32::MAX;
    w.sample_rate = 0;
    let text = String::from_utf8(w.print_info()).unwrap();
    assert_eq!(
        text,
        "RIFX WAVE 2 channels 0 Hz 34359738360 bps\n\
         6 byte packet headers\n\
         full setup header\n\
         inline codebooks\n\
         standard Vorbis packets\n"
    );
    w.old_packet_headers = true;
    w.header_triad_present = true;
    w.full_setup = false;
    w.inline_codebooks = false;
    let text = String::from_utf8(w.print_info()).unwrap();
    assert_eq!(
        text,
        "RIFX WAVE 2 channels 0 Hz 34359738360 bps\n\
         8 byte (old) packet headers\n\
         Vorbis header triad present\n\
         full setup header\n\
         inline codebooks\n\
         standard Vorbis packets\n"
    );
}

#[test]
fn the_header_packets_of_a_stripped_stream() {
    let setup = stripped_setup(0, &[false]);
    assert_eq!(setup.len(), 26);
    let w = open(container(&setup, &[vec![1, 2, 3]], None), ForcePacketFormat::ModPackets);
    let lib = CodebookLibrary::new_from_file(&codebook_file()).unwrap();
    let mut os = BitOggStream::new(Vec::new());
    let mut flags = vec![true, true];
    let mut mode_bits = 9;
    w.generate_ogg_header(&mut os, &mut flags, &mut mode_bits, &lib).unwrap();
    assert_eq!(flags, vec![false]);
    assert_eq!(mode_bits, 0);
    let bytes = os.finish();
    let pages = split_pages(&bytes);
    assert_eq!(pages.len(), 3);
    assert_eq!(&bytes[..58], &IDENT_PAGE[..]);
    for (i, p) in pages.iter().enumerate() {
        assert_eq!(&p.0[..4], b"OggS");
        assert_eq!(p.0[5], if i == 0 { 2 } else { 0 });
        assert_eq!(u32::from_le_bytes([p.0[18], p.0[19], p.0[20], p.0[21]]), i as u32);
    }
    let vendor = b"converted from Audiokinetic Wwise by wem_converter 0.1.0";
    let mut comment = b"\x03vorbis".to_vec();
    comment.extend_from_slice(&(vendor.len() as u32).to_le_bytes());
    comment.extend_from_slice(vendor);
    comment.extend_from_slice(&[0, 0, 0, 0, 1]);
    assert_eq!(pages[1].2, comment);
    assert_eq!(&pages[1].0[22..26], &[182, 211, 102, 71]);
    assert_eq!(pages[2].2, CANONICAL_SETUP.to_vec());
}

#[test]
fn the_rebuilt_setup_packet_reads_as_a_standard_one() {
    let setup = stripped_setup(0, &[false]);
    let w = open(container(&setup, &[vec![1, 2, 3]], None), ForcePacketFormat::ModPackets);
    let lib = CodebookLibrary::new_from_file(&codebook_file()).unwrap();
    let mut os = BitOggStream::new(Vec::new());
    let mut flags = Vec::new();
    let mut mode_bits = 0;
    w.generate_ogg_header(&mut os, &mut flags, &mut mode_bits, &lib).unwrap();
    let pages = split_pages(&os.finish());
    let packet = &pages[2].2;
    assert_eq!(&packet[..7], b"\x05vorbis");
    let mut s = BitStream::new(&packet[7..]);
    fn next<const N: usize>(s: &mut BitStream) -> u32 {
        BitUint::<N>::read_from(s).unwrap().total
    }
    // the codebooks
    assert_eq!(next::<8>(&mut s), 0);
    assert_eq!(next::<24>(&mut s), 0x564342);
    assert_eq!(next::<16>(&mut s), 1);
    assert_eq!(next::<24>(&mut s), 1);
    assert_eq!(next::<1>(&mut s), 1);
    assert_eq!(next::<5>(&mut s), 1);
    assert_eq!(next::<1>(&mut s), 1);
    assert_eq!(next::<4>(&mut s), 0);
    // the time-domain transforms
    assert_eq!(next::<6>(&mut s), 0);
    assert_eq!(next::<16>(&mut s), 0);
    // the floor
    assert_eq!(next::<6>(&mut s), 0);
    assert_eq!(next::<16>(&mut s), 1);
    assert_eq!(next::<5>(&mut s), 1);
    assert_eq!(next::<4>(&mut s), 0);
    assert_eq!(next::<3>(&mut s), 0);
    assert_eq!(next::<2>(&mut s), 0);
    assert_eq!(next::<8>(&mut s), 1);
    assert_eq!(next::<2>(&mut s), 0);
    assert_eq!(next::<4>(&mut s), 4);
    assert_eq!(next::<4>(&mut s), 5);
    // the residue
    assert_eq!(next::<6>(&mut s), 0);
    assert_eq!(next::<16>(&mut s), 0);
    assert_eq!(next::<24>(&mut s), 0);
    assert_eq!(next::<24>(&mut s), 16);
    assert_eq!(next::<24>(&mut s), 7);
    assert_eq!(next::<6>(&mut s), 0);
    assert_eq!(next::<8>(&mut s), 0);
    assert_eq!(next::<3>(&mut s), 0);
    assert_eq!(next::<1>(&mut s), 0);
    // the mapping
    assert_eq!(next::<6>(&mut s), 0);
    assert_eq!(next::<16>(&mut s), 0);
    assert_eq!(next::<1>(&mut s), 0);
    assert_eq!(next::<1>(&mut s), 0);
    assert_eq!(next::<2>(&mut s), 0);
    assert_eq!(next::<8>(&mut s), 0);
    assert_eq!(next::<8>(&mut s), 0);
    assert_eq!(next::<8>(&mut s), 0);
    // the mode
    assert_eq!(next::<6>(&mut s), 0);
    assert_eq!(next::<1>(&mut s), 0);
    assert_eq!(next::<16>(&mut s), 0);
    assert_eq!(next::<16>(&mut s), 0);
    assert_eq!(next::<8>(&mut s), 0);
    // the framing bit closes the packet within its last byte
    assert_eq!(next::<1>(&mut s), 1);
    assert_eq!(s.get_total_bits_read(), 369);
    assert_eq!((s.get_total_bits_read() + 7) / 8, (packet.len() - 7) as u64);
}

#[test]
fn a_loop_is_named_in_the_comment_packet() {
    let setup = stripped_setup(0, &[false]);
    let w = open(container(&setup, &[vec![1]], Some((10, 998))), ForcePacketFormat::ModPackets);
    let lib = CodebookLibrary::new_from_file(&codebook_file()).unwrap();
    let mut os = BitOggStream::new(Vec::new());
    let mut flags = Vec::new();
    let mut mode_bits = 0;
    w.generate_ogg_header(&mut os, &mut flags, &mut mode_bits, &lib).unwrap();
    let pages = split_pages(&os.finish());
    let vendor = b"converted from Audiokinetic Wwise by wem_converter 0.1.0";
    let mut comment = b"\x03vorbis".to_vec();
    comment.extend_from_slice(&(vendor.len() as u32).to_le_bytes());
    comment.extend_from_slice(vendor);
    comment.extend_from_slice(&2u32.to_le_bytes());
    comment.extend_from_slice(&12u32.to_le_bytes());
    comment.extend_from_slice(b"LoopStart=10");
    comment.extend_from_slice(&11u32.to_le_bytes());
    comment.extend_from_slice(b"LoopEnd=999");
    comment.push(1);
    assert_eq!(pages[1].2, comment);
}

#[test]
fn a_minimal_container_becomes_an_ogg_stream() {
    let setup = stripped_setup(0, &[false]);
    let w = open(container(&setup, &[vec![0x3c, 0x5a, 0xff]], None), ForcePacketFormat::ModPackets);
    let lib = CodebookLibrary::new_from_file(&codebook_file()).unwrap();
    let bytes = w.generate_ogg(&lib).unwrap();
    assert_eq!(&bytes[..4], &[0x4f, 0x67, 0x67, 0x53]);
    let pages = split_pages(&bytes);
    assert_eq!(pages.len(), 4);
    for (i, p) in pages.iter().enumerate() {
        assert_eq!(&p.0[..4], &[0x4f, 0x67, 0x67, 0x53]);
        assert_eq!(u32::from_le_bytes([p.0[18], p.0[19], p.0[20], p.0[21]]), i as u32);
    }
    let flags: Vec<u8> = pages.iter().map(|p| p.0[5]).collect();
    assert_eq!(flags, vec![2, 0, 0, 4]);
    assert_eq!(pages[3].0[5] & 4, 4);
    assert_eq!(&bytes[..58], &IDENT_PAGE[..]);
    assert_eq!(pages[2].2, CANONICAL_SETUP.to_vec());
    // the audio packet: a zero bit, then the 24 bits of the packet
    let mut bits = Vec::new();
    put(&mut bits, 0, 1);
    put(&mut bits, 0x3c, 8);
    put(&mut bits, 0x5a, 8);
    put(&mut bits, 0xff, 8);
    assert_eq!(pages[3].2, pack(&bits));
    assert_eq!(pages[3].2, vec![0x78, 0xb4, 0xfe, 0x01]);
    assert_eq!(&pages[3].0[6..10], &[0, 0, 0, 0]);
}

#[test]
fn packets_that_are_not_modified_are_copied() {
    let setup = stripped_setup(0, &[false]);
    let audio = vec![vec![1u8, 2, 3], vec![4u8], vec![5u8, 6]];
    let w = open(container(&setup, &audio, None), ForcePacketFormat::NoModPackets);
    let lib = CodebookLibrary::new_from_file(&codebook_file()).unwrap();
    let pages = split_pages(&w.generate_ogg(&lib).unwrap());
    assert_eq!(pages.len(), 6);
    assert_eq!(pages[3].2, vec![1, 2, 3]);
    assert_eq!(pages[4].2, vec![4]);
    assert_eq!(pages[5].2, vec![5, 6]);
    let flags: Vec<u8> = pages.iter().map(|p| p.0[5]).collect();
    assert_eq!(flags, vec![2, 0, 0, 0, 0, 4]);
}

#[test]
fn long_windows_get_the_flags_of_their_neighbours() {
    // two modes: mode 0 short, mode 1 long; a mode number has one bit
    let setup = stripped_setup(0, &[false, true]);
    // packets: long, short, long, long
    let audio = vec![vec![0b0000_0011u8, 0xaa], vec![0b0000_0100u8], vec![0x01u8], vec![0xffu8, 0x0f]];
    let w = open(container(&setup, &audio, None), ForcePacketFormat::ModPackets);
    let lib = CodebookLibrary::new_from_file(&codebook_file()).unwrap();
    let mut os = BitOggStream::new(Vec::new());
    let mut flags = Vec::new();
    let mut mode_bits = 0;
    w.generate_ogg_header(&mut os, &mut flags, &mut mode_bits, &lib).unwrap();
    assert_eq!(flags, vec![false, true]);
    assert_eq!(mode_bits, 1);
    let pages = split_pages(&w.generate_ogg(&lib).unwrap());
    assert_eq!(pages.len(), 7);
    // long after nothing, before short: type 0, mode 1, previous 0, next 0
    let mut bits = Vec::new();
    put(&mut bits, 0, 1);
    put(&mut bits, 1, 1);
    put(&mut bits, 0, 1);
    put(&mut bits, 0, 1);
    put(&mut bits, 0b0000_001, 7);
    put(&mut bits, 0xaa, 8);
    assert_eq!(pages[3].2, pack(&bits));
    // short: type 0, mode 0, the rest of the byte
    let mut bits = Vec::new();
    put(&mut bits, 0, 1);
    put(&mut bits, 0, 1);
    put(&mut bits, 0b0000_010, 7);
    assert_eq!(pages[4].2, pack(&bits));
    // long after short, before long: previous 0, next 1
    let mut bits = Vec::new();
    put(&mut bits, 0, 1);
    put(&mut bits, 1, 1);
    put(&mut bits, 0, 1);
    put(&mut bits, 1, 1);
    put(&mut bits, 0, 7);
    assert_eq!(pages[5].2, pack(&bits));
    // long after long, the last packet: previous 1, next 0
    let mut bits = Vec::new();
    put(&mut bits, 0, 1);
    put(&mut bits, 1, 1);
    put(&mut bits, 1, 1);
    put(&mut bits, 0, 1);
    put(&mut bits, 0x7f, 7);
    put(&mut bits, 0x0f, 8);
    assert_eq!(pages[6].2, pack(&bits));
    assert_eq!(pages[6].0[5], 4);
}

#[test]
fn a_granule_position_of_all_ones_becomes_one() {
    let setup = stripped_setup(0, &[false]);
    let mut w = open(container(&setup, &[vec![1, 2]], None), ForcePacketFormat::NoModPackets);
    // rewrite the data chunk with headers of six bytes
    let mut data = Vec::new();
    data.extend_from_slice(&(setup.len() as u16).to_le_bytes());
    data.extend_from_slice(&0u32.to_le_bytes());
    data.extend_from_slice(&setup);
    let first = data.len() as u32;
    data.extend_from_slice(&2u16.to_le_bytes());
    data.extend_from_slice(&0xffff_ffffu32.to_le_bytes());
    data.extend_from_slice(&[1, 2]);
    data.extend_from_slice(&1u16.to_le_bytes());
    data.extend_from_slice(&0x0001_0000u32.to_le_bytes());
    data.extend_from_slice(&[3]);
    let start = w.data_offset as usize;
    w.infile.truncate(start);
    w.infile.extend_from_slice(&data);
    w.data_size = data.len() as i64;
    w.no_granule = false;
    w.first_audio_packet_offset = first;
    let lib = CodebookLibrary::new_from_file(&codebook_file()).unwrap();
    let pages = split_pages(&w.generate_ogg(&lib).unwrap());
    assert_eq!(pages.len(), 5);
    assert_eq!(&pages[3].0[6..10], &[1, 0, 0, 0]);
    assert_eq!(&pages[4].0[6..10], &[0, 0, 1, 0]);
    assert_eq!(pages[3].2, vec![1, 2]);
    assert_eq!(pages[4].2, vec![3]);
}

#[test]
fn old_packet_headers_have_eight_bytes() {
    let setup = stripped_setup(0, &[false]);
    let mut w = open(container(&setup, &[vec![1, 2]], None), ForcePacketFormat::NoModPackets);
    let audio_at = (w.data_offset + w.first_audio_packet_offset as i64) as usize;
    w.infile.truncate(audio_at);
    w.infile.extend_from_slice(&3u32.to_le_bytes());
    w.infile.extend_from_slice(&77u32.to_le_bytes());
    w.infile.extend_from_slice(&[7, 8, 9]);
    w.data_size = w.first_audio_packet_offset as i64 + 11;
    w.old_packet_headers = true;
    let lib = CodebookLibrary::new_from_file(&codebook_file()).unwrap();
    let pages = split_pages(&w.generate_ogg(&lib).unwrap());
    assert_eq!(pages.len(), 4);
    assert_eq!(pages[3].2, vec![7, 8, 9]);
    assert_eq!(&pages[3].0[6..10], &[77, 0, 0, 0]);
    assert_eq!(pages[3].0[5], 4);
}

#[test]
fn a_full_setup_packet_is_copied() {
    // a count of one codebook, a canonical codebook, and bits that are
    // copied as they are
    let mut st = Vec::new();
    put(&mut st, 0, 8);
    put(&mut st, 0x564342, 24);
    put(&mut st, 1, 16);
    put(&mut st, 1, 24);
    put(&mut st, 1, 1);
    put(&mut st, 1, 5);
    put(&mut st, 1, 1);
    put(&mut st, 0, 4);
    put(&mut st, 0x2d, 6);
    put(&mut st, 0xa5c3, 16);
    put(&mut st, 1, 1);
    let setup = pack(&st);
    let file = container(&setup, &[vec![9, 8]], None);
    let w = WwiseRiffVorbis::new(file, "a", "b", true, true, ForcePacketFormat::NoModPackets)
        .unwrap();
    let lib = CodebookLibrary::new_empty();
    let mut os = BitOggStream::new(Vec::new());
    let mut flags = vec![true];
    let mut mode_bits = 3;
    w.generate_ogg_header(&mut os, &mut flags, &mut mode_bits, &lib).unwrap();
    assert_eq!(flags, vec![true]);
    assert_eq!(mode_bits, 3);
    let pages = split_pages(&os.finish());
    let packet = &pages[2].2;
    let mut s = BitStream::new(&packet[7..]);
    fn next<const N: usize>(s: &mut BitStream) -> u32 {
        BitUint::<N>::read_from(s).unwrap().total
    }
    assert_eq!(next::<8>(&mut s), 0);
    assert_eq!(next::<24>(&mut s), 0x564342);
    assert_eq!(next::<16>(&mut s), 1);
    assert_eq!(next::<24>(&mut s), 1);
    assert_eq!(next::<1>(&mut s), 1);
    assert_eq!(next::<5>(&mut s), 1);
    assert_eq!(next::<1>(&mut s), 1);
    assert_eq!(next::<4>(&mut s), 0);
    assert_eq!(next::<6>(&mut s), 0);
    assert_eq!(next::<16>(&mut s), 0);
    assert_eq!(next::<6>(&mut s), 0x2d);
    assert_eq!(next::<16>(&mut s), 0xa5c3);
    assert_eq!(next::<1>(&mut s), 1);
    // modified packets need the block flags that a full setup packet
    // does not give
    let mut w = w;
    assert_eq!(split_pages(&w.generate_ogg(&lib).unwrap()).len(), 4);
    w.mod_packets = true;
    assert_eq!(w.generate_ogg(&lib), Err(ParseError::FormatViolation));
}

fn header_fault(w: &WwiseRiffVorbis, lib: &CodebookLibrary) -> ParseError {
    let mut os = BitOggStream::new(Vec::new());
    let mut flags = Vec::new();
    let mut mode_bits = 0;
    match w.generate_ogg_header(&mut os, &mut flags, &mut mode_bits, lib) {
        Ok(()) => panic!("the header was accepted"),
        Err(e) => e,
    }
}

#[test]
fn faults_of_the_setup_packet_are_reported() {
    let lib = CodebookLibrary::new_from_file(&codebook_file()).unwrap();
    let setup = stripped_setup(0, &[false]);
    let good = container(&setup, &[vec![1, 2, 3]], None);
    // a codebook that the library lacks
    let w = open(container(&stripped_setup(5, &[false]), &[vec![1]], None), ForcePacketFormat::ModPackets);
    assert_eq!(header_fault(&w, &lib), ParseError::RangeViolation);
    // full codebooks where indices were expected
    let mut st = Vec::new();
    put(&mut st, 0, 8);
    put(&mut st, 0x564342, 24);
    put(&mut st, 0, 32);
    let w = open(container(&pack(&st), &[vec![1]], None), ForcePacketFormat::ModPackets);
    assert_eq!(header_fault(&w, &lib), ParseError::FormatViolation);
    // the index 0x342 without the rest of the sync pattern
    let mut st = Vec::new();
    put(&mut st, 0, 8);
    put(&mut st, 0x342, 10);
    put(&mut st, 0, 32);
    let w = open(container(&pack(&st), &[vec![1]], None), ForcePacketFormat::ModPackets);
    assert_eq!(header_fault(&w, &lib), ParseError::RangeViolation);
    // the index 0x342 at the end of the input
    let mut st = Vec::new();
    put(&mut st, 0, 8);
    put(&mut st, 0x342, 10);
    let mut w = open(container(&pack(&st), &[], None), ForcePacketFormat::ModPackets);
    let end = w.infile.len() - 1;
    w.infile.truncate(end);
    assert_eq!(header_fault(&w, &lib), ParseError::EndOfInput);
    // codebooks in the stream, but a stripped setup packet
    let mut w = open(good.clone(), ForcePacketFormat::ModPackets);
    w.inline_codebooks = true;
    assert_eq!(header_fault(&w, &lib), ParseError::RangeViolation);
    // a setup packet that is longer than it says
    let mut w = open(good.clone(), ForcePacketFormat::ModPackets);
    let at = w.data_offset as usize;
    w.infile[at] = 25;
    assert_eq!(header_fault(&w, &lib), ParseError::SizeMismatch);
    // a first audio packet that does not follow the setup packet
    let mut w = open(good.clone(), ForcePacketFormat::ModPackets);
    w.first_audio_packet_offset += 1;
    assert_eq!(header_fault(&w, &lib), ParseError::SizeMismatch);
    // a setup packet past the end of the file
    let mut w = open(good.clone(), ForcePacketFormat::ModPackets);
    w.setup_packet_offset = 1000;
    assert_eq!(header_fault(&w, &lib), ParseError::Io);
    // a setup packet with a granule position
    let mut w = open(good.clone(), ForcePacketFormat::ModPackets);
    w.no_granule = false;
    w.infile[at + 2] = 1;
    assert_eq!(header_fault(&w, &lib), ParseError::FormatViolation);
    // a setup packet that ends early
    let mut w = open(good.clone(), ForcePacketFormat::ModPackets);
    w.infile.truncate(at + 10);
    assert_eq!(header_fault(&w, &lib), ParseError::EndOfInput);
}

/// A stripped setup packet in which one field is replaced.
fn setup_with(change: usize, value: u32, width: usize) -> Vec<u8> {
    let setup = stripped_setup(0, &[false]);
    let mut bits: Vec<bool> = (0..203).map(|i| (setup[i / 8] >> (i % 8)) & 1 == 1).collect();
    for i in 0..width {
        bits[change + i] = (value >> i) & 1 == 1;
    }
    pack(&bits)
}

#[test]
fn references_out_of_range_are_refused() {
    let lib = CodebookLibrary::new_from_file(&codebook_file()).unwrap();
    let cases: [(usize, u32, usize, ParseError); 8] = [
        // the subclass book of the floor: book 1 of one codebook
        (38, 2, 8, ParseError::RangeViolation),
        // the type of the residue
        (62, 3, 2, ParseError::FormatViolation),
        // the class book of the residue
        (142, 1, 8, ParseError::RangeViolation),
        // the reserved bits of the mapping
        (162, 1, 2, ParseError::FormatViolation),
        // the floor of the submap
        (172, 1, 8, ParseError::RangeViolation),
        // the residue of the submap
        (180, 1, 8, ParseError::RangeViolation),
        // the mapping of the mode
        (195, 1, 8, ParseError::RangeViolation),
        // coupling in a stream with one channel
        (161, 1, 1, ParseError::RangeViolation),
    ];
    for (at, value, width, fault) in cases {
        let w = open(
            container(&setup_with(at, value, width), &[vec![1]], None),
            ForcePacketFormat::ModPackets,
        );
        assert_eq!(header_fault(&w, &lib), fault);
    }
}

#[test]
fn faults_of_the_audio_packets_are_reported() {
    let lib = CodebookLibrary::new_from_file(&codebook_file()).unwrap();
    let setup = stripped_setup(0, &[false, true, false]);
    let good = container(&setup, &[vec![0x01u8, 2], vec![0u8]], None);
    let w = open(good.clone(), ForcePacketFormat::ModPackets);
    assert_eq!(split_pages(&w.generate_ogg(&lib).unwrap()).len(), 5);
    // a mode number that names no mode
    let mut w = open(good.clone(), ForcePacketFormat::ModPackets);
    let first = (w.data_offset + w.first_audio_packet_offset as i64) as usize;
    w.infile[first + 2] = 0x03;
    assert_eq!(w.generate_ogg(&lib), Err(ParseError::RangeViolation));
    // a packet behind a long window that names no mode
    let mut w = open(good.clone(), ForcePacketFormat::ModPackets);
    w.infile[first + 6] = 0x03;
    assert_eq!(w.generate_ogg(&lib), Err(ParseError::RangeViolation));
    // a packet that runs past the data chunk
    let mut w = open(good.clone(), ForcePacketFormat::ModPackets);
    w.data_size -= 1;
    assert_eq!(w.generate_ogg(&lib), Err(ParseError::SizeMismatch));
    // a header that runs past the data chunk
    let mut w = open(good.clone(), ForcePacketFormat::NoModPackets);
    w.data_size += 1;
    w.infile.push(0);
    w.infile.push(0);
    assert_eq!(w.generate_ogg(&lib), Err(ParseError::SizeMismatch));
    // payload past the end of the file
    let mut w = open(good.clone(), ForcePacketFormat::NoModPackets);
    let end = w.infile.len() - 1;
    w.infile.truncate(end);
    assert_eq!(w.generate_ogg(&lib), Err(ParseError::Io));
    // a header past the end of the file
    let mut w = open(good.clone(), ForcePacketFormat::NoModPackets);
    w.data_size += 4;
    assert_eq!(w.generate_ogg(&lib), Err(ParseError::Io));
    // a first byte past the end of the file
    let mut w = open(good.clone(), ForcePacketFormat::ModPackets);
    w.infile.truncate(end);
    assert_eq!(w.generate_ogg(&lib), Err(ParseError::EndOfInput));
}

#[test]
fn a_packet_without_payload_still_gives_one_byte() {
    let setup = stripped_setup(0, &[false]);
    let w = open(container(&setup, &[vec![], vec![7u8]], None), ForcePacketFormat::NoModPackets);
    let lib = CodebookLibrary::new_from_file(&codebook_file()).unwrap();
    let pages = split_pages(&w.generate_ogg(&lib).unwrap());
    assert_eq!(pages.len(), 5);
    // the byte behind the empty packet is the size of the next one
    assert_eq!(pages[3].2, vec![1]);
    assert_eq!(pages[4].2, vec![7]);
}

#[test]
fn a_stream_without_audio_packets_has_three_pages() {
    let setup = stripped_setup(0, &[false]);
    let w = open(container(&setup, &[], None), ForcePacketFormat::ModPackets);
    let lib = CodebookLibrary::new_from_file(&codebook_file()).unwrap();
    let pages = split_pages(&w.generate_ogg(&lib).unwrap());
    assert_eq!(pages.len(), 3);
}
