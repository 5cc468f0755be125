use wem_converter::bit_stream::{
    checksum, write_16_le, write_32_le, BitOggStream, BitOggStreamT, BitStream, BitUint, BitUintV,
};
use wem_converter::errors::ParseError;

/// Splits a stream of pages into (header, lacing, payload) triples.
fn split_pages(bytes: &[u8]) -> Vec<(Vec<u8>, Vec<u8>, Vec<u8>)> {
    let mut pages = Vec::new();
    let mut at = 0;
    while at < bytes.len() {
        let header = bytes[at..at + 27].to_vec();
        let segments = header[26] as usize;
        let lacing = bytes[at + 27..at + 27 + segments].to_vec();
        let size: usize = lacing.iter().map(|&l| l as usize).sum();
        let payload = bytes[at + 27 + segments..at + 27 + segments + size].to_vec();
        at += 27 + segments + size;
        pages.push((header, lacing, payload));
    }
    pages
}

#[test]
fn bits_come_least_significant_first() {
    let data = [0b0000_0101u8, 0x80];
    let mut stream = BitStream::new(&data);
    let mut bits = Vec::new();
    for _ in 0..16 {
        bits.push(stream.get_bit().unwrap());
    }
    let mut expected = vec![false; 16];
    expected[0] = true;
    expected[2] = true;
    expected[15] = true;
    assert_eq!(bits, expected);
    assert_eq!(stream.get_total_bits_read(), 16);
}

#[test]
fn the_position_is_that_of_the_byte_of_the_last_bit() {
    let data = [0u8, 0, 0];
    let mut stream = BitStream::new(&data);
    stream.get_bit().unwrap();
    assert_eq!(stream.get_position(), 0);
    for _ in 0..7 {
        stream.get_bit().unwrap();
    }
    assert_eq!(stream.get_position(), 0);
    stream.get_bit().unwrap();
    assert_eq!(stream.get_position(), 1);
    for _ in 0..15 {
        stream.get_bit().unwrap();
    }
    assert_eq!(stream.get_position(), 2);
}

#[test]
fn reading_past_the_end_is_end_of_input() {
    let data = [0xffu8];
    let mut stream = BitStream::new(&data);
    for _ in 0..8 {
        assert_eq!(stream.get_bit(), Ok(true));
    }
    assert_eq!(stream.get_bit(), Err(ParseError::EndOfInput));
    assert_eq!(stream.get_total_bits_read(), 8);
    let empty: [u8; 0] = [];
    let mut none = BitStream::new(&empty);
    assert_eq!(none.get_bit(), Err(ParseError::EndOfInput));
}

#[test]
fn fixed_width_value_checks_its_range() {
    assert_eq!(BitUint::<4>::new(15).unwrap().total, 15);
    assert!(matches!(BitUint::<4>::new(16), Err(ParseError::RangeViolation)));
    assert_eq!(BitUint::<32>::new(u32::MAX).unwrap().total, u32::MAX);
    assert!(matches!(BitUint::<33>::new(0), Err(ParseError::RangeViolation)));
    assert_eq!(BitUint::<1>::new(1).unwrap().total, 1);
    assert!(matches!(BitUint::<1>::new(2), Err(ParseError::RangeViolation)));
}

#[test]
fn variable_width_value_checks_its_range() {
    let v = BitUintV::new(10, 1023).unwrap();
    assert_eq!((v.size, v.total), (10, 1023));
    assert!(matches!(BitUintV::new(10, 1024), Err(ParseError::RangeViolation)));
    assert_eq!(BitUintV::new(32, u32::MAX).unwrap().total, u32::MAX);
    assert_eq!(BitUintV::new(0, 0).unwrap().total, 0);
    assert!(matches!(BitUintV::new(0, 1), Err(ParseError::RangeViolation)));
    assert!(matches!(BitUintV::new(33, 0), Err(ParseError::RangeViolation)));
}

#[test]
fn fields_are_read_least_significant_bit_first() {
    // 0x2d = 0b00101101: four low bits 0b1101 = 13, then 0b0010 = 2.
    let data = [0x2du8, 0x01, 0x02];
    let mut stream = BitStream::new(&data);
    assert_eq!(BitUint::<4>::read_from(&mut stream).unwrap().total, 13);
    assert_eq!(BitUint::<4>::read_from(&mut stream).unwrap().total, 2);
    assert_eq!(BitUintV::read_from(&mut stream, 16).unwrap().total, 0x0201);
    assert_eq!(stream.get_total_bits_read(), 24);
    assert!(matches!(BitUint::<1>::read_from(&mut stream), Err(ParseError::EndOfInput)));
}

#[test]
fn a_field_that_runs_past_the_end_is_end_of_input() {
    let data = [0xaau8];
    let mut stream = BitStream::new(&data);
    assert!(matches!(BitUint::<9>::read_from(&mut stream), Err(ParseError::EndOfInput)));
    let mut wide = BitStream::new(&data);
    assert!(matches!(BitUintV::read_from(&mut wide, 33), Err(ParseError::RangeViolation)));
    assert_eq!(wide.get_total_bits_read(), 0);
}

#[test]
fn write_then_read_gives_the_value_back() {
    let cases: [(usize, u32); 8] = [
        (1, 1),
        (3, 5),
        (5, 17),
        (8, 0xa5),
        (13, 0x1abc),
        (24, 0x564342),
        (31, 0x7fff_fffe),
        (32, 0xdead_beef),
    ];
    let mut os = BitOggStream::new(Vec::new());
    for (width, value) in cases {
        BitUintV::new(width, value).unwrap().write_to(&mut os).unwrap();
    }
    os.flush_page(false, false).unwrap();
    let pages = split_pages(&os.finish());
    assert_eq!(pages.len(), 1);
    let mut stream = BitStream::new(&pages[0].2);
    for (width, value) in cases {
        assert_eq!(BitUintV::read_from(&mut stream, width).unwrap().total, value);
    }
}

#[test]
fn fixed_width_write_then_read_gives_the_value_back() {
    let mut os = BitOggStream::new(Vec::new());
    BitUint::<7>::new(0x55).unwrap().write_to(&mut os).unwrap();
    BitUint::<17>::new(0x1f00f).unwrap().write_to(&mut os).unwrap();
    let pages = split_pages(&os.finish());
    let mut stream = BitStream::new(&pages[0].2);
    assert_eq!(BitUint::<7>::read_from(&mut stream).unwrap().total, 0x55);
    assert_eq!(BitUint::<17>::read_from(&mut stream).unwrap().total, 0x1f00f);
}

#[test]
fn whole_bytes_come_out_the_same_either_way() {
    for (width, value) in [(8u8, 0xa5u32), (16, 0xbeef), (24, 0x564342), (32, 0x0102_0304)] {
        let mut fast = BitOggStream::new(Vec::new());
        fast.write_bits(value, width).unwrap();
        let mut slow = BitOggStream::new(Vec::new());
        BitUintV::new(width as usize, value).unwrap().write_to(&mut slow).unwrap();
        let a = fast.finish();
        let b = slow.finish();
        assert_eq!(a, b);
        let pages = split_pages(&a);
        assert_eq!(pages[0].2, value.to_le_bytes()[..(width / 8) as usize].to_vec());
    }
}

#[test]
fn whole_bytes_pass_pending_bits() {
    // Three pending bits stay pending while two whole bytes go straight
    // into the payload.
    let mut os = BitOggStream::new(Vec::new());
    os.write_bits(0b101, 3).unwrap();
    os.write_bits(0xbeef, 16).unwrap();
    let pages = split_pages(&os.finish());
    assert_eq!(pages[0].2, vec![0xef, 0xbe, 0b101]);
}

#[test]
fn write_bits_of_no_bits_writes_nothing() {
    let mut os = BitOggStream::new(Vec::new());
    os.write_bits(0xffff_ffff, 0).unwrap();
    assert_eq!(os.finish(), Vec::<u8>::new());
}

#[test]
fn checksum_of_the_header_template() {
    let mut template = vec![0u8; 27];
    template[..4].copy_from_slice(b"OggS");
    template[5] = 2;
    assert_eq!(checksum(&template, 27), 0x7d65_d742);
}

#[test]
fn checksum_of_known_texts() {
    assert_eq!(checksum(b"123456789", 9), 0x89a1_897f);
    assert_eq!(checksum(b"", 0), 0);
    assert_eq!(checksum(&[0u8; 16], 16), 0);
    assert_eq!(checksum(&[1u8], 1), 0x04c1_1db7);
    assert_eq!(checksum(&[0xffu8], 1), 0xb1f7_40b4);
}

#[test]
fn checksum_covers_the_given_number_of_bytes() {
    assert_eq!(checksum(b"123456789abc", 9), 0x89a1_897f);
    assert_eq!(checksum(b"123456789", 100), 0x89a1_897f);
    assert_eq!(checksum(b"123456789", -1), 0x89a1_897f);
}

#[test]
fn little_endian_stores() {
    let mut four = [0u8; 4];
    write_32_le(&mut four, 0x0102_0304);
    assert_eq!(four, [4, 3, 2, 1]);
    let mut two = [0u8; 2];
    write_16_le(&mut two, 0xabcd);
    assert_eq!(two, [0xcd, 0xab]);
}

#[test]
fn a_page_has_header_lacing_payload_and_checksum() {
    let mut os = BitOggStream::new(Vec::new());
    os.set_granule(0x0102_0304);
    os.write_all(&[1, 2, 3]).unwrap();
    os.flush_page(false, false).unwrap();
    let bytes = os.finish();
    assert_eq!(
        bytes,
        vec![
            79, 103, 103, 83, 0, 2, 4, 3, 2, 1, 0, 0, 0, 0, 1, 0, 0, 0, 0, 0, 0, 0, 198, 198, 16,
            170, 1, 3, 1, 2, 3
        ]
    );
}

#[test]
fn the_checksum_field_holds_the_checksum_of_the_page_without_it() {
    let mut os = BitOggStream::new(Vec::new());
    os.write_all(b"some payload bytes").unwrap();
    os.flush_page(false, true).unwrap();
    let mut page = os.finish();
    let stored = u32::from_le_bytes([page[22], page[23], page[24], page[25]]);
    for b in &mut page[22..26] {
        *b = 0;
    }
    assert_eq!(checksum(&page, page.len() as i32), stored);
}

#[test]
fn pages_are_numbered_and_flagged() {
    let mut os = BitOggStream::new(vec![0xee]);
    os.write_all(&[1]).unwrap();
    os.flush_page(true, false).unwrap();
    os.set_granule(7);
    os.write_all(&[2]).unwrap();
    os.flush_page(false, false).unwrap();
    os.write_all(&[3]).unwrap();
    os.flush_page(false, true).unwrap();
    let bytes = os.finish();
    assert_eq!(bytes[0], 0xee);
    let pages = split_pages(&bytes[1..]);
    assert_eq!(pages.len(), 3);
    let flags: Vec<u8> = pages.iter().map(|p| p.0[5]).collect();
    // first page: begin of stream; second: continued; third: end of stream
    assert_eq!(flags, vec![2, 1, 4]);
    let numbers: Vec<u32> =
        pages.iter().map(|p| u32::from_le_bytes([p.0[18], p.0[19], p.0[20], p.0[21]])).collect();
    assert_eq!(numbers, vec![0, 1, 2]);
    let granules: Vec<u32> =
        pages.iter().map(|p| u32::from_le_bytes([p.0[6], p.0[7], p.0[8], p.0[9]])).collect();
    assert_eq!(granules, vec![0, 7, 7]);
    for p in &pages {
        assert_eq!(&p.0[..4], b"OggS");
        assert_eq!(&p.0[10..14], &[0, 0, 0, 0]);
        assert_eq!(&p.0[14..18], &[1, 0, 0, 0]);
    }
}

#[test]
fn flushing_an_empty_page_emits_nothing() {
    let mut os = BitOggStream::new(Vec::new());
    os.flush_page(false, false).unwrap();
    os.flush_page_internal(true, true).unwrap();
    assert_eq!(os.finish(), Vec::<u8>::new());
}

#[test]
fn pending_bits_are_padded_with_zeros() {
    let mut os = BitOggStream::new(Vec::new());
    os.put_bit(true).unwrap();
    os.put_bit(false).unwrap();
    os.put_bit(true).unwrap();
    os.flush_bits().unwrap();
    os.put_bit(true).unwrap();
    let pages = split_pages(&os.finish());
    assert_eq!(pages[0].2, vec![0b101, 0b1]);
}

#[test]
fn a_payload_of_a_multiple_of_255_bytes_gets_a_closing_lacing_value() {
    let mut os = BitOggStream::new(Vec::new());
    os.write_all(&[7u8; 255]).unwrap();
    let pages = split_pages(&os.finish());
    assert_eq!(pages[0].1, vec![255, 0]);
    let mut os = BitOggStream::new(Vec::new());
    os.write_all(&[7u8; 256]).unwrap();
    let pages = split_pages(&os.finish());
    assert_eq!(pages[0].1, vec![255, 1]);
    let mut os = BitOggStream::new(Vec::new());
    os.write_all(&[7u8; 254]).unwrap();
    let pages = split_pages(&os.finish());
    assert_eq!(pages[0].1, vec![254]);
}

#[test]
fn a_full_page_has_255_lacing_values_and_no_closing_one() {
    let mut os = BitOggStream::new(Vec::new());
    os.write_all(&vec![9u8; 65025]).unwrap();
    os.flush_page(false, false).unwrap();
    let bytes = os.finish();
    assert_eq!(bytes.len(), 27 + 255 + 65025);
    assert_eq!(bytes[26], 255);
    assert!(bytes[27..27 + 255].iter().all(|&l| l == 255));
    assert!(bytes[27 + 255..].iter().all(|&b| b == 9));
}

#[test]
fn a_page_of_64770_bytes_has_a_closing_lacing_value() {
    let mut os = BitOggStream::new(Vec::new());
    os.write_all(&vec![9u8; 64770]).unwrap();
    let bytes = os.finish();
    assert_eq!(bytes[26], 255);
    assert!(bytes[27..27 + 254].iter().all(|&l| l == 255));
    assert_eq!(bytes[27 + 254], 0);
}

#[test]
fn more_than_a_page_holds_is_refused() {
    let mut os = BitOggStream::new(Vec::new());
    assert_eq!(os.write_all(&vec![1u8; 65026]), Err(ParseError::BufferExhausted));
    // what fitted stays
    let bytes = os.finish();
    assert_eq!(bytes.len(), 27 + 255 + 65025);

    let mut os = BitOggStream::new(Vec::new());
    os.write_all(&vec![1u8; 65024]).unwrap();
    assert_eq!(os.write_bits(0x0102, 16), Err(ParseError::BufferExhausted));

    let mut os = BitOggStream::new(Vec::new());
    os.write_all(&vec![1u8; 65025]).unwrap();
    for _ in 0..7 {
        os.put_bit(true).unwrap();
    }
    assert_eq!(os.put_bit(true), Err(ParseError::BufferExhausted));
    assert_eq!(os.flush_bits(), Err(ParseError::BufferExhausted));
    assert_eq!(os.flush_page(false, false), Err(ParseError::BufferExhausted));
    assert!(matches!(
        BitUint::<1>::new(1).unwrap().write_to(&mut os),
        Err(ParseError::BufferExhausted)
    ));
    // the pending bits have no room: nothing is emitted
    assert_eq!(os.finish(), Vec::<u8>::new());
}

#[test]
fn finish_emits_what_is_left() {
    let mut os = BitOggStream::new(Vec::new());
    os.write_bits(0x41, 8).unwrap();
    os.put_bit(true).unwrap();
    let bytes = os.finish();
    let pages = split_pages(&bytes);
    assert_eq!(pages.len(), 1);
    assert_eq!(pages[0].0[5], 2);
    assert_eq!(pages[0].2, vec![0x41, 1]);
}

#[test]
fn errors_have_a_text() {
    assert_eq!(ParseError::EndOfInput.message(), "Parse error: out of bits");
    assert_eq!(
        ParseError::BufferExhausted.message(),
        "Parse error: ran out of space in an Ogg packet"
    );
    assert_eq!(ParseError::Io.message(), "IO error: unexpected end of input");
    assert_eq!(ParseError::RangeViolation.message(), "Parse error: value or index out of range");
    assert_eq!(ParseError::FormatViolation.message(), "Parse error: malformed input");
    assert_eq!(ParseError::SizeMismatch.message(), "Parse error: size mismatch");
}
