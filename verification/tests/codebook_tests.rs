use wem_converter::bit_stream::{BitOggStream, BitOggStreamT, BitStream, BitUint, BitUintV};
use wem_converter::codebook::{book_maptype1_quantvals, ilog, CodebookLibrary};
use wem_converter::errors::ParseError;

/// Collects fields, least significant bit first.
fn put(bits: &mut Vec<bool>, value: u32, width: usize) {
    for i in 0..width {
        bits.push((value >> i) & 1 == 1);
    }
}

fn pack(bits: &[bool]) -> Vec<u8> {
    let mut out = vec![0u8; (bits.len() + 7) / 8];
    for (i, &b) in bits.iter().enumerate() {
        if b {
            out[i / 8] |= 1 << (i % 8);
        }
    }
    out
}

/// The payload of the single page of a stream.
fn payload(bytes: &[u8]) -> Vec<u8> {
    let segments = bytes[26] as usize;
    bytes[27 + segments..].to_vec()
}

/// A packed codebook with one dimension and one entry, with its lengths
/// in run-length form and no lookup table: 26 bits.
fn ordered_codebook() -> Vec<u8> {
    let mut bits = Vec::new();
    put(&mut bits, 1, 4);
    put(&mut bits, 1, 14);
    put(&mut bits, 1, 1);
    put(&mut bits, 1, 5);
    put(&mut bits, 1, 1);
    put(&mut bits, 0, 1);
    pack(&bits)
}

/// A codebook file with the given codebooks.
fn codebook_file(books: &[Vec<u8>]) -> Vec<u8> {
    let mut file = Vec::new();
    let mut offsets = vec![0u32];
    for b in books {
        file.extend_from_slice(b);
        offsets.push(file.len() as u32);
    }
    for o in offsets {
        file.extend_from_slice(&o.to_le_bytes());
    }
    file
}

#[test]
fn quantvals_of_square_and_fourth_power() {
    assert_eq!(book_maptype1_quantvals(256, 2), 16);
    assert_eq!(book_maptype1_quantvals(81, 4), 3);
}

#[test]
fn quantvals_is_the_whole_root() {
    assert_eq!(book_maptype1_quantvals(255, 2), 15);
    assert_eq!(book_maptype1_quantvals(257, 2), 16);
    assert_eq!(book_maptype1_quantvals(80, 4), 2);
    assert_eq!(book_maptype1_quantvals(0, 3), 0);
    assert_eq!(book_maptype1_quantvals(1, 5), 1);
    assert_eq!(book_maptype1_quantvals(12345, 1), 12345);
    assert_eq!(book_maptype1_quantvals(16383, 15), 1);
    assert_eq!(book_maptype1_quantvals(u32::MAX, 2), 65535);
    assert_eq!(book_maptype1_quantvals(u32::MAX, 32), 1);
    assert_eq!(book_maptype1_quantvals(u32::MAX, 31), 2);
    assert_eq!(book_maptype1_quantvals(0xff_ffff, 65535), 1);
    for entries in 0u32..300 {
        for dimensions in 1u32..6 {
            let v = book_maptype1_quantvals(entries, dimensions) as u64;
            assert!(v.pow(dimensions) <= entries as u64);
            assert!((v + 1).pow(dimensions) > entries as u64);
        }
    }
}

#[test]
fn ilog_counts_bits() {
    assert_eq!(ilog(0), 0);
    assert_eq!(ilog(1), 1);
    assert_eq!(ilog(2), 2);
    assert_eq!(ilog(7), 3);
    assert_eq!(ilog(8), 4);
    assert_eq!(ilog(0x7fff_ffff), 31);
    assert_eq!(ilog(u32::MAX), 32);
}

#[test]
fn a_file_with_one_codebook() {
    let blob = vec![10u8, 20, 30, 40, 50];
    let file = codebook_file(&[blob.clone()]);
    assert_eq!(file.len(), 13);
    let lib = CodebookLibrary::new_from_file(&file).unwrap();
    assert_eq!(lib.get_codebook(0).unwrap(), &blob[..]);
    assert_eq!(lib.get_codebook_size(0), Ok(5));
    assert_eq!(lib.get_codebook(1), Err(ParseError::RangeViolation));
    assert_eq!(lib.get_codebook_size(1), Err(ParseError::RangeViolation));
    assert_eq!(lib.get_codebook(2), Err(ParseError::RangeViolation));
    assert_eq!(lib.get_codebook(usize::MAX), Err(ParseError::RangeViolation));
}

#[test]
fn a_file_with_three_codebooks() {
    let file = codebook_file(&[vec![1, 2], vec![], vec![3, 4, 5]]);
    let lib = CodebookLibrary::new_from_file(&file).unwrap();
    assert_eq!(lib.get_codebook(0).unwrap(), &[1u8, 2][..]);
    assert_eq!(lib.get_codebook(1).unwrap(), &[0u8; 0][..]);
    assert_eq!(lib.get_codebook(2).unwrap(), &[3u8, 4, 5][..]);
    assert_eq!(lib.get_codebook_size(0), Ok(2));
    assert_eq!(lib.get_codebook_size(1), Ok(0));
    assert_eq!(lib.get_codebook_size(2), Ok(3));
    assert_eq!(lib.get_codebook(3), Err(ParseError::RangeViolation));
}

#[test]
fn a_file_that_is_too_short_or_points_past_its_end() {
    assert!(matches!(CodebookLibrary::new_from_file(&[1, 2, 3]), Err(ParseError::FormatViolation)));
    assert!(matches!(CodebookLibrary::new_from_file(&[9, 0, 0, 0]), Err(ParseError::Io)));
    // an offset table that is only the closing number: no codebook
    let lib = CodebookLibrary::new_from_file(&[0, 0, 0, 0]).unwrap();
    assert_eq!(lib.get_codebook(0), Err(ParseError::RangeViolation));
    assert_eq!(lib.get_codebook_size(0), Err(ParseError::RangeViolation));
}

#[test]
fn offsets_that_mark_no_range_are_refused() {
    // offsets 4, 2: the second lies before the first
    let mut file = vec![1u8, 2, 3, 4];
    file.extend_from_slice(&4i32.to_le_bytes());
    file.extend_from_slice(&2i32.to_le_bytes());
    file.extend_from_slice(&4i32.to_le_bytes());
    let lib = CodebookLibrary::new_from_file(&file).unwrap();
    assert_eq!(lib.get_codebook(0), Err(ParseError::RangeViolation));
    assert_eq!(lib.get_codebook_size(0), Ok(-2));
    assert_eq!(lib.get_codebook(1).unwrap(), &[3u8, 4][..]);
    // a negative offset
    let mut file = vec![1u8, 2, 3, 4];
    file.extend_from_slice(&(-1i32).to_le_bytes());
    file.extend_from_slice(&4i32.to_le_bytes());
    let lib = CodebookLibrary::new_from_file(&file).unwrap();
    assert_eq!(lib.get_codebook(0), Err(ParseError::RangeViolation));
    assert_eq!(lib.get_codebook_size(0), Ok(5));
}

#[test]
fn an_empty_library_has_no_codebook() {
    let lib = CodebookLibrary::new_empty();
    assert_eq!(lib.get_codebook(0), Err(ParseError::RangeViolation));
    assert_eq!(lib.get_codebook_size(0), Err(ParseError::RangeViolation));
    let mut os = BitOggStream::new(Vec::new());
    assert_eq!(lib.rebuild(0, &mut os), Err(ParseError::RangeViolation));
    assert_eq!(os.finish(), Vec::<u8>::new());
}

#[test]
fn a_packed_codebook_is_rebuilt_in_the_canonical_form() {
    let packed = ordered_codebook();
    assert_eq!(packed, vec![17, 0, 12, 1]);
    let lib = CodebookLibrary::new_from_file(&codebook_file(&[packed])).unwrap();
    let mut os = BitOggStream::new(Vec::new());
    lib.rebuild(0, &mut os).unwrap();
    let out = payload(&os.finish());
    let mut stream = BitStream::new(&out);
    assert_eq!(BitUint::<24>::read_from(&mut stream).unwrap().total, 0x564342);
    assert_eq!(BitUint::<16>::read_from(&mut stream).unwrap().total, 1);
    assert_eq!(BitUint::<24>::read_from(&mut stream).unwrap().total, 1);
    assert_eq!(BitUint::<1>::read_from(&mut stream).unwrap().total, 1);
    assert_eq!(BitUint::<5>::read_from(&mut stream).unwrap().total, 1);
    assert_eq!(BitUint::<1>::read_from(&mut stream).unwrap().total, 1);
    assert_eq!(BitUint::<4>::read_from(&mut stream).unwrap().total, 0);
    // 75 bits in all
    assert_eq!(out.len(), 10);
    assert_eq!(out, vec![0x42, 0x43, 0x56, 1, 0, 1, 0, 0, 0x43, 0]);
}

#[test]
fn a_packed_codebook_with_plain_lengths_and_a_lookup_table() {
    // 2 dimensions, 4 entries, lengths of 3 bits, not sparse, lookup
    // type 1 with values of 5 bits: the whole root of 4 for 2 is 2.
    let mut bits = Vec::new();
    put(&mut bits, 2, 4);
    put(&mut bits, 4, 14);
    put(&mut bits, 0, 1);
    put(&mut bits, 3, 3);
    put(&mut bits, 0, 1);
    for length in [1u32, 2, 3, 7] {
        put(&mut bits, length, 3);
    }
    put(&mut bits, 1, 1);
    put(&mut bits, 0xc000_0000, 32);
    put(&mut bits, 0x3f80_0000, 32);
    put(&mut bits, 4, 4);
    put(&mut bits, 1, 1);
    put(&mut bits, 21, 5);
    put(&mut bits, 10, 5);
    let size = bits.len() / 8 + 1;
    let mut packed = pack(&bits);
    packed.resize(size, 0);
    let lib = CodebookLibrary::new_from_file(&codebook_file(&[packed.clone()])).unwrap();
    let mut os = BitOggStream::new(Vec::new());
    lib.rebuild(0, &mut os).unwrap();
    let out = payload(&os.finish());
    let mut stream = BitStream::new(&out);
    assert_eq!(BitUint::<24>::read_from(&mut stream).unwrap().total, 0x564342);
    assert_eq!(BitUint::<16>::read_from(&mut stream).unwrap().total, 2);
    assert_eq!(BitUint::<24>::read_from(&mut stream).unwrap().total, 4);
    assert_eq!(BitUint::<1>::read_from(&mut stream).unwrap().total, 0);
    assert_eq!(BitUint::<1>::read_from(&mut stream).unwrap().total, 0);
    for length in [1u32, 2, 3, 7] {
        assert_eq!(BitUint::<5>::read_from(&mut stream).unwrap().total, length);
    }
    assert_eq!(BitUint::<4>::read_from(&mut stream).unwrap().total, 1);
    assert_eq!(BitUint::<32>::read_from(&mut stream).unwrap().total, 0xc000_0000);
    assert_eq!(BitUint::<32>::read_from(&mut stream).unwrap().total, 0x3f80_0000);
    assert_eq!(BitUint::<4>::read_from(&mut stream).unwrap().total, 4);
    assert_eq!(BitUint::<1>::read_from(&mut stream).unwrap().total, 1);
    assert_eq!(BitUintV::read_from(&mut stream, 5).unwrap().total, 21);
    assert_eq!(BitUintV::read_from(&mut stream, 5).unwrap().total, 10);

    // the same through a stream, with the size left open
    let mut os = BitOggStream::new(Vec::new());
    let mut bis = BitStream::new(&packed);
    CodebookLibrary::new_empty().rebuild_from_stream(&mut bis, 0, &mut os).unwrap();
    assert_eq!(payload(&os.finish()), out);
}

#[test]
fn a_sparse_packed_codebook_keeps_its_flags() {
    let mut bits = Vec::new();
    put(&mut bits, 1, 4);
    put(&mut bits, 3, 14);
    put(&mut bits, 0, 1);
    put(&mut bits, 2, 3);
    put(&mut bits, 1, 1);
    put(&mut bits, 1, 1);
    put(&mut bits, 3, 2);
    put(&mut bits, 0, 1);
    put(&mut bits, 1, 1);
    put(&mut bits, 1, 2);
    put(&mut bits, 0, 1);
    let packed = pack(&bits);
    let mut os = BitOggStream::new(Vec::new());
    let mut bis = BitStream::new(&packed);
    CodebookLibrary::new_empty().rebuild_from_stream(&mut bis, 0, &mut os).unwrap();
    assert_eq!(bis.get_total_bits_read(), bits.len() as u64);
    let out = payload(&os.finish());
    let mut stream = BitStream::new(&out);
    assert_eq!(BitUint::<24>::read_from(&mut stream).unwrap().total, 0x564342);
    assert_eq!(BitUint::<16>::read_from(&mut stream).unwrap().total, 1);
    assert_eq!(BitUint::<24>::read_from(&mut stream).unwrap().total, 3);
    assert_eq!(BitUint::<1>::read_from(&mut stream).unwrap().total, 0);
    assert_eq!(BitUint::<1>::read_from(&mut stream).unwrap().total, 1);
    assert_eq!(BitUint::<1>::read_from(&mut stream).unwrap().total, 1);
    assert_eq!(BitUint::<5>::read_from(&mut stream).unwrap().total, 3);
    assert_eq!(BitUint::<1>::read_from(&mut stream).unwrap().total, 0);
    assert_eq!(BitUint::<1>::read_from(&mut stream).unwrap().total, 1);
    assert_eq!(BitUint::<5>::read_from(&mut stream).unwrap().total, 1);
    assert_eq!(BitUint::<4>::read_from(&mut stream).unwrap().total, 0);
}

#[test]
fn a_packed_codebook_of_the_wrong_size_is_a_size_mismatch() {
    let packed = ordered_codebook();
    let mut os = BitOggStream::new(Vec::new());
    let mut bis = BitStream::new(&packed);
    let lib = CodebookLibrary::new_empty();
    assert_eq!(lib.rebuild_from_stream(&mut bis, 5, &mut os), Err(ParseError::SizeMismatch));
    let mut bis = BitStream::new(&packed);
    assert_eq!(lib.rebuild_from_stream(&mut bis, 4, &mut os), Ok(()));
    // through the library the size of the codebook is the size to meet
    let mut longer = packed.clone();
    longer.push(0);
    let lib = CodebookLibrary::new_from_file(&codebook_file(&[longer])).unwrap();
    let mut os = BitOggStream::new(Vec::new());
    assert_eq!(lib.rebuild(0, &mut os), Err(ParseError::SizeMismatch));
}

#[test]
fn malformed_packed_codebooks_are_refused() {
    let lib = CodebookLibrary::new_empty();
    // a length width of zero
    let mut bits = Vec::new();
    put(&mut bits, 1, 4);
    put(&mut bits, 1, 14);
    put(&mut bits, 0, 1);
    put(&mut bits, 0, 3);
    put(&mut bits, 0, 1);
    put(&mut bits, 0, 8);
    let packed = pack(&bits);
    let mut os = BitOggStream::new(Vec::new());
    let mut bis = BitStream::new(&packed);
    assert_eq!(lib.rebuild_from_stream(&mut bis, 0, &mut os), Err(ParseError::FormatViolation));
    // a length width of six
    let mut bits = Vec::new();
    put(&mut bits, 1, 4);
    put(&mut bits, 1, 14);
    put(&mut bits, 0, 1);
    put(&mut bits, 6, 3);
    put(&mut bits, 0, 1);
    put(&mut bits, 0, 8);
    let packed = pack(&bits);
    let mut os = BitOggStream::new(Vec::new());
    let mut bis = BitStream::new(&packed);
    assert_eq!(lib.rebuild_from_stream(&mut bis, 0, &mut os), Err(ParseError::FormatViolation));
    // runs that cover more entries than there are
    let mut bits = Vec::new();
    put(&mut bits, 1, 4);
    put(&mut bits, 2, 14);
    put(&mut bits, 1, 1);
    put(&mut bits, 1, 5);
    put(&mut bits, 3, 2);
    put(&mut bits, 0, 1);
    let packed = pack(&bits);
    let mut os = BitOggStream::new(Vec::new());
    let mut bis = BitStream::new(&packed);
    assert_eq!(lib.rebuild_from_stream(&mut bis, 0, &mut os), Err(ParseError::RangeViolation));
    // a lookup table without dimensions
    let mut bits = Vec::new();
    put(&mut bits, 0, 4);
    put(&mut bits, 0, 14);
    put(&mut bits, 1, 1);
    put(&mut bits, 1, 5);
    put(&mut bits, 1, 1);
    put(&mut bits, 0, 32);
    put(&mut bits, 0, 32);
    put(&mut bits, 0, 4);
    put(&mut bits, 0, 1);
    let packed = pack(&bits);
    let mut os = BitOggStream::new(Vec::new());
    let mut bis = BitStream::new(&packed);
    assert_eq!(lib.rebuild_from_stream(&mut bis, 0, &mut os), Err(ParseError::FormatViolation));
    // a codebook that ends early
    let mut os = BitOggStream::new(Vec::new());
    let short = [17u8, 0];
    let mut bis = BitStream::new(&short);
    assert_eq!(lib.rebuild_from_stream(&mut bis, 0, &mut os), Err(ParseError::EndOfInput));
}

#[test]
fn an_empty_codebook_of_the_library_is_refused() {
    let lib = CodebookLibrary::new_from_file(&codebook_file(&[vec![], ordered_codebook()])).unwrap();
    let mut os = BitOggStream::new(Vec::new());
    assert_eq!(lib.rebuild(0, &mut os), Err(ParseError::RangeViolation));
    assert_eq!(lib.rebuild(1, &mut os), Ok(()));
    assert_eq!(lib.rebuild(2, &mut os), Err(ParseError::RangeViolation));
}

/// A canonical codebook: 2 dimensions, 3 entries, sparse lengths and a
/// lookup table of type 1 with one value of 3 bits.
fn canonical_codebook() -> Vec<bool> {
    let mut bits = Vec::new();
    put(&mut bits, 0x564342, 24);
    put(&mut bits, 2, 16);
    put(&mut bits, 3, 24);
    put(&mut bits, 0, 1);
    put(&mut bits, 1, 1);
    put(&mut bits, 1, 1);
    put(&mut bits, 9, 5);
    put(&mut bits, 0, 1);
    put(&mut bits, 1, 1);
    put(&mut bits, 31, 5);
    put(&mut bits, 1, 4);
    put(&mut bits, 0x1234_5678, 32);
    put(&mut bits, 0x9abc_def0, 32);
    put(&mut bits, 2, 4);
    put(&mut bits, 0, 1);
    put(&mut bits, 5, 3);
    bits
}

#[test]
fn a_canonical_codebook_is_copied_bit_for_bit() {
    let bits = canonical_codebook();
    let input = pack(&bits);
    let mut os = BitOggStream::new(Vec::new());
    let mut bis = BitStream::new(&input);
    CodebookLibrary::new_empty().copy(&mut bis, &mut os).unwrap();
    assert_eq!(bis.get_total_bits_read(), bits.len() as u64);
    assert_eq!(payload(&os.finish()), input);
}

#[test]
fn a_canonical_codebook_without_flags_is_copied_bit_for_bit() {
    let mut bits = Vec::new();
    put(&mut bits, 0x564342, 24);
    put(&mut bits, 1, 16);
    put(&mut bits, 2, 24);
    put(&mut bits, 0, 1);
    put(&mut bits, 0, 1);
    put(&mut bits, 4, 5);
    put(&mut bits, 6, 5);
    put(&mut bits, 0, 4);
    let input = pack(&bits);
    let mut os = BitOggStream::new(Vec::new());
    let mut bis = BitStream::new(&input);
    CodebookLibrary::new_empty().copy(&mut bis, &mut os).unwrap();
    assert_eq!(bis.get_total_bits_read(), bits.len() as u64);
    assert_eq!(payload(&os.finish()), input);
}

#[test]
fn a_canonical_codebook_with_a_wrong_sync_pattern_is_refused() {
    let mut bits = canonical_codebook();
    bits[0] = !bits[0];
    let input = pack(&bits);
    let mut os = BitOggStream::new(Vec::new());
    let mut bis = BitStream::new(&input);
    let lib = CodebookLibrary::new_empty();
    assert_eq!(lib.copy(&mut bis, &mut os), Err(ParseError::FormatViolation));
    assert_eq!(os.finish(), Vec::<u8>::new());
}

#[test]
fn lookup_types_above_one_are_refused() {
    for lookup_type in [2u32, 3, 15] {
        let mut bits = Vec::new();
        put(&mut bits, 0x564342, 24);
        put(&mut bits, 1, 16);
        put(&mut bits, 1, 24);
        put(&mut bits, 1, 1);
        put(&mut bits, 1, 5);
        put(&mut bits, 1, 1);
        put(&mut bits, lookup_type, 4);
        put(&mut bits, 0, 32);
        let input = pack(&bits);
        let mut os = BitOggStream::new(Vec::new());
        let mut bis = BitStream::new(&input);
        let lib = CodebookLibrary::new_empty();
        assert_eq!(lib.copy(&mut bis, &mut os), Err(ParseError::FormatViolation));
    }
}

#[test]
fn a_codebook_that_fills_the_page_is_refused() {
    let mut os = BitOggStream::new(Vec::new());
    os.write_all(&vec![0u8; 65020]).unwrap();
    let input = pack(&canonical_codebook());
    let mut bis = BitStream::new(&input);
    let lib = CodebookLibrary::new_empty();
    assert_eq!(lib.copy(&mut bis, &mut os), Err(ParseError::BufferExhausted));
}
