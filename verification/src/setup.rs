//! The setup packet: how its stripped form is read and which standard
//! form is written for it.

use vstd::prelude::*;
use vstd::arithmetic::power2::{lemma2_to64, pow2};
use crate::bit_stream::{bit_of_word, lemma_shl_one, BitOggStreamT, BitStream, BitUint, BitUintV};
use crate::codebook::{
    copy_spec, copy_values, ilog, ilog_spec, lemma_ilog_le, CodebookLibrary,
};
use crate::errors::ParseError;
use crate::progress::{copy_fields, Progress};

verus! {

/// A list of floor partition classes as far as it has been read.
pub struct ClassScan {
    pub p: Progress,
    pub classes: Seq<u32>,
}

/// The partition classes of a floor, four bits each, copied, behind the
/// ones in `classes`.
pub open spec fn floor_classes(data: Seq<u8>, p: Progress, partitions: nat, classes: Seq<u32>) -> ClassScan
    decreases partitions - classes.len(),
{
    if p.err.is_some() || classes.len() >= partitions {
        ClassScan { p, classes }
    } else {
        let q = p.copy(data, 4);
        if q.err.is_some() {
            ClassScan { p: q, classes }
        } else {
            floor_classes(data, q, partitions, classes.push(p.peek(data, 4)))
        }
    }
}

/// The largest class of a list, zero for none.
pub open spec fn max_class(classes: Seq<u32>) -> u32
    decreases classes.len(),
{
    if classes.len() == 0 {
        0
    } else {
        let m = max_class(classes.drop_last());
        if classes.last() > m {
            classes.last()
        } else {
            m
        }
    }
}

/// No class of a list is above its largest.
pub proof fn lemma_max_class(classes: Seq<u32>, i: int)
    requires
        0 <= i < classes.len(),
    ensures
        classes[i] <= max_class(classes),
    decreases classes.len(),
{
    if i < classes.len() - 1 {
        lemma_max_class(classes.drop_last(), i);
    }
}

/// The subclass books of a floor class, `count` fields of eight bits,
/// copied. Each holds a codebook index plus one, or zero for none.
pub open spec fn floor_subclass_books(data: Seq<u8>, p: Progress, count: nat, codebook_count: nat) -> Progress
    decreases count,
{
    if p.err.is_some() || count == 0 {
        p
    } else {
        let book_plus1 = p.peek(data, 8);
        let q = p.copy(data, 8).require(
            book_plus1 == 0 || book_plus1 - 1 < codebook_count,
            ParseError::RangeViolation,
        );
        if q.err.is_some() {
            q
        } else {
            floor_subclass_books(data, q, (count - 1) as nat, codebook_count)
        }
    }
}

/// One floor class, copied: its dimensions less one in three bits, the
/// number of subclass bits in two, a master book if there are subclass
/// bits, and a subclass book for each value of those bits.
pub open spec fn floor_class(data: Seq<u8>, p: Progress, codebook_count: nat) -> Progress {
    let p1 = p.copy(data, 3);
    let subclasses = p1.peek(data, 2);
    let p2 = p1.copy(data, 2);
    let p3 = if subclasses != 0 {
        p2.copy(data, 8).require(p2.peek(data, 8) < codebook_count, ParseError::RangeViolation)
    } else {
        p2
    };
    floor_subclass_books(data, p3, pow2(subclasses as nat), codebook_count)
}

/// A list of floor class dimensions as far as it has been read.
pub struct DimScan {
    pub p: Progress,
    pub dims: Seq<u32>,
}

/// The classes of a floor, copied, behind the ones whose dimensions are
/// in `dims`.
pub open spec fn floor_class_list(
    data: Seq<u8>,
    p: Progress,
    class_count: nat,
    codebook_count: nat,
    dims: Seq<u32>,
) -> DimScan
    decreases class_count - dims.len(),
{
    if p.err.is_some() || dims.len() >= class_count {
        DimScan { p, dims }
    } else {
        let q = floor_class(data, p, codebook_count);
        if q.err.is_some() {
            DimScan { p: q, dims }
        } else {
            floor_class_list(
                data,
                q,
                class_count,
                codebook_count,
                dims.push((p.peek(data, 3) + 1) as u32),
            )
        }
    }
}

/// The positions of a floor, copied, from partition `i` on: for each
/// partition as many fields of `rangebits` bits as its class has
/// dimensions.
pub open spec fn floor_positions(
    data: Seq<u8>,
    p: Progress,
    rangebits: nat,
    classes: Seq<u32>,
    dims: Seq<u32>,
    i: nat,
) -> Progress
    decreases classes.len() - i,
{
    if p.err.is_some() || i >= classes.len() {
        p
    } else {
        let q = copy_fields(data, p, rangebits, dims[classes[i as int] as int] as nat);
        if q.err.is_some() {
            q
        } else {
            floor_positions(data, q, rangebits, classes, dims, i + 1)
        }
    }
}

/// The partition classes of the floor that starts at `p`.
pub open spec fn floor_scan(data: Seq<u8>, p: Progress) -> ClassScan {
    let p1 = p.emit(1, 16);
    floor_classes(data, p1.copy(data, 5), p1.peek(data, 5) as nat, Seq::empty())
}

/// The classes of the floor that starts at `p`.
pub open spec fn floor_configs(data: Seq<u8>, p: Progress, codebook_count: nat) -> DimScan {
    let scan = floor_scan(data, p);
    floor_class_list(
        data,
        scan.p,
        (max_class(scan.classes) + 1) as nat,
        codebook_count,
        Seq::empty(),
    )
}

/// One floor, rebuilt: the type, always 1, is supplied in 16 bits; the
/// partition count in five bits, the partition classes, the classes, the
/// multiplier in two bits, the width of a position in four bits and the
/// positions are copied.
#[verifier::opaque]
pub open spec fn floor_spec(data: Seq<u8>, p: Progress, codebook_count: nat) -> Progress {
    let scan = floor_scan(data, p);
    let configs = floor_configs(data, p, codebook_count);
    let p4 = configs.p.copy(data, 2);
    floor_positions(data, p4.copy(data, 4), p4.peek(data, 4) as nat, scan.classes, configs.dims, 0)
}

/// `count` floors, rebuilt.
pub open spec fn floor_list(data: Seq<u8>, p: Progress, count: nat, codebook_count: nat) -> Progress
    decreases count,
{
    if p.err.is_some() || count == 0 {
        p
    } else {
        let q = floor_spec(data, p, codebook_count);
        if q.err.is_some() {
            q
        } else {
            floor_list(data, q, (count - 1) as nat, codebook_count)
        }
    }
}

/// The floors, rebuilt: their count less one in six bits, copied, and
/// each floor.
pub open spec fn floors_spec(data: Seq<u8>, p: Progress, codebook_count: nat) -> Progress {
    floor_list(data, p.copy(data, 6), (p.peek(data, 6) + 1) as nat, codebook_count)
}

/// A list of residue cascades as far as it has been read.
pub struct CascadeScan {
    pub p: Progress,
    pub cascade: Seq<u32>,
}

/// The cascade that starts at `p`: three low bits and, behind a flag,
/// five high bits.
pub open spec fn cascade_value(data: Seq<u8>, p: Progress) -> u32 {
    let low = p.peek(data, 3);
    let p1 = p.take(data, 3);
    let p2 = p1.take(data, 1);
    if p1.peek(data, 1) != 0 {
        (p2.peek(data, 5) * 8 + low) as u32
    } else {
        low
    }
}

/// One cascade, copied.
pub open spec fn cascade_step(data: Seq<u8>, p: Progress) -> Progress {
    let p1 = p.copy(data, 3);
    let p2 = p1.copy(data, 1);
    if p1.peek(data, 1) != 0 {
        p2.copy(data, 5)
    } else {
        p2
    }
}

/// The cascades of a residue, copied, behind the ones in `cascade`.
pub open spec fn residue_cascades(data: Seq<u8>, p: Progress, count: nat, cascade: Seq<u32>) -> CascadeScan
    decreases count - cascade.len(),
{
    if p.err.is_some() || cascade.len() >= count {
        CascadeScan { p, cascade }
    } else {
        let q = cascade_step(data, p);
        if q.err.is_some() {
            CascadeScan { p: q, cascade }
        } else {
            residue_cascades(data, q, count, cascade.push(cascade_value(data, p)))
        }
    }
}

/// The books of one cascade, copied, from bit `k` on: eight bits of
/// codebook index for each set bit.
pub open spec fn cascade_books(data: Seq<u8>, p: Progress, cascade: u32, codebook_count: nat, k: nat) -> Progress
    decreases 8 - k,
{
    if p.err.is_some() || k >= 8 {
        p
    } else {
        let q = if bit_of_word(cascade, k as u32) {
            p.copy(data, 8).require(p.peek(data, 8) < codebook_count, ParseError::RangeViolation)
        } else {
            p
        };
        if q.err.is_some() {
            q
        } else {
            cascade_books(data, q, cascade, codebook_count, k + 1)
        }
    }
}

/// The books of a residue, copied, from cascade `j` on.
pub open spec fn residue_books(data: Seq<u8>, p: Progress, cascade: Seq<u32>, codebook_count: nat, j: nat) -> Progress
    decreases cascade.len() - j,
{
    if p.err.is_some() || j >= cascade.len() {
        p
    } else {
        let q = cascade_books(data, p, cascade[j as int], codebook_count, 0);
        if q.err.is_some() {
            q
        } else {
            residue_books(data, q, cascade, codebook_count, j + 1)
        }
    }
}

/// The number of classifications of the residue that starts at `p`.
pub open spec fn residue_classifications(data: Seq<u8>, p: Progress) -> nat {
    (p.take(data, 2).take(data, 24).take(data, 24).take(data, 24).peek(data, 6) + 1) as nat
}

/// The head of a residue, rebuilt: the type is widened from 2 to 16 bits
/// and must be at most 2; begin, end and partition size less one, 24 bits
/// each, the classifications less one in six bits and the class book in
/// eight bits are copied.
pub open spec fn residue_head(data: Seq<u8>, p: Progress, codebook_count: nat) -> Progress {
    let residue_type = p.peek(data, 2);
    let p1 = p.take(data, 2).emit(residue_type, 16).require(
        residue_type <= 2,
        ParseError::FormatViolation,
    );
    let a = p1.take(data, 24);
    let b = a.take(data, 24);
    let c = b.take(data, 24);
    let d = c.take(data, 6);
    let e = d.take(data, 8);
    e.emit(p1.peek(data, 24), 24).emit(a.peek(data, 24), 24).emit(b.peek(data, 24), 24).emit(
        c.peek(data, 6),
        6,
    ).emit(d.peek(data, 8), 8).require(
        d.peek(data, 8) < codebook_count,
        ParseError::RangeViolation,
    )
}

/// One residue, rebuilt: head, cascades and books.
#[verifier::opaque]
pub open spec fn residue_spec(data: Seq<u8>, p: Progress, codebook_count: nat) -> Progress {
    let scan = residue_cascades(
        data,
        residue_head(data, p, codebook_count),
        residue_classifications(data, p),
        Seq::empty(),
    );
    residue_books(data, scan.p, scan.cascade, codebook_count, 0)
}

/// `count` residues, rebuilt.
pub open spec fn residue_list(data: Seq<u8>, p: Progress, count: nat, codebook_count: nat) -> Progress
    decreases count,
{
    if p.err.is_some() || count == 0 {
        p
    } else {
        let q = residue_spec(data, p, codebook_count);
        if q.err.is_some() {
            q
        } else {
            residue_list(data, q, (count - 1) as nat, codebook_count)
        }
    }
}

/// The residues, rebuilt: their count less one in six bits, copied, and
/// each residue.
pub open spec fn residues_spec(data: Seq<u8>, p: Progress, codebook_count: nat) -> Progress {
    residue_list(data, p.copy(data, 6), (p.peek(data, 6) + 1) as nat, codebook_count)
}

/// One coupling step, copied: magnitude and angle channel, each as wide
/// as the largest channel number needs. They must differ and name
/// channels.
pub open spec fn coupling_step(data: Seq<u8>, p: Progress, channels: nat) -> Progress {
    if channels == 0 {
        p.fail(ParseError::RangeViolation)
    } else {
        let width = ilog_spec((channels - 1) as nat);
        let magnitude = p.peek(data, width);
        let p1 = p.take(data, width);
        let angle = p1.peek(data, width);
        p1.take(data, width).emit(magnitude, width).emit(angle, width).require(
            angle != magnitude && magnitude < channels && angle < channels,
            ParseError::RangeViolation,
        )
    }
}

/// `count` coupling steps, copied.
pub open spec fn coupling_steps(data: Seq<u8>, p: Progress, count: nat, channels: nat) -> Progress
    decreases count,
{
    if p.err.is_some() || count == 0 {
        p
    } else {
        let q = coupling_step(data, p, channels);
        if q.err.is_some() {
            q
        } else {
            coupling_steps(data, q, (count - 1) as nat, channels)
        }
    }
}

/// The submap of each of `count` channels, four bits each, copied. Each
/// must name a submap.
pub open spec fn mapping_mux(data: Seq<u8>, p: Progress, count: nat, submaps: nat) -> Progress
    decreases count,
{
    if p.err.is_some() || count == 0 {
        p
    } else {
        let q = p.copy(data, 4).require(p.peek(data, 4) < submaps, ParseError::RangeViolation);
        if q.err.is_some() {
            q
        } else {
            mapping_mux(data, q, (count - 1) as nat, submaps)
        }
    }
}

/// One submap, copied: a time configuration, a floor and a residue, eight
/// bits each. Floor and residue must exist.
pub open spec fn submap_step(data: Seq<u8>, p: Progress, floor_count: nat, residue_count: nat) -> Progress {
    let p1 = p.copy(data, 8);
    let p2 = p1.copy(data, 8).require(p1.peek(data, 8) < floor_count, ParseError::RangeViolation);
    p2.copy(data, 8).require(p2.peek(data, 8) < residue_count, ParseError::RangeViolation)
}

/// `count` submaps, copied.
pub open spec fn submap_list(data: Seq<u8>, p: Progress, count: nat, floor_count: nat, residue_count: nat) -> Progress
    decreases count,
{
    if p.err.is_some() || count == 0 {
        p
    } else {
        let q = submap_step(data, p, floor_count, residue_count);
        if q.err.is_some() {
            q
        } else {
            submap_list(data, q, (count - 1) as nat, floor_count, residue_count)
        }
    }
}

/// The number of submaps of the mapping that starts at `p`.
pub open spec fn mapping_submaps(data: Seq<u8>, p: Progress) -> nat {
    let p1 = p.emit(0, 16);
    if p1.peek(data, 1) != 0 {
        (p1.copy(data, 1).peek(data, 4) + 1) as nat
    } else {
        1
    }
}

/// The head of a mapping, rebuilt: the type, always 0, is supplied in 16
/// bits; the submap flag and, behind it, the submap count less one in
/// four bits are copied.
pub open spec fn mapping_head(data: Seq<u8>, p: Progress) -> Progress {
    let p1 = p.emit(0, 16);
    let p2 = p1.copy(data, 1);
    if p1.peek(data, 1) != 0 {
        p2.copy(data, 4)
    } else {
        p2
    }
}

/// The coupling of a mapping, copied: a flag and, behind it, the number
/// of steps less one in eight bits and the steps.
pub open spec fn mapping_coupling(data: Seq<u8>, p: Progress, channels: nat) -> Progress {
    let p1 = p.copy(data, 1);
    if p.peek(data, 1) != 0 {
        coupling_steps(data, p1.copy(data, 8), (p1.peek(data, 8) + 1) as nat, channels)
    } else {
        p1
    }
}

/// One mapping, rebuilt: head, coupling, two reserved bits that must be
/// zero, the submap of each channel where there is more than one submap,
/// and the submaps.
#[verifier::opaque]
pub open spec fn mapping_spec(
    data: Seq<u8>,
    p: Progress,
    channels: nat,
    floor_count: nat,
    residue_count: nat,
) -> Progress {
    let submaps = mapping_submaps(data, p);
    let p1 = mapping_coupling(data, mapping_head(data, p), channels);
    let p2 = p1.copy(data, 2).require(p1.peek(data, 2) == 0, ParseError::FormatViolation);
    let p3 = if submaps > 1 {
        mapping_mux(data, p2, channels, submaps)
    } else {
        p2
    };
    submap_list(data, p3, submaps, floor_count, residue_count)
}

/// `count` mappings, rebuilt.
pub open spec fn mapping_list(
    data: Seq<u8>,
    p: Progress,
    count: nat,
    channels: nat,
    floor_count: nat,
    residue_count: nat,
) -> Progress
    decreases count,
{
    if p.err.is_some() || count == 0 {
        p
    } else {
        let q = mapping_spec(data, p, channels, floor_count, residue_count);
        if q.err.is_some() {
            q
        } else {
            mapping_list(data, q, (count - 1) as nat, channels, floor_count, residue_count)
        }
    }
}

/// The mappings, rebuilt: their count less one in six bits, copied, and
/// each mapping.
pub open spec fn mappings_spec(
    data: Seq<u8>,
    p: Progress,
    channels: nat,
    floor_count: nat,
    residue_count: nat,
) -> Progress {
    mapping_list(
        data,
        p.copy(data, 6),
        (p.peek(data, 6) + 1) as nat,
        channels,
        floor_count,
        residue_count,
    )
}

/// A list of mode block flags as far as it has been read.
pub struct ModeScan {
    pub p: Progress,
    pub blockflags: Seq<bool>,
}

/// One mode, rebuilt: the block flag is copied, window type and
/// transform type, always 0, are supplied in 16 bits each, and the
/// mapping, which must exist, is copied in eight bits.
pub open spec fn mode_step(data: Seq<u8>, p: Progress, mapping_count: nat) -> Progress {
    let p1 = p.copy(data, 1).emit(0, 16).emit(0, 16);
    p1.copy(data, 8).require(p1.peek(data, 8) < mapping_count, ParseError::RangeViolation)
}

/// The modes, rebuilt, behind the ones whose block flags are in
/// `blockflags`.
pub open spec fn mode_list(data: Seq<u8>, p: Progress, count: nat, mapping_count: nat, blockflags: Seq<bool>) -> ModeScan
    decreases count - blockflags.len(),
{
    if p.err.is_some() || blockflags.len() >= count {
        ModeScan { p, blockflags }
    } else {
        let q = mode_step(data, p, mapping_count);
        if q.err.is_some() {
            ModeScan { p: q, blockflags }
        } else {
            mode_list(data, q, count, mapping_count, blockflags.push(p.peek(data, 1) != 0))
        }
    }
}

/// The modes, rebuilt: their count less one in six bits, copied, and each
/// mode.
pub open spec fn modes_spec(data: Seq<u8>, p: Progress, mapping_count: nat) -> ModeScan {
    mode_list(data, p.copy(data, 6), (p.peek(data, 6) + 1) as nat, mapping_count, Seq::empty())
}

/// The number of items that the count less one at `p`, six bits wide,
/// declares.
pub open spec fn declared_count(data: Seq<u8>, p: Progress) -> nat {
    (p.peek(data, 6) + 1) as nat
}

/// The part of a stripped setup packet behind the codebooks, rebuilt:
/// floors, residues, mappings, modes and the framing bit.
#[verifier::opaque]
pub open spec fn stripped_setup(data: Seq<u8>, p: Progress, channels: nat, codebook_count: nat) -> ModeScan {
    let p1 = floors_spec(data, p, codebook_count);
    let p2 = residues_spec(data, p1, codebook_count);
    let p3 = mappings_spec(data, p2, channels, declared_count(data, p), declared_count(data, p1));
    let scan = modes_spec(data, p3, declared_count(data, p2));
    ModeScan { p: scan.p.emit(1, 1), blockflags: scan.blockflags }
}

/// After an error nothing of a stripped setup packet is rebuilt.
pub proof fn lemma_stripped_setup_stuck(data: Seq<u8>, p: Progress, channels: nat, codebook_count: nat)
    requires
        p.err.is_some(),
    ensures
        stripped_setup(data, p, channels, codebook_count).p == p,
{
    reveal(stripped_setup);
    let p1 = floors_spec(data, p, codebook_count);
    assert(p1 == p);
    let p2 = residues_spec(data, p1, codebook_count);
    assert(p2 == p);
    let p3 = mappings_spec(data, p2, channels, declared_count(data, p), declared_count(data, p1));
    assert(p3 == p);
    let scan = modes_spec(data, p3, declared_count(data, p2));
    assert(scan.p == p);
}

/// One codebook that comes with the stream: copied where the setup
/// packet is a full one; else there is no library to rebuild it from.
pub open spec fn inline_codebook(data: Seq<u8>, p: Progress, full_setup: bool) -> Progress {
    if full_setup {
        copy_spec(data, p)
    } else {
        p.fail(ParseError::RangeViolation)
    }
}

/// `count` codebooks that come with the stream.
pub open spec fn inline_codebook_list(data: Seq<u8>, p: Progress, count: nat, full_setup: bool) -> Progress
    decreases count,
{
    if p.err.is_some() || count == 0 {
        p
    } else {
        let q = inline_codebook(data, p, full_setup);
        if q.err.is_some() {
            q
        } else {
            inline_codebook_list(data, q, (count - 1) as nat, full_setup)
        }
    }
}

/// The ten bits that open a full codebook where an index into the library
/// was expected: the low bits of the sync pattern of a codebook.
pub const SYNC_LOW: u32 = 0x342;

/// The fourteen bits that follow them: the high bits of the sync pattern.
pub const SYNC_HIGH: u32 = 0x1590;

/// One codebook of the library: its index is read in ten bits, and the
/// codebook is rebuilt from the library. Where that fails on the index
/// 0x342 and the next fourteen bits are 0x1590, the stream holds full
/// codebooks, which is reported as a malformed setup packet.
pub open spec fn external_codebook(data: Seq<u8>, p: Progress, lib: CodebookLibrary) -> Progress {
    let id = p.peek(data, 10);
    let p1 = p.take(data, 10);
    if p1.err.is_some() {
        p1
    } else {
        let built = lib.rebuild_by_id(id as int, p1.out);
        let p2 = Progress { out: built.out, ..p1 };
        match built.err {
            None => p2,
            Some(e) => if id == SYNC_LOW {
                p2.take(data, 14).require(
                    p2.peek(data, 14) != SYNC_HIGH,
                    ParseError::FormatViolation,
                ).fail(e)
            } else {
                p2.fail(e)
            },
        }
    }
}

/// `count` codebooks of the library.
pub open spec fn external_codebook_list(data: Seq<u8>, p: Progress, count: nat, lib: CodebookLibrary) -> Progress
    decreases count,
{
    if p.err.is_some() || count == 0 {
        p
    } else {
        let q = external_codebook(data, p, lib);
        if q.err.is_some() {
            q
        } else {
            external_codebook_list(data, q, (count - 1) as nat, lib)
        }
    }
}

/// The number of codebooks that the setup packet at `p` declares.
pub open spec fn setup_codebook_count(data: Seq<u8>, p: Progress) -> nat {
    (p.peek(data, 8) + 1) as nat
}

/// The codebooks of a setup packet: their count less one, copied as one
/// byte, and each codebook.
pub open spec fn setup_codebooks(
    data: Seq<u8>,
    p: Progress,
    inline_codebooks: bool,
    full_setup: bool,
    lib: CodebookLibrary,
) -> Progress {
    let p1 = p.take(data, 8).write(p.peek(data, 8), 8);
    if inline_codebooks {
        inline_codebook_list(data, p1, setup_codebook_count(data, p), full_setup)
    } else {
        external_codebook_list(data, p1, setup_codebook_count(data, p), lib)
    }
}

/// The bits up to bit `end`, copied one by one.
pub open spec fn copy_rest(data: Seq<u8>, p: Progress, end: nat) -> Progress
    decreases end - p.pos,
{
    if p.err.is_some() || p.pos >= end {
        p
    } else {
        let q = p.copy(data, 1);
        if q.err.is_some() || q.pos <= p.pos {
            q
        } else {
            copy_rest(data, q, end)
        }
    }
}

/// What rebuilding a setup packet gives: the state reached, the block
/// flag of each mode and the number of bits of a mode number.
pub struct SetupScan {
    pub p: Progress,
    pub blockflags: Seq<bool>,
    pub mode_bits: int,
}

impl SetupScan {
    /// Whether a step that returned `r`, with the writer in the state
    /// `out` and the given block flags and number of bits of a mode
    /// number, ended as this value says.
    pub open spec fn agrees<T>(
        self,
        r: Result<T, ParseError>,
        out: crate::model::OggModel,
        blockflags: Seq<bool>,
        mode_bits: int,
    ) -> bool {
        &&& self.p.out == out
        &&& self.blockflags == blockflags
        &&& self.mode_bits == mode_bits
        &&& match r {
            Ok(_) => self.p.err.is_none(),
            Err(e) => self.p.err == Some(e),
        }
    }
}

/// The place behind the codebooks and the empty list of time-domain
/// transforms that is supplied there: a count less one of zero in six
/// bits, and sixteen zero bits written as two whole bytes.
pub open spec fn setup_front(
    data: Seq<u8>,
    p: Progress,
    inline_codebooks: bool,
    full_setup: bool,
    lib: CodebookLibrary,
) -> Progress {
    setup_codebooks(data, p, inline_codebooks, full_setup, lib).write(0, 6).write(0, 16)
}

/// A setup packet of `size` bytes, rebuilt: the codebooks, the empty list
/// of time-domain transforms, and the rest, which is copied bit by bit
/// where the setup packet is a full one and rebuilt where it is stripped.
/// A full setup packet leaves the block flags and the number of bits of a
/// mode number as they were.
#[verifier::opaque]
pub open spec fn setup_body(
    data: Seq<u8>,
    p: Progress,
    inline_codebooks: bool,
    full_setup: bool,
    channels: nat,
    size: nat,
    lib: CodebookLibrary,
    blockflags: Seq<bool>,
    mode_bits: int,
) -> SetupScan {
    let front = setup_front(data, p, inline_codebooks, full_setup, lib);
    if full_setup {
        SetupScan { p: copy_rest(data, front, size * 8), blockflags, mode_bits }
    } else {
        let scan = stripped_setup(data, front, channels, setup_codebook_count(data, p));
        SetupScan {
            p: scan.p,
            blockflags: if scan.p.err.is_none() {
                scan.blockflags
            } else {
                blockflags
            },
            mode_bits: if scan.p.err.is_none() {
                stripped_mode_bits(data, front, channels, setup_codebook_count(data, p)) as int
            } else {
                mode_bits
            },
        }
    }
}

/// The number of bits of a mode number that the stripped setup packet
/// whose part behind the codebooks starts at `p` gives.
pub open spec fn stripped_mode_bits(data: Seq<u8>, p: Progress, channels: nat, codebook_count: nat) -> nat {
    let p1 = floors_spec(data, p, codebook_count);
    let p2 = residues_spec(data, p1, codebook_count);
    let p3 = mappings_spec(data, p2, channels, declared_count(data, p), declared_count(data, p1));
    mode_bits_at(data, p3)
}

/// The number of bits of a mode number in a stream whose setup packet
/// has the mode count at `p`.
pub open spec fn mode_bits_at(data: Seq<u8>, p: Progress) -> nat {
    ilog_spec(p.peek(data, 6) as nat)
}


/// Copies the partition classes of a floor and hands them back with the
/// largest of them.
#[verifier::loop_isolation(false)]
fn copy_floor_classes<O: BitOggStreamT>(ss: &mut BitStream, os: &mut O, partitions: u32) -> (r:
    Result<(Vec<u32>, u32), ParseError>)
    requires
        old(ss).wf(),
        old(os).wf(),
    ensures
        final(ss).wf(),
        final(os).wf(),
        final(ss).data() == old(ss).data(),
        floor_classes(
            old(ss).data(),
            Progress::start(old(ss).pos(), old(os).model()),
            partitions as nat,
            Seq::empty(),
        ).p.matches(r, final(ss).pos(), final(os).model()),
        match r {
            Ok((classes, largest)) => {
                &&& classes@ == floor_classes(
                    old(ss).data(),
                    Progress::start(old(ss).pos(), old(os).model()),
                    partitions as nat,
                    Seq::empty(),
                ).classes
                &&& classes@.len() == partitions
                &&& largest == max_class(classes@)
                &&& largest < 16
            },
            Err(_) => true,
        },
{
    let ghost data = ss.data();
    let ghost whole = floor_classes(
        data,
        Progress::start(ss.pos(), os.model()),
        partitions as nat,
        Seq::empty(),
    );
    let mut classes: Vec<u32> = Vec::new();
    let mut largest: u32 = 0;
    let mut j: u32 = 0;
    proof {
        lemma2_to64();
    }
    while j < partitions
        invariant
            j <= partitions,
            classes@.len() == j,
            largest == max_class(classes@),
            largest < 16,
            ss.wf(),
            os.wf(),
            ss.data() == data,
            whole == floor_classes(
                data,
                Progress::start(ss.pos(), os.model()),
                partitions as nat,
                classes@,
            ),
        decreases partitions - j,
    {
        let ghost before = classes@;
        let class_val = BitUint::<4>::read_from(ss)?;
        class_val.write_to(os)?;
        classes.push(class_val.total);
        if class_val.total > largest {
            largest = class_val.total;
        }
        proof {
            assert(classes@.drop_last() =~= before);
        }
        j = j + 1;
    }
    Ok((classes, largest))
}

/// Copies the subclass books of a floor class.
#[verifier::loop_isolation(false)]
fn copy_subclass_books<O: BitOggStreamT>(
    ss: &mut BitStream,
    os: &mut O,
    count: u32,
    codebook_count: u32,
) -> (r: Result<(), ParseError>)
    requires
        old(ss).wf(),
        old(os).wf(),
    ensures
        final(ss).wf(),
        final(os).wf(),
        final(ss).data() == old(ss).data(),
        floor_subclass_books(
            old(ss).data(),
            Progress::start(old(ss).pos(), old(os).model()),
            count as nat,
            codebook_count as nat,
        ).matches(r, final(ss).pos(), final(os).model()),
{
    let ghost data = ss.data();
    let ghost whole = floor_subclass_books(
        data,
        Progress::start(ss.pos(), os.model()),
        count as nat,
        codebook_count as nat,
    );
    let mut k: u32 = 0;
    while k < count
        invariant
            k <= count,
            ss.wf(),
            os.wf(),
            ss.data() == data,
            whole == floor_subclass_books(
                data,
                Progress::start(ss.pos(), os.model()),
                (count - k) as nat,
                codebook_count as nat,
            ),
        decreases count - k,
    {
        let subclass_book_plus1 = BitUint::<8>::read_from(ss)?;
        subclass_book_plus1.write_to(os)?;
        if subclass_book_plus1.total != 0 && subclass_book_plus1.total - 1 >= codebook_count {
            return Err(ParseError::RangeViolation);
        }
        k = k + 1;
    }
    Ok(())
}

/// Copies one floor class and hands back its dimensions.
fn copy_floor_class<O: BitOggStreamT>(ss: &mut BitStream, os: &mut O, codebook_count: u32) -> (r:
    Result<u32, ParseError>)
    requires
        old(ss).wf(),
        old(os).wf(),
    ensures
        final(ss).wf(),
        final(os).wf(),
        final(ss).data() == old(ss).data(),
        floor_class(
            old(ss).data(),
            Progress::start(old(ss).pos(), old(os).model()),
            codebook_count as nat,
        ).matches(r, final(ss).pos(), final(os).model()),
        match r {
            Ok(dimensions) => dimensions == Progress::start(old(ss).pos(), old(os).model()).peek(
                old(ss).data(),
                3,
            ) + 1,
            Err(_) => true,
        },
{
    proof {
        lemma2_to64();
    }
    let class_dimensions_less1 = BitUint::<3>::read_from(ss)?;
    class_dimensions_less1.write_to(os)?;
    let class_subclasses = BitUint::<2>::read_from(ss)?;
    class_subclasses.write_to(os)?;
    if class_subclasses.total != 0 {
        let masterbook = BitUint::<8>::read_from(ss)?;
        masterbook.write_to(os)?;
        if masterbook.total >= codebook_count {
            return Err(ParseError::RangeViolation);
        }
    }
    proof {
        lemma_shl_one(class_subclasses.total);
    }
    copy_subclass_books(ss, os, 1u32 << class_subclasses.total, codebook_count)?;
    Ok(class_dimensions_less1.total + 1)
}

/// Copies the classes of a floor and hands back their dimensions.
#[verifier::loop_isolation(false)]
fn copy_floor_class_list<O: BitOggStreamT>(
    ss: &mut BitStream,
    os: &mut O,
    class_count: u32,
    codebook_count: u32,
) -> (r: Result<Vec<u32>, ParseError>)
    requires
        old(ss).wf(),
        old(os).wf(),
    ensures
        final(ss).wf(),
        final(os).wf(),
        final(ss).data() == old(ss).data(),
        floor_class_list(
            old(ss).data(),
            Progress::start(old(ss).pos(), old(os).model()),
            class_count as nat,
            codebook_count as nat,
            Seq::empty(),
        ).p.matches(r, final(ss).pos(), final(os).model()),
        match r {
            Ok(dims) => {
                &&& dims@ == floor_class_list(
                    old(ss).data(),
                    Progress::start(old(ss).pos(), old(os).model()),
                    class_count as nat,
                    codebook_count as nat,
                    Seq::empty(),
                ).dims
                &&& dims@.len() == class_count
            },
            Err(_) => true,
        },
{
    let ghost data = ss.data();
    let ghost whole = floor_class_list(
        data,
        Progress::start(ss.pos(), os.model()),
        class_count as nat,
        codebook_count as nat,
        Seq::empty(),
    );
    let mut dims: Vec<u32> = Vec::new();
    let mut j: u32 = 0;
    while j < class_count
        invariant
            j <= class_count,
            dims@.len() == j,
            ss.wf(),
            os.wf(),
            ss.data() == data,
            whole == floor_class_list(
                data,
                Progress::start(ss.pos(), os.model()),
                class_count as nat,
                codebook_count as nat,
                dims@,
            ),
        decreases class_count - j,
    {
        let dimensions = copy_floor_class(ss, os, codebook_count)?;
        dims.push(dimensions);
        j = j + 1;
    }
    Ok(dims)
}

/// Copies the positions of a floor.
#[verifier::loop_isolation(false)]
fn copy_floor_positions<O: BitOggStreamT>(
    ss: &mut BitStream,
    os: &mut O,
    rangebits: u32,
    classes: &Vec<u32>,
    dims: &Vec<u32>,
) -> (r: Result<(), ParseError>)
    requires
        old(ss).wf(),
        old(os).wf(),
        rangebits <= 32,
        forall|i: int| 0 <= i < classes@.len() ==> classes@[i] < dims@.len(),
    ensures
        final(ss).wf(),
        final(os).wf(),
        final(ss).data() == old(ss).data(),
        floor_positions(
            old(ss).data(),
            Progress::start(old(ss).pos(), old(os).model()),
            rangebits as nat,
            classes@,
            dims@,
            0,
        ).matches(r, final(ss).pos(), final(os).model()),
{
    let ghost data = ss.data();
    let ghost whole = floor_positions(
        data,
        Progress::start(ss.pos(), os.model()),
        rangebits as nat,
        classes@,
        dims@,
        0,
    );
    let mut i: usize = 0;
    while i < classes.len()
        invariant
            i <= classes@.len(),
            ss.wf(),
            os.wf(),
            ss.data() == data,
            whole == floor_positions(
                data,
                Progress::start(ss.pos(), os.model()),
                rangebits as nat,
                classes@,
                dims@,
                i as nat,
            ),
        decreases classes@.len() - i,
    {
        let current_class_number = classes[i];
        copy_values(ss, os, rangebits as usize, dims[current_class_number as usize])?;
        i = i + 1;
    }
    Ok(())
}

/// Rebuilds one floor.
fn rebuild_floor<O: BitOggStreamT>(ss: &mut BitStream, os: &mut O, codebook_count: u32) -> (r:
    Result<(), ParseError>)
    requires
        old(ss).wf(),
        old(os).wf(),
    ensures
        final(ss).wf(),
        final(os).wf(),
        final(ss).data() == old(ss).data(),
        floor_spec(
            old(ss).data(),
            Progress::start(old(ss).pos(), old(os).model()),
            codebook_count as nat,
        ).matches(r, final(ss).pos(), final(os).model()),
{
    proof {
        lemma2_to64();
    }
    reveal(floor_spec);
    let floor_type = BitUint::<16>::new(1)?;
    floor_type.write_to(os)?;
    let floor1_partitions = BitUint::<5>::read_from(ss)?;
    floor1_partitions.write_to(os)?;
    let (classes, largest) = copy_floor_classes(ss, os, floor1_partitions.total)?;
    let dims = copy_floor_class_list(ss, os, largest + 1, codebook_count)?;
    let floor1_multiplier_less1 = BitUint::<2>::read_from(ss)?;
    floor1_multiplier_less1.write_to(os)?;
    let rangebits = BitUint::<4>::read_from(ss)?;
    rangebits.write_to(os)?;
    proof {
        assert forall|i: int| 0 <= i < classes@.len() implies classes@[i] < dims@.len() by {
            lemma_max_class(classes@, i);
        }
    }
    copy_floor_positions(ss, os, rangebits.total, &classes, &dims)
}

/// Rebuilds the floors and hands back their number.
#[verifier::loop_isolation(false)]
pub(crate) fn rebuild_floors<O: BitOggStreamT>(
    ss: &mut BitStream,
    os: &mut O,
    codebook_count: u32,
) -> (r: Result<u32, ParseError>)
    requires
        old(ss).wf(),
        old(os).wf(),
    ensures
        final(ss).wf(),
        final(os).wf(),
        final(ss).data() == old(ss).data(),
        floors_spec(
            old(ss).data(),
            Progress::start(old(ss).pos(), old(os).model()),
            codebook_count as nat,
        ).matches(r, final(ss).pos(), final(os).model()),
        match r {
            Ok(count) => count == declared_count(
                old(ss).data(),
                Progress::start(old(ss).pos(), old(os).model()),
            ),
            Err(_) => true,
        },
{
    proof {
        lemma2_to64();
    }
    let ghost data = ss.data();
    let ghost whole = floors_spec(
        data,
        Progress::start(ss.pos(), os.model()),
        codebook_count as nat,
    );
    let floor_count_less1 = BitUint::<6>::read_from(ss)?;
    let floor_count = floor_count_less1.total + 1;
    floor_count_less1.write_to(os)?;
    let mut i: u32 = 0;
    while i < floor_count
        invariant
            i <= floor_count,
            ss.wf(),
            os.wf(),
            ss.data() == data,
            whole == floor_list(
                data,
                Progress::start(ss.pos(), os.model()),
                (floor_count - i) as nat,
                codebook_count as nat,
            ),
        decreases floor_count - i,
    {
        rebuild_floor(ss, os, codebook_count)?;
        i = i + 1;
    }
    Ok(floor_count)
}


/// Copies the cascades of a residue and hands them back.
#[verifier::loop_isolation(false)]
fn copy_cascades<O: BitOggStreamT>(ss: &mut BitStream, os: &mut O, count: u32) -> (r: Result<
    Vec<u32>,
    ParseError,
>)
    requires
        old(ss).wf(),
        old(os).wf(),
    ensures
        final(ss).wf(),
        final(os).wf(),
        final(ss).data() == old(ss).data(),
        residue_cascades(
            old(ss).data(),
            Progress::start(old(ss).pos(), old(os).model()),
            count as nat,
            Seq::empty(),
        ).p.matches(r, final(ss).pos(), final(os).model()),
        match r {
            Ok(cascade) => cascade@ == residue_cascades(
                old(ss).data(),
                Progress::start(old(ss).pos(), old(os).model()),
                count as nat,
                Seq::empty(),
            ).cascade,
            Err(_) => true,
        },
{
    let ghost data = ss.data();
    let ghost whole = residue_cascades(
        data,
        Progress::start(ss.pos(), os.model()),
        count as nat,
        Seq::empty(),
    );
    let mut cascade: Vec<u32> = Vec::new();
    let mut j: u32 = 0;
    proof {
        lemma2_to64();
    }
    while j < count
        invariant
            j <= count,
            cascade@.len() == j,
            ss.wf(),
            os.wf(),
            ss.data() == data,
            whole == residue_cascades(
                data,
                Progress::start(ss.pos(), os.model()),
                count as nat,
                cascade@,
            ),
        decreases count - j,
    {
        let low_bits = BitUint::<3>::read_from(ss)?;
        low_bits.write_to(os)?;
        let bitflag = BitUint::<1>::read_from(ss)?;
        bitflag.write_to(os)?;
        let high_bits = if bitflag.total != 0 {
            BitUint::<5>::read_from(ss)?
        } else {
            BitUint::<5>::new(0)?
        };
        if bitflag.total != 0 {
            high_bits.write_to(os)?;
        }
        cascade.push(high_bits.total * 8 + low_bits.total);
        j = j + 1;
    }
    Ok(cascade)
}

/// Copies the books of one cascade.
#[verifier::loop_isolation(false)]
fn copy_cascade_books<O: BitOggStreamT>(
    ss: &mut BitStream,
    os: &mut O,
    cascade: u32,
    codebook_count: u32,
) -> (r: Result<(), ParseError>)
    requires
        old(ss).wf(),
        old(os).wf(),
    ensures
        final(ss).wf(),
        final(os).wf(),
        final(ss).data() == old(ss).data(),
        cascade_books(
            old(ss).data(),
            Progress::start(old(ss).pos(), old(os).model()),
            cascade,
            codebook_count as nat,
            0,
        ).matches(r, final(ss).pos(), final(os).model()),
{
    let ghost data = ss.data();
    let ghost whole = cascade_books(
        data,
        Progress::start(ss.pos(), os.model()),
        cascade,
        codebook_count as nat,
        0,
    );
    let mut k: u32 = 0;
    while k < 8
        invariant
            k <= 8,
            ss.wf(),
            os.wf(),
            ss.data() == data,
            whole == cascade_books(
                data,
                Progress::start(ss.pos(), os.model()),
                cascade,
                codebook_count as nat,
                k as nat,
            ),
        decreases 8 - k,
    {
        if (cascade >> k) & 1 == 1 {
            let residue_book = BitUint::<8>::read_from(ss)?;
            residue_book.write_to(os)?;
            if residue_book.total >= codebook_count {
                return Err(ParseError::RangeViolation);
            }
        }
        k = k + 1;
    }
    Ok(())
}

/// Copies the books of a residue.
#[verifier::loop_isolation(false)]
fn copy_residue_books<O: BitOggStreamT>(
    ss: &mut BitStream,
    os: &mut O,
    cascade: &Vec<u32>,
    codebook_count: u32,
) -> (r: Result<(), ParseError>)
    requires
        old(ss).wf(),
        old(os).wf(),
    ensures
        final(ss).wf(),
        final(os).wf(),
        final(ss).data() == old(ss).data(),
        residue_books(
            old(ss).data(),
            Progress::start(old(ss).pos(), old(os).model()),
            cascade@,
            codebook_count as nat,
            0,
        ).matches(r, final(ss).pos(), final(os).model()),
{
    let ghost data = ss.data();
    let ghost whole = residue_books(
        data,
        Progress::start(ss.pos(), os.model()),
        cascade@,
        codebook_count as nat,
        0,
    );
    let mut j: usize = 0;
    while j < cascade.len()
        invariant
            j <= cascade@.len(),
            ss.wf(),
            os.wf(),
            ss.data() == data,
            whole == residue_books(
                data,
                Progress::start(ss.pos(), os.model()),
                cascade@,
                codebook_count as nat,
                j as nat,
            ),
        decreases cascade@.len() - j,
    {
        copy_cascade_books(ss, os, cascade[j], codebook_count)?;
        j = j + 1;
    }
    Ok(())
}

/// Rebuilds the head of a residue and hands back the number of its
/// classifications.
fn rebuild_residue_head<O: BitOggStreamT>(ss: &mut BitStream, os: &mut O, codebook_count: u32) -> (r:
    Result<u32, ParseError>)
    requires
        old(ss).wf(),
        old(os).wf(),
    ensures
        final(ss).wf(),
        final(os).wf(),
        final(ss).data() == old(ss).data(),
        residue_head(
            old(ss).data(),
            Progress::start(old(ss).pos(), old(os).model()),
            codebook_count as nat,
        ).matches(r, final(ss).pos(), final(os).model()),
        match r {
            Ok(count) => count == residue_classifications(
                old(ss).data(),
                Progress::start(old(ss).pos(), old(os).model()),
            ),
            Err(_) => true,
        },
{
    proof {
        lemma2_to64();
    }
    let residue_type = BitUint::<2>::read_from(ss)?;
    BitUint::<16>::new(residue_type.total)?.write_to(os)?;
    if residue_type.total > 2 {
        return Err(ParseError::FormatViolation);
    }
    let residue_begin = BitUint::<24>::read_from(ss)?;
    let residue_end = BitUint::<24>::read_from(ss)?;
    let residue_partition_size_less1 = BitUint::<24>::read_from(ss)?;
    let residue_classifications_less1 = BitUint::<6>::read_from(ss)?;
    let residue_classbook = BitUint::<8>::read_from(ss)?;
    let residue_classifications = residue_classifications_less1.total + 1;
    residue_begin.write_to(os)?;
    residue_end.write_to(os)?;
    residue_partition_size_less1.write_to(os)?;
    residue_classifications_less1.write_to(os)?;
    residue_classbook.write_to(os)?;
    if residue_classbook.total >= codebook_count {
        return Err(ParseError::RangeViolation);
    }
    Ok(residue_classifications)
}

/// Rebuilds one residue.
fn rebuild_residue<O: BitOggStreamT>(ss: &mut BitStream, os: &mut O, codebook_count: u32) -> (r:
    Result<(), ParseError>)
    requires
        old(ss).wf(),
        old(os).wf(),
    ensures
        final(ss).wf(),
        final(os).wf(),
        final(ss).data() == old(ss).data(),
        residue_spec(
            old(ss).data(),
            Progress::start(old(ss).pos(), old(os).model()),
            codebook_count as nat,
        ).matches(r, final(ss).pos(), final(os).model()),
{
    reveal(residue_spec);
    let residue_classifications = rebuild_residue_head(ss, os, codebook_count)?;
    let cascade = copy_cascades(ss, os, residue_classifications)?;
    copy_residue_books(ss, os, &cascade, codebook_count)
}

/// Rebuilds the residues and hands back their number.
#[verifier::loop_isolation(false)]
pub(crate) fn rebuild_residues<O: BitOggStreamT>(
    ss: &mut BitStream,
    os: &mut O,
    codebook_count: u32,
) -> (r: Result<u32, ParseError>)
    requires
        old(ss).wf(),
        old(os).wf(),
    ensures
        final(ss).wf(),
        final(os).wf(),
        final(ss).data() == old(ss).data(),
        residues_spec(
            old(ss).data(),
            Progress::start(old(ss).pos(), old(os).model()),
            codebook_count as nat,
        ).matches(r, final(ss).pos(), final(os).model()),
        match r {
            Ok(count) => count == declared_count(
                old(ss).data(),
                Progress::start(old(ss).pos(), old(os).model()),
            ),
            Err(_) => true,
        },
{
    proof {
        lemma2_to64();
    }
    let ghost data = ss.data();
    let ghost whole = residues_spec(
        data,
        Progress::start(ss.pos(), os.model()),
        codebook_count as nat,
    );
    let residue_count_less1 = BitUint::<6>::read_from(ss)?;
    let residue_count = residue_count_less1.total + 1;
    residue_count_less1.write_to(os)?;
    let mut i: u32 = 0;
    while i < residue_count
        invariant
            i <= residue_count,
            ss.wf(),
            os.wf(),
            ss.data() == data,
            whole == residue_list(
                data,
                Progress::start(ss.pos(), os.model()),
                (residue_count - i) as nat,
                codebook_count as nat,
            ),
        decreases residue_count - i,
    {
        rebuild_residue(ss, os, codebook_count)?;
        i = i + 1;
    }
    Ok(residue_count)
}


/// Copies the coupling steps of a mapping.
#[verifier::loop_isolation(false)]
fn copy_coupling_steps<O: BitOggStreamT>(
    ss: &mut BitStream,
    os: &mut O,
    count: u32,
    channels: u16,
) -> (r: Result<(), ParseError>)
    requires
        old(ss).wf(),
        old(os).wf(),
    ensures
        final(ss).wf(),
        final(os).wf(),
        final(ss).data() == old(ss).data(),
        coupling_steps(
            old(ss).data(),
            Progress::start(old(ss).pos(), old(os).model()),
            count as nat,
            channels as nat,
        ).matches(r, final(ss).pos(), final(os).model()),
{
    let ghost data = ss.data();
    let ghost whole = coupling_steps(
        data,
        Progress::start(ss.pos(), os.model()),
        count as nat,
        channels as nat,
    );
    let mut i: u32 = 0;
    while i < count
        invariant
            i <= count,
            ss.wf(),
            os.wf(),
            ss.data() == data,
            whole == coupling_steps(
                data,
                Progress::start(ss.pos(), os.model()),
                (count - i) as nat,
                channels as nat,
            ),
        decreases count - i,
    {
        if channels == 0 {
            return Err(ParseError::RangeViolation);
        }
        let width = ilog((channels - 1) as u32) as usize;
        let magnitude = BitUintV::read_from(ss, width)?;
        let angle = BitUintV::read_from(ss, width)?;
        magnitude.write_to(os)?;
        angle.write_to(os)?;
        if angle.total == magnitude.total || magnitude.total >= channels as u32 || angle.total
            >= channels as u32 {
            return Err(ParseError::RangeViolation);
        }
        i = i + 1;
    }
    Ok(())
}

/// Copies the submap of each channel.
#[verifier::loop_isolation(false)]
fn copy_mapping_mux<O: BitOggStreamT>(ss: &mut BitStream, os: &mut O, count: u16, submaps: u32) -> (r:
    Result<(), ParseError>)
    requires
        old(ss).wf(),
        old(os).wf(),
    ensures
        final(ss).wf(),
        final(os).wf(),
        final(ss).data() == old(ss).data(),
        mapping_mux(
            old(ss).data(),
            Progress::start(old(ss).pos(), old(os).model()),
            count as nat,
            submaps as nat,
        ).matches(r, final(ss).pos(), final(os).model()),
{
    let ghost data = ss.data();
    let ghost whole = mapping_mux(
        data,
        Progress::start(ss.pos(), os.model()),
        count as nat,
        submaps as nat,
    );
    let mut i: u16 = 0;
    while i < count
        invariant
            i <= count,
            ss.wf(),
            os.wf(),
            ss.data() == data,
            whole == mapping_mux(
                data,
                Progress::start(ss.pos(), os.model()),
                (count - i) as nat,
                submaps as nat,
            ),
        decreases count - i,
    {
        let mapping_mux_value = BitUint::<4>::read_from(ss)?;
        mapping_mux_value.write_to(os)?;
        if mapping_mux_value.total >= submaps {
            return Err(ParseError::RangeViolation);
        }
        i = i + 1;
    }
    Ok(())
}

/// Copies the submaps of a mapping.
#[verifier::loop_isolation(false)]
fn copy_submaps<O: BitOggStreamT>(
    ss: &mut BitStream,
    os: &mut O,
    count: u32,
    floor_count: u32,
    residue_count: u32,
) -> (r: Result<(), ParseError>)
    requires
        old(ss).wf(),
        old(os).wf(),
    ensures
        final(ss).wf(),
        final(os).wf(),
        final(ss).data() == old(ss).data(),
        submap_list(
            old(ss).data(),
            Progress::start(old(ss).pos(), old(os).model()),
            count as nat,
            floor_count as nat,
            residue_count as nat,
        ).matches(r, final(ss).pos(), final(os).model()),
{
    let ghost data = ss.data();
    let ghost whole = submap_list(
        data,
        Progress::start(ss.pos(), os.model()),
        count as nat,
        floor_count as nat,
        residue_count as nat,
    );
    let mut i: u32 = 0;
    while i < count
        invariant
            i <= count,
            ss.wf(),
            os.wf(),
            ss.data() == data,
            whole == submap_list(
                data,
                Progress::start(ss.pos(), os.model()),
                (count - i) as nat,
                floor_count as nat,
                residue_count as nat,
            ),
        decreases count - i,
    {
        let time_config = BitUint::<8>::read_from(ss)?;
        time_config.write_to(os)?;
        let floor_number = BitUint::<8>::read_from(ss)?;
        floor_number.write_to(os)?;
        if floor_number.total >= floor_count {
            return Err(ParseError::RangeViolation);
        }
        let residue_number = BitUint::<8>::read_from(ss)?;
        residue_number.write_to(os)?;
        if residue_number.total >= residue_count {
            return Err(ParseError::RangeViolation);
        }
        i = i + 1;
    }
    Ok(())
}

/// Rebuilds the head of a mapping and hands back the number of its
/// submaps.
fn rebuild_mapping_head<O: BitOggStreamT>(ss: &mut BitStream, os: &mut O) -> (r: Result<
    u32,
    ParseError,
>)
    requires
        old(ss).wf(),
        old(os).wf(),
    ensures
        final(ss).wf(),
        final(os).wf(),
        final(ss).data() == old(ss).data(),
        mapping_head(old(ss).data(), Progress::start(old(ss).pos(), old(os).model())).matches(
            r,
            final(ss).pos(),
            final(os).model(),
        ),
        match r {
            Ok(submaps) => submaps == mapping_submaps(
                old(ss).data(),
                Progress::start(old(ss).pos(), old(os).model()),
            ),
            Err(_) => true,
        },
{
    proof {
        lemma2_to64();
    }
    let mapping_type = BitUint::<16>::new(0)?;
    mapping_type.write_to(os)?;
    let submaps_flag = BitUint::<1>::read_from(ss)?;
    submaps_flag.write_to(os)?;
    let mut submaps: u32 = 1;
    if submaps_flag.total != 0 {
        let submaps_less1 = BitUint::<4>::read_from(ss)?;
        submaps = submaps_less1.total + 1;
        submaps_less1.write_to(os)?;
    }
    Ok(submaps)
}

/// Copies the coupling of a mapping.
fn copy_mapping_coupling<O: BitOggStreamT>(ss: &mut BitStream, os: &mut O, channels: u16) -> (r:
    Result<(), ParseError>)
    requires
        old(ss).wf(),
        old(os).wf(),
    ensures
        final(ss).wf(),
        final(os).wf(),
        final(ss).data() == old(ss).data(),
        mapping_coupling(
            old(ss).data(),
            Progress::start(old(ss).pos(), old(os).model()),
            channels as nat,
        ).matches(r, final(ss).pos(), final(os).model()),
{
    proof {
        lemma2_to64();
    }
    let square_polar_flag = BitUint::<1>::read_from(ss)?;
    square_polar_flag.write_to(os)?;
    if square_polar_flag.total != 0 {
        let coupling_steps_less1 = BitUint::<8>::read_from(ss)?;
        let coupling_steps = coupling_steps_less1.total + 1;
        coupling_steps_less1.write_to(os)?;
        copy_coupling_steps(ss, os, coupling_steps, channels)?;
    }
    Ok(())
}

/// Rebuilds one mapping.
fn rebuild_mapping<O: BitOggStreamT>(
    ss: &mut BitStream,
    os: &mut O,
    channels: u16,
    floor_count: u32,
    residue_count: u32,
) -> (r: Result<(), ParseError>)
    requires
        old(ss).wf(),
        old(os).wf(),
    ensures
        final(ss).wf(),
        final(os).wf(),
        final(ss).data() == old(ss).data(),
        mapping_spec(
            old(ss).data(),
            Progress::start(old(ss).pos(), old(os).model()),
            channels as nat,
            floor_count as nat,
            residue_count as nat,
        ).matches(r, final(ss).pos(), final(os).model()),
{
    reveal(mapping_spec);
    let submaps = rebuild_mapping_head(ss, os)?;
    copy_mapping_coupling(ss, os, channels)?;
    let mapping_reserved = BitUint::<2>::read_from(ss)?;
    mapping_reserved.write_to(os)?;
    if mapping_reserved.total != 0 {
        return Err(ParseError::FormatViolation);
    }
    if submaps > 1 {
        copy_mapping_mux(ss, os, channels, submaps)?;
    }
    copy_submaps(ss, os, submaps, floor_count, residue_count)
}

/// Rebuilds the mappings and hands back their number.
#[verifier::loop_isolation(false)]
pub(crate) fn rebuild_mappings<O: BitOggStreamT>(
    ss: &mut BitStream,
    os: &mut O,
    channels: u16,
    floor_count: u32,
    residue_count: u32,
) -> (r: Result<u32, ParseError>)
    requires
        old(ss).wf(),
        old(os).wf(),
    ensures
        final(ss).wf(),
        final(os).wf(),
        final(ss).data() == old(ss).data(),
        mappings_spec(
            old(ss).data(),
            Progress::start(old(ss).pos(), old(os).model()),
            channels as nat,
            floor_count as nat,
            residue_count as nat,
        ).matches(r, final(ss).pos(), final(os).model()),
        match r {
            Ok(count) => count == declared_count(
                old(ss).data(),
                Progress::start(old(ss).pos(), old(os).model()),
            ),
            Err(_) => true,
        },
{
    proof {
        lemma2_to64();
    }
    let ghost data = ss.data();
    let ghost whole = mappings_spec(
        data,
        Progress::start(ss.pos(), os.model()),
        channels as nat,
        floor_count as nat,
        residue_count as nat,
    );
    let mapping_count_less1 = BitUint::<6>::read_from(ss)?;
    let mapping_count = mapping_count_less1.total + 1;
    mapping_count_less1.write_to(os)?;
    let mut i: u32 = 0;
    while i < mapping_count
        invariant
            i <= mapping_count,
            ss.wf(),
            os.wf(),
            ss.data() == data,
            whole == mapping_list(
                data,
                Progress::start(ss.pos(), os.model()),
                (mapping_count - i) as nat,
                channels as nat,
                floor_count as nat,
                residue_count as nat,
            ),
        decreases mapping_count - i,
    {
        rebuild_mapping(ss, os, channels, floor_count, residue_count)?;
        i = i + 1;
    }
    Ok(mapping_count)
}

/// Rebuilds one mode and hands back its block flag.
fn rebuild_mode<O: BitOggStreamT>(ss: &mut BitStream, os: &mut O, mapping_count: u32) -> (r: Result<
    bool,
    ParseError,
>)
    requires
        old(ss).wf(),
        old(os).wf(),
    ensures
        final(ss).wf(),
        final(os).wf(),
        final(ss).data() == old(ss).data(),
        mode_step(
            old(ss).data(),
            Progress::start(old(ss).pos(), old(os).model()),
            mapping_count as nat,
        ).matches(r, final(ss).pos(), final(os).model()),
        match r {
            Ok(flag) => flag == (Progress::start(old(ss).pos(), old(os).model()).peek(
                old(ss).data(),
                1,
            ) != 0),
            Err(_) => true,
        },
{
    proof {
        lemma2_to64();
    }
    let block_flag = BitUint::<1>::read_from(ss)?;
    block_flag.write_to(os)?;
    let windowtype = BitUint::<16>::new(0)?;
    windowtype.write_to(os)?;
    let transformtype = BitUint::<16>::new(0)?;
    transformtype.write_to(os)?;
    let mapping = BitUint::<8>::read_from(ss)?;
    mapping.write_to(os)?;
    if mapping.total >= mapping_count {
        return Err(ParseError::RangeViolation);
    }
    Ok(block_flag.total != 0)
}

/// Rebuilds the modes and hands back their block flags and the number of
/// bits of a mode number.
#[verifier::loop_isolation(false)]
pub(crate) fn rebuild_modes<O: BitOggStreamT>(
    ss: &mut BitStream,
    os: &mut O,
    mapping_count: u32,
) -> (r: Result<(Vec<bool>, i32), ParseError>)
    requires
        old(ss).wf(),
        old(os).wf(),
    ensures
        final(ss).wf(),
        final(os).wf(),
        final(ss).data() == old(ss).data(),
        modes_spec(
            old(ss).data(),
            Progress::start(old(ss).pos(), old(os).model()),
            mapping_count as nat,
        ).p.matches(r, final(ss).pos(), final(os).model()),
        match r {
            Ok((blockflags, mode_bits)) => {
                &&& blockflags@ == modes_spec(
                    old(ss).data(),
                    Progress::start(old(ss).pos(), old(os).model()),
                    mapping_count as nat,
                ).blockflags
                &&& blockflags@.len() == declared_count(
                    old(ss).data(),
                    Progress::start(old(ss).pos(), old(os).model()),
                )
                &&& mode_bits == mode_bits_at(
                    old(ss).data(),
                    Progress::start(old(ss).pos(), old(os).model()),
                )
                &&& 0 <= mode_bits <= 6
            },
            Err(_) => true,
        },
{
    proof {
        lemma2_to64();
    }
    let ghost data = ss.data();
    let ghost whole = modes_spec(
        data,
        Progress::start(ss.pos(), os.model()),
        mapping_count as nat,
    );
    let mode_count_less1 = BitUint::<6>::read_from(ss)?;
    let mode_count = mode_count_less1.total + 1;
    mode_count_less1.write_to(os)?;
    let mut blockflags: Vec<bool> = Vec::with_capacity(mode_count as usize);
    let mode_bits = ilog(mode_count - 1);
    proof {
        lemma_ilog_le(mode_count_less1.total as nat, 6);
    }
    let mut i: u32 = 0;
    while i < mode_count
        invariant
            i <= mode_count,
            blockflags@.len() == i,
            ss.wf(),
            os.wf(),
            ss.data() == data,
            whole == mode_list(
                data,
                Progress::start(ss.pos(), os.model()),
                mode_count as nat,
                mapping_count as nat,
                blockflags@,
            ),
        decreases mode_count - i,
    {
        let flag = rebuild_mode(ss, os, mapping_count)?;
        blockflags.push(flag);
        i = i + 1;
    }
    Ok((blockflags, mode_bits))
}

/// Rebuilds the part of a stripped setup packet behind the codebooks and
/// hands back the block flags of the modes and the number of bits of a
/// mode number.
pub(crate) fn rebuild_stripped_setup<O: BitOggStreamT>(
    ss: &mut BitStream,
    os: &mut O,
    channels: u16,
    codebook_count: u32,
) -> (r: Result<(Vec<bool>, i32), ParseError>)
    requires
        old(ss).wf(),
        old(os).wf(),
    ensures
        final(ss).wf(),
        final(os).wf(),
        final(ss).data() == old(ss).data(),
        stripped_setup(
            old(ss).data(),
            Progress::start(old(ss).pos(), old(os).model()),
            channels as nat,
            codebook_count as nat,
        ).p.matches(r, final(ss).pos(), final(os).model()),
        match r {
            Ok((blockflags, mode_bits)) => {
                &&& blockflags@ == stripped_setup(
                    old(ss).data(),
                    Progress::start(old(ss).pos(), old(os).model()),
                    channels as nat,
                    codebook_count as nat,
                ).blockflags
                &&& blockflags@.len() >= 1
                &&& mode_bits == stripped_mode_bits(
                    old(ss).data(),
                    Progress::start(old(ss).pos(), old(os).model()),
                    channels as nat,
                    codebook_count as nat,
                )
                &&& 0 <= mode_bits <= 6
            },
            Err(_) => true,
        },
{
    proof {
        lemma2_to64();
    }
    reveal(stripped_setup);
    let floor_count = rebuild_floors(ss, os, codebook_count)?;
    let residue_count = rebuild_residues(ss, os, codebook_count)?;
    let mapping_count = rebuild_mappings(ss, os, channels, floor_count, residue_count)?;
    let (blockflags, mode_bits) = rebuild_modes(ss, os, mapping_count)?;
    let framing = BitUint::<1>::new(1)?;
    framing.write_to(os)?;
    Ok((blockflags, mode_bits))
}


/// Writes the codebooks of a setup packet and hands back their number.
#[verifier::loop_isolation(false)]
pub(crate) fn write_setup_codebooks<O: BitOggStreamT>(
    ss: &mut BitStream,
    os: &mut O,
    inline_codebooks: bool,
    full_setup: bool,
    codebooks: &CodebookLibrary,
) -> (r: Result<u32, ParseError>)
    requires
        old(ss).wf(),
        old(os).wf(),
        codebooks.wf(),
    ensures
        final(ss).wf(),
        final(os).wf(),
        final(ss).data() == old(ss).data(),
        setup_codebooks(
            old(ss).data(),
            Progress::start(old(ss).pos(), old(os).model()),
            inline_codebooks,
            full_setup,
            *codebooks,
        ).matches(r, final(ss).pos(), final(os).model()),
        match r {
            Ok(count) => count == setup_codebook_count(
                old(ss).data(),
                Progress::start(old(ss).pos(), old(os).model()),
            ),
            Err(_) => true,
        },
{
    proof {
        lemma2_to64();
    }
    let ghost data = ss.data();
    let ghost whole = setup_codebooks(
        data,
        Progress::start(ss.pos(), os.model()),
        inline_codebooks,
        full_setup,
        *codebooks,
    );
    let codebook_count_less1 = BitUint::<8>::read_from(ss)?;
    let codebook_count = codebook_count_less1.total + 1;
    os.write_bits(codebook_count_less1.total, 8)?;
    if inline_codebooks {
        let cbl = CodebookLibrary::new_empty();
        let mut i: u32 = 0;
        while i < codebook_count
            invariant
                i <= codebook_count,
                ss.wf(),
                os.wf(),
                cbl.wf(),
                cbl.offsets() == Seq::<i64>::empty(),
                ss.data() == data,
                whole == inline_codebook_list(
                    data,
                    Progress::start(ss.pos(), os.model()),
                    (codebook_count - i) as nat,
                    full_setup,
                ),
            decreases codebook_count - i,
        {
            if full_setup {
                cbl.copy(ss, os)?;
            } else {
                cbl.rebuild(0, os)?;
            }
            i = i + 1;
        }
    } else {
        let mut i: u32 = 0;
        while i < codebook_count
            invariant
                i <= codebook_count,
                ss.wf(),
                os.wf(),
                ss.data() == data,
                whole == external_codebook_list(
                    data,
                    Progress::start(ss.pos(), os.model()),
                    (codebook_count - i) as nat,
                    *codebooks,
                ),
            decreases codebook_count - i,
        {
            rebuild_external_codebook(ss, os, codebooks)?;
            i = i + 1;
        }
    }
    Ok(codebook_count)
}

/// Rebuilds one codebook of the library.
fn rebuild_external_codebook<O: BitOggStreamT>(
    ss: &mut BitStream,
    os: &mut O,
    codebooks: &CodebookLibrary,
) -> (r: Result<(), ParseError>)
    requires
        old(ss).wf(),
        old(os).wf(),
        codebooks.wf(),
    ensures
        final(ss).wf(),
        final(os).wf(),
        final(ss).data() == old(ss).data(),
        external_codebook(
            old(ss).data(),
            Progress::start(old(ss).pos(), old(os).model()),
            *codebooks,
        ).matches(r, final(ss).pos(), final(os).model()),
{
    proof {
        lemma2_to64();
    }
    let codebook_id = BitUint::<10>::read_from(ss)?;
    match codebooks.rebuild(codebook_id.total as usize, os) {
        Ok(()) => Ok(()),
        Err(e) => {
            if codebook_id.total == SYNC_LOW {
                let codebook_identifier = BitUint::<14>::read_from(ss)?;
                if codebook_identifier.total == SYNC_HIGH {
                    return Err(ParseError::FormatViolation);
                }
            }
            Err(e)
        },
    }
}

/// Copies the bits up to bit `end` one by one.
#[verifier::loop_isolation(false)]
pub(crate) fn copy_remaining_bits<O: BitOggStreamT>(ss: &mut BitStream, os: &mut O, end: u64) -> (r:
    Result<(), ParseError>)
    requires
        old(ss).wf(),
        old(os).wf(),
    ensures
        final(ss).wf(),
        final(os).wf(),
        final(ss).data() == old(ss).data(),
        copy_rest(
            old(ss).data(),
            Progress::start(old(ss).pos(), old(os).model()),
            end as nat,
        ).matches(r, final(ss).pos(), final(os).model()),
{
    let ghost data = ss.data();
    let ghost whole = copy_rest(data, Progress::start(ss.pos(), os.model()), end as nat);
    while ss.get_total_bits_read() < end
        invariant
            ss.wf(),
            os.wf(),
            ss.data() == data,
            whole == copy_rest(data, Progress::start(ss.pos(), os.model()), end as nat),
        decreases end - ss.pos(),
    {
        let bit = BitUint::<1>::read_from(ss)?;
        bit.write_to(os)?;
    }
    Ok(())
}

/// Rebuilds a setup packet of `size` bytes. Where it is a stripped one,
/// the block flags of its modes and the number of bits of a mode number
/// are stored in `mode_blockflag` and `mode_bits`.
pub(crate) fn rebuild_setup_body<O: BitOggStreamT>(
    ss: &mut BitStream,
    os: &mut O,
    inline_codebooks: bool,
    full_setup: bool,
    channels: u16,
    size: u16,
    codebooks: &CodebookLibrary,
    mode_blockflag: &mut Vec<bool>,
    mode_bits: &mut i32,
) -> (r: Result<(), ParseError>)
    requires
        old(ss).wf(),
        old(os).wf(),
        codebooks.wf(),
    ensures
        final(ss).wf(),
        final(os).wf(),
        final(ss).data() == old(ss).data(),
        setup_body(
            old(ss).data(),
            Progress::start(old(ss).pos(), old(os).model()),
            inline_codebooks,
            full_setup,
            channels as nat,
            size as nat,
            *codebooks,
            old(mode_blockflag)@,
            *old(mode_bits) as int,
        ).p.matches(r, final(ss).pos(), final(os).model()),
        final(mode_blockflag)@ == setup_body(
            old(ss).data(),
            Progress::start(old(ss).pos(), old(os).model()),
            inline_codebooks,
            full_setup,
            channels as nat,
            size as nat,
            *codebooks,
            old(mode_blockflag)@,
            *old(mode_bits) as int,
        ).blockflags,
        *final(mode_bits) == setup_body(
            old(ss).data(),
            Progress::start(old(ss).pos(), old(os).model()),
            inline_codebooks,
            full_setup,
            channels as nat,
            size as nat,
            *codebooks,
            old(mode_blockflag)@,
            *old(mode_bits) as int,
        ).mode_bits,
        r.is_ok() && !full_setup ==> final(mode_blockflag)@.len() >= 1 && 0 <= *final(mode_bits) <= 6,
        full_setup ==> final(mode_blockflag)@ == old(mode_blockflag)@ && *final(mode_bits) == *old(
            mode_bits,
        ),
{
    reveal(setup_body);
    proof {
        let start = Progress::start(ss.pos(), os.model());
        let front = setup_front(ss.data(), start, inline_codebooks, full_setup, *codebooks);
        if front.err.is_some() {
            lemma_stripped_setup_stuck(
                ss.data(),
                front,
                channels as nat,
                setup_codebook_count(ss.data(), start),
            );
        }
    }
    let codebook_count = write_setup_codebooks(ss, os, inline_codebooks, full_setup, codebooks)?;
    os.write_bits(0, 6)?;
    os.write_bits(0, 16)?;
    if full_setup {
        copy_remaining_bits(ss, os, size as u64 * 8)
    } else {
        let (blockflags, bits) = rebuild_stripped_setup(ss, os, channels, codebook_count)?;
        *mode_blockflag = blockflags;
        *mode_bits = bits;
        Ok(())
    }
}

} // verus!
