use vstd::prelude::*;
use vstd::arithmetic::power::{pow, lemma_pow_increases, lemma_pow_positive, lemma0_pow};
use vstd::arithmetic::power2::{pow2, lemma2_to64, lemma_pow2_unfold};
use vstd::slice::slice_subrange;
use crate::bit_stream::{BitOggStreamT, BitStream, BitUint, BitUintV};
use crate::errors::ParseError;
use crate::progress::{copy_fields, Progress};
use crate::wwriff::{read_32_le, u32_le};

verus! {

/// The number of bits needed to write `v`: zero for zero, else the index
/// of the highest set bit plus one.
pub open spec fn ilog_spec(v: nat) -> nat
    decreases v,
{
    if v == 0 {
        0
    } else {
        1 + ilog_spec(v / 2)
    }
}

/// A positive number lies between the two powers of two that its bit
/// length names.
pub proof fn lemma_ilog_bounds(v: nat)
    ensures
        v > 0 ==> pow2((ilog_spec(v) - 1) as nat) <= v < pow2(ilog_spec(v)),
        v == 0 ==> ilog_spec(v) == 0,
    decreases v,
{
    lemma2_to64();
    if v > 0 {
        lemma_ilog_bounds(v / 2);
        lemma_pow2_unfold(ilog_spec(v));
        if v / 2 > 0 {
            lemma_pow2_unfold(ilog_spec(v / 2));
        }
    }
}

/// A number below two to the power `k` has a bit length of at most `k`.
pub proof fn lemma_ilog_le(v: nat, k: nat)
    requires
        v < pow2(k),
    ensures
        ilog_spec(v) <= k,
    decreases v,
{
    lemma2_to64();
    if v > 0 {
        lemma_pow2_unfold(k);
        lemma_ilog_le(v / 2, (k - 1) as nat);
    }
}

/// The number of bits needed to write `v`.
pub fn ilog(v: u32) -> (ret: i32)
    ensures
        ret == ilog_spec(v as nat),
        0 <= ret <= 32,
{
    let mut rest: u32 = v;
    let mut ret: i32 = 0;
    proof {
        lemma2_to64();
        lemma_ilog_le(v as nat, 32);
    }
    while rest != 0
        invariant
            0 <= ret,
            ret + ilog_spec(rest as nat) == ilog_spec(v as nat),
            ilog_spec(v as nat) <= 32,
        decreases rest,
    {
        assert(rest >> 1u32 == rest / 2) by (bit_vector);
        ret = ret + 1;
        rest = rest >> 1u32;
    }
    ret
}

/// Raising to a power keeps the order of the bases.
pub proof fn lemma_pow_base_monotone(a: nat, b: nat, e: nat)
    requires
        a <= b,
    ensures
        pow(a as int, e) <= pow(b as int, e),
        0 <= pow(a as int, e),
    decreases e,
{
    reveal(pow);
    if e > 0 {
        lemma_pow_base_monotone(a, b, (e - 1) as nat);
        let x = pow(a as int, (e - 1) as nat);
        let y = pow(b as int, (e - 1) as nat);
        assert(a * x <= b * y) by (nonlinear_arith)
            requires
                0 <= a <= b,
                0 <= x <= y,
        ;
        assert(0 <= a * x) by (nonlinear_arith)
            requires
                0 <= a,
                0 <= x,
        ;
    }
}

/// A positive power of a positive number is at least the number.
pub proof fn lemma_pow_at_least_base(b: nat, e: nat)
    requires
        e >= 1,
    ensures
        pow(b as int, e) >= b,
{
    reveal(pow);
    if b > 0 {
        lemma_pow_positive(b as int, (e - 1) as nat);
        let x = pow(b as int, (e - 1) as nat);
        assert(b * x >= b) by (nonlinear_arith)
            requires
                x >= 1,
                b >= 0,
        ;
    } else {
        lemma0_pow(e);
    }
}

/// Whether `vals` is the whole root of `entries` for the exponent
/// `dimensions`: the number whose power is at most `entries` while the
/// power of its successor is more.
pub open spec fn is_quantvals(vals: nat, entries: nat, dimensions: nat) -> bool {
    pow(vals as int, dimensions) <= entries < pow(vals as int + 1, dimensions)
}

/// At most one number is the whole root.
pub proof fn lemma_quantvals_unique(a: nat, b: nat, entries: nat, dimensions: nat)
    requires
        is_quantvals(a, entries, dimensions),
        is_quantvals(b, entries, dimensions),
    ensures
        a == b,
{
    if a < b {
        lemma_pow_base_monotone(a + 1, b, dimensions);
    } else if b < a {
        lemma_pow_base_monotone(b + 1, a, dimensions);
    }
}

/// Whether `base` to the power `exp` is more than `limit`.
fn power_exceeds(base: u64, exp: u32, limit: u32) -> (r: bool)
    requires
        exp >= 1,
        base <= 0x1_0000_0000,
    ensures
        r == (pow(base as int, exp as nat) > limit),
{
    if base <= 1 {
        proof {
            if base == 0 {
                lemma0_pow(exp as nat);
            } else {
                vstd::arithmetic::power::lemma1_pow(exp as nat);
            }
        }
        return base > limit as u64;
    }
    if limit == 0 {
        proof {
            lemma_pow_positive(base as int, exp as nat);
        }
        return true;
    }
    let mut acc: u64 = 1;
    let mut i: u32 = 0;
    proof {
        vstd::arithmetic::power::lemma_pow0(base as int);
    }
    while i < exp
        invariant
            i <= exp,
            2 <= base <= 0x1_0000_0000,
            acc == pow(base as int, i as nat),
            acc <= limit,
        decreases exp - i,
    {
        assert(acc * base <= 0xffff_ffff * 0x1_0000_0000) by (nonlinear_arith)
            requires
                acc <= 0xffff_ffff,
                base <= 0x1_0000_0000,
        ;
        proof {
            vstd::arithmetic::power::lemma_pow_adds(base as int, i as nat, 1);
            vstd::arithmetic::power::lemma_pow1(base as int);
        }
        acc = acc * base;
        i = i + 1;
        if acc > limit as u64 {
            proof {
                lemma_pow_increases(base as nat, i as nat, exp as nat);
            }
            return true;
        }
    }
    false
}

/// The number of values in a lookup table of type 1: the whole root of
/// `entries` for the exponent `dimensions`.
pub fn book_maptype1_quantvals(entries: u32, dimensions: u32) -> (vals: u32)
    requires
        dimensions >= 1,
    ensures
        is_quantvals(vals as nat, entries as nat, dimensions as nat),
{
    let bits = ilog(entries);
    let shift: u32 = if bits == 0 {
        0
    } else {
        let span: u64 = (bits - 1) as u64;
        let less: u64 = (dimensions - 1) as u64;
        assert(span * less <= 31 * 0xffff_ffff) by (nonlinear_arith)
            requires
                span <= 31,
                less <= 0xffff_ffff,
        ;
        let scaled: u64 = span * less;
        assert(scaled / (dimensions as u64) <= span) by (nonlinear_arith)
            requires
                scaled == span * less,
                less < dimensions,
                0 <= span,
        ;
        (scaled / (dimensions as u64)) as u32
    };
    let mut vals: u32 = entries >> shift;
    let mut high = power_exceeds(vals as u64, dimensions, entries);
    while high
        invariant
            dimensions >= 1,
            high == (pow(vals as int, dimensions as nat) > entries),
        decreases vals,
    {
        proof {
            if vals == 0 {
                lemma0_pow(dimensions as nat);
            }
        }
        vals = vals - 1;
        high = power_exceeds(vals as u64, dimensions, entries);
    }
    let mut low = !power_exceeds(vals as u64 + 1, dimensions, entries);
    while low
        invariant
            dimensions >= 1,
            pow(vals as int, dimensions as nat) <= entries,
            low == (pow(vals + 1, dimensions as nat) <= entries),
        decreases entries - vals,
    {
        proof {
            lemma_pow_at_least_base((vals + 1) as nat, dimensions as nat);
        }
        vals = vals + 1;
        low = !power_exceeds(vals as u64 + 1, dimensions, entries);
    }
    vals
}


/// The whole root of `entries` for the exponent `dimensions`.
pub open spec fn quantvals_spec(entries: nat, dimensions: nat) -> nat {
    choose|vals: nat| is_quantvals(vals, entries, dimensions)
}

/// The sync pattern that opens a codebook.
pub const CODEBOOK_SYNC: u32 = 0x564342;

/// A list of codeword lengths in run-length form, read and written
/// unchanged: each field counts the entries that share the next length,
/// and is as wide as the number of entries still open needs. `current`
/// entries are already covered.
pub open spec fn ordered_lengths(data: Seq<u8>, p: Progress, entries: nat, current: nat) -> Progress
    decreases 8 * data.len() - p.pos,
{
    if p.err.is_some() || current >= entries {
        p.require(current <= entries, ParseError::RangeViolation)
    } else {
        let width = ilog_spec((entries - current) as nat);
        let number = p.peek(data, width);
        let q = p.copy(data, width);
        if q.err.is_some() || q.pos <= p.pos {
            q
        } else {
            ordered_lengths(data, q, entries, current + number as nat)
        }
    }
}

/// A list of codeword lengths in the packed form, from entry `i` on: an
/// optional presence flag, copied, and a length of `length_bits` bits,
/// written in five bits.
pub open spec fn packed_lengths(
    data: Seq<u8>,
    p: Progress,
    entries: nat,
    length_bits: nat,
    sparse: bool,
    i: nat,
) -> Progress
    decreases entries - i,
{
    if p.err.is_some() || i >= entries {
        p
    } else {
        let flagged = if sparse {
            p.copy(data, 1)
        } else {
            p
        };
        let present = !sparse || p.peek(data, 1) != 0;
        let next = if present {
            flagged.take(data, length_bits).emit(flagged.peek(data, length_bits), 5)
        } else {
            flagged
        };
        if next.err.is_some() {
            next
        } else {
            packed_lengths(data, next, entries, length_bits, sparse, i + 1)
        }
    }
}

/// A list of codeword lengths in the canonical form, from entry `i` on,
/// read and written unchanged: an optional presence flag and a length of
/// five bits.
pub open spec fn plain_lengths(data: Seq<u8>, p: Progress, entries: nat, sparse: bool, i: nat) -> Progress
    decreases entries - i,
{
    if p.err.is_some() || i >= entries {
        p
    } else {
        let flagged = if sparse {
            p.copy(data, 1)
        } else {
            p
        };
        let present = !sparse || p.peek(data, 1) != 0;
        let next = if present {
            flagged.copy(data, 5)
        } else {
            flagged
        };
        if next.err.is_some() {
            next
        } else {
            plain_lengths(data, next, entries, sparse, i + 1)
        }
    }
}

/// The lookup table of a codebook, read and written unchanged. Type 0 has
/// none. Type 1 has two 32-bit bounds, a value width less one in four
/// bits, a sequence flag, and as many values as the whole root of
/// `entries` for the exponent `dimensions` says; without dimensions it is
/// malformed. No other type is accepted.
pub open spec fn lookup_table(
    data: Seq<u8>,
    p: Progress,
    lookup_type: nat,
    entries: nat,
    dimensions: nat,
) -> Progress {
    if lookup_type == 0 {
        p
    } else if lookup_type == 1 {
        let min = p.peek(data, 32);
        let p1 = p.take(data, 32);
        let max = p1.peek(data, 32);
        let p2 = p1.take(data, 32);
        let value_length = p2.peek(data, 4);
        let p3 = p2.take(data, 4);
        let sequence_flag = p3.peek(data, 1);
        let p4 = p3.take(data, 1);
        let p5 = p4.emit(min, 32).emit(max, 32).emit(value_length, 4).emit(sequence_flag, 1);
        let p6 = p5.require(dimensions >= 1, ParseError::FormatViolation);
        copy_fields(data, p6, (value_length + 1) as nat, quantvals_spec(entries, dimensions))
    } else {
        p.fail(ParseError::FormatViolation)
    }
}

/// The dimensions of the packed codebook that starts at `p`.
pub open spec fn packed_dimensions(data: Seq<u8>, p: Progress) -> u32 {
    p.peek(data, 4)
}

/// The entry count of the packed codebook that starts at `p`.
pub open spec fn packed_entries(data: Seq<u8>, p: Progress) -> u32 {
    p.take(data, 4).peek(data, 14)
}

/// The head of a packed codebook, rebuilt: the sync pattern is supplied,
/// the dimensions are widened from 4 to 16 bits and the entry count from
/// 14 to 24 bits.
pub open spec fn packed_head(data: Seq<u8>, p: Progress) -> Progress {
    p.take(data, 4).take(data, 14).emit(CODEBOOK_SYNC, 24).emit(packed_dimensions(data, p), 16).emit(
        packed_entries(data, p),
        24,
    )
}

/// The codeword lengths of a packed codebook, rebuilt: the run-length
/// form is copied; else a length width between one and five bits and a
/// sparse flag are read, the flag is copied, and each length is widened
/// to five bits.
pub open spec fn packed_codeword_lengths(data: Seq<u8>, p: Progress, entries: nat) -> Progress {
    let ordered = p.peek(data, 1);
    let p1 = p.copy(data, 1);
    if ordered != 0 {
        ordered_lengths(data, p1.copy(data, 5), entries, 0)
    } else {
        let length_bits = p1.peek(data, 3);
        let q1 = p1.take(data, 3);
        let sparse = q1.peek(data, 1);
        let q2 = q1.take(data, 1);
        let q3 = q2.require(1 <= length_bits <= 5, ParseError::FormatViolation);
        packed_lengths(data, q3.emit(sparse, 1), entries, length_bits as nat, sparse != 0, 0)
    }
}

/// The lookup table of a packed codebook, rebuilt: its type is widened
/// from 1 to 4 bits, the rest is copied.
pub open spec fn packed_lookup(data: Seq<u8>, p: Progress, entries: nat, dimensions: nat) -> Progress {
    let lookup_type = p.peek(data, 1);
    lookup_table(data, p.take(data, 1).emit(lookup_type, 4), lookup_type as nat, entries, dimensions)
}

/// A codebook in the packed form, rebuilt in the canonical form: head,
/// codeword lengths and lookup table. Where `cb_size` is not zero, the
/// bytes read, counted as whole bytes plus one, must be `cb_size`.
#[verifier::opaque]
pub open spec fn rebuild_spec(data: Seq<u8>, p: Progress, cb_size: nat) -> Progress {
    let dimensions = packed_dimensions(data, p) as nat;
    let entries = packed_entries(data, p) as nat;
    let p1 = packed_head(data, p);
    let p2 = packed_codeword_lengths(data, p1, entries);
    let p3 = packed_lookup(data, p2, entries, dimensions);
    p3.require(cb_size == 0 || p3.pos / 8 + 1 == cb_size, ParseError::SizeMismatch)
}

/// The dimensions of the canonical codebook that starts at `p`.
pub open spec fn plain_dimensions(data: Seq<u8>, p: Progress) -> u32 {
    p.take(data, 24).peek(data, 16)
}

/// The entry count of the canonical codebook that starts at `p`.
pub open spec fn plain_entries(data: Seq<u8>, p: Progress) -> u32 {
    p.take(data, 24).take(data, 16).peek(data, 24)
}

/// The head of a canonical codebook, copied: the sync pattern, which must
/// be the right one, 16 bits of dimensions and 24 bits of entry count.
pub open spec fn plain_head(data: Seq<u8>, p: Progress) -> Progress {
    let id = p.peek(data, 24);
    p.take(data, 24).take(data, 16).take(data, 24).require(
        id == CODEBOOK_SYNC,
        ParseError::FormatViolation,
    ).emit(id, 24).emit(plain_dimensions(data, p), 16).emit(plain_entries(data, p), 24)
}

/// The codeword lengths of a canonical codebook, copied.
pub open spec fn plain_codeword_lengths(data: Seq<u8>, p: Progress, entries: nat) -> Progress {
    let ordered = p.peek(data, 1);
    let p1 = p.copy(data, 1);
    if ordered != 0 {
        ordered_lengths(data, p1.copy(data, 5), entries, 0)
    } else {
        let sparse = p1.peek(data, 1);
        plain_lengths(data, p1.copy(data, 1), entries, sparse != 0, 0)
    }
}

/// The lookup table of a canonical codebook, copied with its type of
/// four bits.
pub open spec fn plain_lookup(data: Seq<u8>, p: Progress, entries: nat, dimensions: nat) -> Progress {
    let lookup_type = p.peek(data, 4);
    lookup_table(data, p.copy(data, 4), lookup_type as nat, entries, dimensions)
}

/// A codebook in the canonical form, read and written unchanged: head,
/// codeword lengths and lookup table.
#[verifier::opaque]
pub open spec fn copy_spec(data: Seq<u8>, p: Progress) -> Progress {
    let dimensions = plain_dimensions(data, p) as nat;
    let entries = plain_entries(data, p) as nat;
    let p1 = plain_head(data, p);
    let p2 = plain_codeword_lengths(data, p1, entries);
    plain_lookup(data, p2, entries, dimensions)
}

/// Copies `count` fields of `width` bits each.
#[verifier::loop_isolation(false)]
pub(crate) fn copy_values<O: BitOggStreamT>(
    bis: &mut BitStream,
    os: &mut O,
    width: usize,
    count: u32,
) -> (r: Result<(), ParseError>)
    requires
        old(bis).wf(),
        old(os).wf(),
        width <= 32,
    ensures
        final(bis).wf(),
        final(os).wf(),
        final(bis).data() == old(bis).data(),
        copy_fields(
            old(bis).data(),
            Progress::start(old(bis).pos(), old(os).model()),
            width as nat,
            count as nat,
        ).matches(r, final(bis).pos(), final(os).model()),
{
    let ghost data = bis.data();
    let ghost whole = copy_fields(
        data,
        Progress::start(bis.pos(), os.model()),
        width as nat,
        count as nat,
    );
    let mut i: u32 = 0;
    while i < count
        invariant
            i <= count,
            width <= 32,
            bis.wf(),
            os.wf(),
            bis.data() == data,
            whole == copy_fields(
                data,
                Progress::start(bis.pos(), os.model()),
                width as nat,
                (count - i) as nat,
            ),
        decreases count - i,
    {
        let val = BitUintV::read_from(bis, width)?;
        val.write_to(os)?;
        i = i + 1;
    }
    Ok(())
}

/// Copies a list of codeword lengths in run-length form.
#[verifier::loop_isolation(false)]
fn copy_ordered_lengths<O: BitOggStreamT>(bis: &mut BitStream, os: &mut O, entries: u32) -> (r:
    Result<(), ParseError>)
    requires
        old(bis).wf(),
        old(os).wf(),
        entries <= 0xff_ffff,
    ensures
        final(bis).wf(),
        final(os).wf(),
        final(bis).data() == old(bis).data(),
        ordered_lengths(
            old(bis).data(),
            Progress::start(old(bis).pos(), old(os).model()),
            entries as nat,
            0,
        ).matches(r, final(bis).pos(), final(os).model()),
{
    let ghost data = bis.data();
    let ghost whole = ordered_lengths(
        data,
        Progress::start(bis.pos(), os.model()),
        entries as nat,
        0,
    );
    let mut current_entry: u32 = 0;
    while current_entry < entries
        invariant
            entries <= 0xff_ffff,
            current_entry <= 2 * entries,
            bis.wf(),
            os.wf(),
            bis.data() == data,
            whole == ordered_lengths(
                data,
                Progress::start(bis.pos(), os.model()),
                entries as nat,
                current_entry as nat,
            ),
        decreases 8 * data.len() - bis.pos(),
    {
        let open = entries - current_entry;
        let bits = ilog(open) as usize;
        proof {
            lemma_ilog_bounds(open as nat);
            lemma_pow2_unfold(bits as nat);
            bis.lemma_pos_in_range();
        }
        let number = BitUintV::read_from(bis, bits)?;
        number.write_to(os)?;
        current_entry = current_entry + number.total;
    }
    if current_entry > entries {
        return Err(ParseError::RangeViolation);
    }
    Ok(())
}

/// Rebuilds a list of codeword lengths from the packed form.
#[verifier::loop_isolation(false)]
fn rebuild_lengths<O: BitOggStreamT>(
    bis: &mut BitStream,
    os: &mut O,
    entries: u32,
    length_bits: u32,
    sparse: bool,
) -> (r: Result<(), ParseError>)
    requires
        old(bis).wf(),
        old(os).wf(),
        1 <= length_bits <= 5,
    ensures
        final(bis).wf(),
        final(os).wf(),
        final(bis).data() == old(bis).data(),
        packed_lengths(
            old(bis).data(),
            Progress::start(old(bis).pos(), old(os).model()),
            entries as nat,
            length_bits as nat,
            sparse,
            0,
        ).matches(r, final(bis).pos(), final(os).model()),
{
    let ghost data = bis.data();
    let ghost whole = packed_lengths(
        data,
        Progress::start(bis.pos(), os.model()),
        entries as nat,
        length_bits as nat,
        sparse,
        0,
    );
    let mut i: u32 = 0;
    while i < entries
        invariant
            i <= entries,
            1 <= length_bits <= 5,
            bis.wf(),
            os.wf(),
            bis.data() == data,
            whole == packed_lengths(
                data,
                Progress::start(bis.pos(), os.model()),
                entries as nat,
                length_bits as nat,
                sparse,
                i as nat,
            ),
        decreases entries - i,
    {
        let mut present_bool = true;
        if sparse {
            let present = BitUint::<1>::read_from(bis)?;
            present.write_to(os)?;
            present_bool = present.total != 0;
        }
        if present_bool {
            let codeword_length = BitUintV::read_from(bis, length_bits as usize)?;
            proof {
                lemma2_to64();
            }
            BitUint::<5>::new(codeword_length.total)?.write_to(os)?;
        }
        i = i + 1;
    }
    Ok(())
}

/// Copies a list of codeword lengths in the canonical form.
#[verifier::loop_isolation(false)]
fn copy_lengths<O: BitOggStreamT>(bis: &mut BitStream, os: &mut O, entries: u32, sparse: bool) -> (r:
    Result<(), ParseError>)
    requires
        old(bis).wf(),
        old(os).wf(),
    ensures
        final(bis).wf(),
        final(os).wf(),
        final(bis).data() == old(bis).data(),
        plain_lengths(
            old(bis).data(),
            Progress::start(old(bis).pos(), old(os).model()),
            entries as nat,
            sparse,
            0,
        ).matches(r, final(bis).pos(), final(os).model()),
{
    let ghost data = bis.data();
    let ghost whole = plain_lengths(
        data,
        Progress::start(bis.pos(), os.model()),
        entries as nat,
        sparse,
        0,
    );
    let mut i: u32 = 0;
    while i < entries
        invariant
            i <= entries,
            bis.wf(),
            os.wf(),
            bis.data() == data,
            whole == plain_lengths(
                data,
                Progress::start(bis.pos(), os.model()),
                entries as nat,
                sparse,
                i as nat,
            ),
        decreases entries - i,
    {
        let mut present_bool = true;
        if sparse {
            let present = BitUint::<1>::read_from(bis)?;
            present.write_to(os)?;
            present_bool = present.total != 0;
        }
        if present_bool {
            let codeword_length = BitUint::<5>::read_from(bis)?;
            codeword_length.write_to(os)?;
        }
        i = i + 1;
    }
    Ok(())
}

/// Copies the lookup table of a codebook.
fn copy_lookup<O: BitOggStreamT>(
    bis: &mut BitStream,
    os: &mut O,
    lookup_type: u32,
    entries: u32,
    dimensions: u32,
) -> (r: Result<(), ParseError>)
    requires
        old(bis).wf(),
        old(os).wf(),
    ensures
        final(bis).wf(),
        final(os).wf(),
        final(bis).data() == old(bis).data(),
        lookup_table(
            old(bis).data(),
            Progress::start(old(bis).pos(), old(os).model()),
            lookup_type as nat,
            entries as nat,
            dimensions as nat,
        ).matches(r, final(bis).pos(), final(os).model()),
{
    if lookup_type == 0 {
        Ok(())
    } else if lookup_type == 1 {
        let min = BitUint::<32>::read_from(bis)?;
        let max = BitUint::<32>::read_from(bis)?;
        let value_length = BitUint::<4>::read_from(bis)?;
        let sequence_flag = BitUint::<1>::read_from(bis)?;
        min.write_to(os)?;
        max.write_to(os)?;
        value_length.write_to(os)?;
        sequence_flag.write_to(os)?;
        if dimensions == 0 {
            return Err(ParseError::FormatViolation);
        }
        let quantvals = book_maptype1_quantvals(entries, dimensions);
        proof {
            lemma2_to64();
            lemma_quantvals_unique(
                quantvals as nat,
                quantvals_spec(entries as nat, dimensions as nat),
                entries as nat,
                dimensions as nat,
            );
        }
        copy_values(bis, os, (value_length.total + 1) as usize, quantvals)
    } else {
        Err(ParseError::FormatViolation)
    }
}


/// The signed number that a 32-bit pattern stands for in two's
/// complement.
pub open spec fn as_signed(v: nat) -> int {
    if v >= 0x8000_0000 {
        v - 0x1_0000_0000
    } else {
        v as int
    }
}

/// Where the table of offsets starts in a codebook file: the number in
/// its last four bytes.
pub open spec fn table_start(file: Seq<u8>) -> nat {
    u32_le(file, file.len() - 4)
}

/// The number of offsets in a codebook file.
pub open spec fn table_count(file: Seq<u8>) -> nat {
    ((file.len() - table_start(file)) / 4) as nat
}

/// Offset `k` of the table of a codebook file.
pub open spec fn table_offset(file: Seq<u8>, k: int) -> i64 {
    as_signed(u32_le(file, table_start(file) + 4 * k)) as i64
}

/// A set of packed codebooks: a blob and the offsets at which each
/// codebook starts in it, or nothing where the codebooks come with the
/// stream.
pub struct CodebookLibrary {
    codebook_data: Option<Vec<u8>>,
    codebook_offsets: Option<Vec<i64>>,
    codebook_count: i64,
}

impl CodebookLibrary {
    /// Whether a blob is held.
    pub closed spec fn loaded(&self) -> bool {
        self.codebook_data.is_some()
    }

    /// The blob, empty where none is held.
    pub closed spec fn blob(&self) -> Seq<u8> {
        match self.codebook_data {
            Some(data) => data@,
            None => Seq::empty(),
        }
    }

    /// The offsets, none where no blob is held. Codebook `i` lies between
    /// offset `i` and offset `i + 1`.
    pub closed spec fn offsets(&self) -> Seq<i64> {
        match self.codebook_offsets {
            Some(offsets) => offsets@,
            None => Seq::empty(),
        }
    }

    /// The invariant of the library.
    pub closed spec fn wf(&self) -> bool {
        &&& self.codebook_data.is_some() == self.codebook_offsets.is_some()
        &&& self.codebook_count == self.offsets().len()
        &&& self.blob().len() <= u32::MAX
        &&& forall|k: int|
            0 <= k < self.offsets().len() ==> i32::MIN <= #[trigger] self.offsets()[k] <= i32::MAX
    }

    /// Whether `i` names a codebook: one more offset follows it.
    pub open spec fn has_codebook(&self, i: int) -> bool {
        0 <= i && i + 1 < self.offsets().len()
    }

    /// Whether the two offsets of codebook `i` mark a range of the blob.
    pub open spec fn codebook_in_blob(&self, i: int) -> bool {
        0 <= self.offsets()[i] <= self.offsets()[i + 1] <= self.blob().len()
    }

    /// The bytes of codebook `i`.
    pub open spec fn codebook(&self, i: int) -> Seq<u8> {
        self.blob().subrange(self.offsets()[i] as int, self.offsets()[i + 1] as int)
    }

    /// A library that holds nothing.
    pub fn new_empty() -> (lib: Self)
        ensures
            lib.wf(),
            !lib.loaded(),
            lib.blob() == Seq::<u8>::empty(),
            lib.offsets() == Seq::<i64>::empty(),
    {
        Self { codebook_data: None, codebook_offsets: None, codebook_count: 0 }
    }

    /// Reads a library from the bytes of a codebook file: the last four
    /// bytes say where the blob ends and the table of 32-bit offsets
    /// starts.
    pub fn new_from_file(file: &[u8]) -> (r: Result<Self, ParseError>)
        ensures
            match r {
                Ok(lib) => {
                    &&& file@.len() >= 4
                    &&& table_start(file@) <= file@.len()
                    &&& lib.wf()
                    &&& lib.loaded()
                    &&& lib.blob() == file@.take(table_start(file@) as int)
                    &&& lib.offsets() == Seq::new(
                        table_count(file@),
                        |k: int| table_offset(file@, k),
                    )
                },
                Err(e) => if file@.len() < 4 {
                    e == ParseError::FormatViolation
                } else {
                    e == ParseError::Io && table_start(file@) > file@.len()
                },
            },
    {
        let file_size = file.len();
        if file_size < 4 {
            return Err(ParseError::FormatViolation);
        }
        let offset_offset = match read_32_le(file, file_size - 4) {
            Ok(v) => v as usize,
            Err(e) => {
                return Err(e);
            },
        };
        if offset_offset > file_size {
            return Err(ParseError::Io);
        }
        let codebook_count = (file_size - offset_offset) / 4;
        let codebook_data = vstd::slice::slice_to_vec(slice_subrange(file, 0, offset_offset));
        let mut codebook_offsets: Vec<i64> = Vec::with_capacity(codebook_count);
        let mut k: usize = 0;
        while k < codebook_count
            invariant
                k <= codebook_count,
                file_size == file@.len(),
                codebook_count == (file_size - offset_offset) / 4,
                codebook_count == table_count(file@),
                offset_offset == table_start(file@),
                offset_offset <= file@.len(),
                codebook_offsets@.len() == k,
                forall|j: int| 0 <= j < k ==> codebook_offsets@[j] == table_offset(file@, j),
            decreases codebook_count - k,
        {
            let raw = match read_32_le(file, offset_offset + 4 * k) {
                Ok(v) => v,
                Err(e) => {
                    return Err(e);
                },
            };
            let offset: i64 = if raw >= 0x8000_0000 {
                raw as i64 - 0x1_0000_0000
            } else {
                raw as i64
            };
            codebook_offsets.push(offset);
            k = k + 1;
        }
        proof {
            assert(codebook_offsets@ =~= Seq::new(
                table_count(file@),
                |k: int| table_offset(file@, k),
            ));
        }
        Ok(
            Self {
                codebook_data: Some(codebook_data),
                codebook_offsets: Some(codebook_offsets),
                codebook_count: codebook_count as i64,
            },
        )
    }

    /// The bytes of codebook `i`. Refused where `i` names no codebook, or
    /// where its offsets mark no range of the blob.
    pub fn get_codebook(&self, i: usize) -> (r: Result<&[u8], ParseError>)
        requires
            self.wf(),
        ensures
            match r {
                Ok(cb) => self.has_codebook(i as int) && self.codebook_in_blob(i as int) && cb@
                    == self.codebook(i as int),
                Err(e) => e == ParseError::RangeViolation && !(self.has_codebook(i as int)
                    && self.codebook_in_blob(i as int)),
            },
    {
        match (&self.codebook_data, &self.codebook_offsets) {
            (Some(data), Some(offsets)) => {
                if i >= offsets.len() || offsets.len() - i < 2 {
                    return Err(ParseError::RangeViolation);
                }
                let start = offsets[i];
                let end = offsets[i + 1];
                if start < 0 || start > end || end > data.len() as i64 {
                    return Err(ParseError::RangeViolation);
                }
                Ok(slice_subrange(data.as_slice(), start as usize, end as usize))
            },
            _ => Err(ParseError::RangeViolation),
        }
    }

    /// The size of codebook `i`: the distance between its two offsets.
    /// Refused where `i` names no codebook.
    pub fn get_codebook_size(&self, i: usize) -> (r: Result<i64, ParseError>)
        requires
            self.wf(),
        ensures
            match r {
                Ok(size) => self.has_codebook(i as int) && size == self.offsets()[i + 1]
                    - self.offsets()[i as int],
                Err(e) => e == ParseError::RangeViolation && !self.has_codebook(i as int),
            },
    {
        match &self.codebook_offsets {
            Some(offsets) => {
                if i >= offsets.len() || offsets.len() - i < 2 {
                    return Err(ParseError::RangeViolation);
                }
                Ok(offsets[i + 1] - offsets[i])
            },
            None => Err(ParseError::RangeViolation),
        }
    }

    /// What `rebuild` does with codebook `codebook_id`: the codebook must
    /// exist and hold at least one byte, and is then rebuilt from its
    /// first bit, its size being the size to meet.
    pub open spec fn rebuild_by_id(&self, codebook_id: int, out: crate::model::OggModel) -> Progress {
        let p = Progress::start(0, out);
        if !(self.has_codebook(codebook_id) && self.codebook_in_blob(codebook_id)) {
            p.fail(ParseError::RangeViolation)
        } else if self.codebook(codebook_id).len() == 0 {
            p.fail(ParseError::RangeViolation)
        } else {
            rebuild_spec(self.codebook(codebook_id), p, self.codebook(codebook_id).len())
        }
    }

    /// Rebuilds codebook `codebook_id` of the library in the canonical
    /// form and writes it to `os`.
    pub fn rebuild<O: BitOggStreamT>(&self, codebook_id: usize, os: &mut O) -> (r: Result<
        (),
        ParseError,
    >)
        requires
            self.wf(),
            old(os).wf(),
        ensures
            final(os).wf(),
            final(os).model() == self.rebuild_by_id(codebook_id as int, old(os).model()).out,
            match r {
                Ok(_) => self.rebuild_by_id(codebook_id as int, old(os).model()).err.is_none(),
                Err(e) => self.rebuild_by_id(codebook_id as int, old(os).model()).err == Some(e),
            },
    {
        let cb = self.get_codebook(codebook_id)?;
        let cb_size = self.get_codebook_size(codebook_id)?;
        if cb.len() == 0 || cb_size == -1 {
            return Err(ParseError::RangeViolation);
        }
        assert(cb@.len() == cb_size);
        let mut bis = BitStream::new(cb);
        let r = self.rebuild_from_stream(&mut bis, cb_size as u32, os);
        assert(self.rebuild_by_id(codebook_id as int, old(os).model()) == rebuild_spec(
            cb@,
            Progress::start(0, old(os).model()),
            cb@.len(),
        ));
        r
    }

    /// Reads a codebook in the packed form from `bis` and writes it to
    /// `os` in the canonical form.
    pub fn rebuild_from_stream<O: BitOggStreamT>(
        &self,
        bis: &mut BitStream,
        cb_size: u32,
        os: &mut O,
    ) -> (r: Result<(), ParseError>)
        requires
            old(bis).wf(),
            old(os).wf(),
        ensures
            final(bis).wf(),
            final(os).wf(),
            final(bis).data() == old(bis).data(),
            rebuild_spec(
                old(bis).data(),
                Progress::start(old(bis).pos(), old(os).model()),
                cb_size as nat,
            ).matches(r, final(bis).pos(), final(os).model()),
    {
        reveal(rebuild_spec);
        let (dimensions, entries) = rebuild_head(bis, os)?;
        rebuild_codeword_lengths(bis, os, entries)?;
        rebuild_lookup(bis, os, entries, dimensions)?;
        if cb_size != 0 && (bis.get_total_bits_read() / 8 + 1) != cb_size as u64 {
            return Err(ParseError::SizeMismatch);
        }
        Ok(())
    }

    /// Reads a codebook in the canonical form from `bis` and writes it to
    /// `os` unchanged.
    pub fn copy<O: BitOggStreamT>(&self, bis: &mut BitStream, os: &mut O) -> (r: Result<
        (),
        ParseError,
    >)
        requires
            old(bis).wf(),
            old(os).wf(),
        ensures
            final(bis).wf(),
            final(os).wf(),
            final(bis).data() == old(bis).data(),
            copy_spec(old(bis).data(), Progress::start(old(bis).pos(), old(os).model())).matches(
                r,
                final(bis).pos(),
                final(os).model(),
            ),
    {
        reveal(copy_spec);
        let (dimensions, entries) = copy_head(bis, os)?;
        copy_codeword_lengths(bis, os, entries)?;
        copy_plain_lookup(bis, os, entries, dimensions)
    }
}

/// Rebuilds the head of a packed codebook and hands back its dimensions
/// and its entry count.
fn rebuild_head<O: BitOggStreamT>(bis: &mut BitStream, os: &mut O) -> (r: Result<
    (u32, u32),
    ParseError,
>)
    requires
        old(bis).wf(),
        old(os).wf(),
    ensures
        final(bis).wf(),
        final(os).wf(),
        final(bis).data() == old(bis).data(),
        packed_head(old(bis).data(), Progress::start(old(bis).pos(), old(os).model())).matches(
            r,
            final(bis).pos(),
            final(os).model(),
        ),
        match r {
            Ok((dimensions, entries)) => {
                &&& dimensions == packed_dimensions(
                    old(bis).data(),
                    Progress::start(old(bis).pos(), old(os).model()),
                )
                &&& entries == packed_entries(
                    old(bis).data(),
                    Progress::start(old(bis).pos(), old(os).model()),
                )
                &&& entries < 0x4000
            },
            Err(_) => true,
        },
{
    proof {
        lemma2_to64();
    }
    let dimensions = BitUint::<4>::read_from(bis)?;
    let entries = BitUint::<14>::read_from(bis)?;
    BitUint::<24>::new(CODEBOOK_SYNC)?.write_to(os)?;
    BitUint::<16>::new(dimensions.total)?.write_to(os)?;
    BitUint::<24>::new(entries.total)?.write_to(os)?;
    Ok((dimensions.total, entries.total))
}

/// Rebuilds the codeword lengths of a packed codebook.
fn rebuild_codeword_lengths<O: BitOggStreamT>(bis: &mut BitStream, os: &mut O, entries: u32) -> (r:
    Result<(), ParseError>)
    requires
        old(bis).wf(),
        old(os).wf(),
        entries <= 0xff_ffff,
    ensures
        final(bis).wf(),
        final(os).wf(),
        final(bis).data() == old(bis).data(),
        packed_codeword_lengths(
            old(bis).data(),
            Progress::start(old(bis).pos(), old(os).model()),
            entries as nat,
        ).matches(r, final(bis).pos(), final(os).model()),
{
    proof {
        lemma2_to64();
    }
    let ordered = BitUint::<1>::read_from(bis)?;
    ordered.write_to(os)?;
    if ordered.total != 0 {
        let initial_length = BitUint::<5>::read_from(bis)?;
        initial_length.write_to(os)?;
        copy_ordered_lengths(bis, os, entries)
    } else {
        let codeword_length_length = BitUint::<3>::read_from(bis)?;
        let sparse = BitUint::<1>::read_from(bis)?;
        if codeword_length_length.total == 0 || codeword_length_length.total > 5 {
            return Err(ParseError::FormatViolation);
        }
        sparse.write_to(os)?;
        rebuild_lengths(bis, os, entries, codeword_length_length.total, sparse.total != 0)
    }
}

/// Rebuilds the lookup table of a packed codebook.
fn rebuild_lookup<O: BitOggStreamT>(
    bis: &mut BitStream,
    os: &mut O,
    entries: u32,
    dimensions: u32,
) -> (r: Result<(), ParseError>)
    requires
        old(bis).wf(),
        old(os).wf(),
    ensures
        final(bis).wf(),
        final(os).wf(),
        final(bis).data() == old(bis).data(),
        packed_lookup(
            old(bis).data(),
            Progress::start(old(bis).pos(), old(os).model()),
            entries as nat,
            dimensions as nat,
        ).matches(r, final(bis).pos(), final(os).model()),
{
    proof {
        lemma2_to64();
    }
    let lookup_type = BitUint::<1>::read_from(bis)?;
    BitUint::<4>::new(lookup_type.total)?.write_to(os)?;
    copy_lookup(bis, os, lookup_type.total, entries, dimensions)
}

/// Copies the head of a canonical codebook and hands back its dimensions
/// and its entry count.
fn copy_head<O: BitOggStreamT>(bis: &mut BitStream, os: &mut O) -> (r: Result<
    (u32, u32),
    ParseError,
>)
    requires
        old(bis).wf(),
        old(os).wf(),
    ensures
        final(bis).wf(),
        final(os).wf(),
        final(bis).data() == old(bis).data(),
        plain_head(old(bis).data(), Progress::start(old(bis).pos(), old(os).model())).matches(
            r,
            final(bis).pos(),
            final(os).model(),
        ),
        match r {
            Ok((dimensions, entries)) => {
                &&& dimensions == plain_dimensions(
                    old(bis).data(),
                    Progress::start(old(bis).pos(), old(os).model()),
                )
                &&& entries == plain_entries(
                    old(bis).data(),
                    Progress::start(old(bis).pos(), old(os).model()),
                )
                &&& entries <= 0xff_ffff
            },
            Err(_) => true,
        },
{
    proof {
        lemma2_to64();
    }
    let id = BitUint::<24>::read_from(bis)?;
    let dimensions = BitUint::<16>::read_from(bis)?;
    let entries = BitUint::<24>::read_from(bis)?;
    if id.total != CODEBOOK_SYNC {
        return Err(ParseError::FormatViolation);
    }
    id.write_to(os)?;
    BitUint::<16>::new(dimensions.total)?.write_to(os)?;
    BitUint::<24>::new(entries.total)?.write_to(os)?;
    Ok((dimensions.total, entries.total))
}

/// Copies the codeword lengths of a canonical codebook.
fn copy_codeword_lengths<O: BitOggStreamT>(bis: &mut BitStream, os: &mut O, entries: u32) -> (r:
    Result<(), ParseError>)
    requires
        old(bis).wf(),
        old(os).wf(),
        entries <= 0xff_ffff,
    ensures
        final(bis).wf(),
        final(os).wf(),
        final(bis).data() == old(bis).data(),
        plain_codeword_lengths(
            old(bis).data(),
            Progress::start(old(bis).pos(), old(os).model()),
            entries as nat,
        ).matches(r, final(bis).pos(), final(os).model()),
{
    let ordered = BitUint::<1>::read_from(bis)?;
    ordered.write_to(os)?;
    if ordered.total != 0 {
        let initial_length = BitUint::<5>::read_from(bis)?;
        initial_length.write_to(os)?;
        copy_ordered_lengths(bis, os, entries)
    } else {
        let sparse = BitUint::<1>::read_from(bis)?;
        sparse.write_to(os)?;
        copy_lengths(bis, os, entries, sparse.total != 0)
    }
}

/// Copies the lookup table of a canonical codebook.
fn copy_plain_lookup<O: BitOggStreamT>(
    bis: &mut BitStream,
    os: &mut O,
    entries: u32,
    dimensions: u32,
) -> (r: Result<(), ParseError>)
    requires
        old(bis).wf(),
        old(os).wf(),
    ensures
        final(bis).wf(),
        final(os).wf(),
        final(bis).data() == old(bis).data(),
        plain_lookup(
            old(bis).data(),
            Progress::start(old(bis).pos(), old(os).model()),
            entries as nat,
            dimensions as nat,
        ).matches(r, final(bis).pos(), final(os).model()),
{
    let lookup_type = BitUint::<4>::read_from(bis)?;
    lookup_type.write_to(os)?;
    copy_lookup(bis, os, lookup_type.total, entries, dimensions)
}

} // verus!
