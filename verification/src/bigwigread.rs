//! Reading a bigWig file held in memory: opening it, walking its R-tree for
//! a range query, and decoding the value sections of its data blocks in
//! their three layouts (bedGraph, variableStep, fixedStep).

use crate::bbi::{BBIFile, BBIFileInfo, Block, ChromInfo, Endianness, Value, ZoomRecord};
use crate::bbiread::{
    get_block_data, get_zoom_block_values, read_info, search_cir_tree, spec_block_data,
    spec_chrom_id, spec_info_ok, spec_zoom_block_items, spec_zoom_query_items, zoom_items_match,
    BBIFileReadInfoError,
    BBIReadError, ZoomIntervalError,
};
use crate::bbi::BBIHeader;
use crate::cirtree::{cir_search, cir_valid, CIR_TREE_MAX_DEPTH};
use crate::bigbedread::{find_zoom_header, spec_find_zoom};
use crate::codec::{read_u16, read_u32, spec_u16_at, spec_u32_at};
use vstd::prelude::*;

verus! {

/// Possible errors encountered when opening a bigWig file to read.
#[derive(Debug)]
pub enum BigWigReadOpenError {
    /// The file is not a bigWig.
    NotABigWig,
    /// The chromosomes are invalid.
    InvalidChroms,
    /// The data ends before a structure it should hold.
    IoError(String),
}

impl From<BBIFileReadInfoError> for BigWigReadOpenError {
    fn from(error: BBIFileReadInfoError) -> (r: BigWigReadOpenError) {
        match error {
            BBIFileReadInfoError::UnknownMagic => BigWigReadOpenError::NotABigWig,
            BBIFileReadInfoError::InvalidChroms => BigWigReadOpenError::InvalidChroms,
            BBIFileReadInfoError::IoError(e) => BigWigReadOpenError::IoError(e),
        }
    }
}

impl vstd::std_specs::convert::FromSpecImpl<BBIFileReadInfoError> for BigWigReadOpenError {
    open spec fn obeys_from_spec() -> bool {
        true
    }

    open spec fn from_spec(error: BBIFileReadInfoError) -> BigWigReadOpenError {
        match error {
            BBIFileReadInfoError::UnknownMagic => BigWigReadOpenError::NotABigWig,
            BBIFileReadInfoError::InvalidChroms => BigWigReadOpenError::InvalidChroms,
            BBIFileReadInfoError::IoError(e) => BigWigReadOpenError::IoError(e),
        }
    }
}

/// The struct used to read a bigWig file, holding its full contents.
pub struct BigWigRead {
    pub info: BBIFileInfo,
    pub data: Vec<u8>,
}

/// The first `i` records of a bedGraph section at `base` that overlap the
/// query: each record carries start, end and the value's bit pattern.
pub open spec fn spec_bedgraph_records(
    bd: Seq<u8>,
    e: Endianness,
    base: int,
    qs: u32,
    qe: u32,
    i: int,
) -> Seq<Value>
    decreases i,
{
    if i <= 0 {
        Seq::empty()
    } else {
        let prior = spec_bedgraph_records(bd, e, base, qs, qe, i - 1);
        let rec = Value {
            start: spec_u32_at(bd, base + 12 * (i - 1), e),
            end: spec_u32_at(bd, base + 12 * (i - 1) + 4, e),
            value: spec_u32_at(bd, base + 12 * (i - 1) + 8, e),
        };
        if rec.end > qs && rec.start < qe {
            prior.push(rec)
        } else {
            prior
        }
    }
}

/// The first `i` records of a variableStep section at `base`: each record
/// stores its start and value, and spans `item_span` bases.
pub open spec fn spec_varstep_records(
    bd: Seq<u8>,
    e: Endianness,
    base: int,
    item_span: u32,
    qs: u32,
    qe: u32,
    i: int,
) -> Seq<Value>
    decreases i,
{
    if i <= 0 {
        Seq::empty()
    } else {
        let prior = spec_varstep_records(bd, e, base, item_span, qs, qe, i - 1);
        let start = spec_u32_at(bd, base + 8 * (i - 1), e);
        let rec = Value {
            start,
            end: (start + item_span) as u32,
            value: spec_u32_at(bd, base + 8 * (i - 1) + 4, e),
        };
        if rec.end > qs && rec.start < qe {
            prior.push(rec)
        } else {
            prior
        }
    }
}

/// The first `i` records of a fixedStep section at `base`: each record
/// stores only its value; record `k` begins at `chrom_start + k * item_step`
/// and spans `item_span` bases.
pub open spec fn spec_fixedstep_records(
    bd: Seq<u8>,
    e: Endianness,
    base: int,
    chrom_start: u32,
    item_step: u32,
    item_span: u32,
    qs: u32,
    qe: u32,
    i: int,
) -> Seq<Value>
    decreases i,
{
    if i <= 0 {
        Seq::empty()
    } else {
        let prior = spec_fixedstep_records(
            bd,
            e,
            base,
            chrom_start,
            item_step,
            item_span,
            qs,
            qe,
            i - 1,
        );
        let start = (chrom_start + (i - 1) * item_step) as u32;
        let rec = Value {
            start,
            end: (start + item_span) as u32,
            value: spec_u32_at(bd, base + 4 * (i - 1), e),
        };
        if rec.end > qs && rec.start < qe {
            prior.push(rec)
        } else {
            prior
        }
    }
}

/// The values of the sections packed from byte `pos` on in a decompressed
/// block, filtered against the query, or `None` where a section is corrupt:
/// a truncated header or record list, a section on another chromosome than
/// the block's, an unknown section type, or a record whose coordinates
/// overflow. A section is a 24-byte header followed by `item_count` records
/// of its type: bedGraph records of 12 bytes, variableStep records of 8,
/// fixedStep records of 4.
pub open spec fn spec_value_sections(
    bd: Seq<u8>,
    e: Endianness,
    expected_chrom: u32,
    qs: u32,
    qe: u32,
    pos: int,
) -> Option<Seq<Value>>
    decreases bd.len() - pos
    when 0 <= pos <= bd.len()
{
    if pos >= bd.len() {
        Some(Seq::empty())
    } else if pos + 24 > bd.len() {
        None
    } else {
        let chrom_id = spec_u32_at(bd, pos, e);
        let chrom_start = spec_u32_at(bd, pos + 4, e);
        let item_step = spec_u32_at(bd, pos + 12, e);
        let item_span = spec_u32_at(bd, pos + 16, e);
        let ty = bd[pos + 20];
        let count = spec_u16_at(bd, pos + 22, e) as int;
        let base = pos + 24;
        if chrom_id != expected_chrom {
            None
        } else if ty == 1 {
            if base + 12 * count > bd.len() {
                None
            } else {
                match spec_value_sections(bd, e, expected_chrom, qs, qe, base + 12 * count) {
                    None => None,
                    Some(tail) => Some(spec_bedgraph_records(bd, e, base, qs, qe, count) + tail),
                }
            }
        } else if ty == 2 {
            if base + 8 * count > bd.len() {
                None
            } else if exists|k: int|
                0 <= k < count && #[trigger] spec_u32_at(bd, base + 8 * k, e) + item_span
                    > u32::MAX {
                None
            } else {
                match spec_value_sections(bd, e, expected_chrom, qs, qe, base + 8 * count) {
                    None => None,
                    Some(tail) => Some(
                        spec_varstep_records(bd, e, base, item_span, qs, qe, count) + tail,
                    ),
                }
            }
        } else if ty == 3 {
            if base + 4 * count > bd.len() {
                None
            } else if exists|k: int|
                0 <= k < count && chrom_start + #[trigger] (k * item_step) + item_span
                    > u32::MAX {
                None
            } else {
                match spec_value_sections(bd, e, expected_chrom, qs, qe, base + 4 * count) {
                    None => None,
                    Some(tail) => Some(
                        spec_fixedstep_records(
                            bd,
                            e,
                            base,
                            chrom_start,
                            item_step,
                            item_span,
                            qs,
                            qe,
                            count,
                        ) + tail,
                    ),
                }
            }
        } else {
            None
        }
    }
}

/// Decodes one bedGraph section's records into `values`, keeping those that
/// overlap the query.
#[verifier::loop_isolation(false)]
fn decode_bedgraph_section(
    bd: &Vec<u8>,
    e: Endianness,
    base: usize,
    count: u16,
    qs: u32,
    qe: u32,
    values: &mut Vec<Value>,
)
    requires
        base + 12 * (count as int) <= bd@.len(),
    ensures
        final(values)@ == old(values)@ + spec_bedgraph_records(
            bd@,
            e,
            base as int,
            qs,
            qe,
            count as int,
        ),
        forall|k: int|
            old(values)@.len() <= k < final(values)@.len() ==> (#[trigger] final(values)@[k]).end
                > qs && final(values)@[k].start < qe,
        final(values)@.len() >= old(values)@.len(),
        final(values)@.subrange(0, old(values)@.len() as int) == old(values)@,
{
    let dl = bd.len();
    proof {
        assert(values@.subrange(0, values@.len() as int) =~= values@);
    }
    let mut i: usize = 0;
    while i < count as usize
        invariant
            i <= count as usize,
            values@ == old(values)@ + spec_bedgraph_records(bd@, e, base as int, qs, qe, i as int),
            forall|k: int|
                old(values)@.len() <= k < values@.len() ==> (#[trigger] values@[k]).end > qs
                    && values@[k].start < qe,
        decreases count as int - i,
    {
        let rb = base + 12 * i;
        let start = read_u32(bd, rb, e);
        let end = read_u32(bd, rb + 4, e);
        let value = read_u32(bd, rb + 8, e);
        if end > qs && start < qe {
            values.push(Value { start, end, value });
        }
        i = i + 1;
    }
    proof {
        assert(values@.subrange(0, old(values)@.len() as int) =~= old(values)@);
    }
}

/// Decodes one variableStep section's records into `values`, keeping those
/// that overlap the query. Fails where a record's end overflows.
#[verifier::loop_isolation(false)]
fn decode_varstep_section(
    bd: &Vec<u8>,
    e: Endianness,
    base: usize,
    item_span: u32,
    count: u16,
    qs: u32,
    qe: u32,
    values: &mut Vec<Value>,
) -> (r: Result<(), BBIReadError>)
    requires
        base + 8 * (count as int) <= bd@.len(),
    ensures
        r is Ok ==> (forall|k: int|
            0 <= k < count as int ==> #[trigger] spec_u32_at(bd@, base + 8 * k, e) + item_span
                <= u32::MAX) && final(values)@ == old(values)@ + spec_varstep_records(
            bd@,
            e,
            base as int,
            item_span,
            qs,
            qe,
            count as int,
        ),
        r is Err ==> exists|k: int|
            0 <= k < count as int && #[trigger] spec_u32_at(bd@, base + 8 * k, e) + item_span
                > u32::MAX,
        forall|k: int|
            old(values)@.len() <= k < final(values)@.len() ==> (#[trigger] final(values)@[k]).end
                > qs && final(values)@[k].start < qe,
        final(values)@.len() >= old(values)@.len(),
        final(values)@.subrange(0, old(values)@.len() as int) == old(values)@,
{
    let dl = bd.len();
    proof {
        assert(values@.subrange(0, values@.len() as int) =~= values@);
    }
    let mut i: usize = 0;
    while i < count as usize
        invariant
            i <= count as usize,
            forall|k: int|
                0 <= k < i ==> #[trigger] spec_u32_at(bd@, base + 8 * k, e) + item_span
                    <= u32::MAX,
            values@ == old(values)@ + spec_varstep_records(
                bd@,
                e,
                base as int,
                item_span,
                qs,
                qe,
                i as int,
            ),
            forall|k: int|
                old(values)@.len() <= k < values@.len() ==> (#[trigger] values@[k]).end > qs
                    && values@[k].start < qe,
        decreases count as int - i,
    {
        let rb = base + 8 * i;
        let start = read_u32(bd, rb, e);
        let value = read_u32(bd, rb + 4, e);
        if (start as u64) + (item_span as u64) > u32::MAX as u64 {
            proof {
                assert(values@.subrange(0, old(values)@.len() as int) =~= old(values)@);
            }
            return Err(BBIReadError::InvalidFile("record coordinates overflow".to_owned()));
        }
        let end = start + item_span;
        if end > qs && start < qe {
            values.push(Value { start, end, value });
        }
        i = i + 1;
    }
    proof {
        assert(values@.subrange(0, old(values)@.len() as int) =~= old(values)@);
    }
    Ok(())
}

/// Decodes one fixedStep section's records into `values`, keeping those that
/// overlap the query. Fails where a record's coordinates overflow.
#[verifier::loop_isolation(false)]
fn decode_fixedstep_section(
    bd: &Vec<u8>,
    e: Endianness,
    base: usize,
    chrom_start: u32,
    item_step: u32,
    item_span: u32,
    count: u16,
    qs: u32,
    qe: u32,
    values: &mut Vec<Value>,
) -> (r: Result<(), BBIReadError>)
    requires
        base + 4 * (count as int) <= bd@.len(),
    ensures
        r is Ok ==> (forall|k: int|
            0 <= k < count as int ==> chrom_start + #[trigger] (k * item_step) + item_span
                <= u32::MAX) && final(values)@ == old(values)@ + spec_fixedstep_records(
            bd@,
            e,
            base as int,
            chrom_start,
            item_step,
            item_span,
            qs,
            qe,
            count as int,
        ),
        r is Err ==> exists|k: int|
            0 <= k < count as int && chrom_start + #[trigger] (k * item_step) + item_span
                > u32::MAX,
        forall|k: int|
            old(values)@.len() <= k < final(values)@.len() ==> (#[trigger] final(values)@[k]).end
                > qs && final(values)@[k].start < qe,
        final(values)@.len() >= old(values)@.len(),
        final(values)@.subrange(0, old(values)@.len() as int) == old(values)@,
{
    let dl = bd.len();
    proof {
        assert(values@.subrange(0, values@.len() as int) =~= values@);
    }
    let mut i: usize = 0;
    while i < count as usize
        invariant
            i <= count as usize,
            forall|k: int|
                0 <= k < i ==> chrom_start + #[trigger] (k * item_step) + item_span <= u32::MAX,
            values@ == old(values)@ + spec_fixedstep_records(
                bd@,
                e,
                base as int,
                chrom_start,
                item_step,
                item_span,
                qs,
                qe,
                i as int,
            ),
            forall|k: int|
                old(values)@.len() <= k < values@.len() ==> (#[trigger] values@[k]).end > qs
                    && values@[k].start < qe,
        decreases count as int - i,
    {
        let rb = base + 4 * i;
        let value = read_u32(bd, rb, e);
        proof {
            assert((i as int) * (item_step as int) <= 0xFFFF * 0xFFFF_FFFF) by (nonlinear_arith)
                requires
                    0 <= i <= 0xFFFF,
                    0 <= item_step <= 0xFFFF_FFFF,
            ;
        }
        let s64 = (chrom_start as u64) + (i as u64) * (item_step as u64);
        if s64 + (item_span as u64) > u32::MAX as u64 {
            proof {
                assert(values@.subrange(0, old(values)@.len() as int) =~= old(values)@);
            }
            return Err(BBIReadError::InvalidFile("record coordinates overflow".to_owned()));
        }
        let start = s64 as u32;
        let end = start + item_span;
        if end > qs && start < qe {
            values.push(Value { start, end, value });
        }
        i = i + 1;
    }
    proof {
        assert(values@.subrange(0, old(values)@.len() as int) =~= old(values)@);
    }
    Ok(())
}

/// Decodes the one section that begins at `pos`, appending its overlapping
/// records, and hands back where the next section begins.
#[verifier::loop_isolation(false)]
#[verifier::rlimit(100)]
#[verifier::spinoff_prover]
fn decode_one_section(
    bd: &Vec<u8>,
    e: Endianness,
    expected_chrom: u32,
    qs: u32,
    qe: u32,
    pos: usize,
    values: &mut Vec<Value>,
) -> (r: Result<usize, BBIReadError>)
    requires
        pos < bd@.len(),
    ensures
        r matches Ok(next) ==> ({
            &&& pos < next <= bd@.len()
            &&& (spec_value_sections(bd@, e, expected_chrom, qs, qe, pos as int) is None
                ==> spec_value_sections(bd@, e, expected_chrom, qs, qe, next as int) is None)
            &&& (spec_value_sections(bd@, e, expected_chrom, qs, qe, pos as int) matches Some(all)
                ==> spec_value_sections(bd@, e, expected_chrom, qs, qe, next as int) matches Some(
                tail,
            ) && final(values)@.len() >= old(values)@.len() && all == final(values)@.subrange(
                old(values)@.len() as int,
                final(values)@.len() as int,
            ) + tail)
            &&& final(values)@.subrange(0, old(values)@.len() as int) == old(values)@
            &&& final(values)@.len() >= old(values)@.len()
        }),
        r is Err ==> spec_value_sections(bd@, e, expected_chrom, qs, qe, pos as int) is None
            && final(values)@.subrange(0, old(values)@.len() as int) == old(values)@,
        forall|k: int|
            old(values)@.len() <= k < final(values)@.len() ==> (#[trigger] final(values)@[k]).end
                > qs && final(values)@[k].start < qe,
{
    let len = bd.len();
    if len - pos < 24 {
        return Err(BBIReadError::InvalidFile("data ends within a section header".to_owned()));
    }
    let chrom_id = read_u32(bd, pos, e);
    let chrom_start = read_u32(bd, pos + 4, e);
    let item_step = read_u32(bd, pos + 12, e);
    let item_span = read_u32(bd, pos + 16, e);
    let ty = bd[pos + 20];
    let count = read_u16(bd, pos + 22, e);
    let base = pos + 24;
    if chrom_id != expected_chrom {
        return Err(
            BBIReadError::InvalidFile("block holds records of another chromosome".to_owned()),
        );
    }
    let ghost pre = values@;
    let next: usize;
    if ty == 1 {
        if (count as usize) * 12 > len - base {
            return Err(BBIReadError::InvalidFile("data ends within a section".to_owned()));
        }
        decode_bedgraph_section(bd, e, base, count, qs, qe, values);
        next = base + 12 * (count as usize);
    } else if ty == 2 {
        if (count as usize) * 8 > len - base {
            return Err(BBIReadError::InvalidFile("data ends within a section".to_owned()));
        }
        match decode_varstep_section(bd, e, base, item_span, count, qs, qe, values) {
            Ok(()) => {},
            Err(err) => {
                proof {
                    assert(values@.subrange(0, pre.len() as int) =~= pre);
                }
                return Err(err);
            },
        }
        next = base + 8 * (count as usize);
    } else if ty == 3 {
        if (count as usize) * 4 > len - base {
            return Err(BBIReadError::InvalidFile("data ends within a section".to_owned()));
        }
        match decode_fixedstep_section(
            bd,
            e,
            base,
            chrom_start,
            item_step,
            item_span,
            count,
            qs,
            qe,
            values,
        ) {
            Ok(()) => {},
            Err(err) => {
                proof {
                    assert(values@.subrange(0, pre.len() as int) =~= pre);
                }
                return Err(err);
            },
        }
        next = base + 4 * (count as usize);
    } else {
        return Err(BBIReadError::InvalidFile("unknown section type".to_owned()));
    }
    proof {
        assert(values@.subrange(0, pre.len() as int) =~= pre);
        assert(values@.subrange(pre.len() as int, values@.len() as int) =~= values@.subrange(
            pre.len() as int,
            values@.len() as int,
        ));
        if spec_value_sections(bd@, e, expected_chrom, qs, qe, pos as int) is Some {
            assert(spec_value_sections(bd@, e, expected_chrom, qs, qe, pos as int).unwrap()
                =~= values@.subrange(pre.len() as int, values@.len() as int)
                + spec_value_sections(bd@, e, expected_chrom, qs, qe, next as int).unwrap());
        }
    }
    Ok(next)
}

/// Decodes the value sections of one block, keeping the records that
/// overlap `qs..qe`. Advances `known_offset` to the end of the block.
#[verifier::loop_isolation(false)]
#[verifier::rlimit(100)]
#[verifier::spinoff_prover]
fn get_block_values(
    d: &Vec<u8>,
    info: &BBIFileInfo,
    block: Block,
    known_offset: &mut u64,
    expected_chrom: u32,
    qs: u32,
    qe: u32,
) -> (r: Result<Vec<Value>, BBIReadError>)
    ensures
        r matches Ok(v) ==> ({
            let bd = spec_block_data(d@, info.header.uncompress_buf_size, block);
            &&& bd is Some
            &&& spec_value_sections(bd.unwrap(), info.header.endianness, expected_chrom, qs, qe, 0)
                matches Some(vals) && v@ == vals
            &&& forall|i: int|
                0 <= i < v@.len() ==> (#[trigger] v@[i]).end > qs && v@[i].start < qe
        }),
        r is Err ==> ({
            let bd = spec_block_data(d@, info.header.uncompress_buf_size, block);
            bd is None || spec_value_sections(
                bd.unwrap(),
                info.header.endianness,
                expected_chrom,
                qs,
                qe,
                0,
            ) is None
        }),
        r is Ok ==> *final(known_offset) == block.offset + block.size,
{
    let dl = d.len();
    let bd = match get_block_data(d, &info.header, block) {
        Ok(v) => v,
        Err(e) => {
            return Err(e);
        },
    };
    let e = info.header.endianness;
    let len = bd.len();
    let mut values: Vec<Value> = Vec::new();
    let mut pos: usize = 0;
    let ghost whole = spec_value_sections(bd@, e, expected_chrom, qs, qe, 0);
    while pos < len
        invariant
            pos <= len,
            len == bd@.len(),
            ({
                let here = spec_value_sections(bd@, e, expected_chrom, qs, qe, pos as int);
                match whole {
                    None => here is None,
                    Some(all) => here matches Some(tail) && all == values@ + tail,
                }
            }),
            forall|i: int|
                0 <= i < values@.len() ==> (#[trigger] values@[i]).end > qs && values@[i].start
                    < qe,
        decreases len - pos,
    {
        let ghost pre = values@;
        let next = match decode_one_section(&bd, e, expected_chrom, qs, qe, pos, &mut values) {
            Ok(next) => next,
            Err(err) => {
                return Err(err);
            },
        };
        proof {
            assert forall|i: int| 0 <= i < values@.len() implies (#[trigger] values@[i]).end > qs
                && values@[i].start < qe by {
                if i < pre.len() {
                    assert(values@[i] == values@.subrange(0, pre.len() as int)[i]);
                }
            }
            let here = spec_value_sections(bd@, e, expected_chrom, qs, qe, pos as int);
            let after = spec_value_sections(bd@, e, expected_chrom, qs, qe, next as int);
            if whole is Some {
                let seg = values@.subrange(pre.len() as int, values@.len() as int);
                assert(here matches Some(tail) && tail == seg + after.unwrap());
                assert(values@ =~= pre + seg);
                assert(whole.unwrap() =~= values@ + after.unwrap());
            }
        }
        pos = next;
    }
    *known_offset = block.offset + block.size;
    proof {
        if whole is Some {
            assert(spec_value_sections(bd@, e, expected_chrom, qs, qe, pos as int) matches Some(t)
                && t =~= Seq::<Value>::empty());
            assert(whole.unwrap() =~= values@);
        }
    }
    Ok(values)
}

/// The value items one block contributes to a query: its decoded
/// overlapping records where it decodes, and a single error item (`None`)
/// where it does not.
pub open spec fn spec_wig_block_items(
    d: Seq<u8>,
    header: BBIHeader,
    b: Block,
    chrom: u32,
    qs: u32,
    qe: u32,
) -> Seq<Option<Value>> {
    match spec_block_data(d, header.uncompress_buf_size, b) {
        Some(bd) => match spec_value_sections(bd, header.endianness, chrom, qs, qe, 0) {
            Some(vals) => vals.map_values(|v: Value| Some(v)),
            None => seq![None],
        },
        None => seq![None],
    }
}

/// The value items a query yields over the given blocks, in block order.
pub open spec fn spec_wig_query_items(
    d: Seq<u8>,
    header: BBIHeader,
    blocks: Seq<Block>,
    chrom: u32,
    qs: u32,
    qe: u32,
) -> Seq<Option<Value>>
    decreases blocks.len(),
{
    if blocks.len() == 0 {
        Seq::empty()
    } else {
        spec_wig_query_items(d, header, blocks.drop_last(), chrom, qs, qe) + spec_wig_block_items(
            d,
            header,
            blocks.last(),
            chrom,
            qs,
            qe,
        )
    }
}

/// Whether the returned value items render the stored ones: value items
/// pointwise equal, an error item exactly where a block failed.
pub open spec fn value_items_match(
    items: Seq<Result<Value, BBIReadError>>,
    specs: Seq<Option<Value>>,
) -> bool {
    &&& items.len() == specs.len()
    &&& forall|i: int|
        0 <= i < items.len() ==> match #[trigger] specs[i] {
            Some(v) => items[i] == Ok::<Value, BBIReadError>(v),
            None => items[i] is Err,
        }
}

impl BigWigRead {
    /// Opens a new `BigWigRead` over the raw bytes of a bigWig file.
    /// Succeeds exactly on a parseable file whose magic names a bigWig, and
    /// each error kind comes exactly from its own cause.
    pub fn open(data: Vec<u8>) -> (r: Result<BigWigRead, BigWigReadOpenError>)
        ensures
            r is Ok <==> crate::bbiread::spec_info_parseable(data@)
                && crate::bbiread::spec_file_kind(data@).unwrap().0 is BigWig,
            r matches Ok(b) ==> spec_info_ok(b.data@, b.info) && b.info.filetype is BigWig
                && b.data@ == data@,
            r matches Err(e) ==> (e is NotABigWig <==> (data@.len() >= 64
                && crate::bbiread::spec_file_kind(data@) is None) || (
            crate::bbiread::spec_info_parseable(data@) && crate::bbiread::spec_file_kind(
                data@,
            ).unwrap().0 is BigBed)),
            r matches Err(e) ==> (e is IoError <==> data@.len() < 64 || (
            crate::bbiread::spec_header_parseable(data@) && !crate::bbiread::spec_tables_in_bounds(
                data@,
            ))),
            r matches Err(e) ==> (e is InvalidChroms <==> crate::bbiread::spec_header_parseable(
                data@,
            ) && crate::bbiread::spec_tables_in_bounds(data@) && !crate::bbiread::spec_chroms_ok(
                data@,
            )),
    {
        let info = match read_info(&data) {
            Ok(info) => info,
            Err(e) => {
                return Err(BigWigReadOpenError::from(e));
            },
        };
        match info.filetype {
            BBIFile::BigWig => {},
            _ => {
                return Err(BigWigReadOpenError::NotABigWig);
            },
        }
        Ok(BigWigRead { info, data })
    }

    /// Get basic info about the bbi file.
    pub fn get_info(&self) -> (r: &BBIFileInfo)
        ensures
            r == self.info,
    {
        &self.info
    }

    /// The chromosomes the file describes, as it lists them.
    pub fn get_chroms(&self) -> (r: Vec<ChromInfo>)
        ensures
            r@ =~= self.info.chrom_info@,
    {
        let mut out: Vec<ChromInfo> = Vec::new();
        let mut i: usize = 0;
        while i < self.info.chrom_info.len()
            invariant
                i <= self.info.chrom_info@.len(),
                out@.len() == i,
                forall|k: int| 0 <= k < i ==> #[trigger] out@[k] == self.info.chrom_info@[k],
            decreases self.info.chrom_info@.len() - i,
        {
            let c = &self.info.chrom_info[i];
            out.push(ChromInfo { name: c.name.clone(), id: c.id, length: c.length });
            i = i + 1;
        }
        out
    }

    /// For a given chromosome, start, and end, returns the intersecting
    /// `Value`s: block by block in R-tree order, every record of every data
    /// block the search finds that overlaps the query, with nothing lost,
    /// added or reordered. A block that fails to decode contributes exactly
    /// one error item in its place, and the walk goes on with the next block.
    #[verifier::loop_isolation(false)]
    #[verifier::rlimit(100)]
    #[verifier::spinoff_prover]
    pub fn get_interval(&self, chrom_name: &str, start: u32, end: u32) -> (r: Result<
        Vec<Result<Value, BBIReadError>>,
        BBIReadError,
    >)
        ensures
            spec_chrom_id(self.info.chrom_info@, chrom_name@) is None ==> (r matches Err(e) && (
            e matches BBIReadError::InvalidChromosome(n) && n@ == chrom_name@)),
            r is Ok ==> spec_chrom_id(self.info.chrom_info@, chrom_name@) is Some,
            r matches Ok(items) ==> ({
                let e = self.info.header.endianness;
                let chrom_ix = spec_chrom_id(self.info.chrom_info@, chrom_name@).unwrap();
                let at = self.info.header.full_index_offset as int;
                let blocks = cir_search(
                    self.data@,
                    e,
                    at + 48,
                    chrom_ix,
                    start,
                    end,
                    CIR_TREE_MAX_DEPTH as nat,
                );
                &&& at + 48 <= self.data@.len()
                &&& spec_u32_at(self.data@, at, e) == crate::bbi::CIR_TREE_MAGIC
                &&& cir_valid(
                    self.data@,
                    e,
                    at + 48,
                    chrom_ix,
                    start,
                    end,
                    CIR_TREE_MAX_DEPTH as nat,
                )
                &&& value_items_match(
                    items@,
                    spec_wig_query_items(
                        self.data@,
                        self.info.header,
                        blocks,
                        chrom_ix,
                        start,
                        end,
                    ),
                )
            }),
            r matches Ok(items) ==> forall|i: int|
                0 <= i < items@.len() ==> ((#[trigger] items@[i]) matches Ok(v) ==> v.end > start
                    && v.start < end),
    {
        let blocks = match search_cir_tree(
            &self.data,
            &self.info,
            self.info.header.full_index_offset,
            chrom_name,
            start,
            end,
        ) {
            Ok(blocks) => blocks,
            Err(e) => {
                return Err(BBIReadError::from(e));
            },
        };
        let chrom_ix = match self.info.chrom_id(chrom_name) {
            Ok(id) => id,
            Err(e) => {
                return Err(BBIReadError::from(e));
            },
        };
        let mut items: Vec<Result<Value, BBIReadError>> = Vec::new();
        let mut known_offset: u64 = 0;
        let mut b: usize = 0;
        proof {
            assert(blocks@.subrange(0, 0) =~= Seq::<Block>::empty());
        }
        while b < blocks.len()
            invariant
                b <= blocks@.len(),
                value_items_match(
                    items@,
                    spec_wig_query_items(
                        self.data@,
                        self.info.header,
                        blocks@.subrange(0, b as int),
                        chrom_ix,
                        start,
                        end,
                    ),
                ),
                forall|i: int|
                    0 <= i < items@.len() ==> ((#[trigger] items@[i]) matches Ok(v) ==> v.end
                        > start && v.start < end),
            decreases blocks@.len() - b,
        {
            let ghost pre_items = items@;
            let ghost pre_spec = spec_wig_query_items(
                self.data@,
                self.info.header,
                blocks@.subrange(0, b as int),
                chrom_ix,
                start,
                end,
            );
            match get_block_values(
                &self.data,
                &self.info,
                blocks[b],
                &mut known_offset,
                chrom_ix,
                start,
                end,
            ) {
                Ok(vals) => {
                    proof {
                        assert(spec_wig_block_items(
                            self.data@,
                            self.info.header,
                            blocks@[b as int],
                            chrom_ix,
                            start,
                            end,
                        ) =~= vals@.map_values(|v: Value| Some(v)));
                    }
                    let mut j: usize = 0;
                    let ghost pulled = vals@;
                    let vals = vals;
                    while j < vals.len()
                        invariant
                            j <= vals@.len(),
                            vals@ == pulled,
                            items@.len() == pre_items.len() + j,
                            items@.subrange(0, pre_items.len() as int) == pre_items,
                            forall|k: int|
                                0 <= k < j ==> items@[pre_items.len() + k] == Ok::<
                                    Value,
                                    BBIReadError,
                                >(pulled[k]),
                            forall|i: int|
                                0 <= i < pulled.len() ==> (#[trigger] pulled[i]).end > start
                                    && pulled[i].start < end,
                            forall|i: int|
                                0 <= i < items@.len() ==> ((#[trigger] items@[i]) matches Ok(v)
                                    ==> v.end > start && v.start < end),
                        decreases vals@.len() - j,
                    {
                        items.push(Ok(vals[j]));
                        proof {
                            assert(items@.subrange(0, pre_items.len() as int) =~= pre_items);
                        }
                        j = j + 1;
                    }
                },
                Err(e) => {
                    proof {
                        assert(spec_wig_block_items(
                            self.data@,
                            self.info.header,
                            blocks@[b as int],
                            chrom_ix,
                            start,
                            end,
                        ) =~= seq![None::<Value>]);
                    }
                    items.push(Err(e));
                    proof {
                        assert(items@.subrange(0, pre_items.len() as int) =~= pre_items);
                        assert(items@.len() == pre_items.len() + 1);
                    }
                },
            }
            proof {
                assert(blocks@.subrange(0, b + 1).drop_last() =~= blocks@.subrange(0, b as int));
                assert(blocks@.subrange(0, b + 1).last() == blocks@[b as int]);
                let block_items = spec_wig_block_items(
                    self.data@,
                    self.info.header,
                    blocks@[b as int],
                    chrom_ix,
                    start,
                    end,
                );
                let next_spec = spec_wig_query_items(
                    self.data@,
                    self.info.header,
                    blocks@.subrange(0, b + 1),
                    chrom_ix,
                    start,
                    end,
                );
                assert(next_spec == pre_spec + block_items);
                assert forall|i: int| 0 <= i < items@.len() implies match #[trigger] next_spec[i] {
                    Some(v) => items@[i] == Ok::<Value, BBIReadError>(v),
                    None => items@[i] is Err,
                } by {
                    if i < pre_items.len() {
                        assert(items@[i] == items@.subrange(0, pre_items.len() as int)[i]);
                        assert(next_spec[i] == pre_spec[i]);
                    } else {
                        assert(next_spec[i] == block_items[i - pre_items.len()]);
                    }
                }
                assert(value_items_match(items@, next_spec));
            }
            b = b + 1;
        }
        proof {
            assert(blocks@.subrange(0, b as int) =~= blocks@);
        }
        Ok(items)
    }

    /// As `get_interval`, taking the reader by value.
    pub fn get_interval_move(self, chrom_name: &str, start: u32, end: u32) -> (r: Result<
        Vec<Result<Value, BBIReadError>>,
        BBIReadError,
    >)
        ensures
            spec_chrom_id(self.info.chrom_info@, chrom_name@) is None ==> (r matches Err(e) && (
            e matches BBIReadError::InvalidChromosome(n) && n@ == chrom_name@)),
            r is Ok ==> spec_chrom_id(self.info.chrom_info@, chrom_name@) is Some,
            r matches Ok(items) ==> ({
                let e = self.info.header.endianness;
                let chrom_ix = spec_chrom_id(self.info.chrom_info@, chrom_name@).unwrap();
                let at = self.info.header.full_index_offset as int;
                let blocks = cir_search(
                    self.data@,
                    e,
                    at + 48,
                    chrom_ix,
                    start,
                    end,
                    CIR_TREE_MAX_DEPTH as nat,
                );
                &&& at + 48 <= self.data@.len()
                &&& spec_u32_at(self.data@, at, e) == crate::bbi::CIR_TREE_MAGIC
                &&& cir_valid(
                    self.data@,
                    e,
                    at + 48,
                    chrom_ix,
                    start,
                    end,
                    CIR_TREE_MAX_DEPTH as nat,
                )
                &&& value_items_match(
                    items@,
                    spec_wig_query_items(
                        self.data@,
                        self.info.header,
                        blocks,
                        chrom_ix,
                        start,
                        end,
                    ),
                )
            }),
            r matches Ok(items) ==> forall|i: int|
                0 <= i < items@.len() ==> ((#[trigger] items@[i]) matches Ok(v) ==> v.end > start
                    && v.start < end),
    {
        self.get_interval(chrom_name, start, end)
    }

    /// For a given chromosome, start, end, and reduction level, returns the
    /// intersecting `ZoomRecord`s of that zoom level. Errors with
    /// `ReductionLevelNotFound` exactly when no zoom header carries the
    /// requested reduction level.
    #[verifier::loop_isolation(false)]
    pub fn get_zoom_interval(
        &self,
        chrom_name: &str,
        start: u32,
        end: u32,
        reduction_level: u32,
    ) -> (r: Result<Vec<Result<ZoomRecord, BBIReadError>>, ZoomIntervalError>)
        ensures
            spec_chrom_id(self.info.chrom_info@, chrom_name@) is None ==> (r matches Err(e) && (
            e matches ZoomIntervalError::BBIReadError(b) && (
            b matches BBIReadError::InvalidChromosome(n) && n@ == chrom_name@))),
            spec_chrom_id(self.info.chrom_info@, chrom_name@) is Some ==> ((r matches Err(e) && e
                is ReductionLevelNotFound) <==> spec_find_zoom(
                self.info.zoom_headers@,
                reduction_level,
            ) is None),
            r matches Ok(items) ==> ({
                let e = self.info.header.endianness;
                let chrom_ix = spec_chrom_id(self.info.chrom_info@, chrom_name@).unwrap();
                let zh = spec_find_zoom(self.info.zoom_headers@, reduction_level).unwrap();
                let at = zh.index_offset as int;
                let blocks = cir_search(
                    self.data@,
                    e,
                    at + 48,
                    chrom_ix,
                    start,
                    end,
                    CIR_TREE_MAX_DEPTH as nat,
                );
                &&& spec_chrom_id(self.info.chrom_info@, chrom_name@) is Some
                &&& spec_find_zoom(self.info.zoom_headers@, reduction_level) is Some
                &&& at + 48 <= self.data@.len()
                &&& spec_u32_at(self.data@, at, e) == crate::bbi::CIR_TREE_MAGIC
                &&& cir_valid(
                    self.data@,
                    e,
                    at + 48,
                    chrom_ix,
                    start,
                    end,
                    CIR_TREE_MAX_DEPTH as nat,
                )
                &&& zoom_items_match(
                    items@,
                    spec_zoom_query_items(
                        self.data@,
                        self.info.header,
                        blocks,
                        chrom_ix,
                        start,
                        end,
                    ),
                )
                &&& forall|i: int|
                    0 <= i < items@.len() ==> ((#[trigger] items@[i]) matches Ok(rec)
                        ==> rec.chrom == chrom_ix && rec.end > start && rec.start < end)
            }),
    {
        let chrom = match self.info.chrom_id(chrom_name) {
            Ok(id) => id,
            Err(e) => {
                return Err(ZoomIntervalError::from(e));
            },
        };
        let zoom_header = match find_zoom_header(&self.info.zoom_headers, reduction_level) {
            Some(h) => h,
            None => {
                return Err(ZoomIntervalError::ReductionLevelNotFound);
            },
        };
        let blocks = match search_cir_tree(
            &self.data,
            &self.info,
            zoom_header.index_offset,
            chrom_name,
            start,
            end,
        ) {
            Ok(blocks) => blocks,
            Err(e) => {
                return Err(ZoomIntervalError::from(e));
            },
        };
        let mut items: Vec<Result<ZoomRecord, BBIReadError>> = Vec::new();
        let mut known_offset: u64 = 0;
        let mut b: usize = 0;
        proof {
            assert(blocks@.subrange(0, 0) =~= Seq::<Block>::empty());
        }
        while b < blocks.len()
            invariant
                b <= blocks@.len(),
                zoom_items_match(
                    items@,
                    spec_zoom_query_items(
                        self.data@,
                        self.info.header,
                        blocks@.subrange(0, b as int),
                        chrom,
                        start,
                        end,
                    ),
                ),
                forall|i: int|
                    0 <= i < items@.len() ==> ((#[trigger] items@[i]) matches Ok(rec)
                        ==> rec.chrom == chrom && rec.end > start && rec.start < end),
            decreases blocks@.len() - b,
        {
            let ghost pre_items = items@;
            let ghost pre_spec = spec_zoom_query_items(
                self.data@,
                self.info.header,
                blocks@.subrange(0, b as int),
                chrom,
                start,
                end,
            );
            match get_zoom_block_values(
                &self.data,
                &self.info.header,
                blocks[b],
                &mut known_offset,
                chrom,
                start,
                end,
            ) {
                Ok(records) => {
                    proof {
                        assert(spec_zoom_block_items(
                            self.data@,
                            self.info.header,
                            blocks@[b as int],
                            chrom,
                            start,
                            end,
                        ) =~= records@.map_values(|rec: ZoomRecord| Some(rec)));
                    }
                    let mut j: usize = 0;
                    let ghost pulled = records@;
                    let records = records;
                    while j < records.len()
                        invariant
                            j <= records@.len(),
                            records@ == pulled,
                            items@.len() == pre_items.len() + j,
                            items@.subrange(0, pre_items.len() as int) == pre_items,
                            forall|k: int|
                                0 <= k < j ==> items@[pre_items.len() + k] == Ok::<
                                    ZoomRecord,
                                    BBIReadError,
                                >(pulled[k]),
                            forall|i: int|
                                0 <= i < pulled.len() ==> (#[trigger] pulled[i]).chrom == chrom
                                    && pulled[i].end > start && pulled[i].start < end,
                            forall|i: int|
                                0 <= i < items@.len() ==> ((#[trigger] items@[i]) matches Ok(rec)
                                    ==> rec.chrom == chrom && rec.end > start && rec.start < end),
                        decreases records@.len() - j,
                    {
                        items.push(Ok(records[j]));
                        proof {
                            assert(items@.subrange(0, pre_items.len() as int) =~= pre_items);
                        }
                        j = j + 1;
                    }
                },
                Err(e) => {
                    proof {
                        assert(spec_zoom_block_items(
                            self.data@,
                            self.info.header,
                            blocks@[b as int],
                            chrom,
                            start,
                            end,
                        ) =~= seq![None::<ZoomRecord>]);
                    }
                    items.push(Err(e));
                    proof {
                        assert(items@.subrange(0, pre_items.len() as int) =~= pre_items);
                        assert(items@.len() == pre_items.len() + 1);
                    }
                },
            }
            proof {
                assert(blocks@.subrange(0, b + 1).drop_last() =~= blocks@.subrange(0, b as int));
                assert(blocks@.subrange(0, b + 1).last() == blocks@[b as int]);
                let block_items = spec_zoom_block_items(
                    self.data@,
                    self.info.header,
                    blocks@[b as int],
                    chrom,
                    start,
                    end,
                );
                let next_spec = spec_zoom_query_items(
                    self.data@,
                    self.info.header,
                    blocks@.subrange(0, b + 1),
                    chrom,
                    start,
                    end,
                );
                assert(next_spec == pre_spec + block_items);
                assert forall|i: int| 0 <= i < items@.len() implies match #[trigger] next_spec[i] {
                    Some(rec) => items@[i] == Ok::<ZoomRecord, BBIReadError>(rec),
                    None => items@[i] is Err,
                } by {
                    if i < pre_items.len() {
                        assert(items@[i] == items@.subrange(0, pre_items.len() as int)[i]);
                        assert(next_spec[i] == pre_spec[i]);
                    } else {
                        assert(next_spec[i] == block_items[i - pre_items.len()]);
                    }
                }
                assert(zoom_items_match(items@, next_spec));
            }
            b = b + 1;
        }
        proof {
            assert(blocks@.subrange(0, b as int) =~= blocks@);
        }
        Ok(items)
    }
}

} // verus!
