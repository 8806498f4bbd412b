//! Reading a bigBed file held in memory: opening it, walking its R-tree for
//! a range query, and decoding the packed bed entries of its data blocks.

use crate::bbi::{BBIFile, BBIFileInfo, BedEntry, Block, ChromInfo, ZoomHeader, ZoomRecord};
use crate::bbiread::{
    bytes_to_string, get_block_data, get_zoom_block_values, read_info, search_cir_tree,
    spec_block_data, spec_chrom_id, spec_info_ok, spec_zoom_block_items, spec_zoom_query_items,
    zoom_items_match, BBIFileReadInfoError, BBIReadError, ZoomIntervalError,
};
use crate::cirtree::{cir_search, cir_valid, CIR_TREE_MAX_DEPTH};
use crate::codec::{read_u32, spec_u32_at};
use vstd::prelude::*;

verus! {

/// Possible errors encountered when opening a bigBed file to read.
#[derive(Debug)]
pub enum BigBedReadOpenError {
    /// The file is not a bigBed.
    NotABigBed,
    /// The chromosomes are invalid.
    InvalidChroms,
    /// The data ends before a structure it should hold.
    IoError(String),
}

impl From<BBIFileReadInfoError> for BigBedReadOpenError {
    fn from(error: BBIFileReadInfoError) -> (r: BigBedReadOpenError) {
        match error {
            BBIFileReadInfoError::UnknownMagic => BigBedReadOpenError::NotABigBed,
            BBIFileReadInfoError::InvalidChroms => BigBedReadOpenError::InvalidChroms,
            BBIFileReadInfoError::IoError(e) => BigBedReadOpenError::IoError(e),
        }
    }
}

impl vstd::std_specs::convert::FromSpecImpl<BBIFileReadInfoError> for BigBedReadOpenError {
    open spec fn obeys_from_spec() -> bool {
        true
    }

    open spec fn from_spec(error: BBIFileReadInfoError) -> BigBedReadOpenError {
        match error {
            BBIFileReadInfoError::UnknownMagic => BigBedReadOpenError::NotABigBed,
            BBIFileReadInfoError::InvalidChroms => BigBedReadOpenError::InvalidChroms,
            BBIFileReadInfoError::IoError(e) => BigBedReadOpenError::IoError(e),
        }
    }
}

/// The struct used to read a bigBed file, holding its full contents.
pub struct BigBedRead {
    pub info: BBIFileInfo,
    pub data: Vec<u8>,
}

/// The first zoom header of the list with exactly the given reduction level.
pub open spec fn spec_find_zoom(zs: Seq<ZoomHeader>, reduction_level: u32) -> Option<ZoomHeader>
    decreases zs.len(),
{
    if zs.len() == 0 {
        None
    } else if zs[0].reduction_level == reduction_level {
        Some(zs[0])
    } else {
        spec_find_zoom(zs.subrange(1, zs.len() as int), reduction_level)
    }
}

/// Looks up the zoom header with exactly the given reduction level.
pub(crate) fn find_zoom_header(zs: &Vec<ZoomHeader>, reduction_level: u32) -> (r: Option<
    ZoomHeader,
>)
    ensures
        r == spec_find_zoom(zs@, reduction_level),
{
    let mut i: usize = 0;
    proof {
        assert(zs@.subrange(0, zs@.len() as int) =~= zs@);
    }
    while i < zs.len()
        invariant
            i <= zs@.len(),
            spec_find_zoom(zs@, reduction_level) == spec_find_zoom(
                zs@.subrange(i as int, zs@.len() as int),
                reduction_level,
            ),
        decreases zs@.len() - i,
    {
        let ghost pre = zs@.subrange(i as int, zs@.len() as int);
        if zs[i].reduction_level == reduction_level {
            return Some(zs[i]);
        }
        proof {
            assert(pre[0] == zs@[i as int]);
            assert(pre.subrange(1, pre.len() as int) =~= zs@.subrange(i + 1, zs@.len() as int));
        }
        i = i + 1;
    }
    proof {
        assert(zs@.subrange(i as int, zs@.len() as int) =~= Seq::<ZoomHeader>::empty());
    }
    None
}

/// The first NUL at or after `pos`, or the end of the data where none
/// remains.
pub open spec fn find_nul(bd: Seq<u8>, pos: int) -> int
    decreases bd.len() - pos when 0 <= pos <= bd.len()
{
    if pos >= bd.len() {
        bd.len() as int
    } else if bd[pos] == 0 {
        pos
    } else {
        find_nul(bd, pos + 1)
    }
}

/// One bed record as a block stores it: start, end, and the characters of
/// its text tail.
pub struct BedSpecEntry {
    pub start: u32,
    pub end: u32,
    pub rest: Seq<char>,
}

/// The bed entries packed from byte `pos` on in a decompressed block, or
/// `None` where the block is corrupt: a record whose start and end are both
/// zero, a record on another chromosome than the block's, or a text tail
/// that is not UTF-8. A record is 12 bytes of coordinates and a
/// NUL-terminated tail; decoding stops before a final fragment shorter than
/// the coordinates. Only records overlapping `start..end` are kept.
pub open spec fn spec_bed_entries(
    bd: Seq<u8>,
    e: crate::bbi::Endianness,
    expected_chrom: u32,
    start: u32,
    end: u32,
    pos: int,
) -> Option<Seq<BedSpecEntry>>
    decreases bd.len() - pos
    when 0 <= pos <= bd.len()
    via spec_bed_entries_decreases
{
    if pos + 12 > bd.len() {
        Some(Seq::empty())
    } else {
        let chrom_id = spec_u32_at(bd, pos, e);
        let chrom_start = spec_u32_at(bd, pos + 4, e);
        let chrom_end = spec_u32_at(bd, pos + 8, e);
        if chrom_start == 0 && chrom_end == 0 {
            None
        } else if chrom_id != expected_chrom {
            None
        } else {
            let nul = find_nul(bd, pos + 12);
            let rest_bytes = bd.subrange(pos + 12, nul);
            if !vstd::utf8::valid_utf8(rest_bytes) {
                None
            } else {
                let next = if nul < bd.len() {
                    nul + 1
                } else {
                    bd.len() as int
                };
                match spec_bed_entries(bd, e, expected_chrom, start, end, next) {
                    None => None,
                    Some(tail) => {
                        let entry = BedSpecEntry {
                            start: chrom_start,
                            end: chrom_end,
                            rest: vstd::utf8::decode_utf8(rest_bytes),
                        };
                        if chrom_end > start && chrom_start < end {
                            Some(seq![entry] + tail)
                        } else {
                            Some(tail)
                        }
                    },
                }
            }
        }
    }
}

/// The first NUL lies at or after where the scan began, and within the data.
pub proof fn lemma_find_nul_ge(bd: Seq<u8>, pos: int)
    requires
        0 <= pos <= bd.len(),
    ensures
        pos <= find_nul(bd, pos) <= bd.len(),
    decreases bd.len() - pos,
{
    if pos < bd.len() && bd[pos] != 0 {
        lemma_find_nul_ge(bd, pos + 1);
    }
}

#[via_fn]
proof fn spec_bed_entries_decreases(
    bd: Seq<u8>,
    e: crate::bbi::Endianness,
    expected_chrom: u32,
    start: u32,
    end: u32,
    pos: int,
) {
    if pos + 12 <= bd.len() {
        lemma_find_nul_ge(bd, pos + 12);
    }
}

/// Whether the parsed entries render the stored ones.
pub open spec fn bed_entries_match(entries: Seq<BedEntry>, specs: Seq<BedSpecEntry>) -> bool {
    &&& entries.len() == specs.len()
    &&& forall|i: int|
        0 <= i < entries.len() ==> (#[trigger] entries[i]).start == specs[i].start && entries[i].end
            == specs[i].end && entries[i].rest@ == specs[i].rest
}

/// Decodes the bed entries of one block that overlap `start..end`. Advances
/// `known_offset` to the end of the block.
#[verifier::loop_isolation(false)]
#[verifier::rlimit(100)]
#[verifier::spinoff_prover]
fn get_block_entries(
    d: &Vec<u8>,
    info: &BBIFileInfo,
    block: Block,
    known_offset: &mut u64,
    expected_chrom: u32,
    start: u32,
    end: u32,
) -> (r: Result<Vec<BedEntry>, BBIReadError>)
    ensures
        r matches Ok(v) ==> ({
            let bd = spec_block_data(d@, info.header.uncompress_buf_size, block);
            &&& bd is Some
            &&& spec_bed_entries(
                bd.unwrap(),
                info.header.endianness,
                expected_chrom,
                start,
                end,
                0,
            ) is Some
            &&& bed_entries_match(
                v@,
                spec_bed_entries(
                    bd.unwrap(),
                    info.header.endianness,
                    expected_chrom,
                    start,
                    end,
                    0,
                ).unwrap(),
            )
            &&& forall|i: int|
                0 <= i < v@.len() ==> (#[trigger] v@[i]).end > start && v@[i].start < end
        }),
        r is Err ==> ({
            let bd = spec_block_data(d@, info.header.uncompress_buf_size, block);
            bd is None || spec_bed_entries(
                bd.unwrap(),
                info.header.endianness,
                expected_chrom,
                start,
                end,
                0,
            ) is None
        }),
        r is Ok ==> *final(known_offset) == block.offset + block.size,
{
    let dl = d.len();
    let bd = match get_block_data(d, &info.header, block) {
        Ok(v) => v,
        Err(e) => {
            return Err(e);
        },
    };
    let e = info.header.endianness;
    let len = bd.len();
    let mut entries: Vec<BedEntry> = Vec::new();
    let mut pos: usize = 0;
    let ghost whole = spec_bed_entries(bd@, e, expected_chrom, start, end, 0);
    while pos < len && len - pos >= 12
        invariant
            pos <= len,
            len == bd@.len(),
            ({
                let here = spec_bed_entries(bd@, e, expected_chrom, start, end, pos as int);
                match whole {
                    None => here is None,
                    Some(all) => here matches Some(tail) && all.len() == entries@.len()
                        + tail.len() && bed_entries_match(
                        entries@,
                        all.subrange(0, entries@.len() as int),
                    ) && all.subrange(entries@.len() as int, all.len() as int) == tail,
                }
            }),
            forall|i: int|
                0 <= i < entries@.len() ==> (#[trigger] entries@[i]).end > start && entries@[i].start
                    < end,
        decreases len - pos,
    {
        let chrom_id = read_u32(&bd, pos, e);
        let chrom_start = read_u32(&bd, pos + 4, e);
        let chrom_end = read_u32(&bd, pos + 8, e);
        if chrom_start == 0 && chrom_end == 0 {
            return Err(BBIReadError::InvalidFile("chrom start and end both equal 0".to_owned()));
        }
        if chrom_id != expected_chrom {
            return Err(
                BBIReadError::InvalidFile("block holds records of another chromosome".to_owned()),
            );
        }
        let mut nul = pos + 12;
        while nul < len && bd[nul] != 0
            invariant
                pos + 12 <= nul <= len,
                find_nul(bd@, pos + 12) == find_nul(bd@, nul as int),
            decreases len - nul,
        {
            nul = nul + 1;
        }
        proof {
            assert(find_nul(bd@, pos + 12) == nul);
        }
        let mut rest_bytes: Vec<u8> = Vec::new();
        let mut k = pos + 12;
        while k < nul
            invariant
                pos + 12 <= k <= nul <= len,
                len == bd@.len(),
                rest_bytes@ =~= bd@.subrange(pos + 12, k as int),
            decreases nul - k,
        {
            rest_bytes.push(bd[k]);
            proof {
                assert(rest_bytes@ =~= bd@.subrange(pos + 12, k + 1));
            }
            k = k + 1;
        }
        proof {
            assert(rest_bytes@ =~= bd@.subrange(pos + 12, find_nul(bd@, pos + 12)));
        }
        let rest = match bytes_to_string(rest_bytes) {
            Some(s) => s,
            None => {
                return Err(BBIReadError::InvalidFile("entry tail is not utf-8".to_owned()));
            },
        };
        let ghost pre_entries = entries@;
        if chrom_end > start && chrom_start < end {
            entries.push(BedEntry { start: chrom_start, end: chrom_end, rest });
        }
        let next = if nul < len {
            nul + 1
        } else {
            len
        };
        proof {
            lemma_find_nul_ge(bd@, pos + 12);
            let here = spec_bed_entries(bd@, e, expected_chrom, start, end, pos as int);
            let after = spec_bed_entries(bd@, e, expected_chrom, start, end, next as int);
            if whole is None {
                assert(here is None);
                assert(after is None);
            } else {
            let all = whole.unwrap();
            let tail = here.unwrap();
            assert(after is Some);
            if chrom_end > start && chrom_start < end {
                assert(tail[0] == BedSpecEntry {
                    start: chrom_start,
                    end: chrom_end,
                    rest: vstd::utf8::decode_utf8(bd@.subrange(pos + 12, find_nul(bd@, pos + 12))),
                });
                assert(all.subrange(pre_entries.len() as int, all.len() as int) == tail);
                assert(all[pre_entries.len() as int] == tail[0]);
                assert(bed_entries_match(entries@, all.subrange(0, entries@.len() as int))) by {
                    assert(entries@ =~= pre_entries.push(entries@[entries@.len() - 1]));
                    assert(all.subrange(0, entries@.len() as int) =~= all.subrange(
                        0,
                        pre_entries.len() as int,
                    ).push(all[pre_entries.len() as int]));
                }
                assert(all.subrange(entries@.len() as int, all.len() as int) =~= tail.subrange(
                    1,
                    tail.len() as int,
                ));
                assert(tail.subrange(1, tail.len() as int) =~= after.unwrap());
            } else {
                assert(here == after);
            }
            }
        }
        pos = next;
    }
    *known_offset = block.offset + block.size;
    proof {
        let all = whole.unwrap();
        assert(spec_bed_entries(bd@, e, expected_chrom, start, end, pos as int) matches Some(t)
            && t =~= Seq::<BedSpecEntry>::empty());
        assert(bed_entries_match(entries@, all.subrange(0, entries@.len() as int)));
        assert(all.subrange(0, entries@.len() as int) =~= all);
    }
    Ok(entries)
}

/// The bed items one block contributes to a query: its decoded overlapping
/// entries where it decodes, and a single error item (`None`) where it does
/// not.
pub open spec fn spec_bed_block_items(
    d: Seq<u8>,
    header: crate::bbi::BBIHeader,
    b: Block,
    chrom: u32,
    qs: u32,
    qe: u32,
) -> Seq<Option<BedSpecEntry>> {
    match spec_block_data(d, header.uncompress_buf_size, b) {
        Some(bd) => match spec_bed_entries(bd, header.endianness, chrom, qs, qe, 0) {
            Some(ens) => ens.map_values(|en: BedSpecEntry| Some(en)),
            None => seq![None],
        },
        None => seq![None],
    }
}

/// The bed items a query yields over the given blocks, in block order.
pub open spec fn spec_bed_query_items(
    d: Seq<u8>,
    header: crate::bbi::BBIHeader,
    blocks: Seq<Block>,
    chrom: u32,
    qs: u32,
    qe: u32,
) -> Seq<Option<BedSpecEntry>>
    decreases blocks.len(),
{
    if blocks.len() == 0 {
        Seq::empty()
    } else {
        spec_bed_query_items(d, header, blocks.drop_last(), chrom, qs, qe) + spec_bed_block_items(
            d,
            header,
            blocks.last(),
            chrom,
            qs,
            qe,
        )
    }
}

/// Whether the returned bed items render the stored ones: entry items
/// pointwise equal field for field, an error item exactly where a block
/// failed.
pub open spec fn bed_items_match(
    items: Seq<Result<BedEntry, BBIReadError>>,
    specs: Seq<Option<BedSpecEntry>>,
) -> bool {
    &&& items.len() == specs.len()
    &&& forall|i: int|
        0 <= i < items.len() ==> match #[trigger] specs[i] {
            Some(se) => items[i] matches Ok(en) && en.start == se.start && en.end == se.end
                && en.rest@ == se.rest,
            None => items[i] is Err,
        }
}

impl BigBedRead {
    /// Opens a new `BigBedRead` over the raw bytes of a bigBed file.
    /// Succeeds exactly on a parseable file whose magic names a bigBed, and
    /// each error kind comes exactly from its own cause.
    pub fn open(data: Vec<u8>) -> (r: Result<BigBedRead, BigBedReadOpenError>)
        ensures
            r is Ok <==> crate::bbiread::spec_info_parseable(data@)
                && crate::bbiread::spec_file_kind(data@).unwrap().0 is BigBed,
            r matches Ok(b) ==> spec_info_ok(b.data@, b.info) && b.info.filetype is BigBed
                && b.data@ == data@,
            r matches Err(e) ==> (e is NotABigBed <==> (data@.len() >= 64
                && crate::bbiread::spec_file_kind(data@) is None) || (
            crate::bbiread::spec_info_parseable(data@) && crate::bbiread::spec_file_kind(
                data@,
            ).unwrap().0 is BigWig)),
            r matches Err(e) ==> (e is IoError <==> data@.len() < 64 || (
            crate::bbiread::spec_header_parseable(data@) && !crate::bbiread::spec_tables_in_bounds(
                data@,
            ))),
            r matches Err(e) ==> (e is InvalidChroms <==> crate::bbiread::spec_header_parseable(
                data@,
            ) && crate::bbiread::spec_tables_in_bounds(data@) && !crate::bbiread::spec_chroms_ok(
                data@,
            )),
    {
        let info = match read_info(&data) {
            Ok(info) => info,
            Err(e) => {
                return Err(BigBedReadOpenError::from(e));
            },
        };
        match info.filetype {
            BBIFile::BigBed => {},
            _ => {
                return Err(BigBedReadOpenError::NotABigBed);
            },
        }
        Ok(BigBedRead { info, data })
    }

    /// Get basic info about the bbi file.
    pub fn get_info(&self) -> (r: &BBIFileInfo)
        ensures
            r == self.info,
    {
        &self.info
    }

    /// The chromosomes the file describes, as it lists them.
    pub fn get_chroms(&self) -> (r: Vec<ChromInfo>)
        ensures
            r@ =~= self.info.chrom_info@,
    {
        let mut out: Vec<ChromInfo> = Vec::new();
        let mut i: usize = 0;
        while i < self.info.chrom_info.len()
            invariant
                i <= self.info.chrom_info@.len(),
                out@.len() == i,
                forall|k: int| 0 <= k < i ==> #[trigger] out@[k] == self.info.chrom_info@[k],
            decreases self.info.chrom_info@.len() - i,
        {
            let c = &self.info.chrom_info[i];
            out.push(ChromInfo { name: c.name.clone(), id: c.id, length: c.length });
            i = i + 1;
        }
        out
    }

    /// Reads the autosql from this bigBed: the NUL-terminated text at the
    /// header's autosql offset.
    pub fn autosql(&self) -> (r: Result<String, BBIReadError>)
        ensures
            r is Ok <==> self.info.header.auto_sql_offset <= self.data@.len()
                && vstd::utf8::valid_utf8(
                self.data@.subrange(
                    self.info.header.auto_sql_offset as int,
                    find_nul(self.data@, self.info.header.auto_sql_offset as int),
                ),
            ),
            r matches Ok(s) ==> ({
                let aso = self.info.header.auto_sql_offset as int;
                let text = self.data@.subrange(aso, find_nul(self.data@, aso));
                s@ == vstd::utf8::decode_utf8(text)
            }),
    {
        let dl = self.data.len();
        let aso = self.info.header.auto_sql_offset;
        if aso > dl as u64 {
            return Err(BBIReadError::IoError("autosql offset lies outside the data".to_owned()));
        }
        let start = aso as usize;
        let mut nul = start;
        while nul < dl && self.data[nul] != 0
            invariant
                start <= nul <= dl,
                dl == self.data@.len(),
                find_nul(self.data@, start as int) == find_nul(self.data@, nul as int),
            decreases dl - nul,
        {
            nul = nul + 1;
        }
        proof {
            assert(find_nul(self.data@, start as int) == nul);
        }
        let mut text: Vec<u8> = Vec::new();
        let mut k = start;
        while k < nul
            invariant
                start <= k <= nul <= dl,
                dl == self.data@.len(),
                text@ =~= self.data@.subrange(start as int, k as int),
            decreases nul - k,
        {
            text.push(self.data[k]);
            proof {
                assert(text@ =~= self.data@.subrange(start as int, k + 1));
            }
            k = k + 1;
        }
        match bytes_to_string(text) {
            Some(s) => Ok(s),
            None => Err(BBIReadError::InvalidFile("invalid autosql: not UTF-8".to_owned())),
        }
    }

    /// For a given chromosome, start, and end, returns the intersecting
    /// `BedEntry`s: every entry of every data block the R-tree search finds
    /// that overlaps the query. A block that fails to decode contributes one
    /// error item in its place, and the walk goes on with the next block.
    #[verifier::loop_isolation(false)]
    pub fn get_interval(&self, chrom_name: &str, start: u32, end: u32) -> (r: Result<
        Vec<Result<BedEntry, BBIReadError>>,
        BBIReadError,
    >)
        ensures
            spec_chrom_id(self.info.chrom_info@, chrom_name@) is None ==> (r matches Err(e) && (
            e matches BBIReadError::InvalidChromosome(n) && n@ == chrom_name@)),
            r is Ok ==> spec_chrom_id(self.info.chrom_info@, chrom_name@) is Some,
            r matches Ok(items) ==> ({
                let e = self.info.header.endianness;
                let chrom_ix = spec_chrom_id(self.info.chrom_info@, chrom_name@).unwrap();
                let at = self.info.header.full_index_offset as int;
                let blocks = cir_search(
                    self.data@,
                    e,
                    at + 48,
                    chrom_ix,
                    start,
                    end,
                    CIR_TREE_MAX_DEPTH as nat,
                );
                &&& at + 48 <= self.data@.len()
                &&& spec_u32_at(self.data@, at, e) == crate::bbi::CIR_TREE_MAGIC
                &&& cir_valid(
                    self.data@,
                    e,
                    at + 48,
                    chrom_ix,
                    start,
                    end,
                    CIR_TREE_MAX_DEPTH as nat,
                )
                &&& bed_items_match(
                    items@,
                    spec_bed_query_items(
                        self.data@,
                        self.info.header,
                        blocks,
                        chrom_ix,
                        start,
                        end,
                    ),
                )
            }),
            r matches Ok(items) ==> forall|i: int|
                0 <= i < items@.len() ==> ((#[trigger] items@[i]) matches Ok(en) ==> en.end
                    > start && en.start < end),
    {
        let blocks = match search_cir_tree(
            &self.data,
            &self.info,
            self.info.header.full_index_offset,
            chrom_name,
            start,
            end,
        ) {
            Ok(blocks) => blocks,
            Err(e) => {
                return Err(BBIReadError::from(e));
            },
        };
        let chrom_ix = match self.info.chrom_id(chrom_name) {
            Ok(id) => id,
            Err(e) => {
                return Err(BBIReadError::from(e));
            },
        };
        let mut items: Vec<Result<BedEntry, BBIReadError>> = Vec::new();
        let mut known_offset: u64 = 0;
        let mut b: usize = 0;
        proof {
            assert(blocks@.subrange(0, 0) =~= Seq::<Block>::empty());
        }
        while b < blocks.len()
            invariant
                b <= blocks@.len(),
                bed_items_match(
                    items@,
                    spec_bed_query_items(
                        self.data@,
                        self.info.header,
                        blocks@.subrange(0, b as int),
                        chrom_ix,
                        start,
                        end,
                    ),
                ),
                forall|i: int|
                    0 <= i < items@.len() ==> ((#[trigger] items@[i]) matches Ok(en) ==> en.end
                        > start && en.start < end),
            decreases blocks@.len() - b,
        {
            let ghost pre_items = items@;
            let ghost pre_spec = spec_bed_query_items(
                self.data@,
                self.info.header,
                blocks@.subrange(0, b as int),
                chrom_ix,
                start,
                end,
            );
            match get_block_entries(
                &self.data,
                &self.info,
                blocks[b],
                &mut known_offset,
                chrom_ix,
                start,
                end,
            ) {
                Ok(entries) => {
                    let ghost ens = spec_bed_entries(
                        spec_block_data(
                            self.data@,
                            self.info.header.uncompress_buf_size,
                            blocks@[b as int],
                        ).unwrap(),
                        self.info.header.endianness,
                        chrom_ix,
                        start,
                        end,
                        0,
                    ).unwrap();
                    proof {
                        assert(spec_bed_block_items(
                            self.data@,
                            self.info.header,
                            blocks@[b as int],
                            chrom_ix,
                            start,
                            end,
                        ) =~= ens.map_values(|en: BedSpecEntry| Some(en)));
                    }
                    let mut j: usize = 0;
                    let mut entries = entries;
                    let ghost pulled = entries@;
                    while j < entries.len()
                        invariant
                            j <= entries@.len(),
                            entries@ == pulled,
                            bed_entries_match(pulled, ens),
                            items@.len() == pre_items.len() + j,
                            items@.subrange(0, pre_items.len() as int) == pre_items,
                            forall|k: int|
                                0 <= k < j ==> ((#[trigger] items@[pre_items.len() + k]) matches
                                Ok(en) && en.start == ens[k].start && en.end == ens[k].end
                                    && en.rest@ == ens[k].rest),
                            forall|i: int|
                                0 <= i < pulled.len() ==> (#[trigger] pulled[i]).end > start
                                    && pulled[i].start < end,
                            forall|i: int|
                                0 <= i < items@.len() ==> ((#[trigger] items@[i]) matches Ok(en)
                                    ==> en.end > start && en.start < end),
                        decreases entries@.len() - j,
                    {
                        let en = &entries[j];
                        items.push(
                            Ok(BedEntry { start: en.start, end: en.end, rest: en.rest.clone() }),
                        );
                        proof {
                            assert(items@.subrange(0, pre_items.len() as int) =~= pre_items);
                        }
                        j = j + 1;
                    }
                },
                Err(e) => {
                    proof {
                        assert(spec_bed_block_items(
                            self.data@,
                            self.info.header,
                            blocks@[b as int],
                            chrom_ix,
                            start,
                            end,
                        ) =~= seq![None::<BedSpecEntry>]);
                    }
                    items.push(Err(e));
                    proof {
                        assert(items@.subrange(0, pre_items.len() as int) =~= pre_items);
                        assert(items@.len() == pre_items.len() + 1);
                    }
                },
            }
            proof {
                assert(blocks@.subrange(0, b + 1).drop_last() =~= blocks@.subrange(0, b as int));
                assert(blocks@.subrange(0, b + 1).last() == blocks@[b as int]);
                let block_items = spec_bed_block_items(
                    self.data@,
                    self.info.header,
                    blocks@[b as int],
                    chrom_ix,
                    start,
                    end,
                );
                let next_spec = spec_bed_query_items(
                    self.data@,
                    self.info.header,
                    blocks@.subrange(0, b + 1),
                    chrom_ix,
                    start,
                    end,
                );
                assert(next_spec == pre_spec + block_items);
                assert forall|i: int| 0 <= i < items@.len() implies match #[trigger] next_spec[i] {
                    Some(se) => items@[i] matches Ok(en) && en.start == se.start && en.end
                        == se.end && en.rest@ == se.rest,
                    None => items@[i] is Err,
                } by {
                    if i < pre_items.len() {
                        assert(items@[i] == items@.subrange(0, pre_items.len() as int)[i]);
                        assert(next_spec[i] == pre_spec[i]);
                    } else {
                        let k = i - pre_items.len();
                        assert(items@[pre_items.len() + k] == items@[i]);
                        assert(next_spec[i] == block_items[k]);
                    }
                }
                assert(bed_items_match(items@, next_spec));
            }
            b = b + 1;
        }
        proof {
            assert(blocks@.subrange(0, b as int) =~= blocks@);
        }
        Ok(items)
    }

    /// As `get_interval`, taking the reader by value.
    pub fn get_interval_move(self, chrom_name: &str, start: u32, end: u32) -> (r: Result<
        Vec<Result<BedEntry, BBIReadError>>,
        BBIReadError,
    >)
        ensures
            spec_chrom_id(self.info.chrom_info@, chrom_name@) is None ==> (r matches Err(e) && (
            e matches BBIReadError::InvalidChromosome(n) && n@ == chrom_name@)),
            r is Ok ==> spec_chrom_id(self.info.chrom_info@, chrom_name@) is Some,
            r matches Ok(items) ==> ({
                let e = self.info.header.endianness;
                let chrom_ix = spec_chrom_id(self.info.chrom_info@, chrom_name@).unwrap();
                let at = self.info.header.full_index_offset as int;
                let blocks = cir_search(
                    self.data@,
                    e,
                    at + 48,
                    chrom_ix,
                    start,
                    end,
                    CIR_TREE_MAX_DEPTH as nat,
                );
                &&& at + 48 <= self.data@.len()
                &&& spec_u32_at(self.data@, at, e) == crate::bbi::CIR_TREE_MAGIC
                &&& cir_valid(
                    self.data@,
                    e,
                    at + 48,
                    chrom_ix,
                    start,
                    end,
                    CIR_TREE_MAX_DEPTH as nat,
                )
                &&& bed_items_match(
                    items@,
                    spec_bed_query_items(
                        self.data@,
                        self.info.header,
                        blocks,
                        chrom_ix,
                        start,
                        end,
                    ),
                )
            }),
            r matches Ok(items) ==> forall|i: int|
                0 <= i < items@.len() ==> ((#[trigger] items@[i]) matches Ok(en) ==> en.end
                    > start && en.start < end),
    {
        self.get_interval(chrom_name, start, end)
    }

    /// For a given chromosome, start, end, and reduction level, returns the
    /// intersecting `ZoomRecord`s of that zoom level. Errors with
    /// `ReductionLevelNotFound` exactly when no zoom header carries the
    /// requested reduction level.
    #[verifier::loop_isolation(false)]
    pub fn get_zoom_interval(
        &self,
        chrom_name: &str,
        start: u32,
        end: u32,
        reduction_level: u32,
    ) -> (r: Result<Vec<Result<ZoomRecord, BBIReadError>>, ZoomIntervalError>)
        ensures
            spec_chrom_id(self.info.chrom_info@, chrom_name@) is None ==> (r matches Err(e) && (
            e matches ZoomIntervalError::BBIReadError(b) && (
            b matches BBIReadError::InvalidChromosome(n) && n@ == chrom_name@))),
            spec_chrom_id(self.info.chrom_info@, chrom_name@) is Some ==> ((r matches Err(e) && e
                is ReductionLevelNotFound) <==> spec_find_zoom(
                self.info.zoom_headers@,
                reduction_level,
            ) is None),
            r matches Ok(items) ==> ({
                let e = self.info.header.endianness;
                let chrom_ix = spec_chrom_id(self.info.chrom_info@, chrom_name@).unwrap();
                let zh = spec_find_zoom(self.info.zoom_headers@, reduction_level).unwrap();
                let at = zh.index_offset as int;
                let blocks = cir_search(
                    self.data@,
                    e,
                    at + 48,
                    chrom_ix,
                    start,
                    end,
                    CIR_TREE_MAX_DEPTH as nat,
                );
                &&& spec_chrom_id(self.info.chrom_info@, chrom_name@) is Some
                &&& spec_find_zoom(self.info.zoom_headers@, reduction_level) is Some
                &&& at + 48 <= self.data@.len()
                &&& spec_u32_at(self.data@, at, e) == crate::bbi::CIR_TREE_MAGIC
                &&& cir_valid(
                    self.data@,
                    e,
                    at + 48,
                    chrom_ix,
                    start,
                    end,
                    CIR_TREE_MAX_DEPTH as nat,
                )
                &&& zoom_items_match(
                    items@,
                    spec_zoom_query_items(
                        self.data@,
                        self.info.header,
                        blocks,
                        chrom_ix,
                        start,
                        end,
                    ),
                )
                &&& forall|i: int|
                    0 <= i < items@.len() ==> ((#[trigger] items@[i]) matches Ok(rec)
                        ==> rec.chrom == chrom_ix && rec.end > start && rec.start < end)
            }),
    {
        let chrom = match self.info.chrom_id(chrom_name) {
            Ok(id) => id,
            Err(e) => {
                return Err(ZoomIntervalError::from(e));
            },
        };
        let zoom_header = match find_zoom_header(&self.info.zoom_headers, reduction_level) {
            Some(h) => h,
            None => {
                return Err(ZoomIntervalError::ReductionLevelNotFound);
            },
        };
        let blocks = match search_cir_tree(
            &self.data,
            &self.info,
            zoom_header.index_offset,
            chrom_name,
            start,
            end,
        ) {
            Ok(blocks) => blocks,
            Err(e) => {
                return Err(ZoomIntervalError::from(e));
            },
        };
        let mut items: Vec<Result<ZoomRecord, BBIReadError>> = Vec::new();
        let mut known_offset: u64 = 0;
        let mut b: usize = 0;
        proof {
            assert(blocks@.subrange(0, 0) =~= Seq::<Block>::empty());
        }
        while b < blocks.len()
            invariant
                b <= blocks@.len(),
                zoom_items_match(
                    items@,
                    spec_zoom_query_items(
                        self.data@,
                        self.info.header,
                        blocks@.subrange(0, b as int),
                        chrom,
                        start,
                        end,
                    ),
                ),
                forall|i: int|
                    0 <= i < items@.len() ==> ((#[trigger] items@[i]) matches Ok(rec)
                        ==> rec.chrom == chrom && rec.end > start && rec.start < end),
            decreases blocks@.len() - b,
        {
            let ghost pre_items = items@;
            let ghost pre_spec = spec_zoom_query_items(
                self.data@,
                self.info.header,
                blocks@.subrange(0, b as int),
                chrom,
                start,
                end,
            );
            match get_zoom_block_values(
                &self.data,
                &self.info.header,
                blocks[b],
                &mut known_offset,
                chrom,
                start,
                end,
            ) {
                Ok(records) => {
                    proof {
                        assert(spec_zoom_block_items(
                            self.data@,
                            self.info.header,
                            blocks@[b as int],
                            chrom,
                            start,
                            end,
                        ) =~= records@.map_values(|rec: ZoomRecord| Some(rec)));
                    }
                    let mut j: usize = 0;
                    let ghost pulled = records@;
                    let records = records;
                    while j < records.len()
                        invariant
                            j <= records@.len(),
                            records@ == pulled,
                            items@.len() == pre_items.len() + j,
                            items@.subrange(0, pre_items.len() as int) == pre_items,
                            forall|k: int|
                                0 <= k < j ==> items@[pre_items.len() + k] == Ok::<
                                    ZoomRecord,
                                    BBIReadError,
                                >(pulled[k]),
                            forall|i: int|
                                0 <= i < pulled.len() ==> (#[trigger] pulled[i]).chrom == chrom
                                    && pulled[i].end > start && pulled[i].start < end,
                            forall|i: int|
                                0 <= i < items@.len() ==> ((#[trigger] items@[i]) matches Ok(rec)
                                    ==> rec.chrom == chrom && rec.end > start && rec.start < end),
                        decreases records@.len() - j,
                    {
                        items.push(Ok(records[j]));
                        proof {
                            assert(items@.subrange(0, pre_items.len() as int) =~= pre_items);
                        }
                        j = j + 1;
                    }
                },
                Err(e) => {
                    proof {
                        assert(spec_zoom_block_items(
                            self.data@,
                            self.info.header,
                            blocks@[b as int],
                            chrom,
                            start,
                            end,
                        ) =~= seq![None::<ZoomRecord>]);
                    }
                    items.push(Err(e));
                    proof {
                        assert(items@.subrange(0, pre_items.len() as int) =~= pre_items);
                        assert(items@.len() == pre_items.len() + 1);
                    }
                },
            }
            proof {
                assert(blocks@.subrange(0, b + 1).drop_last() =~= blocks@.subrange(0, b as int));
                assert(blocks@.subrange(0, b + 1).last() == blocks@[b as int]);
                let block_items = spec_zoom_block_items(
                    self.data@,
                    self.info.header,
                    blocks@[b as int],
                    chrom,
                    start,
                    end,
                );
                let next_spec = spec_zoom_query_items(
                    self.data@,
                    self.info.header,
                    blocks@.subrange(0, b + 1),
                    chrom,
                    start,
                    end,
                );
                assert(next_spec == pre_spec + block_items);
                assert forall|i: int| 0 <= i < items@.len() implies match #[trigger] next_spec[i] {
                    Some(rec) => items@[i] == Ok::<ZoomRecord, BBIReadError>(rec),
                    None => items@[i] is Err,
                } by {
                    if i < pre_items.len() {
                        assert(items@[i] == items@.subrange(0, pre_items.len() as int)[i]);
                        assert(next_spec[i] == pre_spec[i]);
                    } else {
                        assert(next_spec[i] == block_items[i - pre_items.len()]);
                    }
                }
                assert(zoom_items_match(items@, next_spec));
            }
            b = b + 1;
        }
        proof {
            assert(blocks@.subrange(0, b as int) =~= blocks@);
        }
        Ok(items)
    }
}

} // verus!
